//! The searcher for alternating grids, where odd rows cross odd columns in
//! blocked cells.
use vstd::prelude::*;
use crate::grid::{
    Word, Grid, cells, is_square, column, alternating_entries, all_distinct, is_blocked_cell, EMPTY_CELL, BLOCK_CELL, make_empty_grid, place_word_in_row_mut,
    place_word_in_col_mut, words_distinct, copy_word, set_cell,
};
use crate::data::{
    Clue, Pair, PairView, MaskLookup, clues_view, pairs_view, multi_surfaces, groups_view,
    pairs_have_len, clues_have_len, matching_indices, shows_keys, restrict, get_multi_surfaces, make_ms_pairs,
    make_mask_lookup, lemma_multi_surfaces_len, lemma_ms_pairs_len, surface_view, indices_below,
    lemma_matching_indices_below, lemma_filter_matching, index_test, LOOKUP_BUCKETS,
};
use crate::product::{cartesian_product, product_of, lists_view};
use crate::qc::{QuinianCrossword, FoundCrossword, FoundView, surfaces_view, found_view};
use super::{PairStatus, SearchState, Searcher, kind_name, alternating_name, make_kind_name, word_greater, word_gt};
use super::dense::{pick, filter_by_length, get_crossword, empty_surfaces, clear_surfaces, lemma_choices_below};

verus! {

/// The cell pattern of an empty alternating grid.
pub open spec fn sparse_cell(r: int, c: int) -> char {
    if is_blocked_cell(r, c) {
        BLOCK_CELL
    } else {
        EMPTY_CELL
    }
}

/// Make an empty alternating grid of side `size`: blocks where an odd row
/// meets an odd column, unfilled letter cells elsewhere.
pub fn make_sparse_grid(size: usize) -> (g: Grid)
    ensures
        is_square(cells(g), size as int),
        forall|r: int, c: int| 0 <= r < size && 0 <= c < size ==> cells(g)[r][c] == sparse_cell(r, c),
{
    let mut grid = make_empty_grid(size);
    reset_sparse_grid(&mut grid);
    grid
}

/// Reset the grid to the empty alternating pattern.
pub fn reset_sparse_grid(g: &mut Grid)
    ensures
        cells(*final(g)).len() == cells(*old(g)).len(),
        forall|r: int| 0 <= r < cells(*old(g)).len() ==> (#[trigger] cells(*final(g))[r]).len() == cells(*old(g))[r].len(),
        forall|r: int, c: int| 0 <= r < cells(*final(g)).len() && 0 <= c < cells(*final(g))[r].len() ==> cells(*final(g))[r][c] == sparse_cell(r, c),
{
    let ghost g0 = cells(*g);
    let mut row: usize = 0;
    while row < g.len()
        invariant
            row <= cells(*g).len(),
            cells(*g).len() == g0.len(),
            forall|r: int| 0 <= r < g0.len() ==> (#[trigger] cells(*g)[r]).len() == g0[r].len(),
            forall|r: int, c: int| 0 <= r < row && 0 <= c < cells(*g)[r].len() ==> cells(*g)[r][c] == sparse_cell(r, c),
        decreases g0.len() - row,
    {
        let mut col: usize = 0;
        while col < g[row].len()
            invariant
                row < cells(*g).len(),
                col <= cells(*g)[row as int].len(),
                cells(*g).len() == g0.len(),
                forall|r: int| 0 <= r < g0.len() ==> (#[trigger] cells(*g)[r]).len() == g0[r].len(),
                forall|r: int, c: int| 0 <= r < row && 0 <= c < cells(*g)[r].len() ==> cells(*g)[r][c] == sparse_cell(r, c),
                forall|c: int| 0 <= c < col ==> cells(*g)[row as int][c] == sparse_cell(row as int, c),
            decreases cells(*g)[row as int].len() - col,
        {
            let ch = if row % 2 == 1 && col % 2 == 1 {
                BLOCK_CELL
            } else {
                EMPTY_CELL
            };
            set_cell(g, row, col, ch);
            col = col + 1;
        }
        row = row + 1;
    }
}


/// Place a word in a row in place.
pub fn sparse_place_word_in_row_mut(grid: &mut Grid, row: usize, word: &Word)
    requires
        row < old(grid)@.len(),
    ensures
        cells(*final(grid)) == cells(*old(grid)).update(row as int, word@),
{
    place_word_in_row_mut(grid, row, word)
}

/// Place a word in a column in place, from the top row down.
pub fn sparse_place_word_in_col_mut(grid: &mut Grid, col: usize, word: &Word)
    requires
        word@.len() <= old(grid)@.len(),
        forall|r: int| 0 <= r < word@.len() ==> col < (#[trigger] cells(*old(grid))[r]).len(),
    ensures
        cells(*final(grid)).len() == cells(*old(grid)).len(),
        forall|r: int| 0 <= r < cells(*old(grid)).len() ==> (#[trigger] cells(*final(grid))[r]).len() == cells(*old(grid))[r].len(),
        forall|r: int, c: int| 0 <= r < cells(*old(grid)).len() && 0 <= c < cells(*old(grid))[r].len() ==>
            cells(*final(grid))[r][c] == if c == col && r < word@.len() { word@[r] } else { cells(*old(grid))[r][c] },
{
    place_word_in_col_mut(grid, col, word)
}

/// Put two words in rows 0 and 2 of an alternating grid.
pub fn init_sparse_grid(g: &mut Grid, w1: &Word, w2: &Word)
    requires
        old(g)@.len() >= 3,
    ensures
        cells(*final(g)) == cells(*old(g)).update(0, w1@).update(2, w2@),
{
    sparse_place_word_in_row_mut(g, 0, w1);
    assert(cells(*g).len() == g@.len());
    sparse_place_word_in_row_mut(g, 2, w2);
}

/// The cells of column `col` at the rows listed in `mask`.
pub fn find_col_mask(grid: &Grid, col: usize, mask: Vec<usize>) -> (prefix: Word)
    requires
        forall|k: int| 0 <= k < mask@.len() ==> (#[trigger] mask@[k]) < grid@.len() && col < cells(*grid)[mask@[k] as int].len(),
    ensures
        prefix@ == Seq::new(mask@.len(), |k: int| cells(*grid)[mask@[k] as int][col as int]),
{
    let mut prefix: Word = Vec::new();
    let mut k: usize = 0;
    while k < mask.len()
        invariant
            k <= mask@.len(),
            forall|m: int| 0 <= m < mask@.len() ==> (#[trigger] mask@[m]) < grid@.len() && col < cells(*grid)[mask@[m] as int].len(),
            prefix@ == Seq::new(k as nat, |m: int| cells(*grid)[mask@[m] as int][col as int]),
        decreases mask@.len() - k,
    {
        let row = mask[k];
        assert(row < grid@.len() && col < cells(*grid)[row as int].len());
        prefix.push(grid[row][col]);
        k = k + 1;
        assert(prefix@ =~= Seq::new(k as nat, |m: int| cells(*grid)[mask@[m] as int][col as int]));
    }
    prefix
}

/// The cells of row `row` at the columns listed in `mask`.
pub fn find_row_mask(grid: &Grid, row: usize, mask: Vec<usize>) -> (prefix: Word)
    requires
        row < grid@.len(),
        forall|k: int| 0 <= k < mask@.len() ==> (#[trigger] mask@[k]) < cells(*grid)[row as int].len(),
    ensures
        prefix@ == Seq::new(mask@.len(), |k: int| cells(*grid)[row as int][mask@[k] as int]),
{
    let mut prefix: Word = Vec::new();
    let mut k: usize = 0;
    while k < mask.len()
        invariant
            row < grid@.len(),
            k <= mask@.len(),
            forall|m: int| 0 <= m < mask@.len() ==> (#[trigger] mask@[m]) < cells(*grid)[row as int].len(),
            prefix@ == Seq::new(k as nat, |m: int| cells(*grid)[row as int][mask@[m] as int]),
        decreases mask@.len() - k,
    {
        let col = mask[k];
        assert(col < cells(*grid)[row as int].len());
        prefix.push(grid[row][col]);
        k = k + 1;
        assert(prefix@ =~= Seq::new(k as nat, |m: int| cells(*grid)[row as int][mask@[m] as int]));
    }
    prefix
}

/// The first and third positions, where the entries of an alternating grid
/// cross.
pub fn first_and_third() -> (mask: Vec<usize>)
    ensures
        mask@ == seq![0usize, 2usize],
{
    let mask = vec![0, 2];
    assert(mask@ =~= seq![0usize, 2usize]);
    mask
}

/// All the words of an alternating grid: the rows with even index, then the
/// columns with even index.
pub fn sparse_get_all_words(size: usize, g: &Grid) -> (words: Vec<Word>)
    requires
        is_square(cells(*g), size as int),
    ensures
        words@.map_values(|w: Word| w@) == alternating_entries(cells(*g)),
{
    let e = size / 2 + size % 2;
    assert(e == (size as int + 1) / 2);
    let mut words: Vec<Word> = Vec::new();
    let mut k: usize = 0;
    while k < e
        invariant
            is_square(cells(*g), size as int),
            e == (size as int + 1) / 2,
            k <= e,
            words@.len() == k,
            forall|m: int| 0 <= m < k ==> (#[trigger] words@[m])@ == cells(*g)[2 * m],
        decreases e - k,
    {
        words.push(copy_word(&g[2 * k]));
        k = k + 1;
    }
    let mut k: usize = 0;
    while k < e
        invariant
            is_square(cells(*g), size as int),
            e == (size as int + 1) / 2,
            k <= e,
            words@.len() == e + k,
            forall|m: int| 0 <= m < e ==> (#[trigger] words@[m])@ == cells(*g)[2 * m],
            forall|m: int| 0 <= m < k ==> (#[trigger] words@[e + m])@ == column(cells(*g), 2 * m),
        decreases e - k,
    {
        words.push(crate::grid::get_word_in_col(g, 2 * k));
        k = k + 1;
    }
    assert(words@.len() == 2 * e);
    assert(words@.map_values(|w: Word| w@) =~= alternating_entries(cells(*g))) by {
        assert forall|k: int| e <= k < 2 * e implies words@[k]@ == column(cells(*g), 2 * (k - e)) by {
            assert(words@[e + (k - e)]@ == column(cells(*g), 2 * (k - e)));
        }
    }
    words
}

/// No word occurs twice among the entries of two alternating grids.
pub fn sparse_no_duplicates_in_grid(size: usize, g1: &Grid, g2: &Grid) -> (r: bool)
    requires
        is_square(cells(*g1), size as int),
        is_square(cells(*g2), size as int),
    ensures
        r == all_distinct(alternating_entries(cells(*g1)) + alternating_entries(cells(*g2))),
{
    let mut words = sparse_get_all_words(size, g1);
    let mut words2 = sparse_get_all_words(size, g2);
    let ghost v1 = words@;
    let ghost v2 = words2@;
    words.append(&mut words2);
    assert(words@.map_values(|w: Word| w@) =~= v1.map_values(|w: Word| w@) + v2.map_values(|w: Word| w@));
    words_distinct(&words)
}


/// The number of entries per axis of an alternating grid of side `n`.
pub open spec fn entry_count(n: int) -> int {
    (n + 1) / 2
}

/// The cells of row 0 and row 2 of column `c`.
pub open spec fn col_mask(g: Seq<Seq<char>>, c: int) -> Seq<char> {
    seq![g[0][c], g[2][c]]
}

/// The cells of column 0 and column 2 of row `r`.
pub open spec fn row_mask(g: Seq<Seq<char>>, r: int) -> Seq<char> {
    seq![g[r][0], g[r][2]]
}

/// A pair fits across row `r` of the grids: its answers agree with the cells
/// at every even column.
pub open spec fn across_fits(g1: Seq<Seq<char>>, g2: Seq<Seq<char>>, r: int, n: int) -> spec_fn(PairView) -> bool {
    |p: PairView|
        restrict(p.1, 0, 2) == row_mask(g1, r) && restrict(p.2, 0, 2) == row_mask(g2, r) && forall|c: int|
            4 <= c < n && c % 2 == 0 ==> p.1[c] == #[trigger] g1[r][c] && p.2[c] == g2[r][c]
}

/// The pairs that can fill across row `r`.
pub open spec fn across_candidates(pairs: Seq<PairView>, g1: Seq<Seq<char>>, g2: Seq<Seq<char>>, r: int, n: int) -> Seq<usize> {
    matching_indices(pairs, across_fits(g1, g2, r, n), pairs.len() as int)
}

/// The candidate lists of the across rows from row 4 on.
pub open spec fn across_lists(pairs: Seq<PairView>, g1: Seq<Seq<char>>, g2: Seq<Seq<char>>, n: int) -> Seq<Seq<usize>> {
    Seq::new((entry_count(n) - 2) as nat, |m: int| across_candidates(pairs, g1, g2, 4 + 2 * m, n))
}

/// The cell at row `r`, column `c` once seeds `i` and `j` and the downs `d`
/// are placed.
pub open spec fn cell_after_downs(pairs: Seq<PairView>, i: int, j: int, d: Seq<usize>, second: bool, r: int, c: int) -> char {
    if c % 2 == 0 {
        pick(pairs[d[c / 2] as int], second)[r]
    } else if r == 0 {
        pick(pairs[i], second)[c]
    } else if r == 2 {
        pick(pairs[j], second)[c]
    } else {
        sparse_cell(r, c)
    }
}

/// The grid once seeds `i` and `j` and the downs `d` are placed.
pub open spec fn grid_after_downs(pairs: Seq<PairView>, i: int, j: int, d: Seq<usize>, n: nat, second: bool) -> Seq<Seq<char>> {
    Seq::new(n, |r: int| Seq::new(n, |c: int| cell_after_downs(pairs, i, j, d, second, r, c)))
}

/// The grid once the acrosses `a` fill the even rows from row 4 on.
pub open spec fn final_grid(
    pairs: Seq<PairView>,
    i: int,
    j: int,
    d: Seq<usize>,
    a: Seq<usize>,
    n: nat,
    second: bool,
) -> Seq<Seq<char>> {
    Seq::new(
        n,
        |r: int|
            Seq::new(
                n,
                |c: int|
                    if r % 2 == 0 && r >= 4 {
                        pick(pairs[a[(r - 4) / 2] as int], second)[c]
                    } else {
                        cell_after_downs(pairs, i, j, d, second, r, c)
                    },
            ),
    )
}

/// The pairs that can run down even column `2 m` below seeds `i` and `j`.
pub open spec fn alternating_down_candidates(pairs: Seq<PairView>, i: int, j: int, m: int) -> Seq<usize> {
    matching_indices(
        pairs,
        shows_keys(
            0,
            2,
            seq![pairs[i].1[2 * m], pairs[j].1[2 * m]],
            seq![pairs[i].2[2 * m], pairs[j].2[2 * m]],
        ),
        pairs.len() as int,
    )
}

/// The candidate lists of the down entries below seeds `i` and `j`.
pub open spec fn alternating_down_lists(pairs: Seq<PairView>, i: int, j: int, n: int) -> Seq<Seq<usize>> {
    Seq::new(entry_count(n) as nat, |m: int| alternating_down_candidates(pairs, i, j, m))
}

/// The candidates for every even column: the pairs whose answers show, at
/// their first and third letters, the cells of rows 0 and 2 of that column;
/// and every way of choosing one candidate per column.
pub fn sparse_find_possible_downs(size: usize, lookup: &MaskLookup, pairs: &Vec<Pair>, grid1: &Grid, grid2: &Grid) -> (r: Vec<Vec<usize>>)
    requires
        size >= 3,
        lookup.indexes(pairs_view(pairs@)),
        is_square(cells(*grid1), size as int),
        is_square(cells(*grid2), size as int),
    ensures
        lists_view(r@) == product_of(
            Seq::new(
                entry_count(size as int) as nat,
                |m: int| lookup.spec_get(pairs_view(pairs@), col_mask(cells(*grid1), 2 * m), col_mask(cells(*grid2), 2 * m)),
            ),
        ),
{
    let e = size / 2 + size % 2;
    let ghost want = Seq::new(
        entry_count(size as int) as nat,
        |m: int| lookup.spec_get(pairs_view(pairs@), col_mask(cells(*grid1), 2 * m), col_mask(cells(*grid2), 2 * m)),
    );
    let mut lists: Vec<Vec<usize>> = Vec::new();
    let mut m: usize = 0;
    while m < e
        invariant
            size >= 3,
            e == entry_count(size as int),
            is_square(cells(*grid1), size as int),
            is_square(cells(*grid2), size as int),
            lookup.indexes(pairs_view(pairs@)),
            m <= e,
            lists@.len() == m,
            want == Seq::new(
                entry_count(size as int) as nat,
                |m: int| lookup.spec_get(pairs_view(pairs@), col_mask(cells(*grid1), 2 * m), col_mask(cells(*grid2), 2 * m)),
            ),
            forall|k: int| 0 <= k < m ==> (#[trigger] lists@[k])@ == want[k],
        decreases e - m,
    {
        let col = 2 * m;
        assert(cells(*grid1)[0].len() == size && cells(*grid1)[2].len() == size);
        assert(cells(*grid2)[0].len() == size && cells(*grid2)[2].len() == size);
        let mask1 = find_col_mask(grid1, col, first_and_third());
        let mask2 = find_col_mask(grid2, col, first_and_third());
        assert(mask1@ =~= col_mask(cells(*grid1), col as int));
        assert(mask2@ =~= col_mask(cells(*grid2), col as int));
        let down_pairs = lookup.get(pairs, &mask1, &mask2);
        lists.push(down_pairs);
        m = m + 1;
    }
    assert(lists_view(lists@) =~= want);
    cartesian_product(lists)
}

/// Whether a pair's answers agree with the cells of row `row` at every even
/// column from column 4 on.
fn matches_rest_of_row(p: &Pair, g1: &Grid, g2: &Grid, row: usize, size: usize) -> (r: bool)
    requires
        is_square(cells(*g1), size as int),
        is_square(cells(*g2), size as int),
        row < size,
        p.1@.len() == size,
        p.2@.len() == size,
    ensures
        r == forall|c: int| 4 <= c < size && c % 2 == 0 ==> p.1@[c] == #[trigger] cells(*g1)[row as int][c]
            && p.2@[c] == cells(*g2)[row as int][c],
{
    let mut col: usize = 4;
    while col < size
        invariant
            is_square(cells(*g1), size as int),
            is_square(cells(*g2), size as int),
            row < size,
            p.1@.len() == size,
            p.2@.len() == size,
            col >= 4,
            col % 2 == 0,
            forall|c: int| 4 <= c < col && c < size && c % 2 == 0 ==> p.1@[c] == #[trigger] cells(*g1)[row as int][c]
                && p.2@[c] == cells(*g2)[row as int][c],
        decreases size - col,
    {
        assert(cells(*g1)[row as int].len() == size && cells(*g2)[row as int].len() == size);
        if p.1[col] != g1[row][col] || p.2[col] != g2[row][col] {
            return false;
        }
        if size - col <= 2 {
            assert forall|c: int| 4 <= c < size && c % 2 == 0 implies p.1@[c] == #[trigger] cells(*g1)[row as int][c]
                && p.2@[c] == cells(*g2)[row as int][c] by {
                assert(c < col + 2);
                assert(c <= col);
                if c == col {
                    assert(p.1@[c] == cells(*g1)[row as int][c]);
                    assert(p.2@[c] == cells(*g2)[row as int][c]);
                } else {
                    assert(c < col);
                }
            }
            return true;
        }
        assert forall|c: int| 4 <= c < col + 2 && c < size && c % 2 == 0 implies p.1@[c] == #[trigger] cells(*g1)[row as int][c]
            && p.2@[c] == cells(*g2)[row as int][c] by {
            if c >= col {
                assert(c == col);
            }
        }
        col = col + 2;
    }
    true
}

/// The pairs that can fill across row `row`: those whose answers agree with
/// the cells of the row at every even column.
pub fn find_row_candidates(
    size: usize,
    lookup: &MaskLookup,
    pairs: &Vec<Pair>,
    grid1: &Grid,
    grid2: &Grid,
    row: usize,
) -> (r: Vec<usize>)
    requires
        size >= 3,
        row < size,
        lookup.first == 0,
        lookup.second == 2,
        lookup.indexes(pairs_view(pairs@)),
        pairs_have_len(pairs_view(pairs@), size as int),
        is_square(cells(*grid1), size as int),
        is_square(cells(*grid2), size as int),
    ensures
        r@ == across_candidates(pairs_view(pairs@), cells(*grid1), cells(*grid2), row as int, size as int),
{
    let ghost pv = pairs_view(pairs@);
    let ghost g1 = cells(*grid1);
    let ghost g2 = cells(*grid2);
    let np = pairs.len();
    assert(pv.len() == np);
    assert(g1[row as int].len() == size && g2[row as int].len() == size);
    let mask1 = find_row_mask(grid1, row, first_and_third());
    let mask2 = find_row_mask(grid2, row, first_and_third());
    assert(mask1@ =~= row_mask(g1, row as int));
    assert(mask2@ =~= row_mask(g2, row as int));
    let cands = lookup.get(pairs, &mask1, &mask2);
    let ghost loose = shows_keys(0, 2, mask1@, mask2@);
    let ghost strict = across_fits(g1, g2, row as int, size as int);
    let ghost test = index_test(pv, strict);
    let mut kept: Vec<usize> = Vec::new();
    let mut t: usize = 0;
    while t < cands.len()
        invariant
            pv == pairs_view(pairs@),
            g1 == cells(*grid1),
            g2 == cells(*grid2),
            is_square(g1, size as int),
            is_square(g2, size as int),
            row < size,
            pairs_have_len(pv, size as int),
            cands@ == matching_indices(pv, loose, pv.len() as int),
            indices_below(cands@, pv.len() as int),
            pv.len() == np,
            loose == shows_keys(0, 2, row_mask(g1, row as int), row_mask(g2, row as int)),
            strict == across_fits(g1, g2, row as int, size as int),
            test == index_test(pv, strict),
            t <= cands@.len(),
            kept@ == cands@.subrange(0, t as int).filter(test),
        decreases cands@.len() - t,
    {
        let q = cands[t];
        proof {
            reveal(Seq::filter);
            assert(cands@.subrange(0, t + 1).drop_last() =~= cands@.subrange(0, t as int));
            lemma_matching_indices_below(pv, loose, pv.len() as int);
        }
        assert(pv[q as int] == pairs@[q as int]@);
        assert(loose(pv[q as int]));
        let fits = matches_rest_of_row(&pairs[q], grid1, grid2, row, size);
        assert(fits == test(q));
        if fits {
            kept.push(q);
        }
        t = t + 1;
    }
    proof {
        assert(cands@.subrange(0, t as int) =~= cands@);
        assert forall|p: PairView| #[trigger] strict(p) implies loose(p) by {}
        lemma_filter_matching(pv, loose, strict, pv.len() as int);
    }
    kept
}

/// The pairs that can fill the bottom row of a 5 by 5 alternating grid.
pub fn find_final_row_candidates(lookup: &MaskLookup, pairs: &Vec<Pair>, grid1: &Grid, grid2: &Grid) -> (r: Vec<usize>)
    requires
        lookup.first == 0,
        lookup.second == 2,
        lookup.indexes(pairs_view(pairs@)),
        pairs_have_len(pairs_view(pairs@), 5),
        is_square(cells(*grid1), 5),
        is_square(cells(*grid2), 5),
    ensures
        r@ == across_candidates(pairs_view(pairs@), cells(*grid1), cells(*grid2), 4, 5),
{
    find_row_candidates(5, lookup, pairs, grid1, grid2, 4)
}

/// The candidates for every across row from row 4 on: the pairs whose
/// answers agree with the cells already placed at every even column; and
/// every way of choosing one candidate per row.
pub fn sparse_find_possible_final_acrosses(
    size: usize,
    lookup: &MaskLookup,
    pairs: &Vec<Pair>,
    grid1: &Grid,
    grid2: &Grid,
) -> (r: Vec<Vec<usize>>)
    requires
        size >= 3,
        lookup.first == 0,
        lookup.second == 2,
        lookup.indexes(pairs_view(pairs@)),
        pairs_have_len(pairs_view(pairs@), size as int),
        is_square(cells(*grid1), size as int),
        is_square(cells(*grid2), size as int),
    ensures
        lists_view(r@) == product_of(across_lists(pairs_view(pairs@), cells(*grid1), cells(*grid2), size as int)),
{
    let e = size / 2 + size % 2;
    let ghost want = across_lists(pairs_view(pairs@), cells(*grid1), cells(*grid2), size as int);
    let mut lists: Vec<Vec<usize>> = Vec::new();
    let mut m: usize = 0;
    while m + 2 < e
        invariant
            size >= 3,
            e == entry_count(size as int),
            is_square(cells(*grid1), size as int),
            is_square(cells(*grid2), size as int),
            lookup.first == 0,
            lookup.second == 2,
            lookup.indexes(pairs_view(pairs@)),
            pairs_have_len(pairs_view(pairs@), size as int),
            m + 2 <= e,
            lists@.len() == m,
            want == across_lists(pairs_view(pairs@), cells(*grid1), cells(*grid2), size as int),
            forall|k: int| 0 <= k < m ==> (#[trigger] lists@[k])@ == want[k],
        decreases e - m,
    {
        let row_candidates = find_row_candidates(size, lookup, pairs, grid1, grid2, 4 + 2 * m);
        lists.push(row_candidates);
        m = m + 1;
    }
    assert(lists_view(lists@) =~= want);
    cartesian_product(lists)
}

/// The cell at row `r`, column `c` that seeds `i` and `j` fix: in rows 0 and
/// 2 the seeds' letters, in odd rows the empty pattern. Odd columns keep it
/// through the search, rows from 4 on excepted.
pub open spec fn fixed_cell(pairs: Seq<PairView>, i: int, j: int, second: bool, r: int, c: int) -> char {
    if r == 0 {
        pick(pairs[i], second)[c]
    } else if r == 2 {
        pick(pairs[j], second)[c]
    } else {
        sparse_cell(r, c)
    }
}

/// A cell that no down or late across entry writes: an odd column of row 0,
/// row 2 or an odd row.
pub open spec fn is_fixed_cell(r: int, c: int) -> bool {
    c % 2 == 1 && (r == 0 || r == 2 || r % 2 == 1)
}

/// What a choice of downs `d` and acrosses `a` yields: the crossword where
/// no word repeats, nothing otherwise.
pub open spec fn alternating_found(ix: (nat, Seq<PairView>), i: int, j: int, d: Seq<usize>, a: Seq<usize>) -> Option<FoundView> {
    let n = ix.0;
    let pairs = ix.1;
    let e = entry_count(n as int) as nat;
    let g1 = final_grid(pairs, i, j, d, a, n, false);
    let g2 = final_grid(pairs, i, j, d, a, n, true);
    if all_distinct(alternating_entries(g1) + alternating_entries(g2)) {
        let across = Seq::new(
            e,
            |m: int|
                if m == 0 {
                    Some(pairs[i].0)
                } else if m == 1 {
                    Some(pairs[j].0)
                } else {
                    Some(pairs[a[m - 2] as int].0)
                },
        );
        let down = Seq::new(e, |m: int| Some(pairs[d[m] as int].0));
        Some(((g1, g2, across, down), kind_name(alternating_name(), n), 0))
    } else {
        None
    }
}

/// What the first `t` across choices yield below the downs `d`, in order.
pub open spec fn alternating_found_among_acrosses(
    ix: (nat, Seq<PairView>),
    i: int,
    j: int,
    d: Seq<usize>,
    acrosses: Seq<Seq<usize>>,
    t: int,
) -> Seq<FoundView>
    decreases t,
{
    if t <= 0 {
        Seq::empty()
    } else {
        let before = alternating_found_among_acrosses(ix, i, j, d, acrosses, t - 1);
        match alternating_found(ix, i, j, d, acrosses[t - 1]) {
            Some(f) => before.push(f),
            None => before,
        }
    }
}

/// The ways of filling the across rows from row 4 on below the downs `d`.
pub open spec fn alternating_across_choices(ix: (nat, Seq<PairView>), i: int, j: int, d: Seq<usize>) -> Seq<Seq<usize>> {
    let n = ix.0;
    let pairs = ix.1;
    product_of(
        across_lists(
            pairs,
            grid_after_downs(pairs, i, j, d, n, false),
            grid_after_downs(pairs, i, j, d, n, true),
            n as int,
        ),
    )
}

/// What the first `t` down choices yield, in order.
pub open spec fn alternating_found_among_downs(
    ix: (nat, Seq<PairView>),
    i: int,
    j: int,
    downs: Seq<Seq<usize>>,
    t: int,
) -> Seq<FoundView>
    decreases t,
{
    if t <= 0 {
        Seq::empty()
    } else {
        let acrosses = alternating_across_choices(ix, i, j, downs[t - 1]);
        alternating_found_among_downs(ix, i, j, downs, t - 1) + alternating_found_among_acrosses(
            ix,
            i,
            j,
            downs[t - 1],
            acrosses,
            acrosses.len() as int,
        )
    }
}

/// What seeds `i` and `j` yield: nothing where the first seed's answers are
/// out of order, else what each way of filling the downs and then the
/// remaining acrosses yields.
pub open spec fn alternating_seed_results(ix: (nat, Seq<PairView>), i: int, j: int) -> Seq<FoundView> {
    let pairs = ix.1;
    if word_gt(pairs[i].1, pairs[i].2) {
        Seq::empty()
    } else {
        let downs = product_of(alternating_down_lists(pairs, i, j, ix.0 as int));
        alternating_found_among_downs(ix, i, j, downs, downs.len() as int)
    }
}

/// Write the answers of the chosen pairs down the even columns, the `m`-th
/// pair down column `2 m`, and record their surfaces.
fn sparse_place_down_clues(
    g1: &mut Grid,
    g2: &mut Grid,
    surfaces: &mut Vec<Option<String>>,
    pairs: &Vec<Pair>,
    down_combos: &Vec<usize>,
    size: usize,
)
    requires
        size >= 3,
        is_square(cells(*old(g1)), size as int),
        is_square(cells(*old(g2)), size as int),
        down_combos@.len() == entry_count(size as int),
        old(surfaces)@.len() == entry_count(size as int),
        pairs_have_len(pairs_view(pairs@), size as int),
        indices_below(down_combos@, pairs@.len() as int),
    ensures
        is_square(cells(*final(g1)), size as int),
        is_square(cells(*final(g2)), size as int),
        forall|r: int, c: int| 0 <= r < size && 0 <= c < size ==> cells(*final(g1))[r][c] == if c % 2 == 0 {
            pairs_view(pairs@)[down_combos@[c / 2] as int].1[r]
        } else {
            cells(*old(g1))[r][c]
        },
        forall|r: int, c: int| 0 <= r < size && 0 <= c < size ==> cells(*final(g2))[r][c] == if c % 2 == 0 {
            pairs_view(pairs@)[down_combos@[c / 2] as int].2[r]
        } else {
            cells(*old(g2))[r][c]
        },
        surfaces_view(final(surfaces)@) == Seq::new(
            entry_count(size as int) as nat,
            |m: int| Some(pairs_view(pairs@)[down_combos@[m] as int].0),
        ),
{
    let ghost pv = pairs_view(pairs@);
    let ghost o1 = cells(*g1);
    let ghost o2 = cells(*g2);
    let e = down_combos.len();
    let mut m: usize = 0;
    while m < e
        invariant
            size >= 3,
            e == entry_count(size as int),
            e == down_combos@.len(),
            pv == pairs_view(pairs@),
            pairs_have_len(pv, size as int),
            indices_below(down_combos@, pairs@.len() as int),
            is_square(cells(*g1), size as int),
            is_square(cells(*g2), size as int),
            surfaces@.len() == e,
            m <= e,
            forall|r: int, c: int| 0 <= r < size && 0 <= c < size ==> cells(*g1)[r][c] == if c % 2 == 0 && c / 2 < m {
                pv[down_combos@[c / 2] as int].1[r]
            } else {
                o1[r][c]
            },
            forall|r: int, c: int| 0 <= r < size && 0 <= c < size ==> cells(*g2)[r][c] == if c % 2 == 0 && c / 2 < m {
                pv[down_combos@[c / 2] as int].2[r]
            } else {
                o2[r][c]
            },
            forall|k: int| 0 <= k < m ==> surface_view(#[trigger] surfaces@[k]) == Some(pv[down_combos@[k] as int].0),
        decreases e - m,
    {
        let q = down_combos[m];
        let col = 2 * m;
        assert(q < pairs@.len());
        assert(pv[q as int] == pairs@[q as int]@);
        let ghost b1 = cells(*g1);
        let ghost b2 = cells(*g2);
        place_word_in_col_mut(g1, col, &pairs[q].1);
        place_word_in_col_mut(g2, col, &pairs[q].2);
        surfaces.set(m, Some(pairs[q].0.clone()));
        assert forall|r: int, c: int| 0 <= r < size && 0 <= c < size implies cells(*g1)[r][c] == if c % 2 == 0 && c / 2 < m + 1 {
            pv[down_combos@[c / 2] as int].1[r]
        } else {
            o1[r][c]
        } by {
            assert(b1[r].len() == size);
        }
        assert forall|r: int, c: int| 0 <= r < size && 0 <= c < size implies cells(*g2)[r][c] == if c % 2 == 0 && c / 2 < m + 1 {
            pv[down_combos@[c / 2] as int].2[r]
        } else {
            o2[r][c]
        } by {
            assert(b2[r].len() == size);
        }
        m = m + 1;
    }
    assert(surfaces_view(surfaces@) =~= Seq::new(
        entry_count(size as int) as nat,
        |m: int| Some(pv[down_combos@[m] as int].0),
    ));
}

/// Write the answers of the chosen pairs across the even rows from row 4 on,
/// the `m`-th pair across row `4 + 2 m`, and record their surfaces.
fn sparse_place_final_across_clues(
    g1: &mut Grid,
    g2: &mut Grid,
    surfaces: &mut Vec<Option<String>>,
    pairs: &Vec<Pair>,
    across_combos: &Vec<usize>,
    size: usize,
)
    requires
        size >= 3,
        is_square(cells(*old(g1)), size as int),
        is_square(cells(*old(g2)), size as int),
        across_combos@.len() + 2 == entry_count(size as int),
        old(surfaces)@.len() == entry_count(size as int),
        pairs_have_len(pairs_view(pairs@), size as int),
        indices_below(across_combos@, pairs@.len() as int),
    ensures
        is_square(cells(*final(g1)), size as int),
        is_square(cells(*final(g2)), size as int),
        forall|r: int, c: int| 0 <= r < size && 0 <= c < size ==> cells(*final(g1))[r][c] == if r % 2 == 0 && r >= 4 {
            pairs_view(pairs@)[across_combos@[(r - 4) / 2] as int].1[c]
        } else {
            cells(*old(g1))[r][c]
        },
        forall|r: int, c: int| 0 <= r < size && 0 <= c < size ==> cells(*final(g2))[r][c] == if r % 2 == 0 && r >= 4 {
            pairs_view(pairs@)[across_combos@[(r - 4) / 2] as int].2[c]
        } else {
            cells(*old(g2))[r][c]
        },
        final(surfaces)@.len() == old(surfaces)@.len(),
        final(surfaces)@[0] == old(surfaces)@[0],
        final(surfaces)@[1] == old(surfaces)@[1],
        forall|k: int| 2 <= k < final(surfaces)@.len() ==> surface_view(#[trigger] final(surfaces)@[k]) == Some(
            pairs_view(pairs@)[across_combos@[k - 2] as int].0,
        ),
{
    let ghost pv = pairs_view(pairs@);
    let ghost o1 = cells(*g1);
    let ghost o2 = cells(*g2);
    let f = across_combos.len();
    let mut m: usize = 0;
    while m < f
        invariant
            size >= 3,
            f + 2 == entry_count(size as int),
            f == across_combos@.len(),
            pv == pairs_view(pairs@),
            pairs_have_len(pv, size as int),
            indices_below(across_combos@, pairs@.len() as int),
            is_square(cells(*g1), size as int),
            is_square(cells(*g2), size as int),
            surfaces@.len() == f + 2,
            surfaces@[0] == old(surfaces)@[0],
            surfaces@[1] == old(surfaces)@[1],
            m <= f,
            forall|r: int, c: int| 0 <= r < size && 0 <= c < size ==> cells(*g1)[r][c] == if r % 2 == 0 && r >= 4 && (r - 4) / 2 < m {
                pv[across_combos@[(r - 4) / 2] as int].1[c]
            } else {
                o1[r][c]
            },
            forall|r: int, c: int| 0 <= r < size && 0 <= c < size ==> cells(*g2)[r][c] == if r % 2 == 0 && r >= 4 && (r - 4) / 2 < m {
                pv[across_combos@[(r - 4) / 2] as int].2[c]
            } else {
                o2[r][c]
            },
            forall|k: int| 2 <= k < 2 + m ==> surface_view(#[trigger] surfaces@[k]) == Some(pv[across_combos@[k - 2] as int].0),
        decreases f - m,
    {
        let q = across_combos[m];
        let row = 4 + 2 * m;
        assert(q < pairs@.len());
        assert(pv[q as int] == pairs@[q as int]@);
        place_word_in_row_mut(g1, row, &pairs[q].1);
        place_word_in_row_mut(g2, row, &pairs[q].2);
        surfaces.set(m + 2, Some(pairs[q].0.clone()));
        m = m + 1;
    }
}

/// Two tests that agree on every pair select the same indices.
proof fn lemma_matching_same(pairs: Seq<PairView>, f: spec_fn(PairView) -> bool, g: spec_fn(PairView) -> bool, n: int)
    requires
        forall|p: PairView| #[trigger] f(p) == g(p),
    ensures
        matching_indices(pairs, f, n) == matching_indices(pairs, g, n),
    decreases n,
{
    if n > 0 {
        lemma_matching_same(pairs, f, g, n - 1);
    }
}


/// A searcher for alternating crosswords.
pub struct Alternating {
    /// The side of the grid.
    pub size: usize,
    /// The number of entries per axis.
    pub number_of_clues: usize,
    /// The answer pairs.
    pub pairs: Vec<Pair>,
    /// The pairs keyed by the first and third letters of each answer.
    pub mask_lookup: MaskLookup,
}

/// The stages of placing clues in an alternating grid.
pub enum AlternatingStage {
    /// Placing the down clues.
    Downs,
    /// Placing the final across clues.
    FinalAcrosses,
}

impl Alternating {
    /// The searcher's index: the side and the answer pairs.
    pub open spec fn spec_index(&self) -> (nat, Seq<PairView>) {
        (self.size as nat, pairs_view(self.pairs@))
    }

    /// The lookup indexes the searcher's pairs, whose answers have the grid's
    /// side.
    pub open spec fn wf(&self) -> bool {
        &&& self.size >= 3
        &&& self.number_of_clues == entry_count(self.size as int)
        &&& self.mask_lookup.first == 0
        &&& self.mask_lookup.second == 2
        &&& self.mask_lookup.indexes(pairs_view(self.pairs@))
        &&& pairs_have_len(pairs_view(self.pairs@), self.size as int)
    }

    /// Build the searcher's index from the clues whose answers have `params`
    /// letters.
    pub fn new(params: usize, clues: Vec<Clue>) -> (r: Alternating)
        requires
            params >= 3,
        ensures
            r.wf(),
            r.spec_index() == (params as nat, super::dense::build_index(clues_view(clues@), params as nat).1),
    {
        let size = params;
        let filtered_clues = filter_by_length(clues, params);
        let ghost kept = clues_view(filtered_clues@);
        proof {
            assert forall|k: int| 0 <= k < kept.len() implies (#[trigger] kept[k]).1.len() == size by {
                let all = clues_view(clues@);
                all.lemma_filter_pred(|c: (Seq<char>, Seq<char>)| c.1.len() == size as int, k);
            }
            assert(clues_have_len(kept, size as int));
            lemma_multi_surfaces_len(kept, size as int);
        }
        let multi_surfaces = get_multi_surfaces(&filtered_clues);
        let pairs = make_ms_pairs(&multi_surfaces);
        proof {
            lemma_ms_pairs_len(groups_view(multi_surfaces@), multi_surfaces@.len() as int, size as int);
        }
        let mask_lookup = make_mask_lookup(&pairs);
        let number_of_clues = if size % 2 == 0 {
            size / 2
        } else {
            (size / 2) + 1
        };
        Alternating { size, number_of_clues, pairs, mask_lookup }
    }

    /// The crossword type: `alternating` followed by the side.
    pub fn crossword_type(&self) -> (r: String)
        ensures
            r@ == kind_name(alternating_name(), self.size as nat),
    {
        let name = vec!['a', 'l', 't', 'e', 'r', 'n', 'a', 't', 'i', 'n', 'g'];
        assert(name@ =~= alternating_name());
        make_kind_name(&name, self.size)
    }

    /// The first stage after seeding: the downs.
    pub fn get_initial_stage(&self) -> (r: AlternatingStage)
        ensures
            r is Downs,
    {
        AlternatingStage::Downs
    }

    /// Empty alternating grids of the searcher's side and empty surface lists.
    pub fn init_grids(&self) -> (st: SearchState)
        requires
            self.wf(),
        ensures
            st.fits(self.size as int, self.number_of_clues as int),
            forall|r: int, c: int| 0 <= r < self.size && 0 <= c < self.size ==> cells(st.grid1)[r][c] == sparse_cell(r, c)
                && cells(st.grid2)[r][c] == sparse_cell(r, c),
            forall|k: int| 0 <= k < self.number_of_clues ==> (#[trigger] st.across_surfaces@[k]) is None,
            forall|k: int| 0 <= k < self.number_of_clues ==> (#[trigger] st.down_surfaces@[k]) is None,
    {
        let grid1 = make_sparse_grid(self.size);
        let grid2 = make_sparse_grid(self.size);
        let across_surfaces = empty_surfaces(self.number_of_clues);
        let down_surfaces = empty_surfaces(self.number_of_clues);
        SearchState { grid1, grid2, across_surfaces, down_surfaces }
    }

    /// The number of seeds: ordered two-element arrangements of pairs (as
    /// many as `usize` holds).
    pub fn calculate_number_of_initial_pairs(&self) -> (r: usize)
        ensures
            r as int == if self.pairs@.len() * (self.pairs@.len() - 1) <= usize::MAX {
                self.pairs@.len() * (self.pairs@.len() - 1)
            } else {
                usize::MAX as int
            },
    {
        let n = self.pairs.len() as u128;
        if n == 0 {
            assert(self.pairs@.len() * (self.pairs@.len() - 1) == 0) by (nonlinear_arith)
                requires
                    self.pairs@.len() == 0,
            ;
            return 0;
        }
        assert(n * (n - 1) <= u128::MAX) by (nonlinear_arith)
            requires
                1 <= n <= usize::MAX,
        ;
        let c = n * (n - 1);
        if c <= usize::MAX as u128 {
            c as usize
        } else {
            usize::MAX
        }
    }

    /// Clear the grids and surfaces, and place the answers of pairs `i` and
    /// `j` in rows 0 and 2.
    pub fn reset_and_place_initial_pairs(&self, st: &mut SearchState, i: usize, j: usize)
        requires
            self.wf(),
            i < self.pairs@.len(),
            j < self.pairs@.len(),
            old(st).fits(self.size as int, self.number_of_clues as int),
        ensures
            final(st).fits(self.size as int, self.number_of_clues as int),
            cells(final(st).grid1)[0] == pairs_view(self.pairs@)[i as int].1,
            cells(final(st).grid1)[2] == pairs_view(self.pairs@)[j as int].1,
            cells(final(st).grid2)[0] == pairs_view(self.pairs@)[i as int].2,
            cells(final(st).grid2)[2] == pairs_view(self.pairs@)[j as int].2,
            forall|r: int, c: int| 0 <= r < self.size && 0 <= c < self.size && is_fixed_cell(r, c) ==>
                cells(final(st).grid1)[r][c] == fixed_cell(pairs_view(self.pairs@), i as int, j as int, false, r, c)
                && cells(final(st).grid2)[r][c] == fixed_cell(pairs_view(self.pairs@), i as int, j as int, true, r, c),
            surface_view(final(st).across_surfaces@[0]) == Some(pairs_view(self.pairs@)[i as int].0),
            surface_view(final(st).across_surfaces@[1]) == Some(pairs_view(self.pairs@)[j as int].0),
            forall|r: int, c: int| 0 <= r < self.size && 0 <= c < self.size && r != 0 && r != 2 ==> cells(final(st).grid1)[r][c]
                == sparse_cell(r, c) && cells(final(st).grid2)[r][c] == sparse_cell(r, c),
            forall|k: int| 2 <= k < self.number_of_clues ==> (#[trigger] final(st).across_surfaces@[k]) is None,
            forall|k: int| 0 <= k < self.number_of_clues ==> (#[trigger] final(st).down_surfaces@[k]) is None,
    {
        let ghost pv = pairs_view(self.pairs@);
        assert(pv[i as int] == self.pairs@[i as int]@);
        assert(pv[j as int] == self.pairs@[j as int]@);
        reset_sparse_grid(&mut st.grid1);
        reset_sparse_grid(&mut st.grid2);
        clear_surfaces(&mut st.across_surfaces);
        clear_surfaces(&mut st.down_surfaces);
        st.across_surfaces.set(0, Some(self.pairs[i].0.clone()));
        st.across_surfaces.set(1, Some(self.pairs[j].0.clone()));
        init_sparse_grid(&mut st.grid1, &self.pairs[i].1, &self.pairs[j].1);
        init_sparse_grid(&mut st.grid2, &self.pairs[i].2, &self.pairs[j].2);
        assert(is_square(cells(st.grid1), self.size as int));
        assert(is_square(cells(st.grid2), self.size as int));
    }

    /// The extensions at a stage: the downs below the seeds, or the final
    /// acrosses that agree with the placed downs.
    pub fn get_next_pairs(&self, stage: &AlternatingStage, st: &SearchState) -> (r: Vec<Vec<usize>>)
        requires
            self.wf(),
            st.fits(self.size as int, self.number_of_clues as int),
        ensures
            lists_view(r@) == match stage {
                AlternatingStage::Downs => product_of(
                    Seq::new(
                        entry_count(self.size as int) as nat,
                        |m: int| self.mask_lookup.spec_get(
                            pairs_view(self.pairs@),
                            col_mask(cells(st.grid1), 2 * m),
                            col_mask(cells(st.grid2), 2 * m),
                        ),
                    ),
                ),
                AlternatingStage::FinalAcrosses => product_of(
                    across_lists(pairs_view(self.pairs@), cells(st.grid1), cells(st.grid2), self.size as int),
                ),
            },
    {
        match stage {
            AlternatingStage::Downs => sparse_find_possible_downs(
                self.size,
                &self.mask_lookup,
                &self.pairs,
                &st.grid1,
                &st.grid2,
            ),
            AlternatingStage::FinalAcrosses => sparse_find_possible_final_acrosses(
                self.size,
                &self.mask_lookup,
                &self.pairs,
                &st.grid1,
                &st.grid2,
            ),
        }
    }

    /// Place the extension of a stage: the downs, after which the final
    /// acrosses follow; or the final acrosses, after which nothing follows.
    pub fn place_next_pairs(&self, stage: &AlternatingStage, st: &mut SearchState, pairs: &Vec<usize>) -> (r: Option<AlternatingStage>)
        requires
            self.wf(),
            old(st).fits(self.size as int, self.number_of_clues as int),
            pairs@.len() == match stage {
                AlternatingStage::Downs => self.number_of_clues as int,
                AlternatingStage::FinalAcrosses => self.number_of_clues - 2,
            },
            indices_below(pairs@, self.pairs@.len() as int),
        ensures
            final(st).fits(self.size as int, self.number_of_clues as int),
            match stage {
                AlternatingStage::Downs => r matches Some(AlternatingStage::FinalAcrosses),
                AlternatingStage::FinalAcrosses => r is None,
            },
            forall|row: int, c: int| 0 <= row < self.size && 0 <= c < self.size ==> cells(final(st).grid1)[row][c] == match stage {
                AlternatingStage::Downs => if c % 2 == 0 {
                    pairs_view(self.pairs@)[pairs@[c / 2] as int].1[row]
                } else {
                    cells(old(st).grid1)[row][c]
                },
                AlternatingStage::FinalAcrosses => if row % 2 == 0 && row >= 4 {
                    pairs_view(self.pairs@)[pairs@[(row - 4) / 2] as int].1[c]
                } else {
                    cells(old(st).grid1)[row][c]
                },
            },
            forall|row: int, c: int| 0 <= row < self.size && 0 <= c < self.size ==> cells(final(st).grid2)[row][c] == match stage {
                AlternatingStage::Downs => if c % 2 == 0 {
                    pairs_view(self.pairs@)[pairs@[c / 2] as int].2[row]
                } else {
                    cells(old(st).grid2)[row][c]
                },
                AlternatingStage::FinalAcrosses => if row % 2 == 0 && row >= 4 {
                    pairs_view(self.pairs@)[pairs@[(row - 4) / 2] as int].2[c]
                } else {
                    cells(old(st).grid2)[row][c]
                },
            },
            stage is Downs ==> surfaces_view(final(st).down_surfaces@) == Seq::new(
                self.number_of_clues as nat,
                |m: int| Some(pairs_view(self.pairs@)[pairs@[m] as int].0),
            ) && final(st).across_surfaces == old(st).across_surfaces,
            stage is FinalAcrosses ==> final(st).down_surfaces == old(st).down_surfaces
                && final(st).across_surfaces@[0] == old(st).across_surfaces@[0]
                && final(st).across_surfaces@[1] == old(st).across_surfaces@[1]
                && forall|k: int| 2 <= k < self.number_of_clues ==> surface_view(#[trigger] final(st).across_surfaces@[k])
                    == Some(pairs_view(self.pairs@)[pairs@[k - 2] as int].0),
    {
        match stage {
            AlternatingStage::Downs => {
                sparse_place_down_clues(&mut st.grid1, &mut st.grid2, &mut st.down_surfaces, &self.pairs, pairs, self.size);
                assert(st.down_surfaces@.len() == surfaces_view(st.down_surfaces@).len());
                Some(AlternatingStage::FinalAcrosses)
            },
            AlternatingStage::FinalAcrosses => {
                sparse_place_final_across_clues(
                    &mut st.grid1,
                    &mut st.grid2,
                    &mut st.across_surfaces,
                    &self.pairs,
                    pairs,
                    self.size,
                );
                None
            },
        }
    }

    /// The crossword held by the search state.
    pub fn get_crossword(&self, st: &SearchState) -> (r: QuinianCrossword)
        ensures
            r.spec_view() == (
                cells(st.grid1),
                cells(st.grid2),
                surfaces_view(st.across_surfaces@),
                surfaces_view(st.down_surfaces@),
            ),
    {
        get_crossword(st)
    }

    /// Every entry is bound to a pair by construction: there is nothing to
    /// classify.
    pub fn get_final_statuses(&self, st: &SearchState) -> (r: Vec<PairStatus>)
        ensures
            r@.len() == 0,
    {
        Vec::new()
    }

    /// No word repeats among the entries of the two grids.
    pub fn is_happy(&self, st: &SearchState) -> (r: bool)
        requires
            st.fits(self.size as int, self.number_of_clues as int),
        ensures
            r == all_distinct(alternating_entries(cells(st.grid1)) + alternating_entries(cells(st.grid2))),
    {
        sparse_no_duplicates_in_grid(self.size, &st.grid1, &st.grid2)
    }

    /// All the entries of both grids: those of the first, then those of the
    /// second.
    pub fn get_all_words(&self, st: &SearchState) -> (r: Vec<Word>)
        requires
            st.fits(self.size as int, self.number_of_clues as int),
        ensures
            r@.map_values(|w: Word| w@) == alternating_entries(cells(st.grid1)) + alternating_entries(cells(st.grid2)),
    {
        let mut words = sparse_get_all_words(self.size, &st.grid1);
        let mut words2 = sparse_get_all_words(self.size, &st.grid2);
        let ghost v1 = words@;
        let ghost v2 = words2@;
        words.append(&mut words2);
        assert(words@.map_values(|w: Word| w@) =~= v1.map_values(|w: Word| w@) + v2.map_values(|w: Word| w@));
        words
    }
}


impl Alternating {
    /// Search from seeds `i` and `j`: every way of filling the downs below
    /// them and then the remaining acrosses, and the crosswords accepted among
    /// these, in order.
    pub fn search_from_seed(&self, st: &mut SearchState, i: usize, j: usize) -> (r: Vec<FoundCrossword>)
        requires
            self.wf(),
            i < self.pairs@.len(),
            j < self.pairs@.len(),
            old(st).fits(self.size as int, self.number_of_clues as int),
        ensures
            final(st).fits(self.size as int, self.number_of_clues as int),
            found_view(r@) == alternating_seed_results(self.spec_index(), i as int, j as int),
    {
        let ghost pv = pairs_view(self.pairs@);
        let ghost ix = self.spec_index();
        let ghost n = self.size as nat;
        let size = self.size;
        let e = self.number_of_clues;
        let mut results: Vec<FoundCrossword> = Vec::new();
        let np = self.pairs.len();
        assert(pv.len() == np);
        assert(pv[i as int] == self.pairs@[i as int]@);
        if word_greater(&self.pairs[i].1, &self.pairs[i].2) {
            assert(found_view(results@) =~= Seq::<FoundView>::empty());
            return results;
        }
        self.reset_and_place_initial_pairs(st, i, j);
        let downs = sparse_find_possible_downs(size, &self.mask_lookup, &self.pairs, &st.grid1, &st.grid2);
        let ghost dlists = alternating_down_lists(pv, i as int, j as int, n as int);
        proof {
            let g1 = cells(st.grid1);
            let g2 = cells(st.grid2);
            assert(Seq::new(
                entry_count(size as int) as nat,
                |m: int| self.mask_lookup.spec_get(pv, col_mask(g1, 2 * m), col_mask(g2, 2 * m)),
            ) =~= dlists) by {
                assert forall|m: int| 0 <= m < entry_count(size as int) implies #[trigger] col_mask(g1, 2 * m) == seq![pv[i as int].1[2 * m], pv[j as int].1[2 * m]]
                    && col_mask(g2, 2 * m) == seq![pv[i as int].2[2 * m], pv[j as int].2[2 * m]] by {
                    assert(col_mask(g1, 2 * m) =~= seq![pv[i as int].1[2 * m], pv[j as int].1[2 * m]]);
                    assert(col_mask(g2, 2 * m) =~= seq![pv[i as int].2[2 * m], pv[j as int].2[2 * m]]);
                }
            }
            assert forall|c: int| 0 <= c < dlists.len() implies indices_below(#[trigger] dlists[c], pv.len() as int) by {
                lemma_matching_indices_below(
                    pv,
                    shows_keys(0, 2, seq![pv[i as int].1[2 * c], pv[j as int].1[2 * c]], seq![pv[i as int].2[2 * c], pv[j as int].2[2 * c]]),
                    pv.len() as int,
                );
            }
        }
        let ghost dv = lists_view(downs@);
        let mut t: usize = 0;
        while t < downs.len()
            invariant
                self.wf(),
                pv == pairs_view(self.pairs@),
                pv.len() == np,
                ix == self.spec_index(),
                n == size,
                size == self.size,
                e == self.number_of_clues,
                i < pv.len(),
                j < pv.len(),
                !word_gt(pv[i as int].1, pv[i as int].2),
                dv == lists_view(downs@),
                dv == product_of(dlists),
                dlists == alternating_down_lists(pv, i as int, j as int, n as int),
                forall|c: int| 0 <= c < dlists.len() ==> indices_below(#[trigger] dlists[c], pv.len() as int),
                st.fits(size as int, e as int),
                forall|r: int, c: int| 0 <= r < size && 0 <= c < size && is_fixed_cell(r, c) ==>
                    cells(st.grid1)[r][c] == fixed_cell(pv, i as int, j as int, false, r, c)
                    && cells(st.grid2)[r][c] == fixed_cell(pv, i as int, j as int, true, r, c),
                surface_view(st.across_surfaces@[0]) == Some(pv[i as int].0),
                surface_view(st.across_surfaces@[1]) == Some(pv[j as int].0),
                t <= downs@.len(),
                found_view(results@) == alternating_found_among_downs(ix, i as int, j as int, dv, t as int),
            decreases downs@.len() - t,
        {
            proof {
                lemma_choices_below(dlists, t as int, pv.len() as int);
            }
            let d = &downs[t];
            assert(d@ == dv[t as int]);
            sparse_place_down_clues(&mut st.grid1, &mut st.grid2, &mut st.down_surfaces, &self.pairs, d, size);
            let ghost gd1 = grid_after_downs(pv, i as int, j as int, d@, n, false);
            let ghost gd2 = grid_after_downs(pv, i as int, j as int, d@, n, true);
            let acrosses = sparse_find_possible_final_acrosses(size, &self.mask_lookup, &self.pairs, &st.grid1, &st.grid2);
            let ghost alists = across_lists(pv, gd1, gd2, n as int);
            proof {
                let g1 = cells(st.grid1);
                let g2 = cells(st.grid2);
                assert forall|r: int, c: int| 0 <= r < size && 0 <= c < size && c % 2 == 0 implies g1[r][c] == gd1[r][c] && g2[r][c] == gd2[r][c] by {}
                assert(across_lists(pv, g1, g2, n as int) =~= alists) by {
                    assert forall|m: int| 0 <= m < entry_count(n as int) - 2 implies #[trigger] across_candidates(pv, g1, g2, 4 + 2 * m, n as int)
                        == across_candidates(pv, gd1, gd2, 4 + 2 * m, n as int) by {
                        let r = 4 + 2 * m;
                        assert(row_mask(g1, r) =~= row_mask(gd1, r));
                        assert(row_mask(g2, r) =~= row_mask(gd2, r));
                        assert forall|p: PairView| #[trigger] across_fits(g1, g2, r, n as int)(p) == across_fits(gd1, gd2, r, n as int)(p) by {
                            if across_fits(gd1, gd2, r, n as int)(p) {
                                assert forall|c: int| 4 <= c < n && c % 2 == 0 implies p.1[c] == #[trigger] g1[r][c] && p.2[c] == g2[r][c] by {
                                    assert(p.1[c] == gd1[r][c]);
                                }
                            }
                            if across_fits(g1, g2, r, n as int)(p) {
                                assert forall|c: int| 4 <= c < n && c % 2 == 0 implies p.1[c] == #[trigger] gd1[r][c] && p.2[c] == gd2[r][c] by {
                                    assert(p.1[c] == g1[r][c]);
                                }
                            }
                        }
                        lemma_matching_same(pv, across_fits(g1, g2, r, n as int), across_fits(gd1, gd2, r, n as int), pv.len() as int);
                    }
                }
                assert forall|c: int| 0 <= c < alists.len() implies indices_below(#[trigger] alists[c], pv.len() as int) by {
                    lemma_matching_indices_below(pv, across_fits(gd1, gd2, 4 + 2 * c, n as int), pv.len() as int);
                }
            }
            let ghost av = lists_view(acrosses@);
            assert(av == alternating_across_choices(ix, i as int, j as int, d@));
            let ghost before_d = found_view(results@);
            assert(st.down_surfaces@.len() == surfaces_view(st.down_surfaces@).len());
            let mut u: usize = 0;
            while u < acrosses.len()
                invariant
                    self.wf(),
                    pv == pairs_view(self.pairs@),
                    pv.len() == np,
                    ix == self.spec_index(),
                    n == size,
                    size == self.size,
                    e == self.number_of_clues,
                    i < pv.len(),
                    j < pv.len(),
                    d@ == dv[t as int],
                    d@.len() == e,
                    indices_below(d@, pv.len() as int),
                    av == lists_view(acrosses@),
                    av == product_of(alists),
                    alists == across_lists(pv, gd1, gd2, n as int),
                    gd1 == grid_after_downs(pv, i as int, j as int, d@, n, false),
                    gd2 == grid_after_downs(pv, i as int, j as int, d@, n, true),
                    forall|c: int| 0 <= c < alists.len() ==> indices_below(#[trigger] alists[c], pv.len() as int),
                    st.fits(size as int, e as int),
                    forall|r: int, c: int| 0 <= r < size && 0 <= c < size && is_fixed_cell(r, c) ==>
                        cells(st.grid1)[r][c] == fixed_cell(pv, i as int, j as int, false, r, c)
                        && cells(st.grid2)[r][c] == fixed_cell(pv, i as int, j as int, true, r, c),
                    forall|r: int, c: int| 0 <= r < size && 0 <= c < size && c % 2 == 0 && !(r % 2 == 0 && r >= 4) ==>
                        cells(st.grid1)[r][c] == pv[d@[c / 2] as int].1[r] && cells(st.grid2)[r][c] == pv[d@[c / 2] as int].2[r],
                    surfaces_view(st.down_surfaces@) == Seq::new(e as nat, |m: int| Some(pv[d@[m] as int].0)),
                    surface_view(st.across_surfaces@[0]) == Some(pv[i as int].0),
                    surface_view(st.across_surfaces@[1]) == Some(pv[j as int].0),
                    u <= acrosses@.len(),
                    found_view(results@) == before_d + alternating_found_among_acrosses(ix, i as int, j as int, d@, av, u as int),
                decreases acrosses@.len() - u,
            {
                proof {
                    lemma_choices_below(alists, u as int, pv.len() as int);
                }
                let a = &acrosses[u];
                assert(a@ == av[u as int]);
                let ghost b1 = cells(st.grid1);
                let ghost b2 = cells(st.grid2);
                sparse_place_final_across_clues(&mut st.grid1, &mut st.grid2, &mut st.across_surfaces, &self.pairs, a, size);
                let ghost f1 = final_grid(pv, i as int, j as int, d@, a@, n, false);
                let ghost f2 = final_grid(pv, i as int, j as int, d@, a@, n, true);
                assert forall|r: int, c: int| 0 <= r < size && 0 <= c < size implies cells(st.grid1)[r][c] == f1[r][c]
                    && cells(st.grid2)[r][c] == f2[r][c] by {
                    if !(r % 2 == 0 && r >= 4) {
                        assert(cells(st.grid1)[r][c] == b1[r][c]);
                        assert(cells(st.grid2)[r][c] == b2[r][c]);
                        if c % 2 == 1 {
                            assert(is_fixed_cell(r, c));
                        }
                    }
                }
                assert(cells(st.grid1) =~~= f1);
                assert(cells(st.grid2) =~~= f2);
                let happy = sparse_no_duplicates_in_grid(size, &st.grid1, &st.grid2);
                let ghost before = results@;
                if happy {
                    let crossword = get_crossword(st);
                    let crossword_type = self.crossword_type();
                    assert(surfaces_view(st.across_surfaces@) =~= Seq::new(
                        e as nat,
                        |m: int|
                            if m == 0 {
                                Some(pv[i as int].0)
                            } else if m == 1 {
                                Some(pv[j as int].0)
                            } else {
                                Some(pv[a@[m - 2] as int].0)
                            },
                    ));
                    results.push(FoundCrossword { crossword, crossword_type, missing_surfaces: 0 });
                    assert(found_view(results@) =~= found_view(before).push(alternating_found(ix, i as int, j as int, d@, a@)->0));
                }
                u = u + 1;
            }
            t = t + 1;
        }
        results
    }
}

impl Searcher for Alternating {
    open spec fn wf(&self) -> bool {
        Alternating::wf(self)
    }

    open spec fn pair_count(&self) -> nat {
        self.pairs@.len()
    }

    open spec fn side(&self) -> nat {
        self.size as nat
    }

    open spec fn entries(&self) -> nat {
        self.number_of_clues as nat
    }

    /// Seeds are ordered arrangements of two different pairs.
    open spec fn is_seed(&self, i: int, j: int) -> bool {
        i != j
    }

    open spec fn seed_results(&self, i: int, j: int, allowed: nat) -> Seq<FoundView> {
        alternating_seed_results(self.spec_index(), i, j)
    }

    fn number_of_pairs(&self) -> (r: usize) {
        self.pairs.len()
    }

    fn init_state(&self) -> (st: SearchState) {
        self.init_grids()
    }

    fn seed_allowed(&self, i: usize, j: usize) -> (r: bool) {
        i != j
    }

    fn search_from_seed(&self, st: &mut SearchState, i: usize, j: usize, allowed: usize) -> (r: Vec<FoundCrossword>) {
        Alternating::search_from_seed(self, st, i, j)
    }
}

/// Indexing is idempotent: two alternating searchers built from the same
/// clues for the same side hold the same pairs and mask lookups with the same
/// buckets.
pub proof fn lemma_mask_index_rebuilt_identically(a: Alternating, b: Alternating, clues: Seq<(Seq<char>, Seq<char>)>, n: nat)
    requires
        a.wf(),
        b.wf(),
        a.spec_index() == (n, super::dense::build_index(clues, n).1),
        b.spec_index() == (n, super::dense::build_index(clues, n).1),
    ensures
        a.spec_index() == b.spec_index(),
        forall|k: int| 0 <= k < LOOKUP_BUCKETS ==> (#[trigger] a.mask_lookup.buckets@[k])@ == b.mask_lookup.buckets@[k]@,
{
}

} // verus!

//! The searcher for dense grids, where every cell is a letter.
use vstd::prelude::*;
use crate::grid::{
    Grid, cells, EMPTY_CELL, is_square, column, column_prefix, dense_entries, all_distinct, make_empty_grid, reset_grid, init_grid, place_word_in_col_mut, find_col_prefix, has_no_duplicates_2,
    copy_grid,
};
use crate::data::{
    Clue, Pair, PairView, PairLookup, PairPrefixLookup, PairsToSurface, WordList, clues_view, pairs_view,
    multi_surfaces, ms_pairs, groups_view, answers_of_length, pairs_have_len, clues_have_len, matching_indices,
    shows_keys, pair_surface, get_multi_surfaces, make_ms_pairs, make_pairs_to_surface, make_word_list_all,
    make_pair_prefix_lookup, lemma_multi_surfaces_len, lemma_ms_pairs_len, surface_view, indices_below,
    lemma_matching_indices_below, LOOKUP_BUCKETS,
};
use crate::qc::found_view;
use super::word_greater;
use crate::product::{cartesian_product, product_of, lists_view, lemma_product_picks};
use crate::qc::{QuinianCrossword, FoundCrossword, FoundView, surfaces_view, copy_surfaces};
use super::{PairStatus, SearchState, Searcher, kind_name, dense_name, make_kind_name};

verus! {

/// The clues whose answers have `n` letters, in order.
pub open spec fn clues_of_length(clues: Seq<(Seq<char>, Seq<char>)>, n: int) -> Seq<(Seq<char>, Seq<char>)> {
    clues.filter(|c: (Seq<char>, Seq<char>)| c.1.len() == n)
}

/// The index a searcher builds for grids of side `n`: the side, the answer
/// pairs, and the set of known answers.
pub type IndexView = (nat, Seq<PairView>, Set<Seq<char>>);

/// The index built from a list of clues for grids of side `n`.
pub open spec fn build_index(clues: Seq<(Seq<char>, Seq<char>)>, n: nat) -> IndexView {
    let kept = clues_of_length(clues, n as int);
    let ms = multi_surfaces(kept);
    (n, ms_pairs(ms, ms.len() as int), answers_of_length(kept, n as int))
}

/// Where every clue's answer passes a word test, so do both answers of every
/// pair of the index built from the clues.
pub proof fn lemma_build_index_ok(clues: Seq<(Seq<char>, Seq<char>)>, n: nat, ok: spec_fn(Seq<char>) -> bool)
    requires
        crate::data::clue_answers_ok(clues, ok),
    ensures
        crate::data::pair_answers_ok(build_index(clues, n).1, ok),
{
    let pred = |c: (Seq<char>, Seq<char>)| c.1.len() == n as int;
    let kept = clues_of_length(clues, n as int);
    assert(crate::data::clue_answers_ok(kept, ok)) by {
        assert forall|k: int| 0 <= k < kept.len() implies ok(#[trigger] kept[k].1) by {
            clues.lemma_filter_contains_rev(pred, kept[k]);
            assert(kept.contains(kept[k]));
            let h = choose|h: int| 0 <= h < clues.len() && clues[h] == kept[k];
            assert(ok(clues[h].1));
        }
    }
    crate::data::lemma_multi_surfaces_ok(kept, ok);
    let ms = multi_surfaces(kept);
    crate::data::lemma_ms_pairs_ok(ms, ms.len() as int, ok);
}

/// One answer of a pair: the first, or the second where `second` holds.
pub open spec fn pick(p: PairView, second: bool) -> Seq<char> {
    if second {
        p.2
    } else {
        p.1
    }
}

/// The grid whose column `c` holds one answer of pair `ext[c]`.
pub open spec fn grid_of_downs(pairs: Seq<PairView>, ext: Seq<usize>, n: nat, second: bool) -> Seq<Seq<char>> {
    Seq::new(n, |r: int| Seq::new(n, |c: int| pick(pairs[ext[c] as int], second)[r]))
}

/// The letters that seeds `i` and `j` place in column `c` of one grid.
pub open spec fn column_keys(pairs: Seq<PairView>, i: int, j: int, c: int, second: bool) -> Seq<char> {
    seq![pick(pairs[i], second)[c], pick(pairs[j], second)[c]]
}

/// The pairs that can run down column `c` below seeds `i` and `j`.
pub open spec fn down_candidates(pairs: Seq<PairView>, i: int, j: int, c: int) -> Seq<usize> {
    matching_indices(
        pairs,
        shows_keys(0, 1, column_keys(pairs, i, j, c, false), column_keys(pairs, i, j, c, true)),
        pairs.len() as int,
    )
}

/// The candidate lists of all columns below seeds `i` and `j`.
pub open spec fn dense_down_lists(pairs: Seq<PairView>, i: int, j: int, n: nat) -> Seq<Seq<usize>> {
    Seq::new(n, |c: int| down_candidates(pairs, i, j, c))
}

/// The status of a completed entry pair: 0 where the answers share a
/// surface, 1 where both are known words without one, 2 otherwise.
pub open spec fn status_code(pairs: Seq<PairView>, known: Set<Seq<char>>, w1: Seq<char>, w2: Seq<char>) -> int {
    if pair_surface(pairs, w1, w2) is Some {
        0
    } else if known.contains(w1) && known.contains(w2) {
        1
    } else {
        2
    }
}

/// The number of rows from `from` up to `to` whose status is `code`.
pub open spec fn count_status(
    pairs: Seq<PairView>,
    known: Set<Seq<char>>,
    g1: Seq<Seq<char>>,
    g2: Seq<Seq<char>>,
    code: int,
    from: int,
    to: int,
) -> nat
    decreases to - from,
{
    if to <= from {
        0
    } else {
        count_status(pairs, known, g1, g2, code, from, to - 1) + if status_code(pairs, known, g1[to - 1], g2[to - 1])
            == code {
            1nat
        } else {
            0nat
        }
    }
}

/// The across surfaces of a dense candidate: those of the two seeds, then
/// those recorded for the completed rows.
pub open spec fn dense_across_surfaces(
    pairs: Seq<PairView>,
    i: int,
    j: int,
    g1: Seq<Seq<char>>,
    g2: Seq<Seq<char>>,
    n: nat,
) -> Seq<Option<Seq<char>>> {
    Seq::new(
        n,
        |r: int|
            if r == 0 {
                Some(pairs[i].0)
            } else if r == 1 {
                Some(pairs[j].0)
            } else {
                pair_surface(pairs, g1[r], g2[r])
            },
    )
}

/// The down surfaces of a dense candidate.
pub open spec fn down_surfaces_of(pairs: Seq<PairView>, ext: Seq<usize>, n: nat) -> Seq<Option<Seq<char>>> {
    Seq::new(n, |c: int| Some(pairs[ext[c] as int].0))
}

/// What a dense candidate yields: the found crossword where every completed
/// row is a known word pair, at most `allowed` of them lack a surface, and no
/// word repeats; nothing otherwise.
pub open spec fn dense_found(ix: IndexView, i: int, j: int, ext: Seq<usize>, allowed: nat) -> Option<FoundView> {
    let n = ix.0;
    let pairs = ix.1;
    let known = ix.2;
    let g1 = grid_of_downs(pairs, ext, n, false);
    let g2 = grid_of_downs(pairs, ext, n, true);
    let missing = count_status(pairs, known, g1, g2, 1, 2, n as int);
    let illegal = count_status(pairs, known, g1, g2, 2, 2, n as int);
    if illegal == 0 && missing <= allowed && all_distinct(dense_entries(g1) + dense_entries(g2)) {
        Some(
            (
                (g1, g2, dense_across_surfaces(pairs, i, j, g1, g2, n), down_surfaces_of(pairs, ext, n)),
                kind_name(dense_name(), n),
                missing,
            ),
        )
    } else {
        None
    }
}

/// What the first `t` candidates yield, in order.
pub open spec fn dense_found_among(
    ix: IndexView,
    i: int,
    j: int,
    exts: Seq<Seq<usize>>,
    allowed: nat,
    t: int,
) -> Seq<FoundView>
    decreases t,
{
    if t <= 0 {
        Seq::empty()
    } else {
        let before = dense_found_among(ix, i, j, exts, allowed, t - 1);
        match dense_found(ix, i, j, exts[t - 1], allowed) {
            Some(f) => before.push(f),
            None => before,
        }
    }
}

/// What seeds `i` and `j` yield: nothing where the first seed's answers are
/// out of order, else what each way of filling the columns yields.
pub open spec fn dense_seed_results(ix: IndexView, i: int, j: int, allowed: nat) -> Seq<FoundView> {
    let pairs = ix.1;
    if crate::searchers::word_gt(pairs[i].1, pairs[i].2) {
        Seq::empty()
    } else {
        let exts = product_of(dense_down_lists(pairs, i, j, ix.0));
        dense_found_among(ix, i, j, exts, allowed, exts.len() as int)
    }
}

/// A searcher for dense crosswords.
pub struct Dense {
    /// The side of the grid.
    pub size: usize,
    /// The answer pairs.
    pub pairs: Vec<Pair>,
    /// The pairs keyed by the first two letters of each answer.
    pub prefix_lookup: PairPrefixLookup,
    /// The surface shared by two answers.
    pub pairs_to_surface: PairsToSurface,
    /// All known answers of the grid's side.
    pub word_list: WordList,
}

/// The stages of placing clues in a dense grid.
pub enum DenseStage {
    /// Placing the down clues.
    Downs,
}

impl Dense {
    /// The searcher's index.
    pub open spec fn spec_index(&self) -> IndexView {
        (self.size as nat, pairs_view(self.pairs@), self.word_list.view_set())
    }

    /// The lookups index the searcher's pairs, whose answers have the grid's
    /// side.
    pub open spec fn wf(&self) -> bool {
        &&& self.size >= 2
        &&& self.prefix_lookup.first == 0
        &&& self.prefix_lookup.second == 1
        &&& self.prefix_lookup.indexes(pairs_view(self.pairs@))
        &&& self.pairs_to_surface.wf()
        &&& self.pairs_to_surface.spec_pairs() == pairs_view(self.pairs@)
        &&& pairs_have_len(pairs_view(self.pairs@), self.size as int)
    }
}

/// Keep the clues whose answers have `n` letters.
pub fn filter_by_length(clues: Vec<Clue>, n: usize) -> (r: Vec<Clue>)
    ensures
        clues_view(r@) == clues_of_length(clues_view(clues@), n as int),
{
    let ghost cv = clues_view(clues@);
    let mut r: Vec<Clue> = Vec::new();
    let mut i: usize = 0;
    while i < clues.len()
        invariant
            cv == clues_view(clues@),
            i <= clues@.len(),
            clues_view(r@) == cv.subrange(0, i as int).filter(|c: (Seq<char>, Seq<char>)| c.1.len() == n),
        decreases clues@.len() - i,
    {
        let ghost before = r@;
        proof {
            reveal(Seq::filter);
            assert(cv.subrange(0, i + 1).drop_last() =~= cv.subrange(0, i as int));
        }
        assert(cv[i as int] == clues@[i as int]@);
        if clues[i].1.len() == n {
            let c: Clue = (clues[i].0.clone(), crate::grid::copy_word(&clues[i].1));
            r.push(c);
            assert(clues_view(r@) =~= clues_view(before).push(cv[i as int]));
        } else {
            assert(clues_view(r@) =~= clues_view(before));
        }
        i = i + 1;
    }
    assert(cv.subrange(0, i as int) =~= cv);
    r
}


impl Dense {
    /// Build the searcher's index from the clues whose answers have `params`
    /// letters.
    pub fn new(params: usize, clues: Vec<Clue>) -> (r: Dense)
        requires
            params >= 2,
        ensures
            r.wf(),
            r.spec_index() == build_index(clues_view(clues@), params as nat),
            r.word_list.words@.map_values(|w: crate::grid::Word| w@) == crate::data::answer_list(
                clues_of_length(clues_view(clues@), params as int),
                params as int,
            ),
    {
        let size = params;
        let filtered_clues = filter_by_length(clues, params);
        let ghost kept = clues_view(filtered_clues@);
        proof {
            assert forall|k: int| 0 <= k < kept.len() implies (#[trigger] kept[k]).1.len() == size by {
                let all = clues_view(clues@);
                all.lemma_filter_pred(|c: (Seq<char>, Seq<char>)| c.1.len() == size as int, k);
            }
            assert(clues_have_len(kept, size as int));
            lemma_multi_surfaces_len(kept, size as int);
        }
        let multi_surfaces = get_multi_surfaces(&filtered_clues);
        let pairs = make_ms_pairs(&multi_surfaces);
        proof {
            lemma_ms_pairs_len(groups_view(multi_surfaces@), multi_surfaces@.len() as int, size as int);
        }
        let pairs_to_surface = make_pairs_to_surface(&pairs);
        let word_list = make_word_list_all(size, &filtered_clues);
        let prefix_lookup = make_pair_prefix_lookup(&pairs);
        Dense { size, pairs, prefix_lookup, pairs_to_surface, word_list }
    }

    /// The crossword type: `dense` followed by the side.
    pub fn crossword_type(&self) -> (r: String)
        ensures
            r@ == kind_name(dense_name(), self.size as nat),
    {
        let name = vec!['d', 'e', 'n', 's', 'e'];
        assert(name@ =~= dense_name());
        make_kind_name(&name, self.size)
    }

    /// The first stage after seeding: the downs.
    pub fn get_initial_stage(&self) -> (r: DenseStage)
        ensures
            r is Downs,
    {
        DenseStage::Downs
    }

    /// There is no stage after the downs.
    pub fn get_next_stage(&self, stage: &DenseStage) -> (r: Option<DenseStage>)
        ensures
            r is None,
    {
        None
    }

    /// Empty grids of the searcher's side and empty surface lists.
    pub fn init_grids(&self) -> (st: SearchState)
        ensures
            st.fits(self.size as int, self.size as int),
            forall|r: int, c: int| 0 <= r < self.size && 0 <= c < self.size ==> cells(st.grid1)[r][c] == EMPTY_CELL
                && cells(st.grid2)[r][c] == EMPTY_CELL,
            forall|k: int| 0 <= k < self.size ==> (#[trigger] st.across_surfaces@[k]) is None,
            forall|k: int| 0 <= k < self.size ==> (#[trigger] st.down_surfaces@[k]) is None,
    {
        let grid1 = make_empty_grid(self.size);
        let grid2 = make_empty_grid(self.size);
        let across_surfaces = empty_surfaces(self.size);
        let down_surfaces = empty_surfaces(self.size);
        SearchState { grid1, grid2, across_surfaces, down_surfaces }
    }

    /// The number of seeds: two-element combinations of pairs (as many as
    /// `usize` holds).
    pub fn calculate_number_of_initial_pairs(&self) -> (r: usize)
        ensures
            r as int == if self.pairs@.len() * (self.pairs@.len() - 1) / 2 <= usize::MAX {
                self.pairs@.len() * (self.pairs@.len() - 1) / 2
            } else {
                usize::MAX as int
            },
    {
        let n = self.pairs.len() as u128;
        if n == 0 {
            return 0;
        }
        assert(n * (n - 1) <= u128::MAX) by (nonlinear_arith)
            requires
                1 <= n <= usize::MAX,
        ;
        let c = n * (n - 1) / 2;
        if c <= usize::MAX as u128 {
            c as usize
        } else {
            usize::MAX
        }
    }

    /// Clear the grids and surfaces, and place the answers of pairs `i` and
    /// `j` in the first two rows.
    pub fn reset_and_place_initial_pairs(&self, st: &mut SearchState, i: usize, j: usize)
        requires
            self.wf(),
            i < self.pairs@.len(),
            j < self.pairs@.len(),
            old(st).fits(self.size as int, self.size as int),
        ensures
            final(st).fits(self.size as int, self.size as int),
            seeded_grid(cells(final(st).grid1), pairs_view(self.pairs@), i as int, j as int, false),
            seeded_grid(cells(final(st).grid2), pairs_view(self.pairs@), i as int, j as int, true),
            final(st).across_surfaces@.len() == self.size,
            surface_view(final(st).across_surfaces@[0]) == Some(pairs_view(self.pairs@)[i as int].0),
            surface_view(final(st).across_surfaces@[1]) == Some(pairs_view(self.pairs@)[j as int].0),
            forall|r: int, c: int| 2 <= r < self.size && 0 <= c < self.size ==> cells(final(st).grid1)[r][c] == EMPTY_CELL
                && cells(final(st).grid2)[r][c] == EMPTY_CELL,
            forall|k: int| 2 <= k < self.size ==> (#[trigger] final(st).across_surfaces@[k]) is None,
            forall|k: int| 0 <= k < self.size ==> (#[trigger] final(st).down_surfaces@[k]) is None,
    {
        let ghost pv = pairs_view(self.pairs@);
        assert(pv[i as int] == self.pairs@[i as int]@);
        assert(pv[j as int] == self.pairs@[j as int]@);
        reset_grid(&mut st.grid1);
        reset_grid(&mut st.grid2);
        clear_surfaces(&mut st.across_surfaces);
        clear_surfaces(&mut st.down_surfaces);
        st.across_surfaces.set(0, Some(self.pairs[i].0.clone()));
        st.across_surfaces.set(1, Some(self.pairs[j].0.clone()));
        init_grid(&mut st.grid1, &self.pairs[i].1, &self.pairs[j].1);
        init_grid(&mut st.grid2, &self.pairs[i].2, &self.pairs[j].2);
        assert(is_square(cells(st.grid1), self.size as int));
        assert(is_square(cells(st.grid2), self.size as int));
    }
}

/// Rows 0 and 1 of `g` hold one answer of pairs `i` and `j`.
pub open spec fn seeded_grid(g: Seq<Seq<char>>, pairs: Seq<PairView>, i: int, j: int, second: bool) -> bool {
    g[0] == pick(pairs[i], second) && g[1] == pick(pairs[j], second)
}

/// A list of `n` absent surfaces.
pub fn empty_surfaces(n: usize) -> (r: Vec<Option<String>>)
    ensures
        r@.len() == n,
        forall|k: int| 0 <= k < n ==> (#[trigger] r@[k]) is None,
{
    let mut r: Vec<Option<String>> = Vec::new();
    while r.len() < n
        invariant
            r@.len() <= n,
            forall|k: int| 0 <= k < r@.len() ==> (#[trigger] r@[k]) is None,
        decreases n - r@.len(),
    {
        r.push(None);
    }
    r
}

/// Make every surface of the list absent.
pub fn clear_surfaces(s: &mut Vec<Option<String>>)
    ensures
        final(s)@.len() == old(s)@.len(),
        forall|k: int| 0 <= k < final(s)@.len() ==> (#[trigger] final(s)@[k]) is None,
{
    let mut k: usize = 0;
    while k < s.len()
        invariant
            k <= s@.len(),
            s@.len() == old(s)@.len(),
            forall|m: int| 0 <= m < k ==> (#[trigger] s@[m]) is None,
        decreases s@.len() - k,
    {
        s.set(k, None);
        k = k + 1;
    }
}


/// The candidates for every column: the pairs whose answers begin with the
/// two letters at the top of the column in each grid, and every way of
/// choosing one candidate per column.
pub fn find_possible_downs(lookup: &PairLookup, pairs: &Vec<Pair>, grid1: &Grid, grid2: &Grid) -> (r: Vec<Vec<usize>>)
    requires
        lookup.indexes(pairs_view(pairs@)),
        grid1@.len() >= 2,
        is_square(cells(*grid1), grid1@.len() as int),
        is_square(cells(*grid2), grid1@.len() as int),
    ensures
        lists_view(r@) == product_of(
            Seq::new(
                grid1@.len() as nat,
                |c: int|
                    lookup.spec_get(
                        pairs_view(pairs@),
                        column_prefix(cells(*grid1), c, 2),
                        column_prefix(cells(*grid2), c, 2),
                    ),
            ),
        ),
{
    let size = grid1.len();
    let ghost want = Seq::new(
        size as nat,
        |c: int|
            lookup.spec_get(pairs_view(pairs@), column_prefix(cells(*grid1), c, 2), column_prefix(cells(*grid2), c, 2)),
    );
    let mut lists: Vec<Vec<usize>> = Vec::new();
    let mut col: usize = 0;
    while col < size
        invariant
            size == grid1@.len(),
            size >= 2,
            is_square(cells(*grid1), size as int),
            is_square(cells(*grid2), size as int),
            lookup.indexes(pairs_view(pairs@)),
            col <= size,
            lists@.len() == col,
            want == Seq::new(
                size as nat,
                |c: int|
                    lookup.spec_get(pairs_view(pairs@), column_prefix(cells(*grid1), c, 2), column_prefix(cells(*grid2), c, 2)),
            ),
            forall|c: int| 0 <= c < col ==> (#[trigger] lists@[c])@ == want[c],
        decreases size - col,
    {
        assert(cells(*grid1)[0].len() == size && cells(*grid1)[1].len() == size);
        assert(cells(*grid2)[0].len() == size && cells(*grid2)[1].len() == size);
        let prefix1 = find_col_prefix(grid1, col, 2);
        let prefix2 = find_col_prefix(grid2, col, 2);
        let down_pairs = lookup.get(pairs, &prefix1, &prefix2);
        lists.push(down_pairs);
        col = col + 1;
    }
    assert(lists_view(lists@) =~= want);
    cartesian_product(lists)
}

/// Write the answers of the chosen pairs down the first columns of the two
/// grids, column `c` taking pair `down_combos[c]`, and record their surfaces;
/// the other columns and surfaces are left as they were.
pub fn place_down_clues(
    g1: &mut Grid,
    g2: &mut Grid,
    surfaces: &mut Vec<Option<String>>,
    pairs: &Vec<Pair>,
    down_combos: &Vec<usize>,
)
    requires
        is_square(cells(*old(g1)), old(g1)@.len() as int),
        is_square(cells(*old(g2)), old(g1)@.len() as int),
        down_combos@.len() <= old(g1)@.len(),
        old(surfaces)@.len() >= down_combos@.len(),
        pairs_have_len(pairs_view(pairs@), old(g1)@.len() as int),
        indices_below(down_combos@, pairs@.len() as int),
    ensures
        is_square(cells(*final(g1)), old(g1)@.len() as int),
        is_square(cells(*final(g2)), old(g1)@.len() as int),
        forall|r: int, c: int| 0 <= r < old(g1)@.len() && 0 <= c < old(g1)@.len() ==> cells(*final(g1))[r][c] == if c
            < down_combos@.len() {
            pairs_view(pairs@)[down_combos@[c] as int].1[r]
        } else {
            cells(*old(g1))[r][c]
        },
        forall|r: int, c: int| 0 <= r < old(g1)@.len() && 0 <= c < old(g1)@.len() ==> cells(*final(g2))[r][c] == if c
            < down_combos@.len() {
            pairs_view(pairs@)[down_combos@[c] as int].2[r]
        } else {
            cells(*old(g2))[r][c]
        },
        final(surfaces)@.len() == old(surfaces)@.len(),
        forall|c: int| 0 <= c < old(surfaces)@.len() ==> surface_view(#[trigger] final(surfaces)@[c]) == if c
            < down_combos@.len() {
            Some(pairs_view(pairs@)[down_combos@[c] as int].0)
        } else {
            surface_view(old(surfaces)@[c])
        },
{
    let n = g1.len();
    let m = down_combos.len();
    let ghost pv = pairs_view(pairs@);
    let ghost o1 = cells(*g1);
    let ghost o2 = cells(*g2);
    let ghost os = old(surfaces)@;
    let mut col: usize = 0;
    while col < m
        invariant
            m == down_combos@.len(),
            m <= n,
            pv == pairs_view(pairs@),
            pairs_have_len(pv, n as int),
            indices_below(down_combos@, pairs@.len() as int),
            is_square(o1, n as int),
            is_square(o2, n as int),
            is_square(cells(*g1), n as int),
            is_square(cells(*g2), n as int),
            surfaces@.len() == os.len(),
            os.len() >= m,
            col <= m,
            forall|r: int, c: int| 0 <= r < n && 0 <= c < n ==> cells(*g1)[r][c] == if c < col {
                pv[down_combos@[c] as int].1[r]
            } else {
                o1[r][c]
            },
            forall|r: int, c: int| 0 <= r < n && 0 <= c < n ==> cells(*g2)[r][c] == if c < col {
                pv[down_combos@[c] as int].2[r]
            } else {
                o2[r][c]
            },
            forall|c: int| 0 <= c < os.len() ==> surface_view(#[trigger] surfaces@[c]) == if c < col {
                Some(pv[down_combos@[c] as int].0)
            } else {
                surface_view(os[c])
            },
        decreases m - col,
    {
        let q = down_combos[col];
        assert(q < pairs@.len());
        assert(pv[q as int] == pairs@[q as int]@);
        let ghost before1 = cells(*g1);
        let ghost before2 = cells(*g2);
        place_word_in_col_mut(g1, col, &pairs[q].1);
        place_word_in_col_mut(g2, col, &pairs[q].2);
        surfaces.set(col, Some(pairs[q].0.clone()));
        assert forall|r: int, c: int| 0 <= r < n && 0 <= c < n implies cells(*g1)[r][c] == if c < col + 1 {
            pv[down_combos@[c] as int].1[r]
        } else {
            o1[r][c]
        } by {
            assert(before1[r].len() == n);
        }
        assert forall|r: int, c: int| 0 <= r < n && 0 <= c < n implies cells(*g2)[r][c] == if c < col + 1 {
            pv[down_combos@[c] as int].2[r]
        } else {
            o2[r][c]
        } by {
            assert(before2[r].len() == n);
        }
        col = col + 1;
    }
}

/// The code of a status, as `status_code` numbers them.
pub open spec fn code_of(s: PairStatus) -> int {
    match s {
        PairStatus::HasSurface(_) => 0,
        PairStatus::Words => 1,
        PairStatus::NotWords => 2,
    }
}

/// No word occurs twice among the entries of two dense grids of side `size`.
pub fn no_duplicates_in_grid(size: usize, g1: &Grid, g2: &Grid) -> (r: bool)
    requires
        is_square(cells(*g1), size as int),
        is_square(cells(*g2), size as int),
    ensures
        r == all_distinct(dense_entries(cells(*g1)) + dense_entries(cells(*g2))),
{
    has_no_duplicates_2(g1, g2)
}

impl Dense {
    /// Every way of filling the columns below the seeded rows.
    pub fn get_next_pairs(&self, stage: &DenseStage, st: &SearchState) -> (r: Vec<Vec<usize>>)
        requires
            self.wf(),
            st.fits(self.size as int, self.size as int),
        ensures
            lists_view(r@) == product_of(
                Seq::new(
                    self.size as nat,
                    |c: int|
                        self.prefix_lookup.spec_get(
                            pairs_view(self.pairs@),
                            column_prefix(cells(st.grid1), c, 2),
                            column_prefix(cells(st.grid2), c, 2),
                        ),
                ),
            ),
    {
        find_possible_downs(&self.prefix_lookup, &self.pairs, &st.grid1, &st.grid2)
    }

    /// Place a choice of down pairs; nothing follows it.
    pub fn place_next_pairs(&self, stage: &DenseStage, st: &mut SearchState, pairs: &Vec<usize>) -> (r: Option<DenseStage>)
        requires
            self.wf(),
            old(st).fits(self.size as int, self.size as int),
            pairs@.len() == self.size,
            indices_below(pairs@, self.pairs@.len() as int),
        ensures
            r is None,
            final(st).fits(self.size as int, self.size as int),
            cells(final(st).grid1) == grid_of_downs(pairs_view(self.pairs@), pairs@, self.size as nat, false),
            cells(final(st).grid2) == grid_of_downs(pairs_view(self.pairs@), pairs@, self.size as nat, true),
            surfaces_view(final(st).down_surfaces@) == down_surfaces_of(pairs_view(self.pairs@), pairs@, self.size as nat),
            final(st).across_surfaces@ == old(st).across_surfaces@,
    {
        place_down_clues(&mut st.grid1, &mut st.grid2, &mut st.down_surfaces, &self.pairs, pairs);
        proof {
            let n = self.size as nat;
            let pv = pairs_view(self.pairs@);
            assert(cells(st.grid1) =~~= grid_of_downs(pv, pairs@, n, false));
            assert(cells(st.grid2) =~~= grid_of_downs(pv, pairs@, n, true));
            assert(surfaces_view(st.down_surfaces@) =~= down_surfaces_of(pv, pairs@, n));
        }
        None
    }

    /// The status of each across entry after the seeded rows; the surface of
    /// each one that has one is recorded, and the others' are cleared.
    pub fn get_final_statuses(&self, st: &mut SearchState) -> (r: Vec<PairStatus>)
        requires
            self.wf(),
            old(st).fits(self.size as int, self.size as int),
        ensures
            final(st).grid1 == old(st).grid1,
            final(st).grid2 == old(st).grid2,
            final(st).down_surfaces == old(st).down_surfaces,
            final(st).across_surfaces@.len() == self.size,
            final(st).across_surfaces@[0] == old(st).across_surfaces@[0],
            final(st).across_surfaces@[1] == old(st).across_surfaces@[1],
            forall|row: int| 2 <= row < self.size ==> surface_view(#[trigger] final(st).across_surfaces@[row]) == pair_surface(
                pairs_view(self.pairs@),
                cells(old(st).grid1)[row],
                cells(old(st).grid2)[row],
            ),
            r@.len() == self.size - 2,
            forall|k: int| 0 <= k < r@.len() ==> code_of(#[trigger] r@[k]) == status_code(
                pairs_view(self.pairs@),
                self.word_list.view_set(),
                cells(old(st).grid1)[k + 2],
                cells(old(st).grid2)[k + 2],
            ),
            forall|k: int| 0 <= k < r@.len() && (#[trigger] r@[k]) is HasSurface ==> Some(r@[k]->HasSurface_0@)
                == pair_surface(pairs_view(self.pairs@), cells(old(st).grid1)[k + 2], cells(old(st).grid2)[k + 2]),
    {
        let ghost g1 = cells(st.grid1);
        let ghost g2 = cells(st.grid2);
        let ghost pv = pairs_view(self.pairs@);
        let mut statuses: Vec<PairStatus> = Vec::new();
        let mut row: usize = 2;
        while row < self.size
            invariant
                self.wf(),
                st.fits(self.size as int, self.size as int),
                g1 == cells(st.grid1),
                g2 == cells(st.grid2),
                st.grid1 == old(st).grid1,
                st.grid2 == old(st).grid2,
                st.down_surfaces == old(st).down_surfaces,
                pv == pairs_view(self.pairs@),
                2 <= row <= self.size,
                st.across_surfaces@[0] == old(st).across_surfaces@[0],
                st.across_surfaces@[1] == old(st).across_surfaces@[1],
                forall|r: int| 2 <= r < row ==> surface_view(#[trigger] st.across_surfaces@[r]) == pair_surface(pv, g1[r], g2[r]),
                statuses@.len() == row - 2,
                forall|k: int| 0 <= k < statuses@.len() ==> code_of(#[trigger] statuses@[k]) == status_code(
                    pv,
                    self.word_list.view_set(),
                    g1[k + 2],
                    g2[k + 2],
                ),
                forall|k: int| 0 <= k < statuses@.len() && (#[trigger] statuses@[k]) is HasSurface ==> Some(
                    statuses@[k]->HasSurface_0@,
                ) == pair_surface(pv, g1[k + 2], g2[k + 2]),
            decreases self.size - row,
        {
            let w1 = &st.grid1[row];
            let w2 = &st.grid2[row];
            let found = self.pairs_to_surface.get(w1, w2);
            let status = match found {
                Some(surface) => {
                    let status = PairStatus::HasSurface(surface.clone());
                    st.across_surfaces.set(row, Some(surface));
                    status
                },
                None => {
                    let known = self.word_list.contains(&st.grid1[row]) && self.word_list.contains(&st.grid2[row]);
                    st.across_surfaces.set(row, None);
                    if known {
                        PairStatus::Words
                    } else {
                        PairStatus::NotWords
                    }
                },
            };
            statuses.push(status);
            row = row + 1;
        }
        statuses
    }

    /// The crossword held by the search state.
    pub fn get_crossword(&self, st: &SearchState) -> (r: QuinianCrossword)
        ensures
            r.spec_view() == (
                cells(st.grid1),
                cells(st.grid2),
                surfaces_view(st.across_surfaces@),
                surfaces_view(st.down_surfaces@),
            ),
    {
        get_crossword(st)
    }

    /// No word repeats among the entries of the two grids.
    pub fn is_happy(&self, st: &SearchState) -> (r: bool)
        requires
            st.fits(self.size as int, self.size as int),
        ensures
            r == all_distinct(dense_entries(cells(st.grid1)) + dense_entries(cells(st.grid2))),
    {
        no_duplicates_in_grid(self.size, &st.grid1, &st.grid2)
    }
}

/// The crossword held by a search state.
pub fn get_crossword(st: &SearchState) -> (r: QuinianCrossword)
    ensures
        r.spec_view() == (
            cells(st.grid1),
            cells(st.grid2),
            surfaces_view(st.across_surfaces@),
            surfaces_view(st.down_surfaces@),
        ),
{
    QuinianCrossword {
        grid1: copy_grid(&st.grid1),
        grid2: copy_grid(&st.grid2),
        across_surfaces: copy_surfaces(&st.across_surfaces),
        down_surfaces: copy_surfaces(&st.down_surfaces),
    }
}


/// Each choice takes, for each position, one index below `n` from the list at
/// that position.
pub proof fn lemma_choices_below(lists: Seq<Seq<usize>>, t: int, n: int)
    requires
        0 <= t < product_of(lists).len(),
        forall|c: int| 0 <= c < lists.len() ==> indices_below(#[trigger] lists[c], n),
    ensures
        product_of(lists)[t].len() == lists.len(),
        indices_below(product_of(lists)[t], n),
{
    lemma_product_picks(lists, t);
    let e = product_of(lists)[t];
    assert forall|c: int| 0 <= c < e.len() implies (#[trigger] e[c]) < n by {
        assert(lists[c].contains(e[c]));
        let k = choose|k: int| 0 <= k < lists[c].len() && lists[c][k] == e[c];
        assert(indices_below(lists[c], n));
    }
}

impl Dense {
    /// Search from seeds `i` and `j`: every way of filling the columns below
    /// them, and the crosswords accepted among these, in order.
    pub fn search_from_seed(&self, st: &mut SearchState, i: usize, j: usize, allowed: usize) -> (r: Vec<FoundCrossword>)
        requires
            self.wf(),
            i < self.pairs@.len(),
            j < self.pairs@.len(),
            old(st).fits(self.size as int, self.size as int),
        ensures
            final(st).fits(self.size as int, self.size as int),
            found_view(r@) == dense_seed_results(self.spec_index(), i as int, j as int, allowed as nat),
    {
        let ghost pv = pairs_view(self.pairs@);
        let ghost ix = self.spec_index();
        let ghost n = self.size as nat;
        let mut results: Vec<FoundCrossword> = Vec::new();
        let np = self.pairs.len();
        assert(pv.len() == np);
        assert(pv[i as int] == self.pairs@[i as int]@);
        if word_greater(&self.pairs[i].1, &self.pairs[i].2) {
            assert(found_view(results@) =~= Seq::<FoundView>::empty());
            return results;
        }
        self.reset_and_place_initial_pairs(st, i, j);
        let stage = self.get_initial_stage();
        let exts = self.get_next_pairs(&stage, st);
        let ghost lists = dense_down_lists(pv, i as int, j as int, n);
        proof {
            let g1 = cells(st.grid1);
            let g2 = cells(st.grid2);
            assert forall|c: int| 0 <= c < n implies column_prefix(g1, c, 2) == column_keys(pv, i as int, j as int, c, false)
                && column_prefix(g2, c, 2) == column_keys(pv, i as int, j as int, c, true) by {
                assert(column_prefix(g1, c, 2) =~= column_keys(pv, i as int, j as int, c, false));
                assert(column_prefix(g2, c, 2) =~= column_keys(pv, i as int, j as int, c, true));
            }
            assert(Seq::new(
                n,
                |c: int| self.prefix_lookup.spec_get(pv, column_prefix(g1, c, 2), column_prefix(g2, c, 2)),
            ) =~= lists);
            assert forall|c: int| 0 <= c < lists.len() implies indices_below(#[trigger] lists[c], pv.len() as int) by {
                lemma_matching_indices_below(
                    pv,
                    shows_keys(0, 1, column_keys(pv, i as int, j as int, c, false), column_keys(pv, i as int, j as int, c, true)),
                    pv.len() as int,
                );
            }
        }
        let ghost ev = lists_view(exts@);
        let mut t: usize = 0;
        while t < exts.len()
            invariant
                self.wf(),
                pv == pairs_view(self.pairs@),
                ix == self.spec_index(),
                n == self.size,
                i < pv.len(),
                j < pv.len(),
                !crate::searchers::word_gt(pv[i as int].1, pv[i as int].2),
                ev == lists_view(exts@),
                ev == product_of(lists),
                lists == dense_down_lists(pv, i as int, j as int, n),
                forall|c: int| 0 <= c < lists.len() ==> indices_below(#[trigger] lists[c], pv.len() as int),
                st.fits(self.size as int, self.size as int),
                surface_view(st.across_surfaces@[0]) == Some(pv[i as int].0),
                surface_view(st.across_surfaces@[1]) == Some(pv[j as int].0),
                t <= exts@.len(),
                found_view(results@) == dense_found_among(ix, i as int, j as int, ev, allowed as nat, t as int),
            decreases exts@.len() - t,
        {
            proof {
                lemma_choices_below(lists, t as int, pv.len() as int);
            }
            let ext = &exts[t];
            assert(ext@ == ev[t as int]);
            self.place_next_pairs(&stage, st, ext);
            let ghost g1 = cells(st.grid1);
            let ghost g2 = cells(st.grid2);
            let statuses = self.get_final_statuses(st);
            let mut missing: usize = 0;
            let mut illegal: usize = 0;
            let mut k: usize = 0;
            while k < statuses.len()
                invariant
                    statuses@.len() == n - 2,
                    k <= statuses@.len(),
                    missing <= k,
                    illegal <= k,
                    forall|m: int| 0 <= m < statuses@.len() ==> code_of(#[trigger] statuses@[m]) == status_code(
                        pv,
                        ix.2,
                        g1[m + 2],
                        g2[m + 2],
                    ),
                    missing == count_status(pv, ix.2, g1, g2, 1, 2, 2 + k),
                    illegal == count_status(pv, ix.2, g1, g2, 2, 2, 2 + k),
                decreases statuses@.len() - k,
            {
                assert(code_of(statuses@[k as int]) == status_code(pv, ix.2, g1[k + 2], g2[k + 2]));
                match &statuses[k] {
                    PairStatus::HasSurface(_) => {},
                    PairStatus::Words => {
                        missing = missing + 1;
                    },
                    PairStatus::NotWords => {
                        illegal = illegal + 1;
                    },
                }
                k = k + 1;
            }
            let ghost found = dense_found(ix, i as int, j as int, ev[t as int], allowed as nat);
            let ghost before = results@;
            if illegal == 0 && missing <= allowed && self.is_happy(st) {
                let crossword = get_crossword(st);
                let crossword_type = self.crossword_type();
                assert(surfaces_view(st.across_surfaces@) =~= dense_across_surfaces(pv, i as int, j as int, g1, g2, n));
                results.push(FoundCrossword { crossword, crossword_type, missing_surfaces: missing });
                assert(found_view(results@) =~= found_view(before).push(found->0));
            } else {
                assert(found is None);
            }
            t = t + 1;
        }
        results
    }
}


impl Searcher for Dense {
    open spec fn wf(&self) -> bool {
        Dense::wf(self)
    }

    open spec fn pair_count(&self) -> nat {
        self.pairs@.len()
    }

    open spec fn side(&self) -> nat {
        self.size as nat
    }

    open spec fn entries(&self) -> nat {
        self.size as nat
    }

    /// Seeds are two-element combinations: the first pair comes earlier.
    open spec fn is_seed(&self, i: int, j: int) -> bool {
        i < j
    }

    open spec fn seed_results(&self, i: int, j: int, allowed: nat) -> Seq<FoundView> {
        dense_seed_results(self.spec_index(), i, j, allowed)
    }

    fn number_of_pairs(&self) -> (r: usize) {
        self.pairs.len()
    }

    fn init_state(&self) -> (st: SearchState) {
        self.init_grids()
    }

    fn seed_allowed(&self, i: usize, j: usize) -> (r: bool) {
        i < j
    }

    fn search_from_seed(&self, st: &mut SearchState, i: usize, j: usize, allowed: usize) -> (r: Vec<FoundCrossword>) {
        Dense::search_from_seed(self, st, i, j, allowed)
    }
}


/// Indexing is idempotent: two dense searchers built from the same clues for
/// the same side hold the same pairs, the same known answers in the same
/// order, and lookups with the same buckets.
pub proof fn lemma_index_rebuilt_identically(a: Dense, b: Dense, clues: Seq<(Seq<char>, Seq<char>)>, n: nat)
    requires
        a.wf(),
        b.wf(),
        a.spec_index() == build_index(clues, n),
        b.spec_index() == build_index(clues, n),
        a.word_list.words@.map_values(|w: crate::grid::Word| w@) == crate::data::answer_list(clues_of_length(clues, n as int), n as int),
        b.word_list.words@.map_values(|w: crate::grid::Word| w@) == crate::data::answer_list(clues_of_length(clues, n as int), n as int),
    ensures
        a.size == b.size,
        pairs_view(a.pairs@) == pairs_view(b.pairs@),
        a.word_list.words@.map_values(|w: crate::grid::Word| w@) == b.word_list.words@.map_values(|w: crate::grid::Word| w@),
        forall|k: int| 0 <= k < LOOKUP_BUCKETS ==> (#[trigger] a.prefix_lookup.buckets@[k])@ == b.prefix_lookup.buckets@[k]@,
        a.pairs_to_surface.spec_pairs() == b.pairs_to_surface.spec_pairs(),
        forall|k: int| 0 <= k < LOOKUP_BUCKETS ==> (#[trigger] a.pairs_to_surface.lookup.buckets@[k])@
            == b.pairs_to_surface.lookup.buckets@[k]@,
{
}

} // verus!

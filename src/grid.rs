//! Square character grids and the reading and writing of their entries.
use vstd::prelude::*;

verus! {

/// A word: a sequence of letters.
pub type Word = Vec<char>;

/// A square grid of cells, held row by row.
pub type Grid = Vec<Vec<char>>;

/// The character of an unfilled letter cell.
pub const EMPTY_CELL: char = '.';

/// The character of a blocked cell.
pub const BLOCK_CELL: char = '#';

/// The rows of a grid as sequences of characters.
pub open spec fn cells(g: Grid) -> Seq<Seq<char>> {
    g@.map_values(|row: Vec<char>| row@)
}

/// Every row of `g` has `n` cells and there are `n` rows.
pub open spec fn is_square(g: Seq<Seq<char>>, n: int) -> bool {
    &&& g.len() == n
    &&& forall|r: int| 0 <= r < n ==> (#[trigger] g[r]).len() == n
}

/// The cells of column `c`, read from top to bottom.
pub open spec fn column(g: Seq<Seq<char>>, c: int) -> Seq<char> {
    Seq::new(g.len(), |r: int| g[r][c])
}

/// The first `l` cells of column `c`.
pub open spec fn column_prefix(g: Seq<Seq<char>>, c: int, l: int) -> Seq<char> {
    Seq::new(l as nat, |r: int| g[r][c])
}

/// Write one cell of a grid.
pub fn set_cell(grid: &mut Grid, row: usize, col: usize, c: char)
    requires
        row < old(grid)@.len(),
        col < old(grid)@[row as int]@.len(),
    ensures
        cells(*final(grid)) == cells(*old(grid)).update(
            row as int,
            cells(*old(grid))[row as int].update(col as int, c),
        ),
{
    grid[row][col] = c;
    assert(cells(*grid) =~= cells(*old(grid)).update(
        row as int,
        cells(*old(grid))[row as int].update(col as int, c),
    ));
}


/// The words of all entries of a dense grid: its rows, then its columns.
pub open spec fn dense_entries(g: Seq<Seq<char>>) -> Seq<Seq<char>> {
    g + Seq::new(g.len(), |c: int| column(g, c))
}

/// The cell pattern of an alternating grid of side `n`: cells in an odd row
/// and an odd column are blocked; every other cell is a letter cell.
pub open spec fn is_blocked_cell(r: int, c: int) -> bool {
    r % 2 == 1 && c % 2 == 1
}

/// The rows of `g` with even index: the across entries of an alternating grid.
pub open spec fn alternating_rows(g: Seq<Seq<char>>) -> Seq<Seq<char>> {
    Seq::new(((g.len() + 1) / 2) as nat, |k: int| g[2 * k])
}

/// The columns of `g` with even index: the down entries of an alternating grid.
pub open spec fn alternating_columns(g: Seq<Seq<char>>) -> Seq<Seq<char>> {
    Seq::new(((g.len() + 1) / 2) as nat, |k: int| column(g, 2 * k))
}

/// The words of all entries of an alternating grid: its even rows, then its
/// even columns.
pub open spec fn alternating_entries(g: Seq<Seq<char>>) -> Seq<Seq<char>> {
    alternating_rows(g) + alternating_columns(g)
}

/// No word occurs twice in `ws`.
pub open spec fn all_distinct(ws: Seq<Seq<char>>) -> bool {
    forall|i: int, j: int| 0 <= i < ws.len() && 0 <= j < ws.len() && i != j ==> ws[i] != ws[j]
}

/// Compare two words letter by letter.
pub fn words_equal(a: &Word, b: &Word) -> (r: bool)
    ensures
        r == (a@ == b@),
{
    if a.len() != b.len() {
        return false;
    }
    let mut i: usize = 0;
    while i < a.len()
        invariant
            a@.len() == b@.len(),
            i <= a@.len(),
            forall|k: int| 0 <= k < i ==> a@[k] == b@[k],
        decreases a@.len() - i,
    {
        if a[i] != b[i] {
            return false;
        }
        i = i + 1;
    }
    assert(a@ =~= b@);
    true
}

/// Copy a word.
pub fn copy_word(w: &Word) -> (r: Word)
    ensures
        r@ == w@,
{
    let mut r: Word = Vec::new();
    let mut i: usize = 0;
    while i < w.len()
        invariant
            i <= w@.len(),
            r@ == w@.subrange(0, i as int),
        decreases w@.len() - i,
    {
        r.push(w[i]);
        i = i + 1;
        assert(r@ =~= w@.subrange(0, i as int));
    }
    assert(r@ =~= w@);
    r
}

/// Copy a list of words.
pub fn copy_words(ws: &Vec<Word>) -> (r: Vec<Word>)
    ensures
        r@.map_values(|w: Word| w@) == ws@.map_values(|w: Word| w@),
{
    let mut r: Vec<Word> = Vec::new();
    let mut i: usize = 0;
    while i < ws.len()
        invariant
            i <= ws@.len(),
            r@.len() == i,
            forall|k: int| 0 <= k < i ==> (#[trigger] r@[k])@ == ws@[k]@,
        decreases ws@.len() - i,
    {
        r.push(copy_word(&ws[i]));
        i = i + 1;
    }
    assert(r@.map_values(|w: Word| w@) =~= ws@.map_values(|w: Word| w@));
    r
}

/// Copy a grid.
pub fn copy_grid(g: &Grid) -> (r: Grid)
    ensures
        cells(r) == cells(*g),
{
    let r = copy_words(g);
    assert(cells(r) =~= cells(*g)) by {
        assert forall|k: int| 0 <= k < cells(r).len() implies cells(r)[k] == cells(*g)[k] by {
            assert(r@.map_values(|w: Word| w@)[k] == g@.map_values(|w: Word| w@)[k]);
        }
    }
    r
}

/// No two of the words are equal.
pub fn words_distinct(ws: &Vec<Word>) -> (r: bool)
    ensures
        r == all_distinct(ws@.map_values(|w: Word| w@)),
{
    let ghost v = ws@.map_values(|w: Word| w@);
    let mut i: usize = 0;
    while i < ws.len()
        invariant
            v == ws@.map_values(|w: Word| w@),
            i <= ws@.len(),
            forall|a: int, b: int| 0 <= a < i && 0 <= b < ws@.len() && a != b ==> v[a] != v[b],
        decreases ws@.len() - i,
    {
        let mut j: usize = 0;
        while j < ws.len()
            invariant
                v == ws@.map_values(|w: Word| w@),
                i < ws@.len(),
                j <= ws@.len(),
                forall|a: int, b: int| 0 <= a < i && 0 <= b < ws@.len() && a != b ==> v[a] != v[b],
                forall|b: int| 0 <= b < j && b != i ==> v[i as int] != v[b],
            decreases ws@.len() - j,
        {
            if j != i && words_equal(&ws[i], &ws[j]) {
                assert(v[i as int] == v[j as int]);
                return false;
            }
            j = j + 1;
        }
        i = i + 1;
    }
    true
}

/// Make a grid of side `size` whose cells are all unfilled letter cells.
pub fn make_empty_grid(size: usize) -> (g: Grid)
    ensures
        is_square(cells(g), size as int),
        forall|r: int, c: int| 0 <= r < size && 0 <= c < size ==> cells(g)[r][c] == EMPTY_CELL,
{
    let mut g: Grid = Vec::new();
    let mut r: usize = 0;
    while r < size
        invariant
            r <= size,
            g@.len() == r,
            forall|k: int| 0 <= k < r ==> (#[trigger] g@[k])@ == Seq::new(size as nat, |c: int| EMPTY_CELL),
        decreases size - r,
    {
        let mut row: Vec<char> = Vec::new();
        let mut c: usize = 0;
        while c < size
            invariant
                c <= size,
                row@ == Seq::new(c as nat, |k: int| EMPTY_CELL),
            decreases size - c,
        {
            row.push(EMPTY_CELL);
            c = c + 1;
            assert(row@ =~= Seq::new(c as nat, |k: int| EMPTY_CELL));
        }
        g.push(row);
        r = r + 1;
    }
    g
}

/// Reset every cell of the grid to an unfilled letter cell.
pub fn reset_grid(g: &mut Grid)
    ensures
        cells(*final(g)).len() == cells(*old(g)).len(),
        forall|r: int| 0 <= r < cells(*old(g)).len() ==> (#[trigger] cells(*final(g))[r]).len() == cells(*old(g))[r].len(),
        forall|r: int, c: int| 0 <= r < cells(*final(g)).len() && 0 <= c < cells(*final(g))[r].len() ==> cells(*final(g))[r][c] == EMPTY_CELL,
{
    let ghost g0 = cells(*g);
    let mut row: usize = 0;
    while row < g.len()
        invariant
            row <= cells(*g).len(),
            cells(*g).len() == g0.len(),
            forall|r: int| 0 <= r < g0.len() ==> (#[trigger] cells(*g)[r]).len() == g0[r].len(),
            forall|r: int, c: int| 0 <= r < row && 0 <= c < cells(*g)[r].len() ==> cells(*g)[r][c] == EMPTY_CELL,
        decreases g0.len() - row,
    {
        let mut col: usize = 0;
        while col < g[row].len()
            invariant
                row < cells(*g).len(),
                col <= cells(*g)[row as int].len(),
                cells(*g).len() == g0.len(),
                forall|r: int| 0 <= r < g0.len() ==> (#[trigger] cells(*g)[r]).len() == g0[r].len(),
                forall|r: int, c: int| 0 <= r < row && 0 <= c < cells(*g)[r].len() ==> cells(*g)[r][c] == EMPTY_CELL,
                forall|c: int| 0 <= c < col ==> cells(*g)[row as int][c] == EMPTY_CELL,
            decreases cells(*g)[row as int].len() - col,
        {
            set_cell(g, row, col, EMPTY_CELL);
            col = col + 1;
        }
        row = row + 1;
    }
}

/// Place a word in a row in place.
pub fn place_word_in_row_mut(grid: &mut Grid, row: usize, word: &Word)
    requires
        row < old(grid)@.len(),
    ensures
        cells(*final(grid)) == cells(*old(grid)).update(row as int, word@),
{
    grid[row] = copy_word(word);
    assert(cells(*grid) =~= cells(*old(grid)).update(row as int, word@));
}

/// Place a word in a column in place, from the top row down.
pub fn place_word_in_col_mut(grid: &mut Grid, col: usize, word: &Word)
    requires
        word@.len() <= old(grid)@.len(),
        forall|r: int| 0 <= r < word@.len() ==> col < (#[trigger] cells(*old(grid))[r]).len(),
    ensures
        cells(*final(grid)).len() == cells(*old(grid)).len(),
        forall|r: int| 0 <= r < cells(*old(grid)).len() ==> (#[trigger] cells(*final(grid))[r]).len() == cells(*old(grid))[r].len(),
        forall|r: int, c: int| 0 <= r < cells(*old(grid)).len() && 0 <= c < cells(*old(grid))[r].len() ==>
            cells(*final(grid))[r][c] == if c == col && r < word@.len() { word@[r] } else { cells(*old(grid))[r][c] },
{
    let ghost g0 = cells(*grid);
    let mut row: usize = 0;
    while row < word.len()
        invariant
            row <= word@.len(),
            word@.len() <= g0.len(),
            forall|r: int| 0 <= r < word@.len() ==> col < (#[trigger] g0[r]).len(),
            cells(*grid).len() == g0.len(),
            forall|r: int| 0 <= r < g0.len() ==> (#[trigger] cells(*grid)[r]).len() == g0[r].len(),
            forall|r: int, c: int| 0 <= r < g0.len() && 0 <= c < g0[r].len() ==>
                cells(*grid)[r][c] == if c == col && r < row { word@[r] } else { g0[r][c] },
        decreases word@.len() - row,
    {
        assert(col < g0[row as int].len());
        assert(cells(*grid)[row as int].len() == g0[row as int].len());
        set_cell(grid, row, col, word[row]);
        row = row + 1;
    }
}

/// The first `l` cells of column `col`.
pub fn find_col_prefix(grid: &Grid, col: usize, l: usize) -> (prefix: Word)
    requires
        l <= grid@.len(),
        forall|r: int| 0 <= r < l ==> col < (#[trigger] cells(*grid)[r]).len(),
    ensures
        prefix@ == column_prefix(cells(*grid), col as int, l as int),
{
    let mut prefix: Word = Vec::new();
    let mut row: usize = 0;
    while row < l
        invariant
            row <= l,
            l <= grid@.len(),
            forall|r: int| 0 <= r < l ==> col < (#[trigger] cells(*grid)[r]).len(),
            prefix@ == column_prefix(cells(*grid), col as int, row as int),
        decreases l - row,
    {
        assert(col < cells(*grid)[row as int].len());
        prefix.push(grid[row][col]);
        row = row + 1;
        assert(prefix@ =~= column_prefix(cells(*grid), col as int, row as int));
    }
    prefix
}

/// The word in the given row.
pub fn get_word_in_row(grid: &Grid, row: usize) -> (w: &Word)
    requires
        row < grid@.len(),
    ensures
        w@ == cells(*grid)[row as int],
{
    &grid[row]
}

/// The word in the given column, read from top to bottom.
pub fn get_word_in_col(grid: &Grid, col: usize) -> (w: Word)
    requires
        forall|r: int| 0 <= r < grid@.len() ==> col < (#[trigger] cells(*grid)[r]).len(),
    ensures
        w@ == column(cells(*grid), col as int),
{
    find_col_prefix(grid, col, grid.len())
}

/// All the words of a dense grid: the rows, then the columns.
pub fn get_all_words(g: &Grid) -> (words: Vec<Word>)
    requires
        is_square(cells(*g), g@.len() as int),
    ensures
        words@.map_values(|w: Word| w@) == dense_entries(cells(*g)),
{
    let size = g.len();
    let mut words: Vec<Word> = Vec::new();
    let mut row: usize = 0;
    while row < size
        invariant
            size == g@.len(),
            row <= size,
            words@.len() == row,
            forall|k: int| 0 <= k < row ==> (#[trigger] words@[k])@ == cells(*g)[k],
        decreases size - row,
    {
        words.push(copy_word(&g[row]));
        row = row + 1;
    }
    let mut col: usize = 0;
    while col < size
        invariant
            size == g@.len(),
            is_square(cells(*g), size as int),
            col <= size,
            words@.len() == size + col,
            forall|k: int| 0 <= k < size ==> (#[trigger] words@[k])@ == cells(*g)[k],
            forall|k: int| 0 <= k < col ==> (#[trigger] words@[size + k])@ == column(cells(*g), k),
        decreases size - col,
    {
        words.push(get_word_in_col(g, col));
        col = col + 1;
    }
    assert(words@.map_values(|w: Word| w@) =~= dense_entries(cells(*g))) by {
        assert forall|k: int| size <= k < 2 * size implies words@[k]@ == column(cells(*g), k - size) by {
            let j = k - size;
            assert(words@[size + j]@ == column(cells(*g), j));
        }
    }
    words
}

/// The across words of the rows after (and not including) the given row.
pub fn get_words_in_row_after(grid: &Grid, after: usize) -> (words: Vec<Word>)
    ensures
        words@.map_values(|w: Word| w@) == if after + 1 < grid@.len() {
            cells(*grid).subrange(after + 1, grid@.len() as int)
        } else {
            Seq::empty()
        },
{
    let mut words: Vec<Word> = Vec::new();
    if after >= grid.len() {
        assert(words@.map_values(|w: Word| w@) =~= Seq::empty());
        return words;
    }
    let mut row: usize = after + 1;
    while row < grid.len()
        invariant
            after < grid@.len(),
            after + 1 <= row <= grid@.len(),
            words@.len() == row - after - 1,
            forall|k: int| 0 <= k < words@.len() ==> (#[trigger] words@[k])@ == cells(*grid)[after + 1 + k],
        decreases grid@.len() - row,
    {
        words.push(copy_word(&grid[row]));
        row = row + 1;
    }
    assert(words@.map_values(|w: Word| w@) =~= if after + 1 < grid@.len() {
        cells(*grid).subrange(after + 1, grid@.len() as int)
    } else {
        Seq::empty()
    });
    words
}

/// A copy of the grid with a word in the given row.
pub fn place_word_in_row(grid: &Grid, row: usize, word: &Word) -> (g: Grid)
    requires
        row < grid@.len(),
    ensures
        cells(g) == cells(*grid).update(row as int, word@),
{
    let mut g = copy_grid(grid);
    assert(g@.len() == cells(g).len());
    place_word_in_row_mut(&mut g, row, word);
    g
}

/// A copy of the grid with a word in the given column, from the top row down.
pub fn place_word_in_col(grid: &Grid, col: usize, word: &Word) -> (g: Grid)
    requires
        word@.len() <= grid@.len(),
        forall|r: int| 0 <= r < word@.len() ==> col < (#[trigger] cells(*grid)[r]).len(),
    ensures
        cells(g).len() == cells(*grid).len(),
        forall|r: int| 0 <= r < cells(*grid).len() ==> (#[trigger] cells(g)[r]).len() == cells(*grid)[r].len(),
        forall|r: int, c: int| 0 <= r < cells(*grid).len() && 0 <= c < cells(*grid)[r].len() ==>
            cells(g)[r][c] == if c == col && r < word@.len() { word@[r] } else { cells(*grid)[r][c] },
{
    let mut g = copy_grid(grid);
    assert(g@.len() == cells(g).len());
    place_word_in_col_mut(&mut g, col, word);
    g
}

/// A copy of the grid with two words in its first two rows.
pub fn place_top_two_across(grid: &Grid, word1: &Word, word2: &Word) -> (g: Grid)
    requires
        grid@.len() >= 2,
    ensures
        cells(g) == cells(*grid).update(0, word1@).update(1, word2@),
{
    let g1 = place_word_in_row(grid, 0, word1);
    assert(cells(g1).len() == g1@.len());
    place_word_in_row(&g1, 1, word2)
}

/// Put two words in the first two rows of a grid.
pub fn init_grid(g: &mut Grid, w1: &Word, w2: &Word)
    requires
        old(g)@.len() >= 2,
    ensures
        cells(*final(g)) == cells(*old(g)).update(0, w1@).update(1, w2@),
{
    place_word_in_row_mut(g, 0, w1);
    assert(cells(*g).len() == g@.len());
    place_word_in_row_mut(g, 1, w2);
}

/// No word occurs twice among the rows and columns of a dense grid.
pub fn has_no_duplicates(grid: &Grid) -> (r: bool)
    requires
        is_square(cells(*grid), grid@.len() as int),
    ensures
        r == all_distinct(dense_entries(cells(*grid))),
{
    let words = get_all_words(grid);
    words_distinct(&words)
}

/// No word occurs twice among the rows and columns of two dense grids.
pub fn has_no_duplicates_2(g1: &Grid, g2: &Grid) -> (r: bool)
    requires
        is_square(cells(*g1), g1@.len() as int),
        is_square(cells(*g2), g2@.len() as int),
    ensures
        r == all_distinct(dense_entries(cells(*g1)) + dense_entries(cells(*g2))),
{
    let mut words = get_all_words(g1);
    let mut ws2 = get_all_words(g2);
    let ghost v1 = words@;
    let ghost v2 = ws2@;
    words.append(&mut ws2);
    assert(words@.map_values(|w: Word| w@) =~= v1.map_values(|w: Word| w@) + v2.map_values(|w: Word| w@));
    words_distinct(&words)
}

/// The entries of two dense grids paired position by position.
pub fn extract_solution_pairs(g1: &Grid, g2: &Grid) -> (pairs: Vec<(Word, Word)>)
    requires
        is_square(cells(*g1), g1@.len() as int),
        is_square(cells(*g2), g2@.len() as int),
        g1@.len() == g2@.len(),
    ensures
        pairs@.len() == dense_entries(cells(*g1)).len(),
        forall|k: int| 0 <= k < pairs@.len() ==> (#[trigger] pairs@[k]).0@ == dense_entries(cells(*g1))[k]
            && pairs@[k].1@ == dense_entries(cells(*g2))[k],
{
    let w1 = get_all_words(g1);
    let w2 = get_all_words(g2);
    assert(w1@.len() == w1@.map_values(|w: Word| w@).len());
    assert(w2@.len() == w2@.map_values(|w: Word| w@).len());
    let mut pairs: Vec<(Word, Word)> = Vec::new();
    let mut k: usize = 0;
    while k < w1.len()
        invariant
            w1@.map_values(|w: Word| w@) == dense_entries(cells(*g1)),
            w2@.map_values(|w: Word| w@) == dense_entries(cells(*g2)),
            w1@.len() == w2@.len(),
            k <= w1@.len(),
            pairs@.len() == k,
            forall|j: int| 0 <= j < k ==> (#[trigger] pairs@[j]).0@ == w1@[j]@ && pairs@[j].1@ == w2@[j]@,
        decreases w1@.len() - k,
    {
        pairs.push((copy_word(&w1[k]), copy_word(&w2[k])));
        k = k + 1;
    }
    assert forall|j: int| 0 <= j < pairs@.len() implies (#[trigger] pairs@[j]).0@ == dense_entries(cells(*g1))[j]
        && pairs@[j].1@ == dense_entries(cells(*g2))[j] by {
        assert(w1@.map_values(|w: Word| w@)[j] == w1@[j]@);
        assert(w2@.map_values(|w: Word| w@)[j] == w2@[j]@);
    }
    pairs
}


/// No entry of the first dense grid is an entry of the second.
pub fn all_distinct_words(g1: &Grid, g2: &Grid) -> (r: bool)
    requires
        is_square(cells(*g1), g1@.len() as int),
        is_square(cells(*g2), g2@.len() as int),
    ensures
        r == forall|a: int, b: int|
            0 <= a < dense_entries(cells(*g1)).len() && 0 <= b < dense_entries(cells(*g2)).len() ==> #[trigger] dense_entries(
                cells(*g1),
            )[a] != #[trigger] dense_entries(cells(*g2))[b],
{
    let w1 = get_all_words(g1);
    let w2 = get_all_words(g2);
    let ghost e1 = dense_entries(cells(*g1));
    let ghost e2 = dense_entries(cells(*g2));
    assert(w1@.len() == w1@.map_values(|w: Word| w@).len());
    assert(w2@.len() == w2@.map_values(|w: Word| w@).len());
    let mut a: usize = 0;
    while a < w1.len()
        invariant
            w1@.map_values(|w: Word| w@) == e1,
            w2@.map_values(|w: Word| w@) == e2,
            e1 == dense_entries(cells(*g1)),
            e2 == dense_entries(cells(*g2)),
            w1@.len() == e1.len(),
            w2@.len() == e2.len(),
            a <= w1@.len(),
            forall|x: int, y: int| 0 <= x < a && 0 <= y < e2.len() ==> #[trigger] e1[x] != #[trigger] e2[y],
        decreases w1@.len() - a,
    {
        let mut b: usize = 0;
        while b < w2.len()
            invariant
                w1@.map_values(|w: Word| w@) == e1,
                w2@.map_values(|w: Word| w@) == e2,
                e1 == dense_entries(cells(*g1)),
                e2 == dense_entries(cells(*g2)),
                w1@.len() == e1.len(),
                w2@.len() == e2.len(),
                a < w1@.len(),
                b <= w2@.len(),
                forall|x: int, y: int| 0 <= x < a && 0 <= y < e2.len() ==> #[trigger] e1[x] != #[trigger] e2[y],
                forall|y: int| 0 <= y < b ==> e1[a as int] != #[trigger] e2[y],
            decreases w2@.len() - b,
        {
            assert(e1[a as int] == w1@[a as int]@ && e2[b as int] == w2@[b as int]@);
            if words_equal(&w1[a], &w2[b]) {
                assert(e1[a as int] == e2[b as int]);
                return false;
            }
            b = b + 1;
        }
        a = a + 1;
    }
    true
}

/// The words whose first two letters are the first `l` cells of column
/// `col`.
pub fn find_possible_words_in_col(grid: &Grid, words: &Vec<Word>, col: usize, l: usize) -> (r: Vec<Word>)
    requires
        l <= grid@.len(),
        forall|k: int| 0 <= k < l ==> col < (#[trigger] cells(*grid)[k]).len(),
    ensures
        r@.map_values(|w: Word| w@) == words@.map_values(|w: Word| w@).filter(
            |w: Seq<char>| w.subrange(0, if w.len() < 2 { w.len() as int } else { 2 }) == column_prefix(cells(*grid), col as int, l as int),
        ),
{
    let prefix = find_col_prefix(grid, col, l);
    let ghost wv = words@.map_values(|w: Word| w@);
    let ghost keep = |w: Seq<char>| w.subrange(0, if w.len() < 2 { w.len() as int } else { 2 }) == column_prefix(cells(*grid), col as int, l as int);
    let mut r: Vec<Word> = Vec::new();
    let mut k: usize = 0;
    while k < words.len()
        invariant
            wv == words@.map_values(|w: Word| w@),
            prefix@ == column_prefix(cells(*grid), col as int, l as int),
            keep == (|w: Seq<char>| w.subrange(0, if w.len() < 2 { w.len() as int } else { 2 }) == column_prefix(cells(*grid), col as int, l as int)),
            k <= words@.len(),
            r@.map_values(|w: Word| w@) == wv.subrange(0, k as int).filter(keep),
        decreases words@.len() - k,
    {
        let ghost before = r@;
        proof {
            reveal(Seq::filter);
            assert(wv.subrange(0, k + 1).drop_last() =~= wv.subrange(0, k as int));
        }
        let w = &words[k];
        let take = if w.len() < 2 { w.len() } else { 2 };
        let mut start: Word = Vec::new();
        let mut i: usize = 0;
        while i < take
            invariant
                take <= w@.len(),
                i <= take,
                start@ == w@.subrange(0, i as int),
            decreases take - i,
        {
            start.push(w[i]);
            i = i + 1;
            assert(start@ =~= w@.subrange(0, i as int));
        }
        assert(wv[k as int] == w@);
        if words_equal(&start, &prefix) {
            r.push(copy_word(w));
            assert(r@.map_values(|x: Word| x@) =~= before.map_values(|x: Word| x@).push(wv[k as int]));
        }
        k = k + 1;
    }
    assert(wv.subrange(0, k as int) =~= wv);
    r
}

} // verus!

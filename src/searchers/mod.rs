//! What the two grid topologies share: the status of a completed entry, the
//! order of words, and the names of crossword types.
use vstd::prelude::*;
use crate::grid::{Word, Grid, cells, is_square};
use crate::qc::{FoundCrossword, FoundView, found_view};

pub mod dense;
pub mod alternating;

verus! {

/// The status of a completed entry pair.
pub enum PairStatus {
    /// The two answers share this surface.
    HasSurface(String),
    /// Both answers are known words, but they share no surface.
    Words,
    /// At least one of the answers is not a known word.
    NotWords,
}

/// `a` and `b` agree before position `i`, where `a` has a letter and `b`
/// has either none or a smaller one.
pub open spec fn word_gt_at(a: Seq<char>, b: Seq<char>, i: int) -> bool {
    &&& 0 <= i < a.len()
    &&& i <= b.len()
    &&& a.subrange(0, i) == b.subrange(0, i)
    &&& (i == b.len() || a[i] > b[i])
}

/// `a` comes after `b` in lexicographic order.
pub open spec fn word_gt(a: Seq<char>, b: Seq<char>) -> bool {
    exists|i: int| #[trigger] word_gt_at(a, b, i)
}

/// Whether `a` comes after `b` in lexicographic order.
pub fn word_greater(a: &Word, b: &Word) -> (r: bool)
    ensures
        r == word_gt(a@, b@),
{
    let mut i: usize = 0;
    while i < a.len() && i < b.len() && a[i] == b[i]
        invariant
            i <= a@.len(),
            i <= b@.len(),
            a@.subrange(0, i as int) == b@.subrange(0, i as int),
        decreases a@.len() - i,
    {
        i = i + 1;
        assert(a@.subrange(0, i as int) =~= a@.subrange(0, i - 1).push(a@[i - 1]));
        assert(b@.subrange(0, i as int) =~= b@.subrange(0, i - 1).push(b@[i - 1]));
    }
    if i == a.len() {
        assert forall|k: int| !(#[trigger] word_gt_at(a@, b@, k)) by {
            if word_gt_at(a@, b@, k) {
                assert(a@.subrange(0, i as int)[k] == b@.subrange(0, i as int)[k]);
            }
        }
        false
    } else if i == b.len() {
        assert(word_gt_at(a@, b@, i as int));
        true
    } else {
        let r = a[i] > b[i];
        if !r {
            assert forall|k: int| !(#[trigger] word_gt_at(a@, b@, k)) by {
                if word_gt_at(a@, b@, k) {
                    if k < i {
                        assert(a@.subrange(0, i as int)[k] == b@.subrange(0, i as int)[k]);
                    } else if k > i {
                        assert(a@.subrange(0, k)[i as int] == b@.subrange(0, k)[i as int]);
                    }
                }
            }
        } else {
            assert(word_gt_at(a@, b@, i as int));
        }
        r
    }
}

/// The character of a decimal digit.
pub open spec fn digit_char(d: nat) -> char {
    if d == 0 { '0' } else if d == 1 { '1' } else if d == 2 { '2' } else if d == 3 { '3' } else if d == 4 { '4' }
    else if d == 5 { '5' } else if d == 6 { '6' } else if d == 7 { '7' } else if d == 8 { '8' } else { '9' }
}

/// The decimal digits of `n`.
pub open spec fn decimal(n: nat) -> Seq<char>
    decreases n,
{
    if n < 10 {
        seq![digit_char(n)]
    } else {
        decimal(n / 10).push(digit_char(n % 10))
    }
}

fn digit_char_exec(d: usize) -> (c: char)
    requires
        d < 10,
    ensures
        c == digit_char(d as nat),
{
    if d == 0 { '0' } else if d == 1 { '1' } else if d == 2 { '2' } else if d == 3 { '3' } else if d == 4 { '4' }
    else if d == 5 { '5' } else if d == 6 { '6' } else if d == 7 { '7' } else if d == 8 { '8' } else { '9' }
}

/// The decimal digits of `n`.
pub fn decimal_exec(n: usize) -> (r: Vec<char>)
    ensures
        r@ == decimal(n as nat),
    decreases n,
{
    if n < 10 {
        let mut r: Vec<char> = Vec::new();
        r.push(digit_char_exec(n));
        assert(r@ =~= decimal(n as nat));
        r
    } else {
        let mut r = decimal_exec(n / 10);
        r.push(digit_char_exec(n % 10));
        r
    }
}

/// Relies on std's `FromIterator<&char>` for `String`: the string holds the
/// characters in order.
#[verifier::external_body]
pub(crate) fn chars_to_string(v: &Vec<char>) -> (r: String)
    ensures
        r@ == v@,
{
    v.iter().collect()
}

/// The name of a crossword type: the topology's name followed by the side.
pub open spec fn kind_name(topology: Seq<char>, size: nat) -> Seq<char> {
    topology + decimal(size)
}

/// The name of the dense topology.
pub open spec fn dense_name() -> Seq<char> {
    seq!['d', 'e', 'n', 's', 'e']
}

/// The name of the alternating topology.
pub open spec fn alternating_name() -> Seq<char> {
    seq!['a', 'l', 't', 'e', 'r', 'n', 'a', 't', 'i', 'n', 'g']
}

/// The name of a crossword type.
pub fn make_kind_name(topology: &Vec<char>, size: usize) -> (r: String)
    ensures
        r@ == kind_name(topology@, size as nat),
{
    let mut name = crate::grid::copy_word(topology);
    let mut digits = decimal_exec(size);
    name.append(&mut digits);
    chars_to_string(&name)
}

/// The grids and surfaces that a search fills in place.
pub struct SearchState {
    /// The left hand grid.
    pub grid1: Grid,
    /// The right hand grid.
    pub grid2: Grid,
    /// The across surfaces.
    pub across_surfaces: Vec<Option<String>>,
    /// The down surfaces.
    pub down_surfaces: Vec<Option<String>>,
}

impl SearchState {
    /// Both grids have side `n` and there are `entries` surfaces per axis.
    pub open spec fn fits(&self, n: int, entries: int) -> bool {
        &&& is_square(cells(self.grid1), n)
        &&& is_square(cells(self.grid2), n)
        &&& self.across_surfaces@.len() == entries
        &&& self.down_surfaces@.len() == entries
    }
}

/// A topology's search: its seeds, and what each seed yields.
pub trait Searcher {
    /// The searcher's index is well formed.
    spec fn wf(&self) -> bool;

    /// The number of answer pairs.
    spec fn pair_count(&self) -> nat;

    /// The side of the grids.
    spec fn side(&self) -> nat;

    /// The number of entries per axis.
    spec fn entries(&self) -> nat;

    /// Pairs `i` and `j`, in this order, seed the search.
    spec fn is_seed(&self, i: int, j: int) -> bool;

    /// The crosswords found from seeds `i` and `j`, in order.
    spec fn seed_results(&self, i: int, j: int, allowed: nat) -> Seq<FoundView>;

    /// The number of answer pairs.
    fn number_of_pairs(&self) -> (r: usize)
        ensures
            r == self.pair_count(),
    ;

    /// Grids and surface lists of the searcher's shape.
    fn init_state(&self) -> (st: SearchState)
        requires
            self.wf(),
        ensures
            st.fits(self.side() as int, self.entries() as int),
    ;

    /// Whether pairs `i` and `j` seed the search.
    fn seed_allowed(&self, i: usize, j: usize) -> (r: bool)
        ensures
            r == self.is_seed(i as int, j as int),
    ;

    /// The crosswords found from seeds `i` and `j`, in order.
    fn search_from_seed(&self, st: &mut SearchState, i: usize, j: usize, allowed: usize) -> (r: Vec<FoundCrossword>)
        requires
            self.wf(),
            i < self.pair_count(),
            j < self.pair_count(),
            old(st).fits(self.side() as int, self.entries() as int),
        ensures
            final(st).fits(self.side() as int, self.entries() as int),
            found_view(r@) == self.seed_results(i as int, j as int, allowed as nat),
    ;
}

} // verus!

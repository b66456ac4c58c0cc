//! Finding quinian crosswords of a chosen type from a clue corpus.
use vstd::prelude::*;
use crate::data::{Clue, clues_view, kept_clues, filter_clues, pairs_view};
use crate::qc::{FoundCrossword, FoundView, found_view};
use crate::search::{results_of_seeds, all_seeds, search_results, seed_test, seed_yield, find_grids_with_searcher,
    lemma_seeds_in_range, lemma_results_all, lemma_start_index_tail};
use crate::soundness::{dense_result_ok, alternating_result_ok, lemma_dense_seed_results_ok, lemma_alternating_seed_results_ok};
use crate::searchers::{Searcher, SearchState, kind_name, dense_name, alternating_name, make_kind_name};
use crate::searchers::dense::{Dense, IndexView, build_index, dense_seed_results};
use crate::searchers::alternating::{Alternating, alternating_seed_results};

verus! {

/// The kinds of crossword that can be searched for.
#[derive(Clone, Copy, Debug)]
pub enum CrosswordType {
    /// Dense, side 3.
    Dense3,
    /// Dense, side 4.
    Dense4,
    /// Dense, side 5.
    Dense5,
    /// Alternating, side 5.
    Alternating5,
    /// Alternating, side 6.
    Alternating6,
    /// Alternating, side 7.
    Alternating7,
}

/// The side of the grids of a crossword type.
pub open spec fn side_of(t: CrosswordType) -> nat {
    match t {
        CrosswordType::Dense3 => 3,
        CrosswordType::Dense4 => 4,
        CrosswordType::Dense5 => 5,
        CrosswordType::Alternating5 => 5,
        CrosswordType::Alternating6 => 6,
        CrosswordType::Alternating7 => 7,
    }
}

/// The crossword type is dense.
pub open spec fn is_dense(t: CrosswordType) -> bool {
    match t {
        CrosswordType::Dense3 | CrosswordType::Dense4 | CrosswordType::Dense5 => true,
        _ => false,
    }
}

/// The name of a crossword type, such as `dense3` or `alternating5`.
pub open spec fn type_label(t: CrosswordType) -> Seq<char> {
    kind_name(if is_dense(t) { dense_name() } else { alternating_name() }, side_of(t))
}

/// The index that a search for crosswords of type `t` builds from the clues
/// that the filter keeps.
pub open spec fn find_index(
    clues: Seq<(Seq<char>, Seq<char>)>,
    word_frequencies: Seq<u32>,
    min_word_frequency: Option<u32>,
    broda_scores: Seq<u32>,
    min_broda_score: Option<u32>,
    t: CrosswordType,
) -> IndexView {
    let kept = kept_clues(clues, word_frequencies, min_word_frequency, broda_scores, min_broda_score, clues.len() as int);
    build_index(kept, side_of(t))
}

/// What each seed yields in a search of type `t` over the index.
pub open spec fn find_yields(ix: IndexView, t: CrosswordType, allowed: nat) -> spec_fn(int, int) -> Seq<FoundView> {
    if is_dense(t) {
        |i: int, j: int| dense_seed_results(ix, i, j, allowed)
    } else {
        |i: int, j: int| alternating_seed_results((ix.0, ix.1), i, j)
    }
}

/// The seeds of a search of type `t` over the index, in order: two-element
/// combinations of pairs for dense grids, ordered arrangements for
/// alternating ones.
pub open spec fn find_seeds(ix: IndexView, t: CrosswordType) -> Seq<(int, int)> {
    if is_dense(t) {
        all_seeds(ix.1.len() as int, |i: int, j: int| i < j)
    } else {
        all_seeds(ix.1.len() as int, |i: int, j: int| i != j)
    }
}

/// What a search for crosswords of type `t` yields from the clues kept by the
/// filter, skipping the seeds whose 1-based position is below `start`.
pub open spec fn find_results(
    clues: Seq<(Seq<char>, Seq<char>)>,
    word_frequencies: Seq<u32>,
    min_word_frequency: Option<u32>,
    broda_scores: Seq<u32>,
    min_broda_score: Option<u32>,
    t: CrosswordType,
    start: int,
    allowed: nat,
) -> Seq<FoundView> {
    let ix = find_index(clues, word_frequencies, min_word_frequency, broda_scores, min_broda_score, t);
    results_of_seeds(find_yields(ix, t, allowed), find_seeds(ix, t), start)
}

/// A found crossword is sound for the index of a search of type `t`.
pub open spec fn find_result_ok(ix: IndexView, t: CrosswordType, allowed: nat, f: FoundView) -> bool {
    if is_dense(t) {
        dense_result_ok(ix, allowed, f)
    } else {
        alternating_result_ok((ix.0, ix.1), f)
    }
}

/// Determinism: the same clues, scores and parameters give the same
/// crosswords in the same order.
pub proof fn lemma_determinism(
    clues1: Seq<(Seq<char>, Seq<char>)>,
    clues2: Seq<(Seq<char>, Seq<char>)>,
    word_frequencies: Seq<u32>,
    min_word_frequency: Option<u32>,
    broda_scores: Seq<u32>,
    min_broda_score: Option<u32>,
    t: CrosswordType,
    start: int,
    allowed: nat,
)
    requires
        clues1 == clues2,
    ensures
        find_results(clues1, word_frequencies, min_word_frequency, broda_scores, min_broda_score, t, start, allowed)
            == find_results(clues2, word_frequencies, min_word_frequency, broda_scores, min_broda_score, t, start, allowed),
{
}

/// Starting at the seed at 1-based position `k` yields exactly the tail of
/// the full run from that seed on: the full run is what the first `k - 1`
/// seeds yield, followed by the run that starts at `k`.
pub proof fn lemma_find_start_index(
    clues: Seq<(Seq<char>, Seq<char>)>,
    word_frequencies: Seq<u32>,
    min_word_frequency: Option<u32>,
    broda_scores: Seq<u32>,
    min_broda_score: Option<u32>,
    t: CrosswordType,
    k: int,
    allowed: nat,
)
    requires
        k >= 1,
    ensures
        ({
            let ix = find_index(clues, word_frequencies, min_word_frequency, broda_scores, min_broda_score, t);
            let seeds = find_seeds(ix, t);
            let first = seeds.subrange(0, if k - 1 <= seeds.len() { k - 1 } else { seeds.len() as int });
            find_results(clues, word_frequencies, min_word_frequency, broda_scores, min_broda_score, t, 1, allowed)
                == results_of_seeds(find_yields(ix, t, allowed), first, 1) + find_results(
                clues,
                word_frequencies,
                min_word_frequency,
                broda_scores,
                min_broda_score,
                t,
                k,
                allowed,
            )
        }),
{
    let ix = find_index(clues, word_frequencies, min_word_frequency, broda_scores, min_broda_score, t);
    lemma_start_index_tail(find_yields(ix, t, allowed), find_seeds(ix, t), k);
}

/// The name of a crossword type.
pub fn show_crossword_type(crossword_type: CrosswordType) -> (r: String)
    ensures
        r@ == type_label(crossword_type),
{
    let dense = vec!['d', 'e', 'n', 's', 'e'];
    let alternating = vec!['a', 'l', 't', 'e', 'r', 'n', 'a', 't', 'i', 'n', 'g'];
    assert(dense@ =~= dense_name());
    assert(alternating@ =~= alternating_name());
    match crossword_type {
        CrosswordType::Dense3 => make_kind_name(&dense, 3),
        CrosswordType::Dense4 => make_kind_name(&dense, 4),
        CrosswordType::Dense5 => make_kind_name(&dense, 5),
        CrosswordType::Alternating5 => make_kind_name(&alternating, 5),
        CrosswordType::Alternating6 => make_kind_name(&alternating, 6),
        CrosswordType::Alternating7 => make_kind_name(&alternating, 7),
    }
}

/// The side of the grids of a crossword type.
pub fn crossword_side(t: CrosswordType) -> (r: usize)
    ensures
        r == side_of(t),
{
    match t {
        CrosswordType::Dense3 => 3,
        CrosswordType::Dense4 => 4,
        CrosswordType::Dense5 => 5,
        CrosswordType::Alternating5 => 5,
        CrosswordType::Alternating6 => 6,
        CrosswordType::Alternating7 => 7,
    }
}

/// A searcher of either topology.
pub enum AnySearcher {
    /// A searcher for dense grids.
    Dense(Dense),
    /// A searcher for alternating grids.
    Alternating(Alternating),
}

impl AnySearcher {
    /// The number of seeds, for reporting progress (as many as `usize`
    /// holds).
    pub fn number_of_seeds(&self) -> (r: usize)
        ensures
            r as int == match self {
                AnySearcher::Dense(d) => if d.pairs@.len() * (d.pairs@.len() - 1) / 2 <= usize::MAX {
                    d.pairs@.len() * (d.pairs@.len() - 1) / 2
                } else {
                    usize::MAX as int
                },
                AnySearcher::Alternating(a) => if a.pairs@.len() * (a.pairs@.len() - 1) <= usize::MAX {
                    a.pairs@.len() * (a.pairs@.len() - 1)
                } else {
                    usize::MAX as int
                },
            },
    {
        match self {
            AnySearcher::Dense(d) => d.calculate_number_of_initial_pairs(),
            AnySearcher::Alternating(a) => a.calculate_number_of_initial_pairs(),
        }
    }

    /// The searcher is for dense grids.
    pub fn is_dense_searcher(&self) -> (r: bool)
        ensures
            r == (self is Dense),
    {
        match self {
            AnySearcher::Dense(_) => true,
            AnySearcher::Alternating(_) => false,
        }
    }
}

impl Searcher for AnySearcher {
    open spec fn wf(&self) -> bool {
        match self {
            AnySearcher::Dense(d) => d.wf(),
            AnySearcher::Alternating(a) => a.wf(),
        }
    }

    open spec fn pair_count(&self) -> nat {
        match self {
            AnySearcher::Dense(d) => d.pairs@.len(),
            AnySearcher::Alternating(a) => a.pairs@.len(),
        }
    }

    open spec fn side(&self) -> nat {
        match self {
            AnySearcher::Dense(d) => d.size as nat,
            AnySearcher::Alternating(a) => a.size as nat,
        }
    }

    open spec fn entries(&self) -> nat {
        match self {
            AnySearcher::Dense(d) => d.size as nat,
            AnySearcher::Alternating(a) => a.number_of_clues as nat,
        }
    }

    open spec fn is_seed(&self, i: int, j: int) -> bool {
        match self {
            AnySearcher::Dense(_) => i < j,
            AnySearcher::Alternating(_) => i != j,
        }
    }

    open spec fn seed_results(&self, i: int, j: int, allowed: nat) -> Seq<FoundView> {
        match self {
            AnySearcher::Dense(d) => dense_seed_results(d.spec_index(), i, j, allowed),
            AnySearcher::Alternating(a) => alternating_seed_results(a.spec_index(), i, j),
        }
    }

    fn number_of_pairs(&self) -> (r: usize) {
        match self {
            AnySearcher::Dense(d) => d.pairs.len(),
            AnySearcher::Alternating(a) => a.pairs.len(),
        }
    }

    fn init_state(&self) -> (st: SearchState) {
        match self {
            AnySearcher::Dense(d) => d.init_grids(),
            AnySearcher::Alternating(a) => a.init_grids(),
        }
    }

    fn seed_allowed(&self, i: usize, j: usize) -> (r: bool) {
        match self {
            AnySearcher::Dense(_) => i < j,
            AnySearcher::Alternating(_) => i != j,
        }
    }

    fn search_from_seed(&self, st: &mut SearchState, i: usize, j: usize, allowed: usize) -> (r: Vec<FoundCrossword>) {
        match self {
            AnySearcher::Dense(d) => d.search_from_seed(st, i, j, allowed),
            AnySearcher::Alternating(a) => a.search_from_seed(st, i, j),
        }
    }
}

/// The searcher is of type `t`'s topology and holds the index `ix`.
pub open spec fn searcher_holds(s: AnySearcher, ix: IndexView, t: CrosswordType) -> bool {
    match s {
        AnySearcher::Dense(d) => is_dense(t) && d.spec_index() == ix,
        AnySearcher::Alternating(a) => !is_dense(t) && a.spec_index() == (ix.0, ix.1),
    }
}

/// Filter the clues and build the searcher of the chosen type from those
/// kept. `word_frequencies[i]` and `broda_scores[i]` are the scores of the
/// answer of `clues[i]`.
pub fn make_searcher(
    clues: Vec<Clue>,
    word_frequencies: Vec<u32>,
    broda_scores: &Vec<u32>,
    searcher: CrosswordType,
    min_word_frequency: Option<u32>,
    min_broda_score: Option<u32>,
) -> (r: AnySearcher)
    requires
        word_frequencies@.len() == clues@.len(),
        broda_scores@.len() == clues@.len(),
    ensures
        r.wf(),
        searcher_holds(
            r,
            find_index(clues_view(clues@), word_frequencies@, min_word_frequency, broda_scores@, min_broda_score, searcher),
            searcher,
        ),
{
    let filtered_clues = filter_clues(clues, word_frequencies, min_word_frequency, broda_scores, min_broda_score);
    let size = crossword_side(searcher);
    match searcher {
        CrosswordType::Dense3 | CrosswordType::Dense4 | CrosswordType::Dense5 => AnySearcher::Dense(
            Dense::new(size, filtered_clues),
        ),
        _ => AnySearcher::Alternating(Alternating::new(size, filtered_clues)),
    }
}

/// What a searcher built for type `t` over the index `ix` yields is what a
/// search of that type over the index yields, and every crossword in it is
/// sound for the index.
pub proof fn lemma_any_searcher_results(s: AnySearcher, ix: IndexView, t: CrosswordType, start: int, allowed: nat)
    requires
        s.wf(),
        searcher_holds(s, ix, t),
        s.pair_count() <= usize::MAX,
    ensures
        search_results(&s, start, allowed) == results_of_seeds(find_yields(ix, t, allowed), find_seeds(ix, t), start),
        forall|k: int| 0 <= k < search_results(&s, start, allowed).len() ==> find_result_ok(
            ix,
            t,
            allowed,
            #[trigger] search_results(&s, start, allowed)[k],
        ),
{
    let np = s.pair_count();
    let r = search_results(&s, start, allowed);
    match s {
        AnySearcher::Dense(d) => {
            assert(np == pairs_view(d.pairs@).len());
            let test = |i: int, j: int| i < j;
            let yields = |i: int, j: int| dense_seed_results(ix, i, j, allowed);
            assert(seed_test(&s) =~= test);
            assert(seed_yield(&s, allowed) =~= yields);
            assert(find_yields(ix, t, allowed) =~= yields);
            let seeds = all_seeds(np as int, test);
            lemma_seeds_in_range(np as int, test, np as int, 0);
            let ok = |f: FoundView| dense_result_ok(ix, allowed, f);
            assert forall|u: int, k: int| 0 <= u < seeds.len() && 0 <= k < yields(seeds[u].0, seeds[u].1).len()
                implies ok(#[trigger] yields(seeds[u].0, seeds[u].1)[k]) by {
                lemma_dense_seed_results_ok(ix, seeds[u].0, seeds[u].1, allowed);
            }
            lemma_results_all(yields, seeds, start, ok);
            assert(r == results_of_seeds(yields, seeds, start));
            assert forall|k: int| 0 <= k < r.len() implies find_result_ok(ix, t, allowed, #[trigger] r[k]) by {
                assert(ok(r[k]));
            }
        },
        AnySearcher::Alternating(a) => {
            assert(np == pairs_view(a.pairs@).len());
            let test = |i: int, j: int| i != j;
            let yields = |i: int, j: int| alternating_seed_results((ix.0, ix.1), i, j);
            assert(seed_test(&s) =~= test);
            assert(seed_yield(&s, allowed) =~= yields);
            assert(find_yields(ix, t, allowed) =~= yields);
            let seeds = all_seeds(np as int, test);
            lemma_seeds_in_range(np as int, test, np as int, 0);
            let ok = |f: FoundView| alternating_result_ok((ix.0, ix.1), f);
            assert forall|u: int, k: int| 0 <= u < seeds.len() && 0 <= k < yields(seeds[u].0, seeds[u].1).len()
                implies ok(#[trigger] yields(seeds[u].0, seeds[u].1)[k]) by {
                lemma_alternating_seed_results_ok((ix.0, ix.1), seeds[u].0, seeds[u].1);
            }
            lemma_results_all(yields, seeds, start, ok);
            assert(r == results_of_seeds(yields, seeds, start));
            assert forall|k: int| 0 <= k < r.len() implies find_result_ok(ix, t, allowed, #[trigger] r[k]) by {
                assert(ok(r[k]));
            }
        },
    }
}

/// Filter the clues, build the searcher of the chosen type, and collect the
/// crosswords it finds from the seed at 1-based position `start_index` on,
/// with at most `allowed_missing_surfaces` across entries lacking a surface.
/// `word_frequencies[i]` and `broda_scores[i]` are the scores of the answer of
/// `clues[i]`.
pub fn find_qcs(
    clues: Vec<Clue>,
    word_frequencies: Vec<u32>,
    broda_scores: &Vec<u32>,
    searcher: CrosswordType,
    min_word_frequency: Option<u32>,
    min_broda_score: Option<u32>,
    start_index: usize,
    allowed_missing_surfaces: usize,
) -> (r: Vec<FoundCrossword>)
    requires
        word_frequencies@.len() == clues@.len(),
        broda_scores@.len() == clues@.len(),
    ensures
        found_view(r@) == find_results(
            clues_view(clues@),
            word_frequencies@,
            min_word_frequency,
            broda_scores@,
            min_broda_score,
            searcher,
            start_index as int,
            allowed_missing_surfaces as nat,
        ),
        crate::data::pair_answers_ok(
            find_index(clues_view(clues@), word_frequencies@, min_word_frequency, broda_scores@, min_broda_score, searcher).1,
            crate::data::upper_test(),
        ),
        forall|k: int| 0 <= k < r@.len() ==> find_result_ok(
            find_index(clues_view(clues@), word_frequencies@, min_word_frequency, broda_scores@, min_broda_score, searcher),
            searcher,
            allowed_missing_surfaces as nat,
            #[trigger] found_view(r@)[k],
        ),
{
    let ghost cv = clues_view(clues@);
    let ghost ix = find_index(cv, word_frequencies@, min_word_frequency, broda_scores@, min_broda_score, searcher);
    proof {
        crate::data::lemma_kept_clues_upper(cv, word_frequencies@, min_word_frequency, broda_scores@, min_broda_score, cv.len() as int);
        let kept = kept_clues(cv, word_frequencies@, min_word_frequency, broda_scores@, min_broda_score, cv.len() as int);
        crate::searchers::dense::lemma_build_index_ok(kept, side_of(searcher), crate::data::upper_test());
    }
    let s = make_searcher(clues, word_frequencies, broda_scores, searcher, min_word_frequency, min_broda_score);
    let np = s.number_of_pairs();
    let r = find_grids_with_searcher(start_index, allowed_missing_surfaces, &s);
    proof {
        lemma_any_searcher_results(s, ix, searcher, start_index as int, allowed_missing_surfaces as nat);
        assert forall|k: int| 0 <= k < r@.len() implies find_result_ok(
            ix,
            searcher,
            allowed_missing_surfaces as nat,
            #[trigger] found_view(r@)[k],
        ) by {
            assert(found_view(r@)[k] == search_results(&s, start_index as int, allowed_missing_surfaces as nat)[k]);
        }
    }
    r
}

} // verus!

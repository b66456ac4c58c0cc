//! The enumeration driver: it visits the seeds of a searcher in order and
//! collects what each yields.
use vstd::prelude::*;
use crate::qc::{FoundCrossword, FoundView, found_view};
use crate::searchers::Searcher;

verus! {

/// The seeds among `n` pairs that come before `(i, j)`: the `(i', j')` that
/// pass `is_seed` with `i' < i`, or `i' == i` and `j' < j`, in lexicographic
/// order.
pub open spec fn seeds_before(n: int, is_seed: spec_fn(int, int) -> bool, i: int, j: int) -> Seq<(int, int)>
    decreases i, j,
{
    if j > 0 {
        let before = seeds_before(n, is_seed, i, j - 1);
        if is_seed(i, j - 1) {
            before.push((i, j - 1))
        } else {
            before
        }
    } else if i > 0 {
        seeds_before(n, is_seed, i - 1, n)
    } else {
        Seq::empty()
    }
}

/// All the seeds among `n` pairs, in order.
pub open spec fn all_seeds(n: int, is_seed: spec_fn(int, int) -> bool) -> Seq<(int, int)> {
    seeds_before(n, is_seed, n, 0)
}

/// What the seeds yield, in order, leaving out the seeds whose 1-based
/// position is below `start`.
pub open spec fn results_of_seeds(
    yields: spec_fn(int, int) -> Seq<FoundView>,
    seeds: Seq<(int, int)>,
    start: int,
) -> Seq<FoundView>
    decreases seeds.len(),
{
    if seeds.len() == 0 {
        Seq::empty()
    } else {
        let before = results_of_seeds(yields, seeds.drop_last(), start);
        if seeds.len() >= start {
            before + yields(seeds.last().0, seeds.last().1)
        } else {
            before
        }
    }
}

/// The seed test of a searcher.
pub open spec fn seed_test<S: Searcher>(s: &S) -> spec_fn(int, int) -> bool {
    |i: int, j: int| s.is_seed(i, j)
}

/// What each seed of a searcher yields.
pub open spec fn seed_yield<S: Searcher>(s: &S, allowed: nat) -> spec_fn(int, int) -> Seq<FoundView> {
    |i: int, j: int| s.seed_results(i, j, allowed)
}

/// What a searcher yields from its seeds, skipping those before `start`.
pub open spec fn search_results<S: Searcher>(s: &S, start: int, allowed: nat) -> Seq<FoundView> {
    results_of_seeds(seed_yield(s, allowed), all_seeds(s.pair_count() as int, seed_test(s)), start)
}

/// A position in the walk over the seeds of a searcher: the next pair of
/// indices `(i, j)` to look at, and how many seeds come before it.
pub struct SeedCursor {
    /// The index of the first pair of the seed to look at next.
    pub i: usize,
    /// The index of the second pair of the seed to look at next.
    pub j: usize,
    /// The number of seeds before `(i, j)`.
    pub k: u128,
}

/// The cursor stands at a pair of indices below the pair count, or at the
/// end, and counts the seeds before it.
pub open spec fn cursor_valid<S: Searcher>(s: &S, c: SeedCursor) -> bool {
    let n = s.pair_count() as int;
    &&& ((c.i < n && c.j < n) || (c.i == n && c.j == 0))
    &&& c.k == seeds_before(n, seed_test(s), c.i as int, c.j as int).len()
}

proof fn lemma_seeds_count(n: int, is_seed: spec_fn(int, int) -> bool, i: int, j: int)
    requires
        0 <= i <= n,
        0 <= j <= n,
    ensures
        seeds_before(n, is_seed, i, j).len() <= i * n + j,
    decreases i, j,
{
    if j > 0 {
        lemma_seeds_count(n, is_seed, i, j - 1);
    } else if i > 0 {
        lemma_seeds_count(n, is_seed, i - 1, n);
        assert((i - 1) * n + n == i * n) by (nonlinear_arith);
    }
}

/// The cursor at the start of the walk.
pub fn first_seed_cursor<T: Searcher>(searcher: &T) -> (c: SeedCursor)
    ensures
        cursor_valid(searcher, c),
        c.i == 0,
        c.j == 0,
{
    SeedCursor { i: 0, j: 0, k: 0 }
}

/// One step of the walk over the seeds: look at the pair of indices under the
/// cursor, and move past it. Where it is a seed whose 1-based position is at
/// least `start_index`, it is returned for searching; what the seeds before
/// the new cursor yield is then what those before the old one yield followed
/// by what it yields.
pub fn next_seed<T: Searcher>(searcher: &T, cur: &SeedCursor, start_index: usize) -> (r: (SeedCursor, Option<(usize, usize)>))
    requires
        cursor_valid(searcher, *cur),
        cur.i < searcher.pair_count(),
    ensures
        cursor_valid(searcher, r.0),
        (r.0.i, r.0.j) == if cur.j + 1 < searcher.pair_count() {
            (cur.i, (cur.j + 1) as usize)
        } else {
            ((cur.i + 1) as usize, 0usize)
        },
        seeds_before(searcher.pair_count() as int, seed_test(searcher), r.0.i as int, r.0.j as int) == if searcher.is_seed(
            cur.i as int,
            cur.j as int,
        ) {
            seeds_before(searcher.pair_count() as int, seed_test(searcher), cur.i as int, cur.j as int).push(
                (cur.i as int, cur.j as int),
            )
        } else {
            seeds_before(searcher.pair_count() as int, seed_test(searcher), cur.i as int, cur.j as int)
        },
        r.1 == if searcher.is_seed(cur.i as int, cur.j as int) && r.0.k >= start_index {
            Some((cur.i, cur.j))
        } else {
            None
        },
        forall|allowed: nat|
            #[trigger] results_of_seeds(
                seed_yield(searcher, allowed),
                seeds_before(searcher.pair_count() as int, seed_test(searcher), r.0.i as int, r.0.j as int),
                start_index as int,
            ) == results_of_seeds(
                seed_yield(searcher, allowed),
                seeds_before(searcher.pair_count() as int, seed_test(searcher), cur.i as int, cur.j as int),
                start_index as int,
            ) + match r.1 {
                Some(p) => searcher.seed_results(p.0 as int, p.1 as int, allowed),
                None => Seq::empty(),
            },
{
    let n = searcher.number_of_pairs();
    let ghost test = seed_test(searcher);
    let ghost before = seeds_before(n as int, test, cur.i as int, cur.j as int);
    let ghost after = seeds_before(n as int, test, cur.i as int, cur.j + 1);
    proof {
        lemma_seeds_count(n as int, test, cur.i as int, cur.j as int);
        assert(cur.i * n + cur.j + 1 <= u128::MAX) by (nonlinear_arith)
            requires
                cur.i < n,
                cur.j < n,
                n <= usize::MAX,
        ;
    }
    let seed = searcher.seed_allowed(cur.i, cur.j);
    let k = if seed {
        cur.k + 1
    } else {
        cur.k
    };
    let next = if cur.j + 1 < n {
        SeedCursor { i: cur.i, j: cur.j + 1, k }
    } else {
        SeedCursor { i: cur.i + 1, j: 0, k }
    };
    assert(seeds_before(n as int, test, next.i as int, next.j as int) == after);
    let visit = if seed && k >= start_index as u128 {
        Some((cur.i, cur.j))
    } else {
        None
    };
    proof {
        assert forall|allowed: nat|
            #[trigger] results_of_seeds(seed_yield(searcher, allowed), after, start_index as int) == results_of_seeds(
                seed_yield(searcher, allowed),
                before,
                start_index as int,
            ) + match visit {
                Some(p) => searcher.seed_results(p.0 as int, p.1 as int, allowed),
                None => Seq::empty(),
            } by {
            let y = seed_yield(searcher, allowed);
            if seed {
                assert(after == before.push((cur.i as int, cur.j as int)));
                assert(after.drop_last() =~= before);
                assert(after.last() == (cur.i as int, cur.j as int));
                if visit is None {
                    assert(results_of_seeds(y, before, start_index as int) + Seq::<FoundView>::empty() =~= results_of_seeds(
                        y,
                        before,
                        start_index as int,
                    ));
                }
            } else {
                assert(after == before);
                assert(results_of_seeds(y, before, start_index as int) + Seq::<FoundView>::empty() =~= results_of_seeds(
                    y,
                    before,
                    start_index as int,
                ));
            }
        }
    }
    (next, visit)
}

/// Find crosswords with the given searcher: visit its seeds in order, skip
/// those whose 1-based position is below `start_index`, and collect what the
/// others yield with at most `allowed_missing_surfaces` entries lacking a
/// surface.
pub fn find_grids_with_searcher<T: Searcher>(
    start_index: usize,
    allowed_missing_surfaces: usize,
    searcher: &T,
) -> (r: Vec<FoundCrossword>)
    requires
        searcher.wf(),
    ensures
        found_view(r@) == search_results(searcher, start_index as int, allowed_missing_surfaces as nat),
{
    let n = searcher.number_of_pairs();
    let ghost test = seed_test(searcher);
    let ghost yields = seed_yield(searcher, allowed_missing_surfaces as nat);
    let mut st = searcher.init_state();
    let mut results: Vec<FoundCrossword> = Vec::new();
    let mut cur = first_seed_cursor(searcher);
    if n == 0 {
        return results;
    }
    while cur.i < n
        invariant
            searcher.wf(),
            n == searcher.pair_count(),
            n > 0,
            test == seed_test(searcher),
            yields == seed_yield(searcher, allowed_missing_surfaces as nat),
            cursor_valid(searcher, cur),
            st.fits(searcher.side() as int, searcher.entries() as int),
            found_view(results@) == results_of_seeds(
                yields,
                seeds_before(n as int, test, cur.i as int, cur.j as int),
                start_index as int,
            ),
        decreases n - cur.i, n - cur.j,
    {
        let (next, visit) = next_seed(searcher, &cur, start_index);
        let ghost step = results_of_seeds(
            yields,
            seeds_before(n as int, test, next.i as int, next.j as int),
            start_index as int,
        );
        assert(step == results_of_seeds(
            yields,
            seeds_before(n as int, test, cur.i as int, cur.j as int),
            start_index as int,
        ) + match visit {
            Some(p) => searcher.seed_results(p.0 as int, p.1 as int, allowed_missing_surfaces as nat),
            None => Seq::empty(),
        });
        match visit {
            Some((a, b)) => {
                let ghost before = results@;
                let mut found = searcher.search_from_seed(&mut st, a, b, allowed_missing_surfaces);
                let ghost got = found@;
                results.append(&mut found);
                assert(found_view(results@) =~= found_view(before) + found_view(got));
            },
            None => {
                assert(found_view(results@) =~= step);
            },
        }
        cur = next;
    }
    results
}


/// Every seed among `n` pairs before `(i, j)` is a pair of indices below `n`
/// that comes before `(i, j)`.
pub proof fn lemma_seeds_in_range(n: int, is_seed: spec_fn(int, int) -> bool, i: int, j: int)
    requires
        0 <= i <= n,
        0 <= j <= n,
    ensures
        forall|t: int| 0 <= t < seeds_before(n, is_seed, i, j).len() ==> {
            let s = #[trigger] seeds_before(n, is_seed, i, j)[t];
            &&& 0 <= s.0 <= i
            &&& 0 <= s.1 < n
            &&& (s.0 < i || s.1 < j)
        },
    decreases i, j,
{
    let all = seeds_before(n, is_seed, i, j);
    if j > 0 {
        lemma_seeds_in_range(n, is_seed, i, j - 1);
        let before = seeds_before(n, is_seed, i, j - 1);
        assert forall|t: int| 0 <= t < all.len() implies {
            let s = #[trigger] all[t];
            &&& 0 <= s.0 <= i
            &&& 0 <= s.1 < n
            &&& (s.0 < i || s.1 < j)
        } by {
            if t < before.len() {
                assert(all[t] == before[t]);
            } else {
                assert(all == before.push((i, j - 1)));
            }
        }
    } else if i > 0 {
        lemma_seeds_in_range(n, is_seed, i - 1, n);
        let before = seeds_before(n, is_seed, i - 1, n);
        assert(all == before);
        assert forall|t: int| 0 <= t < all.len() implies {
            let s = #[trigger] all[t];
            &&& 0 <= s.0 <= i
            &&& 0 <= s.1 < n
            &&& (s.0 < i || s.1 < j)
        } by {
            assert(all[t] == before[t]);
        }
    }
}

/// Where every seed yields only results that pass `ok`, so does the run.
pub proof fn lemma_results_all(
    yields: spec_fn(int, int) -> Seq<FoundView>,
    seeds: Seq<(int, int)>,
    start: int,
    ok: spec_fn(FoundView) -> bool,
)
    requires
        forall|t: int, k: int|
            0 <= t < seeds.len() && 0 <= k < yields(seeds[t].0, seeds[t].1).len() ==> ok(
                #[trigger] yields(seeds[t].0, seeds[t].1)[k],
            ),
    ensures
        forall|k: int| 0 <= k < results_of_seeds(yields, seeds, start).len() ==> ok(
            #[trigger] results_of_seeds(yields, seeds, start)[k],
        ),
    decreases seeds.len(),
{
    if seeds.len() > 0 {
        let front = seeds.drop_last();
        assert forall|t: int, k: int|
            0 <= t < front.len() && 0 <= k < yields(front[t].0, front[t].1).len() implies ok(
                #[trigger] yields(front[t].0, front[t].1)[k],
            ) by {
            assert(front[t] == seeds[t]);
        }
        lemma_results_all(yields, front, start, ok);
        let before = results_of_seeds(yields, front, start);
        let all = results_of_seeds(yields, seeds, start);
        let last = yields(seeds.last().0, seeds.last().1);
        assert forall|k: int| 0 <= k < all.len() implies ok(#[trigger] all[k]) by {
            if k < before.len() {
                assert(all[k] == before[k]);
            } else {
                assert(all == before + last);
                assert(all[k] == last[k - before.len()]);
                assert(seeds.last() == seeds[seeds.len() - 1]);
            }
        }
    }
}

proof fn lemma_results_empty(yields: spec_fn(int, int) -> Seq<FoundView>, seeds: Seq<(int, int)>, start: int)
    requires
        seeds.len() < start,
    ensures
        results_of_seeds(yields, seeds, start) == Seq::<FoundView>::empty(),
    decreases seeds.len(),
{
    if seeds.len() > 0 {
        lemma_results_empty(yields, seeds.drop_last(), start);
    }
}

/// Starting at the seed at 1-based position `k` yields exactly the tail of
/// the full run from that seed on: the full run is what the first `k - 1`
/// seeds yield, followed by the run that starts at `k`.
pub proof fn lemma_start_index_tail(yields: spec_fn(int, int) -> Seq<FoundView>, seeds: Seq<(int, int)>, k: int)
    requires
        k >= 1,
    ensures
        results_of_seeds(yields, seeds, 1) == results_of_seeds(
            yields,
            seeds.subrange(0, if k - 1 <= seeds.len() { k - 1 } else { seeds.len() as int }),
            1,
        ) + results_of_seeds(yields, seeds, k),
    decreases seeds.len(),
{
    if seeds.len() <= k - 1 {
        lemma_results_empty(yields, seeds, k);
        assert(seeds.subrange(0, seeds.len() as int) =~= seeds);
        assert(results_of_seeds(yields, seeds, 1) + Seq::<FoundView>::empty() =~= results_of_seeds(yields, seeds, 1));
    } else {
        let front = seeds.drop_last();
        lemma_start_index_tail(yields, front, k);
        assert(front.subrange(0, k - 1) =~= seeds.subrange(0, k - 1));
        let p = results_of_seeds(yields, seeds.subrange(0, k - 1), 1);
        let last = yields(seeds.last().0, seeds.last().1);
        assert(results_of_seeds(yields, seeds, 1) == results_of_seeds(yields, front, 1) + last);
        assert(results_of_seeds(yields, seeds, k) == results_of_seeds(yields, front, k) + last);
        assert((p + results_of_seeds(yields, front, k)) + last =~= p + (results_of_seeds(yields, front, k) + last));
    }
}

} // verus!

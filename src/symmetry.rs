//! Transposing a dense crossword: where the answer pairs determine their
//! surfaces and the transposed seeds come in order, a run that accepts a
//! crossword with every surface present also accepts its transpose.
use vstd::prelude::*;
use crate::grid::{is_square, column, dense_entries, all_distinct};
use crate::data::{PairView, pairs_have_len, matching_indices, shows_keys, same_words, pair_surface, restrict,
    lemma_matching_indices_below};
use crate::product::{product_of, extend_each, picks_from, lemma_product_picks};
use crate::qc::FoundView;
use crate::search::{results_of_seeds, all_seeds, seeds_before, lemma_seeds_in_range};
use crate::searchers::dense::{IndexView, dense_found, dense_found_among, dense_seed_results, dense_down_lists,
    down_candidates, column_keys, grid_of_downs, count_status, status_code, dense_across_surfaces, down_surfaces_of};
use crate::searchers::word_gt;
use crate::soundness::lemma_count_zero;

verus! {

proof fn lemma_extend_each_contains(prefixes: Seq<Seq<usize>>, xs: Seq<usize>, p: int, m: int)
    requires
        0 <= p < prefixes.len(),
        0 <= m < xs.len(),
    ensures
        extend_each(prefixes, xs).contains(prefixes[p].push(xs[m])),
    decreases prefixes.len(),
{
    let front = extend_each(prefixes.drop_last(), xs);
    let tail = xs.map_values(|x: usize| prefixes.last().push(x));
    assert(extend_each(prefixes, xs) == front + tail);
    if p < prefixes.len() - 1 {
        lemma_extend_each_contains(prefixes.drop_last(), xs, p, m);
        assert(prefixes.drop_last()[p] == prefixes[p]);
        let k = choose|k: int| 0 <= k < front.len() && front[k] == prefixes[p].push(xs[m]);
        assert((front + tail)[k] == front[k]);
    } else {
        assert((front + tail)[front.len() + m] == tail[m]);
    }
}

/// Every choice of one element from each list is in their product.
pub proof fn lemma_product_contains(lists: Seq<Seq<usize>>, e: Seq<usize>)
    requires
        picks_from(lists, e),
    ensures
        product_of(lists).contains(e),
    decreases lists.len(),
{
    if lists.len() == 0 {
        assert(e =~= Seq::<usize>::empty());
        assert(product_of(lists)[0] == e);
    } else {
        let front = lists.drop_last();
        let ef = e.drop_last();
        assert forall|k: int| 0 <= k < front.len() implies (#[trigger] front[k]).contains(ef[k]) by {
            assert(lists[k].contains(e[k]));
        }
        lemma_product_contains(front, ef);
        let p = choose|p: int| 0 <= p < product_of(front).len() && product_of(front)[p] == ef;
        assert(lists.last() == lists[lists.len() - 1]);
        assert(lists.last().contains(e.last()));
        let m = choose|m: int| 0 <= m < lists.last().len() && lists.last()[m] == e.last();
        lemma_extend_each_contains(product_of(front), lists.last(), p, m);
        assert(ef.push(e.last()) =~= e);
    }
}

/// An index whose pair passes the test is among the matching indices.
pub proof fn lemma_matching_contains(pairs: Seq<PairView>, f: spec_fn(PairView) -> bool, n: int, q: int)
    requires
        0 <= q < n <= pairs.len() <= usize::MAX,
        f(pairs[q]),
    ensures
        matching_indices(pairs, f, n).contains(q as usize),
    decreases n,
{
    if q < n - 1 {
        lemma_matching_contains(pairs, f, n - 1, q);
        let m = matching_indices(pairs, f, n - 1);
        let k = choose|k: int| 0 <= k < m.len() && m[k] == q as usize;
        if f(pairs[n - 1]) {
            assert(m.push((n - 1) as usize)[k] == q as usize);
        }
    } else {
        let m = matching_indices(pairs, f, n - 1);
        assert(m.push((n - 1) as usize)[m.len() as int] == q as usize);
    }
}

proof fn lemma_in_results(yields: spec_fn(int, int) -> Seq<FoundView>, seeds: Seq<(int, int)>, start: int, x: FoundView)
    requires
        results_of_seeds(yields, seeds, start).contains(x),
    ensures
        exists|t: int| 0 <= t < seeds.len() && t + 1 >= start && (#[trigger] yields(seeds[t].0, seeds[t].1)).contains(x),
    decreases seeds.len(),
{
    let before = results_of_seeds(yields, seeds.drop_last(), start);
    let all = results_of_seeds(yields, seeds, start);
    let k = choose|k: int| 0 <= k < all.len() && all[k] == x;
    if seeds.len() >= start {
        let last = yields(seeds.last().0, seeds.last().1);
        assert(all == before + last);
        if k < before.len() {
            assert(before[k] == x);
            lemma_in_results(yields, seeds.drop_last(), start, x);
            let t = choose|t: int| 0 <= t < seeds.drop_last().len() && t + 1 >= start && (#[trigger] yields(
                seeds.drop_last()[t].0,
                seeds.drop_last()[t].1,
            )).contains(x);
            assert(seeds.drop_last()[t] == seeds[t]);
        } else {
            assert(last[k - before.len()] == x);
            let t = seeds.len() - 1;
            assert(seeds[t] == seeds.last());
            assert(yields(seeds[t].0, seeds[t].1).contains(x));
        }
    } else {
        assert(all == before);
        lemma_in_results(yields, seeds.drop_last(), start, x);
        let t = choose|t: int| 0 <= t < seeds.drop_last().len() && t + 1 >= start && (#[trigger] yields(
            seeds.drop_last()[t].0,
            seeds.drop_last()[t].1,
        )).contains(x);
        assert(seeds.drop_last()[t] == seeds[t]);
    }
}

proof fn lemma_results_include(yields: spec_fn(int, int) -> Seq<FoundView>, seeds: Seq<(int, int)>, start: int, t: int, x: FoundView)
    requires
        0 <= t < seeds.len(),
        t + 1 >= start,
        yields(seeds[t].0, seeds[t].1).contains(x),
    ensures
        results_of_seeds(yields, seeds, start).contains(x),
    decreases seeds.len(),
{
    let before = results_of_seeds(yields, seeds.drop_last(), start);
    let all = results_of_seeds(yields, seeds, start);
    if t < seeds.len() - 1 {
        assert(seeds.drop_last()[t] == seeds[t]);
        lemma_results_include(yields, seeds.drop_last(), start, t, x);
        let k = choose|k: int| 0 <= k < before.len() && before[k] == x;
        if seeds.len() >= start {
            let last = yields(seeds.last().0, seeds.last().1);
            assert(all == before + last);
            assert(all[k] == x);
        }
    } else {
        let last = yields(seeds.last().0, seeds.last().1);
        assert(seeds.last() == seeds[t]);
        assert(all == before + last);
        let k = choose|k: int| 0 <= k < last.len() && last[k] == x;
        assert(all[before.len() + k] == x);
    }
}

/// A pair of indices that passes the seed test and comes before `(i, j)` is
/// among the seeds before `(i, j)`.
proof fn lemma_seed_present(n: int, is_seed: spec_fn(int, int) -> bool, i: int, j: int, a: int, b: int)
    requires
        0 <= i <= n,
        0 <= j <= n,
        0 <= a,
        0 <= b < n,
        a < i || (a == i && b < j),
        is_seed(a, b),
    ensures
        seeds_before(n, is_seed, i, j).contains((a, b)),
    decreases i, j,
{
    if j > 0 {
        let before = seeds_before(n, is_seed, i, j - 1);
        if a == i && b == j - 1 {
            assert(seeds_before(n, is_seed, i, j) == before.push((i, j - 1)));
            assert(before.push((i, j - 1))[before.len() as int] == (a, b));
        } else {
            lemma_seed_present(n, is_seed, i, j - 1, a, b);
            let k = choose|k: int| 0 <= k < before.len() && before[k] == (a, b);
            if is_seed(i, j - 1) {
                assert(before.push((i, j - 1))[k] == (a, b));
            }
        }
    } else {
        lemma_seed_present(n, is_seed, i - 1, n, a, b);
    }
}

proof fn lemma_in_found_among(ix: IndexView, i: int, j: int, exts: Seq<Seq<usize>>, allowed: nat, t: int, x: FoundView)
    requires
        dense_found_among(ix, i, j, exts, allowed, t).contains(x),
    ensures
        exists|k: int| 0 <= k < t && #[trigger] dense_found(ix, i, j, exts[k], allowed) == Some(x),
    decreases t,
{
    if t > 0 {
        let before = dense_found_among(ix, i, j, exts, allowed, t - 1);
        let all = dense_found_among(ix, i, j, exts, allowed, t);
        let k = choose|k: int| 0 <= k < all.len() && all[k] == x;
        if dense_found(ix, i, j, exts[t - 1], allowed) is Some {
            assert(all == before.push(dense_found(ix, i, j, exts[t - 1], allowed)->0));
            if k < before.len() {
                assert(before[k] == x);
                lemma_in_found_among(ix, i, j, exts, allowed, t - 1, x);
            }
        } else {
            assert(before[k] == x);
            lemma_in_found_among(ix, i, j, exts, allowed, t - 1, x);
        }
    }
}

proof fn lemma_found_among_include(ix: IndexView, i: int, j: int, exts: Seq<Seq<usize>>, allowed: nat, t: int, k: int)
    requires
        0 <= k < t,
        dense_found(ix, i, j, exts[k], allowed) is Some,
    ensures
        dense_found_among(ix, i, j, exts, allowed, t).contains(dense_found(ix, i, j, exts[k], allowed)->0),
    decreases t,
{
    let before = dense_found_among(ix, i, j, exts, allowed, t - 1);
    let all = dense_found_among(ix, i, j, exts, allowed, t);
    let x = dense_found(ix, i, j, exts[k], allowed)->0;
    if k < t - 1 {
        lemma_found_among_include(ix, i, j, exts, allowed, t - 1, k);
        let m = choose|m: int| 0 <= m < before.len() && before[m] == x;
        if dense_found(ix, i, j, exts[t - 1], allowed) is Some {
            assert(all == before.push(dense_found(ix, i, j, exts[t - 1], allowed)->0));
            assert(all[m] == x);
        }
    } else {
        assert(all == before.push(x));
        assert(all[before.len() as int] == x);
    }
}


proof fn lemma_count_none(
    pairs: Seq<PairView>,
    known: Set<Seq<char>>,
    g1: Seq<Seq<char>>,
    g2: Seq<Seq<char>>,
    code: int,
    from: int,
    to: int,
)
    requires
        forall|r: int| from <= r < to ==> status_code(pairs, known, #[trigger] g1[r], g2[r]) != code,
    ensures
        count_status(pairs, known, g1, g2, code, from, to) == 0,
    decreases to - from,
{
    if to > from {
        lemma_count_none(pairs, known, g1, g2, code, from, to - 1);
    }
}

/// The transpose of a grid of side `n`.
pub open spec fn transpose(g: Seq<Seq<char>>, n: nat) -> Seq<Seq<char>> {
    Seq::new(n, |r: int| Seq::new(n, |c: int| g[c][r]))
}

/// A found crossword with both grids transposed and the across and down
/// surfaces swapped.
pub open spec fn transposed(f: FoundView, n: nat) -> FoundView {
    ((transpose(f.0.0, n), transpose(f.0.1, n), f.0.3, f.0.2), f.1, f.2)
}

/// No two pairs have the same two answers in the same order: the answers
/// determine the surface.
pub open spec fn answers_unique(pairs: Seq<PairView>) -> bool {
    forall|p: int, q: int|
        0 <= p < pairs.len() && 0 <= q < pairs.len() && (#[trigger] pairs[p]).1 == (#[trigger] pairs[q]).1 && pairs[p].2
            == pairs[q].2 ==> p == q
}

/// What each seed of a dense search over the index yields.
pub open spec fn dense_yields(ix: IndexView, allowed: nat) -> spec_fn(int, int) -> Seq<FoundView> {
    |i: int, j: int| dense_seed_results(ix, i, j, allowed)
}

/// The seed test of a dense search: two-element combinations.
pub open spec fn dense_seed_test() -> spec_fn(int, int) -> bool {
    |i: int, j: int| i < j
}

/// What a full dense search over the index yields, from its first seed on.
pub open spec fn dense_full_run(ix: IndexView, allowed: nat) -> Seq<FoundView> {
    results_of_seeds(dense_yields(ix, allowed), all_seeds(ix.1.len() as int, dense_seed_test()), 1)
}

/// The first two columns of the crossword hold the answers of pairs
/// `q0 < q1`, and the first of these has its answers in order: the seed of
/// the transpose is visited and not filtered out.
pub open spec fn transposed_seeds_in_order(pairs: Seq<PairView>, f: FoundView) -> bool {
    exists|q0: int, q1: int|
        0 <= q0 < q1 < pairs.len() && (#[trigger] pairs[q0]).1 == column(f.0.0, 0) && pairs[q0].2 == column(f.0.1, 0)
            && (#[trigger] pairs[q1]).1 == column(f.0.0, 1) && pairs[q1].2 == column(f.0.1, 1) && !word_gt(
            pairs[q0].1,
            pairs[q0].2,
        )
}

proof fn lemma_transpose_distinct(g1: Seq<Seq<char>>, g2: Seq<Seq<char>>, n: nat)
    requires
        is_square(g1, n as int),
        is_square(g2, n as int),
        all_distinct(dense_entries(g1) + dense_entries(g2)),
    ensures
        all_distinct(dense_entries(transpose(g1, n)) + dense_entries(transpose(g2, n))),
{
    let x = dense_entries(g1) + dense_entries(g2);
    let y = dense_entries(transpose(g1, n)) + dense_entries(transpose(g2, n));
    let ni = n as int;
    assert(y.len() == 4 * ni && x.len() == 4 * ni);
    assert forall|a: int| 0 <= a < 4 * ni implies #[trigger] y[a] == x[if a < ni {
        a + ni
    } else if a < 2 * ni {
        a - ni
    } else if a < 3 * ni {
        a + ni
    } else {
        a - ni
    }] by {
        if a < ni {
            assert(y[a] =~= column(g1, a));
        } else if a < 2 * ni {
            assert(y[a] =~= g1[a - ni]);
        } else if a < 3 * ni {
            assert(y[a] =~= column(g2, a - 2 * ni));
        } else {
            assert(y[a] =~= g2[a - 3 * ni]);
        }
    }
    assert forall|a: int, b: int| 0 <= a < y.len() && 0 <= b < y.len() && a != b implies y[a] != y[b] by {
        let sa = if a < ni { a + ni } else if a < 2 * ni { a - ni } else if a < 3 * ni { a + ni } else { a - ni };
        let sb = if b < ni { b + ni } else if b < 2 * ni { b - ni } else if b < 3 * ni { b + ni } else { b - ni };
        assert(y[a] == x[sa]);
        assert(y[b] == x[sb]);
    }
}

/// Symmetry of dense runs: where the answers determine the surface, a
/// crossword that a full run accepts with no surface missing, and whose
/// transpose has its seeds in order, is accompanied in the same run by its
/// transpose with the across and down surfaces swapped.
pub proof fn lemma_dense_transpose_found(ix: IndexView, allowed: nat, f: FoundView)
    requires
        ix.0 >= 2,
        ix.1.len() <= usize::MAX,
        pairs_have_len(ix.1, ix.0 as int),
        answers_unique(ix.1),
        dense_full_run(ix, allowed).contains(f),
        f.2 == 0,
        transposed_seeds_in_order(ix.1, f),
    ensures
        dense_full_run(ix, allowed).contains(transposed(f, ix.0)),
{
    let n = ix.0;
    let pv = ix.1;
    let known = ix.2;
    let np = pv.len();
    let yields = dense_yields(ix, allowed);
    let test = dense_seed_test();
    let seeds = all_seeds(np as int, test);
    lemma_in_results(yields, seeds, 1, f);
    let t = choose|t: int| 0 <= t < seeds.len() && t + 1 >= 1 && (#[trigger] yields(seeds[t].0, seeds[t].1)).contains(f);
    lemma_seeds_in_range(np as int, test, np as int, 0);
    let i = seeds[t].0;
    let j = seeds[t].1;
    assert(0 <= i < np && 0 <= j < np);
    let sr = dense_seed_results(ix, i, j, allowed);
    assert(sr.contains(f));
    assert(!word_gt(pv[i].1, pv[i].2));
    let lists = dense_down_lists(pv, i, j, n);
    let exts = product_of(lists);
    lemma_in_found_among(ix, i, j, exts, allowed, exts.len() as int, f);
    let k = choose|k: int| 0 <= k < exts.len() && #[trigger] dense_found(ix, i, j, exts[k], allowed) == Some(f);
    let ext = exts[k];
    lemma_product_picks(lists, k);
    let g1 = grid_of_downs(pv, ext, n, false);
    let g2 = grid_of_downs(pv, ext, n, true);
    // The columns hold the chosen down pairs, and rows 0 and 1 the seeds.
    assert forall|c: int| 0 <= c < n implies (#[trigger] ext[c]) < np && shows_keys(
        0,
        1,
        column_keys(pv, i, j, c, false),
        column_keys(pv, i, j, c, true),
    )(pv[ext[c] as int]) by {
        let keys = shows_keys(0, 1, column_keys(pv, i, j, c, false), column_keys(pv, i, j, c, true));
        assert(lists[c] == down_candidates(pv, i, j, c));
        assert(lists[c].contains(ext[c]));
        let m = choose|m: int| 0 <= m < lists[c].len() && lists[c][m] == ext[c];
        lemma_matching_indices_below(pv, keys, np as int);
        assert(keys(pv[lists[c][m] as int]));
    }
    assert forall|c: int| 0 <= c < n implies column(g1, c) == pv[ext[c] as int].1 && column(g2, c) == pv[ext[c] as int].2 by {
        assert(column(g1, c) =~= pv[ext[c] as int].1);
        assert(column(g2, c) =~= pv[ext[c] as int].2);
    }
    assert(g1[0] =~= pv[i].1 && g2[0] =~= pv[i].2 && g1[1] =~= pv[j].1 && g2[1] =~= pv[j].2) by {
        assert forall|c: int| 0 <= c < n implies g1[0][c] == pv[i].1[c] && g1[1][c] == pv[j].1[c]
            && g2[0][c] == pv[i].2[c] && g2[1][c] == pv[j].2[c] by {
            let p = pv[ext[c] as int];
            assert(p.1.len() == n && p.2.len() == n);
            assert(restrict(p.1, 0, 1) =~= seq![p.1[0], p.1[1]]);
            assert(restrict(p.2, 0, 1) =~= seq![p.2[0], p.2[1]]);
        }
    }
    // The transpose's seeds are the first two down pairs.
    let (q0, q1) = choose|q0: int, q1: int|
        0 <= q0 < q1 < pv.len() && (#[trigger] pv[q0]).1 == column(f.0.0, 0) && pv[q0].2 == column(f.0.1, 0)
            && (#[trigger] pv[q1]).1 == column(f.0.0, 1) && pv[q1].2 == column(f.0.1, 1) && !word_gt(pv[q0].1, pv[q0].2);
    assert(pv[q0] == pv[q0] && pv[ext[0] as int] == pv[ext[0] as int]);
    assert(q0 == ext[0] as int);
    assert(pv[q1] == pv[q1] && pv[ext[1] as int] == pv[ext[1] as int]);
    assert(q1 == ext[1] as int);
    let i2 = q0;
    let j2 = q1;
    // Every completed row has a surface.
    lemma_count_zero(pv, known, g1, g2, 1, 2, n as int);
    lemma_count_zero(pv, known, g1, g2, 2, 2, n as int);
    assert forall|r: int| 2 <= r < n implies #[trigger] pair_surface(pv, g1[r], g2[r]) is Some by {
        assert(status_code(pv, known, g1[r], g2[r]) != 1 && status_code(pv, known, g1[r], g2[r]) != 2);
    }
    let ext2 = Seq::new(
        n,
        |r: int|
            if r == 0 {
                i as usize
            } else if r == 1 {
                j as usize
            } else {
                matching_indices(pv, same_words(g1[r], g2[r]), np as int)[0]
            },
    );
    assert forall|r: int| 0 <= r < n implies (#[trigger] ext2[r]) < np && pv[ext2[r] as int].1 == g1[r] && pv[ext2[r] as int].2 == g2[r] by {
        if r >= 2 {
            let m = matching_indices(pv, same_words(g1[r], g2[r]), np as int);
            lemma_matching_indices_below(pv, same_words(g1[r], g2[r]), np as int);
            assert(pair_surface(pv, g1[r], g2[r]) is Some);
            assert(m.len() > 0);
            assert(same_words(g1[r], g2[r])(pv[m[0] as int]));
        }
    }
    let lists2 = dense_down_lists(pv, i2, j2, n);
    assert forall|c: int| 0 <= c < lists2.len() implies (#[trigger] lists2[c]).contains(ext2[c]) by {
        let keys = shows_keys(0, 1, column_keys(pv, i2, j2, c, false), column_keys(pv, i2, j2, c, true));
        let w1 = pv[ext2[c] as int].1;
        let w2 = pv[ext2[c] as int].2;
        assert(g1[c].len() == n && g2[c].len() == n);
        assert(restrict(w1, 0, 1) =~= column_keys(pv, i2, j2, c, false));
        assert(restrict(w2, 0, 1) =~= column_keys(pv, i2, j2, c, true));
        lemma_matching_contains(pv, keys, np as int, ext2[c] as int);
        assert(lists2[c] == down_candidates(pv, i2, j2, c));
    }
    assert(picks_from(lists2, ext2));
    lemma_product_contains(lists2, ext2);
    let exts2 = product_of(lists2);
    let k2 = choose|k2: int| 0 <= k2 < exts2.len() && exts2[k2] == ext2;
    // The transpose is what the transposed seeds and downs yield.
    let h1 = grid_of_downs(pv, ext2, n, false);
    let h2 = grid_of_downs(pv, ext2, n, true);
    assert(h1 =~~= transpose(g1, n));
    assert(h2 =~~= transpose(g2, n));
    assert forall|r: int| 0 <= r < n implies #[trigger] pair_surface(pv, h1[r], h2[r]) == Some(pv[ext[r] as int].0) by {
        assert(h1[r] =~= column(g1, r));
        assert(h2[r] =~= column(g2, r));
        let sw = same_words(h1[r], h2[r]);
        lemma_matching_contains(pv, sw, np as int, ext[r] as int);
        lemma_matching_indices_below(pv, sw, np as int);
        let m = matching_indices(pv, sw, np as int);
        assert(sw(pv[m[0] as int]));
        assert(pv[m[0] as int] == pv[m[0] as int] && pv[ext[r] as int] == pv[ext[r] as int]);
        assert(m[0] as int == ext[r] as int);
    }
    assert forall|r: int| 2 <= r < n implies status_code(pv, known, #[trigger] h1[r], h2[r]) == 0 by {
        assert(pair_surface(pv, h1[r], h2[r]) == Some(pv[ext[r] as int].0));
    }
    lemma_count_none(pv, known, h1, h2, 1, 2, n as int);
    lemma_count_none(pv, known, h1, h2, 2, 2, n as int);
    lemma_transpose_distinct(g1, g2, n);
    assert(dense_across_surfaces(pv, i2, j2, h1, h2, n) =~= f.0.3);
    assert(down_surfaces_of(pv, ext2, n) =~= f.0.2);
    assert(dense_found(ix, i2, j2, ext2, allowed) == Some(transposed(f, n)));
    lemma_found_among_include(ix, i2, j2, exts2, allowed, exts2.len() as int, k2);
    assert(yields(i2, j2).contains(transposed(f, n)));
    lemma_seed_present(np as int, test, np as int, 0, i2, j2);
    let t2 = choose|t2: int| 0 <= t2 < seeds.len() && seeds[t2] == (i2, j2);
    lemma_results_include(yields, seeds, 1, t2, transposed(f, n));
}

} // verus!

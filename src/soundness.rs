//! What holds of every crossword that a search reports: the grids have the
//! topology's shape, every entry pair with a surface shares it, every entry
//! pair without one is made of known words, no word repeats, and no more
//! surfaces are missing than allowed.
use vstd::prelude::*;
use crate::grid::{is_square, column, dense_entries, alternating_entries, all_distinct, is_blocked_cell, BLOCK_CELL};
use crate::data::{PairView, pairs_have_len, pair_answers_ok, upper_test, is_upper, matching_indices, shows_keys, same_words, pair_surface, shares_surface,
    restrict, lemma_matching_indices_below};
use crate::product::{product_of, picks_from, lemma_product_picks};
use crate::qc::FoundView;
use crate::searchers::alternating::{entry_count, alternating_found, alternating_found_among_acrosses,
    alternating_found_among_downs, alternating_seed_results, alternating_down_lists, alternating_down_candidates,
    alternating_across_choices, across_lists, across_candidates, across_fits, final_grid, grid_after_downs,
    row_mask, sparse_cell};
use crate::searchers::dense::{IndexView, dense_found, dense_found_among, dense_seed_results, dense_down_lists,
    down_candidates, column_keys, grid_of_downs, count_status, status_code};

verus! {

/// A dense result is sound for the index: both grids are `n` by `n`; each
/// across entry pair with a surface shares it (the rows after the seeds take
/// exactly the surface recorded for their answers); each down entry pair has a
/// surface that it shares; each across entry pair without a surface is made of
/// known answers; no word repeats; at most `allowed` surfaces are missing.
pub open spec fn dense_result_ok(ix: IndexView, allowed: nat, f: FoundView) -> bool {
    let n = ix.0;
    let pairs = ix.1;
    let known = ix.2;
    let g1 = f.0.0;
    let g2 = f.0.1;
    let across = f.0.2;
    let down = f.0.3;
    &&& is_square(g1, n as int)
    &&& is_square(g2, n as int)
    &&& across.len() == n
    &&& down.len() == n
    &&& forall|r: int| 0 <= r < n && (#[trigger] across[r]) is Some ==> shares_surface(pairs, across[r]->0, g1[r], g2[r])
    &&& forall|r: int| 2 <= r < n ==> #[trigger] across[r] == pair_surface(pairs, g1[r], g2[r])
    &&& forall|c: int| 0 <= c < n ==> (#[trigger] down[c]) is Some && shares_surface(pairs, down[c]->0, column(g1, c), column(g2, c))
    &&& forall|r: int| 0 <= r < n && (#[trigger] across[r]) is None ==> known.contains(g1[r]) && known.contains(g2[r])
    &&& all_distinct(dense_entries(g1) + dense_entries(g2))
    &&& f.2 == none_count(across, n as int)
    &&& f.2 <= allowed
    &&& pair_answers_ok(pairs, upper_test()) ==> forall|r: int, c: int| 0 <= r < n && 0 <= c < n ==> is_upper(
        #[trigger] g1[r][c],
    ) && is_upper(g2[r][c])
}

/// The number of absent surfaces among the first `k`.
pub open spec fn none_count(s: Seq<Option<Seq<char>>>, k: int) -> nat
    decreases k,
{
    if k <= 0 {
        0
    } else {
        none_count(s, k - 1) + if s[k - 1] is None {
            1nat
        } else {
            0nat
        }
    }
}

proof fn lemma_missing_is_none_count(
    pairs: Seq<PairView>,
    known: Set<Seq<char>>,
    g1: Seq<Seq<char>>,
    g2: Seq<Seq<char>>,
    across: Seq<Option<Seq<char>>>,
    k: int,
)
    requires
        2 <= k <= across.len(),
        across[0] is Some,
        across[1] is Some,
        forall|r: int| 2 <= r < across.len() ==> #[trigger] across[r] == pair_surface(pairs, g1[r], g2[r]),
        forall|r: int| 2 <= r < k ==> status_code(pairs, known, #[trigger] g1[r], g2[r]) != 2,
    ensures
        none_count(across, k) == count_status(pairs, known, g1, g2, 1, 2, k),
    decreases k,
{
    if k == 2 {
        assert(none_count(across, 1) == none_count(across, 0));
    } else {
        lemma_missing_is_none_count(pairs, known, g1, g2, across, k - 1);
        assert(across[k - 1] == pair_surface(pairs, g1[k - 1], g2[k - 1]));
    }
}

/// A count of zero means no row in the range has the status.
pub proof fn lemma_count_zero(
    pairs: Seq<PairView>,
    known: Set<Seq<char>>,
    g1: Seq<Seq<char>>,
    g2: Seq<Seq<char>>,
    code: int,
    from: int,
    to: int,
)
    requires
        count_status(pairs, known, g1, g2, code, from, to) == 0,
    ensures
        forall|r: int| from <= r < to ==> status_code(pairs, known, #[trigger] g1[r], g2[r]) != code,
    decreases to - from,
{
    if to > from {
        lemma_count_zero(pairs, known, g1, g2, code, from, to - 1);
    }
}

proof fn lemma_restrict_01(w: Seq<char>, k: Seq<char>)
    requires
        w.len() >= 2,
        restrict(w, 0, 1) == k,
    ensures
        k.len() == 2,
        w[0] == k[0],
        w[1] == k[1],
{
    assert(restrict(w, 0, 1) =~= seq![w[0], w[1]]);
}

/// The surface recorded for two answers is shared by them.
pub proof fn lemma_pair_surface_shared(pairs: Seq<PairView>, w1: Seq<char>, w2: Seq<char>)
    requires
        pairs.len() <= usize::MAX,
        pair_surface(pairs, w1, w2) is Some,
    ensures
        shares_surface(pairs, pair_surface(pairs, w1, w2)->0, w1, w2),
{
    let m = matching_indices(pairs, same_words(w1, w2), pairs.len() as int);
    lemma_matching_indices_below(pairs, same_words(w1, w2), pairs.len() as int);
    let q = m[0] as int;
    assert(same_words(w1, w2)(pairs[q]));
    assert(pairs[q] == (pairs[q].0, w1, w2));
}

/// Every candidate that a dense search accepts is sound.
pub proof fn lemma_dense_found_ok(ix: IndexView, i: int, j: int, ext: Seq<usize>, allowed: nat)
    requires
        ix.0 >= 2,
        ix.1.len() <= usize::MAX,
        pairs_have_len(ix.1, ix.0 as int),
        0 <= i < ix.1.len(),
        0 <= j < ix.1.len(),
        picks_from(dense_down_lists(ix.1, i, j, ix.0), ext),
        dense_found(ix, i, j, ext, allowed) is Some,
    ensures
        dense_result_ok(ix, allowed, dense_found(ix, i, j, ext, allowed)->0),
{
    let n = ix.0;
    let pairs = ix.1;
    let known = ix.2;
    let lists = dense_down_lists(pairs, i, j, n);
    let f = dense_found(ix, i, j, ext, allowed)->0;
    let g1 = grid_of_downs(pairs, ext, n, false);
    let g2 = grid_of_downs(pairs, ext, n, true);
    assert forall|c: int| 0 <= c < n implies (#[trigger] ext[c]) < pairs.len() && shows_keys(
        0,
        1,
        column_keys(pairs, i, j, c, false),
        column_keys(pairs, i, j, c, true),
    )(pairs[ext[c] as int]) by {
        let keys = shows_keys(0, 1, column_keys(pairs, i, j, c, false), column_keys(pairs, i, j, c, true));
        assert(lists[c] == down_candidates(pairs, i, j, c));
        assert(lists[c].contains(ext[c]));
        let k = choose|k: int| 0 <= k < lists[c].len() && lists[c][k] == ext[c];
        lemma_matching_indices_below(pairs, keys, pairs.len() as int);
        assert(keys(pairs[lists[c][k] as int]));
    }
    assert(g1[0] =~= pairs[i].1 && g2[0] =~= pairs[i].2 && g1[1] =~= pairs[j].1 && g2[1] =~= pairs[j].2) by {
        assert forall|c: int| 0 <= c < n implies g1[0][c] == pairs[i].1[c] && g1[1][c] == pairs[j].1[c]
            && g2[0][c] == pairs[i].2[c] && g2[1][c] == pairs[j].2[c] by {
            let p = pairs[ext[c] as int];
            assert(p.1.len() == n && p.2.len() == n);
            lemma_restrict_01(p.1, column_keys(pairs, i, j, c, false));
            lemma_restrict_01(p.2, column_keys(pairs, i, j, c, true));
        }
    }
    assert(shares_surface(pairs, pairs[i].0, pairs[i].1, pairs[i].2));
    assert(shares_surface(pairs, pairs[j].0, pairs[j].1, pairs[j].2));
    assert forall|c: int| 0 <= c < n implies column(g1, c) == pairs[ext[c] as int].1 && column(g2, c) == pairs[ext[c] as int].2 by {
        assert(column(g1, c) =~= pairs[ext[c] as int].1);
        assert(column(g2, c) =~= pairs[ext[c] as int].2);
    }
    assert forall|c: int| 0 <= c < n implies (#[trigger] f.0.3[c]) is Some && shares_surface(pairs, f.0.3[c]->0, column(g1, c), column(g2, c)) by {
        let q = ext[c] as int;
        assert(pairs[q] == (pairs[q].0, column(g1, c), column(g2, c)));
    }
    lemma_count_zero(pairs, known, g1, g2, 2, 2, n as int);
    assert forall|r: int| 0 <= r < n && (#[trigger] f.0.2[r]) is Some implies shares_surface(pairs, f.0.2[r]->0, g1[r], g2[r]) by {
        if r >= 2 {
            lemma_pair_surface_shared(pairs, g1[r], g2[r]);
        }
    }
    assert forall|r: int| 0 <= r < n && (#[trigger] f.0.2[r]) is None implies known.contains(g1[r]) && known.contains(g2[r]) by {
        assert(status_code(pairs, known, g1[r], g2[r]) != 2);
    }
    lemma_missing_is_none_count(pairs, known, g1, g2, f.0.2, n as int);
    if pair_answers_ok(pairs, upper_test()) {
        assert forall|r: int, c: int| 0 <= r < n && 0 <= c < n implies is_upper(#[trigger] g1[r][c]) && is_upper(g2[r][c]) by {
            let q = ext[c] as int;
            assert(upper_test()(pairs[q].1) && upper_test()(pairs[q].2));
            assert(pairs[q].1.len() == n);
        }
    }
}

/// Every result that seeds `i` and `j` yield in a dense search is sound.
pub proof fn lemma_dense_seed_results_ok(ix: IndexView, i: int, j: int, allowed: nat)
    requires
        ix.0 >= 2,
        ix.1.len() <= usize::MAX,
        pairs_have_len(ix.1, ix.0 as int),
        0 <= i < ix.1.len(),
        0 <= j < ix.1.len(),
    ensures
        forall|k: int| 0 <= k < dense_seed_results(ix, i, j, allowed).len() ==> dense_result_ok(
            ix,
            allowed,
            #[trigger] dense_seed_results(ix, i, j, allowed)[k],
        ),
{
    let pairs = ix.1;
    if !crate::searchers::word_gt(pairs[i].1, pairs[i].2) {
        let lists = dense_down_lists(pairs, i, j, ix.0);
        let exts = product_of(lists);
        lemma_found_among_ok(ix, i, j, exts, allowed, exts.len() as int);
    }
}

proof fn lemma_found_among_ok(ix: IndexView, i: int, j: int, exts: Seq<Seq<usize>>, allowed: nat, t: int)
    requires
        ix.0 >= 2,
        ix.1.len() <= usize::MAX,
        pairs_have_len(ix.1, ix.0 as int),
        0 <= i < ix.1.len(),
        0 <= j < ix.1.len(),
        exts == product_of(dense_down_lists(ix.1, i, j, ix.0)),
        t <= exts.len(),
    ensures
        forall|k: int| 0 <= k < dense_found_among(ix, i, j, exts, allowed, t).len() ==> dense_result_ok(
            ix,
            allowed,
            #[trigger] dense_found_among(ix, i, j, exts, allowed, t)[k],
        ),
    decreases t,
{
    if t > 0 {
        lemma_found_among_ok(ix, i, j, exts, allowed, t - 1);
        let before = dense_found_among(ix, i, j, exts, allowed, t - 1);
        let all = dense_found_among(ix, i, j, exts, allowed, t);
        if dense_found(ix, i, j, exts[t - 1], allowed) is Some {
            lemma_product_picks(dense_down_lists(ix.1, i, j, ix.0), t - 1);
            lemma_dense_found_ok(ix, i, j, exts[t - 1], allowed);
            assert(all == before.push(dense_found(ix, i, j, exts[t - 1], allowed)->0));
        }
        assert forall|k: int| 0 <= k < all.len() implies dense_result_ok(ix, allowed, #[trigger] all[k]) by {
            if k < before.len() {
                assert(all[k] == before[k]);
            }
        }
    }
}


/// An alternating result is sound for the index: both grids are `n` by `n`
/// with blocks exactly where an odd row meets an odd column; every entry pair
/// has a surface that it shares; no word repeats; no surface is missing.
pub open spec fn alternating_result_ok(ix: (nat, Seq<PairView>), f: FoundView) -> bool {
    let n = ix.0;
    let pairs = ix.1;
    let e = entry_count(n as int);
    let g1 = f.0.0;
    let g2 = f.0.1;
    let across = f.0.2;
    let down = f.0.3;
    &&& is_square(g1, n as int)
    &&& is_square(g2, n as int)
    &&& forall|r: int, c: int| 0 <= r < n && 0 <= c < n && is_blocked_cell(r, c) ==> #[trigger] g1[r][c] == BLOCK_CELL
        && g2[r][c] == BLOCK_CELL
    &&& across.len() == e
    &&& down.len() == e
    &&& forall|m: int| 0 <= m < e ==> (#[trigger] across[m]) is Some && shares_surface(pairs, across[m]->0, g1[2 * m], g2[2 * m])
    &&& forall|m: int| 0 <= m < e ==> (#[trigger] down[m]) is Some && shares_surface(pairs, down[m]->0, column(g1, 2 * m), column(g2, 2 * m))
    &&& all_distinct(alternating_entries(g1) + alternating_entries(g2))
    &&& f.2 == 0
    &&& pair_answers_ok(pairs, upper_test()) ==> forall|r: int, c: int| 0 <= r < n && 0 <= c < n && !is_blocked_cell(r, c)
        ==> is_upper(#[trigger] g1[r][c]) && is_upper(g2[r][c])
}

proof fn lemma_restrict_02(w: Seq<char>, k: Seq<char>)
    requires
        w.len() >= 3,
        restrict(w, 0, 2) == k,
    ensures
        k.len() == 2,
        w[0] == k[0],
        w[2] == k[1],
{
    assert(restrict(w, 0, 2) =~= seq![w[0], w[2]]);
}

proof fn lemma_member_passes(pairs: Seq<PairView>, f: spec_fn(PairView) -> bool, l: Seq<usize>, x: usize)
    requires
        pairs.len() <= usize::MAX,
        l == matching_indices(pairs, f, pairs.len() as int),
        l.contains(x),
    ensures
        x < pairs.len(),
        f(pairs[x as int]),
{
    let k = choose|k: int| 0 <= k < l.len() && l[k] == x;
    lemma_matching_indices_below(pairs, f, pairs.len() as int);
    assert(f(pairs[l[k] as int]));
}

/// Every choice of downs and acrosses that an alternating search accepts is
/// sound.
pub proof fn lemma_alternating_found_ok(ix: (nat, Seq<PairView>), i: int, j: int, d: Seq<usize>, a: Seq<usize>)
    requires
        ix.0 >= 3,
        ix.1.len() <= usize::MAX,
        pairs_have_len(ix.1, ix.0 as int),
        0 <= i < ix.1.len(),
        0 <= j < ix.1.len(),
        picks_from(alternating_down_lists(ix.1, i, j, ix.0 as int), d),
        picks_from(
            across_lists(ix.1, grid_after_downs(ix.1, i, j, d, ix.0, false), grid_after_downs(ix.1, i, j, d, ix.0, true), ix.0 as int),
            a,
        ),
        alternating_found(ix, i, j, d, a) is Some,
    ensures
        alternating_result_ok(ix, alternating_found(ix, i, j, d, a)->0),
{
    let n = ix.0;
    let pairs = ix.1;
    let e = entry_count(n as int);
    let dl = alternating_down_lists(pairs, i, j, n as int);
    let gd1 = grid_after_downs(pairs, i, j, d, n, false);
    let gd2 = grid_after_downs(pairs, i, j, d, n, true);
    let al = across_lists(pairs, gd1, gd2, n as int);
    let f = alternating_found(ix, i, j, d, a)->0;
    let g1 = final_grid(pairs, i, j, d, a, n, false);
    let g2 = final_grid(pairs, i, j, d, a, n, true);
    assert forall|m: int| 0 <= m < e implies (#[trigger] d[m]) < pairs.len() && pairs[d[m] as int].1[0] == pairs[i].1[2 * m]
        && pairs[d[m] as int].1[2] == pairs[j].1[2 * m] && pairs[d[m] as int].2[0] == pairs[i].2[2 * m]
        && pairs[d[m] as int].2[2] == pairs[j].2[2 * m] by {
        let keys = shows_keys(0, 2, seq![pairs[i].1[2 * m], pairs[j].1[2 * m]], seq![pairs[i].2[2 * m], pairs[j].2[2 * m]]);
        assert(dl[m] == alternating_down_candidates(pairs, i, j, m));
        lemma_member_passes(pairs, keys, dl[m], d[m]);
        let p = pairs[d[m] as int];
        lemma_restrict_02(p.1, seq![pairs[i].1[2 * m], pairs[j].1[2 * m]]);
        lemma_restrict_02(p.2, seq![pairs[i].2[2 * m], pairs[j].2[2 * m]]);
    }
    assert forall|m: int| 0 <= m < e - 2 implies (#[trigger] a[m]) < pairs.len() && across_fits(gd1, gd2, 4 + 2 * m, n as int)(pairs[a[m] as int]) by {
        assert(al[m] == across_candidates(pairs, gd1, gd2, 4 + 2 * m, n as int));
        lemma_member_passes(pairs, across_fits(gd1, gd2, 4 + 2 * m, n as int), al[m], a[m]);
    }
    // Rows: the seeds' answers, then the acrosses'.
    assert forall|m: int| 0 <= m < e implies (#[trigger] f.0.2[m]) is Some && shares_surface(pairs, f.0.2[m]->0, g1[2 * m], g2[2 * m]) by {
        if m == 0 {
            assert forall|c: int| 0 <= c < n implies g1[0][c] == pairs[i].1[c] && g2[0][c] == pairs[i].2[c] by {
                if c % 2 == 0 {
                    assert(d[c / 2] < pairs.len());
                }
            }
            assert(g1[0] =~= pairs[i].1);
            assert(g2[0] =~= pairs[i].2);
            assert(pairs[i] == (pairs[i].0, g1[0], g2[0]));
        } else if m == 1 {
            assert forall|c: int| 0 <= c < n implies g1[2][c] == pairs[j].1[c] && g2[2][c] == pairs[j].2[c] by {
                if c % 2 == 0 {
                    assert(d[c / 2] < pairs.len());
                }
            }
            assert(g1[2] =~= pairs[j].1);
            assert(g2[2] =~= pairs[j].2);
            assert(pairs[j] == (pairs[j].0, g1[2], g2[2]));
        } else {
            let q = a[m - 2] as int;
            assert(a[m - 2] < pairs.len());
            assert(g1[2 * m] =~= pairs[q].1);
            assert(g2[2 * m] =~= pairs[q].2);
            assert(pairs[q] == (pairs[q].0, g1[2 * m], g2[2 * m]));
        }
    }
    // Columns: the downs' answers.
    assert forall|m: int| 0 <= m < e implies (#[trigger] f.0.3[m]) is Some && shares_surface(pairs, f.0.3[m]->0, column(g1, 2 * m), column(g2, 2 * m)) by {
        let q = d[m] as int;
        assert(d[m] < pairs.len());
        assert forall|r: int| 0 <= r < n implies g1[r][2 * m] == pairs[q].1[r] && g2[r][2 * m] == pairs[q].2[r] by {
            if r % 2 == 0 && r >= 4 {
                let k = (r - 4) / 2;
                assert(0 <= k < e - 2);
                assert(a[k] < pairs.len());
                let p = pairs[a[k] as int];
                assert(across_fits(gd1, gd2, r, n as int)(p));
                assert(p.1.len() == n && p.2.len() == n);
                if 2 * m >= 4 {
                    assert(p.1[2 * m] == gd1[r][2 * m]);
                } else {
                    lemma_restrict_02(p.1, row_mask(gd1, r));
                    lemma_restrict_02(p.2, row_mask(gd2, r));
                    assert(d[0] < pairs.len() && d[1] < pairs.len());
                }
            }
        }
        assert(column(g1, 2 * m) =~= pairs[q].1);
        assert(column(g2, 2 * m) =~= pairs[q].2);
        assert(pairs[q] == (pairs[q].0, column(g1, 2 * m), column(g2, 2 * m)));
    }
    assert forall|r: int, c: int| 0 <= r < n && 0 <= c < n && is_blocked_cell(r, c) implies #[trigger] g1[r][c] == BLOCK_CELL
        && g2[r][c] == BLOCK_CELL by {
        assert(sparse_cell(r, c) == BLOCK_CELL);
    }
    if pair_answers_ok(pairs, upper_test()) {
        assert forall|r: int, c: int| 0 <= r < n && 0 <= c < n && !is_blocked_cell(r, c) implies is_upper(#[trigger] g1[r][c])
            && is_upper(g2[r][c]) by {
            if r % 2 == 0 && r >= 4 {
                let q = a[(r - 4) / 2] as int;
                assert(0 <= (r - 4) / 2 < e - 2);
                assert(a[(r - 4) / 2] < pairs.len());
                assert(upper_test()(pairs[q].1) && upper_test()(pairs[q].2));
            } else if c % 2 == 0 {
                let q = d[c / 2] as int;
                assert(d[c / 2] < pairs.len());
                assert(upper_test()(pairs[q].1) && upper_test()(pairs[q].2));
            } else if r == 0 {
                assert(upper_test()(pairs[i].1) && upper_test()(pairs[i].2));
            } else {
                assert(r == 2);
                assert(upper_test()(pairs[j].1) && upper_test()(pairs[j].2));
            }
        }
    }
}

/// Every result that seeds `i` and `j` yield in an alternating search is
/// sound.
pub proof fn lemma_alternating_seed_results_ok(ix: (nat, Seq<PairView>), i: int, j: int)
    requires
        ix.0 >= 3,
        ix.1.len() <= usize::MAX,
        pairs_have_len(ix.1, ix.0 as int),
        0 <= i < ix.1.len(),
        0 <= j < ix.1.len(),
    ensures
        forall|k: int| 0 <= k < alternating_seed_results(ix, i, j).len() ==> alternating_result_ok(
            ix,
            #[trigger] alternating_seed_results(ix, i, j)[k],
        ),
{
    let pairs = ix.1;
    if !crate::searchers::word_gt(pairs[i].1, pairs[i].2) {
        let downs = product_of(alternating_down_lists(pairs, i, j, ix.0 as int));
        lemma_among_downs_ok(ix, i, j, downs, downs.len() as int);
    }
}

proof fn lemma_among_downs_ok(ix: (nat, Seq<PairView>), i: int, j: int, downs: Seq<Seq<usize>>, t: int)
    requires
        ix.0 >= 3,
        ix.1.len() <= usize::MAX,
        pairs_have_len(ix.1, ix.0 as int),
        0 <= i < ix.1.len(),
        0 <= j < ix.1.len(),
        downs == product_of(alternating_down_lists(ix.1, i, j, ix.0 as int)),
        t <= downs.len(),
    ensures
        forall|k: int| 0 <= k < alternating_found_among_downs(ix, i, j, downs, t).len() ==> alternating_result_ok(
            ix,
            #[trigger] alternating_found_among_downs(ix, i, j, downs, t)[k],
        ),
    decreases t,
{
    if t > 0 {
        lemma_among_downs_ok(ix, i, j, downs, t - 1);
        lemma_product_picks(alternating_down_lists(ix.1, i, j, ix.0 as int), t - 1);
        let d = downs[t - 1];
        let acrosses = alternating_across_choices(ix, i, j, d);
        lemma_among_acrosses_ok(ix, i, j, d, acrosses, acrosses.len() as int);
        let before = alternating_found_among_downs(ix, i, j, downs, t - 1);
        let extra = alternating_found_among_acrosses(ix, i, j, d, acrosses, acrosses.len() as int);
        let all = alternating_found_among_downs(ix, i, j, downs, t);
        assert(all == before + extra);
        assert forall|k: int| 0 <= k < all.len() implies alternating_result_ok(ix, #[trigger] all[k]) by {
            if k < before.len() {
                assert(all[k] == before[k]);
            } else {
                assert(all[k] == extra[k - before.len()]);
            }
        }
    }
}

proof fn lemma_among_acrosses_ok(
    ix: (nat, Seq<PairView>),
    i: int,
    j: int,
    d: Seq<usize>,
    acrosses: Seq<Seq<usize>>,
    t: int,
)
    requires
        ix.0 >= 3,
        ix.1.len() <= usize::MAX,
        pairs_have_len(ix.1, ix.0 as int),
        0 <= i < ix.1.len(),
        0 <= j < ix.1.len(),
        picks_from(alternating_down_lists(ix.1, i, j, ix.0 as int), d),
        acrosses == alternating_across_choices(ix, i, j, d),
        t <= acrosses.len(),
    ensures
        forall|k: int| 0 <= k < alternating_found_among_acrosses(ix, i, j, d, acrosses, t).len() ==> alternating_result_ok(
            ix,
            #[trigger] alternating_found_among_acrosses(ix, i, j, d, acrosses, t)[k],
        ),
    decreases t,
{
    if t > 0 {
        lemma_among_acrosses_ok(ix, i, j, d, acrosses, t - 1);
        let before = alternating_found_among_acrosses(ix, i, j, d, acrosses, t - 1);
        let all = alternating_found_among_acrosses(ix, i, j, d, acrosses, t);
        if alternating_found(ix, i, j, d, acrosses[t - 1]) is Some {
            let n = ix.0;
            lemma_product_picks(
                across_lists(ix.1, grid_after_downs(ix.1, i, j, d, n, false), grid_after_downs(ix.1, i, j, d, n, true), n as int),
                t - 1,
            );
            lemma_alternating_found_ok(ix, i, j, d, acrosses[t - 1]);
            assert(all == before.push(alternating_found(ix, i, j, d, acrosses[t - 1])->0));
        }
        assert forall|k: int| 0 <= k < all.len() implies alternating_result_ok(ix, #[trigger] all[k]) by {
            if k < before.len() {
                assert(all[k] == before[k]);
            }
        }
    }
}

} // verus!

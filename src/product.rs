//! Cartesian products of candidate lists, in lexicographic order.
use vstd::prelude::*;
use itertools::Itertools;

verus! {

/// Each prefix in turn, extended by each element of `xs` in turn.
pub open spec fn extend_each(prefixes: Seq<Seq<usize>>, xs: Seq<usize>) -> Seq<Seq<usize>>
    decreases prefixes.len(),
{
    if prefixes.len() == 0 {
        Seq::empty()
    } else {
        extend_each(prefixes.drop_last(), xs) + xs.map_values(|x: usize| prefixes.last().push(x))
    }
}

/// The cartesian product of the lists: every choice of one element from each
/// list, in lexicographic order (the last list varies fastest).
pub open spec fn product_of(lists: Seq<Seq<usize>>) -> Seq<Seq<usize>>
    decreases lists.len(),
{
    if lists.len() == 0 {
        seq![Seq::empty()]
    } else {
        extend_each(product_of(lists.drop_last()), lists.last())
    }
}

/// The views of a list of lists.
pub open spec fn lists_view(lists: Seq<Vec<usize>>) -> Seq<Seq<usize>> {
    lists.map_values(|l: Vec<usize>| l@)
}

/// `t` takes one element from each list, in order.
pub open spec fn picks_from(lists: Seq<Seq<usize>>, t: Seq<usize>) -> bool {
    &&& t.len() == lists.len()
    &&& forall|k: int| 0 <= k < lists.len() ==> (#[trigger] lists[k]).contains(t[k])
}

proof fn lemma_extend_each(prefixes: Seq<Seq<usize>>, xs: Seq<usize>, i: int)
    requires
        0 <= i < extend_each(prefixes, xs).len(),
    ensures
        exists|j: int, m: int|
            0 <= j < prefixes.len() && 0 <= m < xs.len() && extend_each(prefixes, xs)[i] == (#[trigger] prefixes[j]).push(
                #[trigger] xs[m],
            ),
    decreases prefixes.len(),
{
    let front = extend_each(prefixes.drop_last(), xs);
    if i < front.len() {
        lemma_extend_each(prefixes.drop_last(), xs, i);
        let (j, m) = choose|j: int, m: int|
            0 <= j < prefixes.drop_last().len() && 0 <= m < xs.len() && front[i] == (#[trigger] prefixes.drop_last()[j]).push(
                #[trigger] xs[m],
            );
        assert(prefixes.drop_last()[j] == prefixes[j]);
        assert(extend_each(prefixes, xs)[i] == prefixes[j].push(xs[m]));
    } else {
        let m = i - front.len();
        let j = prefixes.len() - 1;
        assert(extend_each(prefixes, xs)[i] == prefixes[j].push(xs[m]));
    }
}

/// Every element of the product takes one element from each list.
pub proof fn lemma_product_picks(lists: Seq<Seq<usize>>, i: int)
    requires
        0 <= i < product_of(lists).len(),
    ensures
        picks_from(lists, product_of(lists)[i]),
    decreases lists.len(),
{
    if lists.len() > 0 {
        let front = lists.drop_last();
        let p = product_of(front);
        lemma_extend_each(p, lists.last(), i);
        let (j, m) = choose|j: int, m: int|
            0 <= j < p.len() && 0 <= m < lists.last().len() && product_of(lists)[i] == (#[trigger] p[j]).push(
                #[trigger] lists.last()[m],
            );
        lemma_product_picks(front, j);
        let t = product_of(lists)[i];
        assert forall|k: int| 0 <= k < lists.len() implies (#[trigger] lists[k]).contains(t[k]) by {
            if k < lists.len() - 1 {
                assert(front[k] == lists[k]);
                assert(t[k] == p[j][k]);
            } else {
                assert(t[k] == lists.last()[m]);
            }
        }
    }
}

/// Relies on itertools' `multi_cartesian_product`: for one or more lists it
/// yields every choice of one element from each, in lexicographic order with
/// the last list varying fastest, and nothing once a list is empty.
#[verifier::external_body]
fn multi_product(lists: Vec<Vec<usize>>) -> (r: Vec<Vec<usize>>)
    requires
        lists@.len() >= 1,
    ensures
        lists_view(r@) == product_of(lists_view(lists@)),
{
    lists.into_iter().multi_cartesian_product().collect()
}

/// The cartesian product of the lists, in lexicographic order. The product of
/// no lists is the single empty choice.
pub fn cartesian_product(lists: Vec<Vec<usize>>) -> (r: Vec<Vec<usize>>)
    ensures
        lists_view(r@) == product_of(lists_view(lists@)),
{
    if lists.len() == 0 {
        let mut r: Vec<Vec<usize>> = Vec::new();
        r.push(Vec::new());
        assert(lists_view(r@) =~= product_of(lists_view(lists@)));
        r
    } else {
        multi_product(lists)
    }
}

} // verus!

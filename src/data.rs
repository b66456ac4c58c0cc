//! The clue corpus and the indexes built from it: clue filtering,
//! multi-surfaces, answer pairs, letter-keyed pair lookups and the set of
//! known answers.
use vstd::prelude::*;
use crate::grid::{Word, copy_word, words_equal};
use vstd::std_specs::iter::IteratorSpec;

verus! {

/// A clue's text, trimmed and without its enumeration.
pub type Surface = String;

/// A clue: its surface and its answer.
pub type Clue = (Surface, Word);

/// A surface and two distinct answers that it admits.
pub type Pair = (Surface, Word, Word);

/// The view of a list of clues.
pub open spec fn clues_view(clues: Seq<Clue>) -> Seq<(Seq<char>, Seq<char>)> {
    clues.map_values(|c: Clue| c@)
}

/// The view of a list of pairs.
pub open spec fn pairs_view(pairs: Seq<Pair>) -> Seq<(Seq<char>, Seq<char>, Seq<char>)> {
    pairs.map_values(|p: Pair| p@)
}

/// `p` is a prefix of `s`.
pub open spec fn starts_with(s: Seq<char>, p: Seq<char>) -> bool {
    p.len() <= s.len() && s.subrange(0, p.len() as int) == p
}

/// The opening of a cross-reference surface.
pub open spec fn see_prefix() -> Seq<char> {
    seq!['S', 'e', 'e', ' ']
}

/// The surface that stands for a missing clue.
pub open spec fn no_clue_surface() -> Seq<char> {
    seq!['<', '<', 'N', 'O', ' ', 'C', 'L', 'U', 'E', '>', '>']
}

/// An uppercase ASCII letter.
pub open spec fn is_upper(c: char) -> bool {
    'A' <= c && c <= 'Z'
}

/// Every letter of `w` is an uppercase ASCII letter.
pub open spec fn is_upper_word(w: Seq<char>) -> bool {
    forall|i: int| 0 <= i < w.len() ==> is_upper(#[trigger] w[i])
}

/// A surface that can take part in the search: not empty, not a
/// cross-reference and not the missing-clue sentinel.
pub open spec fn is_usable_surface(s: Seq<char>) -> bool {
    &&& s.len() > 0
    &&& !starts_with(s, see_prefix())
    &&& s != no_clue_surface()
}

/// A score meets an optional threshold.
pub open spec fn meets_threshold(score: u32, min: Option<u32>) -> bool {
    match min {
        Some(m) => score >= m,
        None => true,
    }
}

/// Whether a clue is kept, given its answer's frequency and quality scores.
pub open spec fn include_clue(
    surface: Seq<char>,
    solution: Seq<char>,
    word_frequency: u32,
    min_word_frequency: Option<u32>,
    broda_score: u32,
    min_broda_score: Option<u32>,
) -> bool {
    &&& is_usable_surface(surface)
    &&& is_upper_word(solution)
    &&& meets_threshold(word_frequency, min_word_frequency)
    &&& meets_threshold(broda_score, min_broda_score)
}

/// The characters of a string.
pub fn surface_chars(s: &String) -> (r: Vec<char>)
    ensures
        r@ == s@,
{
    str_chars(s.as_str())
}

/// The characters of a string slice.
pub fn str_chars(s: &str) -> (r: Vec<char>)
    ensures
        r@ == s@,
{
    broadcast use vstd::string::group_string_axioms;
    let mut it = s.chars();
    let mut r: Vec<char> = Vec::new();
    assert(it.remaining() == s@);
    loop
        invariant
            r@ + it.remaining() == s@,
        ensures
            r@ == s@,
        decreases s@.len() - r@.len(),
    {
        let ghost before = it.remaining();
        match it.next() {
            Some(c) => {
                r.push(c);
                assert(r@ + it.remaining() =~= s@) by {
                    assert(before == seq![c] + it.remaining());
                }
            },
            None => {
                assert(r@ =~= s@);
                break;
            },
        }
    }
    r
}


/// The clues kept out of the first `n`, in their order.
pub open spec fn kept_clues(
    clues: Seq<(Seq<char>, Seq<char>)>,
    word_frequencies: Seq<u32>,
    min_word_frequency: Option<u32>,
    broda_scores: Seq<u32>,
    min_broda_score: Option<u32>,
    n: int,
) -> Seq<(Seq<char>, Seq<char>)>
    decreases n,
{
    if n <= 0 {
        Seq::empty()
    } else {
        let before = kept_clues(
            clues,
            word_frequencies,
            min_word_frequency,
            broda_scores,
            min_broda_score,
            n - 1,
        );
        let c = clues[n - 1];
        if include_clue(
            c.0,
            c.1,
            word_frequencies[n - 1],
            min_word_frequency,
            broda_scores[n - 1],
            min_broda_score,
        ) {
            before.push(c)
        } else {
            before
        }
    }
}

/// Every letter of the word is an uppercase ASCII letter.
pub fn is_upper_word_exec(w: &Word) -> (r: bool)
    ensures
        r == is_upper_word(w@),
{
    let mut i: usize = 0;
    while i < w.len()
        invariant
            i <= w@.len(),
            forall|k: int| 0 <= k < i ==> is_upper(#[trigger] w@[k]),
        decreases w@.len() - i,
    {
        if !('A' <= w[i] && w[i] <= 'Z') {
            return false;
        }
        i = i + 1;
    }
    true
}

fn meets_threshold_exec(score: u32, min: Option<u32>) -> (r: bool)
    ensures
        r == meets_threshold(score, min),
{
    match min {
        Some(m) => score >= m,
        None => true,
    }
}

/// Whether a clue takes part in the search: its surface is usable, its
/// answer is uppercase letters, and the answer's frequency and quality scores
/// meet the thresholds that are set.
pub fn should_include(
    surface: &String,
    solution: &Word,
    word_frequency: u32,
    min_word_frequency: Option<u32>,
    broda_score: u32,
    min_broda_score: Option<u32>,
) -> (r: bool)
    ensures
        r == include_clue(
            surface@,
            solution@,
            word_frequency,
            min_word_frequency,
            broda_score,
            min_broda_score,
        ),
{
    let s = surface_chars(surface);
    if s.len() == 0 {
        return false;
    }
    if s.len() >= 4 && s[0] == 'S' && s[1] == 'e' && s[2] == 'e' && s[3] == ' ' {
        assert(s@.subrange(0, 4) =~= see_prefix());
        return false;
    }
    assert(!starts_with(s@, see_prefix())) by {
        if starts_with(s@, see_prefix()) {
            assert(s@.subrange(0, 4)[0] == s@[0]);
            assert(s@.subrange(0, 4)[1] == s@[1]);
            assert(s@.subrange(0, 4)[2] == s@[2]);
            assert(s@.subrange(0, 4)[3] == s@[3]);
        }
    }
    let no_clue = vec!['<', '<', 'N', 'O', ' ', 'C', 'L', 'U', 'E', '>', '>'];
    assert(no_clue@ =~= no_clue_surface());
    if words_equal(&s, &no_clue) {
        return false;
    }
    if !is_upper_word_exec(solution) {
        return false;
    }
    meets_threshold_exec(word_frequency, min_word_frequency) && meets_threshold_exec(
        broda_score,
        min_broda_score,
    )
}

/// Keep the clues that `should_include` accepts, in their order.
/// `word_frequencies[i]` and `broda_scores[i]` are the scores of the answer of
/// `clues[i]` (zero where a table has no entry for it).
pub fn filter_clues(
    clues: Vec<Clue>,
    word_frequencies: Vec<u32>,
    min_word_frequency: Option<u32>,
    broda_scores: &Vec<u32>,
    min_broda_score: Option<u32>,
) -> (r: Vec<Clue>)
    requires
        word_frequencies@.len() == clues@.len(),
        broda_scores@.len() == clues@.len(),
    ensures
        clues_view(r@) == kept_clues(
            clues_view(clues@),
            word_frequencies@,
            min_word_frequency,
            broda_scores@,
            min_broda_score,
            clues@.len() as int,
        ),
{
    let mut r: Vec<Clue> = Vec::new();
    let mut i: usize = 0;
    while i < clues.len()
        invariant
            word_frequencies@.len() == clues@.len(),
            broda_scores@.len() == clues@.len(),
            i <= clues@.len(),
            clues_view(r@) == kept_clues(
                clues_view(clues@),
                word_frequencies@,
                min_word_frequency,
                broda_scores@,
                min_broda_score,
                i as int,
            ),
        decreases clues@.len() - i,
    {
        let ghost before = r@;
        if should_include(
            &clues[i].0,
            &clues[i].1,
            word_frequencies[i],
            min_word_frequency,
            broda_scores[i],
            min_broda_score,
        ) {
            let c: Clue = (clues[i].0.clone(), copy_word(&clues[i].1));
            r.push(c);
            assert(clues_view(r@) =~= clues_view(before).push(clues_view(clues@)[i as int]));
        }
        i = i + 1;
    }
    r
}

/// A surface and the distinct answers it has in the corpus.
pub type MultiSurface = (Surface, Vec<Word>);

/// The view of a list of surfaces with their answers.
pub open spec fn groups_view(groups: Seq<MultiSurface>) -> Seq<(Seq<char>, Seq<Seq<char>>)> {
    groups.map_values(|g: MultiSurface| (g.0@, g.1@.map_values(|w: Word| w@)))
}

/// The index of the group of surface `s`, or -1 where there is none.
pub open spec fn group_index(groups: Seq<(Seq<char>, Seq<Seq<char>>)>, s: Seq<char>) -> int
    decreases groups.len(),
{
    if groups.len() == 0 {
        -1
    } else {
        let p = group_index(groups.drop_last(), s);
        if p >= 0 {
            p
        } else if groups.last().0 == s {
            groups.len() - 1
        } else {
            -1
        }
    }
}

/// Record one clue: its answer joins its surface's group unless already
/// there; a surface not seen before starts a new group at the end.
pub open spec fn add_clue(
    groups: Seq<(Seq<char>, Seq<Seq<char>>)>,
    s: Seq<char>,
    a: Seq<char>,
) -> Seq<(Seq<char>, Seq<Seq<char>>)> {
    let p = group_index(groups, s);
    if p < 0 {
        groups.push((s, seq![a]))
    } else if groups[p].1.contains(a) {
        groups
    } else {
        groups.update(p, (s, groups[p].1.push(a)))
    }
}

/// The clues grouped by surface, surfaces and answers in order of first
/// appearance, each answer once per surface.
pub open spec fn group_clues(clues: Seq<(Seq<char>, Seq<char>)>) -> Seq<(Seq<char>, Seq<Seq<char>>)>
    decreases clues.len(),
{
    if clues.len() == 0 {
        Seq::empty()
    } else {
        add_clue(group_clues(clues.drop_last()), clues.last().0, clues.last().1)
    }
}

/// A group with at least two distinct answers.
pub open spec fn is_multi(g: (Seq<char>, Seq<Seq<char>>)) -> bool {
    g.1.len() >= 2
}

/// The test that keeps a group as a multi-surface.
pub open spec fn multi_test() -> spec_fn((Seq<char>, Seq<Seq<char>>)) -> bool {
    |g: (Seq<char>, Seq<Seq<char>>)| is_multi(g)
}

/// The multi-surfaces of a list of clues.
pub open spec fn multi_surfaces(clues: Seq<(Seq<char>, Seq<char>)>) -> Seq<(Seq<char>, Seq<Seq<char>>)> {
    group_clues(clues).filter(multi_test())
}

proof fn lemma_group_index_absent(groups: Seq<(Seq<char>, Seq<Seq<char>>)>, s: Seq<char>)
    requires
        forall|k: int| 0 <= k < groups.len() ==> (#[trigger] groups[k]).0 != s,
    ensures
        group_index(groups, s) == -1,
    decreases groups.len(),
{
    if groups.len() > 0 {
        lemma_group_index_absent(groups.drop_last(), s);
    }
}

proof fn lemma_group_index_found(groups: Seq<(Seq<char>, Seq<Seq<char>>)>, s: Seq<char>, i: int)
    requires
        0 <= i < groups.len(),
        groups[i].0 == s,
        forall|k: int| 0 <= k < i ==> (#[trigger] groups[k]).0 != s,
    ensures
        group_index(groups, s) == i,
    decreases groups.len(),
{
    if i == groups.len() - 1 {
        lemma_group_index_absent(groups.drop_last(), s);
    } else {
        lemma_group_index_found(groups.drop_last(), s, i);
    }
}

/// Record one clue in the groups, as `add_clue` says.
pub fn add_clue_exec(groups: &mut Vec<MultiSurface>, surface: &Surface, answer: &Word)
    ensures
        groups_view(final(groups)@) == add_clue(groups_view(old(groups)@), surface@, answer@),
{
    let ghost g0 = groups_view(groups@);
    let mut i: usize = 0;
    while i < groups.len()
        invariant
            g0 == groups_view(groups@),
            groups@ == old(groups)@,
            i <= groups@.len(),
            forall|k: int| 0 <= k < i ==> (#[trigger] g0[k]).0 != surface@,
        decreases groups@.len() - i,
    {
        if groups[i].0 == *surface {
            proof {
                lemma_group_index_found(g0, surface@, i as int);
            }
            let mut j: usize = 0;
            while j < groups[i].1.len()
                invariant
                    g0 == groups_view(groups@),
                    i < groups@.len(),
                    j <= groups@[i as int].1@.len(),
                    groups@ == old(groups)@,
                    group_index(g0, surface@) == i,
                    g0[i as int].0 == surface@,
                    forall|k: int| 0 <= k < j ==> (#[trigger] g0[i as int].1[k]) != answer@,
                decreases groups@[i as int].1@.len() - j,
            {
                if words_equal(&groups[i].1[j], answer) {
                    assert(g0[i as int].1[j as int] == answer@);
                    assert(g0[i as int].1.contains(answer@));
                    assert(group_index(g0, surface@) == i);
                    assert(add_clue(g0, surface@, answer@) == g0);
                    return;
                }
                j = j + 1;
            }
            let ghost gv = groups@;
            groups[i].1.push(copy_word(answer));
            assert(groups_view(groups@) =~= g0.update(i as int, (surface@, g0[i as int].1.push(answer@)))) by {
                assert(groups@ == gv.update(i as int, groups@[i as int]));
                assert(groups@[i as int].1@.map_values(|w: Word| w@) =~= g0[i as int].1.push(answer@));
            }
            return;
        }
        i = i + 1;
    }
    proof {
        lemma_group_index_absent(g0, surface@);
    }
    let mut answers: Vec<Word> = Vec::new();
    answers.push(copy_word(answer));
    groups.push((surface.clone(), answers));
    assert(groups_view(groups@) =~= g0.push((surface@, seq![answer@]))) by {
        assert(groups@.last().1@.map_values(|w: Word| w@) =~= seq![answer@]);
    }
}

/// No two groups have the same surface, and no group holds an answer twice.
pub open spec fn groups_distinct(groups: Seq<(Seq<char>, Seq<Seq<char>>)>) -> bool {
    &&& forall|a: int, b: int|
        0 <= a < groups.len() && 0 <= b < groups.len() && a != b ==> (#[trigger] groups[a]).0 != (#[trigger] groups[b]).0
    &&& forall|g: int, a: int, b: int|
        0 <= g < groups.len() && 0 <= a < groups[g].1.len() && 0 <= b < groups[g].1.len() && a != b ==> #[trigger] groups[g].1[a]
            != #[trigger] groups[g].1[b]
}

proof fn lemma_group_index_none(groups: Seq<(Seq<char>, Seq<Seq<char>>)>, s: Seq<char>)
    requires
        group_index(groups, s) < 0,
    ensures
        forall|k: int| 0 <= k < groups.len() ==> (#[trigger] groups[k]).0 != s,
    decreases groups.len(),
{
    if groups.len() > 0 {
        lemma_group_index_bound(groups.drop_last(), s);
        lemma_group_index_none(groups.drop_last(), s);
        assert forall|k: int| 0 <= k < groups.len() implies (#[trigger] groups[k]).0 != s by {
            if k < groups.len() - 1 {
                assert(groups.drop_last()[k] == groups[k]);
            }
        }
    }
}

proof fn lemma_group_index_some(groups: Seq<(Seq<char>, Seq<Seq<char>>)>, s: Seq<char>)
    requires
        group_index(groups, s) >= 0,
    ensures
        group_index(groups, s) < groups.len(),
        groups[group_index(groups, s)].0 == s,
    decreases groups.len(),
{
    if groups.len() > 0 && group_index(groups.drop_last(), s) >= 0 {
        lemma_group_index_some(groups.drop_last(), s);
        assert(groups.drop_last()[group_index(groups.drop_last(), s)] == groups[group_index(groups.drop_last(), s)]);
    }
}

proof fn lemma_add_clue_distinct(groups: Seq<(Seq<char>, Seq<Seq<char>>)>, s: Seq<char>, a: Seq<char>)
    requires
        groups_distinct(groups),
    ensures
        groups_distinct(add_clue(groups, s, a)),
{
    lemma_group_index_bound(groups, s);
    let p = group_index(groups, s);
    let r = add_clue(groups, s, a);
    if p < 0 {
        lemma_group_index_none(groups, s);
        assert forall|x: int, y: int| 0 <= x < r.len() && 0 <= y < r.len() && x != y implies (#[trigger] r[x]).0 != (#[trigger] r[y]).0 by {
            if x < groups.len() && y < groups.len() {
                assert(r[x] == groups[x] && r[y] == groups[y]);
            } else if x < groups.len() {
                assert(r[x] == groups[x]);
            } else {
                assert(r[y] == groups[y]);
            }
        }
        assert forall|g: int, x: int, y: int|
            0 <= g < r.len() && 0 <= x < r[g].1.len() && 0 <= y < r[g].1.len() && x != y implies #[trigger] r[g].1[x] != #[trigger] r[g].1[y] by {
            if g < groups.len() {
                assert(r[g] == groups[g]);
            }
        }
    } else if !groups[p].1.contains(a) {
        lemma_group_index_some(groups, s);
        assert forall|x: int, y: int| 0 <= x < r.len() && 0 <= y < r.len() && x != y implies (#[trigger] r[x]).0 != (#[trigger] r[y]).0 by {
            assert(r[x].0 == groups[x].0 && r[y].0 == groups[y].0);
        }
        assert forall|g: int, x: int, y: int|
            0 <= g < r.len() && 0 <= x < r[g].1.len() && 0 <= y < r[g].1.len() && x != y implies #[trigger] r[g].1[x] != #[trigger] r[g].1[y] by {
            if g == p {
                let old_answers = groups[p].1;
                if x < old_answers.len() && y < old_answers.len() {
                    assert(r[g].1[x] == old_answers[x] && r[g].1[y] == old_answers[y]);
                } else if x < old_answers.len() {
                    assert(r[g].1[x] == old_answers[x]);
                    assert(r[g].1[y] == a);
                } else {
                    assert(r[g].1[y] == old_answers[y]);
                    assert(r[g].1[x] == a);
                }
            } else {
                assert(r[g] == groups[g]);
            }
        }
    }
}

proof fn lemma_group_clues_distinct(clues: Seq<(Seq<char>, Seq<char>)>)
    ensures
        groups_distinct(group_clues(clues)),
    decreases clues.len(),
{
    if clues.len() > 0 {
        lemma_group_clues_distinct(clues.drop_last());
        lemma_add_clue_distinct(group_clues(clues.drop_last()), clues.last().0, clues.last().1);
    }
}

proof fn lemma_filter_distinct(groups: Seq<(Seq<char>, Seq<Seq<char>>)>)
    requires
        groups_distinct(groups),
    ensures
        groups_distinct(groups.filter(multi_test())),
    decreases groups.len(),
{
    reveal(Seq::filter);
    if groups.len() > 0 {
        let front = groups.drop_last();
        assert(groups_distinct(front)) by {
            assert forall|x: int, y: int| 0 <= x < front.len() && 0 <= y < front.len() && x != y implies (#[trigger] front[x]).0 != (#[trigger] front[y]).0 by {
                assert(front[x] == groups[x] && front[y] == groups[y]);
            }
            assert forall|g: int, x: int, y: int|
                0 <= g < front.len() && 0 <= x < front[g].1.len() && 0 <= y < front[g].1.len() && x != y implies #[trigger] front[g].1[x] != #[trigger] front[g].1[y] by {
                assert(front[g] == groups[g]);
            }
        }
        lemma_filter_distinct(front);
        let ff = front.filter(multi_test());
        let last = groups.last();
        if is_multi(last) {
            let r = ff.push(last);
            assert(groups.filter(multi_test()) == r);
            assert forall|k: int| 0 <= k < ff.len() implies (#[trigger] ff[k]).0 != last.0 by {
                front.lemma_filter_contains_rev(multi_test(), ff[k]);
                assert(ff.contains(ff[k]));
                let h = choose|h: int| 0 <= h < front.len() && front[h] == ff[k];
                assert(front[h] == groups[h]);
                assert(groups[groups.len() - 1] == last);
            }
            assert forall|x: int, y: int| 0 <= x < r.len() && 0 <= y < r.len() && x != y implies (#[trigger] r[x]).0 != (#[trigger] r[y]).0 by {
                if x < ff.len() && y < ff.len() {
                    assert(r[x] == ff[x] && r[y] == ff[y]);
                } else if x < ff.len() {
                    assert(r[x] == ff[x]);
                } else {
                    assert(r[y] == ff[y]);
                }
            }
            assert forall|g: int, x: int, y: int|
                0 <= g < r.len() && 0 <= x < r[g].1.len() && 0 <= y < r[g].1.len() && x != y implies #[trigger] r[g].1[x] != #[trigger] r[g].1[y] by {
                if g < ff.len() {
                    assert(r[g] == ff[g]);
                } else {
                    assert(r[g] == groups[groups.len() - 1]);
                }
            }
        }
    }
}

/// Group the clues by surface and keep the surfaces that have at least two
/// distinct answers. Surfaces, and the answers of each, stand in order of
/// first appearance.
pub fn get_multi_surfaces(clues: &Vec<Clue>) -> (r: Vec<MultiSurface>)
    ensures
        groups_view(r@) == multi_surfaces(clues_view(clues@)),
        groups_distinct(groups_view(r@)),
{
    proof {
        lemma_group_clues_distinct(clues_view(clues@));
        lemma_filter_distinct(group_clues(clues_view(clues@)));
    }
    let mut groups: Vec<MultiSurface> = Vec::new();
    let mut i: usize = 0;
    while i < clues.len()
        invariant
            i <= clues@.len(),
            groups_view(groups@) == group_clues(clues_view(clues@).subrange(0, i as int)),
        decreases clues@.len() - i,
    {
        add_clue_exec(&mut groups, &clues[i].0, &clues[i].1);
        i = i + 1;
        assert(clues_view(clues@).subrange(0, i as int).drop_last() =~= clues_view(clues@).subrange(0, i - 1));
    }
    assert(clues_view(clues@).subrange(0, i as int) =~= clues_view(clues@));
    let ghost all = groups_view(groups@);
    let mut r: Vec<MultiSurface> = Vec::new();
    let mut k: usize = 0;
    while k < groups.len()
        invariant
            all == groups_view(groups@),
            k <= groups@.len(),
            groups_view(r@) == all.subrange(0, k as int).filter(multi_test()),
        decreases groups@.len() - k,
    {
        let ghost before = r@;
        assert(all.subrange(0, k + 1).drop_last() =~= all.subrange(0, k as int));
        assert(all.subrange(0, k + 1).last() == all[k as int]);
        proof {
            reveal(Seq::filter);
        }
        assert(all.subrange(0, k + 1).filter(multi_test()) == if is_multi(all[k as int]) {
            all.subrange(0, k as int).filter(multi_test()).push(all[k as int])
        } else {
            all.subrange(0, k as int).filter(multi_test())
        });
        if groups[k].1.len() >= 2 {
            let g: MultiSurface = (groups[k].0.clone(), crate::grid::copy_words(&groups[k].1));
            r.push(g);
            assert(groups_view(r@) =~= groups_view(before).push(all[k as int]));
        } else {
            assert(groups_view(r@) =~= groups_view(before));
        }
        k = k + 1;
    }
    assert(all.subrange(0, k as int) =~= all);
    r
}



/// The view of a pair: its surface and its two answers.
pub type PairView = (Seq<char>, Seq<char>, Seq<char>);

/// The pairs of answer `j` with each answer before position `i`, each in both
/// orders: `(a_k, a_j)` and then `(a_j, a_k)` for `k` from 0 up.
pub open spec fn pairs_with(s: Seq<char>, answers: Seq<Seq<char>>, j: int, i: int) -> Seq<PairView>
    decreases i,
{
    if i <= 0 {
        Seq::empty()
    } else {
        pairs_with(s, answers, j, i - 1) + seq![
            (s, answers[i - 1], answers[j]),
            (s, answers[j], answers[i - 1]),
        ]
    }
}

/// The pairs among the first `m` answers of one surface.
pub open spec fn group_pairs(s: Seq<char>, answers: Seq<Seq<char>>, m: int) -> Seq<PairView>
    decreases m,
{
    if m <= 0 {
        Seq::empty()
    } else {
        group_pairs(s, answers, m - 1) + pairs_with(s, answers, m - 1, m - 1)
    }
}

/// The pairs of the first `n` multi-surfaces.
pub open spec fn ms_pairs(groups: Seq<(Seq<char>, Seq<Seq<char>>)>, n: int) -> Seq<PairView>
    decreases n,
{
    if n <= 0 {
        Seq::empty()
    } else {
        ms_pairs(groups, n - 1) + group_pairs(groups[n - 1].0, groups[n - 1].1, groups[n - 1].1.len() as int)
    }
}

/// Every word of every pair has `len` letters.
pub open spec fn pairs_have_len(pairs: Seq<PairView>, len: int) -> bool {
    forall|q: int| 0 <= q < pairs.len() ==> (#[trigger] pairs[q]).1.len() == len && pairs[q].2.len() == len
}

/// Every answer of every group has `len` letters.
pub open spec fn groups_have_len(groups: Seq<(Seq<char>, Seq<Seq<char>>)>, len: int) -> bool {
    forall|g: int, k: int| 0 <= g < groups.len() && 0 <= k < groups[g].1.len() ==> (#[trigger] groups[g].1[k]).len() == len
}

/// Every clue's answer has `len` letters.
pub open spec fn clues_have_len(clues: Seq<(Seq<char>, Seq<char>)>, len: int) -> bool {
    forall|k: int| 0 <= k < clues.len() ==> (#[trigger] clues[k]).1.len() == len
}

proof fn lemma_pairs_with_len(s: Seq<char>, answers: Seq<Seq<char>>, j: int, i: int, len: int)
    requires
        0 <= j < answers.len(),
        i <= answers.len(),
        forall|k: int| 0 <= k < answers.len() ==> (#[trigger] answers[k]).len() == len,
    ensures
        pairs_have_len(pairs_with(s, answers, j, i), len),
    decreases i,
{
    if i > 0 {
        lemma_pairs_with_len(s, answers, j, i - 1, len);
        assert(answers[i - 1].len() == len);
    }
}

proof fn lemma_group_pairs_len(s: Seq<char>, answers: Seq<Seq<char>>, m: int, len: int)
    requires
        m <= answers.len(),
        forall|k: int| 0 <= k < answers.len() ==> (#[trigger] answers[k]).len() == len,
    ensures
        pairs_have_len(group_pairs(s, answers, m), len),
    decreases m,
{
    if m > 0 {
        lemma_group_pairs_len(s, answers, m - 1, len);
        lemma_pairs_with_len(s, answers, m - 1, m - 1, len);
    }
}

/// Where every answer has `len` letters, so does every word of every pair.
pub proof fn lemma_ms_pairs_len(groups: Seq<(Seq<char>, Seq<Seq<char>>)>, n: int, len: int)
    requires
        n <= groups.len(),
        groups_have_len(groups, len),
    ensures
        pairs_have_len(ms_pairs(groups, n), len),
    decreases n,
{
    if n > 0 {
        lemma_ms_pairs_len(groups, n - 1, len);
        let g = groups[n - 1];
        assert forall|k: int| 0 <= k < g.1.len() implies (#[trigger] g.1[k]).len() == len by {
            assert(groups[n - 1].1[k].len() == len);
        }
        lemma_group_pairs_len(g.0, g.1, g.1.len() as int, len);
    }
}

proof fn lemma_add_clue_len(groups: Seq<(Seq<char>, Seq<Seq<char>>)>, s: Seq<char>, a: Seq<char>, len: int)
    requires
        groups_have_len(groups, len),
        a.len() == len,
        group_index(groups, s) < groups.len(),
    ensures
        groups_have_len(add_clue(groups, s, a), len),
{
    let r = add_clue(groups, s, a);
    let p = group_index(groups, s);
    assert forall|g: int, k: int| 0 <= g < r.len() && 0 <= k < r[g].1.len() implies (#[trigger] r[g].1[k]).len() == len by {
        if p < 0 {
            if g < groups.len() {
                assert(r[g] == groups[g]);
            }
        } else if !groups[p].1.contains(a) && g == p {
            if k < groups[p].1.len() {
                assert(r[g].1[k] == groups[p].1[k]);
            }
        } else {
            assert(r[g] == groups[g]);
        }
    }
}

proof fn lemma_group_index_bound(groups: Seq<(Seq<char>, Seq<Seq<char>>)>, s: Seq<char>)
    ensures
        -1 <= group_index(groups, s) < groups.len(),
    decreases groups.len(),
{
    if groups.len() > 0 {
        lemma_group_index_bound(groups.drop_last(), s);
    }
}

/// Where every clue's answer has `len` letters, so does every answer of every
/// multi-surface.
pub proof fn lemma_multi_surfaces_len(clues: Seq<(Seq<char>, Seq<char>)>, len: int)
    requires
        clues_have_len(clues, len),
    ensures
        groups_have_len(multi_surfaces(clues), len),
{
    lemma_group_clues_len(clues, len);
    let all = group_clues(clues);
    let ms = multi_surfaces(clues);
    assert forall|g: int, k: int| 0 <= g < ms.len() && 0 <= k < ms[g].1.len() implies (#[trigger] ms[g].1[k]).len() == len by {
        all.lemma_filter_contains_rev(multi_test(), ms[g]);
        assert(ms.contains(ms[g]));
        let h = choose|h: int| 0 <= h < all.len() && all[h] == ms[g];
        assert(all[h].1[k].len() == len);
    }
}

proof fn lemma_group_clues_len(clues: Seq<(Seq<char>, Seq<char>)>, len: int)
    requires
        clues_have_len(clues, len),
    ensures
        groups_have_len(group_clues(clues), len),
    decreases clues.len(),
{
    if clues.len() > 0 {
        assert(clues_have_len(clues.drop_last(), len)) by {
            assert forall|k: int| 0 <= k < clues.drop_last().len() implies (#[trigger] clues.drop_last()[k]).1.len() == len by {
                assert(clues.drop_last()[k] == clues[k]);
            }
        }
        lemma_group_clues_len(clues.drop_last(), len);
        lemma_group_index_bound(group_clues(clues.drop_last()), clues.last().0);
        assert(clues.last() == clues[clues.len() - 1]);
        lemma_add_clue_len(group_clues(clues.drop_last()), clues.last().0, clues.last().1, len);
    }
}

/// The two answers of every pair differ.
pub open spec fn pairs_two_answers(pairs: Seq<PairView>) -> bool {
    forall|q: int| 0 <= q < pairs.len() ==> (#[trigger] pairs[q]).1 != pairs[q].2
}

proof fn lemma_pairs_with_two(s: Seq<char>, answers: Seq<Seq<char>>, j: int, i: int)
    requires
        0 <= i <= j < answers.len(),
        forall|a: int, b: int| 0 <= a < answers.len() && 0 <= b < answers.len() && a != b ==> #[trigger] answers[a] != #[trigger] answers[b],
    ensures
        pairs_two_answers(pairs_with(s, answers, j, i)),
    decreases i,
{
    if i > 0 {
        lemma_pairs_with_two(s, answers, j, i - 1);
        assert(answers[i - 1] != answers[j]);
    }
}

proof fn lemma_group_pairs_two(s: Seq<char>, answers: Seq<Seq<char>>, m: int)
    requires
        m <= answers.len(),
        forall|a: int, b: int| 0 <= a < answers.len() && 0 <= b < answers.len() && a != b ==> #[trigger] answers[a] != #[trigger] answers[b],
    ensures
        pairs_two_answers(group_pairs(s, answers, m)),
    decreases m,
{
    if m > 0 {
        lemma_group_pairs_two(s, answers, m - 1);
        lemma_pairs_with_two(s, answers, m - 1, m - 1);
    }
}

/// Where no group holds an answer twice, the two answers of every pair
/// differ.
pub proof fn lemma_ms_pairs_two(groups: Seq<(Seq<char>, Seq<Seq<char>>)>, n: int)
    requires
        n <= groups.len(),
        groups_distinct(groups),
    ensures
        pairs_two_answers(ms_pairs(groups, n)),
    decreases n,
{
    if n > 0 {
        lemma_ms_pairs_two(groups, n - 1);
        let g = groups[n - 1];
        assert forall|a: int, b: int| 0 <= a < g.1.len() && 0 <= b < g.1.len() && a != b implies #[trigger] g.1[a] != #[trigger] g.1[b] by {
            assert(groups[n - 1].1[a] != groups[n - 1].1[b]);
        }
        lemma_group_pairs_two(g.0, g.1, g.1.len() as int);
    }
}

/// List every pair of distinct answers of each multi-surface, in both orders:
/// for each surface in order, for each answer `a_j` from the second on, for
/// each earlier answer `a_i`, the pair `(a_i, a_j)` then `(a_j, a_i)`.
pub fn make_ms_pairs(multi_surfaces: &Vec<MultiSurface>) -> (pairs: Vec<Pair>)
    requires
        groups_distinct(groups_view(multi_surfaces@)),
    ensures
        pairs_view(pairs@) == ms_pairs(groups_view(multi_surfaces@), multi_surfaces@.len() as int),
        pairs_two_answers(pairs_view(pairs@)),
{
    proof {
        lemma_ms_pairs_two(groups_view(multi_surfaces@), multi_surfaces@.len() as int);
    }
    let ghost gv = groups_view(multi_surfaces@);
    let mut pairs: Vec<Pair> = Vec::new();
    let mut g: usize = 0;
    while g < multi_surfaces.len()
        invariant
            gv == groups_view(multi_surfaces@),
            g <= multi_surfaces@.len(),
            pairs_view(pairs@) == ms_pairs(gv, g as int),
        decreases multi_surfaces@.len() - g,
    {
        let surface = &multi_surfaces[g].0;
        let answers = &multi_surfaces[g].1;
        let ghost sv = gv[g as int].0;
        let ghost av = gv[g as int].1;
        assert(sv == surface@ && av == answers@.map_values(|w: Word| w@));
        let mut j: usize = 0;
        while j < answers.len()
            invariant
                gv == groups_view(multi_surfaces@),
                g < multi_surfaces@.len(),
                sv == surface@,
                av == answers@.map_values(|w: Word| w@),
                j <= answers@.len(),
                pairs_view(pairs@) == ms_pairs(gv, g as int) + group_pairs(sv, av, j as int),
            decreases answers@.len() - j,
        {
            let mut i: usize = 0;
            while i < j
                invariant
                    sv == surface@,
                    av == answers@.map_values(|w: Word| w@),
                    j < answers@.len(),
                    i <= j,
                    pairs_view(pairs@) == ms_pairs(gv, g as int) + group_pairs(sv, av, j as int)
                        + pairs_with(sv, av, j as int, i as int),
                decreases j - i,
            {
                let ghost before = pairs_view(pairs@);
                let p1: Pair = (surface.clone(), copy_word(&answers[i]), copy_word(&answers[j]));
                let p2: Pair = (surface.clone(), copy_word(&answers[j]), copy_word(&answers[i]));
                pairs.push(p1);
                pairs.push(p2);
                assert(pairs_view(pairs@) =~= before + seq![
                    (sv, av[i as int], av[j as int]),
                    (sv, av[j as int], av[i as int]),
                ]);
                i = i + 1;
            }
            j = j + 1;
        }
        g = g + 1;
    }
    pairs
}


/// The number of buckets of a pair lookup: one per value of `lookup_key`.
pub const LOOKUP_BUCKETS: usize = 614656;

/// The letters of `w` at positions `i` and `j`, leaving out a position past
/// its end.
pub open spec fn restrict(w: Seq<char>, i: int, j: int) -> Seq<char> {
    (if 0 <= i < w.len() { seq![w[i]] } else { Seq::empty() }) + (if 0 <= j < w.len() {
        seq![w[j]]
    } else {
        Seq::empty()
    })
}

/// A number for each letter: 0 to 25 for `A` to `Z`, 26 for anything else.
pub open spec fn letter_code(c: char) -> int {
    if is_upper(c) {
        c as int - 'A' as int
    } else {
        26
    }
}

/// A number for the letter at position `i` of a key; 27 where there is none.
pub open spec fn slot_code(k: Seq<char>, i: int) -> int {
    if 0 <= i < k.len() {
        letter_code(k[i])
    } else {
        27
    }
}

/// A number for a key of at most two letters.
pub open spec fn half_key(k: Seq<char>) -> int {
    slot_code(k, 0) * 28 + slot_code(k, 1)
}

/// The bucket of a pair of keys of at most two letters each.
pub open spec fn lookup_key(k1: Seq<char>, k2: Seq<char>) -> int {
    half_key(k1) * 784 + half_key(k2)
}

/// The bucket that a pair falls in when keyed by positions `i` and `j`.
pub open spec fn pair_bucket(p: PairView, i: int, j: int) -> int {
    lookup_key(restrict(p.1, i, j), restrict(p.2, i, j))
}

/// The pairs whose bucket is `b`.
pub open spec fn in_bucket(i: int, j: int, b: int) -> spec_fn(PairView) -> bool {
    |p: PairView| pair_bucket(p, i, j) == b
}

/// The pairs whose answers show the letters `k1` and `k2` at positions `i`
/// and `j`.
pub open spec fn shows_keys(i: int, j: int, k1: Seq<char>, k2: Seq<char>) -> spec_fn(PairView) -> bool {
    |p: PairView| restrict(p.1, i, j) == k1 && restrict(p.2, i, j) == k2
}

/// The indices, in increasing order, of the pairs among the first `n` that
/// pass the test `f`.
pub open spec fn matching_indices(pairs: Seq<PairView>, f: spec_fn(PairView) -> bool, n: int) -> Seq<usize>
    decreases n,
{
    if n <= 0 {
        Seq::empty()
    } else if f(pairs[n - 1]) {
        matching_indices(pairs, f, n - 1).push((n - 1) as usize)
    } else {
        matching_indices(pairs, f, n - 1)
    }
}

/// Each index in `m` is below `n`.
pub open spec fn indices_below(m: Seq<usize>, n: int) -> bool {
    forall|k: int| 0 <= k < m.len() ==> (#[trigger] m[k]) < n
}

/// A lookup from the letters at two positions of each answer of a pair to
/// the indices of the pairs that show them.
pub struct PairLookup {
    /// The first keyed position.
    pub first: usize,
    /// The second keyed position.
    pub second: usize,
    /// For each bucket, the indices of its pairs in increasing order.
    pub buckets: Vec<Vec<usize>>,
}

/// A lookup keyed by the first two letters of each answer.
pub type PairPrefixLookup = PairLookup;

/// A lookup keyed by the first and third letters of each answer.
pub type MaskLookup = PairLookup;

impl PairLookup {
    /// The lookup indexes exactly the given pairs.
    pub open spec fn indexes(&self, pairs: Seq<PairView>) -> bool {
        &&& self.buckets@.len() == LOOKUP_BUCKETS
        &&& forall|b: int| 0 <= b < LOOKUP_BUCKETS ==> (#[trigger] self.buckets@[b])@ == matching_indices(
            pairs,
            in_bucket(self.first as int, self.second as int, b),
            pairs.len() as int,
        )
    }

    /// The indices, in increasing order, of the pairs that show `k1` and `k2`
    /// at the keyed positions.
    pub open spec fn spec_get(&self, pairs: Seq<PairView>, k1: Seq<char>, k2: Seq<char>) -> Seq<usize> {
        matching_indices(pairs, shows_keys(self.first as int, self.second as int, k1, k2), pairs.len() as int)
    }
}

proof fn lemma_key_range(k1: Seq<char>, k2: Seq<char>)
    ensures
        0 <= lookup_key(k1, k2) < LOOKUP_BUCKETS,
{
    let a = half_key(k1);
    let b = half_key(k2);
    assert(0 <= slot_code(k1, 0) <= 27 && 0 <= slot_code(k1, 1) <= 27);
    assert(0 <= slot_code(k2, 0) <= 27 && 0 <= slot_code(k2, 1) <= 27);
    assert(0 <= a < 784) by (nonlinear_arith)
        requires
            a == slot_code(k1, 0) * 28 + slot_code(k1, 1),
            0 <= slot_code(k1, 0) <= 27,
            0 <= slot_code(k1, 1) <= 27,
    ;
    assert(0 <= b < 784) by (nonlinear_arith)
        requires
            b == slot_code(k2, 0) * 28 + slot_code(k2, 1),
            0 <= slot_code(k2, 0) <= 27,
            0 <= slot_code(k2, 1) <= 27,
    ;
    assert(0 <= a * 784 + b < 614656) by (nonlinear_arith)
        requires
            0 <= a < 784,
            0 <= b < 784,
    ;
}

fn letter_code_exec(c: char) -> (r: usize)
    ensures
        r == letter_code(c),
{
    if 'A' <= c && c <= 'Z' {
        (c as u32 - 'A' as u32) as usize
    } else {
        26
    }
}

fn slot_code_exec(k: &Word, i: usize) -> (r: usize)
    ensures
        r == slot_code(k@, i as int),
{
    if i < k.len() {
        letter_code_exec(k[i])
    } else {
        27
    }
}

/// The bucket of a pair of keys of at most two letters each.
pub fn lookup_key_exec(k1: &Word, k2: &Word) -> (r: usize)
    ensures
        r == lookup_key(k1@, k2@),
        r < LOOKUP_BUCKETS,
{
    proof {
        lemma_key_range(k1@, k2@);
    }
    let a = slot_code_exec(k1, 0) * 28 + slot_code_exec(k1, 1);
    let b = slot_code_exec(k2, 0) * 28 + slot_code_exec(k2, 1);
    a * 784 + b
}

/// The letters of a word at positions `i` and `j`, leaving out a position past
/// its end.
pub fn restrict_exec(w: &Word, i: usize, j: usize) -> (r: Word)
    ensures
        r@ == restrict(w@, i as int, j as int),
{
    let mut r: Word = Vec::new();
    if i < w.len() {
        r.push(w[i]);
    }
    if j < w.len() {
        r.push(w[j]);
    }
    assert(r@ =~= restrict(w@, i as int, j as int));
    r
}

/// The indices of the pairs that pass a test are below the count and pass it.
pub proof fn lemma_matching_indices_below(pairs: Seq<PairView>, f: spec_fn(PairView) -> bool, n: int)
    requires
        n <= pairs.len() <= usize::MAX,
    ensures
        indices_below(matching_indices(pairs, f, n), n),
        forall|k: int| 0 <= k < matching_indices(pairs, f, n).len() ==> f(pairs[#[trigger] matching_indices(pairs, f, n)[k] as int]),
    decreases n,
{
    if n > 0 {
        lemma_matching_indices_below(pairs, f, n - 1);
    }
}

/// Filtering the indices that pass a looser test by a stricter one gives the
/// indices that pass the stricter test.
pub proof fn lemma_filter_matching(
    pairs: Seq<PairView>,
    loose: spec_fn(PairView) -> bool,
    strict: spec_fn(PairView) -> bool,
    n: int,
)
    requires
        0 <= n <= pairs.len() <= usize::MAX,
        forall|p: PairView| #[trigger] strict(p) ==> loose(p),
    ensures
        matching_indices(pairs, loose, n).filter(index_test(pairs, strict)) == matching_indices(pairs, strict, n),
    decreases n,
{
    reveal(Seq::filter);
    if n > 0 {
        lemma_filter_matching(pairs, loose, strict, n - 1);
        let m = matching_indices(pairs, loose, n - 1);
        let last = (n - 1) as usize;
        assert(last as int == n - 1);
        if loose(pairs[n - 1]) {
            assert(m.push(last).drop_last() =~= m);
            assert(m.push(last).last() == last);
        }
    }
}

/// The indices of the pairs that pass `f`.
pub open spec fn index_test(pairs: Seq<PairView>, f: spec_fn(PairView) -> bool) -> spec_fn(usize) -> bool {
    |q: usize| (q as int) < pairs.len() && f(pairs[q as int])
}

/// Index the pairs by the letters of both answers at positions `first` and
/// `second`.
pub fn make_lookup(pairs: &Vec<Pair>, first: usize, second: usize) -> (lookup: PairLookup)
    ensures
        lookup.first == first,
        lookup.second == second,
        lookup.indexes(pairs_view(pairs@)),
{
    let ghost pv = pairs_view(pairs@);
    let mut buckets: Vec<Vec<usize>> = Vec::new();
    while buckets.len() < LOOKUP_BUCKETS
        invariant
            buckets@.len() <= LOOKUP_BUCKETS,
            forall|b: int| 0 <= b < buckets@.len() ==> (#[trigger] buckets@[b])@ == Seq::<usize>::empty(),
        decreases LOOKUP_BUCKETS - buckets@.len(),
    {
        buckets.push(Vec::new());
    }
    let mut q: usize = 0;
    while q < pairs.len()
        invariant
            pv == pairs_view(pairs@),
            q <= pairs@.len(),
            buckets@.len() == LOOKUP_BUCKETS,
            forall|b: int| 0 <= b < LOOKUP_BUCKETS ==> (#[trigger] buckets@[b])@ == matching_indices(
                pv,
                in_bucket(first as int, second as int, b),
                q as int,
            ),
        decreases pairs@.len() - q,
    {
        let k1 = restrict_exec(&pairs[q].1, first, second);
        let k2 = restrict_exec(&pairs[q].2, first, second);
        let b = lookup_key_exec(&k1, &k2);
        assert(pv[q as int] == pairs@[q as int]@);
        assert(pair_bucket(pv[q as int], first as int, second as int) == b);
        buckets[b].push(q);
        q = q + 1;
    }
    PairLookup { first, second, buckets }
}

/// Index the pairs by the first two letters of each answer.
pub fn make_pair_prefix_lookup(pairs: &Vec<Pair>) -> (lookup: PairPrefixLookup)
    ensures
        lookup.first == 0,
        lookup.second == 1,
        lookup.indexes(pairs_view(pairs@)),
{
    make_lookup(pairs, 0, 1)
}

/// Index the pairs by the first and third letters of each answer.
pub fn make_mask_lookup(pairs: &Vec<Pair>) -> (lookup: MaskLookup)
    ensures
        lookup.first == 0,
        lookup.second == 2,
        lookup.indexes(pairs_view(pairs@)),
{
    make_lookup(pairs, 0, 2)
}

impl PairLookup {
    /// The indices, in increasing order, of the pairs whose answers show `k1`
    /// and `k2` at the keyed positions.
    pub fn get(&self, pairs: &Vec<Pair>, k1: &Word, k2: &Word) -> (r: Vec<usize>)
        requires
            self.indexes(pairs_view(pairs@)),
        ensures
            r@ == self.spec_get(pairs_view(pairs@), k1@, k2@),
            indices_below(r@, pairs@.len() as int),
    {
        let ghost pv = pairs_view(pairs@);
        let np = pairs.len();
        assert(pv.len() == np);
        let ghost strict = shows_keys(self.first as int, self.second as int, k1@, k2@);
        let ghost test = index_test(pv, strict);
        let mut r: Vec<usize> = Vec::new();
        if k1.len() > 2 || k2.len() > 2 {
            assert forall|q: int| 0 <= q < pv.len() implies !strict(pv[q]) by {
                assert(restrict(pv[q].1, self.first as int, self.second as int).len() <= 2);
                assert(restrict(pv[q].2, self.first as int, self.second as int).len() <= 2);
            }
            proof {
                lemma_none_match(pv, strict, pv.len() as int);
            }
            return r;
        }
        let b = lookup_key_exec(k1, k2);
        let bucket = &self.buckets[b];
        let ghost loose = in_bucket(self.first as int, self.second as int, b as int);
        proof {
            lemma_matching_indices_below(pv, loose, pv.len() as int);
        }
        let mut t: usize = 0;
        while t < bucket.len()
            invariant
                pv == pairs_view(pairs@),
                bucket@ == matching_indices(pv, loose, pv.len() as int),
                indices_below(bucket@, pv.len() as int),
                t <= bucket@.len(),
                r@ == bucket@.subrange(0, t as int).filter(test),
                test == index_test(pv, strict),
                pv.len() <= usize::MAX,
                strict == shows_keys(self.first as int, self.second as int, k1@, k2@),
            decreases bucket@.len() - t,
        {
            let q = bucket[t];
            let ghost before = r@;
            proof {
                reveal(Seq::filter);
                assert(bucket@.subrange(0, t + 1).drop_last() =~= bucket@.subrange(0, t as int));
            }
            let k1q = restrict_exec(&pairs[q].1, self.first, self.second);
            let k2q = restrict_exec(&pairs[q].2, self.first, self.second);
            assert(pv[q as int] == pairs@[q as int]@);
            if words_equal(&k1q, k1) && words_equal(&k2q, k2) {
                r.push(q);
            }
            t = t + 1;
        }
        proof {
            assert(bucket@.subrange(0, t as int) =~= bucket@);
            assert forall|p: PairView| #[trigger] strict(p) implies loose(p) by {}
            lemma_filter_matching(pv, loose, strict, pv.len() as int);
            lemma_matching_indices_below(pv, strict, pv.len() as int);
        }
        r
    }
}

proof fn lemma_none_match(pairs: Seq<PairView>, f: spec_fn(PairView) -> bool, n: int)
    requires
        n <= pairs.len(),
        forall|q: int| 0 <= q < pairs.len() ==> !f(#[trigger] pairs[q]),
    ensures
        matching_indices(pairs, f, n) == Seq::<usize>::empty(),
    decreases n,
{
    if n > 0 {
        lemma_none_match(pairs, f, n - 1);
    }
}


/// The view of an optional surface.
pub open spec fn surface_view(s: Option<Surface>) -> Option<Seq<char>> {
    match s {
        Some(t) => Some(t@),
        None => None,
    }
}

/// The pairs whose answers are `w1` and `w2`, in that order.
pub open spec fn same_words(w1: Seq<char>, w2: Seq<char>) -> spec_fn(PairView) -> bool {
    |p: PairView| p.1 == w1 && p.2 == w2
}

/// The surface recorded for the answers `w1` and `w2`: that of the first pair
/// with these answers, if any.
pub open spec fn pair_surface(pairs: Seq<PairView>, w1: Seq<char>, w2: Seq<char>) -> Option<Seq<char>> {
    let m = matching_indices(pairs, same_words(w1, w2), pairs.len() as int);
    if m.len() > 0 {
        Some(pairs[m[0] as int].0)
    } else {
        None
    }
}

/// Some pair has the surface `s` and the answers `w1` and `w2`.
pub open spec fn shares_surface(pairs: Seq<PairView>, s: Seq<char>, w1: Seq<char>, w2: Seq<char>) -> bool {
    exists|q: int| 0 <= q < pairs.len() && #[trigger] pairs[q] == (s, w1, w2)
}

/// Copy a list of pairs.
pub fn copy_pairs(pairs: &Vec<Pair>) -> (r: Vec<Pair>)
    ensures
        pairs_view(r@) == pairs_view(pairs@),
{
    let mut r: Vec<Pair> = Vec::new();
    let mut i: usize = 0;
    while i < pairs.len()
        invariant
            i <= pairs@.len(),
            r@.len() == i,
            forall|k: int| 0 <= k < i ==> (#[trigger] r@[k])@ == pairs@[k]@,
        decreases pairs@.len() - i,
    {
        let p: Pair = (pairs[i].0.clone(), copy_word(&pairs[i].1), copy_word(&pairs[i].2));
        assert(p@ == pairs@[i as int]@);
        r.push(p);
        i = i + 1;
    }
    assert(pairs_view(r@) =~= pairs_view(pairs@));
    r
}

/// A map from two answers to the surface that they share.
pub struct PairsToSurface {
    /// The pairs, in order.
    pub pairs: Vec<Pair>,
    /// The pairs keyed by the first two letters of each answer.
    pub lookup: PairLookup,
}

impl PairsToSurface {
    /// The lookup indexes the map's pairs by their first two letters.
    pub open spec fn wf(&self) -> bool {
        &&& self.lookup.first == 0
        &&& self.lookup.second == 1
        &&& self.lookup.indexes(pairs_view(self.pairs@))
    }

    /// The pairs of the map.
    pub open spec fn spec_pairs(&self) -> Seq<PairView> {
        pairs_view(self.pairs@)
    }

    /// The surface of the first pair whose answers are `w1` and `w2`.
    pub fn get(&self, w1: &Word, w2: &Word) -> (r: Option<Surface>)
        requires
            self.wf(),
        ensures
            surface_view(r) == pair_surface(self.spec_pairs(), w1@, w2@),
    {
        let ghost pv = pairs_view(self.pairs@);
        let np = self.pairs.len();
        assert(pv.len() == np);
        let k1 = restrict_exec(w1, 0, 1);
        let k2 = restrict_exec(w2, 0, 1);
        let cands = self.lookup.get(&self.pairs, &k1, &k2);
        let ghost loose = shows_keys(0, 1, k1@, k2@);
        let ghost strict = same_words(w1@, w2@);
        let ghost test = index_test(pv, strict);
        proof {
            assert forall|p: PairView| #[trigger] strict(p) implies loose(p) by {}
            lemma_filter_matching(pv, loose, strict, pv.len() as int);
        }
        let mut t: usize = 0;
        while t < cands.len()
            invariant
                pv == pairs_view(self.pairs@),
                cands@ == matching_indices(pv, loose, pv.len() as int),
                indices_below(cands@, pv.len() as int),
                t <= cands@.len(),
                cands@.subrange(0, t as int).filter(test) == Seq::<usize>::empty(),
                cands@.filter(test) == matching_indices(pv, strict, pv.len() as int),
                test == index_test(pv, strict),
                strict == same_words(w1@, w2@),
            decreases cands@.len() - t,
        {
            let q = cands[t];
            assert(pv[q as int] == self.pairs@[q as int]@);
            proof {
                reveal(Seq::filter);
                assert(cands@.subrange(0, t + 1).drop_last() =~= cands@.subrange(0, t as int));
            }
            if words_equal(&self.pairs[q].1, w1) && words_equal(&self.pairs[q].2, w2) {
                proof {
                    lemma_first_filtered(cands@, test, t as int);
                }
                return Some(self.pairs[q].0.clone());
            }
            t = t + 1;
        }
        assert(cands@.subrange(0, t as int) =~= cands@);
        None
    }
}

proof fn lemma_first_filtered(s: Seq<usize>, f: spec_fn(usize) -> bool, t: int)
    requires
        0 <= t < s.len(),
        s.subrange(0, t).filter(f) == Seq::<usize>::empty(),
        f(s[t]),
    ensures
        s.filter(f).len() > 0,
        s.filter(f)[0] == s[t],
{
    reveal(Seq::filter);
    let a = s.subrange(0, t);
    let b = s.subrange(t, s.len() as int);
    assert(s =~= a + b);
    Seq::filter_distributes_over_add(a, b, f);
    let c = s.subrange(t + 1, s.len() as int);
    assert(b =~= seq![s[t]] + c);
    Seq::filter_distributes_over_add(seq![s[t]], c, f);
    assert(seq![s[t]].drop_last() =~= Seq::<usize>::empty());
    assert(seq![s[t]].filter(f) == seq![s[t]]);
    assert(a.filter(f) + b.filter(f) =~= b.filter(f));
}

/// Make the map from a list of pairs: where several pairs have the same two
/// answers, the first one's surface is kept.
pub fn make_pairs_to_surface(ms_pairs: &Vec<Pair>) -> (map: PairsToSurface)
    ensures
        map.wf(),
        map.spec_pairs() == pairs_view(ms_pairs@),
{
    let pairs = copy_pairs(ms_pairs);
    let lookup = make_pair_prefix_lookup(&pairs);
    PairsToSurface { pairs, lookup }
}

/// Make the map from answer pairs to their shared surface from the
/// multi-surfaces.
pub fn make_pairs_to_surfaces(multi_surfaces: &Vec<MultiSurface>) -> (map: PairsToSurface)
    requires
        groups_distinct(groups_view(multi_surfaces@)),
    ensures
        map.wf(),
        pairs_two_answers(map.spec_pairs()),
        map.spec_pairs() == ms_pairs(groups_view(multi_surfaces@), multi_surfaces@.len() as int),
{
    let pairs = make_ms_pairs(multi_surfaces);
    let lookup = make_pair_prefix_lookup(&pairs);
    PairsToSurface { pairs, lookup }
}

/// A set of words.
pub struct WordList {
    /// The words, possibly with repeats.
    pub words: Vec<Word>,
}

impl WordList {
    /// The set of words held.
    pub open spec fn view_set(&self) -> Set<Seq<char>> {
        Set::new(|w: Seq<char>| exists|k: int| 0 <= k < self.words@.len() && (#[trigger] self.words@[k])@ == w)
    }

    /// Whether the word is in the set.
    pub fn contains(&self, w: &Word) -> (r: bool)
        ensures
            r == self.view_set().contains(w@),
    {
        let mut k: usize = 0;
        while k < self.words.len()
            invariant
                k <= self.words@.len(),
                forall|j: int| 0 <= j < k ==> (#[trigger] self.words@[j])@ != w@,
            decreases self.words@.len() - k,
        {
            if words_equal(&self.words[k], w) {
                return true;
            }
            k = k + 1;
        }
        false
    }
}

/// The answers of length `size` among the clues.
pub open spec fn answers_of_length(clues: Seq<(Seq<char>, Seq<char>)>, size: int) -> Set<Seq<char>> {
    Set::new(|w: Seq<char>| answer_before(clues, clues.len() as int, size, w))
}

/// `w` has length `size` and answers one of the first `n` clues.
pub open spec fn answer_before(clues: Seq<(Seq<char>, Seq<char>)>, n: int, size: int, w: Seq<char>) -> bool {
    w.len() == size && exists|k: int| 0 <= k < n && (#[trigger] clues[k]).1 == w
}

/// `w` is one of the words.
pub open spec fn has_word(words: Seq<Word>, w: Seq<char>) -> bool {
    exists|k: int| 0 <= k < words.len() && (#[trigger] words[k])@ == w
}

/// The answers of length `size` among the clues, in order, repeats kept.
pub open spec fn answer_list(clues: Seq<(Seq<char>, Seq<char>)>, size: int) -> Seq<Seq<char>>
    decreases clues.len(),
{
    if clues.len() == 0 {
        Seq::empty()
    } else if clues.last().1.len() == size {
        answer_list(clues.drop_last(), size).push(clues.last().1)
    } else {
        answer_list(clues.drop_last(), size)
    }
}

/// The set of all answers of the given length among the clues.
pub fn make_word_list_all(size: usize, clues: &Vec<Clue>) -> (r: WordList)
    ensures
        r.view_set() == answers_of_length(clues_view(clues@), size as int),
        r.words@.map_values(|w: Word| w@) == answer_list(clues_view(clues@), size as int),
{
    let ghost cv = clues_view(clues@);
    let mut words: Vec<Word> = Vec::new();
    let mut i: usize = 0;
    while i < clues.len()
        invariant
            cv == clues_view(clues@),
            i <= clues@.len(),
            forall|w: Seq<char>| has_word(words@, w) == answer_before(cv, i as int, size as int, w),
            words@.map_values(|w: Word| w@) == answer_list(cv.subrange(0, i as int), size as int),
        decreases clues@.len() - i,
    {
        let ghost before = words@;
        assert(cv[i as int] == clues@[i as int]@);
        assert(cv.subrange(0, i + 1).drop_last() =~= cv.subrange(0, i as int));
        assert(cv.subrange(0, i + 1).last() == cv[i as int]);
        if clues[i].1.len() == size {
            words.push(copy_word(&clues[i].1));
            assert(words@.map_values(|w: Word| w@) =~= before.map_values(|w: Word| w@).push(cv[i as int].1));
            assert forall|w: Seq<char>| has_word(words@, w) == answer_before(cv, i + 1, size as int, w) by {
                if has_word(words@, w) {
                    let k = choose|k: int| 0 <= k < words@.len() && (#[trigger] words@[k])@ == w;
                    if k < before.len() {
                        assert(before[k]@ == w);
                        assert(has_word(before, w));
                    } else {
                        assert(cv[i as int].1 == w);
                    }
                }
                if answer_before(cv, i + 1, size as int, w) {
                    let j = choose|j: int| 0 <= j < i + 1 && (#[trigger] cv[j]).1 == w;
                    if j < i {
                        assert(answer_before(cv, i as int, size as int, w));
                        assert(has_word(before, w));
                        let k = choose|k: int| 0 <= k < before.len() && (#[trigger] before[k])@ == w;
                        assert(words@[k] == before[k]);
                    } else {
                        assert(words@[before.len() as int]@ == w);
                    }
                }
            }
        } else {
            assert forall|w: Seq<char>| has_word(words@, w) == answer_before(cv, i + 1, size as int, w) by {
                if answer_before(cv, i + 1, size as int, w) {
                    let j = choose|j: int| 0 <= j < i + 1 && (#[trigger] cv[j]).1 == w;
                    assert(j < i);
                    assert(answer_before(cv, i as int, size as int, w));
                }
                if has_word(words@, w) {
                    assert(answer_before(cv, i as int, size as int, w));
                    let j = choose|j: int| 0 <= j < i && (#[trigger] cv[j]).1 == w;
                    assert(answer_before(cv, i + 1, size as int, w));
                }
            }
        }
        i = i + 1;
    }
    assert(cv.subrange(0, i as int) =~= cv);
    let r = WordList { words };
    assert forall|w: Seq<char>| r.view_set().contains(w) == answers_of_length(cv, size as int).contains(w) by {
        assert(r.view_set().contains(w) == has_word(words@, w));
    }
    assert(r.view_set() =~= answers_of_length(cv, size as int));
    r
}

/// The first answers of the pairs.
pub open spec fn first_answers(pairs: Seq<PairView>) -> Set<Seq<char>> {
    Set::new(|w: Seq<char>| exists|q: int| 0 <= q < pairs.len() && (#[trigger] pairs[q]).1 == w)
}

/// The set of the words that answer a multi-surface.
pub fn make_word_list(ms_pairs: &Vec<Pair>) -> (r: WordList)
    ensures
        r.view_set() == first_answers(pairs_view(ms_pairs@)),
{
    let ghost pv = pairs_view(ms_pairs@);
    let mut words: Vec<Word> = Vec::new();
    let mut i: usize = 0;
    while i < ms_pairs.len()
        invariant
            pv == pairs_view(ms_pairs@),
            i <= ms_pairs@.len(),
            words@.len() == i,
            forall|k: int| 0 <= k < i ==> (#[trigger] words@[k])@ == pv[k].1,
        decreases ms_pairs@.len() - i,
    {
        assert(pv[i as int] == ms_pairs@[i as int]@);
        words.push(copy_word(&ms_pairs[i].1));
        i = i + 1;
    }
    let r = WordList { words };
    assert forall|w: Seq<char>| r.view_set().contains(w) <==> first_answers(pv).contains(w) by {
        if first_answers(pv).contains(w) {
            let q = choose|q: int| 0 <= q < pv.len() && (#[trigger] pv[q]).1 == w;
            assert(r.words@[q]@ == w);
        }
    }
    assert(r.view_set() =~= first_answers(pv));
    r
}


/// The answers of the multi-surfaces.
pub open spec fn group_answers(groups: Seq<(Seq<char>, Seq<Seq<char>>)>) -> Set<Seq<char>> {
    Set::new(|w: Seq<char>| exists|g: int, k: int| 0 <= g < groups.len() && 0 <= k < groups[g].1.len() && #[trigger] groups[g].1[k] == w)
}

/// The set of all the answers of the multi-surfaces.
pub fn extract_words(multi_surfaces: &Vec<MultiSurface>) -> (r: WordList)
    ensures
        r.view_set() == group_answers(groups_view(multi_surfaces@)),
{
    let ghost gv = groups_view(multi_surfaces@);
    let mut words: Vec<Word> = Vec::new();
    let mut g: usize = 0;
    while g < multi_surfaces.len()
        invariant
            gv == groups_view(multi_surfaces@),
            g <= multi_surfaces@.len(),
            forall|w: Seq<char>| has_word(words@, w) <==> exists|h: int, k: int| 0 <= h < g && 0 <= k < gv[h].1.len() && #[trigger] gv[h].1[k] == w,
        decreases multi_surfaces@.len() - g,
    {
        let answers = &multi_surfaces[g].1;
        assert(gv[g as int].1 == answers@.map_values(|w: Word| w@));
        let mut k: usize = 0;
        while k < answers.len()
            invariant
                gv == groups_view(multi_surfaces@),
                g < multi_surfaces@.len(),
                gv[g as int].1 == answers@.map_values(|w: Word| w@),
                k <= answers@.len(),
                forall|w: Seq<char>| has_word(words@, w) <==> (exists|h: int, m: int| 0 <= h < g && 0 <= m < gv[h].1.len() && #[trigger] gv[h].1[m] == w)
                    || (exists|m: int| 0 <= m < k && gv[g as int].1[m] == w),
            decreases answers@.len() - k,
        {
            let ghost before = words@;
            words.push(copy_word(&answers[k]));
            assert forall|w: Seq<char>| has_word(words@, w) <==> (exists|h: int, m: int| 0 <= h < g && 0 <= m < gv[h].1.len() && #[trigger] gv[h].1[m] == w)
                || (exists|m: int| 0 <= m < k + 1 && gv[g as int].1[m] == w) by {
                if has_word(words@, w) {
                    let j = choose|j: int| 0 <= j < words@.len() && (#[trigger] words@[j])@ == w;
                    if j < before.len() {
                        assert(before[j]@ == w);
                        assert(has_word(before, w));
                    } else {
                        assert(gv[g as int].1[k as int] == w);
                    }
                }
                if exists|m: int| 0 <= m < k + 1 && gv[g as int].1[m] == w {
                    let m = choose|m: int| 0 <= m < k + 1 && gv[g as int].1[m] == w;
                    if m == k {
                        assert(words@[before.len() as int]@ == w);
                    } else {
                        assert(has_word(before, w));
                        let j = choose|j: int| 0 <= j < before.len() && (#[trigger] before[j])@ == w;
                        assert(words@[j] == before[j]);
                    }
                }
                if exists|h: int, m: int| 0 <= h < g && 0 <= m < gv[h].1.len() && #[trigger] gv[h].1[m] == w {
                    assert(has_word(before, w));
                    let j = choose|j: int| 0 <= j < before.len() && (#[trigger] before[j])@ == w;
                    assert(words@[j] == before[j]);
                }
            }
            k = k + 1;
        }
        assert forall|w: Seq<char>| has_word(words@, w) <==> exists|h: int, m: int| 0 <= h < g + 1 && 0 <= m < gv[h].1.len() && #[trigger] gv[h].1[m] == w by {
            if exists|h: int, m: int| 0 <= h < g + 1 && 0 <= m < gv[h].1.len() && #[trigger] gv[h].1[m] == w {
                let (h, m) = choose|h: int, m: int| 0 <= h < g + 1 && 0 <= m < gv[h].1.len() && #[trigger] gv[h].1[m] == w;
                if h == g {
                    assert(exists|m2: int| 0 <= m2 < k && gv[g as int].1[m2] == w);
                }
            }
        }
        g = g + 1;
    }
    let r = WordList { words };
    assert forall|w: Seq<char>| r.view_set().contains(w) == group_answers(gv).contains(w) by {
        assert(r.view_set().contains(w) == has_word(words@, w));
    }
    assert(r.view_set() =~= group_answers(gv));
    r
}


/// Every clue's answer passes the word test `ok`.
pub open spec fn clue_answers_ok(clues: Seq<(Seq<char>, Seq<char>)>, ok: spec_fn(Seq<char>) -> bool) -> bool {
    forall|k: int| 0 <= k < clues.len() ==> ok(#[trigger] clues[k].1)
}

/// Every answer of every group passes the word test `ok`.
pub open spec fn group_answers_ok(groups: Seq<(Seq<char>, Seq<Seq<char>>)>, ok: spec_fn(Seq<char>) -> bool) -> bool {
    forall|g: int, k: int| 0 <= g < groups.len() && 0 <= k < groups[g].1.len() ==> ok(#[trigger] groups[g].1[k])
}

/// Both answers of every pair pass the word test `ok`.
pub open spec fn pair_answers_ok(pairs: Seq<PairView>, ok: spec_fn(Seq<char>) -> bool) -> bool {
    forall|q: int| 0 <= q < pairs.len() ==> ok((#[trigger] pairs[q]).1) && ok(pairs[q].2)
}

proof fn lemma_add_clue_ok(groups: Seq<(Seq<char>, Seq<Seq<char>>)>, s: Seq<char>, a: Seq<char>, ok: spec_fn(Seq<char>) -> bool)
    requires
        group_answers_ok(groups, ok),
        ok(a),
    ensures
        group_answers_ok(add_clue(groups, s, a), ok),
{
    lemma_group_index_bound(groups, s);
    let r = add_clue(groups, s, a);
    let p = group_index(groups, s);
    assert forall|g: int, k: int| 0 <= g < r.len() && 0 <= k < r[g].1.len() implies ok(#[trigger] r[g].1[k]) by {
        if p < 0 {
            if g < groups.len() {
                assert(r[g] == groups[g]);
            }
        } else if !groups[p].1.contains(a) && g == p {
            if k < groups[p].1.len() {
                assert(r[g].1[k] == groups[p].1[k]);
            }
        } else {
            assert(r[g] == groups[g]);
        }
    }
}

proof fn lemma_group_clues_ok(clues: Seq<(Seq<char>, Seq<char>)>, ok: spec_fn(Seq<char>) -> bool)
    requires
        clue_answers_ok(clues, ok),
    ensures
        group_answers_ok(group_clues(clues), ok),
    decreases clues.len(),
{
    if clues.len() > 0 {
        assert(clue_answers_ok(clues.drop_last(), ok)) by {
            assert forall|k: int| 0 <= k < clues.drop_last().len() implies ok(#[trigger] clues.drop_last()[k].1) by {
                assert(clues.drop_last()[k] == clues[k]);
            }
        }
        lemma_group_clues_ok(clues.drop_last(), ok);
        assert(clues.last() == clues[clues.len() - 1]);
        lemma_add_clue_ok(group_clues(clues.drop_last()), clues.last().0, clues.last().1, ok);
    }
}

/// Where every clue's answer passes a word test, so does every answer of
/// every multi-surface.
pub proof fn lemma_multi_surfaces_ok(clues: Seq<(Seq<char>, Seq<char>)>, ok: spec_fn(Seq<char>) -> bool)
    requires
        clue_answers_ok(clues, ok),
    ensures
        group_answers_ok(multi_surfaces(clues), ok),
{
    lemma_group_clues_ok(clues, ok);
    let all = group_clues(clues);
    let ms = multi_surfaces(clues);
    assert forall|g: int, k: int| 0 <= g < ms.len() && 0 <= k < ms[g].1.len() implies ok(#[trigger] ms[g].1[k]) by {
        all.lemma_filter_contains_rev(multi_test(), ms[g]);
        assert(ms.contains(ms[g]));
        let h = choose|h: int| 0 <= h < all.len() && all[h] == ms[g];
        assert(ok(all[h].1[k]));
    }
}

proof fn lemma_pairs_with_ok(s: Seq<char>, answers: Seq<Seq<char>>, j: int, i: int, ok: spec_fn(Seq<char>) -> bool)
    requires
        0 <= j < answers.len(),
        i <= answers.len(),
        forall|k: int| 0 <= k < answers.len() ==> ok(#[trigger] answers[k]),
    ensures
        pair_answers_ok(pairs_with(s, answers, j, i), ok),
    decreases i,
{
    if i > 0 {
        lemma_pairs_with_ok(s, answers, j, i - 1, ok);
        assert(ok(answers[i - 1]));
    }
}

proof fn lemma_group_pairs_ok(s: Seq<char>, answers: Seq<Seq<char>>, m: int, ok: spec_fn(Seq<char>) -> bool)
    requires
        m <= answers.len(),
        forall|k: int| 0 <= k < answers.len() ==> ok(#[trigger] answers[k]),
    ensures
        pair_answers_ok(group_pairs(s, answers, m), ok),
    decreases m,
{
    if m > 0 {
        lemma_group_pairs_ok(s, answers, m - 1, ok);
        lemma_pairs_with_ok(s, answers, m - 1, m - 1, ok);
    }
}

/// Where every answer of every group passes a word test, so do both answers
/// of every pair.
pub proof fn lemma_ms_pairs_ok(groups: Seq<(Seq<char>, Seq<Seq<char>>)>, n: int, ok: spec_fn(Seq<char>) -> bool)
    requires
        n <= groups.len(),
        group_answers_ok(groups, ok),
    ensures
        pair_answers_ok(ms_pairs(groups, n), ok),
    decreases n,
{
    if n > 0 {
        lemma_ms_pairs_ok(groups, n - 1, ok);
        let g = groups[n - 1];
        assert forall|k: int| 0 <= k < g.1.len() implies ok(#[trigger] g.1[k]) by {
            assert(ok(groups[n - 1].1[k]));
        }
        lemma_group_pairs_ok(g.0, g.1, g.1.len() as int, ok);
    }
}

/// The word test of uppercase answers.
pub open spec fn upper_test() -> spec_fn(Seq<char>) -> bool {
    |w: Seq<char>| is_upper_word(w)
}

/// Every clue that the filter keeps has an uppercase answer.
pub proof fn lemma_kept_clues_upper(
    clues: Seq<(Seq<char>, Seq<char>)>,
    word_frequencies: Seq<u32>,
    min_word_frequency: Option<u32>,
    broda_scores: Seq<u32>,
    min_broda_score: Option<u32>,
    n: int,
)
    ensures
        clue_answers_ok(kept_clues(clues, word_frequencies, min_word_frequency, broda_scores, min_broda_score, n), upper_test()),
    decreases n,
{
    if n > 0 {
        lemma_kept_clues_upper(clues, word_frequencies, min_word_frequency, broda_scores, min_broda_score, n - 1);
        let before = kept_clues(clues, word_frequencies, min_word_frequency, broda_scores, min_broda_score, n - 1);
        let all = kept_clues(clues, word_frequencies, min_word_frequency, broda_scores, min_broda_score, n);
        assert forall|k: int| 0 <= k < all.len() implies upper_test()(#[trigger] all[k].1) by {
            if k < before.len() {
                assert(all[k] == before[k]);
            }
        }
    }
}

} // verus!

//! Multi-surfaces of raw clues, whose answers are strings.
use vstd::prelude::*;
use crate::data::{
    MultiSurface, group_clues, groups_view, multi_test, add_clue_exec, surface_chars, starts_with,
};
use crate::searchers::chars_to_string;

verus! {

/// Whether a raw clue takes part: a surface that is not empty and not a
/// cross-reference, and an answer of `length` characters without a space.
pub open spec fn raw_clue_kept(surface: Seq<char>, solution: Seq<char>, length: int) -> bool {
    &&& surface.len() > 0
    &&& !starts_with(surface, seq!['S', 'e', 'e'])
    &&& solution.len() == length
    &&& !solution.contains(' ')
}

/// Whether a raw clue takes part in the search.
pub fn should_include(surface: &String, solution: &String, length: usize) -> (r: bool)
    ensures
        r == raw_clue_kept(surface@, solution@, length as int),
{
    let s = surface_chars(surface);
    if s.len() == 0 {
        return false;
    }
    if s.len() >= 3 && s[0] == 'S' && s[1] == 'e' && s[2] == 'e' {
        assert(s@.subrange(0, 3) =~= seq!['S', 'e', 'e']);
        return false;
    }
    assert(!starts_with(s@, seq!['S', 'e', 'e'])) by {
        if starts_with(s@, seq!['S', 'e', 'e']) {
            assert(s@.subrange(0, 3)[0] == s@[0]);
            assert(s@.subrange(0, 3)[1] == s@[1]);
            assert(s@.subrange(0, 3)[2] == s@[2]);
        }
    }
    let a = surface_chars(solution);
    if a.len() != length {
        return false;
    }
    let mut k: usize = 0;
    while k < a.len()
        invariant
            a@ == solution@,
            k <= a@.len(),
            forall|j: int| 0 <= j < k ==> a@[j] != ' ',
        decreases a@.len() - k,
    {
        if a[k] == ' ' {
            assert(a@[k as int] == ' ');
            assert(solution@.contains(' '));
            return false;
        }
        k = k + 1;
    }
    true
}

/// The raw clues kept, in order, as surfaces and answers.
pub open spec fn raw_kept(clues: Seq<(Seq<char>, Seq<char>)>, length: int) -> Seq<(Seq<char>, Seq<char>)> {
    clues.filter(|c: (Seq<char>, Seq<char>)| raw_clue_kept(c.0, c.1, length))
}

/// The views of raw clues.
pub open spec fn raw_view(clues: Seq<(String, String)>) -> Seq<(Seq<char>, Seq<char>)> {
    clues.map_values(|c: (String, String)| (c.0@, c.1@))
}

/// The views of groups whose answers are strings.
pub open spec fn raw_groups_view(groups: Seq<(String, Vec<String>)>) -> Seq<(Seq<char>, Seq<Seq<char>>)> {
    groups.map_values(|g: (String, Vec<String>)| (g.0@, g.1@.map_values(|a: String| a@)))
}

/// Group the kept clues by surface: surfaces and their distinct answers in
/// order of first appearance.
pub fn accumulate(clues: Vec<(String, String)>, length: usize) -> (r: Vec<MultiSurface>)
    ensures
        groups_view(r@) == group_clues(raw_kept(raw_view(clues@), length as int)),
{
    let ghost cv = raw_view(clues@);
    let mut groups: Vec<MultiSurface> = Vec::new();
    let mut i: usize = 0;
    while i < clues.len()
        invariant
            cv == raw_view(clues@),
            i <= clues@.len(),
            groups_view(groups@) == group_clues(raw_kept(cv.subrange(0, i as int), length as int)),
        decreases clues@.len() - i,
    {
        proof {
            reveal(Seq::filter);
            assert(cv.subrange(0, i + 1).drop_last() =~= cv.subrange(0, i as int));
        }
        let ghost kept_before = raw_kept(cv.subrange(0, i as int), length as int);
        if should_include(&clues[i].0, &clues[i].1, length) {
            let answer = surface_chars(&clues[i].1);
            add_clue_exec(&mut groups, &clues[i].0, &answer);
            assert(raw_kept(cv.subrange(0, i + 1), length as int) == kept_before.push(cv[i as int]));
            assert(kept_before.push(cv[i as int]).drop_last() =~= kept_before);
        }
        i = i + 1;
    }
    assert(cv.subrange(0, i as int) =~= cv);
    groups
}

/// The surfaces with at least two distinct answers of `length` characters,
/// with those answers, in order of first appearance.
pub fn get_multi_surfaces(clues: Vec<(String, String)>, length: usize) -> (r: Vec<(String, Vec<String>)>)
    ensures
        raw_groups_view(r@) == group_clues(raw_kept(raw_view(clues@), length as int)).filter(multi_test()),
{
    let groups = accumulate(clues, length);
    let ghost all = groups_view(groups@);
    let mut r: Vec<(String, Vec<String>)> = Vec::new();
    let mut k: usize = 0;
    while k < groups.len()
        invariant
            all == groups_view(groups@),
            k <= groups@.len(),
            raw_groups_view(r@) == all.subrange(0, k as int).filter(multi_test()),
        decreases groups@.len() - k,
    {
        let ghost before = r@;
        proof {
            reveal(Seq::filter);
            assert(all.subrange(0, k + 1).drop_last() =~= all.subrange(0, k as int));
        }
        if groups[k].1.len() >= 2 {
            let mut answers: Vec<String> = Vec::new();
            let mut a: usize = 0;
            while a < groups[k].1.len()
                invariant
                    k < groups@.len(),
                    a <= groups@[k as int].1@.len(),
                    answers@.len() == a,
                    forall|j: int| 0 <= j < a ==> (#[trigger] answers@[j])@ == groups@[k as int].1@[j]@,
                decreases groups@[k as int].1@.len() - a,
            {
                answers.push(chars_to_string(&groups[k].1[a]));
                a = a + 1;
            }
            let g = (groups[k].0.clone(), answers);
            r.push(g);
            assert(raw_groups_view(r@) =~= raw_groups_view(before).push(all[k as int])) by {
                assert(answers@.map_values(|s: String| s@) =~= groups@[k as int].1@.map_values(|w: crate::grid::Word| w@));
            }
        } else {
            assert(raw_groups_view(r@) =~= raw_groups_view(before));
        }
        k = k + 1;
    }
    assert(all.subrange(0, k as int) =~= all);
    r
}

} // verus!

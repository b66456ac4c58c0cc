//! Choosing which found crosswords to show: all their words common enough,
//! and none of them banned.
use vstd::prelude::*;
use crate::grid::{Word, cells, is_square, dense_entries, get_all_words, words_equal};
use crate::data::WordList;
use crate::qc::QuinianCrossword;

verus! {

/// A table of word scores, such as how often each word is used.
pub struct WordScores {
    /// The words and their scores; a later entry for a word overrides an
    /// earlier one.
    pub entries: Vec<(Word, u32)>,
}

/// The score of `w` in the entries: that of its last entry, or 0 where it has
/// none.
pub open spec fn score_in(entries: Seq<(Seq<char>, u32)>, w: Seq<char>) -> u32
    decreases entries.len(),
{
    if entries.len() == 0 {
        0
    } else if entries.last().0 == w {
        entries.last().1
    } else {
        score_in(entries.drop_last(), w)
    }
}

impl WordScores {
    /// The entries as sequences.
    pub open spec fn spec_entries(&self) -> Seq<(Seq<char>, u32)> {
        self.entries@.map_values(|e: (Word, u32)| (e.0@, e.1))
    }

    /// The score of a word; 0 where the table has none.
    pub fn get(&self, w: &Word) -> (r: u32)
        ensures
            r == score_in(self.spec_entries(), w@),
    {
        let ghost ev = self.spec_entries();
        let mut score: u32 = 0;
        let mut k: usize = 0;
        while k < self.entries.len()
            invariant
                ev == self.spec_entries(),
                k <= self.entries@.len(),
                score == score_in(ev.subrange(0, k as int), w@),
            decreases self.entries@.len() - k,
        {
            assert(ev.subrange(0, k + 1).drop_last() =~= ev.subrange(0, k as int));
            if words_equal(&self.entries[k].0, w) {
                score = self.entries[k].1;
            }
            k = k + 1;
        }
        assert(ev.subrange(0, k as int) =~= ev);
        score
    }
}

/// The words of a dense crossword, both grids, rows and columns.
pub open spec fn used_words(c: QuinianCrossword) -> Seq<Seq<char>> {
    dense_entries(cells(c.grid1)) + dense_entries(cells(c.grid2))
}

/// The set of the words that a dense crossword uses.
pub fn get_all_used_words(solution: &QuinianCrossword) -> (r: WordList)
    requires
        is_square(cells(solution.grid1), solution.grid1@.len() as int),
        is_square(cells(solution.grid2), solution.grid2@.len() as int),
    ensures
        r.view_set() == used_words(*solution).to_set(),
{
    let mut words = get_all_words(&solution.grid1);
    let mut ws2 = get_all_words(&solution.grid2);
    let ghost v1 = words@;
    let ghost v2 = ws2@;
    words.append(&mut ws2);
    let ghost all = words@.map_values(|w: Word| w@);
    assert(all =~= v1.map_values(|w: Word| w@) + v2.map_values(|w: Word| w@));
    let r = WordList { words };
    assert forall|w: Seq<char>| r.view_set().contains(w) == used_words(*solution).to_set().contains(w) by {
        if r.view_set().contains(w) {
            let k = choose|k: int| 0 <= k < r.words@.len() && (#[trigger] r.words@[k])@ == w;
            assert(all[k] == w);
        }
        if used_words(*solution).to_set().contains(w) {
            let k = choose|k: int| 0 <= k < all.len() && all[k] == w;
            assert(r.words@[k]@ == w);
        }
    }
    assert(r.view_set() =~= used_words(*solution).to_set());
    r
}

/// Every used word scores at least `min_freq`.
pub fn all_words_are_common(common_words: &WordScores, min_freq: u32, used_words: &WordList) -> (r: bool)
    ensures
        r == forall|w: Seq<char>| #[trigger] used_words.view_set().contains(w) ==> score_in(
            common_words.spec_entries(),
            w,
        ) >= min_freq,
{
    let mut k: usize = 0;
    while k < used_words.words.len()
        invariant
            k <= used_words.words@.len(),
            forall|j: int| 0 <= j < k ==> score_in(common_words.spec_entries(), (#[trigger] used_words.words@[j])@) >= min_freq,
        decreases used_words.words@.len() - k,
    {
        if common_words.get(&used_words.words[k]) < min_freq {
            assert(used_words.view_set().contains(used_words.words@[k as int]@));
            return false;
        }
        k = k + 1;
    }
    assert forall|w: Seq<char>| #[trigger] used_words.view_set().contains(w) implies score_in(common_words.spec_entries(), w)
        >= min_freq by {
        let j = choose|j: int| 0 <= j < used_words.words@.len() && (#[trigger] used_words.words@[j])@ == w;
    }
    true
}

/// Some used word is banned.
pub fn any_banned_words_used(banned_words: &WordList, used_words: &WordList) -> (r: bool)
    ensures
        r == exists|w: Seq<char>| #[trigger] used_words.view_set().contains(w) && banned_words.view_set().contains(w),
{
    let mut k: usize = 0;
    while k < used_words.words.len()
        invariant
            k <= used_words.words@.len(),
            forall|j: int| 0 <= j < k ==> !banned_words.view_set().contains((#[trigger] used_words.words@[j])@),
        decreases used_words.words@.len() - k,
    {
        if banned_words.contains(&used_words.words[k]) {
            assert(used_words.view_set().contains(used_words.words@[k as int]@));
            return true;
        }
        k = k + 1;
    }
    assert forall|w: Seq<char>| #[trigger] used_words.view_set().contains(w) implies !banned_words.view_set().contains(w) by {
        let j = choose|j: int| 0 <= j < used_words.words@.len() && (#[trigger] used_words.words@[j])@ == w;
    }
    false
}

/// Which crosswords to show.
pub struct FilterOptions {
    /// Show only crosswords whose words are all used at least this often.
    pub used_on_wiki_n_times: Option<u32>,
    /// Leave out crosswords that use a banned word.
    pub exclude_banned_words: bool,
}

/// Whether a crossword passes the filters: where a minimum frequency is set,
/// every word it uses is that common; where banned words are excluded, it
/// uses none.
pub fn is_good_solution(
    filter_options: &FilterOptions,
    common_words: &WordScores,
    banned_words: &WordList,
    solution: &QuinianCrossword,
) -> (r: bool)
    requires
        is_square(cells(solution.grid1), solution.grid1@.len() as int),
        is_square(cells(solution.grid2), solution.grid2@.len() as int),
    ensures
        r == ((match filter_options.used_on_wiki_n_times {
            Some(m) => forall|w: Seq<char>| #[trigger] used_words(*solution).to_set().contains(w) ==> score_in(
                common_words.spec_entries(),
                w,
            ) >= m,
            None => true,
        }) && (filter_options.exclude_banned_words ==> !exists|w: Seq<char>| #[trigger] used_words(*solution).to_set().contains(w)
            && banned_words.view_set().contains(w))),
{
    let used_words = get_all_used_words(solution);
    if let Some(min_freq) = filter_options.used_on_wiki_n_times {
        if !all_words_are_common(common_words, min_freq, &used_words) {
            return false;
        }
    }
    if filter_options.exclude_banned_words {
        if any_banned_words_used(banned_words, &used_words) {
            return false;
        }
    }
    true
}

} // verus!

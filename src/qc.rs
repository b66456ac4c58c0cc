//! A found quinian crossword and what is reported with it.
use std::hash::Hash;
use std::hash::Hasher;
use vstd::prelude::*;
use crate::grid::{Grid, cells};
use crate::data::{Surface, surface_view, surface_chars};
use crate::searchers::{decimal, decimal_exec, chars_to_string};

verus! {

/// A quinian crossword: two grids of one shape and, for each entry, the
/// surface shared by the two grids' answers (absent where none is known).
#[derive(PartialEq, Eq, Hash, Clone, Debug)]
pub struct QuinianCrossword {
    /// The left hand grid.
    pub grid1: Grid,
    /// The right hand grid.
    pub grid2: Grid,
    /// The across surfaces.
    pub across_surfaces: Vec<Option<String>>,
    /// The down surfaces.
    pub down_surfaces: Vec<Option<String>>,
}

/// The view of a list of optional surfaces.
pub open spec fn surfaces_view(s: Seq<Option<Surface>>) -> Seq<Option<Seq<char>>> {
    s.map_values(|o: Option<Surface>| surface_view(o))
}

/// The view of a crossword: its two grids, across surfaces and down surfaces.
pub type CrosswordView = (Seq<Seq<char>>, Seq<Seq<char>>, Seq<Option<Seq<char>>>, Seq<Option<Seq<char>>>);

impl QuinianCrossword {
    /// The crossword's grids and surfaces as sequences.
    pub open spec fn spec_view(&self) -> CrosswordView {
        (cells(self.grid1), cells(self.grid2), surfaces_view(self.across_surfaces@), surfaces_view(self.down_surfaces@))
    }
}

/// A crossword accepted by a search, with its type and the number of its
/// entries that have no shared surface.
pub struct FoundCrossword {
    /// The crossword.
    pub crossword: QuinianCrossword,
    /// The name of the crossword's type, such as `dense3`.
    pub crossword_type: String,
    /// How many across entries lack a shared surface.
    pub missing_surfaces: usize,
}

/// The view of a found crossword.
pub type FoundView = (CrosswordView, Seq<char>, nat);

impl FoundCrossword {
    /// The found crossword as sequences and numbers.
    pub open spec fn spec_view(&self) -> FoundView {
        (self.crossword.spec_view(), self.crossword_type@, self.missing_surfaces as nat)
    }
}

/// The views of a list of found crosswords.
pub open spec fn found_view(f: Seq<FoundCrossword>) -> Seq<FoundView> {
    f.map_values(|x: FoundCrossword| x.spec_view())
}

/// Copy a list of optional surfaces.
pub fn copy_surfaces(s: &Vec<Option<Surface>>) -> (r: Vec<Option<Surface>>)
    ensures
        surfaces_view(r@) == surfaces_view(s@),
{
    let mut r: Vec<Option<Surface>> = Vec::new();
    let mut i: usize = 0;
    while i < s.len()
        invariant
            i <= s@.len(),
            r@.len() == i,
            forall|k: int| 0 <= k < i ==> surface_view(#[trigger] r@[k]) == surface_view(s@[k]),
        decreases s@.len() - i,
    {
        let o: Option<Surface> = match &s[i] {
            Some(t) => Some(t.clone()),
            None => None,
        };
        r.push(o);
        i = i + 1;
    }
    assert(surfaces_view(r@) =~= surfaces_view(s@));
    r
}


/// The rows of a grid, each preceded by its length and a colon and followed
/// by a line break.
pub open spec fn rows_text(rows: Seq<Seq<char>>) -> Seq<char>
    decreases rows.len(),
{
    if rows.len() == 0 {
        Seq::empty()
    } else {
        rows_text(rows.drop_last()) + decimal(rows.last().len()) + seq![':'] + rows.last() + seq!['\n']
    }
}

/// One surface as a line: `+`, its length, a colon and the surface, or `-`
/// where it is absent.
pub open spec fn surface_line(s: Option<Seq<char>>) -> Seq<char> {
    match s {
        Some(t) => seq!['+'] + decimal(t.len()) + seq![':'] + t + seq!['\n'],
        None => seq!['-', '\n'],
    }
}

/// The surfaces, one line each.
pub open spec fn surfaces_text(ss: Seq<Option<Seq<char>>>) -> Seq<char>
    decreases ss.len(),
{
    if ss.len() == 0 {
        Seq::empty()
    } else {
        surfaces_text(ss.drop_last()) + surface_line(ss.last())
    }
}

/// The text of a crossword that its hash is taken of: both grids and both
/// surface lists, separated by `|`.
pub open spec fn crossword_text(v: CrosswordView) -> Seq<char> {
    rows_text(v.0) + seq!['|'] + rows_text(v.1) + seq!['|'] + surfaces_text(v.2) + seq!['|'] + surfaces_text(v.3)
}

/// What std's `DefaultHasher` gives for a sequence of characters.
pub uninterp spec fn text_hash(s: Seq<char>) -> u64;

/// Relies on std's `DefaultHasher`: one made by `new` hashes the characters
/// of the text to the same 64 bits on every call.
#[verifier::external_body]
fn hash_text(text: &Vec<char>) -> (r: u64)
    ensures
        r == text_hash(text@),
{
    let mut hasher = std::collections::hash_map::DefaultHasher::new();
    text.hash(&mut hasher);
    hasher.finish()
}

fn append_rows(text: &mut Vec<char>, g: &Grid)
    ensures
        final(text)@ == old(text)@ + rows_text(cells(*g)),
{
    let ghost start = text@;
    let mut r: usize = 0;
    while r < g.len()
        invariant
            r <= g@.len(),
            text@ == start + rows_text(cells(*g).subrange(0, r as int)),
        decreases g@.len() - r,
    {
        let mut row = crate::grid::copy_word(&g[r]);
        let mut length = decimal_exec(g[r].len());
        text.append(&mut length);
        text.push(':');
        text.append(&mut row);
        text.push('\n');
        assert(cells(*g).subrange(0, r + 1).drop_last() =~= cells(*g).subrange(0, r as int));
        assert(text@ =~= start + rows_text(cells(*g).subrange(0, r + 1)));
        r = r + 1;
    }
    assert(cells(*g).subrange(0, r as int) =~= cells(*g));
}

fn append_surfaces(text: &mut Vec<char>, ss: &Vec<Option<Surface>>)
    ensures
        final(text)@ == old(text)@ + surfaces_text(surfaces_view(ss@)),
{
    let ghost start = text@;
    let ghost sv = surfaces_view(ss@);
    let mut k: usize = 0;
    while k < ss.len()
        invariant
            sv == surfaces_view(ss@),
            k <= ss@.len(),
            text@ == start + surfaces_text(sv.subrange(0, k as int)),
        decreases ss@.len() - k,
    {
        match &ss[k] {
            Some(t) => {
                text.push('+');
                let mut cs = surface_chars(t);
                let mut length = decimal_exec(cs.len());
                text.append(&mut length);
                text.push(':');
                text.append(&mut cs);
            },
            None => {
                text.push('-');
            },
        }
        text.push('\n');
        assert(sv.subrange(0, k + 1).drop_last() =~= sv.subrange(0, k as int));
        assert(text@ =~= start + surfaces_text(sv.subrange(0, k + 1)));
        k = k + 1;
    }
    assert(sv.subrange(0, k as int) =~= sv);
}

/// The text of a crossword that its hash is taken of.
pub fn crossword_text_exec(crossword: &QuinianCrossword) -> (r: Vec<char>)
    ensures
        r@ == crossword_text(crossword.spec_view()),
{
    let mut text: Vec<char> = Vec::new();
    append_rows(&mut text, &crossword.grid1);
    text.push('|');
    append_rows(&mut text, &crossword.grid2);
    text.push('|');
    append_surfaces(&mut text, &crossword.across_surfaces);
    text.push('|');
    append_surfaces(&mut text, &crossword.down_surfaces);
    assert(text@ =~= crossword_text(crossword.spec_view()));
    text
}

/// A 64-bit hash of a crossword's grids and surfaces, by which a store can
/// tell results apart.
pub fn hash_crossword(crossword: &QuinianCrossword) -> (r: u64)
    ensures
        r == text_hash(crossword_text(crossword.spec_view())),
{
    let text = crossword_text_exec(crossword);
    hash_text(&text)
}

/// The text that marks a missing surface in a listing.
pub open spec fn missing_marker() -> Seq<char> {
    seq!['[', '[', 'm', 'i', 's', 's', 'i', 'n', 'g', ']', ']']
}

/// The surfaces as numbered lines: `1. surface`, with a marker where one is
/// missing.
pub open spec fn surfaces_listing(ss: Seq<Option<Seq<char>>>) -> Seq<char>
    decreases ss.len(),
{
    if ss.len() == 0 {
        Seq::empty()
    } else {
        surfaces_listing(ss.drop_last()) + decimal(ss.len()) + seq!['.', ' '] + match ss.last() {
            Some(t) => t,
            None => missing_marker(),
        } + seq!['\n']
    }
}

/// List the surfaces as numbered lines, from 1.
pub fn print_surfaces(surfaces: &Vec<Option<String>>) -> (r: String)
    ensures
        r@ == surfaces_listing(surfaces_view(surfaces@)),
{
    let ghost sv = surfaces_view(surfaces@);
    let mut text: Vec<char> = Vec::new();
    let mut k: usize = 0;
    while k < surfaces.len()
        invariant
            sv == surfaces_view(surfaces@),
            k <= surfaces@.len(),
            text@ == surfaces_listing(sv.subrange(0, k as int)),
        decreases surfaces@.len() - k,
    {
        let mut number = decimal_exec(k + 1);
        text.append(&mut number);
        text.push('.');
        text.push(' ');
        match &surfaces[k] {
            Some(t) => {
                let mut cs = surface_chars(t);
                text.append(&mut cs);
            },
            None => {
                let mut marker = vec!['[', '[', 'm', 'i', 's', 's', 'i', 'n', 'g', ']', ']'];
                assert(marker@ =~= missing_marker());
                text.append(&mut marker);
            },
        }
        text.push('\n');
        assert(sv.subrange(0, k + 1).drop_last() =~= sv.subrange(0, k as int));
        assert(text@ =~= surfaces_listing(sv.subrange(0, k + 1)));
        k = k + 1;
    }
    assert(sv.subrange(0, k as int) =~= sv);
    chars_to_string(&text)
}

} // verus!

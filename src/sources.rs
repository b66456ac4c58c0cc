//! The addresses that clues are fetched from.
use vstd::prelude::*;
use crate::data::str_chars;
use crate::searchers::chars_to_string;

verus! {

/// The address of the Guardian's quick crosswords, to which an id is added.
pub open spec fn guardian_prefix() -> Seq<char> {
    seq![
        'h', 't', 't', 'p', 's', ':', '/', '/', 'w', 'w', 'w', '.', 't', 'h', 'e', 'g', 'u', 'a', 'r', 'd', 'i', 'a',
        'n', '.', 'c', 'o', 'm', '/', 'c', 'r', 'o', 's', 's', 'w', 'o', 'r', 'd', 's', '/', 'q', 'u', 'i', 'c', 'k',
        '/',
    ]
}

/// The address of the Guardian quick crossword with the given id.
pub fn make_url(id: &str) -> (r: String)
    ensures
        r@ == guardian_prefix() + id@,
{
    let mut text = vec![
        'h', 't', 't', 'p', 's', ':', '/', '/', 'w', 'w', 'w', '.', 't', 'h', 'e', 'g', 'u', 'a', 'r', 'd', 'i', 'a',
        'n', '.', 'c', 'o', 'm', '/', 'c', 'r', 'o', 's', 's', 'w', 'o', 'r', 'd', 's', '/', 'q', 'u', 'i', 'c', 'k',
        '/',
    ];
    assert(text@ =~= guardian_prefix());
    let mut rest = str_chars(id);
    text.append(&mut rest);
    chars_to_string(&text)
}

/// A date written `MM-DD-YYYY`, with each hyphen turned into a slash.
pub open spec fn slashed(date: Seq<char>) -> Seq<char> {
    date.map_values(|c: char| if c == '-' { '/' } else { c })
}

/// Convert a date into the form that xwordinfo uses: `MM-DD-YYYY` becomes
/// `MM/DD/YYYY`.
pub fn make_xwordinfo_date(date: &str) -> (r: String)
    ensures
        r@ == slashed(date@),
{
    let cs = str_chars(date);
    let mut out: Vec<char> = Vec::new();
    let mut k: usize = 0;
    while k < cs.len()
        invariant
            k <= cs@.len(),
            cs@ == date@,
            out@ == slashed(cs@.subrange(0, k as int)),
        decreases cs@.len() - k,
    {
        let c = cs[k];
        out.push(if c == '-' { '/' } else { c });
        k = k + 1;
        assert(out@ =~= slashed(cs@.subrange(0, k as int)));
    }
    assert(cs@.subrange(0, k as int) =~= cs@);
    chars_to_string(&out)
}

} // verus!

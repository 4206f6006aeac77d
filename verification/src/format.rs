//! Title case for names such as theme names: `catppuccin-mocha` becomes
//! `Catppuccin Mocha`.

use vstd::prelude::*;
use vstd::utf8::is_ascii_chars;
use crate::pango::ascii_lower_char;
use crate::text::{chars_of, push_char};

verus! {

/// Characters that end a word; each becomes a space.
pub open spec fn is_word_separator(c: char) -> bool {
    c == '-' || c == '_' || c == ' '
}

pub open spec fn ascii_upper_char(c: char) -> char {
    if 'a' <= c && c <= 'z' {
        ((c as u8) - 32) as u8 as char
    } else {
        c
    }
}

/// Whether `s[i]` begins a word: it is the first character or follows a
/// separator.
pub open spec fn starts_word(s: Seq<char>, i: int) -> bool {
    i == 0 || is_word_separator(s[i - 1])
}

/// ASCII title case of `s`: separators become spaces, the first letter of
/// each word is upper case and every other letter lower case.
pub open spec fn ascii_title(s: Seq<char>) -> Seq<char> {
    Seq::new(
        s.len(),
        |i: int|
            if is_word_separator(s[i]) {
                ' '
            } else if starts_word(s, i) {
                ascii_upper_char(s[i])
            } else {
                ascii_lower_char(s[i])
            },
    )
}

/// The upper-case mapping of `c` as `char::to_uppercase` gives it: one or
/// more characters, from the Unicode tables.
pub uninterp spec fn uppercase_of(c: char) -> Seq<char>;

/// Calls `char::to_uppercase` and collects what it yields; the result is
/// named `uppercase_of`. The documentation promises at least one character.
#[verifier::external_body]
fn char_to_upper(c: char) -> (r: String)
    ensures
        r@ == uppercase_of(c),
        r@.len() >= 1,
{
    c.to_uppercase().collect()
}

/// What character `i` of `s` turns into in Unicode title case: an ASCII
/// first letter gets its ASCII upper case, another first character its
/// Unicode upper-case mapping.
pub open spec fn title_piece(s: Seq<char>, i: int) -> Seq<char> {
    if is_word_separator(s[i]) {
        seq![' ']
    } else if starts_word(s, i) {
        if s[i] <= '\u{7f}' {
            seq![ascii_upper_char(s[i])]
        } else {
            uppercase_of(s[i])
        }
    } else {
        seq![s[i]]
    }
}

/// Unicode title case of `s`: separators become spaces and the first
/// character of each word is replaced by its upper-case mapping; the other
/// characters stay as they are.
pub open spec fn unicode_title(s: Seq<char>) -> Seq<char> {
    Seq::new(s.len(), |i: int| title_piece(s, i)).flatten()
}

/// Why a string could not be put in title case.
#[derive(PartialEq, Eq, Structural, Clone, Copy, Debug)]
pub enum TitleCaseError {
    /// The string holds a character outside ASCII.
    NotAscii,
}

fn is_word_separator_char(c: char) -> (r: bool)
    ensures
        r == is_word_separator(c),
{
    c == '-' || c == '_' || c == ' '
}

/// Puts the ASCII string `s` in title case. A string with any non-ASCII
/// character is refused and left unchanged.
pub fn make_ascii_title_case(s: &mut String) -> (r: Result<(), TitleCaseError>)
    ensures
        is_ascii_chars(old(s)@) ==> r is Ok && final(s)@ == ascii_title(old(s)@),
        !is_ascii_chars(old(s)@) ==> r == Err::<(), TitleCaseError>(TitleCaseError::NotAscii)
            && final(s)@ == old(s)@,
{
    if !s.as_str().is_ascii() {
        return Err(TitleCaseError::NotAscii);
    }
    let cs = chars_of(s.as_str());
    let ghost src = cs@;
    let mut out = String::new();
    let mut capitalize_next = true;
    let mut i: usize = 0;
    while i < cs.len()
        invariant
            src == cs@,
            i <= cs@.len(),
            out@ == ascii_title(src).take(i as int),
            capitalize_next == (i == 0 || is_word_separator(src[i - 1])),
        decreases cs@.len() - i,
    {
        let c = cs[i];
        let d = if is_word_separator_char(c) {
            ' '
        } else if capitalize_next {
            if 'a' <= c && c <= 'z' {
                ((c as u8) - 32) as char
            } else {
                c
            }
        } else {
            if 'A' <= c && c <= 'Z' {
                ((c as u8) + 32) as char
            } else {
                c
            }
        };
        assert(d == ascii_title(src)[i as int]);
        push_char(&mut out, d);
        capitalize_next = is_word_separator_char(c);
        assert(ascii_title(src).take(i + 1) == ascii_title(src).take(i as int).push(d));
        i = i + 1;
    }
    assert(ascii_title(src).take(i as int) == ascii_title(src));
    *s = out;
    Ok(())
}

/// Puts `s` in title case: ASCII strings as `make_ascii_title_case` does,
/// others with Unicode upper-casing of each word's first character.
pub fn make_title_case(s: &mut String)
    ensures
        is_ascii_chars(old(s)@) ==> final(s)@ == ascii_title(old(s)@),
        !is_ascii_chars(old(s)@) ==> final(s)@ == unicode_title(old(s)@),
{
    if s.as_str().is_ascii() {
        let _ = make_ascii_title_case(s);
        return;
    }
    let cs = chars_of(s.as_str());
    let ghost src = cs@;
    let ghost pieces = Seq::new(src.len(), |k: int| title_piece(src, k));
    let mut out = String::new();
    let mut capitalize_next = true;
    let mut i: usize = 0;
    while i < cs.len()
        invariant
            src == cs@,
            pieces == Seq::new(src.len(), |k: int| title_piece(src, k)),
            i <= cs@.len(),
            out@ == pieces.take(i as int).flatten(),
            capitalize_next == (i == 0 || is_word_separator(src[i - 1])),
        decreases cs@.len() - i,
    {
        let c = cs[i];
        let ghost before = out@;
        if is_word_separator_char(c) {
            push_char(&mut out, ' ');
            assert(out@ == before + seq![' ']);
        } else if capitalize_next && c <= '\u{7f}' {
            let u = if 'a' <= c && c <= 'z' {
                ((c as u8) - 32) as char
            } else {
                c
            };
            push_char(&mut out, u);
            assert(out@ == before + seq![u]);
        } else if capitalize_next {
            let up = char_to_upper(c);
            let ucs = chars_of(up.as_str());
            let mut j: usize = 0;
            while j < ucs.len()
                invariant
                    j <= ucs@.len(),
                    out@ == before + ucs@.take(j as int),
                decreases ucs@.len() - j,
            {
                push_char(&mut out, ucs[j]);
                assert(ucs@.take(j + 1) == ucs@.take(j as int).push(ucs@[j as int]));
                j = j + 1;
            }
            assert(ucs@.take(j as int) == ucs@);
        } else {
            push_char(&mut out, c);
            assert(out@ == before + seq![c]);
        }
        proof {
            assert(pieces.take(i + 1) == pieces.take(i as int).push(pieces[i as int]));
            pieces.take(i as int).lemma_flatten_push(pieces[i as int]);
        }
        capitalize_next = is_word_separator_char(c);
        i = i + 1;
    }
    assert(pieces.take(i as int) == pieces);
    *s = out;
}

/// Title case is settled after one pass: putting a title-cased string in
/// title case again changes nothing.
pub proof fn law_ascii_title_idempotent(s: Seq<char>)
    ensures
        ascii_title(ascii_title(s)) == ascii_title(s),
{
    let t = ascii_title(s);
    assert forall|i: int| 0 <= i < s.len() implies is_word_separator(#[trigger] t[i])
        == is_word_separator(s[i]) by {}
    assert forall|i: int| 0 <= i < s.len() implies starts_word(t, i) == starts_word(s, i) by {
        if i > 0 {
            assert(is_word_separator(t[i - 1]) == is_word_separator(s[i - 1]));
        }
    }
    assert(ascii_title(t) =~= t);
}

} // verus!

//! Character classes and cursor helpers over a document held as characters.
use vstd::prelude::*;

verus! {

/// Whether `c` has the Unicode `Alphabetic` property.
pub uninterp spec fn alphabetic(c: char) -> bool;

/// Whether `c` is alphabetic or numeric in the Unicode sense.
pub uninterp spec fn alphanumeric(c: char) -> bool;

/// Whether `c` has the Unicode `White_Space` property.
pub uninterp spec fn whitespace(c: char) -> bool;

/// An ASCII letter.
pub open spec fn ascii_letter(c: char) -> bool {
    ('a' <= c && c <= 'z') || ('A' <= c && c <= 'Z')
}

/// An ASCII decimal digit.
pub open spec fn ascii_digit(c: char) -> bool {
    '0' <= c && c <= '9'
}

/// A letter: on the ASCII range exactly `a`-`z` and `A`-`Z`, elsewhere the
/// Unicode `Alphabetic` property.
pub open spec fn alpha_char(c: char) -> bool {
    if (c as u32) < 128 {
        ascii_letter(c)
    } else {
        alphabetic(c)
    }
}

/// A letter or digit: on the ASCII range exactly the letters and `0`-`9`,
/// elsewhere alphabetic or numeric in the Unicode sense.
pub open spec fn alnum_char(c: char) -> bool {
    if (c as u32) < 128 {
        ascii_letter(c) || ascii_digit(c)
    } else {
        alphanumeric(c)
    }
}

/// Whitespace: on the ASCII range exactly space and the controls tab to
/// carriage return, elsewhere the Unicode `White_Space` property.
pub open spec fn space_char(c: char) -> bool {
    if (c as u32) < 128 {
        c == ' ' || (9 <= (c as u32) && (c as u32) <= 13)
    } else {
        whitespace(c)
    }
}

/// Relies on `char::is_alphabetic`: a function of the character alone, true
/// on the ASCII range exactly for the letters.
#[verifier::external_body]
pub(crate) fn is_alphabetic(c: char) -> (r: bool)
    ensures
        r == (if (c as u32) < 128 {
            ascii_letter(c)
        } else {
            alphabetic(c)
        }),
{
    c.is_alphabetic()
}

/// Relies on `char::is_alphanumeric`: a function of the character alone,
/// true on the ASCII range exactly for the letters and digits.
#[verifier::external_body]
pub(crate) fn is_alphanumeric(c: char) -> (r: bool)
    ensures
        r == (if (c as u32) < 128 {
            ascii_letter(c) || ascii_digit(c)
        } else {
            alphanumeric(c)
        }),
{
    c.is_alphanumeric()
}

/// Relies on `char::is_whitespace`: a function of the character alone, true
/// on the ASCII range exactly for space and the controls tab to carriage return.
#[verifier::external_body]
pub(crate) fn is_whitespace(c: char) -> (r: bool)
    ensures
        r == (if (c as u32) < 128 {
            c == ' ' || (9 <= (c as u32) && (c as u32) <= 13)
        } else {
            whitespace(c)
        }),
{
    c.is_whitespace()
}

/// Relies on `String::push`: appends one character.
#[verifier::external_body]
pub(crate) fn push_char(s: &mut String, c: char)
    ensures
        final(s)@ == old(s)@.push(c),
{
    s.push(c)
}

/// The characters of `s`, in order.
pub fn chars_of(s: &str) -> (r: Vec<char>)
    ensures
        r@ == s@,
{
    broadcast use vstd::string::axiom_spec_iter;

    let mut r: Vec<char> = Vec::new();
    for c in it: s.chars()
        invariant
            it.seq() == s@,
            r@ == it.seq().take(it.index() as int),
    {
        r.push(c);
    }
    assert(r@ =~= s@);
    r
}

/// The first position at or after `i` that does not hold whitespace.
pub open spec fn skip_ws(s: Seq<char>, i: int) -> int
    decreases s.len() - i,
{
    if 0 <= i < s.len() && space_char(s[i]) {
        skip_ws(s, i + 1)
    } else {
        i
    }
}

/// The end of the run of alphabetic characters that starts at `i`.
pub open spec fn alpha_end(s: Seq<char>, i: int) -> int
    decreases s.len() - i,
{
    if 0 <= i < s.len() && alpha_char(s[i]) {
        alpha_end(s, i + 1)
    } else {
        i
    }
}

/// The end of the run of alphanumeric characters that starts at `i`.
pub open spec fn alnum_end(s: Seq<char>, i: int) -> int
    decreases s.len() - i,
{
    if 0 <= i < s.len() && alnum_char(s[i]) {
        alnum_end(s, i + 1)
    } else {
        i
    }
}

/// Skipping whitespace stays within the text and stops at a character that
/// is not whitespace, or at the end.
pub proof fn lemma_skip_ws_bounds(s: Seq<char>, i: int)
    requires
        0 <= i <= s.len(),
    ensures
        i <= skip_ws(s, i) <= s.len(),
        skip_ws(s, i) < s.len() ==> !space_char(s[skip_ws(s, i)]),
    decreases s.len() - i,
{
    if i < s.len() && space_char(s[i]) {
        lemma_skip_ws_bounds(s, i + 1);
    }
}

/// A run of letters ends at or after its start.
pub proof fn lemma_alpha_end_from(s: Seq<char>, i: int)
    ensures
        i <= alpha_end(s, i),
    decreases s.len() - i,
{
    if 0 <= i < s.len() && alpha_char(s[i]) {
        lemma_alpha_end_from(s, i + 1);
    }
}

/// A run of letters and digits ends at or after its start.
pub proof fn lemma_alnum_end_from(s: Seq<char>, i: int)
    ensures
        i <= alnum_end(s, i),
    decreases s.len() - i,
{
    if 0 <= i < s.len() && alnum_char(s[i]) {
        lemma_alnum_end_from(s, i + 1);
    }
}

/// Skips whitespace from `i` on.
pub fn skip_whitespace(s: &Vec<char>, i: usize) -> (r: usize)
    requires
        i <= s@.len(),
    ensures
        r == skip_ws(s@, i as int),
        i <= r <= s@.len(),
{
    let mut j = i;
    while j < s.len() && is_whitespace(s[j])
        invariant
            i <= j <= s@.len(),
            skip_ws(s@, i as int) == skip_ws(s@, j as int),
        decreases s@.len() - j,
    {
        j = j + 1;
    }
    j
}

/// Reads the alphabetic run from `i` on into a string; returns it and its end.
pub fn read_alphabetic(s: &Vec<char>, i: usize) -> (r: (String, usize))
    requires
        i <= s@.len(),
    ensures
        r.1 == alpha_end(s@, i as int),
        i <= r.1 <= s@.len(),
        r.0@ == s@.subrange(i as int, r.1 as int),
{
    let mut out = String::new();
    let mut j = i;
    while j < s.len() && is_alphabetic(s[j])
        invariant
            i <= j <= s@.len(),
            alpha_end(s@, i as int) == alpha_end(s@, j as int),
            out@ == s@.subrange(i as int, j as int),
        decreases s@.len() - j,
    {
        push_char(&mut out, s[j]);
        j = j + 1;
        assert(out@ =~= s@.subrange(i as int, j as int));
    }
    (out, j)
}

/// Reads the alphanumeric run from `i` on into a string; returns it and its end.
pub fn read_alphanumeric(s: &Vec<char>, i: usize) -> (r: (String, usize))
    requires
        i <= s@.len(),
    ensures
        r.1 == alnum_end(s@, i as int),
        i <= r.1 <= s@.len(),
        r.0@ == s@.subrange(i as int, r.1 as int),
{
    let mut out = String::new();
    let mut j = i;
    while j < s.len() && is_alphanumeric(s[j])
        invariant
            i <= j <= s@.len(),
            alnum_end(s@, i as int) == alnum_end(s@, j as int),
            out@ == s@.subrange(i as int, j as int),
        decreases s@.len() - j,
    {
        push_char(&mut out, s[j]);
        j = j + 1;
        assert(out@ =~= s@.subrange(i as int, j as int));
    }
    (out, j)
}

} // verus!

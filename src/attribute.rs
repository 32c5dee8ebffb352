//! Reading one `key` or `key=value` attribute inside a tag.
use vstd::prelude::*;

use crate::error::{ErrorView, ParseError};
use crate::text::{
    alnum_end, alpha_end, chars_of, push_char, read_alphabetic, read_alphanumeric,
    skip_whitespace, skip_ws,
};

verus! {

/// An attribute of a tag: an alphabetic key and, after `=`, an optional
/// alphanumeric value.
#[derive(Debug, PartialEq, Clone)]
pub struct Attribute {
    pub key: String,
    pub value: Option<String>,
}

/// The mathematical value of an attribute: key and value as character sequences.
pub type AttributeView = (Seq<char>, Option<Seq<char>>);

/// The character sequence of an optional string.
pub open spec fn opt_view(v: Option<String>) -> Option<Seq<char>> {
    match v {
        Some(s) => Some(s@),
        None => None,
    }
}

impl View for Attribute {
    type V = AttributeView;

    open spec fn view(&self) -> AttributeView {
        (self.key@, opt_view(self.value))
    }
}

/// How a tag goes on after one attribute, with the rest of the input `R`
/// (the remaining text, or a position in it).
#[derive(Debug, PartialEq)]
pub enum AttributeEnding<R> {
    /// A space follows the attribute; more attributes may follow.
    Unfinished((Attribute, R)),
    /// The tag ends with `/>`.
    SelfClosing((Attribute, R)),
    /// The tag ends with `>` and waits for a closing tag.
    RequiresClosing((Attribute, R)),
    /// Nothing but whitespace was left: no attribute text remained.
    End,
}

/// Which way a tag goes on after an attribute.
pub enum Ending {
    Unfinished,
    SelfClosing,
    RequiresClosing,
}

/// What the attribute tokenizer reads at a position: an attribute with the
/// way the tag goes on and the position after it, or, where only whitespace
/// is left, the end.
pub enum AttrScan {
    Step { ending: Ending, attr: AttributeView, next: int },
    End,
}

/// What the tokenizer makes of the character at `k` that ends an attribute
/// `attr`; the input may not end there.
pub open spec fn attr_close(s: Seq<char>, attr: AttributeView, k: int) -> Result<AttrScan, ErrorView> {
    if k >= s.len() {
        Err(ErrorView::UnexpectedEndOfInput)
    } else if s[k] == ' ' {
        Ok(AttrScan::Step { ending: Ending::Unfinished, attr, next: k + 1 })
    } else if s[k] == '/' {
        if k + 1 < s.len() && s[k + 1] == '>' {
            Ok(AttrScan::Step { ending: Ending::SelfClosing, attr, next: k + 2 })
        } else {
            Err(ErrorView::MalformedSelfClose)
        }
    } else if s[k] == '>' {
        Ok(AttrScan::Step { ending: Ending::RequiresClosing, attr, next: k + 1 })
    } else {
        Err(ErrorView::InvalidSymbol(s[k]))
    }
}

/// The attribute tokenizer: the end if only whitespace is left; else, after
/// leading whitespace, an alphabetic key, then either `=` and an alphanumeric
/// value, or nothing; then a space, `/>` or `>`. An `=` with no key before
/// it is an invalid symbol; input that ends before the tag does is an error.
pub open spec fn attr_scan(s: Seq<char>, i: int) -> Result<AttrScan, ErrorView> {
    let q = skip_ws(s, i);
    let k = alpha_end(s, q);
    if q >= s.len() {
        Ok(AttrScan::End)
    } else if k < s.len() && s[k] == '=' {
        if k == q {
            Err(ErrorView::InvalidSymbol('='))
        } else {
            let v = alnum_end(s, k + 1);
            attr_close(s, (s.subrange(q, k), Some(s.subrange(k + 1, v))), v)
        }
    } else {
        attr_close(s, (s.subrange(q, k), None), k)
    }
}

/// The view of a tokenizer result whose rest is a position.
pub open spec fn ending_view(e: AttributeEnding<usize>) -> AttrScan {
    match e {
        AttributeEnding::Unfinished((a, n)) => AttrScan::Step {
            ending: Ending::Unfinished,
            attr: a@,
            next: n as int,
        },
        AttributeEnding::SelfClosing((a, n)) => AttrScan::Step {
            ending: Ending::SelfClosing,
            attr: a@,
            next: n as int,
        },
        AttributeEnding::RequiresClosing((a, n)) => AttrScan::Step {
            ending: Ending::RequiresClosing,
            attr: a@,
            next: n as int,
        },
        AttributeEnding::End => AttrScan::End,
    }
}

/// The view of a tokenizer result whose rest is text.
pub open spec fn ending_text_view(e: AttributeEnding<&str>) -> (AttrScan, Seq<char>) {
    match e {
        AttributeEnding::Unfinished((a, r)) => (
            AttrScan::Step { ending: Ending::Unfinished, attr: a@, next: 0 },
            r@,
        ),
        AttributeEnding::SelfClosing((a, r)) => (
            AttrScan::Step { ending: Ending::SelfClosing, attr: a@, next: 0 },
            r@,
        ),
        AttributeEnding::RequiresClosing((a, r)) => (
            AttrScan::Step { ending: Ending::RequiresClosing, attr: a@, next: 0 },
            r@,
        ),
        AttributeEnding::End => (AttrScan::End, Seq::empty()),
    }
}

/// Ends the attribute `attr` at the character at `k`.
fn finish_attribute(s: &Vec<char>, attr: Attribute, k: usize) -> (r: Result<AttributeEnding<usize>, ParseError>)
    requires
        k <= s@.len(),
    ensures
        result_matches(r, attr_close(s@, attr@, k as int)),
        r matches Ok(e) ==> !(e is End) && next_of(e) > k && next_of(e) <= s@.len(),
{
    if k >= s.len() {
        Err(ParseError::UnexpectedEndOfInput)
    } else if s[k] == ' ' {
        Ok(AttributeEnding::Unfinished((attr, k + 1)))
    } else if s[k] == '/' {
        if k + 1 < s.len() && s[k + 1] == '>' {
            Ok(AttributeEnding::SelfClosing((attr, k + 2)))
        } else {
            Err(ParseError::MalformedSelfClose)
        }
    } else if s[k] == '>' {
        Ok(AttributeEnding::RequiresClosing((attr, k + 1)))
    } else {
        Err(ParseError::InvalidSymbol(s[k]))
    }
}

/// The position after a step of the tokenizer (0 at the end of the input).
pub open spec fn next_of(e: AttributeEnding<usize>) -> int {
    match e {
        AttributeEnding::Unfinished((_, n)) => n as int,
        AttributeEnding::SelfClosing((_, n)) => n as int,
        AttributeEnding::RequiresClosing((_, n)) => n as int,
        AttributeEnding::End => 0,
    }
}

/// Whether an executable tokenizer result agrees with its mathematical one.
pub open spec fn result_matches(r: Result<AttributeEnding<usize>, ParseError>, m: Result<AttrScan, ErrorView>) -> bool {
    match r {
        Ok(e) => m == Ok::<AttrScan, ErrorView>(ending_view(e)),
        Err(e) => m == Err::<AttrScan, ErrorView>(e@),
    }
}

/// Reads one attribute of the document `s` at position `i`.
pub fn scan_attribute(s: &Vec<char>, i: usize) -> (r: Result<AttributeEnding<usize>, ParseError>)
    requires
        i <= s@.len(),
    ensures
        result_matches(r, attr_scan(s@, i as int)),
        r matches Ok(e) ==> (e is End || (next_of(e) > i && next_of(e) <= s@.len())),
{
    let q = skip_whitespace(s, i);
    if q >= s.len() {
        return Ok(AttributeEnding::End);
    }
    let (key, k) = read_alphabetic(s, q);
    if k < s.len() && s[k] == '=' {
        if k == q {
            Err(ParseError::InvalidSymbol('='))
        } else {
            let (value, v) = read_alphanumeric(s, k + 1);
            finish_attribute(s, Attribute { key, value: Some(value) }, v)
        }
    } else {
        finish_attribute(s, Attribute { key, value: None }, k)
    }
}

/// The text of an attribute: `(key)`, or `(key, value)` when it has a value.
pub open spec fn attr_text(a: AttributeView) -> Seq<char> {
    seq!['('] + a.0 + match a.1 {
        Some(v) => seq![',', ' '] + v,
        None => Seq::empty(),
    } + seq![')']
}

impl Attribute {
    /// The attribute as text: `(key)`, or `(key, value)`.
    pub fn to_string(&self) -> (r: String)
        ensures
            r@ == attr_text(self@),
    {
        let mut res = String::new();
        push_char(&mut res, '(');
        res.append(self.key.as_str());
        match &self.value {
            Some(val) => {
                push_char(&mut res, ',');
                push_char(&mut res, ' ');
                res.append(val.as_str());
            },
            None => {},
        }
        push_char(&mut res, ')');
        assert(res@ =~= attr_text(self@));
        res
    }


    /// Whether the attribute has neither key nor value.
    pub fn is_empty(&self) -> (r: bool)
        ensures
            r == (self.key@.len() == 0 && self.value is None),
    {
        self.key.as_str().is_empty() && self.value.is_none()
    }

    /// Reads one attribute from `input` and says how the tag goes on, with
    /// the text after what was read.
    pub fn parse<'a>(input: &'a str) -> (r: Result<AttributeEnding<&'a str>, ParseError>)
        ensures
            match (r, attr_scan(input@, 0)) {
                (Ok(e), Ok(AttrScan::Step { ending, attr, next })) => ending_text_view(e) == (
                    AttrScan::Step { ending, attr, next: 0 },
                    input@.subrange(next, input@.len() as int),
                ),
                (Ok(e), Ok(AttrScan::End)) => e is End,
                (Err(e), Err(m)) => e@ == m,
                _ => false,
            },
    {
        let s = chars_of(input);
        match scan_attribute(&s, 0) {
            Ok(AttributeEnding::Unfinished((a, n))) => Ok(
                AttributeEnding::Unfinished((a, input.substring_char(n, s.len()))),
            ),
            Ok(AttributeEnding::SelfClosing((a, n))) => Ok(
                AttributeEnding::SelfClosing((a, input.substring_char(n, s.len()))),
            ),
            Ok(AttributeEnding::RequiresClosing((a, n))) => Ok(
                AttributeEnding::RequiresClosing((a, input.substring_char(n, s.len()))),
            ),
            Ok(AttributeEnding::End) => Ok(AttributeEnding::End),
            Err(e) => Err(e),
        }
    }
}

} // verus!

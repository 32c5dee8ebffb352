//! Reading one tag: `<name ...>`, `<name .../>` or `</name>`.
use vstd::prelude::*;

use crate::attribute::{
    attr_scan, scan_attribute, AttrScan, Attribute, AttributeEnding, AttributeView, Ending,
};
use crate::error::{ErrorView, ParseError};
use crate::text::{alpha_end, chars_of, read_alphabetic, skip_whitespace, skip_ws};

verus! {

/// A node of the element arena: its id (its index in the arena), its name,
/// its attributes in document order, its parent, its nesting depth (1 for
/// the root) and the ids of its children in document order.
#[derive(Debug, PartialEq, Clone)]
pub struct Element {
    pub id: usize,
    pub name: String,
    pub attributes: Vec<Attribute>,
    pub parent_id: Option<usize>,
    pub depth: usize,
    pub children: Vec<usize>,
}

/// The mathematical value of an element.
pub struct ElementView {
    pub id: usize,
    pub name: Seq<char>,
    pub attributes: Seq<AttributeView>,
    pub parent_id: Option<usize>,
    pub depth: usize,
    pub children: Seq<usize>,
}

/// The views of a list of attributes.
pub open spec fn attributes_view(v: Seq<Attribute>) -> Seq<AttributeView> {
    v.map_values(|a: Attribute| a@)
}

impl View for Element {
    type V = ElementView;

    open spec fn view(&self) -> ElementView {
        ElementView {
            id: self.id,
            name: self.name@,
            attributes: attributes_view(self.attributes@),
            parent_id: self.parent_id,
            depth: self.depth,
            children: self.children@,
        }
    }
}

/// What one tag turned out to be, with the rest of the input `R` (the
/// remaining text, or a position in it).
#[derive(Debug, PartialEq)]
pub enum ElementState<R> {
    /// `<name ...>`: an element that waits for its closing tag.
    Opening((Element, R)),
    /// `</name>`: the element carries the name only.
    Closing((Element, R)),
    /// `<name .../>`: an element without children.
    SelfClosing((Element, R)),
}

/// A tag as read from the text, with the position after it.
pub enum TagScan {
    Open { name: Seq<char>, attributes: Seq<AttributeView>, next: int },
    SelfClose { name: Seq<char>, attributes: Seq<AttributeView>, next: int },
    Close { name: Seq<char>, next: int },
}

/// Whether an attribute carries neither key nor value.
pub open spec fn attr_is_empty(a: AttributeView) -> bool {
    a.0.len() == 0 && a.1 is None
}

/// `acc` with `a` appended unless `a` is empty.
pub open spec fn keep(acc: Seq<AttributeView>, a: AttributeView) -> Seq<AttributeView> {
    if attr_is_empty(a) {
        acc
    } else {
        acc.push(a)
    }
}

/// The attributes of a tag from position `i` on, after those in `acc`: the
/// tokenizer is run until the tag ends; empty attributes are left out.
pub open spec fn attrs_from(s: Seq<char>, name: Seq<char>, i: int, acc: Seq<AttributeView>) -> Result<TagScan, ErrorView>
    decreases s.len() - i,
{
    match attr_scan(s, i) {
        Err(e) => Err(e),
        Ok(AttrScan::End) => Err(ErrorView::UnexpectedEndOfInput),
        Ok(AttrScan::Step { ending, attr, next }) => match ending {
            Ending::Unfinished => if i < next {
                attrs_from(s, name, next, keep(acc, attr))
            } else {
                Err(ErrorView::UnexpectedEndOfInput)
            },
            Ending::SelfClosing => Ok(
                TagScan::SelfClose { name, attributes: keep(acc, attr), next },
            ),
            Ending::RequiresClosing => Ok(TagScan::Open { name, attributes: keep(acc, attr), next }),
        },
    }
}

/// The tag parser at position `p`: after leading whitespace a `<`; then
/// either `/`, an alphabetic name and `>`; or an alphabetic name ended by a
/// space, `/` or `>`, followed by attributes up to `/>` or `>`. Input that
/// ends before the tag does is an error.
pub open spec fn tag_at(s: Seq<char>, p: int) -> Result<TagScan, ErrorView> {
    let q = skip_ws(s, p);
    if q >= s.len() || s[q] != '<' {
        Err(ErrorView::ExpectedOpenAngle)
    } else if q + 1 >= s.len() {
        Err(ErrorView::UnexpectedEndOfInput)
    } else if s[q + 1] == '/' {
        let e = alpha_end(s, q + 2);
        if e >= s.len() {
            Err(ErrorView::UnexpectedEndOfInput)
        } else if s[e] != '>' {
            Err(ErrorView::InvalidNameCharacter(s[e]))
        } else if e == q + 2 {
            Err(ErrorView::EmptyTagName)
        } else {
            Ok(TagScan::Close { name: s.subrange(q + 2, e), next: e + 1 })
        }
    } else {
        let e = alpha_end(s, q + 1);
        if e >= s.len() {
            Err(ErrorView::UnexpectedEndOfInput)
        } else if !(s[e] == ' ' || s[e] == '/' || s[e] == '>') {
            Err(ErrorView::InvalidNameCharacter(s[e]))
        } else if e == q + 1 {
            Err(ErrorView::EmptyTagName)
        } else {
            attrs_from(s, s.subrange(q + 1, e), e, Seq::empty())
        }
    }
}

/// Whether `e` is a fresh element with id `id` and name `name`: no
/// parent, depth 0, no children.
pub open spec fn is_stub(e: Element, id: usize, name: Seq<char>) -> bool {
    &&& e.id == id
    &&& e.name@ == name
    &&& e.parent_id is None
    &&& e.depth == 0
    &&& e.children@.len() == 0
}

/// Whether an executable tag result agrees with the mathematical one, its
/// element being a stub with id `id`.
pub open spec fn tag_matches(r: Result<ElementState<usize>, ParseError>, id: usize, m: Result<TagScan, ErrorView>) -> bool {
    match r {
        Err(e) => m == Err::<TagScan, ErrorView>(e@),
        Ok(ElementState::Opening((el, n))) => {
            &&& is_stub(el, id, el.name@)
            &&& m == Ok::<TagScan, ErrorView>(
                TagScan::Open { name: el.name@, attributes: el@.attributes, next: n as int },
            )
        },
        Ok(ElementState::SelfClosing((el, n))) => {
            &&& is_stub(el, id, el.name@)
            &&& m == Ok::<TagScan, ErrorView>(
                TagScan::SelfClose { name: el.name@, attributes: el@.attributes, next: n as int },
            )
        },
        Ok(ElementState::Closing((el, n))) => {
            &&& is_stub(el, id, el.name@)
            &&& el.attributes@.len() == 0
            &&& m == Ok::<TagScan, ErrorView>(TagScan::Close { name: el.name@, next: n as int })
        },
    }
}

/// Reads the attributes of a tag from position `i` on, for the element
/// `stub` whose attributes so far are those before `i`.
fn scan_attributes(s: &Vec<char>, stub: Element, i: usize) -> (r: Result<ElementState<usize>, ParseError>)
    requires
        i <= s@.len(),
        stub.children@.len() == 0,
        stub.parent_id is None,
        stub.depth == 0,
    ensures
        tag_matches(r, stub.id, attrs_from(s@, stub.name@, i as int, stub@.attributes)),
        r matches Ok(ElementState::Opening((_, n))) ==> i < n <= s@.len(),
        r matches Ok(ElementState::SelfClosing((_, n))) ==> i < n <= s@.len(),
        r matches Ok(st) ==> !(st is Closing),
{
    let ghost name = stub.name@;
    let ghost id = stub.id;
    let ghost attrs0 = stub@.attributes;
    let mut element = stub;
    let mut j = i;
    loop
        invariant
            i <= j <= s@.len(),
            name == stub.name@,
            id == stub.id,
            attrs0 == stub@.attributes,
            is_stub(element, id, name),
            attrs_from(s@, name, i as int, attrs0) == attrs_from(s@, name, j as int, element@.attributes),
        decreases s@.len() - j,
    {
        let r = scan_attribute(s, j);
        match r {
            Err(e) => {
                return Err(e);
            },
            Ok(AttributeEnding::End) => {
                return Err(ParseError::UnexpectedEndOfInput);
            },
            Ok(AttributeEnding::Unfinished((attribute, n))) => {
                add_attribute(&mut element, attribute);
                j = n;
            },
            Ok(AttributeEnding::SelfClosing((attribute, n))) => {
                add_attribute(&mut element, attribute);
                return Ok(ElementState::SelfClosing((element, n)));
            },
            Ok(AttributeEnding::RequiresClosing((attribute, n))) => {
                add_attribute(&mut element, attribute);
                return Ok(ElementState::Opening((element, n)));
            },
        }
    }
}

/// Appends `attribute` to the element's attributes unless it is empty.
fn add_attribute(element: &mut Element, attribute: Attribute)
    ensures
        final(element)@.attributes == keep(old(element)@.attributes, attribute@),
        final(element).id == old(element).id,
        final(element).name == old(element).name,
        final(element).parent_id == old(element).parent_id,
        final(element).depth == old(element).depth,
        final(element).children == old(element).children,
{
    if !attribute.is_empty() {
        let ghost a = attribute@;
        element.attributes.push(attribute);
        assert(final(element)@.attributes =~= old(element)@.attributes.push(a));
    }
}

/// Reads the tag of the document `s` at position `p`; its element, a stub,
/// gets the id `id`.
pub fn scan_tag(s: &Vec<char>, id: usize, p: usize) -> (r: Result<ElementState<usize>, ParseError>)
    requires
        p <= s@.len(),
    ensures
        tag_matches(r, id, tag_at(s@, p as int)),
        r matches Ok(ElementState::Opening((_, n))) ==> p < n <= s@.len(),
        r matches Ok(ElementState::SelfClosing((_, n))) ==> p < n <= s@.len(),
        r matches Ok(ElementState::Closing((_, n))) ==> p < n <= s@.len(),
{
    let q = skip_whitespace(s, p);
    if q >= s.len() || s[q] != '<' {
        return Err(ParseError::ExpectedOpenAngle);
    }
    if q + 1 >= s.len() {
        return Err(ParseError::UnexpectedEndOfInput);
    }
    let closing = s[q + 1] == '/';
    let start = if closing { q + 2 } else { q + 1 };
    let (name, e) = read_alphabetic(s, start);
    if e >= s.len() {
        return Err(ParseError::UnexpectedEndOfInput);
    }
    let c = s[e];
    if closing && c != '>' || !closing && !(c == ' ' || c == '/' || c == '>') {
        return Err(ParseError::InvalidNameCharacter(c));
    }
    if e == start {
        return Err(ParseError::EmptyTagName);
    }
    let mut element = Element::new();
    element.id = id;
    element.name = name;
    assert(element@.attributes =~= Seq::<AttributeView>::empty());
    if closing {
        Ok(ElementState::Closing((element, e + 1)))
    } else {
        scan_attributes(s, element, e)
    }
}

impl Element {
    /// An element with empty name, no attributes, no parent, no children,
    /// id 0 and depth 0.
    pub fn new() -> (r: Element)
        ensures
            is_stub(r, 0, Seq::empty()),
            r.attributes@.len() == 0,
    {
        Element {
            id: 0,
            name: String::new(),
            attributes: Vec::new(),
            parent_id: None,
            depth: 0,
            children: Vec::new(),
        }
    }

    /// Reads one tag from `input`; its element gets the id `id`. Gives the
    /// text after the tag.
    pub fn parse<'a>(id: usize, input: &'a str) -> (r: Result<ElementState<&'a str>, ParseError>)
        ensures
            match (r, tag_at(input@, 0)) {
                (Err(e), Err(m)) => e@ == m,
                (Ok(ElementState::Opening((el, rest))), Ok(TagScan::Open { name, attributes, next })) => {
                    &&& is_stub(el, id, name)
                    &&& el@.attributes == attributes
                    &&& rest@ == input@.subrange(next, input@.len() as int)
                },
                (Ok(ElementState::SelfClosing((el, rest))), Ok(TagScan::SelfClose { name, attributes, next })) => {
                    &&& is_stub(el, id, name)
                    &&& el@.attributes == attributes
                    &&& rest@ == input@.subrange(next, input@.len() as int)
                },
                (Ok(ElementState::Closing((el, rest))), Ok(TagScan::Close { name, next })) => {
                    &&& is_stub(el, id, name)
                    &&& el.attributes@.len() == 0
                    &&& rest@ == input@.subrange(next, input@.len() as int)
                },
                _ => false,
            },
    {
        let s = chars_of(input);
        match scan_tag(&s, id, 0) {
            Ok(ElementState::Opening((el, n))) => Ok(
                ElementState::Opening((el, input.substring_char(n, s.len()))),
            ),
            Ok(ElementState::SelfClosing((el, n))) => Ok(
                ElementState::SelfClosing((el, input.substring_char(n, s.len()))),
            ),
            Ok(ElementState::Closing((el, n))) => Ok(
                ElementState::Closing((el, input.substring_char(n, s.len()))),
            ),
            Err(e) => Err(e),
        }
    }
}

} // verus!

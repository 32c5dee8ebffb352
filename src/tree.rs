//! Assembling the element tree from the tags of a document.
use vstd::prelude::*;

use crate::element::{is_stub, scan_tag, tag_at, Element, ElementState, ElementView, TagScan};
use crate::error::{strings_view, ErrorView, ParseError};
use crate::attribute::{attr_text, AttributeView};
use crate::text::{push_char, chars_of, lemma_skip_ws_bounds, skip_whitespace, skip_ws};

verus! {

/// The elements of a document in an arena: the id of an element is its
/// index in `elements`, and `root_id` is the id of the top-level element.
#[derive(Debug, PartialEq)]
pub struct ElementTree {
    pub root_id: usize,
    pub elements: Vec<Element>,
}

/// The mathematical value of an element tree.
pub struct TreeView {
    pub root_id: usize,
    pub elements: Seq<ElementView>,
}

/// The views of a list of elements.
pub open spec fn elements_view(v: Seq<Element>) -> Seq<ElementView> {
    v.map_values(|e: Element| e@)
}

impl View for ElementTree {
    type V = TreeView;

    open spec fn view(&self) -> TreeView {
        TreeView { root_id: self.root_id, elements: elements_view(self.elements@) }
    }
}

/// The tree builder's state between two tags: the arena so far and the
/// ids of the open elements, innermost last.
pub struct BuildState {
    pub elements: Seq<ElementView>,
    pub stack: Seq<usize>,
}

/// The state before the first tag.
pub open spec fn initial_state() -> BuildState {
    BuildState { elements: Seq::empty(), stack: Seq::empty() }
}

/// The element that a tag named `name` with `attributes` adds in state `st`:
/// the next id, the innermost open element as parent, one level deeper.
pub open spec fn new_element(st: BuildState, name: Seq<char>, attributes: Seq<crate::attribute::AttributeView>) -> ElementView {
    ElementView {
        id: st.elements.len() as usize,
        name,
        attributes,
        parent_id: if st.stack.len() == 0 {
            None
        } else {
            Some(st.stack.last())
        },
        depth: (st.stack.len() + 1) as usize,
        children: Seq::empty(),
    }
}

/// The arena after adding that element: it is appended, and its id is
/// appended to the children of its parent.
pub open spec fn attach(st: BuildState, name: Seq<char>, attributes: Seq<crate::attribute::AttributeView>) -> Seq<ElementView> {
    let id = st.elements.len() as usize;
    let elements = if st.stack.len() == 0 {
        st.elements
    } else {
        let p = st.stack.last() as int;
        st.elements.update(p, ElementView { children: st.elements[p].children.push(id), ..st.elements[p] })
    };
    elements.push(new_element(st, name, attributes))
}

/// One transition of the tree builder on a tag.
pub open spec fn step(st: BuildState, tag: TagScan) -> Result<BuildState, ErrorView> {
    match tag {
        TagScan::Open { name, attributes, .. } => if st.stack.len() == 0 && st.elements.len() > 0 {
            Err(ErrorView::MultipleRootElements)
        } else {
            Ok(BuildState {
                elements: attach(st, name, attributes),
                stack: st.stack.push(st.elements.len() as usize),
            })
        },
        TagScan::SelfClose { name, attributes, .. } => if st.stack.len() == 0 && st.elements.len() > 0 {
            Err(ErrorView::MultipleRootElements)
        } else {
            Ok(BuildState { elements: attach(st, name, attributes), stack: st.stack })
        },
        TagScan::Close { name, .. } => if st.stack.len() == 0 {
            Err(ErrorView::UnexpectedClosingTag(name))
        } else if st.elements[st.stack.last() as int].name != name {
            Err(ErrorView::MismatchedClosingTag { expected: st.elements[st.stack.last() as int].name, found: name })
        } else {
            Ok(BuildState { elements: st.elements, stack: st.stack.drop_last() })
        },
    }
}

/// The position after a tag.
pub open spec fn tag_next(tag: TagScan) -> int {
    match tag {
        TagScan::Open { next, .. } => next,
        TagScan::SelfClose { next, .. } => next,
        TagScan::Close { next, .. } => next,
    }
}

/// The tree builder run over the document `s` from position `p` in state
/// `st`: tag after tag until only whitespace is left, or the first error.
pub open spec fn build_from(s: Seq<char>, p: int, st: BuildState) -> Result<BuildState, ErrorView>
    decreases s.len() - p,
{
    let q = skip_ws(s, p);
    if q >= s.len() {
        Ok(st)
    } else {
        match tag_at(s, q) {
            Err(e) => Err(e),
            Ok(tag) => match step(st, tag) {
                Err(e) => Err(e),
                Ok(next_state) => if p < tag_next(tag) <= s.len() {
                    build_from(s, tag_next(tag), next_state)
                } else {
                    Ok(next_state)
                },
            },
        }
    }
}

proof fn lemma_skip_ws_idem(s: Seq<char>, p: int)
    requires
        0 <= p <= s.len(),
    ensures
        skip_ws(s, skip_ws(s, p)) == skip_ws(s, p),
{
    lemma_skip_ws_bounds(s, p);
}

/// The names of the open elements, innermost first.
pub open spec fn open_names(st: BuildState) -> Seq<Seq<char>> {
    Seq::new(st.stack.len(), |k: int| st.elements[st.stack[st.stack.len() - 1 - k] as int].name)
}

/// The end of a parse: the tree if it has a root and no element is left
/// open.
pub open spec fn finish(st: BuildState) -> Result<TreeView, ErrorView> {
    if st.stack.len() == 0 {
        if st.elements.len() == 0 {
            Err(ErrorView::UnexpectedEndOfInput)
        } else {
            Ok(TreeView { root_id: 0, elements: st.elements })
        }
    } else {
        Err(ErrorView::UnclosedTagsAtEof(open_names(st)))
    }
}

/// What parsing the document `s` gives.
pub open spec fn parse_doc(s: Seq<char>) -> Result<TreeView, ErrorView> {
    match build_from(s, 0, initial_state()) {
        Err(e) => Err(e),
        Ok(st) => finish(st),
    }
}

/// The arena's structure: ids are indices; depths are at least 1; only the
/// first element has no parent; a parent comes before its child and lists it among its children;
/// every child comes after its parent, names it as parent, and the children
/// of an element stand in increasing (document) order.
pub open spec fn arena_wf(elements: Seq<ElementView>) -> bool {
    &&& forall|i: int| 0 <= i < elements.len() ==> #[trigger] elements[i].id == i
    &&& forall|i: int| 0 <= i < elements.len() ==> #[trigger] elements[i].depth >= 1
    &&& forall|i: int| 0 <= i < elements.len() ==> (#[trigger] elements[i].parent_id is None <==> i == 0)
    &&& forall|i: int|
        0 <= i < elements.len() && #[trigger] elements[i].parent_id is Some ==> {
            let p = elements[i].parent_id->0 as int;
            p < i && elements[p].children.contains(i as usize)
        }
    &&& forall|i: int, j: int|
        0 <= i < elements.len() && 0 <= j < elements[i].children.len() ==> {
            let c = #[trigger] elements[i].children[j];
            i < c < elements.len() && elements[c as int].parent_id == Some(i as usize)
        }
    &&& forall|i: int, j: int, k: int|
        0 <= i < elements.len() && 0 <= j < k < elements[i].children.len()
            ==> #[trigger] elements[i].children[j] < #[trigger] elements[i].children[k]
}

/// The builder's state is consistent: a well-formed arena, and open
/// elements that exist in it.
pub open spec fn state_wf(st: BuildState) -> bool {
    &&& arena_wf(st.elements)
    &&& st.stack.len() <= st.elements.len()
    &&& forall|k: int| 0 <= k < st.stack.len() ==> #[trigger] st.stack[k] < st.elements.len()
}

/// A step of the builder keeps its state consistent.
pub proof fn lemma_step_wf(st: BuildState, tag: TagScan)
    requires
        state_wf(st),
        st.elements.len() < usize::MAX,
        step(st, tag) is Ok,
    ensures
        state_wf(step(st, tag)->Ok_0),
{
    match tag {
        TagScan::Open { name, attributes, .. } => {
            lemma_attach_wf(st, name, attributes);
        },
        TagScan::SelfClose { name, attributes, .. } => {
            lemma_attach_wf(st, name, attributes);
        },
        _ => {},
    }
}

/// Adding an element keeps the arena well formed.
proof fn lemma_attach_wf(st: BuildState, name: Seq<char>, attributes: Seq<crate::attribute::AttributeView>)
    requires
        state_wf(st),
        st.elements.len() < usize::MAX,
        st.stack.len() > 0 || st.elements.len() == 0,
    ensures
        arena_wf(attach(st, name, attributes)),
        attach(st, name, attributes).len() == st.elements.len() + 1,
{
    let id = st.elements.len() as usize;
    let old_e = st.elements;
    let e = attach(st, name, attributes);
    assert(e.len() == old_e.len() + 1);
    if st.stack.len() > 0 {
        let p = st.stack.last() as int;
        assert(0 <= p < old_e.len());
        assert(e[p].children == old_e[p].children.push(id));
        assert forall|i: int| 0 <= i < old_e.len() implies {
            &&& #[trigger] e[i].id == old_e[i].id
            &&& e[i].parent_id == old_e[i].parent_id
            &&& i != p ==> e[i].children == old_e[i].children
        } by {}
        assert forall|i: int| 0 <= i < e.len() && #[trigger] e[i].parent_id is Some implies {
            let q = e[i].parent_id->0 as int;
            q < i && e[q].children.contains(i as usize)
        } by {
            if i < old_e.len() {
                let q = old_e[i].parent_id->0 as int;
                let k = choose|k: int| 0 <= k < old_e[q].children.len() && old_e[q].children[k] == i as usize;
                if q == p {
                    assert(e[q].children[k] == i as usize);
                }
            } else {
                assert(e[p].children[old_e[p].children.len() as int] == id);
            }
        }
        assert forall|i: int, j: int| 0 <= i < e.len() && 0 <= j < e[i].children.len() implies {
            let c = #[trigger] e[i].children[j];
            i < c < e.len() && e[c as int].parent_id == Some(i as usize)
        } by {
            if i == p && j == old_e[p].children.len() {
                assert(e[i].children[j] == id);
            } else if i < old_e.len() {
                assert(e[i].children[j] == old_e[i].children[j]);
                let c = old_e[i].children[j];
                assert(c < old_e.len());
                assert(e[c as int].parent_id == old_e[c as int].parent_id);
            }
        }
        assert forall|i: int, j: int, k: int|
            0 <= i < e.len() && 0 <= j < k < e[i].children.len()
            implies #[trigger] e[i].children[j] < #[trigger] e[i].children[k] by {
            if i == p && k == old_e[p].children.len() {
                assert(old_e[i].children[j] < old_e.len());
            }
        }
    } else {
        assert(e.len() == 1);
    }
}

/// Running the builder keeps its state consistent, as long as the ids it
/// hands out fit in `usize`.
proof fn lemma_build_wf(s: Seq<char>, p: int, st: BuildState)
    requires
        0 <= p,
        state_wf(st),
        st.elements.len() + s.len() - p <= usize::MAX,
    ensures
        build_from(s, p, st) matches Ok(f) ==> state_wf(f),
    decreases s.len() - p,
{
    let q = skip_ws(s, p);
    if p <= s.len() {
        lemma_skip_ws_bounds(s, p);
    }
    if q < s.len() {
        match tag_at(s, q) {
            Ok(tag) => {
                if step(st, tag) is Ok {
                    lemma_step_wf(st, tag);
                    let next = step(st, tag)->Ok_0;
                    if p < tag_next(tag) <= s.len() {
                        lemma_build_wf(s, tag_next(tag), next);
                    }
                }
            },
            Err(_) => {},
        }
    }
}

/// Every parsed tree is well formed: it holds at least its root, which has
/// id 0; the id of each
/// element is its place in the arena; only the root has no parent; every
/// other element comes after its parent and is listed among its children;
/// and the children of every element come after it and are listed in the
/// order in which they stand in the document.
pub proof fn lemma_parsed_tree_well_formed(s: Seq<char>)
    requires
        s.len() <= usize::MAX,
    ensures
        parse_doc(s) matches Ok(t) ==> t.root_id == 0 && t.elements.len() >= 1 && arena_wf(t.elements),
{
    lemma_build_wf(s, 0, initial_state());
}

/// The element that an opening or self-closing tag adds carries the tag's
/// name and attributes exactly as they were read: in the order of the text,
/// with repeated keys kept.
pub proof fn lemma_element_keeps_attributes(st: BuildState, tag: TagScan)
    requires
        state_wf(st),
        tag is Open || tag is SelfClose,
        step(st, tag) is Ok,
    ensures
        ({
            let e = step(st, tag)->Ok_0.elements[st.elements.len() as int];
            match tag {
                TagScan::Open { name, attributes, .. } => e.name == name && e.attributes == attributes,
                TagScan::SelfClose { name, attributes, .. } => e.name == name && e.attributes == attributes,
                _ => true,
            }
        }),
{
}

/// The builder's state held by the executable arena and stack.
pub open spec fn state_of(elements: Seq<Element>, stack: Seq<usize>) -> BuildState {
    BuildState { elements: elements_view(elements), stack }
}

/// Adds the element `el`, a stub with the next id, under the innermost open
/// element.
fn add_element(elements: &mut Vec<Element>, stack: &Vec<usize>, el: Element)
    requires
        is_stub(el, old(elements)@.len() as usize, el.name@),
        old(elements)@.len() < usize::MAX,
        stack@.len() <= old(elements)@.len(),
        forall|k: int| 0 <= k < stack@.len() ==> #[trigger] stack@[k] < old(elements)@.len(),
    ensures
        elements_view(final(elements)@) == attach(state_of(old(elements)@, stack@), el.name@, el@.attributes),
{
    let ghost st = state_of(elements@, stack@);
    let id = elements.len();
    let mut el = el;
    el.depth = stack.len() + 1;
    if stack.len() > 0 {
        let parent = stack[stack.len() - 1];
        el.parent_id = Some(parent);
        elements[parent].children.push(id);
        assert(elements_view(elements@) =~= st.elements.update(
            parent as int,
            ElementView { children: st.elements[parent as int].children.push(id), ..st.elements[parent as int] },
        ));
    }
    let ghost mid = elements@;
    let ghost ev = el@;
    elements.push(el);
    assert(elements_view(elements@) =~= elements_view(mid).push(ev));
    assert(ev.children =~= Seq::<usize>::empty());
    assert(ev == new_element(st, ev.name, ev.attributes));
}

/// The end of a parse in executable form: the tree, or the names of the
/// elements left open.
fn finish_tree(elements: Vec<Element>, stack: Vec<usize>) -> (r: Result<ElementTree, ParseError>)
    requires
        forall|k: int| 0 <= k < stack@.len() ==> #[trigger] stack@[k] < elements@.len(),
    ensures
        match (r, finish(state_of(elements@, stack@))) {
            (Ok(t), Ok(v)) => t@ == v,
            (Err(e), Err(m)) => e@ == m,
            _ => false,
        },
{
    if stack.len() == 0 {
        if elements.len() == 0 {
            return Err(ParseError::UnexpectedEndOfInput);
        }
        return Ok(ElementTree { root_id: 0, elements });
    }
    let ghost st = state_of(elements@, stack@);
    let mut names: Vec<String> = Vec::new();
    let mut k: usize = stack.len();
    while k > 0
        invariant
            k <= stack@.len(),
            st == state_of(elements@, stack@),
            forall|j: int| 0 <= j < stack@.len() ==> #[trigger] stack@[j] < elements@.len(),
            names@.len() == stack@.len() - k,
            strings_view(names@) =~= open_names(st).take(names@.len() as int),
        decreases k,
    {
        k = k - 1;
        let name = elements[stack[k]].name.clone();
        let ghost before = names@;
        names.push(name);
        assert(strings_view(names@) =~= strings_view(before).push(open_names(st)[before.len() as int]));
    }
    assert(open_names(st).take(names@.len() as int) =~= open_names(st));
    Err(ParseError::UnclosedTagsAtEof(names))
}

/// The attributes of an element as text: each preceded by a space.
pub open spec fn attrs_text(attrs: Seq<AttributeView>) -> Seq<char>
    decreases attrs.len(),
{
    if attrs.len() == 0 {
        Seq::empty()
    } else {
        attrs_text(attrs.drop_last()) + seq![' '] + attr_text(attrs.last())
    }
}

/// The line that lists an element: one `-` per level of depth, `> `, the
/// name, then ` -` and the attributes if it has any.
pub open spec fn element_line(e: ElementView) -> Seq<char> {
    Seq::new(e.depth as nat, |k: int| '-') + seq!['>', ' '] + e.name + if e.attributes.len() > 0 {
        seq![' ', '-'] + attrs_text(e.attributes)
    } else {
        Seq::empty()
    } + seq!['\n']
}

/// The listing of the elements, one line each, in arena order.
pub open spec fn listing(elements: Seq<ElementView>) -> Seq<char>
    decreases elements.len(),
{
    if elements.len() == 0 {
        Seq::empty()
    } else {
        listing(elements.drop_last()) + element_line(elements.last())
    }
}

/// Writes the line of `e` at the end of `res`.
fn write_line(res: &mut String, e: &Element)
    ensures
        final(res)@ == old(res)@ + element_line(e@),
{
    let ghost start = res@;
    let mut k: usize = 0;
    while k < e.depth
        invariant
            k <= e.depth,
            res@ == start + Seq::new(k as nat, |j: int| '-'),
        decreases e.depth - k,
    {
        push_char(res, '-');
        k = k + 1;
        assert(res@ =~= start + Seq::new(k as nat, |j: int| '-'));
    }
    push_char(res, '>');
    push_char(res, ' ');
    res.append(e.name.as_str());
    if e.attributes.len() > 0 {
        push_char(res, ' ');
        push_char(res, '-');
        let ghost at = res@;
        let mut j: usize = 0;
        while j < e.attributes.len()
            invariant
                j <= e.attributes@.len(),
                res@ == at + attrs_text(e@.attributes.take(j as int)),
            decreases e.attributes@.len() - j,
        {
            push_char(res, ' ');
            let a = e.attributes[j].to_string();
            res.append(a.as_str());
            proof {
                let next = e@.attributes.take(j + 1);
                assert(next.drop_last() =~= e@.attributes.take(j as int));
            }
            j = j + 1;
        }
        assert(e@.attributes.take(j as int) =~= e@.attributes);
    }
    push_char(res, '\n');
    assert(final(res)@ =~= old(res)@ + element_line(e@));
}

proof fn lemma_listing_first(elements: Seq<ElementView>)
    requires
        elements.len() > 0,
    ensures
        listing(elements).len() > 0,
        listing(elements)[0] == element_line(elements[0])[0],
    decreases elements.len(),
{
    assert(element_line(elements.last()).len() > 0);
    if elements.len() > 1 {
        lemma_listing_first(elements.drop_last());
        assert(elements.drop_last()[0] == elements[0]);
    } else {
        assert(listing(elements.drop_last()) == Seq::<char>::empty());
        assert(listing(elements) =~= element_line(elements[0]));
    }
}

/// The listing is not a document: re-parsing the listing of a parsed tree
/// fails, since it starts with `-` where a tag's `<` would have to stand.
pub proof fn lemma_listing_does_not_parse(s: Seq<char>)
    requires
        s.len() <= usize::MAX,
        parse_doc(s) is Ok,
    ensures
        parse_doc(listing(parse_doc(s)->Ok_0.elements)) == Err::<TreeView, ErrorView>(ErrorView::ExpectedOpenAngle),
{
    lemma_parsed_tree_well_formed(s);
    let elements = parse_doc(s)->Ok_0.elements;
    lemma_listing_first(elements);
    let l = listing(elements);
    assert(elements[0].depth >= 1);
    assert(element_line(elements[0])[0] == '-');
    assert(skip_ws(l, 0) == 0);
}

impl ElementTree {
    /// The tree as text: one line per element, in arena order, which for a
    /// parsed tree is the order of the tags in the document; empty text when
    /// `root_id` names no element.
    pub fn to_string(&self) -> (r: String)
        ensures
            r@ == if self.root_id < self@.elements.len() {
                listing(self@.elements)
            } else {
                Seq::<char>::empty()
            },
    {
        let mut res = String::new();
        if self.root_id >= self.elements.len() {
            return res;
        }
        let mut i: usize = 0;
        while i < self.elements.len()
            invariant
                i <= self.elements@.len(),
                res@ == listing(self@.elements.take(i as int)),
            decreases self.elements@.len() - i,
        {
            write_line(&mut res, &self.elements[i]);
            proof {
                let next = self@.elements.take(i + 1);
                assert(next.drop_last() =~= self@.elements.take(i as int));
            }
            i = i + 1;
        }
        assert(self@.elements.take(i as int) =~= self@.elements);
        res
    }


    /// Parses a document into its tree of elements, or gives the first error.
    pub fn parse(original_input: &str) -> (r: Result<ElementTree, ParseError>)
        ensures
            match (r, parse_doc(original_input@)) {
                (Ok(t), Ok(v)) => t@ == v,
                (Err(e), Err(m)) => e@ == m,
                _ => false,
            },
            r matches Ok(t) ==> t.root_id == 0 && t@.elements.len() >= 1 && arena_wf(t@.elements),
    {
        let s = chars_of(original_input);
        let mut elements: Vec<Element> = Vec::new();
        let mut stack: Vec<usize> = Vec::new();
        let mut p: usize = 0;
        assert(elements_view(elements@) =~= Seq::<ElementView>::empty());
        loop
            invariant
                p <= s@.len(),
                s@ == original_input@,
                elements@.len() <= p,
                state_wf(state_of(elements@, stack@)),
                build_from(s@, 0, initial_state()) == build_from(s@, p as int, state_of(elements@, stack@)),
            ensures
                state_wf(state_of(elements@, stack@)),
                build_from(s@, 0, initial_state()) == Ok::<BuildState, ErrorView>(state_of(elements@, stack@)),
            decreases s@.len() - p,
        {
            let ghost st = state_of(elements@, stack@);
            let q = skip_whitespace(&s, p);
            if q >= s.len() {
                break;
            }
            let id = elements.len();
            let tag = scan_tag(&s, id, q);
            proof {
                lemma_skip_ws_bounds(s@, p as int);
                lemma_skip_ws_idem(s@, p as int);
            }
            match tag {
                Err(e) => {
                    return Err(e);
                },
                Ok(ElementState::Opening((el, n))) => {
                    if stack.len() == 0 && elements.len() > 0 {
                        return Err(ParseError::MultipleRootElements);
                    }
                    add_element(&mut elements, &stack, el);
                    stack.push(id);
                    proof {
                        lemma_step_wf(st, tag_at(s@, q as int)->Ok_0);
                    }
                    p = n;
                },
                Ok(ElementState::SelfClosing((el, n))) => {
                    if stack.len() == 0 && elements.len() > 0 {
                        return Err(ParseError::MultipleRootElements);
                    }
                    add_element(&mut elements, &stack, el);
                    proof {
                        lemma_step_wf(st, tag_at(s@, q as int)->Ok_0);
                    }
                    p = n;
                },
                Ok(ElementState::Closing((el, n))) => {
                    if stack.len() == 0 {
                        return Err(ParseError::UnexpectedClosingTag(el.name));
                    }
                    let top = stack[stack.len() - 1];
                    if !(elements[top].name == el.name) {
                        return Err(
                            ParseError::MismatchedClosingTag {
                                expected: elements[top].name.clone(),
                                found: el.name,
                            },
                        );
                    }
                    stack.pop();
                    proof {
                        lemma_step_wf(st, tag_at(s@, q as int)->Ok_0);
                    }
                    p = n;
                },
            }
        }
        finish_tree(elements, stack)
    }
}

} // verus!

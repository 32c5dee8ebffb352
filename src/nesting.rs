//! Documents whose tags nest properly: their parse succeeds.
use vstd::prelude::*;

use crate::attribute::AttributeView;
use crate::element::{tag_at, ElementView, TagScan};
use crate::grammar::{
    close_tag_text, is_attribute, is_word, lemma_written_close_reads, lemma_written_tag_reads,
    open_tag_text, stands_at,
};
use crate::error::ErrorView;
use crate::text::{lemma_skip_ws_bounds, skip_ws};
use crate::tree::{
    arena_wf, build_from, initial_state, lemma_parsed_tree_well_formed, parse_doc, step,
    tag_next, BuildState,
};

verus! {

/// What the builder looks at in a tag: its kind and its name.
pub enum Shape {
    Open(Seq<char>),
    SelfClose(Seq<char>),
    Close(Seq<char>),
}

/// The kind and name of a tag.
pub open spec fn shape(t: TagScan) -> Shape {
    match t {
        TagScan::Open { name, .. } => Shape::Open(name),
        TagScan::SelfClose { name, .. } => Shape::SelfClose(name),
        TagScan::Close { name, .. } => Shape::Close(name),
    }
}

/// The kinds and names of a list of tags.
pub open spec fn shapes(ts: Seq<TagScan>) -> Seq<Shape> {
    ts.map_values(|t: TagScan| shape(t))
}

/// An element with its descendants: its name and attributes and, unless it
/// is a leaf (written as one self-closing tag), its children (written
/// between its opening tag and a closing tag of the same name).
pub enum Node {
    Leaf(Seq<char>, Seq<AttributeView>),
    Branch(Seq<char>, Seq<AttributeView>, Seq<Node>),
}

/// The tags that write a node, in document order.
pub open spec fn flat(n: Node) -> Seq<Shape>
    decreases n, 1nat,
{
    match n {
        Node::Leaf(name, _) => seq![Shape::SelfClose(name)],
        Node::Branch(name, _, children) => seq![Shape::Open(name)] + flat_all(children, children.len())
            + seq![Shape::Close(name)],
    }
}

/// The tags that write the first `k` nodes of `cs`, one after the other.
pub open spec fn flat_all(cs: Seq<Node>, k: nat) -> Seq<Shape>
    decreases cs, k,
{
    if k == 0 || k > cs.len() {
        Seq::empty()
    } else {
        flat_all(cs, (k - 1) as nat) + flat(cs[k - 1])
    }
}

/// The number of elements in a node.
pub open spec fn size(n: Node) -> nat
    decreases n, 1nat,
{
    match n {
        Node::Leaf(_, _) => 1,
        Node::Branch(_, _, children) => 1 + size_all(children, children.len()),
    }
}

/// The number of elements in the first `k` nodes of `cs`.
pub open spec fn size_all(cs: Seq<Node>, k: nat) -> nat
    decreases cs, k,
{
    if k == 0 || k > cs.len() {
        0
    } else {
        size_all(cs, (k - 1) as nat) + size(cs[k - 1])
    }
}

/// Where the elements of a node land in the arena, in document order: the
/// name of each and the id of its parent. The node's own element gets the id
/// `base` and the parent `parent`; its children follow it, each after the
/// elements of the children before it, with `base` as parent.
pub open spec fn layout(n: Node, base: nat, parent: Option<usize>) -> Seq<(Seq<char>, Option<usize>)>
    decreases n, 1nat,
{
    match n {
        Node::Leaf(name, _) => seq![(name, parent)],
        Node::Branch(name, _, children) => seq![(name, parent)] + layout_all(
            children,
            children.len(),
            base + 1,
            Some(base as usize),
        ),
    }
}

/// Where the elements of the first `k` nodes of `cs` land, from id `base`
/// on, all of them children of `parent`.
pub open spec fn layout_all(cs: Seq<Node>, k: nat, base: nat, parent: Option<usize>) -> Seq<(Seq<char>, Option<usize>)>
    decreases cs, k,
{
    if k == 0 || k > cs.len() {
        Seq::empty()
    } else {
        layout_all(cs, (k - 1) as nat, base, parent) + layout(cs[k - 1], base + size_all(cs, (k - 1) as nat), parent)
    }
}

/// The name and parent of an element.
pub open spec fn placed(e: ElementView) -> (Seq<char>, Option<usize>) {
    (e.name, e.parent_id)
}

/// The innermost open element, if any.
pub open spec fn top_of(st: BuildState) -> Option<usize> {
    if st.stack.len() == 0 {
        None
    } else {
        Some(st.stack.last())
    }
}

/// The tags of `s` from position `p` on, up to where only whitespace is
/// left; `None` where a tag cannot be read.
pub open spec fn tags_from(s: Seq<char>, p: int) -> Option<Seq<TagScan>>
    decreases s.len() - p,
{
    let q = skip_ws(s, p);
    if q >= s.len() {
        Some(Seq::empty())
    } else {
        match tag_at(s, q) {
            Err(_) => None,
            Ok(tag) => if p < tag_next(tag) <= s.len() {
                match tags_from(s, tag_next(tag)) {
                    Some(rest) => Some(seq![tag] + rest),
                    None => None,
                }
            } else {
                Some(seq![tag])
            },
        }
    }
}

/// The builder run over a list of tags.
pub open spec fn run(st: BuildState, ts: Seq<TagScan>) -> Result<BuildState, ErrorView>
    decreases ts.len(),
{
    if ts.len() == 0 {
        Ok(st)
    } else {
        match step(st, ts[0]) {
            Err(e) => Err(e),
            Ok(next) => run(next, ts.drop_first()),
        }
    }
}

proof fn lemma_build_is_run(s: Seq<char>, p: int, st: BuildState)
    requires
        0 <= p,
        tags_from(s, p) is Some,
    ensures
        build_from(s, p, st) == run(st, tags_from(s, p)->Some_0),
    decreases s.len() - p,
{
    let q = skip_ws(s, p);
    if q < s.len() {
        match tag_at(s, q) {
            Ok(tag) => {
                {
                    if p < tag_next(tag) <= s.len() {
                        let rest = tags_from(s, tag_next(tag))->Some_0;
                        assert((seq![tag] + rest).drop_first() =~= rest);
                        assert((seq![tag] + rest)[0] == tag);
                        match step(st, tag) {
                            Ok(next) => lemma_build_is_run(s, tag_next(tag), next),
                            Err(_) => {},
                        }
                    } else {
                        lemma_run_one(st, seq![tag]);
                    }
                }
            },
            Err(_) => {},
        }
    }
}

proof fn lemma_run_one(st: BuildState, ts: Seq<TagScan>)
    requires
        ts.len() == 1,
    ensures
        run(st, ts) == step(st, ts[0]),
{
    assert(ts.drop_first() =~= Seq::<TagScan>::empty());
    match step(st, ts[0]) {
        Ok(next) => {
            assert(run(next, ts.drop_first()) == Ok::<BuildState, ErrorView>(next));
        },
        Err(_) => {},
    }
}

proof fn lemma_shapes(ts: Seq<TagScan>, a: int, b: int)
    requires
        0 <= a <= b <= ts.len(),
    ensures
        shapes(ts).len() == ts.len(),
        forall|i: int| 0 <= i < ts.len() ==> #[trigger] shapes(ts)[i] == shape(ts[i]),
        shapes(ts.subrange(a, b)) == shapes(ts).subrange(a, b),
{
    assert(shapes(ts.subrange(a, b)) =~= shapes(ts).subrange(a, b));
}

proof fn lemma_run_append(st: BuildState, a: Seq<TagScan>, b: Seq<TagScan>)
    ensures
        run(st, a + b) == match run(st, a) {
            Err(e) => Err(e),
            Ok(m) => run(m, b),
        },
    decreases a.len(),
{
    if a.len() == 0 {
        assert(a + b =~= b);
    } else {
        assert((a + b).drop_first() =~= a.drop_first() + b);
        assert((a + b)[0] == a[0]);
        match step(st, a[0]) {
            Ok(next) => lemma_run_append(next, a.drop_first(), b),
            Err(_) => {},
        }
    }
}

/// Where a run may start a node: inside an open element, or before the root.
pub open spec fn can_nest(st: BuildState) -> bool {
    &&& st.stack.len() > 0 || st.elements.len() == 0
    &&& forall|k: int| 0 <= k < st.stack.len() ==> #[trigger] st.stack[k] < st.elements.len()
}

/// What a run over whole nodes leaves: the same open elements, the names
/// and parents of the earlier elements, and `added` more elements placed as
/// `places` says.
pub open spec fn nested_result(
    st: BuildState,
    r: Result<BuildState, ErrorView>,
    added: nat,
    places: Seq<(Seq<char>, Option<usize>)>,
) -> bool {
    &&& r is Ok
    &&& r->Ok_0.stack == st.stack
    &&& r->Ok_0.elements.len() == st.elements.len() + added
    &&& forall|k: int| 0 <= k < st.elements.len() ==> #[trigger] placed(r->Ok_0.elements[k]) == placed(st.elements[k])
    &&& places.len() == added
    &&& forall|j: int| 0 <= j < added ==> #[trigger] placed(r->Ok_0.elements[st.elements.len() + j]) == places[j]
}

proof fn lemma_node_run(st: BuildState, ts: Seq<TagScan>, n: Node)
    requires
        can_nest(st),
        shapes(ts) == flat(n),
        st.elements.len() + size(n) <= usize::MAX,
    ensures
        nested_result(st, run(st, ts), size(n), layout(n, st.elements.len(), top_of(st))),
    decreases n, 1nat,
{
    lemma_shapes(ts, 0, 0);
    assert(ts.len() == flat(n).len());
    assert(shape(ts[0]) == flat(n)[0]);
    match n {
        Node::Leaf(name, _) => {
            lemma_run_one(st, ts);
            let next = step(st, ts[0])->Ok_0;
            assert forall|k: int| 0 <= k < st.elements.len() implies #[trigger] placed(next.elements[k])
                == placed(st.elements[k]) by {}
            assert(placed(next.elements[st.elements.len() as int]) == (name, top_of(st)));
        },
        Node::Branch(name, _, children) => {
            let m = flat_all(children, children.len()).len() as int;
            let mid = ts.subrange(1, 1 + m);
            let last = ts.subrange(1 + m, ts.len() as int);
            lemma_shapes(ts, 1, 1 + m);
            assert(ts.drop_first() =~= mid + last);
            assert(shapes(mid) =~= flat_all(children, children.len()));
            assert(shapes(ts)[1 + m] == Shape::Close(name));
            let id = st.elements.len() as usize;
            let st1 = step(st, ts[0])->Ok_0;
            assert(st1.stack == st.stack.push(id));
            assert forall|k: int| 0 <= k < st1.elements.len() - 1 implies #[trigger] placed(st1.elements[k])
                == placed(st.elements[k]) by {}
            assert(placed(st1.elements[id as int]) == (name, top_of(st)));
            assert(top_of(st1) == Some(id));
            lemma_nodes_run(st1, mid, children, children.len());
            let st2 = run(st1, mid)->Ok_0;
            lemma_run_append(st1, mid, last);
            lemma_run_one(st2, last);
            assert(st2.stack.last() == id);
            assert(placed(st2.elements[id as int]) == placed(st1.elements[id as int]));
            let st3 = step(st2, last[0])->Ok_0;
            assert(st3.stack =~= st.stack);
            let inner = layout_all(children, children.len(), st.elements.len() + 1, Some(id));
            assert(layout(n, st.elements.len(), top_of(st)) == seq![(name, top_of(st))] + inner);
            assert forall|j: int| 0 <= j < size(n) implies #[trigger] placed(st3.elements[st.elements.len() + j])
                == layout(n, st.elements.len(), top_of(st))[j] by {
                if j > 0 {
                    assert(placed(st2.elements[st1.elements.len() + (j - 1)]) == inner[j - 1]);
                }
            }
            assert forall|k: int| 0 <= k < st.elements.len() implies #[trigger] placed(st3.elements[k])
                == placed(st.elements[k]) by {
                assert(placed(st2.elements[k]) == placed(st1.elements[k]));
            }
        },
    }
}

proof fn lemma_nodes_run(st: BuildState, ts: Seq<TagScan>, cs: Seq<Node>, k: nat)
    requires
        st.stack.len() > 0,
        can_nest(st),
        k <= cs.len(),
        shapes(ts) == flat_all(cs, k),
        st.elements.len() + size_all(cs, k) <= usize::MAX,
    ensures
        nested_result(st, run(st, ts), size_all(cs, k), layout_all(cs, k, st.elements.len(), top_of(st))),
    decreases cs, k,
{
    lemma_shapes(ts, 0, 0);
    if k == 0 {
        assert(ts =~= Seq::<TagScan>::empty());
    } else {
        let a = flat_all(cs, (k - 1) as nat).len() as int;
        let front = ts.subrange(0, a);
        let back = ts.subrange(a, ts.len() as int);
        lemma_shapes(ts, 0, a);
        lemma_shapes(ts, a, ts.len() as int);
        assert(ts =~= front + back);
        assert(shapes(front) =~= flat_all(cs, (k - 1) as nat));
        assert(shapes(back) =~= flat(cs[k - 1]));
        lemma_nodes_run(st, front, cs, (k - 1) as nat);
        let mid = run(st, front)->Ok_0;
        assert(top_of(mid) == top_of(st));
        lemma_node_run(mid, back, cs[k - 1]);
        lemma_run_append(st, front, back);
        let fin = run(mid, back)->Ok_0;
        let before = layout_all(cs, (k - 1) as nat, st.elements.len(), top_of(st));
        let last = layout(cs[k - 1], st.elements.len() + size_all(cs, (k - 1) as nat), top_of(st));
        assert(layout_all(cs, k, st.elements.len(), top_of(st)) == before + last);
        let a_size = size_all(cs, (k - 1) as nat) as int;
        assert forall|j: int| 0 <= j < size_all(cs, k) implies #[trigger] placed(fin.elements[st.elements.len() + j])
            == (before + last)[j] by {
            if j < a_size {
                assert(placed(mid.elements[st.elements.len() + j]) == before[j]);
                assert(placed(fin.elements[st.elements.len() + j]) == placed(mid.elements[st.elements.len() + j]));
            } else {
                assert(placed(fin.elements[mid.elements.len() + (j - a_size)]) == last[j - a_size]);
            }
        }
        assert forall|i: int| 0 <= i < st.elements.len() implies #[trigger] placed(fin.elements[i])
            == placed(st.elements[i]) by {
            assert(placed(fin.elements[i]) == placed(mid.elements[i]));
        }
    }
}

proof fn lemma_size_flat(n: Node)
    ensures
        size(n) <= flat(n).len(),
    decreases n, 1nat,
{
    match n {
        Node::Leaf(_, _) => {},
        Node::Branch(_, _, children) => lemma_size_flat_all(children, children.len()),
    }
}

proof fn lemma_size_flat_all(cs: Seq<Node>, k: nat)
    ensures
        size_all(cs, k) <= flat_all(cs, k).len(),
    decreases cs, k,
{
    if k > 0 && k <= cs.len() {
        lemma_size_flat_all(cs, (k - 1) as nat);
        lemma_size_flat(cs[k - 1]);
    }
}

proof fn lemma_tags_len(s: Seq<char>, p: int)
    requires
        0 <= p <= s.len(),
        tags_from(s, p) is Some,
    ensures
        tags_from(s, p)->Some_0.len() <= s.len() - p,
    decreases s.len() - p,
{
    lemma_skip_ws_bounds(s, p);
    let q = skip_ws(s, p);
    if q < s.len() {
        match tag_at(s, q) {
            Ok(tag) => {
                if p < tag_next(tag) <= s.len() {
                    lemma_tags_len(s, tag_next(tag));
                }
            },
            Err(_) => {},
        }
    }
}

/// A document whose tags nest as one element with its descendants, each
/// element closed by a tag of its own name, parses. The tree holds one
/// element per opening or self-closing tag, in document order; each element
/// has the name of its tag and, as parent, the element whose tags enclose
/// it; and the tree is well formed, so the children of every element are
/// listed in document order.
pub proof fn lemma_well_nested_parses(s: Seq<char>, n: Node)
    requires
        s.len() <= usize::MAX,
        tags_from(s, 0) is Some,
        shapes(tags_from(s, 0)->Some_0) == flat(n),
    ensures
        parse_doc(s) is Ok,
        parse_doc(s)->Ok_0.elements.len() == size(n),
        forall|j: int| 0 <= j < size(n) ==> #[trigger] placed(parse_doc(s)->Ok_0.elements[j]) == layout(n, 0, None)[j],
        arena_wf(parse_doc(s)->Ok_0.elements),
{
    let ts = tags_from(s, 0)->Some_0;
    lemma_build_is_run(s, 0, initial_state());
    lemma_tags_len(s, 0);
    lemma_shapes(ts, 0, 0);
    lemma_size_flat(n);
    lemma_node_run(initial_state(), ts, n);
    lemma_parsed_tree_well_formed(s);
    let f = run(initial_state(), ts)->Ok_0;
    assert forall|j: int| 0 <= j < size(n) implies #[trigger] placed(parse_doc(s)->Ok_0.elements[j])
        == layout(n, 0, None)[j] by {
        assert(placed(f.elements[0 + j]) == layout(n, 0, None)[j]);
    }
}

/// For each tag that makes an element, in order: whether it is
/// self-closing.
pub open spec fn self_closing_flags(ts: Seq<TagScan>) -> Seq<bool>
    decreases ts.len(),
{
    if ts.len() == 0 {
        Seq::empty()
    } else {
        match ts[0] {
            TagScan::Open { .. } => seq![false] + self_closing_flags(ts.drop_first()),
            TagScan::SelfClose { .. } => seq![true] + self_closing_flags(ts.drop_first()),
            TagScan::Close { .. } => self_closing_flags(ts.drop_first()),
        }
    }
}

proof fn lemma_flags_len(ts: Seq<TagScan>)
    ensures
        self_closing_flags(ts).len() <= ts.len(),
    decreases ts.len(),
{
    if ts.len() > 0 {
        lemma_flags_len(ts.drop_first());
    }
}

proof fn lemma_built_has_tags(s: Seq<char>, p: int, st: BuildState)
    requires
        0 <= p,
        build_from(s, p, st) is Ok,
    ensures
        tags_from(s, p) is Some,
    decreases s.len() - p,
{
    let q = skip_ws(s, p);
    if q < s.len() {
        let tag = tag_at(s, q)->Ok_0;
        if p < tag_next(tag) <= s.len() {
            lemma_built_has_tags(s, tag_next(tag), step(st, tag)->Ok_0);
        }
    }
}

proof fn lemma_run_leaves(st: BuildState, ts: Seq<TagScan>, leaf: Seq<bool>)
    requires
        leaf.len() == st.elements.len(),
        forall|k: int| 0 <= k < st.stack.len() ==> #[trigger] st.stack[k] < st.elements.len(),
        forall|k: int, i: int| 0 <= k < st.stack.len() && 0 <= i < leaf.len() && #[trigger] leaf[i] ==> #[trigger] st.stack[k] != i,
        forall|i: int| 0 <= i < leaf.len() && #[trigger] leaf[i] ==> st.elements[i].children.len() == 0,
        st.elements.len() + ts.len() <= usize::MAX,
    ensures
        run(st, ts) matches Ok(f) ==> {
            let all = leaf + self_closing_flags(ts);
            &&& all.len() == f.elements.len()
            &&& forall|i: int| 0 <= i < all.len() && #[trigger] all[i] ==> f.elements[i].children.len() == 0
        },
    decreases ts.len(),
{
    if ts.len() == 0 {
        assert(leaf + self_closing_flags(ts) =~= leaf);
    } else if step(st, ts[0]) is Ok {
        let next = step(st, ts[0])->Ok_0;
        let rest = ts.drop_first();
        let id = st.elements.len();
        let leaf2 = match ts[0] {
            TagScan::Open { .. } => leaf.push(false),
            TagScan::SelfClose { .. } => leaf.push(true),
            TagScan::Close { .. } => leaf,
        };
        if st.stack.len() > 0 {
            assert(st.stack[st.stack.len() - 1] < id);
        }
        assert forall|i: int| 0 <= i < leaf2.len() && #[trigger] leaf2[i] implies next.elements[i].children.len() == 0 by {
            if i < leaf.len() {
                assert(leaf2[i] == leaf[i]);
                if st.stack.len() > 0 {
                    assert(st.stack[st.stack.len() - 1] != i);
                }
            }
        }
        assert forall|k: int, i: int|
            0 <= k < next.stack.len() && 0 <= i < leaf2.len() && #[trigger] leaf2[i] implies #[trigger] next.stack[k] != i by {
            if k < st.stack.len() {
                assert(next.stack[k] == st.stack[k]);
                if i < leaf.len() {
                    assert(leaf2[i] == leaf[i]);
                }
            }
        }
        assert forall|k: int| 0 <= k < next.stack.len() implies #[trigger] next.stack[k] < next.elements.len() by {
            if k < st.stack.len() {
                assert(next.stack[k] == st.stack[k]);
            }
        }
        lemma_run_leaves(next, rest, leaf2);
        assert(leaf2 + self_closing_flags(rest) =~= leaf + self_closing_flags(ts));
    }
}

/// Self-closing tags always make leaves: if a document parses, then for
/// every tag that makes an element, the element it makes (the `k`-th for
/// the `k`-th such tag) has no children when the tag is self-closing, and
/// no element names it as parent, whatever attributes the tag has.
pub proof fn lemma_self_closing_tags_are_leaves(s: Seq<char>, k: int)
    requires
        s.len() <= usize::MAX,
        parse_doc(s) is Ok,
        0 <= k < self_closing_flags(tags_from(s, 0)->Some_0).len(),
        self_closing_flags(tags_from(s, 0)->Some_0)[k],
    ensures
        tags_from(s, 0) is Some,
        parse_doc(s)->Ok_0.elements.len() == self_closing_flags(tags_from(s, 0)->Some_0).len(),
        parse_doc(s)->Ok_0.elements[k].children.len() == 0,
        forall|j: int| 0 <= j < parse_doc(s)->Ok_0.elements.len()
            ==> #[trigger] parse_doc(s)->Ok_0.elements[j].parent_id != Some(k as usize),
{
    lemma_built_has_tags(s, 0, initial_state());
    let ts = tags_from(s, 0)->Some_0;
    lemma_build_is_run(s, 0, initial_state());
    lemma_tags_len(s, 0);
    lemma_run_leaves(initial_state(), ts, Seq::empty());
    assert(Seq::<bool>::empty() + self_closing_flags(ts) =~= self_closing_flags(ts));
    lemma_parsed_tree_well_formed(s);
    lemma_flags_len(ts);
    let t = parse_doc(s)->Ok_0;
    assert forall|j: int| 0 <= j < t.elements.len() implies #[trigger] t.elements[j].parent_id != Some(k as usize) by {
        if t.elements[j].parent_id == Some(k as usize) {
            assert(t.elements[j].parent_id is Some);
            assert(t.elements[k].children.contains(j as usize));
        }
    }
}

/// Whether a node can be written: names and keys are words, values are
/// letters and digits, in the node and all its descendants.
pub open spec fn node_ok(n: Node) -> bool
    decreases n, 1nat,
{
    match n {
        Node::Leaf(name, attrs) => is_word(name) && forall|k: int|
            0 <= k < attrs.len() ==> #[trigger] is_attribute(attrs[k]),
        Node::Branch(name, attrs, children) => {
            &&& is_word(name)
            &&& forall|k: int| 0 <= k < attrs.len() ==> #[trigger] is_attribute(attrs[k])
            &&& nodes_ok(children, children.len())
        },
    }
}

/// Whether the first `k` nodes of `cs` can be written.
pub open spec fn nodes_ok(cs: Seq<Node>, k: nat) -> bool
    decreases cs, k,
{
    if k == 0 || k > cs.len() {
        true
    } else {
        nodes_ok(cs, (k - 1) as nat) && node_ok(cs[k - 1])
    }
}

/// A node written as text: a self-closing tag for a leaf; else its opening
/// tag, its children one after the other, and its closing tag.
pub open spec fn node_text(n: Node) -> Seq<char>
    decreases n, 1nat,
{
    match n {
        Node::Leaf(name, attrs) => open_tag_text(name, attrs, true),
        Node::Branch(name, attrs, children) => open_tag_text(name, attrs, false) + nodes_text(
            children,
            children.len(),
        ) + close_tag_text(name),
    }
}

/// The first `k` nodes of `cs` written one after the other.
pub open spec fn nodes_text(cs: Seq<Node>, k: nat) -> Seq<char>
    decreases cs, k,
{
    if k == 0 || k > cs.len() {
        Seq::empty()
    } else {
        nodes_text(cs, (k - 1) as nat) + node_text(cs[k - 1])
    }
}

proof fn lemma_stands_split(s: Seq<char>, p: int, a: Seq<char>, b: Seq<char>)
    requires
        stands_at(s, p, a + b),
    ensures
        stands_at(s, p, a),
        stands_at(s, p + a.len(), b),
{
    let whole = s.subrange(p, p + (a + b).len());
    assert forall|i: int| 0 <= i < (a + b).len() implies s[p + i] == (a + b)[i] by {
        assert(whole[i] == s[p + i]);
    }
    assert(s.subrange(p, p + a.len()) =~= a) by {
        assert forall|i: int| 0 <= i < a.len() implies s.subrange(p, p + a.len())[i] == a[i] by {
            assert(s[p + i] == (a + b)[i]);
        }
    }
    assert(s.subrange(p + a.len(), p + a.len() + b.len()) =~= b) by {
        assert forall|i: int| 0 <= i < b.len() implies s.subrange(p + a.len(), p + a.len() + b.len())[i]
            == b[i] by {
            assert(s[p + a.len() + i] == (a + b)[a.len() + i]);
        }
    }
}

proof fn lemma_tags_cons(s: Seq<char>, p: int, tag: TagScan)
    requires
        0 <= p,
        skip_ws(s, p) == p,
        p < s.len(),
        tag_at(s, p) == Ok::<TagScan, ErrorView>(tag),
        p < tag_next(tag) <= s.len(),
        tags_from(s, tag_next(tag)) is Some,
    ensures
        tags_from(s, p) is Some,
        shapes(tags_from(s, p)->Some_0) == seq![shape(tag)] + shapes(tags_from(s, tag_next(tag))->Some_0),
{
    let rest = tags_from(s, tag_next(tag))->Some_0;
    assert(shapes(seq![tag] + rest) =~= seq![shape(tag)] + shapes(rest));
}

proof fn lemma_node_tags(s: Seq<char>, p: int, n: Node)
    requires
        node_ok(n),
        stands_at(s, p, node_text(n)),
        tags_from(s, p + node_text(n).len()) is Some,
    ensures
        tags_from(s, p) is Some,
        shapes(tags_from(s, p)->Some_0) == flat(n) + shapes(tags_from(s, p + node_text(n).len())->Some_0),
    decreases n, 1nat,
{
    let end = p + node_text(n).len();
    match n {
        Node::Leaf(name, attrs) => {
            let t = open_tag_text(name, attrs, true);
            lemma_written_tag_reads(s, p, name, attrs, true);
            assert(s.subrange(p, p + t.len())[0] == t[0]);
            assert(skip_ws(s, p) == p);
            lemma_tags_cons(s, p, TagScan::SelfClose { name, attributes: attrs, next: end });
        },
        Node::Branch(name, attrs, children) => {
            let open = open_tag_text(name, attrs, false);
            let inner = nodes_text(children, children.len());
            let close = close_tag_text(name);
            lemma_stands_split(s, p, open + inner, close);
            lemma_stands_split(s, p, open, inner);
            let p1 = p + open.len();
            let p2 = p1 + inner.len();
            lemma_written_close_reads(s, p2, name);
            assert(s.subrange(p2, p2 + close.len())[0] == close[0]);
            assert(skip_ws(s, p2) == p2);
            lemma_tags_cons(s, p2, TagScan::Close { name, next: end });
            lemma_nodes_tags(s, p1, children, children.len());
            lemma_written_tag_reads(s, p, name, attrs, false);
            assert(s.subrange(p, p + open.len())[0] == open[0]);
            assert(skip_ws(s, p) == p);
            lemma_tags_cons(s, p, TagScan::Open { name, attributes: attrs, next: p1 });
            assert(flat(n) + shapes(tags_from(s, end)->Some_0) =~= seq![Shape::Open(name)] + (
            flat_all(children, children.len()) + (seq![Shape::Close(name)] + shapes(
                tags_from(s, end)->Some_0,
            ))));
        },
    }
}

proof fn lemma_nodes_tags(s: Seq<char>, p: int, cs: Seq<Node>, k: nat)
    requires
        nodes_ok(cs, k),
        stands_at(s, p, nodes_text(cs, k)),
        tags_from(s, p + nodes_text(cs, k).len()) is Some,
    ensures
        tags_from(s, p) is Some,
        shapes(tags_from(s, p)->Some_0) == flat_all(cs, k) + shapes(tags_from(s, p + nodes_text(cs, k).len())->Some_0),
    decreases cs, k,
{
    if k == 0 || k > cs.len() {
        assert(flat_all(cs, k) + shapes(tags_from(s, p)->Some_0) =~= shapes(tags_from(s, p)->Some_0));
    } else {
        let front = nodes_text(cs, (k - 1) as nat);
        let last = node_text(cs[k - 1]);
        lemma_stands_split(s, p, front, last);
        let m = p + front.len();
        lemma_node_tags(s, m, cs[k - 1]);
        lemma_nodes_tags(s, p, cs, (k - 1) as nat);
        assert(flat_all(cs, k) =~= flat_all(cs, (k - 1) as nat) + flat(cs[k - 1]));
        assert(flat_all(cs, k) + shapes(tags_from(s, m + last.len())->Some_0) =~= flat_all(cs, (k - 1) as nat) + (
        flat(cs[k - 1]) + shapes(tags_from(s, m + last.len())->Some_0)));
    }
}

/// Every document written from a tree of elements, whose names and keys are
/// words and whose values are letters and digits, parses, and into that
/// tree: one element per written element in document order, each with its
/// name and, as parent, the element written around it; the tree is well
/// formed, so the children of every element are listed in document order.
pub proof fn lemma_written_document_parses(n: Node)
    requires
        node_ok(n),
        node_text(n).len() <= usize::MAX,
    ensures
        parse_doc(node_text(n)) is Ok,
        parse_doc(node_text(n))->Ok_0.elements.len() == size(n),
        forall|j: int| 0 <= j < size(n) ==> #[trigger] placed(parse_doc(node_text(n))->Ok_0.elements[j])
            == layout(n, 0, None)[j],
        arena_wf(parse_doc(node_text(n))->Ok_0.elements),
{
    let s = node_text(n);
    assert(s.subrange(0, s.len() as int) =~= s);
    assert(tags_from(s, s.len() as int) == Some(Seq::<TagScan>::empty()));
    lemma_node_tags(s, 0, n);
    assert(flat(n) + shapes(Seq::<TagScan>::empty()) =~= flat(n));
    lemma_well_nested_parses(s, n);
}

} // verus!

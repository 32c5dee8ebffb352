//! An owned element tree, where each element holds its children, and its
//! indented listing.
use vstd::prelude::*;

use crate::text::push_char;

verus! {

/// An attribute as a name and a value.
pub type Attribute = (String, String);

/// An element that owns its children.
#[derive(PartialEq, Debug)]
pub struct Element {
    pub name: String,
    pub attributes: Vec<Attribute>,
    pub children: Vec<Element>,
}

/// The number of levels below `e`: 0 for a leaf.
pub open spec fn height(e: Element) -> nat
    decreases e, 0nat,
{
    if e.children@.len() == 0 {
        0
    } else {
        1 + max_height(e.children@, e.children@.len())
    }
}

/// The largest height among the first `k` elements of `cs`.
pub open spec fn max_height(cs: Seq<Element>, k: nat) -> nat
    decreases cs, k,
{
    if k == 0 || k > cs.len() {
        0
    } else {
        let h = height(cs[k - 1]);
        let m = max_height(cs, (k - 1) as nat);
        if h > m {
            h
        } else {
            m
        }
    }
}

/// The indentation of the lines under an element at distance `d`: two
/// spaces per level below the first, and two more.
pub open spec fn indent(d: int) -> Seq<char> {
    Seq::new(if d > 1 { (2 * (d - 1) + 2) as nat } else { 2 }, |k: int| ' ')
}

/// The attributes as `, name=value` each.
pub open spec fn pairs_text(attrs: Seq<Attribute>) -> Seq<char>
    decreases attrs.len(),
{
    if attrs.len() == 0 {
        Seq::empty()
    } else {
        pairs_text(attrs.drop_last()) + seq![',', ' '] + attrs.last().0@ + seq!['='] + attrs.last().1@
    }
}

/// The listing of `e` at distance `d` from the root: its name and
/// attributes; then, if it has children, a line with `|` and a line
/// `-->` and the child's listing for each child, all indented.
pub open spec fn printed(e: Element, d: int) -> Seq<char>
    decreases e, 1nat,
{
    e.name@ + pairs_text(e.attributes@) + if e.children@.len() == 0 {
        Seq::empty()
    } else {
        seq!['\n'] + indent(d) + seq!['|', '\n'] + children_text(e.children@, d, e.children@.len())
    }
}

/// The lines of the first `k` children in `cs` of an element at distance `d`.
pub open spec fn children_text(cs: Seq<Element>, d: int, k: nat) -> Seq<char>
    decreases cs, k,
{
    if k == 0 || k > cs.len() {
        Seq::empty()
    } else {
        children_text(cs, d, (k - 1) as nat) + indent(d) + seq!['-', '-', '>'] + printed(cs[k - 1], d + 1) + seq!['\n']
    }
}

proof fn lemma_max_height(cs: Seq<Element>, k: nat, i: int)
    requires
        0 <= i < k <= cs.len(),
    ensures
        height(cs[i]) <= max_height(cs, k),
    decreases k,
{
    if i < k - 1 {
        lemma_max_height(cs, (k - 1) as nat, i);
    }
}

impl Element {
    /// An element with empty name, no attributes and no children.
    pub fn new() -> (r: Element)
        ensures
            r.name@.len() == 0,
            r.attributes@.len() == 0,
            r.children@.len() == 0,
    {
        Element { name: String::new(), attributes: Vec::new(), children: Vec::new() }
    }

    /// An element named `root`, with no attributes and no children.
    pub fn new_root() -> (r: Element)
        ensures
            r.name@ == seq!['r', 'o', 'o', 't'],
            r.attributes@.len() == 0,
            r.children@.len() == 0,
    {
        let mut root = Element::new();
        let mut name = String::new();
        push_char(&mut name, 'r');
        push_char(&mut name, 'o');
        push_char(&mut name, 'o');
        push_char(&mut name, 't');
        root.name = name;
        root
    }

    /// The listing of the element and its descendants, for an element at
    /// distance `distance_from_root` from the root (1 for the root).
    pub fn print(&self, distance_from_root: u8) -> (r: String)
        requires
            distance_from_root + height(*self) <= u8::MAX,
        ensures
            r@ == printed(*self, distance_from_root as int),
        decreases *self,
    {
        let d = distance_from_root;
        let mut tab_offset = String::new();
        let mut k: u8 = 1;
        while k < d
            invariant
                1 <= k,
                k <= d || k == 1,
                tab_offset@ == Seq::new((2 * (k - 1)) as nat, |j: int| ' '),
            decreases d - k,
        {
            push_char(&mut tab_offset, ' ');
            push_char(&mut tab_offset, ' ');
            k = k + 1;
            assert(tab_offset@ =~= Seq::new((2 * (k - 1)) as nat, |j: int| ' '));
        }
        let mut res = String::new();
        res.append(self.name.as_str());
        let mut i: usize = 0;
        while i < self.attributes.len()
            invariant
                i <= self.attributes@.len(),
                res@ == self.name@ + pairs_text(self.attributes@.take(i as int)),
            decreases self.attributes@.len() - i,
        {
            push_char(&mut res, ',');
            push_char(&mut res, ' ');
            res.append(self.attributes[i].0.as_str());
            push_char(&mut res, '=');
            res.append(self.attributes[i].1.as_str());
            proof {
                let next = self.attributes@.take(i + 1);
                assert(next.drop_last() =~= self.attributes@.take(i as int));
            }
            i = i + 1;
        }
        assert(self.attributes@.take(i as int) =~= self.attributes@);
        assert(d <= 1 ==> tab_offset@.len() == 0);
        assert(d > 1 ==> tab_offset@.len() == 2 * (d - 1));
        if self.children.len() > 0 {
            push_char(&mut tab_offset, ' ');
            push_char(&mut tab_offset, ' ');
            assert(tab_offset@ =~= indent(d as int));
            push_char(&mut res, '\n');
            res.append(tab_offset.as_str());
            push_char(&mut res, '|');
            push_char(&mut res, '\n');
            let ghost head = res@;
            let mut c: usize = 0;
            while c < self.children.len()
                invariant
                    c <= self.children@.len(),
                    self.children@.len() > 0,
                    distance_from_root + height(*self) <= u8::MAX,
                    d == distance_from_root,
                    tab_offset@ == indent(d as int),
                    res@ == head + children_text(self.children@, d as int, c as nat),
                decreases self.children@.len() - c,
            {
                proof {
                    lemma_max_height(self.children@, self.children@.len(), c as int);
                }
                res.append(tab_offset.as_str());
                push_char(&mut res, '-');
                push_char(&mut res, '-');
                push_char(&mut res, '>');
                let child = self.children[c].print(d + 1);
                res.append(child.as_str());
                push_char(&mut res, '\n');
                c = c + 1;
                assert(res@ =~= head + children_text(self.children@, d as int, c as nat));
            }
        }
        assert(res@ =~= printed(*self, d as int));
        res
    }
}

} // verus!

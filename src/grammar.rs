//! Tags written out as text, and what the tag parser reads from them.
use vstd::prelude::*;

use crate::attribute::{attr_close, attr_scan, AttributeView};
use crate::element::{attrs_from, keep, tag_at, TagScan};
use crate::text::{
    alnum_char, alnum_end, alpha_char, alpha_end, lemma_alnum_end_from, lemma_alpha_end_from,
    lemma_skip_ws_bounds, skip_ws, space_char,
};

verus! {

/// A tag name or attribute key: non-empty, all letters, not starting with
/// whitespace (no ASCII letter is whitespace).
pub open spec fn is_word(w: Seq<char>) -> bool {
    &&& w.len() > 0
    &&& forall|i: int| 0 <= i < w.len() ==> #[trigger] alpha_char(w[i])
    &&& !space_char(w[0])
}

/// An attribute value: letters and digits only.
pub open spec fn is_value(w: Seq<char>) -> bool {
    forall|i: int| 0 <= i < w.len() ==> #[trigger] alnum_char(w[i])
}

/// An attribute that can be written: a word as key, a value if any.
pub open spec fn is_attribute(a: AttributeView) -> bool {
    &&& is_word(a.0)
    &&& a.1 matches Some(v) ==> is_value(v)
}

/// An attribute as written in a tag: `key` or `key=value`.
pub open spec fn attr_token(a: AttributeView) -> Seq<char> {
    match a.1 {
        Some(v) => a.0 + seq!['='] + v,
        None => a.0,
    }
}

/// Attributes as written in a tag, each after a space.
pub open spec fn attr_tokens(attrs: Seq<AttributeView>) -> Seq<char>
    decreases attrs.len(),
{
    if attrs.len() == 0 {
        Seq::empty()
    } else {
        seq![' '] + attr_token(attrs[0]) + attr_tokens(attrs.drop_first())
    }
}

/// An opening tag, or with `self_closing` a self-closing one:
/// `<name key=value ...>` or `<name key=value .../>`.
pub open spec fn open_tag_text(name: Seq<char>, attrs: Seq<AttributeView>, self_closing: bool) -> Seq<char> {
    seq!['<'] + name + attr_tokens(attrs) + if self_closing {
        seq!['/', '>']
    } else {
        seq!['>']
    }
}

/// A closing tag: `</name>`.
pub open spec fn close_tag_text(name: Seq<char>) -> Seq<char> {
    seq!['<', '/'] + name + seq!['>']
}

/// Whether `t` stands in `s` at position `p`.
pub open spec fn stands_at(s: Seq<char>, p: int, t: Seq<char>) -> bool {
    0 <= p && p + t.len() <= s.len() && s.subrange(p, p + t.len()) == t
}

/// The end of an opening tag: `/>` or `>`.
pub open spec fn tag_end_text(self_closing: bool) -> Seq<char> {
    if self_closing {
        seq!['/', '>']
    } else {
        seq!['>']
    }
}

/// The tag that the tag parser gives for an opening or self-closing tag.
pub open spec fn opening_scan(name: Seq<char>, attributes: Seq<AttributeView>, self_closing: bool, next: int) -> TagScan {
    if self_closing {
        TagScan::SelfClose { name, attributes, next }
    } else {
        TagScan::Open { name, attributes, next }
    }
}

proof fn lemma_stands_sub(s: Seq<char>, p: int, t: Seq<char>, a: int, b: int)
    requires
        stands_at(s, p, t),
        0 <= a <= b <= t.len(),
    ensures
        stands_at(s, p + a, t.subrange(a, b)),
{
    assert(s.subrange(p + a, p + a + (b - a)) =~= t.subrange(a, b)) by {
        assert forall|i: int| 0 <= i < b - a implies s.subrange(p + a, p + a + (b - a))[i] == t.subrange(a, b)[i] by {
            lemma_stands_index(s, p, t, a + i);
        }
    }
}

proof fn lemma_stands_index(s: Seq<char>, p: int, t: Seq<char>, i: int)
    requires
        stands_at(s, p, t),
        0 <= i < t.len(),
    ensures
        s[p + i] == t[i],
{
    assert(s.subrange(p, p + t.len())[i] == s[p + i]);
}

proof fn lemma_alpha_run(s: Seq<char>, p: int, w: Seq<char>)
    requires
        stands_at(s, p, w),
        forall|i: int| 0 <= i < w.len() ==> #[trigger] alpha_char(w[i]),
        p + w.len() < s.len(),
        !alpha_char(s[p + w.len()]),
    ensures
        alpha_end(s, p) == p + w.len(),
    decreases w.len(),
{
    if w.len() > 0 {
        lemma_stands_index(s, p, w, 0);
        let rest = w.drop_first();
        assert(s.subrange(p + 1, p + 1 + rest.len()) =~= rest) by {
            assert forall|i: int| 0 <= i < rest.len() implies s[p + 1 + i] == rest[i] by {
                lemma_stands_index(s, p, w, i + 1);
            }
        }
        assert forall|i: int| 0 <= i < rest.len() implies #[trigger] alpha_char(rest[i]) by {
            assert(rest[i] == w[i + 1]);
        }
        lemma_alpha_run(s, p + 1, rest);
    }
}

proof fn lemma_alnum_run(s: Seq<char>, p: int, w: Seq<char>)
    requires
        stands_at(s, p, w),
        is_value(w),
        p + w.len() < s.len(),
        !alnum_char(s[p + w.len()]),
    ensures
        alnum_end(s, p) == p + w.len(),
    decreases w.len(),
{
    if w.len() > 0 {
        lemma_stands_index(s, p, w, 0);
        let rest = w.drop_first();
        assert(s.subrange(p + 1, p + 1 + rest.len()) =~= rest) by {
            assert forall|i: int| 0 <= i < rest.len() implies s[p + 1 + i] == rest[i] by {
                lemma_stands_index(s, p, w, i + 1);
            }
        }
        assert forall|i: int| 0 <= i < rest.len() implies #[trigger] alnum_char(rest[i]) by {
            assert(rest[i] == w[i + 1]);
        }
        lemma_alnum_run(s, p + 1, rest);
    }
}

/// A space before an attribute changes nothing that the tag parser reads.
proof fn lemma_attrs_from_space(s: Seq<char>, name: Seq<char>, j: int, acc: Seq<AttributeView>)
    requires
        0 <= j,
        j + 1 <= s.len(),
        s[j] == ' ',
    ensures
        attrs_from(s, name, j, acc) == attrs_from(s, name, j + 1, acc),
{
    assert(skip_ws(s, j) == skip_ws(s, j + 1));
    lemma_skip_ws_bounds(s, j + 1);
    let q = skip_ws(s, j + 1);
    lemma_alpha_end_from(s, q);
    lemma_alnum_end_from(s, alpha_end(s, q) + 1);
    assert(attr_scan(s, j) == attr_scan(s, j + 1));
}

/// The tag parser reads written attributes, in order and all of them,
/// followed by the end of the tag.
proof fn lemma_attrs_written(
    s: Seq<char>,
    name: Seq<char>,
    i: int,
    attrs: Seq<AttributeView>,
    acc: Seq<AttributeView>,
    self_closing: bool,
)
    requires
        forall|k: int| 0 <= k < attrs.len() ==> #[trigger] is_attribute(attrs[k]),
        stands_at(s, i, attr_tokens(attrs) + tag_end_text(self_closing)),
    ensures
        attrs_from(s, name, i, acc) == Ok::<TagScan, crate::error::ErrorView>(opening_scan(
            name,
            acc + attrs,
            self_closing,
            i + attr_tokens(attrs).len() + tag_end_text(self_closing).len(),
        )),
    decreases attrs.len(),
{
    let t = attr_tokens(attrs) + tag_end_text(self_closing);
    if attrs.len() == 0 {
        assert(t == tag_end_text(self_closing));
        lemma_stands_index(s, i, t, 0);
        if self_closing {
            lemma_stands_index(s, i, t, 1);
        }
        assert(attr_scan(s, i) == attr_close(s, (Seq::<char>::empty(), None::<Seq<char>>), i)) by {
            assert(s.subrange(i, i) =~= Seq::<char>::empty());
        }
        assert(acc + attrs =~= acc);
    } else {
        let a = attrs[0];
        let tok = attr_token(a);
        let rest = attrs.drop_first();
        let tail = attr_tokens(rest) + tag_end_text(self_closing);
        assert(t =~= seq![' '] + tok + tail);
        let j = i + 1 + tok.len() as int;
        assert(is_attribute(a));
        lemma_stands_index(s, i, t, 0);
        lemma_stands_sub(s, i, t, 1, 1 + tok.len() as int);
        assert(t.subrange(1, 1 + tok.len() as int) =~= tok);
        lemma_stands_sub(s, i, t, 1 + tok.len() as int, t.len() as int);
        assert(t.subrange(1 + tok.len() as int, t.len() as int) =~= tail);
        let key = a.0;
        lemma_stands_sub(s, i + 1, tok, 0, key.len() as int);
        assert(tok.subrange(0, key.len() as int) =~= key);
        lemma_stands_index(s, i + 1, key, 0);
        assert(skip_ws(s, i + 1) == i + 1);
        assert(skip_ws(s, i) == i + 1);
        lemma_stands_index(s, j, tail, 0);
        if rest.len() > 0 {
            assert(tail[0] == ' ');
        } else {
            assert(tail == tag_end_text(self_closing));
        }
        match a.1 {
            Some(v) => {
                assert(tok =~= key + seq!['='] + v);
                lemma_stands_index(s, i + 1, tok, key.len() as int);
                lemma_alpha_run(s, i + 1, key);
                lemma_stands_sub(s, i + 1, tok, key.len() as int + 1, tok.len() as int);
                assert(tok.subrange(key.len() as int + 1, tok.len() as int) =~= v);
                lemma_alnum_run(s, i + 1 + key.len() + 1, v);
                assert(attr_scan(s, i) == attr_close(s, a, j));
            },
            None => {
                assert(tok == key);
                lemma_alpha_run(s, i + 1, key);
                assert(attr_scan(s, i) == attr_close(s, a, j));
            },
        }
        assert(keep(acc, a) == acc.push(a));
        if rest.len() > 0 {
            lemma_attrs_from_space(s, name, j, acc.push(a));
            assert forall|k: int| 0 <= k < rest.len() implies #[trigger] is_attribute(rest[k]) by {
                assert(rest[k] == attrs[k + 1]);
            }
            lemma_attrs_written(s, name, j, rest, acc.push(a), self_closing);
            assert(acc.push(a) + rest =~= acc + attrs);
        } else {
            if self_closing {
                lemma_stands_index(s, j, tail, 1);
            }
            assert(acc.push(a) =~= acc + attrs);
        }
    }
}

/// A written opening or self-closing tag reads back exactly: its name, and
/// all of its attributes in the order in which they are written, repeated
/// keys included; the tag parser stops right after it.
pub proof fn lemma_written_tag_reads(
    s: Seq<char>,
    p: int,
    name: Seq<char>,
    attrs: Seq<AttributeView>,
    self_closing: bool,
)
    requires
        is_word(name),
        forall|k: int| 0 <= k < attrs.len() ==> #[trigger] is_attribute(attrs[k]),
        stands_at(s, p, open_tag_text(name, attrs, self_closing)),
    ensures
        tag_at(s, p) == Ok::<TagScan, crate::error::ErrorView>(
            opening_scan(name, attrs, self_closing, p + open_tag_text(name, attrs, self_closing).len()),
        ),
{
    let t = open_tag_text(name, attrs, self_closing);
    let tail = attr_tokens(attrs) + tag_end_text(self_closing);
    assert(t =~= seq!['<'] + name + tail);
    lemma_stands_index(s, p, t, 0);
    assert(skip_ws(s, p) == p);
    lemma_stands_sub(s, p, t, 1, 1 + name.len() as int);
    assert(t.subrange(1, 1 + name.len() as int) =~= name);
    lemma_stands_sub(s, p, t, 1 + name.len() as int, t.len() as int);
    assert(t.subrange(1 + name.len() as int, t.len() as int) =~= tail);
    let e = p + 1 + name.len();
    lemma_stands_index(s, e, tail, 0);
    if attrs.len() > 0 {
        assert(tail[0] == ' ');
    }
    lemma_stands_index(s, p + 1, name, 0);
    assert(alpha_char(name[0]));
    lemma_alpha_run(s, p + 1, name);
    assert(s.subrange(p + 1, e) == name);
    lemma_attrs_written(s, name, e, attrs, Seq::empty(), self_closing);
    assert(Seq::<AttributeView>::empty() + attrs =~= attrs);
}

/// A written closing tag reads back as a closing tag of its name; the tag
/// parser stops right after it.
pub proof fn lemma_written_close_reads(s: Seq<char>, p: int, name: Seq<char>)
    requires
        is_word(name),
        stands_at(s, p, close_tag_text(name)),
    ensures
        tag_at(s, p) == Ok::<TagScan, crate::error::ErrorView>(
            TagScan::Close { name, next: p + close_tag_text(name).len() },
        ),
{
    let t = close_tag_text(name);
    lemma_stands_index(s, p, t, 0);
    lemma_stands_index(s, p, t, 1);
    lemma_stands_index(s, p, t, 2 + name.len() as int);
    assert(skip_ws(s, p) == p);
    lemma_stands_sub(s, p, t, 2, 2 + name.len() as int);
    assert(t.subrange(2, 2 + name.len() as int) =~= name);
    lemma_alpha_run(s, p + 2, name);
}

} // verus!

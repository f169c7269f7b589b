//! Node identity, node data, and the error taxonomy of the document tree.

use vstd::prelude::*;

verus! {

/// Opaque handle identifying a node slot in the document's arena.
///
/// An id stays valid until its slot is freed; every operation on a freed or
/// out-of-range id fails with `DocError::InvalidId` rather than touching
/// another node's data (slots are never reused, so a stale id can never
/// alias a younger node).
#[derive(Clone, Copy, PartialEq, Eq, Structural, Debug)]
pub struct NodeId(pub usize);

/// Why a document operation was refused.
#[derive(Clone, Copy, PartialEq, Eq, Structural, Debug)]
pub enum DocError {
    /// The id is out of range or its slot has been freed.
    InvalidId,
    /// The operation needs an element but the id names a text node.
    NotAnElement,
    /// The operation needs a text node but the id names an element.
    NotATextNode,
    /// A child was to be inserted past the end of the child sequence.
    IndexOutOfRange,
    /// The node to remove is not a child of the given parent.
    ChildNotFound,
    /// The node to free still has a live parent link.
    StillAttached,
}

/// One attribute of an element.
pub struct Attr {
    pub name: String,
    pub value: String,
}

/// A node of the tree: an element with attributes and ordered children, or a
/// text node. Both kinds carry a back-reference to their parent (`None` while
/// detached).
pub enum Node {
    Element {
        local_name: String,
        attributes: Vec<Attr>,
        children: Vec<NodeId>,
        parent: Option<NodeId>,
    },
    Text {
        text: String,
        parent: Option<NodeId>,
    },
}

/// The attribute list as the contracts see it: a sequence of (name, value)
/// pairs in insertion order.
pub open spec fn attrs_view(attrs: Seq<Attr>) -> Seq<(Seq<char>, Seq<char>)> {
    attrs.map(|i: int, a: Attr| (a.name@, a.value@))
}

/// The value of attribute `name`, or `None` if absent (first match; under the
/// document's well-formedness names are unique, so "first" is "the").
pub open spec fn attr_value(attrs: Seq<(Seq<char>, Seq<char>)>, name: Seq<char>) -> Option<Seq<char>>
    decreases attrs.len(),
{
    if attrs.len() == 0 {
        None
    } else if attrs[0].0 == name {
        Some(attrs[0].1)
    } else {
        attr_value(attrs.drop_first(), name)
    }
}

/// The attribute list after an upsert of `name` to `value`: the first pair
/// named `name` has its value replaced, or a fresh pair is appended if none
/// exists. Order and the other pairs are untouched.
pub open spec fn upsert_attr(
    attrs: Seq<(Seq<char>, Seq<char>)>,
    name: Seq<char>,
    value: Seq<char>,
) -> Seq<(Seq<char>, Seq<char>)>
    decreases attrs.len(),
{
    if attrs.len() == 0 {
        seq![(name, value)]
    } else if attrs[0].0 == name {
        seq![(name, value)] + attrs.drop_first()
    } else {
        seq![attrs[0]] + upsert_attr(attrs.drop_first(), name, value)
    }
}

/// Reading an attribute just written yields the written value; reading any
/// other name is unaffected by the write. Together with `upsert_attr` keeping
/// every other pair, this is the attribute round-trip law.
pub proof fn lemma_attr_round_trip(
    attrs: Seq<(Seq<char>, Seq<char>)>,
    name: Seq<char>,
    value: Seq<char>,
    other: Seq<char>,
)
    ensures
        attr_value(upsert_attr(attrs, name, value), name) == Some(value),
        other != name ==> attr_value(upsert_attr(attrs, name, value), other) == attr_value(
            attrs,
            other,
        ),
    decreases attrs.len(),
{
    if attrs.len() == 0 {
        assert(upsert_attr(attrs, name, value) == seq![(name, value)]);
        assert(attr_value(seq![(name, value)], name) == Some(value));
        assert(other != name ==> attr_value(seq![(name, value)], other) == attr_value(
            seq![(name, value)].drop_first(),
            other,
        ));
        assert(seq![(name, value)].drop_first() =~= Seq::<(Seq<char>, Seq<char>)>::empty());
    } else if attrs[0].0 == name {
        let u = seq![(name, value)] + attrs.drop_first();
        assert(u[0] == (name, value));
        assert(u.drop_first() =~= attrs.drop_first());
    } else {
        let u = seq![attrs[0]] + upsert_attr(attrs.drop_first(), name, value);
        assert(u[0] == attrs[0]);
        assert(u.drop_first() =~= upsert_attr(attrs.drop_first(), name, value));
        lemma_attr_round_trip(attrs.drop_first(), name, value, other);
    }
}

/// Some pair of `attrs` is named `name`.
pub open spec fn has_name(attrs: Seq<(Seq<char>, Seq<char>)>, name: Seq<char>) -> bool {
    exists|j: int| 0 <= j < attrs.len() && (#[trigger] attrs[j]).0 == name
}

/// `upsert_attr` either replaces the value of the first (and under the
/// document's well-formedness, only) pair named `name` in place, or, if no
/// pair has that name, appends a fresh pair at the end.
pub proof fn lemma_upsert_shape(
    attrs: Seq<(Seq<char>, Seq<char>)>,
    name: Seq<char>,
    value: Seq<char>,
)
    ensures
        has_name(attrs, name) ==> exists|i: int|
            {
                &&& 0 <= i < attrs.len()
                &&& (#[trigger] attrs[i]).0 == name
                &&& (forall|j: int| 0 <= j < i ==> (#[trigger] attrs[j]).0 != name)
                &&& upsert_attr(attrs, name, value) == attrs.update(i, (name, value))
            },
        !has_name(attrs, name) ==> upsert_attr(attrs, name, value) == attrs.push((name, value)),
    decreases attrs.len(),
{
    if attrs.len() == 0 {
        assert(upsert_attr(attrs, name, value) =~= attrs.push((name, value)));
    } else if attrs[0].0 == name {
        let i: int = 0;
        assert(upsert_attr(attrs, name, value) =~= attrs.update(i, (name, value)));
        assert(0 <= i < attrs.len() && attrs[i].0 == name && (forall|j: int|
            0 <= j < i ==> (#[trigger] attrs[j]).0 != name) && upsert_attr(attrs, name, value)
            == attrs.update(i, (name, value)));
    } else {
        let rest = attrs.drop_first();
        lemma_upsert_shape(rest, name, value);
        if has_name(attrs, name) {
            let w = choose|j: int| 0 <= j < attrs.len() && (#[trigger] attrs[j]).0 == name;
            assert(rest[w - 1].0 == name);
            assert(has_name(rest, name));
            let i0 = choose|i: int|
                {
                    &&& 0 <= i < rest.len()
                    &&& (#[trigger] rest[i]).0 == name
                    &&& (forall|j: int| 0 <= j < i ==> (#[trigger] rest[j]).0 != name)
                    &&& upsert_attr(rest, name, value) == rest.update(i, (name, value))
                };
            let i = i0 + 1;
            assert(attrs[i].0 == name);
            assert forall|j: int| 0 <= j < i implies (#[trigger] attrs[j]).0 != name by {
                if j > 0 {
                    assert(rest[j - 1].0 != name);
                }
            }
            assert(upsert_attr(attrs, name, value) =~= attrs.update(i, (name, value)));
            assert(0 <= i < attrs.len() && attrs[i].0 == name && (forall|j: int|
                0 <= j < i ==> (#[trigger] attrs[j]).0 != name) && upsert_attr(attrs, name, value)
                == attrs.update(i, (name, value)));
        } else {
            assert(!has_name(rest, name)) by {
                if has_name(rest, name) {
                    let j = choose|j: int| 0 <= j < rest.len() && (#[trigger] rest[j]).0 == name;
                    assert(attrs[j + 1].0 == name);
                }
            }
            assert(upsert_attr(attrs, name, value) =~= attrs.push((name, value)));
        }
    }
}

/// The lookup finds the value stored at the first pair named `name`.
pub proof fn lemma_attr_value_at(attrs: Seq<(Seq<char>, Seq<char>)>, name: Seq<char>, i: int)
    requires
        0 <= i < attrs.len(),
        attrs[i].0 == name,
        forall|j: int| 0 <= j < i ==> (#[trigger] attrs[j]).0 != name,
    ensures
        attr_value(attrs, name) == Some(attrs[i].1),
    decreases i,
{
    if i > 0 {
        lemma_attr_value_at(attrs.drop_first(), name, i - 1);
    }
}

/// A child sequence with the first occurrence of `c` removed; the sequence
/// itself if `c` does not occur.
pub open spec fn remove_first(s: Seq<NodeId>, c: NodeId) -> Seq<NodeId>
    decreases s.len(),
{
    if s.len() == 0 {
        s
    } else if s[0] == c {
        s.drop_first()
    } else {
        seq![s[0]] + remove_first(s.drop_first(), c)
    }
}

/// Removing the first occurrence is removal at the first matching index.
pub proof fn lemma_remove_first_at(s: Seq<NodeId>, c: NodeId, i: int)
    requires
        0 <= i < s.len(),
        s[i] == c,
        forall|j: int| 0 <= j < i ==> s[j] != c,
    ensures
        remove_first(s, c) == s.remove(i),
    decreases i,
{
    if i == 0 {
        assert(remove_first(s, c) =~= s.remove(0));
    } else {
        lemma_remove_first_at(s.drop_first(), c, i - 1);
        assert(remove_first(s, c) =~= s.remove(i));
    }
}

/// Inserting an id that was not present and then removing it restores the
/// child sequence exactly: no phantom children are left behind.
pub proof fn lemma_insert_then_remove(s: Seq<NodeId>, i: int, c: NodeId)
    requires
        0 <= i <= s.len(),
        !s.contains(c),
    ensures
        remove_first(s.insert(i, c), c) == s,
{
    let t = s.insert(i, c);
    s.insert_ensures(i, c);
    assert forall|j: int| 0 <= j < i implies t[j] != c by {
        assert(s[j] != c);
    }
    lemma_remove_first_at(t, c, i);
    assert(t.remove(i) =~= s);
}

/// An unset attribute reads as absent: if no pair is named `name`, the lookup
/// yields `None`.
pub proof fn lemma_attr_absent(attrs: Seq<(Seq<char>, Seq<char>)>, name: Seq<char>)
    requires
        forall|j: int| 0 <= j < attrs.len() ==> (#[trigger] attrs[j]).0 != name,
    ensures
        attr_value(attrs, name) is None,
    decreases attrs.len(),
{
    if attrs.len() > 0 {
        lemma_attr_absent(attrs.drop_first(), name);
    }
}

} // verus!

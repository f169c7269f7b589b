//! The document: an arena of node slots, a root pointer, and a per-node
//! expando slot bridging each node to an externally managed wrapper object.

use vstd::prelude::*;

use crate::node::{
    Attr, DocError, Node, NodeId, attr_value, attrs_view, has_name, lemma_attr_absent,
    lemma_attr_round_trip, lemma_attr_value_at, lemma_upsert_shape, upsert_attr,
};

verus! {

/// One live arena slot: the node itself plus the optional external-reference
/// payload ("expando") the host runtime attached to it.
pub struct Slot<R> {
    pub node: Node,
    pub expando: Option<R>,
}

/// The document owns every node transitively. Slots are allocated by pushing
/// and freed by blanking (`None`); a slot index is never reused, so stale ids
/// are always detected.
pub struct Document<R> {
    pub store: Vec<Option<Slot<R>>>,
    pub root: Option<NodeId>,
}

impl<R> Document<R> {
    /// How many slots have ever been allocated (live and freed alike).
    pub open spec fn n_slots(self) -> int {
        self.store@.len() as int
    }

    /// The slot at `i` holds a node that has not been freed.
    pub open spec fn live(self, i: int) -> bool {
        0 <= i < self.n_slots() && self.store@[i] is Some
    }

    pub open spec fn slot(self, i: int) -> Slot<R> {
        match self.store@[i] {
            Some(s) => s,
            None => arbitrary(),
        }
    }

    pub open spec fn node(self, i: int) -> Node {
        self.slot(i).node
    }

    pub open spec fn is_element(self, i: int) -> bool {
        self.live(i) && self.node(i) is Element
    }

    pub open spec fn is_text(self, i: int) -> bool {
        self.live(i) && self.node(i) is Text
    }

    /// An element's local name; the empty sequence for non-elements.
    pub open spec fn name(self, i: int) -> Seq<char> {
        match self.node(i) {
            Node::Element { local_name, .. } => local_name@,
            Node::Text { .. } => Seq::empty(),
        }
    }

    /// A text node's content; the empty sequence for elements.
    pub open spec fn text(self, i: int) -> Seq<char> {
        match self.node(i) {
            Node::Text { text, .. } => text@,
            Node::Element { .. } => Seq::empty(),
        }
    }

    /// An element's attributes as (name, value) pairs; empty for non-elements.
    pub open spec fn attrs(self, i: int) -> Seq<(Seq<char>, Seq<char>)> {
        match self.node(i) {
            Node::Element { attributes, .. } => attrs_view(attributes@),
            Node::Text { .. } => Seq::empty(),
        }
    }

    /// An element's child sequence, in document order; empty for non-elements.
    pub open spec fn children(self, i: int) -> Seq<NodeId> {
        match self.node(i) {
            Node::Element { children, .. } => children@,
            Node::Text { .. } => Seq::empty(),
        }
    }

    pub open spec fn parent(self, i: int) -> Option<NodeId> {
        match self.node(i) {
            Node::Element { parent, .. } => parent,
            Node::Text { parent, .. } => parent,
        }
    }

    pub open spec fn expando_of(self, i: int) -> Option<R> {
        self.slot(i).expando
    }

    pub open spec fn root_id(self) -> Option<NodeId> {
        self.root
    }

    /// Well-formedness of the tree shape:
    /// - the root, if set, names a live slot;
    /// - every child of a live node is live and records that node as its
    ///   parent (so a walk from any live node only meets live nodes, and a
    ///   detached node — parent `None` — sits in no child sequence at all);
    /// - no child sequence repeats an id;
    /// - no attribute list repeats a name.
    pub open spec fn wf(self) -> bool {
        self.wf_root() && self.wf_nodes()
    }

    /// The root, if set, names a live slot.
    pub open spec fn wf_root(self) -> bool {
        match self.root {
            Some(r) => self.live(r.0 as int),
            None => true,
        }
    }

    /// The structural part of well-formedness, root aside.
    pub open spec fn wf_nodes(self) -> bool {
        &&& forall|i: int, j: int|
            self.live(i) && 0 <= j < self.children(i).len() ==> {
                &&& self.live((#[trigger] self.children(i)[j]).0 as int)
                &&& self.parent(self.children(i)[j].0 as int) matches Some(q) && q.0 as int == i
            }
        &&& forall|i: int, j: int, k: int|
            self.live(i) && 0 <= j < k < self.children(i).len() ==> #[trigger] self.children(i)[j]
                != #[trigger] self.children(i)[k]
        &&& forall|i: int, j: int, k: int|
            self.live(i) && 0 <= j < k < self.attrs(i).len() ==> (#[trigger] self.attrs(i)[j]).0
                != (#[trigger] self.attrs(i)[k]).0
    }

    /// Every slot of `self` other than `a` and `b` is carried over unchanged
    /// into `post` (which may have grown by allocation).
    pub open spec fn same_slots_except(self, post: Document<R>, a: int, b: int) -> bool {
        forall|i: int|
            0 <= i < self.store@.len() && i != a && i != b ==> #[trigger] post.store@[i]
                == self.store@[i]
    }

    /// A fresh, empty document: no nodes, no root.
    pub fn new() -> (doc: Document<R>)
        ensures
            doc.n_slots() == 0,
            doc.root_id() is None,
            doc.wf(),
    {
        Document { store: Vec::new(), root: None }
    }

    /// Allocates a fresh element slot: empty attributes, no children, detached,
    /// no expando. Never fails; the returned id names the new slot.
    pub fn create_element(&mut self, local_name: &str) -> (id: NodeId)
        ensures
            id.0 == old(self).n_slots(),
            final(self).n_slots() == old(self).n_slots() + 1,
            final(self).is_element(id.0 as int),
            final(self).name(id.0 as int) == local_name@,
            final(self).attrs(id.0 as int) == Seq::<(Seq<char>, Seq<char>)>::empty(),
            final(self).children(id.0 as int) == Seq::<NodeId>::empty(),
            final(self).parent(id.0 as int) is None,
            final(self).expando_of(id.0 as int) is None,
            old(self).same_slots_except(*final(self), id.0 as int, id.0 as int),
            final(self).root_id() == old(self).root_id(),
            old(self).wf() ==> final(self).wf(),
    {
        let id = NodeId(self.store.len());
        let node = Node::Element {
            local_name: local_name.to_owned(),
            attributes: Vec::new(),
            children: Vec::new(),
            parent: None,
        };
        self.store.push(Some(Slot { node, expando: None }));
        proof {
            assert(self.attrs(id.0 as int) =~= Seq::<(Seq<char>, Seq<char>)>::empty());
            if old(self).wf() {
                lemma_push_keeps_wf(*old(self), *self);
            }
        }
        id
    }

    /// Allocates a fresh text-node slot: detached, no expando. Never fails.
    pub fn create_text_node(&mut self, text: &str) -> (id: NodeId)
        ensures
            id.0 == old(self).n_slots(),
            final(self).n_slots() == old(self).n_slots() + 1,
            final(self).is_text(id.0 as int),
            final(self).text(id.0 as int) == text@,
            final(self).parent(id.0 as int) is None,
            final(self).expando_of(id.0 as int) is None,
            old(self).same_slots_except(*final(self), id.0 as int, id.0 as int),
            final(self).root_id() == old(self).root_id(),
            old(self).wf() ==> final(self).wf(),
    {
        let id = NodeId(self.store.len());
        let node = Node::Text { text: text.to_owned(), parent: None };
        self.store.push(Some(Slot { node, expando: None }));
        proof {
            if old(self).wf() {
                lemma_push_keeps_wf(*old(self), *self);
            }
        }
        id
    }
    /// Why `set_root`, `set_expando` or `expando` would fail on `id`.
    pub open spec fn id_err(self, id: NodeId) -> Option<DocError> {
        if !self.live(id.0 as int) {
            Some(DocError::InvalidId)
        } else {
            None
        }
    }

    /// Replaces the document root pointer. The node's parent field is not
    /// touched and no previous root is validated: the caller may reassign
    /// freely. Only a freed or out-of-range id is refused.
    pub fn set_root(&mut self, id: NodeId) -> (r: Result<(), DocError>)
        ensures
            r is Ok <==> old(self).live(id.0 as int),
            r is Ok ==> final(self).root_id() == Some(id),
            r matches Err(e) ==> Some(e) == old(self).id_err(id) && *final(self) == *old(self),
            final(self).store == old(self).store,
            old(self).wf() ==> final(self).wf(),
    {
        if id.0 >= self.store.len() {
            return Err(DocError::InvalidId);
        }
        match &self.store[id.0] {
            None => Err(DocError::InvalidId),
            Some(_) => {
                self.root = Some(id);
                proof {
                    if old(self).wf() {
                        lemma_same_structure_wf(*old(self), *self);
                    }
                }
                Ok(())
            },
        }
    }

    /// Attaches or clears the external-reference payload of a node. The tree
    /// structure is untouched.
    pub fn set_expando(&mut self, id: NodeId, value: Option<R>) -> (r: Result<(), DocError>)
        ensures
            r is Ok <==> old(self).live(id.0 as int),
            r matches Err(e) ==> Some(e) == old(self).id_err(id) && *final(self) == *old(self),
            r is Ok ==> {
                &&& final(self).expando_of(id.0 as int) == value
                &&& final(self).node(id.0 as int) == old(self).node(id.0 as int)
                &&& final(self).live(id.0 as int)
            },
            final(self).n_slots() == old(self).n_slots(),
            old(self).same_slots_except(*final(self), id.0 as int, id.0 as int),
            final(self).root_id() == old(self).root_id(),
            old(self).wf() ==> final(self).wf(),
    {
        if id.0 >= self.store.len() {
            return Err(DocError::InvalidId);
        }
        match &self.store[id.0] {
            None => {
                return Err(DocError::InvalidId);
            },
            Some(_) => {},
        }
        match &mut self.store[id.0] {
            Some(slot) => {
                slot.expando = value;
            },
            None => {},
        }
        proof {
            if old(self).wf() {
                lemma_same_structure_wf(*old(self), *self);
                assert(self.wf_root());
            }
        }
        Ok(())
    }

    /// Returns the external-reference payload attached to a node (`None` if
    /// never set), or `InvalidId` for a freed or out-of-range id.
    pub fn expando(&self, id: NodeId) -> (r: Result<Option<&R>, DocError>)
        ensures
            r is Ok <==> self.live(id.0 as int),
            r matches Err(e) ==> Some(e) == self.id_err(id),
            r matches Ok(v) ==> match v {
                Some(x) => self.expando_of(id.0 as int) == Some(*x),
                None => self.expando_of(id.0 as int) is None,
            },
    {
        if id.0 >= self.store.len() {
            return Err(DocError::InvalidId);
        }
        match &self.store[id.0] {
            None => Err(DocError::InvalidId),
            Some(slot) => Ok(slot.expando.as_ref()),
        }
    }

    /// Why `set_text` would fail on `id`.
    pub open spec fn set_text_err(self, id: NodeId) -> Option<DocError> {
        if !self.live(id.0 as int) {
            Some(DocError::InvalidId)
        } else if !(self.node(id.0 as int) is Text) {
            Some(DocError::NotATextNode)
        } else {
            None
        }
    }

    /// Replaces a text node's content. Fails with `NotATextNode` on an
    /// element and `InvalidId` on a stale id; an error leaves the document
    /// untouched.
    pub fn set_text(&mut self, id: NodeId, text: &str) -> (r: Result<(), DocError>)
        ensures
            r is Ok <==> old(self).set_text_err(id) is None,
            r matches Err(e) ==> Some(e) == old(self).set_text_err(id)
                && *final(self) == *old(self),
            r is Ok ==> {
                &&& final(self).is_text(id.0 as int)
                &&& final(self).text(id.0 as int) == text@
                &&& final(self).parent(id.0 as int) == old(self).parent(id.0 as int)
                &&& final(self).expando_of(id.0 as int) == old(self).expando_of(id.0 as int)
            },
            final(self).n_slots() == old(self).n_slots(),
            old(self).same_slots_except(*final(self), id.0 as int, id.0 as int),
            final(self).root_id() == old(self).root_id(),
            old(self).wf() ==> final(self).wf(),
    {
        if id.0 >= self.store.len() {
            return Err(DocError::InvalidId);
        }
        match &self.store[id.0] {
            None => {
                return Err(DocError::InvalidId);
            },
            Some(slot) => match &slot.node {
                Node::Element { .. } => {
                    return Err(DocError::NotATextNode);
                },
                Node::Text { .. } => {},
            },
        }
        match &mut self.store[id.0] {
            Some(slot) => match &mut slot.node {
                Node::Text { text: t, .. } => {
                    *t = text.to_owned();
                },
                Node::Element { .. } => {},
            },
            None => {},
        }
        proof {
            if old(self).wf() {
                lemma_same_structure_wf(*old(self), *self);
                assert(self.wf_root());
            }
        }
        Ok(())
    }

    /// Why `set_attribute` or `attribute` would fail on `id`.
    pub open spec fn attr_err(self, id: NodeId) -> Option<DocError> {
        if !self.live(id.0 as int) {
            Some(DocError::InvalidId)
        } else if !(self.node(id.0 as int) is Element) {
            Some(DocError::NotAnElement)
        } else {
            None
        }
    }

    /// Upserts an attribute: the first pair with that name gets the new value,
    /// or a fresh pair is appended. Fails with `NotAnElement` on a text node
    /// and `InvalidId` on a stale id; an error leaves the document untouched.
    pub fn set_attribute(&mut self, id: NodeId, name: &str, value: &str) -> (r: Result<
        (),
        DocError,
    >)
        ensures
            r is Ok <==> old(self).attr_err(id) is None,
            r matches Err(e) ==> Some(e) == old(self).attr_err(id) && *final(self) == *old(self),
            r is Ok ==> {
                &&& final(self).is_element(id.0 as int)
                &&& final(self).attrs(id.0 as int) == upsert_attr(
                    old(self).attrs(id.0 as int),
                    name@,
                    value@,
                )
                &&& attr_value(final(self).attrs(id.0 as int), name@) == Some(value@)
                &&& forall|other: Seq<char>|
                    other != name@ ==> attr_value(final(self).attrs(id.0 as int), other)
                        == attr_value(old(self).attrs(id.0 as int), other)
                &&& final(self).name(id.0 as int) == old(self).name(id.0 as int)
                &&& final(self).children(id.0 as int) == old(self).children(id.0 as int)
                &&& final(self).parent(id.0 as int) == old(self).parent(id.0 as int)
                &&& final(self).expando_of(id.0 as int) == old(self).expando_of(id.0 as int)
            },
            final(self).n_slots() == old(self).n_slots(),
            old(self).same_slots_except(*final(self), id.0 as int, id.0 as int),
            final(self).root_id() == old(self).root_id(),
            old(self).wf() ==> final(self).wf(),
    {
        if id.0 >= self.store.len() {
            return Err(DocError::InvalidId);
        }
        match &self.store[id.0] {
            None => {
                return Err(DocError::InvalidId);
            },
            Some(slot) => match &slot.node {
                Node::Text { .. } => {
                    return Err(DocError::NotAnElement);
                },
                Node::Element { .. } => {},
            },
        }
        match &mut self.store[id.0] {
            Some(slot) => match &mut slot.node {
                Node::Element { attributes, .. } => {
                    upsert_attribute(attributes, name, value);
                },
                Node::Text { .. } => {},
            },
            None => {},
        }
        proof {
            lemma_attr_round_trip(old(self).attrs(id.0 as int), name@, value@, name@);
            assert forall|other: Seq<char>| other != name@ implies attr_value(
                self.attrs(id.0 as int),
                other,
            ) == attr_value(old(self).attrs(id.0 as int), other) by {
                lemma_attr_round_trip(old(self).attrs(id.0 as int), name@, value@, other);
            }
            if old(self).wf() {
                lemma_set_attr_keeps_wf(*old(self), *self, id, name@, value@);
            }
        }
        Ok(())
    }

    /// Reads attribute `name` of an element: the stored value, or `None` if
    /// the attribute was never set.
    pub fn attribute(&self, id: NodeId, name: &str) -> (r: Result<Option<String>, DocError>)
        ensures
            r is Ok <==> self.attr_err(id) is None,
            r matches Err(e) ==> Some(e) == self.attr_err(id),
            r matches Ok(v) ==> match v {
                Some(s) => attr_value(self.attrs(id.0 as int), name@) == Some(s@),
                None => attr_value(self.attrs(id.0 as int), name@) is None,
            },
    {
        if id.0 >= self.store.len() {
            return Err(DocError::InvalidId);
        }
        match &self.store[id.0] {
            None => Err(DocError::InvalidId),
            Some(slot) => match &slot.node {
                Node::Text { .. } => Err(DocError::NotAnElement),
                Node::Element { attributes, .. } => {
                    let name_owned = name.to_owned();
                    let ghost view = attrs_view(attributes@);
                    let mut i: usize = 0;
                    while i < attributes.len()
                        invariant
                            i <= attributes.len(),
                            view == attrs_view(attributes@),
                            self.attr_err(id) is None,
                            self.attrs(id.0 as int) == view,
                            name_owned@ == name@,
                            forall|j: int| 0 <= j < i ==> (#[trigger] view[j]).0 != name@,
                        decreases attributes.len() - i,
                    {
                        if attributes[i].name == name_owned {
                            proof {
                                lemma_attr_value_at(view, name@, i as int);
                            }
                            return Ok(Some(attributes[i].value.clone()));
                        }
                        i += 1;
                    }
                    proof {
                        lemma_attr_absent(view, name@);
                    }
                    Ok(None)
                },
            },
        }
    }

    /// Why `insert_child` would fail.
    pub open spec fn insert_child_err(self, parent: NodeId, index: usize, child: NodeId) -> Option<
        DocError,
    > {
        if !self.live(parent.0 as int) || !self.live(child.0 as int) {
            Some(DocError::InvalidId)
        } else if !(self.node(parent.0 as int) is Element) {
            Some(DocError::NotAnElement)
        } else if index > self.children(parent.0 as int).len() {
            Some(DocError::IndexOutOfRange)
        } else {
            None
        }
    }

    /// Inserts `child` into `parent`'s child sequence at `index` and points the
    /// child's parent back-reference at `parent`. An index past the current
    /// length is rejected with `IndexOutOfRange`; any error leaves the document
    /// untouched. No cycle check is made: inserting a node under its own
    /// descendant, or a node that is still attached elsewhere, is a caller
    /// contract violation (it forfeits well-formedness, as the last clause
    /// says, but is carried out as asked).
    pub fn insert_child(&mut self, parent: NodeId, index: usize, child: NodeId) -> (r: Result<
        (),
        DocError,
    >)
        ensures
            r is Ok <==> old(self).insert_child_err(parent, index, child) is None,
            r matches Err(e) ==> Some(e) == old(self).insert_child_err(parent, index, child)
                && *final(self) == *old(self),
            r is Ok ==> {
                &&& final(self).is_element(parent.0 as int)
                &&& final(self).children(parent.0 as int) == old(self).children(
                    parent.0 as int,
                ).insert(index as int, child)
                &&& final(self).parent(child.0 as int) == Some(parent)
                &&& final(self).live(child.0 as int)
                &&& final(self).is_element(child.0 as int) == old(self).is_element(child.0 as int)
                &&& final(self).name(parent.0 as int) == old(self).name(parent.0 as int)
                &&& final(self).attrs(parent.0 as int) == old(self).attrs(parent.0 as int)
                &&& final(self).expando_of(parent.0 as int) == old(self).expando_of(
                    parent.0 as int,
                )
                &&& final(self).name(child.0 as int) == old(self).name(child.0 as int)
                &&& final(self).text(child.0 as int) == old(self).text(child.0 as int)
                &&& final(self).attrs(child.0 as int) == old(self).attrs(child.0 as int)
                &&& final(self).expando_of(child.0 as int) == old(self).expando_of(child.0 as int)
                &&& parent.0 != child.0 ==> final(self).children(child.0 as int)
                    == old(self).children(child.0 as int) && final(self).parent(parent.0 as int)
                    == old(self).parent(parent.0 as int)
            },
            final(self).n_slots() == old(self).n_slots(),
            old(self).same_slots_except(*final(self), parent.0 as int, child.0 as int),
            final(self).root_id() == old(self).root_id(),
            old(self).wf() && r is Ok && old(self).parent(child.0 as int) is None
                ==> final(self).wf(),
    {
        if parent.0 >= self.store.len() || child.0 >= self.store.len() {
            return Err(DocError::InvalidId);
        }
        match &self.store[child.0] {
            None => {
                return Err(DocError::InvalidId);
            },
            Some(_) => {},
        }
        match &self.store[parent.0] {
            None => {
                return Err(DocError::InvalidId);
            },
            Some(slot) => match &slot.node {
                Node::Text { .. } => {
                    return Err(DocError::NotAnElement);
                },
                Node::Element { children, .. } => {
                    if index > children.len() {
                        return Err(DocError::IndexOutOfRange);
                    }
                },
            },
        }
        match &mut self.store[parent.0] {
            Some(slot) => match &mut slot.node {
                Node::Element { children, .. } => {
                    children.insert(index, child);
                },
                Node::Text { .. } => {},
            },
            None => {},
        }
        match &mut self.store[child.0] {
            Some(slot) => match &mut slot.node {
                Node::Element { parent: p, .. } => {
                    *p = Some(parent);
                },
                Node::Text { parent: p, .. } => {
                    *p = Some(parent);
                },
            },
            None => {},
        }
        proof {
            if old(self).wf() && old(self).parent(child.0 as int) is None {
                lemma_insert_child_keeps_wf(*old(self), *self, parent, index, child);
            }
        }
        Ok(())
    }

    /// Why `remove_child` would fail.
    pub open spec fn remove_child_err(self, parent: NodeId, child: NodeId) -> Option<DocError> {
        if !self.live(parent.0 as int) || !self.live(child.0 as int) {
            Some(DocError::InvalidId)
        } else if !(self.node(parent.0 as int) is Element) {
            Some(DocError::NotAnElement)
        } else if !self.children(parent.0 as int).contains(child) {
            Some(DocError::ChildNotFound)
        } else {
            None
        }
    }

    /// Removes the first occurrence of `child` from `parent`'s child sequence
    /// and clears the child's parent back-reference. The node is only
    /// detached, never freed. Removing a child that is not there fails with
    /// `ChildNotFound` and leaves the document exactly as it was.
    pub fn remove_child(&mut self, parent: NodeId, child: NodeId) -> (r: Result<(), DocError>)
        ensures
            r is Ok <==> old(self).remove_child_err(parent, child) is None,
            r matches Err(e) ==> Some(e) == old(self).remove_child_err(parent, child)
                && *final(self) == *old(self),
            r is Ok ==> {
                &&& final(self).is_element(parent.0 as int)
                &&& final(self).children(parent.0 as int) == crate::node::remove_first(
                    old(self).children(parent.0 as int),
                    child,
                )
                &&& final(self).parent(child.0 as int) is None
                &&& final(self).live(child.0 as int)
                &&& final(self).is_element(child.0 as int) == old(self).is_element(child.0 as int)
                &&& final(self).name(parent.0 as int) == old(self).name(parent.0 as int)
                &&& final(self).attrs(parent.0 as int) == old(self).attrs(parent.0 as int)
                &&& final(self).expando_of(parent.0 as int) == old(self).expando_of(
                    parent.0 as int,
                )
                &&& final(self).name(child.0 as int) == old(self).name(child.0 as int)
                &&& final(self).text(child.0 as int) == old(self).text(child.0 as int)
                &&& final(self).attrs(child.0 as int) == old(self).attrs(child.0 as int)
                &&& final(self).expando_of(child.0 as int) == old(self).expando_of(child.0 as int)
                &&& parent.0 != child.0 ==> final(self).children(child.0 as int)
                    == old(self).children(child.0 as int) && final(self).parent(parent.0 as int)
                    == old(self).parent(parent.0 as int)
            },
            final(self).n_slots() == old(self).n_slots(),
            old(self).same_slots_except(*final(self), parent.0 as int, child.0 as int),
            final(self).root_id() == old(self).root_id(),
            old(self).wf() ==> final(self).wf(),
    {
        if parent.0 >= self.store.len() || child.0 >= self.store.len() {
            return Err(DocError::InvalidId);
        }
        match &self.store[child.0] {
            None => {
                return Err(DocError::InvalidId);
            },
            Some(_) => {},
        }
        let pos: usize = match &self.store[parent.0] {
            None => {
                return Err(DocError::InvalidId);
            },
            Some(slot) => match &slot.node {
                Node::Text { .. } => {
                    return Err(DocError::NotAnElement);
                },
                Node::Element { children, .. } => match find_first(children, child) {
                    None => {
                        return Err(DocError::ChildNotFound);
                    },
                    Some(pos) => pos,
                },
            },
        };
        let ghost pre_children = self.children(parent.0 as int);
        match &mut self.store[parent.0] {
            Some(slot) => match &mut slot.node {
                Node::Element { children, .. } => {
                    children.remove(pos);
                },
                Node::Text { .. } => {},
            },
            None => {},
        }
        match &mut self.store[child.0] {
            Some(slot) => match &mut slot.node {
                Node::Element { parent: p, .. } => {
                    *p = None;
                },
                Node::Text { parent: p, .. } => {
                    *p = None;
                },
            },
            None => {},
        }
        proof {
            crate::node::lemma_remove_first_at(pre_children, child, pos as int);
            if old(self).wf() {
                lemma_remove_child_keeps_wf(*old(self), *self, parent, child, pos as int);
            }
        }
        Ok(())
    }

    /// Why `free_node` would fail.
    pub open spec fn free_err(self, id: NodeId) -> Option<DocError> {
        if !self.live(id.0 as int) {
            Some(DocError::InvalidId)
        } else if !(self.parent(id.0 as int) is None) {
            Some(DocError::StillAttached)
        } else {
            None
        }
    }

    /// Deallocates a node's slot (and with it the expando). A node that still
    /// has a live parent link is refused with `StillAttached`: detaching and
    /// freeing are separate lifecycle events, and freeing an attached node
    /// would leave its parent pointing at a freed slot. A root pointer naming
    /// the freed node is cleared so no freed id stays reachable.
    pub fn free_node(&mut self, id: NodeId) -> (r: Result<(), DocError>)
        ensures
            r is Ok <==> old(self).free_err(id) is None,
            r matches Err(e) ==> Some(e) == old(self).free_err(id) && *final(self) == *old(self),
            r is Ok ==> !final(self).live(id.0 as int),
            r is Ok ==> final(self).root_id() == (if old(self).root_id() == Some(id) {
                None::<NodeId>
            } else {
                old(self).root_id()
            }),
            final(self).n_slots() == old(self).n_slots(),
            old(self).same_slots_except(*final(self), id.0 as int, id.0 as int),
            r is Err ==> final(self).root_id() == old(self).root_id(),
            old(self).wf() ==> final(self).wf(),
    {
        if id.0 >= self.store.len() {
            return Err(DocError::InvalidId);
        }
        match &self.store[id.0] {
            None => {
                return Err(DocError::InvalidId);
            },
            Some(slot) => match &slot.node {
                Node::Element { parent, .. } => {
                    if parent.is_some() {
                        return Err(DocError::StillAttached);
                    }
                },
                Node::Text { parent, .. } => {
                    if parent.is_some() {
                        return Err(DocError::StillAttached);
                    }
                },
            },
        }
        let s = &mut self.store[id.0];
        *s = None;
        match self.root {
            Some(r) => {
                if r.0 == id.0 {
                    self.root = None;
                }
            },
            None => {},
        }
        proof {
            if old(self).wf() {
                lemma_free_keeps_wf(*old(self), *self, id);
            }
        }
        Ok(())
    }

    /// The finalization bridge entry point: the host's collector reports that
    /// the wrapper object for `id` has become unreachable. Frees the slot when
    /// the id is still live and detached; a stale id (slot already freed) or a
    /// node still attached to a parent is left untouched, so a late or
    /// repeated notification can never corrupt the tree, whatever unrelated
    /// mutations happened in the interim.
    pub fn finalize_node(&mut self, id: NodeId) -> (freed: bool)
        ensures
            freed <==> old(self).free_err(id) is None,
            freed ==> !final(self).live(id.0 as int),
            !freed ==> *final(self) == *old(self),
            final(self).n_slots() == old(self).n_slots(),
            old(self).same_slots_except(*final(self), id.0 as int, id.0 as int),
            old(self).wf() ==> final(self).wf(),
    {
        match self.free_node(id) {
            Ok(()) => true,
            Err(_) => false,
        }
    }

    /// A text node's content, cloned; `NotATextNode` on an element.
    pub fn text_content(&self, id: NodeId) -> (r: Result<String, DocError>)
        ensures
            r is Ok <==> self.set_text_err(id) is None,
            r matches Err(e) ==> Some(e) == self.set_text_err(id),
            r matches Ok(s) ==> s@ == self.text(id.0 as int),
    {
        if id.0 >= self.store.len() {
            return Err(DocError::InvalidId);
        }
        match &self.store[id.0] {
            None => Err(DocError::InvalidId),
            Some(slot) => match &slot.node {
                Node::Element { .. } => Err(DocError::NotATextNode),
                Node::Text { text, .. } => Ok(text.clone()),
            },
        }
    }

    /// A node's recorded parent (`None` while detached), or `InvalidId`.
    pub fn node_parent(&self, id: NodeId) -> (r: Result<Option<NodeId>, DocError>)
        ensures
            r is Ok <==> self.live(id.0 as int),
            r matches Err(e) ==> Some(e) == self.id_err(id),
            r matches Ok(p) ==> p == self.parent(id.0 as int),
    {
        if id.0 >= self.store.len() {
            return Err(DocError::InvalidId);
        }
        match &self.store[id.0] {
            None => Err(DocError::InvalidId),
            Some(slot) => match &slot.node {
                Node::Element { parent, .. } => Ok(*parent),
                Node::Text { parent, .. } => Ok(*parent),
            },
        }
    }

    /// An element's child ids in document order, copied; `NotAnElement` on a
    /// text node.
    pub fn child_ids(&self, id: NodeId) -> (r: Result<Vec<NodeId>, DocError>)
        ensures
            r is Ok <==> self.is_element(id.0 as int),
            r matches Err(e) ==> !self.is_element(id.0 as int) && (if !self.live(id.0 as int) {
                e == DocError::InvalidId
            } else {
                e == DocError::NotAnElement
            }),
            r matches Ok(v) ==> v@ == self.children(id.0 as int),
    {
        if id.0 >= self.store.len() {
            return Err(DocError::InvalidId);
        }
        match &self.store[id.0] {
            None => Err(DocError::InvalidId),
            Some(slot) => match &slot.node {
                Node::Text { .. } => Err(DocError::NotAnElement),
                Node::Element { children, .. } => {
                    let mut out: Vec<NodeId> = Vec::new();
                    let mut i: usize = 0;
                    while i < children.len()
                        invariant
                            i <= children.len(),
                            out@ == children@.take(i as int),
                        decreases children.len() - i,
                    {
                        out.push(children[i]);
                        proof {
                            assert(out@ =~= children@.take(i as int + 1));
                        }
                        i += 1;
                    }
                    proof {
                        assert(out@ =~= children@);
                    }
                    Ok(out)
                },
            },
        }
    }
}

/// Upserts `name` to `value` in an attribute list: replaces the value of the
/// first pair so named, or appends a fresh pair.
fn upsert_attribute(attrs: &mut Vec<Attr>, name: &str, value: &str)
    ensures
        attrs_view(final(attrs)@) == upsert_attr(attrs_view(old(attrs)@), name@, value@),
{
    let ghost pre = attrs_view(attrs@);
    let name_owned = name.to_owned();
    let mut i: usize = 0;
    while i < attrs.len()
        invariant
            i <= attrs.len(),
            *attrs == *old(attrs),
            pre == attrs_view(attrs@),
            name_owned@ == name@,
            forall|j: int| 0 <= j < i ==> (#[trigger] pre[j]).0 != name@,
        decreases attrs.len() - i,
    {
        if attrs[i].name == name_owned {
            let a = &mut attrs[i];
            a.value = value.to_owned();
            proof {
                assert(attrs_view(attrs@) =~= pre.update(i as int, (name@, value@)));
                lemma_upsert_shape(pre, name@, value@);
                assert(pre[i as int].0 == name@);
                let i0 = choose|k: int|
                    {
                        &&& 0 <= k < pre.len()
                        &&& (#[trigger] pre[k]).0 == name@
                        &&& (forall|j: int| 0 <= j < k ==> (#[trigger] pre[j]).0 != name@)
                        &&& upsert_attr(pre, name@, value@) == pre.update(k, (name@, value@))
                    };
                assert(i0 == i as int);
            }
            return;
        }
        i += 1;
    }
    attrs.push(Attr { name: name.to_owned(), value: value.to_owned() });
    proof {
        assert(attrs_view(attrs@) =~= pre.push((name@, value@)));
        assert(!has_name(pre, name@));
        lemma_upsert_shape(pre, name@, value@);
    }
}

/// Structural well-formedness survives an attribute upsert: the tree shape is
/// untouched and name-uniqueness is preserved whether the upsert replaced a
/// value in place or appended a fresh name.
proof fn lemma_set_attr_keeps_wf<R>(
    pre: Document<R>,
    post: Document<R>,
    id: NodeId,
    name: Seq<char>,
    value: Seq<char>,
)
    requires
        pre.wf(),
        pre.live(id.0 as int),
        post.n_slots() == pre.n_slots(),
        post.root_id() == pre.root_id(),
        pre.same_slots_except(post, id.0 as int, id.0 as int),
        post.live(id.0 as int),
        post.children(id.0 as int) == pre.children(id.0 as int),
        post.parent(id.0 as int) == pre.parent(id.0 as int),
        post.attrs(id.0 as int) == upsert_attr(pre.attrs(id.0 as int), name, value),
    ensures
        post.wf(),
{
    let t = id.0 as int;
    assert forall|i: int| #[trigger] post.live(i) <==> pre.live(i) by {}
    assert forall|i: int| pre.live(i) implies #[trigger] post.children(i) == pre.children(i) by {}
    assert forall|i: int| pre.live(i) implies #[trigger] post.parent(i) == pre.parent(i) by {}
    assert(post.wf_root());
    assert forall|i: int, j: int|
        post.live(i) && 0 <= j < post.children(i).len() implies {
        &&& post.live((#[trigger] post.children(i)[j]).0 as int)
        &&& post.parent(post.children(i)[j].0 as int) matches Some(q) && q.0 as int == i
    } by {
        let c = post.children(i)[j];
        assert(pre.live(c.0 as int));
    }
    assert forall|i: int, j: int, k: int|
        post.live(i) && 0 <= j < k < post.children(i).len() implies #[trigger] post.children(
        i,
    )[j] != #[trigger] post.children(i)[k] by {}
    let a = pre.attrs(t);
    lemma_upsert_shape(a, name, value);
    assert forall|i: int, j: int, k: int|
        post.live(i) && 0 <= j < k < post.attrs(i).len() implies (#[trigger] post.attrs(i)[j]).0
        != (#[trigger] post.attrs(i)[k]).0 by {
        if i == t {
            if has_name(a, name) {
                let w = choose|w: int|
                    {
                        &&& 0 <= w < a.len()
                        &&& (#[trigger] a[w]).0 == name
                        &&& (forall|j2: int| 0 <= j2 < w ==> (#[trigger] a[j2]).0 != name)
                        &&& upsert_attr(a, name, value) == a.update(w, (name, value))
                    };
                assert(post.attrs(i) == a.update(w, (name, value)));
                assert(a[j].0 != a[k].0);
            } else {
                assert(post.attrs(i) == a.push((name, value)));
                if k == a.len() {
                    assert(post.attrs(i)[j].0 == a[j].0);
                    assert(post.attrs(i)[k].0 == name);
                } else {
                    assert(a[j].0 != a[k].0);
                }
            }
        } else {
            assert(pre.attrs(i)[j].0 != pre.attrs(i)[k].0);
        }
    }
}

/// Inserting a detached node as a child keeps the tree well-formed: the new
/// child is live and now points back at its parent, every other parent/child
/// link is untouched, and a detached node cannot have been in any child
/// sequence, so no duplicate arises.
proof fn lemma_insert_child_keeps_wf<R>(
    pre: Document<R>,
    post: Document<R>,
    parent: NodeId,
    index: usize,
    child: NodeId,
)
    requires
        pre.wf(),
        pre.live(parent.0 as int),
        pre.live(child.0 as int),
        pre.node(parent.0 as int) is Element,
        index <= pre.children(parent.0 as int).len(),
        pre.parent(child.0 as int) is None,
        post.n_slots() == pre.n_slots(),
        post.root_id() == pre.root_id(),
        pre.same_slots_except(post, parent.0 as int, child.0 as int),
        post.live(parent.0 as int),
        post.live(child.0 as int),
        post.node(parent.0 as int) is Element,
        post.children(parent.0 as int) == pre.children(parent.0 as int).insert(
            index as int,
            child,
        ),
        post.parent(child.0 as int) == Some(parent),
        post.attrs(parent.0 as int) == pre.attrs(parent.0 as int),
        post.attrs(child.0 as int) == pre.attrs(child.0 as int),
        parent.0 != child.0 ==> post.children(child.0 as int) == pre.children(child.0 as int)
            && post.parent(parent.0 as int) == pre.parent(parent.0 as int),
    ensures
        post.wf(),
{
    let p = parent.0 as int;
    let c = child.0 as int;
    let pc = pre.children(p);
    pc.insert_ensures(index as int, child);
    assert forall|i: int| #[trigger] post.live(i) <==> pre.live(i) by {}
    // a node whose recorded parent differs between pre and post can only be the child
    assert forall|i: int| pre.live(i) && i != c implies #[trigger] post.parent(i) == pre.parent(
        i,
    ) by {}
    assert forall|i: int| pre.live(i) && i != p implies #[trigger] post.children(i) == pre.children(
        i,
    ) by {}
    // the detached child sits in no pre child sequence
    assert forall|i: int, j: int|
        pre.live(i) && 0 <= j < pre.children(i).len() implies (#[trigger] pre.children(i)[j]).0
        as int != c by {
        if pre.children(i)[j].0 as int == c {
            assert(pre.parent(c) == Some(NodeId(i as usize)));
        }
    }
    assert(post.wf_root());
    assert forall|i: int, j: int|
        post.live(i) && 0 <= j < post.children(i).len() implies {
        &&& post.live((#[trigger] post.children(i)[j]).0 as int)
        &&& post.parent(post.children(i)[j].0 as int) matches Some(q) && q.0 as int == i
    } by {
        if i == p {
            if j == index {
                assert(post.children(i)[j] == child);
                assert(post.parent(c) == Some(parent));
                assert(parent.0 as int == i);
            } else {
                let j0: int = if j < index { j } else { j - 1 };
                assert(post.children(i)[j] == pc[j0]);
                let x = pc[j0];
                assert(pre.live(x.0 as int));
                assert(pre.parent(x.0 as int) matches Some(q) && q.0 as int == i);
                assert(x.0 as int != c);
            }
        } else {
            let x = pre.children(i)[j];
            assert(pre.live(x.0 as int));
            assert(x.0 as int != c);
        }
    }
    assert forall|i: int, j: int, k: int|
        post.live(i) && 0 <= j < k < post.children(i).len() implies #[trigger] post.children(i)[j]
        != #[trigger] post.children(i)[k] by {
        if i == p {
            if j == index || k == index {
                let m: int = if j == index {
                    if k < index {
                        k
                    } else {
                        k - 1
                    }
                } else {
                    if j < index {
                        j
                    } else {
                        j - 1
                    }
                };
                assert(0 <= m < pc.len());
                assert(pc[m].0 as int != c);
            } else {
                let j0: int = if j < index { j } else { j - 1 };
                let k0: int = if k < index { k } else { k - 1 };
                assert(post.children(i)[j] == pc[j0]);
                assert(post.children(i)[k] == pc[k0]);
                assert(j0 < k0);
            }
        }
    }
    assert forall|i: int, j: int, k: int|
        post.live(i) && 0 <= j < k < post.attrs(i).len() implies (#[trigger] post.attrs(i)[j]).0
        != (#[trigger] post.attrs(i)[k]).0 by {
        assert(post.attrs(i) == pre.attrs(i));
    }
}

/// One step of a walk through a well-formed document: any child of a live
/// node is itself live (never a freed slot) and records the node it was
/// reached from as its parent.
pub proof fn lemma_walk_step<R>(doc: Document<R>, from: NodeId, to: NodeId)
    requires
        doc.wf(),
        doc.live(from.0 as int),
        doc.children(from.0 as int).contains(to),
    ensures
        doc.live(to.0 as int),
        doc.parent(to.0 as int) == Some(from),
{
    let cs = doc.children(from.0 as int);
    let j = choose|j: int| 0 <= j < cs.len() && cs[j] == to;
    assert(doc.live((cs[j]).0 as int));
    assert(doc.parent(cs[j].0 as int) matches Some(q) && q.0 as int == from.0 as int);
    match doc.parent(to.0 as int) {
        Some(q) => {
            assert(q.0 == from.0);
            assert(q == from);
        },
        None => {},
    }
}

/// Walking from the root never visits a freed id, and every node visited
/// after the root records as its parent exactly the node it was reached from.
/// A walk is any id sequence starting at the root in which each id is a child
/// of the one before it.
pub proof fn lemma_walk_from_root<R>(doc: Document<R>, path: Seq<NodeId>)
    requires
        doc.wf(),
        path.len() > 0,
        doc.root_id() == Some(path[0]),
        forall|k: int|
            0 <= k < path.len() - 1 ==> (#[trigger] doc.children(path[k].0 as int)).contains(
                path[k + 1],
            ),
    ensures
        forall|k: int| 0 <= k < path.len() ==> doc.live((#[trigger] path[k]).0 as int),
        forall|k: int|
            1 <= k < path.len() ==> doc.parent((#[trigger] path[k]).0 as int) == Some(path[k - 1]),
    decreases path.len(),
{
    if path.len() == 1 {
        assert(doc.live(path[0].0 as int));
    } else {
        let prefix = path.drop_last();
        assert forall|k: int|
            0 <= k < prefix.len() - 1 implies (#[trigger] doc.children(
            prefix[k].0 as int,
        )).contains(prefix[k + 1]) by {
            assert(prefix[k] == path[k]);
            assert(prefix[k + 1] == path[k + 1]);
        }
        lemma_walk_from_root(doc, prefix);
        let last = path.len() - 1;
        assert(prefix[last - 1] == path[last - 1]);
        assert(doc.live(path[last - 1].0 as int));
        lemma_walk_step(doc, path[last - 1], path[last]);
        assert forall|k: int| 0 <= k < path.len() implies doc.live(
            (#[trigger] path[k]).0 as int,
        ) by {
            if k < last {
                assert(prefix[k] == path[k]);
            }
        }
        assert forall|k: int| 1 <= k < path.len() implies doc.parent((#[trigger] path[k]).0 as int)
            == Some(path[k - 1]) by {
            if k < last {
                assert(prefix[k] == path[k]);
                assert(prefix[k - 1] == path[k - 1]);
            }
        }
    }
}

/// The index of the first occurrence of `c` in `v`, if any.
fn find_first(v: &Vec<NodeId>, c: NodeId) -> (r: Option<usize>)
    ensures
        match r {
            Some(i) => 0 <= i < v@.len() && v@[i as int] == c && forall|j: int|
                0 <= j < i ==> v@[j] != c,
            None => !v@.contains(c),
        },
{
    let mut i: usize = 0;
    while i < v.len()
        invariant
            i <= v.len(),
            forall|j: int| 0 <= j < i ==> v@[j] != c,
        decreases v.len() - i,
    {
        if v[i] == c {
            return Some(i);
        }
        i += 1;
    }
    None
}

/// Detaching a child keeps the tree well-formed: under well-formedness the
/// child occurs exactly once, so after removal it sits in no child sequence
/// and its cleared parent field agrees with that.
proof fn lemma_remove_child_keeps_wf<R>(
    pre: Document<R>,
    post: Document<R>,
    parent: NodeId,
    child: NodeId,
    pos: int,
)
    requires
        pre.wf(),
        pre.live(parent.0 as int),
        pre.live(child.0 as int),
        pre.node(parent.0 as int) is Element,
        0 <= pos < pre.children(parent.0 as int).len(),
        pre.children(parent.0 as int)[pos] == child,
        post.n_slots() == pre.n_slots(),
        post.root_id() == pre.root_id(),
        pre.same_slots_except(post, parent.0 as int, child.0 as int),
        post.live(parent.0 as int),
        post.live(child.0 as int),
        post.node(parent.0 as int) is Element,
        post.children(parent.0 as int) == pre.children(parent.0 as int).remove(pos),
        post.parent(child.0 as int) is None,
        post.attrs(parent.0 as int) == pre.attrs(parent.0 as int),
        post.attrs(child.0 as int) == pre.attrs(child.0 as int),
        parent.0 != child.0 ==> post.children(child.0 as int) == pre.children(child.0 as int)
            && post.parent(parent.0 as int) == pre.parent(parent.0 as int),
    ensures
        post.wf(),
{
    let p = parent.0 as int;
    let c = child.0 as int;
    let pc = pre.children(p);
    pc.remove_ensures(pos);
    assert(pre.parent(c) matches Some(q) && q.0 as int == p);
    assert forall|i: int| #[trigger] post.live(i) <==> pre.live(i) by {}
    assert forall|i: int| pre.live(i) && i != c implies #[trigger] post.parent(i) == pre.parent(
        i,
    ) by {}
    assert forall|i: int| pre.live(i) && i != p implies #[trigger] post.children(i) == pre.children(
        i,
    ) by {}
    // the child occurs in no other node's sequence, and in the parent's only at pos
    assert forall|i: int, j: int|
        pre.live(i) && 0 <= j < pre.children(i).len() && (#[trigger] pre.children(i)[j]).0 as int
        == c implies i == p && j == pos by {
        assert(pre.parent(c) matches Some(q) && q.0 as int == i);
        assert(i == p);
        assert(pre.children(i)[j].0 == child.0);
        assert(pre.children(i)[j] == child);
        if j != pos {
            assert(pre.children(p)[j] != pre.children(p)[pos]);
        }
    }
    assert(post.wf_root());
    assert forall|i: int, j: int|
        post.live(i) && 0 <= j < post.children(i).len() implies {
        &&& post.live((#[trigger] post.children(i)[j]).0 as int)
        &&& post.parent(post.children(i)[j].0 as int) matches Some(q) && q.0 as int == i
    } by {
        if i == p {
            let j0: int = if j < pos { j } else { j + 1 };
            let x = pc[j0];
            assert(post.children(i)[j] == x);
            assert(pre.live(x.0 as int));
            assert(pre.parent(x.0 as int) matches Some(q) && q.0 as int == i);
            assert(j0 != pos);
            assert(x.0 as int != c);
        } else {
            let x = pre.children(i)[j];
            assert(pre.live(x.0 as int));
            assert(x.0 as int != c);
        }
    }
    assert forall|i: int, j: int, k: int|
        post.live(i) && 0 <= j < k < post.children(i).len() implies #[trigger] post.children(i)[j]
        != #[trigger] post.children(i)[k] by {
        if i == p {
            let j0: int = if j < pos { j } else { j + 1 };
            let k0: int = if k < pos { k } else { k + 1 };
            assert(post.children(i)[j] == pc[j0]);
            assert(post.children(i)[k] == pc[k0]);
            assert(j0 < k0);
        }
    }
    assert forall|i: int, j: int, k: int|
        post.live(i) && 0 <= j < k < post.attrs(i).len() implies (#[trigger] post.attrs(i)[j]).0
        != (#[trigger] post.attrs(i)[k]).0 by {
        assert(post.attrs(i) == pre.attrs(i));
    }
}

/// Freeing a detached node keeps the tree well-formed: a node with no parent
/// link sits in no live child sequence, so nothing can reach the freed slot;
/// clearing a root pointer that named it keeps the root valid.
proof fn lemma_free_keeps_wf<R>(pre: Document<R>, post: Document<R>, id: NodeId)
    requires
        pre.wf(),
        pre.live(id.0 as int),
        pre.parent(id.0 as int) is None,
        post.n_slots() == pre.n_slots(),
        pre.same_slots_except(post, id.0 as int, id.0 as int),
        !post.live(id.0 as int),
        post.root_id() == (if pre.root_id() == Some(id) {
            None::<NodeId>
        } else {
            pre.root_id()
        }),
    ensures
        post.wf(),
{
    let t = id.0 as int;
    assert forall|i: int| #[trigger] post.live(i) <==> (pre.live(i) && i != t) by {}
    assert forall|i: int| pre.live(i) && i != t implies #[trigger] post.children(i) == pre.children(
        i,
    ) && post.parent(i) == pre.parent(i) && post.attrs(i) == pre.attrs(i) by {}
    assert(post.wf_root()) by {
        match post.root_id() {
            Some(r) => {
                assert(pre.root_id() == Some(r));
                assert(r != id);
                assert(r.0 as int != t);
            },
            None => {},
        }
    }
    assert forall|i: int, j: int|
        post.live(i) && 0 <= j < post.children(i).len() implies {
        &&& post.live((#[trigger] post.children(i)[j]).0 as int)
        &&& post.parent(post.children(i)[j].0 as int) matches Some(q) && q.0 as int == i
    } by {
        let x = pre.children(i)[j];
        assert(pre.live(x.0 as int));
        assert(pre.parent(x.0 as int) matches Some(q) && q.0 as int == i);
        assert(x.0 as int != t);
    }
    assert forall|i: int, j: int, k: int|
        post.live(i) && 0 <= j < k < post.children(i).len() implies #[trigger] post.children(i)[j]
        != #[trigger] post.children(i)[k] by {}
    assert forall|i: int, j: int, k: int|
        post.live(i) && 0 <= j < k < post.attrs(i).len() implies (#[trigger] post.attrs(i)[j]).0
        != (#[trigger] post.attrs(i)[k]).0 by {
        assert(post.attrs(i) == pre.attrs(i));
    }
}

/// If two documents have, slot for slot, the same liveness, children, parents
/// and attribute names, the structural part of well-formedness carries over
/// (text contents, attribute values and expandos play no part in it).
proof fn lemma_same_structure_wf<R>(pre: Document<R>, post: Document<R>)
    requires
        pre.wf_nodes(),
        post.n_slots() == pre.n_slots(),
        forall|i: int| #[trigger] post.live(i) <==> pre.live(i),
        forall|i: int| pre.live(i) ==> #[trigger] post.children(i) == pre.children(i),
        forall|i: int| pre.live(i) ==> #[trigger] post.parent(i) == pre.parent(i),
        forall|i: int|
            pre.live(i) ==> (#[trigger] post.attrs(i)).len() == pre.attrs(i).len() && forall|j: int|
                0 <= j < pre.attrs(i).len() ==> (#[trigger] post.attrs(i)[j]).0 == pre.attrs(
                    i,
                )[j].0,
    ensures
        post.wf_nodes(),
{
}

/// Appending one fresh, childless, detached slot touches no existing slot, and
/// the new slot has nothing to violate well-formedness with.
proof fn lemma_push_keeps_wf<R>(pre: Document<R>, post: Document<R>)
    requires
        post.store@.len() == pre.store@.len() + 1,
        forall|i: int| 0 <= i < pre.store@.len() ==> #[trigger] post.store@[i] == pre.store@[i],
        post.root_id() == pre.root_id(),
        post.children(pre.store@.len() as int) == Seq::<NodeId>::empty(),
        post.attrs(pre.store@.len() as int) == Seq::<(Seq<char>, Seq<char>)>::empty(),
        pre.wf(),
    ensures
        post.wf(),
{
    let n = pre.store@.len() as int;
    assert forall|i: int| post.live(i) && i != n implies pre.live(i) && post.children(i)
        == pre.children(i) && post.attrs(i) == pre.attrs(i) && post.parent(i) == pre.parent(
        i,
    ) by {}
    assert forall|i: int, j: int|
        post.live(i) && 0 <= j < post.children(i).len() implies {
        &&& post.live((#[trigger] post.children(i)[j]).0 as int)
        &&& post.parent(post.children(i)[j].0 as int) matches Some(q) && q.0 as int == i
    } by {
        assert(i != n);
        assert(pre.live(i));
        let c = pre.children(i)[j];
        assert(pre.live(c.0 as int));
        assert(c.0 as int != n);
    }
}

} // verus!

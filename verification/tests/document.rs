use libgraffiti::document::Document;
use libgraffiti::node::{DocError, NodeId};

#[test]
fn fresh_document_is_empty() {
    let doc: Document<u64> = Document::new();
    assert_eq!(doc.root, None);
    assert_eq!(doc.query_selector("div", None), None);
}

#[test]
fn create_element_starts_detached_and_empty() {
    let mut doc: Document<u64> = Document::new();
    let el = doc.create_element("div");
    assert_eq!(doc.node_parent(el), Ok(None));
    assert_eq!(doc.child_ids(el), Ok(vec![]));
    assert_eq!(doc.attribute(el, "class"), Ok(None));
    assert_eq!(doc.expando(el), Ok(None));
}

#[test]
fn attribute_round_trip() {
    let mut doc: Document<u64> = Document::new();
    let el = doc.create_element("div");
    assert_eq!(doc.set_attribute(el, "k", "v"), Ok(()));
    assert_eq!(doc.attribute(el, "k"), Ok(Some(String::from("v"))));
    // unset attributes read as absent
    assert_eq!(doc.attribute(el, "other"), Ok(None));
    // upsert replaces the value in place
    assert_eq!(doc.set_attribute(el, "k", "w"), Ok(()));
    assert_eq!(doc.attribute(el, "k"), Ok(Some(String::from("w"))));
    // a second name lives beside the first
    assert_eq!(doc.set_attribute(el, "k2", "x"), Ok(()));
    assert_eq!(doc.attribute(el, "k"), Ok(Some(String::from("w"))));
    assert_eq!(doc.attribute(el, "k2"), Ok(Some(String::from("x"))));
}

#[test]
fn set_attribute_wrong_kind() {
    let mut doc: Document<u64> = Document::new();
    let t = doc.create_text_node("hi");
    assert_eq!(doc.set_attribute(t, "k", "v"), Err(DocError::NotAnElement));
    assert_eq!(doc.attribute(t, "k"), Err(DocError::NotAnElement));
}

#[test]
fn set_text_round_trip_and_wrong_kind() {
    let mut doc: Document<u64> = Document::new();
    let t = doc.create_text_node("hi");
    assert_eq!(doc.text_content(t), Ok(String::from("hi")));
    assert_eq!(doc.set_text(t, "bye"), Ok(()));
    assert_eq!(doc.text_content(t), Ok(String::from("bye")));
    let el = doc.create_element("div");
    assert_eq!(doc.set_text(el, "no"), Err(DocError::NotATextNode));
    assert_eq!(doc.text_content(el), Err(DocError::NotATextNode));
}

#[test]
fn child_sequence_reflects_operations_in_order() {
    let mut doc: Document<u64> = Document::new();
    let p = doc.create_element("ul");
    let a = doc.create_element("li");
    let b = doc.create_element("li");
    let c = doc.create_element("li");
    assert_eq!(doc.insert_child(p, 0, a), Ok(()));
    assert_eq!(doc.insert_child(p, 1, c), Ok(()));
    // inserting in the middle shifts what follows
    assert_eq!(doc.insert_child(p, 1, b), Ok(()));
    assert_eq!(doc.child_ids(p), Ok(vec![a, b, c]));
    assert_eq!(doc.node_parent(a), Ok(Some(p)));
    assert_eq!(doc.node_parent(b), Ok(Some(p)));
    assert_eq!(doc.node_parent(c), Ok(Some(p)));
    // removal takes out exactly the one child and detaches it
    assert_eq!(doc.remove_child(p, b), Ok(()));
    assert_eq!(doc.child_ids(p), Ok(vec![a, c]));
    assert_eq!(doc.node_parent(b), Ok(None));
}

#[test]
fn duplicate_insert_duplicates_and_removal_takes_first() {
    let mut doc: Document<u64> = Document::new();
    let p = doc.create_element("div");
    let a = doc.create_element("span");
    assert_eq!(doc.insert_child(p, 0, a), Ok(()));
    // the document does not police double insertion: the caller gets what it asked for
    assert_eq!(doc.insert_child(p, 1, a), Ok(()));
    assert_eq!(doc.child_ids(p), Ok(vec![a, a]));
    // removal takes out the first occurrence only
    assert_eq!(doc.remove_child(p, a), Ok(()));
    assert_eq!(doc.child_ids(p), Ok(vec![a]));
}

#[test]
fn insert_past_end_is_rejected_and_changes_nothing() {
    let mut doc: Document<u64> = Document::new();
    let p = doc.create_element("div");
    let a = doc.create_element("span");
    let b = doc.create_element("span");
    assert_eq!(doc.insert_child(p, 0, a), Ok(()));
    assert_eq!(doc.insert_child(p, 2, b), Err(DocError::IndexOutOfRange));
    assert_eq!(doc.child_ids(p), Ok(vec![a]));
    assert_eq!(doc.node_parent(b), Ok(None));
}

#[test]
fn insert_errors() {
    let mut doc: Document<u64> = Document::new();
    let p = doc.create_element("div");
    let t = doc.create_text_node("hi");
    let a = doc.create_element("span");
    let stale = NodeId(99);
    assert_eq!(doc.insert_child(stale, 0, a), Err(DocError::InvalidId));
    assert_eq!(doc.insert_child(p, 0, stale), Err(DocError::InvalidId));
    assert_eq!(doc.insert_child(t, 0, a), Err(DocError::NotAnElement));
}

#[test]
fn remove_of_absent_child_fails_without_corrupting_state() {
    let mut doc: Document<u64> = Document::new();
    let p = doc.create_element("div");
    let a = doc.create_element("span");
    assert_eq!(doc.insert_child(p, 0, a), Ok(()));
    assert_eq!(doc.remove_child(p, a), Ok(()));
    // removing again is refused, not absorbed
    assert_eq!(doc.remove_child(p, a), Err(DocError::ChildNotFound));
    assert_eq!(doc.child_ids(p), Ok(vec![]));
    assert_eq!(doc.node_parent(a), Ok(None));
    // and a node that never was a child is refused too
    let b = doc.create_element("span");
    assert_eq!(doc.remove_child(p, b), Err(DocError::ChildNotFound));
}

#[test]
fn free_while_attached_fails_then_succeeds_after_detach() {
    let mut doc: Document<u64> = Document::new();
    let p = doc.create_element("div");
    let a = doc.create_element("span");
    assert_eq!(doc.insert_child(p, 0, a), Ok(()));
    assert_eq!(doc.free_node(a), Err(DocError::StillAttached));
    assert_eq!(doc.child_ids(p), Ok(vec![a]));
    assert_eq!(doc.remove_child(p, a), Ok(()));
    assert_eq!(doc.free_node(a), Ok(()));
    // the freed id is stale from here on
    assert_eq!(doc.free_node(a), Err(DocError::InvalidId));
    assert_eq!(doc.node_parent(a), Err(DocError::InvalidId));
    assert_eq!(doc.set_attribute(a, "k", "v"), Err(DocError::InvalidId));
}

#[test]
fn freeing_the_root_clears_the_root_pointer() {
    let mut doc: Document<u64> = Document::new();
    let p = doc.create_element("div");
    assert_eq!(doc.set_root(p), Ok(()));
    assert_eq!(doc.root, Some(p));
    assert_eq!(doc.free_node(p), Ok(()));
    assert_eq!(doc.root, None);
}

#[test]
fn set_root_rejects_stale_ids_and_reassigns_freely() {
    let mut doc: Document<u64> = Document::new();
    assert_eq!(doc.set_root(NodeId(0)), Err(DocError::InvalidId));
    let a = doc.create_element("a");
    let b = doc.create_element("b");
    assert_eq!(doc.set_root(a), Ok(()));
    assert_eq!(doc.set_root(b), Ok(()));
    assert_eq!(doc.root, Some(b));
}

#[test]
fn expando_set_read_and_clear() {
    let mut doc: Document<u64> = Document::new();
    let el = doc.create_element("div");
    assert_eq!(doc.expando(el), Ok(None));
    assert_eq!(doc.set_expando(el, Some(7)), Ok(()));
    assert_eq!(doc.expando(el), Ok(Some(&7)));
    assert_eq!(doc.set_expando(el, None), Ok(()));
    assert_eq!(doc.expando(el), Ok(None));
    assert_eq!(doc.set_expando(NodeId(9), Some(1)), Err(DocError::InvalidId));
    assert_eq!(doc.expando(NodeId(9)), Err(DocError::InvalidId));
}

#[test]
fn finalize_frees_only_detached_live_nodes() {
    let mut doc: Document<u64> = Document::new();
    let p = doc.create_element("div");
    let a = doc.create_element("span");
    assert_eq!(doc.insert_child(p, 0, a), Ok(()));
    // still attached: the finalizer leaves the node alone
    assert!(!doc.finalize_node(a));
    assert_eq!(doc.child_ids(p), Ok(vec![a]));
    assert_eq!(doc.remove_child(p, a), Ok(()));
    assert!(doc.finalize_node(a));
    // a second notification for the same wrapper is a no-op
    assert!(!doc.finalize_node(a));
    assert_eq!(doc.node_parent(a), Err(DocError::InvalidId));
}

#[test]
fn stale_ids_never_alias_younger_nodes() {
    let mut doc: Document<u64> = Document::new();
    let a = doc.create_element("a");
    assert_eq!(doc.free_node(a), Ok(()));
    let b = doc.create_element("b");
    // the new node gets a fresh slot; the stale id stays dead
    assert_ne!(a, b);
    assert_eq!(doc.attribute(a, "k"), Err(DocError::InvalidId));
    assert_eq!(doc.child_ids(b), Ok(vec![]));
}

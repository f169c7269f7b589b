use libgraffiti::document::Document;
use libgraffiti::node::NodeId;

/// The document of the creation scenario: a div with a class and one text
/// child, set as root.
fn div_with_text() -> (Document<u64>, NodeId, NodeId) {
    let mut doc: Document<u64> = Document::new();
    let e1 = doc.create_element("div");
    doc.set_attribute(e1, "class", "a").unwrap();
    let t1 = doc.create_text_node("hi");
    doc.insert_child(e1, 0, t1).unwrap();
    doc.set_root(e1).unwrap();
    (doc, e1, t1)
}

#[test]
fn creation_scenario_queries_and_teardown() {
    let (mut doc, e1, t1) = div_with_text();
    assert_eq!(doc.query_selector("div", None), Some(e1));
    assert_eq!(doc.query_selector_all("div", None), vec![e1]);
    doc.remove_child(e1, t1).unwrap();
    doc.free_node(t1).unwrap();
    assert_eq!(doc.child_ids(e1), Ok(vec![]));
}

#[test]
fn text_nodes_never_match() {
    let (doc, e1, _t1) = div_with_text();
    // '*' matches any element, but not the text child
    assert_eq!(doc.query_selector_all("*", None), vec![e1]);
}

#[test]
fn tag_attribute_and_compound_selectors() {
    let (doc, e1, _t1) = div_with_text();
    assert_eq!(doc.query_selector("span", None), None);
    assert_eq!(doc.query_selector("[class]", None), Some(e1));
    assert_eq!(doc.query_selector("[class=a]", None), Some(e1));
    assert_eq!(doc.query_selector("[class=b]", None), None);
    assert_eq!(doc.query_selector("[id]", None), None);
    assert_eq!(doc.query_selector("div[class=a]", None), Some(e1));
    assert_eq!(doc.query_selector("div[class=a][id]", None), None);
    assert_eq!(doc.query_selector("span[class=a]", None), None);
    assert_eq!(doc.query_selector("*[class=a]", None), Some(e1));
}

#[test]
fn deep_chains_are_walked_to_the_bottom() {
    let mut doc: Document<u64> = Document::new();
    let root = doc.create_element("div");
    doc.set_root(root).unwrap();
    let mut ids = vec![root];
    let mut parent = root;
    for _ in 0..20 {
        let child = doc.create_element("div");
        doc.insert_child(parent, 0, child).unwrap();
        ids.push(child);
        parent = child;
    }
    assert_eq!(doc.query_selector_all("div", None), ids);
}

#[test]
fn empty_attribute_value_matches_empty_string() {
    let mut doc: Document<u64> = Document::new();
    let e = doc.create_element("input");
    doc.set_attribute(e, "value", "").unwrap();
    doc.set_root(e).unwrap();
    assert_eq!(doc.query_selector("input[value=]", None), Some(e));
    assert_eq!(doc.query_selector("input[value=x]", None), None);
}

#[test]
fn malformed_selectors_match_nothing() {
    let (doc, _e1, _t1) = div_with_text();
    for sel in ["", "[", "]", "div[", "div]", "[=x]", "[]", "div[class", "div x", "**"] {
        assert_eq!(doc.query_selector(sel, None), None, "selector {:?}", sel);
        assert_eq!(doc.query_selector_all(sel, None), vec![], "selector {:?}", sel);
    }
}

#[test]
fn matches_come_in_document_preorder() {
    let mut doc: Document<u64> = Document::new();
    // root(div) -> [a(div), b(span) -> [c(div)], d(div)]
    let root = doc.create_element("div");
    let a = doc.create_element("div");
    let b = doc.create_element("span");
    let c = doc.create_element("div");
    let d = doc.create_element("div");
    doc.insert_child(root, 0, a).unwrap();
    doc.insert_child(root, 1, b).unwrap();
    doc.insert_child(b, 0, c).unwrap();
    doc.insert_child(root, 2, d).unwrap();
    doc.set_root(root).unwrap();
    // parent before children, subtrees in child order
    assert_eq!(doc.query_selector_all("div", None), vec![root, a, c, d]);
    assert_eq!(doc.query_selector_all("*", None), vec![root, a, b, c, d]);
    // the single-match query returns the head of that sequence
    assert_eq!(doc.query_selector("div", None), Some(root));
    assert_eq!(doc.query_selector("span", None), Some(b));
}

#[test]
fn scope_restricts_the_walk() {
    let mut doc: Document<u64> = Document::new();
    let root = doc.create_element("div");
    let b = doc.create_element("span");
    let c = doc.create_element("div");
    doc.insert_child(root, 0, b).unwrap();
    doc.insert_child(b, 0, c).unwrap();
    doc.set_root(root).unwrap();
    // the scope node itself is an eligible candidate
    assert_eq!(doc.query_selector_all("div", Some(b)), vec![c]);
    assert_eq!(doc.query_selector_all("span", Some(b)), vec![b]);
    assert_eq!(doc.query_selector("div", Some(c)), Some(c));
}

#[test]
fn queries_without_root_or_with_stale_scope_find_nothing() {
    let mut doc: Document<u64> = Document::new();
    let e = doc.create_element("div");
    // no root set and no scope given
    assert_eq!(doc.query_selector("div", None), None);
    assert_eq!(doc.query_selector_all("div", None), vec![]);
    // a freed scope id walks nothing
    doc.free_node(e).unwrap();
    assert_eq!(doc.query_selector_all("div", Some(e)), vec![]);
    assert_eq!(doc.query_selector_all("div", Some(NodeId(42))), vec![]);
}

#[test]
fn attribute_updates_show_up_in_queries() {
    let (mut doc, e1, _t1) = div_with_text();
    assert_eq!(doc.query_selector("div[class=a]", None), Some(e1));
    doc.set_attribute(e1, "class", "b").unwrap();
    assert_eq!(doc.query_selector("div[class=a]", None), None);
    assert_eq!(doc.query_selector("div[class=b]", None), Some(e1));
}

#[test]
fn ident_characters_cover_digits_dash_underscore() {
    let mut doc: Document<u64> = Document::new();
    let e = doc.create_element("h1");
    doc.set_attribute(e, "data-x_1", "y").unwrap();
    doc.set_root(e).unwrap();
    assert_eq!(doc.query_selector("h1[data-x_1=y]", None), Some(e));
}

//! The selector engine: a small CSS-like query language evaluated against the
//! tree, read-only, in document pre-order.
//!
//! The grammar, exactly (anything outside it fails to parse, and an
//! unparsable selector matches nothing):
//!
//! ```text
//! selector := ('*' | ident) part* | part+
//! part     := '[' ident ']' | '[' ident '=' value ']'
//! ident    := one or more of A-Z a-z 0-9 '-' '_'
//! value    := any characters up to the first ']' (may be empty)
//! ```
//!
//! A selector matches elements only, never text nodes: the local name must
//! equal the tag (`*` matches any element) and every bracketed test must hold
//! of the element's attributes.

use vstd::prelude::*;

use crate::document::Document;
use crate::node::{
    Attr, Node, NodeId, attr_value, attrs_view, lemma_attr_absent, lemma_attr_value_at,
};

verus! {

/// One attribute test of a compound selector, as the contracts see it.
pub enum SelectorPartView {
    /// `[name]`: the attribute must be present.
    Present { name: Seq<char> },
    /// `[name=value]`: the attribute must hold exactly this value.
    Equals { name: Seq<char>, value: Seq<char> },
}

/// A parsed selector, as the contracts see it: an optional tag name (`None`
/// stands for `*`) and the attribute tests in order.
pub struct SelectorView {
    pub tag: Option<Seq<char>>,
    pub parts: Seq<SelectorPartView>,
}

/// One attribute test of a compound selector.
pub enum SelectorPart {
    Present { name: String },
    Equals { name: String, value: String },
}

/// A parsed compound selector.
pub struct Selector {
    pub tag: Option<String>,
    pub parts: Vec<SelectorPart>,
}

impl View for SelectorPart {
    type V = SelectorPartView;

    open spec fn view(&self) -> SelectorPartView {
        match self {
            SelectorPart::Present { name } => SelectorPartView::Present { name: name@ },
            SelectorPart::Equals { name, value } => SelectorPartView::Equals {
                name: name@,
                value: value@,
            },
        }
    }
}

pub open spec fn parts_view(parts: Seq<SelectorPart>) -> Seq<SelectorPartView> {
    parts.map(|i: int, p: SelectorPart| p@)
}

impl View for Selector {
    type V = SelectorView;

    open spec fn view(&self) -> SelectorView {
        SelectorView {
            tag: match self.tag {
                Some(t) => Some(t@),
                None => None,
            },
            parts: parts_view(self.parts@),
        }
    }
}

/// A character a tag or attribute name may consist of.
pub open spec fn is_ident_char(c: char) -> bool {
    let u = c as u32;
    ('a' as u32 <= u && u <= 'z' as u32) || ('A' as u32 <= u && u <= 'Z' as u32) || ('0' as u32 <= u
        && u <= '9' as u32) || u == '-' as u32 || u == '_' as u32
}

/// How many ident characters follow from position `i` on.
pub open spec fn ident_run(s: Seq<char>, i: int) -> nat
    decreases s.len() - i,
{
    if 0 <= i && i < s.len() && is_ident_char(s[i]) {
        1 + ident_run(s, i + 1)
    } else {
        0
    }
}

/// The ident run stays inside the string, covers ident characters only, and
/// stops at the end or at the first non-ident character.
pub proof fn lemma_ident_run(s: Seq<char>, i: int)
    requires
        0 <= i <= s.len(),
    ensures
        i + ident_run(s, i) <= s.len(),
        forall|j: int| i <= j < i + ident_run(s, i) ==> is_ident_char(#[trigger] s[j]),
        i + ident_run(s, i) == s.len() || !is_ident_char(s[i + ident_run(s, i)]),
    decreases s.len() - i,
{
    if i < s.len() && is_ident_char(s[i]) {
        lemma_ident_run(s, i + 1);
    }
}

/// The distance from `i` to the first `']'` at or after it, if there is one.
pub open spec fn close_dist(s: Seq<char>, i: int) -> Option<nat>
    decreases s.len() - i,
{
    if i < 0 || i >= s.len() {
        None
    } else if s[i] == ']' {
        Some(0nat)
    } else {
        match close_dist(s, i + 1) {
            Some(d) => Some(d + 1),
            None => None,
        }
    }
}

/// Where `close_dist` points there stands a `']'`, with none before it.
pub proof fn lemma_close_dist(s: Seq<char>, i: int)
    requires
        0 <= i <= s.len(),
    ensures
        match close_dist(s, i) {
            Some(d) => i + d < s.len() && s[i + d] == ']' && forall|j: int|
                i <= j < i + d ==> #[trigger] s[j] != ']',
            None => forall|j: int| i <= j < s.len() ==> #[trigger] s[j] != ']',
        },
    decreases s.len() - i,
{
    if i < s.len() && s[i] != ']' {
        lemma_close_dist(s, i + 1);
    }
}

/// The bracketed attribute tests starting at position `i`, or `None` if the
/// rest of the string is not a sequence of well-formed brackets.
pub open spec fn parse_parts(s: Seq<char>, i: int) -> Option<Seq<SelectorPartView>>
    decreases s.len() - i,
    when 0 <= i
    via parse_parts_dec
{
    if i >= s.len() {
        Some(Seq::empty())
    } else if s[i] == '[' {
        let r = ident_run(s, i + 1);
        if r == 0 {
            None
        } else {
            let j = i + 1 + r;
            if j < s.len() && s[j] == ']' {
                match parse_parts(s, j + 1) {
                    Some(rest) => Some(
                        seq![SelectorPartView::Present { name: s.subrange(i + 1, j) }] + rest,
                    ),
                    None => None,
                }
            } else if j < s.len() && s[j] == '=' {
                match close_dist(s, j + 1) {
                    Some(d) => {
                        let k = j + 1 + d;
                        match parse_parts(s, k + 1) {
                            Some(rest) => Some(
                                seq![
                                    SelectorPartView::Equals {
                                        name: s.subrange(i + 1, j),
                                        value: s.subrange(j + 1, k),
                                    },
                                ] + rest,
                            ),
                            None => None,
                        }
                    },
                    None => None,
                }
            } else {
                None
            }
        }
    } else {
        None
    }
}

#[via_fn]
proof fn parse_parts_dec(s: Seq<char>, i: int) {
    if 0 <= i && i < s.len() && s[i] == '[' {
        let r = ident_run(s, i + 1);
        lemma_ident_run(s, i + 1);
        let j = i + 1 + r;
        if r > 0 && j < s.len() && s[j] == '=' {
            lemma_close_dist(s, j + 1);
        }
    }
}

/// The selector a string denotes, or `None` if the string is outside the
/// grammar (in particular the empty string).
pub open spec fn parse_selector(s: Seq<char>) -> Option<SelectorView> {
    if s.len() == 0 {
        None
    } else if s[0] == '*' {
        match parse_parts(s, 1) {
            Some(parts) => Some(SelectorView { tag: None, parts }),
            None => None,
        }
    } else if s[0] == '[' {
        match parse_parts(s, 0) {
            Some(parts) => Some(SelectorView { tag: None, parts }),
            None => None,
        }
    } else {
        let r = ident_run(s, 0);
        if r == 0 {
            None
        } else {
            match parse_parts(s, r as int) {
                Some(parts) => Some(
                    SelectorView { tag: Some(s.subrange(0, r as int)), parts },
                ),
                None => None,
            }
        }
    }
}

/// Whether one attribute test holds of an attribute list.
pub open spec fn part_holds(attrs: Seq<(Seq<char>, Seq<char>)>, part: SelectorPartView) -> bool {
    match part {
        SelectorPartView::Present { name } => attr_value(attrs, name) is Some,
        SelectorPartView::Equals { name, value } => attr_value(attrs, name) == Some(value),
    }
}

/// Whether the node at `id` matches the selector: a live element whose local
/// name equals the tag (if one is given) and whose attributes pass every test.
pub open spec fn matches_node<R>(doc: Document<R>, id: NodeId, sel: SelectorView) -> bool {
    &&& doc.is_element(id.0 as int)
    &&& match sel.tag {
        Some(t) => doc.name(id.0 as int) == t,
        None => true,
    }
    &&& forall|p: int|
        0 <= p < sel.parts.len() ==> part_holds(doc.attrs(id.0 as int), #[trigger] sel.parts[p])
}

/// The matching ids in the subtree under `id`, in document pre-order: the
/// node itself first, then each child's subtree in child order. `fuel` bounds
/// the walk's depth; no simple path in a well-formed tree is longer than the
/// slot count, which is what the query functions pass.
pub open spec fn preorder_matches<R>(
    doc: Document<R>,
    id: NodeId,
    sel: SelectorView,
    fuel: nat,
) -> Seq<NodeId>
    decreases fuel, 0nat,
{
    if fuel == 0 || !doc.live(id.0 as int) {
        Seq::empty()
    } else {
        let head: Seq<NodeId> = if matches_node(doc, id, sel) {
            seq![id]
        } else {
            Seq::empty()
        };
        head + preorder_list(doc, doc.children(id.0 as int), sel, (fuel - 1) as nat)
    }
}

/// The concatenation of `preorder_matches` over a sequence of ids.
pub open spec fn preorder_list<R>(
    doc: Document<R>,
    ids: Seq<NodeId>,
    sel: SelectorView,
    fuel: nat,
) -> Seq<NodeId>
    decreases fuel, ids.len() + 1,
{
    if ids.len() == 0 {
        Seq::empty()
    } else {
        preorder_matches(doc, ids[0], sel, fuel) + preorder_list(doc, ids.drop_first(), sel, fuel)
    }
}

/// `preorder_list` distributes over appending one id at the end.
proof fn lemma_preorder_list_push<R>(
    doc: Document<R>,
    ids: Seq<NodeId>,
    x: NodeId,
    sel: SelectorView,
    fuel: nat,
)
    ensures
        preorder_list(doc, ids.push(x), sel, fuel) == preorder_list(doc, ids, sel, fuel)
            + preorder_matches(doc, x, sel, fuel),
    decreases ids.len(),
{
    let pushed = ids.push(x);
    if ids.len() == 0 {
        assert(pushed[0] == x);
        assert(pushed.drop_first() =~= ids);
        assert(preorder_list(doc, ids, sel, fuel) == Seq::<NodeId>::empty());
        assert(preorder_list(doc, pushed, sel, fuel) == preorder_matches(doc, x, sel, fuel)
            + Seq::<NodeId>::empty());
        assert(preorder_matches(doc, x, sel, fuel) + Seq::<NodeId>::empty()
            =~= Seq::<NodeId>::empty() + preorder_matches(doc, x, sel, fuel));
    } else {
        assert(pushed.drop_first() =~= ids.drop_first().push(x));
        lemma_preorder_list_push(doc, ids.drop_first(), x, sel, fuel);
        assert(pushed[0] == ids[0]);
        let a = preorder_matches(doc, ids[0], sel, fuel);
        let b = preorder_list(doc, ids.drop_first(), sel, fuel);
        let c = preorder_matches(doc, x, sel, fuel);
        assert(preorder_list(doc, pushed, sel, fuel) == a + (b + c));
        assert(a + (b + c) =~= (a + b) + c);
        assert(preorder_list(doc, ids, sel, fuel) == a + b);
    }
}

/// The subtree under `id` has depth less than `d`: a walk reaches a leaf in
/// fewer than `d` steps.
pub open spec fn depth_bounded<R>(doc: Document<R>, id: NodeId, d: nat) -> bool
    decreases d, 0nat,
{
    &&& d > 0
    &&& (doc.live(id.0 as int) ==> depth_bounded_list(
        doc,
        doc.children(id.0 as int),
        (d - 1) as nat,
    ))
}

pub open spec fn depth_bounded_list<R>(doc: Document<R>, ids: Seq<NodeId>, d: nat) -> bool
    decreases d, ids.len() + 1,
{
    if ids.len() == 0 {
        true
    } else {
        depth_bounded(doc, ids[0], d) && depth_bounded_list(doc, ids.drop_first(), d)
    }
}

/// On a subtree of depth bounded by `d`, every fuel of at least `d` yields
/// the same match sequence. The query functions walk with the slot count as
/// fuel; on any document whose slot count bounds its depth — true of every
/// acyclic document, since each level of a simple path occupies a distinct
/// live slot — that walk is the full pre-order, not a truncation.
pub proof fn lemma_preorder_fuel<R>(
    doc: Document<R>,
    id: NodeId,
    sel: SelectorView,
    d: nat,
    f1: nat,
    f2: nat,
)
    requires
        depth_bounded(doc, id, d),
        f1 >= d,
        f2 >= d,
    ensures
        preorder_matches(doc, id, sel, f1) == preorder_matches(doc, id, sel, f2),
    decreases d, 0nat,
{
    if doc.live(id.0 as int) {
        lemma_preorder_fuel_list(
            doc,
            doc.children(id.0 as int),
            sel,
            (d - 1) as nat,
            (f1 - 1) as nat,
            (f2 - 1) as nat,
        );
    }
}

proof fn lemma_preorder_fuel_list<R>(
    doc: Document<R>,
    ids: Seq<NodeId>,
    sel: SelectorView,
    d: nat,
    f1: nat,
    f2: nat,
)
    requires
        depth_bounded_list(doc, ids, d),
        f1 >= d,
        f2 >= d,
    ensures
        preorder_list(doc, ids, sel, f1) == preorder_list(doc, ids, sel, f2),
    decreases d, ids.len() + 1,
{
    if ids.len() > 0 {
        lemma_preorder_fuel(doc, ids[0], sel, d, f1, f2);
        lemma_preorder_fuel_list(doc, ids.drop_first(), sel, d, f1, f2);
    }
}

/// What `query_selector_all` returns: the pre-order matches under the scope
/// node (the document root when no scope is given). The empty sequence when
/// the selector does not parse, the scope is a freed id, or there is no root.
pub open spec fn spec_query_all<R>(
    doc: Document<R>,
    selector: Seq<char>,
    scope: Option<NodeId>,
) -> Seq<NodeId> {
    match parse_selector(selector) {
        None => Seq::empty(),
        Some(sel) => {
            let start = match scope {
                Some(id) => Some(id),
                None => doc.root_id(),
            };
            match start {
                None => Seq::empty(),
                Some(id) => preorder_matches(doc, id, sel, doc.n_slots() as nat),
            }
        },
    }
}

/// What `query_selector` returns: the head of the pre-order match sequence.
pub open spec fn spec_query_first<R>(
    doc: Document<R>,
    selector: Seq<char>,
    scope: Option<NodeId>,
) -> Option<NodeId> {
    let all = spec_query_all(doc, selector, scope);
    if all.len() == 0 {
        None
    } else {
        Some(all[0])
    }
}

/// The single-match query is exactly the head of the multi-match sequence:
/// `query_selector` returns the first element of what `query_selector_all`
/// returns, and `None` precisely when that sequence is empty.
pub proof fn lemma_query_first_of_all<R>(
    doc: Document<R>,
    selector: Seq<char>,
    scope: Option<NodeId>,
)
    ensures
        spec_query_first(doc, selector, scope) == (if spec_query_all(doc, selector, scope).len()
            == 0 {
            None::<NodeId>
        } else {
            Some(spec_query_all(doc, selector, scope)[0])
        }),
{
}

/// A matching node heads its own subtree's match sequence: the walk is
/// pre-order, parents before children.
pub proof fn lemma_preorder_head<R>(doc: Document<R>, id: NodeId, sel: SelectorView, fuel: nat)
    requires
        fuel > 0,
        doc.live(id.0 as int),
        matches_node(doc, id, sel),
    ensures
        preorder_matches(doc, id, sel, fuel).len() > 0,
        preorder_matches(doc, id, sel, fuel)[0] == id,
{
}

/// Whether `c` may appear in an ident.
fn is_ident_char_exec(c: char) -> (r: bool)
    ensures
        r == is_ident_char(c),
{
    let u = c as u32;
    ('a' as u32 <= u && u <= 'z' as u32) || ('A' as u32 <= u && u <= 'Z' as u32) || ('0' as u32 <= u
        && u <= '9' as u32) || u == '-' as u32 || u == '_' as u32
}

/// The length of the ident run at `i`.
fn ident_run_exec(s: &str, i: usize) -> (r: usize)
    requires
        i <= s@.len(),
    ensures
        r as nat == ident_run(s@, i as int),
        i + r <= s@.len(),
    decreases s@.len() - i,
{
    proof {
        lemma_ident_run(s@, i as int);
    }
    let n = s.unicode_len();
    if i < n && is_ident_char_exec(s.get_char(i)) {
        let rest = ident_run_exec(s, i + 1);
        1 + rest
    } else {
        0
    }
}

/// The distance to the first `']'` at or after `i`.
fn close_dist_exec(s: &str, i: usize) -> (r: Option<usize>)
    requires
        i <= s@.len(),
    ensures
        match r {
            Some(d) => close_dist(s@, i as int) == Some(d as nat) && i + d < s@.len(),
            None => close_dist(s@, i as int) is None,
        },
    decreases s@.len() - i,
{
    let n = s.unicode_len();
    if i >= n {
        None
    } else if s.get_char(i) == ']' {
        Some(0)
    } else {
        match close_dist_exec(s, i + 1) {
            Some(d) => Some(d + 1),
            None => None,
        }
    }
}

/// The attribute tests from position `i` on, or `None` outside the grammar.
fn parse_parts_exec(s: &str, i: usize) -> (r: Option<Vec<SelectorPart>>)
    requires
        i <= s@.len(),
    ensures
        match r {
            Some(v) => parse_parts(s@, i as int) == Some(parts_view(v@)),
            None => parse_parts(s@, i as int) is None,
        },
    decreases s@.len() - i,
{
    let n = s.unicode_len();
    if i >= n {
        let v: Vec<SelectorPart> = Vec::new();
        proof {
            assert(parts_view(v@) =~= Seq::<SelectorPartView>::empty());
        }
        return Some(v);
    }
    if s.get_char(i) != '[' {
        return None;
    }
    let run = ident_run_exec(s, i + 1);
    if run == 0 {
        return None;
    }
    let j = i + 1 + run;
    if j < n && s.get_char(j) == ']' {
        let name = s.substring_char(i + 1, j).to_owned();
        match parse_parts_exec(s, j + 1) {
            Some(mut rest) => {
                let ghost rest_view = parts_view(rest@);
                let mut v: Vec<SelectorPart> = Vec::new();
                v.push(SelectorPart::Present { name });
                v.append(&mut rest);
                proof {
                    assert(parts_view(v@) =~= seq![
                        SelectorPartView::Present { name: s@.subrange(i + 1, j as int) },
                    ] + rest_view);
                }
                Some(v)
            },
            None => None,
        }
    } else if j < n && s.get_char(j) == '=' {
        match close_dist_exec(s, j + 1) {
            Some(d) => {
                let k = j + 1 + d;
                let name = s.substring_char(i + 1, j).to_owned();
                let value = s.substring_char(j + 1, k).to_owned();
                match parse_parts_exec(s, k + 1) {
                    Some(mut rest) => {
                        let ghost rest_view = parts_view(rest@);
                        let mut v: Vec<SelectorPart> = Vec::new();
                        v.push(SelectorPart::Equals { name, value });
                        v.append(&mut rest);
                        proof {
                            assert(parts_view(v@) =~= seq![
                                SelectorPartView::Equals {
                                    name: s@.subrange(i + 1, j as int),
                                    value: s@.subrange(j + 1, k as int),
                                },
                            ] + rest_view);
                        }
                        Some(v)
                    },
                    None => None,
                }
            },
            None => None,
        }
    } else {
        None
    }
}

/// Parses a selector string; `None` for anything outside the grammar.
pub fn parse(selector: &str) -> (r: Option<Selector>)
    ensures
        match r {
            Some(sel) => parse_selector(selector@) == Some(sel@),
            None => parse_selector(selector@) is None,
        },
{
    let n = selector.unicode_len();
    if n == 0 {
        return None;
    }
    if selector.get_char(0) == '*' {
        match parse_parts_exec(selector, 1) {
            Some(parts) => Some(Selector { tag: None, parts }),
            None => None,
        }
    } else if selector.get_char(0) == '[' {
        match parse_parts_exec(selector, 0) {
            Some(parts) => Some(Selector { tag: None, parts }),
            None => None,
        }
    } else {
        let run = ident_run_exec(selector, 0);
        if run == 0 {
            return None;
        }
        let tag = selector.substring_char(0, run).to_owned();
        match parse_parts_exec(selector, run) {
            Some(parts) => Some(Selector { tag: Some(tag), parts }),
            None => None,
        }
    }
}

/// The value of the attribute named `name`, if present.
fn attr_lookup<'a>(attributes: &'a Vec<Attr>, name: &String) -> (r: Option<&'a String>)
    ensures
        match r {
            Some(s) => attr_value(attrs_view(attributes@), name@) == Some(s@),
            None => attr_value(attrs_view(attributes@), name@) is None,
        },
{
    let ghost view = attrs_view(attributes@);
    let mut i: usize = 0;
    while i < attributes.len()
        invariant
            i <= attributes.len(),
            view == attrs_view(attributes@),
            forall|j: int| 0 <= j < i ==> (#[trigger] view[j]).0 != name@,
        decreases attributes.len() - i,
    {
        if attributes[i].name == *name {
            proof {
                lemma_attr_value_at(view, name@, i as int);
            }
            return Some(&attributes[i].value);
        }
        i += 1;
    }
    proof {
        lemma_attr_absent(view, name@);
    }
    None
}

impl<R> Document<R> {
    /// Whether the node at `id` matches the parsed selector.
    fn node_matches(&self, id: NodeId, sel: &Selector) -> (r: bool)
        ensures
            r == matches_node(*self, id, sel@),
    {
        if id.0 >= self.store.len() {
            return false;
        }
        match &self.store[id.0] {
            None => false,
            Some(slot) => match &slot.node {
                Node::Text { .. } => false,
                Node::Element { local_name, attributes, .. } => {
                    match &sel.tag {
                        Some(t) => {
                            if !(*t == *local_name) {
                                proof {
                                    assert(self.name(id.0 as int) == local_name@);
                                    assert(!matches_node(*self, id, sel@));
                                }
                                return false;
                            }
                        },
                        None => {},
                    }
                    let ghost aview = attrs_view(attributes@);
                    let mut p: usize = 0;
                    while p < sel.parts.len()
                        invariant
                            p <= sel.parts@.len(),
                            self.is_element(id.0 as int),
                            self.attrs(id.0 as int) == aview,
                            aview == attrs_view(attributes@),
                            match sel@.tag {
                                Some(t) => self.name(id.0 as int) == t,
                                None => true,
                            },
                            forall|q: int|
                                0 <= q < p ==> part_holds(aview, #[trigger] sel@.parts[q]),
                        decreases sel.parts@.len() - p,
                    {
                        proof {
                            assert(sel@.parts[p as int] == sel.parts@[p as int]@);
                        }
                        let holds: bool = match &sel.parts[p] {
                            SelectorPart::Present { name } => attr_lookup(
                                attributes,
                                name,
                            ).is_some(),
                            SelectorPart::Equals { name, value } => match attr_lookup(
                                attributes,
                                name,
                            ) {
                                Some(stored) => *stored == *value,
                                None => false,
                            },
                        };
                        proof {
                            assert(holds == part_holds(aview, sel@.parts[p as int]));
                        }
                        if !holds {
                            return false;
                        }
                        p += 1;
                    }
                    proof {
                        assert(sel@.parts.len() == sel.parts@.len());
                    }
                    true
                },
            },
        }
    }

    /// Appends to `out` every match in the subtree under `id`, in document
    /// pre-order, walking at most `fuel` levels deep.
    fn collect_matches(&self, id: NodeId, sel: &Selector, fuel: usize, out: &mut Vec<NodeId>)
        ensures
            final(out)@ == old(out)@ + preorder_matches(*self, id, sel@, fuel as nat),
        decreases fuel,
    {
        if fuel == 0 {
            proof {
                assert(out@ =~= old(out)@ + preorder_matches(*self, id, sel@, fuel as nat));
            }
            return;
        }
        if id.0 >= self.store.len() {
            proof {
                assert(out@ =~= old(out)@ + preorder_matches(*self, id, sel@, fuel as nat));
            }
            return;
        }
        match &self.store[id.0] {
            None => {
                proof {
                    assert(out@ =~= old(out)@ + preorder_matches(*self, id, sel@, fuel as nat));
                }
                return;
            },
            Some(_) => {},
        }
        let ghost head: Seq<NodeId> = if matches_node(*self, id, sel@) {
            seq![id]
        } else {
            Seq::<NodeId>::empty()
        };
        if self.node_matches(id, sel) {
            out.push(id);
        }
        let ghost c_seq = self.children(id.0 as int);
        let n: usize = match &self.store[id.0] {
            Some(slot) => match &slot.node {
                Node::Element { children, .. } => children.len(),
                Node::Text { .. } => 0,
            },
            None => 0,
        };
        let ghost base = out@;
        let mut i: usize = 0;
        while i < n
            invariant
                i <= n,
                self.live(id.0 as int),
                n as int == c_seq.len(),
                c_seq == self.children(id.0 as int),
                fuel >= 1,
                out@ == base + preorder_list(*self, c_seq.take(i as int), sel@, (fuel - 1) as nat),
            decreases n - i,
        {
            let child: NodeId = match &self.store[id.0] {
                Some(slot) => match &slot.node {
                    Node::Element { children, .. } => children[i],
                    Node::Text { .. } => {
                        proof {
                            assert(false);
                        }
                        id
                    },
                },
                None => {
                    proof {
                        assert(false);
                    }
                    id
                },
            };
            proof {
                assert(child == c_seq[i as int]);
            }
            self.collect_matches(child, sel, fuel - 1, out);
            proof {
                assert(c_seq.take(i as int + 1) =~= c_seq.take(i as int).push(child));
                lemma_preorder_list_push(
                    *self,
                    c_seq.take(i as int),
                    child,
                    sel@,
                    (fuel - 1) as nat,
                );
            }
            i += 1;
        }
        proof {
            assert(c_seq.take(n as int) =~= c_seq);
            assert(out@ =~= old(out)@ + preorder_matches(*self, id, sel@, fuel as nat));
        }
    }

    /// Evaluates `selector` against the subtree rooted at `scope` (the
    /// document root if `None`) and collects every match in document
    /// pre-order: each node before its children, children in child-sequence
    /// order. Nothing matching — or an unparsable selector, a freed scope id,
    /// or no root to start from — yields an empty vector, never an error. The
    /// tree is only read, never changed.
    pub fn query_selector_all(&self, selector: &str, scope: Option<NodeId>) -> (r: Vec<NodeId>)
        ensures
            r@ == spec_query_all(*self, selector@, scope),
    {
        let sel = match parse(selector) {
            Some(sel) => sel,
            None => {
                let empty: Vec<NodeId> = Vec::new();
                return empty;
            },
        };
        let start: NodeId = match scope {
            Some(id) => id,
            None => match self.root {
                Some(r) => r,
                None => {
                    let empty: Vec<NodeId> = Vec::new();
                    return empty;
                },
            },
        };
        let mut out: Vec<NodeId> = Vec::new();
        self.collect_matches(start, &sel, self.store.len(), &mut out);
        out
    }

    /// The first match of `selector` under `scope` in document pre-order —
    /// exactly the head of what `query_selector_all` returns — or `None`
    /// when nothing matches.
    pub fn query_selector(&self, selector: &str, scope: Option<NodeId>) -> (r: Option<NodeId>)
        ensures
            r == spec_query_first(*self, selector@, scope),
    {
        let all = self.query_selector_all(selector, scope);
        if all.len() == 0 {
            None
        } else {
            Some(all[0])
        }
    }
}

} // verus!

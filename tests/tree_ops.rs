use html_dom::document::{Document, NodeOrText};
use html_dom::node::{Attribute, Handle, Node, QualName};
use html_dom::serialize::SerEvent;
use html_dom::traverse::{DescendantOrder, NoSkip, NoneTagSkip};

fn qn(local: &str) -> QualName {
    QualName { prefix: None, ns: "http://www.w3.org/1999/xhtml".to_string(), local: local.to_string() }
}

fn attr(name: &str, value: &str) -> Attribute {
    Attribute { name: qn(name), value: value.to_string() }
}

fn elem(doc: &mut Document<()>, tag: &str) -> Handle {
    doc.create_element(qn(tag), vec![], (), ())
}

fn add(doc: &mut Document<()>, parent: Handle, child: Handle) {
    doc.append(parent, NodeOrText::AppendNode(child), ());
}

fn text(doc: &mut Document<()>, parent: Handle, t: &str) {
    doc.append(parent, NodeOrText::AppendText(t.to_string()), ());
}

fn forward(doc: &Document<()>, p: Handle) -> Vec<Handle> {
    let mut out = vec![];
    let mut cur = doc.dom.first_child(p);
    while let Some(c) = cur {
        out.push(c);
        cur = doc.dom.next_sibling(c);
    }
    out
}

fn backward_reversed(doc: &Document<()>, p: Handle) -> Vec<Handle> {
    let mut out = vec![];
    let mut cur = doc.dom.last_child(p);
    while let Some(c) = cur {
        out.push(c);
        cur = doc.dom.prev_sibling(c);
    }
    out.reverse();
    out
}

#[test]
fn sibling_walks_agree_after_mutations() {
    let mut doc = Document::new(());
    let root = elem(&mut doc, "div");
    add(&mut doc, 0, root);
    let a = elem(&mut doc, "a");
    let b = elem(&mut doc, "b");
    let c = elem(&mut doc, "i");
    let d = elem(&mut doc, "em");
    add(&mut doc, root, a);
    add(&mut doc, root, b);
    doc.append_before_sibling(a, NodeOrText::AppendNode(c), ());
    doc.append_before_sibling(b, NodeOrText::AppendNode(d), ());
    doc.remove_from_parent(a);
    let f = forward(&doc, root);
    assert_eq!(f, vec![c, d, b]);
    assert_eq!(f, backward_reversed(&doc, root));
    assert_eq!(doc.dom.children(root), f);
    doc.remove_from_parent(b);
    doc.remove_from_parent(c);
    assert_eq!(forward(&doc, root), vec![d]);
    assert_eq!(backward_reversed(&doc, root), vec![d]);
    doc.remove_from_parent(d);
    assert!(doc.dom.first_child(root).is_none());
    assert!(doc.dom.last_child(root).is_none());
}

#[test]
fn detach_keeps_own_children() {
    let mut doc = Document::new(());
    let root = elem(&mut doc, "div");
    add(&mut doc, 0, root);
    let n = elem(&mut doc, "p");
    add(&mut doc, root, n);
    let k1 = elem(&mut doc, "span");
    let k2 = elem(&mut doc, "b");
    add(&mut doc, n, k1);
    add(&mut doc, n, k2);
    doc.remove_from_parent(n);
    assert!(!doc.dom.children(root).contains(&n));
    assert_eq!(doc.dom.parent(n), None);
    assert_eq!(doc.dom.prev_sibling(n), None);
    assert_eq!(doc.dom.next_sibling(n), None);
    assert_eq!(doc.dom.children(n), vec![k1, k2]);
    assert_eq!(doc.dom.parent(k1), Some(n));
}

#[test]
fn detach_middle_relinks_neighbours() {
    let mut doc = Document::new(());
    let root = elem(&mut doc, "div");
    add(&mut doc, 0, root);
    let a = elem(&mut doc, "a");
    let b = elem(&mut doc, "b");
    let c = elem(&mut doc, "i");
    add(&mut doc, root, a);
    add(&mut doc, root, b);
    add(&mut doc, root, c);
    doc.remove_from_parent(b);
    assert_eq!(doc.dom.next_sibling(a), Some(c));
    assert_eq!(doc.dom.prev_sibling(c), Some(a));
    doc.remove_from_parent(a);
    assert_eq!(doc.dom.first_child(root), Some(c));
    assert_eq!(doc.dom.prev_sibling(c), None);
}

fn pruning_tree(doc: &mut Document<()>) -> (Handle, Handle, Handle, Handle) {
    let body = elem(doc, "body");
    add(doc, 0, body);
    let p = elem(doc, "p");
    add(doc, body, p);
    text(doc, p, "keep");
    let script = elem(doc, "script");
    add(doc, body, script);
    let inner = elem(doc, "span");
    add(doc, script, inner);
    text(doc, inner, "hidden");
    let after = elem(doc, "div");
    add(doc, body, after);
    (body, script, inner, after)
}

#[test]
fn preorder_prunes_skipped_subtree() {
    let mut doc = Document::new(());
    let (body, script, inner, after) = pruning_tree(&mut doc);
    let walk = doc.dom.descendants_skip(body, &NoneTagSkip);
    assert!(!walk.contains(&inner));
    assert!(!walk.contains(&script));
    assert!(walk.contains(&after));
    assert_eq!(walk.len(), 3);
    let all = doc.dom.descendants(body);
    assert!(all.contains(&inner));
    assert_eq!(all.len(), 6);
}

#[test]
fn postorder_prunes_skipped_node_and_subtree() {
    let mut doc = Document::new(());
    let (body, script, inner, after) = pruning_tree(&mut doc);
    let walk = doc.dom.postorder_descendants_skip(body, &NoneTagSkip);
    assert!(!walk.contains(&script));
    assert!(!walk.contains(&inner));
    assert_eq!(walk.last(), Some(&after));
    assert_eq!(walk.len(), 3);
    let all = doc.dom.postorder_descendants(body);
    assert_eq!(all.len(), 6);
    assert_eq!(all.last(), Some(&after));
}

#[test]
fn orders_on_a_small_tree() {
    let mut doc = Document::new(());
    let r = elem(&mut doc, "div");
    add(&mut doc, 0, r);
    let a = elem(&mut doc, "a");
    let b = elem(&mut doc, "b");
    let c = elem(&mut doc, "i");
    add(&mut doc, r, a);
    add(&mut doc, a, b);
    add(&mut doc, r, c);
    assert_eq!(doc.dom.descendants_in(r, DescendantOrder::PreOrder, &NoSkip), vec![a, b, c]);
    assert_eq!(doc.dom.descendants_in(r, DescendantOrder::PostOrder, &NoSkip), vec![b, a, c]);
    assert_eq!(doc.dom.trace_order(r), vec![r, a, b, c]);
    assert_eq!(doc.dom.postorder_trace_order(r), vec![b, a, c, r]);
}

#[test]
fn block_boundary_gives_one_newline() {
    let mut doc = Document::new(());
    let body = elem(&mut doc, "body");
    add(&mut doc, 0, body);
    text(&mut doc, body, "first");
    let d1 = elem(&mut doc, "div");
    let d2 = elem(&mut doc, "p");
    let d3 = elem(&mut doc, "section");
    add(&mut doc, body, d1);
    add(&mut doc, body, d2);
    add(&mut doc, body, d3);
    text(&mut doc, body, "second");
    assert_eq!(doc.dom.descendants_text(body), "first\nsecond");
}

#[test]
fn inline_content_has_no_newline() {
    let mut doc = Document::new(());
    let body = elem(&mut doc, "body");
    add(&mut doc, 0, body);
    text(&mut doc, body, "one ");
    let s = elem(&mut doc, "span");
    add(&mut doc, body, s);
    text(&mut doc, s, "two");
    let st = elem(&mut doc, "style");
    add(&mut doc, body, st);
    text(&mut doc, st, "x{}");
    assert_eq!(doc.dom.descendants_text(body), "one two");
    assert_eq!(doc.dom.children_text(body), "one ");
    assert_eq!(doc.dom.children_text(s), "two");
}

#[test]
fn attribute_merge_keeps_existing() {
    let mut doc = Document::new(());
    let e = doc.create_element(qn("div"), vec![attr("class", "a")], (), ());
    doc.add_attrs_if_missing(e, vec![attr("class", "b"), attr("id", "x")]);
    let attrs = doc.dom.get(e).attrs();
    assert_eq!(attrs.len(), 2);
    assert_eq!(attrs[0].name.local, "class");
    assert_eq!(attrs[0].value, "a");
    assert_eq!(attrs[1].name.local, "id");
    assert_eq!(attrs[1].value, "x");
}

#[test]
fn pop_attr_takes_first_match() {
    let mut doc = Document::new(());
    let e = doc.create_element(qn("div"), vec![attr("a", "1"), attr("b", "2"), attr("c", "3")], (), ());
    assert_eq!(doc.dom.pop_attr(e, "a"), Some("1".to_string()));
    assert_eq!(doc.dom.pop_attr(e, "zz"), None);
    let names: Vec<String> = doc.dom.get(e).attrs().iter().map(|a| a.name.local.clone()).collect();
    assert_eq!(names, vec!["c".to_string(), "b".to_string()]);
    assert_eq!(doc.dom.get(e).attr("b"), Some("2".to_string()));
    assert_eq!(doc.dom.get(e).attr("a"), None);
}

#[test]
fn reparent_moves_children_in_order() {
    let mut doc = Document::new(());
    let from = elem(&mut doc, "div");
    let to = elem(&mut doc, "section");
    add(&mut doc, 0, from);
    add(&mut doc, 0, to);
    let x = elem(&mut doc, "b");
    add(&mut doc, to, x);
    let a = elem(&mut doc, "a");
    let b = elem(&mut doc, "i");
    add(&mut doc, from, a);
    add(&mut doc, from, b);
    doc.reparent_children(from, to);
    assert!(doc.dom.children(from).is_empty());
    assert_eq!(doc.dom.children(to), vec![x, a, b]);
    assert_eq!(doc.dom.parent(a), Some(to));
    assert_eq!(doc.dom.parent(from), Some(0));
}

#[test]
fn adjacent_text_is_merged() {
    let mut doc = Document::new(());
    let p = elem(&mut doc, "p");
    add(&mut doc, 0, p);
    text(&mut doc, p, "ab");
    text(&mut doc, p, "cd");
    let kids = doc.dom.children(p);
    assert_eq!(kids.len(), 1);
    assert_eq!(doc.dom.get(kids[0]).text(), "abcd");
    let b = elem(&mut doc, "b");
    add(&mut doc, p, b);
    doc.append_before_sibling(b, NodeOrText::AppendText("ef".to_string()), ());
    assert_eq!(doc.dom.children(p).len(), 2);
    assert_eq!(doc.dom.get(kids[0]).text(), "abcdef");
    doc.append_before_sibling(kids[0], NodeOrText::AppendText("00".to_string()), ());
    let kids2 = doc.dom.children(p);
    assert_eq!(kids2.len(), 3);
    assert_eq!(doc.dom.get(kids2[0]).text(), "00");
}

#[test]
fn insert_before_moves_attached_node() {
    let mut doc = Document::new(());
    let p = elem(&mut doc, "div");
    add(&mut doc, 0, p);
    let a = elem(&mut doc, "a");
    let b = elem(&mut doc, "b");
    add(&mut doc, p, a);
    add(&mut doc, p, b);
    doc.append_before_sibling(a, NodeOrText::AppendNode(b), ());
    assert_eq!(doc.dom.children(p), vec![b, a]);
    assert_eq!(backward_reversed(&doc, p), vec![b, a]);
}

#[test]
fn parent_based_append_chooses_target() {
    let mut doc = Document::new(());
    let table = elem(&mut doc, "table");
    let holder = elem(&mut doc, "div");
    add(&mut doc, 0, holder);
    let x = elem(&mut doc, "b");
    doc.append_based_on_parent_node(table, holder, NodeOrText::AppendNode(x), ());
    assert_eq!(doc.dom.parent(x), Some(holder));
    add(&mut doc, holder, table);
    let y = elem(&mut doc, "i");
    doc.append_based_on_parent_node(table, holder, NodeOrText::AppendNode(y), ());
    assert_eq!(doc.dom.children(holder), vec![x, y, table]);
}

#[test]
fn template_gets_contents() {
    let mut doc = Document::new(());
    let t = elem(&mut doc, "template");
    let c = doc.get_template_contents(t);
    assert!(matches!(doc.dom.get(c), Node::Document { .. }));
    let d = elem(&mut doc, "div");
    assert!(matches!(doc.dom.get(d), Node::Element { template_contents: None, .. }));
    let svg = QualName { prefix: None, ns: "http://www.w3.org/2000/svg".to_string(), local: "template".to_string() };
    let s = doc.create_element(svg, vec![], (), ());
    assert_eq!(doc.dom.get(s).template_contents(), None);
    assert_eq!(doc.dom.len_exec(), s + 1);
}

#[test]
fn insert_before_takes_node_from_other_parent() {
    let mut doc = Document::new(());
    let p = elem(&mut doc, "div");
    let q = elem(&mut doc, "section");
    add(&mut doc, 0, p);
    add(&mut doc, 0, q);
    let a = elem(&mut doc, "a");
    let b = elem(&mut doc, "b");
    let c = elem(&mut doc, "i");
    add(&mut doc, p, a);
    add(&mut doc, q, b);
    add(&mut doc, q, c);
    doc.append_before_sibling(a, NodeOrText::AppendNode(b), ());
    assert_eq!(doc.dom.children(p), vec![b, a]);
    assert_eq!(doc.dom.children(q), vec![c]);
    assert_eq!(doc.dom.parent(b), Some(p));
    assert_eq!(doc.dom.prev_sibling(c), None);
}

#[test]
fn append_leaves_parent_link_to_set_parent() {
    let mut doc = Document::new(());
    let p = elem(&mut doc, "div");
    add(&mut doc, 0, p);
    let a = elem(&mut doc, "a");
    add(&mut doc, p, a);
    let b = elem(&mut doc, "b");
    doc.dom.append_child(p, b);
    assert_eq!(doc.dom.parent(b), None);
    assert_eq!(doc.dom.last_child(p), Some(b));
    assert_eq!(doc.dom.prev_sibling(b), Some(a));
    assert_eq!(doc.dom.next_sibling(a), Some(b));
    doc.dom.set_parent(b, p);
    assert_eq!(doc.dom.parent(b), Some(p));
    assert_eq!(doc.dom.children(p), vec![a, b]);
}

#[test]
fn processing_instruction_becomes_comment() {
    let mut doc = Document::new(());
    let h = doc.create_pi("xml".to_string(), "version".to_string(), ());
    assert_eq!(doc.dom.get(h).comment(), "xml version");
    assert!(doc.same_node(h, h));
    assert!(!doc.same_node(h, 0));
}

#[test]
fn errors_are_kept_in_order() {
    let mut doc = Document::<()>::new(());
    doc.parse_error("one".to_string());
    doc.parse_error("two".to_string());
    assert_eq!(doc.errors, vec!["one".to_string(), "two".to_string()]);
}

#[test]
fn output_steps_of_a_subtree() {
    let mut doc = Document::new(());
    doc.append_doctype_to_document("html".to_string(), String::new(), String::new(), ());
    let html = elem(&mut doc, "html");
    add(&mut doc, 0, html);
    text(&mut doc, html, "t");
    let c = doc.create_comment("c".to_string(), ());
    add(&mut doc, html, c);
    let k = doc.dom.children(html);
    assert_eq!(
        doc.dom.outer_events(0),
        vec![SerEvent::Doctype(1), SerEvent::StartElem(html), SerEvent::Text(k[0]), SerEvent::Comment(c), SerEvent::EndElem(html)]
    );
    assert_eq!(doc.dom.inner_events(html), vec![SerEvent::Text(k[0]), SerEvent::Comment(c)]);
    assert_eq!(doc.dom.inner_events(k[0]), vec![SerEvent::Text(k[0])]);
}

#[test]
fn structural_lookups() {
    let mut doc = Document::new(());
    let html = elem(&mut doc, "html");
    add(&mut doc, 0, html);
    let head = elem(&mut doc, "head");
    let body = elem(&mut doc, "body");
    add(&mut doc, html, head);
    add(&mut doc, html, body);
    let title = elem(&mut doc, "title");
    add(&mut doc, head, title);
    text(&mut doc, title, " hello ");
    let s = doc.create_element(qn("script"), vec![attr("type", "application/ld+json")], (), ());
    add(&mut doc, head, s);
    text(&mut doc, s, "{}");
    let p = elem(&mut doc, "p");
    add(&mut doc, body, p);
    assert_eq!(doc.dom.document_node(p), 0);
    assert_eq!(doc.dom.root(p), html);
    assert_eq!(doc.dom.head(p), head);
    assert_eq!(doc.dom.body(0), body);
    assert_eq!(doc.dom.title(p), Some(" hello ".to_string()));
    assert_eq!(doc.dom.ld_json(p), Some("{}".to_string()));
    assert_eq!(doc.dom.first_element_child(html, Some("body")), Some(body));
    assert_eq!(doc.dom.first_element_child(body, Some("div")), None);
    assert!(doc.dom.is_ancestor_or_self(html, p));
    assert!(doc.dom.is_ancestor_or_self(p, p));
    assert!(!doc.dom.is_ancestor_or_self(p, html));
}

#[test]
fn tag_names_and_classes() {
    let mut doc = Document::new(());
    let svg = doc.create_element(
        QualName { prefix: Some("svg".to_string()), ns: "http://www.w3.org/2000/svg".to_string(), local: "rect".to_string() },
        vec![],
        (),
        (),
    );
    assert_eq!(doc.dom.get(svg).tag_name(), "svg:rect");
    let span = elem(&mut doc, "span");
    assert!(doc.dom.get(span).is_inline_tag());
    let div = elem(&mut doc, "div");
    assert!(!doc.dom.get(div).is_inline_tag());
    let style = elem(&mut doc, "style");
    assert!(style > 0 && doc.dom.get(style).is_none_tag());
    assert!(!doc.dom.get(div).is_none_tag());
}

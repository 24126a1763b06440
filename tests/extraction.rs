use html_dom::document::{Document, NodeOrText};
use html_dom::extract::{contains_str, parse_html, trim, Feature};
use html_dom::node::{Attribute, Handle, QualName};
use html_dom::render::{RenderNodeData, Vision};

fn qn(local: &str) -> QualName {
    QualName { prefix: None, ns: "http://www.w3.org/1999/xhtml".to_string(), local: local.to_string() }
}

fn el(doc: &mut Document<RenderNodeData>, tag: &str, attrs: Vec<(&str, &str)>) -> Handle {
    let attrs = attrs.into_iter().map(|(n, v)| Attribute { name: qn(n), value: v.to_string() }).collect();
    doc.create_element(qn(tag), attrs, RenderNodeData::default(), RenderNodeData::default())
}

fn add(doc: &mut Document<RenderNodeData>, p: Handle, c: Handle) {
    doc.append(p, NodeOrText::AppendNode(c), RenderNodeData::default());
}

fn txt(doc: &mut Document<RenderNodeData>, p: Handle, t: &str) {
    doc.append(p, NodeOrText::AppendText(t.to_string()), RenderNodeData::default());
}

fn page(with_title: bool, with_body: bool) -> Document<RenderNodeData> {
    let mut doc = Document::new(RenderNodeData::default());
    let html = el(&mut doc, "html", vec![]);
    add(&mut doc, 0, html);
    let head = el(&mut doc, "head", vec![]);
    add(&mut doc, html, head);
    if with_title {
        let t = el(&mut doc, "title", vec![]);
        add(&mut doc, head, t);
        txt(&mut doc, t, "Big   news  today");
    }
    let ld = el(&mut doc, "script", vec![("type", "application/ld+json")]);
    add(&mut doc, head, ld);
    txt(&mut doc, ld, r#"{"image": {"url": "http://x/pic.jpg"}}"#);
    if with_body {
        let body = el(&mut doc, "body", vec![]);
        add(&mut doc, html, body);
        let mut data = RenderNodeData::default();
        data.vision = Vision { width: 800, height: -1, xpos: 0, ypos: 12, visible: 1 };
        doc.dom.set_custom_node_data(body, data);
        let nav = el(&mut doc, "div", vec![]);
        add(&mut doc, body, nav);
        txt(&mut doc, nav, "menu");
        let art = el(&mut doc, "div", vec![("class", "main article-body")]);
        add(&mut doc, body, art);
        txt(&mut doc, art, "  Hello   world ");
        let video = el(&mut doc, "div", vec![("class", "featured-video")]);
        add(&mut doc, art, video);
        txt(&mut doc, video, "video");
        let a = el(&mut doc, "a", vec![]);
        add(&mut doc, art, a);
        let strong = el(&mut doc, "strong", vec![]);
        add(&mut doc, a, strong);
        txt(&mut doc, strong, "READ MORE");
        let a2 = el(&mut doc, "a", vec![]);
        add(&mut doc, art, a2);
        let strong2 = el(&mut doc, "strong", vec![]);
        add(&mut doc, a2, strong2);
        txt(&mut doc, strong2, "lower");
        let p = el(&mut doc, "p", vec![]);
        add(&mut doc, art, p);
        txt(&mut doc, p, "end ");
    }
    doc
}

#[test]
fn extracts_feature_fields() {
    let doc = page(true, true);
    let f = parse_html("http://x/a".to_string(), &doc).unwrap();
    assert_eq!(f.url, "http://x/a");
    assert_eq!(f.title, "Big news today");
    assert_eq!(f.image, "http://x/pic.jpg");
    assert_eq!(f.content, "Hello world lower\nend");
    assert_eq!(f.feature, "800:-1:0:12:1");
}

#[test]
fn missing_title_is_an_error() {
    let doc = page(false, true);
    match parse_html("u".to_string(), &doc) {
        Err(e) => assert_eq!(e, "not found title"),
        Ok(_) => panic!("expected an error"),
    }
}

#[test]
fn missing_body_is_an_error() {
    let doc = page(true, false);
    match parse_html("u".to_string(), &doc) {
        Err(e) => assert_eq!(e, "not found content"),
        Ok(_) => panic!("expected an error"),
    }
}

#[test]
fn image_needs_json_object_path() {
    let mut doc = Document::new(RenderNodeData::default());
    let html = el(&mut doc, "html", vec![]);
    add(&mut doc, 0, html);
    let head = el(&mut doc, "head", vec![]);
    add(&mut doc, html, head);
    let t = el(&mut doc, "title", vec![]);
    add(&mut doc, head, t);
    txt(&mut doc, t, "T");
    let ld = el(&mut doc, "script", vec![("type", "application/ld+json")]);
    add(&mut doc, head, ld);
    txt(&mut doc, ld, r#"{"image": "plain"}"#);
    let body = el(&mut doc, "body", vec![]);
    add(&mut doc, html, body);
    txt(&mut doc, body, "x");
    let f = parse_html("u".to_string(), &doc).unwrap();
    assert_eq!(f.image, "");
    assert_eq!(f.content, "x");
    assert_eq!(f.feature, "-1:-1:-1:-1:-1");
}

#[test]
fn substring_search() {
    assert!(contains_str("main article-body x", "article-body"));
    assert!(!contains_str("article", "article-body"));
    assert!(contains_str("abc", ""));
    assert!(contains_str("abc", "c"));
    let f = Feature::new();
    assert!(f.title.is_empty());
}

#[test]
fn trims_unicode_white_space() {
    assert_eq!(trim(" \t a b \n\u{3000}"), "a b");
    assert_eq!(trim("   "), "");
    assert_eq!(trim("x"), "x");
    assert_eq!(trim("\u{a0}x\u{2009}y\u{85}"), "x\u{2009}y");
}

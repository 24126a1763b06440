use std::borrow::Cow;
use std::io;
use html5ever::driver::ParseOpts;
use html5ever::tendril::{StrTendril, TendrilSink};
use html5ever::tree_builder::{ElementFlags, NodeOrText as Html5NodeOrText, QuirksMode, TreeBuilderOpts, TreeSink};
use html5ever::{ExpandedName, QualName as Html5QualName};
use html_dom::document::{Document, NodeOrText};
use html_dom::node::{Attribute, Handle, Node, QualName};
use html5ever::serialize::{HtmlSerializer, SerializeOpts, Serializer, TraversalScope};
use html5ever::{LocalName, Namespace, Prefix};
use html_dom::dom::Dom;
use html_dom::serialize::SerEvent;




pub fn qual_name_from(n: &Html5QualName) -> QualName {
    QualName {
        prefix: n.prefix.as_ref().map(|p| p.to_string()),
        ns: n.ns.to_string(),
        local: n.local.to_string(),
    }
}

pub fn attribute_from(a: html5ever::Attribute) -> Attribute {
    Attribute { name: qual_name_from(&a.name), value: a.value.to_string() }
}

/// A `Document` under construction, with html5ever's own name of each
/// element kept beside it for `elem_name`.
pub struct Sink<ND> {
    pub doc: Document<ND>,
    names: Vec<Option<Html5QualName>>,
}

impl<ND: Default> Sink<ND> {
    pub fn new() -> Self {
        Sink { doc: Document::new(ND::default()), names: vec![None] }
    }

    fn sync_names(&mut self) {
        let n = self.doc.dom.len_exec();
        self.names.resize(n, None);
    }

    fn check_room(&self) {
        if self.doc.dom.len_exec() >= usize::MAX - 2 {
            panic!("too many nodes")
        }
    }

    fn check_container(&self, parent: Handle) {
        if !self.doc.dom.get(parent).has_children() {
            panic!("is not element node")
        }
    }

    fn check_attachable(&self, child: &Html5NodeOrText<Handle>, parent: Handle) {
        if let Html5NodeOrText::AppendNode(c) = child {
            if self.doc.dom.is_ancestor_or_self(*c, parent) {
                panic!("node would become its own descendant")
            }
        }
    }

    fn convert(child: Html5NodeOrText<Handle>) -> NodeOrText {
        match child {
            Html5NodeOrText::AppendNode(n) => NodeOrText::AppendNode(n),
            Html5NodeOrText::AppendText(t) => NodeOrText::AppendText(t.to_string()),
        }
    }
}

impl<ND: Default> TreeSink for Sink<ND> {
    type Handle = Handle;
    type Output = Document<ND>;

    fn finish(self) -> Document<ND> {
        self.doc
    }

    fn parse_error(&mut self, msg: Cow<'static, str>) {
        self.doc.parse_error(msg.to_string());
    }

    fn get_document(&mut self) -> Handle {
        self.doc.get_document()
    }

    fn elem_name<'a>(&'a self, target: &'a Handle) -> ExpandedName<'a> {
        match &self.names[*target] {
            Some(n) => n.expanded(),
            None => panic!("is not element node"),
        }
    }

    fn create_element(&mut self, name: Html5QualName, attrs: Vec<html5ever::Attribute>, _flags: ElementFlags) -> Handle {
        self.check_room();
        let attrs = attrs.into_iter().map(attribute_from).collect();
        let h = self.doc.create_element(qual_name_from(&name), attrs, ND::default(), ND::default());
        self.sync_names();
        self.names[h] = Some(name);
        h
    }

    fn create_comment(&mut self, text: StrTendril) -> Handle {
        self.check_room();
        let h = self.doc.create_comment(text.to_string(), ND::default());
        self.sync_names();
        h
    }

    fn create_pi(&mut self, target: StrTendril, data: StrTendril) -> Handle {
        self.check_room();
        let h = self.doc.create_pi(target.to_string(), data.to_string(), ND::default());
        self.sync_names();
        h
    }

    fn append(&mut self, parent: &Handle, child: Html5NodeOrText<Handle>) {
        self.check_room();
        self.check_container(*parent);
        self.check_attachable(&child, *parent);
        if let Html5NodeOrText::AppendNode(c) = &child {
            if self.doc.dom.parent(*c).is_some() {
                panic!("node already has a parent")
            }
        }
        self.doc.append(*parent, Self::convert(child), ND::default());
        self.sync_names();
    }

    fn append_based_on_parent_node(&mut self, element: &Handle, prev_element: &Handle, child: Html5NodeOrText<Handle>) {
        self.check_room();
        match self.doc.dom.parent(*element) {
            Some(parent) => {
                self.check_attachable(&child, parent);
                if let Html5NodeOrText::AppendNode(c) = &child {
                    if *c == *element {
                        panic!("node cannot precede itself")
                    }
                }
            }
            None => {
                self.check_container(*prev_element);
                self.check_attachable(&child, *prev_element);
                if let Html5NodeOrText::AppendNode(c) = &child {
                    if self.doc.dom.parent(*c).is_some() {
                        panic!("node already has a parent")
                    }
                }
            }
        }
        self.doc.append_based_on_parent_node(*element, *prev_element, Self::convert(child), ND::default());
        self.sync_names();
    }

    fn append_doctype_to_document(&mut self, name: StrTendril, public_id: StrTendril, system_id: StrTendril) {
        self.check_room();
        self.doc.append_doctype_to_document(name.to_string(), public_id.to_string(), system_id.to_string(), ND::default());
        self.sync_names();
    }

    fn get_template_contents(&mut self, target: &Handle) -> Handle {
        match self.doc.dom.get(*target) {
            Node::Element { template_contents: Some(_), .. } => self.doc.get_template_contents(*target),
            _ => panic!("is not template element"),
        }
    }

    fn same_node(&self, x: &Handle, y: &Handle) -> bool {
        self.doc.same_node(*x, *y)
    }

    fn set_quirks_mode(&mut self, _mode: QuirksMode) {}

    fn append_before_sibling(&mut self, sibling: &Handle, new_node: Html5NodeOrText<Handle>) {
        self.check_room();
        let parent = match self.doc.dom.parent(*sibling) {
            Some(p) => p,
            None => panic!("not exists parent"),
        };
        self.check_attachable(&new_node, parent);
        if let Html5NodeOrText::AppendNode(c) = &new_node {
            if *c == *sibling {
                panic!("node cannot precede itself")
            }
        }
        self.doc.append_before_sibling(*sibling, Self::convert(new_node), ND::default());
        self.sync_names();
    }

    fn add_attrs_if_missing(&mut self, target: &Handle, attrs: Vec<html5ever::Attribute>) {
        if !self.doc.dom.get(*target).is_element_node() {
            panic!("is not element node")
        }
        self.doc.add_attrs_if_missing(*target, attrs.into_iter().map(attribute_from).collect());
    }

    fn associate_with_form(&mut self, _target: &Handle, _form: &Handle, _nodes: (&Handle, Option<&Handle>)) {}

    fn remove_from_parent(&mut self, target: &Handle) {
        if self.doc.dom.parent(*target).is_none() {
            panic!("not exists parent")
        }
        self.doc.remove_from_parent(*target);
    }

    fn reparent_children(&mut self, node: &Handle, new_parent: &Handle) {
        self.check_container(*new_parent);
        if self.doc.dom.is_ancestor_or_self(*node, *new_parent) {
            panic!("node would become its own descendant")
        }
        self.doc.reparent_children(*node, *new_parent);
    }

    fn is_mathml_annotation_xml_integration_point(&self, _handle: &Handle) -> bool {
        false
    }

    fn set_current_line(&mut self, _line_number: u64) {}

    fn complete_script(&mut self, _node: &Handle) -> html5ever::tree_builder::NextParserState {
        html5ever::tree_builder::NextParserState::Continue
    }
}

/// Parses a UTF-8 HTML document into a tree whose nodes carry `ND` payloads.
pub fn custom_parse_document<R, ND>(r: &mut R) -> Result<Document<ND>, String>
where
    R: io::Read,
    ND: Default,
{
    let opts = ParseOpts {
        tree_builder: TreeBuilderOpts { drop_doctype: false, ..Default::default() },
        ..Default::default()
    };
    html5ever::parse_document(Sink::<ND>::new(), opts).from_utf8().read_from(r).map_err(|e| e.to_string())
}

/// Parses a UTF-8 HTML document into a tree with empty payloads.
pub fn parse_document<R: io::Read>(r: &mut R) -> Result<Document<()>, String> {
    custom_parse_document::<R, ()>(r)
}




fn qual_name_to(n: &QualName) -> Html5QualName {
    Html5QualName::new(
        n.prefix.as_ref().map(|p| Prefix::from(p.as_str())),
        Namespace::from(n.ns.as_str()),
        LocalName::from(n.local.as_str()),
    )
}

fn write_events<ND>(dom: &Dom<ND>, events: &[SerEvent]) -> String {
    let opts = SerializeOpts {
        scripting_enabled: true,
        traversal_scope: TraversalScope::IncludeNode,
        create_missing_parent: true,
    };
    let mut ser = HtmlSerializer::new(Vec::new(), opts);
    for e in events {
        let r = match e {
            SerEvent::StartElem(n) => match dom.get(*n) {
                Node::Element { name, attrs, .. } => {
                    let names: Vec<(Html5QualName, &str)> =
                        attrs.iter().map(|a| (qual_name_to(&a.name), a.value.as_str())).collect();
                    ser.start_elem(qual_name_to(name), names.iter().map(|(q, v)| (q, *v)))
                }
                _ => Ok(()),
            },
            SerEvent::EndElem(n) => ser.end_elem(qual_name_to(dom.get(*n).name())),
            SerEvent::Text(n) => ser.write_text(&dom.get(*n).text()),
            SerEvent::Comment(n) => ser.write_comment(&dom.get(*n).comment()),
            SerEvent::Doctype(n) => match dom.get(*n) {
                Node::DocType { name, .. } => ser.write_doctype(name),
                _ => Ok(()),
            },
        };
        r.expect("writing to memory does not fail");
    }
    String::from_utf8(ser.writer).expect("serializer writes UTF-8")
}

/// HTML of node `n` and its subtree.
pub fn outer_html<ND>(dom: &Dom<ND>, n: Handle) -> String {
    write_events(dom, &dom.outer_events(n))
}

/// HTML of the subtree under node `n`.
pub fn inner_html<ND>(dom: &Dom<ND>, n: Handle) -> String {
    write_events(dom, &dom.inner_events(n))
}


const HTML: &str = r#"<!DOCTYPE html><html><head>
<style>
.abc {
    max-height: 100px;
    width: auto;
}
</style>
<title> fuck you </title>
</head>
<body>
<div class=""> <img class="abc&quot;" src="layout.gif" width="512" height="512">
</div>

</body></html>"#;

#[test]
fn test_outer_html() {
    let mut m = HTML.as_bytes();
    let doc = match parse_document(&mut m) {
        Ok(doc) => doc,
        Err(err) => panic!("{}", err),
    };

    let outer_html = outer_html(&doc.dom, doc.get_document());
    assert_eq!(outer_html.len(), HTML.len());
}

#[derive(Default)]
struct CustomNodeData {
    src: String,
}

#[test]
fn test_custom_parser() {
    let mut doc = match custom_parse_document::<_, CustomNodeData>(&mut HTML.as_bytes()) {
        Ok(doc) => doc,
        Err(err) => panic!("{}", err),
    };

    for node in doc.dom.trace_order(doc.get_document()) {
        if doc.dom.get(node).is_element_node() {
            if let Some(src) = doc.dom.get(node).attr("src") {
                assert_eq!(src, "layout.gif");
                doc.dom.set_custom_node_data(node, CustomNodeData { src });
            }
        }
    }

    let outer_html = outer_html(&doc.dom, doc.get_document());
    assert_eq!(outer_html.len(), HTML.len());
}

#[test]
fn round_trip_of_canonical_document() {
    let src = "<!DOCTYPE html><html><head><title>a &amp; b</title></head><body><p id=\"x\">one<br>two</p><!--note--></body></html>";
    let doc = parse_document(&mut src.as_bytes()).unwrap();
    assert_eq!(outer_html(&doc.dom, doc.get_document()), src);
    assert!(doc.errors.is_empty());
}

#[test]
fn inner_html_leaves_out_own_tags() {
    let src = "<html><head></head><body><div><b>x</b>y</div></body></html>";
    let doc = parse_document(&mut src.as_bytes()).unwrap();
    let body = doc.dom.body(doc.get_document());
    let div = doc.dom.children(body)[0];
    assert_eq!(inner_html(&doc.dom, div), "<b>x</b>y");
    assert_eq!(outer_html(&doc.dom, div), "<div><b>x</b>y</div>");
}

#[test]
fn parse_errors_are_collected() {
    let src = "<p>unclosed <b>bold</p>";
    let doc = parse_document(&mut src.as_bytes()).unwrap();
    assert!(!doc.errors.is_empty());
    let body = doc.dom.body(doc.get_document());
    assert_eq!(doc.dom.descendants_text(body), "unclosed bold");
}

#[test]
fn misnested_formatting_is_rebuilt() {
    let src = "<html><head></head><body><b>1<p>2</b>3</p></body></html>";
    let doc = parse_document(&mut src.as_bytes()).unwrap();
    let body = doc.dom.body(doc.get_document());
    assert_eq!(inner_html(&doc.dom, body), "<b>1</b><p><b>2</b>3</p>");
}

#[test]
fn template_contents_are_kept_apart() {
    let src = "<html><head><template><p>t</p></template></head><body></body></html>";
    let doc = parse_document(&mut src.as_bytes()).unwrap();
    let head = doc.dom.head(doc.get_document());
    let t = doc.dom.children(head)[0];
    assert!(doc.dom.children(t).is_empty());
}

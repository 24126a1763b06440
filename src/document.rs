use vstd::prelude::*;
use vstd::string::*;
use crate::node::{Handle, Node, QualName, Attribute, same_str};
use crate::dom::Dom;

verus! {

/// What a tree builder hands over for insertion: an existing node, or text.
pub enum NodeOrText {
    AppendNode(Handle),
    AppendText(String),
}

/// The tree under construction: its arena, the handle of its document node,
/// and the parse diagnostics reported so far, in order.
pub struct Document<ND> {
    pub dom: Dom<ND>,
    pub document: Handle,
    pub errors: Vec<String>,
}

/// The HTML `template` element, which owns separate template contents.
pub open spec fn is_html_template(name: QualName) -> bool {
    name.local@ == "template"@ && name.ns@ == "http://www.w3.org/1999/xhtml"@
}

/// `c` may be put under `p`: `p` holds children, and `c` is neither `p` nor
/// one of its ancestors.
pub open spec fn can_attach<ND>(dom: &Dom<ND>, c: Handle, p: Handle) -> bool {
    &&& dom.valid(c)
    &&& dom.valid(p)
    &&& dom.node(p).is_container()
    &&& !dom.is_anc(c, p)
}

/// The last child of `p`, if it is a text node.
pub open spec fn text_tail<ND>(dom: &Dom<ND>, p: Handle) -> Option<Handle> {
    let cs = dom.children_of(p);
    if cs.len() > 0 && dom.node(cs.last()) is Text {
        Some(cs.last())
    } else {
        None
    }
}

/// `after` is `before` with `text` appended under `parent`: merged into the
/// last child when that is a text node, else as a new text node.
pub open spec fn text_appended<ND>(before: &Dom<ND>, after: &Dom<ND>, parent: Handle, text: String, data: ND) -> bool {
    match text_tail(before, parent) {
        Some(l) => {
            &&& after.kids_view() == before.kids_view()
            &&& after.nodes_view() == before.nodes_view().update(l as int, after.node(l))
            &&& after.node(l) is Text
            &&& after.node(l).spec_data() == before.node(l).spec_data()
            &&& after.node(l).spec_text() == before.node(l).spec_text() + text@
        },
        None => {
            let r = before.len() as Handle;
            &&& after.nodes_view() == before.nodes_view().push(Node::Text { data, text })
            &&& after.kids_view() == before.kids_view().push(Seq::empty()).update(
                parent as int,
                before.children_of(parent).push(r),
            )
        },
    }
}

/// `after` is `before` with `text` inserted before `sib`: merged into the
/// previous sibling when that is a text node, else as a new text node.
pub open spec fn text_inserted<ND>(before: &Dom<ND>, after: &Dom<ND>, sib: Handle, text: String, data: ND) -> bool {
    match before.link(sib).prev_sibling {
        Some(l) if before.node(l) is Text => {
            &&& after.kids_view() == before.kids_view()
            &&& after.nodes_view() == before.nodes_view().update(l as int, after.node(l))
            &&& after.node(l) is Text
            &&& after.node(l).spec_data() == before.node(l).spec_data()
            &&& after.node(l).spec_text() == before.node(l).spec_text() + text@
        },
        _ => {
            let r = before.len() as Handle;
            let p = before.parent_of(sib)->0;
            &&& after.nodes_view() == before.nodes_view().push(Node::Text { data, text })
            &&& after.kids_view() == before.kids_view().push(Seq::empty()).update(
                p as int,
                before.children_of(p).insert(before.child_index(sib), r),
            )
        },
    }
}

/// The child lists of `before` once `c` is taken from its parent, if any.
pub open spec fn kids_without<ND>(before: &Dom<ND>, c: Handle) -> Seq<Seq<Handle>> {
    match before.parent_of(c) {
        Some(q) => before.kids_view().update(q as int, before.children_of(q).remove(before.child_index(c))),
        None => before.kids_view(),
    }
}

/// Where `sib` stands in its parent's list once `c` is taken out.
pub open spec fn index_without<ND>(before: &Dom<ND>, sib: Handle, c: Handle) -> int {
    if before.parent_of(c) == before.parent_of(sib) && before.child_index(c) < before.child_index(sib) {
        before.child_index(sib) - 1
    } else {
        before.child_index(sib)
    }
}

/// `after` is `before` with node `c` taken from its former parent, if any,
/// and placed immediately before `sib`.
pub open spec fn node_inserted<ND>(before: &Dom<ND>, after: &Dom<ND>, sib: Handle, c: Handle) -> bool {
    let p = before.parent_of(sib)->0;
    let mid = kids_without(before, c);
    &&& after.nodes_view() == before.nodes_view()
    &&& after.parent_of(c) == Some(p)
    &&& after.parent_of(sib) == Some(p)
    &&& after.child_index(sib) == after.child_index(c) + 1
    &&& after.kids_view() == mid.update(p as int, mid[p as int].insert(index_without(before, sib, c), c))
}

/// `after` is `before` with node `c` as the new last child of `parent`.
pub open spec fn node_appended<ND>(before: &Dom<ND>, after: &Dom<ND>, parent: Handle, c: Handle) -> bool {
    &&& after.nodes_view() == before.nodes_view()
    &&& after.parent_of(c) == Some(parent)
    &&& after.kids_view() == before.kids_view().update(parent as int, before.children_of(parent).push(c))
}

impl<ND> Document<ND> {
    pub open spec fn wf(&self) -> bool {
        &&& self.dom.wf()
        &&& self.dom.valid(self.document)
        &&& self.dom.node(self.document) is Document
    }

    /// A tree holding only an empty document node.
    pub fn new(data: ND) -> (r: Self)
        ensures
            r.wf(),
            r.dom.len() == 1,
            r.document == 0,
            r.dom.node(0) == (Node::Document { data }),
            r.dom.children_of(0) == Seq::<Handle>::empty(),
            r.errors@.len() == 0,
    {
        let mut dom = Dom::new();
        let document = dom.new_handle(Node::new_document_node(data));
        Document { dom, document, errors: Vec::new() }
    }

    pub fn parse_error(&mut self, msg: String)
        ensures
            final(self).errors@ == old(self).errors@.push(msg),
            final(self).dom == old(self).dom,
            final(self).document == old(self).document,
    {
        self.errors.push(msg);
    }

    pub fn get_document(&self) -> (r: Handle)
        ensures
            r == self.document,
    {
        self.document
    }

    /// Do the two handles name the same node?
    pub fn same_node(&self, x: Handle, y: Handle) -> (r: bool)
        ensures
            r == (x == y),
    {
        x == y
    }

    /// Creates a detached element. An HTML `template` element also gets an empty
    /// document node as its template contents, carrying `contents_data`.
    pub fn create_element(&mut self, name: QualName, attrs: Vec<Attribute>, data: ND, contents_data: ND) -> (r: Handle)
        requires
            old(self).wf(),
            old(self).dom.len() + 2 <= usize::MAX,
        ensures
            final(self).wf(),
            final(self).document == old(self).document,
            final(self).errors == old(self).errors,
            final(self).dom.valid(r),
            final(self).dom.parent_of(r) is None,
            final(self).dom.children_of(r) == Seq::<Handle>::empty(),
            !old(self).dom.valid(r),
            final(self).dom.len() == old(self).dom.len() + if is_html_template(name) { 2nat } else { 1nat },
            forall|m: Handle| old(self).dom.valid(m) ==> #[trigger] final(self).dom.node(m) == old(self).dom.node(m)
                && final(self).dom.children_of(m) == old(self).dom.children_of(m)
                && final(self).dom.parent_of(m) == old(self).dom.parent_of(m),
            final(self).dom.node(r) matches Node::Element { data: d, name: n, attrs: a, template_contents: t }
                && d == data && n == name && a == attrs
                && (t is Some <==> is_html_template(name))
                && (t matches Some(tc) ==> final(self).dom.valid(tc) && final(self).dom.node(tc) is Document
                    && final(self).dom.children_of(tc) == Seq::<Handle>::empty()),
    {
        let is_template = same_str(name.local.as_str(), "template") && same_str(name.ns.as_str(), "http://www.w3.org/1999/xhtml");
        let contents = if is_template {
            let tc = self.dom.new_handle(Node::new_document_node(contents_data));
            Some(tc)
        } else {
            None
        };
        let ghost mid = self.dom;
        let r = self.dom.new_handle(Node::Element { data, name, attrs, template_contents: contents });
        proof {
            assert(r == mid.len());
        }
        r
    }

    pub fn create_comment(&mut self, text: String, data: ND) -> (r: Handle)
        requires
            old(self).wf(),
            old(self).dom.len() < usize::MAX,
        ensures
            final(self).wf(),
            final(self).document == old(self).document,
            final(self).errors == old(self).errors,
            r == old(self).dom.len(),
            final(self).dom.nodes_view() == old(self).dom.nodes_view().push(Node::Comment { data, text }),
            final(self).dom.kids_view() == old(self).dom.kids_view().push(Seq::empty()),
            final(self).dom.parent_of(r) is None,
    {
        self.dom.new_handle(Node::new_comment_node(text, data))
    }

    /// A processing instruction is kept as a comment reading `target data`.
    pub fn create_pi(&mut self, target: String, value: String, data: ND) -> (r: Handle)
        requires
            old(self).wf(),
            old(self).dom.len() < usize::MAX,
        ensures
            final(self).wf(),
            final(self).document == old(self).document,
            final(self).errors == old(self).errors,
            r == old(self).dom.len(),
            final(self).dom.len() == old(self).dom.len() + 1,
            final(self).dom.node(r) matches Node::Comment { data: d, text } && d == data
                && text@ == target@ + " "@ + value@,
            final(self).dom.kids_view() == old(self).dom.kids_view().push(Seq::empty()),
            final(self).dom.parent_of(r) is None,
    {
        let text = target.concat(" ").concat(value.as_str());
        self.dom.new_handle(Node::new_comment_node(text, data))
    }

    /// Appends text under `parent`: merged into the last child when that is
    /// a text node, else as a new text node carrying `data`.
    pub fn append_text(&mut self, parent: Handle, text: String, data: ND)
        requires
            old(self).wf(),
            old(self).dom.valid(parent),
            old(self).dom.node(parent).is_container(),
            old(self).dom.len() < usize::MAX,
        ensures
            final(self).wf(),
            final(self).document == old(self).document,
            final(self).errors == old(self).errors,
            text_appended(&old(self).dom, &final(self).dom, parent, text, data),
    {
        let last = self.dom.last_child(parent);
        if let Some(l) = last {
            proof {
                assert(self.dom.node_wf(parent));
                assert(self.dom.kid_wf(parent, self.dom.children_of(parent).len() - 1));
            }
            if self.dom.get(l).is_text_node() {
                self.dom.push_text(l, text.as_str());
                return;
            }
        }
        let ghost s = self.dom;
        let n = self.dom.new_handle(Node::new_text_node(text, data));
        proof {
            assert(self.dom.children_of(parent) == s.children_of(parent));
            self.dom.lemma_fresh_not_anc(n, parent);
        }
        self.dom.append_child(parent, n);
        self.dom.set_parent(n, parent);
    }

    /// Appends a node or text as the last child of `parent`.
    pub fn append(&mut self, parent: Handle, child: NodeOrText, data: ND)
        requires
            old(self).wf(),
            old(self).dom.valid(parent),
            old(self).dom.node(parent).is_container(),
            old(self).dom.len() < usize::MAX,
            child matches NodeOrText::AppendNode(c) ==> can_attach(&old(self).dom, c, parent)
                && old(self).dom.parent_of(c) is None,
        ensures
            final(self).wf(),
            final(self).document == old(self).document,
            final(self).errors == old(self).errors,
            match child {
                NodeOrText::AppendNode(c) => node_appended(&old(self).dom, &final(self).dom, parent, c),
                NodeOrText::AppendText(t) => text_appended(&old(self).dom, &final(self).dom, parent, t, data),
            },
    {
        match child {
            NodeOrText::AppendNode(c) => {
                self.dom.append_child(parent, c);
                self.dom.set_parent(c, parent);
            },
            NodeOrText::AppendText(t) => {
                self.append_text(parent, t, data);
            },
        }
    }

    /// Inserts text before `sib`: merged into `sib`'s previous sibling when
    /// that is a text node, else as a new text node carrying `data`.
    pub fn insert_text_before(&mut self, sib: Handle, text: String, data: ND)
        requires
            old(self).wf(),
            old(self).dom.valid(sib),
            old(self).dom.parent_of(sib) is Some,
            old(self).dom.len() < usize::MAX,
        ensures
            final(self).wf(),
            final(self).document == old(self).document,
            final(self).errors == old(self).errors,
            text_inserted(&old(self).dom, &final(self).dom, sib, text, data),
    {
        proof {
            self.dom.lemma_child_index(sib);
        }
        let prev = self.dom.prev_sibling(sib);
        if let Some(l) = prev {
            proof {
                let p = self.dom.parent_of(sib)->0;
                let i = self.dom.child_index(sib);
                assert(self.dom.kid_wf(p, i));
                assert(i > 0);
                assert(self.dom.node_wf(p));
                assert(self.dom.kid_wf(p, i - 1));
            }
            if self.dom.get(l).is_text_node() {
                self.dom.push_text(l, text.as_str());
                return;
            }
        }
        let ghost s = self.dom;
        let n = self.dom.new_handle(Node::new_text_node(text, data));
        proof {
            let p = s.parent_of(sib)->0;
            assert(self.dom.parent_of(sib) == Some(p));
            assert(self.dom.children_of(p) == s.children_of(p));
            assert(self.dom.child_index(sib) == s.child_index(sib));
            self.dom.lemma_fresh_not_anc(n, p);
        }
        self.dom.append_before_sibling(sib, n);
    }

    /// Inserts a node or text immediately before `sib`. A node that still
    /// has a parent is detached from it first.
    pub fn append_before_sibling(&mut self, sib: Handle, child: NodeOrText, data: ND)
        requires
            old(self).wf(),
            old(self).dom.valid(sib),
            old(self).dom.parent_of(sib) is Some,
            old(self).dom.len() < usize::MAX,
            child matches NodeOrText::AppendNode(c) ==> c != sib
                && can_attach(&old(self).dom, c, old(self).dom.parent_of(sib)->0),
        ensures
            final(self).wf(),
            final(self).document == old(self).document,
            final(self).errors == old(self).errors,
            match child {
                NodeOrText::AppendNode(c) => node_inserted(&old(self).dom, &final(self).dom, sib, c),
                NodeOrText::AppendText(t) => text_inserted(&old(self).dom, &final(self).dom, sib, t, data),
            },
    {
        match child {
            NodeOrText::AppendNode(c) => {
                let ghost s0 = self.dom;
                let ghost p = s0.parent_of(sib)->0;
                if self.dom.parent(c).is_some() {
                    self.dom.remove_from_parent(c);
                    proof {
                        assert forall|j: nat| #[trigger] self.dom.anc(p, j) != Some(c) by {
                            Dom::lemma_anc_frame(&s0, &self.dom, c, p, j);
                        }
                    }
                }
                let ghost s1 = self.dom;
                proof {
                    assert(s1.parent_of(sib) == Some(p));
                    s1.lemma_child_index(sib);
                    s0.lemma_child_index(sib);
                    let jj = index_without(&s0, sib, c);
                    assert(s1.kids_view() == kids_without(&s0, c));
                    if s0.parent_of(c) == Some(p) {
                        s0.lemma_child_index(c);
                        let ic = s0.child_index(c);
                        let is = s0.child_index(sib);
                        assert(ic != is);
                        assert(s1.children_of(p) == s0.children_of(p).remove(ic));
                        if ic < is {
                            assert(s1.children_of(p)[is - 1] == sib);
                        } else {
                            assert(s1.children_of(p)[is] == sib);
                        }
                    }
                    assert(s1.children_of(p)[jj] == sib);
                    assert(s1.node_wf(p));
                    assert(s1.children_of(p).no_duplicates());
                    assert(s1.child_index(sib) == jj);
                }
                self.dom.append_before_sibling(sib, c);
                proof {
                    let i = s1.child_index(sib);
                    let ks = self.dom.children_of(p);
                    assert(ks == s1.children_of(p).insert(i, c));
                    assert(ks[i] == c);
                    assert(ks[i + 1] == sib);
                    assert(self.dom.node_wf(p));
                    assert(ks.no_duplicates());
                    assert(self.dom.child_index(c) == i);
                    assert(self.dom.child_index(sib) == i + 1);
                }
            },
            NodeOrText::AppendText(t) => {
                self.insert_text_before(sib, t, data);
            },
        }
    }

    /// Inserts before `element` when it has a parent, else appends under
    /// `prev_element`.
    pub fn append_based_on_parent_node(&mut self, element: Handle, prev_element: Handle, child: NodeOrText, data: ND)
        requires
            old(self).wf(),
            old(self).dom.valid(element),
            old(self).dom.len() < usize::MAX,
            old(self).dom.parent_of(element) is Some ==> (child matches NodeOrText::AppendNode(c) ==> c != element
                && can_attach(&old(self).dom, c, old(self).dom.parent_of(element)->0)),
            old(self).dom.parent_of(element) is None ==> old(self).dom.valid(prev_element)
                && old(self).dom.node(prev_element).is_container()
                && (child matches NodeOrText::AppendNode(c) ==> can_attach(&old(self).dom, c, prev_element)
                && old(self).dom.parent_of(c) is None),
        ensures
            final(self).wf(),
            final(self).document == old(self).document,
            final(self).errors == old(self).errors,
            old(self).dom.parent_of(element) is Some ==> match child {
                NodeOrText::AppendNode(c) => node_inserted(&old(self).dom, &final(self).dom, element, c),
                NodeOrText::AppendText(t) => text_inserted(&old(self).dom, &final(self).dom, element, t, data),
            },
            old(self).dom.parent_of(element) is None ==> match child {
                NodeOrText::AppendNode(c) => node_appended(&old(self).dom, &final(self).dom, prev_element, c),
                NodeOrText::AppendText(t) => text_appended(&old(self).dom, &final(self).dom, prev_element, t, data),
            },
    {
        let has_parent = self.dom.parent(element).is_some();
        if has_parent {
            self.append_before_sibling(element, child, data);
        } else {
            self.append(prev_element, child, data);
        }
    }

    /// Appends a doctype node as the last child of the document node.
    pub fn append_doctype_to_document(&mut self, name: String, public_id: String, system_id: String, data: ND)
        requires
            old(self).wf(),
            old(self).dom.len() < usize::MAX,
        ensures
            final(self).wf(),
            final(self).document == old(self).document,
            final(self).errors == old(self).errors,
            final(self).dom.nodes_view() == old(self).dom.nodes_view().push(Node::DocType { data, name, public_id, system_id }),
            final(self).dom.kids_view() == old(self).dom.kids_view().push(Seq::empty()).update(
                old(self).document as int,
                old(self).dom.children_of(old(self).document).push(old(self).dom.len() as Handle),
            ),
    {
        let ghost s = self.dom;
        let n = self.dom.new_handle(Node::new_doctype_node(name, public_id, system_id, data));
        proof {
            assert(self.dom.children_of(self.document) == s.children_of(self.document));
            self.dom.lemma_fresh_not_anc(n, self.document);
        }
        let d = self.document;
        self.dom.append_child(d, n);
        self.dom.set_parent(n, d);
    }

    /// The template contents of a `template` element.
    pub fn get_template_contents(&self, target: Handle) -> (r: Handle)
        requires
            self.wf(),
            self.dom.valid(target),
            self.dom.node(target).spec_template() is Some,
        ensures
            Some(r) == self.dom.node(target).spec_template(),
            self.dom.valid(r),
    {
        proof {
            assert(self.dom.node_wf(target));
        }
        match self.dom.get(target) {
            Node::Element { template_contents: Some(t), .. } => *t,
            _ => unreached(),
        }
    }

    pub fn add_attrs_if_missing(&mut self, target: Handle, attrs: Vec<Attribute>)
        requires
            old(self).wf(),
            old(self).dom.valid(target),
            old(self).dom.node(target) is Element,
        ensures
            final(self).wf(),
            final(self).document == old(self).document,
            final(self).errors == old(self).errors,
            final(self).dom.kids_view() == old(self).dom.kids_view(),
            final(self).dom.nodes_view() == old(self).dom.nodes_view().update(target as int, final(self).dom.node(target)),
            final(self).dom.node(target).same_except_attrs(old(self).dom.node(target)),
            final(self).dom.node(target).spec_attrs() == crate::node::merge_attrs(old(self).dom.node(target).spec_attrs(), attrs@),
    {
        self.dom.add_attrs_if_missing(target, attrs);
    }

    pub fn remove_from_parent(&mut self, target: Handle)
        requires
            old(self).wf(),
            old(self).dom.valid(target),
            old(self).dom.parent_of(target) is Some,
        ensures
            final(self).wf(),
            final(self).document == old(self).document,
            final(self).errors == old(self).errors,
            final(self).dom.nodes_view() == old(self).dom.nodes_view(),
            final(self).dom.kids_view() == old(self).dom.kids_view().update(
                old(self).dom.parent_of(target)->0 as int,
                old(self).dom.children_of(old(self).dom.parent_of(target)->0).remove(old(self).dom.child_index(target)),
            ),
            final(self).dom.parent_of(target) is None,
    {
        self.dom.remove_from_parent(target);
    }

    pub fn reparent_children(&mut self, node: Handle, new_parent: Handle)
        requires
            old(self).wf(),
            old(self).dom.valid(node),
            old(self).dom.valid(new_parent),
            old(self).dom.node(new_parent).is_container(),
            !old(self).dom.is_anc(node, new_parent),
        ensures
            final(self).wf(),
            final(self).document == old(self).document,
            final(self).errors == old(self).errors,
            final(self).dom.nodes_view() == old(self).dom.nodes_view(),
            final(self).dom.kids_view() == old(self).dom.kids_view().update(
                new_parent as int,
                old(self).dom.children_of(new_parent) + old(self).dom.children_of(node),
            ).update(node as int, Seq::empty()),
    {
        self.dom.reparent_children(node, new_parent);
    }
}

} // verus!

use vstd::prelude::*;
use crate::node::{Handle, Node, attr_value, same_str};
use crate::dom::Dom;
use crate::traverse::children_text_spec;

verus! {

/// The first element among `cs`, restricted to tag name `name` when given.
pub open spec fn first_elem<ND>(dom: &Dom<ND>, cs: Seq<Handle>, name: Option<Seq<char>>) -> Option<Handle>
    decreases cs.len(),
{
    if cs.len() == 0 {
        None
    } else if dom.node(cs[0]) is Element && (name matches Some(t) ==> dom.node(cs[0]).spec_tag_name() == t) {
        Some(cs[0])
    } else {
        first_elem(dom, cs.drop_first(), name)
    }
}

/// The first `script` element among `cs` whose `type` is
/// `application/ld+json`.
pub open spec fn first_ld_json<ND>(dom: &Dom<ND>, cs: Seq<Handle>) -> Option<Handle>
    decreases cs.len(),
{
    if cs.len() == 0 {
        None
    } else if is_ld_json(dom.node(cs[0])) {
        Some(cs[0])
    } else {
        first_ld_json(dom, cs.drop_first())
    }
}

pub open spec fn is_ld_json<ND>(n: Node<ND>) -> bool {
    n is Element && n.spec_tag_name() == "script"@ && attr_value(n.spec_attrs(), "type"@) == Some("application/ld+json"@)
}

/// The topmost ancestor of `n` (`n` itself when it has no parent).
pub open spec fn top<ND>(dom: &Dom<ND>, n: Handle) -> Handle
    decreases dom.rank_bound() - dom.rank(n),
{
    match dom.parent_of(n) {
        Some(p) => if dom.rank(n) < dom.rank(p) < dom.rank_bound() {
            top(dom, p)
        } else {
            n
        },
        None => n,
    }
}

pub open spec fn opt_str_view(s: Option<&str>) -> Option<Seq<char>> {
    match s {
        Some(t) => Some(t@),
        None => None,
    }
}

pub open spec fn spec_root<ND>(dom: &Dom<ND>, n: Handle) -> Option<Handle> {
    first_elem(dom, dom.children_of(top(dom, n)), None)
}

pub open spec fn spec_head<ND>(dom: &Dom<ND>, n: Handle) -> Option<Handle> {
    match spec_root(dom, n) {
        Some(r) => first_elem(dom, dom.children_of(r), Some("head"@)),
        None => None,
    }
}

pub open spec fn spec_body<ND>(dom: &Dom<ND>, n: Handle) -> Option<Handle> {
    match spec_root(dom, n) {
        Some(r) => first_elem(dom, dom.children_of(r), Some("body"@)),
        None => None,
    }
}

impl<ND> Dom<ND> {
    /// The first element child of `p`, of tag name `name` when given.
    pub fn first_element_child(&self, p: Handle, name: Option<&str>) -> (r: Option<Handle>)
        requires
            self.wf(),
            self.valid(p),
        ensures
            r == first_elem(self, self.children_of(p), opt_str_view(name)),
            r matches Some(c) ==> self.valid(c) && self.node(c) is Element,
    {
        if !self.get(p).has_children() {
            proof {
                assert(self.node_wf(p));
            }
            return None;
        }
        let kids = self.children(p);
        let mut i: usize = 0;
        proof {
            assert(kids@.skip(0) == kids@);
            assert(self.node_wf(p));
        }
        while i < kids.len()
            invariant
                self.wf(),
                self.valid(p),
                self.node_wf(p),
                kids@ == self.children_of(p),
                0 <= i <= kids@.len(),
                first_elem(self, kids@.skip(i as int), opt_str_view(name)) == first_elem(self, kids@, opt_str_view(name)),
            decreases kids@.len() - i,
        {
            proof {
                assert(kids@.skip(i as int).drop_first() == kids@.skip(i + 1 as int));
                assert(self.kid_wf(p, i as int));
            }
            let c = kids[i];
            let node = self.get(c);
            if node.is_element_node() {
                let hit = match name {
                    None => true,
                    Some(t) => {
                        let tag = node.tag_name();
                        same_str(tag.as_str(), t)
                    },
                };
                if hit {
                    return Some(c);
                }
            }
            i += 1;
        }
        proof {
            assert(kids@.skip(kids@.len() as int) == Seq::<Handle>::empty());
        }
        None
    }

    /// The topmost ancestor of `n`.
    pub fn document_node(&self, n: Handle) -> (r: Handle)
        requires
            self.wf(),
            self.valid(n),
        ensures
            r == top(self, n),
            self.valid(r),
    {
        let mut cur = n;
        loop
            invariant
                self.wf(),
                self.valid(cur),
                top(self, cur) == top(self, n),
            decreases self.rank_bound() - self.rank(cur),
        {
            proof {
                assert(self.node_wf(cur));
            }
            match self.parent(cur) {
                None => {
                    return cur;
                },
                Some(q) => {
                    proof {
                        let cs = self.children_of(q);
                        let i = choose|i: int| 0 <= i < cs.len() && cs[i] == cur;
                        assert(self.node_wf(q));
                        assert(self.kid_wf(q, i));
                    }
                    cur = q;
                },
            }
        }
    }

    /// The first element child of the document that holds `n`.
    pub fn root(&self, n: Handle) -> (r: Handle)
        requires
            self.wf(),
            self.valid(n),
            spec_root(self, n) is Some,
        ensures
            Some(r) == spec_root(self, n),
            self.node(r) is Element,
            self.valid(r),
    {
        let d = self.document_node(n);
        match self.first_element_child(d, None) {
            Some(r) => r,
            None => unreached(),
        }
    }

    /// The `head` element under the root.
    pub fn head(&self, n: Handle) -> (r: Handle)
        requires
            self.wf(),
            self.valid(n),
            spec_head(self, n) is Some,
        ensures
            Some(r) == spec_head(self, n),
            self.node(r) is Element,
            self.valid(r),
    {
        let root = self.root(n);
        match self.first_element_child(root, Some("head")) {
            Some(r) => r,
            None => unreached(),
        }
    }

    /// The `body` element under the root.
    pub fn body(&self, n: Handle) -> (r: Handle)
        requires
            self.wf(),
            self.valid(n),
            spec_body(self, n) is Some,
        ensures
            Some(r) == spec_body(self, n),
            self.node(r) is Element,
            self.valid(r),
    {
        let root = self.root(n);
        match self.first_element_child(root, Some("body")) {
            Some(r) => r,
            None => unreached(),
        }
    }

    /// The text of the first `title` element in the head.
    pub fn title(&self, n: Handle) -> (r: Option<String>)
        requires
            self.wf(),
            self.valid(n),
            spec_head(self, n) is Some,
        ensures
            match first_elem(self, self.children_of(spec_head(self, n)->0), Some("title"@)) {
                Some(t) => r matches Some(s) && s@ == children_text_spec(self, t),
                None => r is None,
            },
    {
        let head = self.head(n);
        match self.first_element_child(head, Some("title")) {
            Some(t) => Some(self.children_text(t)),
            None => None,
        }
    }

    /// The text of the first JSON-LD `script` element in the head.
    pub fn ld_json(&self, n: Handle) -> (r: Option<String>)
        requires
            self.wf(),
            self.valid(n),
            spec_head(self, n) is Some,
        ensures
            match first_ld_json(self, self.children_of(spec_head(self, n)->0)) {
                Some(t) => r matches Some(s) && s@ == children_text_spec(self, t),
                None => r is None,
            },
    {
        let head = self.head(n);
        let kids = self.children(head);
        let mut i: usize = 0;
        proof {
            assert(kids@.skip(0) == kids@);
            assert(self.node_wf(head));
        }
        while i < kids.len()
            invariant
                self.wf(),
                self.valid(head),
                Some(head) == spec_head(self, n),
                self.node_wf(head),
                kids@ == self.children_of(head),
                0 <= i <= kids@.len(),
                first_ld_json(self, kids@.skip(i as int)) == first_ld_json(self, kids@),
            decreases kids@.len() - i,
        {
            proof {
                assert(kids@.skip(i as int).drop_first() == kids@.skip(i + 1 as int));
                assert(self.kid_wf(head, i as int));
                assert(kids@.skip(i as int)[0] == kids@[i as int]);
            }
            let c = kids[i];
            let node = self.get(c);
            if node.is_element_node() {
                let tag = node.tag_name();
                if same_str(tag.as_str(), "script") {
                    let ty = node.attr("type");
                    if let Some(v) = ty {
                        if same_str(v.as_str(), "application/ld+json") {
                            proof {
                                assert(is_ld_json(self.node(c)));
                                assert(first_ld_json(self, kids@.skip(i as int)) == Some(c));
                            }
                            return Some(self.children_text(c));
                        }
                    }
                }
            }
            proof {
                assert(!is_ld_json(self.node(c)));
            }
            i += 1;
        }
        proof {
            assert(kids@.skip(kids@.len() as int) == Seq::<Handle>::empty());
        }
        None
    }
}

} // verus!

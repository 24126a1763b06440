use vstd::prelude::*;
use crate::node::{Handle, Node};
use crate::dom::Dom;

verus! {

/// One step of HTML output for a subtree. Each names the node it comes from;
/// an HTML writer turns the steps into text (start tag with the element's
/// attributes in stored order, escaped text, comment, doctype by name, end
/// tag).
#[derive(Clone, Copy, PartialEq, Eq, Structural, Debug)]
pub enum SerEvent {
    StartElem(Handle),
    EndElem(Handle),
    Text(Handle),
    Comment(Handle),
    Doctype(Handle),
}

/// Output of node `n` with its whole subtree.
pub open spec fn ser_node<ND>(dom: &Dom<ND>, n: Handle) -> Seq<SerEvent>
    decreases dom.rank(n), 1nat, 0nat,
{
    match dom.node(n) {
        Node::Text { .. } => seq![SerEvent::Text(n)],
        Node::Comment { .. } => seq![SerEvent::Comment(n)],
        Node::DocType { .. } => seq![SerEvent::Doctype(n)],
        Node::Element { .. } => seq![SerEvent::StartElem(n)] + ser_kids(dom, n, 0) + seq![SerEvent::EndElem(n)],
        Node::Document { .. } => ser_kids(dom, n, 0),
    }
}

/// Output of the children of `p` from index `i` on.
pub open spec fn ser_kids<ND>(dom: &Dom<ND>, p: Handle, i: int) -> Seq<SerEvent>
    decreases dom.rank(p), 0nat, dom.children_of(p).len() - i,
{
    if i < 0 || i >= dom.children_of(p).len() {
        Seq::empty()
    } else {
        let c = dom.children_of(p)[i];
        (if dom.rank(c) < dom.rank(p) { ser_node(dom, c) } else { Seq::empty() }) + ser_kids(dom, p, i + 1)
    }
}

/// Output of the subtree under `n` without `n`'s own tags.
pub open spec fn ser_inner<ND>(dom: &Dom<ND>, n: Handle) -> Seq<SerEvent> {
    if dom.node(n).is_container() {
        ser_kids(dom, n, 0)
    } else {
        ser_node(dom, n)
    }
}

fn ser_collect<ND>(dom: &Dom<ND>, n: Handle, out: &mut Vec<SerEvent>)
    requires
        dom.wf(),
        dom.valid(n),
    ensures
        final(out)@ == old(out)@ + ser_node(dom, n),
    decreases dom.rank(n), 1nat,
{
    match dom.get(n) {
        Node::Text { .. } => out.push(SerEvent::Text(n)),
        Node::Comment { .. } => out.push(SerEvent::Comment(n)),
        Node::DocType { .. } => out.push(SerEvent::Doctype(n)),
        Node::Element { .. } => {
            let ghost start = out@;
            out.push(SerEvent::StartElem(n));
            ser_collect_kids(dom, n, out);
            out.push(SerEvent::EndElem(n));
            proof {
                assert(out@ == start + ser_node(dom, n));
            }
        },
        Node::Document { .. } => ser_collect_kids(dom, n, out),
    }
}

fn ser_collect_kids<ND>(dom: &Dom<ND>, p: Handle, out: &mut Vec<SerEvent>)
    requires
        dom.wf(),
        dom.valid(p),
    ensures
        final(out)@ == old(out)@ + ser_kids(dom, p, 0),
    decreases dom.rank(p), 0nat,
{
    let ghost cs = dom.children_of(p);
    let ghost start = out@;
    let mut cur = dom.first_child(p);
    let ghost mut i: int = 0;
    proof {
        assert(dom.node_wf(p));
    }
    loop
        invariant
            dom.wf(),
            dom.valid(p),
            dom.node_wf(p),
            cs == dom.children_of(p),
            start == old(out)@,
            0 <= i <= cs.len(),
            cur == (if i < cs.len() { Some(cs[i]) } else { None::<Handle> }),
            out@ + ser_kids(dom, p, i) == start + ser_kids(dom, p, 0),
        decreases cs.len() - i,
    {
        match cur {
            None => {
                proof {
                    assert(ser_kids(dom, p, i) == Seq::<SerEvent>::empty());
                    assert(out@ + Seq::<SerEvent>::empty() == out@);
                }
                return;
            },
            Some(c) => {
                proof {
                    assert(dom.kid_wf(p, i));
                }
                let ghost before = out@;
                ser_collect(dom, c, out);
                proof {
                    assert(ser_kids(dom, p, i) == ser_node(dom, c) + ser_kids(dom, p, i + 1));
                    assert(before + ser_kids(dom, p, i) == out@ + ser_kids(dom, p, i + 1));
                    i = i + 1;
                }
                cur = dom.next_sibling(c);
            },
        }
    }
}

impl<ND> Dom<ND> {
    /// Output steps for `n` and its subtree.
    pub fn outer_events(&self, n: Handle) -> (r: Vec<SerEvent>)
        requires
            self.wf(),
            self.valid(n),
        ensures
            r@ == ser_node(self, n),
    {
        let mut out: Vec<SerEvent> = Vec::new();
        ser_collect(self, n, &mut out);
        proof {
            assert(Seq::<SerEvent>::empty() + ser_node(self, n) == ser_node(self, n));
        }
        out
    }

    /// Output steps for the subtree under `n`, without `n`'s own tags.
    pub fn inner_events(&self, n: Handle) -> (r: Vec<SerEvent>)
        requires
            self.wf(),
            self.valid(n),
        ensures
            r@ == ser_inner(self, n),
    {
        let mut out: Vec<SerEvent> = Vec::new();
        if self.get(n).has_children() {
            ser_collect_kids(self, n, &mut out);
            proof {
                assert(Seq::<SerEvent>::empty() + ser_kids(self, n, 0) == ser_kids(self, n, 0));
            }
        } else {
            ser_collect(self, n, &mut out);
            proof {
                assert(Seq::<SerEvent>::empty() + ser_node(self, n) == ser_node(self, n));
            }
        }
        out
    }
}

} // verus!

use vstd::prelude::*;
use crate::text::{split, split_spec, parse_i32, parse_i32_spec};
use crate::style::{StyleInfo, style_from, parse_style_info};
use crate::node::{Handle, Node, Attribute, attr_value, attr_pos};
use crate::dom::Dom;
use crate::document::Document;
use crate::traverse::{trace_seq, lemma_trace_seq};

verus! {

/// Geometry and visibility of a rendered element; -1 where unknown.
#[derive(Clone, Copy, PartialEq, Eq, Structural, Debug)]
pub struct Vision {
    pub width: i32,
    pub height: i32,
    pub xpos: i32,
    pub ypos: i32,
    pub visible: i32,
}

impl Vision {
    pub open spec fn unknown() -> Vision {
        Vision { width: -1i32, height: -1i32, xpos: -1i32, ypos: -1i32, visible: -1i32 }
    }
}

impl Default for Vision {
    fn default() -> (r: Vision)
        ensures
            r == Vision::unknown(),
    {
        Vision { width: -1, height: -1, xpos: -1, ypos: -1, visible: -1 }
    }
}

/// Payload of a node of a rendered page.
#[derive(Clone, Copy, PartialEq, Eq, Structural, Debug)]
pub struct RenderNodeData {
    pub id: u32,
    pub vision: Vision,
    pub style: StyleInfo,
}

impl RenderNodeData {
    pub fn visible(&self) -> (r: bool)
        ensures
            r == (self.vision.visible > 0),
    {
        self.vision.visible > 0
    }
}

impl Default for RenderNodeData {
    fn default() -> (r: RenderNodeData)
        ensures
            r == (RenderNodeData {
                id: 0,
                vision: Vision::unknown(),
                style: StyleInfo::zero(),
            }),
    {
        RenderNodeData { id: 0, vision: Vision::default(), style: StyleInfo::default() }
    }
}

/// The numbers among `pieces`, in order; pieces that are not numbers are
/// dropped.
pub open spec fn ints_of(pieces: Seq<Seq<char>>) -> Seq<i32>
    decreases pieces.len(),
{
    if pieces.len() == 0 {
        Seq::empty()
    } else {
        let init = ints_of(pieces.drop_last());
        match parse_i32_spec(pieces.last()) {
            Some(v) => init.push(v),
            None => init,
        }
    }
}

/// A vision record: exactly five numbers among the `;`-separated pieces.
pub open spec fn parse_vision_spec(s: Seq<char>) -> Option<Vision> {
    let v = ints_of(split_spec(s, ';'));
    if v.len() == 5 {
        Some(Vision { width: v[0], height: v[1], xpos: v[2], ypos: v[3], visible: v[4] })
    } else {
        None
    }
}

pub fn parse_vision(s: &str) -> (r: Option<Vision>)
    ensures
        r == parse_vision_spec(s@),
{
    let items = split(s, ';');
    let ghost pv = items@.map_values(|p: String| p@);
    let mut v: Vec<i32> = Vec::new();
    let mut i: usize = 0;
    while i < items.len()
        invariant
            0 <= i <= items@.len(),
            pv == items@.map_values(|p: String| p@),
            v@ == ints_of(pv.take(i as int)),
        decreases items@.len() - i,
    {
        proof {
            assert(pv.take(i + 1 as int).drop_last() == pv.take(i as int));
            assert(pv.take(i + 1 as int).last() == items@[i as int]@);
        }
        if let Some(x) = parse_i32(items[i].as_str()) {
            v.push(x);
        }
        i += 1;
    }
    proof {
        assert(pv.take(items@.len() as int) == pv);
    }
    if v.len() == 5 {
        Some(Vision { width: v[0], height: v[1], xpos: v[2], ypos: v[3], visible: v[4] })
    } else {
        None
    }
}

/// `a` without its first attribute named `name`; the last attribute takes
/// its place.
pub open spec fn attrs_without(a: Seq<Attribute>, name: Seq<char>) -> Seq<Attribute> {
    let k = attr_pos(a, name, 0);
    if k < a.len() {
        a.update(k, a.last()).drop_last()
    } else {
        a
    }
}

/// `after` is `before` numbered `id`; an element also has its vision and
/// style records taken out of its attributes and read into its payload.
pub open spec fn annotated(before: Node<RenderNodeData>, after: Node<RenderNodeData>, id: u32) -> bool {
    let d = before.spec_data();
    if before is Element {
        let a0 = before.spec_attrs();
        let a1 = attrs_without(a0, "surface_vision_info"@);
        let vision = match attr_value(a0, "surface_vision_info"@) {
            Some(t) => match parse_vision_spec(t) {
                Some(v) => v,
                None => d.vision,
            },
            None => d.vision,
        };
        let style = match attr_value(a1, "dom_style_info"@) {
            Some(t) => style_from(split_spec(t, ';'), d.style),
            None => d.style,
        };
        &&& after.spec_attrs() == attrs_without(a1, "dom_style_info"@)
        &&& after.same_except_attrs(before.with_data(RenderNodeData { id, vision, style }))
    } else {
        after == before.with_data(RenderNodeData { id, vision: d.vision, style: d.style })
    }
}

fn annotate_node(dom: &mut Dom<RenderNodeData>, n: Handle, id: u32)
    requires
        old(dom).wf(),
        old(dom).valid(n),
    ensures
        final(dom).wf(),
        final(dom).kids_view() == old(dom).kids_view(),
        final(dom).nodes_view() == old(dom).nodes_view().update(n as int, final(dom).node(n)),
        annotated(old(dom).node(n), final(dom).node(n), id),
{
    let ghost before = dom.node(n);
    let mut d = *dom.get(n).custom_node_data();
    d.id = id;
    if dom.get(n).is_element_node() {
        if let Some(v) = dom.pop_attr(n, "surface_vision_info") {
            if let Some(vv) = parse_vision(v.as_str()) {
                d.vision = vv;
            }
        }
        if let Some(st) = dom.pop_attr(n, "dom_style_info") {
            parse_style_info(st.as_str(), &mut d.style);
        }
    }
    dom.set_custom_node_data(n, d);
}

/// Numbers the nodes of the tree 1, 2, ... in pre-order from the document
/// node, and moves each element's vision and style records from its
/// attributes into its payload.
pub fn annotate_document(doc: &mut Document<RenderNodeData>)
    requires
        old(doc).wf(),
        old(doc).dom.len() < u32::MAX,
    ensures
        final(doc).wf(),
        final(doc).document == old(doc).document,
        final(doc).errors == old(doc).errors,
        final(doc).dom.kids_view() == old(doc).dom.kids_view(),
        final(doc).dom.len() == old(doc).dom.len(),
        ({
            let order = trace_seq(&old(doc).dom, old(doc).document);
            &&& forall|k: int| 0 <= k < order.len() ==> annotated(
                old(doc).dom.node(#[trigger] order[k]),
                final(doc).dom.node(order[k]),
                (k + 1) as u32,
            )
            &&& forall|m: Handle| old(doc).dom.valid(m) && !order.contains(m) ==> #[trigger] final(doc).dom.node(m) == old(doc).dom.node(m)
        }),
{
    let ghost s = doc.dom;
    let d = doc.document;
    let order = doc.dom.trace_order(d);
    let len = doc.dom.len_exec();
    proof {
        lemma_trace_seq(&s, d);
    }
    let mut i: usize = 0;
    while i < order.len()
        invariant
            doc.wf(),
            doc.document == d,
            doc.errors == old(doc).errors,
            s == old(doc).dom,
            d == old(doc).document,
            doc.dom.kids_view() == s.kids_view(),
            doc.dom.len() == s.len(),
            s.len() < u32::MAX,
            order@ == trace_seq(&s, d),
            order@.no_duplicates(),
            forall|j: int| 0 <= j < order@.len() ==> s.valid(#[trigger] order@[j]),
            order@.len() <= s.len(),
            i <= order@.len(),
            forall|k: int| 0 <= k < i ==> annotated(s.node(#[trigger] order@[k]), doc.dom.node(order@[k]), (k + 1) as u32),
            forall|m: Handle| s.valid(m) && !order@.take(i as int).contains(m) ==> #[trigger] doc.dom.node(m) == s.node(m),
        decreases order@.len() - i,
    {
        let n = order[i];
        proof {
            assert(!order@.take(i as int).contains(n)) by {
                if order@.take(i as int).contains(n) {
                    let j = choose|j: int| 0 <= j < i && order@.take(i as int)[j] == n;
                    assert(order@[j] == order@[i as int]);
                }
            }
        }
        let ghost mid = doc.dom;
        annotate_node(&mut doc.dom, n, (i + 1) as u32);
        proof {
            assert forall|k: int| 0 <= k < i + 1 implies annotated(s.node(#[trigger] order@[k]), doc.dom.node(order@[k]), (k + 1) as u32) by {
                if k < i {
                    assert(order@[k] != n);
                    assert(doc.dom.node(order@[k]) == mid.node(order@[k]));
                }
            }
            assert forall|m: Handle| s.valid(m) && !order@.take(i + 1 as int).contains(m) implies #[trigger] doc.dom.node(m) == s.node(m) by {
                assert(order@.take(i + 1 as int)[i as int] == n);
                if order@.take(i as int).contains(m) {
                    let j = choose|j: int| 0 <= j < i && order@.take(i as int)[j] == m;
                    assert(order@.take(i + 1 as int)[j] == m);
                }
                assert(m != n);
                assert(doc.dom.node(m) == mid.node(m));
                assert(mid.node(m) == s.node(m));
            }
        }
        i += 1;
    }
    proof {
        assert(order@.take(order@.len() as int) == order@);
    }
}

} // verus!

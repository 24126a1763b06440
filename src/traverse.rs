use vstd::prelude::*;
use vstd::string::*;
use crate::node::{Handle, Node, is_inline_name, is_none_name};
use crate::dom::Dom;

verus! {

/// A predicate on nodes deciding which subtrees a traversal leaves out.
pub trait SkipRule<ND> {
    spec fn skips(&self, dom: &Dom<ND>, n: Handle) -> bool;

    fn skip(&self, dom: &Dom<ND>, n: Handle) -> (r: bool)
        requires
            dom.wf(),
            dom.valid(n),
        ensures
            r == self.skips(dom, n),
    ;
}

/// Skips nothing.
pub struct NoSkip;

impl<ND> SkipRule<ND> for NoSkip {
    open spec fn skips(&self, dom: &Dom<ND>, n: Handle) -> bool {
        false
    }

    fn skip(&self, dom: &Dom<ND>, n: Handle) -> (r: bool) {
        false
    }
}

/// Skips elements that render no text (`script`, `style`).
pub struct NoneTagSkip;

impl<ND> SkipRule<ND> for NoneTagSkip {
    open spec fn skips(&self, dom: &Dom<ND>, n: Handle) -> bool {
        dom.node(n) is Element && is_none_name(dom.node(n).spec_tag_name())
    }

    fn skip(&self, dom: &Dom<ND>, n: Handle) -> (r: bool) {
        let node = dom.get(n);
        node.is_element_node() && node.is_none_tag()
    }
}

#[derive(Clone, Copy, PartialEq, Eq, Structural, Debug)]
pub enum DescendantOrder {
    PreOrder,
    PostOrder,
}

pub open spec fn skip_fn<ND, R: SkipRule<ND>>(dom: &Dom<ND>, rule: &R) -> spec_fn(Handle) -> bool {
    |m: Handle| rule.skips(dom, m)
}

/// Pre-order walk of the subtree at `n`; a skipped node hides its subtree.
pub open spec fn pre_node<ND>(dom: &Dom<ND>, skip: spec_fn(Handle) -> bool, n: Handle) -> Seq<Handle>
    decreases dom.rank(n), 1nat, 0nat,
{
    if skip(n) {
        Seq::empty()
    } else {
        seq![n] + pre_kids(dom, skip, n, 0)
    }
}

/// Pre-order walk of the children of `p` from index `i` on.
pub open spec fn pre_kids<ND>(dom: &Dom<ND>, skip: spec_fn(Handle) -> bool, p: Handle, i: int) -> Seq<Handle>
    decreases dom.rank(p), 0nat, dom.children_of(p).len() - i,
{
    if i < 0 || i >= dom.children_of(p).len() {
        Seq::empty()
    } else {
        let c = dom.children_of(p)[i];
        (if dom.rank(c) < dom.rank(p) { pre_node(dom, skip, c) } else { Seq::empty() }) + pre_kids(dom, skip, p, i + 1)
    }
}

/// Post-order walk of the subtree at `n`; a skipped node is left out with
/// its subtree.
pub open spec fn post_node<ND>(dom: &Dom<ND>, skip: spec_fn(Handle) -> bool, n: Handle) -> Seq<Handle>
    decreases dom.rank(n), 1nat, 0nat,
{
    if skip(n) {
        Seq::empty()
    } else {
        post_kids(dom, skip, n, 0) + seq![n]
    }
}

pub open spec fn post_kids<ND>(dom: &Dom<ND>, skip: spec_fn(Handle) -> bool, p: Handle, i: int) -> Seq<Handle>
    decreases dom.rank(p), 0nat, dom.children_of(p).len() - i,
{
    if i < 0 || i >= dom.children_of(p).len() {
        Seq::empty()
    } else {
        let c = dom.children_of(p)[i];
        (if dom.rank(c) < dom.rank(p) { post_node(dom, skip, c) } else { Seq::empty() }) + post_kids(dom, skip, p, i + 1)
    }
}

/// Concatenated text of the text nodes among `ids`.
pub open spec fn texts_of<ND>(dom: &Dom<ND>, ids: Seq<Handle>) -> Seq<char>
    decreases ids.len(),
{
    if ids.len() == 0 {
        Seq::empty()
    } else {
        dom.node(ids[0]).spec_text() + texts_of(dom, ids.drop_first())
    }
}

/// Plain-text rendering of the nodes `ids` in order: text is copied, and the
/// first non-inline element after text starts a new line.
pub open spec fn extract<ND>(dom: &Dom<ND>, ids: Seq<Handle>, block: bool) -> Seq<char>
    decreases ids.len(),
{
    if ids.len() == 0 {
        Seq::empty()
    } else {
        let n = dom.node(ids[0]);
        if n is Text {
            n.spec_text() + extract(dom, ids.drop_first(), false)
        } else if n is Element && !is_inline_name(n.spec_tag_name()) && !block {
            seq!['\n'] + extract(dom, ids.drop_first(), true)
        } else {
            extract(dom, ids.drop_first(), block)
        }
    }
}

pub open spec fn children_text_spec<ND>(dom: &Dom<ND>, n: Handle) -> Seq<char> {
    match dom.node(n) {
        Node::Text { text, .. } => text@,
        Node::Element { .. } => texts_of(dom, dom.children_of(n)),
        _ => Seq::empty(),
    }
}

pub open spec fn descendants_text_spec<ND>(dom: &Dom<ND>, skip: spec_fn(Handle) -> bool, n: Handle) -> Seq<char> {
    match dom.node(n) {
        Node::Text { text, .. } => text@,
        Node::Element { .. } => if skip(n) {
            Seq::empty()
        } else {
            extract(dom, pre_kids(dom, skip, n, 0), true)
        },
        _ => Seq::empty(),
    }
}

/// Every node of a pre-order walk is a valid node.
pub proof fn lemma_pre_kids_valid<ND>(dom: &Dom<ND>, skip: spec_fn(Handle) -> bool, p: Handle, i: int)
    requires
        dom.wf(),
        dom.valid(p),
    ensures
        forall|j: int| 0 <= j < pre_kids(dom, skip, p, i).len() ==> dom.valid(#[trigger] pre_kids(dom, skip, p, i)[j]),
    decreases dom.rank(p), 0nat, dom.children_of(p).len() - i,
{
    if 0 <= i < dom.children_of(p).len() {
        assert(dom.node_wf(p));
        assert(dom.kid_wf(p, i));
        let c = dom.children_of(p)[i];
        lemma_pre_kids_valid(dom, skip, p, i + 1);
        lemma_pre_kids_valid(dom, skip, c, 0);
        let a = pre_node(dom, skip, c);
        let b = pre_kids(dom, skip, p, i + 1);
        assert(pre_kids(dom, skip, p, i) == a + b);
        assert forall|j: int| 0 <= j < (a + b).len() implies dom.valid(#[trigger] (a + b)[j]) by {
            if j < a.len() {
                if j > 0 {
                    assert(a[j] == pre_kids(dom, skip, c, 0)[j - 1]);
                }
            } else {
                assert((a + b)[j] == b[j - a.len()]);
            }
        }
    }
}

fn collect<ND, R: SkipRule<ND>>(dom: &Dom<ND>, rule: &R, p: Handle, order: &DescendantOrder, out: &mut Vec<Handle>)
    requires
        dom.wf(),
        dom.valid(p),
    ensures
        final(out)@ == old(out)@ + match order {
            DescendantOrder::PreOrder => pre_kids(dom, skip_fn(dom, rule), p, 0),
            DescendantOrder::PostOrder => post_kids(dom, skip_fn(dom, rule), p, 0),
        },
    decreases dom.rank(p),
{
    let ghost skip = skip_fn(dom, rule);
    let ghost cs = dom.children_of(p);
    let ghost start = out@;
    let mut cur = dom.first_child(p);
    let ghost mut i: int = 0;
    proof {
        assert(dom.node_wf(p));
    }
    loop
        invariant
            dom.wf(),
            dom.valid(p),
            dom.node_wf(p),
            cs == dom.children_of(p),
            skip == skip_fn(dom, rule),
            start == old(out)@,
            0 <= i <= cs.len(),
            cur == (if i < cs.len() { Some(cs[i]) } else { None::<Handle> }),
            *order is PreOrder ==> out@ + pre_kids(dom, skip, p, i) == start + pre_kids(dom, skip, p, 0),
            *order is PostOrder ==> out@ + post_kids(dom, skip, p, i) == start + post_kids(dom, skip, p, 0),
        decreases cs.len() - i,
    {
        match cur {
            None => {
                proof {
                    assert(i == cs.len());
                    assert(pre_kids(dom, skip, p, i) == Seq::<Handle>::empty());
                    assert(post_kids(dom, skip, p, i) == Seq::<Handle>::empty());
                    assert(out@ + Seq::<Handle>::empty() == out@);
                }
                return;
            },
            Some(c) => {
                proof {
                    assert(dom.kid_wf(p, i));
                }
                let ghost before = out@;
                if !rule.skip(dom, c) {
                    match order {
                        DescendantOrder::PreOrder => {
                            out.push(c);
                            collect(dom, rule, c, order, out);
                        },
                        DescendantOrder::PostOrder => {
                            collect(dom, rule, c, order, out);
                            out.push(c);
                        },
                    }
                }
                proof {
                    let pre = pre_kids(dom, skip, p, i);
                    let post = post_kids(dom, skip, p, i);
                    assert(pre == pre_node(dom, skip, c) + pre_kids(dom, skip, p, i + 1));
                    assert(post == post_node(dom, skip, c) + post_kids(dom, skip, p, i + 1));
                    if *order is PreOrder {
                        assert(out@ == before + pre_node(dom, skip, c));
                        assert(before + pre == out@ + pre_kids(dom, skip, p, i + 1));
                    } else {
                        assert(out@ == before + post_node(dom, skip, c));
                        assert(before + post == out@ + post_kids(dom, skip, p, i + 1));
                    }
                    i = i + 1;
                }
                cur = dom.next_sibling(c);
            },
        }
    }
}

/// A node yielded by a pre-order walk under `p` lies `m >= 1` levels below
/// `p`, and no node on its way up to `p` (itself included) is skipped.
proof fn lemma_pre_member<ND>(dom: &Dom<ND>, skip: spec_fn(Handle) -> bool, p: Handle, i: int, x: Handle) -> (m: nat)
    requires
        dom.wf(),
        dom.valid(p),
        pre_kids(dom, skip, p, i).contains(x),
    ensures
        m >= 1,
        dom.anc(x, m) == Some(p),
        forall|j: nat| j < m ==> ((#[trigger] dom.anc(x, j)) matches Some(y) && !skip(y)),
    decreases dom.rank(p), 0nat, dom.children_of(p).len() - i,
{
    let cs = dom.children_of(p);
    assert(0 <= i < cs.len());
    assert(dom.node_wf(p));
    assert(dom.kid_wf(p, i));
    let c = cs[i];
    let a = pre_node(dom, skip, c);
    let b = pre_kids(dom, skip, p, i + 1);
    assert(pre_kids(dom, skip, p, i) == a + b);
    let idx = choose|idx: int| 0 <= idx < (a + b).len() && (a + b)[idx] == x;
    if idx >= a.len() {
        assert(b[idx - a.len()] == x);
        lemma_pre_member(dom, skip, p, i + 1, x)
    } else {
        assert(!skip(c));
        if idx == 0 {
            assert(x == c);
            assert(dom.anc(x, 0) == Some(x));
            assert(dom.anc(x, 1) == Some(p));
            assert forall|j: nat| j < 1 implies ((#[trigger] dom.anc(x, j)) matches Some(y) && !skip(y)) by {}
            1
        } else {
            assert(pre_kids(dom, skip, c, 0)[idx - 1] == x);
            let m0 = lemma_pre_member(dom, skip, c, 0, x);
            assert(dom.anc(x, m0 + 1) == Some(p));
            assert forall|j: nat| j < m0 + 1 implies ((#[trigger] dom.anc(x, j)) matches Some(y) && !skip(y)) by {}
            m0 + 1
        }
    }
}

/// The same for a post-order walk.
proof fn lemma_post_member<ND>(dom: &Dom<ND>, skip: spec_fn(Handle) -> bool, p: Handle, i: int, x: Handle) -> (m: nat)
    requires
        dom.wf(),
        dom.valid(p),
        post_kids(dom, skip, p, i).contains(x),
    ensures
        m >= 1,
        dom.anc(x, m) == Some(p),
        forall|j: nat| j < m ==> ((#[trigger] dom.anc(x, j)) matches Some(y) && !skip(y)),
    decreases dom.rank(p), 0nat, dom.children_of(p).len() - i,
{
    let cs = dom.children_of(p);
    assert(0 <= i < cs.len());
    assert(dom.node_wf(p));
    assert(dom.kid_wf(p, i));
    let c = cs[i];
    let a = post_node(dom, skip, c);
    let b = post_kids(dom, skip, p, i + 1);
    assert(post_kids(dom, skip, p, i) == a + b);
    let idx = choose|idx: int| 0 <= idx < (a + b).len() && (a + b)[idx] == x;
    if idx >= a.len() {
        assert(b[idx - a.len()] == x);
        lemma_post_member(dom, skip, p, i + 1, x)
    } else {
        assert(!skip(c));
        let inner = post_kids(dom, skip, c, 0);
        if idx == inner.len() {
            assert(x == c);
            assert(dom.anc(x, 0) == Some(x));
            assert(dom.anc(x, 1) == Some(p));
            assert forall|j: nat| j < 1 implies ((#[trigger] dom.anc(x, j)) matches Some(y) && !skip(y)) by {}
            1
        } else {
            assert(inner[idx] == x);
            let m0 = lemma_post_member(dom, skip, c, 0, x);
            assert(dom.anc(x, m0 + 1) == Some(p));
            assert forall|j: nat| j < m0 + 1 implies ((#[trigger] dom.anc(x, j)) matches Some(y) && !skip(y)) by {}
            m0 + 1
        }
    }
}

/// A node yielded by the pre-order walk of the children of `p` from index `i`
/// on lies below child `j >= i` of `p`, `m - 1` levels under it.
proof fn lemma_pre_kid_member<ND>(dom: &Dom<ND>, skip: spec_fn(Handle) -> bool, p: Handle, i: int, x: Handle) -> (r: (nat, int))
    requires
        dom.wf(),
        dom.valid(p),
        pre_kids(dom, skip, p, i).contains(x),
    ensures
        r.0 >= 1,
        i <= r.1 < dom.children_of(p).len(),
        dom.anc(x, (r.0 - 1) as nat) == Some(dom.children_of(p)[r.1]),
        dom.anc(x, r.0) == Some(p),
    decreases dom.children_of(p).len() - i,
{
    let cs = dom.children_of(p);
    assert(0 <= i < cs.len());
    assert(dom.node_wf(p));
    assert(dom.kid_wf(p, i));
    let c = cs[i];
    let a = pre_node(dom, skip, c);
    let b = pre_kids(dom, skip, p, i + 1);
    assert(pre_kids(dom, skip, p, i) == a + b);
    let idx = choose|idx: int| 0 <= idx < (a + b).len() && (a + b)[idx] == x;
    if idx >= a.len() {
        assert(b[idx - a.len()] == x);
        lemma_pre_kid_member(dom, skip, p, i + 1, x)
    } else if idx == 0 {
        assert(dom.anc(x, 0) == Some(x));
        assert(dom.anc(x, 1) == Some(p));
        (1, i)
    } else {
        assert(pre_kids(dom, skip, c, 0)[idx - 1] == x);
        let m0 = lemma_pre_member(dom, skip, c, 0, x);
        assert(dom.anc(x, m0 + 1) == Some(p));
        ((m0 + 1) as nat, i)
    }
}

/// A pre-order walk yields no node twice.
pub proof fn lemma_pre_no_dup<ND>(dom: &Dom<ND>, skip: spec_fn(Handle) -> bool, p: Handle, i: int)
    requires
        dom.wf(),
        dom.valid(p),
    ensures
        pre_kids(dom, skip, p, i).no_duplicates(),
    decreases dom.rank(p), 0nat, dom.children_of(p).len() - i,
{
    let cs = dom.children_of(p);
    if 0 <= i < cs.len() {
        assert(dom.node_wf(p));
        assert(dom.kid_wf(p, i));
        let c = cs[i];
        lemma_pre_no_dup(dom, skip, p, i + 1);
        lemma_pre_no_dup(dom, skip, c, 0);
        lemma_pre_kids_valid(dom, skip, c, 0);
        lemma_pre_kids_valid(dom, skip, p, i + 1);
        let pk = pre_kids(dom, skip, c, 0);
        let a = pre_node(dom, skip, c);
        let b = pre_kids(dom, skip, p, i + 1);
        assert(pre_kids(dom, skip, p, i) == a + b);
        if !skip(c) {
            assert(!pk.contains(c)) by {
                if pk.contains(c) {
                    let m = lemma_pre_member(dom, skip, c, 0, c);
                    assert(dom.anc(c, 0) == Some(c));
                    dom.lemma_anc_rank(c, 0, m);
                }
            }
            assert forall|u: int, v: int| 0 <= u < a.len() && 0 <= v < a.len() && u != v implies a[u] != a[v] by {
                if u > 0 && v > 0 {
                    assert(a[u] == pk[u - 1]);
                    assert(a[v] == pk[v - 1]);
                } else if u == 0 {
                    assert(a[v] == pk[v - 1]);
                } else {
                    assert(a[u] == pk[u - 1]);
                }
            }
        }
        assert forall|u: int, v: int| 0 <= u < a.len() && 0 <= v < b.len() implies a[u] != b[v] by {
            let x = a[u];
            if x == b[v] {
                assert(b.contains(x));
                let (mb, j) = lemma_pre_kid_member(dom, skip, p, i + 1, x);
                let ma: nat = if u == 0 {
                    assert(dom.anc(x, 0) == Some(x));
                    0
                } else {
                    assert(a[u] == pk[u - 1]);
                    lemma_pre_member(dom, skip, c, 0, x)
                };
                assert(dom.anc(x, ma) == Some(c));
                assert(dom.anc(x, ma + 1) == Some(p));
                assert(dom.valid(x)) by {
                    assert(b[v] == x);
                }
                if ma + 1 < mb {
                    dom.lemma_anc_rank(x, ma + 1, mb);
                } else if ma + 1 > mb {
                    dom.lemma_anc_rank(x, mb, ma + 1);
                }
                assert(cs[j] == c);
                assert(cs.no_duplicates());
            }
        }
        vstd::seq_lib::lemma_no_dup_in_concat(a, b);
    }
}

/// The node `n` followed by its descendants in pre-order.
pub open spec fn trace_seq<ND>(dom: &Dom<ND>, n: Handle) -> Seq<Handle> {
    seq![n] + pre_kids(dom, |m: Handle| false, n, 0)
}

/// The descendants of `n` in post-order, followed by `n`.
pub open spec fn postorder_trace_seq<ND>(dom: &Dom<ND>, n: Handle) -> Seq<Handle> {
    post_kids(dom, |m: Handle| false, n, 0) + seq![n]
}

/// The walk from `n` visits valid nodes, each once, and so no more of them
/// than the arena holds.
pub proof fn lemma_trace_seq<ND>(dom: &Dom<ND>, n: Handle)
    requires
        dom.wf(),
        dom.valid(n),
        dom.len() <= usize::MAX,
    ensures
        trace_seq(dom, n).no_duplicates(),
        forall|j: int| 0 <= j < trace_seq(dom, n).len() ==> dom.valid(#[trigger] trace_seq(dom, n)[j]),
        trace_seq(dom, n).len() <= dom.len(),
{
    let skip = |m: Handle| false;
    let pk = pre_kids(dom, skip, n, 0);
    let t = trace_seq(dom, n);
    lemma_pre_no_dup(dom, skip, n, 0);
    lemma_pre_kids_valid(dom, skip, n, 0);
    assert(!pk.contains(n)) by {
        if pk.contains(n) {
            let m = lemma_pre_member(dom, skip, n, 0, n);
            assert(dom.anc(n, 0) == Some(n));
            dom.lemma_anc_rank(n, 0, m);
        }
    }
    assert forall|j: int| 0 <= j < t.len() implies dom.valid(#[trigger] t[j]) by {
        if j > 0 {
            assert(t[j] == pk[j - 1]);
        }
    }
    assert forall|u: int, v: int| 0 <= u < t.len() && 0 <= v < t.len() && u != v implies t[u] != t[v] by {
        if u > 0 {
            assert(t[u] == pk[u - 1]);
        }
        if v > 0 {
            assert(t[v] == pk[v - 1]);
        }
    }
    t.unique_seq_to_set();
    let r = Set::<usize>::range(0, dom.len() as usize);
    <usize as vstd::set_lib::FiniteRange>::range_properties(0, dom.len() as usize);
    assert forall|x: usize| t.to_set().contains(x) implies r.contains(x) by {
        assert(t.contains(x));
        let j = choose|j: int| 0 <= j < t.len() && t[j] == x;
        assert(dom.valid(t[j]));
    }
    assert(t.to_set().subset_of(r));
    vstd::set_lib::lemma_len_subset(t.to_set(), r);
}

/// Subtree pruning: when `e` lies strictly below `root` and `skip` holds of
/// `e`, neither the pre-order nor the post-order walk under `root` yields
/// `e` or any node below it.
pub proof fn lemma_pruning<ND>(dom: &Dom<ND>, skip: spec_fn(Handle) -> bool, root: Handle, e: Handle, x: Handle, j: nat, k: nat)
    requires
        dom.wf(),
        dom.valid(root),
        dom.valid(x),
        skip(e),
        dom.anc(x, j) == Some(e),
        dom.anc(e, k) == Some(root),
        k >= 1,
    ensures
        !pre_kids(dom, skip, root, 0).contains(x),
        !post_kids(dom, skip, root, 0).contains(x),
{
    dom.lemma_anc_add(x, j, k);
    if pre_kids(dom, skip, root, 0).contains(x) {
        let m = lemma_pre_member(dom, skip, root, 0, x);
        if m < j + k {
            dom.lemma_anc_rank(x, m, j + k);
        } else if m > j + k {
            dom.lemma_anc_rank(x, j + k, m);
        }
        assert(dom.anc(x, j) matches Some(y) && !skip(y));
    }
    if post_kids(dom, skip, root, 0).contains(x) {
        let m = lemma_post_member(dom, skip, root, 0, x);
        if m < j + k {
            dom.lemma_anc_rank(x, m, j + k);
        } else if m > j + k {
            dom.lemma_anc_rank(x, j + k, m);
        }
        assert(dom.anc(x, j) matches Some(y) && !skip(y));
    }
}

pub open spec fn is_block_element<ND>(n: Node<ND>) -> bool {
    n is Element && !is_inline_name(n.spec_tag_name())
}

proof fn lemma_blocks_then<ND>(dom: &Dom<ND>, blocks: Seq<Handle>, rest: Seq<Handle>)
    requires
        forall|i: int| 0 <= i < blocks.len() ==> is_block_element(dom.node(#[trigger] blocks[i])),
    ensures
        extract(dom, blocks + rest, true) == extract(dom, rest, true),
    decreases blocks.len(),
{
    if blocks.len() > 0 {
        assert((blocks + rest).drop_first() == blocks.drop_first() + rest);
        assert((blocks + rest)[0] == blocks[0]);
        lemma_blocks_then(dom, blocks.drop_first(), rest);
    } else {
        assert(blocks + rest == rest);
    }
}

/// Text, then any positive number of block elements, then text renders as
/// the first text, a single newline, and the second text.
pub proof fn lemma_block_boundary<ND>(dom: &Dom<ND>, t1: Handle, blocks: Seq<Handle>, t2: Handle)
    requires
        dom.node(t1) is Text,
        dom.node(t2) is Text,
        blocks.len() >= 1,
        forall|i: int| 0 <= i < blocks.len() ==> is_block_element(dom.node(#[trigger] blocks[i])),
    ensures
        extract(dom, seq![t1] + blocks + seq![t2], true) == dom.node(t1).spec_text() + seq!['\n'] + dom.node(t2).spec_text(),
{
    let all = seq![t1] + blocks + seq![t2];
    let tail = blocks + seq![t2];
    assert(all.drop_first() == tail);
    assert(all[0] == t1);
    assert(tail[0] == blocks[0]);
    assert(tail.drop_first() == blocks.drop_first() + seq![t2]);
    lemma_blocks_then(dom, blocks.drop_first(), seq![t2]);
    assert(is_block_element(dom.node(blocks[0])));
    assert(extract(dom, tail, false) == seq!['\n'] + extract(dom, blocks.drop_first() + seq![t2], true));
    assert(extract(dom, all, true) == dom.node(t1).spec_text() + extract(dom, tail, false));
    assert(seq![t2].drop_first() == Seq::<Handle>::empty());
    assert(extract(dom, seq![t2], true) == dom.node(t2).spec_text() + extract(dom, Seq::<Handle>::empty(), false));
    assert(dom.node(t2).spec_text() + Seq::<char>::empty() == dom.node(t2).spec_text());
    assert(dom.node(t1).spec_text() + (seq!['\n'] + dom.node(t2).spec_text()) == dom.node(t1).spec_text() + seq!['\n'] + dom.node(t2).spec_text());
}

/// The text of an element whose children are text, a block element, and
/// text is the first text, one newline, and the second text, however many
/// block elements the walk meets inside the middle child.
pub proof fn lemma_descendants_text_boundary<ND>(dom: &Dom<ND>, b: Handle, t1: Handle, blk: Handle, t2: Handle)
    requires
        dom.wf(),
        dom.valid(b),
        dom.node(b) is Element,
        !is_none_name(dom.node(b).spec_tag_name()),
        dom.children_of(b) == seq![t1, blk, t2],
        dom.node(t1) is Text,
        dom.node(t2) is Text,
        is_block_element(dom.node(blk)),
        !is_none_name(dom.node(blk).spec_tag_name()),
        forall|j: int| 0 <= j < pre_node(dom, skip_fn(dom, &NoneTagSkip), blk).len()
            ==> is_block_element(dom.node(#[trigger] pre_node(dom, skip_fn(dom, &NoneTagSkip), blk)[j])),
    ensures
        descendants_text_spec(dom, skip_fn(dom, &NoneTagSkip), b)
            == dom.node(t1).spec_text() + seq!['\n'] + dom.node(t2).spec_text(),
{
    let skip = skip_fn(dom, &NoneTagSkip);
    assert(dom.node_wf(b));
    assert(dom.kid_wf(b, 0));
    assert(dom.kid_wf(b, 1));
    assert(dom.kid_wf(b, 2));
    assert(dom.node_wf(t1));
    assert(dom.node_wf(t2));
    assert(dom.children_of(t1).len() == 0);
    assert(dom.children_of(t2).len() == 0);
    assert(pre_kids(dom, skip, t1, 0) == Seq::<Handle>::empty());
    assert(pre_kids(dom, skip, t2, 0) == Seq::<Handle>::empty());
    assert(pre_node(dom, skip, t1) == seq![t1]);
    assert(pre_node(dom, skip, t2) == seq![t2]);
    let w = pre_node(dom, skip, blk);
    assert(!skip(blk));
    assert(w.len() >= 1);
    assert(pre_kids(dom, skip, b, 3) == Seq::<Handle>::empty());
    assert(pre_kids(dom, skip, b, 2) == seq![t2]);
    assert(pre_kids(dom, skip, b, 1) == w + seq![t2]);
    assert(pre_kids(dom, skip, b, 0) == seq![t1] + (w + seq![t2]));
    assert(seq![t1] + (w + seq![t2]) == seq![t1] + w + seq![t2]);
    assert forall|j: int| 0 <= j < w.len() implies is_block_element(dom.node(#[trigger] w[j])) by {}
    lemma_block_boundary(dom, t1, w, t2);
    assert(!skip(b));
}

impl<ND> Dom<ND> {
    /// The children of `n`, in order. Only elements and documents hold
    /// children.
    pub fn children(&self, n: Handle) -> (r: Vec<Handle>)
        requires
            self.wf(),
            self.valid(n),
            self.node(n).is_container(),
        ensures
            r@ == self.children_of(n),
    {
        let mut out: Vec<Handle> = Vec::new();
        let mut cur = self.first_child(n);
        let ghost cs = self.children_of(n);
        proof {
            assert(self.node_wf(n));
        }
        while cur.is_some()
            invariant
                self.wf(),
                self.valid(n),
                self.node_wf(n),
                cs == self.children_of(n),
                out@.len() <= cs.len(),
                out@ == cs.take(out@.len() as int),
                cur == (if out@.len() < cs.len() { Some(cs[out@.len() as int]) } else { None::<Handle> }),
            decreases cs.len() - out@.len(),
        {
            let c = cur.unwrap();
            proof {
                assert(self.kid_wf(n, out@.len() as int));
                assert(cs.take(out@.len() as int).push(c) == cs.take(out@.len() + 1 as int));
            }
            out.push(c);
            cur = self.next_sibling(c);
        }
        proof {
            assert(cs.take(cs.len() as int) == cs);
        }
        out
    }

    /// Descendants of `n` (not `n` itself) in the given order, leaving out
    /// every subtree whose root `rule` skips.
    pub fn descendants_in<R: SkipRule<ND>>(&self, n: Handle, order: DescendantOrder, rule: &R) -> (r: Vec<Handle>)
        requires
            self.wf(),
            self.valid(n),
        ensures
            r@ == match order {
                DescendantOrder::PreOrder => pre_kids(self, skip_fn(self, rule), n, 0),
                DescendantOrder::PostOrder => post_kids(self, skip_fn(self, rule), n, 0),
            },
    {
        let mut out: Vec<Handle> = Vec::new();
        collect(self, rule, n, &order, &mut out);
        proof {
            assert(Seq::<Handle>::empty() + pre_kids(self, skip_fn(self, rule), n, 0) == pre_kids(self, skip_fn(self, rule), n, 0));
            assert(Seq::<Handle>::empty() + post_kids(self, skip_fn(self, rule), n, 0) == post_kids(self, skip_fn(self, rule), n, 0));
        }
        out
    }

    pub fn descendants_skip<R: SkipRule<ND>>(&self, n: Handle, rule: &R) -> (r: Vec<Handle>)
        requires
            self.wf(),
            self.valid(n),
        ensures
            r@ == pre_kids(self, skip_fn(self, rule), n, 0),
    {
        self.descendants_in(n, DescendantOrder::PreOrder, rule)
    }

    pub fn postorder_descendants_skip<R: SkipRule<ND>>(&self, n: Handle, rule: &R) -> (r: Vec<Handle>)
        requires
            self.wf(),
            self.valid(n),
        ensures
            r@ == post_kids(self, skip_fn(self, rule), n, 0),
    {
        self.descendants_in(n, DescendantOrder::PostOrder, rule)
    }

    pub fn descendants(&self, n: Handle) -> (r: Vec<Handle>)
        requires
            self.wf(),
            self.valid(n),
        ensures
            r@ == pre_kids(self, skip_fn(self, &NoSkip), n, 0),
    {
        self.descendants_in(n, DescendantOrder::PreOrder, &NoSkip)
    }

    pub fn postorder_descendants(&self, n: Handle) -> (r: Vec<Handle>)
        requires
            self.wf(),
            self.valid(n),
        ensures
            r@ == post_kids(self, skip_fn(self, &NoSkip), n, 0),
    {
        self.descendants_in(n, DescendantOrder::PostOrder, &NoSkip)
    }

    /// Concatenated text of the text children of an element; the text itself
    /// for a text node; empty otherwise.
    pub fn children_text(&self, n: Handle) -> (r: String)
        requires
            self.wf(),
            self.valid(n),
        ensures
            r@ == children_text_spec(self, n),
    {
        match self.get(n) {
            Node::Text { text, .. } => text.clone(),
            Node::Element { .. } => {
                let kids = self.children(n);
                let mut s = String::new();
                let mut i: usize = 0;
                proof {
                    assert(kids@.skip(0) == kids@);
                    assert(self.node_wf(n));
                    assert forall|j: int| 0 <= j < kids@.len() implies self.valid(#[trigger] kids@[j]) by {
                        assert(self.kid_wf(n, j));
                    }
                }
                while i < kids.len()
                    invariant
                        self.wf(),
                        0 <= i <= kids@.len(),
                        kids@ == self.children_of(n),
                        s@ + texts_of(self, kids@.skip(i as int)) == texts_of(self, kids@),
                        forall|j: int| 0 <= j < kids@.len() ==> self.valid(#[trigger] kids@[j]),
                    decreases kids@.len() - i,
                {
                    let ghost rest = kids@.skip(i as int);
                    proof {
                        assert(rest.drop_first() == kids@.skip(i + 1 as int));
                    }
                    let k = kids[i];
                    if let Node::Text { text, .. } = self.get(k) {
                        s = s.concat(text.as_str());
                    }
                    i += 1;
                }
                proof {
                    assert(kids@.skip(kids@.len() as int) == Seq::<Handle>::empty());
                }
                s
            },
            _ => String::new(),
        }
    }

    /// Plain text of the subtree at `n`, leaving out subtrees that `rule`
    /// skips and starting a new line where block content follows text.
    pub fn descendants_text_skip<R: SkipRule<ND>>(&self, n: Handle, rule: &R) -> (r: String)
        requires
            self.wf(),
            self.valid(n),
        ensures
            r@ == descendants_text_spec(self, skip_fn(self, rule), n),
    {
        match self.get(n) {
            Node::Text { text, .. } => text.clone(),
            Node::Element { .. } => {
                if rule.skip(self, n) {
                    return String::new();
                }
                let ids = self.descendants_skip(n, rule);
                let mut s = String::new();
                let mut block = true;
                let mut i: usize = 0;
                proof {
                    assert(ids@.skip(0) == ids@);
                    reveal_strlit("\n");
                    lemma_pre_kids_valid(self, skip_fn(self, rule), n, 0);
                }
                while i < ids.len()
                    invariant
                        self.wf(),
                        0 <= i <= ids@.len(),
                        s@ + extract(self, ids@.skip(i as int), block) == extract(self, ids@, true),
                        forall|j: int| 0 <= j < ids@.len() ==> self.valid(#[trigger] ids@[j]),
                        "\n"@ == seq!['\n'],
                    decreases ids@.len() - i,
                {
                    let ghost rest = ids@.skip(i as int);
                    proof {
                        assert(rest.drop_first() == ids@.skip(i + 1 as int));
                        assert(rest[0] == ids@[i as int]);
                    }
                    let k = ids[i];
                    let node = self.get(k);
                    match node {
                        Node::Text { text, .. } => {
                            s = s.concat(text.as_str());
                            block = false;
                        },
                        Node::Element { .. } => {
                            if !block && !node.is_inline_tag() {
                                s = s.concat("\n");
                                block = true;
                            }
                        },
                        _ => {},
                    }
                    i += 1;
                }
                proof {
                    assert(ids@.skip(ids@.len() as int) == Seq::<Handle>::empty());
                }
                s
            },
            _ => String::new(),
        }
    }

    /// Plain text of the subtree at `n`, without `script` and `style`.
    pub fn descendants_text(&self, n: Handle) -> (r: String)
        requires
            self.wf(),
            self.valid(n),
        ensures
            r@ == descendants_text_spec(self, skip_fn(self, &NoneTagSkip), n),
    {
        self.descendants_text_skip(n, &NoneTagSkip)
    }

    /// The visiting order of a pre-order trace from `n`: `n`, then its
    /// descendants.
    pub fn trace_order(&self, n: Handle) -> (r: Vec<Handle>)
        requires
            self.wf(),
            self.valid(n),
        ensures
            r@ == trace_seq(self, n),
    {
        let mut out: Vec<Handle> = Vec::new();
        out.push(n);
        collect(self, &NoSkip, n, &DescendantOrder::PreOrder, &mut out);
        proof {
            assert(skip_fn(self, &NoSkip) == |m: Handle| false);
        }
        out
    }

    /// The visiting order of a post-order trace from `n`: its descendants,
    /// then `n`.
    pub fn postorder_trace_order(&self, n: Handle) -> (r: Vec<Handle>)
        requires
            self.wf(),
            self.valid(n),
        ensures
            r@ == postorder_trace_seq(self, n),
    {
        let mut out: Vec<Handle> = Vec::new();
        collect(self, &NoSkip, n, &DescendantOrder::PostOrder, &mut out);
        out.push(n);
        proof {
            assert(skip_fn(self, &NoSkip) == |m: Handle| false);
            assert(Seq::<Handle>::empty() + post_kids(self, |m: Handle| false, n, 0) == post_kids(self, |m: Handle| false, n, 0));
        }
        out
    }
}

} // verus!

use vstd::prelude::*;
use crate::node::{Handle, Node, NodeData, Attribute, opt_view, attr_value, attr_pos, merge_attrs};

verus! {

/// An arena of nodes. A node is named by its index; the links of node `n`
/// are `links[n]`. Ghost state: `kids[n]` is the child list of `n`, and
/// `rank` is a measure that strictly decreases from a parent to its children,
/// so no chain of links can cycle.
pub struct Dom<ND> {
    nodes: Vec<Node<ND>>,
    links: Vec<NodeData>,
    kids: Ghost<Seq<Seq<Handle>>>,
    rank: Ghost<Seq<nat>>,
    bound: Ghost<nat>,
    pending: Ghost<Option<(Handle, Handle)>>,
}

impl<ND> Dom<ND> {
    pub closed spec fn nodes_view(&self) -> Seq<Node<ND>> {
        self.nodes@
    }

    pub closed spec fn links_view(&self) -> Seq<NodeData> {
        self.links@
    }

    /// The child list of every node, in order.
    pub closed spec fn kids_view(&self) -> Seq<Seq<Handle>> {
        self.kids@
    }

    pub closed spec fn rank(&self, n: Handle) -> nat {
        self.rank@[n as int]
    }

    pub closed spec fn rank_bound(&self) -> nat {
        self.bound@
    }

    /// A child `c` already in the child list of `p` whose parent link is not
    /// set yet: the state between `append_child` and `set_parent`.
    pub closed spec fn pending(&self) -> Option<(Handle, Handle)> {
        self.pending@
    }

    pub closed spec fn sizes_agree(&self) -> bool {
        &&& self.links@.len() == self.nodes@.len()
        &&& self.kids@.len() == self.nodes@.len()
        &&& self.rank@.len() == self.nodes@.len()
    }

    pub open spec fn len(&self) -> nat {
        self.nodes_view().len()
    }

    pub open spec fn valid(&self, n: Handle) -> bool {
        n < self.len()
    }

    pub open spec fn node(&self, n: Handle) -> Node<ND> {
        self.nodes_view()[n as int]
    }

    pub open spec fn link(&self, n: Handle) -> NodeData {
        self.links_view()[n as int]
    }

    pub open spec fn children_of(&self, n: Handle) -> Seq<Handle> {
        self.kids_view()[n as int]
    }

    pub open spec fn parent_of(&self, n: Handle) -> Option<Handle> {
        self.link(n).parent
    }

    /// The parent of `n` once a pending parent link is set.
    pub open spec fn eff_parent(&self, n: Handle) -> Option<Handle> {
        match self.pending() {
            Some((c, p)) => if c == n { Some(p) } else { self.link(n).parent },
            None => self.link(n).parent,
        }
    }

    /// Child `i` of `p` is linked back to `p` and to its neighbours.
    pub open spec fn kid_wf(&self, p: Handle, i: int) -> bool {
        let cs = self.children_of(p);
        let c = cs[i];
        &&& c < self.len()
        &&& self.eff_parent(c) == Some(p)
        &&& self.link(c).prev_sibling == (if i == 0 { None } else { Some(cs[i - 1]) })
        &&& self.link(c).next_sibling == (if i == cs.len() - 1 { None } else { Some(cs[i + 1]) })
        &&& self.rank(c) < self.rank(p)
    }

    pub open spec fn node_wf(&self, n: Handle) -> bool {
        let l = self.link(n);
        let cs = self.children_of(n);
        &&& l.first_child == (if cs.len() == 0 { None } else { Some(cs[0]) })
        &&& l.last_child == (if cs.len() == 0 { None } else { Some(cs.last()) })
        &&& (cs.len() > 0 ==> self.node(n).is_container())
        &&& cs.no_duplicates()
        &&& forall|i: int| 0 <= i < cs.len() ==> #[trigger] self.kid_wf(n, i)
        &&& match self.eff_parent(n) {
            Some(p) => p < self.len() && self.children_of(p).contains(n),
            None => l.prev_sibling is None && l.next_sibling is None,
        }
        &&& self.rank(n) < self.rank_bound()
        &&& (self.node(n).spec_template() matches Some(t) ==> t < self.len())
    }

    /// The arena's invariant: links and child lists agree everywhere.
    pub open spec fn wf(&self) -> bool {
        &&& self.pending() is None
        &&& self.links_wf()
    }

    /// The invariant, except that `c`, listed as the last child of `p`, has
    /// no parent link yet.
    pub open spec fn wf_pending(&self, c: Handle, p: Handle) -> bool {
        &&& self.pending() == Some((c, p))
        &&& self.link(c).parent is None
        &&& self.links_wf()
    }

    pub open spec fn links_wf(&self) -> bool {
        &&& (self.pending() matches Some((c, _)) ==> self.link(c).parent is None)
        &&& self.sizes_agree()
        &&& self.kids_view().len() == self.len()
        &&& self.links_view().len() == self.len()
        &&& forall|n: Handle| n < self.len() ==> #[trigger] self.node_wf(n)
    }

    /// The node reached from `n` by following `parent` links `k` times.
    pub open spec fn anc(&self, n: Handle, k: nat) -> Option<Handle>
        decreases k,
    {
        if k == 0 {
            Some(n)
        } else {
            match self.anc(n, (k - 1) as nat) {
                Some(m) => self.link(m).parent,
                None => None,
            }
        }
    }

    /// `a` is `n` itself or one of its ancestors.
    pub open spec fn is_anc(&self, a: Handle, n: Handle) -> bool {
        exists|k: nat| self.anc(n, k) == Some(a)
    }

    closed spec fn raised_rank(&self, p: Handle, c: Handle) -> Seq<nat> {
        if self.rank(c) < self.rank(p) {
            self.rank@
        } else {
            let k = self.rank(c) + 1 - self.rank(p);
            Seq::new(
                self.rank@.len(),
                |i: int| if self.is_anc(i as Handle, p) { (self.rank@[i] + k) as nat } else { self.rank@[i] },
            )
        }
    }

    closed spec fn raised_bound(&self, p: Handle, c: Handle) -> nat {
        if self.rank(c) < self.rank(p) {
            self.bound@
        } else {
            (self.bound@ + self.rank(c) + 1 - self.rank(p)) as nat
        }
    }

    /// Raising `p` and its ancestors keeps every existing edge ordered and
    /// makes room for `c` below `p`.
    proof fn lemma_raise(&self, p: Handle, c: Handle)
        requires
            self.wf(),
            self.valid(p),
            self.valid(c),
            !self.is_anc(c, p),
        ensures
            self.raised_rank(p, c).len() == self.len(),
            self.raised_rank(p, c)[c as int] < self.raised_rank(p, c)[p as int],
            forall|y: Handle, i: int|
                y < self.len() && 0 <= i < self.children_of(y).len() ==> self.raised_rank(p, c)[#[trigger] self.children_of(y)[i] as int]
                    < self.raised_rank(p, c)[y as int],
            forall|n: Handle| n < self.len() ==> #[trigger] self.raised_rank(p, c)[n as int] < self.raised_bound(p, c),
    {
        let r = self.raised_rank(p, c);
        if self.rank(c) >= self.rank(p) {
            assert(self.anc(p, 0) == Some(p));
            assert forall|y: Handle, i: int|
                y < self.len() && 0 <= i < self.children_of(y).len() implies r[#[trigger] self.children_of(y)[i] as int] < r[y as int] by {
                assert(self.node_wf(y));
                assert(self.kid_wf(y, i));
                let x = self.children_of(y)[i];
                if self.is_anc(x, p) {
                    let k = choose|k: nat| self.anc(p, k) == Some(x);
                    assert(self.anc(p, k + 1) == Some(y));
                }
            }
            assert forall|n: Handle| n < self.len() implies #[trigger] r[n as int] < self.raised_bound(p, c) by {
                assert(self.node_wf(n));
            }
        } else {
            assert forall|y: Handle, i: int|
                y < self.len() && 0 <= i < self.children_of(y).len() implies r[#[trigger] self.children_of(y)[i] as int] < r[y as int] by {
                assert(self.node_wf(y));
                assert(self.kid_wf(y, i));
            }
            assert forall|n: Handle| n < self.len() implies #[trigger] r[n as int] < self.raised_bound(p, c) by {
                assert(self.node_wf(n));
            }
        }
    }

    /// A node with no parent is in no child list.
    proof fn lemma_orphan_not_kid(&self, c: Handle, y: Handle)
        requires
            self.wf(),
            self.valid(c),
            self.valid(y),
            self.parent_of(c) is None,
        ensures
            !self.children_of(y).contains(c),
    {
        if self.children_of(y).contains(c) {
            let i = choose|i: int| 0 <= i < self.children_of(y).len() && self.children_of(y)[i] == c;
            assert(self.node_wf(y));
            assert(self.kid_wf(y, i));
        }
    }

    fn set_link(&mut self, n: Handle, l: NodeData)
        requires
            n < old(self).links@.len(),
        ensures
            final(self).links@ == old(self).links@.update(n as int, l),
            final(self).nodes@ == old(self).nodes@,
            final(self).kids@ == old(self).kids@,
            final(self).rank@ == old(self).rank@,
            final(self).bound@ == old(self).bound@,
            final(self).pending@ == old(self).pending@,
    {
        self.links.set(n, l);
    }

    /// Makes `c` the new last child of `p`. The parent link of `c` is left
    /// for `set_parent` to set.
    pub fn append_child(&mut self, p: Handle, c: Handle)
        requires
            old(self).wf(),
            old(self).valid(p),
            old(self).valid(c),
            old(self).node(p).is_container(),
            old(self).parent_of(c) is None,
            !old(self).is_anc(c, p),
        ensures
            final(self).wf_pending(c, p),
            final(self).nodes_view() == old(self).nodes_view(),
            final(self).kids_view() == old(self).kids_view().update(p as int, old(self).children_of(p).push(c)),
            final(self).link(p).first_child == Some(old(self).children_of(p).push(c)[0]),
            final(self).link(p).last_child == Some(c),
            final(self).link(c).prev_sibling == (if old(self).children_of(p).len() == 0 { None } else { Some(old(self).children_of(p).last()) }),
            forall|m: Handle| m < old(self).len() ==> final(self).parent_of(m) == old(self).parent_of(m),
    {
        let ghost s = *self;
        proof {
            s.lemma_raise(p, c);
            assert(s.anc(p, 0) == Some(p));
            assert(p != c);
            assert(s.node_wf(p));
            assert(s.node_wf(c));
            s.lemma_orphan_not_kid(c, p);
        }
        let last = self.links[p].last_child;
        match last {
            None => {
                let mut lp = self.links[p];
                lp.first_child = Some(c);
                self.set_link(p, lp);
            },
            Some(lc) => {
                proof {
                    assert(s.kid_wf(p, s.children_of(p).len() - 1));
                }
                let mut ll = self.links[lc];
                ll.next_sibling = Some(c);
                self.set_link(lc, ll);
                let mut lcc = self.links[c];
                lcc.prev_sibling = Some(lc);
                self.set_link(c, lcc);
            },
        }
        let mut lp = self.links[p];
        lp.last_child = Some(c);
        self.set_link(p, lp);
        proof {
            self.pending = Ghost(Some((c, p)));
            self.rank = Ghost(s.raised_rank(p, c));
            self.bound = Ghost(s.raised_bound(p, c));
            self.kids = Ghost(s.kids@.update(p as int, s.kids@[p as int].push(c)));
            let ks = s.children_of(p);
            assert(self.children_of(p) == ks.push(c));
            assert forall|n: Handle| n < self.len() implies #[trigger] self.node_wf(n) by {
                assert(s.node_wf(n));
                let cs = self.children_of(n);
                assert forall|i: int| 0 <= i < cs.len() implies #[trigger] self.kid_wf(n, i) by {
                    if n == p && i == ks.len() {
                    } else {
                        assert(s.kid_wf(n, i));
                        let x = cs[i];
                        assert(s.children_of(n)[i] == x);
                        if x == c {
                            s.lemma_orphan_not_kid(c, n);
                        }
                        if x == p {
                            assert(s.anc(p, 1) == Some(n));
                        }
                    }
                }
                match s.link(n).parent {
                    Some(q) => {
                        assert(s.children_of(q).contains(n));
                        if q == p {
                            let j = choose|j: int| 0 <= j < ks.len() && ks[j] == n;
                            assert(self.children_of(p)[j] == n);
                        }
                    },
                    None => {},
                }
                if n == c {
                    assert(self.children_of(p)[ks.len() as int] == c);
                }
                let l = self.link(n);
                assert(l.first_child == (if cs.len() == 0 { None } else { Some(cs[0]) }));
                assert(l.last_child == (if cs.len() == 0 { None } else { Some(cs.last()) }));
                assert(cs.len() > 0 ==> self.node(n).is_container());
                if n == p {
                    assert forall|i: int, j: int| 0 <= i < cs.len() && 0 <= j < cs.len() && i != j implies cs[i] != cs[j] by {
                        if i == ks.len() || j == ks.len() {
                            if ks.contains(c) {
                            }
                        }
                    }
                }
                assert(cs.no_duplicates());
                assert(self.rank(n) < self.rank_bound());
            }
        }
    }

    /// Sets the parent link of the child that `append_child` just listed.
    pub fn set_parent(&mut self, c: Handle, p: Handle)
        requires
            old(self).wf_pending(c, p),
            old(self).valid(c),
        ensures
            final(self).wf(),
            final(self).nodes_view() == old(self).nodes_view(),
            final(self).kids_view() == old(self).kids_view(),
            final(self).parent_of(c) == Some(p),
            forall|m: Handle| m < old(self).len() && m != c ==> final(self).parent_of(m) == old(self).parent_of(m),
    {
        let ghost s = *self;
        let mut l = self.links[c];
        l.parent = Some(p);
        self.set_link(c, l);
        proof {
            self.pending = Ghost(None);
            assert forall|n: Handle| n < self.len() implies #[trigger] self.node_wf(n) by {
                assert(s.node_wf(n));
                let cs = self.children_of(n);
                assert forall|i: int| 0 <= i < cs.len() implies #[trigger] self.kid_wf(n, i) by {
                    assert(s.kid_wf(n, i));
                }
            }
        }
    }

    /// `append_child` followed by `set_parent`.
    pub fn attach_child(&mut self, p: Handle, c: Handle)
        requires
            old(self).wf(),
            old(self).valid(p),
            old(self).valid(c),
            old(self).node(p).is_container(),
            old(self).parent_of(c) is None,
            !old(self).is_anc(c, p),
        ensures
            final(self).wf(),
            final(self).nodes_view() == old(self).nodes_view(),
            final(self).kids_view() == old(self).kids_view().update(p as int, old(self).children_of(p).push(c)),
            final(self).parent_of(c) == Some(p),
            forall|m: Handle| m < old(self).len() && m != c ==> final(self).parent_of(m) == old(self).parent_of(m),
    {
        self.append_child(p, c);
        self.set_parent(c, p);
    }

    /// Position of `n` in its parent's child list.
    pub open spec fn child_index(&self, n: Handle) -> int {
        let cs = self.children_of(self.parent_of(n)->0);
        choose|i: int| 0 <= i < cs.len() && cs[i] == n
    }

    /// A node with a parent sits at `child_index` in its parent's list.
    pub proof fn lemma_child_index(&self, n: Handle)
        requires
            self.wf(),
            self.valid(n),
            self.parent_of(n) is Some,
        ensures
            self.valid(self.parent_of(n)->0),
            0 <= self.child_index(n) < self.children_of(self.parent_of(n)->0).len(),
            self.children_of(self.parent_of(n)->0)[self.child_index(n)] == n,
            self.kid_wf(self.parent_of(n)->0, self.child_index(n)),
    {
        assert(self.node_wf(n));
        let p = self.parent_of(n)->0;
        assert(self.children_of(p).contains(n));
        let i = self.child_index(n);
        assert(self.node_wf(p));
    }

    /// Detaches `n` from its parent's child list. Its own children stay.
    #[verifier::rlimit(100)]
    #[verifier::spinoff_prover]
    pub fn remove_from_parent(&mut self, n: Handle)
        requires
            old(self).wf(),
            old(self).valid(n),
            old(self).parent_of(n) is Some,
        ensures
            final(self).wf(),
            final(self).nodes_view() == old(self).nodes_view(),
            final(self).kids_view() == old(self).kids_view().update(
                old(self).parent_of(n)->0 as int,
                old(self).children_of(old(self).parent_of(n)->0).remove(old(self).child_index(n)),
            ),
            final(self).parent_of(n) is None,
            !final(self).children_of(old(self).parent_of(n)->0).contains(n),
            final(self).children_of(n) == old(self).children_of(n),
            forall|m: Handle| m < old(self).len() && m != n ==> final(self).parent_of(m) == old(self).parent_of(m),
    {
        let ghost s = *self;
        proof {
            s.lemma_child_index(n);
        }
        let ln = self.links[n];
        let p = match ln.parent {
            Some(p) => p,
            None => { return; },
        };
        let ghost ks = s.children_of(p);
        let ghost i = s.child_index(n);
        proof {
            assert(s.node_wf(p));
            assert(s.kid_wf(p, i));
            assert(p != n);
            if i > 0 {
                assert(s.kid_wf(p, i - 1));
            }
            if i < ks.len() - 1 {
                assert(s.kid_wf(p, i + 1));
            }
        }
        match ln.prev_sibling {
            None => {
                let mut lp = self.links[p];
                lp.first_child = ln.next_sibling;
                self.set_link(p, lp);
            },
            Some(pv) => {
                let mut lv = self.links[pv];
                lv.next_sibling = ln.next_sibling;
                self.set_link(pv, lv);
            },
        }
        match ln.next_sibling {
            None => {
                let mut lp = self.links[p];
                lp.last_child = ln.prev_sibling;
                self.set_link(p, lp);
            },
            Some(nx) => {
                let mut lx = self.links[nx];
                lx.prev_sibling = ln.prev_sibling;
                self.set_link(nx, lx);
            },
        }
        let mut l2 = self.links[n];
        l2.parent = None;
        l2.prev_sibling = None;
        l2.next_sibling = None;
        self.set_link(n, l2);
        proof {
            self.kids = Ghost(s.kids@.update(p as int, ks.remove(i)));
            let ks2 = ks.remove(i);
            assert(self.children_of(p) == ks2);
            assert forall|m: Handle| m < self.len() implies #[trigger] self.node_wf(m) by {
                assert(s.node_wf(m));
                let cs = self.children_of(m);
                assert forall|j: int| 0 <= j < cs.len() implies #[trigger] self.kid_wf(m, j) by {
                    if m == p {
                        if j < i {
                            assert(s.kid_wf(p, j));
                        } else {
                            assert(s.kid_wf(p, j + 1));
                        }
                    } else {
                        assert(s.kid_wf(m, j));
                        let x = cs[j];
                        if x == n || x == p {
                            assert(s.node_wf(x));
                        }
                        if x != n && x != p && (i > 0 && x == ks[i - 1] || i < ks.len() - 1 && x == ks[i + 1]) {
                            assert(s.node_wf(x));
                        }
                    }
                }
                if m != n {
                    match s.link(m).parent {
                        Some(q) => {
                            if q == p {
                                let j = choose|j: int| 0 <= j < ks.len() && ks[j] == m;
                                assert(ks[i] == n);
                                if j < i {
                                    assert(ks2[j] == m);
                                } else {
                                    assert(ks2[j - 1] == m);
                                }
                            }
                        },
                        None => {},
                    }
                }
                if m == p {
                    assert forall|a: int, b: int| 0 <= a < ks2.len() && 0 <= b < ks2.len() && a != b implies ks2[a] != ks2[b] by {
                        let a2 = if a < i { a } else { a + 1 };
                        let b2 = if b < i { b } else { b + 1 };
                        assert(ks2[a] == ks[a2]);
                        assert(ks2[b] == ks[b2]);
                    }
                }
            }
            assert(!ks2.contains(n)) by {
                if ks2.contains(n) {
                    let j = choose|j: int| 0 <= j < ks2.len() && ks2[j] == n;
                    if j < i {
                        assert(ks[j] == n);
                    } else {
                        assert(ks[j + 1] == n);
                    }
                }
            }
        }
    }

    /// Inserts the parentless node `n` immediately before `sib` in the
    /// child list of `sib`'s parent.
    #[verifier::rlimit(100)]
    #[verifier::spinoff_prover]
    pub fn append_before_sibling(&mut self, sib: Handle, n: Handle)
        requires
            old(self).wf(),
            old(self).valid(sib),
            old(self).valid(n),
            old(self).parent_of(sib) is Some,
            old(self).parent_of(n) is None,
            !old(self).is_anc(n, old(self).parent_of(sib)->0),
        ensures
            final(self).wf(),
            final(self).nodes_view() == old(self).nodes_view(),
            final(self).kids_view() == old(self).kids_view().update(
                old(self).parent_of(sib)->0 as int,
                old(self).children_of(old(self).parent_of(sib)->0).insert(old(self).child_index(sib), n),
            ),
            final(self).parent_of(n) == old(self).parent_of(sib),
            forall|m: Handle| m < old(self).len() && m != n ==> final(self).parent_of(m) == old(self).parent_of(m),
    {
        let ghost s = *self;
        proof {
            s.lemma_child_index(sib);
        }
        let ls = self.links[sib];
        let p = match ls.parent {
            Some(p) => p,
            None => { return; },
        };
        let ghost ks = s.children_of(p);
        let ghost i = s.child_index(sib);
        proof {
            s.lemma_raise(p, n);
            assert(s.anc(p, 0) == Some(p));
            assert(s.node_wf(p));
            assert(s.node_wf(n));
            s.lemma_orphan_not_kid(n, p);
            if i > 0 {
                assert(s.kid_wf(p, i - 1));
            }
        }
        match ls.prev_sibling {
            None => {
                let mut lp = self.links[p];
                lp.first_child = Some(n);
                self.set_link(p, lp);
            },
            Some(pv) => {
                let mut lv = self.links[pv];
                lv.next_sibling = Some(n);
                self.set_link(pv, lv);
            },
        }
        let mut ln = self.links[n];
        ln.parent = Some(p);
        ln.prev_sibling = ls.prev_sibling;
        ln.next_sibling = Some(sib);
        self.set_link(n, ln);
        let mut ls2 = self.links[sib];
        ls2.prev_sibling = Some(n);
        self.set_link(sib, ls2);
        proof {
            self.rank = Ghost(s.raised_rank(p, n));
            self.bound = Ghost(s.raised_bound(p, n));
            let ks2 = ks.insert(i, n);
            self.kids = Ghost(s.kids@.update(p as int, ks2));
            assert(self.children_of(p) == ks2);
            assert(ks2[i] == n);
            assert forall|m: Handle| m < self.len() implies #[trigger] self.node_wf(m) by {
                assert(s.node_wf(m));
                let cs = self.children_of(m);
                assert forall|j: int| 0 <= j < cs.len() implies #[trigger] self.kid_wf(m, j) by {
                    if m == p {
                        if j < i {
                            assert(s.kid_wf(p, j));
                        } else if j > i {
                            assert(s.kid_wf(p, j - 1));
                        }
                    } else {
                        assert(s.kid_wf(m, j));
                        let x = cs[j];
                        assert(s.children_of(m)[j] == x);
                        if x == n {
                            s.lemma_orphan_not_kid(n, m);
                        }
                        if x == p {
                            assert(s.anc(p, 1) == Some(m));
                        }
                    }
                }
                match self.link(m).parent {
                    Some(q) => {
                        if q == p {
                            if m == n {
                            } else {
                                let j = choose|j: int| 0 <= j < ks.len() && ks[j] == m;
                                if j < i {
                                    assert(ks2[j] == m);
                                } else {
                                    assert(ks2[j + 1] == m);
                                }
                            }
                        }
                    },
                    None => {},
                }
                if m == p {
                    assert forall|a: int, b: int| 0 <= a < ks2.len() && 0 <= b < ks2.len() && a != b implies ks2[a] != ks2[b] by {
                        if a != i && b != i {
                            let a2 = if a < i { a } else { a - 1 };
                            let b2 = if b < i { b } else { b - 1 };
                            assert(ks2[a] == ks[a2]);
                            assert(ks2[b] == ks[b2]);
                        } else if a == i {
                            let b2 = if b < i { b } else { b - 1 };
                            assert(ks2[b] == ks[b2]);
                        } else {
                            let a2 = if a < i { a } else { a - 1 };
                            assert(ks2[a] == ks[a2]);
                        }
                    }
                }
            }
        }
    }

    pub fn len_exec(&self) -> (r: usize)
        ensures
            r == self.len(),
    {
        self.nodes.len()
    }

    pub fn get(&self, n: Handle) -> (r: &Node<ND>)
        requires
            self.valid(n),
        ensures
            *r == self.node(n),
    {
        &self.nodes[n]
    }

    pub fn parent(&self, n: Handle) -> (r: Option<Handle>)
        requires
            self.links_wf(),
            self.valid(n),
        ensures
            r == self.parent_of(n),
            r matches Some(p) ==> self.valid(p) && self.children_of(p).contains(n),
    {
        proof {
            assert(self.node_wf(n));
        }
        self.links[n].parent
    }

    pub fn prev_sibling(&self, n: Handle) -> (r: Option<Handle>)
        requires
            self.links_wf(),
            self.valid(n),
        ensures
            r == self.link(n).prev_sibling,
    {
        self.links[n].prev_sibling
    }

    pub fn next_sibling(&self, n: Handle) -> (r: Option<Handle>)
        requires
            self.links_wf(),
            self.valid(n),
        ensures
            r == self.link(n).next_sibling,
    {
        self.links[n].next_sibling
    }

    pub fn first_child(&self, n: Handle) -> (r: Option<Handle>)
        requires
            self.links_wf(),
            self.valid(n),
        ensures
            r == (if self.children_of(n).len() == 0 { None } else { Some(self.children_of(n)[0]) }),
    {
        proof {
            assert(self.node_wf(n));
        }
        self.links[n].first_child
    }

    pub fn last_child(&self, n: Handle) -> (r: Option<Handle>)
        requires
            self.links_wf(),
            self.valid(n),
        ensures
            r == (if self.children_of(n).len() == 0 { None } else { Some(self.children_of(n).last()) }),
    {
        proof {
            assert(self.node_wf(n));
        }
        self.links[n].last_child
    }

    pub fn new() -> (r: Self)
        ensures
            r.wf(),
            r.len() == 0,
    {
        Dom {
            nodes: Vec::new(),
            links: Vec::new(),
            kids: Ghost(Seq::empty()),
            rank: Ghost(Seq::empty()),
            bound: Ghost(1),
            pending: Ghost(None),
        }
    }

    /// Adds `node` to the arena as a detached node with no children.
    pub fn new_handle(&mut self, node: Node<ND>) -> (r: Handle)
        requires
            old(self).wf(),
            old(self).len() < usize::MAX,
            node matches Node::Element { template_contents: Some(t), .. } ==> t < old(self).len(),
        ensures
            final(self).wf(),
            r == old(self).len(),
            final(self).nodes_view() == old(self).nodes_view().push(node),
            final(self).kids_view() == old(self).kids_view().push(Seq::empty()),
            final(self).parent_of(r) is None,
            forall|m: Handle| m < old(self).len() ==> #[trigger] final(self).link(m) == old(self).link(m),
    {
        let ghost s = *self;
        let r = self.nodes.len();
        self.nodes.push(node);
        self.links.push(NodeData::new());
        proof {
            self.kids = Ghost(s.kids@.push(Seq::empty()));
            self.rank = Ghost(s.rank@.push(0));
            self.bound = Ghost(s.bound@ + 1);
            assert forall|m: Handle| m < self.len() implies #[trigger] self.node_wf(m) by {
                if m < r {
                    assert(s.node_wf(m));
                    let cs = self.children_of(m);
                    assert forall|j: int| 0 <= j < cs.len() implies #[trigger] self.kid_wf(m, j) by {
                        assert(s.kid_wf(m, j));
                    }
                }
            }
        }
        r
    }

    /// Every link reached upward from a valid node is valid.
    pub proof fn lemma_anc_valid(&self, n: Handle, k: nat)
        requires
            self.wf(),
            self.valid(n),
        ensures
            self.anc(n, k) matches Some(m) ==> self.valid(m),
        decreases k,
    {
        if k > 0 {
            self.lemma_anc_valid(n, (k - 1) as nat);
            if let Some(m) = self.anc(n, (k - 1) as nat) {
                assert(self.node_wf(m));
            }
        }
    }

    /// Once the upward walk stops, it stays stopped.
    proof fn lemma_anc_stops(&self, n: Handle, k: nat, j: nat)
        requires
            k <= j,
            self.anc(n, k) matches Some(m) && self.parent_of(m) is None,
        ensures
            j > k ==> self.anc(n, j) is None,
        decreases j - k,
    {
        if j > k + 1 {
            self.lemma_anc_stops(n, k, (j - 1) as nat);
        }
    }

    /// Upward walks agree between two arenas whose parent links differ only at
    /// `x`, where `x` is not on the walk.
    pub proof fn lemma_anc_frame(s: &Self, t: &Self, x: Handle, q: Handle, k: nat)
        requires
            s.wf(),
            s.valid(q),
            t.len() == s.len(),
            forall|m: Handle| m < s.len() && m != x ==> t.parent_of(m) == s.parent_of(m),
            !s.is_anc(x, q),
        ensures
            t.anc(q, k) == s.anc(q, k),
        decreases k,
    {
        if k > 0 {
            Self::lemma_anc_frame(s, t, x, q, (k - 1) as nat);
            s.lemma_anc_valid(q, (k - 1) as nat);
            assert(s.anc(q, (k - 1) as nat) != Some(x));
            if let Some(m) = s.anc(q, (k - 1) as nat) {
                assert(m < s.len());
                assert(t.parent_of(m) == s.parent_of(m));
            }
        }
    }

    /// Tells whether `a` is `n` or one of `n`'s ancestors.
    pub fn is_ancestor_or_self(&self, a: Handle, n: Handle) -> (r: bool)
        requires
            self.wf(),
            self.valid(a),
            self.valid(n),
        ensures
            r == self.is_anc(a, n),
    {
        let mut cur = n;
        let ghost mut k: nat = 0;
        loop
            invariant
                self.wf(),
                self.valid(cur),
                self.anc(n, k) == Some(cur),
                forall|j: nat| j < k ==> self.anc(n, j) != Some(a),
            decreases self.rank_bound() - self.rank(cur),
        {
            proof {
                assert(self.node_wf(cur));
            }
            if cur == a {
                return true;
            }
            match self.links[cur].parent {
                None => {
                    proof {
                        assert forall|j: nat| self.anc(n, j) != Some(a) by {
                            if j > k {
                                self.lemma_anc_stops(n, k, j);
                            }
                        }
                    }
                    return false;
                },
                Some(q) => {
                    proof {
                        let cs = self.children_of(q);
                        let i = choose|i: int| 0 <= i < cs.len() && cs[i] == cur;
                        assert(self.node_wf(q));
                        assert(self.kid_wf(q, i));
                        assert(self.anc(n, k + 1) == Some(q));
                        k = k + 1;
                    }
                    cur = q;
                },
            }
        }
    }

    /// Moves every child of `node` to the end of `new_parent`'s child list,
    /// keeping their order.
    pub fn reparent_children(&mut self, node: Handle, new_parent: Handle)
        requires
            old(self).wf(),
            old(self).valid(node),
            old(self).valid(new_parent),
            old(self).node(new_parent).is_container(),
            !old(self).is_anc(node, new_parent),
        ensures
            final(self).wf(),
            final(self).nodes_view() == old(self).nodes_view(),
            final(self).kids_view() == old(self).kids_view().update(
                new_parent as int,
                old(self).children_of(new_parent) + old(self).children_of(node),
            ).update(node as int, Seq::empty()),
    {
        let ghost s = *self;
        let ghost moved: nat = 0;
        proof {
            assert(s.anc(new_parent, 0) == Some(new_parent));
            assert(node != new_parent);
            assert(s.children_of(node).skip(0) == s.children_of(node));
            assert(s.children_of(new_parent) + s.children_of(node).take(0) == s.children_of(new_parent));
            assert(s.kids_view().update(new_parent as int, s.children_of(new_parent)).update(node as int, s.children_of(node)) == s.kids_view());
        }
        loop
            invariant
                s.wf(),
                s == *old(self),
                self.wf(),
                self.len() == s.len(),
                self.valid(node),
                self.valid(new_parent),
                node != new_parent,
                self.node(new_parent).is_container(),
                !self.is_anc(node, new_parent),
                self.nodes_view() == s.nodes_view(),
                moved <= s.children_of(node).len(),
                self.kids_view() == s.kids_view().update(
                    new_parent as int,
                    s.children_of(new_parent) + s.children_of(node).take(moved as int),
                ).update(node as int, s.children_of(node).skip(moved as int)),
            decreases s.children_of(node).len() - moved,
        {
            let first = self.first_child(node);
            match first {
                None => {
                    proof {
                        assert(self.children_of(node) == s.children_of(node).skip(moved as int));
                        assert(moved == s.children_of(node).len());
                        assert(s.children_of(node).take(moved as int) == s.children_of(node));
                        assert(s.children_of(node).skip(moved as int) == Seq::<Handle>::empty());
                    }
                    return;
                },
                Some(c) => {
                    let ghost t0 = *self;
                    proof {
                        assert(self.node_wf(node));
                        assert(self.kid_wf(node, 0));
                        if self.is_anc(c, new_parent) {
                            let k = choose|k: nat| self.anc(new_parent, k) == Some(c);
                            assert(self.anc(new_parent, k + 1) == Some(node));
                        }
                        self.lemma_child_index(c);
                        assert(self.children_of(node).skip(1) == self.children_of(node).remove(0));
                    }
                    self.remove_from_parent(c);
                    let ghost t1 = *self;
                    proof {
                        assert forall|j: nat| #[trigger] t1.anc(new_parent, j) != Some(c) by {
                            Self::lemma_anc_frame(&t0, &t1, c, new_parent, j);
                        }
                    }
                    self.attach_child(new_parent, c);
                    proof {
                        assert forall|j: nat| #[trigger] self.anc(new_parent, j) != Some(node) by {
                            Self::lemma_anc_frame(&t0, &t1, c, new_parent, j);
                            Self::lemma_anc_frame(&t1, self, c, new_parent, j);
                        }
                        let on = s.children_of(node);
                        assert(t0.children_of(node) == on.skip(moved as int));
                        assert(on[moved as int] == c);
                        assert(on.take(moved as int).push(c) == on.take(moved + 1 as int));
                        assert(on.skip(moved as int).skip(1) == on.skip(moved + 1 as int));
                        moved = moved + 1;
                    }
                },
            }
        }
    }

    /// Replacing the contents of one node by contents of the same shape
    /// keeps the invariant.
    proof fn lemma_same_shape(s: &Self, t: &Self, n: Handle)
        requires
            s.wf(),
            s.valid(n),
            t.sizes_agree(),
            t.links@ == s.links@,
            t.kids@ == s.kids@,
            t.rank@ == s.rank@,
            t.bound@ == s.bound@,
            t.pending@ == s.pending@,
            t.nodes@ == s.nodes@.update(n as int, t.nodes@[n as int]),
            t.node(n).is_container() == s.node(n).is_container(),
            t.node(n).spec_template() == s.node(n).spec_template(),
        ensures
            t.wf(),
    {
        assert forall|m: Handle| m < t.len() implies #[trigger] t.node_wf(m) by {
            assert(s.node_wf(m));
            let cs = t.children_of(m);
            assert forall|j: int| 0 <= j < cs.len() implies #[trigger] t.kid_wf(m, j) by {
                assert(s.kid_wf(m, j));
            }
        }
    }

    /// Removes the first attribute named `name` from element `n` and returns
    /// its value.
    pub fn pop_attr(&mut self, n: Handle, name: &str) -> (r: Option<String>)
        requires
            old(self).wf(),
            old(self).valid(n),
            old(self).node(n) is Element,
        ensures
            final(self).wf(),
            opt_view(r) == attr_value(old(self).node(n).spec_attrs(), name@),
            final(self).kids_view() == old(self).kids_view(),
            final(self).links_view() == old(self).links_view(),
            final(self).nodes_view() == old(self).nodes_view().update(n as int, final(self).node(n)),
            final(self).node(n).same_except_attrs(old(self).node(n)),
            ({
                let a = old(self).node(n).spec_attrs();
                let k = attr_pos(a, name@, 0);
                final(self).node(n).spec_attrs() == if k < a.len() { a.update(k, a.last()).drop_last() } else { a }
            }),
    {
        let ghost s = *self;
        let r = self.nodes[n].pop_attr(name);
        proof {
            Self::lemma_same_shape(&s, self, n);
        }
        r
    }

    /// Appends to element `n` each attribute of `add` whose name it lacks.
    pub fn add_attrs_if_missing(&mut self, n: Handle, add: Vec<Attribute>)
        requires
            old(self).wf(),
            old(self).valid(n),
            old(self).node(n) is Element,
        ensures
            final(self).wf(),
            final(self).kids_view() == old(self).kids_view(),
            final(self).links_view() == old(self).links_view(),
            final(self).nodes_view() == old(self).nodes_view().update(n as int, final(self).node(n)),
            final(self).node(n).same_except_attrs(old(self).node(n)),
            final(self).node(n).spec_attrs() == merge_attrs(old(self).node(n).spec_attrs(), add@),
    {
        let ghost s = *self;
        self.nodes[n].add_attrs_if_missing(add);
        proof {
            Self::lemma_same_shape(&s, self, n);
        }
    }

    /// Replaces the payload of node `n`.
    pub fn set_custom_node_data(&mut self, n: Handle, d: ND)
        requires
            old(self).wf(),
            old(self).valid(n),
        ensures
            final(self).wf(),
            final(self).kids_view() == old(self).kids_view(),
            final(self).links_view() == old(self).links_view(),
            final(self).nodes_view() == old(self).nodes_view().update(n as int, old(self).node(n).with_data(d)),
    {
        let ghost s = *self;
        self.nodes[n].set_custom_node_data(d);
        proof {
            Self::lemma_same_shape(&s, self, n);
        }
    }

    /// Appends `t` to the text of text node `n`.
    pub fn push_text(&mut self, n: Handle, t: &str)
        requires
            old(self).wf(),
            old(self).valid(n),
            old(self).node(n) is Text,
        ensures
            final(self).wf(),
            final(self).kids_view() == old(self).kids_view(),
            final(self).links_view() == old(self).links_view(),
            final(self).nodes_view() == old(self).nodes_view().update(n as int, final(self).node(n)),
            final(self).node(n) is Text,
            final(self).node(n).spec_data() == old(self).node(n).spec_data(),
            final(self).node(n).spec_text() == old(self).node(n).spec_text() + t@,
    {
        let ghost s = *self;
        self.nodes[n].push_text(t);
        proof {
            Self::lemma_same_shape(&s, self, n);
        }
    }

    /// A node with no parent and no children is no ancestor of another node.
    pub proof fn lemma_fresh_not_anc(&self, n: Handle, p: Handle)
        requires
            self.wf(),
            self.valid(n),
            self.valid(p),
            n != p,
            self.children_of(n) == Seq::<Handle>::empty(),
        ensures
            !self.is_anc(n, p),
    {
        if self.is_anc(n, p) {
            let k = choose|k: nat| self.anc(p, k) == Some(n);
            assert(k > 0);
            self.lemma_anc_valid(p, (k - 1) as nat);
            let m = self.anc(p, (k - 1) as nat)->0;
            assert(self.node_wf(m));
        }
    }

    /// The nodes met by following `next_sibling` links from `start`, for at
    /// most `fuel` steps.
    pub open spec fn follow_next(&self, start: Option<Handle>, fuel: nat) -> Seq<Handle>
        decreases fuel,
    {
        if fuel == 0 {
            Seq::empty()
        } else {
            match start {
                None => Seq::empty(),
                Some(c) => seq![c] + self.follow_next(self.link(c).next_sibling, (fuel - 1) as nat),
            }
        }
    }

    /// The nodes met by following `prev_sibling` links from `start`, for at
    /// most `fuel` steps.
    pub open spec fn follow_prev(&self, start: Option<Handle>, fuel: nat) -> Seq<Handle>
        decreases fuel,
    {
        if fuel == 0 {
            Seq::empty()
        } else {
            match start {
                None => Seq::empty(),
                Some(c) => seq![c] + self.follow_prev(self.link(c).prev_sibling, (fuel - 1) as nat),
            }
        }
    }

    proof fn lemma_follow_next_from(&self, p: Handle, i: int, fuel: nat)
        requires
            self.wf(),
            self.valid(p),
            0 <= i <= self.children_of(p).len(),
            fuel >= self.children_of(p).len() - i,
        ensures
            self.follow_next(
                if i < self.children_of(p).len() { Some(self.children_of(p)[i]) } else { None },
                fuel,
            ) == self.children_of(p).skip(i),
        decreases self.children_of(p).len() - i,
    {
        let cs = self.children_of(p);
        if i < cs.len() {
            assert(self.node_wf(p));
            assert(self.kid_wf(p, i));
            self.lemma_follow_next_from(p, i + 1, (fuel - 1) as nat);
            assert(cs.skip(i) == seq![cs[i]] + cs.skip(i + 1));
        } else {
            assert(cs.skip(i) == Seq::<Handle>::empty());
        }
    }

    proof fn lemma_follow_prev_from(&self, p: Handle, j: int, fuel: nat)
        requires
            self.wf(),
            self.valid(p),
            -1 <= j < self.children_of(p).len(),
            fuel >= j + 1,
        ensures
            self.follow_prev(if j >= 0 { Some(self.children_of(p)[j]) } else { None }, fuel)
                == self.children_of(p).take(j + 1).reverse(),
        decreases j + 1,
    {
        let cs = self.children_of(p);
        if j >= 0 {
            assert(self.node_wf(p));
            assert(self.kid_wf(p, j));
            self.lemma_follow_prev_from(p, j - 1, (fuel - 1) as nat);
            assert(cs.take(j + 1).reverse() == seq![cs[j]] + cs.take(j).reverse());
        } else {
            assert(cs.take(0).reverse() == Seq::<Handle>::empty());
        }
    }

    /// In a well-formed arena, walking a child list forward from
    /// `first_child` along `next_sibling` yields the children in order, and
    /// walking it backward from `last_child` along `prev_sibling` yields the
    /// same children reversed.
    pub proof fn lemma_sibling_walks(&self, p: Handle, fuel: nat)
        requires
            self.wf(),
            self.valid(p),
            fuel >= self.children_of(p).len(),
        ensures
            self.follow_next(self.link(p).first_child, fuel) == self.children_of(p),
            self.follow_prev(self.link(p).last_child, fuel) == self.children_of(p).reverse(),
            self.follow_next(self.link(p).first_child, fuel) == self.follow_prev(self.link(p).last_child, fuel).reverse(),
    {
        let cs = self.children_of(p);
        assert(self.node_wf(p));
        self.lemma_follow_next_from(p, 0, fuel);
        self.lemma_follow_prev_from(p, cs.len() - 1, fuel);
        assert(cs.skip(0) == cs);
        assert(cs.take(cs.len() as int) == cs);
        assert(cs.reverse().reverse() == cs);
    }

    /// Walking up `a` steps and then `b` more is walking up `a + b` steps.
    pub proof fn lemma_anc_add(&self, x: Handle, a: nat, b: nat)
        requires
            self.anc(x, a) is Some,
        ensures
            self.anc(self.anc(x, a)->0, b) == self.anc(x, a + b),
        decreases b,
    {
        if b > 0 {
            self.lemma_anc_add(x, a, (b - 1) as nat);
        }
    }

    /// Ranks strictly grow along an upward walk, so no node is met twice.
    pub proof fn lemma_anc_rank(&self, x: Handle, a: nat, b: nat)
        requires
            self.wf(),
            self.valid(x),
            a < b,
            self.anc(x, b) is Some,
        ensures
            self.anc(x, a) is Some,
            self.rank(self.anc(x, a)->0) < self.rank(self.anc(x, b)->0),
        decreases b,
    {
        let bm = (b - 1) as nat;
        if self.anc(x, bm) is None {
            assert(self.anc(x, b) is None);
        }
        let m = self.anc(x, bm)->0;
        self.lemma_anc_valid(x, bm);
        assert(self.node_wf(m));
        let q = self.link(m).parent->0;
        let cs = self.children_of(q);
        let i = choose|i: int| 0 <= i < cs.len() && cs[i] == m;
        assert(self.node_wf(q));
        assert(self.kid_wf(q, i));
        if a < bm {
            self.lemma_anc_rank(x, a, bm);
        }
    }

    /// Under the invariant, the nodes of a child list link back to its owner.
    pub proof fn lemma_parent_of_kid(&self, p: Handle, i: int)
        requires
            self.wf(),
            self.valid(p),
            0 <= i < self.children_of(p).len(),
        ensures
            self.parent_of(self.children_of(p)[i]) == Some(p),
            self.valid(self.children_of(p)[i]),
    {
        assert(self.node_wf(p));
        assert(self.kid_wf(p, i));
    }
}

} // verus!

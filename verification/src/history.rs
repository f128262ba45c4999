//! The call-stack-indexed tree of live bytes.
//!
//! Nodes live in an arena (`nodes`), the root at index 0. Each node
//! carries bytes directly attributed to its frame (`own`) and the
//! running totals for its whole subtree (`totals`), split by resource
//! category. The central invariant `wf` says, per node and category:
//! `totals == own + sum of the children's totals`, which makes the
//! tree additive bottom-up, and bounds every node's summed total so
//! the counters never overflow.

use vstd::prelude::*;
use crate::event::Category;

verus! {

/// Live-byte counters split by resource category.
#[derive(Clone, Copy, PartialEq, Eq, Structural, Debug)]
pub struct CatTotals {
    pub page: u64,
    pub slab: u64,
    pub rss: u64,
    pub percpu: u64,
    pub page_cache: u64,
}

pub open spec fn ct_get(t: CatTotals, c: Category) -> u64 {
    match c {
        Category::Page => t.page,
        Category::Slab => t.slab,
        Category::Rss => t.rss,
        Category::Percpu => t.percpu,
        Category::PageCache => t.page_cache,
    }
}

pub open spec fn ct_set(t: CatTotals, c: Category, v: u64) -> CatTotals {
    match c {
        Category::Page => CatTotals { page: v, ..t },
        Category::Slab => CatTotals { slab: v, ..t },
        Category::Rss => CatTotals { rss: v, ..t },
        Category::Percpu => CatTotals { percpu: v, ..t },
        Category::PageCache => CatTotals { page_cache: v, ..t },
    }
}

/// Total live bytes over all categories: the node's `value`.
pub open spec fn ct_value(t: CatTotals) -> int {
    t.page + t.slab + t.rss + t.percpu + t.page_cache
}

impl CatTotals {
    pub fn zero() -> (r: CatTotals)
        ensures
            r == (CatTotals { page: 0, slab: 0, rss: 0, percpu: 0, page_cache: 0 }),
    {
        CatTotals { page: 0, slab: 0, rss: 0, percpu: 0, page_cache: 0 }
    }

    pub fn get(&self, c: Category) -> (r: u64)
        ensures
            r == ct_get(*self, c),
    {
        match c {
            Category::Page => self.page,
            Category::Slab => self.slab,
            Category::Rss => self.rss,
            Category::Percpu => self.percpu,
            Category::PageCache => self.page_cache,
        }
    }

    pub fn incr(&mut self, c: Category, s: u64)
        requires
            ct_get(*old(self), c) + s <= u64::MAX,
        ensures
            *final(self) == ct_set(*old(self), c, (ct_get(*old(self), c) + s) as u64),
    {
        match c {
            Category::Page => self.page = self.page + s,
            Category::Slab => self.slab = self.slab + s,
            Category::Rss => self.rss = self.rss + s,
            Category::Percpu => self.percpu = self.percpu + s,
            Category::PageCache => self.page_cache = self.page_cache + s,
        }
    }

    pub fn decr(&mut self, c: Category, s: u64)
        requires
            s <= ct_get(*old(self), c),
        ensures
            *final(self) == ct_set(*old(self), c, (ct_get(*old(self), c) - s) as u64),
    {
        match c {
            Category::Page => self.page = self.page - s,
            Category::Slab => self.slab = self.slab - s,
            Category::Rss => self.rss = self.rss - s,
            Category::Percpu => self.percpu = self.percpu - s,
            Category::PageCache => self.page_cache = self.page_cache - s,
        }
    }

    /// Overwrite one category's counter (absolute-value semantics).
    pub fn put(&mut self, c: Category, v: u64)
        ensures
            *final(self) == ct_set(*old(self), c, v),
    {
        match c {
            Category::Page => self.page = v,
            Category::Slab => self.slab = v,
            Category::Rss => self.rss = v,
            Category::Percpu => self.percpu = v,
            Category::PageCache => self.page_cache = v,
        }
    }

    /// The summed value, executable; the invariant keeps it in range.
    pub fn value(&self) -> (r: u64)
        requires
            ct_value(*self) <= u64::MAX,
        ensures
            r == ct_value(*self),
    {
        self.page + self.slab + self.rss + self.percpu + self.page_cache
    }
}

proof fn lemma_ct_get_le_value(t: CatTotals, c: Category)
    ensures
        ct_get(t, c) <= ct_value(t),
{
}

/// One edge of the tree: the child frame's raw address and the
/// child node's arena index.
#[derive(Clone, Copy, PartialEq, Eq, Structural, Debug)]
pub struct ChildRef {
    pub addr: u64,
    pub idx: usize,
}

/// One frame of the call tree.
pub struct Node {
    /// Raw return address that reached this frame from its parent.
    pub frame: u64,
    /// Bytes attributed directly to this frame.
    pub own: CatTotals,
    /// Bytes attributed to this frame and all descendants.
    pub totals: CatTotals,
    pub children: Vec<ChildRef>,
}

/// Sum of the children's per-category totals.
pub open spec fn cs_sum(ns: Seq<Node>, ch: Seq<ChildRef>, c: Category) -> int
    decreases ch.len(),
{
    if ch.len() == 0 {
        0
    } else {
        cs_sum(ns, ch.drop_last(), c) + ct_get(ns[ch.last().idx as int].totals, c)
    }
}

/// How many child entries point at arena index `j`.
pub open spec fn cnt_idx(ch: Seq<ChildRef>, j: int) -> int
    decreases ch.len(),
{
    if ch.len() == 0 {
        0
    } else {
        cnt_idx(ch.drop_last(), j) + if ch.last().idx as int == j {
            1int
        } else {
            0int
        }
    }
}

pub open spec fn wf_links(ns: Seq<Node>) -> bool {
    forall|i: int, k: int|
        0 <= i < ns.len() && 0 <= k < ns[i].children@.len() ==> i < (
        #[trigger] ns[i].children@[k]).idx < ns.len()
}

pub open spec fn wf_addrs(ns: Seq<Node>) -> bool {
    forall|i: int, k1: int, k2: int|
        0 <= i < ns.len() && 0 <= k1 < ns[i].children@.len() && 0 <= k2 < ns[i].children@.len() && k1
            != k2 ==> (#[trigger] ns[i].children@[k1]).addr != (#[trigger] ns[i].children@[k2]).addr
}

/// Every arena index is the child of at most one parent entry, and
/// the root of none.
pub open spec fn wf_parents(ns: Seq<Node>) -> bool {
    &&& forall|i1: int, k1: int, i2: int, k2: int|
        0 <= i1 < ns.len() && 0 <= k1 < ns[i1].children@.len() && 0 <= i2 < ns.len() && 0 <= k2
            < ns[i2].children@.len() && (i1 != i2 || k1 != k2) ==> (
        #[trigger] ns[i1].children@[k1]).idx != (#[trigger] ns[i2].children@[k2]).idx
    &&& forall|i: int, k: int|
        0 <= i < ns.len() && 0 <= k < ns[i].children@.len() ==> (
        #[trigger] ns[i].children@[k]).idx != 0
}

pub open spec fn wf_sums(ns: Seq<Node>) -> bool {
    forall|i: int, c: Category|
        0 <= i < ns.len() ==> #[trigger] ct_get(ns[i].totals, c) == ct_get(ns[i].own, c) + cs_sum(
            ns,
            ns[i].children@,
            c,
        )
}

pub open spec fn wf_bounded(ns: Seq<Node>) -> bool {
    forall|i: int| 0 <= i < ns.len() ==> ct_value(#[trigger] ns[i].totals) <= u64::MAX
}

/// The tree invariant: holds at construction and across every
/// applied event.
pub open spec fn wf(ns: Seq<Node>) -> bool {
    &&& ns.len() >= 1
    &&& wf_links(ns)
    &&& wf_addrs(ns)
    &&& wf_parents(ns)
    &&& wf_sums(ns)
    &&& wf_bounded(ns)
}

pub open spec fn has_child(ch: Seq<ChildRef>, a: u64) -> bool {
    exists|k: int| 0 <= k < ch.len() && ch[k].addr == a
}

/// A root-to-leaf walk: arena indices that start at the root, rise
/// strictly, and follow child edges.
pub open spec fn path_ok(ns: Seq<Node>, idxs: Seq<usize>) -> bool {
    &&& idxs.len() >= 1
    &&& idxs[0] == 0
    &&& forall|m: int| 0 <= m < idxs.len() ==> (#[trigger] idxs[m]) < ns.len()
    &&& forall|m1: int, m2: int|
        0 <= m1 < m2 < idxs.len() ==> (#[trigger] idxs[m1]) < (#[trigger] idxs[m2])
    &&& forall|m: int|
        0 <= m < idxs.len() - 1 ==> is_child(ns, (#[trigger] idxs[m]) as int, idxs[m + 1] as int)
}

pub open spec fn is_child(ns: Seq<Node>, p: int, j: int) -> bool {
    exists|k: int| 0 <= k < ns[p].children@.len() && ns[p].children@[k].idx as int == j
}

pub open spec fn on_path(idxs: Seq<usize>, j: int) -> bool {
    exists|m: int| 0 <= m < idxs.len() && idxs[m] as int == j
}

pub proof fn lemma_cs_sum_nonneg(ns: Seq<Node>, ch: Seq<ChildRef>, c: Category)
    ensures
        cs_sum(ns, ch, c) >= 0,
    decreases ch.len(),
{
    if ch.len() > 0 {
        lemma_cs_sum_nonneg(ns, ch.drop_last(), c);
    }
}

proof fn lemma_cs_sum_member(ns: Seq<Node>, ch: Seq<ChildRef>, c: Category, k: int)
    requires
        0 <= k < ch.len(),
    ensures
        cs_sum(ns, ch, c) >= ct_get(ns[ch[k].idx as int].totals, c),
    decreases ch.len(),
{
    if k == ch.len() - 1 {
        lemma_cs_sum_nonneg(ns, ch.drop_last(), c);
    } else {
        lemma_cs_sum_member(ns, ch.drop_last(), c, k);
    }
}

/// If at most the node at index `j` changed its total at `c`, and by
/// `d`, the children sum moves by `d` for each edge into `j`.
proof fn lemma_cs_sum_single_diff(
    ns1: Seq<Node>,
    ns2: Seq<Node>,
    ch: Seq<ChildRef>,
    c: Category,
    j: int,
    d: int,
)
    requires
        forall|k: int|
            0 <= k < ch.len() && (#[trigger] ch[k]).idx as int != j ==> ct_get(
                ns2[ch[k].idx as int].totals,
                c,
            ) == ct_get(ns1[ch[k].idx as int].totals, c),
        forall|k: int|
            0 <= k < ch.len() && (#[trigger] ch[k]).idx as int == j ==> ct_get(
                ns2[ch[k].idx as int].totals,
                c,
            ) == ct_get(ns1[ch[k].idx as int].totals, c) + d,
    ensures
        cs_sum(ns2, ch, c) == cs_sum(ns1, ch, c) + cnt_idx(ch, j) * d,
    decreases ch.len(),
{
    if ch.len() > 0 {
        lemma_cs_sum_single_diff(ns1, ns2, ch.drop_last(), c, j, d);
        let a = cnt_idx(ch.drop_last(), j);
        let e: int = if ch.last().idx as int == j {
            1
        } else {
            0
        };
        assert(cnt_idx(ch, j) == a + e);
        assert((a + e) * d == a * d + e * d) by (nonlinear_arith);
    }
}

proof fn lemma_cnt_zero(ch: Seq<ChildRef>, j: int)
    requires
        forall|k: int| 0 <= k < ch.len() ==> (#[trigger] ch[k]).idx as int != j,
    ensures
        cnt_idx(ch, j) == 0,
    decreases ch.len(),
{
    if ch.len() > 0 {
        lemma_cnt_zero(ch.drop_last(), j);
    }
}

proof fn lemma_cnt_one(ch: Seq<ChildRef>, j: int, k: int)
    requires
        0 <= k < ch.len(),
        ch[k].idx as int == j,
        forall|k1: int, k2: int|
            0 <= k1 < ch.len() && 0 <= k2 < ch.len() && k1 != k2 ==> (#[trigger] ch[k1]).idx != (
            #[trigger] ch[k2]).idx,
    ensures
        cnt_idx(ch, j) == 1,
    decreases ch.len(),
{
    if k == ch.len() - 1 {
        assert(forall|t: int|
            0 <= t < ch.drop_last().len() ==> (#[trigger] ch.drop_last()[t]).idx as int != j);
        lemma_cnt_zero(ch.drop_last(), j);
    } else {
        lemma_cnt_one(ch.drop_last(), j, k);
    }
}

proof fn lemma_cs_sum_push(ns: Seq<Node>, ch: Seq<ChildRef>, x: ChildRef, c: Category)
    ensures
        cs_sum(ns, ch.push(x), c) == cs_sum(ns, ch, c) + ct_get(ns[x.idx as int].totals, c),
{
    assert(ch.push(x).drop_last() =~= ch);
}

} // verus!

verus! {

/// Witness of an edge from `p` to `j` labelled with frame address `a`.
pub open spec fn edge_addr(ns: Seq<Node>, p: int, j: int, a: u64) -> bool {
    exists|k: int|
        0 <= k < ns[p].children@.len() && ns[p].children@[k].idx as int == j
            && ns[p].children@[k].addr == a
}

/// The node after a delta `d` was applied to category `c` of its
/// totals (and of its own bytes, at the leaf).
pub open spec fn bumped_node(nd: Node, c: Category, d: int, own_too: bool) -> Node {
    Node {
        frame: nd.frame,
        own: if own_too {
            ct_set(nd.own, c, (ct_get(nd.own, c) + d) as u64)
        } else {
            nd.own
        },
        totals: ct_set(nd.totals, c, (ct_get(nd.totals, c) + d) as u64),
        children: nd.children,
    }
}

/// A node kept across a structural extension: counters and frame
/// unchanged, children possibly extended at the end.
pub open spec fn keeps_node(n1: Node, n2: Node) -> bool {
    &&& n2.frame == n1.frame
    &&& n2.own == n1.own
    &&& n2.totals == n1.totals
    &&& n1.children@.is_prefix_of(n2.children@)
}

proof fn lemma_cs_sum_same(ns1: Seq<Node>, ns2: Seq<Node>, ch: Seq<ChildRef>, c: Category)
    requires
        forall|k: int|
            0 <= k < ch.len() ==> ns2[(#[trigger] ch[k]).idx as int].totals == ns1[ch[k].idx as int].totals,
    ensures
        cs_sum(ns2, ch, c) == cs_sum(ns1, ch, c),
    decreases ch.len(),
{
    if ch.len() > 0 {
        lemma_cs_sum_same(ns1, ns2, ch.drop_last(), c);
    }
}

/// Along a walk, each node's per-category total is bounded by the
/// root's.
pub proof fn lemma_path_le_root(ns: Seq<Node>, idxs: Seq<usize>, c: Category, m: int)
    requires
        wf(ns),
        path_ok(ns, idxs),
        0 <= m < idxs.len(),
    ensures
        ct_get(ns[idxs[m] as int].totals, c) <= ct_get(ns[idxs[0] as int].totals, c),
    decreases m,
{
    if m > 0 {
        lemma_path_le_root(ns, idxs, c, m - 1);
        let p = idxs[m - 1] as int;
        let j = idxs[m] as int;
        assert(is_child(ns, p, j));
        let k = choose|k: int| 0 <= k < ns[p].children@.len() && ns[p].children@[k].idx as int == j;
        lemma_cs_sum_member(ns, ns[p].children@, c, k);
        assert(ct_get(ns[p].totals, c) == ct_get(ns[p].own, c) + cs_sum(ns, ns[p].children@, c));
    }
}

/// Along a walk, each node's per-category total dominates the last
/// node's.
proof fn lemma_path_ge_leaf(ns: Seq<Node>, idxs: Seq<usize>, c: Category, m: int)
    requires
        wf(ns),
        path_ok(ns, idxs),
        0 <= m < idxs.len(),
    ensures
        ct_get(ns[idxs[m] as int].totals, c) >= ct_get(ns[idxs[idxs.len() - 1] as int].totals, c),
    decreases idxs.len() - m,
{
    if m < idxs.len() - 1 {
        lemma_path_ge_leaf(ns, idxs, c, m + 1);
        let p = idxs[m] as int;
        let j = idxs[m + 1] as int;
        assert(is_child(ns, p, j));
        let k = choose|k: int| 0 <= k < ns[p].children@.len() && ns[p].children@[k].idx as int == j;
        lemma_cs_sum_member(ns, ns[p].children@, c, k);
        assert(ct_get(ns[p].totals, c) == ct_get(ns[p].own, c) + cs_sum(ns, ns[p].children@, c));
    }
}

/// A child entry whose target lies on a root walk forces its owner
/// to be the preceding walk node.
proof fn lemma_child_on_path(ns: Seq<Node>, idxs: Seq<usize>, i: int, k: int)
    requires
        wf(ns),
        path_ok(ns, idxs),
        0 <= i < ns.len(),
        0 <= k < ns[i].children@.len(),
        on_path(idxs, ns[i].children@[k].idx as int),
    ensures
        exists|m: int|
            0 <= m < idxs.len() - 1 && (#[trigger] idxs[m]) as int == i && idxs[m + 1] == ns[
                i].children@[k].idx,
{
    let x = ns[i].children@[k].idx;
    let t = choose|t: int| 0 <= t < idxs.len() && idxs[t] as int == x as int;
    assert(x != 0);
    assert(t != 0);
    assert(is_child(ns, idxs[t - 1] as int, idxs[t] as int));
    let k2 = choose|k2: int|
        0 <= k2 < ns[idxs[t - 1] as int].children@.len() && (#[trigger] ns[idxs[t
            - 1] as int].children@[k2]).idx as int == idxs[t] as int;
    assert(idxs[t - 1] as int == i && k2 == k) by {
        if idxs[t - 1] as int != i || k2 != k {
            assert(ns[idxs[t - 1] as int].children@[k2].idx != ns[i].children@[k].idx);
        }
    }
    assert(0 <= t - 1 < idxs.len() - 1 && idxs[t - 1] as int == i && idxs[t] == x);
}

/// A node off the walk, all of whose children are off it too, keeps
/// its children sum.
#[verifier::rlimit(100)]
#[verifier::spinoff_prover]
proof fn lemma_bump_sum_offpath(
    ns1: Seq<Node>,
    ns2: Seq<Node>,
    idxs: Seq<usize>,
    c: Category,
    d: int,
    i: int,
    c2: Category,
)
    requires
        wf(ns1),
        path_ok(ns1, idxs),
        ns2.len() == ns1.len(),
        forall|j: int| 0 <= j < ns1.len() && !on_path(idxs, j) ==> ns2[j] == ns1[j],
        forall|m: int|
            0 <= m < idxs.len() ==> ns2[(#[trigger] idxs[m]) as int] == bumped_node(
                ns1[idxs[m] as int],
                c,
                d,
                m == idxs.len() - 1,
            ),
        forall|m: int|
            0 <= m < idxs.len() ==> 0 <= ct_get(ns1[(#[trigger] idxs[m]) as int].totals, c) + d
                <= u64::MAX,
        0 <= ct_get(ns1[idxs[idxs.len() - 1] as int].own, c) + d <= u64::MAX,
        forall|m: int|
            0 <= m < idxs.len() ==> ct_value(ns1[(#[trigger] idxs[m]) as int].totals) + d
                <= u64::MAX,
        0 <= i < ns2.len(),
        !on_path(idxs, i),
    ensures
        ct_get(ns2[i].totals, c2) == ct_get(ns2[i].own, c2) + cs_sum(ns2, ns2[i].children@, c2),
{
    let ch = ns1[i].children@;
    assert(ns2[i] == ns1[i]);
    assert forall|k: int| 0 <= k < ch.len() implies ns2[(
    #[trigger] ch[k]).idx as int].totals == ns1[ch[k].idx as int].totals by {
        if on_path(idxs, ch[k].idx as int) {
            lemma_child_on_path(ns1, idxs, i, k);
            let mm = choose|mm: int|
                0 <= mm < idxs.len() - 1 && (#[trigger] idxs[mm]) as int == i && idxs[mm
                    + 1] == ch[k].idx;
        }
    }
    lemma_cs_sum_same(ns1, ns2, ch, c2);
}

/// An inner walk node: exactly the edge to the next walk node moves.
#[verifier::rlimit(100)]
#[verifier::spinoff_prover]
proof fn lemma_bump_sum_inner(
    ns1: Seq<Node>,
    ns2: Seq<Node>,
    idxs: Seq<usize>,
    c: Category,
    d: int,
    i: int,
    c2: Category,
    m: int,
)
    requires
        wf(ns1),
        path_ok(ns1, idxs),
        ns2.len() == ns1.len(),
        forall|j: int| 0 <= j < ns1.len() && !on_path(idxs, j) ==> ns2[j] == ns1[j],
        forall|m: int|
            0 <= m < idxs.len() ==> ns2[(#[trigger] idxs[m]) as int] == bumped_node(
                ns1[idxs[m] as int],
                c,
                d,
                m == idxs.len() - 1,
            ),
        forall|m: int|
            0 <= m < idxs.len() ==> 0 <= ct_get(ns1[(#[trigger] idxs[m]) as int].totals, c) + d
                <= u64::MAX,
        0 <= ct_get(ns1[idxs[idxs.len() - 1] as int].own, c) + d <= u64::MAX,
        forall|m: int|
            0 <= m < idxs.len() ==> ct_value(ns1[(#[trigger] idxs[m]) as int].totals) + d
                <= u64::MAX,
        0 <= i < ns2.len(),
        0 <= m < idxs.len() - 1,
        idxs[m] as int == i,
    ensures
        ct_get(ns2[i].totals, c2) == ct_get(ns2[i].own, c2) + cs_sum(ns2, ns2[i].children@, c2),
{
    let last = idxs.len() - 1;
    let ch = ns1[i].children@;
    assert(ns2[i] == bumped_node(ns1[i], c, d, m == last));
    let jj = idxs[m + 1];
    assert forall|k: int| 0 <= k < ch.len() && (#[trigger] ch[k]).idx != jj implies ns2[
        ch[k].idx as int].totals == ns1[ch[k].idx as int].totals by {
        if on_path(idxs, ch[k].idx as int) {
            lemma_child_on_path(ns1, idxs, i, k);
            let mm = choose|mm: int|
                0 <= mm < idxs.len() - 1 && (#[trigger] idxs[mm]) as int == i && idxs[mm
                    + 1] == ch[k].idx;
            assert(idxs[mm] == idxs[m]);
            assert(mm == m);
        }
    }
    assert(is_child(ns1, i, jj as int));
    let kj = choose|kj: int| 0 <= kj < ch.len() && ch[kj].idx as int == jj as int;
    assert forall|k1: int, k2: int|
        0 <= k1 < ch.len() && 0 <= k2 < ch.len() && k1 != k2 implies (
    #[trigger] ch[k1]).idx != (#[trigger] ch[k2]).idx by {}
    lemma_cnt_one(ch, jj as int, kj);
    assert(on_path(idxs, jj as int));
    assert(ns2[jj as int] == bumped_node(ns1[jj as int], c, d, m + 1 == last)) by {
        let mj = choose|mj: int| 0 <= mj < idxs.len() && idxs[mj] as int == jj as int;
        assert(idxs[mj] == idxs[m + 1]);
        assert(mj == m + 1);
    }
    assert(0 <= ct_get(ns1[jj as int].totals, c) + d <= u64::MAX);
    assert(ct_get(ns2[jj as int].totals, c) == ct_get(ns1[jj as int].totals, c) + d);
    assert(forall|c3: Category|
        c3 != c ==> #[trigger] ct_get(ns2[jj as int].totals, c3) == ct_get(
            ns1[jj as int].totals, c3));
    assert(ns2[i].children@ == ch);
    assert(ct_get(ns1[i].totals, c2) == ct_get(ns1[i].own, c2) + cs_sum(ns1, ch, c2));
    assert(0 <= ct_get(ns1[i].totals, c) + d <= u64::MAX);
    assert(ns2[i].own == ns1[i].own);
    if c2 == c {
        lemma_cs_sum_single_diff(ns1, ns2, ch, c2, jj as int, d);
        assert(ct_get(ns2[i].totals, c) == ct_get(ns1[i].totals, c) + d);
        assert(cs_sum(ns2, ch, c) == cs_sum(ns1, ch, c) + d);
    } else {
        lemma_cs_sum_single_diff(ns1, ns2, ch, c2, jj as int, 0);
        assert(ct_get(ns2[i].totals, c2) == ct_get(ns1[i].totals, c2));
        assert(cs_sum(ns2, ch, c2) == cs_sum(ns1, ch, c2));
    }
}

/// The last walk node: its children are untouched.
#[verifier::rlimit(100)]
#[verifier::spinoff_prover]
proof fn lemma_bump_sum_leaf(
    ns1: Seq<Node>,
    ns2: Seq<Node>,
    idxs: Seq<usize>,
    c: Category,
    d: int,
    i: int,
    c2: Category,
)
    requires
        wf(ns1),
        path_ok(ns1, idxs),
        ns2.len() == ns1.len(),
        forall|j: int| 0 <= j < ns1.len() && !on_path(idxs, j) ==> ns2[j] == ns1[j],
        forall|m: int|
            0 <= m < idxs.len() ==> ns2[(#[trigger] idxs[m]) as int] == bumped_node(
                ns1[idxs[m] as int],
                c,
                d,
                m == idxs.len() - 1,
            ),
        forall|m: int|
            0 <= m < idxs.len() ==> 0 <= ct_get(ns1[(#[trigger] idxs[m]) as int].totals, c) + d
                <= u64::MAX,
        0 <= ct_get(ns1[idxs[idxs.len() - 1] as int].own, c) + d <= u64::MAX,
        forall|m: int|
            0 <= m < idxs.len() ==> ct_value(ns1[(#[trigger] idxs[m]) as int].totals) + d
                <= u64::MAX,
        0 <= i < ns2.len(),
        idxs[idxs.len() - 1] as int == i,
    ensures
        ct_get(ns2[i].totals, c2) == ct_get(ns2[i].own, c2) + cs_sum(ns2, ns2[i].children@, c2),
{
    let last = idxs.len() - 1;
    let ch = ns1[i].children@;
    assert(ns2[i] == bumped_node(ns1[i], c, d, true)) by {
        let m = choose|m: int| 0 <= m < idxs.len() && idxs[m] as int == i;
        assert(idxs[m] == idxs[last]);
        assert(m == last);
    }
    assert forall|k: int| 0 <= k < ch.len() implies ns2[(
    #[trigger] ch[k]).idx as int].totals == ns1[ch[k].idx as int].totals by {
        if on_path(idxs, ch[k].idx as int) {
            lemma_child_on_path(ns1, idxs, i, k);
            let mm = choose|mm: int|
                0 <= mm < idxs.len() - 1 && (#[trigger] idxs[mm]) as int == i && idxs[mm
                    + 1] == ch[k].idx;
            assert(idxs[mm] == idxs[last]);
            assert(mm == last);
        }
    }
    lemma_cs_sum_same(ns1, ns2, ch, c2);
    assert(ns2[i].children@ == ch);
    assert(ct_get(ns1[i].totals, c2) == ct_get(ns1[i].own, c2) + cs_sum(ns1, ch, c2));
    assert(0 <= ct_get(ns1[i].totals, c) + d <= u64::MAX);
    assert(0 <= ct_get(ns1[i].own, c) + d <= u64::MAX);
    if c2 == c {
        assert(ct_get(ns2[i].totals, c) == ct_get(ns1[i].totals, c) + d);
        assert(ct_get(ns2[i].own, c) == ct_get(ns1[i].own, c) + d);
    } else {
        assert(ct_get(ns2[i].totals, c2) == ct_get(ns1[i].totals, c2));
        assert(ct_get(ns2[i].own, c2) == ct_get(ns1[i].own, c2));
    }
}

/// The additive equation at one node, after one delta along a walk.
#[verifier::rlimit(100)]
#[verifier::spinoff_prover]
proof fn lemma_bump_sum_at(
    ns1: Seq<Node>,
    ns2: Seq<Node>,
    idxs: Seq<usize>,
    c: Category,
    d: int,
    i: int,
    c2: Category,
)
    requires
        wf(ns1),
        path_ok(ns1, idxs),
        ns2.len() == ns1.len(),
        forall|j: int| 0 <= j < ns1.len() && !on_path(idxs, j) ==> ns2[j] == ns1[j],
        forall|m: int|
            0 <= m < idxs.len() ==> ns2[(#[trigger] idxs[m]) as int] == bumped_node(
                ns1[idxs[m] as int],
                c,
                d,
                m == idxs.len() - 1,
            ),
        forall|m: int|
            0 <= m < idxs.len() ==> 0 <= ct_get(ns1[(#[trigger] idxs[m]) as int].totals, c) + d
                <= u64::MAX,
        0 <= ct_get(ns1[idxs[idxs.len() - 1] as int].own, c) + d <= u64::MAX,
        forall|m: int|
            0 <= m < idxs.len() ==> ct_value(ns1[(#[trigger] idxs[m]) as int].totals) + d
                <= u64::MAX,
        0 <= i < ns2.len(),
    ensures
        ct_get(ns2[i].totals, c2) == ct_get(ns2[i].own, c2) + cs_sum(ns2, ns2[i].children@, c2),
{
    let last = idxs.len() - 1;
    if on_path(idxs, i) {
        let m = choose|m: int| 0 <= m < idxs.len() && idxs[m] as int == i;
        if m < last {
            lemma_bump_sum_inner(ns1, ns2, idxs, c, d, i, c2, m);
        } else {
            lemma_bump_sum_leaf(ns1, ns2, idxs, c, d, i, c2);
        }
    } else {
        lemma_bump_sum_offpath(ns1, ns2, idxs, c, d, i, c2);
    }
}

/// Well-formedness survives applying one delta along a root walk.
#[verifier::rlimit(100)]
#[verifier::spinoff_prover]
proof fn lemma_wf_after_bump(
    ns1: Seq<Node>,
    ns2: Seq<Node>,
    idxs: Seq<usize>,
    c: Category,
    d: int,
)
    requires
        wf(ns1),
        path_ok(ns1, idxs),
        ns2.len() == ns1.len(),
        forall|j: int| 0 <= j < ns1.len() && !on_path(idxs, j) ==> ns2[j] == ns1[j],
        forall|m: int|
            0 <= m < idxs.len() ==> ns2[(#[trigger] idxs[m]) as int] == bumped_node(
                ns1[idxs[m] as int],
                c,
                d,
                m == idxs.len() - 1,
            ),
        forall|m: int|
            0 <= m < idxs.len() ==> 0 <= ct_get(ns1[(#[trigger] idxs[m]) as int].totals, c) + d
                <= u64::MAX,
        0 <= ct_get(ns1[idxs[idxs.len() - 1] as int].own, c) + d <= u64::MAX,
        forall|m: int|
            0 <= m < idxs.len() ==> ct_value(ns1[(#[trigger] idxs[m]) as int].totals) + d
                <= u64::MAX,
    ensures
        wf(ns2),
{
    let last = idxs.len() - 1;
    assert forall|j: int| 0 <= j < ns1.len() implies ns2[j].children == ns1[j].children
        && ns2[j].frame == ns1[j].frame by {
        if on_path(idxs, j) {
            let m = choose|m: int| 0 <= m < idxs.len() && idxs[m] as int == j;
            assert(ns2[j] == bumped_node(ns1[j], c, d, m == last));
        }
    }
    assert(wf_links(ns2));
    assert(wf_addrs(ns2));
    assert(wf_parents(ns2));
    assert forall|i: int| 0 <= i < ns2.len() implies ct_value(#[trigger] ns2[i].totals)
        <= u64::MAX by {
        if on_path(idxs, i) {
            let m = choose|m: int| 0 <= m < idxs.len() && idxs[m] as int == i;
            assert(ns2[i] == bumped_node(ns1[i], c, d, m == last));
        }
    }
    assert forall|i: int, c2: Category| 0 <= i < ns2.len() implies #[trigger] ct_get(
        ns2[i].totals,
        c2,
    ) == ct_get(ns2[i].own, c2) + cs_sum(ns2, ns2[i].children@, c2) by {
        lemma_bump_sum_at(ns1, ns2, idxs, c, d, i, c2);
    }
}

} // verus!

verus! {

/// `j` was already visited in the first `m` walk positions.
pub open spec fn on_pref(idxs: Seq<usize>, m: int, j: int) -> bool {
    exists|t: int| 0 <= t < m && (#[trigger] idxs[t]) as int == j
}

/// The tree grew: old nodes keep their counters, new nodes carry
/// none yet.
pub open spec fn grown_from(ns0: Seq<Node>, ns2: Seq<Node>) -> bool {
    &&& ns2.len() >= ns0.len()
    &&& forall|j: int| 0 <= j < ns0.len() ==> keeps_node(#[trigger] ns0[j], ns2[j])
    &&& forall|j: int|
        ns0.len() <= j < ns2.len() ==> (#[trigger] ns2[j]).own == ct_zero() && ns2[j].totals
            == ct_zero()
}

pub open spec fn ct_zero() -> CatTotals {
    CatTotals { page: 0, slab: 0, rss: 0, percpu: 0, page_cache: 0 }
}

/// Appending a fresh zero leaf under `p` keeps the tree well formed.
#[verifier::rlimit(100)]
#[verifier::spinoff_prover]
proof fn lemma_wf_extend(ns0: Seq<Node>, ns2: Seq<Node>, p: int, a: u64)
    requires
        wf(ns0),
        ns0.len() < usize::MAX,
        0 <= p < ns0.len(),
        !has_child(ns0[p].children@, a),
        ns2.len() == ns0.len() + 1,
        ns2[ns0.len() as int].frame == a,
        ns2[ns0.len() as int].own == ct_zero(),
        ns2[ns0.len() as int].totals == ct_zero(),
        ns2[ns0.len() as int].children@.len() == 0,
        ns2[p].frame == ns0[p].frame,
        ns2[p].own == ns0[p].own,
        ns2[p].totals == ns0[p].totals,
        ns2[p].children@ == ns0[p].children@.push(
            ChildRef { addr: a, idx: ns0.len() as usize },
        ),
        forall|i: int| 0 <= i < ns0.len() && i != p ==> ns2[i] == ns0[i],
    ensures
        wf(ns2),
{
    let j = ns0.len() as int;
    let ch0 = ns0[p].children@;
    let x = ChildRef { addr: a, idx: ns0.len() as usize };
    assert(x.idx as int == j);
    assert(ns2[p].children@.len() == ch0.len() + 1);
    assert(forall|k: int| 0 <= k < ch0.len() ==> ns2[p].children@[k] == ch0[k]);
    assert(ns2[p].children@[ch0.len() as int] == x);
    // every entry of ns2 except the new one is an entry of ns0
    assert forall|i: int, k: int|
        0 <= i < ns2.len() && 0 <= k < ns2[i].children@.len() && !(i == p && k == ch0.len()) implies
        0 <= i < ns0.len() && 0 <= k < ns0[i].children@.len() && (#[trigger] ns2[i].children@[k])
            == ns0[i].children@[k] by {
        if i == p {
        } else if i < ns0.len() {
            assert(ns2[i] == ns0[i]);
        } else {
            assert(i == j);
            assert(ns2[i].children@.len() == 0);
        }
    }
    assert forall|i: int, k: int|
        0 <= i < ns0.len() && 0 <= k < ns0[i].children@.len() implies (
    #[trigger] ns0[i].children@[k]).idx < ns0.len() && ns0[i].children@[k].idx > i by {}
    assert forall|i: int, k: int|
        0 <= i < ns2.len() && 0 <= k < ns2[i].children@.len() implies i < (
    #[trigger] ns2[i].children@[k]).idx < ns2.len() by {
        if i == p && k == ch0.len() {
            assert(ns2[i].children@[k] == x);
        }
    }
    assert(wf_links(ns2));
    assert forall|k: int| 0 <= k < ch0.len() implies ch0[k].addr != a by {
        if ch0[k].addr == a {
            assert(has_child(ch0, a));
        }
    }
    assert forall|i: int, k1: int, k2: int|
        0 <= i < ns2.len() && 0 <= k1 < ns2[i].children@.len() && 0 <= k2
            < ns2[i].children@.len() && k1 != k2 implies (#[trigger] ns2[i].children@[k1]).addr != (
    #[trigger] ns2[i].children@[k2]).addr by {
        if i == p && k1 == ch0.len() {
            assert(ns2[i].children@[k2] == ch0[k2]);
        } else if i == p && k2 == ch0.len() {
            assert(ns2[i].children@[k1] == ch0[k1]);
        }
    }
    assert(wf_addrs(ns2));
    assert forall|i1: int, k1: int, i2: int, k2: int|
        0 <= i1 < ns2.len() && 0 <= k1 < ns2[i1].children@.len() && 0 <= i2 < ns2.len() && 0 <= k2
            < ns2[i2].children@.len() && (i1 != i2 || k1 != k2) implies (
    #[trigger] ns2[i1].children@[k1]).idx != (#[trigger] ns2[i2].children@[k2]).idx by {
        if i1 == p && k1 == ch0.len() {
            assert(ns2[i1].children@[k1] == x);
            assert(ns2[i2].children@[k2].idx < ns0.len());
        } else if i2 == p && k2 == ch0.len() {
            assert(ns2[i2].children@[k2] == x);
            assert(ns2[i1].children@[k1].idx < ns0.len());
        }
    }
    assert forall|i: int, k: int|
        0 <= i < ns2.len() && 0 <= k < ns2[i].children@.len() implies (
    #[trigger] ns2[i].children@[k]).idx != 0 by {
        if i == p && k == ch0.len() {
            assert(ns2[i].children@[k] == x);
        }
    }
    assert(wf_parents(ns2));
    assert forall|i: int| 0 <= i < ns2.len() implies ns2[i].totals == if i < ns0.len() {
        ns0[i].totals
    } else {
        ct_zero()
    } by {}
    assert forall|i: int, c: Category| 0 <= i < ns2.len() implies #[trigger] ct_get(
        ns2[i].totals,
        c,
    ) == ct_get(ns2[i].own, c) + cs_sum(ns2, ns2[i].children@, c) by {
        if i == j {
            assert(ns2[i].children@ =~= Seq::<ChildRef>::empty());
            assert(cs_sum(ns2, ns2[i].children@, c) == 0);
        } else if i == p {
            lemma_cs_sum_same(ns0, ns2, ch0, c);
            lemma_cs_sum_push(ns2, ch0, x, c);
            assert(ct_get(ns2[j].totals, c) == 0);
            assert(ct_get(ns0[i].totals, c) == ct_get(ns0[i].own, c) + cs_sum(ns0, ch0, c));
        } else {
            lemma_cs_sum_same(ns0, ns2, ns0[i].children@, c);
            assert(ct_get(ns0[i].totals, c) == ct_get(ns0[i].own, c) + cs_sum(
                ns0,
                ns0[i].children@,
                c,
            ));
        }
    }
    assert(wf_bounded(ns2));
}

/// Per-category totals never grow along a walk away from the root,
/// summed over all categories.
proof fn lemma_path_value_le_root(ns: Seq<Node>, idxs: Seq<usize>, m: int)
    requires
        wf(ns),
        path_ok(ns, idxs),
        0 <= m < idxs.len(),
    ensures
        ct_value(ns[idxs[m] as int].totals) <= ct_value(ns[idxs[0] as int].totals),
{
    lemma_path_le_root(ns, idxs, Category::Page, m);
    lemma_path_le_root(ns, idxs, Category::Slab, m);
    lemma_path_le_root(ns, idxs, Category::Rss, m);
    lemma_path_le_root(ns, idxs, Category::Percpu, m);
    lemma_path_le_root(ns, idxs, Category::PageCache, m);
}

/// The call tree. `nodes[0]` is the root, standing for the profiled
/// process itself.
pub struct History {
    pub nodes: Vec<Node>,
}

impl History {
    pub open spec fn wf(&self) -> bool {
        wf(self.nodes@)
    }

    pub fn new() -> (r: History)
        ensures
            r.wf(),
            r.nodes@.len() == 1,
            r.nodes@[0].own == ct_zero(),
            r.nodes@[0].totals == ct_zero(),
            r.nodes@[0].children@.len() == 0,
    {
        let mut nodes: Vec<Node> = Vec::new();
        nodes.push(
            Node { frame: 0, own: CatTotals::zero(), totals: CatTotals::zero(), children: Vec::new() },
        );
        let h = History { nodes };
        proof {
            let ns = h.nodes@;
            assert(ns[0].children@ =~= Seq::<ChildRef>::empty());
            assert(cs_sum(ns, ns[0].children@, Category::Page) == 0);
            assert forall|i: int, c: Category| 0 <= i < ns.len() implies #[trigger] ct_get(
                ns[i].totals,
                c,
            ) == ct_get(ns[i].own, c) + cs_sum(ns, ns[i].children@, c) by {
                assert(i == 0);
                assert(cs_sum(ns, ns[0].children@, c) == 0);
            }
        }
        h
    }

    /// Number of nodes the tree holds; it only ever grows.
    pub fn len(&self) -> (r: usize)
        ensures
            r == self.nodes@.len(),
    {
        self.nodes.len()
    }

    fn find_child(&self, i: usize, a: u64) -> (r: Option<usize>)
        requires
            i < self.nodes@.len(),
        ensures
            match r {
                Some(j) => exists|k: int|
                    0 <= k < self.nodes@[i as int].children@.len() && (
                    #[trigger] self.nodes@[i as int].children@[k]).addr == a && self.nodes@[
                        i as int].children@[k].idx == j,
                None => !has_child(self.nodes@[i as int].children@, a),
            },
    {
        let ch = &self.nodes[i].children;
        let n = ch.len();
        let mut k: usize = 0;
        while k < n
            invariant
                i < self.nodes@.len(),
                ch@ == self.nodes@[i as int].children@,
                n == ch@.len(),
                k <= n,
                forall|t: int| 0 <= t < k ==> (#[trigger] ch@[t]).addr != a,
            decreases n - k,
        {
            if ch[k].addr == a {
                let j = ch[k].idx;
                proof {
                    assert(self.nodes@[i as int].children@[k as int].addr == a);
                    assert(self.nodes@[i as int].children@[k as int].idx == j);
                }
                return Some(j);
            }
            k = k + 1;
        }
        None
    }

    /// Walk the frame path from the root, creating missing nodes with
    /// zeroed counters, and return the arena indices visited.
    pub fn ensure_path(&mut self, path: &Vec<u64>) -> (idxs: Vec<usize>)
        requires
            old(self).wf(),
        ensures
            final(self).wf(),
            idxs@.len() == path@.len() + 1,
            path_ok(final(self).nodes@, idxs@),
            grown_from(old(self).nodes@, final(self).nodes@),
            forall|m: int|
                0 <= m < path@.len() ==> edge_addr(
                    final(self).nodes@,
                    (#[trigger] idxs@[m]) as int,
                    idxs@[m + 1] as int,
                    path@[m],
                ),
            forall|j: int|
                old(self).nodes@.len() <= j < final(self).nodes@.len() ==> on_path(idxs@, j),
            spec_walk(final(self).nodes@, path@) == Some(idxs@),
    {
        let ghost ns_start = self.nodes@;
        let mut idxs: Vec<usize> = Vec::new();
        idxs.push(0);
        let mut cur: usize = 0;
        let n = path.len();
        let mut m: usize = 0;
        while m < n
            invariant
                self.wf(),
                n == path@.len(),
                m <= n,
                idxs@.len() == m + 1,
                cur == idxs@[m as int],
                path_ok(self.nodes@, idxs@),
                grown_from(ns_start, self.nodes@),
                forall|t: int|
                    0 <= t < m ==> edge_addr(
                        self.nodes@,
                        (#[trigger] idxs@[t]) as int,
                        idxs@[t + 1] as int,
                        path@[t],
                    ),
                forall|j: int| ns_start.len() <= j < self.nodes@.len() ==> on_path(idxs@, j),
            decreases n - m,
        {
            let a = path[m];
            let ghost pre_ns = self.nodes@;
            let ghost pre_iv = idxs@;
            let next = match self.find_child(cur, a) {
                Some(j) => j,
                None => {
                    let ghost ns0 = self.nodes@;
                    let j = self.nodes.len();
                    self.nodes.push(
                        Node {
                            frame: a,
                            own: CatTotals::zero(),
                            totals: CatTotals::zero(),
                            children: Vec::new(),
                        },
                    );
                    let nd = &mut self.nodes[cur];
                    nd.children.push(ChildRef { addr: a, idx: j });
                    let new_len = self.nodes.len();
                    proof {
                        let ns2 = self.nodes@;
                        assert(new_len == ns0.len() + 1);
                        assert(ns0.len() < usize::MAX);
                        assert(ns2[cur as int].children@ == ns0[cur as int].children@.push(
                            ChildRef { addr: a, idx: j },
                        ));
                        assert(forall|i: int|
                            0 <= i < ns0.len() && i != cur ==> ns2[i] == ns0[i]);
                        lemma_wf_extend(ns0, ns2, cur as int, a);
                        assert(ns2[cur as int].children@[ns0[cur as int].children@.len() as int]
                            == ChildRef { addr: a, idx: j });
                        assert forall|jj: int| 0 <= jj < ns_start.len() implies keeps_node(
                            #[trigger] ns_start[jj],
                            ns2[jj],
                        ) by {
                            assert(keeps_node(ns_start[jj], ns0[jj]));
                            assert(forall|t: int|
                                0 <= t < ns_start[jj].children@.len() ==> ns_start[
                                jj].children@[t] == ns0[jj].children@[t]);
                            assert(forall|t: int|
                                0 <= t < ns0[jj].children@.len() ==> ns0[jj].children@[t]
                                    == ns2[jj].children@[t]);
                            assert(ns2[jj].children@.subrange(
                                0,
                                ns_start[jj].children@.len() as int,
                            ) =~= ns_start[jj].children@);
                        }
                        assert(grown_from(ns_start, ns2));
                    }
                    j
                },
            };
            proof {
                let ns = self.nodes@;
                let ghost kw = choose|k: int|
                    0 <= k < ns[cur as int].children@.len() && (
                    #[trigger] ns[cur as int].children@[k]).addr == a && ns[
                        cur as int].children@[k].idx == next;
                assert(ns[cur as int].children@[kw].idx == next);
                assert(is_child(ns, cur as int, next as int));
                assert(edge_addr(ns, cur as int, next as int, a));
                assert(cur < next);
                // old edges persist: the entries they rest on are kept
                assert forall|t: int| 0 <= t < m implies edge_addr(
                    ns,
                    (#[trigger] pre_iv[t]) as int,
                    pre_iv[t + 1] as int,
                    path@[t],
                ) by {
                    let p = pre_iv[t] as int;
                    assert(edge_addr(pre_ns, p, pre_iv[t + 1] as int, path@[t]));
                    let kk = choose|kk: int|
                        0 <= kk < pre_ns[p].children@.len() && (
                        #[trigger] pre_ns[p].children@[kk]).idx as int == pre_iv[t + 1] as int
                            && pre_ns[p].children@[kk].addr == path@[t];
                    assert(pre_ns[p].children@.is_prefix_of(ns[p].children@)) by {
                        assert(keeps_node(pre_ns[p], ns[p]));
                    }
                    assert(ns[p].children@[kk] == pre_ns[p].children@[kk]);
                }
                assert forall|t: int| 0 <= t < m implies is_child(
                    ns,
                    (#[trigger] pre_iv[t]) as int,
                    pre_iv[t + 1] as int,
                ) by {
                    assert(edge_addr(ns, pre_iv[t] as int, pre_iv[t + 1] as int, path@[t]));
                    let kk = choose|kk: int|
                        0 <= kk < ns[pre_iv[t] as int].children@.len() && (
                        #[trigger] ns[pre_iv[t] as int].children@[kk]).idx as int == pre_iv[t
                            + 1] as int && ns[pre_iv[t] as int].children@[kk].addr == path@[t];
                }
            }
            idxs.push(next);
            cur = next;
            m = m + 1;
            proof {
                let ns = self.nodes@;
                let iv = idxs@;
                assert(iv[m as int] == next);
                assert(forall|t: int| 0 <= t < m ==> iv[t] == pre_iv[t]);
                assert forall|m1: int, m2: int| 0 <= m1 < m2 < iv.len() implies (
                #[trigger] iv[m1]) < (#[trigger] iv[m2]) by {
                    if m2 < m {
                        assert(pre_iv[m1] < pre_iv[m2]);
                    } else {
                        if m1 < m - 1 {
                            assert(pre_iv[m1] < pre_iv[m as int - 1]);
                        }
                    }
                }
                assert forall|t: int| 0 <= t < m as int implies is_child(
                    ns,
                    (#[trigger] iv[t]) as int,
                    iv[t + 1] as int,
                ) by {
                    if t < m - 1 {
                        assert(is_child(ns, pre_iv[t] as int, pre_iv[t + 1] as int));
                    } else {
                        assert(iv[t] as int == pre_iv[t] as int);
                    }
                }
                assert(path_ok(ns, iv));
                assert forall|t: int| 0 <= t < m as int implies edge_addr(
                    ns,
                    (#[trigger] iv[t]) as int,
                    iv[t + 1] as int,
                    path@[t],
                ) by {
                    if t < m - 1 {
                        assert(edge_addr(ns, pre_iv[t] as int, pre_iv[t + 1] as int, path@[t]));
                    }
                }
                assert forall|j: int| ns_start.len() <= j < ns.len() implies on_path(iv, j) by {
                    if j < pre_ns.len() {
                        assert(on_path(pre_iv, j));
                        let t = choose|t: int|
                            0 <= t < pre_iv.len() && (#[trigger] pre_iv[t]) as int == j;
                        assert(iv[t] as int == j);
                    } else {
                        assert(j == next as int);
                        assert(iv[m as int] as int == j);
                    }
                }
            }
        }
        proof {
            assert(walk_follows(self.nodes@, path@, idxs@));
            lemma_follows_to_walk(self.nodes@, path@, idxs@);
        }
        idxs
    }
}

} // verus!

verus! {

impl History {
    /// Add `s` bytes of category `c` along a root walk, attributing
    /// them directly to the walk's last frame.
    #[verifier::rlimit(100)]
    #[verifier::spinoff_prover]
    pub fn add_along(&mut self, idxs: &Vec<usize>, c: Category, s: u64)
        requires
            old(self).wf(),
            path_ok(old(self).nodes@, idxs@),
            ct_value(old(self).nodes@[0].totals) + s <= u64::MAX,
        ensures
            final(self).wf(),
            final(self).nodes@.len() == old(self).nodes@.len(),
            forall|j: int|
                0 <= j < old(self).nodes@.len() && !on_path(idxs@, j) ==> final(self).nodes@[j]
                    == old(self).nodes@[j],
            forall|m: int|
                0 <= m < idxs@.len() ==> final(self).nodes@[(#[trigger] idxs@[m]) as int]
                    == bumped_node(
                    old(self).nodes@[idxs@[m] as int],
                    c,
                    s as int,
                    m == idxs@.len() - 1,
                ),
            delta_effect(old(self).nodes@, final(self).nodes@, idxs@, c, s as int),
    {
        let ghost ns0 = self.nodes@;
        let ghost last = idxs@.len() - 1;
        proof {
            assert(idxs@[0] == 0);
            assert forall|m: int| 0 <= m < idxs@.len() implies 0 <= ct_get(
                ns0[(#[trigger] idxs@[m]) as int].totals,
                c,
            ) + s <= u64::MAX && ct_value(ns0[idxs@[m] as int].totals) + s <= u64::MAX by {
                lemma_path_le_root(ns0, idxs@, c, m);
                lemma_path_value_le_root(ns0, idxs@, m);
                lemma_ct_get_le_value(ns0[idxs@[0] as int].totals, c);
            }
            assert(0 <= ct_get(ns0[idxs@[last] as int].own, c) + s <= u64::MAX) by {
                lemma_cs_sum_nonneg(ns0, ns0[idxs@[last] as int].children@, c);
                assert(ct_get(ns0[idxs@[last] as int].totals, c) == ct_get(
                    ns0[idxs@[last] as int].own,
                    c,
                ) + cs_sum(ns0, ns0[idxs@[last] as int].children@, c));
            }
        }
        let n = idxs.len();
        let mut m: usize = 0;
        while m < n
            invariant
                n == idxs@.len(),
                last == idxs@.len() - 1,
                m <= n,
                self.nodes@.len() == ns0.len(),
                wf(ns0),
                path_ok(ns0, idxs@),
                forall|mm: int|
                    0 <= mm < idxs@.len() ==> 0 <= ct_get(
                        ns0[(#[trigger] idxs@[mm]) as int].totals,
                        c,
                    ) + s <= u64::MAX,
                0 <= ct_get(ns0[idxs@[last] as int].own, c) + s <= u64::MAX,
                forall|j: int|
                    0 <= j < ns0.len() && !on_pref(idxs@, m as int, j) ==> self.nodes@[j] == ns0[j],
                forall|t: int|
                    0 <= t < m ==> self.nodes@[(#[trigger] idxs@[t]) as int] == bumped_node(
                        ns0[idxs@[t] as int],
                        c,
                        s as int,
                        t == idxs@.len() - 1,
                    ),
            decreases n - m,
        {
            let idx = idxs[m];
            proof {
                assert(idx < ns0.len());
                assert(!on_pref(idxs@, m as int, idx as int)) by {
                    if on_pref(idxs@, m as int, idx as int) {
                        let t = choose|t: int|
                            0 <= t < m && (#[trigger] idxs@[t]) as int == idx as int;
                        assert(idxs@[t] < idxs@[m as int]);
                    }
                }
                assert(self.nodes@[idx as int] == ns0[idx as int]);
            }
            let is_last = m + 1 == n;
            let nd = &mut self.nodes[idx];
            nd.totals.incr(c, s);
            if is_last {
                nd.own.incr(c, s);
            }
            proof {
                assert(self.nodes@[idx as int] == bumped_node(
                    ns0[idx as int],
                    c,
                    s as int,
                    m as int == idxs@.len() - 1,
                ));
            }
            m = m + 1;
            proof {
                assert forall|j: int|
                    0 <= j < ns0.len() && !on_pref(idxs@, m as int, j) implies self.nodes@[j]
                    == ns0[j] by {
                    assert(!on_pref(idxs@, m as int - 1, j));
                    assert(idxs@[m as int - 1] as int != j);
                }
            }
        }
        proof {
            assert forall|j: int|
                0 <= j < ns0.len() && !on_path(idxs@, j) implies self.nodes@[j] == ns0[j] by {
                assert(!on_pref(idxs@, n as int, j));
            }
            assert forall|j: int|
                0 <= j < ns0.len() && !on_path(idxs@, j) implies ns0[j] == self.nodes@[j] by {}
            lemma_wf_after_bump(ns0, self.nodes@, idxs@, c, s as int);
        }
    }

    /// Remove `s` bytes of category `c` along a root walk; the walk's
    /// last frame must own at least `s` bytes of that category.
    #[verifier::rlimit(100)]
    #[verifier::spinoff_prover]
    pub fn sub_along(&mut self, idxs: &Vec<usize>, c: Category, s: u64)
        requires
            old(self).wf(),
            path_ok(old(self).nodes@, idxs@),
            s <= ct_get(old(self).nodes@[idxs@[idxs@.len() - 1] as int].own, c),
        ensures
            final(self).wf(),
            final(self).nodes@.len() == old(self).nodes@.len(),
            forall|j: int|
                0 <= j < old(self).nodes@.len() && !on_path(idxs@, j) ==> final(self).nodes@[j]
                    == old(self).nodes@[j],
            forall|m: int|
                0 <= m < idxs@.len() ==> final(self).nodes@[(#[trigger] idxs@[m]) as int]
                    == bumped_node(
                    old(self).nodes@[idxs@[m] as int],
                    c,
                    -(s as int),
                    m == idxs@.len() - 1,
                ),
            delta_effect(old(self).nodes@, final(self).nodes@, idxs@, c, -(s as int)),
    {
        let ghost ns0 = self.nodes@;
        let ghost last = idxs@.len() - 1;
        proof {
            assert(s <= ct_get(ns0[idxs@[last] as int].totals, c)) by {
                lemma_cs_sum_nonneg(ns0, ns0[idxs@[last] as int].children@, c);
                assert(ct_get(ns0[idxs@[last] as int].totals, c) == ct_get(
                    ns0[idxs@[last] as int].own,
                    c,
                ) + cs_sum(ns0, ns0[idxs@[last] as int].children@, c));
            }
            assert forall|m: int| 0 <= m < idxs@.len() implies 0 <= ct_get(
                ns0[(#[trigger] idxs@[m]) as int].totals,
                c,
            ) - s <= u64::MAX by {
                lemma_path_ge_leaf(ns0, idxs@, c, m);
            }
        }
        let n = idxs.len();
        let mut m: usize = 0;
        while m < n
            invariant
                n == idxs@.len(),
                last == idxs@.len() - 1,
                m <= n,
                self.nodes@.len() == ns0.len(),
                wf(ns0),
                path_ok(ns0, idxs@),
                s <= ct_get(ns0[idxs@[last] as int].own, c),
                forall|mm: int|
                    0 <= mm < idxs@.len() ==> 0 <= ct_get(
                        ns0[(#[trigger] idxs@[mm]) as int].totals,
                        c,
                    ) - s <= u64::MAX,
                forall|j: int|
                    0 <= j < ns0.len() && !on_pref(idxs@, m as int, j) ==> self.nodes@[j] == ns0[j],
                forall|t: int|
                    0 <= t < m ==> self.nodes@[(#[trigger] idxs@[t]) as int] == bumped_node(
                        ns0[idxs@[t] as int],
                        c,
                        -(s as int),
                        t == idxs@.len() - 1,
                    ),
            decreases n - m,
        {
            let idx = idxs[m];
            proof {
                assert(idx < ns0.len());
                assert(!on_pref(idxs@, m as int, idx as int)) by {
                    if on_pref(idxs@, m as int, idx as int) {
                        let t = choose|t: int|
                            0 <= t < m && (#[trigger] idxs@[t]) as int == idx as int;
                        assert(idxs@[t] < idxs@[m as int]);
                    }
                }
                assert(self.nodes@[idx as int] == ns0[idx as int]);
            }
            let is_last = m + 1 == n;
            let nd = &mut self.nodes[idx];
            nd.totals.decr(c, s);
            if is_last {
                nd.own.decr(c, s);
            }
            proof {
                assert(self.nodes@[idx as int] == bumped_node(
                    ns0[idx as int],
                    c,
                    -(s as int),
                    m as int == idxs@.len() - 1,
                ));
            }
            m = m + 1;
            proof {
                assert forall|j: int|
                    0 <= j < ns0.len() && !on_pref(idxs@, m as int, j) implies self.nodes@[j]
                    == ns0[j] by {
                    assert(!on_pref(idxs@, m as int - 1, j));
                    assert(idxs@[m as int - 1] as int != j);
                }
            }
        }
        proof {
            assert forall|j: int|
                0 <= j < ns0.len() && !on_path(idxs@, j) implies self.nodes@[j] == ns0[j] by {
                assert(!on_pref(idxs@, n as int, j));
            }
            assert(0 <= ct_get(ns0[idxs@[last] as int].own, c) - s <= u64::MAX);
            assert forall|m2: int| 0 <= m2 < idxs@.len() implies ct_value(
                ns0[(#[trigger] idxs@[m2]) as int].totals,
            ) - s <= u64::MAX by {
                lemma_ct_get_le_value(ns0[idxs@[m2] as int].totals, c);
            }
            lemma_wf_after_bump(ns0, self.nodes@, idxs@, c, -(s as int));
        }
    }

    /// Re-walk a stored frame path; `None` when some step is missing.
    pub fn find_path(&self, path: &Vec<u64>) -> (r: Option<Vec<usize>>)
        requires
            self.wf(),
        ensures
            match r {
                Some(idxs) => {
                    &&& idxs@.len() == path@.len() + 1
                    &&& path_ok(self.nodes@, idxs@)
                    &&& forall|m: int|
                        0 <= m < path@.len() ==> edge_addr(
                            self.nodes@,
                            (#[trigger] idxs@[m]) as int,
                            idxs@[m + 1] as int,
                            path@[m],
                        )
                    &&& spec_walk(self.nodes@, path@) == Some(idxs@)
                },
                None => spec_walk(self.nodes@, path@) is None,
            },
    {
        let mut idxs: Vec<usize> = Vec::new();
        idxs.push(0);
        let mut cur: usize = 0;
        let n = path.len();
        let mut m: usize = 0;
        while m < n
            invariant
                self.wf(),
                n == path@.len(),
                m <= n,
                idxs@.len() == m + 1,
                cur == idxs@[m as int],
                path_ok(self.nodes@, idxs@),
                forall|t: int|
                    0 <= t < m ==> edge_addr(
                        self.nodes@,
                        (#[trigger] idxs@[t]) as int,
                        idxs@[t + 1] as int,
                        path@[t],
                    ),
            decreases n - m,
        {
            let a = path[m];
            let next = match self.find_child(cur, a) {
                Some(j) => j,
                None => {
                    proof {
                        let ns = self.nodes@;
                        assert(spec_walk(ns, path@) is None) by {
                            if spec_walk(ns, path@) is Some {
                                let w = choose|w: Seq<usize>| spec_walk(ns, path@) == Some(w);
                                lemma_walk_to_follows(ns, path@, w);
                                lemma_prefix_agree(ns, path@, w, idxs@, m as int);
                                assert(w[m as int] == cur);
                                assert(edge_addr(ns, cur as int, w[m + 1] as int, path@[m as int]));
                                let ke = choose|ke: int|
                                    0 <= ke < ns[cur as int].children@.len() && ns[
                                        cur as int].children@[ke].idx as int == w[m + 1] as int
                                        && ns[cur as int].children@[ke].addr == path@[m as int];
                                assert(has_child(ns[cur as int].children@, a));
                                assert(false);
                            }
                        }
                    }
                    return None;
                },
            };
            let ghost pre_iv = idxs@;
            proof {
                let ns = self.nodes@;
                let ghost kw = choose|k: int|
                    0 <= k < ns[cur as int].children@.len() && (
                    #[trigger] ns[cur as int].children@[k]).addr == a && ns[
                        cur as int].children@[k].idx == next;
                assert(is_child(ns, cur as int, next as int));
                assert(edge_addr(ns, cur as int, next as int, a));
                assert(cur < next);
            }
            idxs.push(next);
            cur = next;
            m = m + 1;
            proof {
                let iv = idxs@;
                assert(iv[m as int] == next);
                assert(forall|t: int| 0 <= t < m ==> iv[t] == pre_iv[t]);
                assert forall|m1: int, m2: int| 0 <= m1 < m2 < iv.len() implies (
                #[trigger] iv[m1]) < (#[trigger] iv[m2]) by {
                    if m2 < m {
                        assert(pre_iv[m1] < pre_iv[m2]);
                    } else {
                        if m1 < m - 1 {
                            assert(pre_iv[m1] < pre_iv[m as int - 1]);
                        }
                    }
                }
            }
        }
        proof {
            assert(walk_follows(self.nodes@, path@, idxs@));
            lemma_follows_to_walk(self.nodes@, path@, idxs@);
        }
        Some(idxs)
    }
}

} // verus!

verus! {

/// Sum of the children's `value` (all categories together).
pub open spec fn cs_vsum(ns: Seq<Node>, ch: Seq<ChildRef>) -> int
    decreases ch.len(),
{
    if ch.len() == 0 {
        0
    } else {
        cs_vsum(ns, ch.drop_last()) + ct_value(ns[ch.last().idx as int].totals)
    }
}

proof fn lemma_cs_vsum_split(ns: Seq<Node>, ch: Seq<ChildRef>)
    ensures
        cs_vsum(ns, ch) == cs_sum(ns, ch, Category::Page) + cs_sum(ns, ch, Category::Slab) + cs_sum(
            ns,
            ch,
            Category::Rss,
        ) + cs_sum(ns, ch, Category::Percpu) + cs_sum(ns, ch, Category::PageCache),
    decreases ch.len(),
{
    if ch.len() > 0 {
        lemma_cs_vsum_split(ns, ch.drop_last());
    }
}

/// In a well-formed tree, every node's total value dominates its
/// slab share, and both are nonnegative.
pub proof fn lemma_value_cache_bounds(ns: Seq<Node>, i: int)
    requires
        wf(ns),
        0 <= i < ns.len(),
    ensures
        ct_value(ns[i].totals) >= ns[i].totals.slab >= 0,
        ct_value(ns[i].totals) <= u64::MAX,
{
}

/// In a well-formed tree, every node's value is its directly owned
/// bytes plus the values of its children: the tree is additive
/// bottom-up.
pub proof fn lemma_tree_additive(ns: Seq<Node>, i: int)
    requires
        wf(ns),
        0 <= i < ns.len(),
    ensures
        ct_value(ns[i].totals) == ct_value(ns[i].own) + cs_vsum(ns, ns[i].children@),
{
    lemma_cs_vsum_split(ns, ns[i].children@);
    assert(ct_get(ns[i].totals, Category::Page) == ct_get(ns[i].own, Category::Page) + cs_sum(
        ns,
        ns[i].children@,
        Category::Page,
    ));
    assert(ct_get(ns[i].totals, Category::Slab) == ct_get(ns[i].own, Category::Slab) + cs_sum(
        ns,
        ns[i].children@,
        Category::Slab,
    ));
    assert(ct_get(ns[i].totals, Category::Rss) == ct_get(ns[i].own, Category::Rss) + cs_sum(
        ns,
        ns[i].children@,
        Category::Rss,
    ));
    assert(ct_get(ns[i].totals, Category::Percpu) == ct_get(ns[i].own, Category::Percpu) + cs_sum(
        ns,
        ns[i].children@,
        Category::Percpu,
    ));
    assert(ct_get(ns[i].totals, Category::PageCache) == ct_get(ns[i].own, Category::PageCache)
        + cs_sum(ns, ns[i].children@, Category::PageCache));
}

/// An allocation followed by the matching free returns every counter
/// of every node to its value before the allocation: nodes that
/// existed keep their bytes, nodes the allocation created end at
/// zero. The tree itself stays (it is monotonic).
#[verifier::rlimit(100)]
#[verifier::spinoff_prover]
pub proof fn lemma_alloc_free_round_trip(
    ns_pre: Seq<Node>,
    ns0: Seq<Node>,
    ns1: Seq<Node>,
    ns2: Seq<Node>,
    idxs: Seq<usize>,
    c: Category,
    s: u64,
)
    requires
        grown_from(ns_pre, ns0),
        path_ok(ns0, idxs),
        ns1.len() == ns0.len(),
        ns2.len() == ns1.len(),
        forall|j: int| 0 <= j < ns0.len() && !on_path(idxs, j) ==> ns1[j] == ns0[j],
        forall|m: int|
            0 <= m < idxs.len() ==> ns1[(#[trigger] idxs[m]) as int] == bumped_node(
                ns0[idxs[m] as int],
                c,
                s as int,
                m == idxs.len() - 1,
            ),
        forall|j: int| 0 <= j < ns1.len() && !on_path(idxs, j) ==> ns2[j] == ns1[j],
        forall|m: int|
            0 <= m < idxs.len() ==> ns2[(#[trigger] idxs[m]) as int] == bumped_node(
                ns1[idxs[m] as int],
                c,
                -(s as int),
                m == idxs.len() - 1,
            ),
        forall|m: int|
            0 <= m < idxs.len() ==> ct_get(ns0[(#[trigger] idxs[m]) as int].totals, c) + s
                <= u64::MAX,
        ct_get(ns0[idxs[idxs.len() - 1] as int].own, c) + s <= u64::MAX,
    ensures
        ns2 =~= ns0,
        forall|j: int|
            0 <= j < ns_pre.len() ==> ns2[j].totals == (#[trigger] ns_pre[j]).totals && ns2[j].own
                == ns_pre[j].own,
        forall|j: int|
            ns_pre.len() <= j < ns2.len() ==> (#[trigger] ns2[j]).totals == ct_zero() && ns2[j].own
                == ct_zero(),
{
    let last = idxs.len() - 1;
    assert forall|j: int| 0 <= j < ns0.len() implies ns2[j] == ns0[j] by {
        if on_path(idxs, j) {
            let m = choose|m: int| 0 <= m < idxs.len() && (#[trigger] idxs[m]) as int == j;
            assert(ns1[j] == bumped_node(ns0[j], c, s as int, m == last));
            assert(ns2[j] == bumped_node(ns1[j], c, -(s as int), m == last));
            assert(ct_get(ns1[j].totals, c) == ct_get(ns0[j].totals, c) + s);
            assert(ct_set(ns1[j].totals, c, ct_get(ns0[j].totals, c)) == ns0[j].totals);
            if m == last {
                assert(ct_get(ns1[j].own, c) == ct_get(ns0[j].own, c) + s);
                assert(ct_set(ns1[j].own, c, ct_get(ns0[j].own, c)) == ns0[j].own);
            }
        }
    }
}

} // verus!

verus! {

proof fn lemma_path_unique_at(
    ns: Seq<Node>,
    p: Seq<u64>,
    idxs1: Seq<usize>,
    idxs2: Seq<usize>,
    m: int,
)
    requires
        wf(ns),
        idxs1.len() == p.len() + 1,
        idxs2.len() == p.len() + 1,
        idxs1[0] == idxs2[0],
        forall|t: int| 0 <= t < idxs1.len() ==> (#[trigger] idxs1[t]) < ns.len(),
        forall|t: int| 0 <= t < idxs2.len() ==> (#[trigger] idxs2[t]) < ns.len(),
        forall|t: int|
            0 <= t < p.len() ==> edge_addr(ns, (#[trigger] idxs1[t]) as int, idxs1[t + 1] as int, p[t]),
        forall|t: int|
            0 <= t < p.len() ==> edge_addr(ns, (#[trigger] idxs2[t]) as int, idxs2[t + 1] as int, p[t]),
        0 <= m < idxs1.len(),
    ensures
        idxs1[m] == idxs2[m],
    decreases m,
{
    if m > 0 {
        lemma_path_unique_at(ns, p, idxs1, idxs2, m - 1);
        let i = idxs1[m - 1] as int;
        assert(edge_addr(ns, i, idxs1[m] as int, p[m - 1]));
        assert(edge_addr(ns, i, idxs2[m] as int, p[m - 1]));
        let k1 = choose|k: int|
            0 <= k < ns[i].children@.len() && ns[i].children@[k].idx as int == idxs1[m] as int
                && ns[i].children@[k].addr == p[m - 1];
        let k2 = choose|k: int|
            0 <= k < ns[i].children@.len() && ns[i].children@[k].idx as int == idxs2[m] as int
                && ns[i].children@[k].addr == p[m - 1];
        assert(k1 == k2) by {
            if k1 != k2 {
                assert(ns[i].children@[k1].addr != ns[i].children@[k2].addr);
            }
        }
    }
}

/// Following one frame path from the root reaches one set of nodes:
/// the walk a free re-finds is exactly the walk its allocation
/// created, so the matching free reverses the exact same counters.
pub proof fn lemma_path_unique(ns: Seq<Node>, p: Seq<u64>, idxs1: Seq<usize>, idxs2: Seq<usize>)
    requires
        wf(ns),
        idxs1.len() == p.len() + 1,
        idxs2.len() == p.len() + 1,
        idxs1[0] == idxs2[0],
        forall|t: int| 0 <= t < idxs1.len() ==> (#[trigger] idxs1[t]) < ns.len(),
        forall|t: int| 0 <= t < idxs2.len() ==> (#[trigger] idxs2[t]) < ns.len(),
        forall|t: int|
            0 <= t < p.len() ==> edge_addr(ns, (#[trigger] idxs1[t]) as int, idxs1[t + 1] as int, p[t]),
        forall|t: int|
            0 <= t < p.len() ==> edge_addr(ns, (#[trigger] idxs2[t]) as int, idxs2[t + 1] as int, p[t]),
    ensures
        idxs1 =~= idxs2,
{
    assert forall|m: int| 0 <= m < idxs1.len() implies idxs1[m] == idxs2[m] by {
        lemma_path_unique_at(ns, p, idxs1, idxs2, m);
    }
}

} // verus!

verus! {

/// One delta applied along a walk: the walk's nodes are bumped (own
/// bytes at the leaf), every other node is untouched.
pub open spec fn delta_effect(
    ns1: Seq<Node>,
    ns2: Seq<Node>,
    idxs: Seq<usize>,
    c: Category,
    d: int,
) -> bool {
    &&& ns2.len() == ns1.len()
    &&& forall|j: int| 0 <= j < ns1.len() && !on_path(idxs, j) ==> ns2[j] == ns1[j]
    &&& forall|m: int|
        0 <= m < idxs.len() ==> ns2[(#[trigger] idxs[m]) as int] == bumped_node(
            ns1[idxs[m] as int],
            c,
            d,
            m == idxs.len() - 1,
        )
}

/// The root walk a frame path determines, step by step: at each
/// frame, the unique child edge carrying that address.
pub open spec fn spec_walk_from(ns: Seq<Node>, i: usize, p: Seq<u64>, k: int) -> Option<
    Seq<usize>,
>
    decreases p.len() - k,
{
    if k < 0 || k >= p.len() {
        Some(seq![i])
    } else if has_child(ns[i as int].children@, p[k]) {
        let kk = choose|kk: int|
            0 <= kk < ns[i as int].children@.len() && ns[i as int].children@[kk].addr == p[k];
        match spec_walk_from(ns, ns[i as int].children@[kk].idx, p, k + 1) {
            Some(t) => Some(seq![i] + t),
            None => None,
        }
    } else {
        None
    }
}

/// The walk from the root, when every step of the path has a node.
pub open spec fn spec_walk(ns: Seq<Node>, p: Seq<u64>) -> Option<Seq<usize>> {
    spec_walk_from(ns, 0, p, 0)
}

/// What a concrete walk establishes: it starts at the root, stays in
/// the arena, and follows one addressed edge per frame.
pub open spec fn walk_follows(ns: Seq<Node>, p: Seq<u64>, idxs: Seq<usize>) -> bool {
    &&& idxs.len() == p.len() + 1
    &&& idxs[0] == 0
    &&& forall|m: int| 0 <= m < idxs.len() ==> (#[trigger] idxs[m]) < ns.len()
    &&& forall|m: int|
        0 <= m < p.len() ==> edge_addr(ns, (#[trigger] idxs[m]) as int, idxs[m + 1] as int, p[m])
}

proof fn lemma_follows_at(ns: Seq<Node>, p: Seq<u64>, idxs: Seq<usize>, k: int)
    requires
        wf(ns),
        0 <= k <= p.len(),
        idxs.len() == p.len() + 1,
        forall|m: int| 0 <= m < idxs.len() ==> (#[trigger] idxs[m]) < ns.len(),
        forall|m: int|
            0 <= m < p.len() ==> edge_addr(
                ns,
                (#[trigger] idxs[m]) as int,
                idxs[m + 1] as int,
                p[m],
            ),
    ensures
        spec_walk_from(ns, idxs[k], p, k) == Some(idxs.skip(k)),
    decreases p.len() - k,
{
    let i = idxs[k];
    if k >= p.len() {
        assert(idxs.skip(k) =~= seq![i]);
    } else {
        assert(edge_addr(ns, i as int, idxs[k + 1] as int, p[k]));
        let ke = choose|ke: int|
            0 <= ke < ns[i as int].children@.len() && ns[i as int].children@[ke].idx as int == idxs[
                k + 1] as int && ns[i as int].children@[ke].addr == p[k];
        assert(has_child(ns[i as int].children@, p[k]));
        let kk = choose|kk: int|
            0 <= kk < ns[i as int].children@.len() && ns[i as int].children@[kk].addr == p[k];
        assert(kk == ke) by {
            if kk != ke {
                assert(ns[i as int].children@[kk].addr != ns[i as int].children@[ke].addr);
            }
        }
        assert(ns[i as int].children@[kk].idx == idxs[k + 1]);
        lemma_follows_at(ns, p, idxs, k + 1);
        assert(seq![i] + idxs.skip(k + 1) =~= idxs.skip(k));
    }
}

/// A concrete walk is the walk the path determines.
pub proof fn lemma_follows_to_walk(ns: Seq<Node>, p: Seq<u64>, idxs: Seq<usize>)
    requires
        wf(ns),
        walk_follows(ns, p, idxs),
    ensures
        spec_walk(ns, p) == Some(idxs),
{
    lemma_follows_at(ns, p, idxs, 0);
    assert(idxs.skip(0) =~= idxs);
}

proof fn lemma_walk_at(ns: Seq<Node>, p: Seq<u64>, i: usize, k: int, w: Seq<usize>)
    requires
        wf(ns),
        i < ns.len(),
        0 <= k <= p.len(),
        spec_walk_from(ns, i, p, k) == Some(w),
    ensures
        w.len() == p.len() - k + 1,
        w[0] == i,
        forall|m: int| 0 <= m < w.len() ==> (#[trigger] w[m]) < ns.len(),
        forall|m: int|
            0 <= m < w.len() - 1 ==> edge_addr(ns, (#[trigger] w[m]) as int, w[m + 1] as int, p[k
                + m]),
    decreases p.len() - k,
{
    if k >= p.len() {
        assert(w =~= seq![i]);
    } else {
        assert(has_child(ns[i as int].children@, p[k]));
        let kk = choose|kk: int|
            0 <= kk < ns[i as int].children@.len() && ns[i as int].children@[kk].addr == p[k];
        let child = ns[i as int].children@[kk].idx;
        assert(child < ns.len());
        let t = choose|t: Seq<usize>| spec_walk_from(ns, child, p, k + 1) == Some(t);
        assert(w == seq![i] + t);
        lemma_walk_at(ns, p, child, k + 1, t);
        assert(edge_addr(ns, i as int, child as int, p[k]));
        assert forall|m: int| 0 <= m < w.len() - 1 implies edge_addr(
            ns,
            (#[trigger] w[m]) as int,
            w[m + 1] as int,
            p[k + m],
        ) by {
            if m > 0 {
                assert(w[m] == t[m - 1]);
                assert(w[m + 1] == t[m]);
                assert(edge_addr(ns, t[m - 1] as int, t[m] as int, p[k + 1 + (m - 1)]));
            } else {
                assert(w[0] == i && w[1] == t[0] && t[0] == child);
            }
        }
    }
}

/// The walk the path determines is a concrete walk.
pub proof fn lemma_walk_to_follows(ns: Seq<Node>, p: Seq<u64>, w: Seq<usize>)
    requires
        wf(ns),
        spec_walk(ns, p) == Some(w),
    ensures
        walk_follows(ns, p, w),
{
    lemma_walk_at(ns, p, 0, 0, w);
}

/// Two walks that follow the same leading frames agree position by
/// position, as far as the shorter one reaches.
proof fn lemma_prefix_agree(ns: Seq<Node>, p: Seq<u64>, w: Seq<usize>, part: Seq<usize>, m: int)
    requires
        wf(ns),
        walk_follows(ns, p, w),
        0 <= m < part.len(),
        part.len() <= w.len(),
        part[0] == w[0],
        forall|t: int| 0 <= t < part.len() ==> (#[trigger] part[t]) < ns.len(),
        forall|t: int|
            0 <= t < part.len() - 1 ==> edge_addr(
                ns,
                (#[trigger] part[t]) as int,
                part[t + 1] as int,
                p[t],
            ),
    ensures
        part[m] == w[m],
    decreases m,
{
    if m > 0 {
        lemma_prefix_agree(ns, p, w, part, m - 1);
        let i = part[m - 1] as int;
        assert(edge_addr(ns, i, part[m] as int, p[m - 1]));
        assert(edge_addr(ns, i, w[m] as int, p[m - 1]));
        let k1 = choose|k: int|
            0 <= k < ns[i].children@.len() && ns[i].children@[k].idx as int == part[m] as int && ns[
                i].children@[k].addr == p[m - 1];
        let k2 = choose|k: int|
            0 <= k < ns[i].children@.len() && ns[i].children@[k].idx as int == w[m] as int && ns[
                i].children@[k].addr == p[m - 1];
        assert(k1 == k2) by {
            if k1 != k2 {
                assert(ns[i].children@[k1].addr != ns[i].children@[k2].addr);
            }
        }
    }
}

} // verus!

verus! {

proof fn lemma_mono_chain(idxs: Seq<usize>, m1: int, m2: int)
    requires
        forall|m: int| 0 <= m < idxs.len() - 1 ==> (#[trigger] idxs[m]) < idxs[m + 1],
        0 <= m1 < m2 < idxs.len(),
    ensures
        idxs[m1] < idxs[m2],
    decreases m2 - m1,
{
    if m2 > m1 + 1 {
        lemma_mono_chain(idxs, m1, m2 - 1);
    }
}

/// In a well-formed tree a concrete walk is a proper root walk:
/// indices rise strictly and each step is a child edge.
pub proof fn lemma_walk_path_ok(ns: Seq<Node>, p: Seq<u64>, idxs: Seq<usize>)
    requires
        wf(ns),
        walk_follows(ns, p, idxs),
    ensures
        path_ok(ns, idxs),
{
    assert forall|m: int| 0 <= m < idxs.len() - 1 implies (#[trigger] idxs[m]) < idxs[m + 1] by {
        assert(edge_addr(ns, idxs[m] as int, idxs[m + 1] as int, p[m]));
        let k = choose|k: int|
            0 <= k < ns[idxs[m] as int].children@.len() && ns[idxs[m] as int].children@[k].idx
                as int == idxs[m + 1] as int && ns[idxs[m] as int].children@[k].addr == p[m];
        assert(ns[idxs[m] as int].children@[k].idx > idxs[m]);
    }
    assert forall|m1: int, m2: int| 0 <= m1 < m2 < idxs.len() implies (#[trigger] idxs[m1]) < (
    #[trigger] idxs[m2]) by {
        lemma_mono_chain(idxs, m1, m2);
    }
    assert forall|m: int| 0 <= m < idxs.len() - 1 implies is_child(
        ns,
        (#[trigger] idxs[m]) as int,
        idxs[m + 1] as int,
    ) by {
        assert(edge_addr(ns, idxs[m] as int, idxs[m + 1] as int, p[m]));
        let k = choose|k: int|
            0 <= k < ns[idxs[m] as int].children@.len() && ns[idxs[m] as int].children@[k].idx
                as int == idxs[m + 1] as int && ns[idxs[m] as int].children@[k].addr == p[m];
    }
}

} // verus!

verus! {

/// A charge along a walk and the matching release along the same
/// walk cancel exactly: old nodes keep their counters, created nodes
/// end at zero.
#[verifier::rlimit(100)]
#[verifier::spinoff_prover]
pub proof fn lemma_charge_release_cancel(
    prens: Seq<Node>,
    midns: Seq<Node>,
    upns: Seq<Node>,
    postns: Seq<Node>,
    idxs: Seq<usize>,
    p: Seq<u64>,
    c: Category,
    s: u64,
)
    requires
        wf(midns),
        prens.len() >= 1,
        grown_from(prens, midns),
        spec_walk(midns, p) == Some(idxs),
        delta_effect(midns, upns, idxs, c, s as int),
        delta_effect(upns, postns, idxs, c, -(s as int)),
        ct_value(prens[0].totals) + s <= u64::MAX,
    ensures
        postns =~= midns,
        postns.len() >= prens.len(),
        forall|j: int|
            0 <= j < prens.len() ==> postns[j].totals == (#[trigger] prens[j]).totals && postns[
                j].own == prens[j].own,
        forall|j: int|
            prens.len() <= j < postns.len() ==> (#[trigger] postns[j]).totals == ct_zero()
                && postns[j].own == ct_zero(),
{
    lemma_walk_to_follows(midns, p, idxs);
    lemma_walk_path_ok(midns, p, idxs);
    let last = idxs.len() - 1;
    let leaf = idxs[last] as int;
    assert(ct_value(midns[0].totals) == ct_value(prens[0].totals)) by {
        assert(keeps_node(prens[0], midns[0]));
    }
    assert forall|m: int| 0 <= m < idxs.len() implies ct_get(
        midns[(#[trigger] idxs[m]) as int].totals,
        c,
    ) + s <= u64::MAX by {
        lemma_path_le_root(midns, idxs, c, m);
        assert(idxs[0] == 0);
        assert(ct_get(midns[0].totals, c) <= ct_value(midns[0].totals));
    }
    assert(ct_get(midns[leaf].own, c) + s <= u64::MAX) by {
        lemma_cs_sum_nonneg(midns, midns[leaf].children@, c);
        assert(ct_get(midns[leaf].totals, c) == ct_get(midns[leaf].own, c) + cs_sum(
            midns,
            midns[leaf].children@,
            c,
        ));
    }
    lemma_alloc_free_round_trip(prens, midns, upns, postns, idxs, c, s);
}

} // verus!

verus! {

/// The first charge on a fresh tree: the walk's second node is the
/// newly created shared frame, and it ends carrying the size, as
/// does the root.
#[verifier::rlimit(100)]
#[verifier::spinoff_prover]
proof fn lemma_first_bump(
    prens: Seq<Node>,
    m1ns: Seq<Node>,
    mid_ns: Seq<Node>,
    idxs1: Seq<usize>,
    p1: Seq<u64>,
    c: Category,
    s1: u64,
)
    requires
        prens.len() == 1,
        prens[0].totals == ct_zero(),
        wf(m1ns),
        grown_from(prens, m1ns),
        spec_walk(m1ns, p1) == Some(idxs1),
        idxs1.len() == p1.len() + 1,
        p1.len() >= 1,
        delta_effect(m1ns, mid_ns, idxs1, c, s1 as int),
    ensures
        0 < idxs1[1],
        idxs1[1] < mid_ns.len(),
        edge_addr(mid_ns, 0, idxs1[1] as int, p1[0]),
        ct_get(mid_ns[idxs1[1] as int].totals, c) == s1,
        ct_get(mid_ns[0].totals, c) == s1,
        ct_value(mid_ns[0].totals) == s1,
{
    let g = p1[0];
    lemma_walk_to_follows(m1ns, p1, idxs1);
    let g1 = idxs1[1];
    assert(edge_addr(m1ns, 0, g1 as int, g));
    let k1 = choose|k: int|
        0 <= k < m1ns[0].children@.len() && m1ns[0].children@[k].idx as int == g1 as int
            && m1ns[0].children@[k].addr == g;
    assert(m1ns[0].children@[k1].idx != 0);
    assert(g1 >= prens.len());
    assert(m1ns[g1 as int].totals == ct_zero());
    assert(on_path(idxs1, g1 as int)) by {
        assert(idxs1[1] as int == g1 as int);
    }
    let m1 = choose|m: int| 0 <= m < idxs1.len() && (#[trigger] idxs1[m]) as int == g1 as int;
    assert(mid_ns[g1 as int] == bumped_node(m1ns[g1 as int], c, s1 as int, m1 == idxs1.len() - 1));
    assert(ct_get(mid_ns[g1 as int].totals, c) == s1);
    assert(on_path(idxs1, 0)) by {
        assert(idxs1[0] as int == 0);
    }
    assert(mid_ns[0] == bumped_node(m1ns[0], c, s1 as int, 0 == idxs1.len() - 1));
    assert(m1ns[0].totals == prens[0].totals) by {
        assert(keeps_node(prens[0], m1ns[0]));
    }
    assert(ct_get(mid_ns[0].totals, c) == s1);
    assert(ct_value(mid_ns[0].totals) == s1);
    assert(mid_ns[0].children@ == m1ns[0].children@);
    assert(mid_ns[0].children@[k1] == m1ns[0].children@[k1]);
    assert(edge_addr(mid_ns, 0, g1 as int, g));
}

/// The second charge walks through the same shared frame and adds
/// its size on top.
#[verifier::rlimit(100)]
#[verifier::spinoff_prover]
proof fn lemma_second_bump(
    mid_ns: Seq<Node>,
    m2ns: Seq<Node>,
    post_ns: Seq<Node>,
    idxs2: Seq<usize>,
    p2: Seq<u64>,
    c: Category,
    s2: u64,
    g1: usize,
    s1: u64,
)
    requires
        wf(m2ns),
        grown_from(mid_ns, m2ns),
        spec_walk(m2ns, p2) == Some(idxs2),
        idxs2.len() == p2.len() + 1,
        p2.len() >= 1,
        delta_effect(m2ns, post_ns, idxs2, c, s2 as int),
        0 < g1,
        g1 < mid_ns.len(),
        edge_addr(mid_ns, 0, g1 as int, p2[0]),
        ct_get(mid_ns[g1 as int].totals, c) == s1,
        ct_get(mid_ns[0].totals, c) == s1,
        ct_value(mid_ns[0].totals) + s2 <= u64::MAX,
    ensures
        ct_get(post_ns[0].totals, c) == s1 + s2,
        0 < g1,
        g1 < post_ns.len(),
        edge_addr(post_ns, 0, g1 as int, p2[0]),
        ct_get(post_ns[g1 as int].totals, c) == s1 + s2,
{
    let g = p2[0];
    lemma_walk_to_follows(m2ns, p2, idxs2);
    assert(keeps_node(mid_ns[0], m2ns[0]));
    assert(keeps_node(mid_ns[g1 as int], m2ns[g1 as int]));
    let k1 = choose|k: int|
        0 <= k < mid_ns[0].children@.len() && mid_ns[0].children@[k].idx as int == g1 as int
            && mid_ns[0].children@[k].addr == g;
    assert(m2ns[0].children@[k1] == mid_ns[0].children@[k1]) by {
        assert(mid_ns[0].children@.is_prefix_of(m2ns[0].children@));
    }
    assert(edge_addr(m2ns, 0, g1 as int, g));
    assert(edge_addr(m2ns, 0, idxs2[1] as int, g));
    let ka = choose|k: int|
        0 <= k < m2ns[0].children@.len() && m2ns[0].children@[k].idx as int == g1 as int
            && m2ns[0].children@[k].addr == g;
    let kb = choose|k: int|
        0 <= k < m2ns[0].children@.len() && m2ns[0].children@[k].idx as int == idxs2[1] as int
            && m2ns[0].children@[k].addr == g;
    assert(ka == kb) by {
        if ka != kb {
            assert(m2ns[0].children@[ka].addr != m2ns[0].children@[kb].addr);
        }
    }
    assert(idxs2[1] == g1);
    assert(ct_get(m2ns[g1 as int].totals, c) == s1);
    assert(ct_get(m2ns[0].totals, c) == s1);
    assert(ct_value(m2ns[0].totals) == ct_value(mid_ns[0].totals));
    assert(ct_get(m2ns[g1 as int].totals, c) + s2 <= u64::MAX) by {
        lemma_walk_path_ok(m2ns, p2, idxs2);
        lemma_path_le_root(m2ns, idxs2, c, 1);
        assert(idxs2[0] == 0);
        assert(ct_get(m2ns[0].totals, c) <= ct_value(m2ns[0].totals));
    }
    assert(on_path(idxs2, g1 as int)) by {
        assert(idxs2[1] as int == g1 as int);
    }
    let m2 = choose|m: int| 0 <= m < idxs2.len() && (#[trigger] idxs2[m]) as int == g1 as int;
    assert(post_ns[g1 as int] == bumped_node(m2ns[g1 as int], c, s2 as int, m2 == idxs2.len() - 1));
    assert(ct_get(post_ns[g1 as int].totals, c) == s1 + s2);
    assert(on_path(idxs2, 0)) by {
        assert(idxs2[0] as int == 0);
    }
    assert(post_ns[0] == bumped_node(m2ns[0], c, s2 as int, 0 == idxs2.len() - 1));
    assert(ct_get(post_ns[0].totals, c) == s1 + s2);
    assert(post_ns[0].children@ == m2ns[0].children@);
    assert(post_ns[0].children@[ka] == m2ns[0].children@[ka]);
    assert(edge_addr(post_ns, 0, g1 as int, g));
}

/// Two charges whose walks share the first frame, on a tree grown
/// from a single zeroed root: both land on one node for that frame,
/// which ends carrying both sizes in the category, as does the root.
pub proof fn lemma_two_walk_bumps(
    prens: Seq<Node>,
    m1ns: Seq<Node>,
    mid_ns: Seq<Node>,
    m2ns: Seq<Node>,
    post_ns: Seq<Node>,
    idxs1: Seq<usize>,
    idxs2: Seq<usize>,
    p1: Seq<u64>,
    p2: Seq<u64>,
    c: Category,
    s1: u64,
    s2: u64,
)
    requires
        prens.len() == 1,
        prens[0].totals == ct_zero(),
        wf(m1ns),
        grown_from(prens, m1ns),
        spec_walk(m1ns, p1) == Some(idxs1),
        idxs1.len() == p1.len() + 1,
        p1.len() >= 1,
        delta_effect(m1ns, mid_ns, idxs1, c, s1 as int),
        wf(m2ns),
        grown_from(mid_ns, m2ns),
        spec_walk(m2ns, p2) == Some(idxs2),
        idxs2.len() == p2.len() + 1,
        p2.len() >= 1,
        p2[0] == p1[0],
        delta_effect(m2ns, post_ns, idxs2, c, s2 as int),
        ct_value(mid_ns[0].totals) + s2 <= u64::MAX,
    ensures
        ct_get(post_ns[0].totals, c) == s1 + s2,
        exists|gi: int|
            0 < gi < post_ns.len() && edge_addr(post_ns, 0, gi, p1[0]) && ct_get(
                #[trigger] post_ns[gi].totals,
                c,
            ) == s1 + s2,
{
    lemma_first_bump(prens, m1ns, mid_ns, idxs1, p1, c, s1);
    let g1 = idxs1[1];
    lemma_second_bump(mid_ns, m2ns, post_ns, idxs2, p2, c, s2, g1, s1);
    assert(0 < g1 as int && (g1 as int) < post_ns.len() && edge_addr(
        post_ns,
        0,
        g1 as int,
        p1[0],
    ) && ct_get(post_ns[g1 as int].totals, c) == s1 + s2);
}

} // verus!

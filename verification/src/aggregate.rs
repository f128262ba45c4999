//! The stateful core: per-unit allocation state, per-category
//! trackers, and the event-to-tree application rules.
//!
//! Lost or reordered probe events are expected: a free without a
//! matching allocation, or a second allocation of a live unit, is an
//! inconsistency — counted, corrected by overwriting the recorded
//! state, and never fatal.

use vstd::prelude::*;
use std::collections::HashMap;
use crate::event::{Category, DecodedEvent, EventKind, Role, category_of, role_of, spec_category,
    spec_role};
use crate::history::{CatTotals, History, Node, bumped_node, ct_get, ct_set, ct_value,
    ct_zero, delta_effect, grown_from, keeps_node, lemma_alloc_free_round_trip,
    lemma_cs_sum_nonneg, lemma_follows_to_walk, lemma_path_le_root, lemma_walk_path_ok,
    lemma_walk_to_follows, cs_sum, on_path, spec_walk, walk_follows};

verus! {

broadcast use vstd::std_specs::hash::group_hash_axioms;

/// Lifecycle of one tracked unit (a page or slab object).
///
/// `Allocated` keeps the exact size and the root-first frame path the
/// bytes were attributed to, so the matching free reverses the exact
/// delta even when the free event reports no size.
pub enum AllocationState {
    Free,
    Allocated { size: u64, category: Category, path: Vec<u64> },
}

/// The most recently applied event's kind for a unit; diagnostic
/// only, it plays no part in accounting.
pub struct EventLast {
    pub kind: EventKind,
}

pub struct PageSlot {
    pub state: AllocationState,
    pub last: EventLast,
}

/// Address -> allocation state for every unit ever observed. Entries
/// are never removed (a freed unit stays as `Free`), so stale frees
/// and re-allocations remain detectable.
pub struct PageHistory {
    pub map: HashMap<u64, PageSlot>,
}

impl PageHistory {
    /// The recorded slot for one unit address, if it was ever
    /// observed.
    pub fn lookup(&self, addr: u64) -> (r: Option<&PageSlot>)
        ensures
            match r {
                Some(s) => self.map@.contains_key(addr) && *s == self.map@[addr],
                None => !self.map@.contains_key(addr),
            },
    {
        self.map.get(&addr)
    }
}

/// Per-category live bytes plus count of live allocations.
pub struct Tracker {
    pub live: u64,
    pub count: u64,
}

pub open spec fn slot_allocated(s: PageSlot) -> bool {
    s.state is Allocated
}

/// A unit counts as allocated when it was observed and its recorded
/// state is `Allocated`.
pub open spec fn spec_allocated(m: Map<u64, PageSlot>, a: u64) -> bool {
    m.contains_key(a) && slot_allocated(m[a])
}

/// Synthetic one-frame path for allocations that carried no stack,
/// bucketed by category. Real return addresses never take these
/// values.
pub open spec fn spec_bucket(c: Category) -> u64 {
    match c {
        Category::Page => 1,
        Category::Slab => 2,
        Category::Rss => 3,
        Category::Percpu => 4,
        Category::PageCache => 5,
    }
}

pub fn bucket_frame(c: Category) -> (r: u64)
    ensures
        r == spec_bucket(c),
{
    match c {
        Category::Page => 1,
        Category::Slab => 2,
        Category::Rss => 3,
        Category::Percpu => 4,
        Category::PageCache => 5,
    }
}

/// The aggregation engine: the call tree, the page history, the
/// per-category trackers and the inconsistency counter.
pub struct Aggregator {
    pub history: History,
    pub pages: PageHistory,
    /// Live bytes per category.
    pub live: CatTotals,
    /// Live allocation count per category.
    pub counts: CatTotals,
    /// Frees without a matching allocation, double allocations, and
    /// events dropped for counter headroom.
    pub inconsistencies: u64,
}

/// The tree and both trackers kept as they were.
pub open spec fn engine_unchanged(pre: Aggregator, post: Aggregator) -> bool {
    &&& post.history == pre.history
    &&& post.live == pre.live
    &&& post.counts == pre.counts
}

/// One more inconsistency, saturating at the counter's top.
pub open spec fn incon_bumped(pre: Aggregator, post: Aggregator) -> bool {
    post.inconsistencies == if pre.inconsistencies < u64::MAX {
        pre.inconsistencies + 1
    } else {
        pre.inconsistencies as int
    }
}

/// The frame path an allocation event is attributed to: the captured
/// stack reversed to root-first order, or the category's synthetic
/// bucket frame when no stack was captured.
pub open spec fn spec_alloc_path(ev: crate::event::EventModel) -> Seq<u64> {
    if ev.stack.len() > 0 {
        ev.stack.reverse()
    } else {
        seq![spec_bucket(spec_category(ev.kind))]
    }
}

/// One recorded allocation released: the stored size leaves every
/// node of the stored walk (own bytes at the leaf) and the
/// category's trackers. When the walk is missing or a counter would
/// underflow, nothing moves and the inconsistency is counted.
pub open spec fn release_rel(
    pre: Aggregator,
    post: Aggregator,
    size: u64,
    c: Category,
    path: Seq<u64>,
) -> bool {
    match spec_walk(pre.history.nodes@, path) {
        Some(idxs) => {
            let leaf = idxs[idxs.len() - 1] as int;
            if ct_get(pre.history.nodes@[leaf].own, c) >= size && ct_get(pre.live, c) >= size
                && ct_get(pre.counts, c) >= 1 {
                &&& delta_effect(pre.history.nodes@, post.history.nodes@, idxs, c, -(size as int))
                &&& post.live == ct_set(pre.live, c, (ct_get(pre.live, c) - size) as u64)
                &&& post.counts == ct_set(pre.counts, c, (ct_get(pre.counts, c) - 1) as u64)
                &&& post.inconsistencies == pre.inconsistencies
            } else {
                engine_unchanged(pre, post) && incon_bumped(pre, post)
            }
        },
        None => engine_unchanged(pre, post) && incon_bumped(pre, post),
    }
}

/// Fresh bytes attributed along a path: the tree grows the missing
/// nodes (zeroed), every walk node gains the size (own bytes at the
/// leaf), and the category's trackers rise. Only exhausted counter
/// headroom degrades to a counted inconsistency.
pub open spec fn charge_rel(
    pre: Aggregator,
    post: Aggregator,
    size: u64,
    c: Category,
    path: Seq<u64>,
) -> bool {
    if ct_value(pre.history.nodes@[0].totals) + size <= u64::MAX && ct_get(pre.live, c) + size
        <= u64::MAX && ct_get(pre.counts, c) < u64::MAX {
        &&& exists|mid: Seq<Node>, idxs: Seq<usize>|
            {
                &&& crate::history::wf(mid)
                &&& grown_from(pre.history.nodes@, mid)
                &&& #[trigger] spec_walk(mid, path) == Some(idxs)
                &&& idxs.len() == path.len() + 1
                &&& forall|j: int| pre.history.nodes@.len() <= j < mid.len() ==> on_path(idxs, j)
                &&& #[trigger] delta_effect(mid, post.history.nodes@, idxs, c, size as int)
                &&& spec_walk(post.history.nodes@, path) == Some(idxs)
            }
        &&& post.live == ct_set(pre.live, c, (ct_get(pre.live, c) + size) as u64)
        &&& post.counts == ct_set(pre.counts, c, (ct_get(pre.counts, c) + 1) as u64)
        &&& post.inconsistencies == pre.inconsistencies
    } else {
        engine_unchanged(pre, post) && incon_bumped(pre, post)
    }
}

/// What one applied event does to the engine, case by case.
pub open spec fn apply_rel(pre: Aggregator, post: Aggregator, ev: crate::event::EventModel) -> bool {
    match spec_role(ev.kind) {
        Role::Info => {
            &&& post.history == pre.history
            &&& post.pages == pre.pages
            &&& post.counts == pre.counts
            &&& post.inconsistencies == pre.inconsistencies
            &&& post.live == ct_set(pre.live, Category::Rss, ev.size)
        },
        Role::Free => {
            &&& post.pages.map@.contains_key(ev.addr)
            &&& post.pages.map@ == pre.pages.map@.insert(ev.addr, post.pages.map@[ev.addr])
            &&& !slot_allocated(post.pages.map@[ev.addr])
            &&& post.pages.map@[ev.addr].last.kind == ev.kind
            &&& if spec_allocated(pre.pages.map@, ev.addr) {
                match pre.pages.map@[ev.addr].state {
                    AllocationState::Allocated { size, category, path } => release_rel(
                        pre,
                        post,
                        size,
                        category,
                        path@,
                    ),
                    AllocationState::Free => false,
                }
            } else {
                engine_unchanged(pre, post) && incon_bumped(pre, post)
            }
        },
        Role::Alloc => {
            &&& post.pages.map@.contains_key(ev.addr)
            &&& post.pages.map@ == pre.pages.map@.insert(ev.addr, post.pages.map@[ev.addr])
            &&& match post.pages.map@[ev.addr].state {
                AllocationState::Allocated { size, category, path } => size == ev.size && category
                    == spec_category(ev.kind) && path@ == spec_alloc_path(ev),
                AllocationState::Free => false,
            }
            &&& post.pages.map@[ev.addr].last.kind == ev.kind
            &&& !spec_allocated(pre.pages.map@, ev.addr) ==> charge_rel(
                pre,
                post,
                ev.size,
                spec_category(ev.kind),
                spec_alloc_path(ev),
            )
        },
    }
}

impl Aggregator {
    pub open spec fn inv(&self) -> bool {
        self.history.wf()
    }

    pub fn new() -> (r: Aggregator)
        ensures
            r.inv(),
            r.history.nodes@.len() == 1,
            r.history.nodes@[0].own == ct_zero(),
            r.history.nodes@[0].totals == ct_zero(),
            r.history.nodes@[0].children@.len() == 0,
            r.live == ct_zero(),
            r.counts == ct_zero(),
            r.inconsistencies == 0,
            r.pages.map@ == Map::<u64, PageSlot>::empty(),
    {
        Aggregator {
            history: History::new(),
            pages: PageHistory { map: HashMap::new() },
            live: CatTotals::zero(),
            counts: CatTotals::zero(),
            inconsistencies: 0,
        }
    }

    pub fn tracker(&self, c: Category) -> (r: Tracker)
        ensures
            r.live == ct_get(self.live, c),
            r.count == ct_get(self.counts, c),
    {
        Tracker { live: self.live.get(c), count: self.counts.get(c) }
    }

    pub fn inconsistency_count(&self) -> (r: u64)
        ensures
            r == self.inconsistencies,
    {
        self.inconsistencies
    }

    fn note_inconsistency(&mut self)
        ensures
            final(self).inconsistencies == if old(self).inconsistencies < u64::MAX {
                old(self).inconsistencies + 1
            } else {
                old(self).inconsistencies as int
            },
            final(self).history == old(self).history,
            final(self).pages == old(self).pages,
            final(self).live == old(self).live,
            final(self).counts == old(self).counts,
    {
        if self.inconsistencies < u64::MAX {
            self.inconsistencies = self.inconsistencies + 1;
        }
    }

    /// Reverse one recorded allocation: decrement the stored path by
    /// the stored size. A missing path, or a counter that would
    /// underflow, is an inconsistency and leaves the counters alone.
    fn release(&mut self, size: u64, c: Category, path: &Vec<u64>)
        requires
            old(self).inv(),
        ensures
            final(self).inv(),
            final(self).pages == old(self).pages,
            final(self).history.nodes@.len() == old(self).history.nodes@.len(),
            release_rel(*old(self), *final(self), size, c, path@),
    {
        let idxs = match self.history.find_path(path) {
            Some(idxs) => idxs,
            None => {
                self.note_inconsistency();
                return ;
            },
        };
        let leaf = idxs[idxs.len() - 1];
        let leaf_own = self.history.nodes[leaf].own.get(c);
        if leaf_own >= size && self.live.get(c) >= size && self.counts.get(c) >= 1 {
            self.history.sub_along(&idxs, c, size);
            self.live.decr(c, size);
            self.counts.decr(c, 1);
        } else {
            self.note_inconsistency();
        }
    }

    /// Attribute `size` fresh bytes of category `c` to `path`,
    /// creating tree nodes as needed. Fails (as an inconsistency)
    /// only when a counter has no headroom left.
    fn charge(&mut self, size: u64, c: Category, path: &Vec<u64>)
        requires
            old(self).inv(),
        ensures
            final(self).inv(),
            final(self).pages == old(self).pages,
            final(self).history.nodes@.len() >= old(self).history.nodes@.len(),
            (ct_value(old(self).history.nodes@[0].totals) + size <= u64::MAX && ct_get(
                old(self).live,
                c,
            ) + size <= u64::MAX && ct_get(old(self).counts, c) < u64::MAX) ==> {
                &&& final(self).live == ct_set(
                    old(self).live,
                    c,
                    (ct_get(old(self).live, c) + size) as u64,
                )
                &&& final(self).counts == ct_set(
                    old(self).counts,
                    c,
                    (ct_get(old(self).counts, c) + 1) as u64,
                )
                &&& ct_value(final(self).history.nodes@[0].totals) == ct_value(
                    old(self).history.nodes@[0].totals,
                ) + size
                &&& final(self).inconsistencies == old(self).inconsistencies
            },
            charge_rel(*old(self), *final(self), size, c, path@),
    {
        let ghost ns_pre = self.history.nodes@;
        let root_value = self.history.nodes[0].totals.value();
        if size > u64::MAX - root_value || self.live.get(c) > u64::MAX - size || self.counts.get(c)
            == u64::MAX {
            self.note_inconsistency();
            return ;
        }
        let idxs = self.history.ensure_path(path);
        proof {
            assert(keeps_node(ns_pre[0], self.history.nodes@[0]));
            assert(self.history.nodes@[0].totals == ns_pre[0].totals);
            assert(idxs@[0] == 0);
        }
        let ghost ns_mid = self.history.nodes@;
        self.history.add_along(&idxs, c, size);
        proof {
            assert(on_path(idxs@, 0)) by {
                assert(idxs@[0] as int == 0);
            }
            assert(self.history.nodes@[0] == bumped_node(
                ns_mid[0],
                c,
                size as int,
                0 == idxs@.len() - 1,
            ));
            assert(ct_value(self.history.nodes@[0].totals) == ct_value(ns_pre[0].totals) + size);
        }
        self.live.incr(c, size);
        self.counts.incr(c, 1);
        proof {
            let post_ns = self.history.nodes@;
            assert(delta_effect(ns_mid, post_ns, idxs@, c, size as int));
            assert(walk_follows(post_ns, path@, idxs@)) by {
                assert forall|m: int| 0 <= m < idxs@.len() implies (#[trigger] idxs@[m])
                    < post_ns.len() by {}
                assert forall|m: int| 0 <= m < path@.len() implies crate::history::edge_addr(
                    post_ns,
                    (#[trigger] idxs@[m]) as int,
                    idxs@[m + 1] as int,
                    path@[m],
                ) by {
                    assert(crate::history::edge_addr(
                        ns_mid,
                        idxs@[m] as int,
                        idxs@[m + 1] as int,
                        path@[m],
                    ));
                    let ke = choose|ke: int|
                        0 <= ke < ns_mid[idxs@[m] as int].children@.len() && ns_mid[idxs@[
                            m] as int].children@[ke].idx as int == idxs@[m + 1] as int && ns_mid[
                            idxs@[m] as int].children@[ke].addr == path@[m];
                    assert(on_path(idxs@, idxs@[m] as int)) by {
                        assert(idxs@[m] as int == idxs@[m] as int);
                    }
                    assert(post_ns[idxs@[m] as int].children@ == ns_mid[idxs@[
                        m] as int].children@) by {
                        let mm = choose|mm: int|
                            0 <= mm < idxs@.len() && (#[trigger] idxs@[mm]) as int == idxs@[
                                m] as int;
                        assert(post_ns[idxs@[m] as int] == bumped_node(
                            ns_mid[idxs@[m] as int],
                            c,
                            size as int,
                            mm == idxs@.len() - 1,
                        ));
                    }
                    assert(post_ns[idxs@[m] as int].children@[ke] == ns_mid[idxs@[
                        m] as int].children@[ke]);
                }
            }
            lemma_follows_to_walk(post_ns, path@, idxs@);
            assert(spec_walk(post_ns, path@) == Some(idxs@));
            assert(charge_rel(*old(self), *self, size, c, path@)) by {
                assert(crate::history::wf(ns_mid));
                assert(grown_from(ns_pre, ns_mid));
                assert(spec_walk(ns_mid, path@) == Some(idxs@));
            }
        }
    }

    /// Apply one decoded event to the running state.
    ///
    /// A free for a unit never seen as allocated decrements nothing:
    /// it is recorded as an inconsistency and the unit is remembered
    /// as `Free`. An allocation of a unit already live reverses the
    /// old record before the new one is applied. An informational
    /// event overwrites the rss tracker with the reported absolute
    /// value and touches nothing else.
    pub fn apply(&mut self, ev: DecodedEvent)
        requires
            old(self).inv(),
        ensures
            final(self).inv(),
            spec_role(ev.kind) == Role::Info ==> final(self).history == old(self).history
                && final(self).pages == old(self).pages && final(self).counts == old(self).counts
                && final(self).live == ct_set(old(self).live, Category::Rss, ev.size)
                && final(self).inconsistencies == old(self).inconsistencies,
            spec_role(ev.kind) == Role::Free && !spec_allocated(old(self).pages.map@, ev.addr)
                ==> final(self).history == old(self).history && final(self).live == old(self).live
                && final(self).counts == old(self).counts && final(self).inconsistencies == (
            if old(self).inconsistencies < u64::MAX {
                old(self).inconsistencies + 1
            } else {
                old(self).inconsistencies as int
            }) && final(self).pages.map@ == old(self).pages.map@.insert(
                ev.addr,
                final(self).pages.map@[ev.addr],
            ) && !slot_allocated(final(self).pages.map@[ev.addr]),
            (spec_role(ev.kind) == Role::Alloc && !spec_allocated(old(self).pages.map@, ev.addr)
                && ct_value(old(self).history.nodes@[0].totals) + ev.size <= u64::MAX && ct_get(
                old(self).live,
                spec_category(ev.kind),
            ) + ev.size <= u64::MAX && ct_get(old(self).counts, spec_category(ev.kind))
                < u64::MAX) ==> {
                &&& final(self).live == ct_set(
                    old(self).live,
                    spec_category(ev.kind),
                    (ct_get(old(self).live, spec_category(ev.kind)) + ev.size) as u64,
                )
                &&& final(self).counts == ct_set(
                    old(self).counts,
                    spec_category(ev.kind),
                    (ct_get(old(self).counts, spec_category(ev.kind)) + 1) as u64,
                )
                &&& ct_value(final(self).history.nodes@[0].totals) == ct_value(
                    old(self).history.nodes@[0].totals,
                ) + ev.size
                &&& final(self).inconsistencies == old(self).inconsistencies
                &&& spec_allocated(final(self).pages.map@, ev.addr)
            },
            apply_rel(*old(self), *final(self), ev@),
    {
        let ghost pre0 = *old(self);
        let kind = ev.kind;
        let c = category_of(kind);
        match role_of(kind) {
            Role::Info => {
                self.live.put(Category::Rss, ev.size);
            },
            Role::Alloc => {
                let mut path: Vec<u64> = Vec::new();
                if ev.stack.len() > 0 {
                    let n = ev.stack.len();
                    let mut i: usize = 0;
                    while i < n
                        invariant
                            n == ev.stack@.len(),
                            i <= n,
                            path@.len() == i,
                            forall|k: int| 0 <= k < i ==> path@[k] == ev.stack@[n - 1 - k],
                        decreases n - i,
                    {
                        path.push(ev.stack[n - 1 - i]);
                        i = i + 1;
                    }
                } else {
                    path.push(bucket_frame(c));
                }
                proof {
                    if ev@.stack.len() > 0 {
                        assert(path@ =~= ev@.stack.reverse());
                    } else {
                        assert(path@ =~= seq![spec_bucket(spec_category(ev.kind))]);
                    }
                    assert(path@ == spec_alloc_path(ev@));
                }
                let prev = self.pages.map.insert(
                    ev.addr,
                    PageSlot {
                        state: AllocationState::Allocated {
                            size: ev.size,
                            category: c,
                            path: path_copy(&path),
                        },
                        last: EventLast { kind },
                    },
                );
                let ghost mid_ins = *self;
                if let Some(slot) = prev {
                    match slot.state {
                        AllocationState::Allocated { size, category, path: old_path } => {
                            self.note_inconsistency();
                            self.release(size, category, &old_path);
                        },
                        AllocationState::Free => {},
                    }
                }
                let ghost before_charge = *self;
                self.charge(ev.size, c, &path);
                proof {
                    assert(self.pages == before_charge.pages);
                    assert(self.pages.map@ == pre0.pages.map@.insert(
                        ev.addr,
                        self.pages.map@[ev.addr],
                    ));
                    if !spec_allocated(pre0.pages.map@, ev.addr) {
                        assert(before_charge.history == pre0.history
                            && before_charge.live == pre0.live && before_charge.counts
                            == pre0.counts && before_charge.inconsistencies
                            == pre0.inconsistencies);
                        assert(charge_rel(before_charge, *self, ev.size, c, path@));
                        assert(charge_rel(pre0, *self, ev.size, c, path@));
                    }
                    assert(apply_rel(pre0, *self, ev@));
                }
            },
            Role::Free => {
                let prev = self.pages.map.insert(
                    ev.addr,
                    PageSlot { state: AllocationState::Free, last: EventLast { kind } },
                );
                let ghost mid_ins = *self;
                match prev {
                    Some(slot) => match slot.state {
                        AllocationState::Allocated { size, category, path } => {
                            proof {
                                assert(slot == pre0.pages.map@[ev.addr]);
                                assert(spec_allocated(pre0.pages.map@, ev.addr));
                            }
                            self.release(size, category, &path);
                            proof {
                                assert(release_rel(mid_ins, *self, size, category, path@));
                                assert(mid_ins.history == pre0.history && mid_ins.live
                                    == pre0.live && mid_ins.counts == pre0.counts
                                    && mid_ins.inconsistencies == pre0.inconsistencies);
                                assert(release_rel(pre0, *self, size, category, path@));
                            }
                        },
                        AllocationState::Free => {
                            self.note_inconsistency();
                        },
                    },
                    None => {
                        self.note_inconsistency();
                    },
                }
                proof {
                    assert(self.pages.map@ == pre0.pages.map@.insert(
                        ev.addr,
                        self.pages.map@[ev.addr],
                    ));
                    assert(apply_rel(pre0, *self, ev@));
                }
            },
        }
    }
}

/// An owned copy of a frame path, element for element.
fn path_copy(path: &Vec<u64>) -> (r: Vec<u64>)
    ensures
        r@ == path@,
{
    let mut r: Vec<u64> = Vec::new();
    let n = path.len();
    let mut i: usize = 0;
    while i < n
        invariant
            n == path@.len(),
            i <= n,
            r@ =~= path@.subrange(0, i as int),
        decreases n - i,
    {
        r.push(path[i]);
        i = i + 1;
    }
    proof {
        assert(r@ =~= path@);
    }
    r
}

} // verus!

verus! {

/// Applying an allocation and then the matching free for the same
/// address returns every touched counter to its value before the
/// pair: both trackers, the inconsistency count, and every tree
/// node's bytes — nodes that existed keep theirs, nodes the
/// allocation created end at zero. The tree's shape stays (it is
/// monotonic).
#[verifier::rlimit(100)]
#[verifier::spinoff_prover]
pub proof fn lemma_apply_round_trip(
    pre: Aggregator,
    mid: Aggregator,
    post: Aggregator,
    ev_a: crate::event::EventModel,
    ev_f: crate::event::EventModel,
)
    requires
        pre.inv(),
        mid.inv(),
        apply_rel(pre, mid, ev_a),
        apply_rel(mid, post, ev_f),
        spec_role(ev_a.kind) == Role::Alloc,
        spec_role(ev_f.kind) == Role::Free,
        ev_f.addr == ev_a.addr,
        !spec_allocated(pre.pages.map@, ev_a.addr),
        ct_value(pre.history.nodes@[0].totals) + ev_a.size <= u64::MAX,
        ct_get(pre.live, spec_category(ev_a.kind)) + ev_a.size <= u64::MAX,
        ct_get(pre.counts, spec_category(ev_a.kind)) < u64::MAX,
    ensures
        post.live == pre.live,
        post.counts == pre.counts,
        post.inconsistencies == pre.inconsistencies,
        post.history.nodes@.len() >= pre.history.nodes@.len(),
        forall|j: int|
            0 <= j < pre.history.nodes@.len() ==> post.history.nodes@[j].totals == (
            #[trigger] pre.history.nodes@[j]).totals && post.history.nodes@[j].own
                == pre.history.nodes@[j].own,
        forall|j: int|
            pre.history.nodes@.len() <= j < post.history.nodes@.len() ==> (
            #[trigger] post.history.nodes@[j]).totals == ct_zero() && post.history.nodes@[j].own
                == ct_zero(),
{
    let c = spec_category(ev_a.kind);
    let s = ev_a.size;
    let p = spec_alloc_path(ev_a);
    let prens = pre.history.nodes@;
    let mid_ns = mid.history.nodes@;
    let post_ns = post.history.nodes@;
    assert(charge_rel(pre, mid, s, c, p));
    let (midns, idxs): (Seq<Node>, Seq<usize>) = choose|mid2: Seq<Node>, idxs: Seq<usize>|
        {
            &&& crate::history::wf(mid2)
            &&& grown_from(prens, mid2)
            &&& #[trigger] spec_walk(mid2, p) == Some(idxs)
            &&& idxs.len() == p.len() + 1
            &&& forall|j: int| prens.len() <= j < mid2.len() ==> on_path(idxs, j)
            &&& #[trigger] delta_effect(mid2, mid_ns, idxs, c, s as int)
            &&& spec_walk(mid_ns, p) == Some(idxs)
        };
    let last = idxs.len() - 1;
    let leaf = idxs[last] as int;
    assert(on_path(idxs, leaf)) by {
        assert(idxs[last] as int == leaf);
    }
    assert(mid_ns[leaf] == bumped_node(midns[leaf], c, s as int, true));
    assert(spec_allocated(mid.pages.map@, ev_f.addr));
    match mid.pages.map@[ev_f.addr].state {
        AllocationState::Allocated { size, category, path } => {
            assert(size == s && category == c && path@ == p);
            assert(release_rel(mid, post, size, category, path@));
            assert(ct_get(mid.live, c) == ct_get(pre.live, c) + s);
            assert(ct_get(mid.counts, c) == ct_get(pre.counts, c) + 1);
            assert(ct_get(midns[leaf].own, c) + s <= u64::MAX && ct_get(mid_ns[leaf].own, c)
                >= s) by {
                lemma_walk_to_follows(midns, p, idxs);
                lemma_walk_path_ok(midns, p, idxs);
                assert(leaf < midns.len());
                crate::history::lemma_cs_sum_nonneg(midns, midns[leaf].children@, c);
                assert(ct_get(midns[leaf].totals, c) == ct_get(midns[leaf].own, c) + cs_sum(
                    midns,
                    midns[leaf].children@,
                    c,
                ));
                lemma_path_le_root(midns, idxs, c, last);
                assert(idxs[0] == 0);
                assert(ct_get(midns[0].totals, c) <= ct_value(midns[0].totals));
                assert(ct_value(midns[0].totals) == ct_value(prens[0].totals)) by {
                    assert(keeps_node(prens[0], midns[0]));
                }
            }
            assert(delta_effect(mid_ns, post_ns, idxs, c, -(s as int)));
            crate::history::lemma_charge_release_cancel(
                prens,
                midns,
                mid_ns,
                post_ns,
                idxs,
                p,
                c,
                s,
            );
            assert(post.live == ct_set(pre.live, c, ct_get(pre.live, c)));
            assert(post.live == pre.live);
            assert(post.counts == ct_set(pre.counts, c, ct_get(pre.counts, c)));
            assert(post.counts == pre.counts);
        },
        AllocationState::Free => {
            assert(false);
        },
    }
}

} // verus!
verus! {

/// Two allocations whose stacks share their first (root-most) frame,
/// applied to a fresh engine, both land on one node for that frame:
/// it carries the sum of both sizes in their category, and so does
/// the root. With both allocations in one category, that node's
/// whole value in the category is the sum (the all-slab case of the
/// shared parent).
#[verifier::rlimit(100)]
#[verifier::spinoff_prover]
pub proof fn lemma_two_charges_shared_parent(
    pre: Aggregator,
    mid: Aggregator,
    post: Aggregator,
    s1: u64,
    s2: u64,
    c: Category,
    p1: Seq<u64>,
    p2: Seq<u64>,
)
    requires
        pre.inv(),
        mid.inv(),
        post.inv(),
        charge_rel(pre, mid, s1, c, p1),
        charge_rel(mid, post, s2, c, p2),
        p1.len() >= 1,
        p2.len() >= 1,
        p1[0] == p2[0],
        pre.history.nodes@.len() == 1,
        ct_value(pre.history.nodes@[0].totals) + s1 <= u64::MAX,
        ct_get(pre.live, c) + s1 <= u64::MAX,
        ct_get(pre.counts, c) < u64::MAX,
        ct_value(mid.history.nodes@[0].totals) + s2 <= u64::MAX,
        ct_get(mid.live, c) + s2 <= u64::MAX,
        ct_get(mid.counts, c) < u64::MAX,
        pre.history.nodes@[0].totals == ct_zero(),
    ensures
        ct_get(post.history.nodes@[0].totals, c) == s1 + s2,
        exists|gi: int|
            0 < gi < post.history.nodes@.len() && crate::history::edge_addr(
                post.history.nodes@,
                0,
                gi,
                p1[0],
            ) && ct_get(#[trigger] post.history.nodes@[gi].totals, c) == s1 + s2,
{
    let prens = pre.history.nodes@;
    let mid_ns = mid.history.nodes@;
    let post_ns = post.history.nodes@;
    let (m1ns, idxs1): (Seq<Node>, Seq<usize>) = choose|mid2: Seq<Node>, idxs: Seq<usize>|
        {
            &&& crate::history::wf(mid2)
            &&& grown_from(prens, mid2)
            &&& #[trigger] spec_walk(mid2, p1) == Some(idxs)
            &&& idxs.len() == p1.len() + 1
            &&& forall|j: int| prens.len() <= j < mid2.len() ==> on_path(idxs, j)
            &&& #[trigger] delta_effect(mid2, mid_ns, idxs, c, s1 as int)
            &&& spec_walk(mid_ns, p1) == Some(idxs)
        };
    let (m2ns, idxs2): (Seq<Node>, Seq<usize>) = choose|mid2: Seq<Node>, idxs: Seq<usize>|
        {
            &&& crate::history::wf(mid2)
            &&& grown_from(mid_ns, mid2)
            &&& #[trigger] spec_walk(mid2, p2) == Some(idxs)
            &&& idxs.len() == p2.len() + 1
            &&& forall|j: int| mid_ns.len() <= j < mid2.len() ==> on_path(idxs, j)
            &&& #[trigger] delta_effect(mid2, post_ns, idxs, c, s2 as int)
            &&& spec_walk(post_ns, p2) == Some(idxs)
        };
    crate::history::lemma_two_walk_bumps(
        prens,
        m1ns,
        mid_ns,
        m2ns,
        post_ns,
        idxs1,
        idxs2,
        p1,
        p2,
        c,
        s1,
        s2,
    );
}

} // verus!


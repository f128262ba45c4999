//! Read-only query surface: a pruned, symbolized projection of the
//! call tree, built fresh per query.

use vstd::prelude::*;
use crate::history::{History, Node, ChildRef, ct_value, wf};
use crate::stack::StackResolver;

verus! {

/// The externally visible shape of one tree node: a display label,
/// the total live bytes (`value`), the slab subset (`cacheValue`)
/// and the kept children, in child order.
pub struct FrameReport {
    pub symbol: String,
    pub value: u64,
    pub cache_value: u64,
    pub frames: Vec<FrameReport>,
}

/// The child indices a query keeps: children in order, minus those
/// whose whole subtree value falls below the threshold.
pub open spec fn kept(ns: Seq<Node>, ch: Seq<ChildRef>, threshold: u64) -> Seq<int>
    decreases ch.len(),
{
    if ch.len() == 0 {
        Seq::empty()
    } else {
        let rest = kept(ns, ch.drop_first(), threshold);
        if ct_value(ns[ch[0].idx as int].totals) >= threshold {
            seq![ch[0].idx as int] + rest
        } else {
            rest
        }
    }
}

/// The report at `rep` faithfully projects the subtree at node `i`:
/// the stored counters become `value` and `cacheValue`, and exactly
/// the children at or above the threshold appear, recursively.
pub open spec fn rep_matches(ns: Seq<Node>, i: int, rep: FrameReport, threshold: u64) -> bool
    decreases rep,
{
    &&& rep.value == ct_value(ns[i].totals)
    &&& rep.cache_value == ns[i].totals.slab
    &&& rep.frames@.len() == kept(ns, ns[i].children@, threshold).len()
    &&& forall|t: int|
        0 <= t < rep.frames@.len() ==> rep_matches(
            ns,
            kept(ns, ns[i].children@, threshold)[t],
            #[trigger] rep.frames@[t],
            threshold,
        )
}

/// Every node of the report carries the display label the resolver
/// gives its frame, recursively.
pub open spec fn rep_labeled(
    rv: StackResolver,
    ns: Seq<Node>,
    i: int,
    rep: FrameReport,
    threshold: u64,
) -> bool
    decreases rep,
{
    &&& rv.labeled(ns[i].frame, rep.symbol@)
    &&& forall|t: int|
        0 <= t < rep.frames@.len() ==> rep_labeled(
            rv,
            ns,
            kept(ns, ns[i].children@, threshold)[t],
            #[trigger] rep.frames@[t],
            threshold,
        )
}

/// Everything a query keeps sits at or above the threshold.
pub proof fn lemma_no_pruned_child(ns: Seq<Node>, i: int, rep: FrameReport, threshold: u64)
    requires
        rep_matches(ns, i, rep, threshold),
    ensures
        forall|t: int|
            0 <= t < rep.frames@.len() ==> (#[trigger] rep.frames@[t]).value >= threshold,
{
    assert forall|t: int|
        0 <= t < rep.frames@.len() implies (#[trigger] rep.frames@[t]).value >= threshold by {
        lemma_kept_ge(ns, ns[i].children@, threshold, t);
        assert(rep_matches(ns, kept(ns, ns[i].children@, threshold)[t], rep.frames@[t], threshold));
    }
}

proof fn lemma_kept_ge(ns: Seq<Node>, ch: Seq<ChildRef>, threshold: u64, t: int)
    requires
        0 <= t < kept(ns, ch, threshold).len(),
    ensures
        ct_value(ns[kept(ns, ch, threshold)[t]].totals) >= threshold,
    decreases ch.len(),
{
    if ch.len() > 0 {
        let rest = kept(ns, ch.drop_first(), threshold);
        if ct_value(ns[ch[0].idx as int].totals) >= threshold {
            if t > 0 {
                lemma_kept_ge(ns, ch.drop_first(), threshold, t - 1);
            }
        } else {
            lemma_kept_ge(ns, ch.drop_first(), threshold, t);
        }
    }
}

/// With a threshold of zero nothing is pruned: the query keeps every
/// child, so the full tree is reproduced.
pub proof fn lemma_zero_threshold_keeps_all(ns: Seq<Node>, ch: Seq<ChildRef>)
    ensures
        kept(ns, ch, 0).len() == ch.len(),
        forall|t: int| 0 <= t < ch.len() ==> kept(ns, ch, 0)[t] == (#[trigger] ch[t]).idx as int,
    decreases ch.len(),
{
    if ch.len() > 0 {
        lemma_zero_threshold_keeps_all(ns, ch.drop_first());
        assert(forall|t: int|
            0 <= t < ch.drop_first().len() ==> #[trigger] ch.drop_first()[t] == ch[t + 1]);
        let rest = kept(ns, ch.drop_first(), 0);
        assert(ct_value(ns[ch[0].idx as int].totals) >= 0);
        assert(kept(ns, ch, 0) == seq![ch[0].idx as int] + rest);
        assert forall|t: int| 0 <= t < ch.len() implies kept(ns, ch, 0)[t] == (
        #[trigger] ch[t]).idx as int by {
            if t > 0 {
                assert(kept(ns, ch, 0)[t] == rest[t - 1]);
                assert(rest[t - 1] == ch.drop_first()[t - 1].idx as int);
            }
        }
    }
}

/// Read-only reporting over the aggregator's tree.
pub struct Reporter;

impl Reporter {
    /// Build the query result: walk the tree from the root, label
    /// each node through the resolver, and omit every subtree whose
    /// total value falls below `threshold`. The result shares no
    /// state with the live tree.
    pub fn tree(h: &History, resolver: &StackResolver, threshold: u64) -> (r: FrameReport)
        requires
            h.wf(),
            resolver.wf(),
        ensures
            rep_matches(h.nodes@, 0, r, threshold),
            rep_labeled(*resolver, h.nodes@, 0, r, threshold),
    {
        Reporter::build(&h.nodes, 0, resolver, threshold)
    }

    fn build(nodes: &Vec<Node>, i: usize, resolver: &StackResolver, threshold: u64) -> (r:
        FrameReport)
        requires
            wf(nodes@),
            resolver.wf(),
            i < nodes@.len(),
        ensures
            rep_matches(nodes@, i as int, r, threshold),
            rep_labeled(*resolver, nodes@, i as int, r, threshold),
        decreases nodes@.len() - i,
    {
        let node = &nodes[i];
        let symbol = resolver.display_one(node.frame);
        let value = node.totals.value();
        let cache_value = node.totals.slab;
        let mut frames: Vec<FrameReport> = Vec::new();
        let ghost ch = nodes@[i as int].children@;
        let nch = node.children.len();
        let mut k: usize = 0;
        while k < nch
            invariant
                wf(nodes@),
                resolver.wf(),
                i < nodes@.len(),
                ch == nodes@[i as int].children@,
                node == &nodes@[i as int],
                nch == ch.len(),
                k <= nch,
                frames@.len() == kept(nodes@, ch.take(k as int), threshold).len(),
                forall|t: int|
                    0 <= t < frames@.len() ==> rep_matches(
                        nodes@,
                        kept(nodes@, ch.take(k as int), threshold)[t],
                        #[trigger] frames@[t],
                        threshold,
                    ),
                forall|t: int|
                    0 <= t < frames@.len() ==> rep_labeled(
                        *resolver,
                        nodes@,
                        kept(nodes@, ch.take(k as int), threshold)[t],
                        #[trigger] frames@[t],
                        threshold,
                    ),
            decreases nch - k,
        {
            let cr = node.children[k];
            proof {
                assert(cr == ch[k as int]);
                assert(i < cr.idx < nodes@.len());
            }
            let child_value = nodes[cr.idx].totals.value();
            if child_value >= threshold {
                let sub = Reporter::build(nodes, cr.idx, resolver, threshold);
                frames.push(sub);
            }
            proof {
                lemma_kept_take_step(nodes@, ch, threshold, k as int);
            }
            k = k + 1;
        }
        proof {
            assert(ch.take(nch as int) =~= ch);
        }
        FrameReport { symbol, value, cache_value, frames }
    }
}

/// Walking one child forward extends the kept list by that child or
/// leaves it unchanged.
proof fn lemma_kept_take_step(ns: Seq<Node>, ch: Seq<ChildRef>, threshold: u64, k: int)
    requires
        0 <= k < ch.len(),
    ensures
        kept(ns, ch.take(k + 1), threshold) == if ct_value(ns[ch[k].idx as int].totals)
            >= threshold {
            kept(ns, ch.take(k), threshold).push(ch[k].idx as int)
        } else {
            kept(ns, ch.take(k), threshold)
        },
    decreases k,
{
    if k == 0 {
        let s1 = ch.take(1);
        assert(s1.len() == 1);
        assert(s1[0] == ch[0]);
        assert(s1.drop_first() =~= Seq::<ChildRef>::empty());
        assert(kept(ns, s1.drop_first(), threshold) == Seq::<int>::empty());
        assert(ch.take(0) =~= Seq::<ChildRef>::empty());
        assert(kept(ns, ch.take(0), threshold) == Seq::<int>::empty());
        if ct_value(ns[ch[0].idx as int].totals) >= threshold {
            assert(kept(ns, s1, threshold) == seq![s1[0].idx as int] + kept(
                ns,
                s1.drop_first(),
                threshold,
            ));
            assert(kept(ns, s1, threshold) =~= seq![ch[0].idx as int]);
            assert(kept(ns, ch.take(0), threshold).push(ch[0].idx as int) =~= seq![
                ch[0].idx as int]);
        } else {
            assert(kept(ns, s1, threshold) == kept(ns, s1.drop_first(), threshold));
        }
    } else {
        lemma_kept_take_step(ns, ch.drop_first(), threshold, k - 1);
        assert(ch.take(k + 1).drop_first() =~= ch.drop_first().take(k));
        assert(ch.take(k).drop_first() =~= ch.drop_first().take(k - 1));
        assert(ch.take(k + 1)[0] == ch[0]);
        assert(ch.take(k)[0] == ch[0]);
        assert(ch.drop_first()[k - 1] == ch[k]);
        if ct_value(ns[ch[0].idx as int].totals) >= threshold {
            if ct_value(ns[ch[k].idx as int].totals) >= threshold {
                assert(kept(ns, ch.take(k + 1), threshold) =~= kept(
                    ns,
                    ch.take(k),
                    threshold,
                ).push(ch[k].idx as int));
            }
        } else {
            if ct_value(ns[ch[k].idx as int].totals) >= threshold {
                assert(kept(ns, ch.take(k + 1), threshold) =~= kept(
                    ns,
                    ch.take(k),
                    threshold,
                ).push(ch[k].idx as int));
            }
        }
    }
}

} // verus!

use memprof::aggregate::Aggregator;
use memprof::consumer::Consumer;
use memprof::event::{decode, Category, DecodeError, DecodedEvent, EventKind};
use memprof::report::{FrameReport, Reporter};
use memprof::stack::StackResolver;

fn record(discr: u32, pid: u32, payload: &[u64], stack: &[u64]) -> Vec<u8> {
    let mut v = Vec::new();
    v.extend_from_slice(&[0u8; 8]);
    v.extend_from_slice(&pid.to_le_bytes());
    v.extend_from_slice(&discr.to_le_bytes());
    for p in payload {
        v.extend_from_slice(&p.to_le_bytes());
    }
    v.extend_from_slice(&(stack.len() as u64).to_le_bytes());
    for a in stack {
        v.extend_from_slice(&a.to_le_bytes());
    }
    v
}

#[test]
fn decode_page_alloc() {
    let raw = record(1, 7, &[0x1000, 4096], &[0x33, 0x22, 0x11]);
    let ev = match decode(&raw) {
        Ok(ev) => ev,
        Err(e) => panic!("decode failed: {:?}", e),
    };
    assert!(matches!(ev.kind, EventKind::PageAlloc));
    assert_eq!(ev.pid, 7);
    assert_eq!(ev.addr, 0x1000);
    assert_eq!(ev.size, 4096);
    assert_eq!(ev.stack, vec![0x33, 0x22, 0x11]);
}

#[test]
fn decode_free_has_no_size() {
    let raw = record(2, 7, &[0x1000], &[]);
    let ev = match decode(&raw) {
        Ok(ev) => ev,
        Err(e) => panic!("decode failed: {:?}", e),
    };
    assert!(matches!(ev.kind, EventKind::PageFree));
    assert_eq!(ev.addr, 0x1000);
    assert_eq!(ev.size, 0);
    assert!(ev.stack.is_empty());
}

#[test]
fn decode_truncated() {
    let raw = record(1, 7, &[0x1000, 4096], &[0x33]);
    assert!(matches!(decode(&raw[..raw.len() - 1]), Err(DecodeError::Truncated)));
    assert!(matches!(decode(&[0u8; 4]), Err(DecodeError::Truncated)));
}

#[test]
fn decode_unknown_kind() {
    let raw = record(99, 7, &[0x1000, 4096], &[]);
    assert!(matches!(decode(&raw), Err(DecodeError::UnknownKind)));
}

#[test]
fn decode_bad_stack_length() {
    let mut raw = record(1, 7, &[0x1000, 4096], &[0x33]);
    // declare two frames but carry one
    let p = 0x10 + 16;
    raw[p..p + 8].copy_from_slice(&2u64.to_le_bytes());
    assert!(matches!(decode(&raw), Err(DecodeError::Truncated)));
}

fn tree_of(agg: &Aggregator, threshold: u64) -> FrameReport {
    let resolver = StackResolver::new();
    Reporter::tree(&agg.history, &resolver, threshold)
}

#[test]
fn page_alloc_free_round_trip() {
    let mut cli = Consumer::new();
    cli.arrive(&record(1, 7, &[0xA000, 4096], &[0x33, 0x22, 0x11]));
    let t = tree_of(&cli.aggregator, 0);
    assert_eq!(t.value, 4096);
    assert_eq!(t.cache_value, 0);
    // path root -> f1 -> f2 -> f3, each carrying the whole value
    assert_eq!(t.frames.len(), 1);
    let f1 = &t.frames[0];
    assert_eq!(f1.value, 4096);
    assert_eq!(f1.cache_value, 0);
    let f2 = &f1.frames[0];
    assert_eq!(f2.value, 4096);
    let f3 = &f2.frames[0];
    assert_eq!(f3.value, 4096);
    assert!(f3.frames.is_empty());
    assert_eq!(cli.aggregator.tracker(Category::Page).live, 4096);
    assert_eq!(cli.aggregator.tracker(Category::Page).count, 1);

    cli.arrive(&record(2, 7, &[0xA000], &[]));
    let t = tree_of(&cli.aggregator, 0);
    assert_eq!(t.value, 0);
    // the nodes still exist (the tree is monotonic), at value zero
    let f1 = &t.frames[0];
    let f2 = &f1.frames[0];
    let f3 = &f2.frames[0];
    assert_eq!(f1.value, 0);
    assert_eq!(f2.value, 0);
    assert_eq!(f3.value, 0);
    assert!(f3.frames.is_empty());
    assert_eq!(cli.aggregator.tracker(Category::Page).live, 0);
    assert_eq!(cli.aggregator.tracker(Category::Page).count, 0);
    assert_eq!(cli.aggregator.inconsistency_count(), 0);
    assert_eq!(cli.processed, 2);
    assert_eq!(cli.dropped, 0);
}

#[test]
fn slab_shared_parent() {
    let mut agg = Aggregator::new();
    let g1 = 0x77;
    agg.apply(DecodedEvent {
        kind: EventKind::KMAlloc,
        pid: 7,
        addr: 0xB000,
        size: 100,
        stack: vec![0x1, g1],
    });
    agg.apply(DecodedEvent {
        kind: EventKind::KMAlloc,
        pid: 7,
        addr: 0xB100,
        size: 28,
        stack: vec![0x2, g1],
    });
    let t = tree_of(&agg, 0);
    assert_eq!(t.value, 128);
    assert_eq!(t.cache_value, 128);
    assert_eq!(t.frames.len(), 1);
    let g1_node = &t.frames[0];
    assert_eq!(g1_node.value, 128);
    assert_eq!(g1_node.cache_value, 128);
    assert_eq!(g1_node.frames.len(), 2);
    assert_eq!(agg.tracker(Category::Slab).live, 128);
    assert_eq!(agg.tracker(Category::Slab).count, 2);
}

#[test]
fn free_of_unseen_address_is_inconsistency() {
    let mut agg = Aggregator::new();
    agg.apply(DecodedEvent {
        kind: EventKind::KFree,
        pid: 7,
        addr: 0xDEAD,
        size: 0,
        stack: vec![],
    });
    assert_eq!(agg.inconsistency_count(), 1);
    assert_eq!(agg.tracker(Category::Slab).live, 0);
    assert_eq!(agg.tracker(Category::Slab).count, 0);
    assert_eq!(tree_of(&agg, 0).value, 0);
}

#[test]
fn double_free_is_inconsistency() {
    let mut agg = Aggregator::new();
    agg.apply(DecodedEvent {
        kind: EventKind::KMAlloc,
        pid: 7,
        addr: 0xC000,
        size: 64,
        stack: vec![],
    });
    agg.apply(DecodedEvent {
        kind: EventKind::KFree,
        pid: 7,
        addr: 0xC000,
        size: 0,
        stack: vec![],
    });
    agg.apply(DecodedEvent {
        kind: EventKind::KFree,
        pid: 7,
        addr: 0xC000,
        size: 0,
        stack: vec![],
    });
    assert_eq!(agg.inconsistency_count(), 1);
    assert_eq!(agg.tracker(Category::Slab).live, 0);
}

#[test]
fn double_alloc_overwrites() {
    let mut agg = Aggregator::new();
    agg.apply(DecodedEvent {
        kind: EventKind::KMAlloc,
        pid: 7,
        addr: 0xC000,
        size: 64,
        stack: vec![],
    });
    agg.apply(DecodedEvent {
        kind: EventKind::KMAlloc,
        pid: 7,
        addr: 0xC000,
        size: 80,
        stack: vec![],
    });
    // the second allocation replaced the first: one live unit of 80
    assert_eq!(agg.inconsistency_count(), 1);
    assert_eq!(agg.tracker(Category::Slab).live, 80);
    assert_eq!(agg.tracker(Category::Slab).count, 1);
    agg.apply(DecodedEvent {
        kind: EventKind::KFree,
        pid: 7,
        addr: 0xC000,
        size: 0,
        stack: vec![],
    });
    assert_eq!(agg.tracker(Category::Slab).live, 0);
}

#[test]
fn rss_is_absolute() {
    let mut agg = Aggregator::new();
    agg.apply(DecodedEvent {
        kind: EventKind::RssStat,
        pid: 7,
        addr: 0,
        size: 5000,
        stack: vec![],
    });
    assert_eq!(agg.tracker(Category::Rss).live, 5000);
    agg.apply(DecodedEvent {
        kind: EventKind::RssStat,
        pid: 7,
        addr: 0,
        size: 1200,
        stack: vec![],
    });
    assert_eq!(agg.tracker(Category::Rss).live, 1200);
    assert_eq!(agg.inconsistency_count(), 0);
}

#[test]
fn threshold_prunes_small_subtrees() {
    let mut agg = Aggregator::new();
    agg.apply(DecodedEvent {
        kind: EventKind::PageAlloc,
        pid: 7,
        addr: 0xA000,
        size: 10000,
        stack: vec![0x1],
    });
    agg.apply(DecodedEvent {
        kind: EventKind::PageAlloc,
        pid: 7,
        addr: 0xA800,
        size: 30,
        stack: vec![0x2],
    });
    let full = tree_of(&agg, 0);
    assert_eq!(full.value, 10030);
    assert_eq!(full.frames.len(), 2);
    let pruned = tree_of(&agg, 1000);
    assert_eq!(pruned.value, 10030);
    assert_eq!(pruned.frames.len(), 1);
    assert_eq!(pruned.frames[0].value, 10000);
    // no kept frame sits below the threshold
    fn check(rep: &FrameReport, threshold: u64) {
        for f in &rep.frames {
            assert!(f.value >= threshold);
            check(f, threshold);
        }
    }
    check(&pruned, 1000);
}

#[test]
fn tree_invariant_value_dominates_cache() {
    let mut agg = Aggregator::new();
    agg.apply(DecodedEvent {
        kind: EventKind::PageAlloc,
        pid: 7,
        addr: 0xA000,
        size: 4096,
        stack: vec![0x9, 0x8],
    });
    agg.apply(DecodedEvent {
        kind: EventKind::KMAlloc,
        pid: 7,
        addr: 0xB000,
        size: 96,
        stack: vec![0x9, 0x8],
    });
    fn check(rep: &FrameReport, limit: usize) {
        assert!(rep.value >= rep.cache_value);
        if limit > 0 {
            for f in &rep.frames {
                check(f, limit - 1);
            }
        }
    }
    let t = tree_of(&agg, 0);
    check(&t, 10);
    assert_eq!(t.value, 4192);
    assert_eq!(t.cache_value, 96);
}

#[test]
fn consumer_counters_and_dump() {
    let mut cli = Consumer::new();
    cli.arrive(&[0u8; 3]);
    assert_eq!(cli.dropped, 1);
    assert_eq!(cli.processed, 0);
    cli.arrive(&record(10, 42, &[640], &[]));
    assert_eq!(cli.processed, 1);
    assert_eq!(cli.tracked_pid(), Some(42));
    cli.note_lost(5);
    cli.note_lost(u64::MAX);
    assert_eq!(cli.lost, u64::MAX);
    let resolver = StackResolver::new();
    assert!(cli.store_dump(&resolver).is_none());
    cli.turn_on_dump();
    let dump = cli.store_dump(&resolver).unwrap();
    assert_eq!(dump.value, 0);
}

#[test]
fn counter_headroom_exhaustion_is_inconsistency() {
    let mut agg = Aggregator::new();
    agg.apply(DecodedEvent {
        kind: EventKind::PageAlloc,
        pid: 7,
        addr: 0x1000,
        size: u64::MAX,
        stack: vec![0x1],
    });
    assert_eq!(agg.tracker(Category::Page).live, u64::MAX);
    assert_eq!(agg.inconsistency_count(), 0);
    // no headroom left: the event is dropped and counted, not applied
    agg.apply(DecodedEvent {
        kind: EventKind::PageAlloc,
        pid: 7,
        addr: 0x2000,
        size: 2,
        stack: vec![0x2],
    });
    assert_eq!(agg.inconsistency_count(), 1);
    assert_eq!(agg.tracker(Category::Page).live, u64::MAX);
    assert_eq!(agg.tracker(Category::Page).count, 1);
}

#[test]
fn stack_on_free_event_is_ignored() {
    let mut cli = Consumer::new();
    cli.arrive(&record(1, 7, &[0xA000, 512], &[0x5]));
    // a free that carries frames still reverses the stored path
    cli.arrive(&record(2, 7, &[0xA000], &[0x9, 0x9]));
    assert_eq!(cli.aggregator.tracker(Category::Page).live, 0);
    assert_eq!(cli.aggregator.inconsistency_count(), 0);
}

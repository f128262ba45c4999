//! Decoded probe events and the fixed-layout record decoder.
//!
//! A raw record is laid out as: an 8-byte opaque context header, the
//! pid (`u32`), the event-kind discriminant (`u32`), a kind-specific
//! payload, the captured stack length (`u64`) and that many 8-byte
//! raw return addresses, most recent frame first. Integers come in
//! the probe host's native byte order; this decoder reads them
//! little-endian, the byte order of the hosts it profiles.

use vstd::prelude::*;

verus! {

/// Resource category an event kind is accounted under.
#[derive(Clone, Copy, PartialEq, Eq, Structural, Debug)]
pub enum Category {
    Page,
    Slab,
    Rss,
    Percpu,
    PageCache,
}

/// What an event does to the tracked unit it targets.
#[derive(Clone, Copy, PartialEq, Eq, Structural, Debug)]
pub enum Role {
    Alloc,
    Free,
    Info,
}

/// The resource-activity kinds the probe reports.
#[derive(Clone, Copy, PartialEq, Eq, Structural, Debug)]
pub enum EventKind {
    PageAlloc,
    PageFree,
    PageFreeBatched,
    KMAlloc,
    KMAllocNode,
    CacheAlloc,
    CacheAllocNode,
    CacheFree,
    KFree,
    RssStat,
    PercpuAlloc,
    PercpuFree,
    AddToPageCache,
    RemoveFromPageCache,
}

/// Why a raw record was rejected.
#[derive(Clone, Copy, PartialEq, Eq, Structural, Debug)]
pub enum DecodeError {
    /// The record is shorter than its header and declared sizes need.
    Truncated,
    /// The discriminant names no known event kind.
    UnknownKind,
}

/// Mathematical model of a decoded event.
pub struct EventModel {
    pub kind: EventKind,
    pub pid: u32,
    pub addr: u64,
    pub size: u64,
    pub stack: Seq<u64>,
}

/// A decoded event: kind, pid, payload fields and the captured stack
/// (present only on page-allocation events; empty otherwise).
pub struct DecodedEvent {
    pub kind: EventKind,
    pub pid: u32,
    pub addr: u64,
    pub size: u64,
    pub stack: Vec<u64>,
}

impl View for DecodedEvent {
    type V = EventModel;

    open spec fn view(&self) -> EventModel {
        EventModel {
            kind: self.kind,
            pid: self.pid,
            addr: self.addr,
            size: self.size,
            stack: self.stack@,
        }
    }
}

pub open spec fn spec_category(k: EventKind) -> Category {
    match k {
        EventKind::PageAlloc => Category::Page,
        EventKind::PageFree => Category::Page,
        EventKind::PageFreeBatched => Category::Page,
        EventKind::KMAlloc => Category::Slab,
        EventKind::KMAllocNode => Category::Slab,
        EventKind::CacheAlloc => Category::Slab,
        EventKind::CacheAllocNode => Category::Slab,
        EventKind::CacheFree => Category::Slab,
        EventKind::KFree => Category::Slab,
        EventKind::RssStat => Category::Rss,
        EventKind::PercpuAlloc => Category::Percpu,
        EventKind::PercpuFree => Category::Percpu,
        EventKind::AddToPageCache => Category::PageCache,
        EventKind::RemoveFromPageCache => Category::PageCache,
    }
}

pub open spec fn spec_role(k: EventKind) -> Role {
    match k {
        EventKind::PageAlloc => Role::Alloc,
        EventKind::PageFree => Role::Free,
        EventKind::PageFreeBatched => Role::Free,
        EventKind::KMAlloc => Role::Alloc,
        EventKind::KMAllocNode => Role::Alloc,
        EventKind::CacheAlloc => Role::Alloc,
        EventKind::CacheAllocNode => Role::Alloc,
        EventKind::CacheFree => Role::Free,
        EventKind::KFree => Role::Free,
        EventKind::RssStat => Role::Info,
        EventKind::PercpuAlloc => Role::Alloc,
        EventKind::PercpuFree => Role::Free,
        EventKind::AddToPageCache => Role::Alloc,
        EventKind::RemoveFromPageCache => Role::Free,
    }
}

/// Payload length in bytes: allocation payloads carry address and
/// size, free payloads only an address, the rss payload one value.
pub open spec fn spec_payload_len(k: EventKind) -> int {
    match spec_role(k) {
        Role::Alloc => 16,
        Role::Free => 8,
        Role::Info => 8,
    }
}

/// The discriminant table of the wire format; 0 means "none".
pub open spec fn spec_kind_of(d: u32) -> Option<EventKind> {
    if d == 1 {
        Some(EventKind::PageAlloc)
    } else if d == 2 {
        Some(EventKind::PageFree)
    } else if d == 3 {
        Some(EventKind::PageFreeBatched)
    } else if d == 4 {
        Some(EventKind::KMAlloc)
    } else if d == 5 {
        Some(EventKind::KMAllocNode)
    } else if d == 6 {
        Some(EventKind::CacheAlloc)
    } else if d == 7 {
        Some(EventKind::CacheAllocNode)
    } else if d == 8 {
        Some(EventKind::CacheFree)
    } else if d == 9 {
        Some(EventKind::KFree)
    } else if d == 10 {
        Some(EventKind::RssStat)
    } else if d == 11 {
        Some(EventKind::PercpuAlloc)
    } else if d == 12 {
        Some(EventKind::PercpuFree)
    } else if d == 13 {
        Some(EventKind::AddToPageCache)
    } else if d == 14 {
        Some(EventKind::RemoveFromPageCache)
    } else {
        None
    }
}

pub fn category_of(k: EventKind) -> (r: Category)
    ensures
        r == spec_category(k),
{
    match k {
        EventKind::PageAlloc => Category::Page,
        EventKind::PageFree => Category::Page,
        EventKind::PageFreeBatched => Category::Page,
        EventKind::KMAlloc => Category::Slab,
        EventKind::KMAllocNode => Category::Slab,
        EventKind::CacheAlloc => Category::Slab,
        EventKind::CacheAllocNode => Category::Slab,
        EventKind::CacheFree => Category::Slab,
        EventKind::KFree => Category::Slab,
        EventKind::RssStat => Category::Rss,
        EventKind::PercpuAlloc => Category::Percpu,
        EventKind::PercpuFree => Category::Percpu,
        EventKind::AddToPageCache => Category::PageCache,
        EventKind::RemoveFromPageCache => Category::PageCache,
    }
}

pub fn role_of(k: EventKind) -> (r: Role)
    ensures
        r == spec_role(k),
{
    match k {
        EventKind::PageAlloc => Role::Alloc,
        EventKind::PageFree => Role::Free,
        EventKind::PageFreeBatched => Role::Free,
        EventKind::KMAlloc => Role::Alloc,
        EventKind::KMAllocNode => Role::Alloc,
        EventKind::CacheAlloc => Role::Alloc,
        EventKind::CacheAllocNode => Role::Alloc,
        EventKind::CacheFree => Role::Free,
        EventKind::KFree => Role::Free,
        EventKind::RssStat => Role::Info,
        EventKind::PercpuAlloc => Role::Alloc,
        EventKind::PercpuFree => Role::Free,
        EventKind::AddToPageCache => Role::Alloc,
        EventKind::RemoveFromPageCache => Role::Free,
    }
}

fn kind_of(d: u32) -> (r: Option<EventKind>)
    ensures
        r == spec_kind_of(d),
{
    if d == 1 {
        Some(EventKind::PageAlloc)
    } else if d == 2 {
        Some(EventKind::PageFree)
    } else if d == 3 {
        Some(EventKind::PageFreeBatched)
    } else if d == 4 {
        Some(EventKind::KMAlloc)
    } else if d == 5 {
        Some(EventKind::KMAllocNode)
    } else if d == 6 {
        Some(EventKind::CacheAlloc)
    } else if d == 7 {
        Some(EventKind::CacheAllocNode)
    } else if d == 8 {
        Some(EventKind::CacheFree)
    } else if d == 9 {
        Some(EventKind::KFree)
    } else if d == 10 {
        Some(EventKind::RssStat)
    } else if d == 11 {
        Some(EventKind::PercpuAlloc)
    } else if d == 12 {
        Some(EventKind::PercpuFree)
    } else if d == 13 {
        Some(EventKind::AddToPageCache)
    } else if d == 14 {
        Some(EventKind::RemoveFromPageCache)
    } else {
        None
    }
}

fn payload_len(k: EventKind) -> (r: usize)
    ensures
        r == spec_payload_len(k),
{
    match role_of(k) {
        Role::Alloc => 16,
        Role::Free => 8,
        Role::Info => 8,
    }
}

/// Little-endian `u32` read from byte position `off` of `s`.
pub open spec fn spec_le32(s: Seq<u8>, off: int) -> u32 {
    (s[off] + 0x100 * s[off + 1] + 0x1_0000 * s[off + 2] + 0x100_0000 * s[off + 3]) as u32
}

/// Little-endian `u64` read from byte position `off` of `s`.
pub open spec fn spec_le64(s: Seq<u8>, off: int) -> u64 {
    (spec_le32(s, off) + 0x1_0000_0000 * (spec_le32(s, off + 4) as int)) as u64
}

fn read_le32(s: &[u8], off: usize) -> (r: u32)
    requires
        off + 4 <= s@.len(),
    ensures
        r == spec_le32(s@, off as int),
{
    let n = s.len();
    assert(off + 4 <= n);
    let b0 = s[off] as u32;
    let b1 = s[off + 1] as u32;
    let b2 = s[off + 2] as u32;
    let b3 = s[off + 3] as u32;
    b0 + 0x100 * b1 + 0x1_0000 * b2 + 0x100_0000 * b3
}

fn read_le64(s: &[u8], off: usize) -> (r: u64)
    requires
        off + 8 <= s@.len(),
    ensures
        r == spec_le64(s@, off as int),
{
    let n = s.len();
    assert(off + 8 <= n);
    let lo = read_le32(s, off) as u64;
    let hi = read_le32(s, off + 4) as u64;
    lo + 0x1_0000_0000 * hi
}

/// What `decode` returns on any record: the full functional meaning
/// of the wire format.
pub open spec fn spec_decode(s: Seq<u8>) -> Result<EventModel, DecodeError> {
    if s.len() < 0x10 {
        Err(DecodeError::Truncated)
    } else {
        match spec_kind_of(spec_le32(s, 0x0c)) {
            None => Err(DecodeError::UnknownKind),
            Some(k) => {
                let p = spec_payload_len(k);
                if s.len() < 0x18 + p {
                    Err(DecodeError::Truncated)
                } else {
                    let sl = spec_le64(s, 0x10 + p) as int;
                    if s.len() != 0x18 + p + 8 * sl {
                        Err(DecodeError::Truncated)
                    } else {
                        Ok(
                            EventModel {
                                kind: k,
                                pid: spec_le32(s, 0x08),
                                addr: if spec_role(k) == Role::Info {
                                    0
                                } else {
                                    spec_le64(s, 0x10)
                                },
                                size: if spec_role(k) == Role::Alloc {
                                    spec_le64(s, 0x18)
                                } else if spec_role(k) == Role::Info {
                                    spec_le64(s, 0x10)
                                } else {
                                    0
                                },
                                stack: Seq::new(
                                    sl as nat,
                                    |i: int| spec_le64(s, 0x18 + p + 8 * i),
                                ),
                            },
                        )
                    }
                }
            },
        }
    }
}

/// Decode one raw probe record. Never panics: a malformed record
/// yields an error that the caller counts and drops.
pub fn decode(s: &[u8]) -> (r: Result<DecodedEvent, DecodeError>)
    ensures
        match r {
            Ok(ev) => spec_decode(s@) == Ok::<EventModel, DecodeError>(ev@),
            Err(e) => spec_decode(s@) == Err::<EventModel, DecodeError>(e),
        },
{
    let n = s.len();
    if n < 0x10 {
        return Err(DecodeError::Truncated);
    }
    let pid = read_le32(s, 0x08);
    let k = match kind_of(read_le32(s, 0x0c)) {
        Some(k) => k,
        None => {
            return Err(DecodeError::UnknownKind);
        },
    };
    let p = payload_len(k);
    if n < 0x18 + p {
        return Err(DecodeError::Truncated);
    }
    let sl = read_le64(s, 0x10 + p);
    let rem = n - 0x18 - p;
    if rem % 8 != 0 || sl != (rem / 8) as u64 {
        proof {
            assert(rem == 8 * (rem / 8) + rem % 8);
            assert(s@.len() != 0x18 + p + 8 * (spec_le64(s@, 0x10 + p as int) as int));
        }
        return Err(DecodeError::Truncated);
    }
    proof {
        assert(rem == 8 * (rem / 8) + rem % 8);
        assert(s@.len() == 0x18 + p + 8 * (sl as int));
    }
    let frames = rem / 8;
    let role = role_of(k);
    let addr = if matches!(role, Role::Info) {
        0
    } else {
        read_le64(s, 0x10)
    };
    let size = if matches!(role, Role::Alloc) {
        read_le64(s, 0x18)
    } else if matches!(role, Role::Info) {
        read_le64(s, 0x10)
    } else {
        0
    };
    let mut stack: Vec<u64> = Vec::new();
    let mut i: usize = 0;
    while i < frames
        invariant
            i <= frames,
            frames == sl,
            n == s@.len(),
            s@.len() == 0x18 + p + 8 * (frames as int),
            p == spec_payload_len(k),
            stack@ =~= Seq::new(i as nat, |j: int| spec_le64(s@, 0x18 + p + 8 * j)),
        decreases frames - i,
    {
        let a = read_le64(s, 0x18 + p + 8 * i);
        stack.push(a);
        i = i + 1;
    }
    let ev = DecodedEvent { kind: k, pid, addr, size, stack };
    proof {
        assert(ev@.stack =~= Seq::new(sl as nat, |j: int| spec_le64(s@, 0x18 + p + 8 * j)));
    }
    Ok(ev)
}

} // verus!

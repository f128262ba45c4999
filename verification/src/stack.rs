//! Address resolution: the traced process's memory map and the
//! per-module symbol-table cache.

use vstd::prelude::*;
use crate::table::{SymbolTable, bytes_to_string, sym_contains, syms_disjoint, utf8_lossy_of};

verus! {

/// One mapped region of the traced process: a half-open address
/// range, the backing file's path bytes (empty for an anonymous
/// mapping) and the file offset at the region's start.
pub struct Region {
    pub start: u64,
    pub end: u64,
    pub file_offset: u64,
    pub path: Vec<u8>,
}

pub open spec fn region_contains(r: Region, addr: u64) -> bool {
    r.start <= addr < r.end
}

/// Regions ordered by start and pairwise disjoint.
pub open spec fn regions_wf(v: Seq<Region>) -> bool {
    &&& forall|k: int| 0 <= k < v.len() ==> (#[trigger] v[k]).start < v[k].end
    &&& forall|k1: int, k2: int|
        0 <= k1 < k2 < v.len() ==> (#[trigger] v[k1]).end <= (#[trigger] v[k2]).start
}

/// The current set of mapped regions of one process.
pub struct MemoryMap {
    pub regions: Vec<Region>,
}

impl MemoryMap {
    pub open spec fn wf(&self) -> bool {
        regions_wf(self.regions@)
    }

    pub fn new() -> (r: MemoryMap)
        ensures
            r.wf(),
            r.regions@.len() == 0,
    {
        MemoryMap { regions: Vec::new() }
    }

    /// Replace the view with a fresh region list. Regions must come
    /// ordered (as the kernel reports them); an empty or overlapping
    /// region is dropped. An already well-formed list is kept whole.
    pub fn rebuild(input: Vec<Region>) -> (r: MemoryMap)
        ensures
            r.wf(),
            regions_wf(input@) ==> r.regions@ == input@,
    {
        let mut regions: Vec<Region> = Vec::new();
        let n = input.len();
        let mut i: usize = 0;
        let mut input = input;
        let ghost iv = input@;
        while i < n
            invariant
                n == iv.len(),
                input@ == iv.skip(i as int),
                i <= n,
                regions_wf(regions@),
                regions_wf(iv) ==> regions@ =~= iv.take(i as int),
            decreases n - i,
        {
            let r = input.remove(0);
            proof {
                assert(r == iv[i as int]);
                assert(input@ =~= iv.skip(i as int + 1));
            }
            let ok = r.start < r.end && (regions.len() == 0 || {
                let lastr = &regions[regions.len() - 1];
                lastr.end <= r.start
            });
            if ok {
                proof {
                    assert forall|k: int| 0 <= k < regions@.len() implies (
                    #[trigger] regions@[k]).end <= r.start by {
                        if k < regions@.len() - 1 {
                            assert(regions@[k].end <= regions@[regions@.len() - 1].start);
                        }
                    }
                }
                regions.push(r);
                proof {
                    if regions_wf(iv) {
                        assert(regions@ =~= iv.take(i as int + 1));
                    }
                }
            } else {
                proof {
                    if regions_wf(iv) {
                        assert(iv[i as int].start < iv[i as int].end);
                        if regions@.len() > 0 {
                            assert(regions@[regions@.len() - 1] == iv.take(i as int)[i as int
                                - 1]);
                            assert(regions@[regions@.len() - 1] == iv[i as int - 1]);
                            assert(iv[i as int - 1].end <= iv[i as int].start);
                        }
                        assert(false);
                    }
                }
            }
            i = i + 1;
        }
        proof {
            if regions_wf(iv) {
                assert(regions@ =~= iv);
            }
        }
        MemoryMap { regions }
    }

    /// The index of the region covering `addr`; `None` when no
    /// region does.
    pub fn lookup(&self, addr: u64) -> (r: Option<usize>)
        requires
            self.wf(),
        ensures
            match r {
                Some(k) => k < self.regions@.len() && region_contains(self.regions@[k as int], addr),
                None => forall|k: int|
                    0 <= k < self.regions@.len() ==> !region_contains(
                        #[trigger] self.regions@[k],
                        addr,
                    ),
            },
    {
        let n = self.regions.len();
        if n == 0 {
            return None;
        }
        if self.regions[0].start > addr {
            return None;
        }
        let mut lo: usize = 0;
        let mut hi: usize = n;
        while hi - lo > 1
            invariant
                self.wf(),
                n == self.regions@.len(),
                lo < hi <= n,
                self.regions@[lo as int].start <= addr,
                forall|k: int| hi <= k < n ==> (#[trigger] self.regions@[k]).start > addr,
            decreases hi - lo,
        {
            let mid = lo + (hi - lo) / 2;
            if self.regions[mid].start <= addr {
                lo = mid;
            } else {
                hi = mid;
            }
        }
        if self.regions[lo].end > addr {
            return Some(lo);
        }
        proof {
            assert forall|k: int| 0 <= k < self.regions@.len() implies !region_contains(
                #[trigger] self.regions@[k],
                addr,
            ) by {
                if k < lo {
                    assert(self.regions@[k].end <= self.regions@[lo as int].start);
                } else if k > lo {
                    assert(self.regions@[k].start > addr);
                }
            }
        }
        None
    }
}

/// Byte-wise equality of two paths.
fn bytes_eq(a: &[u8], b: &[u8]) -> (r: bool)
    ensures
        r == (a@ == b@),
{
    if a.len() != b.len() {
        proof {
            assert(a@ != b@);
        }
        return false;
    }
    let n = a.len();
    let mut i: usize = 0;
    while i < n
        invariant
            n == a@.len(),
            n == b@.len(),
            i <= n,
            forall|k: int| 0 <= k < i ==> a@[k] == b@[k],
        decreases n - i,
    {
        if a[i] != b[i] {
            proof {
                assert(a@[i as int] != b@[i as int]);
            }
            return false;
        }
        i = i + 1;
    }
    proof {
        assert(a@ =~= b@);
    }
    true
}

/// ASCII hex digit for a value below 16.
pub open spec fn spec_hex_digit(d: int) -> u8 {
    if d < 10 {
        (0x30 + d) as u8
    } else {
        (0x57 + d) as u8
    }
}

/// Lower-case hex rendering, most significant digit first, no
/// leading zeros (a single `0` for zero).
pub open spec fn spec_hex(v: int) -> Seq<u8>
    decreases v,
{
    if v < 16 {
        seq![spec_hex_digit(if v >= 0 {
            v
        } else {
            0
        })]
    } else {
        spec_hex(v / 16) + seq![spec_hex_digit(v % 16)]
    }
}

fn hex_bytes(v: u64) -> (r: Vec<u8>)
    ensures
        r@ == spec_hex(v as int),
    decreases v,
{
    if v < 16 {
        let mut r: Vec<u8> = Vec::new();
        let d = (v % 16) as u8;
        let b = if d < 10 {
            0x30 + d
        } else {
            0x57 + d
        };
        r.push(b);
        proof {
            assert(r@ =~= seq![spec_hex_digit(v as int)]);
        }
        r
    } else {
        let mut r = hex_bytes(v / 16);
        let d = (v % 16) as u8;
        let b = if d < 10 {
            0x30 + d
        } else {
            0x57 + d
        };
        r.push(b);
        proof {
            assert(r@ =~= spec_hex((v / 16) as int) + seq![spec_hex_digit((v % 16) as int)]);
        }
        r
    }
}

/// What one raw return address resolved to.
pub enum Resolution {
    /// No region of the current map covers the address.
    Unknown,
    /// A mapped, file-backed region covers it, but no symbol was
    /// found: the backing path and the raw file offset.
    Module { path: Vec<u8>, offset: u64 },
    /// A symbol of the backing file's table covers the offset.
    Symbol { path: Vec<u8>, name: String },
}

/// Resolves raw return addresses against the tracked process's
/// memory map, caching one symbol table per backing file.
pub struct StackResolver {
    pub pid: Option<u32>,
    pub map: MemoryMap,
    pub tables: Vec<(Vec<u8>, SymbolTable)>,
}

impl StackResolver {
    pub open spec fn tables_wf(&self) -> bool {
        forall|k: int| 0 <= k < self.tables@.len() ==> (#[trigger] self.tables@[k]).1.wf()
    }

    pub open spec fn wf(&self) -> bool {
        self.map.wf() && self.tables_wf()
    }

    pub fn new() -> (r: StackResolver)
        ensures
            r.wf(),
            r.pid is None,
    {
        StackResolver { pid: None, map: MemoryMap::new(), tables: Vec::new() }
    }

    /// Switch the tracked process; the old map no longer applies.
    pub fn track(&mut self, pid: u32)
        requires
            old(self).wf(),
        ensures
            final(self).wf(),
            final(self).pid == Some(pid),
            final(self).map.regions@.len() == 0,
    {
        self.pid = Some(pid);
        self.map = MemoryMap::new();
    }

    pub fn tracked_pid(&self) -> (r: Option<u32>)
        ensures
            r == self.pid,
    {
        self.pid
    }

    /// Replace the memory map with a freshly read region list.
    pub fn refresh(&mut self, regions: Vec<Region>)
        requires
            old(self).wf(),
        ensures
            final(self).wf(),
            regions_wf(regions@) ==> final(self).map.regions@ == regions@,
            final(self).pid == old(self).pid,
    {
        self.map = MemoryMap::rebuild(regions);
    }

    /// Cache a loaded symbol table under its backing path,
    /// replacing any earlier load (content is path-determined).
    pub fn install_table(&mut self, path: Vec<u8>, table: SymbolTable)
        requires
            old(self).wf(),
            table.wf(),
        ensures
            final(self).wf(),
            final(self).pid == old(self).pid,
            final(self).map == old(self).map,
            (exists|ti: int|
                0 <= ti < old(self).tables@.len() && (#[trigger] old(self).tables@[ti]).0@ == path@
                    && final(self).tables@ == old(self).tables@.update(ti, (path, table))) || ((
            forall|ti: int|
                0 <= ti < old(self).tables@.len() ==> (#[trigger] old(self).tables@[ti]).0@
                    != path@) && final(self).tables@ == old(self).tables@.push((path, table))),
    {
        let n = self.tables.len();
        let mut i: usize = 0;
        while i < n
            invariant
                self.wf(),
                n == self.tables@.len(),
                i <= n,
                table.wf(),
                self.map == old(self).map,
                self.pid == old(self).pid,
                self.tables_wf(),
                self.tables@ == old(self).tables@,
                forall|ti: int| 0 <= ti < i ==> (#[trigger] self.tables@[ti]).0@ != path@,
            decreases n - i,
        {
            if bytes_eq(self.tables[i].0.as_slice(), path.as_slice()) {
                proof {
                    assert(old(self).tables@[i as int].0@ == path@);
                }
                self.tables[i] = (path, table);
                return ;
            }
            i = i + 1;
        }
        self.tables.push((path, table));
    }

    fn table_for(&self, path: &[u8]) -> (r: Option<&SymbolTable>)
        requires
            self.wf(),
        ensures
            match r {
                Some(t) => t.wf() && exists|ti: int|
                    0 <= ti < self.tables@.len() && (#[trigger] self.tables@[ti]).0@ == path@
                        && self.tables@[ti].1 == *t,
                None => forall|ti: int|
                    0 <= ti < self.tables@.len() ==> (#[trigger] self.tables@[ti]).0@ != path@,
            },
    {
        let n = self.tables.len();
        let mut i: usize = 0;
        while i < n
            invariant
                self.wf(),
                n == self.tables@.len(),
                i <= n,
                forall|ti: int| 0 <= ti < i ==> (#[trigger] self.tables@[ti]).0@ != path@,
            decreases n - i,
        {
            if bytes_eq(self.tables[i].0.as_slice(), path) {
                proof {
                    assert(self.tables@[i as int].0@ == path@);
                }
                return Some(&self.tables[i].1);
            }
            i = i + 1;
        }
        None
    }

    /// What holds of one resolved address, by outcome: `Unknown`
    /// only when no file-backed region covers it (or the offset
    /// translation overflows); `Module` names the covering region's
    /// backing file and exact file offset, with no symbol to give;
    /// `Symbol` carries a containing symbol's recorded name from the
    /// backing file's cached table.
    pub open spec fn resolution_ok(&self, addr: u64, r: Resolution) -> bool {
        match r {
            Resolution::Unknown => forall|k: int|
                0 <= k < self.map.regions@.len() && region_contains(
                    #[trigger] self.map.regions@[k],
                    addr,
                ) ==> self.map.regions@[k].path@.len() == 0 || self.map.regions@[k].file_offset + (
                addr - self.map.regions@[k].start) > u64::MAX,
            Resolution::Module { path, offset } => exists|k: int|
                0 <= k < self.map.regions@.len() && region_contains(
                    #[trigger] self.map.regions@[k],
                    addr,
                ) && path@ == self.map.regions@[k].path@ && path@.len() > 0 && offset == addr
                    - self.map.regions@[k].start + self.map.regions@[k].file_offset && ((forall|
                ti: int|
                    0 <= ti < self.tables@.len() ==> (#[trigger] self.tables@[ti]).0@ != path@)
                    || exists|ti: int|
                    0 <= ti < self.tables@.len() && (#[trigger] self.tables@[ti]).0@ == path@ && (
                    syms_disjoint(self.tables@[ti].1.syms()) ==> forall|y: int|
                        0 <= y < self.tables@[ti].1.syms().len() ==> !sym_contains(
                            #[trigger] self.tables@[ti].1.syms()[y],
                            offset,
                        ))),
            Resolution::Symbol { path, name } => exists|k: int|
                0 <= k < self.map.regions@.len() && region_contains(
                    #[trigger] self.map.regions@[k],
                    addr,
                ) && path@ == self.map.regions@[k].path@ && exists|ti: int|
                    0 <= ti < self.tables@.len() && (#[trigger] self.tables@[ti]).0@ == path@
                        && exists|y: int|
                        0 <= y < self.tables@[ti].1.syms().len() && sym_contains(
                            #[trigger] self.tables@[ti].1.syms()[y],
                            (addr - self.map.regions@[k].start
                                + self.map.regions@[k].file_offset) as u64,
                        ) && name@ == self.tables@[ti].1.spec_symbol_name(y),
        }
    }

    /// The display text for an address: the label of some resolution
    /// the current map and cache justify.
    pub open spec fn labeled(&self, addr: u64, s: Seq<char>) -> bool {
        exists|res: Resolution| self.resolution_ok(addr, res) && s == spec_label(res)
    }

    /// Resolve one raw address: find the covering region, translate
    /// to a file offset, and ask the backing file's cached symbol
    /// table. Every failure degrades (`Unknown`, or the module path
    /// with the raw offset), never errors.
    pub fn resolve_one(&self, addr: u64) -> (r: Resolution)
        requires
            self.wf(),
        ensures
            self.resolution_ok(addr, r),
    {
        let k = match self.map.lookup(addr) {
            Some(k) => k,
            None => {
                return Resolution::Unknown;
            },
        };
        let region = &self.map.regions[k];
        proof {
            assert forall|k2: int|
                0 <= k2 < self.map.regions@.len() && region_contains(
                    #[trigger] self.map.regions@[k2],
                    addr,
                ) implies k2 == k as int by {
                if k2 < k as int {
                    assert(self.map.regions@[k2].end <= self.map.regions@[k as int].start);
                } else if k2 > k as int {
                    assert(self.map.regions@[k as int].end <= self.map.regions@[k2].start);
                }
            }
        }
        if region.path.len() == 0 {
            return Resolution::Unknown;
        }
        let delta = addr - region.start;
        let offset = match region.file_offset.checked_add(delta) {
            Some(o) => o,
            None => {
                return Resolution::Unknown;
            },
        };
        let path = path_bytes_copy(&region.path);
        proof {
            assert(region_contains(self.map.regions@[k as int], addr));
        }
        match self.table_for(path.as_slice()) {
            Some(t) => match t.find(offset) {
                Some(name) => Resolution::Symbol { path, name },
                None => Resolution::Module { path, offset },
            },
            None => Resolution::Module { path, offset },
        }
    }

    /// Resolve a captured stack into display strings, one per
    /// address, in order.
    pub fn resolve(&self, addrs: &Vec<u64>) -> (r: Vec<String>)
        requires
            self.wf(),
        ensures
            r@.len() == addrs@.len(),
            forall|i: int| 0 <= i < r@.len() ==> self.labeled(addrs@[i], (#[trigger] r@[i])@),
    {
        let mut out: Vec<String> = Vec::new();
        let n = addrs.len();
        let mut i: usize = 0;
        while i < n
            invariant
                self.wf(),
                n == addrs@.len(),
                i <= n,
                out@.len() == i,
                forall|t: int| 0 <= t < out@.len() ==> self.labeled(addrs@[t], (#[trigger] out@[t])@),
            decreases n - i,
        {
            let ghost pre_out = out@;
            let lbl = self.display_one(addrs[i]);
            out.push(lbl);
            proof {
                assert forall|t: int| 0 <= t < out@.len() implies self.labeled(
                    addrs@[t],
                    (#[trigger] out@[t])@,
                ) by {
                    if t < pre_out.len() {
                        assert(out@[t] == pre_out[t]);
                    } else {
                        assert(out@[t] == lbl);
                    }
                }
            }
            i = i + 1;
        }
        out
    }

    /// The display string for one address: the symbol name, the
    /// module path with the raw hex offset, or "unknown".
    pub fn display_one(&self, addr: u64) -> (r: String)
        requires
            self.wf(),
        ensures
            self.labeled(addr, r@),
    {
        let res = self.resolve_one(addr);
        let ghost gres = res;
        let r = label_of(res);
        proof {
            assert(self.resolution_ok(addr, gres) && r@ == spec_label(gres));
        }
        r
    }
}

fn path_bytes_copy(path: &Vec<u8>) -> (r: Vec<u8>)
    ensures
        r@ == path@,
{
    let mut r: Vec<u8> = Vec::new();
    let n = path.len();
    let mut i: usize = 0;
    while i < n
        invariant
            n == path@.len(),
            i <= n,
            r@ =~= path@.subrange(0, i as int),
        decreases n - i,
    {
        r.push(path[i]);
        i = i + 1;
    }
    proof {
        assert(r@ =~= path@);
    }
    r
}

/// Relies on `String::push_str`: appends the given slice's
/// characters.
pub assume_specification[ String::push_str ](s: &mut String, other: &str)
    ensures
        final(s)@ == old(s)@ + other@,
;

/// The display text of a resolution: "unknown", the module path
/// with the raw hex file offset, or the module path with the symbol
/// name.
pub open spec fn spec_label(r: Resolution) -> Seq<char> {
    match r {
        Resolution::Unknown => "unknown"@,
        Resolution::Module { path, offset } => utf8_lossy_of(path@) + "+0x"@ + utf8_lossy_of(
            spec_hex(offset as int),
        ),
        Resolution::Symbol { path, name } => utf8_lossy_of(path@) + ":"@ + name@,
    }
}

/// Render a resolution as one display label.
pub fn label_of(r: Resolution) -> (s: String)
    ensures
        s@ == spec_label(r),
{
    match r {
        Resolution::Unknown => {
            let mut s = String::new();
            s.push_str("unknown");
            proof {
                assert(s@ =~= "unknown"@);
            }
            s
        },
        Resolution::Module { path, offset } => {
            let mut s = bytes_to_string(path.as_slice());
            s.push_str("+0x");
            let h = hex_bytes(offset);
            let hs = bytes_to_string(h.as_slice());
            s.push_str(hs.as_str());
            proof {
                assert(s@ =~= utf8_lossy_of(path@) + "+0x"@ + utf8_lossy_of(
                    spec_hex(offset as int),
                ));
            }
            s
        },
        Resolution::Symbol { path, name } => {
            let mut s = bytes_to_string(path.as_slice());
            s.push_str(":");
            s.push_str(name.as_str());
            proof {
                assert(s@ =~= utf8_lossy_of(path@) + ":"@ + name@);
            }
            s
        },
    }
}

} // verus!

//! ELF symbol tables: loading symbol data and answering
//! offset-to-name lookups.

use vstd::prelude::*;
use vstd::seq_lib::group_seq_properties;

verus! {

broadcast use vstd::seq_lib::to_multiset_update, group_seq_properties;

/// One symbol: a half-open code range `[start, end)` and the offset
/// of its name in the table's shared string buffer.
#[derive(Clone, Copy, PartialEq, Eq, Structural, Debug)]
pub struct Symbol {
    pub start: u64,
    pub end: u64,
    pub name_offset: u32,
}

impl Symbol {
    /// The code range this symbol covers.
    pub fn code(&self) -> (r: core::ops::Range<u64>)
        ensures
            r.start == self.start,
            r.end == self.end,
    {
        self.start..self.end
    }
}

/// Exact range containment: a zero-length symbol matches nothing.
pub open spec fn sym_contains(s: Symbol, off: u64) -> bool {
    s.start <= off < s.end
}

pub open spec fn syms_sorted(v: Seq<Symbol>) -> bool {
    forall|k1: int, k2: int|
        0 <= k1 < k2 < v.len() ==> (#[trigger] v[k1]).start <= (#[trigger] v[k2]).start
}

/// Symbol ranges that do not overlap. The lookup is complete only
/// under this condition; with overlaps it still returns only
/// containing symbols.
pub open spec fn syms_disjoint(v: Seq<Symbol>) -> bool {
    forall|k1: int, k2: int|
        0 <= k1 < k2 < v.len() ==> (#[trigger] v[k1]).end <= (#[trigger] v[k2]).start
}

/// The name stored at `off`: the bytes up to the first NUL.
pub open spec fn spec_name_bytes(s: Seq<u8>, off: int) -> Seq<u8>
    decreases s.len() - off,
{
    if off < 0 || off >= s.len() || s[off] == 0 {
        Seq::empty()
    } else {
        seq![s[off]] + spec_name_bytes(s, off + 1)
    }
}

/// What `String::from_utf8_lossy` returns for the given bytes; a
/// function of the bytes alone.
pub uninterp spec fn utf8_lossy_of(s: Seq<u8>) -> Seq<char>;

/// Relies on `String::from_utf8_lossy`: the result depends on the
/// bytes alone; valid UTF-8 decodes, the rest becomes replacement
/// characters.
#[verifier::external_body]
pub(crate) fn bytes_to_string(v: &[u8]) -> (r: String)
    ensures
        r@ == utf8_lossy_of(v@),
{
    String::from_utf8_lossy(v).into_owned()
}

/// What `String::from_utf8` returns for the given bytes: the decoded
/// text when they are valid UTF-8, nothing otherwise; a function of
/// the bytes alone.
pub uninterp spec fn utf8_of(s: Seq<u8>) -> Option<Seq<char>>;

/// Relies on `String::from_utf8`: strict UTF-8 decoding, a function
/// of the bytes alone.
#[verifier::external_body]
fn bytes_to_utf8(v: &[u8]) -> (r: Option<String>)
    ensures
        match r {
            Some(s) => utf8_of(v@) == Some(s@),
            None => utf8_of(v@) is None,
        },
{
    String::from_utf8(v.to_vec()).ok()
}

/// One module's symbol table: symbols sorted by range start over one
/// shared string buffer.
pub struct SymbolTable {
    syms: Vec<Symbol>,
    modname: String,
    strings: Vec<u8>,
}

fn sort_symbols(v: &mut Vec<Symbol>)
    ensures
        syms_sorted(final(v)@),
        final(v)@.to_multiset() == old(v)@.to_multiset(),
        final(v)@.len() == old(v)@.len(),
{
    let n = v.len();
    let mut i: usize = 0;
    while i < n
        invariant
            n == v@.len(),
            i <= n,
            v@.to_multiset() == old(v)@.to_multiset(),
            forall|k1: int, k2: int|
                n - i <= k1 < k2 < n ==> (#[trigger] v@[k1]).start <= (#[trigger] v@[k2]).start,
            forall|a: int, b: int|
                0 <= a < n - i && n - i <= b < n ==> (#[trigger] v@[a]).start <= (
                #[trigger] v@[b]).start,
        decreases n - i,
    {
        let mut j: usize = 0;
        while j + 1 < n - i
            invariant
                n == v@.len(),
                i < n,
                j < n - i,
                v@.to_multiset() == old(v)@.to_multiset(),
                forall|k1: int, k2: int|
                    n - i <= k1 < k2 < n ==> (#[trigger] v@[k1]).start <= (#[trigger] v@[k2]).start,
                forall|a: int, b: int|
                    0 <= a < n - i && n - i <= b < n ==> (#[trigger] v@[a]).start <= (
                    #[trigger] v@[b]).start,
                forall|k: int| 0 <= k <= j ==> (#[trigger] v@[k]).start <= v@[j as int].start,
            decreases n - i - j,
        {
            if v[j].start > v[j + 1].start {
                let ghost pre = v@;
                let a = v[j];
                let b = v[j + 1];
                v[j] = b;
                v[j + 1] = a;
                proof {
                    assert(v@ == pre.update(j as int, b).update(j + 1, a));
                    assert(v@.to_multiset() =~= pre.to_multiset());
                }
            }
            j = j + 1;
        }
        proof {
            assert(forall|k: int| 0 <= k < n - i ==> (#[trigger] v@[k]).start <= v@[j as int].start);
        }
        i = i + 1;
    }
}

impl SymbolTable {
    pub closed spec fn syms(&self) -> Seq<Symbol> {
        self.syms@
    }

    pub closed spec fn strings(&self) -> Seq<u8> {
        self.strings@
    }

    pub closed spec fn wf(&self) -> bool {
        syms_sorted(self.syms@)
    }

    /// Build a table from collected symbol entries and their shared
    /// string buffer; entries are sorted by range start.
    pub fn from_entries(entries: Vec<Symbol>, strings: Vec<u8>, modname: String) -> (r:
        SymbolTable)
        ensures
            r.wf(),
            r.syms().to_multiset() == entries@.to_multiset(),
            r.syms().len() == entries@.len(),
            r.strings() == strings@,
            r.name_view() == modname@,
    {
        let mut syms = entries;
        sort_symbols(&mut syms);
        SymbolTable { syms, modname, strings }
    }

    pub closed spec fn name_view(&self) -> Seq<char> {
        self.modname@
    }

    /// The module's display name.
    pub fn name(&self) -> (r: &str)
        ensures
            r@ == self.name_view(),
    {
        self.modname.as_str()
    }

    pub fn len(&self) -> (r: usize)
        ensures
            r == self.syms().len(),
    {
        self.syms.len()
    }

    pub fn is_empty(&self) -> (r: bool)
        ensures
            r == (self.syms().len() == 0),
    {
        self.syms.len() == 0
    }

    /// Index of some symbol whose range contains `offset`. With
    /// disjoint ranges a `None` means no symbol contains it.
    fn find_idx(&self, offset: u64) -> (r: Option<usize>)
        requires
            self.wf(),
        ensures
            match r {
                Some(k) => k < self.syms().len() && sym_contains(self.syms()[k as int], offset),
                None => syms_disjoint(self.syms()) ==> forall|k: int|
                    0 <= k < self.syms().len() ==> !sym_contains(#[trigger] self.syms()[k], offset),
            },
    {
        let n = self.syms.len();
        if n == 0 {
            return None;
        }
        if self.syms[0].start > offset {
            return None;
        }
        // binary search: the greatest index whose range starts at or
        // before the offset
        let mut lo: usize = 0;
        let mut hi: usize = n;
        while hi - lo > 1
            invariant
                self.wf(),
                n == self.syms().len(),
                lo < hi <= n,
                self.syms()[lo as int].start <= offset,
                forall|k: int|
                    hi <= k < n ==> (#[trigger] self.syms()[k]).start > offset,
            decreases hi - lo,
        {
            let mid = lo + (hi - lo) / 2;
            if self.syms[mid].start <= offset {
                lo = mid;
            } else {
                hi = mid;
            }
        }
        if self.syms[lo].end > offset {
            return Some(lo);
        }
        proof {
            assert forall|k: int|
                0 <= k < self.syms().len() implies syms_disjoint(self.syms())
                ==> !sym_contains(#[trigger] self.syms()[k], offset) by {
                if syms_disjoint(self.syms()) {
                    if k < lo {
                        assert(self.syms()[k].end <= self.syms()[lo as int].start);
                        assert(self.syms()[lo as int].start <= offset);
                    } else if k > lo {
                        assert(self.syms()[k].start > offset);
                    }
                }
            }
        }
        None
    }

    /// The name bytes stored for symbol `k`.
    fn name_bytes(&self, off: usize) -> (r: Vec<u8>)
        ensures
            r@ == spec_name_bytes(self.strings(), off as int),
    {
        let mut r: Vec<u8> = Vec::new();
        let n = self.strings.len();
        let mut cur = off;
        while cur < n && self.strings[cur] != 0
            invariant
                n == self.strings@.len(),
                off <= cur <= n || cur == off,
                cur >= off,
                spec_name_bytes(self.strings@, off as int) =~= r@ + spec_name_bytes(
                    self.strings@,
                    cur as int,
                ),
            decreases n - cur,
        {
            let ghost pre = r@;
            r.push(self.strings[cur]);
            proof {
                assert(spec_name_bytes(self.strings@, cur as int) =~= seq![
                    self.strings@[cur as int]] + spec_name_bytes(self.strings@, cur + 1));
                assert(r@ + spec_name_bytes(self.strings@, cur + 1) =~= pre + spec_name_bytes(
                    self.strings@,
                    cur as int,
                ));
            }
            cur = cur + 1;
        }
        proof {
            assert(spec_name_bytes(self.strings@, cur as int) =~= Seq::<u8>::empty());
            assert(r@ =~= spec_name_bytes(self.strings@, off as int));
        }
        r
    }

    /// The name recorded for a symbol: the bytes at its name offset
    /// up to the first NUL, decoded as UTF-8, or a placeholder when
    /// they are no valid text.
    pub open spec fn spec_symbol_name(&self, k: int) -> Seq<char> {
        match utf8_of(spec_name_bytes(self.strings(), self.syms()[k].name_offset as int)) {
            Some(t) => t,
            None => "bad-symbol-name"@,
        }
    }

    /// Name of some symbol containing `offset`, exactly at its start,
    /// through `start + size - 1`, and nothing at `start + size` or
    /// in gaps (when ranges are disjoint).
    pub fn find(&self, offset: u64) -> (r: Option<String>)
        requires
            self.wf(),
        ensures
            match r {
                Some(nm) => exists|k: int|
                    0 <= k < self.syms().len() && sym_contains(#[trigger] self.syms()[k], offset)
                        && nm@ == self.spec_symbol_name(k),
                None => syms_disjoint(self.syms()) ==> forall|k: int|
                    0 <= k < self.syms().len() ==> !sym_contains(#[trigger] self.syms()[k], offset),
            },
    {
        match self.find_idx(offset) {
            Some(k) => {
                let noff = self.syms[k].name_offset;
                let bytes = self.name_bytes(noff as usize);
                let nm = match bytes_to_utf8(bytes.as_slice()) {
                    Some(s) => s,
                    None => {
                        let mut s = String::new();
                        s.push_str("bad-symbol-name");
                        s
                    },
                };
                proof {
                    assert(sym_contains(self.syms()[k as int], offset));
                    assert(nm@ == self.spec_symbol_name(k as int));
                }
                Some(nm)
            },
            None => None,
        }
    }
}

/// The file-name component of a path: the bytes after the last
/// slash, or the whole path when it holds none. It is the display
/// name a symbol table carries for its module.
pub fn base_name(path: &[u8]) -> (r: Vec<u8>)
    ensures
        (forall|t: int| 0 <= t < path@.len() ==> path@[t] != 0x2f) ==> r@ == path@,
        forall|k: int|
            0 <= k < path@.len() && path@[k] == 0x2f && (forall|t: int|
                k < t < path@.len() ==> path@[t] != 0x2f) ==> r@ == path@.subrange(
                k + 1,
                path@.len() as int,
            ),
{
    let n = path.len();
    let mut k = n;
    while k > 0
        invariant
            k <= n,
            n == path@.len(),
            forall|t: int| k <= t < n ==> path@[t] != 0x2f,
        decreases k,
    {
        if path[k - 1] == 0x2f {
            let mut r: Vec<u8> = Vec::new();
            let mut t = k;
            while t < n
                invariant
                    k <= t <= n,
                    n == path@.len(),
                    r@ =~= path@.subrange(k as int, t as int),
                decreases n - t,
            {
                r.push(path[t]);
                t = t + 1;
            }
            proof {
                assert(path@[k as int - 1] == 0x2f);
                assert(r@ =~= path@.subrange(k as int, n as int));
                assert forall|k2: int|
                    0 <= k2 < path@.len() && path@[k2] == 0x2f && (forall|t2: int|
                        k2 < t2 < path@.len() ==> path@[t2] != 0x2f) implies r@ == path@.subrange(
                    k2 + 1,
                    path@.len() as int,
                ) by {
                    assert(k2 == k - 1);
                }
            }
            return r;
        }
        k = k - 1;
    }
    let mut r: Vec<u8> = Vec::new();
    let mut t: usize = 0;
    while t < n
        invariant
            t <= n,
            n == path@.len(),
            r@ =~= path@.subrange(0, t as int),
        decreases n - t,
    {
        r.push(path[t]);
        t = t + 1;
    }
    proof {
        assert(r@ =~= path@);
    }
    r
}

} // verus!

verus! {

/// Whether `elf64` parses the bytes as an ELF64 image; a pure
/// function of the bytes.
pub uninterp spec fn elf_parses(s: Seq<u8>) -> bool;

/// The image's section count, as `elf64` reads it from the header.
pub uninterp spec fn elf_section_count_of(s: Seq<u8>) -> usize;

/// The linked string-table index `elf64` reports for section `i`
/// when that section is a symbol table or dynamic symbol table.
pub uninterp spec fn elf_symtab_link_of(s: Seq<u8>, i: int) -> Option<u16>;

/// Symbol `j` of section `i`, as (value, size, name offset), as
/// `elf64` decodes it.
pub uninterp spec fn elf_symbol_of(s: Seq<u8>, i: int, j: int) -> Option<(u64, u64, u32)>;

/// The raw bytes of string-table section `i`, as `elf64` slices
/// them.
pub uninterp spec fn elf_strtab_of(s: Seq<u8>, i: int) -> Option<Seq<u8>>;

/// A `u64` header field at byte `off`, in the image's own byte
/// order (identifier byte 5: 1 little, 2 big).
pub open spec fn spec_word64(s: Seq<u8>, off: int, big: bool) -> int {
    if big {
        0x100_0000_0000_0000 * s[off] + 0x1_0000_0000_0000 * s[off + 1] + 0x100_0000_0000 * s[off
            + 2] + 0x1_0000_0000 * s[off + 3] + 0x100_0000 * s[off + 4] + 0x1_0000 * s[off + 5]
            + 0x100 * s[off + 6] + s[off + 7]
    } else {
        s[off] + 0x100 * s[off + 1] + 0x1_0000 * s[off + 2] + 0x100_0000 * s[off + 3]
            + 0x1_0000_0000 * s[off + 4] + 0x100_0000_0000 * s[off + 5] + 0x1_0000_0000_0000 * s[off
            + 6] + 0x100_0000_0000_0000 * s[off + 7]
    }
}

/// A `u16` header field at byte `off`, in the image's byte order.
pub open spec fn spec_word16(s: Seq<u8>, off: int, big: bool) -> int {
    if big {
        0x100 * s[off] + s[off + 1]
    } else {
        s[off] + 0x100 * s[off + 1]
    }
}

/// A `u32` header field at byte `off`, in the image's byte order.
pub open spec fn spec_word32(s: Seq<u8>, off: int, big: bool) -> int {
    if big {
        0x100_0000 * s[off] + 0x1_0000 * s[off + 1] + 0x100 * s[off + 2] + s[off + 3]
    } else {
        s[off] + 0x100 * s[off + 1] + 0x1_0000 * s[off + 2] + 0x100_0000 * s[off + 3]
    }
}

/// A section index `elf64` treats as a regular table index (not
/// undefined, reserved, absolute or common).
pub open spec fn regular_index(v: int) -> bool {
    v != 0 && !(0xff00 <= v <= 0xff3f) && v != 0xfff1 && v != 0xfff2
}

/// When looking up section `i`'s display name cannot run past the
/// image's section-names table. `elf64` walks that table byte by
/// byte from the name offset and reads one byte beyond the last
/// position it checks, so a NUL-free tail of at most 0xff bytes at
/// the name offset would be read out of bounds. Safe when the image
/// declares no usable names table (or fails to parse at all), when
/// the name offset starts past the table, when at least 0x100 bytes
/// follow it (the walk stops at 0xff), or when a NUL terminator
/// exists before the image's end.
pub open spec fn name_read_safe(s: Seq<u8>, i: int) -> bool {
    let big = s[5] == 2;
    let shoff = spec_word64(s, 0x28, big);
    let ni = spec_word16(s, 0x3e, big);
    let nh = shoff + ni * 0x40;
    ||| !regular_index(ni)
    ||| nh + 0x40 > s.len()
    ||| spec_word32(s, nh + 4, big) != 3
    ||| spec_word64(s, nh + 0x18, big) > s.len()
    ||| {
        let noff = spec_word64(s, nh + 0x18, big);
        let idx = spec_word32(s, shoff + i * 0x40, big);
        ||| idx > s.len() - noff
        ||| s.len() - noff - idx > 0xff
        ||| exists|t: int| noff + idx <= t < s.len() && s[t] == 0
    }
}

/// When `elf64` may be asked for section `i` of this image without
/// risking its unchecked slice arithmetic: either it stops early on
/// its own (image shorter than a header, unknown byte order, or the
/// section header itself out of bounds), or the section's declared
/// byte span lies inside the image and the section-name lookup stays
/// inside the names table.
pub open spec fn section_call_safe(s: Seq<u8>, i: int) -> bool {
    ||| s.len() < 0x40
    ||| (s[5] != 1 && s[5] != 2)
    ||| {
        let big = s[5] == 2;
        let hdr = spec_word64(s, 0x28, big) + i * 0x40;
        ||| hdr + 0x40 > s.len()
        ||| (spec_word64(s, hdr + 0x18, big) + spec_word64(s, hdr + 0x20, big) <= s.len()
            && name_read_safe(s, i))
    }
}

fn read_word64(s: &[u8], off: usize, big: bool) -> (r: u64)
    requires
        off + 8 <= s@.len(),
    ensures
        r as int == spec_word64(s@, off as int, big),
{
    let n = s.len();
    assert(off + 8 <= n);
    let b0 = s[off] as u64;
    let b1 = s[off + 1] as u64;
    let b2 = s[off + 2] as u64;
    let b3 = s[off + 3] as u64;
    let b4 = s[off + 4] as u64;
    let b5 = s[off + 5] as u64;
    let b6 = s[off + 6] as u64;
    let b7 = s[off + 7] as u64;
    if big {
        0x100_0000_0000_0000 * b0 + 0x1_0000_0000_0000 * b1 + 0x100_0000_0000 * b2
            + 0x1_0000_0000 * b3 + 0x100_0000 * b4 + 0x1_0000 * b5 + 0x100 * b6 + b7
    } else {
        b0 + 0x100 * b1 + 0x1_0000 * b2 + 0x100_0000 * b3 + 0x1_0000_0000 * b4
            + 0x100_0000_0000 * b5 + 0x1_0000_0000_0000 * b6 + 0x100_0000_0000_0000 * b7
    }
}

fn read_word16(s: &[u8], off: usize, big: bool) -> (r: u16)
    requires
        off + 2 <= s@.len(),
    ensures
        r as int == spec_word16(s@, off as int, big),
{
    let n = s.len();
    assert(off + 2 <= n);
    let b0 = s[off] as u16;
    let b1 = s[off + 1] as u16;
    if big {
        0x100 * b0 + b1
    } else {
        b0 + 0x100 * b1
    }
}

fn read_word32(s: &[u8], off: usize, big: bool) -> (r: u32)
    requires
        off + 4 <= s@.len(),
    ensures
        r as int == spec_word32(s@, off as int, big),
{
    let n = s.len();
    assert(off + 4 <= n);
    let b0 = s[off] as u32;
    let b1 = s[off + 1] as u32;
    let b2 = s[off + 2] as u32;
    let b3 = s[off + 3] as u32;
    if big {
        0x100_0000 * b0 + 0x1_0000 * b1 + 0x100 * b2 + b3
    } else {
        b0 + 0x100 * b1 + 0x1_0000 * b2 + 0x100_0000 * b3
    }
}

/// The executable check behind `section_call_safe`.
fn section_safe(s: &[u8], i: usize) -> (r: bool)
    requires
        i <= 0xffff,
    ensures
        r == section_call_safe(s@, i as int),
{
    let n = s.len();
    if n < 0x40 {
        return true;
    }
    let e = s[5];
    if e != 1 && e != 2 {
        return true;
    }
    let big = e == 2;
    let shoff = read_word64(s, 0x28, big);
    let hdr = match shoff.checked_add((i as u64) * 0x40) {
        Some(h) => h,
        None => {
            return true;
        },
    };
    if hdr > u64::MAX - 0x40 {
        return true;
    }
    if hdr + 0x40 > n as u64 {
        return true;
    }
    let off = read_word64(s, hdr as usize + 0x18, big);
    let sz = read_word64(s, hdr as usize + 0x20, big);
    let span_ok = match off.checked_add(sz) {
        Some(t) => t <= n as u64,
        None => false,
    };
    if !span_ok {
        return false;
    }
    // the section-name lookup must stay inside the names table
    let ni = read_word16(s, 0x3e, big);
    if ni == 0 || (0xff00 <= ni && ni <= 0xff3f) || ni == 0xfff1 || ni == 0xfff2 {
        return true;
    }
    let nh = match shoff.checked_add((ni as u64) * 0x40) {
        Some(h) => h,
        None => {
            return true;
        },
    };
    if nh > u64::MAX - 0x40 {
        return true;
    }
    if nh + 0x40 > n as u64 {
        return true;
    }
    let ty = read_word32(s, nh as usize + 4, big);
    if ty != 3 {
        return true;
    }
    let noff = read_word64(s, nh as usize + 0x18, big);
    if noff > n as u64 {
        return true;
    }
    let idx = read_word32(s, hdr as usize, big) as u64;
    let l = n as u64 - noff;
    if idx > l {
        return true;
    }
    if l - idx > 0xff {
        return true;
    }
    has_nul_from(s, (noff + idx) as usize)
}

fn has_nul_from(s: &[u8], start: usize) -> (r: bool)
    requires
        start <= s@.len(),
    ensures
        r == exists|t: int| start <= t < s@.len() && s@[t] == 0,
{
    let n = s.len();
    let mut t = start;
    while t < n
        invariant
            start <= t <= n,
            n == s@.len(),
            forall|q: int| start <= q < t ==> s@[q] != 0,
        decreases n - t,
    {
        if s[t] == 0 {
            proof {
                assert(s@[t as int] == 0);
            }
            return true;
        }
        t = t + 1;
    }
    false
}

/// Why ELF bytes could not be loaded as a symbol table.
#[derive(Clone, Copy, PartialEq, Eq, Structural, Debug)]
pub enum LoadError {
    /// Not a parseable ELF64 image.
    BadElf,
}

/// Relies on `elf64::Elf64::new`: whether the bytes parse as an
/// ELF64 image; its header check admits nothing shorter than a full
/// header. `new` itself bounds-checks every slice it takes.
#[verifier::external_body]
fn elf_ok(data: &[u8]) -> (r: bool)
    ensures
        r == elf_parses(data@),
        r ==> data@.len() >= 0x40,
{
    elf64::Elf64::new(data).is_ok()
}

/// Relies on `elf64::Elf64::{new, section_number}`: the section
/// count, a `u16` header field.
#[verifier::external_body]
fn elf_section_count(data: &[u8]) -> (r: usize)
    ensures
        r == elf_section_count_of(data@),
        r <= 0xffff,
{
    match elf64::Elf64::new(data) {
        Ok(e) => e.section_number(),
        Err(_) => 0,
    }
}

/// Relies on `elf64::Elf64::{new, section}`: the linked index of a
/// symbol-table or dynamic-symbol-table section, one match arm per
/// variant. The precondition keeps `section`'s unchecked slice
/// arithmetic in range.
#[verifier::external_body]
fn elf_symtab_link(data: &[u8], i: usize) -> (r: Option<u16>)
    requires
        section_call_safe(data@, i as int),
        i <= 0xffff,
    ensures
        r == elf_symtab_link_of(data@, i as int),
{
    match elf64::Elf64::new(data) {
        Ok(e) => match e.section(i) {
            Ok(Some(s)) => match (s.link, s.data) {
                (elf64::Index::Regular(l), elf64::SectionData::SymbolTable { .. }) => Some(l),
                (elf64::Index::Regular(l), elf64::SectionData::DynamicSymbolTable { .. }) => Some(
                    l,
                ),
                _ => None,
            },
            _ => None,
        },
        Err(_) => None,
    }
}

/// Relies on `elf64::Elf64::{new, section}` and `Table::pick`:
/// symbol `j` of section `i`, moved out as plain fields; `None` past
/// the section's end. The preconditions keep `section`'s and
/// `pick`'s index arithmetic in range.
#[verifier::external_body]
fn elf_symbol_entry(data: &[u8], i: usize, j: usize) -> (r: Option<(u64, u64, u32)>)
    requires
        section_call_safe(data@, i as int),
        i <= 0xffff,
        j <= data@.len() / 0x18,
    ensures
        r == elf_symbol_of(data@, i as int, j as int),
{
    match elf64::Elf64::new(data) {
        Ok(e) => match e.section(i) {
            Ok(Some(s)) => match s.data {
                elf64::SectionData::SymbolTable { table, .. } => table.pick(j).ok().map(
                    |y| (y.value, y.size, y.name),
                ),
                elf64::SectionData::DynamicSymbolTable { table, .. } => table.pick(j).ok().map(
                    |y| (y.value, y.size, y.name),
                ),
                _ => None,
            },
            _ => None,
        },
        Err(_) => None,
    }
}

/// Relies on `elf64::Elf64::{new, section}` and
/// `StringTable::as_raw`: the raw bytes of string-table section `i`.
#[verifier::external_body]
fn elf_section_strings(data: &[u8], i: usize) -> (r: Option<Vec<u8>>)
    requires
        section_call_safe(data@, i as int),
        i <= 0xffff,
    ensures
        match r {
            Some(v) => elf_strtab_of(data@, i as int) == Some(v@),
            None => elf_strtab_of(data@, i as int) is None,
        },
{
    match elf64::Elf64::new(data) {
        Ok(e) => match e.section(i) {
            Ok(Some(s)) => match s.data {
                elf64::SectionData::StringTable(t) => Some(t.as_raw().to_vec()),
                _ => None,
            },
            _ => None,
        },
        Err(_) => None,
    }
}

/// Section `i` contributes symbols: the walk guard accepts it, it
/// is a symbol-table or dynamic-symbol-table section, and its link
/// names a loadable string-table section within the section count.
pub open spec fn sec_contributes(s: Seq<u8>, i: int, nsec: int) -> bool {
    &&& section_call_safe(s, i)
    &&& match elf_symtab_link_of(s, i) {
        Some(link) => {
            &&& (link as int) < nsec
            &&& section_call_safe(s, link as int)
            &&& elf_strtab_of(s, link as int) is Some
        },
        None => false,
    }
}

/// The string bytes section `i` contributes: its linked string
/// table, or nothing.
pub open spec fn sec_strtab(s: Seq<u8>, i: int, nsec: int) -> Seq<u8> {
    if sec_contributes(s, i, nsec) {
        match elf_symtab_link_of(s, i) {
            Some(link) => match elf_strtab_of(s, link as int) {
                Some(t) => t,
                None => Seq::empty(),
            },
            None => Seq::empty(),
        }
    } else {
        Seq::empty()
    }
}

/// The string buffer accumulated over the first `k` sections.
pub open spec fn strings_pre(s: Seq<u8>, k: int, nsec: int) -> Seq<u8>
    decreases k,
{
    if k <= 0 {
        Seq::empty()
    } else {
        strings_pre(s, k - 1, nsec) + sec_strtab(s, k - 1, nsec)
    }
}

/// How many leading entries of section `i`'s symbol walk are read
/// within the first `j` indices: the walk stops at the first entry
/// past the section's end.
pub open spec fn sec_nsyms(s: Seq<u8>, i: int, j: int) -> int
    decreases j,
{
    if j <= 0 {
        0
    } else if sec_nsyms(s, i, j - 1) < j - 1 {
        sec_nsyms(s, i, j - 1)
    } else if elf_symbol_of(s, i, j - 1) is Some {
        j
    } else {
        j - 1
    }
}

/// The table entry one raw symbol yields, name offset shifted by the
/// string buffer collected so far; a corrupt range or an overflowing
/// name offset yields nothing.
pub open spec fn sym_of_entry(e: (u64, u64, u32), base: int) -> Option<Symbol> {
    if e.0 + e.1 > u64::MAX {
        None
    } else if base + e.2 > u32::MAX {
        None
    } else {
        Some(Symbol { start: e.0, end: (e.0 + e.1) as u64, name_offset: (base + e.2) as u32 })
    }
}

/// The entries section `i` contributes over its first `j` walked
/// indices, with name offsets shifted by `base`.
pub open spec fn sec_syms(s: Seq<u8>, i: int, base: int, j: int) -> Seq<Symbol>
    decreases j,
{
    if j <= 0 {
        Seq::empty()
    } else {
        let rest = sec_syms(s, i, base, j - 1);
        if sec_nsyms(s, i, j) == j {
            match elf_symbol_of(s, i, j - 1) {
                Some(e) => match sym_of_entry(e, base) {
                    Some(sym) => rest.push(sym),
                    None => rest,
                },
                None => rest,
            }
        } else {
            rest
        }
    }
}

/// All entries the first `k` sections contribute.
pub open spec fn syms_pre(s: Seq<u8>, k: int, nsec: int) -> Seq<Symbol>
    decreases k,
{
    if k <= 0 {
        Seq::empty()
    } else {
        syms_pre(s, k - 1, nsec) + (if sec_contributes(s, k - 1, nsec) {
            sec_syms(s, k - 1, strings_pre(s, k - 1, nsec).len() as int, s.len() as int / 0x18)
        } else {
            Seq::empty()
        })
    }
}

proof fn lemma_nsyms_stops(s: Seq<u8>, i: int, j: int, jj: int)
    requires
        0 <= j <= jj,
        sec_nsyms(s, i, j) == j,
        elf_symbol_of(s, i, j) is None,
    ensures
        sec_nsyms(s, i, jj) == j,
    decreases jj - j,
{
    if jj > j {
        lemma_nsyms_stops(s, i, j, jj - 1);
    }
}

proof fn lemma_syms_stop(s: Seq<u8>, i: int, base: int, j: int, jj: int)
    requires
        0 <= j <= jj,
        sec_nsyms(s, i, j) == j,
        elf_symbol_of(s, i, j) is None,
    ensures
        sec_syms(s, i, base, jj) == sec_syms(s, i, base, j),
    decreases jj - j,
{
    if jj > j {
        lemma_syms_stop(s, i, base, j, jj - 1);
        lemma_nsyms_stops(s, i, j, jj - 1);
        lemma_nsyms_stops(s, i, j, jj);
    }
}

impl SymbolTable {
    /// Parse an ELF image into a symbol table: every symbol-table and
    /// dynamic-symbol-table section with a valid linked string-table
    /// section contributes its entries; a bad link, a section out of
    /// the image's bounds, or a corrupt entry is skipped, never
    /// fatal. Name offsets are shifted by the cumulative
    /// string-buffer length so one buffer backs all sections. `Err`
    /// comes exactly on bytes that are no ELF64 image; on `Ok` the
    /// table holds exactly the collected entries and strings, a
    /// function of the bytes alone.
    pub fn load(data: &[u8], modname: String) -> (r: Result<SymbolTable, LoadError>)
        ensures
            r is Err <==> !elf_parses(data@),
            match r {
                Ok(t) => {
                    let ns = elf_section_count_of(data@) as int;
                    &&& t.wf()
                    &&& t.name_view() == modname@
                    &&& t.strings() == strings_pre(data@, ns, ns)
                    &&& t.syms().to_multiset() == syms_pre(data@, ns, ns).to_multiset()
                    &&& t.syms().len() == syms_pre(data@, ns, ns).len()
                },
                Err(e) => e == LoadError::BadElf,
            },
    {
        if !elf_ok(data) {
            return Err(LoadError::BadElf);
        }
        let nsec = elf_section_count(data);
        let mut entries: Vec<Symbol> = Vec::new();
        let mut strings: Vec<u8> = Vec::new();
        // each symbol entry takes 0x18 bytes of the image
        let jlimit = data.len() / 0x18;
        let mut i: usize = 0;
        while i < nsec
            invariant
                nsec <= 0xffff,
                nsec == elf_section_count_of(data@),
                jlimit == data@.len() / 0x18,
                i <= nsec,
                strings@ == strings_pre(data@, i as int, nsec as int),
                entries@ == syms_pre(data@, i as int, nsec as int),
            decreases nsec - i,
        {
            if !section_safe(data, i) {
                proof {
                    assert(!sec_contributes(data@, i as int, nsec as int));
                }
                i = i + 1;
                continue ;
            }
            let link = match elf_symtab_link(data, i) {
                Some(link) => link,
                None => {
                    proof {
                        assert(!sec_contributes(data@, i as int, nsec as int));
                    }
                    i = i + 1;
                    continue ;
                },
            };
            let li = link as usize;
            let strtab = if li < nsec && section_safe(data, li) {
                elf_section_strings(data, li)
            } else {
                None
            };
            let mut strtab = match strtab {
                Some(t) => t,
                None => {
                    proof {
                        assert(!sec_contributes(data@, i as int, nsec as int));
                    }
                    i = i + 1;
                    continue ;
                },
            };
            let ghost gstr = strtab@;
            proof {
                assert(sec_contributes(data@, i as int, nsec as int));
                assert(sec_strtab(data@, i as int, nsec as int) == gstr);
            }
            let base = strings.len();
            let ghost ents0 = entries@;
            let mut j: usize = 0;
            while j < jlimit
                invariant_except_break
                    jlimit == data@.len() / 0x18,
                    j <= jlimit,
                    i <= 0xffff,
                    section_call_safe(data@, i as int),
                    sec_nsyms(data@, i as int, j as int) == j,
                    entries@ == ents0 + sec_syms(data@, i as int, base as int, j as int),
                ensures
                    entries@ == ents0 + sec_syms(
                        data@,
                        i as int,
                        base as int,
                        jlimit as int,
                    ),
                decreases jlimit - j,
            {
                match elf_symbol_entry(data, i, j) {
                    Some((value, size, nameoff)) => {
                        proof {
                            assert(sec_nsyms(data@, i as int, j + 1) == j + 1);
                        }
                        let end = match value.checked_add(size) {
                            Some(e) => e,
                            None => {
                                proof {
                                    assert(sec_syms(data@, i as int, base as int, j + 1)
                                        == sec_syms(data@, i as int, base as int, j as int));
                                }
                                j = j + 1;
                                continue ;
                            },
                        };
                        if base <= (u32::MAX - nameoff) as usize {
                            proof {
                                assert(base <= u32::MAX);
                            }
                            let sym = Symbol {
                                start: value,
                                end,
                                name_offset: base as u32 + nameoff,
                            };
                            entries.push(sym);
                            proof {
                                assert(sym_of_entry((value, size, nameoff), base as int)
                                    == Some(sym));
                                assert(sec_syms(data@, i as int, base as int, j + 1) == sec_syms(
                                    data@,
                                    i as int,
                                    base as int,
                                    j as int,
                                ).push(sym));
                            }
                        } else {
                            proof {
                                assert(sym_of_entry((value, size, nameoff), base as int) is None);
                                assert(sec_syms(data@, i as int, base as int, j + 1) == sec_syms(
                                    data@,
                                    i as int,
                                    base as int,
                                    j as int,
                                ));
                            }
                        }
                    },
                    None => {
                        proof {
                            lemma_syms_stop(
                                data@,
                                i as int,
                                base as int,
                                j as int,
                                jlimit as int,
                            );
                        }
                        break ;
                    },
                }
                j = j + 1;
            }
            strings.append(&mut strtab);
            proof {
                assert(base == strings_pre(data@, i as int, nsec as int).len());
                assert(strings@ == strings_pre(data@, i + 1, nsec as int));
                assert(entries@ == syms_pre(data@, i + 1, nsec as int));
            }
            i = i + 1;
        }
        Ok(SymbolTable::from_entries(entries, strings, modname))
    }
}

} // verus!

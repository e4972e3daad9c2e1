//! Section-header tables of 32- and 64-bit ELF images in either byte order,
//! as the console front ends (PS3, PS4/PS5) list them: each entry's name
//! from the section-name string table, address, file offset, size and flags.
use vstd::prelude::*;
use crate::elf::{find_nul, nul_from, rd16, rd32};
use crate::engine::{read_u16, read_u32};
use crate::text::{dec_nat, owned, push_dec_u64, utf8_lossy, utf8_lossy_text};

verus! {

/// The 64-bit value at `off` in the given byte order, or 0 when fewer than
/// eight bytes remain there.
pub open spec fn rd64(d: Seq<u8>, off: int, le: bool) -> u64 {
    if 0 <= off && off + 8 <= d.len() {
        if le {
            (rd32(d, off, le) as u64) | ((rd32(d, off + 4, le) as u64) << 32u64)
        } else {
            ((rd32(d, off, le) as u64) << 32u64) | (rd32(d, off + 4, le) as u64)
        }
    } else {
        0
    }
}

pub fn read16(d: &[u8], off: usize, le: bool) -> (r: u16)
    ensures
        r == rd16(d@, off as int, le),
{
    if off >= d.len() || d.len() - off < 2 {
        return 0;
    }
    read_u16(d, off, le)
}

pub fn read32(d: &[u8], off: usize, le: bool) -> (r: u32)
    ensures
        r == rd32(d@, off as int, le),
{
    if off >= d.len() || d.len() - off < 4 {
        return 0;
    }
    read_u32(d, off, le)
}

pub fn read64(d: &[u8], off: usize, le: bool) -> (r: u64)
    ensures
        r == rd64(d@, off as int, le),
{
    if off >= d.len() || d.len() - off < 8 {
        return 0;
    }
    let a = read_u32(d, off, le) as u64;
    let b = read_u32(d, off + 4, le) as u64;
    if le {
        a | (b << 32u64)
    } else {
        (a << 32u64) | b
    }
}

/// A 32-bit field (widened) of a 32-bit image, or a 64-bit field of a 64-bit one.
pub open spec fn rdw(d: Seq<u8>, off: int, le: bool, wide: bool) -> u64 {
    if wide { rd64(d, off, le) } else { rd32(d, off, le) as u64 }
}

fn read_word(d: &[u8], off: usize, le: bool, wide: bool) -> (r: u64)
    ensures
        r == rdw(d@, off as int, le, wide),
{
    if wide { read64(d, off, le) } else { read32(d, off, le) as u64 }
}

/// `e_shoff`.
pub open spec fn hdr_shoff(d: Seq<u8>, le: bool, wide: bool) -> u64 {
    if wide { rd64(d, 40, le) } else { rd32(d, 32, le) as u64 }
}

/// `e_shentsize`.
pub open spec fn hdr_shentsize(d: Seq<u8>, le: bool, wide: bool) -> u16 {
    rd16(d, if wide { 58 } else { 46 }, le)
}

/// `e_shnum`.
pub open spec fn hdr_shnum(d: Seq<u8>, le: bool, wide: bool) -> u16 {
    rd16(d, if wide { 60 } else { 48 }, le)
}

/// `e_shstrndx`.
pub open spec fn hdr_shstrndx(d: Seq<u8>, le: bool, wide: bool) -> u16 {
    rd16(d, if wide { 62 } else { 50 }, le)
}

/// The size of one section header.
pub open spec fn entry_size(wide: bool) -> int {
    if wide { 64 } else { 40 }
}

/// The table is walked: `e_shoff` is set and entries are at least a header long.
pub open spec fn walks(d: Seq<u8>, le: bool, wide: bool) -> bool {
    hdr_shoff(d, le, wide) > 0 && hdr_shentsize(d, le, wide) >= entry_size(wide)
}

/// The file offset of section header `i` (with `e_shoff` taken as a `usize`).
pub open spec fn sh_at(d: Seq<u8>, le: bool, wide: bool, i: int) -> int {
    (hdr_shoff(d, le, wide) as usize) as int + i * hdr_shentsize(d, le, wide)
}

/// The file offset of the section-name string table: that of section
/// `e_shstrndx` when it exists and its header lies in the file, else 0.
pub open spec fn strtab_off(d: Seq<u8>, le: bool, wide: bool) -> u64 {
    let k = hdr_shstrndx(d, le, wide) as int;
    let so = sh_at(d, le, wide, k);
    if walks(d, le, wide) && k < hdr_shnum(d, le, wide) && so + entry_size(wide) <= d.len() {
        rdw(d, so + if wide { 24int } else { 16int }, le, wide)
    } else {
        0
    }
}

/// At most this many headers are read.
pub open spec fn sec_limit(d: Seq<u8>, le: bool, wide: bool) -> int {
    if hdr_shnum(d, le, wide) < 1024 { hdr_shnum(d, le, wide) as int } else { 1024 }
}

/// The index of the first header at or after `i` that is past the limit or
/// runs past the end of the file.
pub open spec fn count_from(d: Seq<u8>, le: bool, wide: bool, i: int) -> int
    decreases sec_limit(d, le, wide) - i,
{
    if i < 0 || i >= sec_limit(d, le, wide) || sh_at(d, le, wide, i) + entry_size(wide) > d.len() {
        i
    } else {
        count_from(d, le, wide, i + 1)
    }
}

/// How many section headers are listed.
pub open spec fn sec_count(d: Seq<u8>, le: bool, wide: bool) -> int {
    if walks(d, le, wide) { count_from(d, le, wide, 0) } else { 0 }
}

/// Where the name of section `i` starts (string-table offset plus `sh_name`).
pub open spec fn name_start(d: Seq<u8>, le: bool, wide: bool, i: int) -> int {
    (strtab_off(d, le, wide) as usize) as int + rd32(d, sh_at(d, le, wide, i), le)
}

/// The name of section `i`: the bytes from its name offset to the next NUL
/// (at most 64 when there is none), decoded lossily, when the string table is
/// known and the offset lies in the file; otherwise `sec<i>`.
pub open spec fn sec_name(d: Seq<u8>, le: bool, wide: bool, i: int) -> Seq<char> {
    let s = name_start(d, le, wide, i);
    if strtab_off(d, le, wide) > 0 && s < d.len() {
        let e = match nul_from(d, s) {
            Some(z) => z,
            None => if s + 64 <= d.len() { s + 64 } else { d.len() as int },
        };
        utf8_lossy_text(d.subrange(s, e))
    } else {
        "sec"@ + dec_nat(i as nat)
    }
}

/// One listed section header: name, address, file offset, size and flags.
#[derive(Debug, Clone)]
pub struct SectionRecord {
    pub name: String,
    pub addr: u64,
    pub offset: u64,
    pub size: u64,
    pub flags: u64,
}

/// A record as plain values.
pub open spec fn record_view(r: SectionRecord) -> (Seq<char>, u64, u64, u64, u64) {
    (r.name@, r.addr, r.offset, r.size, r.flags)
}

/// Section header `i` as plain values.
pub open spec fn spec_record(d: Seq<u8>, le: bool, wide: bool, i: int) -> (Seq<char>, u64, u64, u64, u64) {
    let off = sh_at(d, le, wide, i);
    (
        sec_name(d, le, wide, i),
        rdw(d, off + if wide { 16int } else { 12int }, le, wide),
        rdw(d, off + if wide { 24int } else { 16int }, le, wide),
        rdw(d, off + if wide { 32int } else { 20int }, le, wide),
        rdw(d, off + 8, le, wide),
    )
}

/// The inputs on which walking the table would overflow a `usize` offset.
pub open spec fn walk_overflows(d: Seq<u8>, le: bool, wide: bool) -> bool {
    let n = sec_count(d, le, wide);
    &&& walks(d, le, wide)
    &&& {
        ||| hdr_shstrndx(d, le, wide) < hdr_shnum(d, le, wide)
            && sh_at(d, le, wide, hdr_shstrndx(d, le, wide) as int) + entry_size(wide) > usize::MAX
        ||| n < sec_limit(d, le, wide) && sh_at(d, le, wide, n) + entry_size(wide) > usize::MAX
        ||| strtab_off(d, le, wide) > 0 && exists|i: int| 0 <= i < n && #[trigger] name_start(d, le, wide, i) > usize::MAX
    }
}

proof fn lemma_count_bounds(d: Seq<u8>, le: bool, wide: bool, i: int)
    requires
        0 <= i,
    ensures
        i <= count_from(d, le, wide, i),
        count_from(d, le, wide, i) <= sec_limit(d, le, wide) || count_from(d, le, wide, i) == i,
        forall|j: int| i <= j < count_from(d, le, wide, i) ==> #[trigger] sh_at(d, le, wide, j) + entry_size(wide) <= d.len(),
        forall|j: int| i <= j <= count_from(d, le, wide, i) ==> #[trigger] count_from(d, le, wide, j) == count_from(d, le, wide, i),
    decreases sec_limit(d, le, wide) - i,
{
    if !(i >= sec_limit(d, le, wide) || sh_at(d, le, wide, i) + entry_size(wide) > d.len()) {
        lemma_count_bounds(d, le, wide, i + 1);
        assert(count_from(d, le, wide, i) == count_from(d, le, wide, i + 1));
    } else {
        assert(count_from(d, le, wide, i) == i);
    }
}

/// The name of section `i`, read as `sec_name` describes.
fn offset_of(base: u128, i: u16, size: u16) -> (r: u128)
    requires
        base <= 0xFFFF_FFFF_FFFF_FFFF,
    ensures
        r == base + i * size,
        r <= 0x1_0000_0000_FFFF_FFFF,
{
    assert((i as u128) * (size as u128) <= 0xFFFF_FFFF) by (nonlinear_arith)
        requires
            i <= 0xFFFF,
            size <= 0xFFFF,
    ;
    base + (i as u128) * (size as u128)
}

/// Whether walking the section table keeps every offset inside a `usize`
/// (the inputs `walk_sections` accepts).
pub fn walk_fits(data: &[u8], le: bool, wide: bool) -> (b: bool)
    ensures
        b == !walk_overflows(data@, le, wide),
{
    let ghost d = data@;
    let shoff = if wide { read64(data, 40, le) } else { read32(data, 32, le) as u64 };
    let shentsize = read16(data, if wide { 58 } else { 46 }, le);
    let shnum = read16(data, if wide { 60 } else { 48 }, le);
    let shstrndx = read16(data, if wide { 62 } else { 50 }, le);
    let esize: usize = if wide { 64 } else { 40 };
    if !(shoff > 0 && shentsize as usize >= esize) {
        return true;
    }
    let base: u128 = (shoff as usize) as u128;
    let maxu: u128 = usize::MAX as u128;
    let len = data.len();
    if shstrndx < shnum && offset_of(base, shstrndx, shentsize) + (esize as u128) > maxu {
        return false;
    }
    let mut strtab: u64 = 0;
    if shstrndx < shnum {
        let so: usize = (shoff as usize) + (shstrndx as usize) * (shentsize as usize);
        if so + esize <= len {
            strtab = read_word(data, so + if wide { 24 } else { 16 }, le, wide);
        }
    }
    assert(strtab == strtab_off(d, le, wide));
    let limit: u16 = if shnum < 1024 { shnum } else { 1024 };
    proof {
        lemma_count_bounds(d, le, wide, 0);
    }
    let mut i: u16 = 0;
    while i < limit
        invariant
            d == data@,
            len == d.len(),
            walks(d, le, wide),
            base == (hdr_shoff(d, le, wide) as usize) as int,
            maxu == usize::MAX,
            shentsize == hdr_shentsize(d, le, wide),
            esize == entry_size(wide),
            strtab == strtab_off(d, le, wide),
            limit == sec_limit(d, le, wide),
            i <= limit,
            count_from(d, le, wide, i as int) == sec_count(d, le, wide),
            forall|j: int| 0 <= j < i ==> sh_at(d, le, wide, j) + entry_size(wide) <= len,
            strtab > 0 ==> forall|j: int| 0 <= j < i ==> !(#[trigger] name_start(d, le, wide, j) > usize::MAX),
        ensures
            i < limit ==> sh_at(d, le, wide, i as int) + entry_size(wide) > len,
        decreases limit - i,
    {
        let at: u128 = offset_of(base, i, shentsize);
        if at + (esize as u128) > len as u128 {
            break;
        }
        proof {
            lemma_count_bounds(d, le, wide, i as int);
            lemma_count_bounds(d, le, wide, i + 1);
            assert(count_from(d, le, wide, i as int) == count_from(d, le, wide, i + 1));
        }
        if strtab > 0 {
            let name_off = read32(data, at as usize, le);
            if (strtab as usize) as u128 + name_off as u128 > maxu {
                proof {
                    lemma_count_bounds(d, le, wide, i + 1);
                    assert(name_start(d, le, wide, i as int) > usize::MAX);
                }
                return false;
            }
        }
        i = i + 1;
    }
    proof {
        if i < limit {
            assert(count_from(d, le, wide, i as int) == i);
        }
        lemma_count_bounds(d, le, wide, 0);
    }
    if i < limit && offset_of(base, i, shentsize) + (esize as u128) > maxu {
        return false;
    }
    proof {
        if strtab > 0 {
            assert forall|j: int| 0 <= j < sec_count(d, le, wide) implies !(#[trigger] name_start(d, le, wide, j) > usize::MAX) by {}
        }
    }
    true
}

fn section_name(data: &[u8], strtab: u64, name_off: u32, i: u16) -> (r: String)
    requires
        strtab > 0 ==> (strtab as usize) as int + name_off <= usize::MAX,
    ensures
        ({
            let s = (strtab as usize) as int + name_off;
            if strtab > 0 && s < data@.len() {
                let e = match nul_from(data@, s) {
                    Some(z) => z,
                    None => if s + 64 <= data@.len() { s + 64 } else { data@.len() as int },
                };
                r@ == utf8_lossy_text(data@.subrange(s, e))
            } else {
                r@ == "sec"@ + dec_nat(i as nat)
            }
        }),
{
    if strtab > 0 && (strtab as usize) + (name_off as usize) < data.len() {
        let s = (strtab as usize) + (name_off as usize);
        let e = match find_nul(data, s) {
            Some(z) => z,
            None => if data.len() - s >= 64 { s + 64 } else { data.len() },
        };
        utf8_lossy(&data[s..e])
    } else {
        let mut r = owned("sec");
        push_dec_u64(&mut r, i as u64);
        r
    }
}

/// Header `i` (at `e_shoff + i * e_shentsize`) lies within a file of `len` bytes.
fn header_fits(len: usize, shoff: u64, i: u16, shentsize: u16, esize: usize) -> (b: bool)
    requires
        (shoff as usize) as int + i * shentsize + esize <= usize::MAX,
    ensures
        b == ((shoff as usize) as int + i * shentsize + esize <= len),
{
    (shoff as usize) + (i as usize) * (shentsize as usize) + esize <= len
}

/// List the section headers of an ELF image with the given byte order and
/// word size: nothing unless `e_shoff` is set and `e_shentsize` is at least a
/// header long; otherwise headers `0..min(e_shnum, 1024)` up to the first
/// that runs past the end of the file, each with its name resolved through
/// section `e_shstrndx`.
pub fn walk_sections(data: &[u8], le: bool, wide: bool) -> (v: Vec<SectionRecord>)
    requires
        !walk_overflows(data@, le, wide),
    ensures
        v@.len() == sec_count(data@, le, wide),
        forall|i: int| 0 <= i < v@.len() ==> #[trigger] record_view(v@[i]) == spec_record(data@, le, wide, i),
{
    let mut v: Vec<SectionRecord> = Vec::new();
    let shoff = if wide { read64(data, 40, le) } else { read32(data, 32, le) as u64 };
    let shentsize = read16(data, if wide { 58 } else { 46 }, le);
    let shnum = read16(data, if wide { 60 } else { 48 }, le);
    let shstrndx = read16(data, if wide { 62 } else { 50 }, le);
    let esize: usize = if wide { 64 } else { 40 };
    if !(shoff > 0 && shentsize as usize >= esize) {
        return v;
    }
    let ghost d = data@;
    let mut strtab: u64 = 0;
    if shstrndx < shnum {
        let so = (shoff as usize) + (shstrndx as usize) * (shentsize as usize);
        if so + esize <= data.len() {
            strtab = read_word(data, so + if wide { 24 } else { 16 }, le, wide);
        }
    }
    assert(strtab == strtab_off(d, le, wide));
    let limit: u16 = if shnum < 1024 { shnum } else { 1024 };
    let len = data.len();
    proof {
        lemma_count_bounds(d, le, wide, 0);
        if 0 < sec_count(d, le, wide) {
            assert(sh_at(d, le, wide, 0) + entry_size(wide) <= len);
        }
    }
    let mut i: u16 = 0;
    while i < limit && header_fits(data.len(), shoff, i, shentsize, esize)
        invariant
            d == data@,
            len == d.len(),
            walks(d, le, wide),
            !walk_overflows(d, le, wide),
            shoff == hdr_shoff(d, le, wide),
            shentsize == hdr_shentsize(d, le, wide),
            esize == entry_size(wide),
            strtab == strtab_off(d, le, wide),
            limit == sec_limit(d, le, wide),
            i <= limit,
            i <= sec_count(d, le, wide),
            count_from(d, le, wide, i as int) == sec_count(d, le, wide),
            i < limit ==> sh_at(d, le, wide, i as int) + entry_size(wide) <= usize::MAX,
            v@.len() == i,
            forall|j: int| 0 <= j < v@.len() ==> #[trigger] record_view(v@[j]) == spec_record(d, le, wide, j),
        decreases limit - i,
    {
        proof {
            lemma_count_bounds(d, le, wide, 0);
            lemma_count_bounds(d, le, wide, i as int);
            lemma_count_bounds(d, le, wide, i + 1);
            assert(i < sec_count(d, le, wide));
        }
        let off = (shoff as usize) + (i as usize) * (shentsize as usize);
        let name_off = read32(data, off, le);
        proof {
            if strtab > 0 {
                assert(!(name_start(d, le, wide, i as int) > usize::MAX));
            }
        }
        let name = section_name(data, strtab, name_off, i);
        let addr = read_word(data, off + if wide { 16 } else { 12 }, le, wide);
        let offset = read_word(data, off + if wide { 24 } else { 16 }, le, wide);
        let size = read_word(data, off + if wide { 32 } else { 20 }, le, wide);
        let flags = read_word(data, off + 8, le, wide);
        v.push(SectionRecord { name, addr, offset, size, flags });
        i = i + 1;
        proof {
            lemma_count_bounds(d, le, wide, 0);
            lemma_count_bounds(d, le, wide, i as int);
            if i < limit && i < sec_count(d, le, wide) {
                assert(sh_at(d, le, wide, i as int) + entry_size(wide) <= len);
            }
        }
    }
    v
}

} // verus!

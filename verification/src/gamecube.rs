//! GameCube ELF images: executable sections, symbols and identification.
//!
//! The header reader follows the tool's historical layout for these images:
//! ELF64 only; the entry point is `e_entry`, the little-endian word at bytes
//! 24..32;
//! the section-header offset is the 16-bit value at byte 40 and the count
//! the one at byte 58; headers are 64 bytes apart. Each executable header
//! yields a section named by the bytes after its ninth byte; symbol-table
//! headers (type 2) name their 24-byte entries through the string table
//! found so far.
use vstd::prelude::*;
use crate::elf::nul_from;
use crate::ps4ps5::{le16, le32, le64, ru16le, ru32le, ru64le};
use crate::text::{dec_int, dec_nat, hex_fixed, hex_min, owned, push_dec_i64, push_dec_u64, push_hex_fixed, push_hex_min, push_hex_min64, push_str, utf8_lossy, utf8_lossy_text};
use crate::cfg::word_at;
use crate::ppc_disasm::{listing_len, signed_pc};

verus! {

/// A section of a GameCube image (its bytes are not loaded here).
#[derive(Debug, Clone)]
pub struct ElfSection {
    pub name: String,
    pub address: u64,
    pub size: usize,
    pub offset: usize,
    pub data: Vec<u8>,
    pub flags: u32,
}

/// A symbol-table entry.
#[derive(Debug, Clone)]
pub struct SymEntry {
    pub name: String,
    pub value: u64,
    pub size: usize,
    pub info: u8,
    pub other: u8,
    pub shndx: u16,
}

/// What a GameCube ELF image holds.
#[derive(Debug, Clone)]
pub struct ElfFileInfo {
    pub filename: String,
    pub sections: Vec<ElfSection>,
    pub symbols: Vec<SymEntry>,
    pub entry_point: u64,
    pub is_little_endian: bool,
}

/// A section as plain values: name, address, size, file offset, bytes, flags.
pub type GcSectionView = (Seq<char>, u64, usize, usize, Seq<u8>, u32);

/// A symbol as plain values: name, value, size, info, other, section index.
pub type GcSymView = (Seq<char>, u64, usize, u8, u8, u16);

pub open spec fn gc_section_view(s: ElfSection) -> GcSectionView {
    (s.name@, s.address, s.size, s.offset, s.data@, s.flags)
}

pub open spec fn gc_sym_view(s: SymEntry) -> GcSymView {
    (s.name@, s.value, s.size, s.info, s.other, s.shndx)
}

// ---------------------------------------------------------------------------
// Section headers
// ---------------------------------------------------------------------------

/// The header has the ELF magic, is ELF64 and is long enough to read.
pub open spec fn gc_header_ok(d: Seq<u8>) -> bool {
    d.len() >= 52 && d[0] == 0x7F && d[1] == 0x45 && d[2] == 0x4C && d[3] == 0x46 && d[4] == 2
}

/// The section-header table offset: the 16-bit value at byte 40.
pub open spec fn gc_shoff(d: Seq<u8>) -> int {
    le16(d, 40) as int
}

/// The section-header count: the 16-bit value at byte 58.
pub open spec fn gc_shnum(d: Seq<u8>) -> int {
    le16(d, 58) as int
}

/// Where header `i` starts.
pub open spec fn gc_off(d: Seq<u8>, i: int) -> int {
    gc_shoff(d) + i * 64
}

/// The first header index at or after `i` that is past the count or runs past the file.
pub open spec fn gc_hdr_from(d: Seq<u8>, i: int) -> int
    decreases gc_shnum(d) - i,
{
    if i < 0 || i >= gc_shnum(d) || gc_off(d, i) + 64 > d.len() {
        i
    } else {
        gc_hdr_from(d, i + 1)
    }
}

/// How many headers are read.
pub open spec fn gc_hdr_count(d: Seq<u8>) -> int {
    gc_hdr_from(d, 0)
}

/// Index of the first zero among the `n` bytes from `start` (`None` when there is none).
pub open spec fn zero_within(d: Seq<u8>, start: int, n: int) -> Option<int> {
    match nul_from(d, start) {
        Some(z) => if z < start + n { Some(z - start) } else { None },
        None => None,
    }
}

/// The length of header `i`'s name: the index of the first zero among the
/// 63 bytes from its eighth byte, or 62.
pub open spec fn gc_name_len(d: Seq<u8>, i: int) -> int {
    match zero_within(d, gc_off(d, i) + 8, 63) {
        Some(k) => k,
        None => 62,
    }
}

/// The section that header `i` gives, if it is executable and its name is not empty.
pub open spec fn gc_section_at(d: Seq<u8>, i: int) -> Option<GcSectionView> {
    let off = gc_off(d, i);
    let flags = le32(d, off + 56);
    if flags & 4u32 != 0 && gc_name_len(d, i) != 0 {
        Some((
            utf8_lossy_text(d.subrange(off + 9, off + 9 + gc_name_len(d, i))),
            le64(d, off + 24),
            le64(d, off + 40) as usize,
            le64(d, off + 32) as usize,
            Seq::empty(),
            flags,
        ))
    } else {
        None
    }
}

/// The sections the first `n` headers give.
pub open spec fn gc_sections(d: Seq<u8>, n: int) -> Seq<GcSectionView>
    decreases n,
{
    if n <= 0 {
        Seq::empty()
    } else {
        match gc_section_at(d, n - 1) {
            Some(s) => gc_sections(d, n - 1).push(s),
            None => gc_sections(d, n - 1),
        }
    }
}

/// The offset of the first section named `.strtab`, or 0.
pub open spec fn first_strtab(secs: Seq<GcSectionView>) -> int
    decreases secs.len(),
{
    if secs.len() == 0 {
        0
    } else if secs[0].0 == ".strtab"@ {
        secs[0].3 as int
    } else {
        first_strtab(secs.drop_first())
    }
}

/// Header `i`'s type: the 16-bit value at its fifth byte.
pub open spec fn gc_type(d: Seq<u8>, i: int) -> u16 {
    le16(d, gc_off(d, i) + 4)
}

/// The string-table offset in force when header `i` is reached: the `.strtab`
/// section's, else that of the first string-table header (type 3) before `i`.
pub open spec fn gc_strtab_before(d: Seq<u8>, i: int) -> int
    decreases i,
{
    if i <= 0 {
        first_strtab(gc_sections(d, gc_hdr_count(d)))
    } else {
        let p = gc_strtab_before(d, i - 1);
        if gc_type(d, i - 1) == 3 && p == 0 {
            (le64(d, gc_off(d, i - 1) + 32) as usize) as int
        } else {
            p
        }
    }
}

// ---------------------------------------------------------------------------
// Symbols
// ---------------------------------------------------------------------------

/// Where the entries of symbol-table header `i` start: its address field (as a `usize`).
pub open spec fn gc_sym_base(d: Seq<u8>, i: int) -> int {
    (le64(d, gc_off(d, i) + 24) as usize) as int
}

/// How many entries header `i` may hold: its base over 24, at most 100000.
pub open spec fn gc_sym_limit(d: Seq<u8>, i: int) -> int {
    let q = gc_sym_base(d, i) / 24;
    if q < 100000 { q } else { 100000 }
}

/// The first entry index at or after `j` that is past the limit or runs past the file.
pub open spec fn gc_sym_from(d: Seq<u8>, i: int, j: int) -> int
    decreases gc_sym_limit(d, i) - j,
{
    if j < 0 || j >= gc_sym_limit(d, i) || gc_sym_base(d, i) + j * 24 + 24 > d.len() {
        j
    } else {
        gc_sym_from(d, i, j + 1)
    }
}

/// How many entries of header `i` are read.
pub open spec fn gc_sym_count(d: Seq<u8>, i: int) -> int {
    gc_sym_from(d, i, 0)
}

/// Entry `j` names a sized symbol.
pub open spec fn gc_sym_kept(d: Seq<u8>, i: int, j: int) -> bool {
    let so = gc_sym_base(d, i) + j * 24;
    le32(d, so) > 0 && le32(d, so + 12) > 0
}

/// Where entry `j`'s name starts, with string table `st`.
pub open spec fn gc_sym_name_at(d: Seq<u8>, i: int, j: int, st: int) -> int {
    st + le32(d, gc_sym_base(d, i) + j * 24) as int
}

/// Entry `j` as a symbol: its name is the bytes at its name offset up to the
/// first zero within 256 bytes.
pub open spec fn gc_sym_at(d: Seq<u8>, i: int, j: int, st: int) -> GcSymView {
    let so = gc_sym_base(d, i) + j * 24;
    let ne = gc_sym_name_at(d, i, j, st);
    let k = match zero_within(d, ne, 256) {
        Some(z) => z,
        None => 256,
    };
    (utf8_lossy_text(d.subrange(ne, ne + k)), le64(d, so + 4), le32(d, so + 12) as usize, d[so + 16], d[so + 17], le16(
        d,
        so + 18,
    ))
}

/// The symbols the first `m` entries of header `i` give.
pub open spec fn gc_syms_in(d: Seq<u8>, i: int, st: int, m: int) -> Seq<GcSymView>
    decreases m,
{
    if m <= 0 {
        Seq::empty()
    } else if gc_sym_kept(d, i, m - 1) {
        gc_syms_in(d, i, st, m - 1).push(gc_sym_at(d, i, m - 1, st))
    } else {
        gc_syms_in(d, i, st, m - 1)
    }
}

/// The symbols the first `n` headers give.
pub open spec fn gc_symbols(d: Seq<u8>, n: int) -> Seq<GcSymView>
    decreases n,
{
    if n <= 0 {
        Seq::empty()
    } else if gc_type(d, n - 1) == 2 {
        gc_symbols(d, n - 1) + gc_syms_in(d, n - 1, gc_strtab_before(d, n - 1), gc_sym_count(d, n - 1))
    } else {
        gc_symbols(d, n - 1)
    }
}

/// Everything a GameCube image parses to: sections, symbols, entry point,
/// little-endian flag (the file name is always `gamecube_elf`).
pub open spec fn spec_parse_gc(d: Seq<u8>) -> Option<(Seq<GcSectionView>, Seq<GcSymView>, u64, bool)> {
    if !gc_header_ok(d) {
        None
    } else {
        Some((gc_sections(d, gc_hdr_count(d)), gc_symbols(d, gc_hdr_count(d)), le64(d, 24), d[5] == 1))
    }
}

/// Reading the symbol table of header `i` would overflow an offset or read
/// a name window past the end of the file.
pub open spec fn gc_sym_faults(d: Seq<u8>, i: int) -> bool {
    let c = gc_sym_count(d, i);
    let st = gc_strtab_before(d, i);
    ||| c < gc_sym_limit(d, i) && gc_sym_base(d, i) + c * 24 + 24 > usize::MAX
    ||| exists|j: int| 0 <= j < c && gc_sym_kept(d, i, j) && #[trigger] gc_sym_name_at(d, i, j, st) + 256 > d.len()
}

/// The inputs on which the reader would fail: a header too short for the
/// section count, a header index past what a 16-bit product holds, an
/// executable header whose name window runs past the file, or a faulty
/// symbol table.
pub open spec fn gc_parse_faults(d: Seq<u8>) -> bool {
    let n = gc_hdr_count(d);
    &&& gc_header_ok(d)
    &&& {
        ||| d.len() < 60
        ||| gc_shnum(d) > 0 && (if n < gc_shnum(d) - 1 { n } else { gc_shnum(d) - 1 }) >= 1024
        ||| exists|i: int| 0 <= i < n && le32(d, gc_off(d, i) + 56) & 4u32 != 0 && #[trigger] gc_off(d, i) + 71 > d.len()
        ||| exists|i: int| 0 <= i < n && gc_type(d, i) == 2 && #[trigger] gc_sym_faults(d, i)
    }
}

proof fn lemma_gc_hdr(d: Seq<u8>, i: int)
    requires
        0 <= i,
    ensures
        i <= gc_hdr_from(d, i),
        gc_hdr_from(d, i) <= gc_shnum(d) || gc_hdr_from(d, i) == i,
        forall|j: int| i <= j < gc_hdr_from(d, i) ==> #[trigger] gc_off(d, j) + 64 <= d.len(),
        forall|j: int| i <= j <= gc_hdr_from(d, i) ==> #[trigger] gc_hdr_from(d, j) == gc_hdr_from(d, i),
    decreases gc_shnum(d) - i,
{
    if !(i >= gc_shnum(d) || gc_off(d, i) + 64 > d.len()) {
        lemma_gc_hdr(d, i + 1);
        assert(gc_hdr_from(d, i) == gc_hdr_from(d, i + 1));
    } else {
        assert(gc_hdr_from(d, i) == i);
    }
}

proof fn lemma_gc_sym(d: Seq<u8>, i: int, j: int)
    requires
        0 <= j,
    ensures
        j <= gc_sym_from(d, i, j),
        gc_sym_from(d, i, j) <= gc_sym_limit(d, i) || gc_sym_from(d, i, j) == j,
        forall|k: int| j <= k < gc_sym_from(d, i, j) ==> gc_sym_base(d, i) + #[trigger] (k * 24) + 24 <= d.len(),
        forall|k: int| j <= k <= gc_sym_from(d, i, j) ==> #[trigger] gc_sym_from(d, i, k) == gc_sym_from(d, i, j),
    decreases gc_sym_limit(d, i) - j,
{
    if !(j >= gc_sym_limit(d, i) || gc_sym_base(d, i) + j * 24 + 24 > d.len()) {
        lemma_gc_sym(d, i, j + 1);
        assert(gc_sym_from(d, i, j) == gc_sym_from(d, i, j + 1));
    } else {
        assert(gc_sym_from(d, i, j) == j);
    }
}

/// The index of the first zero among the `n` bytes of `d` from `start`.
fn find_zero_within(d: &[u8], start: usize, n: usize) -> (r: Option<usize>)
    requires
        start + n <= d@.len(),
    ensures
        match zero_within(d@, start as int, n as int) {
            Some(k) => 0 <= k < n && r == Some(k as usize),
            None => r is None,
        },
{
    let len = d.len();
    let mut k: usize = 0;
    while k < n
        invariant
            len == d@.len(),
            start + n <= d@.len(),
            k <= n,
            forall|q: int| start <= q < start + k ==> d@[q] != 0,
        decreases n - k,
    {
        if d[start + k] == 0 {
            proof {
                lemma_nul_is_first(d@, start as int, (start + k) as int);
            }
            return Some(k);
        }
        k = k + 1;
    }
    proof {
        lemma_no_nul_before(d@, start as int, (start + n) as int);
    }
    None
}

proof fn lemma_nul_is_first(d: Seq<u8>, start: int, z: int)
    requires
        0 <= start <= z < d.len(),
        d[z] == 0,
        forall|q: int| start <= q < z ==> d[q] != 0,
    ensures
        nul_from(d, start) == Some(z),
    decreases z - start,
{
    if start < z {
        lemma_nul_is_first(d, start + 1, z);
    }
}

proof fn lemma_nul_from_ge(d: Seq<u8>, s: int)
    ensures
        nul_from(d, s) matches Some(z) ==> s <= z < d.len(),
    decreases d.len() - s,
{
    if 0 <= s < d.len() && d[s] != 0 {
        lemma_nul_from_ge(d, s + 1);
    }
}

proof fn lemma_no_nul_before(d: Seq<u8>, start: int, e: int)
    requires
        0 <= start <= e <= d.len(),
        forall|q: int| start <= q < e ==> d[q] != 0,
    ensures
        match nul_from(d, start) {
            Some(z) => z >= e,
            None => true,
        },
    decreases e - start,
{
    if start < e {
        lemma_no_nul_before(d, start + 1, e);
    } else {
        lemma_nul_from_ge(d, start);
    }
}

/// The sections of the first pass: one per executable header with a name.
fn gc_exec_sections(data: &[u8]) -> (v: Vec<ElfSection>)
    requires
        gc_header_ok(data@),
        !gc_parse_faults(data@),
    ensures
        v@.map_values(|s: ElfSection| gc_section_view(s)) == gc_sections(data@, gc_hdr_count(data@)),
{
    let ghost d = data@;
    let shoff = ru16le(data, 40) as usize;
    let shnum = ru16le(data, 58);
    let len = data.len();
    let mut sections: Vec<ElfSection> = Vec::new();
    proof {
        lemma_gc_hdr(d, 0);
    }
    let mut i: u16 = 0;
    while i < shnum && shoff + (i as usize) * 64 + 64 <= len
        invariant
            d == data@,
            len == d.len(),
            gc_header_ok(d),
            !gc_parse_faults(d),
            shoff == gc_shoff(d),
            shnum == gc_shnum(d),
            i <= gc_hdr_count(d),
            gc_hdr_from(d, i as int) == gc_hdr_count(d),
            sections@.map_values(|s: ElfSection| gc_section_view(s)) == gc_sections(d, i as int),
        decreases shnum - i,
    {
        proof {
            lemma_gc_hdr(d, 0);
            lemma_gc_hdr(d, i as int);
            lemma_gc_hdr(d, i + 1);
        }
        assert(i < 1024) by {
            assert(i < gc_hdr_count(d));
        }
        let off = shoff + (i as usize) * 64;
        let sh_addr = ru64le(data, off + 24);
        let sh_offset = ru64le(data, off + 32);
        let sh_size = ru64le(data, off + 40);
        let sh_flags = ru32le(data, off + 56);
        let ghost before = sections@.map_values(|s: ElfSection| gc_section_view(s));
        if sh_flags & 4 != 0 {
            assert(!(gc_off(d, i as int) + 71 > d.len()));
            let name_end_idx = match find_zero_within(data, off + 8, 63) {
                Some(k) => k,
                None => 62,
            };
            assert(name_end_idx == gc_name_len(d, i as int) && name_end_idx <= 62);
            if name_end_idx != 0 {
                assert(off + 71 <= len);
                let name_bytes = vstd::slice::slice_subrange(data, off + 9, off + 9 + name_end_idx);
                let name = utf8_lossy(name_bytes);
                let sec = ElfSection {
                    name,
                    address: sh_addr,
                    size: sh_size as usize,
                    offset: sh_offset as usize,
                    data: Vec::new(),
                    flags: sh_flags,
                };
                assert(sec.data@ =~= Seq::<u8>::empty());
                assert(gc_section_view(sec) == gc_section_at(d, i as int)->0);
                sections.push(sec);
                assert(sections@.map_values(|s: ElfSection| gc_section_view(s)) =~= before.push(
                    gc_section_at(d, i as int)->0,
                ));
            }
        }
        i = i + 1;
    }
    proof {
        lemma_gc_hdr(d, 0);
        lemma_gc_hdr(d, i as int);
    }
    sections
}

/// The `.strtab` section's offset, or 0.
fn find_strtab(sections: &Vec<ElfSection>) -> (r: usize)
    ensures
        r == first_strtab(sections@.map_values(|s: ElfSection| gc_section_view(s))),
{
    let ghost secs = sections@.map_values(|s: ElfSection| gc_section_view(s));
    let want = owned(".strtab");
    assert(secs.skip(0) =~= secs);
    let mut k: usize = 0;
    while k < sections.len()
        invariant
            k <= sections@.len(),
            secs == sections@.map_values(|s: ElfSection| gc_section_view(s)),
            want@ == ".strtab"@,
            first_strtab(secs) == first_strtab(secs.skip(k as int)),
        decreases sections@.len() - k,
    {
        assert(secs.skip(k as int).drop_first() =~= secs.skip(k + 1));
        if sections[k].name == want {
            return sections[k].offset;
        }
        k = k + 1;
    }
    assert(secs.skip(k as int) =~= Seq::<GcSectionView>::empty());
    0
}

/// Append the symbols of symbol-table header `i` (at `off`), named through
/// the string table at `st`.
fn gc_symtab(data: &[u8], i: Ghost<int>, off: usize, st: usize, out: &mut Vec<SymEntry>)
    requires
        gc_header_ok(data@),
        0 <= i@ < gc_hdr_count(data@),
        off == gc_off(data@, i@),
        off + 64 <= data@.len(),
        st == gc_strtab_before(data@, i@),
        !gc_sym_faults(data@, i@),
    ensures
        final(out)@.map_values(|s: SymEntry| gc_sym_view(s)) == old(out)@.map_values(|s: SymEntry| gc_sym_view(s))
            + gc_syms_in(data@, i@, st as int, gc_sym_count(data@, i@)),
{
    let ghost d = data@;
    let ghost start = out@.map_values(|s: SymEntry| gc_sym_view(s));
    let len = data.len();
    let base = ru64le(data, off + 24) as usize;
    let limit: usize = if base / 24 < 100000 { base / 24 } else { 100000 };
    proof {
        lemma_gc_sym(d, i@, 0);
        if 0 < gc_sym_count(d, i@) {
            assert(base + 0 * 24 + 24 <= len);
        }
    }
    let mut j: usize = 0;
    while j < limit && base + j * 24 + 24 <= len
        invariant
            d == data@,
            len == d.len(),
            base == gc_sym_base(d, i@),
            limit == gc_sym_limit(d, i@),
            st == gc_strtab_before(d, i@),
            !gc_sym_faults(d, i@),
            j <= gc_sym_count(d, i@),
            gc_sym_from(d, i@, j as int) == gc_sym_count(d, i@),
            j < limit ==> base + j * 24 + 24 <= usize::MAX,
            out@.map_values(|s: SymEntry| gc_sym_view(s)) == start + gc_syms_in(d, i@, st as int, j as int),
        decreases limit - j,
    {
        proof {
            lemma_gc_sym(d, i@, 0);
            lemma_gc_sym(d, i@, j as int);
            lemma_gc_sym(d, i@, j + 1);
        }
        let so = base + j * 24;
        let st_name = ru32le(data, so);
        let st_value = ru64le(data, so + 4);
        let st_size = ru32le(data, so + 12);
        let st_info = data[so + 16];
        let st_other = data[so + 17];
        let st_shndx = ru16le(data, so + 18);
        let ghost before = out@.map_values(|s: SymEntry| gc_sym_view(s));
        if st_name > 0 && st_size > 0 {
            assert(gc_sym_kept(d, i@, j as int));
            assert(!(gc_sym_name_at(d, i@, j as int, st as int) + 256 > d.len()));
            assert(gc_sym_name_at(d, i@, j as int, st as int) + 256 <= len);
            let ne = st + st_name as usize;
            let k = match find_zero_within(data, ne, 256) {
                Some(z) => z,
                None => 256,
            };
            assert(k <= 256);
            let name = utf8_lossy(vstd::slice::slice_subrange(data, ne, ne + k));
            out.push(SymEntry {
                name,
                value: st_value,
                size: st_size as usize,
                info: st_info,
                other: st_other,
                shndx: st_shndx,
            });
            assert(out@.map_values(|s: SymEntry| gc_sym_view(s)) =~= before.push(gc_sym_at(d, i@, j as int, st as int)));
            assert(start + gc_syms_in(d, i@, st as int, j + 1) =~= (start + gc_syms_in(d, i@, st as int, j as int)).push(
                gc_sym_at(d, i@, j as int, st as int),
            ));
        }
        j = j + 1;
        proof {
            lemma_gc_sym(d, i@, j as int);
            if j < limit && j < gc_sym_count(d, i@) {
                assert(base + j * 24 + 24 <= len);
            }
        }
    }
    proof {
        lemma_gc_sym(d, i@, 0);
        lemma_gc_sym(d, i@, j as int);
    }
}

/// The symbols of the second pass, over all headers read.
fn gc_all_symbols(data: &[u8], strtab_init: usize) -> (v: Vec<SymEntry>)
    requires
        gc_header_ok(data@),
        !gc_parse_faults(data@),
        strtab_init == first_strtab(gc_sections(data@, gc_hdr_count(data@))),
    ensures
        v@.map_values(|s: SymEntry| gc_sym_view(s)) == gc_symbols(data@, gc_hdr_count(data@)),
{
    let ghost d = data@;
    let shoff = ru16le(data, 40) as usize;
    let shnum = ru16le(data, 58);
    let len = data.len();
    let mut symbols: Vec<SymEntry> = Vec::new();
    let mut strtab: usize = strtab_init;
    proof {
        lemma_gc_hdr(d, 0);
    }
    let mut i: u16 = 0;
    while i < shnum && shoff + (i as usize) * 64 + 64 <= len
        invariant
            d == data@,
            len == d.len(),
            gc_header_ok(d),
            !gc_parse_faults(d),
            shoff == gc_shoff(d),
            shnum == gc_shnum(d),
            i <= gc_hdr_count(d),
            gc_hdr_from(d, i as int) == gc_hdr_count(d),
            strtab == gc_strtab_before(d, i as int),
            symbols@.map_values(|s: SymEntry| gc_sym_view(s)) == gc_symbols(d, i as int),
        decreases shnum - i,
    {
        proof {
            lemma_gc_hdr(d, 0);
            lemma_gc_hdr(d, i as int);
            lemma_gc_hdr(d, i + 1);
        }
        assert(i < 1024) by {
            assert(i < gc_hdr_count(d));
        }
        let off = shoff + (i as usize) * 64;
        let sh_type = ru16le(data, off + 4);
        let sh_offset = ru64le(data, off + 32);
        let ghost before = symbols@.map_values(|s: SymEntry| gc_sym_view(s));
        if sh_type == 2 {
            assert(!gc_sym_faults(d, i as int));
            gc_symtab(data, Ghost(i as int), off, strtab, &mut symbols);
        } else if sh_type == 3 && strtab == 0 {
            strtab = sh_offset as usize;
        }
        i = i + 1;
    }
    proof {
        lemma_gc_hdr(d, 0);
        lemma_gc_hdr(d, i as int);
    }
    symbols
}

/// Parse a GameCube ELF image: `None` unless it is at least 52 bytes, has
/// the ELF magic and is ELF64; otherwise its executable sections, its
/// symbols, the entry point and whether byte 5 marks it little-endian.
pub fn parse_gc_elf(data: &[u8]) -> (r: Option<ElfFileInfo>)
    requires
        !gc_parse_faults(data@),
    ensures
        match spec_parse_gc(data@) {
            None => r is None,
            Some(v) => r matches Some(info) && info.filename@ == "gamecube_elf"@
                && info.sections@.map_values(|s: ElfSection| gc_section_view(s)) == v.0
                && info.symbols@.map_values(|s: SymEntry| gc_sym_view(s)) == v.1
                && info.entry_point == v.2 && info.is_little_endian == v.3,
        },
{
    if data.len() < 52 || !(data[0] == 0x7F && data[1] == 0x45 && data[2] == 0x4C && data[3] == 0x46) {
        return None;
    }
    let is_little_endian = data[5] == 1;
    if data[4] != 2 {
        return None;
    }
    let entry_point = ru64le(data, 24);
    let sections = gc_exec_sections(data);
    let strtab = find_strtab(&sections);
    let symbols = gc_all_symbols(data, strtab);
    Some(ElfFileInfo { filename: owned("gamecube_elf"), sections, symbols, entry_point, is_little_endian })
}


// ---------------------------------------------------------------------------
// Identification and lookups
// ---------------------------------------------------------------------------

/// Header facts of a GameCube ELF image.
#[derive(Debug, Clone)]
pub struct HeaderInfo {
    pub entry_point: u64,
    pub text_section_start: u64,
    pub is_stripped: bool,
    pub has_debug_info: bool,
}

/// What a file is, as far as the GameCube front end can tell.
#[derive(Debug, Clone)]
pub struct GcIdentification {
    pub is_gamecube: bool,
    pub file_type: String,
    pub title_id: Option<String>,
    pub header_info: Option<HeaderInfo>,
    pub raw_data: Vec<u8>,
}

/// The address of the first section called `.text`, or 0.
pub open spec fn text_start(secs: Seq<GcSectionView>) -> u64
    decreases secs.len(),
{
    if secs.len() == 0 {
        0
    } else if secs[0].0 == ".text"@ {
        secs[0].1
    } else {
        text_start(secs.drop_first())
    }
}

/// The header facts for an ELF-magic file: entry point, `.text` address and
/// whether it has no symbols, from the parse (0, 0 and stripped when it fails).
pub open spec fn spec_header_info(d: Seq<u8>) -> (u64, u64, bool) {
    match spec_parse_gc(d) {
        Some(v) => (v.2, text_start(v.0), v.1.len() == 0),
        None => (0, 0, true),
    }
}

fn find_text(sections: &Vec<ElfSection>) -> (r: u64)
    ensures
        r == text_start(sections@.map_values(|s: ElfSection| gc_section_view(s))),
{
    let ghost secs = sections@.map_values(|s: ElfSection| gc_section_view(s));
    let want = owned(".text");
    assert(secs.skip(0) =~= secs);
    let mut k: usize = 0;
    while k < sections.len()
        invariant
            k <= sections@.len(),
            secs == sections@.map_values(|s: ElfSection| gc_section_view(s)),
            want@ == ".text"@,
            text_start(secs) == text_start(secs.skip(k as int)),
        decreases sections@.len() - k,
    {
        assert(secs.skip(k as int).drop_first() =~= secs.skip(k + 1));
        if sections[k].name == want {
            return sections[k].address;
        }
        k = k + 1;
    }
    assert(secs.skip(k as int) =~= Seq::<GcSectionView>::empty());
    0
}

/// Identify a GameCube binary: a file of at least 52 bytes with the ELF
/// magic is a `gc-elf` with header facts from its parse; anything else is
/// `unknown`. The bytes are kept either way.
pub fn identify_gc_binary(data: &[u8]) -> (r: GcIdentification)
    requires
        !gc_parse_faults(data@),
    ensures
        r.raw_data@ == data@,
        r.title_id is None,
        ({
            let is_elf = data@.len() >= 52 && data@[0] == 0x7F && data@[1] == 0x45 && data@[2] == 0x4C && data@[3] == 0x46;
            if is_elf {
                let h = spec_header_info(data@);
                &&& r.is_gamecube
                &&& r.file_type@ == "gc-elf"@
                &&& r.header_info matches Some(hi) && hi.entry_point == h.0 && hi.text_section_start == h.1
                    && hi.is_stripped == h.2 && !hi.has_debug_info
            } else {
                &&& !r.is_gamecube
                &&& r.file_type@ == "unknown"@
                &&& r.header_info is None
            }
        }),
{
    let is_elf = data.len() >= 52 && data[0] == 0x7F && data[1] == 0x45 && data[2] == 0x4C && data[3] == 0x46;
    if is_elf {
        let info = parse_gc_elf(data);
        let (entry_point, text_section_start, is_stripped) = match &info {
            Some(i) => (i.entry_point, find_text(&i.sections), i.symbols.len() == 0),
            None => (0, 0, true),
        };
        GcIdentification {
            is_gamecube: true,
            file_type: owned("gc-elf"),
            title_id: None,
            header_info: Some(HeaderInfo { entry_point, text_section_start, is_stripped, has_debug_info: false }),
            raw_data: vstd::slice::slice_to_vec(data),
        }
    } else {
        GcIdentification {
            is_gamecube: false,
            file_type: owned("unknown"),
            title_id: None,
            header_info: None,
            raw_data: vstd::slice::slice_to_vec(data),
        }
    }
}

/// The symbol sits at `address` and has a name.
pub open spec fn names_address(s: GcSymView, address: u64) -> bool {
    s.1 == address && s.0.len() > 0
}

/// The names of the symbols of `info` at `address`, in table order.
pub fn get_functions_at_address(elf_info: &ElfFileInfo, address: u64) -> (r: Vec<String>)
    ensures
        r@.map_values(|n: String| n@) == elf_info.symbols@.map_values(|s: SymEntry| gc_sym_view(s)).filter(
            |s: GcSymView| names_address(s, address),
        ).map_values(|s: GcSymView| s.0),
{
    let ghost syms = elf_info.symbols@.map_values(|s: SymEntry| gc_sym_view(s));
    let mut r: Vec<String> = Vec::new();
    let mut k: usize = 0;
    while k < elf_info.symbols.len()
        invariant
            k <= elf_info.symbols@.len(),
            syms == elf_info.symbols@.map_values(|s: SymEntry| gc_sym_view(s)),
            r@.map_values(|n: String| n@) == syms.take(k as int).filter(|s: GcSymView| names_address(s, address)).map_values(
                |s: GcSymView| s.0,
            ),
        decreases elf_info.symbols@.len() - k,
    {
        let ghost before = r@.map_values(|n: String| n@);
        assert(syms.take(k + 1).drop_last() =~= syms.take(k as int));
        reveal(Seq::filter);
        let s = &elf_info.symbols[k];
        if s.value == address && !s.name.as_str().is_empty() {
            r.push(s.name.clone());
            assert(r@.map_values(|n: String| n@) =~= before.push(syms[k as int].0));
        }
        k = k + 1;
    }
    assert(syms.take(k as int) =~= syms);
    r
}

/// The index of the first symbol of `syms` at `address` with a name.
pub open spec fn first_at(syms: Seq<GcSymView>, address: u64) -> Option<int>
    decreases syms.len(),
{
    if syms.len() == 0 {
        None
    } else if names_address(syms[0], address) {
        Some(0)
    } else {
        match first_at(syms.drop_first(), address) {
            Some(i) => Some(i + 1),
            None => None,
        }
    }
}

/// The first symbol of `info` at `address` that has a name.
pub fn get_symbol_at_address(elf_info: &ElfFileInfo, address: u64) -> (r: Option<&SymEntry>)
    ensures
        match first_at(elf_info.symbols@.map_values(|s: SymEntry| gc_sym_view(s)), address) {
            Some(i) => r matches Some(s) && *s == elf_info.symbols@[i],
            None => r is None,
        },
{
    let ghost syms = elf_info.symbols@.map_values(|s: SymEntry| gc_sym_view(s));
    let mut k: usize = 0;
    assert(syms.skip(0) =~= syms);
    while k < elf_info.symbols.len()
        invariant
            k <= elf_info.symbols@.len(),
            syms == elf_info.symbols@.map_values(|s: SymEntry| gc_sym_view(s)),
            first_at(syms, address) == (match first_at(syms.skip(k as int), address) {
                Some(i) => Some(i + k),
                None => None::<int>,
            }),
        decreases elf_info.symbols@.len() - k,
    {
        assert(syms.skip(k as int).drop_first() =~= syms.skip(k + 1));
        assert(syms.skip(k as int)[0] == syms[k as int]);
        let s = &elf_info.symbols[k];
        if s.value == address && !s.name.as_str().is_empty() {
            return Some(s);
        }
        k = k + 1;
    }
    assert(syms.skip(k as int) =~= Seq::<GcSymView>::empty());
    None
}

// ---------------------------------------------------------------------------
// PowerPC listing of a GameCube image
// ---------------------------------------------------------------------------

/// A disassembled instruction.
#[derive(Debug, Clone)]
pub struct PpcInstruction {
    pub address: u64,
    pub bytes: Vec<u8>,
    pub mnemonic: String,
    pub operands: String,
    pub size: usize,
}

/// Disassembly of a GameCube image.
#[derive(Debug, Clone)]
pub struct GamecubeDisassembly {
    pub file_type: String,
    pub title_id: Option<String>,
    pub instructions: Vec<PpcInstruction>,
    pub entry_point: u64,
}

/// A function's bounds in a GameCube ELF.
#[derive(Debug, Clone)]
pub struct GcFunction {
    pub name: String,
    pub start: u64,
    pub end: u64,
    pub size: usize,
}

/// A call from one function to another (`kind` names the branch form).
#[derive(Debug, Clone)]
pub struct GcCallEdge {
    pub from: u64,
    pub to: u64,
    pub callsite: u64,
    pub kind: String,
}

/// A GameCube call graph.
#[derive(Debug, Clone)]
pub struct GcCallGraph {
    pub functions: Vec<GcFunction>,
    pub edges: Vec<GcCallEdge>,
    pub external_targets: Vec<u64>,
}

pub open spec fn gc_op(w: u32) -> u32 { w >> 26u32 }
pub open spec fn gc_rt(w: u32) -> u32 { (w >> 21u32) & 0x1Fu32 }
pub open spec fn gc_ra(w: u32) -> u32 { (w >> 16u32) & 0x1Fu32 }
pub open spec fn gc_rb(w: u32) -> u32 { (w >> 11u32) & 0x1Fu32 }

/// A register as this listing prints it: `r` before the register's own
/// name `rN`.
pub open spec fn gc_reg(x: u32) -> Seq<char> { "rr"@ + dec_nat(x as nat) }

/// `rrT, rrA, rrB`.
pub open spec fn gc_3r(t: u32, a: u32, b: u32) -> Seq<char> {
    gc_reg(t) + ", "@ + gc_reg(a) + ", "@ + gc_reg(b)
}

/// `fT, rrA, rrB`.
pub open spec fn gc_fp(t: u32, a: u32, b: u32) -> Seq<char> {
    "f"@ + dec_nat(t as nat) + ", "@ + gc_reg(a) + ", "@ + gc_reg(b)
}

/// Mnemonics of the primary opcodes listed with three integer registers.
pub open spec fn gc_int_name(op: u32) -> Option<Seq<char>> {
    if op == 15 { Some("div"@) } else if op == 18 { Some("and"@) } else if op == 19 { Some("or"@) }
    else if op == 20 { Some("xor"@) } else if op == 21 { Some("nor"@) } else if op == 23 { Some("lwarx"@) }
    else if op == 25 { Some("stw"@) } else if op == 26 { Some("stwax"@) } else if op == 28 { Some("stwarx"@) }
    else if op == 32 { Some("lbz"@) } else if op == 33 { Some("lbzu"@) } else if op == 34 { Some("lhz"@) }
    else if op == 35 { Some("lhzu"@) } else if op == 40 { Some("stwu"@) } else if op == 41 { Some("stb"@) }
    else if op == 42 { Some("stbu"@) } else if op == 43 || op == 44 { Some("sth"@) }
    else if op == 45 || op == 49 { Some("stwbrx"@) } else if op == 46 { Some("lhzx"@) }
    else if op == 47 { Some("lhbrx"@) } else if op == 48 { Some("swbx"@) } else if op == 54 { Some("stbx"@) }
    else if op == 55 { Some("stbux"@) } else if op == 56 { Some("sthx"@) } else if op == 57 { Some("sthux"@) }
    else if op == 58 { Some("stwcx."@) }
    else { None }
}

/// Mnemonics of the primary opcodes listed with a float register and two
/// integer registers.
pub open spec fn gc_fp_name(op: u32) -> Option<Seq<char>> {
    if op == 29 || op == 36 { Some("lfs"@) } else if op == 30 { Some("sfs"@) }
    else if op == 37 || op == 39 { Some("lfd"@) } else if op == 38 { Some("lfsu"@) }
    else if op == 50 { Some("lfsx"@) } else if op == 51 { Some("lfdx"@) } else if op == 52 { Some("lfsux"@) }
    else if op == 53 { Some("lfdux"@) } else if op == 59 { Some("stfdx"@) } else if op == 60 { Some("stfux"@) }
    else if op == 62 { Some("stfsx"@) } else if op == 63 { Some("stfsux"@) }
    else { None }
}

/// The target of a branch word at `pc`: `pc` plus the low 26 bits with the
/// two low bits cleared (modulo 2^64).
pub open spec fn gc_target(w: u32, pc: u64) -> u64 {
    pc.wrapping_add((w & 0x03FF_FFFCu32) as u64)
}

/// The branch forms (2, 3, 61) at `pc` do not overflow the signed 64-bit sum.
pub open spec fn gc_branch_fits(w: u32, pc: u64) -> bool {
    gc_op(w) == 2 || gc_op(w) == 3 || gc_op(w) == 61 ==> signed_pc(pc) + (w & 0x03FF_FFFCu32) <= i64::MAX
}

/// (mnemonic, operands) of one word at `pc`.
pub open spec fn gc_text(w: u32, pc: u64) -> (Seq<char>, Seq<char>) {
    let op = gc_op(w);
    let rt = gc_rt(w);
    let ra = gc_ra(w);
    let rb = gc_rb(w);
    let crf = (w >> 16u32) & 7u32;
    if gc_int_name(op) is Some {
        (gc_int_name(op)->0, gc_3r(rt, ra, rb))
    } else if gc_fp_name(op) is Some {
        (gc_fp_name(op)->0, gc_fp(rt, ra, rb))
    } else if op == 0 {
        ("mcrf"@, "cr"@ + dec_nat(crf as nat) + dec_nat(((w >> 11u32) & 7u32) as nat))
    } else if op == 2 {
        (if (w >> 21u32) & 1u32 != 0 { "bl"@ } else { "b"@ }, "0x"@ + hex_min(gc_target(w, pc) as nat))
    } else if op == 3 {
        (if (rt >> 4u32) & 1u32 != 0 { "bl"@ } else { "b"@ },
            "cr"@ + dec_nat(ra as nat) + ", 0x"@ + hex_min(gc_target(w, pc) as nat))
    } else if op == 61 {
        ("bdnzl"@, "0x"@ + hex_min(gc_target(w, pc) as nat))
    } else if op == 4 {
        ("cmpl"@, "cr"@ + dec_nat(crf as nat) + ", "@ + dec_nat((w & 3u32) as nat) + ", r"@ + dec_nat(rt as nat))
    } else if op == 5 {
        ("cmp"@, "cr"@ + dec_nat(crf as nat) + ", r"@ + dec_nat(ra as nat) + ", r"@ + dec_nat(rb as nat))
    } else if op == 7 || op == 9 {
        (if op == 7 { "slw"@ } else { "srlw"@ }, gc_reg(rt) + ", "@ + gc_reg(rb) + ", "@ + dec_nat(rb as nat))
    } else if op == 8 || op == 10 || op == 24 || op == 27 {
        (if op == 8 { "rlc"@ } else if op == 10 { "rrc"@ } else if op == 24 { "lmw"@ } else { "stmw"@ },
            gc_reg(rt) + ", "@ + gc_reg(if op == 8 || op == 10 { rb } else { ra }))
    } else if op == 14 {
        if ra == 0 && rb == 0 { ("clrrw"@, gc_reg(rt)) } else { ("add"@, gc_3r(rt, ra, rb)) }
    } else if op == 16 {
        let hi = w >> 16u32;
        ("mulsi"@, gc_reg(rt) + ", "@ + gc_reg(ra) + ", "@ + dec_int(if hi < 0x8000 { hi as int } else { hi - 0x1_0000 }))
    } else if op == 17 || op == 22 {
        (if op == 17 { "mulhw"@ } else { "mullw"@ }, gc_3r(rt, rt, rb))
    } else if op == 31 {
        ("ms"@, "cr_mask=0x"@ + hex_min(((w >> 16u32) & 0xFFu32) as nat) + ", reg="@ + dec_nat(rt as nat))
    } else {
        (".word"@, "0x"@ + hex_fixed(w as nat, 8))
    }
}

proof fn lemma_gc_fields(w: u32)
    by (bit_vector)
    ensures
        w >> 26u32 < 64,
        (w >> 21u32) & 0x1Fu32 < 32,
        (w >> 16u32) & 0x1Fu32 < 32,
        (w >> 11u32) & 0x1Fu32 < 32,
        (w >> 16u32) & 7u32 < 8,
        (w >> 11u32) & 7u32 < 8,
        w & 3u32 < 4,
        w >> 16u32 < 0x1_0000,
        (w >> 16u32) & 0xFFu32 < 256,
        w & 0x03FF_FFFCu32 < 0x0400_0000,
        (w >> 21u32) & 1u32 < 2,
{
}

fn gc_int_name_s(op: u32) -> (r: Option<&'static str>)
    ensures
        r is Some <==> gc_int_name(op) is Some,
        r matches Some(t) ==> t@ == gc_int_name(op)->0,
{
    if op == 15 { Some("div") } else if op == 18 { Some("and") } else if op == 19 { Some("or") }
    else if op == 20 { Some("xor") } else if op == 21 { Some("nor") } else if op == 23 { Some("lwarx") }
    else if op == 25 { Some("stw") } else if op == 26 { Some("stwax") } else if op == 28 { Some("stwarx") }
    else if op == 32 { Some("lbz") } else if op == 33 { Some("lbzu") } else if op == 34 { Some("lhz") }
    else if op == 35 { Some("lhzu") } else if op == 40 { Some("stwu") } else if op == 41 { Some("stb") }
    else if op == 42 { Some("stbu") } else if op == 43 || op == 44 { Some("sth") }
    else if op == 45 || op == 49 { Some("stwbrx") } else if op == 46 { Some("lhzx") }
    else if op == 47 { Some("lhbrx") } else if op == 48 { Some("swbx") } else if op == 54 { Some("stbx") }
    else if op == 55 { Some("stbux") } else if op == 56 { Some("sthx") } else if op == 57 { Some("sthux") }
    else if op == 58 { Some("stwcx.") }
    else { None }
}

fn gc_fp_name_s(op: u32) -> (r: Option<&'static str>)
    ensures
        r is Some <==> gc_fp_name(op) is Some,
        r matches Some(t) ==> t@ == gc_fp_name(op)->0,
{
    if op == 29 || op == 36 { Some("lfs") } else if op == 30 { Some("sfs") }
    else if op == 37 || op == 39 { Some("lfd") } else if op == 38 { Some("lfsu") }
    else if op == 50 { Some("lfsx") } else if op == 51 { Some("lfdx") } else if op == 52 { Some("lfsux") }
    else if op == 53 { Some("lfdux") } else if op == 59 { Some("stfdx") } else if op == 60 { Some("stfux") }
    else if op == 62 { Some("stfsx") } else if op == 63 { Some("stfsux") }
    else { None }
}

/// Append `rrN`.
fn push_reg(s: &mut String, x: u32)
    ensures
        final(s)@ == old(s)@ + gc_reg(x),
{
    push_str(s, "rr");
    push_dec_u64(s, x as u64);
    assert(s@ =~= old(s)@ + gc_reg(x));
}

fn gc_3r_s(t: u32, a: u32, b: u32) -> (r: String)
    ensures
        r@ == gc_3r(t, a, b),
{
    let mut s = String::new();
    push_reg(&mut s, t);
    push_str(&mut s, ", ");
    push_reg(&mut s, a);
    push_str(&mut s, ", ");
    push_reg(&mut s, b);
    assert(s@ =~= gc_3r(t, a, b));
    s
}

fn gc_fp_s(t: u32, a: u32, b: u32) -> (r: String)
    ensures
        r@ == gc_fp(t, a, b),
{
    let mut s = owned("f");
    push_dec_u64(&mut s, t as u64);
    push_str(&mut s, ", ");
    push_reg(&mut s, a);
    push_str(&mut s, ", ");
    push_reg(&mut s, b);
    assert(s@ =~= gc_fp(t, a, b));
    s
}

/// Decode one word of a GameCube listing at `pc` into (mnemonic, operands).
fn gc_decode(w: u32, pc: u64) -> (r: (String, String))
    requires
        gc_branch_fits(w, pc),
    ensures
        (r.0@, r.1@) == gc_text(w, pc),
{
    proof { lemma_gc_fields(w); }
    let op: u32 = w >> 26;
    let rt: u32 = (w >> 21) & 0x1F;
    let ra: u32 = (w >> 16) & 0x1F;
    let rb: u32 = (w >> 11) & 0x1F;
    let crf: u32 = (w >> 16) & 7;
    if let Some(name) = gc_int_name_s(op) {
        return (owned(name), gc_3r_s(rt, ra, rb));
    }
    if let Some(name) = gc_fp_name_s(op) {
        return (owned(name), gc_fp_s(rt, ra, rb));
    }
    let mut o = String::new();
    if op == 0 {
        push_str(&mut o, "cr");
        push_dec_u64(&mut o, crf as u64);
        push_dec_u64(&mut o, ((w >> 11) & 7) as u64);
        assert(o@ =~= gc_text(w, pc).1);
        (owned("mcrf"), o)
    } else if op == 2 || op == 61 {
        let target: u64 = pc.wrapping_add((w & 0x03FF_FFFC) as u64);
        push_str(&mut o, "0x");
        push_hex_min64(&mut o, target);
        assert(o@ =~= gc_text(w, pc).1);
        let m = if op == 61 { "bdnzl" } else if (w >> 21) & 1 != 0 { "bl" } else { "b" };
        (owned(m), o)
    } else if op == 3 {
        let target: u64 = pc.wrapping_add((w & 0x03FF_FFFC) as u64);
        push_str(&mut o, "cr");
        push_dec_u64(&mut o, ra as u64);
        push_str(&mut o, ", 0x");
        push_hex_min64(&mut o, target);
        assert(o@ =~= gc_text(w, pc).1);
        (owned(if (rt >> 4) & 1 != 0 { "bl" } else { "b" }), o)
    } else if op == 4 {
        push_str(&mut o, "cr");
        push_dec_u64(&mut o, crf as u64);
        push_str(&mut o, ", ");
        push_dec_u64(&mut o, (w & 3) as u64);
        push_str(&mut o, ", r");
        push_dec_u64(&mut o, rt as u64);
        assert(o@ =~= gc_text(w, pc).1);
        (owned("cmpl"), o)
    } else if op == 5 {
        push_str(&mut o, "cr");
        push_dec_u64(&mut o, crf as u64);
        push_str(&mut o, ", r");
        push_dec_u64(&mut o, ra as u64);
        push_str(&mut o, ", r");
        push_dec_u64(&mut o, rb as u64);
        assert(o@ =~= gc_text(w, pc).1);
        (owned("cmp"), o)
    } else if op == 7 || op == 9 {
        push_reg(&mut o, rt);
        push_str(&mut o, ", ");
        push_reg(&mut o, rb);
        push_str(&mut o, ", ");
        push_dec_u64(&mut o, rb as u64);
        assert(o@ =~= gc_text(w, pc).1);
        (owned(if op == 7 { "slw" } else { "srlw" }), o)
    } else if op == 8 || op == 10 || op == 24 || op == 27 {
        push_reg(&mut o, rt);
        push_str(&mut o, ", ");
        push_reg(&mut o, if op == 8 || op == 10 { rb } else { ra });
        assert(o@ =~= gc_text(w, pc).1);
        (owned(if op == 8 { "rlc" } else if op == 10 { "rrc" } else if op == 24 { "lmw" } else { "stmw" }), o)
    } else if op == 14 {
        if ra == 0 && rb == 0 {
            push_reg(&mut o, rt);
            (owned("clrrw"), o)
        } else {
            (owned("add"), gc_3r_s(rt, ra, rb))
        }
    } else if op == 16 {
        let hi: u32 = w >> 16;
        let imm: i64 = if hi < 0x8000 { hi as i64 } else { hi as i64 - 0x1_0000 };
        push_reg(&mut o, rt);
        push_str(&mut o, ", ");
        push_reg(&mut o, ra);
        push_str(&mut o, ", ");
        push_dec_i64(&mut o, imm);
        assert(o@ =~= gc_text(w, pc).1);
        (owned("mulsi"), o)
    } else if op == 17 || op == 22 {
        (owned(if op == 17 { "mulhw" } else { "mullw" }), gc_3r_s(rt, rt, rb))
    } else if op == 31 {
        push_str(&mut o, "cr_mask=0x");
        push_hex_min(&mut o, (w >> 16) & 0xFF);
        push_str(&mut o, ", reg=");
        push_dec_u64(&mut o, rt as u64);
        assert(o@ =~= gc_text(w, pc).1);
        (owned("ms"), o)
    } else {
        push_str(&mut o, "0x");
        push_hex_fixed(&mut o, w, 8);
        assert(o@ =~= gc_text(w, pc).1);
        (owned(".word"), o)
    }
}

/// An instruction as plain values: (address, bytes, mnemonic, operands, size).
pub open spec fn gc_view(i: PpcInstruction) -> (u64, Seq<u8>, Seq<char>, Seq<char>, usize) {
    (i.address, i.bytes@, i.mnemonic@, i.operands@, i.size)
}

/// Entry `k` of the listing of the little-endian words from byte `start`.
pub open spec fn gc_entry(d: Seq<u8>, start: u64, k: int) -> (u64, Seq<u8>, Seq<char>, Seq<char>, usize) {
    let off = start + 4 * k;
    let (m, o) = gc_text(word_at(d, off, true), (start + 4 * k) as u64);
    ((start + 4 * k) as u64, d.subrange(off, off + 4), m, o, 4)
}

/// The listing of at most `max` words from byte `start` (which is also the
/// address shown for the first word).
pub open spec fn gc_listing(d: Seq<u8>, start: u64, max: nat) -> Seq<(u64, Seq<u8>, Seq<char>, Seq<char>, usize)> {
    Seq::new(listing_len(d.len(), start as int, max), |k: int| gc_entry(d, start, k))
}

/// Every listed address fits in 64 bits and every branch in the listing
/// stays within the signed 64-bit range.
pub open spec fn gc_listing_ok(d: Seq<u8>, start: u64, max: nat) -> bool {
    forall|k: int| 0 <= k < listing_len(d.len(), start as int, max) ==> {
        &&& start + 4 * k <= u64::MAX
        &&& gc_branch_fits(#[trigger] word_at(d, start + 4 * k, true), (start + 4 * k) as u64)
    }
}

/// Disassemble little-endian PowerPC words from byte offset `address` of
/// `data` (shown at that address), at most `max_instructions` of them.
pub fn disassemble_ppc_instruction(data: &[u8], address: u64, max_instructions: usize) -> (out: Vec<PpcInstruction>)
    requires
        address <= usize::MAX,
        gc_listing_ok(data@, address, max_instructions as nat),
    ensures
        out@.map_values(|i: PpcInstruction| gc_view(i)) == gc_listing(data@, address, max_instructions as nat),
{
    let start = address as usize;
    let ghost n = listing_len(data.len() as nat, start as int, max_instructions as nat);
    let mut out: Vec<PpcInstruction> = Vec::new();
    let mut k: usize = 0;
    while k < max_instructions && start <= data.len() && (data.len() - start) / 4 > k
        invariant
            start == address,
            n == listing_len(data.len() as nat, start as int, max_instructions as nat),
            gc_listing_ok(data@, address, max_instructions as nat),
            k <= n,
            out@.len() == k,
            forall|q: int| 0 <= q < k ==> gc_view(#[trigger] out@[q]) == gc_entry(data@, address, q),
        decreases max_instructions - k,
    {
        let offset: usize = start + k * 4;
        let instr = crate::cfg::read_word(data, offset, true);
        assert(instr == word_at(data@, start + 4 * k, true));
        assert(address + 4 * k <= u64::MAX);
        let addr: u64 = address + (k as u64) * 4;
        let (mnemonic, operands) = gc_decode(instr, addr);
        let bytes = vstd::slice::slice_to_vec(&data[offset..offset + 4]);
        let ghost o0 = out@;
        out.push(PpcInstruction { address: addr, bytes, mnemonic, operands, size: 4 });
        proof {
            assert forall|q: int| 0 <= q < k + 1 implies gc_view(#[trigger] out@[q]) == gc_entry(data@, address, q) by {
                if q < k {
                    assert(out@[q] == o0[q]);
                }
            }
        }
        k = k + 1;
    }
    assert(out@.map_values(|i: PpcInstruction| gc_view(i)) =~= gc_listing(data@, address, max_instructions as nat));
    out
}

/// A GameCube listing holds one entry per whole word from `start`, at most
/// `max`; entry `k` is the four bytes at `start + 4k`, shown at that address.
pub proof fn gc_listing_layout(d: Seq<u8>, start: u64, max: nat)
    ensures
        gc_listing(d, start, max).len() == listing_len(d.len(), start as int, max),
        forall|k: int| 0 <= k < gc_listing(d, start, max).len() ==> {
            &&& (#[trigger] gc_listing(d, start, max)[k]).0 == (start + 4 * k) as u64
            &&& gc_listing(d, start, max)[k].1 == d.subrange(start + 4 * k, start + 4 * k + 4)
            &&& gc_listing(d, start, max)[k].4 == 4
        },
{
}

} // verus!

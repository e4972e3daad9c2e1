//! ELF32 parsing: section headers, symbol tables and relocations, each read
//! with the file's byte order.

use vstd::prelude::*;
use crate::cfg::word_at;
use crate::engine::{read_u16, read_u32, u16_at, ElfFileInfo, ElfSection, ElfSymbol, Relocation};
use crate::text::{dec_nat, hex_fixed, owned, push_dec_u64, push_hex_fixed, push_str, starts_with_dot, utf8_or_empty, utf8_or_empty_text};

verus! {

// ---------------------------------------------------------------------------
// Reading
// ---------------------------------------------------------------------------

/// The 32-bit value at `off`, or 0 when fewer than four bytes remain there.
pub open spec fn rd32(d: Seq<u8>, off: int, le: bool) -> u32 {
    if 0 <= off && off + 4 <= d.len() { word_at(d, off, le) } else { 0 }
}

/// The 16-bit value at `off`, or 0 when fewer than two bytes remain there.
pub open spec fn rd16(d: Seq<u8>, off: int, le: bool) -> u16 {
    if 0 <= off && off + 2 <= d.len() { u16_at(d, off, le) } else { 0 }
}

fn rd32_at(d: &[u8], off: u64, le: bool) -> (r: u32)
    ensures
        r == rd32(d@, off as int, le),
{
    if off >= d.len() as u64 || (d.len() as u64) - off < 4 {
        return 0;
    }
    read_u32(d, off as usize, le)
}

fn rd16_at(d: &[u8], off: u64, le: bool) -> (r: u16)
    ensures
        r == rd16(d@, off as int, le),
{
    if off >= d.len() as u64 || (d.len() as u64) - off < 2 {
        return 0;
    }
    read_u16(d, off as usize, le)
}

/// The index of the first NUL byte of `t` at or after `i`.
pub open spec fn nul_from(t: Seq<u8>, i: int) -> Option<int>
    decreases t.len() - i,
{
    if i < 0 || i >= t.len() {
        None
    } else if t[i] == 0 {
        Some(i)
    } else {
        nul_from(t, i + 1)
    }
}

pub(crate) fn find_nul(t: &[u8], start: usize) -> (r: Option<usize>)
    ensures
        r matches Some(z) ==> nul_from(t@, start as int) == Some(z as int) && start <= z < t.len(),
        r is None ==> nul_from(t@, start as int) is None,
{
    let mut i: usize = start;
    while i < t.len()
        invariant
            start <= i,
            nul_from(t@, start as int) == nul_from(t@, i as int),
        decreases t.len() - i,
    {
        if t[i] == 0 {
            return Some(i);
        }
        i = i + 1;
    }
    None
}

// ---------------------------------------------------------------------------
// Relocations
// ---------------------------------------------------------------------------

/// A relocation as plain values: (offset, symbol name, type, symbol index).
pub open spec fn rel_view(r: Relocation) -> (u32, Seq<char>, u32, u32) {
    (r.offset, r.symbol_name@, r.r_type, r.symbol)
}

/// Section header `i`: (type, addr, offset, size, link, info, entsize).
pub open spec fn shdr(d: Seq<u8>, shoff: u32, entsize: u16, le: bool, i: int) -> (u32, u32, u32, u32, u32, u32, u32) {
    let so = shoff + i * entsize;
    (rd32(d, so + 4, le), rd32(d, so + 12, le), rd32(d, so + 16, le), rd32(d, so + 20, le), rd32(d, so + 24, le),
        rd32(d, so + 28, le), rd32(d, so + 36, le))
}

/// Header `i` is a usable REL (9) / RELA (4) section: nonempty, linked to a
/// symbol table (2 or 11) with a nonzero entry size whose string table lies in the file.
pub open spec fn rel_section_ok(d: Seq<u8>, shoff: u32, shnum: u16, entsize: u16, le: bool, i: int) -> bool {
    let h = shdr(d, shoff, entsize, le, i);
    let sym = shdr(d, shoff, entsize, le, h.4 as int);
    let strh = shdr(d, shoff, entsize, le, sym.4 as int);
    &&& (h.0 == 9 || h.0 == 4) && h.3 != 0
    &&& h.4 < shnum
    &&& (sym.0 == 2 || sym.0 == 11)
    &&& sym.6 != 0 && sym.4 < shnum
    &&& strh.2 + strh.3 <= d.len()
}

/// The byte size of one entry of relocation section `i`.
pub open spec fn rel_entry_size(d: Seq<u8>, shoff: u32, entsize: u16, le: bool, i: int) -> u32 {
    let h = shdr(d, shoff, entsize, le, i);
    if h.6 > 0 { h.6 } else if h.0 == 9 { 8 } else { 12 }
}

/// The name of symbol `r_sym` of the symbol table `sym`, looked up in `strtab`.
pub open spec fn rel_symbol_name(d: Seq<u8>, le: bool, sym: (u32, u32, u32, u32, u32, u32, u32), strtab: Seq<u8>, r_sym: u32) -> Seq<char> {
    let entry = sym.2 + r_sym * sym.6;
    if r_sym > 0 && entry + sym.6 <= d.len() {
        let st = rd32(d, entry, le) as int;
        if st < strtab.len() {
            let end = match nul_from(strtab, st) { Some(z) => z, None => strtab.len() as int };
            utf8_or_empty_text(strtab.subrange(st, end))
        } else {
            Seq::empty()
        }
    } else {
        Seq::empty()
    }
}

/// Entry `j` of relocation section `i`, resolved.
pub open spec fn rel_entry(d: Seq<u8>, shoff: u32, shnum: u16, entsize: u16, le: bool, i: int, j: int) -> (u32, Seq<char>, u32, u32) {
    let h = shdr(d, shoff, entsize, le, i);
    let sym = shdr(d, shoff, entsize, le, h.4 as int);
    let strh = shdr(d, shoff, entsize, le, sym.4 as int);
    let strtab = d.subrange(strh.2 as int, strh.2 + strh.3);
    let target_addr = if h.5 < shnum { shdr(d, shoff, entsize, le, h.5 as int).1 } else { 0 };
    let base = h.2 + j * rel_entry_size(d, shoff, entsize, le, i);
    let r_info = rd32(d, base + 4, le);
    let r_sym = r_info >> 8u32;
    (rd32(d, base, le).wrapping_add(target_addr), rel_symbol_name(d, le, sym, strtab, r_sym), r_info & 0xFFu32, r_sym)
}

/// The entries `j < n` of relocation section `i` that lie inside the file.
pub open spec fn rel_entries(d: Seq<u8>, shoff: u32, shnum: u16, entsize: u16, le: bool, i: int, n: int) -> Seq<(u32, Seq<char>, u32, u32)>
    decreases n,
{
    if n <= 0 {
        Seq::empty()
    } else {
        let j = n - 1;
        let es = rel_entry_size(d, shoff, entsize, le, i);
        let base = shdr(d, shoff, entsize, le, i).2 + j * es;
        rel_entries(d, shoff, shnum, entsize, le, i, j) + (if base + es <= d.len() {
            seq![rel_entry(d, shoff, shnum, entsize, le, i, j)]
        } else {
            Seq::empty()
        })
    }
}

/// The relocations of section headers `i < n`.
pub open spec fn rels_upto(d: Seq<u8>, shoff: u32, shnum: u16, entsize: u16, le: bool, n: int) -> Seq<(u32, Seq<char>, u32, u32)>
    decreases n,
{
    if n <= 0 {
        Seq::empty()
    } else {
        let i = n - 1;
        rels_upto(d, shoff, shnum, entsize, le, i) + (if rel_section_ok(d, shoff, shnum, entsize, le, i) {
            let h = shdr(d, shoff, entsize, le, i);
            rel_entries(d, shoff, shnum, entsize, le, i, (h.3 / rel_entry_size(d, shoff, entsize, le, i)) as int)
        } else {
            Seq::empty()
        })
    }
}

/// All relocations of an image whose section headers start at `shoff`.
pub open spec fn spec_relocations(d: Seq<u8>, shoff: u32, shnum: u16, entsize: u16, le: bool) -> Seq<(u32, Seq<char>, u32, u32)> {
    if shoff == 0 || shnum == 0 || shoff >= d.len() { Seq::empty() } else { rels_upto(d, shoff, shnum, entsize, le, shnum as int) }
}

/// Relocation `r` is entry `j` of section header `i` (at `shoff + i *
/// entsize`), a REL (type 9) or RELA (type 4) section: the entry lies at the
/// section's `sh_offset` (byte 16) plus `j` entries of `sh_entsize` (byte 36;
/// 8 for REL and 12 for RELA when that is 0) inside the file; `r`'s type is
/// the low byte of the entry's `r_info` word (its second word), its symbol
/// index the rest of `r_info`, and its address the entry's `r_offset` (first
/// word) plus the `sh_addr` of the section named by `sh_info` (byte 28; none
/// when that is no section), modulo 2^32.
pub open spec fn reloc_from_entry(d: Seq<u8>, shoff: u32, shnum: u16, entsize: u16, le: bool, i: int, j: int, r: (u32, Seq<char>, u32, u32)) -> bool {
    let so = shoff + i * entsize;
    let ty = rd32(d, so + 4, le);
    let esize = if rd32(d, so + 36, le) > 0 { rd32(d, so + 36, le) as int } else if ty == 9 { 8int } else { 12int };
    let base = rd32(d, so + 16, le) + j * esize;
    let info = rd32(d, base + 4, le);
    let tsec = rd32(d, so + 28, le);
    let target = if tsec < shnum { rd32(d, shoff + tsec * entsize + 12, le) as int } else { 0int };
    &&& ty == 9 || ty == 4
    &&& 0 <= j && base + esize <= d.len()
    &&& r.0 as int == (rd32(d, base, le) + target) % 0x1_0000_0000
    &&& r.2 == info & 0xFFu32
    &&& r.3 == info >> 8u32
}

proof fn lemma_rel_entries_members(d: Seq<u8>, shoff: u32, shnum: u16, entsize: u16, le: bool, i: int, n: int, k: int)
    requires
        rel_section_ok(d, shoff, shnum, entsize, le, i),
        0 <= k < rel_entries(d, shoff, shnum, entsize, le, i, n).len(),
    ensures
        exists|j: int| #[trigger] reloc_from_entry(d, shoff, shnum, entsize, le, i, j, rel_entries(d, shoff, shnum, entsize, le, i, n)[k]),
    decreases n,
{
    if n > 0 {
        let pre = rel_entries(d, shoff, shnum, entsize, le, i, n - 1);
        if k < pre.len() {
            lemma_rel_entries_members(d, shoff, shnum, entsize, le, i, n - 1, k);
            let j = choose|j: int| #[trigger] reloc_from_entry(d, shoff, shnum, entsize, le, i, j, pre[k]);
            assert(rel_entries(d, shoff, shnum, entsize, le, i, n)[k] == pre[k]);
        } else {
            let e = rel_entry(d, shoff, shnum, entsize, le, i, n - 1);
            assert(rel_entries(d, shoff, shnum, entsize, le, i, n)[k] == e);
            assert(reloc_from_entry(d, shoff, shnum, entsize, le, i, n - 1, e));
        }
    }
}

proof fn lemma_rels_upto_members(d: Seq<u8>, shoff: u32, shnum: u16, entsize: u16, le: bool, n: int, k: int)
    requires
        0 <= k < rels_upto(d, shoff, shnum, entsize, le, n).len(),
    ensures
        exists|i: int, j: int| 0 <= i < n && #[trigger] reloc_from_entry(d, shoff, shnum, entsize, le, i, j, rels_upto(d, shoff, shnum, entsize, le, n)[k]),
    decreases n,
{
    if n > 0 {
        let pre = rels_upto(d, shoff, shnum, entsize, le, n - 1);
        if k < pre.len() {
            lemma_rels_upto_members(d, shoff, shnum, entsize, le, n - 1, k);
            let (i, j) = choose|i: int, j: int| 0 <= i < n - 1 && #[trigger] reloc_from_entry(d, shoff, shnum, entsize, le, i, j, pre[k]);
            assert(rels_upto(d, shoff, shnum, entsize, le, n)[k] == pre[k]);
            assert(reloc_from_entry(d, shoff, shnum, entsize, le, i, j, rels_upto(d, shoff, shnum, entsize, le, n)[k]));
        } else {
            let i = n - 1;
            let h = shdr(d, shoff, entsize, le, i);
            let m = (h.3 / rel_entry_size(d, shoff, entsize, le, i)) as int;
            assert(rel_section_ok(d, shoff, shnum, entsize, le, i));
            assert(rels_upto(d, shoff, shnum, entsize, le, n)[k] == rel_entries(d, shoff, shnum, entsize, le, i, m)[k - pre.len()]);
            lemma_rel_entries_members(d, shoff, shnum, entsize, le, i, m, k - pre.len());
        }
    }
}

/// Every relocation the parser lists is an entry of a REL or RELA section
/// header, read as `reloc_from_entry` describes.
pub proof fn parsed_relocation_fields(d: Seq<u8>, shoff: u32, shnum: u16, entsize: u16, le: bool, k: int)
    requires
        0 <= k < spec_relocations(d, shoff, shnum, entsize, le).len(),
    ensures
        exists|i: int, j: int| 0 <= i < shnum && #[trigger] reloc_from_entry(d, shoff, shnum, entsize, le, i, j, spec_relocations(d, shoff, shnum, entsize, le)[k]),
{
    lemma_rels_upto_members(d, shoff, shnum, entsize, le, shnum as int, k);
}

proof fn lemma_mul_mono(a: int, b: int, c: int)
    requires
        0 <= a <= b,
        0 <= c,
    ensures
        a * c <= b * c,
{
    assert(a * c <= b * c) by (nonlinear_arith) requires 0 <= a <= b, 0 <= c;
}

fn read_shdr(d: &[u8], shoff: u32, entsize: u16, le: bool, i: u16) -> (h: (u32, u32, u32, u32, u32, u32, u32))
    ensures
        h == shdr(d@, shoff, entsize, le, i as int),
{
    proof { lemma_mul_mono(i as int, 0xFFFF, entsize as int); lemma_mul_mono(entsize as int, 0xFFFF, 0xFFFF); }
    let so: u64 = shoff as u64 + (i as u64) * (entsize as u64);
    (rd32_at(d, so + 4, le), rd32_at(d, so + 12, le), rd32_at(d, so + 16, le), rd32_at(d, so + 20, le),
        rd32_at(d, so + 24, le), rd32_at(d, so + 28, le), rd32_at(d, so + 36, le))
}

fn symbol_name_for(
    d: &[u8],
    le: bool,
    sym: (u32, u32, u32, u32, u32, u32, u32),
    strtab: &[u8],
    r_sym: u32,
) -> (s: String)
    ensures
        s@ == rel_symbol_name(d@, le, sym, strtab@, r_sym),
{
    proof { lemma_mul_mono(r_sym as int, 0xFFFF_FFFF, sym.6 as int); lemma_mul_mono(sym.6 as int, 0xFFFF_FFFF, 0xFFFF_FFFF); }
    let entry: u64 = sym.2 as u64 + (r_sym as u64) * (sym.6 as u64);
    if r_sym > 0 && entry + (sym.6 as u64) <= d.len() as u64 {
        let st = rd32_at(d, entry, le);
        if (st as usize) < strtab.len() {
            let end: usize = match find_nul(strtab, st as usize) {
                Some(z) => z,
                None => strtab.len(),
            };
            utf8_or_empty(&strtab[st as usize..end])
        } else {
            String::new()
        }
    } else {
        String::new()
    }
}

fn make_rel(
    data: &[u8],
    le: bool,
    sym: (u32, u32, u32, u32, u32, u32, u32),
    strtab: &[u8],
    target_addr: u32,
    base: u64,
) -> (r: Relocation)
    requires
        base < 0x2_0000_0000,
    ensures
        rel_view(r) == (rd32(data@, base as int, le).wrapping_add(target_addr),
            rel_symbol_name(data@, le, sym, strtab@, rd32(data@, base + 4, le) >> 8u32),
            rd32(data@, base + 4, le) & 0xFFu32, rd32(data@, base + 4, le) >> 8u32),
{
    let r_offset = rd32_at(data, base, le);
    let r_info = rd32_at(data, base + 4, le);
    let r_sym: u32 = r_info >> 8;
    let r_type: u32 = r_info & 0xFF;
    let symbol_name = symbol_name_for(data, le, sym, strtab, r_sym);
    Relocation { offset: r_offset.wrapping_add(target_addr), symbol_name, r_type, symbol: r_sym }
}

fn append_section_rels(
    out: &mut Vec<Relocation>,
    data: &[u8],
    e_shoff: u32,
    e_shnum: u16,
    e_shentsize: u16,
    le: bool,
    i: u16,
    h: (u32, u32, u32, u32, u32, u32, u32),
    sym: (u32, u32, u32, u32, u32, u32, u32),
    strh: (u32, u32, u32, u32, u32, u32, u32),
    strtab: &[u8],
    target_addr: u32,
)
    requires
        i < e_shnum,
        rel_section_ok(data@, e_shoff, e_shnum, e_shentsize, le, i as int),
        h == shdr(data@, e_shoff, e_shentsize, le, i as int),
        sym == shdr(data@, e_shoff, e_shentsize, le, h.4 as int),
        strh == shdr(data@, e_shoff, e_shentsize, le, sym.4 as int),
        strtab@ == data@.subrange(strh.2 as int, strh.2 + strh.3),
        target_addr == (if h.5 < e_shnum { shdr(data@, e_shoff, e_shentsize, le, h.5 as int).1 } else { 0 }),
    ensures
        final(out)@.map_values(|r: Relocation| rel_view(r)) == old(out)@.map_values(|r: Relocation| rel_view(r))
            + rel_entries(data@, e_shoff, e_shnum, e_shentsize, le, i as int,
                (h.3 / rel_entry_size(data@, e_shoff, e_shentsize, le, i as int)) as int),
{
    let ghost d = data@;
    let ghost r0 = out@.map_values(|r: Relocation| rel_view(r));
    let es: u32 = if h.6 > 0 { h.6 } else if h.0 == 9 { 8 } else { 12 };
    let num: u32 = h.3 / es;
    let mut j: u32 = 0;
    while j < num
        invariant
            d == data@,
            es == rel_entry_size(d, e_shoff, e_shentsize, le, i as int),
            h == shdr(d, e_shoff, e_shentsize, le, i as int),
            sym == shdr(d, e_shoff, e_shentsize, le, h.4 as int),
            strh == shdr(d, e_shoff, e_shentsize, le, sym.4 as int),
            strtab@ == d.subrange(strh.2 as int, strh.2 + strh.3),
            target_addr == (if h.5 < e_shnum { shdr(d, e_shoff, e_shentsize, le, h.5 as int).1 } else { 0 }),
            es > 0,
            num == h.3 / es,
            j <= num,
            out@.map_values(|r: Relocation| rel_view(r)) == r0 + rel_entries(d, e_shoff, e_shnum, e_shentsize, le, i as int, j as int),
        decreases num - j,
    {
        assert((j as int) * (es as int) <= h.3) by (nonlinear_arith)
            requires j < num, num == h.3 / es, es > 0;
        let base: u64 = h.2 as u64 + (j as u64) * (es as u64);
        let ghost before = out@.map_values(|r: Relocation| rel_view(r));
        if base + es as u64 <= data.len() as u64 {
            let rel = make_rel(data, le, sym, strtab, target_addr, base);
            assert(rel_view(rel) == rel_entry(d, e_shoff, e_shnum, e_shentsize, le, i as int, j as int));
            out.push(rel);
            assert(out@.map_values(|r: Relocation| rel_view(r)) =~= before + seq![rel_view(rel)]);
        }
        j = j + 1;
    }
}

/// Parse ELF32 relocations from the REL (9) and RELA (4) sections, resolving
/// each entry's symbol name through the linked symbol and string tables. Each
/// offset is made absolute by adding the address of the section the entries
/// apply to (wrapping). Entries that run past the end of the file are skipped.
pub fn parse_relocations(data: &[u8], e_shoff: u32, e_shnum: u16, e_shentsize: u16, is_little_endian: bool) -> (rels: Vec<Relocation>)
    ensures
        rels@.map_values(|r: Relocation| rel_view(r)) == spec_relocations(data@, e_shoff, e_shnum, e_shentsize, is_little_endian),
{
    let mut relocations: Vec<Relocation> = Vec::new();
    if e_shoff == 0 || e_shnum == 0 || e_shoff as usize >= data.len() {
        return relocations;
    }
    let ghost d = data@;
    let mut i: u16 = 0;
    while i < e_shnum
        invariant
            d == data@,
            e_shoff != 0 && e_shnum != 0 && e_shoff < d.len(),
            i <= e_shnum,
            relocations@.map_values(|r: Relocation| rel_view(r)) == rels_upto(d, e_shoff, e_shnum, e_shentsize, is_little_endian, i as int),
        decreases e_shnum - i,
    {
        let h = read_shdr(data, e_shoff, e_shentsize, is_little_endian, i);
        if (h.0 == 9 || h.0 == 4) && h.3 != 0 && h.4 < e_shnum as u32 {
            let sym = read_shdr(data, e_shoff, e_shentsize, is_little_endian, h.4 as u16);
            if (sym.0 == 2 || sym.0 == 11) && sym.6 != 0 && sym.4 < e_shnum as u32 {
                let strh = read_shdr(data, e_shoff, e_shentsize, is_little_endian, sym.4 as u16);
                if strh.2 as u64 + strh.3 as u64 <= data.len() as u64 {
                    assert(rel_section_ok(d, e_shoff, e_shnum, e_shentsize, is_little_endian, i as int));
                    let strtab = &data[strh.2 as usize..(strh.2 as u64 + strh.3 as u64) as usize];
                    assert(strtab@ =~= d.subrange(strh.2 as int, strh.2 + strh.3));
                    let target_addr: u32 = if h.5 < e_shnum as u32 {
                        read_shdr(data, e_shoff, e_shentsize, is_little_endian, h.5 as u16).1
                    } else {
                        0
                    };
                    append_section_rels(&mut relocations, data, e_shoff, e_shnum, e_shentsize, is_little_endian, i, h, sym, strh, strtab, target_addr);
                    i = i + 1;
                    continue;
                }
            }
        }
        assert(!rel_section_ok(d, e_shoff, e_shnum, e_shentsize, is_little_endian, i as int));
        i = i + 1;
    }
    relocations
}


// ---------------------------------------------------------------------------
// Sections and symbols, kept sorted by address
// ---------------------------------------------------------------------------

/// A section as plain values: (name, address, size, offset, bytes, flags).
pub open spec fn sec_view(s: ElfSection) -> (Seq<char>, u32, u32, u32, Seq<u8>, u32) {
    (s.name@, s.address, s.size, s.offset, s.data@, s.flags)
}

/// A symbol as plain values: (name, address, size, section).
pub open spec fn sym_view(s: ElfSymbol) -> (Seq<char>, u32, u32, Seq<char>) {
    (s.name@, s.address, s.size, s.section@)
}

/// `x` inserted into `s` after every element whose address is not above its own.
pub open spec fn ins_sec(s: Seq<(Seq<char>, u32, u32, u32, Seq<u8>, u32)>, x: (Seq<char>, u32, u32, u32, Seq<u8>, u32)) -> Seq<(Seq<char>, u32, u32, u32, Seq<u8>, u32)>
    decreases s.len(),
{
    if s.len() == 0 {
        seq![x]
    } else if s.last().1 <= x.1 {
        s.push(x)
    } else {
        ins_sec(s.drop_last(), x).push(s.last())
    }
}

/// `items` inserted one by one, in order, into `s`.
pub open spec fn ins_all_sec(s: Seq<(Seq<char>, u32, u32, u32, Seq<u8>, u32)>, items: Seq<(Seq<char>, u32, u32, u32, Seq<u8>, u32)>) -> Seq<(Seq<char>, u32, u32, u32, Seq<u8>, u32)>
    decreases items.len(),
{
    if items.len() == 0 { s } else { ins_sec(ins_all_sec(s, items.drop_last()), items.last()) }
}

/// `items` stably sorted by address (equal addresses keep their order).
pub open spec fn sort_sec(items: Seq<(Seq<char>, u32, u32, u32, Seq<u8>, u32)>) -> Seq<(Seq<char>, u32, u32, u32, Seq<u8>, u32)> {
    ins_all_sec(Seq::empty(), items)
}

proof fn lemma_ins_split_sec(s: Seq<(Seq<char>, u32, u32, u32, Seq<u8>, u32)>, x: (Seq<char>, u32, u32, u32, Seq<u8>, u32), p: int)
    requires
        0 <= p <= s.len(),
        p == 0 || s[p - 1].1 <= x.1,
        forall|q: int| p <= q < s.len() ==> s[q].1 > x.1,
    ensures
        ins_sec(s, x) == s.take(p) + seq![x] + s.skip(p),
    decreases s.len(),
{
    if s.len() == p {
        assert(s.take(p) =~= s);
        assert(s.skip(p) =~= Seq::<(Seq<char>, u32, u32, u32, Seq<u8>, u32)>::empty());
        if s.len() == 0 {
            assert(seq![x] =~= s.take(p) + seq![x] + s.skip(p));
        } else {
            assert(s.push(x) =~= s.take(p) + seq![x] + s.skip(p));
        }
    } else {
        assert(s.last().1 > x.1);
        lemma_ins_split_sec(s.drop_last(), x, p);
        assert(ins_sec(s, x) =~= s.take(p) + seq![x] + s.skip(p));
    }
}

proof fn lemma_ins_all_append_sec(s: Seq<(Seq<char>, u32, u32, u32, Seq<u8>, u32)>, a: Seq<(Seq<char>, u32, u32, u32, Seq<u8>, u32)>, b: Seq<(Seq<char>, u32, u32, u32, Seq<u8>, u32)>)
    ensures
        ins_all_sec(s, a + b) == ins_all_sec(ins_all_sec(s, a), b),
    decreases b.len(),
{
    if b.len() == 0 {
        assert(a + b =~= a);
    } else {
        assert((a + b).drop_last() =~= a + b.drop_last());
        lemma_ins_all_append_sec(s, a, b.drop_last());
    }
}

/// Sorted by address (not decreasing).
pub open spec fn sorted_sec(s: Seq<(Seq<char>, u32, u32, u32, Seq<u8>, u32)>) -> bool {
    forall|i: int, j: int| 0 <= i < j < s.len() ==> s[i].1 <= s[j].1
}

proof fn lemma_ins_sorted_sec(s: Seq<(Seq<char>, u32, u32, u32, Seq<u8>, u32)>, x: (Seq<char>, u32, u32, u32, Seq<u8>, u32))
    requires
        sorted_sec(s),
    ensures
        sorted_sec(ins_sec(s, x)),
        ins_sec(s, x).len() == s.len() + 1,
    decreases s.len(),
{
    lemma_ins_len_sec(s, x);
    if s.len() > 0 && s.last().1 > x.1 {
        lemma_ins_sorted_sec(s.drop_last(), x);
        let t = ins_sec(s.drop_last(), x);
        assert forall|i: int| 0 <= i < t.len() implies t[i].1 <= s.last().1 by {
            lemma_ins_members_sec(s.drop_last(), x, i);
        }
    }
}

proof fn lemma_ins_len_sec(s: Seq<(Seq<char>, u32, u32, u32, Seq<u8>, u32)>, x: (Seq<char>, u32, u32, u32, Seq<u8>, u32))
    ensures
        ins_sec(s, x).len() == s.len() + 1,
    decreases s.len(),
{
    if s.len() > 0 && s.last().1 > x.1 {
        lemma_ins_len_sec(s.drop_last(), x);
    }
}

proof fn lemma_ins_members_sec(s: Seq<(Seq<char>, u32, u32, u32, Seq<u8>, u32)>, x: (Seq<char>, u32, u32, u32, Seq<u8>, u32), i: int)
    requires
        0 <= i < s.len() + 1,
        sorted_sec(s),
    ensures
        ins_sec(s, x).len() == s.len() + 1,
        ins_sec(s, x)[i] == x || exists|k: int| 0 <= k < s.len() && ins_sec(s, x)[i] == s[k],
    decreases s.len(),
{
    lemma_ins_len_sec(s, x);
    if s.len() > 0 && s.last().1 > x.1 {
        lemma_ins_len_sec(s.drop_last(), x);
        if i < s.len() {
            lemma_ins_members_sec(s.drop_last(), x, i);
            if ins_sec(s, x)[i] != x {
                let k = choose|k: int| 0 <= k < s.drop_last().len() && ins_sec(s.drop_last(), x)[i] == s.drop_last()[k];
                assert(ins_sec(s, x)[i] == s[k]);
            }
        } else {
            assert(ins_sec(s, x)[i] == s[s.len() - 1]);
        }
    } else if s.len() > 0 {
        if i < s.len() {
            assert(ins_sec(s, x)[i] == s[i]);
        }
    }
}

/// Insert `x` into the address-sorted `v` after every element whose address is not above its own.
fn insert_sorted_sec(v: &mut Vec<ElfSection>, x: ElfSection)
    requires
        sorted_sec(old(v)@.map_values(|e: ElfSection| sec_view(e))),
    ensures
        final(v)@.map_values(|e: ElfSection| sec_view(e)) == ins_sec(old(v)@.map_values(|e: ElfSection| sec_view(e)), sec_view(x)),
        sorted_sec(final(v)@.map_values(|e: ElfSection| sec_view(e))),
{
    let ghost s = v@.map_values(|e: ElfSection| sec_view(e));
    let mut p: usize = v.len();
    while p > 0 && v[p - 1].address > x.address
        invariant
            p <= v.len(),
            s == v@.map_values(|e: ElfSection| sec_view(e)),
            forall|q: int| p <= q < s.len() ==> s[q].1 > x.address,
        decreases p,
    {
        p = p - 1;
    }
    proof {
        lemma_ins_split_sec(s, sec_view(x), p as int);
        lemma_ins_sorted_sec(s, sec_view(x));
    }
    let ghost xv = sec_view(x);
    v.insert(p, x);
    assert(v@.map_values(|e: ElfSection| sec_view(e)) =~= s.take(p as int) + seq![xv] + s.skip(p as int));
}

/// `x` inserted into `s` after every element whose address is not above its own.
pub open spec fn ins_sym(s: Seq<(Seq<char>, u32, u32, Seq<char>)>, x: (Seq<char>, u32, u32, Seq<char>)) -> Seq<(Seq<char>, u32, u32, Seq<char>)>
    decreases s.len(),
{
    if s.len() == 0 {
        seq![x]
    } else if s.last().1 <= x.1 {
        s.push(x)
    } else {
        ins_sym(s.drop_last(), x).push(s.last())
    }
}

/// `items` inserted one by one, in order, into `s`.
pub open spec fn ins_all_sym(s: Seq<(Seq<char>, u32, u32, Seq<char>)>, items: Seq<(Seq<char>, u32, u32, Seq<char>)>) -> Seq<(Seq<char>, u32, u32, Seq<char>)>
    decreases items.len(),
{
    if items.len() == 0 { s } else { ins_sym(ins_all_sym(s, items.drop_last()), items.last()) }
}

/// `items` stably sorted by address (equal addresses keep their order).
pub open spec fn sort_sym(items: Seq<(Seq<char>, u32, u32, Seq<char>)>) -> Seq<(Seq<char>, u32, u32, Seq<char>)> {
    ins_all_sym(Seq::empty(), items)
}

proof fn lemma_ins_split_sym(s: Seq<(Seq<char>, u32, u32, Seq<char>)>, x: (Seq<char>, u32, u32, Seq<char>), p: int)
    requires
        0 <= p <= s.len(),
        p == 0 || s[p - 1].1 <= x.1,
        forall|q: int| p <= q < s.len() ==> s[q].1 > x.1,
    ensures
        ins_sym(s, x) == s.take(p) + seq![x] + s.skip(p),
    decreases s.len(),
{
    if s.len() == p {
        assert(s.take(p) =~= s);
        assert(s.skip(p) =~= Seq::<(Seq<char>, u32, u32, Seq<char>)>::empty());
        if s.len() == 0 {
            assert(seq![x] =~= s.take(p) + seq![x] + s.skip(p));
        } else {
            assert(s.push(x) =~= s.take(p) + seq![x] + s.skip(p));
        }
    } else {
        assert(s.last().1 > x.1);
        lemma_ins_split_sym(s.drop_last(), x, p);
        assert(ins_sym(s, x) =~= s.take(p) + seq![x] + s.skip(p));
    }
}

proof fn lemma_ins_all_append_sym(s: Seq<(Seq<char>, u32, u32, Seq<char>)>, a: Seq<(Seq<char>, u32, u32, Seq<char>)>, b: Seq<(Seq<char>, u32, u32, Seq<char>)>)
    ensures
        ins_all_sym(s, a + b) == ins_all_sym(ins_all_sym(s, a), b),
    decreases b.len(),
{
    if b.len() == 0 {
        assert(a + b =~= a);
    } else {
        assert((a + b).drop_last() =~= a + b.drop_last());
        lemma_ins_all_append_sym(s, a, b.drop_last());
    }
}

/// Sorted by address (not decreasing).
pub open spec fn sorted_sym(s: Seq<(Seq<char>, u32, u32, Seq<char>)>) -> bool {
    forall|i: int, j: int| 0 <= i < j < s.len() ==> s[i].1 <= s[j].1
}

proof fn lemma_ins_sorted_sym(s: Seq<(Seq<char>, u32, u32, Seq<char>)>, x: (Seq<char>, u32, u32, Seq<char>))
    requires
        sorted_sym(s),
    ensures
        sorted_sym(ins_sym(s, x)),
        ins_sym(s, x).len() == s.len() + 1,
    decreases s.len(),
{
    lemma_ins_len_sym(s, x);
    if s.len() > 0 && s.last().1 > x.1 {
        lemma_ins_sorted_sym(s.drop_last(), x);
        let t = ins_sym(s.drop_last(), x);
        assert forall|i: int| 0 <= i < t.len() implies t[i].1 <= s.last().1 by {
            lemma_ins_members_sym(s.drop_last(), x, i);
        }
    }
}

proof fn lemma_ins_len_sym(s: Seq<(Seq<char>, u32, u32, Seq<char>)>, x: (Seq<char>, u32, u32, Seq<char>))
    ensures
        ins_sym(s, x).len() == s.len() + 1,
    decreases s.len(),
{
    if s.len() > 0 && s.last().1 > x.1 {
        lemma_ins_len_sym(s.drop_last(), x);
    }
}

proof fn lemma_ins_members_sym(s: Seq<(Seq<char>, u32, u32, Seq<char>)>, x: (Seq<char>, u32, u32, Seq<char>), i: int)
    requires
        0 <= i < s.len() + 1,
        sorted_sym(s),
    ensures
        ins_sym(s, x).len() == s.len() + 1,
        ins_sym(s, x)[i] == x || exists|k: int| 0 <= k < s.len() && ins_sym(s, x)[i] == s[k],
    decreases s.len(),
{
    lemma_ins_len_sym(s, x);
    if s.len() > 0 && s.last().1 > x.1 {
        lemma_ins_len_sym(s.drop_last(), x);
        if i < s.len() {
            lemma_ins_members_sym(s.drop_last(), x, i);
            if ins_sym(s, x)[i] != x {
                let k = choose|k: int| 0 <= k < s.drop_last().len() && ins_sym(s.drop_last(), x)[i] == s.drop_last()[k];
                assert(ins_sym(s, x)[i] == s[k]);
            }
        } else {
            assert(ins_sym(s, x)[i] == s[s.len() - 1]);
        }
    } else if s.len() > 0 {
        if i < s.len() {
            assert(ins_sym(s, x)[i] == s[i]);
        }
    }
}

/// Insert `x` into the address-sorted `v` after every element whose address is not above its own.
fn insert_sorted_sym(v: &mut Vec<ElfSymbol>, x: ElfSymbol)
    requires
        sorted_sym(old(v)@.map_values(|e: ElfSymbol| sym_view(e))),
    ensures
        final(v)@.map_values(|e: ElfSymbol| sym_view(e)) == ins_sym(old(v)@.map_values(|e: ElfSymbol| sym_view(e)), sym_view(x)),
        sorted_sym(final(v)@.map_values(|e: ElfSymbol| sym_view(e))),
{
    let ghost s = v@.map_values(|e: ElfSymbol| sym_view(e));
    let mut p: usize = v.len();
    while p > 0 && v[p - 1].address > x.address
        invariant
            p <= v.len(),
            s == v@.map_values(|e: ElfSymbol| sym_view(e)),
            forall|q: int| p <= q < s.len() ==> s[q].1 > x.address,
        decreases p,
    {
        p = p - 1;
    }
    proof {
        lemma_ins_split_sym(s, sym_view(x), p as int);
        lemma_ins_sorted_sym(s, sym_view(x));
    }
    let ghost xv = sym_view(x);
    v.insert(p, x);
    assert(v@.map_values(|e: ElfSymbol| sym_view(e)) =~= s.take(p as int) + seq![xv] + s.skip(p as int));
}


// ---------------------------------------------------------------------------
// ELF32 parsing
// ---------------------------------------------------------------------------

pub open spec fn e_entry(d: Seq<u8>, le: bool) -> u32 { rd32(d, 24, le) }
pub open spec fn e_shoff(d: Seq<u8>, le: bool) -> u32 { rd32(d, 32, le) }
pub open spec fn e_shentsize(d: Seq<u8>, le: bool) -> u16 { rd16(d, 46, le) }
pub open spec fn e_shnum(d: Seq<u8>, le: bool) -> u16 { rd16(d, 48, le) }
pub open spec fn e_shstrndx(d: Seq<u8>, le: bool) -> u16 { rd16(d, 50, le) }

/// The ELF header fields the parser reads: `e_entry` is the word at byte 24,
/// `e_shoff` the word at byte 32, `e_shentsize`, `e_shnum` and `e_shstrndx`
/// the half-words at bytes 46, 48 and 50, in the image's byte order.
pub proof fn elf_header_fields(d: Seq<u8>, le: bool)
    ensures
        e_entry(d, le) == rd32(d, 24, le),
        e_shoff(d, le) == rd32(d, 32, le),
        e_shentsize(d, le) == rd16(d, 46, le),
        e_shnum(d, le) == rd16(d, 48, le),
        e_shstrndx(d, le) == rd16(d, 50, le),
{
}

/// Byte offset of section header `i`.
pub open spec fn hdr_off(d: Seq<u8>, le: bool, i: int) -> int {
    e_shoff(d, le) + i * e_shentsize(d, le)
}

/// Section header `i` lies inside the file.
pub open spec fn hdr_in_file(d: Seq<u8>, le: bool, i: int) -> bool {
    hdr_off(d, le, i) + e_shentsize(d, le) <= d.len()
}

/// The byte range `[start, end)` of the table described by the header at
/// `ho`: its offset must be below the file length (as a 32-bit value) and its
/// size nonzero; the end is clamped to that length.
pub open spec fn table_range(d: Seq<u8>, ho: int, le: bool) -> Option<(int, int)> {
    let off = rd32(d, ho + 16, le);
    let size = rd32(d, ho + 20, le);
    let len32 = d.len() as u32;
    if ho + 24 <= d.len() && off < len32 && size > 0 {
        Some((off as int, if off + size < len32 { off + size } else { len32 as int }))
    } else {
        None
    }
}

/// The table described at `ho` has an end offset past 32 bits.
pub open spec fn table_end_overflows(d: Seq<u8>, ho: int, le: bool) -> bool {
    let off = rd32(d, ho + 16, le);
    let size = rd32(d, ho + 20, le);
    ho + 24 <= d.len() && off < (d.len() as u32) && size > 0 && off + size > u32::MAX
}

/// The leading checks pass and the section headers are looked at.
pub open spec fn has_section_table(d: Seq<u8>) -> bool {
    let le = d[5] == 1;
    &&& d.len() >= 64
    &&& d[0] == 0x7F && d[1] == 0x45 && d[2] == 0x4C && d[3] == 0x46
    &&& d[4] == 1
    &&& e_shoff(d, le) > 0 && e_shnum(d, le) > 0 && e_shoff(d, le) < d.len()
}

/// Offset of the section-name table's header.
pub open spec fn names_hdr(d: Seq<u8>, le: bool) -> int {
    e_shoff(d, le) + e_shstrndx(d, le) * e_shentsize(d, le)
}

/// The section-name table, when it exists and holds a NUL byte.
pub open spec fn names_table(d: Seq<u8>) -> Option<Seq<u8>> {
    let le = d[5] == 1;
    if has_section_table(d) {
        match table_range(d, names_hdr(d, le), le) {
            Some((a, b)) => if nul_from(d.subrange(a, b), 0) is Some { Some(d.subrange(a, b)) } else { None },
            None => None,
        }
    } else {
        None
    }
}

/// The name at `idx` of a name table: up to its NUL, `<name N>` without one,
/// empty when `idx` is past the table.
pub open spec fn table_name(t: Seq<u8>, idx: u32) -> Seq<char> {
    if idx < t.len() {
        match nul_from(t, idx as int) {
            Some(z) => utf8_or_empty_text(t.subrange(idx as int, z)),
            None => "<name "@ + dec_nat(idx as nat) + ">"@,
        }
    } else {
        Seq::empty()
    }
}

/// A section name with exactly one leading dot.
pub open spec fn dotted(n: Seq<char>) -> Seq<char> {
    if n.len() > 0 && n[0] == '.' { n } else { "."@ + n }
}

/// The PROGBITS section of header `i`, if it is one with a nonzero size.
pub open spec fn sec_item(d: Seq<u8>, names: Seq<u8>, i: int) -> Seq<(Seq<char>, u32, u32, u32, Seq<u8>, u32)> {
    let le = d[5] == 1;
    let o = hdr_off(d, le, i);
    let offv = rd32(d, o + 16, le);
    let size = rd32(d, o + 20, le);
    if hdr_in_file(d, le, i) && rd32(d, o + 4, le) == 1 && size > 0 {
        let end = if offv + size < d.len() { offv + size } else { d.len() as int };
        seq![(dotted(table_name(names, rd32(d, o, le))), rd32(d, o + 12, le), size, offv, d.subrange(offv as int, end), rd32(d, o + 8, le))]
    } else {
        Seq::empty()
    }
}

/// Header `i` is a nonempty symbol table (2 or 11) starting in the file with a valid link.
pub open spec fn is_symtab(d: Seq<u8>, i: int) -> bool {
    let le = d[5] == 1;
    let o = hdr_off(d, le, i);
    let t = rd32(d, o + 4, le);
    &&& hdr_in_file(d, le, i)
    &&& (t == 2 || t == 11)
    &&& rd32(d, o + 20, le) > 0
    &&& rd32(d, o + 16, le) < (d.len() as u32)
    &&& rd32(d, o + 24, le) < e_shnum(d, le)
}

/// Offset of the header of symbol table `i`'s string table.
pub open spec fn symstr_hdr(d: Seq<u8>, i: int) -> int {
    let le = d[5] == 1;
    e_shoff(d, le) + rd32(d, hdr_off(d, le, i) + 24, le) * e_shentsize(d, le)
}

/// The symbol at byte offset `so`, named from `strtab`.
pub open spec fn sym_item(d: Seq<u8>, strtab: Seq<u8>, so: int) -> Seq<(Seq<char>, u32, u32, Seq<char>)> {
    let le = d[5] == 1;
    let idx = rd32(d, so, le);
    let shndx = rd16(d, so + 6, le);
    let value = rd32(d, so + 8, le);
    if idx > 0 && idx < strtab.len() {
        match nul_from(strtab, idx as int) {
            Some(z) => {
                let nm = utf8_or_empty_text(strtab.subrange(idx as int, z));
                seq![(if nm.len() == 0 { "0x"@ + hex_fixed(value as nat, 8) } else { nm }, value, rd32(d, so + 12, le),
                    if shndx != 0xFFFF { "#"@ + dec_nat(shndx as nat) } else { "NOSEL"@ })]
            },
            None => Seq::empty(),
        }
    } else {
        Seq::empty()
    }
}

/// The symbols `j < n` of the table at `base` (16-byte entries inside the file).
pub open spec fn syms_of(d: Seq<u8>, strtab: Seq<u8>, base: u32, n: int) -> Seq<(Seq<char>, u32, u32, Seq<char>)>
    decreases n,
{
    if n <= 0 {
        Seq::empty()
    } else {
        let so = base + 16 * (n - 1);
        syms_of(d, strtab, base, n - 1) + (if so + 16 <= d.len() { sym_item(d, strtab, so) } else { Seq::empty() })
    }
}

/// The symbols of header `i`.
pub open spec fn sym_items(d: Seq<u8>, i: int) -> Seq<(Seq<char>, u32, u32, Seq<char>)> {
    let le = d[5] == 1;
    let o = hdr_off(d, le, i);
    if is_symtab(d, i) {
        match table_range(d, symstr_hdr(d, i), le) {
            Some((a, b)) => syms_of(d, d.subrange(a, b), rd32(d, o + 16, le), (rd32(d, o + 20, le) / 16) as int),
            None => Seq::empty(),
        }
    } else {
        Seq::empty()
    }
}

/// The sections of headers `i < n`, in header order.
pub open spec fn secs_upto(d: Seq<u8>, names: Seq<u8>, n: int) -> Seq<(Seq<char>, u32, u32, u32, Seq<u8>, u32)>
    decreases n,
{
    if n <= 0 { Seq::empty() } else { secs_upto(d, names, n - 1) + sec_item(d, names, n - 1) }
}

/// The symbols of headers `i < n`, in header order.
pub open spec fn syms_upto(d: Seq<u8>, n: int) -> Seq<(Seq<char>, u32, u32, Seq<char>)>
    decreases n,
{
    if n <= 0 { Seq::empty() } else { syms_upto(d, n - 1) + sym_items(d, n - 1) }
}

/// The parsed sections, sorted by address.
pub open spec fn spec_sections(d: Seq<u8>) -> Seq<(Seq<char>, u32, u32, u32, Seq<u8>, u32)> {
    match names_table(d) {
        Some(names) => sort_sec(secs_upto(d, names, e_shnum(d, d[5] == 1) as int)),
        None => Seq::empty(),
    }
}

/// The parsed symbols, sorted by address.
pub open spec fn spec_symbols(d: Seq<u8>) -> Seq<(Seq<char>, u32, u32, Seq<char>)> {
    match names_table(d) {
        Some(names) => sort_sym(syms_upto(d, e_shnum(d, d[5] == 1) as int)),
        None => Seq::empty(),
    }
}

/// Inputs on which parsing indexes out of bounds or overflows a 32-bit end
/// offset: a table end past 32 bits, or a PROGBITS section starting past the
/// end of the file.
pub open spec fn elf_parse_faults(d: Seq<u8>) -> bool {
    let le = d[5] == 1;
    ||| has_section_table(d) && table_end_overflows(d, names_hdr(d, le), le)
    ||| names_table(d) is Some && exists|i: int| 0 <= i < e_shnum(d, le) && #[trigger] hdr_in_file(d, le, i) && (
        (rd32(d, hdr_off(d, le, i) + 4, le) == 1 && rd32(d, hdr_off(d, le, i) + 20, le) > 0
            && rd32(d, hdr_off(d, le, i) + 16, le) > d.len())
        || (is_symtab(d, i) && table_end_overflows(d, symstr_hdr(d, i), le)))
}


fn table_bounds(d: &[u8], ho: u64, le: bool) -> (r: Option<(usize, usize)>)
    requires
        ho < 0x3_0000_0000,
        !table_end_overflows(d@, ho as int, le),
    ensures
        match r {
            Some((a, b)) => table_range(d@, ho as int, le) == Some((a as int, b as int)) && a <= b <= d.len(),
            None => table_range(d@, ho as int, le) is None,
        },
{
    if ho + 24 > d.len() as u64 {
        return None;
    }
    let off = rd32_at(d, ho + 16, le);
    let size = rd32_at(d, ho + 20, le);
    let len32: u32 = d.len() as u32;
    if off < len32 && size > 0 {
        let end: u32 = if off + size < len32 { off + size } else { len32 };
        let ghost dl: usize = d.len();
        assert(len32 as int <= dl) by (bit_vector) requires len32 == dl as u32;
        Some((off as usize, end as usize))
    } else {
        None
    }
}

fn name_at(t: &[u8], idx: u32) -> (r: String)
    ensures
        r@ == table_name(t@, idx),
{
    if (idx as usize) < t.len() {
        match find_nul(t, idx as usize) {
            Some(z) => utf8_or_empty(&t[idx as usize..z]),
            None => {
                let mut s = owned("<name ");
                push_dec_u64(&mut s, idx as u64);
                push_str(&mut s, ">");
                s
            },
        }
    } else {
        String::new()
    }
}

fn dotted_string(n: String) -> (r: String)
    ensures
        r@ == dotted(n@),
{
    if starts_with_dot(n.as_str()) {
        n
    } else {
        let mut s = owned(".");
        push_str(&mut s, n.as_str());
        s
    }
}

proof fn lemma_syms_tail(d: Seq<u8>, strtab: Seq<u8>, base: u32, j: int, n: int)
    requires
        0 <= j <= n,
        base + 16 * j + 16 > d.len(),
    ensures
        syms_of(d, strtab, base, n) == syms_of(d, strtab, base, j),
    decreases n - j,
{
    if n > j {
        lemma_syms_tail(d, strtab, base, j, n - 1);
    }
}

fn append_symbols(syms: &mut Vec<ElfSymbol>, d: &[u8], strtab: &[u8], base: u32, n: u32)
    requires
        sorted_sym(old(syms)@.map_values(|e: ElfSymbol| sym_view(e))),
    ensures
        sorted_sym(final(syms)@.map_values(|e: ElfSymbol| sym_view(e))),
        final(syms)@.map_values(|e: ElfSymbol| sym_view(e))
            == ins_all_sym(old(syms)@.map_values(|e: ElfSymbol| sym_view(e)), syms_of(d@, strtab@, base, n as int)),
{
    let ghost s0 = syms@.map_values(|e: ElfSymbol| sym_view(e));
    let le = d.len() > 5 && d[5] == 1;
    assert(d@.len() > 5 ==> le == (d@[5] == 1));
    let mut j: u32 = 0;
    while j < n
        invariant
            j <= n,
            le == (d@.len() > 5 && d@[5] == 1),
            s0 == old(syms)@.map_values(|e: ElfSymbol| sym_view(e)),
            sorted_sym(syms@.map_values(|e: ElfSymbol| sym_view(e))),
            syms@.map_values(|e: ElfSymbol| sym_view(e)) == ins_all_sym(s0, syms_of(d@, strtab@, base, j as int)),
        decreases n - j,
    {
        let so: u64 = base as u64 + 16 * (j as u64);
        if so + 16 > d.len() as u64 {
            proof {
                lemma_syms_tail(d@, strtab@, base, j as int, n as int);
                assert(syms@.map_values(|e: ElfSymbol| sym_view(e)) == ins_all_sym(s0, syms_of(d@, strtab@, base, n as int)));
            }
            return;
        }
        let ghost before = syms@.map_values(|e: ElfSymbol| sym_view(e));
        assert(d@[5] == 1 <==> le) by { assert(d@.len() > 5); }
        let idx = rd32_at(d, so, le);
        let shndx = rd16_at(d, so + 6, le);
        let value = rd32_at(d, so + 8, le);
        let size = rd32_at(d, so + 12, le);
        let ghost item = sym_item(d@, strtab@, so as int);
        if idx > 0 && (idx as usize) < strtab.len() {
            match find_nul(strtab, idx as usize) {
                Some(z) => {
                    let nm = utf8_or_empty(&strtab[idx as usize..z]);
                    let name = if nm.as_str().is_empty() {
                        let mut h = owned("0x");
                        push_hex_fixed(&mut h, value, 8);
                        h
                    } else {
                        nm
                    };
                    let section = if shndx != 0xFFFF {
                        let mut t = owned("#");
                        push_dec_u64(&mut t, shndx as u64);
                        t
                    } else {
                        owned("NOSEL")
                    };
                    let sym = ElfSymbol { name, address: value, size, section };
                    assert(seq![sym_view(sym)] =~= item);
                    insert_sorted_sym(syms, sym);
                },
                None => {
                    assert(item =~= Seq::<(Seq<char>, u32, u32, Seq<char>)>::empty());
                },
            }
        } else {
            assert(item =~= Seq::<(Seq<char>, u32, u32, Seq<char>)>::empty());
        }
        proof {
            lemma_ins_all_append_sym(s0, syms_of(d@, strtab@, base, j as int), item);
            assert(syms_of(d@, strtab@, base, j + 1) == syms_of(d@, strtab@, base, j as int) + item);
            if item.len() == 1 {
                assert(ins_all_sym(before, item) == ins_sym(before, item[0])) by {
                    assert(item.drop_last() =~= Seq::<(Seq<char>, u32, u32, Seq<char>)>::empty());
                    assert(ins_all_sym(before, item.drop_last()) == before);
                    assert(item.last() == item[0]);
                }
            } else {
                assert(ins_all_sym(before, item) == before);
            }
        }
        j = j + 1;
    }
}


proof fn lemma_hdr_out_mono(d: Seq<u8>, le: bool, i: int, j: int)
    requires
        0 <= i <= j,
        !hdr_in_file(d, le, i),
    ensures
        !hdr_in_file(d, le, j),
{
    lemma_mul_mono(i, j, e_shentsize(d, le) as int);
}

proof fn lemma_headers_tail(d: Seq<u8>, names: Seq<u8>, i: int, n: int)
    requires
        0 <= i <= n,
        d.len() > 5,
        !hdr_in_file(d, d[5] == 1, i),
    ensures
        secs_upto(d, names, n) == secs_upto(d, names, i),
        syms_upto(d, n) == syms_upto(d, i),
    decreases n - i,
{
    if n > i {
        lemma_headers_tail(d, names, i, n - 1);
        lemma_hdr_out_mono(d, d[5] == 1, i, n - 1);
    }
}

fn process_header(
    data: &[u8],
    names: &[u8],
    le: bool,
    shoff: u32,
    shnum: u16,
    entsize: u16,
    i: u16,
    sections: &mut Vec<ElfSection>,
    symbols: &mut Vec<ElfSymbol>,
)
    requires
        data@.len() >= 64,
        le == (data@[5] == 1),
        shoff == e_shoff(data@, le),
        shnum == e_shnum(data@, le),
        entsize == e_shentsize(data@, le),
        i < shnum,
        hdr_in_file(data@, le, i as int),
        !(rd32(data@, hdr_off(data@, le, i as int) + 4, le) == 1 && rd32(data@, hdr_off(data@, le, i as int) + 20, le) > 0
            && rd32(data@, hdr_off(data@, le, i as int) + 16, le) > data@.len()),
        !(is_symtab(data@, i as int) && table_end_overflows(data@, symstr_hdr(data@, i as int), le)),
        sorted_sec(old(sections)@.map_values(|e: ElfSection| sec_view(e))),
        sorted_sym(old(symbols)@.map_values(|e: ElfSymbol| sym_view(e))),
    ensures
        sorted_sec(final(sections)@.map_values(|e: ElfSection| sec_view(e))),
        sorted_sym(final(symbols)@.map_values(|e: ElfSymbol| sym_view(e))),
        final(sections)@.map_values(|e: ElfSection| sec_view(e))
            == ins_all_sec(old(sections)@.map_values(|e: ElfSection| sec_view(e)), sec_item(data@, names@, i as int)),
        final(symbols)@.map_values(|e: ElfSymbol| sym_view(e))
            == ins_all_sym(old(symbols)@.map_values(|e: ElfSymbol| sym_view(e)), sym_items(data@, i as int)),
{
    let ghost d = data@;
    proof { lemma_mul_mono(i as int, 0xFFFF, entsize as int); lemma_mul_mono(entsize as int, 0xFFFF, 0xFFFF); }
    let so: u64 = shoff as u64 + (i as u64) * (entsize as u64);
    assert(so == hdr_off(d, le, i as int));
    let name_idx = rd32_at(data, so, le);
    let sh_type = rd32_at(data, so + 4, le);
    let sh_flags = rd32_at(data, so + 8, le);
    let sh_addr = rd32_at(data, so + 12, le);
    let offv = rd32_at(data, so + 16, le);
    let sh_size = rd32_at(data, so + 20, le);
    let sh_link = rd32_at(data, so + 24, le);
    let section_name = name_at(names, name_idx);
    let ghost s_item = sec_item(d, names@, i as int);
    let ghost old_secs = sections@.map_values(|e: ElfSection| sec_view(e));
    if sh_type == 1 && sh_size > 0 {
        let start: usize = offv as usize;
        let end: usize = if (offv as u64) + (sh_size as u64) < data.len() as u64 { (offv as u64 + sh_size as u64) as usize } else { data.len() };
        let bytes = vstd::slice::slice_to_vec(&data[start..end]);
        let sec = ElfSection { name: dotted_string(section_name), address: sh_addr, size: sh_size, offset: offv, data: bytes, flags: sh_flags };
        assert(seq![sec_view(sec)] =~= s_item);
        insert_sorted_sec(sections, sec);
        proof {
            assert(s_item.drop_last() =~= Seq::<(Seq<char>, u32, u32, u32, Seq<u8>, u32)>::empty());
            assert(ins_all_sec(old_secs, s_item.drop_last()) == old_secs);
        }
    } else {
        assert(s_item =~= Seq::<(Seq<char>, u32, u32, u32, Seq<u8>, u32)>::empty());
    }
    let ghost y_items = sym_items(d, i as int);
    if (sh_type == 2 || sh_type == 11) && sh_size > 0 && offv < (data.len() as u32) && sh_link < shnum as u32 {
        assert(is_symtab(d, i as int));
        proof { lemma_mul_mono(sh_link as int, 0xFFFF, entsize as int); }
        let sh2: u64 = shoff as u64 + (sh_link as u64) * (entsize as u64);
        assert(sh2 == symstr_hdr(d, i as int));
        match table_bounds(data, sh2, le) {
            Some((a, b)) => {
                let strtab = &data[a..b];
                append_symbols(symbols, data, strtab, offv, sh_size / 16);
            },
            None => {},
        }
    } else {
        assert(!is_symtab(d, i as int));
        assert(y_items =~= Seq::<(Seq<char>, u32, u32, Seq<char>)>::empty());
    }
}

proof fn lemma_ins_all_sorted_sec(s: Seq<(Seq<char>, u32, u32, u32, Seq<u8>, u32)>, items: Seq<(Seq<char>, u32, u32, u32, Seq<u8>, u32)>)
    requires
        sorted_sec(s),
    ensures
        sorted_sec(ins_all_sec(s, items)),
    decreases items.len(),
{
    if items.len() > 0 {
        lemma_ins_all_sorted_sec(s, items.drop_last());
        lemma_ins_sorted_sec(ins_all_sec(s, items.drop_last()), items.last());
    }
}

proof fn lemma_ins_all_sorted_sym(s: Seq<(Seq<char>, u32, u32, Seq<char>)>, items: Seq<(Seq<char>, u32, u32, Seq<char>)>)
    requires
        sorted_sym(s),
    ensures
        sorted_sym(ins_all_sym(s, items)),
    decreases items.len(),
{
    if items.len() > 0 {
        lemma_ins_all_sorted_sym(s, items.drop_last());
        lemma_ins_sorted_sym(ins_all_sym(s, items.drop_last()), items.last());
    }
}

/// The sections and the symbols that [`parse_elf_data`] returns for an image
/// come sorted by address.
pub proof fn parsed_tables_sorted(d: Seq<u8>)
    ensures
        sorted_sec(spec_sections(d)),
        sorted_sym(spec_symbols(d)),
{
    if let Some(names) = names_table(d) {
        lemma_ins_all_sorted_sec(Seq::empty(), secs_upto(d, names, e_shnum(d, d[5] == 1) as int));
        lemma_ins_all_sorted_sym(Seq::empty(), syms_upto(d, e_shnum(d, d[5] == 1) as int));
    }
}

proof fn lemma_ins_all_members_sec(s: Seq<(Seq<char>, u32, u32, u32, Seq<u8>, u32)>, items: Seq<(Seq<char>, u32, u32, u32, Seq<u8>, u32)>, k: int)
    requires
        sorted_sec(s),
        0 <= k < ins_all_sec(s, items).len(),
    ensures
        ins_all_sec(s, items).len() == s.len() + items.len(),
        (exists|j: int| 0 <= j < s.len() && ins_all_sec(s, items)[k] == s[j])
            || (exists|j: int| 0 <= j < items.len() && ins_all_sec(s, items)[k] == items[j]),
    decreases items.len(),
{
    if items.len() == 0 {
        assert(ins_all_sec(s, items)[k] == s[k]);
    } else {
        let inner = ins_all_sec(s, items.drop_last());
        lemma_ins_all_sorted_sec(s, items.drop_last());
        lemma_ins_len_sec(inner, items.last());
        lemma_ins_members_sec(inner, items.last(), k);
        if ins_all_sec(s, items)[k] == items.last() {
            assert(ins_all_sec(s, items)[k] == items[items.len() - 1]);
        } else {
            let m = choose|m: int| 0 <= m < inner.len() && ins_sec(inner, items.last())[k] == inner[m];
            lemma_ins_all_members_sec(s, items.drop_last(), m);
            if exists|j: int| 0 <= j < items.drop_last().len() && inner[m] == items.drop_last()[j] {
                let j = choose|j: int| 0 <= j < items.drop_last().len() && inner[m] == items.drop_last()[j];
                assert(ins_all_sec(s, items)[k] == items[j]);
            }
        }
        if k == 0 && inner.len() == 0 {
        }
        lemma_ins_all_len_sec(s, items.drop_last());
    }
}

proof fn lemma_ins_all_len_sec(s: Seq<(Seq<char>, u32, u32, u32, Seq<u8>, u32)>, items: Seq<(Seq<char>, u32, u32, u32, Seq<u8>, u32)>)
    ensures
        ins_all_sec(s, items).len() == s.len() + items.len(),
    decreases items.len(),
{
    if items.len() > 0 {
        lemma_ins_all_len_sec(s, items.drop_last());
        lemma_ins_len_sec(ins_all_sec(s, items.drop_last()), items.last());
    }
}

proof fn lemma_secs_upto_members(d: Seq<u8>, names: Seq<u8>, n: int, k: int)
    requires
        0 <= k < secs_upto(d, names, n).len(),
    ensures
        exists|i: int| 0 <= i < n && sec_item(d, names, i).len() == 1 && secs_upto(d, names, n)[k] == sec_item(d, names, i)[0],
    decreases n,
{
    if n > 0 {
        let pre = secs_upto(d, names, n - 1);
        if k < pre.len() {
            lemma_secs_upto_members(d, names, n - 1, k);
            let i = choose|i: int| 0 <= i < n - 1 && sec_item(d, names, i).len() == 1 && pre[k] == sec_item(d, names, i)[0];
            assert(secs_upto(d, names, n)[k] == pre[k]);
        } else {
            assert(secs_upto(d, names, n)[k] == sec_item(d, names, n - 1)[k - pre.len()]);
        }
    }
}

/// Section `e` is what section header `i` of `d` describes: the header,
/// at `e_shoff + i * e_shentsize` (bytes 32 and 46 of the ELF header), lies
/// in the file and has type PROGBITS (1); `e`'s address is its `sh_addr`
/// word (byte 12), its file offset `sh_offset` (byte 16), its size
/// `sh_size` (byte 20, nonzero) and its flags `sh_flags` (byte 8).
pub open spec fn section_from_header(d: Seq<u8>, i: int, e: (Seq<char>, u32, u32, u32, Seq<u8>, u32)) -> bool {
    let le = d[5] == 1;
    let o = rd32(d, 32, le) + i * rd16(d, 46, le);
    &&& o + rd16(d, 46, le) <= d.len()
    &&& rd32(d, o + 4, le) == 1
    &&& e.1 == rd32(d, o + 12, le)
    &&& e.3 == rd32(d, o + 16, le)
    &&& e.2 == rd32(d, o + 20, le)
    &&& e.2 > 0
    &&& e.5 == rd32(d, o + 8, le)
}

/// Every section `parse_elf_data` lists comes from a PROGBITS (type 1)
/// section header `i` inside the file, at `e_shoff + i * e_shentsize`
/// (read from bytes 32 and 46 of the ELF header): its address is the header's
/// `sh_addr` word (byte 12), its file offset `sh_offset` (byte 16), its size
/// `sh_size` (byte 20, nonzero) and its flags `sh_flags` (byte 8).
pub proof fn parsed_section_fields(d: Seq<u8>, k: int)
    requires
        0 <= k < spec_sections(d).len(),
    ensures
        exists|i: int| 0 <= i < rd16(d, 48, d[5] == 1) && #[trigger] section_from_header(d, i, spec_sections(d)[k]),
{
    match names_table(d) {
        Some(names) => {
            let items = secs_upto(d, names, e_shnum(d, d[5] == 1) as int);
            let sorted = spec_sections(d);
            assert(sorted == ins_all_sec(Seq::empty(), items));
            lemma_ins_all_members_sec(Seq::empty(), items, k);
            let j = choose|j: int| 0 <= j < items.len() && sorted[k] == items[j];
            lemma_secs_upto_members(d, names, e_shnum(d, d[5] == 1) as int, j);
            let i = choose|i: int| 0 <= i < e_shnum(d, d[5] == 1) && sec_item(d, names, i).len() == 1 && items[j] == sec_item(d, names, i)[0];
            assert(sec_item(d, names, i).len() == 1);
            assert(section_from_header(d, i, sorted[k]));
        },
        None => {},
    }
}

fn table_overflows(d: &[u8], ho: u64, le: bool) -> (b: bool)
    requires
        ho < 0x3_0000_0000,
    ensures
        b == table_end_overflows(d@, ho as int, le),
{
    if ho + 24 > d.len() as u64 {
        return false;
    }
    let off = rd32_at(d, ho + 16, le);
    let size = rd32_at(d, ho + 20, le);
    off < (d.len() as u32) && size > 0 && off as u64 + size as u64 > 0xFFFF_FFFF
}

/// Whether `data` is an image that [`parse_elf_data`] does not take: a
/// section-name, PROGBITS or symbol string table whose end would pass 32
/// bits. Callers test this before parsing.
pub fn elf_parse_faults_in(data: &[u8]) -> (b: bool)
    ensures
        b == elf_parse_faults(data@),
{
    let ghost d = data@;
    if data.len() < 64 || !(data[0] == 0x7F && data[1] == 0x45 && data[2] == 0x4C && data[3] == 0x46) || data[4] != 1 {
        assert(!has_section_table(d));
        assert(names_table(d) is None);
        return false;
    }
    let le = data[5] == 1;
    let shoff = rd32_at(data, 32, le);
    let entsize = rd16_at(data, 46, le);
    let shnum = rd16_at(data, 48, le);
    let shstrndx = rd16_at(data, 50, le);
    if !(shoff > 0 && shnum > 0 && (shoff as usize) < data.len()) {
        assert(!has_section_table(d));
        assert(names_table(d) is None);
        return false;
    }
    assert(has_section_table(d));
    proof { lemma_mul_mono(shstrndx as int, 0xFFFF, entsize as int); lemma_mul_mono(entsize as int, 0xFFFF, 0xFFFF); }
    let ho: u64 = shoff as u64 + (shstrndx as u64) * (entsize as u64);
    assert(ho == names_hdr(d, le));
    if table_overflows(data, ho, le) {
        return true;
    }
    match table_bounds(data, ho, le) {
        None => {
            assert(names_table(d) is None);
            return false;
        },
        Some((a, b)) => {
            let names = &data[a..b];
            assert(names@ =~= d.subrange(a as int, b as int));
            if find_nul(names, 0).is_none() {
                assert(names_table(d) is None);
                return false;
            }
            assert(names_table(d) is Some);
        },
    }
    let mut i: u16 = 0;
    while i < shnum
        invariant
            d == data@,
            d.len() >= 64,
            le == (d[5] == 1),
            shoff == e_shoff(d, le),
            shnum == e_shnum(d, le),
            entsize == e_shentsize(d, le),
            names_table(d) is Some,
            i <= shnum,
            forall|j: int| 0 <= j < i ==> !(#[trigger] hdr_in_file(d, le, j) && (
                (rd32(d, hdr_off(d, le, j) + 4, le) == 1 && rd32(d, hdr_off(d, le, j) + 20, le) > 0
                    && rd32(d, hdr_off(d, le, j) + 16, le) > d.len())
                || (is_symtab(d, j) && table_end_overflows(d, symstr_hdr(d, j), le)))),
        decreases shnum - i,
    {
        proof { lemma_mul_mono(i as int, 0xFFFF, entsize as int); lemma_mul_mono(entsize as int, 0xFFFF, 0xFFFF); }
        let so: u64 = shoff as u64 + (i as u64) * (entsize as u64);
        assert(so == hdr_off(d, le, i as int));
        if so + entsize as u64 <= data.len() as u64 {
            let t = rd32_at(data, so + 4, le);
            let off = rd32_at(data, so + 16, le);
            let size = rd32_at(data, so + 20, le);
            assert(hdr_in_file(d, le, i as int));
            if t == 1 && size > 0 && off as u64 > data.len() as u64 {
                assert(elf_parse_faults(d));
                return true;
            }
            let link = rd32_at(data, so + 24, le);
            if (t == 2 || t == 11) && size > 0 && off < (data.len() as u32) && link < shnum as u32 {
                assert(is_symtab(d, i as int));
                proof { lemma_mul_mono(link as int, 0xFFFF, entsize as int); }
                let sh: u64 = shoff as u64 + (link as u64) * (entsize as u64);
                assert(sh == symstr_hdr(d, i as int));
                if table_overflows(data, sh, le) {
                    assert(elf_parse_faults(d));
                    return true;
                }
            } else {
                assert(!is_symtab(d, i as int));
            }
        }
        i = i + 1;
    }
    false
}

/// Parse an in-memory ELF32 image with the byte order its header names:
/// PROGBITS sections (with their bytes) and symbol-table entries, each list
/// stably sorted by address, plus the relocations. Sections and symbols are
/// read only when the section-name table exists and holds a NUL byte; the
/// header walk stops at the first header past the end of the file.
pub fn parse_elf_data(data: &[u8], filename: &str) -> (r: Result<ElfFileInfo, String>)
    requires
        !elf_parse_faults(data@),
    ensures
        data@.len() < 64 ==> (r matches Err(e) && e@ == "File too small to be a valid ELF"@),
        data@.len() >= 64 && !(data@[0] == 0x7F && data@[1] == 0x45 && data@[2] == 0x4C && data@[3] == 0x46)
            ==> (r matches Err(e) && e@ == "Not a valid ELF file (bad magic number)"@),
        data@.len() >= 64 && (data@[0] == 0x7F && data@[1] == 0x45 && data@[2] == 0x4C && data@[3] == 0x46) && data@[4] != 1
            ==> (r matches Err(e) && e@ == "Only 32-bit ELF files are supported"@),
        r is Ok <==> (data@.len() >= 64 && data@[0] == 0x7F && data@[1] == 0x45 && data@[2] == 0x4C && data@[3] == 0x46 && data@[4] == 1),
        r matches Ok(info) ==> {
            let le = data@[5] == 1;
            &&& info.filename@ == filename@
            &&& info.sections@.map_values(|e: ElfSection| sec_view(e)) == spec_sections(data@)
            &&& info.symbols@.map_values(|e: ElfSymbol| sym_view(e)) == spec_symbols(data@)
            &&& info.entry_point == e_entry(data@, le)
            &&& info.file_size == data@.len()
            &&& info.is_little_endian == le
            &&& info.is_32bit
            &&& info.relocations@.map_values(|x: Relocation| rel_view(x))
                == spec_relocations(data@, e_shoff(data@, le), e_shnum(data@, le), e_shentsize(data@, le), le)
        },
{
    if data.len() < 64 {
        return Err(owned("File too small to be a valid ELF"));
    }
    if !(data[0] == 0x7F && data[1] == 0x45 && data[2] == 0x4C && data[3] == 0x46) {
        return Err(owned("Not a valid ELF file (bad magic number)"));
    }
    let is_32bit = data[4] == 1;
    let le = data[5] == 1;
    if !is_32bit {
        return Err(owned("Only 32-bit ELF files are supported"));
    }
    let ghost d = data@;
    let e_entry_v = rd32_at(data, 24, le);
    let shoff = rd32_at(data, 32, le);
    let entsize = rd16_at(data, 46, le);
    let shnum = rd16_at(data, 48, le);
    let shstrndx = rd16_at(data, 50, le);
    let mut sections: Vec<ElfSection> = Vec::new();
    let mut symbols: Vec<ElfSymbol> = Vec::new();
    if shoff > 0 && shnum > 0 && (shoff as usize) < data.len() {
        assert(has_section_table(d));
        proof { lemma_mul_mono(shstrndx as int, 0xFFFF, entsize as int); lemma_mul_mono(entsize as int, 0xFFFF, 0xFFFF); }
        let ho: u64 = shoff as u64 + (shstrndx as u64) * (entsize as u64);
        assert(ho == names_hdr(d, le));
        match table_bounds(data, ho, le) {
            Some((a, b)) => {
                let names = &data[a..b];
                assert(names@ =~= d.subrange(a as int, b as int));
                if find_nul(names, 0).is_some() {
                    assert(names_table(d) == Some(names@));
                    let mut i: u16 = 0;
                    while i < shnum
                        invariant
                            d == data@,
                            d.len() >= 64,
                            le == (d[5] == 1),
                            shoff == e_shoff(d, le),
                            shnum == e_shnum(d, le),
                            entsize == e_shentsize(d, le),
                            names_table(d) == Some(names@),
                            !elf_parse_faults(d),
                            i <= shnum,
                            sorted_sec(sections@.map_values(|e: ElfSection| sec_view(e))),
                            sorted_sym(symbols@.map_values(|e: ElfSymbol| sym_view(e))),
                            sections@.map_values(|e: ElfSection| sec_view(e)) == sort_sec(secs_upto(d, names@, i as int)),
                            symbols@.map_values(|e: ElfSymbol| sym_view(e)) == sort_sym(syms_upto(d, i as int)),
                        ensures
                            sections@.map_values(|e: ElfSection| sec_view(e)) == sort_sec(secs_upto(d, names@, shnum as int)),
                            symbols@.map_values(|e: ElfSymbol| sym_view(e)) == sort_sym(syms_upto(d, shnum as int)),
                        decreases shnum - i,
                    {
                        proof { lemma_mul_mono(i as int, 0xFFFF, entsize as int); lemma_mul_mono(entsize as int, 0xFFFF, 0xFFFF); }
                        let so: u64 = shoff as u64 + (i as u64) * (entsize as u64);
                        if so + entsize as u64 > data.len() as u64 {
                            proof { lemma_headers_tail(d, names@, i as int, shnum as int); }
                            break;
                        }
                        assert(hdr_in_file(d, le, i as int));
                        proof {
                            lemma_ins_all_append_sec(Seq::empty(), secs_upto(d, names@, i as int), sec_item(d, names@, i as int));
                            lemma_ins_all_append_sym(Seq::empty(), syms_upto(d, i as int), sym_items(d, i as int));
                        }
                        process_header(data, names, le, shoff, shnum, entsize, i, &mut sections, &mut symbols);
                        i = i + 1;
                    }
                } else {
                    assert(names_table(d) is None);
                }
            },
            None => {
                assert(names_table(d) is None);
            },
        }
    } else {
        assert(names_table(d) is None);
    }
    let relocations = parse_relocations(data, shoff, shnum, entsize, le);
    Ok(ElfFileInfo {
        filename: owned(filename),
        sections,
        symbols,
        entry_point: e_entry_v,
        file_size: data.len() as u64,
        is_little_endian: le,
        is_32bit,
        relocations,
    })
}

} // verus!

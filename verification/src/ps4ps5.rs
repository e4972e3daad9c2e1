//! PlayStation 4 / PlayStation 5 executables: little-endian ELF64 x86-64
//! homebrew images, SELF wrappers with an unencrypted embedded ELF, and the
//! OpenOrbis fake-SELF `eboot.bin` container (magic `4F 15 3D 1D`), with
//! x86-64 disassembly of their sections.

use vstd::prelude::*;
use iced_x86::Formatter;
use crate::elf_sections::{record_view, sec_count, spec_record, walk_fits, walk_overflows, walk_sections, SectionRecord};
use crate::elf::{rd16, rd32};
use crate::elf_sections::rd64;
use crate::text::{dec_nat, owned, push_dec_u64};

verus! {

/// The ELF magic `7F 45 4C 46` starts at `off`.
pub open spec fn elf_magic_at(d: Seq<u8>, off: int) -> bool {
    0 <= off && off + 4 <= d.len() && d[off] == 0x7F && d[off + 1] == 0x45 && d[off + 2] == 0x4C && d[off + 3] == 0x46
}

/// The 16-bit little-endian value at `o` (0 past the end).
pub open spec fn le16(d: Seq<u8>, o: int) -> u16 {
    if o + 2 <= d.len() { (d[o] as int + d[o + 1] as int * 0x100) as u16 } else { 0 }
}

/// The 32-bit little-endian value at `o` (0 past the end).
pub open spec fn le32(d: Seq<u8>, o: int) -> u32 {
    if o + 4 <= d.len() {
        (d[o] as int + d[o + 1] as int * 0x100 + d[o + 2] as int * 0x1_0000 + d[o + 3] as int * 0x100_0000) as u32
    } else {
        0
    }
}

/// The 64-bit little-endian value at `o` (0 past the end).
pub open spec fn le64(d: Seq<u8>, o: int) -> u64 {
    if o + 8 <= d.len() {
        (le32(d, o) as int + le32(d, o + 4) as int * 0x1_0000_0000) as u64
    } else {
        0
    }
}

pub fn ru16le(d: &[u8], o: usize) -> (r: u16)
    ensures
        r == le16(d@, o as int),
{
    if o > d.len() || d.len() - o < 2 {
        return 0;
    }
    (d[o] as u16) + (d[o + 1] as u16) * 0x100
}

pub fn ru32le(d: &[u8], o: usize) -> (r: u32)
    ensures
        r == le32(d@, o as int),
{
    if o > d.len() || d.len() - o < 4 {
        return 0;
    }
    (d[o] as u32) + (d[o + 1] as u32) * 0x100 + (d[o + 2] as u32) * 0x1_0000 + (d[o + 3] as u32) * 0x100_0000
}

pub fn ru64le(d: &[u8], o: usize) -> (r: u64)
    ensures
        r == le64(d@, o as int),
{
    if o > d.len() || d.len() - o < 8 {
        return 0;
    }
    (ru32le(d, o) as u64) + (ru32le(d, o + 4) as u64) * 0x1_0000_0000
}

/// A SELF header: `SCE\0`.
pub open spec fn spec_is_self(d: Seq<u8>) -> bool {
    d.len() >= 4 && d[0] == 0x53 && d[1] == 0x43 && d[2] == 0x45 && d[3] == 0
}

/// The PS4/PS5 `eboot.bin` magic `4F 15 3D 1D`.
pub open spec fn spec_eboot_magic(d: Seq<u8>) -> bool {
    d.len() >= 4 && d[0] == 0x4F && d[1] == 0x15 && d[2] == 0x3D && d[3] == 0x1D
}

/// A fake-SELF container: eboot magic, key type 0x101, an even entry count in
/// `1..=128` and an ELF header right after the entries.
pub open spec fn spec_is_fself(d: Seq<u8>) -> bool {
    let num = le16(d, 0x18) as int;
    &&& spec_eboot_magic(d)
    &&& d.len() >= 0x20
    &&& le32(d, 0x08) == 0x101
    &&& num != 0 && num <= 128 && num % 2 == 0
    &&& elf_magic_at(d, 0x20 + num * 0x20)
}

/// A little-endian ELF64 with `e_machine` x86-64 (62).
pub open spec fn spec_is_ps4ps5_elf(d: Seq<u8>) -> bool {
    d.len() >= 20 && elf_magic_at(d, 0) && d[4] == 2 && d[5] == 1 && le16(d, 18) == 62
}

/// True for a SELF header (`SCE\0`).
pub fn is_self(data: &[u8]) -> (b: bool)
    ensures
        b == spec_is_self(data@),
{
    data.len() >= 4 && data[0] == 0x53 && data[1] == 0x43 && data[2] == 0x45 && data[3] == 0
}

/// True for the `eboot.bin` magic `4F 15 3D 1D`.
pub fn is_ps4_eboot_magic(data: &[u8]) -> (b: bool)
    ensures
        b == spec_eboot_magic(data@),
{
    data.len() >= 4 && data[0] == 0x4F && data[1] == 0x15 && data[2] == 0x3D && data[3] == 0x1D
}

/// True for an OpenOrbis / fake-SELF (homebrew) container.
pub fn is_fself(data: &[u8]) -> (b: bool)
    ensures
        b == spec_is_fself(data@),
{
    if !is_ps4_eboot_magic(data) || data.len() < 0x20 {
        return false;
    }
    if ru32le(data, 0x08) != 0x101 {
        return false;
    }
    let num = ru16le(data, 0x18) as usize;
    if num == 0 || num > 128 || num % 2 != 0 {
        return false;
    }
    let elf_off = 0x20 + num * 0x20;
    if elf_off + 4 > data.len() {
        return false;
    }
    data[elf_off] == 0x7F && data[elf_off + 1] == 0x45 && data[elf_off + 2] == 0x4C && data[elf_off + 3] == 0x46
}

/// True for a little-endian ELF64 x86-64 image.
pub fn is_ps4ps5_elf(data: &[u8]) -> (b: bool)
    ensures
        b == spec_is_ps4ps5_elf(data@),
{
    data.len() >= 20 && data[0] == 0x7F && data[1] == 0x45 && data[2] == 0x4C && data[3] == 0x46 && data[4] == 2
        && data[5] == 1 && ru16le(data, 18) == 62
}


// ---------------------------------------------------------------------------
// Parsed images
// ---------------------------------------------------------------------------

/// A section (or, for a fake SELF, a loadable segment) of an image.
#[derive(Debug, Clone)]
pub struct Ps4Ps5Section {
    pub name: String,
    pub sh_addr: u64,
    pub sh_offset: u64,
    pub sh_size: u64,
    pub is_code: bool,
}

/// What a PS4/PS5 executable holds.
#[derive(Debug, Clone)]
pub struct Ps4Ps5FileInfo {
    pub filename: String,
    pub file_type: String,
    pub entry_point: u64,
    pub machine: u16,
    pub sections: Vec<Ps4Ps5Section>,
    pub has_orbis_note: bool,
    pub encrypted: bool,
}

/// One decoded x86-64 instruction.
#[derive(Debug, Clone)]
pub struct X64Instruction {
    pub address: u64,
    pub bytes: Vec<u8>,
    pub text: String,
    pub size: usize,
}

/// A section as plain values: name, address, file offset, size, executable.
pub type SectionView = (Seq<char>, u64, u64, u64, bool);

/// Everything but the file name, as plain values: file type, entry point,
/// machine, sections, ORBIS note, encrypted.
pub type InfoView = (Seq<char>, u64, u16, Seq<SectionView>, bool, bool);

pub open spec fn section_view(s: Ps4Ps5Section) -> SectionView {
    (s.name@, s.sh_addr, s.sh_offset, s.sh_size, s.is_code)
}

pub open spec fn info_view(i: Ps4Ps5FileInfo) -> InfoView {
    (i.file_type@, i.entry_point, i.machine, i.sections@.map_values(|s: Ps4Ps5Section| section_view(s)), i.has_orbis_note,
        i.encrypted)
}

/// A parse result as plain values (the file name aside).
pub open spec fn result_view(r: Result<Ps4Ps5FileInfo, String>) -> Result<InfoView, Seq<char>> {
    match r {
        Ok(i) => Ok(info_view(i)),
        Err(e) => Err(e@),
    }
}

/// A parsed image carries the file name passed in.
pub open spec fn named(r: Result<Ps4Ps5FileInfo, String>, filename: Seq<char>) -> bool {
    r matches Ok(i) ==> i.filename@ == filename
}

/// A listed section header as a section: executable when `SHF_EXECINSTR` (4) is set.
pub open spec fn code_section(r: (Seq<char>, u64, u64, u64, u64)) -> SectionView {
    (r.0, r.1, r.2, r.3, r.4 & 4u64 != 0)
}

fn to_section(r: &SectionRecord) -> (s: Ps4Ps5Section)
    ensures
        section_view(s) == code_section(record_view(*r)),
{
    Ps4Ps5Section { name: r.name.clone(), sh_addr: r.addr, sh_offset: r.offset, sh_size: r.size, is_code: r.flags & 4u64 != 0 }
}

/// The bytes `ORBIS` start at `i`.
pub open spec fn orbis_at(d: Seq<u8>, i: int) -> bool {
    0 <= i && i + 5 <= d.len() && d[i] == 0x4F && d[i + 1] == 0x52 && d[i + 2] == 0x42 && d[i + 3] == 0x49 && d[i + 4] == 0x53
}

/// The image holds the string `ORBIS` anywhere (as its PT_NOTE entries do).
pub open spec fn has_orbis(d: Seq<u8>) -> bool {
    exists|i: int| #[trigger] orbis_at(d, i)
}

fn check_orbis_note(data: &[u8]) -> (b: bool)
    ensures
        b == has_orbis(data@),
{
    let mut i: usize = 0;
    while data.len() >= 5 && i <= data.len() - 5
        invariant
            forall|j: int| 0 <= j < i ==> !#[trigger] orbis_at(data@, j),
        decreases data.len() - i,
    {
        if data[i] == 0x4F && data[i + 1] == 0x52 && data[i + 2] == 0x42 && data[i + 3] == 0x49 && data[i + 4] == 0x53 {
            assert(orbis_at(data@, i as int));
            return true;
        }
        i = i + 1;
    }
    assert forall|j: int| #[trigger] orbis_at(data@, j) implies false by {
        assert(j < i);
    }
    false
}

/// What a plain ELF64 image parses to.
pub open spec fn spec_parse_elf(d: Seq<u8>) -> Result<InfoView, Seq<char>> {
    if d.len() < 64 {
        Err("File too small for ELF64 header"@)
    } else {
        Ok((
            "ELF64-LE x86-64"@,
            rd64(d, 24, true),
            rd16(d, 18, true),
            Seq::new(sec_count(d, true, true) as nat, |i: int| code_section(spec_record(d, true, true, i))),
            has_orbis(d),
            false,
        ))
    }
}

fn parse_elf(data: &[u8], filename: &str) -> (r: Result<Ps4Ps5FileInfo, String>)
    requires
        !walk_overflows(data@, true, true),
    ensures
        result_view(r) == spec_parse_elf(data@),
        named(r, filename@),
{
    if data.len() < 64 {
        return Err(owned("File too small for ELF64 header"));
    }
    let machine = crate::elf_sections::read16(data, 18, true);
    let entry = crate::elf_sections::read64(data, 24, true);
    let has_orbis_note = check_orbis_note(data);
    let recs = walk_sections(data, true, true);
    let mut sections: Vec<Ps4Ps5Section> = Vec::new();
    let mut k: usize = 0;
    while k < recs.len()
        invariant
            k <= recs@.len(),
            recs@.len() == sec_count(data@, true, true),
            forall|i: int| 0 <= i < recs@.len() ==> #[trigger] record_view(recs@[i]) == spec_record(data@, true, true, i),
            sections@.len() == k,
            forall|i: int| 0 <= i < k ==> #[trigger] section_view(sections@[i]) == code_section(spec_record(data@, true, true, i)),
        decreases recs@.len() - k,
    {
        sections.push(to_section(&recs[k]));
        k = k + 1;
    }
    let info = Ps4Ps5FileInfo {
        filename: owned(filename),
        file_type: owned("ELF64-LE x86-64"),
        entry_point: entry,
        machine,
        sections,
        has_orbis_note,
        encrypted: false,
    };
    assert(info.sections@.map_values(|s: Ps4Ps5Section| section_view(s)) =~= Seq::new(
        sec_count(data@, true, true) as nat,
        |i: int| code_section(spec_record(data@, true, true, i)),
    ));
    Ok(info)
}


/// The first offset at or after `i` where the ELF magic starts.
pub open spec fn magic_from(d: Seq<u8>, i: int) -> Option<int>
    decreases d.len() - i,
{
    if i < 0 || i + 4 > d.len() {
        None
    } else if elf_magic_at(d, i) {
        Some(i)
    } else {
        magic_from(d, i + 1)
    }
}

/// What a SELF with an embedded ELF parses to: the first ELF magic at offset
/// 4 or later starts the image.
pub open spec fn spec_parse_self(d: Seq<u8>) -> Result<InfoView, Seq<char>> {
    match magic_from(d, 4) {
        None => Err("SELF: could not locate embedded ELF (may be encrypted)"@),
        Some(o) => {
            let e = d.skip(o);
            if !spec_is_ps4ps5_elf(e) {
                Err("SELF: embedded ELF is not LE x86-64 (may be encrypted)"@)
            } else {
                match spec_parse_elf(e) {
                    Err(m) => Err(m),
                    Ok(v) => Ok(("SELF (unencrypted)"@, v.1, v.2, v.3, v.4, v.5)),
                }
            }
        },
    }
}

/// The embedded image's section table can be walked without overflow.
pub open spec fn self_walk_ok(d: Seq<u8>) -> bool {
    match magic_from(d, 4) {
        Some(o) => !walk_overflows(d.skip(o), true, true),
        None => true,
    }
}

fn find_magic(data: &[u8], start: usize) -> (r: Option<usize>)
    ensures
        match magic_from(data@, start as int) {
            Some(o) => r == Some(o as usize) && start <= o && o + 4 <= data@.len(),
            None => r is None,
        },
{
    let mut i: usize = start;
    while i < data.len() && data.len() - i >= 4
        invariant
            start <= i,
            magic_from(data@, start as int) == magic_from(data@, i as int),
        decreases data.len() - i,
    {
        if data[i] == 0x7F && data[i + 1] == 0x45 && data[i + 2] == 0x4C && data[i + 3] == 0x46 {
            return Some(i);
        }
        i = i + 1;
    }
    None
}

fn parse_self(data: &[u8], filename: &str) -> (r: Result<Ps4Ps5FileInfo, String>)
    requires
        self_walk_ok(data@),
    ensures
        result_view(r) == spec_parse_self(data@),
        named(r, filename@),
{
    let elf_off = match find_magic(data, 4) {
        Some(o) => o,
        None => {
            return Err(owned("SELF: could not locate embedded ELF (may be encrypted)"));
        },
    };
    let elf = vstd::slice::slice_subrange(data, elf_off, data.len());
    assert(elf@ =~= data@.skip(elf_off as int));
    if !is_ps4ps5_elf(elf) {
        return Err(owned("SELF: embedded ELF is not LE x86-64 (may be encrypted)"));
    }
    match parse_elf(elf, filename) {
        Err(e) => Err(e),
        Ok(mut info) => {
            info.file_type = owned("SELF (unencrypted)");
            Ok(info)
        },
    }
}

// ---------------------------------------------------------------------------
// Fake SELF (OpenOrbis eboot.bin)
// ---------------------------------------------------------------------------

/// Program-header types the loader maps: `PT_LOAD`, `PT_SCE_RELRO` and `PT_SCE_DYNLIBDATA`.
pub open spec fn loadable(t: u32) -> bool {
    t == 1 || t == 0x6100_0010 || t == 0x6100_0000
}

/// How many of the first `n` program headers are loadable.
pub open spec fn load_count(d: Seq<u8>, ph: int, phentsize: int, n: int) -> int
    decreases n,
{
    if n <= 0 {
        0
    } else {
        load_count(d, ph, phentsize, n - 1) + if loadable(le32(d, ph + (n - 1) * phentsize)) { 1int } else { 0int }
    }
}

/// Loadable segment `k`, whose program header is at `o`: its data comes from
/// self entry `2k + 1` (offset and size; the program header's file size when
/// the entry's size is 0).
pub open spec fn seg_section(d: Seq<u8>, o: int, k: int) -> SectionView {
    let eo = 0x20 + (2 * k + 1) * 0x20;
    let data_sz = le64(d, eo + 16);
    (
        "seg"@ + dec_nat(k as nat),
        le64(d, o + 0x10),
        le64(d, eo + 8),
        if data_sz > 0 { data_sz } else { le64(d, o + 0x20) },
        le32(d, o + 4) & 1u32 != 0,
    )
}

/// The sections the first `n` program headers give: one per loadable
/// segment that has a data entry (of `entries`).
pub open spec fn fself_secs(d: Seq<u8>, ph: int, phentsize: int, entries: int, n: int) -> Seq<SectionView>
    decreases n,
{
    if n <= 0 {
        Seq::empty()
    } else {
        let prev = fself_secs(d, ph, phentsize, entries, n - 1);
        let o = ph + (n - 1) * phentsize;
        if loadable(le32(d, o)) && load_count(d, ph, phentsize, n - 1) < entries {
            prev.push(seg_section(d, o, load_count(d, ph, phentsize, n - 1)))
        } else {
            prev
        }
    }
}

/// The message for an eboot.bin that is not a fake SELF.
pub open spec fn retail_self_msg() -> Seq<char> {
    "PS4 eboot.bin is a retail/encrypted SELF, which requires Sony's keys to decrypt. Homebrew (OpenOrbis / fake-SELF) eboot.bin files are supported."@
}

/// What a fake-SELF container parses to.
pub open spec fn spec_parse_fself(d: Seq<u8>) -> Result<InfoView, Seq<char>> {
    if !spec_eboot_magic(d) {
        Err("Not a PS4 eboot.bin (missing 4F 15 3D 1D magic)"@)
    } else if !spec_is_fself(d) {
        Err(retail_self_msg())
    } else {
        let num = le16(d, 0x18) as int;
        let eo = 0x20 + num * 0x20;
        if eo + 0x40 > d.len() {
            Err("PS4 fSELF: truncated (no embedded ELF header)"@)
        } else {
            let phentsize = le16(d, eo + 0x36) as int;
            let phnum = le16(d, eo + 0x38) as int;
            if phentsize < 0x38 || phnum == 0 {
                Err("PS4 fSELF: invalid program header table"@)
            } else if eo + 0x40 + phnum * phentsize > d.len() {
                Err("PS4 fSELF: program header table runs past end of file"@)
            } else {
                let secs = fself_secs(d, eo + 0x40, phentsize, num / 2, phnum);
                if secs.len() == 0 {
                    Err("PS4 fSELF: no loadable segments found"@)
                } else {
                    Ok((
                        "SELF (fSELF / homebrew eboot.bin, unencrypted)"@,
                        le64(d, eo + 0x18),
                        le16(d, eo + 0x12),
                        secs,
                        false,
                        false,
                    ))
                }
            }
        }
    }
}

fn retail_self_error() -> (s: String)
    ensures
        s@ == retail_self_msg(),
{
    owned("PS4 eboot.bin is a retail/encrypted SELF, which requires Sony's keys to decrypt. Homebrew (OpenOrbis / fake-SELF) eboot.bin files are supported.")
}

fn parse_fself(data: &[u8], filename: &str) -> (r: Result<Ps4Ps5FileInfo, String>)
    ensures
        result_view(r) == spec_parse_fself(data@),
        named(r, filename@),
{
    if !is_ps4_eboot_magic(data) {
        return Err(owned("Not a PS4 eboot.bin (missing 4F 15 3D 1D magic)"));
    }
    if !is_fself(data) {
        return Err(retail_self_error());
    }
    let ghost d = data@;
    let num = ru16le(data, 0x18) as usize;
    let elf_off = 0x20 + num * 0x20;
    if elf_off + 0x40 > data.len() {
        return Err(owned("PS4 fSELF: truncated (no embedded ELF header)"));
    }
    let entry = ru64le(data, elf_off + 0x18);
    let machine = ru16le(data, elf_off + 0x12);
    let phentsize = ru16le(data, elf_off + 0x36) as usize;
    let phnum = ru16le(data, elf_off + 0x38) as usize;
    if phentsize < 0x38 || phnum == 0 {
        return Err(owned("PS4 fSELF: invalid program header table"));
    }
    let ph_off = elf_off + 0x40;
    assert(phnum * phentsize <= 0xFFFF * 0xFFFF) by (nonlinear_arith)
        requires
            phnum <= 0xFFFF,
            phentsize <= 0xFFFF,
    ;
    if ph_off + phnum * phentsize > data.len() {
        return Err(owned("PS4 fSELF: program header table runs past end of file"));
    }
    let entries = num / 2;
    let dlen = data.len();
    let mut sections: Vec<Ps4Ps5Section> = Vec::new();
    let mut seg_idx: usize = 0;
    let mut i: usize = 0;
    while i < phnum
        invariant
            d == data@,
            dlen == d.len(),
            i <= phnum,
            0x38 <= phentsize <= 0xFFFF,
            phnum <= 0xFFFF,
            ph_off + phnum * phentsize <= d.len(),
            entries == num / 2,
            num <= 128,
            seg_idx == load_count(d, ph_off as int, phentsize as int, i as int),
            seg_idx <= i,
            sections@.map_values(|s: Ps4Ps5Section| section_view(s)) == fself_secs(
                d,
                ph_off as int,
                phentsize as int,
                entries as int,
                i as int,
            ),
        decreases phnum - i,
    {
        assert(i * phentsize + phentsize <= phnum * phentsize) by (nonlinear_arith)
            requires
                i < phnum,
        ;
        let o = ph_off + i * phentsize;
        let p_type = ru32le(data, o);
        let ghost prev = sections@.map_values(|s: Ps4Ps5Section| section_view(s));
        if p_type == 1 || p_type == 0x6100_0010 || p_type == 0x6100_0000 {
            if seg_idx < entries {
                let eo = 0x20 + (2 * seg_idx + 1) * 0x20;
                let data_off = ru64le(data, eo + 8);
                let data_sz = ru64le(data, eo + 16);
                let mut name = owned("seg");
                push_dec_u64(&mut name, seg_idx as u64);
                let sec = Ps4Ps5Section {
                    name,
                    sh_addr: ru64le(data, o + 0x10),
                    sh_offset: data_off,
                    sh_size: if data_sz > 0 { data_sz } else { ru64le(data, o + 0x20) },
                    is_code: (ru32le(data, o + 4) & 1) != 0,
                };
                sections.push(sec);
                assert(sections@.map_values(|s: Ps4Ps5Section| section_view(s)) =~= prev.push(
                    seg_section(d, o as int, seg_idx as int),
                ));
            }
            seg_idx = seg_idx + 1;
        }
        i = i + 1;
    }
    if sections.len() == 0 {
        return Err(owned("PS4 fSELF: no loadable segments found"));
    }
    let info = Ps4Ps5FileInfo {
        filename: owned(filename),
        file_type: owned("SELF (fSELF / homebrew eboot.bin, unencrypted)"),
        entry_point: entry,
        machine,
        sections,
        has_orbis_note: false,
        encrypted: false,
    };
    Ok(info)
}

/// What a PS4/PS5 executable parses to: a fake SELF when it carries the
/// eboot magic, else a SELF, else a plain little-endian ELF64 x86-64 image.
pub open spec fn spec_parse_ps4ps5(d: Seq<u8>) -> Result<InfoView, Seq<char>> {
    if spec_eboot_magic(d) {
        spec_parse_fself(d)
    } else if spec_is_self(d) {
        spec_parse_self(d)
    } else if spec_is_ps4ps5_elf(d) {
        spec_parse_elf(d)
    } else {
        Err("Not a PS4/PS5 executable (expected SELF, eboot.bin, or LE ELF64 x86-64)"@)
    }
}

/// The inputs whose section table would overflow a `usize` offset.
pub open spec fn ps4ps5_overflows(d: Seq<u8>) -> bool {
    !spec_eboot_magic(d) && ((spec_is_self(d) && !self_walk_ok(d)) || (!spec_is_self(d) && walk_overflows(d, true, true)))
}

/// Whether `parse_ps4ps5` can read this image without an offset
/// overflowing a `usize` (the inputs it accepts).
pub fn ps4ps5_fits(data: &[u8]) -> (b: bool)
    ensures
        b == !ps4ps5_overflows(data@),
{
    if is_ps4_eboot_magic(data) {
        true
    } else if is_self(data) {
        match find_magic(data, 4) {
            Some(o) => {
                let elf = vstd::slice::slice_subrange(data, o, data.len());
                assert(elf@ =~= data@.skip(o as int));
                walk_fits(elf, true, true)
            },
            None => true,
        }
    } else {
        walk_fits(data, true, true)
    }
}

/// Parse a PS4/PS5 executable (fake SELF, SELF, or plain LE ELF64 x86-64).
pub fn parse_ps4ps5(data: &[u8], filename: &str) -> (r: Result<Ps4Ps5FileInfo, String>)
    requires
        !ps4ps5_overflows(data@),
    ensures
        result_view(r) == spec_parse_ps4ps5(data@),
        named(r, filename@),
{
    if is_ps4_eboot_magic(data) {
        return parse_fself(data, filename);
    }
    if is_self(data) {
        return parse_self(data, filename);
    }
    if is_ps4ps5_elf(data) {
        return parse_elf(data, filename);
    }
    Err(owned("Not a PS4/PS5 executable (expected SELF, eboot.bin, or LE ELF64 x86-64)"))
}


// ---------------------------------------------------------------------------
// x86-64 disassembly
// ---------------------------------------------------------------------------

/// The length of the instruction that iced-x86 decodes (64-bit mode) at the
/// start of `bytes`.
pub uninterp spec fn x64_len(bytes: Seq<u8>) -> nat;

/// The Intel-syntax text that iced-x86's `IntelFormatter` gives the
/// instruction at the start of `bytes` when it sits at address `ip`.
pub uninterp spec fn x64_text(bytes: Seq<u8>, ip: u64) -> Seq<char>;

/// iced-x86: `Decoder::with_ip(64, bytes, ip, DecoderOptions::NONE)`, one
/// `decode`, and `IntelFormatter::format` of the result. The contract claims
/// that the length and text depend on the bytes (and the text on `ip`) alone,
/// and that the decoder, which reads at least the first byte and at most the
/// 15 bytes of an instruction (an invalid or truncated one too), consumes
/// between 1 and `min(15, bytes.len())` bytes.
#[verifier::external_body]
fn decode_x64(bytes: &[u8], ip: u64) -> (r: (usize, String))
    requires
        bytes@.len() > 0,
    ensures
        r.0 == x64_len(bytes@),
        1 <= r.0 <= bytes@.len(),
        r.0 <= 15,
        r.1@ == x64_text(bytes@, ip),
{
    let mut decoder = iced_x86::Decoder::with_ip(64, bytes, ip, iced_x86::DecoderOptions::NONE);
    let instruction = decoder.decode();
    let mut text = String::new();
    iced_x86::IntelFormatter::new().format(&instruction, &mut text);
    (instruction.len(), text)
}

/// An instruction as plain values: address, bytes, text, size.
pub open spec fn x64_view(x: X64Instruction) -> (u64, Seq<u8>, Seq<char>, nat) {
    (x.address, x.bytes@, x.text@, x.size as nat)
}

/// The instructions decoded from offset `pos` of `d` on, at most `k` of them;
/// the one at offset `p` sits at `display + p` (wrapping).
pub open spec fn x64_from(d: Seq<u8>, display: u64, pos: int, k: nat) -> Seq<(u64, Seq<u8>, Seq<char>, nat)>
    decreases k,
{
    if k == 0 || pos < 0 || pos >= d.len() {
        Seq::empty()
    } else {
        let b = d.skip(pos);
        let l = x64_len(b);
        let ip = ((display + pos) % 0x1_0000_0000_0000_0000) as u64;
        seq![(ip, d.subrange(pos, pos + l), x64_text(b, ip), l)] + x64_from(d, display, pos + l, (k - 1) as nat)
    }
}

/// Disassemble raw bytes as 64-bit x86 (Intel syntax): instructions are
/// decoded back to back from the start until the bytes or `max_instructions`
/// run out.
pub fn disassemble_x64(data: &[u8], display_address: u64, max_instructions: usize) -> (out: Vec<X64Instruction>)
    ensures
        out@.map_values(|x: X64Instruction| x64_view(x)) == x64_from(data@, display_address, 0, max_instructions as nat),
{
    let ghost d = data@;
    let mut out: Vec<X64Instruction> = Vec::new();
    let mut pos: usize = 0;
    while pos < data.len() && out.len() < max_instructions
        invariant
            d == data@,
            pos <= d.len(),
            out@.len() <= max_instructions,
            out@.map_values(|x: X64Instruction| x64_view(x)) + x64_from(d, display_address, pos as int, (max_instructions - out@.len()) as nat)
                == x64_from(d, display_address, 0, max_instructions as nat),
        decreases d.len() - pos,
    {
        let ghost before = out@.map_values(|x: X64Instruction| x64_view(x));
        let rest = vstd::slice::slice_subrange(data, pos, data.len());
        assert(rest@ =~= d.skip(pos as int));
        let ip = display_address.wrapping_add(pos as u64);
        let (len, text) = decode_x64(rest, ip);
        let bytes = vstd::slice::slice_to_vec(vstd::slice::slice_subrange(data, pos, pos + len));
        out.push(X64Instruction { address: ip, bytes, text, size: len });
        let ghost k = (max_instructions - before.len()) as nat;
        assert(x64_from(d, display_address, pos as int, k) == seq![x64_view(out@[out@.len() - 1])] + x64_from(
            d,
            display_address,
            pos + len,
            (k - 1) as nat,
        ));
        assert(out@.map_values(|x: X64Instruction| x64_view(x)) =~= before.push(x64_view(out@[out@.len() - 1])));
        assert(before.push(x64_view(out@[out@.len() - 1])) + x64_from(d, display_address, pos + len, (k - 1) as nat)
            =~= before + (seq![x64_view(out@[out@.len() - 1])] + x64_from(d, display_address, pos + len, (k - 1) as nat)));
        pos = pos + len;
    }
    assert(x64_from(d, display_address, pos as int, (max_instructions - out@.len()) as nat) =~= Seq::empty());
    assert(out@.map_values(|x: X64Instruction| x64_view(x)) + Seq::empty() =~= out@.map_values(|x: X64Instruction| x64_view(x)));
    out
}


/// The first section called `name`.
pub open spec fn first_named(secs: Seq<SectionView>, name: Seq<char>) -> Option<SectionView>
    decreases secs.len(),
{
    if secs.len() == 0 {
        None
    } else if secs[0].0 == name {
        Some(secs[0])
    } else {
        first_named(secs.drop_first(), name)
    }
}

/// Where a section's bytes end in a file of `len` bytes: `offset + size`
/// (each taken as a `usize`), capped at the end of the file.
pub open spec fn section_end(s: SectionView, len: int) -> int {
    let e = (s.2 as usize) as int + (s.3 as usize) as int;
    if e < len { e } else { len }
}

/// What disassembling a named section gives.
pub open spec fn spec_disassemble_section(d: Seq<u8>, name: Seq<char>, max: nat) -> Result<
    Seq<(u64, Seq<u8>, Seq<char>, nat)>,
    Seq<char>,
> {
    match spec_parse_ps4ps5(d) {
        Err(e) => Err(e),
        Ok(v) => if v.5 {
            Err("PS4/PS5 SELF is encrypted \u{2014} disassembly not possible"@)
        } else {
            match first_named(v.3, name) {
                None => Err("Section '"@ + name + "' not found"@),
                Some(s) => {
                    let start = (s.2 as usize) as int;
                    if start >= d.len() {
                        Err("Section raw data outside file"@)
                    } else {
                        Ok(x64_from(d.subrange(start, section_end(s, d.len() as int)), s.1, 0, max))
                    }
                },
            }
        },
    }
}

/// Disassemble a section of a PS4/PS5 executable as 64-bit x86 (Intel
/// syntax). A section whose offset plus size would pass the largest `usize`
/// is read to the end of the file.
pub fn disassemble_ps4ps5_section(data: &[u8], section_name: &str, max_instructions: usize) -> (r: Result<
    Vec<X64Instruction>,
    String,
>)
    requires
        !ps4ps5_overflows(data@),
    ensures
        match r {
            Ok(v) => spec_disassemble_section(data@, section_name@, max_instructions as nat) == Ok::<
                Seq<(u64, Seq<u8>, Seq<char>, nat)>,
                Seq<char>,
            >(v@.map_values(|x: X64Instruction| x64_view(x))),
            Err(e) => spec_disassemble_section(data@, section_name@, max_instructions as nat) == Err::<
                Seq<(u64, Seq<u8>, Seq<char>, nat)>,
                Seq<char>,
            >(e@),
        },
{
    let info = match parse_ps4ps5(data, "ps4ps5") {
        Ok(i) => i,
        Err(e) => {
            return Err(e);
        },
    };
    let ghost v = info_view(info);
    if info.encrypted {
        return Err(owned("PS4/PS5 SELF is encrypted \u{2014} disassembly not possible"));
    }
    let wanted = owned(section_name);
    let ghost secs = info.sections@.map_values(|s: Ps4Ps5Section| section_view(s));
    assert(secs.skip(0) =~= secs);
    let mut k: usize = 0;
    while k < info.sections.len()
        invariant
            k <= info.sections@.len(),
            spec_parse_ps4ps5(data@) == Ok::<InfoView, Seq<char>>(info_view(info)),
            !info.encrypted,
            secs == info.sections@.map_values(|s: Ps4Ps5Section| section_view(s)),
            wanted@ == section_name@,
            first_named(secs, section_name@) == first_named(secs.skip(k as int), section_name@),
        decreases info.sections@.len() - k,
    {
        assert(secs.skip(k as int).drop_first() =~= secs.skip(k + 1));
        if info.sections[k].name == wanted {
            assert(first_named(secs, section_name@) == Some(section_view(info.sections@[k as int])));
            return disassemble_found(data, &info.sections[k], max_instructions);
        }
        k = k + 1;
    }
    assert(secs.skip(k as int) =~= Seq::<SectionView>::empty());
    let mut msg = owned("Section '");
    crate::text::push_str(&mut msg, section_name);
    crate::text::push_str(&mut msg, "' not found");
    Err(msg)
}

fn disassemble_found(data: &[u8], sec: &Ps4Ps5Section, max_instructions: usize) -> (r: Result<Vec<X64Instruction>, String>)
    ensures
        ({
            let s = section_view(*sec);
            let start = (s.2 as usize) as int;
            if start >= data@.len() {
                r matches Err(e) && e@ == "Section raw data outside file"@
            } else {
                r matches Ok(v) && v@.map_values(|x: X64Instruction| x64_view(x)) == x64_from(
                    data@.subrange(start, section_end(s, data@.len() as int)),
                    s.1,
                    0,
                    max_instructions as nat,
                )
            }
        }),
{
    let start = sec.sh_offset as usize;
    let size = sec.sh_size as usize;
    let end = if size < data.len() && start < data.len() - size { start + size } else { data.len() };
    if start >= data.len() {
        return Err(owned("Section raw data outside file"));
    }
    let code = vstd::slice::slice_subrange(data, start, end);
    Ok(disassemble_x64(code, sec.sh_addr, max_instructions))
}

} // verus!

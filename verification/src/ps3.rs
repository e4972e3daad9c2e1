//! PlayStation 3 executables: plain big-endian ELF (PPC64 homebrew) and SELF
//! wrappers with an unencrypted embedded ELF, disassembled as big-endian
//! PowerPC. Encrypted retail SELFs are reported as such.
use vstd::prelude::*;
use crate::elf::{rd16, rd32};
use crate::elf_sections::{rd64, read16, read32, read64, record_view, sec_count, spec_record, walk_fits, walk_overflows, walk_sections, SectionRecord};
use crate::ppc_disasm::{disassemble_ppc_at, listing_ok, ppc_listing, ppc_view, PpcEndian, PpcInstruction};
use crate::ps4ps5::{elf_magic_at, magic_from, spec_is_self};
use crate::text::{owned, push_str};

verus! {

/// A section of a PS3 image.
#[derive(Debug, Clone)]
pub struct Ps3Section {
    pub name: String,
    pub sh_addr: u64,
    pub sh_offset: u64,
    pub sh_size: u64,
    pub is_code: bool,
}

/// What a PS3 executable holds; `file_type` is `SELF (unencrypted)`,
/// `ELF32-BE` or `ELF64-BE`.
#[derive(Debug, Clone)]
pub struct Ps3FileInfo {
    pub filename: String,
    pub file_type: String,
    pub entry_point: u64,
    pub machine: u16,
    pub sections: Vec<Ps3Section>,
    pub encrypted: bool,
}

/// A section as plain values: name, address, file offset, size, executable.
pub type Ps3SectionView = (Seq<char>, u64, u64, u64, bool);

/// Everything but the file name: file type, entry point, machine, sections, encrypted.
pub type Ps3View = (Seq<char>, u64, u16, Seq<Ps3SectionView>, bool);

pub open spec fn ps3_section_view(s: Ps3Section) -> Ps3SectionView {
    (s.name@, s.sh_addr, s.sh_offset, s.sh_size, s.is_code)
}

pub open spec fn ps3_result_view(r: Result<Ps3FileInfo, String>) -> Result<Ps3View, Seq<char>> {
    match r {
        Ok(i) => Ok((i.file_type@, i.entry_point, i.machine, i.sections@.map_values(|s: Ps3Section| ps3_section_view(s)), i.encrypted)),
        Err(e) => Err(e@),
    }
}

/// A parsed image carries the file name passed in.
pub open spec fn ps3_named(r: Result<Ps3FileInfo, String>, filename: Seq<char>) -> bool {
    r matches Ok(i) ==> i.filename@ == filename
}

/// A big-endian ELF header of at least class `min_class`.
pub open spec fn spec_is_be_elf(d: Seq<u8>, min_class: u8) -> bool {
    d.len() >= 20 && elf_magic_at(d, 0) && d[4] >= min_class && d[5] == 2
}

/// True for a SELF header (`SCE\0`).
pub fn is_self(data: &[u8]) -> (b: bool)
    ensures
        b == spec_is_self(data@),
{
    data.len() >= 4 && data[0] == 0x53 && data[1] == 0x43 && data[2] == 0x45 && data[3] == 0
}

fn is_be_elf(data: &[u8], min_class: u8) -> (b: bool)
    ensures
        b == spec_is_be_elf(data@, min_class),
{
    data.len() >= 20 && data[0] == 0x7F && data[1] == 0x45 && data[2] == 0x4C && data[3] == 0x46 && data[4] >= min_class
        && data[5] == 2
}

/// A listed section header as a section: executable when `SHF_EXECINSTR` (4) is set.
pub open spec fn ps3_code_section(r: (Seq<char>, u64, u64, u64, u64)) -> Ps3SectionView {
    (r.0, r.1, r.2, r.3, r.4 & 4u64 != 0)
}

/// What a big-endian ELF image (of at least 20 bytes) parses to: class 2 is
/// read as ELF64, any other class as ELF32.
pub open spec fn spec_parse_be_elf(d: Seq<u8>) -> Ps3View {
    let wide = d[4] == 2;
    (
        if wide { "ELF64-BE"@ } else { "ELF32-BE"@ },
        if wide { rd64(d, 24, false) } else { rd32(d, 24, false) as u64 },
        rd16(d, 18, false),
        Seq::new(sec_count(d, false, wide) as nat, |i: int| ps3_code_section(spec_record(d, false, wide, i))),
        false,
    )
}

fn to_ps3_section(r: &SectionRecord) -> (s: Ps3Section)
    ensures
        ps3_section_view(s) == ps3_code_section(record_view(*r)),
{
    Ps3Section { name: r.name.clone(), sh_addr: r.addr, sh_offset: r.offset, sh_size: r.size, is_code: r.flags & 4u64 != 0 }
}

fn parse_elf(data: &[u8], filename: &str) -> (r: Result<Ps3FileInfo, String>)
    requires
        data@.len() >= 20,
        !walk_overflows(data@, false, data@[4] == 2),
    ensures
        ps3_result_view(r) == Ok::<Ps3View, Seq<char>>(spec_parse_be_elf(data@)),
        ps3_named(r, filename@),
{
    let wide = data[4] == 2;
    let machine = read16(data, 18, false);
    let entry = if wide { read64(data, 24, false) } else { read32(data, 24, false) as u64 };
    let recs = walk_sections(data, false, wide);
    let mut sections: Vec<Ps3Section> = Vec::new();
    let mut k: usize = 0;
    while k < recs.len()
        invariant
            k <= recs@.len(),
            recs@.len() == sec_count(data@, false, wide),
            forall|i: int| 0 <= i < recs@.len() ==> #[trigger] record_view(recs@[i]) == spec_record(data@, false, wide, i),
            sections@.len() == k,
            forall|i: int| 0 <= i < k ==> #[trigger] ps3_section_view(sections@[i]) == ps3_code_section(spec_record(data@, false, wide, i)),
        decreases recs@.len() - k,
    {
        sections.push(to_ps3_section(&recs[k]));
        k = k + 1;
    }
    let file_type = if wide { owned("ELF64-BE") } else { owned("ELF32-BE") };
    let info = Ps3FileInfo { filename: owned(filename), file_type, entry_point: entry, machine, sections, encrypted: false };
    assert(info.sections@.map_values(|s: Ps3Section| ps3_section_view(s)) =~= Seq::new(
        sec_count(data@, false, wide) as nat,
        |i: int| ps3_code_section(spec_record(data@, false, wide, i)),
    ));
    Ok(info)
}

/// What a SELF parses to: the first ELF magic at offset 4 or later starts
/// the embedded image, which must be big-endian.
pub open spec fn spec_parse_ps3_self(d: Seq<u8>) -> Result<Ps3View, Seq<char>> {
    match magic_from(d, 4) {
        None => Err("SELF: could not locate embedded ELF (may be encrypted)"@),
        Some(o) => {
            let e = d.skip(o);
            if !spec_is_be_elf(e, 1) {
                Err("SELF: embedded ELF is not big-endian (may be encrypted)"@)
            } else {
                let v = spec_parse_be_elf(e);
                Ok(("SELF (unencrypted)"@, v.1, v.2, v.3, v.4))
            }
        },
    }
}

fn find_magic(data: &[u8], start: usize) -> (r: Option<usize>)
    ensures
        match magic_from(data@, start as int) {
            Some(o) => r == Some(o as usize) && start <= o && o + 4 <= data@.len(),
            None => r is None,
        },
{
    let mut i: usize = start;
    while i < data.len() && data.len() - i >= 4
        invariant
            start <= i,
            magic_from(data@, start as int) == magic_from(data@, i as int),
        decreases data.len() - i,
    {
        if data[i] == 0x7F && data[i + 1] == 0x45 && data[i + 2] == 0x4C && data[i + 3] == 0x46 {
            return Some(i);
        }
        i = i + 1;
    }
    None
}

/// The embedded image's section table can be walked without overflow.
pub open spec fn ps3_self_walk_ok(d: Seq<u8>) -> bool {
    match magic_from(d, 4) {
        Some(o) => d.skip(o).len() >= 20 ==> !walk_overflows(d.skip(o), false, d.skip(o)[4] == 2),
        None => true,
    }
}

fn parse_self(data: &[u8], filename: &str) -> (r: Result<Ps3FileInfo, String>)
    requires
        ps3_self_walk_ok(data@),
    ensures
        ps3_result_view(r) == spec_parse_ps3_self(data@),
        ps3_named(r, filename@),
{
    let elf_off = match find_magic(data, 4) {
        Some(o) => o,
        None => {
            return Err(owned("SELF: could not locate embedded ELF (may be encrypted)"));
        },
    };
    let elf = vstd::slice::slice_subrange(data, elf_off, data.len());
    assert(elf@ =~= data@.skip(elf_off as int));
    if !is_be_elf(elf, 1) {
        return Err(owned("SELF: embedded ELF is not big-endian (may be encrypted)"));
    }
    match parse_elf(elf, filename) {
        Err(e) => Err(e),
        Ok(mut info) => {
            info.file_type = owned("SELF (unencrypted)");
            Ok(info)
        },
    }
}

/// What a PS3 executable parses to: a SELF, else a big-endian ELF.
pub open spec fn spec_parse_ps3(d: Seq<u8>) -> Result<Ps3View, Seq<char>> {
    if spec_is_self(d) {
        spec_parse_ps3_self(d)
    } else if spec_is_be_elf(d, 1) {
        Ok(spec_parse_be_elf(d))
    } else {
        Err("Not a PS3 executable (expected SELF or big-endian ELF)"@)
    }
}

/// The inputs whose section table would overflow a `usize` offset.
pub open spec fn ps3_overflows(d: Seq<u8>) -> bool {
    if spec_is_self(d) {
        !ps3_self_walk_ok(d)
    } else {
        spec_is_be_elf(d, 1) && walk_overflows(d, false, d[4] == 2)
    }
}

/// Whether `parse_ps3` can read this image without an offset overflowing a
/// `usize` (the inputs it accepts).
pub fn ps3_fits(data: &[u8]) -> (b: bool)
    ensures
        b == !ps3_overflows(data@),
{
    if is_self(data) {
        match find_magic(data, 4) {
            Some(o) => {
                let elf = vstd::slice::slice_subrange(data, o, data.len());
                assert(elf@ =~= data@.skip(o as int));
                if elf.len() >= 20 {
                    walk_fits(elf, false, elf[4] == 2)
                } else {
                    true
                }
            },
            None => true,
        }
    } else if is_be_elf(data, 1) {
        walk_fits(data, false, data[4] == 2)
    } else {
        true
    }
}

/// Parse a PS3 executable (SELF wrapper or plain big-endian ELF).
pub fn parse_ps3(data: &[u8], filename: &str) -> (r: Result<Ps3FileInfo, String>)
    requires
        !ps3_overflows(data@),
    ensures
        ps3_result_view(r) == spec_parse_ps3(data@),
        ps3_named(r, filename@),
{
    if is_self(data) {
        return parse_self(data, filename);
    }
    if is_be_elf(data, 1) {
        return parse_elf(data, filename);
    }
    Err(owned("Not a PS3 executable (expected SELF or big-endian ELF)"))
}

/// The first section called `name`.
pub open spec fn first_ps3_named(secs: Seq<Ps3SectionView>, name: Seq<char>) -> Option<Ps3SectionView>
    decreases secs.len(),
{
    if secs.len() == 0 {
        None
    } else if secs[0].0 == name {
        Some(secs[0])
    } else {
        first_ps3_named(secs.drop_first(), name)
    }
}

/// Where a section's bytes end in a file of `len` bytes: `offset + size`
/// (each taken as a `usize`), capped at the end of the file.
pub open spec fn ps3_section_end(s: Ps3SectionView, len: int) -> int {
    let e = (s.2 as usize) as int + (s.3 as usize) as int;
    if e < len { e } else { len }
}

/// The section that `name` selects, when parsing succeeds.
pub open spec fn selected_section(d: Seq<u8>, name: Seq<char>) -> Option<Ps3SectionView> {
    match spec_parse_ps3(d) {
        Ok(v) => first_ps3_named(v.3, name),
        Err(_) => None,
    }
}

/// Every address and branch target of the listing of the selected section fits.
pub open spec fn ps3_listing_ok(d: Seq<u8>, name: Seq<char>, max: nat) -> bool {
    match selected_section(d, name) {
        Some(s) => (s.2 as usize) < d.len() ==> listing_ok(
            d.take(ps3_section_end(s, d.len() as int)),
            (s.2 as usize) as int,
            s.1,
            max,
            false,
        ),
        None => true,
    }
}

/// What disassembling a named section gives.
pub open spec fn spec_disassemble_ps3_section(d: Seq<u8>, name: Seq<char>, max: nat) -> Result<
    Seq<(u64, Seq<u8>, Seq<char>, Seq<char>, usize)>,
    Seq<char>,
> {
    match spec_parse_ps3(d) {
        Err(e) => Err(e),
        Ok(v) => if v.4 {
            Err("PS3 SELF is encrypted \u{2014} disassembly not possible"@)
        } else {
            match first_ps3_named(v.3, name) {
                None => Err("Section '"@ + name + "' not found"@),
                Some(s) => {
                    let start = (s.2 as usize) as int;
                    if start >= d.len() {
                        Err("Section raw data outside file"@)
                    } else {
                        Ok(ppc_listing(d.take(ps3_section_end(s, d.len() as int)), start, s.1, max, false))
                    }
                },
            }
        },
    }
}

fn disassemble_found(data: &[u8], sec: &Ps3Section, max_instructions: usize) -> (r: Result<Vec<PpcInstruction>, String>)
    requires
        ({
            let s = ps3_section_view(*sec);
            (s.2 as usize) < data@.len() ==> listing_ok(
                data@.take(ps3_section_end(s, data@.len() as int)),
                (s.2 as usize) as int,
                s.1,
                max_instructions as nat,
                false,
            )
        }),
    ensures
        ({
            let s = ps3_section_view(*sec);
            let start = (s.2 as usize) as int;
            if start >= data@.len() {
                r matches Err(e) && e@ == "Section raw data outside file"@
            } else {
                r matches Ok(v) && v@.map_values(|i: PpcInstruction| ppc_view(i)) == ppc_listing(
                    data@.take(ps3_section_end(s, data@.len() as int)),
                    start,
                    s.1,
                    max_instructions as nat,
                    false,
                )
            }
        }),
{
    let start = sec.sh_offset as usize;
    let size = sec.sh_size as usize;
    let end = if size < data.len() && start < data.len() - size { start + size } else { data.len() };
    if start >= data.len() {
        return Err(owned("Section raw data outside file"));
    }
    let head = vstd::slice::slice_subrange(data, 0, end);
    assert(head@ =~= data@.take(end as int));
    Ok(disassemble_ppc_at(head, start, sec.sh_addr, max_instructions, PpcEndian::Big))
}

/// Disassemble a named section of a PS3 executable as big-endian PowerPC,
/// from the section's file offset to its end (capped at the end of the
/// file), shown from the section's address.
pub fn disassemble_ps3_section(data: &[u8], section_name: &str, max_instructions: usize) -> (r: Result<
    Vec<PpcInstruction>,
    String,
>)
    requires
        !ps3_overflows(data@),
        ps3_listing_ok(data@, section_name@, max_instructions as nat),
    ensures
        match r {
            Ok(v) => spec_disassemble_ps3_section(data@, section_name@, max_instructions as nat) == Ok::<
                Seq<(u64, Seq<u8>, Seq<char>, Seq<char>, usize)>,
                Seq<char>,
            >(v@.map_values(|i: PpcInstruction| ppc_view(i))),
            Err(e) => spec_disassemble_ps3_section(data@, section_name@, max_instructions as nat) == Err::<
                Seq<(u64, Seq<u8>, Seq<char>, Seq<char>, usize)>,
                Seq<char>,
            >(e@),
        },
{
    let info = match parse_ps3(data, "ps3") {
        Ok(i) => i,
        Err(e) => {
            return Err(e);
        },
    };
    if info.encrypted {
        return Err(owned("PS3 SELF is encrypted \u{2014} disassembly not possible"));
    }
    let wanted = owned(section_name);
    let ghost secs = info.sections@.map_values(|s: Ps3Section| ps3_section_view(s));
    assert(secs.skip(0) =~= secs);
    let mut k: usize = 0;
    while k < info.sections.len()
        invariant
            k <= info.sections@.len(),
            ps3_result_view(Ok::<Ps3FileInfo, String>(info)) == spec_parse_ps3(data@),
            !info.encrypted,
            ps3_listing_ok(data@, section_name@, max_instructions as nat),
            secs == info.sections@.map_values(|s: Ps3Section| ps3_section_view(s)),
            wanted@ == section_name@,
            first_ps3_named(secs, section_name@) == first_ps3_named(secs.skip(k as int), section_name@),
        decreases info.sections@.len() - k,
    {
        assert(secs.skip(k as int).drop_first() =~= secs.skip(k + 1));
        if info.sections[k].name == wanted {
            assert(first_ps3_named(secs, section_name@) == Some(ps3_section_view(info.sections@[k as int])));
            return disassemble_found(data, &info.sections[k], max_instructions);
        }
        k = k + 1;
    }
    assert(secs.skip(k as int) =~= Seq::<Ps3SectionView>::empty());
    let mut msg = owned("Section '");
    push_str(&mut msg, section_name);
    push_str(&mut msg, "' not found");
    Err(msg)
}

} // verus!

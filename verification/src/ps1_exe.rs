//! PS1 executables: the `PS-X EXE` header that wraps a MIPS ELF image, the
//! embedded ELF's location, and the boot executable inside a disc image
//! (2048-byte sectors, or raw 2352-byte sectors whose payloads are stitched
//! back together first).
use vstd::prelude::*;
use crate::ps4ps5::{elf_magic_at, magic_from};
use crate::text::owned;

verus! {

/// A parsed `PS-X EXE` header.
#[derive(Debug, Clone)]
pub struct PsxExeInfo {
    /// Header version byte.
    pub version: u8,
    /// Load address (big-endian at 0x0C).
    pub load_address: u32,
    /// Entry point override (big-endian at 0x10; 0 means the ELF's own).
    pub entry_point: u32,
    /// File offset where the embedded ELF image begins.
    pub elf_offset: u32,
    /// Size of the embedded ELF in bytes.
    pub elf_size: u32,
}

/// The bytes `PS-X EXE` start at `i`.
pub open spec fn psx_magic_at(d: Seq<u8>, i: int) -> bool {
    0 <= i && i + 8 <= d.len() && d[i] == 0x50 && d[i + 1] == 0x53 && d[i + 2] == 0x2D && d[i + 3] == 0x58
        && d[i + 4] == 0x20 && d[i + 5] == 0x45 && d[i + 6] == 0x58 && d[i + 7] == 0x45
}

/// The first offset of the ELF magic in `d`.
pub open spec fn first_elf(d: Seq<u8>) -> Option<int> {
    magic_from(d, 0)
}

fn scan_elf(data: &[u8]) -> (r: Option<usize>)
    ensures
        match first_elf(data@) {
            Some(i) => r == Some(i as usize) && 0 <= i && i + 4 <= data@.len() && elf_magic_at(data@, i),
            None => r is None,
        },
{
    let mut i: usize = 0;
    while i < data.len() && data.len() - i >= 4
        invariant
            magic_from(data@, 0) == magic_from(data@, i as int),
        decreases data.len() - i,
    {
        if data[i] == 0x7F && data[i + 1] == 0x45 && data[i + 2] == 0x4C && data[i + 3] == 0x46 {
            return Some(i);
        }
        i = i + 1;
    }
    None
}

/// The offset of the first ELF magic in `data`, if any.
pub fn find_elf_offset(data: &[u8]) -> (r: Option<u32>)
    ensures
        match first_elf(data@) {
            Some(i) => r == Some((i as usize) as u32),
            None => r is None,
        },
{
    match scan_elf(data) {
        Some(i) => Some(i as u32),
        None => None,
    }
}

/// What a header parses to, given the first bytes of the file (`head`, as
/// one read of up to 256 bytes returned them), the first bytes of a wider
/// read (`wide`) and the file's size: `None` unless `head` holds at least 32
/// bytes starting with `PS-X EXE`; the ELF offset is the first ELF magic in
/// `head`, else in `wide` (an error when neither holds one).
pub open spec fn spec_psx_header(head: Seq<u8>, wide: Seq<u8>, file_size: u64) -> Result<
    Option<(u8, u32, u32, u32, u32)>,
    Seq<char>,
> {
    if head.len() < 0x20 || !psx_magic_at(head, 0) {
        Ok(None)
    } else {
        let quick: u32 = match first_elf(head) {
            Some(i) => (i as usize) as u32,
            None => 0,
        };
        let off: Option<u32> = if quick != 0 {
            Some(quick)
        } else {
            match first_elf(wide) {
                Some(i) => Some((i as usize) as u32),
                None => None,
            }
        };
        match off {
            None => Err("PS-X header found but no embedded ELF magic located"@),
            Some(o) => {
                let size = file_size as u32;
                Ok(Some((
                    head[8],
                    crate::cfg::word_at(head, 0x0C, false),
                    crate::cfg::word_at(head, 0x10, false),
                    o,
                    if o < size { (size - o) as u32 } else { 0 },
                )))
            },
        }
    }
}

pub open spec fn psx_view(i: PsxExeInfo) -> (u8, u32, u32, u32, u32) {
    (i.version, i.load_address, i.entry_point, i.elf_offset, i.elf_size)
}

/// Parse a `PS-X EXE` header from the bytes of a file: see `spec_psx_header`.
pub fn parse_psx_header(head: &[u8], wide: &[u8], file_size: u64) -> (r: Result<Option<PsxExeInfo>, String>)
    ensures
        match spec_psx_header(head@, wide@, file_size) {
            Ok(None) => r matches Ok(None),
            Ok(Some(v)) => r matches Ok(Some(i)) && psx_view(i) == v,
            Err(e) => r matches Err(m) && m@ == e,
        },
{
    if head.len() < 0x20 {
        return Ok(None);
    }
    if !(head[0] == 0x50 && head[1] == 0x53 && head[2] == 0x2D && head[3] == 0x58 && head[4] == 0x20 && head[5] == 0x45
        && head[6] == 0x58 && head[7] == 0x45) {
        return Ok(None);
    }
    let version = head[8];
    let load_address = crate::cfg::read_word(head, 0x0C, false);
    let entry_point = crate::cfg::read_word(head, 0x10, false);
    let quick = match find_elf_offset(head) {
        Some(o) => o,
        None => 0,
    };
    let elf_offset = if quick == 0 {
        match find_elf_offset(wide) {
            Some(o) => o,
            None => {
                return Err(owned("PS-X header found but no embedded ELF magic located"));
            },
        }
    } else {
        quick
    };
    let size = file_size as u32;
    let elf_size = if elf_offset < size { size - elf_offset } else { 0 };
    Ok(Some(PsxExeInfo { version, load_address, entry_point, elf_offset, elf_size }))
}

/// The embedded ELF of a PS-X executable, given its header and its bytes.
pub fn embedded_elf(info: &PsxExeInfo, data: &[u8]) -> (r: Result<Vec<u8>, String>)
    ensures
        info.elf_offset == 0 || info.elf_size == 0 ==> (r matches Err(e) && e@
            == "PS-X header present but no embedded ELF found"@),
        info.elf_offset != 0 && info.elf_size != 0 && info.elf_offset >= data@.len() ==> (r matches Err(e) && e@
            == "ELF offset exceeds file size"@),
        info.elf_offset != 0 && info.elf_size != 0 && info.elf_offset < data@.len() ==> (r matches Ok(v) && v@
            == data@.skip(info.elf_offset as int)),
{
    if info.elf_offset == 0 || info.elf_size == 0 {
        return Err(owned("PS-X header present but no embedded ELF found"));
    }
    let start = info.elf_offset as usize;
    if start >= data.len() {
        return Err(owned("ELF offset exceeds file size"));
    }
    let v = vstd::slice::slice_to_vec(vstd::slice::slice_subrange(data, start, data.len()));
    assert(v@ =~= data@.skip(info.elf_offset as int));
    Ok(v)
}

// ---------------------------------------------------------------------------
// Disc images
// ---------------------------------------------------------------------------

/// The first sector starts with the CD-ROM sync pattern
/// `00 FF FF FF FF FF FF FF FF FF FF 00` and the image holds a whole raw sector.
pub open spec fn spec_raw_cdrom(d: Seq<u8>) -> bool {
    d.len() >= 2352 && d[0] == 0 && (forall|i: int| 1 <= i < 12 ==> #[trigger] d[i] == 0xFF) && d[12] == 0
}

fn is_raw_cdrom(data: &[u8]) -> (b: bool)
    ensures
        b == spec_raw_cdrom(data@),
{
    if data.len() < 2352 || data[0] != 0 || data[12] != 0 {
        return false;
    }
    let mut i: usize = 1;
    while i < 12
        invariant
            data@.len() >= 2352,
            1 <= i <= 12,
            forall|j: int| 1 <= j < i ==> #[trigger] data@[j] == 0xFF,
        decreases 12 - i,
    {
        if data[i] != 0xFF {
            return false;
        }
        i = i + 1;
    }
    true
}

/// The 2048-byte payloads at `off` of the first `k` whole 2352-byte sectors.
pub open spec fn payloads(d: Seq<u8>, off: int, k: int) -> Seq<u8>
    decreases k,
{
    if k <= 0 {
        Seq::empty()
    } else {
        payloads(d, off, k - 1) + d.subrange(2352 * (k - 1) + off, 2352 * (k - 1) + off + 2048)
    }
}

/// The payloads of every whole sector.
pub open spec fn sector_data(d: Seq<u8>, off: int) -> Seq<u8> {
    payloads(d, off, (d.len() / 2352) as int)
}

fn collect_payloads(data: &[u8], off: usize) -> (out: Vec<u8>)
    requires
        off == 16 || off == 24,
    ensures
        out@ == sector_data(data@, off as int),
{
    let mut out: Vec<u8> = Vec::new();
    let mut pos: usize = 0;
    while pos <= data.len() && data.len() - pos >= 2352
        invariant
            off == 16 || off == 24,
            pos % 2352 == 0,
            pos <= data@.len(),
            out@ == payloads(data@, off as int, (pos / 2352) as int),
        decreases data@.len() - pos,
    {
        let chunk = vstd::slice::slice_subrange(data, pos + off, pos + off + 2048);
        let mut i: usize = 0;
        let ghost o = out@;
        while i < chunk.len()
            invariant
                i <= chunk@.len(),
                out@ == o + chunk@.take(i as int),
            decreases chunk@.len() - i,
        {
            out.push(chunk[i]);
            assert(out@ =~= o + chunk@.take(i + 1));
            i = i + 1;
        }
        assert(chunk@.take(i as int) =~= chunk@);
        assert((pos + 2352) / 2352 == pos / 2352 + 1);
        pos = pos + 2352;
    }
    assert(pos / 2352 == data@.len() / 2352);
    out
}

/// The largest prefix the disc scan looks at: 64 MiB.
pub open spec fn scan_limit(len: int) -> int {
    if len < 0x400_0000 { len } else { 0x400_0000int }
}

/// The first offset at or after `i` where `PS-X EXE` lies within the first `lim` bytes.
pub open spec fn psx_from(d: Seq<u8>, i: int, lim: int) -> Option<int>
    decreases lim - i,
{
    if i < 0 || i + 8 > lim {
        None
    } else if psx_magic_at(d, i) {
        Some(i)
    } else {
        psx_from(d, i + 1, lim)
    }
}

/// The first offset of `PS-X EXE` within the first 64 MiB of `d`.
pub open spec fn first_psx(d: Seq<u8>) -> Option<int> {
    psx_from(d, 0, scan_limit(d.len() as int))
}

proof fn lemma_psx_from(d: Seq<u8>, i: int, lim: int)
    requires
        0 <= i,
    ensures
        match psx_from(d, i, lim) {
            Some(p) => i <= p && p + 8 <= lim && psx_magic_at(d, p)
                && forall|q: int| i <= q < p ==> !#[trigger] psx_magic_at(d, q),
            None => forall|q: int| i <= q && q + 8 <= lim ==> !#[trigger] psx_magic_at(d, q),
        },
    decreases lim - i,
{
    if i + 8 <= lim && !psx_magic_at(d, i) {
        lemma_psx_from(d, i + 1, lim);
    }
}

/// The disc scan finds the least offset `p` with `p + 8` within the first
/// 64 MiB (and the data) where `PS-X EXE` lies, and nothing when there is none.
pub proof fn disc_scan_finds_first_magic(d: Seq<u8>)
    ensures
        match first_psx(d) {
            Some(p) => 0 <= p && p + 8 <= scan_limit(d.len() as int) && psx_magic_at(d, p)
                && forall|q: int| 0 <= q < p ==> !#[trigger] psx_magic_at(d, q),
            None => forall|q: int| 0 <= q && q + 8 <= scan_limit(d.len() as int) ==> !#[trigger] psx_magic_at(d, q),
        },
{
    lemma_psx_from(d, 0, scan_limit(d.len() as int));
}

/// Scan a disc image for `PS-X EXE` (within its first 64 MiB) and return the
/// offset of the first occurrence.
pub fn find_psx_exe_offset_in_disc(data: &[u8]) -> (r: Option<usize>)
    ensures
        match first_psx(data@) {
            Some(i) => r == Some(i as usize) && 0 <= i && i + 8 <= data@.len(),
            None => r is None,
        },
{
    let limit: usize = if data.len() < 0x400_0000 { data.len() } else { 0x400_0000 };
    let mut i: usize = 0;
    while i < limit && limit - i >= 8
        invariant
            limit == scan_limit(data@.len() as int),
            limit <= data@.len(),
            psx_from(data@, 0, limit as int) == psx_from(data@, i as int, limit as int),
        decreases limit - i,
    {
        if data[i] == 0x50 && data[i + 1] == 0x53 && data[i + 2] == 0x2D && data[i + 3] == 0x58 && data[i + 4] == 0x20
            && data[i + 5] == 0x45 && data[i + 6] == 0x58 && data[i + 7] == 0x45 {
            return Some(i);
        }
        i = i + 1;
    }
    None
}

/// The data stream of a raw-sector image: the Mode 2 payloads (at 24) when
/// they hold a `PS-X EXE`, else the Mode 1 payloads (at 16) when those do,
/// else the Mode 2 payloads.
pub open spec fn spec_reconstruct(d: Seq<u8>) -> Seq<u8> {
    if first_psx(sector_data(d, 24)) is Some {
        sector_data(d, 24)
    } else if first_psx(sector_data(d, 16)) is Some {
        sector_data(d, 16)
    } else {
        sector_data(d, 24)
    }
}

fn reconstruct_data_from_raw(data: &[u8]) -> (out: Vec<u8>)
    ensures
        out@ == spec_reconstruct(data@),
{
    let mode2 = collect_payloads(data, 24);
    if find_psx_exe_offset_in_disc(mode2.as_slice()).is_some() {
        return mode2;
    }
    let mode1 = collect_payloads(data, 16);
    if find_psx_exe_offset_in_disc(mode1.as_slice()).is_some() {
        return mode1;
    }
    mode2
}

/// What the boot ELF of a disc image is: the stream (stitched when the image
/// has raw sectors) from the first `PS-X EXE`, cut at the first ELF magic
/// after it.
pub open spec fn spec_disc_elf(d: Seq<u8>) -> Result<Seq<u8>, Seq<char>> {
    spec_stream_elf(if spec_raw_cdrom(d) { spec_reconstruct(d) } else { d })
}

/// The ELF after the first `PS-X EXE` of a data stream.
pub open spec fn spec_stream_elf(s: Seq<u8>) -> Result<Seq<u8>, Seq<char>> {
    match first_psx(s) {
        None => Err("No PS-X EXE found in disc image"@),
        Some(x) => match first_elf(s.skip(x)) {
            None => Err("PS-X EXE present but embedded ELF not located"@),
            Some(e) => Ok(s.skip(x).skip(e)),
        },
    }
}

fn elf_from_stream(search: &[u8]) -> (r: Result<Vec<u8>, String>)
    ensures
        match spec_stream_elf(search@) {
            Ok(v) => r matches Ok(b) && b@ == v,
            Err(e) => r matches Err(m) && m@ == e,
        },
{
    let exe_off = match find_psx_exe_offset_in_disc(search) {
        Some(o) => o,
        None => {
            return Err(owned("No PS-X EXE found in disc image"));
        },
    };
    let exe = vstd::slice::slice_subrange(search, exe_off, search.len());
    assert(exe@ =~= search@.skip(exe_off as int));
    let elf_rel = match scan_elf(exe) {
        Some(o) => o,
        None => {
            return Err(owned("PS-X EXE present but embedded ELF not located"));
        },
    };
    let v = vstd::slice::slice_to_vec(vstd::slice::slice_subrange(exe, elf_rel, exe.len()));
    assert(v@ =~= exe@.skip(elf_rel as int));
    Ok(v)
}

/// The embedded ELF of the boot executable of a disc image's bytes.
pub fn elf_from_disc_data(data: &[u8]) -> (r: Result<Vec<u8>, String>)
    ensures
        match spec_disc_elf(data@) {
            Ok(v) => r matches Ok(b) && b@ == v,
            Err(e) => r matches Err(m) && m@ == e,
        },
{
    if is_raw_cdrom(data) {
        let stitched = reconstruct_data_from_raw(data);
        elf_from_stream(stitched.as_slice())
    } else {
        elf_from_stream(data)
    }
}

} // verus!

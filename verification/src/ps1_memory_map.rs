//! Static PS1 (R3000A) memory map and address classification.
//!
//! The map is an ordered table of windows; register windows come before the
//! broad User RAM window so that an address in an overlapping device window
//! resolves to the device.

use vstd::prelude::*;
use crate::text::{owned, push_str, push_char, push_hex_fixed, hex8_0x};

verus! {

/// A named region of PS1 physical address space.
#[derive(Clone, Copy, Debug, PartialEq, Eq, Structural)]
pub enum MemoryRegion {
    /// Kernel RAM (boot ROM / OSRAM).
    KernelRam,
    /// User RAM.
    UserRam,
    /// GPU register window + framebuffer.
    GpuRegisters,
    /// SPU sound processor registers.
    SpuRegisters,
    /// MDEC / VIF / VU coprocessor registers.
    CoprocessorRegisters,
    /// I/O (CD-ROM) controller.
    IoController,
    /// An address outside every known window.
    Unknown,
}

/// One entry of the memory map: a region, its name, an inclusive range and a
/// short description.
#[derive(Clone, Copy, Debug)]
pub struct MemoryRegionEntry {
    pub region: MemoryRegion,
    pub name: &'static str,
    /// Inclusive start of the window.
    pub start: u32,
    /// Inclusive end of the window.
    pub end: u32,
    pub description: &'static str,
}

/// The memory map in classification priority order.
pub open spec fn spec_memory_map() -> Seq<MemoryRegionEntry> {
    seq![
        MemoryRegionEntry {
            region: MemoryRegion::KernelRam,
            name: "Kernel RAM",
            start: 0x1FF0_0000,
            end: 0x1FFF_FFFF,
            description: "Boot ROM / OSRAM (kernel code + data)",
        },
        MemoryRegionEntry {
            region: MemoryRegion::GpuRegisters,
            name: "GPU Registers",
            start: 0x3000_0000,
            end: 0x31FF_FFFF,
            description: "GNP (GPU) register window + framebuffer",
        },
        MemoryRegionEntry {
            region: MemoryRegion::SpuRegisters,
            name: "SPU Registers",
            start: 0x1D00_0000,
            end: 0x1DFF_FFFF,
            description: "SP-R sound processor registers",
        },
        MemoryRegionEntry {
            region: MemoryRegion::CoprocessorRegisters,
            name: "MDEC/VIF/VU Registers",
            start: 0x1E00_0000,
            end: 0x1FEF_FFFF,
            description: "MDEC / VIF / VU coprocessor registers",
        },
        MemoryRegionEntry {
            region: MemoryRegion::IoController,
            name: "I/O Controller",
            start: 0x3800_0000,
            end: 0x38FF_FFFF,
            description: "CD-ROM I/O controller registers",
        },
        MemoryRegionEntry {
            region: MemoryRegion::UserRam,
            name: "User RAM",
            start: 0x2000_0000,
            end: 0x37EF_FFFF,
            description: "Main user addressable RAM (game code + data)",
        },
    ]
}

/// Whether entry `e` covers `addr`.
pub open spec fn covers(e: MemoryRegionEntry, addr: u32) -> bool {
    e.start <= addr && addr <= e.end
}

/// The index of the first map entry (from `from` on) that covers `addr` and
/// satisfies the filter `skip_user_ram` (when set, the User RAM entry is passed over).
pub open spec fn first_cover(addr: u32, from: int, skip_user_ram: bool) -> Option<int>
    decreases 6 - from,
{
    if from < 0 || from >= 6 {
        None
    } else if covers(spec_memory_map()[from], addr)
        && !(skip_user_ram && spec_memory_map()[from].region == MemoryRegion::UserRam) {
        Some(from)
    } else {
        first_cover(addr, from + 1, skip_user_ram)
    }
}

/// The region of an address: the first register (non-User-RAM) window that
/// covers it; otherwise User RAM or Kernel RAM when they cover it; otherwise Unknown.
pub open spec fn spec_classify(addr: u32) -> MemoryRegion {
    if 0x1FF0_0000 <= addr && addr <= 0x1FFF_FFFF {
        MemoryRegion::KernelRam
    } else if 0x3000_0000 <= addr && addr <= 0x31FF_FFFF {
        MemoryRegion::GpuRegisters
    } else if 0x1D00_0000 <= addr && addr <= 0x1DFF_FFFF {
        MemoryRegion::SpuRegisters
    } else if 0x1E00_0000 <= addr && addr <= 0x1FEF_FFFF {
        MemoryRegion::CoprocessorRegisters
    } else if 0x3800_0000 <= addr && addr <= 0x38FF_FFFF {
        MemoryRegion::IoController
    } else if 0x2000_0000 <= addr && addr <= 0x37EF_FFFF {
        MemoryRegion::UserRam
    } else {
        MemoryRegion::Unknown
    }
}

/// Whether a region is one of the device register windows.
pub open spec fn is_device(r: MemoryRegion) -> bool {
    r == MemoryRegion::GpuRegisters || r == MemoryRegion::SpuRegisters
        || r == MemoryRegion::CoprocessorRegisters || r == MemoryRegion::IoController
}

/// The memory map, in classification priority order.
pub fn memory_map() -> (m: Vec<MemoryRegionEntry>)
    ensures
        m@ == spec_memory_map(),
{
    let m = vec![
        MemoryRegionEntry {
            region: MemoryRegion::KernelRam,
            name: "Kernel RAM",
            start: 0x1FF0_0000,
            end: 0x1FFF_FFFF,
            description: "Boot ROM / OSRAM (kernel code + data)",
        },
        MemoryRegionEntry {
            region: MemoryRegion::GpuRegisters,
            name: "GPU Registers",
            start: 0x3000_0000,
            end: 0x31FF_FFFF,
            description: "GNP (GPU) register window + framebuffer",
        },
        MemoryRegionEntry {
            region: MemoryRegion::SpuRegisters,
            name: "SPU Registers",
            start: 0x1D00_0000,
            end: 0x1DFF_FFFF,
            description: "SP-R sound processor registers",
        },
        MemoryRegionEntry {
            region: MemoryRegion::CoprocessorRegisters,
            name: "MDEC/VIF/VU Registers",
            start: 0x1E00_0000,
            end: 0x1FEF_FFFF,
            description: "MDEC / VIF / VU coprocessor registers",
        },
        MemoryRegionEntry {
            region: MemoryRegion::IoController,
            name: "I/O Controller",
            start: 0x3800_0000,
            end: 0x38FF_FFFF,
            description: "CD-ROM I/O controller registers",
        },
        MemoryRegionEntry {
            region: MemoryRegion::UserRam,
            name: "User RAM",
            start: 0x2000_0000,
            end: 0x37EF_FFFF,
            description: "Main user addressable RAM (game code + data)",
        },
    ];
    assert(m@ =~= spec_memory_map());
    m
}

/// Classify a physical PS1 address: the first register window of the map
/// that covers it, then the User RAM / Kernel RAM windows, else `Unknown`.
pub fn classify_address(addr: u32) -> (r: MemoryRegion)
    ensures
        r == spec_classify(addr),
        first_cover(addr, 0, true) matches Some(i) ==> r == spec_memory_map()[i].region,
{
    proof { classify_by_first_cover(addr); }
    let map = memory_map();
    let mut i: usize = 0;
    while i < map.len()
        invariant
            map@ == spec_memory_map(),
            0 <= i <= map.len(),
            first_cover(addr, 0, true) == first_cover(addr, i as int, true),
            first_cover(addr, 0, true) matches Some(k) ==> spec_classify(addr) == spec_memory_map()[k].region,
            first_cover(addr, 0, true) is None ==> spec_classify(addr) == (if covers(spec_memory_map()[5], addr) {
                MemoryRegion::UserRam } else { MemoryRegion::Unknown }),
        decreases map.len() - i,
    {
        let e = map[i];
        if e.region != MemoryRegion::UserRam && addr >= e.start && addr <= e.end {
            return e.region;
        }
        i = i + 1;
    }
    let mut j: usize = 0;
    while j < map.len()
        invariant
            map@ == spec_memory_map(),
            0 <= j <= map.len(),
            first_cover(addr, 0, true) is None,
            spec_classify(addr) == (if covers(spec_memory_map()[5], addr) {
                MemoryRegion::UserRam } else { MemoryRegion::Unknown }),
            forall|k: int| 0 <= k < j ==> !((spec_memory_map()[k].region == MemoryRegion::UserRam
                || spec_memory_map()[k].region == MemoryRegion::KernelRam)
                && covers(spec_memory_map()[k], addr)),
        decreases map.len() - j,
    {
        let e = map[j];
        if (e.region == MemoryRegion::UserRam || e.region == MemoryRegion::KernelRam)
            && addr >= e.start && addr <= e.end {
            return e.region;
        }
        j = j + 1;
    }
    MemoryRegion::Unknown
}

proof fn classify_by_first_cover(addr: u32)
    ensures
        first_cover(addr, 0, true) matches Some(k) ==> spec_classify(addr) == spec_memory_map()[k].region,
        first_cover(addr, 0, true) is None ==> spec_classify(addr) == (if covers(spec_memory_map()[5], addr) {
            MemoryRegion::UserRam } else { MemoryRegion::Unknown }),
{
    reveal_with_fuel(first_cover, 7);
}

/// The first map entry whose range covers `addr`, if any.
pub fn lookup_address(addr: u32) -> (r: Option<MemoryRegionEntry>)
    ensures
        match first_cover(addr, 0, false) {
            Some(i) => r == Some(spec_memory_map()[i]),
            None => r is None,
        },
{
    let map = memory_map();
    let mut i: usize = 0;
    while i < map.len()
        invariant
            map@ == spec_memory_map(),
            0 <= i <= map.len(),
            first_cover(addr, 0, false) == first_cover(addr, i as int, false),
        decreases map.len() - i,
    {
        let e = map[i];
        if addr >= e.start && addr <= e.end {
            return Some(e);
        }
        i = i + 1;
    }
    None
}

/// True if `addr` lies in User RAM.
pub fn is_user_ram(addr: u32) -> (b: bool)
    ensures
        b == (spec_classify(addr) == MemoryRegion::UserRam),
{
    classify_address(addr) == MemoryRegion::UserRam
}

/// True if `addr` lies in Kernel RAM.
pub fn is_kernel_ram(addr: u32) -> (b: bool)
    ensures
        b == (spec_classify(addr) == MemoryRegion::KernelRam),
{
    classify_address(addr) == MemoryRegion::KernelRam
}

/// True if `addr` falls in any device register window (GPU/SPU/MDEC/I-O).
pub fn is_device_register(addr: u32) -> (b: bool)
    ensures
        b == is_device(spec_classify(addr)),
{
    let r = classify_address(addr);
    r == MemoryRegion::GpuRegisters || r == MemoryRegion::SpuRegisters
        || r == MemoryRegion::CoprocessorRegisters || r == MemoryRegion::IoController
}

/// The text `describe_region` gives for an address.
pub open spec fn spec_describe(addr: u32) -> Seq<char> {
    match first_cover(addr, 0, false) {
        Some(i) => spec_memory_map()[i].name@ + seq![' ', '('] + hex8_0x(
            spec_memory_map()[i].start as nat,
        ) + seq!['-'] + hex8_0x(spec_memory_map()[i].end as nat) + seq![')'],
        None => "Unknown"@,
    }
}

/// A region's display form, e.g. `User RAM (0x20000000-0x37EFFFFF)`, or `Unknown`.
pub fn describe_region(addr: u32) -> (s: String)
    ensures
        s@ == spec_describe(addr),
{
    match lookup_address(addr) {
        Some(e) => {
            let mut s = owned(e.name);
            push_str(&mut s, " (0x");
            push_hex_fixed(&mut s, e.start, 8);
            push_str(&mut s, "-0x");
            push_hex_fixed(&mut s, e.end, 8);
            push_char(&mut s, ')');
            proof {
                reveal_strlit(" (0x");
                reveal_strlit("-0x");
            }
            assert(s@ =~= spec_describe(addr));
            s
        },
        None => owned("Unknown"),
    }
}

/// Every entry `lookup_address` returns covers the address and carries the
/// region `classify_address` gives for it: the two queries agree.
pub proof fn lookup_agrees_with_classify(addr: u32)
    ensures
        first_cover(addr, 0, false) matches Some(i) ==> covers(spec_memory_map()[i], addr)
            && spec_memory_map()[i].region == spec_classify(addr),
        first_cover(addr, 0, false) is None <==> spec_classify(addr) == MemoryRegion::Unknown,
{
    reveal_with_fuel(first_cover, 7);
}

/// Device windows take priority over User RAM: an address is never both a
/// device register and user RAM, and every address in a device window is
/// classified as that device.
pub proof fn device_windows_take_priority(addr: u32)
    ensures
        !(is_device(spec_classify(addr)) && spec_classify(addr) == MemoryRegion::UserRam),
        0x3000_0000 <= addr <= 0x31FF_FFFF ==> spec_classify(addr) == MemoryRegion::GpuRegisters,
{
}

} // verus!

//! PlayStation 1 SDK symbol database (libsd, libcd, libspuc, kernel,
//! memory, DMA and runtime entry points) and a scanner that looks for the
//! symbol names as ASCII strings in an image's string and data sections.

use vstd::prelude::*;
use std::collections::BTreeMap;
use crate::engine::ElfSection;
use crate::text::{owned, starts_with_str};
use vstd::string::StringSliceAdditionalSpecFns;

verus! {

/// A known PS1 library or kernel symbol.
#[derive(Debug, Clone, Copy)]
pub struct Ps1Symbol {
    /// Symbol name as it appears in a binary.
    pub name: &'static str,
    /// Library or subsystem.
    pub library: &'static str,
    /// What the symbol does.
    pub description: &'static str,
}

/// A reference to a known symbol found in a section.
#[derive(Debug, Clone)]
pub struct Ps1SymbolMatch {
    pub symbol: String,
    pub library: String,
    pub description: String,
    /// Index of the section holding the reference.
    pub section_index: usize,
    pub section_name: String,
    /// Byte offset within the section.
    pub offset: u32,
}

/// The result of a scan: the matches, their number and a count per library
/// (in order of first appearance).
#[derive(Debug, Clone)]
pub struct Ps1SymbolScanResult {
    pub matches: Vec<Ps1SymbolMatch>,
    pub total_matches: usize,
    pub per_library: Vec<(String, usize)>,
}

/// The database, as (name, library, description).
#[verifier::opaque]
pub open spec fn ps1_db() -> Seq<(&'static str, &'static str, &'static str)> {
    seq![
        ("sdOpen", "libsd", "Open the sound driver"),
        ("sdClose", "libsd", "Close the sound driver"),
        ("sdSendCmd", "libsd", "Send a command to the SPU"),
        ("sdRecvMsg", "libsd", "Receive a message from the SPU"),
        ("sdSetMsgHandler", "libsd", "Register an SPU message handler"),
        ("sdSendData", "libsd", "Send data to the SPU (voice/position)"),
        ("sdRecvData", "libsd", "Receive data from the SPU"),
        ("sdSetVoice", "libsd", "Configure a voice channel"),
        ("sdSetPos", "libsd", "Set playback position"),
        ("sdGetStatus", "libsd", "Query SPU status"),
        ("sdInit", "libsd", "Initialize the sound driver"),
        ("CdOpen", "libcd", "Open a CD file for reading"),
        ("CdClose", "libcd", "Close an open CD file"),
        ("CdRead", "libcd", "Read data from the CD"),
        ("CdLseek", "libcd", "Seek within a CD file"),
        ("CdControl", "libcd", "Send control commands to the CD drive"),
        ("CdInit", "libcd", "Initialize the CD driver"),
        ("CdSync", "libcd", "Synchronize CD operations"),
        ("CdStop", "libcd", "Stop CD playback"),
        ("CdReadPos", "libcd", "Get current read position"),
        ("spuInit", "libspuc", "Initialize SPU control"),
        ("spuSetVoice", "libspuc", "Configure SPU voice parameters"),
        ("spuGetStatus", "libspuc", "Query SPU status registers"),
        ("osdBoot", "kernel", "OS boot entry point"),
        ("osdMain", "kernel", "OS main loop entry"),
        ("osdExit", "kernel", "Terminate the application"),
        ("osdDelay", "kernel", "Yield CPU for N ticks"),
        ("osdGetTime", "kernel", "Get current system time (ticks)"),
        ("osdSetTimer", "kernel", "Set a hardware timer"),
        ("osdEnableInt", "kernel", "Enable an interrupt source"),
        ("osdDisableInt", "kernel", "Disable an interrupt source"),
        ("osdSetIntHandler", "kernel", "Register an interrupt handler"),
        ("osdPrintf", "kernel", "Kernel printf (debug)"),
        ("osdMalloc", "kernel", "Allocate memory from the kernel heap"),
        ("osdFree", "kernel", "Free kernel-allocated memory"),
        ("MemAlloc", "memory", "Allocate from the game's memory pool"),
        ("MemFree", "memory", "Free a memory pool allocation"),
        ("DmaCopy", "dma", "DMA copy (GPU/SPU)"),
        ("_main", "runtime", "C main entry point"),
        ("start", "runtime", "Startup / initialization routine"),
        ("exit", "runtime", "Program exit handler"),
    ]
}

/// The static PS1 symbol database.
pub fn ps1_symbol_db() -> (v: Vec<Ps1Symbol>)
    ensures
        v@.map_values(|s: Ps1Symbol| (s.name, s.library, s.description)) == ps1_db(),
{
    reveal(ps1_db);
    let mut v: Vec<Ps1Symbol> = Vec::new();
    v.push(Ps1Symbol { name: "sdOpen", library: "libsd", description: "Open the sound driver" });
    v.push(Ps1Symbol { name: "sdClose", library: "libsd", description: "Close the sound driver" });
    v.push(Ps1Symbol { name: "sdSendCmd", library: "libsd", description: "Send a command to the SPU" });
    v.push(Ps1Symbol { name: "sdRecvMsg", library: "libsd", description: "Receive a message from the SPU" });
    v.push(Ps1Symbol { name: "sdSetMsgHandler", library: "libsd", description: "Register an SPU message handler" });
    v.push(Ps1Symbol { name: "sdSendData", library: "libsd", description: "Send data to the SPU (voice/position)" });
    v.push(Ps1Symbol { name: "sdRecvData", library: "libsd", description: "Receive data from the SPU" });
    v.push(Ps1Symbol { name: "sdSetVoice", library: "libsd", description: "Configure a voice channel" });
    v.push(Ps1Symbol { name: "sdSetPos", library: "libsd", description: "Set playback position" });
    v.push(Ps1Symbol { name: "sdGetStatus", library: "libsd", description: "Query SPU status" });
    v.push(Ps1Symbol { name: "sdInit", library: "libsd", description: "Initialize the sound driver" });
    v.push(Ps1Symbol { name: "CdOpen", library: "libcd", description: "Open a CD file for reading" });
    v.push(Ps1Symbol { name: "CdClose", library: "libcd", description: "Close an open CD file" });
    v.push(Ps1Symbol { name: "CdRead", library: "libcd", description: "Read data from the CD" });
    v.push(Ps1Symbol { name: "CdLseek", library: "libcd", description: "Seek within a CD file" });
    v.push(Ps1Symbol { name: "CdControl", library: "libcd", description: "Send control commands to the CD drive" });
    v.push(Ps1Symbol { name: "CdInit", library: "libcd", description: "Initialize the CD driver" });
    v.push(Ps1Symbol { name: "CdSync", library: "libcd", description: "Synchronize CD operations" });
    v.push(Ps1Symbol { name: "CdStop", library: "libcd", description: "Stop CD playback" });
    v.push(Ps1Symbol { name: "CdReadPos", library: "libcd", description: "Get current read position" });
    v.push(Ps1Symbol { name: "spuInit", library: "libspuc", description: "Initialize SPU control" });
    v.push(Ps1Symbol { name: "spuSetVoice", library: "libspuc", description: "Configure SPU voice parameters" });
    v.push(Ps1Symbol { name: "spuGetStatus", library: "libspuc", description: "Query SPU status registers" });
    v.push(Ps1Symbol { name: "osdBoot", library: "kernel", description: "OS boot entry point" });
    v.push(Ps1Symbol { name: "osdMain", library: "kernel", description: "OS main loop entry" });
    v.push(Ps1Symbol { name: "osdExit", library: "kernel", description: "Terminate the application" });
    v.push(Ps1Symbol { name: "osdDelay", library: "kernel", description: "Yield CPU for N ticks" });
    v.push(Ps1Symbol { name: "osdGetTime", library: "kernel", description: "Get current system time (ticks)" });
    v.push(Ps1Symbol { name: "osdSetTimer", library: "kernel", description: "Set a hardware timer" });
    v.push(Ps1Symbol { name: "osdEnableInt", library: "kernel", description: "Enable an interrupt source" });
    v.push(Ps1Symbol { name: "osdDisableInt", library: "kernel", description: "Disable an interrupt source" });
    v.push(Ps1Symbol { name: "osdSetIntHandler", library: "kernel", description: "Register an interrupt handler" });
    v.push(Ps1Symbol { name: "osdPrintf", library: "kernel", description: "Kernel printf (debug)" });
    v.push(Ps1Symbol { name: "osdMalloc", library: "kernel", description: "Allocate memory from the kernel heap" });
    v.push(Ps1Symbol { name: "osdFree", library: "kernel", description: "Free kernel-allocated memory" });
    v.push(Ps1Symbol { name: "MemAlloc", library: "memory", description: "Allocate from the game's memory pool" });
    v.push(Ps1Symbol { name: "MemFree", library: "memory", description: "Free a memory pool allocation" });
    v.push(Ps1Symbol { name: "DmaCopy", library: "dma", description: "DMA copy (GPU/SPU)" });
    v.push(Ps1Symbol { name: "_main", library: "runtime", description: "C main entry point" });
    v.push(Ps1Symbol { name: "start", library: "runtime", description: "Startup / initialization routine" });
    v.push(Ps1Symbol { name: "exit", library: "runtime", description: "Program exit handler" });
    assert(v@.map_values(|s: Ps1Symbol| (s.name, s.library, s.description)) =~= ps1_db());
    v
}

/// Sections worth scanning for symbol names: `.strtab`, `.rodata`, `.text`,
/// `.data` and any whose name starts with `.str`.
pub open spec fn scannable(name: Seq<char>) -> bool {
    name == ".strtab"@ || name == ".rodata"@ || name == ".text"@ || name == ".data"@
        || (4 <= name.len() && name.take(4) == ".str"@)
}

/// True when the section is worth scanning for symbol-name strings.
pub fn is_scannable_section(sec: &ElfSection) -> (b: bool)
    ensures
        b == scannable(sec.name@),
{
    proof { reveal_strlit(".str"); }
    sec.name == owned(".strtab") || sec.name == owned(".rodata") || sec.name == owned(".text") || sec.name == owned(".data")
        || starts_with_str(sec.name.as_str(), ".str")
}

/// `needle` occurs in `data` at `i`.
pub open spec fn occurs_at(data: Seq<u8>, needle: Seq<u8>, i: int) -> bool {
    0 <= i && i + needle.len() <= data.len() && data.subrange(i, i + needle.len()) == needle
}

/// Where a symbol name is reported in a section: its first occurrence in
/// the data; none for names shorter than four bytes.
pub open spec fn first_hit(data: Seq<u8>, needle: Seq<u8>) -> Option<int> {
    if needle.len() < 4 || data.len() < needle.len() {
        None
    } else if exists|i: int| 0 <= i <= data.len() - needle.len() && occurs_at(data, needle, i) {
        Some(choose|i: int| 0 <= i <= data.len() - needle.len() && occurs_at(data, needle, i)
            && forall|k: int| 0 <= k < i ==> !occurs_at(data, needle, k))
    } else {
        None
    }
}

/// A match as plain values: (symbol, library, description, section index, section name, offset).
pub open spec fn m_view(m: Ps1SymbolMatch) -> (Seq<char>, Seq<char>, Seq<char>, usize, Seq<char>, u32) {
    (m.symbol@, m.library@, m.description@, m.section_index, m.section_name@, m.offset)
}

/// The matches in section `si` for the first `n` database entries.
pub open spec fn section_matches(secs: Seq<ElfSection>, si: int, n: int) -> Seq<(Seq<char>, Seq<char>, Seq<char>, usize, Seq<char>, u32)>
    decreases n,
{
    if n <= 0 {
        Seq::empty()
    } else {
        let e = ps1_db()[n - 1];
        section_matches(secs, si, n - 1) + match first_hit(secs[si].data@, e.0.spec_bytes()) {
            Some(i) => seq![(e.0@, e.1@, e.2@, si as usize, secs[si].name@, i as u32)],
            None => Seq::empty(),
        }
    }
}

/// The matches of the first `n` sections.
pub open spec fn all_matches(secs: Seq<ElfSection>, n: int) -> Seq<(Seq<char>, Seq<char>, Seq<char>, usize, Seq<char>, u32)>
    decreases n,
{
    if n <= 0 {
        Seq::empty()
    } else {
        all_matches(secs, n - 1) + (if scannable(secs[n - 1].name@) { section_matches(secs, n - 1, ps1_db().len() as int) } else { Seq::empty() })
    }
}

fn find_first(data: &[u8], needle: &[u8]) -> (r: Option<usize>)
    ensures
        match r {
            Some(i) => first_hit(data@, needle@) == Some(i as int),
            None => first_hit(data@, needle@) is None,
        },
{
    if needle.len() < 4 || data.len() < needle.len() {
        return None;
    }
    let mut i: usize = 0;
    while i <= data.len() - needle.len()
        invariant
            needle.len() >= 4,
            data.len() >= needle.len(),
            i <= data.len() - needle.len() + 1,
            forall|k: int| 0 <= k < i ==> !occurs_at(data@, needle@, k),
        decreases data.len() - needle.len() + 1 - i,
    {
        let mut j: usize = 0;
        let mut eq = true;
        while j < needle.len()
            invariant
                i + needle.len() <= data.len(),
                j <= needle.len(),
                eq == forall|q: int| 0 <= q < j ==> data@[i + q] == needle@[q],
            decreases needle.len() - j,
        {
            if data[i + j] != needle[j] {
                eq = false;
            }
            j = j + 1;
        }
        if eq {
            assert(data@.subrange(i as int, i + needle.len()) =~= needle@);
            proof {
                let w = i as int;
                let c = choose|c: int| 0 <= c <= data@.len() - needle@.len() && occurs_at(data@, needle@, c)
                    && forall|k: int| 0 <= k < c ==> !occurs_at(data@, needle@, k);
                assert(occurs_at(data@, needle@, w));
                if c < w { assert(!occurs_at(data@, needle@, c)); }
                if c > w { assert(!occurs_at(data@, needle@, w)); }
            }
            return Some(i);
        } else {
            assert(!occurs_at(data@, needle@, i as int)) by {
                if occurs_at(data@, needle@, i as int) {
                    assert forall|q: int| 0 <= q < needle@.len() implies data@[i + q] == needle@[q] by {
                        assert(data@.subrange(i as int, i + needle@.len())[q] == needle@[q]);
                    }
                }
            }
        }
        i = i + 1;
    }
    None
}

fn symbol_match(sec: &ElfSection, si: usize, sym: Ps1Symbol) -> (r: Option<Ps1SymbolMatch>)
    ensures
        (match r { Some(m) => seq![m_view(m)], None => Seq::empty() }) == (match first_hit(sec.data@, sym.name.spec_bytes()) {
            Some(i) => seq![(sym.name@, sym.library@, sym.description@, si, sec.name@, i as u32)],
            None => Seq::empty(),
        }),
{
    match find_first(&sec.data, sym.name.as_bytes()) {
        Some(i) => {
            let m = Ps1SymbolMatch {
                symbol: owned(sym.name),
                library: owned(sym.library),
                description: owned(sym.description),
                section_index: si,
                section_name: sec.name.clone(),
                offset: i as u32,
            };
            assert(seq![m_view(m)] =~= seq![(sym.name@, sym.library@, sym.description@, si, sec.name@, i as u32)]);
            Some(m)
        },
        None => None,
    }
}

/// Scan the string-like and data sections for the database's symbol names
/// (as ASCII bytes): at most one match per symbol per section, at the first
/// occurrence found. Names shorter than four bytes are skipped.
pub fn scan_ps1_symbol_matches(sections: &[ElfSection]) -> (matches: Vec<Ps1SymbolMatch>)
    ensures
        matches@.map_values(|m: Ps1SymbolMatch| m_view(m)) == all_matches(sections@, sections@.len() as int),
{
    let db = ps1_symbol_db();
    let mut matches: Vec<Ps1SymbolMatch> = Vec::new();
    let mut si: usize = 0;
    while si < sections.len()
        invariant
            si <= sections.len(),
            db@.map_values(|s: Ps1Symbol| (s.name, s.library, s.description)) == ps1_db(),
            matches@.map_values(|m: Ps1SymbolMatch| m_view(m)) == all_matches(sections@, si as int),
        decreases sections.len() - si,
    {
        let sec = &sections[si];
        if is_scannable_section(sec) {
            let ghost m0 = matches@.map_values(|m: Ps1SymbolMatch| m_view(m));
            let mut k: usize = 0;
            while k < db.len()
                invariant
                    si < sections.len(),
                    *sec == sections@[si as int],
                    k <= db.len(),
                    db@.map_values(|s: Ps1Symbol| (s.name, s.library, s.description)) == ps1_db(),
                    matches@.map_values(|m: Ps1SymbolMatch| m_view(m)) == m0 + section_matches(sections@, si as int, k as int),
                decreases db.len() - k,
            {
                let sym = db[k];
                assert((sym.name, sym.library, sym.description) == ps1_db()[k as int]);
                let ghost before = matches@.map_values(|m: Ps1SymbolMatch| m_view(m));
                match symbol_match(sec, si, sym) {
                    Some(m) => {
                        matches.push(m);
                        assert(matches@.map_values(|m: Ps1SymbolMatch| m_view(m)) =~= before + seq![m_view(m)]);
                    },
                    None => {},
                }
                k = k + 1;
            }
            assert(db@.len() == ps1_db().len());
        }
        si = si + 1;
    }
    matches
}

/// The number of matches (among the first `n`) from `library`.
pub open spec fn library_count(ms: Seq<Ps1SymbolMatch>, library: Seq<char>, n: int) -> nat
    decreases n,
{
    if n <= 0 { 0 } else { library_count(ms, library, n - 1) + (if ms[n - 1].library@ == library { 1nat } else { 0nat }) }
}

/// Scan `sections` and summarize: the matches, their number, and per library
/// the number of matches (libraries listed once each, in order of first match).
pub fn build_ps1_scan_result(sections: &[ElfSection]) -> (r: Ps1SymbolScanResult)
    ensures
        r.matches@.map_values(|m: Ps1SymbolMatch| m_view(m)) == all_matches(sections@, sections@.len() as int),
        r.total_matches == r.matches@.len(),
        forall|i: int, j: int| 0 <= i < j < r.per_library@.len() ==> r.per_library@[i].0@ != r.per_library@[j].0@,
        forall|i: int| 0 <= i < r.per_library@.len() ==>
            (#[trigger] r.per_library@[i]).1 == library_count(r.matches@, r.per_library@[i].0@, r.matches@.len() as int),
        forall|k: int| 0 <= k < r.matches@.len() ==>
            exists|i: int| 0 <= i < r.per_library@.len() && r.per_library@[i].0@ == (#[trigger] r.matches@[k]).library@,
{
    let matches = scan_ps1_symbol_matches(sections);
    let total = matches.len();
    let mut per_library: Vec<(String, usize)> = Vec::new();
    let mut k: usize = 0;
    while k < matches.len()
        invariant
            k <= matches.len(),
            forall|i: int, j: int| 0 <= i < j < per_library@.len() ==> per_library@[i].0@ != per_library@[j].0@,
            forall|i: int| 0 <= i < per_library@.len() ==>
                (#[trigger] per_library@[i]).1 == library_count(matches@, per_library@[i].0@, k as int),
            forall|q: int| 0 <= q < k ==>
                exists|i: int| 0 <= i < per_library@.len() && per_library@[i].0@ == (#[trigger] matches@[q]).library@,
            forall|i: int| 0 <= i < per_library@.len() ==> library_count(matches@, per_library@[i].0@, k as int) >= 1,
            per_library@.len() <= k,
        decreases matches.len() - k,
    {
        let lib = &matches[k].library;
        let mut i: usize = 0;
        while i < per_library.len() && !(per_library[i].0 == *lib)
            invariant
                i <= per_library.len(),
                forall|q: int| 0 <= q < i ==> per_library@[q].0@ != lib@,
            decreases per_library.len() - i,
        {
            i = i + 1;
        }
        let found = i < per_library.len();
        let ghost p0 = per_library@;
        if found {
            let c = per_library[i].1;
            assert(c == library_count(matches@, lib@, k as int));
            assert(c <= k) by { lemma_count_le(matches@, lib@, k as int); }
            per_library.set(i, (lib.clone(), c + 1));
        } else {
            per_library.push((lib.clone(), 1));
            proof {
                assert forall|q: int| 0 <= q < k implies matches@[q].library@ != lib@ by {
                    let i2 = choose|i2: int| 0 <= i2 < p0.len() && p0[i2].0@ == (#[trigger] matches@[q]).library@;
                    assert(p0[i2].0@ != lib@);
                }
                lemma_count_zero(matches@, lib@, k as int);
            }
        }
        proof {
            assert forall|q: int| 0 <= q < per_library@.len() implies
                (#[trigger] per_library@[q]).1 == library_count(matches@, per_library@[q].0@, k + 1) by {
                if q < p0.len() && per_library@[q].0@ != lib@ {
                    assert(per_library@[q] == p0[q]);
                }
            }
            assert forall|q: int| 0 <= q < k + 1 implies
                exists|i2: int| 0 <= i2 < per_library@.len() && per_library@[i2].0@ == (#[trigger] matches@[q]).library@ by {
                if q < k {
                    let i2 = choose|i2: int| 0 <= i2 < p0.len() && p0[i2].0@ == matches@[q].library@;
                    assert(per_library@[i2].0@ == p0[i2].0@);
                } else if found {
                    assert(per_library@[i as int].0@ == lib@);
                } else {
                    assert(per_library@[per_library@.len() - 1].0@ == lib@);
                }
            }
            assert forall|a: int, b: int| 0 <= a < b < per_library@.len() implies per_library@[a].0@ != per_library@[b].0@ by {
                if !found && b == per_library@.len() - 1 {
                    assert(per_library@[a] == p0[a]);
                } else if a < p0.len() && b < p0.len() {
                    if found && a == i {
                        assert(per_library@[b] == p0[b]);
                    } else if found && b == i {
                        assert(per_library@[a] == p0[a]);
                    } else {
                        assert(per_library@[a] == p0[a]);
                        assert(per_library@[b] == p0[b]);
                    }
                }
            }
            assert forall|q: int| 0 <= q < per_library@.len() implies library_count(matches@, per_library@[q].0@, k + 1) >= 1 by {
                if q < p0.len() && per_library@[q].0@ != lib@ {
                    assert(per_library@[q] == p0[q]);
                }
            }
        }
        k = k + 1;
    }
    Ps1SymbolScanResult { matches, total_matches: total, per_library }
}

proof fn lemma_count_le(ms: Seq<Ps1SymbolMatch>, lib: Seq<char>, n: int)
    requires
        n >= 0,
    ensures
        library_count(ms, lib, n) <= n,
    decreases n,
{
    if n > 0 {
        lemma_count_le(ms, lib, n - 1);
    }
}

proof fn lemma_count_zero(ms: Seq<Ps1SymbolMatch>, lib: Seq<char>, n: int)
    requires
        n >= 0,
        forall|q: int| 0 <= q < n ==> ms[q].library@ != lib,
    ensures
        library_count(ms, lib, n) == 0,
    decreases n,
{
    if n > 0 {
        lemma_count_zero(ms, lib, n - 1);
    }
}

} // verus!

//! Function detection for a parsed ELF image: symbol-table functions when
//! there are any, else the JAL-scan heuristic with PS1 SDK names, refined
//! ends and SCE SDK names.
use vstd::prelude::*;
use crate::engine::{
    detect_functions_in_sections, exec_sections_fit, fe_view, holding_section, refinable, refine_function_boundaries,
    refine_keeps, refined, scan_starts, section_functions, ElfFileInfo, ElfSection, FunctionEntry,
};
use crate::ps1_symbols::{all_matches, m_view, scan_ps1_symbol_matches, Ps1SymbolMatch};
use crate::sce_symbol_scanner::{
    addresses_increasing, at_addr, resolvable, resolved_match, scan_entries, section_view, CodeSection, SceSymbolDatabase,
    SceSymbolMatch,
};
use crate::engine::is_exec;

verus! {

/// A function entry as plain values: (name, start, end, size).
pub type FnView = (Seq<char>, u32, u32, u32);

/// The address a PS1 match names: its section's address plus its offset.
pub open spec fn ps1_named_address(secs: Seq<ElfSection>, m: (Seq<char>, Seq<char>, Seq<char>, usize, Seq<char>, u32)) -> Option<int> {
    if (m.3 as int) < secs.len() {
        Some(secs[m.3 as int].address + m.5)
    } else {
        None
    }
}

/// The name the last of the first `n` matches that names `addr` gives it.
pub open spec fn ps1_name_for(
    secs: Seq<ElfSection>,
    ms: Seq<(Seq<char>, Seq<char>, Seq<char>, usize, Seq<char>, u32)>,
    addr: u32,
    n: int,
) -> Option<Seq<char>>
    decreases n,
{
    if n <= 0 {
        None
    } else if ps1_named_address(secs, ms[n - 1]) == Some(addr as int) {
        Some(ms[n - 1].0)
    } else {
        ps1_name_for(secs, ms, addr, n - 1)
    }
}

/// Every named address of the PS1 matches fits in 32 bits.
pub open spec fn ps1_addresses_fit(secs: Seq<ElfSection>) -> bool {
    let ms = all_matches(secs, secs.len() as int);
    forall|i: int| 0 <= i < ms.len() ==> match #[trigger] ps1_named_address(secs, ms[i]) {
        Some(a) => a <= u32::MAX,
        None => true,
    }
}

/// `f` renamed after the PS1 matches.
pub open spec fn ps1_renamed(secs: Seq<ElfSection>, f: FnView) -> FnView {
    match ps1_name_for(secs, all_matches(secs, secs.len() as int), f.1, all_matches(secs, secs.len() as int).len() as int) {
        Some(n) => (n, f.1, f.2, f.3),
        None => f,
    }
}

fn ps1_name_lookup(sections: &[ElfSection], matches: &Vec<Ps1SymbolMatch>, addr: u32) -> (r: Option<usize>)
    requires
        matches@.map_values(|m: Ps1SymbolMatch| m_view(m)) == all_matches(sections@, sections@.len() as int),
        ps1_addresses_fit(sections@),
    ensures
        match ps1_name_for(sections@, all_matches(sections@, sections@.len() as int), addr, matches@.len() as int) {
            Some(n) => r matches Some(i) && i < matches@.len() && matches@[i as int].symbol@ == n,
            None => r is None,
        },
{
    let ghost ms = all_matches(sections@, sections@.len() as int);
    let mut k: usize = matches.len();
    while k > 0
        invariant
            k <= matches@.len(),
            ms == all_matches(sections@, sections@.len() as int),
            matches@.map_values(|m: Ps1SymbolMatch| m_view(m)) == ms,
            ps1_addresses_fit(sections@),
            ps1_name_for(sections@, ms, addr, matches@.len() as int) == ps1_name_for(sections@, ms, addr, k as int),
        decreases k,
    {
        let m = &matches[k - 1];
        assert(m_view(*m) == ms[k - 1]);
        if m.section_index < sections.len() {
            assert(ps1_named_address(sections@, ms[k - 1]) is Some);
            let a = sections[m.section_index].address as u64 + m.offset as u64;
            if a == addr as u64 {
                return Some(k - 1);
            }
        }
        k = k - 1;
    }
    None
}

/// Rename functions after the PS1 SDK symbol references: a reference names
/// the function starting at its section's address plus the reference's
/// offset (the last such reference wins).
pub fn apply_ps1_sdk_names(sections: &[ElfSection], funcs: &mut Vec<FunctionEntry>)
    requires
        ps1_addresses_fit(sections@),
    ensures
        final(funcs)@.len() == old(funcs)@.len(),
        forall|k: int| 0 <= k < final(funcs)@.len() ==> fe_view(#[trigger] final(funcs)@[k]) == ps1_renamed(
            sections@,
            fe_view(old(funcs)@[k]),
        ),
{
    let matches = scan_ps1_symbol_matches(sections);
    let ghost f0 = funcs@;
    let mut k: usize = 0;
    while k < funcs.len()
        invariant
            funcs@.len() == f0.len(),
            k <= funcs@.len(),
            matches@.map_values(|m: Ps1SymbolMatch| m_view(m)) == all_matches(sections@, sections@.len() as int),
            ps1_addresses_fit(sections@),
            forall|q: int| 0 <= q < k ==> fe_view(#[trigger] funcs@[q]) == ps1_renamed(sections@, fe_view(f0[q])),
            forall|q: int| k <= q < funcs@.len() ==> funcs@[q] == f0[q],
        decreases f0.len() - k,
    {
        let start = funcs[k].start;
        match ps1_name_lookup(sections, &matches, start) {
            Some(i) => {
                let f = FunctionEntry {
                    name: matches[i].symbol.clone(),
                    start: funcs[k].start,
                    end: funcs[k].end,
                    size: funcs[k].size,
                };
                funcs.set(k, f);
            },
            None => {},
        }
        k = k + 1;
    }
}


/// The last of the first `n` SCE matches that starts at `addr`.
pub open spec fn sce_for(ms: Seq<SceSymbolMatch>, addr: u32, n: int) -> Option<SceSymbolMatch>
    decreases n,
{
    if n <= 0 {
        None
    } else if ms[n - 1].address == addr {
        Some(ms[n - 1])
    } else {
        sce_for(ms, addr, n - 1)
    }
}

/// `f` renamed after the SCE matches: a match at its start gives it its name
/// and size, its end becoming start plus size.
pub open spec fn sce_renamed(ms: Seq<SceSymbolMatch>, f: FnView) -> FnView {
    match sce_for(ms, f.1, ms.len() as int) {
        Some(m) => (m.name@, f.1, (f.1 + m.size) as u32, m.size),
        None => f,
    }
}

/// Every renamed function's new end fits in 32 bits.
pub open spec fn sce_ends_fit(ms: Seq<SceSymbolMatch>, fs: Seq<FnView>) -> bool {
    forall|k: int| 0 <= k < fs.len() ==> match sce_for(ms, (#[trigger] fs[k]).1, ms.len() as int) {
        Some(m) => fs[k].1 + m.size <= u32::MAX,
        None => true,
    }
}

fn sce_lookup(matches: &[SceSymbolMatch], addr: u32) -> (r: Option<usize>)
    ensures
        match sce_for(matches@, addr, matches@.len() as int) {
            Some(m) => r matches Some(i) && i < matches@.len() && matches@[i as int] == m,
            None => r is None,
        },
{
    let mut k: usize = matches.len();
    while k > 0
        invariant
            k <= matches@.len(),
            sce_for(matches@, addr, matches@.len() as int) == sce_for(matches@, addr, k as int),
        decreases k,
    {
        if matches[k - 1].address == addr {
            return Some(k - 1);
        }
        k = k - 1;
    }
    None
}

/// Rename functions after SCE SDK matches: a match starting where a function
/// starts gives it the match's name and size (the last such match wins).
pub fn apply_sce_sdk_names(matches: &[SceSymbolMatch], funcs: &mut Vec<FunctionEntry>)
    requires
        sce_ends_fit(matches@, old(funcs)@.map_values(|f: FunctionEntry| fe_view(f))),
    ensures
        final(funcs)@.len() == old(funcs)@.len(),
        forall|k: int| 0 <= k < final(funcs)@.len() ==> fe_view(#[trigger] final(funcs)@[k]) == sce_renamed(
            matches@,
            fe_view(old(funcs)@[k]),
        ),
{
    let ghost f0 = funcs@;
    let mut k: usize = 0;
    while k < funcs.len()
        invariant
            funcs@.len() == f0.len(),
            k <= funcs@.len(),
            sce_ends_fit(matches@, f0.map_values(|f: FunctionEntry| fe_view(f))),
            forall|q: int| 0 <= q < k ==> fe_view(#[trigger] funcs@[q]) == sce_renamed(matches@, fe_view(f0[q])),
            forall|q: int| k <= q < funcs@.len() ==> funcs@[q] == f0[q],
        decreases f0.len() - k,
    {
        let start = funcs[k].start;
        match sce_lookup(matches, start) {
            Some(i) => {
                assert(f0.map_values(|f: FunctionEntry| fe_view(f))[k as int].1 == start);
                let size = matches[i].size;
                let f = FunctionEntry { name: matches[i].name.clone(), start, end: start + size, size };
                funcs.set(k, f);
            },
            None => {},
        }
        k = k + 1;
    }
}

/// The functions the symbol table gives: its symbols with a size, each
/// spanning `[address, address + size)`.
pub open spec fn symbol_functions(info: ElfFileInfo) -> Seq<FnView> {
    info.symbols@.filter(|s: crate::engine::ElfSymbol| s.size > 0).map_values(
        |s: crate::engine::ElfSymbol| (s.name@, s.address, (s.address + s.size) as u32, s.size),
    )
}

/// The functions the JAL scan gives, before naming and refinement.
pub open spec fn scanned_functions(info: ElfFileInfo) -> Seq<FnView> {
    section_functions(
        info.sections@,
        scan_starts(info.sections@, info.entry_point, info.is_little_endian),
        info.sections@.len() as int,
    )
}

/// The detected functions: the symbol table's when it has any; else the
/// JAL scan's, named after PS1 references, with refined ends, named after
/// the SCE matches.
pub open spec fn spec_detected(info: ElfFileInfo, ms: Seq<SceSymbolMatch>) -> Seq<FnView> {
    if symbol_functions(info).len() > 0 {
        symbol_functions(info)
    } else {
        scanned_functions(info).map_values(|f: FnView| ps1_renamed(info.sections@, f)).map_values(
            |f: FnView| refined(info.sections@, f, info.is_little_endian),
        ).map_values(|f: FnView| sce_renamed(ms, f))
    }
}

/// Ends can be refined inside the sections that hold the functions' starts.
pub open spec fn refinable_views(secs: Seq<ElfSection>, fs: Seq<FnView>) -> bool {
    forall|k: int| 0 <= k < fs.len() ==> match holding_section(secs, (#[trigger] fs[k]).1) {
        Some(i) => refine_keeps(secs[i].data@.len(), secs[i].address, fs[k].1, fs[k].2)
            || (fs[k].1 >= secs[i].address && fs[k].1 + 8 <= u32::MAX),
        None => true,
    }
}

/// The inputs on which detection stays within 32-bit addresses.
pub open spec fn detection_fits(info: ElfFileInfo, ms: Seq<SceSymbolMatch>) -> bool {
    &&& forall|i: int| 0 <= i < info.symbols@.len() && info.symbols@[i].size > 0 ==> #[trigger] info.symbols@[i].address
        + info.symbols@[i].size <= u32::MAX
    &&& symbol_functions(info).len() == 0 ==> {
        &&& exec_sections_fit(info.sections@)
        &&& ps1_addresses_fit(info.sections@)
        &&& refinable_views(info.sections@, scanned_functions(info))
        &&& sce_ends_fit(
            ms,
            scanned_functions(info).map_values(|f: FnView| ps1_renamed(info.sections@, f)).map_values(
                |f: FnView| refined(info.sections@, f, info.is_little_endian),
            ),
        )
    }
}

/// When the symbol table holds a symbol with a size, detection gives exactly
/// the symbol table's sized symbols, in order: the sections are not scanned and
/// the SDK matches rename nothing.
pub proof fn detection_prefers_symbols(info: ElfFileInfo, ms: Seq<SceSymbolMatch>, i: int)
    requires
        0 <= i < info.symbols@.len(),
        info.symbols@[i].size > 0,
    ensures
        spec_detected(info, ms) == symbol_functions(info),
        spec_detected(info, ms) == spec_detected(info, Seq::<SceSymbolMatch>::empty()),
{
    let p = |s: crate::engine::ElfSymbol| s.size > 0;
    info.symbols@.lemma_filter_contains(p, i);
    assert(info.symbols@.filter(p).len() > 0);
}

/// Detect the functions of a parsed image (see `spec_detected`), given the
/// SCE SDK matches of its executable sections. Never fails.
pub fn detect_functions_inner(info: &ElfFileInfo, sce_matches: &[SceSymbolMatch]) -> (r: Result<Vec<FunctionEntry>, String>)
    requires
        detection_fits(*info, sce_matches@),
    ensures
        r matches Ok(v) && v@.map_values(|f: FunctionEntry| fe_view(f)) == spec_detected(*info, sce_matches@),
{
    let ghost syms = info.symbols@;
    let mut from_syms: Vec<FunctionEntry> = Vec::new();
    let mut k: usize = 0;
    while k < info.symbols.len()
        invariant
            k <= syms.len(),
            syms == info.symbols@,
            detection_fits(*info, sce_matches@),
            from_syms@.map_values(|f: FunctionEntry| fe_view(f)) == syms.take(k as int).filter(
                |s: crate::engine::ElfSymbol| s.size > 0,
            ).map_values(|s: crate::engine::ElfSymbol| (s.name@, s.address, (s.address + s.size) as u32, s.size)),
        decreases syms.len() - k,
    {
        let s = &info.symbols[k];
        let ghost before = from_syms@.map_values(|f: FunctionEntry| fe_view(f));
        assert(syms.take(k + 1).drop_last() =~= syms.take(k as int));
        reveal(Seq::filter);
        if s.size > 0 {
            let f = FunctionEntry { name: s.name.clone(), start: s.address, end: s.address + s.size, size: s.size };
            from_syms.push(f);
            assert(from_syms@.map_values(|f: FunctionEntry| fe_view(f)) =~= before.push(fe_view(f)));
        }
        k = k + 1;
    }
    assert(syms.take(k as int) =~= syms);
    if from_syms.len() > 0 {
        return Ok(from_syms);
    }
    let mut funcs = detect_functions_in_sections(info.sections.as_slice(), info.entry_point, info.is_little_endian);
    let ghost fs0 = funcs@.map_values(|f: FunctionEntry| fe_view(f));
    apply_ps1_sdk_names(info.sections.as_slice(), &mut funcs);
    let ghost fs1 = funcs@.map_values(|f: FunctionEntry| fe_view(f));
    assert(fs1 =~= fs0.map_values(|f: FnView| ps1_renamed(info.sections@, f)));
    assert(refinable(info.sections@, funcs@)) by {
        assert forall|q: int| 0 <= q < funcs@.len() implies match holding_section(info.sections@, (#[trigger] funcs@[q]).start) {
            Some(i) => refine_keeps(info.sections@[i].data@.len(), info.sections@[i].address, funcs@[q].start, funcs@[q].end)
                || (funcs@[q].start >= info.sections@[i].address && funcs@[q].start + 8 <= u32::MAX),
            None => true,
        } by {
            assert(fs0[q].1 == fs1[q].1 && fs0[q].2 == fs1[q].2);
        }
    }
    refine_function_boundaries(info.sections.as_slice(), &mut funcs, info.is_little_endian);
    let ghost fs2 = funcs@.map_values(|f: FunctionEntry| fe_view(f));
    assert(fs2 =~= fs1.map_values(|f: FnView| refined(info.sections@, f, info.is_little_endian)));
    apply_sce_sdk_names(sce_matches, &mut funcs);
    assert(funcs@.map_values(|f: FunctionEntry| fe_view(f)) =~= fs2.map_values(|f: FnView| sce_renamed(sce_matches@, f)));
    Ok(funcs)
}

/// The executable sections as the SCE matcher reads them: (address, bytes).
pub open spec fn exec_views(secs: Seq<ElfSection>) -> Seq<(u32, Seq<u8>)>
    decreases secs.len(),
{
    if secs.len() == 0 {
        Seq::empty()
    } else {
        let s = secs.last();
        exec_views(secs.drop_last()) + if is_exec(s) { seq![(s.address, s.data@)] } else { Seq::empty() }
    }
}

/// Run the SCE SDK matcher of `db` over the executable sections: the
/// matches in increasing address order, each the resolution of the
/// candidates confirmed at its address, one for every address whose
/// candidates resolve.
pub fn scan_sce_sdk_matches(db: &SceSymbolDatabase, sections: &[ElfSection]) -> (out: Vec<SceSymbolMatch>)
    requires
        exec_sections_fit(sections@),
    ensures
        addresses_increasing(out@),
        forall|k: int| 0 <= k < out@.len() ==> resolved_match(db.records(),
            scan_entries(db.records(), db.trie(), exec_views(sections@), exec_views(sections@).len() as int), #[trigger] out@[k]),
        forall|j: int| 0 <= j < scan_entries(db.records(), db.trie(), exec_views(sections@), exec_views(sections@).len() as int).len()
            && resolvable(db.records(), at_addr(scan_entries(db.records(), db.trie(), exec_views(sections@), exec_views(sections@).len() as int),
                #[trigger] scan_entries(db.records(), db.trie(), exec_views(sections@), exec_views(sections@).len() as int)[j].0))
            ==> exists|k: int| 0 <= k < out@.len() && (#[trigger] out@[k]).address
                == scan_entries(db.records(), db.trie(), exec_views(sections@), exec_views(sections@).len() as int)[j].0,
{
    let mut code: Vec<CodeSection> = Vec::new();
    let mut i: usize = 0;
    while i < sections.len()
        invariant
            i <= sections@.len(),
            exec_sections_fit(sections@),
            code@.map_values(|c: CodeSection| section_view(c)) == exec_views(sections@.take(i as int)),
            forall|k: int| 0 <= k < code@.len() ==> crate::sce_symbol_scanner::section_fits(#[trigger] code@[k]),
        decreases sections@.len() - i,
    {
        let s = &sections[i];
        assert(sections@.take(i + 1).drop_last() =~= sections@.take(i as int));
        assert(sections@.take(i + 1).last() == *s);
        if (s.flags & 4) != 0 {
            assert(is_exec(*s));
            let ghost c0 = code@;
            code.push(CodeSection { address: s.address, data: s.data.as_slice() });
            assert(code@.map_values(|c: CodeSection| section_view(c))
                =~= c0.map_values(|c: CodeSection| section_view(c)).push((s.address, s.data@)));
            assert forall|k: int| 0 <= k < code@.len() implies crate::sce_symbol_scanner::section_fits(#[trigger] code@[k]) by {
                if k < c0.len() {
                    assert(code@[k] == c0[k]);
                }
            }
        } else {
            assert(!is_exec(*s));
            assert(code@.map_values(|c: CodeSection| section_view(c)) =~= exec_views(sections@.take(i + 1)));
        }
        i = i + 1;
    }
    assert(sections@.take(sections@.len() as int) =~= sections@);
    assert(code@.map_values(|c: CodeSection| section_view(c)).len() == code@.len());
    db.scan(&code)
}

} // verus!

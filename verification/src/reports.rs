//! Summaries of the control-flow analysis for the front end: per-function
//! block and edge counts with totals, and the references to one address.

use vstd::prelude::*;
use crate::call_graph::{insert_sorted_str, lex_increasing};
use crate::cfg::{build_xref_index, cfgs_xrefs, index_of, FunctionCfg, Xref, XrefKind};
use crate::engine::{
    build_config_toml, config_toml, exec_sections_fit, find_holding, holding_section, is_exec, ElfFileInfo, ElfSymbol,
    ElfSection, FunctionEntry,
};
use crate::cfg::{blocks_ok, build_function_cfg, built_cfg, section_fits};
use crate::decomp::{blocks_text, cfg_instr_total, decompile_function, func_name, header_text, instr_count, label_set, sorted_dom};
use std::collections::BTreeMap;
use crate::text::{dec_nat, hex_fixed, owned, push_char, push_dec_u64, push_hex_fixed, push_str, rtrim, starts_with_str};

verus! {

/// Block and edge counts of one function.
#[derive(Debug, Clone)]
pub struct CfgFuncSummary {
    pub entry: u32,
    pub blocks: usize,
    pub edges: usize,
    pub returns: bool,
}

/// Block and edge counts of every function, with totals.
#[derive(Debug, Clone)]
pub struct CfgSummary {
    pub functions: Vec<CfgFuncSummary>,
    pub total_blocks: usize,
    pub total_edges: usize,
    pub returning_functions: usize,
    pub xref_targets: usize,
}

/// One reference: where it comes from and how (`call`, `jump`, `branch`,
/// `data`).
#[derive(Debug, Clone)]
pub struct XrefEntry {
    pub from: u32,
    pub kind: String,
}

/// The references to `target`.
#[derive(Debug, Clone)]
pub struct XrefResult {
    pub target: u32,
    pub refs: Vec<XrefEntry>,
}

/// A function's summary as plain values: (entry, blocks, edges, returns).
pub open spec fn func_summary(c: FunctionCfg) -> (u32, nat, nat, bool) {
    (c.entry, c.blocks@.len(), c.edges@.len(), c.does_return)
}

pub open spec fn summary_view(s: CfgFuncSummary) -> (u32, nat, nat, bool) {
    (s.entry, s.blocks as nat, s.edges as nat, s.returns)
}

/// Total blocks of the first `n` functions.
pub open spec fn total_blocks(cs: Seq<FunctionCfg>, n: int) -> nat
    decreases n,
{
    if n <= 0 { 0 } else { total_blocks(cs, n - 1) + cs[n - 1].blocks@.len() }
}

/// Total edges of the first `n` functions.
pub open spec fn total_edges(cs: Seq<FunctionCfg>, n: int) -> nat
    decreases n,
{
    if n <= 0 { 0 } else { total_edges(cs, n - 1) + cs[n - 1].edges@.len() }
}

/// How many of the first `n` functions return.
pub open spec fn returning(cs: Seq<FunctionCfg>, n: int) -> nat
    decreases n,
{
    if n <= 0 { 0 } else { returning(cs, n - 1) + if cs[n - 1].does_return { 1nat } else { 0nat } }
}

/// Summarize the control-flow graphs: each function's counts, the totals,
/// how many return, and how many distinct addresses are referenced.
pub fn summarize_cfgs(cfgs: &[FunctionCfg]) -> (s: CfgSummary)
    requires
        total_blocks(cfgs@, cfgs@.len() as int) <= usize::MAX,
        total_edges(cfgs@, cfgs@.len() as int) <= usize::MAX,
    ensures
        s.functions@.map_values(|f: CfgFuncSummary| summary_view(f)) == cfgs@.map_values(|c: FunctionCfg| func_summary(c)),
        s.total_blocks == total_blocks(cfgs@, cfgs@.len() as int),
        s.total_edges == total_edges(cfgs@, cfgs@.len() as int),
        s.returning_functions == returning(cfgs@, cfgs@.len() as int),
        s.xref_targets == index_of(cfgs_xrefs(cfgs@)).dom().len(),
{
    let mut functions: Vec<CfgFuncSummary> = Vec::new();
    let mut tb: usize = 0;
    let mut te: usize = 0;
    let mut rf: usize = 0;
    let mut k: usize = 0;
    while k < cfgs.len()
        invariant
            k <= cfgs@.len(),
            total_blocks(cfgs@, cfgs@.len() as int) <= usize::MAX,
            total_edges(cfgs@, cfgs@.len() as int) <= usize::MAX,
            functions@.map_values(|f: CfgFuncSummary| summary_view(f)) == cfgs@.take(k as int).map_values(|c: FunctionCfg| func_summary(c)),
            tb == total_blocks(cfgs@, k as int),
            te == total_edges(cfgs@, k as int),
            rf == returning(cfgs@, k as int),
            rf <= k,
        decreases cfgs@.len() - k,
    {
        let c = &cfgs[k];
        proof {
            lemma_totals_monotone(cfgs@, k + 1, cfgs@.len() as int);
        }
        let nb = c.blocks.len();
        let ne = c.edges.len();
        tb = tb + nb;
        te = te + ne;
        if c.does_return {
            rf = rf + 1;
        }
        let ghost before = functions@.map_values(|f: CfgFuncSummary| summary_view(f));
        functions.push(CfgFuncSummary { entry: c.entry, blocks: nb, edges: ne, returns: c.does_return });
        assert(functions@.map_values(|f: CfgFuncSummary| summary_view(f)) =~= before.push(func_summary(*c)));
        assert(cfgs@.take(k + 1).map_values(|c: FunctionCfg| func_summary(c))
            =~= cfgs@.take(k as int).map_values(|c: FunctionCfg| func_summary(c)).push(func_summary(*c)));
        k = k + 1;
    }
    assert(cfgs@.take(cfgs@.len() as int) =~= cfgs@);
    let xrefs = build_xref_index(cfgs);
    CfgSummary { functions, total_blocks: tb, total_edges: te, returning_functions: rf, xref_targets: xrefs.len() }
}

proof fn lemma_totals_monotone(cs: Seq<FunctionCfg>, a: int, b: int)
    requires
        0 <= a <= b,
    ensures
        total_blocks(cs, a) <= total_blocks(cs, b),
        total_edges(cs, a) <= total_edges(cs, b),
    decreases b - a,
{
    if a < b {
        lemma_totals_monotone(cs, a, b - 1);
    }
}

/// The name of a reference kind.
pub open spec fn kind_text(k: XrefKind) -> Seq<char> {
    match k {
        XrefKind::Call => "call"@,
        XrefKind::Jump => "jump"@,
        XrefKind::Branch => "branch"@,
        XrefKind::Data => "data"@,
    }
}

pub open spec fn entry_view(e: XrefEntry) -> (u32, Seq<char>) {
    (e.from, e.kind@)
}

pub open spec fn xref_entry(x: Xref) -> (u32, Seq<char>) {
    (x.from, kind_text(x.kind))
}

/// The references to `target` in the control-flow graphs, in the order the
/// index keeps them, each with the name of its kind.
pub fn xrefs_to(cfgs: &[FunctionCfg], target: u32) -> (r: XrefResult)
    ensures
        r.target == target,
        r.refs@.map_values(|e: XrefEntry| entry_view(e)) == (if index_of(cfgs_xrefs(cfgs@)).contains_key(target) {
            index_of(cfgs_xrefs(cfgs@))[target]
        } else {
            Seq::<Xref>::empty()
        }).map_values(|x: Xref| xref_entry(x)),
{
    let idx = build_xref_index(cfgs);
    let refs_in = idx.refs_to(target);
    let mut refs: Vec<XrefEntry> = Vec::new();
    let mut k: usize = 0;
    while k < refs_in.len()
        invariant
            k <= refs_in@.len(),
            refs@.map_values(|e: XrefEntry| entry_view(e)) == refs_in@.take(k as int).map_values(|x: Xref| xref_entry(x)),
        decreases refs_in@.len() - k,
    {
        let x = &refs_in[k];
        let kind = match x.kind {
            XrefKind::Call => owned("call"),
            XrefKind::Jump => owned("jump"),
            XrefKind::Branch => owned("branch"),
            XrefKind::Data => owned("data"),
        };
        let ghost before = refs@.map_values(|e: XrefEntry| entry_view(e));
        refs.push(XrefEntry { from: x.from, kind });
        assert(refs@.map_values(|e: XrefEntry| entry_view(e)) =~= before.push(xref_entry(*x)));
        assert(refs_in@.take(k + 1).map_values(|x: Xref| xref_entry(x))
            =~= refs_in@.take(k as int).map_values(|x: Xref| xref_entry(x)).push(xref_entry(*x)));
        k = k + 1;
    }
    assert(refs_in@.take(refs_in@.len() as int) =~= refs_in@);
    XrefResult { target, refs }
}

// ---------------------------------------------------------------------------
// Function lists and recompiler configuration
// ---------------------------------------------------------------------------

/// One CSV row: `name,0xSTART,0xEND,size` (addresses as eight uppercase hex
/// digits, size in decimal).
pub open spec fn csv_row(f: FunctionEntry) -> Seq<char> {
    f.name@ + ",0x"@ + hex_fixed(f.start as nat, 8) + ",0x"@ + hex_fixed(f.end as nat, 8) + ","@ + dec_nat(f.size as nat) + "\n"@
}

/// The rows of the first `n` functions.
pub open spec fn csv_rows(fs: Seq<FunctionEntry>, n: int) -> Seq<char>
    decreases n,
{
    if n <= 0 { Seq::empty() } else { csv_rows(fs, n - 1) + csv_row(fs[n - 1]) }
}

/// The function list as CSV (`Name,Start,End,Size` header, one row each).
pub open spec fn csv_text(fs: Seq<FunctionEntry>) -> Seq<char> {
    "Name,Start,End,Size\n"@ + csv_rows(fs, fs.len() as int)
}

/// The functions as CSV: a `Name,Start,End,Size` header, then one row per
/// function with the addresses as `0x` and eight uppercase hex digits.
pub fn functions_csv(funcs: &[FunctionEntry]) -> (csv: String)
    ensures
        csv@ == csv_text(funcs@),
{
    let mut csv = owned("Name,Start,End,Size\n");
    let mut k: usize = 0;
    while k < funcs.len()
        invariant
            k <= funcs@.len(),
            csv@ == "Name,Start,End,Size\n"@ + csv_rows(funcs@, k as int),
        decreases funcs@.len() - k,
    {
        let f = &funcs[k];
        let ghost before = csv@;
        push_str(&mut csv, f.name.as_str());
        push_str(&mut csv, ",0x");
        push_hex_fixed(&mut csv, f.start, 8);
        push_str(&mut csv, ",0x");
        push_hex_fixed(&mut csv, f.end, 8);
        push_str(&mut csv, ",");
        push_dec_u64(&mut csv, f.size as u64);
        push_str(&mut csv, "\n");
        assert(csv@ =~= before + csv_row(funcs@[k as int]));
        k = k + 1;
    }
    csv
}

/// `s` without trailing `/` characters.
fn trim_trailing_slashes(s: &str) -> (r: String)
    ensures
        r@ == rtrim(s@, set!['/']),
{
    let mut cs: Vec<char> = Vec::new();
    for ch in it: s.chars()
        invariant
            it.seq() == s@,
            cs@ == s@.take(it.index()),
    {
        let ghost q = it.index();
        cs.push(ch);
        assert(s@.take(q + 1) =~= s@.take(q).push(ch));
    }
    assert(s@.take(s@.len() as int) =~= s@);
    let mut end: usize = cs.len();
    while end > 0 && cs[end - 1] == '/'
        invariant
            end <= cs@.len(),
            rtrim(cs@.take(end as int), set!['/']) == rtrim(s@, set!['/']),
            cs@ == s@,
        decreases end,
    {
        assert(cs@.take(end as int).drop_last() =~= cs@.take(end - 1));
        end = end - 1;
    }
    assert(rtrim(cs@.take(end as int), set!['/']) == cs@.take(end as int));
    let mut r = String::new();
    let mut k: usize = 0;
    while k < end
        invariant
            k <= end <= cs@.len(),
            r@ == cs@.take(k as int),
        decreases end - k,
    {
        push_char(&mut r, cs[k]);
        assert(cs@.take(k + 1) =~= cs@.take(k as int).push(cs@[k as int]));
        k = k + 1;
    }
    r
}

/// Whether a function kept a generic `sub_` name.
pub open spec fn generic_name(f: FunctionEntry) -> bool {
    f.name@.len() >= 4 && f.name@.take(4) == "sub_"@
}

/// How many of the first `n` symbols have a size.
pub open spec fn sized_symbols(info: ElfFileInfo, n: int) -> nat
    decreases n,
{
    if n <= 0 { 0 } else { sized_symbols(info, n - 1) + if info.symbols@[n - 1].size > 0 { 1nat } else { 0nat } }
}

/// How many of the first `n` functions carry a real (non-`sub_`) name.
pub open spec fn named_count(fs: Seq<FunctionEntry>, n: int) -> nat
    decreases n,
{
    if n <= 0 { 0 } else { named_count(fs, n - 1) + if generic_name(fs[n - 1]) { 0nat } else { 1nat } }
}

/// The real names among the functions.
pub open spec fn real_names(fs: Seq<FunctionEntry>) -> Set<Seq<char>> {
    Set::new(|n: Seq<char>| exists|k: int| 0 <= k < fs.len() && !generic_name(#[trigger] fs[k]) && fs[k].name@ == n)
}

/// `stubs` lists the real names, sorted and without repeats.
pub open spec fn lists_real_names(stubs: Seq<String>, fs: Seq<FunctionEntry>) -> bool {
    lex_increasing(stubs.map_values(|s: String| s@)) && stubs.map_values(|s: String| s@).to_set() == real_names(fs)
}

/// The files and counts of a recompiler configuration bundle.
#[derive(Debug, Clone)]
pub struct ConfigExport {
    pub toml_path: String,
    pub toml: String,
    pub csv_path: String,
    pub csv: String,
    pub function_count: usize,
    pub from_symbols: usize,
    pub from_jal_heuristic: usize,
    pub sce_sdk_named: usize,
    pub relocation_count: usize,
}

/// Build the recompiler configuration bundle of an analysed ELF: the
/// function CSV (`<output_dir>/functions.csv`) and the TOML
/// (`<output_dir>/config.toml`) that points at it, with the counts of
/// sized symbols, of the remaining heuristic functions and of real-named
/// functions, whose sorted distinct names are listed as untracked stubs.
pub fn config_export(path: &str, output_dir: &str, info: &ElfFileInfo, funcs: &[FunctionEntry]) -> (r: ConfigExport)
    ensures
        r.csv_path@ == rtrim(output_dir@, set!['/']) + "/functions.csv"@,
        r.toml_path@ == rtrim(output_dir@, set!['/']) + "/config.toml"@,
        r.csv@ == csv_text(funcs@),
        r.function_count == funcs@.len(),
        r.from_symbols == sized_symbols(*info, info.symbols@.len() as int),
        r.from_jal_heuristic == if funcs@.len() >= r.from_symbols { funcs@.len() - r.from_symbols } else { 0 },
        r.sce_sdk_named == named_count(funcs@, funcs@.len() as int),
        r.relocation_count == info.relocations@.len(),
        exists|stubs: Seq<String>| #[trigger] lists_real_names(stubs, funcs@)
            && r.toml@ == config_toml(path@, output_dir@, r.csv_path@, *info, funcs@.len(), r.from_symbols as nat,
                r.from_jal_heuristic as nat, r.sce_sdk_named as nat, stubs),
{
    let dir = trim_trailing_slashes(output_dir);
    let mut csv_path = dir.clone();
    push_str(&mut csv_path, "/functions.csv");
    let mut toml_path = dir;
    push_str(&mut toml_path, "/config.toml");
    assert(csv_path@ == rtrim(output_dir@, set!['/']) + "/functions.csv"@);
    let csv = functions_csv(funcs);
    let mut from_symbols: usize = 0;
    let mut k: usize = 0;
    while k < info.symbols.len()
        invariant
            k <= info.symbols@.len(),
            from_symbols == sized_symbols(*info, k as int),
            from_symbols <= k,
        decreases info.symbols@.len() - k,
    {
        if info.symbols[k].size > 0 {
            from_symbols = from_symbols + 1;
        }
        k = k + 1;
    }
    let heuristic: usize = if funcs.len() >= from_symbols { funcs.len() - from_symbols } else { 0 };
    let mut named: usize = 0;
    let mut stubs: Vec<String> = Vec::new();
    let mut j: usize = 0;
    while j < funcs.len()
        invariant
            j <= funcs@.len(),
            named == named_count(funcs@, j as int),
            named <= j,
            lex_increasing(stubs@.map_values(|s: String| s@)),
            stubs@.map_values(|s: String| s@).to_set() == real_names(funcs@.take(j as int)),
        decreases funcs@.len() - j,
    {
        let f = &funcs[j];
        let generic = starts_with_str(f.name.as_str(), "sub_");
        proof {
            reveal_strlit("sub_");
        }
        assert(generic == generic_name(*f));
        assert(funcs@.take(j + 1).drop_last() =~= funcs@.take(j as int));
        if !generic {
            named = named + 1;
            let ghost before = stubs@.map_values(|s: String| s@).to_set();
            insert_sorted_str(&mut stubs, f.name.clone());
            assert(stubs@.map_values(|s: String| s@).to_set() =~= real_names(funcs@.take(j + 1))) by {
                assert forall|n: Seq<char>| #[trigger] real_names(funcs@.take(j + 1)).contains(n)
                    <==> (before.contains(n) || n == f.name@) by {
                    if real_names(funcs@.take(j + 1)).contains(n) {
                        let q = choose|q: int| 0 <= q < funcs@.take(j + 1).len() && !generic_name(#[trigger] funcs@.take(j + 1)[q])
                            && funcs@.take(j + 1)[q].name@ == n;
                        if q < j {
                            assert(funcs@.take(j as int)[q] == funcs@.take(j + 1)[q]);
                        }
                    }
                    if before.contains(n) {
                        let q = choose|q: int| 0 <= q < funcs@.take(j as int).len() && !generic_name(#[trigger] funcs@.take(j as int)[q])
                            && funcs@.take(j as int)[q].name@ == n;
                        assert(funcs@.take(j + 1)[q] == funcs@.take(j as int)[q]);
                    }
                    if n == f.name@ {
                        assert(funcs@.take(j + 1)[j as int] == *f);
                    }
                }
            }
        } else {
            assert(stubs@.map_values(|s: String| s@).to_set() =~= real_names(funcs@.take(j + 1))) by {
                assert forall|n: Seq<char>| #[trigger] real_names(funcs@.take(j + 1)).contains(n)
                    <==> real_names(funcs@.take(j as int)).contains(n) by {
                    if real_names(funcs@.take(j + 1)).contains(n) {
                        let q = choose|q: int| 0 <= q < funcs@.take(j + 1).len() && !generic_name(#[trigger] funcs@.take(j + 1)[q])
                            && funcs@.take(j + 1)[q].name@ == n;
                        if q < j {
                            assert(funcs@.take(j as int)[q] == funcs@.take(j + 1)[q]);
                        }
                    }
                    if real_names(funcs@.take(j as int)).contains(n) {
                        let q = choose|q: int| 0 <= q < funcs@.take(j as int).len() && !generic_name(#[trigger] funcs@.take(j as int)[q])
                            && funcs@.take(j as int)[q].name@ == n;
                        assert(funcs@.take(j + 1)[q] == funcs@.take(j as int)[q]);
                    }
                }
            }
        }
        j = j + 1;
    }
    assert(funcs@.take(funcs@.len() as int) =~= funcs@);
    let toml = build_config_toml(path, output_dir, csv_path.as_str(), info, funcs, from_symbols, heuristic, named, &stubs);
    assert(lists_real_names(stubs@, funcs@));
    ConfigExport {
        toml_path,
        toml,
        csv_path,
        csv,
        function_count: funcs.len(),
        from_symbols,
        from_jal_heuristic: heuristic,
        sce_sdk_named: named,
        relocation_count: info.relocations.len(),
    }
}

// ---------------------------------------------------------------------------
// Decompiling by address
// ---------------------------------------------------------------------------

/// One decompiled function.
#[derive(Debug, Clone)]
pub struct DecompileResult {
    pub entry: u32,
    pub name: String,
    pub pseudocode: String,
    pub block_count: usize,
    pub stmt_count: usize,
}

/// Every decompiled function, up to a limit.
#[derive(Debug, Clone)]
pub struct DecompileAllResult {
    pub functions: Vec<DecompileResult>,
    pub total: usize,
}

/// A name map as plain values.
pub open spec fn name_views(m: Map<u32, String>) -> Map<u32, Seq<char>> {
    Map::new(|a: u32| m.contains_key(a), |a: u32| m[a]@)
}

/// The names of the first `n` functions by start address (later ones win).
pub open spec fn func_names(fs: Seq<FunctionEntry>, n: int) -> Map<u32, Seq<char>>
    decreases n,
{
    if n <= 0 { Map::empty() } else { func_names(fs, n - 1).insert(fs[n - 1].start, fs[n - 1].name@) }
}

/// The names after adding the first `n` symbols by address (later ones win).
pub open spec fn sym_names(base: Map<u32, Seq<char>>, ss: Seq<ElfSymbol>, n: int) -> Map<u32, Seq<char>>
    decreases n,
{
    if n <= 0 { base } else { sym_names(base, ss, n - 1).insert(ss[n - 1].address, ss[n - 1].name@) }
}

/// The known names: detected functions, then symbols over them.
pub open spec fn known_names(fs: Seq<FunctionEntry>, ss: Seq<ElfSymbol>) -> Map<u32, Seq<char>> {
    sym_names(func_names(fs, fs.len() as int), ss, ss.len() as int)
}

fn build_known(funcs: &[FunctionEntry], symbols: &[ElfSymbol]) -> (k: BTreeMap<u32, String>)
    ensures
        name_views(k@) == known_names(funcs@, symbols@),
{
    let mut k: BTreeMap<u32, String> = BTreeMap::new();
    let mut i: usize = 0;
    while i < funcs.len()
        invariant
            i <= funcs@.len(),
            name_views(k@) == func_names(funcs@, i as int),
        decreases funcs@.len() - i,
    {
        let n = funcs[i].name.clone();
        k.insert(funcs[i].start, n);
        assert(name_views(k@) =~= func_names(funcs@, i + 1));
        i = i + 1;
    }
    let mut j: usize = 0;
    while j < symbols.len()
        invariant
            j <= symbols@.len(),
            name_views(k@) == sym_names(func_names(funcs@, funcs@.len() as int), symbols@, j as int),
        decreases symbols@.len() - j,
    {
        let n = symbols[j].name.clone();
        k.insert(symbols[j].address, n);
        assert(name_views(k@) =~= sym_names(func_names(funcs@, funcs@.len() as int), symbols@, j + 1));
        j = j + 1;
    }
    k
}

/// The first function starting at `a`, if any.
pub open spec fn first_at(fs: Seq<FunctionEntry>, a: u32, i: int) -> Option<int>
    decreases fs.len() - i,
{
    if i < 0 || i >= fs.len() { None } else if fs[i].start == a { Some(i) } else { first_at(fs, a, i + 1) }
}

/// Where decompilation of `entry` stops: the end of the first function
/// starting there when it has one, else the end of the section.
pub open spec fn decompile_end(fs: Seq<FunctionEntry>, entry: u32, sec_end: u32) -> u32 {
    match first_at(fs, entry, 0) {
        Some(i) => if fs[i].end > 0 { fs[i].end } else { sec_end },
        None => sec_end,
    }
}

/// The decompilation of a CFG with the given name map, as the decompiler
/// renders it.
pub open spec fn rendered(d: DecompileResult, c: FunctionCfg, known: Map<u32, String>) -> bool {
    exists|ks: Seq<u32>| #[trigger] sorted_dom(ks, c.blocks@.dom())
        && d.pseudocode@ == header_text(c.entry, c.blocks@.dom().len(), known)
            + blocks_text(ks, c.blocks@, label_set(c.edges@), known) + "}\n"@
        && d.stmt_count == instr_count(ks, c.blocks@)
}

/// `d` is the decompilation of `entry` from section `s` of an image whose
/// functions are `fs` and whose name map (as text) is `names`: a control-flow
/// graph of the code from `entry` to its end, rendered with those names.
pub open spec fn decompiled_from(d: DecompileResult, s: ElfSection, fs: Seq<FunctionEntry>, names: Map<u32, Seq<char>>, entry: u32, le: bool) -> bool {
    let end = decompile_end(fs, entry, (s.address + s.data@.len()) as u32);
    &&& d.entry == entry
    &&& exists|c: FunctionCfg, known: Map<u32, String>| #![trigger rendered(d, c, known)]
        name_views(known) == names && d.name@ == func_name(entry, known)
        && built_cfg(c, s.data@, s.address, entry, end, le)
        && d.block_count == c.blocks@.dom().len() && rendered(d, c, known)
}

/// The CFG built for the function `[start, end)` of section `s` holds more
/// statements than a `usize` counts.
pub open spec fn too_large(s: ElfSection, start: u32, end: u32, le: bool) -> bool {
    exists|c: FunctionCfg| #[trigger] built_cfg(c, s.data@, s.address, start, end, le)
        && forall|ks: Seq<u32>| crate::decomp::sorted_dom(ks, c.blocks@.dom()) ==> crate::decomp::instr_count(ks, c.blocks@) > usize::MAX
}

/// Every executable section's range leaves room past its last word.
pub open spec fn exec_sections_roomy(secs: Seq<ElfSection>) -> bool {
    forall|i: int| 0 <= i < secs.len() && is_exec(#[trigger] secs[i]) ==> section_fits(secs[i].address, secs[i].data@.len() as int)
}

fn first_at_exec(funcs: &[FunctionEntry], a: u32) -> (r: Option<usize>)
    ensures
        r matches Some(i) ==> i < funcs@.len() && first_at(funcs@, a, 0) == Some(i as int),
        r is None ==> first_at(funcs@, a, 0) is None,
{
    let mut i: usize = 0;
    while i < funcs.len()
        invariant
            i <= funcs@.len(),
            first_at(funcs@, a, 0) == first_at(funcs@, a, i as int),
        decreases funcs@.len() - i,
    {
        if funcs[i].start == a {
            return Some(i);
        }
        i = i + 1;
    }
    None
}

fn decompile_in(sec: &ElfSection, funcs: &[FunctionEntry], entry: u32, le: bool, known: &BTreeMap<u32, String>)
    -> (r: Result<DecompileResult, String>)
    requires
        section_fits(sec.address, sec.data@.len() as int),
    ensures
        r matches Ok(d) ==> decompiled_from(d, *sec, funcs@, name_views(known@), entry, le),
        r matches Err(e) ==> e@ == "function too large to decompile"@
            && too_large(*sec, entry, decompile_end(funcs@, entry, (sec.address + sec.data@.len()) as u32), le),
{
    let len32: u32 = sec.data.len() as u32;
    assert(len32 == sec.data@.len());
    let sec_end: u32 = sec.address + len32;
    assert(sec_end == (sec.address + sec.data@.len()) as u32);
    let end = match first_at_exec(funcs, entry) {
        Some(i) => if funcs[i].end > 0 { funcs[i].end } else { sec_end },
        None => sec_end,
    };
    let cfg = build_function_cfg(&sec.data, sec.address, entry, end, le);
    proof {
        assert forall|k: u32, j: int| cfg.blocks@.contains_key(k) && 0 <= j < cfg.blocks@[k].instrs@.len()
            implies #[trigger] cfg.blocks@[k].instrs@[j].0 + 4 <= u32::MAX by {
            assert(crate::cfg::block_wf(sec.data@, sec.address, le, cfg.blocks@[k]));
            assert(cfg.blocks@[k].instrs@[j] == ((cfg.blocks@[k].start + 4 * j) as u32,
                crate::cfg::word_at(sec.data@, cfg.blocks@[k].start - sec.address + 4 * j, le)));
        }
    }
    assert(end == decompile_end(funcs@, entry, (sec.address + sec.data@.len()) as u32));
    match cfg_instr_total(&cfg) {
        None => {
            assert(built_cfg(cfg, sec.data@, sec.address, entry, end, le));
            Err(owned("function too large to decompile"))
        },
        Some(_) => {
            let name = match known.get(&entry) {
                Some(n) => n.clone(),
                None => {
                    let mut s = owned("sub_");
                    push_hex_fixed(&mut s, entry, 8);
                    s
                },
            };
            let d = decompile_function(&cfg, &sec.data, sec.address, le, known);
            let r = DecompileResult {
                entry,
                name,
                pseudocode: d.pseudocode,
                block_count: d.block_count,
                stmt_count: d.stmt_count,
            };
            assert(rendered(r, cfg, known@));
            assert(end == decompile_end(funcs@, entry, (sec.address + sec.data@.len()) as u32));
            assert(r.name@ == func_name(entry, known@));
            assert(built_cfg(cfg, sec.data@, sec.address, entry, end, le));
            assert(decompiled_from(r, *sec, funcs@, name_views(known@), entry, le));
            Ok(r)
        },
    }
}

/// Decompile the function at `entry` in the executable section that holds
/// it, naming calls after the detected functions and the symbols.
pub fn decompile_at(info: &ElfFileInfo, funcs: &[FunctionEntry], entry: u32) -> (r: Result<DecompileResult, String>)
    requires
        exec_sections_roomy(info.sections@),
    ensures
        match holding_section(info.sections@, entry) {
            None => r matches Err(e) && e@ == "No executable section contains 0x"@ + hex_fixed(entry as nat, 8),
            Some(i) => match r {
                Ok(d) => decompiled_from(d, info.sections@[i], funcs@, known_names(funcs@, info.symbols@), entry, info.is_little_endian),
                Err(e) => e@ == "function too large to decompile"@ && too_large(info.sections@[i], entry,
                    decompile_end(funcs@, entry, (info.sections@[i].address + info.sections@[i].data@.len()) as u32),
                    info.is_little_endian),
            },
        },
{
    assert(exec_sections_fit(info.sections@));
    let known = build_known(funcs, &info.symbols);
    match find_holding(&info.sections, entry) {
        None => {
            let mut e = owned("No executable section contains 0x");
            push_hex_fixed(&mut e, entry, 8);
            Err(e)
        },
        Some(i) => {
            proof {
                lemma_holding(info.sections@, entry);
            }
            decompile_in(&info.sections[i], funcs, entry, info.is_little_endian, &known)
        },
    }
}

proof fn lemma_holding(secs: Seq<ElfSection>, a: u32)
    ensures
        holding_section(secs, a) matches Some(i) ==> 0 <= i < secs.len() && is_exec(secs[i]),
{
    if exists|i: int| 0 <= i < secs.len() && is_exec(#[trigger] secs[i]) && crate::engine::in_section(secs[i], a) {
        let c = choose|i: int| 0 <= i < secs.len() && is_exec(#[trigger] secs[i]) && crate::engine::in_section(secs[i], a)
            && forall|j: int| 0 <= j < i ==> !(is_exec(#[trigger] secs[j]) && crate::engine::in_section(secs[j], a));
        let w = choose|i: int| 0 <= i < secs.len() && is_exec(#[trigger] secs[i]) && crate::engine::in_section(secs[i], a);
        lemma_first_holding(secs, a, w);
    }
}

proof fn lemma_first_holding(secs: Seq<ElfSection>, a: u32, w: int)
    requires
        0 <= w < secs.len(),
        is_exec(secs[w]) && crate::engine::in_section(secs[w], a),
    ensures
        exists|i: int| 0 <= i < secs.len() && is_exec(#[trigger] secs[i]) && crate::engine::in_section(secs[i], a)
            && forall|j: int| 0 <= j < i ==> !(is_exec(#[trigger] secs[j]) && crate::engine::in_section(secs[j], a)),
    decreases w,
{
    if exists|j: int| 0 <= j < w && is_exec(#[trigger] secs[j]) && crate::engine::in_section(secs[j], a) {
        let j = choose|j: int| 0 <= j < w && is_exec(#[trigger] secs[j]) && crate::engine::in_section(secs[j], a);
        lemma_first_holding(secs, a, j);
    } else {
        assert(forall|j: int| 0 <= j < w ==> !(is_exec(#[trigger] secs[j]) && crate::engine::in_section(secs[j], a)));
    }
}

/// The (section, function) pairs of the functions that start inside
/// section `i`, when it is executable, among the first `n` functions.
pub open spec fn sec_pairs(secs: Seq<ElfSection>, fs: Seq<FunctionEntry>, i: int, n: int) -> Seq<(int, int)>
    decreases n,
{
    if n <= 0 {
        Seq::empty()
    } else {
        sec_pairs(secs, fs, i, n - 1) + if is_exec(secs[i]) && crate::engine::in_section(secs[i], fs[n - 1].start) {
            seq![(i, n - 1)]
        } else {
            Seq::empty()
        }
    }
}

/// The (section, function) pairs over the first `m` sections, in order.
pub open spec fn all_pairs(secs: Seq<ElfSection>, fs: Seq<FunctionEntry>, m: int) -> Seq<(int, int)>
    decreases m,
{
    if m <= 0 { Seq::empty() } else { all_pairs(secs, fs, m - 1) + sec_pairs(secs, fs, m - 1, fs.len() as int) }
}

/// `d` decompiles function `f` of section `s`: from its start to its end
/// (the section's end when it has none), named after the function.
pub open spec fn decompiled_fn(d: DecompileResult, s: ElfSection, f: FunctionEntry, names: Map<u32, Seq<char>>, le: bool) -> bool {
    &&& d.entry == f.start
    &&& d.name@ == f.name@
    &&& exists|c: FunctionCfg, known: Map<u32, String>| #![trigger rendered(d, c, known)]
        name_views(known) == names && built_cfg(c, s.data@, s.address, f.start, fn_end(s, f), le)
        && d.block_count == c.blocks@.dom().len() && rendered(d, c, known)
}

/// Where function `f` of section `s` ends: its end, or the section's end when it has none.
pub open spec fn fn_end(s: ElfSection, f: FunctionEntry) -> u32 {
    if f.end > 0 { f.end } else { (s.address + s.data@.len()) as u32 }
}

/// The pairs among the first `n` functions lead those among the first `n2`.
proof fn lemma_sec_prefix(secs: Seq<ElfSection>, fs: Seq<FunctionEntry>, i: int, n: int, n2: int)
    requires
        0 <= n <= n2,
    ensures
        sec_pairs(secs, fs, i, n).len() <= sec_pairs(secs, fs, i, n2).len(),
        forall|j: int| 0 <= j < sec_pairs(secs, fs, i, n).len() ==> #[trigger] sec_pairs(secs, fs, i, n2)[j] == sec_pairs(secs, fs, i, n)[j],
    decreases n2 - n,
{
    if n < n2 {
        lemma_sec_prefix(secs, fs, i, n, n2 - 1);
    }
}

/// The pairs of the first `m` sections lead those of the first `m2`.
proof fn lemma_pairs_prefix(secs: Seq<ElfSection>, fs: Seq<FunctionEntry>, m: int, m2: int)
    requires
        0 <= m <= m2,
    ensures
        all_pairs(secs, fs, m).len() <= all_pairs(secs, fs, m2).len(),
        forall|j: int| 0 <= j < all_pairs(secs, fs, m).len() ==> #[trigger] all_pairs(secs, fs, m2)[j] == all_pairs(secs, fs, m)[j],
    decreases m2 - m,
{
    if m < m2 {
        lemma_pairs_prefix(secs, fs, m, m2 - 1);
        assert forall|j: int| 0 <= j < all_pairs(secs, fs, m2 - 1).len() implies #[trigger] all_pairs(secs, fs, m2)[j]
            == all_pairs(secs, fs, m2 - 1)[j] by {
            if m2 > 0 {
                assert(all_pairs(secs, fs, m2) == all_pairs(secs, fs, m2 - 1) + sec_pairs(secs, fs, m2 - 1, fs.len() as int));
            }
        }
    }
}

pub open spec fn min_nat(a: nat, b: nat) -> nat {
    if a <= b { a } else { b }
}

/// Decompile the functions of every executable section in order, at most
/// `max` of them (500 when not given).
pub fn decompile_all(info: &ElfFileInfo, funcs: &[FunctionEntry], max: Option<usize>) -> (r: Result<DecompileAllResult, String>)
    requires
        exec_sections_roomy(info.sections@),
    ensures
        r matches Err(e) ==> e@ == "function too large to decompile"@ && ({
            let ps = all_pairs(info.sections@, funcs@, info.sections@.len() as int);
            let limit = match max { Some(m) => m as nat, None => 500nat };
            exists|j: int| 0 <= j < min_nat(limit, ps.len()) && #[trigger] too_large(info.sections@[ps[j].0],
                funcs@[ps[j].1].start, fn_end(info.sections@[ps[j].0], funcs@[ps[j].1]), info.is_little_endian)
        }),
        r matches Ok(res) ==> ({
            let ps = all_pairs(info.sections@, funcs@, info.sections@.len() as int);
            let limit = match max { Some(m) => m as nat, None => 500nat };
            &&& res.total == res.functions@.len()
            &&& res.functions@.len() == min_nat(limit, ps.len())
            &&& forall|j: int| 0 <= j < res.functions@.len() ==> decompiled_fn(#[trigger] res.functions@[j],
                info.sections@[ps[j].0], funcs@[ps[j].1], known_names(funcs@, info.symbols@), info.is_little_endian)
        }),
{
    let known = build_known(funcs, &info.symbols);
    let ghost names = known_names(funcs@, info.symbols@);
    let ghost secs = info.sections@;
    let ghost le = info.is_little_endian;
    let limit: usize = match max { Some(m) => m, None => 500 };
    let mut results: Vec<DecompileResult> = Vec::new();
    let mut si: usize = 0;
    while si < info.sections.len()
        invariant
            si <= secs.len(),
            secs == info.sections@,
            le == info.is_little_endian,
            names == name_views(known@),
            exec_sections_roomy(secs),
            limit == match max { Some(m) => m as nat, None => 500nat },
            results@.len() == min_nat(limit as nat, all_pairs(secs, funcs@, si as int).len()),
            forall|j: int| 0 <= j < results@.len() ==> decompiled_fn(#[trigger] results@[j],
                secs[all_pairs(secs, funcs@, si as int)[j].0], funcs@[all_pairs(secs, funcs@, si as int)[j].1], names, le),
        decreases secs.len() - si,
    {
        let sec = &info.sections[si];
        let ghost base = all_pairs(secs, funcs@, si as int);
        let mut k: usize = 0;
        while k < funcs.len()
            invariant
                si < secs.len(),
                *sec == secs[si as int],
                base == all_pairs(secs, funcs@, si as int),
                secs == info.sections@,
                limit == match max { Some(m) => m as nat, None => 500nat },
                k <= funcs@.len(),
                le == info.is_little_endian,
                names == name_views(known@),
                exec_sections_roomy(secs),
                results@.len() == min_nat(limit as nat, (base + sec_pairs(secs, funcs@, si as int, k as int)).len()),
                forall|j: int| 0 <= j < results@.len() ==> decompiled_fn(#[trigger] results@[j],
                    secs[(base + sec_pairs(secs, funcs@, si as int, k as int))[j].0],
                    funcs@[(base + sec_pairs(secs, funcs@, si as int, k as int))[j].1], names, le),
                forall|q: int| 0 <= q < sec_pairs(secs, funcs@, si as int, k as int).len()
                    ==> (#[trigger] sec_pairs(secs, funcs@, si as int, k as int)[q]).0 == si
                        && 0 <= sec_pairs(secs, funcs@, si as int, k as int)[q].1 < k,
            decreases funcs@.len() - k,
        {
            let ghost prev = base + sec_pairs(secs, funcs@, si as int, k as int);
            let f = &funcs[k];
            let exec = sec.flags & 4 != 0;
            assert(exec == is_exec(secs[si as int]));
            let inside = exec && f.start >= sec.address && (f.start as usize) < sec.address as usize + sec.data.len();
            assert(inside == (is_exec(secs[si as int]) && crate::engine::in_section(secs[si as int], f.start)));
            assert(base + sec_pairs(secs, funcs@, si as int, k + 1) =~= prev + if inside { seq![(si as int, k as int)] } else { Seq::empty() });
            if inside && results.len() < limit {
                assert(section_fits(sec.address, sec.data@.len() as int));
                let len32: u32 = sec.data.len() as u32;
                let sec_end: u32 = sec.address + len32;
                let end = if f.end > 0 { f.end } else { sec_end };
                let cfg = build_function_cfg(&sec.data, sec.address, f.start, end, info.is_little_endian);
                proof {
                    assert forall|b: u32, j: int| cfg.blocks@.contains_key(b) && 0 <= j < cfg.blocks@[b].instrs@.len()
                        implies #[trigger] cfg.blocks@[b].instrs@[j].0 + 4 <= u32::MAX by {
                        assert(crate::cfg::block_wf(sec.data@, sec.address, le, cfg.blocks@[b]));
                        assert(cfg.blocks@[b].instrs@[j] == ((cfg.blocks@[b].start + 4 * j) as u32,
                            crate::cfg::word_at(sec.data@, cfg.blocks@[b].start - sec.address + 4 * j, le)));
                    }
                }
                if cfg_instr_total(&cfg).is_none() {
                    proof {
                        let nx = base + sec_pairs(secs, funcs@, si as int, k + 1);
                        let j = prev.len() as int;
                        assert(nx[j] == (si as int, k as int));
                        assert(end == fn_end(secs[si as int], funcs@[k as int]));
                        assert(built_cfg(cfg, sec.data@, sec.address, f.start, end, le));
                        assert(too_large(secs[nx[j].0], funcs@[nx[j].1].start, fn_end(secs[nx[j].0], funcs@[nx[j].1]), le));
                        lemma_sec_prefix(secs, funcs@, si as int, k + 1, funcs@.len() as int);
                        let ap = all_pairs(secs, funcs@, si + 1);
                        assert(ap == base + sec_pairs(secs, funcs@, si as int, funcs@.len() as int));
                        assert(ap[j] == nx[j]);
                        lemma_pairs_prefix(secs, funcs@, si as int + 1, secs.len() as int);
                        assert(all_pairs(secs, funcs@, secs.len() as int)[j] == nx[j]);
                        assert(j < min_nat(limit as nat, all_pairs(secs, funcs@, secs.len() as int).len()));
                    }
                    return Err(owned("function too large to decompile"));
                }
                let d = decompile_function(&cfg, &sec.data, sec.address, info.is_little_endian, &known);
                let item = DecompileResult {
                    entry: f.start,
                    name: f.name.clone(),
                    pseudocode: d.pseudocode,
                    block_count: d.block_count,
                    stmt_count: d.stmt_count,
                };
                assert(rendered(item, cfg, known@));
                assert(end == fn_end(secs[si as int], funcs@[k as int]));
                assert(built_cfg(cfg, sec.data@, sec.address, f.start, end, le));
                assert(decompiled_fn(item, secs[si as int], funcs@[k as int], names, le));
                let ghost r0 = results@;
                results.push(item);
                proof {
                    let nx = base + sec_pairs(secs, funcs@, si as int, k + 1);
                    assert(r0.len() == prev.len());
                    assert forall|j: int| 0 <= j < results@.len() implies decompiled_fn(#[trigger] results@[j],
                        secs[nx[j].0], funcs@[nx[j].1], names, le) by {
                        if j < r0.len() {
                            assert(results@[j] == r0[j]);
                            assert(nx[j] == prev[j]);
                        } else {
                            assert(nx[j] == (si as int, k as int));
                        }
                    }
                }
            } else {
                proof {
                    let nx = base + sec_pairs(secs, funcs@, si as int, k + 1);
                    assert forall|j: int| 0 <= j < results@.len() implies decompiled_fn(#[trigger] results@[j],
                        secs[nx[j].0], funcs@[nx[j].1], names, le) by {
                        assert(nx[j] == prev[j]);
                    }
                }
            }
            proof {
                let sp = sec_pairs(secs, funcs@, si as int, k + 1);
                assert forall|q: int| 0 <= q < sp.len() implies (#[trigger] sp[q]).0 == si && 0 <= sp[q].1 < k + 1 by {
                    if q < sec_pairs(secs, funcs@, si as int, k as int).len() {
                        assert(sp[q] == sec_pairs(secs, funcs@, si as int, k as int)[q]);
                    }
                }
            }
            k = k + 1;
        }
        assert(all_pairs(secs, funcs@, si + 1) == base + sec_pairs(secs, funcs@, si as int, funcs@.len() as int));
        si = si + 1;
    }
    let total = results.len();
    Ok(DecompileAllResult { functions: results, total })
}

} // verus!

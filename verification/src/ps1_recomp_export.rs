//! The recompilation configuration of a PS1 binary: its sections (name,
//! address, size) and its functions (address, name).
use vstd::prelude::*;
use crate::engine::ElfSection;
use crate::ps1_call_graph_enhanced::name_view;
use crate::text::owned;

verus! {

/// A function entry of the configuration.
#[derive(Debug)]
pub struct RecompFunctionEntry {
    pub address: u32,
    pub name: Option<String>,
    pub size: usize,
}

/// A section descriptor of the configuration.
#[derive(Debug)]
pub struct RecompSectionInfo {
    pub name: String,
    pub address: u32,
    pub size: usize,
}

/// The configuration document.
#[derive(Debug)]
pub struct RecompConfig {
    pub binary_name: String,
    pub sections: Vec<RecompSectionInfo>,
    pub functions: Vec<RecompFunctionEntry>,
    pub function_count: usize,
}

pub open spec fn recomp_section_view(s: RecompSectionInfo) -> (Seq<char>, u32, usize) {
    (s.name@, s.address, s.size)
}

pub open spec fn recomp_function_view(f: RecompFunctionEntry) -> (u32, Option<Seq<char>>, usize) {
    (f.address, name_view(f.name), f.size)
}

fn clone_name(o: &Option<String>) -> (r: Option<String>)
    ensures
        name_view(r) == name_view(*o),
{
    match o {
        Some(s) => Some(s.clone()),
        None => None,
    }
}

/// The configuration of `binary_name`: each section's name, address and
/// byte count, and each function `(address, name)` with size 0, in order.
pub fn generate_recomp_config(
    binary_name: &str,
    sections: &[ElfSection],
    functions: &[(u32, Option<String>)],
) -> (r: RecompConfig)
    ensures
        r.binary_name@ == binary_name@,
        r.sections@.map_values(|s: RecompSectionInfo| recomp_section_view(s)) == sections@.map_values(
            |s: ElfSection| (s.name@, s.address, s.data@.len() as usize),
        ),
        r.functions@.map_values(|f: RecompFunctionEntry| recomp_function_view(f)) == functions@.map_values(
            |f: (u32, Option<String>)| (f.0, name_view(f.1), 0usize),
        ),
        r.function_count == functions@.len(),
{
    let mut infos: Vec<RecompSectionInfo> = Vec::new();
    let mut k: usize = 0;
    while k < sections.len()
        invariant
            k <= sections@.len(),
            infos@.map_values(|s: RecompSectionInfo| recomp_section_view(s)) == sections@.take(k as int).map_values(
                |s: ElfSection| (s.name@, s.address, s.data@.len() as usize),
            ),
        decreases sections@.len() - k,
    {
        let s = &sections[k];
        let info = RecompSectionInfo { name: s.name.clone(), address: s.address, size: s.data.len() };
        let ghost before = infos@.map_values(|s: RecompSectionInfo| recomp_section_view(s));
        infos.push(info);
        assert(infos@.map_values(|s: RecompSectionInfo| recomp_section_view(s)) =~= sections@.take(k + 1).map_values(
            |s: ElfSection| (s.name@, s.address, s.data@.len() as usize),
        )) by {
            assert(infos@.map_values(|s: RecompSectionInfo| recomp_section_view(s)) =~= before.push(recomp_section_view(info)));
        }
        k = k + 1;
    }
    assert(sections@.take(k as int) =~= sections@);
    let mut entries: Vec<RecompFunctionEntry> = Vec::new();
    let mut k: usize = 0;
    while k < functions.len()
        invariant
            k <= functions@.len(),
            entries@.map_values(|f: RecompFunctionEntry| recomp_function_view(f)) == functions@.take(k as int).map_values(
                |f: (u32, Option<String>)| (f.0, name_view(f.1), 0usize),
            ),
        decreases functions@.len() - k,
    {
        let e = RecompFunctionEntry { address: functions[k].0, name: clone_name(&functions[k].1), size: 0 };
        let ghost before = entries@.map_values(|f: RecompFunctionEntry| recomp_function_view(f));
        entries.push(e);
        assert(entries@.map_values(|f: RecompFunctionEntry| recomp_function_view(f)) =~= functions@.take(k + 1).map_values(
            |f: (u32, Option<String>)| (f.0, name_view(f.1), 0usize),
        )) by {
            assert(entries@.map_values(|f: RecompFunctionEntry| recomp_function_view(f)) =~= before.push(recomp_function_view(e)));
        }
        k = k + 1;
    }
    assert(functions@.take(k as int) =~= functions@);
    let function_count = entries.len();
    RecompConfig { binary_name: owned(binary_name), sections: infos, functions: entries, function_count }
}

/// The configuration, as `generate_recomp_config` builds it; never fails.
pub fn generate_ps1_recomp_config(
    binary_name: String,
    sections: Vec<ElfSection>,
    functions: Vec<(u32, Option<String>)>,
) -> (r: Result<RecompConfig, String>)
    ensures
        r matches Ok(c) && c.binary_name@ == binary_name@ && c.sections@.map_values(
            |s: RecompSectionInfo| recomp_section_view(s),
        ) == sections@.map_values(|s: ElfSection| (s.name@, s.address, s.data@.len() as usize))
            && c.functions@.map_values(|f: RecompFunctionEntry| recomp_function_view(f)) == functions@.map_values(
            |f: (u32, Option<String>)| (f.0, name_view(f.1), 0usize),
        ) && c.function_count == functions@.len(),
{
    Ok(generate_recomp_config(binary_name.as_str(), sections.as_slice(), functions.as_slice()))
}

} // verus!

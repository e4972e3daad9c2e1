use aura_decomp::cfg::build_function_cfg;
use aura_decomp::reports::{summarize_cfgs, xrefs_to};
use aura_decomp::engine::{ElfFileInfo, ElfSymbol, FunctionEntry};
use aura_decomp::reports::{config_export, decompile_all, decompile_at, functions_csv};
use aura_decomp::engine::ElfSection;
use aura_decomp::naming::scan_sce_sdk_matches;
use aura_decomp::sce_symbol_scanner::SceSymbolDatabase;
fn le_words(ws: &[u32]) -> Vec<u8> {
    ws.iter().flat_map(|w| w.to_le_bytes()).collect()
}

#[test]
fn summary_counts_blocks_edges_and_returns() {
    // jal 0x1010; nop; jr $ra; nop
    let data = le_words(&[0x0C00_0404, 0, 0x03E0_0008, 0]);
    let cfg = build_function_cfg(&data, 0x1000, 0x1000, 0x1010, true);
    let s = summarize_cfgs(&[cfg.clone()]);
    assert_eq!(s.functions.len(), 1);
    assert_eq!(s.functions[0].entry, 0x1000);
    assert_eq!(s.functions[0].blocks, cfg.blocks.len());
    assert_eq!(s.functions[0].edges, cfg.edges.len());
    assert!(s.functions[0].returns);
    assert_eq!(s.total_blocks, cfg.blocks.len());
    assert_eq!(s.total_edges, cfg.edges.len());
    assert_eq!(s.returning_functions, 1);
    assert!(s.xref_targets >= 1);
}

#[test]
fn xrefs_to_lists_the_call() {
    let data = le_words(&[0x0C00_0404, 0, 0x03E0_0008, 0]);
    let cfg = build_function_cfg(&data, 0x1000, 0x1000, 0x1010, true);
    let r = xrefs_to(&[cfg], 0x1010);
    assert_eq!(r.target, 0x1010);
    assert_eq!(r.refs.len(), 1);
    assert_eq!(r.refs[0].from, 0x1000);
    assert_eq!(r.refs[0].kind, "call");
    let none = xrefs_to(&[], 0x1010);
    assert!(none.refs.is_empty());
}

#[test]
fn empty_summary_is_all_zero() {
    let s = summarize_cfgs(&[]);
    assert!(s.functions.is_empty());
    assert_eq!((s.total_blocks, s.total_edges, s.returning_functions, s.xref_targets), (0, 0, 0, 0));
}


fn fe(name: &str, start: u32, end: u32) -> FunctionEntry {
    FunctionEntry { name: name.to_string(), start, end, size: end - start }
}

#[test]
fn csv_lists_functions_in_order() {
    let csv = functions_csv(&[fe("sub_00100000", 0x0010_0000, 0x0010_01A0), fe("main", 0x0010_01A0, 0x0010_0200)]);
    assert_eq!(
        csv,
        "Name,Start,End,Size\nsub_00100000,0x00100000,0x001001A0,416\nmain,0x001001A0,0x00100200,96\n"
    );
    assert_eq!(functions_csv(&[]), "Name,Start,End,Size\n");
}

#[test]
fn config_export_counts_and_paths() {
    let info = ElfFileInfo {
        filename: "game.elf".to_string(),
        sections: vec![],
        symbols: vec![
            ElfSymbol { name: "main".to_string(), address: 0x100, size: 0x20, section: ".text".to_string() },
            ElfSymbol { name: "label".to_string(), address: 0x140, size: 0, section: ".text".to_string() },
        ],
        entry_point: 0x100,
        file_size: 0x400,
        is_little_endian: true,
        is_32bit: true,
        relocations: vec![],
    };
    let funcs = vec![fe("main", 0x100, 0x120), fe("sub_00000120", 0x120, 0x140), fe("printf", 0x140, 0x160), fe("main", 0x160, 0x170)];
    let r = config_export("/games/game.elf", "/out//", &info, &funcs);
    assert_eq!(r.csv_path, "/out/functions.csv");
    assert_eq!(r.toml_path, "/out/config.toml");
    assert_eq!(r.function_count, 4);
    assert_eq!(r.from_symbols, 1);
    assert_eq!(r.from_jal_heuristic, 3);
    assert_eq!(r.sce_sdk_named, 3);
    assert_eq!(r.relocation_count, 0);
    assert_eq!(r.csv, functions_csv(&funcs));
    assert!(r.toml.contains("ghidra_output = \"/out/functions.csv\""));
    assert!(r.toml.contains("\"main\""));
    assert!(r.toml.contains("\"printf\""));
    assert_eq!(r.toml.matches("    \"main\",").count(), 1);
    assert!(r.toml.find("    \"main\",").unwrap() < r.toml.find("    \"printf\",").unwrap());
}

#[test]
fn sce_scan_reads_only_executable_sections() {
    let db = SceSymbolDatabase::new(Vec::new()).unwrap();
    let secs = vec![ElfSection {
        name: ".text".to_string(),
        address: 0x1000,
        size: 8,
        offset: 0,
        data: vec![0; 8],
        flags: 6,
    }];
    assert!(scan_sce_sdk_matches(&db, &secs).is_empty());
}

fn code_image() -> ElfFileInfo {
    // 0x1000: jal 0x1010; nop; jr $ra; nop   0x1010: jr $ra; nop
    let data = le_words(&[0x0C00_0404, 0, 0x03E0_0008, 0, 0x03E0_0008, 0]);
    ElfFileInfo {
        filename: "t.elf".to_string(),
        sections: vec![ElfSection { name: ".text".to_string(), address: 0x1000, size: 24, offset: 0, data, flags: 6 }],
        symbols: vec![ElfSymbol { name: "helper".to_string(), address: 0x1010, size: 8, section: ".text".to_string() }],
        entry_point: 0x1000,
        file_size: 24,
        is_little_endian: true,
        is_32bit: true,
        relocations: vec![],
    }
}

#[test]
fn decompile_at_names_and_renders_the_function() {
    let info = code_image();
    let funcs = vec![fe("main", 0x1000, 0x1010), fe("helper", 0x1010, 0x1018)];
    let d = decompile_at(&info, &funcs, 0x1000).unwrap();
    assert_eq!(d.entry, 0x1000);
    assert_eq!(d.name, "main");
    assert!(d.pseudocode.starts_with("// Decompiled from 0x00001000 ("));
    assert!(d.pseudocode.contains("void main() {"));
    assert!(d.pseudocode.contains("helper"));
    assert!(d.pseudocode.contains("return;"));
    assert!(d.block_count >= 1);
    let unnamed = decompile_at(&info, &[], 0x1010).unwrap();
    assert_eq!(unnamed.name, "helper");
    let none = decompile_at(&info, &[], 0x2000).unwrap_err();
    assert_eq!(none, "No executable section contains 0x00002000");
}

#[test]
fn decompile_all_respects_the_limit() {
    let info = code_image();
    let funcs = vec![fe("main", 0x1000, 0x1010), fe("helper", 0x1010, 0x1018), fe("far", 0x9000, 0x9010)];
    let all = decompile_all(&info, &funcs, None).unwrap();
    assert_eq!(all.total, 2);
    assert_eq!(all.functions[0].name, "main");
    assert_eq!(all.functions[1].entry, 0x1010);
    let one = decompile_all(&info, &funcs, Some(1)).unwrap();
    assert_eq!(one.total, 1);
    assert_eq!(one.functions[0].entry, 0x1000);
}

use aura_decomp::cfg::{build_function_cfg, build_xref_index, XrefKind};
use aura_decomp::engine::{
    build_call_graph, detect_functions_in_sections, toml_basic_string, CallKind, ElfFileInfo, ElfSection, ElfSymbol,
    FunctionEntry, RawCallEdge,
};
use aura_decomp::naming::detect_functions_inner;
use aura_decomp::sce_symbol_scanner::SceSymbolMatch;

fn words_le(words: &[u32]) -> Vec<u8> {
    let mut v = Vec::new();
    for w in words {
        v.extend_from_slice(&w.to_le_bytes());
    }
    v
}

#[test]
fn toml_basic_string_reads_back_through_a_parser() {
    let plain = "tab\there \u{1} del\u{7f} quote\" back\\slash é";
    let quoted = toml_basic_string(plain);
    assert!(quoted.contains("\\u0001"));
    assert!(quoted.contains("\\u007F"));
    assert!(quoted.contains("\\u0009"));
    let doc = format!("v = {}\n", quoted);
    let parsed: toml::Value = toml::from_str(&doc).expect("valid TOML");
    assert_eq!(parsed.get("v").and_then(|v| v.as_str()), Some(plain));
}

#[test]
fn exec_section_is_tiled_by_its_functions() {
    let jal = |target: u32| -> u32 { (0x03u32 << 26) | ((target >> 2) & 0x03FF_FFFF) };
    let mut text = words_le(&[jal(0x100100), 0, jal(0x100200), 0]);
    text.resize(0x300, 0);
    let section = ElfSection {
        name: ".text".into(),
        address: 0x100000,
        size: text.len() as u32,
        offset: 0,
        data: text,
        flags: 0x4,
    };
    let funcs = detect_functions_in_sections(&[section], 0x100000, true);
    let spans: Vec<(u32, u32, u32)> = funcs.iter().map(|f| (f.start, f.end, f.size)).collect();
    assert_eq!(spans, vec![(0x100000, 0x100100, 0x100), (0x100100, 0x100200, 0x100), (0x100200, 0x100300, 0x100)]);
    assert_eq!(funcs[1].name, "sub_00100100");
}

#[test]
fn section_without_starts_is_one_function_from_its_base() {
    let section = ElfSection {
        name: ".text".into(),
        address: 0x200000,
        size: 0x40,
        offset: 0,
        data: vec![0u8; 0x40],
        flags: 0x4,
    };
    let funcs = detect_functions_in_sections(&[section], 0, true);
    assert_eq!(funcs.len(), 1);
    assert_eq!((funcs[0].start, funcs[0].end, funcs[0].size), (0x200000, 0x200040, 0x40));
    assert_eq!(funcs[0].name, "sub_00200000");
}

#[test]
fn call_graph_drops_call_sites_in_gaps() {
    let funcs = vec![
        FunctionEntry { name: "A".into(), start: 0x1000, end: 0x1010, size: 0x10 },
        FunctionEntry { name: "B".into(), start: 0x1020, end: 0x1030, size: 0x10 },
    ];
    let raw = vec![
        RawCallEdge { callsite: 0x1014, target: 0x1020, kind: CallKind::Jal },
        RawCallEdge { callsite: 0x1024, target: 0x1000, kind: CallKind::Jump },
        RawCallEdge { callsite: 0x0ffc, target: 0x1000, kind: CallKind::Jal },
    ];
    let g = build_call_graph(raw, &funcs);
    assert_eq!(g.edges.len(), 1);
    assert_eq!((g.edges[0].from, g.edges[0].to, g.edges[0].callsite), (0x1020, 0x1000, 0x1024));
    assert_eq!(g.edges[0].kind, CallKind::Jump);
    assert!(g.external_targets.is_empty());
}

#[test]
fn detection_uses_sized_symbols_only() {
    let info = ElfFileInfo {
        filename: "t.elf".into(),
        sections: vec![ElfSection {
            name: ".text".into(),
            address: 0x100000,
            size: 0x40,
            offset: 0,
            data: vec![0u8; 0x40],
            flags: 0x4,
        }],
        symbols: vec![
            ElfSymbol { name: "zero".into(), address: 0x100000, size: 0, section: ".text".into() },
            ElfSymbol { name: "main".into(), address: 0x100010, size: 0x20, section: ".text".into() },
        ],
        entry_point: 0x100000,
        file_size: 0,
        is_little_endian: true,
        is_32bit: true,
        relocations: vec![],
    };
    let matches = vec![SceSymbolMatch {
        address: 0x100010,
        size: 8,
        name: "renamed".into(),
        library: "lib".into(),
        hash: "h".into(),
        variant_hash: 0,
    }];
    let funcs = detect_functions_inner(&info, &matches).expect("never fails");
    assert_eq!(funcs.len(), 1);
    assert_eq!(funcs[0].name, "main");
    assert_eq!((funcs[0].start, funcs[0].end, funcs[0].size), (0x100010, 0x100030, 0x20));
}

#[test]
fn xref_index_lists_each_target_in_edge_order() {
    // beq $zero,$zero,+2 at 0x1000 (target 0x100C), then jal 0x2000 at 0x1008.
    let beq = (0x04u32 << 26) | 2;
    let jal = (0x03u32 << 26) | (0x2000 >> 2);
    let data = words_le(&[beq, 0, jal, 0, 0x03E0_0008, 0]);
    let cfg = build_function_cfg(&data, 0x1000, 0x1000, 0x1018, true);
    let idx = build_xref_index(&[cfg.clone(), cfg]);
    let calls = idx.refs_to(0x2000);
    assert_eq!(calls.len(), 2);
    assert!(calls.iter().all(|x| x.kind == XrefKind::Call && x.to == 0x2000));
    let taken = idx.refs_to(0x100C);
    assert!(!taken.is_empty());
    assert!(taken.iter().all(|x| x.kind == XrefKind::Branch));
    assert!(idx.refs_to(0x3000).is_empty());
}

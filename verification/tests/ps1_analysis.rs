use aura_decomp::engine::{
    detect_functions_in_sections, disassemble_gb_data, disassemble_mips_section, toml_basic_string, ElfSection,
    FunctionEntry,
};
use aura_decomp::gamecube::parse_gc_elf;
use aura_decomp::naming::apply_ps1_sdk_names;
use aura_decomp::ps1_analysis::{detect_interrupt_handlers, detect_state_machines, extract_strings, identify_constant_pools};
use aura_decomp::ps1_symbols::scan_ps1_symbol_matches;

fn le_words(words: &[u32]) -> Vec<u8> {
    let mut v = Vec::new();
    for w in words {
        v.extend_from_slice(&w.to_le_bytes());
    }
    v
}

#[test]
fn lui_ori_pair_loads_its_constant() {
    // lui $t0, 0x1234 ; ori $t0, $t0, 0x5678
    let data = le_words(&[0x3C081234, 0x35085678]);
    let out = identify_constant_pools(&data);
    assert_eq!(out.len(), 1);
    assert_eq!(out[0].register, 8);
    assert_eq!(out[0].value, 0x12345678);
    assert_eq!(out[0].lui_offset, 0);
    assert_eq!(out[0].ori_offset, 4);
}

#[test]
fn lui_ori_on_different_registers_is_no_pair() {
    // lui $t0, 0x1234 ; ori $t1, $t1, 0x5678
    let data = le_words(&[0x3C081234, 0x35295678]);
    assert!(identify_constant_pools(&data).is_empty());
}

#[test]
fn sw_ra_with_frame_setup_is_a_handler() {
    // sw $ra, 16($sp) ; addiu $sp, $sp, -24 ; nop ; nop
    let data = le_words(&[0xAFBF0010, 0x27BDFFE8, 0, 0]);
    let out = detect_interrupt_handlers(&data);
    assert_eq!(out.len(), 1);
    assert_eq!(out[0].offset, 0);
    assert_eq!(out[0].size, 16);
    assert_eq!(out[0].reasons, vec!["saves $ra on the stack".to_string(), "adjusts stack frame (addiu $sp)".to_string()]);
}

#[test]
fn sw_ra_with_jalr_dispatch_is_a_handler() {
    // sw $ra, 16($sp) ; nop ; jalr $t0 ; nop
    let data = le_words(&[0xAFBF0010, 0, 0x01000009 | (31 << 11), 0]);
    let out = detect_interrupt_handlers(&data);
    assert_eq!(out.len(), 1);
    assert_eq!(out[0].reasons, vec!["saves $ra on the stack".to_string(), "dispatches via jalr (IRQ dispatch)".to_string()]);
}

#[test]
fn indexed_lw_then_jump_is_a_state_machine() {
    // lw $t0, 8($t1) ; j 0x100 ; nop
    let data = le_words(&[0x8D280008, 0x08000040, 0]);
    let out = detect_state_machines(&data);
    assert_eq!(out.len(), 1);
    assert_eq!(out[0].load_offset, 0);
    assert_eq!(out[0].index_register, 8);
    assert_eq!(out[0].base_register, Some(9));
    assert_eq!(out[0].jump_offset, 4);
    assert_eq!(out[0].estimated_entries, 2);
}

#[test]
fn negative_lw_offset_counts_its_magnitude() {
    // lw $t0, -16($t1) ; j 0x100 ; nop
    let data = le_words(&[0x8D28FFF0, 0x08000040, 0]);
    let out = detect_state_machines(&data);
    assert_eq!(out.len(), 1);
    assert_eq!(out[0].estimated_entries, 4);
}

#[test]
fn strings_are_printable_runs_ending_at_nul() {
    let data = b"ab\x01cd\0efgh".to_vec();
    let out = extract_strings(&data, 2);
    assert_eq!(out.len(), 2);
    assert_eq!(out[0].offset, 3);
    assert_eq!(out[0].value, "cd");
    assert_eq!(out[0].length, 2);
    assert_eq!(out[1].offset, 6);
    assert_eq!(out[1].value, "efgh");
    assert_eq!(out[1].length, 4);
}

#[test]
fn likely_branches_carry_the_delay_slot_note() {
    let data = 0x04820001u32.to_be_bytes().to_vec();
    let out = disassemble_mips_section(data, ".text".to_string(), 0x1000, false).unwrap();
    assert_eq!(out, "Disassembly: .text (4 bytes)\n\n00001000  04820001  BLTZL $a0, 0x00001008 ; delay slot follows\n");
}

#[test]
fn jump_into_another_code_section_starts_a_function() {
    let a = ElfSection {
        name: ".text".to_string(),
        address: 0x100000,
        size: 8,
        offset: 0,
        data: le_words(&[0x0C080002, 0]),
        flags: 4,
    };
    let b = ElfSection { name: ".text2".to_string(), address: 0x200000, size: 16, offset: 0, data: vec![0u8; 16], flags: 4 };
    let funcs = detect_functions_in_sections(&[a, b], 0, true);
    let got: Vec<(String, u32, u32, u32)> = funcs.iter().map(|f| (f.name.clone(), f.start, f.end, f.size)).collect();
    assert_eq!(
        got,
        vec![
            ("sub_00100000".to_string(), 0x100000, 0x100008, 8),
            ("sub_00200008".to_string(), 0x200008, 0x200010, 8),
        ]
    );
}

#[test]
fn sdk_name_in_code_section_renames_function() {
    let sections = vec![ElfSection {
        name: ".text".to_string(),
        address: 0x1000,
        size: 8,
        offset: 0,
        data: b"CdRead\0\0".to_vec(),
        flags: 4,
    }];
    let mut funcs = vec![FunctionEntry { name: "sub_00001000".to_string(), start: 0x1000, end: 0x1008, size: 8 }];
    apply_ps1_sdk_names(&sections, &mut funcs);
    assert_eq!(funcs[0].name, "CdRead");
    assert_eq!((funcs[0].start, funcs[0].end, funcs[0].size), (0x1000, 0x1008, 8));
}

#[test]
fn sdk_name_ending_at_section_end_is_found() {
    let sections = vec![ElfSection {
        name: ".rodata".to_string(),
        address: 0,
        size: 6,
        offset: 0,
        data: b"CdRead".to_vec(),
        flags: 0,
    }];
    let m = scan_ps1_symbol_matches(&sections);
    assert_eq!(m.len(), 1);
    assert_eq!(m[0].symbol, "CdRead");
    assert_eq!(m[0].library, "libcd");
    assert_eq!(m[0].section_index, 0);
    assert_eq!(m[0].section_name, ".rodata");
    assert_eq!(m[0].offset, 0);
}

#[test]
fn gb_listing_stops_after_max_instructions() {
    let s = disassemble_gb_data(vec![0u8; 8], 0, Some(1)).unwrap();
    assert_eq!(s.lines().count(), 3);
}

#[test]
fn gb_ld_bc_reads_the_bytes_after_the_opcode() {
    let s = disassemble_gb_data(vec![0x01, 0x34, 0x12], 0, None).unwrap();
    let lines: Vec<&str> = s.lines().collect();
    assert_eq!(lines.len(), 3);
    assert!(lines[2].contains("ld"));
    assert!(lines[2].ends_with("bc, 0x1234"));
    assert_eq!(lines[2], "00000000  01 34 12  ld       bc, 0x1234");
}

#[test]
fn toml_escapes_del() {
    assert_eq!(toml_basic_string("a\u{7f}b"), "\"a\\u007Fb\"");
    assert_eq!(toml_basic_string(r#"a"b"#), r#""a\"b""#);
}

#[test]
fn gamecube_entry_is_e_entry() {
    let mut data = vec![0u8; 64];
    data[0..4].copy_from_slice(&[0x7f, b'E', b'L', b'F']);
    data[4] = 2;
    data[5] = 1;
    data[24..32].copy_from_slice(&0x80003100u64.to_le_bytes());
    let info = parse_gc_elf(&data).expect("ELF64 parses");
    assert_eq!(info.entry_point, 0x80003100);
    assert!(info.sections.is_empty());
    assert!(info.symbols.is_empty());
    assert!(info.is_little_endian);
}

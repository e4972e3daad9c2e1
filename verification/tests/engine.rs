use aura_decomp::elf::{parse_elf_data, parse_relocations};
use aura_decomp::engine::{
    build_call_graph, build_config_toml, collect_call_edges, detect_functions_in_sections,
    enrich_call_graph_with_relocs, has_delay_slot, identify_data, read_u16, read_u32, refine_end,
    refine_function_boundaries, toml_basic_string, CallKind, ElfFileInfo, ElfSection, FunctionEntry,
    RawCallEdge, Relocation,
};

const R_MIPS_26: u32 = 4;
#[test]
fn parse_elf_data_rejects_too_small() {
    let r = parse_elf_data(&[0u8; 10], "tiny.bin");
    assert!(r.is_err());
}

#[test]
fn parse_elf_data_rejects_bad_magic() {
    let mut buf = vec![0u8; 128];
    buf[0..4].copy_from_slice(b"NOPE");
    let r = parse_elf_data(&buf, "fake.elf");
    assert!(r.is_err());
}

#[test]
fn identify_data_recognizes_elf_classes() {
    // ELF32 LE
    let mut h = [0u8; 8];
    h[0..4].copy_from_slice(&[0x7f, b'E', b'L', b'F']);
    h[4] = 1; h[5] = 1;
    assert_eq!(identify_data(&h), "elf32-le");
    // ELF32 BE
    h[5] = 2;
    assert_eq!(identify_data(&h), "elf32-be");
    // ELF64 LE
    h[4] = 2; h[5] = 1;
    assert_eq!(identify_data(&h), "elf64-le");
    // ELF64 BE
    h[5] = 2;
    assert_eq!(identify_data(&h), "elf64-be");
}

#[test]
fn read_u32_le_and_be_round_trip() {
    let bytes = [0x12u8, 0x34, 0x56, 0x78];
    assert_eq!(read_u32(&bytes, 0, true), 0x78563412);
    assert_eq!(read_u32(&bytes, 0, false), 0x12345678);
}

#[test]
fn read_u16_le_and_be_round_trip() {
    let bytes = [0xABu8, 0xCD];
    assert_eq!(read_u16(&bytes, 0, true), 0xCDAB);
    assert_eq!(read_u16(&bytes, 0, false), 0xABCD);
}

#[test]
fn toml_basic_string_escapes_quotes_and_backslashes() {
    // toml_basic_string returns a TOML basic string, which is wrapped in
    // double quotes, with internal quotes/backslashes escaped.
    assert_eq!(toml_basic_string("a\"b"), "\"a\\\"b\"");
    assert_eq!(toml_basic_string("a\\b"), "\"a\\\\b\"");
}

/// Push a little-endian u32 into a byte buffer.
fn push_u32(buf: &mut Vec<u8>, v: u32) {
    buf.extend_from_slice(&v.to_le_bytes());
}

/// Build a minimal ELF32-LE-MIPS image in memory with:
///   - one .text section
///   - a .symtab (foo @ 0x100000, bar @ 0x100020) + .strtab
///   - a .rel.text with two entries referencing foo and bar
/// Returns (bytes, shoff, shnum, shentsize).
fn build_reloc_elf() -> (Vec<u8>, u32, u16, u16) {
    let mut buf: Vec<u8> = Vec::new();

    // ELF header (52 bytes), filled after layout is known.
    buf.resize(52, 0);
    buf[0..4].copy_from_slice(&[0x7f, b'E', b'L', b'F']);
    buf[4] = 1; // ELFCLASS32
    buf[5] = 1; // ELFDATA2LSB (little-endian)
    buf[6] = 1; // EV_CURRENT
    push_u32(&mut buf, 0x100000); // e_entry (offset 24)

    // .text: 8 bytes of zeros at offset 52.
    let text_off = buf.len();
    buf.extend_from_slice(&[0u8; 8]);

    // .symtab: 3 entries x 16 bytes (null, foo, bar).
    let sym_off = buf.len();
    let sym_entsize = 16u32;
    buf.extend_from_slice(&[0u8; 16]); // null symbol
    // foo: st_name=1, value=0x100000, type FUNC
    push_u32(&mut buf, 1);              // st_name -> "foo"
    push_u32(&mut buf, 0x100000);       // st_value
    push_u32(&mut buf, 0);              // st_size
    buf.extend_from_slice(&[0x12, 0, 1, 0]); // st_info(STB_GLOBAL|STT_FUNC), other, shndx
    // bar: st_name=5, value=0x100020
    push_u32(&mut buf, 5);              // st_name -> "bar"
    push_u32(&mut buf, 0x100020);       // st_value
    push_u32(&mut buf, 0);              // st_size
    buf.extend_from_slice(&[0x12, 0, 1, 0]);
    let sym_size = buf.len() - sym_off;

    // .strtab: "\0foo\0bar\0"
    let str_off = buf.len();
    buf.extend_from_slice(b"\0foo\0bar\0");
    let str_size = buf.len() - str_off;

    // .rel.text: 2 entries x 8 bytes.
    let rel_off = buf.len();
    push_u32(&mut buf, 0);             // r_offset = 0
    push_u32(&mut buf, (1u32 << 8) | 2); // r_info: sym=1 (foo), type=2 (R_MIPS_32)
    push_u32(&mut buf, 4);             // r_offset = 4
    push_u32(&mut buf, (2u32 << 8) | 2); // r_info: sym=2 (bar), type=2
    let rel_size = buf.len() - rel_off;

    // Section headers (40 bytes each). 6 sections.
    while buf.len() % 4 != 0 {
        buf.push(0);
    }
    let shoff = buf.len() as u32;
    let shentsize = 40u16;
    let shnum = 6u16;
    buf.resize(buf.len() + shnum as usize * shentsize as usize, 0);

    let sh = |buf: &mut Vec<u8>, idx: usize, sh_type: u32, sh_addr: u32, sh_off: u32, sh_size: u32, sh_link: u32, sh_info: u32, sh_entsize: u32| {
        let b = shoff as usize + idx * shentsize as usize;
        buf[b..b + 4].copy_from_slice(&0u32.to_le_bytes()); // sh_name (unused)
        buf[b + 4..b + 8].copy_from_slice(&sh_type.to_le_bytes());
        buf[b + 12..b + 16].copy_from_slice(&sh_addr.to_le_bytes());
        buf[b + 16..b + 20].copy_from_slice(&sh_off.to_le_bytes());
        buf[b + 20..b + 24].copy_from_slice(&sh_size.to_le_bytes());
        buf[b + 24..b + 28].copy_from_slice(&sh_link.to_le_bytes());
        buf[b + 28..b + 32].copy_from_slice(&sh_info.to_le_bytes());
        buf[b + 36..b + 40].copy_from_slice(&sh_entsize.to_le_bytes());
    };
    sh(&mut buf, 0, 0, 0, 0, 0, 0, 0, 0);                 // null
    sh(&mut buf, 1, 1, 0, text_off as u32, 8, 0, 0, 0);   // .text PROGBITS, sh_addr=0
    sh(&mut buf, 2, 2, 0, sym_off as u32, sym_size as u32, 3, 0, sym_entsize); // .symtab -> strtab(3)
    sh(&mut buf, 3, 3, 0, str_off as u32, str_size as u32, 0, 0, 0);           // .strtab
    sh(&mut buf, 4, 3, 0, 0, 0, 0, 0, 0);                 // .shstrtab (dummy)
    sh(&mut buf, 5, 9, 0, rel_off as u32, rel_size as u32, 2, 1, 8);           // .rel.text -> symtab(2), applies to .text(1)

    (buf, shoff, shnum, shentsize)
}

#[test]
fn relocation_parser_resolves_symbol_names() {
    let (buf, shoff, shnum, shentsize) = build_reloc_elf();
    let relocs = parse_relocations(&buf, shoff, shnum, shentsize, true /* little-endian */);
    assert_eq!(relocs.len(), 2, "expected 2 relocations");
    // .text's sh_addr is 0 in this synthetic ELF, so the normalized offset
    // (r_offset + sh_addr) equals the raw r_offset.
    assert_eq!(relocs[0].offset, 0);
    assert_eq!(relocs[0].symbol_name, "foo");
    assert_eq!(relocs[0].r_type, 2);
    assert_eq!(relocs[0].symbol, 1);
    assert_eq!(relocs[1].offset, 4);
    assert_eq!(relocs[1].symbol_name, "bar");
    assert_eq!(relocs[1].symbol, 2);
}

/// When the relocation's target section has a non-zero sh_addr (as on real
/// ET_REL homebrew ELFs whose .text loads at 0x100000), `Relocation.offset`
/// must be normalized to absolute (r_offset + sh_addr) so it matches the
/// call graph's absolute callsite addresses.
#[test]
fn relocation_offset_normalized_to_absolute() {
    let (mut buf, shoff, shnum, shentsize) = build_reloc_elf();
    // Move .text's sh_addr from 0 to 0x100000 (offset 12 in section header 1).
    let text_sh = shoff as usize + 1 * shentsize as usize + 12;
    buf[text_sh..text_sh + 4].copy_from_slice(&0x100000u32.to_le_bytes());

    let relocs = parse_relocations(&buf, shoff, shnum, shentsize, true);
    assert_eq!(relocs.len(), 2);
    // Raw r_offsets (0, 4) + .text sh_addr (0x100000) = absolute.
    assert_eq!(relocs[0].offset, 0x100000, "offset not normalized by target sh_addr");
    assert_eq!(relocs[1].offset, 0x100004);
}

#[test]
fn relocation_parser_handles_no_rel_sections() {
    // A buffer with section headers but no REL/RELA sections -> empty result.
    let mut buf = vec![0u8; 200];
    buf[0..4].copy_from_slice(&[0x7f, b'E', b'L', b'F']);
    let shoff = 60u32;
    buf[32..36].copy_from_slice(&shoff.to_le_bytes());
    let shnum = 2u16;
    let shentsize = 40u16;
    buf[46..48].copy_from_slice(&shentsize.to_le_bytes());
    buf[48..50].copy_from_slice(&shnum.to_le_bytes());
    // Two PROGBITS sections (type 1), no REL.
    let relocs = parse_relocations(&buf, shoff, shnum, shentsize, true);
    assert!(relocs.is_empty(), "no relocations expected");
}

#[test]
fn detect_functions_finds_jal_targets() {
    // Two JAL instructions at 0x100000 and 0x100008, targeting 0x100100 and 0x100200.
    let mut text: Vec<u8> = Vec::new();
    // JAL target: op=0x03 (000011), target_field = (target & 0x0FFFFFFF) >> 2
    let jal = |target: u32| -> u32 { (0x03u32 << 26) | ((target >> 2) & 0x03FFFFFF) };
    push_u32(&mut text, jal(0x100100)); // 0x100000
    push_u32(&mut text, 0);             // 0x100004 (delay slot)
    push_u32(&mut text, jal(0x100200)); // 0x100008
    push_u32(&mut text, 0);             // delay slot
    // Pad so the JAL targets (0x100100, 0x100200) fall inside the section;
    // the scanner only accepts targets within the section's range.
    text.resize(0x100300 - 0x100000, 0);
    let section = ElfSection {
        name: ".text".into(),
        address: 0x100000,
        size: text.len() as u32,
        offset: 0,
        data: text,
        flags: 0x4, // SHF_EXECINSTR
    };
    let funcs = detect_functions_in_sections(&[section], 0x100000, true);
    // Entry (0x100000) + two JAL targets (0x100100, 0x100200).
    let starts: Vec<u32> = funcs.iter().map(|f| f.start).collect();
    assert!(starts.contains(&0x100100), "missing JAL target 0x100100");
    assert!(starts.contains(&0x100200), "missing JAL target 0x100200");
}

#[test]
fn config_toml_has_required_ps2recomp_fields() {
    // The TOML must be parseable by ps2recomp's ConfigManager::loadConfig,
    // which requires: [general] input, output, and tolerates ghidra_output.
    // We validate the key fields are present and well-formed (no need for a
    // full TOML parser here; structure + spot-values suffice).
    let info = ElfFileInfo {
        filename: "test.elf".into(),
        sections: vec![],
        symbols: vec![],
        entry_point: 0x100000,
        file_size: 0,
        is_little_endian: true,
        is_32bit: true,
        relocations: vec![],
    };
    let funcs = vec![FunctionEntry {
        name: "sub_00100000".into(),
        start: 0x100000,
        end: 0x100100,
        size: 0x100,
    }];
    let toml = build_config_toml(
        "G:/games/test.elf",
        "G:/out",
        "G:/out/functions.csv",
        &info,
        &funcs,
        0,
        1,
        0,
        &[], // no SCE matches -> untracked_stubs stays empty
    );
    // Required by ConfigManager::loadConfig
    assert!(toml.contains("[general]"), "missing [general] table");
    assert!(toml.contains("input = \"G:/games/test.elf\""), "bad input path");
    assert!(toml.contains("output = \"G:/out\""), "bad output path");
    assert!(toml.contains("ghidra_output = \"G:/out/functions.csv\""), "bad ghidra_output");
    // Booleans must be valid TOML (lowercase).
    assert!(toml.contains("single_file_output = false"));
    assert!(toml.contains("patch_cop0 = true"));
    // Empty arrays must be valid.
    assert!(toml.contains("stubs = []"));
    assert!(toml.contains("untracked_stubs = []"));
    assert!(toml.contains("skip = []"));
    // Windows backslashes must be normalized (would break TOML escaping).
    assert!(!toml.contains("input = \"G:\\\\"), "backslashes not normalized");
}

#[test]
fn csv_format_matches_ps2recomp() {
    // The CSV writer must emit exactly: Name,Start,End,Size with 0x%08X
    // addresses (uppercase) and decimal size — matching ExportPS2Functions.java.
    let funcs = vec![
        FunctionEntry { name: "foo".into(), start: 0x100000, end: 0x100100, size: 0x100 },
        FunctionEntry { name: "bar".into(), start: 0x100100, end: 0x100120, size: 0x20 },
    ];
    let mut csv = String::from("Name,Start,End,Size\n");
    for f in &funcs {
        csv.push_str(&format!("{},0x{:08X},0x{:08X},{}\n", f.name, f.start, f.end, f.size));
    }
    assert_eq!(csv.lines().next().unwrap(), "Name,Start,End,Size");
    assert_eq!(csv.lines().nth(1).unwrap(), "foo,0x00100000,0x00100100,256");
    assert_eq!(csv.lines().nth(2).unwrap(), "bar,0x00100100,0x00100120,32");
}

/// `has_delay_slot` must match exactly the DELAY_SLOT_MNEMONICS table: the
/// control-flow instructions whose next word is a branch delay slot.
#[test]
fn has_delay_slot_matches_reference_set() {
    // Build a single instruction word from its fields.
    let r_type = |funct: u32| funct; // op 0x00
    let i_type = |op: u32, rs: u32, rt: u32, imm: u32| (op << 26) | (rs << 21) | (rt << 16) | (imm & 0xFFFF);

    // --- true: instructions that have a delay slot ---
    // J / JAL
    assert!(has_delay_slot(i_type(0x02, 0, 0, 0)));
    assert!(has_delay_slot(i_type(0x03, 0, 0, 0)));
    // JR $ra (funct 0x08), JALR (funct 0x09)
    assert!(has_delay_slot(r_type(0x08)));
    assert!(has_delay_slot(r_type(0x09)));
    // BEQ / BNE / BLEZ / BGTZ
    assert!(has_delay_slot(i_type(0x04, 0, 0, 0)));
    assert!(has_delay_slot(i_type(0x05, 0, 0, 0)));
    assert!(has_delay_slot(i_type(0x06, 0, 0, 0)));
    assert!(has_delay_slot(i_type(0x07, 0, 0, 0)));
    // REGIMM BLTZ / BGEZ (op 0x01, rt 0x00 / 0x01)
    assert!(has_delay_slot(i_type(0x01, 0, 0x00, 0)));
    assert!(has_delay_slot(i_type(0x01, 0, 0x01, 0)));
    // BEQL / BNEL
    assert!(has_delay_slot(i_type(0x14, 0, 0, 0)));
    assert!(has_delay_slot(i_type(0x15, 0, 0, 0)));

    // --- false: non-delay-slot instructions ---
    // nop (0x00000000): op 0, funct 0 (SLL) — explicitly NOT a delay slot.
    assert!(!has_delay_slot(0x00000000));
    // ADDU (funct 0x21), SLL (funct 0x00 with shift)
    assert!(!has_delay_slot(r_type(0x21)));
    // LUI (op 0x0F), LW (op 0x23), ADDIU (op 0x09), ORI (op 0x0D)
    assert!(!has_delay_slot(i_type(0x0F, 0, 0, 0)));
    assert!(!has_delay_slot(i_type(0x23, 0, 0, 0)));
    assert!(!has_delay_slot(i_type(0x09, 0, 0, 0)));
    assert!(!has_delay_slot(i_type(0x0D, 0, 0, 0)));
}

/// `refine_end` trims trailing nop padding while preserving the delay slot
/// of the final control-flow instruction. End is exclusive.
#[test]
fn refine_end_trims_padding_and_keeps_delay_slot() {
    // Helper: build a little-endian code buffer from a list of u32 words.
    let push = |buf: &mut Vec<u8>, v: u32| buf.extend_from_slice(&v.to_le_bytes());
    // jr $ra  = SPECIAL funct 0x08, rs = $ra (31)  -> 0x03E00008.
    const JR_RA: u32 = 0x03E00008;

    // ---- Case 1: jr $ra; nop(delay); nop; nop  (base 0x100000, start 0x100000)
    //    Expected End = jr_addr + 8 = 0x100008 (the 3 padding nops drop off,
    //    the delay-slot nop is protected).
    {
        let mut b = Vec::new();
        push(&mut b, JR_RA);            // 0x100000: jr $ra
        push(&mut b, 0x00000000);        // 0x100004: nop (delay slot)
        push(&mut b, 0x00000000);        // 0x100008: nop (padding)
        push(&mut b, 0x00000000);        // 0x10000C: nop (padding)
        let end = refine_end(&b, 0x100000, 0x100000, 0x100010, true);
        assert_eq!(end, 0x100008, "case 1: jr+8");
    }

    // ---- Case 2: jr $ra; move v0,0 (delay); nop; nop
    //    Expected End = 0x100008 (delay slot is a non-nop, still protected).
    {
        let mut b = Vec::new();
        // OR $v0, $zero, $zero (a stand-in for `move`) — SPECIAL funct 0x25.
        let move_v0_zero: u32 = 0x21; // any non-zero, non-control-flow word
        push(&mut b, JR_RA);            // 0x100000: jr $ra
        push(&mut b, move_v0_zero);     // 0x100004: delay slot (non-nop)
        push(&mut b, 0x00000000);        // 0x100008: padding
        push(&mut b, 0x00000000);        // 0x10000C: padding
        let end = refine_end(&b, 0x100000, 0x100000, 0x100010, true);
        assert_eq!(end, 0x100008, "case 2: jr+8 with non-nop delay slot");
    }

    // ---- Case 3: tail-call function ending in `j X; nop(delay); nop`
    //    Expected End = 0x100008 (j's delay slot is protected).
    {
        let mut b = Vec::new();
        // j 0x200000  = op 0x02, field = 0x200000 >> 2 = 0x80000  -> 0x08080000.
        const J_200000: u32 = 0x08080000;
        push(&mut b, J_200000);         // 0x100000: j 0x200000
        push(&mut b, 0x00000000);        // 0x100004: delay slot
        push(&mut b, 0x00000000);        // 0x100008: padding
        let end = refine_end(&b, 0x100000, 0x100000, 0x10000C, true);
        assert_eq!(end, 0x100008, "case 3: j+8");
    }

    // ---- Case 4: filler code + trailing nops, no control-flow end.
    //    nop padding after real code trims down to the last real word + 4.
    {
        let mut b = Vec::new();
        push(&mut b, 0x00000021);       // 0x100000: ADDU (real)
        push(&mut b, 0x00000020);       // 0x100004: ADD  (real, last)
        push(&mut b, 0x00000000);        // 0x100008: nop (padding)
        push(&mut b, 0x00000000);        // 0x10000C: nop (padding)
        let end = refine_end(&b, 0x100000, 0x100000, 0x100010, true);
        assert_eq!(end, 0x100008, "case 4: trim to last real word + 4");
    }

    // ---- Case 5: safety net — all-nop body never collapses below start+4.
    {
        let mut b = Vec::new();
        push(&mut b, 0x00000000);
        push(&mut b, 0x00000000);
        push(&mut b, 0x00000000);
        let end = refine_end(&b, 0x100000, 0x100000, 0x10000C, true);
        // Can't trim below start + 4 (need ≥2 words to even consider).
        assert!(end >= 0x100004, "case 5: kept at least one instruction");
    }
}

/// End-to-end: two JAL-targeted functions with nop padding between them get
/// the first function's End tightened to `jr $ra + 8` instead of the next
/// function's start.
#[test]
fn refine_function_boundaries_shortens_end() {
    // Layout (base 0x100000):
    //   0x100000: func A body — jr $ra
    //   0x100004:   nop (delay slot)
    //   0x100008:   nop (padding)
    //   0x10000C:   nop (padding)
    //   0x100010: func B start (a JAL target) — jr $ra
    //   0x100014:   nop (delay slot)
    let mut text: Vec<u8> = Vec::new();
    let push = |buf: &mut Vec<u8>, v: u32| buf.extend_from_slice(&v.to_le_bytes());
    const JR_RA: u32 = 0x03E00008; // SPECIAL funct 0x08, rs = $ra
    push(&mut text, JR_RA);        // 0x100000
    push(&mut text, 0x00000000);    // 0x100004 delay
    push(&mut text, 0x00000000);    // 0x100008 padding
    push(&mut text, 0x00000000);    // 0x10000C padding
    push(&mut text, JR_RA);        // 0x100010 (func B)
    push(&mut text, 0x00000000);    // 0x100014 delay

    let section = ElfSection {
        name: ".text".into(),
        address: 0x100000,
        size: text.len() as u32,
        offset: 0,
        data: text,
        flags: 0x4, // SHF_EXECINSTR
    };

    // Simulate JAL-scan output: func A spans [0x100000, 0x100010) (to next
    // start), func B spans [0x100010, end_of_section).
    let mut funcs = vec![
        FunctionEntry { name: "sub_00100000".into(), start: 0x100000, end: 0x100010, size: 0x10 },
        FunctionEntry { name: "sub_00100010".into(), start: 0x100010, end: 0x100018, size: 0x08 },
    ];

    refine_function_boundaries(&[section], &mut funcs, true);

    // Func A: jr at 0x100000 + delay slot -> End 0x100008 (not 0x100010).
    assert_eq!(funcs[0].end, 0x100008, "func A End should be jr+8, not next start");
    assert_eq!(funcs[0].size, 0x8);
    // Func B: jr at 0x100010 + delay slot -> End 0x100018 (unchanged, its
    // body was already exactly jr+delay).
    assert_eq!(funcs[1].end, 0x100018, "func B End unchanged");
}

/// `collect_call_edges` records every JAL (op 0x03) and J (op 0x02) with
/// the correct callsite/target/kind, and only for targets that land in an
/// executable section.
#[test]
fn collect_call_edges_finds_jal_and_j() {
    // Section layout (base 0x100000):
    //   0x100000: jal 0x100200   (op 0x03)
    //   0x100004: nop            (delay slot)
    //   0x100008: j   0x100300   (op 0x02)
    //   0x10000C: nop
    //   ...padding to cover targets...
    let jal = |target: u32| -> u32 { (0x03u32 << 26) | ((target >> 2) & 0x03FFFFFF) };
    let j = |target: u32| -> u32 { (0x02u32 << 26) | ((target >> 2) & 0x03FFFFFF) };
    let mut text: Vec<u8> = Vec::new();
    push_u32(&mut text, jal(0x100200)); // 0x100000
    push_u32(&mut text, 0);             // 0x100004
    push_u32(&mut text, j(0x100300));   // 0x100008
    push_u32(&mut text, 0);             // 0x10000C
    text.resize(0x100400 - 0x100000, 0); // pad so targets are in-range
    let section = ElfSection {
        name: ".text".into(),
        address: 0x100000,
        size: text.len() as u32,
        offset: 0,
        data: text,
        flags: 0x4,
    };

    let edges = collect_call_edges(&[section], true);
    // Two edges: the JAL and the J.
    assert_eq!(edges.len(), 2, "expected 2 raw edges, got {}", edges.len());
    assert_eq!(edges[0], RawCallEdge { callsite: 0x100000, target: 0x100200, kind: CallKind::Jal });
    assert_eq!(edges[1], RawCallEdge { callsite: 0x100008, target: 0x100300, kind: CallKind::Jump });
}

/// `build_call_graph` attributes callsites to functions, drops intra-function
/// tail jumps (but keeps JAL self-recursion), and routes undetected targets
/// into `external_targets`.
#[test]
fn build_call_graph_attributes_and_filters() {
    // Two functions: A = [0x100000, 0x100010), B = [0x100010, 0x100020).
    // Edges (raw):
    //   1) callsite 0x100000 (in A), JAL -> 0x100010 (B's start)     [keep]
    //   2) callsite 0x100004 (in A), J   -> 0x100000 (A's start)     [drop: intra-function jump]
    //   3) callsite 0x100010 (in B), JAL -> 0x100050 (undetected)    [keep + external]
    let funcs = vec![
        FunctionEntry { name: "A".into(), start: 0x100000, end: 0x100010, size: 0x10 },
        FunctionEntry { name: "B".into(), start: 0x100010, end: 0x100020, size: 0x10 },
    ];
    let raw = vec![
        RawCallEdge { callsite: 0x100000, target: 0x100010, kind: CallKind::Jal },
        RawCallEdge { callsite: 0x100004, target: 0x100000, kind: CallKind::Jump },
        RawCallEdge { callsite: 0x100010, target: 0x100050, kind: CallKind::Jal },
    ];
    let g = build_call_graph(raw, &funcs);

    // Edge 2 (intra-function J inside A) is dropped; edges 1 and 3 remain.
    assert_eq!(g.edges.len(), 2, "expected 2 edges after filtering, got {}", g.edges.len());
    // A -> B (the JAL from A).
    assert!(g.edges.iter().any(|e| e.from == 0x100000 && e.to == 0x100010 && e.kind == CallKind::Jal),
        "missing A->B JAL edge");
    // B -> external 0x100050 (kept, since it's a real call to undetected code).
    assert!(g.edges.iter().any(|e| e.from == 0x100010 && e.to == 0x100050),
        "missing B->external JAL edge");
    // The undetected target is reported as external.
    assert_eq!(g.external_targets, vec![0x100050], "external_targets wrong: {:?}", g.external_targets);
}

/// A JAL to a function's own start is legitimate self-recursion and must
/// NOT be dropped (only intra-function `j` is dropped, never `jal`).
#[test]
fn call_graph_handles_self_recursion() {
    let funcs = vec![
        FunctionEntry { name: "rec".into(), start: 0x100000, end: 0x100020, size: 0x20 },
    ];
    let raw = vec![
        // Self-call via JAL.
        RawCallEdge { callsite: 0x100008, target: 0x100000, kind: CallKind::Jal },
        // Self-loop via J (this one IS an intra-function jump -> dropped).
        RawCallEdge { callsite: 0x10000C, target: 0x100000, kind: CallKind::Jump },
    ];
    let g = build_call_graph(raw, &funcs);
    // JAL self-edge kept, J self-edge dropped.
    assert_eq!(g.edges.len(), 1, "expected 1 edge (jal kept, j dropped), got {}", g.edges.len());
    assert_eq!(g.edges[0].from, 0x100000);
    assert_eq!(g.edges[0].to, 0x100000);
    assert_eq!(g.edges[0].kind, CallKind::Jal);
    // rec's own start IS a function start, so it's not external.
    assert!(g.external_targets.is_empty());
}

/// `enrich_call_graph_with_relocs` resolves JAL targets to imported symbol
/// names via R_MIPS_26 relocations at the matching callsite address. Non-JAL
/// relocs and non-JAL edges are ignored; retail binaries (no relocs) no-op.
#[test]
fn call_graph_resolves_import_names() {
    // caller A [0x100000,0x100010) JALs two imported stubs.
    let funcs = vec![
        FunctionEntry { name: "A".into(), start: 0x100000, end: 0x100010, size: 0x10 },
    ];
    let raw = vec![
        // Two JALs from A to external (undetected) stubs at 0x200000 / 0x200004.
        RawCallEdge { callsite: 0x100000, target: 0x200000, kind: CallKind::Jal },
        RawCallEdge { callsite: 0x100004, target: 0x200004, kind: CallKind::Jal },
    ];
    let graph = build_call_graph(raw, &funcs);

    // R_MIPS_26 (= 4) relocations at the two callsites name the imports.
    let relocs = vec![
        Relocation { offset: 0x100000, symbol_name: "printf".into(),  r_type: R_MIPS_26, symbol: 1 },
        Relocation { offset: 0x100004, symbol_name: "malloc".into(),  r_type: R_MIPS_26, symbol: 2 },
        // A non-call reloc (R_MIPS_32 = 2) and a different offset must NOT match.
        Relocation { offset: 0x100000, symbol_name: "ignored".into(), r_type: 2,         symbol: 9 },
    ];
    let enriched = enrich_call_graph_with_relocs(graph, &relocs);

    // Both external targets resolved, sorted by address.
    assert_eq!(enriched.target_names.len(), 2, "expected 2 resolved names");
    assert_eq!(enriched.target_names[0], (0x200000, "printf".to_string()));
    assert_eq!(enriched.target_names[1], (0x200004, "malloc".to_string()));
}

/// With no relocations (stripped retail binaries), enrichment is a no-op
/// and `target_names` stays empty.
#[test]
fn enrich_call_graph_noop_without_relocations() {
    let funcs = vec![
        FunctionEntry { name: "A".into(), start: 0x100000, end: 0x100010, size: 0x10 },
    ];
    let raw = vec![
        RawCallEdge { callsite: 0x100000, target: 0x200000, kind: CallKind::Jal },
    ];
    let graph = build_call_graph(raw, &funcs);
    let enriched = enrich_call_graph_with_relocs(graph, &[]);
    assert!(enriched.target_names.is_empty(), "no relocs -> no target names");
}

#[test]
fn untracked_stubs_array_round_trips_through_toml_parser() {
    let info = ElfFileInfo {
        filename: "t.elf".into(),
        sections: vec![],
        symbols: vec![],
        entry_point: 0x100000,
        file_size: 0,
        is_little_endian: true,
        is_32bit: true,
        relocations: vec![],
    };
    // A name with a quote and one with a backslash — both must survive.
    let untracked = vec!["printf".to_string(), "weird\"name".to_string(), "path\\bit".to_string()];
    let toml_str = build_config_toml(
        "G:/t.elf", "G:/out", "G:/out/functions.csv",
        &info, &[], 0, 0, 0, &untracked,
    );
    // Must parse with a real TOML parser.
    let parsed: toml::Value = toml::from_str(&toml_str).expect("TOML must parse");
    let arr = parsed
        .get("general")
        .and_then(|g| g.get("untracked_stubs"))
        .and_then(|v| v.as_array())
        .expect("untracked_stubs must be an array");
    assert_eq!(arr.len(), 3, "all three names preserved");
    let names: Vec<String> = arr.iter().map(|v| v.as_str().unwrap().to_string()).collect();
    assert!(names.contains(&"printf".to_string()));
    assert!(names.contains(&"weird\"name".to_string()), "quote not escaped/preserved");
    assert!(names.contains(&"path\\bit".to_string()), "backslash not escaped/preserved");
    // stubs and skip must still be empty (never auto-populated).
    let general = parsed.get("general").and_then(|v| v.as_table()).unwrap();
    assert!(general.get("stubs").and_then(|v| v.as_array()).map(|a| a.is_empty()).unwrap_or(false));
    assert!(general.get("skip").and_then(|v| v.as_array()).map(|a| a.is_empty()).unwrap_or(false));
}

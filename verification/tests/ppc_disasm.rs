use aura_decomp::ppc_disasm::{self, PpcEndian};
#[test]
fn decodes_nop_as_ori() {
    // PowerPC "nop" is `ori 0,0,0` = 0x60000000.
    let bytes_be = 0x60000000u32.to_be_bytes();
    let ins = ppc_disasm::disassemble_ppc_at(&bytes_be, 0, 0x1000, 1, PpcEndian::Big);
    assert_eq!(ins.len(), 1);
    assert_eq!(ins[0].size, 4);
    assert_eq!(ins[0].address, 0x1000);
}

#[test]
fn decodes_blr() {
    // `blr` = 0x4E800020.
    let bytes_be = 0x4E800020u32.to_be_bytes();
    let ins = ppc_disasm::disassemble_ppc_at(&bytes_be, 0, 0x2000, 1, PpcEndian::Big);
    assert_eq!(ins.len(), 1);
    assert!(ins[0].mnemonic.contains("blr") || ins[0].mnemonic.contains("b"));
}

#[test]
fn big_and_little_endian_decode_same_word_differently() {
    // The same 4 bytes decode to different instructions under each
    // endianness (byte order matters). Use 0x7C6320A6 (mfspr) as the BE
    // word; under LE the bytes are reversed.
    let word = 0x7C6320A6u32;
    let be = ppc_disasm::disassemble_ppc_at(&word.to_be_bytes(), 0, 0, 1, PpcEndian::Big);
    let le = ppc_disasm::disassemble_ppc_at(&word.to_be_bytes(), 0, 0, 1, PpcEndian::Little);
    assert_eq!(be.len(), 1);
    assert_eq!(le.len(), 1);
    // The two must not produce identical mnemonics+operands (endianness flip).
    let be_str = format!("{} {}", be[0].mnemonic, be[0].operands);
    let le_str = format!("{} {}", le[0].mnemonic, le[0].operands);
    assert_ne!(be_str, le_str, "endianness should change the decode");
}

#[test]
fn caps_at_max_instructions() {
    let data = [0x60u8, 0x00, 0x00, 0x00].repeat(10); // 10 nops worth
    let ins = ppc_disasm::disassemble_ppc_at(&data, 0, 0, 3, PpcEndian::Big);
    assert_eq!(ins.len(), 3);
}

#[test]
fn stops_on_truncated_word() {
    let data = [0x60u8, 0x00, 0x00]; // only 3 bytes
    let ins = ppc_disasm::disassemble_ppc_at(&data, 0, 0, 10, PpcEndian::Big);
    assert!(ins.is_empty());
}

#[test]
fn legacy_api_matches_little_endian() {
    // The legacy `disassemble_ppc_instruction` was written for GameCube ELFs
    // which this tool historically read little-endian, so it reads words as
    // LE. It must therefore match the explicit `PpcEndian::Little` path on
    // the same bytes (NOT the big-endian path).
    let word = 0x60000000u32; // nop when decoded as BE
    let data = word.to_be_bytes();
    let legacy = ppc_disasm::disassemble_ppc_instruction(&data, 0, 1);
    let le = ppc_disasm::disassemble_ppc_at(&data, 0, 0, 1, PpcEndian::Little);
    assert_eq!(legacy.len(), 1);
    assert_eq!(le.len(), 1);
    assert_eq!(legacy[0].mnemonic, le[0].mnemonic);
    assert_eq!(legacy[0].operands, le[0].operands);
}

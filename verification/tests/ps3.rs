use aura_decomp::ps3::parse_ps3;
#[test]
fn parse_ps3_rejects_garbage() {
    let r = parse_ps3(&[0u8; 32], "junk.bin");
    assert!(r.is_err());
}

#[test]
fn parse_ps3_parses_be_elf32() {
    let elf = minimal_be_elf32();
    let info = parse_ps3(&elf, "ps3.elf").expect("parse");
    assert!(info.file_type.contains("BE"), "file_type={}", info.file_type);
    assert_eq!(info.machine, 0x15); // EM_PPC (20) — PS3 uses PowerPC
}

/// Minimal big-endian ELF32 (class=1, data=2(BE)) with EM_PPC (20).
fn minimal_be_elf32() -> Vec<u8> {
    let mut buf = vec![0u8; 64]; // just a header, no sections
    buf[0..4].copy_from_slice(&[0x7f, b'E', b'L', b'F']);
    buf[4] = 1; // ELFCLASS32
    buf[5] = 2; // ELFDATA2MSB (big-endian)
    buf[6] = 1; // EV_CURRENT
    buf[18..20].copy_from_slice(&0x15u16.to_be_bytes()); // e_machine = EM_PPC
    buf[24..28].copy_from_slice(&0x10000u32.to_be_bytes()); // e_entry
    buf
}

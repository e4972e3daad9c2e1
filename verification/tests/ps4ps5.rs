use aura_decomp::ps4ps5::{disassemble_x64, is_ps4ps5_elf, parse_ps4ps5};
#[test]
fn disassemble_x64_decodes_function_prologue() {
    // push rbp; mov rbp,rsp; pop rbp; ret
    let code = [0x55, 0x48, 0x89, 0xE5, 0x5D, 0xC3];
    let ins = disassemble_x64(&code, 0x400000, 10);
    assert!(!ins.is_empty());
    // First instruction is `push rbp`.
    assert!(ins[0].text.contains("push"), "got: {}", ins[0].text);
    // Last is `ret`.
    assert!(ins.last().unwrap().text.contains("ret"), "got: {}", ins.last().unwrap().text);
    // Addresses are sequential and sized correctly.
    assert_eq!(ins[0].address, 0x400000);
    assert_eq!(ins[0].size, 1);
}

#[test]
fn disassemble_x64_caps_at_max() {
    let code = [0x90u8; 64]; // nops
    let ins = disassemble_x64(&code, 0, 5);
    assert!(ins.len() <= 5);
}

#[test]
fn is_ps4ps5_elf_detects_le_elf64_x8664() {
    // Minimal ELF64 LE x86-64: magic + class 2 + data 1 (LE) + machine 62.
    // e_machine lives at ELF header offset 18 (after the 16-byte e_ident
    // and 2-byte e_type).
    let mut hdr = [0u8; 20];
    hdr[0..4].copy_from_slice(&[0x7f, b'E', b'L', b'F']);
    hdr[4] = 2; // 64-bit
    hdr[5] = 1; // little-endian
    hdr[18..20].copy_from_slice(&62u16.to_le_bytes()); // EM_X86_64
    assert!(is_ps4ps5_elf(&hdr));
}

#[test]
fn is_ps4ps5_elf_rejects_be_and_wrong_machine() {
    let mut hdr = [0u8; 20];
    hdr[0..4].copy_from_slice(&[0x7f, b'E', b'L', b'F']);
    hdr[4] = 2;
    hdr[5] = 2; // big-endian → not a PS4/PS5 LE ELF
    hdr[18..20].copy_from_slice(&62u16.to_le_bytes());
    assert!(!is_ps4ps5_elf(&hdr));

    // Correct endianness but wrong machine.
    hdr[5] = 1;
    hdr[18..20].copy_from_slice(&8u16.to_le_bytes()); // EM_MIPS
    assert!(!is_ps4ps5_elf(&hdr));
}

#[test]
fn parse_ps4ps5_rejects_garbage() {
    let r = parse_ps4ps5(&[0u8; 32], "junk.bin");
    assert!(r.is_err());
}

#[test]
fn parse_ps4ps5_parses_plain_elf64() {
    let elf = minimal_elf64_x8664();
    let info = parse_ps4ps5(&elf, "homebrew.elf").expect("parse");
    assert_eq!(info.machine, 62);
    assert!(info.file_type.contains("ELF"));
    assert!(!info.encrypted);
}

/// Build a minimal valid ELF64 little-endian x86-64 image with one `.text`
/// section containing `ret` (0xC3), used by several tests.
fn minimal_elf64_x8664() -> Vec<u8> {
    // Layout:
    //   0x00  ELF header (64 bytes)
    //   0x40  section header table: [0]=NULL, [1]=.shstrtab, [2]=.text
    //   0xD8  .shstrtab bytes: "\0.shstrtab\0.text\0"
    //   0xE8  .text bytes: 0xC3 (ret)
    let text_off: u64 = 0xE8;
    let text_addr: u64 = 0x401000;
    let shstrtab: &[u8] = b"\0.shstrtab\0.text\0";
    let shstr_off: u64 = 0xD8;
    let shstr_name_idx: u32 = 1; // offset of ".shstrtab" in the strtab
    let text_name_idx: u32 = 11; // offset of ".text" in the strtab
    let _ = text_addr;

    let mut buf = vec![0u8; 0xE8 + 1];

    // --- ELF header ---
    buf[0..4].copy_from_slice(&[0x7f, b'E', b'L', b'F']);
    buf[4] = 2; // ELFCLASS64
    buf[5] = 1; // ELFDATA2LSB (little-endian)
    buf[6] = 1; // EV_CURRENT
    buf[16..18].copy_from_slice(&2u16.to_le_bytes()); // e_type = ET_EXEC
    buf[18..20].copy_from_slice(&62u16.to_le_bytes()); // e_machine = EM_X86_64
    buf[20..24].copy_from_slice(&1u32.to_le_bytes()); // e_version = EV_CURRENT
    buf[24..32].copy_from_slice(&text_addr.to_le_bytes()); // e_entry
    // e_shoff = 0x40 (section headers right after ELF header)
    buf[40..48].copy_from_slice(&0x40u64.to_le_bytes());
    buf[52..54].copy_from_slice(&64u16.to_le_bytes()); // e_ehsize
    buf[58..60].copy_from_slice(&64u16.to_le_bytes()); // e_shentsize
    buf[60..62].copy_from_slice(&3u16.to_le_bytes()); // e_shnum
    buf[62..64].copy_from_slice(&1u16.to_le_bytes()); // e_shstrndx = section 1

    // --- Section header table at 0x40 (3 entries × 64 bytes) ---
    let sh_off = 0x40usize;
    // Section 0: NULL (already zeroed)
    // Section 1: .shstrtab
    let s1 = sh_off + 64;
    buf[s1..s1 + 4].copy_from_slice(&shstr_name_idx.to_le_bytes()); // sh_name
    buf[s1 + 4..s1 + 8].copy_from_slice(&3u32.to_le_bytes()); // SHT_STRTAB
    buf[s1 + 24..s1 + 32].copy_from_slice(&shstr_off.to_le_bytes()); // sh_offset
    buf[s1 + 32..s1 + 40].copy_from_slice(&(shstrtab.len() as u64).to_le_bytes()); // sh_size
    // Section 2: .text
    let s2 = sh_off + 128;
    buf[s2..s2 + 4].copy_from_slice(&text_name_idx.to_le_bytes()); // sh_name
    buf[s2 + 4..s2 + 8].copy_from_slice(&1u32.to_le_bytes()); // SHT_PROGBITS
    buf[s2 + 8..s2 + 16].copy_from_slice(&0x6u64.to_le_bytes()); // SHF_ALLOC|SHF_EXECINSTR
    buf[s2 + 16..s2 + 24].copy_from_slice(&text_addr.to_le_bytes()); // sh_addr
    buf[s2 + 24..s2 + 32].copy_from_slice(&text_off.to_le_bytes()); // sh_offset
    buf[s2 + 32..s2 + 40].copy_from_slice(&1u64.to_le_bytes()); // sh_size (1 byte: ret)

    // --- .shstrtab at 0xD8 ---
    buf[shstr_off as usize..shstr_off as usize + shstrtab.len()].copy_from_slice(shstrtab);
    // --- .text at 0xE8 ---
    buf[text_off as usize] = 0xC3; // ret

    buf
}

use aura_decomp::ps1_exe::{elf_from_disc_data, embedded_elf, find_elf_offset, find_psx_exe_offset_in_disc, parse_psx_header};

fn build_psx_exe(elf_offset: usize) -> Vec<u8> {
    let mut buf = vec![0u8; elf_offset + 64];
    buf[0..8].copy_from_slice(b"PS-X EXE");
    buf[8] = 1;
    buf[0x0C..0x10].copy_from_slice(&0x00100000u32.to_be_bytes());
    buf[0x10..0x14].copy_from_slice(&0u32.to_be_bytes());
    buf[elf_offset..elf_offset + 4].copy_from_slice(&[0x7F, b'E', b'L', b'F']);
    buf[elf_offset + 4] = 1;
    buf[elf_offset + 5] = 2;
    buf
}

#[test]
fn find_elf_offset_locates_magic() {
    let mut buf = vec![0u8; 128];
    buf[64..68].copy_from_slice(&[0x7F, b'E', b'L', b'F']);
    assert_eq!(find_elf_offset(&buf), Some(64));

    // No magic present.
    let empty = vec![0u8; 32];
    assert_eq!(find_elf_offset(&empty), None);
}

#[test]
fn psx_header_fields_and_elf_offset_from_bytes() {
    let data = build_psx_exe(0x40);
    let head = &data[..data.len().min(256)];
    let info = parse_psx_header(head, &data, data.len() as u64).unwrap().expect("PS-X header");
    assert_eq!(info.version, 1);
    assert_eq!(info.load_address, 0x00100000);
    assert_eq!(info.entry_point, 0);
    assert_eq!(info.elf_offset, 0x40);
    assert_eq!(info.elf_size, 64);
    let elf = embedded_elf(&info, &data).unwrap();
    assert_eq!(&elf[0..4], &[0x7F, b'E', b'L', b'F']);
    assert_eq!(elf.len(), 64);
}

#[test]
fn psx_header_absent_for_plain_elf() {
    let mut data = vec![0u8; 64];
    data[0..4].copy_from_slice(&[0x7F, b'E', b'L', b'F']);
    assert!(parse_psx_header(&data, &data, 64).unwrap().is_none());
    // Too short for a header.
    assert!(parse_psx_header(&data[..16], &data, 64).unwrap().is_none());
}

#[test]
fn psx_header_without_elf_is_an_error() {
    let mut data = vec![0u8; 64];
    data[0..8].copy_from_slice(b"PS-X EXE");
    let err = parse_psx_header(&data, &data, 64).unwrap_err();
    assert_eq!(err, "PS-X header found but no embedded ELF magic located");
}

#[test]
fn disc_image_yields_boot_elf() {
    let mut disc = vec![0u8; 0x1000];
    let exe = build_psx_exe(0x40);
    disc[0x800..0x800 + exe.len()].copy_from_slice(&exe);
    assert_eq!(find_psx_exe_offset_in_disc(&disc), Some(0x800));
    let elf = elf_from_disc_data(&disc).unwrap();
    assert_eq!(elf.len(), 0x1000 - 0x840);
    assert_eq!(&elf[0..4], &[0x7F, b'E', b'L', b'F']);
    assert_eq!(elf_from_disc_data(&[0u8; 16]).unwrap_err(), "No PS-X EXE found in disc image");
}

#[test]
fn raw_sector_disc_is_stitched_before_scanning() {
    // Two raw Mode 2 sectors; the PS-X EXE payload starts at offset 24 of the first.
    let mut disc = vec![0u8; 2352 * 2];
    for s in 0..2 {
        let b = s * 2352;
        disc[b] = 0;
        for i in 1..12 {
            disc[b + i] = 0xFF;
        }
        disc[b + 12] = 0;
    }
    let exe = build_psx_exe(0x40);
    disc[24..24 + exe.len()].copy_from_slice(&exe);
    let elf = elf_from_disc_data(&disc).unwrap();
    assert_eq!(&elf[0..4], &[0x7F, b'E', b'L', b'F']);
    // Stitched stream holds 2 x 2048 payload bytes; the ELF starts 0x40 in.
    assert_eq!(elf.len(), 4096 - 0x40);
}

#[test]
fn detects_psx_header_with_embedded_elf() {
    let elf_off = 0x40usize;
    let data = build_psx_exe(elf_off);
    let head = &data[..data.len().min(256)];
    let result = parse_psx_header(head, &data, data.len() as u64).unwrap();
    assert!(result.is_some(), "should detect PS-X header");
    let info = result.unwrap();
    assert_eq!(info.version, 1);
    assert_eq!(info.load_address, 0x00100000);
    assert_eq!(info.entry_point, 0);
    assert_eq!(info.elf_offset as usize, elf_off);
    assert!(info.elf_size > 0);
}

#[test]
fn returns_none_for_non_psx_file() {
    let mut data = vec![0u8; 64];
    data[0..4].copy_from_slice(&[0x7F, b'E', b'L', b'F']);
    let result = parse_psx_header(&data, &data, data.len() as u64).unwrap();
    assert!(result.is_none(), "should not match a plain ELF");
}

#[test]
fn extract_elf_returns_embedded_portion() {
    let elf_off = 0x40usize;
    let data = build_psx_exe(elf_off);
    let head = &data[..data.len().min(256)];
    let info = parse_psx_header(head, &data, data.len() as u64).unwrap().unwrap();
    let elf_bytes = embedded_elf(&info, &data).unwrap();
    assert!(elf_bytes.len() >= 64);
    assert_eq!(&elf_bytes[0..4], &[0x7F, b'E', b'L', b'F']);
}

use aura_decomp::engine::ElfSection;
use aura_decomp::naming::scan_sce_sdk_matches;
use aura_decomp::sce_symbol_scanner::{
    disabled_relocation_value, is_function_type, matches_symbol, parse_sha1, relocation_mask, write_le32, CodeSection,
    MatchEdge, MatchNode, MatchSymbolKey, RelocationRecord, RelocationType, SceSymbolDatabase, SymbolRecord,
};
use sha1::{Digest, Sha1};


fn clone_with_size(s: &SymbolRecord, size: u32) -> SymbolRecord {
    let mut c = s.clone();
    c.size = size;
    c
}

#[test]
fn relocation_masks_match_reference() {
    assert_eq!(relocation_mask(RelocationType::NoRelocation), 0xFFFF_FFFF);
    assert_eq!(relocation_mask(RelocationType::Mips26), 0xFC00_0000);
    assert_eq!(relocation_mask(RelocationType::MipsLo16), 0xFFFF_0000);
    assert_eq!(relocation_mask(RelocationType::MipsHi16), 0xFFFF_0000);
    assert_eq!(relocation_mask(RelocationType::Mips32), 0);
}

#[test]
fn disabled_values_zero_variable_bits() {
    // JAL: keep only opcode bits (top 6).
    let jal = 0x0C00_1234u32;
    assert_eq!(disabled_relocation_value(RelocationType::Mips26, jal), jal & 0xFC00_0000);
    // LUI: keep upper half (opcode+reg), zero immediate.
    let lui = 0x3C1F_ABCDu32;
    assert_eq!(disabled_relocation_value(RelocationType::MipsHi16, lui), 0x3C1F_0000);
    // Mips32: whole word is a relocated absolute.
    assert_eq!(disabled_relocation_value(RelocationType::Mips32, 0xDEAD_BEEF), 0);
}

#[test]
fn static_bit_count_follows_reference_formula() {
    // 4-byte function (32 bits), one Mips26 reloc → keeps 6 → 32-6 = 26 static.
    let s = SymbolRecord {
        library: "x".into(),
        name: "y".into(),
        hash_text: "0".repeat(40),
        hash: [0; 20],
        variant_hash: 0,
        size: 4,
        is_function: true,
        relocations: vec![RelocationRecord { offset: 0, r_type: RelocationType::Mips26 }],
    };
    assert_eq!(s.static_bit_count(), 26);

    // 8-byte function (64 bits), one Lo16 reloc → keeps 16 → 64-16 = 48.
    let s2 = SymbolRecord {
        size: 8,
        relocations: vec![RelocationRecord { offset: 0, r_type: RelocationType::MipsLo16 }],
        ..clone_with_size(&s, 8)
    };
    assert_eq!(s2.static_bit_count(), 48);

    // Saturates to 0 when relocations would keep more bits than the body.
    let s3 = SymbolRecord {
        size: 2,
        relocations: vec![RelocationRecord { offset: 0, r_type: RelocationType::NoRelocation }],
        ..clone_with_size(&s, 2)
    };
    assert_eq!(s3.static_bit_count(), 0);
}

#[test]
fn scan_finds_planted_symbol_at_offset() {
    let body: [u8; 16] = [
        0x34, 0x12, 0x1F, 0x3C, // LE: 0x3C1F1234  (lui $ra, 0x1234)
        0x34, 0x12, 0x00, 0x0C, // LE: 0x0C001234  (jal 0x48D0)
        0x00, 0x00, 0x00, 0x00, // nop
        0x08, 0x00, 0xE0, 0x03, // LE: 0x03E00008  (jr $ra)
    ];
    let mut masked = body.to_vec();
    write_le32(&mut masked, 0, 0x3C1F_0000); // Hi16: zero immediate
    write_le32(&mut masked, 4, 0x0C00_0000); // Mips26: zero target
    let digest = Sha1::digest(&masked);

    let hash_text: String = digest.iter().map(|b| format!("{:02x}", b)).collect();
    let rec = SymbolRecord {
        library: "testlib".into(),
        name: "planted".into(),
        hash_text: hash_text.clone(),
        hash: digest.into(),
        variant_hash: 0,
        size: 16,
        is_function: true,
        relocations: vec![
            RelocationRecord { offset: 0, r_type: RelocationType::MipsHi16 },
            RelocationRecord { offset: 4, r_type: RelocationType::Mips26 },
        ],
    };
    assert!(
        matches_symbol(&CodeSection { address: 0x1000, data: &body }, 0, &rec),
        "masked-body SHA-1 must match the planted symbol"
    );
}

/// A 48-byte body: `lui $ra, 0x1234`, `jal`, then ten distinct words.
fn long_body() -> Vec<u8> {
    let mut b = Vec::new();
    b.extend_from_slice(&0x3C1F_1234u32.to_le_bytes());
    b.extend_from_slice(&0x0C00_1234u32.to_le_bytes());
    for k in 0..10u32 {
        b.extend_from_slice(&(0x2408_0000u32 | (k + 1)).to_le_bytes());
    }
    b
}

fn record_for(body: &[u8], library: &str, name: &str, variant: u32) -> SymbolRecord {
    let mut masked = body.to_vec();
    write_le32(&mut masked, 0, 0x3C1F_0000);
    write_le32(&mut masked, 4, 0x0C00_0000);
    let digest = Sha1::digest(&masked);
    let hash_text: String = digest.iter().map(|b| format!("{:02x}", b)).collect();
    SymbolRecord {
        library: library.into(),
        name: name.into(),
        hash_text,
        hash: digest.into(),
        variant_hash: variant,
        size: body.len() as u32,
        is_function: true,
        relocations: vec![
            RelocationRecord { offset: 0, r_type: RelocationType::MipsHi16 },
            RelocationRecord { offset: 4, r_type: RelocationType::Mips26 },
        ],
    }
}

fn key_of(r: &SymbolRecord) -> MatchSymbolKey {
    MatchSymbolKey { library: r.library.clone(), name: r.name.clone(), hash: r.hash_text.clone(), variant: r.variant_hash }
}

/// A trie whose root matches `lui $ra, <any>` and leads to `keys`.
fn trie_to(keys: Vec<MatchSymbolKey>) -> Vec<MatchNode> {
    vec![
        MatchNode {
            offset: 0,
            next: vec![MatchEdge { value: 0x3C1F_0000, relocation_type: RelocationType::MipsHi16, child: 1 }],
            symbols: vec![],
        },
        MatchNode { offset: 4, next: vec![], symbols: keys },
    ]
}

fn image_with_body(body: &[u8]) -> Vec<u8> {
    let mut data = vec![0xFFu8; 8];
    data.extend_from_slice(body);
    data.extend_from_slice(&[0u8; 8]);
    data.extend_from_slice(&0x11u32.to_le_bytes());
    data
}

#[test]
fn scan_names_planted_function_and_grows_over_padding() {
    let body = long_body();
    let rec = record_for(&body, "libc", "memcpy", 0);
    let mut db = SceSymbolDatabase::new(trie_to(vec![key_of(&rec)])).unwrap();
    db.insert_symbol(rec);
    assert_eq!(db.symbol_count(), 1);
    let data = image_with_body(&body);
    let matches = db.scan(&[CodeSection { address: 0x0010_0000, data: &data }]);
    assert_eq!(matches.len(), 1);
    assert_eq!(matches[0].address, 0x0010_0008);
    assert_eq!(matches[0].size, 56);
    assert_eq!(matches[0].name, "memcpy");
    assert_eq!(matches[0].library, "libc");
}

#[test]
fn scan_drops_address_claimed_by_two_names() {
    let body = long_body();
    let a = record_for(&body, "libc", "memcpy", 0);
    let b = record_for(&body, "libc", "memmove", 0);
    let mut db = SceSymbolDatabase::new(trie_to(vec![key_of(&a), key_of(&b)])).unwrap();
    db.insert_symbol(a);
    db.insert_symbol(b);
    let data = image_with_body(&body);
    assert!(db.scan(&[CodeSection { address: 0x0010_0000, data: &data }]).is_empty());
}

#[test]
fn scan_ignores_low_entropy_symbols() {
    // 16 bytes with two relocations keep far fewer than 256 static bits.
    let body: Vec<u8> = long_body()[..16].to_vec();
    let rec = record_for(&body, "libc", "tiny", 0);
    let mut db = SceSymbolDatabase::new(trie_to(vec![key_of(&rec)])).unwrap();
    db.insert_symbol(rec);
    let data = image_with_body(&body);
    assert!(db.scan(&[CodeSection { address: 0x0010_0000, data: &data }]).is_empty());
}

#[test]
fn scan_without_trie_or_sections_is_empty() {
    let db = SceSymbolDatabase::new(Vec::new()).unwrap();
    assert!(db.scan(&[]).is_empty());
    let data = image_with_body(&long_body());
    assert!(db.scan(&[CodeSection { address: 0, data: &data }]).is_empty());
}

#[test]
fn trie_with_backward_edge_is_rejected() {
    let mut nodes = trie_to(vec![]);
    nodes[1].next.push(MatchEdge { value: 0, relocation_type: RelocationType::NoRelocation, child: 0 });
    assert!(SceSymbolDatabase::new(nodes).is_none());
    let bad = vec![MatchNode {
        offset: 0,
        next: vec![MatchEdge { value: 0, relocation_type: RelocationType::NoRelocation, child: 5 }],
        symbols: vec![],
    }];
    assert!(SceSymbolDatabase::new(bad).is_none());
}

#[test]
fn later_record_with_same_key_replaces_earlier() {
    let body = long_body();
    let mut first = record_for(&body, "libc", "memcpy", 7);
    first.is_function = false;
    let second = record_for(&body, "libc", "memcpy", 7);
    let mut db = SceSymbolDatabase::new(trie_to(vec![key_of(&second)])).unwrap();
    db.insert_symbol(first);
    db.insert_symbol(second);
    assert_eq!(db.symbol_count(), 1);
    // The replacing record is a function, so the scan now finds it.
    let data = image_with_body(&body);
    assert_eq!(db.scan(&[CodeSection { address: 0, data: &data }]).len(), 1);
}

#[test]
fn relocation_names_parse_case_insensitively() {
    assert_eq!(RelocationType::parse("mips_26"), RelocationType::Mips26);
    assert_eq!(RelocationType::parse("MIPS26"), RelocationType::Mips26);
    assert_eq!(RelocationType::parse("Lo16"), RelocationType::MipsLo16);
    assert_eq!(RelocationType::parse("MIPS_HI16"), RelocationType::MipsHi16);
    assert_eq!(RelocationType::parse("mips_32"), RelocationType::Mips32);
    assert_eq!(RelocationType::parse("MIPS_GPREL16"), RelocationType::MipsGpRel16);
    assert_eq!(RelocationType::parse("mipsliteral"), RelocationType::MipsLiteral);
    assert_eq!(RelocationType::parse("NONE"), RelocationType::NoRelocation);
    assert_eq!(RelocationType::parse("R_MIPS_PC16"), RelocationType::NoRelocation);
}

#[test]
fn function_types_are_recognised() {
    assert!(is_function_type("FUNCTION"));
    assert!(is_function_type("func"));
    assert!(!is_function_type("OBJECT"));
    assert!(!is_function_type(""));
}

#[test]
fn sha1_text_parses_to_digest() {
    let text = "da39a3ee5e6b4b0d3255bfef95601890afd80709";
    let d = parse_sha1(text).unwrap();
    assert_eq!(d[0], 0xDA);
    assert_eq!(d[19], 0x09);
    let digest: [u8; 20] = Sha1::digest(b"").into();
    assert_eq!(d, digest);
    assert_eq!(parse_sha1("DA39A3EE5E6B4B0D3255BFEF95601890AFD80709").unwrap(), digest);
}

#[test]
fn sha1_text_errors() {
    assert_eq!(parse_sha1("abcd").unwrap_err(), "invalid SHA-1 length (4): abcd");
    let bad = "zz39a3ee5e6b4b0d3255bfef95601890afd80709";
    assert_eq!(parse_sha1(bad).unwrap_err(), format!("invalid hex digit in {}: invalid digit found in string", bad));
}

#[test]
fn sdk_matches_come_from_executable_sections_only() {
    let body = long_body();
    let rec = record_for(&body, "libpad", "PadInit", 0);
    let mut db = SceSymbolDatabase::new(trie_to(vec![key_of(&rec)])).unwrap();
    db.insert_symbol(rec);
    let data = image_with_body(&body);
    let sec = |name: &str, address: u32, flags: u32| ElfSection {
        name: name.to_string(),
        address,
        size: data.len() as u32,
        offset: 0,
        data: data.clone(),
        flags,
    };
    let matches = scan_sce_sdk_matches(&db, &[sec(".data", 0x0020_0000, 0x3), sec(".text", 0x0010_0000, 0x6)]);
    assert_eq!(matches.len(), 1);
    assert_eq!(matches[0].address, 0x0010_0008);
    assert_eq!(matches[0].name, "PadInit");
}

#[test]
fn sha1_known_vector() {
    // FIPS-180 test: SHA-1("abc") = a9993e364706816aba3e25717850c26c9cd0d89d
    let d = Sha1::digest(b"abc");
    let want: [u8; 20] = [
        0xa9, 0x99, 0x3e, 0x36, 0x47, 0x06, 0x81, 0x6a, 0xba, 0x3e,
        0x25, 0x71, 0x78, 0x50, 0xc2, 0x6c, 0x9c, 0xd0, 0xd8, 0x9d,
    ];
    assert_eq!(d.as_slice(), &want);
}

#[test]
fn scan_on_empty_sections_is_empty() {
    // Scanning no code must never panic and return no matches.
    let body = long_body();
    let rec = record_for(&body, "libc", "memcpy", 0);
    let mut db = SceSymbolDatabase::new(trie_to(vec![key_of(&rec)])).unwrap();
    db.insert_symbol(rec);
    let empty: Vec<CodeSection<'_>> = Vec::new();
    let matches = db.scan(&empty);
    assert!(matches.is_empty());
}

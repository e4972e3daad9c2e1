use aura_decomp::gamecube::disassemble_ppc_instruction;

fn words(ws: &[u32]) -> Vec<u8> {
    ws.iter().flat_map(|w| w.to_le_bytes()).collect()
}

fn one(w: u32, at: u64) -> (String, String) {
    let mut data = vec![0u8; at as usize];
    data.extend_from_slice(&w.to_le_bytes());
    let out = disassemble_ppc_instruction(&data, at, 1);
    assert_eq!(out.len(), 1);
    (out[0].mnemonic.clone(), out[0].operands.clone())
}

#[test]
fn gc_three_register_forms_double_the_r() {
    let w = (14 << 26) | (3 << 21) | (4 << 16) | (5 << 11);
    assert_eq!(one(w, 0), ("add".to_string(), "rr3, rr4, rr5".to_string()));
    let w = (14 << 26) | (7 << 21);
    assert_eq!(one(w, 0), ("clrrw".to_string(), "rr7".to_string()));
    let w = (17 << 26) | (2 << 21) | (9 << 16) | (6 << 11);
    assert_eq!(one(w, 0), ("mulhw".to_string(), "rr2, rr2, rr6".to_string()));
}

#[test]
fn gc_float_and_compare_forms() {
    let w = (37 << 26) | (1 << 21) | (2 << 16) | (3 << 11);
    assert_eq!(one(w, 0), ("lfd".to_string(), "f1, rr2, rr3".to_string()));
    let w = (5 << 26) | (3 << 16) | (4 << 11);
    assert_eq!(one(w, 0), ("cmp".to_string(), "cr3, r3, r4".to_string()));
    let w = (0 << 26) | (2 << 16) | (1 << 11);
    assert_eq!(one(w, 0), ("mcrf".to_string(), "cr21".to_string()));
}

#[test]
fn gc_branches_are_pc_relative() {
    let w = (2 << 26) | 0x100;
    assert_eq!(one(w, 0x40), ("b".to_string(), "0x140".to_string()));
    let w = (2 << 26) | (1 << 21) | 0x100;
    assert_eq!(one(w, 0x40), ("bl".to_string(), "0x200140".to_string()));
    let w = (3 << 26) | (16 << 21) | (2 << 16) | 0x20;
    assert_eq!(one(w, 0), ("bl".to_string(), "cr2, 0x2020020".to_string()));
    let w = (61 << 26) | 0x8;
    assert_eq!(one(w, 0x10), ("bdnzl".to_string(), "0x18".to_string()));
}

#[test]
fn gc_immediate_and_unknown_words() {
    let w = (16 << 26) | (3 << 21) | (4 << 16);
    assert_eq!(one(w, 0), ("mulsi".to_string(), "rr3, rr4, 16484".to_string()));
    let w = (16 << 26) | (31 << 21) | (31 << 16);
    assert_eq!(one(w, 0), ("mulsi".to_string(), "rr31, rr31, 17407".to_string()));
    assert_eq!(one(1 << 26, 0), (".word".to_string(), "0x04000000".to_string()));
    let w = (31 << 26) | (5 << 21) | (0xAB << 16);
    assert_eq!(one(w, 0), ("ms".to_string(), "cr_mask=0xAB, reg=5".to_string()));
}

#[test]
fn gc_listing_walks_words_from_address() {
    let data = words(&[(19 << 26) | (1 << 21) | (2 << 16) | (3 << 11), 1 << 26, 0, 0]);
    let out = disassemble_ppc_instruction(&data, 4, 2);
    assert_eq!(out.len(), 2);
    assert_eq!(out[0].address, 4);
    assert_eq!(out[0].mnemonic, ".word");
    assert_eq!(out[0].bytes, vec![0, 0, 0, 4]);
    assert_eq!(out[1].address, 8);
    assert_eq!(out[1].size, 4);
    // Only whole words inside the data are listed.
    assert_eq!(disassemble_ppc_instruction(&data, 14, 10).len(), 0);
    assert_eq!(disassemble_ppc_instruction(&data, 0, 10).len(), 4);
}

use aura_decomp::project::{apply_patches, apply_project_to_functions, AuraProject};

#[test]
fn rename_is_read_back_and_keeps_comment() {
    let mut p = AuraProject::default();
    p.comment(0x1000, "entry".to_string());
    p.rename(0x1000, "main".to_string());
    assert_eq!(p.name_at(0x1000), Some("main"));
    assert_eq!(p.comment_at(0x1000), Some("entry"));
    assert_eq!(p.name_at(0x2000), None);
    // A later rename replaces the earlier name.
    p.rename(0x1000, "start".to_string());
    assert_eq!(p.name_at(0x1000), Some("start"));
}

#[test]
fn project_names_apply_to_detected_functions() {
    let mut p = AuraProject::default();
    p.rename(0x80010000, "Init".to_string());
    let funcs = vec![(0x80010000u32, "sub_80010000".to_string()), (0x80010100u32, "sub_80010100".to_string())];
    let out = apply_project_to_functions(&funcs, &p);
    assert_eq!(out, vec![(0x80010000u32, "Init".to_string()), (0x80010100u32, "sub_80010100".to_string())]);
}

#[test]
fn patches_apply_in_order_and_skip_out_of_range() {
    let mut p = AuraProject::default();
    p.patch(0x1002, vec![0xAA, 0xBB], None);
    p.patch(0x1003, vec![0xCC], Some("fix".to_string()));
    p.patch(0x0FFF, vec![0x11], None);
    p.patch(0x1007, vec![0x22, 0x33], None);
    let mut data = vec![0u8; 8];
    let applied = apply_patches(&mut data, 0x1000, &p);
    assert_eq!(applied, 2);
    assert_eq!(data, vec![0, 0, 0xAA, 0xCC, 0, 0, 0, 0]);
}

#[test]
fn applying_patches_twice_equals_once() {
    let mut p = AuraProject::default();
    p.patch(0x10, vec![1, 2, 3], None);
    p.patch(0x11, vec![9], None);
    let mut once = vec![7u8; 6];
    apply_patches(&mut once, 0x10, &p);
    let mut twice = once.clone();
    apply_patches(&mut twice, 0x10, &p);
    assert_eq!(once, twice);
    assert_eq!(once.len(), 6);
}

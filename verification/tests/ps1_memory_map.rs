use aura_decomp::ps1_memory_map::{
    classify_address, describe_region, is_device_register, is_kernel_ram, is_user_ram, lookup_address,
    MemoryRegion,
};

#[test]
fn classifies_kernel_ram() {
    assert_eq!(classify_address(0x1F_F0_0000), MemoryRegion::KernelRam);
    assert_eq!(classify_address(0x1F_FF_FFFF), MemoryRegion::KernelRam);
    assert!(is_kernel_ram(0x1F_F8_0000));
}

#[test]
fn classifies_user_ram() {
    assert_eq!(classify_address(0x20_00_0000), MemoryRegion::UserRam);
    assert_eq!(classify_address(0x37_EF_FFFF), MemoryRegion::UserRam);
    assert!(is_user_ram(0x24_00_0000));
}

#[test]
fn classifies_gpu_registers() {
    assert_eq!(classify_address(0x30_00_0000), MemoryRegion::GpuRegisters);
    assert_eq!(classify_address(0x31_FF_FFFF), MemoryRegion::GpuRegisters);
    assert!(is_device_register(0x30_01_0000));
}

#[test]
fn classifies_spu_registers() {
    assert_eq!(classify_address(0x1D_00_0000), MemoryRegion::SpuRegisters);
    assert!(is_device_register(0x1D_40_0000));
}

#[test]
fn classifies_coprocessor_registers() {
    assert_eq!(classify_address(0x1E_00_0000), MemoryRegion::CoprocessorRegisters);
    assert_eq!(classify_address(0x1F_EF_FFFF), MemoryRegion::CoprocessorRegisters);
}

#[test]
fn classifies_io_controller() {
    assert_eq!(classify_address(0x38_00_0000), MemoryRegion::IoController);
    assert!(is_device_register(0x38_10_0000));
}

#[test]
fn unknown_outside_all_windows() {
    assert_eq!(classify_address(0x00_00_0000), MemoryRegion::Unknown);
    assert_eq!(classify_address(0xFF_FF_FFFF), MemoryRegion::Unknown);
    assert!(!is_user_ram(0x00_00_0000));
    assert!(!is_kernel_ram(0x00_00_0000));
}

#[test]
fn lookup_returns_entry_with_name() {
    let e = lookup_address(0x24_00_0000).expect("user ram should match");
    assert_eq!(e.name, "User RAM");
    assert_eq!(e.region, MemoryRegion::UserRam);
}

#[test]
fn describe_region_formats_range() {
    let s = describe_region(0x24_00_0000);
    assert!(s.starts_with("User RAM"), "got: {}", s);
    assert!(s.contains("0x20000000"), "got: {}", s);
}

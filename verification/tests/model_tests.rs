use md2core::model::{
    align_down, align_up, padded_vec, Architecture, CrashedProcess, Mapping, MappingPermissions,
    ProcessInfo,
};
use md2core::notes::build_prpsinfo;
use md2core::Md2CoreError;

#[test]
fn prpsinfo_aarch64_uid_gid_are_u16() {
    let info = ProcessInfo::new();
    let bytes = build_prpsinfo(Architecture::Aarch64, &info);

    assert!(
        bytes.len() > 20,
        "descriptor too short: {} bytes",
        bytes.len()
    );
    assert_eq!(
        &bytes[16..18],
        &0u16.to_le_bytes(),
        "pr_uid at offset 16 should be u16 (2 bytes)"
    );
    assert_eq!(
        &bytes[18..20],
        &0u16.to_le_bytes(),
        "pr_gid at offset 18 should be u16 (2 bytes)"
    );
    assert_eq!(
        bytes.len(),
        132,
        "AArch64 prpsinfo descriptor should be 132 bytes"
    );
}

#[test]
fn prpsinfo_x86_64_uid_gid_are_u32() {
    let info = ProcessInfo::new();
    let bytes = build_prpsinfo(Architecture::X86_64, &info);

    assert!(
        bytes.len() > 24,
        "descriptor too short: {} bytes",
        bytes.len()
    );
    assert_eq!(
        &bytes[16..20],
        &0u32.to_le_bytes(),
        "pr_uid at offset 16 should be u32 (4 bytes)"
    );
    assert_eq!(
        &bytes[20..24],
        &0u32.to_le_bytes(),
        "pr_gid at offset 20 should be u32 (4 bytes)"
    );
    assert_eq!(
        bytes.len(),
        136,
        "X86_64 prpsinfo descriptor should be 136 bytes"
    );
}

#[test]
fn prpsinfo_descriptor_sizes_differ_by_arch() {
    let info = ProcessInfo::new();
    let x86_bytes = build_prpsinfo(Architecture::X86, &info);
    let x86_64_bytes = build_prpsinfo(Architecture::X86_64, &info);
    let aarch64_bytes = build_prpsinfo(Architecture::Aarch64, &info);

    assert_ne!(
        x86_bytes.len(),
        x86_64_bytes.len(),
        "X86 and X86_64 prpsinfo descriptors must have different sizes"
    );
    assert_ne!(
        x86_64_bytes.len(),
        aarch64_bytes.len(),
        "X86_64 and AArch64 prpsinfo descriptors should have different sizes (u32 vs u16 uid/gid)"
    );

    assert_eq!(x86_64_bytes.len(), 136);
    assert_eq!(aarch64_bytes.len(), 132);
}

#[test]
fn prpsinfo_x86_is_124_bytes_with_pid_names_and_args() {
    let mut info = ProcessInfo::new();
    info.pid = 0x0102_0304;
    info.apply_cmdline(b"/usr/bin/app\0--flag\0");
    let bytes = build_prpsinfo(Architecture::X86, &info);
    assert_eq!(bytes.len(), 124);
    assert_eq!(&bytes[0..4], &[0, b'R', 0, 0]);
    // pr_pid after state (4), flag (4) and 16-bit uid/gid (4).
    assert_eq!(&bytes[12..16], &0x0102_0304u32.to_le_bytes());
    assert_eq!(&bytes[28..31], b"app");
    assert_eq!(&bytes[44..63], b"/usr/bin/app --flag");
}

#[test]
fn architecture_properties() {
    assert_eq!(Architecture::X86.elf_class(), 1);
    assert_eq!(Architecture::Mips64.elf_class(), 2);
    assert_eq!(Architecture::X86_64.elf_machine(), 62);
    assert_eq!(Architecture::Aarch64.elf_machine(), 183);
    assert_eq!(Architecture::Arm.elf_machine(), 40);
    assert_eq!(Architecture::Mips.elf_machine(), 8);
    assert_eq!(Architecture::X86.elf_machine(), 3);
    assert!(Architecture::Aarch64.is_64bit());
    assert!(!Architecture::Arm.is_64bit());
    assert_eq!(Architecture::Mips.long_size(), 4);
    assert_eq!(Architecture::X86_64.long_size(), 8);
    assert!(Architecture::Mips.prpsinfo_uid_is_u32());
    assert!(!Architecture::Aarch64.prpsinfo_uid_is_u32());
    assert_eq!(Architecture::Aarch64.as_str(), "aarch64");
    assert_eq!(Architecture::X86_64.as_str(), "x86_64");
}

#[test]
fn permissions_to_elf_flags() {
    assert_eq!(MappingPermissions::new(true, false, true).to_elf_flags(), 5);
    assert_eq!(MappingPermissions::read_write().to_elf_flags(), 6);
    assert_eq!(MappingPermissions::read_only().to_elf_flags(), 4);
    assert_eq!(MappingPermissions::new(false, false, false).to_elf_flags(), 0);
    let p = MappingPermissions::read_only();
    assert!(p.is_readable() && !p.is_writable() && !p.is_executable());
}

#[test]
fn mapping_new_rejects_empty_range() {
    let r = Mapping::new(0x2000, 0x2000, MappingPermissions::read_only());
    assert_eq!(
        r,
        Err(Md2CoreError::InvalidAddressRange { start: 0x2000, end: 0x2000 })
    );
    let m = Mapping::new(0x1000, 0x2000, MappingPermissions::read_only())
        .unwrap()
        .with_file("/lib/x.so".to_owned(), 0x3000);
    assert!(m.contains(0x1000));
    assert!(m.contains(0x1fff));
    assert!(!m.contains(0x2000));
    assert_eq!(m.offset, 0x3000);
    assert_eq!(m.filename.as_deref(), Some("/lib/x.so"));
}

#[test]
fn alignment_helpers() {
    assert_eq!(align_up(0x1001, 0x1000), Ok(0x2000));
    assert_eq!(align_up(0x2000, 0x1000), Ok(0x2000));
    assert_eq!(align_up(5, 0), Err(Md2CoreError::InvalidAlignment));
    assert_eq!(
        align_up(u64::MAX, 0x1000),
        Err(Md2CoreError::IntegerOverflow("aligned value"))
    );
    assert_eq!(align_down(0x1fff, 0x1000), Ok(0x1000));
    assert_eq!(align_down(7, 0), Err(Md2CoreError::InvalidAlignment));
}

#[test]
fn padded_vec_layout() {
    let v = padded_vec(3, b"ab", 8).unwrap();
    assert_eq!(v, vec![0, 0, 0, b'a', b'b', 0, 0, 0]);
    let w = padded_vec(0, b"12345678", 4).unwrap();
    assert_eq!(w, b"12345678".to_vec());
    assert_eq!(padded_vec(0, b"x", 0), Err(Md2CoreError::InvalidAlignment));
}

#[test]
fn cmdline_sets_fname_and_psargs() {
    let mut info = ProcessInfo::new();
    info.apply_cmdline(b"/system/bin/app_process32\0-Xzygote\0/system/bin\0");
    assert_eq!(&info.filename[..15], b"app_process32\0\0");
    assert_eq!(info.filename[15], 0);
    assert_eq!(
        &info.arguments[..45],
        b"/system/bin/app_process32 -Xzygote /system/bin"[..45].as_ref()
    );
    // A command line without separator changes nothing.
    let mut other = ProcessInfo::new();
    other.apply_cmdline(b"noseparator");
    assert_eq!(other, ProcessInfo::new());
}

#[test]
fn cmdline_truncates_long_names() {
    let mut info = ProcessInfo::new();
    info.apply_cmdline(b"/bin/a_very_long_binary_name_here arg");
    assert_eq!(&info.filename[..15], b"a_very_long_bin");
    assert_eq!(info.filename[15], 0);
}

#[test]
fn module_name_fallback_only_when_unset() {
    let mut info = ProcessInfo::new();
    info.apply_module_name_fallback("/data/app/libfoo.so");
    assert_eq!(&info.filename[..9], b"libfoo.so");
    assert_eq!(&info.arguments[..9], b"libfoo.so");
    let before = info.clone();
    info.apply_module_name_fallback("/other/bar");
    assert_eq!(info, before);
}

#[test]
fn crashed_process_tables() {
    let mut p = CrashedProcess::new(Architecture::Arm);
    assert_eq!(p.architecture(), Architecture::Arm);
    let a = Mapping::new(0x1000, 0x2000, MappingPermissions::read_only()).unwrap();
    let b = Mapping::new(0x1000, 0x3000, MappingPermissions::read_write()).unwrap();
    p.insert_mapping(a);
    p.insert_mapping_if_absent(b);
    assert_eq!(p.mappings().get(&0x1000).unwrap().end_address, 0x2000);
    let c = Mapping::new(0x1000, 0x4000, MappingPermissions::read_write()).unwrap();
    p.insert_mapping(c);
    // An entry already at that start address is kept.
    assert_eq!(p.mappings().get(&0x1000).unwrap().end_address, 0x2000);
    let d = Mapping::new(0x5000, 0x6000, MappingPermissions::read_write()).unwrap();
    p.insert_mapping(d);
    assert_eq!(p.mappings().get(&0x5000).unwrap().end_address, 0x6000);
    p.mappings_mut().clear();
    assert!(p.mappings().is_empty());
    p.set_auxv(vec![1, 2, 3]);
    assert_eq!(p.auxv(), &[1, 2, 3]);
    p.set_pid(42);
    assert_eq!(p.process_info().pid, 42);
    assert!(p.threads().is_empty());
}

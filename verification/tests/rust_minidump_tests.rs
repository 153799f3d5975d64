use md2core::model::Architecture;
use md2core::regs::{ArmContext, CpuContext};
use md2core::rust_minidump::{
    architecture_from_cpu_os, mappings_from_minidump_linux_maps, parse_dso_debug,
    read_process_from_minidump, ConvertOptions, Cpu, ExceptionInfo, Guid, LinuxMapEntry,
    MinidumpStreams, ModuleInfo, Os,
};
use md2core::model::ThreadSnapshot;
use md2core::Md2CoreError;

#[test]
fn maps_supported_linux_cpu_to_architecture() {
    assert_eq!(
        architecture_from_cpu_os(Cpu::X86_64, Os::Linux),
        Ok(Architecture::X86_64)
    );
    assert_eq!(
        architecture_from_cpu_os(Cpu::Arm64, Os::NaCl),
        Ok(Architecture::Aarch64)
    );
}

#[test]
fn rejects_non_linux_minidumps() {
    assert_eq!(
        architecture_from_cpu_os(Cpu::X86_64, Os::Windows),
        Err(Md2CoreError::UnsupportedSystem {
            os: "windows".to_owned(),
            cpu: "amd64".to_owned(),
        })
    );
}

#[test]
fn maps_x86_cpu_to_architecture() {
    assert_eq!(
        architecture_from_cpu_os(Cpu::X86, Os::Linux),
        Ok(Architecture::X86)
    );
}

#[test]
fn maps_arm_cpu_to_architecture() {
    assert_eq!(
        architecture_from_cpu_os(Cpu::Arm, Os::Linux),
        Ok(Architecture::Arm)
    );
}

#[test]
fn maps_mips_cpu_to_architecture() {
    assert_eq!(
        architecture_from_cpu_os(Cpu::Mips, Os::Linux),
        Ok(Architecture::Mips)
    );
}

#[test]
fn maps_mips64_cpu_to_architecture() {
    assert_eq!(
        architecture_from_cpu_os(Cpu::Mips64, Os::Linux),
        Ok(Architecture::Mips64)
    );
}

#[test]
fn unsupported_cpu_returns_error() {
    let result = architecture_from_cpu_os(Cpu::Ppc, Os::Linux);
    assert!(
        matches!(result, Err(Md2CoreError::UnsupportedSystem { .. })),
        "Ppc CPU should return UnsupportedSystem, got: {result:?}"
    );
}

#[test]
fn rejects_macos_minidumps() {
    let result = architecture_from_cpu_os(Cpu::X86_64, Os::MacOs);
    assert_eq!(
        result,
        Err(Md2CoreError::UnsupportedSystem {
            os: "mac".to_owned(),
            cpu: "amd64".to_owned(),
        })
    );
}

#[test]
fn android_and_unknown_names() {
    assert_eq!(
        architecture_from_cpu_os(Cpu::Mips, Os::Android),
        Ok(Architecture::Mips)
    );
    assert_eq!(
        architecture_from_cpu_os(Cpu::Unknown(7), Os::Linux),
        Err(Md2CoreError::UnsupportedSystem {
            os: "linux".to_owned(),
            cpu: "unknown".to_owned(),
        })
    );
    assert_eq!(Os::Unknown(3).name(), "unknown");
    assert_eq!(Cpu::Arm64.name(), "arm64");
}

fn entry(start: u64, end: u64, path: Option<&str>) -> LinuxMapEntry {
    LinuxMapEntry {
        start,
        end,
        offset: 0x10,
        readable: true,
        writable: false,
        executable: true,
        path: path.map(str::to_owned),
    }
}

#[test]
fn typed_maps_keep_absolute_paths() {
    let entries = vec![
        entry(0x1000, 0x2000, Some("/lib/a.so")),
        entry(0x2000, 0x3000, None),
        entry(0x3000, 0x4000, Some("[vdso]")),
        entry(0x4000, 0x5000, Some("/lib/b.so")),
    ];
    let ms = mappings_from_minidump_linux_maps(&entries).unwrap();
    assert_eq!(ms.len(), 2);
    assert_eq!(ms[0].filename.as_deref(), Some("/lib/a.so"));
    assert_eq!(ms[0].offset, 0x10);
    assert!(ms[0].permissions.is_executable());
    assert_eq!(ms[1].start_address, 0x4000);
    let bad = vec![entry(0x5000, 0x5000, Some("/x"))];
    assert_eq!(
        mappings_from_minidump_linux_maps(&bad),
        Err(Md2CoreError::InvalidAddressRange { start: 0x5000, end: 0x5000 })
    );
}

fn md_string(text: &str) -> Vec<u8> {
    let mut v = ((text.len() * 2) as u32).to_le_bytes().to_vec();
    for b in text.bytes() {
        v.extend_from_slice(&u16::from(b).to_le_bytes());
    }
    v
}

#[test]
fn dso_debug_64_with_link_map() {
    // File: [0..8) padding, link map entries at 8, strings after.
    let mut file = vec![0u8; 8];
    let name_rva = 8 + 2 * 24;
    let mut second_name = md_string("/lib/libc.so");
    let second_rva = name_rva + md_string("ld.so").len();
    for (addr, name, ld) in [(0x1000u64, name_rva, 0x2000u64), (0x3000, second_rva, 0x4000)] {
        let mut e = Vec::new();
        e.extend_from_slice(&addr.to_le_bytes());
        e.extend_from_slice(&(name as u32).to_le_bytes());
        e.extend_from_slice(&ld.to_le_bytes());
        e.resize(24, 0);
        file.extend_from_slice(&e);
    }
    file.extend_from_slice(&md_string("ld.so"));
    file.append(&mut second_name);

    let mut stream = Vec::new();
    stream.extend_from_slice(&1u32.to_le_bytes()); // version
    stream.extend_from_slice(&8u32.to_le_bytes()); // map
    stream.extend_from_slice(&2u32.to_le_bytes()); // dso_count
    stream.extend_from_slice(&0x10u64.to_le_bytes()); // brk
    stream.extend_from_slice(&0x20u64.to_le_bytes()); // ldbase
    stream.extend_from_slice(&0x30u64.to_le_bytes()); // dynamic
    stream.resize(40, 0);
    stream.extend_from_slice(&[9, 9, 9]);

    let d = parse_dso_debug(Architecture::X86_64, &stream, &file).unwrap();
    assert_eq!(d.version, 1);
    assert_eq!(d.brk, 0x10);
    assert_eq!(d.ldbase, 0x20);
    assert_eq!(d.dynamic, 0x30);
    assert_eq!(d.dynamic_data, vec![9, 9, 9]);
    assert_eq!(d.link_map.len(), 2);
    assert_eq!(d.link_map[0].addr, 0x1000);
    assert_eq!(d.link_map[0].ld, 0x2000);
    assert_eq!(d.link_map[0].name, "ld.so");
    assert_eq!(d.link_map[1].name, "/lib/libc.so");
}

#[test]
fn dso_debug_short_stream_is_empty_and_truncated_map_stops() {
    let d = parse_dso_debug(Architecture::X86, &[1, 2, 3], &[]).unwrap();
    assert_eq!(d.version, 0);
    assert!(d.link_map.is_empty());
    assert!(d.dynamic_data.is_empty());

    // A 32-bit header pointing at 5 entries of which only one fits.
    let mut file = vec![0u8; 12];
    file[0..4].copy_from_slice(&0x1000u32.to_le_bytes());
    file[4..8].copy_from_slice(&u32::MAX.to_le_bytes());
    file[8..12].copy_from_slice(&0x2000u32.to_le_bytes());
    let mut stream = Vec::new();
    for v in [2u32, 0, 5, 1, 2, 3] {
        stream.extend_from_slice(&v.to_le_bytes());
    }
    let d = parse_dso_debug(Architecture::Arm, &stream, &file).unwrap();
    assert_eq!(d.link_map.len(), 1);
    assert_eq!(d.link_map[0].addr, 0x1000);
    assert_eq!(d.link_map[0].ld, 0x2000);
    assert_eq!(d.link_map[0].name, "");
    assert_eq!(d.ldbase, 2);

    // The invalid RVA means no link map at all.
    let mut stream = Vec::new();
    for v in [2u32, u32::MAX, 5, 1, 2, 3] {
        stream.extend_from_slice(&v.to_le_bytes());
    }
    let d = parse_dso_debug(Architecture::Arm, &stream, &file).unwrap();
    assert!(d.link_map.is_empty());
}

fn streams(cpu: Cpu, os: Os) -> MinidumpStreams {
    MinidumpStreams {
        system_info: Ok((cpu, os)),
        linux_maps: None,
        auxv: Ok(None),
        cmdline: Ok(None),
        threads: None,
        modules: None,
        exception: None,
        dso_debug: Ok(None),
    }
}

fn options(mangle: bool, dir: Option<&str>) -> ConvertOptions {
    ConvertOptions {
        mangle_sonames: mangle,
        so_base_dir: dir.map(str::to_owned),
        verbose: false,
    }
}

fn module(base: u64, size: u32, name: &str, guid: Option<Guid>) -> ModuleInfo {
    ModuleInfo {
        base,
        size,
        name: name.to_owned(),
        guid,
    }
}

#[test]
fn read_process_rejects_unsupported_system() {
    let r = read_process_from_minidump(streams(Cpu::Sparc, Os::Linux), &[], &options(false, None));
    assert!(matches!(r, Err(Md2CoreError::UnsupportedSystem { .. })));
}

#[test]
fn read_process_collects_streams() {
    let mut s = streams(Cpu::Arm, Os::Android);
    s.linux_maps = Some(vec![entry(0x1000, 0x2000, Some("/system/bin/app"))]);
    s.auxv = Ok(Some(vec![6, 0, 0, 0]));
    s.cmdline = Ok(Some(b"/system/bin/app\0-x\0".to_vec()));
    s.threads = Some(vec![ThreadSnapshot {
        tid: 7,
        stack_address: 0x9000,
        stack: vec![1, 2, 3],
        context: Some(CpuContext::Arm(ArmContext { iregs: [0; 16], cpsr: 0 })),
    }]);
    s.modules = Some(vec![
        module(0x1000, 0x1000, "/system/bin/app", None),
        module(0x8000, 0x1000, "/system/lib/libc.so", None),
        module(0xa000, 0, "/system/lib/empty.so", None),
    ]);
    s.exception = Some(ExceptionInfo {
        thread_id: 7,
        exception_code: 11,
        context: None,
    });
    let p = read_process_from_minidump(s, &[], &options(false, None)).unwrap();
    assert_eq!(p.architecture(), Architecture::Arm);
    assert_eq!(p.auxv(), &[6, 0, 0, 0]);
    assert_eq!(&p.process_info().filename[..3], b"app");
    assert_eq!(p.threads().len(), 1);
    assert_eq!(p.crashing_tid, Some(7));
    assert_eq!(p.fatal_signal, 11);
    // The maps stream wins over the module list at the same address.
    let first = p.mappings().get(&0x1000).unwrap();
    assert_eq!(first.offset, 0x10);
    assert!(first.permissions.is_executable());
    let libc = p.mappings().get(&0x8000).unwrap();
    assert_eq!(libc.end_address, 0x9000);
    assert!(libc.permissions.is_readable() && !libc.permissions.is_writable());
    assert_eq!(libc.filename.as_deref(), Some("/system/lib/libc.so"));
    assert!(p.mappings().get(&0xa000).is_none());
    assert_eq!(p.signatures.get(&0xa000).map(String::as_str), Some("/system/lib/empty.so"));
    assert_eq!(p.mappings().len(), 2);
}

#[test]
fn auxv_holding_maps_text_becomes_mappings() {
    let mut s = streams(Cpu::X86, Os::Linux);
    s.auxv = Ok(Some(b"08048000-08049000 r-xp 00000000 08:01 5 /bin/true\n".to_vec()));
    let p = read_process_from_minidump(s, &[], &options(false, None)).unwrap();
    assert!(p.auxv().is_empty());
    assert_eq!(
        p.mappings().get(&0x0804_8000).unwrap().filename.as_deref(),
        Some("/bin/true")
    );
}

#[test]
fn exception_code_keeps_its_bits() {
    let mut s = streams(Cpu::X86, Os::Linux);
    s.exception = Some(ExceptionInfo {
        thread_id: 1,
        exception_code: 0xffff_fffe,
        context: None,
    });
    let p = read_process_from_minidump(s, &[], &options(false, None)).unwrap();
    assert_eq!(p.fatal_signal, -2);
}

#[test]
fn module_names_follow_options() {
    let guid = Guid {
        data1: 0x0102_0304,
        data2: 0x0506,
        data3: 0x0708,
        data4: [0x09, 0x0a, 0x0b, 0x0c, 0x0d, 0x0e, 0x0f, 0xab],
    };
    let zero = Guid { data1: 0, data2: 0, data3: 0, data4: [0; 8] };
    let run = |opts: ConvertOptions, g: Option<Guid>| {
        let mut s = streams(Cpu::X86_64, Os::Linux);
        s.modules = Some(vec![module(0x7000, 0x1000, "/data/lib/libx.so", g)]);
        let p = read_process_from_minidump(s, &[], &opts).unwrap();
        p.signatures.get(&0x7000).cloned().unwrap()
    };
    assert_eq!(run(options(false, None), Some(guid)), "/data/lib/libx.so");
    assert_eq!(run(options(true, Some("/tmp/syms//")), Some(guid)), "/tmp/syms/libx.so");
    assert_eq!(
        run(options(true, None), Some(guid)),
        "/var/lib/breakpad/01020304-0506-0708-090A-0B0C0D0E0FAB-libx.solibx.so"
    );
    assert_eq!(run(options(true, None), Some(zero)), "/data/lib/libx.so");
    assert_eq!(run(options(true, None), None), "/data/lib/libx.so");
}

#[test]
fn bad_maps_text_in_auxv_is_an_error() {
    let mut s = streams(Cpu::X86, Os::Linux);
    s.auxv = Ok(Some(b"08048000-08049000 r-xp zz 08:01 5 /bin/true\n".to_vec()));
    let r = read_process_from_minidump(s, &[], &options(false, None));
    assert_eq!(
        r.err(),
        Some(Md2CoreError::InvalidMapsLine(
            "08048000-08049000 r-xp zz 08:01 5 /bin/true".to_owned()
        ))
    );
}

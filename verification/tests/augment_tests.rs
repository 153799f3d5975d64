use std::collections::BTreeMap;

use md2core::augment::{add_data_to_mapping, augment_process, augment_process_checked, LINK_MAP_ADDR};
use md2core::model::{
    Architecture, CrashedProcess, LinkMapEntry, Mapping, MappingPermissions, ThreadSnapshot,
};
use md2core::Md2CoreError;

#[test]
fn add_data_splits_existing_file_mapping_at_page_boundary() {
    let mut mappings = BTreeMap::new();
    let mapping = Mapping::new(0x1000, 0x5000, MappingPermissions::new(true, false, true))
        .unwrap_or_else(|err| panic!("{err:?}"))
        .with_file("/lib/libc.so".to_owned(), 0);
    mappings.insert(mapping.start_address, mapping);

    add_data_to_mapping(&mut mappings, b"stack", 0x3200, 4096)
        .unwrap_or_else(|err| panic!("{err:?}"));

    assert_eq!(
        mappings.get(&0x1000).map(|mapping| mapping.end_address),
        Some(0x3000)
    );
    let data_mapping = mappings
        .get(&0x3000)
        .unwrap_or_else(|| panic!("missing data mapping"));
    assert_eq!(data_mapping.offset, 0x2000);
    assert_eq!(&data_mapping.data[0x200..0x205], b"stack");
    assert_eq!(data_mapping.data.len() % 4096, 0);
    assert_eq!(
        data_mapping.end_address, 0x5000,
        "data mapping end_address should equal the original mapping's end_address"
    );
    assert!(
        data_mapping.permissions.is_readable(),
        "data mapping should be readable"
    );
    assert!(
        !data_mapping.permissions.is_writable(),
        "data mapping should not be writable"
    );
    assert!(
        data_mapping.permissions.is_executable(),
        "data mapping should be executable"
    );
}

fn check_synthetic_mapping_is_page_aligned(address: u64, data: &[u8]) {
    let mut mappings = BTreeMap::new();
    add_data_to_mapping(&mut mappings, data, address, 4096).unwrap();

    let aligned = address - (address % 4096);
    let mapping = mappings.get(&aligned).expect("missing aligned mapping");
    let prefix = usize::try_from(address - aligned).unwrap();
    assert_eq!(mapping.data.len() % 4096, 0);
    assert_eq!(&mapping.data[prefix..prefix + data.len()], data);
    assert!(mapping.permissions.is_readable() && mapping.permissions.is_writable());
    assert!(mapping.filename.is_none());
}

#[test]
fn synthetic_mapping_data_is_page_aligned_small() {
    check_synthetic_mapping_is_page_aligned(0x1234, b"abc");
}

#[test]
fn synthetic_mapping_data_is_page_aligned_spanning_pages() {
    let data: Vec<u8> = (0..8191u32).map(|i| (i % 251) as u8).collect();
    check_synthetic_mapping_is_page_aligned(0x000f_f001, &data);
}

#[test]
fn synthetic_mapping_data_is_page_aligned_at_boundary() {
    check_synthetic_mapping_is_page_aligned(0x2000, &[7; 4096]);
    check_synthetic_mapping_is_page_aligned(0, &[1]);
}

#[test]
fn synthetic_mapping_data_is_page_aligned_empty() {
    check_synthetic_mapping_is_page_aligned(0x2000, &[]);
    check_synthetic_mapping_is_page_aligned(0x2345, &[]);
    check_synthetic_mapping_is_page_aligned(0, &[]);
}

#[test]
fn empty_data_at_page_boundary_gets_an_empty_page() {
    let mut mappings = BTreeMap::new();
    assert_eq!(add_data_to_mapping(&mut mappings, b"", 0x2000, 4096), Ok(()));
    let m = mappings.get(&0x2000).unwrap();
    assert_eq!(m.end_address, 0x3000);
    assert!(m.data.is_empty());
    // The last page of the address space has no room for a page after it.
    let mut last = BTreeMap::new();
    assert_eq!(
        add_data_to_mapping(&mut last, b"", u64::MAX - 4095, 4096),
        Err(Md2CoreError::IntegerOverflow("synthetic mapping end"))
    );
}

#[test]
fn synthetic_mapping_spans_the_data_pages() {
    let mut mappings = BTreeMap::new();
    add_data_to_mapping(&mut mappings, &[1; 10], 0x1ffa, 4096).unwrap();
    let m = mappings.get(&0x1000).unwrap();
    assert_eq!(m.end_address, 0x3000);
    assert_eq!(m.data.len(), 0x2000);
}

#[test]
fn add_data_errors() {
    let mut mappings: BTreeMap<u64, Mapping> = BTreeMap::new();
    assert_eq!(
        add_data_to_mapping(&mut mappings, b"x", 0x1000, 0),
        Err(Md2CoreError::InvalidAlignment)
    );
    assert_eq!(
        add_data_to_mapping(&mut mappings, b"xy", u64::MAX, 4096),
        Err(Md2CoreError::IntegerOverflow("synthetic mapping end"))
    );
    assert!(mappings.is_empty());
}

#[test]
fn add_data_over_anonymous_mapping_keeps_offset() {
    let mut mappings = BTreeMap::new();
    let m = Mapping::new(0x1000, 0x4000, MappingPermissions::read_write()).unwrap();
    mappings.insert(m.start_address, m);
    add_data_to_mapping(&mut mappings, b"zz", 0x2010, 4096).unwrap();
    assert_eq!(mappings.get(&0x1000).unwrap().end_address, 0x2000);
    let d = mappings.get(&0x2000).unwrap();
    assert_eq!(d.offset, 0);
    assert_eq!(d.end_address, 0x4000);
    assert_eq!(&d.data[0x10..0x12], b"zz");
}

fn process_with_dso(arch: Architecture) -> CrashedProcess {
    let mut p = CrashedProcess::new(arch);
    p.dso_debug.version = 1;
    p.dso_debug.brk = 0xb00;
    p.dso_debug.ldbase = 0xc00;
    p.dso_debug.link_map = vec![
        LinkMapEntry { addr: 0x10_0000, ld: 0x10_1000, name: "libone.so".to_owned() },
        LinkMapEntry { addr: 0x20_0000, ld: 0x20_1000, name: "libtwo".to_owned() },
    ];
    p
}

#[test]
fn augment_rebuilds_link_map_blob() {
    let mut p = process_with_dso(Architecture::X86_64);
    p.signatures.insert(0x20_0000, "/sym/libtwo.so".to_owned());
    augment_process(&mut p).unwrap();
    let m = p.mappings().get(&LINK_MAP_ADDR).unwrap();
    let blob = &m.data;
    let word = |i: usize| u64::from_le_bytes(blob[i * 8..i * 8 + 8].try_into().unwrap());
    // r_debug: version, r_map, r_brk, r_state, r_ldbase.
    assert_eq!(word(0), 1);
    assert_eq!(word(1), LINK_MAP_ADDR + 40);
    assert_eq!(word(2), 0xb00);
    assert_eq!(word(3), 0);
    assert_eq!(word(4), 0xc00);
    // First record at 40: l_addr, l_name, l_ld, l_next, l_prev.
    assert_eq!(word(5), 0x10_0000);
    assert_eq!(word(6), LINK_MAP_ADDR + 80);
    assert_eq!(word(7), 0x10_1000);
    // "libone.so" (9 bytes) pads to 16, so the next record is at 80 + 16.
    assert_eq!(word(8), LINK_MAP_ADDR + 96);
    assert_eq!(word(9), 0);
    assert_eq!(&blob[80..90], b"libone.so\0");
    // Second record uses the signature override and points back.
    assert_eq!(word(12), 0x20_0000);
    assert_eq!(word(13), LINK_MAP_ADDR + 136);
    assert_eq!(word(15), 0);
    assert_eq!(word(16), LINK_MAP_ADDR + 40);
    assert_eq!(&blob[136..151], b"/sym/libtwo.so\0");
    assert_eq!(blob.len() % 4096, 0);
}

#[test]
fn augment_patches_dt_debug_and_injects_stacks() {
    let mut p = process_with_dso(Architecture::Arm);
    p.dso_debug.dynamic = 0x5_0000;
    let mut dynamic = Vec::new();
    for (tag, val) in [(1u32, 5u32), (21, 0), (0, 0), (21, 0)] {
        dynamic.extend_from_slice(&tag.to_le_bytes());
        dynamic.extend_from_slice(&val.to_le_bytes());
    }
    p.dso_debug.dynamic_data = dynamic;
    p.add_thread(ThreadSnapshot {
        tid: 3,
        stack_address: 0x9_0010,
        stack: vec![0xee; 32],
        context: None,
    });
    p.add_thread(ThreadSnapshot {
        tid: 4,
        stack_address: 0xa_0000,
        stack: Vec::new(),
        context: None,
    });
    augment_process(&mut p).unwrap();
    let stack = p.mappings().get(&0x9_0000).unwrap();
    assert_eq!(&stack.data[0x10..0x30], &[0xee; 32]);
    assert!(p.mappings().get(&0xa_0000).is_none());
    let dynamic = p.mappings().get(&0x5_0000).unwrap();
    assert_eq!(&dynamic.data[12..16], &(LINK_MAP_ADDR as u32).to_le_bytes());
    // The DT_DEBUG entry after DT_NULL is left alone.
    assert_eq!(&dynamic.data[28..32], &0u32.to_le_bytes());
    // 32-bit blob: r_debug is 20 bytes.
    let blob = &p.mappings().get(&LINK_MAP_ADDR).unwrap().data;
    assert_eq!(&blob[4..8], &(LINK_MAP_ADDR as u32 + 20).to_le_bytes());
}

#[test]
fn augment_without_dso_data_adds_only_stacks() {
    let mut p = CrashedProcess::new(Architecture::X86);
    augment_process(&mut p).unwrap();
    assert!(p.mappings().is_empty());
}

#[test]
fn augment_reports_wide_words_on_32_bit() {
    let mut p = process_with_dso(Architecture::X86);
    p.dso_debug.brk = 1 << 40;
    assert_eq!(
        augment_process(&mut p),
        Err(Md2CoreError::IntegerOverflow("32-bit link-map word"))
    );
}

#[test]
fn checked_augment_refuses_data_below_file_backed_start() {
    let mut p = CrashedProcess::new(Architecture::X86_64);
    let m = Mapping::new(0x1800, 0x3000, MappingPermissions::read_only())
        .unwrap()
        .with_file("/lib/libx.so".to_owned(), 0);
    p.insert_mapping(m);
    p.add_thread(ThreadSnapshot {
        tid: 1,
        stack_address: 0x1900,
        stack: vec![1u8; 16],
        context: None,
    });
    assert_eq!(augment_process_checked(&mut p), None);
}

#[test]
fn checked_augment_adds_stacks() {
    let mut p = CrashedProcess::new(Architecture::X86_64);
    p.add_thread(ThreadSnapshot {
        tid: 1,
        stack_address: 0x7000_0010,
        stack: vec![7u8; 16],
        context: None,
    });
    assert_eq!(augment_process_checked(&mut p), Some(Ok(())));
    let m = p.mappings().get(&0x7000_0000).unwrap();
    assert_eq!(m.data.len(), 4096);
    assert_eq!(&m.data[0x10..0x20], &[7u8; 16]);
}

#[test]
fn augment_without_dso_or_stacks_changes_nothing() {
    let mut p = CrashedProcess::new(Architecture::Aarch64);
    p.insert_mapping(Mapping::new(0x1000, 0x2000, MappingPermissions::read_only()).unwrap());
    p.add_thread(ThreadSnapshot { tid: 3, stack_address: 0x5000, stack: Vec::new(), context: None });
    let before: Vec<(u64, u64)> =
        p.mappings().values().map(|m| (m.start_address, m.end_address)).collect();
    assert_eq!(augment_process(&mut p), Ok(()));
    let after: Vec<(u64, u64)> =
        p.mappings().values().map(|m| (m.start_address, m.end_address)).collect();
    assert_eq!(before, after);
}

#[test]
fn synthetic_mapping_data_is_page_aligned_many() {
    for address in [0u64, 1, 0xfff, 0x1000, 0x1234, 0x000f_ffff] {
        for len in [0usize, 1, 7, 4095, 4096, 4097, 8191] {
            let data: Vec<u8> = (0..len).map(|i| (i % 253) as u8).collect();
            check_synthetic_mapping_is_page_aligned(address, &data);
        }
    }
}

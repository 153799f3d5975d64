use std::collections::BTreeMap;

use md2core::model::{Architecture, Mapping, MappingPermissions};
use md2core::notes::{build_nt_file_payload, build_prstatus, Note};
use md2core::Md2CoreError;

#[test]
fn note_name_padded_to_4_bytes() {
    let note = Note::build(b"AB", 1, b"desc").unwrap();
    assert_eq!(note.bytes.len(), 12 + 4 + 4, "total size should be 20");
    assert_eq!(
        note.bytes.len() % 4,
        0,
        "total length must be 4-byte aligned"
    );
    assert_eq!(&note.bytes[12..15], b"AB\0");
    assert_eq!(note.bytes[15], 0, "pad byte after name should be zero");
}

#[test]
fn note_desc_padded_to_4_bytes() {
    let note = Note::build(b"CORE", 3, b"xyz").unwrap();
    assert_eq!(note.bytes.len(), 12 + 8 + 4, "total size should be 24");
    assert_eq!(note.bytes.len() % 4, 0);
    assert_eq!(&note.bytes[20..23], b"xyz");
    assert_eq!(note.bytes[23], 0);
}

#[test]
fn note_already_aligned_no_extra_padding() {
    let note = Note::build(b"GNU", 1, b"ABCD").unwrap();
    assert_eq!(
        note.bytes.len(),
        12 + 4 + 4,
        "no extra padding should be added"
    );
    assert_eq!(note.bytes.len() % 4, 0);
    assert_eq!(&note.bytes[12..16], b"GNU\0");
    assert_eq!(&note.bytes[16..20], b"ABCD");
}

#[test]
fn x86_64_prstatus_is_struct_aligned() {
    let pr_reg = vec![0; 216];
    let prstatus = build_prstatus(Architecture::X86_64, 1, 11, &pr_reg, true);

    assert_eq!(prstatus.len(), 336);
}

#[test]
fn note_header_counts_nul_and_keeps_existing_nul() {
    let note = Note::build(b"CORE\0", 6, b"").unwrap();
    assert_eq!(&note.bytes[0..4], &5u32.to_le_bytes());
    assert_eq!(&note.bytes[4..8], &0u32.to_le_bytes());
    assert_eq!(&note.bytes[8..12], &6u32.to_le_bytes());
    assert_eq!(note.bytes.len(), 12 + 8);
    let mut out = vec![9];
    note.write(&mut out).unwrap();
    assert_eq!(out.len(), 21);
    assert_eq!(&out[1..], &note.bytes[..]);
}

#[test]
fn prstatus_fields() {
    let pr_reg = vec![0xab; 68];
    let st = build_prstatus(Architecture::X86, 0x55, 11, &pr_reg, false);
    // siginfo (12) + cursig (2) padded to 4 (16) + sigpend/sighold (8) + pid.
    assert_eq!(&st[0..4], &11i32.to_le_bytes());
    assert_eq!(&st[12..14], &11i16.to_le_bytes());
    assert_eq!(&st[24..28], &0x55u32.to_le_bytes());
    // pr_reg after pids (16) and times (8 longs).
    assert_eq!(&st[72..140], &pr_reg[..]);
    assert_eq!(&st[140..144], &0i32.to_le_bytes());
    assert_eq!(st.len(), 144);
    let big = build_prstatus(Architecture::X86, 1, 100_000, &pr_reg, true);
    assert_eq!(&big[12..14], &i16::MAX.to_le_bytes());
    assert_eq!(&big[140..144], &1i32.to_le_bytes());
}

#[test]
fn nt_file_lists_named_mappings_in_address_order() {
    let mut mappings = BTreeMap::new();
    let a = Mapping::new(0x3000, 0x4000, MappingPermissions::read_only())
        .unwrap()
        .with_file("/b".to_owned(), 0x2000);
    let b = Mapping::new(0x1000, 0x2000, MappingPermissions::read_only()).unwrap();
    let c = Mapping::new(0x2000, 0x3000, MappingPermissions::read_only())
        .unwrap()
        .with_file("/a".to_owned(), 0);
    mappings.insert(a.start_address, a);
    mappings.insert(b.start_address, b);
    mappings.insert(c.start_address, c);
    let payload = build_nt_file_payload(Architecture::Arm, &mappings).unwrap();
    let words: Vec<u32> = payload[..32]
        .chunks(4)
        .map(|c| u32::from_le_bytes([c[0], c[1], c[2], c[3]]))
        .collect();
    assert_eq!(words, vec![2, 4096, 0x2000, 0x3000, 0, 0x3000, 0x4000, 2]);
    assert_eq!(&payload[32..], b"/a\0/b\0");
}

#[test]
fn nt_file_rejects_wide_values_on_32_bit() {
    let mut mappings = BTreeMap::new();
    let a = Mapping::new(0x1_0000_0000, 0x1_0000_1000, MappingPermissions::read_only())
        .unwrap()
        .with_file("/big".to_owned(), 0);
    mappings.insert(a.start_address, a);
    assert_eq!(
        build_nt_file_payload(Architecture::X86, &mappings),
        Err(Md2CoreError::IntegerOverflow("NT_FILE mapping start"))
    );
    assert!(build_nt_file_payload(Architecture::X86_64, &mappings).is_ok());
}

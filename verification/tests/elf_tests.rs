use md2core::elf::{ElfHeader, NoteHeader, ProgramHeader, PT_LOAD, PT_NOTE};
use md2core::Md2CoreError;

#[test]
fn elf64_header_magic_and_class() {
    let header = ElfHeader {
        class: 2,
        machine: 62,
        phnum: 0,
    };
    let mut buf = Vec::new();
    header.write(&mut buf).unwrap();

    assert_eq!(&buf[0..4], b"\x7fELF", "ELF magic mismatch");
    assert_eq!(buf[4], 2, "EI_CLASS should be 2 for 64-bit");
    assert_eq!(buf[5], 1, "EI_DATA should be 1 (little-endian)");
    assert_eq!(
        &buf[16..18],
        &4u16.to_le_bytes(),
        "e_type should be ET_CORE (4)"
    );
}

#[test]
fn elf64_phentsize_is_56() {
    let header = ElfHeader {
        class: 2,
        machine: 62,
        phnum: 3,
    };
    let mut buf = Vec::new();
    header.write(&mut buf).unwrap();

    let phentsize = u16::from_le_bytes([buf[54], buf[55]]);
    assert_eq!(phentsize, 56, "ELF64 e_phentsize must be 56");
}

#[test]
fn elf32_phentsize_is_32() {
    let header = ElfHeader {
        class: 1,
        machine: 3,
        phnum: 3,
    };
    let mut buf = Vec::new();
    header.write(&mut buf).unwrap();

    let phentsize = u16::from_le_bytes([buf[42], buf[43]]);
    assert_eq!(phentsize, 32, "ELF32 e_phentsize must be 32");
}

#[test]
fn elf_phoff_equals_ehsize() {
    let header64 = ElfHeader {
        class: 2,
        machine: 62,
        phnum: 2,
    };
    let mut buf64 = Vec::new();
    header64.write(&mut buf64).unwrap();

    let e_phoff = u64::from_le_bytes(buf64[32..40].try_into().unwrap());
    let e_ehsize = u64::from(u16::from_le_bytes([buf64[52], buf64[53]]));
    assert_eq!(e_phoff, e_ehsize, "ELF64 e_phoff must equal e_ehsize");
    assert_eq!(e_ehsize, 64, "ELF64 e_ehsize must be 64");

    let header32 = ElfHeader {
        class: 1,
        machine: 3,
        phnum: 2,
    };
    let mut buf32 = Vec::new();
    header32.write(&mut buf32).unwrap();

    let e_phoff32 = u64::from(u32::from_le_bytes(buf32[28..32].try_into().unwrap()));
    let e_ehsize32 = u64::from(u16::from_le_bytes([buf32[40], buf32[41]]));
    assert_eq!(e_phoff32, e_ehsize32, "ELF32 e_phoff must equal e_ehsize");
    assert_eq!(e_ehsize32, 52, "ELF32 e_ehsize must be 52");
}

#[test]
fn phdr_elf64_flags_at_offset_4() {
    let phdr = ProgramHeader {
        p_type: PT_LOAD,
        p_flags: 0x5,
        p_offset: 0,
        p_vaddr: 0,
        p_paddr: 0,
        p_filesz: 0,
        p_memsz: 0,
        p_align: 0x1000,
    };
    let mut buf = Vec::new();
    phdr.write(&mut buf, 2).unwrap();

    assert_eq!(
        &buf[4..8],
        &0x5u32.to_le_bytes(),
        "ELF64 p_flags should be at offset 4"
    );
}

#[test]
fn phdr_elf32_flags_at_offset_24() {
    let phdr = ProgramHeader {
        p_type: PT_LOAD,
        p_flags: 0x5,
        p_offset: 0,
        p_vaddr: 0,
        p_paddr: 0,
        p_filesz: 0,
        p_memsz: 0,
        p_align: 0x1000,
    };
    let mut buf = Vec::new();
    phdr.write(&mut buf, 1).unwrap();

    assert_eq!(
        &buf[24..28],
        &0x5u32.to_le_bytes(),
        "ELF32 p_flags should be at offset 24"
    );
}

#[test]
fn phdr_elf32_rejects_unrepresentable_offsets() {
    let phdr = ProgramHeader {
        p_type: PT_LOAD,
        p_offset: u64::from(u32::MAX) + 1,
        ..Default::default()
    };
    let mut buf = Vec::new();

    let result = phdr.write(&mut buf, 1);

    assert!(
        matches!(result, Err(Md2CoreError::IntegerOverflow("ELF32 p_offset"))),
        "ELF32 p_offset overflow should be reported, got {result:?}"
    );
}

#[test]
fn elf_header_sizes_match_class() {
    let h64 = ElfHeader { class: 2, machine: 183, phnum: 7 };
    let h32 = ElfHeader { class: 1, machine: 40, phnum: 7 };
    let mut b64 = Vec::new();
    let mut b32 = Vec::new();
    h64.write(&mut b64).unwrap();
    h32.write(&mut b32).unwrap();
    assert_eq!(b64.len(), 64);
    assert_eq!(b32.len(), 52);
    assert_eq!(h64.size(), 64);
    assert_eq!(h32.size(), 52);
    assert_eq!(h64.phdr_size(), 56);
    assert_eq!(h32.phdr_size(), 32);
    // e_machine and e_phnum.
    assert_eq!(u16::from_le_bytes([b64[18], b64[19]]), 183);
    assert_eq!(u16::from_le_bytes([b64[56], b64[57]]), 7);
    assert_eq!(u16::from_le_bytes([b32[18], b32[19]]), 40);
    assert_eq!(u16::from_le_bytes([b32[44], b32[45]]), 7);
}

#[test]
fn phdr_elf64_layout() {
    let phdr = ProgramHeader {
        p_type: PT_NOTE,
        p_flags: 4,
        p_offset: 0x1122_3344_5566_7788,
        p_vaddr: 2,
        p_paddr: 3,
        p_filesz: 4,
        p_memsz: 5,
        p_align: 6,
    };
    let mut buf = vec![0xaa];
    phdr.write(&mut buf, 2).unwrap();
    assert_eq!(buf.len(), 1 + 56);
    assert_eq!(&buf[1..5], &4u32.to_le_bytes());
    assert_eq!(&buf[9..17], &0x1122_3344_5566_7788u64.to_le_bytes());
    assert_eq!(&buf[49..57], &6u64.to_le_bytes());
}

#[test]
fn phdr_elf32_reports_first_unfit_field_and_writes_nothing() {
    let phdr = ProgramHeader {
        p_type: PT_LOAD,
        p_vaddr: 1 << 40,
        p_memsz: 1 << 40,
        ..Default::default()
    };
    let mut buf = vec![1, 2, 3];
    let result = phdr.write(&mut buf, 1);
    assert_eq!(result, Err(Md2CoreError::IntegerOverflow("ELF32 p_vaddr")));
    assert_eq!(buf, vec![1, 2, 3]);
}

#[test]
fn note_header_layout() {
    let h = NoteHeader { n_namesz: 5, n_descsz: 0x1234, n_type: 6 };
    let mut buf = Vec::new();
    h.write(&mut buf).unwrap();
    assert_eq!(buf, vec![5, 0, 0, 0, 0x34, 0x12, 0, 0, 6, 0, 0, 0]);
}

#[test]
fn align_to_gives_padding_to_boundary() {
    assert_eq!(md2core::elf::align_to(0, 4), 0);
    assert_eq!(md2core::elf::align_to(5, 4), 3);
    assert_eq!(md2core::elf::align_to(8, 4), 0);
    assert_eq!(md2core::elf::align_to(13, 8), 3);
}

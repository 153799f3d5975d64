//! Minimal ELF structures for core files: the executable header, program
//! headers and note headers, always encoded little-endian.
use vstd::prelude::*;

use crate::bytes::{
    from_le16, from_le32, from_le64, le16, le32, le64, lemma_from_le16_append, lemma_from_le16_at,
    lemma_from_le16_prefix, lemma_from_le32_append, lemma_from_le32_at, lemma_from_le32_prefix,
    lemma_from_le64_append, lemma_from_le64_at, lemma_from_le64_prefix, lemma_from_le32_suffix,
    lemma_from_le64_suffix, lemma_le32_decode, lemma_le64_decode, push_u16, push_u32, push_u64,
};
use crate::error::Md2CoreError;

pub mod note_types;

verus! {

/// `e_type` value for core dumps.
pub const ET_CORE: u16 = 4;

/// `p_type` value for `PT_LOAD` segments.
pub const PT_LOAD: u32 = 1;

/// `p_type` value for `PT_NOTE` segments.
pub const PT_NOTE: u32 = 4;

/// Note name used by GNU/Linux core notes (`"CORE\0"`).
pub const CORE_NAME: [u8; 5] = [0x43, 0x4f, 0x52, 0x45, 0];

/// Note name used by `NT_PRXFPREG` (`"LINUX\0"`).
pub const LINUX_NAME: [u8; 6] = [0x4c, 0x49, 0x4e, 0x55, 0x58, 0];

/// The ELF executable header of a core file, as ELF32 or ELF64.
#[derive(Debug, Clone, Copy)]
pub struct ElfHeader {
    /// 1 for ELFCLASS32, 2 for ELFCLASS64.
    pub class: u8,
    /// `e_machine` value.
    pub machine: u16,
    /// `e_phnum` value (program header count).
    pub phnum: u16,
}

/// `e_ehsize` of a class: 64 for ELF64, 52 otherwise.
pub open spec fn ehdr_size(class: u8) -> u32 {
    if class == 2 {
        64
    } else {
        52
    }
}

/// `e_phentsize` of a class: 56 for ELF64, 32 otherwise.
pub open spec fn phdr_entry_size(class: u8) -> u16 {
    if class == 2 {
        56
    } else {
        32
    }
}

/// `e_shentsize` of a class: 64 for ELF64, 40 otherwise.
pub open spec fn shdr_entry_size(class: u8) -> u16 {
    if class == 2 {
        64
    } else {
        40
    }
}

/// `e_ident`: magic, class, little-endian data, current version, zero padding.
pub open spec fn ident_bytes(class: u8) -> Seq<u8> {
    seq![0x7fu8, 0x45u8, 0x4cu8, 0x46u8, class, 1u8, 1u8, 0u8, 0u8, 0u8, 0u8, 0u8, 0u8, 0u8, 0u8, 0u8]
}

/// The byte image of an ELF header: no entry point, program headers right
/// after the header, no section headers.
pub open spec fn elf_header_bytes(h: ElfHeader) -> Seq<u8> {
    let ehsize = ehdr_size(h.class);
    ident_bytes(h.class) + le16(ET_CORE) + le16(h.machine) + le32(1) + (if h.class == 2 {
        le64(0) + le64(ehsize as u64) + le64(0)
    } else {
        le32(0) + le32(ehsize) + le32(0)
    }) + le32(0) + le16(ehsize as u16) + le16(phdr_entry_size(h.class)) + le16(h.phnum) + le16(
        shdr_entry_size(h.class),
    ) + le16(0) + le16(0)
}

impl ElfHeader {
    /// Returns the on-disk size of the header for the configured class.
    pub fn size(self) -> (r: u32)
        ensures
            r == ehdr_size(self.class),
    {
        if self.class == 2 {
            64
        } else {
            52
        }
    }

    /// Returns the on-disk size of one program header for the configured class.
    pub fn phdr_size(self) -> (r: u16)
        ensures
            r == phdr_entry_size(self.class),
    {
        if self.class == 2 {
            56
        } else {
            32
        }
    }

    /// Appends the executable header to `out`; this cannot fail.
    pub fn write(&self, out: &mut Vec<u8>) -> (r: Result<(), Md2CoreError>)
        ensures
            r is Ok,
            final(out)@ == old(out)@ + elf_header_bytes(*self),
    {
        let ghost start = out@;
        let ehsize = self.size();
        let phentsize = self.phdr_size();
        let shentsize: u16 = if self.class == 2 {
            64
        } else {
            40
        };
        out.push(0x7f);
        out.push(0x45);
        out.push(0x4c);
        out.push(0x46);
        out.push(self.class);
        out.push(1);
        out.push(1);
        let mut i: usize = 0;
        while i < 9
            invariant
                i <= 9,
                out@ == start + ident_bytes(self.class).subrange(0, 7 + i as int),
            decreases 9 - i,
        {
            out.push(0);
            i = i + 1;
            assert(out@ =~= start + ident_bytes(self.class).subrange(0, 7 + i as int));
        }
        assert(ident_bytes(self.class).subrange(0, 16) =~= ident_bytes(self.class));
        push_u16(out, ET_CORE);
        push_u16(out, self.machine);
        push_u32(out, 1);
        if self.class == 2 {
            push_u64(out, 0);
            push_u64(out, ehsize as u64);
            push_u64(out, 0);
        } else {
            push_u32(out, 0);
            push_u32(out, ehsize);
            push_u32(out, 0);
        }
        push_u32(out, 0);
        push_u16(out, ehsize as u16);
        push_u16(out, phentsize);
        push_u16(out, self.phnum);
        push_u16(out, shentsize);
        push_u16(out, 0);
        push_u16(out, 0);
        assert(out@ =~= start + elf_header_bytes(*self));
        Ok(())
    }
}

/// The ELF header image is as long as the header size of its class.
pub proof fn lemma_elf_header_len(h: ElfHeader)
    ensures
        elf_header_bytes(h).len() == ehdr_size(h.class),
{
}

/// One ELF program header entry. Fields use 64-bit storage; an ELF32 image
/// can only hold values that fit in 32 bits.
#[derive(Debug, Clone, Copy, Default)]
pub struct ProgramHeader {
    /// `p_type` (PT_NOTE / PT_LOAD).
    pub p_type: u32,
    /// `p_flags`.
    pub p_flags: u32,
    /// File offset of the segment's data.
    pub p_offset: u64,
    /// Virtual address of the segment.
    pub p_vaddr: u64,
    /// Physical address (unused, set to 0).
    pub p_paddr: u64,
    /// Size of the segment data in the file.
    pub p_filesz: u64,
    /// Size of the segment in memory.
    pub p_memsz: u64,
    /// Required alignment.
    pub p_align: u64,
}

/// Whether every address-sized field of `p` fits in 32 bits.
pub open spec fn fits_elf32(p: ProgramHeader) -> bool {
    p.p_offset <= u32::MAX && p.p_vaddr <= u32::MAX && p.p_paddr <= u32::MAX && p.p_filesz
        <= u32::MAX && p.p_memsz <= u32::MAX && p.p_align <= u32::MAX
}

/// The overflow error naming the first address-sized field of `p` that does
/// not fit in 32 bits.
pub open spec fn elf32_overflow_error(p: ProgramHeader) -> Md2CoreError {
    if p.p_offset > u32::MAX {
        Md2CoreError::IntegerOverflow("ELF32 p_offset")
    } else if p.p_vaddr > u32::MAX {
        Md2CoreError::IntegerOverflow("ELF32 p_vaddr")
    } else if p.p_paddr > u32::MAX {
        Md2CoreError::IntegerOverflow("ELF32 p_paddr")
    } else if p.p_filesz > u32::MAX {
        Md2CoreError::IntegerOverflow("ELF32 p_filesz")
    } else if p.p_memsz > u32::MAX {
        Md2CoreError::IntegerOverflow("ELF32 p_memsz")
    } else {
        Md2CoreError::IntegerOverflow("ELF32 p_align")
    }
}

/// The byte image of a program header in the layout of `class`.
#[verifier::opaque]
pub open spec fn program_header_bytes(p: ProgramHeader, class: u8) -> Seq<u8> {
    if class == 2 {
        le32(p.p_type) + le32(p.p_flags) + le64(p.p_offset) + le64(p.p_vaddr) + le64(p.p_paddr)
            + le64(p.p_filesz) + le64(p.p_memsz) + le64(p.p_align)
    } else {
        le32(p.p_type) + le32(p.p_offset as u32) + le32(p.p_vaddr as u32) + le32(
            p.p_paddr as u32,
        ) + le32(p.p_filesz as u32) + le32(p.p_memsz as u32) + le32(p.p_flags) + le32(
            p.p_align as u32,
        )
    }
}

/// A program header image is as long as the entry size of its class.
pub proof fn lemma_program_header_len(p: ProgramHeader, class: u8)
    ensures
        program_header_bytes(p, class).len() == phdr_entry_size(class),
{
    reveal(program_header_bytes);
}

/// Checks that `v` fits in 32 bits.
fn fits_u32(v: u64, field: &'static str) -> (r: Result<u32, Md2CoreError>)
    ensures
        match r {
            Ok(x) => v <= u32::MAX && x == v,
            Err(e) => v > u32::MAX && e == Md2CoreError::IntegerOverflow(field),
        },
{
    if v > 0xffff_ffff {
        Err(Md2CoreError::IntegerOverflow(field))
    } else {
        Ok(v as u32)
    }
}

impl ProgramHeader {
    /// Appends the header to `out` in the layout of `class` (2 = ELF64,
    /// anything else ELF32).
    ///
    /// For ELF32 every address-sized field must fit in 32 bits: otherwise
    /// nothing is written and the error names the first field that does not.
    pub fn write(&self, out: &mut Vec<u8>, class: u8) -> (r: Result<(), Md2CoreError>)
        ensures
            match r {
                Ok(()) => {
                    &&& (class == 2 || fits_elf32(*self))
                    &&& final(out)@ == old(out)@ + program_header_bytes(*self, class)
                },
                Err(e) => {
                    &&& class != 2
                    &&& !fits_elf32(*self)
                    &&& e == elf32_overflow_error(*self)
                    &&& final(out)@ == old(out)@
                },
            },
    {
        let ghost start = out@;
        if class == 2 {
            push_u32(out, self.p_type);
            push_u32(out, self.p_flags);
            push_u64(out, self.p_offset);
            push_u64(out, self.p_vaddr);
            push_u64(out, self.p_paddr);
            push_u64(out, self.p_filesz);
            push_u64(out, self.p_memsz);
            push_u64(out, self.p_align);
        } else {
            let offset = fits_u32(self.p_offset, "ELF32 p_offset")?;
            let vaddr = fits_u32(self.p_vaddr, "ELF32 p_vaddr")?;
            let paddr = fits_u32(self.p_paddr, "ELF32 p_paddr")?;
            let filesz = fits_u32(self.p_filesz, "ELF32 p_filesz")?;
            let memsz = fits_u32(self.p_memsz, "ELF32 p_memsz")?;
            let align = fits_u32(self.p_align, "ELF32 p_align")?;
            push_u32(out, self.p_type);
            push_u32(out, offset);
            push_u32(out, vaddr);
            push_u32(out, paddr);
            push_u32(out, filesz);
            push_u32(out, memsz);
            push_u32(out, self.p_flags);
            push_u32(out, align);
        }
        reveal(program_header_bytes);
        assert(out@ =~= start + program_header_bytes(*self, class));
        Ok(())
    }
}

/// ELF note header (`Elf32_Nhdr` / `Elf64_Nhdr`, both 12 bytes).
#[derive(Debug, Clone, Copy)]
pub struct NoteHeader {
    /// Length in bytes of the note name including the trailing NUL.
    pub n_namesz: u32,
    /// Length in bytes of the note descriptor.
    pub n_descsz: u32,
    /// Note type.
    pub n_type: u32,
}

/// The 12-byte image of a note header.
pub open spec fn note_header_bytes(h: NoteHeader) -> Seq<u8> {
    le32(h.n_namesz) + le32(h.n_descsz) + le32(h.n_type)
}

impl NoteHeader {
    /// Appends the 12-byte note header to `out`; this cannot fail.
    pub fn write(&self, out: &mut Vec<u8>) -> (r: Result<(), Md2CoreError>)
        ensures
            r is Ok,
            final(out)@ == old(out)@ + note_header_bytes(*self),
    {
        let ghost start = out@;
        push_u32(out, self.n_namesz);
        push_u32(out, self.n_descsz);
        push_u32(out, self.n_type);
        assert(out@ =~= start + note_header_bytes(*self));
        Ok(())
    }
}

/// The ELF64 and ELF32 program header layouts: each field read back,
/// little-endian, at its offset. ELF64: `p_type` 0, `p_flags` 4, `p_offset`
/// 8, `p_vaddr` 16, `p_paddr` 24, `p_filesz` 32, `p_memsz` 40, `p_align` 48.
/// ELF32 (fields that fit in 32 bits): `p_type` 0, `p_offset` 4, `p_vaddr` 8,
/// `p_paddr` 12, `p_filesz` 16, `p_memsz` 20, `p_flags` 24, `p_align` 28.
pub proof fn lemma_program_header_fields(p: ProgramHeader)
    ensures
        ({
            let b = program_header_bytes(p, 2);
            &&& b.len() == 56
            &&& from_le32(b, 0) == p.p_type
            &&& from_le32(b, 4) == p.p_flags
            &&& from_le64(b, 8) == p.p_offset
            &&& from_le64(b, 16) == p.p_vaddr
            &&& from_le64(b, 24) == p.p_paddr
            &&& from_le64(b, 32) == p.p_filesz
            &&& from_le64(b, 40) == p.p_memsz
            &&& from_le64(b, 48) == p.p_align
        }),
        fits_elf32(p) ==> ({
            let b = program_header_bytes(p, 1);
            &&& b.len() == 32
            &&& from_le32(b, 0) == p.p_type
            &&& from_le32(b, 4) == p.p_offset
            &&& from_le32(b, 8) == p.p_vaddr
            &&& from_le32(b, 12) == p.p_paddr
            &&& from_le32(b, 16) == p.p_filesz
            &&& from_le32(b, 20) == p.p_memsz
            &&& from_le32(b, 24) == p.p_flags
            &&& from_le32(b, 28) == p.p_align
        }),
{
    lemma_program_header64_fields(p);
    lemma_program_header32_fields(p);
}

/// The fields of an ELF64 program header image are read back from its pieces.
proof fn lemma_read_phdr64_pieces(a0: Seq<u8>, a1: Seq<u8>, a2: Seq<u8>, a3: Seq<u8>, a4: Seq<u8>, a5: Seq<u8>, a6: Seq<u8>, a7: Seq<u8>)
    requires
        a0.len() == 4,
        a1.len() == 4,
        a2.len() == 8,
        a3.len() == 8,
        a4.len() == 8,
        a5.len() == 8,
        a6.len() == 8,
        a7.len() == 8,
    ensures
        from_le32(a0 + a1 + a2 + a3 + a4 + a5 + a6 + a7, 0) == from_le32(a0, 0),
        from_le32(a0 + a1 + a2 + a3 + a4 + a5 + a6 + a7, 4) == from_le32(a1, 0),
        from_le64(a0 + a1 + a2 + a3 + a4 + a5 + a6 + a7, 8) == from_le64(a2, 0),
        from_le64(a0 + a1 + a2 + a3 + a4 + a5 + a6 + a7, 16) == from_le64(a3, 0),
        from_le64(a0 + a1 + a2 + a3 + a4 + a5 + a6 + a7, 24) == from_le64(a4, 0),
        from_le64(a0 + a1 + a2 + a3 + a4 + a5 + a6 + a7, 32) == from_le64(a5, 0),
        from_le64(a0 + a1 + a2 + a3 + a4 + a5 + a6 + a7, 40) == from_le64(a6, 0),
        from_le64(a0 + a1 + a2 + a3 + a4 + a5 + a6 + a7, 48) == from_le64(a7, 0),
{
    let q0 = a0;
    let q1 = q0 + a1;
    let q2 = q1 + a2;
    let q3 = q2 + a3;
    let q4 = q3 + a4;
    let q5 = q4 + a5;
    let q6 = q5 + a6;
    let q7 = q6 + a7;
    lemma_from_le32_suffix(q0, a1);
    lemma_from_le64_suffix(q1, a2);
    lemma_from_le64_suffix(q2, a3);
    lemma_from_le64_suffix(q3, a4);
    lemma_from_le64_suffix(q4, a5);
    lemma_from_le64_suffix(q5, a6);
    lemma_from_le64_suffix(q6, a7);
    lemma_from_le32_prefix(q0, a1, 0);
    lemma_from_le32_prefix(q1, a2, 0);
    lemma_from_le32_prefix(q2, a3, 0);
    lemma_from_le32_prefix(q3, a4, 0);
    lemma_from_le32_prefix(q4, a5, 0);
    lemma_from_le32_prefix(q5, a6, 0);
    lemma_from_le32_prefix(q6, a7, 0);
    lemma_from_le32_prefix(q1, a2, 4);
    lemma_from_le32_prefix(q2, a3, 4);
    lemma_from_le32_prefix(q3, a4, 4);
    lemma_from_le32_prefix(q4, a5, 4);
    lemma_from_le32_prefix(q5, a6, 4);
    lemma_from_le32_prefix(q6, a7, 4);
    lemma_from_le64_prefix(q2, a3, 8);
    lemma_from_le64_prefix(q3, a4, 8);
    lemma_from_le64_prefix(q4, a5, 8);
    lemma_from_le64_prefix(q5, a6, 8);
    lemma_from_le64_prefix(q6, a7, 8);
    lemma_from_le64_prefix(q3, a4, 16);
    lemma_from_le64_prefix(q4, a5, 16);
    lemma_from_le64_prefix(q5, a6, 16);
    lemma_from_le64_prefix(q6, a7, 16);
    lemma_from_le64_prefix(q4, a5, 24);
    lemma_from_le64_prefix(q5, a6, 24);
    lemma_from_le64_prefix(q6, a7, 24);
    lemma_from_le64_prefix(q5, a6, 32);
    lemma_from_le64_prefix(q6, a7, 32);
    lemma_from_le64_prefix(q6, a7, 40);
}

/// The fields of an ELF32 program header image are read back from its pieces.
proof fn lemma_read_phdr32_pieces(a0: Seq<u8>, a1: Seq<u8>, a2: Seq<u8>, a3: Seq<u8>, a4: Seq<u8>, a5: Seq<u8>, a6: Seq<u8>, a7: Seq<u8>)
    requires
        a0.len() == 4,
        a1.len() == 4,
        a2.len() == 4,
        a3.len() == 4,
        a4.len() == 4,
        a5.len() == 4,
        a6.len() == 4,
        a7.len() == 4,
    ensures
        from_le32(a0 + a1 + a2 + a3 + a4 + a5 + a6 + a7, 0) == from_le32(a0, 0),
        from_le32(a0 + a1 + a2 + a3 + a4 + a5 + a6 + a7, 4) == from_le32(a1, 0),
        from_le32(a0 + a1 + a2 + a3 + a4 + a5 + a6 + a7, 8) == from_le32(a2, 0),
        from_le32(a0 + a1 + a2 + a3 + a4 + a5 + a6 + a7, 12) == from_le32(a3, 0),
        from_le32(a0 + a1 + a2 + a3 + a4 + a5 + a6 + a7, 16) == from_le32(a4, 0),
        from_le32(a0 + a1 + a2 + a3 + a4 + a5 + a6 + a7, 20) == from_le32(a5, 0),
        from_le32(a0 + a1 + a2 + a3 + a4 + a5 + a6 + a7, 24) == from_le32(a6, 0),
        from_le32(a0 + a1 + a2 + a3 + a4 + a5 + a6 + a7, 28) == from_le32(a7, 0),
{
    let q0 = a0;
    let q1 = q0 + a1;
    let q2 = q1 + a2;
    let q3 = q2 + a3;
    let q4 = q3 + a4;
    let q5 = q4 + a5;
    let q6 = q5 + a6;
    let q7 = q6 + a7;
    lemma_from_le32_suffix(q0, a1);
    lemma_from_le32_suffix(q1, a2);
    lemma_from_le32_suffix(q2, a3);
    lemma_from_le32_suffix(q3, a4);
    lemma_from_le32_suffix(q4, a5);
    lemma_from_le32_suffix(q5, a6);
    lemma_from_le32_suffix(q6, a7);
    lemma_from_le32_prefix(q0, a1, 0);
    lemma_from_le32_prefix(q1, a2, 0);
    lemma_from_le32_prefix(q2, a3, 0);
    lemma_from_le32_prefix(q3, a4, 0);
    lemma_from_le32_prefix(q4, a5, 0);
    lemma_from_le32_prefix(q5, a6, 0);
    lemma_from_le32_prefix(q6, a7, 0);
    lemma_from_le32_prefix(q1, a2, 4);
    lemma_from_le32_prefix(q2, a3, 4);
    lemma_from_le32_prefix(q3, a4, 4);
    lemma_from_le32_prefix(q4, a5, 4);
    lemma_from_le32_prefix(q5, a6, 4);
    lemma_from_le32_prefix(q6, a7, 4);
    lemma_from_le32_prefix(q2, a3, 8);
    lemma_from_le32_prefix(q3, a4, 8);
    lemma_from_le32_prefix(q4, a5, 8);
    lemma_from_le32_prefix(q5, a6, 8);
    lemma_from_le32_prefix(q6, a7, 8);
    lemma_from_le32_prefix(q3, a4, 12);
    lemma_from_le32_prefix(q4, a5, 12);
    lemma_from_le32_prefix(q5, a6, 12);
    lemma_from_le32_prefix(q6, a7, 12);
    lemma_from_le32_prefix(q4, a5, 16);
    lemma_from_le32_prefix(q5, a6, 16);
    lemma_from_le32_prefix(q6, a7, 16);
    lemma_from_le32_prefix(q5, a6, 20);
    lemma_from_le32_prefix(q6, a7, 20);
    lemma_from_le32_prefix(q6, a7, 24);
}

#[verifier::spinoff_prover]
proof fn lemma_program_header64_fields(p: ProgramHeader)
    ensures
        ({
            let b = program_header_bytes(p, 2);
            &&& b.len() == 56
            &&& from_le32(b, 0) == p.p_type
            &&& from_le32(b, 4) == p.p_flags
            &&& from_le64(b, 8) == p.p_offset
            &&& from_le64(b, 16) == p.p_vaddr
            &&& from_le64(b, 24) == p.p_paddr
            &&& from_le64(b, 32) == p.p_filesz
            &&& from_le64(b, 40) == p.p_memsz
            &&& from_le64(b, 48) == p.p_align
        }),
{
    let b = program_header_bytes(p, 2);
    lemma_program_header_len(p, 2);
    assert(from_le32(b, 0) == p.p_type) by {
        reveal(program_header_bytes);
        lemma_read_phdr64_pieces(le32(p.p_type), le32(p.p_flags), le64(p.p_offset), le64(p.p_vaddr), le64(p.p_paddr), le64(p.p_filesz), le64(p.p_memsz), le64(p.p_align));
        lemma_le32_decode(p.p_type);
    }
    assert(from_le32(b, 4) == p.p_flags) by {
        reveal(program_header_bytes);
        lemma_read_phdr64_pieces(le32(p.p_type), le32(p.p_flags), le64(p.p_offset), le64(p.p_vaddr), le64(p.p_paddr), le64(p.p_filesz), le64(p.p_memsz), le64(p.p_align));
        lemma_le32_decode(p.p_flags);
    }
    assert(from_le64(b, 8) == p.p_offset) by {
        reveal(program_header_bytes);
        lemma_read_phdr64_pieces(le32(p.p_type), le32(p.p_flags), le64(p.p_offset), le64(p.p_vaddr), le64(p.p_paddr), le64(p.p_filesz), le64(p.p_memsz), le64(p.p_align));
        lemma_le64_decode(p.p_offset);
    }
    assert(from_le64(b, 16) == p.p_vaddr) by {
        reveal(program_header_bytes);
        lemma_read_phdr64_pieces(le32(p.p_type), le32(p.p_flags), le64(p.p_offset), le64(p.p_vaddr), le64(p.p_paddr), le64(p.p_filesz), le64(p.p_memsz), le64(p.p_align));
        lemma_le64_decode(p.p_vaddr);
    }
    assert(from_le64(b, 24) == p.p_paddr) by {
        reveal(program_header_bytes);
        lemma_read_phdr64_pieces(le32(p.p_type), le32(p.p_flags), le64(p.p_offset), le64(p.p_vaddr), le64(p.p_paddr), le64(p.p_filesz), le64(p.p_memsz), le64(p.p_align));
        lemma_le64_decode(p.p_paddr);
    }
    assert(from_le64(b, 32) == p.p_filesz) by {
        reveal(program_header_bytes);
        lemma_read_phdr64_pieces(le32(p.p_type), le32(p.p_flags), le64(p.p_offset), le64(p.p_vaddr), le64(p.p_paddr), le64(p.p_filesz), le64(p.p_memsz), le64(p.p_align));
        lemma_le64_decode(p.p_filesz);
    }
    assert(from_le64(b, 40) == p.p_memsz) by {
        reveal(program_header_bytes);
        lemma_read_phdr64_pieces(le32(p.p_type), le32(p.p_flags), le64(p.p_offset), le64(p.p_vaddr), le64(p.p_paddr), le64(p.p_filesz), le64(p.p_memsz), le64(p.p_align));
        lemma_le64_decode(p.p_memsz);
    }
    assert(from_le64(b, 48) == p.p_align) by {
        reveal(program_header_bytes);
        lemma_read_phdr64_pieces(le32(p.p_type), le32(p.p_flags), le64(p.p_offset), le64(p.p_vaddr), le64(p.p_paddr), le64(p.p_filesz), le64(p.p_memsz), le64(p.p_align));
        lemma_le64_decode(p.p_align);
    }
}

#[verifier::spinoff_prover]
proof fn lemma_program_header32_fields(p: ProgramHeader)
    ensures
        fits_elf32(p) ==> ({
            let b = program_header_bytes(p, 1);
            &&& b.len() == 32
            &&& from_le32(b, 0) == p.p_type
            &&& from_le32(b, 4) == p.p_offset
            &&& from_le32(b, 8) == p.p_vaddr
            &&& from_le32(b, 12) == p.p_paddr
            &&& from_le32(b, 16) == p.p_filesz
            &&& from_le32(b, 20) == p.p_memsz
            &&& from_le32(b, 24) == p.p_flags
            &&& from_le32(b, 28) == p.p_align
        }),
{
    let b = program_header_bytes(p, 1);
    lemma_program_header_len(p, 1);
    if fits_elf32(p) {
        assert(from_le32(b, 0) == p.p_type) by {
            reveal(program_header_bytes);
            lemma_read_phdr32_pieces(le32(p.p_type), le32(p.p_offset as u32), le32(p.p_vaddr as u32), le32(p.p_paddr as u32), le32(p.p_filesz as u32), le32(p.p_memsz as u32), le32(p.p_flags), le32(p.p_align as u32));
            lemma_le32_decode(p.p_type);
        }
        assert(from_le32(b, 4) == p.p_offset as u32) by {
            reveal(program_header_bytes);
            lemma_read_phdr32_pieces(le32(p.p_type), le32(p.p_offset as u32), le32(p.p_vaddr as u32), le32(p.p_paddr as u32), le32(p.p_filesz as u32), le32(p.p_memsz as u32), le32(p.p_flags), le32(p.p_align as u32));
            lemma_le32_decode(p.p_offset as u32);
        }
        assert(from_le32(b, 8) == p.p_vaddr as u32) by {
            reveal(program_header_bytes);
            lemma_read_phdr32_pieces(le32(p.p_type), le32(p.p_offset as u32), le32(p.p_vaddr as u32), le32(p.p_paddr as u32), le32(p.p_filesz as u32), le32(p.p_memsz as u32), le32(p.p_flags), le32(p.p_align as u32));
            lemma_le32_decode(p.p_vaddr as u32);
        }
        assert(from_le32(b, 12) == p.p_paddr as u32) by {
            reveal(program_header_bytes);
            lemma_read_phdr32_pieces(le32(p.p_type), le32(p.p_offset as u32), le32(p.p_vaddr as u32), le32(p.p_paddr as u32), le32(p.p_filesz as u32), le32(p.p_memsz as u32), le32(p.p_flags), le32(p.p_align as u32));
            lemma_le32_decode(p.p_paddr as u32);
        }
        assert(from_le32(b, 16) == p.p_filesz as u32) by {
            reveal(program_header_bytes);
            lemma_read_phdr32_pieces(le32(p.p_type), le32(p.p_offset as u32), le32(p.p_vaddr as u32), le32(p.p_paddr as u32), le32(p.p_filesz as u32), le32(p.p_memsz as u32), le32(p.p_flags), le32(p.p_align as u32));
            lemma_le32_decode(p.p_filesz as u32);
        }
        assert(from_le32(b, 20) == p.p_memsz as u32) by {
            reveal(program_header_bytes);
            lemma_read_phdr32_pieces(le32(p.p_type), le32(p.p_offset as u32), le32(p.p_vaddr as u32), le32(p.p_paddr as u32), le32(p.p_filesz as u32), le32(p.p_memsz as u32), le32(p.p_flags), le32(p.p_align as u32));
            lemma_le32_decode(p.p_memsz as u32);
        }
        assert(from_le32(b, 24) == p.p_flags) by {
            reveal(program_header_bytes);
            lemma_read_phdr32_pieces(le32(p.p_type), le32(p.p_offset as u32), le32(p.p_vaddr as u32), le32(p.p_paddr as u32), le32(p.p_filesz as u32), le32(p.p_memsz as u32), le32(p.p_flags), le32(p.p_align as u32));
            lemma_le32_decode(p.p_flags);
        }
        assert(from_le32(b, 28) == p.p_align as u32) by {
            reveal(program_header_bytes);
            lemma_read_phdr32_pieces(le32(p.p_type), le32(p.p_offset as u32), le32(p.p_vaddr as u32), le32(p.p_paddr as u32), le32(p.p_filesz as u32), le32(p.p_memsz as u32), le32(p.p_flags), le32(p.p_align as u32));
            lemma_le32_decode(p.p_align as u32);
        }
    }
}

/// The ELF header layout: the magic and class in `e_ident`, then each field
/// read back, little-endian, at its offset: `e_type` core, `e_machine`,
/// `e_version` 1, no entry point, program headers right after the header
/// (`e_phoff` = `e_ehsize`), no section headers, `e_phentsize` of the class
/// and `e_phnum` the header count.
#[verifier::spinoff_prover]
pub proof fn lemma_elf_header_fields(h: ElfHeader)
    ensures
        ({
            let b = elf_header_bytes(h);
            &&& b.subrange(0, 4) == seq![0x7fu8, 0x45u8, 0x4cu8, 0x46u8]
            &&& b[4] == h.class
            &&& from_le16(b, 16) == ET_CORE
            &&& from_le16(b, 18) == h.machine
            &&& from_le32(b, 20) == 1
        }),
        h.class == 2 ==> ({
            let b = elf_header_bytes(h);
            &&& b.len() == 64
            &&& from_le64(b, 24) == 0
            &&& from_le64(b, 32) == 64
            &&& from_le64(b, 40) == 0
            &&& from_le32(b, 48) == 0
            &&& from_le16(b, 52) == 64
            &&& from_le16(b, 54) == 56
            &&& from_le16(b, 56) == h.phnum
            &&& from_le16(b, 58) == 64
            &&& from_le16(b, 60) == 0
            &&& from_le16(b, 62) == 0
        }),
        h.class != 2 ==> ({
            let b = elf_header_bytes(h);
            &&& b.len() == 52
            &&& from_le32(b, 24) == 0
            &&& from_le32(b, 28) == 52
            &&& from_le32(b, 32) == 0
            &&& from_le32(b, 36) == 0
            &&& from_le16(b, 40) == 52
            &&& from_le16(b, 42) == 32
            &&& from_le16(b, 44) == h.phnum
            &&& from_le16(b, 46) == 40
            &&& from_le16(b, 48) == 0
            &&& from_le16(b, 50) == 0
        }),
{
    let b = elf_header_bytes(h);
    assert(b.subrange(0, 4) =~= seq![0x7fu8, 0x45u8, 0x4cu8, 0x46u8]);
    if h.class == 2 {
        assert(from_le16(b, 16) == ET_CORE) by {
            assert(b.subrange(16, 18) =~= le16(ET_CORE));
            lemma_from_le16_at(b, 16, ET_CORE);
        }
        assert(from_le16(b, 18) == h.machine) by {
            assert(b.subrange(18, 20) =~= le16(h.machine));
            lemma_from_le16_at(b, 18, h.machine);
        }
        assert(from_le32(b, 20) == 1u32) by {
            assert(b.subrange(20, 24) =~= le32(1u32));
            lemma_from_le32_at(b, 20, 1u32);
        }
        assert(from_le64(b, 24) == 0u64) by {
            assert(b.subrange(24, 32) =~= le64(0u64));
            lemma_from_le64_at(b, 24, 0u64);
        }
        assert(from_le64(b, 32) == 64u64) by {
            assert(b.subrange(32, 40) =~= le64(64u64));
            lemma_from_le64_at(b, 32, 64u64);
        }
        assert(from_le64(b, 40) == 0u64) by {
            assert(b.subrange(40, 48) =~= le64(0u64));
            lemma_from_le64_at(b, 40, 0u64);
        }
        assert(from_le32(b, 48) == 0u32) by {
            assert(b.subrange(48, 52) =~= le32(0u32));
            lemma_from_le32_at(b, 48, 0u32);
        }
        assert(from_le16(b, 52) == 64u16) by {
            assert(b.subrange(52, 54) =~= le16(64u16));
            lemma_from_le16_at(b, 52, 64u16);
        }
        assert(from_le16(b, 54) == 56u16) by {
            assert(b.subrange(54, 56) =~= le16(56u16));
            lemma_from_le16_at(b, 54, 56u16);
        }
        assert(from_le16(b, 56) == h.phnum) by {
            assert(b.subrange(56, 58) =~= le16(h.phnum));
            lemma_from_le16_at(b, 56, h.phnum);
        }
        assert(from_le16(b, 58) == 64u16) by {
            assert(b.subrange(58, 60) =~= le16(64u16));
            lemma_from_le16_at(b, 58, 64u16);
        }
        assert(from_le16(b, 60) == 0u16) by {
            assert(b.subrange(60, 62) =~= le16(0u16));
            lemma_from_le16_at(b, 60, 0u16);
        }
        assert(from_le16(b, 62) == 0u16) by {
            assert(b.subrange(62, 64) =~= le16(0u16));
            lemma_from_le16_at(b, 62, 0u16);
        }
    } else {
        assert(from_le16(b, 16) == ET_CORE) by {
            assert(b.subrange(16, 18) =~= le16(ET_CORE));
            lemma_from_le16_at(b, 16, ET_CORE);
        }
        assert(from_le16(b, 18) == h.machine) by {
            assert(b.subrange(18, 20) =~= le16(h.machine));
            lemma_from_le16_at(b, 18, h.machine);
        }
        assert(from_le32(b, 20) == 1u32) by {
            assert(b.subrange(20, 24) =~= le32(1u32));
            lemma_from_le32_at(b, 20, 1u32);
        }
        assert(from_le32(b, 24) == 0u32) by {
            assert(b.subrange(24, 28) =~= le32(0u32));
            lemma_from_le32_at(b, 24, 0u32);
        }
        assert(from_le32(b, 28) == 52u32) by {
            assert(b.subrange(28, 32) =~= le32(52u32));
            lemma_from_le32_at(b, 28, 52u32);
        }
        assert(from_le32(b, 32) == 0u32) by {
            assert(b.subrange(32, 36) =~= le32(0u32));
            lemma_from_le32_at(b, 32, 0u32);
        }
        assert(from_le32(b, 36) == 0u32) by {
            assert(b.subrange(36, 40) =~= le32(0u32));
            lemma_from_le32_at(b, 36, 0u32);
        }
        assert(from_le16(b, 40) == 52u16) by {
            assert(b.subrange(40, 42) =~= le16(52u16));
            lemma_from_le16_at(b, 40, 52u16);
        }
        assert(from_le16(b, 42) == 32u16) by {
            assert(b.subrange(42, 44) =~= le16(32u16));
            lemma_from_le16_at(b, 42, 32u16);
        }
        assert(from_le16(b, 44) == h.phnum) by {
            assert(b.subrange(44, 46) =~= le16(h.phnum));
            lemma_from_le16_at(b, 44, h.phnum);
        }
        assert(from_le16(b, 46) == 40u16) by {
            assert(b.subrange(46, 48) =~= le16(40u16));
            lemma_from_le16_at(b, 46, 40u16);
        }
        assert(from_le16(b, 48) == 0u16) by {
            assert(b.subrange(48, 50) =~= le16(0u16));
            lemma_from_le16_at(b, 48, 0u16);
        }
        assert(from_le16(b, 50) == 0u16) by {
            assert(b.subrange(50, 52) =~= le16(0u16));
            lemma_from_le16_at(b, 50, 0u16);
        }
    }
}

/// The note header layout: `n_namesz` at 0, `n_descsz` at 4, `n_type` at 8.
pub proof fn lemma_note_header_fields(h: NoteHeader)
    ensures
        ({
            let b = note_header_bytes(h);
            &&& b.len() == 12
            &&& from_le32(b, 0) == h.n_namesz
            &&& from_le32(b, 4) == h.n_descsz
            &&& from_le32(b, 8) == h.n_type
        }),
{
    let b = note_header_bytes(h);
        assert(b.subrange(0, 4) =~= le32(h.n_namesz));
        lemma_from_le32_at(b, 0, h.n_namesz);
        assert(b.subrange(4, 8) =~= le32(h.n_descsz));
        lemma_from_le32_at(b, 4, h.n_descsz);
        assert(b.subrange(8, 12) =~= le32(h.n_type));
        lemma_from_le32_at(b, 8, h.n_type);
}

/// Number of zero bytes that pad `bytes` up to a multiple of `align`.
pub fn align_to(bytes: usize, align: usize) -> (r: usize)
    requires
        align > 0,
    ensures
        r < align,
        (bytes + r) % (align as int) == 0,
        r == crate::model::padding_for(bytes as int, align as int),
{
    proof {
        crate::model::lemma_padding(bytes as int, align as int);
    }
    let rem = bytes % align;
    if rem == 0 {
        0
    } else {
        align - rem
    }
}

} // verus!

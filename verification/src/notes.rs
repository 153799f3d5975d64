//! ELF note serialization for the core file's `PT_NOTE` segment.
//!
//! Each note is encoded as the 12-byte header, the NUL-terminated name
//! padded to 4 bytes, then the descriptor padded to 4 bytes.
use std::collections::BTreeMap;

use vstd::prelude::*;
use vstd::string::StringSliceAdditionalSpecFns;

use crate::bytes::{
    from_le16, from_le32, le16, le32, le64, lemma_from_le16_at, lemma_from_le32_at, push_all,
    push_u16, push_u32, push_u64, push_zeros,
};
use crate::augment::{lemma_word_at_sub, lemma_word_bytes_decode, word_at};
use crate::elf::{lemma_note_header_fields, note_header_bytes, NoteHeader};
use crate::error::Md2CoreError;
use crate::model::{
    lemma_padding, padding_for, repeat_byte, Architecture, Mapping, MappingModel, ProcessInfo,
    DEFAULT_PAGE_SIZE,
};
use crate::ordered::{ordered_refs, ordered_values};

verus! {

/// `s` followed by zeros up to a multiple of `align` bytes.
pub open spec fn pad_to(s: Seq<u8>, align: int) -> Seq<u8> {
    s + repeat_byte(0, padding_for(s.len() as int, align) as nat)
}

/// `name` with a trailing NUL unless it already ends with one.
pub open spec fn nul_terminated(name: Seq<u8>) -> Seq<u8> {
    if name.len() > 0 && name.last() == 0 {
        name
    } else {
        name.push(0)
    }
}

/// The byte image of a note: header, padded name, padded descriptor.
pub open spec fn note_bytes(name: Seq<u8>, n_type: u32, desc: Seq<u8>) -> Seq<u8> {
    let nm = nul_terminated(name);
    let header = NoteHeader { n_namesz: nm.len() as u32, n_descsz: desc.len() as u32, n_type };
    pad_to(pad_to(note_header_bytes(header) + nm, 4) + desc, 4)
}

/// Padding `s` to `align` bytes yields a multiple of `align`.
pub proof fn lemma_pad_to(s: Seq<u8>, align: int)
    requires
        align > 0,
    ensures
        (pad_to(s, align).len() as int) % align == 0,
        pad_to(s, align).len() < s.len() + align,
        pad_to(s, align).len() >= s.len(),
{
    lemma_padding(s.len() as int, align);
}

/// Every note image is a multiple of 4 bytes long.
pub proof fn lemma_note_aligned(name: Seq<u8>, n_type: u32, desc: Seq<u8>)
    ensures
        (note_bytes(name, n_type, desc).len() as int) % 4 == 0,
{
    let nm = nul_terminated(name);
    let header = NoteHeader { n_namesz: nm.len() as u32, n_descsz: desc.len() as u32, n_type };
    lemma_pad_to(pad_to(note_header_bytes(header) + nm, 4) + desc, 4);
}

/// The layout of a note: `n_namesz`, `n_descsz` and `n_type` at 0, 4 and 8;
/// the NUL-terminated name from 12; the descriptor from the next multiple of
/// 4; zeros up to a multiple of 4 after it.
#[verifier::spinoff_prover]
pub proof fn lemma_note_layout(name: Seq<u8>, n_type: u32, desc: Seq<u8>)
    requires
        nul_terminated(name).len() <= u32::MAX,
        desc.len() <= u32::MAX,
    ensures
        ({
            let nb = note_bytes(name, n_type, desc);
            let nm = nul_terminated(name);
            let d0 = 12 + nm.len() + padding_for(12 + nm.len() as int, 4);
            &&& nm.len() > 0 && nm.last() == 0
            &&& from_le32(nb, 0) == nm.len()
            &&& from_le32(nb, 4) == desc.len()
            &&& from_le32(nb, 8) == n_type
            &&& nb.subrange(12, 12 + nm.len() as int) == nm
            &&& nb.subrange(d0, d0 + desc.len()) == desc
            &&& nb.len() == d0 + desc.len() + padding_for(d0 + desc.len(), 4)
        }),
{
    let nm = nul_terminated(name);
    let header = NoteHeader { n_namesz: nm.len() as u32, n_descsz: desc.len() as u32, n_type };
    let hb = note_header_bytes(header);
    lemma_note_header_fields(header);
    let a = pad_to(hb + nm, 4);
    let nb = note_bytes(name, n_type, desc);
    assert(nb == pad_to(a + desc, 4));
    lemma_padding(12 + nm.len() as int, 4);
    lemma_padding(a.len() + desc.len() as int, 4);
    assert(nb.subrange(0, 12) =~= hb);
    assert(from_le32(nb, 0) == nm.len()) by {
        assert(nb.subrange(0, 4) =~= hb.subrange(0, 4));
        assert(hb.subrange(0, 4) =~= le32(nm.len() as u32));
        lemma_from_le32_at(nb, 0, nm.len() as u32);
    }
    assert(from_le32(nb, 4) == desc.len()) by {
        assert(nb.subrange(4, 8) =~= hb.subrange(4, 8));
        assert(hb.subrange(4, 8) =~= le32(desc.len() as u32));
        lemma_from_le32_at(nb, 4, desc.len() as u32);
    }
    assert(from_le32(nb, 8) == n_type) by {
        assert(nb.subrange(8, 12) =~= hb.subrange(8, 12));
        assert(hb.subrange(8, 12) =~= le32(n_type));
        lemma_from_le32_at(nb, 8, n_type);
    }
    assert(nb.subrange(12, 12 + nm.len() as int) =~= nm);
    assert(nb.subrange(a.len() as int, a.len() + desc.len() as int) =~= desc);
}

/// Appends zeros to `out` up to a multiple of `align` bytes.
fn pad(out: &mut Vec<u8>, align: usize)
    requires
        align > 0,
    ensures
        final(out)@ == pad_to(old(out)@, align as int),
{
    let rem = out.len() % align;
    proof {
        lemma_padding(old(out)@.len() as int, align as int);
    }
    if rem != 0 {
        push_zeros(out, align - rem);
    } else {
        push_zeros(out, 0);
    }
}

/// Serialized ELF note (header + name + descriptor + alignment padding).
pub struct Note {
    /// Final byte image of the note ready to be written into `PT_NOTE`.
    pub bytes: Vec<u8>,
}

impl Note {
    /// Builds a note from a name (a trailing NUL is added unless present)
    /// and a descriptor; this cannot fail.
    pub fn build(name: &[u8], n_type: u32, desc: &[u8]) -> (r: Result<Self, Md2CoreError>)
        requires
            nul_terminated(name@).len() <= u32::MAX,
            desc@.len() <= u32::MAX,
        ensures
            r matches Ok(note) && note.bytes@ == note_bytes(name@, n_type, desc@),
    {
        let mut name_bytes: Vec<u8> = Vec::new();
        push_all(&mut name_bytes, name);
        if name_bytes.len() == 0 || name_bytes[name_bytes.len() - 1] != 0 {
            name_bytes.push(0);
        }
        assert(name_bytes@ == nul_terminated(name@));
        let header = NoteHeader {
            n_namesz: name_bytes.len() as u32,
            n_descsz: desc.len() as u32,
            n_type,
        };
        let mut out: Vec<u8> = Vec::new();
        let _ = header.write(&mut out);
        push_all(&mut out, name_bytes.as_slice());
        pad(&mut out, 4);
        push_all(&mut out, desc);
        pad(&mut out, 4);
        assert(out@ =~= note_bytes(name@, n_type, desc@));
        Ok(Self { bytes: out })
    }

    /// Appends the note to `out`; this cannot fail.
    pub fn write(&self, out: &mut Vec<u8>) -> (r: Result<(), Md2CoreError>)
        ensures
            r is Ok,
            final(out)@ == old(out)@ + self.bytes@,
    {
        push_all(out, self.bytes.as_slice());
        Ok(())
    }
}

// --- NT_PRPSINFO -----------------------------------------------------------

/// The `NT_PRPSINFO` descriptor: state, `'R'`, zombie and nice bytes, padding
/// to a long, `pr_flag`, zero uid/gid (32- or 16-bit), pid, zero
/// ppid/pgrp/sid, `pr_fname` and `pr_psargs`.
pub open spec fn prpsinfo_bytes(arch: Architecture, info: ProcessInfo) -> Seq<u8> {
    let long = arch.spec_long_size() as nat;
    seq![0u8, 0x52u8, 0u8, 0u8] + repeat_byte(0, (long - 4) as nat) + repeat_byte(0, long)
        + repeat_byte(0, if arch.spec_prpsinfo_uid_is_u32() { 8 } else { 4 }) + le32(info.pid)
        + repeat_byte(0, 12) + info.filename@ + info.arguments@
}

/// The `NT_PRPSINFO` descriptor is two longs, the uid/gid pair (4 or 8
/// bytes) and 112 more bytes long: 124 bytes on x86, 132 on AArch64, 136 on
/// x86-64.
pub proof fn lemma_prpsinfo_len(arch: Architecture, info: ProcessInfo)
    ensures
        prpsinfo_bytes(arch, info).len() == 2 * arch.spec_long_size() + (if arch.spec_prpsinfo_uid_is_u32() {
            8int
        } else {
            4int
        }) + 112,
{
}

/// The layout of `elf_prpsinfo`: state 0 and `pr_sname` 'R' in the first
/// bytes, `pr_pid` after the flag word and the uid/gid pair, then ppid,
/// pgrp and sid, `pr_fname` (16 bytes) and `pr_psargs` (80 bytes).
#[verifier::spinoff_prover]
pub proof fn lemma_prpsinfo_layout(arch: Architecture, info: ProcessInfo)
    ensures
        ({
            let b = prpsinfo_bytes(arch, info);
            let w = arch.spec_long_size() as int;
            let pid = 2 * w + if arch.spec_prpsinfo_uid_is_u32() {
                8int
            } else {
                4int
            };
            &&& b[0] == 0 && b[1] == 0x52
            &&& from_le32(b, pid) == info.pid
            &&& b.subrange(pid + 16, pid + 32) == info.filename@
            &&& b.subrange(pid + 32, pid + 112) == info.arguments@
            &&& b.len() == pid + 112
        }),
{
    let b = prpsinfo_bytes(arch, info);
    let w = arch.spec_long_size() as int;
    assert(w == 4 || w == 8);
    let pid = 2 * w + if arch.spec_prpsinfo_uid_is_u32() {
        8int
    } else {
        4int
    };
    assert(from_le32(b, pid) == info.pid) by {
        assert(b.subrange(pid, pid + 4) =~= le32(info.pid));
        lemma_from_le32_at(b, pid, info.pid);
    }
    assert(b.subrange(pid + 16, pid + 32) =~= info.filename@);
    assert(b.subrange(pid + 32, pid + 112) =~= info.arguments@);
}

/// Builds the `NT_PRPSINFO` descriptor for the given architecture.
pub fn build_prpsinfo(arch: Architecture, info: &ProcessInfo) -> (r: Vec<u8>)
    ensures
        r@ == prpsinfo_bytes(arch, *info),
{
    let mut out: Vec<u8> = Vec::new();
    out.push(0);
    out.push(0x52);
    out.push(0);
    out.push(0);
    let long = arch.long_size();
    pad(&mut out, long);
    push_zeros(&mut out, long);
    if arch.prpsinfo_uid_is_u32() {
        push_u32(&mut out, 0);
        push_u32(&mut out, 0);
    } else {
        push_u16(&mut out, 0);
        push_u16(&mut out, 0);
    }
    push_u32(&mut out, info.pid);
    push_zeros(&mut out, 12);
    push_all(&mut out, info.filename.as_slice());
    push_all(&mut out, info.arguments.as_slice());
    proof {
        assert(le32(0) =~= repeat_byte(0, 4));
        assert(le16(0) =~= repeat_byte(0, 2));
        assert(repeat_byte(0, 2) + repeat_byte(0, 2) =~= repeat_byte(0, 4));
        assert(repeat_byte(0, 4) + repeat_byte(0, 4) =~= repeat_byte(0, 8));
        lemma_padding(4, long as int);
    }
    assert(out@ =~= prpsinfo_bytes(arch, *info));
    out
}

// --- NT_SIGINFO ------------------------------------------------------------

/// The Linux `siginfo_t` of the fatal signal (128 bytes on every supported
/// target): `si_signo` is the signal, `si_errno`, `si_code` and the rest are 0.
pub open spec fn siginfo_bytes(signal: i32) -> Seq<u8> {
    le32(signal as u32) + repeat_byte(0, 124)
}

/// Builds the `NT_SIGINFO` descriptor for the fatal signal.
pub fn build_siginfo(signal: i32) -> (r: Vec<u8>)
    ensures
        r@ == siginfo_bytes(signal),
        r@.len() == 128,
{
    let mut out: Vec<u8> = Vec::new();
    push_u32(&mut out, signal as u32);
    push_zeros(&mut out, 124);
    assert(out@ =~= siginfo_bytes(signal));
    out
}

// --- NT_PRSTATUS -----------------------------------------------------------

/// `pr_cursig`: the signal if it fits in an `i16`, else `i16::MAX`.
pub open spec fn cursig(sig: i32) -> i16 {
    if i16::MIN <= sig <= i16::MAX {
        sig as i16
    } else {
        i16::MAX
    }
}

/// The `NT_PRSTATUS` descriptor: `elf_siginfo`, `pr_cursig` padded to a
/// long, zero `pr_sigpend`/`pr_sighold`, the thread id as `pr_pid`, zero
/// ppid/pgrp/sid, four zero timevals, `pr_reg`, `pr_fpvalid`, padded to a long.
pub open spec fn prstatus_bytes(
    arch: Architecture,
    tid: u32,
    fatal_signal: i32,
    pr_reg: Seq<u8>,
    fp_valid: bool,
) -> Seq<u8> {
    let long = arch.spec_long_size() as nat;
    let head = le32(fatal_signal as u32) + repeat_byte(0, 8) + le16(cursig(fatal_signal) as u16);
    pad_to(
        pad_to(head, long as int) + repeat_byte(0, 2 * long) + le32(tid) + repeat_byte(0, 12)
            + repeat_byte(0, 8 * long) + pr_reg + le32(if fp_valid { 1 } else { 0 }),
        long as int,
    )
}

/// The `NT_PRSTATUS` descriptor ends on a multiple of the long size and is
/// at most 128 bytes longer than its `pr_reg` block.
pub proof fn lemma_prstatus_len(
    arch: Architecture,
    tid: u32,
    fatal_signal: i32,
    pr_reg: Seq<u8>,
    fp_valid: bool,
)
    ensures
        (prstatus_bytes(arch, tid, fatal_signal, pr_reg, fp_valid).len() as int) % (
        arch.spec_long_size() as int) == 0,
        prstatus_bytes(arch, tid, fatal_signal, pr_reg, fp_valid).len() <= pr_reg.len() + 128,
{
    let long = arch.spec_long_size() as nat;
    let head = le32(fatal_signal as u32) + repeat_byte(0, 8) + le16(cursig(fatal_signal) as u16);
    lemma_pad_to(head, long as int);
    let body = pad_to(head, long as int) + repeat_byte(0, 2 * long) + le32(tid) + repeat_byte(0, 12)
        + repeat_byte(0, 8 * long) + pr_reg + le32(if fp_valid { 1 } else { 0 });
    lemma_pad_to(body, long as int);
}

/// The layout of `elf_prstatus`: the signal as `si_signo` at 0, `pr_cursig`
/// at 12, `pr_pid` (the thread id) after the two pending/held signal words,
/// `pr_reg` after the pid words and the four time values (at 72 with 4-byte
/// longs, at 112 with 8-byte ones), then `pr_fpvalid`.
#[verifier::spinoff_prover]
pub proof fn lemma_prstatus_layout(
    arch: Architecture,
    tid: u32,
    fatal_signal: i32,
    pr_reg: Seq<u8>,
    fp_valid: bool,
)
    ensures
        ({
            let b = prstatus_bytes(arch, tid, fatal_signal, pr_reg, fp_valid);
            let w = arch.spec_long_size() as int;
            let reg = 32 + 10 * w;
            &&& from_le32(b, 0) == fatal_signal as u32
            &&& from_le16(b, 12) == cursig(fatal_signal) as u16
            &&& from_le32(b, 16 + 2 * w) == tid
            &&& b.subrange(reg, reg + pr_reg.len()) == pr_reg
            &&& from_le32(b, reg + pr_reg.len()) == if fp_valid {
                1u32
            } else {
                0u32
            }
        }),
{
    let long = arch.spec_long_size() as nat;
    let w = long as int;
    assert(w == 4 || w == 8);
    let head = le32(fatal_signal as u32) + repeat_byte(0, 8) + le16(cursig(fatal_signal) as u16);
    let ph = pad_to(head, w);
    lemma_padding(14, w);
    assert(ph.len() == 16);
    let fpv: u32 = if fp_valid {
        1
    } else {
        0
    };
    let q = ph + repeat_byte(0, 2 * long) + le32(tid) + repeat_byte(0, 12) + repeat_byte(0, 8 * long)
        + pr_reg + le32(fpv);
    let b = prstatus_bytes(arch, tid, fatal_signal, pr_reg, fp_valid);
    assert(b == pad_to(q, w));
    let reg = 32 + 10 * w;
    assert(from_le32(b, 0) == fatal_signal as u32) by {
        assert(b.subrange(0, 4) =~= le32(fatal_signal as u32));
        lemma_from_le32_at(b, 0, fatal_signal as u32);
    }
    assert(from_le16(b, 12) == cursig(fatal_signal) as u16) by {
        assert(b.subrange(12, 14) =~= le16(cursig(fatal_signal) as u16));
        lemma_from_le16_at(b, 12, cursig(fatal_signal) as u16);
    }
    assert(from_le32(b, 16 + 2 * w) == tid) by {
        assert(b.subrange(16 + 2 * w, 20 + 2 * w) =~= le32(tid));
        lemma_from_le32_at(b, 16 + 2 * w, tid);
    }
    assert(b.subrange(reg, reg + pr_reg.len()) =~= pr_reg);
    assert(from_le32(b, reg + pr_reg.len()) == fpv) by {
        assert(b.subrange(reg + pr_reg.len(), reg + pr_reg.len() + 4) =~= le32(fpv));
        lemma_from_le32_at(b, reg + pr_reg.len(), fpv);
    }
}

/// Builds the `NT_PRSTATUS` descriptor.
///
/// `fp_valid` is `pr_fpvalid`: it is set only when an `NT_FPREGSET` note
/// accompanies this status.
pub fn build_prstatus(
    arch: Architecture,
    tid: u32,
    fatal_signal: i32,
    pr_reg: &[u8],
    fp_valid: bool,
) -> (r: Vec<u8>)
    ensures
        r@ == prstatus_bytes(arch, tid, fatal_signal, pr_reg@, fp_valid),
{
    let long = arch.long_size();
    let mut out: Vec<u8> = Vec::new();
    push_u32(&mut out, fatal_signal as u32);
    push_zeros(&mut out, 8);
    let sig: i16 = if -32768 <= fatal_signal && fatal_signal <= 32767 {
        fatal_signal as i16
    } else {
        32767
    };
    push_u16(&mut out, sig as u16);
    pad(&mut out, long);
    push_zeros(&mut out, 2 * long);
    push_u32(&mut out, tid);
    push_zeros(&mut out, 12);
    push_zeros(&mut out, 8 * long);
    push_all(&mut out, pr_reg);
    push_u32(&mut out, if fp_valid { 1 } else { 0 });
    pad(&mut out, long);
    proof {
        assert(le32(fatal_signal as u32) + repeat_byte(0, 8) + le16(sig as u16) =~= le32(
            fatal_signal as u32,
        ) + repeat_byte(0, 8) + le16(cursig(fatal_signal) as u16));
    }
    assert(out@ =~= prstatus_bytes(arch, tid, fatal_signal, pr_reg@, fp_valid));
    out
}

// --- NT_FILE -------------------------------------------------------------

/// Whether `v` can be stored in a word of `word` bytes.
pub open spec fn word_fits(v: u64, word: usize) -> bool {
    word == 8 || v <= u32::MAX
}

/// `v` as a word of `word` bytes (8, or else 4).
pub open spec fn word_bytes(v: u64, word: usize) -> Seq<u8> {
    if word == 8 {
        le64(v)
    } else {
        le32(v as u32)
    }
}

/// The mappings that carry a file name, in order.
pub open spec fn named(ms: Seq<MappingModel>) -> Seq<MappingModel>
    decreases ms.len(),
{
    if ms.len() == 0 {
        Seq::empty()
    } else if ms.last().filename is Some {
        named(ms.drop_last()).push(ms.last())
    } else {
        named(ms.drop_last())
    }
}

/// The models of the mappings of a table, in increasing start-address order.
pub open spec fn mapping_models(m: Map<u64, Mapping>) -> Seq<MappingModel> {
    ordered_values(m).map_values(|x: Mapping| x@)
}

/// Page offset of a mapping's file offset.
pub open spec fn page_offset(e: MappingModel) -> u64 {
    (e.offset / (DEFAULT_PAGE_SIZE as u64)) as u64
}

/// The overflow error naming the first field of `e` that does not fit in a
/// word, if any.
pub open spec fn entry_error(e: MappingModel, word: usize) -> Option<Md2CoreError> {
    if !word_fits(e.start_address, word) {
        Some(Md2CoreError::IntegerOverflow("NT_FILE mapping start"))
    } else if !word_fits(e.end_address, word) {
        Some(Md2CoreError::IntegerOverflow("NT_FILE mapping end"))
    } else if !word_fits(page_offset(e), word) {
        Some(Md2CoreError::IntegerOverflow("NT_FILE mapping offset"))
    } else {
        None
    }
}

/// The first field error among `es`, if any.
pub open spec fn first_entry_error(es: Seq<MappingModel>, word: usize) -> Option<Md2CoreError>
    decreases es.len(),
{
    if es.len() == 0 {
        None
    } else {
        match first_entry_error(es.drop_last(), word) {
            Some(f) => Some(f),
            None => entry_error(es.last(), word),
        }
    }
}

/// The start, end and page offset records of `es`.
pub open spec fn entry_records(es: Seq<MappingModel>, word: usize) -> Seq<u8>
    decreases es.len(),
{
    if es.len() == 0 {
        Seq::empty()
    } else {
        let e = es.last();
        entry_records(es.drop_last(), word) + word_bytes(e.start_address, word) + word_bytes(
            e.end_address,
            word,
        ) + word_bytes(page_offset(e), word)
    }
}

/// The NUL-terminated UTF-8 file names of `es`.
pub open spec fn entry_names(es: Seq<MappingModel>) -> Seq<u8>
    decreases es.len(),
{
    if es.len() == 0 {
        Seq::empty()
    } else {
        entry_names(es.drop_last()) + vstd::utf8::encode_utf8(es.last().filename.unwrap()).push(0)
    }
}

/// The `NT_FILE` descriptor for the file-backed mappings `es`, or the
/// overflow error naming the first field that does not fit in a word.
pub open spec fn nt_file_payload(es: Seq<MappingModel>, word: usize) -> Result<Seq<u8>, Md2CoreError> {
    if !word_fits(es.len() as u64, word) || es.len() > u64::MAX {
        Err(Md2CoreError::IntegerOverflow("NT_FILE entry count"))
    } else {
        match first_entry_error(es, word) {
            Some(f) => Err(f),
            None => Ok(
                word_bytes(es.len() as u64, word) + word_bytes(DEFAULT_PAGE_SIZE, word)
                    + entry_records(es, word) + entry_names(es),
            ),
        }
    }
}

/// Without a first field error, no entry has one.
proof fn lemma_no_entry_error(es: Seq<MappingModel>, word: usize, i: int)
    requires
        first_entry_error(es, word) is None,
        0 <= i < es.len(),
    ensures
        entry_error(es[i], word) is None,
    decreases es.len(),
{
    if i < es.len() - 1 {
        lemma_no_entry_error(es.drop_last(), word, i);
        assert(es.drop_last()[i] == es[i]);
    }
}

/// Record `i` of the `NT_FILE` table stands `3 * i` words into the records.
proof fn lemma_entry_records_at(es: Seq<MappingModel>, word: usize, i: int)
    requires
        word == 8 || word == 4,
        0 <= i < es.len(),
    ensures
        entry_records(es, word).len() == 3 * word * es.len(),
        entry_records(es, word).subrange(3 * word * i, 3 * word * i + 3 * word) == word_bytes(
            es[i].start_address,
            word,
        ) + word_bytes(es[i].end_address, word) + word_bytes(page_offset(es[i]), word),
    decreases es.len(),
{
    let d = es.drop_last();
    lemma_entry_records_len(d, word);
    lemma_entry_records_len(es, word);
    let r = entry_records(es, word);
    let w = word as int;
    assert(3 * w * i + 3 * w <= 3 * w * es.len()) by (nonlinear_arith)
        requires
            i < es.len(),
            w > 0,
    ;
    assert(0 <= 3 * w * i) by (nonlinear_arith)
        requires
            i >= 0,
            w > 0,
    ;
    if i == es.len() - 1 {
        assert(3 * w * i == 3 * w * d.len()) by (nonlinear_arith)
            requires
                i == d.len(),
        ;
        assert(r.subrange(3 * w * i, 3 * w * i + 3 * w) =~= word_bytes(es[i].start_address, word)
            + word_bytes(es[i].end_address, word) + word_bytes(page_offset(es[i]), word));
    } else {
        lemma_entry_records_at(d, word, i);
        assert(d[i] == es[i]);
        assert(r.subrange(3 * w * i, 3 * w * i + 3 * w) =~= entry_records(d, word).subrange(
            3 * w * i,
            3 * w * i + 3 * w,
        ));
    }
}

/// Each `NT_FILE` record takes three words.
proof fn lemma_entry_records_len(es: Seq<MappingModel>, word: usize)
    requires
        word == 8 || word == 4,
    ensures
        entry_records(es, word).len() == 3 * word * es.len(),
    decreases es.len(),
{
    if es.len() > 0 {
        lemma_entry_records_len(es.drop_last(), word);
        assert(3 * word * (es.len() - 1) + 3 * word == 3 * word * es.len()) by (nonlinear_arith);
    }
}

/// Record `i` of an `NT_FILE` table read back.
#[verifier::spinoff_prover]
proof fn lemma_nt_file_record(es: Seq<MappingModel>, word: usize, i: int)
    requires
        word == 8 || word == 4,
        nt_file_payload(es, word) is Ok,
        0 <= i < es.len(),
    ensures
        ({
            let b = nt_file_payload(es, word)->Ok_0;
            let w = word as int;
            &&& word_at(b, 2 * w + 3 * w * i, word) == es[i].start_address
            &&& word_at(b, 3 * w + 3 * w * i, word) == es[i].end_address
            &&& word_at(b, 4 * w + 3 * w * i, word) == es[i].offset / DEFAULT_PAGE_SIZE
        }),
{
    let b = nt_file_payload(es, word)->Ok_0;
    let w = word as int;
    let head = word_bytes(es.len() as u64, word) + word_bytes(DEFAULT_PAGE_SIZE, word);
    let recs = entry_records(es, word);
    let e = es[i];
    lemma_word_bytes_decode(es.len() as u64, word);
    lemma_word_bytes_decode(DEFAULT_PAGE_SIZE, word);
    lemma_no_entry_error(es, word, i);
    lemma_entry_records_at(es, word, i);
    lemma_word_bytes_decode(e.start_address, word);
    lemma_word_bytes_decode(e.end_address, word);
    lemma_word_bytes_decode(page_offset(e), word);
    assert(b == head + recs + entry_names(es));
    let o = 2 * w + 3 * w * i;
    let rec = recs.subrange(3 * w * i, 3 * w * i + 3 * w);
    assert(b.subrange(o, o + 3 * w) =~= rec);
    lemma_word_at_sub(b, o, w, 0, word);
    lemma_word_at_sub(b, o + w, w, 0, word);
    lemma_word_at_sub(b, o + 2 * w, w, 0, word);
    assert(b.subrange(o, o + w) =~= rec.subrange(0, w));
    assert(rec.subrange(0, w) =~= word_bytes(e.start_address, word));
    assert(b.subrange(o + w, o + 2 * w) =~= rec.subrange(w, 2 * w));
    assert(rec.subrange(w, 2 * w) =~= word_bytes(e.end_address, word));
    assert(b.subrange(o + 2 * w, o + 3 * w) =~= rec.subrange(2 * w, 3 * w));
    assert(rec.subrange(2 * w, 3 * w) =~= word_bytes(page_offset(e), word));
    assert(o + w == 3 * w + 3 * w * i);
    assert(o + 2 * w == 4 * w + 3 * w * i);
}

/// The `NT_FILE` table: the number of files and the page size, then for each
/// file-backed mapping, in order, its start, its end and its file offset in
/// pages, each a word; then the file names.
#[verifier::spinoff_prover]
pub proof fn lemma_nt_file_layout(es: Seq<MappingModel>, word: usize)
    requires
        word == 8 || word == 4,
        nt_file_payload(es, word) is Ok,
    ensures
        ({
            let b = nt_file_payload(es, word)->Ok_0;
            let w = word as int;
            &&& word_at(b, 0, word) == es.len()
            &&& word_at(b, w, word) == DEFAULT_PAGE_SIZE
            &&& forall|i: int|
                0 <= i < es.len() ==> {
                    &&& word_at(b, 2 * w + 3 * w * i, word) == (#[trigger] es[i]).start_address
                    &&& word_at(b, 3 * w + 3 * w * i, word) == es[i].end_address
                    &&& word_at(b, 4 * w + 3 * w * i, word) == es[i].offset / DEFAULT_PAGE_SIZE
                }
            &&& b.subrange(2 * w + 3 * w * es.len(), b.len() as int) == entry_names(es)
        }),
{
    let b = nt_file_payload(es, word)->Ok_0;
    let w = word as int;
    let head = word_bytes(es.len() as u64, word) + word_bytes(DEFAULT_PAGE_SIZE, word);
    let recs = entry_records(es, word);
    lemma_word_bytes_decode(es.len() as u64, word);
    lemma_word_bytes_decode(DEFAULT_PAGE_SIZE, word);
    lemma_entry_records_len(es, word);
    assert(b == head + recs + entry_names(es));
    assert(word_at(b, 0, word) == es.len()) by {
        lemma_word_at_sub(b, 0, w, 0, word);
        assert(b.subrange(0, w) =~= word_bytes(es.len() as u64, word));
    }
    assert(word_at(b, w, word) == DEFAULT_PAGE_SIZE) by {
        lemma_word_at_sub(b, w, w, 0, word);
        assert(b.subrange(w, 2 * w) =~= word_bytes(DEFAULT_PAGE_SIZE, word));
    }
    assert forall|i: int| 0 <= i < es.len() implies {
        &&& word_at(b, 2 * w + 3 * w * i, word) == (#[trigger] es[i]).start_address
        &&& word_at(b, 3 * w + 3 * w * i, word) == es[i].end_address
        &&& word_at(b, 4 * w + 3 * w * i, word) == es[i].offset / DEFAULT_PAGE_SIZE
    } by {
        lemma_nt_file_record(es, word, i);
    }
    assert(b.subrange(2 * w + 3 * w * es.len(), b.len() as int) =~= entry_names(es));
}

/// Appends `value` as a word of `size` bytes, failing with
/// `IntegerOverflow(field)` when it does not fit in 4 bytes.
fn try_push_long(out: &mut Vec<u8>, value: u64, size: usize, field: &'static str) -> (r: Result<
    (),
    Md2CoreError,
>)
    ensures
        match r {
            Ok(()) => word_fits(value, size) && final(out)@ == old(out)@ + word_bytes(value, size),
            Err(e) => !word_fits(value, size) && e == Md2CoreError::IntegerOverflow(field)
                && final(out)@ == old(out)@,
        },
{
    if size == 8 {
        push_u64(out, value);
    } else {
        if value > 0xffff_ffff {
            return Err(Md2CoreError::IntegerOverflow(field));
        }
        push_u32(out, value as u32);
    }
    Ok(())
}

/// Builds the `NT_FILE` descriptor from the mappings that have a file name:
/// entry count, page size, one (start, end, page offset) record per mapping,
/// then the NUL-terminated names, in increasing start-address order.
///
/// On a 32-bit target a value that does not fit in 4 bytes fails with
/// `IntegerOverflow` naming the first such field.
pub fn build_nt_file_payload(arch: Architecture, mappings: &BTreeMap<u64, Mapping>) -> (r: Result<
    Vec<u8>,
    Md2CoreError,
>)
    ensures
        match nt_file_payload(named(mapping_models(mappings@)), arch.spec_long_size()) {
            Ok(bytes) => r matches Ok(v) && v@ == bytes,
            Err(e) => r == Err::<Vec<u8>, Md2CoreError>(e),
        },
{
    let word = arch.long_size();
    let all = ordered_refs(mappings);
    let ghost models = mapping_models(mappings@);
    let mut entries: Vec<&Mapping> = Vec::new();
    let mut i: usize = 0;
    while i < all.len()
        invariant
            i <= all@.len(),
            all@.len() == models.len(),
            models == mapping_models(mappings@),
            forall|k: int| 0 <= k < all@.len() ==> (*all@[k])@ == models[k],
            entries@.len() == named(models.take(i as int)).len(),
            forall|k: int|
                0 <= k < entries@.len() ==> (*entries@[k])@ == named(models.take(i as int))[k],
        decreases all@.len() - i,
    {
        assert(models.take(i + 1).drop_last() =~= models.take(i as int));
        let m = all[i];
        if m.filename.is_some() {
            entries.push(m);
        }
        i = i + 1;
    }
    assert(models.take(all@.len() as int) =~= models);
    let ghost es = named(models);
    let n = entries.len();
    let mut out: Vec<u8> = Vec::new();
    let count = n as u64;
    try_push_long(&mut out, count, word, "NT_FILE entry count")?;
    let _ = try_push_long(&mut out, DEFAULT_PAGE_SIZE, word, "NT_FILE page size");
    let ghost head = out@;
    let mut j: usize = 0;
    while j < n
        invariant
            j <= n,
            n == entries@.len(),
            n == es.len(),
            es == named(mapping_models(mappings@)),
            word_fits(n as u64, word),
            word == arch.spec_long_size(),
            forall|k: int| 0 <= k < n ==> (*entries@[k])@ == es[k],
            first_entry_error(es.take(j as int), word) is None,
            out@ == head + entry_records(es.take(j as int), word),
        decreases n - j,
    {
        let e = entries[j];
        let ghost em = es[j as int];
        assert(es.take(j + 1).drop_last() =~= es.take(j as int));
        assert(es.take(j + 1).last() == em);
        let ghost before = out@;
        let r1 = try_push_long(&mut out, e.start_address, word, "NT_FILE mapping start");
        if r1.is_err() {
            proof {
                lemma_first_error_prefix(es, word, j + 1);
            }
            return Err(Md2CoreError::IntegerOverflow("NT_FILE mapping start"));
        }
        let r2 = try_push_long(&mut out, e.end_address, word, "NT_FILE mapping end");
        if r2.is_err() {
            proof {
                lemma_first_error_prefix(es, word, j + 1);
            }
            return Err(Md2CoreError::IntegerOverflow("NT_FILE mapping end"));
        }
        let page_ofs = e.offset / DEFAULT_PAGE_SIZE;
        let r3 = try_push_long(&mut out, page_ofs, word, "NT_FILE mapping offset");
        if r3.is_err() {
            proof {
                lemma_first_error_prefix(es, word, j + 1);
            }
            return Err(Md2CoreError::IntegerOverflow("NT_FILE mapping offset"));
        }
        j = j + 1;
        assert(out@ =~= head + entry_records(es.take(j as int), word));
    }
    assert(es.take(n as int) =~= es);
    proof {
        lemma_named_have_names(models);
    }
    let ghost mid = out@;
    let mut k: usize = 0;
    while k < n
        invariant
            k <= n,
            n == entries@.len(),
            n == es.len(),
            forall|x: int| 0 <= x < n ==> (*entries@[x])@ == es[x],
            forall|x: int| 0 <= x < n ==> (#[trigger] es[x]).filename is Some,
            out@ == mid + entry_names(es.take(k as int)),
        decreases n - k,
    {
        let e = entries[k];
        assert(es.take(k + 1).drop_last() =~= es.take(k as int));
        match &e.filename {
            Some(name) => {
                push_all(&mut out, name.as_str().as_bytes());
            },
            None => {},
        }
        out.push(0);
        k = k + 1;
        assert(out@ =~= mid + entry_names(es.take(k as int)));
    }
    Ok(out)
}

/// Every mapping kept by `named` has a file name.
proof fn lemma_named_have_names(ms: Seq<MappingModel>)
    ensures
        forall|x: int| 0 <= x < named(ms).len() ==> (#[trigger] named(ms)[x]).filename is Some,
    decreases ms.len(),
{
    if ms.len() > 0 {
        lemma_named_have_names(ms.drop_last());
    }
}

/// An error found within the first `j` entries is the first error overall.
proof fn lemma_first_error_prefix(es: Seq<MappingModel>, word: usize, j: int)
    requires
        0 < j <= es.len(),
        first_entry_error(es.take(j - 1), word) is None,
        entry_error(es[j - 1], word) is Some,
    ensures
        first_entry_error(es, word) == entry_error(es[j - 1], word),
    decreases es.len(),
{
    assert(es.take(j).drop_last() =~= es.take(j - 1));
    if j == es.len() {
        assert(es.take(j) =~= es);
    } else {
        assert(es.drop_last().take(j) =~= es.take(j));
        assert(es.drop_last().take(j - 1) =~= es.take(j - 1));
        lemma_first_error_prefix(es.drop_last(), word, j);
    }
}

} // verus!

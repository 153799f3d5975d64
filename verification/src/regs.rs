//! CPU contexts captured in a minidump, and their serialization into the
//! register blocks of the ELF `NT_PRSTATUS`, `NT_FPREGSET` and `NT_PRXFPREG`
//! notes.
use vstd::prelude::*;

use minidump_common::format::XMM_SAVE_AREA32;
use scroll::Pread;

use crate::bytes::{
    from_le128, from_le16, from_le32, from_le64, lemma_words32_at, lemma_words64_at, le128, le16, le32, le64, lemma_words128_len, lemma_words32_len,
    lemma_words64_len,
    push_all, push_u16, push_u32, push_u64, push_words128, push_words32, push_words64, push_zeros,
    read_u16, read_u32, words128, words32, words64,
};
use crate::error::Md2CoreError;
use crate::model::Architecture;

verus! {

/// x87 floating point save area of a 32-bit x86 context.
#[derive(Debug, Clone, Copy)]
pub struct X86FloatSave {
    pub control_word: u32,
    pub status_word: u32,
    pub tag_word: u32,
    pub error_offset: u32,
    pub error_selector: u32,
    pub data_offset: u32,
    pub data_selector: u32,
    pub register_area: [u8; 80],
}

/// Registers of a 32-bit x86 context.
#[derive(Debug, Clone, Copy)]
pub struct X86Context {
    pub gs: u32,
    pub fs: u32,
    pub es: u32,
    pub ds: u32,
    pub edi: u32,
    pub esi: u32,
    pub ebx: u32,
    pub edx: u32,
    pub ecx: u32,
    pub eax: u32,
    pub ebp: u32,
    pub eip: u32,
    pub cs: u32,
    pub eflags: u32,
    pub esp: u32,
    pub ss: u32,
    pub float_save: X86FloatSave,
    /// The `FXSAVE` area.
    pub extended_registers: [u8; 512],
}

/// Registers of an x86-64 context.
#[derive(Debug, Clone, Copy)]
pub struct Amd64Context {
    pub cs: u16,
    pub ds: u16,
    pub es: u16,
    pub fs: u16,
    pub gs: u16,
    pub ss: u16,
    pub eflags: u32,
    pub rax: u64,
    pub rcx: u64,
    pub rdx: u64,
    pub rbx: u64,
    pub rsp: u64,
    pub rbp: u64,
    pub rsi: u64,
    pub rdi: u64,
    pub r8: u64,
    pub r9: u64,
    pub r10: u64,
    pub r11: u64,
    pub r12: u64,
    pub r13: u64,
    pub r14: u64,
    pub r15: u64,
    pub rip: u64,
    /// The raw `FXSAVE` area (`XMM_SAVE_AREA32`).
    pub float_save: [u8; 512],
}

/// Registers of a 32-bit ARM context.
#[derive(Debug, Clone, Copy)]
pub struct ArmContext {
    /// r0 .. r15.
    pub iregs: [u32; 16],
    pub cpsr: u32,
}

/// Registers of an AArch64 context.
#[derive(Debug, Clone, Copy)]
pub struct Arm64Context {
    /// x0 .. x30.
    pub iregs: [u64; 31],
    pub sp: u64,
    pub pc: u64,
    pub cpsr: u32,
}

/// Registers of a MIPS context.
#[derive(Debug, Clone, Copy)]
pub struct MipsContext {
    pub iregs: [u64; 32],
    pub mdhi: u64,
    pub mdlo: u64,
    pub epc: u64,
    pub badvaddr: u64,
    pub status: u32,
    pub cause: u32,
}

/// A CPU context of one of the architectures a minidump can describe.
#[derive(Debug, Clone, Copy)]
pub enum CpuContext {
    X86(X86Context),
    Amd64(Amd64Context),
    Arm(ArmContext),
    Arm64(Arm64Context),
    /// AArch64 context in the layout of older Breakpad versions.
    OldArm64(Arm64Context),
    Mips(MipsContext),
    Ppc,
    Ppc64,
    Sparc,
}

} // verus!

verus! {

/// Name of the architecture a context belongs to.
pub open spec fn context_name(c: CpuContext) -> &'static str {
    match c {
        CpuContext::X86(_) => "x86",
        CpuContext::Amd64(_) => "x86_64",
        CpuContext::Arm(_) => "arm",
        CpuContext::Arm64(_) | CpuContext::OldArm64(_) => "aarch64",
        CpuContext::Mips(_) => "mips",
        CpuContext::Ppc => "ppc",
        CpuContext::Ppc64 => "ppc64",
        CpuContext::Sparc => "sparc",
    }
}

/// Linux i386 `user_regs_struct`: 17 32-bit words (`orig_eax` repeats `eax`).
pub open spec fn x86_gpregs_bytes(c: X86Context) -> Seq<u8> {
    words32(
        seq![c.ebx, c.ecx, c.edx, c.esi, c.edi, c.ebp, c.eax, c.ds, c.es, c.fs, c.gs, c.eax, c.eip, c.cs, c.eflags, c.esp, c.ss],
    )
}

/// Linux x86-64 `user_regs_struct`: 27 64-bit words (`orig_rax` repeats
/// `rax`, `fs_base` and `gs_base` are zero).
pub open spec fn amd64_gpregs_bytes(c: Amd64Context) -> Seq<u8> {
    words64(
        seq![c.r15, c.r14, c.r13, c.r12, c.rbp, c.rbx, c.r11, c.r10, c.r9, c.r8, c.rax, c.rcx, c.rdx, c.rsi, c.rdi, c.rax, c.rip, c.cs as u64, c.eflags as u64, c.rsp, c.ss as u64, 0u64, 0u64, c.ds as u64, c.es as u64, c.fs as u64, c.gs as u64],
    )
}

/// Linux arm `user_regs`: r0..r15, cpsr and a zero `ORIG_r0`.
pub open spec fn arm_gpregs_bytes(c: ArmContext) -> Seq<u8> {
    words32(c.iregs@ + seq![c.cpsr, 0u32])
}

/// Linux aarch64 `user_pt_regs`: x0..x30, sp, pc, pstate.
pub open spec fn arm64_gpregs_bytes(c: Arm64Context) -> Seq<u8> {
    words64(c.iregs@ + seq![c.sp, c.pc, c.cpsr as u64])
}

/// The 45 slots of the MIPS `elf_gregset_t`: six zero slots, the 32 general
/// registers, lo, hi, epc, badvaddr, status, cause and a zero slot.
pub open spec fn mips_slots(c: MipsContext) -> Seq<u64> {
    Seq::new(6, |_i: int| 0u64) + c.iregs@ + seq![c.mdlo, c.mdhi, c.epc, c.badvaddr, c.status as u64, c.cause as u64, 0u64]
}

/// MIPS registers, as 64-bit slots for n64 or the low 32 bits of each for o32.
pub open spec fn mips_gpregs_bytes(c: MipsContext, n64: bool) -> Seq<u8> {
    if n64 {
        words64(mips_slots(c))
    } else {
        words32(mips_slots(c).map_values(|v: u64| v as u32))
    }
}

/// The `pr_reg` block for `arch` and `context`, or `None` when the context
/// belongs to another architecture.
pub open spec fn pr_reg_bytes(arch: Architecture, context: CpuContext) -> Option<Seq<u8>> {
    match (arch, context) {
        (Architecture::X86, CpuContext::X86(c)) => Some(x86_gpregs_bytes(c)),
        (Architecture::X86_64, CpuContext::Amd64(c)) => Some(amd64_gpregs_bytes(c)),
        (Architecture::Arm, CpuContext::Arm(c)) => Some(arm_gpregs_bytes(c)),
        (Architecture::Aarch64, CpuContext::Arm64(c)) => Some(arm64_gpregs_bytes(c)),
        (Architecture::Aarch64, CpuContext::OldArm64(c)) => Some(arm64_gpregs_bytes(c)),
        (Architecture::Mips, CpuContext::Mips(c)) => Some(mips_gpregs_bytes(c, false)),
        (Architecture::Mips64, CpuContext::Mips(c)) => Some(mips_gpregs_bytes(c, true)),
        _ => None,
    }
}

/// Size of the `pr_reg` block of each architecture.
pub open spec fn pr_reg_size(arch: Architecture) -> nat {
    match arch {
        Architecture::X86 => 68,
        Architecture::X86_64 => 216,
        Architecture::Arm => 72,
        Architecture::Aarch64 => 272,
        Architecture::Mips => 180,
        Architecture::Mips64 => 360,
    }
}

/// Every `pr_reg` block has the size of its architecture.
pub proof fn lemma_pr_reg_size(arch: Architecture, context: CpuContext)
    ensures
        pr_reg_bytes(arch, context) matches Some(b) ==> b.len() == pr_reg_size(arch),
{
    match (arch, context) {
        (Architecture::X86, CpuContext::X86(c)) => {
            lemma_words32_len(
                seq![c.ebx, c.ecx, c.edx, c.esi, c.edi, c.ebp, c.eax, c.ds, c.es, c.fs, c.gs, c.eax, c.eip, c.cs, c.eflags, c.esp, c.ss],
            );
        },
        (Architecture::X86_64, CpuContext::Amd64(c)) => {
            lemma_words64_len(
                seq![c.r15, c.r14, c.r13, c.r12, c.rbp, c.rbx, c.r11, c.r10, c.r9, c.r8, c.rax, c.rcx, c.rdx, c.rsi, c.rdi, c.rax, c.rip, c.cs as u64, c.eflags as u64, c.rsp, c.ss as u64, 0u64, 0u64, c.ds as u64, c.es as u64, c.fs as u64, c.gs as u64],
            );
        },
        (Architecture::Arm, CpuContext::Arm(c)) => {
            lemma_words32_len(c.iregs@ + seq![c.cpsr, 0u32]);
        },
        (Architecture::Aarch64, CpuContext::Arm64(c)) => {
            lemma_words64_len(c.iregs@ + seq![c.sp, c.pc, c.cpsr as u64]);
        },
        (Architecture::Aarch64, CpuContext::OldArm64(c)) => {
            lemma_words64_len(c.iregs@ + seq![c.sp, c.pc, c.cpsr as u64]);
        },
        (Architecture::Mips, CpuContext::Mips(c)) => {
            lemma_words32_len(mips_slots(c).map_values(|v: u64| v as u32));
        },
        (Architecture::Mips64, CpuContext::Mips(c)) => {
            lemma_words64_len(mips_slots(c));
        },
        _ => {},
    }
}

/// Where each register stands in an i386 `pr_reg` block (Linux
/// `user_regs_struct`, 17 little-endian 32-bit slots): ebx, ecx, edx, esi,
/// edi, ebp, eax, ds, es, fs, gs, orig_eax (eax), eip, cs, eflags, esp, ss.
pub proof fn lemma_x86_pr_reg_slots(c: X86Context)
    ensures
        pr_reg_bytes(Architecture::X86, CpuContext::X86(c)) matches Some(b) && {
            &&& b.len() == 68
            &&& from_le32(b, 0) == c.ebx
            &&& from_le32(b, 4) == c.ecx
            &&& from_le32(b, 8) == c.edx
            &&& from_le32(b, 12) == c.esi
            &&& from_le32(b, 16) == c.edi
            &&& from_le32(b, 20) == c.ebp
            &&& from_le32(b, 24) == c.eax
            &&& from_le32(b, 28) == c.ds
            &&& from_le32(b, 32) == c.es
            &&& from_le32(b, 36) == c.fs
            &&& from_le32(b, 40) == c.gs
            &&& from_le32(b, 44) == c.eax
            &&& from_le32(b, 48) == c.eip
            &&& from_le32(b, 52) == c.cs
            &&& from_le32(b, 56) == c.eflags
            &&& from_le32(b, 60) == c.esp
            &&& from_le32(b, 64) == c.ss
        },
{
    let s = seq![c.ebx, c.ecx, c.edx, c.esi, c.edi, c.ebp, c.eax, c.ds, c.es, c.fs, c.gs, c.eax, c.eip, c.cs, c.eflags, c.esp, c.ss];
    assert(pr_reg_bytes(Architecture::X86, CpuContext::X86(c)) == Some(words32(s)));
    lemma_words32_at(s, 0);
    lemma_words32_at(s, 1);
    lemma_words32_at(s, 2);
    lemma_words32_at(s, 3);
    lemma_words32_at(s, 4);
    lemma_words32_at(s, 5);
    lemma_words32_at(s, 6);
    lemma_words32_at(s, 7);
    lemma_words32_at(s, 8);
    lemma_words32_at(s, 9);
    lemma_words32_at(s, 10);
    lemma_words32_at(s, 11);
    lemma_words32_at(s, 12);
    lemma_words32_at(s, 13);
    lemma_words32_at(s, 14);
    lemma_words32_at(s, 15);
    lemma_words32_at(s, 16);
}

/// Where each register stands in an x86-64 `pr_reg` block (Linux
/// `user_regs_struct`, 27 little-endian 64-bit slots): r15, r14, r13, r12,
/// rbp, rbx, r11, r10, r9, r8, rax, rcx, rdx, rsi, rdi, orig_rax (rax), rip,
/// cs, eflags, rsp, ss, fs_base and gs_base (0), ds, es, fs, gs.
pub proof fn lemma_amd64_pr_reg_slots(c: Amd64Context)
    ensures
        pr_reg_bytes(Architecture::X86_64, CpuContext::Amd64(c)) matches Some(b) && {
            &&& b.len() == 216
            &&& from_le64(b, 0) == c.r15
            &&& from_le64(b, 8) == c.r14
            &&& from_le64(b, 16) == c.r13
            &&& from_le64(b, 24) == c.r12
            &&& from_le64(b, 32) == c.rbp
            &&& from_le64(b, 40) == c.rbx
            &&& from_le64(b, 48) == c.r11
            &&& from_le64(b, 56) == c.r10
            &&& from_le64(b, 64) == c.r9
            &&& from_le64(b, 72) == c.r8
            &&& from_le64(b, 80) == c.rax
            &&& from_le64(b, 88) == c.rcx
            &&& from_le64(b, 96) == c.rdx
            &&& from_le64(b, 104) == c.rsi
            &&& from_le64(b, 112) == c.rdi
            &&& from_le64(b, 120) == c.rax
            &&& from_le64(b, 128) == c.rip
            &&& from_le64(b, 136) == (c.cs as u64)
            &&& from_le64(b, 144) == (c.eflags as u64)
            &&& from_le64(b, 152) == c.rsp
            &&& from_le64(b, 160) == (c.ss as u64)
            &&& from_le64(b, 168) == 0
            &&& from_le64(b, 176) == 0
            &&& from_le64(b, 184) == (c.ds as u64)
            &&& from_le64(b, 192) == (c.es as u64)
            &&& from_le64(b, 200) == (c.fs as u64)
            &&& from_le64(b, 208) == (c.gs as u64)
        },
{
    let s = seq![c.r15, c.r14, c.r13, c.r12, c.rbp, c.rbx, c.r11, c.r10, c.r9, c.r8, c.rax, c.rcx, c.rdx, c.rsi, c.rdi, c.rax, c.rip, c.cs as u64, c.eflags as u64, c.rsp, c.ss as u64, 0u64, 0u64, c.ds as u64, c.es as u64, c.fs as u64, c.gs as u64];
    assert(pr_reg_bytes(Architecture::X86_64, CpuContext::Amd64(c)) == Some(words64(s)));
    lemma_words64_at(s, 0);
    lemma_words64_at(s, 1);
    lemma_words64_at(s, 2);
    lemma_words64_at(s, 3);
    lemma_words64_at(s, 4);
    lemma_words64_at(s, 5);
    lemma_words64_at(s, 6);
    lemma_words64_at(s, 7);
    lemma_words64_at(s, 8);
    lemma_words64_at(s, 9);
    lemma_words64_at(s, 10);
    lemma_words64_at(s, 11);
    lemma_words64_at(s, 12);
    lemma_words64_at(s, 13);
    lemma_words64_at(s, 14);
    lemma_words64_at(s, 15);
    lemma_words64_at(s, 16);
    lemma_words64_at(s, 17);
    lemma_words64_at(s, 18);
    lemma_words64_at(s, 19);
    lemma_words64_at(s, 20);
    lemma_words64_at(s, 21);
    lemma_words64_at(s, 22);
    lemma_words64_at(s, 23);
    lemma_words64_at(s, 24);
    lemma_words64_at(s, 25);
    lemma_words64_at(s, 26);
}

/// Where each register stands in an ARM `pr_reg` block (Linux `user_regs`,
/// 18 little-endian 32-bit slots): r0..r15, cpsr, then a zero ORIG_r0.
pub proof fn lemma_arm_pr_reg_slots(c: ArmContext)
    ensures
        pr_reg_bytes(Architecture::Arm, CpuContext::Arm(c)) matches Some(b) && {
            &&& b.len() == 72
            &&& forall|k: int| 0 <= k < 16 ==> from_le32(b, 4 * k) == #[trigger] c.iregs@[k]
            &&& from_le32(b, 64) == c.cpsr
            &&& from_le32(b, 68) == 0
        },
{
    let s = c.iregs@ + seq![c.cpsr, 0u32];
    assert(pr_reg_bytes(Architecture::Arm, CpuContext::Arm(c)) == Some(words32(s)));
    assert forall|k: int| 0 <= k < 16 implies from_le32(words32(s), 4 * k) == #[trigger] c.iregs@[k] by {
        lemma_words32_at(s, k);
    }
    lemma_words32_at(s, 16);
    lemma_words32_at(s, 17);
}

/// Where each register stands in an AArch64 `pr_reg` block (Linux
/// `user_pt_regs`, 34 little-endian 64-bit slots): x0..x30, sp, pc, pstate;
/// the same for a context in the old layout.
pub proof fn lemma_arm64_pr_reg_slots(c: Arm64Context)
    ensures
        pr_reg_bytes(Architecture::Aarch64, CpuContext::Arm64(c)) == pr_reg_bytes(
            Architecture::Aarch64,
            CpuContext::OldArm64(c),
        ),
        pr_reg_bytes(Architecture::Aarch64, CpuContext::Arm64(c)) matches Some(b) && {
            &&& b.len() == 272
            &&& forall|k: int| 0 <= k < 31 ==> from_le64(b, 8 * k) == #[trigger] c.iregs@[k]
            &&& from_le64(b, 248) == c.sp
            &&& from_le64(b, 256) == c.pc
            &&& from_le64(b, 264) == c.cpsr as u64
        },
{
    let s = c.iregs@ + seq![c.sp, c.pc, c.cpsr as u64];
    assert(pr_reg_bytes(Architecture::Aarch64, CpuContext::Arm64(c)) == Some(words64(s)));
    assert forall|k: int| 0 <= k < 31 implies from_le64(words64(s), 8 * k) == #[trigger] c.iregs@[k] by {
        lemma_words64_at(s, k);
    }
    lemma_words64_at(s, 31);
    lemma_words64_at(s, 32);
    lemma_words64_at(s, 33);
}

/// Where each register stands in a MIPS64 (n64) `pr_reg` block (45
/// little-endian 64-bit slots): six zero slots, r0..r31, lo, hi, epc,
/// badvaddr, status, cause and a zero slot.
pub proof fn lemma_mips64_pr_reg_slots(c: MipsContext)
    ensures
        pr_reg_bytes(Architecture::Mips64, CpuContext::Mips(c)) matches Some(b) && {
            &&& b.len() == 360
            &&& forall|k: int| 0 <= k < 6 ==> #[trigger] from_le64(b, 8 * k) == 0
            &&& forall|k: int| 0 <= k < 32 ==> from_le64(b, 8 * (k + 6)) == #[trigger] c.iregs@[k]
            &&& from_le64(b, 304) == c.mdlo
            &&& from_le64(b, 312) == c.mdhi
            &&& from_le64(b, 320) == c.epc
            &&& from_le64(b, 328) == c.badvaddr
            &&& from_le64(b, 336) == c.status as u64
            &&& from_le64(b, 344) == c.cause as u64
            &&& from_le64(b, 352) == 0
        },
{
    let s = mips_slots(c);
    assert(pr_reg_bytes(Architecture::Mips64, CpuContext::Mips(c)) == Some(words64(s)));
    assert forall|k: int| 0 <= k < 6 implies #[trigger] from_le64(words64(s), 8 * k) == 0 by {
        lemma_words64_at(s, k);
    }
    assert forall|k: int| 0 <= k < 32 implies from_le64(words64(s), 8 * (k + 6)) == #[trigger] c.iregs@[k] by {
        lemma_words64_at(s, k + 6);
        assert(8 * (k + 6) == 8 * k + 48);
    }
    lemma_words64_at(s, 38);
    lemma_words64_at(s, 39);
    lemma_words64_at(s, 40);
    lemma_words64_at(s, 41);
    lemma_words64_at(s, 42);
    lemma_words64_at(s, 43);
    lemma_words64_at(s, 44);
}

/// Where each register stands in a MIPS o32 `pr_reg` block (45
/// little-endian 32-bit slots, the low half of each register): six zero
/// slots, r0..r31, lo, hi, epc, badvaddr, status, cause and a zero slot.
pub proof fn lemma_mips_pr_reg_slots(c: MipsContext)
    ensures
        pr_reg_bytes(Architecture::Mips, CpuContext::Mips(c)) matches Some(b) && {
            &&& b.len() == 180
            &&& forall|k: int| 0 <= k < 6 ==> #[trigger] from_le32(b, 4 * k) == 0
            &&& forall|k: int| 0 <= k < 32 ==> from_le32(b, 4 * (k + 6)) == #[trigger] c.iregs@[k] as u32
            &&& from_le32(b, 152) == c.mdlo as u32
            &&& from_le32(b, 156) == c.mdhi as u32
            &&& from_le32(b, 160) == c.epc as u32
            &&& from_le32(b, 164) == c.badvaddr as u32
            &&& from_le32(b, 168) == c.status
            &&& from_le32(b, 172) == c.cause
            &&& from_le32(b, 176) == 0
        },
{
    let s = mips_slots(c).map_values(|v: u64| v as u32);
    assert(pr_reg_bytes(Architecture::Mips, CpuContext::Mips(c)) == Some(words32(s)));
    assert forall|k: int| 0 <= k < 6 implies #[trigger] from_le32(words32(s), 4 * k) == 0 by {
        lemma_words32_at(s, k);
    }
    assert forall|k: int| 0 <= k < 32 implies from_le32(words32(s), 4 * (k + 6)) == #[trigger] c.iregs@[k] as u32 by {
        lemma_words32_at(s, k + 6);
        assert(4 * (k + 6) == 4 * k + 24);
    }
    lemma_words32_at(s, 38);
    lemma_words32_at(s, 39);
    lemma_words32_at(s, 40);
    lemma_words32_at(s, 41);
    lemma_words32_at(s, 42);
    lemma_words32_at(s, 43);
    lemma_words32_at(s, 44);
    assert(s[42] == c.status as u64 as u32 && s[43] == c.cause as u64 as u32);
    let st = c.status;
    let ca = c.cause;
    assert(st as u64 as u32 == st && ca as u64 as u32 == ca) by (bit_vector);
}

/// Returns the architecture name of a context.
fn context_arch_name(context: &CpuContext) -> (r: &'static str)
    ensures
        r == context_name(*context),
{
    match context {
        CpuContext::X86(_) => "x86",
        CpuContext::Amd64(_) => "x86_64",
        CpuContext::Arm(_) => "arm",
        CpuContext::Arm64(_) | CpuContext::OldArm64(_) => "aarch64",
        CpuContext::Mips(_) => "mips",
        CpuContext::Ppc => "ppc",
        CpuContext::Ppc64 => "ppc64",
        CpuContext::Sparc => "sparc",
    }
}

/// Bytes for the `pr_reg` field of `elf_prstatus`.
///
/// Fails with `ContextMismatch` when `context` belongs to an architecture
/// other than `arch`.
pub fn to_pr_reg(arch: Architecture, context: &CpuContext) -> (r: Result<Vec<u8>, Md2CoreError>)
    ensures
        match pr_reg_bytes(arch, *context) {
            Some(b) => r matches Ok(v) && v@ == b && v@.len() == pr_reg_size(arch),
            None => r == Err::<Vec<u8>, Md2CoreError>(
                Md2CoreError::ContextMismatch { expected: arch.name(), found: context_name(*context) },
            ),
        },
{
    proof {
        lemma_pr_reg_size(arch, *context);
    }
    match (arch, context) {
        (Architecture::X86, CpuContext::X86(c)) => Ok(x86_gpregs(c)),
        (Architecture::X86_64, CpuContext::Amd64(c)) => Ok(amd64_gpregs(c)),
        (Architecture::Arm, CpuContext::Arm(c)) => Ok(arm_gpregs(c)),
        (Architecture::Aarch64, CpuContext::Arm64(c)) => Ok(arm64_gpregs(c)),
        (Architecture::Aarch64, CpuContext::OldArm64(c)) => Ok(arm64_gpregs(c)),
        (Architecture::Mips, CpuContext::Mips(c)) => Ok(mips_gpregs(c, false)),
        (Architecture::Mips64, CpuContext::Mips(c)) => Ok(mips_gpregs(c, true)),
        _ => Err(
            Md2CoreError::ContextMismatch {
                expected: arch.as_str(),
                found: context_arch_name(context),
            },
        ),
    }
}

fn x86_gpregs(c: &X86Context) -> (r: Vec<u8>)
    ensures
        r@ == x86_gpregs_bytes(*c),
{
    let vals: [u32; 17] = [
        c.ebx,
        c.ecx,
        c.edx,
        c.esi,
        c.edi,
        c.ebp,
        c.eax,
        c.ds,
        c.es,
        c.fs,
        c.gs,
        c.eax,
        c.eip,
        c.cs,
        c.eflags,
        c.esp,
        c.ss,
    ];
    let mut out: Vec<u8> = Vec::new();
    push_words32(&mut out, vals.as_slice());
    assert(vals@ =~= seq![c.ebx, c.ecx, c.edx, c.esi, c.edi, c.ebp, c.eax, c.ds, c.es, c.fs, c.gs, c.eax, c.eip, c.cs, c.eflags, c.esp, c.ss]);
    assert(out@ =~= x86_gpregs_bytes(*c));
    out
}

fn amd64_gpregs(c: &Amd64Context) -> (r: Vec<u8>)
    ensures
        r@ == amd64_gpregs_bytes(*c),
{
    let vals: [u64; 27] = [
        c.r15,
        c.r14,
        c.r13,
        c.r12,
        c.rbp,
        c.rbx,
        c.r11,
        c.r10,
        c.r9,
        c.r8,
        c.rax,
        c.rcx,
        c.rdx,
        c.rsi,
        c.rdi,
        c.rax,
        c.rip,
        c.cs as u64,
        c.eflags as u64,
        c.rsp,
        c.ss as u64,
        0,
        0,
        c.ds as u64,
        c.es as u64,
        c.fs as u64,
        c.gs as u64,
    ];
    let mut out: Vec<u8> = Vec::new();
    push_words64(&mut out, vals.as_slice());
    assert(vals@ =~= seq![c.r15, c.r14, c.r13, c.r12, c.rbp, c.rbx, c.r11, c.r10, c.r9, c.r8, c.rax, c.rcx, c.rdx, c.rsi, c.rdi, c.rax, c.rip, c.cs as u64, c.eflags as u64, c.rsp, c.ss as u64, 0u64, 0u64, c.ds as u64, c.es as u64, c.fs as u64, c.gs as u64]);
    assert(out@ =~= amd64_gpregs_bytes(*c));
    out
}

fn arm_gpregs(c: &ArmContext) -> (r: Vec<u8>)
    ensures
        r@ == arm_gpregs_bytes(*c),
{
    let mut out: Vec<u8> = Vec::new();
    push_words32(&mut out, c.iregs.as_slice());
    let tail: [u32; 2] = [c.cpsr, 0];
    push_words32(&mut out, tail.as_slice());
    proof {
        lemma_words32_concat(c.iregs@, tail@);
    }
    assert(tail@ =~= seq![c.cpsr, 0u32]);
    assert(out@ =~= arm_gpregs_bytes(*c));
    out
}

fn arm64_gpregs(c: &Arm64Context) -> (r: Vec<u8>)
    ensures
        r@ == arm64_gpregs_bytes(*c),
{
    let mut out: Vec<u8> = Vec::new();
    push_words64(&mut out, c.iregs.as_slice());
    let tail: [u64; 3] = [c.sp, c.pc, c.cpsr as u64];
    push_words64(&mut out, tail.as_slice());
    proof {
        lemma_words64_concat(c.iregs@, tail@);
    }
    assert(tail@ =~= seq![c.sp, c.pc, c.cpsr as u64]);
    assert(out@ =~= arm64_gpregs_bytes(*c));
    out
}

fn mips_gpregs(c: &MipsContext, n64: bool) -> (r: Vec<u8>)
    ensures
        r@ == mips_gpregs_bytes(*c, n64),
{
    let mut slots: Vec<u64> = Vec::new();
    let mut i: usize = 0;
    while i < 6
        invariant
            i <= 6,
            slots@ == Seq::new(i as nat, |_i: int| 0u64),
        decreases 6 - i,
    {
        slots.push(0);
        i = i + 1;
        assert(slots@ =~= Seq::new(i as nat, |_i: int| 0u64));
    }
    let mut j: usize = 0;
    while j < 32
        invariant
            j <= 32,
            slots@ == Seq::new(6, |_i: int| 0u64) + c.iregs@.take(j as int),
        decreases 32 - j,
    {
        slots.push(c.iregs[j]);
        j = j + 1;
        assert(slots@ =~= Seq::new(6, |_i: int| 0u64) + c.iregs@.take(j as int));
    }
    slots.push(c.mdlo);
    slots.push(c.mdhi);
    slots.push(c.epc);
    slots.push(c.badvaddr);
    slots.push(c.status as u64);
    slots.push(c.cause as u64);
    slots.push(0);
    assert(c.iregs@.take(32) =~= c.iregs@);
    assert(slots@ =~= mips_slots(*c));
    let mut out: Vec<u8> = Vec::new();
    if n64 {
        push_words64(&mut out, slots.as_slice());
    } else {
        let mut low: Vec<u32> = Vec::new();
        let mut k: usize = 0;
        while k < slots.len()
            invariant
                k <= slots@.len(),
                low@ == slots@.take(k as int).map_values(|v: u64| v as u32),
            decreases slots@.len() - k,
        {
            let v = slots[k];
            assert((v % 0x1_0000_0000) as u32 == v as u32) by (bit_vector);
            low.push((v % 0x1_0000_0000) as u32);
            k = k + 1;
            assert(low@ =~= slots@.take(k as int).map_values(|v: u64| v as u32));
        }
        assert(slots@.take(slots@.len() as int) =~= slots@);
        push_words32(&mut out, low.as_slice());
    }
    out
}

/// Appending two word sequences concatenates their images.
proof fn lemma_words32_concat(a: Seq<u32>, b: Seq<u32>)
    ensures
        words32(a + b) == words32(a) + words32(b),
    decreases b.len(),
{
    if b.len() == 0 {
        assert(a + b =~= a);
        assert(words32(b) =~= Seq::<u8>::empty());
        assert(words32(a) + words32(b) =~= words32(a));
    } else {
        assert((a + b).drop_last() =~= a + b.drop_last());
        lemma_words32_concat(a, b.drop_last());
        assert(words32(a + b) =~= words32(a) + words32(b));
    }
}

/// Appending two word sequences concatenates their images.
proof fn lemma_words64_concat(a: Seq<u64>, b: Seq<u64>)
    ensures
        words64(a + b) == words64(a) + words64(b),
    decreases b.len(),
{
    if b.len() == 0 {
        assert(a + b =~= a);
        assert(words64(b) =~= Seq::<u8>::empty());
        assert(words64(a) + words64(b) =~= words64(a));
    } else {
        assert((a + b).drop_last() =~= a + b.drop_last());
        lemma_words64_concat(a, b.drop_last());
        assert(words64(a + b) =~= words64(a) + words64(b));
    }
}

} // verus!

verus! {

/// The fields of an `XMM_SAVE_AREA32` (the x86-64 `FXSAVE` image) that the
/// register notes use.
pub struct XmmSaveArea {
    pub control_word: u16,
    pub status_word: u16,
    pub tag_word: u8,
    pub reserved1: u8,
    pub error_opcode: u16,
    pub error_offset: u32,
    pub data_offset: u32,
    pub mx_csr: u32,
    pub mx_csr_mask: u32,
    pub float_registers: [u128; 8],
    pub xmm_registers: [u128; 16],
}

/// Reads an `XMM_SAVE_AREA32` from `bytes` with `scroll`'s `Pread`
/// (`minidump_common::format::XMM_SAVE_AREA32`, little-endian).
///
/// The struct's fields are read one after the other with no padding, so the
/// read succeeds exactly when at least its 512 bytes are there, and each field
/// is the little-endian value at its offset.
#[verifier::external_body]
fn read_xmm_save_area(bytes: &[u8]) -> (r: Option<XmmSaveArea>)
    ensures
        r is Some <==> bytes@.len() >= 512,
        r matches Some(x) ==> {
            &&& x.control_word == from_le16(bytes@, 0)
            &&& x.status_word == from_le16(bytes@, 2)
            &&& x.tag_word == bytes@[4]
            &&& x.reserved1 == bytes@[5]
            &&& x.error_opcode == from_le16(bytes@, 6)
            &&& x.error_offset == from_le32(bytes@, 8)
            &&& x.data_offset == from_le32(bytes@, 16)
            &&& x.mx_csr == from_le32(bytes@, 24)
            &&& x.mx_csr_mask == from_le32(bytes@, 28)
            &&& forall|i: int| 0 <= i < 8 ==> x.float_registers@[i] == from_le128(bytes@, 32 + 16 * i)
            &&& forall|i: int| 0 <= i < 16 ==> x.xmm_registers@[i] == from_le128(bytes@, 160 + 16 * i)
        },
{
    let x: XMM_SAVE_AREA32 = bytes.pread_with(0, scroll::LE).ok()?;
    Some(XmmSaveArea {
        control_word: x.control_word,
        status_word: x.status_word,
        tag_word: x.tag_word,
        reserved1: x.reserved1,
        error_opcode: x.error_opcode,
        error_offset: x.error_offset,
        data_offset: x.data_offset,
        mx_csr: x.mx_csr,
        mx_csr_mask: x.mx_csr_mask,
        float_registers: x.float_registers,
        xmm_registers: x.xmm_registers,
    })
}

/// Linux i386 `user_fpregs_struct`: the seven x87 control words and the
/// 80-byte register area (108 bytes).
pub open spec fn x86_fpregs_bytes(c: X86Context) -> Seq<u8> {
    let f = c.float_save;
    words32(
        seq![f.control_word, f.status_word, f.tag_word, f.error_offset, f.error_selector, f.data_offset, f.data_selector],
    ) + f.register_area@
}

/// Linux x86-64 `user_fpregs_struct` (512 bytes) rebuilt from a raw
/// `FXSAVE` image: control, status and tag words, opcode, the instruction
/// and data offsets widened to 64 bits, MXCSR and its mask, the eight x87
/// and sixteen XMM registers, then zero padding.
pub open spec fn amd64_fpregs_bytes(raw: Seq<u8>) -> Seq<u8> {
    le16(from_le16(raw, 0)) + le16(from_le16(raw, 2)) + le16((raw[4] + 0x100 * raw[5]) as u16)
        + le16(from_le16(raw, 6)) + le64(from_le32(raw, 8) as u64) + le64(
        from_le32(raw, 16) as u64,
    ) + le32(from_le32(raw, 24)) + le32(from_le32(raw, 28)) + words128(
        Seq::new(8, |i: int| from_le128(raw, 32 + 16 * i)),
    ) + words128(Seq::new(16, |i: int| from_le128(raw, 160 + 16 * i))) + Seq::new(
        96,
        |_i: int| 0u8,
    )
}

/// The `NT_FPREGSET` payload, present for x86 and x86-64 contexts of their
/// own architecture.
pub open spec fn fpregset_bytes(arch: Architecture, context: CpuContext) -> Option<Seq<u8>> {
    match (arch, context) {
        (Architecture::X86, CpuContext::X86(c)) => Some(x86_fpregs_bytes(c)),
        (Architecture::X86_64, CpuContext::Amd64(c)) => Some(amd64_fpregs_bytes(c.float_save@)),
        _ => None,
    }
}

/// The i386 `NT_FPREGSET` layout (`user_i387_struct`, 108 bytes): the
/// control, status and tag words, the instruction offset and selector, the
/// operand offset and selector, as 32-bit words, then the x87 register area.
pub proof fn lemma_x86_fpregs_layout(c: X86Context)
    ensures
        fpregset_bytes(Architecture::X86, CpuContext::X86(c)) matches Some(b) && {
            let f = c.float_save;
            &&& b.len() == 108
            &&& from_le32(b, 0) == f.control_word
            &&& from_le32(b, 4) == f.status_word
            &&& from_le32(b, 8) == f.tag_word
            &&& from_le32(b, 12) == f.error_offset
            &&& from_le32(b, 16) == f.error_selector
            &&& from_le32(b, 20) == f.data_offset
            &&& from_le32(b, 24) == f.data_selector
            &&& b.subrange(28, 108) == f.register_area@
        },
{
    let f = c.float_save;
    let ws = seq![f.control_word, f.status_word, f.tag_word, f.error_offset, f.error_selector, f.data_offset, f.data_selector];
    let b = words32(ws) + f.register_area@;
    assert(fpregset_bytes(Architecture::X86, CpuContext::X86(c)) == Some(b));
    lemma_words32_len(ws);
    assert forall|k: int| 0 <= k < 7 implies from_le32(b, 4 * k) == #[trigger] ws[k] by {
        lemma_words32_at(ws, k);
        crate::bytes::lemma_from_le32_prefix(words32(ws), f.register_area@, 4 * k);
    }
    assert(from_le32(b, 4 * 0int) == ws[0]);
    assert(from_le32(b, 4 * 1int) == ws[1]);
    assert(from_le32(b, 4 * 2int) == ws[2]);
    assert(from_le32(b, 4 * 3int) == ws[3]);
    assert(from_le32(b, 4 * 4int) == ws[4]);
    assert(from_le32(b, 4 * 5int) == ws[5]);
    assert(from_le32(b, 4 * 6int) == ws[6]);
    assert(b.subrange(28, 108) =~= f.register_area@);
}

/// The pieces of the x86-64 `NT_FPREGSET` image.
#[verifier::spinoff_prover]
#[verifier::rlimit(60)]
proof fn lemma_amd64_fpregs_pieces(raw: Seq<u8>)
    ensures
        ({
            let st = Seq::new(8, |i: int| from_le128(raw, 32 + 16 * i));
            let xmm = Seq::new(16, |i: int| from_le128(raw, 160 + 16 * i));
            let head = le16(from_le16(raw, 0)) + le16(from_le16(raw, 2)) + le16(
                (raw[4] + 0x100 * raw[5]) as u16,
            ) + le16(from_le16(raw, 6)) + le64(from_le32(raw, 8) as u64) + le64(
                from_le32(raw, 16) as u64,
            ) + le32(from_le32(raw, 24)) + le32(from_le32(raw, 28));
            &&& amd64_fpregs_bytes(raw) == head + words128(st) + words128(xmm) + Seq::new(
                96,
                |_i: int| 0u8,
            )
            &&& head.len() == 32
            &&& words128(st).len() == 128
            &&& words128(xmm).len() == 256
        }),
{
    lemma_words128_len(Seq::new(8, |i: int| from_le128(raw, 32 + 16 * i)));
    lemma_words128_len(Seq::new(16, |i: int| from_le128(raw, 160 + 16 * i)));
}

/// The control words, offsets and MXCSR of the x86-64 `NT_FPREGSET` image.
#[verifier::spinoff_prover]
proof fn lemma_amd64_fpregs_head(raw: Seq<u8>)
    ensures
        ({
            let b = amd64_fpregs_bytes(raw);
            &&& b.len() == 512
            &&& from_le16(b, 0) == from_le16(raw, 0)
            &&& from_le16(b, 2) == from_le16(raw, 2)
            &&& from_le16(b, 4) == from_le16(raw, 4)
            &&& from_le16(b, 6) == from_le16(raw, 6)
            &&& from_le64(b, 8) == from_le32(raw, 8) as u64
            &&& from_le64(b, 16) == from_le32(raw, 16) as u64
            &&& from_le32(b, 24) == from_le32(raw, 24)
            &&& from_le32(b, 28) == from_le32(raw, 28)
            &&& forall|k: int| 416 <= k < 512 ==> #[trigger] b[k] == 0
        }),
{
    let b = amd64_fpregs_bytes(raw);
    lemma_amd64_fpregs_pieces(raw);
    assert(from_le16(b, 0) == from_le16(raw, 0)) by {
        assert(b.subrange(0, 2) =~= le16(from_le16(raw, 0)));
        crate::bytes::lemma_from_le16_at(b, 0, from_le16(raw, 0));
    }
    assert(from_le16(b, 2) == from_le16(raw, 2)) by {
        assert(b.subrange(2, 4) =~= le16(from_le16(raw, 2)));
        crate::bytes::lemma_from_le16_at(b, 2, from_le16(raw, 2));
    }
    assert(from_le16(b, 4) == from_le16(raw, 4)) by {
        assert(b.subrange(4, 6) =~= le16((raw[4] + 0x100 * raw[5]) as u16));
        crate::bytes::lemma_from_le16_at(b, 4, (raw[4] + 0x100 * raw[5]) as u16);
    }
    assert(from_le16(b, 6) == from_le16(raw, 6)) by {
        assert(b.subrange(6, 8) =~= le16(from_le16(raw, 6)));
        crate::bytes::lemma_from_le16_at(b, 6, from_le16(raw, 6));
    }
    assert(from_le64(b, 8) == from_le32(raw, 8) as u64) by {
        assert(b.subrange(8, 16) =~= le64(from_le32(raw, 8) as u64));
        crate::bytes::lemma_from_le64_at(b, 8, from_le32(raw, 8) as u64);
    }
    assert(from_le64(b, 16) == from_le32(raw, 16) as u64) by {
        assert(b.subrange(16, 24) =~= le64(from_le32(raw, 16) as u64));
        crate::bytes::lemma_from_le64_at(b, 16, from_le32(raw, 16) as u64);
    }
    assert(from_le32(b, 24) == from_le32(raw, 24)) by {
        assert(b.subrange(24, 28) =~= le32(from_le32(raw, 24)));
        crate::bytes::lemma_from_le32_at(b, 24, from_le32(raw, 24));
    }
    assert(from_le32(b, 28) == from_le32(raw, 28)) by {
        assert(b.subrange(28, 32) =~= le32(from_le32(raw, 28)));
        crate::bytes::lemma_from_le32_at(b, 28, from_le32(raw, 28));
    }
}

/// The x87 and XMM registers of the x86-64 `NT_FPREGSET` image.
#[verifier::spinoff_prover]
proof fn lemma_amd64_fpregs_registers(raw: Seq<u8>, i: int)
    requires
        0 <= i < 24,
    ensures
        from_le128(amd64_fpregs_bytes(raw), 32 + 16 * i) == from_le128(raw, 32 + 16 * i),
{
    let b = amd64_fpregs_bytes(raw);
    let st = Seq::new(8, |i: int| from_le128(raw, 32 + 16 * i));
    let xmm = Seq::new(16, |i: int| from_le128(raw, 160 + 16 * i));
    lemma_amd64_fpregs_pieces(raw);
    if i < 8 {
        crate::bytes::lemma_words128_at(st, i);
        assert(b.subrange(32 + 16 * i, 32 + 16 * i + 16) =~= words128(st).subrange(
            16 * i,
            16 * i + 16,
        ));
        crate::bytes::lemma_from_le128_at(b, 32 + 16 * i, st[i]);
    } else {
        let j = i - 8;
        crate::bytes::lemma_words128_at(xmm, j);
        assert(32 + 16 * i == 160 + 16 * j);
        assert(b.subrange(160 + 16 * j, 160 + 16 * j + 16) =~= words128(xmm).subrange(
            16 * j,
            16 * j + 16,
        ));
        crate::bytes::lemma_from_le128_at(b, 160 + 16 * j, xmm[j]);
    }
}

/// The x86-64 `NT_FPREGSET` layout (`user_fpregs_struct`, 512 bytes) against
/// the captured `FXSAVE` image: the control, status, tag and opcode words at
/// their places, the instruction and operand offsets widened from 32 to 64
/// bits, MXCSR and its mask, the eight x87 and sixteen XMM registers at
/// their places, and zeros after them.
pub proof fn lemma_amd64_fpregs_layout(c: Amd64Context)
    ensures
        fpregset_bytes(Architecture::X86_64, CpuContext::Amd64(c)) matches Some(b) && {
            let raw = c.float_save@;
            &&& b.len() == 512
            &&& from_le16(b, 0) == from_le16(raw, 0)
            &&& from_le16(b, 2) == from_le16(raw, 2)
            &&& from_le16(b, 4) == from_le16(raw, 4)
            &&& from_le16(b, 6) == from_le16(raw, 6)
            &&& from_le64(b, 8) == from_le32(raw, 8) as u64
            &&& from_le64(b, 16) == from_le32(raw, 16) as u64
            &&& from_le32(b, 24) == from_le32(raw, 24)
            &&& from_le32(b, 28) == from_le32(raw, 28)
            &&& forall|i: int|
                0 <= i < 24 ==> #[trigger] from_le128(b, 32 + 16 * i) == from_le128(raw, 32 + 16 * i)
            &&& forall|k: int| 416 <= k < 512 ==> #[trigger] b[k] == 0
        },
{
    let raw = c.float_save@;
    lemma_amd64_fpregs_head(raw);
    assert forall|i: int| 0 <= i < 24 implies #[trigger] from_le128(
        amd64_fpregs_bytes(raw),
        32 + 16 * i,
    ) == from_le128(raw, 32 + 16 * i) by {
        lemma_amd64_fpregs_registers(raw, i);
    }
}

/// Optional FP-register payload for the `NT_FPREGSET` note.
pub fn to_fpregset(arch: Architecture, context: &CpuContext) -> (r: Option<Vec<u8>>)
    ensures
        match fpregset_bytes(arch, *context) {
            Some(b) => r matches Some(v) && v@ == b,
            None => r is None,
        },
{
    match (arch, context) {
        (Architecture::X86, CpuContext::X86(c)) => Some(x86_fpregs(c)),
        (Architecture::X86_64, CpuContext::Amd64(c)) => amd64_fpregs(c),
        _ => None,
    }
}

fn x86_fpregs(c: &X86Context) -> (r: Vec<u8>)
    ensures
        r@ == x86_fpregs_bytes(*c),
{
    let f = &c.float_save;
    let vals: [u32; 7] = [
        f.control_word,
        f.status_word,
        f.tag_word,
        f.error_offset,
        f.error_selector,
        f.data_offset,
        f.data_selector,
    ];
    let mut out: Vec<u8> = Vec::new();
    push_words32(&mut out, vals.as_slice());
    push_all(&mut out, f.register_area.as_slice());
    assert(vals@ =~= seq![f.control_word, f.status_word, f.tag_word, f.error_offset, f.error_selector, f.data_offset, f.data_selector]);
    assert(out@ =~= x86_fpregs_bytes(*c));
    out
}

fn amd64_fpregs(c: &Amd64Context) -> (r: Option<Vec<u8>>)
    ensures
        r matches Some(v) && v@ == amd64_fpregs_bytes(c.float_save@),
{
    let raw = c.float_save.as_slice();
    let xmm = match read_xmm_save_area(raw) {
        Some(x) => x,
        None => return None,
    };
    let mut out: Vec<u8> = Vec::new();
    push_u16(&mut out, xmm.control_word);
    push_u16(&mut out, xmm.status_word);
    let ftw: u16 = (xmm.tag_word as u16) + 0x100 * (xmm.reserved1 as u16);
    push_u16(&mut out, ftw);
    push_u16(&mut out, xmm.error_opcode);
    push_u64(&mut out, xmm.error_offset as u64);
    push_u64(&mut out, xmm.data_offset as u64);
    push_u32(&mut out, xmm.mx_csr);
    push_u32(&mut out, xmm.mx_csr_mask);
    push_words128(&mut out, xmm.float_registers.as_slice());
    push_words128(&mut out, xmm.xmm_registers.as_slice());
    push_zeros(&mut out, 96);
    assert(xmm.float_registers@ =~= Seq::new(8, |i: int| from_le128(raw@, 32 + 16 * i)));
    assert(xmm.xmm_registers@ =~= Seq::new(16, |i: int| from_le128(raw@, 160 + 16 * i)));
    assert(out@ =~= amd64_fpregs_bytes(c.float_save@));
    Some(out)
}

/// `v` if it fits in 16 bits, else 0.
pub open spec fn u16_or_zero(v: u32) -> u16 {
    if v <= u16::MAX {
        v as u16
    } else {
        0
    }
}

/// Linux i386 `user_fpxregs_struct` (512 bytes) built from the x87 control
/// words and the `FXSAVE` area: fcw, fsw, ftw (each 0 when wider than 16
/// bits), fop, fip, fcs, foo, fos, mxcsr, a zero word, `st_space`,
/// `xmm_space`, then zero padding.
pub open spec fn x86_fpxregs_bytes(c: X86Context) -> Seq<u8> {
    let f = c.float_save;
    let ext = c.extended_registers@;
    le16(u16_or_zero(f.control_word)) + le16(u16_or_zero(f.status_word)) + le16(
        u16_or_zero(f.tag_word),
    ) + le16(from_le16(ext, 6)) + le32(from_le16(ext, 8) as u32) + le32(
        from_le16(ext, 12) as u32,
    ) + le32(from_le16(ext, 16) as u32) + le32(from_le16(ext, 20) as u32) + le32(
        from_le32(ext, 24),
    ) + le32(0) + ext.subrange(32, 160) + ext.subrange(160, 288) + Seq::new(224, |_i: int| 0u8)
}

/// The `NT_PRXFPREG` payload, present for x86 contexts only.
pub open spec fn prxfpreg_bytes(arch: Architecture, context: CpuContext) -> Option<Seq<u8>> {
    match (arch, context) {
        (Architecture::X86, CpuContext::X86(c)) => Some(x86_fpxregs_bytes(c)),
        _ => None,
    }
}

/// The i386 `NT_PRXFPREG` layout (`user_fxsr_struct`, 512 bytes): the x87
/// control, status and tag words (0 when one does not fit in 16 bits), the
/// opcode, the instruction and operand offsets and selectors and MXCSR of the
/// captured `FXSAVE` image, then its x87 and XMM register areas at their
/// places, and zeros after them.
#[verifier::spinoff_prover]
pub proof fn lemma_x86_fpxregs_layout(c: X86Context)
    ensures
        prxfpreg_bytes(Architecture::X86, CpuContext::X86(c)) matches Some(b) && {
            let f = c.float_save;
            let ext = c.extended_registers@;
            &&& b.len() == 512
            &&& from_le16(b, 0) == (if f.control_word <= 0xffff { f.control_word as u16 } else { 0u16 })
            &&& from_le16(b, 2) == (if f.status_word <= 0xffff { f.status_word as u16 } else { 0u16 })
            &&& from_le16(b, 4) == (if f.tag_word <= 0xffff { f.tag_word as u16 } else { 0u16 })
            &&& from_le16(b, 6) == from_le16(ext, 6)
            &&& from_le32(b, 8) == from_le16(ext, 8) as u32
            &&& from_le32(b, 12) == from_le16(ext, 12) as u32
            &&& from_le32(b, 16) == from_le16(ext, 16) as u32
            &&& from_le32(b, 20) == from_le16(ext, 20) as u32
            &&& from_le32(b, 24) == from_le32(ext, 24)
            &&& from_le32(b, 28) == 0u32
            &&& b.subrange(32, 160) == ext.subrange(32, 160)
            &&& b.subrange(160, 288) == ext.subrange(160, 288)
            &&& forall|k: int| 288 <= k < 512 ==> #[trigger] b[k] == 0
        },
{
    let f = c.float_save;
    let ext = c.extended_registers@;
    let b = x86_fpxregs_bytes(c);
    assert(prxfpreg_bytes(Architecture::X86, CpuContext::X86(c)) == Some(b));
    assert(from_le16(b, 0) == u16_or_zero(f.control_word)) by {
        assert(b.subrange(0, 2) =~= le16(u16_or_zero(f.control_word)));
        crate::bytes::lemma_from_le16_at(b, 0, u16_or_zero(f.control_word));
    }
    assert(from_le16(b, 2) == u16_or_zero(f.status_word)) by {
        assert(b.subrange(2, 4) =~= le16(u16_or_zero(f.status_word)));
        crate::bytes::lemma_from_le16_at(b, 2, u16_or_zero(f.status_word));
    }
    assert(from_le16(b, 4) == u16_or_zero(f.tag_word)) by {
        assert(b.subrange(4, 6) =~= le16(u16_or_zero(f.tag_word)));
        crate::bytes::lemma_from_le16_at(b, 4, u16_or_zero(f.tag_word));
    }
    assert(from_le16(b, 6) == from_le16(ext, 6)) by {
        assert(b.subrange(6, 8) =~= le16(from_le16(ext, 6)));
        crate::bytes::lemma_from_le16_at(b, 6, from_le16(ext, 6));
    }
    assert(from_le32(b, 8) == from_le16(ext, 8) as u32) by {
        assert(b.subrange(8, 12) =~= le32(from_le16(ext, 8) as u32));
        crate::bytes::lemma_from_le32_at(b, 8, from_le16(ext, 8) as u32);
    }
    assert(from_le32(b, 12) == from_le16(ext, 12) as u32) by {
        assert(b.subrange(12, 16) =~= le32(from_le16(ext, 12) as u32));
        crate::bytes::lemma_from_le32_at(b, 12, from_le16(ext, 12) as u32);
    }
    assert(from_le32(b, 16) == from_le16(ext, 16) as u32) by {
        assert(b.subrange(16, 20) =~= le32(from_le16(ext, 16) as u32));
        crate::bytes::lemma_from_le32_at(b, 16, from_le16(ext, 16) as u32);
    }
    assert(from_le32(b, 20) == from_le16(ext, 20) as u32) by {
        assert(b.subrange(20, 24) =~= le32(from_le16(ext, 20) as u32));
        crate::bytes::lemma_from_le32_at(b, 20, from_le16(ext, 20) as u32);
    }
    assert(from_le32(b, 24) == from_le32(ext, 24)) by {
        assert(b.subrange(24, 28) =~= le32(from_le32(ext, 24)));
        crate::bytes::lemma_from_le32_at(b, 24, from_le32(ext, 24));
    }
    assert(from_le32(b, 28) == 0u32) by {
        assert(b.subrange(28, 32) =~= le32(0u32));
        crate::bytes::lemma_from_le32_at(b, 28, 0u32);
    }
    assert(b.subrange(32, 160) =~= ext.subrange(32, 160));
    assert(b.subrange(160, 288) =~= ext.subrange(160, 288));
}

/// Optional `NT_PRXFPREG` payload (x86 only).
pub fn to_prxfpreg(arch: Architecture, context: &CpuContext) -> (r: Option<Vec<u8>>)
    ensures
        match prxfpreg_bytes(arch, *context) {
            Some(b) => r matches Some(v) && v@ == b,
            None => r is None,
        },
{
    match (arch, context) {
        (Architecture::X86, CpuContext::X86(c)) => Some(x86_fpxregs(c)),
        _ => None,
    }
}

fn low16(v: u32) -> (r: u16)
    ensures
        r == u16_or_zero(v),
{
    if v <= 0xffff {
        v as u16
    } else {
        0
    }
}

fn x86_fpxregs(c: &X86Context) -> (r: Vec<u8>)
    ensures
        r@ == x86_fpxregs_bytes(*c),
{
    let f = &c.float_save;
    let ext = c.extended_registers.as_slice();
    let mut out: Vec<u8> = Vec::new();
    push_u16(&mut out, low16(f.control_word));
    push_u16(&mut out, low16(f.status_word));
    push_u16(&mut out, low16(f.tag_word));
    push_u16(&mut out, read_u16(ext, 6));
    push_u32(&mut out, read_u16(ext, 8) as u32);
    push_u32(&mut out, read_u16(ext, 12) as u32);
    push_u32(&mut out, read_u16(ext, 16) as u32);
    push_u32(&mut out, read_u16(ext, 20) as u32);
    push_u32(&mut out, read_u32(ext, 24));
    push_u32(&mut out, 0);
    push_all(&mut out, slice_range(ext, 32, 160));
    push_all(&mut out, slice_range(ext, 160, 288));
    push_zeros(&mut out, 224);
    assert(out@ =~= x86_fpxregs_bytes(*c));
    out
}

/// The bytes of `s` in `start..end`.
fn slice_range(s: &[u8], start: usize, end: usize) -> (r: &[u8])
    requires
        start <= end <= s@.len(),
    ensures
        r@ == s@.subrange(start as int, end as int),
{
    let (head, _) = s.split_at(end);
    let (_, mid) = head.split_at(start);
    assert(mid@ =~= s@.subrange(start as int, end as int));
    mid
}

/// Size of the `NT_FPREGSET` payload: 108 bytes for x86, 512 for x86-64.
pub open spec fn fpregset_size(arch: Architecture) -> nat {
    if arch == Architecture::X86 {
        108
    } else {
        512
    }
}

/// The x86 floating-point payloads are 108 and 512 bytes long.
proof fn lemma_x86_fp_sizes(c: X86Context)
    ensures
        x86_fpregs_bytes(c).len() == 108,
        x86_fpxregs_bytes(c).len() == 512,
{
    let f = c.float_save;
    lemma_words32_len(
        seq![f.control_word, f.status_word, f.tag_word, f.error_offset, f.error_selector, f.data_offset, f.data_selector],
    );
}

/// The x86-64 floating-point payload is 512 bytes long.
proof fn lemma_amd64_fp_size(raw: Seq<u8>)
    ensures
        amd64_fpregs_bytes(raw).len() == 512,
{
    lemma_words128_len(Seq::new(8, |i: int| from_le128(raw, 32 + 16 * i)));
    lemma_words128_len(Seq::new(16, |i: int| from_le128(raw, 160 + 16 * i)));
}

/// The floating-point payloads have the sizes of their structures: the
/// `NT_FPREGSET` one [`fpregset_size`], the `NT_PRXFPREG` one 512 bytes.
pub proof fn lemma_fp_payload_sizes(arch: Architecture, context: CpuContext)
    ensures
        fpregset_bytes(arch, context) matches Some(b) ==> b.len() == fpregset_size(arch),
        prxfpreg_bytes(arch, context) matches Some(b) ==> b.len() == 512,
{
    match context {
        CpuContext::X86(c) => {
            lemma_x86_fp_sizes(c);
        },
        CpuContext::Amd64(c) => {
            lemma_amd64_fp_size(c.float_save@);
        },
        _ => {},
    }
}

} // verus!

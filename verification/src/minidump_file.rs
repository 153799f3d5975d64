//! Reading the streams of a minidump file: the `minidump` crate parses the
//! file, and the library turns what it returns into [`MinidumpStreams`].
use vstd::prelude::*;
use vstd::slice::slice_subrange;
use vstd::std_specs::iter::IteratorSpec;

use minidump::system_info::{Cpu as MdCpu, Os as MdOs};
use minidump::{
    CodeView, Minidump, MinidumpContext, MinidumpException, MinidumpLinuxMaps,
    MinidumpModuleList, MinidumpRawContext, MinidumpSystemInfo, MinidumpThreadList,
};
use procfs_core::process::MMapPath;

use crate::error::Md2CoreError;
use crate::model::{CrashedProcess, ThreadSnapshot};
use crate::regs::{
    Amd64Context, Arm64Context, ArmContext, CpuContext, MipsContext, X86Context, X86FloatSave,
};
use crate::rust_minidump::{
    fails_as, modules_fit, read_process_from_minidump, read_spec, ConvertOptions, Cpu,
    ExceptionInfo, Guid, LinuxMapEntry, MinidumpStreams, ModuleInfo, Os,
};

verus! {

/// Stream type of `MD_LINUX_CMD_LINE`.
pub const LINUX_CMD_LINE_STREAM: u32 = 0x47670006;

/// Stream type of `MD_LINUX_AUXV`.
pub const LINUX_AUXV_STREAM: u32 = 0x47670008;

/// Stream type of `MD_LINUX_DSO_DEBUG`.
pub const LINUX_DSO_DEBUG_STREAM: u32 = 0x4767000A;

/// One thread of the thread list stream as the file records it.
pub struct ThreadRecord {
    /// Thread id.
    pub tid: u32,
    /// Start address of the thread's stack memory.
    pub stack_address: u64,
    /// The stack memory, when it could be found.
    pub stack: Option<Vec<u8>>,
    /// File offset of the thread's CPU context.
    pub context_rva: u32,
    /// Size in bytes of the thread's CPU context.
    pub context_size: u32,
}

/// The exception stream as the file records it.
pub struct ExceptionRecord {
    /// Id of the crashing thread.
    pub thread_id: u32,
    /// The exception code (the signal number on Linux).
    pub exception_code: u32,
    /// File offset of the CPU context at the exception.
    pub context_rva: u32,
    /// Size in bytes of that context.
    pub context_size: u32,
}

/// Which kind of CPU context a context is.
#[derive(Debug, Clone, Copy, PartialEq, Eq, Structural)]
pub enum ContextKind {
    X86,
    Amd64,
    Arm,
    Arm64,
    OldArm64,
    Mips,
    Ppc,
    Ppc64,
    Sparc,
}

/// The kind of a context.
pub open spec fn kind_of(c: CpuContext) -> ContextKind {
    match c {
        CpuContext::X86(_) => ContextKind::X86,
        CpuContext::Amd64(_) => ContextKind::Amd64,
        CpuContext::Arm(_) => ContextKind::Arm,
        CpuContext::Arm64(_) => ContextKind::Arm64,
        CpuContext::OldArm64(_) => ContextKind::OldArm64,
        CpuContext::Mips(_) => ContextKind::Mips,
        CpuContext::Ppc => ContextKind::Ppc,
        CpuContext::Ppc64 => ContextKind::Ppc64,
        CpuContext::Sparc => ContextKind::Sparc,
    }
}

// --- what the `minidump` crate reads ------------------------------------------

/// What `Minidump::read` gives for the file: `Ok` when its header and stream
/// directory parse, else the error.
pub uninterp spec fn minidump_header(file: Seq<u8>) -> Result<(), minidump::Error>;

/// The CPU and system of the file's system info stream (`get_stream` of
/// `MinidumpSystemInfo`), or the error reading the file or the stream.
pub uninterp spec fn minidump_system_info(file: Seq<u8>) -> Result<(Cpu, Os), minidump::Error>;

/// The entries of the file's `MD_LINUX_MAPS` stream in address order, when the
/// file and that stream parse.
pub uninterp spec fn minidump_linux_maps(file: Seq<u8>) -> Option<Vec<LinuxMapEntry>>;

/// The bytes of the stream of the given type (`get_raw_stream`): `None` when
/// the file has no such stream, else the error reading the file or the stream.
pub uninterp spec fn minidump_raw_stream(file: Seq<u8>, stream_type: u32) -> Result<
    Option<Seq<u8>>,
    minidump::Error,
>;

/// The records of the file's thread list stream, when the file and that
/// stream parse.
pub uninterp spec fn minidump_thread_records(file: Seq<u8>) -> Option<Vec<ThreadRecord>>;

/// The record of the file's exception stream, when the file and that stream
/// parse.
pub uninterp spec fn minidump_exception_record(file: Seq<u8>) -> Option<ExceptionRecord>;

/// The modules of the file's module list stream, when the file and that
/// stream parse.
pub uninterp spec fn minidump_modules(file: Seq<u8>) -> Option<Vec<ModuleInfo>>;

/// The CPU context that `MinidumpContext::read` reads from `context` for the
/// file's system (with the file's byte order), when the file, its system info
/// and the context parse.
pub uninterp spec fn minidump_context(file: Seq<u8>, context: Seq<u8>) -> Option<CpuContext>;

/// Parses the file's header and stream directory with `Minidump::read`.
#[verifier::external_body]
fn check_minidump(file: &[u8]) -> (r: Result<(), minidump::Error>)
    ensures
        r == minidump_header(file@),
{
    match Minidump::read(file) {
        Ok(_) => Ok(()),
        Err(e) => Err(e),
    }
}

/// The CPU of the system info stream (`MinidumpSystemInfo::cpu`).
#[verifier::external_body]
fn read_cpu(file: &[u8]) -> (r: Result<Cpu, minidump::Error>)
    ensures
        match minidump_system_info(file@) {
            Ok((cpu, _)) => r == Ok::<Cpu, minidump::Error>(cpu),
            Err(e) => r == Err::<Cpu, minidump::Error>(e),
        },
{
    let md = Minidump::read(file)?;
    let info = md.get_stream::<MinidumpSystemInfo>()?;
    Ok(match info.cpu {
        MdCpu::X86 => Cpu::X86,
        MdCpu::X86_64 => Cpu::X86_64,
        MdCpu::Ppc => Cpu::Ppc,
        MdCpu::Ppc64 => Cpu::Ppc64,
        MdCpu::Sparc => Cpu::Sparc,
        MdCpu::Arm => Cpu::Arm,
        MdCpu::Arm64 => Cpu::Arm64,
        MdCpu::Mips => Cpu::Mips,
        MdCpu::Mips64 => Cpu::Mips64,
        MdCpu::Unknown(n) => Cpu::Unknown(n),
        _ => Cpu::Unknown(0),
    })
}

/// The system of the system info stream (`MinidumpSystemInfo::os`).
#[verifier::external_body]
fn read_os(file: &[u8]) -> (r: Result<Os, minidump::Error>)
    ensures
        match minidump_system_info(file@) {
            Ok((_, os)) => r == Ok::<Os, minidump::Error>(os),
            Err(e) => r == Err::<Os, minidump::Error>(e),
        },
{
    let md = Minidump::read(file)?;
    let info = md.get_stream::<MinidumpSystemInfo>()?;
    Ok(match info.os {
        MdOs::Windows => Os::Windows,
        MdOs::MacOs => Os::MacOs,
        MdOs::Ios => Os::Ios,
        MdOs::Linux => Os::Linux,
        MdOs::Solaris => Os::Solaris,
        MdOs::Android => Os::Android,
        MdOs::Ps3 => Os::Ps3,
        MdOs::NaCl => Os::NaCl,
        MdOs::Unknown(n) => Os::Unknown(n),
    })
}

/// The entries of the `MD_LINUX_MAPS` stream in address order
/// (`MinidumpLinuxMaps::by_addr`); a path only for file-backed entries.
#[verifier::external_body]
fn read_linux_maps(file: &[u8]) -> (r: Option<Vec<LinuxMapEntry>>)
    ensures
        r == minidump_linux_maps(file@),
{
    let md = Minidump::read(file).ok()?;
    let maps = md.get_stream::<MinidumpLinuxMaps<'_>>().ok()?;
    Some(maps.by_addr().map(|info| LinuxMapEntry {
        start: info.map.address.0, end: info.map.address.1, offset: info.map.offset,
        readable: info.is_readable(), writable: info.is_writable(),
        executable: info.is_executable(),
        path: match &info.map.pathname {
            MMapPath::Path(p) => Some(p.to_string_lossy().into_owned()),
            _ => None,
        },
    }).collect())
}

/// The bytes of a stream by its type (`Minidump::get_raw_stream`); an absent
/// stream gives `Ok(None)`.
#[verifier::external_body]
pub fn optional_raw_stream(file: &[u8], stream_type: u32) -> (r: Result<Option<Vec<u8>>, minidump::Error>)
    ensures
        match minidump_raw_stream(file@, stream_type) {
            Ok(Some(s)) => r matches Ok(Some(v)) && v@ == s,
            Ok(None) => r matches Ok(None),
            Err(e) => r == Err::<Option<Vec<u8>>, minidump::Error>(e),
        },
{
    let md = Minidump::read(file)?;
    match md.get_raw_stream(stream_type) {
        Ok(bytes) => Ok(Some(bytes.to_vec())),
        Err(minidump::Error::StreamNotFound) => Ok(None),
        Err(e) => Err(e),
    }
}

/// The thread list's records, with each stack's bytes
/// (`MinidumpThread::stack_memory` over the file's memory list).
#[verifier::external_body]
fn read_thread_records(file: &[u8]) -> (r: Option<Vec<ThreadRecord>>)
    ensures
        r == minidump_thread_records(file@),
{
    let md = Minidump::read(file).ok()?;
    let list = md.get_stream::<MinidumpThreadList<'_>>().ok()?;
    let memory = md.get_memory().unwrap_or_default();
    Some(list.threads.iter().map(|t| ThreadRecord {
        tid: t.raw.thread_id,
        stack_address: t.raw.stack.start_of_memory_range,
        stack: t.stack_memory(&memory).map(|s| s.bytes().to_vec()),
        context_rva: t.raw.thread_context.rva,
        context_size: t.raw.thread_context.data_size,
    }).collect())
}

/// The exception stream's record (`MinidumpException`).
#[verifier::external_body]
fn read_exception_record(file: &[u8]) -> (r: Option<ExceptionRecord>)
    ensures
        r == minidump_exception_record(file@),
{
    let md = Minidump::read(file).ok()?;
    let e = md.get_stream::<MinidumpException<'_>>().ok()?;
    Some(ExceptionRecord {
        thread_id: e.thread_id,
        exception_code: e.raw.exception_record.exception_code,
        context_rva: e.raw.thread_context.rva,
        context_size: e.raw.thread_context.data_size,
    })
}

/// The module list (`MinidumpModuleList::iter`): base, size, name and the
/// GUID of a PDB 7.0 CodeView record.
#[verifier::external_body]
fn read_modules(file: &[u8]) -> (r: Option<Vec<ModuleInfo>>)
    ensures
        r == minidump_modules(file@),
{
    let md = Minidump::read(file).ok()?;
    let list = md.get_stream::<MinidumpModuleList>().ok()?;
    Some(list.iter().map(|m| ModuleInfo {
        base: m.raw.base_of_image, size: m.raw.size_of_image, name: m.name.clone(),
        guid: match &m.codeview_info {
            Some(CodeView::Pdb70(p)) => Some(Guid {
                data1: p.signature.data1, data2: p.signature.data2,
                data3: p.signature.data3, data4: p.signature.data4,
            }),
            _ => None,
        },
    }).collect())
}

/// The kind of context that `MinidumpContext::read` reads.
#[verifier::external_body]
fn context_kind(file: &[u8], context: &[u8]) -> (r: Option<ContextKind>)
    ensures
        r == match minidump_context(file@, context@) {
            Some(c) => Some(kind_of(c)),
            None => None,
        },
{
    let md = Minidump::read(file).ok()?;
    let info = md.get_stream::<MinidumpSystemInfo>().ok()?;
    let c = MinidumpContext::read(context, md.endian, &info, None).ok()?;
    Some(match c.raw {
        MinidumpRawContext::X86(_) => ContextKind::X86,
        MinidumpRawContext::Amd64(_) => ContextKind::Amd64,
        MinidumpRawContext::Arm(_) => ContextKind::Arm,
        MinidumpRawContext::Arm64(_) => ContextKind::Arm64,
        MinidumpRawContext::OldArm64(_) => ContextKind::OldArm64,
        MinidumpRawContext::Mips(_) => ContextKind::Mips,
        MinidumpRawContext::Ppc(_) => ContextKind::Ppc,
        MinidumpRawContext::Ppc64(_) => ContextKind::Ppc64,
        MinidumpRawContext::Sparc(_) => ContextKind::Sparc,
    })
}

/// The registers of an x86 context (`CONTEXT_X86`): the sixteen integer and
/// segment registers, the seven x87 control words, the x87 register area and
/// the `FXSAVE` area.
#[verifier::external_body]
fn context_x86(file: &[u8], context: &[u8]) -> (r: Option<([u32; 16], [u32; 7], [u8; 80], [u8; 512])>)
    ensures
        match minidump_context(file@, context@) {
            Some(CpuContext::X86(x)) => r matches Some((g, f, a, e)) && g@ == seq![
                x.gs, x.fs, x.es, x.ds, x.edi, x.esi, x.ebx, x.edx, x.ecx, x.eax, x.ebp, x.eip,
                x.cs, x.eflags, x.esp, x.ss,
            ] && f@ == seq![
                x.float_save.control_word, x.float_save.status_word, x.float_save.tag_word,
                x.float_save.error_offset, x.float_save.error_selector,
                x.float_save.data_offset, x.float_save.data_selector,
            ] && a == x.float_save.register_area && e == x.extended_registers,
            _ => r is None,
        },
{
    let md = Minidump::read(file).ok()?;
    let info = md.get_stream::<MinidumpSystemInfo>().ok()?;
    let c = MinidumpContext::read(context, md.endian, &info, None).ok()?;
    match c.raw {
        MinidumpRawContext::X86(x) => { let f = &x.float_save; Some((
            [x.gs, x.fs, x.es, x.ds, x.edi, x.esi, x.ebx, x.edx, x.ecx, x.eax, x.ebp, x.eip,
                x.cs, x.eflags, x.esp, x.ss],
            [f.control_word, f.status_word, f.tag_word, f.error_offset, f.error_selector,
                f.data_offset, f.data_selector],
            f.register_area, x.extended_registers)) },
        _ => None,
    }
}

/// The registers of an x86-64 context (`CONTEXT_AMD64`): the six segment
/// registers, the flags, the sixteen integer registers and `rip`, and the
/// `FXSAVE` area.
#[verifier::external_body]
fn context_amd64(file: &[u8], context: &[u8]) -> (r: Option<([u16; 6], u32, [u64; 17], [u8; 512])>)
    ensures
        match minidump_context(file@, context@) {
            Some(CpuContext::Amd64(x)) => r matches Some((s, fl, g, fs)) && s@ == seq![
                x.cs, x.ds, x.es, x.fs, x.gs, x.ss,
            ] && fl == x.eflags && g@ == seq![
                x.rax, x.rcx, x.rdx, x.rbx, x.rsp, x.rbp, x.rsi, x.rdi, x.r8, x.r9, x.r10,
                x.r11, x.r12, x.r13, x.r14, x.r15, x.rip,
            ] && fs == x.float_save,
            _ => r is None,
        },
{
    let md = Minidump::read(file).ok()?;
    let info = md.get_stream::<MinidumpSystemInfo>().ok()?;
    let c = MinidumpContext::read(context, md.endian, &info, None).ok()?;
    match c.raw {
        MinidumpRawContext::Amd64(x) => Some((
            [x.cs, x.ds, x.es, x.fs, x.gs, x.ss], x.eflags,
            [x.rax, x.rcx, x.rdx, x.rbx, x.rsp, x.rbp, x.rsi, x.rdi, x.r8, x.r9, x.r10,
                x.r11, x.r12, x.r13, x.r14, x.r15, x.rip],
            x.float_save)),
        _ => None,
    }
}

/// The registers of a 32-bit ARM context (`CONTEXT_ARM`).
#[verifier::external_body]
fn context_arm(file: &[u8], context: &[u8]) -> (r: Option<([u32; 16], u32)>)
    ensures
        match minidump_context(file@, context@) {
            Some(CpuContext::Arm(x)) => r == Some((x.iregs, x.cpsr)),
            _ => r is None,
        },
{
    let md = Minidump::read(file).ok()?;
    let info = md.get_stream::<MinidumpSystemInfo>().ok()?;
    let c = MinidumpContext::read(context, md.endian, &info, None).ok()?;
    match c.raw {
        MinidumpRawContext::Arm(x) => Some((x.iregs, x.cpsr)),
        _ => None,
    }
}

/// The registers of an AArch64 context, in the current (`CONTEXT_ARM64`) or
/// the old (`CONTEXT_ARM64_OLD`) layout.
#[verifier::external_body]
fn context_arm64(file: &[u8], context: &[u8]) -> (r: Option<([u64; 31], u64, u64, u32)>)
    ensures
        match minidump_context(file@, context@) {
            Some(CpuContext::Arm64(x)) => r == Some((x.iregs, x.sp, x.pc, x.cpsr)),
            Some(CpuContext::OldArm64(x)) => r == Some((x.iregs, x.sp, x.pc, x.cpsr)),
            _ => r is None,
        },
{
    let md = Minidump::read(file).ok()?;
    let info = md.get_stream::<MinidumpSystemInfo>().ok()?;
    let c = MinidumpContext::read(context, md.endian, &info, None).ok()?;
    match c.raw {
        MinidumpRawContext::Arm64(x) => Some((x.iregs, x.sp, x.pc, x.cpsr)),
        MinidumpRawContext::OldArm64(x) => Some((x.iregs, x.sp, x.pc, x.cpsr)),
        _ => None,
    }
}

/// The registers of a MIPS context (`CONTEXT_MIPS`).
#[verifier::external_body]
fn context_mips(file: &[u8], context: &[u8]) -> (r: Option<([u64; 32], u64, u64, u64, u64, u32, u32)>)
    ensures
        match minidump_context(file@, context@) {
            Some(CpuContext::Mips(x)) => r == Some(
                (x.iregs, x.mdhi, x.mdlo, x.epc, x.badvaddr, x.status, x.cause),
            ),
            _ => r is None,
        },
{
    let md = Minidump::read(file).ok()?;
    let info = md.get_stream::<MinidumpSystemInfo>().ok()?;
    let c = MinidumpContext::read(context, md.endian, &info, None).ok()?;
    match c.raw {
        MinidumpRawContext::Mips(x) => Some(
            (x.iregs, x.mdhi, x.mdlo, x.epc, x.badvaddr, x.status, x.cause),
        ),
        _ => None,
    }
}

// --- the library's part -------------------------------------------------------

/// The bytes a location descriptor (file offset and size) names, when they
/// lie within the file.
pub open spec fn location(file: Seq<u8>, rva: u32, size: u32) -> Option<Seq<u8>> {
    if rva + size <= file.len() {
        Some(file.subrange(rva as int, rva + size))
    } else {
        None
    }
}

/// The CPU context stored at a location of the file.
pub open spec fn context_at_location(file: Seq<u8>, rva: u32, size: u32) -> Option<CpuContext> {
    match location(file, rva, size) {
        Some(c) => minidump_context(file, c),
        None => None,
    }
}

/// The bytes at a location descriptor, when they lie within the file.
fn location_bytes(file: &[u8], rva: u32, size: u32) -> (r: Option<&[u8]>)
    ensures
        match location(file@, rva, size) {
            Some(b) => r matches Some(v) && v@ == b,
            None => r is None,
        },
{
    let start = rva as usize;
    let len = size as usize;
    if start <= file.len() && len <= file.len() - start {
        Some(slice_subrange(file, start, start + len))
    } else {
        None
    }
}

/// Reads a CPU context from its bytes, for the file's system.
pub fn context_at(file: &[u8], context: &[u8]) -> (r: Option<CpuContext>)
    ensures
        r == minidump_context(file@, context@),
{
    match context_kind(file, context) {
        None => None,
        Some(ContextKind::X86) => match context_x86(file, context) {
            Some((g, f, a, e)) => Some(CpuContext::X86(X86Context {
                gs: g[0], fs: g[1], es: g[2], ds: g[3], edi: g[4], esi: g[5], ebx: g[6],
                edx: g[7], ecx: g[8], eax: g[9], ebp: g[10], eip: g[11], cs: g[12],
                eflags: g[13], esp: g[14], ss: g[15],
                float_save: X86FloatSave {
                    control_word: f[0], status_word: f[1], tag_word: f[2], error_offset: f[3],
                    error_selector: f[4], data_offset: f[5], data_selector: f[6],
                    register_area: a,
                },
                extended_registers: e,
            })),
            None => None,
        },
        Some(ContextKind::Amd64) => match context_amd64(file, context) {
            Some((sg, fl, g, fs)) => Some(CpuContext::Amd64(Amd64Context {
                cs: sg[0], ds: sg[1], es: sg[2], fs: sg[3], gs: sg[4], ss: sg[5], eflags: fl,
                rax: g[0], rcx: g[1], rdx: g[2], rbx: g[3], rsp: g[4], rbp: g[5], rsi: g[6],
                rdi: g[7], r8: g[8], r9: g[9], r10: g[10], r11: g[11], r12: g[12], r13: g[13],
                r14: g[14], r15: g[15], rip: g[16], float_save: fs,
            })),
            None => None,
        },
        Some(ContextKind::Arm) => match context_arm(file, context) {
            Some((iregs, cpsr)) => Some(CpuContext::Arm(ArmContext { iregs, cpsr })),
            None => None,
        },
        Some(ContextKind::Arm64) => match context_arm64(file, context) {
            Some((iregs, sp, pc, cpsr)) => Some(
                CpuContext::Arm64(Arm64Context { iregs, sp, pc, cpsr }),
            ),
            None => None,
        },
        Some(ContextKind::OldArm64) => match context_arm64(file, context) {
            Some((iregs, sp, pc, cpsr)) => Some(
                CpuContext::OldArm64(Arm64Context { iregs, sp, pc, cpsr }),
            ),
            None => None,
        },
        Some(ContextKind::Mips) => match context_mips(file, context) {
            Some((iregs, mdhi, mdlo, epc, badvaddr, status, cause)) => Some(
                CpuContext::Mips(MipsContext { iregs, mdhi, mdlo, epc, badvaddr, status, cause }),
            ),
            None => None,
        },
        Some(ContextKind::Ppc) => Some(CpuContext::Ppc),
        Some(ContextKind::Ppc64) => Some(CpuContext::Ppc64),
        Some(ContextKind::Sparc) => Some(CpuContext::Sparc),
    }
}

/// Reads the CPU context at a location of the file.
fn context_at_record(file: &[u8], rva: u32, size: u32) -> (r: Option<CpuContext>)
    ensures
        r == context_at_location(file@, rva, size),
{
    match location_bytes(file, rva, size) {
        Some(c) => context_at(file, c),
        None => None,
    }
}

/// Whether `s` is the snapshot of thread record `t`: its id and stack
/// address, its stack bytes (empty when the stack was not found) and the
/// context at its context location.
pub open spec fn is_snapshot_of(s: ThreadSnapshot, file: Seq<u8>, t: ThreadRecord) -> bool {
    &&& s.tid == t.tid
    &&& s.stack_address == t.stack_address
    &&& s.stack@ == match t.stack {
        Some(v) => v@,
        None => Seq::empty(),
    }
    &&& s.context == context_at_location(file, t.context_rva, t.context_size)
}

/// One snapshot per thread record, in order.
pub fn thread_snapshots(file: &[u8], records: Vec<ThreadRecord>) -> (r: Vec<ThreadSnapshot>)
    ensures
        r@.len() == records@.len(),
        forall|i: int| 0 <= i < r@.len() ==> is_snapshot_of(#[trigger] r@[i], file@, records@[i]),
{
    let ghost all = records@;
    let mut out: Vec<ThreadSnapshot> = Vec::new();
    let iter = records.into_iter();
    assert(iter.remaining() == all);
    for t in it: iter
        invariant
            it.seq() == all,
            out@.len() == it.index(),
            forall|i: int| 0 <= i < out@.len() ==> is_snapshot_of(#[trigger] out@[i], file@, all[i]),
    {
        let context = context_at_record(file, t.context_rva, t.context_size);
        let stack = match t.stack {
            Some(v) => v,
            None => Vec::new(),
        };
        out.push(ThreadSnapshot { tid: t.tid, stack_address: t.stack_address, stack, context });
    }
    out
}

/// The streams read from a minidump file: each as the `minidump` crate reads
/// it; the threads and the exception only where the system info reads too,
/// with their contexts read from the locations their records name.
pub open spec fn file_streams(s: MinidumpStreams, file: Seq<u8>) -> bool {
    let info = minidump_system_info(file);
    &&& s.system_info == info
    &&& s.linux_maps == minidump_linux_maps(file)
    &&& raw_stream_is(s.auxv, minidump_raw_stream(file, LINUX_AUXV_STREAM))
    &&& raw_stream_is(s.cmdline, minidump_raw_stream(file, LINUX_CMD_LINE_STREAM))
    &&& raw_stream_is(s.dso_debug, minidump_raw_stream(file, LINUX_DSO_DEBUG_STREAM))
    &&& s.modules == minidump_modules(file)
    &&& match (minidump_thread_records(file), info) {
        (Some(ts), Ok(_)) => s.threads matches Some(v) && v@.len() == ts@.len() && forall|i: int|
            0 <= i < v@.len() ==> is_snapshot_of(#[trigger] v@[i], file, ts@[i]),
        _ => s.threads is None,
    }
    &&& match (minidump_exception_record(file), info) {
        (Some(e), Ok(_)) => s.exception matches Some(x) && x.thread_id == e.thread_id
            && x.exception_code == e.exception_code && x.context == context_at_location(
            file,
            e.context_rva,
            e.context_size,
        ),
        _ => s.exception is None,
    }
}

/// Whether a raw stream holds the bytes (or the error) named.
pub open spec fn raw_stream_is(
    r: Result<Option<Vec<u8>>, minidump::Error>,
    s: Result<Option<Seq<u8>>, minidump::Error>,
) -> bool {
    match s {
        Ok(Some(b)) => r matches Ok(Some(v)) && v@ == b,
        Ok(None) => r matches Ok(None),
        Err(e) => r == Err::<Option<Vec<u8>>, minidump::Error>(e),
    }
}

/// Reads every stream the conversion uses from a minidump file.
pub fn read_streams(file: &[u8]) -> (s: MinidumpStreams)
    ensures
        file_streams(s, file@),
{
    let system_info = match (read_cpu(file), read_os(file)) {
        (Ok(cpu), Ok(os)) => Ok((cpu, os)),
        (Err(e), _) => Err(e),
        (_, Err(e)) => Err(e),
    };
    let info_ok = system_info.is_ok();
    let threads = match read_thread_records(file) {
        Some(records) => if info_ok {
            Some(thread_snapshots(file, records))
        } else {
            None
        },
        None => None,
    };
    let exception = match read_exception_record(file) {
        Some(e) => if info_ok {
            Some(ExceptionInfo {
                thread_id: e.thread_id,
                exception_code: e.exception_code,
                context: context_at_record(file, e.context_rva, e.context_size),
            })
        } else {
            None
        },
        None => None,
    };
    MinidumpStreams {
        system_info,
        linux_maps: read_linux_maps(file),
        auxv: optional_raw_stream(file, LINUX_AUXV_STREAM),
        cmdline: optional_raw_stream(file, LINUX_CMD_LINE_STREAM),
        threads,
        modules: read_modules(file),
        exception,
        dso_debug: optional_raw_stream(file, LINUX_DSO_DEBUG_STREAM),
    }
}

/// Whether every module's image ends within the address space.
fn modules_in_range(modules: &Option<Vec<ModuleInfo>>) -> (b: bool)
    ensures
        b == modules_fit(*modules),
{
    match modules {
        None => true,
        Some(ms) => {
            let mut i: usize = 0;
            while i < ms.len()
                invariant
                    i <= ms@.len(),
                    *modules == Some(*ms),
                    forall|k: int| 0 <= k < i ==> #[trigger] ms@[k].base + ms@[k].size <= u64::MAX,
                decreases ms@.len() - i,
            {
                if ms[i].base.checked_add(ms[i].size as u64).is_none() {
                    assert(!(ms@[i as int].base + ms@[i as int].size <= u64::MAX));
                    assert(modules_fit(*modules) ==> ms@[i as int].base + ms@[i as int].size
                        <= u64::MAX);
                    return false;
                }
                i = i + 1;
            }
            true
        },
    }
}

/// Whether `r` is what reading the streams gives: the process whose model
/// `read_spec` describes, or an error of the failure it names.
pub open spec fn read_result_is(
    r: Result<CrashedProcess, Md2CoreError>,
    s: MinidumpStreams,
    file: Seq<u8>,
    options: ConvertOptions,
) -> bool {
    match read_spec(s, file, options) {
        Ok(m) => r matches Ok(p) && p@ == m,
        Err(f) => r matches Err(e) && fails_as(e, f),
    }
}

/// Reads a crashed process from the bytes of a minidump file: a file whose
/// header does not parse gives `MinidumpRead`; otherwise the process read
/// from its streams (see [`read_streams`] and [`read_process_from_minidump`]).
/// `None` exactly when a module's image would end beyond the address space,
/// where no process can be built.
pub fn read_process_from_bytes(file: &[u8], options: &ConvertOptions) -> (r: Option<
    Result<CrashedProcess, Md2CoreError>,
>)
    ensures
        match minidump_header(file@) {
            Err(e) => r == Some(Err::<CrashedProcess, Md2CoreError>(Md2CoreError::MinidumpRead(e))),
            Ok(()) => (r is None <==> !modules_fit(minidump_modules(file@))) && (r matches Some(
                res,
            ) ==> exists|s: MinidumpStreams| #[trigger]
                file_streams(s, file@) && read_result_is(res, s, file@, *options)),
        },
{
    match check_minidump(file) {
        Err(e) => {
            return Some(Err(Md2CoreError::MinidumpRead(e)));
        },
        Ok(()) => {},
    }
    let streams = read_streams(file);
    if !modules_in_range(&streams.modules) {
        return None;
    }
    let ghost s = streams;
    let res = read_process_from_minidump(streams, file, options);
    assert(file_streams(s, file@) && read_result_is(res, s, file@, *options));
    Some(res)
}

} // verus!

//! The ELF core image:
//!
//! ```text
//! Ehdr | Phdr (PT_NOTE) | Phdr * N (PT_LOAD) | PT_NOTE bytes | padding | PT_LOAD bytes ...
//! ```
//!
//! The notes are `NT_PRPSINFO`, `NT_SIGINFO` (the fatal signal), `NT_AUXV`,
//! `NT_FILE`, then for each thread
//! with a CPU context an `NT_PRSTATUS` (with `NT_FPREGSET` and `NT_PRXFPREG`
//! where the architecture has them), the crashing thread first.
use vstd::prelude::*;

use crate::elf::note_types::{
    NT_AUXV, NT_FILE, NT_FPREGSET, NT_PRPSINFO, NT_PRSTATUS, NT_PRXFPREG, NT_SIGINFO,
};
use crate::bytes::{from_le32, from_le64, push_all, push_zeros};
use crate::elf::{
    ehdr_size, elf32_overflow_error, elf_header_bytes, fits_elf32, lemma_elf_header_len,
    lemma_program_header_fields,
    lemma_program_header_len,
    phdr_entry_size, program_header_bytes, ElfHeader, ProgramHeader, CORE_NAME, LINUX_NAME,
    PT_LOAD, PT_NOTE,
};
use crate::error::Md2CoreError;
use crate::model::{
    padding_for, repeat_byte, Architecture, CrashedProcess, Mapping, MappingModel,
    ThreadSnapshot, DEFAULT_PAGE_SIZE,
};
use crate::ordered::ordered_refs;
use crate::notes::{
    build_nt_file_payload, build_prpsinfo, build_prstatus, build_siginfo, lemma_prstatus_len,
    mapping_models, named, note_bytes, nt_file_payload, prpsinfo_bytes, prstatus_bytes,
    siginfo_bytes, Note,
};
use crate::regs::{
    context_name, fpregset_bytes, lemma_fp_payload_sizes, lemma_pr_reg_size, pr_reg_bytes,
    prxfpreg_bytes, to_fpregset, to_pr_reg, to_prxfpreg, CpuContext,
};

verus! {

// --- notes ---------------------------------------------------------------------

/// The notes of one thread: nothing without a CPU context (the override
/// first, else the thread's own); otherwise `NT_PRSTATUS` with `pr_fpvalid`
/// set when an `NT_FPREGSET` follows, then `NT_FPREGSET` and `NT_PRXFPREG`
/// where the architecture has them. A context of another architecture fails
/// with `ContextMismatch`.
#[verifier::opaque]
pub open spec fn thread_notes(
    arch: Architecture,
    t: ThreadSnapshot,
    signal: i32,
    context_override: Option<CpuContext>,
) -> Result<Seq<u8>, Md2CoreError> {
    let context = match context_override {
        Some(c) => Some(c),
        None => t.context,
    };
    match context {
        None => Ok(Seq::empty()),
        Some(c) => match pr_reg_bytes(arch, c) {
            None => Err(Md2CoreError::ContextMismatch { expected: arch.name(), found: context_name(c) }),
            Some(reg) => {
                let fp = fpregset_bytes(arch, c);
                Ok(
                    note_bytes(
                        CORE_NAME@,
                        NT_PRSTATUS,
                        prstatus_bytes(arch, t.tid, signal, reg, fp is Some),
                    ) + match fp {
                        Some(f) => note_bytes(CORE_NAME@, NT_FPREGSET, f),
                        None => Seq::empty(),
                    } + match prxfpreg_bytes(arch, c) {
                        Some(x) => note_bytes(LINUX_NAME@, NT_PRXFPREG, x),
                        None => Seq::empty(),
                    },
                )
            },
        },
    }
}

/// Index of the first thread with id `tid`, if any.
pub open spec fn first_with_tid(ts: Seq<ThreadSnapshot>, tid: u32) -> Option<int>
    decreases ts.len(),
{
    if ts.len() == 0 {
        None
    } else {
        match first_with_tid(ts.drop_last(), tid) {
            Some(i) => Some(i),
            None => if ts.last().tid == tid {
                Some(ts.len() - 1)
            } else {
                None
            },
        }
    }
}

/// The threads whose id is not the crashing one, in order.
pub open spec fn other_threads(ts: Seq<ThreadSnapshot>, crashing: Option<u32>) -> Seq<ThreadSnapshot>
    decreases ts.len(),
{
    if ts.len() == 0 {
        Seq::empty()
    } else if crashing == Some(ts.last().tid) {
        other_threads(ts.drop_last(), crashing)
    } else {
        other_threads(ts.drop_last(), crashing).push(ts.last())
    }
}

/// The threads in note order: the first thread with the crashing id, then
/// every thread with another id.
pub open spec fn note_order(ts: Seq<ThreadSnapshot>, crashing: Option<u32>) -> Seq<ThreadSnapshot> {
    match crashing {
        Some(tid) => match first_with_tid(ts, tid) {
            Some(i) => seq![ts[i]] + other_threads(ts, crashing),
            None => other_threads(ts, crashing),
        },
        None => other_threads(ts, crashing),
    }
}

/// Without a thread of id `c`, every thread is another thread.
proof fn lemma_other_threads_all(ts: Seq<ThreadSnapshot>, c: u32)
    requires
        forall|j: int| 0 <= j < ts.len() ==> (#[trigger] ts[j]).tid != c,
    ensures
        other_threads(ts, Some(c)) == ts,
        first_with_tid(ts, c) is None,
    decreases ts.len(),
{
    if ts.len() > 0 {
        assert forall|j: int| 0 <= j < ts.drop_last().len() implies (
        #[trigger] ts.drop_last()[j]).tid != c by {
            assert(ts.drop_last()[j] == ts[j]);
        }
        lemma_other_threads_all(ts.drop_last(), c);
        assert(ts.last() == ts[ts.len() - 1]);
        assert(ts.drop_last().push(ts.last()) =~= ts);
    }
}

/// With exactly one thread of id `c`, at index `k`, it is the first with
/// that id and the others are the remaining threads in order.
proof fn lemma_one_crashing_thread(ts: Seq<ThreadSnapshot>, c: u32, k: int)
    requires
        0 <= k < ts.len(),
        ts[k].tid == c,
        forall|j: int| 0 <= j < ts.len() && j != k ==> (#[trigger] ts[j]).tid != c,
    ensures
        other_threads(ts, Some(c)) == ts.remove(k),
        first_with_tid(ts, c) == Some(k),
    decreases ts.len(),
{
    let d = ts.drop_last();
    assert(ts.last() == ts[ts.len() - 1]);
    if k == ts.len() - 1 {
        assert forall|j: int| 0 <= j < d.len() implies (#[trigger] d[j]).tid != c by {
            assert(d[j] == ts[j]);
        }
        lemma_other_threads_all(d, c);
        assert(ts.remove(k) =~= d);
    } else {
        assert forall|j: int| 0 <= j < d.len() && j != k implies (#[trigger] d[j]).tid != c by {
            assert(d[j] == ts[j]);
        }
        assert(d[k] == ts[k]);
        lemma_one_crashing_thread(d, c, k);
        assert(d.remove(k).push(ts.last()) =~= ts.remove(k));
    }
}

/// The note order when exactly one thread has the crashing id: that thread
/// first, then every other thread in its place in the list. (Its notes carry
/// the fatal signal and the exception's context, see [`threads_notes`].)
pub proof fn lemma_crashing_thread_first(ts: Seq<ThreadSnapshot>, c: u32, k: int)
    requires
        0 <= k < ts.len(),
        ts[k].tid == c,
        forall|j: int| 0 <= j < ts.len() && j != k ==> (#[trigger] ts[j]).tid != c,
    ensures
        note_order(ts, Some(c)) == seq![ts[k]] + ts.remove(k),
{
    lemma_one_crashing_thread(ts, c, k);
}

/// The notes of the first `n` threads of `ts`; the first carries the fatal
/// signal and the exception context, the others signal 0 and their own
/// context.
#[verifier::opaque]
pub open spec fn threads_notes(
    arch: Architecture,
    signal: i32,
    exception_context: Option<CpuContext>,
    ts: Seq<ThreadSnapshot>,
    n: int,
) -> Result<Seq<u8>, Md2CoreError>
    decreases n,
{
    if n <= 0 {
        Ok(Seq::empty())
    } else {
        match threads_notes(arch, signal, exception_context, ts, n - 1) {
            Err(e) => Err(e),
            Ok(b) => match thread_notes(
                arch,
                ts[n - 1],
                if n - 1 == 0 {
                    signal
                } else {
                    0
                },
                if n - 1 == 0 {
                    exception_context
                } else {
                    None
                },
            ) {
                Err(e) => Err(e),
                Ok(x) => Ok(b + x),
            },
        }
    }
}

/// One more thread's notes.
proof fn lemma_threads_notes_step(
    arch: Architecture,
    signal: i32,
    exception_context: Option<CpuContext>,
    ts: Seq<ThreadSnapshot>,
    n: int,
)
    requires
        n >= 0,
    ensures
        threads_notes(arch, signal, exception_context, ts, n + 1) == match threads_notes(
            arch,
            signal,
            exception_context,
            ts,
            n,
        ) {
            Err(e) => Err(e),
            Ok(b) => match thread_notes(
                arch,
                ts[n],
                if n == 0 {
                    signal
                } else {
                    0
                },
                if n == 0 {
                    exception_context
                } else {
                    None
                },
            ) {
                Err(e) => Err(e),
                Ok(x) => Ok(b + x),
            },
        },
        n == 0 ==> threads_notes(arch, signal, exception_context, ts, n) == Ok::<
            Seq<u8>,
            Md2CoreError,
        >(Seq::empty()),
{
    reveal(threads_notes);
}

/// The exception context stands in for the crashing thread's own context:
/// given one, the thread's own context plays no part (two threads with the
/// same id get the same notes), and its notes are those of the thread
/// holding that context as its own; its `NT_PRSTATUS` carries the
/// context's register block.
pub proof fn lemma_override_context(
    arch: Architecture,
    t: ThreadSnapshot,
    u: ThreadSnapshot,
    signal: i32,
    c: CpuContext,
)
    requires
        t.tid == u.tid,
    ensures
        thread_notes(arch, t, signal, Some(c)) == thread_notes(arch, u, signal, Some(c)),
        u.context == Some(c) ==> thread_notes(arch, t, signal, Some(c)) == thread_notes(
            arch,
            u,
            signal,
            None,
        ),
        pr_reg_bytes(arch, c) matches Some(reg) ==> thread_notes(arch, t, signal, Some(c)) matches Ok(
            b,
        ) && b.subrange(
            0,
            note_bytes(
                CORE_NAME@,
                NT_PRSTATUS,
                prstatus_bytes(arch, t.tid, signal, reg, fpregset_bytes(arch, c) is Some),
            ).len() as int,
        ) == note_bytes(
            CORE_NAME@,
            NT_PRSTATUS,
            prstatus_bytes(arch, t.tid, signal, reg, fpregset_bytes(arch, c) is Some),
        ),
{
    reveal(thread_notes);
    if let Some(reg) = pr_reg_bytes(arch, c) {
        let first = note_bytes(
            CORE_NAME@,
            NT_PRSTATUS,
            prstatus_bytes(arch, t.tid, signal, reg, fpregset_bytes(arch, c) is Some),
        );
        let b = thread_notes(arch, t, signal, Some(c))->Ok_0;
        let rest1 = match fpregset_bytes(arch, c) {
            Some(f) => note_bytes(CORE_NAME@, NT_FPREGSET, f),
            None => Seq::empty(),
        };
        let rest2 = match prxfpreg_bytes(arch, c) {
            Some(x) => note_bytes(LINUX_NAME@, NT_PRXFPREG, x),
            None => Seq::empty(),
        };
        assert(b == first + rest1 + rest2);
        assert(b.subrange(0, first.len() as int) =~= first);
    }
}

/// The first thread's notes open the threads' notes, with the fatal signal
/// and the exception context.
pub proof fn lemma_first_thread_notes(
    arch: Architecture,
    signal: i32,
    exception_context: Option<CpuContext>,
    ts: Seq<ThreadSnapshot>,
    n: int,
)
    requires
        n >= 1,
        threads_notes(arch, signal, exception_context, ts, n) is Ok,
    ensures
        thread_notes(arch, ts[0], signal, exception_context) matches Ok(first) && first.len()
            <= threads_notes(arch, signal, exception_context, ts, n)->Ok_0.len() && threads_notes(
            arch,
            signal,
            exception_context,
            ts,
            n,
        )->Ok_0.subrange(0, first.len() as int) == first,
    decreases n,
{
    lemma_threads_notes_step(arch, signal, exception_context, ts, n - 1);
    if n == 1 {
        lemma_threads_notes_step(arch, signal, exception_context, ts, 0);
        reveal(threads_notes);
        let first = thread_notes(arch, ts[0], signal, exception_context)->Ok_0;
        assert(threads_notes(arch, signal, exception_context, ts, 1)->Ok_0 =~= Seq::<u8>::empty()
            + first);
        assert(threads_notes(arch, signal, exception_context, ts, 1)->Ok_0.subrange(
            0,
            first.len() as int,
        ) =~= first);
    } else {
        lemma_first_thread_notes(arch, signal, exception_context, ts, n - 1);
        let first = thread_notes(arch, ts[0], signal, exception_context)->Ok_0;
        let prev = threads_notes(arch, signal, exception_context, ts, n - 1)->Ok_0;
        let all = threads_notes(arch, signal, exception_context, ts, n)->Ok_0;
        let x = thread_notes(arch, ts[n - 1], 0, None)->Ok_0;
        assert(all == prev + x);
        assert(all.subrange(0, first.len() as int) =~= prev.subrange(0, first.len() as int));
    }
}

/// Once a thread's notes failed, the notes of more threads fail the same way.
proof fn lemma_threads_notes_error_sticks(
    arch: Architecture,
    signal: i32,
    exception_context: Option<CpuContext>,
    ts: Seq<ThreadSnapshot>,
    j: int,
    n: int,
)
    requires
        0 <= j <= n,
        threads_notes(arch, signal, exception_context, ts, j) is Err,
    ensures
        threads_notes(arch, signal, exception_context, ts, n) == threads_notes(
            arch,
            signal,
            exception_context,
            ts,
            j,
        ),
    decreases n - j,
{
    if j < n {
        lemma_threads_notes_step(arch, signal, exception_context, ts, j);
        lemma_threads_notes_error_sticks(arch, signal, exception_context, ts, j + 1, n);
    }
}

/// The `PT_NOTE` segment of a process.
#[verifier::opaque]
pub open spec fn note_segment(p: CrashedProcess) -> Result<Seq<u8>, Md2CoreError> {
    let arch = p.architecture;
    match nt_file_payload(named(mapping_models(p.mappings@)), arch.spec_long_size()) {
        Err(e) => Err(e),
        Ok(nt_file) => {
            let head = note_bytes(CORE_NAME@, NT_PRPSINFO, prpsinfo_bytes(arch, p.process_info))
                + note_bytes(CORE_NAME@, NT_SIGINFO, siginfo_bytes(p.fatal_signal))
                + note_bytes(CORE_NAME@, NT_AUXV, p.auxv@) + note_bytes(CORE_NAME@, NT_FILE, nt_file);
            let ts = note_order(p.threads@, p.crashing_tid);
            match threads_notes(arch, p.fatal_signal, p.exception_context, ts, ts.len() as int) {
                Err(e) => Err(e),
                Ok(t) => Ok(head + t),
            }
        },
    }
}

/// Whether the descriptors of the process's notes fit the 32-bit size field.
pub open spec fn note_sizes_fit(p: CrashedProcess) -> bool {
    &&& p.auxv@.len() <= u32::MAX
    &&& nt_file_payload(named(mapping_models(p.mappings@)), p.architecture.spec_long_size()) matches Ok(
        b,
    ) ==> b.len() <= u32::MAX
}

/// Appends the notes of one thread to `out`.
fn write_thread_notes(
    arch: Architecture,
    thread: &ThreadSnapshot,
    fatal_signal: i32,
    context_override: Option<&CpuContext>,
    out: &mut Vec<u8>,
) -> (r: Result<(), Md2CoreError>)
    ensures
        match thread_notes(
            arch,
            *thread,
            fatal_signal,
            match context_override {
                Some(c) => Some(*c),
                None => None,
            },
        ) {
            Ok(b) => r is Ok && final(out)@ == old(out)@ + b,
            Err(e) => r == Err::<(), Md2CoreError>(e),
        },
{
    reveal(thread_notes);
    let context = match context_override {
        Some(c) => Some(c),
        None => match &thread.context {
            Some(c) => Some(c),
            None => None,
        },
    };
    let context = match context {
        Some(c) => c,
        None => {
            assert(old(out)@ + Seq::<u8>::empty() =~= old(out)@);
            return Ok(());
        },
    };
    let pr_reg = match to_pr_reg(arch, context) {
        Ok(v) => v,
        Err(e) => {
            return Err(e);
        },
    };
    let fp = to_fpregset(arch, context);
    proof {
        lemma_pr_reg_size(arch, *context);
        lemma_fp_payload_sizes(arch, *context);
        lemma_prstatus_len(arch, thread.tid, fatal_signal, pr_reg@, fp is Some);
    }
    let prstatus = build_prstatus(arch, thread.tid, fatal_signal, pr_reg.as_slice(), fp.is_some());
    let ghost start = out@;
    let status_note = match Note::build(CORE_NAME.as_slice(), NT_PRSTATUS, prstatus.as_slice()) {
        Ok(n) => n,
        Err(e) => {
            return Err(e);
        },
    };
    let _ = status_note.write(out);
    let ghost after_status = out@;
    match &fp {
        Some(f) => {
            let fp_note = match Note::build(CORE_NAME.as_slice(), NT_FPREGSET, f.as_slice()) {
                Ok(n) => n,
                Err(e) => {
                    return Err(e);
                },
            };
            let _ = fp_note.write(out);
        },
        None => {},
    }
    let ghost after_fp = out@;
    match to_prxfpreg(arch, context) {
        Some(x) => {
            let xfp_note = match Note::build(LINUX_NAME.as_slice(), NT_PRXFPREG, x.as_slice()) {
                Ok(n) => n,
                Err(e) => {
                    return Err(e);
                },
            };
            let _ = xfp_note.write(out);
        },
        None => {},
    }
    let ghost b = thread_notes(
        arch,
        *thread,
        fatal_signal,
        match context_override {
            Some(c) => Some(*c),
            None => None,
        },
    )->Ok_0;
    assert(out@ =~= start + b);
    Ok(())
}

/// The first thread with id `tid` is a thread of `ts` with that id.
proof fn lemma_first_with_tid_in_range(ts: Seq<ThreadSnapshot>, tid: u32)
    ensures
        first_with_tid(ts, tid) matches Some(i) ==> 0 <= i < ts.len() && ts[i].tid == tid,
    decreases ts.len(),
{
    if ts.len() > 0 {
        lemma_first_with_tid_in_range(ts.drop_last(), tid);
    }
}

/// Index of the first thread with id `tid`.
fn find_thread(threads: &Vec<ThreadSnapshot>, tid: u32) -> (r: Option<usize>)
    ensures
        r matches Some(i) ==> i < threads@.len() && first_with_tid(threads@, tid) == Some(i as int),
        r is None ==> first_with_tid(threads@, tid) is None,
{
    let mut i: usize = 0;
    while i < threads.len()
        invariant
            i <= threads@.len(),
            first_with_tid(threads@.take(i as int), tid) is None,
        decreases threads@.len() - i,
    {
        assert(threads@.take(i + 1).drop_last() =~= threads@.take(i as int));
        if threads[i].tid == tid {
            proof {
                lemma_first_with_tid_prefix(threads@, tid, i + 1);
            }
            return Some(i);
        }
        i = i + 1;
    }
    assert(threads@.take(i as int) =~= threads@);
    None
}

/// A thread found among the first `j` is the first overall.
proof fn lemma_first_with_tid_prefix(ts: Seq<ThreadSnapshot>, tid: u32, j: int)
    requires
        0 < j <= ts.len(),
        first_with_tid(ts.take(j), tid) is Some,
    ensures
        first_with_tid(ts, tid) == first_with_tid(ts.take(j), tid),
    decreases ts.len(),
{
    if j == ts.len() {
        assert(ts.take(j) =~= ts);
    } else {
        assert(ts.drop_last().take(j) =~= ts.take(j));
        lemma_first_with_tid_prefix(ts.drop_last(), tid, j);
    }
}

/// The threads in note order (see [`note_order`]).
fn order_threads(threads: &Vec<ThreadSnapshot>, crashing: Option<u32>) -> (r: Vec<&ThreadSnapshot>)
    ensures
        r@.len() == note_order(threads@, crashing).len(),
        forall|k: int| 0 <= k < r@.len() ==> *r@[k] == note_order(threads@, crashing)[k],
{
    let mut ordered: Vec<&ThreadSnapshot> = Vec::new();
    proof {
        lemma_first_with_tid_in_range(threads@, crashing->Some_0);
    }
    match crashing {
        Some(tid) => match find_thread(threads, tid) {
            Some(i) => {
                assert(first_with_tid(threads@, tid) == Some(i as int));
                ordered.push(&threads[i]);
                assert(ordered@.map_values(|t: &ThreadSnapshot| *t) =~= seq![threads@[i as int]]);
            },
            None => {
                assert(ordered@.map_values(|t: &ThreadSnapshot| *t) =~= Seq::<ThreadSnapshot>::empty());
            },
        },
        None => {
            assert(ordered@.map_values(|t: &ThreadSnapshot| *t) =~= Seq::<ThreadSnapshot>::empty());
        },
    }
    let ghost first = ordered@.map_values(|t: &ThreadSnapshot| *t);
    let ghost lead: Seq<ThreadSnapshot> = match crashing {
        Some(tid) => match first_with_tid(threads@, tid) {
            Some(j) => seq![threads@[j]],
            None => Seq::empty(),
        },
        None => Seq::empty(),
    };
    assert(first =~= lead);
    let mut i: usize = 0;
    while i < threads.len()
        invariant
            i <= threads@.len(),
            first.len() <= 1,
            first == lead,
            ordered@.len() == first.len() + other_threads(threads@.take(i as int), crashing).len(),
            forall|k: int| 0 <= k < first.len() ==> *ordered@[k] == first[k],
            forall|k: int|
                0 <= k < other_threads(threads@.take(i as int), crashing).len() ==> *ordered@[first.len()
                    + k] == other_threads(threads@.take(i as int), crashing)[k],
        decreases threads@.len() - i,
    {
        assert(threads@.take(i + 1).drop_last() =~= threads@.take(i as int));
        let keep = match crashing {
            Some(t) => threads[i].tid != t,
            None => true,
        };
        if keep {
            ordered.push(&threads[i]);
        }
        i = i + 1;
    }
    assert(threads@.take(i as int) =~= threads@);
    let ghost others = other_threads(threads@, crashing);
    assert(note_order(threads@, crashing) =~= lead + others);
    assert forall|k: int| 0 <= k < ordered@.len() implies *ordered@[k] == note_order(
        threads@,
        crashing,
    )[k] by {
        if k >= first.len() {
            assert(*ordered@[first.len() + (k - first.len())] == others[k - first.len()]);
        }
    }
    ordered
}

/// Builds the `PT_NOTE` segment (see [`note_segment`]).
fn build_note_segment(process: &CrashedProcess) -> (r: Result<Vec<u8>, Md2CoreError>)
    requires
        note_sizes_fit(*process),
    ensures
        match note_segment(*process) {
            Ok(b) => r matches Ok(v) && v@ == b,
            Err(e) => r == Err::<Vec<u8>, Md2CoreError>(e),
        },
{
    reveal(note_segment);
    let arch = process.architecture;
    let mut out: Vec<u8> = Vec::new();
    let prpsinfo = build_prpsinfo(arch, &process.process_info);
    assert(prpsinfo@.len() <= 200);
    let n1 = match Note::build(CORE_NAME.as_slice(), NT_PRPSINFO, prpsinfo.as_slice()) {
        Ok(n) => n,
        Err(e) => {
            return Err(e);
        },
    };
    let _ = n1.write(&mut out);
    let siginfo = build_siginfo(process.fatal_signal);
    let n_sig = match Note::build(CORE_NAME.as_slice(), NT_SIGINFO, siginfo.as_slice()) {
        Ok(n) => n,
        Err(e) => {
            return Err(e);
        },
    };
    let _ = n_sig.write(&mut out);
    let n2 = match Note::build(CORE_NAME.as_slice(), NT_AUXV, process.auxv.as_slice()) {
        Ok(n) => n,
        Err(e) => {
            return Err(e);
        },
    };
    let _ = n2.write(&mut out);
    let nt_file = match build_nt_file_payload(arch, &process.mappings) {
        Ok(v) => v,
        Err(e) => {
            return Err(e);
        },
    };
    let n3 = match Note::build(CORE_NAME.as_slice(), NT_FILE, nt_file.as_slice()) {
        Ok(n) => n,
        Err(e) => {
            return Err(e);
        },
    };
    let _ = n3.write(&mut out);
    let ghost head = out@;
    proof {
        lemma_threads_notes_step(
            arch,
            process.fatal_signal,
            process.exception_context,
            note_order(process.threads@, process.crashing_tid),
            0,
        );
    }
    assert(head + Seq::<u8>::empty() =~= head);
    let ordered = order_threads(&process.threads, process.crashing_tid);
    let ghost ts = note_order(process.threads@, process.crashing_tid);
    let mut index: usize = 0;
    while index < ordered.len()
        invariant
            index <= ordered@.len(),
            ordered@.len() == ts.len(),
            ts == note_order(process.threads@, process.crashing_tid),
            arch == process.architecture,
            nt_file_payload(named(mapping_models(process.mappings@)), arch.spec_long_size()) is Ok,
            forall|k: int| 0 <= k < ordered@.len() ==> *ordered@[k] == ts[k],
            threads_notes(arch, process.fatal_signal, process.exception_context, ts, index as int) is Ok,
            out@ == head + threads_notes(
                arch,
                process.fatal_signal,
                process.exception_context,
                ts,
                index as int,
            )->Ok_0,
        decreases ordered@.len() - index,
    {
        let signal = if index == 0 {
            process.fatal_signal
        } else {
            0
        };
        let context_override = if index == 0 {
            match &process.exception_context {
                Some(c) => Some(c),
                None => None,
            }
        } else {
            None
        };
        let ghost before = out@;
        proof {
            lemma_threads_notes_step(
                arch,
                process.fatal_signal,
                process.exception_context,
                ts,
                index as int,
            );
        }
        match write_thread_notes(arch, ordered[index], signal, context_override, &mut out) {
            Ok(()) => {},
            Err(e) => {
                reveal(note_segment);
                assert(match context_override {
                    Some(c) => Some(*c),
                    None => None,
                } == (if index == 0 {
                    process.exception_context
                } else {
                    None
                }));
                assert(threads_notes(
                    arch,
                    process.fatal_signal,
                    process.exception_context,
                    ts,
                    index + 1,
                ) == Err::<Seq<u8>, Md2CoreError>(e));
                proof {
                    lemma_threads_notes_error_sticks(
                        arch,
                        process.fatal_signal,
                        process.exception_context,
                        ts,
                        index + 1,
                        ts.len() as int,
                    );
                }
                return Err(e);
            },
        }
        index = index + 1;
        assert(out@ =~= head + threads_notes(
            arch,
            process.fatal_signal,
            process.exception_context,
            ts,
            index as int,
        )->Ok_0);
    }
    Ok(out)
}

// --- layout ------------------------------------------------------------------

/// Alignment of the `PT_LOAD` segments, in memory and in the file.
fn pt_load_alignment() -> (r: u64)
    ensures
        r == DEFAULT_PAGE_SIZE,
{
    DEFAULT_PAGE_SIZE
}

/// Bytes of data held by the first `i` mappings.
pub open spec fn data_before(ms: Seq<MappingModel>, i: int) -> nat
    decreases i,
{
    if i <= 0 {
        0
    } else {
        data_before(ms, i - 1) + ms[i - 1].data.len()
    }
}

/// The data of the mappings, one after another.
pub open spec fn all_data(ms: Seq<MappingModel>) -> Seq<u8>
    decreases ms.len(),
{
    if ms.len() == 0 {
        Seq::empty()
    } else {
        all_data(ms.drop_last()) + ms.last().data
    }
}

/// `p_flags` of a mapping: `PF_R` when no permission bit is known, else its bits.
pub open spec fn load_flags(m: MappingModel) -> u32 {
    if m.permissions.spec_is_unset() {
        4
    } else {
        m.permissions.spec_elf_flags()
    }
}

/// The `PT_NOTE` header.
pub open spec fn note_header(note_offset: int, note_len: int) -> ProgramHeader {
    ProgramHeader {
        p_type: PT_NOTE,
        p_flags: 0,
        p_offset: note_offset as u64,
        p_vaddr: 0,
        p_paddr: 0,
        p_filesz: note_len as u64,
        p_memsz: 0,
        p_align: 0,
    }
}

/// The `PT_LOAD` header of mapping `i`: its data, if any, follows that of
/// the mappings before it from `load_start` on.
pub open spec fn load_header(ms: Seq<MappingModel>, i: int, load_start: int) -> ProgramHeader {
    let m = ms[i];
    ProgramHeader {
        p_type: PT_LOAD,
        p_flags: load_flags(m),
        p_offset: if m.data.len() == 0 {
            0
        } else {
            (load_start + data_before(ms, i)) as u64
        },
        p_vaddr: m.start_address,
        p_paddr: 0,
        p_filesz: m.data.len() as u64,
        p_memsz: (m.end_address - m.start_address) as u64,
        p_align: DEFAULT_PAGE_SIZE,
    }
}

/// The program headers: `PT_NOTE`, then one `PT_LOAD` per mapping.
pub open spec fn core_headers(ms: Seq<MappingModel>, note_offset: int, note_len: int, load_start: int) -> Seq<
    ProgramHeader,
> {
    seq![note_header(note_offset, note_len)] + Seq::new(
        ms.len(),
        |i: int| load_header(ms, i, load_start),
    )
}

/// The images of program headers, one after another.
#[verifier::opaque]
pub open spec fn headers_bytes(hs: Seq<ProgramHeader>, class: u8) -> Seq<u8>
    decreases hs.len(),
{
    if hs.len() == 0 {
        Seq::empty()
    } else {
        headers_bytes(hs.drop_last(), class) + program_header_bytes(hs.last(), class)
    }
}

/// Index of the first header that does not fit the 32-bit layout, for ELF32.
#[verifier::opaque]
pub open spec fn unfit_header(hs: Seq<ProgramHeader>, class: u8) -> Option<int>
    decreases hs.len(),
{
    if hs.len() == 0 {
        None
    } else {
        match unfit_header(hs.drop_last(), class) {
            Some(k) => Some(k),
            None => if class != 2 && !fits_elf32(hs.last()) {
                Some(hs.len() - 1)
            } else {
                None
            },
        }
    }
}

/// Offset of the `PT_NOTE` data: right after the program headers.
pub open spec fn note_offset(p: CrashedProcess) -> int {
    let class = p.architecture.spec_elf_class();
    ehdr_size(class) + phdr_entry_size(class) * (mapping_models(p.mappings@).len() + 1)
}

/// Whether the notes' descriptors fit their 32-bit size fields and, where the
/// image is laid out (the notes build and there are fewer than 65535
/// mappings), the mappings end at or after their start and the whole image,
/// counted in bytes, fits in 64 bits.
pub open spec fn core_layout_fits(p: CrashedProcess) -> bool {
    let ms = mapping_models(p.mappings@);
    &&& note_sizes_fit(p)
    &&& match note_segment(p) {
        Ok(notes) => ms.len() + 1 <= u16::MAX ==> {
            &&& forall|i: int|
                0 <= i < ms.len() ==> (#[trigger] ms[i]).start_address <= ms[i].end_address
            &&& note_offset(p) + notes.len() + DEFAULT_PAGE_SIZE + data_before(
                ms,
                ms.len() as int,
            ) <= u64::MAX
        },
        Err(_) => true,
    }
}

/// The bytes written for a process and the result: the notes' error, or
/// `IntegerOverflow("phnum exceeds u16")` when there are 65535 mappings or
/// more, with nothing written; on ELF32, the headers before the first one
/// whose fields do not fit and that header's overflow error; otherwise the
/// whole image: ELF header, program headers, notes, zeros up to a page
/// boundary, then the mappings' data in address order.
#[verifier::opaque]
pub open spec fn core_output(p: CrashedProcess) -> (Seq<u8>, Result<(), Md2CoreError>) {
    match note_segment(p) {
        Err(e) => (Seq::empty(), Err(e)),
        Ok(notes) => {
            let ms = mapping_models(p.mappings@);
            if ms.len() + 1 > u16::MAX {
                (Seq::empty(), Err(Md2CoreError::IntegerOverflow("phnum exceeds u16")))
            } else {
                let class = p.architecture.spec_elf_class();
                let header = ElfHeader {
                    class,
                    machine: p.architecture.spec_elf_machine(),
                    phnum: (ms.len() + 1) as u16,
                };
                let note_end = note_offset(p) + notes.len();
                let pad = padding_for(note_end, DEFAULT_PAGE_SIZE as int);
                let hs = core_headers(ms, note_offset(p), notes.len() as int, note_end + pad);
                match unfit_header(hs, class) {
                    Some(k) => (
                        elf_header_bytes(header) + headers_bytes(hs.take(k), class),
                        Err(elf32_overflow_error(hs[k])),
                    ),
                    None => (
                        elf_header_bytes(header) + headers_bytes(hs, class) + notes + repeat_byte(
                            0,
                            pad as nat,
                        ) + all_data(ms),
                        Ok(()),
                    ),
                }
            }
        },
    }
}

/// Data before more mappings is no less.
proof fn lemma_data_before_monotone(ms: Seq<MappingModel>, i: int, j: int)
    requires
        0 <= i <= j,
    ensures
        data_before(ms, i) <= data_before(ms, j),
    decreases j - i,
{
    if i < j {
        lemma_data_before_monotone(ms, i, j - 1);
    }
}

/// One more header.
proof fn lemma_headers_step(hs: Seq<ProgramHeader>, class: u8, i: int)
    requires
        0 <= i < hs.len(),
    ensures
        headers_bytes(hs.take(i + 1), class) == headers_bytes(hs.take(i), class)
            + program_header_bytes(hs[i], class),
        unfit_header(hs.take(i + 1), class) == match unfit_header(hs.take(i), class) {
            Some(k) => Some(k),
            None => if class != 2 && !fits_elf32(hs[i]) {
                Some(i)
            } else {
                None
            },
        },
        i == 0 ==> headers_bytes(hs.take(i), class) == Seq::<u8>::empty(),
        i == 0 ==> unfit_header(hs.take(i), class) is None,
{
    reveal(headers_bytes);
    reveal(unfit_header);
    assert(hs.take(i + 1).drop_last() =~= hs.take(i));
}

/// An unfit header found among the first `j` is the first overall.
proof fn lemma_unfit_prefix(hs: Seq<ProgramHeader>, class: u8, j: int)
    requires
        0 < j <= hs.len(),
        unfit_header(hs.take(j - 1), class) is None,
        class != 2 && !fits_elf32(hs[j - 1]),
    ensures
        unfit_header(hs, class) == Some(j - 1),
    decreases hs.len(),
{
    reveal(unfit_header);
    assert(hs.take(j).drop_last() =~= hs.take(j - 1));
    if j == hs.len() {
        assert(hs.take(j) =~= hs);
    } else {
        assert(hs.drop_last().take(j - 1) =~= hs.take(j - 1));
        assert(hs.drop_last()[j - 1] == hs[j - 1]);
        lemma_unfit_prefix(hs.drop_last(), class, j);
    }
}

/// The `PT_LOAD` headers of the mappings, their data laid out from `load_start`.
fn load_headers(maps: &Vec<&Mapping>, load_start: u64) -> (r: Vec<ProgramHeader>)
    requires
        forall|k: int| 0 <= k < maps@.len() ==> (*maps@[k]).start_address <= (*maps@[k]).end_address,
        load_start + data_before(maps@.map_values(|m: &Mapping| (*m)@), maps@.len() as int)
            <= u64::MAX,
    ensures
        r@ == Seq::new(
            maps@.len(),
            |i: int| load_header(maps@.map_values(|m: &Mapping| (*m)@), i, load_start as int),
        ),
{
    let ghost ms = maps@.map_values(|m: &Mapping| (*m)@);
    proof {
        lemma_data_before_monotone(ms, 0, ms.len() as int);
    }
    let mut r: Vec<ProgramHeader> = Vec::new();
    let mut load_offset = load_start;
    let mut i: usize = 0;
    while i < maps.len()
        invariant
            i <= maps@.len(),
            ms == maps@.map_values(|m: &Mapping| (*m)@),
            forall|k: int| 0 <= k < maps@.len() ==> (*maps@[k]).start_address <= (*maps@[k]).end_address,
            load_start + data_before(ms, ms.len() as int) <= u64::MAX,
            load_offset == load_start + data_before(ms, i as int),
            r@.len() == i,
            forall|k: int| 0 <= k < i ==> r@[k] == load_header(ms, k, load_start as int),
        decreases maps@.len() - i,
    {
        let mapping = maps[i];
        assert(mapping@ == ms[i as int]);
        proof {
            lemma_data_before_monotone(ms, i + 1, ms.len() as int);
        }
        let memsz = mapping.end_address - mapping.start_address;
        let (p_offset, p_filesz) = if mapping.data.len() == 0 {
            (0u64, 0u64)
        } else {
            let filesz = mapping.data.len() as u64;
            let off = load_offset;
            load_offset = load_offset + filesz;
            (off, filesz)
        };
        let p_flags = if mapping.permissions.is_unset() {
            4
        } else {
            mapping.permissions.to_elf_flags()
        };
        let phdr = ProgramHeader {
            p_type: PT_LOAD,
            p_flags,
            p_offset,
            p_filesz,
            p_memsz: memsz,
            p_paddr: 0,
            p_vaddr: mapping.start_address,
            p_align: pt_load_alignment(),
        };
        assert(phdr == load_header(ms, i as int, load_start as int));
        r.push(phdr);
        i = i + 1;
    }
    assert(r@ =~= Seq::new(maps@.len(), |i: int| load_header(ms, i, load_start as int)));
    r
}

/// Appends the program headers in the layout of `class`, stopping at the
/// first that does not fit the 32-bit layout.
fn write_headers(out: &mut Vec<u8>, hs: &Vec<ProgramHeader>, class: u8) -> (r: Result<(), Md2CoreError>)
    ensures
        match unfit_header(hs@, class) {
            Some(k) => r == Err::<(), Md2CoreError>(elf32_overflow_error(hs@[k])) && final(out)@
                == old(out)@ + headers_bytes(hs@.take(k), class),
            None => r is Ok && final(out)@ == old(out)@ + headers_bytes(hs@, class),
        },
{
    let ghost start = out@;
    let mut i: usize = 0;
    if hs.len() > 0 {
        proof {
            lemma_headers_step(hs@, class, 0);
        }
    } else {
        proof {
            reveal(headers_bytes);
            reveal(unfit_header);
        }
        assert(hs@.take(0) =~= hs@);
    }
    assert(start + Seq::<u8>::empty() =~= start);
    while i < hs.len()
        invariant
            i <= hs@.len(),
            unfit_header(hs@.take(i as int), class) is None,
            start == old(out)@,
            out@ == start + headers_bytes(hs@.take(i as int), class),
        decreases hs@.len() - i,
    {
        proof {
            lemma_headers_step(hs@, class, i as int);
        }
        match hs[i].write(out, class) {
            Ok(()) => {},
            Err(e) => {
                proof {
                    lemma_unfit_prefix(hs@, class, i + 1);
                }
                return Err(e);
            },
        }
        i = i + 1;
        assert(out@ =~= start + headers_bytes(hs@.take(i as int), class));
    }
    assert(hs@.take(i as int) =~= hs@);
    Ok(())
}

/// Appends the data of the mappings, in order.
fn write_data(out: &mut Vec<u8>, maps: &Vec<&Mapping>) -> (r: ())
    ensures
        final(out)@ == old(out)@ + all_data(maps@.map_values(|m: &Mapping| (*m)@)),
{
    let ghost ms = maps@.map_values(|m: &Mapping| (*m)@);
    let ghost body = out@;
    let mut j: usize = 0;
    assert(body + all_data(ms.take(0)) =~= body);
    while j < maps.len()
        invariant
            j <= maps@.len(),
            ms == maps@.map_values(|m: &Mapping| (*m)@),
            out@ == body + all_data(ms.take(j as int)),
        decreases maps@.len() - j,
    {
        assert(ms.take(j + 1).drop_last() =~= ms.take(j as int));
        let mapping = maps[j];
        assert(mapping@ == ms[j as int]);
        if mapping.data.len() > 0 {
            push_all(out, mapping.data.as_slice());
        } else {
            assert(mapping.data@ =~= Seq::<u8>::empty());
        }
        j = j + 1;
        assert(out@ =~= body + all_data(ms.take(j as int)));
    }
    assert(ms.take(maps@.len() as int) =~= ms);
}

/// Writes the full ELF core image of `process` to `out` (see [`core_output`]).
#[verifier::rlimit(40)]
pub fn write_core(process: &CrashedProcess, out: &mut Vec<u8>) -> (r: Result<(), Md2CoreError>)
    requires
        core_layout_fits(*process),
    ensures
        final(out)@ == old(out)@ + core_output(*process).0,
        r == core_output(*process).1,
{
    reveal(core_output);
    let arch = process.architecture;
    let note_bytes = match build_note_segment(process) {
        Ok(v) => v,
        Err(e) => {
            assert(old(out)@ + Seq::<u8>::empty() =~= old(out)@);
            return Err(e);
        },
    };
    let maps = ordered_refs(&process.mappings);
    let ghost ms = mapping_models(process.mappings@);
    assert(maps@.map_values(|m: &Mapping| (*m)@) =~= ms);
    if maps.len() > 65534 {
        assert(old(out)@ + Seq::<u8>::empty() =~= old(out)@);
        return Err(Md2CoreError::IntegerOverflow("phnum exceeds u16"));
    }
    let phnum = maps.len() + 1;
    let header = ElfHeader { class: arch.elf_class(), machine: arch.elf_machine(), phnum: phnum as u16 };
    let ehdr_size = header.size() as u64;
    let phdr_size = header.phdr_size() as u64;
    assert(phdr_size * (phnum as u64) <= 56 * 65535) by (nonlinear_arith)
        requires
            phdr_size <= 56,
            phnum <= 65535,
    ;
    let phdr_table_size = phdr_size * phnum as u64;
    let pt_note_offset = ehdr_size + phdr_table_size;
    assert(pt_note_offset == note_offset(*process));
    let pt_note_filesz = note_bytes.len() as u64;
    let pt_note_end = pt_note_offset + pt_note_filesz;
    let load_align = pt_load_alignment();
    let rem = pt_note_end % load_align;
    let note_pad = if rem == 0 {
        0
    } else {
        load_align - rem
    };
    proof {
        crate::model::lemma_padding(pt_note_end as int, DEFAULT_PAGE_SIZE as int);
    }
    assert(note_pad == padding_for(pt_note_end as int, DEFAULT_PAGE_SIZE as int));
    let load_start = pt_note_end + note_pad;
    let mut hs: Vec<ProgramHeader> = Vec::new();
    hs.push(
        ProgramHeader {
            p_type: PT_NOTE,
            p_flags: 0,
            p_offset: pt_note_offset,
            p_filesz: pt_note_filesz,
            p_memsz: 0,
            p_paddr: 0,
            p_vaddr: 0,
            p_align: 0,
        },
    );
    assert forall|k: int| 0 <= k < maps@.len() implies (*maps@[k]).start_address <= (
    *maps@[k]).end_address by {
        assert((*maps@[k])@ == ms[k]);
    }
    let mut loads = load_headers(&maps, load_start);
    hs.append(&mut loads);
    assert(hs@ =~= core_headers(ms, pt_note_offset as int, note_bytes@.len() as int, load_start as int));
    let _ = header.write(out);
    match write_headers(out, &hs, header.class) {
        Ok(()) => {},
        Err(e) => {
            return Err(e);
        },
    }
    push_all(out, note_bytes.as_slice());
    push_zeros(out, note_pad as usize);
    write_data(out, &maps);
    assert(out@ =~= old(out)@ + core_output(*process).0);
    Ok(())
}

/// Program header images take one entry size each.
proof fn lemma_headers_len(hs: Seq<ProgramHeader>, class: u8)
    ensures
        headers_bytes(hs, class).len() == hs.len() * phdr_entry_size(class),
    decreases hs.len(),
{
    reveal(headers_bytes);
    if hs.len() > 0 {
        lemma_headers_len(hs.drop_last(), class);
        lemma_program_header_len(hs.last(), class);
        assert((hs.len() - 1) * phdr_entry_size(class) + phdr_entry_size(class) == hs.len()
            * phdr_entry_size(class)) by (nonlinear_arith);
    }
}

/// The data of the first `n` mappings does not depend on the later ones.
proof fn lemma_data_before_prefix(ms: Seq<MappingModel>, n: int)
    requires
        0 <= n <= ms.len(),
    ensures
        data_before(ms, n) == data_before(ms.take(n), n),
    decreases n,
{
    if n > 0 {
        lemma_data_before_prefix(ms, n - 1);
        lemma_data_before_prefix(ms.take(n), n - 1);
        assert(ms.take(n).take(n - 1) =~= ms.take(n - 1));
    }
}

/// The data of all mappings is as long as their data counts add up to.
proof fn lemma_all_data_len(ms: Seq<MappingModel>)
    ensures
        all_data(ms).len() == data_before(ms, ms.len() as int),
    decreases ms.len(),
{
    if ms.len() > 0 {
        lemma_all_data_len(ms.drop_last());
        lemma_data_before_prefix(ms, ms.len() - 1);
        lemma_data_before_prefix(ms.drop_last(), ms.len() - 1);
        assert(ms.take(ms.len() - 1) =~= ms.drop_last());
        assert(ms.drop_last().take(ms.len() - 1) =~= ms.drop_last());
    }
}

/// In a complete image the notes follow the program headers, the captured
/// bytes of the mappings start on a page boundary of the file after the
/// notes, and the image ends with them.
pub proof fn lemma_core_image_layout(p: CrashedProcess)
    requires
        core_output(p).1 is Ok,
    ensures
        note_segment(p) is Ok,
        ({
            let notes = note_segment(p)->Ok_0;
            let ms = mapping_models(p.mappings@);
            let note_end = note_offset(p) + notes.len();
            let load_start = note_end + padding_for(note_end, DEFAULT_PAGE_SIZE as int);
            let image = core_output(p).0;
            &&& load_start % (DEFAULT_PAGE_SIZE as int) == 0
            &&& image.len() == load_start + data_before(ms, ms.len() as int)
            &&& image.subrange(note_offset(p), note_end) == notes
        }),
{
    reveal(core_output);
    let notes = note_segment(p)->Ok_0;
    let ms = mapping_models(p.mappings@);
    let class = p.architecture.spec_elf_class();
    let header = ElfHeader {
        class,
        machine: p.architecture.spec_elf_machine(),
        phnum: (ms.len() + 1) as u16,
    };
    let note_end = note_offset(p) + notes.len();
    let pad = padding_for(note_end, DEFAULT_PAGE_SIZE as int);
    let hs = core_headers(ms, note_offset(p), notes.len() as int, note_end + pad);
    lemma_elf_header_len(header);
    lemma_headers_len(hs, class);
    lemma_all_data_len(ms);
    crate::model::lemma_padding(note_end, DEFAULT_PAGE_SIZE as int);
    let image = core_output(p).0;
    let head = elf_header_bytes(header) + headers_bytes(hs, class);
    assert(head.len() == note_offset(p));
    assert(image =~= head + notes + repeat_byte(0, pad as nat) + all_data(ms));
    assert(image.subrange(note_offset(p), note_end) =~= notes);
}

/// With 65535 mappings or more, once the notes build, the image fails with
/// `IntegerOverflow("phnum exceeds u16")` and nothing is written; every such
/// process meets [`core_layout_fits`] when its notes' descriptors fit.
pub proof fn lemma_too_many_mappings(p: CrashedProcess)
    requires
        note_segment(p) is Ok,
        mapping_models(p.mappings@).len() + 1 > u16::MAX,
    ensures
        core_output(p) == (Seq::<u8>::empty(), Err::<(), Md2CoreError>(
            Md2CoreError::IntegerOverflow("phnum exceeds u16"),
        )),
        note_sizes_fit(p) ==> core_layout_fits(p),
{
    reveal(core_output);
}

/// The `k`-th program header image sits `k` entries into the images.
proof fn lemma_headers_bytes_at(hs: Seq<ProgramHeader>, class: u8, k: int)
    requires
        0 <= k < hs.len(),
    ensures
        headers_bytes(hs, class).subrange(
            k * phdr_entry_size(class),
            (k + 1) * phdr_entry_size(class),
        ) == program_header_bytes(hs[k], class),
    decreases hs.len(),
{
    reveal(headers_bytes);
    let w = phdr_entry_size(class) as int;
    lemma_headers_len(hs.drop_last(), class);
    lemma_program_header_len(hs.last(), class);
    let front = headers_bytes(hs.drop_last(), class);
    assert(front.len() == (hs.len() - 1) * w);
    assert((k + 1) * w == k * w + w) by (nonlinear_arith);
    if k == hs.len() - 1 {
        assert(headers_bytes(hs, class).subrange(k * w, (k + 1) * w) =~= program_header_bytes(
            hs.last(),
            class,
        ));
    } else {
        lemma_headers_bytes_at(hs.drop_last(), class, k);
        assert(k + 1 <= hs.len() - 1);
        assert((k + 1) * w <= (hs.len() - 1) * w) by (nonlinear_arith)
            requires
                k + 1 <= hs.len() - 1,
                w >= 0,
        ;
        assert(k * w >= 0) by (nonlinear_arith)
            requires
                k >= 0,
                w >= 0,
        ;
        assert(headers_bytes(hs, class).subrange(k * w, (k + 1) * w) =~= front.subrange(
            k * w,
            (k + 1) * w,
        ));
    }
}

/// The bytes of a complete image: the ELF header with one program header
/// more than there are mappings; at `e_phoff` the `PT_NOTE` header, whose
/// offset is right after the headers and whose size is that of the notes,
/// followed by one `PT_LOAD` header per mapping in address order (see
/// [`load_header`]: the mapping's start, its size in memory, its flags, read
/// only when it has none, and its data's place from the first page boundary
/// after the notes); then the notes, zeros up to that page boundary, and the
/// mappings' data one after another.
pub proof fn lemma_core_image_bytes(p: CrashedProcess)
    requires
        core_output(p).1 is Ok,
    ensures
        note_segment(p) is Ok,
        mapping_models(p.mappings@).len() + 1 <= u16::MAX,
        ({
            let notes = note_segment(p)->Ok_0;
            let ms = mapping_models(p.mappings@);
            let class = p.architecture.spec_elf_class();
            let header = ElfHeader {
                class,
                machine: p.architecture.spec_elf_machine(),
                phnum: (ms.len() + 1) as u16,
            };
            let e = ehdr_size(class) as int;
            let w = phdr_entry_size(class) as int;
            let note_end = note_offset(p) + notes.len();
            let load_start = note_end + padding_for(note_end, DEFAULT_PAGE_SIZE as int);
            let image = core_output(p).0;
            &&& note_offset(p) == e + w * (ms.len() + 1)
            &&& image.subrange(0, e) == elf_header_bytes(header)
            &&& image.subrange(e, e + w) == program_header_bytes(
                note_header(note_offset(p), notes.len() as int),
                class,
            )
            &&& forall|i: int|
                0 <= i < ms.len() ==> image.subrange(e + w * (i + 1), e + w * (i + 2))
                    == program_header_bytes(#[trigger] load_header(ms, i, load_start), class)
            &&& image.subrange(note_offset(p), note_end) == notes
            &&& image.subrange(note_end, load_start) == repeat_byte(
                0,
                padding_for(note_end, DEFAULT_PAGE_SIZE as int) as nat,
            )
            &&& image.subrange(load_start, image.len() as int) == all_data(ms)
            &&& image.len() == load_start + all_data(ms).len()
        }),
{
    reveal(core_output);
    let notes = note_segment(p)->Ok_0;
    let ms = mapping_models(p.mappings@);
    let class = p.architecture.spec_elf_class();
    let header = ElfHeader {
        class,
        machine: p.architecture.spec_elf_machine(),
        phnum: (ms.len() + 1) as u16,
    };
    let e = ehdr_size(class) as int;
    let w = phdr_entry_size(class) as int;
    let note_end = note_offset(p) + notes.len();
    let pad = padding_for(note_end, DEFAULT_PAGE_SIZE as int);
    let load_start = note_end + pad;
    let hs = core_headers(ms, note_offset(p), notes.len() as int, load_start);
    lemma_elf_header_len(header);
    lemma_headers_len(hs, class);
    lemma_all_data_len(ms);
    crate::model::lemma_padding(note_end, DEFAULT_PAGE_SIZE as int);
    let image = core_output(p).0;
    let hb = headers_bytes(hs, class);
    let head = elf_header_bytes(header) + hb;
    assert(w * (ms.len() + 1) == (ms.len() + 1) * w) by (nonlinear_arith);
    assert(head.len() == note_offset(p));
    assert(image =~= head + notes + repeat_byte(0, pad as nat) + all_data(ms));
    assert(image.subrange(0, e) =~= elf_header_bytes(header));
    lemma_headers_bytes_at(hs, class, 0);
    assert(hs[0] == note_header(note_offset(p), notes.len() as int));
    assert(image.subrange(e, e + w) =~= hb.subrange(0, w));
    assert forall|i: int| 0 <= i < ms.len() implies image.subrange(e + w * (i + 1), e + w * (i + 2))
        == program_header_bytes(#[trigger] load_header(ms, i, load_start), class) by {
        lemma_headers_bytes_at(hs, class, i + 1);
        assert(hs[i + 1] == load_header(ms, i, load_start));
        assert(w * (i + 1) == (i + 1) * w && w * (i + 2) == (i + 1 + 1) * w) by (nonlinear_arith);
        assert(w * (i + 2) <= w * (ms.len() + 1)) by (nonlinear_arith)
            requires
                i + 2 <= ms.len() + 1,
                w >= 0,
        ;
        assert(w * (i + 1) >= 0) by (nonlinear_arith)
            requires
                i >= 0,
                w >= 0,
        ;
        assert(image.subrange(e + w * (i + 1), e + w * (i + 2)) =~= hb.subrange(
            (i + 1) * w,
            (i + 1 + 1) * w,
        ));
    }
    assert(image.subrange(note_offset(p), note_end) =~= notes);
    assert(image.subrange(note_end, load_start) =~= repeat_byte(0, pad as nat));
    assert(image.subrange(load_start, image.len() as int) =~= all_data(ms));
}

/// Without an unfit header every ELF32 header fits.
proof fn lemma_fit_headers(hs: Seq<ProgramHeader>, class: u8, k: int)
    requires
        unfit_header(hs, class) is None,
        class != 2,
        0 <= k < hs.len(),
    ensures
        fits_elf32(hs[k]),
    decreases hs.len(),
{
    reveal(unfit_header);
    if k < hs.len() - 1 {
        lemma_fit_headers(hs.drop_last(), class, k);
        assert(hs.drop_last()[k] == hs[k]);
    }
}

/// The `PT_LOAD` header of mapping `i` of a complete ELF64 image, read back.
#[verifier::spinoff_prover]
proof fn lemma_core_load_header64(p: CrashedProcess, i: int)
    requires
        core_output(p).1 is Ok,
        p.architecture.spec_elf_class() == 2,
        0 <= i < mapping_models(p.mappings@).len(),
    ensures
        ({
            let image = core_output(p).0;
            let notes = note_segment(p)->Ok_0;
            let ms = mapping_models(p.mappings@);
            let class = p.architecture.spec_elf_class();
            let e = ehdr_size(class) as int;
            let w = phdr_entry_size(class) as int;
            let note_end = note_offset(p) + notes.len();
            let load_start = note_end + padding_for(note_end, DEFAULT_PAGE_SIZE as int);
            let h = e + w * (i + 1);
            let lh = load_header(ms, i, load_start);
            &&& from_le32(image, h) == lh.p_type
            &&& from_le32(image, h + 4) == lh.p_flags
            &&& from_le64(image, h + 8) == lh.p_offset
            &&& from_le64(image, h + 16) == lh.p_vaddr
            &&& from_le64(image, h + 24) == lh.p_paddr
            &&& from_le64(image, h + 32) == lh.p_filesz
            &&& from_le64(image, h + 40) == lh.p_memsz
            &&& from_le64(image, h + 48) == lh.p_align
        }),
{
    let image = core_output(p).0;
    let notes = note_segment(p)->Ok_0;
    let ms = mapping_models(p.mappings@);
    let class = p.architecture.spec_elf_class();
    let e = ehdr_size(class) as int;
    let w = phdr_entry_size(class) as int;
    let note_end = note_offset(p) + notes.len();
    let load_start = note_end + padding_for(note_end, DEFAULT_PAGE_SIZE as int);
    let h = e + w * (i + 1);
    let lh = load_header(ms, i, load_start);
    lemma_core_image_bytes(p);
    assert(image.subrange(h, e + w * (i + 2)) == program_header_bytes(lh, class));
    assert(w * (i + 2) == w * (i + 1) + w) by (nonlinear_arith);
    assert(w * (i + 2) <= w * (ms.len() + 1)) by (nonlinear_arith)
        requires
            i + 2 <= ms.len() + 1,
            w >= 0,
    ;
    assert(w * (i + 1) >= 0) by (nonlinear_arith)
        requires
            i >= 0,
            w >= 0,
    ;
    crate::model::lemma_padding(note_end, DEFAULT_PAGE_SIZE as int);
    assert(image.len() >= h + w);
    lemma_program_header_fields(lh);
    crate::bytes::lemma_from_le32_sub(image, h, w, 0);
    crate::bytes::lemma_from_le32_sub(image, h, w, 4);
    crate::bytes::lemma_from_le64_sub(image, h, w, 8);
    crate::bytes::lemma_from_le64_sub(image, h, w, 16);
    crate::bytes::lemma_from_le64_sub(image, h, w, 24);
    crate::bytes::lemma_from_le64_sub(image, h, w, 32);
    crate::bytes::lemma_from_le64_sub(image, h, w, 40);
    crate::bytes::lemma_from_le64_sub(image, h, w, 48);
}

/// The `PT_LOAD` header of mapping `i` of a complete ELF32 image, read back.
#[verifier::spinoff_prover]
proof fn lemma_core_load_header32(p: CrashedProcess, i: int)
    requires
        core_output(p).1 is Ok,
        p.architecture.spec_elf_class() != 2,
        0 <= i < mapping_models(p.mappings@).len(),
    ensures
        ({
            let image = core_output(p).0;
            let notes = note_segment(p)->Ok_0;
            let ms = mapping_models(p.mappings@);
            let class = p.architecture.spec_elf_class();
            let e = ehdr_size(class) as int;
            let w = phdr_entry_size(class) as int;
            let note_end = note_offset(p) + notes.len();
            let load_start = note_end + padding_for(note_end, DEFAULT_PAGE_SIZE as int);
            let h = e + w * (i + 1);
            let lh = load_header(ms, i, load_start);
            &&& from_le32(image, h) == lh.p_type
            &&& from_le32(image, h + 4) == lh.p_offset
            &&& from_le32(image, h + 8) == lh.p_vaddr
            &&& from_le32(image, h + 12) == lh.p_paddr
            &&& from_le32(image, h + 16) == lh.p_filesz
            &&& from_le32(image, h + 20) == lh.p_memsz
            &&& from_le32(image, h + 24) == lh.p_flags
            &&& from_le32(image, h + 28) == lh.p_align
        }),
{
    let image = core_output(p).0;
    let notes = note_segment(p)->Ok_0;
    let ms = mapping_models(p.mappings@);
    let class = p.architecture.spec_elf_class();
    let e = ehdr_size(class) as int;
    let w = phdr_entry_size(class) as int;
    let note_end = note_offset(p) + notes.len();
    let load_start = note_end + padding_for(note_end, DEFAULT_PAGE_SIZE as int);
    let h = e + w * (i + 1);
    let lh = load_header(ms, i, load_start);
    lemma_core_image_bytes(p);
    assert(image.subrange(h, e + w * (i + 2)) == program_header_bytes(lh, class));
    assert(w * (i + 2) == w * (i + 1) + w) by (nonlinear_arith);
    assert(w * (i + 2) <= w * (ms.len() + 1)) by (nonlinear_arith)
        requires
            i + 2 <= ms.len() + 1,
            w >= 0,
    ;
    assert(w * (i + 1) >= 0) by (nonlinear_arith)
        requires
            i >= 0,
            w >= 0,
    ;
    crate::model::lemma_padding(note_end, DEFAULT_PAGE_SIZE as int);
    assert(image.len() >= h + w);
    lemma_program_header_fields(lh);
    assert(fits_elf32(lh)) by {
        reveal(core_output);
        let hs = core_headers(ms, note_offset(p), notes.len() as int, load_start);
        lemma_fit_headers(hs, class, i + 1);
        assert(hs[i + 1] == lh);
    }
    crate::bytes::lemma_from_le32_sub(image, h, w, 0);
    crate::bytes::lemma_from_le32_sub(image, h, w, 4);
    crate::bytes::lemma_from_le32_sub(image, h, w, 8);
    crate::bytes::lemma_from_le32_sub(image, h, w, 12);
    crate::bytes::lemma_from_le32_sub(image, h, w, 16);
    crate::bytes::lemma_from_le32_sub(image, h, w, 20);
    crate::bytes::lemma_from_le32_sub(image, h, w, 24);
    crate::bytes::lemma_from_le32_sub(image, h, w, 28);
}

/// The `PT_NOTE` header of a complete image, right after the ELF header:
/// its type, the notes' file offset (right after the program headers) and
/// their size.
#[verifier::spinoff_prover]
pub proof fn lemma_core_note_header(p: CrashedProcess)
    requires
        core_output(p).1 is Ok,
    ensures
        ({
            let image = core_output(p).0;
            let notes = note_segment(p)->Ok_0;
            let class = p.architecture.spec_elf_class();
            let e = ehdr_size(class) as int;
            &&& class == 2 ==> {
                &&& from_le32(image, e) == PT_NOTE
                &&& from_le64(image, e + 8) == note_offset(p) as u64
                &&& from_le64(image, e + 32) == notes.len() as u64
            }
            &&& class != 2 ==> {
                &&& from_le32(image, e) == PT_NOTE
                &&& from_le32(image, e + 4) == note_offset(p) as u64
                &&& from_le32(image, e + 16) == notes.len() as u64
            }
        }),
{
    let image = core_output(p).0;
    let notes = note_segment(p)->Ok_0;
    let ms = mapping_models(p.mappings@);
    let class = p.architecture.spec_elf_class();
    let e = ehdr_size(class) as int;
    let w = phdr_entry_size(class) as int;
    let note_end = note_offset(p) + notes.len();
    let load_start = note_end + padding_for(note_end, DEFAULT_PAGE_SIZE as int);
    let nh = note_header(note_offset(p), notes.len() as int);
    lemma_core_image_bytes(p);
    crate::model::lemma_padding(note_end, DEFAULT_PAGE_SIZE as int);
    assert(w <= w * (ms.len() + 1)) by (nonlinear_arith)
        requires
            w >= 0,
            ms.len() >= 0,
    ;
    assert(image.len() >= e + w);
    lemma_program_header_fields(nh);
    if class == 2 {
        crate::bytes::lemma_from_le32_sub(image, e, w, 0);
        crate::bytes::lemma_from_le64_sub(image, e, w, 8);
        crate::bytes::lemma_from_le64_sub(image, e, w, 32);
    } else {
        assert(fits_elf32(nh)) by {
            reveal(core_output);
            let hs = core_headers(ms, note_offset(p), notes.len() as int, load_start);
            lemma_fit_headers(hs, class, 0);
            assert(hs[0] == nh);
        }
        crate::bytes::lemma_from_le32_sub(image, e, w, 0);
        crate::bytes::lemma_from_le32_sub(image, e, w, 4);
        crate::bytes::lemma_from_le32_sub(image, e, w, 16);
    }
}

/// The program headers of a complete image read back field by field: at
/// `e_ehsize + (i + 1) * e_phentsize` the `PT_LOAD` header of the `i`-th
/// mapping in address order, with its flags (read only when it has no
/// permission bits), the file offset of its data (0 without data, else the
/// first page boundary after the notes plus the data of the mappings
/// before it), its start address, no physical address, its data size, its
/// size in memory and the page alignment.
pub proof fn lemma_core_program_headers(p: CrashedProcess)
    requires
        core_output(p).1 is Ok,
    ensures
        forall|i: int|
            #![trigger mapping_models(p.mappings@)[i]]
            0 <= i < mapping_models(p.mappings@).len() ==> {
                let image = core_output(p).0;
                let notes = note_segment(p)->Ok_0;
                let ms = mapping_models(p.mappings@);
                let m = ms[i];
                let class = p.architecture.spec_elf_class();
                let e = ehdr_size(class) as int;
                let w = phdr_entry_size(class) as int;
                let note_end = note_offset(p) + notes.len();
                let load_start = note_end + padding_for(note_end, DEFAULT_PAGE_SIZE as int);
                let h = e + w * (i + 1);
                let flags: u32 = if m.permissions.spec_is_unset() {
                    4
                } else {
                    m.permissions.spec_elf_flags()
                };
                let off: u64 = if m.data.len() == 0 {
                    0
                } else {
                    (load_start + data_before(ms, i)) as u64
                };
                &&& class == 2 ==> {
                    &&& from_le32(image, h) == PT_LOAD
                    &&& from_le32(image, h + 4) == flags
                    &&& from_le64(image, h + 8) == off
                    &&& from_le64(image, h + 16) == m.start_address
                    &&& from_le64(image, h + 24) == 0
                    &&& from_le64(image, h + 32) == m.data.len() as u64
                    &&& from_le64(image, h + 40) == (m.end_address - m.start_address) as u64
                    &&& from_le64(image, h + 48) == DEFAULT_PAGE_SIZE
                }
                &&& class != 2 ==> {
                    &&& from_le32(image, h) == PT_LOAD
                    &&& from_le32(image, h + 4) == off
                    &&& from_le32(image, h + 8) == m.start_address
                    &&& from_le32(image, h + 12) == 0
                    &&& from_le32(image, h + 16) == m.data.len() as u64
                    &&& from_le32(image, h + 20) == (m.end_address - m.start_address) as u64
                    &&& from_le32(image, h + 24) == flags
                    &&& from_le32(image, h + 28) == DEFAULT_PAGE_SIZE
                }
            },
{
    assert forall|i: int|
        #![trigger mapping_models(p.mappings@)[i]]
        0 <= i < mapping_models(p.mappings@).len() implies {
        let image = core_output(p).0;
        let notes = note_segment(p)->Ok_0;
        let ms = mapping_models(p.mappings@);
        let m = ms[i];
        let class = p.architecture.spec_elf_class();
        let e = ehdr_size(class) as int;
        let w = phdr_entry_size(class) as int;
        let note_end = note_offset(p) + notes.len();
        let load_start = note_end + padding_for(note_end, DEFAULT_PAGE_SIZE as int);
        let h = e + w * (i + 1);
        let flags: u32 = if m.permissions.spec_is_unset() {
            4
        } else {
            m.permissions.spec_elf_flags()
        };
        let off: u64 = if m.data.len() == 0 {
            0
        } else {
            (load_start + data_before(ms, i)) as u64
        };
        &&& class == 2 ==> {
            &&& from_le32(image, h) == PT_LOAD
            &&& from_le32(image, h + 4) == flags
            &&& from_le64(image, h + 8) == off
            &&& from_le64(image, h + 16) == m.start_address
            &&& from_le64(image, h + 24) == 0
            &&& from_le64(image, h + 32) == m.data.len() as u64
            &&& from_le64(image, h + 40) == (m.end_address - m.start_address) as u64
            &&& from_le64(image, h + 48) == DEFAULT_PAGE_SIZE
        }
        &&& class != 2 ==> {
            &&& from_le32(image, h) == PT_LOAD
            &&& from_le32(image, h + 4) == off
            &&& from_le32(image, h + 8) == m.start_address
            &&& from_le32(image, h + 12) == 0
            &&& from_le32(image, h + 16) == m.data.len() as u64
            &&& from_le32(image, h + 20) == (m.end_address - m.start_address) as u64
            &&& from_le32(image, h + 24) == flags
            &&& from_le32(image, h + 28) == DEFAULT_PAGE_SIZE
        }
    } by {
        if p.architecture.spec_elf_class() == 2 {
            lemma_core_load_header64(p, i);
        } else {
            lemma_core_load_header32(p, i);
        }
    }
}

/// Writes the core image like [`write_core`], where it can be laid out:
/// `None`, with nothing written, exactly on the processes that do not meet
/// [`core_layout_fits`] (a note descriptor beyond its 32-bit size field, a
/// mapping that ends before it starts, or an image beyond 64-bit sizes).
pub fn write_core_checked(process: &CrashedProcess, out: &mut Vec<u8>) -> (r: Option<
    Result<(), Md2CoreError>,
>)
    ensures
        r is None <==> !core_layout_fits(*process),
        r is None ==> final(out)@ == old(out)@,
        r matches Some(res) ==> final(out)@ == old(out)@ + core_output(*process).0 && res
            == core_output(*process).1,
{
    let arch = process.architecture;
    if process.auxv.len() > 0xffff_ffff {
        return None;
    }
    match build_nt_file_payload(arch, &process.mappings) {
        Ok(v) => {
            if v.len() > 0xffff_ffff {
                return None;
            }
        },
        Err(_) => {},
    }
    let note_bytes = match build_note_segment(process) {
        Ok(v) => v,
        Err(_) => {
            return Some(write_core(process, out));
        },
    };
    let maps = ordered_refs(&process.mappings);
    let ghost ms = mapping_models(process.mappings@);
    assert(maps@.map_values(|m: &Mapping| (*m)@) =~= ms);
    if maps.len() > 65534 {
        return Some(write_core(process, out));
    }
    let header = ElfHeader { class: arch.elf_class(), machine: arch.elf_machine(), phnum: 1 };
    let ehdr = header.size() as u128;
    let phdr = header.phdr_size() as u128;
    let count = maps.len() as u128 + 1;
    let head: u128 = ehdr + phdr * count;
    assert(head == note_offset(*process)) by (nonlinear_arith)
        requires
            head == ehdr + phdr * count,
            ehdr == ehdr_size(process.architecture.spec_elf_class()),
            phdr == phdr_entry_size(process.architecture.spec_elf_class()),
            count == mapping_models(process.mappings@).len() + 1,
            note_offset(*process) == ehdr_size(process.architecture.spec_elf_class())
                + phdr_entry_size(process.architecture.spec_elf_class()) * (mapping_models(
                process.mappings@,
            ).len() + 1),
    ;
    let mut data: u128 = 0;
    let mut i: usize = 0;
    while i < maps.len()
        invariant
            i <= maps@.len(),
            ms == mapping_models(process.mappings@),
            maps@.len() == ms.len(),
            forall|k: int| 0 <= k < maps@.len() ==> (*maps@[k])@ == #[trigger] ms[k],
            forall|k: int| 0 <= k < i ==> (#[trigger] ms[k]).start_address <= ms[k].end_address,
            data == data_before(ms, i as int),
            data <= u64::MAX,
            out@ == old(out)@,
            note_segment(*process) == Ok::<Seq<u8>, Md2CoreError>(note_bytes@),
            ms.len() + 1 <= u16::MAX,
        decreases maps@.len() - i,
    {
        assert((*maps@[i as int])@ == ms[i as int]);
        if maps[i].start_address > maps[i].end_address {
            return None;
        }
        data = data + maps[i].data.len() as u128;
        if data > u64::MAX as u128 {
            proof {
                lemma_data_before_monotone(ms, i + 1, ms.len() as int);
            }
            return None;
        }
        i = i + 1;
    }
    if head + note_bytes.len() as u128 + 4096 + data > u64::MAX as u128 {
        return None;
    }
    Some(write_core(process, out))
}

} // verus!

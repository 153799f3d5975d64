use md2core::core_writer::{write_core, write_core_checked};
use md2core::model::{Architecture, CrashedProcess, Mapping, MappingPermissions, ThreadSnapshot};
use md2core::regs::{Amd64Context, ArmContext, CpuContext};
use md2core::Md2CoreError;

fn u32_at(b: &[u8], off: usize) -> u32 {
    u32::from_le_bytes(b[off..off + 4].try_into().unwrap())
}

fn u64_at(b: &[u8], off: usize) -> u64 {
    u64::from_le_bytes(b[off..off + 8].try_into().unwrap())
}

fn arm_thread(tid: u32, r0: u32) -> ThreadSnapshot {
    let mut iregs = [0u32; 16];
    iregs[0] = r0;
    ThreadSnapshot {
        tid,
        stack_address: 0,
        stack: Vec::new(),
        context: Some(CpuContext::Arm(ArmContext { iregs, cpsr: 0 })),
    }
}

#[test]
fn empty_x86_64_core_layout() {
    let p = CrashedProcess::new(Architecture::X86_64);
    let mut out = Vec::new();
    write_core(&p, &mut out).unwrap();
    assert_eq!(&out[0..4], b"\x7fELF");
    // One PT_NOTE header only.
    assert_eq!(u16::from_le_bytes([out[56], out[57]]), 1);
    let note_off = u64_at(&out, 64 + 8);
    let note_len = u64_at(&out, 64 + 32);
    assert_eq!(note_off, 64 + 56);
    assert_eq!(u32_at(&out, 64), 4);
    // prpsinfo (20 + 136), siginfo (20 + 128), auxv (20 + 0), NT_FILE with two
    // zero words (20 + 16).
    assert_eq!(note_len, 156 + 148 + 20 + 36);
    // Padding up to the page boundary ends the image.
    assert_eq!(out.len(), 4096);
    // First note is NT_PRPSINFO named CORE.
    let n = note_off as usize;
    assert_eq!(u32_at(&out, n), 5);
    assert_eq!(u32_at(&out, n + 4), 136);
    assert_eq!(u32_at(&out, n + 8), 3);
    assert_eq!(&out[n + 12..n + 17], b"CORE\0");
}

#[test]
fn load_segments_follow_notes_page_aligned() {
    let mut p = CrashedProcess::new(Architecture::X86_64);
    let mut a = Mapping::new(0x40_0000, 0x40_2000, MappingPermissions::new(true, false, true))
        .unwrap()
        .with_file("/bin/app".to_owned(), 0);
    a.data = vec![0x11; 0x1000];
    let b = Mapping::new(0x50_0000, 0x50_1000, MappingPermissions::new(false, false, false)).unwrap();
    let mut c = Mapping::new(0x60_0000, 0x60_1000, MappingPermissions::read_write()).unwrap();
    c.data = vec![0x22; 0x1000];
    p.insert_mapping(c);
    p.insert_mapping(b);
    p.insert_mapping(a);
    let mut out = Vec::new();
    write_core(&p, &mut out).unwrap();
    assert_eq!(u16::from_le_bytes([out[56], out[57]]), 4);
    let ph = |i: usize| 64 + 56 * i;
    // Mappings in address order.
    assert_eq!(u64_at(&out, ph(1) + 16), 0x40_0000);
    assert_eq!(u64_at(&out, ph(2) + 16), 0x50_0000);
    assert_eq!(u64_at(&out, ph(3) + 16), 0x60_0000);
    // Flags: r-x = 5; no permission info falls back to PF_R; rw- = 6.
    assert_eq!(u32_at(&out, ph(1) + 4), 5);
    assert_eq!(u32_at(&out, ph(2) + 4), 4);
    assert_eq!(u32_at(&out, ph(3) + 4), 6);
    // The first data segment starts on a page boundary; empty mappings take no file space.
    let off1 = u64_at(&out, ph(1) + 8);
    assert_eq!(off1 % 4096, 0);
    assert_eq!(u64_at(&out, ph(2) + 8), 0);
    assert_eq!(u64_at(&out, ph(2) + 32), 0);
    assert_eq!(u64_at(&out, ph(2) + 40), 0x1000);
    assert_eq!(u64_at(&out, ph(3) + 8), off1 + 0x1000);
    assert_eq!(u64_at(&out, ph(1) + 40), 0x2000);
    assert_eq!(out.len() as u64, off1 + 0x2000);
    assert_eq!(out[off1 as usize], 0x11);
    assert_eq!(out[off1 as usize + 0x1000], 0x22);
    // NT_FILE names the file-backed mapping.
    let text = String::from_utf8_lossy(&out);
    assert!(text.contains("/bin/app"));
}

#[test]
fn crashing_thread_notes_come_first() {
    let mut p = CrashedProcess::new(Architecture::Arm);
    p.add_thread(arm_thread(10, 0xaaaa));
    p.add_thread(arm_thread(20, 0xbbbb));
    p.crashing_tid = Some(20);
    p.fatal_signal = 6;
    let mut out = Vec::new();
    write_core(&p, &mut out).unwrap();
    let note_off = u32_at(&out, 52 + 4) as usize;
    let note_len = u32_at(&out, 52 + 16) as usize;
    let notes = &out[note_off..note_off + note_len];
    // Walk the notes and collect the NT_PRSTATUS pids and signals.
    let mut i = 0;
    let mut statuses = Vec::new();
    while i < notes.len() {
        let namesz = u32_at(notes, i) as usize;
        let descsz = u32_at(notes, i + 4) as usize;
        let ty = u32_at(notes, i + 8);
        let desc = i + 12 + ((namesz + 3) & !3);
        if ty == 1 {
            statuses.push((u32_at(notes, desc + 24), u32_at(notes, desc)));
        }
        i = desc + ((descsz + 3) & !3);
    }
    assert_eq!(statuses, vec![(20, 6), (10, 0)]);
}

#[test]
fn context_mismatch_fails_the_write() {
    let mut p = CrashedProcess::new(Architecture::X86);
    p.add_thread(arm_thread(1, 0));
    let mut out = vec![5];
    assert_eq!(
        write_core(&p, &mut out),
        Err(Md2CoreError::ContextMismatch {
            expected: "x86",
            found: "arm"
        })
    );
    assert_eq!(out, vec![5]);
}

#[test]
fn elf32_wide_address_fails_after_header() {
    let mut p = CrashedProcess::new(Architecture::Mips);
    let m = Mapping::new(0x1_0000_0000, 0x1_0000_1000, MappingPermissions::read_only()).unwrap();
    p.insert_mapping(m);
    let mut out = Vec::new();
    assert_eq!(
        write_core(&p, &mut out),
        Err(Md2CoreError::IntegerOverflow("ELF32 p_vaddr"))
    );
    // ELF header and the PT_NOTE header were written.
    assert_eq!(out.len(), 52 + 32);
}

/// The (type, descriptor) pairs of the `PT_NOTE` segment of a 64-bit core.
fn notes_of_64(out: &[u8]) -> Vec<(u32, Vec<u8>)> {
    let note_off = u64_at(out, 64 + 8) as usize;
    let note_len = u64_at(out, 64 + 32) as usize;
    let notes = &out[note_off..note_off + note_len];
    let mut i = 0;
    let mut found = Vec::new();
    while i < notes.len() {
        let namesz = u32_at(notes, i) as usize;
        let descsz = u32_at(notes, i + 4) as usize;
        let ty = u32_at(notes, i + 8);
        let desc = i + 12 + ((namesz + 3) & !3);
        found.push((ty, notes[desc..desc + descsz].to_vec()));
        i = desc + ((descsz + 3) & !3);
    }
    found
}

#[test]
fn siginfo_note_carries_fatal_signal() {
    let mut p = CrashedProcess::new(Architecture::X86_64);
    p.fatal_signal = 11;
    p.crashing_tid = Some(1);
    let context = Amd64Context {
        cs: 0, ds: 0, es: 0, fs: 0, gs: 0, ss: 0, eflags: 0,
        rax: 0, rcx: 0, rdx: 0, rbx: 0, rsp: 0, rbp: 0, rsi: 0, rdi: 0,
        r8: 0, r9: 0, r10: 0, r11: 0, r12: 0, r13: 0, r14: 0, r15: 0, rip: 0,
        float_save: [0u8; 512],
    };
    p.add_thread(ThreadSnapshot {
        tid: 1,
        stack_address: 0,
        stack: Vec::new(),
        context: Some(CpuContext::Amd64(context)),
    });
    let mut out = Vec::new();
    assert_eq!(write_core(&p, &mut out), Ok(()));
    let notes = notes_of_64(&out);
    let types: Vec<u32> = notes.iter().map(|(t, _)| *t).collect();
    assert_eq!(types, vec![3, 0x53494749, 6, 0x46494c45, 1, 2]);
    let siginfo = &notes[1].1;
    assert_eq!(siginfo.len(), 128);
    assert_eq!(u32_at(siginfo, 0), 11);
    assert!(siginfo[4..].iter().all(|b| *b == 0));
}

#[test]
fn too_many_mappings_write_nothing() {
    let mut p = CrashedProcess::new(Architecture::X86_64);
    for i in 0..65535u64 {
        let mut m = Mapping::new(i * 0x1000, i * 0x1000 + 0x1000, MappingPermissions::read_only())
            .unwrap();
        if i == 7 {
            // An inverted range is never looked at: the header count fails first.
            m.end_address = 0;
        }
        p.insert_mapping(m);
    }
    let mut out = vec![1u8, 2, 3];
    assert_eq!(
        write_core(&p, &mut out),
        Err(Md2CoreError::IntegerOverflow("phnum exceeds u16"))
    );
    assert_eq!(out, vec![1u8, 2, 3]);
}

#[test]
fn checked_write_refuses_inverted_mapping() {
    let mut p = CrashedProcess::new(Architecture::X86_64);
    let mut m = Mapping::new(0x1000, 0x2000, MappingPermissions::read_only()).unwrap();
    m.end_address = 0x800;
    p.insert_mapping(m);
    let mut out = vec![9u8];
    assert_eq!(write_core_checked(&p, &mut out), None);
    assert_eq!(out, vec![9u8]);
}

#[test]
fn checked_write_matches_write_core() {
    let mut p = CrashedProcess::new(Architecture::Arm);
    p.add_thread(arm_thread(5, 1));
    p.crashing_tid = Some(5);
    let mut a = Vec::new();
    let mut b = Vec::new();
    assert_eq!(write_core_checked(&p, &mut a), Some(Ok(())));
    assert_eq!(write_core(&p, &mut b), Ok(()));
    assert_eq!(a, b);
}

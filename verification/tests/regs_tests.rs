use md2core::model::Architecture;
use md2core::regs::{
    to_fpregset, to_pr_reg, to_prxfpreg, Amd64Context, Arm64Context, ArmContext, CpuContext,
    MipsContext, X86Context, X86FloatSave,
};
use md2core::Md2CoreError;

fn x86_context() -> X86Context {
    X86Context {
        gs: 0,
        fs: 0,
        es: 0,
        ds: 0,
        edi: 0,
        esi: 0,
        ebx: 0,
        edx: 0,
        ecx: 0,
        eax: 0,
        ebp: 0,
        eip: 0,
        cs: 0,
        eflags: 0,
        esp: 0,
        ss: 0,
        float_save: X86FloatSave {
            control_word: 0,
            status_word: 0,
            tag_word: 0,
            error_offset: 0,
            error_selector: 0,
            data_offset: 0,
            data_selector: 0,
            register_area: [0; 80],
        },
        extended_registers: [0; 512],
    }
}

fn amd64_context() -> Amd64Context {
    Amd64Context {
        cs: 0,
        ds: 0,
        es: 0,
        fs: 0,
        gs: 0,
        ss: 0,
        eflags: 0,
        rax: 0,
        rcx: 0,
        rdx: 0,
        rbx: 0,
        rsp: 0,
        rbp: 0,
        rsi: 0,
        rdi: 0,
        r8: 0,
        r9: 0,
        r10: 0,
        r11: 0,
        r12: 0,
        r13: 0,
        r14: 0,
        r15: 0,
        rip: 0,
        float_save: [0; 512],
    }
}

fn mips_context() -> MipsContext {
    MipsContext {
        iregs: [0; 32],
        mdhi: 0,
        mdlo: 0,
        epc: 0,
        badvaddr: 0,
        status: 0,
        cause: 0,
    }
}

#[test]
fn x86_gpregs_eip_at_expected_offset() {
    let ctx = X86Context {
        eip: 0xDEAD_BEEF,
        ..x86_context()
    };

    let bytes = to_pr_reg(Architecture::X86, &CpuContext::X86(ctx)).unwrap();
    assert_eq!(bytes.len(), 68, "x86 pr_reg must be 68 bytes");

    let eip = u32::from_le_bytes(bytes[48..52].try_into().unwrap());
    assert_eq!(eip, 0xDEAD_BEEF, "eip should be at byte offset 48");
}

#[test]
fn amd64_gpregs_r15_at_offset_0() {
    let ctx = Amd64Context {
        r15: 1,
        ..amd64_context()
    };

    let bytes = to_pr_reg(Architecture::X86_64, &CpuContext::Amd64(ctx)).unwrap();
    assert_eq!(bytes.len(), 216, "amd64 pr_reg must be 216 bytes");

    let r15 = u64::from_le_bytes(bytes[0..8].try_into().unwrap());
    assert_eq!(r15, 1, "r15 should be at byte offset 0");
}

#[test]
fn x86_gpregs_orig_eax_equals_eax() {
    let ctx = X86Context {
        eax: 0x1234_5678,
        ..x86_context()
    };

    let bytes = to_pr_reg(Architecture::X86, &CpuContext::X86(ctx)).unwrap();

    let eax = u32::from_le_bytes(bytes[24..28].try_into().unwrap());
    let orig_eax = u32::from_le_bytes(bytes[44..48].try_into().unwrap());
    assert_eq!(eax, 0x1234_5678);
    assert_eq!(orig_eax, 0x1234_5678, "orig_eax should equal eax");
}

#[test]
fn mips_o32_gpregs_preserve_low_32_bits() {
    let mut iregs = [0; 32];
    iregs[0] = 0xFFFF_FFFF_1234_5678;
    let ctx = MipsContext {
        iregs,
        ..mips_context()
    };

    let bytes = to_pr_reg(Architecture::Mips, &CpuContext::Mips(ctx)).unwrap();

    let first_register = u32::from_le_bytes(bytes[24..28].try_into().unwrap());
    assert_eq!(first_register, 0x1234_5678);
}

#[test]
fn mips64_gpregs_slots() {
    let mut iregs = [0; 32];
    iregs[31] = 0x1111_2222_3333_4444;
    let ctx = MipsContext {
        iregs,
        mdlo: 7,
        cause: 9,
        ..mips_context()
    };
    let bytes = to_pr_reg(Architecture::Mips64, &CpuContext::Mips(ctx)).unwrap();
    assert_eq!(bytes.len(), 360);
    assert_eq!(&bytes[37 * 8..38 * 8], &0x1111_2222_3333_4444u64.to_le_bytes());
    assert_eq!(&bytes[38 * 8..39 * 8], &7u64.to_le_bytes());
    assert_eq!(&bytes[43 * 8..44 * 8], &9u64.to_le_bytes());
    assert_eq!(&bytes[44 * 8..45 * 8], &0u64.to_le_bytes());
}

#[test]
fn arm_and_arm64_gpregs() {
    let mut iregs = [0u32; 16];
    iregs[15] = 0x8000;
    let arm = ArmContext { iregs, cpsr: 0x10 };
    let b = to_pr_reg(Architecture::Arm, &CpuContext::Arm(arm)).unwrap();
    assert_eq!(b.len(), 72);
    assert_eq!(&b[60..64], &0x8000u32.to_le_bytes());
    assert_eq!(&b[64..68], &0x10u32.to_le_bytes());
    assert_eq!(&b[68..72], &0u32.to_le_bytes());

    let a64 = Arm64Context { iregs: [3; 31], sp: 4, pc: 5, cpsr: 6 };
    for ctx in [CpuContext::Arm64(a64), CpuContext::OldArm64(a64)] {
        let b = to_pr_reg(Architecture::Aarch64, &ctx).unwrap();
        assert_eq!(b.len(), 272);
        assert_eq!(&b[248..256], &4u64.to_le_bytes());
        assert_eq!(&b[256..264], &5u64.to_le_bytes());
        assert_eq!(&b[264..272], &6u64.to_le_bytes());
    }
}

#[test]
fn context_of_other_architecture_is_rejected() {
    let r = to_pr_reg(Architecture::X86_64, &CpuContext::X86(x86_context()));
    assert_eq!(
        r,
        Err(Md2CoreError::ContextMismatch {
            expected: "x86_64",
            found: "x86"
        })
    );
    let r = to_pr_reg(Architecture::Arm, &CpuContext::Ppc);
    assert_eq!(
        r,
        Err(Md2CoreError::ContextMismatch {
            expected: "arm",
            found: "ppc"
        })
    );
}

#[test]
fn fp_payloads() {
    let mut x86 = x86_context();
    x86.float_save.control_word = 0x0001_037f;
    x86.float_save.register_area[0] = 0xee;
    x86.extended_registers[6] = 0x34;
    x86.extended_registers[7] = 0x12;
    x86.extended_registers[32] = 0x77;
    let fp = to_fpregset(Architecture::X86, &CpuContext::X86(x86)).unwrap();
    assert_eq!(fp.len(), 108);
    assert_eq!(&fp[0..4], &0x0001_037fu32.to_le_bytes());
    assert_eq!(fp[28], 0xee);
    let fx = to_prxfpreg(Architecture::X86, &CpuContext::X86(x86)).unwrap();
    assert_eq!(fx.len(), 512);
    // cwd does not fit in 16 bits and becomes 0; fop comes from the FXSAVE image.
    assert_eq!(&fx[0..2], &0u16.to_le_bytes());
    assert_eq!(&fx[6..8], &0x1234u16.to_le_bytes());
    assert_eq!(fx[32], 0x77);

    let mut amd = amd64_context();
    amd.float_save[0] = 0x7f;
    amd.float_save[1] = 0x03;
    amd.float_save[4] = 0xaa;
    amd.float_save[5] = 0x01;
    amd.float_save[8] = 0x44;
    amd.float_save[160] = 0x99;
    let fp = to_fpregset(Architecture::X86_64, &CpuContext::Amd64(amd)).unwrap();
    assert_eq!(fp.len(), 512);
    assert_eq!(&fp[0..2], &0x037fu16.to_le_bytes());
    assert_eq!(&fp[4..6], &0x01aau16.to_le_bytes());
    assert_eq!(&fp[8..16], &0x44u64.to_le_bytes());
    assert_eq!(fp[160], 0x99);
    assert!(to_prxfpreg(Architecture::X86_64, &CpuContext::Amd64(amd)).is_none());
    assert!(to_fpregset(Architecture::Arm, &CpuContext::Arm(ArmContext { iregs: [0; 16], cpsr: 0 })).is_none());
}

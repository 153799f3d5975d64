//! ELF note descriptor types md2core emits.
use vstd::prelude::*;

verus! {

/// Process status (general-purpose registers, signal info, pids, times).
pub const NT_PRSTATUS: u32 = 1;

/// FPU registers.
pub const NT_FPREGSET: u32 = 2;

/// Process info (executable name, command line, uids).
pub const NT_PRPSINFO: u32 = 3;

/// Signal information (`siginfo_t`) of the fatal signal.
pub const NT_SIGINFO: u32 = 0x53494749;

/// Auxiliary vector.
pub const NT_AUXV: u32 = 6;

/// File-backed memory mappings.
pub const NT_FILE: u32 = 0x46494c45;

/// x86 extended FP registers.
pub const NT_PRXFPREG: u32 = 0x46e62b7f;

} // verus!

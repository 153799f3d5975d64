//! Core data types of the conversion: target architecture, memory mappings,
//! process information and the collected crash state.
use std::collections::BTreeMap;

use vstd::prelude::*;
use vstd::string::StringSliceAdditionalSpecFns;

use crate::error::Md2CoreError;
use crate::regs::CpuContext;

verus! {

/// Default page size used by the mapping augmentation.
pub const DEFAULT_PAGE_SIZE: u64 = 4096;

/// Supported target architecture for the generated ELF core.
#[derive(Debug, Clone, Copy, PartialEq, Eq, Structural)]
pub enum Architecture {
    /// 32-bit x86.
    X86,
    /// 64-bit x86.
    X86_64,
    /// 32-bit ARM.
    Arm,
    /// 64-bit ARM.
    Aarch64,
    /// 32-bit MIPS o32.
    Mips,
    /// 64-bit MIPS n64.
    Mips64,
}

impl Architecture {
    /// ELF class: 1 for the 32-bit targets, 2 for the 64-bit ones.
    pub open spec fn spec_elf_class(self) -> u8 {
        match self {
            Architecture::X86 | Architecture::Arm | Architecture::Mips => 1,
            _ => 2,
        }
    }

    /// ELF `e_machine` of the target.
    pub open spec fn spec_elf_machine(self) -> u16 {
        match self {
            Architecture::X86 => 3,
            Architecture::X86_64 => 62,
            Architecture::Arm => 40,
            Architecture::Aarch64 => 183,
            Architecture::Mips | Architecture::Mips64 => 8,
        }
    }

    pub open spec fn spec_is_64bit(self) -> bool {
        self.spec_elf_class() == 2
    }

    /// Size of `unsigned long` on the target.
    pub open spec fn spec_long_size(self) -> usize {
        if self.spec_is_64bit() {
            8
        } else {
            4
        }
    }

    pub open spec fn spec_prpsinfo_uid_is_u32(self) -> bool {
        match self {
            Architecture::X86_64 | Architecture::Mips | Architecture::Mips64 => true,
            _ => false,
        }
    }

    /// Short name of the target.
    pub open spec fn name(self) -> &'static str {
        match self {
            Architecture::X86 => "x86",
            Architecture::X86_64 => "x86_64",
            Architecture::Arm => "arm",
            Architecture::Aarch64 => "aarch64",
            Architecture::Mips => "mips",
            Architecture::Mips64 => "mips64",
        }
    }

    /// Returns the ELF class (`ELFCLASS32` = 1 / `ELFCLASS64` = 2).
    #[verifier::when_used_as_spec(spec_elf_class)]
    pub fn elf_class(self) -> (r: u8)
        ensures
            r == self.spec_elf_class(),
    {
        match self {
            Architecture::X86 | Architecture::Arm | Architecture::Mips => 1,
            Architecture::X86_64 | Architecture::Aarch64 | Architecture::Mips64 => 2,
        }
    }

    /// Returns the ELF `e_machine` constant.
    #[verifier::when_used_as_spec(spec_elf_machine)]
    pub fn elf_machine(self) -> (r: u16)
        ensures
            r == self.spec_elf_machine(),
    {
        match self {
            Architecture::X86 => 3,
            Architecture::X86_64 => 62,
            Architecture::Arm => 40,
            Architecture::Aarch64 => 183,
            Architecture::Mips | Architecture::Mips64 => 8,
        }
    }

    /// Returns true when the target is a 64-bit ELF class.
    #[verifier::when_used_as_spec(spec_is_64bit)]
    pub fn is_64bit(self) -> (r: bool)
        ensures
            r == self.spec_is_64bit(),
    {
        self.elf_class() == 2
    }

    /// Word size of `unsigned long` for prstatus/prpsinfo layouts.
    #[verifier::when_used_as_spec(spec_long_size)]
    pub fn long_size(self) -> (r: usize)
        ensures
            r == self.spec_long_size(),
    {
        if self.is_64bit() {
            8
        } else {
            4
        }
    }

    /// Whether `pr_uid`/`pr_gid` are 32-bit on this arch.
    #[verifier::when_used_as_spec(spec_prpsinfo_uid_is_u32)]
    pub fn prpsinfo_uid_is_u32(self) -> (r: bool)
        ensures
            r == self.spec_prpsinfo_uid_is_u32(),
    {
        match self {
            Architecture::X86_64 | Architecture::Mips | Architecture::Mips64 => true,
            _ => false,
        }
    }

    /// Short human-readable name for diagnostics.
    pub fn as_str(self) -> (r: &'static str)
        ensures
            r == self.name(),
    {
        match self {
            Architecture::X86 => "x86",
            Architecture::X86_64 => "x86_64",
            Architecture::Arm => "arm",
            Architecture::Aarch64 => "aarch64",
            Architecture::Mips => "mips",
            Architecture::Mips64 => "mips64",
        }
    }
}

/// ELF load-segment permissions decoded from `/proc/<pid>/maps`.
#[derive(Debug, Clone, Copy, Default, PartialEq, Eq, Structural)]
pub struct MappingPermissions {
    read: bool,
    write: bool,
    execute: bool,
}

impl MappingPermissions {
    pub closed spec fn spec_read(self) -> bool {
        self.read
    }

    pub closed spec fn spec_write(self) -> bool {
        self.write
    }

    pub closed spec fn spec_execute(self) -> bool {
        self.execute
    }

    /// ELF `p_flags` bits: `PF_X` = 1, `PF_W` = 2, `PF_R` = 4.
    pub open spec fn spec_elf_flags(self) -> u32 {
        ((if self.spec_execute() { 1u32 } else { 0u32 }) + (if self.spec_write() {
            2u32
        } else {
            0u32
        }) + (if self.spec_read() { 4u32 } else { 0u32 })) as u32
    }

    /// True when no permission bit is set.
    pub open spec fn spec_is_unset(self) -> bool {
        !self.spec_read() && !self.spec_write() && !self.spec_execute()
    }

    /// Two permission sets are equal exactly when their three bits are.
    pub proof fn lemma_eq_by_bits(a: Self, b: Self)
        requires
            a.spec_read() == b.spec_read(),
            a.spec_write() == b.spec_write(),
            a.spec_execute() == b.spec_execute(),
        ensures
            a == b,
    {
    }

    /// The permission set with the given bits.
    pub closed spec fn spec_new(read: bool, write: bool, execute: bool) -> Self {
        Self { read, write, execute }
    }

    /// The bits of `spec_new` are its arguments.
    pub proof fn lemma_spec_new(read: bool, write: bool, execute: bool)
        ensures
            Self::spec_new(read, write, execute).spec_read() == read,
            Self::spec_new(read, write, execute).spec_write() == write,
            Self::spec_new(read, write, execute).spec_execute() == execute,
    {
    }

    /// Creates a permission set from explicit bits.
    pub fn new(read: bool, write: bool, execute: bool) -> (r: Self)
        ensures
            r == Self::spec_new(read, write, execute),
            r.spec_read() == read,
            r.spec_write() == write,
            r.spec_execute() == execute,
    {
        Self { read, write, execute }
    }

    /// Creates readable and writable permissions for synthetic data mappings.
    pub fn read_write() -> (r: Self)
        ensures
            r == Self::spec_new(true, true, false),
            r.spec_read() && r.spec_write() && !r.spec_execute(),
    {
        Self::new(true, true, false)
    }

    /// Read-only permissions used for module mappings.
    pub fn read_only() -> (r: Self)
        ensures
            r == Self::spec_new(true, false, false),
            r.spec_read() && !r.spec_write() && !r.spec_execute(),
    {
        Self::new(true, false, false)
    }

    /// Returns true when the mapping is readable.
    pub fn is_readable(self) -> (r: bool)
        ensures
            r == self.spec_read(),
    {
        self.read
    }

    /// Returns true when the mapping is writable.
    pub fn is_writable(self) -> (r: bool)
        ensures
            r == self.spec_write(),
    {
        self.write
    }

    /// Returns true when the mapping is executable.
    pub fn is_executable(self) -> (r: bool)
        ensures
            r == self.spec_execute(),
    {
        self.execute
    }

    /// Returns true when no permission bit is set.
    pub fn is_unset(self) -> (r: bool)
        ensures
            r == self.spec_is_unset(),
    {
        !self.read && !self.write && !self.execute
    }

    /// Converts this set to ELF `p_flags` bits.
    pub fn to_elf_flags(self) -> (r: u32)
        ensures
            r == self.spec_elf_flags(),
    {
        let mut flags: u32 = 0;
        if self.execute {
            flags = flags + 1;
        }
        if self.write {
            flags = flags + 2;
        }
        if self.read {
            flags = flags + 4;
        }
        flags
    }
}

/// Mathematical model of a [`Mapping`].
pub struct MappingModel {
    pub start_address: u64,
    pub end_address: u64,
    pub offset: u64,
    pub permissions: MappingPermissions,
    pub filename: Option<Seq<char>>,
    pub data: Seq<u8>,
}

/// Model of an optional file name.
pub open spec fn opt_string_view(s: Option<String>) -> Option<Seq<char>> {
    match s {
        Some(s) => Some(s@),
        None => None,
    }
}

/// One virtual memory mapping that will become an ELF `PT_LOAD` program header.
#[derive(Debug, Clone, PartialEq, Eq)]
pub struct Mapping {
    /// Inclusive start virtual address.
    pub start_address: u64,
    /// Exclusive end virtual address.
    pub end_address: u64,
    /// File offset reported by Linux maps.
    pub offset: u64,
    /// ELF permissions for this mapping.
    pub permissions: MappingPermissions,
    /// Optional file backing path.
    pub filename: Option<String>,
    /// Optional bytes included in the core file for this mapping.
    pub data: Vec<u8>,
}

impl View for Mapping {
    type V = MappingModel;

    open spec fn view(&self) -> MappingModel {
        MappingModel {
            start_address: self.start_address,
            end_address: self.end_address,
            offset: self.offset,
            permissions: self.permissions,
            filename: opt_string_view(self.filename),
            data: self.data@,
        }
    }
}

impl Mapping {
    /// True when `addr` lies inside the mapping.
    pub open spec fn spec_contains(self, addr: u64) -> bool {
        self.start_address <= addr && addr < self.end_address
    }

    /// Creates an anonymous mapping with no associated core-file bytes.
    ///
    /// Fails with `InvalidAddressRange` when `start_address >= end_address`.
    pub fn new(start_address: u64, end_address: u64, permissions: MappingPermissions) -> (r: Result<
        Self,
        Md2CoreError,
    >)
        ensures
            match r {
                Ok(m) => {
                    &&& start_address < end_address
                    &&& m.start_address == start_address
                    &&& m.end_address == end_address
                    &&& m.offset == 0
                    &&& m.permissions == permissions
                    &&& m.filename is None
                    &&& m.data@.len() == 0
                },
                Err(e) => start_address >= end_address && e == (Md2CoreError::InvalidAddressRange {
                    start: start_address,
                    end: end_address,
                }),
            },
    {
        if start_address >= end_address {
            return Err(Md2CoreError::InvalidAddressRange { start: start_address, end: end_address });
        }
        Ok(Self {
            start_address,
            end_address,
            offset: 0,
            permissions,
            filename: None,
            data: Vec::new(),
        })
    }

    /// Returns true when `addr` lies inside this mapping.
    pub fn contains(&self, addr: u64) -> (r: bool)
        ensures
            r == self.spec_contains(addr),
    {
        self.start_address <= addr && addr < self.end_address
    }

    /// Attaches a file backing path and file offset.
    pub fn with_file(self, filename: String, offset: u64) -> (r: Self)
        ensures
            r.start_address == self.start_address,
            r.end_address == self.end_address,
            r.permissions == self.permissions,
            r.data == self.data,
            r.filename == Some(filename),
            r.offset == offset,
    {
        let mut m = self;
        m.filename = Some(filename);
        m.offset = offset;
        m
    }

    /// A copy of this mapping with the same model.
    pub fn duplicate(&self) -> (r: Self)
        ensures
            r@ == self@,
    {
        let filename = match &self.filename {
            Some(s) => Some(s.clone()),
            None => None,
        };
        Mapping {
            start_address: self.start_address,
            end_address: self.end_address,
            offset: self.offset,
            permissions: self.permissions,
            filename,
            data: self.data.clone(),
        }
    }
}

/// Raw thread snapshot captured from a minidump stream.
#[derive(Debug, Clone)]
pub struct ThreadSnapshot {
    /// Linux thread id.
    pub tid: u32,
    /// Virtual address where `stack` starts.
    pub stack_address: u64,
    /// Captured stack bytes.
    pub stack: Vec<u8>,
    /// CPU context for this thread, if available.
    pub context: Option<CpuContext>,
}

/// The byte `b` repeated `n` times.
pub open spec fn repeat_byte(b: u8, n: nat) -> Seq<u8> {
    Seq::new(n, |_i: int| b)
}

/// The last index of `c` in `s`, if any.
pub open spec fn last_index_of(s: Seq<u8>, c: u8) -> Option<int> {
    if exists|i: int| 0 <= i < s.len() && s[i] == c {
        Some(choose|i: int| 0 <= i < s.len() && s[i] == c && forall|j: int| i < j < s.len() ==> s[j] != c)
    } else {
        None
    }
}

/// The part of `s` after its last `/`, or all of `s` when it has none.
pub open spec fn basename_bytes(s: Seq<u8>) -> Seq<u8> {
    match last_index_of(s, 0x2f) {
        Some(i) => s.subrange(i + 1, s.len() as int),
        None => s,
    }
}

/// `dest` with its first `min(len(src), limit)` bytes replaced by those of `src`.
pub open spec fn overwrite_prefix(dest: Seq<u8>, src: Seq<u8>, limit: nat) -> Seq<u8> {
    let n = if src.len() < limit { src.len() } else { limit };
    Seq::new(dest.len(), |i: int| if i < n { src[i] } else { dest[i] })
}

/// First index of a NUL or space byte in `s`, if any.
pub open spec fn first_separator(s: Seq<u8>) -> Option<int> {
    if exists|i: int| 0 <= i < s.len() && (s[i] == 0 || s[i] == 0x20) {
        Some(choose|i: int| 0 <= i < s.len() && (s[i] == 0 || s[i] == 0x20) && forall|j: int| 0 <= j < i ==> s[j] != 0 && s[j] != 0x20)
    } else {
        None
    }
}

/// `pr_fname` produced from a command line whose first word ends at `end`.
pub open spec fn cmdline_fname(cmdline: Seq<u8>, end: int) -> Seq<u8> {
    overwrite_prefix(repeat_byte(0, 16), basename_bytes(cmdline.subrange(0, end)), 15)
}

/// `pr_psargs` produced from a command line: its first 79 bytes with NULs as spaces.
pub open spec fn cmdline_psargs(cmdline: Seq<u8>) -> Seq<u8> {
    let n = if cmdline.len() < 79 { cmdline.len() } else { 79 };
    Seq::new(80, |i: int| if i < n { if cmdline[i] == 0 { 0x20u8 } else { cmdline[i] } } else { 0u8 })
}

/// Whether `s` starts the last `/`-separated component of `cmd[..end]`.
pub open spec fn starts_last_component(cmd: Seq<u8>, end: int, s: int) -> bool {
    &&& 0 <= s <= end
    &&& s == 0 || cmd[s - 1] == 0x2f
    &&& forall|j: int| s <= j < end ==> #[trigger] cmd[j] != 0x2f
}

/// `pr_psargs` from a command line: its first 79 bytes with each NUL as a
/// space, then NULs; always NUL-terminated.
pub proof fn lemma_cmdline_psargs(cmd: Seq<u8>)
    ensures
        ({
            let a = cmdline_psargs(cmd);
            &&& a.len() == 80
            &&& a[79] == 0
            &&& forall|i: int|
                0 <= i < 79 ==> #[trigger] a[i] == if i < cmd.len() {
                    if cmd[i] == 0 {
                        0x20u8
                    } else {
                        cmd[i]
                    }
                } else {
                    0u8
                }
        }),
{
}

/// The first word of a command line ends at its first NUL or space.
pub proof fn lemma_first_separator(cmd: Seq<u8>)
    ensures
        first_separator(cmd) matches Some(end) ==> {
            &&& 0 <= end < cmd.len()
            &&& (cmd[end] == 0 || cmd[end] == 0x20)
            &&& forall|j: int| 0 <= j < end ==> #[trigger] cmd[j] != 0 && cmd[j] != 0x20
        },
        first_separator(cmd) is None ==> forall|j: int|
            0 <= j < cmd.len() ==> #[trigger] cmd[j] != 0 && cmd[j] != 0x20,
{
    lemma_first_separator_from(cmd, 0);
}

/// The scan for the first separator, from `e` on.
proof fn lemma_first_separator_from(cmd: Seq<u8>, e: int)
    requires
        0 <= e <= cmd.len(),
        forall|j: int| 0 <= j < e ==> #[trigger] cmd[j] != 0 && cmd[j] != 0x20,
    ensures
        first_separator(cmd) matches Some(end) ==> {
            &&& 0 <= end < cmd.len()
            &&& (cmd[end] == 0 || cmd[end] == 0x20)
            &&& forall|j: int| 0 <= j < end ==> #[trigger] cmd[j] != 0 && cmd[j] != 0x20
        },
        first_separator(cmd) is None ==> forall|j: int|
            0 <= j < cmd.len() ==> #[trigger] cmd[j] != 0 && cmd[j] != 0x20,
    decreases cmd.len() - e,
{
    if e < cmd.len() {
        if cmd[e] == 0 || cmd[e] == 0x20 {
            assert(first_separator(cmd) == Some(e)) by {
                let c = choose|i: int|
                    0 <= i < cmd.len() && (cmd[i] == 0 || cmd[i] == 0x20) && forall|j: int|
                        0 <= j < i ==> cmd[j] != 0 && cmd[j] != 0x20;
                if c < e {
                } else if c > e {
                }
            }
        } else {
            lemma_first_separator_from(cmd, e + 1);
        }
    }
}

/// The last `c` in `s`: where it stands, with no `c` after it; none when
/// `s` holds no `c`.
pub proof fn lemma_last_index_of(s: Seq<u8>, c: u8)
    ensures
        last_index_of(s, c) matches Some(k) ==> {
            &&& 0 <= k < s.len()
            &&& s[k] == c
            &&& forall|j: int| k < j < s.len() ==> #[trigger] s[j] != c
        },
        last_index_of(s, c) is None ==> forall|j: int| 0 <= j < s.len() ==> #[trigger] s[j] != c,
{
    lemma_last_index_from(s, c, s.len() as int);
}

/// The scan for the last `c`, from `i` down.
proof fn lemma_last_index_from(s: Seq<u8>, c: u8, i: int)
    requires
        0 <= i <= s.len(),
        forall|j: int| i <= j < s.len() ==> #[trigger] s[j] != c,
    ensures
        last_index_of(s, c) matches Some(k) ==> {
            &&& 0 <= k < s.len()
            &&& s[k] == c
            &&& forall|j: int| k < j < s.len() ==> #[trigger] s[j] != c
        },
        last_index_of(s, c) is None ==> forall|j: int| 0 <= j < s.len() ==> #[trigger] s[j] != c,
    decreases i,
{
    if i > 0 {
        let k = i - 1;
        if s[k] == c {
            assert(last_index_of(s, c) == Some(k)) by {
                let w = choose|x: int|
                    0 <= x < s.len() && s[x] == c && forall|j: int| x < j < s.len() ==> s[j] != c;
                if w < k {
                } else if w > k {
                }
            }
        } else {
            lemma_last_index_from(s, c, k);
        }
    }
}

/// `pr_fname` from a command line whose first word ends at `end`: the
/// word's last path component (the bytes after its last `/`), cut to 15
/// bytes and NUL-padded.
pub proof fn lemma_cmdline_fname(cmd: Seq<u8>, end: int)
    requires
        0 <= end <= cmd.len(),
    ensures
        ({
            let f = cmdline_fname(cmd, end);
            &&& f.len() == 16
            &&& f[15] == 0
            &&& exists|s: int|
                #[trigger] starts_last_component(cmd, end, s) && forall|i: int|
                    0 <= i < 15 ==> #[trigger] f[i] == if s + i < end {
                        cmd[s + i]
                    } else {
                        0u8
                    }
        }),
{
    let first = cmd.subrange(0, end);
    let f = cmdline_fname(cmd, end);
    lemma_last_index_of(first, 0x2f);
    let s: int = match last_index_of(first, 0x2f) {
        Some(i) => i + 1,
        None => 0,
    };
    assert(starts_last_component(cmd, end, s)) by {
        if s > 0 {
            assert(first[s - 1] == cmd[s - 1]);
        }
        assert forall|j: int| s <= j < end implies #[trigger] cmd[j] != 0x2f by {
            assert(first[j] == cmd[j]);
        }
    }
    assert(basename_bytes(first) =~= cmd.subrange(s, end));
    assert forall|i: int| 0 <= i < 15 implies #[trigger] f[i] == if s + i < end {
        cmd[s + i]
    } else {
        0u8
    } by {}
}

/// Process information used to populate the ELF `NT_PRPSINFO` note.
#[derive(Debug, Clone, PartialEq, Eq)]
pub struct ProcessInfo {
    /// Short executable basename, matching `pr_fname[16]`.
    pub filename: [u8; 16],
    /// Flattened command line, matching `pr_psargs[80]`.
    pub arguments: [u8; 80],
    /// Process ID used for `pr_pid` in the prpsinfo note.
    pub pid: u32,
}

impl Default for ProcessInfo {
    /// The empty record (see [`ProcessInfo::new`]).
    fn default() -> (r: Self)
        ensures
            r.filename@ == repeat_byte(0, 16),
            r.arguments@ == repeat_byte(0, 80),
            r.pid == 0,
    {
        Self::new()
    }
}

impl ProcessInfo {
    /// Creates an empty process info record.
    pub fn new() -> (r: Self)
        ensures
            r.filename@ == repeat_byte(0, 16),
            r.arguments@ == repeat_byte(0, 80),
            r.pid == 0,
    {
        let r = Self { filename: [0u8; 16], arguments: [0u8; 80], pid: 0 };
        assert(r.filename@ =~= repeat_byte(0, 16));
        assert(r.arguments@ =~= repeat_byte(0, 80));
        r
    }

    /// Sets `pr_fname` and `pr_psargs` from the basename of `path` when
    /// no command line set them (i.e. `filename` is still all zero).
    pub fn apply_module_name_fallback(&mut self, path: &str)
        ensures
            final(self).pid == old(self).pid,
            old(self).filename@ != repeat_byte(0, 16) ==> *final(self) == *old(self),
            old(self).filename@ == repeat_byte(0, 16) ==> {
                let base = basename_bytes(path.spec_bytes());
                &&& final(self).filename@ == overwrite_prefix(repeat_byte(0, 16), base, 15)
                &&& final(self).arguments@ == if old(self).arguments@ == repeat_byte(0, 80) {
                    overwrite_prefix(repeat_byte(0, 80), base, 79)
                } else {
                    old(self).arguments@
                }
            },
    {
        if !all_zero(&self.filename) {
            return;
        }
        let bytes = path.as_bytes();
        let start = basename_start(bytes);
        let base = slice_from(bytes, start);
        copy_prefix(&mut self.filename, base, 15);
        if all_zero(&self.arguments) {
            copy_prefix(&mut self.arguments, base, 79);
        }
    }

    /// Applies the command-line normalization rules.
    ///
    /// A command line with no NUL or space byte leaves the record unchanged.
    /// Otherwise `pr_fname` becomes the basename of the first word, truncated
    /// to 15 bytes, and `pr_psargs` the first 79 bytes with NULs as spaces.
    pub fn apply_cmdline(&mut self, cmdline: &[u8])
        ensures
            final(self).pid == old(self).pid,
            match first_separator(cmdline@) {
                None => *final(self) == *old(self),
                Some(end) => {
                    &&& final(self).filename@ == cmdline_fname(cmdline@, end)
                    &&& final(self).arguments@ == cmdline_psargs(cmdline@)
                },
            },
    {
        let end = match find_separator(cmdline) {
            Some(e) => e,
            None => return,
        };
        self.filename = [0u8; 16];
        self.arguments = [0u8; 80];
        let first = slice_to(cmdline, end);
        let start = basename_start(first);
        let name = slice_from(first, start);
        assert(self.filename@ =~= repeat_byte(0, 16));
        assert(self.arguments@ =~= repeat_byte(0, 80));
        copy_prefix(&mut self.filename, name, 15);
        fill_psargs(&mut self.arguments, cmdline);
    }
}

/// Index of the first NUL or space byte of `s`.
fn find_separator(s: &[u8]) -> (r: Option<usize>)
    ensures
        match r {
            Some(e) => e < s@.len() && first_separator(s@) == Some(e as int),
            None => first_separator(s@) is None,
        },
{
    let mut end: usize = 0;
    while end < s.len() && s[end] != 0 && s[end] != 0x20
        invariant
            end <= s@.len(),
            forall|j: int| 0 <= j < end ==> s@[j] != 0 && s@[j] != 0x20,
        decreases s@.len() - end,
    {
        end = end + 1;
    }
    if end == s.len() {
        return None;
    }
    assert(first_separator(s@) == Some(end as int)) by {
        let c = choose|i: int|
            0 <= i < s@.len() && (s@[i] == 0 || s@[i] == 0x20) && forall|j: int|
                0 <= j < i ==> s@[j] != 0 && s@[j] != 0x20;
        assert(s@[end as int] == 0 || s@[end as int] == 0x20);
        if c < end {
        } else if c > end {
        }
    }
    Some(end)
}

/// Writes the `pr_psargs` image of `cmdline` into a zeroed `args`.
fn fill_psargs(args: &mut [u8; 80], cmdline: &[u8])
    requires
        old(args)@ == repeat_byte(0, 80),
    ensures
        final(args)@ == cmdline_psargs(cmdline@),
{
    let arg_len: usize = if cmdline.len() < 79 {
        cmdline.len()
    } else {
        79
    };
    let mut i: usize = 0;
    while i < arg_len
        invariant
            i <= arg_len,
            arg_len <= 79,
            arg_len == (if cmdline@.len() < 79 { cmdline@.len() } else { 79 }),
            args@.len() == 80,
            forall|k: int|
                0 <= k < 80 ==> #[trigger] args@[k] == if k < i {
                    if cmdline@[k] == 0 {
                        0x20u8
                    } else {
                        cmdline@[k]
                    }
                } else {
                    0u8
                },
        decreases arg_len - i,
    {
        let b = cmdline[i];
        args[i] = if b == 0 {
            0x20
        } else {
            b
        };
        i = i + 1;
    }
    assert(args@ =~= cmdline_psargs(cmdline@));
}

/// True when every byte of `a` is zero.
fn all_zero<const N: usize>(a: &[u8; N]) -> (r: bool)
    ensures
        r == (a@ == repeat_byte(0, N as nat)),
{
    let mut i: usize = 0;
    while i < N
        invariant
            i <= N,
            a@.len() == N,
            forall|j: int| 0 <= j < i ==> a@[j] == 0,
        decreases N - i,
    {
        if a[i] != 0 {
            assert(a@[i as int] != repeat_byte(0, N as nat)[i as int]);
            return false;
        }
        i = i + 1;
    }
    assert(a@ =~= repeat_byte(0, N as nat));
    true
}

/// Index just past the last `/` of `s`, or 0 when it has none.
fn basename_start(s: &[u8]) -> (r: usize)
    ensures
        r <= s@.len(),
        s@.subrange(r as int, s@.len() as int) == basename_bytes(s@),
{
    let mut i: usize = s.len();
    while i > 0
        invariant
            i <= s@.len(),
            forall|j: int| i <= j < s@.len() ==> s@[j] != 0x2f,
        decreases i,
    {
        if s[i - 1] == 0x2f {
            let ghost k = (i - 1) as int;
            assert(last_index_of(s@, 0x2f) == Some(k)) by {
                let c = choose|x: int|
                    0 <= x < s@.len() && s@[x] == 0x2f && forall|j: int|
                        x < j < s@.len() ==> s@[j] != 0x2f;
                assert(s@[k] == 0x2f);
                if c < k {
                } else if c > k {
                }
            }
            return i;
        }
        i = i - 1;
    }
    assert(last_index_of(s@, 0x2f) is None);
    assert(s@.subrange(0, s@.len() as int) =~= s@);
    0
}

/// The bytes of `s` from `start` on.
fn slice_from(s: &[u8], start: usize) -> (r: &[u8])
    requires
        start <= s@.len(),
    ensures
        r@ == s@.subrange(start as int, s@.len() as int),
{
    let (_, tail) = s.split_at(start);
    tail
}

/// The first `end` bytes of `s`.
fn slice_to(s: &[u8], end: usize) -> (r: &[u8])
    requires
        end <= s@.len(),
    ensures
        r@ == s@.subrange(0, end as int),
{
    let (head, _) = s.split_at(end);
    head
}

/// Copies the first `min(len(src), limit)` bytes of `src` to the front of `dest`.
fn copy_prefix<const N: usize>(dest: &mut [u8; N], src: &[u8], limit: usize)
    requires
        limit <= N,
    ensures
        final(dest)@ == overwrite_prefix(old(dest)@, src@, limit as nat),
{
    let n: usize = if src.len() < limit {
        src.len()
    } else {
        limit
    };
    let mut i: usize = 0;
    while i < n
        invariant
            i <= n,
            n <= limit,
            limit <= N,
            n == (if src@.len() < limit { src@.len() } else { limit as nat }),
            dest@.len() == N,
            forall|k: int|
                0 <= k < N ==> #[trigger] dest@[k] == if k < i {
                    src@[k]
                } else {
                    old(dest)@[k]
                },
        decreases n - i,
    {
        dest[i] = src[i];
        i = i + 1;
    }
    assert(dest@ =~= overwrite_prefix(old(dest)@, src@, limit as nat));
}

/// Subset of `MD_LINUX_DSO_DEBUG` data needed to rebuild an `r_debug` link map.
#[derive(Debug, Clone)]
pub struct DsoDebug {
    /// `r_debug.r_version`.
    pub version: u32,
    /// Address of the dynamic linker break-handler.
    pub brk: u64,
    /// Base address of the dynamic loader.
    pub ldbase: u64,
    /// Address of the executable's `_DYNAMIC` array.
    pub dynamic: u64,
    /// Per-DSO link map entries.
    pub link_map: Vec<LinkMapEntry>,
    /// Bytes of the executable's `_DYNAMIC` array, if captured.
    pub dynamic_data: Vec<u8>,
}

impl DsoDebug {
    /// The empty record.
    pub fn empty() -> (r: Self)
        ensures
            r.version == 0,
            r.brk == 0,
            r.ldbase == 0,
            r.dynamic == 0,
            r.link_map@.len() == 0,
            r.dynamic_data@.len() == 0,
    {
        DsoDebug {
            version: 0,
            brk: 0,
            ldbase: 0,
            dynamic: 0,
            link_map: Vec::new(),
            dynamic_data: Vec::new(),
        }
    }
}

impl Default for DsoDebug {
    /// The empty record.
    fn default() -> (r: Self)
        ensures
            r@ == (DsoModel {
                version: 0,
                brk: 0,
                ldbase: 0,
                dynamic: 0,
                link_map: Seq::empty(),
                dynamic_data: Seq::empty(),
            }),
    {
        let r = DsoDebug::empty();
        assert(r@.link_map =~= Seq::<LinkMapModel>::empty());
        assert(r@.dynamic_data =~= Seq::<u8>::empty());
        r
    }
}

/// One entry in the dynamic linker's link map.
#[derive(Debug, Clone)]
pub struct LinkMapEntry {
    /// Load address of the DSO.
    pub addr: u64,
    /// Address of the DSO's `_DYNAMIC` array.
    pub ld: u64,
    /// File name.
    pub name: String,
}

/// Mathematical model of a [`LinkMapEntry`].
pub struct LinkMapModel {
    pub addr: u64,
    pub ld: u64,
    pub name: Seq<char>,
}

impl View for LinkMapEntry {
    type V = LinkMapModel;

    open spec fn view(&self) -> LinkMapModel {
        LinkMapModel { addr: self.addr, ld: self.ld, name: self.name@ }
    }
}

/// Mathematical model of a [`DsoDebug`].
pub struct DsoModel {
    pub version: u32,
    pub brk: u64,
    pub ldbase: u64,
    pub dynamic: u64,
    pub link_map: Seq<LinkMapModel>,
    pub dynamic_data: Seq<u8>,
}

impl View for DsoDebug {
    type V = DsoModel;

    open spec fn view(&self) -> DsoModel {
        DsoModel {
            version: self.version,
            brk: self.brk,
            ldbase: self.ldbase,
            dynamic: self.dynamic,
            link_map: self.link_map@.map_values(|e: LinkMapEntry| e@),
            dynamic_data: self.dynamic_data@,
        }
    }
}

/// Mutable core-conversion state collected from minidump streams.
#[derive(Debug, Clone)]
pub struct CrashedProcess {
    /// Architecture selected during system validation.
    pub architecture: Architecture,
    /// Memory mappings ordered by start address.
    pub mappings: BTreeMap<u64, Mapping>,
    /// Thread snapshots.
    pub threads: Vec<ThreadSnapshot>,
    /// Raw auxiliary vector bytes.
    pub auxv: Vec<u8>,
    /// Process info note payload data.
    pub process_info: ProcessInfo,
    /// Thread id of the crashing thread, if known.
    pub crashing_tid: Option<u32>,
    /// CPU context from the exception record for the crashing thread, if available.
    pub exception_context: Option<CpuContext>,
    /// Fatal signal number associated with the crash, if known.
    pub fatal_signal: i32,
    /// Optional DSO debug data for `r_debug` reconstruction.
    pub dso_debug: DsoDebug,
    /// Mapping module-name overrides keyed by base address.
    pub signatures: BTreeMap<u64, String>,
}

/// Mathematical model of a [`CrashedProcess`].
pub struct ProcessModel {
    pub architecture: Architecture,
    /// The mapping table by key.
    pub mappings: Map<u64, MappingModel>,
    pub threads: Seq<ThreadSnapshot>,
    pub auxv: Seq<u8>,
    /// `pr_fname`.
    pub filename: Seq<u8>,
    /// `pr_psargs`.
    pub arguments: Seq<u8>,
    pub pid: u32,
    pub crashing_tid: Option<u32>,
    pub exception_context: Option<CpuContext>,
    pub fatal_signal: i32,
    pub dso_debug: DsoModel,
    pub signatures: Map<u64, Seq<char>>,
}

impl View for CrashedProcess {
    type V = ProcessModel;

    open spec fn view(&self) -> ProcessModel {
        ProcessModel {
            architecture: self.architecture,
            mappings: self.mappings@.map_values(|m: Mapping| m@),
            threads: self.threads@,
            auxv: self.auxv@,
            filename: self.process_info.filename@,
            arguments: self.process_info.arguments@,
            pid: self.process_info.pid,
            crashing_tid: self.crashing_tid,
            exception_context: self.exception_context,
            fatal_signal: self.fatal_signal,
            dso_debug: self.dso_debug@,
            signatures: self.signatures@.map_values(|s: String| s@),
        }
    }
}

/// The model of a new process: no mappings, threads or auxiliary vector,
/// zeroed `pr_fname`/`pr_psargs`, pid 0, no crash information, the empty DSO
/// record and no signatures.
pub open spec fn new_process_model(architecture: Architecture) -> ProcessModel {
    ProcessModel {
        architecture,
        mappings: Map::empty(),
        threads: Seq::empty(),
        auxv: Seq::empty(),
        filename: repeat_byte(0, 16),
        arguments: repeat_byte(0, 80),
        pid: 0,
        crashing_tid: None,
        exception_context: None,
        fatal_signal: 0,
        dso_debug: DsoModel {
            version: 0,
            brk: 0,
            ldbase: 0,
            dynamic: 0,
            link_map: Seq::empty(),
            dynamic_data: Seq::empty(),
        },
        signatures: Map::empty(),
    }
}

/// The model after `pr_fname`/`pr_psargs` are set from a command line (no
/// change when it holds no NUL or space).
pub open spec fn with_cmdline(p: ProcessModel, cmdline: Seq<u8>) -> ProcessModel {
    match first_separator(cmdline) {
        None => p,
        Some(end) => ProcessModel {
            filename: cmdline_fname(cmdline, end),
            arguments: cmdline_psargs(cmdline),
            ..p
        },
    }
}

/// The model after `pr_fname`/`pr_psargs` are set from a module path, unless
/// `pr_fname` is already set (`pr_psargs` only when it is still unset).
pub open spec fn with_module_name(p: ProcessModel, path: Seq<u8>) -> ProcessModel {
    if p.filename != repeat_byte(0, 16) {
        p
    } else {
        let base = basename_bytes(path);
        ProcessModel {
            filename: overwrite_prefix(repeat_byte(0, 16), base, 15),
            arguments: if p.arguments == repeat_byte(0, 80) {
                overwrite_prefix(repeat_byte(0, 80), base, 79)
            } else {
                p.arguments
            },
            ..p
        }
    }
}

impl CrashedProcess {
    /// Creates a process model for a validated target architecture.
    pub fn new(architecture: Architecture) -> (r: Self)
        ensures
            r@ == new_process_model(architecture),
    {
        let r = Self {
            architecture,
            mappings: BTreeMap::new(),
            threads: Vec::new(),
            auxv: Vec::new(),
            process_info: ProcessInfo::new(),
            crashing_tid: None,
            exception_context: None,
            fatal_signal: 0,
            dso_debug: DsoDebug::empty(),
            signatures: BTreeMap::new(),
        };
        assert(r@.mappings =~= Map::<u64, MappingModel>::empty());
        assert(r@.signatures =~= Map::<u64, Seq<char>>::empty());
        assert(r@.dso_debug.link_map =~= Seq::<LinkMapModel>::empty());
        assert(r@.dso_debug.dynamic_data =~= Seq::<u8>::empty());
        assert(r@.threads =~= Seq::<ThreadSnapshot>::empty());
        assert(r@.auxv =~= Seq::<u8>::empty());
        r
    }

    /// Returns the architecture selected during system validation.
    pub fn architecture(&self) -> (r: Architecture)
        ensures
            r == self.architecture,
    {
        self.architecture
    }

    /// Returns the ordered mapping table.
    pub fn mappings(&self) -> (r: &BTreeMap<u64, Mapping>)
        ensures
            r == &self.mappings,
    {
        &self.mappings
    }

    /// Mutable access to the mapping table for late-stage augmentation.
    pub fn mappings_mut(&mut self) -> (r: &mut BTreeMap<u64, Mapping>)
        ensures
            *r == old(self).mappings,
            *final(self) == (CrashedProcess { mappings: *final(r), ..*old(self) }),
    {
        &mut self.mappings
    }

    /// Inserts one mapping by its start address. If a mapping already starts
    /// at that address, the existing entry is kept (the maps stream is read
    /// first, and its entries are preferred over those of the module list).
    pub fn insert_mapping(&mut self, mapping: Mapping)
        ensures
            final(self)@ == (ProcessModel {
                mappings: if old(self)@.mappings.contains_key(mapping.start_address) {
                    old(self)@.mappings
                } else {
                    old(self)@.mappings.insert(mapping.start_address, mapping@)
                },
                ..old(self)@
            }),
            final(self).mappings@ == if old(self).mappings@.contains_key(mapping.start_address) {
                old(self).mappings@
            } else {
                old(self).mappings@.insert(mapping.start_address, mapping)
            },
    {
        broadcast use vstd::std_specs::btree::group_btree_axioms;

        proof {
            crate::ordered::lemma_u64_keys_ordered();
        }
        let ghost k = mapping.start_address;
        let ghost m = mapping@;
        if !self.mappings.contains_key(&mapping.start_address) {
            self.mappings.insert(mapping.start_address, mapping);
            assert(self@.mappings =~= old(self)@.mappings.insert(k, m));
        }
    }

    /// Inserts a mapping only if no mapping at that start address exists.
    pub fn insert_mapping_if_absent(&mut self, mapping: Mapping)
        ensures
            final(self)@ == (ProcessModel {
                mappings: if old(self)@.mappings.contains_key(mapping.start_address) {
                    old(self)@.mappings
                } else {
                    old(self)@.mappings.insert(mapping.start_address, mapping@)
                },
                ..old(self)@
            }),
    {
        broadcast use vstd::std_specs::btree::group_btree_axioms;

        proof {
            crate::ordered::lemma_u64_keys_ordered();
        }
        let ghost k = mapping.start_address;
        let ghost m = mapping@;
        if !self.mappings.contains_key(&mapping.start_address) {
            self.mappings.insert(mapping.start_address, mapping);
            assert(self@.mappings =~= old(self)@.mappings.insert(k, m));
        }
    }

    /// Appends a thread snapshot.
    pub fn add_thread(&mut self, thread: ThreadSnapshot)
        ensures
            final(self)@ == (ProcessModel { threads: old(self)@.threads.push(thread), ..old(self)@ }),
    {
        self.threads.push(thread);
    }

    /// Returns all thread snapshots.
    pub fn threads(&self) -> (r: &[ThreadSnapshot])
        ensures
            r@ == self.threads@,
    {
        self.threads.as_slice()
    }

    /// Sets the raw auxiliary vector bytes.
    pub fn set_auxv(&mut self, auxv: Vec<u8>)
        ensures
            final(self)@ == (ProcessModel { auxv: auxv@, ..old(self)@ }),
    {
        self.auxv = auxv;
    }

    /// Returns the raw auxiliary vector bytes.
    pub fn auxv(&self) -> (r: &[u8])
        ensures
            r@ == self.auxv@,
    {
        self.auxv.as_slice()
    }

    /// Updates process info from the Linux command-line stream.
    pub fn apply_cmdline(&mut self, cmdline: &[u8])
        ensures
            final(self)@ == with_cmdline(old(self)@, cmdline@),
    {
        self.process_info.apply_cmdline(cmdline);
        proof {
            if first_separator(cmdline@) is None {
                assert(self@ == old(self)@);
            }
        }
    }

    /// Sets the process ID used in `NT_PRPSINFO`.
    pub fn set_pid(&mut self, pid: u32)
        ensures
            final(self)@ == (ProcessModel { pid, ..old(self)@ }),
    {
        self.process_info.pid = pid;
    }

    /// Sets `pr_fname`/`pr_psargs` from a module path when cmdline is absent.
    pub fn apply_module_name_fallback(&mut self, path: &str)
        ensures
            final(self)@ == with_module_name(old(self)@, path.spec_bytes()),
    {
        self.process_info.apply_module_name_fallback(path);
    }

    /// Returns process info note data.
    pub fn process_info(&self) -> (r: &ProcessInfo)
        ensures
            r == &self.process_info,
    {
        &self.process_info
    }
}

/// `value` rounded up to a multiple of `alignment` (which must be non-zero).
pub open spec fn spec_align_up(value: int, alignment: int) -> int {
    if value % alignment == 0 {
        value
    } else {
        value + (alignment - value % alignment)
    }
}

/// Aligns `value` upward to the next multiple of `alignment`.
///
/// Fails with `InvalidAlignment` when `alignment` is zero and with
/// `IntegerOverflow("aligned value")` when the result does not fit in a `u64`.
pub fn align_up(value: u64, alignment: u64) -> (r: Result<u64, Md2CoreError>)
    ensures
        match r {
            Ok(x) => {
                &&& alignment != 0
                &&& x == spec_align_up(value as int, alignment as int)
                &&& x % alignment == 0
                &&& value <= x < value + alignment
            },
            Err(e) => if alignment == 0 {
                e == Md2CoreError::InvalidAlignment
            } else {
                &&& spec_align_up(value as int, alignment as int) > u64::MAX
                &&& e == Md2CoreError::IntegerOverflow("aligned value")
            },
        },
{
    if alignment == 0 {
        return Err(Md2CoreError::InvalidAlignment);
    }
    let remainder = value % alignment;
    if remainder == 0 {
        return Ok(value);
    }
    match value.checked_add(alignment - remainder) {
        Some(x) => {
            assert(x % alignment == 0) by (nonlinear_arith)
                requires
                    x == value + (alignment - remainder),
                    remainder == value % alignment,
                    alignment > 0,
            {
                assert(value == alignment * (value / alignment) + remainder);
                assert(x == alignment * (value / alignment + 1));
                vstd::arithmetic::div_mod::lemma_mod_multiples_basic(
                    (value / alignment + 1) as int,
                    alignment as int,
                );
            }
            Ok(x)
        },
        None => Err(Md2CoreError::IntegerOverflow("aligned value")),
    }
}

/// Aligns `value` downward to a multiple of `alignment`.
///
/// Fails with `InvalidAlignment` when `alignment` is zero.
pub fn align_down(value: u64, alignment: u64) -> (r: Result<u64, Md2CoreError>)
    ensures
        match r {
            Ok(x) => {
                &&& alignment != 0
                &&& x == value - value % alignment
                &&& x % alignment == 0
                &&& x <= value < x + alignment
            },
            Err(e) => alignment == 0 && e == Md2CoreError::InvalidAlignment,
        },
{
    if alignment == 0 {
        return Err(Md2CoreError::InvalidAlignment);
    }
    assert(value % alignment <= value) by (nonlinear_arith)
        requires
            alignment > 0,
    ;
    let x = value - (value % alignment);
    assert(x % alignment == 0) by (nonlinear_arith)
        requires
            x == value - value % alignment,
            alignment > 0,
    {
        assert(value == alignment * (value / alignment) + value % alignment);
        vstd::arithmetic::div_mod::lemma_mod_multiples_basic(
            (value / alignment) as int,
            alignment as int,
        );
    }
    Ok(x)
}

/// Bytes needed after `len` bytes to reach a multiple of `alignment`.
pub open spec fn padding_for(len: int, alignment: int) -> int {
    (alignment - len % alignment) % alignment
}

/// `prefix_len` zero bytes, then `data`, then zeros up to a multiple of `alignment`.
pub open spec fn padded_bytes(prefix_len: nat, data: Seq<u8>, alignment: nat) -> Seq<u8> {
    repeat_byte(0, prefix_len) + data + repeat_byte(
        0,
        padding_for(prefix_len + data.len() as int, alignment as int) as nat,
    )
}

/// The padding is below the alignment and completes a multiple of it.
pub proof fn lemma_padding(len: int, alignment: int)
    requires
        len >= 0,
        alignment > 0,
    ensures
        0 <= padding_for(len, alignment) < alignment,
        (len + padding_for(len, alignment)) % alignment == 0,
        padding_for(len, alignment) == if len % alignment == 0 {
            0
        } else {
            alignment - len % alignment
        },
{
    let r = len % alignment;
    assert(0 <= r < alignment);
    if r == 0 {
        assert(padding_for(len, alignment) == 0) by {
            vstd::arithmetic::div_mod::lemma_mod_self_0(alignment);
        }
    } else {
        assert(padding_for(len, alignment) == alignment - r) by {
            vstd::arithmetic::div_mod::lemma_small_mod((alignment - r) as nat, alignment as nat);
        }
        assert((len + (alignment - r)) % alignment == 0) by (nonlinear_arith)
            requires
                r == len % alignment,
                alignment > 0,
                len >= 0,
        {
            assert(len == alignment * (len / alignment) + r);
            assert(len + (alignment - r) == alignment * (len / alignment + 1));
            vstd::arithmetic::div_mod::lemma_mod_multiples_basic(len / alignment + 1, alignment);
        }
    }
}

/// Builds `prefix_len` zero bytes, then `data`, then zero padding up to a
/// multiple of `alignment`.
///
/// Fails with `InvalidAlignment` for a zero alignment and with
/// `IntegerOverflow("padded data length")` when a length exceeds `usize`.
pub fn padded_vec(prefix_len: usize, data: &[u8], alignment: usize) -> (r: Result<
    Vec<u8>,
    Md2CoreError,
>)
    ensures
        match r {
            Ok(v) => {
                &&& alignment != 0
                &&& prefix_len + data@.len() + padding_for(
                    prefix_len + data@.len(),
                    alignment as int,
                ) <= usize::MAX
                &&& v@ == padded_bytes(prefix_len as nat, data@, alignment as nat)
                &&& (v@.len() as int) % (alignment as int) == 0
            },
            Err(e) => if alignment == 0 {
                e == Md2CoreError::InvalidAlignment
            } else {
                &&& prefix_len + data@.len() + padding_for(
                    prefix_len + data@.len(),
                    alignment as int,
                ) > usize::MAX
                &&& e == Md2CoreError::IntegerOverflow("padded data length")
            },
        },
{
    if alignment == 0 {
        return Err(Md2CoreError::InvalidAlignment);
    }
    proof {
        lemma_padding(prefix_len + data@.len(), alignment as int);
    }
    let initial_len = match prefix_len.checked_add(data.len()) {
        Some(n) => n,
        None => return Err(Md2CoreError::IntegerOverflow("padded data length")),
    };
    let padding = (alignment - (initial_len % alignment)) % alignment;
    let final_len = match initial_len.checked_add(padding) {
        Some(n) => n,
        None => return Err(Md2CoreError::IntegerOverflow("padded data length")),
    };
    let mut padded: Vec<u8> = Vec::new();
    crate::bytes::push_zeros(&mut padded, prefix_len);
    crate::bytes::push_all(&mut padded, data);
    crate::bytes::push_zeros(&mut padded, padding);
    assert(padded@ =~= padded_bytes(prefix_len as nat, data@, alignment as nat));
    assert(final_len == padded@.len());
    Ok(padded)
}

} // verus!

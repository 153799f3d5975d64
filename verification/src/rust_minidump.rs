//! Conversion of the streams of a Linux/Android minidump into the
//! `CrashedProcess` model: the system check, the mapping sources, threads,
//! modules, the exception and the DSO debug data.
use vstd::prelude::*;
use vstd::layout::size_of;
use vstd::std_specs::iter::IteratorSpec;
use vstd::utf8::{decode_utf8, valid_utf8};

use minidump_common::format::{DSO_DEBUG_32, DSO_DEBUG_64, LINK_MAP_32, LINK_MAP_64};
use scroll::Pread;

use crate::bytes::{from_le16, from_le32, from_le64, read_u16};
use crate::error::Md2CoreError;
use crate::linux_maps::{
    chars_of, looks_like_linux_maps, models, parse_linux_maps, parse_text,
    spec_looks_like_linux_maps, string_of, MapsError,
};
use crate::model::{
    new_process_model, with_cmdline, Architecture, CrashedProcess, DsoDebug, DsoModel,
    LinkMapEntry, LinkMapModel, Mapping, MappingModel, MappingPermissions, ProcessModel,
    ThreadSnapshot,
};
use crate::regs::CpuContext;

verus! {

// --- system -------------------------------------------------------------------

/// Operating systems a minidump can name.
#[derive(Debug, Clone, Copy, PartialEq, Eq, Structural)]
pub enum Os {
    Windows,
    MacOs,
    Ios,
    Linux,
    Solaris,
    Android,
    Ps3,
    NaCl,
    Unknown(u32),
}

/// CPU architectures a minidump can name.
#[derive(Debug, Clone, Copy, PartialEq, Eq, Structural)]
pub enum Cpu {
    X86,
    X86_64,
    Ppc,
    Ppc64,
    Sparc,
    Arm,
    Arm64,
    Mips,
    Mips64,
    Unknown(u16),
}

impl Os {
    /// The short lowercase name of the system.
    pub open spec fn spec_name(self) -> &'static str {
        match self {
            Os::Windows => "windows",
            Os::MacOs => "mac",
            Os::Ios => "ios",
            Os::Linux => "linux",
            Os::Solaris => "solaris",
            Os::Android => "android",
            Os::Ps3 => "ps3",
            Os::NaCl => "nacl",
            Os::Unknown(_) => "unknown",
        }
    }

    /// The short lowercase name of the system.
    #[verifier::when_used_as_spec(spec_name)]
    pub fn name(self) -> (r: &'static str)
        ensures
            r == self.spec_name(),
    {
        match self {
            Os::Windows => "windows",
            Os::MacOs => "mac",
            Os::Ios => "ios",
            Os::Linux => "linux",
            Os::Solaris => "solaris",
            Os::Android => "android",
            Os::Ps3 => "ps3",
            Os::NaCl => "nacl",
            Os::Unknown(_) => "unknown",
        }
    }
}

impl Cpu {
    /// The short lowercase name of the architecture.
    pub open spec fn spec_name(self) -> &'static str {
        match self {
            Cpu::X86 => "x86",
            Cpu::X86_64 => "amd64",
            Cpu::Ppc => "ppc",
            Cpu::Ppc64 => "ppc64",
            Cpu::Sparc => "sparc",
            Cpu::Arm => "arm",
            Cpu::Arm64 => "arm64",
            Cpu::Mips => "mips",
            Cpu::Mips64 => "mips64",
            Cpu::Unknown(_) => "unknown",
        }
    }

    /// The short lowercase name of the architecture.
    #[verifier::when_used_as_spec(spec_name)]
    pub fn name(self) -> (r: &'static str)
        ensures
            r == self.spec_name(),
    {
        match self {
            Cpu::X86 => "x86",
            Cpu::X86_64 => "amd64",
            Cpu::Ppc => "ppc",
            Cpu::Ppc64 => "ppc64",
            Cpu::Sparc => "sparc",
            Cpu::Arm => "arm",
            Cpu::Arm64 => "arm64",
            Cpu::Mips => "mips",
            Cpu::Mips64 => "mips64",
            Cpu::Unknown(_) => "unknown",
        }
    }
}

/// The target architecture of a CPU on a Linux-like system (Linux, NaCl or
/// Android), or `None` when the pair is not supported.
pub open spec fn supported_architecture(cpu: Cpu, os: Os) -> Option<Architecture> {
    if !(os == Os::Linux || os == Os::NaCl || os == Os::Android) {
        None
    } else {
        match cpu {
            Cpu::X86 => Some(Architecture::X86),
            Cpu::X86_64 => Some(Architecture::X86_64),
            Cpu::Arm => Some(Architecture::Arm),
            Cpu::Arm64 => Some(Architecture::Aarch64),
            Cpu::Mips => Some(Architecture::Mips),
            Cpu::Mips64 => Some(Architecture::Mips64),
            _ => None,
        }
    }
}

/// Whether `e` is the `UnsupportedSystem` error naming `os` and `cpu`.
pub open spec fn is_unsupported_system(e: Md2CoreError, os: Os, cpu: Cpu) -> bool {
    e matches Md2CoreError::UnsupportedSystem { os: o, cpu: c } && o@ == os.spec_name()@ && c@
        == cpu.spec_name()@
}

/// Converts a CPU/OS pair to a supported architecture.
///
/// Fails with `UnsupportedSystem` (carrying both names) when the system is
/// not Linux, NaCl or Android, or when the CPU is not one of the six
/// supported ones.
pub fn architecture_from_cpu_os(cpu: Cpu, os: Os) -> (r: Result<Architecture, Md2CoreError>)
    ensures
        match supported_architecture(cpu, os) {
            Some(a) => r == Ok::<Architecture, Md2CoreError>(a),
            None => r matches Err(e) && is_unsupported_system(e, os, cpu),
        },
{
    let linux_like = match os {
        Os::Linux | Os::NaCl | Os::Android => true,
        _ => false,
    };
    if !linux_like {
        return Err(
            Md2CoreError::UnsupportedSystem { os: os.name().to_owned(), cpu: cpu.name().to_owned() },
        );
    }
    match cpu {
        Cpu::X86 => Ok(Architecture::X86),
        Cpu::X86_64 => Ok(Architecture::X86_64),
        Cpu::Arm => Ok(Architecture::Arm),
        Cpu::Arm64 => Ok(Architecture::Aarch64),
        Cpu::Mips => Ok(Architecture::Mips),
        Cpu::Mips64 => Ok(Architecture::Mips64),
        _ => Err(
            Md2CoreError::UnsupportedSystem { os: os.name().to_owned(), cpu: cpu.name().to_owned() },
        ),
    }
}

/// Caller-provided knobs that mirror the command-line flags.
#[derive(Debug, Clone)]
pub struct ConvertOptions {
    /// Substitute module file names with a GUID-prefixed path (or with
    /// `so_base_dir` + basename when that is set).
    pub mangle_sonames: bool,
    /// Custom base directory for module file names.
    pub so_base_dir: Option<String>,
    /// Print stream traversal diagnostics to stderr.
    pub verbose: bool,
}

impl Default for ConvertOptions {
    /// No renaming and no diagnostics.
    fn default() -> (r: Self)
        ensures
            !r.mangle_sonames,
            r.so_base_dir is None,
            !r.verbose,
    {
        ConvertOptions { mangle_sonames: false, so_base_dir: None, verbose: false }
    }
}

// --- the typed maps stream ---------------------------------------------------------

/// One entry of the typed `MD_LINUX_MAPS` stream.
pub struct LinuxMapEntry {
    /// Inclusive start address.
    pub start: u64,
    /// Exclusive end address.
    pub end: u64,
    /// File offset.
    pub offset: u64,
    pub readable: bool,
    pub writable: bool,
    pub executable: bool,
    /// The path of a file-backed entry; `None` for anonymous, heap, stack
    /// and other special entries.
    pub path: Option<String>,
}

/// Whether an entry names an absolute file path.
pub open spec fn has_absolute_path(e: LinuxMapEntry) -> bool {
    e.path matches Some(p) && p@.len() > 0 && p@[0] == '/'
}

/// The mapping of a file-backed entry, or its error when its range is empty.
pub open spec fn entry_mapping(e: LinuxMapEntry) -> Result<MappingModel, Md2CoreError> {
    if e.start < e.end {
        Ok(
            MappingModel {
                start_address: e.start,
                end_address: e.end,
                offset: e.offset,
                permissions: MappingPermissions::spec_new(e.readable, e.writable, e.executable),
                filename: Some(e.path->Some_0@),
                data: Seq::empty(),
            },
        )
    } else {
        Err(Md2CoreError::InvalidAddressRange { start: e.start, end: e.end })
    }
}

/// The mappings of the entries with an absolute path, in order, or the
/// error of the first of them whose range is empty.
pub open spec fn entries_mappings(es: Seq<LinuxMapEntry>) -> Result<Seq<MappingModel>, Md2CoreError>
    decreases es.len(),
{
    if es.len() == 0 {
        Ok(Seq::empty())
    } else {
        match entries_mappings(es.drop_last()) {
            Err(e) => Err(e),
            Ok(ms) => if !has_absolute_path(es.last()) {
                Ok(ms)
            } else {
                match entry_mapping(es.last()) {
                    Err(e) => Err(e),
                    Ok(m) => Ok(ms.push(m)),
                }
            },
        }
    }
}

/// The maps stream's mappings are its file-backed entries (those with an
/// absolute path), in order, each with the entry's range, file offset, path
/// and its readable, writable and executable flags as permissions.
pub proof fn lemma_maps_entries_kept(es: Seq<LinuxMapEntry>)
    ensures
        entries_mappings(es) matches Ok(ms) ==> {
            let kept = es.filter(|e: LinuxMapEntry| has_absolute_path(e));
            &&& ms.len() == kept.len()
            &&& forall|k: int|
                0 <= k < ms.len() ==> {
                    &&& (#[trigger] ms[k]).start_address == kept[k].start
                    &&& ms[k].end_address == kept[k].end
                    &&& ms[k].offset == kept[k].offset
                    &&& ms[k].permissions.spec_read() == kept[k].readable
                    &&& ms[k].permissions.spec_write() == kept[k].writable
                    &&& ms[k].permissions.spec_execute() == kept[k].executable
                    &&& ms[k].filename == Some(kept[k].path->Some_0@)
                    &&& ms[k].data.len() == 0
                }
        },
    decreases es.len(),
{
    if es.len() > 0 {
        let d = es.drop_last();
        lemma_maps_entries_kept(d);
        let e = es.last();
        MappingPermissions::lemma_spec_new(e.readable, e.writable, e.executable);
        let pred = |x: LinuxMapEntry| has_absolute_path(x);
        assert(es.filter(pred) == if pred(e) {
            d.filter(pred).push(e)
        } else {
            d.filter(pred)
        }) by {
            reveal(Seq::filter);
        }
    }
}

/// Whether `s` starts with `/`.
fn starts_with_slash(s: &str) -> (r: bool)
    ensures
        r == (s@.len() > 0 && s@[0] == '/'),
{
    let cs = chars_of(s);
    cs.len() > 0 && cs[0] == '/'
}

/// Converts the typed Linux maps stream into mappings: the entries with an
/// absolute file path, in order.
///
/// Fails with `InvalidAddressRange` at the first such entry whose start is
/// not below its end.
pub fn mappings_from_minidump_linux_maps(maps: &[LinuxMapEntry]) -> (r: Result<Vec<Mapping>, Md2CoreError>)
    ensures
        match entries_mappings(maps@) {
            Ok(ms) => r matches Ok(v) && models(v@) == ms,
            Err(e) => r == Err::<Vec<Mapping>, Md2CoreError>(e),
        },
{
    let mut out: Vec<Mapping> = Vec::new();
    let mut i: usize = 0;
    while i < maps.len()
        invariant
            i <= maps@.len(),
            entries_mappings(maps@.take(i as int)) is Ok,
            models(out@) == entries_mappings(maps@.take(i as int))->Ok_0,
        decreases maps@.len() - i,
    {
        assert(maps@.take(i + 1).drop_last() =~= maps@.take(i as int));
        let entry = &maps[i];
        let keep = match &entry.path {
            Some(p) => starts_with_slash(p.as_str()),
            None => false,
        };
        if keep {
            let permissions = MappingPermissions::new(entry.readable, entry.writable, entry.executable);
            match Mapping::new(entry.start, entry.end, permissions) {
                Ok(m) => {
                    let name = match &entry.path {
                        Some(p) => p.clone(),
                        None => String::new(),
                    };
                    let m = m.with_file(name, entry.offset);
                    let ghost before = models(out@);
                    out.push(m);
                    assert(m@.data =~= Seq::<u8>::empty());
                    assert(models(out@) =~= before.push(m@));
                },
                Err(e) => {
                    proof {
                        lemma_entries_error_sticks(maps@, i + 1);
                    }
                    return Err(e);
                },
            }
        }
        i = i + 1;
    }
    assert(maps@.take(i as int) =~= maps@);
    Ok(out)
}

/// Once an entry failed, the later entries change nothing.
proof fn lemma_entries_error_sticks(es: Seq<LinuxMapEntry>, j: int)
    requires
        0 <= j <= es.len(),
        entries_mappings(es.take(j)) is Err,
    ensures
        entries_mappings(es) == entries_mappings(es.take(j)),
    decreases es.len() - j,
{
    if j == es.len() {
        assert(es.take(j) =~= es);
    } else {
        assert(es.drop_last().take(j) =~= es.take(j));
        lemma_entries_error_sticks(es.drop_last(), j);
    }
}

// --- modules ------------------------------------------------------------------------

/// A PDB 7.0 GUID of a module's CodeView record.
#[derive(Debug, Clone, Copy)]
pub struct Guid {
    pub data1: u32,
    pub data2: u16,
    pub data3: u16,
    pub data4: [u8; 8],
}

/// One module of the module list stream.
pub struct ModuleInfo {
    /// Load address.
    pub base: u64,
    /// Size of the image in memory.
    pub size: u32,
    /// File name.
    pub name: String,
    /// GUID of a PDB 7.0 CodeView record, if the module has one.
    pub guid: Option<Guid>,
}

/// Upper-case hex digit of `d` (below 16).
pub open spec fn hex_char(d: nat) -> char {
    if d < 10 {
        (0x30 + d) as char
    } else {
        (0x41 + d - 10) as char
    }
}

/// The `width` low hex digits of `v`, most significant first, in upper case.
pub open spec fn hex_digits(v: nat, width: nat) -> Seq<char>
    decreases width,
{
    if width == 0 {
        Seq::empty()
    } else {
        hex_digits(v / 16, (width - 1) as nat).push(hex_char(v % 16))
    }
}

/// The usual text of a GUID: `XXXXXXXX-XXXX-XXXX-XXXX-XXXXXXXXXXXX`.
pub open spec fn guid_text(g: Guid) -> Seq<char> {
    guid_text_of(g.data1, g.data2, g.data3, g.data4@)
}

/// The text of a GUID with the given parts.
pub open spec fn guid_text_of(data1: u32, data2: u16, data3: u16, d: Seq<u8>) -> Seq<char> {
    hex_digits(data1 as nat, 8) + seq!['-'] + hex_digits(data2 as nat, 4) + seq!['-']
        + hex_digits(data3 as nat, 4) + seq!['-'] + hex_digits(d[0] as nat, 2) + hex_digits(
        d[1] as nat,
        2,
    ) + seq!['-'] + guid_tail(d, 8)
}

/// The text of the all-zero GUID.
pub open spec fn zero_guid_text() -> Seq<char> {
    guid_text_of(0, 0, 0, Seq::new(8, |_i: int| 0u8))
}

/// The part of a path after its last `/` (all of it when there is none).
pub open spec fn basename_chars(s: Seq<char>) -> Seq<char>
    decreases s.len(),
{
    if s.len() == 0 {
        s
    } else if s.last() == '/' {
        Seq::empty()
    } else {
        basename_chars(s.drop_last()).push(s.last())
    }
}

/// `s` without its trailing `/` characters.
pub open spec fn trim_trailing_slashes(s: Seq<char>) -> Seq<char>
    decreases s.len(),
{
    if s.len() > 0 && s.last() == '/' {
        trim_trailing_slashes(s.drop_last())
    } else {
        s
    }
}

/// The name recorded for a module: with a base directory, that directory
/// (without trailing slashes), `/` and the basename; otherwise, when names
/// are mangled and the module has a non-zero GUID,
/// `/var/lib/breakpad/<GUID>-<basename><basename>`; otherwise its file name.
pub open spec fn module_signature(m: ModuleInfo, so_base_dir: Option<String>, mangle: bool) -> Seq<char> {
    let base = basename_chars(m.name@);
    match so_base_dir {
        Some(dir) => trim_trailing_slashes(dir@) + seq!['/'] + base,
        None => if !mangle {
            m.name@
        } else {
            let guid = match m.guid {
                Some(g) => guid_text(g),
                None => zero_guid_text(),
            };
            if guid == zero_guid_text() {
                m.name@
            } else {
                "/var/lib/breakpad/"@ + guid + seq!['-'] + base + base
            }
        },
    }
}

/// Upper-case hex digit of `d`.
fn hex_char_of(d: u64) -> (r: char)
    requires
        d < 16,
    ensures
        r == hex_char(d as nat),
{
    if d < 10 {
        ((0x30 + d) as u8) as char
    } else {
        ((0x41 + d - 10) as u8) as char
    }
}

/// Appends the `width` low hex digits of `v`.
fn push_hex(out: &mut Vec<char>, v: u64, width: usize)
    ensures
        final(out)@ == old(out)@ + hex_digits(v as nat, width as nat),
    decreases width,
{
    if width == 0 {
        assert(old(out)@ + Seq::<char>::empty() =~= old(out)@);
    } else {
        push_hex(out, v / 16, width - 1);
        out.push(hex_char_of(v % 16));
        assert(final(out)@ =~= old(out)@ + hex_digits(v as nat, width as nat)) by {
            assert(hex_digits(v as nat, width as nat) == hex_digits(
                (v / 16) as nat,
                (width - 1) as nat,
            ).push(hex_char((v % 16) as nat)));
        }
    }
}

/// Appends the characters of `s`.
fn push_chars(out: &mut Vec<char>, s: &[char])
    ensures
        final(out)@ == old(out)@ + s@,
{
    let ghost start = out@;
    let mut i: usize = 0;
    while i < s.len()
        invariant
            i <= s@.len(),
            out@ == start + s@.take(i as int),
        decreases s@.len() - i,
    {
        out.push(s[i]);
        i = i + 1;
        assert(out@ =~= start + s@.take(i as int));
    }
    assert(s@.take(i as int) =~= s@);
}

/// The text of a GUID.
fn guid_chars(g: &Guid) -> (r: Vec<char>)
    ensures
        r@ == guid_text(*g),
{
    let mut out: Vec<char> = Vec::new();
    push_hex(&mut out, g.data1 as u64, 8);
    out.push('-');
    push_hex(&mut out, g.data2 as u64, 4);
    out.push('-');
    push_hex(&mut out, g.data3 as u64, 4);
    out.push('-');
    push_hex(&mut out, g.data4[0] as u64, 2);
    push_hex(&mut out, g.data4[1] as u64, 2);
    out.push('-');
    let mut k: usize = 2;
    assert(out@ =~= out@ + guid_tail(g.data4@, 2));
    while k < 8
        invariant
            2 <= k <= 8,
            out@ == hex_digits(g.data1 as nat, 8) + seq!['-'] + hex_digits(g.data2 as nat, 4) + seq![
                '-',
            ] + hex_digits(g.data3 as nat, 4) + seq!['-'] + hex_digits(g.data4@[0] as nat, 2)
                + hex_digits(g.data4@[1] as nat, 2) + seq!['-'] + guid_tail(g.data4@, k as int),
            g.data4@.len() == 8,
        decreases 8 - k,
    {
        push_hex(&mut out, g.data4[k] as u64, 2);
        k = k + 1;
        assert(out@ =~= hex_digits(g.data1 as nat, 8) + seq!['-'] + hex_digits(g.data2 as nat, 4)
            + seq!['-'] + hex_digits(g.data3 as nat, 4) + seq!['-'] + hex_digits(
            g.data4@[0] as nat,
            2,
        ) + hex_digits(g.data4@[1] as nat, 2) + seq!['-'] + guid_tail(g.data4@, k as int));
    }
    out
}

/// The hex digits of `d[2..k]`, two per byte.
pub open spec fn guid_tail(d: Seq<u8>, k: int) -> Seq<char>
    decreases k,
{
    if k <= 2 {
        Seq::empty()
    } else {
        guid_tail(d, k - 1) + hex_digits(d[k - 1] as nat, 2)
    }
}

/// Whether two character sequences are equal.
fn same_chars(a: &[char], b: &[char]) -> (r: bool)
    ensures
        r == (a@ == b@),
{
    if a.len() != b.len() {
        return false;
    }
    let mut i: usize = 0;
    while i < a.len()
        invariant
            i <= a@.len(),
            a@.len() == b@.len(),
            forall|j: int| 0 <= j < i ==> a@[j] == b@[j],
        decreases a@.len() - i,
    {
        if a[i] != b[i] {
            return false;
        }
        i = i + 1;
    }
    assert(a@ =~= b@);
    true
}

/// The characters after the last `/` of `s`.
fn basename_of(s: &[char]) -> (r: Vec<char>)
    ensures
        r@ == basename_chars(s@),
{
    let mut start: usize = 0;
    let mut i: usize = 0;
    while i < s.len()
        invariant
            i <= s@.len(),
            start <= i,
            basename_chars(s@.take(i as int)) == s@.subrange(start as int, i as int),
        decreases s@.len() - i,
    {
        assert(s@.take(i + 1).drop_last() =~= s@.take(i as int));
        if s[i] == '/' {
            start = i + 1;
        }
        i = i + 1;
        assert(basename_chars(s@.take(i as int)) =~= s@.subrange(start as int, i as int));
    }
    assert(s@.take(i as int) =~= s@);
    let mut out: Vec<char> = Vec::new();
    let mut k: usize = start;
    while k < s.len()
        invariant
            start <= k <= s@.len(),
            out@ == s@.subrange(start as int, k as int),
        decreases s@.len() - k,
    {
        out.push(s[k]);
        k = k + 1;
        assert(out@ =~= s@.subrange(start as int, k as int));
    }
    out
}

/// `s` without its trailing `/` characters.
fn trim_slashes(s: &[char]) -> (r: Vec<char>)
    ensures
        r@ == trim_trailing_slashes(s@),
{
    let mut n: usize = s.len();
    assert(s@.take(n as int) =~= s@);
    while n > 0 && s[n - 1] == '/'
        invariant
            n <= s@.len(),
            trim_trailing_slashes(s@) == trim_trailing_slashes(s@.take(n as int)),
        decreases n,
    {
        assert(s@.take(n as int).drop_last() =~= s@.take(n - 1));
        n = n - 1;
    }
    let mut out: Vec<char> = Vec::new();
    let mut k: usize = 0;
    while k < n
        invariant
            k <= n <= s@.len(),
            out@ == s@.take(k as int),
        decreases n - k,
    {
        out.push(s[k]);
        k = k + 1;
        assert(out@ =~= s@.take(k as int));
    }
    out
}

/// The GUID text of a module's PDB 7.0 record, if it has one.
fn guid_from_module(module: &ModuleInfo) -> (r: Option<String>)
    ensures
        match module.guid {
            Some(g) => r matches Some(s) && s@ == guid_text(g),
            None => r is None,
        },
{
    match &module.guid {
        Some(g) => {
            let cs = guid_chars(g);
            Some(string_of(cs.as_slice()))
        },
        None => None,
    }
}

/// The name recorded for a module (see [`module_signature`]).
fn signature_for(module: &ModuleInfo, options: &ConvertOptions) -> (r: String)
    ensures
        r@ == module_signature(*module, options.so_base_dir, options.mangle_sonames),
{
    let name = chars_of(module.name.as_str());
    let base = basename_of(name.as_slice());
    match &options.so_base_dir {
        Some(dir) => {
            let d = chars_of(dir.as_str());
            let mut out = trim_slashes(d.as_slice());
            out.push('/');
            push_chars(&mut out, base.as_slice());
            return string_of(out.as_slice());
        },
        None => {},
    }
    if !options.mangle_sonames {
        return module.name.clone();
    }
    let zero_guid = Guid { data1: 0, data2: 0, data3: 0, data4: [0u8; 8] };
    let zero = guid_chars(&zero_guid);
    assert(zero_guid.data4@ =~= Seq::new(8, |_i: int| 0u8));
    assert(zero@ =~= zero_guid_text());
    let guid = match guid_from_module(module) {
        Some(g) => chars_of(g.as_str()),
        None => guid_chars(&zero_guid),
    };
    if same_chars(guid.as_slice(), zero.as_slice()) {
        return module.name.clone();
    }
    let mut out = chars_of("/var/lib/breakpad/");
    push_chars(&mut out, guid.as_slice());
    out.push('-');
    push_chars(&mut out, base.as_slice());
    push_chars(&mut out, base.as_slice());
    string_of(out.as_slice())
}

// --- DSO debug data ---------------------------------------------------------------

#[verifier::external_type_specification]
#[verifier::external_body]
pub struct ExDsoDebug64(DSO_DEBUG_64);

#[verifier::external_type_specification]
#[verifier::external_body]
pub struct ExDsoDebug32(DSO_DEBUG_32);

#[verifier::external_type_specification]
#[verifier::external_body]
pub struct ExLinkMap64(LINK_MAP_64);

#[verifier::external_type_specification]
#[verifier::external_body]
pub struct ExLinkMap32(LINK_MAP_32);

/// The `MDRVA` value meaning "no link map".
pub const INVALID_MD_RVA: u32 = 0xffff_ffff;

/// `Pread::pread_with::<u32>(bytes, off, LE)`: the four bytes at `off`,
/// little-endian, when they are all inside `bytes`.
#[verifier::external_body]
fn pread_u32_le(bytes: &[u8], off: usize) -> (r: Option<u32>)
    ensures
        r is Some <==> off + 4 <= bytes@.len(),
        r matches Some(v) ==> v == from_le32(bytes@, off as int),
{
    bytes.pread_with::<u32>(off, scroll::LE).ok()
}

/// `Pread::pread_with::<DSO_DEBUG_64>(bytes, 0, LE)`: version, map RVA and
/// entry count (32 bits each), then `brk`, `ldbase` and `dynamic` (64 bits
/// each), read one after another little-endian from the start of `bytes`;
/// it needs 36 bytes.
///
/// A failure carries the text of the `scroll` error, which is not described here.
#[verifier::external_body]
fn pread_dso_debug_64(bytes: &[u8]) -> (r: Result<(u32, u32, u32, u64, u64, u64), String>)
    ensures
        r is Ok <==> bytes@.len() >= 36,
        r matches Ok(h) ==> h == (
            from_le32(bytes@, 0),
            from_le32(bytes@, 4),
            from_le32(bytes@, 8),
            from_le64(bytes@, 12),
            from_le64(bytes@, 20),
            from_le64(bytes@, 28),
        ),
{
    match bytes.pread_with::<DSO_DEBUG_64>(0, scroll::LE) {
        Ok(h) => Ok((h.version, h.map, h.dso_count, h.brk, h.ldbase, h.dynamic)),
        Err(e) => Err(e.to_string()),
    }
}

/// `Pread::pread_with::<DSO_DEBUG_32>(bytes, 0, LE)`: its six 32-bit fields
/// (version, map RVA, entry count, `brk`, `ldbase`, `dynamic`) read one
/// after another little-endian from the start of `bytes`; it needs 24 bytes.
///
/// A failure carries the text of the `scroll` error, which is not described here.
#[verifier::external_body]
fn pread_dso_debug_32(bytes: &[u8]) -> (r: Result<(u32, u32, u32, u32, u32, u32), String>)
    ensures
        r is Ok <==> bytes@.len() >= 24,
        r matches Ok(h) ==> h == (
            from_le32(bytes@, 0),
            from_le32(bytes@, 4),
            from_le32(bytes@, 8),
            from_le32(bytes@, 12),
            from_le32(bytes@, 16),
            from_le32(bytes@, 20),
        ),
{
    match bytes.pread_with::<DSO_DEBUG_32>(0, scroll::LE) {
        Ok(h) => Ok((h.version, h.map, h.dso_count, h.brk, h.ldbase, h.dynamic)),
        Err(e) => Err(e.to_string()),
    }
}

/// `Pread::pread_with::<LINK_MAP_64>(bytes, off, LE)`: `addr` (64 bits), the
/// name's RVA (32 bits) and `ld` (64 bits), read one after another
/// little-endian from `off`; it needs 20 bytes there.
///
/// A failure carries the text of the `scroll` error, which is not described here.
#[verifier::external_body]
fn pread_link_map_64(bytes: &[u8], off: usize) -> (r: Result<(u64, u32, u64), String>)
    ensures
        r is Ok <==> off + 20 <= bytes@.len(),
        r matches Ok(e) ==> e == (
            from_le64(bytes@, off as int),
            from_le32(bytes@, off + 8),
            from_le64(bytes@, off + 12),
        ),
{
    match bytes.pread_with::<LINK_MAP_64>(off, scroll::LE) {
        Ok(e) => Ok((e.addr, e.name, e.ld)),
        Err(e) => Err(e.to_string()),
    }
}

/// `Pread::pread_with::<LINK_MAP_32>(bytes, off, LE)`: `addr`, the name's
/// RVA and `ld`, 32 bits each, read one after another little-endian from
/// `off`; it needs 12 bytes there.
///
/// A failure carries the text of the `scroll` error, which is not described here.
#[verifier::external_body]
fn pread_link_map_32(bytes: &[u8], off: usize) -> (r: Result<(u32, u32, u32), String>)
    ensures
        r is Ok <==> off + 12 <= bytes@.len(),
        r matches Ok(e) ==> e == (
            from_le32(bytes@, off as int),
            from_le32(bytes@, off + 4),
            from_le32(bytes@, off + 8),
        ),
{
    match bytes.pread_with::<LINK_MAP_32>(off, scroll::LE) {
        Ok(e) => Ok((e.addr, e.name, e.ld)),
        Err(e) => Err(e.to_string()),
    }
}

/// The character of a UTF-16 unit of an ASCII `MDString`: itself when it is
/// ASCII, else `?`.
pub open spec fn unit_char(u: u16) -> char {
    if u < 0x80 {
        (u as u8) as char
    } else {
        '?'
    }
}

/// The characters of the `n` UTF-16 units from `pos`, up to the first zero unit.
pub open spec fn md_units_text(file: Seq<u8>, pos: int, n: int) -> Seq<char>
    decreases n,
{
    if n <= 0 {
        Seq::empty()
    } else if from_le16(file, pos) == 0 {
        Seq::empty()
    } else {
        seq![unit_char(from_le16(file, pos))] + md_units_text(file, pos + 2, n - 1)
    }
}

/// The text of the `MDString` at `rva`: a 32-bit byte length, then that many
/// bytes of UTF-16 units; `None` when the string does not fit in the file.
pub open spec fn md_string(file: Seq<u8>, rva: u32) -> Option<Seq<char>> {
    if rva + 4 > file.len() {
        None
    } else {
        let start = rva + 4;
        let end = start + from_le32(file, rva as int);
        if end > usize::MAX || end > file.len() {
            None
        } else {
            Some(md_units_text(file, start, (from_le32(file, rva as int) / 2) as int))
        }
    }
}

/// Reads the ASCII `MDString` at `rva` (see [`md_string`]).
fn read_md_ascii_string(full_file: &[u8], rva: u32) -> (r: Option<String>)
    ensures
        match md_string(full_file@, rva) {
            Some(t) => r matches Some(s) && s@ == t,
            None => r is None,
        },
{
    let off = rva as usize;
    let byte_len = match pread_u32_le(full_file, off) {
        Some(v) => v as usize,
        None => {
            return None;
        },
    };
    let start = match off.checked_add(4) {
        Some(x) => x,
        None => {
            return None;
        },
    };
    let end = match start.checked_add(byte_len) {
        Some(x) => x,
        None => {
            return None;
        },
    };
    if end > full_file.len() {
        return None;
    }
    let n = byte_len / 2;
    let flen = full_file.len();
    let ghost total = md_units_text(full_file@, start as int, n as int);
    let mut out: Vec<char> = Vec::new();
    let mut k: usize = 0;
    let mut stop = false;
    while k < n && !stop
        invariant
            k <= n,
            2 * n <= byte_len,
            start + byte_len <= flen,
            flen == full_file@.len(),
            total == md_units_text(full_file@, start as int, n as int),
            stop ==> out@ == total,
            !stop ==> out@ + md_units_text(full_file@, start + 2 * k, (n - k) as int) == total,
        decreases n - k + (if stop {
            0int
        } else {
            1int
        }),
    {
        let unit = read_u16(full_file, start + 2 * k);
        if unit == 0 {
            assert(out@ =~= total);
            stop = true;
        } else {
            let c = if unit < 0x80 {
                (unit as u8) as char
            } else {
                '?'
            };
            out.push(c);
            k = k + 1;
            assert(out@ + md_units_text(full_file@, start + 2 * k, (n - k) as int) =~= total);
        }
    }
    if !stop {
        assert(out@ =~= total);
    }
    Some(string_of(out.as_slice()))
}

/// The name of an entry: its `MDString` when it fits in the file, else empty.
pub open spec fn entry_name_at(file: Seq<u8>, rva: u32) -> Seq<char> {
    match md_string(file, rva) {
        Some(t) => t,
        None => Seq::empty(),
    }
}

/// The 64-bit `link_map` entries from number `i` on: entries are `stride`
/// bytes apart from `rva`, and reading stops after `count` entries or at the
/// first that does not fit in the file; `None` when an entry that fits its
/// stride is too short to read.
pub open spec fn link_maps_64(file: Seq<u8>, rva: int, count: int, stride: int, i: int) -> Option<
    Seq<LinkMapModel>,
>
    decreases count - i,
{
    if i < 0 || i >= count || rva + i * stride + stride > file.len() {
        Some(Seq::empty())
    } else {
        let off = rva + i * stride;
        if off + 20 > file.len() {
            None
        } else {
            match link_maps_64(file, rva, count, stride, i + 1) {
                None => None,
                Some(rest) => Some(
                    seq![
                        LinkMapModel {
                            addr: from_le64(file, off),
                            ld: from_le64(file, off + 12),
                            name: entry_name_at(file, from_le32(file, off + 8)),
                        },
                    ] + rest,
                ),
            }
        }
    }
}

/// The 32-bit `link_map` entries from number `i` on (see [`link_maps_64`]).
pub open spec fn link_maps_32(file: Seq<u8>, rva: int, count: int, stride: int, i: int) -> Option<
    Seq<LinkMapModel>,
>
    decreases count - i,
{
    if i < 0 || i >= count || rva + i * stride + stride > file.len() {
        Some(Seq::empty())
    } else {
        let off = rva + i * stride;
        if off + 12 > file.len() {
            None
        } else {
            match link_maps_32(file, rva, count, stride, i + 1) {
                None => None,
                Some(rest) => Some(
                    seq![
                        LinkMapModel {
                            addr: from_le32(file, off) as u64,
                            ld: from_le32(file, off + 8) as u64,
                            name: entry_name_at(file, from_le32(file, off + 4)),
                        },
                    ] + rest,
                ),
            }
        }
    }
}

/// The link map of a 64- or 32-bit dump: nothing when the map RVA is the
/// invalid one; `None` when an entry cannot be read.
pub open spec fn link_map_spec(is64: bool, file: Seq<u8>, map_rva: u32, dso_count: u32) -> Option<
    Seq<LinkMapModel>,
> {
    if map_rva == INVALID_MD_RVA {
        Some(Seq::empty())
    } else if is64 {
        link_maps_64(file, map_rva as int, dso_count as int, size_of::<LINK_MAP_64>() as int, 0)
    } else {
        link_maps_32(file, map_rva as int, dso_count as int, size_of::<LINK_MAP_32>() as int, 0)
    }
}

/// The entries from number `i` on, of the given pointer width.
pub open spec fn link_maps_from(is64: bool, file: Seq<u8>, rva: int, count: int, stride: int, i: int) -> Option<
    Seq<LinkMapModel>,
> {
    if is64 {
        link_maps_64(file, rva, count, stride, i)
    } else {
        link_maps_32(file, rva, count, stride, i)
    }
}

/// `total` is `prefix` followed by the entries `rest`, or fails with it.
pub open spec fn joins(
    total: Option<Seq<LinkMapModel>>,
    prefix: Seq<LinkMapModel>,
    rest: Option<Seq<LinkMapModel>>,
) -> bool {
    match rest {
        Some(r) => total == Some(prefix + r),
        None => total is None,
    }
}

/// The link-map entries at `map_rva`, of the given pointer width.
fn read_link_map(is64: bool, full_file: &[u8], map_rva: u32, dso_count: u32) -> (r: Result<
    Vec<LinkMapEntry>,
    Md2CoreError,
>)
    ensures
        match link_map_spec(is64, full_file@, map_rva, dso_count) {
            Some(es) => r matches Ok(v) && v@.map_values(|e: LinkMapEntry| e@) == es,
            None => r matches Err(e) && e is Serialize,
        },
{
    if map_rva == INVALID_MD_RVA {
        let v: Vec<LinkMapEntry> = Vec::new();
        assert(v@.map_values(|e: LinkMapEntry| e@) =~= Seq::<LinkMapModel>::empty());
        return Ok(v);
    }
    let entry_size = if is64 {
        std::mem::size_of::<LINK_MAP_64>()
    } else {
        std::mem::size_of::<LINK_MAP_32>()
    };
    let ghost stride = entry_size as int;
    let ghost count = dso_count as int;
    let ghost rva = map_rva as int;
    let ghost total = link_maps_from(is64, full_file@, rva, count, stride, 0);
    let flen = full_file.len();
    let n = dso_count as usize;
    let mut entries: Vec<LinkMapEntry> = Vec::new();
    let mut i: usize = 0;
    let mut done = false;
    while i < n && !done
        invariant
            i <= n,
            n == count,
            count == dso_count as int,
            stride == entry_size,
            map_rva != INVALID_MD_RVA,
            stride == (if is64 {
                size_of::<LINK_MAP_64>()
            } else {
                size_of::<LINK_MAP_32>()
            }) as int,
            rva == map_rva,
            flen == full_file@.len(),
            total == link_maps_from(is64, full_file@, rva, count, stride, 0),
            i > 0 ==> rva + i * stride <= flen,
            done ==> total == Some(entries@.map_values(|e: LinkMapEntry| e@)),
            !done ==> joins(
                total,
                entries@.map_values(|e: LinkMapEntry| e@),
                link_maps_from(is64, full_file@, rva, count, stride, i as int),
            ),
        decreases n - i + (if done {
            0int
        } else {
            1int
        }),
    {
        assert(i * stride <= usize::MAX) by {
            if i > 0 {
                assert(rva >= 0);
            } else {
                assert(i * stride == 0);
            }
        }
        let prod = i * entry_size;
        let off = match (map_rva as usize).checked_add(prod) {
            Some(o) => o,
            None => {
                done = true;
                assert(entries@.map_values(|e: LinkMapEntry| e@) + Seq::<LinkMapModel>::empty()
                    =~= entries@.map_values(|e: LinkMapEntry| e@));
                continue;
            },
        };
        if entry_size > flen || off > flen - entry_size {
            done = true;
            assert(entries@.map_values(|e: LinkMapEntry| e@) + Seq::<LinkMapModel>::empty()
                =~= entries@.map_values(|e: LinkMapEntry| e@));
            continue;
        }
        let ghost before = entries@.map_values(|e: LinkMapEntry| e@);
        assert(off == rva + i * stride);
        assert(off + stride <= flen);
        let entry = if is64 {
            match pread_link_map_64(full_file, off) {
                Ok(e) => {
                    let name = match read_md_ascii_string(full_file, e.1) {
                        Some(s) => s,
                        None => String::new(),
                    };
                    LinkMapEntry { addr: e.0, ld: e.2, name }
                },
                Err(msg) => {
                    assert(link_maps_from(is64, full_file@, rva, count, stride, i as int) is None);
                    return Err(Md2CoreError::Serialize(msg));
                },
            }
        } else {
            match pread_link_map_32(full_file, off) {
                Ok(e) => {
                    let name = match read_md_ascii_string(full_file, e.1) {
                        Some(s) => s,
                        None => String::new(),
                    };
                    LinkMapEntry { addr: e.0 as u64, ld: e.2 as u64, name }
                },
                Err(msg) => {
                    assert(link_maps_from(is64, full_file@, rva, count, stride, i as int) is None);
                    return Err(Md2CoreError::Serialize(msg));
                },
            }
        };
        let ghost m = entry@;
        assert(link_maps_from(is64, full_file@, rva, count, stride, i as int) == match link_maps_from(
            is64,
            full_file@,
            rva,
            count,
            stride,
            i + 1,
        ) {
            None => None,
            Some(rest) => Some(seq![m] + rest),
        });
        entries.push(entry);
        proof {
            match link_maps_from(is64, full_file@, rva, count, stride, i + 1) {
                Some(rest) => {
                    assert(before + (seq![m] + rest) =~= before.push(m) + rest);
                },
                None => {},
            }
        }
        assert(entries@.map_values(|e: LinkMapEntry| e@) =~= before.push(entry@));
        assert((i + 1) * stride == i * stride + stride) by (nonlinear_arith);
        i = i + 1;
    }
    Ok(entries)
}

/// The DSO debug data of an `MD_LINUX_DSO_DEBUG` stream: with the stream
/// shorter than the header, the empty record; otherwise the header's fields,
/// the link map it points at and the `_DYNAMIC` bytes after the header. `None`
/// when a structure cannot be read.
pub open spec fn dso_debug_spec(is64: bool, bytes: Seq<u8>, file: Seq<u8>) -> Option<DsoModel> {
    let header_size = if is64 {
        size_of::<DSO_DEBUG_64>()
    } else {
        size_of::<DSO_DEBUG_32>()
    };
    if bytes.len() < header_size {
        Some(
            DsoModel {
                version: 0,
                brk: 0,
                ldbase: 0,
                dynamic: 0,
                link_map: Seq::empty(),
                dynamic_data: Seq::empty(),
            },
        )
    } else if bytes.len() < (if is64 {
        36int
    } else {
        24int
    }) {
        None
    } else {
        let map_rva = from_le32(bytes, 4);
        let dso_count = from_le32(bytes, 8);
        match link_map_spec(is64, file, map_rva, dso_count) {
            None => None,
            Some(link_map) => Some(
                DsoModel {
                    version: from_le32(bytes, 0),
                    brk: if is64 {
                        from_le64(bytes, 12)
                    } else {
                        from_le32(bytes, 12) as u64
                    },
                    ldbase: if is64 {
                        from_le64(bytes, 20)
                    } else {
                        from_le32(bytes, 16) as u64
                    },
                    dynamic: if is64 {
                        from_le64(bytes, 28)
                    } else {
                        from_le32(bytes, 20) as u64
                    },
                    link_map,
                    dynamic_data: bytes.subrange(header_size as int, bytes.len() as int),
                },
            ),
        }
    }
}

/// The bytes of `b` from `start` on.
fn tail_bytes(b: &[u8], start: usize) -> (r: Vec<u8>)
    requires
        start <= b@.len(),
    ensures
        r@ == b@.subrange(start as int, b@.len() as int),
{
    let mut out: Vec<u8> = Vec::new();
    let mut k: usize = start;
    while k < b.len()
        invariant
            start <= k <= b@.len(),
            out@ == b@.subrange(start as int, k as int),
        decreases b@.len() - k,
    {
        out.push(b[k]);
        k = k + 1;
        assert(out@ =~= b@.subrange(start as int, k as int));
    }
    out
}

/// Parses an `MD_LINUX_DSO_DEBUG` stream whose layout follows the dump's
/// pointer width (see [`dso_debug_spec`]); a structure that cannot be read
/// fails with `Serialize`.
pub fn parse_dso_debug(arch: Architecture, bytes: &[u8], full_file: &[u8]) -> (r: Result<
    DsoDebug,
    Md2CoreError,
>)
    ensures
        match dso_debug_spec(arch.spec_is_64bit(), bytes@, full_file@) {
            Some(d) => r matches Ok(v) && v@ == d,
            None => r matches Err(e) && e is Serialize,
        },
{
    let is64 = arch.is_64bit();
    let header_size = if is64 {
        std::mem::size_of::<DSO_DEBUG_64>()
    } else {
        std::mem::size_of::<DSO_DEBUG_32>()
    };
    if bytes.len() < header_size {
        let d = DsoDebug::empty();
        assert(d@.link_map =~= Seq::<LinkMapModel>::empty());
        assert(d@.dynamic_data =~= Seq::<u8>::empty());
        return Ok(d);
    }
    let (version, map, dso_count, brk, ldbase, dynamic) = if is64 {
        match pread_dso_debug_64(bytes) {
            Ok(h) => h,
            Err(msg) => {
                return Err(Md2CoreError::Serialize(msg));
            },
        }
    } else {
        match pread_dso_debug_32(bytes) {
            Ok(h) => (h.0, h.1, h.2, h.3 as u64, h.4 as u64, h.5 as u64),
            Err(msg) => {
                return Err(Md2CoreError::Serialize(msg));
            },
        }
    };
    let dynamic_data = tail_bytes(bytes, header_size);
    let link_map = match read_link_map(is64, full_file, map, dso_count) {
        Ok(v) => v,
        Err(e) => {
            return Err(e);
        },
    };
    Ok(DsoDebug { version, brk, ldbase, dynamic, link_map, dynamic_data })
}

// --- the streams --------------------------------------------------------------------

/// The exception record of a minidump.
pub struct ExceptionInfo {
    /// Id of the crashing thread.
    pub thread_id: u32,
    /// The exception code (the signal number on Linux).
    pub exception_code: u32,
    /// CPU context at the exception, if it could be read.
    pub context: Option<CpuContext>,
}

/// The streams of a minidump that the conversion reads.
pub struct MinidumpStreams {
    /// CPU and system of the system info stream, or the error reading it.
    pub system_info: Result<(Cpu, Os), minidump::Error>,
    /// Entries of the typed `MD_LINUX_MAPS` stream, when it could be read.
    pub linux_maps: Option<Vec<LinuxMapEntry>>,
    /// The raw `MD_LINUX_AUXV` stream, `None` when absent, or the error reading it.
    pub auxv: Result<Option<Vec<u8>>, minidump::Error>,
    /// The raw `MD_LINUX_CMD_LINE` stream, `None` when absent, or the error reading it.
    pub cmdline: Result<Option<Vec<u8>>, minidump::Error>,
    /// The threads, with their stacks and contexts, when the list could be read.
    pub threads: Option<Vec<ThreadSnapshot>>,
    /// The modules, when the list could be read.
    pub modules: Option<Vec<ModuleInfo>>,
    /// The exception record, when present.
    pub exception: Option<ExceptionInfo>,
    /// The raw `MD_LINUX_DSO_DEBUG` stream, `None` when absent, or the error reading it.
    pub dso_debug: Result<Option<Vec<u8>>, minidump::Error>,
}

/// How a conversion fails, as far as the error can be described.
pub enum ReadFailure {
    /// This very error.
    Error(Md2CoreError),
    /// `InvalidMapsLine` carrying this line.
    MapsLine(Seq<char>),
    /// `UnsupportedSystem` naming this system and CPU.
    Unsupported(Os, Cpu),
    /// `Serialize` carrying the text of a byte-reader error.
    Serialize,
}

/// Whether `e` is the failure `f`.
pub open spec fn fails_as(e: Md2CoreError, f: ReadFailure) -> bool {
    match f {
        ReadFailure::Error(x) => e == x,
        ReadFailure::MapsLine(l) => e matches Md2CoreError::InvalidMapsLine(s) && s@ == l,
        ReadFailure::Unsupported(os, cpu) => is_unsupported_system(e, os, cpu),
        ReadFailure::Serialize => e is Serialize,
    }
}

/// The table after inserting each mapping at its start address, in order,
/// where an address already in the table keeps its entry.
pub open spec fn insert_mappings(t: Map<u64, MappingModel>, ms: Seq<MappingModel>) -> Map<
    u64,
    MappingModel,
>
    decreases ms.len(),
{
    if ms.len() == 0 {
        t
    } else {
        let t1 = insert_mappings(t, ms.drop_last());
        if t1.contains_key(ms.last().start_address) {
            t1
        } else {
            t1.insert(ms.last().start_address, ms.last())
        }
    }
}

/// The starts of the mappings.
pub open spec fn starts(ms: Seq<MappingModel>) -> Set<u64> {
    Set::new(|a: u64| exists|i: int| 0 <= i < ms.len() && #[trigger] ms[i].start_address == a)
}

/// Inserting mappings adds their starts to the table's keys and keeps every
/// entry already in the table.
pub proof fn lemma_insert_mappings_keys(t: Map<u64, MappingModel>, ms: Seq<MappingModel>)
    ensures
        insert_mappings(t, ms).dom() == t.dom().union(starts(ms)),
        forall|k: u64| #[trigger] t.contains_key(k) ==> insert_mappings(t, ms)[k] == t[k],
    decreases ms.len(),
{
    if ms.len() > 0 {
        let d = ms.drop_last();
        lemma_insert_mappings_keys(t, d);
        assert forall|a: u64| #[trigger] starts(ms).contains(a) == (starts(d).contains(a) || a
            == ms.last().start_address) by {
            if starts(ms).contains(a) {
                let i = choose|i: int| 0 <= i < ms.len() && #[trigger] ms[i].start_address == a;
                if i < ms.len() - 1 {
                    assert(d[i] == ms[i]);
                }
            }
            if starts(d).contains(a) {
                let i = choose|i: int| 0 <= i < d.len() && #[trigger] d[i].start_address == a;
                assert(ms[i] == d[i]);
            }
            if a == ms.last().start_address {
                assert(ms[ms.len() - 1].start_address == a);
            }
        }
        assert(insert_mappings(t, ms).dom() =~= t.dom().union(starts(ms)));
    } else {
        assert(t.dom().union(starts(ms)) =~= t.dom());
    }
}

/// The Linux stage with only an auxiliary-vector stream `x`: maps text there
/// fails exactly when it does not parse, and otherwise adds its mappings'
/// starts to the table's keys, keeping the existing entries, the auxiliary
/// vector and the process info; any other bytes become the auxiliary vector
/// and leave the table as it is.
pub proof fn lemma_auxv_only_stage(p: ProcessModel, s: MinidumpStreams, x: Seq<u8>)
    requires
        s.linux_maps is None,
        s.cmdline matches Ok(None),
        s.auxv matches Ok(Some(b)) && b@ == x,
    ensures
        spec_looks_like_linux_maps(x) ==> {
            &&& (linux_stage(p, s) is Err <==> auxv_maps(x) is Err)
            &&& linux_stage(p, s) matches Ok(q) ==> {
                &&& q.mappings.dom() == p.mappings.dom().union(starts(auxv_maps(x)->Ok_0))
                &&& forall|k: u64| #[trigger] p.mappings.contains_key(k) ==> q.mappings[k]
                    == p.mappings[k]
                &&& q.auxv == p.auxv
                &&& q.filename == p.filename && q.arguments == p.arguments && q.pid == p.pid
            }
        },
        !spec_looks_like_linux_maps(x) ==> linux_stage(p, s) == Ok::<ProcessModel, ReadFailure>(
            ProcessModel { auxv: x, ..p },
        ),
{
    if spec_looks_like_linux_maps(x) {
        if let Ok(ms) = auxv_maps(x) {
            lemma_insert_mappings_keys(p.mappings, ms);
        }
    }
}

/// A module whose base already starts a mapping (one of the maps stream)
/// leaves the table as it is and records the module's name as the
/// signature of its base.
pub proof fn lemma_existing_mapping_wins(
    p: ProcessModel,
    m: ModuleInfo,
    so_base_dir: Option<String>,
    mangle: bool,
)
    requires
        p.mappings.contains_key(m.base),
    ensures
        module_stage(p, m, so_base_dir, mangle).mappings == p.mappings,
        module_stage(p, m, so_base_dir, mangle).signatures == p.signatures.insert(
            m.base,
            module_signature(m, so_base_dir, mangle),
        ),
{
}

/// The modules keep every mapping already in the table.
pub proof fn lemma_modules_keep_mappings(
    p: ProcessModel,
    ms: Seq<ModuleInfo>,
    n: int,
    so_base_dir: Option<String>,
    mangle: bool,
)
    ensures
        forall|k: u64| #[trigger] p.mappings.contains_key(k) ==> modules_stage(
            p,
            ms,
            n,
            so_base_dir,
            mangle,
        ).mappings.contains_key(k) && modules_stage(p, ms, n, so_base_dir, mangle).mappings[k]
            == p.mappings[k],
    decreases n,
{
    if n > 0 {
        lemma_modules_keep_mappings(p, ms, n - 1, so_base_dir, mangle);
    }
}

/// The mappings of maps text found in the auxiliary-vector stream.
pub open spec fn auxv_maps(b: Seq<u8>) -> Result<Seq<MappingModel>, ReadFailure> {
    if !valid_utf8(b) {
        Err(ReadFailure::Error(Md2CoreError::InvalidUtf8 { stream: "MD_LINUX_MAPS" }))
    } else {
        match parse_text(decode_utf8(b)) {
            Ok(ms) => Ok(ms),
            Err(MapsError::Line(l)) => Err(ReadFailure::MapsLine(l)),
            Err(MapsError::Range(a, e)) => Err(
                ReadFailure::Error(Md2CoreError::InvalidAddressRange { start: a, end: e }),
            ),
        }
    }
}

/// The Linux streams: the file-backed entries of `MD_LINUX_MAPS`; then
/// `MD_LINUX_AUXV`, parsed as mappings when it holds maps text, else kept as
/// the auxiliary vector; then `MD_LINUX_CMD_LINE`, which sets
/// `pr_fname`/`pr_psargs`.
pub open spec fn linux_stage(p: ProcessModel, s: MinidumpStreams) -> Result<ProcessModel, ReadFailure> {
    let maps = match s.linux_maps {
        None => Ok(p),
        Some(es) => match entries_mappings(es@) {
            Err(e) => Err(ReadFailure::Error(e)),
            Ok(ms) => Ok(ProcessModel { mappings: insert_mappings(p.mappings, ms), ..p }),
        },
    };
    match maps {
        Err(f) => Err(f),
        Ok(p1) => {
            let aux = match s.auxv {
                Err(e) => Err(ReadFailure::Error(Md2CoreError::MinidumpRead(e))),
                Ok(None) => Ok(p1),
                Ok(Some(b)) => if spec_looks_like_linux_maps(b@) {
                    match auxv_maps(b@) {
                        Err(f) => Err(f),
                        Ok(ms) => Ok(ProcessModel { mappings: insert_mappings(p1.mappings, ms), ..p1 }),
                    }
                } else {
                    Ok(ProcessModel { auxv: b@, ..p1 })
                },
            };
            match aux {
                Err(f) => Err(f),
                Ok(p2) => match s.cmdline {
                    Err(e) => Err(ReadFailure::Error(Md2CoreError::MinidumpRead(e))),
                    Ok(None) => Ok(p2),
                    Ok(Some(c)) => Ok(with_cmdline(p2, c@)),
                },
            }
        },
    }
}

/// The model after the threads are appended.
pub open spec fn threads_stage(p: ProcessModel, threads: Option<Vec<ThreadSnapshot>>) -> ProcessModel {
    match threads {
        None => p,
        Some(ts) => ProcessModel { threads: p.threads + ts@, ..p },
    }
}

/// The model after one module: a read-only mapping with the module's name
/// over its image unless one starts at its base already (and only for a
/// non-empty image), and the name as the signature of its base.
pub open spec fn module_stage(p: ProcessModel, m: ModuleInfo, so_base_dir: Option<String>, mangle: bool) -> ProcessModel {
    let name = module_signature(m, so_base_dir, mangle);
    let mappings = if m.size > 0 && !p.mappings.contains_key(m.base) {
        p.mappings.insert(
            m.base,
            MappingModel {
                start_address: m.base,
                end_address: (m.base + m.size) as u64,
                offset: 0,
                permissions: MappingPermissions::spec_new(true, false, false),
                filename: Some(name),
                data: Seq::empty(),
            },
        )
    } else {
        p.mappings
    };
    ProcessModel { mappings, signatures: p.signatures.insert(m.base, name), ..p }
}

/// The model after the first `n` modules.
pub open spec fn modules_stage(
    p: ProcessModel,
    ms: Seq<ModuleInfo>,
    n: int,
    so_base_dir: Option<String>,
    mangle: bool,
) -> ProcessModel
    decreases n,
{
    if n <= 0 {
        p
    } else {
        module_stage(modules_stage(p, ms, n - 1, so_base_dir, mangle), ms[n - 1], so_base_dir, mangle)
    }
}

/// The model after the exception record: the crashing thread, the signal
/// (the code's bits as a signed number) and the exception's context.
pub open spec fn exception_stage(p: ProcessModel, x: Option<ExceptionInfo>) -> ProcessModel {
    match x {
        None => p,
        Some(x) => ProcessModel {
            crashing_tid: Some(x.thread_id),
            fatal_signal: x.exception_code as i32,
            exception_context: x.context,
            ..p
        },
    }
}

/// Whether every module's image ends within 64-bit addresses.
pub open spec fn modules_fit(modules: Option<Vec<ModuleInfo>>) -> bool {
    modules matches Some(ms) ==> forall|i: int|
        0 <= i < ms@.len() ==> #[trigger] ms@[i].base + ms@[i].size <= u64::MAX
}

/// The process read from the streams, or how reading fails: the system info
/// must name a supported system; then the Linux streams, threads, modules,
/// exception record and DSO debug data, in that order.
pub open spec fn read_spec(s: MinidumpStreams, file: Seq<u8>, options: ConvertOptions) -> Result<
    ProcessModel,
    ReadFailure,
> {
    match s.system_info {
        Err(e) => Err(ReadFailure::Error(Md2CoreError::MinidumpRead(e))),
        Ok((cpu, os)) => match supported_architecture(cpu, os) {
            None => Err(ReadFailure::Unsupported(os, cpu)),
            Some(arch) => match linux_stage(new_process_model(arch), s) {
                Err(f) => Err(f),
                Ok(p1) => {
                    let p2 = threads_stage(p1, s.threads);
                    let p3 = match s.modules {
                        None => p2,
                        Some(ms) => modules_stage(
                            p2,
                            ms@,
                            ms@.len() as int,
                            options.so_base_dir,
                            options.mangle_sonames,
                        ),
                    };
                    let p4 = exception_stage(p3, s.exception);
                    match s.dso_debug {
                        Err(e) => Err(ReadFailure::Error(Md2CoreError::MinidumpRead(e))),
                        Ok(None) => Ok(p4),
                        Ok(Some(b)) => match dso_debug_spec(arch.spec_is_64bit(), b@, file) {
                            None => Err(ReadFailure::Serialize),
                            Some(d) => Ok(ProcessModel { dso_debug: d, ..p4 }),
                        },
                    }
                },
            },
        },
    }
}

/// The Linux stage changes only the mapping table, the auxiliary vector and
/// the command-line fields.
proof fn lemma_linux_stage_keeps(p: ProcessModel, s: MinidumpStreams)
    ensures
        linux_stage(p, s) matches Ok(q) ==> {
            &&& q.architecture == p.architecture
            &&& q.threads == p.threads
            &&& q.pid == p.pid
            &&& q.crashing_tid == p.crashing_tid
            &&& q.exception_context == p.exception_context
            &&& q.fatal_signal == p.fatal_signal
            &&& q.dso_debug == p.dso_debug
            &&& q.signatures == p.signatures
        },
{
}

/// The modules change only the mapping table and the signatures.
proof fn lemma_modules_stage_keeps(
    p: ProcessModel,
    ms: Seq<ModuleInfo>,
    n: int,
    so_base_dir: Option<String>,
    mangle: bool,
)
    ensures
        ({
            let q = modules_stage(p, ms, n, so_base_dir, mangle);
            &&& q.architecture == p.architecture
            &&& q.threads == p.threads
            &&& q.auxv == p.auxv
            &&& q.crashing_tid == p.crashing_tid
            &&& q.exception_context == p.exception_context
            &&& q.fatal_signal == p.fatal_signal
            &&& q.dso_debug == p.dso_debug
        }),
    decreases n,
{
    if n > 0 {
        lemma_modules_stage_keeps(p, ms, n - 1, so_base_dir, mangle);
    }
}

/// What a successful read takes from the streams: the architecture of the
/// system info's CPU and OS; the threads of the thread list, in order; the
/// crashing thread, the fatal signal and the exception context from the
/// exception record (none, 0 and none without one); the auxiliary vector
/// from its stream when that does not hold maps text.
pub proof fn lemma_read_outcome(s: MinidumpStreams, file: Seq<u8>, options: ConvertOptions)
    requires
        read_spec(s, file, options) is Ok,
    ensures
        ({
            let m = read_spec(s, file, options)->Ok_0;
            &&& s.system_info matches Ok((cpu, os)) && supported_architecture(cpu, os) == Some(
                m.architecture,
            )
            &&& m.threads == match s.threads {
                Some(ts) => ts@,
                None => Seq::empty(),
            }
            &&& match s.exception {
                Some(x) => {
                    &&& m.crashing_tid == Some(x.thread_id)
                    &&& m.fatal_signal == x.exception_code as i32
                    &&& m.exception_context == x.context
                },
                None => {
                    &&& m.crashing_tid is None
                    &&& m.fatal_signal == 0
                    &&& m.exception_context is None
                },
            }
            &&& s.auxv matches Ok(Some(b)) ==> (!spec_looks_like_linux_maps(b@) ==> m.auxv == b@)
        }),
{
    if let Ok((cpu, os)) = s.system_info {
        if let Some(arch) = supported_architecture(cpu, os) {
            let p0 = new_process_model(arch);
            lemma_linux_stage_keeps(p0, s);
            if let Ok(p1) = linux_stage(p0, s) {
                let p2 = threads_stage(p1, s.threads);
                assert(p2.threads =~= match s.threads {
                    Some(ts) => ts@,
                    None => Seq::empty(),
                });
                if let Some(ms) = s.modules {
                    lemma_modules_stage_keeps(
                        p2,
                        ms@,
                        ms@.len() as int,
                        options.so_base_dir,
                        options.mangle_sonames,
                    );
                }
            }
        }
    }
}

/// Inserts each mapping at its start address, in order, keeping entries
/// already present.
fn insert_all(process: &mut CrashedProcess, mappings: Vec<Mapping>)
    ensures
        final(process)@ == (ProcessModel {
            mappings: insert_mappings(old(process)@.mappings, models(mappings@)),
            ..old(process)@
        }),
{
    broadcast use vstd::std_specs::vec::group_vec_axioms;

    let ghost ms = models(mappings@);
    let ghost p0 = process@;
    let iter = mappings.into_iter();
    assert(iter.remaining() == mappings@);
    for m in it: iter
        invariant
            it.seq() == mappings@,
            ms == models(mappings@),
            process@ == (ProcessModel {
                mappings: insert_mappings(p0.mappings, ms.take(it.index() as int)),
                ..p0
            }),
    {
        assert(ms.take(it.index() + 1).drop_last() =~= ms.take(it.index() as int));
        process.insert_mapping(m);
    }
    assert(ms.take(ms.len() as int) =~= ms);
}

/// Reads the Linux streams into the process (see [`linux_stage`]).
fn ingest_linux_streams(
    process: &mut CrashedProcess,
    linux_maps: Option<Vec<LinuxMapEntry>>,
    auxv: Result<Option<Vec<u8>>, minidump::Error>,
    cmdline: Result<Option<Vec<u8>>, minidump::Error>,
) -> (r: Result<(), Md2CoreError>)
    ensures
        ({
            let s = MinidumpStreams {
                system_info: Ok((Cpu::X86, Os::Linux)),
                linux_maps,
                auxv,
                cmdline,
                threads: None,
                modules: None,
                exception: None,
                dso_debug: Ok(None),
            };
            match linux_stage(old(process)@, s) {
                Ok(p) => r is Ok && final(process)@ == p,
                Err(f) => r matches Err(e) && fails_as(e, f),
            }
        }),
{
    match linux_maps {
        Some(entries) => {
            let mappings = match mappings_from_minidump_linux_maps(entries.as_slice()) {
                Ok(v) => v,
                Err(e) => {
                    return Err(e);
                },
            };
            insert_all(process, mappings);
        },
        None => {},
    }
    match auxv {
        Err(e) => {
            return Err(Md2CoreError::MinidumpRead(e));
        },
        Ok(None) => {},
        Ok(Some(bytes)) => {
            if looks_like_linux_maps(bytes.as_slice()) {
                let mappings = match parse_linux_maps(bytes.as_slice()) {
                    Ok(v) => v,
                    Err(e) => {
                        return Err(e);
                    },
                };
                insert_all(process, mappings);
            } else {
                process.set_auxv(bytes);
            }
        },
    }
    match cmdline {
        Err(e) => {
            return Err(Md2CoreError::MinidumpRead(e));
        },
        Ok(None) => {},
        Ok(Some(bytes)) => {
            process.apply_cmdline(bytes.as_slice());
        },
    }
    Ok(())
}

/// Appends the threads to the process.
fn ingest_threads(process: &mut CrashedProcess, threads: Option<Vec<ThreadSnapshot>>)
    ensures
        final(process)@ == threads_stage(old(process)@, threads),
{
    broadcast use vstd::std_specs::vec::group_vec_axioms;

    match threads {
        None => {},
        Some(ts) => {
            let ghost all = ts@;
            let ghost p0 = process@;
            let iter = ts.into_iter();
            assert(iter.remaining() == all);
            for t in it: iter
                invariant
                    it.seq() == all,
                    process@ == (ProcessModel {
                        threads: p0.threads + all.take(it.index() as int),
                        ..p0
                    }),
            {
                assert(p0.threads + all.take(it.index() + 1) =~= (p0.threads + all.take(
                    it.index() as int,
                )).push(t));
                process.add_thread(t);
            }
            assert(all.take(all.len() as int) =~= all);
        },
    }
}

/// Adds a mapping and a signature for each module (see [`module_stage`]).
fn ingest_modules(process: &mut CrashedProcess, modules: &Vec<ModuleInfo>, options: &ConvertOptions)
    requires
        forall|i: int|
            0 <= i < modules@.len() ==> #[trigger] modules@[i].base + modules@[i].size <= u64::MAX,
    ensures
        final(process)@ == modules_stage(
            old(process)@,
            modules@,
            modules@.len() as int,
            options.so_base_dir,
            options.mangle_sonames,
        ),
{
    broadcast use vstd::std_specs::btree::group_btree_axioms;

    proof {
        crate::ordered::lemma_u64_keys_ordered();
    }
    let mut i: usize = 0;
    while i < modules.len()
        invariant
            i <= modules@.len(),
            forall|k: int|
                0 <= k < modules@.len() ==> #[trigger] modules@[k].base + modules@[k].size
                    <= u64::MAX,
            process@ == modules_stage(
                old(process)@,
                modules@,
                i as int,
                options.so_base_dir,
                options.mangle_sonames,
            ),
        decreases modules@.len() - i,
    {
        let module = &modules[i];
        let base = module.base;
        let size = module.size as u64;
        let name = signature_for(module, options);
        let ghost before = process@;
        if size > 0 {
            match Mapping::new(base, base + size, MappingPermissions::read_only()) {
                Ok(mapping) => {
                    let m = mapping.with_file(name.clone(), 0);
                    assert(m@.data =~= Seq::<u8>::empty());
                    process.insert_mapping_if_absent(m);
                },
                Err(_) => {},
            }
        }
        let ghost mid = process@;
        let ghost n = name@;
        process.signatures.insert(base, name);
        assert(process@.signatures =~= mid.signatures.insert(base, n));
        i = i + 1;
    }
}

/// Records the crashing thread, signal and context of the exception record.
fn ingest_exception(process: &mut CrashedProcess, exception: Option<ExceptionInfo>)
    ensures
        final(process)@ == exception_stage(old(process)@, exception),
{
    match exception {
        None => {},
        Some(x) => {
            process.crashing_tid = Some(x.thread_id);
            process.fatal_signal = x.exception_code as i32;
            process.exception_context = x.context;
        },
    }
}

/// Converts the streams of a minidump into the process model (see
/// [`read_spec`]).
///
/// `full_file` must be the bytes the streams were read from: the link map
/// of `MD_LINUX_DSO_DEBUG` lives outside the stream.
pub fn read_process_from_minidump(
    streams: MinidumpStreams,
    full_file: &[u8],
    options: &ConvertOptions,
) -> (r: Result<CrashedProcess, Md2CoreError>)
    requires
        modules_fit(streams.modules),
    ensures
        match read_spec(streams, full_file@, *options) {
            Ok(m) => r matches Ok(p) && p@ == m,
            Err(f) => r matches Err(e) && fails_as(e, f),
        },
{
    let ghost s0 = streams;
    let MinidumpStreams {
        system_info,
        linux_maps,
        auxv,
        cmdline,
        threads,
        modules,
        exception,
        dso_debug,
    } = streams;
    let (cpu, os) = match system_info {
        Ok(x) => x,
        Err(e) => {
            return Err(Md2CoreError::MinidumpRead(e));
        },
    };
    let architecture = match architecture_from_cpu_os(cpu, os) {
        Ok(a) => a,
        Err(e) => {
            return Err(e);
        },
    };
    let mut process = CrashedProcess::new(architecture);
    match ingest_linux_streams(&mut process, linux_maps, auxv, cmdline) {
        Ok(()) => {},
        Err(e) => {
            return Err(e);
        },
    }
    ingest_threads(&mut process, threads);
    match &modules {
        Some(ms) => {
            ingest_modules(&mut process, ms, options);
        },
        None => {},
    }
    ingest_exception(&mut process, exception);
    match dso_debug {
        Err(e) => {
            return Err(Md2CoreError::MinidumpRead(e));
        },
        Ok(None) => {},
        Ok(Some(bytes)) => {
            let d = match parse_dso_debug(architecture, bytes.as_slice(), full_file) {
                Ok(d) => d,
                Err(e) => {
                    return Err(e);
                },
            };
            process.dso_debug = d;
        },
    }
    Ok(process)
}

} // verus!

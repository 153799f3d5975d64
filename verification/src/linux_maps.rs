//! Parsing of the `/proc/<pid>/maps` text format.
//!
//! The text is read as UTF-8, split into lines at `\n` (a `\r` before the
//! `\n` is dropped), and each line into fields at Unicode white space:
//! `start-end perms offset dev inode path`.
use vstd::prelude::*;
use vstd::std_specs::iter::IteratorSpec;
use vstd::string::StringSliceAdditionalSpecFns;
use vstd::utf8::{decode_utf8, valid_utf8};

use crate::error::Md2CoreError;
use crate::model::{Mapping, MappingModel, MappingPermissions};

verus! {

// --- detection ----------------------------------------------------------------

/// ASCII hex digit.
pub open spec fn is_hex_byte(b: u8) -> bool {
    (0x30 <= b <= 0x39) || (0x41 <= b <= 0x46) || (0x61 <= b <= 0x66)
}

/// Whether `data` is longer than 17 bytes and its first 17 bytes are hex
/// digits or `-` (the shape of `start-end` in a maps line).
pub open spec fn spec_looks_like_linux_maps(data: Seq<u8>) -> bool {
    data.len() > 17 && forall|i: int| 0 <= i < 17 ==> is_hex_byte(data[i]) || data[i] == 0x2d
}

/// Returns true when a byte stream looks like `/proc/<pid>/maps` text.
pub fn looks_like_linux_maps(data: &[u8]) -> (r: bool)
    ensures
        r == spec_looks_like_linux_maps(data@),
{
    if data.len() <= 17 {
        return false;
    }
    let mut i: usize = 0;
    while i < 17
        invariant
            i <= 17,
            17 < data@.len(),
            forall|j: int| 0 <= j < i ==> is_hex_byte(data@[j]) || data@[j] == 0x2d,
        decreases 17 - i,
    {
        let b = data[i];
        let hex = (0x30 <= b && b <= 0x39) || (0x41 <= b && b <= 0x46) || (0x61 <= b && b <= 0x66);
        if !hex && b != 0x2d {
            return false;
        }
        i = i + 1;
    }
    true
}

// --- characters -----------------------------------------------------------------

/// Unicode `White_Space` (the set `char::is_whitespace` tests).
pub open spec fn is_ws(c: char) -> bool {
    let u = c as u32;
    (0x09 <= u <= 0x0d) || u == 0x20 || u == 0x85 || u == 0xa0 || u == 0x1680 || (0x2000 <= u
        <= 0x200a) || u == 0x2028 || u == 0x2029 || u == 0x202f || u == 0x205f || u == 0x3000
}

fn is_whitespace(c: char) -> (r: bool)
    ensures
        r == is_ws(c),
{
    let u = c as u32;
    (0x09 <= u && u <= 0x0d) || u == 0x20 || u == 0x85 || u == 0xa0 || u == 0x1680 || (0x2000 <= u
        && u <= 0x200a) || u == 0x2028 || u == 0x2029 || u == 0x202f || u == 0x205f || u == 0x3000
}

/// Value of an ASCII hex digit.
pub open spec fn hex_digit_value(c: char) -> nat {
    if '0' <= c <= '9' {
        (c as u32 - 0x30) as nat
    } else if 'a' <= c <= 'f' {
        (c as u32 - 0x61 + 10) as nat
    } else {
        (c as u32 - 0x41 + 10) as nat
    }
}

pub open spec fn is_hex_char(c: char) -> bool {
    ('0' <= c <= '9') || ('a' <= c <= 'f') || ('A' <= c <= 'F')
}

/// Whether every character of `d` is a hex digit.
pub open spec fn all_hex(d: Seq<char>) -> bool {
    forall|i: int| 0 <= i < d.len() ==> is_hex_char(d[i])
}

/// Value of a string of hex digits.
pub open spec fn digits_value(d: Seq<char>) -> nat
    decreases d.len(),
{
    if d.len() == 0 {
        0
    } else {
        digits_value(d.drop_last()) * 16 + hex_digit_value(d.last())
    }
}

/// `u64::from_str_radix(s, 16)`: an optional `+`, then at least one hex
/// digit, with a value that fits in 64 bits.
pub open spec fn parse_hex(s: Seq<char>) -> Option<u64> {
    let d = if s.len() > 0 && s[0] == '+' {
        s.drop_first()
    } else {
        s
    };
    if d.len() == 0 || !all_hex(d) {
        None
    } else if digits_value(d) > u64::MAX {
        None
    } else {
        Some(digits_value(d) as u64)
    }
}

// --- fields and lines ---------------------------------------------------------

/// Length of the run of non-white-space characters at the start of `s`.
#[verifier::opaque]
pub open spec fn word_len(s: Seq<char>) -> int {
    if exists|i: int| 0 <= i < s.len() && is_ws(s[i]) {
        choose|i: int| 0 <= i < s.len() && is_ws(s[i]) && forall|j: int| 0 <= j < i ==> !is_ws(s[j])
    } else {
        s.len() as int
    }
}

/// The white-space separated fields of `s` (`str::split_whitespace`).
#[verifier::opaque]
pub open spec fn fields(s: Seq<char>) -> Seq<Seq<char>>
    decreases s.len(),
{
    if s.len() == 0 {
        Seq::empty()
    } else if is_ws(s[0]) {
        fields(s.drop_first())
    } else {
        let k = word_len(s);
        if 0 < k <= s.len() {
            seq![s.take(k)] + fields(s.skip(k))
        } else {
            Seq::empty()
        }
    }
}

/// Index of the first `c` in `s`, if any.
#[verifier::opaque]
pub open spec fn first_index(s: Seq<char>, c: char) -> Option<int> {
    if exists|i: int| 0 <= i < s.len() && s[i] == c {
        Some(choose|i: int| 0 <= i < s.len() && s[i] == c && forall|j: int| 0 <= j < i ==> s[j] != c)
    } else {
        None
    }
}

/// The outcome of one maps line.
pub enum LineModel {
    /// A line without an absolute file path: no mapping.
    Skip,
    /// A file-backed mapping.
    Mapped(MappingModel),
    /// A line that cannot be parsed.
    Invalid,
    /// A file-backed line whose start is not below its end.
    BadRange(u64, u64),
}

/// The start and end of a `start-end` field: the hex numbers before and
/// after its first `-`.
pub open spec fn range_values(range: Seq<char>) -> Option<(u64, u64)> {
    match first_index(range, '-') {
        None => None,
        Some(dash) => match (parse_hex(range.take(dash)), parse_hex(range.skip(dash + 1))) {
            (Some(a), Some(b)) => Some((a, b)),
            _ => None,
        },
    }
}

/// Whether a field is an absolute path.
pub open spec fn is_absolute(name: Seq<char>) -> bool {
    name.len() > 0 && name[0] == '/'
}

/// The permission set of a `rwxp` field.
pub open spec fn perms_of(field: Seq<char>) -> MappingPermissions {
    MappingPermissions::spec_new(field.contains('r'), field.contains('w'), field.contains('x'))
}

/// The outcome of parsing one line: a blank line (no fields) yields no
/// mapping; otherwise the range, permissions and offset fields must parse;
/// lines without a sixth field starting with `/` yield no mapping; the range
/// of a kept line must be non-empty.
#[verifier::opaque]
pub open spec fn parse_line(line: Seq<char>) -> LineModel {
    let f = fields(line);
    if f.len() == 0 {
        LineModel::Skip
    } else if f.len() < 3 {
        LineModel::Invalid
    } else {
        match (range_values(f[0]), parse_hex(f[2])) {
            (Some((start, end)), Some(offset)) => if f.len() < 6 || !is_absolute(f[5]) {
                LineModel::Skip
            } else if start >= end {
                LineModel::BadRange(start, end)
            } else {
                LineModel::Mapped(
                    MappingModel {
                        start_address: start,
                        end_address: end,
                        offset,
                        permissions: perms_of(f[1]),
                        filename: Some(f[5]),
                        data: Seq::empty(),
                    },
                )
            },
            _ => LineModel::Invalid,
        }
    }
}

/// What a maps line gives, read against its white-space separated fields
/// (`start-end perms offset dev inode path`): a mapping only for a line
/// whose sixth field is an absolute path, with the hex numbers before and
/// after the first `-` of the first field as its start and end (start
/// below end), the hex number of the third field as its file offset, the
/// `r`, `w` and `x` of the second field as its permissions and the sixth
/// field as its file name; a blank line gives nothing.
pub proof fn lemma_parse_line_fields(line: Seq<char>)
    ensures
        ({
            let f = fields(line);
            &&& f.len() == 0 ==> parse_line(line) is Skip
            &&& parse_line(line) matches LineModel::Mapped(m) ==> {
                &&& f.len() >= 6
                &&& f[5].len() > 0 && f[5][0] == '/'
                &&& m.filename == Some(f[5])
                &&& first_index(f[0], '-') matches Some(dash) && parse_hex(f[0].take(dash)) == Some(
                    m.start_address,
                ) && parse_hex(f[0].skip(dash + 1)) == Some(m.end_address)
                &&& m.start_address < m.end_address
                &&& parse_hex(f[2]) == Some(m.offset)
                &&& m.permissions.spec_read() == f[1].contains('r')
                &&& m.permissions.spec_write() == f[1].contains('w')
                &&& m.permissions.spec_execute() == f[1].contains('x')
                &&& m.data.len() == 0
            }
        }),
{
    reveal(parse_line);
    if let LineModel::Mapped(m) = parse_line(line) {
        let f = fields(line);
        MappingPermissions::lemma_spec_new(f[1].contains('r'), f[1].contains('w'), f[1].contains('x'));
    }
}

/// Length of the first line of `t`, without its `\n`.
pub open spec fn line_len(t: Seq<char>) -> int {
    match first_index(t, '\n') {
        Some(i) => i,
        None => t.len() as int,
    }
}

/// The first line of `t` as `str::lines` yields it (a `\r` before the `\n`
/// is dropped).
pub open spec fn first_line(t: Seq<char>) -> Seq<char> {
    let n = line_len(t);
    if n < t.len() && n > 0 && t[n - 1] == '\r' {
        t.take(n - 1)
    } else {
        t.take(n)
    }
}

/// The text after the first line.
pub open spec fn after_first_line(t: Seq<char>) -> Seq<char> {
    let n = line_len(t);
    if n < t.len() {
        t.skip(n + 1)
    } else {
        Seq::empty()
    }
}

/// Why a maps text was refused.
pub enum MapsError {
    /// A line that cannot be parsed.
    Line(Seq<char>),
    /// A file-backed line whose start is not below its end.
    Range(u64, u64),
}

/// The result for a text whose first line is `line` and whose remaining
/// lines give `rest`.
pub open spec fn combine_line(line: Seq<char>, rest: Result<Seq<MappingModel>, MapsError>) -> Result<
    Seq<MappingModel>,
    MapsError,
> {
    match parse_line(line) {
        LineModel::Invalid => Err(MapsError::Line(line)),
        LineModel::BadRange(s, e) => Err(MapsError::Range(s, e)),
        LineModel::Skip => rest,
        LineModel::Mapped(m) => match rest {
            Ok(ms) => Ok(seq![m] + ms),
            Err(e) => Err(e),
        },
    }
}

/// The mappings of every file-backed line of `t`, in order, or the error of
/// the first line that fails.
#[verifier::opaque]
pub open spec fn parse_text(t: Seq<char>) -> Result<Seq<MappingModel>, MapsError>
    decreases t.len(),
{
    if t.len() == 0 {
        Ok(Seq::empty())
    } else {
        let rest = after_first_line(t);
        if rest.len() >= t.len() {
            Ok(Seq::empty())
        } else {
            combine_line(first_line(t), parse_text(rest))
        }
    }
}

/// Empty text has no mappings.
pub proof fn lemma_parse_text_empty(t: Seq<char>)
    requires
        t.len() == 0,
    ensures
        parse_text(t) == Ok::<Seq<MappingModel>, MapsError>(Seq::empty()),
{
    reveal(parse_text);
}

/// A non-empty text is its first line followed by the rest.
pub proof fn lemma_parse_text_step(t: Seq<char>)
    requires
        t.len() > 0,
        after_first_line(t).len() < t.len(),
    ensures
        parse_text(t) == combine_line(first_line(t), parse_text(after_first_line(t))),
{
    reveal(parse_text);
}

// --- execution ---------------------------------------------------------------

/// `std::str::from_utf8`: the text of `data` when it is valid UTF-8.
///
/// As its documentation states, it succeeds exactly on valid UTF-8 and then
/// views the same bytes as a `str`.
#[verifier::external_body]
fn utf8_str(data: &[u8]) -> (r: Option<&str>)
    ensures
        r is Some <==> valid_utf8(data@),
        r matches Some(s) ==> s.spec_bytes() == data@,
{
    std::str::from_utf8(data).ok()
}

/// `String::push`: appends one character.
#[verifier::external_body]
fn push_char(s: &mut String, c: char)
    ensures
        final(s)@ == old(s)@.push(c),
{
    s.push(c)
}

/// The characters of `s`.
pub(crate) fn chars_of(s: &str) -> (r: Vec<char>)
    ensures
        r@ == s@,
{
    broadcast use vstd::string::group_string_axioms;

    let mut v: Vec<char> = Vec::new();
    let iter = s.chars();
    assert(iter.remaining() == s@);
    for c in it: iter
        invariant
            it.seq() == s@,
            v@ == s@.take(it.index() as int),
    {
        v.push(c);
        assert(v@ =~= s@.take(it.index() + 1));
    }
    assert(s@.take(s@.len() as int) =~= s@);
    v
}

/// A string holding the characters `cs`.
pub fn string_of(cs: &[char]) -> (r: String)
    ensures
        r@ == cs@,
{
    let mut out = String::new();
    let mut i: usize = 0;
    while i < cs.len()
        invariant
            i <= cs@.len(),
            out@ == cs@.take(i as int),
        decreases cs@.len() - i,
    {
        push_char(&mut out, cs[i]);
        i = i + 1;
        assert(out@ =~= cs@.take(i as int));
    }
    assert(cs@.take(cs@.len() as int) =~= cs@);
    out
}

/// The characters of `s` in `start..end`.
fn char_range(s: &[char], start: usize, end: usize) -> (r: &[char])
    requires
        start <= end <= s@.len(),
    ensures
        r@ == s@.subrange(start as int, end as int),
{
    let (head, _) = s.split_at(end);
    let (_, mid) = head.split_at(start);
    assert(mid@ =~= s@.subrange(start as int, end as int));
    mid
}

/// Index of the first `c` in `s`, or its length when there is none.
fn find_char(s: &[char], c: char) -> (r: usize)
    ensures
        r <= s@.len(),
        r < s@.len() ==> first_index(s@, c) == Some(r as int),
        r == s@.len() ==> first_index(s@, c) is None,
{
    let mut i: usize = 0;
    while i < s.len() && s[i] != c
        invariant
            i <= s@.len(),
            forall|j: int| 0 <= j < i ==> s@[j] != c,
        decreases s@.len() - i,
    {
        i = i + 1;
    }
    reveal(first_index);
    if i < s.len() {
        assert(first_index(s@, c) == Some(i as int)) by {
            let k = choose|k: int| 0 <= k < s@.len() && s@[k] == c && forall|j: int| 0 <= j < k ==> s@[j] != c;
            assert(s@[i as int] == c);
            if k < i {
            } else if k > i {
            }
        }
    }
    i
}

/// Whether `s` holds `c`.
fn has_char(s: &[char], c: char) -> (r: bool)
    ensures
        r == s@.contains(c),
{
    let mut i: usize = 0;
    while i < s.len()
        invariant
            i <= s@.len(),
            forall|j: int| 0 <= j < i ==> s@[j] != c,
        decreases s@.len() - i,
    {
        if s[i] == c {
            assert(s@[i as int] == c);
            return true;
        }
        i = i + 1;
    }
    false
}

/// A run of `k` non-white-space characters ended by white space or the end
/// of `s` is its first word.
proof fn lemma_word_len(s: Seq<char>, k: int)
    requires
        0 <= k <= s.len(),
        forall|j: int| 0 <= j < k ==> !is_ws(s[j]),
        k == s.len() || is_ws(s[k]),
    ensures
        word_len(s) == k,
{
    reveal(word_len);
    if k < s.len() {
        let c = choose|i: int| 0 <= i < s.len() && is_ws(s[i]) && forall|j: int| 0 <= j < i ==> !is_ws(s[j]);
        if c < k {
        } else if c > k {
        }
    }
}

/// The fields named by `spans`.
pub open spec fn span_fields(line: Seq<char>, spans: Seq<(usize, usize)>) -> Seq<Seq<char>> {
    Seq::new(spans.len(), |k: int| line.subrange(spans[k].0 as int, spans[k].1 as int))
}

/// End of the run of non-white-space characters of `line` from `i`.
fn word_end(line: &[char], i: usize) -> (r: usize)
    requires
        i <= line@.len(),
    ensures
        i <= r <= line@.len(),
        forall|x: int| i <= x < r ==> !is_ws(line@[x]),
        r == line@.len() || is_ws(line@[r as int]),
{
    let mut j: usize = i;
    while j < line.len() && !is_whitespace(line[j])
        invariant
            i <= j <= line@.len(),
            forall|x: int| i <= x < j ==> !is_ws(line@[x]),
        decreases line@.len() - j,
    {
        j = j + 1;
    }
    j
}

/// Splitting off the first word of a suffix.
proof fn lemma_fields_step(line: Seq<char>, i: int, j: int)
    requires
        0 <= i < j <= line.len(),
        forall|x: int| i <= x < j ==> !is_ws(line[x]),
        j == line.len() || is_ws(line[j]),
    ensures
        fields(line.skip(i)) == seq![line.subrange(i, j)] + fields(line.skip(j)),
{
    reveal(fields);
    let t = line.skip(i);
    lemma_word_len(t, j - i);
    assert(t.take(j - i) =~= line.subrange(i, j));
    assert(t.skip(j - i) =~= line.skip(j));
}

/// Skipping a white-space character.
proof fn lemma_fields_skip_ws(line: Seq<char>, i: int)
    requires
        0 <= i < line.len(),
        is_ws(line[i]),
    ensures
        fields(line.skip(i)) == fields(line.skip(i + 1)),
{
    reveal(fields);
    assert(line.skip(i).drop_first() =~= line.skip(i + 1));
}

/// No fields in empty text.
proof fn lemma_fields_empty(s: Seq<char>)
    requires
        s.len() == 0,
    ensures
        fields(s) == Seq::<Seq<char>>::empty(),
{
    reveal(fields);
}

/// Start and end of each white-space separated field of `line`.
fn split_fields(line: &[char]) -> (r: Vec<(usize, usize)>)
    ensures
        forall|k: int| 0 <= k < r@.len() ==> (#[trigger] r@[k]).0 <= r@[k].1 <= line@.len(),
        span_fields(line@, r@) == fields(line@),
{
    let mut spans: Vec<(usize, usize)> = Vec::new();
    let mut i: usize = 0;
    let n = line.len();
    assert(line@.skip(0) =~= line@);
    assert(span_fields(line@, spans@) =~= Seq::<Seq<char>>::empty());
    while i < n
        invariant
            i <= n,
            n == line@.len(),
            forall|k: int| 0 <= k < spans@.len() ==> (#[trigger] spans@[k]).0 <= spans@[k].1 <= n,
            fields(line@) == span_fields(line@, spans@) + fields(line@.skip(i as int)),
        decreases n - i,
    {
        if is_whitespace(line[i]) {
            proof {
                lemma_fields_skip_ws(line@, i as int);
            }
            i = i + 1;
        } else {
            let j = word_end(line, i);
            proof {
                lemma_fields_step(line@, i as int, j as int);
            }
            let ghost before = span_fields(line@, spans@);
            spans.push((i, j));
            assert(span_fields(line@, spans@) =~= before.push(line@.subrange(i as int, j as int)));
            assert(before + (seq![line@.subrange(i as int, j as int)] + fields(line@.skip(j as int)))
                =~= before.push(line@.subrange(i as int, j as int)) + fields(line@.skip(j as int)));
            i = j;
        }
    }
    assert(line@.skip(n as int) =~= Seq::<char>::empty());
    proof {
        lemma_fields_empty(line@.skip(n as int));
    }
    assert(fields(line@) =~= span_fields(line@, spans@));
    spans
}

/// A prefix of a digit string has a value no larger than the whole.
proof fn lemma_digits_prefix(d: Seq<char>, i: int)
    requires
        0 <= i <= d.len(),
    ensures
        digits_value(d.take(i)) <= digits_value(d),
    decreases d.len(),
{
    if i == d.len() {
        assert(d.take(i) =~= d);
    } else {
        lemma_digits_prefix(d.drop_last(), i);
        assert(d.drop_last().take(i) =~= d.take(i));
    }
}

fn is_hex_digit_char(c: char) -> (r: bool)
    ensures
        r == is_hex_char(c),
{
    ('0' <= c && c <= '9') || ('a' <= c && c <= 'f') || ('A' <= c && c <= 'F')
}

fn hex_digit(c: char) -> (r: u64)
    requires
        is_hex_char(c),
    ensures
        r == hex_digit_value(c),
        r < 16,
{
    let u = c as u32;
    if '0' <= c && c <= '9' {
        (u - 0x30) as u64
    } else if 'a' <= c && c <= 'f' {
        (u - 0x61 + 10) as u64
    } else {
        (u - 0x41 + 10) as u64
    }
}

/// `u64::from_str_radix(s, 16)`.
fn parse_hex_chars(s: &[char]) -> (r: Option<u64>)
    ensures
        r == parse_hex(s@),
{
    let d = if s.len() > 0 && s[0] == '+' {
        char_range(s, 1, s.len())
    } else {
        s
    };
    if s.len() > 0 && s[0] == '+' {
        assert(d@ =~= s@.drop_first());
    } else {
        assert(d@ =~= s@);
    }
    if d.len() == 0 {
        return None;
    }
    let mut i: usize = 0;
    while i < d.len()
        invariant
            i <= d@.len(),
            d@ == (if s@.len() > 0 && s@[0] == '+' {
                s@.drop_first()
            } else {
                s@
            }),
            forall|j: int| 0 <= j < i ==> is_hex_char(d@[j]),
        decreases d@.len() - i,
    {
        if !is_hex_digit_char(d[i]) {
            assert(!is_hex_char(d@[i as int]));
            assert(!all_hex(d@));
            return None;
        }
        i = i + 1;
    }
    let mut v: u64 = 0;
    let mut k: usize = 0;
    while k < d.len()
        invariant
            k <= d@.len(),
            d@ == (if s@.len() > 0 && s@[0] == '+' {
                s@.drop_first()
            } else {
                s@
            }),
            forall|j: int| 0 <= j < d@.len() ==> is_hex_char(d@[j]),
            v == digits_value(d@.take(k as int)),
        decreases d@.len() - k,
    {
        assert(d@.take(k + 1).drop_last() =~= d@.take(k as int));
        assert(d@.take(k + 1).last() == d@[k as int]);
        let h = hex_digit(d[k]);
        let next = match v.checked_mul(16) {
            Some(x) => x.checked_add(h),
            None => None,
        };
        match next {
            Some(x) => {
                v = x;
            },
            None => {
                proof {
                    lemma_digits_prefix(d@, k + 1);
                }
                return None;
            },
        }
        k = k + 1;
    }
    assert(d@.take(d@.len() as int) =~= d@);
    Some(v)
}

/// The start and end of a `start-end` field.
fn parse_range(range: &[char]) -> (r: Option<(u64, u64)>)
    ensures
        r == range_values(range@),
{
    let dash = find_char(range, '-');
    if dash == range.len() {
        return None;
    }
    let start = parse_hex_chars(char_range(range, 0, dash));
    let end = parse_hex_chars(char_range(range, dash + 1, range.len()));
    assert(range@.subrange(0, dash as int) =~= range@.take(dash as int));
    assert(range@.subrange(dash + 1, range@.len() as int) =~= range@.skip(dash + 1));
    match (start, end) {
        (Some(a), Some(b)) => Some((a, b)),
        _ => None,
    }
}

/// The error of an unparsable line.
fn invalid_line(line: &[char]) -> (r: Md2CoreError)
    ensures
        r matches Md2CoreError::InvalidMapsLine(s) && s@ == line@,
{
    Md2CoreError::InvalidMapsLine(string_of(line))
}

/// The mapping of one maps line, `None` for a line without an absolute
/// file path, or the line's error.
fn parse_maps_line(line: &[char]) -> (r: Result<Option<Mapping>, Md2CoreError>)
    ensures
        match parse_line(line@) {
            LineModel::Invalid => r matches Err(e) && e matches Md2CoreError::InvalidMapsLine(s)
                && s@ == line@,
            LineModel::BadRange(a, b) => r matches Err(e) && e == (Md2CoreError::InvalidAddressRange {
                start: a,
                end: b,
            }),
            LineModel::Skip => r matches Ok(None),
            LineModel::Mapped(m) => r matches Ok(Some(x)) && x@ == m,
        },
{
    reveal(parse_line);
    let spans = split_fields(line);
    let ghost f = fields(line@);
    if spans.len() == 0 {
        return Ok(None);
    }
    if spans.len() < 3 {
        return Err(invalid_line(line));
    }
    let range = char_range(line, spans[0].0, spans[0].1);
    let perms = char_range(line, spans[1].0, spans[1].1);
    let offset_field = char_range(line, spans[2].0, spans[2].1);
    assert(range@ == f[0]);
    assert(perms@ == f[1]);
    assert(offset_field@ == f[2]);
    let bounds = parse_range(range);
    let offset = parse_hex_chars(offset_field);
    let (start, end, offset) = match (bounds, offset) {
        (Some((a, b)), Some(c)) => (a, b, c),
        _ => return Err(invalid_line(line)),
    };
    if spans.len() < 6 {
        return Ok(None);
    }
    let name = char_range(line, spans[5].0, spans[5].1);
    assert(name@ == f[5]);
    if name.len() == 0 || name[0] != '/' {
        return Ok(None);
    }
    let permissions = MappingPermissions::new(
        has_char(perms, 'r'),
        has_char(perms, 'w'),
        has_char(perms, 'x'),
    );
    assert(permissions == perms_of(f[1]));
    match Mapping::new(start, end, permissions) {
        Ok(mapping) => {
            let m = mapping.with_file(string_of(name), offset);
            assert(m@.data =~= Seq::<u8>::empty());
            Ok(Some(m))
        },
        Err(e) => Err(e),
    }
}

/// Where the first line of `t[p..]` ends (before a `\r\n` or `\n`), and
/// where the next line starts.
fn line_bounds(t: &[char], p: usize) -> (r: (usize, usize))
    requires
        p < t@.len(),
    ensures
        p <= r.0 <= r.1 <= t@.len(),
        p < r.1,
        after_first_line(t@.skip(p as int)).len() < t@.skip(p as int).len(),
        t@.subrange(p as int, r.0 as int) == first_line(t@.skip(p as int)),
        t@.skip(r.1 as int) == after_first_line(t@.skip(p as int)),
{
    let ghost rest = t@.skip(p as int);
    let n = t.len();
    let tail = char_range(t, p, n);
    assert(tail@ =~= rest);
    let len = find_char(tail, '\n');
    assert(line_len(rest) == len as int);
    let e = p + len;
    let line_end = if len < tail.len() && len > 0 && t[e - 1] == '\r' {
        e - 1
    } else {
        e
    };
    assert(t@.subrange(p as int, line_end as int) =~= first_line(rest));
    let next = if e < n {
        e + 1
    } else {
        n
    };
    assert(t@.skip(next as int) =~= after_first_line(rest));
    (line_end, next)
}

/// `ms` followed by the mappings of a parse result, or its error.
pub open spec fn prepend(ms: Seq<MappingModel>, r: Result<Seq<MappingModel>, MapsError>) -> Result<
    Seq<MappingModel>,
    MapsError,
> {
    match r {
        Ok(x) => Ok(ms + x),
        Err(e) => Err(e),
    }
}

/// The models of a list of mappings.
pub open spec fn models(v: Seq<Mapping>) -> Seq<MappingModel> {
    v.map_values(|m: Mapping| m@)
}

/// Parses the `/proc/<pid>/maps` lines of `data` that name an absolute file
/// path into mappings, in order.
///
/// Fails with `InvalidUtf8` when `data` is not UTF-8, with `InvalidMapsLine`
/// carrying the first line whose range, permissions or offset field is
/// missing or malformed, or with `InvalidAddressRange` for a file-backed line
/// whose start is not below its end.
pub fn parse_linux_maps(data: &[u8]) -> (r: Result<Vec<Mapping>, Md2CoreError>)
    ensures
        !valid_utf8(data@) ==> r == Err::<Vec<Mapping>, Md2CoreError>(
            Md2CoreError::InvalidUtf8 { stream: "MD_LINUX_MAPS" },
        ),
        valid_utf8(data@) ==> match parse_text(decode_utf8(data@)) {
            Ok(ms) => r matches Ok(v) && models(v@) == ms,
            Err(MapsError::Line(l)) => r matches Err(e) && e matches Md2CoreError::InvalidMapsLine(s)
                && s@ == l,
            Err(MapsError::Range(a, b)) => r matches Err(e) && e == (
            Md2CoreError::InvalidAddressRange { start: a, end: b }),
        },
{
    let text = match utf8_str(data) {
        Some(t) => t,
        None => return Err(Md2CoreError::InvalidUtf8 { stream: "MD_LINUX_MAPS" }),
    };
    proof {
        vstd::utf8::encode_utf8_decode_utf8(text@);
    }
    let t = chars_of(text);
    let ghost whole = t@;
    assert(whole == decode_utf8(data@));
    let n = t.len();
    let mut out: Vec<Mapping> = Vec::new();
    let mut p: usize = 0;
    assert(whole.skip(0) =~= whole);
    assert(models(out@) + Seq::<MappingModel>::empty() =~= Seq::<MappingModel>::empty());
    assert(prepend(models(out@), parse_text(whole)) == parse_text(whole)) by {
        match parse_text(whole) {
            Ok(x) => {
                assert(models(out@) + x =~= x);
            },
            Err(_) => {},
        }
    }
    while p < n
        invariant
            p <= n,
            n == whole.len(),
            t@ == whole,
            valid_utf8(data@),
            whole == decode_utf8(data@),
            parse_text(whole) == prepend(models(out@), parse_text(whole.skip(p as int))),
        decreases n - p,
    {
        let ghost rest = whole.skip(p as int);
        let (line_end, next) = line_bounds(t.as_slice(), p);
        let line = char_range(t.as_slice(), p, line_end);
        proof {
            lemma_parse_text_step(rest);
        }
        let ghost before = models(out@);
        match parse_maps_line(line) {
            Ok(Some(m)) => {
                out.push(m);
                assert(models(out@) =~= before.push(m@));
                proof {
                    match parse_text(whole.skip(next as int)) {
                        Ok(x) => {
                            assert(before + (seq![m@] + x) =~= before.push(m@) + x);
                        },
                        Err(_) => {},
                    }
                }
            },
            Ok(None) => {},
            Err(err) => {
                assert(parse_text(rest) is Err);
                assert(parse_text(whole) == parse_text(rest));
                return Err(err);
            },
        }
        p = next;
    }
    assert(whole.skip(n as int) =~= Seq::<char>::empty());
    proof {
        lemma_parse_text_empty(whole.skip(n as int));
    }
    assert(models(out@) + Seq::<MappingModel>::empty() =~= models(out@));
    Ok(out)
}

/// Every mapping parsed from maps text is file-backed by an absolute path,
/// covers a non-empty range and carries no captured bytes.
pub proof fn lemma_parsed_mappings_are_file_backed(t: Seq<char>)
    ensures
        parse_text(t) matches Ok(ms) ==> forall|i: int|
            0 <= i < ms.len() ==> {
                &&& (#[trigger] ms[i]).filename matches Some(name) && is_absolute(name)
                &&& ms[i].start_address < ms[i].end_address
                &&& ms[i].data.len() == 0
            },
    decreases t.len(),
{
    if t.len() > 0 {
        let rest = after_first_line(t);
        let n = line_len(t);
        reveal(first_index);
        if rest.len() < t.len() {
            lemma_parse_text_step(t);
            lemma_parsed_mappings_are_file_backed(rest);
            reveal(parse_line);
        } else {
            reveal(parse_text);
        }
    } else {
        reveal(parse_text);
    }
}

} // verus!

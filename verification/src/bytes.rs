//! Little-endian integer encoding used by every ELF structure md2core emits.
use vstd::prelude::*;

verus! {

/// Little-endian bytes of a 16-bit value.
pub open spec fn le16(v: u16) -> Seq<u8> {
    seq![(v % 0x100) as u8, (v / 0x100) as u8]
}

/// Little-endian bytes of a 32-bit value.
pub open spec fn le32(v: u32) -> Seq<u8> {
    seq![
        (v % 0x100) as u8,
        ((v / 0x100) % 0x100) as u8,
        ((v / 0x1_0000) % 0x100) as u8,
        (v / 0x100_0000) as u8,
    ]
}

/// Little-endian bytes of a 64-bit value.
pub open spec fn le64(v: u64) -> Seq<u8> {
    le32((v % 0x1_0000_0000) as u32) + le32((v / 0x1_0000_0000) as u32)
}

/// Little-endian bytes of a 128-bit value.
pub open spec fn le128(v: u128) -> Seq<u8> {
    le64((v % 0x1_0000_0000_0000_0000) as u64) + le64((v / 0x1_0000_0000_0000_0000) as u64)
}

/// Little-endian 32-bit words, one after the other.
pub open spec fn words32(s: Seq<u32>) -> Seq<u8>
    decreases s.len(),
{
    if s.len() == 0 {
        Seq::empty()
    } else {
        words32(s.drop_last()) + le32(s.last())
    }
}

/// Little-endian 64-bit words, one after the other.
pub open spec fn words64(s: Seq<u64>) -> Seq<u8>
    decreases s.len(),
{
    if s.len() == 0 {
        Seq::empty()
    } else {
        words64(s.drop_last()) + le64(s.last())
    }
}

/// Little-endian 128-bit words, one after the other.
pub open spec fn words128(s: Seq<u128>) -> Seq<u8>
    decreases s.len(),
{
    if s.len() == 0 {
        Seq::empty()
    } else {
        words128(s.drop_last()) + le128(s.last())
    }
}

/// Each 32-bit word takes four bytes.
pub proof fn lemma_words32_len(s: Seq<u32>)
    ensures
        words32(s).len() == 4 * s.len(),
    decreases s.len(),
{
    if s.len() > 0 {
        lemma_words32_len(s.drop_last());
    }
}

/// Each 64-bit word takes eight bytes.
pub proof fn lemma_words64_len(s: Seq<u64>)
    ensures
        words64(s).len() == 8 * s.len(),
    decreases s.len(),
{
    if s.len() > 0 {
        lemma_words64_len(s.drop_last());
    }
}

/// Each 128-bit word takes sixteen bytes.
pub proof fn lemma_words128_len(s: Seq<u128>)
    ensures
        words128(s).len() == 16 * s.len(),
    decreases s.len(),
{
    if s.len() > 0 {
        lemma_words128_len(s.drop_last());
    }
}

/// The value of two little-endian bytes.
pub open spec fn from_le16(b: Seq<u8>, off: int) -> u16 {
    (b[off] + 0x100 * b[off + 1]) as u16
}

/// The value of four little-endian bytes.
pub open spec fn from_le32(b: Seq<u8>, off: int) -> u32 {
    (b[off] + 0x100 * b[off + 1] + 0x1_0000 * b[off + 2] + 0x100_0000 * b[off + 3]) as u32
}

/// The value of eight little-endian bytes.
pub open spec fn from_le64(b: Seq<u8>, off: int) -> u64 {
    (from_le32(b, off) + 0x1_0000_0000 * from_le32(b, off + 4)) as u64
}

/// The value of sixteen little-endian bytes.
pub open spec fn from_le128(b: Seq<u8>, off: int) -> u128 {
    (from_le64(b, off) + 0x1_0000_0000_0000_0000 * from_le64(b, off + 8)) as u128
}

/// Two little-endian bytes read back as the value they encode.
pub proof fn lemma_le16_decode(v: u16)
    ensures
        from_le16(le16(v), 0) == v,
{
    assert((v % 0x100) + 0x100 * (v / 0x100) == v) by (bit_vector);
}

/// Four little-endian bytes read back as the value they encode.
pub proof fn lemma_le32_decode(v: u32)
    ensures
        from_le32(le32(v), 0) == v,
{
    assert((v % 0x100) + 0x100 * ((v / 0x100) % 0x100) + 0x1_0000 * ((v / 0x1_0000) % 0x100)
        + 0x100_0000 * (v / 0x100_0000) == v) by (bit_vector);
}

/// Eight little-endian bytes read back as the value they encode.
pub proof fn lemma_le64_decode(v: u64)
    ensures
        from_le64(le64(v), 0) == v,
{
    let lo = (v % 0x1_0000_0000) as u32;
    let hi = (v / 0x1_0000_0000) as u32;
    lemma_le32_decode(lo);
    lemma_le32_decode(hi);
    let b = le64(v);
    assert(from_le32(b, 0) == from_le32(le32(lo), 0));
    assert(from_le32(b, 4) == from_le32(le32(hi), 0));
    assert((v % 0x1_0000_0000) + 0x1_0000_0000 * (v / 0x1_0000_0000) == v) by (bit_vector);
}

/// A value whose two little-endian bytes stand at `off` is read back there.
pub proof fn lemma_from_le16_at(s: Seq<u8>, off: int, v: u16)
    requires
        0 <= off,
        off + 2 <= s.len(),
        s.subrange(off, off + 2) == le16(v),
    ensures
        from_le16(s, off) == v,
{
    lemma_le16_decode(v);
    assert(s[off] == s.subrange(off, off + 2)[0]);
    assert(s[off + 1] == s.subrange(off, off + 2)[1]);
}

/// A value whose four little-endian bytes stand at `off` is read back there.
pub proof fn lemma_from_le32_at(s: Seq<u8>, off: int, v: u32)
    requires
        0 <= off,
        off + 4 <= s.len(),
        s.subrange(off, off + 4) == le32(v),
    ensures
        from_le32(s, off) == v,
{
    lemma_le32_decode(v);
    let t = s.subrange(off, off + 4);
    assert(s[off] == t[0] && s[off + 1] == t[1] && s[off + 2] == t[2] && s[off + 3] == t[3]);
}

/// A value whose eight little-endian bytes stand at `off` is read back there.
pub proof fn lemma_from_le64_at(s: Seq<u8>, off: int, v: u64)
    requires
        0 <= off,
        off + 8 <= s.len(),
        s.subrange(off, off + 8) == le64(v),
    ensures
        from_le64(s, off) == v,
{
    lemma_le64_decode(v);
    let t = s.subrange(off, off + 8);
    let b = le64(v);
    assert forall|j: int| 0 <= j < 8 implies s[off + j] == b[j] by {
        assert(s[off + j] == t[j]);
    }
    assert(from_le32(s, off) == from_le32(b, 0));
    assert(from_le32(s, off + 4) == from_le32(b, 4));
}

/// Bytes appended after a value do not change it.
pub proof fn lemma_from_le16_prefix(x: Seq<u8>, y: Seq<u8>, off: int)
    requires
        0 <= off,
        off + 2 <= x.len(),
    ensures
        from_le16(x + y, off) == from_le16(x, off),
{
    assert((x + y)[off] == x[off] && (x + y)[off + 1] == x[off + 1]);
}

/// Bytes appended after a value do not change it.
pub proof fn lemma_from_le32_prefix(x: Seq<u8>, y: Seq<u8>, off: int)
    requires
        0 <= off,
        off + 4 <= x.len(),
    ensures
        from_le32(x + y, off) == from_le32(x, off),
{
    assert((x + y)[off] == x[off] && (x + y)[off + 1] == x[off + 1]);
    assert((x + y)[off + 2] == x[off + 2] && (x + y)[off + 3] == x[off + 3]);
}

/// Bytes appended after a value do not change it.
pub proof fn lemma_from_le64_prefix(x: Seq<u8>, y: Seq<u8>, off: int)
    requires
        0 <= off,
        off + 8 <= x.len(),
    ensures
        from_le64(x + y, off) == from_le64(x, off),
{
    lemma_from_le32_prefix(x, y, off);
    lemma_from_le32_prefix(x, y, off + 4);
}

/// A value appended to bytes is read back where it starts.
pub proof fn lemma_from_le16_append(x: Seq<u8>, v: u16)
    ensures
        from_le16(x + le16(v), x.len() as int) == v,
{
    let s = x + le16(v);
    assert(s.subrange(x.len() as int, x.len() + 2 as int) =~= le16(v));
    lemma_from_le16_at(s, x.len() as int, v);
}

/// A value appended to bytes is read back where it starts.
pub proof fn lemma_from_le32_append(x: Seq<u8>, v: u32)
    ensures
        from_le32(x + le32(v), x.len() as int) == v,
{
    let s = x + le32(v);
    assert(s.subrange(x.len() as int, x.len() + 4 as int) =~= le32(v));
    lemma_from_le32_at(s, x.len() as int, v);
}

/// A value appended to bytes is read back where it starts.
pub proof fn lemma_from_le64_append(x: Seq<u8>, v: u64)
    ensures
        from_le64(x + le64(v), x.len() as int) == v,
{
    let s = x + le64(v);
    assert(s.subrange(x.len() as int, x.len() + 8 as int) =~= le64(v));
    lemma_from_le64_at(s, x.len() as int, v);
}

/// A value that starts a suffix is read back where the suffix starts.
pub proof fn lemma_from_le32_suffix(x: Seq<u8>, y: Seq<u8>)
    requires
        y.len() >= 4,
    ensures
        from_le32(x + y, x.len() as int) == from_le32(y, 0),
{
    let s = x + y;
    let n = x.len() as int;
    assert(s[n] == y[0] && s[n + 1] == y[1] && s[n + 2] == y[2] && s[n + 3] == y[3]);
}

/// A value that starts a suffix is read back where the suffix starts.
pub proof fn lemma_from_le64_suffix(x: Seq<u8>, y: Seq<u8>)
    requires
        y.len() >= 8,
    ensures
        from_le64(x + y, x.len() as int) == from_le64(y, 0),
{
    let s = x + y;
    let n = x.len() as int;
    assert(s[n] == y[0] && s[n + 1] == y[1] && s[n + 2] == y[2] && s[n + 3] == y[3]);
    assert(s[n + 4] == y[4] && s[n + 5] == y[5] && s[n + 6] == y[6] && s[n + 7] == y[7]);
}

/// A value read inside a slice is the value read at the same place of the
/// whole.
pub proof fn lemma_from_le32_sub(b: Seq<u8>, o: int, len: int, off: int)
    requires
        0 <= o,
        o + len <= b.len(),
        0 <= off,
        off + 4 <= len,
    ensures
        from_le32(b, o + off) == from_le32(b.subrange(o, o + len), off),
{
    let t = b.subrange(o, o + len);
    assert(t[off] == b[o + off] && t[off + 1] == b[o + off + 1]);
    assert(t[off + 2] == b[o + off + 2] && t[off + 3] == b[o + off + 3]);
}

/// A value read inside a slice is the value read at the same place of the
/// whole.
pub proof fn lemma_from_le64_sub(b: Seq<u8>, o: int, len: int, off: int)
    requires
        0 <= o,
        o + len <= b.len(),
        0 <= off,
        off + 8 <= len,
    ensures
        from_le64(b, o + off) == from_le64(b.subrange(o, o + len), off),
{
    lemma_from_le32_sub(b, o, len, off);
    lemma_from_le32_sub(b, o, len, off + 4);
}

/// Word `k` of a sequence of 32-bit words is read back at `4 * k`.
pub proof fn lemma_words32_at(s: Seq<u32>, k: int)
    requires
        0 <= k < s.len(),
    ensures
        words32(s).len() == 4 * s.len(),
        words32(s).subrange(4 * k, 4 * k + 4) == le32(s[k]),
        from_le32(words32(s), 4 * k) == s[k],
    decreases s.len(),
{
    lemma_words32_len(s);
    lemma_words32_len(s.drop_last());
    let w = words32(s);
    let d = words32(s.drop_last());
    if k == s.len() - 1 {
        assert(w.subrange(4 * k, 4 * k + 4) =~= le32(s[k]));
    } else {
        lemma_words32_at(s.drop_last(), k);
        assert(w.subrange(4 * k, 4 * k + 4) =~= d.subrange(4 * k, 4 * k + 4));
    }
    lemma_from_le32_at(w, 4 * k, s[k]);
}

/// Word `k` of a sequence of 64-bit words is read back at `8 * k`.
pub proof fn lemma_words64_at(s: Seq<u64>, k: int)
    requires
        0 <= k < s.len(),
    ensures
        words64(s).len() == 8 * s.len(),
        words64(s).subrange(8 * k, 8 * k + 8) == le64(s[k]),
        from_le64(words64(s), 8 * k) == s[k],
    decreases s.len(),
{
    lemma_words64_len(s);
    lemma_words64_len(s.drop_last());
    let w = words64(s);
    let d = words64(s.drop_last());
    if k == s.len() - 1 {
        assert(w.subrange(8 * k, 8 * k + 8) =~= le64(s[k]));
    } else {
        lemma_words64_at(s.drop_last(), k);
        assert(w.subrange(8 * k, 8 * k + 8) =~= d.subrange(8 * k, 8 * k + 8));
    }
    lemma_from_le64_at(w, 8 * k, s[k]);
}

/// Sixteen little-endian bytes read back as the value they encode.
pub proof fn lemma_le128_decode(v: u128)
    ensures
        from_le128(le128(v), 0) == v,
{
    let lo = (v % 0x1_0000_0000_0000_0000) as u64;
    let hi = (v / 0x1_0000_0000_0000_0000) as u64;
    lemma_le64_decode(lo);
    lemma_le64_decode(hi);
    let b = le128(v);
    lemma_from_le64_prefix(le64(lo), le64(hi), 0);
    lemma_from_le64_suffix_at(le64(lo), le64(hi));
    assert((v % 0x1_0000_0000_0000_0000) + 0x1_0000_0000_0000_0000 * (v / 0x1_0000_0000_0000_0000)
        == v) by (bit_vector);
}

/// A value that starts a suffix is read back where the suffix starts.
proof fn lemma_from_le64_suffix_at(x: Seq<u8>, y: Seq<u8>)
    requires
        x.len() == 8,
        y.len() >= 8,
    ensures
        from_le64(x + y, 8) == from_le64(y, 0),
{
    let s = x + y;
    assert(s[8] == y[0] && s[9] == y[1] && s[10] == y[2] && s[11] == y[3]);
    assert(s[12] == y[4] && s[13] == y[5] && s[14] == y[6] && s[15] == y[7]);
}

/// A value whose sixteen little-endian bytes stand at `off` is read back there.
pub proof fn lemma_from_le128_at(s: Seq<u8>, off: int, v: u128)
    requires
        0 <= off,
        off + 16 <= s.len(),
        s.subrange(off, off + 16) == le128(v),
    ensures
        from_le128(s, off) == v,
{
    lemma_le128_decode(v);
    let t = s.subrange(off, off + 16);
    let b = le128(v);
    assert forall|j: int| 0 <= j < 16 implies s[off + j] == b[j] by {
        assert(s[off + j] == t[j]);
    }
    assert(from_le32(s, off) == from_le32(b, 0));
    assert(from_le32(s, off + 4) == from_le32(b, 4));
    assert(from_le32(s, off + 8) == from_le32(b, 8));
    assert(from_le32(s, off + 12) == from_le32(b, 12));
}

/// Word `k` of a sequence of 128-bit words is read back at `16 * k`.
pub proof fn lemma_words128_at(s: Seq<u128>, k: int)
    requires
        0 <= k < s.len(),
    ensures
        words128(s).len() == 16 * s.len(),
        words128(s).subrange(16 * k, 16 * k + 16) == le128(s[k]),
        from_le128(words128(s), 16 * k) == s[k],
    decreases s.len(),
{
    lemma_words128_len(s);
    lemma_words128_len(s.drop_last());
    let w = words128(s);
    let d = words128(s.drop_last());
    if k == s.len() - 1 {
        assert(w.subrange(16 * k, 16 * k + 16) =~= le128(s[k]));
    } else {
        lemma_words128_at(s.drop_last(), k);
        assert(w.subrange(16 * k, 16 * k + 16) =~= d.subrange(16 * k, 16 * k + 16));
    }
    lemma_from_le128_at(w, 16 * k, s[k]);
}

/// Appends the little-endian bytes of `v`.
pub fn push_u16(out: &mut Vec<u8>, v: u16)
    ensures
        final(out)@ == old(out)@ + le16(v),
{
    out.push((v % 0x100) as u8);
    out.push((v / 0x100) as u8);
    assert(out@ =~= old(out)@ + le16(v));
}

/// Appends the little-endian bytes of `v`.
pub fn push_u32(out: &mut Vec<u8>, v: u32)
    ensures
        final(out)@ == old(out)@ + le32(v),
{
    out.push((v % 0x100) as u8);
    out.push(((v / 0x100) % 0x100) as u8);
    out.push(((v / 0x1_0000) % 0x100) as u8);
    out.push((v / 0x100_0000) as u8);
    assert(out@ =~= old(out)@ + le32(v));
}

/// Appends the little-endian bytes of `v`.
pub fn push_u64(out: &mut Vec<u8>, v: u64)
    ensures
        final(out)@ == old(out)@ + le64(v),
{
    push_u32(out, (v % 0x1_0000_0000) as u32);
    push_u32(out, (v / 0x1_0000_0000) as u32);
    assert(out@ =~= old(out)@ + le64(v));
}

/// Appends the little-endian bytes of `v`.
pub fn push_u128(out: &mut Vec<u8>, v: u128)
    ensures
        final(out)@ == old(out)@ + le128(v),
{
    push_u64(out, (v % 0x1_0000_0000_0000_0000) as u64);
    push_u64(out, (v / 0x1_0000_0000_0000_0000) as u64);
    assert(out@ =~= old(out)@ + le128(v));
}

/// Appends each word of `vals` in little-endian order.
pub fn push_words32(out: &mut Vec<u8>, vals: &[u32])
    ensures
        final(out)@ == old(out)@ + words32(vals@),
{
    let mut i: usize = 0;
    while i < vals.len()
        invariant
            i <= vals@.len(),
            out@ == old(out)@ + words32(vals@.take(i as int)),
        decreases vals@.len() - i,
    {
        assert(vals@.take(i + 1).drop_last() =~= vals@.take(i as int));
        push_u32(out, vals[i]);
        i = i + 1;
        assert(out@ =~= old(out)@ + words32(vals@.take(i as int)));
    }
    assert(vals@.take(vals@.len() as int) =~= vals@);
}

/// Appends each word of `vals` in little-endian order.
pub fn push_words64(out: &mut Vec<u8>, vals: &[u64])
    ensures
        final(out)@ == old(out)@ + words64(vals@),
{
    let mut i: usize = 0;
    while i < vals.len()
        invariant
            i <= vals@.len(),
            out@ == old(out)@ + words64(vals@.take(i as int)),
        decreases vals@.len() - i,
    {
        assert(vals@.take(i + 1).drop_last() =~= vals@.take(i as int));
        push_u64(out, vals[i]);
        i = i + 1;
        assert(out@ =~= old(out)@ + words64(vals@.take(i as int)));
    }
    assert(vals@.take(vals@.len() as int) =~= vals@);
}

/// Appends each word of `vals` in little-endian order.
pub fn push_words128(out: &mut Vec<u8>, vals: &[u128])
    ensures
        final(out)@ == old(out)@ + words128(vals@),
{
    let mut i: usize = 0;
    while i < vals.len()
        invariant
            i <= vals@.len(),
            out@ == old(out)@ + words128(vals@.take(i as int)),
        decreases vals@.len() - i,
    {
        assert(vals@.take(i + 1).drop_last() =~= vals@.take(i as int));
        push_u128(out, vals[i]);
        i = i + 1;
        assert(out@ =~= old(out)@ + words128(vals@.take(i as int)));
    }
    assert(vals@.take(vals@.len() as int) =~= vals@);
}

/// Reads two little-endian bytes at `off`.
pub fn read_u16(b: &[u8], off: usize) -> (r: u16)
    requires
        off + 2 <= b.len(),
    ensures
        r == from_le16(b@, off as int),
{
    (b[off] as u16) + 0x100 * (b[off + 1] as u16)
}

/// Reads four little-endian bytes at `off`.
pub fn read_u32(b: &[u8], off: usize) -> (r: u32)
    requires
        off + 4 <= b.len(),
    ensures
        r == from_le32(b@, off as int),
{
    (b[off] as u32) + 0x100 * (b[off + 1] as u32) + 0x1_0000 * (b[off + 2] as u32) + 0x100_0000
        * (b[off + 3] as u32)
}

/// Reads eight little-endian bytes at `off`.
pub fn read_u64(b: &[u8], off: usize) -> (r: u64)
    requires
        off + 8 <= b.len(),
    ensures
        r == from_le64(b@, off as int),
{
    (read_u32(b, off) as u64) + 0x1_0000_0000 * (read_u32(b, off + 4) as u64)
}

/// Appends `n` zero bytes.
pub fn push_zeros(out: &mut Vec<u8>, n: usize)
    ensures
        final(out)@ == old(out)@ + Seq::new(n as nat, |_i: int| 0u8),
{
    let mut i: usize = 0;
    while i < n
        invariant
            i <= n,
            out@ == old(out)@ + Seq::new(i as nat, |_i: int| 0u8),
        decreases n - i,
    {
        out.push(0);
        i = i + 1;
        assert(out@ =~= old(out)@ + Seq::new(i as nat, |_i: int| 0u8));
    }
}

/// Appends all of `src`.
pub fn push_all(out: &mut Vec<u8>, src: &[u8])
    ensures
        final(out)@ == old(out)@ + src@,
{
    let mut i: usize = 0;
    while i < src.len()
        invariant
            i <= src@.len(),
            out@ == old(out)@ + src@.subrange(0, i as int),
        decreases src@.len() - i,
    {
        out.push(src[i]);
        i = i + 1;
        assert(out@ =~= old(out)@ + src@.subrange(0, i as int));
    }
    assert(src@.subrange(0, src@.len() as int) =~= src@);
}

} // verus!

//! Big-endian integers read from and written to byte sequences.

use vstd::prelude::*;

verus! {

/// The big-endian value of the two bytes of `s` at `i`.
pub open spec fn be16(s: Seq<u8>, i: int) -> int {
    s[i] as int * 0x100 + s[i + 1] as int
}

/// The big-endian value of the four bytes of `s` at `i`.
pub open spec fn be32(s: Seq<u8>, i: int) -> int {
    be16(s, i) * 0x1_0000 + be16(s, i + 2)
}

/// The big-endian value of the eight bytes of `s` at `i`.
pub open spec fn be64(s: Seq<u8>, i: int) -> int {
    be32(s, i) * 0x1_0000_0000 + be32(s, i + 4)
}

/// The two bytes that encode `v` in big-endian order.
pub open spec fn u16_bytes(v: u16) -> Seq<u8> {
    seq![(v / 0x100) as u8, (v % 0x100) as u8]
}

/// The four bytes that encode `v` in big-endian order.
pub open spec fn u32_bytes(v: u32) -> Seq<u8> {
    u16_bytes((v / 0x1_0000) as u16) + u16_bytes((v % 0x1_0000) as u16)
}

/// The eight bytes that encode `v` in big-endian order.
pub open spec fn u64_bytes(v: u64) -> Seq<u8> {
    u32_bytes((v / 0x1_0000_0000) as u32) + u32_bytes((v % 0x1_0000_0000) as u32)
}

/// Reads the big-endian `u16` at `i`.
pub fn read_u16_be(data: &[u8], i: usize) -> (r: u16)
    requires
        i + 2 <= data@.len(),
    ensures
        r == be16(data@, i as int),
{
    (data[i] as u16) * 0x100 + (data[i + 1] as u16)
}

/// Reads the big-endian `u32` at `i`.
pub fn read_u32_be(data: &[u8], i: usize) -> (r: u32)
    requires
        i + 4 <= data@.len(),
    ensures
        r == be32(data@, i as int),
{
    let _len = data.len();
    let hi = read_u16_be(data, i);
    let lo = read_u16_be(data, i + 2);
    (hi as u32) * 0x1_0000 + (lo as u32)
}

/// Reads the big-endian `u64` at `i`.
pub fn read_u64_be(data: &[u8], i: usize) -> (r: u64)
    requires
        i + 8 <= data@.len(),
    ensures
        r == be64(data@, i as int),
{
    let _len = data.len();
    let hi = read_u32_be(data, i);
    let lo = read_u32_be(data, i + 4);
    (hi as u64) * 0x1_0000_0000 + (lo as u64)
}

/// Appends the big-endian bytes of `v`.
pub fn push_u16_be(out: &mut Vec<u8>, v: u16)
    ensures
        final(out)@ == old(out)@ + u16_bytes(v),
{
    out.push((v / 0x100) as u8);
    out.push((v % 0x100) as u8);
}

/// Appends the big-endian bytes of `v`.
pub fn push_u32_be(out: &mut Vec<u8>, v: u32)
    ensures
        final(out)@ == old(out)@ + u32_bytes(v),
{
    push_u16_be(out, (v / 0x1_0000) as u16);
    push_u16_be(out, (v % 0x1_0000) as u16);
}

/// Appends the big-endian bytes of `v`.
pub fn push_u64_be(out: &mut Vec<u8>, v: u64)
    ensures
        final(out)@ == old(out)@ + u64_bytes(v),
{
    push_u32_be(out, (v / 0x1_0000_0000) as u32);
    push_u32_be(out, (v % 0x1_0000_0000) as u32);
}

/// Appends all of `src`.
pub fn push_slice(out: &mut Vec<u8>, src: &[u8])
    ensures
        final(out)@ == old(out)@ + src@,
{
    let mut i: usize = 0;
    while i < src.len()
        invariant
            i <= src@.len(),
            out@ == old(out)@ + src@.subrange(0, i as int),
        decreases src@.len() - i,
    {
        out.push(src[i]);
        i = i + 1;
        assert(src@.subrange(0, i as int) == src@.subrange(0, i - 1) + seq![src@[i - 1]]);
    }
    assert(src@.subrange(0, src@.len() as int) == src@);
}

/// Appends the bytes of `data` in `[start, end)`.
pub fn push_range(out: &mut Vec<u8>, data: &[u8], start: usize, end: usize)
    requires
        start <= end <= data@.len(),
    ensures
        final(out)@ == old(out)@ + data@.subrange(start as int, end as int),
{
    let mut i: usize = start;
    while i < end
        invariant
            start <= i <= end <= data@.len(),
            out@ == old(out)@ + data@.subrange(start as int, i as int),
        decreases end - i,
    {
        out.push(data[i]);
        i = i + 1;
        assert(data@.subrange(start as int, i as int) == data@.subrange(start as int, i - 1)
            + seq![data@[i - 1]]);
    }
}

/// Appends `n` zero bytes.
pub fn push_zeros(out: &mut Vec<u8>, n: usize)
    ensures
        final(out)@ == old(out)@ + Seq::new(n as nat, |k: int| 0u8),
{
    let mut i: usize = 0;
    while i < n
        invariant
            i <= n,
            out@ == old(out)@ + Seq::new(i as nat, |k: int| 0u8),
        decreases n - i,
    {
        out.push(0u8);
        i = i + 1;
        assert(Seq::new(i as nat, |k: int| 0u8) == Seq::new((i - 1) as nat, |k: int| 0u8) + seq![0u8]);
    }
}

/// Returns true when the bytes of `data` at `i` are exactly `pat`.
pub fn bytes_at(data: &[u8], i: usize, pat: &[u8]) -> (r: bool)
    requires
        i + pat@.len() <= data@.len(),
    ensures
        r == (data@.subrange(i as int, i + pat@.len()) == pat@),
{
    let _len = data.len();
    let mut k: usize = 0;
    while k < pat.len()
        invariant
            k <= pat@.len(),
            i + pat@.len() <= data@.len(),
            _len == data@.len(),
            forall|j: int| 0 <= j < k ==> data@[i + j] == pat@[j],
        decreases pat@.len() - k,
    {
        if data[i + k] != pat[k] {
            assert(data@.subrange(i as int, i + pat@.len())[k as int] != pat@[k as int]);
            return false;
        }
        k = k + 1;
    }
    assert(data@.subrange(i as int, i + pat@.len()) =~= pat@);
    true
}

/// Reading back the two bytes of `v` gives `v`.
pub proof fn lemma_u16_bytes_read_back(v: u16)
    ensures
        be16(u16_bytes(v), 0) == v,
        u16_bytes(v).len() == 2,
{
    let a = v as int / 0x100;
    let b = v as int % 0x100;
    assert(a * 0x100 + b == v) by (nonlinear_arith)
        requires
            a == v as int / 0x100,
            b == v as int % 0x100,
    ;
}

/// Reading back the four bytes of `v` gives `v`.
pub proof fn lemma_u32_bytes_read_back(v: u32)
    ensures
        be32(u32_bytes(v), 0) == v,
        u32_bytes(v).len() == 4,
{
    let hi = (v / 0x1_0000) as u16;
    let lo = (v % 0x1_0000) as u16;
    lemma_u16_bytes_read_back(hi);
    lemma_u16_bytes_read_back(lo);
    let s = u32_bytes(v);
    assert(be16(s, 0) == be16(u16_bytes(hi), 0));
    assert(be16(s, 2) == be16(u16_bytes(lo), 0));
    assert(hi as int * 0x1_0000 + lo as int == v) by (nonlinear_arith)
        requires
            hi as int == v as int / 0x1_0000,
            lo as int == v as int % 0x1_0000,
    ;
}

/// Reading back the eight bytes of `v` gives `v`.
pub proof fn lemma_u64_bytes_read_back(v: u64)
    ensures
        be64(u64_bytes(v), 0) == v,
        u64_bytes(v).len() == 8,
{
    let hi = (v / 0x1_0000_0000) as u32;
    let lo = (v % 0x1_0000_0000) as u32;
    lemma_u32_bytes_read_back(hi);
    lemma_u32_bytes_read_back(lo);
    let s = u64_bytes(v);
    assert(be32(s, 0) == be32(u32_bytes(hi), 0));
    assert(be32(s, 4) == be32(u32_bytes(lo), 0));
    assert(hi as int * 0x1_0000_0000 + lo as int == v) by (nonlinear_arith)
        requires
            hi as int == v as int / 0x1_0000_0000,
            lo as int == v as int % 0x1_0000_0000,
    ;
}

/// The two bytes of the big-endian value read at `i` are the bytes read.
pub proof fn lemma_u16_bytes_of_be16(data: Seq<u8>, i: int)
    requires
        0 <= i,
        i + 2 <= data.len(),
    ensures
        u16_bytes(be16(data, i) as u16) == data.subrange(i, i + 2),
{
    let a = data[i] as int;
    let b = data[i + 1] as int;
    assert((a * 0x100 + b) / 0x100 == a && (a * 0x100 + b) % 0x100 == b) by (nonlinear_arith)
        requires
            0 <= a < 0x100,
            0 <= b < 0x100,
    ;
    assert(u16_bytes(be16(data, i) as u16) =~= data.subrange(i, i + 2));
}

/// The four bytes of the big-endian value read at `i` are the bytes read.
pub proof fn lemma_u32_bytes_of_be32(data: Seq<u8>, i: int)
    requires
        0 <= i,
        i + 4 <= data.len(),
    ensures
        u32_bytes(be32(data, i) as u32) == data.subrange(i, i + 4),
{
    let hi = be16(data, i);
    let lo = be16(data, i + 2);
    assert(0 <= hi < 0x1_0000 && 0 <= lo < 0x1_0000);
    assert((hi * 0x1_0000 + lo) / 0x1_0000 == hi && (hi * 0x1_0000 + lo) % 0x1_0000 == lo)
        by (nonlinear_arith)
        requires
            0 <= hi < 0x1_0000,
            0 <= lo < 0x1_0000,
    ;
    lemma_u16_bytes_of_be16(data, i);
    lemma_u16_bytes_of_be16(data, i + 2);
    assert(u32_bytes(be32(data, i) as u32) =~= data.subrange(i, i + 4));
}

/// The eight bytes of the big-endian value read at `i` are the bytes read.
pub proof fn lemma_u64_bytes_of_be64(data: Seq<u8>, i: int)
    requires
        0 <= i,
        i + 8 <= data.len(),
    ensures
        u64_bytes(be64(data, i) as u64) == data.subrange(i, i + 8),
{
    let hi = be32(data, i);
    let lo = be32(data, i + 4);
    assert(0 <= hi < 0x1_0000_0000 && 0 <= lo < 0x1_0000_0000);
    assert((hi * 0x1_0000_0000 + lo) / 0x1_0000_0000 == hi && (hi * 0x1_0000_0000 + lo)
        % 0x1_0000_0000 == lo) by (nonlinear_arith)
        requires
            0 <= hi < 0x1_0000_0000,
            0 <= lo < 0x1_0000_0000,
    ;
    lemma_u32_bytes_of_be32(data, i);
    lemma_u32_bytes_of_be32(data, i + 4);
    assert(u64_bytes(be64(data, i) as u64) =~= data.subrange(i, i + 8));
}

} // verus!

//! Little-endian fields in byte buffers, and byte ranges laid over a buffer.

use vstd::prelude::*;

verus! {

/// The 16-bit little-endian number at offset `at` of `s`.
pub open spec fn le16(s: Seq<u8>, at: int) -> int {
    s[at] + 256 * s[at + 1]
}

/// The 32-bit little-endian number at offset `at` of `s`.
pub open spec fn le32(s: Seq<u8>, at: int) -> int {
    s[at] + 256 * s[at + 1] + 65536 * s[at + 2] + 16777216 * s[at + 3]
}

/// The two bytes that hold `v` in little-endian order.
pub open spec fn le16_bytes(v: int) -> Seq<u8> {
    seq![(v % 256) as u8, (v / 256 % 256) as u8]
}

/// The four bytes that hold `v` in little-endian order.
pub open spec fn le32_bytes(v: int) -> Seq<u8> {
    seq![
        (v % 256) as u8,
        (v / 256 % 256) as u8,
        (v / 65536 % 256) as u8,
        (v / 16777216 % 256) as u8,
    ]
}

/// `base` with `data` laid over it from offset `at` on.
pub open spec fn overlay(base: Seq<u8>, at: int, data: Seq<u8>) -> Seq<u8> {
    Seq::new(
        base.len(),
        |i: int|
            if at <= i < at + data.len() {
                data[i - at]
            } else {
                base[i]
            },
    )
}

/// `n` zero bytes.
pub open spec fn zeros(n: nat) -> Seq<u8> {
    Seq::new(n, |i: int| 0u8)
}

/// Reads the 16-bit little-endian number at offset `at` of `buf`.
pub fn get_le16(buf: &Vec<u8>, at: usize) -> (v: u16)
    requires
        at + 2 <= buf.len(),
    ensures
        v == le16(buf@, at as int),
{
    buf[at] as u16 + buf[at + 1] as u16 * 256
}

/// Reads the 32-bit little-endian number at offset `at` of `buf`.
pub fn get_le32(buf: &Vec<u8>, at: usize) -> (v: u32)
    requires
        at + 4 <= buf.len(),
    ensures
        v == le32(buf@, at as int),
{
    buf[at] as u32 + buf[at + 1] as u32 * 256 + buf[at + 2] as u32 * 65536 + buf[at + 3] as u32
        * 16777216
}

/// Stores `v` as a 16-bit little-endian number at offset `at` of `buf`.
pub fn put_le16(buf: &mut Vec<u8>, at: usize, v: u16)
    requires
        at + 2 <= old(buf).len(),
    ensures
        final(buf)@ == overlay(old(buf)@, at as int, le16_bytes(v as int)),
{
    buf[at] = (v % 256) as u8;
    buf[at + 1] = (v / 256) as u8;
    assert(buf@ =~= overlay(old(buf)@, at as int, le16_bytes(v as int)));
}

/// Stores `v` as a 32-bit little-endian number at offset `at` of `buf`.
pub fn put_le32(buf: &mut Vec<u8>, at: usize, v: u32)
    requires
        at + 4 <= old(buf).len(),
    ensures
        final(buf)@ == overlay(old(buf)@, at as int, le32_bytes(v as int)),
{
    buf[at] = (v % 256) as u8;
    buf[at + 1] = (v / 256 % 256) as u8;
    buf[at + 2] = (v / 65536 % 256) as u8;
    buf[at + 3] = (v / 16777216) as u8;
    assert(buf@ =~= overlay(old(buf)@, at as int, le32_bytes(v as int)));
}

/// Lays `data` over `buf` from offset `at` on.
pub fn put_bytes(buf: &mut Vec<u8>, at: usize, data: &Vec<u8>)
    requires
        at + data.len() <= old(buf).len(),
    ensures
        final(buf)@ == overlay(old(buf)@, at as int, data@),
{
    let mut i: usize = 0;
    while i < data.len()
        invariant
            i <= data@.len(),
            at + data.len() <= buf.len(),
            buf@.len() == old(buf)@.len(),
            buf@ == overlay(old(buf)@, at as int, data@.subrange(0, i as int)),
        decreases data@.len() - i,
    {
        buf[at + i] = data[i];
        i += 1;
        assert(buf@ =~= overlay(old(buf)@, at as int, data@.subrange(0, i as int)));
    }
    assert(data@.subrange(0, data@.len() as int) =~= data@);
}

/// The `len` bytes of `buf` from offset `at` on, as a buffer of their own.
pub fn copy_range(buf: &Vec<u8>, at: usize, len: usize) -> (out: Vec<u8>)
    requires
        at + len <= buf.len(),
    ensures
        out@ == buf@.subrange(at as int, at + len),
{
    let mut out: Vec<u8> = Vec::new();
    let mut i: usize = 0;
    while i < len
        invariant
            i <= len,
            at + len <= buf.len(),
            out@ == buf@.subrange(at as int, at + i),
        decreases len - i,
    {
        out.push(buf[at + i]);
        i += 1;
        assert(out@ =~= buf@.subrange(at as int, at + i));
    }
    out
}

/// A buffer of `n` zero bytes.
pub fn zero_bytes(n: usize) -> (out: Vec<u8>)
    ensures
        out@ == zeros(n as nat),
{
    let mut out: Vec<u8> = Vec::new();
    let mut i: usize = 0;
    while i < n
        invariant
            i <= n,
            out@ == zeros(i as nat),
        decreases n - i,
    {
        out.push(0u8);
        i += 1;
        assert(out@ =~= zeros(i as nat));
    }
    out
}

/// Appends the `len` bytes of `src` from offset `at` on to `out`.
pub fn append_range(out: &mut Vec<u8>, src: &Vec<u8>, at: usize, len: usize)
    requires
        at + len <= src.len(),
    ensures
        final(out)@ == old(out)@ + src@.subrange(at as int, at + len),
{
    let mut i: usize = 0;
    while i < len
        invariant
            i <= len,
            at + len <= src.len(),
            out@ == old(out)@ + src@.subrange(at as int, at + i),
        decreases len - i,
    {
        out.push(src[at + i]);
        i += 1;
        assert(out@ =~= old(out)@ + src@.subrange(at as int, at + i));
    }
}

/// Tells whether `buf` holds the bytes of `data` from offset `at` on.
pub fn holds_at(buf: &Vec<u8>, at: usize, data: &Vec<u8>) -> (same: bool)
    requires
        at + data.len() <= buf.len(),
    ensures
        same == (buf@.subrange(at as int, at + data.len()) == data@),
{
    let mut i: usize = 0;
    while i < data.len()
        invariant
            i <= data.len(),
            at + data.len() <= buf.len(),
            forall|k: int| 0 <= k < i ==> buf@[at + k] == data@[k],
        decreases data.len() - i,
    {
        if buf[at + i] != data[i] {
            assert(buf@.subrange(at as int, at + data.len())[i as int] != data@[i as int]);
            return false;
        }
        i += 1;
    }
    assert(buf@.subrange(at as int, at + data.len()) =~= data@);
    true
}

/// The two little-endian bytes of a number give the number back.
pub proof fn lemma_le16_of_bytes(v: int)
    requires
        0 <= v < 0x1_0000,
    ensures
        le16(le16_bytes(v), 0) == v,
{
}

/// The four little-endian bytes of a number give the number back.
pub proof fn lemma_le32_of_bytes(v: int)
    requires
        0 <= v < 0x1_0000_0000,
    ensures
        le32(le32_bytes(v), 0) == v,
{
    let a = v / 256;
    let b = v / 65536;
    let c = v / 16777216;
    assert(v == 256 * a + v % 256);
    assert(a == 256 * b + a % 256 && b == a / 256) by {
        assert(a / 256 == v / 65536) by (nonlinear_arith)
            requires
                a == v / 256,
                v >= 0,
        ;
    }
    assert(b == 256 * c + b % 256 && c == b / 256) by {
        assert(b / 256 == v / 16777216) by (nonlinear_arith)
            requires
                b == v / 65536,
                v >= 0,
        ;
    }
    assert(0 <= c < 256);
    let s = le32_bytes(v);
    assert(s[0] == v % 256 && s[1] == a % 256 && s[2] == b % 256 && s[3] == c % 256);
}

/// A buffer that holds the bytes of a 16-bit number at an offset holds the
/// number there.
pub proof fn lemma_le16_at(s: Seq<u8>, at: int, v: int)
    requires
        0 <= v < 0x1_0000,
        s[at] == le16_bytes(v)[0],
        s[at + 1] == le16_bytes(v)[1],
    ensures
        le16(s, at) == v,
{
    lemma_le16_of_bytes(v);
}

/// A buffer that holds the bytes of a 32-bit number at an offset holds the
/// number there.
pub proof fn lemma_le32_at(s: Seq<u8>, at: int, v: int)
    requires
        0 <= v < 0x1_0000_0000,
        s[at] == le32_bytes(v)[0],
        s[at + 1] == le32_bytes(v)[1],
        s[at + 2] == le32_bytes(v)[2],
        s[at + 3] == le32_bytes(v)[3],
    ensures
        le32(s, at) == v,
{
    lemma_le32_of_bytes(v);
    let b = le32_bytes(v);
    assert(le32(s, at) == le32(b, 0));
}

} // verus!

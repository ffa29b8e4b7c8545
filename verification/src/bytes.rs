//! Little-endian integers, alignment and byte slices.
use vstd::prelude::*;

use crate::error::{short_read, short_read_error, AxonError};

verus! {

/// The sixteen-bit number whose bytes stand at `p`, least significant first.
pub open spec fn le16(s: Seq<u8>, p: int) -> u16 {
    (s[p] + 0x100 * s[p + 1]) as u16
}

/// The thirty-two-bit number whose bytes stand at `p`, least significant first.
pub open spec fn le32(s: Seq<u8>, p: int) -> u32 {
    (s[p] + 0x100 * s[p + 1] + 0x1_0000 * s[p + 2] + 0x100_0000 * s[p + 3]) as u32
}

/// The sixty-four-bit number whose bytes stand at `p`, least significant first.
pub open spec fn le64(s: Seq<u8>, p: int) -> u64 {
    (le32(s, p) + 0x1_0000_0000 * le32(s, p + 4)) as u64
}

/// Calls `byteorder::LittleEndian::read_u16` on the whole slice: the number
/// formed by its first two bytes, least significant first.
#[verifier::external_body]
fn order_u16(b: &[u8]) -> (r: u16)
    requires
        b@.len() >= 2,
    ensures
        r == le16(b@, 0),
{
    <byteorder::LittleEndian as byteorder::ByteOrder>::read_u16(b)
}

/// Calls `byteorder::LittleEndian::read_u32` on the whole slice: the number
/// formed by its first four bytes, least significant first.
#[verifier::external_body]
fn order_u32(b: &[u8]) -> (r: u32)
    requires
        b@.len() >= 4,
    ensures
        r == le32(b@, 0),
{
    <byteorder::LittleEndian as byteorder::ByteOrder>::read_u32(b)
}

/// Calls `byteorder::LittleEndian::read_u64` on the whole slice: the number
/// formed by its first eight bytes, least significant first.
#[verifier::external_body]
fn order_u64(b: &[u8]) -> (r: u64)
    requires
        b@.len() >= 8,
    ensures
        r == le64(b@, 0),
{
    <byteorder::LittleEndian as byteorder::ByteOrder>::read_u64(b)
}

/// The bytes of `b` from `from` up to `to`.
pub fn slice<'a>(b: &'a [u8], from: usize, to: usize) -> (r: &'a [u8])
    requires
        from <= to <= b@.len(),
    ensures
        r@ == b@.subrange(from as int, to as int),
{
    vstd::slice::slice_subrange(b, from, to)
}

/// The bytes of `b` as a vector.
pub fn to_vec(b: &[u8]) -> (r: Vec<u8>)
    ensures
        r@ == b@,
{
    let r = vstd::slice::slice_to_vec(b);
    assert(r@ =~= b@);
    r
}

/// The byte at `p`.
pub fn get_u8(b: &[u8], p: usize) -> (r: Result<u8, AxonError>)
    ensures
        match r {
            Ok(v) => p + 1 <= b@.len() && v == b@[p as int],
            Err(e) => p + 1 > b@.len() && e@ == short_read(),
        },
{
    if p < b.len() {
        Ok(b[p])
    } else {
        Err(short_read_error())
    }
}

/// The sixteen-bit number at `p`.
pub fn get_u16(b: &[u8], p: usize) -> (r: Result<u16, AxonError>)
    ensures
        match r {
            Ok(v) => p + 2 <= b@.len() && v == le16(b@, p as int),
            Err(e) => p + 2 > b@.len() && e@ == short_read(),
        },
{
    if p <= b.len() && b.len() - p >= 2 {
        Ok(order_u16(slice(b, p, p + 2)))
    } else {
        Err(short_read_error())
    }
}

/// The thirty-two-bit number at `p`.
pub fn get_u32(b: &[u8], p: usize) -> (r: Result<u32, AxonError>)
    ensures
        match r {
            Ok(v) => p + 4 <= b@.len() && v == le32(b@, p as int),
            Err(e) => p + 4 > b@.len() && e@ == short_read(),
        },
{
    if p <= b.len() && b.len() - p >= 4 {
        Ok(order_u32(slice(b, p, p + 4)))
    } else {
        Err(short_read_error())
    }
}

/// The sixty-four-bit number at `p`.
pub fn get_u64(b: &[u8], p: usize) -> (r: Result<u64, AxonError>)
    ensures
        match r {
            Ok(v) => p + 8 <= b@.len() && v == le64(b@, p as int),
            Err(e) => p + 8 > b@.len() && e@ == short_read(),
        },
{
    if p <= b.len() && b.len() - p >= 8 {
        Ok(order_u64(slice(b, p, p + 8)))
    } else {
        Err(short_read_error())
    }
}

/// The four bytes of `v`, least significant first.
pub open spec fn le32_bytes(v: u32) -> Seq<u8> {
    seq![
        (v % 0x100) as u8,
        (v / 0x100 % 0x100) as u8,
        (v / 0x1_0000 % 0x100) as u8,
        (v / 0x100_0000) as u8,
    ]
}

/// The eight bytes of `v`, least significant first.
pub open spec fn le64_bytes(v: u64) -> Seq<u8> {
    le32_bytes((v % 0x1_0000_0000) as u32) + le32_bytes((v / 0x1_0000_0000) as u32)
}

/// Reading four written bytes gives the number back.
pub proof fn lemma_le32_roundtrip(s: Seq<u8>, p: int, v: u32)
    requires
        0 <= p,
        p + 4 <= s.len(),
        s.subrange(p, p + 4) == le32_bytes(v),
    ensures
        le32(s, p) == v,
{
    let t = s.subrange(p, p + 4);
    assert(t[0] == s[p] && t[1] == s[p + 1] && t[2] == s[p + 2] && t[3] == s[p + 3]);
}

/// Reading eight written bytes gives the number back.
pub proof fn lemma_le64_roundtrip(s: Seq<u8>, p: int, v: u64)
    requires
        0 <= p,
        p + 8 <= s.len(),
        s.subrange(p, p + 8) == le64_bytes(v),
    ensures
        le64(s, p) == v,
{
    let lo = (v % 0x1_0000_0000) as u32;
    let hi = (v / 0x1_0000_0000) as u32;
    let t = s.subrange(p, p + 8);
    assert(s.subrange(p, p + 4) =~= t.subrange(0, 4));
    assert(t.subrange(0, 4) =~= le32_bytes(lo));
    assert(s.subrange(p + 4, p + 8) =~= t.subrange(4, 8));
    assert(t.subrange(4, 8) =~= le32_bytes(hi));
    lemma_le32_roundtrip(s, p, lo);
    lemma_le32_roundtrip(s, p + 4, hi);
}

proof fn lemma_four_digits(a: int, b: int, c: int, e: int, v: int)
    requires
        0 <= a < 0x100,
        0 <= b < 0x100,
        0 <= c < 0x100,
        0 <= e < 0x100,
        v == a + 0x100 * b + 0x1_0000 * c + 0x100_0000 * e,
    ensures
        v % 0x100 == a,
        v / 0x100 % 0x100 == b,
        v / 0x1_0000 % 0x100 == c,
        v / 0x100_0000 == e,
{
    let x = b + 0x100 * c + 0x1_0000 * e;
    let y = c + 0x100 * e;
    assert(v == 0x100 * x + a);
    assert(v % 0x100 == a && v / 0x100 == x);
    assert(x == 0x100 * y + b);
    assert(x % 0x100 == b);
    assert(v == 0x1_0000 * y + (a + 0x100 * b));
    assert(v / 0x1_0000 == y);
    assert(y % 0x100 == c);
    assert(v == 0x100_0000 * e + (a + 0x100 * b + 0x1_0000 * c));
    assert(v / 0x100_0000 == e);
}

/// Four bytes are those of the number that is read from them.
pub proof fn lemma_le32_unique(s: Seq<u8>, p: int)
    requires
        0 <= p,
        p + 4 <= s.len(),
    ensures
        s.subrange(p, p + 4) == le32_bytes(le32(s, p)),
{
    let v = le32(s, p);
    lemma_four_digits(
        s[p] as int,
        s[p + 1] as int,
        s[p + 2] as int,
        s[p + 3] as int,
        v as int,
    );
    assert(s.subrange(p, p + 4) =~= le32_bytes(v));
}

/// Eight bytes are those of the number that is read from them.
pub proof fn lemma_le64_unique(s: Seq<u8>, p: int)
    requires
        0 <= p,
        p + 8 <= s.len(),
    ensures
        s.subrange(p, p + 8) == le64_bytes(le64(s, p)),
{
    let v = le64(s, p) as int;
    let (low, high) = (le32(s, p) as int, le32(s, p + 4) as int);
    assert(v == low + 0x1_0000_0000 * high);
    assert(v % 0x1_0000_0000 == low && v / 0x1_0000_0000 == high);
    lemma_le32_unique(s, p);
    lemma_le32_unique(s, p + 4);
    assert(s.subrange(p, p + 8) =~= s.subrange(p, p + 4) + s.subrange(p + 4, p + 8));
}

/// Appends the four bytes of `v`.
pub fn put_u32(out: &mut Vec<u8>, v: u32)
    ensures
        final(out)@ == old(out)@ + le32_bytes(v),
{
    out.push((v % 0x100) as u8);
    out.push((v / 0x100 % 0x100) as u8);
    out.push((v / 0x1_0000 % 0x100) as u8);
    out.push((v / 0x100_0000) as u8);
    assert(out@ =~= old(out)@ + le32_bytes(v));
}

/// Appends the eight bytes of `v`.
pub fn put_u64(out: &mut Vec<u8>, v: u64)
    ensures
        final(out)@ == old(out)@ + le64_bytes(v),
{
    put_u32(out, (v % 0x1_0000_0000) as u32);
    put_u32(out, (v / 0x1_0000_0000) as u32);
    assert(out@ =~= old(out)@ + le64_bytes(v));
}

/// Appends `n` zero bytes.
pub fn put_zeros(out: &mut Vec<u8>, n: usize)
    ensures
        final(out)@ == old(out)@ + zeros(n as nat),
{
    let mut i: usize = 0;
    while i < n
        invariant
            i <= n,
            out@ == old(out)@ + zeros(i as nat),
        decreases n - i,
    {
        out.push(0);
        assert(out@ =~= old(out)@ + zeros((i + 1) as nat));
        i += 1;
    }
    assert(out@ =~= old(out)@ + zeros(n as nat));
}

/// Appends the bytes of `b`.
pub fn put_bytes(out: &mut Vec<u8>, b: &[u8])
    ensures
        final(out)@ == old(out)@ + b@,
{
    out.extend_from_slice(b);
    assert(out@ =~= old(out)@ + b@);
}

/// A row of `n` zero bytes.
pub open spec fn zeros(n: nat) -> Seq<u8> {
    Seq::new(n, |i: int| 0u8)
}

/// The smallest multiple of `alignment` that is at least `offset`.
pub open spec fn align_up_int(offset: int, alignment: int) -> int {
    (offset + alignment - 1) / alignment * alignment
}

/// An aligned offset is a multiple, is not below the offset and lies less than
/// one alignment above it; no smaller multiple is at least the offset.
pub proof fn lemma_align_up(offset: int, alignment: int)
    requires
        0 <= offset,
        0 < alignment,
    ensures
        align_up_int(offset, alignment) % alignment == 0,
        offset <= align_up_int(offset, alignment) < offset + alignment,
        forall|m: int|
            #![trigger m * alignment]
            m * alignment >= offset ==> m * alignment >= align_up_int(offset, alignment),
{
    let q = (offset + alignment - 1) / alignment;
    vstd::arithmetic::div_mod::lemma_fundamental_div_mod(offset + alignment - 1, alignment);
    vstd::arithmetic::div_mod::lemma_mod_multiples_basic(q, alignment);
    vstd::arithmetic::div_mod::lemma_mod_division_less_than_divisor(
        offset + alignment - 1,
        alignment,
    );
    assert(q * alignment == alignment * q) by (nonlinear_arith);
    assert forall|m: int| #![trigger m * alignment] m * alignment >= offset implies m * alignment
        >= q * alignment by {
        if m < q {
            assert(m * alignment <= (q - 1) * alignment) by (nonlinear_arith)
                requires
                    m <= q - 1,
                    0 < alignment,
            ;
            assert((q - 1) * alignment == q * alignment - alignment) by (nonlinear_arith);
        } else {
            assert(m * alignment >= q * alignment) by (nonlinear_arith)
                requires
                    m >= q,
                    0 < alignment,
            ;
        }
    }
}

/// Aligns `offset` up to a multiple of `alignment`; `None` where the multiple
/// does not fit sixty-four bits.
pub fn align_up(offset: u64, alignment: u64) -> (r: Option<u64>)
    requires
        alignment > 0,
    ensures
        match r {
            Some(v) => v == align_up_int(offset as int, alignment as int),
            None => align_up_int(offset as int, alignment as int) > u64::MAX,
        },
{
    proof {
        lemma_align_up(offset as int, alignment as int);
    }
    let q: u128 = (offset as u128 + alignment as u128 - 1) / (alignment as u128);
    proof {
        assert(q * alignment == align_up_int(offset as int, alignment as int));
        assert(q * alignment <= 2 * u64::MAX);
    }
    let v: u128 = q * alignment as u128;
    if v > u64::MAX as u128 {
        None
    } else {
        Some(v as u64)
    }
}

/// Where two rows stand one behind the other, each stands in its own place.
pub proof fn lemma_parts(d: Seq<u8>, p: int, a: Seq<u8>, b: Seq<u8>)
    requires
        0 <= p,
        p + a.len() + b.len() <= d.len(),
        d.subrange(p, p + a.len() + b.len()) == a + b,
    ensures
        d.subrange(p, p + a.len()) == a,
        d.subrange(p + a.len(), p + a.len() + b.len()) == b,
{
    let whole = d.subrange(p, p + a.len() + b.len());
    assert(d.subrange(p, p + a.len()) =~= whole.subrange(0, a.len() as int));
    assert((a + b).subrange(0, a.len() as int) =~= a);
    assert(d.subrange(p + a.len(), p + a.len() + b.len()) =~= whole.subrange(
        a.len() as int,
        (a.len() + b.len()) as int,
    ));
    assert((a + b).subrange(a.len() as int, (a.len() + b.len()) as int) =~= b);
}

/// Rows that are put one behind the other.
pub proof fn lemma_chain(
    s: Seq<u8>,
    a: Seq<u8>,
    b: Seq<u8>,
    c: Seq<u8>,
    d: Seq<u8>,
    e: Seq<u8>,
    f: Seq<u8>,
    g: Seq<u8>,
    h: Seq<u8>,
)
    ensures
        s + a + b + c + d + e + f + g + h == s + (a + (b + (c + (d + (e + (f + (g + h))))))),
{
    assert(s + a + b + c + d + e + f + g + h =~= s + (a + (b + (c + (d + (e + (f + (g + h))))))));
}

} // verus!

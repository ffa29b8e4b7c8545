//! Tensor bytes as numbers.
//!
//! A number is carried by its bits, of single or of half precision. Two block
//! formats pack thirty-two integers behind a half-precision scale: in the first
//! the integers have four bits, two to a byte with the low one first, in the
//! second they are signed bytes.
use vstd::prelude::*;

use crate::bytes::{get_u16, get_u32, le16, le32};
use crate::tensor::{dtype_size, DType};

verus! {

// ── Blocks ──────────────────────────────────────────────────────────
/// A block: a scale, by its bits, and the integers that it scales.
#[verifier::ext_equal]
pub struct Block {
    pub scale: u16,
    pub values: Seq<i8>,
}

/// The four bits of the `i`th integer of a packed row.
pub open spec fn nibble(d: Seq<u8>, p: int, i: int) -> int {
    if i % 2 == 0 {
        d[p + i / 2] as int % 16
    } else {
        d[p + i / 2] as int / 16
    }
}

/// The signed byte with the given bits.
pub open spec fn signed_byte(b: u8) -> i8 {
    if b < 0x80 {
        b as i8
    } else {
        (b - 0x100) as i8
    }
}

/// The four-bit block at `p`. Its integers are the four bits less eight.
pub open spec fn q4_block(d: Seq<u8>, p: int) -> Block {
    Block {
        scale: le16(d, p),
        values: Seq::new(32, |i: int| (nibble(d, p + 2, i) - 8) as i8),
    }
}

/// The eight-bit block at `p`.
pub open spec fn q8_block(d: Seq<u8>, p: int) -> Block {
    Block {
        scale: le16(d, p),
        values: Seq::new(32, |i: int| signed_byte(d[p + 2 + i])),
    }
}

/// A block: a scale, by its bits, and the integers that it scales.
#[derive(Debug)]
pub struct QuantBlock {
    /// The bits of the scale.
    pub scale: u16,
    /// The integers.
    pub values: Vec<i8>,
}

impl View for QuantBlock {
    type V = Block;

    open spec fn view(&self) -> Block {
        Block { scale: self.scale, values: self.values@ }
    }
}

/// What a row of blocks stands for.
pub open spec fn block_models(v: Seq<QuantBlock>) -> Seq<Block> {
    Seq::new(v.len(), |i: int| v[i]@)
}

/// The four-bit block at `p`.
pub fn read_q4_block(d: &[u8], p: usize) -> (r: QuantBlock)
    requires
        p + 18 <= d@.len(),
    ensures
        r@ == q4_block(d@, p as int),
{
    assert(d@.len() == d.len());
    let scale = half_at(d, p);
    let mut values: Vec<i8> = Vec::new();
    let mut i: usize = 0;
    let ghost all = q4_block(d@, p as int).values;
    while i < 16
        invariant
            i <= 16,
            p + 18 <= d@.len(),
            d@.len() == d.len(),
            all == q4_block(d@, p as int).values,
            values@ == all.take(2 * i as int),
        decreases 16 - i,
    {
        let b = d[p + 2 + i];
        let low = (b % 16) as i8 - 8;
        let high = (b / 16) as i8 - 8;
        assert(all[2 * i as int] == low);
        assert(all[2 * i + 1] == high);
        values.push(low);
        values.push(high);
        i += 1;
        assert(values@ =~= all.take(2 * i as int));
    }
    assert(all.take(32) =~= all);
    QuantBlock { scale, values }
}

/// The eight-bit block at `p`.
pub fn read_q8_block(d: &[u8], p: usize) -> (r: QuantBlock)
    requires
        p + 34 <= d@.len(),
    ensures
        r@ == q8_block(d@, p as int),
{
    assert(d@.len() == d.len());
    let scale = half_at(d, p);
    let mut values: Vec<i8> = Vec::new();
    let mut i: usize = 0;
    let ghost all = q8_block(d@, p as int).values;
    while i < 32
        invariant
            i <= 32,
            p + 34 <= d@.len(),
            d@.len() == d.len(),
            all == q8_block(d@, p as int).values,
            values@ == all.take(i as int),
        decreases 32 - i,
    {
        let b = d[p + 2 + i];
        let v = if b < 0x80 {
            b as i8
        } else {
            (b as i16 - 0x100) as i8
        };
        assert(all[i as int] == v);
        values.push(v);
        i += 1;
        assert(values@ =~= all.take(i as int));
    }
    assert(all.take(32) =~= all);
    QuantBlock { scale, values }
}

/// The bits of the half-precision number at `p`.
fn half_at(d: &[u8], p: usize) -> (r: u16)
    requires
        p + 2 <= d@.len(),
    ensures
        r == le16(d@, p as int),
{
    match get_u16(d, p) {
        Ok(h) => h,
        Err(_) => 0,
    }
}

// ── Tensors ─────────────────────────────────────────────────────────
/// The numbers of a tensor: each by its bits, or in blocks.
#[verifier::ext_equal]
pub enum Numbers {
    Singles(Seq<u32>),
    Halves(Seq<u16>),
    Blocks(Seq<Block>),
}

impl Numbers {
    /// How many numbers there are.
    pub open spec fn count(self) -> int {
        match self {
            Numbers::Singles(s) => s.len() as int,
            Numbers::Halves(s) => s.len() as int,
            Numbers::Blocks(b) => (32 * b.len()) as int,
        }
    }
}

/// The bytes as single-precision numbers.
pub open spec fn singles(d: Seq<u8>) -> Seq<u32> {
    Seq::new(d.len() / 4, |i: int| le32(d, 4 * i))
}

/// The bytes as half-precision numbers.
pub open spec fn halves(d: Seq<u8>) -> Seq<u16> {
    Seq::new(d.len() / 2, |i: int| le16(d, 2 * i))
}

/// The bytes as four-bit blocks.
pub open spec fn q4_blocks(d: Seq<u8>) -> Seq<Block> {
    Seq::new(d.len() / 18, |i: int| q4_block(d, 18 * i))
}

/// The bytes as eight-bit blocks.
pub open spec fn q8_blocks(d: Seq<u8>) -> Seq<Block> {
    Seq::new(d.len() / 34, |i: int| q8_block(d, 34 * i))
}

/// The numbers that the bytes of a tensor stand for. A type that has no other
/// reading is read as single precision.
pub open spec fn numbers_of(d: Seq<u8>, dtype: DType) -> Numbers {
    match dtype {
        DType::F16 => Numbers::Halves(halves(d)),
        DType::BF16 => Numbers::Halves(halves(d)),
        DType::Q4 => Numbers::Blocks(q4_blocks(d)),
        DType::Q8 => Numbers::Blocks(q8_blocks(d)),
        _ => Numbers::Singles(singles(d)),
    }
}

/// The numbers of a tensor: each by its bits, or in blocks.
#[derive(Debug)]
pub enum Dequantized {
    /// The bits of every number, of single precision.
    Singles(Vec<u32>),
    /// The bits of every number, of half precision.
    Halves(Vec<u16>),
    /// Blocks of scaled integers.
    Blocks(Vec<QuantBlock>),
}

impl View for Dequantized {
    type V = Numbers;

    open spec fn view(&self) -> Numbers {
        match self {
            Dequantized::Singles(s) => Numbers::Singles(s@),
            Dequantized::Halves(s) => Numbers::Halves(s@),
            Dequantized::Blocks(b) => Numbers::Blocks(block_models(b@)),
        }
    }
}

impl Dequantized {
    /// Whether there are no numbers.
    pub fn is_empty(&self) -> (r: bool)
        ensures
            r == (self@.count() == 0),
    {
        match self {
            Dequantized::Singles(s) => s.len() == 0,
            Dequantized::Halves(s) => s.len() == 0,
            Dequantized::Blocks(b) => b.len() == 0,
        }
    }

    /// How many numbers there are.
    pub fn count(&self) -> (r: u128)
        ensures
            r == self@.count(),
    {
        match self {
            Dequantized::Singles(s) => s.len() as u128,
            Dequantized::Halves(s) => s.len() as u128,
            Dequantized::Blocks(b) => 32 * b.len() as u128,
        }
    }
}

/// The bytes as single-precision numbers, by their bits.
pub fn bytes_as_singles(d: &[u8]) -> (r: Vec<u32>)
    ensures
        r@ == singles(d@),
{
    assert(d@.len() == d.len());
    let mut out: Vec<u32> = Vec::new();
    let n = d.len() / 4;
    let mut i: usize = 0;
    while i < n
        invariant
            i <= n,
            n == d@.len() / 4,
            d@.len() == d.len(),
            out@ == singles(d@).take(i as int),
        decreases n - i,
    {
        match get_u32(d, 4 * i) {
            Ok(v) => {
                out.push(v);
            },
            Err(_) => {},
        }
        i += 1;
        assert(out@ =~= singles(d@).take(i as int));
    }
    assert(singles(d@).take(i as int) =~= singles(d@));
    out
}

/// The bytes as half-precision numbers, by their bits.
pub fn bytes_as_halves(d: &[u8]) -> (r: Vec<u16>)
    ensures
        r@ == halves(d@),
{
    assert(d@.len() == d.len());
    let mut out: Vec<u16> = Vec::new();
    let n = d.len() / 2;
    let mut i: usize = 0;
    while i < n
        invariant
            i <= n,
            n == d@.len() / 2,
            d@.len() == d.len(),
            out@ == halves(d@).take(i as int),
        decreases n - i,
    {
        let v = half_at(d, 2 * i);
        out.push(v);
        i += 1;
        assert(out@ =~= halves(d@).take(i as int));
    }
    assert(halves(d@).take(i as int) =~= halves(d@));
    out
}

/// The bytes as four-bit blocks. Bytes behind the last whole block are passed
/// over.
pub fn dequantize_q4_0(d: &[u8]) -> (r: Vec<QuantBlock>)
    ensures
        block_models(r@) == q4_blocks(d@),
{
    assert(d@.len() == d.len());
    let mut out: Vec<QuantBlock> = Vec::new();
    let n = d.len() / 18;
    let mut i: usize = 0;
    while i < n
        invariant
            i <= n,
            n == d@.len() / 18,
            d@.len() == d.len(),
            block_models(out@) == q4_blocks(d@).take(i as int),
        decreases n - i,
    {
        let b = read_q4_block(d, 18 * i);
        assert(block_models(out@.push(b)) =~= block_models(out@).push(b@));
        out.push(b);
        i += 1;
        assert(block_models(out@) =~= q4_blocks(d@).take(i as int));
    }
    assert(q4_blocks(d@).take(i as int) =~= q4_blocks(d@));
    assert(block_models(out@) =~= q4_blocks(d@));
    out
}

/// The bytes as eight-bit blocks. Bytes behind the last whole block are passed
/// over.
pub fn dequantize_q8_0(d: &[u8]) -> (r: Vec<QuantBlock>)
    ensures
        block_models(r@) == q8_blocks(d@),
{
    assert(d@.len() == d.len());
    let mut out: Vec<QuantBlock> = Vec::new();
    let n = d.len() / 34;
    let mut i: usize = 0;
    while i < n
        invariant
            i <= n,
            n == d@.len() / 34,
            d@.len() == d.len(),
            block_models(out@) == q8_blocks(d@).take(i as int),
        decreases n - i,
    {
        let b = read_q8_block(d, 34 * i);
        assert(block_models(out@.push(b)) =~= block_models(out@).push(b@));
        out.push(b);
        i += 1;
        assert(block_models(out@) =~= q8_blocks(d@).take(i as int));
    }
    assert(q8_blocks(d@).take(i as int) =~= q8_blocks(d@));
    assert(block_models(out@) =~= q8_blocks(d@));
    out
}

/// The numbers that the bytes of a tensor stand for.
pub fn dequantize_tensor(d: &[u8], dtype: DType) -> (r: Dequantized)
    ensures
        r@ == numbers_of(d@, dtype),
{
    match dtype {
        DType::F16 | DType::BF16 => Dequantized::Halves(bytes_as_halves(d)),
        DType::Q4 => Dequantized::Blocks(dequantize_q4_0(d)),
        DType::Q8 => Dequantized::Blocks(dequantize_q8_0(d)),
        _ => Dequantized::Singles(bytes_as_singles(d)),
    }
}

// ── Sizes ───────────────────────────────────────────────────────────
/// The bytes of a block.
pub open spec fn block_bytes(dtype: DType) -> int {
    match dtype {
        DType::Q4 => 18,
        DType::Q8 => 34,
        _ => 4,
    }
}

/// The numbers of a block.
pub open spec fn block_values(dtype: DType) -> int {
    match dtype {
        DType::Q4 => 32,
        DType::Q8 => 32,
        _ => 1,
    }
}

/// How many blocks of `size` hold `n` numbers.
pub open spec fn blocks_for(n: int, size: int) -> int {
    (n + size - 1) / size
}

/// The bytes that `n` numbers of a type take.
pub open spec fn stored_size(n: int, dtype: DType) -> int {
    match dtype {
        DType::Q4 => blocks_for(n, 32) * 18,
        DType::Q8 => blocks_for(n, 32) * 34,
        _ => n * dtype_size(dtype),
    }
}

/// The bytes of a block.
pub fn block_size_bytes(dtype: DType) -> (r: usize)
    ensures
        r == block_bytes(dtype),
{
    match dtype {
        DType::Q4 => 18,
        DType::Q8 => 34,
        _ => 4,
    }
}

/// The numbers of a block.
pub fn block_size_values(dtype: DType) -> (r: usize)
    ensures
        r == block_values(dtype),
{
    match dtype {
        DType::Q4 => 32,
        DType::Q8 => 32,
        _ => 1,
    }
}

/// `n / d`, rounded up.
pub fn div_ceil(n: usize, d: usize) -> (r: usize)
    requires
        d > 0,
    ensures
        r == blocks_for(n as int, d as int),
        r <= n,
{
    let q = n / d;
    proof {
        let (a, b) = (n as int, d as int);
        vstd::arithmetic::div_mod::lemma_fundamental_div_mod(a, b);
        let f = a / b;
        assert((f + 1) * b == b * f + b && f * b == b * f) by (nonlinear_arith);
        if a % b > 0 {
            vstd::arithmetic::div_mod::lemma_fundamental_div_mod_converse(
                a + b - 1,
                b,
                a / b + 1,
                a % b - 1,
            );
        } else {
            vstd::arithmetic::div_mod::lemma_fundamental_div_mod_converse(
                a + b - 1,
                b,
                a / b,
                b - 1,
            );
        }
        assert(a / b <= a && (a % b > 0 ==> a / b + 1 <= a)) by (nonlinear_arith)
            requires
                a >= 0,
                b > 0,
                a == b * (a / b) + a % b,
                0 <= a % b < b,
        ;
    }
    if n % d > 0 {
        q + 1
    } else {
        q
    }
}

/// The bytes of a row of `cols` numbers.
pub fn row_stride_bytes(cols: usize, dtype: DType) -> (r: usize)
    requires
        stored_size(cols as int, dtype) <= usize::MAX,
    ensures
        r == stored_size(cols as int, dtype),
{
    flat_size_bytes(cols, dtype)
}

/// The bytes of `n` numbers.
pub fn flat_size_bytes(n: usize, dtype: DType) -> (r: usize)
    requires
        stored_size(n as int, dtype) <= usize::MAX,
    ensures
        r == stored_size(n as int, dtype),
{
    match dtype {
        DType::Q4 => div_ceil(n, 32) * 18,
        DType::Q8 => div_ceil(n, 32) * 34,
        _ => n * dtype.size_in_bytes(),
    }
}

/// The bits of the single-precision number at a place, those of zero where the
/// bytes do not reach that far.
pub open spec fn single_at(d: Seq<u8>, index: int) -> u32 {
    if 4 * index + 4 <= d.len() {
        le32(d, 4 * index)
    } else {
        0
    }
}

/// The bits of the single-precision number at a place, those of zero where the
/// bytes do not reach that far.
pub fn read_as_single(d: &[u8], index: usize) -> (r: u32)
    ensures
        r == single_at(d@, index as int),
{
    let end = index as u128 * 4 + 4;
    if end > d.len() as u128 {
        return 0;
    }
    match get_u32(d, index * 4) {
        Ok(v) => v,
        Err(_) => 0,
    }
}

/// The bytes from the row of a token on, where the table has the whole row.
pub open spec fn token_row(token: int, dim: int, dtype: DType, table_len: int) -> Option<(int, int)> {
    let row = stored_size(dim, dtype);
    if token * row + row <= table_len {
        Some((token * row, token * row + row))
    } else {
        None
    }
}

/// Where in a table of `table_len` bytes the row of a token of `dim` numbers
/// begins and ends, where the table has the whole row.
pub fn embedding_row(token: usize, dim: usize, dtype: DType, table_len: usize) -> (r: Option<
    (usize, usize),
>)
    requires
        stored_size(dim as int, dtype) <= usize::MAX,
    ensures
        match r {
            Some((a, b)) => token_row(token as int, dim as int, dtype, table_len as int) == Some(
                (a as int, b as int),
            ),
            None => token_row(token as int, dim as int, dtype, table_len as int) is None,
        },
{
    let row = row_stride_bytes(dim, dtype);
    proof {
        let (t, w) = (token as int, row as int);
        assert(0 <= t * w <= 0xffff_ffff_ffff_ffff * 0xffff_ffff_ffff_ffff) by (nonlinear_arith)
            requires
                0 <= t <= 0xffff_ffff_ffff_ffff,
                0 <= w <= 0xffff_ffff_ffff_ffff,
        ;
    }
    let start = token as u128 * row as u128;
    let end = start + row as u128;
    if end <= table_len as u128 {
        Some((start as usize, end as usize))
    } else {
        None
    }
}

// ── Laws ────────────────────────────────────────────────────────────
/// The bytes are read at the width that the type's elements have.
pub open spec fn read_at_width(dtype: DType) -> bool {
    dtype == DType::Q4 || dtype == DType::Q8 || dtype == DType::F32 || dtype == DType::F16 || dtype
        == DType::BF16 || dtype == DType::I32
}

/// Bytes hold `n` numbers of a type exactly if there are at least as many of them as
/// the type takes for `n`.
pub proof fn lemma_stored_size(d: Seq<u8>, dtype: DType, n: int)
    requires
        read_at_width(dtype),
        0 <= n,
    ensures
        numbers_of(d, dtype).count() >= n <==> d.len() >= stored_size(n, dtype),
{
    if dtype == DType::Q4 || dtype == DType::Q8 {
        lemma_block_count(d.len() as int, n, block_bytes(dtype));
    }
}

proof fn lemma_block_count(len: int, n: int, bytes: int)
    requires
        0 <= len,
        0 <= n,
        bytes == 18 || bytes == 34,
    ensures
        32 * (len / bytes) >= n <==> len >= blocks_for(n, 32) * bytes,
{
    let b = blocks_for(n, 32);
    assert(32 * b >= n && 32 * (b - 1) < n);
    assert(len >= b * 18 <==> len / 18 >= b);
    assert(len >= b * 34 <==> len / 34 >= b);
}

/// A tensor has as many numbers as its whole blocks hold; where a type has no blocks,
/// a block is one number.
pub proof fn lemma_number_count(d: Seq<u8>, dtype: DType)
    ensures
        dtype != DType::F16 && dtype != DType::BF16 ==> numbers_of(d, dtype).count() == block_values(
            dtype,
        ) * (d.len() as int / block_bytes(dtype)),
        dtype == DType::F16 || dtype == DType::BF16 ==> numbers_of(d, dtype).count() == d.len() / 2,
{
}

/// Every number of half or single precision is the one whose bytes were written, least
/// significant first.
pub proof fn lemma_numbers_read(d: Seq<u8>, dtype: DType, i: int)
    requires
        0 <= i < numbers_of(d, dtype).count(),
    ensures
        numbers_of(d, dtype) matches Numbers::Singles(s) ==> s[i] == d[4 * i] + 0x100 * d[4 * i + 1]
            + 0x1_0000 * d[4 * i + 2] + 0x100_0000 * d[4 * i + 3],
        numbers_of(d, dtype) matches Numbers::Halves(s) ==> s[i] == d[2 * i] + 0x100 * d[2 * i + 1],
        numbers_of(d, dtype) is Halves <==> dtype == DType::F16 || dtype == DType::BF16,
        numbers_of(d, dtype) is Blocks <==> dtype == DType::Q4 || dtype == DType::Q8,
{
}

/// A block is a scale of two bytes and thirty-two integers behind it. In the four-bit
/// format every byte holds two, each less eight, the first in its low half; in the
/// eight-bit format every byte is one, in two's complement.
pub proof fn lemma_blocks_read(d: Seq<u8>, p: int, i: int)
    requires
        0 <= p,
        0 <= i < 32,
    ensures
        q4_block(d, p).scale == d[p] + 0x100 * d[p + 1],
        q8_block(d, p).scale == d[p] + 0x100 * d[p + 1],
        q4_block(d, p).values.len() == 32,
        q8_block(d, p).values.len() == 32,
        i < 16 ==> d[p + 2 + i] == (q4_block(d, p).values[2 * i] + 8) + 16 * (q4_block(
            d,
            p,
        ).values[2 * i + 1] + 8),
        -8 <= q4_block(d, p).values[i] < 8,
        (q8_block(d, p).values[i] - d[p + 2 + i]) % 0x100 == 0,
{
}

/// The rows of a table of embeddings stand one behind the other, from the first byte
/// on, and each takes the bytes of its numbers.
pub proof fn lemma_token_rows(token: int, dim: int, dtype: DType, table_len: int)
    requires
        0 <= token,
        0 <= dim,
    ensures
        token_row(token, dim, dtype, table_len) matches Some((a, b)) ==> {
            &&& b - a == stored_size(dim, dtype)
            &&& b <= table_len
            &&& token == 0 ==> a == 0
            &&& token > 0 ==> token_row(token - 1, dim, dtype, table_len) == Some(
                (a - stored_size(dim, dtype), a),
            )
        },
        token_row(token, dim, dtype, table_len) is None ==> token_row(
            token + 1,
            dim,
            dtype,
            table_len,
        ) is None,
{
    let row = stored_size(dim, dtype);
    assert(0 <= row) by {
        if dtype != DType::Q4 && dtype != DType::Q8 {
            assert(0 <= dim * dtype_size(dtype)) by (nonlinear_arith)
                requires
                    0 <= dim,
            ;
        }
    }
    assert((token - 1) * row + row == token * row && (token + 1) * row == token * row + row)
        by (nonlinear_arith);
    assert(token == 0 ==> token * row == 0) by (nonlinear_arith);
}

} // verus!

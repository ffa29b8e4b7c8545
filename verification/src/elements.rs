//! The elements of tensors, one by one, and their sums.
use vstd::arithmetic::div_mod::lemma_mod_breakdown;
use vstd::prelude::*;
use vstd::slice::slice_subrange;

use crate::bytes::le16;
use crate::dtype::{
    block_bytes, block_models, block_size_bytes, q4_block, q8_block, read_q4_block, read_q8_block,
    Block, QuantBlock,
};
use crate::tensor::{dtype_size, DType};

verus! {

/// What the elements of a type are.
#[derive(Clone, Copy, Debug, PartialEq, Eq, Structural)]
pub enum ElementKind {
    /// Integers. The signed ones are in two's complement.
    Integer,
    /// Numbers with a fraction.
    Fraction,
    /// Parts of a block, which share a scale.
    Block,
}

/// What the elements of a type are.
pub open spec fn kind_of(d: DType) -> ElementKind {
    match d {
        DType::F32 => ElementKind::Fraction,
        DType::F16 => ElementKind::Fraction,
        DType::BF16 => ElementKind::Fraction,
        DType::Q4 => ElementKind::Block,
        DType::Q8 => ElementKind::Block,
        _ => ElementKind::Integer,
    }
}

/// What the elements of a type are.
pub fn element_kind(d: DType) -> (r: ElementKind)
    ensures
        r == kind_of(d),
{
    match d {
        DType::F32 => ElementKind::Fraction,
        DType::F16 => ElementKind::Fraction,
        DType::BF16 => ElementKind::Fraction,
        DType::Q4 => ElementKind::Block,
        DType::Q8 => ElementKind::Block,
        _ => ElementKind::Integer,
    }
}

// ── Bytes and numbers ───────────────────────────────────────────────
/// The number whose `n` bytes stand at `p`, least significant first.
pub open spec fn number_at(d: Seq<u8>, p: int, n: nat) -> nat
    decreases n,
{
    if n == 0 {
        0
    } else {
        (d[p] + 0x100 * number_at(d, p + 1, (n - 1) as nat)) as nat
    }
}

/// The lowest `n` bytes of a number, least significant first.
pub open spec fn number_bytes(v: nat, n: nat) -> Seq<u8>
    decreases n,
{
    if n == 0 {
        Seq::empty()
    } else {
        seq![(v % 0x100) as u8] + number_bytes(v / 0x100, (n - 1) as nat)
    }
}

/// How many numbers `n` bytes can tell apart.
pub open spec fn room(n: nat) -> nat
    decreases n,
{
    if n == 0 {
        1
    } else {
        0x100 * room((n - 1) as nat)
    }
}

proof fn lemma_room(n: nat)
    ensures
        room(n) > 0,
    decreases n,
{
    if n > 0 {
        lemma_room((n - 1) as nat);
    }
}

/// The lowest bytes of a number, wherever they stand, read as the number without
/// what does not fit.
pub proof fn lemma_number_roundtrip(d: Seq<u8>, p: int, v: nat, n: nat)
    requires
        0 <= p <= d.len() - n,
        d.subrange(p, p + n) == number_bytes(v, n),
    ensures
        number_bytes(v, n).len() == n,
        number_at(d, p, n) == v % room(n),
    decreases n,
{
    if n > 0 {
        let m = (n - 1) as nat;
        let rest = number_bytes(v / 0x100, m);
        let own = d.subrange(p, p + n);
        assert(own.len() == 1 + rest.len());
        assert(own[0] == (v % 0x100) as u8);
        assert(d[p] == own[0]);
        assert(d.subrange(p + 1, p + 1 + m) =~= own.subrange(1, n as int));
        assert(own.subrange(1, n as int) =~= rest);
        lemma_number_roundtrip(d, p + 1, v / 0x100, m);
        lemma_room(m);
        lemma_mod_breakdown(v as int, 0x100, room(m) as int);
    }
}

proof fn lemma_bytes_len(v: nat, n: nat)
    ensures
        number_bytes(v, n).len() == n,
    decreases n,
{
    if n > 0 {
        lemma_bytes_len(v / 0x100, (n - 1) as nat);
    }
}

/// The `i`th element of a tensor whose elements have `size` bytes, as the number
/// that its bytes are.
pub open spec fn element(d: Seq<u8>, i: int, size: nat) -> nat {
    number_at(d, size * i, size)
}

/// How many elements both tensors have.
pub open spec fn common_count(a: Seq<u8>, b: Seq<u8>, size: nat) -> nat {
    if a.len() < b.len() {
        a.len() / size
    } else {
        b.len() / size
    }
}

/// The bytes of the sums of the first `k` elements. A sum keeps the bytes of an
/// element.
pub open spec fn integer_sums(a: Seq<u8>, b: Seq<u8>, size: nat, k: int) -> Seq<u8>
    decreases k,
{
    if k <= 0 {
        Seq::empty()
    } else {
        integer_sums(a, b, size, k - 1) + number_bytes(
            element(a, k - 1, size) + element(b, k - 1, size),
            size,
        )
    }
}

/// The bytes of elements that are given by their bits, the first `k` of them.
pub open spec fn placed(bits: Seq<u32>, size: nat, k: int) -> Seq<u8>
    decreases k,
{
    if k <= 0 {
        Seq::empty()
    } else {
        placed(bits, size, k - 1) + number_bytes(bits[k - 1] as nat, size)
    }
}

/// The bits of the first `n` elements.
pub open spec fn element_row(d: Seq<u8>, size: nat, n: nat) -> Seq<u32> {
    Seq::new(n, |i: int| element(d, i, size) as u32)
}

proof fn lemma_same_number(d: Seq<u8>, p: int, e: Seq<u8>, q: int, n: nat)
    requires
        forall|i: int| 0 <= i < n ==> #[trigger] d[p + i] == e[q + i],
    ensures
        number_at(d, p, n) == number_at(e, q, n),
    decreases n,
{
    if n > 0 {
        assert(d[p + 0] == e[q + 0]);
        assert forall|i: int| 0 <= i < n - 1 implies #[trigger] d[p + 1 + i] == e[q + 1 + i] by {
            assert(d[p + (i + 1)] == e[q + (i + 1)]);
        }
        lemma_same_number(d, p + 1, e, q + 1, (n - 1) as nat);
    }
}

/// Every element of a sum is the sum of the two elements, without what does not
/// fit.
pub proof fn lemma_sum_of_elements(a: Seq<u8>, b: Seq<u8>, size: nat, k: int, i: int)
    requires
        0 <= i < k,
    ensures
        integer_sums(a, b, size, k).len() == size * k,
        element(integer_sums(a, b, size, k), i, size) == (element(a, i, size) + element(b, i, size))
            % room(size),
    decreases k,
{
    let before = integer_sums(a, b, size, k - 1);
    let v = element(a, k - 1, size) + element(b, k - 1, size);
    let last = number_bytes(v, size);
    let whole = integer_sums(a, b, size, k);
    lemma_sums_len(a, b, size, k - 1);
    lemma_bytes_len(v, size);
    assert(size * k == size * (k - 1) + size) by (nonlinear_arith);
    if i == k - 1 {
        assert(whole.subrange(size * i, size * i + size) =~= last);
        lemma_number_roundtrip(whole, size * i, v, size);
    } else {
        lemma_sum_of_elements(a, b, size, k - 1, i);
        assert(0 <= size * i && size * i + size <= size * (k - 1)) by (nonlinear_arith)
            requires
                0 <= i < k - 1,
                0 <= size,
        ;
        lemma_same_number(whole, size * i, before, size * i, size);
    }
}

proof fn lemma_sums_len(a: Seq<u8>, b: Seq<u8>, size: nat, k: int)
    requires
        0 <= k,
    ensures
        integer_sums(a, b, size, k).len() == size * k,
    decreases k,
{
    if k > 0 {
        lemma_sums_len(a, b, size, k - 1);
        lemma_bytes_len(element(a, k - 1, size) + element(b, k - 1, size), size);
        assert(size * k == size * (k - 1) + size) by (nonlinear_arith);
    } else {
        assert(size * k == 0) by (nonlinear_arith)
            requires
                k == 0,
        ;
    }
}

proof fn lemma_placed_len(bits: Seq<u32>, size: nat, k: int)
    requires
        0 <= k,
    ensures
        placed(bits, size, k).len() == size * k,
    decreases k,
{
    if k > 0 {
        lemma_placed_len(bits, size, k - 1);
        lemma_bytes_len(bits[k - 1] as nat, size);
        assert(size * k == size * (k - 1) + size) by (nonlinear_arith);
    } else {
        assert(size * k == 0) by (nonlinear_arith)
            requires
                k == 0,
        ;
    }
}

/// Every element that was placed has the bits that were given for it, as far as
/// they fit.
pub proof fn lemma_placed_elements(bits: Seq<u32>, size: nat, k: int, i: int)
    requires
        0 <= i < k <= bits.len(),
    ensures
        placed(bits, size, k).len() == size * k,
        element(placed(bits, size, k), i, size) == bits[i] as nat % room(size),
    decreases k,
{
    let before = placed(bits, size, k - 1);
    let v = bits[k - 1] as nat;
    let whole = placed(bits, size, k);
    lemma_placed_len(bits, size, k - 1);
    lemma_bytes_len(v, size);
    assert(size * k == size * (k - 1) + size) by (nonlinear_arith);
    if i == k - 1 {
        assert(whole.subrange(size * i, size * i + size) =~= number_bytes(v, size));
        lemma_number_roundtrip(whole, size * i, v, size);
    } else {
        lemma_placed_elements(bits, size, k - 1, i);
        assert(0 <= size * i && size * i + size <= size * (k - 1)) by (nonlinear_arith)
            requires
                0 <= i < k - 1,
                0 <= size,
        ;
        lemma_same_number(whole, size * i, before, size * i, size);
    }
}

// ── Rows of elements ────────────────────────────────────────────────
/// Elements with a fraction: each by its bits, or in blocks.
#[verifier::ext_equal]
pub enum ElementRow {
    Bits(Seq<u32>),
    Blocks(Seq<Block>),
}

/// Elements with a fraction: each by its bits, or in blocks.
#[derive(Debug)]
pub enum Elements {
    /// The bits of every element.
    Bits(Vec<u32>),
    /// Blocks of scaled integers.
    Blocks(Vec<QuantBlock>),
}

impl View for Elements {
    type V = ElementRow;

    open spec fn view(&self) -> ElementRow {
        match self {
            Elements::Bits(b) => ElementRow::Bits(b@),
            Elements::Blocks(b) => ElementRow::Blocks(block_models(b@)),
        }
    }
}

/// What rows of elements stand for.
pub open spec fn element_rows(v: Seq<Elements>) -> Seq<ElementRow> {
    Seq::new(v.len(), |i: int| v[i]@)
}

/// The bytes of what stands on its own: an element, or a block.
pub open spec fn unit_size(d: DType) -> nat {
    if kind_of(d) == ElementKind::Block {
        block_bytes(d) as nat
    } else {
        dtype_size(d)
    }
}

/// The bytes of what stands on its own: an element, or a block.
pub fn unit_bytes(d: DType) -> (r: usize)
    ensures
        r == unit_size(d),
        r > 0,
{
    if element_kind(d) == ElementKind::Block {
        block_size_bytes(d)
    } else {
        d.size_in_bytes()
    }
}

/// The block at `p`.
pub open spec fn block_at(d: Seq<u8>, p: int, dtype: DType) -> Block {
    if dtype == DType::Q4 {
        q4_block(d, p)
    } else {
        q8_block(d, p)
    }
}

/// The first `n` blocks.
pub open spec fn block_row(d: Seq<u8>, dtype: DType, n: nat) -> Seq<Block> {
    Seq::new(n, |i: int| block_at(d, block_bytes(dtype) * i, dtype))
}

/// The first `n` elements or blocks.
pub open spec fn row_of(d: Seq<u8>, dtype: DType, n: nat) -> ElementRow {
    if kind_of(dtype) == ElementKind::Block {
        ElementRow::Blocks(block_row(d, dtype, n))
    } else {
        ElementRow::Bits(element_row(d, dtype_size(dtype), n))
    }
}

/// A block can be written: it has thirty-two integers, and its format has room for
/// each.
pub open spec fn block_fits(b: Block, dtype: DType) -> bool {
    &&& b.values.len() == 32
    &&& dtype == DType::Q4 ==> forall|i: int| 0 <= i < 32 ==> -8 <= #[trigger] b.values[i] < 8
}

/// The byte of a signed integer.
pub open spec fn byte_of(v: i8) -> u8 {
    if v >= 0 {
        v as u8
    } else {
        (v + 0x100) as u8
    }
}

/// The bytes of a block.
pub open spec fn packed(b: Block, dtype: DType) -> Seq<u8> {
    number_bytes(b.scale as nat, 2) + (if dtype == DType::Q4 {
        Seq::new(16, |i: int| ((b.values[2 * i] + 8) + 16 * (b.values[2 * i + 1] + 8)) as u8)
    } else {
        Seq::new(32, |i: int| byte_of(b.values[i]))
    })
}

/// The bytes of the first `k` blocks.
pub open spec fn packed_blocks(b: Seq<Block>, dtype: DType, k: int) -> Seq<u8>
    decreases k,
{
    if k <= 0 {
        Seq::empty()
    } else {
        packed_blocks(b, dtype, k - 1) + packed(b[k - 1], dtype)
    }
}

/// A row has `n` elements or blocks of the type, and can be written.
pub open spec fn row_fits(r: ElementRow, dtype: DType, n: int) -> bool {
    match r {
        ElementRow::Bits(b) => kind_of(dtype) == ElementKind::Fraction && b.len() == n,
        ElementRow::Blocks(b) => kind_of(dtype) == ElementKind::Block && b.len() == n && forall|
            i: int,
        |
            0 <= i < n ==> block_fits(#[trigger] b[i], dtype),
    }
}

/// How many elements or blocks a row has.
pub open spec fn row_len(r: ElementRow) -> nat {
    match r {
        ElementRow::Bits(b) => b.len(),
        ElementRow::Blocks(b) => b.len(),
    }
}

/// The bytes of a row.
pub open spec fn row_bytes(r: ElementRow, dtype: DType) -> Seq<u8> {
    match r {
        ElementRow::Bits(b) => placed(b, dtype_size(dtype), b.len() as int),
        ElementRow::Blocks(b) => packed_blocks(b, dtype, b.len() as int),
    }
}

proof fn lemma_packed(b: Block, dtype: DType, d: Seq<u8>, p: int)
    requires
        kind_of(dtype) == ElementKind::Block,
        block_fits(b, dtype),
        0 <= p <= d.len() - block_bytes(dtype),
        d.subrange(p, p + block_bytes(dtype)) == packed(b, dtype),
    ensures
        block_at(d, p, dtype) == b,
{
    let own = d.subrange(p, p + block_bytes(dtype));
    assert(number_bytes(b.scale as nat, 2) =~= seq![
        (b.scale % 0x100) as u8,
        (b.scale / 0x100) as u8,
    ]) by {
        reveal_with_fuel(number_bytes, 3);
    }
    assert(d[p] == own[0] && d[p + 1] == own[1]);
    assert(le16(d, p) == b.scale);
    if dtype == DType::Q4 {
        assert forall|i: int| 0 <= i < 32 implies q4_block(d, p).values[i] == b.values[i] by {
            let k = i / 2;
            assert(d[p + 2 + k] == own[2 + k]);
            assert(-8 <= b.values[2 * k] < 8);
            assert(-8 <= b.values[2 * k + 1] < 8);
            let (low, high) = (b.values[2 * k] + 8, b.values[2 * k + 1] + 8);
            assert(own[2 + k] == low + 16 * high);
            assert((low + 16 * high) % 16 == low);
            assert((low + 16 * high) / 16 == high);
            assert(i == 2 * k || i == 2 * k + 1);
        }
        assert(q4_block(d, p).values =~= b.values);
    } else {
        assert forall|i: int| 0 <= i < 32 implies q8_block(d, p).values[i] == b.values[i] by {
            assert(d[p + 2 + i] == own[2 + i]);
        }
        assert(q8_block(d, p).values =~= b.values);
    }
}

proof fn lemma_packed_len(b: Seq<Block>, dtype: DType, k: int)
    requires
        kind_of(dtype) == ElementKind::Block,
        0 <= k,
    ensures
        packed_blocks(b, dtype, k).len() == block_bytes(dtype) * k,
    decreases k,
{
    let size = block_bytes(dtype);
    if k > 0 {
        lemma_packed_len(b, dtype, k - 1);
        lemma_bytes_len(b[k - 1].scale as nat, 2);
        assert(packed(b[k - 1], dtype).len() == size);
        assert(size * (k - 1) + size == size * k) by (nonlinear_arith);
    } else {
        assert(size * k == 0) by (nonlinear_arith)
            requires
                k == 0,
        ;
    }
}

/// Blocks that were written are read back.
pub proof fn lemma_packed_blocks(b: Seq<Block>, dtype: DType, k: int)
    requires
        kind_of(dtype) == ElementKind::Block,
        0 <= k <= b.len(),
        forall|i: int| 0 <= i < b.len() ==> block_fits(#[trigger] b[i], dtype),
    ensures
        packed_blocks(b, dtype, k).len() == block_bytes(dtype) * k,
        block_row(packed_blocks(b, dtype, k), dtype, k as nat) == b.take(k),
    decreases k,
{
    lemma_packed_len(b, dtype, k);
    let whole = packed_blocks(b, dtype, k);
    let size = block_bytes(dtype);
    if k > 0 {
        lemma_packed_blocks(b, dtype, k - 1);
        assert(size * (k - 1) + size == size * k) by (nonlinear_arith);
        let before = packed_blocks(b, dtype, k - 1);
        assert forall|i: int| 0 <= i < k implies block_row(whole, dtype, k as nat)[i] == b[i] by {
            if i == k - 1 {
                assert(whole.subrange(size * i, size * i + size) =~= packed(b[i], dtype));
                lemma_packed(b[i], dtype, whole, size * i);
            } else {
                assert(block_row(before, dtype, (k - 1) as nat)[i] == b.take(k - 1)[i]);
                assert(0 <= size * i && size * i + size <= size * (k - 1)) by (nonlinear_arith)
                    requires
                        0 <= i < k - 1,
                        0 <= size,
                ;
                if dtype == DType::Q4 {
                    assert(q4_block(whole, size * i).values =~= q4_block(before, size * i).values);
                } else {
                    assert(q8_block(whole, size * i).values =~= q8_block(before, size * i).values);
                }
            }
        }
    }
    assert(block_row(whole, dtype, k as nat) =~= b.take(k));
}

proof fn lemma_row_len(r: ElementRow, dtype: DType, n: int)
    requires
        0 <= n,
        row_fits(r, dtype, n),
    ensures
        row_bytes(r, dtype).len() == unit_size(dtype) * n,
{
    match r {
        ElementRow::Bits(b) => {
            lemma_placed_len(b, dtype_size(dtype), n);
        },
        ElementRow::Blocks(b) => {
            lemma_packed_len(b, dtype, n);
        },
    }
}

/// The first `n` elements or blocks.
pub fn read_row(d: &[u8], dtype: DType, n: usize) -> (r: Elements)
    requires
        kind_of(dtype) != ElementKind::Integer,
        n * unit_size(dtype) <= d@.len(),
    ensures
        r@ == row_of(d@, dtype, n as nat),
{
    if element_kind(dtype) != ElementKind::Block {
        return Elements::Bits(read_elements(d, dtype.size_in_bytes(), n));
    }
    assert(d@.len() == d.len());
    let size = block_size_bytes(dtype);
    let mut out: Vec<QuantBlock> = Vec::new();
    let mut p: usize = 0;
    let mut i: usize = 0;
    assert(block_models(out@) =~= block_row(d@, dtype, 0));
    while i < n
        invariant
            i <= n,
            kind_of(dtype) == ElementKind::Block,
            size == block_bytes(dtype),
            p == i * size,
            d@.len() == d.len(),
            n * size <= d@.len(),
            block_models(out@) == block_row(d@, dtype, i as nat),
        decreases n - i,
    {
        assert(i * size + size <= n * size && (i + 1) * size == i * size + size && i * size == size
            * i) by (nonlinear_arith)
            requires
                i < n,
                0 <= size,
        ;
        let x = if dtype == DType::Q4 {
            read_q4_block(d, p)
        } else {
            read_q8_block(d, p)
        };
        proof {
            assert(x@ == block_at(d@, size * i, dtype));
            assert(block_row(d@, dtype, (i + 1) as nat) =~= block_row(d@, dtype, i as nat).push(x@));
            assert(block_models(out@.push(x)) =~= block_models(out@).push(x@));
        }
        out.push(x);
        p = p + size;
        i += 1;
    }
    Elements::Blocks(out)
}

fn fits_block(b: &QuantBlock, dtype: DType) -> (r: bool)
    ensures
        r == block_fits(b@, dtype),
{
    if b.values.len() != 32 {
        return false;
    }
    if dtype != DType::Q4 {
        return true;
    }
    let mut i: usize = 0;
    while i < 32
        invariant
            i <= 32,
            b.values@.len() == 32,
            dtype == DType::Q4,
            forall|j: int| 0 <= j < i ==> -8 <= #[trigger] b@.values[j] < 8,
        decreases 32 - i,
    {
        if b.values[i] < -8 || b.values[i] >= 8 {
            assert(!(-8 <= b@.values[i as int] < 8));
            return false;
        }
        i += 1;
    }
    true
}

/// Whether a row has `n` elements or blocks of the type, and can be written.
pub fn fits_row(r: &Elements, dtype: DType, n: usize) -> (ok: bool)
    ensures
        ok == row_fits(r@, dtype, n as int),
{
    match r {
        Elements::Bits(b) => element_kind(dtype) == ElementKind::Fraction && b.len() == n,
        Elements::Blocks(b) => {
            if element_kind(dtype) != ElementKind::Block || b.len() != n {
                return false;
            }
            let ghost all = block_models(b@);
            let mut i: usize = 0;
            while i < b.len()
                invariant
                    i <= b@.len(),
                    all == block_models(b@),
                    r@ == ElementRow::Blocks(all),
                    n == all.len(),
                    kind_of(dtype) == ElementKind::Block,
                    forall|j: int| 0 <= j < i ==> block_fits(#[trigger] all[j], dtype),
                decreases b@.len() - i,
            {
                assert(all[i as int] == b@[i as int]@);
                if !fits_block(&b[i], dtype) {
                    return false;
                }
                i += 1;
            }
            true
        },
    }
}

fn push_block(out: &mut Vec<u8>, b: &QuantBlock, dtype: DType)
    requires
        block_fits(b@, dtype),
    ensures
        final(out)@ == old(out)@ + packed(b@, dtype),
{
    push_number(out, b.scale as u32, 2);
    let ghost start = out@;
    let ghost rest = packed(b@, dtype).skip(2);
    proof {
        lemma_bytes_len(b.scale as nat, 2);
        assert(packed(b@, dtype) =~= number_bytes(b.scale as nat, 2) + rest);
    }
    let mut i: usize = 0;
    if dtype == DType::Q4 {
        while i < 16
            invariant
                i <= 16,
                dtype == DType::Q4,
                block_fits(b@, dtype),
                rest.len() == 16,
                forall|j: int|
                    0 <= j < 16 ==> #[trigger] rest[j] == ((b@.values[2 * j] + 8) + 16 * (
                    b@.values[2 * j + 1] + 8)) as u8,
                out@ == start + rest.take(i as int),
            decreases 16 - i,
        {
            assert(-8 <= b@.values[2 * i as int] < 8);
            assert(-8 <= b@.values[2 * i + 1] < 8);
            let low = b.values[2 * i] as i16 + 8;
            let high = b.values[2 * i + 1] as i16 + 8;
            let x = (low + 16 * high) as u8;
            assert(rest[i as int] == x);
            assert(start + rest.take(i + 1) =~= (start + rest.take(i as int)).push(x));
            out.push(x);
            i += 1;
        }
    } else {
        while i < 32
            invariant
                i <= 32,
                block_fits(b@, dtype),
                rest.len() == 32,
                forall|j: int| 0 <= j < 32 ==> #[trigger] rest[j] == byte_of(b@.values[j]),
                out@ == start + rest.take(i as int),
            decreases 32 - i,
        {
            let v = b.values[i];
            let x = if v >= 0 {
                v as u8
            } else {
                (v as i16 + 0x100) as u8
            };
            assert(rest[i as int] == x);
            assert(start + rest.take(i + 1) =~= (start + rest.take(i as int)).push(x));
            out.push(x);
            i += 1;
        }
    }
    assert(rest.take(i as int) =~= rest);
    assert(out@ =~= old(out)@ + packed(b@, dtype));
}

/// The bytes of a row.
pub fn write_row(r: &Elements, dtype: DType) -> (out: Vec<u8>)
    requires
        exists|n: int| row_fits(r@, dtype, n),
    ensures
        out@ == row_bytes(r@, dtype),
{
    match r {
        Elements::Bits(b) => place_elements(b, dtype.size_in_bytes()),
        Elements::Blocks(b) => {
            let ghost all = block_models(b@);
            let mut out: Vec<u8> = Vec::new();
            let mut i: usize = 0;
            while i < b.len()
                invariant
                    i <= b@.len(),
                    all == block_models(b@),
                    forall|j: int| 0 <= j < all.len() ==> block_fits(#[trigger] all[j], dtype),
                    out@ == packed_blocks(all, dtype, i as int),
                decreases b@.len() - i,
            {
                assert(all[i as int] == b@[i as int]@);
                push_block(&mut out, &b[i], dtype);
                i += 1;
            }
            out
        },
    }
}

// ── Adding and placing ──────────────────────────────────────────────
/// Writes the sum of two numbers of `size` bytes behind `out`, byte by byte.
fn push_sum(out: &mut Vec<u8>, a: &[u8], b: &[u8], p: usize, size: usize)
    requires
        p + size <= a@.len(),
        p + size <= b@.len(),
    ensures
        final(out)@ == old(out)@ + number_bytes(
            number_at(a@, p as int, size as nat) + number_at(b@, p as int, size as nat),
            size as nat,
        ),
{
    assert(a@.len() == a.len());
    let ghost all = out@ + number_bytes(
        number_at(a@, p as int, size as nat) + number_at(b@, p as int, size as nat),
        size as nat,
    );
    let mut carry: u16 = 0;
    let mut j: usize = 0;
    while j < size
        invariant
            j <= size,
            carry <= 1,
            a@.len() == a.len(),
            p + size <= a@.len(),
            p + size <= b@.len(),
            all == out@ + number_bytes(
                number_at(a@, p + j, (size - j) as nat) + number_at(b@, p + j, (size - j) as nat)
                    + carry as nat,
                (size - j) as nat,
            ),
        decreases size - j,
    {
        let s = a[p + j] as u16 + b[p + j] as u16 + carry;
        proof {
            let n = (size - j) as nat;
            let m = (size - j - 1) as nat;
            let (x, y) = (number_at(a@, p + j + 1, m), number_at(b@, p + j + 1, m));
            let t = number_at(a@, p + j, n) + number_at(b@, p + j, n) + carry as nat;
            assert(t == s + 0x100 * (x + y));
            assert(t % 0x100 == s % 0x100);
            assert(t / 0x100 == x + y + s / 0x100);
            assert(out@ + number_bytes(t, n) =~= out@.push((s % 0x100) as u8) + number_bytes(
                t / 0x100,
                m,
            ));
        }
        out.push((s % 0x100) as u8);
        carry = s / 0x100;
        j += 1;
    }
    assert(out@ =~= all);
}

/// The sums of the bytes from one on, as far as both reach.
pub open spec fn rest_sums(a: Seq<u8>, b: Seq<u8>, from: int) -> Seq<u8> {
    integer_sums(a.skip(from), b.skip(from), 1, common_count(a.skip(from), b.skip(from), 1) as int)
}

/// The sums of the bytes from one on, as far as both reach.
pub fn sum_rest(a: &[u8], b: &[u8], from: usize) -> (r: Vec<u8>)
    requires
        from <= a@.len(),
        from <= b@.len(),
    ensures
        r@ == rest_sums(a@, b@, from as int),
{
    assert(a@.skip(from as int) =~= a@.subrange(from as int, a@.len() as int));
    assert(b@.skip(from as int) =~= b@.subrange(from as int, b@.len() as int));
    sum_elements(
        slice_subrange(a, from, a.len()),
        slice_subrange(b, from, b.len()),
        1,
    )
}

/// Bytes behind the elements change none of them.
pub proof fn lemma_element_before(a: Seq<u8>, rest: Seq<u8>, i: int, size: nat, n: int)
    requires
        0 <= i < n,
        a.len() == size * n,
    ensures
        element(a + rest, i, size) == element(a, i, size),
{
    assert(0 <= size * i && size * i + size <= size * n) by (nonlinear_arith)
        requires
            0 <= i < n,
            0 <= size,
    ;
    assert forall|j: int| 0 <= j < size implies #[trigger] (a + rest)[size * i + j] == a[size * i
        + j] by {}
    lemma_same_number(a + rest, size * i, a, size * i, size);
}

/// Bytes behind the blocks change none of them.
pub proof fn lemma_block_before(a: Seq<u8>, rest: Seq<u8>, i: int, dtype: DType, n: int)
    requires
        kind_of(dtype) == ElementKind::Block,
        0 <= i < n,
        a.len() == block_bytes(dtype) * n,
    ensures
        block_at(a + rest, block_bytes(dtype) * i, dtype) == block_at(
            a,
            block_bytes(dtype) * i,
            dtype,
        ),
{
    let size = block_bytes(dtype);
    assert(0 <= size * i && size * i + size <= size * n) by (nonlinear_arith)
        requires
            0 <= i < n,
            0 <= size,
    ;
    let p = size * i;
    if dtype == DType::Q4 {
        assert(q4_block(a + rest, p).values =~= q4_block(a, p).values);
    } else {
        assert(q8_block(a + rest, p).values =~= q8_block(a, p).values);
    }
}

/// However its elements are added, a sum reaches as far as both tensors do.
pub proof fn lemma_sum_reaches(a: Seq<u8>, b: Seq<u8>, dtype: DType, r: ElementRow)
    ensures
        ({
            let size = unit_size(dtype);
            let n = common_count(a, b, size) as int;
            let least = if a.len() < b.len() {
                a.len()
            } else {
                b.len()
            };
            let rest = rest_sums(a, b, n * size);
            &&& (integer_sums(a, b, size, n) + rest).len() == least
            &&& row_fits(r, dtype, n) ==> (row_bytes(r, dtype) + rest).len() == least
        }),
{
    let size = unit_size(dtype);
    let n = common_count(a, b, size) as int;
    let least = if a.len() < b.len() {
        a.len()
    } else {
        b.len()
    };
    assert(0 <= n * size <= least && n * size == size * n) by (nonlinear_arith)
        requires
            size > 0,
            n == least / size,
            0 <= least,
    ;
    lemma_sums_len(a, b, size, n);
    let (x, y) = (a.skip(n * size), b.skip(n * size));
    lemma_sums_len(x, y, 1, common_count(x, y, 1) as int);
    if row_fits(r, dtype, n) {
        lemma_row_len(r, dtype, n);
    }
}

/// The bytes of the sums of the elements, as far as both reach. A sum keeps the
/// bytes of an element.
pub fn sum_elements(a: &[u8], b: &[u8], size: usize) -> (r: Vec<u8>)
    requires
        size > 0,
    ensures
        r@ == integer_sums(a@, b@, size as nat, common_count(a@, b@, size as nat) as int),
{
    assert(a@.len() == a.len());
    assert(b@.len() == b.len());
    let least = if a.len() < b.len() {
        a.len()
    } else {
        b.len()
    };
    let n = least / size;
    let mut out: Vec<u8> = Vec::new();
    let mut p: usize = 0;
    let mut i: usize = 0;
    assert(n * size <= least) by (nonlinear_arith)
        requires
            size > 0,
            n == least / size,
    ;
    while i < n
        invariant
            i <= n,
            p == i * size,
            a@.len() == a.len(),
            n * size <= a@.len(),
            n * size <= b@.len(),
            out@ == integer_sums(a@, b@, size as nat, i as int),
        decreases n - i,
    {
        assert(i * size + size <= n * size && (i + 1) * size == i * size + size && size * i == i
            * size) by (nonlinear_arith)
            requires
                i < n,
                0 <= size,
        ;
        push_sum(&mut out, a, b, p, size);
        p = p + size;
        i += 1;
    }
    out
}

/// The bits of the first `n` elements.
pub fn read_elements(d: &[u8], size: usize, n: usize) -> (r: Vec<u32>)
    requires
        size <= 4,
        n * size <= d@.len(),
    ensures
        r@ == element_row(d@, size as nat, n as nat),
{
    assert(d@.len() == d.len());
    let mut out: Vec<u32> = Vec::new();
    let mut p: usize = 0;
    let mut i: usize = 0;
    while i < n
        invariant
            i <= n,
            p == i * size,
            size <= 4,
            d@.len() == d.len(),
            n * size <= d@.len(),
            out@ == element_row(d@, size as nat, i as nat),
        decreases n - i,
    {
        assert(i * size + size <= n * size && (i + 1) * size == i * size + size && size * i == i
            * size) by (nonlinear_arith)
            requires
                i < n,
                0 <= size,
        ;
        let v = read_number(d, p, size);
        out.push(v);
        p = p + size;
        i += 1;
        assert(out@ =~= element_row(d@, size as nat, i as nat));
    }
    out
}

/// The number whose `n` bytes stand at `p`.
fn read_number(d: &[u8], p: usize, n: usize) -> (r: u32)
    requires
        n <= 4,
        p + n <= d@.len(),
    ensures
        r == number_at(d@, p as int, n as nat),
        r < room(n as nat),
    decreases n,
{
    assert(d@.len() == d.len());
    proof {
        reveal_with_fuel(room, 5);
    }
    if n == 0 {
        0
    } else {
        d[p] as u32 + 0x100 * read_number(d, p + 1, n - 1)
    }
}

/// The bytes of elements that are given by their bits.
pub fn place_elements(bits: &Vec<u32>, size: usize) -> (r: Vec<u8>)
    ensures
        r@ == placed(bits@, size as nat, bits@.len() as int),
{
    let mut out: Vec<u8> = Vec::new();
    let mut i: usize = 0;
    while i < bits.len()
        invariant
            i <= bits@.len(),
            out@ == placed(bits@, size as nat, i as int),
        decreases bits@.len() - i,
    {
        push_number(&mut out, bits[i], size);
        i += 1;
    }
    out
}

fn push_number(out: &mut Vec<u8>, v: u32, n: usize)
    ensures
        final(out)@ == old(out)@ + number_bytes(v as nat, n as nat),
{
    let ghost all = out@ + number_bytes(v as nat, n as nat);
    let mut left = v;
    let mut j: usize = 0;
    while j < n
        invariant
            j <= n,
            all == out@ + number_bytes(left as nat, (n - j) as nat),
        decreases n - j,
    {
        assert(out@ + number_bytes(left as nat, (n - j) as nat) =~= out@.push(
            (left % 0x100) as u8,
        ) + number_bytes((left / 0x100) as nat, (n - j - 1) as nat));
        out.push((left % 0x100) as u8);
        left = left / 0x100;
        j += 1;
    }
    assert(out@ =~= all);
}

/// The types whose numbers have a fraction are those of single
/// and half precision. Those of four and eight bits are packed in blocks, of eighteen and
/// of thirty-four bytes. All others are integers.
pub proof fn lemma_kinds(d: DType)
    ensures
        kind_of(d) == ElementKind::Fraction <==> d == DType::F32 || d == DType::F16 || d
            == DType::BF16,
        kind_of(d) == ElementKind::Block <==> d == DType::Q4 || d == DType::Q8,
        kind_of(d) == ElementKind::Integer <==> d == DType::I8 || d == DType::I16 || d
            == DType::I32 || d == DType::I64 || d == DType::U8,
        kind_of(d) != ElementKind::Block ==> unit_size(d) == dtype_size(d),
        d == DType::Q4 ==> unit_size(d) == 18,
        d == DType::Q8 ==> unit_size(d) == 34,
{
}

/// Bytes behind the last whole element are added one by one, without what does not fit a
/// byte, as far as both tensors reach.
pub proof fn lemma_rest_bytes(a: Seq<u8>, b: Seq<u8>, from: int, i: int)
    requires
        0 <= from,
        0 <= i,
        from + i < a.len(),
        from + i < b.len(),
    ensures
        rest_sums(a, b, from)[i] == (a[from + i] + b[from + i]) % 0x100,
{
    let (x, y) = (a.skip(from), b.skip(from));
    let n = common_count(x, y, 1) as int;
    assert(0 <= i < n);
    lemma_sum_of_elements(x, y, 1, n, i);
    reveal_with_fuel(room, 2);
    lemma_single_byte(rest_sums(a, b, from), i);
    lemma_single_byte(x, i);
    lemma_single_byte(y, i);
}

proof fn lemma_single_byte(d: Seq<u8>, i: int)
    ensures
        element(d, i, 1) == d[i],
{
    reveal_with_fuel(number_at, 2);
    assert(number_at(d, i + 1, 0) == 0);
}

} // verus!

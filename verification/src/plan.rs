//! The steps of a forward pass.
//!
//! A plan says which operation is applied to which rows of numbers, in which
//! order and with which dimensions. What carries it out holds one row for each
//! [`Buffer`].
use vstd::prelude::*;

use crate::dtype::{
    block_bytes, block_size_bytes, block_size_values, block_values, lemma_number_count, numbers_of,
};
use crate::tensor::DType;

verus! {

/// A row of numbers that steps work on.
#[derive(Clone, Copy, Debug, PartialEq, Eq, Structural)]
pub enum Buffer {
    /// The state of the token.
    State,
    /// A copy of the state that a norm is applied to.
    Input,
    /// The query.
    Query,
    /// The key.
    Key,
    /// The value.
    Value,
    /// The key with every head at its full width.
    WideKey,
    /// The value with every head at its full width.
    WideValue,
    /// What attention gives.
    Mixed,
    /// What a projection back to the state's width gives.
    Projected,
    /// What gates a feed-forward step.
    Gate,
    /// The other half of a feed-forward step.
    Up,
    /// What a feed-forward step gives.
    Down,
    /// What an expert gives.
    Expert,
    /// The probabilities of the router.
    Router,
    /// The scores of the tokens.
    Logits,
}

/// A matrix of a layer, or of the model.
#[derive(Clone, Copy, Debug, PartialEq, Eq, Structural)]
pub enum Slot {
    /// The query projection.
    Query,
    /// The key projection.
    Key,
    /// The value projection.
    Value,
    /// The projection of what attention gives.
    AttentionOutput,
    /// The gating projection.
    Gate,
    /// The up projection.
    Up,
    /// The down projection.
    Down,
    /// The router.
    Router,
    /// The projection of the router's probabilities.
    RouterOutput,
    /// The gating projection of an expert.
    ExpertGate(u8),
    /// The up projection of an expert.
    ExpertUp(u8),
    /// The down projection of an expert.
    ExpertDown(u8),
    /// The embeddings.
    Embeddings,
    /// The output projection.
    Output,
}

/// A norm of a layer, or of the model.
#[derive(Clone, Copy, Debug, PartialEq, Eq, Structural)]
pub enum NormSlot {
    /// Before attention.
    Attention,
    /// On the heads of the query.
    Query,
    /// On the heads of the key.
    Key,
    /// Behind attention.
    PostAttention,
    /// Before the feed-forward step.
    FeedForward,
    /// Behind the feed-forward step.
    PostFeedForward,
    /// At the end of a layer.
    Post,
    /// Behind the last layer.
    Last,
}

/// How a matrix and a row are multiplied.
#[derive(Clone, Copy, Debug, PartialEq, Eq, Structural)]
pub enum Product {
    /// Row by row, from blocks of so many bytes and values.
    Blocks { bytes: usize, values: usize },
    /// Row by row.
    Rows,
    /// Column by column.
    Columns,
}

/// One step of a forward pass.
#[derive(Clone, Copy, Debug, PartialEq, Eq, Structural)]
pub enum Step {
    /// The weights of this layer are used from here on.
    Layer(u64),
    /// `to` becomes a copy of `from`.
    Copy { from: Buffer, to: Buffer },
    /// A norm is applied.
    Norm { buffer: Buffer, norm: NormSlot },
    /// A norm is applied to every head.
    HeadNorm { buffer: Buffer, norm: NormSlot, heads: u64, head_dim: u64 },
    /// `to` becomes the product of a matrix and `from`.
    Multiply { matrix: Slot, how: Product, rows: u64, cols: u64, from: Buffer, to: Buffer },
    /// Every head is rotated by its position.
    Rotate { buffer: Buffer, heads: u64, head_dim: u64 },
    /// Every head is rotated by its position and learned frequencies.
    RotateLearned { buffer: Buffer, heads: u64, head_dim: u64, sliding: bool },
    /// Every head is widened with zeros.
    Widen { from: Buffer, to: Buffer, heads: u64, head_dim: u64, full: u64 },
    /// Key and value are stored in the cache.
    Store { key: Buffer, value: Buffer },
    /// The scores of all stored positions are computed, and scaled by the root
    /// of the head's width.
    Score { heads: u64, kv_heads: u64, head_dim: u64, full: u64 },
    /// Scores of positions that may not be seen are masked.
    Mask { heads: u64, sliding: bool, window: u64 },
    /// The scores of every head become probabilities.
    Softmax { heads: u64 },
    /// The stored values are mixed by the probabilities.
    Mix { heads: u64, kv_heads: u64, head_dim: u64, full: u64 },
    /// Every number is scaled by the layer's scale.
    LayerScale { buffer: Buffer },
    /// The activation is applied to every number.
    Activate { buffer: Buffer },
    /// Every number of `to` is multiplied by that of `by`.
    Times { to: Buffer, by: Buffer },
    /// `from` is added to `to`.
    Add { to: Buffer, from: Buffer },
    /// The router's numbers become probabilities, and the best two are found.
    Route,
    /// From here to the end of the expert, nothing is done unless the best route
    /// is strong enough.
    IfRouted,
    /// What an expert gives is added, scaled by its route's probability.
    AddRouted { to: Buffer, from: Buffer, route: u8 },
    /// Behind the last expert.
    EndRouted,
    /// The cache counts the position.
    Advance,
}

/// How a loaded matrix is multiplied: from its blocks where its bytes are there.
pub open spec fn product_for(raw: bool, dtype: DType, columns: bool) -> Product {
    if raw {
        Product::Blocks {
            bytes: block_bytes(dtype) as usize,
            values: block_values(dtype) as usize,
        }
    } else if columns {
        Product::Columns
    } else {
        Product::Rows
    }
}

/// How a loaded matrix is multiplied: from its blocks where its bytes are there.
pub fn choose_product(raw: bool, dtype: DType, columns: bool) -> (r: Product)
    ensures
        r == product_for(raw, dtype, columns),
{
    if raw {
        Product::Blocks { bytes: block_size_bytes(dtype), values: block_size_values(dtype) }
    } else if columns {
        Product::Columns
    } else {
        Product::Rows
    }
}

// ── Attention ───────────────────────────────────────────────────────
/// The head of keys and values that a query head looks at.
pub open spec fn kv_head_of(head: int, heads: int, kv_heads: int) -> int {
    let h = head * kv_heads / heads;
    if h < kv_heads - 1 {
        h
    } else {
        kv_heads - 1
    }
}

/// Neighbouring query heads share a head of keys and values, and every query
/// head has one.
pub proof fn lemma_kv_head(head: int, heads: int, kv_heads: int)
    requires
        0 <= head < heads,
        0 < kv_heads,
    ensures
        0 <= kv_head_of(head, heads, kv_heads) < kv_heads,
        kv_head_of(head, heads, kv_heads) == head * kv_heads / heads,
{
    let n = head * kv_heads;
    assert(0 <= n && n <= (heads - 1) * kv_heads) by (nonlinear_arith)
        requires
            0 <= head <= heads - 1,
            0 < kv_heads,
            n == head * kv_heads,
    ;
    assert((heads - 1) * kv_heads == heads * kv_heads - kv_heads) by (nonlinear_arith);
    vstd::arithmetic::div_mod::lemma_div_pos_is_pos(n, heads);
    assert(n < kv_heads * heads) by (nonlinear_arith)
        requires
            n <= heads * kv_heads - kv_heads,
            0 < kv_heads,
    ;
    vstd::arithmetic::div_mod::lemma_div_by_multiple_is_strongly_ordered(
        n,
        kv_heads * heads,
        kv_heads,
        heads,
    );
    vstd::arithmetic::div_mod::lemma_div_by_multiple(kv_heads, heads);
}

/// The head of keys and values that a query head looks at.
pub fn kv_head(head: usize, heads: usize, kv_heads: usize) -> (r: usize)
    requires
        head < heads,
        kv_heads > 0,
    ensures
        r == kv_head_of(head as int, heads as int, kv_heads as int),
        r < kv_heads,
{
    proof {
        lemma_kv_head(head as int, heads as int, kv_heads as int);
        let (a, b) = (head as int, kv_heads as int);
        assert(0 <= a * b <= 0xffff_ffff_ffff_ffff * 0xffff_ffff_ffff_ffff) by (nonlinear_arith)
            requires
                0 <= a <= 0xffff_ffff_ffff_ffff,
                0 <= b <= 0xffff_ffff_ffff_ffff,
        ;
    }
    let h = (head as u128 * kv_heads as u128 / heads as u128) as usize;
    if h < kv_heads - 1 {
        h
    } else {
        kv_heads - 1
    }
}

/// Where a stored head begins: heads stand by position, each `full` wide.
pub open spec fn stored_head(pos: int, kv_heads: int, kv_head: int, full: int) -> int {
    (pos * kv_heads + kv_head) * full
}

/// The numbers that a step reads of a stored head lie among those stored.
pub proof fn lemma_stored_head(
    pos: int,
    len: int,
    kv_heads: int,
    kv_head: int,
    head_dim: int,
    full: int,
)
    requires
        0 <= pos < len,
        0 <= kv_head < kv_heads,
        0 <= head_dim <= full,
    ensures
        0 <= stored_head(pos, kv_heads, kv_head, full),
        stored_head(pos, kv_heads, kv_head, full) + head_dim <= len * (kv_heads * full),
{
    let a = pos * kv_heads + kv_head;
    assert(0 <= a && a + 1 <= len * kv_heads) by (nonlinear_arith)
        requires
            0 <= pos < len,
            0 <= kv_head < kv_heads,
            a == pos * kv_heads + kv_head,
    ;
    assert(0 <= a * full && a * full + full <= len * (kv_heads * full)) by (nonlinear_arith)
        requires
            0 <= a,
            a + 1 <= len * kv_heads,
            0 <= full,
    ;
}

/// Where a stored head begins.
pub fn stored_head_at(pos: usize, kv_heads: usize, kv_head: usize, full: usize, len: usize) -> (r:
    usize)
    requires
        pos < len,
        kv_head < kv_heads,
        len * (kv_heads * full) <= usize::MAX,
        len * kv_heads <= usize::MAX,
    ensures
        r == stored_head(pos as int, kv_heads as int, kv_head as int, full as int),
{
    proof {
        lemma_stored_head(
            pos as int,
            len as int,
            kv_heads as int,
            kv_head as int,
            full as int,
            full as int,
        );
        let (p, l, k, h) = (pos as int, len as int, kv_heads as int, kv_head as int);
        assert(0 <= p * k && p * k + h <= l * k) by (nonlinear_arith)
            requires
                0 <= p < l,
                0 <= h < k,
        ;
    }
    (pos * kv_heads + kv_head) * full
}

// ── Rows of heads ───────────────────────────────────────────────────
/// The heads, each `head_dim` wide, with zeros behind each up to `full`.
pub open spec fn widened<T>(src: Seq<T>, heads: int, head_dim: int, full: int, zero: T) -> Seq<T> {
    Seq::new(
        (heads * full) as nat,
        |i: int|
            if i % full < head_dim {
                src[i / full * head_dim + i % full]
            } else {
                zero
            },
    )
}

/// The heads, each `head_dim` wide, with zeros behind each up to `full`.
pub fn widen_heads<T: Copy>(src: &[T], heads: usize, head_dim: usize, full: usize, zero: T) -> (r:
    Vec<T>)
    requires
        src@.len() == heads * head_dim,
        heads > 0 ==> head_dim <= full,
        heads * full <= usize::MAX,
    ensures
        r@ == widened(src@, heads as int, head_dim as int, full as int, zero),
{
    let mut out: Vec<T> = Vec::new();
    let ghost all = widened(src@, heads as int, head_dim as int, full as int, zero);
    let mut h: usize = 0;
    let mut at: usize = 0;
    assert(out@ =~= all.take(0));
    assert(src@.len() == src.len());
    assert(0 * full == 0 && 0 * head_dim == 0) by (nonlinear_arith);
    while h < heads
        invariant
            h <= heads,
            src@.len() == heads * head_dim,
            heads > 0 ==> head_dim <= full,
            heads * full <= usize::MAX,
            src@.len() <= usize::MAX,
            at == h * head_dim,
            out@ == all.take(h * full),
            all == widened(src@, heads as int, head_dim as int, full as int, zero),
        decreases heads - h,
    {
        proof {
            assert((h + 1) * full <= heads * full && (h + 1) * head_dim <= heads * head_dim)
                by (nonlinear_arith)
                requires
                    h + 1 <= heads,
                    0 <= full,
                    0 <= head_dim,
            ;
            assert((h + 1) * full == h * full + full && (h + 1) * head_dim == h * head_dim
                + head_dim) by (nonlinear_arith);
            assert(0 <= h * full) by (nonlinear_arith)
                requires
                    0 <= h,
                    0 <= full,
            ;
        }
        let ghost base = h * full;
        let mut i: usize = 0;
        while i < full
            invariant
                i <= full,
                h < heads,
                src@.len() == heads * head_dim,
                head_dim <= full,
                at == h * head_dim,
                at + head_dim <= src@.len(),
                base == h * full,
                base + full <= heads * full,
                0 <= base,
                src@.len() <= usize::MAX,
                out@ == all.take(base + i),
                all == widened(src@, heads as int, head_dim as int, full as int, zero),
            decreases full - i,
        {
            proof {
                vstd::arithmetic::div_mod::lemma_fundamental_div_mod_converse(
                    base + i,
                    full as int,
                    h as int,
                    i as int,
                );
            }
            let v = if i < head_dim {
                src[at + i]
            } else {
                zero
            };
            assert(v == all[base + i]);
            out.push(v);
            i += 1;
            assert(out@ =~= all.take(base + i));
        }
        at = at + head_dim;
        h += 1;
    }
    assert(all.take(h * full) =~= all);
    out
}

// ── Laws ────────────────────────────────────────────────────────────
/// A matrix whose bytes are there is multiplied from its blocks, and these have as many
/// bytes and numbers as its type reads; any other by its columns or its rows, as asked.
pub proof fn lemma_product_for(raw: bool, dtype: DType, columns: bool, d: Seq<u8>)
    ensures
        match product_for(raw, dtype, columns) {
            Product::Blocks { bytes, values } => raw && bytes > 0 && (dtype != DType::F16 && dtype
                != DType::BF16 ==> numbers_of(d, dtype).count() == values * (d.len() / bytes as nat)),
            Product::Columns => !raw && columns,
            Product::Rows => !raw && !columns,
        },
{
    lemma_number_count(d, dtype);
}

/// Every number of a head keeps its place in the head, and what a head was widened by
/// is zero.
pub proof fn lemma_widened<T>(
    src: Seq<T>,
    heads: int,
    head_dim: int,
    full: int,
    zero: T,
    h: int,
    i: int,
)
    requires
        0 <= h < heads,
        0 <= i < full,
        0 <= head_dim <= full,
    ensures
        widened(src, heads, head_dim, full, zero).len() == heads * full,
        0 <= h * full + i < heads * full,
        widened(src, heads, head_dim, full, zero)[h * full + i] == (if i < head_dim {
            src[h * head_dim + i]
        } else {
            zero
        }),
{
    vstd::arithmetic::div_mod::lemma_fundamental_div_mod_converse(h * full + i, full, h, i);
    assert(0 <= h * full + i < heads * full) by (nonlinear_arith)
        requires
            0 <= h < heads,
            0 <= i < full,
    ;
}

/// Stored heads stand one behind the other, all of a position before those of the next.
pub proof fn lemma_stored_order(pos: int, kv_heads: int, kv_head: int, full: int)
    ensures
        stored_head(0, kv_heads, 0, full) == 0,
        stored_head(pos, kv_heads, kv_head + 1, full) == stored_head(pos, kv_heads, kv_head, full)
            + full,
        stored_head(pos + 1, kv_heads, 0, full) == stored_head(pos, kv_heads, kv_heads, full),
{
    assert((pos * kv_heads + (kv_head + 1)) * full == (pos * kv_heads + kv_head) * full + full)
        by (nonlinear_arith);
    assert((pos + 1) * kv_heads + 0 == pos * kv_heads + kv_heads) by (nonlinear_arith);
    assert((0 * kv_heads + 0) * full == 0) by (nonlinear_arith);
}

} // verus!

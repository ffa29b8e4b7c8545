//! Matrices whose rows are blocks of scaled integers.
use vstd::prelude::*;

use crate::dtype::{
    block_models, blocks_for, div_ceil, q4_block, q4_blocks, q8_block, q8_blocks, read_q4_block,
    read_q8_block, Block, QuantBlock,
};

verus! {

/// The bytes of a row.
pub open spec fn row_stride(cols: int, bytes: int, values: int) -> int {
    blocks_for(cols, values) * bytes
}

/// Where a row ends: where the next one begins, or where the data does.
pub open spec fn row_end(len: int, r: int, cols: int, bytes: int, values: int) -> int {
    let end = r * row_stride(cols, bytes, values) + row_stride(cols, bytes, values);
    if end < len {
        end
    } else {
        len
    }
}

/// How many whole blocks of a row there are.
pub open spec fn row_block_count(len: int, r: int, cols: int, bytes: int, values: int) -> int {
    let start = r * row_stride(cols, bytes, values);
    let whole = (row_end(len, r, cols, bytes, values) - start) / bytes;
    if whole < blocks_for(cols, values) {
        whole
    } else {
        blocks_for(cols, values)
    }
}

/// The blocks of a row, by how many bytes and values a block has. A format that
/// is not known has no blocks.
pub open spec fn row_blocks(d: Seq<u8>, r: int, cols: int, bytes: int, values: int) -> Seq<Block> {
    let start = r * row_stride(cols, bytes, values);
    let n = row_block_count(d.len() as int, r, cols, bytes, values);
    if bytes == 18 && values == 32 {
        Seq::new(n as nat, |b: int| q4_block(d, start + 18 * b))
    } else if bytes == 34 && values == 32 {
        Seq::new(n as nat, |b: int| q8_block(d, start + 34 * b))
    } else {
        Seq::empty()
    }
}

/// The whole blocks of a row are those of its bytes, read as a tensor of their
/// own.
pub proof fn lemma_row_is_tensor(d: Seq<u8>, r: int, cols: int, bytes: int)
    requires
        bytes == 18 || bytes == 34,
        0 <= r,
        0 <= cols,
        r * row_stride(cols, bytes, 32) <= d.len(),
    ensures
        ({
            let start = r * row_stride(cols, bytes, 32);
            let row = d.subrange(start, row_end(d.len() as int, r, cols, bytes, 32));
            &&& bytes == 18 ==> row_blocks(d, r, cols, 18, 32) == q4_blocks(row)
            &&& bytes == 34 ==> row_blocks(d, r, cols, 34, 32) == q8_blocks(row)
        }),
{
    let start = r * row_stride(cols, bytes, 32);
    let end = row_end(d.len() as int, r, cols, bytes, 32);
    let blocks = blocks_for(cols, 32);
    let n = row_block_count(d.len() as int, r, cols, bytes, 32);
    assert(0 <= start) by (nonlinear_arith)
        requires
            0 <= r,
            0 <= blocks,
            0 <= bytes,
            start == r * (blocks * bytes),
    ;
    let row = d.subrange(start, end);
    let size = (end - start) as int;
    assert(0 <= size <= blocks * bytes);
    assert(size / bytes <= blocks) by (nonlinear_arith)
        requires
            0 <= size <= blocks * bytes,
            0 < bytes,
    ;
    assert(n == size / bytes);
    assert(n * bytes <= size) by (nonlinear_arith)
        requires
            0 <= size,
            0 < bytes,
            n == size / bytes,
    ;
    if bytes == 18 {
        assert forall|b: int| 0 <= b < n implies #[trigger] q4_block(d, start + 18 * b) == q4_block(
            row,
            18 * b,
        ) by {
            assert(q4_block(d, start + 18 * b).values =~= q4_block(row, 18 * b).values);
        }
        assert(row_blocks(d, r, cols, 18, 32) =~= q4_blocks(row));
    } else {
        assert forall|b: int| 0 <= b < n implies #[trigger] q8_block(d, start + 34 * b) == q8_block(
            row,
            34 * b,
        ) by {
            assert(q8_block(d, start + 34 * b).values =~= q8_block(row, 34 * b).values);
        }
        assert(row_blocks(d, r, cols, 34, 32) =~= q8_blocks(row));
    }
}

/// The blocks of row `r` of a matrix with `cols` columns, whose blocks have
/// `block_bytes` bytes and `vals_per_block` values.
pub fn quantized_row(
    d: &[u8],
    r: usize,
    cols: usize,
    block_bytes: usize,
    vals_per_block: usize,
) -> (out: Vec<QuantBlock>)
    requires
        vals_per_block > 0,
        row_stride(cols as int, block_bytes as int, vals_per_block as int) <= usize::MAX,
        r * row_stride(cols as int, block_bytes as int, vals_per_block as int) <= d@.len(),
    ensures
        block_models(out@) == row_blocks(
            d@,
            r as int,
            cols as int,
            block_bytes as int,
            vals_per_block as int,
        ),
{
    let mut out: Vec<QuantBlock> = Vec::new();
    assert(d@.len() == d.len());
    let four = block_bytes == 18 && vals_per_block == 32;
    if !four && !(block_bytes == 34 && vals_per_block == 32) {
        assert(block_models(out@) =~= Seq::empty());
        return out;
    }
    let blocks = div_ceil(cols, vals_per_block);
    let stride = blocks * block_bytes;
    let start = r * stride;
    let left = d.len() - start;
    let whole = if stride < left {
        stride / block_bytes
    } else {
        left / block_bytes
    };
    let n = if whole < blocks {
        whole
    } else {
        blocks
    };
    let ghost all = row_blocks(
        d@,
        r as int,
        cols as int,
        block_bytes as int,
        vals_per_block as int,
    );
    assert(n == row_block_count(
        d@.len() as int,
        r as int,
        cols as int,
        block_bytes as int,
        vals_per_block as int,
    ));
    assert(start + n * block_bytes <= d@.len());
    let mut b: usize = 0;
    let mut at: usize = start;
    while b < n
        invariant
            b <= n,
            d@.len() == d.len(),
            block_bytes == 18 || block_bytes == 34,
            four == (block_bytes == 18),
            start + n * block_bytes <= d@.len(),
            at == start + b * block_bytes,
            all.len() == n,
            four ==> forall|k: int|
                0 <= k < n ==> #[trigger] all[k] == q4_block(d@, start + 18 * k),
            !four ==> forall|k: int|
                0 <= k < n ==> #[trigger] all[k] == q8_block(d@, start + 34 * k),
            block_models(out@) == all.take(b as int),
        decreases n - b,
    {
        let x = if four {
            read_q4_block(d, at)
        } else {
            read_q8_block(d, at)
        };
        proof {
            assert(x@ == all[b as int]);
            assert(block_models(out@.push(x)) =~= block_models(out@).push(x@));
            assert(all.take(b + 1) =~= all.take(b as int).push(all[b as int]));
        }
        out.push(x);
        at = at + block_bytes;
        b += 1;
    }
    assert(all.take(b as int) =~= all);
    out
}

} // verus!

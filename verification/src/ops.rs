//! Operations on rows of numbers that move or mask them.
use vstd::prelude::*;

verus! {

/// Copies `src` into `dst`, which is as long.
pub fn copy<T: Copy>(dst: &mut [T], src: &[T])
    requires
        old(dst)@.len() == src@.len(),
    ensures
        final(dst)@ == src@,
{
    let mut i: usize = 0;
    while i < src.len()
        invariant
            i <= src@.len(),
            dst@.len() == src@.len(),
            forall|k: int| 0 <= k < i ==> dst@[k] == src@[k],
        decreases src@.len() - i,
    {
        dst[i] = src[i];
        i += 1;
    }
    assert(dst@ =~= src@);
}

/// Whether the score at place `i` belongs to a key that its query may not see.
/// Scores stand by head, then by query, then by key; the last query stands
/// where the last key does.
pub open spec fn causally_hidden(i: int, q_len: int, kv_len: int) -> bool {
    let q = i / kv_len % q_len;
    let k = i % kv_len;
    q < k || q + (kv_len - q_len) < k
}

/// The scores with `mask` in place of each that is hidden.
pub open spec fn masked<T>(scores: Seq<T>, n: int, hidden: spec_fn(int) -> bool, mask: T) -> Seq<T> {
    Seq::new(
        scores.len(),
        |i: int|
            if i < n && hidden(i) {
                mask
            } else {
                scores[i]
            },
    )
}

proof fn lemma_place(h: int, a: int, b: int, na: int, nb: int)
    requires
        0 <= h,
        0 <= a < na,
        0 <= b < nb,
    ensures
        (h * na * nb + a * nb + b) / nb % na == a,
        (h * na * nb + a * nb + b) % nb == b,
        h * na * nb + a * nb + b == (h * na + a) * nb + b,
{
    let i = h * na * nb + a * nb + b;
    assert(i == (h * na + a) * nb + b) by (nonlinear_arith)
        requires
            i == h * na * nb + a * nb + b,
    ;
    vstd::arithmetic::div_mod::lemma_fundamental_div_mod_converse(i, nb, h * na + a, b);
    vstd::arithmetic::div_mod::lemma_fundamental_div_mod_converse(h * na + a, na, h, a);
}

/// Sets the score of every key that its query may not see to `mask`. Scores
/// stand by head, then by query, then by key.
pub fn apply_causal_mask<T: Copy>(
    scores: &mut [T],
    n_heads: usize,
    q_len: usize,
    kv_len: usize,
    mask: T,
)
    requires
        n_heads * q_len * kv_len <= old(scores)@.len(),
        n_heads > 0 && kv_len > 0 ==> q_len <= kv_len,
    ensures
        final(scores)@ == masked(
            old(scores)@,
            n_heads * q_len * kv_len,
            |i: int| causally_hidden(i, q_len as int, kv_len as int),
            mask,
        ),
{
    let ghost before = scores@;
    let n = scores.len();
    let mut h: usize = 0;
    let mut at: usize = 0;
    assert(0 * q_len * kv_len == 0) by (nonlinear_arith);
    while h < n_heads
        invariant
            h <= n_heads,
            at == h * q_len * kv_len,
            n == scores@.len(),
            n_heads * q_len * kv_len <= n,
            n_heads > 0 && kv_len > 0 ==> q_len <= kv_len,
            before.len() == n,
            scores@ == masked(
                before,
                at as int,
                |i: int| causally_hidden(i, q_len as int, kv_len as int),
                mask,
            ),
        decreases n_heads - h,
    {
        let mut q: usize = 0;
        proof {
            assert((h + 1) * q_len * kv_len <= n_heads * q_len * kv_len) by (nonlinear_arith)
                requires
                    h + 1 <= n_heads,
                    0 <= q_len,
                    0 <= kv_len,
            ;
            assert((h + 1) * q_len * kv_len == h * q_len * kv_len + q_len * kv_len)
                by (nonlinear_arith);
        }
        let ghost base = at as int;
        while q < q_len
            invariant
                q <= q_len,
                h < n_heads,
                base == h * q_len * kv_len,
                at == base + q * kv_len,
                base + q_len * kv_len <= n,
                n == scores@.len(),
                n_heads > 0 && kv_len > 0 ==> q_len <= kv_len,
                before.len() == n,
                scores@ == masked(
                    before,
                    at as int,
                    |i: int| causally_hidden(i, q_len as int, kv_len as int),
                    mask,
                ),
            decreases q_len - q,
        {
            let mut k: usize = 0;
            proof {
                assert((q + 1) * kv_len <= q_len * kv_len) by (nonlinear_arith)
                    requires
                        q + 1 <= q_len,
                        0 <= kv_len,
                ;
                assert((q + 1) * kv_len == q * kv_len + kv_len) by (nonlinear_arith);
            }
            let ghost row = at as int;
            while k < kv_len
                invariant
                    k <= kv_len,
                    q < q_len,
                    h < n_heads,
                    base == h * q_len * kv_len,
                    row == base + q * kv_len,
                    at == row + k,
                    row + kv_len <= n,
                    n == scores@.len(),
                    n_heads > 0 && kv_len > 0 ==> q_len <= kv_len,
                    before.len() == n,
                    scores@ == masked(
                        before,
                        at as int,
                        |i: int| causally_hidden(i, q_len as int, kv_len as int),
                        mask,
                    ),
                decreases kv_len - k,
            {
                proof {
                    lemma_place(h as int, q as int, k as int, q_len as int, kv_len as int);
                }
                if q < k || q + (kv_len - q_len) < k {
                    scores[at] = mask;
                }
                at += 1;
                k += 1;
                assert(scores@ =~= masked(
                    before,
                    at as int,
                    |i: int| causally_hidden(i, q_len as int, kv_len as int),
                    mask,
                ));
            }
            q += 1;
        }
        h += 1;
    }
}

/// Whether the score at place `i` belongs to a key behind the position, or too
/// far before it in a layer with a sliding window. Scores stand by head, then by
/// key.
pub open spec fn window_hidden(i: int, seq_len: int, pos: int, sliding: bool, window: int) -> bool {
    let k = i % seq_len;
    k > pos || (sliding && pos - k > window)
}

/// Sets the score of every key behind the position, or outside the sliding
/// window, to `mask`. Scores stand by head, then by key.
pub fn apply_gemma_mask<T: Copy>(
    scores: &mut [T],
    n_heads: usize,
    seq_len: usize,
    pos: usize,
    sliding: bool,
    window: usize,
    mask: T,
)
    requires
        n_heads * seq_len <= old(scores)@.len(),
    ensures
        final(scores)@ == masked(
            old(scores)@,
            n_heads * seq_len,
            |i: int| window_hidden(i, seq_len as int, pos as int, sliding, window as int),
            mask,
        ),
{
    let ghost before = scores@;
    let n = scores.len();
    let mut h: usize = 0;
    let mut at: usize = 0;
    while h < n_heads
        invariant
            h <= n_heads,
            at == h * seq_len,
            n == scores@.len(),
            n_heads * seq_len <= n,
            before.len() == n,
            scores@ == masked(
                before,
                at as int,
                |i: int| window_hidden(i, seq_len as int, pos as int, sliding, window as int),
                mask,
            ),
        decreases n_heads - h,
    {
        let mut k: usize = 0;
        proof {
            assert((h + 1) * seq_len <= n_heads * seq_len) by (nonlinear_arith)
                requires
                    h + 1 <= n_heads,
                    0 <= seq_len,
            ;
            assert((h + 1) * seq_len == h * seq_len + seq_len) by (nonlinear_arith);
        }
        let ghost row = at as int;
        while k < seq_len
            invariant
                k <= seq_len,
                h < n_heads,
                row == h * seq_len,
                at == row + k,
                row + seq_len <= n,
                n == scores@.len(),
                before.len() == n,
                scores@ == masked(
                    before,
                    at as int,
                    |i: int| window_hidden(i, seq_len as int, pos as int, sliding, window as int),
                    mask,
                ),
            decreases seq_len - k,
        {
            proof {
                vstd::arithmetic::div_mod::lemma_fundamental_div_mod_converse(
                    at as int,
                    seq_len as int,
                    h as int,
                    k as int,
                );
            }
            if k > pos || (sliding && pos - k > window) {
                scores[at] = mask;
            }
            at += 1;
            k += 1;
            assert(scores@ =~= masked(
                before,
                at as int,
                |i: int| window_hidden(i, seq_len as int, pos as int, sliding, window as int),
                mask,
            ));
        }
        h += 1;
    }
}

// ── Laws ────────────────────────────────────────────────────────────
/// Of the scores of a head, a query does not see those of keys behind its own place,
/// and of the others none behind where it would stand if the last query stood where
/// the last key does. With as many queries as keys it sees all keys up to its own
/// place.
pub proof fn lemma_causal_mask<T>(
    scores: Seq<T>,
    heads: int,
    q_len: int,
    kv_len: int,
    mask: T,
    h: int,
    q: int,
    k: int,
)
    requires
        0 <= h < heads,
        0 <= q < q_len,
        0 <= k < kv_len,
        heads * q_len * kv_len <= scores.len(),
    ensures
        ({
            let i = (h * q_len + q) * kv_len + k;
            let m = masked(
                scores,
                heads * q_len * kv_len,
                |i: int| causally_hidden(i, q_len, kv_len),
                mask,
            );
            &&& 0 <= i < heads * q_len * kv_len
            &&& m[i] == (if k <= q && k - q <= kv_len - q_len {
                scores[i]
            } else {
                mask
            })
        }),
{
    lemma_place(h, q, k, q_len, kv_len);
    let i = (h * q_len + q) * kv_len + k;
    assert(0 <= i < heads * q_len * kv_len) by (nonlinear_arith)
        requires
            0 <= h < heads,
            0 <= q < q_len,
            0 <= k < kv_len,
            i == (h * q_len + q) * kv_len + k,
    ;
}

/// Of the scores of a head, those of keys behind the position are hidden, and with a
/// sliding window those of keys more than the window before it; all others stay.
pub proof fn lemma_window_mask<T>(
    scores: Seq<T>,
    heads: int,
    seq_len: int,
    pos: int,
    sliding: bool,
    window: int,
    mask: T,
    h: int,
    k: int,
)
    requires
        0 <= h < heads,
        0 <= k < seq_len,
        heads * seq_len <= scores.len(),
    ensures
        ({
            let i = h * seq_len + k;
            let m = masked(
                scores,
                heads * seq_len,
                |i: int| window_hidden(i, seq_len, pos, sliding, window),
                mask,
            );
            &&& 0 <= i < heads * seq_len
            &&& m[i] == (if k <= pos && (sliding ==> k >= pos - window) {
                scores[i]
            } else {
                mask
            })
        }),
{
    let i = h * seq_len + k;
    vstd::arithmetic::div_mod::lemma_fundamental_div_mod_converse(i, seq_len, h, k);
    assert(0 <= i < heads * seq_len) by (nonlinear_arith)
        requires
            0 <= h < heads,
            0 <= k < seq_len,
            i == h * seq_len + k,
    ;
}

/// What stands behind the scores is left as it is, and nothing moves.
pub proof fn lemma_behind_scores<T>(
    scores: Seq<T>,
    n: int,
    hidden: spec_fn(int) -> bool,
    mask: T,
    i: int,
)
    requires
        0 <= i < scores.len(),
    ensures
        masked(scores, n, hidden, mask).len() == scores.len(),
        i >= n ==> masked(scores, n, hidden, mask)[i] == scores[i],
        i < n ==> masked(scores, n, hidden, mask)[i] == if hidden(i) {
            mask
        } else {
            scores[i]
        },
{
}

} // verus!

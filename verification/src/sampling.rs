//! Choosing the next token.
//!
//! Scores are single-precision numbers, carried by their bits. Two of them are
//! compared by a key that orders them as the numbers are ordered, with both
//! zeros equal.
use vstd::arithmetic::power2::{lemma2_to64, lemma_pow2_adds, pow2};
use vstd::prelude::*;

verus! {

// ── Order ───────────────────────────────────────────────────────────
/// The bits are those of no number.
pub open spec fn is_nan(bits: u32) -> bool {
    bits % 0x8000_0000 > 0x7f80_0000
}

/// The key of a score.
pub open spec fn key_of(bits: u32) -> int {
    if bits < 0x8000_0000 {
        bits as int
    } else {
        0x8000_0000 - bits
    }
}

/// The key of a score.
pub fn order_key(bits: u32) -> (r: i64)
    ensures
        r == key_of(bits),
{
    if bits < 0x8000_0000 {
        bits as i64
    } else {
        0x8000_0000 - bits as i64
    }
}

/// Whether one score is less than another. What is no number is not less, and
/// nothing is less than it.
pub open spec fn less(a: u32, b: u32) -> bool {
    !is_nan(a) && !is_nan(b) && key_of(a) < key_of(b)
}

/// Whether one score is less than another.
pub fn is_less(a: u32, b: u32) -> (r: bool)
    ensures
        r == less(a, b),
{
    a % 0x8000_0000 <= 0x7f80_0000 && b % 0x8000_0000 <= 0x7f80_0000 && order_key(a) < order_key(b)
}

// ── Parameters ──────────────────────────────────────────────────────
/// How a token is chosen. The fractions are carried by their bits.
#[derive(Clone, Copy, Debug, PartialEq, Eq, Structural)]
pub struct SamplingParams {
    /// How far scores are flattened; at zero the best token is taken.
    pub temperature: u32,
    /// How many of the best tokens are chosen among.
    pub top_k: usize,
    /// The share of probability that the chosen among have together.
    pub top_p: u32,
    /// How much tokens that were seen already are held back.
    pub repeat_penalty: u32,
}

/// How a token is chosen where nothing else is asked for.
pub open spec fn default_params() -> SamplingParams {
    SamplingParams {
        temperature: 0x3f33_3333,
        top_k: 40,
        top_p: 0x3f66_6666,
        repeat_penalty: 0x3f8c_cccd,
    }
}

impl Default for SamplingParams {
    fn default() -> (r: SamplingParams)
        ensures
            r == default_params(),
            r == (SamplingParams {
                temperature: 0x3f33_3333,
                top_k: 40,
                top_p: 0x3f66_6666,
                repeat_penalty: 0x3f8c_cccd,
            }),
    {
        SamplingParams {
            temperature: 0x3f33_3333,
            top_k: 40,
            top_p: 0x3f66_6666,
            repeat_penalty: 0x3f8c_cccd,
        }
    }
}

/// The bits of one millionth, below which a temperature counts as zero.
pub const LEAST_TEMPERATURE: u32 = 0x3586_37bd;

// ── Greedy choice ───────────────────────────────────────────────────
/// `i` is the last place of a greatest score, or zero where there is none.
pub open spec fn is_last_greatest(s: Seq<u32>, i: int) -> bool {
    if s.len() == 0 {
        i == 0
    } else {
        &&& 0 <= i < s.len()
        &&& forall|j: int| 0 <= j < s.len() ==> key_of(#[trigger] s[j]) <= key_of(s[i])
        &&& forall|j: int| i < j < s.len() ==> key_of(#[trigger] s[j]) < key_of(s[i])
    }
}

/// The scores can be told apart: all are numbers, or there are not two of them.
pub open spec fn comparable(s: Seq<u32>) -> bool {
    s.len() > 1 ==> forall|i: int| 0 <= i < s.len() ==> !is_nan(#[trigger] s[i])
}

/// The place of the greatest score, the last where several are.
pub fn greedy_sample(probs: &[u32]) -> (r: usize)
    requires
        comparable(probs@),
    ensures
        is_last_greatest(probs@, r as int),
{
    let mut best: usize = 0;
    let mut i: usize = 0;
    while i < probs.len()
        invariant
            i <= probs@.len(),
            i == 0 ==> best == 0,
            i > 0 ==> is_last_greatest(probs@.take(i as int), best as int),
        decreases probs@.len() - i,
    {
        let ghost before = probs@.take(i as int);
        let ghost now = probs@.take(i + 1);
        assert forall|j: int| 0 <= j < i implies now[j] == before[j] by {}
        if i == 0 || order_key(probs[i]) >= order_key(probs[best]) {
            best = i;
        }
        i += 1;
        assert(is_last_greatest(now, best as int));
    }
    assert(probs@.take(i as int) =~= probs@);
    best
}

/// What is to be done with the scores.
#[derive(Clone, Copy, Debug, PartialEq, Eq, Structural)]
pub enum SampleStart {
    /// This token is taken.
    Take(usize),
    /// A token is drawn from the scores, made into probabilities.
    Draw,
}

/// Whether a token can be taken without a draw: the first where there are no
/// scores, the best where the temperature counts as zero.
pub fn sample_start(logits: &[u32], params: &SamplingParams) -> (r: SampleStart)
    requires
        less(params.temperature, LEAST_TEMPERATURE) ==> comparable(logits@),
    ensures
        match r {
            SampleStart::Take(i) => is_last_greatest(logits@, i as int) && (logits@.len() == 0
                || less(params.temperature, LEAST_TEMPERATURE)),
            SampleStart::Draw => logits@.len() > 0 && !less(
                params.temperature,
                LEAST_TEMPERATURE,
            ),
        },
        r is Draw <==> logits@.len() > 0 && !is_cold(params.temperature),
{
    if logits.len() == 0 {
        return SampleStart::Take(0);
    }
    if is_less(params.temperature, LEAST_TEMPERATURE) {
        return SampleStart::Take(greedy_sample(logits));
    }
    SampleStart::Draw
}

/// The bits of one.
pub const WHOLE: u32 = 0x3f80_0000;

/// Which tokens are cut before a draw among `n`: all but the best `top_k` where
/// there are more, and those outside the share `top_p` where it is less than one.
pub fn filters_of(params: &SamplingParams, n: usize) -> (r: (bool, bool))
    ensures
        r.0 == (params.top_k < n),
        r.1 == less(params.top_p, WHOLE),
        r == cuts(params.top_k as int, params.top_p, n as int),
{
    (params.top_k < n, is_less(params.top_p, WHOLE))
}

// ── The best k ──────────────────────────────────────────────────────
/// How many scores have a key above `t`.
pub open spec fn count_above(s: Seq<u32>, t: int) -> nat
    decreases s.len(),
{
    if s.len() == 0 {
        0
    } else {
        count_above(s.drop_last(), t) + (if key_of(s.last()) > t {
            1nat
        } else {
            0nat
        })
    }
}

/// `t` is the key of the `k`th greatest score.
pub open spec fn is_kth(s: Seq<u32>, k: int, t: int) -> bool {
    count_above(s, t) < k <= count_above(s, t - 1)
}

/// The key of the `k`th greatest score.
pub open spec fn kth_key(s: Seq<u32>, k: int) -> int {
    choose|t: int| is_kth(s, k, t)
}

/// The scores with zero in place of each whose key is below `t`. What is no number
/// stays.
pub open spec fn zeroed_below(s: Seq<u32>, t: int) -> Seq<u32> {
    Seq::new(
        s.len(),
        |i: int|
            if !is_nan(s[i]) && key_of(s[i]) < t {
                0
            } else {
                s[i]
            },
    )
}

/// Which scores are still kept once those whose key is below `t` were cut. What is
/// no number is not cut.
pub open spec fn kept_from(s: Seq<u32>, kept: Seq<bool>, t: int) -> Seq<bool> {
    Seq::new(s.len(), |i: int| kept[i] && (is_nan(s[i]) || key_of(s[i]) >= t))
}

proof fn lemma_count_step(s: Seq<u32>, a: int, b: int)
    requires
        a <= b,
    ensures
        count_above(s, b) <= count_above(s, a),
        count_above(s, a) <= s.len(),
    decreases s.len(),
{
    if s.len() > 0 {
        lemma_count_step(s.drop_last(), a, b);
    }
}

/// There is one key of the `k`th greatest score at most.
pub proof fn lemma_kth_unique(s: Seq<u32>, k: int, a: int, b: int)
    requires
        is_kth(s, k, a),
        is_kth(s, k, b),
    ensures
        a == b,
{
    if a < b {
        lemma_count_step(s, a, b - 1);
    } else if b < a {
        lemma_count_step(s, b, a - 1);
    }
}

/// With nothing between `m` and `bound`, those above `m - 1` are those above
/// `bound - 1` and those at `m`.
proof fn lemma_count_gap(s: Seq<u32>, m: int, bound: int, at: nat)
    requires
        m < bound,
        forall|i: int| 0 <= i < s.len() ==> key_of(#[trigger] s[i]) <= m || key_of(s[i]) >= bound,
        at == count_at(s, m),
    ensures
        count_above(s, m) == count_above(s, bound - 1),
        count_above(s, m - 1) == count_above(s, bound - 1) + at,
    decreases s.len(),
{
    if s.len() > 0 {
        let rest = s.drop_last();
        assert forall|i: int| 0 <= i < rest.len() implies key_of(#[trigger] rest[i]) <= m || key_of(
            rest[i],
        ) >= bound by {
            assert(rest[i] == s[i]);
        }
        assert(key_of(s[s.len() - 1]) <= m || key_of(s[s.len() - 1]) >= bound);
        lemma_count_gap(rest, m, bound, count_at(rest, m));
    }
}

/// How many scores have the key `t`.
pub open spec fn count_at(s: Seq<u32>, t: int) -> nat
    decreases s.len(),
{
    if s.len() == 0 {
        0
    } else {
        count_at(s.drop_last(), t) + (if key_of(s.last()) == t {
            1nat
        } else {
            0nat
        })
    }
}

proof fn lemma_none_above(s: Seq<u32>, t: int)
    requires
        forall|i: int| 0 <= i < s.len() ==> key_of(#[trigger] s[i]) <= t,
    ensures
        count_above(s, t) == 0,
    decreases s.len(),
{
    if s.len() > 0 {
        let rest = s.drop_last();
        assert forall|i: int| 0 <= i < rest.len() implies key_of(#[trigger] rest[i]) <= t by {
            assert(rest[i] == s[i]);
        }
        assert(key_of(s[s.len() - 1]) <= t);
        lemma_none_above(rest, t);
    }
}

proof fn lemma_all_above(s: Seq<u32>, t: int)
    requires
        forall|i: int| 0 <= i < s.len() ==> key_of(#[trigger] s[i]) > t,
    ensures
        count_above(s, t) == s.len(),
    decreases s.len(),
{
    if s.len() > 0 {
        let rest = s.drop_last();
        assert forall|i: int| 0 <= i < rest.len() implies key_of(#[trigger] rest[i]) > t by {
            assert(rest[i] == s[i]);
        }
        assert(key_of(s[s.len() - 1]) > t);
        lemma_all_above(rest, t);
    }
}

/// The greatest key below `bound`, and how many scores have it.
fn next_key(s: &Vec<u32>, bound: i64) -> (r: Option<(i64, usize)>)
    ensures
        match r {
            Some((m, n)) => m < bound && n >= 1 && n == count_at(s@, m as int) && (forall|i: int|
                0 <= i < s@.len() ==> key_of(#[trigger] s@[i]) <= m || key_of(s@[i]) >= bound),
            None => forall|i: int| 0 <= i < s@.len() ==> key_of(#[trigger] s@[i]) >= bound,
        },
{
    let mut best: Option<(i64, usize)> = None;
    let mut i: usize = 0;
    while i < s.len()
        invariant
            i <= s@.len(),
            match best {
                Some((m, n)) => m < bound && 1 <= n <= i && n == count_at(
                    s@.take(i as int),
                    m as int,
                )
                    && (forall|j: int|
                    0 <= j < i ==> key_of(#[trigger] s@[j]) <= m || key_of(s@[j]) >= bound),
                None => forall|j: int| 0 <= j < i ==> key_of(#[trigger] s@[j]) >= bound,
            },
        decreases s@.len() - i,
    {
        let k = order_key(s[i]);
        let ghost now = s@.take(i + 1);
        proof {
            assert(now.drop_last() =~= s@.take(i as int));
            assert(now.last() == s@[i as int]);
        }
        if k < bound {
            match best {
                None => {
                    proof {
                        lemma_none_at(s@.take(i as int), k as int, bound as int);
                    }
                    best = Some((k, 1));
                },
                Some((m, n)) => {
                    if k > m {
                        proof {
                            lemma_gap_at(s@.take(i as int), m as int, k as int, bound as int);
                        }
                        best = Some((k, 1));
                    } else if k == m {
                        best = Some((m, n + 1));
                    }
                },
            }
        }
        i += 1;
    }
    assert(s@.take(i as int) =~= s@);
    best
}

proof fn lemma_none_at(s: Seq<u32>, t: int, bound: int)
    requires
        t < bound,
        forall|i: int| 0 <= i < s.len() ==> key_of(#[trigger] s[i]) >= bound,
    ensures
        count_at(s, t) == 0,
    decreases s.len(),
{
    if s.len() > 0 {
        let rest = s.drop_last();
        assert forall|i: int| 0 <= i < rest.len() implies key_of(#[trigger] rest[i]) >= bound by {
            assert(rest[i] == s[i]);
        }
        assert(key_of(s[s.len() - 1]) >= bound);
        lemma_none_at(rest, t, bound);
    }
}

proof fn lemma_gap_at(s: Seq<u32>, m: int, t: int, bound: int)
    requires
        m < t < bound,
        forall|i: int| 0 <= i < s.len() ==> key_of(#[trigger] s[i]) <= m || key_of(s[i]) >= bound,
    ensures
        count_at(s, t) == 0,
    decreases s.len(),
{
    if s.len() > 0 {
        let rest = s.drop_last();
        assert forall|i: int| 0 <= i < rest.len() implies key_of(#[trigger] rest[i]) <= m || key_of(
            rest[i],
        ) >= bound by {
            assert(rest[i] == s[i]);
        }
        assert(key_of(s[s.len() - 1]) <= m || key_of(s[s.len() - 1]) >= bound);
        lemma_gap_at(rest, m, t, bound);
    }
}

/// The key of the `k`th greatest score.
fn find_kth(s: &Vec<u32>, k: usize) -> (r: i64)
    requires
        1 <= k <= s@.len(),
    ensures
        is_kth(s@, k as int, r as int),
        r == kth_key(s@, k as int),
{
    let mut left: usize = k;
    let mut bound: i64 = 0x8000_0000;
    proof {
        lemma_none_above(s@, bound - 1);
    }
    loop
        invariant
            1 <= left <= k <= s@.len(),
            count_above(s@, bound - 1) == k - left,
        decreases left,
    {
        match next_key(s, bound) {
            Some((m, n)) => {
                proof {
                    lemma_count_gap(s@, m as int, bound as int, n as nat);
                }
                if n >= left {
                    assert(is_kth(s@, k as int, m as int));
                    proof {
                        lemma_kth_unique(s@, k as int, m as int, kth_key(s@, k as int));
                    }
                    return m;
                }
                left = left - n;
                bound = m;
            },
            None => {
                proof {
                    lemma_all_above(s@, bound - 1);
                }
                return bound;
            },
        }
    }
}

/// Cuts every score that is less than the cutoff: it becomes zero and is no longer
/// kept.
pub fn zero_below(scores: &mut Vec<u32>, kept: &mut Vec<bool>, cutoff: u32)
    requires
        old(scores)@.len() == old(kept)@.len(),
    ensures
        final(scores)@.len() == old(scores)@.len(),
        final(kept)@.len() == old(kept)@.len(),
        forall|i: int|
            0 <= i < old(scores)@.len() ==> #[trigger] final(scores)@[i] == (if less(
                old(scores)@[i],
                cutoff,
            ) {
                0
            } else {
                old(scores)@[i]
            }),
        forall|i: int|
            0 <= i < old(kept)@.len() ==> #[trigger] final(kept)@[i] == (old(kept)@[i] && !less(
                old(scores)@[i],
                cutoff,
            )),
{
    if cutoff % 0x8000_0000 <= 0x7f80_0000 {
        zero_below_key(scores, kept, order_key(cutoff));
    }
}

fn zero_below_key(scores: &mut Vec<u32>, kept: &mut Vec<bool>, t: i64)
    requires
        old(scores)@.len() == old(kept)@.len(),
    ensures
        final(scores)@ == zeroed_below(old(scores)@, t as int),
        final(kept)@ == kept_from(old(scores)@, old(kept)@, t as int),
{
    let ghost before = scores@;
    let ghost flags = kept@;
    let mut i: usize = 0;
    while i < scores.len()
        invariant
            i <= scores@.len(),
            scores@.len() == before.len(),
            kept@.len() == before.len(),
            flags.len() == before.len(),
            forall|j: int| 0 <= j < i ==> scores@[j] == zeroed_below(before, t as int)[j],
            forall|j: int| 0 <= j < i ==> kept@[j] == kept_from(before, flags, t as int)[j],
            forall|j: int| i <= j < scores@.len() ==> scores@[j] == before[j],
            forall|j: int| i <= j < scores@.len() ==> kept@[j] == flags[j],
        decreases scores@.len() - i,
    {
        if scores[i] % 0x8000_0000 <= 0x7f80_0000 && order_key(scores[i]) < t {
            scores.set(i, 0);
            kept.set(i, false);
        }
        i += 1;
    }
    assert(scores@ =~= zeroed_below(before, t as int));
    assert(kept@ =~= kept_from(before, flags, t as int));
}

/// The scores of which all but the `k` greatest are zero. Where `k` reaches all
/// of them they stay; where it is zero the negative ones become zero.
pub open spec fn top_k_kept(s: Seq<u32>, k: int) -> Seq<u32> {
    if k >= s.len() {
        s
    } else if k <= 0 {
        zeroed_below(s, 0)
    } else {
        zeroed_below(s, kth_key(s, k))
    }
}

/// Which scores are still kept once all but the `k` greatest were cut.
pub open spec fn top_k_flags(s: Seq<u32>, kept: Seq<bool>, k: int) -> Seq<bool> {
    if k >= s.len() {
        kept
    } else if k <= 0 {
        kept_from(s, kept, 0)
    } else {
        kept_from(s, kept, kth_key(s, k))
    }
}

/// Cuts every score that is less than the `k`th greatest: it becomes zero and is no
/// longer kept. With `k` zero the negative ones are cut.
pub fn keep_top_k(scores: &mut Vec<u32>, kept: &mut Vec<bool>, k: usize)
    requires
        old(scores)@.len() == old(kept)@.len(),
    ensures
        final(scores)@ == top_k_kept(old(scores)@, k as int),
        final(kept)@ == top_k_flags(old(scores)@, old(kept)@, k as int),
{
    if k >= scores.len() {
        return ;
    }
    if k == 0 {
        zero_below_key(scores, kept, 0);
        return ;
    }
    let t = find_kth(scores, k);
    zero_below_key(scores, kept, t);
}

// ── Orders ──────────────────────────────────────────────────────────
/// A score and the token that has it, put behind every one whose score is not
/// less.
pub open spec fn ranked_in(s: Seq<(u32, usize)>, x: (u32, usize)) -> Seq<(u32, usize)>
    decreases s.len(),
{
    if s.len() == 0 {
        seq![x]
    } else if key_of(s.last().0) >= key_of(x.0) {
        s.push(x)
    } else {
        ranked_in(s.drop_last(), x).push(s.last())
    }
}

/// The first `k` scores from the greatest to the least. Equal ones keep their
/// order.
pub open spec fn ranked(s: Seq<(u32, usize)>, k: int) -> Seq<(u32, usize)>
    decreases k,
{
    if k <= 0 {
        Seq::empty()
    } else {
        ranked_in(ranked(s, k - 1), s[k - 1])
    }
}

/// The scores stand from the greatest to the least.
pub open spec fn descending(s: Seq<(u32, usize)>) -> bool {
    forall|i: int, j: int|
        0 <= i <= j < s.len() ==> key_of((#[trigger] s[i]).0) >= key_of((#[trigger] s[j]).0)
}

proof fn lemma_ranked_in(s: Seq<(u32, usize)>, x: (u32, usize))
    requires
        descending(s),
    ensures
        descending(ranked_in(s, x)),
        ranked_in(s, x).len() == s.len() + 1,
        ranked_in(s, x).to_multiset() == s.to_multiset().insert(x),
        key_of(ranked_in(s, x).last().0) == key_of(x.0) || s.len() > 0 && ranked_in(s, x).last()
            == s.last(),
    decreases s.len(),
{
    broadcast use vstd::seq_lib::group_to_multiset_ensures;

    if s.len() == 0 {
        assert(ranked_in(s, x) =~= s.push(x));
    } else if key_of(s.last().0) < key_of(x.0) {
        let rest = s.drop_last();
        assert forall|i: int, j: int| 0 <= i <= j < rest.len() implies key_of((#[trigger] rest[i]).0)
            >= key_of((#[trigger] rest[j]).0) by {
            assert(key_of(s[i].0) >= key_of(s[j].0));
        }
        lemma_ranked_in(rest, x);
        let r = ranked_in(rest, x);
        assert(s =~= rest.push(s.last()));
        assert(r.push(s.last()).to_multiset() =~= s.to_multiset().insert(x));
        assert forall|i: int| 0 <= i < r.len() implies key_of((#[trigger] r[i]).0) >= key_of(
            s.last().0,
        ) by {
            assert(key_of(r[i].0) >= key_of(r[r.len() - 1].0));
            if rest.len() > 0 {
                assert(key_of(s[rest.len() - 1].0) >= key_of(s[s.len() - 1].0));
            }
        }
    }
}

/// Ranking scores puts them from the greatest to the least, and keeps them all.
pub proof fn lemma_ranked(s: Seq<(u32, usize)>, k: int)
    requires
        0 <= k <= s.len(),
    ensures
        descending(ranked(s, k)),
        ranked(s, k).len() == k,
        ranked(s, k).to_multiset() == s.take(k).to_multiset(),
    decreases k,
{
    broadcast use vstd::seq_lib::group_to_multiset_ensures;

    if k > 0 {
        lemma_ranked(s, k - 1);
        lemma_ranked_in(ranked(s, k - 1), s[k - 1]);
        assert(s.take(k) =~= s.take(k - 1).push(s[k - 1]));
    } else {
        assert(s.take(k) =~= Seq::empty());
    }
}

fn rank_in(v: &mut Vec<(u32, usize)>, x: (u32, usize))
    ensures
        final(v)@ == ranked_in(old(v)@, x),
{
    let ghost all = v@;
    let mut i: usize = v.len();
    assert(all.take(i as int) =~= all);
    assert(all.skip(i as int) =~= Seq::empty());
    assert(ranked_in(all.take(i as int), x) + all.skip(i as int) =~= ranked_in(all, x));
    while i > 0 && order_key(v[i - 1].0) < order_key(x.0)
        invariant
            i <= v@.len(),
            v@ == all,
            ranked_in(all, x) == ranked_in(all.take(i as int), x) + all.skip(i as int),
        decreases i,
    {
        proof {
            let a = all.take(i as int);
            assert(a.last() == all[i - 1]);
            assert(a.drop_last() =~= all.take(i - 1));
            assert(ranked_in(all.take(i - 1), x).push(all[i - 1]) + all.skip(i as int)
                =~= ranked_in(all.take(i - 1), x) + all.skip(i - 1));
        }
        i -= 1;
    }
    proof {
        let a = all.take(i as int);
        if i > 0 {
            assert(a.last() == all[i - 1]);
        }
        assert(ranked_in(a, x) =~= a.push(x));
    }
    v.insert(i, x);
    assert(v@ =~= all.take(i as int).push(x) + all.skip(i as int));
}

/// The scores and their tokens from the greatest to the least. Equal ones keep
/// their order.
pub fn rank(v: &Vec<(u32, usize)>) -> (r: Vec<(u32, usize)>)
    ensures
        r@ == ranked(v@, v@.len() as int),
{
    let mut out: Vec<(u32, usize)> = Vec::new();
    let mut i: usize = 0;
    while i < v.len()
        invariant
            i <= v@.len(),
            out@ == ranked(v@, i as int),
        decreases v@.len() - i,
    {
        rank_in(&mut out, v[i]);
        i += 1;
    }
    out
}

// ── Drawing ─────────────────────────────────────────────────────────
/// A sum has reached a bound. What is no number reaches nothing.
pub open spec fn reached(sum: u32, bound: u32) -> bool {
    !is_nan(sum) && !is_nan(bound) && key_of(bound) <= key_of(sum)
}

/// Whether a sum has reached a bound.
pub fn has_reached(sum: u32, bound: u32) -> (r: bool)
    ensures
        r == reached(sum, bound),
{
    sum % 0x8000_0000 <= 0x7f80_0000 && bound % 0x8000_0000 <= 0x7f80_0000 && order_key(bound)
        <= order_key(sum)
}

/// The first of the sums that has reached the bound.
pub fn first_reached(sums: &[u32], bound: u32) -> (r: Option<usize>)
    ensures
        match r {
            Some(i) => i < sums@.len() && reached(sums@[i as int], bound) && (forall|j: int|
                0 <= j < i ==> !reached(#[trigger] sums@[j], bound)),
            None => forall|j: int| 0 <= j < sums@.len() ==> !reached(#[trigger] sums@[j], bound),
        },
{
    let mut i: usize = 0;
    while i < sums.len()
        invariant
            i <= sums@.len(),
            forall|j: int| 0 <= j < i ==> !reached(#[trigger] sums@[j], bound),
        decreases sums@.len() - i,
    {
        if has_reached(sums[i], bound) {
            return Some(i);
        }
        i += 1;
    }
    None
}

/// `r` is the score at which the sums of the ranked scores first reach `top_p`, or
/// zero where they do not.
pub open spec fn is_cutoff(s: Seq<(u32, usize)>, sums: Seq<u32>, top_p: u32, r: u32) -> bool {
    if exists|i: int| 0 <= i < sums.len() && reached(#[trigger] sums[i], top_p) {
        exists|i: int|
            0 <= i < sums.len() && reached(#[trigger] sums[i], top_p) && r == s[i].0 && (forall|
                j: int,
            |
                0 <= j < i ==> !reached(#[trigger] sums[j], top_p))
    } else {
        r == 0
    }
}

/// The score down to which tokens are kept so that together they have the share
/// `top_p`: the one at which the sums of the ranked scores reach it, or zero where
/// they do not.
pub fn nucleus_cutoff(ranked_scores: &Vec<(u32, usize)>, sums: &[u32], top_p: u32) -> (r: u32)
    requires
        ranked_scores@.len() == sums@.len(),
    ensures
        is_cutoff(ranked_scores@, sums@, top_p, r),
{
    match first_reached(sums, top_p) {
        Some(i) => ranked_scores[i].0,
        None => 0,
    }
}

/// The `i`th token is one at which the draw may stop.
pub open spec fn stops(kept: Seq<bool>, sums: Seq<u32>, draw: u32, i: int) -> bool {
    kept[i] && reached(sums[i], draw)
}

/// `r` is the token that a draw gives: the first that was kept and whose sum has
/// reached the draw, else the last that was kept. Where none was, it is the last of
/// all.
pub open spec fn is_picked(kept: Seq<bool>, sums: Seq<u32>, draw: u32, r: int) -> bool {
    &&& 0 <= r < kept.len()
    &&& if exists|i: int| 0 <= i < kept.len() && #[trigger] stops(kept, sums, draw, i) {
        &&& stops(kept, sums, draw, r)
        &&& forall|j: int| 0 <= j < r ==> !#[trigger] stops(kept, sums, draw, j)
    } else if exists|i: int| 0 <= i < kept.len() && #[trigger] kept[i] {
        &&& kept[r]
        &&& forall|j: int| r < j < kept.len() ==> !#[trigger] kept[j]
    } else {
        r == kept.len() - 1
    }
}

/// A draw gives one token.
pub proof fn lemma_picked_unique(kept: Seq<bool>, sums: Seq<u32>, draw: u32, a: int, b: int)
    requires
        is_picked(kept, sums, draw, a),
        is_picked(kept, sums, draw, b),
    ensures
        a == b,
{
    assert(stops(kept, sums, draw, a) || !stops(kept, sums, draw, a));
    assert(stops(kept, sums, draw, b) || !stops(kept, sums, draw, b));
    assert(kept[a] || !kept[a]);
    assert(kept[b] || !kept[b]);
}

/// A token that was cut is never drawn while another was kept.
pub proof fn lemma_cut_not_picked(kept: Seq<bool>, sums: Seq<u32>, draw: u32, r: int)
    requires
        is_picked(kept, sums, draw, r),
        exists|i: int| 0 <= i < kept.len() && #[trigger] kept[i],
    ensures
        kept[r],
{
}

/// Where no token was cut, a draw gives the first token whose sum has reached it,
/// else the last.
pub proof fn lemma_picked_of_all(kept: Seq<bool>, sums: Seq<u32>, draw: u32, r: int)
    requires
        kept.len() == sums.len(),
        forall|i: int| 0 <= i < kept.len() ==> #[trigger] kept[i],
        is_picked(kept, sums, draw, r),
    ensures
        (exists|i: int| 0 <= i < sums.len() && reached(#[trigger] sums[i], draw)) ==> reached(
            sums[r],
            draw,
        ) && (forall|j: int| 0 <= j < r ==> !reached(#[trigger] sums[j], draw)),
        (forall|i: int| 0 <= i < sums.len() ==> !reached(#[trigger] sums[i], draw)) ==> r
            == sums.len() - 1,
{
    if exists|i: int| 0 <= i < sums.len() && reached(#[trigger] sums[i], draw) {
        let i = choose|i: int| 0 <= i < sums.len() && reached(#[trigger] sums[i], draw);
        assert(kept[i]);
        assert(stops(kept, sums, draw, i));
        assert forall|j: int| 0 <= j < r implies !reached(#[trigger] sums[j], draw) by {
            assert(!stops(kept, sums, draw, j));
            assert(kept[j]);
        }
    } else {
        assert(kept[kept.len() - 1]);
        assert forall|j: int| 0 <= j < kept.len() implies !#[trigger] stops(
            kept,
            sums,
            draw,
            j,
        ) by {
            assert(!reached(sums[j], draw));
        }
    }
}

/// The token that a draw gives, by the sums of the scores up to each. Tokens that
/// were cut are not drawn.
pub fn pick(kept: &[bool], sums: &[u32], draw: u32) -> (r: usize)
    requires
        kept@.len() == sums@.len(),
        kept@.len() > 0,
    ensures
        is_picked(kept@, sums@, draw, r as int),
{
    let mut last: Option<usize> = None;
    let mut i: usize = 0;
    while i < kept.len()
        invariant
            i <= kept@.len(),
            kept@.len() == sums@.len(),
            forall|j: int| 0 <= j < i ==> !#[trigger] stops(kept@, sums@, draw, j),
            match last {
                Some(k) => k < i && kept@[k as int] && (forall|j: int|
                    k < j < i ==> !#[trigger] kept@[j]),
                None => forall|j: int| 0 <= j < i ==> !#[trigger] kept@[j],
            },
        decreases kept@.len() - i,
    {
        if kept[i] {
            if has_reached(sums[i], draw) {
                assert(stops(kept@, sums@, draw, i as int));
                return i;
            }
            last = Some(i);
        }
        assert(!stops(kept@, sums@, draw, i as int));
        i += 1;
    }
    match last {
        Some(k) => k,
        None => kept.len() - 1,
    }
}

// ── The best k of a stream ──────────────────────────────────────────
/// The best tokens of a stream: those kept, and the place of one with the least
/// score.
#[verifier::ext_equal]
pub struct Best {
    pub items: Seq<(u32, usize)>,
    pub least: int,
}

/// The place of the first of the least scores, from the `k`th on, where `least`
/// is such a place before it.
pub open spec fn least_from(s: Seq<(u32, usize)>, k: int, least: int) -> int
    decreases s.len() - k,
{
    if k >= s.len() {
        least
    } else if less(s[k].0, s[least].0) {
        least_from(s, k + 1, k)
    } else {
        least_from(s, k + 1, least)
    }
}

/// After one more token was offered, of which at most `limit` are kept: it is
/// added while there is room, and else takes the place of the least where its
/// score is greater.
pub open spec fn after_offer(b: Best, limit: int, score: u32, token: usize) -> Best {
    if b.items.len() < limit {
        let items = b.items.push((score, token));
        Best {
            items,
            least: if less(score, items[b.least].0) {
                b.items.len() as int
            } else {
                b.least
            },
        }
    } else if less(b.items[b.least].0, score) {
        let items = b.items.update(b.least, (score, token));
        Best { items, least: least_from(items, 1, 0) }
    } else {
        b
    }
}

/// No more than `limit` tokens are kept, and `least` is the place of a least
/// score.
pub open spec fn best_wf(b: Best, limit: int) -> bool {
    &&& 0 < limit
    &&& b.items.len() <= limit
    &&& b.items.len() == 0 ==> b.least == 0
    &&& b.items.len() > 0 ==> 0 <= b.least < b.items.len()
    &&& forall|i: int|
        0 <= i < b.items.len() ==> !is_nan((#[trigger] b.items[i]).0) && key_of(b.items[i].0)
            >= key_of(b.items[b.least].0)
}

proof fn lemma_least_from(s: Seq<(u32, usize)>, k: int, least: int)
    requires
        0 <= least < k <= s.len(),
        forall|i: int| 0 <= i < s.len() ==> !is_nan((#[trigger] s[i]).0),
        forall|i: int| 0 <= i < k ==> key_of((#[trigger] s[i]).0) >= key_of(s[least].0),
    ensures
        0 <= least_from(s, k, least) < s.len(),
        forall|i: int|
            0 <= i < s.len() ==> key_of((#[trigger] s[i]).0) >= key_of(
                s[least_from(s, k, least)].0,
            ),
    decreases s.len() - k,
{
    if k < s.len() {
        if less(s[k].0, s[least].0) {
            lemma_least_from(s, k + 1, k);
        } else {
            lemma_least_from(s, k + 1, least);
        }
    }
}

/// A stream of scores leaves the best of them: what an offer drops, be it the
/// token offered or one kept before, has no greater score than any that is kept
/// then.
pub proof fn lemma_offer(b: Best, limit: int, score: u32, token: usize)
    requires
        best_wf(b, limit),
        !is_nan(score),
    ensures
        best_wf(after_offer(b, limit, score, token), limit),
        b.items.len() < limit ==> after_offer(b, limit, score, token).items == b.items.push(
            (score, token),
        ),
        b.items.len() == limit ==> ({
            let r = after_offer(b, limit, score, token).items;
            let dropped = if r == b.items {
                (score, token)
            } else {
                b.items[b.least]
            };
            &&& r.len() == limit
            &&& r == b.items || r == b.items.update(b.least, (score, token))
            &&& forall|i: int| 0 <= i < r.len() ==> key_of((#[trigger] r[i]).0) >= key_of(dropped.0)
        }),
{
    let r = after_offer(b, limit, score, token);
    if b.items.len() >= limit && less(b.items[b.least].0, score) {
        let items = b.items.update(b.least, (score, token));
        lemma_least_from(items, 1, 0);
        assert(items[b.least] != b.items[b.least]);
    }
}

/// What is kept once the first `k` tokens of a row were offered.
pub open spec fn offered(s: Seq<(u32, usize)>, limit: int, k: int) -> Best
    decreases k,
{
    if k <= 0 {
        Best { items: Seq::empty(), least: 0 }
    } else {
        after_offer(offered(s, limit, k - 1), limit, s[k - 1].0, s[k - 1].1)
    }
}

/// No two tokens are the same.
pub open spec fn distinct_tokens(s: Seq<(u32, usize)>) -> bool {
    forall|i: int, j: int| 0 <= i < j < s.len() ==> (#[trigger] s[i]).1 != (#[trigger] s[j]).1
}

proof fn lemma_offered(s: Seq<(u32, usize)>, limit: int, k: int)
    requires
        0 < limit,
        0 <= k <= s.len(),
        forall|i: int| 0 <= i < s.len() ==> !is_nan((#[trigger] s[i]).0),
        distinct_tokens(s),
    ensures
        ({
            let b = offered(s, limit, k);
            &&& best_wf(b, limit)
            &&& b.items.len() == (if k < limit {
                k
            } else {
                limit
            })
            &&& distinct_tokens(b.items)
            &&& forall|j: int|
                0 <= j < b.items.len() ==> exists|i: int| 0 <= i < k && s[i] == #[trigger] b.items[j]
            &&& forall|i: int|
                0 <= i < k ==> b.items.contains(#[trigger] s[i]) || (b.items.len() == limit
                    && key_of(s[i].0) <= key_of(b.items[b.least].0))
        }),
    decreases k,
{
    if k > 0 {
        lemma_offered(s, limit, k - 1);
        let before = offered(s, limit, k - 1);
        let x = s[k - 1];
        lemma_offer(before, limit, x.0, x.1);
        let b = offered(s, limit, k);
        assert forall|j: int| 0 <= j < before.items.len() implies (#[trigger] before.items[j]).1
            != x.1 by {
            let i = choose|i: int| 0 <= i < k - 1 && s[i] == before.items[j];
            assert(s[i].1 != s[k - 1].1);
        }
        assert forall|j: int| 0 <= j < b.items.len() implies exists|i: int|
            0 <= i < k && s[i] == #[trigger] b.items[j] by {
            if j < before.items.len() && b.items[j] == before.items[j] {
                let i = choose|i: int| 0 <= i < k - 1 && s[i] == before.items[j];
                assert(s[i] == b.items[j]);
            } else {
                assert(s[k - 1] == b.items[j]);
            }
        }
        if before.items.len() < limit {
            assert(b.items[before.items.len() as int] == x);
        } else if b.items != before.items {
            assert(b.items[before.least] == x);
        }
        assert forall|i: int| 0 <= i < k implies b.items.contains(#[trigger] s[i]) || (b.items.len()
            == limit && key_of(s[i].0) <= key_of(b.items[b.least].0)) by {
            if i == k - 1 {
                if before.items.len() >= limit && b.items == before.items {
                    assert(key_of(b.items[b.least].0) >= key_of(x.0));
                }
            } else if before.items.contains(s[i]) {
                let j = choose|j: int| 0 <= j < before.items.len() && before.items[j] == s[i];
                if before.items.len() < limit || b.items == before.items || j != before.least {
                    assert(b.items[j] == s[i]);
                } else {
                    assert(key_of(b.items[b.least].0) >= key_of(before.items[before.least].0));
                }
            } else {
                assert(key_of(b.items[b.least].0) >= key_of(before.items[before.least].0));
            }
        }
    }
}

/// A whole row of offers leaves the best of it: as many tokens as there is room
/// for, no token twice, each with the score that was offered for it, from the
/// greatest score to the least, and nothing left out is greater than the last.
pub proof fn lemma_best_of_row(s: Seq<(u32, usize)>, limit: int)
    requires
        0 < limit,
        forall|i: int| 0 <= i < s.len() ==> !is_nan((#[trigger] s[i]).0),
        distinct_tokens(s),
    ensures
        ({
            let items = offered(s, limit, s.len() as int).items;
            let r = ranked(items, items.len() as int);
            &&& r.len() == (if s.len() < limit {
                s.len() as int
            } else {
                limit
            })
            &&& descending(r)
            &&& distinct_tokens(r)
            &&& forall|j: int| 0 <= j < r.len() ==> s.contains(#[trigger] r[j])
            &&& forall|i: int|
                0 <= i < s.len() ==> r.contains(#[trigger] s[i]) || key_of(s[i].0) <= key_of(
                    r.last().0,
                )
        }),
{
    broadcast use vstd::seq_lib::group_to_multiset_ensures;

    let n = s.len() as int;
    let b = offered(s, limit, n);
    let items = b.items;
    let r = ranked(items, items.len() as int);
    lemma_offered(s, limit, n);
    lemma_ranked(items, items.len() as int);
    assert(items.take(items.len() as int) =~= items);
    assert(items.no_duplicates());
    items.lemma_multiset_has_no_duplicates();
    assert forall|x: (u32, usize)| #[trigger] r.contains(x) <==> items.contains(x) by {
        assert(r.contains(x) <==> r.to_multiset().contains(x));
        assert(items.contains(x) <==> items.to_multiset().contains(x));
    }
    r.lemma_multiset_has_no_duplicates_conv();
    assert forall|i: int, j: int| 0 <= i < j < r.len() implies (#[trigger] r[i]).1 != (
    #[trigger] r[j]).1 by {
        assert(r.contains(r[i]) && r.contains(r[j]));
        let a = choose|a: int| 0 <= a < items.len() && items[a] == r[i];
        let c = choose|c: int| 0 <= c < items.len() && items[c] == r[j];
        if a < c {
            assert(items[a].1 != items[c].1);
        } else if c < a {
            assert(items[c].1 != items[a].1);
        }
    }
    assert forall|j: int| 0 <= j < r.len() implies s.contains(#[trigger] r[j]) by {
        assert(r.contains(r[j]));
        let a = choose|a: int| 0 <= a < items.len() && items[a] == r[j];
        let i = choose|i: int| 0 <= i < n && s[i] == items[a];
        assert(s[i] == r[j]);
    }
    assert forall|i: int| 0 <= i < n implies r.contains(#[trigger] s[i]) || key_of(s[i].0) <= key_of(
        r.last().0,
    ) by {
        if !items.contains(s[i]) {
            assert(r.contains(r[r.len() - 1]));
            let a = choose|a: int| 0 <= a < items.len() && items[a] == r.last();
            assert(key_of(items[a].0) >= key_of(items[b.least].0));
        }
    }
}

/// The best tokens of a stream of scores.
#[derive(Debug)]
pub struct TopK {
    limit: usize,
    items: Vec<(u32, usize)>,
    least: usize,
}

impl TopK {
    /// What is kept.
    pub closed spec fn best(self) -> Best {
        Best { items: self.items@, least: self.least as int }
    }

    /// How many are kept at most.
    pub closed spec fn limit(self) -> int {
        self.limit as int
    }

    /// At most `limit` tokens are kept, and the least place is one of them.
    pub open spec fn wf(self) -> bool {
        &&& 0 < self.limit()
        &&& self.best().items.len() <= self.limit()
        &&& self.best().items.len() == 0 ==> self.best().least == 0
        &&& self.best().items.len() > 0 ==> 0 <= self.best().least < self.best().items.len()
    }

    /// Nothing is kept yet.
    pub fn new(limit: usize) -> (r: TopK)
        requires
            limit > 0,
        ensures
            r.wf(),
            r.limit() == limit,
            r.best() == (Best { items: Seq::empty(), least: 0 }),
    {
        let r = TopK { limit, items: Vec::new(), least: 0 };
        assert(r.best().items =~= Seq::empty());
        r
    }

    /// Offers a token with its score.
    pub fn offer(&mut self, score: u32, token: usize)
        requires
            old(self).wf(),
        ensures
            final(self).wf(),
            final(self).limit() == old(self).limit(),
            final(self).best() == after_offer(old(self).best(), old(self).limit(), score, token),
    {
        let n = self.items.len();
        if n < self.limit {
            self.items.push((score, token));
            if is_less(score, self.items[self.least].0) {
                self.least = n;
            }
        } else if is_less(self.items[self.least].0, score) {
            self.items.set(self.least, (score, token));
            let ghost s = self.items@;
            let mut least: usize = 0;
            let mut i: usize = 1;
            while i < self.items.len()
                invariant
                    1 <= i <= self.items@.len(),
                    least < self.items@.len(),
                    s == self.items@,
                    least_from(s, 1, 0) == least_from(s, i as int, least as int),
                decreases self.items@.len() - i,
            {
                if is_less(self.items[i].0, self.items[least].0) {
                    least = i;
                }
                i += 1;
            }
            self.least = least;
        }
    }

    /// What is kept, from the greatest score to the least.
    pub fn finish(&self) -> (r: Vec<(u32, usize)>)
        ensures
            r@ == ranked(self.best().items, self.best().items.len() as int),
    {
        rank(&self.items)
    }
}

// ── Random numbers ──────────────────────────────────────────────────
/// The state that follows a state of the generator.
pub open spec fn next_state(state: u64) -> u64 {
    ((state * 6364136223846793005 + 1442695040888963407) % 0x1_0000_0000_0000_0000) as u64
}

/// The number that a state stands for, in units of which 2147483648 make one.
pub open spec fn drawn(state: u64) -> u32 {
    (state / 0x2_0000_0000) as u32
}

/// A linear congruential generator.
#[derive(Clone, Copy, Debug, PartialEq, Eq, Structural)]
pub struct Lcg {
    /// The state.
    pub state: u64,
}

impl Lcg {
    /// A generator that begins at forty-two.
    pub fn new() -> (r: Lcg)
        ensures
            r.state == 42,
    {
        Lcg { state: 42 }
    }

    /// The next number, in units of which 2147483648 make one.
    pub fn draw(&mut self) -> (r: u32)
        ensures
            final(self).state == next_state(old(self).state),
            r == drawn(final(self).state),
            r < 0x8000_0000,
    {
        let wide = self.state as u128 * 6364136223846793005 + 1442695040888963407;
        self.state = (wide % 0x1_0000_0000_0000_0000) as u64;
        (self.state / 0x2_0000_0000) as u32
    }
}

// ── Laws ────────────────────────────────────────────────────────────
/// A score is cut exactly if at least `k` scores are greater than it; what is no number
/// is not cut. A score that is cut becomes zero, and every other stays.
pub proof fn lemma_best_k_stay(s: Seq<u32>, kept: Seq<bool>, k: int, t: int, i: int)
    requires
        s.len() == kept.len(),
        0 < k < s.len(),
        is_kth(s, k, t),
        0 <= i < s.len(),
    ensures
        ({
            let cut = !is_nan(s[i]) && count_above(s, key_of(s[i])) >= k;
            &&& top_k_kept(s, k)[i] == (if cut {
                0
            } else {
                s[i]
            })
            &&& top_k_flags(s, kept, k)[i] == (kept[i] && !cut)
        }),
{
    lemma_kth_unique(s, k, t, kth_key(s, k));
    let x = key_of(s[i]);
    if x < t {
        lemma_count_step(s, x, t - 1);
    } else {
        lemma_count_step(s, t, x);
    }
}

/// The order of scores is that of the numbers: of two with the same sign the one with the
/// greater magnitude is farther from zero, a negative one that is not zero is less than
/// any positive one, both zeros are equal, and what is no number has no place in it.
pub proof fn lemma_score_order(a: u32, b: u32)
    ensures
        is_nan(a) || is_nan(b) ==> !less(a, b) && !reached(a, b),
        !is_nan(a) && !is_nan(b) ==> (less(a, b) <==> !reached(a, b)),
        !is_nan(a) && !is_nan(b) && a < 0x8000_0000 && b < 0x8000_0000 ==> (less(a, b) <==> a < b),
        !is_nan(a) && !is_nan(b) && a >= 0x8000_0000 && b >= 0x8000_0000 ==> (less(a, b) <==> a
            > b),
        !is_nan(a) && !is_nan(b) && a > 0x8000_0000 && b < 0x8000_0000 ==> less(a, b) && !less(b, a),
        !less(0x8000_0000, 0) && !less(0, 0x8000_0000),
{
}

/// The bits are those of the single-precision number nearest to a fraction, for a number
/// of the given exponent.
pub open spec fn is_nearest(bits: u32, num: int, den: int, shift: nat) -> bool {
    let significand = 0x80_0000 + bits as int % 0x80_0000;
    let off = significand * den - num * pow2(shift);
    bits as int / 0x80_0000 == 150 - shift && 2 * off <= den && -2 * off <= den
}

/// A temperature counts as zero below one millionth, and a share is the whole from one
/// on. Where nothing else is asked for, a token is drawn at seven tenths, among the best
/// forty and within nine tenths, and what was seen is held back by eleven tenths.
pub proof fn lemma_bounds()
    ensures
        is_nearest(LEAST_TEMPERATURE, 1, 1_000_000, 43),
        is_nearest(WHOLE, 1, 1, 23),
        is_nearest(default_params().temperature, 7, 10, 24),
        default_params().top_k == 40,
        is_nearest(default_params().top_p, 9, 10, 24),
        is_nearest(default_params().repeat_penalty, 11, 10, 23),
{
    lemma2_to64();
    lemma_pow2_adds(32, 11);
    assert(pow2(43) == 0x800_0000_0000);
}

/// The temperature counts as zero.
pub open spec fn is_cold(temperature: u32) -> bool {
    less(temperature, LEAST_TEMPERATURE)
}

/// Some tokens are cut for their rank, some for their share.
pub open spec fn cuts(top_k: int, top_p: u32, n: int) -> (bool, bool) {
    (top_k < n, less(top_p, WHOLE))
}

/// A temperature counts as zero where it is a number below the least one. Tokens are cut
/// for their rank where there are more than are to stay, and for their share where it is a
/// number below one.
pub proof fn lemma_cuts(temperature: u32, top_k: int, top_p: u32, n: int)
    ensures
        is_cold(temperature) <==> !is_nan(temperature) && key_of(temperature) < key_of(
            0x3586_37bdu32,
        ),
        cuts(top_k, top_p, n).0 <==> !(n <= top_k),
        cuts(top_k, top_p, n).1 <==> !is_nan(top_p) && key_of(top_p) < key_of(0x3f80_0000u32),
        !is_cold(LEAST_TEMPERATURE),
{
}

/// One more score goes behind those that are not less and before those that are, and
/// these stay in their order. So equal scores are ranked in the order in which they came.
pub proof fn lemma_rank_place(s: Seq<(u32, usize)>, x: (u32, usize), i: int)
    requires
        descending(s),
        0 <= i < s.len(),
    ensures
        key_of(s[i].0) >= key_of(x.0) ==> ranked_in(s, x)[i] == s[i],
        key_of(s[i].0) < key_of(x.0) ==> ranked_in(s, x)[i + 1] == s[i],
    decreases s.len(),
{
    let r = ranked_in(s, x);
    if key_of(s.last().0) >= key_of(x.0) {
        assert(key_of(s[i].0) >= key_of(s.last().0));
    } else {
        let t = s.drop_last();
        assert(descending(t));
        lemma_ranked_in(t, x);
        assert(ranked_in(t, x).len() == t.len() + 1);
        if i < t.len() {
            lemma_rank_place(t, x, i);
        }
    }
}

/// While there is room every token is kept. Without room a token is kept only where its
/// score is greater than the least, whose place it takes.
pub proof fn lemma_ties_stay(b: Best, limit: int, score: u32, token: usize)
    ensures
        ({
            let r = after_offer(b, limit, score, token);
            let least = b.items[b.least].0;
            &&& b.items.len() < limit ==> r.items == b.items.push((score, token))
            &&& b.items.len() >= limit && (is_nan(score) || key_of(score) <= key_of(least)) ==> r
                == b
            &&& b.items.len() >= limit && !is_nan(score) && !is_nan(least) && key_of(score)
                > key_of(least) ==> r.items == b.items.update(b.least, (score, token))
        }),
{
}

/// Where as many are to stay as there are, nothing is cut. Where none is to stay, the
/// negative scores are cut.
pub proof fn lemma_none_or_all_stay(s: Seq<u32>, kept: Seq<bool>, k: int, i: int)
    requires
        s.len() == kept.len(),
        0 <= i < s.len(),
    ensures
        k >= s.len() ==> top_k_kept(s, k) == s && top_k_flags(s, kept, k) == kept,
        k <= 0 ==> ({
            let cut = 0x8000_0000 < s[i] <= 0xff80_0000;
            &&& top_k_kept(s, k)[i] == (if cut {
                0
            } else {
                s[i]
            })
            &&& top_k_flags(s, kept, k)[i] == (kept[i] && !cut)
        }),
{
}

} // verus!

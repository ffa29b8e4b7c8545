//! What the steps of a forward pass mean.
//!
//! The operations on rows of numbers are left open: what is shown of a plan holds
//! of every choice of them.
use vstd::prelude::*;

use crate::plan::{Buffer, NormSlot, Product, Slot, Step};

verus! {

/// The operations that steps apply to rows of numbers. Those that read weights
/// are told the layer.
#[verifier::reject_recursive_types(V)]
pub struct Operations<V> {
    /// A norm of a layer, applied to a row.
    pub norm: spec_fn(u64, NormSlot, V) -> V,
    /// A norm of a layer, applied to so many heads of such a width.
    pub head_norm: spec_fn(u64, NormSlot, u64, u64, V) -> V,
    /// The product of a layer's matrix, of so many rows and columns, and a row.
    pub multiply: spec_fn(u64, Slot, Product, u64, u64, V) -> V,
    /// So many heads of such a width, rotated by their position.
    pub rotate: spec_fn(u64, u64, V) -> V,
    /// The same by learned frequencies, those of sliding layers or the others.
    pub rotate_learned: spec_fn(u64, u64, bool, V) -> V,
    /// So many heads of such a width, widened to another.
    pub widen: spec_fn(u64, u64, u64, V) -> V,
    /// The scores of a query over a layer's stored keys, of which the last is given.
    pub score: spec_fn(u64, Heads, V, V) -> V,
    /// The scores of so many heads without what may not be seen.
    pub mask: spec_fn(u64, bool, u64, V) -> V,
    /// The probabilities of the scores of so many heads.
    pub softmax: spec_fn(u64, V) -> V,
    /// A layer's stored values, of which the last is given, mixed by probabilities.
    pub mix: spec_fn(u64, Heads, V, V) -> V,
    /// A row times the scale of a layer.
    pub layer_scale: spec_fn(u64, V) -> V,
    /// The activation of every number.
    pub activate: spec_fn(V) -> V,
    /// The products of the numbers of two rows.
    pub times: spec_fn(V, V) -> V,
    /// The sums of the numbers of two rows.
    pub sum: spec_fn(V, V) -> V,
    /// The probabilities of a router's numbers.
    pub route: spec_fn(V) -> V,
    /// The best of a router's probabilities is strong enough.
    pub is_strong: spec_fn(V) -> bool,
    /// The sum of a row and another that is scaled by a route's probability.
    pub add_routed: spec_fn(u8, V, V, V) -> V,
}

/// The dimensions of attention.
pub struct Heads {
    /// How many heads the query has.
    pub heads: u64,
    /// How many heads the keys and values have.
    pub kv_heads: u64,
    /// The width of a head.
    pub head_dim: u64,
    /// The width of a stored head.
    pub full: u64,
}

/// What steps work on.
#[verifier::ext_equal]
pub struct Machine<V> {
    /// The layer whose weights are used.
    pub layer: u64,
    /// The rows.
    pub rows: Map<Buffer, V>,
    /// The scores of the stored positions, or their probabilities.
    pub scores: V,
    /// The key and the value that each layer stored last.
    pub stored: Map<u64, (V, V)>,
    /// How many positions were counted.
    pub positions: int,
    /// Steps are passed over up to the end of the experts.
    pub skipping: bool,
}

/// The machine with another row.
pub open spec fn with_row<V>(m: Machine<V>, b: Buffer, v: V) -> Machine<V> {
    Machine { rows: m.rows.insert(b, v), ..m }
}

/// What a step leaves behind.
pub open spec fn after_step<V>(o: Operations<V>, s: Step, m: Machine<V>) -> Machine<V> {
    if m.skipping {
        Machine { skipping: s != Step::EndRouted, ..m }
    } else {
        match s {
            Step::Layer(i) => Machine { layer: i, ..m },
            Step::Copy { from, to } => with_row(m, to, m.rows[from]),
            Step::Norm { buffer, norm } => with_row(
                m,
                buffer,
                (o.norm)(m.layer, norm, m.rows[buffer]),
            ),
            Step::HeadNorm { buffer, norm, heads, head_dim } => with_row(
                m,
                buffer,
                (o.head_norm)(m.layer, norm, heads, head_dim, m.rows[buffer]),
            ),
            Step::Multiply { matrix, how, rows, cols, from, to } => with_row(
                m,
                to,
                (o.multiply)(m.layer, matrix, how, rows, cols, m.rows[from]),
            ),
            Step::Rotate { buffer, heads, head_dim } => with_row(
                m,
                buffer,
                (o.rotate)(heads, head_dim, m.rows[buffer]),
            ),
            Step::RotateLearned { buffer, heads, head_dim, sliding } => with_row(
                m,
                buffer,
                (o.rotate_learned)(heads, head_dim, sliding, m.rows[buffer]),
            ),
            Step::Widen { from, to, heads, head_dim, full } => with_row(
                m,
                to,
                (o.widen)(heads, head_dim, full, m.rows[from]),
            ),
            Step::Store { key, value } => Machine {
                stored: m.stored.insert(m.layer, (m.rows[key], m.rows[value])),
                ..m
            },
            Step::Score { heads, kv_heads, head_dim, full } => Machine {
                scores: (o.score)(
                    m.layer,
                    Heads { heads, kv_heads, head_dim, full },
                    m.rows[Buffer::Query],
                    m.stored[m.layer].0,
                ),
                ..m
            },
            Step::Mask { heads, sliding, window } => Machine {
                scores: (o.mask)(heads, sliding, window, m.scores),
                ..m
            },
            Step::Softmax { heads } => Machine { scores: (o.softmax)(heads, m.scores), ..m },
            Step::Mix { heads, kv_heads, head_dim, full } => with_row(
                m,
                Buffer::Mixed,
                (o.mix)(
                    m.layer,
                    Heads { heads, kv_heads, head_dim, full },
                    m.scores,
                    m.stored[m.layer].1,
                ),
            ),
            Step::LayerScale { buffer } => with_row(
                m,
                buffer,
                (o.layer_scale)(m.layer, m.rows[buffer]),
            ),
            Step::Activate { buffer } => with_row(m, buffer, (o.activate)(m.rows[buffer])),
            Step::Times { to, by } => with_row(m, to, (o.times)(m.rows[to], m.rows[by])),
            Step::Add { to, from } => with_row(m, to, (o.sum)(m.rows[to], m.rows[from])),
            Step::Route => with_row(m, Buffer::Router, (o.route)(m.rows[Buffer::Router])),
            Step::IfRouted => Machine {
                skipping: !(o.is_strong)(m.rows[Buffer::Router]),
                ..m
            },
            Step::AddRouted { to, from, route } => with_row(
                m,
                to,
                (o.add_routed)(route, m.rows[Buffer::Router], m.rows[to], m.rows[from]),
            ),
            Step::EndRouted => m,
            Step::Advance => Machine { positions: m.positions + 1, ..m },
        }
    }
}

/// What the first `k` steps leave behind.
pub open spec fn after_steps<V>(o: Operations<V>, s: Seq<Step>, k: int, m: Machine<V>) -> Machine<V>
    decreases k,
{
    if k <= 0 {
        m
    } else {
        after_step(o, s[k - 1], after_steps(o, s, k - 1, m))
    }
}

/// What all steps leave behind.
pub open spec fn run<V>(o: Operations<V>, s: Seq<Step>, m: Machine<V>) -> Machine<V> {
    after_steps(o, s, s.len() as int, m)
}

/// Steps behind others work on what those left behind.
pub proof fn lemma_run_on<V>(o: Operations<V>, a: Seq<Step>, b: Seq<Step>, m: Machine<V>)
    ensures
        run(o, a + b, m) == run(o, b, run(o, a, m)),
{
    lemma_first_part(o, a, b, a.len() as int, m);
    lemma_second_part(o, a, b, b.len() as int, m);
}

proof fn lemma_first_part<V>(o: Operations<V>, a: Seq<Step>, b: Seq<Step>, k: int, m: Machine<V>)
    requires
        k <= a.len(),
    ensures
        after_steps(o, a + b, k, m) == after_steps(o, a, k, m),
    decreases k,
{
    if k > 0 {
        assert((a + b)[k - 1] == a[k - 1]);
        lemma_first_part(o, a, b, k - 1, m);
    }
}

proof fn lemma_second_part<V>(o: Operations<V>, a: Seq<Step>, b: Seq<Step>, k: int, m: Machine<V>)
    requires
        0 <= k <= b.len(),
    ensures
        after_steps(o, a + b, a.len() + k, m) == after_steps(o, b, k, run(o, a, m)),
    decreases k,
{
    if k > 0 {
        assert((a + b)[a.len() + k - 1] == b[k - 1]);
        lemma_second_part(o, a, b, k - 1, m);
    } else {
        lemma_first_part(o, a, b, a.len() as int, m);
    }
}

/// How often a matrix is multiplied.
pub open spec fn uses(s: Seq<Step>, slot: Slot) -> nat
    decreases s.len(),
{
    if s.len() == 0 {
        0
    } else {
        uses(s.drop_last(), slot) + (if s.last() is Multiply && s.last()->matrix == slot {
            1nat
        } else {
            0
        })
    }
}

/// How often a matrix is multiplied by steps and by others behind them.
pub proof fn lemma_uses_on(a: Seq<Step>, b: Seq<Step>, slot: Slot)
    ensures
        uses(a + b, slot) == uses(a, slot) + uses(b, slot),
    decreases b.len(),
{
    if b.len() == 0 {
        assert(a + b =~= a);
    } else {
        assert((a + b).drop_last() =~= a + b.drop_last());
        lemma_uses_on(a, b.drop_last(), slot);
    }
}

/// How often a matrix is multiplied by the first `k + 1` steps.
pub proof fn lemma_uses_step(s: Seq<Step>, slot: Slot, k: int)
    requires
        0 <= k < s.len(),
    ensures
        uses(s.take(k + 1), slot) == uses(s.take(k), slot) + (if s[k] is Multiply && s[k]->matrix
            == slot {
            1nat
        } else {
            0
        }),
{
    assert(s.take(k + 1).drop_last() =~= s.take(k));
}

/// The row that a step writes.
pub open spec fn written(s: Step) -> Option<Buffer> {
    match s {
        Step::Copy { to, .. } => Some(to),
        Step::Norm { buffer, .. } => Some(buffer),
        Step::HeadNorm { buffer, .. } => Some(buffer),
        Step::Multiply { to, .. } => Some(to),
        Step::Rotate { buffer, .. } => Some(buffer),
        Step::RotateLearned { buffer, .. } => Some(buffer),
        Step::Widen { to, .. } => Some(to),
        Step::Mix { .. } => Some(Buffer::Mixed),
        Step::LayerScale { buffer } => Some(buffer),
        Step::Activate { buffer } => Some(buffer),
        Step::Times { to, .. } => Some(to),
        Step::Add { to, .. } => Some(to),
        Step::Route => Some(Buffer::Router),
        Step::AddRouted { to, .. } => Some(to),
        _ => None,
    }
}

/// A step leaves every row as it is but the one that it writes.
pub proof fn lemma_written<V>(o: Operations<V>, s: Step, m: Machine<V>, b: Buffer)
    requires
        written(s) != Some(b),
    ensures
        after_step(o, s, m).rows[b] == m.rows[b],
{
}

} // verus!

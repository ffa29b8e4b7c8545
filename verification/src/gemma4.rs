//! Gemma 4: configuration, weights, and the steps of its forward pass.
//!
//! Layers differ in whether they see a sliding window. All have a router and
//! may have two experts.
use vstd::arithmetic::power2::lemma2_to64;
use vstd::prelude::*;

use crate::bytes::le32;
use crate::descriptor::Descriptor;
use crate::dtype::{
    dequantize_tensor, numbers_of, singles, stored_size, token_row, Dequantized, Numbers,
};
use crate::json::{
    entries_of, entry_models, items_of, models, object_find, object_get, Json, JsonValue,
};
use crate::meaning::{
    after_step, after_steps, lemma_run_on, lemma_uses_on, lemma_uses_step, run, uses, Heads,
    Machine, Operations,
};
use crate::model::{
    count_of, find_count, is_first_count, is_first_number, number_or, prefix_of, to_number, Number,
};
use crate::plan::{Buffer, NormSlot, Product, Slot, Step};
use crate::runtime::{after_read, after_reads, lookup, whole_tensor, AxonRuntime};
use crate::safetensors::find_items;
use crate::sampling::{is_last_greatest, is_less, is_nan, is_nearest, less};
use crate::stats::RuntimeStats;
use crate::tensor::{element_count, product, DType};
use crate::text::{concat4, decimal, decimal_text};
use crate::transformer::opt_bytes;

verus! {

// ── Configuration ───────────────────────────────────────────────────
/// The configuration of a model.
#[verifier::ext_equal]
pub struct GemmaConfig {
    pub n_layers: u64,
    pub dim: u64,
    pub n_heads: u64,
    pub n_kv_heads: u64,
    pub head_dim: u64,
    pub head_dim_swa: u64,
    pub hidden_dim: u64,
    pub vocab_size: u64,
    pub ctx_len: u64,
    pub norm_eps: Number,
    pub rope_base: Number,
    pub rope_base_swa: Number,
    pub rope_dim: u64,
    pub rope_dim_swa: u64,
    pub sliding_window: u64,
    pub swa_pattern: Seq<bool>,
    pub shared_kv_layers: u64,
    pub final_logit_softcapping: Number,
    pub per_layer_dim: u64,
}

/// The count under a key.
pub open spec fn count_or(o: Seq<(Seq<char>, Json)>, key: Seq<char>, default: u64) -> u64 {
    match count_of(object_get(o, key)) {
        Some(n) => n,
        None => default,
    }
}

/// Which layers see a sliding window. What is no truth value counts as true.
pub open spec fn pattern_of(v: Option<Seq<Json>>) -> Seq<bool> {
    match v {
        Some(a) => Seq::new(
            a.len(),
            |i: int|
                match a[i].boolean() {
                    Some(b) => b,
                    None => true,
                },
        ),
        None => Seq::new(42, |i: int| true),
    }
}

/// The configuration that the metadata of a GGUF file states, as a manifest
/// keeps it.
pub open spec fn gemma_config_of(hyperparameters: Seq<(Seq<char>, Json)>) -> Result<
    GemmaConfig,
    Seq<char>,
> {
    match entries_of(object_get(hyperparameters, "gguf.metadata"@)) {
        None => Err("no gguf.metadata in manifest"@),
        Some(o) => Ok(
            GemmaConfig {
                n_layers: count_or(o, "gemma4.block_count"@, 42),
                dim: count_or(o, "gemma4.embedding_length"@, 2560),
                n_heads: count_or(o, "gemma4.attention.head_count"@, 8),
                n_kv_heads: count_or(o, "gemma4.attention.head_count_kv"@, 2),
                head_dim: count_or(o, "gemma4.attention.key_length"@, 512),
                head_dim_swa: count_or(o, "gemma4.attention.key_length_swa"@, 256),
                hidden_dim: count_or(o, "gemma4.feed_forward_length"@, 10240),
                vocab_size: count_or(o, "gemma4.vocab_size"@, 262144),
                ctx_len: count_or(o, "gemma4.context_length"@, 131072),
                norm_eps: number_or(
                    object_get(o, "gemma4.attention.layer_norm_rms_epsilon"@),
                    0x3eb0_c6f7_a0b5_ed8d,
                ),
                rope_base: number_or(object_get(o, "gemma4.rope.freq_base"@), 0x412e_8480_0000_0000),
                rope_base_swa: number_or(
                    object_get(o, "gemma4.rope.freq_base_swa"@),
                    0x40c3_8800_0000_0000,
                ),
                rope_dim: count_or(o, "gemma4.rope.dimension_count"@, 512),
                rope_dim_swa: count_or(o, "gemma4.rope.dimension_count_swa"@, 256),
                sliding_window: count_or(o, "gemma4.attention.sliding_window"@, 512),
                swa_pattern: pattern_of(
                    items_of(object_get(o, "gemma4.attention.sliding_window_pattern"@)),
                ),
                shared_kv_layers: count_or(o, "gemma4.attention.shared_kv_layers"@, 18),
                final_logit_softcapping: number_or(
                    object_get(o, "gemma4.final_logit_softcapping"@),
                    0x403e_0000_0000_0000,
                ),
                per_layer_dim: count_or(o, "gemma4.embedding_length_per_layer_input"@, 256),
            },
        ),
    }
}

/// The configuration of a model.
#[derive(Debug)]
pub struct Gemma4Config {
    /// The number of layers.
    pub n_layers: u64,
    /// The numbers of a token's state.
    pub dim: u64,
    /// The number of heads that ask.
    pub n_heads: u64,
    /// The number of heads that keys and values have.
    pub n_kv_heads: u64,
    /// The numbers of a head.
    pub head_dim: u64,
    /// The numbers of a head in a layer with a sliding window.
    pub head_dim_swa: u64,
    /// The numbers between the two halves of a feed-forward step.
    pub hidden_dim: u64,
    /// The number of tokens.
    pub vocab_size: u64,
    /// The longest context.
    pub ctx_len: u64,
    /// What keeps a norm from dividing by zero.
    pub norm_eps: Number,
    /// The base of the rotation.
    pub rope_base: Number,
    /// The base of the rotation in a layer with a sliding window.
    pub rope_base_swa: Number,
    /// How many numbers are rotated.
    pub rope_dim: u64,
    /// How many numbers are rotated in a layer with a sliding window.
    pub rope_dim_swa: u64,
    /// How far a sliding window reaches back.
    pub sliding_window: u64,
    /// Which layers have a sliding window.
    pub swa_pattern: Vec<bool>,
    /// How many layers share keys and values.
    pub shared_kv_layers: u64,
    /// What the scores of tokens are capped by.
    pub final_logit_softcapping: Number,
    /// The width of the router.
    pub per_layer_dim: u64,
}

impl View for Gemma4Config {
    type V = GemmaConfig;

    open spec fn view(&self) -> GemmaConfig {
        GemmaConfig {
            n_layers: self.n_layers,
            dim: self.dim,
            n_heads: self.n_heads,
            n_kv_heads: self.n_kv_heads,
            head_dim: self.head_dim,
            head_dim_swa: self.head_dim_swa,
            hidden_dim: self.hidden_dim,
            vocab_size: self.vocab_size,
            ctx_len: self.ctx_len,
            norm_eps: self.norm_eps,
            rope_base: self.rope_base,
            rope_base_swa: self.rope_base_swa,
            rope_dim: self.rope_dim,
            rope_dim_swa: self.rope_dim_swa,
            sliding_window: self.sliding_window,
            swa_pattern: self.swa_pattern@,
            shared_kv_layers: self.shared_kv_layers,
            final_logit_softcapping: self.final_logit_softcapping,
            per_layer_dim: self.per_layer_dim,
        }
    }
}

fn get_count(o: &Vec<(String, JsonValue)>, key: &str, default: u64) -> (r: u64)
    ensures
        r == count_or(entry_models(o@), key@, default),
{
    match find_count(o, key) {
        Some(n) => n,
        None => default,
    }
}

fn get_number(o: &Vec<(String, JsonValue)>, key: &str, bits: u64) -> (r: Number)
    ensures
        r == number_or(object_get(entry_models(o@), key@), bits),
{
    to_number(object_find(o, key), bits)
}

fn get_pattern(v: Option<&Vec<JsonValue>>) -> (r: Vec<bool>)
    ensures
        r@ == pattern_of(
            match v {
                Some(a) => Some(models(a@)),
                None => None,
            },
        ),
{
    let mut out: Vec<bool> = Vec::new();
    let mut i: usize = 0;
    match v {
        Some(a) => {
            while i < a.len()
                invariant
                    i <= a@.len(),
                    out@ == pattern_of(Some(models(a@))).take(i as int),
                decreases a@.len() - i,
            {
                assert(models(a@)[i as int] == a@[i as int]@);
                let b = match a[i].as_bool() {
                    Some(b) => b,
                    None => true,
                };
                out.push(b);
                i += 1;
                assert(out@ =~= pattern_of(Some(models(a@))).take(i as int));
            }
            assert(out@ =~= pattern_of(Some(models(a@))));
        },
        None => {
            while i < 42
                invariant
                    i <= 42,
                    out@ == Seq::new(i as nat, |k: int| true),
                decreases 42 - i,
            {
                out.push(true);
                i += 1;
                assert(out@ =~= Seq::new(i as nat, |k: int| true));
            }
        },
    }
    out
}

/// Whether a layer sees a sliding window. One that the pattern does not reach
/// does.
pub open spec fn slides(pattern: Seq<bool>, layer: int) -> bool {
    if layer < pattern.len() {
        pattern[layer]
    } else {
        true
    }
}

impl Gemma4Config {
    /// The configuration that a file's manifest states.
    pub fn from_runtime(rt: &AxonRuntime) -> (r: Result<Gemma4Config, String>)
        ensures
            match r {
                Ok(c) => gemma_config_of(rt.opened().manifest.hyperparameters) == Ok::<
                    GemmaConfig,
                    Seq<char>,
                >(c@),
                Err(e) => gemma_config_of(rt.opened().manifest.hyperparameters) == Err::<
                    GemmaConfig,
                    Seq<char>,
                >(e@),
            },
    {
        let found = match rt.manifest().hyperparameter("gguf.metadata") {
            Some(v) => v.as_object(),
            None => None,
        };
        let o = match found {
            Some(o) => o,
            None => return Err("no gguf.metadata in manifest".to_owned()),
        };
        let pattern = get_pattern(find_items(o, "gemma4.attention.sliding_window_pattern"));
        Ok(
            Gemma4Config {
                n_layers: get_count(o, "gemma4.block_count", 42),
                dim: get_count(o, "gemma4.embedding_length", 2560),
                n_heads: get_count(o, "gemma4.attention.head_count", 8),
                n_kv_heads: get_count(o, "gemma4.attention.head_count_kv", 2),
                head_dim: get_count(o, "gemma4.attention.key_length", 512),
                head_dim_swa: get_count(o, "gemma4.attention.key_length_swa", 256),
                hidden_dim: get_count(o, "gemma4.feed_forward_length", 10240),
                vocab_size: get_count(o, "gemma4.vocab_size", 262144),
                ctx_len: get_count(o, "gemma4.context_length", 131072),
                norm_eps: get_number(
                    o,
                    "gemma4.attention.layer_norm_rms_epsilon",
                    0x3eb0_c6f7_a0b5_ed8d,
                ),
                rope_base: get_number(o, "gemma4.rope.freq_base", 0x412e_8480_0000_0000),
                rope_base_swa: get_number(o, "gemma4.rope.freq_base_swa", 0x40c3_8800_0000_0000),
                rope_dim: get_count(o, "gemma4.rope.dimension_count", 512),
                rope_dim_swa: get_count(o, "gemma4.rope.dimension_count_swa", 256),
                sliding_window: get_count(o, "gemma4.attention.sliding_window", 512),
                swa_pattern: pattern,
                shared_kv_layers: get_count(o, "gemma4.attention.shared_kv_layers", 18),
                final_logit_softcapping: get_number(
                    o,
                    "gemma4.final_logit_softcapping",
                    0x403e_0000_0000_0000,
                ),
                per_layer_dim: get_count(o, "gemma4.embedding_length_per_layer_input", 256),
            },
        )
    }

    /// Whether a layer sees a sliding window.
    pub fn is_swa_layer(&self, layer: usize) -> (r: bool)
        ensures
            r == slides(self.swa_pattern@, layer as int),
    {
        if layer < self.swa_pattern.len() {
            self.swa_pattern[layer]
        } else {
            true
        }
    }
}

// ── Weights ─────────────────────────────────────────────────────────
/// The first numbers of a row of numbers, so many of them.
#[verifier::ext_equal]
pub struct CountedModel {
    pub numbers: Numbers,
    pub count: int,
}

/// The numbers that bytes stand for, no more than expected.
pub open spec fn counted(d: Seq<u8>, dtype: DType, expected: int) -> CountedModel {
    let numbers = numbers_of(d, dtype);
    CountedModel {
        numbers,
        count: if expected < numbers.count() {
            expected
        } else {
            numbers.count()
        },
    }
}

/// The first numbers of a row of numbers.
#[derive(Debug)]
pub struct Counted {
    /// The row.
    pub numbers: Dequantized,
    /// How many of its numbers count.
    pub count: u128,
}

impl View for Counted {
    type V = CountedModel;

    open spec fn view(&self) -> CountedModel {
        CountedModel { numbers: self.numbers@, count: self.count as int }
    }
}

/// A loaded matrix: its numbers, its bytes where it was found, and its type.
#[verifier::ext_equal]
pub struct GemmaMatrixModel {
    pub values: CountedModel,
    pub raw: Option<Seq<u8>>,
    pub dtype: DType,
}

/// The weights of a norm: loaded ones, or a one for every number.
#[verifier::ext_equal]
pub enum GemmaNormModel {
    Ones,
    Loaded(CountedModel),
}

/// What stands for a matrix that was not found.
pub open spec fn absent() -> GemmaMatrixModel {
    GemmaMatrixModel {
        values: CountedModel { numbers: Numbers::Singles(Seq::empty()), count: 0 },
        raw: None,
        dtype: DType::F32,
    }
}

/// The bytes of a tensor, none where they cannot be read.
pub open spec fn bytes_or_none(d: Seq<u8>, x: Seq<Descriptor>, name: Seq<char>) -> Seq<u8> {
    match whole_tensor(d, x, name) {
        Ok(b) => b,
        Err(_) => Seq::empty(),
    }
}

/// The matrix that the tensor with the name is. As many numbers are expected as
/// the shape has, unless it is said how many.
pub open spec fn matrix_in(
    d: Seq<u8>,
    x: Seq<Descriptor>,
    name: Seq<char>,
    expected: Option<int>,
) -> GemmaMatrixModel {
    match lookup(x, name) {
        Err(_) => absent(),
        Ok(t) => {
            let raw = bytes_or_none(d, x, name);
            let n = match expected {
                Some(n) => n,
                None => product(t.shape) as int,
            };
            GemmaMatrixModel {
                values: counted(raw, t.dtype, n),
                raw: Some(raw),
                dtype: t.dtype,
            }
        },
    }
}

/// The norm that the tensor with the name is, always of single precision.
pub open spec fn norm_in(d: Seq<u8>, x: Seq<Descriptor>, name: Seq<char>) -> GemmaNormModel {
    match lookup(x, name) {
        Err(_) => GemmaNormModel::Ones,
        Ok(t) => GemmaNormModel::Loaded(
            counted(bytes_or_none(d, x, name), DType::F32, product(t.shape) as int),
        ),
    }
}

/// The bits of one.
pub const ONE: u32 = 0x3f80_0000;

/// The bits of a layer's scale: the first number of its tensor, or one.
pub open spec fn scale_in(d: Seq<u8>, x: Seq<Descriptor>, name: Seq<char>) -> u32 {
    match lookup(x, name) {
        Err(_) => ONE,
        Ok(_) => {
            let s = singles(bytes_or_none(d, x, name));
            if s.len() > 0 {
                s[0]
            } else {
                ONE
            }
        },
    }
}

/// A loaded matrix.
#[derive(Debug)]
pub struct GemmaMatrix {
    /// Its numbers.
    pub values: Counted,
    /// Its bytes, where it was found.
    pub raw: Option<Vec<u8>>,
    /// Its type.
    pub dtype: DType,
}

impl View for GemmaMatrix {
    type V = GemmaMatrixModel;

    open spec fn view(&self) -> GemmaMatrixModel {
        GemmaMatrixModel { values: self.values@, raw: opt_bytes(self.raw), dtype: self.dtype }
    }
}

/// The weights of a norm.
#[derive(Debug)]
pub enum GemmaNorm {
    /// A one for every number.
    Ones,
    /// Loaded weights.
    Loaded(Counted),
}

impl View for GemmaNorm {
    type V = GemmaNormModel;

    open spec fn view(&self) -> GemmaNormModel {
        match self {
            GemmaNorm::Ones => GemmaNormModel::Ones,
            GemmaNorm::Loaded(c) => GemmaNormModel::Loaded(c@),
        }
    }
}

/// Reads bytes as numbers, no more than expected. A number above the cap stands
/// for every larger one.
fn count_numbers(d: &[u8], dtype: DType, expected: u128, Ghost(exact): Ghost<int>) -> (r: Counted)
    requires
        expected == exact || (expected >= 0x4_0000_0000_0000_0000 && exact >= expected),
    ensures
        r@ == counted(d@, dtype, exact),
{
    assert(d@.len() == d.len());
    let numbers = dequantize_tensor(d, dtype);
    let all = numbers.count();
    assert(all <= 2 * d@.len());
    let count = if expected < all {
        expected
    } else {
        all
    };
    Counted { numbers, count }
}

fn read_or_none(rt: &mut AxonRuntime, name: &str) -> (r: Vec<u8>)
    ensures
        final(rt).same_file(*old(rt)),
        r@ == bytes_or_none(old(rt).bytes(), old(rt).descs(), name@),
        final(rt).counts() == after_read(
            old(rt).counts(),
            old(rt).bytes(),
            old(rt).descs(),
            Some(name@),
        ),
{
    proof {
        reveal(after_read);
    }
    match rt.tensor(name) {
        Ok(b) => b,
        Err(_) => {
            let none: Vec<u8> = Vec::new();
            assert(none@ =~= Seq::empty());
            none
        },
    }
}

fn load_matrix(rt: &mut AxonRuntime, name: &str, expected: Option<u128>) -> (r: GemmaMatrix)
    ensures
        final(rt).same_file(*old(rt)),
        r@ == matrix_in(
            old(rt).bytes(),
            old(rt).descs(),
            name@,
            match expected {
                Some(n) => Some(n as int),
                None => None,
            },
        ),
        final(rt).counts() == after_read(
            old(rt).counts(),
            old(rt).bytes(),
            old(rt).descs(),
            Some(name@),
        ),
{
    proof {
        reveal(after_read);
    }
    match rt.tensor_info(name) {
        Err(_) => no_matrix(),
        Ok(info) => {
            let raw = read_or_none(rt, name);
            let ghost exact = match expected {
                Some(n) => n as int,
                None => product(info.shape@) as int,
            };
            let n = match expected {
                Some(n) => n,
                None => element_count(info.shape.as_slice()),
            };
            let values = count_numbers(raw.as_slice(), info.dtype, n, Ghost(exact));
            GemmaMatrix { values, raw: Some(raw), dtype: info.dtype }
        },
    }
}

fn no_matrix() -> (r: GemmaMatrix)
    ensures
        r@ == absent(),
{
    let none: Vec<u32> = Vec::new();
    assert(none@ =~= Seq::empty());
    GemmaMatrix {
        values: Counted { numbers: Dequantized::Singles(none), count: 0 },
        raw: None,
        dtype: DType::F32,
    }
}

fn load_norm(rt: &mut AxonRuntime, name: &str) -> (r: GemmaNorm)
    ensures
        final(rt).same_file(*old(rt)),
        r@ == norm_in(old(rt).bytes(), old(rt).descs(), name@),
        final(rt).counts() == after_read(
            old(rt).counts(),
            old(rt).bytes(),
            old(rt).descs(),
            Some(name@),
        ),
{
    proof {
        reveal(after_read);
    }
    match rt.tensor_info(name) {
        Err(_) => GemmaNorm::Ones,
        Ok(info) => {
            let raw = read_or_none(rt, name);
            let n = element_count(info.shape.as_slice());
            GemmaNorm::Loaded(
                count_numbers(
                    raw.as_slice(),
                    DType::F32,
                    n,
                    Ghost(product(info.shape@) as int),
                ),
            )
        },
    }
}

fn load_scale(rt: &mut AxonRuntime, name: &str) -> (r: u32)
    ensures
        final(rt).same_file(*old(rt)),
        r == scale_in(old(rt).bytes(), old(rt).descs(), name@),
        final(rt).counts() == after_read(
            old(rt).counts(),
            old(rt).bytes(),
            old(rt).descs(),
            Some(name@),
        ),
{
    proof {
        reveal(after_read);
    }
    match rt.tensor_info(name) {
        Err(_) => ONE,
        Ok(_) => {
            let raw = read_or_none(rt, name);
            match dequantize_tensor(raw.as_slice(), DType::F32) {
                Dequantized::Singles(s) => if s.len() > 0 {
                    s[0]
                } else {
                    ONE
                },
                _ => ONE,
            }
        },
    }
}

/// The weights of a layer.
#[verifier::ext_equal]
pub struct GemmaLayerModel {
    pub attn_norm: GemmaNormModel,
    pub attn_q: GemmaMatrixModel,
    pub attn_k: GemmaMatrixModel,
    pub attn_v: GemmaMatrixModel,
    pub attn_o: GemmaMatrixModel,
    pub attn_q_norm: GemmaNormModel,
    pub attn_k_norm: GemmaNormModel,
    pub ffn_norm: GemmaNormModel,
    pub ffn_gate: GemmaMatrixModel,
    pub ffn_up: GemmaMatrixModel,
    pub ffn_down: GemmaMatrixModel,
    pub inp_gate: GemmaMatrixModel,
    pub proj: GemmaMatrixModel,
    pub post_attention_norm: GemmaNormModel,
    pub post_ffw_norm: GemmaNormModel,
    pub post_norm: GemmaNormModel,
    pub layer_output_scale: u32,
    pub has_experts: bool,
    pub expert_gate: GemmaMatrixModel,
    pub expert_up: GemmaMatrixModel,
    pub expert_down: GemmaMatrixModel,
    pub expert_gate_2: GemmaMatrixModel,
    pub expert_up_2: GemmaMatrixModel,
    pub expert_down_2: GemmaMatrixModel,
}

/// The name of a layer's tensor.
pub open spec fn name_in(layer: u64, suffix: Seq<char>) -> Seq<char> {
    prefix_of(layer) + "."@ + suffix
}

/// A matrix of an expert, absent where the layer does not have the expert.
pub open spec fn expert_in(
    d: Seq<u8>,
    x: Seq<Descriptor>,
    c: GemmaConfig,
    layer: u64,
    gate: Seq<char>,
    suffix: Seq<char>,
) -> GemmaMatrixModel {
    if lookup(x, name_in(layer, gate)) is Ok {
        matrix_in(d, x, name_in(layer, suffix), Some(c.hidden_dim * c.dim))
    } else {
        absent()
    }
}

/// The weights of a layer.
#[verifier::opaque]
pub open spec fn gemma_layer_of(
    d: Seq<u8>,
    x: Seq<Descriptor>,
    c: GemmaConfig,
    l: u64,
) -> GemmaLayerModel {
    let (g1, g2) = ("ffn_gate_1.weight"@, "ffn_gate_2.weight"@);
    GemmaLayerModel {
        attn_norm: norm_in(d, x, name_in(l, "attn_norm.weight"@)),
        attn_q: matrix_in(d, x, name_in(l, "attn_q.weight"@), None),
        attn_k: matrix_in(d, x, name_in(l, "attn_k.weight"@), None),
        attn_v: matrix_in(d, x, name_in(l, "attn_v.weight"@), None),
        attn_o: matrix_in(d, x, name_in(l, "attn_output.weight"@), None),
        attn_q_norm: norm_in(d, x, name_in(l, "attn_q_norm.weight"@)),
        attn_k_norm: norm_in(d, x, name_in(l, "attn_k_norm.weight"@)),
        ffn_norm: norm_in(d, x, name_in(l, "ffn_norm.weight"@)),
        ffn_gate: matrix_in(d, x, name_in(l, "ffn_gate.weight"@), None),
        ffn_up: matrix_in(d, x, name_in(l, "ffn_up.weight"@), None),
        ffn_down: matrix_in(d, x, name_in(l, "ffn_down.weight"@), None),
        inp_gate: matrix_in(d, x, name_in(l, "inp_gate.weight"@), None),
        proj: matrix_in(d, x, name_in(l, "proj.weight"@), None),
        post_attention_norm: norm_in(d, x, name_in(l, "post_attention_norm.weight"@)),
        post_ffw_norm: norm_in(d, x, name_in(l, "post_ffw_norm.weight"@)),
        post_norm: norm_in(d, x, name_in(l, "post_norm.weight"@)),
        layer_output_scale: scale_in(d, x, name_in(l, "layer_output_scale.weight"@)),
        has_experts: lookup(x, name_in(l, g1)) is Ok,
        expert_gate: expert_in(d, x, c, l, g1, "ffn_gate_1.weight"@),
        expert_up: expert_in(d, x, c, l, g1, "ffn_up_1.weight"@),
        expert_down: expert_in(d, x, c, l, g1, "ffn_down_1.weight"@),
        expert_gate_2: expert_in(d, x, c, l, g2, "ffn_gate_2.weight"@),
        expert_up_2: expert_in(d, x, c, l, g2, "ffn_up_2.weight"@),
        expert_down_2: expert_in(d, x, c, l, g2, "ffn_down_2.weight"@),
    }
}

/// The name that a matrix of an expert is read under, where the layer has the
/// expert.
pub open spec fn expert_read(
    x: Seq<Descriptor>,
    layer: u64,
    gate: Seq<char>,
    suffix: Seq<char>,
) -> Option<Seq<char>> {
    if lookup(x, name_in(layer, gate)) is Ok {
        Some(name_in(layer, suffix))
    } else {
        None
    }
}

/// The names of the tensors that the weights of a layer are read from.
pub open spec fn gemma_layer_reads(x: Seq<Descriptor>, l: u64) -> Seq<Option<Seq<char>>> {
    let (g1, g2) = ("ffn_gate_1.weight"@, "ffn_gate_2.weight"@);
    seq![
        Some(name_in(l, "attn_q.weight"@)),
        Some(name_in(l, "attn_k.weight"@)),
        Some(name_in(l, "attn_v.weight"@)),
        Some(name_in(l, "attn_output.weight"@)),
        Some(name_in(l, "ffn_gate.weight"@)),
        Some(name_in(l, "ffn_up.weight"@)),
        Some(name_in(l, "ffn_down.weight"@)),
        Some(name_in(l, "inp_gate.weight"@)),
        Some(name_in(l, "proj.weight"@)),
        expert_read(x, l, g1, "ffn_gate_1.weight"@),
        expert_read(x, l, g1, "ffn_up_1.weight"@),
        expert_read(x, l, g1, "ffn_down_1.weight"@),
        expert_read(x, l, g2, "ffn_gate_2.weight"@),
        expert_read(x, l, g2, "ffn_up_2.weight"@),
        expert_read(x, l, g2, "ffn_down_2.weight"@),
        Some(name_in(l, "attn_norm.weight"@)),
        Some(name_in(l, "ffn_norm.weight"@)),
        Some(name_in(l, "post_attention_norm.weight"@)),
        Some(name_in(l, "post_ffw_norm.weight"@)),
        Some(name_in(l, "post_norm.weight"@)),
        Some(name_in(l, "layer_output_scale.weight"@)),
        Some(name_in(l, "attn_q_norm.weight"@)),
        Some(name_in(l, "attn_k_norm.weight"@)),
    ]
}

/// What is counted once the weights of a layer were read.
#[verifier::opaque]
pub open spec fn after_gemma_layer(
    k: RuntimeStats,
    d: Seq<u8>,
    x: Seq<Descriptor>,
    l: u64,
) -> RuntimeStats {
    after_reads(k, d, x, gemma_layer_reads(x, l), 23)
}

/// What is counted once the weights of the first `n` layers were read.
pub open spec fn after_gemma_layers(
    k: RuntimeStats,
    d: Seq<u8>,
    x: Seq<Descriptor>,
    n: int,
) -> RuntimeStats
    decreases n,
{
    if n <= 0 {
        k
    } else {
        after_gemma_layer(after_gemma_layers(k, d, x, n - 1), d, x, (n - 1) as u64)
    }
}

/// The weights of a layer.
#[derive(Debug)]
pub struct Gemma4LayerWeights {
    /// The norm before attention.
    pub attn_norm: GemmaNorm,
    /// The query projection.
    pub attn_q: GemmaMatrix,
    /// The key projection.
    pub attn_k: GemmaMatrix,
    /// The value projection.
    pub attn_v: GemmaMatrix,
    /// The projection of what attention gives.
    pub attn_o: GemmaMatrix,
    /// The norm on the heads of the query.
    pub attn_q_norm: GemmaNorm,
    /// The norm on the heads of the key.
    pub attn_k_norm: GemmaNorm,
    /// The norm before the feed-forward step.
    pub ffn_norm: GemmaNorm,
    /// The gating projection.
    pub ffn_gate: GemmaMatrix,
    /// The up projection.
    pub ffn_up: GemmaMatrix,
    /// The down projection.
    pub ffn_down: GemmaMatrix,
    /// The router.
    pub inp_gate: GemmaMatrix,
    /// The projection of the router's probabilities.
    pub proj: GemmaMatrix,
    /// The norm behind attention.
    pub post_attention_norm: GemmaNorm,
    /// The norm behind the feed-forward step.
    pub post_ffw_norm: GemmaNorm,
    /// The norm at the end of the layer.
    pub post_norm: GemmaNorm,
    /// The bits of what the layer's results are scaled by.
    pub layer_output_scale: u32,
    /// Whether the layer has experts.
    pub has_experts: bool,
    /// The gating projection of the first expert.
    pub expert_gate: GemmaMatrix,
    /// The up projection of the first expert.
    pub expert_up: GemmaMatrix,
    /// The down projection of the first expert.
    pub expert_down: GemmaMatrix,
    /// The gating projection of the second expert.
    pub expert_gate_2: GemmaMatrix,
    /// The up projection of the second expert.
    pub expert_up_2: GemmaMatrix,
    /// The down projection of the second expert.
    pub expert_down_2: GemmaMatrix,
}

impl View for Gemma4LayerWeights {
    type V = GemmaLayerModel;

    open spec fn view(&self) -> GemmaLayerModel {
        GemmaLayerModel {
            attn_norm: self.attn_norm@,
            attn_q: self.attn_q@,
            attn_k: self.attn_k@,
            attn_v: self.attn_v@,
            attn_o: self.attn_o@,
            attn_q_norm: self.attn_q_norm@,
            attn_k_norm: self.attn_k_norm@,
            ffn_norm: self.ffn_norm@,
            ffn_gate: self.ffn_gate@,
            ffn_up: self.ffn_up@,
            ffn_down: self.ffn_down@,
            inp_gate: self.inp_gate@,
            proj: self.proj@,
            post_attention_norm: self.post_attention_norm@,
            post_ffw_norm: self.post_ffw_norm@,
            post_norm: self.post_norm@,
            layer_output_scale: self.layer_output_scale,
            has_experts: self.has_experts,
            expert_gate: self.expert_gate@,
            expert_up: self.expert_up@,
            expert_down: self.expert_down@,
            expert_gate_2: self.expert_gate_2@,
            expert_up_2: self.expert_up_2@,
            expert_down_2: self.expert_down_2@,
        }
    }
}

fn layer_name(layer: u64, suffix: &str) -> (r: String)
    ensures
        r@ == name_in(layer, suffix@),
{
    let n = decimal(layer);
    let r = concat4("blk.", n.as_str(), ".", suffix);
    assert(r@ =~= name_in(layer, suffix@));
    r
}

fn load_named(rt: &mut AxonRuntime, layer: u64, suffix: &str) -> (r: GemmaMatrix)
    ensures
        final(rt).same_file(*old(rt)),
        r@ == matrix_in(old(rt).bytes(), old(rt).descs(), name_in(layer, suffix@), None),
        final(rt).counts() == after_read(
            old(rt).counts(),
            old(rt).bytes(),
            old(rt).descs(),
            Some(name_in(layer, suffix@)),
        ),
{
    load_matrix(rt, layer_name(layer, suffix).as_str(), None)
}

fn load_named_norm(rt: &mut AxonRuntime, layer: u64, suffix: &str) -> (r: GemmaNorm)
    ensures
        final(rt).same_file(*old(rt)),
        r@ == norm_in(old(rt).bytes(), old(rt).descs(), name_in(layer, suffix@)),
        final(rt).counts() == after_read(
            old(rt).counts(),
            old(rt).bytes(),
            old(rt).descs(),
            Some(name_in(layer, suffix@)),
        ),
{
    load_norm(rt, layer_name(layer, suffix).as_str())
}

fn load_expert(rt: &mut AxonRuntime, c: &Gemma4Config, layer: u64, gate: &str, suffix: &str) -> (r:
    GemmaMatrix)
    ensures
        final(rt).same_file(*old(rt)),
        r@ == expert_in(old(rt).bytes(), old(rt).descs(), c@, layer, gate@, suffix@),
        final(rt).counts() == after_read(
            old(rt).counts(),
            old(rt).bytes(),
            old(rt).descs(),
            expert_read(old(rt).descs(), layer, gate@, suffix@),
        ),
{
    proof {
        reveal(after_read);
    }
    if rt.tensor_info(layer_name(layer, gate).as_str()).is_ok() {
        proof {
            let (a, b) = (c.hidden_dim as int, c.dim as int);
            assert(0 <= a * b <= 0xffff_ffff_ffff_ffff * 0xffff_ffff_ffff_ffff) by (nonlinear_arith)
                requires
                    0 <= a <= 0xffff_ffff_ffff_ffff,
                    0 <= b <= 0xffff_ffff_ffff_ffff,
            ;
        }
        let n = c.hidden_dim as u128 * c.dim as u128;
        load_matrix(rt, layer_name(layer, suffix).as_str(), Some(n))
    } else {
        no_matrix()
    }
}

/// Reads the weights of a layer.
fn load_layer_from_rt(rt: &mut AxonRuntime, c: &Gemma4Config, l: u64) -> (r: Gemma4LayerWeights)
    ensures
        final(rt).same_file(*old(rt)),
        r@ == gemma_layer_of(old(rt).bytes(), old(rt).descs(), c@, l),
        final(rt).counts() == after_gemma_layer(
            old(rt).counts(),
            old(rt).bytes(),
            old(rt).descs(),
            l,
        ),
{
    let attn_q = load_named(rt, l, "attn_q.weight");
    let attn_k = load_named(rt, l, "attn_k.weight");
    let attn_v = load_named(rt, l, "attn_v.weight");
    let attn_o = load_named(rt, l, "attn_output.weight");
    let ffn_gate = load_named(rt, l, "ffn_gate.weight");
    let ffn_up = load_named(rt, l, "ffn_up.weight");
    let ffn_down = load_named(rt, l, "ffn_down.weight");
    let inp_gate = load_named(rt, l, "inp_gate.weight");
    let proj = load_named(rt, l, "proj.weight");
    let has_experts = rt.tensor_info(layer_name(l, "ffn_gate_1.weight").as_str()).is_ok();
    let expert_gate = load_expert(rt, c, l, "ffn_gate_1.weight", "ffn_gate_1.weight");
    let expert_up = load_expert(rt, c, l, "ffn_gate_1.weight", "ffn_up_1.weight");
    let expert_down = load_expert(rt, c, l, "ffn_gate_1.weight", "ffn_down_1.weight");
    let expert_gate_2 = load_expert(rt, c, l, "ffn_gate_2.weight", "ffn_gate_2.weight");
    let expert_up_2 = load_expert(rt, c, l, "ffn_gate_2.weight", "ffn_up_2.weight");
    let expert_down_2 = load_expert(rt, c, l, "ffn_gate_2.weight", "ffn_down_2.weight");
    let attn_norm = load_named_norm(rt, l, "attn_norm.weight");
    let ffn_norm = load_named_norm(rt, l, "ffn_norm.weight");
    let post_attention_norm = load_named_norm(rt, l, "post_attention_norm.weight");
    let post_ffw_norm = load_named_norm(rt, l, "post_ffw_norm.weight");
    let post_norm = load_named_norm(rt, l, "post_norm.weight");
    let layer_output_scale = load_scale(
        rt,
        layer_name(l, "layer_output_scale.weight").as_str(),
    );
    let attn_q_norm = load_named_norm(rt, l, "attn_q_norm.weight");
    let attn_k_norm = load_named_norm(rt, l, "attn_k_norm.weight");
    proof {
        reveal(gemma_layer_of);
        reveal(after_gemma_layer);
        reveal_with_fuel(after_reads, 24);
    }
    Gemma4LayerWeights {
        attn_norm,
        attn_q,
        attn_k,
        attn_v,
        attn_o,
        attn_q_norm,
        attn_k_norm,
        ffn_norm,
        ffn_gate,
        ffn_up,
        ffn_down,
        inp_gate,
        proj,
        post_attention_norm,
        post_ffw_norm,
        post_norm,
        layer_output_scale,
        has_experts,
        expert_gate,
        expert_up,
        expert_down,
        expert_gate_2,
        expert_up_2,
        expert_down_2,
    }
}

/// The weights of a model.
#[verifier::ext_equal]
pub struct GemmaWeightsModel {
    pub config: GemmaConfig,
    pub embeddings: Seq<u8>,
    pub embeddings_dtype: DType,
    pub output_norm: CountedModel,
    pub output: Option<CountedModel>,
    pub layers: Seq<GemmaLayerModel>,
    pub rope_freqs: CountedModel,
    pub shared_embd: bool,
}

/// The numbers of a tensor, none where no tensor has the name.
pub open spec fn numbers_in(d: Seq<u8>, x: Seq<Descriptor>, name: Seq<char>) -> CountedModel {
    matrix_in(d, x, name, None).values
}

/// The weights of a model, or why they cannot be loaded.
pub open spec fn gemma_weights_of(d: Seq<u8>, x: Seq<Descriptor>, c: GemmaConfig) -> Result<
    GemmaWeightsModel,
    Seq<char>,
> {
    match lookup(x, "token_embd.weight"@) {
        Err(_) => Err("token_embd.weight not found"@),
        Ok(t) => if numbers_in(d, x, "output_norm.weight"@).count == 0 {
            Err("output_norm.weight not found"@)
        } else {
            Ok(
                GemmaWeightsModel {
                    config: c,
                    embeddings: bytes_or_none(d, x, "token_embd.weight"@),
                    embeddings_dtype: t.dtype,
                    output_norm: numbers_in(d, x, "output_norm.weight"@),
                    output: if lookup(x, "output.weight"@) is Ok {
                        Some(numbers_in(d, x, "output.weight"@))
                    } else {
                        None
                    },
                    layers: Seq::new(
                        c.n_layers as nat,
                        |i: int| gemma_layer_of(d, x, c, i as u64),
                    ),
                    rope_freqs: numbers_in(d, x, "rope_freqs.weight"@),
                    shared_embd: lookup(x, "output.weight"@) is Err,
                },
            )
        },
    }
}

/// The names of the tensors outside the layers that the weights are read from.
pub open spec fn shared_reads() -> Seq<Option<Seq<char>>> {
    seq![
        Some("token_embd.weight"@),
        Some("output_norm.weight"@),
        Some("rope_freqs.weight"@),
        Some("per_layer_proj_norm.weight"@),
        Some("output.weight"@),
    ]
}

/// What is counted once the weights of a model were loaded, as far as they can
/// be.
pub open spec fn after_gemma_load(
    k: RuntimeStats,
    d: Seq<u8>,
    x: Seq<Descriptor>,
    c: GemmaConfig,
) -> RuntimeStats {
    if lookup(x, "token_embd.weight"@) is Err {
        k
    } else if numbers_in(d, x, "output_norm.weight"@).count == 0 {
        after_reads(k, d, x, shared_reads(), 2)
    } else {
        after_gemma_layers(after_reads(k, d, x, shared_reads(), 5), d, x, c.n_layers as int)
    }
}

/// The weights of a model. The embeddings stay as they are stored; a row is read
/// when it is needed.
#[derive(Debug)]
pub struct Gemma4Weights {
    /// The configuration.
    pub config: Gemma4Config,
    /// The bytes of the embeddings.
    pub tok_embd_raw: Vec<u8>,
    /// The type of the embeddings.
    pub tok_embd_dtype: DType,
    /// The last norm.
    pub output_norm: Counted,
    /// The output projection, where there is one.
    pub output: Option<Counted>,
    /// The layers.
    pub layers: Vec<Gemma4LayerWeights>,
    /// The learned frequencies of the rotation.
    pub rope_freqs: Counted,
    /// Whether the embeddings serve as the output projection too.
    pub shared_embd: bool,
}

/// What a row of layers stands for.
pub open spec fn gemma_layer_models(v: Seq<Gemma4LayerWeights>) -> Seq<GemmaLayerModel> {
    Seq::new(v.len(), |i: int| v[i]@)
}

impl View for Gemma4Weights {
    type V = GemmaWeightsModel;

    open spec fn view(&self) -> GemmaWeightsModel {
        GemmaWeightsModel {
            config: self.config@,
            embeddings: self.tok_embd_raw@,
            embeddings_dtype: self.tok_embd_dtype,
            output_norm: self.output_norm@,
            output: match self.output {
                Some(o) => Some(o@),
                None => None,
            },
            layers: gemma_layer_models(self.layers@),
            rope_freqs: self.rope_freqs@,
            shared_embd: self.shared_embd,
        }
    }
}

impl Gemma4Config {
    /// The same configuration again.
    pub fn copy(&self) -> (r: Gemma4Config)
        ensures
            r@ == self@,
    {
        let r = Gemma4Config {
            n_layers: self.n_layers,
            dim: self.dim,
            n_heads: self.n_heads,
            n_kv_heads: self.n_kv_heads,
            head_dim: self.head_dim,
            head_dim_swa: self.head_dim_swa,
            hidden_dim: self.hidden_dim,
            vocab_size: self.vocab_size,
            ctx_len: self.ctx_len,
            norm_eps: self.norm_eps,
            rope_base: self.rope_base,
            rope_base_swa: self.rope_base_swa,
            rope_dim: self.rope_dim,
            rope_dim_swa: self.rope_dim_swa,
            sliding_window: self.sliding_window,
            swa_pattern: self.swa_pattern.clone(),
            shared_kv_layers: self.shared_kv_layers,
            final_logit_softcapping: self.final_logit_softcapping,
            per_layer_dim: self.per_layer_dim,
        };
        assert(r.swa_pattern@ =~= self.swa_pattern@);
        r
    }
}

/// The row of a token: the numbers of its bytes, where the table has the whole
/// row.
pub open spec fn embedded(w: GemmaWeightsModel, token: int) -> Option<Numbers> {
    match token_row(token, w.config.dim as int, w.embeddings_dtype, w.embeddings.len() as int) {
        Some((a, b)) => Some(numbers_of(w.embeddings.subrange(a, b), w.embeddings_dtype)),
        None => None,
    }
}

/// How the score of a token is computed.
#[derive(Clone, Copy, Debug, PartialEq, Eq, Structural)]
pub enum ScoreRow {
    /// It is zero: the table does not have the whole row.
    Zero,
    /// From the four-bit blocks between two places of the table.
    Q4 { start: usize, end: usize },
    /// From the numbers between two places of the table.
    Other { start: usize, end: usize },
}

/// How the score of a token is computed. Four-bit rows are multiplied as blocks
/// where their length is that of blocks.
pub open spec fn score_row_of(w: GemmaWeightsModel, token: int) -> ScoreRow {
    match token_row(token, w.config.dim as int, w.embeddings_dtype, w.embeddings.len() as int) {
        None => ScoreRow::Zero,
        Some((a, b)) => if w.embeddings_dtype == DType::Q4 && b - a >= 18 && (b - a) % 18 < 4 {
            ScoreRow::Q4 { start: a as usize, end: b as usize }
        } else {
            ScoreRow::Other { start: a as usize, end: b as usize }
        },
    }
}

impl Gemma4Weights {
    /// Loads the weights of a model.
    pub fn load(rt: &mut AxonRuntime, config: &Gemma4Config) -> (r: Result<Gemma4Weights, String>)
        ensures
            final(rt).same_file(*old(rt)),
            match r {
                Ok(w) => gemma_weights_of(old(rt).bytes(), old(rt).descs(), config@) == Ok::<
                    GemmaWeightsModel,
                    Seq<char>,
                >(w@),
                Err(e) => gemma_weights_of(old(rt).bytes(), old(rt).descs(), config@) == Err::<
                    GemmaWeightsModel,
                    Seq<char>,
                >(e@),
            },
            final(rt).counts() == after_gemma_load(
                old(rt).counts(),
                old(rt).bytes(),
                old(rt).descs(),
                config@,
            ),
    {
        let ghost (d, x, c) = (rt.bytes(), rt.descs(), config@);
        proof {
            reveal(after_read);
            reveal_with_fuel(after_reads, 6);
        }
        let tok_embd_dtype = match rt.tensor_info("token_embd.weight") {
            Ok(info) => info.dtype,
            Err(_) => return Err("token_embd.weight not found".to_owned()),
        };
        let tok_embd_raw = read_or_none(rt, "token_embd.weight");
        let output_norm = load_matrix(rt, "output_norm.weight", None).values;
        if output_norm.count == 0 {
            return Err("output_norm.weight not found".to_owned());
        }
        let rope_freqs = load_matrix(rt, "rope_freqs.weight", None).values;
        // Read, and not kept.
        load_matrix(rt, "per_layer_proj_norm.weight", None);
        let shared_embd = rt.tensor_info("output.weight").is_err();
        let output = if shared_embd {
            None
        } else {
            Some(load_matrix(rt, "output.weight", None).values)
        };
        let ghost read = rt.counts();
        let mut layers: Vec<Gemma4LayerWeights> = Vec::new();
        let mut l: u64 = 0;
        while l < config.n_layers
            invariant
                l <= config.n_layers,
                rt.same_file(*old(rt)),
                d == rt.bytes(),
                x == rt.descs(),
                c == config@,
                rt.counts() == after_gemma_layers(read, d, x, l as int),
                layers@.len() == l,
                forall|k: int|
                    0 <= k < l ==> (#[trigger] layers@[k])@ == gemma_layer_of(d, x, c, k as u64),
            decreases config.n_layers - l,
        {
            let layer = load_layer_from_rt(rt, config, l);
            layers.push(layer);
            l += 1;
        }
        assert(gemma_layer_models(layers@) =~= Seq::new(
            c.n_layers as nat,
            |k: int| gemma_layer_of(d, x, c, k as u64),
        ));
        Ok(
            Gemma4Weights {
                config: config.copy(),
                tok_embd_raw,
                tok_embd_dtype,
                output_norm,
                output,
                layers,
                rope_freqs,
                shared_embd,
            },
        )
    }

    /// Where in the table the row of a token begins and ends, where the table has
    /// the whole row.
    fn row(&self, token: usize) -> (r: Option<(usize, usize)>)
        ensures
            match r {
                Some((a, b)) => token_row(
                    token as int,
                    self.config.dim as int,
                    self.tok_embd_dtype,
                    self.tok_embd_raw@.len() as int,
                ) == Some((a as int, b as int)) && a <= b <= self.tok_embd_raw@.len(),
                None => token_row(
                    token as int,
                    self.config.dim as int,
                    self.tok_embd_dtype,
                    self.tok_embd_raw@.len() as int,
                ) is None,
            },
    {
        let dim = self.config.dim as u128;
        let dtype = self.tok_embd_dtype;
        let len = self.tok_embd_raw.len();
        let size = dtype.size_in_bytes() as u128;
        proof {
            assert(size <= 8);
            assert(dim * size <= 0xffff_ffff_ffff_ffff * 8) by (nonlinear_arith)
                requires
                    0 <= dim <= 0xffff_ffff_ffff_ffff,
                    0 <= size <= 8,
            ;
        }
        let row: u128 = match dtype {
            DType::Q4 => (dim + 31) / 32 * 18,
            DType::Q8 => (dim + 31) / 32 * 34,
            _ => dim * size,
        };
        assert(row == stored_size(dim as int, dtype));
        proof {
            let (t, w) = (token as int, row as int);
            assert(t * w >= 0) by (nonlinear_arith)
                requires
                    t >= 0,
                    w >= 0,
            ;
        }
        if row > len as u128 {
            return None;
        }
        proof {
            let (t, w) = (token as int, row as int);
            assert(0 <= t * w <= 0xffff_ffff_ffff_ffff * 0xffff_ffff_ffff_ffff) by (nonlinear_arith)
                requires
                    0 <= t <= 0xffff_ffff_ffff_ffff,
                    0 <= w <= 0xffff_ffff_ffff_ffff,
            ;
        }
        let start = token as u128 * row;
        let end = start + row;
        if end <= len as u128 {
            Some((start as usize, end as usize))
        } else {
            None
        }
    }

    /// The embedding of a token, where the table has its whole row. The state has
    /// as many of its numbers as there are room for, and zeros behind them.
    pub fn embed(&self, token_id: usize) -> (r: Option<Dequantized>)
        ensures
            match r {
                Some(n) => embedded(self@, token_id as int) == Some(n@),
                None => embedded(self@, token_id as int) is None,
            },
    {
        match self.row(token_id) {
            Some((a, b)) => Some(
                dequantize_tensor(
                    vstd::slice::slice_subrange(self.tok_embd_raw.as_slice(), a, b),
                    self.tok_embd_dtype,
                ),
            ),
            None => None,
        }
    }

    /// How the score of a token is computed.
    pub fn score_row(&self, token: usize) -> (r: ScoreRow)
        ensures
            r == score_row_of(self@, token as int),
    {
        match self.row(token) {
            None => ScoreRow::Zero,
            Some((start, end)) => if self.tok_embd_dtype == DType::Q4 && end - start >= 18 && (end
                - start) % 18 < 4 {
                ScoreRow::Q4 { start, end }
            } else {
                ScoreRow::Other { start, end }
            },
        }
    }
}

// ── Routes ──────────────────────────────────────────────────────────
/// The better of the routes: the one found so far only if the next is less.
pub open spec fn better_route(s: Seq<u32>, found: Option<int>, next: int) -> int {
    match found {
        Some(b) => if less(s[next], s[b]) {
            b
        } else {
            next
        },
        None => next,
    }
}

/// The best of the routes from the `k`-th on but one, and of the one found so
/// far.
pub open spec fn best_route(s: Seq<u32>, skip: int, k: int, found: Option<int>) -> Option<int>
    decreases s.len() - k,
{
    if k >= s.len() {
        found
    } else if k == skip {
        best_route(s, skip, k + 1, found)
    } else {
        best_route(s, skip, k + 1, Some(better_route(s, found, k)))
    }
}

proof fn lemma_best_from(s: Seq<u32>, k: int, found: Option<int>)
    requires
        0 <= k <= s.len(),
        forall|i: int| 0 <= i < s.len() ==> !is_nan(#[trigger] s[i]),
        match found {
            Some(b) => k > 0 && is_last_greatest(s.take(k), b),
            None => k == 0,
        },
    ensures
        s.len() > 0 ==> best_route(s, -1, k, found) is Some && is_last_greatest(
            s,
            best_route(s, -1, k, found)->0,
        ),
    decreases s.len() - k,
{
    if k < s.len() {
        let b = better_route(s, found, k);
        let (before, now) = (s.take(k), s.take(k + 1));
        assert forall|j: int| 0 <= j < k implies now[j] == before[j] by {}
        assert(now[k] == s[k]);
        assert(is_last_greatest(now, b));
        lemma_best_from(s, k + 1, Some(b));
    } else {
        assert(s.take(k) =~= s);
    }
}

/// Where every probability is a number, the best route is the last of the most
/// probable ones.
pub proof fn lemma_best_route(s: Seq<u32>)
    requires
        s.len() > 0,
        forall|i: int| 0 <= i < s.len() ==> !is_nan(#[trigger] s[i]),
    ensures
        best_route(s, -1, 0, None) is Some,
        is_last_greatest(s, best_route(s, -1, 0, None)->0),
{
    lemma_best_from(s, 0, None);
}

fn find_route(router: &[u32], skip: Option<usize>) -> (r: Option<usize>)
    ensures
        ({
            let b = match skip {
                Some(k) => k as int,
                None => -1,
            };
            match r {
                Some(i) => best_route(router@, b, 0, None) == Some(i as int) && i < router@.len(),
                None => best_route(router@, b, 0, None) is None,
            }
        }),
        skip is None && router@.len() > 0 ==> r is Some,
{
    let ghost b = match skip {
        Some(k) => k as int,
        None => -1,
    };
    let mut found: Option<usize> = None;
    let mut k: usize = 0;
    while k < router.len()
        invariant
            k <= router@.len(),
            b == (match skip {
                Some(k) => k as int,
                None => -1,
            }),
            skip is None && k > 0 ==> found is Some,
            match found {
                Some(f) => f < router@.len() && best_route(router@, b, 0, None) == best_route(
                    router@,
                    b,
                    k as int,
                    Some(f as int),
                ),
                None => best_route(router@, b, 0, None) == best_route(
                    router@,
                    b,
                    k as int,
                    None,
                ),
            },
        decreases router@.len() - k,
    {
        let skipped = match skip {
            Some(s) => s == k,
            None => false,
        };
        if !skipped {
            found = match found {
                Some(f) => if is_less(router[k], router[f]) {
                    Some(f)
                } else {
                    Some(k)
                },
                None => Some(k),
            };
        }
        k += 1;
    }
    found
}

/// The route of the first expert.
pub fn top_route(router: &[u32]) -> (r: usize)
    requires
        router@.len() > 0,
    ensures
        best_route(router@, -1, 0, None) == Some(r as int),
        r < router@.len(),
{
    match find_route(router, None) {
        Some(i) => i,
        None => 0,
    }
}

/// The probability of the second expert: that of the best route but one, or that
/// of zero where there is no other.
pub fn second_weight(router: &[u32], best: usize) -> (r: u32)
    ensures
        r == (match best_route(router@, best as int, 0, None) {
            Some(i) => router@[i],
            None => 0,
        }),
{
    match find_route(router, Some(best)) {
        Some(i) => router[i],
        None => 0,
    }
}

/// The bits of one hundredth, above which a route is strong enough.
pub const LEAST_ROUTE: u32 = 0x3c23_d70a;

/// Whether a route of this probability is strong enough for its experts.
pub fn is_routed(weight: u32) -> (r: bool)
    ensures
        r == less(LEAST_ROUTE, weight),
{
    is_less(LEAST_ROUTE, weight)
}

// ── Rotation and norms ──────────────────────────────────────────────
/// Which learned frequency rotates a pair of numbers. Layers with a sliding window
/// have theirs behind the others. Where none is learned the standard ones serve.
pub open spec fn frequency_of(i: int, head_dim: int, learned: int, sliding: bool) -> Option<int> {
    let at = if sliding && learned > head_dim {
        i + head_dim
    } else {
        i
    };
    if at < learned {
        Some(at)
    } else {
        None
    }
}

/// Which learned frequency rotates the pair of numbers that begins at `i`.
pub fn frequency_index(i: usize, head_dim: usize, learned: usize, sliding: bool) -> (r: Option<
    usize,
>)
    ensures
        match r {
            Some(k) => frequency_of(i as int, head_dim as int, learned as int, sliding) == Some(
                k as int,
            ),
            None => frequency_of(i as int, head_dim as int, learned as int, sliding) is None,
        },
{
    if sliding && learned > head_dim {
        if i < learned - head_dim {
            Some(i + head_dim)
        } else {
            None
        }
    } else if i < learned {
        Some(i)
    } else {
        None
    }
}

/// How many weights of a norm are applied to every head.
pub fn head_norm_len(norm_len: usize, head_dim: usize) -> (r: usize)
    ensures
        r == (if norm_len >= head_dim {
            head_dim
        } else {
            norm_len
        }),
        r == applied_weights(norm_len as int, head_dim as int),
{
    if norm_len >= head_dim {
        head_dim
    } else {
        norm_len
    }
}

/// How many of the best tokens the next one is drawn from.
pub fn candidate_count(top_k: usize) -> (r: usize)
    ensures
        r == (if top_k > 64 {
            top_k
        } else {
            64
        }),
        r == candidates(top_k as int),
{
    if top_k > 64 {
        top_k
    } else {
        64
    }
}

// ── The forward pass ────────────────────────────────────────────────
/// The product of a matrix, row by row.
pub open spec fn by_rows(matrix: Slot, rows: u64, cols: u64, from: Buffer, to: Buffer) -> Step {
    Step::Multiply { matrix, how: Product::Rows, rows, cols, from, to }
}

/// The product of a matrix, column by column.
pub open spec fn by_columns(matrix: Slot, rows: u64, cols: u64, from: Buffer, to: Buffer) -> Step {
    Step::Multiply { matrix, how: Product::Columns, rows, cols, from, to }
}

/// The width of a head in a layer.
pub open spec fn head_dim_in(c: GemmaConfig, layer: u64) -> u64 {
    if slides(c.swa_pattern, layer as int) {
        c.head_dim_swa
    } else {
        c.head_dim
    }
}

/// The steps of attention: over the stored positions that the layer may see.
pub open spec fn attention_steps(c: GemmaConfig, i: u64) -> Seq<Step> {
    let sliding = slides(c.swa_pattern, i as int);
    let hd = head_dim_in(c, i);
    let q_len = (c.n_heads * hd) as u64;
    let kv_len = (c.n_kv_heads * hd) as u64;
    seq![
        Step::Layer(i),
        Step::Copy { from: Buffer::State, to: Buffer::Input },
        Step::Norm { buffer: Buffer::Input, norm: NormSlot::Attention },
        by_rows(Slot::Query, q_len, c.dim, Buffer::Input, Buffer::Query),
        by_rows(Slot::Key, kv_len, c.dim, Buffer::Input, Buffer::Key),
        by_rows(Slot::Value, kv_len, c.dim, Buffer::Input, Buffer::Value),
        Step::HeadNorm {
            buffer: Buffer::Query,
            norm: NormSlot::Query,
            heads: c.n_heads,
            head_dim: hd,
        },
        Step::HeadNorm {
            buffer: Buffer::Key,
            norm: NormSlot::Key,
            heads: c.n_kv_heads,
            head_dim: hd,
        },
        Step::RotateLearned { buffer: Buffer::Query, heads: c.n_heads, head_dim: hd, sliding },
        Step::RotateLearned { buffer: Buffer::Key, heads: c.n_kv_heads, head_dim: hd, sliding },
        Step::Widen {
            from: Buffer::Key,
            to: Buffer::WideKey,
            heads: c.n_kv_heads,
            head_dim: hd,
            full: c.head_dim,
        },
        Step::Widen {
            from: Buffer::Value,
            to: Buffer::WideValue,
            heads: c.n_kv_heads,
            head_dim: hd,
            full: c.head_dim,
        },
        Step::Store { key: Buffer::WideKey, value: Buffer::WideValue },
        Step::Score {
            heads: c.n_heads,
            kv_heads: c.n_kv_heads,
            head_dim: hd,
            full: c.head_dim,
        },
        Step::Mask { heads: c.n_heads, sliding, window: c.sliding_window },
        Step::Softmax { heads: c.n_heads },
        Step::Mix { heads: c.n_heads, kv_heads: c.n_kv_heads, head_dim: hd, full: c.head_dim },
        by_columns(Slot::AttentionOutput, c.dim, q_len, Buffer::Mixed, Buffer::Projected),
        Step::Norm { buffer: Buffer::Projected, norm: NormSlot::PostAttention },
        Step::LayerScale { buffer: Buffer::Projected },
        Step::Add { to: Buffer::State, from: Buffer::Projected },
    ]
}

/// The steps of an expert.
pub open spec fn expert_steps(c: GemmaConfig, expert: u8) -> Seq<Step> {
    seq![
        by_rows(Slot::ExpertGate(expert), c.hidden_dim, c.dim, Buffer::Input, Buffer::Gate),
        by_rows(Slot::ExpertUp(expert), c.hidden_dim, c.dim, Buffer::Input, Buffer::Up),
        Step::Activate { buffer: Buffer::Gate },
        Step::Times { to: Buffer::Gate, by: Buffer::Up },
        by_columns(Slot::ExpertDown(expert), c.dim, c.hidden_dim, Buffer::Gate, Buffer::Expert),
        Step::AddRouted { to: Buffer::Down, from: Buffer::Expert, route: expert },
    ]
}

/// The steps of the experts that a layer has. There is no second expert without
/// a first.
pub open spec fn experts_steps(c: GemmaConfig, l: GemmaLayerModel) -> Seq<Step> {
    if !l.has_experts {
        Seq::empty()
    } else {
        seq![Step::IfRouted] + expert_steps(c, 1) + (if l.expert_gate_2.values.count > 0 {
            expert_steps(c, 2)
        } else {
            Seq::empty()
        }) + seq![Step::EndRouted]
    }
}

/// The steps before the experts: the router, and the dense feed-forward step.
pub open spec fn dense_steps(c: GemmaConfig) -> Seq<Step> {
    seq![
        Step::Copy { from: Buffer::State, to: Buffer::Input },
        Step::Norm { buffer: Buffer::Input, norm: NormSlot::FeedForward },
        by_rows(Slot::Router, c.per_layer_dim, c.dim, Buffer::Input, Buffer::Router),
        Step::Route,
        by_rows(Slot::Gate, c.hidden_dim, c.dim, Buffer::Input, Buffer::Gate),
        by_rows(Slot::Up, c.hidden_dim, c.dim, Buffer::Input, Buffer::Up),
        Step::Activate { buffer: Buffer::Gate },
        Step::Times { to: Buffer::Gate, by: Buffer::Up },
        by_columns(Slot::Down, c.dim, c.hidden_dim, Buffer::Gate, Buffer::Down),
    ]
}

/// The steps behind the experts.
pub open spec fn closing_steps(c: GemmaConfig) -> Seq<Step> {
    seq![
        by_columns(Slot::RouterOutput, c.dim, c.per_layer_dim, Buffer::Router, Buffer::Projected),
        Step::Norm { buffer: Buffer::Down, norm: NormSlot::PostFeedForward },
        Step::LayerScale { buffer: Buffer::Down },
        Step::Add { to: Buffer::State, from: Buffer::Down },
        Step::Copy { from: Buffer::State, to: Buffer::Input },
        Step::Norm { buffer: Buffer::Input, norm: NormSlot::Post },
        Step::Add { to: Buffer::State, from: Buffer::Input },
    ]
}

/// The steps of a layer.
pub open spec fn gemma_layer_steps(c: GemmaConfig, l: GemmaLayerModel, i: u64) -> Seq<Step> {
    attention_steps(c, i) + dense_steps(c) + experts_steps(c, l) + closing_steps(c)
}

/// The steps of the first `k` layers.
pub open spec fn gemma_layers_steps(c: GemmaConfig, ls: Seq<GemmaLayerModel>, k: int) -> Seq<Step>
    decreases k,
{
    if k <= 0 {
        Seq::empty()
    } else {
        gemma_layers_steps(c, ls, k - 1) + gemma_layer_steps(c, ls[k - 1], (k - 1) as u64)
    }
}

/// The steps of a forward pass of one token.
pub open spec fn gemma_steps(w: GemmaWeightsModel) -> Seq<Step> {
    gemma_layers_steps(w.config, w.layers, w.config.n_layers as int) + seq![
        Step::Advance,
        Step::Norm { buffer: Buffer::State, norm: NormSlot::Last },
    ]
}

/// The dimensions of a forward pass can be written down, heads fit into those
/// that are stored, the router has a route, and there are weights for every
/// layer.
pub open spec fn gemma_passable(w: GemmaWeightsModel) -> bool {
    let c = w.config;
    &&& c.head_dim_swa <= c.head_dim
    &&& c.n_heads * c.head_dim <= u64::MAX
    &&& c.n_kv_heads * c.head_dim <= u64::MAX
    &&& c.per_layer_dim > 0
    &&& w.layers.len() >= c.n_layers
}

fn rows_step(matrix: Slot, rows: u64, cols: u64, from: Buffer, to: Buffer) -> (r: Step)
    ensures
        r == by_rows(matrix, rows, cols, from, to),
{
    Step::Multiply { matrix, how: Product::Rows, rows, cols, from, to }
}

fn columns_step(matrix: Slot, rows: u64, cols: u64, from: Buffer, to: Buffer) -> (r: Step)
    ensures
        r == by_columns(matrix, rows, cols, from, to),
{
    Step::Multiply { matrix, how: Product::Columns, rows, cols, from, to }
}

fn push_attention(out: &mut Vec<Step>, c: &Gemma4Config, i: u64)
    requires
        i <= usize::MAX,
        c.head_dim_swa <= c.head_dim,
        c.n_heads * c.head_dim <= u64::MAX,
        c.n_kv_heads * c.head_dim <= u64::MAX,
    ensures
        final(out)@ == old(out)@ + attention_steps(c@, i),
{
    let sliding = c.is_swa_layer(i as usize);
    let hd = if sliding {
        c.head_dim_swa
    } else {
        c.head_dim
    };
    proof {
        let (a, b, x, y) = (c.n_heads as int, c.n_kv_heads as int, hd as int, c.head_dim as int);
        assert(0 <= a * x <= a * y && 0 <= b * x <= b * y) by (nonlinear_arith)
            requires
                0 <= a,
                0 <= b,
                0 <= x <= y,
        ;
    }
    let q_len = c.n_heads * hd;
    let kv_len = c.n_kv_heads * hd;
    out.push(Step::Layer(i));
    out.push(Step::Copy { from: Buffer::State, to: Buffer::Input });
    out.push(Step::Norm { buffer: Buffer::Input, norm: NormSlot::Attention });
    out.push(rows_step(Slot::Query, q_len, c.dim, Buffer::Input, Buffer::Query));
    out.push(rows_step(Slot::Key, kv_len, c.dim, Buffer::Input, Buffer::Key));
    out.push(rows_step(Slot::Value, kv_len, c.dim, Buffer::Input, Buffer::Value));
    out.push(
        Step::HeadNorm {
            buffer: Buffer::Query,
            norm: NormSlot::Query,
            heads: c.n_heads,
            head_dim: hd,
        },
    );
    out.push(
        Step::HeadNorm {
            buffer: Buffer::Key,
            norm: NormSlot::Key,
            heads: c.n_kv_heads,
            head_dim: hd,
        },
    );
    out.push(
        Step::RotateLearned { buffer: Buffer::Query, heads: c.n_heads, head_dim: hd, sliding },
    );
    out.push(
        Step::RotateLearned { buffer: Buffer::Key, heads: c.n_kv_heads, head_dim: hd, sliding },
    );
    out.push(
        Step::Widen {
            from: Buffer::Key,
            to: Buffer::WideKey,
            heads: c.n_kv_heads,
            head_dim: hd,
            full: c.head_dim,
        },
    );
    out.push(
        Step::Widen {
            from: Buffer::Value,
            to: Buffer::WideValue,
            heads: c.n_kv_heads,
            head_dim: hd,
            full: c.head_dim,
        },
    );
    out.push(Step::Store { key: Buffer::WideKey, value: Buffer::WideValue });
    out.push(
        Step::Score {
            heads: c.n_heads,
            kv_heads: c.n_kv_heads,
            head_dim: hd,
            full: c.head_dim,
        },
    );
    out.push(Step::Mask { heads: c.n_heads, sliding, window: c.sliding_window });
    out.push(Step::Softmax { heads: c.n_heads });
    out.push(
        Step::Mix { heads: c.n_heads, kv_heads: c.n_kv_heads, head_dim: hd, full: c.head_dim },
    );
    out.push(
        columns_step(Slot::AttentionOutput, c.dim, q_len, Buffer::Mixed, Buffer::Projected),
    );
    out.push(Step::Norm { buffer: Buffer::Projected, norm: NormSlot::PostAttention });
    out.push(Step::LayerScale { buffer: Buffer::Projected });
    out.push(Step::Add { to: Buffer::State, from: Buffer::Projected });
    assert(out@ =~= old(out)@ + attention_steps(c@, i));
}

fn push_expert(out: &mut Vec<Step>, c: &Gemma4Config, expert: u8)
    ensures
        final(out)@ == old(out)@ + expert_steps(c@, expert),
{
    out.push(
        rows_step(Slot::ExpertGate(expert), c.hidden_dim, c.dim, Buffer::Input, Buffer::Gate),
    );
    out.push(rows_step(Slot::ExpertUp(expert), c.hidden_dim, c.dim, Buffer::Input, Buffer::Up));
    out.push(Step::Activate { buffer: Buffer::Gate });
    out.push(Step::Times { to: Buffer::Gate, by: Buffer::Up });
    out.push(
        columns_step(Slot::ExpertDown(expert), c.dim, c.hidden_dim, Buffer::Gate, Buffer::Expert),
    );
    out.push(Step::AddRouted { to: Buffer::Down, from: Buffer::Expert, route: expert });
    assert(out@ =~= old(out)@ + expert_steps(c@, expert));
}

fn push_feed_forward(out: &mut Vec<Step>, c: &Gemma4Config, l: &Gemma4LayerWeights)
    ensures
        final(out)@ == old(out)@ + dense_steps(c@) + experts_steps(c@, l@) + closing_steps(c@),
{
    let ghost start = out@;
    out.push(Step::Copy { from: Buffer::State, to: Buffer::Input });
    out.push(Step::Norm { buffer: Buffer::Input, norm: NormSlot::FeedForward });
    out.push(rows_step(Slot::Router, c.per_layer_dim, c.dim, Buffer::Input, Buffer::Router));
    out.push(Step::Route);
    out.push(rows_step(Slot::Gate, c.hidden_dim, c.dim, Buffer::Input, Buffer::Gate));
    out.push(rows_step(Slot::Up, c.hidden_dim, c.dim, Buffer::Input, Buffer::Up));
    out.push(Step::Activate { buffer: Buffer::Gate });
    out.push(Step::Times { to: Buffer::Gate, by: Buffer::Up });
    out.push(columns_step(Slot::Down, c.dim, c.hidden_dim, Buffer::Gate, Buffer::Down));
    let ghost dense = out@;
    assert(dense =~= start + dense_steps(c@));
    if l.has_experts {
        out.push(Step::IfRouted);
        push_expert(out, c, 1);
        if l.expert_gate_2.values.count > 0 {
            push_expert(out, c, 2);
        }
        out.push(Step::EndRouted);
    }
    let ghost routed = out@;
    assert(routed =~= dense + experts_steps(c@, l@));
    out.push(
        columns_step(
            Slot::RouterOutput,
            c.dim,
            c.per_layer_dim,
            Buffer::Router,
            Buffer::Projected,
        ),
    );
    out.push(Step::Norm { buffer: Buffer::Down, norm: NormSlot::PostFeedForward });
    out.push(Step::LayerScale { buffer: Buffer::Down });
    out.push(Step::Add { to: Buffer::State, from: Buffer::Down });
    out.push(Step::Copy { from: Buffer::State, to: Buffer::Input });
    out.push(Step::Norm { buffer: Buffer::Input, norm: NormSlot::Post });
    out.push(Step::Add { to: Buffer::State, from: Buffer::Input });
    assert(out@ =~= routed + closing_steps(c@));
}

/// The steps of a forward pass of one token through all layers, from its
/// embedding to the state that the tokens' scores are computed from.
pub fn gemma4_forward(w: &Gemma4Weights) -> (r: Vec<Step>)
    requires
        gemma_passable(w@),
    ensures
        r@ == gemma_steps(w@),
{
    let mut out: Vec<Step> = Vec::new();
    let ghost (c, ls) = (w@.config, w@.layers);
    let mut i: usize = 0;
    assert(out@ =~= gemma_layers_steps(c, ls, 0));
    assert(w.layers@.len() == w.layers.len());
    while (i as u64) < w.config.n_layers
        invariant
            i <= c.n_layers <= w.layers@.len(),
            w.layers@.len() == w.layers.len(),
            c == w.config@,
            ls == gemma_layer_models(w.layers@),
            c.head_dim_swa <= c.head_dim,
            c.n_heads * c.head_dim <= u64::MAX,
            c.n_kv_heads * c.head_dim <= u64::MAX,
            out@ == gemma_layers_steps(c, ls, i as int),
        decreases c.n_layers - i,
    {
        let ghost start = out@;
        push_attention(&mut out, &w.config, i as u64);
        push_feed_forward(&mut out, &w.config, &w.layers[i]);
        assert(out@ =~= start + gemma_layer_steps(c, ls[i as int], i as u64));
        i += 1;
    }
    out.push(Step::Advance);
    out.push(Step::Norm { buffer: Buffer::State, norm: NormSlot::Last });
    assert(out@ =~= gemma_steps(w@));
    out
}

// ── Laws ────────────────────────────────────────────────────────────
proof fn lemma_one_count(o: Seq<(Seq<char>, Json)>, key: Seq<char>, default: u64)
    ensures
        is_first_count(o, seq![key], default, count_or(o, key, default)),
{
    assert(seq![key][0] == key);
    if count_of(object_get(o, key)) is Some {
        assert(count_of(object_get(o, seq![key][0])) == Some(count_or(o, key, default)));
    }
}

proof fn lemma_one_number(o: Seq<(Seq<char>, Json)>, key: Seq<char>, bits: u64)
    ensures
        is_first_number(o, seq![key], bits, number_or(object_get(o, key), bits)),
{
    assert(seq![key][0] == key);
    if object_get(o, key) is Some {
        assert(object_get(o, seq![key][0]) is Some);
    }
}

/// A model's dimensions are what the metadata of its GGUF file state under these names,
/// and the usual ones where nothing is stated. A layer slides where the pattern says
/// so, and where it says no truth value; without a pattern all do.
pub proof fn lemma_gemma_config(hyperparameters: Seq<(Seq<char>, Json)>, c: GemmaConfig)
    requires
        gemma_config_of(hyperparameters) == Ok::<GemmaConfig, Seq<char>>(c),
    ensures
        entries_of(object_get(hyperparameters, "gguf.metadata"@)) matches Some(o) && ({
            &&& is_first_count(o, seq!["gemma4.block_count"@], 42, c.n_layers)
            &&& is_first_count(o, seq!["gemma4.embedding_length"@], 2560, c.dim)
            &&& is_first_count(o, seq!["gemma4.attention.head_count"@], 8, c.n_heads)
            &&& is_first_count(o, seq!["gemma4.attention.head_count_kv"@], 2, c.n_kv_heads)
            &&& is_first_count(o, seq!["gemma4.attention.key_length"@], 512, c.head_dim)
            &&& is_first_count(o, seq!["gemma4.attention.key_length_swa"@], 256, c.head_dim_swa)
            &&& is_first_count(o, seq!["gemma4.feed_forward_length"@], 10240, c.hidden_dim)
            &&& is_first_count(o, seq!["gemma4.vocab_size"@], 262144, c.vocab_size)
            &&& is_first_count(o, seq!["gemma4.context_length"@], 131072, c.ctx_len)
            &&& is_first_count(o, seq!["gemma4.rope.dimension_count"@], 512, c.rope_dim)
            &&& is_first_count(o, seq!["gemma4.rope.dimension_count_swa"@], 256, c.rope_dim_swa)
            &&& is_first_count(o, seq!["gemma4.attention.sliding_window"@], 512, c.sliding_window)
            &&& is_first_count(o, seq!["gemma4.attention.shared_kv_layers"@], 18, c.shared_kv_layers)
            &&& is_first_count(o, seq!["gemma4.embedding_length_per_layer_input"@], 256, c.per_layer_dim)
            &&& is_first_number(o, seq!["gemma4.attention.layer_norm_rms_epsilon"@], 0x3eb0_c6f7_a0b5_ed8d, c.norm_eps)
            &&& is_first_number(o, seq!["gemma4.rope.freq_base"@], 0x412e_8480_0000_0000, c.rope_base)
            &&& is_first_number(o, seq!["gemma4.rope.freq_base_swa"@], 0x40c3_8800_0000_0000, c.rope_base_swa)
            &&& is_first_number(o, seq!["gemma4.final_logit_softcapping"@], 0x403e_0000_0000_0000, c.final_logit_softcapping)
            &&& items_of(object_get(o, "gemma4.attention.sliding_window_pattern"@)) matches Some(
                a,
            ) ==> c.swa_pattern.len() == a.len() && forall|i: int|
                0 <= i < a.len() ==> #[trigger] c.swa_pattern[i] == !(a[i] == Json::Bool(false))
            &&& items_of(object_get(o, "gemma4.attention.sliding_window_pattern"@)) is None
                ==> c.swa_pattern.len() == 42 && forall|i: int|
                0 <= i < 42 ==> #[trigger] c.swa_pattern[i]
        }),
{
    let o = entries_of(object_get(hyperparameters, "gguf.metadata"@))->0;
    lemma_one_count(o, "gemma4.block_count"@, 42);
    lemma_one_count(o, "gemma4.embedding_length"@, 2560);
    lemma_one_count(o, "gemma4.attention.head_count"@, 8);
    lemma_one_count(o, "gemma4.attention.head_count_kv"@, 2);
    lemma_one_count(o, "gemma4.attention.key_length"@, 512);
    lemma_one_count(o, "gemma4.attention.key_length_swa"@, 256);
    lemma_one_count(o, "gemma4.feed_forward_length"@, 10240);
    lemma_one_count(o, "gemma4.vocab_size"@, 262144);
    lemma_one_count(o, "gemma4.context_length"@, 131072);
    lemma_one_count(o, "gemma4.rope.dimension_count"@, 512);
    lemma_one_count(o, "gemma4.rope.dimension_count_swa"@, 256);
    lemma_one_count(o, "gemma4.attention.sliding_window"@, 512);
    lemma_one_count(o, "gemma4.attention.shared_kv_layers"@, 18);
    lemma_one_count(o, "gemma4.embedding_length_per_layer_input"@, 256);
    lemma_one_number(o, "gemma4.attention.layer_norm_rms_epsilon"@, 0x3eb0_c6f7_a0b5_ed8d);
    lemma_one_number(o, "gemma4.rope.freq_base"@, 0x412e_8480_0000_0000);
    lemma_one_number(o, "gemma4.rope.freq_base_swa"@, 0x40c3_8800_0000_0000);
    lemma_one_number(o, "gemma4.final_logit_softcapping"@, 0x403e_0000_0000_0000);
}

/// The matrix is the tensor with the name: its bytes are the tensor's, its type is the
/// tensor's, and its numbers are those of the bytes, no more than `expected`, or than
/// the shape has. Without the tensor there are neither bytes nor numbers.
pub open spec fn is_tensor_matrix(
    d: Seq<u8>,
    x: Seq<Descriptor>,
    name: Seq<char>,
    expected: Option<int>,
    m: GemmaMatrixModel,
) -> bool {
    match lookup(x, name) {
        Err(_) => m.raw is None && m.values.count == 0,
        Ok(t) => {
            &&& m.raw is Some
            &&& m.dtype == t.dtype
            &&& whole_tensor(d, x, name) matches Ok(b) ==> m.raw == Some(b)
            &&& m.values == counted(
                m.raw->0,
                t.dtype,
                match expected {
                    Some(n) => n,
                    None => product(t.shape) as int,
                },
            )
        },
    }
}

/// The norm is the tensor with the name, of single precision, or a one for every
/// number.
pub open spec fn is_tensor_norm(
    d: Seq<u8>,
    x: Seq<Descriptor>,
    name: Seq<char>,
    m: GemmaNormModel,
) -> bool {
    match lookup(x, name) {
        Err(_) => m is Ones,
        Ok(t) => whole_tensor(d, x, name) matches Ok(b) ==> m == GemmaNormModel::Loaded(
            counted(b, DType::F32, product(t.shape) as int),
        ),
    }
}

/// The matrix of an expert is the tensor with the name where the layer has the
/// expert's gate, and absent where it has not.
pub open spec fn is_expert_matrix(
    d: Seq<u8>,
    x: Seq<Descriptor>,
    gate: Seq<char>,
    name: Seq<char>,
    n: int,
    m: GemmaMatrixModel,
) -> bool {
    if lookup(x, gate) is Ok {
        is_tensor_matrix(d, x, name, Some(n), m)
    } else {
        m.raw is None && m.values.count == 0
    }
}

/// Every weight of a layer is the tensor with its own name in the layer.
pub proof fn lemma_gemma_layer_weights(d: Seq<u8>, x: Seq<Descriptor>, c: GemmaConfig, layer: u64)
    ensures
        ({
            let l = gemma_layer_of(d, x, c, layer);
            let b = "blk."@ + decimal_text(layer as nat) + "."@;
            let n = c.hidden_dim * c.dim;
            &&& is_tensor_matrix(d, x, b + "attn_q.weight"@, None, l.attn_q)
            &&& is_tensor_matrix(d, x, b + "attn_k.weight"@, None, l.attn_k)
            &&& is_tensor_matrix(d, x, b + "attn_v.weight"@, None, l.attn_v)
            &&& is_tensor_matrix(d, x, b + "attn_output.weight"@, None, l.attn_o)
            &&& is_tensor_matrix(d, x, b + "ffn_gate.weight"@, None, l.ffn_gate)
            &&& is_tensor_matrix(d, x, b + "ffn_up.weight"@, None, l.ffn_up)
            &&& is_tensor_matrix(d, x, b + "ffn_down.weight"@, None, l.ffn_down)
            &&& is_tensor_matrix(d, x, b + "inp_gate.weight"@, None, l.inp_gate)
            &&& is_tensor_matrix(d, x, b + "proj.weight"@, None, l.proj)
            &&& is_tensor_norm(d, x, b + "attn_norm.weight"@, l.attn_norm)
            &&& is_tensor_norm(d, x, b + "attn_q_norm.weight"@, l.attn_q_norm)
            &&& is_tensor_norm(d, x, b + "attn_k_norm.weight"@, l.attn_k_norm)
            &&& is_tensor_norm(d, x, b + "ffn_norm.weight"@, l.ffn_norm)
            &&& is_tensor_norm(d, x, b + "post_attention_norm.weight"@, l.post_attention_norm)
            &&& is_tensor_norm(d, x, b + "post_ffw_norm.weight"@, l.post_ffw_norm)
            &&& is_tensor_norm(d, x, b + "post_norm.weight"@, l.post_norm)
            &&& is_expert_matrix(d, x, b + "ffn_gate_1.weight"@, b + "ffn_gate_1.weight"@, n, l.expert_gate)
            &&& is_expert_matrix(d, x, b + "ffn_gate_1.weight"@, b + "ffn_up_1.weight"@, n, l.expert_up)
            &&& is_expert_matrix(d, x, b + "ffn_gate_1.weight"@, b + "ffn_down_1.weight"@, n, l.expert_down)
            &&& is_expert_matrix(d, x, b + "ffn_gate_2.weight"@, b + "ffn_gate_2.weight"@, n, l.expert_gate_2)
            &&& is_expert_matrix(d, x, b + "ffn_gate_2.weight"@, b + "ffn_up_2.weight"@, n, l.expert_up_2)
            &&& is_expert_matrix(d, x, b + "ffn_gate_2.weight"@, b + "ffn_down_2.weight"@, n, l.expert_down_2)
            &&& l.has_experts <==> lookup(x, b + "ffn_gate_1.weight"@) is Ok
            &&& l.layer_output_scale == (match whole_tensor(
                d,
                x,
                b + "layer_output_scale.weight"@,
            ) {
                Ok(s) => if s.len() >= 4 {
                    le32(s, 0)
                } else {
                    0x3f80_0000
                },
                Err(_) => 0x3f80_0000,
            })
        }),
{
    reveal(gemma_layer_of);
}

/// The weights of a model that was loaded: the bytes of its embeddings as they are
/// stored, a last norm with numbers, a layer for each that is configured, and the
/// learned frequencies. The embeddings serve as the output projection where there is
/// none.
pub proof fn lemma_gemma_weights(
    d: Seq<u8>,
    x: Seq<Descriptor>,
    c: GemmaConfig,
    w: GemmaWeightsModel,
)
    requires
        gemma_weights_of(d, x, c) == Ok::<GemmaWeightsModel, Seq<char>>(w),
    ensures
        w.config == c,
        lookup(x, "token_embd.weight"@) matches Ok(t) && w.embeddings_dtype == t.dtype,
        whole_tensor(d, x, "token_embd.weight"@) matches Ok(b) ==> w.embeddings == b,
        w.output_norm.count > 0,
        w.output_norm == matrix_in(d, x, "output_norm.weight"@, None).values,
        w.rope_freqs == matrix_in(d, x, "rope_freqs.weight"@, None).values,
        w.layers.len() == c.n_layers,
        forall|i: int|
            0 <= i < w.layers.len() ==> #[trigger] w.layers[i] == gemma_layer_of(d, x, c, i as u64),
        w.shared_embd <==> lookup(x, "output.weight"@) is Err,
        w.output is Some <==> !w.shared_embd,
        w.output matches Some(m) ==> m == matrix_in(d, x, "output.weight"@, None).values,
{
}

/// Of the numbers of a row, so many are counted as there are, but no more than are
/// expected.
pub proof fn lemma_counted(d: Seq<u8>, dtype: DType, expected: int)
    requires
        0 <= expected,
    ensures
        counted(d, dtype, expected).numbers == numbers_of(d, dtype),
        counted(d, dtype, expected).count <= expected,
        counted(d, dtype, expected).count <= numbers_of(d, dtype).count(),
        counted(d, dtype, expected).count == expected || counted(d, dtype, expected).count
            == numbers_of(d, dtype).count(),
{
}

/// What attention does to the state `x`: it adds the scaled and normed projection of
/// what it gives. The query of the normed state is scored over the stored keys, and
/// the stored values that may be seen are mixed by the probabilities of the scores.
/// What is stored under the layer's number is, for the key, the normed and rotated
/// product of the key matrix and the normed state, for the value, that of the value
/// matrix, both widened to full heads. Heads of sliding layers have a width of their
/// own.
pub proof fn lemma_attention<V>(o: Operations<V>, c: GemmaConfig, i: u64, m: Machine<V>)
    requires
        !m.skipping,
        c.head_dim_swa <= c.head_dim,
        c.n_heads * c.head_dim <= u64::MAX,
        c.n_kv_heads * c.head_dim <= u64::MAX,
    ensures
        ({
            let r = run(o, attention_steps(c, i), m);
            let x = m.rows[Buffer::State];
            let sliding = if i < c.swa_pattern.len() {
                c.swa_pattern[i as int]
            } else {
                true
            };
            let hd = if sliding {
                c.head_dim_swa
            } else {
                c.head_dim
            };
            let q_len = (c.n_heads * hd) as u64;
            let kv_len = (c.n_kv_heads * hd) as u64;
            let heads = Heads {
                heads: c.n_heads,
                kv_heads: c.n_kv_heads,
                head_dim: hd,
                full: c.head_dim,
            };
            let n = (o.norm)(i, NormSlot::Attention, x);
            let query = (o.rotate_learned)(
                c.n_heads,
                hd,
                sliding,
                (o.head_norm)(
                    i,
                    NormSlot::Query,
                    c.n_heads,
                    hd,
                    (o.multiply)(i, Slot::Query, Product::Rows, q_len, c.dim, n),
                ),
            );
            let key = (o.widen)(
                c.n_kv_heads,
                hd,
                c.head_dim,
                (o.rotate_learned)(
                    c.n_kv_heads,
                    hd,
                    sliding,
                    (o.head_norm)(
                        i,
                        NormSlot::Key,
                        c.n_kv_heads,
                        hd,
                        (o.multiply)(i, Slot::Key, Product::Rows, kv_len, c.dim, n),
                    ),
                ),
            );
            let value = (o.widen)(
                c.n_kv_heads,
                hd,
                c.head_dim,
                (o.multiply)(i, Slot::Value, Product::Rows, kv_len, c.dim, n),
            );
            let seen = (o.softmax)(
                c.n_heads,
                (o.mask)(
                    c.n_heads,
                    sliding,
                    c.sliding_window,
                    (o.score)(i, heads, query, key),
                ),
            );
            let given = (o.multiply)(
                i,
                Slot::AttentionOutput,
                Product::Columns,
                c.dim,
                q_len,
                (o.mix)(i, heads, seen, value),
            );
            let a = (o.layer_scale)(i, (o.norm)(i, NormSlot::PostAttention, given));
            &&& r.rows[Buffer::State] == (o.sum)(x, a)
            &&& r.stored == m.stored.insert(i, (key, value))
            &&& r.layer == i
            &&& r.positions == m.positions
            &&& !r.skipping
        }),
{
    let s = attention_steps(c, i);
    assert(s.len() == 21);
    assert(after_steps(o, s, 0, m) == m);
    let m1 = after_step(o, s[0], m);
    assert(after_steps(o, s, 1, m) == m1);
    let m2 = after_step(o, s[1], m1);
    assert(after_steps(o, s, 2, m) == m2);
    let m3 = after_step(o, s[2], m2);
    assert(after_steps(o, s, 3, m) == m3);
    let m4 = after_step(o, s[3], m3);
    assert(after_steps(o, s, 4, m) == m4);
    let m5 = after_step(o, s[4], m4);
    assert(after_steps(o, s, 5, m) == m5);
    let m6 = after_step(o, s[5], m5);
    assert(after_steps(o, s, 6, m) == m6);
    let m7 = after_step(o, s[6], m6);
    assert(after_steps(o, s, 7, m) == m7);
    let m8 = after_step(o, s[7], m7);
    assert(after_steps(o, s, 8, m) == m8);
    let m9 = after_step(o, s[8], m8);
    assert(after_steps(o, s, 9, m) == m9);
    let m10 = after_step(o, s[9], m9);
    assert(after_steps(o, s, 10, m) == m10);
    let m11 = after_step(o, s[10], m10);
    assert(after_steps(o, s, 11, m) == m11);
    let m12 = after_step(o, s[11], m11);
    assert(after_steps(o, s, 12, m) == m12);
    let m13 = after_step(o, s[12], m12);
    assert(after_steps(o, s, 13, m) == m13);
    let m14 = after_step(o, s[13], m13);
    assert(after_steps(o, s, 14, m) == m14);
    let m15 = after_step(o, s[14], m14);
    assert(after_steps(o, s, 15, m) == m15);
    let m16 = after_step(o, s[15], m15);
    assert(after_steps(o, s, 16, m) == m16);
    let m17 = after_step(o, s[16], m16);
    assert(after_steps(o, s, 17, m) == m17);
    let m18 = after_step(o, s[17], m17);
    assert(after_steps(o, s, 18, m) == m18);
    let m19 = after_step(o, s[18], m18);
    assert(after_steps(o, s, 19, m) == m19);
    let m20 = after_step(o, s[19], m19);
    assert(after_steps(o, s, 20, m) == m20);
    let m21 = after_step(o, s[20], m20);
    assert(after_steps(o, s, 21, m) == m21);
}

/// Two models that differ in the value matrix of a layer alone store different
/// values: those that the one and the other matrix give.
pub proof fn lemma_value_matrix_is_stored<V>(
    o: Operations<V>,
    p: Operations<V>,
    c: GemmaConfig,
    i: u64,
    m: Machine<V>,
)
    requires
        !m.skipping,
        c.head_dim_swa <= c.head_dim,
        c.n_heads * c.head_dim <= u64::MAX,
        c.n_kv_heads * c.head_dim <= u64::MAX,
        p == (Operations { multiply: p.multiply, ..o }),
        forall|slot: Slot, how: Product, rows: u64, cols: u64, x: V|
            slot != Slot::Value ==> #[trigger] (o.multiply)(i, slot, how, rows, cols, x) == (
            p.multiply)(i, slot, how, rows, cols, x),
        forall|how: Product, rows: u64, cols: u64, x: V|
            #[trigger] (o.multiply)(i, Slot::Value, how, rows, cols, x) != (p.multiply)(
                i,
                Slot::Value,
                how,
                rows,
                cols,
                x,
            ),
        forall|heads: u64, from: u64, to: u64, x: V, y: V|
            x != y ==> #[trigger] (o.widen)(heads, from, to, x) != #[trigger] (o.widen)(
                heads,
                from,
                to,
                y,
            ),
    ensures
        run(o, attention_steps(c, i), m).stored[i].0 == run(p, attention_steps(c, i), m).stored[i].0,
        run(o, attention_steps(c, i), m).stored[i].1 != run(p, attention_steps(c, i), m).stored[i].1,
{
    lemma_attention(o, c, i, m);
    lemma_attention(p, c, i, m);
}

/// What the feed-forward step does to the state `y`: it adds the scaled and normed
/// sum of the dense step and of what the experts give, and then the norm of the
/// outcome. Experts work only in layers that have them and where the best route is
/// strong enough, each on the same normed state and by its own route.
pub proof fn lemma_feed_forward<V>(
    o: Operations<V>,
    c: GemmaConfig,
    l: GemmaLayerModel,
    m: Machine<V>,
)
    requires
        !m.skipping,
    ensures
        ({
            let i = m.layer;
            let r = run(o, dense_steps(c) + experts_steps(c, l) + closing_steps(c), m);
            let y = m.rows[Buffer::State];
            let f = (o.norm)(i, NormSlot::FeedForward, y);
            let up_down = |gate: Slot, up: Slot, down: Slot|
                (o.multiply)(
                    i,
                    down,
                    Product::Columns,
                    c.dim,
                    c.hidden_dim,
                    (o.times)(
                        (o.activate)(
                            (o.multiply)(i, gate, Product::Rows, c.hidden_dim, c.dim, f),
                        ),
                        (o.multiply)(i, up, Product::Rows, c.hidden_dim, c.dim, f),
                    ),
                );
            let router = (o.route)(
                (o.multiply)(i, Slot::Router, Product::Rows, c.per_layer_dim, c.dim, f),
            );
            let dense = up_down(Slot::Gate, Slot::Up, Slot::Down);
            let first = (o.add_routed)(
                1,
                router,
                dense,
                up_down(Slot::ExpertGate(1), Slot::ExpertUp(1), Slot::ExpertDown(1)),
            );
            let second = (o.add_routed)(
                2,
                router,
                first,
                up_down(Slot::ExpertGate(2), Slot::ExpertUp(2), Slot::ExpertDown(2)),
            );
            let given = if !l.has_experts || !(o.is_strong)(router) {
                dense
            } else if l.expert_gate_2.values.count > 0 {
                second
            } else {
                first
            };
            let z = (o.sum)(
                y,
                (o.layer_scale)(i, (o.norm)(i, NormSlot::PostFeedForward, given)),
            );
            &&& r.rows[Buffer::State] == (o.sum)(z, (o.norm)(i, NormSlot::Post, z))
            &&& r.stored == m.stored
            &&& r.layer == i
            &&& r.positions == m.positions
            &&& !r.skipping
        }),
{
    let a = dense_steps(c);
    let e = experts_steps(c, l);
    let z = closing_steps(c);
    lemma_run_on(o, a + e, z, m);
    lemma_run_on(o, a, e, m);
    let d = run(o, a, m);
    let x = run(o, e, d);
    lemma_dense(o, c, m);
    lemma_experts(o, c, l, d);
    assert(z.len() == 7);
    assert(after_steps(o, z, 0, x) == x);
    let x1 = after_step(o, z[0], x);
    assert(after_steps(o, z, 1, x) == x1);
    let x2 = after_step(o, z[1], x1);
    assert(after_steps(o, z, 2, x) == x2);
    let x3 = after_step(o, z[2], x2);
    assert(after_steps(o, z, 3, x) == x3);
    let x4 = after_step(o, z[3], x3);
    assert(after_steps(o, z, 4, x) == x4);
    let x5 = after_step(o, z[4], x4);
    assert(after_steps(o, z, 5, x) == x5);
    let x6 = after_step(o, z[5], x5);
    assert(after_steps(o, z, 6, x) == x6);
    let x7 = after_step(o, z[6], x6);
    assert(after_steps(o, z, 7, x) == x7);
}

proof fn lemma_dense<V>(o: Operations<V>, c: GemmaConfig, m: Machine<V>)
    requires
        !m.skipping,
    ensures
        ({
            let i = m.layer;
            let r = run(o, dense_steps(c), m);
            let f = (o.norm)(i, NormSlot::FeedForward, m.rows[Buffer::State]);
            let gate = (o.multiply)(i, Slot::Gate, Product::Rows, c.hidden_dim, c.dim, f);
            let up = (o.multiply)(i, Slot::Up, Product::Rows, c.hidden_dim, c.dim, f);
            &&& r.rows[Buffer::State] == m.rows[Buffer::State]
            &&& r.rows[Buffer::Input] == f
            &&& r.rows[Buffer::Router] == (o.route)(
                (o.multiply)(i, Slot::Router, Product::Rows, c.per_layer_dim, c.dim, f),
            )
            &&& r.rows[Buffer::Down] == (o.multiply)(
                i,
                Slot::Down,
                Product::Columns,
                c.dim,
                c.hidden_dim,
                (o.times)((o.activate)(gate), up),
            )
            &&& r.stored == m.stored
            &&& r.layer == i
            &&& r.positions == m.positions
            &&& !r.skipping
        }),
{
    let s = dense_steps(c);
    assert(s.len() == 9);
    assert(after_steps(o, s, 0, m) == m);
    let m1 = after_step(o, s[0], m);
    assert(after_steps(o, s, 1, m) == m1);
    let m2 = after_step(o, s[1], m1);
    assert(after_steps(o, s, 2, m) == m2);
    let m3 = after_step(o, s[2], m2);
    assert(after_steps(o, s, 3, m) == m3);
    let m4 = after_step(o, s[3], m3);
    assert(after_steps(o, s, 4, m) == m4);
    let m5 = after_step(o, s[4], m4);
    assert(after_steps(o, s, 5, m) == m5);
    let m6 = after_step(o, s[5], m5);
    assert(after_steps(o, s, 6, m) == m6);
    let m7 = after_step(o, s[6], m6);
    assert(after_steps(o, s, 7, m) == m7);
    let m8 = after_step(o, s[7], m7);
    assert(after_steps(o, s, 8, m) == m8);
    let m9 = after_step(o, s[8], m8);
    assert(after_steps(o, s, 9, m) == m9);
}

proof fn lemma_expert<V>(o: Operations<V>, c: GemmaConfig, expert: u8, m: Machine<V>)
    ensures
        m.skipping ==> run(o, expert_steps(c, expert), m) == m,
        !m.skipping ==> ({
            let i = m.layer;
            let r = run(o, expert_steps(c, expert), m);
            let f = m.rows[Buffer::Input];
            let gate = (o.multiply)(
                i,
                Slot::ExpertGate(expert),
                Product::Rows,
                c.hidden_dim,
                c.dim,
                f,
            );
            let up = (o.multiply)(i, Slot::ExpertUp(expert), Product::Rows, c.hidden_dim, c.dim, f);
            &&& r.rows[Buffer::State] == m.rows[Buffer::State]
            &&& r.rows[Buffer::Input] == f
            &&& r.rows[Buffer::Router] == m.rows[Buffer::Router]
            &&& r.rows[Buffer::Down] == (o.add_routed)(
                expert,
                m.rows[Buffer::Router],
                m.rows[Buffer::Down],
                (o.multiply)(
                    i,
                    Slot::ExpertDown(expert),
                    Product::Columns,
                    c.dim,
                    c.hidden_dim,
                    (o.times)((o.activate)(gate), up),
                ),
            )
            &&& r.stored == m.stored
            &&& r.layer == i
            &&& r.positions == m.positions
            &&& !r.skipping
        }),
{
    let s = expert_steps(c, expert);
    assert(s.len() == 6);
    assert(after_steps(o, s, 0, m) == m);
    let m1 = after_step(o, s[0], m);
    assert(after_steps(o, s, 1, m) == m1);
    let m2 = after_step(o, s[1], m1);
    assert(after_steps(o, s, 2, m) == m2);
    let m3 = after_step(o, s[2], m2);
    assert(after_steps(o, s, 3, m) == m3);
    let m4 = after_step(o, s[3], m3);
    assert(after_steps(o, s, 4, m) == m4);
    let m5 = after_step(o, s[4], m4);
    assert(after_steps(o, s, 5, m) == m5);
    let m6 = after_step(o, s[5], m5);
    assert(after_steps(o, s, 6, m) == m6);
}

proof fn lemma_experts<V>(o: Operations<V>, c: GemmaConfig, l: GemmaLayerModel, m: Machine<V>)
    requires
        !m.skipping,
    ensures
        ({
            let i = m.layer;
            let r = run(o, experts_steps(c, l), m);
            let f = m.rows[Buffer::Input];
            let router = m.rows[Buffer::Router];
            let up_down = |gate: Slot, up: Slot, down: Slot|
                (o.multiply)(
                    i,
                    down,
                    Product::Columns,
                    c.dim,
                    c.hidden_dim,
                    (o.times)(
                        (o.activate)(
                            (o.multiply)(i, gate, Product::Rows, c.hidden_dim, c.dim, f),
                        ),
                        (o.multiply)(i, up, Product::Rows, c.hidden_dim, c.dim, f),
                    ),
                );
            let dense = m.rows[Buffer::Down];
            let first = (o.add_routed)(
                1,
                router,
                dense,
                up_down(Slot::ExpertGate(1), Slot::ExpertUp(1), Slot::ExpertDown(1)),
            );
            let second = (o.add_routed)(
                2,
                router,
                first,
                up_down(Slot::ExpertGate(2), Slot::ExpertUp(2), Slot::ExpertDown(2)),
            );
            &&& r.rows[Buffer::State] == m.rows[Buffer::State]
            &&& r.rows[Buffer::Down] == (if !l.has_experts || !(o.is_strong)(router) {
                dense
            } else if l.expert_gate_2.values.count > 0 {
                second
            } else {
                first
            })
            &&& r.stored == m.stored
            &&& r.layer == i
            &&& r.positions == m.positions
            &&& !r.skipping
        }),
{
    if l.has_experts {
        let begin = seq![Step::IfRouted];
        let one = expert_steps(c, 1);
        let two = if l.expert_gate_2.values.count > 0 {
            expert_steps(c, 2)
        } else {
            Seq::empty()
        };
        let end = seq![Step::EndRouted];
        lemma_run_on(o, begin + one + two, end, m);
        lemma_run_on(o, begin + one, two, m);
        lemma_run_on(o, begin, one, m);
        assert(after_steps(o, begin, 0, m) == m);
        let m1 = run(o, begin, m);
        assert(m1 == after_step(o, begin[0], m));
        lemma_expert(o, c, 1, m1);
        let m2 = run(o, one, m1);
        lemma_expert(o, c, 2, m2);
        let m3 = run(o, two, m2);
        assert(after_steps(o, end, 0, m3) == m3);
        assert(run(o, end, m3) == after_step(o, end[0], m3));
    }
}

/// A route is strong enough above one hundredth, and a layer without a scale is scaled
/// by one.
pub proof fn lemma_gemma_bounds()
    ensures
        is_nearest(LEAST_ROUTE, 1, 100, 30),
        is_nearest(ONE, 1, 1, 23),
{
    lemma2_to64();
}

/// The second route is the last of the most probable ones but the first, where every
/// probability is a number and there is another.
pub proof fn lemma_second_route(s: Seq<u32>, best: int)
    requires
        forall|i: int| 0 <= i < s.len() ==> !is_nan(#[trigger] s[i]),
        0 <= best < s.len(),
        s.len() > 1,
    ensures
        best_route(s, best, 0, None) matches Some(r) && 0 <= r < s.len() && r != best && (forall|
            j: int,
        |
            0 <= j < s.len() && j != best ==> !less(s[r], #[trigger] s[j])) && (forall|j: int|
            r < j < s.len() && j != best ==> less(#[trigger] s[j], s[r])),
{
    lemma_second_from(s, best, 0, None);
}

proof fn lemma_second_from(s: Seq<u32>, best: int, k: int, found: Option<int>)
    requires
        0 <= k <= s.len(),
        0 <= best < s.len(),
        forall|i: int| 0 <= i < s.len() ==> !is_nan(#[trigger] s[i]),
        match found {
            Some(r) => 0 <= r < k && r != best && (forall|j: int|
                0 <= j < k && j != best ==> !less(s[r], #[trigger] s[j])) && (forall|j: int|
                r < j < k && j != best ==> less(#[trigger] s[j], s[r])),
            None => k == 0 || (k == 1 && best == 0),
        },
    ensures
        s.len() > 1 ==> (best_route(s, best, k, found) matches Some(r) && 0 <= r < s.len() && r
            != best && (forall|j: int|
            0 <= j < s.len() && j != best ==> !less(s[r], #[trigger] s[j])) && (forall|j: int|
            r < j < s.len() && j != best ==> less(#[trigger] s[j], s[r]))),
    decreases s.len() - k,
{
    if k < s.len() {
        if k == best {
            lemma_second_from(s, best, k + 1, found);
        } else {
            lemma_second_from(s, best, k + 1, Some(better_route(s, found, k)));
        }
    }
}

/// A layer is attention and then the feed-forward step, on what attention left.
pub proof fn lemma_gemma_layer<V>(
    o: Operations<V>,
    c: GemmaConfig,
    l: GemmaLayerModel,
    i: u64,
    m: Machine<V>,
)
    ensures
        run(o, gemma_layer_steps(c, l, i), m) == run(
            o,
            dense_steps(c) + experts_steps(c, l) + closing_steps(c),
            run(o, attention_steps(c, i), m),
        ),
{
    let rest = dense_steps(c) + experts_steps(c, l) + closing_steps(c);
    lemma_run_on(o, attention_steps(c, i), rest, m);
    assert(gemma_layer_steps(c, l, i) =~= attention_steps(c, i) + rest);
}

/// A layer multiplies each of its matrices once: those of attention and of the dense
/// step, the router's two, and those of the experts that it has.
pub proof fn lemma_gemma_layer_uses(c: GemmaConfig, l: GemmaLayerModel, i: u64, slot: Slot)
    ensures
        uses(gemma_layer_steps(c, l, i), slot) == (match slot {
            Slot::Query => 1nat,
            Slot::Key => 1,
            Slot::Value => 1,
            Slot::AttentionOutput => 1,
            Slot::Gate => 1,
            Slot::Up => 1,
            Slot::Down => 1,
            Slot::Router => 1,
            Slot::RouterOutput => 1,
            Slot::ExpertGate(e) => expert_uses(l, e),
            Slot::ExpertUp(e) => expert_uses(l, e),
            Slot::ExpertDown(e) => expert_uses(l, e),
            _ => 0,
        }),
{
    let (a, d, e, z) = (
        attention_steps(c, i),
        dense_steps(c),
        experts_steps(c, l),
        closing_steps(c),
    );
    lemma_uses_on(a + d + e, z, slot);
    lemma_uses_on(a + d, e, slot);
    lemma_uses_on(a, d, slot);
    assert(a.take(0) =~= Seq::empty());
    lemma_uses_step(a, slot, 0);
    lemma_uses_step(a, slot, 1);
    lemma_uses_step(a, slot, 2);
    lemma_uses_step(a, slot, 3);
    lemma_uses_step(a, slot, 4);
    lemma_uses_step(a, slot, 5);
    lemma_uses_step(a, slot, 6);
    lemma_uses_step(a, slot, 7);
    lemma_uses_step(a, slot, 8);
    lemma_uses_step(a, slot, 9);
    lemma_uses_step(a, slot, 10);
    lemma_uses_step(a, slot, 11);
    lemma_uses_step(a, slot, 12);
    lemma_uses_step(a, slot, 13);
    lemma_uses_step(a, slot, 14);
    lemma_uses_step(a, slot, 15);
    lemma_uses_step(a, slot, 16);
    lemma_uses_step(a, slot, 17);
    lemma_uses_step(a, slot, 18);
    lemma_uses_step(a, slot, 19);
    lemma_uses_step(a, slot, 20);
    assert(a.take(21) =~= a);
    assert(d.take(0) =~= Seq::empty());
    lemma_uses_step(d, slot, 0);
    lemma_uses_step(d, slot, 1);
    lemma_uses_step(d, slot, 2);
    lemma_uses_step(d, slot, 3);
    lemma_uses_step(d, slot, 4);
    lemma_uses_step(d, slot, 5);
    lemma_uses_step(d, slot, 6);
    lemma_uses_step(d, slot, 7);
    lemma_uses_step(d, slot, 8);
    assert(d.take(9) =~= d);
    assert(z.take(0) =~= Seq::empty());
    lemma_uses_step(z, slot, 0);
    lemma_uses_step(z, slot, 1);
    lemma_uses_step(z, slot, 2);
    lemma_uses_step(z, slot, 3);
    lemma_uses_step(z, slot, 4);
    lemma_uses_step(z, slot, 5);
    lemma_uses_step(z, slot, 6);
    assert(z.take(7) =~= z);
    if l.has_experts {
        let begin = seq![Step::IfRouted];
        let one = expert_steps(c, 1);
        let two = if l.expert_gate_2.values.count > 0 {
            expert_steps(c, 2)
        } else {
            Seq::empty()
        };
        let end = seq![Step::EndRouted];
        lemma_uses_on(begin + one + two, end, slot);
        lemma_uses_on(begin + one, two, slot);
        lemma_uses_on(begin, one, slot);
        assert(begin.drop_last() =~= Seq::empty());
        assert(end.drop_last() =~= Seq::empty());
        assert(uses(Seq::empty(), slot) == 0);
        lemma_expert_uses(c, 1, slot);
        lemma_expert_uses(c, 2, slot);
    }
}

/// How often a layer uses a matrix of an expert: once where it has the expert.
pub open spec fn expert_uses(l: GemmaLayerModel, expert: u8) -> nat {
    if l.has_experts && (expert == 1 || (expert == 2 && l.expert_gate_2.values.count > 0)) {
        1
    } else {
        0
    }
}

proof fn lemma_expert_uses(c: GemmaConfig, expert: u8, slot: Slot)
    ensures
        uses(expert_steps(c, expert), slot) == (if slot == Slot::ExpertGate(expert) || slot
            == Slot::ExpertUp(expert) || slot == Slot::ExpertDown(expert) {
            1nat
        } else {
            0
        }),
{
    let s = expert_steps(c, expert);
    assert(s.take(0) =~= Seq::empty());
    lemma_uses_step(s, slot, 0);
    lemma_uses_step(s, slot, 1);
    lemma_uses_step(s, slot, 2);
    lemma_uses_step(s, slot, 3);
    lemma_uses_step(s, slot, 4);
    lemma_uses_step(s, slot, 5);
    assert(s.take(6) =~= s);
}

/// Layers work one behind the other, each with its own weights, on what the one
/// before it left.
pub proof fn lemma_gemma_layers<V>(
    o: Operations<V>,
    c: GemmaConfig,
    ls: Seq<GemmaLayerModel>,
    k: int,
    m: Machine<V>,
)
    requires
        0 <= k <= u64::MAX,
    ensures
        run(o, gemma_layers_steps(c, ls, 0), m) == m,
        run(o, gemma_layers_steps(c, ls, k + 1), m) == run(
            o,
            gemma_layer_steps(c, ls[k], k as u64),
            run(o, gemma_layers_steps(c, ls, k), m),
        ),
{
    lemma_run_on(o, gemma_layers_steps(c, ls, k), gemma_layer_steps(c, ls[k], k as u64), m);
}

/// Layers count no position, and every one of them stores its key and value.
pub proof fn lemma_gemma_layers_keep<V>(
    o: Operations<V>,
    c: GemmaConfig,
    ls: Seq<GemmaLayerModel>,
    k: int,
    m: Machine<V>,
)
    requires
        !m.skipping,
        0 <= k <= u64::MAX,
        c.head_dim_swa <= c.head_dim,
        c.n_heads * c.head_dim <= u64::MAX,
        c.n_kv_heads * c.head_dim <= u64::MAX,
    ensures
        ({
            let r = run(o, gemma_layers_steps(c, ls, k), m);
            &&& !r.skipping
            &&& r.positions == m.positions
            &&& forall|i: u64| i < k ==> #[trigger] r.stored.dom().contains(i)
            &&& forall|i: u64| i >= k ==> #[trigger] r.stored[i] == m.stored[i]
        }),
    decreases k,
{
    if k > 0 {
        let before = run(o, gemma_layers_steps(c, ls, k - 1), m);
        let i = (k - 1) as u64;
        lemma_gemma_layers_keep(o, c, ls, k - 1, m);
        lemma_gemma_layers(o, c, ls, k - 1, m);
        lemma_gemma_layer(o, c, ls[k - 1], i, before);
        lemma_attention(o, c, i, before);
        lemma_feed_forward(o, c, ls[k - 1], run(o, attention_steps(c, i), before));
    }
}

/// A forward pass runs every layer, counts the position once, and ends with the last
/// norm of the state that the layers left.
pub proof fn lemma_gemma_forward<V>(o: Operations<V>, w: GemmaWeightsModel, m: Machine<V>)
    requires
        !m.skipping,
        gemma_passable(w),
    ensures
        ({
            let s = run(o, gemma_layers_steps(w.config, w.layers, w.config.n_layers as int), m);
            let r = run(o, gemma_steps(w), m);
            &&& r.rows[Buffer::State] == (o.norm)(s.layer, NormSlot::Last, s.rows[Buffer::State])
            &&& r.stored == s.stored
            &&& r.positions == m.positions + 1
        }),
{
    let n = w.config.n_layers as int;
    let last = seq![
        Step::Advance,
        Step::Norm { buffer: Buffer::State, norm: NormSlot::Last },
    ];
    let s = run(o, gemma_layers_steps(w.config, w.layers, n), m);
    lemma_run_on(o, gemma_layers_steps(w.config, w.layers, n), last, m);
    lemma_gemma_layers_keep(o, w.config, w.layers, n, m);
    assert(last.len() == 2);
    assert(after_steps(o, last, 0, s) == s);
    let s1 = after_step(o, last[0], s);
    assert(after_steps(o, last, 1, s) == s1);
    let s2 = after_step(o, last[1], s1);
    assert(after_steps(o, last, 2, s) == s2);
}

/// Every matrix and every norm of a layer stands in the field with its name.
pub proof fn lemma_gemma_layer_fields(w: Gemma4LayerWeights)
    ensures
        w@.attn_norm == w.attn_norm@,
        w@.attn_q == w.attn_q@,
        w@.attn_k == w.attn_k@,
        w@.attn_v == w.attn_v@,
        w@.attn_o == w.attn_o@,
        w@.attn_q_norm == w.attn_q_norm@,
        w@.attn_k_norm == w.attn_k_norm@,
        w@.ffn_norm == w.ffn_norm@,
        w@.ffn_gate == w.ffn_gate@,
        w@.ffn_up == w.ffn_up@,
        w@.ffn_down == w.ffn_down@,
        w@.inp_gate == w.inp_gate@,
        w@.proj == w.proj@,
        w@.post_attention_norm == w.post_attention_norm@,
        w@.post_ffw_norm == w.post_ffw_norm@,
        w@.post_norm == w.post_norm@,
        w@.layer_output_scale == w.layer_output_scale,
        w@.has_experts == w.has_experts,
        w@.expert_gate == w.expert_gate@,
        w@.expert_up == w.expert_up@,
        w@.expert_down == w.expert_down@,
        w@.expert_gate_2 == w.expert_gate_2@,
        w@.expert_up_2 == w.expert_up_2@,
        w@.expert_down_2 == w.expert_down_2@,
{
}

/// Every dimension of a model stands in the field with its name.
pub proof fn lemma_gemma_config_fields(w: Gemma4Config)
    ensures
        w@.n_layers == w.n_layers,
        w@.dim == w.dim,
        w@.n_heads == w.n_heads,
        w@.n_kv_heads == w.n_kv_heads,
        w@.head_dim == w.head_dim,
        w@.head_dim_swa == w.head_dim_swa,
        w@.hidden_dim == w.hidden_dim,
        w@.vocab_size == w.vocab_size,
        w@.ctx_len == w.ctx_len,
        w@.norm_eps == w.norm_eps,
        w@.rope_base == w.rope_base,
        w@.rope_base_swa == w.rope_base_swa,
        w@.rope_dim == w.rope_dim,
        w@.rope_dim_swa == w.rope_dim_swa,
        w@.sliding_window == w.sliding_window,
        w@.swa_pattern == w.swa_pattern@,
        w@.shared_kv_layers == w.shared_kv_layers,
        w@.final_logit_softcapping == w.final_logit_softcapping,
        w@.per_layer_dim == w.per_layer_dim,
{
}

/// Every weight of a model stands in the field with its name.
pub proof fn lemma_gemma_weights_fields(w: Gemma4Weights)
    ensures
        w@.config == w.config@,
        w@.embeddings == w.tok_embd_raw@,
        w@.embeddings_dtype == w.tok_embd_dtype,
        w@.output_norm == w.output_norm@,
        w@.rope_freqs == w.rope_freqs@,
        w@.shared_embd == w.shared_embd,
        w@.layers.len() == w.layers@.len(),
        forall|i: int| 0 <= i < w.layers@.len() ==> w@.layers[i] == (#[trigger] w.layers@[i])@,
{
}

/// A token's row is read where the table has all of it, and its numbers are those of its
/// own bytes. Rows of four bits are scored as blocks, every other by its numbers, and a
/// token without a row not at all.
pub proof fn lemma_rows(w: GemmaWeightsModel, token: int)
    requires
        0 <= token,
        w.embeddings.len() <= usize::MAX,
    ensures
        ({
            let row = stored_size(w.config.dim as int, w.embeddings_dtype);
            let (start, end) = (token * row, (token + 1) * row);
            &&& end <= w.embeddings.len() ==> embedded(w, token) == Some(
                numbers_of(w.embeddings.subrange(start, end), w.embeddings_dtype),
            )
            &&& end > w.embeddings.len() ==> embedded(w, token) is None && score_row_of(w, token)
                == ScoreRow::Zero
            &&& end <= w.embeddings.len() && w.embeddings_dtype == DType::Q4 && w.config.dim > 0
                ==> score_row_of(w, token) == (ScoreRow::Q4 {
                start: start as usize,
                end: end as usize,
            })
            &&& end <= w.embeddings.len() && w.embeddings_dtype != DType::Q4 ==> score_row_of(
                w,
                token,
            ) == (ScoreRow::Other { start: start as usize, end: end as usize })
        }),
{
    let row = stored_size(w.config.dim as int, w.embeddings_dtype);
    assert((token + 1) * row == token * row + row) by (nonlinear_arith);
    if w.embeddings_dtype == DType::Q4 && w.config.dim > 0 {
        let n = (w.config.dim + 31) / 32;
        assert(row == n * 18 && n >= 1);
        assert((n * 18) % 18 == 0);
    }
}

/// The frequencies that were learned for layers with a sliding window stand behind those
/// for the others, which are as many as a head is wide. Without any behind them, both
/// kinds of layers have the same. A pair beyond those that were learned has none.
pub proof fn lemma_frequencies(i: int, head_dim: int, learned: int)
    requires
        0 <= i,
        0 <= head_dim,
        0 <= learned,
    ensures
        frequency_of(i, head_dim, learned, false) == if i < learned {
            Some(i)
        } else {
            None
        },
        learned <= head_dim ==> frequency_of(i, head_dim, learned, true) == frequency_of(
            i,
            head_dim,
            learned,
            false,
        ),
        learned > head_dim ==> frequency_of(i, head_dim, learned, true) == frequency_of(
            i + head_dim,
            head_dim,
            learned,
            false,
        ),
{
}

/// How many of the best tokens the next one is drawn from.
pub open spec fn candidates(top_k: int) -> int {
    if top_k > 64 {
        top_k
    } else {
        64
    }
}

/// How many weights of a norm are applied to every head.
pub open spec fn applied_weights(norm_len: int, head_dim: int) -> int {
    if norm_len >= head_dim {
        head_dim
    } else {
        norm_len
    }
}

/// There are as many candidates as are asked for, but not fewer than sixty-four. Of the
/// weights of a norm no more are applied than there are, nor than a head is wide.
pub proof fn lemma_counts(top_k: int, norm_len: int, head_dim: int)
    ensures
        candidates(top_k) >= 64,
        candidates(top_k) >= top_k,
        candidates(top_k) == 64 || candidates(top_k) == top_k,
        applied_weights(norm_len, head_dim) <= norm_len,
        applied_weights(norm_len, head_dim) <= head_dim,
        applied_weights(norm_len, head_dim) == norm_len || applied_weights(norm_len, head_dim)
            == head_dim,
{
}

/// A manifest without the metadata of a GGUF file gives no configuration. A model without
/// embeddings is refused, and so is one whose last norm is missing or has no numbers.
pub proof fn lemma_gemma_refused(
    o: Seq<(Seq<char>, Json)>,
    d: Seq<u8>,
    x: Seq<Descriptor>,
    c: GemmaConfig,
)
    ensures
        entries_of(object_get(o, "gguf.metadata"@)) is None ==> gemma_config_of(o) == Err::<
            GemmaConfig,
            Seq<char>,
        >("no gguf.metadata in manifest"@),
        entries_of(object_get(o, "gguf.metadata"@)) is Some ==> gemma_config_of(o) is Ok,
        lookup(x, "token_embd.weight"@) is Err ==> gemma_weights_of(d, x, c) == Err::<
            GemmaWeightsModel,
            Seq<char>,
        >("token_embd.weight not found"@),
        lookup(x, "token_embd.weight"@) is Ok && lookup(x, "output_norm.weight"@) is Err
            ==> gemma_weights_of(d, x, c) == Err::<GemmaWeightsModel, Seq<char>>(
            "output_norm.weight not found"@,
        ),
{
}

} // verus!

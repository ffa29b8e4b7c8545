//! The weights of a decoder-only transformer, and the steps of its forward pass.
use vstd::prelude::*;

use crate::descriptor::Descriptor;
use crate::dtype::{dequantize_tensor, numbers_of, Dequantized, Numbers};
use crate::error::{clamp, clamp_u64};
use crate::model::{
    dtype_in, first_known, is_first_known, known, lemma_first_known, numbers_named, prefix_of,
    raw_of, Config, LoadedModel, ModelConfig,
};
use crate::meaning::{
    after_step, after_steps, lemma_run_on, lemma_uses_step, run, uses, written, Heads, Machine,
    Operations,
};
use crate::plan::{choose_product, product_for, Buffer, NormSlot, Product, Slot, Step};
use crate::runtime::{after_read, after_reads, whole_tensor};
use crate::stats::RuntimeStats;
use crate::tensor::DType;
use crate::text::{concat3, concat4, decimal, decimal_text, texts};

verus! {

// ── Loading ─────────────────────────────────────────────────────────
/// A loaded matrix: its numbers, its bytes where it was found, and its type.
#[verifier::ext_equal]
pub struct Matrix {
    pub numbers: Numbers,
    pub raw: Option<Seq<u8>>,
    pub dtype: DType,
}

/// The weights of a norm: loaded ones, or a one for every number.
#[verifier::ext_equal]
pub enum NormModel {
    Ones,
    Loaded(Numbers),
}

/// What stands for a matrix that was not found.
pub open spec fn no_matrix() -> Matrix {
    Matrix { numbers: Numbers::Singles(Seq::empty()), raw: None, dtype: DType::F32 }
}

/// The type of a tensor, single precision where it is not known.
pub open spec fn dtype_or_single(x: Seq<Descriptor>, name: Seq<char>) -> DType {
    match dtype_in(x, name) {
        Some(t) => t,
        None => DType::F32,
    }
}

/// The matrix that the tensor with the name is. Without a name, or without
/// bytes, there are no numbers.
pub open spec fn matrix_named(d: Seq<u8>, x: Seq<Descriptor>, name: Option<Seq<char>>) -> Matrix {
    match name {
        None => no_matrix(),
        Some(n) => {
            let raw = match raw_of(d, x, n) {
                Ok(b) => b,
                Err(_) => Seq::empty(),
            };
            Matrix {
                numbers: numbers_of(raw, dtype_or_single(x, n)),
                raw: Some(raw),
                dtype: dtype_or_single(x, n),
            }
        },
    }
}

/// The norm that the tensor with the name is.
pub open spec fn norm_named(d: Seq<u8>, x: Seq<Descriptor>, name: Option<Seq<char>>) -> NormModel {
    match name {
        None => NormModel::Ones,
        Some(n) => match numbers_named(d, x, n) {
            Ok(v) => NormModel::Loaded(v),
            Err(_) => NormModel::Ones,
        },
    }
}

/// A loaded matrix.
#[derive(Debug)]
pub struct WeightMatrix {
    /// Its numbers.
    pub numbers: Dequantized,
    /// Its bytes, where it was found.
    pub raw: Option<Vec<u8>>,
    /// Its type.
    pub dtype: DType,
}

/// The bytes of an optional row.
pub open spec fn opt_bytes(v: Option<Vec<u8>>) -> Option<Seq<u8>> {
    match v {
        Some(b) => Some(b@),
        None => None,
    }
}

impl View for WeightMatrix {
    type V = Matrix;

    open spec fn view(&self) -> Matrix {
        Matrix { numbers: self.numbers@, raw: opt_bytes(self.raw), dtype: self.dtype }
    }
}

/// The weights of a norm.
#[derive(Debug)]
pub enum NormWeights {
    /// A one for every number.
    Ones,
    /// Loaded weights.
    Loaded(Dequantized),
}

impl View for NormWeights {
    type V = NormModel;

    open spec fn view(&self) -> NormModel {
        match self {
            NormWeights::Ones => NormModel::Ones,
            NormWeights::Loaded(n) => NormModel::Loaded(n@),
        }
    }
}

/// The names of a layer's tensor by two conventions.
pub open spec fn two_names(layer: u64, a: Seq<char>, b: Seq<char>) -> Seq<Seq<char>> {
    seq![prefix_of(layer) + a, prefix_of(layer) + b]
}

/// The names of a layer's query projection.
pub open spec fn query_names(layer: u64) -> Seq<Seq<char>> {
    seq![
        prefix_of(layer) + ".attn_q.weight"@,
        prefix_of(layer) + ".self_attn.q_proj.weight"@,
        "model.layers."@ + decimal_text(layer as nat) + ".self_attn.q_proj.weight"@,
    ]
}

/// The weights of a layer.
#[verifier::ext_equal]
pub struct LayerModel {
    pub wq: Matrix,
    pub wk: Matrix,
    pub wv: Matrix,
    pub wo: Matrix,
    pub w1: Matrix,
    pub w2: Matrix,
    pub w3: Matrix,
    pub attention_norm: NormModel,
    pub ffn_norm: NormModel,
}

/// The matrix under the first of the names that a tensor has.
pub open spec fn matrix_under(d: Seq<u8>, x: Seq<Descriptor>, names: Seq<Seq<char>>) -> Matrix {
    matrix_named(d, x, first_known(x, names, 0))
}

/// The norm under the first of the names that a tensor has.
pub open spec fn norm_under(d: Seq<u8>, x: Seq<Descriptor>, names: Seq<Seq<char>>) -> NormModel {
    norm_named(d, x, first_known(x, names, 0))
}

/// The weights of a layer, each under the first of its names that a tensor has.
pub open spec fn layer_of(d: Seq<u8>, x: Seq<Descriptor>, layer: u64) -> LayerModel {
    LayerModel {
        wq: matrix_under(d, x, query_names(layer)),
        wk: matrix_under(
            d,
            x,
            two_names(layer, ".attn_k.weight"@, ".self_attn.k_proj.weight"@),
        ),
        wv: matrix_under(
            d,
            x,
            two_names(layer, ".attn_v.weight"@, ".self_attn.v_proj.weight"@),
        ),
        wo: matrix_under(
            d,
            x,
            two_names(layer, ".attn_output.weight"@, ".self_attn.o_proj.weight"@),
        ),
        w1: matrix_under(d, x, two_names(layer, ".ffn_gate.weight"@, ".mlp.gate_proj.weight"@)),
        w2: matrix_under(d, x, two_names(layer, ".ffn_down.weight"@, ".mlp.down_proj.weight"@)),
        w3: matrix_under(d, x, two_names(layer, ".ffn_up.weight"@, ".mlp.up_proj.weight"@)),
        attention_norm: norm_under(
            d,
            x,
            two_names(layer, ".attn_norm.weight"@, ".input_layernorm.weight"@),
        ),
        ffn_norm: norm_under(
            d,
            x,
            two_names(layer, ".ffn_norm.weight"@, ".post_attention_layernorm.weight"@),
        ),
    }
}

/// The names of the tensors that the weights of a layer are read from.
pub open spec fn layer_reads(x: Seq<Descriptor>, layer: u64) -> Seq<Option<Seq<char>>> {
    seq![
        first_known(x, query_names(layer), 0),
        first_known(x, two_names(layer, ".attn_k.weight"@, ".self_attn.k_proj.weight"@), 0),
        first_known(x, two_names(layer, ".attn_v.weight"@, ".self_attn.v_proj.weight"@), 0),
        first_known(x, two_names(layer, ".attn_output.weight"@, ".self_attn.o_proj.weight"@), 0),
        first_known(x, two_names(layer, ".ffn_gate.weight"@, ".mlp.gate_proj.weight"@), 0),
        first_known(x, two_names(layer, ".ffn_down.weight"@, ".mlp.down_proj.weight"@), 0),
        first_known(x, two_names(layer, ".ffn_up.weight"@, ".mlp.up_proj.weight"@), 0),
        first_known(x, two_names(layer, ".attn_norm.weight"@, ".input_layernorm.weight"@), 0),
        first_known(
            x,
            two_names(layer, ".ffn_norm.weight"@, ".post_attention_layernorm.weight"@),
            0,
        ),
    ]
}

/// What is counted once the weights of a layer were read.
pub open spec fn after_layer(
    k: RuntimeStats,
    d: Seq<u8>,
    x: Seq<Descriptor>,
    layer: u64,
) -> RuntimeStats {
    after_reads(k, d, x, layer_reads(x, layer), 9)
}

/// What is counted once the weights of the first `n` layers were read.
pub open spec fn after_layers(
    k: RuntimeStats,
    d: Seq<u8>,
    x: Seq<Descriptor>,
    n: int,
) -> RuntimeStats
    decreases n,
{
    if n <= 0 {
        k
    } else {
        after_layer(after_layers(k, d, x, n - 1), d, x, (n - 1) as u64)
    }
}

/// The weights of a layer.
#[derive(Debug)]
pub struct TransformerLayerWeights {
    /// The query projection.
    pub wq: WeightMatrix,
    /// The key projection.
    pub wk: WeightMatrix,
    /// The value projection.
    pub wv: WeightMatrix,
    /// The projection of what attention gives.
    pub wo: WeightMatrix,
    /// The gating projection.
    pub w1: WeightMatrix,
    /// The down projection.
    pub w2: WeightMatrix,
    /// The up projection.
    pub w3: WeightMatrix,
    /// The norm before attention.
    pub attention_norm: NormWeights,
    /// The norm before the feed-forward step.
    pub ffn_norm: NormWeights,
}

impl View for TransformerLayerWeights {
    type V = LayerModel;

    open spec fn view(&self) -> LayerModel {
        LayerModel {
            wq: self.wq@,
            wk: self.wk@,
            wv: self.wv@,
            wo: self.wo@,
            w1: self.w1@,
            w2: self.w2@,
            w3: self.w3@,
            attention_norm: self.attention_norm@,
            ffn_norm: self.ffn_norm@,
        }
    }
}

fn first_name(model: &LoadedModel, names: &Vec<String>) -> (r: Option<String>)
    ensures
        match r {
            Some(n) => first_known(model.descs(), texts(names@), 0) == Some(n@),
            None => first_known(model.descs(), texts(names@), 0) is None,
        },
{
    let mut i: usize = 0;
    let ghost all = texts(names@);
    while i < names.len()
        invariant
            i <= names@.len(),
            all == texts(names@),
            first_known(model.descs(), all, 0) == first_known(model.descs(), all, i as int),
        decreases names@.len() - i,
    {
        assert(all[i as int] == names@[i as int]@);
        if model.has_tensor(names[i].as_str()) {
            return Some(names[i].clone());
        }
        i += 1;
    }
    None
}

/// Reads the matrix that the tensor with the name is.
fn load_matrix(model: &mut LoadedModel, name: Option<String>) -> (r: WeightMatrix)
    ensures
        final(model).same_model(*old(model)),
        r@ == matrix_named(
            old(model).bytes(),
            old(model).descs(),
            match name {
                Some(n) => Some(n@),
                None => None,
            },
        ),
        final(model).rt.counts() == after_read(
            old(model).rt.counts(),
            old(model).bytes(),
            old(model).descs(),
            match name {
                Some(n) => Some(n@),
                None => None,
            },
        ),
{
    proof {
        reveal(after_read);
    }
    match name {
        None => {
            let r = WeightMatrix {
                numbers: Dequantized::Singles(Vec::new()),
                raw: None,
                dtype: DType::F32,
            };
            assert(r@ =~= no_matrix());
            r
        },
        Some(n) => {
            let dtype = match model.dtype(n.as_str()) {
                Some(t) => t,
                None => DType::F32,
            };
            let raw = match model.raw(n.as_str()) {
                Ok(b) => b,
                Err(_) => {
                    let none: Vec<u8> = Vec::new();
                    assert(none@ =~= Seq::empty());
                    none
                },
            };
            let numbers = dequantize_tensor(raw.as_slice(), dtype);
            WeightMatrix { numbers, raw: Some(raw), dtype }
        },
    }
}

/// Reads the norm that the tensor with the name is.
fn load_norm(model: &mut LoadedModel, name: Option<String>) -> (r: NormWeights)
    ensures
        final(model).same_model(*old(model)),
        r@ == norm_named(
            old(model).bytes(),
            old(model).descs(),
            match name {
                Some(n) => Some(n@),
                None => None,
            },
        ),
        final(model).rt.counts() == after_read(
            old(model).rt.counts(),
            old(model).bytes(),
            old(model).descs(),
            match name {
                Some(n) => Some(n@),
                None => None,
            },
        ),
{
    proof {
        reveal(after_read);
    }
    match name {
        None => NormWeights::Ones,
        Some(n) => match model.numbers(n.as_str()) {
            Ok(v) => NormWeights::Loaded(v),
            Err(_) => NormWeights::Ones,
        },
    }
}

fn name_pair(layer: u64, a: &str, b: &str) -> (r: Vec<String>)
    ensures
        texts(r@) == two_names(layer, a@, b@),
{
    let n = decimal(layer);
    let mut v: Vec<String> = Vec::new();
    v.push(concat3("blk.", n.as_str(), a));
    v.push(concat3("blk.", n.as_str(), b));
    assert(texts(v@) =~= two_names(layer, a@, b@));
    v
}

fn name_triple(layer: u64) -> (r: Vec<String>)
    ensures
        texts(r@) == query_names(layer),
{
    let n = decimal(layer);
    let mut v: Vec<String> = Vec::new();
    v.push(concat3("blk.", n.as_str(), ".attn_q.weight"));
    v.push(concat3("blk.", n.as_str(), ".self_attn.q_proj.weight"));
    v.push(concat3("model.layers.", n.as_str(), ".self_attn.q_proj.weight"));
    assert(texts(v@) =~= query_names(layer));
    v
}

fn load_pair(model: &mut LoadedModel, layer: u64, a: &str, b: &str) -> (r: WeightMatrix)
    ensures
        final(model).same_model(*old(model)),
        r@ == matrix_under(old(model).bytes(), old(model).descs(), two_names(layer, a@, b@)),
        final(model).rt.counts() == after_read(
            old(model).rt.counts(),
            old(model).bytes(),
            old(model).descs(),
            first_known(old(model).descs(), two_names(layer, a@, b@), 0),
        ),
{
    let name = first_name(model, &name_pair(layer, a, b));
    load_matrix(model, name)
}

fn load_norm_pair(model: &mut LoadedModel, layer: u64, a: &str, b: &str) -> (r: NormWeights)
    ensures
        final(model).same_model(*old(model)),
        r@ == norm_under(old(model).bytes(), old(model).descs(), two_names(layer, a@, b@)),
        final(model).rt.counts() == after_read(
            old(model).rt.counts(),
            old(model).bytes(),
            old(model).descs(),
            first_known(old(model).descs(), two_names(layer, a@, b@), 0),
        ),
{
    let name = first_name(model, &name_pair(layer, a, b));
    load_norm(model, name)
}

/// Reads the weights of a layer.
pub fn load_layer(model: &mut LoadedModel, layer: u64) -> (r: TransformerLayerWeights)
    ensures
        final(model).same_model(*old(model)),
        r@ == layer_of(old(model).bytes(), old(model).descs(), layer),
        final(model).rt.counts() == after_layer(
            old(model).rt.counts(),
            old(model).bytes(),
            old(model).descs(),
            layer,
        ),
{
    proof {
        reveal_with_fuel(after_reads, 10);
    }
    let name = first_name(model, &name_triple(layer));
    let wq = load_matrix(model, name);
    let wk = load_pair(model, layer, ".attn_k.weight", ".self_attn.k_proj.weight");
    let wv = load_pair(model, layer, ".attn_v.weight", ".self_attn.v_proj.weight");
    let wo = load_pair(model, layer, ".attn_output.weight", ".self_attn.o_proj.weight");
    let w1 = load_pair(model, layer, ".ffn_gate.weight", ".mlp.gate_proj.weight");
    let w2 = load_pair(model, layer, ".ffn_down.weight", ".mlp.down_proj.weight");
    let w3 = load_pair(model, layer, ".ffn_up.weight", ".mlp.up_proj.weight");
    let attention_norm = load_norm_pair(
        model,
        layer,
        ".attn_norm.weight",
        ".input_layernorm.weight",
    );
    let ffn_norm = load_norm_pair(
        model,
        layer,
        ".ffn_norm.weight",
        ".post_attention_layernorm.weight",
    );
    TransformerLayerWeights { wq, wk, wv, wo, w1, w2, w3, attention_norm, ffn_norm }
}

/// The weights of a model.
#[verifier::ext_equal]
pub struct WeightsModel {
    pub embeddings: Matrix,
    pub layers: Seq<LayerModel>,
    pub norm: NormModel,
    pub output: Matrix,
    pub output_shared: bool,
}

/// The matrix under the first of the names that a tensor has, or why it cannot
/// be read. Where no tensor has one of the names there are no numbers.
pub open spec fn flexible(d: Seq<u8>, x: Seq<Descriptor>, names: Seq<Seq<char>>) -> Result<
    Matrix,
    Seq<char>,
> {
    match first_known(x, names, 0) {
        None => Ok(no_matrix()),
        Some(n) => match raw_of(d, x, n) {
            Err(e) => Err(e),
            Ok(_) => Ok(matrix_named(d, x, Some(n))),
        },
    }
}

/// The norm under the first of the names that a tensor has, or why it cannot be
/// read. Where no tensor has one of the names it is all ones.
pub open spec fn flexible_norm(d: Seq<u8>, x: Seq<Descriptor>, names: Seq<Seq<char>>) -> Result<
    NormModel,
    Seq<char>,
> {
    match first_known(x, names, 0) {
        None => Ok(NormModel::Ones),
        Some(n) => match numbers_named(d, x, n) {
            Err(e) => Err(e),
            Ok(v) => Ok(NormModel::Loaded(v)),
        },
    }
}

/// The names that the embeddings go by.
pub open spec fn embedding_candidates() -> Seq<Seq<char>> {
    seq![
        "token_embd.weight"@,
        "model.embed_tokens.weight"@,
        "gpt_neox.embed_in.weight"@,
        "wte.weight"@,
    ]
}

/// The names that the output projection goes by.
pub open spec fn output_candidates() -> Seq<Seq<char>> {
    seq!["output.weight"@, "lm_head.weight"@, "embed_out.weight"@]
}

/// The names that the last norm goes by.
pub open spec fn norm_candidates() -> Seq<Seq<char>> {
    seq![
        "output_norm.weight"@,
        "model.norm.weight"@,
        "gpt_neox.final_layer_norm.weight"@,
        "ln_f.weight"@,
        "norm.weight"@,
        "token_embd_norm.weight"@,
    ]
}

/// Whether the embeddings serve as the output projection too.
pub open spec fn shares_output(x: Seq<Descriptor>, output: Matrix) -> bool {
    let (own, head) = (known(x, "output.weight"@), known(x, "lm_head.weight"@));
    (own && output.numbers.count() == 0) || (head && output.numbers.count() == 0) || (!own && !head)
}

/// The weights of a model, or why they cannot be loaded.
pub open spec fn weights_of(d: Seq<u8>, x: Seq<Descriptor>, c: Config) -> Result<
    WeightsModel,
    Seq<char>,
> {
    match flexible(d, x, embedding_candidates()) {
        Err(e) => Err(e),
        Ok(embeddings) => if embeddings.numbers.count() != c.vocab_size * c.dim {
            Err(
                "token embeddings size mismatch: expected "@ + decimal_text(
                    clamp_u64(c.vocab_size * c.dim) as nat,
                ) + " elements, got "@ + decimal_text(
                    clamp_u64(embeddings.numbers.count()) as nat,
                ),
            )
        } else {
            match flexible(d, x, output_candidates()) {
                Err(e) => Err(e),
                Ok(output) => match flexible_norm(d, x, norm_candidates()) {
                    Err(e) => Err(e),
                    Ok(norm) => Ok(
                        WeightsModel {
                            embeddings,
                            layers: Seq::new(
                                c.n_layers as nat,
                                |i: int| layer_of(d, x, i as u64),
                            ),
                            norm,
                            output,
                            output_shared: shares_output(x, output),
                        },
                    ),
                },
            }
        },
    }
}

/// What is counted once the weights of a model were loaded, as far as they can
/// be.
pub open spec fn after_load(
    k: RuntimeStats,
    d: Seq<u8>,
    x: Seq<Descriptor>,
    c: Config,
) -> RuntimeStats {
    let first = after_read(k, d, x, first_known(x, embedding_candidates(), 0));
    let second = after_read(first, d, x, first_known(x, output_candidates(), 0));
    let third = after_read(second, d, x, first_known(x, norm_candidates(), 0));
    match flexible(d, x, embedding_candidates()) {
        Err(_) => first,
        Ok(e) => if e.numbers.count() != c.vocab_size * c.dim {
            first
        } else if flexible(d, x, output_candidates()) is Err {
            second
        } else if flexible_norm(d, x, norm_candidates()) is Err {
            third
        } else {
            after_layers(third, d, x, c.n_layers as int)
        },
    }
}

/// The weights of a model.
#[derive(Debug)]
pub struct ModelWeights {
    /// The embeddings of the tokens.
    pub embeddings: WeightMatrix,
    /// The layers.
    pub layers: Vec<TransformerLayerWeights>,
    /// The last norm.
    pub norm: NormWeights,
    /// The output projection, without numbers where there is none.
    pub output: WeightMatrix,
    /// Whether the embeddings serve as the output projection too.
    pub output_shared: bool,
}

/// What a row of layers stands for.
pub open spec fn layer_models(v: Seq<TransformerLayerWeights>) -> Seq<LayerModel> {
    Seq::new(v.len(), |i: int| v[i]@)
}

impl View for ModelWeights {
    type V = WeightsModel;

    open spec fn view(&self) -> WeightsModel {
        WeightsModel {
            embeddings: self.embeddings@,
            layers: layer_models(self.layers@),
            norm: self.norm@,
            output: self.output@,
            output_shared: self.output_shared,
        }
    }
}

fn load_flexible(model: &mut LoadedModel, names: &Vec<String>) -> (r: Result<WeightMatrix, String>)
    ensures
        final(model).same_model(*old(model)),
        match r {
            Ok(m) => flexible(old(model).bytes(), old(model).descs(), texts(names@)) == Ok::<
                Matrix,
                Seq<char>,
            >(m@),
            Err(e) => flexible(old(model).bytes(), old(model).descs(), texts(names@)) == Err::<
                Matrix,
                Seq<char>,
            >(e@),
        },
        final(model).rt.counts() == after_read(
            old(model).rt.counts(),
            old(model).bytes(),
            old(model).descs(),
            first_known(old(model).descs(), texts(names@), 0),
        ),
{
    proof {
        reveal(after_read);
    }
    let n = match first_name(model, names) {
        None => return Ok(load_matrix(model, None)),
        Some(n) => n,
    };
    let dtype = match model.dtype(n.as_str()) {
        Some(t) => t,
        None => DType::F32,
    };
    let raw = model.raw(n.as_str())?;
    let numbers = dequantize_tensor(raw.as_slice(), dtype);
    Ok(WeightMatrix { numbers, raw: Some(raw), dtype })
}

fn load_flexible_norm(model: &mut LoadedModel, names: &Vec<String>) -> (r: Result<
    NormWeights,
    String,
>)
    ensures
        final(model).same_model(*old(model)),
        match r {
            Ok(m) => flexible_norm(old(model).bytes(), old(model).descs(), texts(names@)) == Ok::<
                NormModel,
                Seq<char>,
            >(m@),
            Err(e) => flexible_norm(old(model).bytes(), old(model).descs(), texts(names@)) == Err::<
                NormModel,
                Seq<char>,
            >(e@),
        },
        final(model).rt.counts() == after_read(
            old(model).rt.counts(),
            old(model).bytes(),
            old(model).descs(),
            first_known(old(model).descs(), texts(names@), 0),
        ),
{
    proof {
        reveal(after_read);
    }
    match first_name(model, names) {
        None => Ok(NormWeights::Ones),
        Some(n) => {
            let v = model.numbers(n.as_str())?;
            Ok(NormWeights::Loaded(v))
        },
    }
}

fn embedding_name_list() -> (r: Vec<String>)
    ensures
        texts(r@) == embedding_candidates(),
{
    let mut v: Vec<String> = Vec::new();
    v.push("token_embd.weight".to_owned());
    v.push("model.embed_tokens.weight".to_owned());
    v.push("gpt_neox.embed_in.weight".to_owned());
    v.push("wte.weight".to_owned());
    assert(texts(v@) =~= embedding_candidates());
    v
}

fn output_name_list() -> (r: Vec<String>)
    ensures
        texts(r@) == output_candidates(),
{
    let mut v: Vec<String> = Vec::new();
    v.push("output.weight".to_owned());
    v.push("lm_head.weight".to_owned());
    v.push("embed_out.weight".to_owned());
    assert(texts(v@) =~= output_candidates());
    v
}

fn norm_name_list() -> (r: Vec<String>)
    ensures
        texts(r@) == norm_candidates(),
{
    let mut v: Vec<String> = Vec::new();
    v.push("output_norm.weight".to_owned());
    v.push("model.norm.weight".to_owned());
    v.push("gpt_neox.final_layer_norm.weight".to_owned());
    v.push("ln_f.weight".to_owned());
    v.push("norm.weight".to_owned());
    v.push("token_embd_norm.weight".to_owned());
    assert(texts(v@) =~= norm_candidates());
    v
}

impl ModelWeights {
    /// Loads the weights of a model.
    pub fn load(model: &mut LoadedModel) -> (r: Result<ModelWeights, String>)
        ensures
            final(model).same_model(*old(model)),
            match r {
                Ok(w) => weights_of(old(model).bytes(), old(model).descs(), old(model).config@)
                    == Ok::<WeightsModel, Seq<char>>(w@),
                Err(e) => weights_of(old(model).bytes(), old(model).descs(), old(model).config@)
                    == Err::<WeightsModel, Seq<char>>(e@),
            },
            final(model).rt.counts() == after_load(
                old(model).rt.counts(),
                old(model).bytes(),
                old(model).descs(),
                old(model).config@,
            ),
    {
        let ghost (d, x, c) = (model.bytes(), model.descs(), model.config@);
        let embeddings = load_flexible(model, &embedding_name_list())?;
        let (vocab, dim) = (model.config.vocab_size, model.config.dim);
        proof {
            let (a, b) = (vocab as int, dim as int);
            assert(0 <= a * b <= 0xffff_ffff_ffff_ffff * 0xffff_ffff_ffff_ffff) by (nonlinear_arith)
                requires
                    0 <= a <= 0xffff_ffff_ffff_ffff,
                    0 <= b <= 0xffff_ffff_ffff_ffff,
            ;
        }
        let expected = vocab as u128 * dim as u128;
        let got = embeddings.numbers.count();
        if got != expected {
            return Err(
                concat4(
                    "token embeddings size mismatch: expected ",
                    decimal(clamp(expected)).as_str(),
                    " elements, got ",
                    decimal(clamp(got)).as_str(),
                ),
            );
        }
        let output = load_flexible(model, &output_name_list())?;
        let own = model.has_tensor("output.weight");
        let head = model.has_tensor("lm_head.weight");
        let none = output.numbers.is_empty();
        let output_shared = own && none || head && none || !own && !head;
        let norm = load_flexible_norm(model, &norm_name_list())?;
        let ghost read = model.rt.counts();
        let mut layers: Vec<TransformerLayerWeights> = Vec::new();
        let n_layers = model.config.n_layers;
        let mut i: u64 = 0;
        while i < n_layers
            invariant
                i <= n_layers,
                model.same_model(*old(model)),
                d == model.bytes(),
                x == model.descs(),
                model.rt.counts() == after_layers(read, d, x, i as int),
                layers@.len() == i,
                forall|k: int| 0 <= k < i ==> (#[trigger] layers@[k])@ == layer_of(d, x, k as u64),
            decreases n_layers - i,
        {
            let layer = load_layer(model, i);
            layers.push(layer);
            i += 1;
        }
        assert(layer_models(layers@) =~= Seq::new(
            c.n_layers as nat,
            |k: int| layer_of(d, x, k as u64),
        ));
        Ok(ModelWeights { embeddings, layers, norm, output, output_shared })
    }
}

// ── The forward pass ────────────────────────────────────────────────
/// The product of a layer's matrix. Blocks are those of the query projection's
/// type.
pub open spec fn layer_product(l: LayerModel, m: Matrix, columns: bool) -> Product {
    product_for(m.raw is Some, l.wq.dtype, columns)
}

/// The steps of a layer: attention over the stored positions, and a gated
/// feed-forward step, each behind a norm and added to the state.
pub open spec fn layer_steps(c: Config, l: LayerModel, i: u64) -> Seq<Step> {
    let q_len = (c.n_heads * c.head_dim) as u64;
    let kv_len = (c.n_kv_heads * c.head_dim) as u64;
    seq![
        Step::Layer(i),
        Step::Copy { from: Buffer::State, to: Buffer::Input },
        Step::Norm { buffer: Buffer::Input, norm: NormSlot::Attention },
        Step::Multiply {
            matrix: Slot::Query,
            how: layer_product(l, l.wq, false),
            rows: q_len,
            cols: c.dim,
            from: Buffer::Input,
            to: Buffer::Query,
        },
        Step::Multiply {
            matrix: Slot::Key,
            how: layer_product(l, l.wk, false),
            rows: kv_len,
            cols: c.dim,
            from: Buffer::Input,
            to: Buffer::Key,
        },
        Step::Multiply {
            matrix: Slot::Value,
            how: layer_product(l, l.wv, false),
            rows: kv_len,
            cols: c.dim,
            from: Buffer::Input,
            to: Buffer::Value,
        },
        Step::Rotate { buffer: Buffer::Query, heads: c.n_heads, head_dim: c.head_dim },
        Step::Rotate { buffer: Buffer::Key, heads: c.n_kv_heads, head_dim: c.head_dim },
        Step::Store { key: Buffer::Key, value: Buffer::Value },
        Step::Score {
            heads: c.n_heads,
            kv_heads: c.n_kv_heads,
            head_dim: c.head_dim,
            full: c.head_dim,
        },
        Step::Softmax { heads: c.n_heads },
        Step::Mix {
            heads: c.n_heads,
            kv_heads: c.n_kv_heads,
            head_dim: c.head_dim,
            full: c.head_dim,
        },
        Step::Multiply {
            matrix: Slot::AttentionOutput,
            how: layer_product(l, l.wo, true),
            rows: c.dim,
            cols: q_len,
            from: Buffer::Mixed,
            to: Buffer::Projected,
        },
        Step::Add { to: Buffer::State, from: Buffer::Projected },
        Step::Copy { from: Buffer::State, to: Buffer::Input },
        Step::Norm { buffer: Buffer::Input, norm: NormSlot::FeedForward },
        Step::Multiply {
            matrix: Slot::Gate,
            how: layer_product(l, l.w1, false),
            rows: c.hidden_dim,
            cols: c.dim,
            from: Buffer::Input,
            to: Buffer::Gate,
        },
        Step::Activate { buffer: Buffer::Gate },
        Step::Multiply {
            matrix: Slot::Up,
            how: layer_product(l, l.w3, false),
            rows: c.hidden_dim,
            cols: c.dim,
            from: Buffer::Input,
            to: Buffer::Up,
        },
        Step::Times { to: Buffer::Gate, by: Buffer::Up },
        Step::Multiply {
            matrix: Slot::Down,
            how: layer_product(l, l.w2, true),
            rows: c.dim,
            cols: c.hidden_dim,
            from: Buffer::Gate,
            to: Buffer::Down,
        },
        Step::Add { to: Buffer::State, from: Buffer::Down },
    ]
}

/// The steps of the first `k` layers.
pub open spec fn layers_steps(c: Config, ls: Seq<LayerModel>, k: int) -> Seq<Step>
    decreases k,
{
    if k <= 0 {
        Seq::empty()
    } else {
        layers_steps(c, ls, k - 1) + layer_steps(c, ls[k - 1], (k - 1) as u64)
    }
}

/// How the scores of the tokens are computed: from the embeddings where they are
/// shared or nothing else is there, else from the output projection. Either has a
/// row for every token.
pub open spec fn logits_step(c: Config, w: WeightsModel) -> Step {
    let (matrix, how) = if w.output_shared {
        (Slot::Embeddings, Product::Rows)
    } else if w.output.numbers.count() > 0 {
        (Slot::Output, Product::Rows)
    } else if w.output.raw is Some {
        (Slot::Output, product_for(true, w.output.dtype, false))
    } else {
        (Slot::Embeddings, Product::Rows)
    };
    Step::Multiply {
        matrix,
        how,
        rows: c.vocab_size,
        cols: c.dim,
        from: Buffer::State,
        to: Buffer::Logits,
    }
}

/// The steps of a forward pass of one token.
pub open spec fn forward_steps(c: Config, w: WeightsModel) -> Seq<Step> {
    layers_steps(c, w.layers, c.n_layers as int) + seq![
        Step::Advance,
        Step::Norm { buffer: Buffer::State, norm: NormSlot::Last },
        logits_step(c, w),
    ]
}

/// The dimensions of a forward pass can be written down, and there are weights
/// for every layer.
pub open spec fn passable(c: Config, w: WeightsModel) -> bool {
    &&& c.n_heads * c.head_dim <= u64::MAX
    &&& c.n_kv_heads * c.head_dim <= u64::MAX
    &&& w.layers.len() >= c.n_layers
}

#[verifier::rlimit(40)]
fn push_layer_steps(out: &mut Vec<Step>, c: &ModelConfig, l: &TransformerLayerWeights, i: u64)
    requires
        c.n_heads * c.head_dim <= u64::MAX,
        c.n_kv_heads * c.head_dim <= u64::MAX,
    ensures
        final(out)@ == old(out)@ + layer_steps(c@, l@, i),
{
    let q_len = c.n_heads * c.head_dim;
    let kv_len = c.n_kv_heads * c.head_dim;
    let dtype = l.wq.dtype;
    out.push(Step::Layer(i));
    out.push(Step::Copy { from: Buffer::State, to: Buffer::Input });
    out.push(Step::Norm { buffer: Buffer::Input, norm: NormSlot::Attention });
    out.push(
        Step::Multiply {
            matrix: Slot::Query,
            how: choose_product(l.wq.raw.is_some(), dtype, false),
            rows: q_len,
            cols: c.dim,
            from: Buffer::Input,
            to: Buffer::Query,
        },
    );
    out.push(
        Step::Multiply {
            matrix: Slot::Key,
            how: choose_product(l.wk.raw.is_some(), dtype, false),
            rows: kv_len,
            cols: c.dim,
            from: Buffer::Input,
            to: Buffer::Key,
        },
    );
    out.push(
        Step::Multiply {
            matrix: Slot::Value,
            how: choose_product(l.wv.raw.is_some(), dtype, false),
            rows: kv_len,
            cols: c.dim,
            from: Buffer::Input,
            to: Buffer::Value,
        },
    );
    out.push(Step::Rotate { buffer: Buffer::Query, heads: c.n_heads, head_dim: c.head_dim });
    out.push(Step::Rotate { buffer: Buffer::Key, heads: c.n_kv_heads, head_dim: c.head_dim });
    out.push(Step::Store { key: Buffer::Key, value: Buffer::Value });
    out.push(
        Step::Score {
            heads: c.n_heads,
            kv_heads: c.n_kv_heads,
            head_dim: c.head_dim,
            full: c.head_dim,
        },
    );
    out.push(Step::Softmax { heads: c.n_heads });
    out.push(
        Step::Mix {
            heads: c.n_heads,
            kv_heads: c.n_kv_heads,
            head_dim: c.head_dim,
            full: c.head_dim,
        },
    );
    out.push(
        Step::Multiply {
            matrix: Slot::AttentionOutput,
            how: choose_product(l.wo.raw.is_some(), dtype, true),
            rows: c.dim,
            cols: q_len,
            from: Buffer::Mixed,
            to: Buffer::Projected,
        },
    );
    out.push(Step::Add { to: Buffer::State, from: Buffer::Projected });
    out.push(Step::Copy { from: Buffer::State, to: Buffer::Input });
    out.push(Step::Norm { buffer: Buffer::Input, norm: NormSlot::FeedForward });
    out.push(
        Step::Multiply {
            matrix: Slot::Gate,
            how: choose_product(l.w1.raw.is_some(), dtype, false),
            rows: c.hidden_dim,
            cols: c.dim,
            from: Buffer::Input,
            to: Buffer::Gate,
        },
    );
    out.push(Step::Activate { buffer: Buffer::Gate });
    out.push(
        Step::Multiply {
            matrix: Slot::Up,
            how: choose_product(l.w3.raw.is_some(), dtype, false),
            rows: c.hidden_dim,
            cols: c.dim,
            from: Buffer::Input,
            to: Buffer::Up,
        },
    );
    out.push(Step::Times { to: Buffer::Gate, by: Buffer::Up });
    out.push(
        Step::Multiply {
            matrix: Slot::Down,
            how: choose_product(l.w2.raw.is_some(), dtype, true),
            rows: c.dim,
            cols: c.hidden_dim,
            from: Buffer::Gate,
            to: Buffer::Down,
        },
    );
    out.push(Step::Add { to: Buffer::State, from: Buffer::Down });
    assert(out@ =~= old(out)@ + layer_steps(c@, l@, i));
}

/// The steps of a forward pass of one token through all layers, from its
/// embedding to the scores of the tokens.
pub fn forward(c: &ModelConfig, w: &ModelWeights) -> (r: Vec<Step>)
    requires
        passable(c@, w@),
    ensures
        r@ == forward_steps(c@, w@),
{
    let mut out: Vec<Step> = Vec::new();
    let ghost ls = w@.layers;
    let mut i: usize = 0;
    assert(out@ =~= layers_steps(c@, ls, 0));
    assert(w.layers@.len() == w.layers.len());
    while (i as u64) < c.n_layers
        invariant
            i <= c.n_layers <= w.layers@.len(),
            w.layers@.len() == w.layers.len(),
            ls == layer_models(w.layers@),
            c.n_heads * c.head_dim <= u64::MAX,
            c.n_kv_heads * c.head_dim <= u64::MAX,
            out@ == layers_steps(c@, ls, i as int),
        decreases c.n_layers - i,
    {
        push_layer_steps(&mut out, c, &w.layers[i], i as u64);
        i += 1;
    }
    out.push(Step::Advance);
    out.push(Step::Norm { buffer: Buffer::State, norm: NormSlot::Last });
    let (matrix, how) = if w.output_shared {
        (Slot::Embeddings, Product::Rows)
    } else if !w.output.numbers.is_empty() {
        (Slot::Output, Product::Rows)
    } else if w.output.raw.is_some() {
        (Slot::Output, choose_product(true, w.output.dtype, false))
    } else {
        (Slot::Embeddings, Product::Rows)
    };
    out.push(
        Step::Multiply {
            matrix,
            how,
            rows: c.vocab_size,
            cols: c.dim,
            from: Buffer::State,
            to: Buffer::Logits,
        },
    );
    assert(out@ =~= forward_steps(c@, w@));
    out
}

// ── Laws ────────────────────────────────────────────────────────────
/// The matrix is the one that the first of the names stands for that a tensor has: its
/// bytes are the tensor's, or none where the file does not have them, its type is the
/// tensor's, and its numbers are those of the bytes. Without such a tensor there are
/// neither bytes nor numbers.
pub open spec fn is_matrix_of(
    d: Seq<u8>,
    x: Seq<Descriptor>,
    names: Seq<Seq<char>>,
    m: Matrix,
) -> bool {
    ||| is_first_known(x, names, None) && m.raw is None && m.numbers.count() == 0
    ||| exists|n: Seq<char>| #[trigger]
        is_first_known(x, names, Some(n)) && m.raw is Some && dtype_in(x, n) == Some(m.dtype)
            && m.numbers == numbers_of(m.raw->0, m.dtype) && m.raw->0 == match whole_tensor(
            d,
            x,
            n,
        ) {
            Ok(b) => b,
            Err(_) => Seq::empty(),
        }
}

/// The norm is the one that the first of the names stands for that a tensor has, or a
/// one for every number where there is none or the file does not have its bytes.
pub open spec fn is_norm_of(
    d: Seq<u8>,
    x: Seq<Descriptor>,
    names: Seq<Seq<char>>,
    m: NormModel,
) -> bool {
    ||| is_first_known(x, names, None) && m is Ones
    ||| exists|n: Seq<char>| #[trigger]
        is_first_known(x, names, Some(n)) && m == match whole_tensor(d, x, n) {
            Ok(b) => NormModel::Loaded(numbers_of(b, dtype_in(x, n)->0)),
            Err(_) => NormModel::Ones,
        }
}

proof fn lemma_matrix_under(d: Seq<u8>, x: Seq<Descriptor>, names: Seq<Seq<char>>)
    ensures
        is_matrix_of(d, x, names, matrix_under(d, x, names)),
        is_norm_of(d, x, names, norm_under(d, x, names)),
{
    lemma_first_known(x, names, 0);
}

/// Every weight of a layer is the tensor with its own name in the layer, by the names
/// of GGUF files or else by those of others.
pub proof fn lemma_layer_weights(d: Seq<u8>, x: Seq<Descriptor>, layer: u64)
    ensures
        ({
            let l = layer_of(d, x, layer);
            let n = decimal_text(layer as nat);
            let b = "blk."@ + n;
            &&& is_matrix_of(
                d,
                x,
                seq![
                    b + ".attn_q.weight"@,
                    b + ".self_attn.q_proj.weight"@,
                    "model.layers."@ + n + ".self_attn.q_proj.weight"@,
                ],
                l.wq,
            )
            &&& is_matrix_of(d, x, seq![b + ".attn_k.weight"@, b + ".self_attn.k_proj.weight"@], l.wk)
            &&& is_matrix_of(d, x, seq![b + ".attn_v.weight"@, b + ".self_attn.v_proj.weight"@], l.wv)
            &&& is_matrix_of(d, x, seq![b + ".attn_output.weight"@, b + ".self_attn.o_proj.weight"@], l.wo)
            &&& is_matrix_of(d, x, seq![b + ".ffn_gate.weight"@, b + ".mlp.gate_proj.weight"@], l.w1)
            &&& is_matrix_of(d, x, seq![b + ".ffn_down.weight"@, b + ".mlp.down_proj.weight"@], l.w2)
            &&& is_matrix_of(d, x, seq![b + ".ffn_up.weight"@, b + ".mlp.up_proj.weight"@], l.w3)
            &&& is_norm_of(
                d,
                x,
                seq![b + ".attn_norm.weight"@, b + ".input_layernorm.weight"@],
                l.attention_norm,
            )
            &&& is_norm_of(
                d,
                x,
                seq![b + ".ffn_norm.weight"@, b + ".post_attention_layernorm.weight"@],
                l.ffn_norm,
            )
        }),
{
    lemma_matrix_under(d, x, query_names(layer));
    lemma_matrix_under(
        d,
        x,
        two_names(layer, ".attn_norm.weight"@, ".input_layernorm.weight"@),
    );
    lemma_matrix_under(
        d,
        x,
        two_names(layer, ".ffn_norm.weight"@, ".post_attention_layernorm.weight"@),
    );
    lemma_matrix_under(d, x, two_names(layer, ".attn_k.weight"@, ".self_attn.k_proj.weight"@));
    lemma_matrix_under(d, x, two_names(layer, ".attn_v.weight"@, ".self_attn.v_proj.weight"@));
    lemma_matrix_under(d, x, two_names(layer, ".attn_output.weight"@, ".self_attn.o_proj.weight"@));
    lemma_matrix_under(d, x, two_names(layer, ".ffn_gate.weight"@, ".mlp.gate_proj.weight"@));
    lemma_matrix_under(d, x, two_names(layer, ".ffn_down.weight"@, ".mlp.down_proj.weight"@));
    lemma_matrix_under(d, x, two_names(layer, ".ffn_up.weight"@, ".mlp.up_proj.weight"@));
}

/// The weights of a model that was loaded: embeddings with a number for every token
/// and every dimension, a layer for each that is configured, and the last norm and the
/// output projection, each under the first of its names that a tensor has. The
/// embeddings serve as the output projection where a model has no numbers for it under
/// its usual names.
pub proof fn lemma_weights(d: Seq<u8>, x: Seq<Descriptor>, c: Config, w: WeightsModel)
    requires
        weights_of(d, x, c) == Ok::<WeightsModel, Seq<char>>(w),
    ensures
        is_matrix_of(
            d,
            x,
            seq![
                "token_embd.weight"@,
                "model.embed_tokens.weight"@,
                "gpt_neox.embed_in.weight"@,
                "wte.weight"@,
            ],
            w.embeddings,
        ),
        w.embeddings.numbers.count() == c.vocab_size * c.dim,
        is_matrix_of(
            d,
            x,
            seq!["output.weight"@, "lm_head.weight"@, "embed_out.weight"@],
            w.output,
        ),
        is_norm_of(
            d,
            x,
            seq![
                "output_norm.weight"@,
                "model.norm.weight"@,
                "gpt_neox.final_layer_norm.weight"@,
                "ln_f.weight"@,
                "norm.weight"@,
                "token_embd_norm.weight"@,
            ],
            w.norm,
        ),
        w.layers.len() == c.n_layers,
        forall|i: int| 0 <= i < w.layers.len() ==> #[trigger] w.layers[i] == layer_of(d, x, i as u64),
        w.output_shared <==> (w.output.numbers.count() == 0 || (!known(x, "output.weight"@) && !known(
            x,
            "lm_head.weight"@,
        ))),
{
    lemma_first_known(x, embedding_candidates(), 0);
    lemma_first_known(x, output_candidates(), 0);
    lemma_first_known(x, norm_candidates(), 0);
}

/// A layer adds two rows to the state `x` and changes it in no other way. The first
/// is what attention gives: the query of the normed state is scored over the stored
/// keys, and the stored values are mixed by the probabilities of the scores. The
/// second is the down projection of the activated gate times the up projection, both
/// of the normed sum of the state and the first. The layer stores the rotated key
/// projection and the value projection of the normed state under its own number.
pub proof fn lemma_layer<V>(o: Operations<V>, c: Config, l: LayerModel, i: u64, m: Machine<V>)
    requires
        !m.skipping,
        c.n_heads * c.head_dim <= u64::MAX,
        c.n_kv_heads * c.head_dim <= u64::MAX,
    ensures
        ({
            let r = run(o, layer_steps(c, l, i), m);
            let x = m.rows[Buffer::State];
            let heads = Heads {
                heads: c.n_heads,
                kv_heads: c.n_kv_heads,
                head_dim: c.head_dim,
                full: c.head_dim,
            };
            let q_len = (c.n_heads * c.head_dim) as u64;
            let kv_len = (c.n_kv_heads * c.head_dim) as u64;
            let how = |w: Matrix, columns: bool| product_for(w.raw is Some, l.wq.dtype, columns);
            let n = (o.norm)(i, NormSlot::Attention, x);
            let query = (o.rotate)(
                c.n_heads,
                c.head_dim,
                (o.multiply)(i, Slot::Query, how(l.wq, false), q_len, c.dim, n),
            );
            let key = (o.rotate)(
                c.n_kv_heads,
                c.head_dim,
                (o.multiply)(i, Slot::Key, how(l.wk, false), kv_len, c.dim, n),
            );
            let value = (o.multiply)(i, Slot::Value, how(l.wv, false), kv_len, c.dim, n);
            let seen = (o.softmax)(c.n_heads, (o.score)(i, heads, query, key));
            let a = (o.multiply)(
                i,
                Slot::AttentionOutput,
                how(l.wo, true),
                c.dim,
                q_len,
                (o.mix)(i, heads, seen, value),
            );
            let y = (o.sum)(x, a);
            let f = (o.norm)(i, NormSlot::FeedForward, y);
            let gate = (o.multiply)(i, Slot::Gate, how(l.w1, false), c.hidden_dim, c.dim, f);
            let up = (o.multiply)(i, Slot::Up, how(l.w3, false), c.hidden_dim, c.dim, f);
            let b = (o.multiply)(
                i,
                Slot::Down,
                how(l.w2, true),
                c.dim,
                c.hidden_dim,
                (o.times)((o.activate)(gate), up),
            );
            &&& r.rows[Buffer::State] == (o.sum)(y, b)
            &&& r.stored == m.stored.insert(i, (key, value))
            &&& r.positions == m.positions
            &&& r.layer == i
            &&& !r.skipping
        }),
{
    let s = layer_steps(c, l, i);
    assert(s.len() == 22);
    assert(after_steps(o, s, 0, m) == m);
    let m1 = after_step(o, s[0], m);
    assert(after_steps(o, s, 1, m) == m1);
    let m2 = after_step(o, s[1], m1);
    assert(after_steps(o, s, 2, m) == m2);
    let m3 = after_step(o, s[2], m2);
    assert(after_steps(o, s, 3, m) == m3);
    let m4 = after_step(o, s[3], m3);
    assert(after_steps(o, s, 4, m) == m4);
    let m5 = after_step(o, s[4], m4);
    assert(after_steps(o, s, 5, m) == m5);
    let m6 = after_step(o, s[5], m5);
    assert(after_steps(o, s, 6, m) == m6);
    let m7 = after_step(o, s[6], m6);
    assert(after_steps(o, s, 7, m) == m7);
    let m8 = after_step(o, s[7], m7);
    assert(after_steps(o, s, 8, m) == m8);
    let m9 = after_step(o, s[8], m8);
    assert(after_steps(o, s, 9, m) == m9);
    let m10 = after_step(o, s[9], m9);
    assert(after_steps(o, s, 10, m) == m10);
    let m11 = after_step(o, s[10], m10);
    assert(after_steps(o, s, 11, m) == m11);
    let m12 = after_step(o, s[11], m11);
    assert(after_steps(o, s, 12, m) == m12);
    let m13 = after_step(o, s[12], m12);
    assert(after_steps(o, s, 13, m) == m13);
    let m14 = after_step(o, s[13], m13);
    assert(after_steps(o, s, 14, m) == m14);
    let m15 = after_step(o, s[14], m14);
    assert(after_steps(o, s, 15, m) == m15);
    let m16 = after_step(o, s[15], m15);
    assert(after_steps(o, s, 16, m) == m16);
    let m17 = after_step(o, s[16], m16);
    assert(after_steps(o, s, 17, m) == m17);
    let m18 = after_step(o, s[17], m17);
    assert(after_steps(o, s, 18, m) == m18);
    let m19 = after_step(o, s[18], m18);
    assert(after_steps(o, s, 19, m) == m19);
    let m20 = after_step(o, s[19], m19);
    assert(after_steps(o, s, 20, m) == m20);
    let m21 = after_step(o, s[20], m20);
    assert(after_steps(o, s, 21, m) == m21);
    let m22 = after_step(o, s[21], m21);
    assert(after_steps(o, s, 22, m) == m22);
}

/// With projections back to the state that give zero, a layer leaves the state as
/// it is.
pub proof fn lemma_idle_layer<V>(
    o: Operations<V>,
    c: Config,
    l: LayerModel,
    i: u64,
    m: Machine<V>,
    zero: V,
)
    requires
        !m.skipping,
        c.n_heads * c.head_dim <= u64::MAX,
        c.n_kv_heads * c.head_dim <= u64::MAX,
        forall|x: V| #[trigger] (o.sum)(x, zero) == x,
        forall|how: Product, rows: u64, cols: u64, x: V|
            #[trigger] (o.multiply)(i, Slot::AttentionOutput, how, rows, cols, x) == zero,
        forall|how: Product, rows: u64, cols: u64, x: V|
            #[trigger] (o.multiply)(i, Slot::Down, how, rows, cols, x) == zero,
    ensures
        run(o, layer_steps(c, l, i), m).rows[Buffer::State] == m.rows[Buffer::State],
{
    lemma_layer(o, c, l, i, m);
}

/// Within a layer, nothing is done to the state but adding to it.
pub proof fn lemma_state_is_added_to(c: Config, l: LayerModel, i: u64, k: int)
    requires
        0 <= k < layer_steps(c, l, i).len(),
        written(layer_steps(c, l, i)[k]) == Some(Buffer::State),
    ensures
        layer_steps(c, l, i)[k] is Add,
{
    let s = layer_steps(c, l, i);
    assert(s.len() == 22);
}

/// A layer multiplies each of its seven matrices once, and no other.
pub proof fn lemma_layer_uses(c: Config, l: LayerModel, i: u64, slot: Slot)
    ensures
        uses(layer_steps(c, l, i), slot) == (match slot {
            Slot::Query => 1nat,
            Slot::Key => 1,
            Slot::Value => 1,
            Slot::AttentionOutput => 1,
            Slot::Gate => 1,
            Slot::Up => 1,
            Slot::Down => 1,
            _ => 0,
        }),
{
    let s = layer_steps(c, l, i);
    assert(s.take(0) =~= Seq::empty());
    lemma_uses_step(s, slot, 0);
    lemma_uses_step(s, slot, 1);
    lemma_uses_step(s, slot, 2);
    lemma_uses_step(s, slot, 3);
    lemma_uses_step(s, slot, 4);
    lemma_uses_step(s, slot, 5);
    lemma_uses_step(s, slot, 6);
    lemma_uses_step(s, slot, 7);
    lemma_uses_step(s, slot, 8);
    lemma_uses_step(s, slot, 9);
    lemma_uses_step(s, slot, 10);
    lemma_uses_step(s, slot, 11);
    lemma_uses_step(s, slot, 12);
    lemma_uses_step(s, slot, 13);
    lemma_uses_step(s, slot, 14);
    lemma_uses_step(s, slot, 15);
    lemma_uses_step(s, slot, 16);
    lemma_uses_step(s, slot, 17);
    lemma_uses_step(s, slot, 18);
    lemma_uses_step(s, slot, 19);
    lemma_uses_step(s, slot, 20);
    lemma_uses_step(s, slot, 21);
    assert(s.take(22) =~= s);
}

/// Layers work one behind the other, each with its own weights, on what the one
/// before it left.
pub proof fn lemma_layers<V>(
    o: Operations<V>,
    c: Config,
    ls: Seq<LayerModel>,
    k: int,
    m: Machine<V>,
)
    requires
        0 <= k <= u64::MAX,
    ensures
        run(o, layers_steps(c, ls, 0), m) == m,
        run(o, layers_steps(c, ls, k + 1), m) == run(
            o,
            layer_steps(c, ls[k], k as u64),
            run(o, layers_steps(c, ls, k), m),
        ),
{
    lemma_run_on(o, layers_steps(c, ls, k), layer_steps(c, ls[k], k as u64), m);
}

/// A forward pass runs every layer, counts the position once, and scores the tokens
/// by the last norm of the state that the layers left: with the embeddings where the
/// output shares them or there is no output projection, else with that.
pub proof fn lemma_forward<V>(o: Operations<V>, c: Config, w: WeightsModel, m: Machine<V>)
    requires
        !m.skipping,
        c.n_heads * c.head_dim <= u64::MAX,
        c.n_kv_heads * c.head_dim <= u64::MAX,
    ensures
        ({
            let s = run(o, layers_steps(c, w.layers, c.n_layers as int), m);
            let r = run(o, forward_steps(c, w), m);
            let x = (o.norm)(s.layer, NormSlot::Last, s.rows[Buffer::State]);
            let none = w.output.numbers.count() == 0;
            let scores = |slot: Slot, how: Product|
                (o.multiply)(s.layer, slot, how, c.vocab_size, c.dim, x);
            &&& r.rows[Buffer::State] == x
            &&& w.output_shared || (none && w.output.raw is None) ==> r.rows[Buffer::Logits]
                == scores(Slot::Embeddings, Product::Rows)
            &&& !w.output_shared && !none ==> r.rows[Buffer::Logits] == scores(
                Slot::Output,
                Product::Rows,
            )
            &&& !w.output_shared && none && w.output.raw is Some ==> r.rows[Buffer::Logits]
                == scores(Slot::Output, product_for(true, w.output.dtype, false))
            &&& r.stored == s.stored
            &&& r.positions == m.positions + 1
        }),
{
    let n = c.n_layers as int;
    let last = seq![
        Step::Advance,
        Step::Norm { buffer: Buffer::State, norm: NormSlot::Last },
        logits_step(c, w),
    ];
    let s = run(o, layers_steps(c, w.layers, n), m);
    lemma_run_on(o, layers_steps(c, w.layers, n), last, m);
    lemma_layers_keep(o, c, w.layers, n, m);
    assert(after_steps(o, last, 0, s) == s);
    let m1 = after_step(o, last[0], s);
    let m2 = after_step(o, last[1], m1);
    assert(after_steps(o, last, 1, s) == m1);
    assert(after_steps(o, last, 2, s) == m2);
    assert(run(o, last, s) == after_step(o, last[2], m2));
}

/// Layers count no position, and every one of them stores its key and value.
pub proof fn lemma_layers_keep<V>(
    o: Operations<V>,
    c: Config,
    ls: Seq<LayerModel>,
    k: int,
    m: Machine<V>,
)
    requires
        !m.skipping,
        0 <= k <= u64::MAX,
        c.n_heads * c.head_dim <= u64::MAX,
        c.n_kv_heads * c.head_dim <= u64::MAX,
    ensures
        ({
            let r = run(o, layers_steps(c, ls, k), m);
            &&& !r.skipping
            &&& r.positions == m.positions
            &&& forall|i: u64| i < k ==> #[trigger] r.stored.dom().contains(i)
            &&& forall|i: u64| i >= k ==> #[trigger] r.stored[i] == m.stored[i]
        }),
    decreases k,
{
    if k > 0 {
        lemma_layers_keep(o, c, ls, k - 1, m);
        lemma_layers(o, c, ls, k - 1, m);
        lemma_layer(o, c, ls[k - 1], (k - 1) as u64, run(o, layers_steps(c, ls, k - 1), m));
    }
}

/// Every matrix and every norm of a layer stands in the field with its name.
pub proof fn lemma_layer_fields(w: TransformerLayerWeights)
    ensures
        w@.wq == w.wq@,
        w@.wk == w.wk@,
        w@.wv == w.wv@,
        w@.wo == w.wo@,
        w@.w1 == w.w1@,
        w@.w2 == w.w2@,
        w@.w3 == w.w3@,
        w@.attention_norm == w.attention_norm@,
        w@.ffn_norm == w.ffn_norm@,
{
}

/// Every weight of a model stands in the field with its name.
pub proof fn lemma_weights_fields(w: ModelWeights)
    ensures
        w@.embeddings == w.embeddings@,
        w@.norm == w.norm@,
        w@.output == w.output@,
        w@.output_shared == w.output_shared,
        w@.layers.len() == w.layers@.len(),
        forall|i: int| 0 <= i < w.layers@.len() ==> w@.layers[i] == (#[trigger] w.layers@[i])@,
{
}

/// A model whose embeddings are not a number for every token and every dimension is
/// refused, with both counts. Embeddings, an output projection or a last norm of which the
/// file does not have the bytes are refused as such.
pub proof fn lemma_weights_refused(d: Seq<u8>, x: Seq<Descriptor>, c: Config)
    ensures
        ({
            let e = flexible(d, x, embedding_candidates());
            let count = e->Ok_0.numbers.count();
            let wanted = c.vocab_size * c.dim;
            &&& e is Ok && count != wanted && wanted <= u64::MAX && count <= u64::MAX
                ==> weights_of(d, x, c) == Err::<WeightsModel, Seq<char>>(
                "token embeddings size mismatch: expected "@ + decimal_text(wanted as nat)
                    + " elements, got "@ + decimal_text(count as nat),
            )
            &&& e matches Err(m) ==> weights_of(d, x, c) == Err::<WeightsModel, Seq<char>>(m)
            &&& e is Ok && count == wanted && flexible(d, x, output_candidates()) is Err
                ==> weights_of(d, x, c) == Err::<WeightsModel, Seq<char>>(
                flexible(d, x, output_candidates())->Err_0,
            )
            &&& e is Ok && count == wanted && flexible(d, x, output_candidates()) is Ok
                && flexible_norm(d, x, norm_candidates()) is Err ==> weights_of(d, x, c) == Err::<
                WeightsModel,
                Seq<char>,
            >(flexible_norm(d, x, norm_candidates())->Err_0)
        }),
{
}

} // verus!

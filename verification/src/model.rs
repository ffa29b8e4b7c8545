//! A model's configuration and its tensors by their logical names.
use vstd::prelude::*;

use crate::container::{lemma_find_name, open_file, Opened};
use crate::descriptor::Descriptor;
use crate::dtype::{dequantize_tensor, numbers_of, Dequantized, Numbers};
use crate::error::{clamp, clamp_u64, eof, failure_text, Failure};
use crate::json::{entry_models, object_find, object_get, text_of, uint_of, Json, JsonValue};
use crate::runtime::{after_read, facts_of, whole_tensor, AxonRuntime};
use crate::stats::RuntimeStats;
use crate::tensor::DType;
use crate::text::{
    concat2, concat4, concat5, decimal, decimal_text, number_of, parse_number, str_eq, texts,
};

verus! {

// ── Configuration ───────────────────────────────────────────────────
/// A number of a manifest: a count, a negative integer, or a fraction by its
/// bits.
#[derive(Clone, Copy, Debug, PartialEq, Eq, Structural)]
pub enum Number {
    /// A count.
    UInt(u64),
    /// A negative integer.
    Int(i64),
    /// A fraction, by the bits of its double-precision form.
    Float(u64),
}

/// The number that a value holds, or the fraction with the given bits.
pub open spec fn number_or(v: Option<Json>, bits: u64) -> Number {
    match v {
        Some(Json::UInt(n)) => Number::UInt(n),
        Some(Json::Int(n)) => Number::Int(n),
        Some(Json::Float(b)) => Number::Float(b),
        _ => Number::Float(bits),
    }
}

/// The count that a value holds, as a number or as a text that spells one.
pub open spec fn count_of(v: Option<Json>) -> Option<u64> {
    match uint_of(v) {
        Some(n) => Some(n),
        None => match text_of(v) {
            Some(s) => number_of(s),
            None => None,
        },
    }
}

/// The count under the first of the keys, from the `k`th on, that holds one.
pub open spec fn count_under(
    o: Seq<(Seq<char>, Json)>,
    keys: Seq<Seq<char>>,
    k: int,
    default: u64,
) -> u64
    decreases keys.len() - k,
{
    if k >= keys.len() {
        default
    } else {
        match count_of(object_get(o, keys[k])) {
            Some(n) => n,
            None => count_under(o, keys, k + 1, default),
        }
    }
}

/// The value under the first of the keys, from the `k`th on, that is there.
pub open spec fn first_under(o: Seq<(Seq<char>, Json)>, keys: Seq<Seq<char>>, k: int) -> Option<
    Json,
>
    decreases keys.len() - k,
{
    if k >= keys.len() {
        None
    } else {
        match object_get(o, keys[k]) {
            Some(v) => Some(v),
            None => first_under(o, keys, k + 1),
        }
    }
}

/// The number that a value holds, or the fraction with the given bits.
pub fn to_number(v: Option<&JsonValue>, bits: u64) -> (r: Number)
    ensures
        r == number_or(
            match v {
                Some(j) => Some(j@),
                None => None,
            },
            bits,
        ),
{
    match v {
        Some(JsonValue::UInt(n)) => Number::UInt(*n),
        Some(JsonValue::Int(n)) => Number::Int(*n),
        Some(JsonValue::Float(b)) => Number::Float(*b),
        _ => Number::Float(bits),
    }
}

/// The count under a key, as a number or as a text that spells one.
pub fn find_count(o: &Vec<(String, JsonValue)>, key: &str) -> (r: Option<u64>)
    ensures
        r == count_of(object_get(entry_models(o@), key@)),
{
    match object_find(o, key) {
        None => None,
        Some(v) => match v.as_u64() {
            Some(n) => Some(n),
            None => match v.as_str() {
                Some(s) => parse_number(s),
                None => None,
            },
        },
    }
}

/// The texts of a row of string slices.
pub open spec fn slices(v: Seq<&str>) -> Seq<Seq<char>> {
    Seq::new(v.len(), |i: int| v[i]@)
}

fn get_count(o: &Vec<(String, JsonValue)>, keys: &Vec<&str>, default: u64) -> (r: u64)
    ensures
        r == count_under(entry_models(o@), slices(keys@), 0, default),
{
    let mut i: usize = 0;
    while i < keys.len()
        invariant
            i <= keys@.len(),
            count_under(entry_models(o@), slices(keys@), 0, default) == count_under(
                entry_models(o@),
                slices(keys@),
                i as int,
                default,
            ),
        decreases keys@.len() - i,
    {
        assert(slices(keys@)[i as int] == keys@[i as int]@);
        if let Some(n) = find_count(o, keys[i]) {
            return n;
        }
        i += 1;
    }
    default
}

fn get_first<'b>(o: &'b Vec<(String, JsonValue)>, keys: &Vec<&str>) -> (r: Option<&'b JsonValue>)
    ensures
        match r {
            Some(v) => first_under(entry_models(o@), slices(keys@), 0) == Some(v@),
            None => first_under(entry_models(o@), slices(keys@), 0) is None,
        },
{
    let mut i: usize = 0;
    while i < keys.len()
        invariant
            i <= keys@.len(),
            first_under(entry_models(o@), slices(keys@), 0) == first_under(
                entry_models(o@),
                slices(keys@),
                i as int,
            ),
        decreases keys@.len() - i,
    {
        assert(slices(keys@)[i as int] == keys@[i as int]@);
        if let Some(v) = object_find(o, keys[i]) {
            return Some(v);
        }
        i += 1;
    }
    None
}

/// A model's configuration.
#[verifier::ext_equal]
pub struct Config {
    pub architecture: Seq<char>,
    pub n_layers: u64,
    pub dim: u64,
    pub n_heads: u64,
    pub n_kv_heads: u64,
    pub hidden_dim: u64,
    pub vocab_size: u64,
    pub ctx_len: u64,
    pub head_dim: u64,
    pub norm_eps: Number,
    pub use_rope: bool,
}

/// The bits of one hundred-thousandth.
pub const DEFAULT_NORM_EPS: u64 = 0x3ee4_f8b5_88e3_68f1;

/// The configuration that a manifest's hyperparameters state. Each entry goes by
/// several names, and has a default where there is one.
pub open spec fn config_of(architecture: Seq<char>, o: Seq<(Seq<char>, Json)>) -> Result<
    Config,
    Seq<char>,
> {
    let n_layers = count_under(
        o,
        seq!["block_count"@, "n_layer"@, "num_hidden_layers"@, "n_layers"@],
        0,
        0,
    );
    let dim = count_under(
        o,
        seq!["embedding_length"@, "n_embd"@, "hidden_size"@, "d_model"@, "dim"@],
        0,
        0,
    );
    let n_heads = count_under(
        o,
        seq!["attention.head_count"@, "n_head"@, "num_attention_heads"@, "n_heads"@],
        0,
        0,
    );
    let n_kv_heads = count_under(
        o,
        seq!["attention.head_count_kv"@, "n_head_kv"@, "num_key_value_heads"@, "n_kv_heads"@],
        0,
        n_heads,
    );
    let hidden_dim = count_under(
        o,
        seq!["feed_forward_length"@, "n_ff"@, "intermediate_size"@, "hidden_dim"@],
        0,
        clamp_u64(dim * 4),
    );
    let vocab_size = count_under(o, seq!["vocab_size"@, "vocabulary_size"@, "n_vocab"@], 0, 32000);
    let ctx_len = count_under(
        o,
        seq!["context_length"@, "n_ctx"@, "max_position_embeddings"@, "seq_len"@],
        0,
        4096,
    );
    let norm_eps = number_or(
        first_under(
            o,
            seq![
                "attention.layer_norm_rms_epsilon"@,
                "rms_norm_eps"@,
                "layer_norm_epsilon"@,
                "norm_epsilon"@,
            ],
            0,
        ),
        DEFAULT_NORM_EPS,
    );
    if n_heads == 0 {
        Err("model has no attention heads"@)
    } else {
        Ok(
            Config {
                architecture,
                n_layers,
                dim,
                n_heads,
                n_kv_heads,
                hidden_dim,
                vocab_size,
                ctx_len,
                head_dim: dim / n_heads,
                norm_eps,
                use_rope: true,
            },
        )
    }
}

/// A model's configuration.
#[derive(Debug)]
pub struct ModelConfig {
    /// The architecture.
    pub architecture: String,
    /// The number of layers.
    pub n_layers: u64,
    /// The numbers of a token's state.
    pub dim: u64,
    /// The number of heads that ask.
    pub n_heads: u64,
    /// The number of heads that keys and values have.
    pub n_kv_heads: u64,
    /// The numbers between the two halves of a feed-forward step.
    pub hidden_dim: u64,
    /// The number of tokens.
    pub vocab_size: u64,
    /// The longest context.
    pub ctx_len: u64,
    /// The numbers of a head.
    pub head_dim: u64,
    /// What keeps a norm from dividing by zero.
    pub norm_eps: Number,
    /// Whether positions are encoded by rotation.
    pub use_rope: bool,
}

impl View for ModelConfig {
    type V = Config;

    open spec fn view(&self) -> Config {
        Config {
            architecture: self.architecture@,
            n_layers: self.n_layers,
            dim: self.dim,
            n_heads: self.n_heads,
            n_kv_heads: self.n_kv_heads,
            hidden_dim: self.hidden_dim,
            vocab_size: self.vocab_size,
            ctx_len: self.ctx_len,
            head_dim: self.head_dim,
            norm_eps: self.norm_eps,
            use_rope: self.use_rope,
        }
    }
}

/// The name of an architecture, empty where a manifest has none.
pub open spec fn architecture_of(o: Opened) -> Seq<char> {
    match o.manifest.architecture {
        Some(s) => s,
        None => ""@,
    }
}

fn key_list3<'b>(a: &'b str, b: &'b str, c: &'b str) -> (r: Vec<&'b str>)
    ensures
        slices(r@) == seq![a@, b@, c@],
{
    let mut v: Vec<&str> = Vec::new();
    v.push(a);
    v.push(b);
    v.push(c);
    assert(slices(v@) =~= seq![a@, b@, c@]);
    v
}

fn key_list4<'b>(a: &'b str, b: &'b str, c: &'b str, d: &'b str) -> (r: Vec<&'b str>)
    ensures
        slices(r@) == seq![a@, b@, c@, d@],
{
    let mut v: Vec<&str> = Vec::new();
    v.push(a);
    v.push(b);
    v.push(c);
    v.push(d);
    assert(slices(v@) =~= seq![a@, b@, c@, d@]);
    v
}

fn key_list5<'b>(a: &'b str, b: &'b str, c: &'b str, d: &'b str, e: &'b str) -> (r: Vec<&'b str>)
    ensures
        slices(r@) == seq![a@, b@, c@, d@, e@],
{
    let mut v: Vec<&str> = Vec::new();
    v.push(a);
    v.push(b);
    v.push(c);
    v.push(d);
    v.push(e);
    assert(slices(v@) =~= seq![a@, b@, c@, d@, e@]);
    v
}

impl ModelConfig {
    /// The configuration that a file's manifest states.
    pub fn from_runtime(rt: &AxonRuntime) -> (r: Result<ModelConfig, String>)
        ensures
            match r {
                Ok(c) => config_of(
                    architecture_of(rt.opened()),
                    rt.opened().manifest.hyperparameters,
                ) == Ok::<Config, Seq<char>>(c@),
                Err(e) => config_of(
                    architecture_of(rt.opened()),
                    rt.opened().manifest.hyperparameters,
                ) == Err::<Config, Seq<char>>(e@),
            },
    {
        let o = &rt.manifest().hyperparameters;
        let n_layers = get_count(
            o,
            &key_list4("block_count", "n_layer", "num_hidden_layers", "n_layers"),
            0,
        );
        let dim = get_count(
            o,
            &key_list5("embedding_length", "n_embd", "hidden_size", "d_model", "dim"),
            0,
        );
        let n_heads = get_count(
            o,
            &key_list4("attention.head_count", "n_head", "num_attention_heads", "n_heads"),
            0,
        );
        let n_kv_heads = get_count(
            o,
            &key_list4(
                "attention.head_count_kv",
                "n_head_kv",
                "num_key_value_heads",
                "n_kv_heads",
            ),
            n_heads,
        );
        let hidden_dim = get_count(
            o,
            &key_list4("feed_forward_length", "n_ff", "intermediate_size", "hidden_dim"),
            clamp(dim as u128 * 4),
        );
        let vocab_size = get_count(
            o,
            &key_list3("vocab_size", "vocabulary_size", "n_vocab"),
            32000,
        );
        let ctx_len = get_count(
            o,
            &key_list4("context_length", "n_ctx", "max_position_embeddings", "seq_len"),
            4096,
        );
        let norm_eps = to_number(
            get_first(
                o,
                &key_list4(
                    "attention.layer_norm_rms_epsilon",
                    "rms_norm_eps",
                    "layer_norm_epsilon",
                    "norm_epsilon",
                ),
            ),
            DEFAULT_NORM_EPS,
        );
        if n_heads == 0 {
            return Err("model has no attention heads".to_owned());
        }
        Ok(
            ModelConfig {
                architecture: rt.architecture().to_owned(),
                n_layers,
                dim,
                n_heads,
                n_kv_heads,
                hidden_dim,
                vocab_size,
                ctx_len,
                head_dim: dim / n_heads,
                norm_eps,
                use_rope: true,
            },
        )
    }

    /// What the names of a layer's tensors begin with.
    pub fn layer_prefix(&self, layer: u64) -> (r: String)
        ensures
            r@ == prefix_of(layer),
    {
        concat2("blk.", decimal(layer).as_str())
    }
}

/// What the names of a layer's tensors begin with.
pub open spec fn prefix_of(layer: u64) -> Seq<char> {
    "blk."@ + decimal_text(layer as nat)
}

// ── Tensors by logical name ─────────────────────────────────────────
/// The type of the last of the first `k` tensors that has the name.
pub open spec fn last_dtype(x: Seq<Descriptor>, name: Seq<char>, k: int) -> Option<DType>
    decreases k,
{
    if k <= 0 {
        None
    } else if x[k - 1].name == name {
        Some(x[k - 1].dtype)
    } else {
        last_dtype(x, name, k - 1)
    }
}

/// The type of the tensor with the name, of the last where several have it.
pub open spec fn dtype_in(x: Seq<Descriptor>, name: Seq<char>) -> Option<DType> {
    last_dtype(x, name, x.len() as int)
}

/// Whether some tensor has the name.
pub open spec fn known(x: Seq<Descriptor>, name: Seq<char>) -> bool {
    dtype_in(x, name) is Some
}

/// The bytes of the tensor with the name, or why there are none.
pub open spec fn raw_of(d: Seq<u8>, x: Seq<Descriptor>, name: Seq<char>) -> Result<
    Seq<u8>,
    Seq<char>,
> {
    match whole_tensor(d, x, name) {
        Ok(b) => Ok(b),
        Err(e) => Err("tensor '"@ + name + "' not found: "@ + failure_text(e)),
    }
}

/// The numbers of the tensor with the name, or why there are none.
pub open spec fn numbers_named(d: Seq<u8>, x: Seq<Descriptor>, name: Seq<char>) -> Result<
    Numbers,
    Seq<char>,
> {
    match raw_of(d, x, name) {
        Err(e) => Err(e),
        Ok(b) => Ok(
            numbers_of(
                b,
                match dtype_in(x, name) {
                    Some(t) => t,
                    None => DType::F32,
                },
            ),
        ),
    }
}

/// The short name of an attention projection.
pub open spec fn short_projection(proj: Seq<char>) -> Option<Seq<char>> {
    if proj == "attn_q"@ {
        Some("q"@)
    } else if proj == "attn_k"@ {
        Some("k"@)
    } else if proj == "attn_v"@ {
        Some("v"@)
    } else if proj == "attn_output"@ {
        Some("o"@)
    } else {
        None
    }
}

/// The tensor that holds a layer's projection: by one convention of naming, by
/// a second for the attention projections, or by a third.
pub open spec fn layer_weight_name(x: Seq<Descriptor>, layer: u64, proj: Seq<char>) -> Result<
    Seq<char>,
    Seq<char>,
> {
    let n = decimal_text(layer as nat);
    let first = "blk."@ + n + "."@ + proj + ".weight"@;
    if known(x, first) {
        Ok(first)
    } else {
        match short_projection(proj) {
            None => Err("unknown projection '"@ + proj + "' for layer "@ + n),
            Some(s) => {
                let second = "model.layers."@ + n + ".self_attn."@ + s + "_proj.weight"@;
                let third = "layers."@ + n + "."@ + proj;
                if known(x, second) {
                    Ok(second)
                } else if known(x, third) {
                    Ok(third)
                } else {
                    Err(
                        "weight not found: layer "@ + n + ", projection '"@ + proj + (
                        "' (tried: "@ + first + ", "@ + second + ")"@),
                    )
                }
            },
        }
    }
}

/// Whether a name asks for a standalone weight.
pub open spec fn asks_for(name: Seq<char>, logical: Seq<char>) -> bool {
    name == logical || name == logical + ".weight"@ || name == logical + "_weight"@
}

/// The first of the names, from the `k`th on, that a tensor has.
pub open spec fn first_known(x: Seq<Descriptor>, names: Seq<Seq<char>>, k: int) -> Option<Seq<char>>
    decreases names.len() - k,
{
    if k >= names.len() {
        None
    } else if known(x, names[k]) {
        Some(names[k])
    } else {
        first_known(x, names, k + 1)
    }
}

/// The names that a standalone weight goes by.
pub open spec fn embedding_names() -> Seq<Seq<char>> {
    seq![
        "token_embd.weight"@,
        "model.embed_tokens.weight"@,
        "gpt_neox.embed_in.weight"@,
        "wte.weight"@,
        "tok_embeddings.weight"@,
    ]
}

/// The names that the last norm goes by.
pub open spec fn norm_names() -> Seq<Seq<char>> {
    seq![
        "output_norm.weight"@,
        "model.norm.weight"@,
        "gpt_neox.final_layer_norm.weight"@,
        "ln_f.weight"@,
        "norm.weight"@,
    ]
}

/// The names that the output projection goes by.
pub open spec fn output_names() -> Seq<Seq<char>> {
    seq![
        "output.weight"@,
        "lm_head.weight"@,
        "embed_out.weight"@,
        "model.embed_tokens.weight"@,
    ]
}

/// The tensor that holds a standalone weight: by the names that it goes by, or
/// by its own.
pub open spec fn weight_name(x: Seq<Descriptor>, name: Seq<char>) -> Option<Seq<char>> {
    let by_names = if asks_for(name, "tok_embeddings"@) {
        first_known(x, embedding_names(), 0)
    } else if asks_for(name, "norm"@) {
        first_known(x, norm_names(), 0)
    } else if asks_for(name, "output"@) {
        first_known(x, output_names(), 0)
    } else {
        None
    };
    match by_names {
        Some(n) => Some(n),
        None => if known(x, name) {
            Some(name)
        } else {
            None
        },
    }
}

/// The text that `{:?}` writes for a list of strings.
pub uninterp spec fn debug_text(v: Seq<Seq<char>>) -> Seq<char>;

/// `format!` with `{:?}` on a list of strings. What the text looks like is left
/// unsaid but for its name.
#[verifier::external_body]
fn debug_list(v: &Vec<&str>) -> (r: String)
    ensures
        r@ == debug_text(slices(v@)),
{
    format!("{:?}", v)
}

/// The names of the tensors.
pub open spec fn names_of(x: Seq<Descriptor>) -> Seq<Seq<char>> {
    Seq::new(x.len(), |i: int| x[i].name)
}

/// The numbers of a standalone weight, or why there are none.
pub open spec fn weight_of(d: Seq<u8>, x: Seq<Descriptor>, name: Seq<char>) -> Result<
    Numbers,
    Seq<char>,
> {
    match weight_name(x, name) {
        Some(n) => numbers_named(d, x, n),
        None => Err(
            "standalone weight '"@ + name + "' not found (available tensors: "@ + debug_text(
                names_of(x),
            ) + ")"@,
        ),
    }
}

/// The numbers of a layer's projection, or why there are none.
pub open spec fn layer_weight_of(d: Seq<u8>, x: Seq<Descriptor>, layer: u64, proj: Seq<char>) -> Result<
    Numbers,
    Seq<char>,
> {
    match layer_weight_name(x, layer, proj) {
        Ok(n) => numbers_named(d, x, n),
        Err(e) => Err(e),
    }
}

/// What a result stands for.
pub open spec fn numbers_result(r: Result<Dequantized, String>) -> Result<Numbers, Seq<char>> {
    match r {
        Ok(n) => Ok(n@),
        Err(e) => Err(e@),
    }
}

/// A file with its configuration.
#[derive(Debug)]
pub struct LoadedModel<'a> {
    /// The configuration.
    pub config: ModelConfig,
    /// The file.
    pub rt: AxonRuntime<'a>,
}

impl<'a> LoadedModel<'a> {
    /// The bytes of the file.
    pub open spec fn bytes(self) -> Seq<u8> {
        self.rt.bytes()
    }

    /// The descriptors of the file.
    pub open spec fn descs(self) -> Seq<Descriptor> {
        self.rt.descs()
    }

    /// What is counted once the tensor with the name was read.
    pub open spec fn counts_after(self, name: Seq<char>) -> RuntimeStats {
        after_read(self.rt.counts(), self.bytes(), self.descs(), Some(name))
    }

    /// The same model, with other counts.
    pub open spec fn same_model(self, other: LoadedModel<'a>) -> bool {
        self.config == other.config && self.rt.same_file(other.rt)
    }

    /// The model that the mapped bytes of a file are.
    pub fn open(data: &'a [u8]) -> (r: Result<LoadedModel<'a>, String>)
        ensures
            match r {
                Ok(m) => open_file(data@) == Ok::<Opened, Failure>(m.rt.opened()) && m.rt.bytes()
                    == data@ && m.rt.counts() == RuntimeStats::zero() && config_of(
                    architecture_of(m.rt.opened()),
                    m.rt.opened().manifest.hyperparameters,
                ) == Ok::<Config, Seq<char>>(m.config@),
                Err(e) => match open_file(data@) {
                    Err(f) => e@ == "failed to open model: "@ + failure_text(f),
                    Ok(o) => config_of(architecture_of(o), o.manifest.hyperparameters) == Err::<
                        Config,
                        Seq<char>,
                    >(e@),
                },
            },
    {
        let rt = match AxonRuntime::open(data) {
            Ok(rt) => rt,
            Err(e) => return Err(concat2("failed to open model: ", e.message().as_str())),
        };
        let config = ModelConfig::from_runtime(&rt)?;
        Ok(LoadedModel { config, rt })
    }

    /// The type of the tensor with the name.
    pub fn dtype(&self, name: &str) -> (r: Option<DType>)
        ensures
            r == dtype_in(self.descs(), name@),
    {
        let infos = self.rt.tensors();
        let mut i: usize = infos.len();
        let ghost x = self.descs();
        while i > 0
            invariant
                i <= infos@.len(),
                infos@.len() == x.len(),
                x == self.descs(),
                forall|k: int|
                    0 <= k < infos@.len() ==> (#[trigger] infos@[k])@
                        == facts_of(x[k]),
                dtype_in(x, name@) == last_dtype(x, name@, i as int),
            decreases i,
        {
            assert(infos@[i - 1]@ == facts_of(x[i - 1]));
            if str_eq(infos[i - 1].name.as_str(), name) {
                return Some(infos[i - 1].dtype);
            }
            i -= 1;
        }
        None
    }

    /// Whether some tensor has the name.
    pub fn has_tensor(&self, name: &str) -> (r: bool)
        ensures
            r == known(self.descs(), name@),
    {
        self.dtype(name).is_some()
    }

    /// The bytes of a tensor.
    pub fn raw(&mut self, name: &str) -> (r: Result<Vec<u8>, String>)
        ensures
            final(self).same_model(*old(self)),
            match r {
                Ok(b) => raw_of(old(self).bytes(), old(self).descs(), name@) == Ok::<
                    Seq<u8>,
                    Seq<char>,
                >(b@) && final(self).rt.counts() == old(self).rt.counts().after_access(
                    b@.len() as u64,
                ),
                Err(e) => raw_of(old(self).bytes(), old(self).descs(), name@) == Err::<
                    Seq<u8>,
                    Seq<char>,
                >(e@) && final(self).rt.counts() == old(self).rt.counts(),
            },
    {
        match self.rt.tensor(name) {
            Ok(b) => Ok(b),
            Err(e) => Err(
                concat4("tensor '", name, "' not found: ", e.message().as_str()),
            ),
        }
    }

    /// The numbers of a tensor.
    pub fn numbers(&mut self, name: &str) -> (r: Result<Dequantized, String>)
        ensures
            final(self).same_model(*old(self)),
            numbers_result(r) == numbers_named(old(self).bytes(), old(self).descs(), name@),
            final(self).rt.counts() == old(self).counts_after(name@),
    {
        proof {
            reveal(after_read);
        }
        let raw = self.raw(name)?;
        let dtype = match self.dtype(name) {
            Some(t) => t,
            None => DType::F32,
        };
        Ok(dequantize_tensor(raw.as_slice(), dtype))
    }

    /// The numbers of a layer's projection.
    pub fn layer_weight(&mut self, layer: u64, proj: &str) -> (r: Result<Dequantized, String>)
        ensures
            final(self).same_model(*old(self)),
            numbers_result(r) == layer_weight_of(
                old(self).bytes(),
                old(self).descs(),
                layer,
                proj@,
            ),
            final(self).rt.counts() == match layer_weight_name(old(self).descs(), layer, proj@) {
                Ok(n) => old(self).counts_after(n),
                Err(_) => old(self).rt.counts(),
            },
    {
        let n = decimal(layer);
        let first = concat5("blk.", n.as_str(), ".", proj, ".weight");
        if self.has_tensor(first.as_str()) {
            return self.numbers(first.as_str());
        }
        let short = if str_eq(proj, "attn_q") {
            "q"
        } else if str_eq(proj, "attn_k") {
            "k"
        } else if str_eq(proj, "attn_v") {
            "v"
        } else if str_eq(proj, "attn_output") {
            "o"
        } else {
            return Err(concat4("unknown projection '", proj, "' for layer ", n.as_str()));
        };
        let second = concat5("model.layers.", n.as_str(), ".self_attn.", short, "_proj.weight");
        if self.has_tensor(second.as_str()) {
            return self.numbers(second.as_str());
        }
        let third = concat4("layers.", n.as_str(), ".", proj);
        if self.has_tensor(third.as_str()) {
            return self.numbers(third.as_str());
        }
        let tail = concat5("' (tried: ", first.as_str(), ", ", second.as_str(), ")");
        Err(
            concat5(
                "weight not found: layer ",
                n.as_str(),
                ", projection '",
                proj,
                tail.as_str(),
            ),
        )
    }

    fn first_of(&self, names: &Vec<&'static str>) -> (r: Option<&'static str>)
        ensures
            match r {
                Some(n) => first_known(self.descs(), slices(names@), 0) == Some(n@),
                None => first_known(self.descs(), slices(names@), 0) is None,
            },
    {
        let mut i: usize = 0;
        while i < names.len()
            invariant
                i <= names@.len(),
                first_known(self.descs(), slices(names@), 0) == first_known(
                    self.descs(),
                    slices(names@),
                    i as int,
                ),
            decreases names@.len() - i,
        {
            assert(slices(names@)[i as int] == names@[i as int]@);
            if self.has_tensor(names[i]) {
                return Some(names[i]);
            }
            i += 1;
        }
        None
    }

    /// The numbers of a standalone weight.
    pub fn weight(&mut self, name: &str) -> (r: Result<Dequantized, String>)
        ensures
            final(self).same_model(*old(self)),
            numbers_result(r) == weight_of(old(self).bytes(), old(self).descs(), name@),
            final(self).rt.counts() == match weight_name(old(self).descs(), name@) {
                Some(n) => old(self).counts_after(n),
                None => old(self).rt.counts(),
            },
    {
        let found = if is_asked(name, "tok_embeddings") {
            self.first_of(
                &key_list5(
                    "token_embd.weight",
                    "model.embed_tokens.weight",
                    "gpt_neox.embed_in.weight",
                    "wte.weight",
                    "tok_embeddings.weight",
                ),
            )
        } else if is_asked(name, "norm") {
            self.first_of(
                &key_list5(
                    "output_norm.weight",
                    "model.norm.weight",
                    "gpt_neox.final_layer_norm.weight",
                    "ln_f.weight",
                    "norm.weight",
                ),
            )
        } else if is_asked(name, "output") {
            self.first_of(
                &key_list4(
                    "output.weight",
                    "lm_head.weight",
                    "embed_out.weight",
                    "model.embed_tokens.weight",
                ),
            )
        } else {
            None
        };
        if let Some(n) = found {
            return self.numbers(n);
        }
        if self.has_tensor(name) {
            return self.numbers(name);
        }
        let names = self.rt.tensor_names();
        assert(slices(names@) =~= names_of(self.descs()));
        Err(
            concat5(
                "standalone weight '",
                name,
                "' not found (available tensors: ",
                debug_list(&names).as_str(),
                ")",
            ),
        )
    }

    /// The names of the tensors, in file order.
    pub fn tensor_names(&self) -> (r: Vec<String>)
        ensures
            texts(r@) == names_of(self.descs()),
    {
        let names = self.rt.tensor_names();
        let mut out: Vec<String> = Vec::new();
        let mut i: usize = 0;
        while i < names.len()
            invariant
                i <= names@.len(),
                out@.len() == i,
                forall|k: int| 0 <= k < i ==> (#[trigger] out@[k])@ == names@[k]@,
            decreases names@.len() - i,
        {
            out.push(names[i].to_owned());
            i += 1;
        }
        assert(texts(out@) =~= names_of(self.descs()));
        out
    }
}

fn is_asked(name: &str, logical: &str) -> (r: bool)
    ensures
        r == asks_for(name@, logical@),
{
    str_eq(name, logical) || str_eq(name, concat2(logical, ".weight").as_str()) || str_eq(
        name,
        concat2(logical, "_weight").as_str(),
    )
}

// ── Laws ────────────────────────────────────────────────────────────
/// `r` is the count under the first of the keys that holds one, or the default where
/// none does.
pub open spec fn is_first_count(
    o: Seq<(Seq<char>, Json)>,
    keys: Seq<Seq<char>>,
    default: u64,
    r: u64,
) -> bool {
    ||| exists|i: int|
        0 <= i < keys.len() && #[trigger] count_of(object_get(o, keys[i])) == Some(r) && forall|
            j: int,
        |
            0 <= j < i ==> #[trigger] count_of(object_get(o, keys[j])) is None
    ||| r == default && forall|i: int|
        0 <= i < keys.len() ==> #[trigger] count_of(object_get(o, keys[i])) is None
}

proof fn lemma_count_under(
    o: Seq<(Seq<char>, Json)>,
    keys: Seq<Seq<char>>,
    k: int,
    default: u64,
)
    requires
        0 <= k <= keys.len(),
        forall|j: int| 0 <= j < k ==> #[trigger] count_of(object_get(o, keys[j])) is None,
    ensures
        is_first_count(o, keys, default, count_under(o, keys, k, default)),
    decreases keys.len() - k,
{
    if k < keys.len() && count_of(object_get(o, keys[k])) is None {
        lemma_count_under(o, keys, k + 1, default);
    }
}

/// `r` is the number under the first of the keys that is there, or the fraction with
/// the given bits where none is or what is there is no number.
pub open spec fn is_first_number(
    o: Seq<(Seq<char>, Json)>,
    keys: Seq<Seq<char>>,
    bits: u64,
    r: Number,
) -> bool {
    ||| exists|i: int|
        0 <= i < keys.len() && #[trigger] object_get(o, keys[i]) is Some && r == number_or(
            object_get(o, keys[i]),
            bits,
        ) && forall|j: int| 0 <= j < i ==> #[trigger] object_get(o, keys[j]) is None
    ||| r == Number::Float(bits) && forall|i: int|
        0 <= i < keys.len() ==> #[trigger] object_get(o, keys[i]) is None
}

proof fn lemma_first_under(o: Seq<(Seq<char>, Json)>, keys: Seq<Seq<char>>, k: int, bits: u64)
    requires
        0 <= k <= keys.len(),
        forall|j: int| 0 <= j < k ==> #[trigger] object_get(o, keys[j]) is None,
    ensures
        is_first_number(o, keys, bits, number_or(first_under(o, keys, k), bits)),
    decreases keys.len() - k,
{
    if k < keys.len() && object_get(o, keys[k]) is None {
        lemma_first_under(o, keys, k + 1, bits);
    }
}

/// A model's dimensions are what its hyperparameters state under these names, the
/// earlier before the later. Where nothing is stated, keys and values have as many
/// heads as queries, and a feed-forward step is four times as wide as the state. The
/// heads share the state among them.
pub proof fn lemma_config(architecture: Seq<char>, o: Seq<(Seq<char>, Json)>, c: Config)
    requires
        config_of(architecture, o) == Ok::<Config, Seq<char>>(c),
    ensures
        c.architecture == architecture,
        is_first_count(
            o,
            seq!["block_count"@, "n_layer"@, "num_hidden_layers"@, "n_layers"@],
            0,
            c.n_layers,
        ),
        is_first_count(
            o,
            seq!["embedding_length"@, "n_embd"@, "hidden_size"@, "d_model"@, "dim"@],
            0,
            c.dim,
        ),
        is_first_count(
            o,
            seq!["attention.head_count"@, "n_head"@, "num_attention_heads"@, "n_heads"@],
            0,
            c.n_heads,
        ),
        is_first_count(
            o,
            seq!["attention.head_count_kv"@, "n_head_kv"@, "num_key_value_heads"@, "n_kv_heads"@],
            c.n_heads,
            c.n_kv_heads,
        ),
        4 * c.dim <= u64::MAX ==> is_first_count(
            o,
            seq!["feed_forward_length"@, "n_ff"@, "intermediate_size"@, "hidden_dim"@],
            (4 * c.dim) as u64,
            c.hidden_dim,
        ),
        is_first_count(
            o,
            seq!["vocab_size"@, "vocabulary_size"@, "n_vocab"@],
            32000,
            c.vocab_size,
        ),
        is_first_count(
            o,
            seq!["context_length"@, "n_ctx"@, "max_position_embeddings"@, "seq_len"@],
            4096,
            c.ctx_len,
        ),
        is_first_number(
            o,
            seq![
                "attention.layer_norm_rms_epsilon"@,
                "rms_norm_eps"@,
                "layer_norm_epsilon"@,
                "norm_epsilon"@,
            ],
            0x3ee4_f8b5_88e3_68f1,
            c.norm_eps,
        ),
        c.n_heads > 0,
        c.head_dim * c.n_heads <= c.dim < c.head_dim * c.n_heads + c.n_heads,
        c.use_rope,
{
    lemma_count_under(
        o,
        seq!["block_count"@, "n_layer"@, "num_hidden_layers"@, "n_layers"@],
        0,
        0,
    );
    lemma_count_under(
        o,
        seq!["embedding_length"@, "n_embd"@, "hidden_size"@, "d_model"@, "dim"@],
        0,
        0,
    );
    lemma_count_under(
        o,
        seq!["attention.head_count"@, "n_head"@, "num_attention_heads"@, "n_heads"@],
        0,
        0,
    );
    lemma_count_under(
        o,
        seq!["attention.head_count_kv"@, "n_head_kv"@, "num_key_value_heads"@, "n_kv_heads"@],
        0,
        c.n_heads,
    );
    lemma_count_under(
        o,
        seq!["feed_forward_length"@, "n_ff"@, "intermediate_size"@, "hidden_dim"@],
        0,
        clamp_u64(c.dim * 4),
    );
    lemma_count_under(o, seq!["vocab_size"@, "vocabulary_size"@, "n_vocab"@], 0, 32000);
    lemma_count_under(
        o,
        seq!["context_length"@, "n_ctx"@, "max_position_embeddings"@, "seq_len"@],
        0,
        4096,
    );
    lemma_first_under(
        o,
        seq![
            "attention.layer_norm_rms_epsilon"@,
            "rms_norm_eps"@,
            "layer_norm_epsilon"@,
            "norm_epsilon"@,
        ],
        0,
        0x3ee4_f8b5_88e3_68f1,
    );
    let (h, n) = (c.head_dim as int, c.n_heads as int);
    vstd::arithmetic::div_mod::lemma_fundamental_div_mod(c.dim as int, n);
    assert(h * n == n * h) by (nonlinear_arith);
}

/// A count is a number, or the number that a text spells.
pub proof fn lemma_counts(n: u64, s: Seq<char>)
    ensures
        count_of(Some(Json::UInt(n))) == Some(n),
        count_of(Some(Json::Text(s))) == number_of(s),
        count_of(None) is None,
{
}

/// `r` is the first of the names that a tensor has, if any has one.
pub open spec fn is_first_known(
    x: Seq<Descriptor>,
    names: Seq<Seq<char>>,
    r: Option<Seq<char>>,
) -> bool {
    match r {
        Some(n) => exists|i: int|
            0 <= i < names.len() && #[trigger] names[i] == n && known(x, n) && forall|j: int|
                0 <= j < i ==> !known(x, #[trigger] names[j]),
        None => forall|i: int| 0 <= i < names.len() ==> !known(x, #[trigger] names[i]),
    }
}

/// Names are tried one after the other.
pub proof fn lemma_first_known(x: Seq<Descriptor>, names: Seq<Seq<char>>, k: int)
    requires
        0 <= k <= names.len(),
        forall|j: int| 0 <= j < k ==> !known(x, #[trigger] names[j]),
    ensures
        is_first_known(x, names, first_known(x, names, k)),
    decreases names.len() - k,
{
    if k < names.len() {
        if known(x, names[k]) {
            assert(names[k] == first_known(x, names, k)->0);
        } else {
            lemma_first_known(x, names, k + 1);
        }
    }
}

/// A name is known exactly if some tensor has it, and then its type is that of the
/// last tensor with the name.
pub proof fn lemma_known(x: Seq<Descriptor>, name: Seq<char>)
    ensures
        known(x, name) <==> exists|i: int| 0 <= i < x.len() && (#[trigger] x[i]).name == name,
        dtype_in(x, name) matches Some(t) ==> exists|i: int|
            0 <= i < x.len() && (#[trigger] x[i]).name == name && x[i].dtype == t && forall|j: int|
                i < j < x.len() ==> (#[trigger] x[j]).name != name,
{
    lemma_last_dtype(x, name, x.len() as int);
}

proof fn lemma_last_dtype(x: Seq<Descriptor>, name: Seq<char>, k: int)
    requires
        0 <= k <= x.len(),
    ensures
        match last_dtype(x, name, k) {
            Some(t) => exists|i: int|
                0 <= i < k && (#[trigger] x[i]).name == name && x[i].dtype == t && forall|j: int|
                    i < j < k ==> (#[trigger] x[j]).name != name,
            None => forall|i: int| 0 <= i < k ==> (#[trigger] x[i]).name != name,
        },
    decreases k,
{
    if k > 0 {
        if x[k - 1].name != name {
            lemma_last_dtype(x, name, k - 1);
        }
    }
}

/// Where a layer's projection is found: under its name in GGUF files, and an
/// attention projection else under its name by two other conventions.
pub proof fn lemma_layer_weight_names(x: Seq<Descriptor>, layer: u64, proj: Seq<char>)
    ensures
        ({
            let n = decimal_text(layer as nat);
            let first = "blk."@ + n + "."@ + proj + ".weight"@;
            let q = "model.layers."@ + n + ".self_attn."@;
            let third = "layers."@ + n + "."@ + proj;
            let found = layer_weight_name(x, layer, proj);
            &&& known(x, first) ==> found == Ok::<Seq<char>, Seq<char>>(first)
            &&& forall|short: Seq<char>|
                !known(x, first) && #[trigger] stands_for(proj, short) ==> ({
                    let second = q + short + "_proj.weight"@;
                    &&& known(x, second) ==> found == Ok::<Seq<char>, Seq<char>>(second)
                    &&& !known(x, second) && known(x, third) ==> found == Ok::<
                        Seq<char>,
                        Seq<char>,
                    >(third)
                    &&& !known(x, second) && !known(x, third) ==> found is Err
                })
            &&& !known(x, first) && (forall|short: Seq<char>| !#[trigger] stands_for(proj, short))
                ==> found is Err
        }),
{
    assert(short_projection(proj) is Some ==> stands_for(proj, short_projection(proj)->0));
    assert forall|short: Seq<char>| #[trigger] stands_for(proj, short) implies short_projection(
        proj,
    ) == Some(short) by {
        reveal_strlit("attn_q");
        reveal_strlit("attn_k");
        reveal_strlit("attn_v");
        reveal_strlit("attn_output");
        let (a, b, c, d) = ("attn_q"@, "attn_k"@, "attn_v"@, "attn_output"@);
        assert(a[5] == 'q' && b[5] == 'k' && c[5] == 'v' && d[5] == 'o');
    }
}

/// The letter that a projection's name is shortened to.
pub open spec fn stands_for(proj: Seq<char>, short: Seq<char>) -> bool {
    ||| proj == "attn_q"@ && short == "q"@
    ||| proj == "attn_k"@ && short == "k"@
    ||| proj == "attn_v"@ && short == "v"@
    ||| proj == "attn_output"@ && short == "o"@
}

/// Where a weight outside the layers is found: under the first of the names that it
/// goes by, and else under its own.
pub proof fn lemma_weight_names(x: Seq<Descriptor>, logical: Seq<char>, name: Seq<char>)
    requires
        name == logical || name == logical + ".weight"@ || name == logical + "_weight"@,
    ensures
        ({
            let found = weight_name(x, name);
            let own = |names: Seq<Seq<char>>|
                is_first_known(x, names, found) || (is_first_known(x, names, None) && (found
                    == Some(name) && known(x, name) || found is None && !known(x, name)));
            &&& logical == "tok_embeddings"@ ==> own(
                seq![
                    "token_embd.weight"@,
                    "model.embed_tokens.weight"@,
                    "gpt_neox.embed_in.weight"@,
                    "wte.weight"@,
                    "tok_embeddings.weight"@,
                ],
            )
            &&& logical == "norm"@ ==> own(
                seq![
                    "output_norm.weight"@,
                    "model.norm.weight"@,
                    "gpt_neox.final_layer_norm.weight"@,
                    "ln_f.weight"@,
                    "norm.weight"@,
                ],
            )
            &&& logical == "output"@ ==> own(
                seq![
                    "output.weight"@,
                    "lm_head.weight"@,
                    "embed_out.weight"@,
                    "model.embed_tokens.weight"@,
                ],
            )
        }),
{
    lemma_first_known(x, embedding_names(), 0);
    lemma_first_known(x, norm_names(), 0);
    lemma_first_known(x, output_names(), 0);
    reveal_strlit("tok_embeddings");
    reveal_strlit("norm");
    reveal_strlit("output");
    let (a, b, c) = ("tok_embeddings"@, "norm"@, "output"@);
    assert(a[0] == 't' && b[0] == 'n' && c[0] == 'o');
    assert(name[0] == logical[0] || logical.len() == 0);
    if logical == a || logical == b || logical == c {
        assert(name[0] == logical[0]);
        assert((a + ".weight"@)[0] == 't' && (a + "_weight"@)[0] == 't');
        assert((b + ".weight"@)[0] == 'n' && (b + "_weight"@)[0] == 'n');
        assert((c + ".weight"@)[0] == 'o' && (c + "_weight"@)[0] == 'o');
    }
}

/// Every dimension of a model stands in the field with its name.
pub proof fn lemma_config_fields(w: ModelConfig)
    ensures
        w@.architecture == w.architecture@,
        w@.n_layers == w.n_layers,
        w@.dim == w.dim,
        w@.n_heads == w.n_heads,
        w@.n_kv_heads == w.n_kv_heads,
        w@.hidden_dim == w.hidden_dim,
        w@.vocab_size == w.vocab_size,
        w@.ctx_len == w.ctx_len,
        w@.head_dim == w.head_dim,
        w@.norm_eps == w.norm_eps,
        w@.use_rope == w.use_rope,
{
}

/// The numbers of a tensor are those of its own bytes, by its own type. A tensor that is
/// not there is reported by its name, and so is one whose bytes the file does not have.
pub proof fn lemma_tensor_numbers(d: Seq<u8>, x: Seq<Descriptor>, name: Seq<char>, i: int)
    ensures
        0 <= i < x.len() && x[i].name == name && (forall|j: int|
            0 <= j < x.len() && j != i ==> (#[trigger] x[j]).name != name) ==> {
            let (start, end) = (x[i].data_offset as int, x[i].data_offset + x[i].data_size);
            &&& dtype_in(x, name) == Some(x[i].dtype)
            &&& end <= d.len() ==> raw_of(d, x, name) == Ok::<Seq<u8>, Seq<char>>(
                d.subrange(start, end),
            ) && numbers_named(d, x, name) == Ok::<Numbers, Seq<char>>(
                numbers_of(d.subrange(start, end), x[i].dtype),
            )
            &&& end > d.len() ==> raw_of(d, x, name) == Err::<Seq<u8>, Seq<char>>(
                "tensor '"@ + name + "' not found: "@ + failure_text(eof(end, d.len() as int)),
            )
        },
        (forall|j: int| 0 <= j < x.len() ==> (#[trigger] x[j]).name != name) ==> raw_of(d, x, name)
            == Err::<Seq<u8>, Seq<char>>(
            "tensor '"@ + name + "' not found: "@ + failure_text(Failure::TensorNotFound(name)),
        ) && dtype_in(x, name) is None,
{
    lemma_find_name(x, name, 0);
    lemma_last_dtype(x, name, x.len() as int);
}

/// A projection that no tensor holds is reported by its layer: one of attention with the
/// two names that were tried first, any other as unknown. A file without an architecture
/// has one without a name.
pub proof fn lemma_projection_refused(x: Seq<Descriptor>, layer: u64, proj: Seq<char>, o: Opened)
    ensures
        ({
            let n = decimal_text(layer as nat);
            let first = "blk."@ + n + "."@ + proj + ".weight"@;
            let short = short_projection(proj);
            let second = "model.layers."@ + n + ".self_attn."@ + short->0 + "_proj.weight"@;
            &&& !known(x, first) && short is None ==> layer_weight_name(x, layer, proj) == Err::<
                Seq<char>,
                Seq<char>,
            >("unknown projection '"@ + proj + "' for layer "@ + n)
            &&& short is Some ==> (layer_weight_name(x, layer, proj) matches Err(e) ==> e
                == "weight not found: layer "@ + n + ", projection '"@ + proj + ("' (tried: "@
                + first + ", "@ + second + ")"@))
        }),
        o.manifest.architecture matches Some(s) ==> architecture_of(o) == s,
        o.manifest.architecture is None ==> architecture_of(o).len() == 0,
{
    reveal_strlit("");
}

/// A standalone weight that no tensor holds is reported by its name, with the names of all
/// tensors. One that a tensor holds has the numbers of that tensor, and so has a
/// projection.
pub proof fn lemma_weight_refused(
    d: Seq<u8>,
    x: Seq<Descriptor>,
    name: Seq<char>,
    layer: u64,
    proj: Seq<char>,
)
    ensures
        weight_name(x, name) is None ==> weight_of(d, x, name) == Err::<Numbers, Seq<char>>(
            "standalone weight '"@ + name + "' not found (available tensors: "@ + debug_text(
                Seq::new(x.len(), |i: int| x[i].name),
            ) + ")"@,
        ),
        weight_name(x, name) matches Some(n) ==> weight_of(d, x, name) == numbers_named(d, x, n),
        layer_weight_name(x, layer, proj) matches Ok(n) ==> layer_weight_of(d, x, layer, proj)
            == numbers_named(d, x, n),
        layer_weight_name(x, layer, proj) matches Err(e) ==> layer_weight_of(d, x, layer, proj)
            == Err::<Numbers, Seq<char>>(e),
{
    assert(names_of(x) =~= Seq::new(x.len(), |i: int| x[i].name));
}

} // verus!

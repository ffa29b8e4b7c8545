//! Files of other formats as `.axon` files, and `.axon` files for other tools.
use vstd::prelude::*;

use crate::builder::{
    added, built, empty_draft, faithful, lemma_build_keeps, AxonBuilder, Draft, Pending,
};
use crate::bytes::{slice, to_vec};
use crate::container::{find_name, lemma_find_name, open_file, payload_of, AxonFile, Opened};
use crate::descriptor::{descriptor_models, Descriptor, TensorDescriptor};
use crate::error::{AxonResult, Failure};
use crate::gguf::{
    gguf_file, lemma_tensors_in_file, parse_gguf_header, tensor_models, GgufHeader, GgufModel,
    GgufTensor,
};
use crate::json::{
    entry_models, items_of, lemma_object_put_get, lemma_view, models, normal, object_copy,
    object_get, object_put, text_of, Json, JsonValue,
};
use crate::json_codec::{json_pretty_text, json_to_string_pretty};
use crate::manifest::{
    any_or_null, count_or_null, opt_text_value, opt_value, text_or_null, ManifestModel,
};
use crate::runtime::outcome;
use crate::safetensors::find_text;
use crate::tensor::dtype_name;
use crate::text::{concat2, replace_char, replace_text};

verus! {

// ── GGUF import ─────────────────────────────────────────────────────
/// The first of two texts that is there.
pub open spec fn or_text(a: Option<Seq<char>>, b: Option<Seq<char>>) -> Option<Seq<char>> {
    match a {
        Some(_) => a,
        None => b,
    }
}

/// The model's name: what Ollama calls it, by the file or by the caller, else
/// its own name, else the name of its file.
pub open spec fn gguf_model_name(
    metadata: Seq<(Seq<char>, Json)>,
    extra: Seq<(Seq<char>, Json)>,
    file_stem: Option<Seq<char>>,
) -> Seq<char> {
    match or_text(
        text_of(object_get(metadata, "ollama.model"@)),
        or_text(
            text_of(object_get(extra, "ollama.model"@)),
            or_text(text_of(object_get(metadata, "general.name"@)), file_stem),
        ),
    ) {
        Some(s) => s,
        None => "gguf-model"@,
    }
}

/// The model's architecture.
pub open spec fn gguf_architecture(metadata: Seq<(Seq<char>, Json)>) -> Seq<char> {
    match text_of(object_get(metadata, "general.architecture"@)) {
        Some(s) => s,
        None => "gguf"@,
    }
}

/// A draft with one more fact about the model.
pub open spec fn noted(b: Draft, key: Seq<char>, value: Json) -> Draft {
    Draft { metadata: object_put(b.metadata, key, value), ..b }
}

/// A draft with the caller's facts from the `k`th on.
pub open spec fn noted_all(b: Draft, extra: Seq<(Seq<char>, Json)>, k: int) -> Draft
    decreases extra.len() - k,
{
    if k >= extra.len() {
        b
    } else {
        noted_all(noted(b, extra[k].0, extra[k].1), extra, k + 1)
    }
}

/// A draft with the tensors from the `k`th on, each with its type noted and its
/// bytes as they stand in the file.
pub open spec fn with_tensors(b: Draft, d: Seq<u8>, ts: Seq<GgufTensor>, k: int) -> Draft
    decreases ts.len() - k,
{
    if k >= ts.len() {
        b
    } else {
        let t = ts[k];
        with_tensors(
            added(
                noted(b, "gguf.tensor_type."@ + t.name, Json::UInt(t.ggml_type as u64)),
                t.name,
                d.subrange(t.data_offset as int, t.data_offset + t.data_size),
                t.dtype,
                t.shape,
                false,
            ),
            d,
            ts,
            k + 1,
        )
    }
}

/// The draft without tensors that a GGUF file makes.
pub open spec fn gguf_facts(
    h: GgufModel,
    extra: Seq<(Seq<char>, Json)>,
    file_stem: Option<Seq<char>>,
) -> Draft {
    let b = Draft {
        model: Some(gguf_model_name(h.metadata, extra, file_stem)),
        architecture: Some(gguf_architecture(h.metadata)),
        ..empty_draft()
    };
    let b = noted(b, "source_format"@, Json::Text("gguf"@));
    let b = noted(b, "gguf.version"@, Json::UInt(h.version as u64));
    let b = noted(b, "gguf.tensor_count"@, Json::UInt(h.tensor_count));
    let b = noted(b, "gguf.metadata"@, Json::Object(h.metadata));
    noted_all(b, extra, 0)
}

/// The `.axon` file that a GGUF file becomes, or why it becomes none.
pub open spec fn gguf_axon(
    d: Seq<u8>,
    extra: Seq<(Seq<char>, Json)>,
    file_stem: Option<Seq<char>>,
) -> Result<Seq<u8>, Failure> {
    match gguf_file(d) {
        Err(e) => Err(e),
        Ok(h) => built(with_tensors(gguf_facts(h, extra, file_stem), d, h.tensors, 0)),
    }
}

/// The file holds the tensors of the GGUF file wherever it opens, and opens as what
/// the GGUF file holds where the text of its manifest can be read back.
pub open spec fn gguf_faithful(
    r: Result<Seq<u8>, Failure>,
    d: Seq<u8>,
    extra: Seq<(Seq<char>, Json)>,
    file_stem: Option<Seq<char>>,
) -> bool {
    r matches Ok(f) ==> (gguf_file(d) matches Ok(h) && faithful(
        f,
        with_tensors(gguf_facts(h, extra, file_stem), d, h.tensors, 0),
    ))
}

/// The text of an optional string slice.
pub open spec fn opt_str(s: Option<&str>) -> Option<Seq<char>> {
    match s {
        Some(t) => Some(t@),
        None => None,
    }
}

fn model_name<'b>(
    h: &'b GgufHeader,
    extra: &'b Vec<(String, JsonValue)>,
    file_stem: Option<&'b str>,
) -> (r: &'b str)
    ensures
        r@ == gguf_model_name(h@.metadata, entry_models(extra@), opt_str(file_stem)),
{
    if let Some(s) = find_text(&h.metadata, "ollama.model") {
        return s;
    }
    if let Some(s) = find_text(extra, "ollama.model") {
        return s;
    }
    if let Some(s) = find_text(&h.metadata, "general.name") {
        return s;
    }
    match file_stem {
        Some(s) => s,
        None => "gguf-model",
    }
}

/// The `.axon` file that the bytes of a GGUF file become, its tensors copied as
/// they stand.
pub fn gguf_to_axon(d: &[u8], file_stem: Option<&str>) -> (r: AxonResult<Vec<u8>>)
    ensures
        outcome(r) == gguf_axon(d@, Seq::empty(), opt_str(file_stem)),
        gguf_faithful(outcome(r), d@, Seq::empty(), opt_str(file_stem)),
{
    let none: Vec<(String, JsonValue)> = Vec::new();
    assert(entry_models(none@) =~= Seq::empty());
    gguf_to_axon_with_metadata(d, file_stem, &none)
}

/// As [`gguf_to_axon`], with facts of the caller's own.
pub fn gguf_to_axon_with_metadata(
    d: &[u8],
    file_stem: Option<&str>,
    extra: &Vec<(String, JsonValue)>,
) -> (r: AxonResult<Vec<u8>>)
    ensures
        outcome(r) == gguf_axon(d@, entry_models(extra@), opt_str(file_stem)),
        gguf_faithful(outcome(r), d@, entry_models(extra@), opt_str(file_stem)),
{
    broadcast use lemma_view;

    let h = parse_gguf_header(d)?;
    let architecture = match find_text(&h.metadata, "general.architecture") {
        Some(s) => s,
        None => "gguf",
    };
    let mut b = AxonBuilder::new().model(model_name(&h, extra, file_stem)).architecture(
        architecture,
    ).metadata("source_format", JsonValue::Text("gguf".to_owned())).metadata(
        "gguf.version",
        JsonValue::UInt(h.version as u64),
    ).metadata("gguf.tensor_count", JsonValue::UInt(h.tensor_count)).metadata(
        "gguf.metadata",
        JsonValue::Object(object_copy(&h.metadata)),
    );
    let ghost e = entry_models(extra@);
    let ghost facts = gguf_facts(h@, e, opt_str(file_stem));
    let mut i: usize = 0;
    while i < extra.len()
        invariant
            i <= extra@.len(),
            e == entry_models(extra@),
            noted_all(b@, e, i as int) == facts,
        decreases extra@.len() - i,
    {
        assert(e[i as int] == (extra@[i as int].0@, extra@[i as int].1@));
        b = b.metadata(extra[i].0.as_str(), extra[i].1.copy());
        i += 1;
    }
    let ghost ts = h@.tensors;
    let mut k: usize = 0;
    assert(d@.len() == d.len());
    while k < h.tensors.len()
        invariant
            k <= h.tensors@.len(),
            ts == tensor_models(h.tensors@),
            ts == h@.tensors,
            gguf_file(d@) == Ok::<GgufModel, Failure>(h@),
            d@.len() == d.len(),
            with_tensors(b@, d@, ts, k as int) == with_tensors(facts, d@, ts, 0),
        decreases h.tensors@.len() - k,
    {
        let t = &h.tensors[k];
        proof {
            assert(ts[k as int] == t@);
            lemma_tensors_in_file(d@, h@, k as int);
        }
        let start = t.data_offset as usize;
        let data = to_vec(slice(d, start, start + t.data_size as usize));
        b = b.metadata(
            concat2("gguf.tensor_type.", t.name.as_str()).as_str(),
            JsonValue::UInt(t.ggml_type as u64),
        ).add_tensor_unchecked(t.name.as_str(), data, t.dtype, t.shape.as_slice());
        k += 1;
    }
    b.build()
}

/// Every tensor of a GGUF file is handed on under its own name, with its type,
/// its shape and its bytes.
pub proof fn lemma_gguf_tensors_kept(b: Draft, d: Seq<u8>, ts: Seq<GgufTensor>, k: int, i: int)
    requires
        0 <= k <= i < ts.len(),
    ensures
        ({
            let r = with_tensors(b, d, ts, k).tensors;
            &&& r.len() == b.tensors.len() + ts.len() - k
            &&& r[b.tensors.len() + i - k].name == ts[i].name
            &&& r[b.tensors.len() + i - k].dtype == ts[i].dtype
            &&& r[b.tensors.len() + i - k].shape == ts[i].shape
            &&& r[b.tensors.len() + i - k].data == d.subrange(
                ts[i].data_offset as int,
                ts[i].data_offset + ts[i].data_size,
            )
        }),
    decreases ts.len() - k,
{
    let t = ts[k];
    let next = added(
        noted(b, "gguf.tensor_type."@ + t.name, Json::UInt(t.ggml_type as u64)),
        t.name,
        d.subrange(t.data_offset as int, t.data_offset + t.data_size),
        t.dtype,
        t.shape,
        false,
    );
    if k < i {
        lemma_gguf_tensors_kept(next, d, ts, k + 1, i);
    } else {
        lemma_tensors_stay(next, d, ts, k + 1, b.tensors.len() as int);
    }
}

/// Wherever the file that a GGUF file became opens, it has the tensors of the GGUF
/// file and no others: each with its type and its shape, and with its bytes as they
/// were stored. Where no two have the same name, each is found under its own.
pub proof fn lemma_gguf_opened(
    d: Seq<u8>,
    h: GgufModel,
    extra: Seq<(Seq<char>, Json)>,
    file_stem: Option<Seq<char>>,
    f: Seq<u8>,
    o: Opened,
    i: int,
)
    requires
        gguf_file(d) == Ok::<GgufModel, Failure>(h),
        gguf_axon(d, extra, file_stem) == Ok::<Seq<u8>, Failure>(f),
        open_file(f) == Ok::<Opened, Failure>(o),
        0 <= i < h.tensors.len(),
    ensures
        o.descriptors.len() == h.tensors.len(),
        o.descriptors[i].name == h.tensors[i].name,
        o.descriptors[i].dtype == h.tensors[i].dtype,
        o.descriptors[i].shape == h.tensors[i].shape,
        payload_of(f, o.descriptors[i]) == Some(
            d.subrange(
                h.tensors[i].data_offset as int,
                h.tensors[i].data_offset + h.tensors[i].data_size,
            ),
        ),
        (forall|j: int, k: int|
            0 <= j < k < h.tensors.len() ==> (#[trigger] h.tensors[j]).name != (
            #[trigger] h.tensors[k]).name) ==> find_name(o.descriptors, h.tensors[i].name, 0)
            == Some(i),
{
    let facts = gguf_facts(h, extra, file_stem);
    let b = with_tensors(facts, d, h.tensors, 0);
    lemma_no_tensors(h, extra, file_stem);
    lemma_build_keeps(b);
    assert forall|j: int| 0 <= j < h.tensors.len() implies b.tensors.len() == h.tensors.len()
        && b.tensors[j].name == (#[trigger] h.tensors[j]).name by {
        lemma_gguf_tensors_kept(facts, d, h.tensors, 0, j);
    }
    lemma_gguf_tensors_kept(facts, d, h.tensors, 0, i);
    lemma_find_name(o.descriptors, h.tensors[i].name, 0);
    if let Some(k) = find_name(o.descriptors, h.tensors[i].name, 0) {
        assert(o.descriptors[k].name == h.tensors[k].name);
        assert(h.tensors[k].name == h.tensors[i].name);
    } else {
        assert(o.descriptors[i].name == h.tensors[i].name);
    }
}

proof fn lemma_no_tensors(
    h: GgufModel,
    extra: Seq<(Seq<char>, Json)>,
    file_stem: Option<Seq<char>>,
)
    ensures
        gguf_facts(h, extra, file_stem).tensors == Seq::<Pending>::empty(),
{
    let b = Draft {
        model: Some(gguf_model_name(h.metadata, extra, file_stem)),
        architecture: Some(gguf_architecture(h.metadata)),
        ..empty_draft()
    };
    let b = noted(b, "source_format"@, Json::Text("gguf"@));
    let b = noted(b, "gguf.version"@, Json::UInt(h.version as u64));
    let b = noted(b, "gguf.tensor_count"@, Json::UInt(h.tensor_count));
    let b = noted(b, "gguf.metadata"@, Json::Object(h.metadata));
    lemma_noted_all(b, extra, 0);
}

proof fn lemma_noted_all(b: Draft, extra: Seq<(Seq<char>, Json)>, k: int)
    ensures
        noted_all(b, extra, k).tensors == b.tensors,
    decreases extra.len() - k,
{
    if k < extra.len() {
        lemma_noted_all(noted(b, extra[k].0, extra[k].1), extra, k + 1);
    }
}

proof fn lemma_tensors_stay(b: Draft, d: Seq<u8>, ts: Seq<GgufTensor>, k: int, i: int)
    requires
        0 <= k <= ts.len(),
        0 <= i < b.tensors.len(),
    ensures
        with_tensors(b, d, ts, k).tensors.len() == b.tensors.len() + ts.len() - k,
        with_tensors(b, d, ts, k).tensors[i] == b.tensors[i],
    decreases ts.len() - k,
{
    if k < ts.len() {
        let t = ts[k];
        lemma_tensors_stay(
            added(
                noted(b, "gguf.tensor_type."@ + t.name, Json::UInt(t.ggml_type as u64)),
                t.name,
                d.subrange(t.data_offset as int, t.data_offset + t.data_size),
                t.dtype,
                t.shape,
                false,
            ),
            d,
            ts,
            k + 1,
            i,
        );
    }
}

/// The name of an imported model. What Ollama calls it comes first, as the file has it
/// before as the caller has it; then the name that the file has, and then the file's own.
pub proof fn lemma_model_name(
    metadata: Seq<(Seq<char>, Json)>,
    extra: Seq<(Seq<char>, Json)>,
    file_stem: Option<Seq<char>>,
)
    ensures
        ({
            let r = gguf_model_name(metadata, extra, file_stem);
            let a = text_of(object_get(metadata, "ollama.model"@));
            let b = text_of(object_get(extra, "ollama.model"@));
            let c = text_of(object_get(metadata, "general.name"@));
            &&& a is Some ==> r == a->0
            &&& a is None && b is Some ==> r == b->0
            &&& a is None && b is None && c is Some ==> r == c->0
            &&& a is None && b is None && c is None && file_stem is Some ==> r == file_stem->0
            &&& a is None && b is None && c is None && file_stem is None ==> r == "gguf-model"@
        }),
{
}

/// What is noted of an imported model besides its tensors: where it came from, and all
/// that its metadata said. What the caller notes comes last and takes the place of what
/// was there.
pub proof fn lemma_facts_noted(
    h: GgufModel,
    extra: Seq<(Seq<char>, Json)>,
    file_stem: Option<Seq<char>>,
    key: Seq<char>,
)
    ensures
        ({
            let b = gguf_facts(h, extra, file_stem);
            let own = seq![
                ("source_format"@, Json::Text("gguf"@)),
                ("gguf.version"@, Json::UInt(h.version as u64)),
                ("gguf.tensor_count"@, Json::UInt(h.tensor_count)),
                ("gguf.metadata"@, Json::Object(h.metadata)),
            ];
            &&& b.model == Some(gguf_model_name(h.metadata, extra, file_stem))
            &&& b.architecture == Some(
                match text_of(object_get(h.metadata, "general.architecture"@)) {
                    Some(s) => s,
                    None => "gguf"@,
                },
            )
            &&& b.tensors.len() == 0
            &&& forall|i: int|
                0 <= i < extra.len() && (#[trigger] extra[i]).0 == key && (forall|j: int|
                    i < j < extra.len() ==> (#[trigger] extra[j]).0 != key) ==> object_get(
                    b.metadata,
                    key,
                ) == Some(extra[i].1)
            &&& (forall|j: int| 0 <= j < extra.len() ==> (#[trigger] extra[j]).0 != key) ==> forall|
                k: int,
            |
                0 <= k < 4 && (#[trigger] own[k]).0 == key ==> object_get(b.metadata, key) == Some(
                    own[k].1,
                )
        }),
{
    let b0 = Draft {
        model: Some(gguf_model_name(h.metadata, extra, file_stem)),
        architecture: Some(gguf_architecture(h.metadata)),
        ..empty_draft()
    };
    let b1 = noted(b0, "source_format"@, Json::Text("gguf"@));
    let b2 = noted(b1, "gguf.version"@, Json::UInt(h.version as u64));
    let b3 = noted(b2, "gguf.tensor_count"@, Json::UInt(h.tensor_count));
    let b4 = noted(b3, "gguf.metadata"@, Json::Object(h.metadata));
    lemma_last_noted(b4, extra, 0, key);
    reveal_strlit("source_format");
    reveal_strlit("gguf.version");
    reveal_strlit("gguf.tensor_count");
    reveal_strlit("gguf.metadata");
    let (p, q, r, s) = (
        "source_format"@,
        "gguf.version"@,
        "gguf.tensor_count"@,
        "gguf.metadata"@,
    );
    assert(p[0] == 's' && q[5] == 'v' && r[5] == 't' && s[5] == 'm' && q[0] == 'g' && r[0] == 'g'
        && s[0] == 'g');
    lemma_object_put_get(b0.metadata, p, Json::Text("gguf"@), key);
    lemma_object_put_get(b1.metadata, q, Json::UInt(h.version as u64), key);
    lemma_object_put_get(b2.metadata, r, Json::UInt(h.tensor_count), key);
    lemma_object_put_get(b3.metadata, s, Json::Object(h.metadata), key);
}

proof fn lemma_last_noted(b: Draft, extra: Seq<(Seq<char>, Json)>, k: int, key: Seq<char>)
    requires
        0 <= k <= extra.len(),
    ensures
        noted_all(b, extra, k).model == b.model,
        noted_all(b, extra, k).architecture == b.architecture,
        noted_all(b, extra, k).tensors == b.tensors,
        forall|i: int|
            k <= i < extra.len() && (#[trigger] extra[i]).0 == key && (forall|j: int|
                i < j < extra.len() ==> (#[trigger] extra[j]).0 != key) ==> object_get(
                noted_all(b, extra, k).metadata,
                key,
            ) == Some(extra[i].1),
        (forall|j: int| k <= j < extra.len() ==> (#[trigger] extra[j]).0 != key) ==> object_get(
            noted_all(b, extra, k).metadata,
            key,
        ) == object_get(b.metadata, key),
    decreases extra.len() - k,
{
    if k < extra.len() {
        lemma_last_noted(noted(b, extra[k].0, extra[k].1), extra, k + 1, key);
        lemma_object_put_get(b.metadata, extra[k].0, extra[k].1, key);
    }
}

// ── Export ──────────────────────────────────────────────────────────
/// The dimensions as a list.
pub open spec fn shape_json(shape: Seq<u64>) -> Json {
    Json::Array(Seq::new(shape.len(), |i: int| Json::UInt(shape[i])))
}

/// What an exported manifest says of a tensor.
pub open spec fn tensor_json(x: Descriptor) -> Json {
    Json::Object(
        seq![
            ("name"@, Json::Text(x.name)),
            ("dtype"@, Json::Text(dtype_name(x.dtype))),
            ("shape"@, shape_json(x.shape)),
            ("size_bytes"@, Json::UInt(x.data_size)),
        ],
    )
}

/// An exported manifest.
pub open spec fn export_json(m: ManifestModel, x: Seq<Descriptor>) -> Json {
    Json::Object(
        seq![
            ("model"@, text_or_null(m.model)),
            ("architecture"@, text_or_null(m.architecture)),
            ("hyperparameters"@, Json::Object(m.hyperparameters)),
            ("tokenizer"@, any_or_null(m.tokenizer)),
            ("context_length"@, count_or_null(m.context_length)),
            ("quantization"@, any_or_null(m.quantization)),
            ("tensor_count"@, Json::UInt(x.len() as u64)),
            ("tensors"@, Json::Array(Seq::new(x.len(), |i: int| tensor_json(x[i])))),
        ],
    )
}

fn shape_value(shape: &Vec<u64>) -> (r: JsonValue)
    ensures
        r@ == shape_json(shape@),
{
    broadcast use lemma_view;

    let mut out: Vec<JsonValue> = Vec::new();
    let mut i: usize = 0;
    while i < shape.len()
        invariant
            i <= shape@.len(),
            out@.len() == i,
            forall|k: int| 0 <= k < i ==> (#[trigger] out@[k])@ == Json::UInt(shape@[k]),
        decreases shape@.len() - i,
    {
        out.push(JsonValue::UInt(shape[i]));
        i += 1;
    }
    assert(models(out@) =~= shape_json(shape@)->Array_0);
    JsonValue::Array(out)
}

fn tensor_value(x: &TensorDescriptor) -> (r: JsonValue)
    ensures
        r@ == tensor_json(x@),
{
    broadcast use lemma_view;

    let mut o: Vec<(String, JsonValue)> = Vec::new();
    o.push(("name".to_owned(), JsonValue::Text(x.name.clone())));
    o.push(("dtype".to_owned(), JsonValue::Text(x.dtype.name().to_owned())));
    o.push(("shape".to_owned(), shape_value(&x.shape)));
    o.push(("size_bytes".to_owned(), JsonValue::UInt(x.data_size)));
    assert(entry_models(o@) =~= tensor_json(x@)->Object_0);
    JsonValue::Object(o)
}

/// The exported manifest of a file.
pub fn export_value(f: &AxonFile) -> (r: JsonValue)
    ensures
        r@ == export_json(f.opened().manifest, f.opened().descriptors),
{
    broadcast use lemma_view;

    let ghost x = f.opened().descriptors;
    let m = &f.manifest;
    let mut tensors: Vec<JsonValue> = Vec::new();
    let mut i: usize = 0;
    while i < f.descriptors.len()
        invariant
            i <= f.descriptors@.len(),
            x == descriptor_models(f.descriptors@),
            tensors@.len() == i,
            forall|k: int| 0 <= k < i ==> (#[trigger] tensors@[k])@ == tensor_json(x[k]),
        decreases f.descriptors@.len() - i,
    {
        tensors.push(tensor_value(&f.descriptors[i]));
        i += 1;
    }
    assert(models(tensors@) =~= Seq::new(x.len(), |k: int| tensor_json(x[k])));
    let mut o: Vec<(String, JsonValue)> = Vec::new();
    o.push(("model".to_owned(), opt_text_value(&m.model)));
    o.push(("architecture".to_owned(), opt_text_value(&m.architecture)));
    o.push(("hyperparameters".to_owned(), JsonValue::Object(object_copy(&m.hyperparameters))));
    o.push(("tokenizer".to_owned(), opt_value(&m.tokenizer)));
    let context = match m.context_length {
        Some(n) => JsonValue::UInt(n),
        None => JsonValue::Null,
    };
    o.push(("context_length".to_owned(), context));
    o.push(("quantization".to_owned(), opt_value(&m.quantization)));
    o.push(("tensor_count".to_owned(), JsonValue::UInt(f.descriptors.len() as u64)));
    o.push(("tensors".to_owned(), JsonValue::Array(tensors)));
    assert(entry_models(o@) =~= export_json(f.opened().manifest, x)->Object_0);
    JsonValue::Object(o)
}

/// The manifest of a file as indented JSON.
pub fn export_manifest_json(axon_data: &[u8]) -> (r: AxonResult<String>)
    ensures
        match r {
            Ok(s) => open_file(axon_data@) matches Ok(o) && s@ == json_pretty_text(
                normal(export_json(o.manifest, o.descriptors)),
            ),
            Err(e) => open_file(axon_data@) == Err::<Opened, Failure>(e@),
        },
{
    let f = AxonFile::from_bytes(to_vec(axon_data))?;
    Ok(json_to_string_pretty(&export_value(&f)))
}

/// The name of the file that a tensor's bytes are written to.
pub open spec fn raw_name(name: Seq<char>) -> Seq<char> {
    replace_text(name, '/', "_"@) + ".bin"@
}

/// The name of the file that a tensor's bytes are written to: a slash in the
/// tensor's name becomes an underscore.
pub fn raw_file_name(name: &str) -> (r: String)
    ensures
        r@ == raw_name(name@),
{
    concat2(replace_char(name, '/', "_").as_str(), ".bin")
}

/// The files that the tensors from the `k`th on are written to, behind those
/// already there. A tensor whose bytes the file does not have is passed over.
pub open spec fn raw_files(
    d: Seq<u8>,
    x: Seq<Descriptor>,
    k: int,
    done: Seq<(Seq<char>, Seq<u8>)>,
) -> Seq<(Seq<char>, Seq<u8>)>
    decreases x.len() - k,
{
    if k >= x.len() {
        done
    } else {
        match find_name(x, x[k].name, 0) {
            Some(i) => match payload_of(d, x[i]) {
                Some(b) => raw_files(d, x, k + 1, done.push((raw_name(x[k].name), b))),
                None => raw_files(d, x, k + 1, done),
            },
            None => raw_files(d, x, k + 1, done),
        }
    }
}

/// What a row of named files holds.
pub open spec fn file_models(v: Seq<(String, Vec<u8>)>) -> Seq<(Seq<char>, Seq<u8>)> {
    Seq::new(v.len(), |i: int| (v[i].0@, v[i].1@))
}

/// The bytes of every tensor of a file, each under the name of a file of its
/// own.
pub fn export_tensors_raw(axon_data: &[u8]) -> (r: AxonResult<Vec<(String, Vec<u8>)>>)
    ensures
        match r {
            Ok(v) => open_file(axon_data@) matches Ok(o) && file_models(v@) == raw_files(
                axon_data@,
                o.descriptors,
                0,
                Seq::empty(),
            ),
            Err(e) => open_file(axon_data@) == Err::<Opened, Failure>(e@),
        },
{
    let f = AxonFile::from_bytes(to_vec(axon_data))?;
    let ghost x = f.opened().descriptors;
    let mut out: Vec<(String, Vec<u8>)> = Vec::new();
    let mut i: usize = 0;
    assert(file_models(out@) =~= Seq::empty());
    while i < f.descriptors.len()
        invariant
            i <= f.descriptors@.len(),
            x == descriptor_models(f.descriptors@),
            f.data@ == axon_data@,
            raw_files(axon_data@, x, 0, Seq::empty()) == raw_files(
                axon_data@,
                x,
                i as int,
                file_models(out@),
            ),
        decreases f.descriptors@.len() - i,
    {
        let name = f.descriptors[i].name.as_str();
        assert(x[i as int].name == name@);
        if let Some(b) = f.tensor_data(name) {
            let file = (raw_file_name(name), to_vec(b));
            assert(file_models(out@.push(file)) =~= file_models(out@).push((file.0@, file.1@)));
            out.push(file);
        }
        i += 1;
    }
    Ok(out)
}

/// An exported manifest says of every tensor, in the order of the table, its name, its
/// type by name, its dimensions and how many bytes it has; and of the model what the
/// manifest says.
pub proof fn lemma_exported(m: ManifestModel, x: Seq<Descriptor>, i: int)
    requires
        0 <= i < x.len() <= u64::MAX,
    ensures
        ({
            let j = export_json(m, x);
            &&& j.field("tensor_count"@) == Some(Json::UInt(x.len() as u64))
            &&& j.field("model"@) == Some(text_or_null(m.model))
            &&& j.field("architecture"@) == Some(text_or_null(m.architecture))
            &&& j.field("hyperparameters"@) == Some(Json::Object(m.hyperparameters))
            &&& j.field("context_length"@) == Some(count_or_null(m.context_length))
            &&& items_of(j.field("tensors"@)) matches Some(a) && a.len() == x.len() && ({
                let t = a[i];
                &&& t.field("name"@) == Some(Json::Text(x[i].name))
                &&& t.field("dtype"@) == Some(Json::Text(dtype_name(x[i].dtype)))
                &&& t.field("size_bytes"@) == Some(Json::UInt(x[i].data_size))
                &&& items_of(t.field("shape"@)) matches Some(s) && s.len() == x[i].shape.len()
                    && forall|k: int|
                    0 <= k < s.len() ==> #[trigger] s[k] == Json::UInt(x[i].shape[k])
            })
        }),
{
    lemma_export_keys();
    reveal_with_fuel(object_get, 9);
}

proof fn lemma_export_keys()
    ensures
        "model"@.len() == 5 && "model"@[0] == 'm',
        "architecture"@.len() == 12 && "architecture"@[0] == 'a' && "architecture"@[1] == 'r',
        "hyperparameters"@.len() == 15,
        "tokenizer"@.len() == 9,
        "context_length"@.len() == 14,
        "quantization"@.len() == 12 && "quantization"@[0] == 'q',
        "tensor_count"@.len() == 12 && "tensor_count"@[0] == 't',
        "tensors"@.len() == 7,
        "name"@.len() == 4,
        "dtype"@.len() == 5 && "dtype"@[0] == 'd',
        "shape"@.len() == 5 && "shape"@[0] == 's',
        "size_bytes"@.len() == 10,
{
    reveal_strlit("model");
    reveal_strlit("architecture");
    reveal_strlit("hyperparameters");
    reveal_strlit("tokenizer");
    reveal_strlit("context_length");
    reveal_strlit("quantization");
    reveal_strlit("tensor_count");
    reveal_strlit("tensors");
    reveal_strlit("name");
    reveal_strlit("dtype");
    reveal_strlit("shape");
    reveal_strlit("size_bytes");
}

/// Every tensor whose bytes the file has is written to a file of its own, with those
/// bytes, where no two tensors have one name.
pub proof fn lemma_raw_files(
    d: Seq<u8>,
    x: Seq<Descriptor>,
    k: int,
    done: Seq<(Seq<char>, Seq<u8>)>,
    i: int,
)
    requires
        0 <= k <= i < x.len(),
        forall|a: int, b: int|
            0 <= a < b < x.len() ==> (#[trigger] x[a]).name != (#[trigger] x[b]).name,
        payload_of(d, x[i]) is Some,
    ensures
        raw_files(d, x, k, done).contains(
            (replace_text(x[i].name, '/', "_"@) + ".bin"@, payload_of(d, x[i])->0),
        ),
    decreases x.len() - k,
{
    lemma_find_name(x, x[k].name, 0);
    let at = find_name(x, x[k].name, 0);
    assert(x[k].name == x[k].name);
    if let Some(j) = at {
        if j < k {
            assert(x[j].name != x[k].name);
        } else if k < j {
            assert(x[k].name != x[j].name);
        }
    }
    let next = match payload_of(d, x[k]) {
        Some(b) => done.push((raw_name(x[k].name), b)),
        None => done,
    };
    if k < i {
        lemma_raw_files(d, x, k + 1, next, i);
    } else {
        lemma_raw_kept(d, x, k + 1, next);
        let all = raw_files(d, x, k + 1, next);
        assert(all[done.len() as int] == next[done.len() as int]);
    }
}

proof fn lemma_raw_kept(
    d: Seq<u8>,
    x: Seq<Descriptor>,
    k: int,
    done: Seq<(Seq<char>, Seq<u8>)>,
)
    ensures
        raw_files(d, x, k, done).len() >= done.len(),
        forall|i: int| 0 <= i < done.len() ==> #[trigger] raw_files(d, x, k, done)[i] == done[i],
    decreases x.len() - k,
{
    if k < x.len() {
        match find_name(x, x[k].name, 0) {
            Some(j) => match payload_of(d, x[j]) {
                Some(b) => {
                    let next = done.push((raw_name(x[k].name), b));
                    lemma_raw_kept(d, x, k + 1, next);
                    assert forall|i: int| 0 <= i < done.len() implies #[trigger] raw_files(
                        d,
                        x,
                        k,
                        done,
                    )[i] == done[i] by {
                        assert(next[i] == done[i]);
                    }
                },
                None => {
                    lemma_raw_kept(d, x, k + 1, done);
                },
            },
            None => {
                lemma_raw_kept(d, x, k + 1, done);
            },
        }
    }
}

} // verus!

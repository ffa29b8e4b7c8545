//! The manifest: what a file says of its model, as a JSON document.
use vstd::prelude::*;

use crate::error::{AxonError, AxonResult, Failure};
use crate::json::{
    alike, alike_entries, entry_models, lemma_alike_get, lemma_object_put_get, lemma_view, models,
    normal, normal_entries, object_copy, object_find, object_get, Json, JsonValue,
};
use crate::text::{concat2, texts};

verus! {

// ── The model ───────────────────────────────────────────────────────
/// What a manifest holds.
#[verifier::ext_equal]
pub struct ManifestModel {
    pub model: Option<Seq<char>>,
    pub architecture: Option<Seq<char>>,
    pub hyperparameters: Seq<(Seq<char>, Json)>,
    pub tokenizer: Option<Json>,
    pub context_length: Option<u64>,
    pub quantization: Option<Json>,
    pub tensor_order: Seq<Seq<char>>,
}

/// The report of an entry that cannot be used.
pub open spec fn bad_field(key: Seq<char>) -> Failure {
    Failure::InvalidManifest("invalid manifest field: "@ + key)
}

/// An entry that holds a text, or null, or is not there.
pub open spec fn text_field(j: Json, key: Seq<char>) -> Result<Option<Seq<char>>, Failure> {
    match j.field(key) {
        None => Ok(None),
        Some(Json::Null) => Ok(None),
        Some(Json::Text(s)) => Ok(Some(s)),
        Some(_) => Err(bad_field(key)),
    }
}

/// An entry that holds a count, or null, or is not there.
pub open spec fn count_field(j: Json, key: Seq<char>) -> Result<Option<u64>, Failure> {
    match j.field(key) {
        None => Ok(None),
        Some(Json::Null) => Ok(None),
        Some(Json::UInt(n)) => Ok(Some(n)),
        Some(_) => Err(bad_field(key)),
    }
}

/// An entry that holds any value, or null, or is not there.
pub open spec fn any_field(j: Json, key: Seq<char>) -> Option<Json> {
    match j.field(key) {
        None => None,
        Some(Json::Null) => None,
        Some(v) => Some(v),
    }
}

/// An entry that holds an object, or null, or is not there.
pub open spec fn object_field(j: Json, key: Seq<char>) -> Result<Seq<(Seq<char>, Json)>, Failure> {
    match j.field(key) {
        None => Ok(Seq::empty()),
        Some(Json::Null) => Ok(Seq::empty()),
        Some(Json::Object(o)) => Ok(o),
        Some(_) => Err(bad_field(key)),
    }
}

/// Every item is a text.
pub open spec fn all_texts(a: Seq<Json>) -> bool {
    forall|i: int| 0 <= i < a.len() ==> #[trigger] a[i] is Text
}

/// The texts of the items.
pub open spec fn item_texts(a: Seq<Json>) -> Seq<Seq<char>> {
    Seq::new(a.len(), |i: int| a[i]->Text_0)
}

/// An entry that holds a list of texts, or null, or is not there.
pub open spec fn texts_field(j: Json, key: Seq<char>) -> Result<Seq<Seq<char>>, Failure> {
    match j.field(key) {
        None => Ok(Seq::empty()),
        Some(Json::Null) => Ok(Seq::empty()),
        Some(Json::Array(a)) => if all_texts(a) {
            Ok(item_texts(a))
        } else {
            Err(bad_field(key))
        },
        Some(_) => Err(bad_field(key)),
    }
}

/// The manifest that a document holds. Entries that are not known are passed
/// over.
pub open spec fn manifest_of(j: Json) -> Result<ManifestModel, Failure> {
    if j.entries() is None {
        Err(Failure::InvalidManifest("manifest is not a JSON object"@))
    } else if text_field(j, "model"@) is Err {
        Err(text_field(j, "model"@)->Err_0)
    } else if text_field(j, "architecture"@) is Err {
        Err(text_field(j, "architecture"@)->Err_0)
    } else if object_field(j, "hyperparameters"@) is Err {
        Err(object_field(j, "hyperparameters"@)->Err_0)
    } else if count_field(j, "context_length"@) is Err {
        Err(count_field(j, "context_length"@)->Err_0)
    } else if texts_field(j, "tensor_order"@) is Err {
        Err(texts_field(j, "tensor_order"@)->Err_0)
    } else {
        Ok(
            ManifestModel {
                model: text_field(j, "model"@)->Ok_0,
                architecture: text_field(j, "architecture"@)->Ok_0,
                hyperparameters: object_field(j, "hyperparameters"@)->Ok_0,
                tokenizer: any_field(j, "tokenizer"@),
                context_length: count_field(j, "context_length"@)->Ok_0,
                quantization: any_field(j, "quantization"@),
                tensor_order: texts_field(j, "tensor_order"@)->Ok_0,
            },
        )
    }
}

/// What a manifest says stands in its document under these names. Null, or nothing,
/// says nothing.
pub proof fn lemma_manifest_names(j: Json, m: ManifestModel)
    requires
        manifest_of(j) == Ok::<ManifestModel, Failure>(m),
    ensures
        j is Object,
        m.model is Some ==> j.field("model"@) == Some(Json::Text(m.model->0)),
        m.model is None ==> j.field("model"@) is None || j.field("model"@) == Some(Json::Null),
        m.architecture is Some ==> j.field("architecture"@) == Some(Json::Text(m.architecture->0)),
        m.architecture is None ==> j.field("architecture"@) is None || j.field("architecture"@)
            == Some(Json::Null),
        j.field("hyperparameters"@) matches Some(Json::Object(o)) ==> m.hyperparameters == o,
        !(j.field("hyperparameters"@) matches Some(Json::Object(o))) ==> m.hyperparameters.len() == 0,
        m.tokenizer is Some ==> j.field("tokenizer"@) == m.tokenizer,
        m.tokenizer is None ==> j.field("tokenizer"@) is None || j.field("tokenizer"@) == Some(
            Json::Null,
        ),
        m.context_length is Some ==> j.field("context_length"@) == Some(
            Json::UInt(m.context_length->0),
        ),
        m.context_length is None ==> j.field("context_length"@) is None || j.field(
            "context_length"@,
        ) == Some(Json::Null),
        m.quantization is Some ==> j.field("quantization"@) == m.quantization,
        m.quantization is None ==> j.field("quantization"@) is None || j.field("quantization"@)
            == Some(Json::Null),
        j.field("tensor_order"@) matches Some(Json::Array(a)) ==> a.len() == m.tensor_order.len()
            && forall|i: int|
            0 <= i < a.len() ==> #[trigger] a[i] == Json::Text(m.tensor_order[i]),
        !(j.field("tensor_order"@) matches Some(Json::Array(a))) ==> m.tensor_order.len() == 0,
{
}

/// A text, or null.
pub open spec fn text_or_null(v: Option<Seq<char>>) -> Json {
    match v {
        Some(s) => Json::Text(s),
        None => Json::Null,
    }
}

/// A count, or null.
pub open spec fn count_or_null(v: Option<u64>) -> Json {
    match v {
        Some(n) => Json::UInt(n),
        None => Json::Null,
    }
}

/// A value, or null.
pub open spec fn any_or_null(v: Option<Json>) -> Json {
    match v {
        Some(j) => j,
        None => Json::Null,
    }
}

/// A list of texts.
pub open spec fn text_list(v: Seq<Seq<char>>) -> Json {
    Json::Array(Seq::new(v.len(), |i: int| Json::Text(v[i])))
}

/// The entries of a manifest's document.
pub open spec fn manifest_entries(m: ManifestModel) -> Seq<(Seq<char>, Json)> {
    seq![
        ("model"@, text_or_null(m.model)),
        ("architecture"@, text_or_null(m.architecture)),
        ("hyperparameters"@, Json::Object(m.hyperparameters)),
        ("tokenizer"@, any_or_null(m.tokenizer)),
        ("context_length"@, count_or_null(m.context_length)),
        ("quantization"@, any_or_null(m.quantization)),
        ("tensor_order"@, text_list(m.tensor_order)),
    ]
}

/// The document of a manifest.
pub open spec fn manifest_json(m: ManifestModel) -> Json {
    Json::Object(manifest_entries(m))
}

// ── Executable manifests ────────────────────────────────────────────
/// What a file says of its model.
#[derive(Debug)]
pub struct Manifest {
    /// The model's name.
    pub model: Option<String>,
    /// The model's architecture.
    pub architecture: Option<String>,
    /// Further facts about the model, in the order of their keys.
    pub hyperparameters: Vec<(String, JsonValue)>,
    /// The tokenizer, as the producer described it.
    pub tokenizer: Option<JsonValue>,
    /// The longest context that the model takes.
    pub context_length: Option<u64>,
    /// The quantization, as the producer described it.
    pub quantization: Option<JsonValue>,
    /// The names of the tensors, in file order.
    pub tensor_order: Vec<String>,
}

/// The text of an optional string.
pub open spec fn opt_text(s: Option<String>) -> Option<Seq<char>> {
    match s {
        Some(t) => Some(t@),
        None => None,
    }
}

/// The model of an optional value.
pub open spec fn opt_json(v: Option<JsonValue>) -> Option<Json> {
    match v {
        Some(j) => Some(j@),
        None => None,
    }
}

impl View for Manifest {
    type V = ManifestModel;

    open spec fn view(&self) -> ManifestModel {
        ManifestModel {
            model: opt_text(self.model),
            architecture: opt_text(self.architecture),
            hyperparameters: entry_models(self.hyperparameters@),
            tokenizer: opt_json(self.tokenizer),
            context_length: self.context_length,
            quantization: opt_json(self.quantization),
            tensor_order: texts(self.tensor_order@),
        }
    }
}

fn field_error(key: &str) -> (r: AxonError)
    ensures
        r@ == bad_field(key@),
{
    AxonError::InvalidManifest(concat2("invalid manifest field: ", key))
}

fn take_text(j: &JsonValue, key: &str) -> (r: AxonResult<Option<String>>)
    ensures
        match r {
            Ok(v) => text_field(j@, key@) == Ok::<Option<Seq<char>>, Failure>(opt_text(v)),
            Err(e) => text_field(j@, key@) == Err::<Option<Seq<char>>, Failure>(e@),
        },
{
    broadcast use lemma_view;

    match j.get(key) {
        None => Ok(None),
        Some(JsonValue::Null) => Ok(None),
        Some(JsonValue::Text(s)) => Ok(Some(s.clone())),
        Some(_) => Err(field_error(key)),
    }
}

fn take_count(j: &JsonValue, key: &str) -> (r: AxonResult<Option<u64>>)
    ensures
        match r {
            Ok(v) => count_field(j@, key@) == Ok::<Option<u64>, Failure>(v),
            Err(e) => count_field(j@, key@) == Err::<Option<u64>, Failure>(e@),
        },
{
    broadcast use lemma_view;

    match j.get(key) {
        None => Ok(None),
        Some(JsonValue::Null) => Ok(None),
        Some(JsonValue::UInt(n)) => Ok(Some(*n)),
        Some(_) => Err(field_error(key)),
    }
}

fn take_any(j: &JsonValue, key: &str) -> (r: Option<JsonValue>)
    ensures
        opt_json(r) == any_field(j@, key@),
{
    broadcast use lemma_view;

    match j.get(key) {
        None => None,
        Some(JsonValue::Null) => None,
        Some(v) => Some(v.copy()),
    }
}

fn take_object(j: &JsonValue, key: &str) -> (r: AxonResult<Vec<(String, JsonValue)>>)
    ensures
        match r {
            Ok(v) => object_field(j@, key@) == Ok::<Seq<(Seq<char>, Json)>, Failure>(
                entry_models(v@),
            ),
            Err(e) => object_field(j@, key@) == Err::<Seq<(Seq<char>, Json)>, Failure>(e@),
        },
{
    broadcast use lemma_view;

    let empty: Vec<(String, JsonValue)> = Vec::new();
    assert(entry_models(empty@) =~= Seq::empty());
    match j.get(key) {
        None => Ok(empty),
        Some(JsonValue::Null) => Ok(empty),
        Some(JsonValue::Object(o)) => Ok(object_copy(o)),
        Some(_) => Err(field_error(key)),
    }
}

fn take_texts(j: &JsonValue, key: &str) -> (r: AxonResult<Vec<String>>)
    ensures
        match r {
            Ok(v) => texts_field(j@, key@) == Ok::<Seq<Seq<char>>, Failure>(texts(v@)),
            Err(e) => texts_field(j@, key@) == Err::<Seq<Seq<char>>, Failure>(e@),
        },
{
    broadcast use lemma_view;

    let mut out: Vec<String> = Vec::new();
    assert(texts(out@) =~= Seq::empty());
    match j.get(key) {
        None => Ok(out),
        Some(JsonValue::Null) => Ok(out),
        Some(JsonValue::Array(a)) => {
            let mut i: usize = 0;
            while i < a.len()
                invariant
                    i <= a@.len(),
                    out@.len() == i,
                    j@.field(key@) == Some(Json::Array(models(a@))),
                    forall|k: int|
                        0 <= k < i ==> (#[trigger] models(a@)[k]) == Json::Text(out@[k]@),
                decreases a@.len() - i,
            {
                match &a[i] {
                    JsonValue::Text(s) => {
                        assert(models(a@)[i as int] == Json::Text(s@));
                        out.push(s.clone());
                    },
                    _ => {
                        assert(!(models(a@)[i as int] is Text));
                        return Err(field_error(key));
                    },
                }
                i += 1;
            }
            assert(texts(out@) =~= item_texts(models(a@)));
            Ok(out)
        },
        Some(_) => Err(field_error(key)),
    }
}

impl Manifest {
    /// A manifest without entries.
    pub fn new() -> (r: Manifest)
        ensures
            r@ == empty_manifest(),
    {
        let r = Manifest {
            model: None,
            architecture: None,
            hyperparameters: Vec::new(),
            tokenizer: None,
            context_length: None,
            quantization: None,
            tensor_order: Vec::new(),
        };
        assert(r@ =~= empty_manifest());
        r
    }

    /// The manifest that a document holds.
    pub fn from_json(j: &JsonValue) -> (r: AxonResult<Manifest>)
        ensures
            match r {
                Ok(m) => manifest_of(j@) == Ok::<ManifestModel, Failure>(m@),
                Err(e) => manifest_of(j@) == Err::<ManifestModel, Failure>(e@),
            },
    {
        if j.as_object().is_none() {
            return Err(
                AxonError::InvalidManifest("manifest is not a JSON object".to_owned()),
            );
        }
        let model = take_text(j, "model")?;
        let architecture = take_text(j, "architecture")?;
        let hyperparameters = take_object(j, "hyperparameters")?;
        let context_length = take_count(j, "context_length")?;
        let tensor_order = take_texts(j, "tensor_order")?;
        let m = Manifest {
            model,
            architecture,
            hyperparameters,
            tokenizer: take_any(j, "tokenizer"),
            context_length,
            quantization: take_any(j, "quantization"),
            tensor_order,
        };
        Ok(m)
    }

    /// The document of the manifest.
    pub fn to_json(&self) -> (r: JsonValue)
        ensures
            r@ == manifest_json(self@),
    {
        broadcast use lemma_view;

        let mut o: Vec<(String, JsonValue)> = Vec::new();
        o.push(("model".to_owned(), opt_text_value(&self.model)));
        o.push(("architecture".to_owned(), opt_text_value(&self.architecture)));
        o.push(
            ("hyperparameters".to_owned(), JsonValue::Object(object_copy(&self.hyperparameters))),
        );
        o.push(("tokenizer".to_owned(), opt_value(&self.tokenizer)));
        o.push(
            (
                "context_length".to_owned(),
                match self.context_length {
                    Some(n) => JsonValue::UInt(n),
                    None => JsonValue::Null,
                },
            ),
        );
        o.push(("quantization".to_owned(), opt_value(&self.quantization)));
        o.push(("tensor_order".to_owned(), texts_value(&self.tensor_order)));
        assert(entry_models(o@) =~= manifest_entries(self@));
        JsonValue::Object(o)
    }

    /// The hyperparameter under `key`.
    pub fn hyperparameter(&self, key: &str) -> (r: Option<&JsonValue>)
        ensures
            match r {
                Some(v) => object_get(self@.hyperparameters, key@) == Some(v@),
                None => object_get(self@.hyperparameters, key@) is None,
            },
    {
        object_find(&self.hyperparameters, key)
    }
}

/// A manifest without entries.
pub open spec fn empty_manifest() -> ManifestModel {
    ManifestModel {
        model: None,
        architecture: None,
        hyperparameters: Seq::empty(),
        tokenizer: None,
        context_length: None,
        quantization: None,
        tensor_order: Seq::empty(),
    }
}

/// A text, or null.
pub fn opt_text_value(s: &Option<String>) -> (r: JsonValue)
    ensures
        r@ == text_or_null(opt_text(*s)),
{
    match s {
        Some(t) => JsonValue::Text(t.clone()),
        None => JsonValue::Null,
    }
}

/// A copy of a value, or null.
pub fn opt_value(v: &Option<JsonValue>) -> (r: JsonValue)
    ensures
        r@ == any_or_null(opt_json(*v)),
{
    match v {
        Some(j) => j.copy(),
        None => JsonValue::Null,
    }
}

/// A list of texts.
pub fn texts_value(v: &Vec<String>) -> (r: JsonValue)
    ensures
        r@ == text_list(texts(v@)),
{
    broadcast use lemma_view;

    let mut out: Vec<JsonValue> = Vec::new();
    let mut i: usize = 0;
    while i < v.len()
        invariant
            i <= v@.len(),
            out@.len() == i,
            forall|k: int| 0 <= k < i ==> (#[trigger] out@[k])@ == Json::Text(v@[k]@),
        decreases v@.len() - i,
    {
        out.push(JsonValue::Text(v[i].clone()));
        i += 1;
    }
    assert(models(out@) =~= text_list(texts(v@))->Array_0);
    JsonValue::Array(out)
}

// ── Laws ────────────────────────────────────────────────────────────
/// No two entries have one key.
pub open spec fn distinct_keys(o: Seq<(Seq<char>, Json)>) -> bool {
    forall|i: int, j: int| 0 <= i < j < o.len() ==> (#[trigger] o[i]).0 != (#[trigger] o[j]).0
}

/// Where no key comes twice, putting the entries into key order keeps what
/// stands under each key.
pub proof fn lemma_normal_get(o: Seq<(Seq<char>, Json)>, i: int)
    requires
        distinct_keys(o),
        0 <= i < o.len(),
    ensures
        object_get(normal_entries(o), o[i].0) == Some(normal(o[i].1)),
    decreases o.len(),
{
    let rest = o.drop_last();
    lemma_object_put_get(normal_entries(rest), o.last().0, normal(o.last().1), o[i].0);
    if i < o.len() - 1 {
        assert forall|a: int, b: int| 0 <= a < b < rest.len() implies (#[trigger] rest[a]).0 != (
        #[trigger] rest[b]).0 by {
            assert(o[a].0 != o[b].0);
        }
        assert(o[i].0 != o[o.len() - 1].0);
        assert(rest[i] == o[i]);
        lemma_normal_get(rest, i);
    }
}

proof fn lemma_manifest_keys(m: ManifestModel)
    ensures
        distinct_keys(manifest_entries(m)),
{
    reveal_strlit("model");
    reveal_strlit("architecture");
    reveal_strlit("hyperparameters");
    reveal_strlit("tokenizer");
    reveal_strlit("context_length");
    reveal_strlit("quantization");
    reveal_strlit("tensor_order");
    let e = manifest_entries(m);
    assert(e[0].0.len() == 5);
    assert(e[1].0.len() == 12 && e[1].0[0] == 'a');
    assert(e[2].0.len() == 15);
    assert(e[3].0.len() == 9);
    assert(e[4].0.len() == 14);
    assert(e[5].0.len() == 12 && e[5].0[0] == 'q');
    assert(e[6].0.len() == 12 && e[6].0[0] == 't');
}

/// The manifest with its values in normal form.
pub open spec fn normal_manifest(m: ManifestModel) -> ManifestModel {
    ManifestModel {
        hyperparameters: normal_entries(m.hyperparameters),
        tokenizer: match any_or_null(m.tokenizer) {
            j => if normal(j) is Null {
                None
            } else {
                Some(normal(j))
            },
        },
        quantization: match any_or_null(m.quantization) {
            j => if normal(j) is Null {
                None
            } else {
                Some(normal(j))
            },
        },
        ..m
    }
}

/// A manifest is read back from its own document, its values in normal form.
pub proof fn lemma_manifest_roundtrip(m: ManifestModel)
    ensures
        manifest_of(normal(manifest_json(m))) == Ok::<ManifestModel, Failure>(normal_manifest(m)),
{
    let e = manifest_entries(m);
    let j = normal(manifest_json(m));
    lemma_manifest_keys(m);
    lemma_normal_get(e, 0);
    lemma_normal_get(e, 1);
    lemma_normal_get(e, 2);
    lemma_normal_get(e, 3);
    lemma_normal_get(e, 4);
    lemma_normal_get(e, 5);
    lemma_normal_get(e, 6);
    let list = text_list(m.tensor_order);
    assert forall|i: int| 0 <= i < m.tensor_order.len() implies normal(
        #[trigger] list->Array_0[i],
    ) == list->Array_0[i] by {}
    assert(normal(list)->Array_0 =~= list->Array_0);
    assert(all_texts(list->Array_0));
    assert(item_texts(list->Array_0) =~= m.tensor_order);
}

/// The optional values differ at most in the bits of their fractions.
pub open spec fn alike_option(a: Option<Json>, b: Option<Json>) -> bool {
    match a {
        Some(x) => b matches Some(y) && alike(x, y),
        None => b is None,
    }
}

/// The manifests differ at most in the bits of fractions.
pub open spec fn alike_manifest(a: ManifestModel, b: ManifestModel) -> bool {
    &&& a.model == b.model
    &&& a.architecture == b.architecture
    &&& alike_entries(a.hyperparameters, b.hyperparameters)
    &&& alike_option(a.tokenizer, b.tokenizer)
    &&& a.context_length == b.context_length
    &&& alike_option(a.quantization, b.quantization)
    &&& a.tensor_order == b.tensor_order
}

/// Documents that are alike hold manifests that are alike.
pub proof fn lemma_manifest_alike(j: Json, k: Json)
    requires
        alike(j, k),
    ensures
        match manifest_of(j) {
            Ok(a) => manifest_of(k) matches Ok(b) && alike_manifest(a, b),
            Err(e) => manifest_of(k) == Err::<ManifestModel, Failure>(e),
        },
{
    if j is Object {
        let (x, y) = (j->Object_0, k->Object_0);
        lemma_alike_get(x, y, "model"@);
        lemma_alike_get(x, y, "architecture"@);
        lemma_alike_get(x, y, "hyperparameters"@);
        lemma_alike_get(x, y, "tokenizer"@);
        lemma_alike_get(x, y, "context_length"@);
        lemma_alike_get(x, y, "quantization"@);
        lemma_alike_get(x, y, "tensor_order"@);
        match (j.field("tensor_order"@), k.field("tensor_order"@)) {
            (Some(Json::Array(a)), Some(Json::Array(b))) => {
                assert forall|i: int| 0 <= i < a.len() implies (a[i] is Text <==> b[i] is Text) && (
                a[i] is Text ==> a[i] == b[i]) by {
                    assert(alike(a[i], b[i]));
                }
                assert(all_texts(a) ==> all_texts(b));
                assert(all_texts(b) ==> all_texts(a));
                if all_texts(a) {
                    assert(item_texts(a) =~= item_texts(b));
                }
            },
            _ => {},
        }
    }
}

/// An entry of a manifest that is null counts as one that is not there. One of another
/// kind than is asked for is refused by its name.
pub proof fn lemma_fields_read(j: Json, key: Seq<char>, v: Json)
    ensures
        ({
            let refused = Failure::InvalidManifest("invalid manifest field: "@ + key);
            let missing = j.field(key) is None || j.field(key) == Some(Json::Null);
            &&& missing ==> {
                &&& text_field(j, key) == Ok::<Option<Seq<char>>, Failure>(None)
                &&& texts_field(j, key) == Ok::<Seq<Seq<char>>, Failure>(Seq::empty())
                &&& count_field(j, key) == Ok::<Option<u64>, Failure>(None)
                &&& object_field(j, key) == Ok::<Seq<(Seq<char>, Json)>, Failure>(Seq::empty())
                &&& any_field(j, key) is None
            }
            &&& j.field(key) == Some(v) && v != Json::Null ==> {
                &&& any_field(j, key) == Some(v)
                &&& text_field(j, key) == match v.text() {
                    Some(s) => Ok::<Option<Seq<char>>, Failure>(Some(s)),
                    None => Err(refused),
                }
                &&& count_field(j, key) == match v.uint() {
                    Some(n) => Ok::<Option<u64>, Failure>(Some(n)),
                    None => Err(refused),
                }
                &&& object_field(j, key) == match v.entries() {
                    Some(o) => Ok::<Seq<(Seq<char>, Json)>, Failure>(o),
                    None => Err(refused),
                }
                &&& v.items() is None ==> texts_field(j, key) == Err::<Seq<Seq<char>>, Failure>(
                    refused,
                )
                &&& v.items() matches Some(a) ==> match texts_field(j, key) {
                    Ok(l) => l.len() == a.len() && forall|i: int|
                        0 <= i < a.len() ==> (#[trigger] a[i]).text() == Some(l[i]),
                    Err(e) => e == refused && exists|i: int|
                        0 <= i < a.len() && (#[trigger] a[i]).text() is None,
                }
            }
        }),
{
}

} // verus!

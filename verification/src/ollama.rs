//! Models in Ollama's on-disk store.
//!
//! The store keeps a manifest per model reference, which names the blob that
//! holds the model's GGUF file.
use vstd::prelude::*;

use crate::convert::{gguf_axon, gguf_faithful, gguf_to_axon_with_metadata, opt_str};
use crate::error::{AxonError, AxonResult, Failure};
use crate::json::{
    entry_models, items_of, lemma_object_put_get, lemma_view, models, object_get, object_insert,
    object_put, text_of, Json, JsonValue,
};
use crate::json_codec::{json_document, parse_json};
use crate::runtime::outcome;
use crate::text::{
    concat2, concat3, concat4, ends_with, lemma_split, rfind_char, split, split_text, str_eq,
    strip_prefix, texts,
};

verus! {

// ── References ──────────────────────────────────────────────────────
/// A model reference, taken apart.
#[verifier::ext_equal]
pub struct Reference {
    pub registry: Seq<char>,
    pub namespace: Seq<char>,
    pub model: Seq<char>,
    pub tag: Seq<char>,
}

/// The place of the last colon.
pub open spec fn last_colon(s: Seq<char>) -> Option<int> {
    if s.contains(':') {
        Some(s.index_of_last(':')->0)
    } else {
        None
    }
}

/// What stands before the last colon.
pub open spec fn name_part(s: Seq<char>) -> Seq<char> {
    match last_colon(s) {
        Some(i) => s.take(i),
        None => s,
    }
}

/// What stands behind the last colon.
pub open spec fn tag_part(s: Seq<char>) -> Seq<char> {
    match last_colon(s) {
        Some(i) => s.skip(i + 1),
        None => "latest"@,
    }
}

/// A reference is a model, a namespace and a model, or a registry, a namespace
/// and a model, with slashes between, and a tag behind the last colon. What is
/// left out has a default.
pub open spec fn reference_of(s: Seq<char>) -> Reference {
    let p = split_text(name_part(s), '/');
    let (registry, namespace, model) = if p.len() == 1 {
        ("registry.ollama.ai"@, "library"@, p[0])
    } else if p.len() == 2 {
        ("registry.ollama.ai"@, p[0], p[1])
    } else if p.len() == 3 {
        (p[0], p[1], p[2])
    } else {
        ("registry.ollama.ai"@, "library"@, name_part(s))
    };
    Reference { registry, namespace, model, tag: tag_part(s) }
}

/// A model reference, taken apart.
#[derive(Debug)]
pub struct OllamaRef {
    /// Where the model comes from.
    pub registry: String,
    /// Whose it is.
    pub namespace: String,
    /// What it is called.
    pub model: String,
    /// Which of its variants is meant.
    pub tag: String,
}

impl View for OllamaRef {
    type V = Reference;

    open spec fn view(&self) -> Reference {
        Reference {
            registry: self.registry@,
            namespace: self.namespace@,
            model: self.model@,
            tag: self.tag@,
        }
    }
}

/// Takes a model reference apart.
pub fn parse_ollama_ref(s: &str) -> (r: OllamaRef)
    ensures
        r@ == reference_of(s@),
{
    let (name, tag) = match rfind_char(s, ':') {
        Some(i) => {
            let n = s.unicode_len();
            proof {
                lemma_last_colon(s@, i as int);
            }
            (s.substring_char(0, i), s.substring_char(i + 1, n))
        },
        None => (s, "latest"),
    };
    assert(name@ =~= name_part(s@));
    assert(tag@ =~= tag_part(s@));
    let p = split(name, '/');
    let ghost parts = texts(p@);
    let r = if p.len() == 1 {
        assert(parts[0] == p@[0]@);
        ("registry.ollama.ai".to_owned(), "library".to_owned(), p[0].clone())
    } else if p.len() == 2 {
        assert(parts[0] == p@[0]@ && parts[1] == p@[1]@);
        ("registry.ollama.ai".to_owned(), p[0].clone(), p[1].clone())
    } else if p.len() == 3 {
        assert(parts[0] == p@[0]@ && parts[1] == p@[1]@ && parts[2] == p@[2]@);
        (p[0].clone(), p[1].clone(), p[2].clone())
    } else {
        ("registry.ollama.ai".to_owned(), "library".to_owned(), name.to_owned())
    };
    OllamaRef { registry: r.0, namespace: r.1, model: r.2, tag: tag.to_owned() }
}

proof fn lemma_last_colon(s: Seq<char>, i: int)
    requires
        0 <= i < s.len(),
        s[i] == ':',
        forall|j: int| i < j < s.len() ==> #[trigger] s[j] != ':',
    ensures
        last_colon(s) == Some(i),
{
    s.index_of_last_ensures(':');
}

// ── Places in the store ─────────────────────────────────────────────
/// Where the store is, as the parts of a path: where the environment says, else
/// under the user's directory, else here.
pub open spec fn models_dir(
    ollama_models: Option<Seq<char>>,
    user_profile: Option<Seq<char>>,
    home: Option<Seq<char>>,
) -> Seq<Seq<char>> {
    match ollama_models {
        Some(p) => seq![p],
        None => match user_profile {
            Some(p) => seq![p, ".ollama"@, "models"@],
            None => match home {
                Some(p) => seq![p, ".ollama"@, "models"@],
                None => seq![".ollama"@, "models"@],
            },
        },
    }
}

fn three(a: &str, b: &str, c: &str) -> (r: Vec<String>)
    ensures
        texts(r@) == seq![a@, b@, c@],
{
    let mut v: Vec<String> = Vec::new();
    v.push(a.to_owned());
    v.push(b.to_owned());
    v.push(c.to_owned());
    assert(texts(v@) =~= seq![a@, b@, c@]);
    v
}

/// Where the store is, as the parts of a path, by the values of `OLLAMA_MODELS`,
/// `USERPROFILE` and `HOME`.
pub fn default_ollama_models_dir(
    ollama_models: Option<&str>,
    user_profile: Option<&str>,
    home: Option<&str>,
) -> (r: Vec<String>)
    ensures
        texts(r@) == models_dir(opt_str(ollama_models), opt_str(user_profile), opt_str(home)),
{
    if let Some(p) = ollama_models {
        let mut v: Vec<String> = Vec::new();
        v.push(p.to_owned());
        assert(texts(v@) =~= seq![p@]);
        return v;
    }
    if let Some(p) = user_profile {
        return three(p, ".ollama", "models");
    }
    if let Some(p) = home {
        return three(p, ".ollama", "models");
    }
    let mut v: Vec<String> = Vec::new();
    v.push(".ollama".to_owned());
    v.push("models".to_owned());
    assert(texts(v@) =~= seq![".ollama"@, "models"@]);
    v
}

/// Where in the store the manifest of a reference is, as the parts of a path.
pub open spec fn manifest_parts(r: Reference) -> Seq<Seq<char>> {
    seq!["manifests"@, r.registry, r.namespace, r.model, r.tag]
}

/// Where in the store the manifest of a reference is, as the parts of a path.
pub fn ollama_manifest_parts(model_ref: &str) -> (r: Vec<String>)
    ensures
        texts(r@) == manifest_parts(reference_of(model_ref@)),
{
    let x = parse_ollama_ref(model_ref);
    let mut v: Vec<String> = Vec::new();
    v.push("manifests".to_owned());
    v.push(x.registry.clone());
    v.push(x.namespace.clone());
    v.push(x.model.clone());
    v.push(x.tag.clone());
    assert(texts(v@) =~= manifest_parts(x@));
    v
}

/// The name of the blob with a digest.
pub open spec fn blob_name(digest: Seq<char>) -> Seq<char> {
    "sha256-"@ + (if "sha256:"@.is_prefix_of(digest) {
        digest.skip("sha256:"@.len() as int)
    } else {
        digest
    })
}

/// The name of the blob with a digest.
pub fn ollama_blob_name(digest: &str) -> (r: String)
    ensures
        r@ == blob_name(digest@),
{
    match strip_prefix(digest, "sha256:") {
        Some(h) => {
            assert(digest@.skip("sha256:"@.len() as int) =~= h@);
            concat2("sha256-", h)
        },
        None => concat2("sha256-", digest),
    }
}

// ── Manifests ───────────────────────────────────────────────────────
/// Whether a layer holds the model itself.
pub open spec fn is_model_layer(j: Json) -> bool {
    text_of(j.field("mediaType"@)) == Some("application/vnd.ollama.image.model"@)
}

/// The first layer from the `k`th on that holds the model itself.
pub open spec fn model_layer(a: Seq<Json>, k: int) -> Option<Json>
    decreases a.len() - k,
{
    if k >= a.len() {
        None
    } else if is_model_layer(a[k]) {
        Some(a[k])
    } else {
        model_layer(a, k + 1)
    }
}

/// The digest of the model that the document of a manifest names, or why it
/// names none.
pub open spec fn named_digest(j: Json, path: Seq<char>) -> Result<Seq<char>, Failure> {
    let layer = match items_of(j.field("layers"@)) {
        Some(a) => model_layer(a, 0),
        None => None,
    };
    match layer {
        None => Err(
            Failure::InvalidManifest(
                "Ollama manifest "@ + path + " does not contain a local model layer"@,
            ),
        ),
        Some(l) => match text_of(l.field("digest"@)) {
            Some(d) => Ok(d),
            None => Err(Failure::InvalidManifest("Ollama model layer missing digest"@)),
        },
    }
}

/// The digest of the model that a manifest names, or why it names none.
pub open spec fn digest_in(manifest: Seq<u8>, path: Seq<char>) -> Result<Seq<char>, Failure> {
    match json_document(manifest) {
        Err(e) => Err(Failure::InvalidManifest("Ollama manifest JSON: "@ + e)),
        Ok(j) => named_digest(j, path),
    }
}

fn find_model_layer(a: &Vec<JsonValue>) -> (r: Option<&JsonValue>)
    ensures
        match r {
            Some(l) => model_layer(models(a@), 0) == Some(l@),
            None => model_layer(models(a@), 0) is None,
        },
{
    let mut i: usize = 0;
    while i < a.len()
        invariant
            i <= a@.len(),
            model_layer(models(a@), 0) == model_layer(models(a@), i as int),
        decreases a@.len() - i,
    {
        assert(models(a@)[i as int] == a@[i as int]@);
        if let Some(v) = a[i].get("mediaType") {
            if let Some(s) = v.as_str() {
                if str_eq(s, "application/vnd.ollama.image.model") {
                    return Some(&a[i]);
                }
            }
        }
        i += 1;
    }
    None
}

/// The digest of the model that the document of a manifest, read from `path`,
/// names.
pub fn ollama_document_digest(j: &JsonValue, path: &str) -> (r: AxonResult<String>)
    ensures
        match r {
            Ok(d) => named_digest(j@, path@) == Ok::<Seq<char>, Failure>(d@),
            Err(e) => named_digest(j@, path@) == Err::<Seq<char>, Failure>(e@),
        },
{
    let layers = match j.get("layers") {
        Some(v) => v.as_array(),
        None => None,
    };
    let layer = match layers {
        Some(a) => find_model_layer(a),
        None => None,
    };
    let layer = match layer {
        Some(l) => l,
        None => return Err(
            AxonError::InvalidManifest(
                concat3("Ollama manifest ", path, " does not contain a local model layer"),
            ),
        ),
    };
    match layer.get("digest") {
        Some(v) => match v.as_str() {
            Some(d) => Ok(d.to_owned()),
            None => Err(
                AxonError::InvalidManifest("Ollama model layer missing digest".to_owned()),
            ),
        },
        None => Err(AxonError::InvalidManifest("Ollama model layer missing digest".to_owned())),
    }
}

/// The digest of the model that a manifest, read from `path`, names.
pub fn ollama_digest(manifest: &[u8], path: &str) -> (r: AxonResult<String>)
    ensures
        match r {
            Ok(d) => digest_in(manifest@, path@) == Ok::<Seq<char>, Failure>(d@),
            Err(e) => digest_in(manifest@, path@) == Err::<Seq<char>, Failure>(e@),
        },
{
    let j = match parse_json(manifest) {
        Ok(j) => j,
        Err(e) => return Err(
            AxonError::InvalidManifest(concat2("Ollama manifest JSON: ", e.as_str())),
        ),
    };
    ollama_document_digest(&j, path)
}

// ── Paths ───────────────────────────────────────────────────────────
/// The text of the path that the first `n` parts make: with a slash between two
/// parts, unless one is there or nothing stands before it. A part that begins with
/// a slash is a path of its own.
pub open spec fn path_text(p: Seq<Seq<char>>, n: int) -> Seq<char>
    decreases n,
{
    if n <= 0 {
        Seq::empty()
    } else {
        let before = path_text(p, n - 1);
        if "/"@.is_prefix_of(p[n - 1]) {
            p[n - 1]
        } else if before.len() == 0 || "/"@.is_suffix_of(before) {
            before + p[n - 1]
        } else {
            before + "/"@ + p[n - 1]
        }
    }
}

/// The text of a path, by its parts.
pub fn show_path(p: &Vec<String>) -> (r: String)
    ensures
        r@ == path_text(texts(p@), p@.len() as int),
{
    let mut out = String::new();
    let mut i: usize = 0;
    assert(out@ =~= path_text(texts(p@), 0));
    while i < p.len()
        invariant
            i <= p@.len(),
            out@ == path_text(texts(p@), i as int),
        decreases p@.len() - i,
    {
        let part = p[i].as_str();
        assert(texts(p@)[i as int] == part@);
        out = if strip_prefix(part, "/").is_some() {
            part.to_owned()
        } else if out.as_str().unicode_len() == 0 || ends_with(out.as_str(), "/") {
            concat2(out.as_str(), part)
        } else {
            concat3(out.as_str(), "/", part)
        };
        i += 1;
    }
    out
}

/// The path of the manifest of a reference in the store at `dir`, by its parts.
pub open spec fn manifest_path_of(dir: Seq<char>, model_ref: Seq<char>) -> Seq<Seq<char>> {
    seq![dir] + manifest_parts(reference_of(model_ref))
}

/// The path of the blob with a digest in the store at `dir`, by its parts.
pub open spec fn blob_path_of(dir: Seq<char>, digest: Seq<char>) -> Seq<Seq<char>> {
    seq![dir] + seq!["blobs"@, blob_name(digest)]
}

/// The path of the manifest of a reference in the store at `dir`, by its parts.
pub fn ollama_manifest_path(dir: &str, model_ref: &str) -> (r: Vec<String>)
    ensures
        texts(r@) == manifest_path_of(dir@, model_ref@),
{
    let rest = ollama_manifest_parts(model_ref);
    let ghost parts = texts(rest@);
    let mut v: Vec<String> = Vec::new();
    v.push(dir.to_owned());
    let mut i: usize = 0;
    assert(texts(v@) =~= seq![dir@] + parts.take(0));
    while i < rest.len()
        invariant
            i <= rest@.len(),
            parts == texts(rest@),
            texts(v@) == seq![dir@] + parts.take(i as int),
        decreases rest@.len() - i,
    {
        let x = rest[i].clone();
        assert(parts[i as int] == x@);
        assert(texts(v@.push(x)) =~= texts(v@).push(x@));
        assert(seq![dir@] + parts.take(i + 1) =~= (seq![dir@] + parts.take(i as int)).push(x@));
        v.push(x);
        i += 1;
    }
    assert(parts.take(i as int) =~= parts);
    v
}

/// The path of the blob with a digest in the store at `dir`, by its parts.
pub fn ollama_blob_path(dir: &str, digest: &str) -> (r: Vec<String>)
    ensures
        texts(r@) == blob_path_of(dir@, digest@),
{
    let r = three(dir, "blobs", ollama_blob_name(digest).as_str());
    assert(texts(r@) =~= blob_path_of(dir@, digest@));
    r
}

/// Where a model of the store was found.
#[derive(Debug)]
pub struct OllamaModelSource {
    /// The path of the manifest, by its parts.
    pub manifest_path: Vec<String>,
    /// The path of the blob, by its parts.
    pub blob_path: Vec<String>,
    /// The reference.
    pub model_ref: String,
    /// The digest of the blob.
    pub digest: String,
}

/// What an [`OllamaModelSource`] says.
#[verifier::ext_equal]
pub struct Source {
    pub manifest_path: Seq<Seq<char>>,
    pub blob_path: Seq<Seq<char>>,
    pub model_ref: Seq<char>,
    pub digest: Seq<char>,
}

impl View for OllamaModelSource {
    type V = Source;

    open spec fn view(&self) -> Source {
        Source {
            manifest_path: texts(self.manifest_path@),
            blob_path: texts(self.blob_path@),
            model_ref: self.model_ref@,
            digest: self.digest@,
        }
    }
}

/// Where a model is found in the store at `dir`, by what reading its manifest gave
/// and by whether its blob is there, or why it is not.
pub open spec fn source_of(
    dir: Seq<char>,
    model_ref: Seq<char>,
    manifest: Result<Seq<u8>, Seq<char>>,
    blob_exists: bool,
) -> Result<Source, Failure> {
    let manifest_path = manifest_path_of(dir, model_ref);
    let shown = path_text(manifest_path, manifest_path.len() as int);
    match manifest {
        Err(e) => Err(
            Failure::InvalidManifest("failed to read Ollama manifest "@ + shown + ": "@ + e),
        ),
        Ok(m) => match digest_in(m, shown) {
            Err(e) => Err(e),
            Ok(digest) => {
                let blob_path = blob_path_of(dir, digest);
                if blob_exists {
                    Ok(Source { manifest_path, blob_path, model_ref, digest })
                } else {
                    Err(
                        Failure::InvalidManifest(
                            "Ollama model blob is missing: "@ + path_text(
                                blob_path,
                                blob_path.len() as int,
                            ),
                        ),
                    )
                }
            },
        },
    }
}

/// What reading a file gave.
pub open spec fn reading(r: Result<&[u8], &str>) -> Result<Seq<u8>, Seq<char>> {
    match r {
        Ok(b) => Ok(b@),
        Err(e) => Err(e@),
    }
}

/// Decides where a model is found in the store at `dir`. `manifest` is what reading
/// the file at [`ollama_manifest_path`] gave: its bytes, or the text of the error.
/// `blob_exists` says whether the file at [`ollama_blob_path`] for the digest that
/// [`ollama_digest`] finds is there.
pub fn resolve_ollama_model(
    dir: &str,
    model_ref: &str,
    manifest: Result<&[u8], &str>,
    blob_exists: bool,
) -> (r: AxonResult<OllamaModelSource>)
    ensures
        match r {
            Ok(x) => source_of(dir@, model_ref@, reading(manifest), blob_exists) == Ok::<
                Source,
                Failure,
            >(x@),
            Err(e) => source_of(dir@, model_ref@, reading(manifest), blob_exists) == Err::<
                Source,
                Failure,
            >(e@),
        },
{
    let manifest_path = ollama_manifest_path(dir, model_ref);
    let shown = show_path(&manifest_path);
    let bytes = match manifest {
        Ok(b) => b,
        Err(e) => return Err(
            AxonError::InvalidManifest(
                concat4("failed to read Ollama manifest ", shown.as_str(), ": ", e),
            ),
        ),
    };
    let digest = ollama_digest(bytes, shown.as_str())?;
    let blob_path = ollama_blob_path(dir, digest.as_str());
    if !blob_exists {
        return Err(
            AxonError::InvalidManifest(
                concat2("Ollama model blob is missing: ", show_path(&blob_path).as_str()),
            ),
        );
    }
    Ok(OllamaModelSource { manifest_path, blob_path, model_ref: model_ref.to_owned(), digest })
}

/// The facts that an imported model of the store carries.
pub open spec fn source_facts(x: Source) -> Seq<(Seq<char>, Json)> {
    let o = object_put(Seq::empty(), "source_format"@, Json::Text("ollama"@));
    let o = object_put(o, "ollama.model"@, Json::Text(x.model_ref));
    let o = object_put(o, "ollama.digest"@, Json::Text(x.digest));
    object_put(
        o,
        "ollama.manifest_path"@,
        Json::Text(path_text(x.manifest_path, x.manifest_path.len() as int)),
    )
}

/// The `.axon` file that the blob of a model of the store becomes. `file_stem`
/// is the blob's file name without its ending.
pub fn ollama_model_to_axon(blob: &[u8], source: &OllamaModelSource, file_stem: Option<&str>) -> (r:
    AxonResult<Vec<u8>>)
    ensures
        outcome(r) == gguf_axon(blob@, source_facts(source@), opt_str(file_stem)),
        gguf_faithful(outcome(r), blob@, source_facts(source@), opt_str(file_stem)),
{
    broadcast use lemma_view;

    let mut o: Vec<(String, JsonValue)> = Vec::new();
    assert(entry_models(o@) =~= Seq::empty());
    object_insert(&mut o, "source_format".to_owned(), JsonValue::Text("ollama".to_owned()));
    object_insert(&mut o, "ollama.model".to_owned(), JsonValue::Text(source.model_ref.clone()));
    object_insert(&mut o, "ollama.digest".to_owned(), JsonValue::Text(source.digest.clone()));
    object_insert(
        &mut o,
        "ollama.manifest_path".to_owned(),
        JsonValue::Text(show_path(&source.manifest_path)),
    );
    gguf_to_axon_with_metadata(blob, file_stem, &o)
}

// ── Laws ────────────────────────────────────────────────────────────
/// A reference ends with a tag behind its last colon, and means the latest without one.
/// Before it stands a model, a namespace and a model, or a registry, a namespace and a
/// model, with slashes between; the usual registry and namespace are meant without them.
pub proof fn lemma_reference(
    registry: Seq<char>,
    namespace: Seq<char>,
    model: Seq<char>,
    tag: Seq<char>,
)
    requires
        !registry.contains('/'),
        !namespace.contains('/'),
        !model.contains('/'),
        !tag.contains(':'),
    ensures
        ({
            let slash = seq!['/'];
            let one = model;
            let two = namespace + slash + model;
            let three = registry + slash + (namespace + slash + model);
            let tagged = |name: Seq<char>| name + seq![':'] + tag;
            let usual = "registry.ollama.ai"@;
            let library = "library"@;
            &&& reference_of(tagged(one)) == Reference {
                registry: usual,
                namespace: library,
                model,
                tag,
            }
            &&& reference_of(tagged(two)) == Reference { registry: usual, namespace, model, tag }
            &&& reference_of(tagged(three)) == Reference { registry, namespace, model, tag }
            &&& !model.contains(':') ==> reference_of(one) == Reference {
                registry: usual,
                namespace: library,
                model,
                tag: "latest"@,
            }
        }),
{
    let slash = seq!['/'];
    let two = namespace + slash + model;
    let three = registry + slash + two;
    lemma_tagged(model, tag);
    lemma_tagged(two, tag);
    lemma_tagged(three, tag);
    lemma_split(model, '/', Seq::empty());
    lemma_split(namespace, '/', model);
    lemma_split(registry, '/', two);
}

proof fn lemma_tagged(name: Seq<char>, tag: Seq<char>)
    requires
        !tag.contains(':'),
    ensures
        name_part(name + seq![':'] + tag) == name,
        tag_part(name + seq![':'] + tag) == tag,
{
    let s = name + seq![':'] + tag;
    let n = name.len() as int;
    assert(s[n] == ':');
    assert(s.contains(':'));
    s.index_of_last_ensures(':');
    let i = s.index_of_last(':')->0;
    if i > n {
        assert(tag[i - n - 1] == ':');
    }
    assert(i == n);
    assert(s.take(n) =~= name);
    assert(s.skip(n + 1) =~= tag);
}

/// The digest of a manifest is that of its first layer that holds a model.
pub proof fn lemma_named_digest(j: Json, path: Seq<char>, layers: Seq<Json>, i: int)
    requires
        j.field("layers"@) == Some(Json::Array(layers)),
        0 <= i < layers.len(),
        layers[i].field("mediaType"@) == Some(Json::Text("application/vnd.ollama.image.model"@)),
        forall|k: int|
            0 <= k < i ==> (#[trigger] layers[k]).field("mediaType"@) != Some(
                Json::Text("application/vnd.ollama.image.model"@),
            ),
    ensures
        match layers[i].field("digest"@) {
            Some(Json::Text(d)) => named_digest(j, path) == Ok::<Seq<char>, Failure>(d),
            _ => named_digest(j, path) is Err,
        },
{
    lemma_model_layer(layers, 0, i);
}

proof fn lemma_model_layer(layers: Seq<Json>, k: int, i: int)
    requires
        0 <= k <= i < layers.len(),
        layers[i].field("mediaType"@) == Some(Json::Text("application/vnd.ollama.image.model"@)),
        forall|n: int|
            k <= n < i ==> (#[trigger] layers[n]).field("mediaType"@) != Some(
                Json::Text("application/vnd.ollama.image.model"@),
            ),
    ensures
        model_layer(layers, k) == Some(layers[i]),
    decreases i - k,
{
    if k < i {
        assert(layers[k].field("mediaType"@) != Some(
            Json::Text("application/vnd.ollama.image.model"@),
        ));
        lemma_model_layer(layers, k + 1, i);
    }
}

/// In the store, a manifest stands under its registry, its namespace and its model, by
/// its tag, and a blob under the digits of its digest.
pub proof fn lemma_places(dir: Seq<char>, model_ref: Seq<char>, hex: Seq<char>)
    ensures
        manifest_path_of(dir, model_ref) == seq![
            dir,
            "manifests"@,
            reference_of(model_ref).registry,
            reference_of(model_ref).namespace,
            reference_of(model_ref).model,
            reference_of(model_ref).tag,
        ],
        blob_path_of(dir, "sha256:"@ + hex) == seq![dir, "blobs"@, "sha256-"@ + hex],
{
    let d = "sha256:"@ + hex;
    assert(d.subrange(0, "sha256:"@.len() as int) =~= "sha256:"@);
    assert(d.skip("sha256:"@.len() as int) =~= hex);
    assert(manifest_path_of(dir, model_ref) =~= seq![
        dir,
        "manifests"@,
        reference_of(model_ref).registry,
        reference_of(model_ref).namespace,
        reference_of(model_ref).model,
        reference_of(model_ref).tag,
    ]);
    assert(blob_path_of(dir, d) =~= seq![dir, "blobs"@, "sha256-"@ + hex]);
}

/// An imported model of the store says where it is from: its kind of store, the reference
/// that was asked for, the digest of its blob, and the path of its manifest.
pub proof fn lemma_source_facts(x: Source)
    ensures
        ({
            let o = source_facts(x);
            &&& object_get(o, "source_format"@) == Some(Json::Text("ollama"@))
            &&& object_get(o, "ollama.model"@) == Some(Json::Text(x.model_ref))
            &&& object_get(o, "ollama.digest"@) == Some(Json::Text(x.digest))
            &&& object_get(o, "ollama.manifest_path"@) == Some(
                Json::Text(path_text(x.manifest_path, x.manifest_path.len() as int)),
            )
        }),
{
    reveal_strlit("source_format");
    reveal_strlit("ollama.model");
    reveal_strlit("ollama.digest");
    reveal_strlit("ollama.manifest_path");
    let (p, q, r, s) = (
        "source_format"@,
        "ollama.model"@,
        "ollama.digest"@,
        "ollama.manifest_path"@,
    );
    assert(p[0] == 's' && q[0] == 'o' && r[0] == 'o' && s[0] == 'o');
    assert(q[7] == 'm' && r[7] == 'd' && s[7] == 'm' && q[8] == 'o' && s[8] == 'a');
    let (u, v, w) = (Json::Text("ollama"@), Json::Text(x.model_ref), Json::Text(x.digest));
    let e = Seq::<(Seq<char>, Json)>::empty();
    let a = object_put(e, p, u);
    let b = object_put(a, q, v);
    let c = object_put(b, r, w);
    let t = Json::Text(path_text(x.manifest_path, x.manifest_path.len() as int));
    lemma_object_put_get(e, p, u, p);
    lemma_object_put_get(a, q, v, p);
    lemma_object_put_get(b, r, w, p);
    lemma_object_put_get(c, s, t, p);
    lemma_object_put_get(b, r, w, q);
    lemma_object_put_get(c, s, t, q);
    lemma_object_put_get(c, s, t, r);
}

/// One more part goes behind the path with a slash between the two, of which there is one
/// only, and none at the front. A part that begins with a slash is the whole path.
pub proof fn lemma_path(p: Seq<Seq<char>>, part: Seq<char>)
    ensures
        ({
            let before = path_text(p, p.len() as int);
            let path = path_text(p.push(part), p.len() as int + 1);
            let ends = before.len() > 0 && before.last() == '/';
            let begins = part.len() > 0 && part[0] == '/';
            &&& begins ==> path == part
            &&& !begins && before.len() == 0 ==> path == part
            &&& !begins && before.len() > 0 && ends ==> path == before + part
            &&& !begins && before.len() > 0 && !ends ==> path == before + seq!['/'] + part
        }),
{
    reveal_strlit("/");
    let n = p.len() as int;
    let q = p.push(part);
    lemma_path_prefix(p, q, n);
    let before = path_text(p, n);
    let one = "/"@;
    assert(one =~= seq!['/']);
    assert(q[n] == part);
    assert(one.is_prefix_of(part) <==> part.len() > 0 && part[0] == '/') by {
        if part.len() > 0 {
            let head = part.subrange(0, 1);
            assert(head.len() == 1 && head[0] == part[0]);
            assert(one.is_prefix_of(part) ==> one[0] == head[0]);
            assert(part[0] == '/' ==> one =~= head);
        }
    }
    assert(one.is_suffix_of(before) <==> before.len() > 0 && before.last() == '/') by {
        if before.len() > 0 {
            let m = before.len() as int;
            let tail = before.subrange(m - 1, m);
            assert(tail.len() == 1 && tail[0] == before[m - 1]);
            assert(one.is_suffix_of(before) ==> one[0] == tail[0]);
            assert(before[m - 1] == '/' ==> one =~= tail);
        }
    }
    assert(before.len() == 0 ==> before + part =~= part);
}

proof fn lemma_path_prefix(p: Seq<Seq<char>>, q: Seq<Seq<char>>, n: int)
    requires
        n <= p.len(),
        n <= q.len(),
        forall|i: int| 0 <= i < n ==> p[i] == q[i],
    ensures
        path_text(p, n) == path_text(q, n),
    decreases n,
{
    if n > 0 {
        lemma_path_prefix(p, q, n - 1);
    }
}

} // verus!

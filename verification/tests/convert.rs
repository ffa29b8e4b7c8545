use axon::convert::{export_manifest_json, gguf_to_axon, gguf_to_axon_with_metadata, raw_file_name};
use axon::error::AxonError;
use axon::gguf::parse_gguf_header;
use axon::json::JsonValue;
use axon::json_codec::parse_json;
use axon::ollama::{
    default_ollama_models_dir, ollama_blob_name, ollama_digest, ollama_document_digest,
    ollama_manifest_parts, ollama_model_to_axon, parse_ollama_ref, resolve_ollama_model,
    OllamaModelSource,
};
use axon::runtime::AxonRuntime;
use axon::safetensors::{parse_safetensors_header, safetensors_document, safetensors_to_axon};
use axon::tensor::DType;

fn put_string(out: &mut Vec<u8>, s: &str) {
    out.extend_from_slice(&(s.len() as u64).to_le_bytes());
    out.extend_from_slice(s.as_bytes());
}

fn put_entry(out: &mut Vec<u8>, key: &str, kind: u32, value: &[u8]) {
    put_string(out, key);
    out.extend_from_slice(&kind.to_le_bytes());
    out.extend_from_slice(value);
}

fn put_tensor(out: &mut Vec<u8>, name: &str, shape: &[u64], kind: u32, offset: u64) {
    put_string(out, name);
    out.extend_from_slice(&(shape.len() as u32).to_le_bytes());
    for d in shape {
        out.extend_from_slice(&d.to_le_bytes());
    }
    out.extend_from_slice(&kind.to_le_bytes());
    out.extend_from_slice(&offset.to_le_bytes());
}

fn text_value(s: &str) -> Vec<u8> {
    let mut v = Vec::new();
    put_string(&mut v, s);
    v
}

fn small_gguf() -> Vec<u8> {
    let mut b = Vec::new();
    b.extend_from_slice(b"GGUF");
    b.extend_from_slice(&3u32.to_le_bytes());
    b.extend_from_slice(&2u64.to_le_bytes());
    b.extend_from_slice(&6u64.to_le_bytes());
    put_entry(&mut b, "general.architecture", 8, &text_value("llama"));
    put_entry(&mut b, "general.name", 8, &text_value("tiny"));
    put_entry(&mut b, "llama.block_count", 4, &2u32.to_le_bytes());
    put_entry(&mut b, "shift", 1, &[0xfe]);
    put_entry(&mut b, "eps", 6, &0.5f32.to_bits().to_le_bytes());
    let mut list = Vec::new();
    list.extend_from_slice(&7u32.to_le_bytes());
    list.extend_from_slice(&2u64.to_le_bytes());
    list.extend_from_slice(&[1, 0]);
    put_entry(&mut b, "flags", 9, &list);
    put_tensor(&mut b, "second", &[2], 0, 32);
    put_tensor(&mut b, "first", &[4], 26, 0);
    while b.len() % 32 != 0 {
        b.push(0);
    }
    b.extend_from_slice(&[1; 32]);
    b.extend_from_slice(&[2; 8]);
    b
}

#[test]
fn a_gguf_file_is_read() {
    let file = small_gguf();
    let h = parse_gguf_header(&file).unwrap();
    assert_eq!(h.version, 3);
    assert_eq!(h.tensor_count, 2);
    assert_eq!(h.metadata.len(), 6);
    let get = |k: &str| h.metadata.iter().find(|e| e.0 == k).map(|e| &e.1).unwrap();
    assert_eq!(get("general.name").as_str(), Some("tiny"));
    assert_eq!(get("llama.block_count").as_u64(), Some(2));
    assert!(matches!(get("shift"), JsonValue::Int(-2)));
    match get("eps") {
        JsonValue::Float(bits) => assert_eq!(*bits, 0.5f64.to_bits()),
        other => panic!("unexpected {:?}", other),
    }
    let flags = get("flags").as_array().unwrap();
    assert_eq!(flags[0].as_bool(), Some(true));
    assert_eq!(flags[1].as_bool(), Some(false));

    assert_eq!(h.tensors[0].name, "second");
    assert_eq!(h.tensors[0].data_size, 8);
    assert_eq!(h.tensors[0].dtype, DType::F32);
    assert_eq!(h.tensors[1].name, "first");
    assert_eq!(h.tensors[1].dtype, DType::I32);
    assert_eq!(h.tensors[1].data_size, 32);
    assert_eq!(h.tensors[0].data_offset, h.tensors[1].data_offset + 32);
}

#[test]
fn a_gguf_file_is_converted() {
    let file = small_gguf();
    let axon = gguf_to_axon(&file, Some("stem")).unwrap();
    let mut rt = AxonRuntime::open(&axon).unwrap();
    assert_eq!(rt.model_name(), "tiny");
    assert_eq!(rt.architecture(), "llama");
    assert_eq!(rt.tensor("first").unwrap(), vec![1; 32]);
    assert_eq!(rt.tensor("second").unwrap(), vec![2; 8]);
    let m = rt.manifest();
    assert_eq!(m.hyperparameter("source_format").unwrap().as_str(), Some("gguf"));
    assert_eq!(m.hyperparameter("gguf.version").unwrap().as_u64(), Some(3));
    assert_eq!(m.hyperparameter("gguf.tensor_type.first").unwrap().as_u64(), Some(26));
    let md = m.hyperparameter("gguf.metadata").unwrap();
    assert_eq!(md.get("llama.block_count").unwrap().as_u64(), Some(2));
}

#[test]
fn facts_of_the_caller_are_kept() {
    let file = small_gguf();
    let extra = vec![
        ("ollama.model".to_string(), JsonValue::Text("mine".to_string())),
        ("source_format".to_string(), JsonValue::Text("other".to_string())),
    ];
    let axon = gguf_to_axon_with_metadata(&file, None, &extra).unwrap();
    let rt = AxonRuntime::open(&axon).unwrap();
    assert_eq!(rt.model_name(), "mine");
    assert_eq!(
        rt.manifest().hyperparameter("source_format").unwrap().as_str(),
        Some("other")
    );
}

#[test]
fn bad_gguf_files_are_refused() {
    assert!(matches!(parse_gguf_header(b"GG"), Err(AxonError::Io(_))));
    match parse_gguf_header(b"ABCD1234") {
        Err(e) => assert_eq!(
            e.message(),
            "invalid manifest: invalid GGUF magic: expected GGUF, got [65, 66, 67, 68]"
        ),
        Ok(_) => panic!("read"),
    }
    let mut file = small_gguf();
    file[4] = 9;
    assert!(matches!(
        parse_gguf_header(&file),
        Err(AxonError::UnsupportedVersion(9))
    ));
    let file = small_gguf();
    for n in 0..file.len() - 8 {
        assert!(parse_gguf_header(&file[..n]).is_err());
    }
    let mut b = Vec::new();
    b.extend_from_slice(b"GGUF");
    b.extend_from_slice(&3u32.to_le_bytes());
    b.extend_from_slice(&0u64.to_le_bytes());
    b.extend_from_slice(&1u64.to_le_bytes());
    put_entry(&mut b, "k", 13, &[]);
    match parse_gguf_header(&b) {
        Err(e) => assert_eq!(
            e.message(),
            "invalid manifest: unsupported GGUF metadata value type 13"
        ),
        Ok(_) => panic!("read"),
    }
}

fn small_safetensors() -> Vec<u8> {
    let header = r#"{"__metadata__":{"by":"me"},"b":{"dtype":"U8","shape":[2],"data_offsets":[4,6]},"a":{"dtype":"F32","shape":[1],"data_offsets":[0,4]},"c":{"dtype":"Z","shape":[1],"data_offsets":[0,4]}}"#;
    let mut b = Vec::new();
    b.extend_from_slice(&(header.len() as u64).to_le_bytes());
    b.extend_from_slice(header.as_bytes());
    b.extend_from_slice(&[1, 2, 3, 4, 5, 6]);
    b
}

#[test]
fn a_safetensors_file_is_converted() {
    let file = small_safetensors();
    let h = parse_safetensors_header(&file).unwrap();
    assert_eq!(h.metadata.len(), 1);
    assert_eq!(h.tensors.len(), 2);
    assert_eq!(h.tensors[0].name, "a");
    assert_eq!(h.tensors[0].dtype, DType::F32);
    assert_eq!(h.tensors[1].name, "b");
    assert_eq!(h.tensors[1].data_size, 2);

    let axon = safetensors_to_axon(&file).unwrap();
    let mut rt = AxonRuntime::open(&axon).unwrap();
    assert_eq!(rt.tensor_names(), vec!["a", "b"]);
    assert_eq!(rt.tensor("a").unwrap(), vec![1, 2, 3, 4]);
    assert_eq!(rt.tensor("b").unwrap(), vec![5, 6]);
}

#[test]
fn a_header_is_read_from_its_document() {
    let list = |a: u64, b: u64| JsonValue::Array(vec![JsonValue::UInt(a), JsonValue::UInt(b)]);
    let entry = |a: u64, b: u64| {
        JsonValue::Object(vec![
            ("data_offsets".to_string(), list(a, b)),
            ("dtype".to_string(), JsonValue::Text("U8".to_string())),
            ("shape".to_string(), JsonValue::Array(vec![JsonValue::UInt(b - a)])),
        ])
    };
    let j = JsonValue::Object(vec![
        ("late".to_string(), entry(5, 8)),
        ("early".to_string(), entry(0, 5)),
    ]);
    let h = safetensors_document(&j, 100);
    assert_eq!(h.tensors.len(), 2);
    assert_eq!(h.tensors[0].name, "early");
    assert_eq!((h.tensors[0].data_offset, h.tensors[0].data_size), (100, 5));
    assert_eq!(h.tensors[1].name, "late");
    assert_eq!((h.tensors[1].data_offset, h.tensors[1].data_size), (105, 3));
    assert!(safetensors_document(&JsonValue::Null, 100).tensors.is_empty());
}

#[test]
fn bad_safetensors_files_are_refused() {
    assert!(matches!(
        parse_safetensors_header(&[0; 4]),
        Err(AxonError::UnexpectedEof { needed: 8, available: 4 })
    ));
    assert!(matches!(
        parse_safetensors_header(&[9, 0, 0, 0, 0, 0, 0, 0, 1]),
        Err(AxonError::UnexpectedEof { needed: 17, available: 9 })
    ));
    assert!(matches!(
        parse_safetensors_header(&[1, 0, 0, 0, 0, 0, 0, 0, b'{']),
        Err(AxonError::InvalidManifest(_))
    ));
    let mut file = small_safetensors();
    file.pop();
    assert!(safetensors_to_axon(&file).is_err());
}

#[test]
fn manifests_are_exported() {
    let axon = gguf_to_axon(&small_gguf(), None).unwrap();
    let text = export_manifest_json(&axon).unwrap();
    let j = parse_json(text.as_bytes()).unwrap();
    assert_eq!(j.get("model").unwrap().as_str(), Some("tiny"));
    assert_eq!(j.get("tensor_count").unwrap().as_u64(), Some(2));
    let tensors = j.get("tensors").unwrap().as_array().unwrap();
    assert_eq!(tensors[1].get("name").unwrap().as_str(), Some("first"));
    assert_eq!(tensors[1].get("size_bytes").unwrap().as_u64(), Some(32));
    assert_eq!(raw_file_name("a/b"), "a_b.bin");
    assert!(export_manifest_json(b"no").is_err());
}

#[test]
fn model_references_are_taken_apart() {
    let parts = |s: &str| {
        let r = parse_ollama_ref(s);
        (r.registry, r.namespace, r.model, r.tag)
    };
    let t = |a: &str, b: &str, c: &str, d: &str| {
        (a.to_string(), b.to_string(), c.to_string(), d.to_string())
    };
    assert_eq!(parts("llama3"), t("registry.ollama.ai", "library", "llama3", "latest"));
    assert_eq!(parts("gemma4:e4b"), t("registry.ollama.ai", "library", "gemma4", "e4b"));
    assert_eq!(parts("me/x:1"), t("registry.ollama.ai", "me", "x", "1"));
    assert_eq!(parts("r/n/m:t"), t("r", "n", "m", "t"));
    assert_eq!(
        ollama_manifest_parts("gemma4:e4b"),
        vec!["manifests", "registry.ollama.ai", "library", "gemma4", "e4b"]
    );
}

#[test]
fn the_store_of_models_is_found() {
    assert_eq!(default_ollama_models_dir(Some("/m"), Some("/u"), Some("/h")), vec!["/m"]);
    assert_eq!(
        default_ollama_models_dir(None, Some("/u"), Some("/h")),
        vec!["/u", ".ollama", "models"]
    );
    assert_eq!(
        default_ollama_models_dir(None, None, Some("/h")),
        vec!["/h", ".ollama", "models"]
    );
    assert_eq!(default_ollama_models_dir(None, None, None), vec![".ollama", "models"]);
    assert_eq!(ollama_blob_name("sha256:ab"), "sha256-ab");
    assert_eq!(ollama_blob_name("ab"), "sha256-ab");
}

#[test]
fn a_model_of_the_store_is_resolved() {
    let manifest = br#"{"layers":[{"mediaType":"x","digest":"no"},{"mediaType":"application/vnd.ollama.image.model","digest":"sha256:ab"}]}"#;
    assert_eq!(ollama_digest(manifest, "p").unwrap(), "sha256:ab");
    let j = parse_json(manifest).unwrap();
    assert_eq!(ollama_document_digest(&j, "p").unwrap(), "sha256:ab");
    assert!(ollama_document_digest(&JsonValue::Null, "p").is_err());
    let s = resolve_ollama_model("/d", "m", Ok(manifest), true).unwrap();
    assert_eq!(s.digest, "sha256:ab");
    assert_eq!(
        s.manifest_path,
        vec!["/d", "manifests", "registry.ollama.ai", "library", "m", "latest"]
    );
    assert_eq!(s.blob_path, vec!["/d", "blobs", "sha256-ab"]);
    assert_eq!(s.model_ref, "m");
    let message = |r: Result<OllamaModelSource, AxonError>| r.unwrap_err().message();
    assert_eq!(
        message(resolve_ollama_model("/d", "m", Ok(manifest), false)),
        "invalid manifest: Ollama model blob is missing: /d/blobs/sha256-ab"
    );
    assert_eq!(
        message(resolve_ollama_model("/d/", "r/n/m:t", Err("gone"), true)),
        "invalid manifest: failed to read Ollama manifest /d/manifests/r/n/m/t: gone"
    );
    assert_eq!(
        message(resolve_ollama_model("", "m", Ok(b"{}"), true)),
        "invalid manifest: Ollama manifest manifests/registry.ollama.ai/library/m/latest \
         does not contain a local model layer"
    );
    assert!(message(resolve_ollama_model("/d", "m", Ok(b"{"), true))
        .starts_with("invalid manifest: Ollama manifest JSON: "));
    let bare = br#"{"layers":[{"mediaType":"application/vnd.ollama.image.model"}]}"#;
    assert_eq!(
        message(resolve_ollama_model("/d", "m", Ok(bare), true)),
        "invalid manifest: Ollama model layer missing digest"
    );

    let axon = ollama_model_to_axon(&small_gguf(), &s, None).unwrap();
    let rt = AxonRuntime::open(&axon).unwrap();
    assert_eq!(rt.model_name(), "m");
    let m = rt.manifest();
    assert_eq!(m.hyperparameter("source_format").unwrap().as_str(), Some("ollama"));
    assert_eq!(m.hyperparameter("ollama.digest").unwrap().as_str(), Some("sha256:ab"));
    assert_eq!(
        m.hyperparameter("ollama.manifest_path").unwrap().as_str(),
        Some("/d/manifests/registry.ollama.ai/library/m/latest")
    );
}

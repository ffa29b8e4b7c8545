use axon::builder::AxonBuilder;
use axon::cli::{
    created_tensors, missing_tensor, npy_header, parse_byte_range, parse_failure, parse_rows,
    read_pack_list, shape_text, size_parts, synthetic_bytes, synthetic_size, truncate_name,
    unpacked_name,
};
use axon::container::AxonFile;
use axon::convert::{export_manifest_json, export_tensors_raw};
use axon::runtime::AxonRuntime;
use axon::tensor::DType;

const MANIFEST: &str = r#"{
  "tensors": [
    { "name": "tiny_weight", "dtype": 5, "shape": [16] },
    { "name": "matrix", "dtype": 0, "shape": [2, 2] }
  ]
}"#;

fn pack(manifest: &str, model: Option<&str>, architecture: Option<&str>) -> Vec<u8> {
    let mut builder = AxonBuilder::new();
    if let Some(m) = model {
        builder = builder.model(m);
    }
    if let Some(a) = architecture {
        builder = builder.architecture(a);
    }
    for e in read_pack_list(manifest.as_bytes()).unwrap() {
        let data = synthetic_bytes(synthetic_size(&e.shape, e.dtype).unwrap());
        builder = builder.add_tensor(&e.name, data, e.dtype, &e.shape);
    }
    builder.build().unwrap()
}

#[test]
fn pack_validate_list_extract_and_runtime_inspect() {
    let model = pack(MANIFEST, Some("TinySmoke"), Some("test"));

    let file = AxonFile::from_bytes(model.clone()).unwrap();
    assert_eq!(file.tensor_count(), 2);
    assert_eq!(file.tensor_data("tiny_weight").unwrap().len(), 16);

    let mut rt = AxonRuntime::open(&model).unwrap();
    assert_eq!(rt.model_name(), "TinySmoke");
    assert_eq!(rt.architecture(), "test");
    assert_eq!(rt.tensor("tiny_weight").unwrap().len(), 16);
    let (start, end) = parse_rows("0,1").unwrap();
    assert_eq!(rt.tensor_rows("matrix", start, end).unwrap().len(), 8);
    let (offset, size) = parse_byte_range("0,8").unwrap();
    assert_eq!(rt.tensor_byte_range("tiny_weight", offset, size).unwrap().len(), 8);

    let converted = export_manifest_json(&model).unwrap();
    assert!(converted.contains("TinySmoke"));

    assert_eq!(unpacked_name("tiny_weight", false), "tiny_weight.npy");
}

#[test]
fn invalid_input_fails_without_panic_banner() {
    let error = AxonFile::from_bytes(b"not an axon file".to_vec()).unwrap_err();
    let message = parse_failure("not_an_axon.txt", &error);
    assert!(message.contains("error: failed to parse"));
    assert!(!message.contains("panicked at"));
}

#[test]
fn missing_tensor_reports_clean_error() {
    let model = pack(MANIFEST, None, None);
    let file = AxonFile::from_bytes(model).unwrap();
    assert!(file.tensor_data("does_not_exist").is_none());
    let message = missing_tensor("does_not_exist");
    assert!(message.contains("error: tensor 'does_not_exist' not found"));
    assert!(!message.contains("panicked at"));
}

#[test]
fn packing_lists_are_checked() {
    let failure = |s: &str| read_pack_list(s.as_bytes()).unwrap_err();
    assert!(failure("{").starts_with("Invalid JSON manifest: "));
    assert_eq!(failure("{}"), "Manifest must have a 'tensors' array");
    assert_eq!(failure(r#"{"tensors":[{}]}"#), "Tensor must have a name");
    assert_eq!(failure(r#"{"tensors":[{"name":"a"}]}"#), "Tensor must have shape");
    assert_eq!(
        failure(r#"{"tensors":[{"name":"a","shape":[-1]}]}"#),
        "Tensor must have shape"
    );
    assert_eq!(
        failure(r#"{"tensors":[{"name":"a","shape":[1],"dtype":10}]}"#),
        "Invalid dtype code"
    );
    let list = read_pack_list(br#"{"tensors":[{"name":"a","shape":[]}]}"#).unwrap();
    assert_eq!(list.len(), 1);
    assert_eq!(list[0].dtype, DType::F32);
    assert!(list[0].shape.is_empty());
}

#[test]
fn synthetic_data_is_what_it_always_was() {
    let b = synthetic_bytes(1000);
    for (i, v) in b.iter().enumerate() {
        assert_eq!(
            *v,
            ((i.wrapping_mul(1103515245).wrapping_add(12345)) >> 16) as u8
        );
    }
    assert_eq!(synthetic_size(&[3, 5], DType::I64), Some(120));
    assert_eq!(synthetic_size(&[u64::MAX, 2], DType::U8), None);
    assert_eq!(synthetic_size(&[u64::MAX, 0, 5], DType::F32), Some(0));
}

#[test]
fn arrays_have_a_header_for_numpy() {
    let h = npy_header(DType::F32, &[2, 2]);
    assert_eq!(h.len() % 64, 0);
    assert_eq!(&h[..8], b"\x93NUMPY\x01\x00");
    assert_eq!(u16::from_le_bytes([h[8], h[9]]) as usize, h.len() - 10);
    let text = std::str::from_utf8(&h[10..]).unwrap();
    assert_eq!(
        text.trim_end(),
        "{'descr': '<f4', 'fortran_order': False, 'shape': (2, 2,) }"
    );
    let kinds = [
        (DType::F16, "<f2"),
        (DType::BF16, "<f2"),
        (DType::I32, "<i4"),
        (DType::I64, "<i8"),
        (DType::U8, "u1"),
        (DType::Q4, "<f4"),
    ];
    for (t, name) in kinds {
        let h = npy_header(t, &[1]);
        let text = std::str::from_utf8(&h[10..]).unwrap().to_string();
        assert!(text.starts_with(&format!("{{'descr': '{}'", name)));
    }
}

#[test]
fn ranges_are_read_loosely() {
    assert_eq!(parse_rows("rows=0,1"), Some((0, 1)));
    assert_eq!(parse_rows("3,7"), Some((3, 7)));
    assert_eq!(parse_rows("a=4,5=9"), Some((4, 5)));
    assert_eq!(parse_rows("x,y"), Some((0, 1)));
    assert_eq!(parse_rows("1,2,3"), None);
    assert_eq!(parse_rows("1"), None);
    assert_eq!(parse_byte_range("8,16"), Some((8, 16)));
    assert_eq!(parse_byte_range(","), Some((0, 64)));
    assert_eq!(parse_byte_range("8"), None);
}

#[test]
fn names_are_cut_to_width() {
    assert_eq!(truncate_name("abcdef", 6), "abcdef");
    assert_eq!(truncate_name("abcdefg", 6), "abc...");
    assert_eq!(truncate_name("a\u{e9}\u{e9}\u{e9}", 6), "a\u{e9}...");
    assert_eq!(unpacked_name("a/b/c", true), "a.b.c.bin");
    assert_eq!(shape_text(&[2, 30, 4], "x"), "2x30x4");
    assert_eq!(shape_text(&[], "x"), "");
}

#[test]
fn the_model_to_try_has_two_layers() {
    let list = created_tensors();
    assert_eq!(list.len(), 17);
    assert_eq!(list[0].name, "emb_weight");
    assert_eq!(list[0].shape, vec![32000, 4096]);
    assert_eq!(list[1].name, "layer_0_q");
    assert_eq!(list[8].name, "layer_1_o");
    assert_eq!(list[11].name, "layer_0_mlp_down");
    assert_eq!(list[11].shape, vec![11008, 4096]);
    assert_eq!(list[14].name, "layer_1_mlp_down");
    assert_eq!(list[15].shape, vec![4096]);
    assert_eq!(list[16].name, "lm_head");
}

#[test]
fn raw_files_have_flat_names() {
    let file = AxonBuilder::new()
        .add_tensor("a/b", vec![1, 2], DType::U8, &[2])
        .build()
        .unwrap();
    let files = export_tensors_raw(&file).unwrap();
    assert_eq!(files, vec![("a_b.bin".to_string(), vec![1, 2])]);
}

#[test]
fn sizes_are_parted_into_digits_and_unit() {
    assert_eq!(size_parts(" 1.5 gb "), ("1.5", 1_073_741_824));
    assert_eq!(size_parts("2mb"), ("2", 1_048_576));
    assert_eq!(size_parts("3 kb"), ("3", 1024));
    assert_eq!(size_parts("17"), ("17", 1));
    assert_eq!(size_parts("gb"), ("", 1_073_741_824));
    assert_eq!(size_parts(""), ("", 1));
}

use axon::builder::AxonBuilder;
use axon::bytes::align_up;
use axon::container::{AxonFile, AxonHeader};
use axon::descriptor::{Affinity, TensorDescriptor};
use axon::error::AxonError;
use axon::json::JsonValue;
use axon::json_codec::{json_single, json_to_string, json_to_string_pretty, parse_json};
use axon::manifest::Manifest;
use axon::store::MmapStore;
use axon::tensor::{element_count, DType};
use axon::unicode::{from_utf8, from_utf8_lossy};

fn sample() -> Vec<u8> {
    AxonBuilder::new()
        .model("m")
        .architecture("a")
        .metadata("layers", JsonValue::UInt(3))
        .add_tensor("w", vec![1, 2, 3, 4, 5, 6], DType::I16, &[3])
        .build()
        .unwrap()
}

#[test]
fn a_header_is_read_back() {
    let h = AxonHeader {
        version: 1,
        manifest_offset: 4096,
        manifest_size: 77,
        tensor_count: 3,
        payload_size: 0x0123_4567_89ab_cdef,
        flags: 1,
    };
    let mut b = Vec::new();
    h.write(&mut b);
    assert_eq!(b.len(), 64);
    assert_eq!(&b[..8], b"AXON\x01\x00\x00\x00");
    assert_eq!(AxonHeader::from_bytes(&b).unwrap(), h);
}

#[test]
fn a_descriptor_is_read_back() {
    let x = TensorDescriptor::new("w\u{e9}", DType::BF16, &[7, 9], 128, 126, Affinity::Hint(5), 3);
    let mut b = Vec::new();
    x.write(&mut b);
    let y = TensorDescriptor::from_bytes(&b).unwrap();
    assert_eq!(y.name, "w\u{e9}");
    assert_eq!(y.dtype, DType::BF16);
    assert_eq!(y.shape, vec![7, 9]);
    assert_eq!(y.data_offset, 128);
    assert_eq!(y.data_size, 126);
    assert_eq!(y.affinity, Affinity::Hint(5));
    assert_eq!(y.checksum, 3);
}

#[test]
fn short_files_are_refused() {
    match AxonFile::from_bytes(vec![0; 10]) {
        Err(AxonError::UnexpectedEof { needed, available }) => {
            assert_eq!((needed, available), (64, 10));
        }
        other => panic!("unexpected {:?}", other),
    }
    let mut file = sample();
    file.truncate(4100);
    assert!(matches!(
        AxonFile::from_bytes(file),
        Err(AxonError::UnexpectedEof { .. })
    ));
}

#[test]
fn damaged_files_are_refused() {
    let good = sample();
    let mut bad = good.clone();
    bad[0] = b'B';
    assert!(matches!(AxonFile::from_bytes(bad), Err(AxonError::InvalidMagic)));

    let mut bad = good.clone();
    bad[4] = 9;
    assert!(matches!(
        AxonFile::from_bytes(bad),
        Err(AxonError::UnsupportedVersion(9))
    ));

    let mut bad = good.clone();
    bad[40] = 2;
    assert!(matches!(AxonFile::from_bytes(bad), Err(AxonError::InvalidManifest(_))));

    let mut bad = good.clone();
    bad[4096] = b'x';
    assert!(matches!(AxonFile::from_bytes(bad), Err(AxonError::InvalidManifest(_))));

    let h = AxonHeader::from_bytes(&good).unwrap();
    let table = align_up(h.manifest_offset + h.manifest_size, 64).unwrap() as usize;
    let mut bad = good.clone();
    bad[table + 96] = 200;
    assert!(matches!(
        AxonFile::from_bytes(bad),
        Err(AxonError::InvalidDtype(200))
    ));
    let mut bad = good.clone();
    bad[table + 100] = 9;
    assert!(matches!(AxonFile::from_bytes(bad), Err(AxonError::InvalidManifest(_))));
    let mut bad = good;
    bad[table] = 0xff;
    assert!(matches!(AxonFile::from_bytes(bad), Err(AxonError::InvalidManifest(_))));
}

#[test]
fn tensors_that_cannot_be_stored_are_refused() {
    let long = "n".repeat(200);
    assert!(AxonBuilder::new().add_tensor(&long, vec![0], DType::U8, &[1]).build().is_err());
    assert!(AxonBuilder::new().add_tensor("a\0", vec![0], DType::U8, &[1]).build().is_err());
    assert!(AxonBuilder::new().add_tensor("a", vec![0], DType::U8, &[1; 9]).build().is_err());
    let error = AxonBuilder::new()
        .add_tensor("a", vec![0; 3], DType::F32, &[1])
        .build()
        .unwrap_err();
    assert_eq!(
        error.message(),
        "invalid manifest: tensor a: data size 3 does not match its shape"
    );
    assert!(AxonBuilder::new()
        .add_tensor_unchecked("a", vec![0; 3], DType::F32, &[1])
        .build()
        .is_ok());
}

#[test]
fn the_manifest_is_read_back() {
    let f = AxonFile::from_bytes(sample()).unwrap();
    assert_eq!(f.manifest.model.as_deref(), Some("m"));
    assert_eq!(f.manifest.architecture.as_deref(), Some("a"));
    assert_eq!(f.manifest.tensor_order, vec!["w".to_string()]);
    assert_eq!(f.manifest.hyperparameter("layers").unwrap().as_u64(), Some(3));
    let again = Manifest::from_json(&f.manifest.to_json()).unwrap();
    assert_eq!(again.model.as_deref(), Some("m"));
    assert_eq!(again.tensor_order, vec!["w".to_string()]);
}

#[test]
fn errors_have_texts() {
    assert_eq!(AxonError::Io("x".to_string()).message(), "I/O error: x");
    assert_eq!(
        AxonError::UnexpectedEof { needed: 8, available: 3 }.message(),
        "unexpected end of file: needed 8 bytes, have 3"
    );
    assert_eq!(AxonError::InvalidDtype(77).message(), "invalid dtype code: 77");
    assert_eq!(AxonError::UnsupportedVersion(2).message(), "unsupported version: 2");
    assert_eq!(AxonError::InvalidMagic.message(), "invalid magic bytes");
    assert_eq!(
        AxonError::TensorNotFound("t".to_string()).message(),
        "tensor not found: t"
    );
}

#[test]
fn types_have_codes() {
    for code in 0..10u32 {
        let t = DType::from_code(code).unwrap();
        assert_eq!(t.code(), code);
    }
    assert!(matches!(DType::from_code(10), Err(AxonError::InvalidDtype(10))));
    assert_eq!(DType::I64.size_in_bytes(), 8);
    assert_eq!(element_count(&[3, 4, 5]), 60);
    assert_eq!(element_count(&[]), 1);
}

#[test]
fn alignment_rounds_up() {
    assert_eq!(align_up(0, 64), Some(0));
    assert_eq!(align_up(1, 64), Some(64));
    assert_eq!(align_up(64, 64), Some(64));
    assert_eq!(align_up(65, 32), Some(96));
    assert_eq!(align_up(u64::MAX, 64), None);
}

#[test]
fn a_store_gives_ranges() {
    let data = [1u8, 2, 3, 4];
    let s = MmapStore::new(&data);
    assert_eq!(s.len(), 4);
    assert_eq!(s.raw_slice(1, 2), Some(&data[1..3]));
    assert_eq!(s.raw_slice(3, 2), None);
    assert_eq!(s.view_bytes(0, 4).unwrap(), &data);
    assert_eq!(s.read_bytes(2, 2).unwrap(), vec![3, 4]);
    assert!(matches!(
        s.read_bytes(u64::MAX, 2),
        Err(AxonError::UnexpectedEof { needed: u64::MAX, available: 4 })
    ));
}

#[test]
fn json_is_read_and_written() {
    let text = r#"{"b":[1,-2,true,null,"x"],"a":{"c":18446744073709551615}}"#;
    let j = parse_json(text.as_bytes()).unwrap();
    assert_eq!(j.get("a").unwrap().get("c").unwrap().as_u64(), Some(u64::MAX));
    let items = j.get("b").unwrap().as_array().unwrap();
    assert_eq!(items.len(), 5);
    assert_eq!(items[0].as_u64(), Some(1));
    assert!(items[1].as_u64().is_none());
    assert_eq!(items[2].as_bool(), Some(true));
    assert_eq!(items[4].as_str(), Some("x"));
    assert_eq!(
        json_to_string(&j),
        r#"{"a":{"c":18446744073709551615},"b":[1,-2,true,null,"x"]}"#
    );
    assert_eq!(
        json_to_string_pretty(&JsonValue::Array(vec![JsonValue::Bool(false)])),
        "[\n  false\n]"
    );
    assert!(parse_json(b"[1,").is_err());
    assert!(parse_json(b"1 2").is_err());
}

#[test]
fn fractions_are_carried_by_their_bits() {
    let j = parse_json(b"[0.5, 1e3]").unwrap();
    match &j.as_array().unwrap()[0] {
        JsonValue::Float(bits) => assert_eq!(*bits, 0.5f64.to_bits()),
        other => panic!("unexpected {:?}", other),
    }
    match json_single(1.5f32.to_bits()) {
        JsonValue::Float(bits) => assert_eq!(bits, 1.5f64.to_bits()),
        other => panic!("unexpected {:?}", other),
    }
    assert!(matches!(json_single(f32::NAN.to_bits()), JsonValue::Null));
    for x in [0.0f32, -0.0, 1e-40, f32::MIN_POSITIVE, -3.0e38, 1.1] {
        match json_single(x.to_bits()) {
            JsonValue::Float(bits) => assert_eq!(bits, (x as f64).to_bits()),
            other => panic!("unexpected {:?}", other),
        }
    }
    assert_eq!(
        json_to_string(&JsonValue::Float(2.25f64.to_bits())),
        "2.25"
    );
}

#[test]
fn text_is_checked_or_mended() {
    assert_eq!(from_utf8("h\u{e9}".as_bytes()).as_deref(), Some("h\u{e9}"));
    assert!(from_utf8(&[0xff, 0x41]).is_none());
    assert_eq!(from_utf8_lossy(&[0x41, 0xff, 0x42]), "A\u{fffd}B");
}

#[test]
fn tensors_are_aligned_and_apart() {
    let file = AxonBuilder::new()
        .add_tensor("a", vec![1; 3], DType::U8, &[3])
        .add_tensor("b", vec![2; 65], DType::U8, &[65])
        .add_tensor("c", vec![3; 1], DType::U8, &[1])
        .build()
        .unwrap();
    let f = AxonFile::from_bytes(file.clone()).unwrap();
    let mut end = 0;
    for x in &f.descriptors {
        assert_eq!(x.data_offset % 64, 0);
        assert!(end <= x.data_offset);
        end = x.data_offset + x.data_size;
    }
    assert_eq!(end, file.len() as u64);
}

#[test]
fn the_table_decides_what_tensors_there_are() {
    let build = |model: &str, value: u8| {
        AxonBuilder::new()
            .model(model)
            .add_tensor("t", vec![value; 4], DType::U8, &[4])
            .build()
            .unwrap()
    };
    let a = AxonFile::from_bytes(build("one", 1)).unwrap();
    let b = AxonFile::from_bytes(build("two", 2)).unwrap();
    assert_eq!(a.header, b.header);
    assert_ne!(a.manifest.model, b.manifest.model);
    assert_eq!(a.descriptors.len(), b.descriptors.len());
    assert_eq!(a.descriptors[0].name, b.descriptors[0].name);
    assert_eq!(a.descriptors[0].data_offset, b.descriptors[0].data_offset);
    assert_eq!(a.descriptors[0].shape, b.descriptors[0].shape);
}

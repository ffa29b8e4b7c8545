use axon::builder::AxonBuilder;
use axon::container::AxonFile;
use axon::error::AxonError;
use axon::runtime::{AxonRuntime, CachedRuntime};
use axon::tensor::DType;

fn build_test_axon() -> Vec<u8> {
    let mut builder = AxonBuilder::new().model("test-model").architecture("test");
    for i in 0..10 {
        let name = format!("layer_{}_weight", i);
        let data: Vec<u8> = (0..64).map(|j| (i * 64 + j) as u8).collect();
        builder = builder.add_tensor(&name, data, DType::U8, &[64]);
    }
    builder.build().expect("Failed to build .axon")
}

#[test]
fn test_open_and_list_tensors() {
    let file = build_test_axon();
    let rt = AxonRuntime::open(&file).expect("Failed to open runtime");
    assert_eq!(rt.model_name(), "test-model");
    assert_eq!(rt.architecture(), "test");
    assert_eq!(rt.tensor_count(), 10);

    let names = rt.tensor_names();
    assert_eq!(names.len(), 10);
    assert!(names.contains(&"layer_0_weight"));
    assert!(names.contains(&"layer_9_weight"));
}

#[test]
fn test_tensor_access() {
    let file = build_test_axon();
    let mut rt = AxonRuntime::open(&file).expect("Failed to open runtime");
    let data = rt.tensor("layer_5_weight").expect("Failed to get tensor");
    assert_eq!(data.len(), 64);
    assert_eq!(data[0], (5 * 64) as u8);
    assert_eq!(data[63], (5 * 64 + 63) as u8);
}

#[test]
fn test_tensor_info() {
    let file = build_test_axon();
    let rt = AxonRuntime::open(&file).expect("Failed to open runtime");
    let info = rt.tensor_info("layer_0_weight").expect("Failed to get info");
    assert_eq!(info.name, "layer_0_weight");
    assert_eq!(info.dtype, DType::U8);
    assert_eq!(info.shape, vec![64]);
    assert_eq!(info.data_size, 64);
}

#[test]
fn test_tensor_byte_range() {
    let file = build_test_axon();
    let mut rt = AxonRuntime::open(&file).expect("Failed to open runtime");
    let partial = rt
        .tensor_byte_range("layer_3_weight", 0, 16)
        .expect("Failed to get byte range");
    assert_eq!(partial.len(), 16);
    assert_eq!(partial[0], (3 * 64) as u8);
    assert_eq!(partial[15], (3 * 64 + 15) as u8);

    let mid = rt
        .tensor_byte_range("layer_3_weight", 32, 16)
        .expect("Failed to get mid range");
    assert_eq!(mid[0], (3 * 64 + 32) as u8);
}

#[test]
fn test_tensor_not_found() {
    let file = build_test_axon();
    let mut rt = AxonRuntime::open(&file).expect("Failed to open runtime");
    let result = rt.tensor("nonexistent_tensor");
    assert!(result.is_err());
    match result {
        Err(AxonError::TensorNotFound(name)) => assert_eq!(name, "nonexistent_tensor"),
        other => panic!("Expected TensorNotFound, got {:?}", other),
    }
}

#[test]
fn test_byte_range_out_of_bounds() {
    let file = build_test_axon();
    let mut rt = AxonRuntime::open(&file).expect("Failed to open runtime");
    let result = rt.tensor_byte_range("layer_0_weight", 0, 999);
    assert!(result.is_err());
}

#[test]
fn test_stats_count_accesses() {
    let file = build_test_axon();
    let mut rt = AxonRuntime::open(&file).expect("Failed to open runtime");
    assert_eq!(rt.stats().tensor_accesses(), 0);

    rt.tensor("layer_0_weight").ok();
    assert_eq!(rt.stats().tensor_accesses(), 1);

    rt.tensor("layer_1_weight").ok();
    assert_eq!(rt.stats().tensor_accesses(), 2);
}

#[test]
fn test_tensors_list() {
    let file = build_test_axon();
    let rt = AxonRuntime::open(&file).expect("Failed to open runtime");
    let all = rt.tensors();
    assert_eq!(all.len(), 10);
    for info in &all {
        assert!(info.name.starts_with("layer_"));
        assert_eq!(info.data_size, 64);
    }
}

#[test]
fn test_file_size_matches() {
    let file = build_test_axon();
    let rt = AxonRuntime::open(&file).expect("Failed to open runtime");
    assert_eq!(rt.file_size(), file.len() as u64);
}

#[test]
fn parts_are_parts_of_the_whole() {
    let file = build_test_axon();
    let mut rt = AxonRuntime::open(&file).unwrap();
    let whole = rt.tensor("layer_7_weight").unwrap();
    for (a, b) in [(0usize, 64usize), (0, 0), (64, 64), (3, 17), (63, 64)] {
        let part = rt
            .tensor_byte_range("layer_7_weight", a as u64, (b - a) as u64)
            .unwrap();
        assert_eq!(part, whole[a..b].to_vec());
        assert_eq!(rt.tensor_byte_view("layer_7_weight", a, b).unwrap(), &whole[a..b]);
    }
    assert_eq!(rt.tensor_view("layer_7_weight").unwrap(), &whole[..]);
    assert!(rt.tensor_byte_view("layer_7_weight", 10, 65).is_err());
    assert!(rt.tensor_byte_range("layer_7_weight", u64::MAX, u64::MAX).is_err());
}

#[test]
fn rows_are_rows_of_the_whole() {
    let data: Vec<u8> = (0..48).collect();
    let file = AxonBuilder::new()
        .add_tensor("m", data.clone(), DType::I16, &[4, 6])
        .add_tensor("v", vec![1; 4], DType::U8, &[4])
        .build()
        .unwrap();
    let rt = AxonRuntime::open(&file).unwrap();
    assert_eq!(rt.tensor_rows("m", 1, 3).unwrap(), &data[12..36]);
    assert!(rt.tensor_rows("m", 1, 5).is_err());
    assert!(rt.tensor_rows("v", 0, 1).is_err());
    assert!(rt.tensor_rows("nothing", 0, 1).is_err());
}

#[test]
fn the_names_of_a_bare_file_have_defaults() {
    let file = AxonBuilder::new().build().unwrap();
    let rt = AxonRuntime::open(&file).unwrap();
    assert_eq!(rt.tensor_count(), 0);
    assert_eq!(rt.payload_size(), 0);
    assert!(rt.manifest().model.is_none());
    assert_eq!(rt.header().version, 1);
}

#[test]
fn what_is_built_is_read_back() {
    let file = build_test_axon();
    let f = AxonFile::from_bytes(file.clone()).unwrap();
    assert_eq!(f.tensor_count(), 10);
    assert_eq!(f.header.payload_size, 640);
    assert_eq!(f.manifest.tensor_order.len(), 10);
    for i in 0..10usize {
        let name = format!("layer_{}_weight", i);
        let x = f.get_tensor(&name).unwrap();
        assert_eq!(x.data_offset % 64, 0);
        let expected: Vec<u8> = (0..64).map(|j| (i * 64 + j) as u8).collect();
        assert_eq!(f.tensor_data(&name).unwrap(), &expected[..]);
    }
    assert!(f.tensor_data("layer_10_weight").is_none());
}

#[test]
fn a_cached_tensor_is_read_once() {
    let file = build_test_axon();
    let mut rt: CachedRuntime = AxonRuntime::with_cache(&file, 1000).unwrap();
    let a = rt.tensor_cached("layer_2_weight").unwrap();
    let b = rt.tensor_cached("layer_2_weight").unwrap();
    assert_eq!(a, b);
    assert_eq!(a[0], 128);
    assert_eq!(rt.runtime().stats().tensor_accesses(), 1);
    assert_eq!(rt.cache_stats().hits, 1);
    assert_eq!(rt.cache_stats().misses, 1);
    rt.evict("layer_2_weight");
    rt.tensor_cached("layer_2_weight").unwrap();
    assert_eq!(rt.runtime().stats().tensor_accesses(), 2);
    assert!(rt.tensor_cached("nothing").is_err());
}

#[test]
fn a_cache_keeps_within_its_budget() {
    let file = build_test_axon();
    let mut rt = AxonRuntime::with_cache(&file, 128).unwrap();
    rt.tensor_cached("layer_0_weight").unwrap();
    rt.pin("layer_0_weight");
    rt.tensor_cached("layer_1_weight").unwrap();
    rt.tensor_cached("layer_2_weight").unwrap();
    assert_eq!(rt.cache_stats().evictions, 1);
    rt.tensor_cached("layer_0_weight").unwrap();
    assert_eq!(rt.cache_stats().hits, 1);
    rt.tensor_cached("layer_1_weight").unwrap();
    assert_eq!(rt.cache_stats().misses, 4);
    rt.unpin("layer_0_weight");
    rt.clear_cache();
    rt.tensor_cached("layer_0_weight").unwrap();
    assert_eq!(rt.cache_stats().misses, 5);
}

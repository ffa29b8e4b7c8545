use axon::builder::AxonBuilder;
use axon::error::AxonError;
use axon::runtime::AxonRuntime;
use axon::slice::{SliceSpec, TensorSlice};
use axon::tensor::DType;

#[test]
fn test_byte_range_resolve() {
    let spec = SliceSpec::byte_range(16, 32);
    let (offset, size) = spec.resolve(DType::F32, &[64, 64], 4096, 16384).unwrap();
    assert_eq!(offset, 4112);
    assert_eq!(size, 32);
}

#[test]
fn test_rows_resolve() {
    let spec = SliceSpec::rows(10, 20);
    let elem_size = DType::F32.size_in_bytes() as u64;
    let row_stride = 32 * elem_size;
    let (offset, size) = spec.resolve(DType::F32, &[64, 32], 4096, 8192).unwrap();
    assert_eq!(offset, 4096 + 10 * row_stride);
    assert_eq!(size, 10 * row_stride);
}

#[test]
fn test_rowcol_resolve() {
    let spec = SliceSpec::row_col(5, 10, 8, 16);
    let elem_size = DType::F32.size_in_bytes() as u64;
    let row_stride = 32 * elem_size;
    let (offset, size) = spec.resolve(DType::F32, &[64, 32], 4096, 8192).unwrap();
    assert_eq!(offset, 4096 + 5 * row_stride + 8 * elem_size);
    assert_eq!(size, 5 * 8 * elem_size);
}

#[test]
fn test_elements_resolve() {
    let spec = SliceSpec::Elements { element_offset: 100, count: 50 };
    let elem_size = DType::F32.size_in_bytes() as u64;
    let (offset, size) = spec.resolve(DType::F32, &[4096], 4096, 16384).unwrap();
    assert_eq!(offset, 4096 + 100 * elem_size);
    assert_eq!(size, 50 * elem_size);
}

#[test]
fn test_rows_on_1d_tensor_fails() {
    let spec = SliceSpec::rows(0, 10);
    let result = spec.resolve(DType::F32, &[4096], 4096, 16384);
    assert!(result.is_err());
}

#[test]
fn test_byte_range_beyond_size_fails() {
    let spec = SliceSpec::byte_range(0, 999999);
    let result = spec.resolve(DType::F32, &[64, 64], 4096, 16384);
    assert!(result.is_err());
}

#[test]
fn test_2d_slice_matches_full_values() {
    let data: Vec<u8> = (0..256).map(|i| i as u8).collect();
    let axon = AxonBuilder::new()
        .add_tensor("mat", data.clone(), DType::U8, &[16, 16])
        .build()
        .unwrap();

    let mut rt = AxonRuntime::open(&axon).unwrap();
    let full = rt.tensor("mat").unwrap();

    let spec = SliceSpec::rows(4, 8);
    let (byte_offset_within_tensor, sz) = spec.resolve(DType::U8, &[16, 16], 0, 256).unwrap();
    let sliced = rt.tensor_byte_range("mat", byte_offset_within_tensor, sz).unwrap();
    assert_eq!(sliced.len(), 4 * 16);
    assert_eq!(&sliced, &full[4 * 16..8 * 16]);
}

#[test]
fn byte_range_may_end_at_the_end() {
    let spec = SliceSpec::byte_range(100, 28);
    assert_eq!(spec.resolve(DType::U8, &[128], 64, 128).unwrap(), (164, 28));
    let spec = SliceSpec::byte_range(100, 29);
    assert!(matches!(
        spec.resolve(DType::U8, &[128], 64, 128),
        Err(AxonError::UnexpectedEof { .. })
    ));
}

#[test]
fn rows_that_overflow_are_refused() {
    let spec = SliceSpec::rows(0, u64::MAX);
    assert!(spec.resolve(DType::F32, &[u64::MAX, u64::MAX], 0, u64::MAX).is_err());
}

#[test]
fn a_resolved_slice_lies_in_its_tensor() {
    for start in 0..8u64 {
        for end in start..8u64 {
            let (offset, size) = SliceSpec::rows(start, end)
                .resolve(DType::I16, &[8, 3], 1000, 48)
                .unwrap();
            assert!(1000 <= offset && offset + size <= 1048);
            assert_eq!(size, (end - start) * 6);
        }
    }
}

#[test]
fn a_slice_counts_its_elements() {
    let s = TensorSlice::new(vec![0; 24], vec![2, 3], DType::F32);
    assert_eq!(s.num_elements(), 6);
    assert_eq!(s.data.len(), 24);
    assert_eq!(s.dtype, DType::F32);
}

use axon::builder::AxonBuilder;
use axon::ffi::{
    axon_last_error, axon_model_name, axon_open, axon_payload_size, axon_tensor_count,
    axon_tensor_data, axon_tensor_info, axon_verify_checksums, axon_version, copy_c_string,
    LastError, PathArgument,
};
use axon::tensor::DType;

fn text_of(buf: &[u8], len: u64) -> String {
    String::from_utf8(buf[..len as usize].to_vec()).unwrap()
}

fn message(last: &LastError) -> String {
    let mut buf = [0u8; 256];
    let len = axon_last_error(last, &mut buf);
    text_of(&buf, len)
}

fn small_file() -> Vec<u8> {
    AxonBuilder::new()
        .model("tiny")
        .add_tensor("a", vec![1, 2, 3, 4], DType::F32, &[1, 1])
        .add_tensor("b", vec![9; 3], DType::U8, &[3])
        .build()
        .unwrap()
}

#[test]
fn null_open_sets_last_error() {
    let mut last = LastError::new();
    let handle = axon_open(PathArgument::Null, Err(""), &mut last);
    assert!(handle.is_none());

    let mut buf = [0u8; 128];
    let len = axon_last_error(&last, &mut buf);
    assert!(len > 0);
    assert_eq!(text_of(&buf, len), "axon_open received a null path");
}

#[test]
fn version_copies_into_small_buffer_safely() {
    let mut buf = [7u8; 4];
    let len = axon_version(&mut buf);
    assert_eq!(len, 3);
    assert_eq!(buf[3], 0);
}

#[test]
fn test_open_nonexistent_fails() {
    let mut last = LastError::new();
    let path = "/tmp/axon_nonexistent_837465.axon";
    let result = axon_open(PathArgument::Path(path), Err("not found"), &mut last);
    assert!(result.is_none());
    assert_eq!(
        message(&last),
        "failed to open /tmp/axon_nonexistent_837465.axon: not found"
    );
}

#[test]
fn the_version_fits_a_larger_buffer() {
    let mut buf = [7u8; 16];
    let len = axon_version(&mut buf);
    assert_eq!(text_of(&buf, len), "Axon v1");
    assert_eq!(buf[7], 0);
    assert_eq!(buf[8], 7);
    assert_eq!(axon_version(&mut []), 0);
}

#[test]
fn strings_are_cut_to_the_buffer() {
    let mut buf = [7u8; 5];
    assert_eq!(copy_c_string("abcd", &mut buf), 4);
    assert_eq!(&buf, b"abcd\0");
    assert_eq!(copy_c_string("abcde", &mut buf), 4);
    assert_eq!(&buf, b"abcd\0");
    assert_eq!(copy_c_string("x\0y", &mut buf), 0);
    assert_eq!(&buf, b"\0bcd\0");
    let mut one = [7u8; 1];
    assert_eq!(copy_c_string("abc", &mut one), 0);
    assert_eq!(one[0], 0);
}

#[test]
fn a_path_that_is_no_text_is_reported() {
    let mut last = LastError::new();
    assert!(axon_open(PathArgument::NotText("bad byte"), Err(""), &mut last).is_none());
    assert_eq!(message(&last), "path is not valid UTF-8: bad byte");
}

#[test]
fn a_file_that_is_no_container_is_reported() {
    let mut last = LastError::new();
    let bytes = [0u8; 64];
    assert!(axon_open(PathArgument::Path("x"), Ok(&bytes), &mut last).is_none());
    assert_eq!(message(&last), "failed to open x: invalid magic bytes");
}

#[test]
fn an_open_file_is_described() {
    let file = small_file();
    let mut last = LastError::new();
    last.set("old");
    let h = axon_open(PathArgument::Path("x"), Ok(&file), &mut last).unwrap();
    assert_eq!(message(&last), "");
    assert_eq!(axon_tensor_count(Some(&h), &mut last), 2);
    assert_eq!(axon_payload_size(Some(&h), &mut last), 7);
    let mut buf = [0u8; 32];
    let len = axon_model_name(Some(&h), &mut buf, &mut last);
    assert_eq!(text_of(&buf, len), "tiny");

    let info = axon_tensor_info(Some(&h), 0, &mut buf, &mut last).unwrap();
    assert_eq!(&buf[..2], b"a\0");
    assert_eq!(info.dtype, 0);
    assert_eq!(info.shape, vec![1, 1]);
    assert_eq!(info.data_size, 4);
    assert_eq!(info.data_offset % 64, 0);

    let data = axon_tensor_data(Some(&h), 1, &mut last);
    assert_eq!(data.size, Some(3));
    assert_eq!(data.bytes, Some(&[9u8, 9, 9][..]));
}

#[test]
fn indices_are_checked() {
    let file = small_file();
    let mut last = LastError::new();
    let h = axon_open(PathArgument::Path("x"), Ok(&file), &mut last).unwrap();
    assert!(axon_tensor_info(Some(&h), 2, &mut [], &mut last).is_none());
    assert_eq!(message(&last), "tensor index 2 is out of range");
    assert!(axon_tensor_data(Some(&h), u64::MAX, &mut last).bytes.is_none());
    assert_eq!(message(&last), "tensor index 18446744073709551615 is out of range");
}

#[test]
fn bytes_behind_the_end_are_reported() {
    let file = small_file();
    let mut last = LastError::new();
    let cut = &file[..file.len() - 1];
    let h = axon_open(PathArgument::Path("x"), Ok(cut), &mut last).unwrap();
    let data = axon_tensor_data(Some(&h), 1, &mut last);
    assert_eq!(data.size, Some(3));
    assert!(data.bytes.is_none());
    assert_eq!(message(&last), "tensor b byte range exceeds file size");
}

#[test]
fn null_handles_are_reported() {
    let mut last = LastError::new();
    assert_eq!(axon_tensor_count(None, &mut last), 0);
    assert_eq!(message(&last), "axon_tensor_count received a null handle");
    assert_eq!(axon_payload_size(None, &mut last), 0);
    assert_eq!(message(&last), "axon_payload_size received a null handle");
    assert_eq!(axon_model_name(None, &mut [], &mut last), 0);
    assert_eq!(message(&last), "axon_model_name received a null handle");
    assert!(axon_tensor_info(None, 0, &mut [], &mut last).is_none());
    assert_eq!(message(&last), "axon_tensor_info received a null handle");
    assert!(axon_tensor_data(None, 0, &mut last).size.is_none());
    assert_eq!(message(&last), "axon_tensor_data received a null handle");
    assert_eq!(axon_verify_checksums(None, &Vec::new(), &mut last).valid, 0);
    assert_eq!(message(&last), "axon_verify_checksums received a null handle");
}

#[test]
fn messages_hold_no_terminator() {
    let mut last = LastError::new();
    last.set("a\0b");
    assert_eq!(message(&last), "a\\0b");
    last.clear();
    let mut buf = [5u8; 2];
    assert_eq!(axon_last_error(&last, &mut buf), 0);
    assert_eq!(buf, [5, 5]);
}

#[test]
fn verdicts_are_summed_up() {
    let file = small_file();
    let mut last = LastError::new();
    let h = axon_open(PathArgument::Path("x"), Ok(&file), &mut last).unwrap();
    let results = vec![("b".to_string(), false), ("a".to_string(), true)];
    let r = axon_verify_checksums(Some(&h), &results, &mut last);
    assert_eq!(r.valid, 1);
    assert_eq!(r.failed, vec![1]);
}

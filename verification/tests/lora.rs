use axon::builder::AxonBuilder;
use axon::dtype::{dequantize_q4_0, dequantize_q8_0, QuantBlock};
use axon::elements::{
    element_kind, fits_row, place_elements, read_elements, read_row, sum_elements, sum_rest,
    unit_bytes, write_row, ElementKind, Elements,
};
use axon::lora::{PatchEntry, PatchStrategy, PatchedRuntime};
use axon::runtime::AxonRuntime;
use axon::tensor::DType;

fn build_base() -> Vec<u8> {
    let data: Vec<u8> = (0..64).collect();
    let mut builder = AxonBuilder::new().model("base-model").architecture("test");
    for name in [
        "layers.0.self_attn.q_proj.weight",
        "layers.0.self_attn.v_proj.weight",
        "layers.0.mlp.gate_proj.weight",
    ] {
        builder = builder.add_tensor(name, data.clone(), DType::U8, &[8, 8]);
    }
    builder.build().unwrap()
}

fn build_adapter() -> Vec<u8> {
    let data: Vec<u8> = (0..64).map(|i| 255 - (i as u8)).collect();
    AxonBuilder::new()
        .model("code-adapter")
        .architecture("lora")
        .add_tensor("layers.0.self_attn.q_proj.lora_A.weight", data.clone(), DType::U8, &[8, 8])
        .add_tensor("layers.0.self_attn.v_proj.lora_A.weight", data, DType::U8, &[8, 8])
        .build()
        .unwrap()
}

fn build_patch() -> Vec<u8> {
    let data: Vec<u8> = (0..64).map(|i| 255 - (i as u8)).collect();
    AxonBuilder::new()
        .model("patch-model")
        .architecture("patch")
        .add_tensor("layers.0.self_attn.q_proj.weight", data, DType::U8, &[8, 8])
        .build()
        .unwrap()
}

#[test]
fn test_attach_lora_adapter() {
    let (base, adapter) = (build_base(), build_adapter());
    let mut patched = PatchedRuntime::new(AxonRuntime::open(&base).unwrap());

    let count = patched.attach(&adapter).unwrap();
    assert_eq!(count, 2, "Should detect 2 LoRA target tensors");

    let patched_data = patched.tensor("layers.0.self_attn.q_proj.weight").unwrap();
    assert_eq!(patched_data[0], 255u8, "Patched tensor should have adapter value");

    let base_data = patched.tensor("layers.0.mlp.gate_proj.weight").unwrap();
    assert_eq!(base_data[0], 0u8, "Unpatched tensor should have base value");
}

#[test]
fn test_set_active_patch() {
    let (base, adapter) = (build_base(), build_adapter());
    let mut patched = PatchedRuntime::new(AxonRuntime::open(&base).unwrap());
    patched.attach(&adapter).unwrap();

    assert!(patched.active_patch_name().is_some());

    patched.set_active(None);
    assert!(patched.active_patch_name().is_none());

    let data = patched.tensor("layers.0.self_attn.q_proj.weight").unwrap();
    assert_eq!(data[0], 0u8, "No active patch = base values");
}

#[test]
fn test_attach_raw() {
    let (base, patch) = (build_base(), build_patch());
    let mut patched = PatchedRuntime::new(AxonRuntime::open(&base).unwrap());

    let entries = vec![PatchEntry {
        base_name: "layers.0.self_attn.q_proj.weight".to_string(),
        patch_name: "layers.0.self_attn.q_proj.weight".to_string(),
        strategy: PatchStrategy::Override,
    }];

    patched.attach_raw(&patch, "explicit-patch", entries).unwrap();
    assert_eq!(patched.patch_count(), 1);

    let data = patched.tensor("layers.0.self_attn.q_proj.weight").unwrap();
    assert_eq!(data[0], 255u8, "Raw patch should override");
}

#[test]
fn test_merge_lora() {
    let (base, adapter) = (build_base(), build_adapter());
    let mut patched = PatchedRuntime::new(AxonRuntime::open(&base).unwrap());
    patched.attach(&adapter).unwrap();

    let file = patched.merge_lora(0, &Vec::new()).unwrap();

    let mut merged = AxonRuntime::open(&file).unwrap();
    assert_eq!(merged.tensor_count(), 3);

    let q = merged.tensor("layers.0.self_attn.q_proj.weight").unwrap();
    assert_eq!(q[0], 255u8, "Merged Q should have adapter value");

    let g = merged.tensor("layers.0.mlp.gate_proj.weight").unwrap();
    assert_eq!(g[0], 0u8, "Unpatched merged tensor should keep base value");
}

#[test]
fn test_strip_lora_suffix() {
    assert_eq!(
        PatchedRuntime::strip_lora_suffix("layers.0.self_attn.q_proj.lora_A.weight"),
        Some("layers.0.self_attn.q_proj")
    );
    assert_eq!(
        PatchedRuntime::strip_lora_suffix("layers.0.self_attn.q_proj.lora_a.weight"),
        Some("layers.0.self_attn.q_proj")
    );
    assert_eq!(
        PatchedRuntime::strip_lora_suffix("layers.0.self_attn.q_proj.weight"),
        None,
    );
}

#[test]
fn test_detach_all() {
    let (base, adapter) = (build_base(), build_adapter());
    let mut patched = PatchedRuntime::new(AxonRuntime::open(&base).unwrap());
    patched.attach(&adapter).unwrap();
    assert_eq!(patched.patch_count(), 1);

    patched.detach_all();
    assert_eq!(patched.patch_count(), 0);
    assert!(patched.active_patch_name().is_none());
}

#[test]
fn test_shape_mismatch_rejected() {
    let base = AxonBuilder::new()
        .add_tensor("mat", vec![0u8; 32], DType::U8, &[8, 4])
        .build()
        .unwrap();
    let adapter = AxonBuilder::new()
        .add_tensor("mat.lora_A", vec![1u8; 128], DType::U8, &[16, 8])
        .build()
        .unwrap();

    let mut patched = PatchedRuntime::new(AxonRuntime::open(&base).unwrap());
    assert!(patched.attach(&adapter).is_ok());
    assert_eq!(patched.patch_count(), 1);
}

#[test]
fn test_invalid_patch_file_rejected() {
    let base = AxonBuilder::new()
        .add_tensor("mat", vec![0u8; 64], DType::U8, &[8, 8])
        .build()
        .unwrap();
    let mut patched = PatchedRuntime::new(AxonRuntime::open(&base).unwrap());
    let result = patched.attach(b"not a valid .axon file");
    assert!(result.is_err(), "Invalid patch file should be rejected");
}

#[test]
fn test_base_fallback_when_patch_missing_tensor() {
    let base = AxonBuilder::new()
        .add_tensor("mat", vec![0u8; 32], DType::U8, &[8, 4])
        .add_tensor("other", vec![99u8; 16], DType::U8, &[4, 4])
        .build()
        .unwrap();
    let adapter = AxonBuilder::new()
        .add_tensor("lora_mat", vec![1u8; 32], DType::U8, &[8, 4])
        .build()
        .unwrap();

    let mut patched = PatchedRuntime::new(AxonRuntime::open(&base).unwrap());
    patched.attach(&adapter).unwrap();

    let other = patched.tensor("other").unwrap();
    assert_eq!(other[0], 99u8, "Fallback to base tensor failed");
}

#[test]
fn a_prefixed_adapter_tensor_overrides() {
    let base = AxonBuilder::new()
        .add_tensor("mat", vec![0u8; 32], DType::U8, &[8, 4])
        .build()
        .unwrap();
    let adapter = AxonBuilder::new()
        .add_tensor("lora_mat", vec![1u8; 32], DType::U8, &[8, 4])
        .build()
        .unwrap();
    let mut patched = PatchedRuntime::new(AxonRuntime::open(&base).unwrap());
    assert_eq!(patched.attach(&adapter).unwrap(), 1);
    assert_eq!(patched.tensor("mat").unwrap(), vec![1u8; 32]);
}

fn one_tensor(name: &str, data: &[u8], dtype: DType) -> Vec<u8> {
    let n = (data.len() / dtype.size_in_bytes()) as u64;
    AxonBuilder::new().add_tensor(name, data.to_vec(), dtype, &[n]).build().unwrap()
}

fn add_entry() -> Vec<PatchEntry> {
    vec![PatchEntry {
        base_name: "w".to_string(),
        patch_name: "p".to_string(),
        strategy: PatchStrategy::Add,
    }]
}

fn merged_sum(base: &[u8], patch: &[u8], dtype: DType) -> Vec<u8> {
    let (b, p) = (one_tensor("w", base, dtype), one_tensor("p", patch, dtype));
    let mut patched = PatchedRuntime::new(AxonRuntime::open(&b).unwrap());
    patched.attach_raw(&p, "sum", add_entry()).unwrap();
    assert!(patched.merge_additions(0).unwrap().is_empty());
    let file = patched.merge_lora(0, &Vec::new()).unwrap();
    let mut merged = AxonRuntime::open(&file).unwrap();
    merged.tensor("w").unwrap()
}

#[test]
fn integers_are_added_element_by_element() {
    assert_eq!(sum_elements(&[1, 250, 7], &[2, 10], 1), vec![3, 4]);
    assert_eq!(sum_elements(&[255, 0, 1, 0], &[1, 0, 1, 0], 2), vec![0, 1, 2, 0]);
    assert_eq!(merged_sum(&[255, 1], &[1, 1], DType::U8), vec![0, 2]);
    let ints = |v: &[i32]| -> Vec<u8> { v.iter().flat_map(|x| x.to_le_bytes()).collect() };
    assert_eq!(
        merged_sum(&ints(&[-1, 70000, i32::MAX]), &ints(&[300, -70001, 1]), DType::I32),
        ints(&[299, -1, i32::MIN])
    );
    let wide = |v: i64| v.to_le_bytes().to_vec();
    assert_eq!(merged_sum(&wide(-5), &wide(1 << 40), DType::I64), wide((1 << 40) - 5));
    let short = |v: i16| v.to_le_bytes().to_vec();
    assert_eq!(merged_sum(&short(255), &short(1), DType::I16), short(256));
}

#[test]
fn fractions_are_added_by_their_sums() {
    let one = 1.0f32.to_le_bytes();
    let (b, p) = (one_tensor("w", &one, DType::F32), one_tensor("p", &one, DType::F32));
    let mut patched = PatchedRuntime::new(AxonRuntime::open(&b).unwrap());
    patched.attach_raw(&p, "a", add_entry()).unwrap();
    let additions = patched.merge_additions(0).unwrap();
    assert_eq!(additions.len(), 1);
    assert_eq!(additions[0].name, "w");
    assert_eq!(additions[0].dtype, DType::F32);
    let sums: Vec<Elements> = additions
        .iter()
        .map(|a| match (&a.base, &a.patch) {
            (Elements::Bits(x), Elements::Bits(y)) => {
                let pairs = x.iter().zip(y.iter());
                let sum = |x: u32, y: u32| (f32::from_bits(x) + f32::from_bits(y)).to_bits();
                Elements::Bits(pairs.map(|(x, y)| sum(*x, *y)).collect())
            }
            _ => unreachable!(),
        })
        .collect();
    let file = patched.merge_lora(0, &sums).unwrap();
    let mut merged = AxonRuntime::open(&file).unwrap();
    assert_eq!(merged.tensor("w").unwrap(), vec![0, 0, 0, 0x40]);
    assert_eq!(
        patched.merge_lora(0, &Vec::new()).unwrap_err().message(),
        "invalid manifest: tensor w: no sums for its elements"
    );
    assert!(patched.merge_lora(0, &vec![Elements::Bits(vec![1, 2])]).is_err());
    assert!(patched.merge_lora(0, &vec![Elements::Blocks(Vec::new())]).is_err());
    assert!(patched.merge_additions(1).is_err());
}

#[test]
fn half_precision_elements_are_placed_in_two_bytes() {
    assert_eq!(read_elements(&[1, 2, 3, 4], 2, 2), vec![0x0201, 0x0403]);
    assert_eq!(place_elements(&vec![0x0201, 0x0403], 2), vec![1, 2, 3, 4]);
    assert_eq!(element_kind(DType::BF16), ElementKind::Fraction);
    assert_eq!(element_kind(DType::I64), ElementKind::Integer);
}

fn block(scale: u16, values: Vec<i8>) -> QuantBlock {
    QuantBlock { scale, values }
}

#[test]
fn blocks_are_added_by_their_sums() {
    let four = |x: u8| {
        let mut d = vec![0x00, 0x3c];
        d.extend(vec![x; 16]);
        d
    };
    let (base, patch) = ([four(0x98), vec![200, 1]].concat(), [four(0xa9), vec![100, 1, 2]].concat());
    let (b, p) = (one_tensor("w", &base, DType::Q4), one_tensor("p", &patch, DType::Q4));
    let mut patched = PatchedRuntime::new(AxonRuntime::open(&b).unwrap());
    patched.attach_raw(&p, "a", add_entry()).unwrap();
    let additions = patched.merge_additions(0).unwrap();
    assert_eq!(additions.len(), 1);
    let (x, y) = match (&additions[0].base, &additions[0].patch) {
        (Elements::Blocks(x), Elements::Blocks(y)) => (x, y),
        _ => unreachable!(),
    };
    assert_eq!((x.len(), y.len()), (1, 1));
    assert_eq!((x[0].scale, x[0].values[0], x[0].values[1]), (0x3c00, 0, 1));
    assert_eq!((y[0].scale, y[0].values[0], y[0].values[1]), (0x3c00, 1, 2));
    let values: Vec<i8> = x[0].values.iter().zip(&y[0].values).map(|(x, y)| x + y).collect();
    let file = patched.merge_lora(0, &vec![Elements::Blocks(vec![block(0x3c00, values)])]).unwrap();
    let mut merged = AxonRuntime::open(&file).unwrap();
    assert_eq!(merged.tensor("w").unwrap(), [four(0xb9), vec![44, 2]].concat());

    assert_eq!(
        patched.merge_lora(0, &Vec::new()).unwrap_err().message(),
        "invalid manifest: tensor w: no sums for its elements"
    );
    for row in [
        Elements::Bits(vec![0]),
        Elements::Blocks(Vec::new()),
        Elements::Blocks(vec![block(0, vec![0; 31])]),
        Elements::Blocks(vec![block(0, vec![8; 32])]),
    ] {
        assert!(patched.merge_lora(0, &vec![row]).is_err());
    }
}

#[test]
fn written_blocks_are_read_back() {
    let values: Vec<i8> = (0..32i32).map(|i| (i * 8 - 128 + 7 * (i / 31)) as i8).collect();
    let row = Elements::Blocks(vec![block(0x1234, values.clone()), block(7, vec![-1; 32])]);
    assert!(fits_row(&row, DType::Q8, 2));
    assert!(!fits_row(&row, DType::Q8, 1));
    assert!(!fits_row(&row, DType::Q4, 2));
    assert!(!fits_row(&row, DType::F32, 2));
    let data = write_row(&row, DType::Q8);
    assert_eq!(data.len(), 68);
    assert_eq!(data[..4], [0x34, 0x12, 0x80, 0x88]);
    assert_eq!(data[34..37], [7, 0, 0xff]);
    let read = dequantize_q8_0(&data);
    assert_eq!((read[0].scale, &read[0].values), (0x1234, &values));
    match read_row(&data, DType::Q8, 2) {
        Elements::Blocks(b) => assert_eq!((b[1].scale, &b[1].values), (7, &vec![-1i8; 32])),
        Elements::Bits(_) => unreachable!(),
    }
    let values: Vec<i8> = (0..32).map(|i| i % 16 - 8).collect();
    let data = write_row(&Elements::Blocks(vec![block(1, values.clone())]), DType::Q4);
    assert_eq!(data[..4], [1, 0, 0x10, 0x32]);
    assert_eq!(dequantize_q4_0(&data)[0].values, values);
    assert_eq!((unit_bytes(DType::Q4), unit_bytes(DType::Q8)), (18, 34));
    assert_eq!((unit_bytes(DType::F16), unit_bytes(DType::I64)), (2, 8));
}

#[test]
fn a_sum_reaches_as_far_as_both_tensors() {
    assert_eq!(sum_rest(&[1, 2, 3, 4], &[9, 9, 255], 2), vec![2]);
    assert_eq!(sum_rest(&[1, 2], &[9, 9, 255], 2), Vec::<u8>::new());
    assert_eq!(merged_sum(&[1, 2, 3], &[1, 1, 255, 9], DType::U8), vec![2, 3, 2]);
}

#[test]
fn one_adapter_gives_its_tensors_while_it_is_active() {
    let (base, patch) = (one_tensor("w", &[1], DType::U8), one_tensor("p", &[2], DType::U8));
    let mut patched = PatchedRuntime::new(AxonRuntime::open(&base).unwrap());
    assert_eq!(patched.tensor("w").unwrap(), vec![1]);
    patched.attach_raw(&patch, "a", vec![override_entry("w", "p")]).unwrap();
    assert_eq!(patched.active_patch_name(), Some("a"));
    assert_eq!(patched.tensor("w").unwrap(), vec![2]);
    patched.set_active(None);
    assert_eq!(patched.tensor("w").unwrap(), vec![1]);
    patched.set_active(Some("a"));
    assert_eq!(patched.tensor("w").unwrap(), vec![2]);
    patched.set_active(Some("b"));
    assert_eq!(patched.tensor("w").unwrap(), vec![1]);
    patched.detach_all();
    assert_eq!(patched.active_patch_name(), None);
    assert_eq!(patched.tensor("w").unwrap(), vec![1]);
}

fn override_entry(base: &str, patch: &str) -> PatchEntry {
    PatchEntry {
        base_name: base.to_string(),
        patch_name: patch.to_string(),
        strategy: PatchStrategy::Override,
    }
}

#[test]
fn the_latest_adapter_comes_first() {
    let file = |rows: &[(&str, u8)]| {
        let mut b = AxonBuilder::new();
        for (name, value) in rows {
            b = b.add_tensor(name, vec![*value; 4], DType::U8, &[4]);
        }
        b.build().unwrap()
    };
    let base = file(&[("x", 0), ("y", 0), ("z", 0)]);
    let first = file(&[("x", 1), ("y", 1)]);
    let second = file(&[("x", 2)]);
    let mut patched = PatchedRuntime::new(AxonRuntime::open(&base).unwrap());
    patched
        .attach_raw(&first, "first", vec![override_entry("x", "x"), override_entry("y", "y")])
        .unwrap();
    patched.attach_raw(&second, "second", vec![override_entry("x", "x")]).unwrap();
    assert_eq!(patched.tensor("x").unwrap(), vec![2; 4]);
    assert_eq!(patched.tensor("y").unwrap(), vec![1; 4]);
    assert_eq!(patched.tensor("z").unwrap(), vec![0; 4]);
    assert_eq!(patched.tensor_byte_range("x", 1, 2).unwrap(), vec![2; 2]);
    assert_eq!(patched.tensor_byte_range("y", 1, 2).unwrap(), vec![1; 2]);
    assert!(patched.tensor_info("x").is_ok());

    patched.set_active(Some("first"));
    assert_eq!(patched.tensor("x").unwrap(), vec![1; 4]);
    patched.set_active(Some("second"));
    assert_eq!(patched.tensor("x").unwrap(), vec![2; 4]);
    assert_eq!(patched.tensor("y").unwrap(), vec![0; 4]);
    patched.set_active(None);
    assert_eq!(patched.tensor("x").unwrap(), vec![0; 4]);
}

#[test]
fn names_that_only_adapters_have_are_listed() {
    let base = one_tensor("w", &[1], DType::U8);
    let patch = one_tensor("p", &[2], DType::U8);
    let mut patched = PatchedRuntime::new(AxonRuntime::open(&base).unwrap());
    let entries = vec![
        override_entry("new", "p"),
        override_entry("w", "p"),
        override_entry("new", "p"),
    ];
    patched.attach_raw(&patch, "a", entries).unwrap();
    assert_eq!(patched.tensor_names(), vec!["w", "new"]);
    assert_eq!(patched.tensor("new").unwrap(), vec![2]);
    patched.set_active(None);
    assert_eq!(patched.tensor_names(), vec!["w"]);
    assert!(patched.tensor("new").is_err());
}

#[test]
fn a_merged_file_reads_as_the_layers_did() {
    let (base, adapter) = (build_base(), build_adapter());
    let mut patched = PatchedRuntime::new(AxonRuntime::open(&base).unwrap());
    patched.attach(&adapter).unwrap();
    let file = patched.merge_lora(0, &Vec::new()).unwrap();
    let mut merged = AxonRuntime::open(&file).unwrap();
    let names: Vec<String> = patched.tensor_names().iter().map(|n| n.to_string()).collect();
    for name in &names {
        assert_eq!(merged.tensor(name).unwrap(), patched.tensor(name).unwrap());
    }
    assert!(patched.merge_lora(1, &Vec::new()).is_err());
}

#[test]
fn patches_are_chosen_by_name() {
    let (base, adapter, patch) = (build_base(), build_adapter(), build_patch());
    let mut patched = PatchedRuntime::new(AxonRuntime::open(&base).unwrap());
    patched.attach(&adapter).unwrap();
    patched.attach_raw(&patch, "second", Vec::new()).unwrap();
    assert_eq!(patched.patch_names(), vec!["code-adapter", "second"]);
    patched.set_active(Some("code-adapter"));
    assert_eq!(patched.active_patch_name(), Some("code-adapter"));
    assert_eq!(patched.active_patch_entry_count(), 2);
    patched.set_active(Some("third"));
    assert_eq!(patched.active_patch_name(), None);
    assert_eq!(patched.active_patch_entry_count(), 0);
}

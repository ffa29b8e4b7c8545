use axon::builder::AxonBuilder;
use axon::dtype::{
    block_size_bytes, block_size_values, dequantize_tensor, div_ceil, embedding_row,
    flat_size_bytes, read_as_single, row_stride_bytes, Dequantized,
};
use axon::gemma4::{
    candidate_count, frequency_index, gemma4_forward, head_norm_len, is_routed, second_weight,
    top_route, Gemma4Config, Gemma4Weights, GemmaNorm, ScoreRow,
};
use axon::json::JsonValue;
use axon::kv_cache::KVCache;
use axon::model::{LoadedModel, ModelConfig};
use axon::ops::{apply_causal_mask, apply_gemma_mask, copy};
use axon::plan::{
    choose_product, kv_head, stored_head_at, widen_heads, Buffer, NormSlot, Product, Slot, Step,
};
use axon::quantized::quantized_row;
use axon::runtime::AxonRuntime;
use axon::sampling::{
    filters_of, first_reached, greedy_sample, is_less, keep_top_k, nucleus_cutoff, pick, rank,
    sample_start, zero_below, Lcg, SampleStart, SamplingParams, TopK,
};
use axon::tensor::DType;
use axon::tensor_cache::TensorCache;
use axon::transformer::{forward, load_layer, ModelWeights, NormWeights};

fn singles(v: &[f32]) -> Vec<u8> {
    v.iter().flat_map(|x| x.to_le_bytes()).collect()
}

fn bits(v: &[f32]) -> Vec<u32> {
    v.iter().map(|x| x.to_bits()).collect()
}

fn q4_block(scale: u16, nibbles: &[u8; 32]) -> Vec<u8> {
    let mut b = scale.to_le_bytes().to_vec();
    for i in 0..16 {
        b.push(nibbles[2 * i] | (nibbles[2 * i + 1] << 4));
    }
    b
}

#[test]
fn numbers_are_read_by_their_type() {
    match dequantize_tensor(&singles(&[1.5, -2.0]), DType::F32) {
        Dequantized::Singles(s) => assert_eq!(s, bits(&[1.5, -2.0])),
        other => panic!("unexpected {:?}", other),
    }
    match dequantize_tensor(&[0x00, 0x3c, 0x00, 0xc0, 9], DType::F16) {
        Dequantized::Halves(s) => assert_eq!(s, vec![0x3c00, 0xc000]),
        other => panic!("unexpected {:?}", other),
    }
    let mut q8 = vec![0x00, 0x3c];
    q8.extend((0..32).map(|i| (i as i8 - 16) as u8));
    match dequantize_tensor(&q8, DType::Q8) {
        Dequantized::Blocks(b) => {
            assert_eq!(b.len(), 1);
            assert_eq!(b[0].scale, 0x3c00);
            assert_eq!(b[0].values, (0..32).map(|i| i - 16).collect::<Vec<i8>>());
        }
        other => panic!("unexpected {:?}", other),
    }
    assert_eq!(dequantize_tensor(&q8, DType::Q8).count(), 32);
    assert!(dequantize_tensor(&[], DType::F32).is_empty());
    assert_eq!(read_as_single(&singles(&[7.0, 8.0]), 1), 8.0f32.to_bits());
    assert_eq!(read_as_single(&singles(&[7.0]), 1), 0);
}

#[test]
fn four_bit_blocks_are_unpacked() {
    let mut nibbles = [0u8; 32];
    for (i, n) in nibbles.iter_mut().enumerate() {
        *n = (i % 16) as u8;
    }
    let b = q4_block(0x3c00, &nibbles);
    match dequantize_tensor(&b, DType::Q4) {
        Dequantized::Blocks(b) => {
            assert_eq!(b[0].values.len(), 32);
            let mut sorted = b[0].values.clone();
            sorted.sort();
            let mut expected: Vec<i8> = nibbles.iter().map(|n| *n as i8 - 8).collect();
            expected.sort();
            assert_eq!(sorted, expected);
        }
        other => panic!("unexpected {:?}", other),
    }
    let row = quantized_row(&b, 0, 32, 18, 32);
    assert_eq!(row.len(), 1);
    match dequantize_tensor(&b, DType::Q4) {
        Dequantized::Blocks(whole) => {
            assert_eq!(row[0].scale, whole[0].scale);
            assert_eq!(row[0].values, whole[0].values);
        }
        other => panic!("unexpected {:?}", other),
    }
    assert_eq!(quantized_row(&[0; 18], 0, 32, 18, 32)[0].values, vec![-8; 32]);
    assert!(quantized_row(&b, 0, 32, 17, 32).is_empty());
}

#[test]
fn sizes_of_rows() {
    assert_eq!(block_size_bytes(DType::Q4), 18);
    assert_eq!(block_size_values(DType::Q8), 32);
    assert_eq!(row_stride_bytes(33, DType::Q4), 36);
    assert_eq!(flat_size_bytes(64, DType::Q8), 68);
    assert_eq!(flat_size_bytes(5, DType::F16), 10);
    assert_eq!(div_ceil(0, 7), 0);
    assert_eq!(div_ceil(8, 7), 2);
    assert_eq!(embedding_row(2, 3, DType::F32, 36), Some((24, 36)));
    assert_eq!(embedding_row(2, 3, DType::F32, 35), None);
    assert_eq!(embedding_row(usize::MAX, 3, DType::F32, 36), None);
}

#[test]
fn masks_hide_what_may_not_be_seen() {
    let mut s = vec![1; 2 * 2 * 3];
    apply_causal_mask(&mut s, 2, 2, 3, 0);
    assert_eq!(s, vec![1, 0, 0, 1, 1, 0, 1, 0, 0, 1, 1, 0]);
    let mut s = vec![1; 6];
    apply_gemma_mask(&mut s, 1, 6, 4, true, 2, 0);
    assert_eq!(s, vec![0, 0, 1, 1, 1, 0]);
    let mut s = vec![1; 6];
    apply_gemma_mask(&mut s, 1, 6, 4, false, 2, 0);
    assert_eq!(s, vec![1, 1, 1, 1, 1, 0]);
    let mut d = [0, 0];
    copy(&mut d, &[3, 4]);
    assert_eq!(d, [3, 4]);
}

#[test]
fn a_cache_gives_back_what_was_pushed() {
    let mut c = KVCache::new(2, 2, 3, 4, 0);
    assert_eq!((c.n_layers(), c.n_kv_heads(), c.head_dim()), (2, 2, 3));
    for pos in 0..4 {
        for layer in 0..2 {
            let k: Vec<i32> = (0..6).map(|i| 100 * layer + 10 * pos + i).collect();
            let v: Vec<i32> = k.iter().map(|x| -x).collect();
            c.push_layer(layer as usize, &k, &v);
        }
        c.advance();
    }
    assert!(c.is_full());
    assert_eq!(c.seq_len(), 4);
    assert_eq!(c.get_key_at(1, 1, 2), &[123, 124, 125]);
    assert_eq!(c.get_value_at(0, 0, 3), &[-30, -31, -32]);
    assert_eq!(c.get_keys(0).len(), 24);
    assert_eq!(&c.get_values(1)[6..12], &[-110, -111, -112, -113, -114, -115]);
    c.clear();
    assert_eq!(c.seq_len(), 0);
    assert!(!c.is_full());
}

#[test]
fn heads_are_shared_and_widened() {
    let heads: Vec<usize> = (0..8).map(|h| kv_head(h, 8, 2)).collect();
    assert_eq!(heads, vec![0, 0, 0, 0, 1, 1, 1, 1]);
    assert_eq!(stored_head_at(2, 2, 1, 5, 3), 25);
    assert_eq!(
        widen_heads(&[1, 2, 3, 4], 2, 2, 3, 0),
        vec![1, 2, 0, 3, 4, 0]
    );
    assert_eq!(choose_product(false, DType::Q4, true), Product::Columns);
    assert_eq!(choose_product(false, DType::Q4, false), Product::Rows);
    assert_eq!(
        choose_product(true, DType::Q4, true),
        Product::Blocks { bytes: 18, values: 32 }
    );
}

#[test]
fn the_greatest_score_is_taken() {
    assert_eq!(greedy_sample(&bits(&[0.1, 0.7, 0.2])), 1);
    assert_eq!(greedy_sample(&bits(&[0.5, 0.5, -1.0])), 1);
    assert_eq!(greedy_sample(&[]), 0);
    assert_eq!(greedy_sample(&bits(&[f32::NAN])), 0);
    let mut p = SamplingParams::default();
    assert_eq!(p.temperature, 0.7f32.to_bits());
    assert_eq!(p.top_k, 40);
    assert_eq!(p.top_p, 0.9f32.to_bits());
    assert_eq!(p.repeat_penalty, 1.1f32.to_bits());
    assert_eq!(sample_start(&bits(&[1.0, 3.0]), &p), SampleStart::Draw);
    p.temperature = 0.0f32.to_bits();
    assert_eq!(sample_start(&bits(&[1.0, 3.0]), &p), SampleStart::Take(1));
    assert_eq!(sample_start(&[], &p), SampleStart::Take(0));
}

#[test]
fn scores_are_ordered_as_numbers() {
    let v = [-f32::INFINITY, -2.0, -0.5, 0.0, 1e-40, 0.25, 3.0, f32::INFINITY];
    for a in v {
        for b in v {
            assert_eq!(is_less(a.to_bits(), b.to_bits()), a < b);
        }
        assert!(!is_less(a.to_bits(), f32::NAN.to_bits()));
        assert!(!is_less(f32::NAN.to_bits(), a.to_bits()));
    }
    assert!(!is_less((-0.0f32).to_bits(), 0.0f32.to_bits()));
}

#[test]
fn the_best_scores_are_kept() {
    let mut s = bits(&[0.1, 0.4, 0.2, 0.3, 0.2]);
    let mut kept = vec![true; 5];
    keep_top_k(&mut s, &mut kept, 3);
    assert_eq!(s, bits(&[0.0, 0.4, 0.2, 0.3, 0.2]));
    assert_eq!(kept, vec![false, true, true, true, true]);
    keep_top_k(&mut s, &mut kept, 1);
    assert_eq!(s, bits(&[0.0, 0.4, 0.0, 0.0, 0.0]));
    assert_eq!(kept, vec![false, true, false, false, false]);
    let mut s = bits(&[0.1, 0.4]);
    let mut kept = vec![true; 2];
    keep_top_k(&mut s, &mut kept, 2);
    assert_eq!(s, bits(&[0.1, 0.4]));
    assert_eq!(kept, vec![true, true]);
    zero_below(&mut s, &mut kept, 0.2f32.to_bits());
    assert_eq!(s, bits(&[0.0, 0.4]));
    assert_eq!(kept, vec![false, true]);
    let v = vec![(0.1f32.to_bits(), 0), (0.9f32.to_bits(), 1), (0.5f32.to_bits(), 2)];
    let order: Vec<usize> = rank(&v).iter().map(|x| x.1).collect();
    assert_eq!(order, vec![1, 2, 0]);
}

#[test]
fn the_best_of_a_stream_are_kept() {
    let mut t = TopK::new(3);
    for (i, x) in [0.3f32, 0.9, 0.1, 0.5, 0.95, 0.2].iter().enumerate() {
        t.offer(x.to_bits(), i);
    }
    let kept: Vec<usize> = t.finish().iter().map(|x| x.1).collect();
    assert_eq!(kept, vec![4, 1, 3]);
}

#[test]
fn the_generator_repeats_itself() {
    let mut g = Lcg::new();
    let mut state: u64 = 42;
    for _ in 0..100 {
        state = state
            .wrapping_mul(6364136223846793005)
            .wrapping_add(1442695040888963407);
        assert_eq!(g.draw() as u64, state >> 33);
    }
}

#[test]
fn a_tensor_cache_drops_the_least_recent() {
    let mut c = TensorCache::new(10);
    c.put("a".to_string(), vec![1; 4]);
    c.put("b".to_string(), vec![2; 4]);
    assert_eq!(*c.get("a").unwrap(), vec![1; 4]);
    c.put("c".to_string(), vec![3; 4]);
    assert!(c.get("b").is_none());
    assert!(c.get("a").is_some());
    assert_eq!(c.current_usage(), 8);
    assert_eq!(c.budget(), 10);
    assert_eq!(c.stats().evictions, 1);
    c.pin("a");
    assert!(c.is_pinned("a"));
    c.put("d".to_string(), vec![4; 4]);
    assert!(c.get("a").is_some());
    assert!(c.get("c").is_none());
    c.unpin("a");
    c.evict("a");
    assert!(c.get("a").is_none());
    c.clear();
    assert_eq!(c.current_usage(), 0);
}

fn model_file(heads: u64) -> Vec<u8> {
    let mut b = AxonBuilder::new()
        .model("m")
        .architecture("llama")
        .metadata("n_layers", JsonValue::UInt(1))
        .metadata("dim", JsonValue::UInt(4))
        .metadata("n_heads", JsonValue::UInt(heads))
        .metadata("n_kv_heads", JsonValue::UInt(1))
        .metadata("vocab_size", JsonValue::Text("2".to_string()))
        .metadata("rms_norm_eps", JsonValue::Float(1e-6f64.to_bits()));
    b = b.add_tensor("token_embd.weight", singles(&[0.5; 8]), DType::F32, &[2, 4]);
    b = b.add_tensor("blk.0.attn_q.weight", singles(&[1.0; 16]), DType::F32, &[4, 4]);
    b = b.add_tensor("blk.0.mlp.gate_proj.weight", singles(&[2.0; 64]), DType::F32, &[16, 4]);
    b = b.add_tensor("output_norm.weight", singles(&[1.0; 4]), DType::F32, &[4]);
    b.build().unwrap()
}

#[test]
fn a_model_is_configured() {
    let file = model_file(2);
    let rt = AxonRuntime::open(&file).unwrap();
    let c = ModelConfig::from_runtime(&rt).unwrap();
    assert_eq!(c.architecture, "llama");
    assert_eq!((c.n_layers, c.dim, c.n_heads, c.n_kv_heads), (1, 4, 2, 1));
    assert_eq!((c.hidden_dim, c.vocab_size, c.ctx_len, c.head_dim), (16, 2, 4096, 2));
    assert_eq!(c.layer_prefix(7), "blk.7");
    let file = model_file(0);
    let rt = AxonRuntime::open(&file).unwrap();
    assert_eq!(
        ModelConfig::from_runtime(&rt).unwrap_err(),
        "model has no attention heads"
    );
}

#[test]
fn weights_are_found_by_name() {
    let file = model_file(2);
    let mut m = LoadedModel::open(&file).unwrap();
    assert_eq!(m.dtype("token_embd.weight"), Some(DType::F32));
    assert!(m.has_tensor("output_norm.weight"));
    assert_eq!(m.numbers("output_norm.weight").unwrap().count(), 4);
    assert_eq!(m.layer_weight(0, "attn_q").unwrap().count(), 16);
    assert_eq!(m.weight("tok_embeddings").unwrap().count(), 8);
    assert_eq!(
        m.layer_weight(0, "q_proj").unwrap_err(),
        "unknown projection 'q_proj' for layer 0"
    );
    assert!(m.layer_weight(1, "attn_q").unwrap_err().starts_with("weight not found: layer 1"));
    assert!(m.raw("nothing").is_err());
    let error = m.weight("nothing").unwrap_err();
    assert!(error.contains("token_embd.weight"));
    assert_eq!(m.tensor_names().len(), 4);
}

#[test]
fn a_transformer_is_loaded_and_planned() {
    let file = model_file(2);
    let mut m = LoadedModel::open(&file).unwrap();
    let w = ModelWeights::load(&mut m).unwrap();
    assert_eq!(m.rt.stats().tensor_accesses(), 4);
    assert_eq!(m.rt.stats().bytes_read(), 32 + 16 + 64 + 256);
    assert!(w.output_shared);
    assert_eq!(w.embeddings.numbers.count(), 8);
    assert_eq!(w.layers.len(), 1);
    assert_eq!(w.layers[0].wq.numbers.count(), 16);
    assert_eq!(w.layers[0].w1.numbers.count(), 64);
    assert!(w.layers[0].wk.raw.is_none());
    assert!(matches!(w.layers[0].attention_norm, NormWeights::Ones));
    assert!(matches!(w.norm, NormWeights::Loaded(_)));
    assert_eq!(load_layer(&mut m, 0).wq.numbers.count(), 16);

    let steps = forward(&m.config, &w);
    assert_eq!(steps.len(), 25);
    assert_eq!(steps[0], Step::Layer(0));
    assert_eq!(
        steps[3],
        Step::Multiply {
            matrix: Slot::Query,
            how: Product::Blocks { bytes: 4, values: 1 },
            rows: 4,
            cols: 4,
            from: Buffer::Input,
            to: Buffer::Query,
        }
    );
    assert_eq!(steps[22], Step::Advance);
    assert_eq!(
        steps[24],
        Step::Multiply {
            matrix: Slot::Embeddings,
            how: Product::Rows,
            rows: 2,
            cols: 4,
            from: Buffer::State,
            to: Buffer::Logits,
        }
    );
}

#[test]
fn embeddings_of_the_wrong_size_are_refused() {
    let file = AxonBuilder::new()
        .metadata("n_heads", JsonValue::UInt(1))
        .metadata("dim", JsonValue::UInt(3))
        .metadata("vocab_size", JsonValue::UInt(5))
        .add_tensor("wte.weight", singles(&[0.0; 8]), DType::F32, &[8])
        .build()
        .unwrap();
    let mut m = LoadedModel::open(&file).unwrap();
    assert_eq!(
        ModelWeights::load(&mut m).unwrap_err(),
        "token embeddings size mismatch: expected 15 elements, got 8"
    );
}

fn gemma_file(pattern: Option<Vec<JsonValue>>) -> Vec<u8> {
    let mut md = vec![
        ("gemma4.attention.head_count".to_string(), JsonValue::UInt(2)),
        ("gemma4.attention.head_count_kv".to_string(), JsonValue::UInt(1)),
        ("gemma4.attention.key_length".to_string(), JsonValue::UInt(4)),
        ("gemma4.attention.key_length_swa".to_string(), JsonValue::UInt(2)),
    ];
    if let Some(p) = pattern {
        md.push((
            "gemma4.attention.sliding_window_pattern".to_string(),
            JsonValue::Array(p),
        ));
    }
    md.extend(vec![
        ("gemma4.block_count".to_string(), JsonValue::UInt(2)),
        ("gemma4.embedding_length".to_string(), JsonValue::UInt(3)),
        ("gemma4.feed_forward_length".to_string(), JsonValue::UInt(5)),
        ("gemma4.vocab_size".to_string(), JsonValue::Text("2".to_string())),
    ]);
    md.sort_by(|a, b| a.0.cmp(&b.0));
    AxonBuilder::new()
        .metadata("gguf.metadata", JsonValue::Object(md))
        .add_tensor("token_embd.weight", singles(&[1.0, 2.0, 3.0, 4.0, 5.0, 6.0]), DType::F32, &[2, 3])
        .add_tensor("output_norm.weight", singles(&[1.0; 3]), DType::F32, &[3])
        .add_tensor("blk.0.attn_q.weight", singles(&[1.0; 12]), DType::F32, &[4, 3])
        .add_tensor("blk.0.ffn_gate_1.weight", singles(&[1.0; 20]), DType::F32, &[20])
        .add_tensor("blk.0.layer_output_scale.weight", singles(&[0.25]), DType::F32, &[1])
        .build()
        .unwrap()
}

#[test]
fn a_gemma_model_is_configured() {
    let file = gemma_file(Some(vec![JsonValue::Bool(true), JsonValue::Bool(false)]));
    let rt = AxonRuntime::open(&file).unwrap();
    let c = Gemma4Config::from_runtime(&rt).unwrap();
    assert_eq!((c.n_layers, c.dim, c.n_heads, c.n_kv_heads), (2, 3, 2, 1));
    assert_eq!((c.head_dim, c.head_dim_swa, c.hidden_dim, c.vocab_size), (4, 2, 5, 2));
    assert_eq!((c.ctx_len, c.rope_dim, c.rope_dim_swa), (131072, 512, 256));
    assert_eq!((c.sliding_window, c.shared_kv_layers, c.per_layer_dim), (512, 18, 256));
    assert!(c.is_swa_layer(0));
    assert!(!c.is_swa_layer(1));
    assert!(c.is_swa_layer(2));
    let file = gemma_file(None);
    let rt = AxonRuntime::open(&file).unwrap();
    assert_eq!(Gemma4Config::from_runtime(&rt).unwrap().swa_pattern, vec![true; 42]);
    let bare = AxonBuilder::new().build().unwrap();
    let rt = AxonRuntime::open(&bare).unwrap();
    assert_eq!(
        Gemma4Config::from_runtime(&rt).unwrap_err(),
        "no gguf.metadata in manifest"
    );
}

#[test]
fn gemma_weights_are_loaded_and_planned() {
    let file = gemma_file(Some(vec![JsonValue::Bool(true), JsonValue::Bool(false)]));
    let mut rt = AxonRuntime::open(&file).unwrap();
    let c = Gemma4Config::from_runtime(&rt).unwrap();
    let w = Gemma4Weights::load(&mut rt, &c).unwrap();
    assert_eq!(rt.stats().tensor_accesses(), 5);
    assert_eq!(rt.stats().bytes_read(), 24 + 12 + 48 + 80 + 4);
    assert!(w.shared_embd);
    assert_eq!(w.layers.len(), 2);
    assert_eq!(w.layers[0].attn_q.values.count, 12);
    assert!(w.layers[0].has_experts);
    assert_eq!(w.layers[0].expert_gate.values.count, 15);
    assert_eq!(w.layers[0].expert_up.values.count, 0);
    assert_eq!(w.layers[0].layer_output_scale, 0.25f32.to_bits());
    assert_eq!(w.layers[1].layer_output_scale, 1.0f32.to_bits());
    assert!(matches!(w.layers[0].attn_norm, GemmaNorm::Ones));
    match w.embed(1) {
        Some(Dequantized::Singles(s)) => assert_eq!(s, bits(&[4.0, 5.0, 6.0])),
        other => panic!("unexpected {:?}", other),
    }
    assert!(w.embed(2).is_none());
    assert_eq!(w.score_row(1), ScoreRow::Other { start: 12, end: 24 });
    assert_eq!(w.score_row(2), ScoreRow::Zero);

    let steps = gemma4_forward(&w);
    assert_eq!(steps.len(), 37 + 8 + 37 + 2);
    assert!(steps.contains(&Step::Mask { heads: 2, sliding: true, window: 512 }));
    assert!(steps.contains(&Step::Mask { heads: 2, sliding: false, window: 512 }));
    assert!(steps.contains(&Step::Score { heads: 2, kv_heads: 1, head_dim: 2, full: 4 }));
    assert!(steps.contains(&Step::Score { heads: 2, kv_heads: 1, head_dim: 4, full: 4 }));
    assert_eq!(
        steps[steps.len() - 1],
        Step::Norm { buffer: Buffer::State, norm: NormSlot::Last }
    );
}

#[test]
fn gemma_weights_that_are_missing_are_reported() {
    let md = JsonValue::Object(Vec::new());
    let file = AxonBuilder::new().metadata("gguf.metadata", md).build().unwrap();
    let mut rt = AxonRuntime::open(&file).unwrap();
    let c = Gemma4Config::from_runtime(&rt).unwrap();
    assert_eq!(
        Gemma4Weights::load(&mut rt, &c).unwrap_err(),
        "token_embd.weight not found"
    );
    let file = AxonBuilder::new()
        .metadata("gguf.metadata", JsonValue::Object(Vec::new()))
        .add_tensor("token_embd.weight", singles(&[1.0]), DType::F32, &[1])
        .build()
        .unwrap();
    let mut rt = AxonRuntime::open(&file).unwrap();
    assert_eq!(
        Gemma4Weights::load(&mut rt, &c).unwrap_err(),
        "output_norm.weight not found"
    );
}

#[test]
fn routes_are_chosen() {
    let r = bits(&[0.1, 0.4, 0.4, 0.1]);
    assert_eq!(top_route(&r), 2);
    assert_eq!(second_weight(&r, 2), 0.4f32.to_bits());
    assert_eq!(second_weight(&bits(&[1.0]), 0), 0);
    assert!(is_routed(0.02f32.to_bits()));
    assert!(!is_routed(0.01f32.to_bits()));
    assert!(!is_routed(f32::NAN.to_bits()));
    assert_eq!(frequency_index(2, 4, 8, false), Some(2));
    assert_eq!(frequency_index(2, 4, 8, true), Some(6));
    assert_eq!(frequency_index(2, 4, 4, true), Some(2));
    assert_eq!(frequency_index(2, 4, 2, false), None);
    assert_eq!(head_norm_len(3, 4), 3);
    assert_eq!(head_norm_len(9, 4), 4);
    assert_eq!(candidate_count(40), 64);
    assert_eq!(candidate_count(100), 100);
}

#[test]
fn a_draw_stops_where_the_sums_reach_it() {
    let kept = [false, true, false, true, false];
    let sums = bits(&[0.0, 0.25, 0.25, 1.0, 1.0]);
    let drawn = |r: f32| pick(&kept, &sums, r.to_bits());
    assert_eq!(drawn(0.0), 1);
    assert_eq!(drawn(0.25), 1);
    assert_eq!(drawn(0.3), 3);
    assert_eq!(drawn(1.5), 3);
    assert_eq!(drawn(f32::NAN), 3);
    assert_eq!(first_reached(&sums, 0.5f32.to_bits()), Some(3));
    assert_eq!(first_reached(&sums, 2.0f32.to_bits()), None);
}

#[test]
fn scores_of_zero_are_drawn_where_nothing_was_cut() {
    let sums = bits(&[0.0, 0.25, 1.0, 1.0]);
    let drawn = |r: f32| pick(&[true; 4], &sums, r.to_bits());
    assert_eq!(drawn(0.0), 0);
    assert_eq!(drawn(0.2), 1);
    assert_eq!(drawn(1.0), 2);
    assert_eq!(drawn(1.5), 3);
    assert_eq!(drawn(f32::NAN), 3);
}

#[test]
fn filters_run_where_they_can_cut() {
    let filters = |k: usize, p: f32, n: usize| {
        let params = SamplingParams { top_k: k, top_p: p.to_bits(), ..SamplingParams::default() };
        filters_of(&params, n)
    };
    assert_eq!(filters(40, 1.0, 100), (true, false));
    assert_eq!(filters(100, 0.9, 100), (false, true));
    assert_eq!(filters(0, 0.9, 1), (true, true));
    assert_eq!(filters(101, 1.5, 100), (false, false));
    assert_eq!(filters(101, f32::NAN, 100), (false, false));
}

#[test]
fn the_nucleus_ends_where_its_share_is_reached() {
    let pairs: Vec<(u32, usize)> = bits(&[0.5, 0.3, 0.2]).into_iter().zip(0..3).collect();
    let sums = bits(&[0.5, 0.8, 1.0]);
    assert_eq!(nucleus_cutoff(&pairs, &sums, 0.6f32.to_bits()), 0.3f32.to_bits());
    assert_eq!(nucleus_cutoff(&pairs, &sums, 0.5f32.to_bits()), 0.5f32.to_bits());
    assert_eq!(nucleus_cutoff(&pairs, &sums, 1.5f32.to_bits()), 0);
}

#[test]
fn the_best_of_a_whole_row_are_kept_once() {
    let row = bits(&[3.0, 9.0, 1.0, 7.0, 7.0, 2.0]);
    let mut best = TopK::new(3);
    for (token, score) in row.iter().enumerate() {
        best.offer(*score, token);
    }
    let kept = best.finish();
    let tokens: Vec<usize> = kept.iter().map(|k| k.1).collect();
    assert_eq!(tokens[0], 1);
    assert_eq!(kept.len(), 3);
    assert!(tokens.contains(&3) && tokens.contains(&4));
}

#[test]
fn layers_beyond_those_configured_are_passed_over() {
    let file = model_file(2);
    let mut m = LoadedModel::open(&file).unwrap();
    let mut w = ModelWeights::load(&mut m).unwrap();
    let steps = forward(&m.config, &w);
    w.layers.push(load_layer(&mut m, 0));
    assert_eq!(forward(&m.config, &w), steps);
}

use candle_core::quantized::GgmlDType;
use ssd_moe::dequant::ExpertDtype;
use ssd_moe::extract::fused::{element_count, expand_fused, raw_tensor_len, tensor_len};
use ssd_moe::extract::ggml::TensorType;
use ssd_moe::extract::groups::{
    classify_tensors, copy_meta, ExpertGroups, ProjMeta, TensorInfo, ThreeProjs,
};
use ssd_moe::extract::names::{
    classify_proj, is_router_gate, parse_expert_tensor, parse_tensor_name, Projection,
};
use ssd_moe::extract::plan::{
    plan_extraction, plan_files, plan_layout, ExtractError, Layout, Skipped, TensorRead,
};
use ssd_moe::storage::PreadStorage;

const D_MODEL: usize = 64;
const D_FF: usize = 128;
const N_LAYERS: usize = 2;
const N_EXPERTS: usize = 2;

/// The tensors of a model with their data, one behind the other.
struct Model {
    tensors: Vec<TensorInfo>,
    data: Vec<u8>,
}

impl Model {
    fn new() -> Model {
        Model { tensors: Vec::new(), data: Vec::new() }
    }

    fn add(&mut self, name: &str, shape: &[usize], dtype: TensorType) {
        let offset = self.data.len() as u64;
        let len = tensor_len(dtype, shape).unwrap();
        let tag = self.tensors.len() as u8 + 1;
        self.data.extend((0..len).map(|i| tag ^ (i as u8 & 0x80)));
        self.tensors.push(info(name, shape, dtype, offset));
    }

    fn read(&self, r: &TensorRead) -> &[u8] {
        &self.data[r.offset as usize..r.offset as usize + r.byte_len]
    }
}

fn info(name: &str, shape: &[usize], dtype: TensorType, offset: u64) -> TensorInfo {
    TensorInfo { name: name.to_string(), shape: shape.to_vec(), dtype, offset }
}

fn meta(shape: &[usize], dtype: TensorType, offset: u64) -> ProjMeta {
    ProjMeta { shape: shape.to_vec(), dtype, offset }
}

fn synthetic() -> Model {
    let mut m = Model::new();
    m.add("tok_embeddings.weight", &[32000, D_MODEL], TensorType::F32);
    m.add("output.weight", &[32000, D_MODEL], TensorType::F32);
    for layer in 0..N_LAYERS {
        for part in ["attn_q", "attn_k", "attn_v", "attn_output"] {
            m.add(&format!("blk.{layer}.{part}.weight"), &[D_MODEL, D_MODEL], TensorType::F32);
        }
        m.add(&format!("blk.{layer}.attn_norm.weight"), &[D_MODEL], TensorType::F32);
        m.add(&format!("blk.{layer}.ffn_norm.weight"), &[D_MODEL], TensorType::F32);
        m.add(
            &format!("blk.{layer}.ffn_gate_inp.weight"),
            &[N_EXPERTS, D_MODEL],
            TensorType::F32,
        );
        for expert in 0..N_EXPERTS {
            let q4 = TensorType::Q4_0;
            m.add(&format!("blk.{layer}.ffn_gate.{expert}.weight"), &[D_FF, D_MODEL], q4);
            m.add(&format!("blk.{layer}.ffn_up.{expert}.weight"), &[D_FF, D_MODEL], q4);
            m.add(&format!("blk.{layer}.ffn_down.{expert}.weight"), &[D_MODEL, D_FF], q4);
        }
    }
    m
}

#[test]
fn extract_and_verify_synthetic_gguf() {
    let model = synthetic();
    let x = match plan_extraction(&model.tensors) {
        Ok(x) => x,
        Err(e) => panic!("extraction failed: {e:?}"),
    };
    let manifest = &x.plan.manifest;
    assert_eq!(manifest.num_layers, N_LAYERS);
    assert_eq!(manifest.num_experts_per_layer, N_EXPERTS);
    assert_eq!(manifest.expert_map.len(), N_LAYERS * N_EXPERTS);

    for layer in 0..N_LAYERS {
        for exp in 0..N_EXPERTS {
            let global_id = (layer * N_EXPERTS + exp) as u32;
            let entry = manifest.lookup(global_id).unwrap();
            assert_eq!(entry.layer_idx, layer);
            assert_eq!(entry.local_id, exp);
            assert_eq!(entry.d_model, D_MODEL);
            assert_eq!(entry.d_ff, D_FF);
            assert_eq!(entry.dtype, "Q4_0");
        }
    }

    for layer in 0..N_LAYERS {
        for exp in 0..N_EXPERTS {
            let fname = format!("layer_{layer}_expert_{exp}.bin");
            let file = x.plan.files.iter().find(|f| f.file_name == fname);
            let file = file.unwrap_or_else(|| panic!("missing {fname}"));
            let mut data: Vec<u8> = Vec::new();
            for part in [&file.gate, &file.up, &file.down] {
                data.extend_from_slice(model.read(part));
            }
            let gate_up_bytes = 2 * D_FF * D_MODEL * 18 / 32;
            let down_bytes = D_MODEL * D_FF * 18 / 32;
            let expected = gate_up_bytes + down_bytes;
            assert_eq!(data.len(), expected, "wrong size for {fname}");
            assert!(data.iter().any(|&b| b != 0), "{fname} is all zeros");
            assert_eq!(manifest.lookup(file.global_id).unwrap().byte_size, expected as u64);
        }
    }

    assert_eq!(x.layout, Layout {
        num_layers: 2,
        num_experts_per_layer: 2,
        d_model: D_MODEL,
        d_ff: D_FF,
        dtype: TensorType::Q4_0,
    });
    assert_eq!(x.num_experts, 4);
    assert_eq!(x.dense.len(), 2 + 7 * N_LAYERS);
    assert_eq!(x.dense[8], "blk.0.ffn_gate_inp.weight");
    assert!(x.plan.skipped.is_empty());
    assert_eq!(manifest.layers[1].layer_idx, 1);
    assert_eq!(manifest.layers[1].num_experts, 2);
    assert_eq!(manifest.layers[1].expert_ids, vec![2, 3]);
}

#[test]
fn files_are_read_back_as_they_are_written() {
    let model = synthetic();
    let x = plan_extraction(&model.tensors).ok().unwrap();
    let first = x.plan.manifest.first_entry().unwrap();
    let dtype = ExpertDtype::from_manifest_str(&first.dtype);
    assert_eq!(dtype.expert_byte_size(D_FF, D_MODEL) as u64, first.byte_size);
    let file = &x.plan.files[3];
    assert_eq!(file.gate.byte_len, dtype.proj_byte_size(D_FF, D_MODEL));
    assert_eq!(file.up.byte_len, dtype.proj_byte_size(D_FF, D_MODEL));
    assert_eq!(file.down.byte_len, dtype.proj_byte_size(D_MODEL, D_FF));
    let name = format!("/out/experts/{}", file.file_name);
    let id = file.global_id;
    let storage = PreadStorage::new("/out".to_string(), x.plan.manifest);
    assert_eq!(storage.expert_path(id), name);
}

#[test]
fn fused_tensors_are_split() {
    let q8 = TensorType::Q8_0;
    let tensors = vec![
        info("blk.1.ffn_gate_exps.weight", &[3, 4, 32], q8, 1000),
        info("blk.1.ffn_up_exps.weight", &[3, 4, 32], q8, 2000),
        info("blk.1.ffn_down_exps.weight", &[3, 1, 128], q8, 3000),
    ];
    let x = plan_extraction(&tensors).ok().unwrap();
    assert_eq!(x.layout.num_layers, 2);
    assert_eq!(x.layout.num_experts_per_layer, 3);
    assert_eq!((x.layout.d_ff, x.layout.d_model), (4, 32));
    assert_eq!(x.num_experts, 3);
    assert_eq!(x.plan.files.len(), 3);
    for (i, f) in x.plan.files.iter().enumerate() {
        let at = i as u64 * 136;
        assert_eq!((f.layer_idx, f.local_id, f.global_id), (1, i, 3 + i as u32));
        assert_eq!(f.gate, TensorRead { offset: 1000 + at, byte_len: 136 });
        assert_eq!(f.up, TensorRead { offset: 2000 + at, byte_len: 136 });
        assert_eq!(f.down, TensorRead { offset: 3000 + at, byte_len: 136 });
    }
    let missing: Vec<Skipped> =
        (0..3).map(|expert| Skipped::Missing { layer: 0, expert }).collect();
    assert_eq!(x.plan.skipped, missing);
    assert_eq!(x.plan.manifest.layers[0].num_experts, 0);
    assert_eq!(x.plan.manifest.layers[1].expert_ids, vec![3, 4, 5]);
    assert_eq!(x.plan.manifest.lookup(4).unwrap().dtype, "Q8_0");
}

#[test]
fn unfused_matrices_beside_a_fused_one_are_shared() {
    let mut groups = ExpertGroups::new();
    let f32 = TensorType::F32;
    groups.insert(0, 0, ThreeProjs {
        gate: Some(meta(&[2, 3, 5], f32, 100)),
        up: Some(meta(&[3, 5], f32, 7)),
        down: None,
    });
    groups.insert(2, 4, ThreeProjs { gate: Some(meta(&[3, 5], f32, 9)), up: None, down: None });
    let split = expand_fused(&groups).unwrap();
    assert_eq!(split.len(), 3);
    let second = split.get(0, 1).unwrap();
    assert_eq!(second.gate.as_ref().unwrap().offset, 160);
    assert_eq!(second.gate.as_ref().unwrap().shape, vec![3, 5]);
    assert_eq!(second.up.as_ref().unwrap().offset, 7);
    assert!(second.down.is_none());
    assert_eq!(split.get(2, 4).unwrap().gate.as_ref().unwrap().offset, 9);
    assert!(split.get(0, 2).is_none());
}

#[test]
fn a_fused_tensor_comes_before_a_group_of_its_own() {
    let f32 = TensorType::F32;
    let tensors = vec![
        info("blk.0.ffn_gate_exps.weight", &[2, 2, 3], f32, 0),
        info("blk.0.ffn_up_exps.weight", &[2, 2, 3], f32, 100),
        info("blk.0.ffn_down_exps.weight", &[2, 3, 2], f32, 200),
        info("blk.0.ffn_gate.1.weight", &[2, 3], f32, 900),
    ];
    let x = plan_extraction(&tensors).ok().unwrap();
    assert!(x.plan.skipped.is_empty());
    assert_eq!(x.plan.files.len(), 2);
    assert_eq!(x.plan.files[1].gate, TensorRead { offset: 24, byte_len: 24 });
    assert_eq!(x.plan.files[1].down, TensorRead { offset: 224, byte_len: 24 });
}

#[test]
fn incomplete_experts_are_skipped() {
    let f32 = TensorType::F32;
    let tensors = vec![
        info("blk.0.ffn_gate.0.weight", &[2, 3], f32, 0),
        info("blk.0.ffn_up.0.weight", &[2, 3], f32, 24),
        info("blk.0.ffn_gate.1.weight", &[2, 3], f32, 48),
        info("blk.0.ffn_up.1.weight", &[2, 3], f32, 72),
        info("blk.0.ffn_down.1.weight", &[3, 2], f32, 96),
    ];
    let x = plan_extraction(&tensors).ok().unwrap();
    assert_eq!(x.plan.skipped, vec![Skipped::Incomplete { layer: 0, expert: 0 }]);
    assert_eq!(x.plan.files.len(), 1);
    assert_eq!(x.plan.manifest.layers[0].expert_ids, vec![1]);
    let e = x.plan.manifest.lookup(1).unwrap();
    assert_eq!((e.file.as_str(), e.byte_size), ("experts/layer_0_expert_1.bin", 72));
}

#[test]
fn errors_name_their_reason() {
    let f32 = TensorType::F32;
    let dense = vec![info("output.weight", &[2], f32, 0)];
    assert_eq!(plan_extraction(&dense).err(), Some(ExtractError::NoExperts));
    let no_gate = vec![info("blk.0.ffn_up.0.weight", &[2, 3], f32, 0)];
    assert_eq!(plan_extraction(&no_gate).err(), Some(ExtractError::MissingGate));
    let flat = vec![info("blk.0.ffn_gate.0.weight", &[], f32, 0)];
    assert_eq!(plan_extraction(&flat).err(), Some(ExtractError::EmptyShape));
    let far = vec![info(&format!("blk.{}.ffn_gate.0.weight", usize::MAX), &[2, 3], f32, 0)];
    assert_eq!(plan_extraction(&far).err(), Some(ExtractError::TooLarge));
    let huge = vec![
        info("blk.0.ffn_gate.0.weight", &[usize::MAX, 3], f32, 0),
        info("blk.0.ffn_up.0.weight", &[2, 3], f32, 0),
        info("blk.0.ffn_down.0.weight", &[3, 2], f32, 0),
    ];
    assert_eq!(plan_extraction(&huge).err(), Some(ExtractError::TooLarge));
    let off = vec![info("blk.0.ffn_gate_exps.weight", &[2, 2, 3], f32, u64::MAX)];
    assert_eq!(plan_extraction(&off).err(), Some(ExtractError::TooLarge));
}

#[test]
fn the_layout_is_that_of_the_first_expert() {
    let mut groups = ExpertGroups::new();
    assert_eq!(plan_layout(&groups, 3).err(), Some(ExtractError::NoExperts));
    let bf16 = TensorType::BF16;
    groups.insert(2, 1, ThreeProjs { gate: Some(meta(&[9], bf16, 0)), up: None, down: None });
    groups.insert(2, 5, ThreeProjs::none());
    groups.insert(3, 0, ThreeProjs::none());
    let layout = plan_layout(&groups, 3).unwrap();
    assert_eq!(layout, Layout {
        num_layers: 4,
        num_experts_per_layer: 2,
        d_model: 0,
        d_ff: 9,
        dtype: bf16,
    });
    let plan = plan_files(&groups, &layout).unwrap();
    assert!(plan.files.is_empty());
    assert_eq!(plan.skipped.len(), 8);
    assert!(plan.manifest.first_entry().is_none());
}

#[test]
fn groups_are_kept_in_order() {
    let mut groups = ExpertGroups::new();
    for (l, e) in [(3, 0), (1, 9), (1, 2), (0, 7)] {
        groups.insert(l, e, ThreeProjs::none());
    }
    let mut p = ThreeProjs::none();
    p.set(Projection::Down, meta(&[4], TensorType::F16, 11));
    groups.insert(1, 2, p.copy());
    let keys: Vec<(usize, usize)> =
        (0..groups.len()).map(|i| (groups.entry(i).layer, groups.entry(i).expert)).collect();
    assert_eq!(keys, vec![(0, 7), (1, 2), (1, 9), (3, 0)]);
    assert_eq!(groups.get(1, 2).unwrap().down.as_ref().unwrap().offset, 11);
    assert!(copy_meta(&groups.get(1, 9).unwrap().down).is_none());
    assert!(groups.get(1, 3).is_none());
}

#[test]
fn tensors_are_sorted_by_name() {
    let f32 = TensorType::F32;
    let tensors = vec![
        info("blk.4.ffn_up.1.weight", &[1, 2], f32, 5),
        info("norm.weight", &[1], f32, 6),
        info("blk.4.ffn_up.1.weight", &[1, 2], f32, 7),
    ];
    let c = classify_tensors(&tensors);
    assert_eq!(c.max_layer, 4);
    assert_eq!(c.dense, vec!["norm.weight"]);
    assert_eq!(c.groups.len(), 1);
    assert_eq!(c.groups.get(4, 1).unwrap().up.as_ref().unwrap().offset, 7);
}

#[test]
fn tensor_names() {
    assert_eq!(parse_expert_tensor("blk.3.ffn_gate.12.weight"), Some((3, 12, "gate")));
    assert_eq!(parse_expert_tensor("blk.3.ffn_up.0.weight"), Some((3, 0, "up")));
    assert_eq!(parse_expert_tensor("blk.0.ffn_down.7.weight"), Some((0, 7, "down")));
    assert_eq!(parse_expert_tensor("blk.5.ffn_gate_exps.weight"), Some((5, 0, "gate")));
    assert_eq!(parse_expert_tensor("blk.5.ffn_down_exps.weight"), Some((5, 0, "down")));
    assert_eq!(parse_expert_tensor("blk.5.ffn_gate_inp.weight"), None);
    assert_eq!(parse_expert_tensor("blk.x.ffn_gate.0.weight"), None);
    assert_eq!(parse_expert_tensor("blk.1.ffn_gate.0.bias"), None);
    assert_eq!(
        parse_expert_tensor("model.layers.7.block_sparse_moe.experts.2.w3.weight"),
        Some((7, 2, "up"))
    );
    assert_eq!(
        parse_expert_tensor("model.layers.0.mlp.experts.5.down_proj.weight"),
        Some((0, 5, "down"))
    );
    assert_eq!(parse_expert_tensor("model.layers.7.experts.2"), None);
    assert_eq!(parse_expert_tensor("model.layers.7.self_attn.q_proj.weight"), None);
    assert_eq!(
        parse_expert_tensor("transformer.h.9.moe.experts.4.gate_proj.weight"),
        Some((9, 4, "gate"))
    );
    assert_eq!(parse_expert_tensor("transformer.h.9.moe.experts.4.w2"), Some((9, 4, "down")));
    assert_eq!(parse_expert_tensor("transformer.h.9.attn.weight"), None);
    assert_eq!(parse_expert_tensor("transformer.h.9.moe.experts.4.w4.weight"), None);
    assert_eq!(
        parse_expert_tensor("model.layers.7.block_sparse_moe.experts.2.w4.weight"),
        None
    );
    assert_eq!(parse_expert_tensor("output.weight"), None);
    assert_eq!(parse_tensor_name("blk.1.ffn_up.2.weight"), Some((1, 2, Projection::Up)));
    assert_eq!(Projection::Down.text(), "down");
}

#[test]
fn projection_names() {
    assert_eq!(classify_proj("w1"), Some("gate"));
    assert_eq!(classify_proj("gate_proj"), Some("gate"));
    assert_eq!(classify_proj("w3"), Some("up"));
    assert_eq!(classify_proj("up_proj"), Some("up"));
    assert_eq!(classify_proj("w2"), Some("down"));
    assert_eq!(classify_proj("down_proj"), Some("down"));
    assert_eq!(classify_proj("w4"), None);
}

#[test]
fn router_gates() {
    assert!(is_router_gate("blk.0.ffn_gate_inp.weight"));
    assert!(is_router_gate("model.layers.0.block_sparse_moe.gate.weight"));
    assert!(is_router_gate("model.layers.0.mlp.gate.weight"));
    assert!(!is_router_gate("model.layers.0.mlp.experts.gate.weight"));
    assert!(!is_router_gate("blk.0.ffn_norm.weight"));
}

#[test]
fn type_names_are_those_of_the_file_format() {
    for (ours, theirs) in [
        (TensorType::F32, GgmlDType::F32),
        (TensorType::F16, GgmlDType::F16),
        (TensorType::BF16, GgmlDType::BF16),
        (TensorType::Q4_0, GgmlDType::Q4_0),
        (TensorType::Q4_1, GgmlDType::Q4_1),
        (TensorType::Q5_0, GgmlDType::Q5_0),
        (TensorType::Q5_1, GgmlDType::Q5_1),
        (TensorType::Q8_0, GgmlDType::Q8_0),
        (TensorType::Q8_1, GgmlDType::Q8_1),
        (TensorType::Q2K, GgmlDType::Q2K),
        (TensorType::Q3K, GgmlDType::Q3K),
        (TensorType::Q4K, GgmlDType::Q4K),
        (TensorType::Q5K, GgmlDType::Q5K),
        (TensorType::Q6K, GgmlDType::Q6K),
        (TensorType::Q8K, GgmlDType::Q8K),
    ] {
        assert_eq!(ours.name(), format!("{theirs:?}"));
        let len = raw_tensor_len(ours, theirs.block_size());
        assert_eq!(len, Some(theirs.type_size()));
    }
}

#[test]
fn tensor_sizes() {
    let expected = [
        (TensorType::F32, 1, 4, "F32"),
        (TensorType::F16, 1, 2, "F16"),
        (TensorType::BF16, 1, 2, "BF16"),
        (TensorType::Q4_0, 32, 18, "Q4_0"),
        (TensorType::Q4_1, 32, 20, "Q4_1"),
        (TensorType::Q5_0, 32, 22, "Q5_0"),
        (TensorType::Q5_1, 32, 24, "Q5_1"),
        (TensorType::Q8_0, 32, 34, "Q8_0"),
        (TensorType::Q8_1, 32, 36, "Q8_1"),
        (TensorType::Q2K, 256, 84, "Q2K"),
        (TensorType::Q3K, 256, 110, "Q3K"),
        (TensorType::Q4K, 256, 144, "Q4K"),
        (TensorType::Q5K, 256, 176, "Q5K"),
        (TensorType::Q6K, 256, 210, "Q6K"),
        (TensorType::Q8K, 256, 292, "Q8K"),
    ];
    for (dtype, block, bytes, name) in expected {
        assert_eq!(raw_tensor_len(dtype, 3 * block), Some(3 * bytes));
        assert_eq!(raw_tensor_len(dtype, block - 1), Some(0));
        assert_eq!(tensor_len(dtype, &[2, block]), Some(2 * bytes));
        assert_eq!(dtype.name(), name);
    }
    assert_eq!(element_count(&[]), Some(1));
    assert_eq!(element_count(&[3, 0, 5]), Some(0));
    assert_eq!(element_count(&[usize::MAX, 2]), None);
    assert_eq!(tensor_len(TensorType::F32, &[usize::MAX]), None);
}

use half::f16;
use ssd_moe::dequant::{
    dequant_q4_0, dequant_q4_k, dequant_q8_0, ExpertDtype, Scaled, ScaledK, Weights,
};

fn value(w: &Scaled) -> f32 {
    f16::from_bits(w.d).to_f32() * w.q as f32
}

fn value_k(w: &ScaledK) -> f32 {
    let scale = f16::from_bits(w.d).to_f32() * w.scale as f32 + f16::from_bits(w.dmin).to_f32();
    scale * w.q as f32
}

#[test]
fn q4_0_roundtrip() {
    let mut data = vec![0u8; 2 * 18];
    let d0 = f16::from_f32(2.0);
    data[0..2].copy_from_slice(&d0.to_le_bytes());
    for i in 0..16 {
        data[2 + i] = 0x98;
    }
    let d1 = f16::from_f32(1.0);
    data[18..20].copy_from_slice(&d1.to_le_bytes());
    for i in 0..16 {
        data[20 + i] = 0xFF;
    }

    let out = dequant_q4_0(&data, 1, 64);
    assert_eq!(out.len(), 64);
    for j in 0..32 {
        assert!((value(&out[j]) - if j % 2 == 0 { 0.0 } else { 2.0 }).abs() < 0.01);
    }
    for j in 32..64 {
        assert!((value(&out[j]) - 7.0).abs() < 0.01);
    }
}

#[test]
fn q8_0_roundtrip() {
    let mut data = vec![0u8; 34];
    for j in 0..32 {
        data[j] = (j as i8 - 16) as u8;
    }
    let d = f16::from_f32(0.5);
    data[32..34].copy_from_slice(&d.to_le_bytes());

    let out = dequant_q8_0(&data, 1, 32);
    assert_eq!(out.len(), 32);
    for j in 0..32 {
        let expected = 0.5 * (j as f32 - 16.0);
        assert!((value(&out[j]) - expected).abs() < 0.01, "mismatch at element {j}");
    }
}

#[test]
fn expert_dtype_sizes() {
    let dt32 = ExpertDtype::F32;
    let dt_q4 = ExpertDtype::Q4_0;
    let dt_q4k = ExpertDtype::Q4_K;
    let dt_q8 = ExpertDtype::Q8_0;

    let f32_sz = dt32.expert_byte_size(14336, 4096);
    let q4_sz = dt_q4.expert_byte_size(14336, 4096);
    let q4k_sz = dt_q4k.expert_byte_size(14336, 4096);
    let q8_sz = dt_q8.expert_byte_size(14336, 4096);

    assert_eq!(f32_sz, (14336 * 4096 + 14336 * 4096 + 4096 * 14336) * 4);
    assert_eq!(q4_sz, (14336 * 4096 + 14336 * 4096 + 4096 * 14336) * 18 / 32);
    assert_eq!(q4k_sz, (14336 * 4096 + 14336 * 4096 + 4096 * 14336) * 144 / 256);
    assert_eq!(q8_sz, (14336 * 4096 + 14336 * 4096 + 4096 * 14336) * 34 / 32);
}

#[test]
fn q4_k_roundtrip() {
    let mut data = vec![0u8; 144];
    let d = f16::from_f32(2.0);
    data[0..2].copy_from_slice(&d.to_le_bytes());
    data[2..4].copy_from_slice(&[0u8, 0]);
    for i in 0..12 {
        data[4 + i] = 0x41;
    }
    for i in 0..128 {
        data[16 + i] = 0x98;
    }

    let out = dequant_q4_k(&data, 1, 256);
    assert_eq!(out.len(), 256);
    for j in 0..256 {
        let expected = if j % 2 == 0 { 0.0 } else { 2.0 };
        assert!(
            (value_k(&out[j]) - expected).abs() < 0.01,
            "mismatch at {j}: got {}",
            value_k(&out[j])
        );
    }
}

#[test]
fn q4_0_elements_stand_row_by_row() {
    // Two rows of two blocks; block b has the scale bits b + 1.
    let mut data = vec![0u8; 4 * 18];
    for b in 0..4 {
        data[b * 18] = b as u8 + 1;
        data[b * 18 + 1] = 0x10;
        for i in 0..16 {
            data[b * 18 + 2 + i] = i as u8 | ((15 - i as u8) << 4);
        }
    }
    let out = dequant_q4_0(&data, 2, 64);
    for row in 0..2 {
        for col in 0..64 {
            let w = out[row * 64 + col];
            assert_eq!(w.d as usize, 0x1000 + row * 2 + col / 32 + 1);
            let i = (col % 32 / 2) as i8;
            assert_eq!(w.q, if col % 2 == 0 { i - 8 } else { 15 - i - 8 });
        }
    }
}

#[test]
fn q8_0_scale_follows_the_values() {
    let mut data = vec![0u8; 2 * 34];
    for b in 0..2 {
        for j in 0..32 {
            data[b * 34 + j] = (b * 128 + j) as u8;
        }
        data[b * 34 + 32] = 0xCD;
        data[b * 34 + 33] = b as u8;
    }
    let out = dequant_q8_0(&data, 2, 32);
    assert_eq!(out[0], Scaled { d: 0x00CD, q: 0 });
    assert_eq!(out[31], Scaled { d: 0x00CD, q: 31 });
    assert_eq!(out[32], Scaled { d: 0x01CD, q: -128 });
    assert_eq!(out[63], Scaled { d: 0x01CD, q: -97 });
}

#[test]
fn q4_k_sub_blocks_have_their_own_scale() {
    let mut data = vec![0u8; 144];
    data[0] = 0x34;
    data[1] = 0x12;
    data[2] = 0x78;
    data[3] = 0x56;
    for i in 0..12 {
        data[4 + i] = i as u8 | ((i as u8 % 4) << 6);
    }
    for i in 0..128 {
        data[16 + i] = (i % 16) as u8;
    }
    let out = dequant_q4_k(&data, 1, 256);
    assert_eq!(out[0], ScaledK { d: 0x1234, dmin: 0x5678, scale: 0, q: -8 });
    assert_eq!(out[2].q, 1 - 8);
    assert_eq!(out[1].q, -8);
    // Elements 48..64 are sub-block 3: the high bits of scale byte 1.
    assert_eq!(out[48].scale, 1);
    // Elements 96..112 are sub-block 6: the low bits of scale byte 3.
    assert_eq!(out[96].scale, 3);
    // Elements 112..128 are sub-block 7: the high bits of scale byte 3.
    assert_eq!(out[112].scale, 3);
    assert_eq!(out[30].q, 15 - 8);
    assert_eq!(out[32].q, -8);
}

#[test]
fn f32_bits_are_read_as_they_are() {
    let mut data: Vec<u8> = Vec::new();
    for v in [1.5f32, -2.25, 0.0, 3.0e8, f32::MIN_POSITIVE, -0.0] {
        data.extend_from_slice(&v.to_le_bytes());
    }
    match ExpertDtype::F32.dequant(&data, 2, 3) {
        Weights::F32(bits) => {
            let values: Vec<f32> = bits.iter().map(|&b| f32::from_bits(b)).collect();
            assert_eq!(values, vec![1.5f32, -2.25, 0.0, 3.0e8, f32::MIN_POSITIVE, -0.0]);
        }
        _ => panic!("expected plain values"),
    }
}

#[test]
fn each_type_is_decoded_by_its_own_layout() {
    assert!(matches!(ExpertDtype::Q4_0.dequant(&vec![0u8; 18], 1, 32), Weights::Scaled(_)));
    assert!(matches!(ExpertDtype::Q8_0.dequant(&vec![0u8; 34], 1, 32), Weights::Scaled(_)));
    assert!(matches!(ExpertDtype::Q4_K.dequant(&vec![0u8; 144], 1, 256), Weights::ScaledK(_)));
    match ExpertDtype::Q8_0.dequant(&vec![1u8; 34], 1, 32) {
        Weights::Scaled(w) => assert_eq!(w[5], Scaled { d: 0x0101, q: 1 }),
        _ => panic!("expected scaled values"),
    }
}

#[test]
fn dtype_names_in_any_case() {
    assert_eq!(ExpertDtype::from_manifest_str("Q4_0"), ExpertDtype::Q4_0);
    assert_eq!(ExpertDtype::from_manifest_str("q4_0"), ExpertDtype::Q4_0);
    assert_eq!(ExpertDtype::from_manifest_str("Q8_0"), ExpertDtype::Q8_0);
    assert_eq!(ExpertDtype::from_manifest_str("Q4_K"), ExpertDtype::Q4_K);
    assert_eq!(ExpertDtype::from_manifest_str("q4_k_M"), ExpertDtype::Q4_K);
    assert_eq!(ExpertDtype::from_manifest_str("Q4_K_S"), ExpertDtype::Q4_K);
    assert_eq!(ExpertDtype::from_manifest_str("F32"), ExpertDtype::F32);
    assert_eq!(ExpertDtype::from_manifest_str("anything"), ExpertDtype::F32);
    assert_eq!(ExpertDtype::from_manifest_str(""), ExpertDtype::F32);
}

#[test]
fn rows_take_whole_blocks_only() {
    assert_eq!(ExpertDtype::Q4_0.proj_byte_size(2, 63), 2 * 18);
    assert_eq!(ExpertDtype::Q8_0.proj_byte_size(3, 64), 3 * 2 * 34);
    assert_eq!(ExpertDtype::Q4_K.proj_byte_size(1, 255), 0);
    assert_eq!(ExpertDtype::F32.proj_byte_size(3, 5), 60);
}

#[test]
fn sizes_that_overflow_are_reported() {
    for t in [ExpertDtype::F32, ExpertDtype::Q4_0, ExpertDtype::Q4_K, ExpertDtype::Q8_0] {
        assert_eq!(t.checked_expert_size(512, 256), Some(t.expert_byte_size(512, 256)));
        assert_eq!(t.checked_expert_size(usize::MAX, usize::MAX), None);
        assert_eq!(t.checked_expert_size(usize::MAX / 4, 256), None);
        assert!(t.takes_whole_blocks(256));
    }
    assert!(ExpertDtype::F32.takes_whole_blocks(5));
    assert!(!ExpertDtype::Q4_0.takes_whole_blocks(5));
    assert!(!ExpertDtype::Q4_K.takes_whole_blocks(32));
}

#[test]
fn rows_are_decoded_one_after_another() {
    let bytes = |n: usize| -> Vec<u8> { (0..n).map(|i| (i * 7 + n) as u8).collect() };
    let (a, b) = (bytes(2 * 2 * 18), bytes(3 * 2 * 18));
    let mut joined = a.clone();
    joined.extend_from_slice(&b);
    let mut rows = dequant_q4_0(&a, 2, 64);
    rows.extend(dequant_q4_0(&b, 3, 64));
    assert_eq!(dequant_q4_0(&joined, 5, 64), rows);

    let (a, b) = (bytes(34), bytes(2 * 34));
    let mut joined = a.clone();
    joined.extend_from_slice(&b);
    let mut rows = dequant_q8_0(&a, 1, 32);
    rows.extend(dequant_q8_0(&b, 2, 32));
    assert_eq!(dequant_q8_0(&joined, 3, 32), rows);

    let (a, b) = (bytes(144), bytes(144));
    let mut joined = a.clone();
    joined.extend_from_slice(&b);
    let mut rows = dequant_q4_k(&a, 1, 256);
    rows.extend(dequant_q4_k(&b, 1, 256));
    assert_eq!(dequant_q4_k(&joined, 2, 256), rows);
}

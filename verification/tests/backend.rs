use ssd_moe::backend::{BackendError, Fetch, SsdMoeBackend};
use ssd_moe::buffer_pool::PooledBuffer;
use ssd_moe::config::SsdMoeConfig;
use ssd_moe::dequant::{Scaled, Weights};
use ssd_moe::manifest::{ExpertEntry, LayerInfo, Manifest};
use ssd_moe::storage::{default_file_name, PreadStorage};
use std::collections::BTreeMap;

const D_FF: usize = 1024;
const D_MODEL: usize = 2048;
const PROJ: usize = D_FF * D_MODEL * 18 / 32;

fn entry(id: u32, dtype: &str) -> ExpertEntry {
    ExpertEntry {
        layer_idx: 0,
        local_id: id as usize,
        file: format!("experts/layer_0_expert_{id}.bin"),
        dtype: dtype.to_string(),
        d_model: D_MODEL,
        d_ff: D_FF,
        byte_size: 3 * PROJ as u64,
    }
}

fn manifest(ids: &[u32]) -> Manifest {
    let mut expert_map = BTreeMap::new();
    for &id in ids {
        expert_map.insert(id, entry(id, "Q4_0"));
    }
    let layers =
        vec![LayerInfo { layer_idx: 0, num_experts: ids.len(), expert_ids: ids.to_vec() }];
    Manifest { num_layers: 1, num_experts_per_layer: ids.len(), layers, expert_map }
}

fn backend(slots: usize) -> SsdMoeBackend {
    SsdMoeBackend::new("/m".to_string(), manifest(&[0, 1, 2]), slots, D_MODEL, D_FF, 2)
        .ok()
        .unwrap()
}

fn want_read(b: &mut SsdMoeBackend, id: u32) -> (String, PooledBuffer) {
    match b.begin_fetch(id) {
        Ok(Fetch::Read { path, buffer }) => (path, buffer),
        _ => panic!("expected a read"),
    }
}

fn load(b: &mut SsdMoeBackend, id: u32) {
    let (_, mut buffer) = want_read(b, id);
    buffer.as_mut_slice()[0] = id as u8 + 100;
    let got = buffer.len();
    let r = b.finish_load(id, buffer, got).ok().unwrap();
    assert_eq!(r.id, id);
    b.retire(r);
}

fn resident(b: &mut SsdMoeBackend, id: u32) -> bool {
    match b.begin_fetch(id) {
        Ok(Fetch::Resident(r)) => {
            assert_eq!(r.id, id);
            assert_eq!(r.data()[0], id as u8 + 100);
            b.retire(r);
            true
        }
        Ok(Fetch::Read { buffer, .. }) => {
            b.abandon_load(buffer);
            false
        }
        Err(_) => false,
    }
}

#[test]
fn a_manifest_without_experts_is_refused() {
    let r = SsdMoeBackend::new("/m".to_string(), manifest(&[]), 1, D_MODEL, D_FF, 2);
    assert_eq!(r.err(), Some(BackendError::NoExperts));
}

#[test]
fn a_loaded_expert_is_a_hit() {
    let mut b = backend(2);
    let (path, mut buffer) = want_read(&mut b, 1);
    assert_eq!(path, "/m/experts/layer_0_expert_1.bin");
    assert_eq!(buffer.len(), 3 * PROJ);
    assert!(buffer.as_slice().iter().all(|&x| x == 0));
    buffer.as_mut_slice()[5] = 77;
    let first = b.finish_load(1, buffer, 3 * PROJ).ok().unwrap();
    assert_eq!(first.data()[5], 77);
    match b.begin_fetch(1) {
        Ok(Fetch::Resident(r)) => assert_eq!(r.data()[5], 77),
        _ => panic!("expected a hit"),
    }
    assert_eq!(b.cache().len(), 1);
    assert_eq!(b.cache().capacity(), 2);
    assert_eq!(b.manifest().expert_map.len(), 3);
}

#[test]
fn an_expert_that_no_manifest_lists_has_a_default_file() {
    let mut b = backend(1);
    let (path, buffer) = want_read(&mut b, 40);
    assert_eq!(path, "/m/expert_40.bin");
    b.abandon_load(buffer);
}

#[test]
fn a_miss_evicts_the_least_recently_used() {
    let mut b = backend(2);
    load(&mut b, 0);
    load(&mut b, 1);
    assert!(resident(&mut b, 0));
    load(&mut b, 2);
    assert!(b.cache().contains(0) && b.cache().contains(2) && !b.cache().contains(1));
    assert!(resident(&mut b, 0) && resident(&mut b, 2));
}

#[test]
fn pinned_experts_stay() {
    let mut b = backend(2);
    load(&mut b, 0);
    load(&mut b, 1);
    b.pin(0);
    load(&mut b, 2);
    assert!(resident(&mut b, 0) && !b.cache().contains(1));
    b.pin(2);
    assert_eq!(b.begin_fetch(1).err(), Some(BackendError::AllPinned));
    b.unpin(0);
    load(&mut b, 1);
    assert!(!b.cache().contains(0) && b.cache().contains(1) && b.cache().contains(2));
}

#[test]
fn an_evicted_expert_in_use_keeps_its_buffer() {
    let mut b = backend(1);
    let (_, buffer) = want_read(&mut b, 0);
    let held = b.finish_load(0, buffer, 3 * PROJ).ok().unwrap();
    assert_eq!(b.begin_fetch(1).err(), Some(BackendError::EvictedInUse));
    assert_eq!(b.cache().len(), 0);
    b.retire(held);
    load(&mut b, 1);
    assert!(resident(&mut b, 1));
}

#[test]
fn a_short_read_gives_the_buffer_back() {
    let mut b = backend(1);
    let (_, buffer) = want_read(&mut b, 0);
    assert_eq!(
        b.finish_load(0, buffer, 10).err(),
        Some(BackendError::ShortRead { expert_id: 0, got: 10, expected: 3 * PROJ })
    );
    assert_eq!(b.cache().len(), 0);
    load(&mut b, 0);
    assert!(resident(&mut b, 0));
}

#[test]
fn no_more_experts_are_used_than_configured() {
    let b = backend(1);
    assert_eq!(b.experts_for_token(1), 1);
    assert_eq!(b.experts_for_token(8), 2);
}

#[test]
fn the_three_matrices_follow_one_another() {
    let b = backend(1);
    let mut data = vec![0u8; 3 * PROJ];
    for (part, scale) in [(0, 3u8), (1, 5), (2, 7)] {
        data[part * PROJ] = scale;
        data[part * PROJ + 2] = 0x1F;
    }
    let (gate, up, down) = b.decode(&data);
    for (w, d) in [(gate, 3u16), (up, 5), (down, 7)] {
        match w {
            Weights::Scaled(w) => {
                assert_eq!(w.len(), D_FF * D_MODEL);
                assert_eq!(w[0], Scaled { d, q: 7 });
                assert_eq!(w[1], Scaled { d, q: -7 });
                assert_eq!(w[2], Scaled { d, q: -8 });
                assert_eq!(w[32], Scaled { d: 0, q: -8 });
            }
            _ => panic!("expected scaled values"),
        }
    }
}

#[test]
fn only_whole_disk_blocks_are_allocatable() {
    let m = manifest(&[0]);
    assert!(SsdMoeBackend::is_allocatable(&m, 1, D_MODEL, D_FF));
    assert!(!SsdMoeBackend::is_allocatable(&m, 0, D_MODEL, D_FF));
    assert!(!SsdMoeBackend::is_allocatable(&m, 1, 64, 32));
    assert!(!SsdMoeBackend::is_allocatable(&m, 1, 0, 0));
    assert!(!SsdMoeBackend::is_allocatable(&m, 1, usize::MAX, usize::MAX));
    assert!(SsdMoeBackend::is_allocatable(&manifest(&[]), 0, 1, 1));
}

#[test]
fn only_whole_experts_are_decodable() {
    let b = backend(1);
    assert!(b.can_decode(&vec![0u8; 3 * PROJ]));
    assert!(b.can_decode(&vec![0u8; 3 * PROJ + 1]));
    assert!(!b.can_decode(&vec![0u8; 3 * PROJ - 1]));
    assert!(!b.can_decode(&[]));
}

#[test]
fn storage_paths() {
    let mut s = PreadStorage::new("base".to_string(), manifest(&[2]));
    assert_eq!(s.expert_path(2), "base/experts/layer_0_expert_2.bin");
    assert_eq!(s.expert_path(4294967295), "base/expert_4294967295.bin");
    assert_eq!(default_file_name(0), "expert_0.bin");
    assert!(s.direct_io());
    s.set_direct_io(false);
    assert!(!s.direct_io());
    assert_eq!(s.manifest().num_experts_per_layer, 1);
    let slashed = PreadStorage::new("base/".to_string(), manifest(&[2]));
    assert_eq!(slashed.expert_path(2), "base/experts/layer_0_expert_2.bin");
    let here = PreadStorage::new(String::new(), manifest(&[]));
    assert_eq!(here.expert_path(3), "expert_3.bin");
}

#[test]
fn short_reads_are_those_below_the_expert_size() {
    let s = PreadStorage::new("base".to_string(), manifest(&[2]));
    let size = 3 * PROJ;
    assert_eq!(s.short_read(size, size), None);
    assert_eq!(s.short_read(size, size - 1), Some(size));
    assert_eq!(s.short_read(100, 99), Some(100));
    assert_eq!(s.short_read(size + 5, size), None);
    let none = PreadStorage::new("base".to_string(), manifest(&[]));
    assert_eq!(none.short_read(100, 0), None);
}

#[test]
fn the_first_entry_has_the_lowest_id() {
    let mut m = manifest(&[9, 4, 7]);
    m.expert_map.insert(5, entry(5, "Q8_0"));
    assert_eq!(m.first_entry().unwrap().local_id, 4);
    assert_eq!(m.lookup(5).unwrap().dtype, "Q8_0");
    assert!(m.lookup(6).is_none());
}

#[test]
fn config_builders() {
    let c = SsdMoeConfig::new("/experts".to_string());
    assert_eq!(c.expert_dir, "/experts");
    assert_eq!((c.cache_slots, c.prefetch_fanout, c.locality_enabled), (256, 0, false));
    let c = c.with_cache_slots(8).with_prefetch(3).with_locality(true);
    assert_eq!((c.cache_slots, c.prefetch_fanout, c.locality_enabled), (8, 3, true));
    assert_eq!(c.expert_dir, "/experts");
}

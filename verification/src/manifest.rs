//! Metadata about the expert files of a model.

use std::collections::BTreeMap;
use vstd::prelude::*;

verus! {

pub struct Manifest {
    pub num_layers: usize,
    pub num_experts_per_layer: usize,
    pub layers: Vec<LayerInfo>,
    /// The experts by global id.
    pub expert_map: BTreeMap<u32, ExpertEntry>,
}

pub struct LayerInfo {
    pub layer_idx: usize,
    pub num_experts: usize,
    pub expert_ids: Vec<u32>,
}

#[derive(Clone)]
pub struct ExpertEntry {
    pub layer_idx: usize,
    pub local_id: usize,
    pub file: String,
    pub dtype: String,
    pub d_model: usize,
    pub d_ff: usize,
    pub byte_size: u64,
}

/// The mathematical counterpart of [`LayerInfo`].
pub struct LayerView {
    pub layer_idx: usize,
    pub num_experts: usize,
    pub expert_ids: Seq<u32>,
}

/// The mathematical counterpart of [`ExpertEntry`].
pub struct EntryView {
    pub layer_idx: usize,
    pub local_id: usize,
    pub file: Seq<char>,
    pub dtype: Seq<char>,
    pub d_model: usize,
    pub d_ff: usize,
    pub byte_size: u64,
}

impl View for LayerInfo {
    type V = LayerView;

    open spec fn view(&self) -> LayerView {
        LayerView {
            layer_idx: self.layer_idx,
            num_experts: self.num_experts,
            expert_ids: self.expert_ids@,
        }
    }
}

impl View for ExpertEntry {
    type V = EntryView;

    open spec fn view(&self) -> EntryView {
        EntryView {
            layer_idx: self.layer_idx,
            local_id: self.local_id,
            file: self.file@,
            dtype: self.dtype@,
            d_model: self.d_model,
            d_ff: self.d_ff,
            byte_size: self.byte_size,
        }
    }
}

/// `id` is the lowest key of `map`.
pub open spec fn is_lowest(map: Map<u32, ExpertEntry>, id: u32) -> bool {
    map.contains_key(id) && forall|k: u32| map.contains_key(k) ==> id <= k
}

/// The entry with the lowest id.
pub open spec fn lowest_entry(map: Map<u32, ExpertEntry>) -> Option<ExpertEntry> {
    if exists|id: u32| is_lowest(map, id) {
        Some(map[choose|id: u32| is_lowest(map, id)])
    } else {
        None
    }
}

impl Manifest {
    /// Look up an expert by global id.
    pub fn lookup(&self, global_id: u32) -> (r: Option<&ExpertEntry>)
        ensures
            r == if self.expert_map@.contains_key(global_id) {
                Some(&self.expert_map@[global_id])
            } else {
                None
            },
    {
        self.expert_map.get(&global_id)
    }

    /// The entry with the lowest id, if there is any entry.
    pub fn first_entry(&self) -> (r: Option<&ExpertEntry>)
        ensures
            match lowest_entry(self.expert_map@) {
                Some(e) => r matches Some(x) && *x == e,
                None => r is None,
            },
            r is None <==> self.expert_map@ == Map::<u32, ExpertEntry>::empty(),
    {
        let ghost map = self.expert_map@;
        for kv in it: self.expert_map.iter()
            invariant
                map == self.expert_map@,
                it.index() == 0,
                it.seq() == vstd::std_specs::iter::IteratorSpec::remaining(
                    &vstd::std_specs::btree::spec_btree_map_iter(&self.expert_map),
                ),
                vstd::std_specs::btree::increasing_seq(
                    it.seq().map_values(|kv: (&u32, &ExpertEntry)| *kv.0),
                ),
        {
            proof {
                let pairs = it.seq();
                let keys = pairs.map_values(|kv: (&u32, &ExpertEntry)| *kv.0);
                vstd::std_specs::btree::axiom_increasing_seq_meaning(keys);
                assert(map.contains_key(*pairs[0].0));
                assert forall|k: u32| map.contains_key(k) implies *pairs[0].0 <= k by {
                    assert(pairs.contains((&k, &map[k])));
                    let i = choose|i: int| 0 <= i < pairs.len() && pairs[i] == (&k, &map[k]);
                    assert(keys[i] == k);
                    assert(keys[0] == *pairs[0].0);
                    if 0 < i {
                        assert(vstd::std_specs::cmp::OrdSpec::cmp_spec(&keys[0], &keys[i]) is Less);
                    }
                }
                assert(is_lowest(map, *pairs[0].0));
            }
            return Some(kv.1);
        }
        assert forall|k: u32| !map.contains_key(k) by {}
        assert(map =~= Map::<u32, ExpertEntry>::empty());
        None
    }
}

/// The first entry is that of the lowest id; without any entry there is none.
pub proof fn law_lowest_entry(map: Map<u32, ExpertEntry>, id: u32)
    ensures
        map.contains_key(id) && (forall|k: u32| #[trigger] map.contains_key(k) ==> id <= k)
            ==> lowest_entry(map) == Some(map[id]),
        (forall|k: u32| !#[trigger] map.contains_key(k)) ==> lowest_entry(map) is None,
{
    if map.contains_key(id) && (forall|k: u32| #[trigger] map.contains_key(k) ==> id <= k) {
        assert(is_lowest(map, id));
        let other = choose|other: u32| is_lowest(map, other);
        assert(is_lowest(map, other));
        assert(map.contains_key(other));
    }
}

/// What a record says is what it holds.
pub proof fn law_records(e: ExpertEntry, l: LayerInfo)
    ensures
        e@.layer_idx == e.layer_idx,
        e@.local_id == e.local_id,
        e@.file == e.file@,
        e@.dtype == e.dtype@,
        e@.d_model == e.d_model,
        e@.d_ff == e.d_ff,
        e@.byte_size == e.byte_size,
        l@.layer_idx == l.layer_idx,
        l@.num_experts == l.num_experts,
        l@.expert_ids == l.expert_ids@,
{
}

} // verus!

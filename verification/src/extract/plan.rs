//! What to write for a model: one file per expert, and the manifest.

use crate::dequant::ExpertDtype;
use crate::extract::fused::{expand_fused, tensor_len};
use crate::extract::ggml::TensorType;
use crate::extract::groups::{classify_tensors, Classified, ExpertGroups, Meta, ProjMeta, Projs,
    TensorInfo};
use crate::extract::names::Projection;
use crate::manifest::{ExpertEntry, LayerInfo, Manifest};
use crate::text::push_decimal;
use std::collections::BTreeMap;
use vstd::prelude::*;
use vstd::string::*;

verus! {

/// Why a model cannot be split.
#[derive(Clone, Copy, Debug, PartialEq, Eq, Structural)]
pub enum ExtractError {
    /// No expert tensors were found: not a mixture-of-experts model.
    NoExperts,
    /// The first expert has no gate projection.
    MissingGate,
    /// The first expert's gate projection has no dimensions.
    EmptyShape,
    /// A size, position or count does not fit the machine's integers.
    TooLarge,
}

// ── Model dimensions ─────────────────────────────────────────────────────────

/// The dimensions of a mixture-of-experts model.
#[derive(Clone, Copy, Debug, PartialEq, Eq, Structural)]
pub struct Layout {
    pub num_layers: usize,
    pub num_experts_per_layer: usize,
    pub d_model: usize,
    pub d_ff: usize,
    pub dtype: TensorType,
}

pub open spec fn in_layer(layer: usize) -> spec_fn((usize, usize)) -> bool {
    |k: (usize, usize)| k.0 == layer
}

/// The number of experts that a layer has.
pub open spec fn experts_in(g: ExpertGroups, layer: usize) -> nat {
    g.keys().filter(in_layer(layer)).len()
}

/// The dimensions are those of the first expert's gate projection, the number of
/// experts is that of the first layer.
pub open spec fn layout_of(g: ExpertGroups, max_layer: usize) -> Result<Layout, ExtractError> {
    if max_layer == usize::MAX {
        Err(ExtractError::TooLarge)
    } else if g.list().len() == 0 {
        Err(ExtractError::NoExperts)
    } else {
        let first = g.list()[0];
        let per_layer = experts_in(g, first.layer);
        match first.projs@.gate {
            None => Err(ExtractError::MissingGate),
            Some(m) => if m.shape.len() == 0 {
                Err(ExtractError::EmptyShape)
            } else if (max_layer + 1) * per_layer > usize::MAX {
                Err(ExtractError::TooLarge)
            } else {
                Ok(
                    Layout {
                        num_layers: (max_layer + 1) as usize,
                        num_experts_per_layer: per_layer as usize,
                        d_model: if m.shape.len() > 1 {
                            m.shape[1]
                        } else {
                            0
                        },
                        d_ff: m.shape[0],
                        dtype: m.dtype,
                    },
                )
            },
        }
    }
}

fn count_experts(g: &ExpertGroups, layer: usize) -> (n: usize)
    ensures
        n == experts_in(*g, layer),
{
    let mut n: usize = 0;
    let mut i: usize = 0;
    let ghost keys = g.keys();
    proof {
        reveal(Seq::filter);
        assert(keys.take(0) =~= Seq::empty());
    }
    while i < g.len()
        invariant
            keys == g.keys(),
            i <= g.list().len(),
            n <= i,
            n == keys.take(i as int).filter(in_layer(layer)).len(),
        decreases g.list().len() - i,
    {
        proof {
            reveal(Seq::filter);
            assert(keys.take(i + 1).drop_last() =~= keys.take(i as int));
            assert(keys.take(i + 1).last() == g.list()[i as int].key());
        }
        if g.entry(i).layer == layer {
            n = n + 1;
        }
        i = i + 1;
    }
    assert(keys.take(keys.len() as int) =~= keys);
    n
}

/// The dimensions of the model with the expert groups `g`.
pub fn plan_layout(g: &ExpertGroups, max_layer: usize) -> (r: Result<Layout, ExtractError>)
    ensures
        r == layout_of(*g, max_layer),
{
    if max_layer == usize::MAX {
        return Err(ExtractError::TooLarge);
    }
    if g.len() == 0 {
        return Err(ExtractError::NoExperts);
    }
    let first = g.entry(0);
    let per_layer = count_experts(g, first.layer);
    match &first.projs.gate {
        None => Err(ExtractError::MissingGate),
        Some(m) => {
            if m.shape.len() == 0 {
                return Err(ExtractError::EmptyShape);
            }
            let num_layers: usize = max_layer + 1;
            if num_layers.checked_mul(per_layer).is_none() {
                return Err(ExtractError::TooLarge);
            }
            Ok(
                Layout {
                    num_layers,
                    num_experts_per_layer: per_layer,
                    d_model: if m.shape.len() > 1 {
                        m.shape[1]
                    } else {
                        0
                    },
                    d_ff: m.shape[0],
                    dtype: m.dtype,
                },
            )
        },
    }
}

// ── Files ────────────────────────────────────────────────────────────────────

/// A stretch of the model's tensor data.
#[derive(Clone, Copy, Debug, PartialEq, Eq, Structural)]
pub struct TensorRead {
    pub offset: u64,
    pub byte_len: usize,
}

/// One expert's file: its gate, up and down matrices one after the other.
pub struct ExpertFile {
    pub layer_idx: usize,
    pub local_id: usize,
    pub global_id: u32,
    pub file_name: String,
    pub gate: TensorRead,
    pub up: TensorRead,
    pub down: TensorRead,
}

/// The mathematical counterpart of [`ExpertFile`].
pub struct FileView {
    pub layer_idx: usize,
    pub local_id: usize,
    pub global_id: u32,
    pub file_name: Seq<char>,
    pub gate: TensorRead,
    pub up: TensorRead,
    pub down: TensorRead,
}

impl View for ExpertFile {
    type V = FileView;

    open spec fn view(&self) -> FileView {
        FileView {
            layer_idx: self.layer_idx,
            local_id: self.local_id,
            global_id: self.global_id,
            file_name: self.file_name@,
            gate: self.gate,
            up: self.up,
            down: self.down,
        }
    }
}

/// An expert for which no file can be written.
#[derive(Clone, Copy, Debug, PartialEq, Eq, Structural)]
pub enum Skipped {
    /// No tensor of the expert was found.
    Missing { layer: usize, expert: usize },
    /// Some of its matrices were not found.
    Incomplete { layer: usize, expert: usize },
}

/// The files of a model and their manifest.
pub struct FilePlan {
    /// In the order in which they are written.
    pub files: Vec<ExpertFile>,
    pub skipped: Vec<Skipped>,
    pub manifest: Manifest,
}

/// `layer_{L}_expert_{E}.bin`.
pub open spec fn file_name(layer: usize, expert: usize) -> Seq<char> {
    "layer_"@ + crate::text::decimal(layer as nat) + "_expert_"@ + crate::text::decimal(
        expert as nat,
    ) + ".bin"@
}

/// The id of an expert among all experts of the model.
pub open spec fn global_id(layout: Layout, layer: int, expert: int) -> u32 {
    (layer * layout.num_experts_per_layer + expert) as u32
}

pub open spec fn read_of(m: Meta) -> TensorRead {
    TensorRead {
        offset: m.offset,
        byte_len: crate::extract::fused::data_bytes(
            m.dtype,
            crate::extract::fused::elements(m.shape),
        ) as usize,
    }
}

pub open spec fn complete(p: Projs) -> bool {
    p.gate is Some && p.up is Some && p.down is Some
}

/// The bytes of an expert's file.
pub open spec fn file_bytes(p: Projs) -> int {
    read_of(p.gate->0).byte_len + read_of(p.up->0).byte_len + read_of(p.down->0).byte_len
}

pub open spec fn readable(m: Meta) -> bool {
    crate::extract::fused::size_fits(m.dtype, m.shape)
}

/// The sizes of an expert's file can be computed without overflow.
pub open spec fn file_fits(p: Projs) -> bool {
    readable(p.gate->0) && readable(p.up->0) && readable(p.down->0) && file_bytes(p) <= u64::MAX
}

/// The file of an expert with the matrices `p`.
pub open spec fn file_of(layout: Layout, layer: int, expert: int, p: Projs) -> FileView {
    FileView {
        layer_idx: layer as usize,
        local_id: expert as usize,
        global_id: global_id(layout, layer, expert),
        file_name: file_name(layer as usize, expert as usize),
        gate: read_of(p.gate->0),
        up: read_of(p.up->0),
        down: read_of(p.down->0),
    }
}

/// The manifest entry of an expert with the matrices `p`.
pub open spec fn entry_of(
    layout: Layout,
    layer: int,
    expert: int,
    p: Projs,
) -> crate::manifest::EntryView {
    crate::manifest::EntryView {
        layer_idx: layer as usize,
        local_id: expert as usize,
        file: "experts/"@ + file_name(layer as usize, expert as usize),
        dtype: layout.dtype.spec_name(),
        d_model: layout.d_model,
        d_ff: layout.d_ff,
        byte_size: file_bytes(p) as u64,
    }
}

/// What is planned so far.
pub struct Planned {
    pub files: Seq<FileView>,
    pub skipped: Seq<Skipped>,
    pub entries: Map<u32, crate::manifest::EntryView>,
}

/// The plan extended by one expert.
pub open spec fn plan_one(
    before: Planned,
    g: ExpertGroups,
    layout: Layout,
    layer: int,
    expert: int,
) -> Planned {
    match g.at(layer as usize, expert as usize) {
        None => Planned {
            skipped: before.skipped.push(
                Skipped::Missing { layer: layer as usize, expert: expert as usize },
            ),
            ..before
        },
        Some(p) => if !complete(p) {
            Planned {
                skipped: before.skipped.push(
                    Skipped::Incomplete { layer: layer as usize, expert: expert as usize },
                ),
                ..before
            }
        } else {
            Planned {
                files: before.files.push(file_of(layout, layer, expert, p)),
                entries: before.entries.insert(
                    global_id(layout, layer, expert),
                    entry_of(layout, layer, expert, p),
                ),
                ..before
            }
        },
    }
}

/// The plan for all experts before `(layer, expert)`, layer by layer.
pub open spec fn planned(g: ExpertGroups, layout: Layout, layer: nat, expert: nat) -> Planned
    decreases layer, expert,
{
    if expert > 0 {
        plan_one(
            planned(g, layout, layer, (expert - 1) as nat),
            g,
            layout,
            layer as int,
            expert - 1,
        )
    } else if layer > 0 {
        planned(g, layout, (layer - 1) as nat, layout.num_experts_per_layer as nat)
    } else {
        Planned { files: Seq::empty(), skipped: Seq::empty(), entries: Map::empty() }
    }
}

/// Whether an expert gets a file.
pub open spec fn has_file(g: ExpertGroups, layer: int, expert: int) -> bool {
    g.at(layer as usize, expert as usize) matches Some(p) && complete(p)
}

/// The ids of a layer's experts that get a file, below `expert`.
pub open spec fn layer_ids(g: ExpertGroups, layout: Layout, layer: int, expert: nat) -> Seq<u32>
    decreases expert,
{
    if expert == 0 {
        Seq::empty()
    } else {
        let before = layer_ids(g, layout, layer, (expert - 1) as nat);
        if has_file(g, layer, expert - 1) {
            before.push(global_id(layout, layer, expert - 1))
        } else {
            before
        }
    }
}

/// The manifest's record of a layer.
pub open spec fn layer_of(
    g: ExpertGroups,
    layout: Layout,
    layer: int,
) -> crate::manifest::LayerView {
    let ids = layer_ids(g, layout, layer, layout.num_experts_per_layer as nat);
    crate::manifest::LayerView {
        layer_idx: layer as usize,
        num_experts: ids.len() as usize,
        expert_ids: ids,
    }
}

/// The sizes of all files can be computed without overflow.
pub open spec fn files_fit(g: ExpertGroups, layout: Layout) -> bool {
    forall|l: usize, e: usize|
        l < layout.num_layers && e < layout.num_experts_per_layer && (#[trigger] g.at(
            l,
            e,
        ) matches Some(p) && complete(p)) ==> file_fits(g.at(l, e)->0)
}

/// `plan` holds the files and the manifest for the groups `g`.
pub open spec fn is_file_plan(plan: FilePlan, g: ExpertGroups, layout: Layout) -> bool {
    let all = planned(g, layout, layout.num_layers as nat, 0);
    &&& plan.files@.map_values(|f: ExpertFile| f@) == all.files
    &&& plan.skipped@ == all.skipped
    &&& plan.manifest.num_layers == layout.num_layers
    &&& plan.manifest.num_experts_per_layer == layout.num_experts_per_layer
    &&& plan.manifest.layers@.map_values(|l: LayerInfo| l@) == Seq::new(
        layout.num_layers as nat,
        |l: int| layer_of(g, layout, l),
    )
    &&& plan.manifest.expert_map@.map_values(|e: ExpertEntry| e@) == all.entries
}

fn name_of(layer: usize, expert: usize) -> (s: String)
    ensures
        s@ == file_name(layer, expert),
{
    let mut s: String = String::new();
    s.append("layer_");
    push_decimal(&mut s, layer as u64);
    s.append("_expert_");
    push_decimal(&mut s, expert as u64);
    s.append(".bin");
    assert(s@ =~= file_name(layer, expert));
    s
}

fn read(m: &ProjMeta) -> (r: Option<TensorRead>)
    ensures
        r == if readable(m@) {
            Some(read_of(m@))
        } else {
            None
        },
{
    match tensor_len(m.dtype, m.shape.as_slice()) {
        Some(byte_len) => Some(TensorRead { offset: m.offset, byte_len }),
        None => None,
    }
}

/// The three reads of a complete expert and their total, unless one overflows.
fn reads(gate: &ProjMeta, up: &ProjMeta, down: &ProjMeta) -> (r: Option<
    (TensorRead, TensorRead, TensorRead, u64),
>)
    ensures
        ({
            let p = Projs { gate: Some(gate@), up: Some(up@), down: Some(down@) };
            r == if file_fits(p) {
                Some((read_of(gate@), read_of(up@), read_of(down@), file_bytes(p) as u64))
            } else {
                None
            }
        }),
{
    match (read(gate), read(up), read(down)) {
        (Some(a), Some(b), Some(c)) => match (a.byte_len as u64).checked_add(b.byte_len as u64) {
            Some(ab) => match ab.checked_add(c.byte_len as u64) {
                Some(total) => Some((a, b, c, total)),
                None => None,
            },
            None => None,
        },
        _ => None,
    }
}

/// Plan the files and the manifest for the expert groups `g`. `None` if a size
/// overflows.
pub fn plan_files(g: &ExpertGroups, layout: &Layout) -> (r: Option<FilePlan>)
    requires
        g.wf(),
        layout.num_layers * layout.num_experts_per_layer <= usize::MAX,
    ensures
        r is Some <==> files_fit(*g, *layout),
        r matches Some(plan) ==> is_file_plan(plan, *g, *layout),
{
    let per_layer: usize = layout.num_experts_per_layer;
    let mut files: Vec<ExpertFile> = Vec::new();
    let mut skipped: Vec<Skipped> = Vec::new();
    let mut layers: Vec<LayerInfo> = Vec::new();
    let mut expert_map: BTreeMap<u32, ExpertEntry> = BTreeMap::new();
    let mut layer: usize = 0;
    assert(files@.map_values(|f: ExpertFile| f@) =~= Seq::<FileView>::empty());
    assert(expert_map@.map_values(|e: ExpertEntry| e@) =~= Map::empty());
    while layer < layout.num_layers
        invariant
            g.wf(),
            per_layer == layout.num_experts_per_layer,
            layout.num_layers * per_layer <= usize::MAX,
            layer <= layout.num_layers,
            layers@.len() == layer,
            forall|l: int| 0 <= l < layer ==> (#[trigger] layers@[l])@ == layer_of(*g, *layout, l),
            files@.map_values(|f: ExpertFile| f@) == planned(*g, *layout, layer as nat, 0).files,
            skipped@ == planned(*g, *layout, layer as nat, 0).skipped,
            expert_map@.map_values(|e: ExpertEntry| e@) == planned(
                *g,
                *layout,
                layer as nat,
                0,
            ).entries,
            forall|l: usize, e: usize|
                l < layer && e < per_layer && (#[trigger] g.at(l, e) matches Some(p) && complete(p))
                    ==> file_fits(g.at(l, e)->0),
        decreases layout.num_layers - layer,
    {
        let mut ids: Vec<u32> = Vec::new();
        let mut expert: usize = 0;
        proof {
            assert((layer + 1) * per_layer <= layout.num_layers * per_layer) by (nonlinear_arith)
                requires layer + 1 <= layout.num_layers, per_layer >= 0;
            assert((layer + 1) * per_layer == layer * per_layer + per_layer) by (nonlinear_arith);
        }
        while expert < per_layer
            invariant
                g.wf(),
                per_layer == layout.num_experts_per_layer,
                layer * per_layer + per_layer <= usize::MAX,
                0 <= layer * per_layer,
                layer < layout.num_layers,
                expert <= per_layer,
                ids@ == layer_ids(*g, *layout, layer as int, expert as nat),
                files@.map_values(|f: ExpertFile| f@) == planned(
                    *g,
                    *layout,
                    layer as nat,
                    expert as nat,
                ).files,
                skipped@ == planned(*g, *layout, layer as nat, expert as nat).skipped,
                expert_map@.map_values(|e: ExpertEntry| e@) == planned(
                    *g,
                    *layout,
                    layer as nat,
                    expert as nat,
                ).entries,
                forall|l: usize, e: usize|
                    (l < layer && e < per_layer || l == layer && e < expert) && (#[trigger] g.at(
                        l,
                        e,
                    ) matches Some(p) && complete(p)) ==> file_fits(g.at(l, e)->0),
            decreases per_layer - expert,
        {
            let ghost before = planned(*g, *layout, layer as nat, expert as nat);
            let ghost after = planned(*g, *layout, layer as nat, expert as nat + 1);
            assert(after == plan_one(before, *g, *layout, layer as int, expert as int));
            match g.get(layer, expert) {
                None => {
                    skipped.push(Skipped::Missing { layer, expert });
                },
                Some(projs) => match (&projs.gate, &projs.up, &projs.down) {
                    (Some(gate), Some(up), Some(down)) => {
                        let ghost p = projs@;
                        assert(p == Projs { gate: Some(gate@), up: Some(up@), down: Some(down@) });
                        let (a, b, c, total) = match reads(gate, up, down) {
                            Some(t) => t,
                            None => {
                                assert(!file_fits(g.at(layer, expert)->0));
                                return None;
                            },
                        };
                        let id: u32 = (layer * per_layer + expert) as u32;
                        let name = name_of(layer, expert);
                        let mut file: String = String::new();
                        file.append("experts/");
                        file.append(name.as_str());
                        let mut dtype: String = String::new();
                        dtype.append(layout.dtype.name());
                        let entry = ExpertEntry {
                            layer_idx: layer,
                            local_id: expert,
                            file,
                            dtype,
                            d_model: layout.d_model,
                            d_ff: layout.d_ff,
                            byte_size: total,
                        };
                        let planned_file = ExpertFile {
                            layer_idx: layer,
                            local_id: expert,
                            global_id: id,
                            file_name: name,
                            gate: a,
                            up: b,
                            down: c,
                        };
                        proof {
                            assert(entry@.file =~= entry_of(*layout, layer as int, expert as int, p).file);
                            assert(entry@.dtype =~= layout.dtype.spec_name());
                            assert(entry@ == entry_of(*layout, layer as int, expert as int, p));
                            assert(planned_file@ == file_of(*layout, layer as int, expert as int, p));
                        }
                        let ghost old_files = files@;
                        let ghost old_map = expert_map@;
                        files.push(planned_file);
                        ids.push(id);
                        expert_map.insert(id, entry);
                        proof {
                            assert(files@.map_values(|f: ExpertFile| f@) =~= old_files.map_values(
                                |f: ExpertFile| f@,
                            ).push(planned_file@));
                            assert(expert_map@.map_values(|e: ExpertEntry| e@) =~= old_map.map_values(
                                |e: ExpertEntry| e@,
                            ).insert(id, entry@));
                        }
                    },
                    _ => {
                        skipped.push(Skipped::Incomplete { layer, expert });
                    },
                },
            }
            expert = expert + 1;
        }
        let info = LayerInfo { layer_idx: layer, num_experts: ids.len(), expert_ids: ids };
        assert(info@ == layer_of(*g, *layout, layer as int));
        layers.push(info);
        assert(planned(*g, *layout, (layer + 1) as nat, 0) == planned(
            *g,
            *layout,
            layer as nat,
            per_layer as nat,
        ));
        layer = layer + 1;
    }
    assert(layers@.map_values(|l: LayerInfo| l@) =~= Seq::new(
        layout.num_layers as nat,
        |l: int| layer_of(*g, *layout, l),
    ));
    Some(
        FilePlan {
            files,
            skipped,
            manifest: Manifest {
                num_layers: layout.num_layers,
                num_experts_per_layer: per_layer,
                layers,
                expert_map,
            },
        },
    )
}

// ── The whole extraction ─────────────────────────────────────────────────────

/// All that is to be written for a model.
pub struct ExtractionPlan {
    pub layout: Layout,
    /// The tensors that belong to no expert.
    pub dense: Vec<String>,
    /// How many experts were found, in all layers.
    pub num_experts: usize,
    pub plan: FilePlan,
}

/// `groups` holds the expert tensors among `ts`.
pub open spec fn groups_of(groups: ExpertGroups, ts: Seq<TensorInfo>) -> bool {
    groups.wf() && forall|l: usize, e: usize| #[trigger]
        groups.at(l, e) == crate::extract::groups::grouped(ts, l, e)
}

/// `g` holds the experts of `groups` with every fused tensor split.
pub open spec fn split_of(g: ExpertGroups, groups: ExpertGroups) -> bool {
    g.wf() && forall|l: usize, e: usize| #[trigger]
        g.at(l, e) == crate::extract::fused::expansion(groups.list(), l, e)
}

/// `r` is the outcome for the tensors `ts` whose split experts are `g`.
pub open spec fn outcome_of(
    r: Result<ExtractionPlan, ExtractError>,
    ts: Seq<TensorInfo>,
    g: ExpertGroups,
) -> bool {
    match layout_of(g, crate::extract::groups::highest_layer(ts)) {
        Err(e) => r == Err::<ExtractionPlan, ExtractError>(e),
        Ok(layout) => if !files_fit(g, layout) {
            r == Err::<ExtractionPlan, ExtractError>(ExtractError::TooLarge)
        } else {
            &&& r matches Ok(x)
            &&& x.layout == layout
            &&& x.num_experts == g.list().len()
            &&& x.dense@.map_values(|s: String| s@) == crate::extract::groups::dense_names(ts)
            &&& is_file_plan(x.plan, g, layout)
        },
    }
}

/// `r` is the outcome for the tensors `ts`: they are grouped by expert, the
/// fused ones are split, and the files are planned.
pub open spec fn extraction_of(
    r: Result<ExtractionPlan, ExtractError>,
    ts: Seq<TensorInfo>,
) -> bool {
    exists|groups: ExpertGroups|
        {
            &&& #[trigger] groups_of(groups, ts)
            &&& if crate::extract::fused::expansion_fits(groups.list()) {
                exists|g: ExpertGroups| #[trigger] split_of(g, groups) && outcome_of(r, ts, g)
            } else {
                r == Err::<ExtractionPlan, ExtractError>(ExtractError::TooLarge)
            }
        }
}

/// Plan the extraction of a model with the given tensors.
pub fn plan_extraction(tensors: &Vec<TensorInfo>) -> (r: Result<ExtractionPlan, ExtractError>)
    ensures
        extraction_of(r, tensors@),
{
    let Classified { groups, dense, max_layer } = classify_tensors(tensors);
    assert(groups_of(groups, tensors@));
    let g = match expand_fused(&groups) {
        Some(g) => g,
        None => {
            return Err(ExtractError::TooLarge);
        },
    };
    assert(split_of(g, groups));
    let layout = match plan_layout(&g, max_layer) {
        Ok(layout) => layout,
        Err(e) => {
            assert(outcome_of(Err(e), tensors@, g));
            return Err(e);
        },
    };
    let num_experts = g.len();
    let r = match plan_files(&g, &layout) {
        Some(plan) => Ok(ExtractionPlan { layout, dense, num_experts, plan }),
        None => Err(ExtractError::TooLarge),
    };
    assert(outcome_of(r, tensors@, g));
    r
}

// ── Laws ─────────────────────────────────────────────────────────────────────

/// As long as all ids fit in 32 bits, different experts have different ids.
pub proof fn law_ids_distinct(layout: Layout, l1: int, e1: int, l2: int, e2: int)
    requires
        layout.num_layers * layout.num_experts_per_layer <= u32::MAX + 1,
        0 <= l1 < layout.num_layers,
        0 <= l2 < layout.num_layers,
        0 <= e1 < layout.num_experts_per_layer,
        0 <= e2 < layout.num_experts_per_layer,
        (l1, e1) != (l2, e2),
    ensures
        global_id(layout, l1, e1) != global_id(layout, l2, e2),
{
    let per = layout.num_experts_per_layer as int;
    let n = layout.num_layers as int;
    assert(0 <= l1 * per + e1 < n * per && 0 <= l2 * per + e2 < n * per) by (nonlinear_arith)
        requires
            0 <= l1 < n,
            0 <= l2 < n,
            0 <= e1 < per,
            0 <= e2 < per,
    ;
    assert(l1 * per + e1 != l2 * per + e2) by (nonlinear_arith)
        requires
            0 <= e1 < per,
            0 <= e2 < per,
            l1 != l2 || e1 != e2,
    ;
}

/// The expert comes before `(layer, expert)` in the order of the plan.
pub open spec fn comes_before(l: int, e: int, layer: nat, expert: nat, per_layer: usize) -> bool {
    0 <= l && 0 <= e < per_layer && (l < layer || (l == layer && e < expert))
}

proof fn lemma_planned_entries(g: ExpertGroups, layout: Layout, layer: nat, expert: nat)
    requires
        layout.num_layers * layout.num_experts_per_layer <= u32::MAX + 1,
        layer < layout.num_layers && expert <= layout.num_experts_per_layer || layer
            == layout.num_layers && expert == 0,
    ensures
        forall|l: int, e: int| #[trigger]
            comes_before(l, e, layer, expert, layout.num_experts_per_layer) && has_file(g, l, e)
                ==> planned(g, layout, layer, expert).entries.contains_key(global_id(layout, l, e))
                && planned(g, layout, layer, expert).entries[global_id(layout, l, e)] == entry_of(
                layout,
                l,
                e,
                g.at(l as usize, e as usize)->0,
            ),
        forall|id: u32| #[trigger]
            planned(g, layout, layer, expert).entries.contains_key(id) ==> exists|l: int, e: int|
                #[trigger]
                comes_before(l, e, layer, expert, layout.num_experts_per_layer) && has_file(g, l, e)
                    && id == global_id(layout, l, e),
    decreases layer, expert,
{
    let per = layout.num_experts_per_layer;
    let now = planned(g, layout, layer, expert).entries;
    if expert > 0 {
        let prev = (expert - 1) as nat;
        lemma_planned_entries(g, layout, layer, prev);
        let before = planned(g, layout, layer, prev).entries;
        assert forall|l: int, e: int| #[trigger]
            comes_before(l, e, layer, expert, per) && has_file(g, l, e) implies now.contains_key(
            global_id(layout, l, e),
        ) && now[global_id(layout, l, e)] == entry_of(layout, l, e, g.at(l as usize, e as usize)->0) by {
            if (l, e) != (layer as int, prev as int) {
                assert(comes_before(l, e, layer, prev, per));
                law_ids_distinct(layout, l, e, layer as int, prev as int);
            }
        }
        assert forall|id: u32| #[trigger] now.contains_key(id) implies exists|l: int, e: int|
            #[trigger]
            comes_before(l, e, layer, expert, per) && has_file(g, l, e) && id == global_id(
                layout,
                l,
                e,
            ) by {
            if before.contains_key(id) {
                let (l, e) = choose|l: int, e: int| #[trigger]
                    comes_before(l, e, layer, prev, per) && has_file(g, l, e) && id == global_id(
                        layout,
                        l,
                        e,
                    );
                assert(comes_before(l, e, layer, expert, per));
            } else {
                assert(comes_before(layer as int, prev as int, layer, expert, per));
            }
        }
    } else if layer > 0 {
        let prev = (layer - 1) as nat;
        lemma_planned_entries(g, layout, prev, per as nat);
        assert forall|l: int, e: int| comes_before(l, e, layer, expert, per) == #[trigger] comes_before(
            l,
            e,
            prev,
            per as nat,
            per,
        ) by {}
        assert forall|l: int, e: int| #[trigger]
            comes_before(l, e, layer, expert, per) && has_file(g, l, e) implies now.contains_key(
            global_id(layout, l, e),
        ) && now[global_id(layout, l, e)] == entry_of(layout, l, e, g.at(l as usize, e as usize)->0) by {
            assert(comes_before(l, e, prev, per as nat, per));
        }
        assert forall|id: u32| #[trigger] now.contains_key(id) implies exists|l: int, e: int|
            #[trigger]
            comes_before(l, e, layer, expert, per) && has_file(g, l, e) && id == global_id(
                layout,
                l,
                e,
            ) by {
            assert(planned(g, layout, prev, per as nat).entries.contains_key(id));
            let (l, e) = choose|l: int, e: int| #[trigger]
                comes_before(l, e, prev, per as nat, per) && has_file(g, l, e) && id == global_id(
                    layout,
                    l,
                    e,
                );
            assert(comes_before(l, e, layer, expert, per));
        }
    }
}

/// As long as all ids fit in 32 bits, the manifest lists exactly the experts that
/// get a file, each under its own id: looking an expert up by its id gives its
/// layer, its place in the layer, and the file that is written for it.
pub proof fn law_manifest_lists_files(plan: FilePlan, g: ExpertGroups, layout: Layout)
    requires
        is_file_plan(plan, g, layout),
        layout.num_layers * layout.num_experts_per_layer <= u32::MAX + 1,
    ensures
        forall|l: int, e: int|
            0 <= l < layout.num_layers && 0 <= e < layout.num_experts_per_layer && #[trigger] has_file(
                g,
                l,
                e,
            ) ==> {
                let id = global_id(layout, l, e);
                &&& plan.manifest.expert_map@.contains_key(id)
                &&& plan.manifest.expert_map@[id]@ == entry_of(
                    layout,
                    l,
                    e,
                    g.at(l as usize, e as usize)->0,
                )
            },
        forall|id: u32| #[trigger]
            plan.manifest.expert_map@.contains_key(id) ==> exists|l: int, e: int|
                0 <= l < layout.num_layers && 0 <= e < layout.num_experts_per_layer
                    && #[trigger] has_file(g, l, e) && id == global_id(layout, l, e),
{
    lemma_planned_entries(g, layout, layout.num_layers as nat, 0);
    let all = planned(g, layout, layout.num_layers as nat, 0).entries;
    let map = plan.manifest.expert_map@;
    assert(map.map_values(|e: ExpertEntry| e@) == all);
    assert forall|l: int, e: int|
        0 <= l < layout.num_layers && 0 <= e < layout.num_experts_per_layer && #[trigger] has_file(
            g,
            l,
            e,
        ) implies {
        let id = global_id(layout, l, e);
        &&& map.contains_key(id)
        &&& map[id]@ == entry_of(layout, l, e, g.at(l as usize, e as usize)->0)
    } by {
        assert(comes_before(
            l,
            e,
            layout.num_layers as nat,
            0,
            layout.num_experts_per_layer,
        ));
        assert(all.contains_key(global_id(layout, l, e)));
    }
    assert forall|id: u32| #[trigger] map.contains_key(id) implies exists|l: int, e: int|
        0 <= l < layout.num_layers && 0 <= e < layout.num_experts_per_layer && #[trigger] has_file(
            g,
            l,
            e,
        ) && id == global_id(layout, l, e) by {
        assert(all.contains_key(id));
        let (l, e) = choose|l: int, e: int| #[trigger]
            comes_before(l, e, layout.num_layers as nat, 0, layout.num_experts_per_layer)
                && has_file(g, l, e) && id == global_id(layout, l, e);
        assert(has_file(g, l, e));
    }
}

/// A matrix of the given shape and type.
pub open spec fn matrix(m: Option<Meta>, dtype: TensorType, rows: usize, cols: usize) -> bool {
    m matches Some(x) && x.dtype == dtype && x.shape == seq![rows, cols]
}

/// What is written for an expert is what is read back: the file of an expert
/// with whole blocks holds its gate, up and down matrices in the sizes in which
/// they are decoded, by the type that the manifest names.
///
/// The other types are left out: the decoder knows none of their names. That
/// holds for `Q4K` too, which is what a manifest says of 4-bit K-quantized
/// experts: the decoder knows `Q4_K` and takes `Q4K` for `F32`.
pub proof fn law_file_is_decodable(dtype: TensorType, p: Projs, d_ff: usize, d_model: usize)
    requires
        dtype == TensorType::F32 || dtype == TensorType::Q4_0 || dtype == TensorType::Q8_0,
        matrix(p.gate, dtype, d_ff, d_model),
        matrix(p.up, dtype, d_ff, d_model),
        matrix(p.down, dtype, d_model, d_ff),
        dtype == TensorType::F32 || (d_ff as int % 32 == 0 && d_model as int % 32 == 0),
        file_fits(p),
    ensures
        ({
            let t = ExpertDtype::named(dtype.spec_name());
            let (ff, model) = (d_ff as int, d_model as int);
            &&& t.whole_blocks(ff) && t.whole_blocks(model)
            &&& read_of(p.gate->0).byte_len == t.proj_bytes(ff, model)
            &&& read_of(p.up->0).byte_len == t.proj_bytes(ff, model)
            &&& read_of(p.down->0).byte_len == t.proj_bytes(model, ff)
            &&& file_bytes(p) == t.expert_bytes(ff, model)
        }),
{
    lemma_named(dtype);
    lemma_matrix_bytes(dtype, d_ff, d_model);
    lemma_matrix_bytes(dtype, d_model, d_ff);
}

/// The type names that the manifest and the decoder share.
proof fn lemma_named(dtype: TensorType)
    ensures
        dtype == TensorType::F32 ==> ExpertDtype::named(dtype.spec_name()) == ExpertDtype::F32,
        dtype == TensorType::Q4_0 ==> ExpertDtype::named(dtype.spec_name()) == ExpertDtype::Q4_0,
        dtype == TensorType::Q8_0 ==> ExpertDtype::named(dtype.spec_name()) == ExpertDtype::Q8_0,
{
    reveal_strlit("F32");
    reveal_strlit("Q4_0");
    reveal_strlit("Q8_0");
    reveal_strlit("Q4_K");
    reveal_strlit("Q4_K_M");
    reveal_strlit("Q4_K_S");
    assert(crate::dequant::upper("F32"@) =~= "F32"@);
    assert(crate::dequant::upper("Q4_0"@) =~= "Q4_0"@);
    assert(crate::dequant::upper("Q8_0"@) =~= "Q8_0"@);
    assert("F32"@.len() == 3);
    assert("Q4_0"@[3] == '0' && "Q4_K"@[3] == 'K' && "Q4_0"@.len() == 4 && "Q4_K_M"@.len() == 6
        && "Q4_K_S"@.len() == 6 && "Q4_K"@.len() == 4);
    assert("Q8_0"@[1] == '8' && "Q4_0"@[1] == '4' && "Q4_K"@[1] == '4' && "Q8_0"@.len() == 4);
}

proof fn lemma_matrix_bytes(dtype: TensorType, rows: usize, cols: usize)
    requires
        dtype == TensorType::F32 || ((dtype == TensorType::Q4_0 || dtype == TensorType::Q8_0)
            && cols as int % 32 == 0),
    ensures
        ({
            let n = crate::extract::fused::data_bytes(
                dtype,
                crate::extract::fused::elements(seq![rows, cols]),
            );
            &&& dtype == TensorType::F32 ==> n == ExpertDtype::F32.proj_bytes(
                rows as int,
                cols as int,
            )
            &&& dtype == TensorType::Q4_0 ==> n == ExpertDtype::Q4_0.proj_bytes(
                rows as int,
                cols as int,
            )
            &&& dtype == TensorType::Q8_0 ==> n == ExpertDtype::Q8_0.proj_bytes(
                rows as int,
                cols as int,
            )
        }),
{
    let shape = seq![rows, cols];
    let (r, c) = (rows as int, cols as int);
    assert(shape.drop_last() =~= seq![rows]);
    assert(shape.drop_last().drop_last() =~= Seq::<usize>::empty());
    reveal_with_fuel(crate::extract::fused::elements, 3);
    assert(crate::extract::fused::elements(shape) == r * c) by (nonlinear_arith)
        requires
            crate::extract::fused::elements(shape) == 1 * r * c,
    ;
    if dtype != TensorType::F32 {
        let q = c / 32;
        assert(c == 32 * q);
        assert(r * c == (r * q) * 32) by (nonlinear_arith)
            requires
                c == 32 * q,
        ;
        assert((r * c) / 32 == r * q);
    }
}

/// Where an expert's file is written is where it is looked up: the path that
/// the manifest gives for it, below the directory of the model, is that of the
/// file in the directory `experts`.
pub proof fn law_written_where_looked_up(
    dir: Seq<char>,
    layout: Layout,
    layer: int,
    expert: int,
    p: Projs,
)
    ensures
        crate::text::joined(dir, entry_of(layout, layer, expert, p).file) == crate::text::joined(
            crate::text::joined(dir, "experts"@),
            file_of(layout, layer, expert, p).file_name,
        ),
{
    reveal_strlit("experts");
    reveal_strlit("experts/");
    reveal_strlit("layer_");
    reveal_strlit("/");
    let name = file_name(layer as usize, expert as usize);
    assert(name[0] == 'l');
    let file = "experts/"@ + name;
    assert(file[0] == 'e');
    let inner = crate::text::joined(dir, "experts"@);
    assert(inner.last() == 's');
    assert(!crate::text::starts(name, "/"@)) by {
        assert("/"@[0] == '/');
    }
    assert(!crate::text::starts(file, "/"@)) by {
        assert("/"@[0] == '/');
    }
    assert(!crate::text::starts("experts"@, "/"@)) by {
        assert("/"@[0] == '/');
    }
    assert(!crate::text::ends(inner, "/"@)) by {
        assert("/"@[0] == '/');
    }
    assert("experts/"@ =~= "experts"@ + "/"@);
    assert(crate::text::joined(dir, file) =~= crate::text::joined(inner, name));
}

/// The plans say the same.
pub open spec fn same_plan(a: FilePlan, b: FilePlan) -> bool {
    &&& a.files@.map_values(|f: ExpertFile| f@) == b.files@.map_values(|f: ExpertFile| f@)
    &&& a.skipped@ == b.skipped@
    &&& a.manifest.num_layers == b.manifest.num_layers
    &&& a.manifest.num_experts_per_layer == b.manifest.num_experts_per_layer
    &&& a.manifest.layers@.map_values(|l: LayerInfo| l@) == b.manifest.layers@.map_values(
        |l: LayerInfo| l@,
    )
    &&& a.manifest.expert_map@.map_values(|e: ExpertEntry| e@)
        == b.manifest.expert_map@.map_values(|e: ExpertEntry| e@)
}

/// The outcomes say the same.
pub open spec fn same_outcome(
    a: Result<ExtractionPlan, ExtractError>,
    b: Result<ExtractionPlan, ExtractError>,
) -> bool {
    match (a, b) {
        (Ok(x), Ok(y)) => {
            &&& x.layout == y.layout
            &&& x.num_experts == y.num_experts
            &&& x.dense@.map_values(|s: String| s@) == y.dense@.map_values(|s: String| s@)
            &&& same_plan(x.plan, y.plan)
        },
        (Err(x), Err(y)) => x == y,
        _ => false,
    }
}

/// The tensors determine the outcome.
pub proof fn law_extraction_determined(
    a: Result<ExtractionPlan, ExtractError>,
    b: Result<ExtractionPlan, ExtractError>,
    ts: Seq<TensorInfo>,
)
    requires
        extraction_of(a, ts),
        extraction_of(b, ts),
    ensures
        same_outcome(a, b),
{
    let x = choose|groups: ExpertGroups|
        {
            &&& #[trigger] groups_of(groups, ts)
            &&& if crate::extract::fused::expansion_fits(groups.list()) {
                exists|g: ExpertGroups| #[trigger] split_of(g, groups) && outcome_of(a, ts, g)
            } else {
                a == Err::<ExtractionPlan, ExtractError>(ExtractError::TooLarge)
            }
        };
    let y = choose|groups: ExpertGroups|
        {
            &&& #[trigger] groups_of(groups, ts)
            &&& if crate::extract::fused::expansion_fits(groups.list()) {
                exists|g: ExpertGroups| #[trigger] split_of(g, groups) && outcome_of(b, ts, g)
            } else {
                b == Err::<ExtractionPlan, ExtractError>(ExtractError::TooLarge)
            }
        };
    assert forall|l: usize, e: usize| #[trigger] x.at(l, e) == y.at(l, e) by {
        assert(x.at(l, e) == crate::extract::groups::grouped(ts, l, e));
        assert(y.at(l, e) == crate::extract::groups::grouped(ts, l, e));
    }
    crate::extract::groups::law_groups_determined(x, y);
    crate::extract::fused::lemma_expansion_same(x.list(), y.list());
    if crate::extract::fused::expansion_fits(x.list()) {
        let g = choose|g: ExpertGroups| #[trigger] split_of(g, x) && outcome_of(a, ts, g);
        let h = choose|h: ExpertGroups| #[trigger] split_of(h, y) && outcome_of(b, ts, h);
        assert forall|l: usize, e: usize| #[trigger] g.at(l, e) == h.at(l, e) by {
            assert(g.at(l, e) == crate::extract::fused::expansion(x.list(), l, e));
            assert(h.at(l, e) == crate::extract::fused::expansion(y.list(), l, e));
        }
        lemma_outcome_same(a, b, ts, g, h);
    }
}

proof fn lemma_outcome_same(
    a: Result<ExtractionPlan, ExtractError>,
    b: Result<ExtractionPlan, ExtractError>,
    ts: Seq<TensorInfo>,
    g: ExpertGroups,
    h: ExpertGroups,
)
    requires
        g.wf(),
        h.wf(),
        forall|l: usize, e: usize| #[trigger] g.at(l, e) == h.at(l, e),
        outcome_of(a, ts, g),
        outcome_of(b, ts, h),
    ensures
        same_outcome(a, b),
{
    crate::extract::groups::law_groups_determined(g, h);
    let max_layer = crate::extract::groups::highest_layer(ts);
    if g.list().len() > 0 {
        assert(g.list()[0].key() == h.list()[0].key());
    }
    assert(layout_of(g, max_layer) == layout_of(h, max_layer));
    if let Ok(layout) = layout_of(g, max_layer) {
        assert(files_fit(g, layout) == files_fit(h, layout)) by {
            if files_fit(g, layout) {
                assert forall|l: usize, e: usize|
                    l < layout.num_layers && e < layout.num_experts_per_layer && (
                    #[trigger] h.at(l, e) matches Some(p) && complete(p)) implies file_fits(
                    h.at(l, e)->0,
                ) by {
                    assert(g.at(l, e) == h.at(l, e));
                }
            }
            if files_fit(h, layout) {
                assert forall|l: usize, e: usize|
                    l < layout.num_layers && e < layout.num_experts_per_layer && (
                    #[trigger] g.at(l, e) matches Some(p) && complete(p)) implies file_fits(
                    g.at(l, e)->0,
                ) by {
                    assert(g.at(l, e) == h.at(l, e));
                }
            }
        }
        if files_fit(g, layout) {
            lemma_planned_same(g, h, layout, layout.num_layers as nat, 0);
            assert forall|l: int| 0 <= l < layout.num_layers implies layer_of(g, layout, l)
                == #[trigger] layer_of(h, layout, l) by {
                lemma_layer_same(g, h, layout, l, layout.num_experts_per_layer as nat);
            }
            assert(Seq::new(layout.num_layers as nat, |l: int| layer_of(g, layout, l))
                =~= Seq::new(layout.num_layers as nat, |l: int| layer_of(h, layout, l)));
        }
    }
}

proof fn lemma_planned_same(
    g: ExpertGroups,
    h: ExpertGroups,
    layout: Layout,
    layer: nat,
    expert: nat,
)
    requires
        forall|l: usize, e: usize| #[trigger] g.at(l, e) == h.at(l, e),
    ensures
        planned(g, layout, layer, expert) == planned(h, layout, layer, expert),
    decreases layer, expert,
{
    if expert > 0 {
        lemma_planned_same(g, h, layout, layer, (expert - 1) as nat);
        assert(g.at(layer as usize, (expert - 1) as usize) == h.at(
            layer as usize,
            (expert - 1) as usize,
        ));
    } else if layer > 0 {
        lemma_planned_same(
            g,
            h,
            layout,
            (layer - 1) as nat,
            layout.num_experts_per_layer as nat,
        );
    }
}

proof fn lemma_layer_same(
    g: ExpertGroups,
    h: ExpertGroups,
    layout: Layout,
    layer: int,
    expert: nat,
)
    requires
        forall|l: usize, e: usize| #[trigger] g.at(l, e) == h.at(l, e),
    ensures
        layer_ids(g, layout, layer, expert) == layer_ids(h, layout, layer, expert),
    decreases expert,
{
    if expert > 0 {
        lemma_layer_same(g, h, layout, layer, (expert - 1) as nat);
        assert(g.at(layer as usize, (expert - 1) as usize) == h.at(
            layer as usize,
            (expert - 1) as usize,
        ));
    }
}

// ── What a plan holds ────────────────────────────────────────────────────────

/// `files` holds one for the expert.
spec fn file_listed(files: Seq<FileView>, l: int, e: int) -> bool {
    exists|i: int|
        0 <= i < files.len() && (#[trigger] files[i]).layer_idx == l && files[i].local_id == e
}

/// One expert stands before another.
spec fn earlier(l1: usize, e1: usize, l2: usize, e2: usize) -> bool {
    l1 < l2 || l1 == l2 && e1 < e2
}

/// `f` is the file of an expert before `(layer, expert)`.
spec fn file_right(f: FileView, g: ExpertGroups, layout: Layout, layer: nat, expert: nat) -> bool {
    let (l, e) = (f.layer_idx as int, f.local_id as int);
    &&& comes_before(l, e, layer, expert, layout.num_experts_per_layer)
    &&& has_file(g, l, e)
    &&& f == file_of(layout, l, e, g.at(l as usize, e as usize)->0)
}

proof fn lemma_planned_files(g: ExpertGroups, layout: Layout, layer: nat, expert: nat)
    requires
        layer < layout.num_layers && expert <= layout.num_experts_per_layer || layer
            == layout.num_layers && expert == 0,
    ensures
        ({
            let files = planned(g, layout, layer, expert).files;
            &&& forall|i: int|
                0 <= i < files.len() ==> file_right(
                    #[trigger] files[i],
                    g,
                    layout,
                    layer,
                    expert,
                )
            &&& forall|i: int, j: int|
                0 <= i < j < files.len() ==> earlier(
                    (#[trigger] files[i]).layer_idx,
                    files[i].local_id,
                    (#[trigger] files[j]).layer_idx,
                    files[j].local_id,
                )
            &&& forall|l: int, e: int|
                comes_before(l, e, layer, expert, layout.num_experts_per_layer) && has_file(g, l, e)
                    ==> #[trigger] file_listed(files, l, e)
        }),
    decreases layer, expert,
{
    let per = layout.num_experts_per_layer;
    let now = planned(g, layout, layer, expert).files;
    if expert > 0 {
        let prev = (expert - 1) as nat;
        lemma_planned_files(g, layout, layer, prev);
        let before = planned(g, layout, layer, prev).files;
        assert forall|i: int| 0 <= i < now.len() implies file_right(
            #[trigger] now[i],
            g,
            layout,
            layer,
            expert,
        ) by {
            if i < before.len() {
                assert(now[i] == before[i]);
                assert(file_right(before[i], g, layout, layer, prev));
            }
        }
        assert forall|i: int, j: int| 0 <= i < j < now.len() implies earlier(
            (#[trigger] now[i]).layer_idx,
            now[i].local_id,
            (#[trigger] now[j]).layer_idx,
            now[j].local_id,
        ) by {
            assert(now[i] == before[i]);
            assert(file_right(before[i], g, layout, layer, prev));
            if j < before.len() {
                assert(now[j] == before[j]);
            }
        }
        assert forall|l: int, e: int|
            comes_before(l, e, layer, expert, per) && has_file(g, l, e) implies #[trigger] file_listed(
            now,
            l,
            e,
        ) by {
            if (l, e) == (layer as int, prev as int) {
                assert(now[before.len() as int].layer_idx == l);
            } else {
                assert(file_listed(before, l, e));
                let i = choose|i: int|
                    0 <= i < before.len() && (#[trigger] before[i]).layer_idx == l
                        && before[i].local_id == e;
                assert(now[i] == before[i]);
            }
        }
    } else if layer > 0 {
        let prev = (layer - 1) as nat;
        lemma_planned_files(g, layout, prev, per as nat);
        assert(planned(g, layout, layer, 0) == planned(g, layout, prev, per as nat));
        assert(now == planned(g, layout, prev, per as nat).files);
        assert forall|i: int| 0 <= i < now.len() implies file_right(
            #[trigger] now[i],
            g,
            layout,
            layer,
            expert,
        ) by {
            assert(file_right(now[i], g, layout, prev, per as nat));
        }
        assert forall|l: int, e: int|
            comes_before(l, e, layer, expert, per) && has_file(g, l, e) implies #[trigger] file_listed(
            now,
            l,
            e,
        ) by {
            assert(comes_before(l, e, prev, per as nat, per));
        }
    }
}

/// Every expert whose three matrices were found gets a file, the `i`-th: it
/// bears the expert's layer and number, and reads each matrix from its position
/// in the length that its type and shape give it.
pub proof fn law_file_written(
    plan: FilePlan,
    g: ExpertGroups,
    layout: Layout,
    l: usize,
    e: usize,
) -> (i: int)
    requires
        is_file_plan(plan, g, layout),
        files_fit(g, layout),
        l < layout.num_layers,
        e < layout.num_experts_per_layer,
        g.at(l, e) is Some,
        g.at(l, e)->0.gate is Some,
        g.at(l, e)->0.up is Some,
        g.at(l, e)->0.down is Some,
    ensures
        0 <= i < plan.files@.len(),
        ({
            let f = plan.files@[i];
            let p = g.at(l, e)->0;
            let id = l * layout.num_experts_per_layer + e;
            &&& f.layer_idx == l
            &&& f.local_id == e
            &&& id <= usize::MAX ==> f.global_id == id % 0x1_0000_0000
            &&& f.file_name@ == "layer_"@ + crate::text::decimal(l as nat) + "_expert_"@
                + crate::text::decimal(e as nat) + ".bin"@
            &&& f.gate.offset == p.gate->0.offset
            &&& f.up.offset == p.up->0.offset
            &&& f.down.offset == p.down->0.offset
            &&& f.gate.byte_len == crate::extract::fused::data_bytes(
                p.gate->0.dtype,
                crate::extract::fused::elements(p.gate->0.shape),
            )
            &&& f.up.byte_len == crate::extract::fused::data_bytes(
                p.up->0.dtype,
                crate::extract::fused::elements(p.up->0.shape),
            )
            &&& f.down.byte_len == crate::extract::fused::data_bytes(
                p.down->0.dtype,
                crate::extract::fused::elements(p.down->0.shape),
            )
        }),
{
    let n = layout.num_layers as nat;
    lemma_planned_files(g, layout, n, 0);
    let files = planned(g, layout, n, 0).files;
    let views = plan.files@.map_values(|f: ExpertFile| f@);
    assert(comes_before(l as int, e as int, n, 0, layout.num_experts_per_layer));
    assert(has_file(g, l as int, e as int));
    assert(file_listed(files, l as int, e as int));
    let i = choose|i: int|
        0 <= i < files.len() && (#[trigger] files[i]).layer_idx == l && files[i].local_id == e;
    assert(file_right(files[i], g, layout, n, 0));
    assert(views[i] == plan.files@[i]@);
    assert(file_fits(g.at(l, e)->0));
    let id = l * layout.num_experts_per_layer + e;
    assert(id >= 0) by (nonlinear_arith)
        requires
            id == l * layout.num_experts_per_layer + e,
    ;
    if id <= usize::MAX {
        let n = id as u64;
        assert(n as u32 == n % 0x1_0000_0000) by (bit_vector);
    }
    i
}

/// A file is planned only for an expert of the model whose three matrices were
/// found.
pub proof fn law_file_has_expert(plan: FilePlan, g: ExpertGroups, layout: Layout, i: int)
    requires
        is_file_plan(plan, g, layout),
        0 <= i < plan.files@.len(),
    ensures
        ({
            let f = plan.files@[i];
            &&& f.layer_idx < layout.num_layers
            &&& f.local_id < layout.num_experts_per_layer
            &&& g.at(f.layer_idx, f.local_id) matches Some(p)
            &&& p.gate is Some && p.up is Some && p.down is Some
        }),
{
    let n = layout.num_layers as nat;
    lemma_planned_files(g, layout, n, 0);
    let views = plan.files@.map_values(|f: ExpertFile| f@);
    assert(views[i] == plan.files@[i]@);
    assert(file_right(views[i], g, layout, n, 0));
}

/// The files stand in the order of their layers, and those of a layer in the
/// order of their experts; no expert has two.
pub proof fn law_files_climb(plan: FilePlan, g: ExpertGroups, layout: Layout, i: int, j: int)
    requires
        is_file_plan(plan, g, layout),
        0 <= i < j < plan.files@.len(),
    ensures
        plan.files@[i].layer_idx < plan.files@[j].layer_idx || plan.files@[i].layer_idx
            == plan.files@[j].layer_idx && plan.files@[i].local_id < plan.files@[j].local_id,
{
    let n = layout.num_layers as nat;
    lemma_planned_files(g, layout, n, 0);
    let views = plan.files@.map_values(|f: ExpertFile| f@);
    assert(views[i] == plan.files@[i]@);
    assert(views[j] == plan.files@[j]@);
    assert(earlier(views[i].layer_idx, views[i].local_id, views[j].layer_idx, views[j].local_id));
}

/// As long as all ids fit in 32 bits, the manifest describes every file that is
/// written, under the file's id: the expert's layer and number, where the file
/// lies, and as many bytes as its three reads have together, whatever the types
/// of the three matrices are.
pub proof fn law_manifest_describes_file(
    plan: FilePlan,
    g: ExpertGroups,
    layout: Layout,
    i: int,
)
    requires
        is_file_plan(plan, g, layout),
        files_fit(g, layout),
        layout.num_layers * layout.num_experts_per_layer <= u32::MAX + 1,
        0 <= i < plan.files@.len(),
    ensures
        ({
            let f = plan.files@[i];
            let map = plan.manifest.expert_map@;
            &&& map.contains_key(f.global_id)
            &&& map[f.global_id].layer_idx == f.layer_idx
            &&& map[f.global_id].local_id == f.local_id
            &&& map[f.global_id].file@ == "experts/"@ + f.file_name@
            &&& map[f.global_id].dtype@ == layout.dtype.spec_name()
            &&& map[f.global_id].d_model == layout.d_model
            &&& map[f.global_id].d_ff == layout.d_ff
            &&& map[f.global_id].byte_size == f.gate.byte_len + f.up.byte_len + f.down.byte_len
        }),
{
    let n = layout.num_layers as nat;
    lemma_planned_files(g, layout, n, 0);
    law_manifest_lists_files(plan, g, layout);
    let views = plan.files@.map_values(|f: ExpertFile| f@);
    let f = plan.files@[i];
    assert(views[i] == f@);
    assert(file_right(views[i], g, layout, n, 0));
    let (l, e) = (f.layer_idx as int, f.local_id as int);
    assert(has_file(g, l, e));
    let entry = plan.manifest.expert_map@[f.global_id];
    assert(entry@ == entry_of(layout, l, e, g.at(f.layer_idx, f.local_id)->0));
    assert(file_fits(g.at(f.layer_idx, f.local_id)->0));
}

/// The manifest describes no expert for which no file is written: `i` is the
/// file of the entry.
pub proof fn law_entry_has_file(
    plan: FilePlan,
    g: ExpertGroups,
    layout: Layout,
    id: u32,
) -> (i: int)
    requires
        is_file_plan(plan, g, layout),
        files_fit(g, layout),
        layout.num_layers * layout.num_experts_per_layer <= u32::MAX + 1,
        plan.manifest.expert_map@.contains_key(id),
    ensures
        0 <= i < plan.files@.len(),
        plan.files@[i].global_id == id,
{
    law_manifest_lists_files(plan, g, layout);
    let (l, e) = choose|l: int, e: int|
        0 <= l < layout.num_layers && 0 <= e < layout.num_experts_per_layer && #[trigger] has_file(
            g,
            l,
            e,
        ) && id == global_id(layout, l, e);
    let i = law_file_written(plan, g, layout, l as usize, e as usize);
    lemma_planned_files(g, layout, layout.num_layers as nat, 0);
    let views = plan.files@.map_values(|f: ExpertFile| f@);
    assert(views[i] == plan.files@[i]@);
    assert(file_right(views[i], g, layout, layout.num_layers as nat, 0));
    i
}

/// Where a skipped expert stands.
spec fn place(s: Skipped) -> (usize, usize) {
    match s {
        Skipped::Missing { layer, expert } => (layer, expert),
        Skipped::Incomplete { layer, expert } => (layer, expert),
    }
}

/// `s` is an expert before `(layer, expert)` without a file.
spec fn skip_right(s: Skipped, g: ExpertGroups, layout: Layout, layer: nat, expert: nat) -> bool {
    let (l, e) = place(s);
    &&& comes_before(l as int, e as int, layer, expert, layout.num_experts_per_layer)
    &&& match s {
        Skipped::Missing { .. } => g.at(l, e) is None,
        Skipped::Incomplete { .. } => g.at(l, e) matches Some(p) && !complete(p),
    }
}

proof fn lemma_planned_skipped(g: ExpertGroups, layout: Layout, layer: nat, expert: nat)
    requires
        layer < layout.num_layers && expert <= layout.num_experts_per_layer || layer
            == layout.num_layers && expert == 0,
    ensures
        ({
            let skipped = planned(g, layout, layer, expert).skipped;
            &&& forall|i: int|
                0 <= i < skipped.len() ==> skip_right(
                    #[trigger] skipped[i],
                    g,
                    layout,
                    layer,
                    expert,
                )
            &&& forall|i: int, j: int|
                0 <= i < j < skipped.len() ==> earlier(
                    place(#[trigger] skipped[i]).0,
                    place(skipped[i]).1,
                    place(#[trigger] skipped[j]).0,
                    place(skipped[j]).1,
                )
            &&& forall|s: Skipped|
                skip_right(s, g, layout, layer, expert) ==> #[trigger] skipped.contains(s)
        }),
    decreases layer, expert,
{
    let per = layout.num_experts_per_layer;
    let now = planned(g, layout, layer, expert).skipped;
    if expert > 0 {
        let prev = (expert - 1) as nat;
        lemma_planned_skipped(g, layout, layer, prev);
        let before = planned(g, layout, layer, prev).skipped;
        assert forall|i: int| 0 <= i < now.len() implies skip_right(
            #[trigger] now[i],
            g,
            layout,
            layer,
            expert,
        ) by {
            if i < before.len() {
                assert(now[i] == before[i]);
                assert(skip_right(before[i], g, layout, layer, prev));
            }
        }
        assert forall|i: int, j: int| 0 <= i < j < now.len() implies earlier(
            place(#[trigger] now[i]).0,
            place(now[i]).1,
            place(#[trigger] now[j]).0,
            place(now[j]).1,
        ) by {
            assert(now[i] == before[i]);
            assert(skip_right(before[i], g, layout, layer, prev));
            if j < before.len() {
                assert(now[j] == before[j]);
            }
        }
        assert forall|s: Skipped| skip_right(s, g, layout, layer, expert) implies #[trigger] now.contains(
            s,
        ) by {
            let (l, e) = place(s);
            if (l as int, e as int) == (layer as int, prev as int) {
                assert(now[before.len() as int] == s);
            } else {
                assert(skip_right(s, g, layout, layer, prev));
                assert(before.contains(s));
                let i = choose|i: int| 0 <= i < before.len() && before[i] == s;
                assert(now[i] == s);
            }
        }
    } else if layer > 0 {
        let prev = (layer - 1) as nat;
        lemma_planned_skipped(g, layout, prev, per as nat);
        assert(planned(g, layout, layer, 0) == planned(g, layout, prev, per as nat));
        assert(now == planned(g, layout, prev, per as nat).skipped);
        assert forall|i: int| 0 <= i < now.len() implies skip_right(
            #[trigger] now[i],
            g,
            layout,
            layer,
            expert,
        ) by {
            assert(skip_right(now[i], g, layout, prev, per as nat));
        }
        assert forall|s: Skipped| skip_right(s, g, layout, layer, expert) implies #[trigger] now.contains(
            s,
        ) by {
            assert(skip_right(s, g, layout, prev, per as nat));
        }
    }
}

/// Reported as missing are exactly the experts of the model without any matrix,
/// and as incomplete those with some matrices but not all three.
pub proof fn law_skipped(plan: FilePlan, g: ExpertGroups, layout: Layout, l: usize, e: usize)
    requires
        is_file_plan(plan, g, layout),
    ensures
        plan.skipped@.contains(Skipped::Missing { layer: l, expert: e }) <==> l < layout.num_layers
            && e < layout.num_experts_per_layer && g.at(l, e) is None,
        plan.skipped@.contains(Skipped::Incomplete { layer: l, expert: e }) <==> l
            < layout.num_layers && e < layout.num_experts_per_layer && (g.at(l, e) matches Some(p)
            && (p.gate is None || p.up is None || p.down is None)),
{
    let n = layout.num_layers as nat;
    lemma_planned_skipped(g, layout, n, 0);
    let missing = Skipped::Missing { layer: l, expert: e };
    let incomplete = Skipped::Incomplete { layer: l, expert: e };
    assert(plan.skipped@.contains(missing) == skip_right(missing, g, layout, n, 0));
    assert(plan.skipped@.contains(incomplete) == skip_right(incomplete, g, layout, n, 0));
}

/// The skipped experts are reported in the order of their layers, and those of a
/// layer in the order of their numbers, each once.
pub proof fn law_skipped_climb(plan: FilePlan, g: ExpertGroups, layout: Layout, i: int, j: int)
    requires
        is_file_plan(plan, g, layout),
        0 <= i < j < plan.skipped@.len(),
    ensures
        ({
            let (l1, e1) = match plan.skipped@[i] {
                Skipped::Missing { layer, expert } => (layer, expert),
                Skipped::Incomplete { layer, expert } => (layer, expert),
            };
            let (l2, e2) = match plan.skipped@[j] {
                Skipped::Missing { layer, expert } => (layer, expert),
                Skipped::Incomplete { layer, expert } => (layer, expert),
            };
            l1 < l2 || l1 == l2 && e1 < e2
        }),
{
    lemma_planned_skipped(g, layout, layout.num_layers as nat, 0);
    let (a, b) = (plan.skipped@[i], plan.skipped@[j]);
    assert(earlier(place(a).0, place(a).1, place(b).0, place(b).1));
}

/// One id more for each expert of a layer that gets a file, in the order of the
/// experts.
proof fn lemma_layer_ids(g: ExpertGroups, layout: Layout, layer: int, n: nat)
    ensures
        ({
            let ids = layer_ids(g, layout, layer, n);
            &&& ids.len() <= n
            &&& forall|e: int|
                0 <= e < n && #[trigger] has_file(g, layer, e) ==> ids.contains(
                    global_id(layout, layer, e),
                )
        }),
    decreases n,
{
    if n > 0 {
        let prev = (n - 1) as nat;
        lemma_layer_ids(g, layout, layer, prev);
        let before = layer_ids(g, layout, layer, prev);
        let now = layer_ids(g, layout, layer, n);
        assert forall|e: int| 0 <= e < n && #[trigger] has_file(g, layer, e) implies now.contains(
            global_id(layout, layer, e),
        ) by {
            if e == n - 1 {
                assert(now[before.len() as int] == global_id(layout, layer, e));
            } else {
                assert(before.contains(global_id(layout, layer, e)));
                let i = choose|i: int|
                    0 <= i < before.len() && before[i] == global_id(layout, layer, e);
                assert(now[i] == before[i]);
            }
        }
    }
}

/// The manifest has a record of every layer, in order, which counts and lists
/// the ids of the experts of the layer that get a file.
pub proof fn law_layer_record(plan: FilePlan, g: ExpertGroups, layout: Layout, l: int, e: int)
    requires
        is_file_plan(plan, g, layout),
        0 <= l < layout.num_layers,
    ensures
        plan.manifest.num_layers == layout.num_layers,
        plan.manifest.num_experts_per_layer == layout.num_experts_per_layer,
        plan.manifest.layers@.len() == layout.num_layers,
        plan.manifest.layers@[l].layer_idx == l,
        plan.manifest.layers@[l].num_experts == plan.manifest.layers@[l].expert_ids@.len(),
        0 <= e < layout.num_experts_per_layer && (g.at(l as usize, e as usize) matches Some(p)
            && p.gate is Some && p.up is Some && p.down is Some)
            ==> plan.manifest.layers@[l].expert_ids@.contains(
            (l * layout.num_experts_per_layer + e) as u32,
        ),
{
    let per = layout.num_experts_per_layer as nat;
    let views = plan.manifest.layers@.map_values(|l: LayerInfo| l@);
    assert(views == Seq::new(layout.num_layers as nat, |l: int| layer_of(g, layout, l)));
    assert(views[l] == plan.manifest.layers@[l]@);
    assert(views[l] == layer_of(g, layout, l));
    lemma_layer_ids(g, layout, l, per);
    assert(has_file(g, l, e) ==> (0 <= e < per ==> layer_ids(g, layout, l, per).contains(
        global_id(layout, l, e),
    )));
}

proof fn lemma_layer_ids_climb(g: ExpertGroups, layout: Layout, layer: int, n: nat)
    requires
        0 <= layer < layout.num_layers,
        n <= layout.num_experts_per_layer,
        layout.num_layers * layout.num_experts_per_layer <= u32::MAX + 1,
    ensures
        ({
            let ids = layer_ids(g, layout, layer, n);
            let first = layer * layout.num_experts_per_layer;
            &&& 0 <= first
            &&& first + layout.num_experts_per_layer <= u32::MAX + 1
            &&& forall|i: int|
                0 <= i < ids.len() ==> first <= #[trigger] ids[i] < first + n && has_file(
                    g,
                    layer,
                    ids[i] - first,
                )
            &&& forall|i: int, j: int|
                0 <= i < j < ids.len() ==> (#[trigger] ids[i]) < (#[trigger] ids[j])
        }),
    decreases n,
{
    let per = layout.num_experts_per_layer as int;
    let first = layer * per;
    assert(0 <= first && first + per <= layout.num_layers * per) by (nonlinear_arith)
        requires
            first == layer * per,
            0 <= layer < layout.num_layers,
            0 <= per,
    ;
    if n > 0 {
        let prev = (n - 1) as nat;
        lemma_layer_ids_climb(g, layout, layer, prev);
        let before = layer_ids(g, layout, layer, prev);
        let now = layer_ids(g, layout, layer, n);
        assert(global_id(layout, layer, n - 1) == first + n - 1);
        assert forall|i: int| 0 <= i < now.len() implies first <= #[trigger] now[i] < first + n
            && has_file(g, layer, now[i] - first) by {
            if i < before.len() {
                assert(now[i] == before[i]);
            }
        }
        assert forall|i: int, j: int| 0 <= i < j < now.len() implies (#[trigger] now[i]) < (
        #[trigger] now[j]) by {
            assert(now[i] == before[i]);
            if j < before.len() {
                assert(now[j] == before[j]);
            }
        }
    }
}

/// As long as all ids fit in 32 bits, a layer's ids climb, and each is that of
/// an expert of the layer whose three matrices were found.
pub proof fn law_layer_ids(plan: FilePlan, g: ExpertGroups, layout: Layout, l: int, i: int)
    requires
        is_file_plan(plan, g, layout),
        0 <= l < layout.num_layers,
        layout.num_layers * layout.num_experts_per_layer <= u32::MAX + 1,
        0 <= i < plan.manifest.layers@[l].expert_ids@.len(),
    ensures
        ({
            let ids = plan.manifest.layers@[l].expert_ids@;
            let e = ids[i] - l * layout.num_experts_per_layer;
            &&& 0 <= e < layout.num_experts_per_layer
            &&& g.at(l as usize, e as usize) matches Some(p)
            &&& p.gate is Some && p.up is Some && p.down is Some
        }),
        i > 0 ==> plan.manifest.layers@[l].expert_ids@[i - 1]
            < plan.manifest.layers@[l].expert_ids@[i],
{
    let views = plan.manifest.layers@.map_values(|l: LayerInfo| l@);
    assert(views == Seq::new(layout.num_layers as nat, |l: int| layer_of(g, layout, l)));
    assert(views[l] == plan.manifest.layers@[l]@);
    assert(views[l] == layer_of(g, layout, l));
    lemma_layer_ids_climb(g, layout, l, layout.num_experts_per_layer as nat);
    let ids = plan.manifest.layers@[l].expert_ids@;
    assert(has_file(g, l, ids[i] - l * layout.num_experts_per_layer));
}

/// Files are refused exactly where the size of a matrix of some expert, or of
/// the three together, is too large.
pub proof fn law_files_fit(g: ExpertGroups, layout: Layout, l: usize, e: usize)
    requires
        l < layout.num_layers,
        e < layout.num_experts_per_layer,
        g.at(l, e) is Some,
        g.at(l, e)->0.gate is Some,
        g.at(l, e)->0.up is Some,
        g.at(l, e)->0.down is Some,
        files_fit(g, layout),
    ensures
        ({
            let (a, b, c) = (g.at(l, e)->0.gate->0, g.at(l, e)->0.up->0, g.at(l, e)->0.down->0);
            &&& crate::extract::fused::size_fits(a.dtype, a.shape)
            &&& crate::extract::fused::size_fits(b.dtype, b.shape)
            &&& crate::extract::fused::size_fits(c.dtype, c.shape)
            &&& crate::extract::fused::data_bytes(
                a.dtype,
                crate::extract::fused::elements(a.shape),
            ) + crate::extract::fused::data_bytes(
                b.dtype,
                crate::extract::fused::elements(b.shape),
            ) + crate::extract::fused::data_bytes(
                c.dtype,
                crate::extract::fused::elements(c.shape),
            ) <= u64::MAX
        }),
{
    assert(file_fits(g.at(l, e)->0));
}

/// Where files are refused, `found` is an expert that cannot be written.
pub proof fn law_files_refusal(g: ExpertGroups, layout: Layout) -> (found: (usize, usize))
    requires
        !files_fit(g, layout),
    ensures
        ({
            let (l, e) = found;
            let p = g.at(l, e)->0;
            let (a, b, c) = (p.gate->0, p.up->0, p.down->0);
            &&& l < layout.num_layers
            &&& e < layout.num_experts_per_layer
            &&& g.at(l, e) is Some
            &&& p.gate is Some && p.up is Some && p.down is Some
            &&& {
                ||| !crate::extract::fused::size_fits(a.dtype, a.shape)
                ||| !crate::extract::fused::size_fits(b.dtype, b.shape)
                ||| !crate::extract::fused::size_fits(c.dtype, c.shape)
                ||| crate::extract::fused::data_bytes(
                    a.dtype,
                    crate::extract::fused::elements(a.shape),
                ) + crate::extract::fused::data_bytes(
                    b.dtype,
                    crate::extract::fused::elements(b.shape),
                ) + crate::extract::fused::data_bytes(
                    c.dtype,
                    crate::extract::fused::elements(c.shape),
                ) > u64::MAX
            }
        }),
{
    choose|l: usize, e: usize|
        l < layout.num_layers && e < layout.num_experts_per_layer && (#[trigger] g.at(
            l,
            e,
        ) matches Some(p) && complete(p)) && !file_fits(g.at(l, e)->0)
}

/// The files of two experts have different names.
pub proof fn law_file_names_distinct(l1: usize, e1: usize, l2: usize, e2: usize)
    requires
        l1 != l2 || e1 != e2,
    ensures
        file_name(l1, e1) != file_name(l2, e2),
{
    let (x, y) = (crate::text::decimal(l1 as nat), crate::text::decimal(l2 as nat));
    let (v, w) = (crate::text::decimal(e1 as nat), crate::text::decimal(e2 as nat));
    if file_name(l1, e1) == file_name(l2, e2) {
        reveal_strlit("_expert_");
        reveal_strlit("expert_");
        crate::text::lemma_decimal(l1 as nat);
        crate::text::lemma_decimal(l2 as nat);
        crate::text::lemma_decimal(e1 as nat);
        crate::text::lemma_decimal(e2 as nat);
        assert("_expert_"@ =~= seq!['_'] + "expert_"@);
        let (s, t) = ("expert_"@ + v + ".bin"@, "expert_"@ + w + ".bin"@);
        let (a, b) = (x + seq!['_'] + s, y + seq!['_'] + t);
        assert(file_name(l1, e1) =~= "layer_"@ + a);
        assert(file_name(l2, e2) =~= "layer_"@ + b);
        crate::text::law_prefix("layer_"@ + a, "layer_"@, a);
        crate::text::law_prefix("layer_"@ + a, "layer_"@, b);
        assert(a == b);
        lemma_digits_only(x);
        lemma_digits_only(y);
        crate::text::law_cut(a, '_', x, s);
        crate::text::law_cut(a, '_', y, t);
        assert(x == y && s == t);
        assert(s =~= "expert_"@ + (v + ".bin"@));
        assert(t =~= "expert_"@ + (w + ".bin"@));
        crate::text::law_prefix(s, "expert_"@, v + ".bin"@);
        crate::text::law_prefix(s, "expert_"@, w + ".bin"@);
        crate::text::law_suffix(v + ".bin"@, ".bin"@, v);
        crate::text::law_suffix(v + ".bin"@, ".bin"@, w);
        assert(v == w);
    }
}

proof fn lemma_digits_only(s: Seq<char>)
    requires
        crate::text::all_digits(s),
    ensures
        !s.contains('_'),
{
    if s.contains('_') {
        let i = choose|i: int| 0 <= i < s.len() && s[i] == '_';
        assert(crate::text::is_digit(s[i]));
    }
}

/// The dimensions of a model: one layer more than the highest one, as many
/// experts as the first layer has, which are the first `n` entries, and the rows
/// and columns of the first expert's gate matrix, with its type.
pub proof fn law_layout(g: ExpertGroups, max_layer: usize, n: nat)
    requires
        g.wf(),
        n <= g.list().len(),
        forall|i: int|
            0 <= i < g.list().len() ==> (i < n <==> (#[trigger] g.list()[i]).layer
                == g.list()[0].layer),
    ensures
        match layout_of(g, max_layer) {
            Ok(layout) => {
                let gate = g.list()[0].projs@.gate;
                &&& g.list().len() > 0
                &&& gate is Some
                &&& gate->0.shape.len() > 0
                &&& layout.num_layers == max_layer + 1
                &&& layout.num_experts_per_layer == n
                &&& layout.d_ff == gate->0.shape[0]
                &&& layout.d_model == if gate->0.shape.len() > 1 {
                    gate->0.shape[1]
                } else {
                    0
                }
                &&& layout.dtype == gate->0.dtype
            },
            Err(ExtractError::NoExperts) => g.list().len() == 0 && max_layer < usize::MAX,
            Err(ExtractError::MissingGate) => g.list().len() > 0 && g.list()[0].projs@.gate is None
                && max_layer < usize::MAX,
            Err(ExtractError::EmptyShape) => g.list().len() > 0 && max_layer < usize::MAX && (
            g.list()[0].projs@.gate matches Some(m) && m.shape.len() == 0),
            Err(ExtractError::TooLarge) => {
                ||| max_layer == usize::MAX
                ||| g.list().len() > 0 && (max_layer + 1) * n > usize::MAX && (
                g.list()[0].projs@.gate matches Some(m) && m.shape.len() > 0)
            },
        },
{
    let keys = g.keys();
    if g.list().len() > 0 {
        let layer = g.list()[0].layer;
        lemma_first_layer(keys, layer, n as int, keys.len() as int);
        assert(keys.take(keys.len() as int) =~= keys);
        let total = (max_layer + 1) * experts_in(g, layer);
        assert(n <= total) by (nonlinear_arith)
            requires
                total == (max_layer + 1) * n,
                0 <= max_layer,
                0 <= n,
        ;
    }
}

/// The first `n` keys are those of the layer.
proof fn lemma_first_layer(keys: Seq<(usize, usize)>, layer: usize, n: int, m: int)
    requires
        0 <= n <= keys.len(),
        0 <= m <= keys.len(),
        forall|i: int| 0 <= i < keys.len() ==> (i < n <==> (#[trigger] keys[i]).0 == layer),
    ensures
        keys.take(m).filter(in_layer(layer)).len() == if m < n {
            m
        } else {
            n
        },
    decreases m,
{
    reveal(Seq::filter);
    if m > 0 {
        assert(keys.take(m).drop_last() =~= keys.take(m - 1));
        assert(keys.take(m).last() == keys[m - 1]);
        lemma_first_layer(keys, layer, n, m - 1);
    }
}

// ── From the tensors to the files ────────────────────────────────────────────

/// A model without expert tensors is refused as such.
pub proof fn law_no_expert_tensors(
    r: Result<ExtractionPlan, ExtractError>,
    ts: Seq<TensorInfo>,
)
    requires
        extraction_of(r, ts),
        forall|j: int|
            0 <= j < ts.len() ==> crate::extract::names::expert_tensor(
                (#[trigger] ts[j]).name@,
            ) is None,
    ensures
        r == Err::<ExtractionPlan, ExtractError>(ExtractError::NoExperts),
{
    let groups = choose|groups: ExpertGroups|
        {
            &&& #[trigger] groups_of(groups, ts)
            &&& if crate::extract::fused::expansion_fits(groups.list()) {
                exists|g: ExpertGroups| #[trigger] split_of(g, groups) && outcome_of(r, ts, g)
            } else {
                r == Err::<ExtractionPlan, ExtractError>(ExtractError::TooLarge)
            }
        };
    let k = crate::extract::groups::law_highest_layer(ts);
    assert(crate::extract::groups::highest_layer(ts) == 0);
    if groups.list().len() > 0 {
        let e = groups.list()[0];
        groups.lemma_at(0);
        crate::extract::groups::law_absent_expert(ts, e.layer, e.expert);
        assert(groups.at(e.layer, e.expert) == crate::extract::groups::grouped(
            ts,
            e.layer,
            e.expert,
        ));
    }
    assert(crate::extract::fused::expansion_fits(groups.list()));
    let g = choose|g: ExpertGroups| #[trigger] split_of(g, groups) && outcome_of(r, ts, g);
    if g.list().len() > 0 {
        let e = g.list()[0];
        g.lemma_at(0);
        assert(g.at(e.layer, e.expert) == crate::extract::fused::expansion(
            groups.list(),
            e.layer,
            e.expert,
        ));
    }
}

/// What a plan says of a model as a whole: one layer more than the highest one
/// that an expert tensor has, and the names of all other tensors.
pub proof fn law_extraction_whole(x: ExtractionPlan, ts: Seq<TensorInfo>)
    requires
        extraction_of(Ok(x), ts),
    ensures
        x.layout.num_layers == crate::extract::groups::highest_layer(ts) + 1,
        x.dense@.map_values(|s: String| s@) == crate::extract::groups::dense_names(ts),
        x.plan.manifest.num_layers == x.layout.num_layers,
        x.plan.manifest.num_experts_per_layer == x.layout.num_experts_per_layer,
{
    let (groups, g) = lemma_extraction_parts(x, ts);
}

/// The groups of a plan's model, before and after the split.
proof fn lemma_extraction_parts(
    x: ExtractionPlan,
    ts: Seq<TensorInfo>,
) -> (parts: (ExpertGroups, ExpertGroups))
    requires
        extraction_of(Ok(x), ts),
    ensures
        groups_of(parts.0, ts),
        crate::extract::fused::expansion_fits(parts.0.list()),
        split_of(parts.1, parts.0),
        layout_of(parts.1, crate::extract::groups::highest_layer(ts)) == Ok::<Layout, ExtractError>(
            x.layout,
        ),
        files_fit(parts.1, x.layout),
        is_file_plan(x.plan, parts.1, x.layout),
        x.num_experts == parts.1.list().len(),
        x.dense@.map_values(|s: String| s@) == crate::extract::groups::dense_names(ts),
{
    let r: Result<ExtractionPlan, ExtractError> = Ok(x);
    let groups = choose|groups: ExpertGroups|
        {
            &&& #[trigger] groups_of(groups, ts)
            &&& if crate::extract::fused::expansion_fits(groups.list()) {
                exists|g: ExpertGroups| #[trigger] split_of(g, groups) && outcome_of(r, ts, g)
            } else {
                r == Err::<ExtractionPlan, ExtractError>(ExtractError::TooLarge)
            }
        };
    let g = choose|g: ExpertGroups| #[trigger] split_of(g, groups) && outcome_of(r, ts, g);
    (groups, g)
}

/// A group holds a fused matrix only where one of the expert's tensors has
/// three dimensions: the `k`-th.
proof fn lemma_fused_tensor(groups: ExpertGroups, ts: Seq<TensorInfo>, i: int) -> (k: int)
    requires
        groups_of(groups, ts),
        0 <= i < groups.list().len(),
        crate::extract::fused::any_fused(groups.list()[i].projs@),
    ensures
        0 <= k < ts.len(),
        ts[k].shape@.len() == 3,
        crate::extract::names::expert_tensor(ts[k].name@) matches Some((l, e, p)) && l
            == groups.list()[i].layer && e == groups.list()[i].expert,
{
    let (l, e) = (groups.list()[i].layer, groups.list()[i].expert);
    let q = groups.list()[i].projs@;
    groups.lemma_at(i);
    assert(groups.at(l, e) == crate::extract::groups::grouped(ts, l, e));
    if crate::extract::fused::is_fused(q.gate) {
        crate::extract::groups::law_matrix_has_tensor(ts, l, e, Projection::Gate)
    } else if crate::extract::fused::is_fused(q.up) {
        crate::extract::groups::law_matrix_has_tensor(ts, l, e, Projection::Up)
    } else {
        crate::extract::groups::law_matrix_has_tensor(ts, l, e, Projection::Down)
    }
}

/// `k` is the last tensor with an expert's projection.
pub open spec fn last_tensor(
    ts: Seq<TensorInfo>,
    k: int,
    l: usize,
    e: usize,
    p: Projection,
) -> bool {
    &&& 0 <= k < ts.len()
    &&& crate::extract::names::expert_tensor(ts[k].name@) == Some((l, e, p))
    &&& forall|j: int|
        k < j < ts.len() ==> crate::extract::names::expert_tensor((#[trigger] ts[j]).name@)
            != Some((l, e, p))
}

/// In a model without fused tensors, an expert's file is read from its three
/// tensors: the `i`-th file takes each of them from where it stands, in the
/// length that its type and shape give it.
pub proof fn law_single_tensors_read(
    x: ExtractionPlan,
    ts: Seq<TensorInfo>,
    l: usize,
    e: usize,
    a: int,
    b: int,
    c: int,
) -> (i: int)
    requires
        extraction_of(Ok(x), ts),
        forall|j: int|
            0 <= j < ts.len() && crate::extract::names::expert_tensor(
                (#[trigger] ts[j]).name@,
            ) is Some ==> ts[j].shape@.len() != 3,
        l < x.layout.num_layers,
        e < x.layout.num_experts_per_layer,
        last_tensor(ts, a, l, e, Projection::Gate),
        last_tensor(ts, b, l, e, Projection::Up),
        last_tensor(ts, c, l, e, Projection::Down),
    ensures
        0 <= i < x.plan.files@.len(),
        ({
            let f = x.plan.files@[i];
            &&& f.layer_idx == l && f.local_id == e
            &&& f.gate.offset == ts[a].offset
            &&& f.up.offset == ts[b].offset
            &&& f.down.offset == ts[c].offset
            &&& f.gate.byte_len == crate::extract::fused::data_bytes(
                ts[a].dtype,
                crate::extract::fused::elements(ts[a].shape@),
            )
            &&& f.up.byte_len == crate::extract::fused::data_bytes(
                ts[b].dtype,
                crate::extract::fused::elements(ts[b].shape@),
            )
            &&& f.down.byte_len == crate::extract::fused::data_bytes(
                ts[c].dtype,
                crate::extract::fused::elements(ts[c].shape@),
            )
        }),
{
    let (groups, g) = lemma_extraction_parts(x, ts);
    assert forall|k: int|
        0 <= k < groups.list().len() implies !crate::extract::fused::any_fused(
        (#[trigger] groups.list()[k]).projs@,
    ) by {
        if crate::extract::fused::any_fused(groups.list()[k].projs@) {
            let t = lemma_fused_tensor(groups, ts, k);
            assert(ts[t].shape@.len() == 3);
        }
    }
    crate::extract::fused::law_unfused_kept(groups);
    crate::extract::groups::law_last_tensor_counts(ts, a, l, e, Projection::Gate);
    crate::extract::groups::law_last_tensor_counts(ts, b, l, e, Projection::Up);
    crate::extract::groups::law_last_tensor_counts(ts, c, l, e, Projection::Down);
    assert(g.at(l, e) == crate::extract::fused::expansion(groups.list(), l, e));
    assert(groups.at(l, e) == crate::extract::groups::grouped(ts, l, e));
    law_file_written(x.plan, g, x.layout, l, e)
}

/// In a layer whose matrices are fused, an expert's file is read from its
/// stretches of the three fused tensors: the `i`-th file takes each of them
/// from behind those of the experts before it.
pub proof fn law_fused_tensors_read(
    x: ExtractionPlan,
    ts: Seq<TensorInfo>,
    l: usize,
    e: usize,
    a: int,
    b: int,
    c: int,
) -> (i: int)
    requires
        extraction_of(Ok(x), ts),
        l < x.layout.num_layers,
        e < x.layout.num_experts_per_layer,
        last_tensor(ts, a, l, 0, Projection::Gate),
        last_tensor(ts, b, l, 0, Projection::Up),
        last_tensor(ts, c, l, 0, Projection::Down),
        ts[a].shape@.len() == 3,
        ts[b].shape@.len() == 3,
        ts[c].shape@.len() == 3,
        e < ts[a].shape@[0],
        forall|j: int|
            0 <= j < ts.len() && (#[trigger] ts[j]).shape@.len() == 3 ==> (
            crate::extract::names::expert_tensor(ts[j].name@) matches Some((m, k, p)) ==> m != l || k
                == 0),
    ensures
        0 <= i < x.plan.files@.len(),
        ({
            let f = x.plan.files@[i];
            let (s, t, u) = (ts[a].shape@, ts[b].shape@, ts[c].shape@);
            let m = crate::extract::fused::data_bytes(ts[a].dtype, (s[1] * s[2]) as nat);
            let n = crate::extract::fused::data_bytes(ts[b].dtype, (t[1] * t[2]) as nat);
            let o = crate::extract::fused::data_bytes(ts[c].dtype, (u[1] * u[2]) as nat);
            &&& f.layer_idx == l && f.local_id == e
            &&& f.gate.offset == ts[a].offset + e * m && f.gate.byte_len == m
            &&& f.up.offset == ts[b].offset + e * n && f.up.byte_len == n
            &&& f.down.offset == ts[c].offset + e * o && f.down.byte_len == o
        }),
{
    let (groups, g) = lemma_extraction_parts(x, ts);
    crate::extract::groups::law_last_tensor_counts(ts, a, l, 0, Projection::Gate);
    crate::extract::groups::law_last_tensor_counts(ts, b, l, 0, Projection::Up);
    crate::extract::groups::law_last_tensor_counts(ts, c, l, 0, Projection::Down);
    assert(groups.at(l, 0) == crate::extract::groups::grouped(ts, l, 0));
    let k = choose|k: int|
        0 <= k < groups.list().len() && (#[trigger] groups.list()[k]).key() == (l, 0usize);
    let list = groups.list();
    let p = list[k].projs@;
    groups.lemma_at(k);
    assert(p == groups.at(l, 0)->0);
    assert forall|j: int|
        k < j < list.len() && (#[trigger] list[j]).layer == list[k].layer
            && crate::extract::fused::any_fused(list[j].projs@) implies e
        >= crate::extract::fused::fused_count(list[j].projs@) by {
        let t = lemma_fused_tensor(groups, ts, j);
        assert(ts[t].shape@.len() == 3);
        crate::extract::groups::law_entries_climb(groups, k, j);
    }
    crate::extract::fused::law_last_fused_counts(list, k, e);
    assert(g.at(l, e) == crate::extract::fused::expansion(list, l, e));
    crate::extract::fused::law_split_refused(list, k, e);
    lemma_share_read(p.gate->0, e);
    lemma_share_read(p.up->0, e);
    lemma_share_read(p.down->0, e);
    law_file_written(x.plan, g, x.layout, l, e)
}

/// The length and the position of an expert's share of a fused matrix.
proof fn lemma_share_read(m: Meta, e: usize)
    requires
        m.shape.len() == 3,
        crate::extract::fused::share_fits(Some(m), e),
    ensures
        ({
            let s = crate::extract::fused::share(Some(m), e)->0;
            let n = crate::extract::fused::data_bytes(
                m.dtype,
                (m.shape[1] * m.shape[2]) as nat,
            );
            &&& crate::extract::fused::share(Some(m), e) is Some
            &&& s.dtype == m.dtype
            &&& s.offset == m.offset + e * n
            &&& crate::extract::fused::elements(s.shape) == m.shape[1] * m.shape[2]
        }),
{
    let (n, r, c) = (m.shape[0], m.shape[1], m.shape[2]);
    assert(m.shape =~= seq![n, r, c]);
    crate::extract::fused::law_share(m, n, r, c, e);
    assert(seq![r] + seq![c] =~= seq![r, c]);
    crate::extract::fused::law_elements(seq![r], seq![c], r);
    crate::extract::fused::law_elements(seq![r], seq![c], c);
}

/// Every id that files bear is described in the manifest, as the last of them.
proof fn lemma_last_entry(g: ExpertGroups, layout: Layout, layer: nat, expert: nat, i: int)
    requires
        0 <= i < planned(g, layout, layer, expert).files.len(),
        forall|j: int|
            i < j < planned(g, layout, layer, expert).files.len() ==> (#[trigger] planned(
                g,
                layout,
                layer,
                expert,
            ).files[j]).global_id != planned(g, layout, layer, expert).files[i].global_id,
        layer < layout.num_layers && expert <= layout.num_experts_per_layer || layer
            == layout.num_layers && expert == 0,
    ensures
        ({
            let all = planned(g, layout, layer, expert);
            let f = all.files[i];
            &&& all.entries.contains_key(f.global_id)
            &&& all.entries[f.global_id] == entry_of(
                layout,
                f.layer_idx as int,
                f.local_id as int,
                g.at(f.layer_idx, f.local_id)->0,
            )
        }),
    decreases layer, expert,
{
    let now = planned(g, layout, layer, expert);
    if expert > 0 {
        let prev = (expert - 1) as nat;
        let before = planned(g, layout, layer, prev);
        if i < before.files.len() {
            assert(now.files[i] == before.files[i]);
            assert forall|j: int| i < j < before.files.len() implies (
            #[trigger] before.files[j]).global_id != before.files[i].global_id by {
                assert(now.files[j] == before.files[j]);
            }
            lemma_last_entry(g, layout, layer, prev, i);
            if now.files.len() > before.files.len() {
                assert(now.files[before.files.len() as int].global_id != now.files[i].global_id);
            }
        }
    } else if layer > 0 {
        assert(now == planned(
            g,
            layout,
            (layer - 1) as nat,
            layout.num_experts_per_layer as nat,
        ));
        lemma_last_entry(g, layout, (layer - 1) as nat, layout.num_experts_per_layer as nat, i);
    }
}

/// Whatever the ids are, the manifest describes under each of them the last file
/// that bears it.
pub proof fn law_manifest_describes_last(
    plan: FilePlan,
    g: ExpertGroups,
    layout: Layout,
    i: int,
)
    requires
        is_file_plan(plan, g, layout),
        files_fit(g, layout),
        0 <= i < plan.files@.len(),
        forall|j: int|
            i < j < plan.files@.len() ==> (#[trigger] plan.files@[j]).global_id
                != plan.files@[i].global_id,
    ensures
        ({
            let f = plan.files@[i];
            let map = plan.manifest.expert_map@;
            &&& map.contains_key(f.global_id)
            &&& map[f.global_id].layer_idx == f.layer_idx
            &&& map[f.global_id].local_id == f.local_id
            &&& map[f.global_id].file@ == "experts/"@ + f.file_name@
            &&& map[f.global_id].dtype@ == layout.dtype.spec_name()
            &&& map[f.global_id].d_model == layout.d_model
            &&& map[f.global_id].d_ff == layout.d_ff
            &&& map[f.global_id].byte_size == f.gate.byte_len + f.up.byte_len + f.down.byte_len
        }),
{
    let n = layout.num_layers as nat;
    let all = planned(g, layout, n, 0);
    let views = plan.files@.map_values(|f: ExpertFile| f@);
    let f = plan.files@[i];
    assert(views[i] == f@);
    assert forall|j: int| i < j < all.files.len() implies (#[trigger] all.files[j]).global_id
        != all.files[i].global_id by {
        assert(views[j] == plan.files@[j]@);
    }
    lemma_last_entry(g, layout, n, 0, i);
    lemma_planned_files(g, layout, n, 0);
    assert(file_right(views[i], g, layout, n, 0));
    let map = plan.manifest.expert_map@;
    assert(map.map_values(|e: ExpertEntry| e@) == all.entries);
    assert(map.contains_key(f.global_id));
    assert(map[f.global_id]@ == all.entries[f.global_id]);
    assert(file_fits(g.at(f.layer_idx, f.local_id)->0));
}

proof fn lemma_entry_of_file(g: ExpertGroups, layout: Layout, layer: nat, expert: nat, id: u32) -> (
    i: int)
    requires
        planned(g, layout, layer, expert).entries.contains_key(id),
    ensures
        0 <= i < planned(g, layout, layer, expert).files.len(),
        planned(g, layout, layer, expert).files[i].global_id == id,
    decreases layer, expert,
{
    let now = planned(g, layout, layer, expert);
    if expert > 0 {
        let prev = (expert - 1) as nat;
        let before = planned(g, layout, layer, prev);
        if before.entries.contains_key(id) {
            let i = lemma_entry_of_file(g, layout, layer, prev, id);
            assert(now.files[i] == before.files[i]);
            i
        } else {
            before.files.len() as int
        }
    } else {
        assert(layer > 0);
        lemma_entry_of_file(
            g,
            layout,
            (layer - 1) as nat,
            layout.num_experts_per_layer as nat,
            id,
        )
    }
}

/// Whatever the ids are, the manifest describes none that no file bears: `i` is
/// a file that bears it.
pub proof fn law_described_id_borne(
    plan: FilePlan,
    g: ExpertGroups,
    layout: Layout,
    id: u32,
) -> (i: int)
    requires
        is_file_plan(plan, g, layout),
        plan.manifest.expert_map@.contains_key(id),
    ensures
        0 <= i < plan.files@.len(),
        plan.files@[i].global_id == id,
{
    let n = layout.num_layers as nat;
    let all = planned(g, layout, n, 0);
    let map = plan.manifest.expert_map@;
    assert(map.map_values(|e: ExpertEntry| e@) == all.entries);
    assert(all.entries.contains_key(id));
    let i = lemma_entry_of_file(g, layout, n, 0, id);
    let views = plan.files@.map_values(|f: ExpertFile| f@);
    assert(views[i] == plan.files@[i]@);
    i
}

/// The ids of the files of a layer.
spec fn ids_in(files: Seq<FileView>, l: usize) -> Seq<u32> {
    files.filter(|f: FileView| f.layer_idx == l).map_values(|f: FileView| f.global_id)
}

proof fn lemma_ids_in_push(files: Seq<FileView>, f: FileView, l: usize)
    ensures
        ids_in(files.push(f), l) == if f.layer_idx == l {
            ids_in(files, l).push(f.global_id)
        } else {
            ids_in(files, l)
        },
        ids_in(Seq::<FileView>::empty(), l) == Seq::<u32>::empty(),
{
    reveal(Seq::filter);
    let all = files.push(f);
    let own = |f: FileView| f.layer_idx == l;
    assert(all.drop_last() =~= files);
    assert(all.last() == f);
    if f.layer_idx == l {
        assert(ids_in(all, l) =~= ids_in(files, l).push(f.global_id));
    }
    assert(ids_in(Seq::<FileView>::empty(), l) =~= Seq::<u32>::empty());
}

proof fn lemma_ids_in_layer(g: ExpertGroups, layout: Layout, l: usize, layer: nat, expert: nat)
    requires
        layer < layout.num_layers && expert <= layout.num_experts_per_layer || layer
            == layout.num_layers && expert == 0,
    ensures
        ids_in(planned(g, layout, layer, expert).files, l) == if layer < l {
            Seq::<u32>::empty()
        } else if layer == l {
            layer_ids(g, layout, l as int, expert)
        } else {
            layer_ids(g, layout, l as int, layout.num_experts_per_layer as nat)
        },
    decreases layer, expert,
{
    let now = planned(g, layout, layer, expert).files;
    if expert > 0 {
        let prev = (expert - 1) as nat;
        let before = planned(g, layout, layer, prev).files;
        lemma_ids_in_layer(g, layout, l, layer, prev);
        if has_file(g, layer as int, prev as int) {
            let f = file_of(
                layout,
                layer as int,
                prev as int,
                g.at(layer as usize, prev as usize)->0,
            );
            assert(now == before.push(f));
            lemma_ids_in_push(before, f, l);
        } else {
            assert(now == before);
        }
    } else if layer > 0 {
        let per = layout.num_experts_per_layer as nat;
        assert(now == planned(g, layout, (layer - 1) as nat, per).files);
        lemma_ids_in_layer(g, layout, l, (layer - 1) as nat, per);
    } else {
        let any = FileView {
            layer_idx: l,
            local_id: 0,
            global_id: 0,
            file_name: Seq::empty(),
            gate: TensorRead { offset: 0, byte_len: 0 },
            up: TensorRead { offset: 0, byte_len: 0 },
            down: TensorRead { offset: 0, byte_len: 0 },
        };
        lemma_ids_in_push(now, any, l);
        assert(now =~= Seq::<FileView>::empty());
    }
}

/// A layer's record lists the ids of the layer's files, in the order in which
/// they are written, whatever the ids are.
pub proof fn law_layer_lists_files(plan: FilePlan, g: ExpertGroups, layout: Layout, l: usize)
    requires
        is_file_plan(plan, g, layout),
        l < layout.num_layers,
    ensures
        plan.manifest.layers@[l as int].expert_ids@ == plan.files@.map_values(
            |f: ExpertFile| f@,
        ).filter(|f: FileView| f.layer_idx == l).map_values(|f: FileView| f.global_id),
{
    lemma_ids_in_layer(g, layout, l, layout.num_layers as nat, 0);
    let views = plan.manifest.layers@.map_values(|l: LayerInfo| l@);
    assert(views == Seq::new(layout.num_layers as nat, |l: int| layer_of(g, layout, l)));
    assert(views.len() == layout.num_layers);
    assert(views.len() == plan.manifest.layers@.len());
    assert(views[l as int] == plan.manifest.layers@[l as int]@);
    assert(views[l as int] == layer_of(g, layout, l as int));
}

/// How a model is split: its tensors are grouped by expert, the fused groups are
/// split, and what is left is planned. `stages` are the groups before and after
/// the split. A model is refused where the split, the dimensions or the sizes of
/// the files are.
pub proof fn law_extraction_stages(
    r: Result<ExtractionPlan, ExtractError>,
    ts: Seq<TensorInfo>,
) -> (stages: (ExpertGroups, ExpertGroups))
    requires
        extraction_of(r, ts),
    ensures
        ({
            let (a, b) = stages;
            let layout = layout_of(b, crate::extract::groups::highest_layer(ts));
            &&& a.wf()
            &&& forall|l: usize, e: usize| #[trigger]
                a.at(l, e) == crate::extract::groups::grouped(ts, l, e)
            &&& crate::extract::fused::expansion_fits(a.list()) ==> {
                &&& b.wf()
                &&& forall|l: usize, e: usize| #[trigger]
                    b.at(l, e) == crate::extract::fused::expansion(a.list(), l, e)
            }
            &&& match r {
                Ok(x) => {
                    &&& crate::extract::fused::expansion_fits(a.list())
                    &&& layout matches Ok(y) && y == x.layout
                    &&& files_fit(b, x.layout)
                    &&& is_file_plan(x.plan, b, x.layout)
                    &&& x.num_experts == b.list().len()
                    &&& x.dense@.map_values(|s: String| s@) == crate::extract::groups::dense_names(
                        ts,
                    )
                },
                Err(e) => if !crate::extract::fused::expansion_fits(a.list()) {
                    e == ExtractError::TooLarge
                } else {
                    match layout {
                        Err(d) => e == d,
                        Ok(y) => !files_fit(b, y) && e == ExtractError::TooLarge,
                    }
                },
            }
        }),
{
    let groups = choose|groups: ExpertGroups|
        {
            &&& #[trigger] groups_of(groups, ts)
            &&& if crate::extract::fused::expansion_fits(groups.list()) {
                exists|g: ExpertGroups| #[trigger] split_of(g, groups) && outcome_of(r, ts, g)
            } else {
                r == Err::<ExtractionPlan, ExtractError>(ExtractError::TooLarge)
            }
        };
    let g = choose|g: ExpertGroups| #[trigger] split_of(g, groups) && outcome_of(r, ts, g);
    (groups, g)
}

} // verus!

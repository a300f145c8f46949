//! Expert tensors grouped by layer and expert.

use crate::extract::ggml::TensorType;
use crate::extract::names::{parse_tensor_name, Projection};
use vstd::prelude::*;

verus! {

/// What a GGUF file says of one tensor.
pub struct TensorInfo {
    pub name: String,
    pub shape: Vec<usize>,
    pub dtype: TensorType,
    /// Position of the data, counted from the start of the tensor data.
    pub offset: u64,
}

/// Shape, type and position of one matrix.
pub struct ProjMeta {
    pub shape: Vec<usize>,
    pub dtype: TensorType,
    pub offset: u64,
}

/// The mathematical counterpart of [`ProjMeta`].
pub struct Meta {
    pub shape: Seq<usize>,
    pub dtype: TensorType,
    pub offset: u64,
}

/// The matrices of one expert, as far as they were found.
pub struct ThreeProjs {
    pub gate: Option<ProjMeta>,
    pub up: Option<ProjMeta>,
    pub down: Option<ProjMeta>,
}

/// The mathematical counterpart of [`ThreeProjs`].
pub struct Projs {
    pub gate: Option<Meta>,
    pub up: Option<Meta>,
    pub down: Option<Meta>,
}

impl View for ProjMeta {
    type V = Meta;

    open spec fn view(&self) -> Meta {
        Meta { shape: self.shape@, dtype: self.dtype, offset: self.offset }
    }
}

pub open spec fn meta_view(m: Option<ProjMeta>) -> Option<Meta> {
    match m {
        Some(m) => Some(m@),
        None => None,
    }
}

impl View for ThreeProjs {
    type V = Projs;

    open spec fn view(&self) -> Projs {
        Projs { gate: meta_view(self.gate), up: meta_view(self.up), down: meta_view(self.down) }
    }
}

impl TensorInfo {
    pub open spec fn meta(&self) -> Meta {
        Meta { shape: self.shape@, dtype: self.dtype, offset: self.offset }
    }
}

impl Projs {
    pub open spec fn none() -> Projs {
        Projs { gate: None, up: None, down: None }
    }

    /// With the matrix `p` set to `m`.
    pub open spec fn with(self, p: Projection, m: Meta) -> Projs {
        match p {
            Projection::Gate => Projs { gate: Some(m), ..self },
            Projection::Up => Projs { up: Some(m), ..self },
            Projection::Down => Projs { down: Some(m), ..self },
        }
    }
}

impl ProjMeta {
    pub fn copy(&self) -> (r: ProjMeta)
        ensures
            r@ == self@,
    {
        let r = ProjMeta {
            shape: vstd::slice::slice_to_vec(self.shape.as_slice()),
            dtype: self.dtype,
            offset: self.offset,
        };
        r
    }
}

pub fn copy_meta(m: &Option<ProjMeta>) -> (r: Option<ProjMeta>)
    ensures
        meta_view(r) == meta_view(*m),
{
    match m {
        Some(m) => Some(m.copy()),
        None => None,
    }
}

impl ThreeProjs {
    pub fn none() -> (r: ThreeProjs)
        ensures
            r@ == Projs::none(),
    {
        ThreeProjs { gate: None, up: None, down: None }
    }

    pub fn copy(&self) -> (r: ThreeProjs)
        ensures
            r@ == self@,
    {
        ThreeProjs {
            gate: copy_meta(&self.gate),
            up: copy_meta(&self.up),
            down: copy_meta(&self.down),
        }
    }

    pub fn set(&mut self, p: Projection, m: ProjMeta)
        ensures
            final(self)@ == old(self)@.with(p, m@),
    {
        match p {
            Projection::Gate => {
                self.gate = Some(m);
            },
            Projection::Up => {
                self.up = Some(m);
            },
            Projection::Down => {
                self.down = Some(m);
            },
        }
    }
}

// ── The ordered map ──────────────────────────────────────────────────────────

pub struct GroupEntry {
    pub layer: usize,
    pub expert: usize,
    pub projs: ThreeProjs,
}

/// A map from (layer, expert) to matrices, ordered by its keys.
pub struct ExpertGroups {
    entries: Vec<GroupEntry>,
}

/// The order of the keys: by layer, then by expert.
pub open spec fn key_before(a: (usize, usize), b: (usize, usize)) -> bool {
    a.0 < b.0 || (a.0 == b.0 && a.1 < b.1)
}

impl GroupEntry {
    pub open spec fn key(&self) -> (usize, usize) {
        (self.layer, self.expert)
    }
}

impl ExpertGroups {
    pub closed spec fn wf(&self) -> bool {
        forall|i: int, j: int|
            0 <= i < j < self.entries@.len() ==> key_before(
                (#[trigger] self.entries@[i]).key(),
                (#[trigger] self.entries@[j]).key(),
            )
    }

    /// The entries in key order.
    pub closed spec fn list(&self) -> Seq<GroupEntry> {
        self.entries@
    }

    /// The keys in order.
    pub open spec fn keys(&self) -> Seq<(usize, usize)> {
        self.list().map_values(|e: GroupEntry| e.key())
    }

    pub open spec fn has(&self, layer: usize, expert: usize) -> bool {
        exists|i: int| 0 <= i < self.list().len() && (#[trigger] self.list()[i]).key() == (
            layer,
            expert,
        )
    }

    /// What is stored under a key.
    pub open spec fn at(&self, layer: usize, expert: usize) -> Option<Projs> {
        if self.has(layer, expert) {
            let i = choose|i: int|
                0 <= i < self.list().len() && (#[trigger] self.list()[i]).key() == (layer, expert);
            Some(self.list()[i].projs@)
        } else {
            None
        }
    }

    pub fn new() -> (g: Self)
        ensures
            g.wf(),
            g.keys() == Seq::<(usize, usize)>::empty(),
            forall|l: usize, e: usize| #[trigger] g.at(l, e) == None::<Projs>,
    {
        let g = ExpertGroups { entries: Vec::new() };
        assert(g.keys() =~= Seq::<(usize, usize)>::empty());
        g
    }

    pub proof fn lemma_at(&self, i: int)
        requires
            self.wf(),
            0 <= i < self.list().len(),
        ensures
            self.at(self.list()[i].layer, self.list()[i].expert) == Some(self.list()[i].projs@),
    {
        let e = self.list()[i];
        assert(self.list()[i].key() == (e.layer, e.expert));
    }

    /// Where the entry of a key is, or would be inserted.
    fn position(&self, layer: usize, expert: usize) -> (r: (usize, bool))
        requires
            self.wf(),
        ensures
            r.0 <= self.list().len(),
            r.1 == self.has(layer, expert),
            r.1 ==> r.0 < self.list().len() && self.list()[r.0 as int].key() == (layer, expert),
            !r.1 ==> forall|i: int|
                0 <= i < r.0 ==> key_before((#[trigger] self.list()[i]).key(), (layer, expert)),
            !r.1 ==> forall|i: int|
                r.0 <= i < self.list().len() ==> key_before(
                    (layer, expert),
                    (#[trigger] self.list()[i]).key(),
                ),
    {
        let mut lo: usize = 0;
        let mut hi: usize = self.entries.len();
        while lo < hi
            invariant
                self.wf(),
                lo <= hi <= self.entries.len(),
                forall|i: int|
                    0 <= i < lo ==> key_before(
                        (#[trigger] self.list()[i]).key(),
                        (layer, expert),
                    ),
                forall|i: int|
                    hi <= i < self.list().len() ==> key_before(
                        (layer, expert),
                        (#[trigger] self.list()[i]).key(),
                    ),
            decreases hi - lo,
        {
            let mid: usize = lo + (hi - lo) / 2;
            let l: usize = self.entries[mid].layer;
            let e: usize = self.entries[mid].expert;
            assert(self.list()[mid as int].key() == (l, e));
            if l == layer && e == expert {
                return (mid, true);
            }
            if l < layer || (l == layer && e < expert) {
                lo = mid + 1;
            } else {
                hi = mid;
            }
        }
        (lo, false)
    }

    /// Store `projs` under a key, in place of what was there.
    pub fn insert(&mut self, layer: usize, expert: usize, projs: ThreeProjs)
        requires
            old(self).wf(),
        ensures
            final(self).wf(),
            forall|l: usize, e: usize| #[trigger]
                final(self).at(l, e) == if (l, e) == (layer, expert) {
                    Some(projs@)
                } else {
                    old(self).at(l, e)
                },
    {
        let (i, found) = self.position(layer, expert);
        let entry = GroupEntry { layer, expert, projs };
        let ghost before = self.list();
        if found {
            self.entries[i] = entry;
            assert(self.list() == before.update(i as int, entry));
        } else {
            self.entries.insert(i, entry);
            assert(self.list() == before.insert(i as int, entry));
        }
        proof {
            assert(self.wf()) by {
                assert forall|a: int, b: int| 0 <= a < b < self.entries@.len() implies key_before(
                    (#[trigger] self.entries@[a]).key(),
                    (#[trigger] self.entries@[b]).key(),
                ) by {
                    if found {
                        let x = old(self).entries@[a];
                        let y = old(self).entries@[b];
                        assert(key_before(x.key(), y.key()));
                    } else {
                        if a != i && b != i {
                            let x = old(self).entries@[if a < i { a } else { a - 1 }];
                            let y = old(self).entries@[if b < i { b } else { b - 1 }];
                            assert(key_before(x.key(), y.key()));
                        } else if a == i {
                            assert(self.entries@[b] == before[b - 1]);
                        } else {
                            assert(self.entries@[a] == before[a]);
                        }
                    }
                }
            }
            self.lemma_at(i as int);
            assert forall|l: usize, e: usize| (l, e) != (layer, expert) implies #[trigger] self.at(
                l,
                e,
            ) == old(self).at(l, e) by {
                if old(self).has(l, e) {
                    let k = choose|k: int|
                        0 <= k < before.len() && (#[trigger] before[k]).key() == (l, e);
                    old(self).lemma_at(k);
                    let m = if found || k < i { k } else { k + 1 };
                    assert(self.list()[m] == before[k]);
                    self.lemma_at(m);
                }
                if self.has(l, e) {
                    let k = choose|k: int|
                        0 <= k < self.list().len() && (#[trigger] self.list()[k]).key() == (l, e);
                    let m = if found || k < i { k } else { k - 1 };
                    assert(before[m] == self.list()[k]);
                }
            }
        }
    }

    /// The number of entries.
    pub fn len(&self) -> (n: usize)
        ensures
            n == self.list().len(),
    {
        self.entries.len()
    }

    /// The `i`-th entry in key order.
    pub fn entry(&self, i: usize) -> (e: &GroupEntry)
        requires
            i < self.list().len(),
        ensures
            *e == self.list()[i as int],
    {
        &self.entries[i]
    }

    /// What is stored under a key.
    pub fn get(&self, layer: usize, expert: usize) -> (r: Option<&ThreeProjs>)
        requires
            self.wf(),
        ensures
            match self.at(layer, expert) {
                Some(p) => r matches Some(q) && q@ == p,
                None => r is None,
            },
    {
        let (i, found) = self.position(layer, expert);
        if found {
            proof {
                self.lemma_at(i as int);
            }
            Some(&self.entries[i].projs)
        } else {
            None
        }
    }
}

// ── Classification ───────────────────────────────────────────────────────────

/// What the tensors `ts` give for one expert: of the tensors with the same
/// projection the last one counts.
pub open spec fn grouped(ts: Seq<TensorInfo>, layer: usize, expert: usize) -> Option<Projs>
    decreases ts.len(),
{
    if ts.len() == 0 {
        None
    } else {
        let before = grouped(ts.drop_last(), layer, expert);
        match crate::extract::names::expert_tensor(ts.last().name@) {
            Some((l, e, p)) => if l == layer && e == expert {
                let found = match before {
                    Some(q) => q,
                    None => Projs::none(),
                };
                Some(found.with(p, ts.last().meta()))
            } else {
                before
            },
            None => before,
        }
    }
}

/// The names of the tensors that belong to no expert.
pub open spec fn dense_names(ts: Seq<TensorInfo>) -> Seq<Seq<char>>
    decreases ts.len(),
{
    if ts.len() == 0 {
        Seq::empty()
    } else {
        let before = dense_names(ts.drop_last());
        if crate::extract::names::expert_tensor(ts.last().name@) is None {
            before.push(ts.last().name@)
        } else {
            before
        }
    }
}

/// The highest layer of an expert tensor, 0 if there is none.
pub open spec fn highest_layer(ts: Seq<TensorInfo>) -> usize
    decreases ts.len(),
{
    if ts.len() == 0 {
        0
    } else {
        let before = highest_layer(ts.drop_last());
        match crate::extract::names::expert_tensor(ts.last().name@) {
            Some((l, _, _)) => if l > before {
                l
            } else {
                before
            },
            None => before,
        }
    }
}

/// The tensors of a model, sorted into experts and the rest.
pub struct Classified {
    pub groups: ExpertGroups,
    pub dense: Vec<String>,
    pub max_layer: usize,
}

/// Sort the tensors of a model into experts and the rest.
pub fn classify_tensors(tensors: &Vec<TensorInfo>) -> (c: Classified)
    ensures
        c.groups.wf(),
        forall|l: usize, e: usize| #[trigger] c.groups.at(l, e) == grouped(tensors@, l, e),
        c.dense@.map_values(|s: String| s@) == dense_names(tensors@),
        c.max_layer == highest_layer(tensors@),
{
    let mut groups = ExpertGroups::new();
    let mut dense: Vec<String> = Vec::new();
    let mut max_layer: usize = 0;
    let mut i: usize = 0;
    assert(tensors@.take(0) =~= Seq::<TensorInfo>::empty());
    assert(dense@.map_values(|s: String| s@) =~= dense_names(tensors@.take(0)));
    while i < tensors.len()
        invariant
            i <= tensors.len(),
            groups.wf(),
            forall|l: usize, e: usize| #[trigger]
                groups.at(l, e) == grouped(tensors@.take(i as int), l, e),
            dense@.map_values(|s: String| s@) == dense_names(tensors@.take(i as int)),
            max_layer == highest_layer(tensors@.take(i as int)),
        decreases tensors.len() - i,
    {
        let t = &tensors[i];
        let ghost upto = tensors@.take(i + 1);
        assert(upto.drop_last() =~= tensors@.take(i as int));
        assert(upto.last() == *t);
        match parse_tensor_name(t.name.as_str()) {
            Some((layer, expert, p)) => {
                if layer > max_layer {
                    max_layer = layer;
                }
                let mut projs = match groups.get(layer, expert) {
                    Some(q) => q.copy(),
                    None => ThreeProjs::none(),
                };
                projs.set(
                    p,
                    ProjMeta {
                        shape: vstd::slice::slice_to_vec(t.shape.as_slice()),
                        dtype: t.dtype,
                        offset: t.offset,
                    },
                );
                groups.insert(layer, expert, projs);
            },
            None => {
                let ghost before = dense@;
                dense.push(t.name.clone());
                assert(dense@.map_values(|s: String| s@) =~= before.map_values(
                    |s: String| s@,
                ).push(t.name@));
            },
        }
        i = i + 1;
    }
    assert(tensors@.take(tensors@.len() as int) =~= tensors@);
    Classified { groups, dense, max_layer }
}

// ── Laws ─────────────────────────────────────────────────────────────────────

/// The lists have the same keys in the same order, and hold the same matrices.
pub open spec fn same_entries(a: Seq<GroupEntry>, b: Seq<GroupEntry>) -> bool {
    &&& a.len() == b.len()
    &&& forall|i: int|
        0 <= i < a.len() ==> (#[trigger] a[i]).key() == b[i].key() && a[i].projs@ == b[i].projs@
}

/// What is stored under each key determines the groups: their keys in order,
/// and what each of them holds.
pub proof fn law_groups_determined(a: ExpertGroups, b: ExpertGroups)
    requires
        a.wf(),
        b.wf(),
        forall|l: usize, e: usize| #[trigger] a.at(l, e) == b.at(l, e),
    ensures
        a.keys() == b.keys(),
        same_entries(a.list(), b.list()),
{
    assert forall|k: (usize, usize)| #[trigger] a.keys().contains(k) == b.keys().contains(k) by {
        lemma_has_key(a, k);
        lemma_has_key(b, k);
        assert(a.at(k.0, k.1) == b.at(k.0, k.1));
    }
    lemma_climbing_equal(a.keys(), b.keys());
    assert(a.list().len() == a.keys().len() && b.list().len() == b.keys().len());
    assert forall|i: int| 0 <= i < a.list().len() implies (#[trigger] a.list()[i]).key()
        == b.list()[i].key() && a.list()[i].projs@ == b.list()[i].projs@ by {
        a.lemma_at(i);
        b.lemma_at(i);
        assert(a.keys()[i] == b.keys()[i]);
        assert(a.list()[i].key() == b.list()[i].key());
    }
}

proof fn lemma_has_key(g: ExpertGroups, k: (usize, usize))
    ensures
        g.keys().contains(k) == g.at(k.0, k.1) is Some,
{
    if g.has(k.0, k.1) {
        let i = choose|i: int| 0 <= i < g.list().len() && (#[trigger] g.list()[i]).key() == (
            k.0,
            k.1,
        );
        assert(g.keys()[i] == k);
    }
    if g.keys().contains(k) {
        let i = choose|i: int| 0 <= i < g.keys().len() && g.keys()[i] == k;
        assert(g.list()[i].key() == (k.0, k.1));
    }
}

/// The keys climb.
pub open spec fn climbing(keys: Seq<(usize, usize)>) -> bool {
    forall|i: int, j: int|
        0 <= i < j < keys.len() ==> key_before(#[trigger] keys[i], #[trigger] keys[j])
}

/// Climbing keys are determined by which keys they are.
proof fn lemma_climbing_equal(a: Seq<(usize, usize)>, b: Seq<(usize, usize)>)
    requires
        climbing(a),
        climbing(b),
        forall|k: (usize, usize)| #[trigger] a.contains(k) == b.contains(k),
    ensures
        a == b,
    decreases a.len() + b.len(),
{
    if a.len() == 0 {
        if b.len() > 0 {
            assert(b.contains(b[0]));
            assert(a.contains(b[0]));
        }
        assert(a =~= b);
    } else {
        let x = a[a.len() - 1];
        assert(a.contains(x));
        assert(b.contains(x));
        let y = b[b.len() - 1];
        assert(b.contains(y));
        assert(a.contains(y));
        let i = choose|i: int| 0 <= i < b.len() && b[i] == x;
        let j = choose|j: int| 0 <= j < a.len() && a[j] == y;
        if i < b.len() - 1 {
            assert(key_before(b[i], b[b.len() - 1]));
            if j < a.len() - 1 {
                assert(key_before(a[j], a[a.len() - 1]));
            }
        }
        assert(x == y);
        let (c, d) = (a.drop_last(), b.drop_last());
        assert forall|k: (usize, usize)| #[trigger] c.contains(k) == d.contains(k) by {
            if c.contains(k) {
                let n = choose|n: int| 0 <= n < c.len() && c[n] == k;
                assert(a[n] == k);
                assert(key_before(a[n], a[a.len() - 1]));
                assert(a.contains(k));
                let m = choose|m: int| 0 <= m < b.len() && b[m] == k;
                assert(d[m] == k);
            }
            if d.contains(k) {
                let n = choose|n: int| 0 <= n < d.len() && d[n] == k;
                assert(b[n] == k);
                assert(key_before(b[n], b[b.len() - 1]));
                assert(b.contains(k));
                assert(a.contains(k));
                let m = choose|m: int| 0 <= m < a.len() && a[m] == k;
                assert(c[m] == k);
            }
        }
        lemma_climbing_equal(c, d);
        assert(a =~= c.push(x));
        assert(b =~= d.push(y));
    }
}

/// What is found of an expert's matrices is kept as it stands.
pub proof fn law_views(t: ThreeProjs)
    ensures
        match t.gate {
            Some(m) => t@.gate == Some(
                Meta { shape: m.shape@, dtype: m.dtype, offset: m.offset },
            ),
            None => t@.gate is None,
        },
        match t.up {
            Some(m) => t@.up == Some(Meta { shape: m.shape@, dtype: m.dtype, offset: m.offset }),
            None => t@.up is None,
        },
        match t.down {
            Some(m) => t@.down == Some(
                Meta { shape: m.shape@, dtype: m.dtype, offset: m.offset },
            ),
            None => t@.down is None,
        },
{
}

/// The entries stand in the order of their layers, and those of a layer in the
/// order of their experts; no expert has two.
pub proof fn law_entries_climb(g: ExpertGroups, i: int, j: int)
    requires
        g.wf(),
        0 <= i < j < g.list().len(),
    ensures
        g.list()[i].layer < g.list()[j].layer || g.list()[i].layer == g.list()[j].layer
            && g.list()[i].expert < g.list()[j].expert,
{
    assert(key_before(g.entries@[i].key(), g.entries@[j].key()));
}

/// Looking an expert up gives its entry, and nothing where there is none.
pub proof fn law_looked_up(g: ExpertGroups, layer: usize, expert: usize)
    requires
        g.wf(),
    ensures
        forall|i: int|
            0 <= i < g.list().len() && (#[trigger] g.list()[i]).layer == layer && g.list()[i].expert
                == expert ==> g.at(layer, expert) == Some(g.list()[i].projs@),
        (forall|i: int|
            0 <= i < g.list().len() ==> (#[trigger] g.list()[i]).layer != layer
                || g.list()[i].expert != expert) ==> g.at(layer, expert) is None,
{
    assert forall|i: int|
        0 <= i < g.list().len() && (#[trigger] g.list()[i]).layer == layer && g.list()[i].expert
            == expert implies g.at(layer, expert) == Some(g.list()[i].projs@) by {
        g.lemma_at(i);
    }
}

/// The last tensor with an expert's projection gives that matrix: its shape,
/// its type and its position.
pub proof fn law_last_tensor_counts(
    ts: Seq<TensorInfo>,
    k: int,
    layer: usize,
    expert: usize,
    p: Projection,
)
    requires
        0 <= k < ts.len(),
        crate::extract::names::expert_tensor(ts[k].name@) == Some((layer, expert, p)),
        forall|j: int|
            k < j < ts.len() ==> crate::extract::names::expert_tensor((#[trigger] ts[j]).name@)
                != Some((layer, expert, p)),
    ensures
        ({
            let found = grouped(ts, layer, expert);
            let m = match p {
                Projection::Gate => found->0.gate,
                Projection::Up => found->0.up,
                Projection::Down => found->0.down,
            };
            &&& found is Some
            &&& m == Some(
                Meta { shape: ts[k].shape@, dtype: ts[k].dtype, offset: ts[k].offset },
            )
        }),
    decreases ts.len(),
{
    let before = ts.drop_last();
    assert(ts.last() == ts[ts.len() - 1]);
    if k < before.len() {
        assert(before[k] == ts[k]);
        assert forall|j: int| k < j < before.len() implies crate::extract::names::expert_tensor(
            (#[trigger] before[j]).name@,
        ) != Some((layer, expert, p)) by {
            assert(before[j] == ts[j]);
        }
        law_last_tensor_counts(before, k, layer, expert, p);
    }
}

/// A matrix that no tensor gives is not there.
pub proof fn law_absent_matrix(ts: Seq<TensorInfo>, layer: usize, expert: usize, p: Projection)
    requires
        forall|j: int|
            0 <= j < ts.len() ==> crate::extract::names::expert_tensor((#[trigger] ts[j]).name@)
                != Some((layer, expert, p)),
    ensures
        grouped(ts, layer, expert) matches Some(q) ==> match p {
            Projection::Gate => q.gate is None,
            Projection::Up => q.up is None,
            Projection::Down => q.down is None,
        },
    decreases ts.len(),
{
    if ts.len() > 0 {
        let before = ts.drop_last();
        assert(ts.last() == ts[ts.len() - 1]);
        assert forall|j: int| 0 <= j < before.len() implies crate::extract::names::expert_tensor(
            (#[trigger] before[j]).name@,
        ) != Some((layer, expert, p)) by {
            assert(before[j] == ts[j]);
        }
        law_absent_matrix(before, layer, expert, p);
    }
}

/// An expert without any tensor is not there.
pub proof fn law_absent_expert(ts: Seq<TensorInfo>, layer: usize, expert: usize)
    requires
        forall|j: int|
            0 <= j < ts.len() ==> (crate::extract::names::expert_tensor(
                (#[trigger] ts[j]).name@,
            ) matches Some((l, e, p)) ==> l != layer || e != expert),
    ensures
        grouped(ts, layer, expert) is None,
    decreases ts.len(),
{
    if ts.len() > 0 {
        let before = ts.drop_last();
        assert(ts.last() == ts[ts.len() - 1]);
        assert forall|j: int| 0 <= j < before.len() implies (crate::extract::names::expert_tensor(
            (#[trigger] before[j]).name@,
        ) matches Some((l, e, p)) ==> l != layer || e != expert) by {
            assert(before[j] == ts[j]);
        }
        law_absent_expert(before, layer, expert);
    }
}

/// The tensors that belong to no expert keep their order, each by its name; no
/// other is among them.
pub proof fn law_dense_names(a: Seq<TensorInfo>, b: Seq<TensorInfo>, t: TensorInfo)
    ensures
        dense_names(a + b) == dense_names(a) + dense_names(b),
        crate::extract::names::expert_tensor(t.name@) is None ==> dense_names(seq![t])
            == seq![t.name@],
        crate::extract::names::expert_tensor(t.name@) is Some ==> dense_names(seq![t]).len() == 0,
    decreases b.len(),
{
    reveal_with_fuel(dense_names, 2);
    assert(seq![t].drop_last() =~= Seq::<TensorInfo>::empty());
    assert(seq![t].last() == t);
    if b.len() == 0 {
        assert(a + b =~= a);
        assert(dense_names(a) + dense_names(b) =~= dense_names(a));
    } else {
        law_dense_names(a, b.drop_last(), t);
        assert((a + b).drop_last() =~= a + b.drop_last());
        assert((a + b).last() == b.last());
        assert(dense_names(a + b) =~= dense_names(a) + dense_names(b));
    }
}

/// No expert tensor has a layer above the highest one, which is that of some
/// expert tensor unless it is 0: `k` is its index.
pub proof fn law_highest_layer(ts: Seq<TensorInfo>) -> (k: int)
    ensures
        forall|j: int|
            0 <= j < ts.len() ==> (crate::extract::names::expert_tensor(
                (#[trigger] ts[j]).name@,
            ) matches Some((l, e, p)) ==> l <= highest_layer(ts)),
        highest_layer(ts) > 0 ==> {
            &&& 0 <= k < ts.len()
            &&& crate::extract::names::expert_tensor(ts[k].name@) matches Some((l, e, p))
            &&& l == highest_layer(ts)
        },
    decreases ts.len(),
{
    if ts.len() == 0 {
        0
    } else {
        let before = ts.drop_last();
        let n = ts.len() - 1;
        assert(ts.last() == ts[n]);
        let k = law_highest_layer(before);
        assert forall|j: int| 0 <= j < ts.len() implies (crate::extract::names::expert_tensor(
            (#[trigger] ts[j]).name@,
        ) matches Some((l, e, p)) ==> l <= highest_layer(ts)) by {
            if j < n {
                assert(before[j] == ts[j]);
            }
        }
        if highest_layer(ts) > highest_layer(before) {
            n
        } else {
            if highest_layer(ts) > 0 {
                assert(before[k] == ts[k]);
            }
            k
        }
    }
}

/// A matrix of an expert is that of one of the expert's tensors, the `k`-th.
pub proof fn law_matrix_has_tensor(
    ts: Seq<TensorInfo>,
    layer: usize,
    expert: usize,
    p: Projection,
) -> (k: int)
    requires
        grouped(ts, layer, expert) is Some,
        match p {
            Projection::Gate => grouped(ts, layer, expert)->0.gate is Some,
            Projection::Up => grouped(ts, layer, expert)->0.up is Some,
            Projection::Down => grouped(ts, layer, expert)->0.down is Some,
        },
    ensures
        0 <= k < ts.len(),
        crate::extract::names::expert_tensor(ts[k].name@) == Some((layer, expert, p)),
        ({
            let q = grouped(ts, layer, expert)->0;
            let m = match p {
                Projection::Gate => q.gate,
                Projection::Up => q.up,
                Projection::Down => q.down,
            };
            m->0.shape == ts[k].shape@ && m->0.dtype == ts[k].dtype && m->0.offset == ts[k].offset
        }),
    decreases ts.len(),
{
    let before = ts.drop_last();
    let n = ts.len() - 1;
    assert(ts.last() == ts[n]);
    if crate::extract::names::expert_tensor(ts[n].name@) == Some((layer, expert, p)) {
        n
    } else {
        let k = law_matrix_has_tensor(before, layer, expert, p);
        assert(before[k] == ts[k]);
        k
    }
}

} // verus!

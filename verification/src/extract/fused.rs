//! Splitting of fused expert tensors.
//!
//! Some models store all experts of a layer in one tensor of the shape
//! `[num_experts, rows, cols]`. Such a tensor is split into one matrix per
//! expert; the matrices follow one another at a fixed stride.

use crate::extract::ggml::TensorType;
use crate::extract::groups::{copy_meta, ExpertGroups, GroupEntry, Meta, ProjMeta, Projs, ThreeProjs};
use vstd::prelude::*;

verus! {

/// The number of elements of a tensor.
pub open spec fn elements(shape: Seq<usize>) -> nat
    decreases shape.len(),
{
    if shape.len() == 0 {
        1
    } else {
        elements(shape.drop_last()) * shape.last() as nat
    }
}

/// The element count can be multiplied up without overflow.
pub open spec fn elements_fit(shape: Seq<usize>) -> bool {
    forall|n: int| 0 <= n <= shape.len() ==> elements(#[trigger] shape.take(n)) <= usize::MAX
}

/// The bytes that `elems` elements take: whole blocks only.
pub open spec fn data_bytes(dtype: TensorType, elems: nat) -> nat {
    elems / dtype.block_elems() as nat * dtype.block_bytes() as nat
}

/// The size of a tensor can be computed without overflow.
pub open spec fn size_fits(dtype: TensorType, shape: Seq<usize>) -> bool {
    elements_fit(shape) && data_bytes(dtype, elements(shape)) <= usize::MAX
}

/// The number of elements of a tensor, unless it overflows.
pub fn element_count(shape: &[usize]) -> (r: Option<usize>)
    ensures
        r == if elements_fit(shape@) {
            Some(elements(shape@) as usize)
        } else {
            None
        },
{
    let mut n: usize = 1;
    let mut i: usize = 0;
    assert(shape@.take(0) =~= Seq::<usize>::empty());
    while i < shape.len()
        invariant
            i <= shape.len(),
            n == elements(shape@.take(i as int)),
            forall|k: int| 0 <= k <= i ==> elements(#[trigger] shape@.take(k)) <= usize::MAX,
        decreases shape.len() - i,
    {
        let ghost next = shape@.take(i + 1);
        assert(next.drop_last() =~= shape@.take(i as int));
        assert(elements(next) == n * shape[i as int]);
        match n.checked_mul(shape[i]) {
            Some(m) => {
                n = m;
            },
            None => {
                assert(elements(shape@.take(i + 1)) > usize::MAX);
                return None;
            },
        }
        i = i + 1;
    }
    assert(shape@.take(shape@.len() as int) =~= shape@);
    Some(n)
}

/// The bytes that `elems` elements take, unless the number overflows.
pub fn raw_tensor_len(dtype: TensorType, elems: usize) -> (r: Option<usize>)
    ensures
        r == if data_bytes(dtype, elems as nat) <= usize::MAX {
            Some(data_bytes(dtype, elems as nat) as usize)
        } else {
            None
        },
{
    let block = dtype.block_size();
    (elems / block).checked_mul(dtype.type_size())
}

/// The size of a tensor in bytes, unless it overflows.
pub fn tensor_len(dtype: TensorType, shape: &[usize]) -> (r: Option<usize>)
    ensures
        r == if size_fits(dtype, shape@) {
            Some(data_bytes(dtype, elements(shape@)) as usize)
        } else {
            None
        },
{
    proof {
        assert(shape@.take(shape@.len() as int) =~= shape@);
    }
    match element_count(shape) {
        Some(n) => raw_tensor_len(dtype, n),
        None => None,
    }
}

// ── The split ────────────────────────────────────────────────────────────────

/// Whether a matrix comes from a fused tensor.
pub open spec fn is_fused(m: Option<Meta>) -> bool {
    m matches Some(x) && x.shape.len() == 3
}

pub open spec fn any_fused(p: Projs) -> bool {
    is_fused(p.gate) || is_fused(p.up) || is_fused(p.down)
}

/// How many experts the first fused matrix holds.
pub open spec fn fused_count(p: Projs) -> usize {
    if is_fused(p.gate) {
        p.gate->0.shape[0]
    } else if is_fused(p.up) {
        p.up->0.shape[0]
    } else {
        p.down->0.shape[0]
    }
}

/// The distance in bytes from one expert's matrix to the next.
pub open spec fn stride(m: Meta) -> nat {
    data_bytes(m.dtype, elements(m.shape.skip(1)))
}

/// Expert `i`'s share of a matrix: its slice of a fused one, else the matrix
/// itself.
pub open spec fn share(m: Option<Meta>, i: usize) -> Option<Meta> {
    if is_fused(m) {
        Some(
            Meta {
                shape: m->0.shape.skip(1),
                dtype: m->0.dtype,
                offset: (m->0.offset + i * stride(m->0)) as u64,
            },
        )
    } else {
        m
    }
}

/// Expert `i`'s matrices from a group that holds a fused one.
pub open spec fn shares(p: Projs, i: usize) -> Projs {
    Projs { gate: share(p.gate, i), up: share(p.up, i), down: share(p.down, i) }
}

/// Expert `i`'s matrices in `layer`, from the last group of `list` that holds a
/// fused matrix of at least `i + 1` experts.
pub open spec fn fused_share(list: Seq<GroupEntry>, layer: usize, i: usize) -> Option<Projs>
    decreases list.len(),
{
    if list.len() == 0 {
        None
    } else {
        let g = list.last();
        if g.layer == layer && any_fused(g.projs@) && i < fused_count(g.projs@) {
            Some(shares(g.projs@, i))
        } else {
            fused_share(list.drop_last(), layer, i)
        }
    }
}

/// The group of `list` stored under `layer` and `i`, if it holds no fused
/// matrix.
pub open spec fn own_group(list: Seq<GroupEntry>, layer: usize, i: usize) -> Option<Projs>
    decreases list.len(),
{
    if list.len() == 0 {
        None
    } else {
        let g = list.last();
        if g.layer == layer && g.expert == i && !any_fused(g.projs@) {
            Some(g.projs@)
        } else {
            own_group(list.drop_last(), layer, i)
        }
    }
}

/// Expert `i`'s matrices in `layer`, from the groups `list`: its share of a
/// fused group, else its own group.
pub open spec fn expansion(list: Seq<GroupEntry>, layer: usize, i: usize) -> Option<Projs> {
    match fused_share(list, layer, i) {
        Some(p) => Some(p),
        None => own_group(list, layer, i),
    }
}

/// Expert `i`'s share of a matrix can be located without overflow.
pub open spec fn share_fits(m: Option<Meta>, i: usize) -> bool {
    is_fused(m) ==> size_fits(m->0.dtype, m->0.shape.skip(1)) && m->0.offset + i * stride(m->0)
        <= u64::MAX
}

pub open spec fn shares_fit(p: Projs) -> bool {
    any_fused(p) ==> forall|i: usize|
        #![trigger share_fits(p.gate, i)]
        #![trigger share_fits(p.up, i)]
        #![trigger share_fits(p.down, i)]
        i < fused_count(p) ==> share_fits(p.gate, i) && share_fits(p.up, i) && share_fits(
            p.down,
            i,
        )
}

/// Every group can be split without overflow.
pub open spec fn expansion_fits(list: Seq<GroupEntry>) -> bool {
    forall|k: int| 0 <= k < list.len() ==> shares_fit((#[trigger] list[k]).projs@)
}

fn fused(m: &Option<ProjMeta>) -> (b: bool)
    ensures
        b == is_fused(crate::extract::groups::meta_view(*m)),
{
    match m {
        Some(x) => x.shape.len() == 3,
        None => false,
    }
}

fn take_share(m: &Option<ProjMeta>, i: usize) -> (r: Option<Option<ProjMeta>>)
    ensures
        r is Some <==> share_fits(crate::extract::groups::meta_view(*m), i),
        r matches Some(x) ==> crate::extract::groups::meta_view(x) == share(
            crate::extract::groups::meta_view(*m),
            i,
        ),
{
    match m {
        Some(x) => {
            if x.shape.len() != 3 {
                return Some(copy_meta(m));
            }
            let rest = vstd::slice::slice_subrange(x.shape.as_slice(), 1, 3);
            assert(rest@ =~= x@.shape.skip(1));
            let len: usize = match tensor_len(x.dtype, rest) {
                Some(n) => n,
                None => {
                    return None;
                },
            };
            let distance: u64 = match (i as u64).checked_mul(len as u64) {
                Some(d) => d,
                None => {
                    return None;
                },
            };
            match x.offset.checked_add(distance) {
                Some(offset) => Some(
                    Some(
                        ProjMeta {
                            shape: vstd::slice::slice_to_vec(rest),
                            dtype: x.dtype,
                            offset,
                        },
                    ),
                ),
                None => None,
            }
        },
        None => Some(None),
    }
}

/// Split every fused group into one group per expert. The groups of the other
/// experts are kept as they are. `None` if a size or a position overflows.
pub fn expand_fused(groups: &ExpertGroups) -> (r: Option<ExpertGroups>)
    requires
        groups.wf(),
    ensures
        r is Some <==> expansion_fits(groups.list()),
        r matches Some(g) ==> {
            &&& g.wf()
            &&& forall|l: usize, i: usize| #[trigger]
                g.at(l, i) == expansion(groups.list(), l, i)
        },
{
    let mut out = own_groups(groups);
    let ghost list = groups.list();
    let mut k: usize = 0;
    assert(list.take(0) =~= Seq::empty());
    while k < groups.len()
        invariant
            list == groups.list(),
            k <= list.len(),
            out.wf(),
            forall|l: usize, i: usize| #[trigger]
                out.at(l, i) == match fused_share(list.take(k as int), l, i) {
                    Some(p) => Some(p),
                    None => own_group(list, l, i),
                },
            forall|j: int| 0 <= j < k ==> shares_fit((#[trigger] list[j]).projs@),
        decreases list.len() - k,
    {
        let entry = groups.entry(k);
        let ghost p = entry.projs@;
        let ghost upto = list.take(k + 1);
        assert(upto.drop_last() =~= list.take(k as int));
        assert(upto.last() == *entry);
        let gate_fused = fused(&entry.projs.gate);
        let up_fused = fused(&entry.projs.up);
        let down_fused = fused(&entry.projs.down);
        if gate_fused || up_fused || down_fused {
            let first: &Option<ProjMeta> = if gate_fused {
                &entry.projs.gate
            } else if up_fused {
                &entry.projs.up
            } else {
                &entry.projs.down
            };
            let count: usize = match first {
                Some(m) => m.shape[0],
                None => 0,
            };
            let mut i: usize = 0;
            while i < count
                invariant
                    list == groups.list(),
                    k < list.len(),
                    *entry == list[k as int],
                    p == entry.projs@,
                    any_fused(p),
                    count == fused_count(p),
                    i <= count,
                    out.wf(),
                    forall|l: usize, j: usize| #[trigger]
                        out.at(l, j) == if l == entry.layer && j < i {
                            Some(shares(p, j))
                        } else {
                            match fused_share(list.take(k as int), l, j) {
                                Some(q) => Some(q),
                                None => own_group(list, l, j),
                            }
                        },
                    forall|j: usize|
                        #![trigger share_fits(p.gate, j)]
                        #![trigger share_fits(p.up, j)]
                        #![trigger share_fits(p.down, j)]
                        j < i ==> share_fits(p.gate, j) && share_fits(p.up, j) && share_fits(
                            p.down,
                            j,
                        ),
                decreases count - i,
            {
                let gate = match take_share(&entry.projs.gate, i) {
                    Some(m) => m,
                    None => {
                        assert(!shares_fit(list[k as int].projs@));
                        return None;
                    },
                };
                let up = match take_share(&entry.projs.up, i) {
                    Some(m) => m,
                    None => {
                        assert(!shares_fit(list[k as int].projs@));
                        return None;
                    },
                };
                let down = match take_share(&entry.projs.down, i) {
                    Some(m) => m,
                    None => {
                        assert(!shares_fit(list[k as int].projs@));
                        return None;
                    },
                };
                let projs = ThreeProjs { gate, up, down };
                assert(projs@ == shares(p, i));
                out.insert(entry.layer, i, projs);
                i = i + 1;
            }
            assert(shares_fit(p));
        }
        k = k + 1;
    }
    assert(list.take(list.len() as int) =~= list);
    Some(out)
}

/// The groups that hold no fused matrix.
fn own_groups(groups: &ExpertGroups) -> (out: ExpertGroups)
    requires
        groups.wf(),
    ensures
        out.wf(),
        forall|l: usize, i: usize| #[trigger] out.at(l, i) == own_group(groups.list(), l, i),
{
    let mut out = ExpertGroups::new();
    let ghost list = groups.list();
    let mut k: usize = 0;
    assert(list.take(0) =~= Seq::empty());
    while k < groups.len()
        invariant
            list == groups.list(),
            k <= list.len(),
            out.wf(),
            forall|l: usize, i: usize| #[trigger]
                out.at(l, i) == own_group(list.take(k as int), l, i),
        decreases list.len() - k,
    {
        let entry = groups.entry(k);
        let ghost upto = list.take(k + 1);
        assert(upto.drop_last() =~= list.take(k as int));
        assert(upto.last() == *entry);
        let projs = &entry.projs;
        if !fused(&projs.gate) && !fused(&projs.up) && !fused(&projs.down) {
            out.insert(entry.layer, entry.expert, projs.copy());
        }
        k = k + 1;
    }
    assert(list.take(list.len() as int) =~= list);
    out
}

// ── Laws ─────────────────────────────────────────────────────────────────────

/// A model without fused tensors keeps its experts as they are.
pub proof fn law_unfused_kept(g: ExpertGroups)
    requires
        g.wf(),
        forall|k: int| 0 <= k < g.list().len() ==> !any_fused((#[trigger] g.list()[k]).projs@),
    ensures
        expansion_fits(g.list()),
        forall|l: usize, i: usize| #[trigger] expansion(g.list(), l, i) == g.at(l, i),
{
    assert forall|l: usize, i: usize| #[trigger] expansion(g.list(), l, i) == g.at(l, i) by {
        lemma_own_group(g, g.list().len() as int, l, i);
        assert(g.list().take(g.list().len() as int) =~= g.list());
        if let Some(p) = own_group(g.list(), l, i) {
            let k = choose|k: int|
                0 <= k < g.list().len() && (#[trigger] g.list()[k]).key() == (l, i) && p
                    == g.list()[k].projs@;
            g.lemma_at(k);
        }
    }
}

proof fn lemma_own_group(g: ExpertGroups, n: int, l: usize, i: usize)
    requires
        g.wf(),
        0 <= n <= g.list().len(),
        forall|k: int| 0 <= k < g.list().len() ==> !any_fused((#[trigger] g.list()[k]).projs@),
    ensures
        fused_share(g.list().take(n), l, i) is None,
        match own_group(g.list().take(n), l, i) {
            Some(p) => exists|k: int|
                0 <= k < n && (#[trigger] g.list()[k]).key() == (l, i) && p == g.list()[k].projs@,
            None => forall|k: int| 0 <= k < n ==> (#[trigger] g.list()[k]).key() != (l, i),
        },
    decreases n,
{
    if n > 0 {
        let upto = g.list().take(n);
        assert(upto.drop_last() =~= g.list().take(n - 1));
        assert(upto.last() == g.list()[n - 1]);
        lemma_own_group(g, n - 1, l, i);
    }
}

/// Where a layer has a fused group, each of its experts gets its share of that
/// group, whatever else the layer has for the expert.
pub proof fn law_fused_first(list: Seq<GroupEntry>, k: int, i: usize)
    requires
        0 <= k < list.len(),
        any_fused(list[k].projs@),
        i < fused_count(list[k].projs@),
        forall|j: int|
            0 <= j < list.len() && j != k && any_fused((#[trigger] list[j]).projs@)
                ==> list[j].layer != list[k].layer,
    ensures
        expansion(list, list[k].layer, i) == Some(shares(list[k].projs@, i)),
    decreases list.len(),
{
    let rest = list.drop_last();
    if k < rest.len() {
        assert(rest[k] == list[k]);
        assert forall|j: int|
            0 <= j < rest.len() && j != k && any_fused((#[trigger] rest[j]).projs@) implies rest[j].layer
            != rest[k].layer by {
            assert(rest[j] == list[j]);
        }
        law_fused_first(rest, k, i);
        lemma_share_of(rest, k, i);
        assert(list.last() == list[list.len() - 1]);
    }
}

/// With a fused group in the layer, the share is what the expert gets.
proof fn lemma_share_of(list: Seq<GroupEntry>, k: int, i: usize)
    requires
        0 <= k < list.len(),
        any_fused(list[k].projs@),
        i < fused_count(list[k].projs@),
    ensures
        fused_share(list, list[k].layer, i) is Some,
    decreases list.len(),
{
    let rest = list.drop_last();
    if k < rest.len() {
        assert(rest[k] == list[k]);
        lemma_share_of(rest, k, i);
    }
}

/// The slices of a fused matrix lie one behind the other: each ends where the
/// next one starts.
pub proof fn law_slices_adjacent(m: Meta, i: usize)
    requires
        m.shape.len() == 3,
        i < usize::MAX,
        share_fits(Some(m), (i + 1) as usize),
    ensures
        share(Some(m), 0)->0.offset == m.offset,
        share(Some(m), (i + 1) as usize)->0.offset == share(Some(m), i)->0.offset + stride(m),
        share(Some(m), i)->0.shape == m.shape.skip(1),
{
    let s = stride(m) as int;
    assert((i + 1) * s == i * s + s && i * s >= 0) by (nonlinear_arith)
        requires
            s >= 0,
            i >= 0,
    ;
    assert(0 * s == 0) by (nonlinear_arith);
}

/// The split goes by what the groups hold.
pub proof fn lemma_expansion_same(a: Seq<GroupEntry>, b: Seq<GroupEntry>)
    requires
        crate::extract::groups::same_entries(a, b),
    ensures
        expansion_fits(a) == expansion_fits(b),
        forall|l: usize, i: usize| #[trigger] expansion(a, l, i) == expansion(b, l, i),
{
    if expansion_fits(a) {
        assert forall|k: int| 0 <= k < b.len() implies shares_fit((#[trigger] b[k]).projs@) by {
            assert(shares_fit(a[k].projs@));
        }
    }
    if expansion_fits(b) {
        assert forall|k: int| 0 <= k < a.len() implies shares_fit((#[trigger] a[k]).projs@) by {
            assert(shares_fit(b[k].projs@));
        }
    }
    assert forall|l: usize, i: usize| #[trigger] expansion(a, l, i) == expansion(b, l, i) by {
        lemma_expansion_at(a, b, l, i);
    }
}

proof fn lemma_expansion_at(a: Seq<GroupEntry>, b: Seq<GroupEntry>, l: usize, i: usize)
    requires
        crate::extract::groups::same_entries(a, b),
    ensures
        fused_share(a, l, i) == fused_share(b, l, i),
        own_group(a, l, i) == own_group(b, l, i),
    decreases a.len(),
{
    if a.len() > 0 {
        let (c, d) = (a.drop_last(), b.drop_last());
        assert forall|k: int| 0 <= k < c.len() implies (#[trigger] c[k]).key() == d[k].key()
            && c[k].projs@ == d[k].projs@ by {
            assert(a[k].key() == b[k].key());
        }
        lemma_expansion_at(c, d, l, i);
        assert(a[a.len() - 1].key() == b[b.len() - 1].key());
    }
}

/// A tensor without dimensions has one element, one with a single dimension as
/// many as that; dimensions that follow one another multiply.
pub proof fn law_elements(a: Seq<usize>, b: Seq<usize>, n: usize)
    ensures
        elements(Seq::<usize>::empty()) == 1,
        elements(seq![n]) == n,
        elements(a + b) == elements(a) * elements(b),
    decreases b.len(),
{
    reveal_with_fuel(elements, 2);
    assert(seq![n].drop_last() =~= Seq::<usize>::empty());
    if b.len() == 0 {
        assert(a + b =~= a);
        assert(elements(a) * 1 == elements(a)) by (nonlinear_arith);
    } else {
        law_elements(a, b.drop_last(), n);
        assert((a + b).drop_last() =~= a + b.drop_last());
        assert((a + b).last() == b.last());
        let (x, y, z) = (elements(a), elements(b.drop_last()), b.last() as nat);
        assert((x * y) * z == x * (y * z)) by (nonlinear_arith);
    }
}

/// The element count is refused exactly where it gets too large on the way, one
/// dimension after the other.
pub proof fn law_elements_fit(shape: Seq<usize>, n: usize)
    ensures
        elements_fit(Seq::<usize>::empty()),
        elements_fit(shape.push(n)) <==> elements_fit(shape) && elements(shape) * n <= usize::MAX,
{
    let s = shape.push(n);
    assert forall|k: int| 0 <= k <= shape.len() implies #[trigger] s.take(k) =~= shape.take(k) by {}
    assert(s.take(s.len() as int) =~= s);
    assert(s.drop_last() =~= shape);
    assert(shape.take(shape.len() as int) =~= shape);
    if elements_fit(s) {
        assert forall|k: int| 0 <= k <= shape.len() implies elements(#[trigger] shape.take(k))
            <= usize::MAX by {
            assert(s.take(k) =~= shape.take(k));
        }
        assert(elements(s.take(s.len() as int)) <= usize::MAX);
    }
    if elements_fit(shape) && elements(shape) * n <= usize::MAX {
        assert forall|k: int| 0 <= k <= s.len() implies elements(#[trigger] s.take(k))
            <= usize::MAX by {
            if k < s.len() {
                assert(s.take(k) =~= shape.take(k));
            }
        }
    }
    let e = Seq::<usize>::empty();
    assert forall|k: int| 0 <= k <= e.len() implies elements(#[trigger] e.take(k)) <= usize::MAX by {
        assert(e.take(k) =~= e);
    }
}

/// The bytes of `blocks` whole blocks and `rest` elements more, which take no
/// room.
pub proof fn law_data_bytes(blocks: nat, rest: nat)
    ensures
        data_bytes(TensorType::F32, blocks) == 4 * blocks,
        data_bytes(TensorType::F16, blocks) == 2 * blocks,
        data_bytes(TensorType::BF16, blocks) == 2 * blocks,
        rest < 32 ==> {
            let n = 32 * blocks + rest;
            &&& data_bytes(TensorType::Q4_0, n) == 18 * blocks
            &&& data_bytes(TensorType::Q4_1, n) == 20 * blocks
            &&& data_bytes(TensorType::Q5_0, n) == 22 * blocks
            &&& data_bytes(TensorType::Q5_1, n) == 24 * blocks
            &&& data_bytes(TensorType::Q8_0, n) == 34 * blocks
            &&& data_bytes(TensorType::Q8_1, n) == 36 * blocks
        },
        rest < 256 ==> {
            let n = 256 * blocks + rest;
            &&& data_bytes(TensorType::Q2K, n) == 84 * blocks
            &&& data_bytes(TensorType::Q3K, n) == 110 * blocks
            &&& data_bytes(TensorType::Q4K, n) == 144 * blocks
            &&& data_bytes(TensorType::Q5K, n) == 176 * blocks
            &&& data_bytes(TensorType::Q6K, n) == 210 * blocks
            &&& data_bytes(TensorType::Q8K, n) == 292 * blocks
        },
{
    lemma_whole_blocks(TensorType::F32, blocks, 0, 1, 4);
    lemma_whole_blocks(TensorType::F16, blocks, 0, 1, 2);
    lemma_whole_blocks(TensorType::BF16, blocks, 0, 1, 2);
    if rest < 32 {
        lemma_whole_blocks(TensorType::Q4_0, blocks, rest, 32, 18);
        lemma_whole_blocks(TensorType::Q4_1, blocks, rest, 32, 20);
        lemma_whole_blocks(TensorType::Q5_0, blocks, rest, 32, 22);
        lemma_whole_blocks(TensorType::Q5_1, blocks, rest, 32, 24);
        lemma_whole_blocks(TensorType::Q8_0, blocks, rest, 32, 34);
        lemma_whole_blocks(TensorType::Q8_1, blocks, rest, 32, 36);
    }
    if rest < 256 {
        lemma_whole_blocks(TensorType::Q2K, blocks, rest, 256, 84);
        lemma_whole_blocks(TensorType::Q3K, blocks, rest, 256, 110);
        lemma_whole_blocks(TensorType::Q4K, blocks, rest, 256, 144);
        lemma_whole_blocks(TensorType::Q5K, blocks, rest, 256, 176);
        lemma_whole_blocks(TensorType::Q6K, blocks, rest, 256, 210);
        lemma_whole_blocks(TensorType::Q8K, blocks, rest, 256, 292);
    }
}

proof fn lemma_whole_blocks(t: TensorType, blocks: nat, rest: nat, size: nat, bytes: nat)
    requires
        t.block_elems() == size,
        t.block_bytes() == bytes,
        rest < size,
    ensures
        data_bytes(t, size * blocks + rest) == bytes * blocks,
{
    let n = size * blocks + rest;
    vstd::arithmetic::div_mod::lemma_fundamental_div_mod_converse(
        n as int,
        size as int,
        blocks as int,
        rest as int,
    );
    assert(blocks * bytes == bytes * blocks) by (nonlinear_arith);
}

/// The size of a tensor is refused exactly where its elements cannot be counted
/// or their bytes are too many.
pub proof fn law_size_fits(dtype: TensorType, shape: Seq<usize>)
    ensures
        size_fits(dtype, shape) <==> elements_fit(shape) && data_bytes(dtype, elements(shape))
            <= usize::MAX,
{
}

/// Expert `i`'s share of a fused matrix of `n` experts, each with `rows` rows of
/// `cols` columns: a matrix of that size and of the same type, which starts
/// behind those of the `i` experts before it. Any other matrix is shared as it
/// is.
pub proof fn law_share(m: Meta, n: usize, rows: usize, cols: usize, i: usize)
    ensures
        m.shape == seq![n, rows, cols] ==> {
            let bytes = data_bytes(m.dtype, (rows * cols) as nat);
            &&& share_fits(Some(m), i) <==> rows * cols <= usize::MAX && bytes <= usize::MAX
                && m.offset + i * bytes <= u64::MAX
            &&& share_fits(Some(m), i) ==> {
                &&& share(Some(m), i) matches Some(s)
                &&& s.shape == seq![rows, cols]
                &&& s.dtype == m.dtype
                &&& s.offset == m.offset + i * bytes
            }
        },
        m.shape.len() != 3 ==> share_fits(Some(m), i) && share(Some(m), i) == Some(m),
        share_fits(None, i) && share(None, i) is None,
{
    if m.shape == seq![n, rows, cols] {
        let rest = m.shape.skip(1);
        let none = Seq::<usize>::empty();
        assert(rest =~= seq![rows, cols]);
        assert(rest =~= none.push(rows).push(cols));
        assert(none.push(rows) =~= seq![rows]);
        assert(seq![rows] + seq![cols] =~= rest);
        law_elements(seq![rows], seq![cols], rows);
        law_elements(none, none, cols);
        law_elements_fit(none, rows);
        law_elements_fit(seq![rows], cols);
        let r = elements(none) * rows;
        assert(r == rows) by (nonlinear_arith)
            requires
                r == elements(none) * rows,
                elements(none) == 1,
        ;
    }
}

/// A group is split exactly where one of its matrices has three dimensions, into
/// as many experts as the first such matrix says; every expert gets its share
/// of each matrix.
pub proof fn law_fused_group(p: Projs, i: usize)
    ensures
        any_fused(p) <==> {
            ||| p.gate matches Some(m) && m.shape.len() == 3
            ||| p.up matches Some(m) && m.shape.len() == 3
            ||| p.down matches Some(m) && m.shape.len() == 3
        },
        (p.gate matches Some(m) && m.shape.len() == 3) ==> fused_count(p) == p.gate->0.shape[0],
        !(p.gate matches Some(m) && m.shape.len() == 3) && (p.up matches Some(m) && m.shape.len()
            == 3) ==> fused_count(p) == p.up->0.shape[0],
        !(p.gate matches Some(m) && m.shape.len() == 3) && !(p.up matches Some(m)
            && m.shape.len() == 3) && (p.down matches Some(m) && m.shape.len() == 3) ==> fused_count(
            p,
        ) == p.down->0.shape[0],
        shares(p, i).gate == share(p.gate, i),
        shares(p, i).up == share(p.up, i),
        shares(p, i).down == share(p.down, i),
{
}

/// Of the fused groups of a layer that hold an expert, the last one gives it
/// its matrices.
pub proof fn law_last_fused_counts(list: Seq<GroupEntry>, k: int, i: usize)
    requires
        0 <= k < list.len(),
        any_fused(list[k].projs@),
        i < fused_count(list[k].projs@),
        forall|j: int|
            k < j < list.len() && (#[trigger] list[j]).layer == list[k].layer && any_fused(
                list[j].projs@,
            ) ==> i >= fused_count(list[j].projs@),
    ensures
        expansion(list, list[k].layer, i) == Some(shares(list[k].projs@, i)),
    decreases list.len(),
{
    let rest = list.drop_last();
    assert(list.last() == list[list.len() - 1]);
    if k < rest.len() {
        assert(rest[k] == list[k]);
        assert forall|j: int|
            k < j < rest.len() && (#[trigger] rest[j]).layer == rest[k].layer && any_fused(
                rest[j].projs@,
            ) implies i >= fused_count(rest[j].projs@) by {
            assert(rest[j] == list[j]);
        }
        law_last_fused_counts(rest, k, i);
        lemma_share_of(rest, k, i);
    }
}

/// An expert that no fused group holds keeps its own group, and has none where
/// there is no such group.
pub proof fn law_own_group_kept(list: Seq<GroupEntry>, layer: usize, i: usize)
    requires
        forall|j: int|
            0 <= j < list.len() && (#[trigger] list[j]).layer == layer && any_fused(list[j].projs@)
                ==> i >= fused_count(list[j].projs@),
        forall|j: int, k: int|
            0 <= j < k < list.len() ==> (#[trigger] list[j]).layer != (#[trigger] list[k]).layer
                || list[j].expert != list[k].expert,
    ensures
        forall|k: int|
            0 <= k < list.len() && (#[trigger] list[k]).layer == layer && list[k].expert == i
                && !any_fused(list[k].projs@) ==> expansion(list, layer, i) == Some(list[k].projs@),
        (forall|k: int|
            0 <= k < list.len() ==> (#[trigger] list[k]).layer != layer || list[k].expert != i
                || any_fused(list[k].projs@)) ==> expansion(list, layer, i) is None,
    decreases list.len(),
{
    if list.len() > 0 {
        let rest = list.drop_last();
        let n = list.len() - 1;
        assert(list.last() == list[n]);
        assert forall|j: int| 0 <= j < rest.len() implies #[trigger] rest[j] == list[j] by {}
        law_own_group_kept(rest, layer, i);
        lemma_no_share(list, layer, i);
        lemma_no_share(rest, layer, i);
        assert forall|k: int|
            0 <= k < list.len() && (#[trigger] list[k]).layer == layer && list[k].expert == i
                && !any_fused(list[k].projs@) implies expansion(list, layer, i) == Some(
            list[k].projs@,
        ) by {
            if k < n {
                assert(rest[k] == list[k]);
                assert(list[k].layer != list[n].layer || list[k].expert != list[n].expert);
            }
        }
        if forall|k: int|
            0 <= k < list.len() ==> (#[trigger] list[k]).layer != layer || list[k].expert != i
                || any_fused(list[k].projs@) {
            assert forall|k: int| 0 <= k < rest.len() implies (#[trigger] rest[k]).layer != layer
                || rest[k].expert != i || any_fused(rest[k].projs@) by {
                assert(rest[k] == list[k]);
            }
        }
    }
}

proof fn lemma_no_share(list: Seq<GroupEntry>, layer: usize, i: usize)
    requires
        forall|j: int|
            0 <= j < list.len() && (#[trigger] list[j]).layer == layer && any_fused(list[j].projs@)
                ==> i >= fused_count(list[j].projs@),
    ensures
        fused_share(list, layer, i) is None,
    decreases list.len(),
{
    if list.len() > 0 {
        let rest = list.drop_last();
        assert(list.last() == list[list.len() - 1]);
        assert forall|j: int|
            0 <= j < rest.len() && (#[trigger] rest[j]).layer == layer && any_fused(rest[j].projs@)
                implies i >= fused_count(rest[j].projs@) by {
            assert(rest[j] == list[j]);
        }
        lemma_no_share(rest, layer, i);
    }
}

/// Unless the split is refused, every expert's share of every fused group can be
/// located.
pub proof fn law_split_refused(list: Seq<GroupEntry>, k: int, i: usize)
    requires
        0 <= k < list.len(),
        any_fused(list[k].projs@),
        i < fused_count(list[k].projs@),
    ensures
        expansion_fits(list) ==> share_fits(list[k].projs@.gate, i) && share_fits(
            list[k].projs@.up,
            i,
        ) && share_fits(list[k].projs@.down, i),
{
    if expansion_fits(list) {
        assert(shares_fit(list[k].projs@));
    }
}

/// Where the split is refused, `found` is a group and an expert whose share
/// cannot be located.
pub proof fn law_split_refusal(list: Seq<GroupEntry>) -> (found: (int, usize))
    requires
        !expansion_fits(list),
    ensures
        ({
            let (k, i) = found;
            &&& 0 <= k < list.len()
            &&& any_fused(list[k].projs@)
            &&& i < fused_count(list[k].projs@)
            &&& !share_fits(list[k].projs@.gate, i) || !share_fits(list[k].projs@.up, i)
                || !share_fits(list[k].projs@.down, i)
        }),
{
    let k = choose|k: int| 0 <= k < list.len() && !shares_fit((#[trigger] list[k]).projs@);
    let p = list[k].projs@;
    let i = choose|i: usize|
        #![trigger share_fits(p.gate, i)]
        i < fused_count(p) && !(share_fits(p.gate, i) && share_fits(p.up, i) && share_fits(
            p.down,
            i,
        ));
    (k, i)
}

} // verus!

//! In-RAM LRU cache of resident experts.

use crate::buffer_pool::PooledBuffer;
use lru::LruCache;
use std::collections::HashSet;
use std::num::NonZeroUsize;
use std::sync::Arc;
use vstd::prelude::*;

verus! {

/// One resident expert: its id and its raw bytes.
pub struct ExpertResident {
    pub id: u32,
    pub buffer: PooledBuffer,
}

impl ExpertResident {
    pub open spec fn wf(&self) -> bool {
        self.buffer.wf()
    }

    pub fn new(id: u32, buffer: PooledBuffer) -> (r: Self)
        ensures
            r.id == id,
            r.buffer == buffer,
    {
        ExpertResident { id, buffer }
    }

    pub fn data(&self) -> (s: &[u8])
        requires
            self.wf(),
        ensures
            s@ == self.buffer@,
    {
        self.buffer.as_slice()
    }
}

// ── lru::LruCache ────────────────────────────────────────────────────────────

/// Trusted: `lru::DefaultHasher` is a type.
#[verifier::external_type_specification]
#[verifier::external_body]
pub struct ExLruHasher(lru::DefaultHasher);

/// Trusted: `lru::LruCache` is a type; what a value of it holds is known only
/// through `lru_entries` and `lru_limit`.
#[verifier::external_type_specification]
#[verifier::external_body]
#[verifier::reject_recursive_types(K)]
#[verifier::reject_recursive_types(V)]
#[verifier::reject_recursive_types(S)]
pub struct ExLruCache<K, V, S>(LruCache<K, V, S>);

/// The entries of an `lru::LruCache`, most recently used first.
pub uninterp spec fn lru_entries(c: LruCache<u32, Arc<ExpertResident>>) -> Seq<(u32, ExpertResident)>;

/// The largest number of entries an `lru::LruCache` holds.
pub uninterp spec fn lru_limit(c: LruCache<u32, Arc<ExpertResident>>) -> nat;

/// Some entry has the key `id`.
pub open spec fn holds(entries: Seq<(u32, ExpertResident)>, id: u32) -> bool {
    exists|i: int| 0 <= i < entries.len() && (#[trigger] entries[i]).0 == id
}

/// The value of the entry with the key `id`.
pub open spec fn value_of(entries: Seq<(u32, ExpertResident)>, id: u32) -> ExpertResident {
    entries[choose|i: int| 0 <= i < entries.len() && (#[trigger] entries[i]).0 == id].1
}

/// The entries whose key is not `id`, in the same order.
pub open spec fn without(entries: Seq<(u32, ExpertResident)>, id: u32) -> Seq<
    (u32, ExpertResident),
> {
    entries.filter(|e: (u32, ExpertResident)| e.0 != id)
}

/// `r` under the key `id` becomes the most recently used entry.
pub open spec fn in_front(
    id: u32,
    r: ExpertResident,
    entries: Seq<(u32, ExpertResident)>,
) -> Seq<(u32, ExpertResident)> {
    seq![(id, r)] + entries
}

/// Trusted: `lru::LruCache::new` makes an empty cache with the given limit. It
/// reserves room for that many entries, which fails on a limit near the size
/// of the address space.
#[verifier::external_body]
fn lru_new(limit: usize) -> (c: LruCache<u32, Arc<ExpertResident>>)
    requires
        0 < limit <= isize::MAX / 64,
    ensures
        lru_entries(c) == Seq::<(u32, ExpertResident)>::empty(),
        lru_limit(c) == limit,
{
    LruCache::new(NonZeroUsize::new(limit).unwrap())
}

/// Trusted: `lru::LruCache::get` finds the value under a key and makes its
/// entry the most recently used one. The shared handle is copied out.
#[verifier::external_body]
fn lru_get(c: &mut LruCache<u32, Arc<ExpertResident>>, id: u32) -> (r: Option<Arc<ExpertResident>>)
    ensures
        lru_limit(*final(c)) == lru_limit(*old(c)),
        r is Some <==> holds(lru_entries(*old(c)), id),
        r matches Some(v) ==> *v == value_of(lru_entries(*old(c)), id) && lru_entries(*final(c))
            == in_front(id, *v, without(lru_entries(*old(c)), id)),
        r is None ==> lru_entries(*final(c)) == lru_entries(*old(c)),
{
    c.get(&id).cloned()
}

/// Trusted: `lru::LruCache::peek` finds a key without touching the order.
#[verifier::external_body]
fn lru_peek(c: &LruCache<u32, Arc<ExpertResident>>, id: u32) -> (found: bool)
    ensures
        found == holds(lru_entries(*c), id),
{
    c.peek(&id).is_some()
}

/// Trusted: `lru::LruCache::len` counts the entries.
#[verifier::external_body]
fn lru_len(c: &LruCache<u32, Arc<ExpertResident>>) -> (n: usize)
    ensures
        n == lru_entries(*c).len(),
{
    c.len()
}

/// Trusted: `lru::LruCache::push` makes `(id, v)` the most recently used entry.
/// It hands back the entry that left: the previous one under the same key, else
/// the least recently used one if the cache was at its limit.
#[verifier::external_body]
fn lru_push(
    c: &mut LruCache<u32, Arc<ExpertResident>>,
    id: u32,
    v: Arc<ExpertResident>,
) -> (r: Option<(u32, Arc<ExpertResident>)>)
    ensures
        lru_limit(*final(c)) == lru_limit(*old(c)),
        holds(lru_entries(*old(c)), id) ==> {
            &&& r matches Some(e) && e.0 == id && *e.1 == value_of(lru_entries(*old(c)), id)
            &&& lru_entries(*final(c)) == in_front(id, *v, without(lru_entries(*old(c)), id))
        },
        !holds(lru_entries(*old(c)), id) && lru_entries(*old(c)).len() == lru_limit(*old(c)) ==> {
            &&& r matches Some(e) && (e.0, *e.1) == lru_entries(*old(c)).last()
            &&& lru_entries(*final(c)) == in_front(id, *v, lru_entries(*old(c)).drop_last())
        },
        !holds(lru_entries(*old(c)), id) && lru_entries(*old(c)).len() != lru_limit(*old(c)) ==> {
            &&& r is None
            &&& lru_entries(*final(c)) == in_front(id, *v, lru_entries(*old(c)))
        },
{
    c.push(id, v)
}

/// Trusted: `lru::LruCache::pop` removes the entry under a key and returns its
/// value.
#[verifier::external_body]
fn lru_pop(c: &mut LruCache<u32, Arc<ExpertResident>>, id: u32) -> (r: Option<Arc<ExpertResident>>)
    ensures
        lru_limit(*final(c)) == lru_limit(*old(c)),
        lru_entries(*final(c)) == without(lru_entries(*old(c)), id),
        r is Some <==> holds(lru_entries(*old(c)), id),
        r matches Some(v) ==> *v == value_of(lru_entries(*old(c)), id),
{
    c.pop(&id)
}

/// Trusted: `lru::LruCache::pop_lru` removes and returns the least recently
/// used entry.
#[verifier::external_body]
fn lru_pop_last(c: &mut LruCache<u32, Arc<ExpertResident>>) -> (r: Option<
    (u32, Arc<ExpertResident>),
>)
    ensures
        lru_limit(*final(c)) == lru_limit(*old(c)),
        r is Some <==> lru_entries(*old(c)).len() > 0,
        r matches Some(e) ==> (e.0, *e.1) == lru_entries(*old(c)).last() && lru_entries(*final(c))
            == lru_entries(*old(c)).drop_last(),
        r is None ==> lru_entries(*final(c)) == lru_entries(*old(c)),
{
    c.pop_lru()
}

/// Trusted: `lru::LruCache::iter` visits the entries, most recently used first;
/// their keys are collected.
#[verifier::external_body]
fn lru_keys(c: &LruCache<u32, Arc<ExpertResident>>) -> (keys: Vec<u32>)
    ensures
        keys@ == lru_entries(*c).map_values(|e: (u32, ExpertResident)| e.0),
{
    c.iter().map(|(k, _)| *k).collect()
}

// ── ExpertCache ──────────────────────────────────────────────────────────────

/// Fixed-capacity LRU cache of resident experts with pinning.
pub struct ExpertCache {
    inner: LruCache<u32, Arc<ExpertResident>>,
    pinned: HashSet<u32>,
    capacity: usize,
}

/// The least recently used id that is not pinned.
pub open spec fn lru_victim(entries: Seq<(u32, ExpertResident)>, pinned: Set<u32>) -> Option<u32>
    decreases entries.len(),
{
    if entries.len() == 0 {
        None
    } else if !pinned.contains(entries.last().0) {
        Some(entries.last().0)
    } else {
        lru_victim(entries.drop_last(), pinned)
    }
}

/// No key occurs twice.
pub open spec fn distinct(entries: Seq<(u32, ExpertResident)>) -> bool {
    forall|i: int, j: int|
        0 <= i < j < entries.len() ==> (#[trigger] entries[i]).0 != (#[trigger] entries[j]).0
}

/// Every entry stands under its resident's own id.
pub open spec fn keyed(entries: Seq<(u32, ExpertResident)>) -> bool {
    forall|i: int|
        0 <= i < entries.len() ==> (#[trigger] entries[i]).0 == entries[i].1.id
            && entries[i].1.wf()
}

impl ExpertCache {
    pub closed spec fn wf(&self) -> bool {
        &&& distinct(self.entries())
        &&& keyed(self.entries())
        &&& self.entries().len() <= self.capacity
        &&& lru_limit(self.inner) == self.capacity
        &&& self.capacity > 0
    }

    /// A cache has one entry for each resident expert, and no more than its
    /// capacity.
    pub proof fn lemma_wf(&self)
        requires
            self.wf(),
        ensures
            distinct(self.entries()),
            keyed(self.entries()),
            self.entries().len() <= self.spec_capacity(),
    {
    }

    /// The resident experts, most recently used first.
    pub closed spec fn entries(&self) -> Seq<(u32, ExpertResident)> {
        lru_entries(self.inner)
    }

    pub closed spec fn pinned_ids(&self) -> Set<u32> {
        self.pinned@
    }

    pub closed spec fn spec_capacity(&self) -> usize {
        self.capacity
    }

    pub fn new(capacity: usize) -> (c: Self)
        requires
            0 < capacity <= isize::MAX / 64,
        ensures
            c.wf(),
            c.spec_capacity() == capacity,
            c.entries() == Seq::<(u32, ExpertResident)>::empty(),
            c.pinned_ids() == Set::<u32>::empty(),
    {
        ExpertCache { inner: lru_new(capacity), pinned: HashSet::new(), capacity }
    }

    pub fn capacity(&self) -> (n: usize)
        ensures
            n == self.spec_capacity(),
    {
        self.capacity
    }

    /// Look up an expert. Updates recency on a hit.
    pub fn get(&mut self, id: u32) -> (r: Option<Arc<ExpertResident>>)
        requires
            old(self).wf(),
        ensures
            final(self).wf(),
            final(self).spec_capacity() == old(self).spec_capacity(),
            final(self).pinned_ids() == old(self).pinned_ids(),
            r is Some <==> holds(old(self).entries(), id),
            r matches Some(v) ==> {
                &&& *v == value_of(old(self).entries(), id)
                &&& final(self).entries() == in_front(id, *v, without(old(self).entries(), id))
            },
            r is None ==> final(self).entries() == old(self).entries(),
    {
        let r = lru_get(&mut self.inner, id);
        proof {
            lemma_without(old(self).entries(), id);
            if r is Some {
                lemma_value_of(old(self).entries(), id);
                lemma_in_front(id, &*(r->0), without(old(self).entries(), id));
            }
        }
        r
    }

    /// Check residency without changing recency.
    pub fn contains(&self, id: u32) -> (found: bool)
        ensures
            found == holds(self.entries(), id),
    {
        lru_peek(&self.inner, id)
    }

    /// Insert a resident as the most recently used one.
    ///
    /// A resident of the same id is replaced and returned. Otherwise, if the
    /// cache is full, the least recently used id that is not pinned leaves and
    /// is returned; if every resident is pinned, nothing changes and the new
    /// resident is handed back as the error.
    pub fn insert(&mut self, resident: Arc<ExpertResident>) -> (r: Result<
        Option<Arc<ExpertResident>>,
        Arc<ExpertResident>,
    >)
        requires
            old(self).wf(),
            resident.wf(),
        ensures
            final(self).wf(),
            final(self).spec_capacity() == old(self).spec_capacity(),
            final(self).pinned_ids() == old(self).pinned_ids(),
            (final(self).entries(), insert_outcome(r)) == insertion(
                old(self).entries(),
                old(self).pinned_ids(),
                old(self).spec_capacity(),
                *resident,
            ),
            r matches Err(back) ==> *back == *resident,
    {
        let id = resident.id;
        let ghost before = self.entries();
        let mut pre_evicted: Option<Arc<ExpertResident>> = None;
        proof {
            lemma_without(before, id);
            if holds(before, id) {
                lemma_value_of(before, id);
            }
        }
        if lru_len(&self.inner) >= self.capacity && !lru_peek(&self.inner, id) {
            match self.select_victim_id() {
                Some(v) => {
                    proof {
                        lemma_victim_held(before, self.pinned_ids());
                        lemma_without(before, v);
                        lemma_value_of(before, v);
                    }
                    pre_evicted = lru_pop(&mut self.inner, v);
                },
                None => {
                    return Err(resident);
                },
            }
        }
        proof {
            lemma_in_front(id, &*resident, without(before, id));
            if pre_evicted is Some {
                let v = lru_victim(before, old(self).pinned_ids())->0;
                lemma_in_front(id, &*resident, without(before, v));
            }
        }
        let push_evicted = lru_push(&mut self.inner, id, resident);
        match push_evicted {
            Some(e) => Ok(Some(e.1)),
            None => Ok(pre_evicted),
        }
    }

    /// The least recently used id that is not pinned.
    fn select_victim_id(&self) -> (r: Option<u32>)
        ensures
            r == lru_victim(self.entries(), self.pinned_ids()),
    {
        let keys = lru_keys(&self.inner);
        let ghost entries = self.entries();
        let mut n: usize = keys.len();
        assert(entries.take(n as int) =~= entries);
        while n > 0
            invariant
                n <= keys.len(),
                entries == self.entries(),
                keys@ == entries.map_values(|e: (u32, ExpertResident)| e.0),
                lru_victim(entries, self.pinned_ids()) == lru_victim(
                    entries.take(n as int),
                    self.pinned_ids(),
                ),
            decreases n,
        {
            let k: u32 = keys[n - 1];
            if !self.pinned.contains(&k) {
                return Some(k);
            }
            assert(entries.take(n as int).drop_last() =~= entries.take(n - 1));
            n = n - 1;
        }
        None
    }

    pub fn len(&self) -> (n: usize)
        ensures
            n == self.entries().len(),
    {
        lru_len(&self.inner)
    }

    /// Remove and return the least recently used resident that is not pinned.
    pub fn evict_lru(&mut self) -> (r: Option<Arc<ExpertResident>>)
        requires
            old(self).wf(),
        ensures
            final(self).wf(),
            final(self).spec_capacity() == old(self).spec_capacity(),
            final(self).pinned_ids() == old(self).pinned_ids(),
            match lru_victim(old(self).entries(), old(self).pinned_ids()) {
                Some(v) => {
                    &&& r matches Some(e) && *e == value_of(old(self).entries(), v)
                    &&& final(self).entries() == without(old(self).entries(), v)
                },
                None => r is None && final(self).entries() == old(self).entries(),
            },
    {
        let ghost before = self.entries();
        if self.pinned.is_empty() {
            return match lru_pop_last(&mut self.inner) {
                Some(e) => {
                    proof {
                        let v = before.last().0;
                        assert(before[before.len() - 1].0 == v);
                        lemma_without(before, v);
                        lemma_value_of(before, v);
                        lemma_without_at(before, before.len() - 1);
                        assert(before.remove(before.len() - 1) =~= before.drop_last());
                    }
                    Some(e.1)
                },
                None => None,
            };
        }
        match self.select_victim_id() {
            Some(v) => {
                proof {
                    lemma_victim_held(before, self.pinned_ids());
                    lemma_without(before, v);
                    lemma_value_of(before, v);
                }
                lru_pop(&mut self.inner, v)
            },
            None => None,
        }
    }

    pub fn pin(&mut self, id: u32)
        requires
            old(self).wf(),
        ensures
            final(self).wf(),
            final(self).spec_capacity() == old(self).spec_capacity(),
            final(self).entries() == old(self).entries(),
            final(self).pinned_ids() == old(self).pinned_ids().insert(id),
    {
        self.pinned.insert(id);
    }

    pub fn unpin(&mut self, id: u32)
        requires
            old(self).wf(),
        ensures
            final(self).wf(),
            final(self).spec_capacity() == old(self).spec_capacity(),
            final(self).entries() == old(self).entries(),
            final(self).pinned_ids() == old(self).pinned_ids().remove(id),
    {
        self.pinned.remove(&id);
    }

    pub fn is_pinned(&self, id: u32) -> (b: bool)
        ensures
            b == self.pinned_ids().contains(id),
    {
        self.pinned.contains(&id)
    }
}

/// What an insertion comes to.
pub enum InsertOutcome {
    /// The resident was inserted; the one that left, if any.
    Inserted(Option<ExpertResident>),
    /// The cache is full of pinned residents.
    Refused,
}

pub open spec fn insert_outcome(
    r: Result<Option<Arc<ExpertResident>>, Arc<ExpertResident>>,
) -> InsertOutcome {
    match r {
        Ok(Some(e)) => InsertOutcome::Inserted(Some(*e)),
        Ok(None) => InsertOutcome::Inserted(None),
        Err(_) => InsertOutcome::Refused,
    }
}

/// Inserting `r` into a cache of the given capacity with the given entries: the
/// entries afterwards, and what it comes to.
pub open spec fn insertion(
    before: Seq<(u32, ExpertResident)>,
    pinned: Set<u32>,
    capacity: usize,
    r: ExpertResident,
) -> (Seq<(u32, ExpertResident)>, InsertOutcome) {
    if holds(before, r.id) {
        (
            in_front(r.id, r, without(before, r.id)),
            InsertOutcome::Inserted(Some(value_of(before, r.id))),
        )
    } else if before.len() < capacity {
        (in_front(r.id, r, before), InsertOutcome::Inserted(None))
    } else {
        match lru_victim(before, pinned) {
            Some(v) => (
                in_front(r.id, r, without(before, v)),
                InsertOutcome::Inserted(Some(value_of(before, v))),
            ),
            None => (before, InsertOutcome::Refused),
        }
    }
}

// ── Proofs ───────────────────────────────────────────────────────────────────

proof fn lemma_without_absent(entries: Seq<(u32, ExpertResident)>, id: u32)
    requires
        !holds(entries, id),
    ensures
        without(entries, id) == entries,
    decreases entries.len(),
{
    reveal(Seq::filter);
    if entries.len() > 0 {
        let rest = entries.drop_last();
        assert forall|i: int| 0 <= i < rest.len() implies (#[trigger] rest[i]).0 != id by {
            assert(entries[i].0 != id);
        }
        lemma_without_absent(rest, id);
        assert(entries.last() == entries[entries.len() - 1]);
        assert(rest.push(entries.last()) =~= entries);
    }
}

proof fn lemma_without_at(entries: Seq<(u32, ExpertResident)>, at: int)
    requires
        distinct(entries),
        0 <= at < entries.len(),
    ensures
        without(entries, entries[at].0) == entries.remove(at),
    decreases entries.len(),
{
    reveal(Seq::filter);
    let id = entries[at].0;
    let rest = entries.drop_last();
    if at == entries.len() - 1 {
        assert forall|i: int| 0 <= i < rest.len() implies (#[trigger] rest[i]).0 != id by {
            assert(entries[i].0 != entries[at].0);
        }
        lemma_without_absent(rest, id);
        assert(entries.remove(at) =~= rest);
    } else {
        assert(rest[at] == entries[at]);
        lemma_without_at(rest, at);
        assert(entries[entries.len() - 1].0 != entries[at].0);
        assert(entries.remove(at) =~= rest.remove(at).push(entries.last()));
    }
}

proof fn lemma_without(entries: Seq<(u32, ExpertResident)>, id: u32)
    requires
        distinct(entries),
        keyed(entries),
    ensures
        distinct(without(entries, id)),
        keyed(without(entries, id)),
        !holds(without(entries, id), id),
        holds(entries, id) ==> without(entries, id).len() == entries.len() - 1,
        !holds(entries, id) ==> without(entries, id) == entries,
        forall|k: u32|
            k != id ==> (#[trigger] holds(without(entries, id), k) <==> holds(entries, k)),
{
    let rest = without(entries, id);
    if holds(entries, id) {
        let at = choose|i: int| 0 <= i < entries.len() && (#[trigger] entries[i]).0 == id;
        lemma_without_at(entries, at);
        assert forall|k: u32| k != id implies (#[trigger] holds(rest, k) <==> holds(entries, k)) by {
            if holds(entries, k) {
                let i = choose|i: int| 0 <= i < entries.len() && (#[trigger] entries[i]).0 == k;
                if i < at {
                    assert(rest[i].0 == k);
                } else {
                    assert(rest[i - 1].0 == k);
                }
            }
        }
    } else {
        lemma_without_absent(entries, id);
    }
}

/// What is left after taking an entry out was there before.
pub proof fn lemma_entries_subset(entries: Seq<(u32, ExpertResident)>, id: u32)
    ensures
        forall|i: int|
            0 <= i < without(entries, id).len() ==> exists|j: int|
                0 <= j < entries.len() && #[trigger] entries[j] == (#[trigger] without(
                    entries,
                    id,
                )[i]),
    decreases entries.len(),
{
    reveal(Seq::filter);
    if entries.len() > 0 {
        let rest = entries.drop_last();
        lemma_entries_subset(rest, id);
        assert forall|i: int| 0 <= i < without(entries, id).len() implies exists|j: int|
            0 <= j < entries.len() && #[trigger] entries[j] == (#[trigger] without(
                entries,
                id,
            )[i]) by {
            if i < without(rest, id).len() {
                assert(without(rest, id)[i] == without(entries, id)[i]);
                let j = choose|j: int|
                    0 <= j < rest.len() && #[trigger] rest[j] == without(rest, id)[i];
                assert(entries[j] == without(entries, id)[i]);
            } else {
                assert(entries[entries.len() - 1] == without(entries, id)[i]);
            }
        }
    }
}

/// After an insertion every entry is the new one or was there before, and what
/// left was there before.
pub proof fn lemma_insert_keeps(
    before: Seq<(u32, ExpertResident)>,
    pinned: Set<u32>,
    capacity: usize,
    r: &ExpertResident,
    after: Seq<(u32, ExpertResident)>,
)
    requires
        after == insertion(before, pinned, capacity, *r).0,
    ensures
        forall|i: int|
            0 <= i < after.len() ==> (#[trigger] after[i]) == (r.id, *r) || exists|j: int|
                0 <= j < before.len() && #[trigger] before[j] == after[i],
        insertion(before, pinned, capacity, *r).1 matches InsertOutcome::Inserted(Some(e))
            ==> exists|j: int| 0 <= j < before.len() && (#[trigger] before[j]).1 == e,
{
    lemma_entries_subset(before, r.id);
    lemma_victim_held(before, pinned);
    if let Some(v) = lru_victim(before, pinned) {
        lemma_entries_subset(before, v);
    }
    assert forall|i: int| 0 <= i < after.len() implies (#[trigger] after[i]) == (r.id, *r)
        || exists|j: int| 0 <= j < before.len() && #[trigger] before[j] == after[i] by {
        if holds(before, r.id) {
            if i > 0 {
                assert(after[i] == without(before, r.id)[i - 1]);
            }
        } else if before.len() < capacity {
            if i > 0 {
                assert(after[i] == before[i - 1]);
            }
        } else if let Some(v) = lru_victim(before, pinned) {
            if i > 0 {
                assert(after[i] == without(before, v)[i - 1]);
            }
        } else {
            assert(after[i] == before[i]);
        }
    }
}

proof fn lemma_value_of(entries: Seq<(u32, ExpertResident)>, id: u32)
    requires
        keyed(entries),
        holds(entries, id),
    ensures
        value_of(entries, id).id == id,
        value_of(entries, id).wf(),
{
}

proof fn lemma_in_front(id: u32, r: &ExpertResident, rest: Seq<(u32, ExpertResident)>)
    requires
        distinct(rest),
        keyed(rest),
        !holds(rest, id),
        r.id == id,
        r.wf(),
    ensures
        distinct(in_front(id, *r, rest)),
        keyed(in_front(id, *r, rest)),
        in_front(id, *r, rest).len() == rest.len() + 1,
{
    let all = in_front(id, *r, rest);
    assert forall|i: int, j: int| 0 <= i < j < all.len() implies (#[trigger] all[i]).0 != (
    #[trigger] all[j]).0 by {
        assert(all[j] == rest[j - 1]);
        if i > 0 {
            assert(all[i] == rest[i - 1]);
        }
    }
}

/// A victim is resident and not pinned; without a victim everything is pinned.
pub proof fn lemma_victim_held(entries: Seq<(u32, ExpertResident)>, pinned: Set<u32>)
    ensures
        lru_victim(entries, pinned) matches Some(v) ==> holds(entries, v) && !pinned.contains(v),
        lru_victim(entries, pinned) is None ==> forall|i: int|
            0 <= i < entries.len() ==> pinned.contains((#[trigger] entries[i]).0),
    decreases entries.len(),
{
    if entries.len() > 0 {
        let rest = entries.drop_last();
        lemma_victim_held(rest, pinned);
        assert(entries[entries.len() - 1] == entries.last());
        if pinned.contains(entries.last().0) {
            if let Some(v) = lru_victim(rest, pinned) {
                let i = choose|i: int| 0 <= i < rest.len() && (#[trigger] rest[i]).0 == v;
                assert(entries[i].0 == v);
            } else {
                assert forall|i: int| 0 <= i < entries.len() implies pinned.contains(
                    (#[trigger] entries[i]).0,
                ) by {
                    if i < rest.len() {
                        assert(rest[i] == entries[i]);
                    }
                }
            }
        }
    }
}

/// In distinct entries the value of a key is that of its only entry.
proof fn lemma_value_at(entries: Seq<(u32, ExpertResident)>, i: int)
    requires
        distinct(entries),
        0 <= i < entries.len(),
    ensures
        value_of(entries, entries[i].0) == entries[i].1,
{
    let id = entries[i].0;
    let j = choose|j: int| 0 <= j < entries.len() && (#[trigger] entries[j]).0 == id;
    assert(entries[j].0 == id);
    if j != i {
        if i < j {
            assert(entries[i].0 != entries[j].0);
        } else {
            assert(entries[j].0 != entries[i].0);
        }
    }
}

/// Whatever is in front of distinct entries without its key is held, and the
/// others are held as before.
proof fn lemma_front_values(r: &ExpertResident, rest: Seq<(u32, ExpertResident)>)
    requires
        distinct(rest),
        keyed(rest),
        !holds(rest, r.id),
        r.wf(),
    ensures
        holds(in_front(r.id, *r, rest), r.id),
        value_of(in_front(r.id, *r, rest), r.id) == *r,
        forall|k: u32|
            k != r.id ==> (#[trigger] holds(in_front(r.id, *r, rest), k) <==> holds(rest, k)),
        forall|k: u32|
            k != r.id && holds(rest, k) ==> #[trigger] value_of(in_front(r.id, *r, rest), k)
                == value_of(rest, k),
{
    let all = in_front(r.id, *r, rest);
    lemma_in_front(r.id, r, rest);
    assert(all[0] == (r.id, *r));
    lemma_value_at(all, 0);
    assert forall|k: u32| k != r.id implies (#[trigger] holds(all, k) <==> holds(rest, k)) by {
        if holds(rest, k) {
            let i = choose|i: int| 0 <= i < rest.len() && (#[trigger] rest[i]).0 == k;
            assert(all[i + 1].0 == k);
        }
        if holds(all, k) {
            let i = choose|i: int| 0 <= i < all.len() && (#[trigger] all[i]).0 == k;
            assert(rest[i - 1].0 == k);
        }
    }
    assert forall|k: u32| k != r.id && holds(rest, k) implies #[trigger] value_of(all, k)
        == value_of(rest, k) by {
        let i = choose|i: int| 0 <= i < rest.len() && (#[trigger] rest[i]).0 == k;
        lemma_value_at(rest, i);
        assert(all[i + 1] == rest[i]);
        lemma_value_at(all, i + 1);
    }
}

/// Taking an entry out leaves the values of the others.
proof fn lemma_without_values(entries: Seq<(u32, ExpertResident)>, id: u32)
    requires
        distinct(entries),
        keyed(entries),
    ensures
        forall|k: u32|
            k != id && holds(entries, k) ==> #[trigger] value_of(without(entries, id), k)
                == value_of(entries, k),
{
    let rest = without(entries, id);
    lemma_without(entries, id);
    lemma_entries_subset(entries, id);
    assert forall|k: u32| k != id && holds(entries, k) implies #[trigger] value_of(rest, k)
        == value_of(entries, k) by {
        assert(holds(rest, k));
        let i = choose|i: int| 0 <= i < rest.len() && (#[trigger] rest[i]).0 == k;
        lemma_value_at(rest, i);
        let j = choose|j: int| 0 <= j < entries.len() && #[trigger] entries[j] == rest[i];
        lemma_value_at(entries, j);
    }
}

// ── Laws ─────────────────────────────────────────────────────────────────────

/// An expert that was inserted is found: it stands in front, under its id, with
/// its bytes.
pub proof fn law_inserted_is_found(
    before: Seq<(u32, ExpertResident)>,
    pinned: Set<u32>,
    capacity: usize,
    r: &ExpertResident,
)
    requires
        distinct(before),
        keyed(before),
        r.wf(),
        insertion(before, pinned, capacity, *r).1 is Inserted,
    ensures
        insertion(before, pinned, capacity, *r).0[0] == (r.id, *r),
        holds(insertion(before, pinned, capacity, *r).0, r.id),
        value_of(insertion(before, pinned, capacity, *r).0, r.id) == *r,
{
    if holds(before, r.id) {
        lemma_without(before, r.id);
        lemma_front_values(r, without(before, r.id));
    } else if before.len() < capacity {
        lemma_front_values(r, before);
    } else {
        let v = lru_victim(before, pinned)->0;
        lemma_without(before, v);
        lemma_front_values(r, without(before, v));
    }
}

/// No insertion drops a pinned expert: it stays resident, with its bytes,
/// unless it is the one that is inserted anew.
pub proof fn law_pinned_stays(
    before: Seq<(u32, ExpertResident)>,
    pinned: Set<u32>,
    capacity: usize,
    r: &ExpertResident,
    id: u32,
)
    requires
        distinct(before),
        keyed(before),
        r.wf(),
        pinned.contains(id),
        holds(before, id),
    ensures
        holds(insertion(before, pinned, capacity, *r).0, id),
        id != r.id ==> value_of(insertion(before, pinned, capacity, *r).0, id) == value_of(
            before,
            id,
        ),
{
    if holds(before, r.id) {
        lemma_without(before, r.id);
        lemma_without_values(before, r.id);
        lemma_front_values(r, without(before, r.id));
    } else if before.len() < capacity {
        lemma_front_values(r, before);
    } else if let Some(v) = lru_victim(before, pinned) {
        lemma_victim_held(before, pinned);
        lemma_without(before, v);
        lemma_without_values(before, v);
        lemma_front_values(r, without(before, v));
    }
}

/// Inserting into a cache that holds no more than its capacity leaves it so.
pub proof fn law_capacity_kept(
    before: Seq<(u32, ExpertResident)>,
    pinned: Set<u32>,
    capacity: usize,
    r: &ExpertResident,
)
    requires
        distinct(before),
        keyed(before),
        before.len() <= capacity,
    ensures
        insertion(before, pinned, capacity, *r).0.len() <= capacity,
{
    lemma_without(before, r.id);
    if let Some(v) = lru_victim(before, pinned) {
        lemma_victim_held(before, pinned);
        lemma_without(before, v);
    }
}

/// An insertion is refused exactly when the cache is full, does not hold the
/// expert, and holds pinned experts only.
pub proof fn law_refused(
    before: Seq<(u32, ExpertResident)>,
    pinned: Set<u32>,
    capacity: usize,
    r: &ExpertResident,
)
    ensures
        insertion(before, pinned, capacity, *r).1 is Refused <==> !holds(before, r.id)
            && before.len() >= capacity && forall|i: int|
            0 <= i < before.len() ==> pinned.contains((#[trigger] before[i]).0),
{
    lemma_victim_held(before, pinned);
    if let Some(v) = lru_victim(before, pinned) {
        let i = choose|i: int| 0 <= i < before.len() && (#[trigger] before[i]).0 == v;
        assert(!pinned.contains(before[i].0));
    }
}

/// The expert that leaves is the least recently used one that is not pinned:
/// every less recently used one is pinned.
pub proof fn law_victim_is_oldest(entries: Seq<(u32, ExpertResident)>, pinned: Set<u32>)
    requires
        lru_victim(entries, pinned) is Some,
    ensures
        exists|i: int|
            0 <= i < entries.len() && (#[trigger] entries[i]).0 == lru_victim(entries, pinned)->0
                && !pinned.contains(entries[i].0) && forall|j: int|
                i < j < entries.len() ==> pinned.contains((#[trigger] entries[j]).0),
    decreases entries.len(),
{
    let last = entries.len() - 1;
    if !pinned.contains(entries.last().0) {
        assert(entries[last].0 == lru_victim(entries, pinned)->0);
    } else {
        let rest = entries.drop_last();
        law_victim_is_oldest(rest, pinned);
        let i = choose|i: int|
            0 <= i < rest.len() && (#[trigger] rest[i]).0 == lru_victim(rest, pinned)->0
                && !pinned.contains(rest[i].0) && forall|j: int|
                i < j < rest.len() ==> pinned.contains((#[trigger] rest[j]).0);
        assert(entries[i] == rest[i]);
        assert forall|j: int| i < j < entries.len() implies pinned.contains(
            (#[trigger] entries[j]).0,
        ) by {
            if j < last {
                assert(rest[j] == entries[j]);
            }
        }
    }
}

/// An expert that was just used is the last to leave: it leaves only when every
/// other resident is pinned.
pub proof fn law_used_leaves_last(
    rest: Seq<(u32, ExpertResident)>,
    pinned: Set<u32>,
    id: u32,
    r: &ExpertResident,
)
    requires
        !holds(rest, id),
        lru_victim(in_front(id, *r, rest), pinned) == Some(id),
    ensures
        forall|i: int| 0 <= i < rest.len() ==> pinned.contains((#[trigger] rest[i]).0),
    decreases rest.len(),
{
    let all = in_front(id, *r, rest);
    law_victim_is_oldest(all, pinned);
    let k = choose|k: int|
        0 <= k < all.len() && (#[trigger] all[k]).0 == id && !pinned.contains(all[k].0)
            && forall|j: int| k < j < all.len() ==> pinned.contains((#[trigger] all[j]).0);
    if k > 0 {
        assert(rest[k - 1].0 == id);
    }
    assert forall|i: int| 0 <= i < rest.len() implies pinned.contains((#[trigger] rest[i]).0) by {
        assert(all[i + 1] == rest[i]);
    }
}

/// Nothing leaves while there is room: an expert that is not resident goes in
/// front of all others, which stay as they are and in their order.
pub proof fn law_room_keeps_all(
    before: Seq<(u32, ExpertResident)>,
    pinned: Set<u32>,
    capacity: usize,
    r: &ExpertResident,
)
    requires
        forall|i: int| 0 <= i < before.len() ==> (#[trigger] before[i]).0 != r.id,
        before.len() < capacity,
    ensures
        insertion(before, pinned, capacity, *r) == (
            seq![(r.id, *r)] + before,
            InsertOutcome::Inserted(None),
        ),
{
}

/// An expert that is resident is replaced: the new one goes in front, the old
/// one leaves, and all others stay as they are and in their order.
pub proof fn law_resident_replaced(
    before: Seq<(u32, ExpertResident)>,
    pinned: Set<u32>,
    capacity: usize,
    r: &ExpertResident,
    at: int,
)
    requires
        forall|i: int, j: int|
            0 <= i < j < before.len() ==> (#[trigger] before[i]).0 != (#[trigger] before[j]).0,
        0 <= at < before.len(),
        before[at].0 == r.id,
    ensures
        insertion(before, pinned, capacity, *r) == (
            seq![(r.id, *r)] + before.remove(at),
            InsertOutcome::Inserted(Some(before[at].1)),
        ),
{
    assert(holds(before, r.id));
    lemma_without_at(before, at);
    lemma_value_at(before, at);
}

/// In a full cache the least recently used expert that is not pinned leaves for
/// one that is not resident; all others stay as they are and in their order.
pub proof fn law_oldest_leaves(
    before: Seq<(u32, ExpertResident)>,
    pinned: Set<u32>,
    capacity: usize,
    r: &ExpertResident,
    at: int,
)
    requires
        forall|i: int, j: int|
            0 <= i < j < before.len() ==> (#[trigger] before[i]).0 != (#[trigger] before[j]).0,
        forall|i: int| 0 <= i < before.len() ==> (#[trigger] before[i]).0 != r.id,
        before.len() >= capacity,
        0 <= at < before.len(),
        !pinned.contains(before[at].0),
        forall|j: int| at < j < before.len() ==> pinned.contains((#[trigger] before[j]).0),
    ensures
        insertion(before, pinned, capacity, *r) == (
            seq![(r.id, *r)] + before.remove(at),
            InsertOutcome::Inserted(Some(before[at].1)),
        ),
{
    law_victim(before, pinned, at);
    lemma_without_at(before, at);
    lemma_value_at(before, at);
}

/// In a full cache of pinned experts nothing changes, and one that is not
/// resident is refused.
pub proof fn law_pinned_refuse(
    before: Seq<(u32, ExpertResident)>,
    pinned: Set<u32>,
    capacity: usize,
    r: &ExpertResident,
)
    requires
        forall|i: int| 0 <= i < before.len() ==> (#[trigger] before[i]).0 != r.id,
        before.len() >= capacity,
        forall|j: int| 0 <= j < before.len() ==> pinned.contains((#[trigger] before[j]).0),
    ensures
        insertion(before, pinned, capacity, *r) == (before, InsertOutcome::Refused),
{
    law_refused(before, pinned, capacity, r);
    lemma_victim_held(before, pinned);
    if let Some(v) = lru_victim(before, pinned) {
        let i = choose|i: int| 0 <= i < before.len() && (#[trigger] before[i]).0 == v;
        assert(pinned.contains(before[i].0));
    }
}

/// The expert to leave is the last one in the order of use that is not pinned,
/// and there is none where all are pinned.
pub proof fn law_victim(entries: Seq<(u32, ExpertResident)>, pinned: Set<u32>, at: int)
    ensures
        0 <= at < entries.len() && !pinned.contains(entries[at].0) && (forall|j: int|
            at < j < entries.len() ==> pinned.contains((#[trigger] entries[j]).0)) ==> lru_victim(
            entries,
            pinned,
        ) == Some(entries[at].0),
        lru_victim(entries, pinned) is None <==> forall|j: int|
            0 <= j < entries.len() ==> pinned.contains((#[trigger] entries[j]).0),
    decreases entries.len(),
{
    if entries.len() > 0 {
        let rest = entries.drop_last();
        let last = entries.len() - 1;
        assert(entries.last() == entries[last]);
        assert forall|j: int| 0 <= j < rest.len() implies #[trigger] rest[j] == entries[j] by {}
        law_victim(rest, pinned, at);
        if forall|j: int| 0 <= j < rest.len() ==> pinned.contains((#[trigger] rest[j]).0) {
            assert forall|j: int| 0 <= j < last implies pinned.contains(
                (#[trigger] entries[j]).0,
            ) by {
                assert(rest[j] == entries[j]);
            }
        }
        if forall|j: int| 0 <= j < entries.len() ==> pinned.contains((#[trigger] entries[j]).0) {
            assert forall|j: int| 0 <= j < rest.len() implies pinned.contains(
                (#[trigger] rest[j]).0,
            ) by {
                assert(rest[j] == entries[j]);
            }
        }
        if 0 <= at < entries.len() && !pinned.contains(entries[at].0) && (forall|j: int|
            at < j < entries.len() ==> pinned.contains((#[trigger] entries[j]).0)) {
            if at < last {
                assert(pinned.contains(entries[last].0));
                assert forall|j: int| at < j < rest.len() implies pinned.contains(
                    (#[trigger] rest[j]).0,
                ) by {
                    assert(rest[j] == entries[j]);
                }
            }
        }
    }
}

/// A resident expert is found with its bytes; using it moves it in front of all
/// others, which stay as they are and in their order; taking it out leaves
/// exactly the others.
pub proof fn law_used_moves_in_front(entries: Seq<(u32, ExpertResident)>, at: int)
    requires
        forall|i: int, j: int|
            0 <= i < j < entries.len() ==> (#[trigger] entries[i]).0 != (#[trigger] entries[j]).0,
        0 <= at < entries.len(),
    ensures
        holds(entries, entries[at].0),
        value_of(entries, entries[at].0) == entries[at].1,
        without(entries, entries[at].0) == entries.remove(at),
        in_front(entries[at].0, entries[at].1, without(entries, entries[at].0)) == seq![entries[at]]
            + entries.remove(at),
{
    lemma_without_at(entries, at);
    lemma_value_at(entries, at);
    assert(entries[at] == (entries[at].0, entries[at].1));
}

/// An expert that is not among the entries is not found.
pub proof fn law_absent_not_found(entries: Seq<(u32, ExpertResident)>, id: u32)
    ensures
        holds(entries, id) <==> entries.map_values(|e: (u32, ExpertResident)| e.0).contains(id),
{
    let keys = entries.map_values(|e: (u32, ExpertResident)| e.0);
    if holds(entries, id) {
        let i = choose|i: int| 0 <= i < entries.len() && (#[trigger] entries[i]).0 == id;
        assert(keys[i] == id);
    }
    if keys.contains(id) {
        let i = choose|i: int| 0 <= i < keys.len() && keys[i] == id;
        assert(entries[i].0 == id);
    }
}

/// What a caller of an insertion is handed: the resident that left, if any, or
/// the new one back where it was refused.
pub proof fn law_insert_outcome(r: Result<Option<Arc<ExpertResident>>, Arc<ExpertResident>>)
    ensures
        insert_outcome(r) is Refused <==> r is Err,
        forall|e: Arc<ExpertResident>|
            #![trigger insert_outcome(Ok(Some(e)))]
            insert_outcome(Ok(Some(e))) == InsertOutcome::Inserted(Some(*e)),
        insert_outcome(Ok(None)) == InsertOutcome::Inserted(None),
{
}

/// A cache holds no expert twice, each under its own id, and no more of them
/// than its capacity, which is not zero.
pub proof fn law_cache_shape(c: ExpertCache, i: int, j: int)
    requires
        c.wf(),
    ensures
        c.spec_capacity() > 0,
        c.entries().len() <= c.spec_capacity(),
        0 <= i < c.entries().len() ==> c.entries()[i].0 == c.entries()[i].1.id,
        0 <= i < j < c.entries().len() ==> c.entries()[i].0 != c.entries()[j].0,
{
}

} // verus!

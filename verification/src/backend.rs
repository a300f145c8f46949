//! The expert backend: cache, pool, storage and decoding wired together.
//!
//! A fetch takes two steps. [`SsdMoeBackend::begin_fetch`] finds the expert in
//! the cache or hands out a buffer to read it into;
//! [`SsdMoeBackend::finish_load`] takes the filled buffer and makes it resident.

use crate::buffer_pool::{BufferPool, PooledBuffer};
use crate::dequant::{ExpertDtype, Weights};
use crate::expert_cache::{ExpertCache, ExpertResident, InsertOutcome};
use crate::manifest::Manifest;
use crate::storage::PreadStorage;
use std::sync::Arc;
use vstd::prelude::*;
use vstd::slice::slice_subrange;

verus! {

/// Alignment of the expert buffers: the usual block size of a disk.
pub const BUFFER_ALIGN: usize = 4096;

#[derive(Clone, Copy, Debug, PartialEq, Eq, Structural)]
pub enum BackendError {
    /// The manifest has no expert entries.
    NoExperts,
    /// The cache is full and all experts are pinned.
    AllPinned,
    /// The evicted expert is still in use, so its buffer is not free.
    EvictedInUse,
    /// The expert's file is shorter than the expert.
    ShortRead { expert_id: u32, got: usize, expected: usize },
}

pub struct SsdMoeBackend {
    storage: PreadStorage,
    cache: ExpertCache,
    pool: BufferPool,
    expert_dtype: ExpertDtype,
    d_model: usize,
    d_ff: usize,
    num_experts_per_tok: usize,
}

/// What a fetch needs next.
pub enum Fetch {
    /// Nothing: the expert is resident.
    Resident(Arc<ExpertResident>),
    /// The file at `path` is to be read into `buffer`.
    Read { path: String, buffer: PooledBuffer },
}

/// Trusted: `std::sync::Arc::try_unwrap` gives the value if this is its only
/// handle, else the handle back. Which of the two depends on the handles that
/// others hold.
#[verifier::external_body]
fn sole_owner(a: Arc<ExpertResident>) -> (r: Result<ExpertResident, Arc<ExpertResident>>)
    ensures
        match r {
            Ok(v) => v == *a,
            Err(b) => *b == *a,
        },
{
    Arc::try_unwrap(a)
}

impl SsdMoeBackend {
    pub closed spec fn spec_storage(&self) -> PreadStorage {
        self.storage
    }

    pub closed spec fn spec_cache(&self) -> ExpertCache {
        self.cache
    }

    pub closed spec fn spec_pool(&self) -> BufferPool {
        self.pool
    }

    pub closed spec fn spec_dtype(&self) -> ExpertDtype {
        self.expert_dtype
    }

    pub closed spec fn spec_d_model(&self) -> usize {
        self.d_model
    }

    pub closed spec fn spec_d_ff(&self) -> usize {
        self.d_ff
    }

    pub closed spec fn spec_experts_per_tok(&self) -> usize {
        self.num_experts_per_tok
    }

    /// Every buffer in the cache is one of the pool's, and the pool's buffers
    /// hold one expert each. The pool has no shadow half.
    pub open spec fn wf(&self) -> bool {
        &&& self.spec_cache().wf()
        &&& self.spec_pool().wf()
        &&& self.spec_pool().spec_shadow_capacity() == 0
        &&& self.spec_pool().spec_buffer_size() == self.spec_dtype().expert_bytes(
            self.spec_d_ff() as int,
            self.spec_d_model() as int,
        )
        &&& forall|i: int|
            0 <= i < self.spec_cache().entries().len() ==> self.spec_pool().fits(
                (#[trigger] self.spec_cache().entries()[i]).1.buffer,
            )
    }

    /// All but the cache and the pool is the same.
    pub open spec fn same_model(&self, other: &SsdMoeBackend) -> bool {
        &&& self.spec_storage() == other.spec_storage()
        &&& self.spec_dtype() == other.spec_dtype()
        &&& self.spec_d_model() == other.spec_d_model()
        &&& self.spec_d_ff() == other.spec_d_ff()
        &&& self.spec_experts_per_tok() == other.spec_experts_per_tok()
        &&& self.spec_pool().same_shape(&other.spec_pool())
        &&& self.spec_cache().spec_capacity() == other.spec_cache().spec_capacity()
        &&& self.spec_cache().pinned_ids() == other.spec_cache().pinned_ids()
    }

    /// The free buffers are the same.
    pub open spec fn same_pool(&self, other: &SsdMoeBackend) -> bool {
        self.spec_pool().same_free(&other.spec_pool())
    }

    /// `buffer` was given back to the pool.
    pub open spec fn returned(&self, other: &SsdMoeBackend, buffer: &PooledBuffer) -> bool {
        self.spec_pool().got_back(&other.spec_pool(), buffer)
    }

    /// The expert `v` went into the cache of `other`, and the buffer of the one
    /// that left, if any, went back to the pool or is still in use.
    pub open spec fn loaded(&self, other: &SsdMoeBackend, v: ExpertResident) -> bool {
        let (after, outcome) = crate::expert_cache::insertion(
            other.spec_cache().entries(),
            other.spec_cache().pinned_ids(),
            other.spec_cache().spec_capacity(),
            v,
        );
        &&& self.spec_cache().entries() == after
        &&& match outcome {
            InsertOutcome::Inserted(Some(e)) => self.same_pool(other) || self.returned(
                other,
                &e.buffer,
            ),
            _ => self.same_pool(other),
        }
    }

    /// The buffers for the experts of a manifest can be allocated: there is at
    /// least one, and an expert is a positive number of disk blocks. Without
    /// an expert there is nothing to allocate.
    pub open spec fn allocatable(
        manifest: Manifest,
        cache_slots: usize,
        d_model: usize,
        d_ff: usize,
    ) -> bool {
        crate::manifest::lowest_entry(manifest.expert_map@) matches Some(e) ==> {
            let size = ExpertDtype::named(e.dtype@).expert_bytes(d_ff as int, d_model as int);
            &&& 0 < cache_slots <= isize::MAX / 64
            &&& 0 < size <= isize::MAX
            &&& size % 4096 == 0
        }
    }

    /// Whether the buffers for the experts of a manifest can be allocated.
    pub fn is_allocatable(
        manifest: &Manifest,
        cache_slots: usize,
        d_model: usize,
        d_ff: usize,
    ) -> (b: bool)
        ensures
            b == Self::allocatable(*manifest, cache_slots, d_model, d_ff),
    {
        match manifest.first_entry() {
            None => true,
            Some(entry) => {
                let dtype = ExpertDtype::from_manifest_str(entry.dtype.as_str());
                match dtype.checked_expert_size(d_ff, d_model) {
                    None => false,
                    Some(size) => 0 < cache_slots && cache_slots <= isize::MAX as usize / 64 && 0
                        < size && size <= isize::MAX as usize && size % 4096 == 0,
                }
            },
        }
    }

    /// The element type is that of the manifest's first expert; the buffers have
    /// the size of an expert of that type.
    pub fn new(
        expert_dir: String,
        manifest: Manifest,
        cache_slots: usize,
        d_model: usize,
        d_ff: usize,
        num_experts_per_tok: usize,
    ) -> (r: Result<Self, BackendError>)
        requires
            Self::allocatable(manifest, cache_slots, d_model, d_ff),
        ensures
            match crate::manifest::lowest_entry(manifest.expert_map@) {
                Some(e) => {
                    &&& r matches Ok(b)
                    &&& b.wf()
                    &&& b.spec_dtype() == ExpertDtype::named(e.dtype@)
                    &&& b.spec_d_model() == d_model
                    &&& b.spec_d_ff() == d_ff
                    &&& b.spec_experts_per_tok() == num_experts_per_tok
                    &&& b.spec_storage().spec_base_path() == expert_dir@
                    &&& b.spec_storage().spec_manifest() == manifest
                    &&& b.spec_storage().spec_expert_size() == e.byte_size as usize
                    &&& b.spec_storage().spec_direct_io()
                    &&& b.spec_cache().spec_capacity() == cache_slots
                    &&& b.spec_cache().entries() == Seq::<(u32, ExpertResident)>::empty()
                    &&& b.spec_cache().pinned_ids() == Set::<u32>::empty()
                    &&& b.spec_pool().spec_capacity() == cache_slots
                    &&& b.spec_pool().spec_align() == BUFFER_ALIGN
                    &&& b.spec_pool().free_primary() == crate::buffer_pool::zeroed(
                        cache_slots,
                        b.spec_pool().spec_buffer_size(),
                    )
                },
                None => r == Err::<SsdMoeBackend, BackendError>(BackendError::NoExperts),
            },
    {
        let expert_dtype = match manifest.first_entry() {
            Some(entry) => ExpertDtype::from_manifest_str(entry.dtype.as_str()),
            None => {
                return Err(BackendError::NoExperts);
            },
        };
        let expert_size = expert_dtype.expert_byte_size(d_ff, d_model);
        proof {
            vstd::arithmetic::power2::lemma2_to64();
            assert(vstd::arithmetic::power2::pow2(12) == BUFFER_ALIGN);
        }
        let pool = BufferPool::new(cache_slots, expert_size, BUFFER_ALIGN);
        Ok(
            SsdMoeBackend {
                storage: PreadStorage::new(expert_dir, manifest),
                cache: ExpertCache::new(cache_slots),
                pool,
                expert_dtype,
                d_model,
                d_ff,
                num_experts_per_tok,
            },
        )
    }

    pub fn manifest(&self) -> (m: &Manifest)
        ensures
            *m == self.spec_storage().spec_manifest(),
    {
        self.storage.manifest()
    }

    pub fn cache(&self) -> (c: &ExpertCache)
        ensures
            *c == self.spec_cache(),
    {
        &self.cache
    }

    /// Protect an expert from eviction.
    pub fn pin(&mut self, id: u32)
        requires
            old(self).wf(),
        ensures
            final(self).wf(),
            final(self).spec_cache().entries() == old(self).spec_cache().entries(),
            final(self).spec_cache().spec_capacity() == old(self).spec_cache().spec_capacity(),
            final(self).spec_cache().pinned_ids() == old(self).spec_cache().pinned_ids().insert(id),
            final(self).spec_pool() == old(self).spec_pool(),
            final(self).spec_storage() == old(self).spec_storage(),
            final(self).spec_dtype() == old(self).spec_dtype(),
            final(self).spec_d_model() == old(self).spec_d_model(),
            final(self).spec_d_ff() == old(self).spec_d_ff(),
            final(self).spec_experts_per_tok() == old(self).spec_experts_per_tok(),
    {
        self.cache.pin(id);
    }

    /// Let an expert be evicted again.
    pub fn unpin(&mut self, id: u32)
        requires
            old(self).wf(),
        ensures
            final(self).wf(),
            final(self).spec_cache().entries() == old(self).spec_cache().entries(),
            final(self).spec_cache().spec_capacity() == old(self).spec_cache().spec_capacity(),
            final(self).spec_cache().pinned_ids() == old(self).spec_cache().pinned_ids().remove(id),
            final(self).spec_pool() == old(self).spec_pool(),
            final(self).spec_storage() == old(self).spec_storage(),
            final(self).spec_dtype() == old(self).spec_dtype(),
            final(self).spec_d_model() == old(self).spec_d_model(),
            final(self).spec_d_ff() == old(self).spec_d_ff(),
            final(self).spec_experts_per_tok() == old(self).spec_experts_per_tok(),
    {
        self.cache.unpin(id);
    }

    /// Look an expert up, and on a miss take a buffer to read it into.
    ///
    /// If no buffer is free, the least recently used expert that is not pinned is
    /// evicted and its buffer reused. That fails if the evicted expert is still
    /// in use elsewhere.
    pub fn begin_fetch(&mut self, expert_id: u32) -> (r: Result<Fetch, BackendError>)
        requires
            old(self).wf(),
        ensures
            final(self).wf(),
            final(self).same_model(old(self)),
            ({
                let before = old(self).spec_cache().entries();
                let after = final(self).spec_cache().entries();
                let free = old(self).spec_pool().free_primary();
                if crate::expert_cache::holds(before, expert_id) {
                    &&& r matches Ok(Fetch::Resident(v))
                    &&& *v == crate::expert_cache::value_of(before, expert_id)
                    &&& after == crate::expert_cache::in_front(
                        expert_id,
                        *v,
                        crate::expert_cache::without(before, expert_id),
                    )
                    &&& final(self).same_pool(old(self))
                } else if free.len() > 0 {
                    &&& r matches Ok(Fetch::Read { path, buffer })
                    &&& path@ == old(self).spec_storage().path_of(expert_id)
                    &&& final(self).spec_pool().took_primary(&old(self).spec_pool(), &buffer)
                    &&& after == before
                } else {
                    match crate::expert_cache::lru_victim(
                        before,
                        old(self).spec_cache().pinned_ids(),
                    ) {
                        None => {
                            &&& r == Err::<Fetch, BackendError>(BackendError::AllPinned)
                            &&& after == before
                            &&& final(self).same_pool(old(self))
                        },
                        Some(v) => {
                            &&& after == crate::expert_cache::without(before, v)
                            &&& final(self).same_pool(old(self))
                            &&& match r {
                                Ok(Fetch::Read { path, buffer }) => {
                                    &&& path@ == old(self).spec_storage().path_of(expert_id)
                                    &&& old(self).spec_pool().fits(buffer)
                                    &&& buffer.promoted_from(
                                        &crate::expert_cache::value_of(before, v).buffer,
                                    )
                                },
                                Ok(Fetch::Resident(_)) => false,
                                Err(e) => e is EvictedInUse,
                            }
                        },
                    }
                }
            }),
    {
        let ghost before = self.cache.entries();
        if let Some(v) = self.cache.get(expert_id) {
            proof {
                self.lemma_front(old(self), expert_id, &*v);
            }
            return Ok(Fetch::Resident(v));
        }
        let path = self.storage.expert_path(expert_id);
        if let Some(buffer) = self.pool.try_acquire() {
            return Ok(Fetch::Read { path, buffer });
        }
        let evicted = match self.cache.evict_lru() {
            Some(e) => e,
            None => {
                return Err(BackendError::AllPinned);
            },
        };
        let ghost v = crate::expert_cache::lru_victim(before, old(self).cache.pinned_ids())->0;
        proof {
            crate::expert_cache::lemma_victim_held(before, old(self).cache.pinned_ids());
            crate::expert_cache::lemma_entries_subset(before, v);
        }
        self.reuse(sole_owner(evicted), path)
    }

    /// Reads into the buffer of an expert that left the cache, unless someone
    /// else still has the expert.
    pub fn reuse(
        &mut self,
        evicted: Result<ExpertResident, Arc<ExpertResident>>,
        path: String,
    ) -> (r: Result<Fetch, BackendError>)
        requires
            old(self).wf(),
            evicted matches Ok(v) ==> old(self).spec_pool().fits(v.buffer),
        ensures
            final(self).wf(),
            final(self).same_model(old(self)),
            final(self).spec_cache() == old(self).spec_cache(),
            final(self).same_pool(old(self)),
            match evicted {
                Ok(v) => {
                    &&& r matches Ok(Fetch::Read { path: p, buffer })
                    &&& p == path
                    &&& old(self).spec_pool().fits(buffer)
                    &&& buffer.promoted_from(&v.buffer)
                },
                Err(_) => r == Err::<Fetch, BackendError>(BackendError::EvictedInUse),
            },
    {
        match evicted {
            Ok(resident) => {
                let ghost before = self.pool;
                let ghost was = resident.buffer;
                self.pool.release(resident.buffer);
                let buffer = self.pool.try_acquire().unwrap();
                proof {
                    let left = self.pool.free_primary();
                    assert(left.push(buffer@) == before.free_primary().push(was@));
                    assert(left.push(buffer@).last() == before.free_primary().push(was@).last());
                    assert(left =~= left.push(buffer@).drop_last());
                    assert(before.free_primary() =~= before.free_primary().push(was@).drop_last());
                    let places = self.pool.primary_addresses();
                    let (x, y) = (buffer.spec_address(), was.spec_address());
                    assert(places.push(x) == before.primary_addresses().push(y));
                    assert(places.push(x).last() == before.primary_addresses().push(y).last());
                    assert(places =~= places.push(x).drop_last());
                    assert(before.primary_addresses() =~= before.primary_addresses().push(
                        y,
                    ).drop_last());
                }
                Ok(Fetch::Read { path, buffer })
            },
            Err(_) => Err(BackendError::EvictedInUse),
        }
    }

    /// Gives the buffer of an expert back to the pool, unless someone else
    /// still has the expert.
    pub fn take_back(&mut self, expert: Result<ExpertResident, Arc<ExpertResident>>)
        requires
            old(self).wf(),
            expert matches Ok(v) ==> old(self).spec_pool().fits(v.buffer),
        ensures
            final(self).wf(),
            final(self).same_model(old(self)),
            final(self).spec_cache() == old(self).spec_cache(),
            match expert {
                Ok(v) => final(self).returned(old(self), &v.buffer),
                Err(_) => final(self).same_pool(old(self)),
            },
    {
        if let Ok(e) = expert {
            self.pool.release(e.buffer);
        }
    }

    /// Take a buffer into which `got` bytes of the expert's file were read, and
    /// make the expert resident.
    ///
    /// A read of fewer bytes than the buffer holds is an error, and the buffer
    /// goes back to the pool. Otherwise the expert is handed out, also if the
    /// cache could not keep it because it is full of pinned experts. The buffer
    /// of the expert that left the cache goes back to the pool, unless that
    /// expert is still in use elsewhere.
    pub fn finish_load(&mut self, expert_id: u32, buffer: PooledBuffer, got: usize) -> (r: Result<
        Arc<ExpertResident>,
        BackendError,
    >)
        requires
            old(self).wf(),
            old(self).spec_pool().fits(buffer),
        ensures
            final(self).wf(),
            final(self).same_model(old(self)),
            got < buffer@.len() ==> {
                &&& r == Err::<Arc<ExpertResident>, BackendError>(
                    BackendError::ShortRead { expert_id, got, expected: buffer@.len() as usize },
                )
                &&& final(self).spec_cache().entries() == old(self).spec_cache().entries()
                &&& final(self).returned(old(self), &buffer)
            },
            got >= buffer@.len() ==> r is Ok,
            r matches Ok(v) ==> v.id == expert_id && v.buffer == buffer && final(self).loaded(
                old(self),
                *v,
            ),
    {
        if got < buffer.len() {
            let expected = buffer.len();
            self.pool.release(buffer);
            return Err(BackendError::ShortRead { expert_id, got, expected });
        }
        let resident = Arc::new(ExpertResident::new(expert_id, buffer));
        let ghost before = self.cache.entries();
        let inserted = self.cache.insert(resident.clone());
        proof {
            let pinned = old(self).cache.pinned_ids();
            let capacity = old(self).cache.spec_capacity();
            let after = self.cache.entries();
            crate::expert_cache::lemma_insert_keeps(before, pinned, capacity, &*resident, after);
            assert forall|i: int| 0 <= i < after.len() implies self.pool.fits(
                (#[trigger] after[i]).1.buffer,
            ) by {}
        }
        if let Ok(Some(evicted)) = inserted {
            self.take_back(sole_owner(evicted));
        }
        Ok(resident)
    }

    /// Give up a load: the buffer goes back to the pool.
    pub fn abandon_load(&mut self, buffer: PooledBuffer)
        requires
            old(self).wf(),
            old(self).spec_pool().fits(buffer),
        ensures
            final(self).wf(),
            final(self).same_model(old(self)),
            final(self).spec_cache().entries() == old(self).spec_cache().entries(),
            final(self).returned(old(self), &buffer),
    {
        self.pool.release(buffer);
    }

    /// Give up a handle to an expert. If it was the last one, the expert's buffer
    /// goes back to the pool.
    pub fn retire(&mut self, resident: Arc<ExpertResident>)
        requires
            old(self).wf(),
            old(self).spec_pool().fits(resident.buffer),
        ensures
            final(self).wf(),
            final(self).same_model(old(self)),
            final(self).spec_cache().entries() == old(self).spec_cache().entries(),
            final(self).same_pool(old(self)) || final(self).returned(
                old(self),
                &resident.buffer,
            ),
    {
        self.take_back(sole_owner(resident));
    }

    /// How many of the experts offered for a token are used.
    pub fn experts_for_token(&self, offered: usize) -> (n: usize)
        ensures
            n == if offered < self.spec_experts_per_tok() {
                offered
            } else {
                self.spec_experts_per_tok()
            },
    {
        if offered < self.num_experts_per_tok {
            offered
        } else {
            self.num_experts_per_tok
        }
    }

    /// `data` holds the three matrices of an expert, in whole blocks.
    pub open spec fn decodable(&self, data: Seq<u8>) -> bool {
        &&& self.spec_dtype().expert_bytes(self.spec_d_ff() as int, self.spec_d_model() as int)
            <= data.len()
        &&& self.spec_dtype().whole_blocks(self.spec_d_ff() as int)
        &&& self.spec_dtype().whole_blocks(self.spec_d_model() as int)
        &&& self.spec_d_ff() * self.spec_d_model() <= usize::MAX
    }

    /// Whether `data` holds the three matrices of an expert.
    pub fn can_decode(&self, data: &[u8]) -> (b: bool)
        ensures
            b == self.decodable(data@),
    {
        let t = self.expert_dtype;
        assert(data.len() == data@.len());
        match t.checked_expert_size(self.d_ff, self.d_model) {
            None => false,
            Some(size) => size <= data.len() && t.takes_whole_blocks(self.d_ff)
                && t.takes_whole_blocks(self.d_model) && self.d_ff.checked_mul(
                self.d_model,
            ).is_some(),
        }
    }

    /// Decode an expert's gate, up and down matrices, which follow one another in
    /// its bytes. Gate and up have `d_ff` rows and `d_model` columns, down the
    /// other way round.
    pub fn decode(&self, data: &[u8]) -> (r: (Weights, Weights, Weights))
        requires
            self.decodable(data@),
        ensures
            ({
                let t = self.spec_dtype();
                let ff = self.spec_d_ff() as int;
                let model = self.spec_d_model() as int;
                let a = t.proj_bytes(ff, model);
                let b = a + t.proj_bytes(ff, model);
                let c = b + t.proj_bytes(model, ff);
                &&& r.0@ == t.weights(data@.subrange(0, a), ff, model)
                &&& r.1@ == t.weights(data@.subrange(a, b), ff, model)
                &&& r.2@ == t.weights(data@.subrange(b, c), model, ff)
            }),
    {
        let t = self.expert_dtype;
        let ff: usize = self.d_ff;
        let model: usize = self.d_model;
        proof {
            t.lemma_proj_bytes(ff, model);
            t.lemma_proj_bytes(model, ff);
            assert(ff * model == model * ff) by (nonlinear_arith);
            assert(data.len() == data@.len());
        }
        let gate_sz = t.proj_byte_size(ff, model);
        let down_sz = t.proj_byte_size(model, ff);
        let gate = t.dequant(slice_subrange(data, 0, gate_sz), ff, model);
        let up = t.dequant(slice_subrange(data, gate_sz, gate_sz + gate_sz), ff, model);
        let down = t.dequant(
            slice_subrange(data, gate_sz + gate_sz, gate_sz + gate_sz + down_sz),
            model,
            ff,
        );
        (gate, up, down)
    }

    proof fn lemma_front(&self, before: &SsdMoeBackend, id: u32, v: &ExpertResident)
        requires
            before.wf(),
            self.spec_pool() == before.spec_pool(),
            before.spec_pool().fits(v.buffer),
            self.spec_cache().entries() == crate::expert_cache::in_front(
                id,
                *v,
                crate::expert_cache::without(before.spec_cache().entries(), id),
            ),
        ensures
            forall|i: int|
                0 <= i < self.spec_cache().entries().len() ==> self.spec_pool().fits(
                    (#[trigger] self.spec_cache().entries()[i]).1.buffer,
                ),
    {
        let old_entries = before.spec_cache().entries();
        let rest = crate::expert_cache::without(old_entries, id);
        crate::expert_cache::lemma_entries_subset(old_entries, id);
        assert forall|i: int| 0 <= i < self.spec_cache().entries().len() implies self.spec_pool().fits(
            (#[trigger] self.spec_cache().entries()[i]).1.buffer,
        ) by {
            if i > 0 {
                assert(self.spec_cache().entries()[i] == rest[i - 1]);
            }
        }
    }
}

/// An expert that was loaded and kept is a hit from then on, with the bytes
/// that were read; it is kept unless the cache is full of pinned experts.
pub proof fn law_loaded_is_hit(before: &SsdMoeBackend, after: &SsdMoeBackend, v: &ExpertResident)
    requires
        before.wf(),
        after.loaded(before, *v),
        v.wf(),
    ensures
        ({
            let entries = before.spec_cache().entries();
            let full_of_pinned = entries.len() >= before.spec_cache().spec_capacity() && forall|
                i: int,
            |
                0 <= i < entries.len() ==> before.spec_cache().pinned_ids().contains(
                    (#[trigger] entries[i]).0,
                );
            !full_of_pinned ==> {
                &&& crate::expert_cache::holds(after.spec_cache().entries(), v.id)
                &&& crate::expert_cache::value_of(after.spec_cache().entries(), v.id) == *v
            }
        }),
{
    let cache = before.spec_cache();
    cache.lemma_wf();
    let (entries, pinned) = (cache.entries(), cache.pinned_ids());
    crate::expert_cache::law_refused(entries, pinned, cache.spec_capacity(), v);
    if crate::expert_cache::insertion(entries, pinned, cache.spec_capacity(), *v).1 is Inserted {
        crate::expert_cache::law_inserted_is_found(entries, pinned, cache.spec_capacity(), v);
    }
}

/// Every resident expert has all its bytes, so that it can be decoded.
pub proof fn law_resident_complete(b: &SsdMoeBackend, id: u32)
    requires
        b.wf(),
        crate::expert_cache::holds(b.spec_cache().entries(), id),
    ensures
        crate::expert_cache::value_of(b.spec_cache().entries(), id).buffer@.len()
            == b.spec_dtype().expert_bytes(b.spec_d_ff() as int, b.spec_d_model() as int),
{
    let entries = b.spec_cache().entries();
    let i = choose|i: int| 0 <= i < entries.len() && (#[trigger] entries[i]).0 == id;
    assert(b.spec_pool().fits(entries[i].1.buffer));
}

/// Loading an expert drops no pinned expert.
pub proof fn law_load_keeps_pinned(
    before: &SsdMoeBackend,
    after: &SsdMoeBackend,
    v: &ExpertResident,
    id: u32,
)
    requires
        before.wf(),
        after.loaded(before, *v),
        v.wf(),
        before.spec_cache().pinned_ids().contains(id),
        crate::expert_cache::holds(before.spec_cache().entries(), id),
    ensures
        crate::expert_cache::holds(after.spec_cache().entries(), id),
{
    let cache = before.spec_cache();
    cache.lemma_wf();
    crate::expert_cache::law_pinned_stays(
        cache.entries(),
        cache.pinned_ids(),
        cache.spec_capacity(),
        v,
        id,
    );
}

/// Only the cache and the free buffers change in use.
pub proof fn law_same_model(a: &SsdMoeBackend, b: &SsdMoeBackend)
    requires
        a.same_model(b),
    ensures
        a.spec_storage() == b.spec_storage(),
        a.spec_dtype() == b.spec_dtype(),
        a.spec_d_model() == b.spec_d_model(),
        a.spec_d_ff() == b.spec_d_ff(),
        a.spec_experts_per_tok() == b.spec_experts_per_tok(),
        a.spec_pool().spec_capacity() == b.spec_pool().spec_capacity(),
        a.spec_pool().spec_shadow_capacity() == b.spec_pool().spec_shadow_capacity(),
        a.spec_pool().spec_buffer_size() == b.spec_pool().spec_buffer_size(),
        a.spec_pool().spec_align() == b.spec_pool().spec_align(),
        a.spec_cache().spec_capacity() == b.spec_cache().spec_capacity(),
        a.spec_cache().pinned_ids() == b.spec_cache().pinned_ids(),
{
}

/// The pool's buffers and those of all residents hold one expert each, gate, up
/// and down; there is no shadow half.
pub proof fn law_backend_shape(b: &SsdMoeBackend, i: int)
    requires
        b.wf(),
    ensures
        ({
            let (ff, model) = (b.spec_d_ff() as int, b.spec_d_model() as int);
            let size = b.spec_dtype().proj_bytes(ff, model) + b.spec_dtype().proj_bytes(ff, model)
                + b.spec_dtype().proj_bytes(model, ff);
            &&& b.spec_pool().spec_buffer_size() == size
            &&& b.spec_pool().spec_shadow_capacity() == 0
            &&& 0 <= i < b.spec_cache().entries().len()
                ==> b.spec_cache().entries()[i].1.buffer@.len() == size
                && b.spec_cache().entries()[i].1.buffer.spec_align() == b.spec_pool().spec_align()
        }),
{
    if 0 <= i < b.spec_cache().entries().len() {
        assert(b.spec_pool().fits(b.spec_cache().entries()[i].1.buffer));
    }
}

/// Loading an expert that is not resident while there is room drops nothing: it
/// goes in front of all others, which stay as they are and in their order, and
/// no buffer goes back.
pub proof fn law_load_with_room(before: &SsdMoeBackend, after: &SsdMoeBackend, v: &ExpertResident)
    requires
        after.loaded(before, *v),
        before.spec_cache().entries().len() < before.spec_cache().spec_capacity(),
        forall|i: int|
            0 <= i < before.spec_cache().entries().len() ==> (
            #[trigger] before.spec_cache().entries()[i]).0 != v.id,
    ensures
        after.spec_cache().entries() == seq![(v.id, *v)] + before.spec_cache().entries(),
        after.spec_pool().free_primary() == before.spec_pool().free_primary(),
        after.spec_pool().primary_addresses() == before.spec_pool().primary_addresses(),
{
    let cache = before.spec_cache();
    crate::expert_cache::law_room_keeps_all(
        cache.entries(),
        cache.pinned_ids(),
        cache.spec_capacity(),
        v,
    );
}

/// Loading an expert into a full cache puts it in the place of the least
/// recently used one that is not pinned, the one at `at`, whose buffer goes back
/// unless it is still in use; nothing else changes.
pub proof fn law_load_in_place_of_oldest(
    before: &SsdMoeBackend,
    after: &SsdMoeBackend,
    v: &ExpertResident,
    at: int,
)
    requires
        before.wf(),
        after.loaded(before, *v),
        before.spec_cache().entries().len() >= before.spec_cache().spec_capacity(),
        forall|i: int|
            0 <= i < before.spec_cache().entries().len() ==> (
            #[trigger] before.spec_cache().entries()[i]).0 != v.id,
        0 <= at < before.spec_cache().entries().len(),
        !before.spec_cache().pinned_ids().contains(before.spec_cache().entries()[at].0),
        forall|j: int|
            at < j < before.spec_cache().entries().len()
                ==> before.spec_cache().pinned_ids().contains(
                (#[trigger] before.spec_cache().entries()[j]).0,
            ),
    ensures
        after.spec_cache().entries() == seq![(v.id, *v)] + before.spec_cache().entries().remove(at),
        ({
            let gone = before.spec_cache().entries()[at].1.buffer;
            let (old_free, new_free) = (
                before.spec_pool().free_primary(),
                after.spec_pool().free_primary(),
            );
            let (old_places, new_places) = (
                before.spec_pool().primary_addresses(),
                after.spec_pool().primary_addresses(),
            );
            ||| new_free == old_free && new_places == old_places
            ||| new_free == old_free.push(gone@) && new_places == old_places.push(
                gone.spec_address(),
            )
        }),
{
    let cache = before.spec_cache();
    cache.lemma_wf();
    crate::expert_cache::law_oldest_leaves(
        cache.entries(),
        cache.pinned_ids(),
        cache.spec_capacity(),
        v,
        at,
    );
}

/// Loading a resident expert anew puts it in the place of its former self, the
/// one at `at`, whose buffer goes back unless it is still in use; nothing else
/// changes.
pub proof fn law_load_in_own_place(
    before: &SsdMoeBackend,
    after: &SsdMoeBackend,
    v: &ExpertResident,
    at: int,
)
    requires
        before.wf(),
        after.loaded(before, *v),
        0 <= at < before.spec_cache().entries().len(),
        before.spec_cache().entries()[at].0 == v.id,
    ensures
        after.spec_cache().entries() == seq![(v.id, *v)] + before.spec_cache().entries().remove(at),
        ({
            let gone = before.spec_cache().entries()[at].1.buffer;
            let (old_free, new_free) = (
                before.spec_pool().free_primary(),
                after.spec_pool().free_primary(),
            );
            new_free == old_free || new_free == old_free.push(gone@)
        }),
{
    let cache = before.spec_cache();
    cache.lemma_wf();
    crate::expert_cache::law_resident_replaced(
        cache.entries(),
        cache.pinned_ids(),
        cache.spec_capacity(),
        v,
        at,
    );
}

/// The bytes of an expert can be decoded exactly where they hold a gate, an up
/// and a down matrix in whole blocks, and the elements of a matrix can be
/// counted.
pub proof fn law_decodable(b: &SsdMoeBackend, data: Seq<u8>)
    ensures
        ({
            let (t, ff, model) = (b.spec_dtype(), b.spec_d_ff() as int, b.spec_d_model() as int);
            b.decodable(data) <==> {
                &&& t.proj_bytes(ff, model) + t.proj_bytes(ff, model) + t.proj_bytes(model, ff)
                    <= data.len()
                &&& t.whole_blocks(ff)
                &&& t.whole_blocks(model)
                &&& ff * model <= usize::MAX
            }
        }),
{
}

/// Buffers can be allocated exactly where the first expert of the manifest, that
/// of the lowest id, is a positive number of 4096-byte blocks, and there is room
/// for at least one; without any expert there is nothing to allocate.
pub proof fn law_allocatable(
    manifest: Manifest,
    id: u32,
    cache_slots: usize,
    d_model: usize,
    d_ff: usize,
)
    ensures
        ({
            let map = manifest.expert_map@;
            let t = ExpertDtype::named(map[id].dtype@);
            let (ff, model) = (d_ff as int, d_model as int);
            let size = t.proj_bytes(ff, model) + t.proj_bytes(ff, model) + t.proj_bytes(model, ff);
            map.contains_key(id) && (forall|k: u32| #[trigger] map.contains_key(k) ==> id <= k)
                ==> (SsdMoeBackend::allocatable(manifest, cache_slots, d_model, d_ff) <==> {
                &&& 0 < cache_slots <= isize::MAX / 64
                &&& 0 < size <= isize::MAX
                &&& size % 4096 == 0
            })
        }),
        (forall|k: u32| !#[trigger] manifest.expert_map@.contains_key(k))
            ==> SsdMoeBackend::allocatable(manifest, cache_slots, d_model, d_ff),
{
    crate::manifest::law_lowest_entry(manifest.expert_map@, id);
}

/// Buffers lie at the blocks of a disk: at multiples of 4096.
pub proof fn law_buffer_align(a: usize)
    ensures
        a as int % BUFFER_ALIGN as int == 0 <==> a as int % 4096 == 0,
        BUFFER_ALIGN == 4096,
{
}

/// What goes back to the pool becomes its last free buffer, with its bytes;
/// where nothing goes back, the free buffers stay as they are.
pub proof fn law_buffer_returned(
    before: &SsdMoeBackend,
    after: &SsdMoeBackend,
    buffer: &PooledBuffer,
)
    requires
        before.wf(),
    ensures
        after.returned(before, buffer) ==> {
            &&& after.spec_pool().free_primary() == before.spec_pool().free_primary().push(buffer@)
            &&& after.spec_pool().primary_addresses()
                == before.spec_pool().primary_addresses().push(buffer.spec_address())
        },
        after.same_pool(before) ==> {
            &&& after.spec_pool().free_primary() == before.spec_pool().free_primary()
            &&& after.spec_pool().primary_addresses() == before.spec_pool().primary_addresses()
        },
{
}

/// Loading an expert that is not resident into a full cache of pinned experts
/// changes neither the cache nor the free buffers.
pub proof fn law_load_not_kept(before: &SsdMoeBackend, after: &SsdMoeBackend, v: &ExpertResident)
    requires
        after.loaded(before, *v),
        before.spec_cache().entries().len() >= before.spec_cache().spec_capacity(),
        forall|i: int|
            0 <= i < before.spec_cache().entries().len() ==> (
            #[trigger] before.spec_cache().entries()[i]).0 != v.id
                && before.spec_cache().pinned_ids().contains(before.spec_cache().entries()[i].0),
    ensures
        after.spec_cache().entries() == before.spec_cache().entries(),
        after.spec_pool().free_primary() == before.spec_pool().free_primary(),
        after.spec_pool().primary_addresses() == before.spec_pool().primary_addresses(),
{
    let cache = before.spec_cache();
    let entries = cache.entries();
    assert forall|i: int| 0 <= i < entries.len() implies cache.pinned_ids().contains(
        (#[trigger] entries[i]).0,
    ) by {
        assert(before.spec_cache().entries()[i].0 != v.id);
    }
    crate::expert_cache::law_pinned_refuse(
        entries,
        cache.pinned_ids(),
        cache.spec_capacity(),
        v,
    );
}

} // verus!

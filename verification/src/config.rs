//! Configuration of expert streaming.

use vstd::prelude::*;

verus! {

#[derive(Clone, Debug)]
pub struct SsdMoeConfig {
    pub expert_dir: String,
    pub cache_slots: usize,
    /// Number of experts to speculatively prefetch per token (0 = disabled).
    pub prefetch_fanout: usize,
    /// Enable the locality monitor (pins hot experts in cache).
    pub locality_enabled: bool,
}

impl SsdMoeConfig {
    pub fn new(expert_dir: String) -> (c: Self)
        ensures
            c.expert_dir == expert_dir,
            c.cache_slots == 256,
            c.prefetch_fanout == 0,
            !c.locality_enabled,
    {
        SsdMoeConfig { expert_dir, cache_slots: 256, prefetch_fanout: 0, locality_enabled: false }
    }

    pub fn with_cache_slots(self, n: usize) -> (c: Self)
        ensures
            c == (SsdMoeConfig { cache_slots: n, ..self }),
    {
        SsdMoeConfig { cache_slots: n, ..self }
    }

    pub fn with_prefetch(self, fanout: usize) -> (c: Self)
        ensures
            c == (SsdMoeConfig { prefetch_fanout: fanout, ..self }),
    {
        SsdMoeConfig { prefetch_fanout: fanout, ..self }
    }

    pub fn with_locality(self, on: bool) -> (c: Self)
        ensures
            c == (SsdMoeConfig { locality_enabled: on, ..self }),
    {
        SsdMoeConfig { locality_enabled: on, ..self }
    }
}

} // verus!

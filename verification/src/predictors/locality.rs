//! Sliding-window locality monitor: tracks recently active experts to pin hot
//! ones.

use std::collections::VecDeque;
use vstd::prelude::*;

verus! {

/// The window after `id` is observed: a full window first loses its oldest
/// observation.
pub open spec fn slid(window: Seq<u32>, window_size: nat, id: u32) -> Seq<u32> {
    if window.len() >= window_size && window.len() > 0 {
        window.drop_first().push(id)
    } else {
        window.push(id)
    }
}

/// The window after `ids` are observed in turn.
pub open spec fn slid_all(window: Seq<u32>, window_size: nat, ids: Seq<u32>) -> Seq<u32>
    decreases ids.len(),
{
    if ids.len() == 0 {
        window
    } else {
        slid(slid_all(window, window_size, ids.drop_last()), window_size, ids.last())
    }
}

/// Of the first `n` experts, those that occur at least `min_count` times in
/// the window, in order of their number.
pub open spec fn hot_ids(window: Seq<u32>, min_count: nat, n: nat) -> Seq<u32>
    decreases n,
{
    if n == 0 {
        Seq::empty()
    } else {
        let rest = hot_ids(window, min_count, (n - 1) as nat);
        if crate::predictors::counting::occurrences(window, n - 1) >= min_count {
            rest.push((n - 1) as u32)
        } else {
            rest
        }
    }
}

pub open spec fn ascending(s: Seq<u32>) -> bool {
    forall|i: int, j: int| 0 <= i < j < s.len() ==> s[i] <= s[j]
}

/// Ids in ascending order.
pub open spec fn sorted(ids: Seq<u32>) -> Seq<u32> {
    ids.sort_by(|a: u32, b: u32| a <= b)
}

pub struct LocalityMonitor {
    window: VecDeque<u32>,
    window_size: usize,
    counts: Vec<usize>,
    total: usize,
}

impl LocalityMonitor {
    /// The observations in the window, oldest first.
    pub closed spec fn recent(&self) -> Seq<u32> {
        self.window@
    }

    pub closed spec fn capacity(&self) -> nat {
        self.window_size as nat
    }

    pub closed spec fn experts(&self) -> nat {
        self.counts@.len()
    }

    /// The experts that occur at least `min_count` times in the window, in
    /// ascending order; none when nothing was observed.
    pub open spec fn hot(&self, min_count: nat) -> Seq<u32> {
        if self.recent().len() == 0 {
            Seq::empty()
        } else {
            sorted(hot_ids(self.recent(), min_count, self.experts()))
        }
    }

    /// The counts are those of the window.
    pub closed spec fn wf(&self) -> bool {
        &&& self.total == self.window@.len()
        &&& forall|i: int|
            0 <= i < self.window@.len() ==> (#[trigger] self.window@[i]) < self.counts@.len()
        &&& forall|x: int|
            0 <= x < self.counts@.len() ==> #[trigger] self.counts@[x]
                == crate::predictors::counting::occurrences(self.window@, x)
    }

    pub fn new(num_experts: usize, window_size: usize) -> (m: Self)
        ensures
            m.wf(),
            m.recent() == Seq::<u32>::empty(),
            m.capacity() == window_size,
            m.experts() == num_experts,
    {
        LocalityMonitor {
            window: VecDeque::new(),
            window_size,
            counts: vec![0; num_experts],
            total: 0,
        }
    }

    /// The number of observations in the window.
    pub fn total(&self) -> (n: usize)
        requires
            self.wf(),
        ensures
            n == self.recent().len(),
    {
        self.total
    }

    /// Whether `id` names an expert.
    pub fn knows(&self, id: u32) -> (b: bool)
        ensures
            b == (id < self.experts()),
    {
        (id as usize) < self.counts.len()
    }

    pub fn observe_one(&mut self, id: u32)
        requires
            old(self).wf(),
            id < old(self).experts(),
        ensures
            final(self).wf(),
            final(self).capacity() == old(self).capacity(),
            final(self).experts() == old(self).experts(),
            final(self).recent() == slid(old(self).recent(), old(self).capacity(), id),
    {
        if self.window.len() >= self.window_size {
            let ghost full = self.window@;
            if let Some(gone) = self.window.pop_front() {
                assert(self.window@ =~= full.drop_first());
                proof {
                    assert forall|x: int| true implies #[trigger] crate::predictors::counting::occurrences(full, x)
                        == crate::predictors::counting::occurrences(self.window@, x)
                        + if gone as int == x { 1nat } else { 0nat } by {
                        crate::predictors::counting::lemma_drop_first(full, x);
                    }
                }
                self.counts[gone as usize] = self.counts[gone as usize].saturating_sub(1);
                self.total = self.total.saturating_sub(1);
            }
        }
        let ghost kept = self.window@;
        proof {
            crate::predictors::counting::lemma_bounds(kept, id as int);
            assert forall|x: int| true implies #[trigger] crate::predictors::counting::occurrences(kept.push(id), x)
                == crate::predictors::counting::occurrences(kept, x)
                + if id as int == x { 1nat } else { 0nat } by {
                crate::predictors::counting::lemma_push(kept, id, x);
            }
        }
        self.window.push_back(id);
        self.counts[id as usize] = self.counts[id as usize] + 1;
        self.total = self.total + 1;
    }

    pub fn observe(&mut self, ids: &[u32])
        requires
            old(self).wf(),
            forall|i: int| 0 <= i < ids@.len() ==> (#[trigger] ids@[i]) < old(self).experts(),
        ensures
            final(self).wf(),
            final(self).capacity() == old(self).capacity(),
            final(self).experts() == old(self).experts(),
            final(self).recent() == slid_all(old(self).recent(), old(self).capacity(), ids@),
    {
        let mut i: usize = 0;
        while i < ids.len()
            invariant
                i <= ids@.len(),
                self.wf(),
                self.capacity() == old(self).capacity(),
                self.experts() == old(self).experts(),
                forall|k: int| 0 <= k < ids@.len() ==> (#[trigger] ids@[k]) < old(self).experts(),
                self.recent() == slid_all(
                    old(self).recent(),
                    old(self).capacity(),
                    ids@.take(i as int),
                ),
            decreases ids.len() - i,
        {
            self.observe_one(ids[i]);
            assert(ids@.take(i + 1).drop_last() =~= ids@.take(i as int));
            i = i + 1;
        }
        assert(ids@.take(i as int) =~= ids@);
    }

    /// The experts that occur at least `min_count` times in the window, in
    /// ascending order; none when nothing was observed.
    pub fn hot_set(&self, min_count: usize) -> (hot: Vec<u32>)
        requires
            self.wf(),
        ensures
            hot@ == self.hot(min_count as nat),
            ascending(hot@),
    {
        let mut hot: Vec<u32> = Vec::new();
        if self.total == 0 {
            return hot;
        }
        let mut id: usize = 0;
        while id < self.counts.len()
            invariant
                self.wf(),
                id <= self.counts@.len(),
                ascending(hot@),
                hot@.to_multiset() == hot_ids(
                    self.recent(),
                    min_count as nat,
                    id as nat,
                ).to_multiset(),
            decreases self.counts.len() - id,
        {
            if self.counts[id] >= min_count {
                insert_sorted(&mut hot, id as u32);
                proof {
                    vstd::seq_lib::to_multiset_build(
                        hot_ids(self.recent(), min_count as nat, id as nat),
                        id as u32,
                    );
                }
            }
            id = id + 1;
        }
        proof {
            lemma_sorted(hot_ids(self.recent(), min_count as nat, self.experts()), hot@);
        }
        hot
    }
}

/// Puts `id` behind the ids that are not greater.
fn insert_sorted(ids: &mut Vec<u32>, id: u32)
    requires
        ascending(old(ids)@),
    ensures
        ascending(final(ids)@),
        final(ids)@.to_multiset() == old(ids)@.to_multiset().insert(id),
{
    let mut pos: usize = ids.len();
    while pos > 0 && ids[pos - 1] > id
        invariant
            pos <= ids@.len(),
            ids@ == old(ids)@,
            forall|i: int| pos <= i < ids@.len() ==> ids@[i] > id,
        decreases pos,
    {
        pos = pos - 1;
    }
    proof {
        vstd::seq_lib::to_multiset_insert(ids@, pos as int, id);
    }
    ids.insert(pos, id);
}

/// The window holds the latest observations, as many as fit (at least one).
pub proof fn law_window_recent(window_size: nat, ids: Seq<u32>)
    ensures
        ({
            let room = if window_size == 0 { 1int } else { window_size as int };
            slid_all(Seq::empty(), window_size, ids) == if ids.len() <= room {
                ids
            } else {
                ids.skip(ids.len() - room)
            }
        }),
    decreases ids.len(),
{
    if ids.len() > 0 {
        law_window_recent(window_size, ids.drop_last());
        let room = if window_size == 0 { 1int } else { window_size as int };
        let expected = if ids.len() <= room {
            ids
        } else {
            ids.skip(ids.len() - room)
        };
        assert(slid_all(Seq::empty(), window_size, ids) =~= expected);
    } else {
        assert(slid_all(Seq::empty(), window_size, ids) =~= ids);
    }
}

/// An expert is hot exactly when it occurs at least `min_count` times.
pub proof fn law_hot_members(window: Seq<u32>, min_count: nat, n: nat, id: u32)
    requires
        n <= 0x1_0000_0000,
    ensures
        hot_ids(window, min_count, n).contains(id) <==> id < n
            && crate::predictors::counting::occurrences(window, id as int) >= min_count,
    decreases n,
{
    if n > 0 {
        let m = (n - 1) as nat;
        law_hot_members(window, min_count, m, id);
        let rest = hot_ids(window, min_count, m);
        let all = hot_ids(window, min_count, n);
        if rest.contains(id) && all.len() > rest.len() {
            let i = choose|i: int| 0 <= i < rest.len() && rest[i] == id;
            assert(all[i] == id);
        }
        if all.contains(id) && !rest.contains(id) {
            let i = choose|i: int| 0 <= i < all.len() && all[i] == id;
            if i < rest.len() {
                assert(rest[i] == id);
            }
        }
        if all.len() > rest.len() {
            assert(all[rest.len() as int] == m as u32);
        }
    }
}

/// With every expert number below 2^32, the hot set holds the hot experts in
/// ascending order, each once.
pub proof fn law_hot_set_is_hot_ids(window: Seq<u32>, min_count: nat, n: nat)
    requires
        n <= 0x1_0000_0000,
    ensures
        sorted(hot_ids(window, min_count, n)) == hot_ids(window, min_count, n),
        hot_ids(window, min_count, n).no_duplicates(),
{
    let ids = hot_ids(window, min_count, n);
    lemma_hot_ascending(window, min_count, n);
    lemma_sorted(ids, ids);
}

/// There is one way to put ids in ascending order.
proof fn lemma_sorted(ids: Seq<u32>, s: Seq<u32>)
    requires
        ascending(s),
        s.to_multiset() == ids.to_multiset(),
    ensures
        s == sorted(ids),
{
    let leq = |a: u32, b: u32| a <= b;
    assert(vstd::relations::sorted_by(s, leq));
    assert(vstd::relations::total_ordering(leq));
    ids.lemma_sort_by_ensures(leq);
    vstd::seq_lib::lemma_sorted_unique(s, ids.sort_by(leq), leq);
}

proof fn lemma_hot_ascending(window: Seq<u32>, min_count: nat, n: nat)
    requires
        n <= 0x1_0000_0000,
    ensures
        ({
            let ids = hot_ids(window, min_count, n);
            &&& forall|i: int| 0 <= i < ids.len() ==> (#[trigger] ids[i]) < n
            &&& forall|i: int, j: int| 0 <= i < j < ids.len() ==> ids[i] < ids[j]
        }),
    decreases n,
{
    if n > 0 {
        lemma_hot_ascending(window, min_count, (n - 1) as nat);
        let rest = hot_ids(window, min_count, (n - 1) as nat);
        let ids = hot_ids(window, min_count, n);
        assert(ids == rest || ids == rest.push((n - 1) as u32));
        assert forall|i: int| 0 <= i < ids.len() implies (#[trigger] ids[i]) < n by {
            if i < rest.len() {
                assert(ids[i] == rest[i]);
            }
        }
        assert forall|i: int, j: int| 0 <= i < j < ids.len() implies ids[i] < ids[j] by {
            assert(ids[i] == rest[i]);
            if j < rest.len() {
                assert(ids[j] == rest[j]);
            }
        }
    }
}

/// Observing puts an id behind the others; the oldest one goes where the window
/// is full. Observing two runs of ids is observing one after the other.
pub proof fn law_window_slides(
    window: Seq<u32>,
    window_size: nat,
    a: Seq<u32>,
    b: Seq<u32>,
    id: u32,
)
    ensures
        window.len() < window_size || window.len() == 0 ==> slid(window, window_size, id)
            == window.push(id),
        window.len() >= window_size && window.len() > 0 ==> slid(window, window_size, id)
            == window.skip(1).push(id),
        slid_all(window, window_size, Seq::<u32>::empty()) == window,
        slid_all(window, window_size, seq![id]) == slid(window, window_size, id),
        slid_all(window, window_size, a + b) == slid_all(
            slid_all(window, window_size, a),
            window_size,
            b,
        ),
    decreases b.len(),
{
    reveal_with_fuel(slid_all, 2);
    assert(seq![id].drop_last() =~= Seq::<u32>::empty());
    assert(window.len() > 0 ==> window.drop_first() =~= window.skip(1));
    if b.len() == 0 {
        assert(a + b =~= a);
    } else {
        law_window_slides(window, window_size, a, b.drop_last(), id);
        assert((a + b).drop_last() =~= a + b.drop_last());
        assert((a + b).last() == b.last());
    }
}

/// Hot are exactly the experts that stand in the window at least `min_count`
/// times, each once and in ascending order; none where nothing was observed.
pub proof fn law_hot(m: LocalityMonitor, min_count: nat, id: u32, i: int, j: int)
    requires
        m.experts() <= 0x1_0000_0000,
    ensures
        m.hot(min_count).contains(id) <==> m.recent().len() > 0 && id < m.experts()
            && m.recent().to_multiset().count(id) >= min_count,
        0 <= i < j < m.hot(min_count).len() ==> m.hot(min_count)[i] < m.hot(min_count)[j],
{
    crate::predictors::counting::law_occurrences(m.recent(), Seq::empty(), id);
    if m.recent().len() > 0 {
        law_hot_members(m.recent(), min_count, m.experts(), id);
        law_hot_set_is_hot_ids(m.recent(), min_count, m.experts());
        lemma_hot_ascending(m.recent(), min_count, m.experts());
    }
}

/// Only experts stand in the window.
pub proof fn law_window_holds_experts(m: LocalityMonitor, i: int)
    requires
        m.wf(),
        0 <= i < m.recent().len(),
    ensures
        m.recent()[i] < m.experts(),
{
}

} // verus!

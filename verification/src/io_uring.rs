//! Reads through the kernel's submission ring, into buffers that it knows.
//!
//! Every free buffer of the pool is registered once, so that a read names its
//! buffer by number. The reads of a batch are submitted in chunks that fit the
//! ring, and the batch ends when each of them has completed. A batch is a
//! [`Batch`]: it says which files to open and which reads to submit, is told
//! what completed, and gives the result.

use crate::buffer_pool::{BufferPool, PooledBuffer};
use crate::storage::default_file_name;
use crate::text::join_path;
use std::collections::HashMap;
use vstd::prelude::*;
use vstd::string::*;

verus! {

/// Where the experts lie, how large each is, and how many reads the ring holds.
pub struct IoUringConfig {
    pub base_path: String,
    pub expert_size: usize,
    pub queue_depth: u32,
}

impl Default for IoUringConfig {
    fn default() -> (c: Self)
        ensures
            c.base_path@ == "."@,
            c.expert_size == 0,
            c.queue_depth == 64,
    {
        let mut base_path: String = String::new();
        base_path.append(".");
        assert(base_path@ =~= "."@);
        IoUringConfig { base_path, expert_size: 0, queue_depth: 64 }
    }
}

/// Why a storage cannot be set up, or a batch failed.
#[derive(Clone, Copy, Debug, PartialEq, Eq, Structural)]
pub enum UringError {
    /// The pool has no free buffer to register.
    EmptyPool,
    /// The ring is to hold no read at all.
    ZeroDepth,
    /// A buffer was not registered.
    NotRegistered,
    /// The kernel refused a read; `result` is the negated error number.
    Failed { expert: u64, result: i32 },
    /// A read gave another number of bytes than an expert has.
    ShortRead { expert: u64, got: usize, expected: usize },
}

/// The reads that a caller asks for: expert `ids[i]` into the buffer at
/// `ptrs[i]`.
pub struct ReactorRequest {
    pub ids: Vec<u32>,
    pub ptrs: Vec<usize>,
    pub len: usize,
}

/// The number under which `address` was registered: its last place in the list,
/// cut to 16 bits.
pub open spec fn number_of(list: Seq<usize>, address: usize) -> Option<u16>
    decreases list.len(),
{
    if list.len() == 0 {
        None
    } else if list.last() == address {
        Some((list.len() - 1) as u16)
    } else {
        number_of(list.drop_last(), address)
    }
}

/// The registered buffers of a pool and what is needed to read into them.
pub struct IoUringStorage {
    base_path: String,
    expert_size: usize,
    queue_depth: usize,
    buf_index: HashMap<usize, u16>,
    registered: Ghost<Seq<usize>>,
}

impl IoUringStorage {
    pub closed spec fn wf(&self) -> bool {
        &&& self.queue_depth > 0
        &&& forall|a: usize| #[trigger]
            self.buf_index@.contains_key(a) <==> number_of(self.registered@, a) is Some
        &&& forall|a: usize| #[trigger]
            self.buf_index@.contains_key(a) ==> self.buf_index@[a] == number_of(
                self.registered@,
                a,
            )->0
    }

    /// The addresses of the registered buffers, in order of their numbers.
    pub closed spec fn addresses(&self) -> Seq<usize> {
        self.registered@
    }

    pub closed spec fn directory(&self) -> Seq<char> {
        self.base_path@
    }

    pub closed spec fn spec_expert_size(&self) -> usize {
        self.expert_size
    }

    /// How many reads the ring holds.
    pub closed spec fn depth(&self) -> nat {
        self.queue_depth as nat
    }

    /// Registers every free buffer of `pool`. A pool without one and a ring of
    /// depth zero are refused.
    pub fn new(cfg: IoUringConfig, pool: &BufferPool) -> (r: Result<Self, UringError>)
        requires
            pool.wf(),
        ensures
            ({
                let all = pool.primary_addresses() + pool.shadow_addresses();
                match r {
                    Ok(s) => {
                        &&& all.len() > 0
                        &&& cfg.queue_depth > 0
                        &&& s.wf()
                        &&& s.addresses() == all
                        &&& s.directory() == cfg.base_path@
                        &&& s.spec_expert_size() == cfg.expert_size
                        &&& s.depth() == cfg.queue_depth
                    },
                    Err(UringError::EmptyPool) => all.len() == 0,
                    Err(UringError::ZeroDepth) => all.len() > 0 && cfg.queue_depth == 0,
                    Err(_) => false,
                }
            }),
    {
        let iovecs = pool.raw_iovecs();
        let ghost all = pool.primary_addresses() + pool.shadow_addresses();
        if iovecs.len() == 0 {
            return Err(UringError::EmptyPool);
        }
        if cfg.queue_depth == 0 {
            return Err(UringError::ZeroDepth);
        }
        let mut buf_index: HashMap<usize, u16> = HashMap::new();
        let mut i: usize = 0;
        assert(all.take(0) =~= Seq::<usize>::empty());
        while i < iovecs.len()
            invariant
                i <= iovecs@.len(),
                iovecs@.len() == all.len(),
                forall|k: int| 0 <= k < all.len() ==> (#[trigger] iovecs@[k]).0 == all[k],
                forall|a: usize| #[trigger]
                    buf_index@.contains_key(a) <==> number_of(all.take(i as int), a) is Some,
                forall|a: usize| #[trigger]
                    buf_index@.contains_key(a) ==> buf_index@[a] == number_of(
                        all.take(i as int),
                        a,
                    )->0,
            decreases iovecs.len() - i,
        {
            buf_index.insert(iovecs[i].0, i as u16);
            assert(all.take(i + 1).drop_last() =~= all.take(i as int));
            i = i + 1;
        }
        assert(all.take(i as int) =~= all);
        Ok(
            IoUringStorage {
                base_path: cfg.base_path,
                expert_size: cfg.expert_size,
                queue_depth: cfg.queue_depth as usize,
                buf_index,
                registered: Ghost(all),
            },
        )
    }

    /// Number of bytes per expert.
    pub fn expert_size(&self) -> (n: usize)
        ensures
            n == self.spec_expert_size(),
    {
        self.expert_size
    }

    /// How many reads the ring holds.
    pub fn queue_depth(&self) -> (n: usize)
        ensures
            n == self.depth(),
    {
        self.queue_depth
    }

    /// The file of an expert.
    pub fn expert_path(&self, id: u32) -> (p: String)
        ensures
            p@ == crate::text::joined(self.directory(), crate::storage::default_file(id)),
    {
        join_path(self.base_path.as_str(), default_file_name(id).as_str())
    }

    /// Asks for one expert.
    pub fn read_expert(&self, expert_id: u32, buf: &PooledBuffer) -> (r: ReactorRequest)
        requires
            buf.wf(),
            buf@.len() == self.spec_expert_size(),
        ensures
            r.ids@ == seq![expert_id],
            r.ptrs@ == seq![buf.spec_address()],
            r.len == self.spec_expert_size(),
    {
        let mut ids: Vec<u32> = Vec::new();
        ids.push(expert_id);
        let mut ptrs: Vec<usize> = Vec::new();
        ptrs.push(buf.address());
        assert(ids@ =~= seq![expert_id]);
        assert(ptrs@ =~= seq![buf.spec_address()]);
        ReactorRequest { ids, ptrs, len: self.expert_size }
    }

    /// Asks for a list of experts; there is nothing to ask for where the list
    /// is empty.
    pub fn read_experts_batch(&self, ids: &[u32], bufs: &[&PooledBuffer]) -> (r: Option<
        ReactorRequest,
    >)
        requires
            ids@.len() == bufs@.len(),
            forall|i: int| 0 <= i < bufs@.len() ==> (#[trigger] bufs@[i]).wf(),
        ensures
            r is None <==> ids@.len() == 0,
            r matches Some(q) ==> {
                &&& q.ids@ == ids@
                &&& q.ptrs@.len() == ids@.len()
                &&& forall|i: int|
                    0 <= i < bufs@.len() ==> #[trigger] q.ptrs@[i] == bufs@[i].spec_address()
                &&& q.len == self.spec_expert_size()
            },
    {
        if ids.len() == 0 {
            return None;
        }
        let mut ptrs: Vec<usize> = Vec::new();
        let mut i: usize = 0;
        while i < bufs.len()
            invariant
                i <= bufs@.len(),
                ptrs@.len() == i,
                forall|k: int| 0 <= k < bufs@.len() ==> (#[trigger] bufs@[k]).wf(),
                forall|k: int| 0 <= k < i ==> #[trigger] ptrs@[k] == bufs@[k].spec_address(),
            decreases bufs.len() - i,
        {
            assert(bufs@[i as int].wf());
            ptrs.push(bufs[i].address());
            i = i + 1;
        }
        Some(ReactorRequest { ids: vstd::slice::slice_to_vec(ids), ptrs, len: self.expert_size })
    }
}

/// The files that are open: a number for each expert whose file is.
pub struct FileTable {
    slots: HashMap<u32, usize>,
    count: usize,
}

impl FileTable {
    /// The number of the open file of each expert that has one.
    pub closed spec fn open(&self) -> Map<u32, usize> {
        self.slots@
    }

    /// How many files were opened.
    pub closed spec fn opened(&self) -> nat {
        self.count as nat
    }

    /// The numbers are those of opened files.
    pub closed spec fn wf(&self) -> bool {
        forall|id: u32| #[trigger]
            self.slots@.contains_key(id) ==> self.slots@[id] < self.count
    }

    pub fn new() -> (t: Self)
        ensures
            t.wf(),
            t.open() == Map::<u32, usize>::empty(),
            t.opened() == 0,
    {
        FileTable { slots: HashMap::new(), count: 0 }
    }

    /// The number of an expert's open file.
    pub fn slot(&self, id: u32) -> (s: Option<usize>)
        requires
            self.wf(),
        ensures
            s == if self.open().contains_key(id) {
                Some(self.open()[id])
            } else {
                None
            },
            s matches Some(n) ==> n < self.opened(),
    {
        match self.slots.get(&id) {
            Some(n) => Some(*n),
            None => None,
        }
    }

    /// Notes that an expert's file was opened, and gives it the next number.
    pub fn add(&mut self, id: u32) -> (slot: usize)
        requires
            old(self).wf(),
            old(self).opened() < usize::MAX,
        ensures
            final(self).wf(),
            slot == old(self).opened(),
            final(self).opened() == old(self).opened() + 1,
            final(self).open() == old(self).open().insert(id, slot),
    {
        let slot = self.count;
        self.slots.insert(id, slot);
        self.count = slot + 1;
        slot
    }
}

/// What a batch needs before its reads can be submitted.
pub enum OpenStep {
    /// The file of expert `id` is to be opened.
    Open { id: u32, path: String },
    /// All files are open.
    Ready,
}

/// One read to submit: `len` bytes from the start of the open file with number
/// `file`, into the registered buffer with number `buf_index`, at `ptr`.
#[derive(Clone, Copy, Debug, PartialEq, Eq, Structural)]
pub struct ReadEntry {
    pub file: usize,
    pub ptr: usize,
    pub len: u32,
    pub buf_index: u16,
    pub user_data: u64,
}

/// What is wrong with a completion: it failed, or gave another number of bytes
/// than an expert has.
pub open spec fn failure_of(expert: u64, result: i32, expert_size: usize) -> Option<UringError> {
    if result < 0 {
        Some(UringError::Failed { expert, result })
    } else if result != expert_size {
        Some(UringError::ShortRead { expert, got: result as usize, expected: expert_size })
    } else {
        None
    }
}

/// What is wrong with the first completion that has something wrong with it.
pub open spec fn first_failure(done: Seq<(u64, i32)>, expert_size: usize) -> Option<UringError>
    decreases done.len(),
{
    if done.len() == 0 {
        None
    } else {
        match first_failure(done.drop_last(), expert_size) {
            Some(e) => Some(e),
            None => failure_of(done.last().0, done.last().1, expert_size),
        }
    }
}

/// How many bytes the completions that have nothing wrong with them gave.
pub open spec fn bytes_read(done: Seq<(u64, i32)>, expert_size: usize) -> nat
    decreases done.len(),
{
    if done.len() == 0 {
        0
    } else {
        bytes_read(done.drop_last(), expert_size) + if failure_of(
            done.last().0,
            done.last().1,
            expert_size,
        ) is None {
            expert_size as nat
        } else {
            0
        }
    }
}

/// Where a chunk of at most `depth` reads ends that starts at `from`.
pub open spec fn end_of_chunk(from: nat, depth: nat, total: nat) -> nat {
    if from + depth < total {
        from + depth
    } else {
        total
    }
}

/// A batch of reads on its way through the ring.
pub struct Batch {
    ids: Vec<u32>,
    ptrs: Vec<usize>,
    expert_size: usize,
    queue_depth: usize,
    files: Vec<usize>,
    pushed: usize,
    drained: usize,
    total_bytes: usize,
    first_err: Option<UringError>,
    done: Ghost<Seq<(u64, i32)>>,
}

impl Batch {
    /// The experts to read.
    pub closed spec fn experts(&self) -> Seq<u32> {
        self.ids@
    }

    /// The addresses of their buffers.
    pub closed spec fn targets(&self) -> Seq<usize> {
        self.ptrs@
    }

    /// The numbers of the files found so far.
    pub closed spec fn found_files(&self) -> Seq<usize> {
        self.files@
    }

    pub closed spec fn size(&self) -> usize {
        self.expert_size
    }

    /// How many reads a chunk has at most.
    pub closed spec fn depth(&self) -> nat {
        self.queue_depth as nat
    }

    /// How many reads were handed out for submission.
    pub closed spec fn submitted(&self) -> nat {
        self.pushed as nat
    }

    /// The completions so far: the number that the read was given, and its
    /// result.
    pub closed spec fn completions(&self) -> Seq<(u64, i32)> {
        self.done@
    }

    pub closed spec fn wf(&self) -> bool {
        &&& self.ptrs@.len() == self.ids@.len()
        &&& self.queue_depth > 0
        &&& self.files@.len() <= self.ids@.len()
        &&& self.pushed <= self.files@.len()
        &&& self.drained == self.done@.len()
        &&& self.drained <= self.ids@.len()
        &&& self.ids@.len() * self.expert_size <= usize::MAX
        &&& self.total_bytes == bytes_read(self.done@, self.expert_size)
        &&& self.first_err == first_failure(self.done@, self.expert_size)
    }

    /// What was asked for is what `other` was asked for.
    pub open spec fn same_request(&self, other: &Batch) -> bool {
        &&& self.experts() == other.experts()
        &&& self.targets() == other.targets()
        &&& self.size() == other.size()
        &&& self.depth() == other.depth()
    }

    /// Read `i`, into the buffer with number `number`.
    pub open spec fn entry(&self, i: int, number: u16) -> ReadEntry {
        ReadEntry {
            file: self.found_files()[i],
            ptr: self.targets()[i],
            len: self.size() as u32,
            buf_index: number,
            user_data: self.experts()[i] as u64,
        }
    }

    /// The end of the next chunk.
    pub open spec fn chunk_end(&self) -> nat {
        end_of_chunk(self.submitted(), self.depth(), self.experts().len())
    }

    /// A batch at its start.
    pub fn new(storage: &IoUringStorage, request: ReactorRequest) -> (b: Self)
        requires
            storage.wf(),
            request.ptrs@.len() == request.ids@.len(),
            request.ids@.len() * storage.spec_expert_size() <= usize::MAX,
        ensures
            b.wf(),
            b.experts() == request.ids@,
            b.targets() == request.ptrs@,
            b.size() == storage.spec_expert_size(),
            b.depth() == storage.depth(),
            b.found_files() == Seq::<usize>::empty(),
            b.submitted() == 0,
            b.completions() == Seq::<(u64, i32)>::empty(),
    {
        Batch {
            ids: request.ids,
            ptrs: request.ptrs,
            expert_size: storage.expert_size,
            queue_depth: storage.queue_depth,
            files: Vec::new(),
            pushed: 0,
            drained: 0,
            total_bytes: 0,
            first_err: None,
            done: Ghost(Seq::empty()),
        }
    }

    /// Looks up the files of the experts, in order, up to the first that is
    /// not open.
    pub fn next_open(&mut self, storage: &IoUringStorage, table: &FileTable) -> (step: OpenStep)
        requires
            old(self).wf(),
            storage.wf(),
            table.wf(),
        ensures
            final(self).wf(),
            final(self).same_request(old(self)),
            final(self).submitted() == old(self).submitted(),
            final(self).completions() == old(self).completions(),
            ({
                let n = old(self).found_files().len();
                let m = final(self).found_files().len();
                &&& n <= m <= final(self).experts().len()
                &&& forall|i: int|
                    0 <= i < n ==> #[trigger] final(self).found_files()[i] == old(
                        self,
                    ).found_files()[i]
                &&& forall|i: int|
                    n <= i < m ==> {
                        &&& table.open().contains_key(#[trigger] final(self).experts()[i])
                        &&& final(self).found_files()[i] == table.open()[final(self).experts()[i]]
                        &&& final(self).found_files()[i] < table.opened()
                    }
                &&& match step {
                    OpenStep::Open { id, path } => {
                        &&& m < final(self).experts().len()
                        &&& id == final(self).experts()[m as int]
                        &&& !table.open().contains_key(id)
                        &&& path@ == crate::text::joined(
                            storage.directory(),
                            crate::storage::default_file(id),
                        )
                    },
                    OpenStep::Ready => m == final(self).experts().len(),
                }
            }),
    {
        let ghost start = self.files@;
        while self.files.len() < self.ids.len()
            invariant
                self.wf(),
                storage.wf(),
                table.wf(),
                self.same_request(old(self)),
                self.pushed == old(self).pushed,
                self.done@ == old(self).done@,
                start == old(self).files@,
                start.len() <= self.files@.len() <= self.ids@.len(),
                forall|i: int| 0 <= i < start.len() ==> #[trigger] self.files@[i] == start[i],
                forall|i: int|
                    start.len() <= i < self.files@.len() ==> {
                        &&& table.open().contains_key(#[trigger] self.ids@[i])
                        &&& self.files@[i] == table.open()[self.ids@[i]]
                        &&& self.files@[i] < table.opened()
                    },
            decreases self.ids.len() - self.files.len(),
        {
            let id = self.ids[self.files.len()];
            match table.slot(id) {
                Some(slot) => {
                    self.files.push(slot);
                },
                None => {
                    return OpenStep::Open { id, path: storage.expert_path(id) };
                },
            }
        }
        OpenStep::Ready
    }

    /// The next chunk of reads to submit, at most as many as the ring holds;
    /// none when all were handed out. A buffer that is not registered fails
    /// the batch.
    pub fn next_chunk(&mut self, storage: &IoUringStorage) -> (r: Result<
        Option<Vec<ReadEntry>>,
        UringError,
    >)
        requires
            old(self).wf(),
            storage.wf(),
            old(self).found_files().len() == old(self).experts().len(),
        ensures
            final(self).wf(),
            final(self).same_request(old(self)),
            final(self).found_files() == old(self).found_files(),
            final(self).completions() == old(self).completions(),
            ({
                let from = old(self).submitted() as int;
                let to = old(self).chunk_end() as int;
                match r {
                    Ok(None) => from == old(self).experts().len() && final(self).submitted()
                        == from,
                    Ok(Some(entries)) => {
                        &&& from < old(self).experts().len()
                        &&& final(self).submitted() == to
                        &&& entries@.len() == to - from
                        &&& forall|i: int|
                            from <= i < to ==> {
                                let number = number_of(
                                    storage.addresses(),
                                    #[trigger] old(self).targets()[i],
                                );
                                number is Some && entries@[i - from] == old(self).entry(
                                    i,
                                    number->0,
                                )
                            }
                    },
                    Err(e) => {
                        &&& e == UringError::NotRegistered
                        &&& final(self).submitted() == from
                        &&& exists|i: int|
                            from <= i < to && number_of(
                                storage.addresses(),
                                #[trigger] old(self).targets()[i],
                            ) is None
                    },
                }
            }),
    {
        let total = self.ids.len();
        if self.pushed >= total {
            return Ok(None);
        }
        let from = self.pushed;
        let to: usize = if total - from > self.queue_depth {
            from + self.queue_depth
        } else {
            total
        };
        let mut entries: Vec<ReadEntry> = Vec::new();
        let mut i: usize = from;
        while i < to
            invariant
                self == old(self),
                self.wf(),
                storage.wf(),
                self.files@.len() == self.ids@.len(),
                from == self.pushed,
                from <= i <= to <= self.ids@.len(),
                to == self.chunk_end(),
                entries@.len() == i - from,
                forall|k: int|
                    from <= k < i ==> {
                        let number = number_of(
                            storage.addresses(),
                            #[trigger] self.targets()[k],
                        );
                        number is Some && entries@[k - from] == self.entry(k, number->0)
                    },
            decreases to - i,
        {
            let ghost target = self.targets()[i as int];
            assert(storage.buf_index@.contains_key(target) <==> number_of(
                storage.addresses(),
                target,
            ) is Some);
            match storage.buf_index.get(&self.ptrs[i]) {
                Some(number) => {
                    entries.push(
                        ReadEntry {
                            file: self.files[i],
                            ptr: self.ptrs[i],
                            len: self.expert_size as u32,
                            buf_index: *number,
                            user_data: self.ids[i] as u64,
                        },
                    );
                },
                None => {
                    return Err(UringError::NotRegistered);
                },
            }
            i = i + 1;
        }
        self.pushed = to;
        Ok(Some(entries))
    }

    /// How many reads are still to complete.
    pub fn outstanding(&self) -> (n: usize)
        requires
            self.wf(),
        ensures
            n == self.experts().len() - self.completions().len(),
    {
        self.ids.len() - self.drained
    }

    /// Notes a completion.
    pub fn complete(&mut self, user_data: u64, result: i32)
        requires
            old(self).wf(),
            old(self).completions().len() < old(self).experts().len(),
        ensures
            final(self).wf(),
            final(self).same_request(old(self)),
            final(self).found_files() == old(self).found_files(),
            final(self).submitted() == old(self).submitted(),
            final(self).completions() == old(self).completions().push((user_data, result)),
    {
        let ghost before = self.done@;
        let ghost after = before.push((user_data, result));
        assert(after.drop_last() =~= before);
        proof {
            lemma_bytes_bound(after, self.expert_size);
            let n = after.len();
            let m = self.ids@.len();
            let e = self.expert_size as nat;
            assert(n * e <= m * e) by (nonlinear_arith)
                requires
                    n <= m,
            ;
        }
        assert(self.drained < self.ids.len());
        self.drained = self.drained + 1;
        if result < 0 {
            if self.first_err.is_none() {
                self.first_err = Some(UringError::Failed { expert: user_data, result });
            }
        } else {
            let n = result as usize;
            if n != self.expert_size {
                if self.first_err.is_none() {
                    self.first_err =
                    Some(
                        UringError::ShortRead {
                            expert: user_data,
                            got: n,
                            expected: self.expert_size,
                        },
                    );
                }
            } else {
                self.total_bytes = self.total_bytes + n;
            }
        }
        proof {
            self.done = Ghost(after);
        }
    }

    /// The number of bytes read, or what was wrong with the first read that
    /// had something wrong with it.
    pub fn finish(self) -> (r: Result<usize, UringError>)
        requires
            self.wf(),
            self.completions().len() == self.experts().len(),
        ensures
            match r {
                Ok(n) => first_failure(self.completions(), self.size()) is None && n
                    == self.experts().len() * self.size(),
                Err(e) => first_failure(self.completions(), self.size()) == Some(e),
            },
    {
        match self.first_err {
            Some(e) => Err(e),
            None => {
                proof {
                    lemma_all_full(self.done@, self.expert_size);
                }
                Ok(self.total_bytes)
            },
        }
    }
}

/// No more bytes are read than the completed reads have room for.
proof fn lemma_bytes_bound(done: Seq<(u64, i32)>, expert_size: usize)
    ensures
        bytes_read(done, expert_size) <= done.len() * expert_size,
    decreases done.len(),
{
    if done.len() > 0 {
        lemma_bytes_bound(done.drop_last(), expert_size);
        let n = (done.len() - 1) as nat;
        let e = expert_size as nat;
        assert((n + 1) * e == n * e + e) by (nonlinear_arith);
    }
}

/// With nothing wrong, every read gave a whole expert.
proof fn lemma_all_full(done: Seq<(u64, i32)>, expert_size: usize)
    requires
        first_failure(done, expert_size) is None,
    ensures
        bytes_read(done, expert_size) == done.len() * expert_size,
    decreases done.len(),
{
    if done.len() > 0 {
        lemma_all_full(done.drop_last(), expert_size);
        let n = (done.len() - 1) as nat;
        let e = expert_size as nat;
        assert((n + 1) * e == n * e + e) by (nonlinear_arith);
    }
}

/// Whether a completion gave a whole expert.
pub open spec fn full(done: (u64, i32), expert_size: usize) -> bool {
    done.1 == expert_size
}

/// A batch succeeds exactly when every read gave a whole expert; it then gives
/// as many bytes as the experts have together.
pub proof fn law_batch_result(done: Seq<(u64, i32)>, expert_size: usize)
    ensures
        first_failure(done, expert_size) is None <==> forall|i: int|
            0 <= i < done.len() ==> full(#[trigger] done[i], expert_size),
        first_failure(done, expert_size) is None ==> bytes_read(done, expert_size) == done.len()
            * expert_size,
    decreases done.len(),
{
    if done.len() > 0 {
        let rest = done.drop_last();
        law_batch_result(rest, expert_size);
        if first_failure(done, expert_size) is None {
            assert forall|i: int| 0 <= i < done.len() implies full(
                #[trigger] done[i],
                expert_size,
            ) by {
                if i < rest.len() {
                    assert(full(rest[i], expert_size));
                }
            }
        }
        if forall|i: int| 0 <= i < done.len() ==> full(#[trigger] done[i], expert_size) {
            assert forall|i: int| 0 <= i < rest.len() implies full(
                #[trigger] rest[i],
                expert_size,
            ) by {
                assert(full(done[i], expert_size));
            }
            assert(full(done[done.len() - 1], expert_size));
        }
    }
    if first_failure(done, expert_size) is None {
        lemma_all_full(done, expert_size);
    }
}

/// The failure that a batch reports is that of the first read that went wrong.
pub proof fn law_first_failure_reported(done: Seq<(u64, i32)>, expert_size: usize, i: int)
    requires
        0 <= i < done.len(),
        failure_of(done[i].0, done[i].1, expert_size) is Some,
        forall|j: int|
            0 <= j < i ==> failure_of((#[trigger] done[j]).0, done[j].1, expert_size) is None,
    ensures
        first_failure(done, expert_size) == failure_of(done[i].0, done[i].1, expert_size),
    decreases done.len(),
{
    let rest = done.drop_last();
    if i < rest.len() {
        assert forall|j: int| 0 <= j < i implies failure_of(
            (#[trigger] rest[j]).0,
            rest[j].1,
            expert_size,
        ) is None by {
            assert(rest[j] == done[j]);
        }
        assert(rest[i] == done[i]);
        law_first_failure_reported(rest, expert_size, i);
    } else {
        lemma_none_failed(rest, expert_size, done);
    }
}

proof fn lemma_none_failed(rest: Seq<(u64, i32)>, expert_size: usize, done: Seq<(u64, i32)>)
    requires
        rest.len() < done.len(),
        forall|j: int| 0 <= j < rest.len() ==> #[trigger] rest[j] == done[j],
        forall|j: int|
            0 <= j < rest.len() ==> failure_of(
                (#[trigger] done[j]).0,
                done[j].1,
                expert_size,
            ) is None,
    ensures
        first_failure(rest, expert_size) is None,
    decreases rest.len(),
{
    if rest.len() > 0 {
        let shorter = rest.drop_last();
        assert forall|j: int| 0 <= j < shorter.len() implies #[trigger] shorter[j] == done[j] by {
            assert(rest[j] == done[j]);
        }
        lemma_none_failed(shorter, expert_size, done);
        assert(rest[rest.len() - 1] == done[rest.len() - 1]);
    }
}

/// The ends of the chunks that follow one another from `from` on, when `total`
/// reads are handed out `depth` at a time.
pub open spec fn chunk_ends(from: nat, depth: nat, total: nat) -> Seq<nat>
    decreases total - from,
{
    if from >= total || depth == 0 {
        Seq::empty()
    } else {
        let to = end_of_chunk(from, depth, total);
        seq![to] + chunk_ends(to, depth, total)
    }
}

/// The chunks cover all reads, one after another without gap or overlap, and
/// none has more reads than the ring holds.
pub proof fn law_chunks_cover(from: nat, depth: nat, total: nat)
    requires
        depth > 0,
        from < total,
    ensures
        ({
            let ends = chunk_ends(from, depth, total);
            &&& ends.len() > 0
            &&& from < ends[0] <= from + depth
            &&& ends.last() == total
            &&& forall|i: int|
                0 < i < ends.len() ==> ends[i - 1] < #[trigger] ends[i] <= ends[i - 1] + depth
        }),
    decreases total - from,
{
    let ends = chunk_ends(from, depth, total);
    let to = end_of_chunk(from, depth, total);
    let rest = chunk_ends(to, depth, total);
    assert(ends[0] == to);
    if to < total {
        law_chunks_cover(to, depth, total);
        assert(ends.last() == rest.last());
        assert forall|i: int| 0 < i < ends.len() implies ends[i - 1] < #[trigger] ends[i]
            <= ends[i - 1] + depth by {
            assert(ends[i] == rest[i - 1]);
            if i > 1 {
                assert(ends[i - 1] == rest[i - 2]);
            }
        }
    } else {
        assert(rest =~= Seq::<nat>::empty());
    }
}

/// A buffer that was registered is found under its address; where no two
/// buffers share an address, under its own number.
pub proof fn law_registered_found(list: Seq<usize>, i: int)
    requires
        0 <= i < list.len(),
    ensures
        number_of(list, list[i]) is Some,
        list.no_duplicates() ==> number_of(list, list[i]) == Some(i as u16),
    decreases list.len(),
{
    let rest = list.drop_last();
    if i < rest.len() {
        assert(rest[i] == list[i]);
        law_registered_found(rest, i);
        if list.no_duplicates() {
            assert(list[list.len() - 1] != list[i]);
            assert(rest.no_duplicates());
        }
    }
}

/// No address is found that was not registered.
pub proof fn law_only_registered_found(list: Seq<usize>, address: usize)
    requires
        number_of(list, address) is Some,
    ensures
        list.contains(address),
    decreases list.len(),
{
    let rest = list.drop_last();
    if list.last() != address {
        law_only_registered_found(rest, address);
        let i = choose|i: int| 0 <= i < rest.len() && rest[i] == address;
        assert(list[i] == address);
    } else {
        assert(list[list.len() - 1] == address);
    }
}

/// The number of an address is its last place in the list, cut to 16 bits; an
/// address that is not in the list has none.
pub proof fn law_last_number(list: Seq<usize>, at: int, address: usize)
    ensures
        0 <= at < list.len() && list[at] == address && (forall|j: int|
            at < j < list.len() ==> list[j] != address) ==> number_of(list, address) is Some && (at
            <= usize::MAX ==> number_of(list, address)->0 == at % 65536),
        number_of(list, address) is None <==> !list.contains(address),
    decreases list.len(),
{
    if 0 <= at <= usize::MAX {
        let n = at as usize;
        assert(n as u16 == n % 65536) by (bit_vector);
    }
    if list.len() > 0 {
        let rest = list.drop_last();
        let last = list.len() - 1;
        law_last_number(rest, at, address);
        assert(list.last() == list[last]);
        assert forall|j: int| 0 <= j < rest.len() implies #[trigger] rest[j] == list[j] by {}
        if list.contains(address) && list.last() != address {
            let i = choose|i: int| 0 <= i < list.len() && list[i] == address;
            assert(rest[i] == address);
            assert(rest.contains(address));
        }
        if rest.contains(address) {
            let i = choose|i: int| 0 <= i < rest.len() && rest[i] == address;
            assert(list[i] == address);
        }
        if list.last() == address {
            assert(list[last] == address);
        }
    }
}

/// What a batch reports: nothing is wrong exactly where every read gave as many
/// bytes as an expert has; else the first read that did not is reported, as
/// refused where its result is negative, or with what it gave and what it
/// should have given.
pub proof fn law_batch_outcome(done: Seq<(u64, i32)>, expert_size: usize, at: int)
    ensures
        first_failure(done, expert_size) is None <==> forall|i: int|
            0 <= i < done.len() ==> (#[trigger] done[i]).1 == expert_size,
        0 <= at < done.len() && done[at].1 != expert_size && (forall|j: int|
            0 <= j < at ==> (#[trigger] done[j]).1 == expert_size) ==> first_failure(
            done,
            expert_size,
        ) == Some(
            if done[at].1 < 0 {
                UringError::Failed { expert: done[at].0, result: done[at].1 }
            } else {
                UringError::ShortRead {
                    expert: done[at].0,
                    got: done[at].1 as usize,
                    expected: expert_size,
                }
            },
        ),
{
    law_batch_result(done, expert_size);
    if forall|i: int| 0 <= i < done.len() ==> (#[trigger] done[i]).1 == expert_size {
        assert forall|i: int| 0 <= i < done.len() implies full(#[trigger] done[i], expert_size) by {
            assert(done[i].1 == expert_size);
        }
    }
    if first_failure(done, expert_size) is None {
        assert forall|i: int| 0 <= i < done.len() implies (#[trigger] done[i]).1 == expert_size by {
            assert(full(done[i], expert_size));
        }
    }
    if 0 <= at < done.len() && done[at].1 != expert_size && (forall|j: int|
        0 <= j < at ==> (#[trigger] done[j]).1 == expert_size) {
        law_first_failure_reported(done, expert_size, at);
    }
}

/// The bytes of two runs of reads add up; a read counts with the bytes of an
/// expert where it gave as many, and not at all otherwise.
pub proof fn law_bytes_read(
    a: Seq<(u64, i32)>,
    b: Seq<(u64, i32)>,
    one: (u64, i32),
    expert_size: usize,
)
    ensures
        bytes_read(a + b, expert_size) == bytes_read(a, expert_size) + bytes_read(b, expert_size),
        bytes_read(seq![one], expert_size) == if one.1 == expert_size {
            expert_size as nat
        } else {
            0
        },
    decreases b.len(),
{
    reveal_with_fuel(bytes_read, 2);
    assert(seq![one].drop_last() =~= Seq::<(u64, i32)>::empty());
    assert(seq![one].last() == one);
    if b.len() == 0 {
        assert(a + b =~= a);
    } else {
        law_bytes_read(a, b.drop_last(), one, expert_size);
        assert((a + b).drop_last() =~= a + b.drop_last());
        assert((a + b).last() == b.last());
    }
}

/// A chunk has as many reads as the ring holds, or all that are left where they
/// are fewer.
pub proof fn law_chunk_size(from: nat, depth: nat, total: nat)
    requires
        from <= total,
    ensures
        from <= end_of_chunk(from, depth, total) <= total,
        end_of_chunk(from, depth, total) - from <= depth,
        end_of_chunk(from, depth, total) == total || end_of_chunk(from, depth, total) - from
            == depth,
{
}

/// What read `i` of a batch is: the whole of the expert's file, into the buffer
/// that was asked for, marked by the expert's id.
pub proof fn law_read_entry(b: Batch, i: int, number: u16)
    requires
        b.wf(),
    ensures
        b.entry(i, number).file == b.found_files()[i],
        b.entry(i, number).ptr == b.targets()[i],
        b.entry(i, number).len == b.size() as int % 0x1_0000_0000,
        b.entry(i, number).buf_index == number,
        b.entry(i, number).user_data == b.experts()[i],
        b.submitted() <= b.chunk_end() <= b.experts().len(),
        b.chunk_end() - b.submitted() <= b.depth(),
        b.chunk_end() == b.experts().len() || b.chunk_end() - b.submitted() == b.depth(),
        b.depth() > 0,
        b.targets().len() == b.experts().len(),
{
    let n = b.size() as u64;
    assert(n as u32 == n % 0x1_0000_0000) by (bit_vector);
}

/// A batch asks for the same throughout: the same experts, into the same
/// buffers.
pub proof fn law_same_request(a: Batch, b: Batch)
    ensures
        a.same_request(&b) <==> a.experts() == b.experts() && a.targets() == b.targets() && a.size()
            == b.size() && a.depth() == b.depth(),
{
}

} // verus!

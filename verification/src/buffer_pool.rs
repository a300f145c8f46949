//! Fixed-size pool of pre-allocated, page-aligned buffers.
//!
//! The pool hands its buffers out as [`PooledBuffer`]s and takes them back
//! through [`BufferPool::release`].
//!
//! ## Primary and shadow halves
//!
//! With speculative prefetch the next token's reads overlap the current token's
//! compute. The shadow half serves those reads, so speculation never takes a
//! primary buffer. [`BufferPool::promote_shadow`] turns a shadow buffer into a
//! primary one once the speculation is confirmed: it then returns to the
//! primary half.

use crate::aligned_buffer::AlignedBuffer;
use vstd::prelude::*;

verus! {

/// Which half of the pool gained a buffer, and so whose waiter is to be woken.
#[derive(Clone, Copy, Debug, PartialEq, Eq, Structural)]
pub enum Half {
    Primary,
    Shadow,
}

pub struct BufferPool {
    free: Vec<AlignedBuffer>,
    shadow: Option<Vec<AlignedBuffer>>,
    primary_slots: usize,
    shadow_slots: usize,
    buffer_size: usize,
    align: usize,
}

/// A buffer taken from a [`BufferPool`].
pub struct PooledBuffer {
    buffer: AlignedBuffer,
    is_shadow: bool,
}

/// Every buffer of `list` is well-formed and has the given size and alignment.
pub open spec fn uniform(list: Seq<AlignedBuffer>, size: usize, align: usize) -> bool {
    forall|i: int|
        0 <= i < list.len() ==> (#[trigger] list[i]).wf() && list[i]@.len() == size
            && list[i].spec_align() == align
}

/// The contents of the buffers of `list`.
pub open spec fn contents(list: Seq<AlignedBuffer>) -> Seq<Seq<u8>> {
    list.map_values(|b: AlignedBuffer| b@)
}

/// Where the buffers of `list` lie in memory.
pub open spec fn addresses(list: Seq<AlignedBuffer>) -> Seq<usize> {
    list.map_values(|b: AlignedBuffer| b.spec_address())
}

/// `n` zeroed buffers of `size` bytes.
pub open spec fn zeroed(n: usize, size: usize) -> Seq<Seq<u8>> {
    Seq::new(n as nat, |i: int| Seq::new(size as nat, |j: int| 0u8))
}

impl View for PooledBuffer {
    type V = Seq<u8>;

    closed spec fn view(&self) -> Seq<u8> {
        self.buffer@
    }
}

impl PooledBuffer {
    pub closed spec fn wf(&self) -> bool {
        self.buffer.wf()
    }

    pub closed spec fn shadow_half(&self) -> bool {
        self.is_shadow
    }

    pub closed spec fn spec_align(&self) -> usize {
        self.buffer.spec_align()
    }

    /// Where the buffer lies in memory.
    pub closed spec fn spec_address(&self) -> usize {
        self.buffer.spec_address()
    }

    /// This is `other` as a primary buffer.
    pub open spec fn promoted_from(&self, other: &PooledBuffer) -> bool {
        &&& !self.shadow_half()
        &&& self@ == other@
        &&& self.spec_align() == other.spec_align()
        &&& self.spec_address() == other.spec_address()
    }

    pub fn as_slice(&self) -> (s: &[u8])
        requires
            self.wf(),
        ensures
            s@ == self@,
    {
        self.buffer.as_slice()
    }

    pub fn as_mut_slice(&mut self) -> (s: &mut [u8])
        requires
            old(self).wf(),
        ensures
            s@ == old(self)@,
            final(s)@.len() == s@.len() ==> final(self)@ == final(s)@ && final(self).wf(),
            final(self).shadow_half() == old(self).shadow_half(),
            final(self).spec_align() == old(self).spec_align(),
            final(self).spec_address() == old(self).spec_address(),
    {
        self.buffer.as_mut_slice()
    }

    /// Where the buffer lies in memory: at a multiple of its alignment.
    pub fn address(&self) -> (a: usize)
        requires
            self.wf(),
        ensures
            a == self.spec_address(),
            a as int % self.spec_align() as int == 0,
    {
        self.buffer.address()
    }

    pub fn len(&self) -> (n: usize)
        requires
            self.wf(),
        ensures
            n == self@.len(),
    {
        self.buffer.len()
    }

    pub fn is_shadow(&self) -> (b: bool)
        ensures
            b == self.shadow_half(),
    {
        self.is_shadow
    }
}

fn allocate(slots: usize, size: usize, align: usize) -> (list: Vec<AlignedBuffer>)
    requires
        slots > 0 ==> crate::aligned_buffer::valid_buffer(size, align),
    ensures
        uniform(list@, size, align),
        contents(list@) == zeroed(slots, size),
{
    let mut list: Vec<AlignedBuffer> = Vec::new();
    while list.len() < slots
        invariant
            slots > 0 ==> crate::aligned_buffer::valid_buffer(size, align),
            list.len() <= slots,
            uniform(list@, size, align),
            forall|i: int|
                0 <= i < list.len() ==> (#[trigger] list[i])@ == Seq::new(size as nat, |j: int| 0u8),
        decreases slots - list.len(),
    {
        list.push(AlignedBuffer::new(size, align));
    }
    assert(contents(list@) =~= zeroed(slots, size));
    list
}

impl BufferPool {
    pub closed spec fn wf(&self) -> bool {
        &&& uniform(self.free@, self.buffer_size, self.align)
        &&& self.shadow matches Some(s) ==> uniform(s@, self.buffer_size, self.align)
        &&& self.shadow is Some <==> self.shadow_slots > 0
        &&& self.primary_slots > 0
    }

    /// Contents of the free primary buffers; the last one is handed out next.
    pub closed spec fn free_primary(&self) -> Seq<Seq<u8>> {
        contents(self.free@)
    }

    /// Contents of the free shadow buffers; the last one is handed out next.
    pub closed spec fn free_shadow(&self) -> Seq<Seq<u8>> {
        match self.shadow {
            Some(s) => contents(s@),
            None => Seq::empty(),
        }
    }

    /// Where the free primary buffers lie in memory.
    pub closed spec fn primary_addresses(&self) -> Seq<usize> {
        addresses(self.free@)
    }

    /// Where the free shadow buffers lie in memory.
    pub closed spec fn shadow_addresses(&self) -> Seq<usize> {
        match self.shadow {
            Some(s) => addresses(s@),
            None => Seq::empty(),
        }
    }

    pub closed spec fn spec_capacity(&self) -> usize {
        self.primary_slots
    }

    pub closed spec fn spec_shadow_capacity(&self) -> usize {
        self.shadow_slots
    }

    pub closed spec fn spec_buffer_size(&self) -> usize {
        self.buffer_size
    }

    pub closed spec fn spec_align(&self) -> usize {
        self.align
    }

    /// Nothing but the free buffers differs.
    pub open spec fn same_shape(&self, other: &BufferPool) -> bool {
        &&& self.spec_capacity() == other.spec_capacity()
        &&& self.spec_shadow_capacity() == other.spec_shadow_capacity()
        &&& self.spec_buffer_size() == other.spec_buffer_size()
        &&& self.spec_align() == other.spec_align()
    }

    /// The free primary buffers are those of `other`.
    pub open spec fn same_primary(&self, other: &BufferPool) -> bool {
        &&& self.free_primary() == other.free_primary()
        &&& self.primary_addresses() == other.primary_addresses()
    }

    /// The free shadow buffers are those of `other`.
    pub open spec fn same_shadow(&self, other: &BufferPool) -> bool {
        &&& self.free_shadow() == other.free_shadow()
        &&& self.shadow_addresses() == other.shadow_addresses()
    }

    /// The pools have the same shape and the same free buffers.
    pub open spec fn same_free(&self, other: &BufferPool) -> bool {
        &&& self.same_shape(other)
        &&& self.same_primary(other)
        &&& self.same_shadow(other)
    }

    /// This is `before` after `buf` was taken from its primary half.
    pub open spec fn took_primary(&self, before: &BufferPool, buf: &PooledBuffer) -> bool {
        &&& self.same_shape(before)
        &&& self.same_shadow(before)
        &&& self.fits(*buf)
        &&& !buf.shadow_half()
        &&& before.free_primary() == self.free_primary().push(buf@)
        &&& before.primary_addresses() == self.primary_addresses().push(buf.spec_address())
    }

    /// This is `before` after `buf` was taken from its shadow half.
    pub open spec fn took_shadow(&self, before: &BufferPool, buf: &PooledBuffer) -> bool {
        &&& self.same_shape(before)
        &&& self.same_primary(before)
        &&& self.fits(*buf)
        &&& buf.shadow_half()
        &&& before.free_shadow() == self.free_shadow().push(buf@)
        &&& before.shadow_addresses() == self.shadow_addresses().push(buf.spec_address())
    }

    /// This is `before` after `buf` was given back to the half it belongs to.
    pub open spec fn got_back(&self, before: &BufferPool, buf: &PooledBuffer) -> bool {
        &&& self.same_shape(before)
        &&& if before.returns_to_shadow(*buf) {
            &&& self.same_primary(before)
            &&& self.free_shadow() == before.free_shadow().push(buf@)
            &&& self.shadow_addresses() == before.shadow_addresses().push(buf.spec_address())
        } else {
            &&& self.same_shadow(before)
            &&& self.free_primary() == before.free_primary().push(buf@)
            &&& self.primary_addresses() == before.primary_addresses().push(buf.spec_address())
        }
    }

    /// Whether `buf` has the shape of this pool's buffers.
    pub open spec fn fits(&self, buf: PooledBuffer) -> bool {
        &&& buf.wf()
        &&& buf@.len() == self.spec_buffer_size()
        &&& buf.spec_align() == self.spec_align()
    }

    /// Whether a returned buffer goes to the shadow half: it was taken from
    /// there, was not promoted, and the pool has such a half.
    pub open spec fn returns_to_shadow(&self, buf: PooledBuffer) -> bool {
        buf.shadow_half() && self.spec_shadow_capacity() > 0
    }

    pub fn new(slots: usize, buffer_size: usize, align: usize) -> (pool: Self)
        requires
            slots > 0,
            crate::aligned_buffer::valid_buffer(buffer_size, align),
        ensures
            pool.wf(),
            pool.spec_capacity() == slots,
            pool.spec_shadow_capacity() == 0,
            pool.spec_buffer_size() == buffer_size,
            pool.spec_align() == align,
            pool.free_primary() == zeroed(slots, buffer_size),
            pool.free_shadow() == Seq::<Seq<u8>>::empty(),
    {
        let pool = Self::new_with_shadow(slots, 0, buffer_size, align);
        assert(zeroed(0, buffer_size) =~= Seq::<Seq<u8>>::empty());
        pool
    }

    pub fn new_with_shadow(
        primary_slots: usize,
        shadow_slots: usize,
        buffer_size: usize,
        align: usize,
    ) -> (pool: Self)
        requires
            primary_slots > 0,
            crate::aligned_buffer::valid_buffer(buffer_size, align),
        ensures
            pool.wf(),
            pool.spec_capacity() == primary_slots,
            pool.spec_shadow_capacity() == shadow_slots,
            pool.spec_buffer_size() == buffer_size,
            pool.spec_align() == align,
            pool.free_primary() == zeroed(primary_slots, buffer_size),
            pool.free_shadow() == zeroed(shadow_slots, buffer_size),
    {
        let free = allocate(primary_slots, buffer_size, align);
        let shadow = if shadow_slots > 0 {
            Some(allocate(shadow_slots, buffer_size, align))
        } else {
            None
        };
        let pool = BufferPool { free, shadow, primary_slots, shadow_slots, buffer_size, align };
        assert(shadow_slots == 0 ==> zeroed(shadow_slots, buffer_size) =~= Seq::<Seq<u8>>::empty());
        pool
    }

    pub fn capacity(&self) -> (n: usize)
        ensures
            n == self.spec_capacity(),
    {
        self.primary_slots
    }

    pub fn shadow_capacity(&self) -> (n: usize)
        ensures
            n == self.spec_shadow_capacity(),
    {
        self.shadow_slots
    }

    pub fn buffer_size(&self) -> (n: usize)
        ensures
            n == self.spec_buffer_size(),
    {
        self.buffer_size
    }

    /// Take the most recently freed primary buffer, if one is free.
    pub fn try_acquire(&mut self) -> (r: Option<PooledBuffer>)
        requires
            old(self).wf(),
        ensures
            final(self).wf(),
            r is Some <==> old(self).free_primary().len() > 0,
            r matches Some(b) ==> final(self).took_primary(old(self), &b),
            r is None ==> final(self).same_free(old(self)),
    {
        match self.free.pop() {
            Some(buffer) => {
                assert(old(self).free@.last() == buffer);
                assert(contents(old(self).free@) =~= contents(self.free@).push(buffer@));
                assert(addresses(old(self).free@) =~= addresses(self.free@).push(
                    buffer.spec_address(),
                ));
                Some(PooledBuffer { buffer, is_shadow: false })
            },
            None => None,
        }
    }

    /// Take the most recently freed shadow buffer, if one is free.
    pub fn try_acquire_shadow(&mut self) -> (r: Option<PooledBuffer>)
        requires
            old(self).wf(),
        ensures
            final(self).wf(),
            r is Some <==> old(self).free_shadow().len() > 0,
            r matches Some(b) ==> final(self).took_shadow(old(self), &b),
            r is None ==> final(self).same_free(old(self)),
    {
        match &mut self.shadow {
            Some(list) => match list.pop() {
                Some(buffer) => {
                    assert(old(self).shadow->0@.last() == buffer);
                    assert(contents(old(self).shadow->0@) =~= contents(list@).push(buffer@));
                    assert(addresses(old(self).shadow->0@) =~= addresses(list@).push(
                        buffer.spec_address(),
                    ));
                    Some(PooledBuffer { buffer, is_shadow: true })
                },
                None => None,
            },
            None => None,
        }
    }

    /// Make a shadow buffer a primary one. A primary buffer stays as it is.
    pub fn promote_shadow(&self, buf: PooledBuffer) -> (r: PooledBuffer)
        requires
            buf.wf(),
        ensures
            r.wf(),
            r.promoted_from(&buf),
    {
        PooledBuffer { buffer: buf.buffer, is_shadow: false }
    }

    /// Give a buffer back. The bytes it holds are kept as they are.
    pub fn release(&mut self, buf: PooledBuffer) -> (half: Half)
        requires
            old(self).wf(),
            old(self).fits(buf),
        ensures
            final(self).wf(),
            final(self).got_back(old(self), &buf),
            half == if old(self).returns_to_shadow(buf) { Half::Shadow } else { Half::Primary },
    {
        if buf.is_shadow {
            if let Some(list) = &mut self.shadow {
                let buffer = buf.buffer;
                list.push(buffer);
                assert(contents(list@) =~= contents(old(self).shadow->0@).push(buffer@));
                assert(addresses(list@) =~= addresses(old(self).shadow->0@).push(
                    buffer.spec_address(),
                ));
                return Half::Shadow;
            }
        }
        let buffer = buf.buffer;
        self.free.push(buffer);
        assert(contents(self.free@) =~= contents(old(self).free@).push(buffer@));
        assert(addresses(self.free@) =~= addresses(old(self).free@).push(buffer.spec_address()));
        Half::Primary
    }

    /// Address and length of every free buffer, the primary half first: what
    /// the kernel needs to know to read into them directly.
    pub fn raw_iovecs(&self) -> (iovecs: Vec<(usize, usize)>)
        requires
            self.wf(),
        ensures
            ({
                let all = self.primary_addresses() + self.shadow_addresses();
                &&& self.primary_addresses().len() == self.free_primary().len()
                &&& self.shadow_addresses().len() == self.free_shadow().len()
                &&& iovecs@.len() == all.len()
                &&& forall|i: int|
                    0 <= i < all.len() ==> #[trigger] iovecs@[i] == (
                        all[i],
                        self.spec_buffer_size(),
                    )
                &&& forall|i: int|
                    0 <= i < all.len() ==> #[trigger] all[i] as int % self.spec_align() as int == 0
            }),
    {
        let mut iovecs: Vec<(usize, usize)> = Vec::new();
        push_iovecs(&self.free, self.buffer_size, self.align, &mut iovecs);
        if let Some(list) = &self.shadow {
            push_iovecs(list, self.buffer_size, self.align, &mut iovecs);
        }
        iovecs
    }
}

/// Adds address and length of each buffer of `list`.
fn push_iovecs(
    list: &Vec<AlignedBuffer>,
    size: usize,
    align: usize,
    iovecs: &mut Vec<(usize, usize)>,
)
    requires
        uniform(list@, size, align),
    ensures
        final(iovecs)@.len() == old(iovecs)@.len() + list@.len(),
        forall|i: int| 0 <= i < old(iovecs)@.len() ==> #[trigger] final(iovecs)@[i] == old(iovecs)@[i],
        forall|i: int|
            0 <= i < list@.len() ==> final(iovecs)@[old(iovecs)@.len() + i] == (
                (#[trigger] list@[i]).spec_address(),
                size,
            ),
        forall|i: int|
            0 <= i < list@.len() ==> (#[trigger] list@[i]).spec_address() as int % align as int
                == 0,
{
    let mut i: usize = 0;
    while i < list.len()
        invariant
            i <= list@.len(),
            uniform(list@, size, align),
            iovecs@.len() == old(iovecs)@.len() + i,
            forall|k: int| 0 <= k < old(iovecs)@.len() ==> #[trigger] iovecs@[k] == old(iovecs)@[k],
            forall|k: int|
                0 <= k < i ==> iovecs@[old(iovecs)@.len() + k] == (
                    (#[trigger] list@[k]).spec_address(),
                    size,
                ),
            forall|k: int|
                0 <= k < i ==> (#[trigger] list@[k]).spec_address() as int % align as int == 0,
        decreases list.len() - i,
    {
        assert(list@[i as int].wf());
        iovecs.push((list[i].address(), list[i].len()));
        i = i + 1;
    }
}

/// Giving back a buffer that was just taken undoes the taking.
pub proof fn law_release_undoes_acquire(
    before: &BufferPool,
    taken: &BufferPool,
    after: &BufferPool,
    buf: &PooledBuffer,
)
    requires
        before.wf(),
        taken.took_primary(before, buf) || taken.took_shadow(before, buf),
        after.got_back(taken, buf),
    ensures
        after.same_free(before),
{
    if taken.took_shadow(before, buf) {
        assert(before.free_shadow().len() > 0);
        assert(before.shadow is Some);
    }
}

/// A promoted buffer joins the primary half when it is given back: the shadow
/// half is one short from then on.
pub proof fn law_promotion_moves_buffer(
    before: &BufferPool,
    taken: &BufferPool,
    after: &BufferPool,
    buf: &PooledBuffer,
    promoted: &PooledBuffer,
)
    requires
        taken.took_shadow(before, buf),
        promoted.promoted_from(buf),
        after.got_back(taken, promoted),
    ensures
        after.free_primary() == before.free_primary().push(buf@),
        after.primary_addresses() == before.primary_addresses().push(buf.spec_address()),
        before.free_shadow() == after.free_shadow().push(buf@),
        before.shadow_addresses() == after.shadow_addresses().push(buf.spec_address()),
{
}

/// Taking from one half leaves the other as it was: speculation takes no
/// primary buffer, and real work no shadow buffer.
pub proof fn law_halves_independent(before: &BufferPool, after: &BufferPool, buf: &PooledBuffer)
    ensures
        after.took_shadow(before, buf) ==> after.same_primary(before),
        after.took_primary(before, buf) ==> after.same_shadow(before),
{
}

/// No buffer is lost or made up: taking one leaves one fewer free, giving one
/// back one more.
pub proof fn law_buffers_conserved(before: &BufferPool, after: &BufferPool, buf: &PooledBuffer)
    ensures
        after.took_primary(before, buf) || after.took_shadow(before, buf)
            ==> after.free_primary().len() + after.free_shadow().len() + 1
            == before.free_primary().len() + before.free_shadow().len(),
        after.got_back(before, buf) ==> after.free_primary().len() + after.free_shadow().len()
            == before.free_primary().len() + before.free_shadow().len() + 1,
{
}

/// Fresh buffers hold zeros only.
pub proof fn law_fresh_buffers(n: usize, size: usize, i: int, j: int)
    ensures
        zeroed(n, size).len() == n,
        0 <= i < n ==> zeroed(n, size)[i].len() == size,
        0 <= i < n && 0 <= j < size ==> zeroed(n, size)[i][j] == 0,
{
}

/// Every free buffer has the size of the pool's buffers, and lies at a multiple
/// of their alignment.
pub proof fn law_free_buffers(pool: &BufferPool, i: int)
    requires
        pool.wf(),
    ensures
        pool.spec_capacity() > 0,
        pool.spec_shadow_capacity() == 0 ==> pool.free_shadow().len() == 0,
        pool.primary_addresses().len() == pool.free_primary().len(),
        pool.shadow_addresses().len() == pool.free_shadow().len(),
        0 <= i < pool.free_primary().len() ==> pool.free_primary()[i].len()
            == pool.spec_buffer_size() && pool.primary_addresses()[i] as int
            % pool.spec_align() as int == 0,
        0 <= i < pool.free_shadow().len() ==> pool.free_shadow()[i].len() == pool.spec_buffer_size()
            && pool.shadow_addresses()[i] as int % pool.spec_align() as int == 0,
{
    if 0 <= i < pool.free_primary().len() {
        assert(pool.free@[i].wf());
        crate::aligned_buffer::law_buffer_aligned(pool.free@[i]);
    }
    if 0 <= i < pool.free_shadow().len() {
        assert(pool.shadow->0@[i].wf());
        crate::aligned_buffer::law_buffer_aligned(pool.shadow->0@[i]);
    }
}

/// A buffer fits a pool exactly where it has the size and the alignment of the
/// pool's buffers.
pub proof fn law_fits(pool: &BufferPool, buf: &PooledBuffer)
    ensures
        pool.fits(*buf) <==> buf.wf() && buf@.len() == pool.spec_buffer_size() && buf.spec_align()
            == pool.spec_align(),
{
}

/// What is taken is the free buffer that was given back last, with its bytes,
/// from the half that was asked; all other free buffers stay.
pub proof fn law_last_freed_taken(before: &BufferPool, after: &BufferPool, buf: &PooledBuffer)
    ensures
        after.took_primary(before, buf) ==> {
            let n = before.free_primary().len() - 1;
            &&& n >= 0
            &&& buf@ == before.free_primary()[n]
            &&& buf.spec_address() == before.primary_addresses().last()
            &&& after.free_primary() == before.free_primary().take(n)
            &&& after.primary_addresses() == before.primary_addresses().drop_last()
            &&& after.free_shadow() == before.free_shadow()
            &&& after.shadow_addresses() == before.shadow_addresses()
            &&& !buf.shadow_half()
            &&& buf.wf()
            &&& buf@.len() == before.spec_buffer_size()
            &&& buf.spec_align() == before.spec_align()
        },
        after.took_shadow(before, buf) ==> {
            let n = before.free_shadow().len() - 1;
            &&& n >= 0
            &&& buf@ == before.free_shadow()[n]
            &&& buf.spec_address() == before.shadow_addresses().last()
            &&& after.free_shadow() == before.free_shadow().take(n)
            &&& after.shadow_addresses() == before.shadow_addresses().drop_last()
            &&& after.free_primary() == before.free_primary()
            &&& after.primary_addresses() == before.primary_addresses()
            &&& buf.shadow_half()
            &&& buf.wf()
            &&& buf@.len() == before.spec_buffer_size()
            &&& buf.spec_align() == before.spec_align()
        },
        after.took_primary(before, buf) || after.took_shadow(before, buf) || after.got_back(
            before,
            buf,
        ) || after.same_free(before) ==> {
            &&& after.spec_capacity() == before.spec_capacity()
            &&& after.spec_shadow_capacity() == before.spec_shadow_capacity()
            &&& after.spec_buffer_size() == before.spec_buffer_size()
            &&& after.spec_align() == before.spec_align()
        },
{
    if after.took_primary(before, buf) {
        assert(after.free_primary() =~= before.free_primary().take(
            before.free_primary().len() - 1,
        ));
        assert(after.primary_addresses() =~= before.primary_addresses().drop_last());
    }
    if after.took_shadow(before, buf) {
        assert(after.free_shadow() =~= before.free_shadow().take(before.free_shadow().len() - 1));
        assert(after.shadow_addresses() =~= before.shadow_addresses().drop_last());
    }
}

/// A buffer that is given back keeps its bytes and becomes the last free one of
/// its half: of the shadow half where it is a shadow buffer and the pool has
/// such a half, else of the primary half. The other half stays as it is.
pub proof fn law_given_back(before: &BufferPool, after: &BufferPool, buf: &PooledBuffer)
    requires
        after.got_back(before, buf),
    ensures
        buf.shadow_half() && before.spec_shadow_capacity() > 0 ==> {
            &&& after.free_shadow() == before.free_shadow().push(buf@)
            &&& after.shadow_addresses() == before.shadow_addresses().push(buf.spec_address())
            &&& after.free_primary() == before.free_primary()
            &&& after.primary_addresses() == before.primary_addresses()
        },
        !buf.shadow_half() || before.spec_shadow_capacity() == 0 ==> {
            &&& after.free_primary() == before.free_primary().push(buf@)
            &&& after.primary_addresses() == before.primary_addresses().push(buf.spec_address())
            &&& after.free_shadow() == before.free_shadow()
            &&& after.shadow_addresses() == before.shadow_addresses()
        },
        before.returns_to_shadow(*buf) <==> buf.shadow_half() && before.spec_shadow_capacity() > 0,
{
}

/// Pools with the same free buffers have them with the same bytes at the same
/// places, in the same order.
pub proof fn law_same_free(a: &BufferPool, b: &BufferPool)
    requires
        a.same_free(b),
    ensures
        a.free_primary() == b.free_primary(),
        a.free_shadow() == b.free_shadow(),
        a.primary_addresses() == b.primary_addresses(),
        a.shadow_addresses() == b.shadow_addresses(),
{
}

/// A promoted buffer is the same buffer, at its place and with its bytes, but a
/// primary one.
pub proof fn law_promoted(before: &PooledBuffer, after: &PooledBuffer)
    requires
        after.promoted_from(before),
    ensures
        !after.shadow_half(),
        after@ == before@,
        after.spec_align() == before.spec_align(),
        after.spec_address() == before.spec_address(),
{
}

} // verus!

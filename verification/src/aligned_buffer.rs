//! Page-aligned heap buffers.
//!
//! A direct read from a block device needs a buffer whose address and length
//! are multiples of the device's block size. [`AlignedBuffer`] over-allocates
//! and hands out the aligned window of its allocation.

use vstd::prelude::*;

verus! {

/// Whether `align` is a power of two.
pub open spec fn is_alignment(align: usize) -> bool {
    exists|k: nat| align == #[trigger] vstd::arithmetic::power2::pow2(k)
}

/// Whether a buffer of `size` bytes aligned to `align` can be asked for.
pub open spec fn valid_buffer(size: usize, align: usize) -> bool {
    &&& is_alignment(align)
    &&& 0 < size <= isize::MAX
    &&& size as int % align as int == 0
}

/// Whether a buffer of `size` bytes aligned to `align` can be asked for.
pub fn is_valid_buffer(size: usize, align: usize) -> (b: bool)
    ensures
        b == valid_buffer(size, align),
{
    proof {
        lemma_alignment(align);
        reveal_with_fuel(vstd::arithmetic::power2::is_pow2, 2);
    }
    if align == 0 {
        return false;
    }
    let mut rest: usize = align;
    while rest % 2 == 0
        invariant
            rest > 0,
            vstd::arithmetic::power2::is_pow2(rest as int)
                == vstd::arithmetic::power2::is_pow2(align as int),
        decreases rest,
    {
        proof {
            reveal_with_fuel(vstd::arithmetic::power2::is_pow2, 2);
        }
        rest = rest / 2;
    }
    rest == 1 && 0 < size && size <= isize::MAX as usize && size % align == 0
}

/// A zero-initialised heap buffer that starts at an aligned address: the
/// window of `len` bytes from `start` on in an allocation at `base`.
pub struct AlignedBuffer {
    data: Vec<u8>,
    base: usize,
    start: usize,
    len: usize,
    align: usize,
}

/// Trusted: `Vec::as_ptr`, as a number. Where an allocation lies is up to the
/// allocator, so the address is left open; an allocation does not reach past
/// the last address. The address stays the same as long as the vector is not
/// grown.
#[verifier::external_body]
fn address_of(bytes: &Vec<u8>) -> (base: usize)
    ensures
        base + bytes@.len() <= usize::MAX,
{
    bytes.as_ptr() as usize
}

impl View for AlignedBuffer {
    type V = Seq<u8>;

    closed spec fn view(&self) -> Seq<u8> {
        self.data@.subrange(self.start as int, self.start + self.len)
    }
}

impl AlignedBuffer {
    /// The window lies in the allocation and starts at a multiple of the
    /// alignment.
    pub closed spec fn wf(&self) -> bool {
        &&& self.start + self.len <= self.data@.len()
        &&& self.base + self.data@.len() <= usize::MAX
        &&& self.align > 0
        &&& (self.base + self.start) % self.align as int == 0
    }

    pub closed spec fn spec_align(&self) -> usize {
        self.align
    }

    /// Where the buffer lies in memory.
    pub closed spec fn spec_address(&self) -> usize {
        (self.base + self.start) as usize
    }

    /// A zeroed buffer. Where its allocation lies is up to the allocator;
    /// [`AlignedBuffer::at_address`] says which window of it is used.
    pub fn new(size: usize, align: usize) -> (b: Self)
        requires
            valid_buffer(size, align),
        ensures
            b.wf(),
            b@ == Seq::new(size as nat, |i: int| 0u8),
            b.spec_align() == align,
            b.spec_address() as int % align as int == 0,
    {
        proof {
            lemma_padding_fits(size, align);
        }
        let spare: usize = align - 1;
        let data: Vec<u8> = vec![0u8; size + spare];
        let base = address_of(&data);
        let b = Self::at_address(data, base, size, align);
        assert(b@ =~= Seq::new(size as nat, |i: int| 0u8));
        b
    }

    /// The first aligned window of `size` bytes in an allocation at `base`.
    pub fn at_address(data: Vec<u8>, base: usize, size: usize, align: usize) -> (b: Self)
        requires
            valid_buffer(size, align),
            data@.len() == size + align - 1,
            base + data@.len() <= usize::MAX,
        ensures
            b.wf(),
            b.spec_align() == align,
            base <= b.spec_address() < base + align,
            b.spec_address() as int % align as int == 0,
            b@ == data@.subrange(b.spec_address() - base, b.spec_address() - base + size),
    {
        proof {
            lemma_padding_fits(size, align);
            lemma_rounded_up(base as int, align as int);
        }
        let over: usize = base % align;
        let start: usize = if over == 0 {
            0
        } else {
            align - over
        };
        AlignedBuffer { data, base, start, len: size, align }
    }

    /// Where the buffer lies in memory: at a multiple of its alignment.
    pub fn address(&self) -> (a: usize)
        requires
            self.wf(),
        ensures
            a == self.spec_address(),
            a as int % self.spec_align() as int == 0,
    {
        self.base + self.start
    }

    pub fn len(&self) -> (n: usize)
        requires
            self.wf(),
        ensures
            n == self@.len(),
    {
        self.len
    }

    pub fn align(&self) -> (a: usize)
        ensures
            a == self.spec_align(),
    {
        self.align
    }

    pub fn as_slice(&self) -> (s: &[u8])
        requires
            self.wf(),
        ensures
            s@ == self@,
    {
        assert(self.data.len() == self.data@.len());
        vstd::slice::slice_subrange(self.data.as_slice(), self.start, self.start + self.len)
    }

    pub fn as_mut_slice(&mut self) -> (s: &mut [u8])
        requires
            old(self).wf(),
        ensures
            s@ == old(self)@,
            final(s)@.len() == s@.len() ==> final(self)@ == final(s)@ && final(self).wf(),
            final(self).spec_align() == old(self).spec_align(),
            final(self).spec_address() == old(self).spec_address(),
    {
        let start = self.start;
        let len = self.len;
        let (_, tail) = self.data.as_mut_slice().split_at_mut(start);
        let (window, _) = tail.split_at_mut(len);
        window
    }
}

/// Halving decides what a power of two is.
proof fn lemma_alignment(align: usize)
    ensures
        is_alignment(align) == vstd::arithmetic::power2::is_pow2(align as int),
{
    vstd::arithmetic::power2::is_pow2_equiv(align as int);
    if is_alignment(align) {
        let k = choose|k: nat| align == #[trigger] vstd::arithmetic::power2::pow2(k);
        vstd::arithmetic::power::lemma_pow_positive(2, k);
        assert(vstd::arithmetic::power::pow(2, k) == align);
    }
    if vstd::arithmetic::power2::is_pow2_exists(align as int) {
        let i = choose|i: nat| vstd::arithmetic::power::pow(2, i) == align as int;
        assert(align == vstd::arithmetic::power2::pow2(i));
    }
}

/// The distance to the next multiple of `align`.
proof fn lemma_rounded_up(base: int, align: int)
    requires
        base >= 0,
        align > 0,
    ensures
        base % align == 0 ==> (base + 0) % align == 0,
        base % align != 0 ==> (base + (align - base % align)) % align == 0,
        0 <= base % align < align,
{
    vstd::arithmetic::div_mod::lemma_fundamental_div_mod(base, align);
    let q = base / align;
    assert(base + (align - base % align) == (q + 1) * align) by (nonlinear_arith)
        requires
            base == align * q + base % align,
    ;
    vstd::arithmetic::div_mod::lemma_mod_multiples_basic(q + 1, align);
}

/// A multiple of `align` below the address space's signed limit leaves room for
/// `align - 1` bytes of padding.
proof fn lemma_padding_fits(size: usize, align: usize)
    requires
        valid_buffer(size, align),
    ensures
        1 <= align,
        size + align - 1 <= isize::MAX,
{
    let k = choose|k: nat| align == #[trigger] vstd::arithmetic::power2::pow2(k);
    vstd::arithmetic::power2::lemma_pow2_pos(k);
    vstd::arithmetic::power2::lemma2_to64();
    assert(isize::MAX == 0x7fff_ffff || isize::MAX == 0x7fff_ffff_ffff_ffff);
    let m: nat = if isize::MAX == 0x7fff_ffff { 31 } else { 63 };
    vstd::arithmetic::power2::lemma_pow2_adds(31, 32);
    assert(vstd::arithmetic::power2::pow2(m) == isize::MAX + 1);
    let q = size as int / align as int;
    vstd::arithmetic::div_mod::lemma_fundamental_div_mod(size as int, align as int);
    assert(size == align * q);
    assert(align <= size) by (nonlinear_arith)
        requires size == align * q, size > 0, align >= 1;
    if k >= m {
        vstd::arithmetic::power2::lemma_pow2_adds(m, (k - m) as nat);
        vstd::arithmetic::power2::lemma_pow2_pos((k - m) as nat);
        assert(vstd::arithmetic::power2::pow2(k) >= vstd::arithmetic::power2::pow2(m)) by (nonlinear_arith)
            requires vstd::arithmetic::power2::pow2(k) == vstd::arithmetic::power2::pow2(m) * vstd::arithmetic::power2::pow2((k - m) as nat), vstd::arithmetic::power2::pow2((k - m) as nat) >= 1, vstd::arithmetic::power2::pow2(m) >= 0;
    }
    let r = vstd::arithmetic::power2::pow2((m - k) as nat);
    vstd::arithmetic::power2::lemma_pow2_adds(k, (m - k) as nat);
    assert(size + align <= align * r) by (nonlinear_arith)
        requires size == align * q, size < align * r, align >= 1;
}

/// A buffer can be asked for exactly where its alignment is a power of two and
/// its size a positive multiple of it that fits the address space.
pub proof fn law_valid_buffer(size: usize, align: usize)
    ensures
        valid_buffer(size, align) <==> vstd::arithmetic::power2::is_pow2(align as int) && 0 < size
            <= isize::MAX && size as int % align as int == 0,
{
    lemma_alignment(align);
}

/// A buffer starts at a multiple of its alignment.
pub proof fn law_buffer_aligned(b: AlignedBuffer)
    requires
        b.wf(),
    ensures
        b.spec_align() > 0,
        b.spec_address() as int % b.spec_align() as int == 0,
        b.spec_address() + b@.len() <= usize::MAX,
{
}

} // verus!

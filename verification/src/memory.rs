//! Aligned byte buffers.
//!
//! A buffer is a run of bytes whose first byte lies at an address that is a
//! multiple of the alignment it was asked for. A buffer of no bytes holds no
//! storage and still has an aligned address that is not null.

use vstd::prelude::*;

verus! {

/// Whether `n` is a power of two.
pub open spec fn is_power_of_two(n: int) -> bool
    decreases n,
{
    if n <= 1 {
        n == 1
    } else {
        n % 2 == 0 && is_power_of_two(n / 2)
    }
}

/// Whether `align` is a power of two, as every alignment must be.
pub fn is_valid_alignment(align: usize) -> (valid: bool)
    ensures
        valid == is_power_of_two(align as int),
{
    if align == 0 {
        return false;
    }
    let mut rest: usize = align;
    while rest % 2 == 0
        invariant
            rest >= 1,
            is_power_of_two(align as int) == is_power_of_two(rest as int),
        decreases rest,
    {
        rest = rest / 2;
    }
    rest == 1
}

/// A power of two is positive.
pub proof fn lemma_power_of_two_positive(n: int)
    requires
        is_power_of_two(n),
    ensures
        n >= 1,
    decreases n,
{
    if n > 1 {
        lemma_power_of_two_positive(n / 2);
    }
}

/// A run of bytes at an aligned address.
#[derive(Debug)]
pub struct AlignedBuffer {
    /// The bytes that back the buffer; the buffer starts `start` bytes in.
    storage: Vec<u8>,
    /// Where the buffer begins in `storage`.
    start: usize,
    /// How many bytes the buffer holds.
    size: usize,
    /// The alignment that the buffer was asked for.
    align: usize,
    /// The address of the first byte.
    addr: usize,
}

/// The address at which the heap storage of a vector begins, from
/// [`Vec::as_ptr`].
///
/// Two things are taken on trust here, without proof: the address is never
/// null, which `Vec` guarantees of its pointer, and the storage does not
/// wrap round the end of the address space, which holds of every
/// allocation. Nothing else is claimed of the address: it differs from run
/// to run.
#[verifier::external_body]
fn storage_address(storage: &Vec<u8>) -> (addr: usize)
    ensures
        addr != 0,
        addr + storage.len() <= usize::MAX,
{
    storage.as_ptr() as usize
}

impl AlignedBuffer {
    #[verifier::type_invariant]
    spec fn well_formed(self) -> bool {
        &&& is_power_of_two(self.align as int)
        &&& self.align > 0
        &&& self.addr != 0
        &&& self.addr % self.align == 0
        &&& self.start + self.size <= self.storage.len()
        &&& self.size + self.align <= isize::MAX
    }

    /// The bytes of the buffer.
    pub closed spec fn view(&self) -> Seq<u8> {
        Seq::new(self.size as nat, |i: int| self.storage@[self.start + i])
    }

    /// The number of bytes of a buffer is a machine integer.
    pub proof fn lemma_len_bound(&self)
        ensures
            self@.len() <= usize::MAX,
    {
    }

    /// The address of the first byte.
    pub closed spec fn spec_addr(&self) -> usize {
        self.addr
    }

    /// The alignment that the buffer was asked for.
    pub closed spec fn spec_alignment(&self) -> usize {
        self.align
    }

    /// The address of the first byte of the buffer. It is a multiple of the
    /// alignment and never zero.
    pub fn addr(&self) -> (addr: usize)
        ensures
            addr == self.spec_addr(),
            addr != 0,
            self.spec_alignment() > 0,
            addr % self.spec_alignment() == 0,
    {
        proof {
            use_type_invariant(self);
        }
        self.addr
    }

    /// The alignment that the buffer was asked for.
    pub fn alignment(&self) -> (align: usize)
        ensures
            align == self.spec_alignment(),
            align > 0,
    {
        proof {
            use_type_invariant(self);
        }
        self.align
    }

    /// Whether the buffer's address is null. It never is: a buffer of no
    /// bytes has an address too.
    pub fn is_null(&self) -> (null: bool)
        ensures
            !null,
            null == (self.spec_addr() == 0),
    {
        proof {
            use_type_invariant(self);
        }
        self.addr == 0
    }

    /// The number of bytes in the buffer.
    pub fn len(&self) -> (len: usize)
        ensures
            len == self@.len(),
        no_unwind
    {
        proof {
            use_type_invariant(self);
        }
        self.size
    }

    /// The byte at `index`.
    pub fn read(&self, index: usize) -> (byte: u8)
        requires
            index < self@.len(),
        ensures
            byte == self@[index as int],
        no_unwind
    {
        proof {
            use_type_invariant(self);
        }
        self.storage[self.start + index]
    }

    /// Stores `byte` at `index`.
    pub fn write(&mut self, index: usize, byte: u8)
        requires
            index < old(self)@.len(),
        ensures
            final(self)@ == old(self)@.update(index as int, byte),
            final(self).spec_addr() == old(self).spec_addr(),
            final(self).spec_alignment() == old(self).spec_alignment(),
        no_unwind
    {
        proof {
            use_type_invariant(&*self);
        }
        self.storage[self.start + index] = byte;
        assert(self@ =~= old(self)@.update(index as int, byte));
    }

    /// Stores `byte` in each of the first `count` bytes.
    pub fn write_bytes(&mut self, byte: u8, count: usize)
        requires
            count <= old(self)@.len(),
        ensures
            final(self)@.len() == old(self)@.len(),
            forall|i: int| 0 <= i < count ==> final(self)@[i] == byte,
            forall|i: int| count <= i < old(self)@.len() ==> final(self)@[i] == old(self)@[i],
            final(self).spec_addr() == old(self).spec_addr(),
            final(self).spec_alignment() == old(self).spec_alignment(),
    {
        let mut i: usize = 0;
        while i < count
            invariant
                i <= count,
                count <= old(self)@.len(),
                self@.len() == old(self)@.len(),
                forall|j: int| 0 <= j < i ==> self@[j] == byte,
                forall|j: int| i <= j < old(self)@.len() ==> self@[j] == old(self)@[j],
                self.spec_addr() == old(self).spec_addr(),
                self.spec_alignment() == old(self).spec_alignment(),
            decreases count - i,
        {
            self.write(i, byte);
            i += 1;
        }
    }
}

/// Allocates `size` bytes, all zero, at an address that is a multiple of
/// `align`.
///
/// A request for no bytes is met without storage: the buffer is empty and
/// its address is `align` itself, which is aligned and not null.
pub fn allocate_aligned(size: usize, align: usize) -> (buffer: AlignedBuffer)
    requires
        is_power_of_two(align as int),
        size + align <= isize::MAX,
    ensures
        buffer@ == Seq::new(size as nat, |i: int| 0u8),
        buffer.spec_alignment() == align,
        buffer.spec_addr() != 0,
        buffer.spec_addr() % align == 0,
        size == 0 ==> buffer.spec_addr() == align,
{
    proof {
        lemma_power_of_two_positive(align as int);
    }
    if size == 0 {
        assert(align % align == 0) by (nonlinear_arith)
            requires
                align > 0,
        ;
        let buffer = AlignedBuffer { storage: Vec::new(), start: 0, size: 0, align, addr: align };
        assert(buffer@ =~= Seq::new(0, |i: int| 0u8));
        return buffer;
    }
    let storage: Vec<u8> = vec![0u8; size + align];
    let base: usize = storage_address(&storage);
    let start: usize = (align - base % align) % align;
    assert((base + start) % (align as int) == 0) by (nonlinear_arith)
        requires
            align > 0,
            start == (align - base % align) % (align as int),
    ;
    let buffer = AlignedBuffer { storage, start, size, align, addr: base + start };
    assert(buffer@ =~= Seq::new(size as nat, |i: int| 0u8));
    buffer
}

/// A new buffer with the bytes and the alignment of another one.
pub fn duplicate(buffer: &AlignedBuffer) -> (copy: AlignedBuffer)
    ensures
        copy@ == buffer@,
        copy.spec_alignment() == buffer.spec_alignment(),
{
    proof {
        use_type_invariant(buffer);
    }
    let size: usize = buffer.len();
    let mut copy: AlignedBuffer = allocate_aligned(size, buffer.alignment());
    let mut i: usize = 0;
    while i < size
        invariant
            i <= size,
            size == buffer@.len(),
            copy@.len() == size,
            copy.spec_alignment() == buffer.spec_alignment(),
            forall|j: int| 0 <= j < i ==> copy@[j] == buffer@[j],
        decreases size - i,
    {
        copy.write(i, buffer.read(i));
        i += 1;
    }
    assert(copy@ =~= buffer@);
    copy
}

/// Whether the buffer's address is a multiple of `align`.
pub fn verify_alignment(buffer: &AlignedBuffer, align: usize) -> (aligned: bool)
    requires
        align > 0,
    ensures
        aligned == (buffer.spec_addr() % align == 0),
{
    buffer.addr() % align == 0
}

/// Gives back the storage of a buffer of `size` bytes that was allocated
/// with alignment `align`.
///
/// With a size of zero nothing happens, however often it is called. With
/// any other size the buffer must still hold its `size` bytes; it holds none
/// afterwards.
pub fn deallocate_aligned(buffer: &mut AlignedBuffer, size: usize, align: usize)
    requires
        size != 0 ==> old(buffer)@.len() == size && old(buffer).spec_alignment() == align,
    ensures
        size == 0 ==> *final(buffer) == *old(buffer),
        size != 0 ==> final(buffer)@.len() == 0,
        final(buffer).spec_addr() == old(buffer).spec_addr(),
        final(buffer).spec_alignment() == old(buffer).spec_alignment(),
{
    if size == 0 {
        return ;
    }
    proof {
        use_type_invariant(&*buffer);
    }
    buffer.size = 0;
    buffer.start = 0;
    buffer.storage = Vec::new();
}

} // verus!

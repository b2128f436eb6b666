//! A host buffer whose first byte lies on a 4 KiB boundary (direct I/O needs aligned addresses).
use crate::object::ALIGN;
use vstd::prelude::*;
use vstd::slice::slice_subrange;

verus! {

/// A byte buffer of some visible length inside an aligned capacity.
///
/// The storage holds one alignment more than the capacity; the buffer starts at the first
/// aligned byte of it.
pub struct AlignedBuf {
    data: Vec<u8>,
    /// The address of the storage when it was allocated; it is never reallocated.
    base: Ghost<int>,
    off: usize,
    len: usize,
    cap: usize,
}

/// How many bytes past `addr` the next multiple of the alignment lies.
pub open spec fn to_boundary(addr: int) -> int {
    (-addr) % (ALIGN as int)
}

/// The capacity of a buffer for `len` bytes: a positive multiple of the alignment.
pub open spec fn aligned_capacity(len: int) -> int {
    if len <= 0 { ALIGN as int } else { (len + ALIGN - 1) / (ALIGN as int) * ALIGN }
}

/// Bytes with others written over them from `at` on.
pub open spec fn written(b: Seq<u8>, at: int, src: Seq<u8>) -> Seq<u8> {
    Seq::new(b.len(), |i: int| if at <= i < at + src.len() { src[i - at] } else { b[i] })
}

/// The address of the first byte of the storage. Nothing is said of it: it is the allocator's.
#[verifier::external_body]
fn address(v: &Vec<u8>) -> usize {
    v.as_ptr().addr()
}

/// How many bytes past `addr` the next multiple of the alignment lies.
pub fn lead(addr: usize) -> (r: usize)
    ensures
        r == to_boundary(addr as int),
        r < ALIGN,
        (addr + r) % (ALIGN as int) == 0,
{
    let m: usize = addr % ALIGN;
    if m == 0 { 0 } else { ALIGN - m }
}

impl View for AlignedBuf {
    type V = Seq<u8>;

    /// The visible bytes: the first of all.
    closed spec fn view(&self) -> Seq<u8> {
        self.whole().take(if self.len <= self.cap { self.len as int } else { self.cap as int })
    }
}

impl AlignedBuf {
    #[verifier::type_invariant]
    closed spec fn inv(&self) -> bool {
        &&& self.len <= self.cap
        &&& self.off + self.cap <= self.data@.len()
        &&& self.data@.len() <= usize::MAX
        &&& self.start() % (ALIGN as int) == 0
    }

    /// Every byte up to the capacity, visible or not.
    pub closed spec fn whole(&self) -> Seq<u8> {
        Seq::new(self.cap as nat, |i: int| self.data@[self.off + i])
    }

    /// The address of the first byte, counted from the address that the allocator gave. That the
    /// bytes still lie there is a fact of the machine, which nothing here states.
    pub closed spec fn start(&self) -> int {
        self.base@ + self.off
    }

    /// The visible bytes are the first of all: what becomes visible behind them is what was written
    /// there.
    pub proof fn law_visible_bytes_come_first(&self)
        ensures
            self@.len() <= self.whole().len(),
            self@ == self.whole().take(self@.len() as int),
    {
    }

    /// A zeroed buffer of `len` bytes (capacity rounded up to the alignment), at a multiple of the
    /// alignment.
    pub fn new(len: usize) -> (b: AlignedBuf)
        requires
            len <= usize::MAX - 2 * ALIGN,
        ensures
            b@ == Seq::new(len as nat, |i: int| 0u8),
            b.whole() == Seq::new(aligned_capacity(len as int) as nat, |i: int| 0u8),
            b.start() % (ALIGN as int) == 0,
    {
        let cap: usize = if len == 0 { ALIGN } else { (len + (ALIGN - 1)) / ALIGN * ALIGN };
        let data: Vec<u8> = vec![0u8; cap + ALIGN];
        let addr: usize = address(&data);
        let off: usize = lead(addr);
        let b = AlignedBuf { data, base: Ghost(addr as int), off, len, cap };
        assert(b@ =~= Seq::new(len as nat, |i: int| 0u8));
        assert(b.whole() =~= Seq::new(aligned_capacity(len as int) as nat, |i: int| 0u8));
        b
    }

    pub fn len(&self) -> (n: usize)
        ensures
            n == self@.len(),
    {
        proof {
            use_type_invariant(self);
        }
        self.len
    }

    pub fn is_empty(&self) -> (r: bool)
        ensures
            r == (self@.len() == 0),
    {
        proof {
            use_type_invariant(self);
        }
        self.len == 0
    }

    pub fn capacity(&self) -> (n: usize)
        ensures
            n == self.whole().len(),
    {
        self.cap
    }

    /// Shrink or grow the visible length within the capacity (bytes beyond the old length are
    /// whatever was there; the buffer started zeroed).
    pub fn set_len(&mut self, len: usize)
        requires
            len <= old(self).whole().len(),
        ensures
            final(self).whole() == old(self).whole(),
            final(self)@ == old(self).whole().take(len as int),
            final(self).start() == old(self).start(),
    {
        proof {
            use_type_invariant(&*self);
        }
        self.len = len;
        assert(self@ =~= self.whole().take(len as int));
    }

    /// The visible bytes.
    pub fn as_slice(&self) -> (s: &[u8])
        ensures
            s@ == self@,
    {
        proof {
            use_type_invariant(self);
        }
        let s = slice_subrange(self.data.as_slice(), self.off, self.off + self.len);
        assert(s@ =~= self@);
        s
    }

    /// Write one byte.
    pub fn set(&mut self, i: usize, b: u8)
        requires
            i < old(self)@.len(),
        ensures
            final(self)@ == old(self)@.update(i as int, b),
            final(self).whole() == old(self).whole().update(i as int, b),
            final(self).start() == old(self).start(),
    {
        proof {
            use_type_invariant(&*self);
        }
        let at: usize = self.off + i;
        self.data[at] = b;
        assert(self@ =~= old(self)@.update(i as int, b));
        assert(self.whole() =~= old(self).whole().update(i as int, b));
    }

    /// Write `src` at byte `at`.
    pub fn write(&mut self, at: usize, src: &[u8])
        requires
            at + src@.len() <= old(self)@.len(),
        ensures
            final(self)@ == written(old(self)@, at as int, src@),
            final(self).whole() == written(old(self).whole(), at as int, src@),
            final(self).start() == old(self).start(),
    {
        let n: usize = src.len();
        let total: usize = self.len();
        proof {
            self.law_visible_bytes_come_first();
        }
        let mut i: usize = 0;
        assert(written(self@, at as int, src@.take(0)) =~= self@);
        assert(written(self.whole(), at as int, src@.take(0)) =~= self.whole());
        while i < n
            invariant
                i <= n,
                n == src@.len(),
                at + n <= total,
                old(self)@.len() == total,
                total <= old(self).whole().len(),
                self@ == written(old(self)@, at as int, src@.take(i as int)),
                self.whole() == written(old(self).whole(), at as int, src@.take(i as int)),
                self.start() == old(self).start(),
            decreases n - i,
        {
            proof {
                use_type_invariant(&*self);
            }
            self.set(at + i, src[i]);
            i = i + 1;
            assert(self@ =~= written(old(self)@, at as int, src@.take(i as int)));
            assert(self.whole() =~= written(old(self).whole(), at as int, src@.take(i as int)));
        }
        assert(src@.take(n as int) =~= src@);
    }
}

} // verus!

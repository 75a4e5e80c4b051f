//! Fixed-length zeroed byte buffers for the SIMD paths.
use vstd::prelude::*;

verus! {

/// A zeroed byte buffer of `size` bytes.
pub fn alloc_aligned_vec(size: usize) -> (v: Vec<u8>)
    ensures
        v@ == Seq::new(size as nat, |i: int| 0u8),
{
    let mut v: Vec<u8> = Vec::with_capacity(size);
    let mut i: usize = 0;
    while i < size
        invariant
            i <= size,
            v@ == Seq::new(i as nat, |k: int| 0u8),
        decreases size - i,
    {
        v.push(0);
        proof {
            assert(v@ =~= Seq::new(i as nat + 1, |k: int| 0u8));
        }
        i = i + 1;
    }
    v
}

/// Owned byte buffer of fixed length: it never grows by `push` or `extend`;
/// its length changes only through [`AlignedVec::resize_zeroed`].
pub struct AlignedVec {
    data: Vec<u8>,
}

impl View for AlignedVec {
    type V = Seq<u8>;

    closed spec fn view(&self) -> Seq<u8> {
        self.data@
    }
}

impl AlignedVec {
    /// A buffer of `len` zero bytes.
    pub fn new_zeroed(len: usize) -> (v: Self)
        ensures
            v@ == Seq::new(len as nat, |i: int| 0u8),
    {
        Self { data: alloc_aligned_vec(len) }
    }

    pub fn len(&self) -> (n: usize)
        ensures
            n == self@.len(),
    {
        self.data.len()
    }

    pub fn is_empty(&self) -> (b: bool)
        ensures
            b == (self@.len() == 0),
    {
        self.data.len() == 0
    }

    pub fn as_slice(&self) -> (s: &[u8])
        ensures
            s@ == self@,
    {
        self.data.as_slice()
    }

    pub fn as_mut_slice(&mut self) -> (s: &mut [u8])
        ensures
            s@ == old(self)@,
            final(self)@ == final(s)@,
    {
        self.data.as_mut_slice()
    }

    /// Set every byte to `value`.
    pub fn fill(&mut self, value: u8)
        ensures
            final(self)@ == Seq::new(old(self)@.len(), |i: int| value),
    {
        let n = self.data.len();
        let mut i: usize = 0;
        while i < n
            invariant
                n == self.data@.len(),
                n == old(self)@.len(),
                i <= n,
                forall|k: int| 0 <= k < i ==> #[trigger] self.data@[k] == value,
            decreases n - i,
        {
            self.data.set(i, value);
            i = i + 1;
        }
        proof {
            assert(self.data@ =~= Seq::new(old(self)@.len(), |i: int| value));
        }
    }

    /// Make the buffer `len` zero bytes long.
    pub fn resize_zeroed(&mut self, len: usize)
        ensures
            final(self)@ == Seq::new(len as nat, |i: int| 0u8),
    {
        if self.data.len() == len {
            self.fill(0);
            return;
        }
        *self = Self::new_zeroed(len);
    }
}

} // verus!

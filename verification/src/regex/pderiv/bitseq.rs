use vstd::prelude::*;
use bitvec::vec::BitVec;

verus! {

/// The largest number of bits that a `BitVec` can hold (`BitSlice::MAX_BITS`).
pub open spec fn max_bits() -> int {
    usize::MAX as int / 8
}

/// A sequence of bits, stored in a `bitvec::vec::BitVec`.
#[verifier::external_body]
#[derive(Debug, PartialEq, Eq)]
pub struct Bits {
    inner: BitVec,
}

/// The bits that a `Bits` value holds, first to last.
pub uninterp spec fn bits_of(b: Bits) -> Seq<bool>;

impl View for Bits {
    type V = Seq<bool>;

    open spec fn view(&self) -> Seq<bool> {
        bits_of(*self)
    }
}

impl Bits {
    /// `BitVec::new`: an empty bit vector.
    #[verifier::external_body]
    pub(crate) fn new() -> (res: Bits)
        ensures
            bits_of(res) == Seq::<bool>::empty(),
    {
        Bits { inner: BitVec::new() }
    }

    /// `BitVec::push`: appends one bit; it panics beyond `max_bits()` bits.
    #[verifier::external_body]
    pub(crate) fn push(&mut self, x: bool)
        requires
            bits_of(*old(self)).len() + 1 <= max_bits(),
        ensures
            bits_of(*final(self)) == bits_of(*old(self)).push(x),
    {
        self.inner.push(x)
    }

    /// `BitVec::insert`: inserts one bit at `index`, which may be the length.
    #[verifier::external_body]
    pub(crate) fn insert(&mut self, index: usize, x: bool)
        requires
            index <= bits_of(*old(self)).len(),
            bits_of(*old(self)).len() + 1 <= max_bits(),
        ensures
            bits_of(*final(self)) == bits_of(*old(self)).insert(index as int, x),
    {
        self.inner.insert(index, x)
    }

    /// `BitVec::append`: moves all bits of `other` to the end of `self`.
    #[verifier::external_body]
    pub(crate) fn append(&mut self, other: &mut Bits)
        requires
            bits_of(*old(self)).len() + bits_of(*old(other)).len() <= max_bits(),
        ensures
            bits_of(*final(self)) == bits_of(*old(self)) + bits_of(*old(other)),
            bits_of(*final(other)) == Seq::<bool>::empty(),
    {
        self.inner.append(&mut other.inner)
    }

    /// `BitVec::extend_from_bitslice`: copies all bits of `other` to the end of `self`.
    #[verifier::external_body]
    pub(crate) fn extend_from(&mut self, other: &Bits)
        requires
            bits_of(*old(self)).len() + bits_of(*other).len() <= max_bits(),
        ensures
            bits_of(*final(self)) == bits_of(*old(self)) + bits_of(*other),
    {
        self.inner.extend_from_bitslice(&other.inner)
    }

    /// `BitVec::clone`: a copy holding the same bits.
    #[verifier::external_body]
    pub(crate) fn copy(&self) -> (res: Bits)
        ensures
            bits_of(res) == bits_of(*self),
    {
        Bits { inner: self.inner.clone() }
    }

    /// `BitVec::len`: the number of bits.
    #[verifier::external_body]
    pub(crate) fn len(&self) -> (res: usize)
        ensures
            res == bits_of(*self).len(),
    {
        self.inner.len()
    }

    /// Indexing a `BitVec`: the bit at `i`.
    #[verifier::external_body]
    pub(crate) fn get(&self, i: usize) -> (res: bool)
        requires
            i < bits_of(*self).len(),
        ensures
            res == bits_of(*self)[i as int],
    {
        self.inner[i]
    }

    /// The bits of `v`, in order.
    pub fn from_bools(v: &Vec<bool>) -> (res: Bits)
        requires
            v@.len() <= max_bits(),
        ensures
            res@ == v@,
    {
        let mut res = Bits::new();
        let mut i: usize = 0;
        while i < v.len()
            invariant
                i <= v.len(),
                v@.len() <= max_bits(),
                res@ == v@.subrange(0, i as int),
            decreases v.len() - i,
        {
            res.push(v[i]);
            proof {
                assert(v@.subrange(0, i + 1) =~= v@.subrange(0, i as int).push(v@[i as int]));
            }
            i = i + 1;
        }
        proof {
            assert(v@.subrange(0, v@.len() as int) =~= v@);
        }
        res
    }

    /// The bits, first to last.
    pub fn to_bools(&self) -> (res: Vec<bool>)
        ensures
            res@ == self@,
    {
        let n = self.len();
        let mut res: Vec<bool> = Vec::new();
        let mut i: usize = 0;
        while i < n
            invariant
                i <= n,
                n == self@.len(),
                res@ == self@.subrange(0, i as int),
            decreases n - i,
        {
            res.push(self.get(i));
            proof {
                assert(self@.subrange(0, i + 1) =~= self@.subrange(0, i as int).push(self@[i as int]));
            }
            i = i + 1;
        }
        proof {
            assert(self@.subrange(0, n as int) =~= self@);
        }
        res
    }
}

} // verus!

use vstd::prelude::*;
use bitvec::vec::BitVec;

verus! {

/// A fixed-length sequence of bits, stored compactly by the `bitvec` crate.
#[verifier::external_body]
#[derive(Debug, PartialEq, Eq, Hash)]
pub struct Bits {
    inner: BitVec,
}

/// The bits held by a bit-vector, lowest index first.
pub uninterp spec fn bits_of(b: Bits) -> Seq<bool>;

impl View for Bits {
    type V = Seq<bool>;

    open spec fn view(&self) -> Seq<bool> {
        bits_of(*self)
    }
}

/// Bitwise conjunction of `a` with `b`, as `&=` computes it: positions past the
/// end of `b` are cleared, and the length of `a` is kept.
pub open spec fn and_seq(a: Seq<bool>, b: Seq<bool>) -> Seq<bool> {
    Seq::new(a.len(), |k: int| a[k] && k < b.len() && b[k])
}

/// The number of set positions of `s`.
pub open spec fn count_true(s: Seq<bool>) -> nat {
    s.filter(|x: bool| x).len()
}

/// `s` is strictly increasing.
pub open spec fn strictly_increasing(s: Seq<usize>) -> bool {
    forall|p: int, q: int| 0 <= p < q < s.len() ==> s[p] < s[q]
}

/// `idx` lists, in ascending order, exactly the positions of `b` that hold `bit`.
pub open spec fn lists_positions(idx: Seq<usize>, b: Seq<bool>, bit: bool) -> bool {
    &&& strictly_increasing(idx)
    &&& forall|k: int| 0 <= k < idx.len() ==> idx[k] < b.len() && b[idx[k] as int] == bit
    &&& forall|x: int|
        0 <= x < b.len() && b[x] == bit ==> exists|k: int| 0 <= k < idx.len() && idx[k] == x
}

impl Clone for Bits {
    fn clone(&self) -> (r: Bits) {
        self.duplicate()
    }
}

impl Bits {
    /// Relies on `BitVec::repeat`: `len` copies of `bit`.
    #[verifier::external_body]
    pub fn repeat(bit: bool, len: usize) -> (r: Bits)
        ensures
            bits_of(r) == Seq::new(len as nat, |_k: int| bit),
    {
        Bits { inner: BitVec::repeat(bit, len) }
    }

    /// Relies on `BitVec::new`: an empty bit-vector.
    #[verifier::external_body]
    pub fn new() -> (r: Bits)
        ensures
            bits_of(r) == Seq::<bool>::empty(),
    {
        Bits { inner: BitVec::new() }
    }

    /// Relies on `BitVec::len`: the number of bits held.
    #[verifier::external_body]
    pub fn len(&self) -> (r: usize)
        ensures
            r == bits_of(*self).len(),
    {
        self.inner.len()
    }

    /// Relies on indexing a `BitSlice`: the bit at position `i`.
    #[verifier::external_body]
    pub fn get(&self, i: usize) -> (r: bool)
        requires
            i < bits_of(*self).len(),
        ensures
            r == bits_of(*self)[i as int],
    {
        self.inner[i]
    }

    /// Relies on `BitSlice::set`: overwrites the bit at position `i`.
    #[verifier::external_body]
    pub fn set(&mut self, i: usize, value: bool)
        requires
            i < bits_of(*old(self)).len(),
        ensures
            bits_of(*final(self)) == bits_of(*old(self)).update(i as int, value),
    {
        self.inner.set(i, value)
    }

    /// Relies on `BitVec::push`: appends one bit.
    #[verifier::external_body]
    pub fn push(&mut self, value: bool)
        requires
            bits_of(*old(self)).len() < usize::MAX,
        ensures
            bits_of(*final(self)) == bits_of(*old(self)).push(value),
    {
        self.inner.push(value)
    }

    /// Relies on `BitVec::remove`: deletes the bit at position `i`, shifting
    /// the later ones down, and returns it.
    #[verifier::external_body]
    pub fn remove(&mut self, i: usize) -> (r: bool)
        requires
            i < bits_of(*old(self)).len(),
        ensures
            r == bits_of(*old(self))[i as int],
            bits_of(*final(self)) == bits_of(*old(self)).remove(i as int),
    {
        self.inner.remove(i)
    }

    /// Relies on `BitVec`'s `&=`: bitwise conjunction in place.
    #[verifier::external_body]
    pub fn and_assign(&mut self, other: &Bits)
        ensures
            bits_of(*final(self)) == and_seq(bits_of(*old(self)), bits_of(*other)),
    {
        self.inner &= &other.inner
    }

    /// Relies on `BitVec`'s `==`: equal lengths and equal bits.
    #[verifier::external_body]
    pub fn equals(&self, other: &Bits) -> (r: bool)
        ensures
            r == (bits_of(*self) == bits_of(*other)),
    {
        self.inner == other.inner
    }

    /// Relies on comparing two `BitSlice` prefixes of length `k` with `==`.
    #[verifier::external_body]
    pub fn prefix_equals(&self, other: &Bits, k: usize) -> (r: bool)
        requires
            k <= bits_of(*self).len(),
            k <= bits_of(*other).len(),
        ensures
            r == (bits_of(*self).subrange(0, k as int) == bits_of(*other).subrange(0, k as int)),
    {
        self.inner[..k] == other.inner[..k]
    }

    /// Relies on `BitSlice::count_ones`: the number of set bits.
    #[verifier::external_body]
    pub fn count_ones(&self) -> (r: usize)
        ensures
            r == count_true(bits_of(*self)),
    {
        self.inner.count_ones()
    }

    /// Relies on `BitSlice::iter_ones`: the set positions in ascending order.
    #[verifier::external_body]
    pub fn ones(&self) -> (r: Vec<usize>)
        ensures
            lists_positions(r@, bits_of(*self), true),
    {
        self.inner.iter_ones().collect()
    }

    /// Relies on `BitSlice::iter_zeros`: the clear positions in ascending order.
    #[verifier::external_body]
    pub fn zeros(&self) -> (r: Vec<usize>)
        ensures
            lists_positions(r@, bits_of(*self), false),
    {
        self.inner.iter_zeros().collect()
    }

    /// Relies on `BitVec`'s `Clone`: a copy holding the same bits.
    #[verifier::external_body]
    pub fn duplicate(&self) -> (r: Bits)
        ensures
            bits_of(r) == bits_of(*self),
    {
        Bits { inner: self.inner.clone() }
    }

    /// A bit-vector holding the given bits in order.
    pub fn from_bools(v: &Vec<bool>) -> (r: Bits)
        ensures
            r@ == v@,
    {
        let mut r = Bits::new();
        let mut k: usize = 0;
        while k < v.len()
            invariant
                k <= v@.len(),
                r@ == v@.subrange(0, k as int),
            decreases v@.len() - k,
        {
            r.push(v[k]);
            k = k + 1;
            assert(r@ =~= v@.subrange(0, k as int));
        }
        assert(r@ =~= v@);
        r
    }

    /// The bits as a vector of `bool`s.
    pub fn to_bools(&self) -> (r: Vec<bool>)
        ensures
            r@ == self@,
    {
        let n = self.len();
        let mut r: Vec<bool> = Vec::new();
        let mut i: usize = 0;
        while i < n
            invariant
                n == self@.len(),
                i <= n,
                r@ == self@.subrange(0, i as int),
            decreases n - i,
        {
            r.push(self.get(i));
            i = i + 1;
        }
        assert(r@ == self@);
        r
    }
}

} // verus!

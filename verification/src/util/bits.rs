//! Iterating over the set bits of a word, lowest first.

use vstd::prelude::*;

verus! {

use vstd::std_specs::bits::u64_trailing_zeros;

/// Walks the set bits of a word from least to most significant.
pub struct Bitset {
    t: u64,
}

/// Anything that can hand its bits out as a [`Bitset`].
pub trait BitOps {
    fn biterator(self) -> Bitset;
}

impl BitOps for u64 {
    fn biterator(self) -> Bitset {
        Bitset::new(self)
    }
}

impl Bitset {
    /// The bits still to be visited.
    pub closed spec fn spec_bits(&self) -> u64 {
        self.t
    }

    pub fn new(t: u64) -> (r: Bitset)
        ensures
            r.spec_bits() == t,
    {
        Bitset { t }
    }

    /// The index of the lowest remaining set bit, which is removed; or
    /// nothing once no bit remains.
    pub fn next(&mut self) -> (r: Option<usize>)
        ensures
            (old(self).spec_bits() == 0 ==> r is None && final(self).spec_bits() == 0),
            (old(self).spec_bits() != 0 ==> {
                let t = old(self).spec_bits();
                let i = u64_trailing_zeros(t);
                &&& r == Some(i as usize)
                &&& i < 64
                &&& (t >> (i as u64)) & 1 == 1
                &&& final(self).spec_bits() == t ^ (1u64 << (i as u64))
            }),
    {
        broadcast use vstd::std_specs::bits::axiom_u64_trailing_zeros;

        if self.t == 0 {
            None
        } else {
            let tz = self.t.trailing_zeros();
            self.t = self.t ^ (1u64 << (tz as u64));
            Some(tz as usize)
        }
    }
}

} // verus!

use vstd::prelude::*;

use crate::limb::Limb;
use crate::uint::{lemma_limbs_value_bound, lemma_value_zero_limbs, lemma_zero_limbs_value, Uint, LIMBS};

verus! {

/// Values that have a zero to rule out.
pub trait Zeroable {
    /// Whether the value is zero.
    spec fn is_zero_value(&self) -> bool;
}

impl Zeroable for Uint {
    open spec fn is_zero_value(&self) -> bool {
        self.value() == 0
    }
}

impl Zeroable for Limb {
    open spec fn is_zero_value(&self) -> bool {
        self.0 == 0
    }
}

/// A value that is known not to be zero, admitted only through `new`.
pub struct NonZero<T: Zeroable>(T);

impl<T: Zeroable> NonZero<T> {
    /// The wrapped value is never zero.
    #[verifier::type_invariant]
    spec fn inv(self) -> bool {
        !self.0.is_zero_value()
    }
}

impl NonZero<Uint> {
    /// The wrapped integer.
    pub closed spec fn inner(&self) -> Uint {
        self.0
    }

    /// Wraps `val`, or returns `None` when it is zero. The test folds every
    /// limb with OR so that it reads all of them.
    pub fn new(val: Uint) -> (r: Option<NonZero<Uint>>)
        ensures
            r is Some <==> val.value() != 0,
            r matches Some(m) ==> m.inner() == val,
    {
        let mut acc: u64 = 0;
        let mut i: usize = 0;
        while i < LIMBS
            invariant
                i <= LIMBS,
                acc == 0 <==> forall|j: int| 0 <= j < i ==> (#[trigger] val.limbs@[j]).0 == 0,
            decreases LIMBS - i,
        {
            let x = val.limbs[i].0;
            assert(((acc | x) == 0) <==> (acc == 0 && x == 0)) by (bit_vector);
            acc = acc | x;
            proof {
                if acc == 0 {
                    assert forall|j: int| 0 <= j < i + 1 implies (#[trigger] val.limbs@[j]).0
                        == 0 by {
                        if j == i {
                        }
                    }
                }
            }
            i = i + 1;
        }
        if acc == 0 {
            proof {
                lemma_zero_limbs_value(val.limbs@);
            }
            None
        } else {
            proof {
                if val.value() == 0 {
                    lemma_value_zero_limbs(val.limbs@);
                }
                lemma_limbs_value_bound(val.limbs@);
            }
            Some(NonZero(val))
        }
    }

    /// The width, in bits, at which candidates below this modulus are drawn:
    /// the storage width, not the bit length of the value.
    pub fn bits_vartime(&self) -> (r: u32)
        ensures
            r == Uint::BITS,
    {
        Uint::BITS
    }

    /// The wrapped integer.
    pub fn as_ref(&self) -> (r: &Uint)
        ensures
            *r == self.inner(),
            r.value() > 0,
    {
        proof {
            use_type_invariant(self);
            lemma_limbs_value_bound(self.0.limbs@);
        }
        &self.0
    }
}

impl NonZero<Limb> {
    /// The wrapped limb.
    pub closed spec fn inner(&self) -> Limb {
        self.0
    }

    /// Wraps `val`, or returns `None` when it is zero.
    pub fn new(val: Limb) -> (r: Option<NonZero<Limb>>)
        ensures
            r is Some <==> val.0 != 0,
            r matches Some(m) ==> m.inner() == val,
    {
        if val.0 == 0 {
            None
        } else {
            Some(NonZero(val))
        }
    }

    /// The wrapped limb.
    pub fn get(&self) -> (r: Limb)
        ensures
            r == self.inner(),
            r.0 != 0,
    {
        proof {
            use_type_invariant(self);
        }
        self.0
    }
}

} // verus!

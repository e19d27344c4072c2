use vstd::prelude::*;

verus! {

/// One past the largest limb value.
pub open spec fn limb_base() -> int {
    0x1_0000_0000_0000_0000
}

/// The borrow bit that a borrow flag carries in its top bit.
pub open spec fn borrow_bit(flag: u64) -> int {
    if flag >> 63 == 1 { 1 } else { 0 }
}

/// A borrow flag in its canonical form: zero, or every bit set.
pub open spec fn is_borrow_flag(flag: u64) -> bool {
    flag == 0 || flag == u64::MAX
}

/// Subtracts `rhs` and the borrow carried in the top bit of `borrow` from `lhs`,
/// widening to 128 bits so that the outgoing borrow is read off the high half
/// rather than decided by a comparison.
pub fn borrowing_sub_wideword(lhs: u64, rhs: u64, borrow: u64) -> (r: (u64, u64))
    ensures
        r.0 == lhs - rhs - borrow_bit(borrow) + limb_base() * borrow_bit(r.1),
        is_borrow_flag(r.1),
        borrow_bit(r.1) == 1 <==> (lhs as int) < rhs + borrow_bit(borrow),
{
    let a = lhs as u128;
    let b = rhs as u128;
    let bit = (borrow >> 63) as u128;
    let ret = a.wrapping_sub(b + bit);
    let lo = #[verifier::truncate] (ret as u64);
    let hi = #[verifier::truncate] ((ret >> 64) as u64);
    assert(borrow >> 63 == 0 || borrow >> 63 == 1) by (bit_vector);
    assert(lo == lhs - rhs - bit + limb_base() * (if hi >> 63 == 1 { 1int } else { 0 })
        && (hi == 0 || hi == 0xffff_ffff_ffff_ffffu64)
        && ((hi >> 63 == 1) <==> (lhs as int) < rhs + bit)) by (bit_vector)
        requires
            a == lhs as u128,
            b == rhs as u128,
            bit <= 1,
            a >= b + bit ==> ret == a - (b + bit),
            a < b + bit ==> ret == a - (b + bit) + 0x1_0000_0000_0000_0000_0000_0000_0000_0000int,
            lo == ret as u64,
            hi == (ret >> 64) as u64,
    ;
    (lo, hi)
}

/// One word of a wide integer.
#[derive(Clone, Copy, Debug)]
pub struct Limb(pub u64);

impl Limb {
    /// Limb subtraction with borrow in and out, as `borrowing_sub_wideword`.
    pub fn borrowing_sub(self, rhs: Limb, borrow: Limb) -> (r: (Limb, Limb))
        ensures
            r.0.0 == self.0 - rhs.0 - borrow_bit(borrow.0) + limb_base() * borrow_bit(r.1.0),
            is_borrow_flag(r.1.0),
            borrow_bit(r.1.0) == 1 <==> (self.0 as int) < rhs.0 + borrow_bit(borrow.0),
    {
        let (res, b) = borrowing_sub_wideword(self.0, rhs.0, borrow.0);
        (Limb(res), Limb(b))
    }
}

impl From<u64> for Limb {
    fn from(val: u64) -> (r: Limb)
        ensures
            r.0 == val,
    {
        Limb(val)
    }
}

impl vstd::std_specs::convert::FromSpecImpl<u64> for Limb {
    open spec fn obeys_from_spec() -> bool {
        true
    }

    open spec fn from_spec(val: u64) -> Limb {
        Limb(val)
    }
}

} // verus!

use vstd::prelude::*;

use crate::choice::{choice_byte, choice_from_bit};
use crate::limb::{borrow_bit, is_borrow_flag, limb_base, Limb};

verus! {

/// Number of limbs in a wide integer.
pub const LIMBS: usize = 5;

/// `limb_base()` raised to the power `n`: the weight of limb `n`.
pub open spec fn base_pow(n: nat) -> int
    decreases n,
{
    if n == 0 {
        1
    } else {
        limb_base() * base_pow((n - 1) as nat)
    }
}

/// The unsigned magnitude of a little-limb-endian limb sequence.
pub open spec fn limbs_value(s: Seq<Limb>) -> int
    decreases s.len(),
{
    if s.len() == 0 {
        0
    } else {
        limbs_value(s.drop_last()) + s.last().0 * base_pow((s.len() - 1) as nat)
    }
}

/// One past the largest value a wide integer can hold.
pub open spec fn uint_bound() -> int {
    base_pow(LIMBS as nat)
}

pub proof fn lemma_base_pow_pos(n: nat)
    ensures
        base_pow(n) > 0,
    decreases n,
{
    if n > 0 {
        lemma_base_pow_pos((n - 1) as nat);
        assert(limb_base() * base_pow((n - 1) as nat) > 0) by (nonlinear_arith)
            requires
                base_pow((n - 1) as nat) > 0,
        ;
    }
}

/// A limb sequence of length `n` denotes a value in `[0, base_pow(n))`.
pub proof fn lemma_limbs_value_bound(s: Seq<Limb>)
    ensures
        0 <= limbs_value(s) < base_pow(s.len()),
    decreases s.len(),
{
    if s.len() > 0 {
        let p = base_pow((s.len() - 1) as nat);
        lemma_limbs_value_bound(s.drop_last());
        let v = limbs_value(s.drop_last());
        let x = s.last().0 as int;
        assert(0 <= v + x * p < limb_base() * p) by (nonlinear_arith)
            requires
                0 <= v < p,
                0 <= x < limb_base(),
        ;
    }
}

/// Two limb sequences of one length that denote the same value are equal.
pub proof fn lemma_limbs_value_injective(s: Seq<Limb>, t: Seq<Limb>)
    requires
        s.len() == t.len(),
        limbs_value(s) == limbs_value(t),
    ensures
        s == t,
    decreases s.len(),
{
    if s.len() > 0 {
        let p = base_pow((s.len() - 1) as nat);
        lemma_limbs_value_bound(s.drop_last());
        lemma_limbs_value_bound(t.drop_last());
        let vs = limbs_value(s.drop_last());
        let vt = limbs_value(t.drop_last());
        let xs = s.last().0 as int;
        let xt = t.last().0 as int;
        assert(xs == xt) by (nonlinear_arith)
            requires
                0 <= vs < p,
                0 <= vt < p,
                vs + xs * p == vt + xt * p,
        ;
        lemma_limbs_value_injective(s.drop_last(), t.drop_last());
        assert(s =~= t.drop_last().push(t.last()));
        assert(t =~= t.drop_last().push(t.last()));
    }
}

/// A sequence of zero limbs denotes zero.
pub proof fn lemma_zero_limbs_value(s: Seq<Limb>)
    requires
        forall|j: int| 0 <= j < s.len() ==> (#[trigger] s[j]).0 == 0,
    ensures
        limbs_value(s) == 0,
    decreases s.len(),
{
    if s.len() > 0 {
        lemma_zero_limbs_value(s.drop_last());
    }
}

/// A limb sequence that denotes zero has every limb zero.
pub proof fn lemma_value_zero_limbs(s: Seq<Limb>)
    requires
        limbs_value(s) == 0,
    ensures
        forall|j: int| 0 <= j < s.len() ==> (#[trigger] s[j]).0 == 0,
    decreases s.len(),
{
    if s.len() > 0 {
        let p = base_pow((s.len() - 1) as nat);
        lemma_base_pow_pos((s.len() - 1) as nat);
        lemma_limbs_value_bound(s.drop_last());
        let v = limbs_value(s.drop_last());
        let x = s.last().0 as int;
        assert(x == 0 && v == 0) by (nonlinear_arith)
            requires
                0 <= v,
                0 <= x,
                p > 0,
                v + x * p == 0,
        ;
        lemma_value_zero_limbs(s.drop_last());
        assert forall|j: int| 0 <= j < s.len() implies (#[trigger] s[j]).0 == 0 by {
            if j < s.len() - 1 {
                assert(s[j] == s.drop_last()[j]);
            }
        }
    }
}

/// The value of a prefix one limb longer.
pub proof fn lemma_prefix_step(s: Seq<Limb>, i: int)
    requires
        0 <= i < s.len(),
    ensures
        limbs_value(s.subrange(0, i + 1)) == limbs_value(s.subrange(0, i)) + s[i].0 * base_pow(
            i as nat,
        ),
{
    assert(s.subrange(0, i + 1).drop_last() =~= s.subrange(0, i));
}

/// A fixed-width unsigned integer of `LIMBS` limbs, least significant first.
#[derive(Clone, Copy, Debug)]
pub struct Uint {
    pub limbs: [Limb; LIMBS],
}

impl Uint {
    /// Width in bits.
    pub const BITS: u32 = 320;

    /// The magnitude this integer denotes.
    pub open spec fn value(&self) -> int {
        limbs_value(self.limbs@)
    }

    /// The integer with every limb zero.
    pub fn zero() -> (r: Uint)
        ensures
            r.value() == 0,
            forall|j: int| 0 <= j < LIMBS ==> (#[trigger] r.limbs@[j]).0 == 0,
    {
        let r = Uint { limbs: [Limb(0);LIMBS] };
        proof {
            lemma_zero_limbs_value(r.limbs@);
        }
        r
    }

    /// Ripple-borrow subtraction over every limb, least significant first,
    /// with no early exit. Returns the wrapped difference and the final
    /// borrow flag, which is set exactly when `self < rhs + borrow bit`.
    pub fn borrowing_sub(&self, rhs: &Uint, borrow: Limb) -> (r: (Uint, Limb))
        ensures
            r.0.value() == self.value() - rhs.value() - borrow_bit(borrow.0) + uint_bound()
                * borrow_bit(r.1.0),
            is_borrow_flag(r.1.0),
            borrow_bit(r.1.0) == 1 <==> self.value() < rhs.value() + borrow_bit(borrow.0),
    {
        let mut limbs = [Limb(0);LIMBS];
        let mut b = borrow;
        let mut i: usize = 0;
        while i < LIMBS
            invariant
                i <= LIMBS,
                i > 0 ==> is_borrow_flag(b.0),
                i == 0 ==> b == borrow,
                limbs_value(limbs@.subrange(0, i as int)) - base_pow(i as nat) * borrow_bit(b.0)
                    == limbs_value(self.limbs@.subrange(0, i as int)) - limbs_value(
                    rhs.limbs@.subrange(0, i as int),
                ) - borrow_bit(borrow.0),
            decreases LIMBS - i,
        {
            let ghost old_limbs = limbs@;
            let ghost c = borrow_bit(b.0);
            let (w, nb) = self.limbs[i].borrowing_sub(rhs.limbs[i], b);
            limbs[i] = w;
            b = nb;
            proof {
                let ii = i as int;
                assert(limbs@.subrange(0, ii) =~= old_limbs.subrange(0, ii));
                lemma_prefix_step(limbs@, ii);
                lemma_prefix_step(self.limbs@, ii);
                lemma_prefix_step(rhs.limbs@, ii);
                let p = base_pow(i as nat);
                let d = limbs_value(old_limbs.subrange(0, ii));
                let av = limbs_value(self.limbs@.subrange(0, ii));
                let bv = limbs_value(rhs.limbs@.subrange(0, ii));
                let ai = self.limbs@[ii].0 as int;
                let bi = rhs.limbs@[ii].0 as int;
                let wi = w.0 as int;
                let c2 = borrow_bit(nb.0);
                let c0 = borrow_bit(borrow.0);
                assert(d + wi * p - limb_base() * p * c2 == av + ai * p - (bv + bi * p) - c0)
                    by (nonlinear_arith)
                    requires
                        d - p * c == av - bv - c0,
                        wi == ai - bi - c + limb_base() * c2,
                ;
            }
            i = i + 1;
        }
        proof {
            assert(limbs@.subrange(0, LIMBS as int) =~= limbs@);
            assert(self.limbs@.subrange(0, LIMBS as int) =~= self.limbs@);
            assert(rhs.limbs@.subrange(0, LIMBS as int) =~= rhs.limbs@);
            lemma_limbs_value_bound(limbs@);
            lemma_limbs_value_bound(self.limbs@);
            lemma_limbs_value_bound(rhs.limbs@);
        }
        (Uint { limbs }, b)
    }

    /// Constant-time `lhs < rhs`: the borrow out of `lhs - rhs`.
    pub fn lt(lhs: &Uint, rhs: &Uint) -> (r: subtle::Choice)
        ensures
            choice_byte(r) == (if lhs.value() < rhs.value() { 1u8 } else { 0u8 }),
    {
        let (_res, borrow) = lhs.borrowing_sub(rhs, Limb(0));
        assert((0u64 >> 63) == 0) by (bit_vector);
        let flag = borrow.0;
        assert(flag >> 63 == 0 || flag >> 63 == 1) by (bit_vector);
        choice_from_bit((borrow.0 >> 63) as u8)
    }

    /// Constant-time `self < other`.
    pub fn ct_lt(&self, other: &Uint) -> (r: subtle::Choice)
        ensures
            choice_byte(r) == (if self.value() < other.value() { 1u8 } else { 0u8 }),
    {
        Uint::lt(self, other)
    }

    /// Constant-time `self > other`, the mirror of `ct_lt`.
    pub fn ct_gt(&self, other: &Uint) -> (r: subtle::Choice)
        ensures
            choice_byte(r) == (if self.value() > other.value() { 1u8 } else { 0u8 }),
    {
        other.ct_lt(self)
    }

    /// Constant-time equality: the XOR of every limb pair is folded into one
    /// word, which is reduced to a bit without comparing it.
    pub fn ct_eq(&self, other: &Uint) -> (r: subtle::Choice)
        ensures
            choice_byte(r) == (if self.value() == other.value() { 1u8 } else { 0u8 }),
    {
        let mut acc: u64 = 0;
        let mut i: usize = 0;
        while i < LIMBS
            invariant
                i <= LIMBS,
                acc == 0 <==> forall|j: int|
                    0 <= j < i ==> (#[trigger] self.limbs@[j]).0 == other.limbs@[j].0,
            decreases LIMBS - i,
        {
            let x = self.limbs[i].0;
            let y = other.limbs[i].0;
            assert(((acc | (x ^ y)) == 0) <==> (acc == 0 && x == y)) by (bit_vector);
            acc = acc | (x ^ y);
            proof {
                if acc == 0 {
                    assert forall|j: int| 0 <= j < i + 1 implies (#[trigger] self.limbs@[j]).0
                        == other.limbs@[j].0 by {
                        if j == i {
                        }
                    }
                }
            }
            i = i + 1;
        }
        let neg = 0u64.wrapping_sub(acc);
        let bit = (((acc | neg) >> 63) as u8) ^ 1;
        assert(neg == (if acc == 0 { 0u64 } else { (0x1_0000_0000_0000_0000int - acc) as u64 }));
        assert(bit == (if acc == 0 { 1u8 } else { 0u8 })) by (bit_vector)
            requires
                neg == (if acc == 0 { 0u64 } else { (0x1_0000_0000_0000_0000int - acc) as u64 }),
                bit == (((acc | neg) >> 63) as u8) ^ 1,
        ;
        proof {
            if acc == 0 {
                assert(self.limbs@ =~= other.limbs@);
            }
            if self.value() == other.value() {
                lemma_limbs_value_injective(self.limbs@, other.limbs@);
            }
        }
        choice_from_bit(bit)
    }
}

/// Exactly one of `x < y`, `x == y` and `y < x` holds, with equality read
/// limb by limb as `ct_eq` reads it and order read by value as `lt` does;
/// so `lt(x, y)` is the negation of `lt(y, x)` whenever `x` and `y` differ.
pub proof fn lemma_comparison_trichotomy(x: Uint, y: Uint)
    ensures
        (x.value() < y.value()) as int + (x.limbs@ == y.limbs@) as int + (y.value() < x.value()) as int
            == 1,
        x.limbs@ == y.limbs@ <==> x.value() == y.value(),
        x.limbs@ != y.limbs@ ==> ((x.value() < y.value()) <==> !(y.value() < x.value())),
{
    if x.value() == y.value() {
        lemma_limbs_value_injective(x.limbs@, y.limbs@);
    }
}

} // verus!

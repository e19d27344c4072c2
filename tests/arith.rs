use ct_uint::{borrowing_sub_wideword, Limb, NonZero, Uint, LIMBS};

const MAX: u64 = u64::MAX;

fn uint(limbs: [u64; LIMBS]) -> Uint {
    Uint { limbs: limbs.map(Limb) }
}

fn raw(x: &Uint) -> [u64; LIMBS] {
    x.limbs.map(|l| l.0)
}

fn as_u128_pair(lhs: u64, rhs: u64, bit: u64) -> (u64, u64) {
    let wide = (lhs as u128).wrapping_sub(rhs as u128 + bit as u128);
    let res = wide as u64;
    let borrow = if (lhs as u128) < rhs as u128 + bit as u128 { MAX } else { 0 };
    (res, borrow)
}

#[test]
fn limb_sub_exact_values() {
    assert_eq!(borrowing_sub_wideword(5, 3, 0), (2, 0));
    assert_eq!(borrowing_sub_wideword(3, 5, 0), (MAX - 1, MAX));
    assert_eq!(borrowing_sub_wideword(0, 0, MAX), (MAX, MAX));
    assert_eq!(borrowing_sub_wideword(5, 4, MAX), (0, 0));
    assert_eq!(borrowing_sub_wideword(MAX, MAX, MAX), (MAX, MAX));
    assert_eq!(borrowing_sub_wideword(0, MAX, 0), (1, MAX));
}

#[test]
fn limb_sub_reads_only_top_bit_of_borrow() {
    // a flag with only low bits set carries no borrow
    assert_eq!(borrowing_sub_wideword(5, 3, 1), (2, 0));
    assert_eq!(borrowing_sub_wideword(5, 3, 1 << 63), (1, 0));
}

#[test]
fn limb_sub_matches_wide_arithmetic() {
    let samples = [0u64, 1, 2, 63, 1 << 32, (1 << 63) - 1, 1 << 63, MAX - 1, MAX, 0x0123_4567_89ab_cdef];
    for &a in &samples {
        for &b in &samples {
            for &(flag, bit) in &[(0u64, 0u64), (MAX, 1u64)] {
                let got = borrowing_sub_wideword(a, b, flag);
                assert_eq!(got, as_u128_pair(a, b, bit), "a={a} b={b} bit={bit}");
                let (r, br) = Limb(a).borrowing_sub(Limb(b), Limb(flag));
                assert_eq!((r.0, br.0), got);
                assert_eq!(br.0 == MAX, (a as u128) < b as u128 + bit as u128);
            }
        }
    }
}

#[test]
fn wide_sub_ripples_borrow() {
    let one = uint([1, 0, 0, 0, 0]);
    let zero = Uint::zero();
    let (d, b) = zero.borrowing_sub(&one, Limb(0));
    assert_eq!(raw(&d), [MAX; LIMBS]);
    assert_eq!(b.0, MAX);

    let x = uint([0, 0, 1, 0, 7]);
    let y = uint([1, 0, 0, 0, 0]);
    let (d, b) = x.borrowing_sub(&y, Limb(0));
    assert_eq!(raw(&d), [MAX, MAX, 0, 0, 7]);
    assert_eq!(b.0, 0);

    let (d, b) = x.borrowing_sub(&x, Limb(MAX));
    assert_eq!(raw(&d), [MAX; LIMBS]);
    assert_eq!(b.0, MAX);
}

#[test]
fn comparisons_on_known_values() {
    let a = uint([5, 0, 0, 0, 1]);
    let b = uint([4, 0, 0, 0, 1]);
    let c = uint([MAX, MAX, MAX, MAX, 0]);
    assert_eq!(Uint::lt(&b, &a).unwrap_u8(), 1);
    assert_eq!(Uint::lt(&a, &b).unwrap_u8(), 0);
    assert_eq!(a.ct_gt(&b).unwrap_u8(), 1);
    assert_eq!(b.ct_gt(&a).unwrap_u8(), 0);
    assert_eq!(c.ct_lt(&a).unwrap_u8(), 1);
    assert_eq!(a.ct_eq(&a).unwrap_u8(), 1);
    assert_eq!(a.ct_eq(&b).unwrap_u8(), 0);
    assert_eq!(a.ct_lt(&a).unwrap_u8(), 0);
}

#[test]
fn comparisons_exactly_one_holds() {
    let values = [
        [0, 0, 0, 0, 0],
        [1, 0, 0, 0, 0],
        [0, 1, 0, 0, 0],
        [MAX, 0, 0, 0, 0],
        [0, 0, 0, 0, 1],
        [MAX, MAX, MAX, MAX, MAX],
        [MAX - 1, MAX, MAX, MAX, MAX],
        [7, 3, 0, 9, 1 << 63],
    ];
    for x in values.iter().map(|v| uint(*v)) {
        for y in values.iter().map(|v| uint(*v)) {
            let lt = x.ct_lt(&y).unwrap_u8();
            let gt = y.ct_lt(&x).unwrap_u8();
            let eq = x.ct_eq(&y).unwrap_u8();
            assert_eq!(lt + gt + eq, 1);
            assert_eq!(eq == 1, raw(&x) == raw(&y));
            if eq == 0 {
                assert_eq!(lt == 1, gt == 0);
            }
            assert_eq!(x.ct_gt(&y).unwrap_u8(), gt);
        }
    }
}

#[test]
fn zero_modulus_is_refused() {
    assert!(NonZero::<Uint>::new(Uint::zero()).is_none());
    let one = uint([0, 0, 0, 0, 1]);
    let m = NonZero::<Uint>::new(one).expect("non-zero");
    assert_eq!(raw(m.as_ref()), [0, 0, 0, 0, 1]);
    assert_eq!(m.bits_vartime(), 320);
    assert_eq!(Uint::BITS, 320);
}

#[test]
fn zero_limb_is_refused() {
    assert!(NonZero::<Limb>::new(Limb(0)).is_none());
    assert_eq!(NonZero::<Limb>::new(Limb(9)).expect("non-zero").get().0, 9);
}

use vstd::bytes::{spec_u64_from_le_bytes, u64_from_le_bytes};
use vstd::prelude::*;
use vstd::slice::slice_subrange;

use crate::limb::Limb;
use crate::nonzero::NonZero;
use crate::uint::{lemma_value_zero_limbs, Uint, LIMBS};

verus! {

/// Number of limbs that receive random bits for `bit_length` bits.
pub open spec fn active_limbs(bit_length: u32) -> int {
    (bit_length as int + 63) / 64
}

/// Number of bytes drawn for the top active limb: four when its random bits
/// fit in the low half of the limb, else eight.
pub open spec fn top_draw_len(bit_length: u32) -> int {
    if 0 < bit_length % 64 <= 32 {
        4
    } else {
        8
    }
}

/// Number of bytes drawn from the source for `bit_length` bits.
pub open spec fn stream_len(bit_length: u32) -> int {
    if bit_length == 0 {
        0
    } else {
        8 * (active_limbs(bit_length) - 1) + top_draw_len(bit_length)
    }
}

/// Keeps the low `bit_length % 64` bits of a limb, or all of them when
/// `bit_length` is a multiple of 64.
pub open spec fn top_mask(bit_length: u32) -> u64 {
    u64::MAX >> ((64 - bit_length % 64) % 64) as u64
}

/// The bytes of a draw, zero-padded on the high side to a whole limb.
pub open spec fn pad_to_limb(s: Seq<u8>) -> Seq<u8> {
    s + Seq::new((8 - s.len()) as nat, |k: int| 0u8)
}

/// Limb `i` as filled from the byte stream `s`: limbs below the top active
/// one read eight bytes each in little-endian order; the top one reads its
/// draw and keeps only the bits under `top_mask`.
pub open spec fn stream_limb(s: Seq<u8>, i: int, bit_length: u32) -> u64 {
    if i < active_limbs(bit_length) - 1 {
        spec_u64_from_le_bytes(s.subrange(8 * i, 8 * i + 8))
    } else {
        spec_u64_from_le_bytes(pad_to_limb(s.subrange(8 * i, 8 * i + top_draw_len(bit_length))))
            & top_mask(bit_length)
    }
}

/// `after` is `before` with its active limbs filled from the stream `s`.
pub open spec fn filled_from(before: Uint, after: Uint, s: Seq<u8>, bit_length: u32) -> bool {
    &&& s.len() == stream_len(bit_length)
    &&& forall|j: int|
        0 <= j < LIMBS ==> (#[trigger] after.limbs@[j]).0 == (if j < active_limbs(bit_length) {
            stream_limb(s, j, bit_length)
        } else {
            before.limbs@[j].0
        })
}

#[verifier::external_type_specification]
#[verifier::external_body]
pub struct ExRandError(rand_core::Error);

/// Relies on rand_core's `RngCore::try_fill_bytes`, which fills the whole
/// buffer it is given with the source's next bytes, or reports the source's
/// failure as an error.
#[verifier::external_body]
fn fill_bytes<R: rand_core::RngCore + ?Sized>(rng: &mut R, len: usize) -> (r: Result<
    Vec<u8>,
    rand_core::Error,
>)
    ensures
        r matches Ok(buf) ==> buf@.len() == len,
{
    let mut buf = vec![0u8; len];
    rng.try_fill_bytes(&mut buf)?;
    Ok(buf)
}

/// Why drawing random bits or a sample failed.
#[derive(Debug)]
pub enum SampleError {
    /// The byte source could not supply the bytes asked of it.
    SourceFailure(rand_core::Error),
    /// No draw fell below the modulus within the attempt ceiling.
    RetryLimitExceeded,
}

/// Fills the active limbs of `zeroed_limbs` from an already drawn byte
/// stream, as `random_bits_core` does with the bytes it draws. Limbs past the
/// active ones are left as they are; `bit_length == 0` changes nothing.
pub fn bits_from_stream(stream: &Vec<u8>, zeroed_limbs: &mut Uint, bit_length: u32)
    requires
        bit_length <= Uint::BITS,
        stream@.len() == stream_len(bit_length),
    ensures
        filled_from(*old(zeroed_limbs), *final(zeroed_limbs), stream@, bit_length),
{
    if bit_length == 0 {
        return;
    }
    let nonzero_limbs = ((bit_length + 63) / 64) as usize;
    let partial_limb = bit_length % 64;
    let mask = u64::MAX >> ((64 - partial_limb) % 64);
    let ghost before = *zeroed_limbs;
    let bytes = stream.as_slice();
    let mut i: usize = 0;
    while i < nonzero_limbs - 1
        invariant
            nonzero_limbs == active_limbs(bit_length),
            1 <= nonzero_limbs <= LIMBS,
            0 <= i < nonzero_limbs,
            bytes@ == stream@,
            stream@.len() == stream_len(bit_length),
            forall|j: int|
                0 <= j < LIMBS ==> (#[trigger] zeroed_limbs.limbs@[j]).0 == (if j < i {
                    stream_limb(stream@, j, bit_length)
                } else {
                    before.limbs@[j].0
                }),
        decreases nonzero_limbs - 1 - i,
    {
        let word = u64_from_le_bytes(slice_subrange(bytes, 8 * i, 8 * i + 8));
        zeroed_limbs.limbs[i] = Limb::from(word);
        i = i + 1;
    }
    let start = 8 * (nonzero_limbs - 1);
    let take: usize = if partial_limb > 0 && partial_limb <= 32 {
        4
    } else {
        8
    };
    let mut buffer: Vec<u8> = Vec::new();
    let mut k: usize = 0;
    while k < 8
        invariant
            k <= 8,
            take == top_draw_len(bit_length),
            start + take == stream@.len(),
            start + take <= 8 * LIMBS,
            bytes@ == stream@,
            buffer@ =~= pad_to_limb(stream@.subrange(start as int, start + take)).subrange(
                0,
                k as int,
            ),
        decreases 8 - k,
    {
        if k < take {
            buffer.push(bytes[start + k]);
        } else {
            buffer.push(0u8);
        }
        k = k + 1;
    }
    assert(buffer@ =~= pad_to_limb(stream@.subrange(start as int, start + take)));
    let word = u64_from_le_bytes(buffer.as_slice());
    zeroed_limbs.limbs[nonzero_limbs - 1] = Limb::from(word & mask);
}

/// Fills the low `bit_length` bits of `zeroed_limbs` with bits drawn from
/// `rng`: eight bytes for each active limb below the top one, then four or
/// eight bytes for the top one, whose bits above `bit_length` are cleared.
/// `bit_length == 0` draws nothing and changes nothing. Every byte is drawn
/// before any limb is written, so a failing source leaves the integer as it
/// was and its error is handed back.
pub fn random_bits_core<R: rand_core::RngCore + ?Sized>(
    rng: &mut R,
    zeroed_limbs: &mut Uint,
    bit_length: u32,
) -> (r: Result<(), SampleError>)
    requires
        bit_length <= Uint::BITS,
    ensures
        r is Ok ==> exists|s: Seq<u8>|
            filled_from(*old(zeroed_limbs), *final(zeroed_limbs), s, bit_length),
        r is Err ==> *final(zeroed_limbs) == *old(zeroed_limbs) && r matches Err(
            SampleError::SourceFailure(_),
        ),
        bit_length == 0 ==> r is Ok && *final(zeroed_limbs) == *old(zeroed_limbs),
{
    if bit_length == 0 {
        assert(filled_from(*zeroed_limbs, *zeroed_limbs, Seq::empty(), bit_length));
        return Ok(());
    }
    let nonzero_limbs = ((bit_length + 63) / 64) as usize;
    let partial_limb = bit_length % 64;
    let mut stream: Vec<u8> = Vec::new();
    let mut i: usize = 0;
    while i < nonzero_limbs - 1
        invariant
            bit_length > 0,
            1 <= nonzero_limbs <= LIMBS,
            i < nonzero_limbs,
            stream@.len() == 8 * i,
            *zeroed_limbs == *old(zeroed_limbs),
        decreases nonzero_limbs - 1 - i,
    {
        let mut word = match fill_bytes(rng, 8) {
            Ok(buf) => buf,
            Err(e) => {
                return Err(SampleError::SourceFailure(e));
            },
        };
        stream.append(&mut word);
        i = i + 1;
    }
    let take: usize = if partial_limb > 0 && partial_limb <= 32 {
        4
    } else {
        8
    };
    let mut word = match fill_bytes(rng, take) {
        Ok(buf) => buf,
        Err(e) => {
            return Err(SampleError::SourceFailure(e));
        },
    };
    stream.append(&mut word);
    let ghost before = *zeroed_limbs;
    bits_from_stream(&stream, zeroed_limbs, bit_length);
    assert(filled_from(before, *zeroed_limbs, stream@, bit_length));
    Ok(())
}

/// A fill over an integer that was itself filled for the same bit length
/// is also a fill of the original: limbs past the active ones never change.
pub proof fn lemma_refill(a: Uint, b: Uint, c: Uint, s1: Seq<u8>, s2: Seq<u8>, bit_length: u32)
    requires
        filled_from(a, b, s1, bit_length),
        filled_from(b, c, s2, bit_length),
    ensures
        filled_from(a, c, s2, bit_length),
{
    assert forall|j: int| 0 <= j < LIMBS implies (#[trigger] c.limbs@[j]).0 == (if j
        < active_limbs(bit_length) {
        stream_limb(s2, j, bit_length)
    } else {
        a.limbs@[j].0
    }) by {
        assert(b.limbs@[j].0 == (if j < active_limbs(bit_length) {
            stream_limb(s1, j, bit_length)
        } else {
            a.limbs@[j].0
        }));
    }
}

/// One decision of rejection sampling, on the draw made at attempt number
/// `attempt` (counting from zero): a draw below the modulus is accepted; a
/// draw that is not is rejected, which asks for a new draw unless it was the
/// last of the `u32::MAX` attempts allowed. The comparison is constant-time.
pub fn sample_step(draw: &Uint, modulus: &NonZero<Uint>, attempt: u32) -> (r: Option<
    Result<(), SampleError>,
>)
    requires
        attempt < u32::MAX,
    ensures
        draw.value() < modulus.inner().value() ==> r matches Some(Ok(())),
        draw.value() >= modulus.inner().value() && attempt == u32::MAX - 1 ==> r matches Some(
            Err(SampleError::RetryLimitExceeded),
        ),
        draw.value() >= modulus.inner().value() && attempt < u32::MAX - 1 ==> r is None,
{
    let below = draw.ct_lt(modulus.as_ref());
    if below.unwrap_u8() == 1 {
        Some(Ok(()))
    } else if attempt == u32::MAX - 1 {
        Some(Err(SampleError::RetryLimitExceeded))
    } else {
        None
    }
}

/// Rejection sampling: draws `n_bits` random bits into `n` until the value
/// is below `modulus`, up to `u32::MAX` attempts; every draw is taken at the
/// full `n_bits`. After each draw `sample_step` decides: `Ok` leaves the
/// accepted draw, below the modulus, in `n`; a rejected draw is followed by a
/// new one; `RetryLimitExceeded` comes only from the step on the last allowed
/// attempt, with that rejected draw left in `n`. A failing source ends the
/// loop at once with its error.
pub fn random_mod_core<R: rand_core::RngCore + ?Sized>(
    rng: &mut R,
    n: &mut Uint,
    modulus: &NonZero<Uint>,
    n_bits: u32,
) -> (r: Result<(), SampleError>)
    requires
        n_bits <= Uint::BITS,
    ensures
        r is Ok ==> final(n).value() < modulus.inner().value(),
        r matches Err(SampleError::RetryLimitExceeded) ==> final(n).value()
            >= modulus.inner().value(),
        !(r matches Err(SampleError::SourceFailure(_))) ==> exists|s: Seq<u8>|
            filled_from(*old(n), *final(n), s, n_bits),
        n_bits == 0 ==> *final(n) == *old(n) && (r is Ok <==> old(n).value()
            < modulus.inner().value()) && !(r matches Err(SampleError::SourceFailure(_))),
{
    let ghost start = *n;
    let mut cur = *n;
    assert(n_bits == 0 ==> filled_from(start, start, Seq::empty(), n_bits));
    let mut attempt: u32 = 0;
    loop
        invariant
            n_bits <= Uint::BITS,
            attempt < u32::MAX,
            *n == start,
            start == *old(n),
            attempt > 0 ==> exists|s: Seq<u8>| filled_from(start, cur, s, n_bits),
            n_bits == 0 ==> cur == start,
            attempt == 0 ==> cur == start,
        decreases u32::MAX - attempt,
    {
        let ghost prev = cur;
        let drawn = random_bits_core(rng, &mut cur, n_bits);
        if let Err(e) = drawn {
            *n = cur;
            return Err(e);
        }
        proof {
            let s2 = choose|s: Seq<u8>| filled_from(prev, cur, s, n_bits);
            if attempt > 0 {
                let s1 = choose|s: Seq<u8>| filled_from(start, prev, s, n_bits);
                lemma_refill(start, prev, cur, s1, s2, n_bits);
            }
            assert(filled_from(start, cur, s2, n_bits));
        }
        if let Some(outcome) = sample_step(&cur, modulus, attempt) {
            *n = cur;
            return outcome;
        }
        attempt = attempt + 1;
    }
}

/// A value drawn uniformly below `modulus` by rejection sampling at the
/// modulus's storage width. Fails when the source fails or the attempt
/// ceiling is reached.
pub fn my_random_mod<R: rand_core::RngCore + ?Sized>(rng: &mut R, modulus: &NonZero<Uint>) -> (r:
    Result<Uint, SampleError>)
    ensures
        r matches Ok(v) ==> 0 <= v.value() < modulus.inner().value(),
{
    let mut n = Uint::zero();
    match random_mod_core(rng, &mut n, modulus, modulus.bits_vartime()) {
        Ok(()) => {
            proof {
                crate::uint::lemma_limbs_value_bound(n.limbs@);
            }
            Ok(n)
        },
        Err(e) => Err(e),
    }
}

/// The odd limb read little-endian from eight bytes, with its low bit set.
pub fn nonzero_limb_from_bytes(buf: &Vec<u8>) -> (r: NonZero<Limb>)
    requires
        buf@.len() == 8,
    ensures
        r.inner().0 == (spec_u64_from_le_bytes(buf@) | 1),
{
    let val = u64_from_le_bytes(buf.as_slice());
    assert((val | 1) != 0) by (bit_vector);
    let r = NonZero::<Limb>::new(Limb(val | 1));
    r.unwrap()
}

/// A random odd, hence non-zero, limb made by `nonzero_limb_from_bytes`
/// from eight bytes of `rng`, or the source's error.
pub fn random_nonzero_limb<R: rand_core::RngCore + ?Sized>(rng: &mut R) -> (r: Result<
    NonZero<Limb>,
    SampleError,
>)
    ensures
        r matches Ok(l) ==> exists|s: Seq<u8>|
            s.len() == 8 && l.inner().0 == (spec_u64_from_le_bytes(s) | 1),
        r is Err ==> r matches Err(SampleError::SourceFailure(_)),
{
    let buf = match fill_bytes(rng, 8) {
        Ok(buf) => buf,
        Err(e) => {
            return Err(SampleError::SourceFailure(e));
        },
    };
    Ok(nonzero_limb_from_bytes(&buf))
}

/// Filling a zeroed integer for `bit_length` bits leaves every bit at a
/// position at or above `bit_length` clear: bit `k` of limb `j` sits at
/// position `64 * j + k`.
pub proof fn lemma_random_bits_masked(before: Uint, after: Uint, s: Seq<u8>, bit_length: u32)
    requires
        bit_length <= Uint::BITS,
        before.value() == 0,
        filled_from(before, after, s, bit_length),
    ensures
        forall|j: int, k: u64|
            0 <= j < LIMBS && k < 64 && 64 * j + k >= bit_length ==> (#[trigger] (
            after.limbs@[j].0 >> k)) & 1 == 0,
{
    lemma_value_zero_limbs(before.limbs@);
    assert forall|j: int, k: u64|
        0 <= j < LIMBS && k < 64 && 64 * j + k >= bit_length implies (#[trigger] (
        after.limbs@[j].0 >> k)) & 1 == 0 by {
        let x = after.limbs@[j].0;
        if j >= active_limbs(bit_length) {
            assert(x == 0);
            assert((0u64 >> k) & 1 == 0) by (bit_vector);
        } else {
            assert(j == active_limbs(bit_length) - 1);
            let t = bit_length % 64;
            assert(0 < t);
            let y = spec_u64_from_le_bytes(
                pad_to_limb(s.subrange(8 * j, 8 * j + top_draw_len(bit_length))),
            );
            assert(x == y & (u64::MAX >> (64 - t) as u64));
            let sh = (64 - t) as u64;
            assert(((y & (u64::MAX >> sh)) >> k) & 1 == 0) by (bit_vector)
                requires
                    0 < sh < 64,
                    64 - sh <= k < 64,
            ;
        }
    }
}

/// The fill is a function of the bytes drawn: two fills of one integer from
/// one byte stream for one bit length give the same integer.
pub proof fn lemma_fill_deterministic(
    before: Uint,
    first: Uint,
    second: Uint,
    s: Seq<u8>,
    bit_length: u32,
)
    requires
        filled_from(before, first, s, bit_length),
        filled_from(before, second, s, bit_length),
    ensures
        first.limbs@ == second.limbs@,
        first.value() == second.value(),
{
    assert forall|j: int| 0 <= j < LIMBS implies #[trigger] first.limbs@[j] == second.limbs@[j] by {
        assert(first.limbs@[j].0 == second.limbs@[j].0);
    }
    assert(first.limbs@ =~= second.limbs@);
}

} // verus!

use vstd::prelude::*;

verus! {

#[verifier::external_type_specification]
#[verifier::external_body]
pub struct ExChoice(subtle::Choice);

/// The byte held by a `subtle::Choice`, as `Choice::unwrap_u8` reveals it.
pub uninterp spec fn choice_byte(c: subtle::Choice) -> u8;

/// Relies on `subtle::Choice::unwrap_u8`: it returns the byte the value holds.
pub assume_specification[ subtle::Choice::unwrap_u8 ](c: &subtle::Choice) -> (r: u8)
    ensures
        r == choice_byte(*c),
;

/// Relies on `<subtle::Choice as From<u8>>::from`: the value keeps the byte it
/// was made from (the source asserts, in debug builds, that it is 0 or 1).
#[verifier::external_body]
pub(crate) fn choice_from_bit(b: u8) -> (r: subtle::Choice)
    requires
        b == 0 || b == 1,
    ensures
        choice_byte(r) == b,
{
    subtle::Choice::from(b)
}

} // verus!

//! Constant-time fixed-width unsigned integers and uniform sampling below a
//! non-zero modulus by rejection.
pub mod choice;
pub mod limb;
pub mod uint;
pub mod nonzero;
pub mod random;

pub use limb::{borrowing_sub_wideword, Limb};
pub use nonzero::NonZero;
pub use random::{
    bits_from_stream, my_random_mod, random_bits_core, random_mod_core, random_nonzero_limb,
    nonzero_limb_from_bytes, sample_step, SampleError,
};
pub use uint::{Uint, LIMBS};

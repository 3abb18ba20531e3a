//! The pseudo-random generator behind the windowed shuffle.

use vstd::prelude::*;

use rand::{Rng, SeedableRng};
use rand_xorshift::XorShiftRng;

verus! {

/// The xorshift generator of `rand_xorshift`, carried through as an opaque value.
#[verifier::external_type_specification]
#[verifier::external_body]
pub struct ExXorShiftRng(XorShiftRng);

/// Relies on `SeedableRng::seed_from_u64` for `XorShiftRng`: a generator whose
/// whole output stream is fixed by `seed`.
#[verifier::external_body]
pub(crate) fn seeded_rng(seed: u64) -> XorShiftRng {
    XorShiftRng::seed_from_u64(seed)
}

/// Relies on `SeedableRng::from_rng` for `XorShiftRng` over `rand::rngs::OsRng`:
/// a generator seeded from the operating system's random source, or `None`
/// when that source reports an error.
#[verifier::external_body]
pub(crate) fn entropy_rng() -> Option<XorShiftRng> {
    XorShiftRng::from_rng(rand::rngs::OsRng).ok()
}

/// Relies on `Rng::gen_range(0, bound)`: a value in `[0, bound)`; it panics
/// when `bound` is zero, which `requires` rules out.
#[verifier::external_body]
pub(crate) fn draw_index(rng: &mut XorShiftRng, bound: usize) -> (r: usize)
    requires
        bound > 0,
    ensures
        r < bound,
{
    rng.gen_range(0, bound)
}

} // verus!

//! Trusted access to the pcg64 pseudo-random generator of the outside
//! crates `rand` and `rand_pcg`.
//!
//! Every use of randomness in the library goes through the wrappers here.
//! A wrapper's contract states only what the rand documentation promises
//! of every possible outcome; nothing is ever assumed about which value
//! comes back.

use vstd::prelude::*;
use rand::Rng;
use rand::SeedableRng;
use rand::seq::SliceRandom;

verus! {

/// The pcg64 generator of the rand_pcg crate. `rand_pcg::Pcg64` is an
/// alias for this struct; the value is opaque to the library, which only
/// threads it through the wrappers below.
#[verifier::external_type_specification]
#[verifier::external_body]
pub struct ExLcg128Xsl64(rand_pcg::Lcg128Xsl64);

/// The generator that drives board generation and sampling.
pub type Pcg64 = rand_pcg::Lcg128Xsl64;

/// Relies on rand's `SeedableRng::seed_from_u64`: builds a generator from
/// a 64-bit seed. The same seed always yields the same generator, but no
/// contract here depends on that.
#[verifier::external_body]
pub(crate) fn pcg_from_seed(seed: u64) -> Pcg64 {
    Pcg64::seed_from_u64(seed)
}

/// Relies on rand's `Rng::random_range` over `lo..hi`: returns a value of
/// the range. It panics only on an empty range, which the precondition
/// excludes.
#[verifier::external_body]
pub(crate) fn pcg_range(rng: &mut Pcg64, lo: u32, hi: u32) -> (r: u32)
    requires
        lo < hi,
    ensures
        lo <= r < hi,
{
    rng.random_range(lo..hi)
}

/// Relies on rand's `SliceRandom::shuffle`: permutes the slice in place,
/// so the length and the multiset of elements are unchanged.
#[verifier::external_body]
pub(crate) fn pcg_shuffle(rng: &mut Pcg64, v: &mut Vec<bool>)
    ensures
        final(v)@.len() == old(v)@.len(),
        final(v)@.to_multiset() == old(v)@.to_multiset(),
{
    v.shuffle(rng)
}

/// Relies on rand's `Rng::fill` for `[u16]`: overwrites the rows with
/// random bits. Nothing is promised of the result.
#[verifier::external_body]
pub(crate) fn pcg_fill_rows(rng: &mut Pcg64, rows: &mut [u16; 16]) {
    rng.fill(&mut rows[..])
}

} // verus!

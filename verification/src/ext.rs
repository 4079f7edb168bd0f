//! The engine's few points of contact with the outside world: fresh
//! identifiers, the clock, the random number generator, and building a
//! `String` from ASCII bytes. Each item's contract states only what
//! the called function's own source or documentation shows.
use vstd::prelude::*;

verus! {

#[verifier::external_type_specification]
#[verifier::external_body]
pub struct ExWyrand(tinyrand::Wyrand);

/// Relies on uuid::Uuid::new_v4: a freshly generated random version-4
/// identifier, handed out as its 128-bit value. Randomness promises
/// nothing, so neither does this.
#[verifier::external_body]
pub fn fresh_game_id() -> u128 {
    uuid::Uuid::new_v4().as_u128()
}

/// Relies on chrono::Utc::now: the current Unix time in whole seconds.
/// The clock promises nothing, so neither does this.
#[verifier::external_body]
pub fn unix_time_seconds() -> i64 {
    chrono::Utc::now().timestamp()
}

/// Relies on tinyrand's Seeded::seed for StdRand: a generator built
/// from the given seed. Nothing is assumed of the stream it produces.
#[verifier::external_body]
pub fn seeded_rng(seed: u64) -> tinyrand::StdRand {
    <tinyrand::StdRand as tinyrand::Seeded>::seed(seed)
}

/// Relies on tinyrand's RandRange::next_range: a number drawn from the
/// given range, which must not be empty (an empty range panics).
#[verifier::external_body]
pub fn rand_index(rng: &mut tinyrand::StdRand, bound: usize) -> (r: usize)
    requires
        bound >= 1,
    ensures
        r < bound,
{
    tinyrand::RandRange::next_range(rng, 0..bound)
}

/// Relies on String::from_utf8: bytes below 128 are valid UTF-8 and
/// decode to the characters with those code points, one per byte.
#[verifier::external_body]
pub fn ascii_bytes_to_string(v: &Vec<u8>) -> (r: String)
    requires
        forall|i: int| 0 <= i < v@.len() ==> v@[i] < 128,
    ensures
        r@ == v@.map_values(|b: u8| b as char),
{
    String::from_utf8(v.clone()).unwrap()
}

} // verus!

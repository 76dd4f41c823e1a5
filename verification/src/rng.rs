//! The random number generators that boards and local search draw from.

use rand::Rng;
use rand::rngs::StdRng;
use rand::SeedableRng;
use rand_chacha::ChaCha8Rng;
use vstd::prelude::*;

verus! {

/// `rand::rngs::StdRng`: the state of the standard generator, carried as an
/// opaque value.
#[verifier::external_type_specification]
#[verifier::external_body]
pub struct ExStdRng(rand::rngs::StdRng);

/// `rand_chacha::ChaCha8Rng`: the state of the ChaCha generator with 8
/// rounds, carried as an opaque value.
#[verifier::external_type_specification]
#[verifier::external_body]
pub struct ExChaCha8Rng(rand_chacha::ChaCha8Rng);

/// `StdRng::seed_from_u64`: a generator whose stream is fixed by the seed.
/// Nothing is claimed of the generator.
#[verifier::external_body]
fn std_rng_seeded(seed: u64) -> StdRng {
    StdRng::seed_from_u64(seed)
}

/// `ChaCha8Rng::seed_from_u64`: a generator whose stream is fixed by the
/// seed. Nothing is claimed of the generator.
#[verifier::external_body]
fn chacha8_seeded(seed: u64) -> ChaCha8Rng {
    ChaCha8Rng::seed_from_u64(seed)
}

/// `thread_rng().gen()`: a seed from the thread's generator, which the
/// system seeds. Nothing is claimed of the value.
#[verifier::external_body]
fn entropy_seed() -> u64 {
    rand::thread_rng().gen()
}

/// `Rng::gen_range` on a `StdRng` with the range `low..high`: the value lies
/// in the range. An empty range panics and is left out.
#[verifier::external_body]
fn std_rng_range_i32(rng: &mut StdRng, low: i32, high: i32) -> (value: i32)
    requires
        low < high,
    ensures
        low <= value < high,
{
    rng.gen_range(low..high)
}

/// `Rng::gen_range` on a `StdRng` with the range `low..high`: the value lies
/// in the range. An empty range panics and is left out.
#[verifier::external_body]
fn std_rng_range_usize(rng: &mut StdRng, low: usize, high: usize) -> (value: usize)
    requires
        low < high,
    ensures
        low <= value < high,
{
    rng.gen_range(low..high)
}

/// `Rng::gen_range` on a `ChaCha8Rng` with the range `low..high`: the value
/// lies in the range. An empty range panics and is left out.
#[verifier::external_body]
fn chacha8_range_i32(rng: &mut ChaCha8Rng, low: i32, high: i32) -> (value: i32)
    requires
        low < high,
    ensures
        low <= value < high,
{
    rng.gen_range(low..high)
}

/// `Rng::gen_range` on a `ChaCha8Rng` with the range `low..high`: the value
/// lies in the range. An empty range panics and is left out.
#[verifier::external_body]
fn chacha8_range_usize(rng: &mut ChaCha8Rng, low: usize, high: usize) -> (value: usize)
    requires
        low < high,
    ensures
        low <= value < high,
{
    rng.gen_range(low..high)
}

/// A random number generator, owned by whoever needs the numbers and handed
/// to each function that draws.
pub enum GameRng {
    /// The standard generator.
    Std(StdRng),
    /// The ChaCha generator with 8 rounds, whose stream is the same on every
    /// machine.
    ChaCha8(ChaCha8Rng),
}

impl GameRng {
    /// The standard generator with the given seed.
    pub fn from_seed(seed: u64) -> (rng: Self)
        ensures
            rng is Std,
    {
        GameRng::Std(std_rng_seeded(seed))
    }

    /// The standard generator with a seed that the system supplies.
    pub fn from_entropy() -> (rng: Self)
        ensures
            rng is Std,
    {
        GameRng::Std(std_rng_seeded(entropy_seed()))
    }

    /// The standard generator with the given seed, or with a seed that the
    /// system supplies where none is given.
    pub fn from_optional_seed(seed: Option<u64>) -> (rng: Self)
        ensures
            rng is Std,
    {
        match seed {
            Some(s) => GameRng::from_seed(s),
            None => GameRng::from_entropy(),
        }
    }

    /// The ChaCha8 generator with the given seed.
    pub fn chacha8_from_seed(seed: u64) -> (rng: Self)
        ensures
            rng is ChaCha8,
    {
        GameRng::ChaCha8(chacha8_seeded(seed))
    }

    /// Draws a value of the range `low..high`.
    pub fn range_i32(&mut self, low: i32, high: i32) -> (value: i32)
        requires
            low < high,
        ensures
            low <= value < high,
            *old(self) is Std <==> *final(self) is Std,
    {
        match self {
            GameRng::Std(rng) => std_rng_range_i32(rng, low, high),
            GameRng::ChaCha8(rng) => chacha8_range_i32(rng, low, high),
        }
    }

    /// Draws a value of the range `low..high`.
    pub fn range_usize(&mut self, low: usize, high: usize) -> (value: usize)
        requires
            low < high,
        ensures
            low <= value < high,
            *old(self) is Std <==> *final(self) is Std,
    {
        match self {
            GameRng::Std(rng) => std_rng_range_usize(rng, low, high),
            GameRng::ChaCha8(rng) => chacha8_range_usize(rng, low, high),
        }
    }
}

} // verus!

//! Uniform draws and Bernoulli events.

use crate::probability::Probability;
use rand::rngs::StdRng;
use rand::Rng;
use rand::SeedableRng;
use vstd::prelude::*;

verus! {

/// Number of distinct values a uniform draw can take: a draw `k` stands for
/// the real number `k / DRAW_RANGE` in `[0, 1)`.
pub const DRAW_RANGE: u32 = 0x100_0000;

/// `rand::rngs::StdRng`, the generator behind a `RandomSource`. Its state is
/// opaque here.
#[verifier::external_type_specification]
#[verifier::external_body]
pub struct ExStdRng(StdRng);

/// `rand::Rng::random::<u32>` on a `StdRng`: the generator's next 32-bit
/// word. Nothing is claimed of its value.
#[verifier::external_body]
fn next_word(rng: &mut StdRng) -> u32 {
    rng.random::<u32>()
}

/// `rand::SeedableRng::seed_from_u64` for `StdRng`. Nothing is claimed of the
/// generator it returns.
#[verifier::external_body]
fn seeded_generator(seed: u64) -> StdRng {
    StdRng::seed_from_u64(seed)
}

/// A source of uniform draws.
pub struct RandomSource {
    generator: StdRng,
}

impl RandomSource {
    /// A source whose sequence of draws is fixed by `seed`.
    pub fn from_seed(seed: u64) -> Self {
        RandomSource { generator: seeded_generator(seed) }
    }

    /// The next uniform draw: the generator's next word, reduced to a draw
    /// as `draw_from_word` says.
    pub fn draw(&mut self) -> (k: u32)
        ensures
            k < DRAW_RANGE,
    {
        let word: u32 = next_word(&mut self.generator);
        draw_from_word(word)
    }
}

/// The draw that a 32-bit random word gives: its 24 most significant bits.
pub fn draw_from_word(word: u32) -> (k: u32)
    ensures
        k == word / 256,
        k < DRAW_RANGE,
{
    word / 256
}

/// Draws once from `random` and reports whether an event of the given
/// probability occurred: the draw, read as a number in `[0, 1)`, lies
/// strictly below `probability`. An event of probability zero never occurs
/// and one of probability one or more always does; between the two the draw
/// decides, as `Probability::covers` says for each draw.
pub fn event_occurred(random: &mut RandomSource, probability: &Probability) -> (occurred: bool)
    ensures
        exists|draw: u32| draw < DRAW_RANGE && occurred == #[trigger] probability.covers_spec(draw),
        probability.num() == 0 ==> !occurred,
        probability.num() >= probability.den() ==> occurred,
{
    let draw: u32 = random.draw();
    proof {
        use_type_invariant(probability);
        probability.lemma_certain_and_impossible(draw);
    }
    probability.covers(draw)
}

} // verus!

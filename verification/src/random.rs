//! The source of the peers that a node draws at random. Two generators made
//! from the same seed draw the same peers, which makes a run repeatable.

use crate::peer::PeerId;
use vstd::prelude::*;

verus! {

/// `rand::rngs::StdRng`, the standard generator of the `rand` crate. Nothing
/// is known of what it holds.
#[verifier::external_type_specification]
#[verifier::external_body]
pub struct ExStdRng(rand::rngs::StdRng);

/// The generator that `rand::SeedableRng::seed_from_u64` makes of a seed.
pub uninterp spec fn seeded_state(seed: u64) -> rand::rngs::StdRng;

/// The 32 bytes that `rand::Rng::gen` draws from a generator in the given
/// state.
pub uninterp spec fn next_block(rng: rand::rngs::StdRng) -> Seq<u8>;

/// The state in which `rand::Rng::gen` leaves a generator from which it has
/// drawn 32 bytes.
pub uninterp spec fn after_block(rng: rand::rngs::StdRng) -> rand::rngs::StdRng;

/// `rand::SeedableRng::seed_from_u64` for `rand::rngs::StdRng`.
///
/// Trusted: the generator is settled by the seed. What it holds is not said.
#[verifier::external_body]
fn seeded_rng(seed: u64) -> (rng: rand::rngs::StdRng)
    ensures
        rng == seeded_state(seed),
{
    rand::SeedableRng::seed_from_u64(seed)
}

/// `rand::Rng::gen` for an array of 32 bytes.
///
/// Trusted: the bytes, and the state of the generator after the call, are
/// settled by the state of the generator before it. Which bytes they are is
/// not said.
#[verifier::external_body]
fn next_bytes(rng: &mut rand::rngs::StdRng) -> (out: [u8; 32])
    ensures
        out@ == next_block(*old(rng)),
        *final(rng) == after_block(*old(rng)),
{
    rand::Rng::gen(rng)
}

/// A generator of random peers.
pub struct Generator {
    rng: rand::rngs::StdRng,
}

impl Generator {
    /// The state of the generator, which settles what it draws.
    pub closed spec fn state(self) -> rand::rngs::StdRng {
        self.rng
    }

    /// The generator for the seed: it is in the state that the seed settles.
    pub fn seeded(seed: u64) -> (g: Generator)
        ensures
            g.state() == seeded_state(seed),
    {
        Generator { rng: seeded_rng(seed) }
    }

    /// A generator for a seed that is itself drawn at random: whatever the
    /// seed, the generator is the one for it.
    pub fn random() -> (g: Generator)
        ensures
            exists|seed: u64| g.state() == #[trigger] seeded_state(seed),
    {
        let noise = crate::key::random_bytes();
        let mut seed: u64 = 0;
        let mut i: usize = 0;
        while i < 8
            invariant
                0 <= i <= 8,
            decreases 8 - i,
        {
            seed = (seed << 8) | (noise[i] as u64);
            i += 1;
        }
        Generator::seeded(seed)
    }

    /// The identifier that the generator draws next.
    pub open spec fn next_id(self) -> PeerId {
        PeerId::with_canonical(next_block(self.state()))
    }

    /// The next identifier of 32 bytes: the bytes that a generator in this
    /// state draws.
    pub fn peer_id(&mut self) -> (id: PeerId)
        ensures
            id.wf(),
            id.canonical().len() == 32,
            id.canonical() == next_block(old(self).state()),
            id == old(self).next_id(),
            final(self).state() == after_block(old(self).state()),
    {
        let id = PeerId::from_array(next_bytes(&mut self.rng));
        proof {
            let chosen = PeerId::with_canonical(next_block(old(self).state()));
            assert(id.wf() && id.canonical() == next_block(old(self).state()));
            chosen.lemma_canonical_injective(id);
        }
        id
    }
}

} // verus!

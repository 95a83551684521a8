//! The random generator of a scheduler run, seeded from the time of the run.
use vstd::prelude::*;
use rand::SeedableRng;
use rand::XorShiftRng;

verus! {

/// The generator of a scheduler run.
#[verifier::external_type_specification]
#[verifier::external_body]
pub struct ExXorShiftRng(XorShiftRng);

/// A handle on the generator of the current scheduler run.
#[derive(Debug)]
pub struct GlobalRng;

/// The generator of the current scheduler run.
pub fn global_rng() -> (r: GlobalRng) {
    GlobalRng
}

/// The seed of the generator for a run at `secs` seconds and `nanos`
/// nanoseconds after the Unix epoch: the high and low halves of the
/// seconds, the nanoseconds, and zero.
pub fn generator_seed(secs: u64, nanos: u32) -> (r: [u32; 4])
    ensures
        r@ == seq![(secs / 0x1_0000_0000) as u32, (secs % 0x1_0000_0000) as u32, nanos, 0u32],
{
    let high = (secs >> 32u64) as u32;
    let low = (secs & 0xFFFF_FFFFu64) as u32;
    proof {
        assert(secs >> 32u64 == secs / 0x1_0000_0000) by (bit_vector);
        assert(secs & 0xFFFF_FFFFu64 == secs % 0x1_0000_0000) by (bit_vector);
    }
    let r = [high, low, nanos, 0u32];
    assert(r@ =~= seq![(secs / 0x1_0000_0000) as u32, (secs % 0x1_0000_0000) as u32, nanos, 0u32]);
    r
}

/// The generator that `rand::XorShiftRng::from_seed` makes of a seed: its
/// state is the seed, so equal seeds give equal generators.
pub uninterp spec fn generator_for(seed: Seq<u32>) -> XorShiftRng;

/// `rand::XorShiftRng::from_seed` (through `SeedableRng`): a generator
/// whose state is the seed, and nothing else. The crate panics on a seed of
/// zeros only, which `requires` leaves out.
#[verifier::external_body]
fn seeded_generator(seed: [u32; 4]) -> (r: XorShiftRng)
    requires
        seed@ != seq![0u32, 0u32, 0u32, 0u32],
    ensures
        r == generator_for(seed@),
{
    XorShiftRng::from_seed(seed)
}

/// The generator for a run at `secs` seconds and `nanos` nanoseconds after
/// the Unix epoch; the epoch itself gives a seed of zeros, which the
/// generator refuses.
pub fn generator_at(secs: u64, nanos: u32) -> (r: XorShiftRng)
    requires
        secs != 0 || nanos != 0,
    ensures
        r == generator_for(seq![(secs / 0x1_0000_0000) as u32, (secs % 0x1_0000_0000) as u32, nanos, 0u32]),
{
    let seed = generator_seed(secs, nanos);
    proof {
        if seed@ == seq![0u32, 0u32, 0u32, 0u32] {
            assert(seed@[0] == 0u32 && seed@[1] == 0u32 && seed@[2] == 0u32);
            assert(secs == (secs / 0x1_0000_0000) * 0x1_0000_0000 + secs % 0x1_0000_0000);
        }
    }
    seeded_generator(seed)
}

/// Whether `r` is a sample of `amount` of the positions `0..len`: all of
/// them in order when there are no more than `amount`, else `amount`
/// distinct positions.
pub open spec fn is_sample(r: Seq<usize>, len: nat, amount: nat) -> bool {
    if amount >= len {
        r == Seq::new(len, |i: int| i as usize)
    } else {
        &&& r.len() == amount
        &&& r.no_duplicates()
        &&& forall|i: int| 0 <= i < r.len() ==> #[trigger] r[i] < len
    }
}

/// `rand::seq::sample_iter` over the positions `0..len`: reservoir
/// sampling, which keeps the first `amount` positions and lets each later
/// one replace a random slot. With no more than `amount` positions it gives
/// all of them in order; otherwise `amount` distinct positions. Which
/// positions, and in which order, depends on the generator.
#[verifier::external_body]
pub(crate) fn sample_positions(rng: &mut XorShiftRng, len: usize, amount: usize) -> (r: Vec<usize>)
    ensures
        is_sample(r@, len as nat, amount as nat),
{
    match rand::seq::sample_iter(rng, 0..len, amount) {
        Ok(v) => v,
        Err(v) => v,
    }
}

/// The two halves of the seed give back the seconds.
pub proof fn lemma_seed_halves(secs: u64)
    ensures
        ((secs / 0x1_0000_0000) as u32) as int * 0x1_0000_0000 + ((secs % 0x1_0000_0000) as u32) as int
            == secs as int,
{
    assert(secs / 0x1_0000_0000 < 0x1_0000_0000) by (nonlinear_arith)
        requires
            secs < 0x1_0000_0000_0000_0000,
    ;
    assert(secs == (secs / 0x1_0000_0000) * 0x1_0000_0000 + secs % 0x1_0000_0000) by (nonlinear_arith);
}

} // verus!

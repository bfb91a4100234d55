use vstd::prelude::*;
use rand::rngs::StdRng;
use rand::Rng;
use rand::RngCore;
use rand::SeedableRng;

verus! {

/// The seeded generator that drives level generation. Verus sees nothing
/// inside it: what each draw returns, and the state it leaves, go by the
/// names declared below.
#[verifier::external_type_specification]
#[verifier::external_body]
pub struct ExStdRng(StdRng);

/// The generator `StdRng::seed_from_u64` makes from `seed`. Seeding is a
/// fixed function of the seed in the `rand` version this crate is built
/// with: the same seed gives the same generator state.
pub uninterp spec fn seeded_generator(seed: u64) -> StdRng;

/// `StdRng::seed_from_u64`: the generator seeded from `seed`, that is
/// `seeded_generator(seed)`. Nothing more is stated of its state.
#[verifier::external_body]
pub(crate) fn seeded_rng(seed: u64) -> (r: StdRng)
    ensures
        r == seeded_generator(seed),
{
    StdRng::seed_from_u64(seed)
}

// `StdRng` is a seeded pseudo-random generator: what each call below
// returns, and the state it leaves, are fixed functions of the state it
// starts from and of the call's arguments. The names that follow stand for
// those functions; nothing is claimed of them beyond the ranges stated.

/// Value and next state of `gen_range(lo..hi)` on `u32` from state `g`.
pub uninterp spec fn gen_below(g: StdRng, lo: u32, hi: u32) -> (u32, StdRng);

/// Value and next state of `gen_range(lo..=hi)` on `u32` from state `g`.
pub uninterp spec fn gen_between(g: StdRng, lo: u32, hi: u32) -> (u32, StdRng);

/// Value and next state of `gen_range(0..len)` on `usize` from state `g`,
/// on a machine whose `usize` has `word_bits` bits (the draw samples at
/// the width of `usize`).
pub uninterp spec fn gen_index(g: StdRng, len: usize, word_bits: u32) -> (usize, StdRng);

/// Value and next state of `gen_ratio(1, 2)` from state `g`.
pub uninterp spec fn gen_coin(g: StdRng) -> (bool, StdRng);

/// State after `next_u64` from state `g`.
pub uninterp spec fn skip_u64(g: StdRng) -> StdRng;

/// `Rng::gen_range(lo..hi)` on `u32`: a value in the half-open range, with
/// the next state, as `gen_below` names them. The range must not be empty
/// (rand panics on an empty range).
#[verifier::external_body]
pub(crate) fn draw_below(rng: &mut StdRng, lo: u32, hi: u32) -> (r: u32)
    requires
        lo < hi,
    ensures
        lo <= r < hi,
        (r, *final(rng)) == gen_below(*old(rng), lo, hi),
{
    rng.gen_range(lo..hi)
}

/// `Rng::gen_range(lo..=hi)` on `u32`: a value in the closed range, with
/// the next state, as `gen_between` names them.
#[verifier::external_body]
pub(crate) fn draw_between(rng: &mut StdRng, lo: u32, hi: u32) -> (r: u32)
    requires
        lo <= hi,
    ensures
        lo <= r <= hi,
        (r, *final(rng)) == gen_between(*old(rng), lo, hi),
{
    rng.gen_range(lo..=hi)
}

/// `Rng::gen_range(0..len)` on `usize`: an index into a non-empty sequence,
/// with the next state, as `gen_index` names them.
#[verifier::external_body]
pub(crate) fn draw_index(rng: &mut StdRng, len: usize) -> (r: usize)
    requires
        len > 0,
    ensures
        r < len,
        (r, *final(rng)) == gen_index(*old(rng), len, usize::BITS),
{
    rng.gen_range(0..len)
}

/// `Rng::gen_ratio(1, 2)`: a fair coin, with the next state, as `gen_coin`
/// names them.
#[verifier::external_body]
pub(crate) fn draw_coin(rng: &mut StdRng) -> (r: bool)
    ensures
        (r, *final(rng)) == gen_coin(*old(rng)),
{
    rng.gen_ratio(1, 2)
}

/// `RngCore::next_u64`: advances the generator by one 64-bit draw whose
/// value is not used; the next state is `skip_u64`.
#[verifier::external_body]
pub(crate) fn skip_draw(rng: &mut StdRng)
    ensures
        *final(rng) == skip_u64(*old(rng)),
{
    let _ = rng.next_u64();
}

} // verus!

//! Color utilities: random colors and spawn rows for new rockets.

use vstd::prelude::*;

verus! {

/// Picks a random spawn row for a keyboard-triggered rocket.
///
/// Relies on `rand::Rng::gen_range` over `0..crate::HEIGHT`: the result is
/// drawn from that half-open range, so it is always a valid row index.
#[verifier::external_body]
pub fn random_y_index() -> (y: usize)
    ensures
        y < crate::HEIGHT,
{
    let mut random = rand::thread_rng();
    rand::Rng::gen_range(&mut random, 0..crate::HEIGHT)
}

/// Picks a random packed `0xRRGGBB` base color for a new rocket.
///
/// Relies on `rand::Rng::gen_range` over `0..0xffffff`: the result is drawn
/// from that half-open range, so the top byte is zero.
#[verifier::external_body]
pub fn random_rgb_color() -> (c: u32)
    ensures
        c < 0xffffff,
{
    let mut random = rand::thread_rng();
    rand::Rng::gen_range(&mut random, 0..0xffffff)
}

} // verus!

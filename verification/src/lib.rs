//! A small firework animation library: rockets with fading trails move across
//! a pixel grid, composited each frame with an optional cross-hair overlay.
//!
//! The simulation itself is pure: the host windowing layer polls input, hands
//! the library plain values, and presents the pixel buffer it gets back.

pub mod color;
pub mod darken;
pub mod sim;

use vstd::prelude::*;

verus! {

/// Grid width used by the interactive animation, in columns.
pub const WIDTH: usize = 800;

/// Grid height used by the interactive animation, in rows.
pub const HEIGHT: usize = 600;

} // verus!

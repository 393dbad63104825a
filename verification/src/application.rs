//! The drawing policy a host window loop follows: whether it presents a
//! single frame or runs continuously.  The loop itself — window creation,
//! event pumping, presenting the framebuffer — lives with the host.

use vstd::prelude::*;

verus! {

/// How a host loop drives the canvas: draw once and wait, or redraw every
/// frame.
pub enum LoopMode {
    SingleFrame,
    Continuous,
}

} // verus!

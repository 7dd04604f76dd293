//! Pixel positions and single-pixel writes.
use vstd::prelude::*;

use crate::framebuffer::FrameBuffer;

verus! {

/// A pixel position: column `x` from the left, row `y` from the top.
#[derive(Clone, Copy, Debug, PartialEq, Eq, Structural)]
pub struct Pixel {
    pub x: i32,
    pub y: i32,
}

impl Pixel {
    pub fn new(x: i32, y: i32) -> (p: Pixel)
        ensures
            p == (Pixel { x, y }),
    {
        Pixel { x, y }
    }
}

/// Writes the current color at `p`, where that pixel exists.
pub fn point(fb: &mut FrameBuffer, p: Pixel)
    requires
        old(fb).wf(),
    ensures
        final(fb).wf(),
        final(fb)@ == old(fb)@.plot(p.x as int, p.y as int),
{
    fb.set_pixel(p.x, p.y);
}

} // verus!

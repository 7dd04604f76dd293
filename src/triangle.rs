//! Wireframe triangles.
use vstd::prelude::*;

use crate::framebuffer::FrameBuffer;
use crate::line::{line, plot_all, segment};
use crate::pixel::Pixel;

verus! {

/// Draws the edges `a`-`b`, `b`-`c` and `c`-`a` of a triangle as thin lines
/// in the current color.
pub fn triangle(fb: &mut FrameBuffer, a: Pixel, b: Pixel, c: Pixel)
    requires
        old(fb).wf(),
    ensures
        final(fb).wf(),
        final(fb)@ == plot_all(
            plot_all(plot_all(old(fb)@, segment(a, b)), segment(b, c)),
            segment(c, a),
        ),
{
    line(fb, a, b);
    line(fb, b, c);
    line(fb, c, a);
}

} // verus!

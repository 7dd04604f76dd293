//! The frame buffer: a grid of colors with a parallel grid of depths, a
//! background color and the current drawing color.
use vstd::prelude::*;

use crate::depth::{Depth, INFINITY_BITS, less_than};

verus! {

/// An RGBA color, one byte per channel.
#[derive(Clone, Copy, Debug, PartialEq, Eq, Structural)]
pub struct Color {
    pub r: u8,
    pub g: u8,
    pub b: u8,
    pub a: u8,
}

impl Color {
    pub open spec fn spec_white() -> Color {
        Color { r: 255, g: 255, b: 255, a: 255 }
    }

    /// Opaque white.
    pub fn white() -> (c: Color)
        ensures
            c == Color::spec_white(),
    {
        Color { r: 255, g: 255, b: 255, a: 255 }
    }

    /// Opaque black.
    pub fn black() -> (c: Color)
        ensures
            c == (Color { r: 0, g: 0, b: 0, a: 255 }),
    {
        Color { r: 0, g: 0, b: 0, a: 255 }
    }

    pub fn new(r: u8, g: u8, b: u8, a: u8) -> (c: Color)
        ensures
            c == (Color { r, g, b, a }),
    {
        Color { r, g, b, a }
    }
}

/// What a frame buffer holds. Cell `(x, y)` is at index `y * width + x` of
/// both grids; row 0 is the top of the image.
pub struct Canvas {
    pub width: int,
    pub height: int,
    pub colors: Seq<Color>,
    pub depths: Seq<Depth>,
    pub background: Color,
    pub current: Color,
}

impl Canvas {
    pub open spec fn in_bounds(self, x: int, y: int) -> bool {
        0 <= x < self.width && 0 <= y < self.height
    }

    pub open spec fn index(self, x: int, y: int) -> int {
        y * self.width + x
    }

    pub open spec fn cells(self) -> nat {
        (self.width * self.height) as nat
    }

    /// Every color cell is `c` and every depth cell is positive infinity.
    pub open spec fn is_blank(self, c: Color) -> bool {
        &&& forall|i: int| 0 <= i < self.cells() ==> #[trigger] self.colors[i] == c
        &&& forall|i: int| 0 <= i < self.cells() ==> (#[trigger] self.depths[i]).bits == INFINITY_BITS
    }

    /// The canvas after writing the current color at `(x, y)`, where that
    /// cell exists.
    pub open spec fn plot(self, x: int, y: int) -> Canvas {
        if self.in_bounds(x, y) {
            Canvas { colors: self.colors.update(self.index(x, y), self.current), ..self }
        } else {
            self
        }
    }

    /// The canvas after a depth-tested write of the current color at
    /// `(x, y)` with depth `z`: only where the cell exists and `z` is
    /// strictly nearer than its depth.
    pub open spec fn plot_depth(self, x: int, y: int, z: Depth) -> Canvas {
        if self.in_bounds(x, y) && less_than(z.bits, self.depths[self.index(x, y)].bits) {
            Canvas {
                colors: self.colors.update(self.index(x, y), self.current),
                depths: self.depths.update(self.index(x, y), z),
                ..self
            }
        } else {
            self
        }
    }
}

/// The canvas after, for each `(color, z)` of `calls` in order, making
/// `color` current and making a depth-tested write of it at `(x, y)` with
/// depth `z`.
pub open spec fn paint_all(c: Canvas, x: int, y: int, calls: Seq<(Color, Depth)>) -> Canvas
    decreases calls.len(),
{
    if calls.len() == 0 {
        c
    } else {
        let p = paint_all(c, x, y, calls.drop_last());
        Canvas { current: calls.last().0, ..p }.plot_depth(x, y, calls.last().1)
    }
}

/// A depth-tested write whose depth is not strictly nearer than the one the
/// cell holds changes nothing.
pub proof fn lemma_farther_write_keeps_cell(c: Canvas, x: int, y: int, z: Depth)
    requires
        c.in_bounds(x, y),
        !less_than(z.bits, c.depths[c.index(x, y)].bits),
    ensures
        c.plot_depth(x, y, z) == c,
{
}

proof fn lemma_paint_all_depth(c: Canvas, x: int, y: int, calls: Seq<(Color, Depth)>)
    requires
        c.in_bounds(x, y),
        c.depths.len() == c.cells(),
        c.colors.len() == c.cells(),
    ensures
        paint_all(c, x, y, calls).width == c.width,
        paint_all(c, x, y, calls).height == c.height,
        paint_all(c, x, y, calls).depths.len() == c.depths.len(),
        paint_all(c, x, y, calls).colors.len() == c.colors.len(),
        paint_all(c, x, y, calls).depths[c.index(x, y)] == c.depths[c.index(x, y)] || exists|k: int|
            0 <= k < calls.len() && paint_all(c, x, y, calls).depths[c.index(x, y)]
                == (#[trigger] calls[k]).1,
    decreases calls.len(),
{
    lemma_index_in_grid(x, y, c.width, c.height);
    if calls.len() > 0 {
        let q = calls.drop_last();
        lemma_paint_all_depth(c, x, y, q);
        let p = paint_all(c, x, y, q);
        if p.depths[c.index(x, y)] != c.depths[c.index(x, y)] {
            let k = choose|k: int| 0 <= k < q.len() && p.depths[c.index(x, y)] == (#[trigger] q[k]).1;
            assert(calls[k] == q[k]);
        }
        assert(calls[calls.len() - 1] == calls.last());
    }
}

/// Depth-tested writes at one cell whose depths strictly decrease, the last
/// one nearer than what the cell held before, leave the cell with the color
/// and the depth of the last write.
pub proof fn lemma_nearest_write_wins(c: Canvas, x: int, y: int, calls: Seq<(Color, Depth)>)
    requires
        c.in_bounds(x, y),
        c.depths.len() == c.cells(),
        c.colors.len() == c.cells(),
        calls.len() > 0,
        forall|i: int, j: int|
            0 <= i < j < calls.len() ==> less_than(
                (#[trigger] calls[j]).1.bits,
                (#[trigger] calls[i]).1.bits,
            ),
        less_than(calls.last().1.bits, c.depths[c.index(x, y)].bits),
    ensures
        paint_all(c, x, y, calls).colors[c.index(x, y)] == calls.last().0,
        paint_all(c, x, y, calls).depths[c.index(x, y)] == calls.last().1,
{
    let q = calls.drop_last();
    lemma_paint_all_depth(c, x, y, q);
    let p = paint_all(c, x, y, q);
    if p.depths[c.index(x, y)] != c.depths[c.index(x, y)] {
        let k = choose|k: int| 0 <= k < q.len() && p.depths[c.index(x, y)] == (#[trigger] q[k]).1;
        assert(calls[k] == q[k]);
        assert(less_than(calls[calls.len() - 1].1.bits, calls[k].1.bits));
    }
    lemma_index_in_grid(x, y, c.width, c.height);
}

/// A color grid and a depth grid of `width * height` cells each.
pub struct FrameBuffer {
    width: i32,
    height: i32,
    colors: Vec<Color>,
    depths: Vec<Depth>,
    background_color: Color,
    current_color: Color,
}

impl View for FrameBuffer {
    type V = Canvas;

    closed spec fn view(&self) -> Canvas {
        Canvas {
            width: self.width as int,
            height: self.height as int,
            colors: self.colors@,
            depths: self.depths@,
            background: self.background_color,
            current: self.current_color,
        }
    }
}

pub(crate) proof fn lemma_index_in_grid(x: int, y: int, w: int, h: int)
    requires
        0 <= x < w,
        0 <= y < h,
    ensures
        0 <= y * w + x < w * h,
{
    assert(0 <= y * w) by (nonlinear_arith)
        requires
            0 <= y,
            0 <= w,
    ;
    assert(y * w + x < w * h) by (nonlinear_arith)
        requires
            0 <= x < w,
            0 <= y < h,
    ;
}

/// `n` copies of `c`.
fn filled<T: Copy>(c: T, n: usize) -> (v: Vec<T>)
    ensures
        v@ == Seq::new(n as nat, |i: int| c),
{
    let mut v: Vec<T> = Vec::new();
    let mut i: usize = 0;
    while i < n
        invariant
            i <= n,
            v@ == Seq::new(i as nat, |j: int| c),
        decreases n - i,
    {
        v.push(c);
        i += 1;
        assert(v@ =~= Seq::new(i as nat, |j: int| c));
    }
    v
}

impl FrameBuffer {
    /// The grids have `width * height` cells, which fits in memory.
    pub open spec fn wf(&self) -> bool {
        &&& 0 <= self@.width <= i32::MAX
        &&& 0 <= self@.height <= i32::MAX
        &&& self@.width * self@.height <= usize::MAX
        &&& self@.colors.len() == self@.cells()
        &&& self@.depths.len() == self@.cells()
    }

    /// A frame buffer of `width * height` cells, all of the background color
    /// and at infinite depth, with white as the current color.
    pub fn new(width: i32, height: i32, background_color: Color) -> (fb: FrameBuffer)
        requires
            width >= 0,
            height >= 0,
            width * height <= usize::MAX,
        ensures
            fb.wf(),
            fb@.width == width,
            fb@.height == height,
            fb@.background == background_color,
            fb@.current == Color::spec_white(),
            fb@.is_blank(background_color),
    {
        let n = (width as usize) * (height as usize);
        FrameBuffer {
            width,
            height,
            colors: filled(background_color, n),
            depths: filled(Depth::infinity(), n),
            background_color,
            current_color: Color::white(),
        }
    }

    pub fn width(&self) -> (w: i32)
        ensures
            w == self@.width,
    {
        self.width
    }

    pub fn height(&self) -> (h: i32)
        ensures
            h == self@.height,
    {
        self.height
    }

    pub fn background_color(&self) -> (c: Color)
        ensures
            c == self@.background,
    {
        self.background_color
    }

    pub fn current_color(&self) -> (c: Color)
        ensures
            c == self@.current,
    {
        self.current_color
    }

    /// The color grid, row by row from the top.
    pub fn colors(&self) -> (cs: &Vec<Color>)
        ensures
            cs@ == self@.colors,
    {
        &self.colors
    }

    /// Makes `color` the background and clears the frame buffer to it.
    pub fn set_background_color(&mut self, color: Color)
        requires
            old(self).wf(),
        ensures
            final(self).wf(),
            final(self)@.width == old(self)@.width,
            final(self)@.height == old(self)@.height,
            final(self)@.current == old(self)@.current,
            final(self)@.background == color,
            final(self)@.is_blank(color),
    {
        self.background_color = color;
        self.clear();
    }

    /// Sets every color cell to the background color and every depth cell
    /// to positive infinity.
    pub fn clear(&mut self)
        requires
            old(self).wf(),
        ensures
            final(self).wf(),
            final(self)@.width == old(self)@.width,
            final(self)@.height == old(self)@.height,
            final(self)@.current == old(self)@.current,
            final(self)@.background == old(self)@.background,
            final(self)@.is_blank(old(self)@.background),
    {
        let n = self.colors.len();
        self.colors = filled(self.background_color, n);
        self.depths = filled(Depth::infinity(), n);
    }

    /// Makes `color` the color of the writes that follow.
    pub fn set_color(&mut self, color: Color)
        requires
            old(self).wf(),
        ensures
            final(self).wf(),
            final(self)@ == (Canvas { current: color, ..old(self)@ }),
    {
        self.current_color = color;
    }

    fn in_bounds(&self, x: i32, y: i32) -> (r: bool)
        ensures
            r == self@.in_bounds(x as int, y as int),
    {
        0 <= x && x < self.width && 0 <= y && y < self.height
    }

    fn idx(&self, x: i32, y: i32) -> (i: usize)
        requires
            self.wf(),
            self@.in_bounds(x as int, y as int),
        ensures
            i == self@.index(x as int, y as int),
            i < self@.cells(),
    {
        proof {
            lemma_index_in_grid(x as int, y as int, self.width as int, self.height as int);
        }
        (y as usize) * (self.width as usize) + (x as usize)
    }

    /// The color of cell `(x, y)`.
    pub fn color_at(&self, x: i32, y: i32) -> (c: Color)
        requires
            self.wf(),
            self@.in_bounds(x as int, y as int),
        ensures
            c == self@.colors[self@.index(x as int, y as int)],
    {
        self.colors[self.idx(x, y)]
    }

    /// The depth of cell `(x, y)`.
    pub fn depth_at(&self, x: i32, y: i32) -> (d: Depth)
        requires
            self.wf(),
            self@.in_bounds(x as int, y as int),
        ensures
            d == self@.depths[self@.index(x as int, y as int)],
    {
        self.depths[self.idx(x, y)]
    }

    /// Writes the current color at `(x, y)`, where that cell exists.
    pub fn set_pixel(&mut self, x: i32, y: i32)
        requires
            old(self).wf(),
        ensures
            final(self).wf(),
            final(self)@ == old(self)@.plot(x as int, y as int),
    {
        if self.in_bounds(x, y) {
            let i = self.idx(x, y);
            let c = self.current_color;
            self.colors.set(i, c);
        }
    }

    /// Writes the current color and `z` at `(x, y)`, where that cell exists
    /// and `z` is strictly nearer than the depth it holds.
    pub fn set_pixel_z(&mut self, x: i32, y: i32, z: Depth)
        requires
            old(self).wf(),
        ensures
            final(self).wf(),
            final(self)@ == old(self)@.plot_depth(x as int, y as int, z),
    {
        if self.in_bounds(x, y) {
            let i = self.idx(x, y);
            if z.is_nearer(&self.depths[i]) {
                self.depths.set(i, z);
                let c = self.current_color;
                self.colors.set(i, c);
            }
        }
    }
}

} // verus!

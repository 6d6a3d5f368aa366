//! The frame a renderer draws into: one colour and one depth for each pixel.

use crate::depth::{is_nearer, nearer, FAR_DEPTH};
use core::ops::Range;
use vstd::prelude::*;

verus! {

/// What a `PaintBuffer` holds, as mathematics: the pixels row after row, the
/// pixel in column `x` of row `y` at place `x + y * width`.
pub struct Canvas {
    pub width: nat,
    pub height: nat,
    pub depth: Seq<u64>,
    pub color: Seq<u32>,
}

impl Canvas {
    /// Both sequences hold one entry for each pixel.
    pub open spec fn wf(self) -> bool {
        &&& self.depth.len() == self.width * self.height
        &&& self.color.len() == self.depth.len()
    }

    /// A canvas of one colour on which nothing was drawn yet.
    pub open spec fn blank(width: nat, height: nat, background: u32) -> Canvas {
        Canvas {
            width,
            height,
            depth: Seq::new(width * height, |i: int| FAR_DEPTH),
            color: Seq::new(width * height, |i: int| background),
        }
    }

    /// The place of the pixel in column `x` of row `y`.
    pub open spec fn place(self, x: int, y: int) -> int {
        x + y * self.width
    }

    /// Every pixel in the columns `x0 <= x < x1` of the rows `y0 <= y < y1`
    /// has a place on the canvas.
    pub open spec fn fits(self, x0: int, x1: int, y0: int, y1: int) -> bool {
        forall|x: int, y: int|
            x0 <= x < x1 && y0 <= y < y1 ==> 0 <= #[trigger] self.place(x, y) < self.color.len()
    }

    /// A fragment of the given depth, offered to place `i`, is taken: `i` is
    /// a place of the canvas and the fragment is strictly nearer than what
    /// the place holds.
    pub open spec fn takes(self, i: int, depth: u64) -> bool {
        0 <= i < self.color.len() && nearer(depth, self.depth[i])
    }

    /// The canvas after a fragment of the given depth and colour was offered
    /// to place `i`.
    pub open spec fn offer(self, i: int, depth: u64, color: u32) -> Canvas {
        if self.takes(i, depth) {
            Canvas {
                depth: self.depth.update(i, depth),
                color: self.color.update(i, color),
                ..self
            }
        } else {
            self
        }
    }
}

/// A frame of `width` by `height` pixels with its depth buffer. Depths are
/// held as bit patterns, see the module `depth`.
pub struct PaintBuffer {
    pub width: u32,
    pub height: u32,
    pub z_buffer: Vec<u64>,
    pub pixel_buffer: Vec<u32>,
}

impl View for PaintBuffer {
    type V = Canvas;

    open spec fn view(&self) -> Canvas {
        Canvas {
            width: self.width as nat,
            height: self.height as nat,
            depth: self.z_buffer@,
            color: self.pixel_buffer@,
        }
    }
}

/// The number of pixels of a frame, where a buffer of that many can exist.
pub fn frame_size(width: u32, height: u32) -> (size: Option<usize>)
    ensures
        size == (if width * height <= usize::MAX {
            Some((width * height) as usize)
        } else {
            None
        }),
{
    assert(width * height <= 0xFFFF_FFFF * 0xFFFF_FFFF) by (nonlinear_arith)
        requires
            width <= 0xFFFF_FFFF,
            height <= 0xFFFF_FFFF,
    ;
    let wide: u64 = (width as u64) * (height as u64);
    if wide <= usize::MAX as u64 {
        Some(wide as usize)
    } else {
        None
    }
}

impl PaintBuffer {
    /// Lengths and dimensions agree.
    pub open spec fn wf(&self) -> bool {
        self@.wf()
    }

    /// A black frame on which nothing was drawn yet.
    pub fn new(width: u32, height: u32) -> (buffer: PaintBuffer)
        requires
            width * height <= usize::MAX,
        ensures
            buffer@ == Canvas::blank(width as nat, height as nat, 0),
            buffer.wf(),
    {
        let size: Option<usize> = frame_size(width, height);
        let buffer_size: usize = size.unwrap();
        let buffer = PaintBuffer {
            width,
            height,
            z_buffer: vec![FAR_DEPTH; buffer_size],
            pixel_buffer: vec![0u32; buffer_size],
        };
        assert(buffer@.depth =~= Canvas::blank(width as nat, height as nat, 0).depth);
        assert(buffer@.color =~= Canvas::blank(width as nat, height as nat, 0).color);
        buffer
    }

    /// Tests whether lengths and dimensions agree.
    pub fn is_wf(&self) -> (ok: bool)
        ensures
            ok == self.wf(),
    {
        let size: Option<usize> = frame_size(self.width, self.height);
        assert(self@.width * self@.height == self.width * self.height);
        assert(self.z_buffer.len() <= usize::MAX);
        match size {
            Some(size) => self.z_buffer.len() == size && self.pixel_buffer.len() == size,
            None => false,
        }
    }

    /// Starts a new frame in the same buffer: every pixel gets the background
    /// colour and the far depth.
    pub fn clear(&mut self, background: u32)
        requires
            old(self).wf(),
        ensures
            final(self)@ == Canvas::blank(old(self)@.width, old(self)@.height, background),
            final(self).wf(),
    {
        let n: usize = self.pixel_buffer.len();
        let mut i: usize = 0;
        while i < n
            invariant
                i <= n,
                n == self.pixel_buffer.len(),
                n == self.z_buffer.len(),
                self.width == old(self).width,
                self.height == old(self).height,
                forall|k: int| 0 <= k < i ==> self.pixel_buffer[k] == background,
                forall|k: int| 0 <= k < i ==> self.z_buffer[k] == FAR_DEPTH,
            decreases n - i,
        {
            self.pixel_buffer[i] = background;
            self.z_buffer[i] = FAR_DEPTH;
            i += 1;
        }
        assert(self@.depth =~= Canvas::blank(old(self)@.width, old(self)@.height, background).depth);
        assert(self@.color =~= Canvas::blank(old(self)@.width, old(self)@.height, background).color);
    }

    /// The place of pixel (`x`, `y`) in the two buffers, or `None` where that
    /// place lies beyond their end.
    pub fn pixel_index(&self, x: u32, y: u32) -> (index: Option<usize>)
        ensures
            index == (if self@.place(x as int, y as int) < self.pixel_buffer.len() {
                Some(self@.place(x as int, y as int) as usize)
            } else {
                None
            }),
    {
        assert(y * self.width <= 0xFFFF_FFFF * 0xFFFF_FFFF) by (nonlinear_arith)
            requires
                y <= 0xFFFF_FFFF,
                self.width <= 0xFFFF_FFFF,
        ;
        let place: u64 = (x as u64) + (y as u64) * (self.width as u64);
        if place < self.pixel_buffer.len() as u64 {
            Some(place as usize)
        } else {
            None
        }
    }

    /// Tests whether every pixel in the given columns and rows has a place
    /// in the buffers.
    pub fn region_fits(&self, columns: &Range<u32>, rows: &Range<u32>) -> (fits: bool)
        ensures
            fits == self@.fits(
                columns.start as int,
                columns.end as int,
                rows.start as int,
                rows.end as int,
            ),
    {
        if columns.start >= columns.end || rows.start >= rows.end {
            return true;
        }
        let last: Option<usize> = self.pixel_index(columns.end - 1, rows.end - 1);
        proof {
            let c = self@;
            let x_last = columns.end - 1;
            let y_last = rows.end - 1;
            if last.is_some() {
                assert forall|x: int, y: int|
                    columns.start <= x < columns.end && rows.start <= y < rows.end implies 0
                    <= #[trigger] c.place(x, y) < c.color.len() by {
                    assert(0 <= y * c.width <= y_last * c.width) by (nonlinear_arith)
                        requires
                            0 <= y <= y_last,
                            0 <= c.width,
                    ;
                }
            } else {
                assert(!(0 <= c.place(x_last, y_last) < c.color.len()));
            }
        }
        last.is_some()
    }

    /// Offers one fragment to pixel (`x`, `y`): it is stored, depth and
    /// colour, where the pixel lies in the buffer and the fragment is strictly
    /// nearer than what the pixel holds. Says whether it was stored.
    pub fn plot(&mut self, x: u32, y: u32, depth: u64, color: u32) -> (stored: bool)
        requires
            old(self).wf(),
        ensures
            final(self)@ == old(self)@.offer(old(self)@.place(x as int, y as int), depth, color),
            stored == old(self)@.takes(old(self)@.place(x as int, y as int), depth),
            final(self).wf(),
    {
        match self.pixel_index(x, y) {
            Some(index) => {
                if is_nearer(depth, self.z_buffer[index]) {
                    self.z_buffer[index] = depth;
                    self.pixel_buffer[index] = color;
                    true
                } else {
                    false
                }
            },
            None => false,
        }
    }
}

} // verus!

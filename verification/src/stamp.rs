//! Drawing a flat shape without depth: every pixel of a rectangle gets the
//! shape's colour where the shape covers it, and black where it does not.

use crate::buffer::{Canvas, PaintBuffer};
use crate::visibility::{computes, lemma_place};
use core::ops::Range;
use vstd::prelude::*;

verus! {

/// What a flat draw lays on the canvas, as mathematics: the columns
/// `x0 <= x < x1` of the rows `y0 <= y < y1`, and for each pixel whether the
/// shape covers it.
pub struct Stencil {
    pub x0: int,
    pub x1: int,
    pub y0: int,
    pub y1: int,
    pub covers: spec_fn(int, int) -> bool,
}

impl Stencil {
    /// Pixel (`x`, `y`) lies in the rectangle.
    pub open spec fn holds(self, x: int, y: int) -> bool {
        self.x0 <= x < self.x1 && self.y0 <= y < self.y1
    }

    /// No column of the rectangle lies left or right of a canvas of the given
    /// width, and no row above it: each of its pixels has a place of its own.
    pub open spec fn within(self, width: nat) -> bool {
        0 <= self.x0 && self.x1 <= width && 0 <= self.y0
    }

    /// What a pixel of the rectangle holds after the flat draw, depth and
    /// colour, if it held `held` before.
    pub open spec fn marked(self, held: (u64, u32), x: int, y: int, value: u32) -> (u64, u32) {
        (
            held.0,
            if (self.covers)(x, y) {
                value
            } else {
                0
            },
        )
    }

    /// A walk over the rectangle, row by row and each row from the left,
    /// comes to pixel (`px`, `py`) before it comes to (`x`, `y`).
    pub open spec fn before(self, px: int, py: int, x: int, y: int) -> bool {
        &&& self.x0 <= px
        &&& (self.y0 <= py < y && px < self.x1) || (py == y && px < x)
    }

    /// The stencil is a record of one flat draw: it has the draw's rectangle
    /// and covers a pixel of it where `covers` returned `true` for it.
    pub open spec fn records<F: Fn(u32, u32) -> bool>(
        self,
        columns: Range<u32>,
        rows: Range<u32>,
        covers: F,
    ) -> bool {
        &&& self.x0 == columns.start
        &&& self.x1 == columns.end
        &&& self.y0 == rows.start
        &&& self.y1 == rows.end
        &&& forall|x: u32, y: u32|
            self.holds(x as int, y as int) ==> #[trigger] covers.ensures(
                (x, y),
                (self.covers)(x as int, y as int),
            )
    }
}

impl Canvas {
    /// The canvas after the flat draw came by pixel (`x`, `y`): where the
    /// pixel has a place, it has the colour `value` if the stencil covers it
    /// and is black if not. Its depth stays.
    pub open spec fn mark(self, stencil: Stencil, x: int, y: int, value: u32) -> Canvas {
        if 0 <= self.place(x, y) < self.color.len() {
            Canvas {
                color: self.color.update(
                    self.place(x, y),
                    if (stencil.covers)(x, y) {
                        value
                    } else {
                        0
                    },
                ),
                ..self
            }
        } else {
            self
        }
    }

    /// The canvas after the pixels of row `y` in the columns before `x` were
    /// marked, from left to right.
    pub open spec fn stamp_row(self, stencil: Stencil, x: int, y: int, value: u32) -> Canvas
        decreases x - stencil.x0,
    {
        if x <= stencil.x0 {
            self
        } else {
            self.stamp_row(stencil, x - 1, y, value).mark(stencil, x - 1, y, value)
        }
    }

    /// The canvas after the rows before `y` were marked, from the top down.
    pub open spec fn stamp_rows(self, stencil: Stencil, y: int, value: u32) -> Canvas
        decreases y - stencil.y0,
    {
        if y <= stencil.y0 {
            self
        } else {
            self.stamp_rows(stencil, y - 1, value).stamp_row(stencil, stencil.x1, y - 1, value)
        }
    }

    /// The canvas as the flat draw leaves it when it comes to pixel
    /// (`x`, `y`).
    pub open spec fn stamped_to(self, stencil: Stencil, x: int, y: int, value: u32) -> Canvas {
        self.stamp_rows(stencil, y, value).stamp_row(stencil, x, y, value)
    }

    /// The canvas after the whole flat draw.
    pub open spec fn stamp(self, stencil: Stencil, value: u32) -> Canvas {
        self.stamp_rows(stencil, stencil.y1, value)
    }
}

/// Two stencils with one rectangle that cover the same pixels of a row
/// before column `x` leave the same row.
proof fn lemma_stamp_row_same(c: Canvas, s: Stencil, t: Stencil, x: int, y: int, value: u32)
    requires
        s.x0 == t.x0,
        forall|px: int| s.x0 <= px < x ==> (#[trigger] (s.covers)(px, y)) == (t.covers)(px, y),
    ensures
        c.stamp_row(s, x, y, value) == c.stamp_row(t, x, y, value),
    decreases x - s.x0,
{
    if x > s.x0 {
        lemma_stamp_row_same(c, s, t, x - 1, y, value);
        assert((s.covers)(x - 1, y) == (t.covers)(x - 1, y));
    }
}

/// Two stencils with one rectangle that cover the same pixels of the rows
/// before `y` leave the same rows.
proof fn lemma_stamp_rows_same(c: Canvas, s: Stencil, t: Stencil, y: int, value: u32)
    requires
        s.x0 == t.x0,
        s.x1 == t.x1,
        s.y0 == t.y0,
        forall|px: int, py: int|
            s.x0 <= px < s.x1 && s.y0 <= py < y ==> (#[trigger] (s.covers)(px, py)) == (t.covers)(
                px,
                py,
            ),
    ensures
        c.stamp_rows(s, y, value) == c.stamp_rows(t, y, value),
    decreases y - s.y0,
{
    if y > s.y0 {
        lemma_stamp_rows_same(c, s, t, y - 1, value);
        lemma_stamp_row_same(c.stamp_rows(s, y - 1, value), s, t, s.x1, y - 1, value);
    }
}

/// Two stencils with one rectangle that cover the same pixels before
/// (`x`, `y`) leave the same canvas there.
proof fn lemma_stamped_same(c: Canvas, s: Stencil, t: Stencil, x: int, y: int, value: u32)
    requires
        s.x0 == t.x0,
        s.x1 == t.x1,
        s.y0 == t.y0,
        forall|px: int, py: int|
            s.before(px, py, x, y) ==> (#[trigger] (s.covers)(px, py)) == (t.covers)(px, py),
    ensures
        c.stamped_to(s, x, y, value) == c.stamped_to(t, x, y, value),
{
    lemma_stamp_rows_same(c, s, t, y, value);
    lemma_stamp_row_same(c.stamp_rows(s, y, value), s, t, x, y, value);
}

/// Two stencils with one rectangle that cover the same pixels of it leave
/// the same canvas.
pub proof fn lemma_stamp_same(c: Canvas, s: Stencil, t: Stencil, value: u32)
    requires
        s.x0 == t.x0,
        s.x1 == t.x1,
        s.y0 == t.y0,
        s.y1 == t.y1,
        forall|x: int, y: int| s.holds(x, y) ==> (#[trigger] (s.covers)(x, y)) == (t.covers)(x, y),
    ensures
        c.stamp(s, value) == c.stamp(t, value),
{
    assert forall|px: int, py: int| s.x0 <= px < s.x1 && s.y0 <= py < s.y1 implies (
    #[trigger] (s.covers)(px, py)) == (t.covers)(px, py) by {
        assert(s.holds(px, py));
    }
    lemma_stamp_rows_same(c, s, t, s.y1, value);
}

/// Where the function of a flat draw computes what a stencil covers, the
/// draw lays that stencil on the canvas.
pub proof fn lemma_record_stamps<F: Fn(u32, u32) -> bool>(
    c: Canvas,
    record: Stencil,
    scene: Stencil,
    columns: Range<u32>,
    rows: Range<u32>,
    covers: F,
    value: u32,
)
    requires
        record.records(columns, rows, covers),
        scene.x0 == record.x0,
        scene.x1 == record.x1,
        scene.y0 == record.y0,
        scene.y1 == record.y1,
        computes(covers, scene.covers),
    ensures
        c.stamp(record, value) == c.stamp(scene, value),
{
    assert forall|x: int, y: int| record.holds(x, y) implies (#[trigger] (record.covers)(x, y))
        == (scene.covers)(x, y) by {
        let px = x as u32;
        let py = y as u32;
        assert(covers.ensures((px, py), (record.covers)(px as int, py as int)));
    }
    lemma_stamp_same(c, record, scene, value);
}

/// Marking the pixels of a row before column `x` changes those pixels alone.
proof fn lemma_stamp_row(c: Canvas, s: Stencil, x: int, y: int, value: u32)
    requires
        c.wf(),
        s.within(c.width),
        0 <= y,
        x <= s.x1,
    ensures
        c.stamp_row(s, x, y, value).wf(),
        c.stamp_row(s, x, y, value).same_shape(c),
        forall|px: int, py: int| #[trigger]
            c.has(px, py) ==> c.stamp_row(s, x, y, value).at(px, py) == (if py == y && s.x0 <= px
                < x {
                s.marked(c.at(px, py), px, py, value)
            } else {
                c.at(px, py)
            }),
    decreases x - s.x0,
{
    if x > s.x0 {
        let before = c.stamp_row(s, x - 1, y, value);
        lemma_stamp_row(c, s, x - 1, y, value);
        assert forall|px: int, py: int| #[trigger] c.has(px, py) implies c.stamp_row(
            s,
            x,
            y,
            value,
        ).at(px, py) == (if py == y && s.x0 <= px < x {
            s.marked(c.at(px, py), px, py, value)
        } else {
            c.at(px, py)
        }) by {
            assert(before.has(px, py));
            lemma_place(before, x - 1, y, px, py);
            lemma_place(before, px, py, x - 1, y);
        }
    }
}

/// Marking the rows before `y` changes the pixels of those rows in the
/// stencil's columns alone.
proof fn lemma_stamp_rows(c: Canvas, s: Stencil, y: int, value: u32)
    requires
        c.wf(),
        s.within(c.width),
    ensures
        c.stamp_rows(s, y, value).wf(),
        c.stamp_rows(s, y, value).same_shape(c),
        forall|px: int, py: int| #[trigger]
            c.has(px, py) ==> c.stamp_rows(s, y, value).at(px, py) == (if s.x0 <= px < s.x1
                && s.y0 <= py < y {
                s.marked(c.at(px, py), px, py, value)
            } else {
                c.at(px, py)
            }),
    decreases y - s.y0,
{
    if y > s.y0 {
        let before = c.stamp_rows(s, y - 1, value);
        lemma_stamp_rows(c, s, y - 1, value);
        lemma_stamp_row(before, s, s.x1, y - 1, value);
        assert forall|px: int, py: int| #[trigger] c.has(px, py) implies c.stamp_rows(
            s,
            y,
            value,
        ).at(px, py) == (if s.x0 <= px < s.x1 && s.y0 <= py < y {
            s.marked(c.at(px, py), px, py, value)
        } else {
            c.at(px, py)
        }) by {
            assert(before.has(px, py));
        }
    }
}

/// What a canvas shows after a flat draw: a pixel of the rectangle has the
/// colour `value` if the stencil covers it and is black if not, every other
/// pixel has the colour it had, and all depths are as they were.
pub proof fn lemma_stamp(c: Canvas, s: Stencil, value: u32)
    requires
        c.wf(),
        s.within(c.width),
    ensures
        c.stamp(s, value).wf(),
        c.stamp(s, value).same_shape(c),
        forall|x: int, y: int| #[trigger]
            c.has(x, y) ==> c.stamp(s, value).at(x, y) == (if s.holds(x, y) {
                s.marked(c.at(x, y), x, y, value)
            } else {
                c.at(x, y)
            }),
{
    lemma_stamp_rows(c, s, s.y1, value);
}

impl PaintBuffer {
    /// Draws a flat shape without depth test. The pixels of the given
    /// columns and rows are visited row by row, each row from the left; each
    /// gets the colour `paint_value` where `covers` says that the shape
    /// covers it, and black where not. The depths stay as they are.
    pub fn stamp_region<F: Fn(u32, u32) -> bool>(
        &mut self,
        columns: Range<u32>,
        rows: Range<u32>,
        covers: F,
        paint_value: u32,
    )
        requires
            old(self).wf(),
            old(self)@.fits(
                columns.start as int,
                columns.end as int,
                rows.start as int,
                rows.end as int,
            ),
            forall|x: u32, y: u32|
                columns.start <= x < columns.end && rows.start <= y < rows.end
                    ==> #[trigger] covers.requires((x, y)),
        ensures
            final(self).wf(),
            exists|stencil: Stencil|
                stencil.records(columns, rows, covers) && final(self)@ == #[trigger] old(
                    self,
                )@.stamp(stencil, paint_value),
    {
        let ghost c0 = self@;
        let ghost mut stencil = Stencil {
            x0: columns.start as int,
            x1: columns.end as int,
            y0: rows.start as int,
            y1: rows.end as int,
            covers: |x: int, y: int| false,
        };
        let mut y: u32 = rows.start;
        while y < rows.end
            invariant
                self.wf(),
                self.width == old(self).width,
                self.pixel_buffer.len() == old(self).pixel_buffer.len(),
                c0.fits(
                    columns.start as int,
                    columns.end as int,
                    rows.start as int,
                    rows.end as int,
                ),
                forall|x: u32, y: u32|
                    columns.start <= x < columns.end && rows.start <= y < rows.end
                        ==> #[trigger] covers.requires((x, y)),
                c0 == old(self)@,
                stencil.x0 == columns.start,
                stencil.x1 == columns.end,
                stencil.y0 == rows.start,
                stencil.y1 == rows.end,
                rows.start <= y,
                y <= rows.end || y == rows.start,
                self@ == c0.stamped_to(stencil, stencil.x0, y as int, paint_value),
                forall|px: u32, py: u32|
                    stencil.before(px as int, py as int, stencil.x0, y as int)
                        ==> #[trigger] covers.ensures(
                        (px, py),
                        (stencil.covers)(px as int, py as int),
                    ),
            decreases rows.end - y,
        {
            let mut x: u32 = columns.start;
            while x < columns.end
                invariant
                    self.wf(),
                    self.width == old(self).width,
                    self.pixel_buffer.len() == old(self).pixel_buffer.len(),
                    c0.fits(
                        columns.start as int,
                        columns.end as int,
                        rows.start as int,
                        rows.end as int,
                    ),
                    forall|x: u32, y: u32|
                        columns.start <= x < columns.end && rows.start <= y < rows.end
                            ==> #[trigger] covers.requires((x, y)),
                    c0 == old(self)@,
                    stencil.x0 == columns.start,
                    stencil.x1 == columns.end,
                    stencil.y0 == rows.start,
                    stencil.y1 == rows.end,
                    rows.start <= y < rows.end,
                    columns.start <= x,
                    x <= columns.end || x == columns.start,
                    self@ == c0.stamped_to(stencil, x as int, y as int, paint_value),
                    forall|px: u32, py: u32|
                        stencil.before(px as int, py as int, x as int, y as int)
                            ==> #[trigger] covers.ensures(
                            (px, py),
                            (stencil.covers)(px as int, py as int),
                        ),
                decreases columns.end - x,
            {
                assert(c0.place(x as int, y as int) < c0.color.len());
                let index: Option<usize> = self.pixel_index(x, y);
                let covered: bool = covers(x, y);
                let ghost seen = stencil;
                proof {
                    stencil = Stencil {
                        covers: |px: int, py: int|
                            if px == x && py == y {
                                covered
                            } else {
                                (seen.covers)(px, py)
                            },
                        ..seen
                    };
                    lemma_stamped_same(c0, seen, stencil, x as int, y as int, paint_value);
                }
                self.pixel_buffer[index.unwrap()] = if covered {
                    paint_value
                } else {
                    0
                };
                x += 1;
            }
            y += 1;
        }
        assert(self@ == c0.stamp(stencil, paint_value));
        assert(stencil.records(columns, rows, covers));
    }
}

} // verus!

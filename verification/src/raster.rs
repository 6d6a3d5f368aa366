//! Drawing into a `PaintBuffer`: a rectangle of pixels is walked row by row,
//! and at each pixel the caller's functions say what the shape offers there.

use crate::buffer::{Canvas, PaintBuffer};
use crate::depth::is_nearer;
use core::ops::Range;
use vstd::prelude::*;

verus! {

/// What one draw offers, as mathematics: the columns `x0 <= x < x1` of the rows
/// `y0 <= y < y1`, and for each pixel the depth of the shape there (`None`
/// where the shape does not cover the pixel) and its colour.
pub struct Patch {
    pub x0: int,
    pub x1: int,
    pub y0: int,
    pub y1: int,
    pub depth: spec_fn(int, int) -> Option<u64>,
    pub color: spec_fn(int, int) -> u32,
}

impl Patch {
    /// Pixel (`x`, `y`) lies in the rectangle.
    pub open spec fn holds(self, x: int, y: int) -> bool {
        self.x0 <= x < self.x1 && self.y0 <= y < self.y1
    }

    /// A walk over the rectangle, row by row and each row from the left,
    /// comes to pixel (`px`, `py`) before it comes to (`x`, `y`).
    pub open spec fn before(self, px: int, py: int, x: int, y: int) -> bool {
        &&& self.x0 <= px
        &&& (self.y0 <= py < y && px < self.x1) || (py == y && px < x)
    }

    /// The same rectangle.
    pub open spec fn same_box(self, other: Patch) -> bool {
        &&& self.x0 == other.x0
        &&& self.x1 == other.x1
        &&& self.y0 == other.y0
        &&& self.y1 == other.y1
    }
}

impl Canvas {
    /// The canvas after pixel (`x`, `y`) was visited.
    pub open spec fn visit(self, patch: Patch, x: int, y: int) -> Canvas {
        match (patch.depth)(x, y) {
            Some(depth) => self.offer(self.place(x, y), depth, (patch.color)(x, y)),
            None => self,
        }
    }

    /// The canvas after the pixels of row `y` in the columns before `x` were
    /// visited, from left to right.
    pub open spec fn paint_row(self, patch: Patch, y: int, x: int) -> Canvas
        decreases x - patch.x0,
    {
        if x <= patch.x0 {
            self
        } else {
            self.paint_row(patch, y, x - 1).visit(patch, x - 1, y)
        }
    }

    /// The canvas after the rows before `y` were painted, from the top down.
    pub open spec fn paint_rows(self, patch: Patch, y: int) -> Canvas
        decreases y - patch.y0,
    {
        if y <= patch.y0 {
            self
        } else {
            self.paint_rows(patch, y - 1).paint_row(patch, y - 1, patch.x1)
        }
    }

    /// The canvas after the whole patch was painted.
    pub open spec fn paint(self, patch: Patch) -> Canvas {
        self.paint_rows(patch, patch.y1)
    }

    /// The canvas as the walk finds it when it comes to pixel (`x`, `y`).
    pub open spec fn reached(self, patch: Patch, x: int, y: int) -> Canvas {
        self.paint_rows(patch, y).paint_row(patch, y, x)
    }

    /// The walk stores the patch's fragment at pixel (`x`, `y`): the patch
    /// covers the pixel, the pixel has a place, and the fragment is strictly
    /// nearer than what the walk finds there.
    pub open spec fn shades(self, patch: Patch, x: int, y: int) -> bool {
        match (patch.depth)(x, y) {
            Some(depth) => self.reached(patch, x, y).takes(self.place(x, y), depth),
            None => false,
        }
    }

    /// The walks over `p` and over `q` do the same at pixel (`x`, `y`): if
    /// they find the same canvas there and the pixel has a place, the two
    /// patches offer the same depth, and the same colour where the fragment
    /// is stored.
    pub open spec fn agrees(self, p: Patch, q: Patch, x: int, y: int) -> bool {
        0 <= self.place(x, y) < self.color.len() && self.reached(p, x, y) == self.reached(q, x, y)
            ==> {
            &&& (p.depth)(x, y) == (q.depth)(x, y)
            &&& self.shades(p, x, y) ==> (p.color)(x, y) == (q.color)(x, y)
        }
    }
}

/// Painting changes neither the dimensions nor the lengths.
pub proof fn lemma_reached_shape(c: Canvas, patch: Patch, x: int, y: int)
    requires
        c.wf(),
    ensures
        c.reached(patch, x, y).wf(),
        c.reached(patch, x, y).width == c.width,
        c.reached(patch, x, y).height == c.height,
        c.reached(patch, x, y).depth.len() == c.depth.len(),
        c.reached(patch, x, y).color.len() == c.color.len(),
    decreases y - patch.y0, x - patch.x0,
{
    if x > patch.x0 {
        lemma_reached_shape(c, patch, x - 1, y);
    } else if y > patch.y0 {
        lemma_reached_shape(c, patch, patch.x1, y - 1);
    }
}

/// Two patches that agree on the pixels of a row before column `x`, painted
/// on canvases that are the same when the row begins, give the same canvas.
proof fn lemma_row_same(c: Canvas, p: Patch, q: Patch, x: int, y: int)
    requires
        c.wf(),
        p.same_box(q),
        c.paint_rows(p, y) == c.paint_rows(q, y),
        forall|px: int| p.x0 <= px < x ==> #[trigger] c.agrees(p, q, px, y),
    ensures
        c.reached(p, x, y) == c.reached(q, x, y),
    decreases x - p.x0,
{
    if x > p.x0 {
        lemma_row_same(c, p, q, x - 1, y);
        lemma_reached_shape(c, p, x - 1, y);
        assert(c.agrees(p, q, x - 1, y));
    }
}

/// Two patches that agree on the rows before `y` give the same canvas there.
pub proof fn lemma_rows_same(c: Canvas, p: Patch, q: Patch, y: int)
    requires
        c.wf(),
        p.same_box(q),
        forall|px: int, py: int|
            p.x0 <= px < p.x1 && p.y0 <= py < y ==> #[trigger] c.agrees(p, q, px, py),
    ensures
        c.paint_rows(p, y) == c.paint_rows(q, y),
    decreases y - p.y0,
{
    if y > p.y0 {
        lemma_rows_same(c, p, q, y - 1);
        lemma_row_same(c, p, q, p.x1, y - 1);
    }
}

/// Two patches that agree on every pixel that the walk comes to before
/// (`x`, `y`) give the same canvas there.
proof fn lemma_reached_same(c: Canvas, p: Patch, q: Patch, x: int, y: int)
    requires
        c.wf(),
        p.same_box(q),
        forall|px: int, py: int| p.before(px, py, x, y) ==> #[trigger] c.agrees(p, q, px, py),
    ensures
        c.reached(p, x, y) == c.reached(q, x, y),
{
    lemma_rows_same(c, p, q, y);
    lemma_row_same(c, p, q, x, y);
}

impl Patch {
    /// The patch with another fragment at pixel (`x`, `y`).
    spec fn with(self, x: int, y: int, depth: Option<u64>, color: u32) -> Patch {
        Patch {
            depth: |px: int, py: int|
                if px == x && py == y {
                    depth
                } else {
                    (self.depth)(px, py)
                },
            color: |px: int, py: int|
                if px == x && py == y {
                    color
                } else {
                    (self.color)(px, py)
                },
            ..self
        }
    }

    /// The patch is a record of a walk on canvas `c` that has come to pixel
    /// (`x`, `y`): for the pixels before it, it holds what the two functions
    /// returned; for the others it holds nothing yet.
    spec fn walked<D: Fn(u32, u32) -> Option<u64>, C: Fn(u32, u32) -> u32>(
        self,
        c: Canvas,
        depth_at: D,
        color_at: C,
        x: int,
        y: int,
    ) -> bool {
        &&& forall|px: int, py: int|
            !self.before(px, py, x, y) ==> (#[trigger] (self.depth)(px, py)).is_none()
        &&& forall|px: u32, py: u32|
            self.before(px as int, py as int, x, y) && c.place(px as int, py as int)
                < c.color.len() ==> #[trigger] depth_at.ensures(
                (px, py),
                (self.depth)(px as int, py as int),
            )
        &&& forall|px: u32, py: u32|
            self.before(px as int, py as int, x, y) && c.shades(self, px as int, py as int)
                ==> #[trigger] color_at.ensures((px, py), (self.color)(px as int, py as int))
    }

    /// The patch is a record of one draw on canvas `c`: it has the draw's
    /// rectangle, its depth at a pixel is what `depth_at` returned for it
    /// (it is asked for each pixel that has a place), and its colour there is
    /// what `color_at` returned (it is asked where the fragment is stored).
    pub open spec fn records<D: Fn(u32, u32) -> Option<u64>, C: Fn(u32, u32) -> u32>(
        self,
        c: Canvas,
        columns: Range<u32>,
        rows: Range<u32>,
        depth_at: D,
        color_at: C,
    ) -> bool {
        &&& self.x0 == columns.start
        &&& self.x1 == columns.end
        &&& self.y0 == rows.start
        &&& self.y1 == rows.end
        &&& forall|x: u32, y: u32|
            self.holds(x as int, y as int) && c.place(x as int, y as int) < c.color.len()
                ==> #[trigger] depth_at.ensures((x, y), (self.depth)(x as int, y as int))
        &&& forall|x: u32, y: u32|
            self.holds(x as int, y as int) && c.shades(self, x as int, y as int)
                ==> #[trigger] color_at.ensures((x, y), (self.color)(x as int, y as int))
    }
}

/// The record of a walk after the next pixel, (`x`, `y`), got its fragment.
proof fn lemma_walk_on<D: Fn(u32, u32) -> Option<u64>, C: Fn(u32, u32) -> u32>(
    c: Canvas,
    seen: Patch,
    next: Patch,
    depth_at: D,
    color_at: C,
    x: int,
    y: int,
)
    requires
        c.wf(),
        0 <= x <= u32::MAX,
        0 <= y <= u32::MAX,
        seen.x0 <= x < seen.x1,
        seen.y0 <= y,
        seen.walked(c, depth_at, color_at, x, y),
        0 <= c.place(x, y) < c.color.len(),
        next == seen.with(x, y, (next.depth)(x, y), (next.color)(x, y)),
        depth_at.ensures((x as u32, y as u32), (next.depth)(x, y)),
        c.reached(seen, x, y).visit(next, x, y) != c.reached(seen, x, y) ==> color_at.ensures(
            (x as u32, y as u32),
            (next.color)(x, y),
        ),
    ensures
        c.reached(next, x + 1, y) == c.reached(seen, x, y).visit(next, x, y),
        next.walked(c, depth_at, color_at, x + 1, y),
{
    assert forall|px: int, py: int| seen.before(px, py, x, y) implies #[trigger] c.agrees(
        seen,
        next,
        px,
        py,
    ) by {}
    lemma_reached_same(c, seen, next, x, y);
    assert forall|px: u32, py: u32|
        next.before(px as int, py as int, x + 1, y) && c.shades(
            next,
            px as int,
            py as int,
        ) implies #[trigger] color_at.ensures((px, py), (next.color)(px as int, py as int)) by {
        if px == x && py == y {
            lemma_reached_shape(c, seen, x, y);
        } else {
            assert forall|qx: int, qy: int|
                seen.before(qx, qy, px as int, py as int) implies #[trigger] c.agrees(
                seen,
                next,
                qx,
                qy,
            ) by {}
            lemma_reached_same(c, seen, next, px as int, py as int);
            assert(c.shades(seen, px as int, py as int));
        }
    }
}

impl PaintBuffer {
    /// Draws a shape with depth test. The pixels of the given columns and
    /// rows are visited row by row, each row from the left. A pixel whose
    /// place lies beyond the buffer is skipped. For the others `depth_at` says
    /// whether the shape covers the pixel, and how deep it is there; where
    /// that is strictly nearer than what the pixel holds, the depth is
    /// stored, and with it the colour that `color_at` gives. `color_at` is
    /// asked for no other pixel.
    pub fn paint_region<D: Fn(u32, u32) -> Option<u64>, C: Fn(u32, u32) -> u32>(
        &mut self,
        columns: Range<u32>,
        rows: Range<u32>,
        depth_at: D,
        color_at: C,
    )
        requires
            old(self).wf(),
            forall|x: u32, y: u32|
                columns.start <= x < columns.end && rows.start <= y < rows.end
                    ==> #[trigger] depth_at.requires((x, y)),
            forall|x: u32, y: u32, d: u64|
                columns.start <= x < columns.end && rows.start <= y < rows.end
                    && #[trigger] depth_at.ensures((x, y), Some(d)) ==> color_at.requires((x, y)),
        ensures
            final(self).wf(),
            exists|patch: Patch|
                patch.records(old(self)@, columns, rows, depth_at, color_at) && final(self)@
                    == #[trigger] old(self)@.paint(patch),
    {
        let ghost c0 = self@;
        let ghost mut patch = Patch {
            x0: columns.start as int,
            x1: columns.end as int,
            y0: rows.start as int,
            y1: rows.end as int,
            depth: |x: int, y: int| None::<u64>,
            color: |x: int, y: int| 0u32,
        };
        let mut y: u32 = rows.start;
        while y < rows.end
            invariant
                c0 == old(self)@,
                c0.wf(),
                forall|x: u32, y: u32|
                    columns.start <= x < columns.end && rows.start <= y < rows.end
                        ==> #[trigger] depth_at.requires((x, y)),
                forall|x: u32, y: u32, d: u64|
                    columns.start <= x < columns.end && rows.start <= y < rows.end
                        && #[trigger] depth_at.ensures((x, y), Some(d)) ==> color_at.requires(
                        (x, y),
                    ),
                patch.x0 == columns.start,
                patch.x1 == columns.end,
                patch.y0 == rows.start,
                patch.y1 == rows.end,
                rows.start <= y,
                y <= rows.end || y == rows.start,
                self@ == c0.reached(patch, patch.x0, y as int),
                patch.walked(c0, depth_at, color_at, patch.x0, y as int),
            decreases rows.end - y,
        {
            let mut x: u32 = columns.start;
            while x < columns.end
                invariant
                    c0 == old(self)@,
                    c0.wf(),
                    forall|x: u32, y: u32|
                        columns.start <= x < columns.end && rows.start <= y < rows.end
                            ==> #[trigger] depth_at.requires((x, y)),
                    forall|x: u32, y: u32, d: u64|
                        columns.start <= x < columns.end && rows.start <= y < rows.end
                            && #[trigger] depth_at.ensures((x, y), Some(d))
                            ==> color_at.requires((x, y)),
                    patch.x0 == columns.start,
                    patch.x1 == columns.end,
                    patch.y0 == rows.start,
                    patch.y1 == rows.end,
                    rows.start <= y < rows.end,
                    columns.start <= x,
                    x <= columns.end || x == columns.start,
                    self@ == c0.reached(patch, x as int, y as int),
                    patch.walked(c0, depth_at, color_at, x as int, y as int),
                decreases columns.end - x,
            {
                proof {
                    lemma_reached_shape(c0, patch, x as int, y as int);
                }
                match self.pixel_index(x, y) {
                    Some(index) => {
                        match depth_at(x, y) {
                            Some(depth) => {
                                let ghost seen = patch;
                                if is_nearer(depth, self.z_buffer[index]) {
                                    let color: u32 = color_at(x, y);
                                    self.z_buffer[index] = depth;
                                    self.pixel_buffer[index] = color;
                                    proof {
                                        patch = seen.with(x as int, y as int, Some(depth), color);
                                    }
                                } else {
                                    proof {
                                        patch = seen.with(x as int, y as int, Some(depth), 0);
                                    }
                                }
                                proof {
                                    lemma_walk_on(
                                        c0,
                                        seen,
                                        patch,
                                        depth_at,
                                        color_at,
                                        x as int,
                                        y as int,
                                    );
                                }
                            },
                            None => {},
                        }
                    },
                    None => {},
                }
                x += 1;
            }
            y += 1;
        }
        proof {
            lemma_reached_shape(c0, patch, patch.x0, y as int);
        }
        assert(self@ == c0.paint(patch));
        assert(patch.records(c0, columns, rows, depth_at, color_at));
    }
}

} // verus!

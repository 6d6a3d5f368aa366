//! What a painted canvas shows: each pixel holds the nearest fragment that was
//! offered to it, in whatever order the shapes were drawn.

use crate::buffer::Canvas;
use crate::depth::nearer;
use crate::raster::{lemma_rows_same, Patch};
use core::ops::Range;
use vstd::prelude::*;

verus! {

/// What a pixel holds, depth and colour, after a fragment was offered to it.
pub open spec fn merged(held: (u64, u32), depth: Option<u64>, color: u32) -> (u64, u32) {
    match depth {
        Some(d) => if nearer(d, held.0) {
            (d, color)
        } else {
            held
        },
        None => held,
    }
}

impl Canvas {
    /// Pixel (`x`, `y`) lies on the canvas.
    pub open spec fn has(self, x: int, y: int) -> bool {
        0 <= x < self.width && 0 <= y < self.height
    }

    /// Depth and colour of pixel (`x`, `y`).
    pub open spec fn at(self, x: int, y: int) -> (u64, u32) {
        (self.depth[self.place(x, y)], self.color[self.place(x, y)])
    }

    /// Same dimensions, and so the same places.
    pub open spec fn same_shape(self, other: Canvas) -> bool {
        &&& self.width == other.width
        &&& self.height == other.height
        &&& self.depth.len() == other.depth.len()
        &&& self.color.len() == other.color.len()
    }
}

impl Patch {
    /// No column of the rectangle lies left or right of a canvas of the given
    /// width, and no row above it: each of its pixels has a place of its own.
    pub open spec fn within(self, width: nat) -> bool {
        0 <= self.x0 && self.x1 <= width && 0 <= self.y0
    }
}

/// Two pixels of a canvas share a place only if they are the same pixel, and
/// a pixel on the canvas has a place in its buffers.
pub proof fn lemma_place(c: Canvas, x: int, y: int, x2: int, y2: int)
    requires
        c.wf(),
        0 <= x < c.width,
        0 <= x2 < c.width,
        0 <= y,
        0 <= y2,
    ensures
        c.place(x, y) == c.place(x2, y2) ==> x == x2 && y == y2,
        0 <= c.place(x, y),
        y < c.height <==> c.place(x, y) < c.color.len(),
{
    let w = c.width as int;
    let h = c.height as int;
    assert(0 <= y * w) by (nonlinear_arith)
        requires
            0 <= y,
            0 <= w,
    ;
    if y < h {
        assert(y * w + w <= h * w) by (nonlinear_arith)
            requires
                y + 1 <= h,
                0 <= w,
        ;
    } else {
        assert(h * w <= y * w) by (nonlinear_arith)
            requires
                h <= y,
                0 <= w,
        ;
    }
    if c.place(x, y) == c.place(x2, y2) {
        if y < y2 {
            assert(y * w + w <= y2 * w) by (nonlinear_arith)
                requires
                    y + 1 <= y2,
                    0 <= w,
            ;
        }
        if y2 < y {
            assert(y2 * w + w <= y * w) by (nonlinear_arith)
                requires
                    y2 + 1 <= y,
                    0 <= w,
            ;
        }
    }
}

/// Visiting one pixel changes that pixel alone.
proof fn lemma_visit(c: Canvas, patch: Patch, x: int, y: int)
    requires
        c.wf(),
        0 <= x < c.width,
        0 <= y,
    ensures
        c.visit(patch, x, y).wf(),
        c.visit(patch, x, y).same_shape(c),
        forall|px: int, py: int| #[trigger]
            c.has(px, py) ==> c.visit(patch, x, y).at(px, py) == (if px == x && py == y {
                merged(c.at(px, py), (patch.depth)(x, y), (patch.color)(x, y))
            } else {
                c.at(px, py)
            }),
{
    let after = c.visit(patch, x, y);
    assert forall|px: int, py: int| #[trigger] c.has(px, py) implies after.at(px, py) == (if px
        == x && py == y {
        merged(c.at(px, py), (patch.depth)(x, y), (patch.color)(x, y))
    } else {
        c.at(px, py)
    }) by {
        lemma_place(c, x, y, px, py);
        lemma_place(c, px, py, x, y);
    }
}

/// Painting a row up to column `x` offers to each pixel of the row before
/// that column the fragment of that pixel, and leaves the others alone.
proof fn lemma_paint_row(c: Canvas, patch: Patch, y: int, x: int)
    requires
        c.wf(),
        patch.within(c.width),
        0 <= y,
        x <= patch.x1,
    ensures
        c.paint_row(patch, y, x).wf(),
        c.paint_row(patch, y, x).same_shape(c),
        forall|px: int, py: int| #[trigger]
            c.has(px, py) ==> c.paint_row(patch, y, x).at(px, py) == (if py == y && patch.x0
                <= px < x {
                merged(c.at(px, py), (patch.depth)(px, py), (patch.color)(px, py))
            } else {
                c.at(px, py)
            }),
    decreases x - patch.x0,
{
    if x > patch.x0 {
        let before = c.paint_row(patch, y, x - 1);
        lemma_paint_row(c, patch, y, x - 1);
        lemma_visit(before, patch, x - 1, y);
        assert forall|px: int, py: int| #[trigger] c.has(px, py) implies c.paint_row(
            patch,
            y,
            x,
        ).at(px, py) == (if py == y && patch.x0 <= px < x {
            merged(c.at(px, py), (patch.depth)(px, py), (patch.color)(px, py))
        } else {
            c.at(px, py)
        }) by {
            assert(before.has(px, py));
        }
    }
}

/// Painting the rows before `y` offers to each pixel of those rows that lies
/// in the patch's columns the fragment of that pixel, and leaves the others
/// alone.
proof fn lemma_paint_rows(c: Canvas, patch: Patch, y: int)
    requires
        c.wf(),
        patch.within(c.width),
    ensures
        c.paint_rows(patch, y).wf(),
        c.paint_rows(patch, y).same_shape(c),
        forall|px: int, py: int| #[trigger]
            c.has(px, py) ==> c.paint_rows(patch, y).at(px, py) == (if patch.x0 <= px < patch.x1
                && patch.y0 <= py < y {
                merged(c.at(px, py), (patch.depth)(px, py), (patch.color)(px, py))
            } else {
                c.at(px, py)
            }),
    decreases y - patch.y0,
{
    if y > patch.y0 {
        let before = c.paint_rows(patch, y - 1);
        lemma_paint_rows(c, patch, y - 1);
        lemma_paint_row(before, patch, y - 1, patch.x1);
        assert forall|px: int, py: int| #[trigger] c.has(px, py) implies c.paint_rows(
            patch,
            y,
        ).at(px, py) == (if patch.x0 <= px < patch.x1 && patch.y0 <= py < y {
            merged(c.at(px, py), (patch.depth)(px, py), (patch.color)(px, py))
        } else {
            c.at(px, py)
        }) by {
            assert(before.has(px, py));
        }
    }
}

/// What a canvas shows after a patch was painted: a pixel in the patch holds
/// its own fragment if that is strictly nearer than what the pixel held, and
/// every other pixel holds what it held.
pub proof fn lemma_paint(c: Canvas, patch: Patch)
    requires
        c.wf(),
        patch.within(c.width),
    ensures
        c.paint(patch).wf(),
        c.paint(patch).same_shape(c),
        forall|x: int, y: int| #[trigger]
            c.has(x, y) ==> c.paint(patch).at(x, y) == (if patch.holds(x, y) {
                merged(c.at(x, y), (patch.depth)(x, y), (patch.color)(x, y))
            } else {
                c.at(x, y)
            }),
{
    lemma_paint_rows(c, patch, patch.y1);
}

/// Two canvases of one shape that agree on every pixel are the same canvas.
pub proof fn lemma_same_pixels(a: Canvas, b: Canvas)
    requires
        a.wf(),
        b.wf(),
        a.same_shape(b),
        forall|x: int, y: int| #[trigger] a.has(x, y) ==> a.at(x, y) == b.at(x, y),
    ensures
        a == b,
{
    let w = a.width as int;
    assert forall|i: int| 0 <= i < a.depth.len() implies a.depth[i] == b.depth[i] && a.color[i]
        == b.color[i] by {
        if w == 0 {
            assert(a.width * a.height == 0) by (nonlinear_arith)
                requires
                    a.width == 0,
            ;
        } else {
            let x = i % w;
            let y = i / w;
            assert(i == w * y + x && 0 <= x < w) by {
                vstd::arithmetic::div_mod::lemma_fundamental_div_mod(i, w);
                vstd::arithmetic::div_mod::lemma_mod_bound(i, w);
            }
            assert(0 <= y) by {
                vstd::arithmetic::div_mod::lemma_div_pos_is_pos(i, w);
            }
            assert(x + y * w == i) by (nonlinear_arith)
                requires
                    i == w * y + x,
            ;
            lemma_place(a, x, y, x, y);
            assert(a.has(x, y));
            assert(a.at(x, y) == b.at(x, y));
        }
    }
    assert(a.depth =~= b.depth);
    assert(a.color =~= b.color);
}

impl Patch {
    /// Wherever both patches cover a pixel of the canvas, one of the two
    /// fragments is strictly nearer than the other.
    pub open spec fn differs_in_depth(self, other: Patch, c: Canvas) -> bool {
        forall|x: int, y: int| #[trigger]
            c.has(x, y) && self.holds(x, y) && other.holds(x, y) && (self.depth)(x, y).is_some()
                && (other.depth)(x, y).is_some() ==> nearer(
                (self.depth)(x, y).unwrap(),
                (other.depth)(x, y).unwrap(),
            ) || nearer((other.depth)(x, y).unwrap(), (self.depth)(x, y).unwrap())
    }

    /// The patch covers no pixel of its rectangle.
    pub open spec fn covers_nothing(self) -> bool {
        forall|x: int, y: int| #[trigger] self.holds(x, y) ==> (self.depth)(x, y).is_none()
    }
}

/// Two shapes can be drawn in either order: where their depths differ at
/// every pixel that both cover, the canvas ends up the same.
pub proof fn lemma_draw_order(c: Canvas, p: Patch, q: Patch)
    requires
        c.wf(),
        p.within(c.width),
        q.within(c.width),
        p.differs_in_depth(q, c),
    ensures
        c.paint(p).paint(q) == c.paint(q).paint(p),
{
    lemma_paint(c, p);
    lemma_paint(c, q);
    lemma_paint(c.paint(p), q);
    lemma_paint(c.paint(q), p);
    let pq = c.paint(p).paint(q);
    let qp = c.paint(q).paint(p);
    assert forall|x: int, y: int| #[trigger] pq.has(x, y) implies pq.at(x, y) == qp.at(x, y) by {
        assert(c.has(x, y));
        assert(c.paint(p).has(x, y));
        assert(c.paint(q).has(x, y));
    }
    lemma_same_pixels(pq, qp);
}

/// Of two shapes that cover a pixel at different depths, the farther leaves
/// no trace there, whichever was drawn first: the pixel ends up as if the
/// nearer alone had been offered to it.
pub proof fn lemma_nearer_shows(c: Canvas, p: Patch, q: Patch, x: int, y: int)
    requires
        c.wf(),
        p.within(c.width),
        q.within(c.width),
        c.has(x, y),
        p.holds(x, y),
        q.holds(x, y),
        (p.depth)(x, y).is_some(),
        (q.depth)(x, y).is_some(),
        nearer((p.depth)(x, y).unwrap(), (q.depth)(x, y).unwrap()),
    ensures
        c.paint(p).paint(q).at(x, y) == merged(c.at(x, y), (p.depth)(x, y), (p.color)(x, y)),
        c.paint(q).paint(p).at(x, y) == merged(c.at(x, y), (p.depth)(x, y), (p.color)(x, y)),
{
    lemma_paint(c, p);
    lemma_paint(c, q);
    lemma_paint(c.paint(p), q);
    lemma_paint(c.paint(q), p);
    assert(c.paint(p).has(x, y));
    assert(c.paint(q).has(x, y));
}

/// Drawing the same shape a second time changes nothing.
pub proof fn lemma_paint_again(c: Canvas, p: Patch)
    requires
        c.wf(),
        p.within(c.width),
    ensures
        c.paint(p).paint(p) == c.paint(p),
{
    lemma_paint(c, p);
    lemma_paint(c.paint(p), p);
    let once = c.paint(p);
    let twice = once.paint(p);
    assert forall|x: int, y: int| #[trigger] twice.has(x, y) implies twice.at(x, y) == once.at(
        x,
        y,
    ) by {
        assert(c.has(x, y));
        assert(once.has(x, y));
    }
    lemma_same_pixels(twice, once);
}

/// The walk stores the fragment of a pixel exactly where the patch covers
/// the pixel strictly nearer than what the canvas held there before the draw.
pub proof fn lemma_shades(c: Canvas, p: Patch, x: int, y: int)
    requires
        c.wf(),
        p.within(c.width),
        c.has(x, y),
        p.holds(x, y),
    ensures
        c.shades(p, x, y) == ((p.depth)(x, y).is_some() && nearer(
            (p.depth)(x, y).unwrap(),
            c.at(x, y).0,
        )),
{
    let top = c.paint_rows(p, y);
    lemma_paint_rows(c, p, y);
    lemma_paint_row(top, p, y, x);
    lemma_place(c, x, y, x, y);
    assert(top.has(x, y));
    assert(c.reached(p, x, y).at(x, y) == c.at(x, y));
}

/// A draw that covers no pixel changes nothing.
pub proof fn lemma_uncovered(c: Canvas, p: Patch)
    requires
        p.covers_nothing(),
    ensures
        c.paint(p) == c,
{
    lemma_uncovered_rows(c, p, p.y1);
}

proof fn lemma_uncovered_rows(c: Canvas, p: Patch, y: int)
    requires
        p.covers_nothing(),
        y <= p.y1,
    ensures
        c.paint_rows(p, y) == c,
    decreases y - p.y0,
{
    if y > p.y0 {
        lemma_uncovered_rows(c, p, y - 1);
        lemma_uncovered_row(c, p, p.x1, y - 1);
    }
}

proof fn lemma_uncovered_row(c: Canvas, p: Patch, x: int, y: int)
    requires
        p.covers_nothing(),
        p.y0 <= y < p.y1,
        x <= p.x1,
    ensures
        c.paint_row(p, y, x) == c,
    decreases x - p.x0,
{
    if x > p.x0 {
        lemma_uncovered_row(c, p, x - 1, y);
        assert(p.holds(x - 1, y));
    }
}

/// Whatever the function may return for a pixel is one and the same value.
pub open spec fn single_valued<R, F: Fn(u32, u32) -> R>(f: F) -> bool {
    forall|x: u32, y: u32, r1: R, r2: R|
        #[trigger] f.ensures((x, y), r1) && #[trigger] f.ensures((x, y), r2) ==> r1 == r2
}

/// Whatever the function returns for a pixel is the value of `g` there.
pub open spec fn computes<R, F: Fn(u32, u32) -> R>(f: F, g: spec_fn(int, int) -> R) -> bool {
    forall|x: u32, y: u32, r: R| #[trigger] f.ensures((x, y), r) ==> r == g(x as int, y as int)
}

/// Where the two functions of a draw compute the depth and the colour of a
/// patch, the draw paints that patch.
pub proof fn lemma_record_paints<D: Fn(u32, u32) -> Option<u64>, C: Fn(u32, u32) -> u32>(
    c: Canvas,
    record: Patch,
    scene: Patch,
    columns: Range<u32>,
    rows: Range<u32>,
    depth_at: D,
    color_at: C,
)
    requires
        c.wf(),
        record.records(c, columns, rows, depth_at, color_at),
        scene.same_box(record),
        computes(depth_at, scene.depth),
        computes(color_at, scene.color),
    ensures
        c.paint(record) == c.paint(scene),
{
    assert forall|px: int, py: int|
        record.x0 <= px < record.x1 && record.y0 <= py < record.y1 implies #[trigger] c.agrees(
        record,
        scene,
        px,
        py,
    ) by {
        let x = px as u32;
        let y = py as u32;
        assert(record.holds(x as int, y as int));
        if 0 <= c.place(px, py) < c.color.len() {
            assert(depth_at.ensures((x, y), (record.depth)(x as int, y as int)));
            if c.shades(record, px, py) {
                assert(color_at.ensures((x, y), (record.color)(x as int, y as int)));
            }
        }
    }
    lemma_rows_same(c, record, scene, record.y1);
}

/// The same scene gives the same picture: two draws over the same columns
/// and rows, with the same two functions, on canvases that hold the same,
/// leave canvases that hold the same, provided each function returns one
/// value for each pixel.
pub proof fn lemma_same_scene<D: Fn(u32, u32) -> Option<u64>, C: Fn(u32, u32) -> u32>(
    c: Canvas,
    first: Patch,
    second: Patch,
    columns: Range<u32>,
    rows: Range<u32>,
    depth_at: D,
    color_at: C,
)
    requires
        c.wf(),
        first.records(c, columns, rows, depth_at, color_at),
        second.records(c, columns, rows, depth_at, color_at),
        single_valued(depth_at),
        single_valued(color_at),
    ensures
        c.paint(first) == c.paint(second),
{
    assert forall|px: int, py: int|
        first.x0 <= px < first.x1 && first.y0 <= py < first.y1 implies #[trigger] c.agrees(
        first,
        second,
        px,
        py,
    ) by {
        let x = px as u32;
        let y = py as u32;
        assert(first.holds(x as int, y as int));
        assert(second.holds(x as int, y as int));
        if 0 <= c.place(px, py) < c.color.len() && c.reached(first, px, py) == c.reached(
            second,
            px,
            py,
        ) {
            assert(depth_at.ensures((x, y), (first.depth)(x as int, y as int)));
            assert(depth_at.ensures((x, y), (second.depth)(x as int, y as int)));
            if c.shades(first, px, py) {
                assert(c.shades(second, px, py));
                assert(color_at.ensures((x, y), (first.color)(x as int, y as int)));
                assert(color_at.ensures((x, y), (second.color)(x as int, y as int)));
            }
        }
    }
    lemma_rows_same(c, first, second, first.y1);
}

} // verus!

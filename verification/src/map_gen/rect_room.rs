use vstd::prelude::*;

use crate::grid::{cell_offset, lemma_cell_offset, lemma_cell_offset_injective, Grid};
use crate::math::{abs, abs_i32, fits_i32, trunc_div, Vec2};

verus! {

/// Coordinates small enough for every room computation to stay within `i32`.
pub open spec fn small(v: Vec2) -> bool {
    -0x1000_0000 <= v.x <= 0x1000_0000 && -0x1000_0000 <= v.y <= 0x1000_0000
}

/// An axis-aligned room; both corners are part of it.
#[derive(Clone, Copy, Debug, PartialEq, Eq, Structural)]
pub struct RectRoom {
    pub min: Vec2,
    pub max: Vec2,
}

impl RectRoom {
    pub open spec fn spec_center(self) -> Vec2 {
        Vec2 {
            x: trunc_div(self.max.x + self.min.x, 2) as i32,
            y: trunc_div(self.max.y + self.min.y, 2) as i32,
        }
    }

    /// Both corners have small coordinates.
    pub open spec fn is_small(self) -> bool {
        small(self.min) && small(self.max)
    }

    /// The cell `(x, y)` is part of the room.
    pub open spec fn covers(self, x: int, y: int) -> bool {
        self.min.x <= x <= self.max.x && self.min.y <= y <= self.max.y
    }

    pub fn new(x1: i32, y1: i32, width: i32, height: i32) -> (r: RectRoom)
        requires
            crate::math::fits_i32(x1 + width),
            crate::math::fits_i32(y1 + height),
        ensures
            r.min.x == x1 && r.min.y == y1,
            r.max.x == x1 + width && r.max.y == y1 + height,
    {
        RectRoom { min: Vec2::new(x1, y1), max: Vec2::new(x1 + width, y1 + height) }
    }

    /// The sums of the corners' coordinates fit an `i32`.
    pub open spec fn center_fits(self) -> bool {
        fits_i32(self.max.x + self.min.x) && fits_i32(self.max.y + self.min.y)
    }

    /// Every value `touches` computes for the two rooms fits an `i32`.
    pub open spec fn touches_fits(self, other: RectRoom) -> bool {
        let dx = other.spec_center().x - self.spec_center().x;
        let dy = other.spec_center().y - self.spec_center().y;
        let w = (self.max.x - self.min.x) + (other.max.x - other.min.x);
        let h = (self.max.y - self.min.y) + (other.max.y - other.min.y);
        &&& self.center_fits()
        &&& other.center_fits()
        &&& fits_i32(dx) && dx != i32::MIN
        &&& fits_i32(dy) && dy != i32::MIN
        &&& fits_i32(self.max.x - self.min.x) && fits_i32(other.max.x - other.min.x)
        &&& fits_i32(self.max.y - self.min.y) && fits_i32(other.max.y - other.min.y)
        &&& fits_i32(w) && fits_i32(w + 3)
        &&& fits_i32(h) && fits_i32(h + 3)
    }

    /// Every value `intersects_segment` computes for the room and the segment `p`-`q` fits an
    /// `i32`.
    pub open spec fn segment_fits(self, p: Vec2, q: Vec2) -> bool {
        let c = self.spec_center();
        let ex = self.max.x - c.x;
        let ey = self.max.y - c.y;
        let mx = trunc_div(p.x + q.x, 2);
        let my = trunc_div(p.y + q.y, 2);
        let dx = p.x - mx;
        let dy = p.y - my;
        &&& self.center_fits()
        &&& fits_i32(ex) && fits_i32(ey)
        &&& fits_i32(p.x + q.x) && fits_i32(p.y + q.y)
        &&& fits_i32(dx) && dx != i32::MIN && fits_i32(dy) && dy != i32::MIN
        &&& fits_i32(mx - c.x) && mx - c.x != i32::MIN && fits_i32(my - c.y) && my - c.y != i32::MIN
        &&& fits_i32(ex + abs(dx)) && fits_i32(ey + abs(dy))
    }

    /// Rooms with small corners, and segments with small ends, keep every value in range.
    pub proof fn lemma_small_fits(self, other: RectRoom, p: Vec2, q: Vec2)
        requires
            self.is_small(),
            other.is_small(),
        ensures
            self.center_fits(),
            self.touches_fits(other),
            small(p) && small(q) ==> self.segment_fits(p, q),
            small(self.spec_center()),
    {
    }

    /// The middle cell, rounding toward zero.
    pub fn center(&self) -> (r: Vec2)
        requires
            self.center_fits(),
        ensures
            r == self.spec_center(),
            self.is_small() ==> small(r),
    {
        Vec2::new(self.max.x + self.min.x, self.max.y + self.min.y).div(2)
    }

    /// Cells of the room before `(x, y)` in row-major order.
    pub open spec fn carved_before(self, xx: int, yy: int, x: int, y: int) -> bool {
        (self.min.x <= xx <= self.max.x && self.min.y <= yy < y) || (self.min.x <= xx < x && yy
            == y && self.min.y <= y)
    }

    /// carve out this room
    pub fn carve<T: Copy + Default>(&self, grid: &mut Grid<T>)
        requires
            old(grid).wf(),
            old(grid).in_bounds(self.min.x as int, self.min.y as int),
            old(grid).in_bounds(self.max.x as int, self.max.y as int),
        ensures
            final(grid).wf(),
            final(grid).spec_dims() == old(grid).spec_dims(),
            forall|x: int, y: int|
                old(grid).in_bounds(x, y) ==> {
                    &&& self.covers(x, y) ==> call_ensures(T::default, (), #[trigger] final(grid).cell(x, y))
                    &&& !self.covers(x, y) ==> final(grid).cell(x, y) == old(grid).cell(x, y)
                },
    {
        proof {
            old(grid).lemma_len();
        }
        let w = grid.width();
        let h = grid.height();
        let ghost g0 = *old(grid);
        let mut y = self.min.y;
        while y <= self.max.y
            invariant
                grid.wf(),
                g0.wf(),
                grid.spec_dims() == g0.spec_dims(),
                w == g0.spec_width(),
                h == g0.spec_height(),
                0 <= self.min.x < w,
                0 <= self.max.x < w,
                0 <= self.min.y < h,
                0 <= self.max.y < h,
                self.min.y <= y,
                y <= self.max.y + 1 || y == self.min.y,
                forall|xx: int, yy: int|
                    g0.in_bounds(xx, yy) ==> {
                        &&& self.carved_before(xx, yy, self.min.x as int, y as int) ==> call_ensures(
                            T::default,
                            (),
                            #[trigger] grid.cell(xx, yy),
                        )
                        &&& !self.carved_before(xx, yy, self.min.x as int, y as int) ==> grid.cell(
                            xx,
                            yy,
                        ) == g0.cell(xx, yy)
                    },
            decreases self.max.y + 1 - y,
        {
            let mut x = self.min.x;
            while x <= self.max.x
                invariant
                    grid.wf(),
                    g0.wf(),
                    grid.spec_dims() == g0.spec_dims(),
                    w == g0.spec_width(),
                    h == g0.spec_height(),
                    0 <= self.min.x < w,
                    0 <= self.max.x < w,
                    0 <= self.min.y <= y <= self.max.y,
                    self.max.y < h,
                    self.min.x <= x,
                    x <= self.max.x + 1 || x == self.min.x,
                    forall|xx: int, yy: int|
                        g0.in_bounds(xx, yy) ==> {
                            &&& self.carved_before(xx, yy, x as int, y as int) ==> call_ensures(
                                T::default,
                                (),
                                #[trigger] grid.cell(xx, yy),
                            )
                            &&& !self.carved_before(xx, yy, x as int, y as int) ==> grid.cell(
                                xx,
                                yy,
                            ) == g0.cell(xx, yy)
                        },
                decreases self.max.x + 1 - x,
            {
                let v = T::default();
                let ghost before = *grid;
                grid.set(Vec2::new(x, y), v);
                proof {
                    before.lemma_len();
                    grid.lemma_len();
                    assert forall|xx: int, yy: int| g0.in_bounds(xx, yy) implies {
                        &&& self.carved_before(xx, yy, x + 1, y as int) ==> call_ensures(
                            T::default,
                            (),
                            #[trigger] grid.cell(xx, yy),
                        )
                        &&& !self.carved_before(xx, yy, x + 1, y as int) ==> grid.cell(xx, yy)
                            == g0.cell(xx, yy)
                    } by {
                        lemma_cell_offset(w as int, h as int, xx, yy);
                        lemma_cell_offset(w as int, h as int, x as int, y as int);
                        if xx == x && yy == y {
                            assert(grid.cell(xx, yy) == v);
                        } else {
                            if cell_offset(w as int, xx, yy) == cell_offset(w as int, x as int, y as int) {
                                lemma_cell_offset_injective(w as int, xx, yy, x as int, y as int);
                            }
                            assert(grid.cell(xx, yy) == before.cell(xx, yy));
                        }
                    }
                }
                x = x + 1;
            }
            proof {
                assert forall|xx: int, yy: int|
                    self.carved_before(xx, yy, x as int, y as int) == self.carved_before(
                        xx,
                        yy,
                        self.min.x as int,
                        y + 1,
                    ) by {}
            }
            y = y + 1;
        }
        proof {
            assert forall|xx: int, yy: int| g0.in_bounds(xx, yy) implies self.covers(xx, yy)
                == self.carved_before(xx, yy, self.min.x as int, y as int) by {}
        }
    }

    /// The two rooms share a cell.
    pub fn intersects(&self, other: &Self) -> (r: bool)
        ensures
            r == (self.min.x <= other.max.x && self.max.x >= other.min.x && self.min.y
                <= other.max.y && self.max.y >= other.min.y),
    {
        self.min.x <= other.max.x && self.max.x >= other.min.x && self.min.y <= other.max.y
            && self.max.y >= other.min.y
    }

    /// The segment `p`-`q` meets the room, by comparing its half extents with the room's
    /// around their midpoints.
    pub open spec fn spec_intersects_segment(self, p: Vec2, q: Vec2) -> bool {
        let c = self.spec_center();
        let ex = self.max.x - c.x;
        let ey = self.max.y - c.y;
        let mx = trunc_div(p.x + q.x, 2);
        let my = trunc_div(p.y + q.y, 2);
        let dx = p.x - mx;
        let dy = p.y - my;
        abs(mx - c.x) <= ex + abs(dx) && abs(my - c.y) <= ey + abs(dy)
    }

    pub fn intersects_segment(&self, p: Vec2, q: Vec2) -> (r: bool)
        requires
            self.segment_fits(p, q),
        ensures
            r == self.spec_intersects_segment(p, q),
    {
        let c = self.center();
        let e = self.max.sub(c);  // halfwidth extents
        let m = p.add(q).div(2);
        let d = p.sub(m);
        let m = m.sub(c);  // translate to origin
        let abx = abs_i32(d.x);
        if abs_i32(m.x) > e.x + abx {
            return false;
        }
        let aby = abs_i32(d.y);
        abs_i32(m.y) <= e.y + aby
    }

    /// The rooms' centers are closer than their combined extents plus a margin of two cells.
    pub open spec fn spec_touches(self, other: RectRoom) -> bool {
        let dx = other.spec_center().x - self.spec_center().x;
        let dy = other.spec_center().y - self.spec_center().y;
        let w = (self.max.x - self.min.x) + (other.max.x - other.min.x);
        let h = (self.max.y - self.min.y) + (other.max.y - other.min.y);
        abs(dx) < w + 3 && abs(dy) < h + 3
    }

    pub fn touches(&self, other: &Self) -> (r: bool)
        requires
            self.touches_fits(*other),
        ensures
            r == self.spec_touches(*other),
    {
        let d = other.center().sub(self.center());
        let w = (self.max.x - self.min.x) + (other.max.x - other.min.x);
        let h = (self.max.y - self.min.y) + (other.max.y - other.min.y);
        abs_i32(d.x) < w + 3 && abs_i32(d.y) < h + 3
    }
}

} // verus!

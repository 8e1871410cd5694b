use vstd::prelude::*;

use crate::math::{abs, sign, Vec2};

verus! {

/// The cell the iterator moves to from `current`: towards the end when the corner lies
/// opposite the end along some axis (the current cell is on the leg from the corner to the
/// end), towards the corner otherwise.
pub open spec fn next_cell(current: Vec2, end: Vec2, corner: Vec2) -> Vec2 {
    let dcx = sign(corner.x - current.x);
    let dcy = sign(corner.y - current.y);
    let dex = sign(end.x - current.x);
    let dey = sign(end.y - current.y);
    if dcx == -dex || dcy == -dey {
        Vec2 { x: (current.x + dex) as i32, y: (current.y + dey) as i32 }
    } else {
        Vec2 { x: (current.x + dcx) as i32, y: (current.y + dcy) as i32 }
    }
}

/// The iterator after `k` calls of `next`.
pub open spec fn tunnel_run(t: TunnelIter, k: nat) -> TunnelIter
    decreases k,
{
    if k == 0 {
        t
    } else {
        let u = tunnel_run(t, (k - 1) as nat);
        if u.current == u.end {
            u
        } else {
            TunnelIter { current: next_cell(u.current, u.end, u.corner), ..u }
        }
    }
}

/// Cell `k` of the L from `start` through `corner` to `end` (cell 0 is `start`): first along
/// the straight leg to the corner, then along the straight leg to the end.
pub open spec fn l_cell(start: Vec2, corner: Vec2, end: Vec2, k: int) -> Vec2 {
    let m = start.manhattan_spec(corner);
    if k <= m {
        Vec2 {
            x: (start.x + k * sign(corner.x - start.x)) as i32,
            y: (start.y + k * sign(corner.y - start.y)) as i32,
        }
    } else {
        Vec2 {
            x: (corner.x + (k - m) * sign(end.x - corner.x)) as i32,
            y: (corner.y + (k - m) * sign(end.y - corner.y)) as i32,
        }
    }
}

/// `corner` is one of the two corners of the box spanned by `start` and `end`.
pub open spec fn l_corner(start: Vec2, end: Vec2, corner: Vec2) -> bool {
    corner == (Vec2 { x: end.x, y: start.y }) || corner == (Vec2 { x: start.x, y: end.y })
}

/// `a - b` and its negation fit an `i32`.
pub open spec fn gap_fits(a: int, b: int) -> bool {
    -i32::MAX <= a - b <= i32::MAX
}

/// Every difference of coordinates among `start`, `end` and `corner` fits an `i32`.
pub open spec fn l_fits(start: Vec2, end: Vec2, corner: Vec2) -> bool {
    &&& gap_fits(corner.x as int, start.x as int) && gap_fits(corner.y as int, start.y as int)
    &&& gap_fits(end.x as int, start.x as int) && gap_fits(end.y as int, start.y as int)
    &&& gap_fits(end.x as int, corner.x as int) && gap_fits(end.y as int, corner.y as int)
}

/// `v` lies between `a` and `b` (inclusive), in either order.
pub open spec fn between(v: int, a: int, b: int) -> bool {
    (a <= v <= b) || (b <= v <= a)
}

/// Produces an L shaped tunnel between start and end, bending at corner
pub struct TunnelIter {
    pub current: Vec2,
    pub end: Vec2,
    pub corner: Vec2,
}

impl TunnelIter {
    /// The corner shares a row or column with the end, and the current position shares one with
    /// the corner; the differences of their coordinates fit an `i32`.
    pub open spec fn wf(self) -> bool {
        &&& self.corner.x == self.end.x || self.corner.y == self.end.y
        &&& self.current.x == self.corner.x || self.current.y == self.corner.y
        &&& l_fits(self.current, self.end, self.corner)
    }

    /// The current position lies on the leg from the corner to the end.
    pub open spec fn on_last_leg(self) -> bool {
        &&& between(self.current.x as int, self.corner.x as int, self.end.x as int)
        &&& between(self.current.y as int, self.corner.y as int, self.end.y as int)
    }

    /// Steps left until the end: along the last leg, or to the corner and then along it.
    pub open spec fn remaining(self) -> int {
        if self.on_last_leg() {
            self.current.manhattan_spec(self.end)
        } else {
            self.current.manhattan_spec(self.corner) + self.corner.manhattan_spec(self.end)
        }
    }

    /// A tunnel has nothing left to dig exactly when it has reached its end; with
    /// [`TunnelIter::next`] shrinking what is left at every step, every tunnel ends.
    pub proof fn lemma_done_at_end(self)
        requires
            self.wf(),
        ensures
            self.remaining() >= 0,
            self.remaining() == 0 <==> self.current == self.end,
    {
    }

    /// A whole tunnel: starting at `start` with its corner on the box of `start` and `end`,
    /// the first `n` calls of `next` (`n` the Manhattan distance of `start` and `end`) yield
    /// the cells of the L through the corner after `start`, one step apart and each farther
    /// from `start` than the one before (so none twice), the last being `end`; every later
    /// call yields `None`.
    pub proof fn lemma_tunnel_run(start: Vec2, end: Vec2, corner: Vec2)
        requires
            l_corner(start, end, corner),
            l_fits(start, end, corner),
        ensures
            ({
                let t = TunnelIter { current: start, end, corner };
                let n = start.manhattan_spec(end);
                &&& forall|k: nat| k <= n ==> #[trigger] tunnel_run(t, k).current == l_cell(start, corner, end, k as int)
                &&& forall|k: nat| k <= n ==> start.manhattan_spec(#[trigger] l_cell(start, corner, end, k as int)) == k
                &&& forall|k: nat| k < n ==> (#[trigger] tunnel_run(t, k)).current != end
                &&& forall|k: nat| 1 <= k <= n ==> (#[trigger] l_cell(start, corner, end, k as int)).manhattan_spec(
                    l_cell(start, corner, end, k - 1),
                ) == 1
                &&& l_cell(start, corner, end, n) == end
                &&& forall|k: nat| k >= n ==> #[trigger] tunnel_run(t, k) == tunnel_run(t, n as nat)
            }),
    {
        let t = TunnelIter { current: start, end, corner };
        let n = start.manhattan_spec(end);
        assert forall|k: nat| k <= n implies #[trigger] tunnel_run(t, k).current == l_cell(start, corner, end, k as int)
            && tunnel_run(t, k).end == end && tunnel_run(t, k).corner == corner by {
            Self::lemma_run_step(start, end, corner, k);
        }
        assert forall|k: nat| k >= n implies #[trigger] tunnel_run(t, k) == tunnel_run(t, n as nat) by {
            Self::lemma_run_rest(start, end, corner, k);
        }
        assert(l_cell(start, corner, end, 0) == start) by {
            assert(0 * sign(corner.x - start.x) == 0 && 0 * sign(corner.y - start.y) == 0);
        }
        assert forall|k: nat| k <= n implies start.manhattan_spec(#[trigger] l_cell(start, corner, end, k as int)) == k by {
            if k >= 1 {
                Self::lemma_l_next(start, end, corner, k as int);
            }
        }
        assert forall|k: nat| k < n implies (#[trigger] tunnel_run(t, k)).current != end by {
            Self::lemma_run_step(start, end, corner, k);
            Self::lemma_l_next(start, end, corner, (k + 1) as int);
        }
        assert forall|k: nat| 1 <= k <= n implies (#[trigger] l_cell(start, corner, end, k as int)).manhattan_spec(
            l_cell(start, corner, end, k - 1),
        ) == 1 by {
            Self::lemma_l_next(start, end, corner, k as int);
        }
        if n >= 1 {
            Self::lemma_l_next(start, end, corner, n);
        } else {
            assert(start == end);
        }
    }

    /// The run follows the L, one cell per call, until the end.
    pub proof fn lemma_run_step(start: Vec2, end: Vec2, corner: Vec2, k: nat)
        requires
            l_corner(start, end, corner),
            l_fits(start, end, corner),
            k <= start.manhattan_spec(end),
        ensures
            tunnel_run(TunnelIter { current: start, end, corner }, k).current == l_cell(start, corner, end, k as int),
            tunnel_run(TunnelIter { current: start, end, corner }, k).end == end,
            tunnel_run(TunnelIter { current: start, end, corner }, k).corner == corner,
        decreases k,
    {
        if k > 0 {
            Self::lemma_run_step(start, end, corner, (k - 1) as nat);
            Self::lemma_l_next(start, end, corner, k as int);
        }
    }

    /// Cell `k` of the L lies `k` steps from `start`; before the last cell the iterator moves
    /// from cell `k - 1` to cell `k`.
    pub proof fn lemma_l_next(start: Vec2, end: Vec2, corner: Vec2, k: int)
        requires
            l_corner(start, end, corner),
            l_fits(start, end, corner),
            1 <= k <= start.manhattan_spec(end),
        ensures
            start.manhattan_spec(l_cell(start, corner, end, k - 1)) == k - 1,
            start.manhattan_spec(l_cell(start, corner, end, k)) == k,
            l_cell(start, corner, end, k - 1) != end,
            next_cell(l_cell(start, corner, end, k - 1), end, corner) == l_cell(start, corner, end, k),
            l_cell(start, corner, end, k).manhattan_spec(l_cell(start, corner, end, k - 1)) == 1,
            k == start.manhattan_spec(end) ==> l_cell(start, corner, end, k) == end,
            between(l_cell(start, corner, end, k).x as int, start.x as int, end.x as int),
            between(l_cell(start, corner, end, k).y as int, start.y as int, end.y as int),
    {
        let m = start.manhattan_spec(corner);
        let sx1 = sign(corner.x - start.x);
        let sy1 = sign(corner.y - start.y);
        let sx2 = sign(end.x - corner.x);
        let sy2 = sign(end.y - corner.y);
        assert(k * 1 == k && k * -1 == -k && k * 0 == 0);
        assert((k - 1) * 1 == k - 1 && (k - 1) * -1 == -(k - 1) && (k - 1) * 0 == 0);
        assert((k - m) * 1 == k - m && (k - m) * -1 == -(k - m) && (k - m) * 0 == 0);
        assert((k - 1 - m) * 1 == k - 1 - m && (k - 1 - m) * -1 == -(k - 1 - m) && (k - 1 - m) * 0 == 0);
    }

    /// Once at the end, the run stays.
    proof fn lemma_run_rest(start: Vec2, end: Vec2, corner: Vec2, k: nat)
        requires
            l_corner(start, end, corner),
            l_fits(start, end, corner),
            k >= start.manhattan_spec(end),
        ensures
            tunnel_run(TunnelIter { current: start, end, corner }, k) == tunnel_run(
                TunnelIter { current: start, end, corner },
                start.manhattan_spec(end) as nat,
            ),
        decreases k,
    {
        let n = start.manhattan_spec(end);
        if k > n {
            Self::lemma_run_rest(start, end, corner, (k - 1) as nat);
            Self::lemma_run_step(start, end, corner, n as nat);
            if n >= 1 {
                Self::lemma_l_next(start, end, corner, n);
            } else {
                assert(l_cell(start, corner, end, 0) == start) by {
                    assert(0 * sign(corner.x - start.x) == 0 && 0 * sign(corner.y - start.y) == 0);
                }
            }
        }
    }

    pub fn new(start: Vec2, end: Vec2, corner: Vec2) -> (r: TunnelIter)
        ensures
            r.current == start,
            r.end == end,
            r.corner == corner,
    {
        TunnelIter { current: start, end, corner }
    }

    /// The next cell of the tunnel, or `None` once the end is reached.
    ///
    /// Each cell is one step along an axis from the previous one, and lies between the
    /// previous one and the corner or the end.
    pub fn next(&mut self) -> (r: Option<Vec2>)
        requires
            old(self).wf(),
        ensures
            final(self).wf(),
            final(self).end == old(self).end,
            final(self).corner == old(self).corner,
            *final(self) == tunnel_run(*old(self), 1),
            old(self).current == old(self).end ==> r is None && *final(self) == *old(self),
            old(self).current != old(self).end ==> {
                &&& r == Some(final(self).current)
                &&& final(self).current.manhattan_spec(old(self).current) == 1
                &&& 0 <= final(self).remaining() < old(self).remaining()
                &&& (between(final(self).current.x as int, old(self).current.x as int, old(self).corner.x as int)
                    || between(final(self).current.x as int, old(self).current.x as int, old(self).end.x as int))
                &&& (between(final(self).current.y as int, old(self).current.y as int, old(self).corner.y as int)
                    || between(final(self).current.y as int, old(self).current.y as int, old(self).end.y as int))
            },
    {
        let ghost t0 = *self;
        proof {
            assert(tunnel_run(t0, 0) == t0);
        }
        if self.current == self.end {
            return None;
        }
        let dc = self.corner.sub(self.current).as_direction();
        let de = self.end.sub(self.current).as_direction();

        if dc.x == -de.x || dc.y == -de.y {
            // we're between the corner and the end, move towards end
            self.current.add_assign(de);
        } else {
            // move towards the corner
            self.current.add_assign(dc);
        }
        Some(self.current)
    }
}

} // verus!

//! Field of view: which cells the player sees from where they stand.
use vstd::prelude::*;

use crate::components::Stuff;
use crate::grid::Grid;
use crate::map_gen::rect_room::small;
use crate::math::{abs, abs_i32, row_major_before, Vec2};

verus! {

/// The offsets `(ix, iy)` reached after `k` steps of a walk towards offsets `(nx, ny)`: each
/// step goes along x when the next x crossing `(ix + 1/2) / nx` comes before the next y
/// crossing `(iy + 1/2) / ny` (an axis with no extent is never crossed), else along y.
pub open spec fn walk_offsets(nx: int, ny: int, k: nat) -> (int, int)
    decreases k,
{
    if k == 0 {
        (0, 0)
    } else {
        let (ix, iy) = walk_offsets(nx, ny, (k - 1) as nat);
        if (1 + 2 * ix) * ny < (1 + 2 * iy) * nx {
            (ix + 1, iy)
        } else {
            (ix, iy + 1)
        }
    }
}

/// Number of cells a walk from `from` to `to` steps through.
pub open spec fn walk_len(from: Vec2, to: Vec2) -> int {
    abs(to.x - from.x) + abs(to.y - from.y)
}

/// The cell reached after `k` steps of the walk from `from` to `to`.
pub open spec fn walk_cell(from: Vec2, to: Vec2, k: nat) -> (int, int) {
    let dx = to.x - from.x;
    let dy = to.y - from.y;
    let (ix, iy) = walk_offsets(abs(dx), abs(dy), k);
    (
        if dx > 0 {
            from.x + ix
        } else {
            from.x - ix
        },
        if dy > 0 {
            from.y + iy
        } else {
            from.y - iy
        },
    )
}

/// The cell is on the grid and blocks the view.
pub open spec fn blocks(opaque: Grid<bool>, c: (int, int)) -> bool {
    opaque.in_bounds(c.0, c.1) && opaque.cell(c.0, c.1)
}

/// No cell strictly between `from` and `to` on the walk blocks the view.
pub open spec fn line_clear(opaque: Grid<bool>, from: Vec2, to: Vec2) -> bool {
    forall|k: nat| 1 <= k < walk_len(from, to) ==> !#[trigger] blocks(opaque, walk_cell(from, to, k))
}

/// Along a walk with some extent, the offsets add up to the steps taken and never pass the
/// target.
proof fn lemma_walk_offsets(nx: int, ny: int, k: nat)
    requires
        nx >= 0,
        ny >= 0,
        nx + ny > 0,
        k <= nx + ny,
    ensures
        walk_offsets(nx, ny, k).0 + walk_offsets(nx, ny, k).1 == k,
        0 <= walk_offsets(nx, ny, k).0 <= nx,
        0 <= walk_offsets(nx, ny, k).1 <= ny,
    decreases k,
{
    if k > 0 {
        lemma_walk_offsets(nx, ny, (k - 1) as nat);
        let (ix, iy) = walk_offsets(nx, ny, (k - 1) as nat);
        if ix == nx {
            assert((1 + 2 * iy) * nx <= (1 + 2 * ix) * ny) by (nonlinear_arith)
                requires
                    ix == nx,
                    0 <= iy < ny,
                    nx >= 0,
            ;
        }
        if iy == ny {
            assert((1 + 2 * ix) * ny < (1 + 2 * iy) * nx) by (nonlinear_arith)
                requires
                    iy == ny,
                    0 <= ix < nx,
                    ny >= 0,
            ;
        }
    }
}

/// Along a walk with some extent, the offsets stay within half a step (in units of
/// `nx + ny`) of the straight line to `(nx, ny)`.
proof fn lemma_walk_band(nx: int, ny: int, k: nat)
    requires
        nx >= 0,
        ny >= 0,
        nx + ny > 0,
        k <= nx + ny,
    ensures
        -(nx + ny) <= 2 * (walk_offsets(nx, ny, k).0 * ny - walk_offsets(nx, ny, k).1 * nx) < nx
            + ny,
    decreases k,
{
    if k > 0 {
        lemma_walk_band(nx, ny, (k - 1) as nat);
        let (ix, iy) = walk_offsets(nx, ny, (k - 1) as nat);
        assert((ix + 1) * ny == ix * ny + ny) by (nonlinear_arith);
        assert((iy + 1) * nx == iy * nx + nx) by (nonlinear_arith);
        assert((1 + 2 * ix) * ny == ny + 2 * (ix * ny)) by (nonlinear_arith);
        assert((1 + 2 * iy) * nx == nx + 2 * (iy * nx)) by (nonlinear_arith);
        if (1 + 2 * ix) * ny < (1 + 2 * iy) * nx {
            assert(walk_offsets(nx, ny, k) == (ix + 1, iy));
            assert(-(nx + ny) <= 2 * ((ix + 1) * ny - iy * nx) < nx + ny);
        } else {
            assert(walk_offsets(nx, ny, k) == (ix, iy + 1));
            assert(-(nx + ny) <= 2 * (ix * ny - (iy + 1) * nx));
            assert(2 * (ix * ny - (iy + 1) * nx) < nx + ny);
        }
    } else {
        assert(walk_offsets(nx, ny, k) == (0int, 0int));
        assert(0 * ny - 0 * nx == 0);
    }
}

/// The walk from `from` to `to` follows the straight segment between their centres: it starts
/// at `from` and ends at `to`; each step moves one cell along one axis, towards `to`; each step
/// goes along x exactly when the segment crosses the next vertical cell border before the next
/// horizontal one (at `(1/2 + |x - from.x|) / |dx|` against `(1/2 + |y - from.y|) / |dy|`, an
/// axis with no extent never being crossed); and every cell it passes meets the segment, whose
/// distance from the cell's centre, scaled by the segment's length, is
/// `|(x - from.x) dy - (y - from.y) dx|`, at most `(|dx| + |dy|) / 2`.
pub proof fn lemma_walk_follows_segment(from: Vec2, to: Vec2, k: nat)
    requires
        k <= walk_len(from, to),
    ensures
        walk_cell(from, to, 0) == (from.x as int, from.y as int),
        walk_cell(from, to, walk_len(from, to) as nat) == (to.x as int, to.y as int),
        ({
            let (x, y) = walk_cell(from, to, k);
            let dx = to.x - from.x;
            let dy = to.y - from.y;
            2 * abs((x - from.x) * dy - (y - from.y) * dx) <= abs(dx) + abs(dy)
        }),
        k < walk_len(from, to) ==> ({
            let (x, y) = walk_cell(from, to, k);
            let (x2, y2) = walk_cell(from, to, k + 1);
            let dx = to.x - from.x;
            let dy = to.y - from.y;
            &&& abs(x2 - x) + abs(y2 - y) == 1
            &&& (x2 - x) * dx >= 0
            &&& (y2 - y) * dy >= 0
            &&& (x2 != x <==> (1 + 2 * abs(x - from.x)) * abs(dy) < (1 + 2 * abs(y - from.y)) * abs(
                dx,
            ))
        }),
{
    let dx = to.x - from.x;
    let dy = to.y - from.y;
    let nx = abs(dx);
    let ny = abs(dy);
    let n = walk_len(from, to);
    if n == 0 {
        return;
    }
    lemma_walk_offsets(nx, ny, k);
    lemma_walk_offsets(nx, ny, n as nat);
    lemma_walk_band(nx, ny, k);
    let (ex, ey) = walk_offsets(nx, ny, n as nat);
    assert(ex == nx && ey == ny);
    let (ix, iy) = walk_offsets(nx, ny, k);
    let (x, y) = walk_cell(from, to, k);
    assert(abs(x - from.x) == ix && abs(y - from.y) == iy);
    let c = (x - from.x) * dy - (y - from.y) * dx;
    if dx > 0 {
        if dy > 0 {
            assert(c == ix * ny - iy * nx) by (nonlinear_arith)
                requires
                    x - from.x == ix,
                    dx == nx,
                    y - from.y == iy,
                    dy == ny,
                    c == (x - from.x) * dy - (y - from.y) * dx,
            ;
        } else {
            assert(c == -(ix * ny - iy * nx)) by (nonlinear_arith)
                requires
                    x - from.x == ix,
                    dx == nx,
                    y - from.y == -iy,
                    dy == -ny,
                    c == (x - from.x) * dy - (y - from.y) * dx,
            ;
        }
    } else {
        if dy > 0 {
            assert(c == -(ix * ny - iy * nx)) by (nonlinear_arith)
                requires
                    x - from.x == -ix,
                    dx == -nx,
                    y - from.y == iy,
                    dy == ny,
                    c == (x - from.x) * dy - (y - from.y) * dx,
            ;
        } else {
            assert(c == ix * ny - iy * nx) by (nonlinear_arith)
                requires
                    x - from.x == -ix,
                    dx == -nx,
                    y - from.y == -iy,
                    dy == -ny,
                    c == (x - from.x) * dy - (y - from.y) * dx,
            ;
        }
    }
    if k < n {
        lemma_walk_offsets(nx, ny, k + 1);
        assert(walk_offsets(nx, ny, k + 1) == if (1 + 2 * ix) * ny < (1 + 2 * iy) * nx {
            (ix + 1, iy)
        } else {
            (ix, iy + 1)
        });
        let (jx, jy) = walk_offsets(nx, ny, k + 1);
        let (x2, y2) = walk_cell(from, to, k + 1);
        assert(x2 - x == if dx > 0 { jx - ix } else { ix - jx });
        assert(y2 - y == if dy > 0 { jy - iy } else { iy - jy });
        if (1 + 2 * ix) * ny < (1 + 2 * iy) * nx {
            assert(nx > 0) by (nonlinear_arith)
                requires
                    (1 + 2 * ix) * ny < (1 + 2 * iy) * nx,
                    ix >= 0,
                    ny >= 0,
                    nx >= 0,
            ;
            assert(jx == ix + 1 && jy == iy);
        } else {
            assert(jx == ix && jy == iy + 1);
            assert(ny > 0);
        }
        assert(abs(x2 - x) + abs(y2 - y) == 1);
        assert((x2 - x) * dx >= 0) by (nonlinear_arith)
            requires
                x2 - x == 0 || (x2 - x == 1 && dx > 0) || (x2 - x == -1 && dx <= 0),
        ;
        assert((y2 - y) * dy >= 0) by (nonlinear_arith)
            requires
                y2 - y == 0 || (y2 - y == 1 && dy > 0) || (y2 - y == -1 && dy <= 0),
        ;
        assert(x2 != x <==> (1 + 2 * abs(x - from.x)) * abs(dy) < (1 + 2 * abs(y - from.y)) * abs(dx));
    }
}

/// One step of the walk towards offsets `(nx, ny)`.
fn step(p: &mut Vec2, ix: &mut i64, iy: &mut i64, nx: i64, ny: i64, sign_x: i32, sign_y: i32)
    requires
        0 <= *old(ix) <= nx <= 0x4000_0000,
        0 <= *old(iy) <= ny <= 0x4000_0000,
        sign_x == 1 || sign_x == -1,
        sign_y == 1 || sign_y == -1,
        -0x4000_0000 <= old(p).x + sign_x <= 0x4000_0000,
        -0x4000_0000 <= old(p).y + sign_y <= 0x4000_0000,
    ensures
        (1 + 2 * *old(ix)) * ny < (1 + 2 * *old(iy)) * nx ==> {
            &&& *final(ix) == *old(ix) + 1
            &&& *final(iy) == *old(iy)
            &&& *final(p) == (Vec2 { x: (old(p).x + sign_x) as i32, y: old(p).y })
        },
        !((1 + 2 * *old(ix)) * ny < (1 + 2 * *old(iy)) * nx) ==> {
            &&& *final(ix) == *old(ix)
            &&& *final(iy) == *old(iy) + 1
            &&& *final(p) == (Vec2 { x: old(p).x, y: (old(p).y + sign_y) as i32 })
        },
{
    assert((1 + 2 * *ix) * ny <= 0x8000_0001 * 0x4000_0000) by (nonlinear_arith)
        requires
            0 <= *ix <= 0x4000_0000,
            0 <= ny <= 0x4000_0000,
    ;
    assert((1 + 2 * *iy) * nx <= 0x8000_0001 * 0x4000_0000) by (nonlinear_arith)
        requires
            0 <= *iy <= 0x4000_0000,
            0 <= nx <= 0x4000_0000,
    ;
    if (1 + 2 * *ix) * ny < (1 + 2 * *iy) * nx {
        // step horizontal
        p.x = p.x + sign_x;
        *ix = *ix + 1;
    } else {
        //vertical
        p.y = p.y + sign_y;
        *iy = *iy + 1;
    }
}

/// return wether the segment hits something and where
///
/// The walk compares the crossings `(ix + 1/2) / nx` and `(iy + 1/2) / ny` exactly, as the
/// products `(1 + 2 ix) ny` and `(1 + 2 iy) nx`. Neither end of the segment is checked.
pub fn walk_grid_on_segment(from: Vec2, to: Vec2, opaque: &Grid<bool>) -> (r: Option<Vec2>)
    requires
        opaque.wf(),
        small(from),
        small(to),
    ensures
        r is None <==> line_clear(*opaque, from, to),
        r matches Some(p) ==> exists|k: nat|
            1 <= k < walk_len(from, to) && #[trigger] walk_cell(from, to, k) == (p.x as int, p.y as int)
                && blocks(*opaque, (p.x as int, p.y as int)) && forall|j: nat|
                1 <= j < k ==> !#[trigger] blocks(*opaque, walk_cell(from, to, j)),
{
    let dx = to.x - from.x;
    let dy = to.y - from.y;
    if dx == 0 && dy == 0 {
        return None;
    }
    let sign_x: i32 = if dx > 0 {
        1
    } else {
        -1
    };
    let sign_y: i32 = if dy > 0 {
        1
    } else {
        -1
    };
    let nx = abs_i32(dx) as i64;
    let ny = abs_i32(dy) as i64;

    let mut p = from;
    let mut ix: i64 = 0;
    let mut iy: i64 = 0;
    // skip the first pos
    step(&mut p, &mut ix, &mut iy, nx, ny, sign_x, sign_y);
    let ghost mut k: nat = 1;
    proof {
        lemma_walk_offsets(nx as int, ny as int, 1);
        reveal_with_fuel(walk_offsets, 2);
    }
    while ix < nx || iy < ny
        invariant
            opaque.wf(),
            small(from),
            small(to),
            dx == to.x - from.x,
            dy == to.y - from.y,
            nx == abs(dx as int),
            ny == abs(dy as int),
            nx + ny > 0,
            sign_x == if dx > 0 { 1int } else { -1int },
            sign_y == if dy > 0 { 1int } else { -1int },
            1 <= k <= nx + ny,
            (ix as int, iy as int) == walk_offsets(nx as int, ny as int, k),
            0 <= ix <= nx,
            0 <= iy <= ny,
            ix + iy == k,
            (p.x as int, p.y as int) == walk_cell(from, to, k),
            forall|j: nat| 1 <= j < k ==> !#[trigger] blocks(*opaque, walk_cell(from, to, j)),
        decreases nx + ny - k,
    {
        // if there is an entity at this position and the entity is opaque
        if let Some(true) = opaque.at(p.x, p.y) {
            proof {
                assert(blocks(*opaque, walk_cell(from, to, k)));
            }
            return Some(p);
        }
        step(&mut p, &mut ix, &mut iy, nx, ny, sign_x, sign_y);
        proof {
            k = k + 1;
            lemma_walk_offsets(nx as int, ny as int, k);
        }
    }
    None
}

/// The cell `(x, y)` is within `radius` cells of `center` along both axes.
pub open spec fn in_square(center: Vec2, radius: int, x: int, y: int) -> bool {
    center.x - radius <= x <= center.x + radius && center.y - radius <= y <= center.y + radius
}

/// The player at `player` sees the cell `(x, y)` straight away: it is on the grid, within
/// `radius`, and nothing blocks the line to it.
pub open spec fn seen_directly(opaque: Grid<bool>, player: Vec2, radius: int, x: int, y: int) -> bool {
    &&& opaque.in_bounds(x, y)
    &&& in_square(player, radius, x, y)
    &&& line_clear(opaque, player, Vec2 { x: x as i32, y: y as i32 })
}

/// mark every cell within `radius` to which the line from the player is clear
fn set_visible(opaque: &Grid<bool>, visible: &mut Grid<bool>, player_pos: Vec2, radius: i32)
    requires
        opaque.wf(),
        old(visible).wf(),
        old(visible).spec_dims() == opaque.spec_dims(),
        small(player_pos),
        0 <= radius <= 0x0800_0000,
        -0x0800_0000 <= player_pos.x <= 0x0800_0000,
        -0x0800_0000 <= player_pos.y <= 0x0800_0000,
    ensures
        final(visible).wf(),
        final(visible).spec_dims() == old(visible).spec_dims(),
        forall|x: int, y: int|
            opaque.in_bounds(x, y) ==> #[trigger] final(visible).cell(x, y) == seen_directly(
                *opaque,
                player_pos,
                radius as int,
                x,
                y,
            ),
{
    visible.fill(false);
    proof {
        visible.lemma_len();
        assert forall|x: int, y: int| visible.in_bounds(x, y) implies !#[trigger] visible.cell(x, y) by {
            crate::grid::lemma_cell_offset(visible.spec_width(), visible.spec_height(), x, y);
        }
    }
    // walk the visible range
    let mut y = player_pos.y - radius;
    while y <= player_pos.y + radius
        invariant
            opaque.wf(),
            visible.wf(),
            visible.spec_dims() == opaque.spec_dims(),
            0 <= radius <= 0x0800_0000,
            -0x0800_0000 <= player_pos.x <= 0x0800_0000,
            -0x0800_0000 <= player_pos.y <= 0x0800_0000,
            player_pos.y - radius <= y <= player_pos.y + radius + 1,
            forall|xx: int, yy: int|
                opaque.in_bounds(xx, yy) ==> #[trigger] visible.cell(xx, yy) == (yy < y
                    && seen_directly(*opaque, player_pos, radius as int, xx, yy)),
        decreases player_pos.y + radius + 1 - y,
    {
        let mut x = player_pos.x - radius;
        while x <= player_pos.x + radius
            invariant
                opaque.wf(),
                visible.wf(),
                visible.spec_dims() == opaque.spec_dims(),
                0 <= radius <= 0x0800_0000,
                -0x0800_0000 <= player_pos.x <= 0x0800_0000,
                -0x0800_0000 <= player_pos.y <= 0x0800_0000,
                player_pos.y - radius <= y <= player_pos.y + radius,
                player_pos.x - radius <= x <= player_pos.x + radius + 1,
                forall|xx: int, yy: int|
                    opaque.in_bounds(xx, yy) ==> #[trigger] visible.cell(xx, yy) == ((yy < y || (yy
                        == y && xx < x)) && seen_directly(*opaque, player_pos, radius as int, xx, yy)),
            decreases player_pos.x + radius + 1 - x,
        {
            let limit = Vec2::new(x, y);
            let clear = walk_grid_on_segment(player_pos, limit, opaque).is_none();
            if clear && visible.contains(x, y) {
                let ghost before = *visible;
                visible.set(limit, true);
            }
            x = x + 1;
        }
        y = y + 1;
    }
}

/// Some cell next to (or at) `(x, y)` is seen in `visible` and holds nothing.
pub open spec fn lit_by_neighbour(grid: Grid<Stuff>, visible: Grid<bool>, x: int, y: int) -> bool {
    exists|dx: int, dy: int|
        -1 <= dx <= 1 && -1 <= dy <= 1 && visible.in_bounds(x + dx, y + dy) && #[trigger] visible.cell(
            x + dx,
            y + dy,
        ) && grid.cell(x + dx, y + dy) is None
}

/// No cell off the grid within `radius` of `center` is next to a seen empty cell.
pub open spec fn flood_stays_on_grid(grid: Grid<Stuff>, visible: Grid<bool>, center: Vec2, radius: int) -> bool {
    forall|x: int, y: int|
        in_square(center, radius, x, y) && !visible.in_bounds(x, y) ==> !#[trigger] lit_by_neighbour(
            grid,
            visible,
            x,
            y,
        )
}

/// Is some neighbour of `pos` seen and empty?
fn has_lit_neighbour(grid: &Grid<Stuff>, visible: &Grid<bool>, pos: Vec2) -> (r: bool)
    requires
        grid.wf(),
        visible.wf(),
        grid.spec_dims() == visible.spec_dims(),
        -0x1000_0000 <= pos.x <= 0x1000_0000,
        -0x1000_0000 <= pos.y <= 0x1000_0000,
    ensures
        r == lit_by_neighbour(*grid, *visible, pos.x as int, pos.y as int),
{
    let mut dy: i32 = -1;
    while dy <= 1
        invariant
            grid.wf(),
            visible.wf(),
            grid.spec_dims() == visible.spec_dims(),
            -0x1000_0000 <= pos.x <= 0x1000_0000,
            -0x1000_0000 <= pos.y <= 0x1000_0000,
            -1 <= dy <= 2,
            forall|ex: int, ey: int|
                -1 <= ex <= 1 && -1 <= ey < dy && visible.in_bounds(pos.x + ex, pos.y + ey) ==> !(
                #[trigger] visible.cell(pos.x + ex, pos.y + ey) && grid.cell(pos.x + ex, pos.y + ey) is None),
        decreases 2 - dy,
    {
        let mut dx: i32 = -1;
        while dx <= 1
            invariant
                grid.wf(),
                visible.wf(),
                grid.spec_dims() == visible.spec_dims(),
                -0x1000_0000 <= pos.x <= 0x1000_0000,
                -0x1000_0000 <= pos.y <= 0x1000_0000,
                -1 <= dy <= 1,
                -1 <= dx <= 2,
                forall|ex: int, ey: int|
                    -1 <= ex <= 1 && (-1 <= ey < dy || (ey == dy && ex < dx)) && visible.in_bounds(
                        pos.x + ex,
                        pos.y + ey,
                    ) ==> !(#[trigger] visible.cell(pos.x + ex, pos.y + ey) && grid.cell(
                        pos.x + ex,
                        pos.y + ey,
                    ) is None),
            decreases 2 - dx,
        {
            let nx = pos.x + dx;
            let ny = pos.y + dy;
            if let Some(true) = visible.at(nx, ny) {
                if grid.get(Vec2::new(nx, ny)).is_none() {
                    return true;
                }
            }
            dx = dx + 1;
        }
        dy = dy + 1;
    }
    false
}

/// go over the visible range and if an item is adjacent to a visible empty tile, then set that to
/// visible as well
fn flood_vizibility(grid: &Grid<Stuff>, visible: &mut Grid<bool>, player_pos: Vec2, radius: i32)
    requires
        grid.wf(),
        old(visible).wf(),
        grid.spec_dims() == old(visible).spec_dims(),
        0 <= radius <= 0x0800_0000,
        -0x0800_0000 <= player_pos.x <= 0x0800_0000,
        -0x0800_0000 <= player_pos.y <= 0x0800_0000,
        flood_stays_on_grid(*grid, *old(visible), player_pos, radius as int),
    ensures
        final(visible).wf(),
        final(visible).spec_dims() == old(visible).spec_dims(),
        forall|x: int, y: int|
            old(visible).in_bounds(x, y) ==> #[trigger] final(visible).cell(x, y) == (old(visible).cell(x, y)
                || (in_square(player_pos, radius as int, x, y) && lit_by_neighbour(
                *grid,
                *old(visible),
                x,
                y,
            ))),
{
    let ghost v0 = *old(visible);
    let mut to_update: Vec<Vec2> = Vec::new();
    let mut y = player_pos.y - radius;
    while y <= player_pos.y + radius
        invariant
            grid.wf(),
            visible.wf(),
            *visible == v0,
            grid.spec_dims() == visible.spec_dims(),
            0 <= radius <= 0x0800_0000,
            -0x0800_0000 <= player_pos.x <= 0x0800_0000,
            -0x0800_0000 <= player_pos.y <= 0x0800_0000,
            flood_stays_on_grid(*grid, v0, player_pos, radius as int),
            player_pos.y - radius <= y <= player_pos.y + radius + 1,
            forall|i: int|
                0 <= i < to_update@.len() ==> {
                    let p = #[trigger] to_update@[i];
                    &&& v0.in_bounds(p.x as int, p.y as int)
                    &&& !v0.cell(p.x as int, p.y as int)
                    &&& in_square(player_pos, radius as int, p.x as int, p.y as int)
                    &&& lit_by_neighbour(*grid, v0, p.x as int, p.y as int)
                },
            forall|xx: int, yy: int|
                v0.in_bounds(xx, yy) && yy < y && in_square(player_pos, radius as int, xx, yy) && !v0.cell(xx, yy)
                    && #[trigger] lit_by_neighbour(*grid, v0, xx, yy) ==> to_update@.contains(
                    Vec2 { x: xx as i32, y: yy as i32 },
                ),
        decreases player_pos.y + radius + 1 - y,
    {
        let mut x = player_pos.x - radius;
        while x <= player_pos.x + radius
            invariant
                grid.wf(),
                visible.wf(),
                *visible == v0,
                grid.spec_dims() == visible.spec_dims(),
                0 <= radius <= 0x0800_0000,
                -0x0800_0000 <= player_pos.x <= 0x0800_0000,
                -0x0800_0000 <= player_pos.y <= 0x0800_0000,
                flood_stays_on_grid(*grid, v0, player_pos, radius as int),
                player_pos.y - radius <= y <= player_pos.y + radius,
                player_pos.x - radius <= x <= player_pos.x + radius + 1,
                forall|i: int|
                    0 <= i < to_update@.len() ==> {
                        let p = #[trigger] to_update@[i];
                        &&& v0.in_bounds(p.x as int, p.y as int)
                        &&& !v0.cell(p.x as int, p.y as int)
                        &&& in_square(player_pos, radius as int, p.x as int, p.y as int)
                        &&& lit_by_neighbour(*grid, v0, p.x as int, p.y as int)
                    },
                forall|xx: int, yy: int|
                    v0.in_bounds(xx, yy) && (yy < y || (yy == y && xx < x)) && in_square(
                        player_pos,
                        radius as int,
                        xx,
                        yy,
                    ) && !v0.cell(xx, yy) && #[trigger] lit_by_neighbour(*grid, v0, xx, yy)
                        ==> to_update@.contains(Vec2 { x: xx as i32, y: yy as i32 }),
            decreases player_pos.x + radius + 1 - x,
        {
            let pos = Vec2::new(x, y);
            let seen = match visible.at(x, y) {
                Some(v) => *v,
                None => false,
            };
            if !seen && has_lit_neighbour(grid, visible, pos) {
                proof {
                    assert(in_square(player_pos, radius as int, x as int, y as int));
                    if !v0.in_bounds(x as int, y as int) {
                        assert(!lit_by_neighbour(*grid, v0, x as int, y as int));
                    }
                }
                let ghost before = to_update@;
                to_update.push(pos);
                proof {
                    assert(to_update@[before.len() as int] == pos);
                    assert forall|xx: int, yy: int|
                        v0.in_bounds(xx, yy) && (yy < y || (yy == y && xx < x + 1)) && in_square(
                            player_pos,
                            radius as int,
                            xx,
                            yy,
                        ) && !v0.cell(xx, yy) && #[trigger] lit_by_neighbour(*grid, v0, xx, yy)
                            implies to_update@.contains(Vec2 { x: xx as i32, y: yy as i32 }) by {
                        if yy == y && xx == x {
                            assert(to_update@[before.len() as int] == Vec2 { x: xx as i32, y: yy as i32 });
                        } else {
                            let i = choose|i: int| 0 <= i < before.len() && before[i] == Vec2 { x: xx as i32, y: yy as i32 };
                            assert(to_update@[i] == before[i]);
                        }
                    }
                }
            }
            x = x + 1;
        }
        y = y + 1;
    }
    let mut i: usize = 0;
    while i < to_update.len()
        invariant
            visible.wf(),
            visible.spec_dims() == v0.spec_dims(),
            i <= to_update@.len(),
            forall|k: int|
                0 <= k < to_update@.len() ==> {
                    let p = #[trigger] to_update@[k];
                    &&& v0.in_bounds(p.x as int, p.y as int)
                    &&& !v0.cell(p.x as int, p.y as int)
                    &&& in_square(player_pos, radius as int, p.x as int, p.y as int)
                    &&& lit_by_neighbour(*grid, v0, p.x as int, p.y as int)
                },
            forall|xx: int, yy: int|
                v0.in_bounds(xx, yy) ==> #[trigger] visible.cell(xx, yy) == (v0.cell(xx, yy)
                    || exists|k: int| 0 <= k < i && to_update@[k] == (Vec2 { x: xx as i32, y: yy as i32 })),
        decreases to_update@.len() - i,
    {
        let pos = to_update[i];
        proof {
            assert(v0.in_bounds(to_update@[i as int].x as int, to_update@[i as int].y as int));
        }
        let ghost before = *visible;
        visible.set(pos, true);
        proof {
            assert forall|xx: int, yy: int| v0.in_bounds(xx, yy) implies #[trigger] visible.cell(xx, yy) == (v0.cell(
                xx,
                yy,
            ) || exists|k: int| 0 <= k < i + 1 && to_update@[k] == (Vec2 { x: xx as i32, y: yy as i32 })) by {
                if xx == pos.x && yy == pos.y {
                    assert(to_update@[i as int] == Vec2 { x: xx as i32, y: yy as i32 });
                } else {
                    if exists|k: int| 0 <= k < i + 1 && to_update@[k] == (Vec2 { x: xx as i32, y: yy as i32 }) {
                        let k = choose|k: int| 0 <= k < i + 1 && to_update@[k] == (Vec2 { x: xx as i32, y: yy as i32 });
                        assert(k != i);
                    }
                }
            }
        }
        i = i + 1;
    }
    proof {
        assert forall|xx: int, yy: int| v0.in_bounds(xx, yy) implies #[trigger] visible.cell(xx, yy) == (v0.cell(
            xx,
            yy,
        ) || (in_square(player_pos, radius as int, xx, yy) && lit_by_neighbour(*grid, v0, xx, yy))) by {
            if exists|k: int| 0 <= k < to_update@.len() && to_update@[k] == (Vec2 { x: xx as i32, y: yy as i32 }) {
                let k = choose|k: int| 0 <= k < to_update@.len() && to_update@[k] == (Vec2 { x: xx as i32, y: yy as i32 });
                assert(in_square(player_pos, radius as int, to_update@[k].x as int, to_update@[k].y as int));
            }
            if in_square(player_pos, radius as int, xx, yy) && lit_by_neighbour(*grid, v0, xx, yy) && !v0.cell(xx, yy) {
                assert(to_update@.contains(Vec2 { x: xx as i32, y: yy as i32 }));
            }
        }
    }
}


/// What the player sees before flooding: the cells seen straight away, and their own cell.
pub open spec fn first_sight(opaque: Grid<bool>, player: Vec2, radius: int, x: int, y: int) -> bool {
    seen_directly(opaque, player, radius, x, y) || (x == player.x && y == player.y)
}

/// Some cell next to (or at) `(x, y)` is in first sight and holds nothing.
pub open spec fn lit_by_first_sight(
    opaque: Grid<bool>,
    grid: Grid<Stuff>,
    player: Vec2,
    radius: int,
    x: int,
    y: int,
) -> bool {
    exists|dx: int, dy: int|
        -1 <= dx <= 1 && -1 <= dy <= 1 && opaque.in_bounds(x + dx, y + dy) && #[trigger] first_sight(
            opaque,
            player,
            radius,
            x + dx,
            y + dy,
        ) && grid.cell(x + dx, y + dy) is None
}

/// The player sees the cell: in first sight, or within `radius` and next to an empty cell in
/// first sight (so the walls and things around a seen floor show too).
pub open spec fn in_sight(
    opaque: Grid<bool>,
    grid: Grid<Stuff>,
    player: Vec2,
    radius: int,
    x: int,
    y: int,
) -> bool {
    first_sight(opaque, player, radius, x, y) || (in_square(player, radius, x, y)
        && lit_by_first_sight(opaque, grid, player, radius, x, y))
}

/// Flooding from first sight never reaches past the grid's edge.
pub open spec fn sight_stays_on_grid(opaque: Grid<bool>, grid: Grid<Stuff>, player: Vec2, radius: int) -> bool {
    forall|x: int, y: int|
        in_square(player, radius, x, y) && !opaque.in_bounds(x, y) ==> !#[trigger] lit_by_first_sight(
            opaque,
            grid,
            player,
            radius,
            x,
            y,
        )
}

proof fn lemma_lit_equiv(
    opaque: Grid<bool>,
    grid: Grid<Stuff>,
    vis: Grid<bool>,
    player: Vec2,
    radius: int,
    x: int,
    y: int,
)
    requires
        vis.spec_dims() == opaque.spec_dims(),
        forall|xx: int, yy: int|
            opaque.in_bounds(xx, yy) ==> #[trigger] vis.cell(xx, yy) == first_sight(opaque, player, radius, xx, yy),
    ensures
        lit_by_neighbour(grid, vis, x, y) == lit_by_first_sight(opaque, grid, player, radius, x, y),
{
    if lit_by_neighbour(grid, vis, x, y) {
        let (dx, dy) = choose|dx: int, dy: int|
            -1 <= dx <= 1 && -1 <= dy <= 1 && vis.in_bounds(x + dx, y + dy) && #[trigger] vis.cell(
                x + dx,
                y + dy,
            ) && grid.cell(x + dx, y + dy) is None;
        assert(first_sight(opaque, player, radius, x + dx, y + dy));
    }
    if lit_by_first_sight(opaque, grid, player, radius, x, y) {
        let (dx, dy) = choose|dx: int, dy: int|
            -1 <= dx <= 1 && -1 <= dy <= 1 && opaque.in_bounds(x + dx, y + dy) && #[trigger] first_sight(
                opaque,
                player,
                radius,
                x + dx,
                y + dy,
            ) && grid.cell(x + dx, y + dy) is None;
        assert(vis.cell(x + dx, y + dy));
    }
}

/// recompute visible area
///
/// With a player on the map, `visible` becomes what they see within `radius` (the larger
/// extent of `viewport`) and `explored` gains it; without one, both stay as they are.
pub fn update_fov(
    player: Option<Vec2>,
    opaque: &Grid<bool>,
    grid: &Grid<Stuff>,
    explored: &mut Grid<bool>,
    visible: &mut Grid<bool>,
    viewport: Vec2,
)
    requires
        opaque.wf(),
        grid.wf(),
        old(explored).wf(),
        old(visible).wf(),
        grid.spec_dims() == opaque.spec_dims(),
        old(explored).spec_dims() == opaque.spec_dims(),
        old(visible).spec_dims() == opaque.spec_dims(),
        0 <= viewport.x <= 0x0800_0000,
        0 <= viewport.y <= 0x0800_0000,
        player matches Some(p) ==> {
            &&& opaque.in_bounds(p.x as int, p.y as int)
            &&& p.x <= 0x0800_0000 && p.y <= 0x0800_0000
            &&& sight_stays_on_grid(
                *opaque,
                *grid,
                p,
                if viewport.x > viewport.y {
                    viewport.x as int
                } else {
                    viewport.y as int
                },
            )
        },
    ensures
        final(explored).wf(),
        final(visible).wf(),
        final(explored).spec_dims() == old(explored).spec_dims(),
        final(visible).spec_dims() == old(visible).spec_dims(),
        player is None ==> *final(explored) == *old(explored) && *final(visible) == *old(visible),
        player matches Some(p) ==> {
            let radius = if viewport.x > viewport.y {
                viewport.x as int
            } else {
                viewport.y as int
            };
            &&& forall|x: int, y: int|
                opaque.in_bounds(x, y) ==> #[trigger] final(visible).cell(x, y) == in_sight(
                    *opaque,
                    *grid,
                    p,
                    radius,
                    x,
                    y,
                )
            &&& forall|x: int, y: int|
                opaque.in_bounds(x, y) ==> #[trigger] final(explored).cell(x, y) == (old(explored).cell(x, y)
                    || final(visible).cell(x, y))
            &&& final(visible).cell(p.x as int, p.y as int)
        },
{
    let radius = if viewport.x > viewport.y {
        viewport.x
    } else {
        viewport.y
    };
    if let Some(player_pos) = player {
        set_visible(opaque, visible, player_pos, radius);
        let ghost before = *visible;
        visible.set(player_pos, true);
        let ghost v1 = *visible;
        proof {
            assert forall|x: int, y: int| opaque.in_bounds(x, y) implies #[trigger] v1.cell(x, y)
                == first_sight(*opaque, player_pos, radius as int, x, y) by {}
            assert forall|x: int, y: int|
                in_square(player_pos, radius as int, x, y) && !v1.in_bounds(x, y) implies !#[trigger] lit_by_neighbour(
                *grid,
                v1,
                x,
                y,
            ) by {
                lemma_lit_equiv(*opaque, *grid, v1, player_pos, radius as int, x, y);
            }
        }
        flood_vizibility(grid, visible, player_pos, radius);
        proof {
            assert forall|x: int, y: int| opaque.in_bounds(x, y) implies #[trigger] visible.cell(x, y)
                == in_sight(*opaque, *grid, player_pos, radius as int, x, y) by {
                lemma_lit_equiv(*opaque, *grid, v1, player_pos, radius as int, x, y);
            }
        }
        explored.or_eq(visible);
        proof {
            explored.lemma_len();
            assert forall|x: int, y: int| opaque.in_bounds(x, y) implies #[trigger] explored.cell(x, y)
                == (old(explored).cell(x, y) || visible.cell(x, y)) by {
                crate::grid::lemma_cell_offset(opaque.spec_width(), opaque.spec_height(), x, y);
            }
        }
    }
}


/// Cell `(x, y)` lies on the grid inside the view of `viewport` cells either side of `camera`.
pub open spec fn in_view(explored: Grid<bool>, camera: Vec2, viewport: Vec2, x: int, y: int) -> bool {
    &&& explored.in_bounds(x, y)
    &&& camera.x - viewport.x <= x <= camera.x + viewport.x
    &&& camera.y - viewport.y <= y <= camera.y + viewport.y
}

/// What the screen shows: every explored cell in view, row by row, with whether it is
/// visible now (drawn bright) or only remembered (drawn dim). Unexplored cells stay blank.
pub fn render_plan(explored: &Grid<bool>, visible: &Grid<bool>, camera: Vec2, viewport: Vec2) -> (r: Vec<(Vec2, bool)>)
    requires
        explored.wf(),
        visible.wf(),
        visible.spec_dims() == explored.spec_dims(),
    ensures
        forall|i: int|
            0 <= i < r@.len() ==> {
                let (p, lit) = #[trigger] r@[i];
                &&& in_view(*explored, camera, viewport, p.x as int, p.y as int)
                &&& explored.cell(p.x as int, p.y as int)
                &&& lit == visible.cell(p.x as int, p.y as int)
            },
        forall|x: int, y: int|
            in_view(*explored, camera, viewport, x, y) && #[trigger] explored.cell(x, y) ==> exists|i: int|
                0 <= i < r@.len() && (#[trigger] r@[i]).0 == (Vec2 { x: x as i32, y: y as i32 }),
        forall|i: int, j: int| 0 <= i < j < r@.len() ==> row_major_before((#[trigger] r@[i]).0, (#[trigger] r@[j]).0),
{
    let mut r: Vec<(Vec2, bool)> = Vec::new();
    let lo_x: i64 = if camera.x as i64 - viewport.x as i64 > 0 { camera.x as i64 - viewport.x as i64 } else { 0 };
    let lo_y: i64 = if camera.y as i64 - viewport.y as i64 > 0 { camera.y as i64 - viewport.y as i64 } else { 0 };
    let w = explored.width() as i64;
    let h = explored.height() as i64;
    let hi_x: i64 = if camera.x as i64 + viewport.x as i64 + 1 < w { camera.x as i64 + viewport.x as i64 + 1 } else { w };
    let hi_y: i64 = if camera.y as i64 + viewport.y as i64 + 1 < h { camera.y as i64 + viewport.y as i64 + 1 } else { h };
    let mut y: i64 = lo_y;
    while y < hi_y
        invariant
            explored.wf(),
            visible.wf(),
            visible.spec_dims() == explored.spec_dims(),
            w == explored.spec_width(),
            h == explored.spec_height(),
            lo_x == if camera.x - viewport.x > 0 { camera.x - viewport.x } else { 0int },
            lo_y == if camera.y - viewport.y > 0 { camera.y - viewport.y } else { 0int },
            hi_x == if camera.x + viewport.x + 1 < w { camera.x + viewport.x + 1 } else { w as int },
            hi_y == if camera.y + viewport.y + 1 < h { camera.y + viewport.y + 1 } else { h as int },
            lo_y <= y,
            y <= hi_y || hi_y < lo_y,
            forall|i: int|
                0 <= i < r@.len() ==> {
                    let (p, lit) = #[trigger] r@[i];
                    &&& in_view(*explored, camera, viewport, p.x as int, p.y as int)
                    &&& explored.cell(p.x as int, p.y as int)
                    &&& lit == visible.cell(p.x as int, p.y as int)
                    &&& p.y < y
                },
            forall|xx: int, yy: int|
                in_view(*explored, camera, viewport, xx, yy) && yy < y && #[trigger] explored.cell(xx, yy) ==> exists|i: int|
                    0 <= i < r@.len() && (#[trigger] r@[i]).0 == (Vec2 { x: xx as i32, y: yy as i32 }),
            forall|i: int, j: int| 0 <= i < j < r@.len() ==> row_major_before((#[trigger] r@[i]).0, (#[trigger] r@[j]).0),
        decreases hi_y - y,
    {
        let mut x: i64 = lo_x;
        while x < hi_x
            invariant
                explored.wf(),
                visible.wf(),
                visible.spec_dims() == explored.spec_dims(),
                w == explored.spec_width(),
                h == explored.spec_height(),
                lo_x == if camera.x - viewport.x > 0 { camera.x - viewport.x } else { 0int },
                hi_x == if camera.x + viewport.x + 1 < w { camera.x + viewport.x + 1 } else { w as int },
                lo_y == if camera.y - viewport.y > 0 { camera.y - viewport.y } else { 0int },
                hi_y == if camera.y + viewport.y + 1 < h { camera.y + viewport.y + 1 } else { h as int },
                lo_y <= y < hi_y,
                lo_x <= x,
                x <= hi_x || hi_x < lo_x,
                forall|i: int|
                    0 <= i < r@.len() ==> {
                        let (p, lit) = #[trigger] r@[i];
                        &&& in_view(*explored, camera, viewport, p.x as int, p.y as int)
                        &&& explored.cell(p.x as int, p.y as int)
                        &&& lit == visible.cell(p.x as int, p.y as int)
                        &&& (p.y < y || (p.y == y && p.x < x))
                    },
                forall|xx: int, yy: int|
                    in_view(*explored, camera, viewport, xx, yy) && (yy < y || (yy == y && xx < x)) && #[trigger] explored.cell(xx, yy)
                        ==> exists|i: int| 0 <= i < r@.len() && (#[trigger] r@[i]).0 == (Vec2 { x: xx as i32, y: yy as i32 }),
                forall|i: int, j: int| 0 <= i < j < r@.len() ==> row_major_before((#[trigger] r@[i]).0, (#[trigger] r@[j]).0),
            decreases hi_x - x,
        {
            let pos = Vec2::new(x as i32, y as i32);
            if *explored.get(pos) {
                let lit = *visible.get(pos);
                let ghost before = r@;
                r.push((pos, lit));
                proof {
                    assert(r@[before.len() as int] == (pos, lit));
                    assert forall|xx: int, yy: int|
                        in_view(*explored, camera, viewport, xx, yy) && (yy < y || (yy == y && xx < x + 1)) && #[trigger] explored.cell(xx, yy)
                            implies exists|i: int| 0 <= i < r@.len() && (#[trigger] r@[i]).0 == (Vec2 { x: xx as i32, y: yy as i32 }) by {
                        if yy == y && xx == x {
                            assert(r@[before.len() as int].0 == Vec2 { x: xx as i32, y: yy as i32 });
                        } else {
                            let i = choose|i: int| 0 <= i < before.len() && (#[trigger] before[i]).0 == (Vec2 { x: xx as i32, y: yy as i32 });
                            assert(r@[i] == before[i]);
                        }
                    }
                }
            }
            x = x + 1;
        }
        y = y + 1;
    }
    r
}

} // verus!

//! A* search on the world grid, with a walk kept in a small vector.
use vstd::prelude::*;

use smallvec::SmallVec;

use crate::components::{EntityId, Stuff};
use crate::grid::{cell_offset, lemma_cell_offset, lemma_cell_offset_injective, Grid};
use crate::math::{manhattan_dist, Vec2};

verus! {

/// A walk through the grid, kept in a `SmallVec<[Vec2; 16]>`; it is followed by popping its
/// last position.
#[verifier::external_body]
#[derive(Debug)]
pub struct Path {
    steps: SmallVec<[Vec2; 16]>,
}

/// The positions a [`Path`] holds, first to last.
pub uninterp spec fn path_steps(p: Path) -> Seq<Vec2>;

/// The path a monster is following.
#[derive(Debug)]
pub struct PathCache {
    pub path: Path,
}

impl Default for PathCache {
    fn default() -> (r: PathCache)
        ensures
            path_steps(r.path) == Seq::<Vec2>::empty(),
    {
        PathCache { path: path_new() }
    }
}

impl PathCache {
    /// Number of steps left on the path.
    pub fn len(&self) -> (r: usize)
        ensures
            r == path_steps(self.path).len(),
    {
        path_len(&self.path)
    }

    /// The next step of the path (its last element), taken off it.
    pub fn next_step(&mut self) -> (r: Option<Vec2>)
        ensures
            path_steps(old(self).path).len() == 0 ==> r is None && path_steps(final(self).path) == path_steps(old(self).path),
            path_steps(old(self).path).len() > 0 ==> r == Some(path_steps(old(self).path).last())
                && path_steps(final(self).path) == path_steps(old(self).path).drop_last(),
    {
        path_pop(&mut self.path)
    }
}

/// `SmallVec::new`: an empty vector.
#[verifier::external_body]
pub(crate) fn path_new() -> (r: Path)
    ensures
        path_steps(r) == Seq::<Vec2>::empty(),
{
    Path { steps: SmallVec::new() }
}

/// `SmallVec::push`: appends `v`; it grows its storage, so the length stays below `isize::MAX`.
#[verifier::external_body]
pub(crate) fn path_push(p: &mut Path, v: Vec2)
    requires
        path_steps(*old(p)).len() < isize::MAX,
    ensures
        path_steps(*final(p)) == path_steps(*old(p)).push(v),
{
    p.steps.push(v);
}

/// `SmallVec::pop`: takes the last element off, if there is one.
#[verifier::external_body]
pub(crate) fn path_pop(p: &mut Path) -> (r: Option<Vec2>)
    ensures
        path_steps(*old(p)).len() == 0 ==> r is None && path_steps(*final(p)) == path_steps(*old(p)),
        path_steps(*old(p)).len() > 0 ==> r == Some(path_steps(*old(p)).last()) && path_steps(
            *final(p),
        ) == path_steps(*old(p)).drop_last(),
{
    p.steps.pop()
}

/// `SmallVec::clear`: removes every element.
#[verifier::external_body]
pub(crate) fn path_clear(p: &mut Path)
    ensures
        path_steps(*final(p)) == Seq::<Vec2>::empty(),
{
    p.steps.clear();
}

/// `last` of the vector's slice: its last element, if there is one.
#[verifier::external_body]
pub(crate) fn path_last(p: &Path) -> (r: Option<Vec2>)
    ensures
        path_steps(*p).len() == 0 ==> r is None,
        path_steps(*p).len() > 0 ==> r == Some(path_steps(*p).last()),
{
    p.steps.last().copied()
}

/// Indexing a `SmallVec` (through its slice): element `i`, which exists.
#[verifier::external_body]
pub(crate) fn path_get(p: &Path, i: usize) -> (r: Vec2)
    requires
        i < path_steps(*p).len(),
    ensures
        r == path_steps(*p)[i as int],
{
    p.steps[i]
}

/// `SmallVec::len`: the number of elements.
#[verifier::external_body]
pub(crate) fn path_len(p: &Path) -> (r: usize)
    ensures
        r == path_steps(*p).len(),
{
    p.steps.len()
}

/// A searched position with its cost so far and its estimated cost to the goal.
#[derive(Clone, Copy, Debug)]
pub struct Node {
    pub hcost: i32,
    pub gcost: i32,
    pub pos: Vec2,
}

impl Node {
    /// Priority of the node, highest first: the cheapest estimate has the highest value.
    pub fn fcost(self) -> (r: i32)
        requires
            crate::math::fits_i32(self.hcost + self.gcost),
            self.hcost + self.gcost != i32::MIN,
        ensures
            r == -(self.hcost + self.gcost),
    {
        -(self.hcost + self.gcost)
    }
}

/// Storage offset of position `p` in a grid `w` cells wide.
pub open spec fn pos_index(w: int, p: Vec2) -> int {
    cell_offset(w, p.x as int, p.y as int)
}

/// Extra cost of stepping onto a cell: an entity that is not walkable is in the way.
pub open spec fn step_penalty(cell: Stuff, walkies: Seq<EntityId>) -> int {
    match cell {
        Some(id) => if walkies.contains(id) {
            0
        } else {
            50
        },
        None => 0,
    }
}

/// Sizes for which every cost and distance of the search fits an `i32`.
pub open spec fn search_fits(grid: &Grid<Stuff>, to: Vec2) -> bool {
    &&& grid.spec_width() * grid.spec_height() <= 0x100_0000
    &&& -0x1000_0000 <= to.x <= 0x1000_0000
    &&& -0x1000_0000 <= to.y <= 0x1000_0000
}

/// `s` is a walk of unit steps inside `grid`, from a cell next to `to` back to a cell next to `from`.
pub open spec fn is_walk_between(s: Seq<Vec2>, grid: &Grid<Stuff>, from: Vec2, to: Vec2) -> bool {
    &&& s.len() >= 1
    &&& s[0].manhattan_spec(to) <= 1
    &&& s.last().manhattan_spec(from) <= 1
    &&& forall|i: int|
        0 <= i < s.len() ==> grid.in_bounds(#[trigger] s[i].x as int, s[i].y as int)
    &&& forall|i: int| 0 <= i < s.len() - 1 ==> (#[trigger] s[i]).manhattan_spec(s[i + 1]) == 1
}

/// Potential of a cell's cost for the termination measure: unrecorded cells weigh the most.
pub open spec fn cost_potential(g: i32, cap: int) -> int {
    if g >= 0 {
        g + 1
    } else {
        cap + 2
    }
}

/// Sum of the potentials of all costs.
pub open spec fn potential(gs: Seq<i32>, cap: int) -> int
    decreases gs.len(),
{
    if gs.len() == 0 {
        0
    } else {
        potential(gs.drop_last(), cap) + cost_potential(gs.last(), cap)
    }
}

/// Number of cells with a recorded cost.
pub open spec fn recorded_count(gs: Seq<i32>) -> int
    decreases gs.len(),
{
    if gs.len() == 0 {
        0
    } else {
        recorded_count(gs.drop_last()) + if gs.last() >= 0 {
            1int
        } else {
            0
        }
    }
}

proof fn lemma_potential_update(gs: Seq<i32>, i: int, v: i32, cap: int)
    requires
        0 <= i < gs.len(),
    ensures
        potential(gs.update(i, v), cap) == potential(gs, cap) - cost_potential(gs[i], cap)
            + cost_potential(v, cap),
        recorded_count(gs.update(i, v)) == recorded_count(gs) - (if gs[i] >= 0 {
            1int
        } else {
            0
        }) + (if v >= 0 {
            1int
        } else {
            0
        }),
    decreases gs.len(),
{
    if i < gs.len() - 1 {
        assert(gs.update(i, v).drop_last() =~= gs.drop_last().update(i, v));
        lemma_potential_update(gs.drop_last(), i, v, cap);
    } else {
        assert(gs.update(i, v).drop_last() =~= gs.drop_last());
    }
}

proof fn lemma_potential_bounds(gs: Seq<i32>, cap: int)
    requires
        cap >= 0,
        forall|i: int| 0 <= i < gs.len() ==> gs[i] >= -1,
    ensures
        potential(gs, cap) >= 0,
        0 <= recorded_count(gs) <= gs.len(),
    decreases gs.len(),
{
    if gs.len() > 0 {
        lemma_potential_bounds(gs.drop_last(), cap);
    }
}

/// Whether `id` is one of `walkies`.
fn is_walkable(walkies: &Vec<EntityId>, id: EntityId) -> (r: bool)
    ensures
        r == walkies@.contains(id),
{
    let n = walkies.len();
    let mut i: usize = 0;
    while i < n
        invariant
            n == walkies@.len(),
            i <= n,
            forall|j: int| 0 <= j < i ==> walkies@[j] != id,
        decreases n - i,
    {
        if walkies[i] == id {
            return true;
        }
        i = i + 1;
    }
    false
}


/// The search's costs and predecessors: every recorded cell other than `from`
/// has a recorded neighbour of smaller cost as its predecessor.
#[verifier::opaque]
pub open spec fn chain_inv(grid: &Grid<Stuff>, from: Vec2, gs: Seq<i32>, cf: Seq<Option<Vec2>>) -> bool {
    let w = grid.spec_width();
    let n = grid.cells().len();
    &&& gs.len() == n
    &&& cf.len() == n
    &&& forall|i: int| 0 <= i < n ==> -1 <= #[trigger] gs[i] <= 51 * recorded_count(gs)
    &&& gs[pos_index(w, from)] == 0
    &&& cf[pos_index(w, from)] is None
    &&& forall|p: Vec2|
        #![trigger gs[pos_index(w, p)]]
        grid.in_bounds(p.x as int, p.y as int) && gs[pos_index(w, p)] >= 0 && p != from ==> {
            &&& cf[pos_index(w, p)] matches Some(q)
            &&& grid.in_bounds(q.x as int, q.y as int)
            &&& gs[pos_index(w, q)] >= 0
            &&& q.manhattan_spec(p) == 1
            &&& gs[pos_index(w, q)] < gs[pos_index(w, p)]
        }
}

/// The open nodes lie in the grid at recorded cells, no cheaper than their cell's cost.
#[verifier::opaque]
pub open spec fn open_inv(grid: &Grid<Stuff>, to: Vec2, gs: Seq<i32>, open: Seq<Node>) -> bool {
    let w = grid.spec_width();
    forall|k: int|
        0 <= k < open.len() ==> {
            let node = #[trigger] open[k];
            &&& grid.in_bounds(node.pos.x as int, node.pos.y as int)
            &&& 0 <= gs[pos_index(w, node.pos)] <= node.gcost
            &&& node.gcost <= 51 * recorded_count(gs)
            &&& node.hcost == node.pos.manhattan_spec(to)
        }
}

/// Some cell of the grid lies at most one step from `to`: the cells where the search may stop.
pub open spec fn near_cell_exists(grid: &Grid<Stuff>, to: Vec2) -> bool {
    exists|x: int, y: int|
        grid.in_bounds(x, y) && #[trigger] manhattan_dist(x, y, to.x as int, to.y as int) <= 1
}

/// The cell at `(x, y)` has a recorded cost.
pub open spec fn rec_at(grid: &Grid<Stuff>, gs: Seq<i32>, x: int, y: int) -> bool {
    gs[cell_offset(grid.spec_width(), x, y)] >= 0
}

/// Every neighbour of `(x, y)` inside the grid has a recorded cost.
pub open spec fn closed_at(grid: &Grid<Stuff>, gs: Seq<i32>, x: int, y: int) -> bool {
    forall|a: int, b: int|
        grid.in_bounds(a, b) && manhattan_dist(a, b, x, y) == 1 ==> #[trigger] rec_at(grid, gs, a, b)
}

/// Some open node stands on `(x, y)`.
pub open spec fn open_at(open: Seq<Node>, x: int, y: int) -> bool {
    exists|k: int| #![trigger open[k]] 0 <= k < open.len() && open[k].pos.x == x && open[k].pos.y == y
}

/// Every recorded cell other than `(cx, cy)` either still has an open node, or lies more than
/// one step from `to` and has all its neighbours recorded.
#[verifier::opaque]
pub open spec fn frontier_except(
    grid: &Grid<Stuff>,
    to: Vec2,
    gs: Seq<i32>,
    open: Seq<Node>,
    cx: int,
    cy: int,
) -> bool {
    forall|x: int, y: int|
        grid.in_bounds(x, y) && #[trigger] rec_at(grid, gs, x, y) && (x != cx || y != cy) ==> {
            ||| open_at(open, x, y)
            ||| manhattan_dist(x, y, to.x as int, to.y as int) > 1 && closed_at(grid, gs, x, y)
        }
}

/// Every recorded cell either still has an open node, or lies more than one step from `to`
/// and has all its neighbours recorded.
#[verifier::opaque]
pub open spec fn frontier(grid: &Grid<Stuff>, to: Vec2, gs: Seq<i32>, open: Seq<Node>) -> bool {
    forall|x: int, y: int|
        grid.in_bounds(x, y) && #[trigger] rec_at(grid, gs, x, y) ==> {
            ||| open_at(open, x, y)
            ||| manhattan_dist(x, y, to.x as int, to.y as int) > 1 && closed_at(grid, gs, x, y)
        }
}

/// Rank of a unit step in the order the search tries them: right, down, left, up.
pub open spec fn step_rank(dx: int, dy: int) -> int {
    if dx == 1 {
        0
    } else if dy == 1 {
        1
    } else if dx == -1 {
        2
    } else {
        3
    }
}

/// At the start only `from` is recorded, and its node is the one open node.
proof fn lemma_frontier_init(grid: &Grid<Stuff>, to: Vec2, from: Vec2, gs: Seq<i32>, open: Seq<Node>)
    requires
        grid.wf(),
        grid.in_bounds(from.x as int, from.y as int),
        gs.len() == grid.cells().len(),
        forall|i: int| 0 <= i < gs.len() && i != pos_index(grid.spec_width(), from) ==> gs[i] == -1,
        open.len() == 1,
        open[0].pos == from,
    ensures
        frontier(grid, to, gs, open),
{
    reveal(frontier);
    let w = grid.spec_width();
    let h = grid.spec_height();
    grid.lemma_len();
    assert forall|x: int, y: int| grid.in_bounds(x, y) && #[trigger] rec_at(grid, gs, x, y) implies open_at(
        open,
        x,
        y,
    ) by {
        lemma_cell_offset(w, h, x, y);
        lemma_cell_offset(w, h, from.x as int, from.y as int);
        if cell_offset(w, x, y) == pos_index(w, from) {
            lemma_cell_offset_injective(w, x, y, from.x as int, from.y as int);
        }
        assert(open[0].pos.x == x && open[0].pos.y == y);
    }
}

/// Taking node `bi` out of the open list keeps the frontier for every cell but its own.
proof fn lemma_frontier_pop(grid: &Grid<Stuff>, to: Vec2, gs: Seq<i32>, open: Seq<Node>, bi: int)
    requires
        frontier(grid, to, gs, open),
        0 <= bi < open.len(),
    ensures
        frontier_except(grid, to, gs, open.remove(bi), open[bi].pos.x as int, open[bi].pos.y as int),
{
    reveal(frontier);
    reveal(frontier_except);
    let c = open[bi].pos;
    let open2 = open.remove(bi);
    assert forall|x: int, y: int|
        grid.in_bounds(x, y) && #[trigger] rec_at(grid, gs, x, y) && (x != c.x || y != c.y) implies {
        ||| open_at(open2, x, y)
        ||| manhattan_dist(x, y, to.x as int, to.y as int) > 1 && closed_at(grid, gs, x, y)
    } by {
        if open_at(open, x, y) {
            let k = choose|k: int| #![trigger open[k]] 0 <= k < open.len() && open[k].pos.x == x && open[k].pos.y == y;
            if k < bi {
                assert(open2[k] == open[k]);
            } else {
                assert(open2[k - 1] == open[k]);
            }
        }
    }
}

/// Recording cell `(px, py)` and pushing its node keeps the frontier, and no recorded cell
/// becomes unrecorded.
proof fn lemma_frontier_record(
    grid: &Grid<Stuff>,
    to: Vec2,
    gs: Seq<i32>,
    open: Seq<Node>,
    cx: int,
    cy: int,
    node: Node,
    cost: i32,
)
    requires
        grid.wf(),
        gs.len() == grid.cells().len(),
        frontier_except(grid, to, gs, open, cx, cy),
        grid.in_bounds(node.pos.x as int, node.pos.y as int),
        cost >= 0,
    ensures
        ({
            let gs2 = gs.update(pos_index(grid.spec_width(), node.pos), cost);
            &&& frontier_except(grid, to, gs2, open.push(node), cx, cy)
            &&& rec_at(grid, gs2, node.pos.x as int, node.pos.y as int)
            &&& forall|a: int, b: int|
                grid.in_bounds(a, b) && rec_at(grid, gs, a, b) ==> #[trigger] rec_at(grid, gs2, a, b)
        }),
{
    reveal(frontier_except);
    let w = grid.spec_width();
    let h = grid.spec_height();
    let px = node.pos.x as int;
    let py = node.pos.y as int;
    let gs2 = gs.update(pos_index(w, node.pos), cost);
    let open2 = open.push(node);
    grid.lemma_len();
    lemma_cell_offset(w, h, px, py);
    assert forall|a: int, b: int| grid.in_bounds(a, b) && (a != px || b != py) implies gs2[cell_offset(
        w,
        a,
        b,
    )] == gs[cell_offset(w, a, b)] by {
        lemma_cell_offset(w, h, a, b);
        if cell_offset(w, a, b) == cell_offset(w, px, py) {
            lemma_cell_offset_injective(w, a, b, px, py);
        }
    }
    assert forall|a: int, b: int|
        grid.in_bounds(a, b) && rec_at(grid, gs, a, b) implies #[trigger] rec_at(grid, gs2, a, b) by {
        if a != px || b != py {
            assert(gs2[cell_offset(w, a, b)] == gs[cell_offset(w, a, b)]);
        }
    }
    assert forall|x: int, y: int|
        grid.in_bounds(x, y) && #[trigger] rec_at(grid, gs2, x, y) && (x != cx || y != cy) implies {
        ||| open_at(open2, x, y)
        ||| manhattan_dist(x, y, to.x as int, to.y as int) > 1 && closed_at(grid, gs2, x, y)
    } by {
        if x == px && y == py {
            assert(open2[open.len() as int] == node);
        } else {
            assert(gs2[cell_offset(w, x, y)] == gs[cell_offset(w, x, y)]);
            assert(rec_at(grid, gs, x, y));
            if open_at(open, x, y) {
                let k = choose|k: int| #![trigger open[k]] 0 <= k < open.len() && open[k].pos.x == x && open[k].pos.y == y;
                assert(open2[k] == open[k]);
            } else {
                assert forall|a: int, b: int|
                    grid.in_bounds(a, b) && manhattan_dist(a, b, x, y) == 1 implies #[trigger] rec_at(
                    grid,
                    gs2,
                    a,
                    b,
                ) by {
                    assert(rec_at(grid, gs, a, b));
                }
            }
        }
    }
}

/// Once the popped cell `(cx, cy)` is far from `to` and has all its neighbours recorded, the
/// frontier holds for every cell.
proof fn lemma_frontier_close(grid: &Grid<Stuff>, to: Vec2, gs: Seq<i32>, open: Seq<Node>, cx: int, cy: int)
    requires
        frontier_except(grid, to, gs, open, cx, cy),
        manhattan_dist(cx, cy, to.x as int, to.y as int) > 1,
        closed_at(grid, gs, cx, cy),
    ensures
        frontier(grid, to, gs, open),
{
    reveal(frontier);
    reveal(frontier_except);
    assert forall|x: int, y: int| grid.in_bounds(x, y) && #[trigger] rec_at(grid, gs, x, y) implies {
        ||| open_at(open, x, y)
        ||| manhattan_dist(x, y, to.x as int, to.y as int) > 1 && closed_at(grid, gs, x, y)
    } by {
        if x != cx || y != cy {
            assert(rec_at(grid, gs, x, y));
        }
    }
}

/// When the recorded cells include `from` and each has all its neighbours recorded, every
/// cell of the grid is recorded: the grid is connected by unit steps.
proof fn lemma_reach_all(grid: &Grid<Stuff>, gs: Seq<i32>, fx: int, fy: int, x: int, y: int)
    requires
        grid.in_bounds(fx, fy),
        grid.in_bounds(x, y),
        rec_at(grid, gs, fx, fy),
        forall|a: int, b: int|
            grid.in_bounds(a, b) && #[trigger] rec_at(grid, gs, a, b) ==> closed_at(grid, gs, a, b),
    ensures
        rec_at(grid, gs, x, y),
    decreases manhattan_dist(x, y, fx, fy),
{
    if x != fx || y != fy {
        let (a, b) = if x < fx {
            (x + 1, y)
        } else if x > fx {
            (x - 1, y)
        } else if y < fy {
            (x, y + 1)
        } else {
            (x, y - 1)
        };
        lemma_reach_all(grid, gs, fx, fy, a, b);
        assert(closed_at(grid, gs, a, b));
        assert(manhattan_dist(x, y, a, b) == 1);
    }
}

/// What the predecessor bookkeeping tells of one recorded cell.
proof fn lemma_chain_facts(
    grid: &Grid<Stuff>,
    from: Vec2,
    gs: Seq<i32>,
    cf: Seq<Option<Vec2>>,
    p: Vec2,
)
    requires
        grid.wf(),
        chain_inv(grid, from, gs, cf),
        grid.in_bounds(p.x as int, p.y as int),
    ensures
        gs.len() == grid.cells().len(),
        cf.len() == grid.cells().len(),
        0 <= recorded_count(gs) <= grid.cells().len(),
        0 <= pos_index(grid.spec_width(), p) < grid.cells().len(),
        -1 <= gs[pos_index(grid.spec_width(), p)] <= 51 * recorded_count(gs),
        gs[pos_index(grid.spec_width(), from)] == 0,
        gs[pos_index(grid.spec_width(), p)] >= 0 && p != from ==> {
            let q = cf[pos_index(grid.spec_width(), p)]->0;
            &&& cf[pos_index(grid.spec_width(), p)] is Some
            &&& grid.in_bounds(q.x as int, q.y as int)
            &&& gs[pos_index(grid.spec_width(), q)] >= 0
            &&& q.manhattan_spec(p) == 1
            &&& gs[pos_index(grid.spec_width(), q)] < gs[pos_index(grid.spec_width(), p)]
        },
        gs[pos_index(grid.spec_width(), p)] >= 0 && cf[pos_index(grid.spec_width(), p)] is None
            ==> p == from,
        cf[pos_index(grid.spec_width(), from)] is None,
        gs[pos_index(grid.spec_width(), p)] < 0 ==> recorded_count(gs) < grid.cells().len(),
{
    reveal(chain_inv);
    grid.lemma_len();
    lemma_cell_offset(grid.spec_width(), grid.spec_height(), p.x as int, p.y as int);
    let i = pos_index(grid.spec_width(), p);
    assert(-1 <= gs[i] <= 51 * recorded_count(gs));
    assert forall|j: int| 0 <= j < gs.len() implies gs[j] >= -1 by {
        assert(-1 <= gs[j]);
    }
    lemma_potential_bounds(gs, 0);
    if gs[i] < 0 {
        lemma_count_below_len(gs, i);
    }
}

/// A sequence with an unrecorded entry has fewer recorded entries than its length.
proof fn lemma_count_below_len(gs: Seq<i32>, i: int)
    requires
        0 <= i < gs.len(),
        gs[i] < 0,
    ensures
        recorded_count(gs) < gs.len(),
    decreases gs.len(),
{
    if i < gs.len() - 1 {
        lemma_count_below_len(gs.drop_last(), i);
    } else {
        lemma_count_le_len(gs.drop_last());
    }
}

proof fn lemma_count_le_len(gs: Seq<i32>)
    ensures
        recorded_count(gs) <= gs.len(),
    decreases gs.len(),
{
    if gs.len() > 0 {
        lemma_count_le_len(gs.drop_last());
    }
}

/// What the open-node bookkeeping tells of node `k`.
proof fn lemma_open_node(grid: &Grid<Stuff>, to: Vec2, gs: Seq<i32>, open: Seq<Node>, k: int)
    requires
        open_inv(grid, to, gs, open),
        0 <= k < open.len(),
    ensures
        grid.in_bounds(open[k].pos.x as int, open[k].pos.y as int),
        0 <= gs[pos_index(grid.spec_width(), open[k].pos)] <= open[k].gcost,
        open[k].gcost <= 51 * recorded_count(gs),
        open[k].hcost == open[k].pos.manhattan_spec(to),
{
    reveal(open_inv);
    let node = open[k];
}

/// Removing a node keeps the open-node bookkeeping.
proof fn lemma_open_remove(grid: &Grid<Stuff>, to: Vec2, gs: Seq<i32>, open: Seq<Node>, k: int)
    requires
        open_inv(grid, to, gs, open),
        0 <= k < open.len(),
    ensures
        open_inv(grid, to, gs, open.remove(k)),
{
    reveal(open_inv);
    let open2 = open.remove(k);
    assert forall|j: int| 0 <= j < open2.len() implies {
        let node = #[trigger] open2[j];
        &&& grid.in_bounds(node.pos.x as int, node.pos.y as int)
        &&& 0 <= gs[pos_index(grid.spec_width(), node.pos)] <= node.gcost
        &&& node.gcost <= 51 * recorded_count(gs)
        &&& node.hcost == node.pos.manhattan_spec(to)
    } by {
        if j < k {
            assert(open2[j] == open[j]);
        } else {
            assert(open2[j] == open[j + 1]);
        }
    }
}

/// The bookkeeping right after `from` is recorded with cost 0.
proof fn lemma_search_init(
    grid: &Grid<Stuff>,
    from: Vec2,
    to: Vec2,
    gs: Seq<i32>,
    cf: Seq<Option<Vec2>>,
)
    requires
        grid.wf(),
        grid.in_bounds(from.x as int, from.y as int),
        gs.len() == grid.cells().len(),
        cf.len() == grid.cells().len(),
        forall|i: int| 0 <= i < gs.len() && i != pos_index(grid.spec_width(), from) ==> gs[i] == -1,
        gs[pos_index(grid.spec_width(), from)] == 0,
        forall|i: int| 0 <= i < cf.len() ==> cf[i] is None,
        from.manhattan_spec(to) <= i32::MAX,
    ensures
        chain_inv(grid, from, gs, cf),
        open_inv(
            grid,
            to,
            gs,
            seq![Node { hcost: from.manhattan_spec(to) as i32, gcost: 0, pos: from }],
        ),
{
    reveal(chain_inv);
    reveal(open_inv);
    let w = grid.spec_width();
    let h = grid.spec_height();
    let fi = pos_index(w, from);
    grid.lemma_len();
    lemma_cell_offset(w, h, from.x as int, from.y as int);
    lemma_potential_bounds(gs, 0);
    assert(gs[fi] >= 0);
    assert(recorded_count(gs) >= 0);
    assert forall|p: Vec2|
        #![trigger gs[pos_index(w, p)]]
        grid.in_bounds(p.x as int, p.y as int) && gs[pos_index(w, p)] >= 0 implies p == from by {
        lemma_cell_offset(w, h, p.x as int, p.y as int);
        if pos_index(w, p) == fi {
            lemma_cell_offset_injective(w, p.x as int, p.y as int, from.x as int, from.y as int);
        }
    }
    let open = seq![Node { hcost: from.manhattan_spec(to) as i32, gcost: 0, pos: from }];
    assert(open[0].pos == from);
}

/// return wether a path was found
///
/// uses manhatten distance
///
/// stops at 1 tile from `to`
///
/// the path is returned in reverse order, to walk it pop() the path vector
pub fn find_path(
    from: Vec2,
    to: Vec2,
    grid: &Grid<Stuff>,
    walkies: &Vec<EntityId>,
    path: &mut Path,
) -> (found: bool)
    requires
        grid.wf(),
        grid.in_bounds(from.x as int, from.y as int),
        search_fits(grid, to),
        path_steps(*old(path)).len() + 52 * grid.cells().len() < isize::MAX,
    ensures
        found <==> near_cell_exists(grid, to),
        !found ==> path_steps(*final(path)) == path_steps(*old(path)),
        found ==> exists|seg: Seq<Vec2>|
            #![trigger is_walk_between(seg, grid, from, to)]
            is_walk_between(seg, grid, from, to) && path_steps(*final(path)) == path_steps(
                *old(path),
            ) + seg,
{
    proof {
        grid.lemma_len();
        lemma_coords_small(grid, from);
    }
    let w = grid.width();
    let h = grid.height();
    let n: usize = (w * h) as usize;
    let ghost cap: int = 51 * n;
    let mut gcost: Vec<i32> = Vec::new();
    let mut came_from: Vec<Option<Vec2>> = Vec::new();
    let mut k: usize = 0;
    while k < n
        invariant
            k <= n,
            gcost@.len() == k,
            came_from@.len() == k,
            forall|i: int| 0 <= i < k ==> gcost@[i] == -1,
            forall|i: int| 0 <= i < k ==> came_from@[i] is None,
        decreases n - k,
    {
        gcost.push(-1);
        came_from.push(None);
        k = k + 1;
    }
    proof {
        lemma_cell_offset(w as int, h as int, from.x as int, from.y as int);
    }
    let fi = (from.y * w + from.x) as usize;
    gcost.set(fi, 0);
    let mut open: Vec<Node> = Vec::new();
    open.push(Node { hcost: from.manhatten(to), gcost: 0, pos: from });
    proof {
        lemma_search_init(grid, from, to, gcost@, came_from@);
        assert(open@ =~= seq![Node { hcost: from.manhattan_spec(to) as i32, gcost: 0, pos: from }]);
        lemma_frontier_init(grid, to, from, gcost@, open@);
    }
    while open.len() > 0
        invariant
            grid.wf(),
            grid.in_bounds(from.x as int, from.y as int),
            search_fits(grid, to),
            w == grid.spec_width(),
            h == grid.spec_height(),
            n == grid.cells().len(),
            n == w * h,
            cap == 51 * n,
            n <= 0x100_0000,
            gcost@.len() == n,
            came_from@.len() == n,
            path_steps(*path) == path_steps(*old(path)),
            path_steps(*old(path)).len() + 52 * n < isize::MAX,
            chain_inv(grid, from, gcost@, came_from@),
            open_inv(grid, to, gcost@, open@),
            frontier(grid, to, gcost@, open@),
        decreases potential(gcost@, cap), open@.len(),
    {
        let ghost phi0 = potential(gcost@, cap);
        let ghost len0 = open@.len();
        proof {
            lemma_chain_facts(grid, from, gcost@, came_from@, from);
        }
        let bi = best_node(&open, grid, to, Ghost(gcost@));
        let ghost open_before = open@;
        let current = open.remove(bi);
        proof {
            lemma_open_node(grid, to, gcost@, open_before, bi as int);
            lemma_open_remove(grid, to, gcost@, open_before, bi as int);
            lemma_coords_small(grid, current.pos);
            lemma_frontier_pop(grid, to, gcost@, open_before, bi as int);
        }
        if current.pos.manhatten(to) <= 1 {
            proof {
                lemma_chain_facts(grid, from, gcost@, came_from@, current.pos);
                assert(manhattan_dist(current.pos.x as int, current.pos.y as int, to.x as int, to.y as int) <= 1);
            }
            let seg = reconstruct_path(from, current.pos, grid, &gcost, &came_from, path);
            proof {
                assert(is_walk_between(seg@, grid, from, to));
            }
            return true;
        }
        let new_g = current.gcost + 1;
        let mut d: usize = 0;
        let ghost mut pushes: int = 0;
        while d < 4
            invariant
                grid.wf(),
                grid.in_bounds(from.x as int, from.y as int),
                search_fits(grid, to),
                w == grid.spec_width(),
                h == grid.spec_height(),
                n == grid.cells().len(),
                n == w * h,
                cap == 51 * n,
                n <= 0x100_0000,
                gcost@.len() == n,
                came_from@.len() == n,
                path_steps(*path) == path_steps(*old(path)),
                d <= 4,
                grid.in_bounds(current.pos.x as int, current.pos.y as int),
                0 <= gcost@[pos_index(w as int, current.pos)] <= current.gcost,
                current.gcost <= 51 * recorded_count(gcost@),
                new_g == current.gcost + 1,
                chain_inv(grid, from, gcost@, came_from@),
                open_inv(grid, to, gcost@, open@),
                pushes >= 0,
                potential(gcost@, cap) + pushes <= phi0,
                open@.len() == len0 - 1 + pushes,
                frontier_except(grid, to, gcost@, open@, current.pos.x as int, current.pos.y as int),
                manhattan_dist(current.pos.x as int, current.pos.y as int, to.x as int, to.y as int) > 1,
                forall|a: int, b: int|
                    grid.in_bounds(a, b) && manhattan_dist(a, b, current.pos.x as int, current.pos.y as int)
                        == 1 && step_rank(a - current.pos.x, b - current.pos.y) < d ==> #[trigger] rec_at(
                        grid,
                        gcost@,
                        a,
                        b,
                    ),
            decreases 4 - d,
        {
            let delta = neighbour_step(d);
            let pos = Vec2::new(current.pos.x + delta.x, current.pos.y + delta.y);
            if grid.contains(pos.x, pos.y) {
                proof {
                    lemma_coords_small(grid, pos);
                    lemma_chain_facts(grid, from, gcost@, came_from@, pos);
                }
                let cell = *grid.get(pos);
                let extra: i32 = match cell {
                    Some(id) => if is_walkable(walkies, id) {
                        0
                    } else {
                        50
                    },
                    None => 0,
                };
                let cost = new_g + extra;
                let pi = (pos.y * w + pos.x) as usize;
                let old_cost = gcost[pi];
                if old_cost < 0 || cost < old_cost {
                    let ghost gs_before = gcost@;
                    let ghost cf_before = came_from@;
                    let ghost open_before = open@;
                    proof {
                        lemma_potential_update(gcost@, pi as int, cost, cap);
                    }
                    came_from.set(pi, Some(current.pos));
                    gcost.set(pi, cost);
                    let hc = pos.manhatten(to);
                    let node = Node { hcost: hc, gcost: cost, pos };
                    open.push(node);
                    proof {
                        lemma_frontier_record(
                            grid,
                            to,
                            gs_before,
                            open_before,
                            current.pos.x as int,
                            current.pos.y as int,
                            node,
                            cost,
                        );
                        pushes = pushes + 1;
                        lemma_cell_offset(w as int, h as int, current.pos.x as int, current.pos.y as int);
                        if pi as int == pos_index(w as int, current.pos) {
                            lemma_cell_offset_injective(
                                w as int,
                                pos.x as int,
                                pos.y as int,
                                current.pos.x as int,
                                current.pos.y as int,
                            );
                        }
                        lemma_record_step(
                            grid,
                            from,
                            to,
                            gs_before,
                            cf_before,
                            open_before,
                            current,
                            pos,
                            cost,
                        );
                    }
                }
            }
            d = d + 1;
        }
        proof {
            lemma_chain_facts(grid, from, gcost@, came_from@, from);
            lemma_potential_bounds_from_chain(grid, from, gcost@, came_from@, cap);
            lemma_frontier_close(grid, to, gcost@, open@, current.pos.x as int, current.pos.y as int);
        }
    }
    proof {
        lemma_chain_facts(grid, from, gcost@, came_from@, from);
        reveal(frontier);
        assert(rec_at(grid, gcost@, from.x as int, from.y as int));
        if near_cell_exists(grid, to) {
            let (x, y) = choose|x: int, y: int|
                grid.in_bounds(x, y) && #[trigger] manhattan_dist(x, y, to.x as int, to.y as int) <= 1;
            assert forall|a: int, b: int|
                grid.in_bounds(a, b) && #[trigger] rec_at(grid, gcost@, a, b) implies closed_at(
                grid,
                gcost@,
                a,
                b,
            ) by {
                assert(!open_at(open@, a, b));
            }
            lemma_reach_all(grid, gcost@, from.x as int, from.y as int, x, y);
            assert(!open_at(open@, x, y));
        }
    }
    false
}

/// The costs of a well-kept search are all at least `-1`, so the potential is not negative.
proof fn lemma_potential_bounds_from_chain(
    grid: &Grid<Stuff>,
    from: Vec2,
    gs: Seq<i32>,
    cf: Seq<Option<Vec2>>,
    cap: int,
)
    requires
        chain_inv(grid, from, gs, cf),
        cap >= 0,
    ensures
        potential(gs, cap) >= 0,
{
    reveal(chain_inv);
    assert forall|i: int| 0 <= i < gs.len() implies gs[i] >= -1 by {
        assert(-1 <= gs[i]);
    }
    lemma_potential_bounds(gs, cap);
}

/// Every cost is unrecorded, so none is counted.
proof fn lemma_all_unrecorded(gs: Seq<i32>)
    requires
        forall|i: int| 0 <= i < gs.len() ==> gs[i] == -1,
    ensures
        recorded_count(gs) == 0,
    decreases gs.len(),
{
    if gs.len() > 0 {
        lemma_all_unrecorded(gs.drop_last());
    }
}

/// The four axis-aligned steps: right, down, left, up.
fn neighbour_step(d: usize) -> (r: Vec2)
    requires
        d < 4,
    ensures
        d == 0 ==> r.x == 1 && r.y == 0,
        d == 1 ==> r.x == 0 && r.y == 1,
        d == 2 ==> r.x == -1 && r.y == 0,
        d == 3 ==> r.x == 0 && r.y == -1,
{
    if d == 0 {
        Vec2::new(1, 0)
    } else if d == 1 {
        Vec2::new(0, 1)
    } else if d == 2 {
        Vec2::new(-1, 0)
    } else {
        Vec2::new(0, -1)
    }
}

/// Index of an open node with the cheapest estimate (the first of the cheapest).
fn best_node(open: &Vec<Node>, grid: &Grid<Stuff>, to: Vec2, Ghost(gs): Ghost<Seq<i32>>) -> (r: usize)
    requires
        open@.len() > 0,
        grid.wf(),
        search_fits(grid, to),
        open_inv(grid, to, gs, open@),
        0 <= recorded_count(gs) <= grid.cells().len(),
    ensures
        r < open@.len(),
        forall|k: int|
            0 <= k < open@.len() ==> open@[r as int].hcost + open@[r as int].gcost
                <= #[trigger] open@[k].hcost + open@[k].gcost,
{
    proof {
        lemma_open_node(grid, to, gs, open@, 0);
        node_cost_bounds(open@[0], grid, to);
    }
    let mut best: usize = 0;
    let mut best_f = open[0].fcost();
    let n = open.len();
    let mut i: usize = 1;
    while i < n
        invariant
            n == open@.len(),
            1 <= i <= n,
            best < n,
            grid.wf(),
            search_fits(grid, to),
            open_inv(grid, to, gs, open@),
            0 <= recorded_count(gs) <= grid.cells().len(),
            best_f == -(open@[best as int].hcost + open@[best as int].gcost),
            forall|k: int|
                0 <= k < i ==> open@[best as int].hcost + open@[best as int].gcost
                    <= #[trigger] open@[k].hcost + open@[k].gcost,
        decreases n - i,
    {
        proof {
            lemma_open_node(grid, to, gs, open@, i as int);
            node_cost_bounds(open@[i as int], grid, to);
        }
        let f = open[i].fcost();
        if f > best_f {
            best = i;
            best_f = f;
        }
        i = i + 1;
    }
    best
}

/// The estimate of a node that lies in the grid fits an `i32`.
proof fn node_cost_bounds(node: Node, grid: &Grid<Stuff>, to: Vec2)
    requires
        grid.wf(),
        search_fits(grid, to),
        grid.in_bounds(node.pos.x as int, node.pos.y as int),
        0 <= node.gcost <= 51 * grid.cells().len(),
        node.hcost == node.pos.manhattan_spec(to),
    ensures
        0 <= node.hcost + node.gcost < 0x7000_0000,
{
    grid.lemma_len();
    lemma_coords_small(grid, node.pos);
}

/// A cell of a grid with at most `0x100_0000` cells has small coordinates.
proof fn lemma_coords_small(grid: &Grid<Stuff>, p: Vec2)
    requires
        grid.wf(),
        grid.spec_width() * grid.spec_height() <= 0x100_0000,
        grid.in_bounds(p.x as int, p.y as int),
    ensures
        0 <= p.x < 0x100_0000,
        0 <= p.y < 0x100_0000,
{
    let w = grid.spec_width();
    let h = grid.spec_height();
    assert(w <= w * h) by (nonlinear_arith)
        requires
            h >= 1,
            w >= 0,
    ;
    assert(h <= w * h) by (nonlinear_arith)
        requires
            w >= 1,
            h >= 0,
    ;
}

/// Recording `cost` for `pos`, reached from the popped node `current`, keeps the search's bookkeeping.
proof fn lemma_record_step(
    grid: &Grid<Stuff>,
    from: Vec2,
    to: Vec2,
    gs: Seq<i32>,
    cf: Seq<Option<Vec2>>,
    open: Seq<Node>,
    current: Node,
    pos: Vec2,
    cost: i32,
)
    requires
        grid.wf(),
        search_fits(grid, to),
        grid.in_bounds(from.x as int, from.y as int),
        chain_inv(grid, from, gs, cf),
        open_inv(grid, to, gs, open),
        grid.in_bounds(current.pos.x as int, current.pos.y as int),
        grid.in_bounds(pos.x as int, pos.y as int),
        current.pos.manhattan_spec(pos) == 1,
        0 <= gs[pos_index(grid.spec_width(), current.pos)] <= current.gcost,
        current.gcost <= 51 * recorded_count(gs),
        current.gcost + 1 <= cost <= current.gcost + 51,
        gs[pos_index(grid.spec_width(), pos)] < 0 || cost < gs[pos_index(grid.spec_width(), pos)],
    ensures
        chain_inv(
            grid,
            from,
            gs.update(pos_index(grid.spec_width(), pos), cost),
            cf.update(pos_index(grid.spec_width(), pos), Some(current.pos)),
        ),
        open_inv(
            grid,
            to,
            gs.update(pos_index(grid.spec_width(), pos), cost),
            open.push(Node { hcost: pos.manhattan_spec(to) as i32, gcost: cost, pos }),
        ),
{
    reveal(chain_inv);
    reveal(open_inv);
    let w = grid.spec_width();
    let h = grid.spec_height();
    let n = grid.cells().len();
    let pi = pos_index(w, pos);
    grid.lemma_len();
    lemma_coords_small(grid, pos);
    lemma_cell_offset(w, h, pos.x as int, pos.y as int);
    lemma_cell_offset(w, h, from.x as int, from.y as int);
    lemma_potential_update(gs, pi, cost, 51 * (n as int));
    let gs2 = gs.update(pi, cost);
    let cf2 = cf.update(pi, Some(current.pos));
    let open2 = open.push(Node { hcost: pos.manhattan_spec(to) as i32, gcost: cost, pos });
    assert(-1 <= gs[pi] <= 51 * recorded_count(gs));
    assert(recorded_count(gs2) >= recorded_count(gs));
    assert(cost <= 51 * recorded_count(gs2));
    if pos == from {
        assert(gs[pi] == 0);
    }
    assert(pos != from);
    assert forall|i: int| 0 <= i < n implies -1 <= #[trigger] gs2[i] <= 51 * recorded_count(gs2) by {
        if i != pi {
            assert(-1 <= gs[i] <= 51 * recorded_count(gs));
        }
    }
    let fi = pos_index(w, from);
    if fi == pi {
        lemma_cell_offset_injective(w, from.x as int, from.y as int, pos.x as int, pos.y as int);
    }
    assert forall|p: Vec2|
        #![trigger gs2[pos_index(w, p)]]
        grid.in_bounds(p.x as int, p.y as int) && gs2[pos_index(w, p)] >= 0 && p != from implies {
        &&& cf2[pos_index(w, p)] matches Some(q)
        &&& grid.in_bounds(q.x as int, q.y as int)
        &&& gs2[pos_index(w, q)] >= 0
        &&& q.manhattan_spec(p) == 1
        &&& gs2[pos_index(w, q)] < gs2[pos_index(w, p)]
    } by {
        lemma_cell_offset(w, h, p.x as int, p.y as int);
        if p == pos {
            let q = current.pos;
            lemma_cell_offset(w, h, q.x as int, q.y as int);
            if pos_index(w, q) == pi {
                lemma_cell_offset_injective(w, q.x as int, q.y as int, pos.x as int, pos.y as int);
            }
        } else {
            if pos_index(w, p) == pi {
                lemma_cell_offset_injective(w, p.x as int, p.y as int, pos.x as int, pos.y as int);
            }
            assert(gs[pos_index(w, p)] >= 0);
            let q = cf[pos_index(w, p)]->0;
            lemma_cell_offset(w, h, q.x as int, q.y as int);
            if pos_index(w, q) == pi {
                lemma_cell_offset_injective(w, q.x as int, q.y as int, pos.x as int, pos.y as int);
            }
        }
    }
    assert forall|k: int| 0 <= k < open2.len() implies {
        let node = #[trigger] open2[k];
        &&& grid.in_bounds(node.pos.x as int, node.pos.y as int)
        &&& 0 <= gs2[pos_index(w, node.pos)] <= node.gcost
        &&& node.gcost <= 51 * recorded_count(gs2)
        &&& node.hcost == node.pos.manhattan_spec(to)
    } by {
        if k < open.len() {
            let node = open[k];
            assert(open2[k] == node);
            lemma_cell_offset(w, h, node.pos.x as int, node.pos.y as int);
            if pos_index(w, node.pos) == pi {
                lemma_cell_offset_injective(
                    w,
                    node.pos.x as int,
                    node.pos.y as int,
                    pos.x as int,
                    pos.y as int,
                );
            }
        } else {
            lemma_coords_small(grid, pos);
        }
    }
}

/// Follow the predecessors from `pos` back towards `target`, pushing each position;
/// stop at the first one next to `target`.
fn reconstruct_path(
    target: Vec2,
    pos: Vec2,
    grid: &Grid<Stuff>,
    gcost: &Vec<i32>,
    came_from: &Vec<Option<Vec2>>,
    path: &mut Path,
) -> (seg: Ghost<Seq<Vec2>>)
    requires
        grid.wf(),
        grid.spec_width() * grid.spec_height() <= 0x100_0000,
        grid.in_bounds(target.x as int, target.y as int),
        grid.in_bounds(pos.x as int, pos.y as int),
        chain_inv(grid, target, gcost@, came_from@),
        gcost@[pos_index(grid.spec_width(), pos)] >= 0,
        path_steps(*old(path)).len() + 52 * grid.cells().len() < isize::MAX,
    ensures
        seg@.len() >= 1,
        seg@[0] == pos,
        seg@.last().manhattan_spec(target) <= 1,
        forall|i: int|
            0 <= i < seg@.len() ==> grid.in_bounds(#[trigger] seg@[i].x as int, seg@[i].y as int),
        forall|i: int|
            0 <= i < seg@.len() - 1 ==> (#[trigger] seg@[i]).manhattan_spec(seg@[i + 1]) == 1,
        path_steps(*final(path)) == path_steps(*old(path)) + seg@,
{
    let w = grid.width();
    let h = grid.height();
    proof {
        grid.lemma_len();
        lemma_chain_facts(grid, target, gcost@, came_from@, pos);
    }
    let ghost n = grid.cells().len();
    let ghost g0 = gcost@[pos_index(w as int, pos)];
    path_push(path, pos);
    let ghost mut seg: Seq<Vec2> = seq![pos];
    let mut cur = pos;
    proof {
        assert(path_steps(*path) == path_steps(*old(path)) + seg);
    }
    loop
        invariant
            grid.wf(),
            grid.spec_width() * grid.spec_height() <= 0x100_0000,
            w == grid.spec_width(),
            h == grid.spec_height(),
            n == grid.cells().len(),
            n == w * h,
            grid.in_bounds(target.x as int, target.y as int),
            chain_inv(grid, target, gcost@, came_from@),
            came_from@.len() == n,
            grid.in_bounds(cur.x as int, cur.y as int),
            0 <= gcost@[pos_index(w as int, cur)],
            g0 <= 51 * n,
            seg.len() + gcost@[pos_index(w as int, cur)] <= g0 + 1,
            seg.len() >= 1,
            seg[0] == pos,
            seg.last() == cur,
            forall|i: int|
                0 <= i < seg.len() ==> grid.in_bounds(#[trigger] seg[i].x as int, seg[i].y as int),
            forall|i: int|
                0 <= i < seg.len() - 1 ==> (#[trigger] seg[i]).manhattan_spec(seg[i + 1]) == 1,
            path_steps(*path) == path_steps(*old(path)) + seg,
            path_steps(*old(path)).len() + 52 * n < isize::MAX,
        decreases gcost@[pos_index(w as int, cur)],
    {
        proof {
            lemma_chain_facts(grid, target, gcost@, came_from@, cur);
        }
        let ci = (cur.y * w + cur.x) as usize;
        assert(ci as int == pos_index(w as int, cur));
        match came_from[ci] {
            None => {
                return Ghost(seg);
            },
            Some(p) => {
                proof {
                    lemma_coords_small(grid, p);
                    lemma_coords_small(grid, target);
                    seg = seg.push(p);
                }
                cur = p;
                path_push(path, cur);
                if cur.manhatten(target) <= 1 {
                    return Ghost(seg);
                }
            },
        }
    }
}

} // verus!

//! How monsters pick where to go and whom to hit.
use vstd::prelude::*;

use crate::components::{EntityId, Leash, Melee, Stuff};
use crate::fov::{line_clear, walk_grid_on_segment};
use crate::grid::Grid;
use crate::math::{fits_i32, Vec2};
use crate::pathfinder::{
    find_path, is_walk_between, near_cell_exists, path_clear, path_last, path_pop, path_push, path_steps,
    search_fits, Path, PathCache,
};
use crate::rng::{choose_one, skill_check, thread_rng};
use crate::systems::{compute_damage, spec_compute_damage};

verus! {

/// Whom a monster swings at.
#[derive(Clone, Copy, Debug, PartialEq, Eq, Structural)]
pub enum MeleeTarget {
    Nobody,
    /// The player, standing next to the monster.
    Player,
    /// Whatever a confused monster stumbles into.
    Occupant(EntityId),
}

/// A confused monster hits whatever is on the cell it is moving into; any other monster hits
/// the player when next to them.
pub fn melee_target(
    pos: Vec2,
    player_pos: Vec2,
    confused: bool,
    velocity: Option<Vec2>,
    grid: &Grid<Stuff>,
) -> (r: MeleeTarget)
    requires
        grid.wf(),
        pos.distance_fits(player_pos),
        confused ==> (velocity matches Some(v) ==> fits_i32(pos.x + v.x) && fits_i32(pos.y + v.y)
            && grid.in_bounds(pos.x + v.x, pos.y + v.y)),
    ensures
        r == if confused {
            match velocity {
                Some(v) => match grid.cell(pos.x + v.x, pos.y + v.y) {
                    Some(id) => MeleeTarget::Occupant(id),
                    None => MeleeTarget::Nobody,
                },
                None => MeleeTarget::Nobody,
            }
        } else if pos.manhattan_spec(player_pos) <= 1 {
            MeleeTarget::Player
        } else {
            MeleeTarget::Nobody
        },
{
    if confused {
        if let Some(vel) = velocity {
            let target_pos = pos.add(vel);
            if let Some(t_id) = *grid.get(target_pos) {
                return MeleeTarget::Occupant(t_id);
            }
        }
        MeleeTarget::Nobody
    } else if pos.manhatten(player_pos) <= 1 {
        MeleeTarget::Player
    } else {
        MeleeTarget::Nobody
    }
}

/// A monster's blow: when its skill check passes, the damage it deals against `defense`.
pub fn melee_strike(skill: i32, power: i32, defense: i32) -> (r: Option<i32>)
    requires
        fits_i32(power - defense),
    ensures
        r matches Some(d) ==> d == spec_compute_damage(power as int, defense as int),
        skill >= 6 ==> r is Some,
        skill < 1 ==> r is None,
{
    if !skill_check(skill) {
        return None;
    }
    Some(compute_damage(power, defense))
}

/// What a monster's melee turn came to.
#[derive(Clone, Copy, Debug, PartialEq, Eq, Structural)]
pub enum MeleeOutcome {
    /// Nobody to hit.
    NoTarget,
    /// The blow landed on `target` for `damage`.
    Hit { target: MeleeTarget, damage: i32 },
    /// The blow missed `target`.
    Miss { target: MeleeTarget },
}

/// A monster's melee turn: it picks whom to hit as [`melee_target`] does (a confused
/// monster's victim must have health, `occupant_has_hp` says whether it does), then swings,
/// dealing its power against the player's melee defense when its skill check passes.
pub fn update_melee_ai(
    pos: Vec2,
    player_pos: Vec2,
    confused: bool,
    velocity: Option<Vec2>,
    grid: &Grid<Stuff>,
    occupant_has_hp: bool,
    melee: Melee,
    player_defense: i32,
) -> (r: MeleeOutcome)
    requires
        grid.wf(),
        pos.distance_fits(player_pos),
        confused ==> (velocity matches Some(v) ==> fits_i32(pos.x + v.x) && fits_i32(pos.y + v.y)
            && grid.in_bounds(pos.x + v.x, pos.y + v.y)),
        fits_i32(melee.power - player_defense),
    ensures
        ({
            let target = if confused {
                match velocity {
                    Some(v) => match grid.cell(pos.x + v.x, pos.y + v.y) {
                        Some(id) => if occupant_has_hp {
                            MeleeTarget::Occupant(id)
                        } else {
                            MeleeTarget::Nobody
                        },
                        None => MeleeTarget::Nobody,
                    },
                    None => MeleeTarget::Nobody,
                }
            } else if pos.manhattan_spec(player_pos) <= 1 {
                MeleeTarget::Player
            } else {
                MeleeTarget::Nobody
            };
            &&& target == MeleeTarget::Nobody ==> r == MeleeOutcome::NoTarget
            &&& target != MeleeTarget::Nobody ==> {
                ||| r == MeleeOutcome::Hit {
                    target,
                    damage: spec_compute_damage(melee.power as int, player_defense as int) as i32,
                }
                ||| r == MeleeOutcome::Miss { target }
            }
            &&& target != MeleeTarget::Nobody && melee.skill >= 6 ==> r is Hit
            &&& target != MeleeTarget::Nobody && melee.skill < 1 ==> r is Miss
        }),
{
    let target = match melee_target(pos, player_pos, confused, velocity, grid) {
        MeleeTarget::Occupant(id) => if occupant_has_hp {
            MeleeTarget::Occupant(id)
        } else {
            MeleeTarget::Nobody
        },
        t => t,
    };
    if let MeleeTarget::Nobody = target {
        return MeleeOutcome::NoTarget;
    }
    match melee_strike(melee.skill, melee.power, player_defense) {
        Some(damage) => MeleeOutcome::Hit { target, damage },
        None => MeleeOutcome::Miss { target },
    }
}

/// Every position is on the grid.
pub open spec fn steps_on_grid(grid: &Grid<Stuff>, steps: Seq<Vec2>) -> bool {
    forall|i: int| 0 <= i < steps.len() ==> grid.in_bounds((#[trigger] steps[i]).x as int, steps[i].y as int)
}

/// Every step of the monster's path lies on the grid.
pub fn path_on_grid(cache: &PathCache, grid: &Grid<Stuff>) -> (r: bool)
    requires
        grid.wf(),
    ensures
        r == steps_on_grid(grid, path_steps(cache.path)),
{
    let n = crate::pathfinder::path_len(&cache.path);
    let mut i: usize = 0;
    while i < n
        invariant
            n == path_steps(cache.path).len(),
            i <= n,
            grid.wf(),
            forall|k: int| 0 <= k < i ==> grid.in_bounds((#[trigger] path_steps(cache.path)[k]).x as int, path_steps(cache.path)[k].y as int),
        decreases n - i,
    {
        let p = crate::pathfinder::path_get(&cache.path, i);
        if !grid.contains(p.x, p.y) {
            return false;
        }
        i = i + 1;
    }
    true
}

/// The grid is small enough for path finding, so every cell's coordinates are below `2^24`.
pub open spec fn searchable(grid: &Grid<Stuff>) -> bool {
    &&& grid.wf()
    &&& grid.spec_width() * grid.spec_height() <= 0x100_0000
}

proof fn lemma_searchable_small(grid: &Grid<Stuff>, p: Vec2)
    requires
        searchable(grid),
        grid.in_bounds(p.x as int, p.y as int),
    ensures
        0 <= p.x < 0x100_0000,
        0 <= p.y < 0x100_0000,
{
    let w = grid.spec_width();
    let h = grid.spec_height();
    assert(w <= 0x100_0000 && h <= 0x100_0000) by (nonlinear_arith)
        requires
            w * h <= 0x100_0000,
            w >= 1,
            h >= 1,
    ;
}

/// What the path holds after planning a route from `pos` to `target` behind `waypoints`: the
/// waypoints followed by a walk from next to `target` back to next to `pos` when some cell lies
/// next to `target`, and nothing otherwise.
pub open spec fn planned_route(
    grid: &Grid<Stuff>,
    pos: Vec2,
    target: Vec2,
    waypoints: Seq<Vec2>,
    steps: Seq<Vec2>,
) -> bool {
    if near_cell_exists(grid, target) {
        exists|seg: Seq<Vec2>| #[trigger] is_walk_between(seg, grid, pos, target) && steps == waypoints + seg
    } else {
        steps.len() == 0
    }
}

/// `s` without the copies of `pos` at its end.
pub open spec fn strip_tail(s: Seq<Vec2>, pos: Vec2) -> Seq<Vec2>
    decreases s.len(),
{
    if s.len() > 0 && s.last() == pos {
        strip_tail(s.drop_last(), pos)
    } else {
        s
    }
}

/// The path a monster away from the player follows this turn, before it steps: when it sees
/// the player, a route to where the player last stood and then to the player (without trailing
/// copies of its own cell); when it does not and its path is used up, a leashed monster routes
/// home to the leash origin; otherwise its old path.
pub open spec fn chase_plan(
    grid: &Grid<Stuff>,
    opaque: &Grid<bool>,
    pos: Vec2,
    player_pos: Vec2,
    last_player_pos: Vec2,
    leash: Option<Leash>,
    before: Seq<Vec2>,
    plan: Seq<Vec2>,
) -> bool {
    if line_clear(*opaque, pos, player_pos) {
        exists|raw: Seq<Vec2>|
            planned_route(grid, pos, last_player_pos, seq![player_pos, last_player_pos], raw) && plan
                == #[trigger] strip_tail(raw, pos)
    } else if before.len() == 0 && leash is Some {
        planned_route(grid, pos, leash->0.origin, Seq::<Vec2>::empty(), plan)
    } else {
        plan == before
    }
}

/// Replace the path with one towards `target`, through `waypoints` (pushed first, so walked
/// last): cleared when no path is found. Stays on the grid.
fn plan_path(
    pos: Vec2,
    target: Vec2,
    waypoints: &Vec<Vec2>,
    cache: &mut Path,
    grid: &Grid<Stuff>,
    walkies: &Vec<EntityId>,
) -> (found: bool)
    requires
        searchable(grid),
        grid.in_bounds(pos.x as int, pos.y as int),
        search_fits(grid, target),
        waypoints@.len() <= 2,
        forall|i: int| 0 <= i < waypoints@.len() ==> grid.in_bounds((#[trigger] waypoints@[i]).x as int, waypoints@[i].y as int),
    ensures
        steps_on_grid(grid, path_steps(*final(cache))),
        !found ==> path_steps(*final(cache)).len() == 0,
        found <==> near_cell_exists(grid, target),
        planned_route(grid, pos, target, waypoints@, path_steps(*final(cache))),
{
    proof {
        grid.lemma_len();
    }
    path_clear(cache);
    let mut i: usize = 0;
    while i < waypoints.len()
        invariant
            i <= waypoints@.len(),
            waypoints@.len() <= 2,
            path_steps(*cache) == waypoints@.take(i as int),
        decreases waypoints@.len() - i,
    {
        path_push(cache, waypoints[i]);
        proof {
            assert(waypoints@.take(i + 1) =~= waypoints@.take(i as int).push(waypoints@[i as int]));
        }
        i = i + 1;
    }
    let ghost before = path_steps(*cache);
    proof {
        assert(before =~= waypoints@.take(waypoints@.len() as int));
        assert(waypoints@.take(waypoints@.len() as int) =~= waypoints@);
    }
    if !find_path(pos, target, grid, walkies, cache) {
        // finding path failed, pop the player pos
        path_clear(cache);
        return false;
    }
    proof {
        let seg = choose|seg: Seq<Vec2>| #[trigger] is_walk_between(seg, grid, pos, target)
            && path_steps(*cache) == before + seg;
        assert(is_walk_between(seg, grid, pos, target) && path_steps(*cache) == waypoints@ + seg);
        assert forall|i: int| 0 <= i < path_steps(*cache).len() implies grid.in_bounds(
            (#[trigger] path_steps(*cache)[i]).x as int,
            path_steps(*cache)[i].y as int,
        ) by {
            if i >= before.len() {
                assert(path_steps(*cache)[i] == seg[i - before.len()]);
            } else {
                assert(path_steps(*cache)[i] == waypoints@[i]);
            }
        }
    }
    true
}

/// The step to `next` would leave the leash.
pub open spec fn leash_breaks(leash: Option<Leash>, next: Vec2) -> bool {
    leash matches Some(l) && next.manhattan_spec(l.origin) > l.radius
}

/// Where a monster at `pos` whose next step is `next` ends up: it stays put when the step
/// would leave its leash.
pub open spec fn step_target(pos: Vec2, leash: Option<Leash>, next: Vec2) -> Vec2 {
    if leash_breaks(leash, next) {
        pos
    } else {
        next
    }
}

/// What taking the next step of path `steps` gives: the velocity, if a step is taken, and the
/// path left (see `take_step`).
pub open spec fn step_outcome(pos: Vec2, leash: Option<Leash>, steps: Seq<Vec2>, grid: &Grid<Stuff>) -> (
    Option<Vec2>,
    Seq<Vec2>,
) {
    if steps.len() == 0 {
        (None, steps)
    } else {
        let next = steps.last();
        let np = step_target(pos, leash, next);
        if grid.cell(np.x as int, np.y as int) is Some {
            (None, Seq::<Vec2>::empty())
        } else {
            (
                Some(Vec2 { x: (np.x - pos.x) as i32, y: (np.y - pos.y) as i32 }),
                if leash_breaks(leash, next) {
                    Seq::<Vec2>::empty()
                } else {
                    steps.drop_last()
                },
            )
        }
    }
}

/// Take the next step of the path: `None` when the path is empty or when the cell it leads
/// to is taken. A step that would leave the leash leads back to `pos` and forgets the path;
/// a taken cell forgets it too.
fn take_step(pos: Vec2, leash: Option<Leash>, cache: &mut Path, grid: &Grid<Stuff>) -> (r: Option<Vec2>)
    requires
        searchable(grid),
        grid.in_bounds(pos.x as int, pos.y as int),
        leash matches Some(l) ==> -0x1000_0000 <= l.origin.x <= 0x1000_0000 && -0x1000_0000 <= l.origin.y <= 0x1000_0000,
        steps_on_grid(grid, path_steps(*old(cache))),
    ensures
        steps_on_grid(grid, path_steps(*final(cache))),
        r matches Some(v) ==> {
            let np = Vec2 { x: (pos.x + v.x) as i32, y: (pos.y + v.y) as i32 };
            &&& grid.in_bounds(np.x as int, np.y as int)
            &&& grid.cell(np.x as int, np.y as int) is None
            &&& leash matches Some(l) ==> np.manhattan_spec(l.origin) <= l.radius || v == (Vec2 { x: 0, y: 0 })
        },
        r == step_outcome(pos, leash, path_steps(*old(cache)), grid).0,
        path_steps(*final(cache)) == step_outcome(pos, leash, path_steps(*old(cache)), grid).1,
        path_steps(*old(cache)).len() == 0 ==> r is None && path_steps(*final(cache)) == path_steps(*old(cache)),
        path_steps(*old(cache)).len() > 0 ==> {
            let next = path_steps(*old(cache)).last();
            let np = step_target(pos, leash, next);
            if grid.cell(np.x as int, np.y as int) is Some {
                &&& r is None
                &&& path_steps(*final(cache)).len() == 0
            } else {
                &&& r == Some(Vec2 { x: (np.x - pos.x) as i32, y: (np.y - pos.y) as i32 })
                &&& path_steps(*final(cache)) == if leash_breaks(leash, next) {
                    Seq::<Vec2>::empty()
                } else {
                    path_steps(*old(cache)).drop_last()
                }
            }
        },
{
    let ghost steps = path_steps(*cache);
    let next = match path_pop(cache) {
        Some(p) => p,
        None => {
            return None;
        },
    };
    proof {
        assert(steps[steps.len() - 1] == next);
        assert forall|i: int| 0 <= i < path_steps(*cache).len() implies grid.in_bounds(
            (#[trigger] path_steps(*cache)[i]).x as int,
            path_steps(*cache)[i].y as int,
        ) by {
            assert(path_steps(*cache)[i] == steps[i]);
        }
        lemma_searchable_small(grid, next);
        lemma_searchable_small(grid, pos);
    }
    let mut new_pos = next;
    if let Some(leash) = leash {
        // if at the end of leash, don't move
        if new_pos.manhatten(leash.origin) > leash.radius {
            path_clear(cache);
            new_pos = pos;
        }
    }
    if grid.get(new_pos).is_some() {
        // taken
        path_clear(cache);
        None
    } else {
        Some(new_pos.sub(pos))
    }
}

/// Where a monster chasing the player heads this turn. Next to the player it stays put and
/// forgets its path. Otherwise, when it can see the player, it plans a path to where the
/// player last stood (and then to the player); when it cannot and has no path left, a
/// leashed monster plans a path home. It then takes the next step of its path, unless that
/// leaves its leash or the cell is taken (then it forgets the path).
///
/// Returns the velocity of the step, if one is taken.
pub fn ai_move(
    pos: Vec2,
    player_pos: Vec2,
    last_player_pos: Vec2,
    leash: Option<Leash>,
    path_cache: &mut PathCache,
    grid: &Grid<Stuff>,
    opaque: &Grid<bool>,
    walkies: &Vec<EntityId>,
) -> (r: Option<Vec2>)
    requires
        searchable(grid),
        opaque.wf(),
        grid.in_bounds(pos.x as int, pos.y as int),
        grid.in_bounds(player_pos.x as int, player_pos.y as int),
        grid.in_bounds(last_player_pos.x as int, last_player_pos.y as int),
        leash matches Some(l) ==> search_fits(grid, l.origin),
        steps_on_grid(grid, path_steps(old(path_cache).path)),
    ensures
        steps_on_grid(grid, path_steps(final(path_cache).path)),
        pos.manhattan_spec(player_pos) <= 1 ==> r is None && path_steps(final(path_cache).path).len() == 0,
        r matches Some(v) ==> {
            let np = Vec2 { x: (pos.x + v.x) as i32, y: (pos.y + v.y) as i32 };
            &&& grid.in_bounds(np.x as int, np.y as int)
            &&& grid.cell(np.x as int, np.y as int) is None
            &&& leash matches Some(l) ==> np.manhattan_spec(l.origin) <= l.radius || v == (Vec2 { x: 0, y: 0 })
        },
        pos.manhattan_spec(player_pos) > 1 ==> exists|plan: Seq<Vec2>|
            #[trigger] chase_plan(
                grid,
                opaque,
                pos,
                player_pos,
                last_player_pos,
                leash,
                path_steps(old(path_cache).path),
                plan,
            ) && r == step_outcome(pos, leash, plan, grid).0 && path_steps(final(path_cache).path)
                == step_outcome(pos, leash, plan, grid).1,
{
    let ghost before = path_steps(old(path_cache).path);
    let cache = &mut path_cache.path;
    proof {
        lemma_searchable_small(grid, pos);
        lemma_searchable_small(grid, player_pos);
        lemma_searchable_small(grid, last_player_pos);
    }
    if pos.manhatten(player_pos) <= 1 {
        path_clear(cache);
        return None;
    }
    if walk_grid_on_segment(pos, player_pos, opaque).is_none() {
        // push the last pos, so entities can follow players across corridors
        let waypoints = vec![player_pos, last_player_pos];
        plan_path(pos, last_player_pos, &waypoints, cache, grid, walkies);
        let ghost raw = path_steps(*cache);
        proof {
            assert(waypoints@ =~= seq![player_pos, last_player_pos]);
        }
        // if the distance to the player is 1
        // there is a bug in pathfinding that returns the current pos as the last
        while path_last(cache) == Some(pos)
            invariant
                steps_on_grid(grid, path_steps(*cache)),
                strip_tail(path_steps(*cache), pos) == strip_tail(raw, pos),
            decreases path_steps(*cache).len(),
        {
            let ghost steps = path_steps(*cache);
            path_pop(cache);
            proof {
                assert forall|i: int| 0 <= i < path_steps(*cache).len() implies grid.in_bounds(
                    (#[trigger] path_steps(*cache)[i]).x as int,
                    path_steps(*cache)[i].y as int,
                ) by {
                    assert(path_steps(*cache)[i] == steps[i]);
                }
            }
        }
        proof {
            assert(strip_tail(path_steps(*cache), pos) == path_steps(*cache));
            assert(planned_route(grid, pos, last_player_pos, seq![player_pos, last_player_pos], raw));
            assert(chase_plan(grid, opaque, pos, player_pos, last_player_pos, leash, before, path_steps(*cache)));
        }
    } else if path_len_is_zero(cache) {
        // if the enemy has a leash and the player is not visible, return to the origin
        if let Some(leash) = leash {
            let waypoints: Vec<Vec2> = Vec::new();
            plan_path(pos, leash.origin, &waypoints, cache, grid, walkies);
            proof {
                assert(waypoints@ =~= Seq::<Vec2>::empty());
            }
        }
        proof {
            assert(chase_plan(grid, opaque, pos, player_pos, last_player_pos, leash, before, path_steps(*cache)));
        }
    } else {
        proof {
            assert(chase_plan(grid, opaque, pos, player_pos, last_player_pos, leash, before, path_steps(*cache)));
        }
    }
    let ghost plan = path_steps(*cache);
    let r = take_step(pos, leash, cache, grid);
    proof {
        assert(chase_plan(grid, opaque, pos, player_pos, last_player_pos, leash, before, plan));
    }
    r
}

/// The path holds no step.
fn path_len_is_zero(cache: &Path) -> (r: bool)
    ensures
        r == (path_steps(*cache).len() == 0),
{
    crate::pathfinder::path_len(cache) == 0
}

/// Apply a velocity: the mover goes to the target cell if it is empty (the grid follows),
/// and stays otherwise; the velocity is spent either way.
pub fn perform_move(pos: &mut Vec2, vel: &mut Vec2, grid: &mut Grid<Stuff>)
    requires
        old(grid).wf(),
        old(grid).in_bounds(old(pos).x as int, old(pos).y as int),
        *old(vel) != (Vec2 { x: 0, y: 0 }) ==> fits_i32(old(pos).x + old(vel).x) && fits_i32(
            old(pos).y + old(vel).y,
        ) && old(grid).in_bounds(old(pos).x + old(vel).x, old(pos).y + old(vel).y),
    ensures
        *final(vel) == (Vec2 { x: 0, y: 0 }),
        final(grid).wf(),
        final(grid).spec_dims() == old(grid).spec_dims(),
        *old(vel) == (Vec2 { x: 0, y: 0 }) ==> *final(pos) == *old(pos) && *final(grid) == *old(grid),
        *old(vel) != (Vec2 { x: 0, y: 0 }) ==> {
            let np = Vec2 { x: (old(pos).x + old(vel).x) as i32, y: (old(pos).y + old(vel).y) as i32 };
            if old(grid).cell(np.x as int, np.y as int) is None {
                &&& *final(pos) == np
                &&& forall|x: int, y: int|
                    old(grid).in_bounds(x, y) ==> #[trigger] final(grid).cell(x, y) == if x == np.x && y == np.y {
                        old(grid).cell(old(pos).x as int, old(pos).y as int)
                    } else if x == old(pos).x && y == old(pos).y {
                        None
                    } else {
                        old(grid).cell(x, y)
                    }
            } else {
                *final(pos) == *old(pos) && *final(grid) == *old(grid)
            }
        },
{
    if vel.x == 0 && vel.y == 0 {
        return;
    }
    let new_pos = pos.add(*vel);
    if grid.get(new_pos).is_none() {
        crate::systems::grid_step(pos, new_pos, grid);
    }
    *vel = Vec2::zero();
}

/// A confused monster staggers one step along a random axis.
pub fn confused_step() -> (r: Vec2)
    ensures
        r == (Vec2 { x: 1, y: 0 }) || r == (Vec2 { x: -1i32, y: 0 }) || r == (Vec2 { x: 0, y: 1 }) || r
            == (Vec2 { x: 0, y: -1i32 }),
{
    let delta = vec![Vec2::unit_x(), Vec2::unit_x().neg(), Vec2::unit_y(), Vec2::unit_y().neg()];
    let mut rng = thread_rng();
    match choose_one(&mut rng, &delta) {
        Some(d) => d,
        None => Vec2::unit_x(),
    }
}

} // verus!

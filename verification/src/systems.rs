//! The game loop's bookkeeping: when a tick runs, what the player's turn does to the world
//! grid, and how the grid is rebuilt from where things stand.
use vstd::prelude::*;

use crate::actions::{InputEvent, PlayerActions};
use crate::components::{
    lines_view, AppMode, BounceOffTime, CameraPos, Defense, DeltaTime, DungeonFloor, EntityId,
    GameTick, Hp, Inventory, InventoryError, LastPos, Level, LogHistory, Melee, Pos, Selected,
    Stuff, StuffTag, TargetPos, TickInMs,
};
use crate::grid::{lemma_cell_offset, Grid};
use crate::math::{fits_i32, Vec2};
use crate::rng::skill_check;

verus! {

pub fn update_tick(t: &mut GameTick)
    requires
        old(t).0 < i32::MAX,
    ensures
        final(t).0 == old(t).0 + 1,
{
    t.0 = t.0 + 1;
}

pub fn should_update_world(should_tick: bool, should_update: bool) -> (r: bool)
    ensures
        r == (should_update && should_tick),
{
    should_update && should_tick
}

pub fn should_update_player(should_tick: bool, should_update: bool) -> (r: bool)
    ensures
        r == (should_update && should_tick),
{
    should_update && should_tick
}

/// The camera follows the player, when there is one.
pub fn update_camera_pos(camera: &mut CameraPos, player: Option<Pos>)
    ensures
        player matches Some(p) ==> final(camera).0 == p.0,
        player is None ==> final(camera).0 == old(camera).0,
{
    if let Some(pos) = player {
        camera.0 = pos.0;
    }
}

pub fn record_last_pos(last: &mut LastPos, current: Pos)
    ensures
        final(last).0 == current.0,
{
    last.0 = current.0;
}

/// What the player's turn is to do this tick.
#[derive(Clone, Copy, Debug, PartialEq, Eq, Structural)]
pub struct TurnPlan {
    /// The world (monsters, effects) updates this tick.
    pub update_world: bool,
    /// The player's own actions run this tick.
    pub update_player: bool,
    /// The player chose to wait: their actions are skipped.
    pub waiting: bool,
}

/// Without a tick nothing updates; otherwise the world updates, and the player acts when
/// there is one, unless they wait.
pub fn player_prepare(should_tick: bool, has_player: bool, actions: &PlayerActions) -> (r: TurnPlan)
    ensures
        !should_tick ==> r == (TurnPlan { update_world: false, update_player: false, waiting: false }),
        should_tick ==> r == (TurnPlan {
            update_world: true,
            update_player: has_player && !actions.spec_wait(),
            waiting: has_player && actions.spec_wait(),
        }),
{
    if !should_tick {
        return TurnPlan { update_world: false, update_player: false, waiting: false };
    }
    // if no player is found then don't update player logic
    let mut update_player = false;
    if has_player {
        update_player = true;
    }
    let mut waiting = false;
    if update_player && actions.wait() {
        waiting = true;
        update_player = false;
    }
    TurnPlan { update_world: true, update_player, waiting }
}

/// `|a - b|` as an unsigned number.
pub open spec fn abs_diff(a: int, b: int) -> int {
    if a >= b {
        a - b
    } else {
        b - a
    }
}

/// A tick runs when there is a player with something to do and its time has come, give or
/// take five milliseconds; the elapsed time accumulates until then and restarts after.
pub fn update_should_tick(
    dt: &mut DeltaTime,
    time: &mut BounceOffTime,
    has_player: bool,
    item_in_use: bool,
    actions: &PlayerActions,
    tick_time: TickInMs,
) -> (should_tick: bool)
    requires
        fits_i32(old(time).0 + old(dt).0),
    ensures
        should_tick == (has_player && (item_in_use || actions.spec_len() != 0) && (old(time).0
            + old(dt).0 >= tick_time.0 || abs_diff(tick_time.0 as int, old(time).0 + old(dt).0) <= 5)),
        final(time).0 == if should_tick {
            0
        } else {
            old(time).0 + old(dt).0
        },
        final(dt).0 == 0,
{
    time.0 = time.0 + dt.0;
    let t = time.0;
    let tt = tick_time.0;
    let diff: i64 = if tt as i64 >= t as i64 {
        tt as i64 - t as i64
    } else {
        t as i64 - tt as i64
    };
    // lag compensation
    let should_tick = has_player && (item_in_use || !actions.is_empty()) && (t >= tt || diff <= 5);
    if should_tick {
        time.0 = 0;
    }
    dt.0 = 0;
    should_tick
}

/// Leave a targeting mode once its target is picked; a tick only runs in play mode.
pub fn handle_targeting(should_tick: bool, actions: &PlayerActions, mode: &mut AppMode, target_pos: &TargetPos) -> (r: bool)
    ensures
        *final(mode) == match *old(mode) {
            AppMode::Targeting => if actions.spec_target() is Some {
                AppMode::Game
            } else {
                AppMode::Targeting
            },
            AppMode::TargetingPosition => if target_pos.pos is Some {
                AppMode::Game
            } else {
                AppMode::TargetingPosition
            },
            m => m,
        },
        r == (should_tick && *final(mode) == AppMode::Game),
{
    match *mode {
        AppMode::Levelup | AppMode::Game => {},
        AppMode::Targeting => {
            if actions.target().is_some() {
                *mode = AppMode::Game;
            }
        },
        AppMode::TargetingPosition => {
            if target_pos.pos.is_some() {
                *mode = AppMode::Game;
            }
        },
    }
    should_tick && matches!(*mode, AppMode::Game)
}

/// After a tick the consumed inputs, actions and target position are dropped.
pub fn clean_inputs(
    should_tick: bool,
    inputs: &mut Vec<InputEvent>,
    actions: &mut PlayerActions,
    target_pos: &mut TargetPos,
)
    ensures
        should_tick ==> final(inputs)@.len() == 0 && final(actions).spec_len() == 0
            && final(actions).spec_move_action() is None && final(actions).spec_target() is None
            && !final(actions).spec_interact() && !final(actions).spec_wait() && final(target_pos).pos is None,
        !should_tick ==> *final(inputs) == *old(inputs) && *final(actions) == *old(actions)
            && *final(target_pos) == *old(target_pos),
{
    if should_tick {
        inputs.clear();
        actions.clear();
        target_pos.pos = None;
    }
}

/// The entity that the last entry placed at `(x, y)` puts there, if any does.
pub open spec fn last_at(items: Seq<(EntityId, Vec2)>, x: int, y: int) -> Option<EntityId>
    decreases items.len(),
{
    if items.len() == 0 {
        None
    } else if items.last().1.x == x && items.last().1.y == y {
        Some(items.last().0)
    } else {
        last_at(items.drop_last(), x, y)
    }
}

/// The cell after layering `items` over `base`: the last item placed there, else the base.
pub open spec fn layered(base: Option<EntityId>, items: Seq<(EntityId, Vec2)>, x: int, y: int) -> Option<EntityId> {
    match last_at(items, x, y) {
        Some(id) => Some(id),
        None => base,
    }
}

/// Every position is on the grid.
pub open spec fn all_on_grid(grid: Grid<Stuff>, items: Seq<(EntityId, Vec2)>) -> bool {
    forall|i: int| 0 <= i < items.len() ==> grid.in_bounds((#[trigger] items[i]).1.x as int, items[i].1.y as int)
}

/// Put each entity on its cell, in order, so that later entities cover earlier ones.
pub fn layer(grid: &mut Grid<Stuff>, items: &Vec<(EntityId, Vec2)>)
    requires
        old(grid).wf(),
        all_on_grid(*old(grid), items@),
    ensures
        final(grid).wf(),
        final(grid).spec_dims() == old(grid).spec_dims(),
        forall|x: int, y: int|
            old(grid).in_bounds(x, y) ==> #[trigger] final(grid).cell(x, y) == layered(
                old(grid).cell(x, y),
                items@,
                x,
                y,
            ),
{
    let ghost g0 = *old(grid);
    let mut i: usize = 0;
    while i < items.len()
        invariant
            g0.wf(),
            all_on_grid(g0, items@),
            grid.wf(),
            grid.spec_dims() == g0.spec_dims(),
            i <= items@.len(),
            forall|x: int, y: int|
                g0.in_bounds(x, y) ==> #[trigger] grid.cell(x, y) == layered(
                    g0.cell(x, y),
                    items@.take(i as int),
                    x,
                    y,
                ),
        decreases items@.len() - i,
    {
        let (id, pos) = items[i];
        proof {
            assert(g0.in_bounds(items@[i as int].1.x as int, items@[i as int].1.y as int));
        }
        grid.set(pos, Some(id));
        proof {
            assert(items@.take(i + 1).drop_last() =~= items@.take(i as int));
            assert(items@.take(i + 1).last() == (id, pos));
        }
        i = i + 1;
    }
    proof {
        assert(items@.take(items@.len() as int) =~= items@);
    }
}

/// Rebuild the world grid: the static grid, then the player, then the other entities that
/// are not monsters, then the monsters, each covering what came before on its cell.
pub fn update_grid(
    grid: &mut Grid<Stuff>,
    static_grid: &Grid<Stuff>,
    player: &Vec<(EntityId, Vec2)>,
    mid_stuff: &Vec<(EntityId, Vec2)>,
    ais: &Vec<(EntityId, Vec2)>,
)
    requires
        old(grid).wf(),
        static_grid.wf(),
        static_grid.spec_dims() == old(grid).spec_dims(),
        all_on_grid(*old(grid), player@),
        all_on_grid(*old(grid), mid_stuff@),
        all_on_grid(*old(grid), ais@),
    ensures
        final(grid).wf(),
        final(grid).spec_dims() == old(grid).spec_dims(),
        forall|x: int, y: int|
            old(grid).in_bounds(x, y) ==> #[trigger] final(grid).cell(x, y) == layered(
                static_grid.cell(x, y),
                player@ + mid_stuff@ + ais@,
                x,
                y,
            ),
{
    // zero out the map
    grid.copy(static_grid);
    proof {
        grid.lemma_len();
    }
    let ghost g1 = *grid;
    // layer back to front, in case multiple entities sit on the same position
    layer(grid, player);
    let ghost g2 = *grid;
    layer(grid, mid_stuff);
    let ghost g3 = *grid;
    layer(grid, ais);
    proof {
        assert forall|x: int, y: int| old(grid).in_bounds(x, y) implies #[trigger] grid.cell(x, y) == layered(
            static_grid.cell(x, y),
            player@ + mid_stuff@ + ais@,
            x,
            y,
        ) by {
            lemma_cell_offset(g1.spec_width(), g1.spec_height(), x, y);
            assert(g1.cell(x, y) == static_grid.cell(x, y));
            lemma_layered_concat(static_grid.cell(x, y), player@, mid_stuff@, x, y);
            lemma_layered_concat(static_grid.cell(x, y), player@ + mid_stuff@, ais@, x, y);
        }
    }
}

/// Layering two lists of entities in turn is layering their concatenation: what the later
/// list places covers what the earlier one did.
pub proof fn lemma_layered_concat(base: Option<EntityId>, a: Seq<(EntityId, Vec2)>, b: Seq<(EntityId, Vec2)>, x: int, y: int)
    ensures
        layered(layered(base, a, x, y), b, x, y) == layered(base, a + b, x, y),
    decreases b.len(),
{
    if b.len() > 0 {
        assert((a + b).drop_last() =~= a + b.drop_last());
        assert((a + b).last() == b.last());
        lemma_layered_concat(base, a, b.drop_last(), x, y);
    } else {
        assert(a + b =~= a);
    }
}

/// Rebuild both grids from where entities stand: the static grid (resized to the world grid
/// when their sizes differ) holds the static entities, the world grid those over it.
pub fn init_grids(
    static_stuff: &Vec<(EntityId, Vec2)>,
    dynamic_stuff: &Vec<(EntityId, Vec2)>,
    static_grid: &mut Grid<Stuff>,
    grid: &mut Grid<Stuff>,
)
    requires
        old(static_grid).wf(),
        old(grid).wf(),
        all_on_grid(*old(grid), static_stuff@),
        all_on_grid(*old(grid), dynamic_stuff@),
    ensures
        final(static_grid).wf(),
        final(grid).wf(),
        final(static_grid).spec_dims() == old(grid).spec_dims(),
        final(grid).spec_dims() == old(grid).spec_dims(),
        forall|x: int, y: int|
            old(grid).in_bounds(x, y) ==> #[trigger] final(static_grid).cell(x, y) == last_at(static_stuff@, x, y),
        forall|x: int, y: int|
            old(grid).in_bounds(x, y) ==> #[trigger] final(grid).cell(x, y) == layered(
                last_at(static_stuff@, x, y),
                dynamic_stuff@,
                x,
                y,
            ),
{
    let dims = grid.dims();
    let sdims = static_grid.dims();
    if sdims != dims {
        proof {
            grid.lemma_len();
        }
        *static_grid = Grid::new(dims);
    }
    static_grid.fill(None);
    proof {
        static_grid.lemma_len();
        assert forall|x: int, y: int| static_grid.in_bounds(x, y) implies #[trigger] static_grid.cell(x, y) is None by {
            lemma_cell_offset(static_grid.spec_width(), static_grid.spec_height(), x, y);
        }
    }
    let ghost s0 = *static_grid;
    layer(static_grid, static_stuff);
    let ghost s1 = *static_grid;
    grid.copy(static_grid);
    let ghost g1 = *grid;
    proof {
        grid.lemma_len();
        assert forall|x: int, y: int| g1.in_bounds(x, y) implies #[trigger] g1.cell(x, y) == last_at(static_stuff@, x, y) by {
            lemma_cell_offset(g1.spec_width(), g1.spec_height(), x, y);
            assert(s0.cell(x, y) is None);
            assert(s1.cell(x, y) == layered(s0.cell(x, y), static_stuff@, x, y));
            assert(g1.cell(x, y) == s1.cell(x, y));
        }
    }
    layer(grid, dynamic_stuff);
}

/// Move whatever sits at `pos` to `new_pos`, leaving `pos` empty.
pub fn grid_step(pos: &mut Vec2, new_pos: Vec2, grid: &mut Grid<Stuff>)
    requires
        old(grid).wf(),
        old(grid).in_bounds(old(pos).x as int, old(pos).y as int),
        old(grid).in_bounds(new_pos.x as int, new_pos.y as int),
    ensures
        *final(pos) == new_pos,
        final(grid).wf(),
        final(grid).spec_dims() == old(grid).spec_dims(),
        forall|x: int, y: int|
            old(grid).in_bounds(x, y) ==> #[trigger] final(grid).cell(x, y) == if x == new_pos.x && y
                == new_pos.y {
                old(grid).cell(old(pos).x as int, old(pos).y as int)
            } else if x == old(pos).x && y == old(pos).y {
                None
            } else {
                old(grid).cell(x, y)
            },
{
    let old_stuff = *grid.get(*pos);
    grid.set(*pos, None);
    grid.set(new_pos, old_stuff);
    *pos = new_pos;
}

/// Kinds that fight back when the player walks into them.
pub open spec fn is_monster(t: StuffTag) -> bool {
    t is Gargoyle || t is Goblin || t is Troll || t is Orc || t is Warlord || t is Zombie || t is Minotaur
}

/// Damage of an attack of `power` against `defense`: all damage must be at least 1
pub open spec fn spec_compute_damage(power: int, defense: int) -> int {
    if power - defense > 1 {
        power - defense
    } else {
        1
    }
}

pub fn compute_damage(power: i32, defense: i32) -> (r: i32)
    requires
        fits_i32(power - defense),
    ensures
        r == spec_compute_damage(power as int, defense as int),
{
    // all damage must be at least 1
    let d = power - defense;
    if d > 1 {
        d
    } else {
        1
    }
}

/// Every attack deals at least one point of damage; more power never deals less, more
/// defense never lets through more, and past a margin of one each point of power beyond the
/// defense is one point of damage.
pub proof fn lemma_damage_monotone(power: int, defense: int, power2: int, defense2: int)
    requires
        power <= power2,
        defense2 <= defense,
    ensures
        spec_compute_damage(power, defense) >= 1,
        spec_compute_damage(power, defense) <= spec_compute_damage(power2, defense2),
        power - defense >= 1 ==> spec_compute_damage(power + 1, defense) == spec_compute_damage(
            power,
            defense,
        ) + 1,
        spec_compute_damage(power, defense) >= power - defense,
{
}

/// What the player's move did.
#[derive(Clone, Copy, Debug, PartialEq, Eq, Structural)]
pub enum MoveOutcome {
    /// No move was asked for.
    NoMove,
    /// The player stepped onto the new cell.
    Stepped,
    /// A door was in the way: it is to be removed, and the player stays.
    OpenedDoor(EntityId),
    /// A wall was in the way.
    Blocked,
    /// The player attacked a monster and hit it for `damage`.
    Hit { target: EntityId, damage: i32 },
    /// The player attacked a monster and missed.
    Missed(EntityId),
}

/// Carry out the player's move by the queued delta. `occupant` is the entity on the target
/// cell with its kind (`None` when the cell holds nothing that has a kind), and
/// `target_defense` the melee defense of a monster there.
///
/// Doors open, walls block, monsters are attacked (the player's skill check decides whether
/// the blow lands), and anything else is stepped onto.
pub fn handle_player_move(
    actions: &PlayerActions,
    melee: &Melee,
    pos: &mut Vec2,
    occupant: Option<(EntityId, StuffTag)>,
    target_defense: i32,
    grid: &mut Grid<Stuff>,
) -> (r: MoveOutcome)
    requires
        old(grid).wf(),
        old(grid).in_bounds(old(pos).x as int, old(pos).y as int),
        actions.spec_move_action() matches Some(d) ==> {
            &&& fits_i32(old(pos).x + d.x)
            &&& fits_i32(old(pos).y + d.y)
            &&& old(grid).in_bounds(old(pos).x + d.x, old(pos).y + d.y)
        },
        occupant matches Some((id, t)) ==> t != StuffTag::Player,
        fits_i32(melee.power - target_defense),
    ensures
        actions.spec_move_action() is None ==> r == MoveOutcome::NoMove && *final(pos) == *old(pos)
            && *final(grid) == *old(grid),
        actions.spec_move_action() matches Some(d) ==> {
            let new_pos = Vec2 { x: (old(pos).x + d.x) as i32, y: (old(pos).y + d.y) as i32 };
            match occupant {
                Some((id, StuffTag::Door)) => r == MoveOutcome::OpenedDoor(id) && *final(pos) == *old(pos)
                    && *final(grid) == *old(grid),
                Some((id, StuffTag::Wall)) => r == MoveOutcome::Blocked && *final(pos) == *old(pos)
                    && *final(grid) == *old(grid),
                Some((id, t)) if is_monster(t) => {
                    &&& r == MoveOutcome::Hit {
                        target: id,
                        damage: spec_compute_damage(melee.power as int, target_defense as int) as i32,
                    } || r == MoveOutcome::Missed(id)
                    &&& melee.skill >= 6 ==> r is Hit
                    &&& melee.skill < 1 ==> r is Missed
                    &&& *final(pos) == *old(pos)
                    &&& *final(grid) == *old(grid)
                },
                _ => {
                    &&& r == MoveOutcome::Stepped
                    &&& *final(pos) == new_pos
                    &&& final(grid).wf()
                    &&& final(grid).spec_dims() == old(grid).spec_dims()
                    &&& forall|x: int, y: int|
                        old(grid).in_bounds(x, y) ==> #[trigger] final(grid).cell(x, y) == if x == new_pos.x
                            && y == new_pos.y {
                            old(grid).cell(old(pos).x as int, old(pos).y as int)
                        } else if x == old(pos).x && y == old(pos).y {
                            None
                        } else {
                            old(grid).cell(x, y)
                        }
                },
            }
        },
{
    let delta = match actions.move_action() {
        Some(x) => x,
        None => {
            return MoveOutcome::NoMove;
        },
    };
    let new_pos = pos.add(delta);
    match occupant {
        Some((stuff_id, tag)) => match tag {
            StuffTag::Door => {
                // doors open for good: the door entity goes away
                MoveOutcome::OpenedDoor(stuff_id)
            },
            StuffTag::Wall => MoveOutcome::Blocked,
            StuffTag::Gargoyle | StuffTag::Goblin | StuffTag::Troll | StuffTag::Orc
            | StuffTag::Warlord | StuffTag::Zombie | StuffTag::Minotaur => {
                if skill_check(melee.skill) {
                    let damage = compute_damage(melee.power, target_defense);
                    MoveOutcome::Hit { target: stuff_id, damage }
                } else {
                    MoveOutcome::Missed(stuff_id)
                }
            },
            _ => {
                grid_step(pos, new_pos, grid);
                MoveOutcome::Stepped
            },
        },
        None => {
            // empty position
            // update the grid asap so the monsters will see the updated player position
            grid_step(pos, new_pos, grid);
            MoveOutcome::Stepped
        },
    }
}

/// What interacting with the player's cell did.
#[derive(Clone, Copy, Debug, PartialEq, Eq, Structural)]
pub enum InteractOutcome {
    /// No interaction was asked for.
    NoInteraction,
    /// The player stands on nothing but themselves.
    NothingToDo,
    /// The item went into the inventory.
    PickedUp(EntityId),
    /// The inventory had no room for the item.
    InventoryFull(EntityId),
    /// The player takes the stairs down.
    Descend,
    /// The thing there cannot be interacted with.
    CantInteract(EntityId),
}

/// Interact with what shares the player's cell: pick up an item, or take the stairs.
/// `on_cell` is what the world grid holds at the player's position, and `is_item` /
/// `is_stairs` say what kind of thing that is.
pub fn update_player_world_interact(
    actions: &PlayerActions,
    player_id: EntityId,
    on_cell: Stuff,
    is_item: bool,
    is_stairs: bool,
    inventory: &mut Inventory,
    floor: &mut DungeonFloor,
) -> (r: InteractOutcome)
    requires
        actions.spec_interact() ==> on_cell is Some,
        actions.spec_interact() && on_cell != Some(player_id) && !is_item && is_stairs ==> old(floor).desired < u32::MAX,
    ensures
        !actions.spec_interact() ==> r == InteractOutcome::NoInteraction && *final(inventory) == *old(inventory)
            && *final(floor) == *old(floor),
        actions.spec_interact() && on_cell == Some(player_id) ==> r == InteractOutcome::NothingToDo
            && *final(inventory) == *old(inventory) && *final(floor) == *old(floor),
        actions.spec_interact() && on_cell != Some(player_id) ==> {
            let id = on_cell->0;
            if is_item {
                &&& *final(floor) == *old(floor)
                &&& final(inventory).capacity == old(inventory).capacity
                &&& old(inventory).items@.len() < old(inventory).capacity ==> r == InteractOutcome::PickedUp(id)
                    && final(inventory).items@ == old(inventory).items@.push(id)
                &&& old(inventory).items@.len() >= old(inventory).capacity ==> r == InteractOutcome::InventoryFull(id)
                    && final(inventory).items@ == old(inventory).items@
            } else if is_stairs {
                &&& r == InteractOutcome::Descend
                &&& *final(inventory) == *old(inventory)
                &&& final(floor).desired == old(floor).desired + 1
                &&& final(floor).current == old(floor).current
            } else {
                r == InteractOutcome::CantInteract(id) && *final(inventory) == *old(inventory)
                    && *final(floor) == *old(floor)
            }
        },
{
    if !actions.interact() {
        return InteractOutcome::NoInteraction;
    }
    let stuff_id = match on_cell {
        Some(id) => id,
        None => {
            return InteractOutcome::NothingToDo;
        },
    };
    if stuff_id == player_id {
        return InteractOutcome::NothingToDo;
    }
    if is_item {
        match inventory.add(stuff_id) {
            Ok(_) => InteractOutcome::PickedUp(stuff_id),
            Err(err) => match err {
                InventoryError::Full => InteractOutcome::InventoryFull(stuff_id),
            },
        }
    } else if is_stairs {
        floor.desired = floor.desired + 1;
        InteractOutcome::Descend
    } else {
        InteractOutcome::CantInteract(stuff_id)
    }
}

/// Pick what a click on cell `pos` selects: in position-targeting mode the cell becomes the
/// target position; the entity on the cell becomes the selection when the cell is seen, and
/// nothing is selected otherwise.
pub fn handle_click(
    mode: AppMode,
    pos: Vec2,
    visible: &Grid<bool>,
    grid: &Grid<Stuff>,
    target: &mut Selected,
    target_pos: &mut TargetPos,
)
    requires
        visible.wf(),
        grid.wf(),
        visible.spec_dims() == grid.spec_dims(),
    ensures
        mode == AppMode::TargetingPosition ==> final(target_pos).pos == Some(pos),
        mode != AppMode::TargetingPosition ==> *final(target_pos) == *old(target_pos),
        visible.in_bounds(pos.x as int, pos.y as int) && visible.cell(pos.x as int, pos.y as int)
            ==> final(target).0 == grid.cell(pos.x as int, pos.y as int),
        !(visible.in_bounds(pos.x as int, pos.y as int) && visible.cell(pos.x as int, pos.y as int))
            ==> final(target).0 is None,
{
    if matches!(mode, AppMode::TargetingPosition) {
        target_pos.pos = Some(pos);
    }
    let seen = match visible.at(pos.x, pos.y) {
        Some(v) => *v,
        None => false,
    };
    if !seen {
        target.0 = None;
        return;
    }
    let result = *grid.get(pos);
    target.0 = result;
}

/// The size of the dungeon on a floor: it grows with the first few floors.
pub fn dungeon_dims(level: u32) -> (r: Vec2)
    ensures
        r.x == r.y,
        r.x == if level <= 1 {
            64i32
        } else if level == 2 {
            80
        } else if level == 3 {
            96
        } else if level == 4 {
            115
        } else {
            128
        },
{
    match level {
        0 | 1 => Vec2::new(64, 64),
        2 => Vec2::new(80, 80),
        3 => Vec2::new(96, 96),
        4 => Vec2::new(115, 115),
        _ => Vec2::new(128, 128),
    }
}

/// Rebuild the static grid: empty but for the static entities, each on its cell (a later one
/// covering an earlier one).
pub fn init_static_grid(static_stuff: &Vec<(EntityId, Vec2)>, grid: &mut Grid<Stuff>)
    requires
        old(grid).wf(),
        all_on_grid(*old(grid), static_stuff@),
    ensures
        final(grid).wf(),
        final(grid).spec_dims() == old(grid).spec_dims(),
        forall|x: int, y: int|
            old(grid).in_bounds(x, y) ==> #[trigger] final(grid).cell(x, y) == last_at(static_stuff@, x, y),
{
    grid.fill(None);
    let ghost g0 = *grid;
    proof {
        grid.lemma_len();
        assert forall|x: int, y: int| g0.in_bounds(x, y) implies #[trigger] g0.cell(x, y) is None by {
            lemma_cell_offset(g0.spec_width(), g0.spec_height(), x, y);
        }
    }
    layer(grid, static_stuff);
}

/// What the player's panel shows.
#[derive(Clone, Copy, Debug, PartialEq, Eq, Structural)]
pub struct PlayerOutput {
    pub player_hp: Hp,
    pub player_attack: i32,
    pub player_pos: Vec2,
    pub current_xp: u32,
    pub needed_xp: u32,
    pub level: u32,
    pub defense: Defense,
}

/// What the game shows after a tick.
pub struct RenderedOutput {
    pub selected: Option<EntityId>,
    pub player: Option<PlayerOutput>,
    pub log: Vec<String>,
    pub targeting: bool,
    pub dungeon_level: u32,
    pub app_mode: AppMode,
}

/// Collect what the game shows: the player's numbers (when there is a player), the log lines
/// oldest first, the selection, the mode and the floor.
pub fn update_output(
    player: Option<(Pos, Hp, Melee, Level, Defense)>,
    selected: Selected,
    history: &LogHistory,
    app_mode: AppMode,
    dungeon_level: DungeonFloor,
) -> (r: RenderedOutput)
    requires
        player matches Some((p, h, m, l, d)) ==> l.threshold_fits(),
    ensures
        r.player == match player {
            Some((pos, hp, attack, level, defense)) => Some(PlayerOutput {
                level: level.current_level,
                current_xp: level.current_xp,
                needed_xp: level.spec_experience_to_next_level() as u32,
                player_hp: hp,
                player_attack: attack.power,
                player_pos: pos.0,
                defense,
            }),
            None => None,
        },
        lines_view(r.log@) == lines_view(history.items@),
        r.selected == selected.0,
        r.targeting == (app_mode == AppMode::Targeting),
        r.dungeon_level == dungeon_level.current,
        r.app_mode == app_mode,
{
    let player = match player {
        Some((pos, hp, attack, level, defense)) => Some(PlayerOutput {
            level: level.current_level,
            current_xp: level.current_xp,
            needed_xp: level.experience_to_next_level(),
            player_hp: hp,
            player_attack: attack.power,
            player_pos: pos.0,
            defense,
        }),
        None => None,
    };
    let mut log: Vec<String> = Vec::new();
    let n = history.items.len();
    let mut i: usize = 0;
    while i < n
        invariant
            n == history.items@.len(),
            i <= n,
            log@.len() == i,
            forall|k: int| 0 <= k < i ==> (#[trigger] log@[k])@ == history.items@[k]@,
        decreases n - i,
    {
        let line = history.items[i].clone();
        log.push(line);
        i = i + 1;
    }
    proof {
        assert(lines_view(log@) =~= lines_view(history.items@));
    }
    let targeting = matches!(app_mode, AppMode::Targeting);
    RenderedOutput {
        dungeon_level: dungeon_level.current,
        app_mode,
        player,
        log,
        selected: selected.0,
        targeting,
    }
}

} // verus!

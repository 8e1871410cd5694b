//! Fighting, items and experience: what attacks, potions, scrolls, equipment and level-ups
//! do to the numbers of the creatures involved.
use vstd::prelude::*;
use vstd::multiset::Multiset;

use crate::actions::PlayerActions;
use crate::components::{
    AppMode, ConfusedAi, Defense, DesiredStat, EntityId, Exp, Hp, Heal, Inventory, Level, Melee,
    Poisoned, Ranged, Stuff, StuffTag, remove_first,
};
use crate::grid::Grid;
use crate::math::{fits_i32, Vec2};
use crate::rng::skill_check;
use crate::systems::{compute_damage, spec_compute_damage};

verus! {

/// Drink a health potion: heal by its amount, up to the maximum. Returns whether it had an
/// effect, that is whether the drinker was not at full health.
pub fn use_hp_potion(hp: &mut Hp, heal: Heal) -> (had_effect: bool)
    requires
        fits_i32(old(hp).current + heal.hp),
    ensures
        had_effect == (old(hp).current < old(hp).max),
        final(hp).max == old(hp).max,
        old(hp).current <= old(hp).max ==> final(hp).current <= final(hp).max,
        final(hp).current == if old(hp).current + heal.hp < old(hp).max {
            old(hp).current + heal.hp
        } else {
            old(hp).max as int
        },
{
    let had_effect = !hp.full();
    let healed = hp.current + heal.hp;
    hp.current = if healed < hp.max {
        healed
    } else {
        hp.max
    };
    had_effect
}

/// A lightning bolt at a target: when the skill check passes, it loses the bolt's power in
/// health. Returns whether it hit.
pub fn use_lightning_scroll(target_hp: &mut Hp, range: Ranged) -> (hit: bool)
    requires
        fits_i32(old(target_hp).current - range.power),
    ensures
        hit ==> final(target_hp).current == old(target_hp).current - range.power,
        !hit ==> *final(target_hp) == *old(target_hp),
        final(target_hp).max == old(target_hp).max,
        range.skill >= 6 ==> hit,
        range.skill < 1 ==> !hit,
{
    if skill_check(range.skill) {
        let dmg = range.power;
        target_hp.current = target_hp.current - dmg;
        true
    } else {
        false
    }
}

/// A confusion bolt at a target: when the skill check passes, the target is confused for the
/// bolt's power in turns more (or from now, if it was not). Returns the target's confusion
/// after a hit, `None` after a miss.
pub fn use_confusion_scroll(confusion: Option<ConfusedAi>, range: Ranged) -> (r: Option<ConfusedAi>)
    requires
        confusion matches Some(c) ==> fits_i32(c.duration + range.power),
    ensures
        r matches Some(c) ==> c.duration == match confusion {
            Some(old_c) => old_c.duration + range.power,
            None => range.power as int,
        },
        range.skill >= 6 ==> r is Some,
        range.skill < 1 ==> r is None,
{
    if skill_check(range.skill) {
        let duration = range.power;
        match confusion {
            Some(c) => Some(ConfusedAi { duration: c.duration + duration }),
            None => Some(ConfusedAi { duration }),
        }
    } else {
        None
    }
}

/// A poison bolt at a target: when the skill check passes, the target is poisoned for five
/// turns more (or from now, with the bolt's power, if it was not). Returns the target's
/// poisoning after a hit, `None` after a miss.
pub fn use_poison_scroll(poison: Option<Poisoned>, range: Ranged) -> (r: Option<Poisoned>)
    requires
        poison matches Some(p) ==> fits_i32(p.duration + 5),
    ensures
        r matches Some(p) ==> match poison {
            Some(old_p) => p == (Poisoned { duration: (old_p.duration + 5) as i32, power: old_p.power }),
            None => p == (Poisoned { duration: 5, power: range.power }),
        },
        range.skill >= 6 ==> r is Some,
        range.skill < 1 ==> r is None,
{
    if skill_check(range.skill) {
        // poison lasts a fixed number of turns
        let duration: i32 = 5;
        match poison {
            Some(p) => Some(Poisoned { duration: p.duration + duration, power: p.power }),
            None => Some(Poisoned { duration, power: range.power }),
        }
    } else {
        None
    }
}

/// The cell `(x, y)` is on the grid and within `radius` of `center` along both axes.
pub open spec fn in_blast(grid: Grid<Stuff>, center: Vec2, radius: int, x: int, y: int) -> bool {
    &&& grid.in_bounds(x, y)
    &&& center.x - radius <= x <= center.x + radius
    &&& center.y - radius <= y <= center.y + radius
}

/// Some cell of the blast holds `id`.
pub open spec fn caught_in_blast(grid: Grid<Stuff>, center: Vec2, radius: int, id: EntityId) -> bool {
    exists|x: int, y: int| #[trigger] in_blast(grid, center, radius, x, y) && grid.cell(x, y) == Some(id)
}

/// A fireball burns everyone caught in its blast for its full power; it never misses.
pub fn burn(target_hp: &mut Hp, power: i32)
    requires
        fits_i32(old(target_hp).current - power),
    ensures
        final(target_hp).current == old(target_hp).current - power,
        final(target_hp).max == old(target_hp).max,
{
    target_hp.current = target_hp.current - power;
}

/// The mode after the player cancels using an item: picking a target ends, any other mode
/// stays.
pub fn mode_after_cancel(mode: AppMode) -> (r: AppMode)
    ensures
        r == (if mode is Targeting {
            AppMode::Game
        } else {
            mode
        }),
{
    match mode {
        AppMode::Targeting => AppMode::Game,
        m => m,
    }
}

/// A fire ball thrown from `src` at `dst`: `None` when `dst` is beyond the scroll's range;
/// otherwise every entity on the grid within the blast radius of `dst`, row by row, each of
/// which takes the scroll's power in damage.
pub fn use_fireball(src: Vec2, dst: Vec2, range: Ranged, radius: u32, grid: &Grid<Stuff>) -> (r: Option<Vec<EntityId>>)
    requires
        grid.wf(),
        src.distance_fits(dst),
        radius <= 0x0800_0000,
        -0x0800_0000 <= dst.x <= 0x0800_0000,
        -0x0800_0000 <= dst.y <= 0x0800_0000,
    ensures
        r is None <==> src.chebyshev_spec(dst) > range.range,
        r matches Some(ids) ==> {
            &&& forall|i: int|
                0 <= i < ids@.len() ==> caught_in_blast(*grid, dst, radius as int, #[trigger] ids@[i])
            &&& forall|x: int, y: int|
                in_blast(*grid, dst, radius as int, x, y) && #[trigger] grid.cell(x, y) is Some
                    ==> ids@.contains(grid.cell(x, y)->0)
        },
{
    if src.chebyshev(dst) > range.range {
        return None;
    }
    let r = radius as i32;
    let mut ids: Vec<EntityId> = Vec::new();
    let ghost mut cells: Seq<(int, int)> = Seq::empty();
    let mut y = dst.y - r;
    while y <= dst.y + r
        invariant
            grid.wf(),
            r == radius,
            radius <= 0x0800_0000,
            -0x0800_0000 <= dst.x <= 0x0800_0000,
            -0x0800_0000 <= dst.y <= 0x0800_0000,
            dst.y - r <= y <= dst.y + r + 1,
            cells.len() == ids@.len(),
            forall|i: int|
                0 <= i < ids@.len() ==> in_blast(*grid, dst, radius as int, (#[trigger] cells[i]).0, cells[i].1)
                    && grid.cell(cells[i].0, cells[i].1) == Some(ids@[i]),
            forall|xx: int, yy: int|
                in_blast(*grid, dst, radius as int, xx, yy) && yy < y && #[trigger] grid.cell(xx, yy) is Some
                    ==> ids@.contains(grid.cell(xx, yy)->0),
        decreases dst.y + r + 1 - y,
    {
        let mut x = dst.x - r;
        while x <= dst.x + r
            invariant
                grid.wf(),
                r == radius,
                radius <= 0x0800_0000,
                -0x0800_0000 <= dst.x <= 0x0800_0000,
                -0x0800_0000 <= dst.y <= 0x0800_0000,
                dst.y - r <= y <= dst.y + r,
                dst.x - r <= x <= dst.x + r + 1,
                cells.len() == ids@.len(),
                forall|i: int|
                    0 <= i < ids@.len() ==> in_blast(*grid, dst, radius as int, (#[trigger] cells[i]).0, cells[i].1)
                        && grid.cell(cells[i].0, cells[i].1) == Some(ids@[i]),
                forall|xx: int, yy: int|
                    in_blast(*grid, dst, radius as int, xx, yy) && (yy < y || (yy == y && xx < x))
                        && #[trigger] grid.cell(xx, yy) is Some ==> ids@.contains(grid.cell(xx, yy)->0),
            decreases dst.x + r + 1 - x,
        {
            if let Some(cell) = grid.at(x, y) {
                if let Some(id) = *cell {
                    let ghost before = ids@;
                    ids.push(id);
                    proof {
                        assert(ids@[before.len() as int] == id);
                        assert(in_blast(*grid, dst, radius as int, x as int, y as int));
                        let ghost before_cells = cells;
                        cells = cells.push((x as int, y as int));
                        assert forall|i: int| 0 <= i < ids@.len() implies in_blast(*grid, dst, radius as int, (#[trigger] cells[i]).0, cells[i].1)
                            && grid.cell(cells[i].0, cells[i].1) == Some(ids@[i]) by {
                            if i < before.len() {
                                assert(ids@[i] == before[i]);
                                assert(cells[i] == before_cells[i]);
                            }
                        }
                        assert forall|xx: int, yy: int|
                            in_blast(*grid, dst, radius as int, xx, yy) && (yy < y || (yy == y && xx < x + 1))
                                && #[trigger] grid.cell(xx, yy) is Some implies ids@.contains(grid.cell(xx, yy)->0) by {
                            if yy == y && xx == x {
                                assert(ids@[before.len() as int] == grid.cell(xx, yy)->0);
                            } else {
                                assert(before.contains(grid.cell(xx, yy)->0));
                                let i = choose|i: int| 0 <= i < before.len() && before[i] == grid.cell(xx, yy)->0;
                                assert(ids@[i] == before[i]);
                            }
                        }
                    }
                }
            }
            x = x + 1;
        }
        y = y + 1;
    }
    proof {
        assert forall|i: int| 0 <= i < ids@.len() implies caught_in_blast(*grid, dst, radius as int, #[trigger] ids@[i]) by {
            let (cx, cy) = cells[i];
            assert(in_blast(*grid, dst, radius as int, cx, cy) && grid.cell(cx, cy) == Some(ids@[i]));
        }
        assert forall|x: int, y: int|
            in_blast(*grid, dst, radius as int, x, y) && #[trigger] grid.cell(x, y) is Some
                implies ids@.contains(grid.cell(x, y)->0) by {
            assert(y < dst.y + r + 1);
        }
    }
    Some(ids)
}

/// Whether a targeted item can be used on the target picked.
#[derive(Clone, Copy, Debug, PartialEq, Eq, Structural)]
pub enum TargetCheck {
    /// No target is picked yet: the player is to pick one.
    NeedsTarget,
    /// The target is not on the map.
    InvalidTarget,
    /// The target is beyond the item's range.
    TooFar,
    /// The item goes off at the target.
    Ready(EntityId),
}

/// Check the picked target of an item aimed at an entity. `target_pos` is where the target
/// stands, if it is on the map, and `range` the item's reach, if it has one.
pub fn check_entity_target(
    target: Option<EntityId>,
    target_pos: Option<Vec2>,
    range: Option<Ranged>,
    player_pos: Vec2,
) -> (r: TargetCheck)
    requires
        target_pos matches Some(p) ==> p.distance_fits(player_pos),
    ensures
        r == match target {
            None => TargetCheck::NeedsTarget,
            Some(id) => match target_pos {
                None => TargetCheck::InvalidTarget,
                Some(p) => match range {
                    Some(rg) => if p.chebyshev_spec(player_pos) > rg.range {
                        TargetCheck::TooFar
                    } else {
                        TargetCheck::Ready(id)
                    },
                    None => TargetCheck::Ready(id),
                },
            },
        },
{
    match target {
        None => TargetCheck::NeedsTarget,
        Some(target_id) => {
            let pos = match target_pos {
                Some(p) => p,
                None => {
                    return TargetCheck::InvalidTarget;
                },
            };
            if let Some(range) = range {
                if pos.chebyshev(player_pos) > range.range {
                    return TargetCheck::TooFar;
                }
            }
            TargetCheck::Ready(target_id)
        },
    }
}

/// Whether an item aimed at a position can be used there.
#[derive(Clone, Copy, Debug, PartialEq, Eq, Structural)]
pub enum PositionCheck {
    /// No position is picked yet: the player is to pick one.
    NeedsPosition,
    /// The position is beyond the item's range.
    TooFar,
    /// The item goes off at the position.
    Ready(Vec2),
}

pub fn check_position_target(target_pos: Option<Vec2>, range: Ranged, player_pos: Vec2) -> (r: PositionCheck)
    requires
        target_pos matches Some(p) ==> p.distance_fits(player_pos),
    ensures
        r == match target_pos {
            None => PositionCheck::NeedsPosition,
            Some(p) => if p.chebyshev_spec(player_pos) > range.range {
                PositionCheck::TooFar
            } else {
                PositionCheck::Ready(p)
            },
        },
{
    match target_pos {
        Some(pos) => {
            if pos.chebyshev(player_pos) > range.range {
                PositionCheck::TooFar
            } else {
                PositionCheck::Ready(pos)
            }
        },
        None => PositionCheck::NeedsPosition,
    }
}

/// Index of the first occurrence of `id`.
pub open spec fn first_index(items: Seq<EntityId>, id: EntityId) -> int
    decreases items.len(),
{
    if items.len() == 0 {
        0
    } else if items[0] == id {
        0
    } else {
        1 + first_index(items.drop_first(), id)
    }
}

/// Equip `id` in a slot: an item already in the slot takes the new item's place in the
/// inventory; an empty slot just takes the item out of the inventory.
pub fn equip_item(id: EntityId, equipment: &mut Option<EntityId>, inventory: &mut Inventory)
    requires
        *old(equipment) is Some ==> old(inventory).items@.contains(id),
    ensures
        *final(equipment) == Some(id),
        final(inventory).capacity == old(inventory).capacity,
        *old(equipment) matches Some(old_id) ==> exists|i: int|
            0 <= i < old(inventory).items@.len() && old(inventory).items@[i] == id && (forall|j: int|
                0 <= j < i ==> old(inventory).items@[j] != id) && final(inventory).items@ == old(
                inventory,
            ).items@.update(i, old_id),
        *old(equipment) is None && !old(inventory).items@.contains(id) ==> final(inventory).items@
            == old(inventory).items@,
        *old(equipment) is None && old(inventory).items@.contains(id) ==> exists|i: int|
            0 <= i < old(inventory).items@.len() && old(inventory).items@[i] == id && (forall|j: int|
                0 <= j < i ==> old(inventory).items@[j] != id) && final(inventory).items@ == old(
                inventory,
            ).items@.remove(i),
        old(inventory).items@.contains(id) ==> final(inventory).items@.to_multiset().insert(id)
            == old(inventory).items@.to_multiset().add(slot_items(*old(equipment))),
{
    // move old weapon back to the inventory
    match *equipment {
        Some(old_id) => {
            let n = inventory.items.len();
            let mut i: usize = 0;
            while i < n
                invariant
                    n == inventory.items@.len(),
                    *inventory == *old(inventory),
                    old(inventory).items@.contains(id),
                    i <= n,
                    forall|j: int| 0 <= j < i ==> inventory.items@[j] != id,
                ensures
                    i <= n,
                    i < n ==> inventory.items@[i as int] == id,
                    forall|j: int| 0 <= j < i ==> inventory.items@[j] != id,
                decreases n - i,
            {
                if inventory.items[i] == id {
                    break;
                }
                i = i + 1;
            }
            proof {
                if i == n {
                    let k = choose|k: int| 0 <= k < old(inventory).items@.len() && old(inventory).items@[k] == id;
                    assert(inventory.items@[k] == id);
                }
            }
            inventory.items.set(i, old_id);
            proof {
                assert(old(inventory).items@[i as int] == id);
                assert(inventory.items@ =~= old(inventory).items@.update(i as int, old_id));
                lemma_swap_keeps_items(old(inventory).items@, i as int, old_id);
            }
        },
        None => {
            // if old id doesn't exist then remove this item from the inventory
            inventory.remove(id);
            proof {
                if old(inventory).items@.contains(id) {
                    let i = choose|i: int|
                        0 <= i < old(inventory).items@.len() && old(inventory).items@[i] == id && (forall|j: int|
                            0 <= j < i ==> old(inventory).items@[j] != id) && inventory.items@ == old(
                            inventory,
                        ).items@.remove(i);
                    lemma_take_out_keeps_items(old(inventory).items@, i);
                }
            }
        },
    }
    *equipment = Some(id);
}

/// What an equipment slot holds, as a multiset of item ids.
pub open spec fn slot_items(slot: Option<EntityId>) -> Multiset<EntityId> {
    match slot {
        Some(x) => Multiset::singleton(x),
        None => Multiset::empty(),
    }
}

/// Putting `a` in place of the item at `i` keeps every item but that one, and adds `a`.
proof fn lemma_swap_keeps_items(items: Seq<EntityId>, i: int, a: EntityId)
    requires
        0 <= i < items.len(),
    ensures
        items.update(i, a).to_multiset().insert(items[i]) == items.to_multiset().add(
            Multiset::singleton(a),
        ),
{
    broadcast use vstd::seq_lib::group_to_multiset_ensures;
    broadcast use vstd::multiset::group_multiset_axioms;

    vstd::seq_lib::to_multiset_update(items, i, a);
    assert(items.to_multiset().count(items[i]) > 0);
    assert(items.update(i, a).to_multiset().insert(items[i]) =~= items.to_multiset().add(
        Multiset::singleton(a),
    ));
}

/// Taking out the item at `i`, then adding it back, gives the same items.
proof fn lemma_take_out_keeps_items(items: Seq<EntityId>, i: int)
    requires
        0 <= i < items.len(),
    ensures
        items.remove(i).to_multiset().insert(items[i]) == items.to_multiset().add(Multiset::empty()),
{
    broadcast use vstd::seq_lib::group_to_multiset_ensures;
    broadcast use vstd::multiset::group_multiset_axioms;

    vstd::seq_lib::to_multiset_remove(items, i);
    assert(items.to_multiset().count(items[i]) > 0);
    assert(items.remove(i).to_multiset().insert(items[i]) =~= items.to_multiset().add(
        Multiset::empty(),
    ));
}

/// Take item `id` out of its equipment `slot` back into the inventory: done only when the
/// slot holds it and the inventory has room; otherwise nothing changes.
pub fn unequip_item(id: EntityId, slot: &mut Option<EntityId>, inventory: &mut Inventory) -> (r: bool)
    ensures
        r == (*old(slot) == Some(id) && old(inventory).items@.len() < old(inventory).capacity),
        r ==> *final(slot) is None && final(inventory).capacity == old(inventory).capacity
            && final(inventory).items@ == old(inventory).items@.push(id),
        !r ==> *final(slot) == *old(slot) && *final(inventory) == *old(inventory),
{
    if *slot != Some(id) || inventory.items.len() >= inventory.capacity {
        return false;
    }
    let _ = inventory.add(id);
    *slot = None;
    true
}

/// Unequip weapon `id` (whose bonus is `item`): when it comes off, the player loses its bonus.
pub fn unequip_weapon(id: EntityId, item: Melee, player: &mut Melee, slot: &mut Option<EntityId>, inventory: &mut Inventory) -> (r: bool)
    requires
        fits_i32(old(player).power - item.power),
        fits_i32(old(player).skill - item.skill),
    ensures
        r == (*old(slot) == Some(id) && old(inventory).items@.len() < old(inventory).capacity),
        r ==> *final(slot) is None && final(inventory).capacity == old(inventory).capacity
            && final(inventory).items@ == old(inventory).items@.push(id)
            && final(player).power == old(player).power - item.power
            && final(player).skill == old(player).skill - item.skill,
        !r ==> *final(slot) == *old(slot) && *final(inventory) == *old(inventory) && *final(player) == *old(player),
{
    let r = unequip_item(id, slot, inventory);
    if r {
        player.sub_assign(item);
    }
    r
}

/// Unequip armour `id` (whose bonus is `item`): when it comes off, the player loses its bonus.
pub fn unequip_armor(id: EntityId, item: Defense, player: &mut Defense, slot: &mut Option<EntityId>, inventory: &mut Inventory) -> (r: bool)
    requires
        fits_i32(old(player).melee_defense - item.melee_defense),
    ensures
        r == (*old(slot) == Some(id) && old(inventory).items@.len() < old(inventory).capacity),
        r ==> *final(slot) is None && final(inventory).capacity == old(inventory).capacity
            && final(inventory).items@ == old(inventory).items@.push(id)
            && final(player).melee_defense == old(player).melee_defense - item.melee_defense,
        !r ==> *final(slot) == *old(slot) && *final(inventory) == *old(inventory) && *final(player) == *old(player),
{
    let r = unequip_item(id, slot, inventory);
    if r {
        player.sub_assign(item);
    }
    r
}

/// Equip a weapon: the player's melee stats gain the new weapon's and lose those of the one
/// it replaces (if that one has any), and the weapon slot and inventory change as
/// [`equip_item`] does.
pub fn equip_weapon(
    id: EntityId,
    item: Melee,
    old_item: Option<Melee>,
    player: &mut Melee,
    slot: &mut Option<EntityId>,
    inventory: &mut Inventory,
)
    requires
        *old(slot) is Some ==> old(inventory).items@.contains(id),
        fits_i32(old(player).power + item.power),
        fits_i32(old(player).skill + item.skill),
        old_item matches Some(o) ==> fits_i32(old(player).power + item.power - o.power) && fits_i32(
            old(player).skill + item.skill - o.skill,
        ),
    ensures
        *final(slot) == Some(id),
        final(player).power == old(player).power + item.power - match old_item {
            Some(o) => o.power as int,
            None => 0,
        },
        final(player).skill == old(player).skill + item.skill - match old_item {
            Some(o) => o.skill as int,
            None => 0,
        },
        final(inventory).capacity == old(inventory).capacity,
        *old(slot) matches Some(old_id) ==> exists|i: int|
            0 <= i < old(inventory).items@.len() && old(inventory).items@[i] == id && (forall|j: int|
                0 <= j < i ==> old(inventory).items@[j] != id) && final(inventory).items@ == old(
                inventory,
            ).items@.update(i, old_id),
        *old(slot) is None && !old(inventory).items@.contains(id) ==> final(inventory).items@
            == old(inventory).items@,
        *old(slot) is None && old(inventory).items@.contains(id) ==> exists|i: int|
            0 <= i < old(inventory).items@.len() && old(inventory).items@[i] == id && (forall|j: int|
                0 <= j < i ==> old(inventory).items@[j] != id) && final(inventory).items@ == old(
                inventory,
            ).items@.remove(i),
        old(inventory).items@.contains(id) ==> final(inventory).items@.to_multiset().insert(id)
            == old(inventory).items@.to_multiset().add(slot_items(*old(slot))),
{
    // update power
    player.add_assign(item);
    if let Some(old_power) = old_item {
        player.sub_assign(old_power);
    }
    equip_item(id, slot, inventory);
}

/// Equip armor: like [`equip_weapon`], for melee defense.
pub fn equip_armor(
    id: EntityId,
    item: Defense,
    old_item: Option<Defense>,
    player: &mut Defense,
    slot: &mut Option<EntityId>,
    inventory: &mut Inventory,
)
    requires
        *old(slot) is Some ==> old(inventory).items@.contains(id),
        fits_i32(old(player).melee_defense + item.melee_defense),
        old_item matches Some(o) ==> fits_i32(old(player).melee_defense + item.melee_defense - o.melee_defense),
    ensures
        *final(slot) == Some(id),
        final(player).melee_defense == old(player).melee_defense + item.melee_defense - match old_item {
            Some(o) => o.melee_defense as int,
            None => 0,
        },
        final(inventory).capacity == old(inventory).capacity,
        *old(slot) matches Some(old_id) ==> exists|i: int|
            0 <= i < old(inventory).items@.len() && old(inventory).items@[i] == id && (forall|j: int|
                0 <= j < i ==> old(inventory).items@[j] != id) && final(inventory).items@ == old(
                inventory,
            ).items@.update(i, old_id),
        *old(slot) is None && !old(inventory).items@.contains(id) ==> final(inventory).items@
            == old(inventory).items@,
        *old(slot) is None && old(inventory).items@.contains(id) ==> exists|i: int|
            0 <= i < old(inventory).items@.len() && old(inventory).items@[i] == id && (forall|j: int|
                0 <= j < i ==> old(inventory).items@[j] != id) && final(inventory).items@ == old(
                inventory,
            ).items@.remove(i),
        old(inventory).items@.contains(id) ==> final(inventory).items@.to_multiset().insert(id)
            == old(inventory).items@.to_multiset().add(slot_items(*old(slot))),
{
    // update defense
    player.add_assign(item);
    if let Some(old_defense) = old_item {
        player.sub_assign(old_defense);
    }
    equip_item(id, slot, inventory);
}

/// Sum of the melee power of the items that have any.
pub open spec fn items_power(items: Seq<Option<Melee>>) -> int
    decreases items.len(),
{
    if items.len() == 0 {
        0
    } else {
        items_power(items.drop_last()) + match items.last() {
            Some(m) => m.power as int,
            None => 0,
        }
    }
}

/// The player's melee power: 1, plus the power of every carried item that has one.
pub fn update_player_inventory(items: &Vec<Option<Melee>>, player: &mut Melee)
    requires
        forall|k: int| 0 <= k <= items@.len() ==> fits_i32(1 + #[trigger] items_power(items@.take(k))),
    ensures
        final(player).power == 1 + items_power(items@),
        final(player).skill == old(player).skill,
{
    let mut power: i32 = 1;
    let mut i: usize = 0;
    while i < items.len()
        invariant
            i <= items@.len(),
            forall|k: int| 0 <= k <= items@.len() ==> fits_i32(1 + #[trigger] items_power(items@.take(k))),
            power == 1 + items_power(items@.take(i as int)),
        decreases items@.len() - i,
    {
        proof {
            assert(items@.take(i + 1).drop_last() =~= items@.take(i as int));
            assert(fits_i32(1 + items_power(items@.take(i + 1))));
        }
        if let Some(melee_weapon) = items[i] {
            power = power + melee_weapon.power;
        }
        i = i + 1;
    }
    proof {
        assert(items@.take(items@.len() as int) =~= items@);
    }
    player.power = power;
}

/// The player's numbers that a level-up changes.
#[derive(Clone, Copy, Debug, PartialEq, Eq, Structural)]
pub struct PlayerStats {
    pub hp: Hp,
    pub melee: Melee,
    pub level: Level,
    pub defense: Defense,
}

/// What a level-up check did.
#[derive(Clone, Copy, Debug, PartialEq, Eq, Structural)]
pub enum LevelupOutcome {
    /// Not enough experience for a level-up, or the player is still choosing.
    Nothing,
    /// The player is now to choose a stat to upgrade.
    ChooseStat,
    /// The player went up a level and improved the chosen stat; `again` when the experience
    /// left suffices for yet another level-up.
    LeveledUp { again: bool },
}

/// The stats after improving `stat`: one more attack, ten more health (current and
/// maximum), or one more melee defense.
pub open spec fn improved(s: PlayerStats, stat: DesiredStat) -> PlayerStats {
    match stat {
        DesiredStat::Attack => PlayerStats { melee: Melee { power: (s.melee.power + 1) as i32, ..s.melee }, ..s },
        DesiredStat::Hp => PlayerStats {
            hp: Hp { current: (s.hp.current + 10) as i32, max: (s.hp.max + 10) as i32 },
            ..s
        },
        DesiredStat::MeleeDefense => PlayerStats {
            defense: Defense { melee_defense: (s.defense.melee_defense + 1) as i32 },
            ..s
        },
    }
}

/// When the player has the experience for a level-up: with a stat chosen, go up a level and
/// improve it, staying in level-up mode while yet another level-up is due; without one, ask
/// for a stat (switching to level-up mode).
pub fn handle_levelup(app_mode: &mut AppMode, stat: &mut Option<DesiredStat>, stats: &mut PlayerStats) -> (r: LevelupOutcome)
    requires
        old(stats).level.threshold_fits(),
        old(stats).level.current_level < u32::MAX,
        (Level { current_level: (old(stats).level.current_level + 1) as u32, ..old(stats).level }).threshold_fits(),
        old(stats).melee.power < i32::MAX,
        old(stats).hp.current <= i32::MAX - 10,
        old(stats).hp.max <= i32::MAX - 10,
        old(stats).defense.melee_defense < i32::MAX,
    ensures
        !old(stats).level.needs_levelup_spec() ==> r == LevelupOutcome::Nothing && *final(app_mode)
            == *old(app_mode) && *final(stat) == *old(stat) && *final(stats) == *old(stats),
        old(stats).level.needs_levelup_spec() ==> match *old(stat) {
            Some(s) => {
                let leveled = Level {
                    current_level: (old(stats).level.current_level + 1) as u32,
                    current_xp: (old(stats).level.current_xp - old(stats).level.spec_experience_to_next_level()) as u32,
                    ..old(stats).level
                };
                &&& *final(stat) is None
                &&& *final(stats) == improved(PlayerStats { level: leveled, ..*old(stats) }, s)
                &&& r == LevelupOutcome::LeveledUp { again: leveled.needs_levelup_spec() }
                &&& *final(app_mode) == if leveled.needs_levelup_spec() {
                    *old(app_mode)
                } else {
                    AppMode::Game
                }
            },
            None => {
                &&& *final(stat) is None
                &&& *final(stats) == *old(stats)
                &&& *final(app_mode) == AppMode::Levelup
                &&& r == if *old(app_mode) == AppMode::Levelup {
                    LevelupOutcome::Nothing
                } else {
                    LevelupOutcome::ChooseStat
                }
            },
        },
{
    if !stats.level.needs_levelup() {
        return LevelupOutcome::Nothing;
    }
    let chosen = *stat;
    *stat = None;
    match chosen {
        Some(s) => {
            stats.level.levelup();
            // player _might_ level up multiple times in a single tick
            let again = stats.level.needs_levelup();
            if !again {
                *app_mode = AppMode::Game;
            }
            match s {
                DesiredStat::Attack => {
                    stats.melee.power = stats.melee.power + 1;
                },
                DesiredStat::Hp => {
                    let amount: i32 = 10;
                    stats.hp.current = stats.hp.current + amount;
                    stats.hp.max = stats.hp.max + amount;
                },
                DesiredStat::MeleeDefense => {
                    stats.defense.melee_defense = stats.defense.melee_defense + 1;
                },
            }
            LevelupOutcome::LeveledUp { again }
        },
        None => {
            if !matches!(*app_mode, AppMode::Levelup) {
                *app_mode = AppMode::Levelup;
                LevelupOutcome::ChooseStat
            } else {
                LevelupOutcome::Nothing
            }
        },
    }
}

/// A turn of poison: once it has run out it is removed (returns `true`, nothing else
/// changes); otherwise a turn of it passes and the victim takes its power in damage (at
/// least 1).
pub fn update_poison(hp: &mut Hp, poison: &mut Poisoned) -> (wears_off: bool)
    requires
        old(poison).duration > i32::MIN,
        fits_i32(old(hp).current - spec_compute_damage(old(poison).power as int, 0)),
    ensures
        wears_off == (old(poison).duration <= 0),
        wears_off ==> *final(hp) == *old(hp) && *final(poison) == *old(poison),
        !wears_off ==> final(poison).duration == old(poison).duration - 1 && final(poison).power
            == old(poison).power && final(hp).max == old(hp).max && final(hp).current == old(hp).current
            - spec_compute_damage(old(poison).power as int, 0),
{
    if poison.duration <= 0 {
        return true;
    }
    poison.duration = poison.duration - 1;
    // nothing resists poison
    hp.current = hp.current - compute_damage(poison.power, 0);
    false
}

/// A turn of confusion passes; returns whether it is over.
pub fn update_confusion(confusion: &mut ConfusedAi) -> (over: bool)
    requires
        old(confusion).duration > i32::MIN,
    ensures
        final(confusion).duration == old(confusion).duration - 1,
        over == (final(confusion).duration <= 0),
{
    confusion.duration = confusion.duration - 1;
    confusion.duration <= 0
}

/// The player has died.
pub fn update_player_hp(hp: Hp) -> (dead: bool)
    ensures
        dead == (hp.current <= 0),
{
    hp.current <= 0
}

/// A monster at or below zero health dies, and the player (if there is one) gains its
/// experience. Returns whether it died.
pub fn update_ai_hp(hp: Hp, xp: Option<Exp>, player_level: &mut Option<Level>) -> (died: bool)
    requires
        hp.current <= 0 ==> match (*old(player_level), xp) {
            (Some(l), Some(e)) => l.current_xp + e.amount <= u32::MAX,
            _ => true,
        },
    ensures
        died == (hp.current <= 0),
        *final(player_level) == match (*old(player_level), xp) {
            (Some(l), Some(e)) if died => Some(Level { current_xp: (l.current_xp + e.amount) as u32, ..l }),
            _ => *old(player_level),
        },
{
    if hp.current > 0 {
        return false;
    }
    if let Some(xp) = xp {
        match player_level {
            Some(level) => {
                level.add_xp(xp.amount);
            },
            None => {},
        }
    }
    true
}

/// The inventory item the player is using, if any.
#[derive(Clone, Copy, Debug, PartialEq, Eq, Structural)]
pub struct UseItem(pub Option<EntityId>);

/// What using an item did.
#[derive(Clone, Copy, Debug, PartialEq, Eq, Structural)]
pub enum ItemUseOutcome {
    /// No item is in use.
    Idle,
    /// The item has no kind: it is discarded.
    NoTag,
    /// A potion was drunk (and is used up); it had no effect at full health.
    Healed { had_effect: bool },
    /// A bolt needs a target first: the player is to pick one.
    NeedsTarget,
    /// The picked target cannot be hit.
    InvalidTarget,
    /// The picked target is beyond the bolt's range.
    TooFar,
    /// The bolt hit, leaving the target with `hp` (and is used up).
    BoltHit { target: EntityId, hp: Hp },
    /// The bolt missed (and is used up).
    BoltMissed,
}

/// The outcome used the item up.
pub open spec fn item_spent(r: ItemUseOutcome) -> bool {
    r is NoTag || r is Healed || r is BoltHit || r is BoltMissed
}

/// Use the item in `use_item`, of kind `tag`: drink a potion (`heal` is its strength), or
/// fire a lightning bolt (`range`) at the target picked in `actions`, whose health and
/// position are `target_hp` and `target_pos` when it has them. An item that is used up (or
/// has no kind) leaves the player's `inventory` and is no longer in use; the caller deletes
/// its entity.
pub fn update_player_item_use(
    use_item: &mut UseItem,
    inventory: &mut Inventory,
    tag: Option<StuffTag>,
    actions: &PlayerActions,
    player_pos: Vec2,
    player_hp: &mut Hp,
    heal: Option<Heal>,
    target_hp: Option<Hp>,
    target_pos: Option<Vec2>,
    range: Option<Ranged>,
) -> (r: ItemUseOutcome)
    requires
        old(use_item).0 is Some ==> match tag {
            None => true,
            Some(StuffTag::HpPotion) => heal matches Some(h) && fits_i32(old(player_hp).current + h.hp),
            Some(StuffTag::LightningScroll) => range matches Some(rg) && (target_pos matches Some(
                p,
            ) ==> p.distance_fits(player_pos)) && (target_hp matches Some(h) ==> fits_i32(h.current - rg.power)),
            _ => false,
        },
    ensures
        item_spent(r) ==> final(use_item).0 is None && final(inventory).capacity == old(inventory).capacity
            && final(inventory).items@ == remove_first(old(inventory).items@, old(use_item).0->0),
        !item_spent(r) ==> *final(use_item) == *old(use_item) && *final(inventory) == *old(inventory),
        old(use_item).0 is None ==> r == ItemUseOutcome::Idle && *final(player_hp) == *old(player_hp),
        old(use_item).0 is Some ==> match tag {
            None => r == ItemUseOutcome::NoTag && *final(player_hp) == *old(player_hp),
            Some(StuffTag::HpPotion) => {
                let h = heal->0;
                &&& r == ItemUseOutcome::Healed { had_effect: old(player_hp).current < old(player_hp).max }
                &&& final(player_hp).max == old(player_hp).max
                &&& final(player_hp).current == if old(player_hp).current + h.hp < old(player_hp).max {
                    old(player_hp).current + h.hp
                } else {
                    old(player_hp).max as int
                }
            },
            _ => {
                let rg = range->0;
                &&& *final(player_hp) == *old(player_hp)
                &&& match actions.spec_target() {
                    None => r == ItemUseOutcome::NeedsTarget,
                    Some(t) => if target_hp is None || target_pos is None {
                        r == ItemUseOutcome::InvalidTarget
                    } else if (target_pos->0).chebyshev_spec(player_pos) > rg.range {
                        r == ItemUseOutcome::TooFar
                    } else {
                        &&& r == ItemUseOutcome::BoltHit {
                            target: t,
                            hp: Hp { current: ((target_hp->0).current - rg.power) as i32, ..target_hp->0 },
                        } || r == ItemUseOutcome::BoltMissed
                        &&& rg.skill >= 6 ==> r is BoltHit
                        &&& rg.skill < 1 ==> r is BoltMissed
                    },
                }
            },
        },
{
    let id = match use_item.0 {
        Some(id) => id,
        None => {
            return ItemUseOutcome::Idle;
        },
    };
    let r = item_effect(tag, actions, player_pos, player_hp, heal, target_hp, target_pos, range);
    let spent = match r {
        ItemUseOutcome::NoTag | ItemUseOutcome::Healed { .. } | ItemUseOutcome::BoltHit { .. }
        | ItemUseOutcome::BoltMissed => true,
        _ => false,
    };
    if spent {
        inventory.remove(id);
        use_item.0 = None;
    }
    r
}

/// The effect of using an item of kind `tag` (see `update_player_item_use`).
fn item_effect(
    tag: Option<StuffTag>,
    actions: &PlayerActions,
    player_pos: Vec2,
    player_hp: &mut Hp,
    heal: Option<Heal>,
    target_hp: Option<Hp>,
    target_pos: Option<Vec2>,
    range: Option<Ranged>,
) -> (r: ItemUseOutcome)
    requires
        match tag {
            None => true,
            Some(StuffTag::HpPotion) => heal matches Some(h) && fits_i32(old(player_hp).current + h.hp),
            Some(StuffTag::LightningScroll) => range matches Some(rg) && (target_pos matches Some(
                p,
            ) ==> p.distance_fits(player_pos)) && (target_hp matches Some(h) ==> fits_i32(h.current - rg.power)),
            _ => false,
        },
    ensures
        r !is Idle,
        match tag {
            None => r == ItemUseOutcome::NoTag && *final(player_hp) == *old(player_hp),
            Some(StuffTag::HpPotion) => {
                let h = heal->0;
                &&& r == ItemUseOutcome::Healed { had_effect: old(player_hp).current < old(player_hp).max }
                &&& final(player_hp).max == old(player_hp).max
                &&& final(player_hp).current == if old(player_hp).current + h.hp < old(player_hp).max {
                    old(player_hp).current + h.hp
                } else {
                    old(player_hp).max as int
                }
            },
            _ => {
                let rg = range->0;
                &&& *final(player_hp) == *old(player_hp)
                &&& match actions.spec_target() {
                    None => r == ItemUseOutcome::NeedsTarget,
                    Some(t) => if target_hp is None || target_pos is None {
                        r == ItemUseOutcome::InvalidTarget
                    } else if (target_pos->0).chebyshev_spec(player_pos) > rg.range {
                        r == ItemUseOutcome::TooFar
                    } else {
                        &&& r == ItemUseOutcome::BoltHit {
                            target: t,
                            hp: Hp { current: ((target_hp->0).current - rg.power) as i32, ..target_hp->0 },
                        } || r == ItemUseOutcome::BoltMissed
                        &&& rg.skill >= 6 ==> r is BoltHit
                        &&& rg.skill < 1 ==> r is BoltMissed
                    },
                }
            },
        },
{
    match tag {
        Some(StuffTag::HpPotion) => {
            let heal = match heal {
                Some(h) => h,
                None => {
                    return ItemUseOutcome::NoTag;
                },
            };
            let had_effect = use_hp_potion(player_hp, heal);
            ItemUseOutcome::Healed { had_effect }
        },
        Some(_) => {
            let target_id = match actions.target() {
                Some(t) => t,
                None => {
                    return ItemUseOutcome::NeedsTarget;
                },
            };
            let mut hp = match target_hp {
                Some(h) => h,
                None => {
                    return ItemUseOutcome::InvalidTarget;
                },
            };
            let pos = match target_pos {
                Some(p) => p,
                None => {
                    return ItemUseOutcome::InvalidTarget;
                },
            };
            let range = match range {
                Some(rg) => rg,
                None => {
                    return ItemUseOutcome::InvalidTarget;
                },
            };
            if pos.chebyshev(player_pos) > range.range {
                return ItemUseOutcome::TooFar;
            }
            if use_lightning_scroll(&mut hp, range) {
                ItemUseOutcome::BoltHit { target: target_id, hp }
            } else {
                ItemUseOutcome::BoltMissed
            }
        },
        None => ItemUseOutcome::NoTag,
    }
}

} // verus!

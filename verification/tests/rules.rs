use rogue_boi::actions::{InputEvent, PlayerActions};
use rogue_boi::ai::{
    ai_move, confused_step, melee_strike, melee_target, perform_move, update_melee_ai, MeleeOutcome,
    MeleeTarget,
};
use rogue_boi::archetypes::{item_actions, kind_looks, kind_stats, spawn_extras, stuff_traits, to_item_desc, usable, Aim, ScrollEffect};
use rogue_boi::combat::{
    burn, mode_after_cancel, unequip_armor, unequip_weapon,
    check_entity_target, check_position_target, equip_armor, equip_item, equip_weapon,
    handle_levelup, update_ai_hp, update_confusion, update_player_hp, update_player_inventory,
    update_player_item_use, update_poison, use_confusion_scroll, use_fireball, use_hp_potion,
    use_lightning_scroll, use_poison_scroll, ItemUseOutcome, LevelupOutcome, PlayerStats,
    PositionCheck, TargetCheck, UseItem,
};
use rogue_boi::components::{
    AppMode, BounceOffTime, CameraPos, ConfusedAi, Defense, DeltaTime, DesiredStat, DungeonFloor,
    EntityId, Equipment, EquipmentType, Exp, GameTick, Heal, Hp, Inventory, LastPos, Leash, Level,
    LogHistory, Melee, Poisoned, Pos, Ranged, Selected, StuffTag, TargetPos, TickInMs,
};
use rogue_boi::fov::{update_fov, walk_grid_on_segment};
use rogue_boi::grid::Grid;
use rogue_boi::math::Vec2;
use rogue_boi::pathfinder::PathCache;
use rogue_boi::rng::{roll_inclusive, skill_check, skill_passes};
use rogue_boi::save::{load_bytes, save_text, LoadError};
use rogue_boi::systems::{
    clean_inputs, compute_damage, dungeon_dims, grid_step, handle_click, handle_player_move,
    handle_targeting, init_grids, init_static_grid, player_prepare, record_last_pos,
    should_update_player, should_update_world, update_camera_pos, update_grid, update_output,
    update_player_world_interact, update_should_tick, update_tick, InteractOutcome, MoveOutcome,
};

fn id(n: u32) -> EntityId {
    EntityId(n)
}

#[test]
fn dice_and_skill_checks() {
    let mut rng = rand::thread_rng();
    for _ in 0..50 {
        let r = roll_inclusive(&mut rng, 1, 6);
        assert!((1..=6).contains(&r));
        // a die shows something other than its lower bound now and then
    }
    assert_eq!(roll_inclusive(&mut rng, 4, 4), 4);
    assert!(skill_check(6));
    assert!(skill_check(100));
    assert!(!skill_check(0));
    assert!(skill_passes(3, 3));
    assert!(!skill_passes(4, 3));
}

#[test]
fn damage_is_at_least_one() {
    assert_eq!(compute_damage(5, 2), 3);
    assert_eq!(compute_damage(2, 2), 1);
    assert_eq!(compute_damage(1, 9), 1);
}

#[test]
fn tick_bookkeeping() {
    let mut t = GameTick(1);
    update_tick(&mut t);
    assert_eq!(t.0, 2);
    assert!(should_update_world(true, true));
    assert!(!should_update_world(false, true));
    assert!(!should_update_player(true, false));
    let mut cam = CameraPos(Vec2::zero());
    update_camera_pos(&mut cam, Some(Pos(Vec2::new(3, 4))));
    assert_eq!(cam.0, Vec2::new(3, 4));
    update_camera_pos(&mut cam, None);
    assert_eq!(cam.0, Vec2::new(3, 4));
    let mut last = LastPos(Vec2::zero());
    record_last_pos(&mut last, Pos(Vec2::new(1, 1)));
    assert_eq!(last.0, Vec2::new(1, 1));
    assert_eq!(dungeon_dims(1), Vec2::new(64, 64));
    assert_eq!(dungeon_dims(3), Vec2::new(96, 96));
    assert_eq!(dungeon_dims(4), Vec2::new(115, 115));
    assert_eq!(dungeon_dims(77), Vec2::new(128, 128));
}

#[test]
fn should_tick_waits_for_time_and_actions() {
    let mut actions = PlayerActions::new();
    actions.insert_wait();
    let mut dt = DeltaTime(40);
    let mut time = BounceOffTime(0);
    assert!(!update_should_tick(&mut dt, &mut time, true, false, &actions, TickInMs(100)));
    assert_eq!((dt.0, time.0), (0, 40));
    let mut dt = DeltaTime(57);
    // 97 ms is within the 5 ms of lag compensation
    assert!(update_should_tick(&mut dt, &mut time, true, false, &actions, TickInMs(100)));
    assert_eq!(time.0, 0);
    let mut dt = DeltaTime(500);
    assert!(!update_should_tick(&mut dt, &mut time, false, false, &actions, TickInMs(100)));
    let empty = PlayerActions::new();
    let mut dt = DeltaTime(500);
    let mut time = BounceOffTime(0);
    assert!(!update_should_tick(&mut dt, &mut time, true, false, &empty, TickInMs(100)));
    let mut dt = DeltaTime(0);
    assert!(update_should_tick(&mut dt, &mut time, true, true, &empty, TickInMs(100)));
}

#[test]
fn preparing_the_players_turn() {
    let mut actions = PlayerActions::new();
    let plan = player_prepare(false, true, &actions);
    assert!(!plan.update_world && !plan.update_player);
    let plan = player_prepare(true, true, &actions);
    assert!(plan.update_world && plan.update_player && !plan.waiting);
    let plan = player_prepare(true, false, &actions);
    assert!(plan.update_world && !plan.update_player);
    actions.insert_wait();
    let plan = player_prepare(true, true, &actions);
    assert!(plan.update_world && !plan.update_player && plan.waiting);
}

#[test]
fn targeting_modes() {
    let mut actions = PlayerActions::new();
    let mut mode = AppMode::Targeting;
    let no_pos = TargetPos { pos: None };
    assert!(!handle_targeting(true, &actions, &mut mode, &no_pos));
    assert_eq!(mode, AppMode::Targeting);
    actions.set_target(id(3));
    assert!(handle_targeting(true, &actions, &mut mode, &no_pos));
    assert_eq!(mode, AppMode::Game);
    let mut mode = AppMode::TargetingPosition;
    assert!(handle_targeting(true, &actions, &mut mode, &TargetPos { pos: Some(Vec2::zero()) }));
    assert_eq!(mode, AppMode::Game);
    let mut mode = AppMode::Levelup;
    assert!(!handle_targeting(true, &actions, &mut mode, &no_pos));
    assert_eq!(mode, AppMode::Levelup);
}

#[test]
fn inputs_are_cleaned_after_a_tick() {
    let mut inputs = vec![InputEvent::KeyDown { key: "w".to_string() }];
    let mut actions = PlayerActions::new();
    actions.insert_move(Vec2::new(1, 0));
    let mut target = TargetPos { pos: Some(Vec2::zero()) };
    clean_inputs(false, &mut inputs, &mut actions, &mut target);
    assert_eq!(inputs.len(), 1);
    assert_eq!(actions.len(), 1);
    clean_inputs(true, &mut inputs, &mut actions, &mut target);
    assert!(inputs.is_empty());
    assert!(actions.is_empty());
    assert_eq!(target.pos, None);
}

fn empty_grid(w: i32, h: i32) -> Grid<Option<EntityId>> {
    Grid::new(Vec2::new(w, h))
}

#[test]
fn grids_are_layered() {
    let mut static_grid = empty_grid(3, 3);
    let mut grid = empty_grid(3, 3);
    let statics = vec![(id(1), Vec2::new(0, 0)), (id(2), Vec2::new(1, 1))];
    let dynamics = vec![(id(3), Vec2::new(1, 1)), (id(4), Vec2::new(2, 2)), (id(5), Vec2::new(2, 2))];
    init_grids(&statics, &dynamics, &mut static_grid, &mut grid);
    assert_eq!(*static_grid.get(Vec2::new(1, 1)), Some(id(2)));
    assert_eq!(*grid.get(Vec2::new(0, 0)), Some(id(1)));
    assert_eq!(*grid.get(Vec2::new(1, 1)), Some(id(3)));
    assert_eq!(*grid.get(Vec2::new(2, 2)), Some(id(5)));
    assert_eq!(*grid.get(Vec2::new(2, 0)), None);

    // a static grid of another size is resized
    let mut small = empty_grid(1, 1);
    init_grids(&statics, &Vec::new(), &mut small, &mut grid);
    assert_eq!(small.dims(), Vec2::new(3, 3));

    let mut s = empty_grid(3, 3);
    s.set(Vec2::new(2, 1), Some(id(9)));
    init_static_grid(&vec![(id(7), Vec2::new(0, 2))], &mut s);
    assert_eq!(*s.get(Vec2::new(2, 1)), None);
    assert_eq!(*s.get(Vec2::new(0, 2)), Some(id(7)));

    let mut g = empty_grid(3, 3);
    update_grid(
        &mut g,
        &static_grid,
        &vec![(id(10), Vec2::new(0, 0))],
        &vec![(id(11), Vec2::new(0, 0))],
        &vec![(id(12), Vec2::new(2, 0))],
    );
    assert_eq!(*g.get(Vec2::new(0, 0)), Some(id(11)));
    assert_eq!(*g.get(Vec2::new(2, 0)), Some(id(12)));
    assert_eq!(*g.get(Vec2::new(1, 1)), Some(id(2)));
}

#[test]
fn grid_step_moves_the_occupant() {
    let mut grid = empty_grid(3, 1);
    grid.set(Vec2::new(0, 0), Some(id(1)));
    let mut pos = Vec2::new(0, 0);
    grid_step(&mut pos, Vec2::new(2, 0), &mut grid);
    assert_eq!(pos, Vec2::new(2, 0));
    assert_eq!(*grid.get(Vec2::new(0, 0)), None);
    assert_eq!(*grid.get(Vec2::new(2, 0)), Some(id(1)));
}

#[test]
fn player_moves_opens_attacks_and_bumps() {
    let melee = Melee { power: 5, skill: 6 };
    let mut grid = empty_grid(4, 4);
    grid.set(Vec2::new(1, 1), Some(id(1)));
    let mut actions = PlayerActions::new();
    let mut pos = Vec2::new(1, 1);
    assert_eq!(handle_player_move(&actions, &melee, &mut pos, None, 0, &mut grid), MoveOutcome::NoMove);
    actions.insert_move(Vec2::new(1, 0));
    grid.set(Vec2::new(2, 1), Some(id(2)));
    let r = handle_player_move(&actions, &melee, &mut pos, Some((id(2), StuffTag::Wall)), 0, &mut grid);
    assert_eq!(r, MoveOutcome::Blocked);
    assert_eq!(pos, Vec2::new(1, 1));
    let r = handle_player_move(&actions, &melee, &mut pos, Some((id(2), StuffTag::Door)), 0, &mut grid);
    assert_eq!(r, MoveOutcome::OpenedDoor(id(2)));
    let r = handle_player_move(&actions, &melee, &mut pos, Some((id(2), StuffTag::Orc)), 2, &mut grid);
    assert_eq!(r, MoveOutcome::Hit { target: id(2), damage: 3 });
    let clumsy = Melee { power: 5, skill: 0 };
    let r = handle_player_move(&actions, &clumsy, &mut pos, Some((id(2), StuffTag::Troll)), 2, &mut grid);
    assert_eq!(r, MoveOutcome::Missed(id(2)));
    let r = handle_player_move(&actions, &melee, &mut pos, Some((id(2), StuffTag::HpPotion)), 0, &mut grid);
    assert_eq!(r, MoveOutcome::Stepped);
    assert_eq!(pos, Vec2::new(2, 1));
    assert_eq!(*grid.get(Vec2::new(2, 1)), Some(id(1)));
    assert_eq!(*grid.get(Vec2::new(1, 1)), None);
}

#[test]
fn interacting_picks_up_and_descends() {
    let mut actions = PlayerActions::new();
    let mut inv = Inventory::new(1);
    let mut floor = DungeonFloor { current: 1, desired: 1 };
    let r = update_player_world_interact(&actions, id(1), Some(id(5)), true, false, &mut inv, &mut floor);
    assert_eq!(r, InteractOutcome::NoInteraction);
    actions.insert_interact();
    let r = update_player_world_interact(&actions, id(1), Some(id(1)), false, false, &mut inv, &mut floor);
    assert_eq!(r, InteractOutcome::NothingToDo);
    let r = update_player_world_interact(&actions, id(1), Some(id(5)), true, false, &mut inv, &mut floor);
    assert_eq!(r, InteractOutcome::PickedUp(id(5)));
    assert_eq!(inv.iter(), vec![id(5)]);
    let r = update_player_world_interact(&actions, id(1), Some(id(6)), true, false, &mut inv, &mut floor);
    assert_eq!(r, InteractOutcome::InventoryFull(id(6)));
    let r = update_player_world_interact(&actions, id(1), Some(id(7)), false, true, &mut inv, &mut floor);
    assert_eq!(r, InteractOutcome::Descend);
    assert_eq!(floor.desired, 2);
    assert_eq!(floor.current, 1);
    let r = update_player_world_interact(&actions, id(1), Some(id(8)), false, false, &mut inv, &mut floor);
    assert_eq!(r, InteractOutcome::CantInteract(id(8)));
}

#[test]
fn clicks_select_what_is_seen() {
    let mut visible: Grid<bool> = Grid::new(Vec2::new(3, 3));
    visible.set(Vec2::new(1, 1), true);
    let mut grid = empty_grid(3, 3);
    grid.set(Vec2::new(1, 1), Some(id(4)));
    grid.set(Vec2::new(2, 2), Some(id(5)));
    let mut selected = Selected(None);
    let mut target = TargetPos { pos: None };
    handle_click(AppMode::Game, Vec2::new(1, 1), &visible, &grid, &mut selected, &mut target);
    assert_eq!(selected.0, Some(id(4)));
    assert_eq!(target.pos, None);
    handle_click(AppMode::TargetingPosition, Vec2::new(2, 2), &visible, &grid, &mut selected, &mut target);
    assert_eq!(selected.0, None);
    assert_eq!(target.pos, Some(Vec2::new(2, 2)));
    handle_click(AppMode::Game, Vec2::new(-5, 1), &visible, &grid, &mut selected, &mut target);
    assert_eq!(selected.0, None);
}

#[test]
fn output_collects_player_and_log() {
    let mut log = LogHistory::default();
    log.push("white", "hi");
    let level = Level::default();
    let out = update_output(
        Some((Pos(Vec2::new(1, 2)), Hp::new(10), Melee { power: 3, skill: 1 }, level, Defense::new(2))),
        Selected(Some(id(9))),
        &log,
        AppMode::Targeting,
        DungeonFloor { current: 4, desired: 4 },
    );
    let p = out.player.unwrap();
    assert_eq!(p.needed_xp, 350);
    assert_eq!(p.player_attack, 3);
    assert_eq!(p.player_pos, Vec2::new(1, 2));
    assert_eq!(out.log, vec!["<span style=\"color:white\">hi</span>".to_string()]);
    assert!(out.targeting);
    assert_eq!(out.dungeon_level, 4);
    assert_eq!(out.selected, Some(id(9)));
    let out = update_output(None, Selected(None), &log, AppMode::Game, DungeonFloor::default());
    assert!(out.player.is_none());
    assert!(!out.targeting);
}

#[test]
fn potions_heal_up_to_the_maximum() {
    let mut hp = Hp { current: 3, max: 10 };
    assert!(use_hp_potion(&mut hp, Heal::new(4)));
    assert_eq!(hp.current, 7);
    assert!(use_hp_potion(&mut hp, Heal::new(4)));
    assert_eq!(hp.current, 10);
    assert!(!use_hp_potion(&mut hp, Heal::new(4)));
    assert_eq!(hp.current, 10);
}

#[test]
fn scrolls_hit_on_a_sure_skill() {
    let sure = Ranged { power: 3, range: 5, skill: 6 };
    let hopeless = Ranged { power: 3, range: 5, skill: 0 };
    let mut hp = Hp::new(10);
    assert!(use_lightning_scroll(&mut hp, sure));
    assert_eq!(hp.current, 7);
    assert!(!use_lightning_scroll(&mut hp, hopeless));
    assert_eq!(hp.current, 7);
    assert_eq!(use_confusion_scroll(None, sure), Some(ConfusedAi { duration: 3 }));
    assert_eq!(use_confusion_scroll(Some(ConfusedAi { duration: 2 }), sure), Some(ConfusedAi { duration: 5 }));
    assert_eq!(use_confusion_scroll(None, hopeless), None);
    assert_eq!(use_poison_scroll(None, sure), Some(Poisoned { duration: 5, power: 3 }));
    assert_eq!(
        use_poison_scroll(Some(Poisoned { duration: 1, power: 7 }), sure),
        Some(Poisoned { duration: 6, power: 7 })
    );
    assert_eq!(use_poison_scroll(None, hopeless), None);
}

#[test]
fn fireballs_catch_what_is_in_the_blast() {
    let mut grid = empty_grid(6, 6);
    grid.set(Vec2::new(2, 2), Some(id(1)));
    grid.set(Vec2::new(3, 3), Some(id(2)));
    grid.set(Vec2::new(5, 5), Some(id(3)));
    let range = Ranged { power: 4, range: 5, skill: 4 };
    let hits = use_fireball(Vec2::new(0, 0), Vec2::new(2, 2), range, 1, &grid).unwrap();
    assert_eq!(hits, vec![id(1), id(2)]);
    let edge = use_fireball(Vec2::new(0, 0), Vec2::new(0, 0), range, 3, &grid).unwrap();
    assert_eq!(edge, vec![id(1), id(2)]);
    assert!(use_fireball(Vec2::new(0, 0), Vec2::new(0, 6), range, 1, &grid).is_none());
}

#[test]
fn targets_are_checked() {
    let range = Ranged { power: 1, range: 2, skill: 1 };
    let me = Vec2::new(0, 0);
    assert_eq!(check_entity_target(None, None, Some(range), me), TargetCheck::NeedsTarget);
    assert_eq!(check_entity_target(Some(id(1)), None, Some(range), me), TargetCheck::InvalidTarget);
    assert_eq!(check_entity_target(Some(id(1)), Some(Vec2::new(3, 0)), Some(range), me), TargetCheck::TooFar);
    assert_eq!(check_entity_target(Some(id(1)), Some(Vec2::new(3, 0)), None, me), TargetCheck::Ready(id(1)));
    assert_eq!(check_entity_target(Some(id(1)), Some(Vec2::new(2, 2)), Some(range), me), TargetCheck::Ready(id(1)));
    assert_eq!(check_position_target(None, range, me), PositionCheck::NeedsPosition);
    assert_eq!(check_position_target(Some(Vec2::new(0, 3)), range, me), PositionCheck::TooFar);
    assert_eq!(check_position_target(Some(Vec2::new(1, 2)), range, me), PositionCheck::Ready(Vec2::new(1, 2)));
}

#[test]
fn using_items() {
    let mut actions = PlayerActions::new();
    let me = Vec2::new(0, 0);
    let mut hp = Hp { current: 2, max: 10 };
    let bag = || {
        let mut inv = Inventory::new(4);
        inv.add(id(4)).unwrap();
        inv.add(id(5)).unwrap();
        inv.add(id(6)).unwrap();
        inv
    };
    let mut inv = bag();
    let mut none = UseItem(None);
    assert_eq!(update_player_item_use(&mut none, &mut inv, None, &actions, me, &mut hp, None, None, None, None), ItemUseOutcome::Idle);
    assert_eq!(inv.items, vec![id(4), id(5), id(6)]);
    let mut item = UseItem(Some(id(5)));
    let r = update_player_item_use(&mut item, &mut inv, Some(StuffTag::HpPotion), &actions, me, &mut hp, Some(Heal::new(3)), None, None, None);
    assert_eq!(r, ItemUseOutcome::Healed { had_effect: true });
    assert_eq!(hp.current, 5);
    // the potion is used up
    assert_eq!(item, UseItem(None));
    assert_eq!(inv.items, vec![id(4), id(6)]);
    let bolt = Some(Ranged { power: 3, range: 5, skill: 6 });
    let mut inv = bag();
    let mut item = UseItem(Some(id(5)));
    let r = update_player_item_use(&mut item, &mut inv, Some(StuffTag::LightningScroll), &actions, me, &mut hp, None, None, None, bolt);
    assert_eq!(r, ItemUseOutcome::NeedsTarget);
    actions.set_target(id(8));
    let r = update_player_item_use(&mut item, &mut inv, Some(StuffTag::LightningScroll), &actions, me, &mut hp, None, None, Some(Vec2::new(1, 1)), bolt);
    assert_eq!(r, ItemUseOutcome::InvalidTarget);
    let r = update_player_item_use(&mut item, &mut inv, Some(StuffTag::LightningScroll), &actions, me, &mut hp, None, Some(Hp::new(6)), Some(Vec2::new(9, 1)), bolt);
    assert_eq!(r, ItemUseOutcome::TooFar);
    // an item that is kept stays in use and in the bag
    assert_eq!(item, UseItem(Some(id(5))));
    assert_eq!(inv.items, vec![id(4), id(5), id(6)]);
    let r = update_player_item_use(&mut item, &mut inv, Some(StuffTag::LightningScroll), &actions, me, &mut hp, None, Some(Hp::new(6)), Some(Vec2::new(1, 1)), bolt);
    assert_eq!(r, ItemUseOutcome::BoltHit { target: id(8), hp: Hp { current: 3, max: 6 } });
    assert_eq!(inv.items, vec![id(4), id(6)]);
    let mut item = UseItem(Some(id(5)));
    assert_eq!(update_player_item_use(&mut item, &mut inv, None, &actions, me, &mut hp, None, None, None, None), ItemUseOutcome::NoTag);
    assert_eq!(item, UseItem(None));
    assert_eq!(hp.current, 5);
}

#[test]
fn equipping_swaps_with_the_inventory() {
    let mut inv = Inventory::new(4);
    inv.add(id(1)).unwrap();
    inv.add(id(2)).unwrap();
    let mut slot = None;
    equip_item(id(1), &mut slot, &mut inv);
    assert_eq!(slot, Some(id(1)));
    assert_eq!(inv.iter(), vec![id(2)]);
    equip_item(id(2), &mut slot, &mut inv);
    assert_eq!(slot, Some(id(2)));
    assert_eq!(inv.iter(), vec![id(1)]);

    let mut player = Melee { power: 1, skill: 5 };
    let mut weapon = None;
    let mut inv = Inventory::new(4);
    inv.add(id(3)).unwrap();
    inv.add(id(4)).unwrap();
    equip_weapon(id(3), Melee { power: 2, skill: 0 }, None, &mut player, &mut weapon, &mut inv);
    assert_eq!(player, Melee { power: 3, skill: 5 });
    equip_weapon(id(4), Melee { power: 4, skill: 0 }, Some(Melee { power: 2, skill: 0 }), &mut player, &mut weapon, &mut inv);
    assert_eq!(player, Melee { power: 5, skill: 5 });
    assert_eq!(weapon, Some(id(4)));
    assert_eq!(inv.iter(), vec![id(3)]);

    let mut defense = Defense::new(0);
    let mut armor = None;
    let mut inv = Inventory::new(4);
    inv.add(id(6)).unwrap();
    equip_armor(id(6), Defense::new(3), None, &mut defense, &mut armor, &mut inv);
    assert_eq!(defense.melee_defense, 3);
    assert_eq!(armor, Some(id(6)));
    assert!(inv.iter().is_empty());
}

#[test]
fn carried_weapons_add_power() {
    let mut player = Melee { power: 9, skill: 2 };
    update_player_inventory(&vec![Some(Melee { power: 2, skill: 0 }), None, Some(Melee { power: 4, skill: 1 })], &mut player);
    assert_eq!(player, Melee { power: 7, skill: 2 });
    update_player_inventory(&Vec::new(), &mut player);
    assert_eq!(player.power, 1);
}

fn stats_with_xp(xp: u32) -> PlayerStats {
    PlayerStats {
        hp: Hp::new(10),
        melee: Melee { power: 1, skill: 5 },
        level: Level { current_xp: xp, ..Level::default() },
        defense: Defense::new(0),
    }
}

#[test]
fn levelling_up_asks_then_applies_a_stat() {
    let mut mode = AppMode::Game;
    let mut stat = None;
    let mut stats = stats_with_xp(10);
    assert_eq!(handle_levelup(&mut mode, &mut stat, &mut stats), LevelupOutcome::Nothing);
    let mut stats = stats_with_xp(400);
    assert_eq!(handle_levelup(&mut mode, &mut stat, &mut stats), LevelupOutcome::ChooseStat);
    assert_eq!(mode, AppMode::Levelup);
    assert_eq!(handle_levelup(&mut mode, &mut stat, &mut stats), LevelupOutcome::Nothing);
    stat = Some(DesiredStat::Hp);
    assert_eq!(handle_levelup(&mut mode, &mut stat, &mut stats), LevelupOutcome::LeveledUp { again: false });
    assert_eq!(mode, AppMode::Game);
    assert_eq!(stat, None);
    assert_eq!(stats.hp, Hp { current: 20, max: 20 });
    assert_eq!(stats.level.current_level, 2);
    assert_eq!(stats.level.current_xp, 50);

    let mut stats = stats_with_xp(1000);
    let mut mode = AppMode::Levelup;
    let mut stat = Some(DesiredStat::Attack);
    assert_eq!(handle_levelup(&mut mode, &mut stat, &mut stats), LevelupOutcome::LeveledUp { again: true });
    assert_eq!(mode, AppMode::Levelup);
    assert_eq!(stats.melee.power, 2);
    let mut stat = Some(DesiredStat::MeleeDefense);
    assert_eq!(handle_levelup(&mut mode, &mut stat, &mut stats), LevelupOutcome::LeveledUp { again: false });
    assert_eq!(stats.defense.melee_defense, 1);
}

#[test]
fn poison_confusion_and_death() {
    let mut hp = Hp::new(10);
    let mut poison = Poisoned { duration: 2, power: 3 };
    assert!(!update_poison(&mut hp, &mut poison));
    assert_eq!((hp.current, poison.duration), (7, 1));
    assert!(!update_poison(&mut hp, &mut poison));
    assert!(update_poison(&mut hp, &mut poison));
    assert_eq!(hp.current, 4);
    let mut weak = Poisoned { duration: 1, power: 0 };
    update_poison(&mut hp, &mut weak);
    assert_eq!(hp.current, 3);

    let mut c = ConfusedAi { duration: 2 };
    assert!(!update_confusion(&mut c));
    assert!(update_confusion(&mut c));

    assert!(update_player_hp(Hp { current: 0, max: 5 }));
    assert!(!update_player_hp(Hp { current: 1, max: 5 }));
    let mut level = Some(Level::default());
    assert!(update_ai_hp(Hp { current: -2, max: 5 }, Some(Exp { amount: 35 }), &mut level));
    assert_eq!(level.unwrap().current_xp, 35);
    assert!(!update_ai_hp(Hp { current: 2, max: 5 }, Some(Exp { amount: 35 }), &mut level));
    assert_eq!(level.unwrap().current_xp, 35);
    let mut nobody = None;
    assert!(update_ai_hp(Hp { current: 0, max: 5 }, Some(Exp { amount: 35 }), &mut nobody));
    assert!(nobody.is_none());
}

#[test]
fn monsters_pick_targets_and_strike() {
    let mut grid = empty_grid(5, 5);
    grid.set(Vec2::new(3, 2), Some(id(9)));
    let me = Vec2::new(2, 2);
    assert_eq!(melee_target(me, Vec2::new(2, 3), false, None, &grid), MeleeTarget::Player);
    assert_eq!(melee_target(me, Vec2::new(4, 4), false, None, &grid), MeleeTarget::Nobody);
    assert_eq!(melee_target(me, Vec2::new(2, 3), true, Some(Vec2::new(1, 0)), &grid), MeleeTarget::Occupant(id(9)));
    assert_eq!(melee_target(me, Vec2::new(2, 3), true, Some(Vec2::new(-1, 0)), &grid), MeleeTarget::Nobody);
    assert_eq!(melee_target(me, Vec2::new(2, 3), true, None, &grid), MeleeTarget::Nobody);
    assert_eq!(melee_strike(6, 4, 1), Some(3));
    assert_eq!(melee_strike(6, 1, 4), Some(1));
    assert_eq!(melee_strike(0, 4, 1), None);
}

#[test]
fn moves_go_to_empty_cells_only() {
    let mut grid = empty_grid(3, 3);
    grid.set(Vec2::new(0, 0), Some(id(1)));
    grid.set(Vec2::new(2, 0), Some(id(2)));
    let mut pos = Vec2::new(0, 0);
    let mut vel = Vec2::new(1, 0);
    perform_move(&mut pos, &mut vel, &mut grid);
    assert_eq!(pos, Vec2::new(1, 0));
    assert_eq!(vel, Vec2::zero());
    assert_eq!(*grid.get(Vec2::new(1, 0)), Some(id(1)));
    let mut vel = Vec2::new(1, 0);
    perform_move(&mut pos, &mut vel, &mut grid);
    assert_eq!(pos, Vec2::new(1, 0));
    assert_eq!(vel, Vec2::zero());
    for _ in 0..20 {
        let d = confused_step();
        assert_eq!(d.manhatten(Vec2::zero()), 1);
    }
}

#[test]
fn monsters_chase_the_player() {
    let grid = empty_grid(8, 8);
    let opaque: Grid<bool> = Grid::new(Vec2::new(8, 8));
    let mut cache = PathCache::default();
    // next to the player: no move, path forgotten
    let v = ai_move(Vec2::new(3, 3), Vec2::new(3, 4), Vec2::new(3, 4), None, &mut cache, &grid, &opaque, &Vec::new());
    assert_eq!(v, None);
    assert_eq!(cache.len(), 0);
    let v = ai_move(Vec2::new(0, 0), Vec2::new(5, 0), Vec2::new(5, 0), None, &mut cache, &grid, &opaque, &Vec::new());
    let v = v.unwrap();
    assert_eq!(v.manhatten(Vec2::zero()), 1);
    // leashed monster out of sight and without a path heads home but stays within its leash
    let mut walls: Grid<bool> = Grid::new(Vec2::new(8, 8));
    for y in 0..8 {
        walls.set(Vec2::new(4, y), true);
    }
    let mut cache = PathCache::default();
    let leash = Leash { origin: Vec2::new(0, 7), radius: 20 };
    let v = ai_move(Vec2::new(0, 0), Vec2::new(7, 0), Vec2::new(7, 0), Some(leash), &mut cache, &grid, &walls, &Vec::new());
    assert_eq!(v, Some(Vec2::new(0, 1)));
}

#[test]
fn kinds_have_their_traits() {
    assert!(usable(StuffTag::HpPotion));
    assert!(usable(StuffTag::WardScroll));
    assert!(!usable(StuffTag::Sword));
    let t = stuff_traits(StuffTag::Wall);
    assert!(t.static_stuff && t.opaque && t.static_visibility && !t.item);
    let t = stuff_traits(StuffTag::Orc);
    assert!(t.ai && !t.item && !t.opaque);
    let t = stuff_traits(StuffTag::RareSword);
    assert!(t.item && t.equipment == Some(EquipmentType::Weapon));
    let t = stuff_traits(StuffTag::FireBallScroll);
    assert_eq!(t.aim, Aim::Position);
    assert_eq!(t.effect, Some(ScrollEffect::FireBall));
    let t = stuff_traits(StuffTag::PoisonScroll);
    assert_eq!(t.aim, Aim::Entity);
    assert!(stuff_traits(StuffTag::Stairs).next_level);
    assert!(stuff_traits(StuffTag::Player).player);

    let e = spawn_extras(StuffTag::Player, Vec2::new(1, 1));
    assert!(e.player_kit && e.leash.is_none());
    let e = spawn_extras(StuffTag::Minotaur, Vec2::new(4, 5));
    assert_eq!(e.leash, Some(Leash { origin: Vec2::new(4, 5), radius: 40 }));
    let e = spawn_extras(StuffTag::Goblin, Vec2::new(4, 5));
    assert_eq!(e.leash.unwrap().radius, 20);
    assert_eq!(spawn_extras(StuffTag::Door, Vec2::zero()).look, Some(("door", "#d4dfd7")));
    assert!(spawn_extras(StuffTag::Sword, Vec2::zero()).look.is_none());
}

#[test]
fn line_of_sight_stops_at_walls() {
    let mut opaque: Grid<bool> = Grid::new(Vec2::new(7, 7));
    opaque.set(Vec2::new(3, 0), true);
    assert_eq!(walk_grid_on_segment(Vec2::new(0, 0), Vec2::new(6, 0), &opaque), Some(Vec2::new(3, 0)));
    // the end of the segment is not checked
    assert_eq!(walk_grid_on_segment(Vec2::new(0, 0), Vec2::new(3, 0), &opaque), None);
    assert_eq!(walk_grid_on_segment(Vec2::new(0, 0), Vec2::new(0, 6), &opaque), None);
    assert_eq!(walk_grid_on_segment(Vec2::new(2, 2), Vec2::new(2, 2), &opaque), None);
    let mut diag: Grid<bool> = Grid::new(Vec2::new(7, 7));
    diag.set(Vec2::new(1, 1), true);
    assert!(walk_grid_on_segment(Vec2::new(0, 0), Vec2::new(3, 3), &diag).is_some());
}

#[test]
fn field_of_view_marks_seen_and_explored() {
    let mut opaque: Grid<bool> = Grid::new(Vec2::new(9, 9));
    let mut grid = empty_grid(9, 9);
    for y in 0..9 {
        opaque.set(Vec2::new(6, y), true);
        grid.set(Vec2::new(6, y), Some(id(100 + y as u32)));
    }
    let mut explored: Grid<bool> = Grid::new(Vec2::new(9, 9));
    explored.set(Vec2::new(8, 8), true);
    let mut visible: Grid<bool> = Grid::new(Vec2::new(9, 9));
    update_fov(Some(Vec2::new(3, 4)), &opaque, &grid, &mut explored, &mut visible, Vec2::new(2, 3));
    assert_eq!(visible.at(3, 4), Some(&true));
    assert_eq!(visible.at(5, 4), Some(&true));
    assert_eq!(visible.at(3, 1), Some(&true));
    // the wall next to a seen floor shows, what is behind it does not
    assert_eq!(visible.at(6, 4), Some(&true));
    assert_eq!(visible.at(7, 4), Some(&false));
    assert_eq!(visible.at(0, 8), Some(&false));
    for (p, v) in visible.iter() {
        if v {
            assert_eq!(explored.at(p.x, p.y), Some(&true));
        }
    }
    assert_eq!(explored.at(8, 8), Some(&true));

    let before = visible.iter();
    update_fov(None, &opaque, &grid, &mut explored, &mut visible, Vec2::new(2, 3));
    assert_eq!(visible.iter(), before);
}

#[test]
fn saves_round_trip() {
    let bytes: Vec<u8> = vec![0, 1, 2, 250, 251, 255, 17];
    let text = save_text(&bytes);
    assert_eq!(text, "AAEC+vv/EQ");
    assert_eq!(load_bytes(&text), Ok(bytes));
    assert_eq!(save_text(&Vec::new()), "");
    assert_eq!(load_bytes(&"".to_string()), Ok(Vec::new()));
    assert_eq!(load_bytes(&"AAEC+vv/EQ==".to_string()), Err(LoadError::NotBase64));
    assert_eq!(load_bytes(&"!!".to_string()), Err(LoadError::NotBase64));
}

#[test]
fn items_describe_themselves() {
    let eq = Equipment { weapon: Some(id(3)), armor: None };
    let a = item_actions(id(3), StuffTag::Sword, false, true, Some(eq));
    assert!(a.equipped && !a.equipable && !a.usable);
    let a = item_actions(id(4), StuffTag::Sword, false, true, Some(eq));
    assert!(!a.equipped && a.equipable);
    let a = item_actions(id(4), StuffTag::HpPotion, true, false, None);
    assert!(!a.usable && !a.equipable);
    let a = item_actions(id(4), StuffTag::HpPotion, false, false, None);
    assert!(a.usable);
    let d = to_item_desc(
        id(4),
        StuffTag::LightningScroll,
        Some("scroll".to_string()),
        None,
        Some("Lightning Bolt".to_string()),
        Some(Ranged { power: 3, range: 5, skill: 4 }),
        None,
    );
    assert!(d.usable);
    assert_eq!(d.range, 5);
    assert_eq!(d.name.as_deref(), Some("Lightning Bolt"));
    let d = to_item_desc(id(5), StuffTag::Dagger, None, None, None, None, None);
    assert!(!d.usable);
    assert_eq!(d.range, 0);
}

#[test]
fn a_monster_swings_at_its_target() {
    let mut grid = empty_grid(5, 5);
    grid.set(Vec2::new(3, 2), Some(id(9)));
    let sure = Melee { power: 4, skill: 6 };
    let hopeless = Melee { power: 4, skill: 0 };
    let me = Vec2::new(2, 2);
    let r = update_melee_ai(me, Vec2::new(2, 3), false, None, &grid, false, sure, 1);
    assert_eq!(r, MeleeOutcome::Hit { target: MeleeTarget::Player, damage: 3 });
    let r = update_melee_ai(me, Vec2::new(2, 3), false, None, &grid, false, hopeless, 1);
    assert_eq!(r, MeleeOutcome::Miss { target: MeleeTarget::Player });
    let r = update_melee_ai(me, Vec2::new(4, 4), false, None, &grid, false, sure, 1);
    assert_eq!(r, MeleeOutcome::NoTarget);
    let r = update_melee_ai(me, Vec2::new(4, 4), true, Some(Vec2::new(1, 0)), &grid, true, sure, 9);
    assert_eq!(r, MeleeOutcome::Hit { target: MeleeTarget::Occupant(id(9)), damage: 1 });
    let r = update_melee_ai(me, Vec2::new(4, 4), true, Some(Vec2::new(1, 0)), &grid, false, sure, 9);
    assert_eq!(r, MeleeOutcome::NoTarget);
}

#[test]
fn kinds_start_with_their_numbers() {
    let p = kind_stats(StuffTag::Player);
    assert_eq!(p.hp, Some(Hp::new(10)));
    assert_eq!(p.melee, Some(Melee { power: 1, skill: 5 }));
    assert_eq!(p.defense, Some(Defense::new(0)));
    assert_eq!(p.exp, None);
    let t = kind_stats(StuffTag::Troll);
    assert_eq!((t.hp, t.melee, t.exp, t.defense), (Some(Hp::new(6)), Some(Melee { power: 4, skill: 1 }), Some(Exp { amount: 100 }), Some(Defense::new(4))));
    let o = kind_stats(StuffTag::Orc);
    assert_eq!((o.hp, o.melee, o.exp, o.defense), (Some(Hp::new(4)), Some(Melee { power: 2, skill: 3 }), Some(Exp { amount: 35 }), Some(Defense::new(0))));
    assert_eq!(kind_stats(StuffTag::HpPotion).heal, Some(Heal::new(3)));
    assert_eq!(kind_stats(StuffTag::FireBallScroll).aoe.map(|a| a.radius), Some(3));
    assert_eq!(spawn_extras(StuffTag::Orc, Vec2::zero()).stats, o);
}

#[test]
fn unequipping_returns_the_item() {
    let mut inv = Inventory::new(1);
    let mut slot = Some(id(7));
    let mut me = Melee { power: 5, skill: 2 };
    assert!(unequip_weapon(id(7), Melee { power: 4, skill: 0 }, &mut me, &mut slot, &mut inv));
    assert_eq!(slot, None);
    assert_eq!(inv.items, vec![id(7)]);
    assert_eq!(me, Melee { power: 1, skill: 2 });
    // a full bag keeps the armour on
    let mut armor = Some(id(8));
    let mut def = Defense::new(3);
    assert!(!unequip_armor(id(8), Defense::new(3), &mut def, &mut armor, &mut inv));
    assert_eq!((armor, def.melee_defense), (Some(id(8)), 3));
}

#[test]
fn the_screen_shows_explored_cells_in_view() {
    let mut explored: Grid<bool> = Grid::new(Vec2::new(5, 5));
    let mut visible: Grid<bool> = Grid::new(Vec2::new(5, 5));
    explored.set(Vec2::new(0, 0), true);
    explored.set(Vec2::new(1, 1), true);
    explored.set(Vec2::new(4, 4), true);
    visible.set(Vec2::new(1, 1), true);
    let plan = rogue_boi::fov::render_plan(&explored, &visible, Vec2::new(1, 1), Vec2::new(2, 2));
    assert_eq!(plan, vec![(Vec2::new(0, 0), false), (Vec2::new(1, 1), true)]);
}

#[test]
fn kinds_have_their_looks() {
    let orc = kind_looks(StuffTag::Orc);
    assert_eq!((orc.icon, orc.name, orc.color), ("orc-head", Some("Orc"), Some("#06b306")));
    let wall = kind_looks(StuffTag::Wall);
    assert_eq!((wall.icon, wall.name, wall.description), ("wall", None, None));
    assert_eq!(kind_looks(StuffTag::RareSword).name, Some("Simple Sword"));
}

#[test]
fn fire_burns_and_cancelling_ends_targeting() {
    let mut hp = Hp::new(6);
    burn(&mut hp, 4);
    assert_eq!(hp, Hp { current: 2, max: 6 });
    assert_eq!(mode_after_cancel(AppMode::Targeting), AppMode::Game);
    assert_eq!(mode_after_cancel(AppMode::TargetingPosition), AppMode::TargetingPosition);
}

use rogue_boi::actions::{update_input_events, InputEvent, PlayerActions};
use rogue_boi::components::{
    Defense, EntityId, Equipment, GameTick, Heal, Hp, Inventory, InventoryError, Level, LogHistory,
    Melee, StuffTag,
};
use rogue_boi::grid::Grid;
use rogue_boi::math::{abs_i32, walk_square, Vec2};

fn key_down(key: &str) -> InputEvent {
    InputEvent::KeyDown { key: key.to_string() }
}

#[test]
fn vec2_arithmetic() {
    let a = Vec2::new(3, -4);
    let b = Vec2::new(-1, 2);
    assert_eq!(a.add(b), Vec2::new(2, -2));
    assert_eq!(a.sub(b), Vec2::new(4, -6));
    assert_eq!(a.mul(3), Vec2::new(9, -12));
    assert_eq!(Vec2::new(7, -7).div(2), Vec2::new(3, -3));
    assert_eq!(a.neg(), Vec2::new(-3, 4));
    assert_eq!(a.dot(b), -11);
    assert_eq!(a.len_sq(), 25);
    assert_eq!(Vec2::splat(5), Vec2::new(5, 5));
    assert_eq!(a.index(0), 3);
    assert_eq!(a.index(1), -4);
    assert_eq!(a.index(7), -4);
    assert_eq!(abs_i32(-9), 9);
}

#[test]
fn vec2_distances_and_direction() {
    let a = Vec2::new(1, 1);
    let b = Vec2::new(4, -3);
    assert_eq!(a.manhatten(b), 7);
    assert_eq!(a.chebyshev(b), 4);
    assert_eq!(Vec2::new(5, -9).as_direction(), Vec2::new(1, -1));
    assert_eq!(Vec2::new(0, 3).as_direction(), Vec2::new(0, 1));
    assert_eq!(Vec2::zero().as_direction(), Vec2::zero());
    let n = Vec2::new(2, 2).neighbours();
    assert_eq!(n.len(), 8);
    assert!(n.contains(&Vec2::new(1, 1)));
    assert!(n.contains(&Vec2::new(3, 3)));
    assert!(!n.contains(&Vec2::new(2, 2)));
}

#[test]
fn walk_square_is_row_major() {
    let cells = walk_square(Vec2::new(-1, 0), Vec2::new(1, 1));
    assert_eq!(
        cells,
        vec![
            Vec2::new(-1, 0),
            Vec2::new(0, 0),
            Vec2::new(1, 0),
            Vec2::new(-1, 1),
            Vec2::new(0, 1),
            Vec2::new(1, 1),
        ]
    );
    assert_eq!(walk_square(Vec2::new(2, 2), Vec2::new(2, 2)), vec![Vec2::new(2, 2)]);
}

#[test]
fn grid_reads_back_writes() {
    let mut g: Grid<i32> = Grid::new(Vec2::new(4, 3));
    assert_eq!(g.width(), 4);
    assert_eq!(g.height(), 3);
    assert_eq!(*g.get(Vec2::new(3, 2)), 0);
    g.set(Vec2::new(3, 2), 7);
    assert_eq!(*g.get(Vec2::new(3, 2)), 7);
    assert_eq!(g.at(3, 2), Some(&7));
    assert_eq!(g.at(4, 2), None);
    assert_eq!(g.at(-1, 0), None);
    assert!(g.contains(0, 0));
    assert!(!g.contains(0, 3));
    if let Some(v) = g.at_mut(1, 1) {
        *v = 5;
    }
    assert_eq!(*g.get(Vec2::new(1, 1)), 5);
    assert!(g.at_mut(9, 9).is_none());
    g.fill(2);
    assert!(g.iter().iter().all(|(_, v)| *v == 2));
}

#[test]
fn grid_iter_copy_and_or() {
    let mut g: Grid<i32> = Grid::new(Vec2::new(2, 2));
    g.set(Vec2::new(1, 0), 1);
    g.set(Vec2::new(0, 1), 2);
    let cells = g.iter();
    assert_eq!(
        cells,
        vec![
            (Vec2::new(0, 0), 0),
            (Vec2::new(1, 0), 1),
            (Vec2::new(0, 1), 2),
            (Vec2::new(1, 1), 0),
        ]
    );
    let mut h: Grid<i32> = Grid::new(Vec2::new(2, 2));
    h.copy(&g);
    assert_eq!(h.iter(), cells);

    let mut a: Grid<bool> = Grid::new(Vec2::new(2, 1));
    let mut b: Grid<bool> = Grid::new(Vec2::new(2, 1));
    a.set(Vec2::new(0, 0), true);
    b.set(Vec2::new(1, 0), true);
    a.or_eq(&b);
    assert_eq!(a.at(0, 0), Some(&true));
    assert_eq!(a.at(1, 0), Some(&true));
}

#[test]
fn stuff_tag_visibility_rules() {
    assert!(StuffTag::Wall.is_opaque());
    assert!(!StuffTag::Door.is_opaque());
    assert!(!StuffTag::Orc.is_opaque());
    assert!(StuffTag::Wall.static_visiblity());
    assert!(StuffTag::Sword.static_visiblity());
    assert!(StuffTag::ConfusionScroll.static_visiblity());
    assert!(!StuffTag::Troll.static_visiblity());
    assert!(!StuffTag::FireBallScroll.static_visiblity());
}

#[test]
fn hp_heal_defense_constructors() {
    let hp = Hp::new(10);
    assert_eq!(hp, Hp { current: 10, max: 10 });
    assert!(hp.full());
    assert!(!Hp { current: 3, max: 10 }.full());
    assert_eq!(Heal::new(3).hp, 3);
    assert_eq!(Defense::new(4).melee_defense, 4);
    let mut d = Defense::new(1);
    d.add_assign(Defense::new(3));
    assert_eq!(d.melee_defense, 4);
    d.sub_assign(Defense::new(2));
    assert_eq!(d.melee_defense, 2);
    let mut m = Melee { power: 1, skill: 5 };
    m.add_assign(Melee { power: 4, skill: 0 });
    assert_eq!(m, Melee { power: 5, skill: 5 });
    m.sub_assign(Melee { power: 2, skill: 1 });
    assert_eq!(m, Melee { power: 3, skill: 4 });
    assert_eq!(GameTick::default().0, 1);
}

#[test]
fn level_thresholds_and_levelup() {
    let mut level = Level::default();
    assert_eq!(level.current_level, 1);
    assert_eq!(level.experience_to_next_level(), 350);
    assert!(!level.needs_levelup());
    level.add_xp(349);
    assert!(!level.needs_levelup());
    level.add_xp(60);
    assert!(level.needs_levelup());
    level.levelup();
    assert_eq!(level.current_level, 2);
    assert_eq!(level.current_xp, 59);
    assert_eq!(level.experience_to_next_level(), 500);
}

#[test]
fn inventory_is_bounded_and_removes_first() {
    let mut inv = Inventory::new(2);
    assert_eq!(inv.add(EntityId(1)), Ok(()));
    assert_eq!(inv.add(EntityId(2)), Ok(()));
    assert_eq!(inv.add(EntityId(3)), Err(InventoryError::Full));
    assert_eq!(inv.iter(), vec![EntityId(1), EntityId(2)]);
    assert_eq!(inv.remove(EntityId(1)), Some(EntityId(1)));
    assert_eq!(inv.remove(EntityId(9)), None);
    assert_eq!(inv.iter(), vec![EntityId(2)]);
    let mut dup = Inventory::new(5);
    dup.add(EntityId(4)).unwrap();
    dup.add(EntityId(5)).unwrap();
    dup.add(EntityId(4)).unwrap();
    dup.remove(EntityId(4));
    assert_eq!(dup.iter(), vec![EntityId(5), EntityId(4)]);
}

#[test]
fn equipment_contains() {
    let mut e = Equipment::default();
    assert!(!e.contains(EntityId(1)));
    e.weapon = Some(EntityId(1));
    e.armor = Some(EntityId(2));
    assert!(e.contains(EntityId(1)));
    assert!(e.contains(EntityId(2)));
    assert!(!e.contains(EntityId(3)));
}

#[test]
fn log_history_keeps_the_last_lines() {
    let mut log = LogHistory::default();
    assert_eq!(log.capacity, 20);
    log.push("white", "Hello wanderer!");
    assert_eq!(log.items[0], "<span style=\"color:white\">Hello wanderer!</span>");
    let mut small = LogHistory { items: Default::default(), capacity: 2 };
    small.push("red", "a");
    small.push("red", "b");
    small.push("red", "c");
    assert_eq!(small.items.len(), 2);
    assert_eq!(small.items[0], "<span style=\"color:red\">b</span>");
    assert_eq!(small.items[1], "<span style=\"color:red\">c</span>");
}

#[test]
fn player_actions_count() {
    let mut a = PlayerActions::new();
    assert!(a.is_empty());
    a.insert_move(Vec2::new(1, 0));
    a.insert_move(Vec2::new(0, 1));
    assert_eq!(a.len(), 1);
    assert_eq!(a.move_action(), Some(Vec2::new(0, 1)));
    a.insert_wait();
    a.insert_wait();
    a.insert_interact();
    assert_eq!(a.len(), 3);
    assert!(a.wait());
    assert!(a.interact());
    a.set_target(EntityId(7));
    assert_eq!(a.target(), Some(EntityId(7)));
    assert_eq!(a.len(), 3);
    a.clear();
    assert!(a.is_empty());
    assert_eq!(a.target(), None);
    assert_eq!(a.move_action(), None);
}

#[test]
fn input_events_become_actions() {
    let mut a = PlayerActions::new();
    update_input_events(&vec![key_down("w")], &mut a);
    assert_eq!(a.move_action(), Some(Vec2::new(0, -1)));

    let mut a = PlayerActions::new();
    update_input_events(&vec![key_down("ArrowLeft"), key_down("s")], &mut a);
    // a diagonal keeps only its vertical part
    assert_eq!(a.move_action(), Some(Vec2::new(0, 1)));

    let mut a = PlayerActions::new();
    update_input_events(
        &vec![key_down("e"), InputEvent::KeyUp { key: "d".to_string() }],
        &mut a,
    );
    assert!(a.interact());
    assert_eq!(a.move_action(), None);
    assert_eq!(a.len(), 1);

    let mut a = PlayerActions::new();
    update_input_events(&vec![key_down("x")], &mut a);
    assert!(a.is_empty());
}

#[test]
fn walk_square_reaches_the_largest_coordinates() {
    let cells = walk_square(Vec2::new(i32::MAX - 1, 0), Vec2::new(i32::MAX, 0));
    assert_eq!(cells, vec![Vec2::new(i32::MAX - 1, 0), Vec2::new(i32::MAX, 0)]);
    assert_eq!(Vec2::new(i32::MAX, 0).chebyshev(Vec2::new(0, i32::MAX)), i32::MAX);
}

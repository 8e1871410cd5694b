use rogue_boi::components::{EntityId, StuffTag};
use rogue_boi::grid::Grid;
use rogue_boi::map_gen::chances::{
    entity_weighted_chances, enemy_chances, item_chances, ChanceLevel, EntityChances,
};
use rogue_boi::map_gen::rect_room::RectRoom;
use rogue_boi::map_gen::tunnel_iter::TunnelIter;
use rogue_boi::map_gen::{
    build_rooms, dig_tunnel, generate_map, route_edge, iter_edge, minimum_spanning_tree, place_doors, room_fits,
    spawn_list, tunnel_blocker, MapGenError, MapGenParams, MapGenProps,
};
use rogue_boi::map_gen::populate::{fill_empty, place_entities, place_items, place_stairs};
use rogue_boi::map_gen::tunnel_between;
use rogue_boi::math::Vec2;
use rogue_boi::pathfinder::{find_path, Node, PathCache};

fn sorted(mut pairs: Vec<(StuffTag, i32)>) -> Vec<(StuffTag, i32)> {
    pairs.sort_by_key(|(t, _)| format!("{:?}", t));
    pairs
}

fn pairs(tags: Vec<StuffTag>, weights: Vec<i32>) -> Vec<(StuffTag, i32)> {
    sorted(tags.into_iter().zip(weights).collect())
}

#[test]
fn map_gen_props_by_level() {
    let p = MapGenProps::from_level(0);
    assert_eq!((p.max_items_per_floor, p.max_monsters_per_floor), (0, 0));
    let p = MapGenProps::from_level(1);
    assert_eq!((p.max_items_per_floor, p.max_monsters_per_floor), (1, 2));
    let p = MapGenProps::from_level(4);
    assert_eq!((p.max_items_per_floor, p.max_monsters_per_floor), (2, 3));
    let p = MapGenProps::from_level(9);
    assert_eq!((p.max_items_per_floor, p.max_monsters_per_floor), (2, 5));
    assert_eq!((p.room_min_size, p.room_max_size, p.max_rooms), (6, 10, 50));
    let params = MapGenParams::default();
    assert_eq!(params.dims, Vec2::new(64, 64));
    assert_eq!(params.level, 1);
}

#[test]
fn later_floors_override_weights() {
    let (tags, weights) = entity_weighted_chances(0, &enemy_chances());
    assert_eq!(pairs(tags, weights), vec![(StuffTag::Orc, 80)]);
    let (tags, weights) = entity_weighted_chances(5, &enemy_chances());
    assert_eq!(pairs(tags, weights), sorted(vec![(StuffTag::Orc, 80), (StuffTag::Troll, 30)]));
    let (tags, weights) = entity_weighted_chances(100, &enemy_chances());
    assert_eq!(pairs(tags, weights), sorted(vec![(StuffTag::Orc, 80), (StuffTag::Troll, 60)]));
    let (tags, weights) = entity_weighted_chances(3, &item_chances());
    assert_eq!(
        pairs(tags, weights),
        sorted(vec![
            (StuffTag::HpPotion, 80),
            (StuffTag::Dagger, 40),
            (StuffTag::LeatherArmor, 40),
            (StuffTag::ConfusionScroll, 10),
            (StuffTag::Sword, 30),
            (StuffTag::ChainMailArmor, 30),
        ])
    );
}

#[test]
fn chances_stop_at_the_first_later_floor() {
    // a level listed after a higher one is never reached
    let levels = vec![
        ChanceLevel { floor: 0, weights: vec![(StuffTag::Orc, 5)] },
        ChanceLevel { floor: 9, weights: vec![(StuffTag::Troll, 5)] },
        ChanceLevel { floor: 1, weights: vec![(StuffTag::Goblin, 5)] },
    ];
    let (tags, _) = entity_weighted_chances(3, &levels);
    assert_eq!(tags, vec![StuffTag::Orc]);
    let (tags, weights) = entity_weighted_chances(3, &Vec::new());
    assert!(tags.is_empty() && weights.is_empty());
}

#[test]
fn entity_chances_from_level() {
    let c = EntityChances::from_level(1);
    assert_eq!(c.enemy_tags, vec![StuffTag::Orc]);
    assert_eq!(c.enemy_weights, vec![80]);
    assert_eq!(c.item_tags.len(), 3);
    assert_eq!(c.item_weights.len(), 3);
}

#[test]
fn rect_room_geometry() {
    let r = RectRoom::new(2, 3, 4, 6);
    assert_eq!(r.min, Vec2::new(2, 3));
    assert_eq!(r.max, Vec2::new(6, 9));
    assert_eq!(r.center(), Vec2::new(4, 6));
    let far = RectRoom::new(20, 20, 4, 4);
    assert!(!r.intersects(&far));
    assert!(!r.touches(&far));
    let near = RectRoom::new(7, 3, 4, 4);
    assert!(!r.intersects(&near));
    assert!(r.touches(&near));
    let overlap = RectRoom::new(4, 4, 4, 4);
    assert!(r.intersects(&overlap));
    assert!(r.intersects_segment(Vec2::new(0, 5), Vec2::new(10, 5)));
    assert!(!r.intersects_segment(Vec2::new(0, 20), Vec2::new(10, 20)));
}

#[test]
fn carve_clears_the_room() {
    let mut g: Grid<Option<StuffTag>> = Grid::new(Vec2::new(8, 8));
    g.fill(Some(StuffTag::Wall));
    RectRoom::new(1, 2, 2, 3).carve(&mut g);
    for (p, v) in g.iter() {
        let inside = (1..=3).contains(&p.x) && (2..=5).contains(&p.y);
        assert_eq!(v.is_none(), inside, "{:?}", p);
    }
}

#[test]
fn tunnel_walks_an_l_shape() {
    let mut t = TunnelIter::new(Vec2::new(0, 0), Vec2::new(2, 2), Vec2::new(2, 0));
    let mut cells = Vec::new();
    while let Some(p) = t.next() {
        cells.push(p);
    }
    assert_eq!(
        cells,
        vec![Vec2::new(1, 0), Vec2::new(2, 0), Vec2::new(2, 1), Vec2::new(2, 2)]
    );
    assert_eq!(t.next(), None);
}

#[test]
fn edge_rings_the_room() {
    let r = RectRoom::new(5, 5, 1, 1);
    let mut ring = iter_edge(&r);
    ring.sort_by_key(|p| (p.y, p.x));
    ring.dedup();
    assert_eq!(ring.len(), 12);
    assert!(ring.iter().all(|p| !(5..=6).contains(&p.x) || !(5..=6).contains(&p.y)));
    assert!(ring.contains(&Vec2::new(4, 4)));
    assert!(ring.contains(&Vec2::new(7, 7)));
}

#[test]
fn spanning_tree_links_every_room() {
    let rooms = vec![
        RectRoom::new(0, 0, 2, 2),
        RectRoom::new(10, 0, 2, 2),
        RectRoom::new(0, 10, 2, 2),
        RectRoom::new(30, 30, 2, 2),
    ];
    let tree = minimum_spanning_tree(&rooms);
    assert_eq!(tree.edges.len(), 3);
    assert_eq!(tree.parents.iter().filter(|p| **p == -1).count(), 1);
    for (a, b) in tree.edges.iter() {
        assert_eq!(tree.parents[*b as usize], *a as i32);
    }
}

#[test]
fn spawn_list_skips_buried_walls() {
    let mut g: Grid<Option<StuffTag>> = Grid::new(Vec2::new(5, 3));
    g.fill(Some(StuffTag::Wall));
    g.set(Vec2::new(0, 1), None);
    g.set(Vec2::new(4, 2), Some(StuffTag::Orc));
    let spawns = spawn_list(&g);
    assert!(spawns.contains(&(Vec2::new(1, 1), StuffTag::Wall)));
    assert!(spawns.contains(&(Vec2::new(0, 0), StuffTag::Wall)));
    assert!(!spawns.contains(&(Vec2::new(3, 1), StuffTag::Wall)));
    assert!(spawns.contains(&(Vec2::new(4, 2), StuffTag::Orc)));
    assert!(spawns.iter().all(|(p, _)| *p != Vec2::new(0, 1)));
}

#[test]
fn generated_map_has_one_player_and_one_stairs() {
    for level in 1..4 {
        let props = MapGenProps::from_level(level);
        match generate_map(Vec2::new(64, 64), &props, level) {
            Ok(spawns) => {
                let players = spawns.iter().filter(|(_, t)| *t == StuffTag::Player).count();
                let stairs = spawns.iter().filter(|(_, t)| *t == StuffTag::Stairs).count();
                assert_eq!(players, 1);
                assert_eq!(stairs, 1);
                let mut cells: Vec<Vec2> = spawns.iter().map(|(p, _)| *p).collect();
                let n = cells.len();
                cells.sort_by_key(|p| (p.y, p.x));
                cells.dedup();
                assert_eq!(cells.len(), n);
            }
            Err(e) => assert_ne!(e, MapGenError::TunnelsDidNotSettle),
        }
    }
}

#[test]
fn build_rooms_places_player_at_first_center() {
    let mut g: Grid<Option<StuffTag>> = Grid::new(Vec2::new(64, 64));
    g.fill(Some(StuffTag::Wall));
    let props = MapGenProps::from_level(2);
    if let Ok(layout) = build_rooms(&mut g, &props, 2) {
        let c = layout.rooms[0].center();
        assert_eq!(*g.get(c), Some(StuffTag::Player));
        assert_eq!(*g.get(layout.stairs), Some(StuffTag::Stairs));
        assert!(layout.rooms.len() >= 2);
    }
}

#[test]
fn a_too_small_room_budget_fails() {
    let mut g: Grid<Option<StuffTag>> = Grid::new(Vec2::new(40, 40));
    g.fill(Some(StuffTag::Wall));
    let props = MapGenProps {
        room_min_size: 6,
        room_max_size: 10,
        max_rooms: 1,
        max_items_per_floor: 0,
        max_monsters_per_floor: 0,
    };
    assert!(matches!(build_rooms(&mut g, &props, 1), Err(MapGenError::TooFewRooms)));
}

#[test]
fn node_cost_and_path_finding() {
    let n = Node { hcost: 3, gcost: 4, pos: Vec2::new(0, 0) };
    assert_eq!(n.fcost(), -7);
    let mut grid: Grid<Option<EntityId>> = Grid::new(Vec2::new(5, 5));
    // a wall of entities in column 2 with a gap at the bottom
    for y in 0..4 {
        grid.set(Vec2::new(2, y), Some(EntityId(100 + y as u32)));
    }
    let mut cache = PathCache::default();
    let found = find_path(Vec2::new(0, 0), Vec2::new(4, 0), &grid, &Vec::new(), &mut cache.path);
    assert!(found);
    let mut steps = Vec::new();
    while let Some(p) = cache.next_step() {
        steps.push(p);
    }
    assert!(!steps.is_empty());
    assert!(steps.iter().all(|p| *p != Vec2::new(2, 0)));
    assert!(steps[0].manhatten(Vec2::new(0, 0)) <= 1);
    for w in steps.windows(2) {
        assert_eq!(w[0].manhatten(w[1]), 1);
    }
    assert!(steps.last().unwrap().manhatten(Vec2::new(4, 0)) <= 1);
    assert_eq!(cache.len(), 0);
}

#[test]
fn rooms_get_monsters_items_and_stairs() {
    let mut rng = rand::thread_rng();
    let room = RectRoom::new(2, 2, 4, 4);
    let weights = EntityChances::from_level(1);
    let mut g: Grid<Option<StuffTag>> = Grid::new(Vec2::new(10, 10));
    place_entities(&mut rng, &mut g, &room, 5, &weights);
    place_items(&mut rng, &mut g, &room, 2, 2, &weights);
    for (p, v) in g.iter() {
        if let Some(t) = v {
            assert!(p.x > 2 && p.x <= 6 && p.y > 2 && p.y <= 6);
            assert!(matches!(
                t,
                StuffTag::Orc | StuffTag::HpPotion | StuffTag::Dagger | StuffTag::LeatherArmor
            ));
        }
    }
    let stairs = place_stairs(&mut rng, &mut g, &room).unwrap();
    assert_eq!(*g.get(stairs), Some(StuffTag::Stairs));
    // a room without an empty cell gets no stairs
    let mut full: Grid<Option<StuffTag>> = Grid::new(Vec2::new(10, 10));
    full.fill(Some(StuffTag::Wall));
    assert_eq!(place_stairs(&mut rng, &mut full, &room), None);
}

#[test]
fn tunnels_bend_at_a_corner() {
    let mut rng = rand::thread_rng();
    for _ in 0..10 {
        let t = tunnel_between(&mut rng, Vec2::new(1, 2), Vec2::new(5, 9));
        assert!(t.corner == Vec2::new(5, 2) || t.corner == Vec2::new(1, 9));
        assert_eq!(t.current, Vec2::new(1, 2));
        assert_eq!(t.end, Vec2::new(5, 9));
    }
}

#[test]
fn a_map_without_room_budget_fails() {
    let props = MapGenProps {
        room_min_size: 6,
        room_max_size: 10,
        max_rooms: 0,
        max_items_per_floor: 0,
        max_monsters_per_floor: 0,
    };
    assert!(matches!(generate_map(Vec2::new(40, 40), &props, 1), Err(MapGenError::TooFewRooms)));
}

#[test]
fn entities_slow_the_search_but_never_block_it() {
    let mut grid: Grid<Option<EntityId>> = Grid::new(Vec2::new(5, 5));
    // a full wall of entities in column 2
    for y in 0..5 {
        grid.set(Vec2::new(2, y), Some(EntityId(200 + y as u32)));
    }
    let mut cache = PathCache::default();
    assert!(find_path(Vec2::new(0, 0), Vec2::new(4, 0), &grid, &Vec::new(), &mut cache.path));
    let mut steps = Vec::new();
    while let Some(p) = cache.next_step() {
        steps.push(p);
    }
    assert!(steps.last().unwrap().manhatten(Vec2::new(4, 0)) <= 1);
}

#[test]
fn a_target_out_of_reach_is_not_found() {
    let grid: Grid<Option<EntityId>> = Grid::new(Vec2::new(1, 1));
    let mut cache = PathCache::default();
    assert!(!find_path(Vec2::new(0, 0), Vec2::new(10, 10), &grid, &Vec::new(), &mut cache.path));
    assert_eq!(cache.len(), 0);
    // a target next to the grid is reached from its border cell
    assert!(find_path(Vec2::new(0, 0), Vec2::new(1, 0), &grid, &Vec::new(), &mut cache.path));
}

#[test]
fn placing_respects_the_counts() {
    let mut rng = rand::thread_rng();
    let room = RectRoom::new(2, 2, 4, 4);
    let weights = EntityChances::from_level(1);
    for _ in 0..20 {
        let mut g: Grid<Option<StuffTag>> = Grid::new(Vec2::new(10, 10));
        place_entities(&mut rng, &mut g, &room, 0, &weights);
        assert!(g.iter().into_iter().all(|(_, v)| v.is_none()));
        place_items(&mut rng, &mut g, &room, 1, 2, &weights);
        let placed = g.iter().into_iter().filter(|(_, v)| v.is_some()).count();
        assert!((1..=2).contains(&placed));
        place_entities(&mut rng, &mut g, &room, 3, &weights);
        let total = g.iter().into_iter().filter(|(_, v)| v.is_some()).count();
        assert!(total >= placed && total <= placed + 3);
    }
}

#[test]
fn spanning_tree_follows_center_distance() {
    let rooms = vec![RectRoom::new(0, 0, 2, 2), RectRoom::new(20, 0, 2, 2), RectRoom::new(2, 0, 2, 2)];
    let tree = minimum_spanning_tree(&rooms);
    assert_eq!(tree.edges, vec![(2, 0), (2, 1)]);
    assert_eq!(tree.parents, vec![2, 2, -1]);
}

#[test]
fn generated_maps_keep_their_border() {
    let mut g: Grid<Option<StuffTag>> = Grid::new(Vec2::new(64, 64));
    g.fill(Some(StuffTag::Wall));
    let props = MapGenProps::from_level(3);
    let _ = build_rooms(&mut g, &props, 3);
    for (p, v) in g.iter() {
        if p.x == 0 || p.y == 0 || p.x == 63 || p.y == 63 {
            assert_eq!(v, Some(StuffTag::Wall));
        }
    }
}

#[test]
fn rooms_fit_only_apart() {
    let placed = vec![RectRoom::new(3, 3, 4, 4)];
    assert!(!room_fits(&placed, &RectRoom::new(8, 3, 4, 4)));
    assert!(room_fits(&placed, &RectRoom::new(20, 3, 4, 4)));
    assert!(room_fits(&Vec::new(), &RectRoom::new(3, 3, 4, 4)));
}

#[test]
fn the_first_room_across_a_tunnel_blocks_it() {
    let rooms = vec![
        RectRoom::new(0, 0, 2, 2),
        RectRoom::new(20, 0, 2, 2),
        RectRoom::new(9, 0, 2, 2),
        RectRoom::new(9, 10, 2, 2),
    ];
    let t = TunnelIter::new(Vec2::new(1, 1), Vec2::new(21, 1), Vec2::new(21, 1));
    assert_eq!(tunnel_blocker(&rooms, 0, 1, &t), 2);
    let clear = TunnelIter::new(Vec2::new(1, 1), Vec2::new(1, 5), Vec2::new(1, 5));
    assert_eq!(tunnel_blocker(&rooms, 0, 1, &clear), 4);
}

#[test]
fn a_tunnel_runs_along_its_l() {
    let mut t = TunnelIter::new(Vec2::new(1, 2), Vec2::new(4, 0), Vec2::new(4, 2));
    let mut cells = Vec::new();
    while let Some(p) = t.next() {
        cells.push(p);
    }
    assert_eq!(
        cells,
        vec![Vec2::new(2, 2), Vec2::new(3, 2), Vec2::new(4, 2), Vec2::new(4, 1), Vec2::new(4, 0)]
    );
    assert_eq!(t.next(), None);
    assert_eq!(t.next(), None);
}

#[test]
fn digging_empties_exactly_the_tunnel() {
    let mut g: Grid<Option<StuffTag>> = Grid::new(Vec2::new(6, 6));
    g.fill(Some(StuffTag::Wall));
    dig_tunnel(&mut g, TunnelIter::new(Vec2::new(1, 1), Vec2::new(3, 4), Vec2::new(1, 4)));
    let empty: Vec<Vec2> = g.iter().into_iter().filter(|(_, v)| v.is_none()).map(|(p, _)| p).collect();
    assert_eq!(empty, vec![Vec2::new(1, 2), Vec2::new(1, 3), Vec2::new(1, 4), Vec2::new(2, 4), Vec2::new(3, 4)]);
}

#[test]
fn doors_fill_the_gaps_around_rooms() {
    let mut g: Grid<Option<StuffTag>> = Grid::new(Vec2::new(12, 12));
    g.fill(Some(StuffTag::Wall));
    let room = RectRoom::new(4, 4, 2, 2);
    room.carve(&mut g);
    g.set(Vec2::new(3, 5), None);
    g.set(Vec2::new(8, 8), None);
    place_doors(&mut g, &vec![room]);
    assert_eq!(*g.get(Vec2::new(3, 5)), Some(StuffTag::Door));
    assert_eq!(*g.get(Vec2::new(8, 8)), None);
    assert_eq!(*g.get(Vec2::new(5, 5)), None);
    assert_eq!(*g.get(Vec2::new(3, 4)), Some(StuffTag::Wall));
}

#[test]
fn the_first_draw_on_an_empty_cell_wins() {
    let room = RectRoom::new(2, 2, 4, 4);
    let mut g: Grid<Option<StuffTag>> = Grid::new(Vec2::new(10, 10));
    g.set(Vec2::new(4, 4), Some(StuffTag::Wall));
    let draws = vec![
        (Vec2::new(3, 3), StuffTag::Orc),
        (Vec2::new(3, 3), StuffTag::Troll),
        (Vec2::new(4, 4), StuffTag::Orc),
        (Vec2::new(5, 6), StuffTag::HpPotion),
    ];
    let kinds = vec![StuffTag::Orc, StuffTag::Troll, StuffTag::HpPotion];
    fill_empty(&mut g, &room, &draws, &kinds);
    assert_eq!(*g.get(Vec2::new(3, 3)), Some(StuffTag::Orc));
    assert_eq!(*g.get(Vec2::new(4, 4)), Some(StuffTag::Wall));
    assert_eq!(*g.get(Vec2::new(5, 6)), Some(StuffTag::HpPotion));
    assert_eq!(g.iter().into_iter().filter(|(_, v)| v.is_some()).count(), 3);
}

#[test]
fn tunnels_join_every_room_to_the_first() {
    for level in 1..6 {
        let mut g: Grid<Option<StuffTag>> = Grid::new(Vec2::new(64, 64));
        g.fill(Some(StuffTag::Wall));
        let props = MapGenProps::from_level(level);
        let Ok(layout) = build_rooms(&mut g, &props, level) else { continue };
        // walk the open cells from the first room's center
        let start = layout.rooms[0].center();
        let mut seen = vec![false; 64 * 64];
        let mut todo = vec![start];
        seen[(start.y * 64 + start.x) as usize] = true;
        while let Some(p) = todo.pop() {
            for d in [Vec2::new(1, 0), Vec2::new(-1, 0), Vec2::new(0, 1), Vec2::new(0, -1)] {
                let q = Vec2::new(p.x + d.x, p.y + d.y);
                if q.x < 0 || q.y < 0 || q.x >= 64 || q.y >= 64 {
                    continue;
                }
                let i = (q.y * 64 + q.x) as usize;
                if !seen[i] && *g.get(q) != Some(StuffTag::Wall) {
                    seen[i] = true;
                    todo.push(q);
                }
            }
        }
        for room in layout.rooms.iter() {
            let c = room.center();
            assert!(seen[(c.y * 64 + c.x) as usize]);
        }
    }
}

#[test]
fn a_tunnel_may_reach_the_largest_coordinates() {
    let mut t = TunnelIter::new(Vec2::new(i32::MAX - 2, 0), Vec2::new(i32::MAX, 1), Vec2::new(i32::MAX, 0));
    let mut cells = Vec::new();
    while let Some(p) = t.next() {
        cells.push(p);
    }
    assert_eq!(cells, vec![Vec2::new(i32::MAX - 1, 0), Vec2::new(i32::MAX, 0), Vec2::new(i32::MAX, 1)]);
}

#[test]
fn a_blocked_tunnel_is_rerouted_through_the_blocking_room() {
    let rooms = vec![
        RectRoom::new(3, 3, 2, 2),
        RectRoom::new(23, 3, 2, 2),
        RectRoom::new(12, 3, 2, 2),
    ];
    let mut g: Grid<Option<StuffTag>> = Grid::new(Vec2::new(30, 10));
    g.fill(Some(StuffTag::Wall));
    let mut adj: Grid<i8> = Grid::new(Vec2::new(3, 3));
    adj.fill(0);
    adj.set(Vec2::new(0, 1), 1);
    adj.set(Vec2::new(1, 0), 1);
    let mut edges: Vec<(u32, u32)> = Vec::new();
    let t = TunnelIter::new(Vec2::new(4, 4), Vec2::new(24, 4), Vec2::new(24, 4));
    assert_eq!(route_edge(&mut g, &rooms, &mut adj, &mut edges, 0, 1, t), 2);
    assert_eq!(edges, vec![(0, 2), (1, 2)]);
    assert_eq!((*adj.get(Vec2::new(0, 1)), *adj.get(Vec2::new(2, 0)), *adj.get(Vec2::new(1, 2))), (0, 1, 1));
    assert!(g.iter().into_iter().all(|(_, v)| v == Some(StuffTag::Wall)));
    // an open path is dug
    let t = TunnelIter::new(Vec2::new(4, 4), Vec2::new(4, 8), Vec2::new(4, 8));
    assert_eq!(route_edge(&mut g, &rooms, &mut adj, &mut edges, 0, 1, t), 3);
    assert_eq!(*g.get(Vec2::new(4, 8)), None);
    assert_eq!(edges.len(), 2);
}

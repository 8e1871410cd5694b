//! Putting monsters, items and the stairs into the rooms of a fresh map.
use vstd::prelude::*;

use rand::rngs::ThreadRng;

use crate::components::StuffTag;
use crate::grid::Grid;
use crate::map_gen::chances::{is_spawnable, EntityChances};
use crate::map_gen::rect_room::RectRoom;
use crate::math::Vec2;
use crate::rng::{choose_one, gen_range, weighted_sample};

verus! {

/// The working grid of map generation: what kind of thing, if any, ends up on each cell.
pub type TagGrid = Grid<Option<StuffTag>>;

/// The room lies inside a `w` by `h` grid, at least one cell from every border, and has
/// cells to either side of its first row and column.
pub open spec fn room_inside(room: RectRoom, w: int, h: int) -> bool {
    &&& 1 <= room.min.x < room.max.x <= w - 2
    &&& 1 <= room.min.y < room.max.y <= h - 2
}

/// Where things get placed in a room: every cell but the first row and column.
pub open spec fn in_interior(room: RectRoom, x: int, y: int) -> bool {
    room.min.x < x <= room.max.x && room.min.y < y <= room.max.y
}

/// `after` equals `before` but for empty cells in the room's interior that now hold one of
/// `kinds`.
pub open spec fn placed_within(
    before: TagGrid,
    after: TagGrid,
    room: RectRoom,
    kinds: Seq<StuffTag>,
) -> bool {
    &&& after.wf()
    &&& after.spec_dims() == before.spec_dims()
    &&& forall|x: int, y: int|
        before.in_bounds(x, y) ==> {
            ||| #[trigger] after.cell(x, y) == before.cell(x, y)
            ||| before.cell(x, y) is None && in_interior(room, x, y) && after.cell(x, y) is Some
                && kinds.contains(after.cell(x, y)->0)
        }
}

/// The cells of `before` whose content differs in `after`.
pub open spec fn changed_cells(before: TagGrid, after: TagGrid) -> Set<(int, int)> {
    Set::new(|p: (int, int)| before.in_bounds(p.0, p.1) && after.cell(p.0, p.1) != before.cell(p.0, p.1))
}

/// Every interior cell of the room is empty.
pub open spec fn interior_empty(grid: TagGrid, room: RectRoom) -> bool {
    forall|x: int, y: int| in_interior(room, x, y) ==> #[trigger] grid.cell(x, y) is None
}

/// Some interior cell of the room that was empty in `before` holds something in `after`.
pub open spec fn placed_some(before: TagGrid, after: TagGrid, room: RectRoom) -> bool {
    exists|x: int, y: int|
        in_interior(room, x, y) && before.cell(x, y) is None && #[trigger] after.cell(x, y) is Some
}

/// A random interior cell of the room.
fn random_interior_cell(rng: &mut ThreadRng, room: &RectRoom) -> (r: Vec2)
    requires
        room.min.x < room.max.x,
        room.min.y < room.max.y,
    ensures
        in_interior(*room, r.x as int, r.y as int),
{
    let x = gen_range(rng, room.min.x as i64 + 1, room.max.x as i64 + 1);
    let y = gen_range(rng, room.min.y as i64 + 1, room.max.y as i64 + 1);
    Vec2::new(x as i32, y as i32)
}

/// Index of the first of the first `i` draws that lands on `(x, y)`; `-1` when none does.
pub open spec fn first_hit(draws: Seq<(Vec2, StuffTag)>, x: int, y: int, i: int) -> int
    decreases i,
{
    if i <= 0 {
        -1
    } else {
        let f = first_hit(draws, x, y, i - 1);
        if f >= 0 {
            f
        } else if draws[i - 1].0.x == x && draws[i - 1].0.y == y {
            i - 1
        } else {
            -1
        }
    }
}

/// The first `i` draws already land somewhere; a later draw does not change where the first
/// one on a cell was.
proof fn lemma_first_hit_range(draws: Seq<(Vec2, StuffTag)>, x: int, y: int, i: int)
    ensures
        -1 <= first_hit(draws, x, y, i) < i || (i <= 0 && first_hit(draws, x, y, i) == -1),
        first_hit(draws, x, y, i) >= 0 ==> draws[first_hit(draws, x, y, i)].0.x == x
            && draws[first_hit(draws, x, y, i)].0.y == y,
    decreases i,
{
    if i > 0 {
        lemma_first_hit_range(draws, x, y, i - 1);
    }
}

/// Put each drawn kind on its drawn cell, in order, where that cell is still empty: a cell of
/// the grid that was empty ends up with the kind of the first draw on it, if any.
pub fn fill_empty(grid: &mut TagGrid, room: &RectRoom, draws: &Vec<(Vec2, StuffTag)>, tags: &Vec<StuffTag>)
    requires
        old(grid).wf(),
        room_inside(*room, old(grid).spec_width(), old(grid).spec_height()),
        forall|i: int|
            0 <= i < draws@.len() ==> in_interior(*room, (#[trigger] draws@[i]).0.x as int, draws@[i].0.y as int)
                && tags@.contains(draws@[i].1),
    ensures
        final(grid).wf(),
        final(grid).spec_dims() == old(grid).spec_dims(),
        forall|x: int, y: int|
            old(grid).in_bounds(x, y) ==> #[trigger] final(grid).cell(x, y) == if old(grid).cell(x, y) is None
                && first_hit(draws@, x, y, draws@.len() as int) >= 0 {
                Some(draws@[first_hit(draws@, x, y, draws@.len() as int)].1)
            } else {
                old(grid).cell(x, y)
            },
        placed_within(*old(grid), *final(grid), *room, tags@),
        changed_cells(*old(grid), *final(grid)).finite(),
        changed_cells(*old(grid), *final(grid)).len() <= draws@.len(),
        draws@.len() == 0 ==> *final(grid) == *old(grid),
        draws@.len() > 0 && interior_empty(*old(grid), *room) ==> placed_some(*old(grid), *final(grid), *room),
{
    let ghost g0 = *old(grid);
    let n = draws.len();
    let mut k: usize = 0;
    proof {
        assert(changed_cells(g0, *grid) =~= Set::<(int, int)>::empty());
    }
    while k < n
        invariant
            n == draws@.len(),
            g0.wf(),
            grid.wf(),
            grid.spec_dims() == g0.spec_dims(),
            room_inside(*room, g0.spec_width(), g0.spec_height()),
            forall|i: int|
                0 <= i < draws@.len() ==> in_interior(*room, (#[trigger] draws@[i]).0.x as int, draws@[i].0.y as int)
                    && tags@.contains(draws@[i].1),
            forall|x: int, y: int|
                g0.in_bounds(x, y) ==> #[trigger] grid.cell(x, y) == if g0.cell(x, y) is None && first_hit(draws@, x, y, k as int)
                    >= 0 {
                    Some(draws@[first_hit(draws@, x, y, k as int)].1)
                } else {
                    g0.cell(x, y)
                },
            placed_within(g0, *grid, *room, tags@),
            k <= n,
            changed_cells(g0, *grid).finite(),
            changed_cells(g0, *grid).len() <= k,
            k == 0 ==> *grid == g0,
            k > 0 && interior_empty(g0, *room) ==> placed_some(g0, *grid, *room),
        decreases n - k,
    {
        let (pos, tag) = draws[k];
        proof {
            assert(in_interior(*room, pos.x as int, pos.y as int) && tags@.contains(tag));
        }
        let ghost before = *grid;
        if grid.get(pos).is_none() {
            grid.set(pos, Some(tag));
            proof {
                let old_set = changed_cells(g0, before);
                let new_set = changed_cells(g0, *grid);
                assert(new_set.subset_of(old_set.insert((pos.x as int, pos.y as int)))) by {
                    assert forall|p: (int, int)| new_set.contains(p) implies old_set.insert(
                        (pos.x as int, pos.y as int),
                    ).contains(p) by {
                        if p != (pos.x as int, pos.y as int) {
                            assert(grid.cell(p.0, p.1) == before.cell(p.0, p.1));
                        }
                    }
                }
                vstd::set_lib::lemma_len_subset(new_set, old_set.insert((pos.x as int, pos.y as int)));
                assert(grid.cell(pos.x as int, pos.y as int) is Some);
                if k > 0 && interior_empty(g0, *room) {
                    let (wx, wy) = choose|x: int, y: int|
                        in_interior(*room, x, y) && g0.cell(x, y) is None && #[trigger] before.cell(x, y) is Some;
                    if wx != pos.x || wy != pos.y {
                        assert(grid.cell(wx, wy) == before.cell(wx, wy));
                    }
                }
                assert forall|x: int, y: int| g0.in_bounds(x, y) implies {
                    ||| #[trigger] grid.cell(x, y) == g0.cell(x, y)
                    ||| g0.cell(x, y) is None && in_interior(*room, x, y) && grid.cell(x, y) is Some
                        && tags@.contains(grid.cell(x, y)->0)
                } by {
                    if x == pos.x && y == pos.y {
                        assert(before.cell(x, y) is None);
                    } else {
                        assert(grid.cell(x, y) == before.cell(x, y));
                    }
                }
                assert forall|x: int, y: int| g0.in_bounds(x, y) implies #[trigger] grid.cell(x, y) == if g0.cell(x, y) is None
                    && first_hit(draws@, x, y, k + 1) >= 0 {
                    Some(draws@[first_hit(draws@, x, y, k + 1)].1)
                } else {
                    g0.cell(x, y)
                } by {
                    lemma_first_hit_range(draws@, x, y, k as int);
                    if x == pos.x && y == pos.y {
                        assert(before.cell(x, y) is None);
                    } else {
                        assert(grid.cell(x, y) == before.cell(x, y));
                    }
                }
            }
        } else {
            proof {
                if k == 0 {
                    assert(!interior_empty(g0, *room)) by {
                        assert(g0.cell(pos.x as int, pos.y as int) is Some);
                    }
                }
                assert forall|x: int, y: int| g0.in_bounds(x, y) implies #[trigger] grid.cell(x, y) == if g0.cell(x, y) is None
                    && first_hit(draws@, x, y, k + 1) >= 0 {
                    Some(draws@[first_hit(draws@, x, y, k + 1)].1)
                } else {
                    g0.cell(x, y)
                } by {
                    lemma_first_hit_range(draws@, x, y, k as int);
                    assert(grid.cell(x, y) == before.cell(x, y));
                }
            }
        }
        k = k + 1;
    }
}

/// Draw `count` cells of the room, each with a kind drawn by weight, and put each kind on its
/// cell where that cell is still empty (see `fill_empty`).
fn scatter(
    rng: &mut ThreadRng,
    grid: &mut TagGrid,
    room: &RectRoom,
    count: u32,
    tags: &Vec<StuffTag>,
    weights: &Vec<i32>,
)
    requires
        old(grid).wf(),
        room_inside(*room, old(grid).spec_width(), old(grid).spec_height()),
        tags@.len() == weights@.len(),
        crate::rng::valid_weights(weights@),
    ensures
        placed_within(*old(grid), *final(grid), *room, tags@),
        changed_cells(*old(grid), *final(grid)).finite(),
        changed_cells(*old(grid), *final(grid)).len() <= count,
        count == 0 ==> *final(grid) == *old(grid),
        count > 0 && interior_empty(*old(grid), *room) ==> placed_some(*old(grid), *final(grid), *room),
{
    let mut draws: Vec<(Vec2, StuffTag)> = Vec::new();
    let mut k: u32 = 0;
    while k < count
        invariant
            k <= count,
            draws@.len() == k,
            room_inside(*room, old(grid).spec_width(), old(grid).spec_height()),
            tags@.len() == weights@.len(),
            crate::rng::valid_weights(weights@),
            forall|i: int|
                0 <= i < draws@.len() ==> in_interior(*room, (#[trigger] draws@[i]).0.x as int, draws@[i].0.y as int)
                    && tags@.contains(draws@[i].1),
        decreases count - k,
    {
        let pos = random_interior_cell(rng, room);
        let i = weighted_sample(rng, weights);
        let tag = tags[i];
        let ghost before = draws@;
        draws.push((pos, tag));
        proof {
            assert(tags@[i as int] == tag);
            assert forall|j: int| 0 <= j < draws@.len() implies in_interior(*room, (#[trigger] draws@[j]).0.x as int, draws@[j].0.y as int)
                && tags@.contains(draws@[j].1) by {
                if j < before.len() {
                    assert(draws@[j] == before[j]);
                }
            }
        }
        k = k + 1;
    }
    fill_empty(grid, room, &draws, tags);
}

/// Up to `max_monsters` monsters in the room: the larger of two draws from `0..=max_monsters`
/// monsters are attempted, each on a random cell, skipped where the cell is taken.
pub fn place_entities(
    rng: &mut ThreadRng,
    grid: &mut TagGrid,
    room: &RectRoom,
    max_monsters: u32,
    weights: &EntityChances,
)
    requires
        old(grid).wf(),
        room_inside(*room, old(grid).spec_width(), old(grid).spec_height()),
        weights.wf(),
    ensures
        placed_within(*old(grid), *final(grid), *room, weights.enemy_tags@),
        changed_cells(*old(grid), *final(grid)).finite(),
        changed_cells(*old(grid), *final(grid)).len() <= max_monsters,
        max_monsters == 0 ==> *final(grid) == *old(grid),
{
    let n_monsters_a = gen_range(rng, 0, max_monsters as i64 + 1) as u32;
    let n_monsters_b = gen_range(rng, 0, max_monsters as i64 + 1) as u32;
    let n_monsters = if n_monsters_a > n_monsters_b {
        n_monsters_a
    } else {
        n_monsters_b
    };  // bias towards more monsters
    scatter(rng, grid, room, n_monsters, &weights.enemy_tags, &weights.enemy_weights);
}

/// Between `min_items` and `max_items` items attempted in the room, each on a random cell,
/// skipped where the cell is taken.
pub fn place_items(
    rng: &mut ThreadRng,
    grid: &mut TagGrid,
    room: &RectRoom,
    min_items: u32,
    max_items: u32,
    weights: &EntityChances,
)
    requires
        old(grid).wf(),
        room_inside(*room, old(grid).spec_width(), old(grid).spec_height()),
        weights.wf(),
        min_items <= max_items,
    ensures
        placed_within(*old(grid), *final(grid), *room, weights.item_tags@),
        changed_cells(*old(grid), *final(grid)).finite(),
        changed_cells(*old(grid), *final(grid)).len() <= max_items,
        max_items == 0 ==> *final(grid) == *old(grid),
        min_items > 0 && interior_empty(*old(grid), *room) ==> placed_some(*old(grid), *final(grid), *room),
{
    let n_items = gen_range(rng, min_items as i64, max_items as i64 + 1) as u32;
    scatter(rng, grid, room, n_items, &weights.item_tags, &weights.item_weights);
}

/// The stairs on a random empty interior cell of the room, chosen with equal chance among
/// them; `None`, and the grid untouched, when there is no such cell.
pub fn place_stairs(rng: &mut ThreadRng, grid: &mut TagGrid, room: &RectRoom) -> (r: Option<Vec2>)
    requires
        old(grid).wf(),
        room_inside(*room, old(grid).spec_width(), old(grid).spec_height()),
    ensures
        final(grid).wf(),
        final(grid).spec_dims() == old(grid).spec_dims(),
        r is None <==> forall|x: int, y: int|
            in_interior(*room, x, y) ==> #[trigger] old(grid).cell(x, y) is Some,
        r is None ==> *final(grid) == *old(grid),
        r matches Some(p) ==> {
            &&& in_interior(*room, p.x as int, p.y as int)
            &&& old(grid).cell(p.x as int, p.y as int) is None
            &&& forall|x: int, y: int|
                old(grid).in_bounds(x, y) ==> #[trigger] final(grid).cell(x, y) == if x == p.x && y
                    == p.y {
                    Some(StuffTag::Stairs)
                } else {
                    old(grid).cell(x, y)
                }
        },
{
    let mut candidates: Vec<Vec2> = Vec::new();
    let mut y = room.min.y + 1;
    while y <= room.max.y
        invariant
            grid.wf(),
            room_inside(*room, grid.spec_width(), grid.spec_height()),
            room.min.y + 1 <= y <= room.max.y + 1,
            forall|i: int|
                0 <= i < candidates@.len() ==> {
                    let p = #[trigger] candidates@[i];
                    in_interior(*room, p.x as int, p.y as int) && grid.cell(p.x as int, p.y as int) is None
                },
            forall|xx: int, yy: int|
                in_interior(*room, xx, yy) && yy < y && #[trigger] grid.cell(xx, yy) is None
                    ==> candidates@.contains(Vec2 { x: xx as i32, y: yy as i32 }),
        decreases room.max.y + 1 - y,
    {
        let mut x = room.min.x + 1;
        while x <= room.max.x
            invariant
                grid.wf(),
                room_inside(*room, grid.spec_width(), grid.spec_height()),
                room.min.y + 1 <= y <= room.max.y,
                room.min.x + 1 <= x <= room.max.x + 1,
                forall|i: int|
                    0 <= i < candidates@.len() ==> {
                        let p = #[trigger] candidates@[i];
                        in_interior(*room, p.x as int, p.y as int) && grid.cell(p.x as int, p.y as int) is None
                    },
                forall|xx: int, yy: int|
                    in_interior(*room, xx, yy) && (yy < y || (yy == y && xx < x)) && #[trigger] grid.cell(
                        xx,
                        yy,
                    ) is None ==> candidates@.contains(Vec2 { x: xx as i32, y: yy as i32 }),
            decreases room.max.x + 1 - x,
        {
            let p = Vec2::new(x, y);
            if grid.get(p).is_none() {
                let ghost before = candidates@;
                candidates.push(p);
                proof {
                    assert(candidates@[before.len() as int] == p);
                    assert forall|xx: int, yy: int|
                        in_interior(*room, xx, yy) && (yy < y || (yy == y && xx < x + 1))
                            && #[trigger] grid.cell(xx, yy) is None implies candidates@.contains(
                        Vec2 { x: xx as i32, y: yy as i32 },
                    ) by {
                        if yy == y && xx == x {
                            assert(candidates@[before.len() as int] == Vec2 { x: xx as i32, y: yy as i32 });
                        } else {
                            let i = choose|i: int| 0 <= i < before.len() && before[i] == Vec2 { x: xx as i32, y: yy as i32 };
                            assert(candidates@[i] == before[i]);
                        }
                    }
                }
            }
            x = x + 1;
        }
        y = y + 1;
    }
    match choose_one(rng, &candidates) {
        None => {
            proof {
                assert forall|x: int, y: int| in_interior(*room, x, y) implies #[trigger] grid.cell(x, y) is Some by {
                    if grid.cell(x, y) is None {
                        assert(candidates@.contains(Vec2 { x: x as i32, y: y as i32 }));
                    }
                }
            }
            None
        },
        Some(pos) => {
            proof {
                let i = choose|i: int| 0 <= i < candidates@.len() && candidates@[i] == pos;
                assert(candidates@[i] == pos);
            }
            grid.set(pos, Some(StuffTag::Stairs));
            Some(pos)
        },
    }
}

} // verus!

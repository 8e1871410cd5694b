//! How likely each kind of monster and item is on a given floor.
use vstd::prelude::*;

use crate::components::StuffTag;
use crate::rng::{valid_weights, weight_sum};

verus! {

/// From dungeon floor `floor` on, the listed kinds spawn with the listed weights (overriding
/// the weight an earlier entry gave the same kind).
pub struct ChanceLevel {
    pub floor: u32,
    pub weights: Vec<(StuffTag, i32)>,
}

/// A level as plain values: its floor and its entries.
pub type LevelView = (u32, Seq<(StuffTag, i32)>);

pub open spec fn levels_view(levels: Seq<ChanceLevel>) -> Seq<LevelView> {
    Seq::new(levels.len(), |i: int| (levels[i].floor, levels[i].weights@))
}

/// The entries in force on `floor`: the weights of the leading levels whose floor is at most
/// `floor`, in order, up to the first level above it.
pub open spec fn active_entries(levels: Seq<LevelView>, floor: u32) -> Seq<(StuffTag, i32)>
    decreases levels.len(),
{
    if levels.len() == 0 || levels[0].0 > floor {
        Seq::empty()
    } else {
        levels[0].1 + active_entries(levels.skip(1), floor)
    }
}

/// The monster table: from floor 0 orcs, trolls growing likelier from floor 3 on.
pub open spec fn enemy_table() -> Seq<LevelView> {
    seq![
        (0u32, seq![(StuffTag::Orc, 80i32)]),
        (3u32, seq![(StuffTag::Troll, 15i32)]),
        (5u32, seq![(StuffTag::Troll, 30i32)]),
        (7u32, seq![(StuffTag::Troll, 60i32)]),
    ]
}

/// The item table: potions, daggers and leather from floor 0, then better gear and scrolls.
pub open spec fn item_table() -> Seq<LevelView> {
    seq![
        (0u32, seq![(StuffTag::HpPotion, 80i32), (StuffTag::Dagger, 40i32), (StuffTag::LeatherArmor, 40i32)]),
        (2u32, seq![(StuffTag::ConfusionScroll, 10i32), (StuffTag::Sword, 30i32), (StuffTag::ChainMailArmor, 30i32)]),
        (4u32, seq![(StuffTag::LightningScroll, 25i32)]),
        (6u32, seq![(StuffTag::FireBallScroll, 25i32)]),
    ]
}

/// The weight the last entry for `tag` gives it, if any entry does.
pub open spec fn last_weight(entries: Seq<(StuffTag, i32)>, tag: StuffTag) -> Option<i32>
    decreases entries.len(),
{
    if entries.len() == 0 {
        None
    } else if entries.last().0 == tag {
        Some(entries.last().1)
    } else {
        last_weight(entries.drop_last(), tag)
    }
}

/// `tags` lists, once each, exactly the kinds with an entry, and `weights[i]` is the weight
/// the last entry for `tags[i]` gives it.
pub open spec fn weighted_kinds(
    entries: Seq<(StuffTag, i32)>,
    tags: Seq<StuffTag>,
    weights: Seq<i32>,
) -> bool {
    &&& tags.len() == weights.len()
    &&& forall|i: int, j: int| 0 <= i < j < tags.len() ==> tags[i] != tags[j]
    &&& forall|i: int| 0 <= i < tags.len() ==> last_weight(entries, #[trigger] tags[i]) == Some(weights[i])
    &&& forall|t: StuffTag| #[trigger] last_weight(entries, t) is Some ==> tags.contains(t)
}

// sorted from low to high level
// [floor number: [(tag, weight)]]
pub fn enemy_chances() -> (r: Vec<ChanceLevel>)
    ensures
        levels_view(r@) == enemy_table(),
{
    let l0 = ChanceLevel { floor: 0, weights: vec![(StuffTag::Orc, 80)] };
    let l1 = ChanceLevel { floor: 3, weights: vec![(StuffTag::Troll, 15)] };
    let l2 = ChanceLevel { floor: 5, weights: vec![(StuffTag::Troll, 30)] };
    let l3 = ChanceLevel { floor: 7, weights: vec![(StuffTag::Troll, 60)] };
    assert(l0.weights@ =~= enemy_table()[0].1);
    assert(l1.weights@ =~= enemy_table()[1].1);
    assert(l2.weights@ =~= enemy_table()[2].1);
    assert(l3.weights@ =~= enemy_table()[3].1);
    let r = vec![l0, l1, l2, l3];
    assert(levels_view(r@) =~= enemy_table());
    r
}

pub fn item_chances() -> (r: Vec<ChanceLevel>)
    ensures
        levels_view(r@) == item_table(),
{
    let l0 = ChanceLevel {
        floor: 0,
        weights: vec![(StuffTag::HpPotion, 80), (StuffTag::Dagger, 40), (StuffTag::LeatherArmor, 40)],
    };
    let l1 = ChanceLevel {
        floor: 2,
        weights: vec![(StuffTag::ConfusionScroll, 10), (StuffTag::Sword, 30), (StuffTag::ChainMailArmor, 30)],
    };
    let l2 = ChanceLevel { floor: 4, weights: vec![(StuffTag::LightningScroll, 25)] };
    let l3 = ChanceLevel { floor: 6, weights: vec![(StuffTag::FireBallScroll, 25)] };
    assert(l0.weights@ =~= item_table()[0].1);
    assert(l1.weights@ =~= item_table()[1].1);
    assert(l2.weights@ =~= item_table()[2].1);
    assert(l3.weights@ =~= item_table()[3].1);
    let r = vec![l0, l1, l2, l3];
    assert(levels_view(r@) =~= item_table());
    r
}

proof fn lemma_last_weight_push(entries: Seq<(StuffTag, i32)>, e: (StuffTag, i32), t: StuffTag)
    ensures
        last_weight(entries.push(e), t) == if e.0 == t {
            Some(e.1)
        } else {
            last_weight(entries, t)
        },
{
    assert(entries.push(e).drop_last() =~= entries);
}

/// The kinds that may spawn on `floor`, with their weights: walks the levels in order up to
/// the first one above `floor`, a later entry for a kind replacing the weight of an earlier
/// one.
pub fn entity_weighted_chances(floor: u32, chances: &Vec<ChanceLevel>) -> (r: (
    Vec<StuffTag>,
    Vec<i32>,
))
    ensures
        weighted_kinds(active_entries(levels_view(chances@), floor), r.0@, r.1@),
{
    // allow overriding chances on higher floors
    let mut tags: Vec<StuffTag> = Vec::new();
    let mut weights: Vec<i32> = Vec::new();
    let ghost mut seen: Seq<(StuffTag, i32)> = Seq::empty();
    let mut i: usize = 0;
    proof {
        assert(levels_view(chances@).skip(0) =~= levels_view(chances@));
        assert(seen + active_entries(levels_view(chances@), floor) =~= active_entries(levels_view(chances@), floor));
    }
    while i < chances.len()
        invariant_except_break
            active_entries(levels_view(chances@), floor) == seen + active_entries(levels_view(chances@).skip(i as int), floor),
        invariant
            i <= chances@.len(),
            weighted_kinds(seen, tags@, weights@),
        ensures
            active_entries(levels_view(chances@), floor) == seen,
        decreases chances@.len() - i,
    {
        let level = &chances[i];
        proof {
            assert(levels_view(chances@).skip(i as int)[0] == levels_view(chances@)[i as int]);
        }
        if level.floor > floor {
            break;
        }
        proof {
            assert(levels_view(chances@).skip(i as int).skip(1) =~= levels_view(chances@).skip(i + 1));
        }
        let ghost seen_before = seen;
        let mut j: usize = 0;
        while j < level.weights.len()
            invariant
                j <= level.weights@.len(),
                seen == seen_before + level.weights@.take(j as int),
                weighted_kinds(seen, tags@, weights@),
            decreases level.weights@.len() - j,
        {
            let (tag, weight) = level.weights[j];
            let mut k: usize = 0;
            while k < tags.len()
                invariant
                    k <= tags@.len(),
                    forall|m: int| 0 <= m < k ==> tags@[m] != tag,
                ensures
                    k <= tags@.len(),
                    forall|m: int| 0 <= m < k ==> tags@[m] != tag,
                    k < tags@.len() ==> tags@[k as int] == tag,
                decreases tags@.len() - k,
            {
                if tags[k] == tag {
                    break;
                }
                k = k + 1;
            }
            let ghost old_tags = tags@;
            let ghost old_weights = weights@;
            if k < tags.len() {
                weights.set(k, weight);
            } else {
                tags.push(tag);
                weights.push(weight);
            }
            proof {
                let e = (tag, weight);
                assert(level.weights@.take(j + 1) =~= level.weights@.take(j as int).push(e));
                let ns = seen.push(e);
                assert forall|t: StuffTag| true implies last_weight(ns, t) == if e.0 == t {
                    Some(e.1)
                } else {
                    last_weight(seen, t)
                } by {
                    lemma_last_weight_push(seen, e, t);
                }
                if k < old_tags.len() {
                    assert(old_tags[k as int] == tag);
                    assert forall|t: StuffTag| #[trigger] last_weight(ns, t) is Some implies tags@.contains(t) by {
                        if t != tag {
                            assert(last_weight(seen, t) is Some);
                        } else {
                            assert(tags@[k as int] == t);
                        }
                    }
                } else {
                    assert forall|t: StuffTag| #[trigger] last_weight(ns, t) is Some implies tags@.contains(t) by {
                        if t != tag {
                            assert(last_weight(seen, t) is Some);
                            let m = choose|m: int| 0 <= m < old_tags.len() && old_tags[m] == t;
                            assert(tags@[m] == t);
                        } else {
                            assert(tags@[old_tags.len() as int] == t);
                        }
                    }
                }
                seen = ns;
            }
            j = j + 1;
        }
        proof {
            assert(level.weights@.take(level.weights@.len() as int) =~= level.weights@);
            assert(seen_before + level.weights@ + active_entries(levels_view(chances@).skip(i + 1), floor)
                =~= seen_before + (level.weights@ + active_entries(levels_view(chances@).skip(i + 1), floor)));
        }
        i = i + 1;
    }
    proof {
        if i == chances@.len() {
            assert(levels_view(chances@).skip(i as int).len() == 0);
            assert(seen + Seq::<(StuffTag, i32)>::empty() =~= seen);
        }
    }
    (tags, weights)
}

/// A table entry: a spawnable kind with a weight from 1 to 1000.
pub open spec fn sane_entry(e: (StuffTag, i32)) -> bool {
    is_spawnable(e.0) && 1 <= e.1 <= 1000
}

/// The entries in force on any floor come from the levels: they are sane when the levels'
/// are, there are at most `m` per level, and a first level at floor 0 with an entry is
/// always in force.
proof fn lemma_table_entries(levels: Seq<LevelView>, floor: u32, m: int)
    requires
        forall|i: int, k: int|
            0 <= i < levels.len() && 0 <= k < levels[i].1.len() ==> sane_entry(
                #[trigger] levels[i].1[k],
            ),
        forall|i: int| 0 <= i < levels.len() ==> (#[trigger] levels[i]).1.len() <= m,
        m >= 0,
    ensures
        forall|k: int|
            0 <= k < active_entries(levels, floor).len() ==> sane_entry(
                #[trigger] active_entries(levels, floor)[k],
            ),
        active_entries(levels, floor).len() <= levels.len() * m,
        levels.len() > 0 && levels[0].0 == 0 && levels[0].1.len() > 0 ==> active_entries(
            levels,
            floor,
        ).len() > 0,
    decreases levels.len(),
{
    if levels.len() == 0 || levels[0].0 > floor {
    } else {
        let rest = levels.skip(1);
        assert forall|i: int, k: int| 0 <= i < rest.len() && 0 <= k < rest[i].1.len() implies sane_entry(
            #[trigger] rest[i].1[k],
        ) by {
            assert(rest[i] == levels[i + 1]);
        }
        assert forall|i: int| 0 <= i < rest.len() implies (#[trigger] rest[i]).1.len() <= m by {
            assert(rest[i] == levels[i + 1]);
        }
        lemma_table_entries(rest, floor, m);
        let a = active_entries(levels, floor);
        let tail = active_entries(rest, floor);
        assert(a == levels[0].1 + tail);
        assert forall|k: int| 0 <= k < a.len() implies sane_entry(#[trigger] a[k]) by {
            if k < levels[0].1.len() {
                assert(a[k] == levels[0].1[k]);
            } else {
                assert(a[k] == tail[k - levels[0].1.len()]);
            }
        }
        assert(levels[0].1.len() <= m);
        assert(levels.len() * m == (levels.len() - 1) * m + m) by (nonlinear_arith);
    }
}

/// A kind with a last weight has an entry giving exactly that weight.
proof fn lemma_last_weight_entry(entries: Seq<(StuffTag, i32)>, t: StuffTag)
    requires
        last_weight(entries, t) is Some,
    ensures
        exists|k: int|
            0 <= k < entries.len() && #[trigger] entries[k] == (t, last_weight(entries, t)->0),
    decreases entries.len(),
{
    if entries.last().0 == t {
        assert(entries[entries.len() - 1] == (t, last_weight(entries, t)->0));
    } else {
        lemma_last_weight_entry(entries.drop_last(), t);
        let k = choose|k: int|
            0 <= k < entries.drop_last().len() && #[trigger] entries.drop_last()[k] == (
                t,
                last_weight(entries.drop_last(), t)->0,
            );
        assert(entries[k] == entries.drop_last()[k]);
    }
}

proof fn lemma_weight_sum_bound(weights: Seq<i32>)
    requires
        forall|i: int| 0 <= i < weights.len() ==> 0 <= #[trigger] weights[i] <= 1000,
    ensures
        0 <= weight_sum(weights) <= 1000 * weights.len(),
    decreases weights.len(),
{
    if weights.len() > 0 {
        let rest = weights.drop_last();
        assert forall|i: int| 0 <= i < rest.len() implies 0 <= #[trigger] rest[i] <= 1000 by {
            assert(rest[i] == weights[i]);
        }
        lemma_weight_sum_bound(rest);
    }
}

/// Weights drawn from at most a thousand sane entries can be sampled, and name spawnable kinds.
proof fn lemma_weighted_kinds_valid(
    entries: Seq<(StuffTag, i32)>,
    tags: Seq<StuffTag>,
    weights: Seq<i32>,
)
    requires
        weighted_kinds(entries, tags, weights),
        0 < entries.len() <= 1000,
        forall|k: int| 0 <= k < entries.len() ==> sane_entry(#[trigger] entries[k]),
    ensures
        valid_weights(weights),
        forall|i: int| 0 <= i < tags.len() ==> is_spawnable(#[trigger] tags[i]),
{
    assert forall|i: int|
        #![trigger tags[i]]
        #![trigger weights[i]]
        0 <= i < tags.len() implies is_spawnable(tags[i]) && 1 <= weights[i] <= 1000 by {
        lemma_last_weight_entry(entries, tags[i]);
        let k = choose|k: int|
            0 <= k < entries.len() && #[trigger] entries[k] == (
                tags[i],
                last_weight(entries, tags[i])->0,
            );
        assert(sane_entry(entries[k]));
    }
    let t0 = entries.last().0;
    assert(last_weight(entries, t0) is Some);
    assert(tags.contains(t0));
    assert(weights[0] > 0);
    // at most as many kinds as entries
    let kinds = entries.map_values(|e: (StuffTag, i32)| e.0);
    assert(tags.no_duplicates());
    tags.unique_seq_to_set();
    kinds.lemma_cardinality_of_set();
    assert forall|t: StuffTag| tags.to_set().contains(t) implies kinds.to_set().contains(t) by {
        let i = choose|i: int| 0 <= i < tags.len() && tags[i] == t;
        assert(tags[i] == t);
        lemma_last_weight_entry(entries, t);
        let k = choose|k: int|
            0 <= k < entries.len() && #[trigger] entries[k] == (t, last_weight(entries, t)->0);
        assert(kinds[k] == t);
    }
    vstd::set_lib::lemma_len_subset(tags.to_set(), kinds.to_set());
    lemma_weight_sum_bound(weights);
}

/// The kinds of monsters and items that may spawn on a floor, and their weights.
pub struct EntityChances {
    pub enemy_tags: Vec<StuffTag>,
    pub enemy_weights: Vec<i32>,
    pub item_tags: Vec<StuffTag>,
    pub item_weights: Vec<i32>,
}

/// The kinds that populate rooms: monsters and items.
pub open spec fn is_spawnable(t: StuffTag) -> bool {
    !(t is Player || t is Wall || t is Door || t is Stairs || t is Tombstone)
}

impl EntityChances {
    /// Tags and weights pair up, the weights can be sampled, and every tag is a spawnable kind.
    pub open spec fn wf(&self) -> bool {
        &&& self.enemy_tags@.len() == self.enemy_weights@.len()
        &&& self.item_tags@.len() == self.item_weights@.len()
        &&& valid_weights(self.enemy_weights@)
        &&& valid_weights(self.item_weights@)
        &&& forall|i: int| 0 <= i < self.enemy_tags@.len() ==> is_spawnable(#[trigger] self.enemy_tags@[i])
        &&& forall|i: int| 0 <= i < self.item_tags@.len() ==> is_spawnable(#[trigger] self.item_tags@[i])
    }

    pub fn from_level(level: u32) -> (r: Self)
        ensures
            r.wf(),
            weighted_kinds(active_entries(enemy_table(), level), r.enemy_tags@, r.enemy_weights@),
            weighted_kinds(active_entries(item_table(), level), r.item_tags@, r.item_weights@),
    {
        let enemies = enemy_chances();
        let items = item_chances();
        let (enemy_tags, enemy_weights) = entity_weighted_chances(level, &enemies);
        let (item_tags, item_weights) = entity_weighted_chances(level, &items);
        let r = EntityChances { enemy_tags, enemy_weights, item_tags, item_weights };
        proof {
            lemma_table_entries(enemy_table(), level, 3);
            lemma_table_entries(item_table(), level, 3);
            lemma_weighted_kinds_valid(active_entries(enemy_table(), level), r.enemy_tags@, r.enemy_weights@);
            lemma_weighted_kinds_valid(active_entries(item_table(), level), r.item_tags@, r.item_weights@);
        }
        r
    }
}

} // verus!

//! The components and resources of the game world.
use vstd::prelude::*;

use std::collections::VecDeque;

use crate::grid::Grid;
use crate::math::{fits_i32, Vec2};

verus! {

/// Identity of an entity in the game's entity database, as its raw bits
/// (index in the upper bits, generation in the lower ones).
#[derive(Clone, Copy, Debug, PartialEq, Eq, Structural, Hash)]
pub struct EntityId(pub u32);

/// What a cell of the world grid holds: at most one entity.
pub type Stuff = Option<EntityId>;

/// The kinds of things that populate the dungeon.
#[derive(Clone, Copy, Debug, PartialEq, Eq, Structural, Hash)]
pub enum StuffTag {
    Player,
    Wall,
    Door,
    Stairs,
    Tombstone,
    Troll,
    Orc,
    Goblin,
    Gargoyle,
    Warlord,
    Zombie,
    Minotaur,
    HpPotion,
    Sword,
    RareSword,
    Dagger,
    RareDagger,
    LeatherArmor,
    ChainMailArmor,
    LightningScroll,
    ConfusionScroll,
    FireBallScroll,
    PoisonScroll,
    WardScroll,
}

impl StuffTag {
    pub open spec fn spec_is_opaque(self) -> bool {
        self == StuffTag::Wall
    }

    pub open spec fn spec_static_visiblity(self) -> bool {
        ||| self == StuffTag::Wall
        ||| self == StuffTag::Sword
        ||| self == StuffTag::Dagger
        ||| self == StuffTag::HpPotion
        ||| self == StuffTag::LightningScroll
        ||| self == StuffTag::ConfusionScroll
    }

    /// Blocks line of sight.
    pub fn is_opaque(self) -> (r: bool)
        ensures
            r == self.spec_is_opaque(),
    {
        matches!(self, StuffTag::Wall)
    }

    /// once explored, these stuff remain visible on the screen, even when visibility is obstructed
    pub fn static_visiblity(self) -> (r: bool)
        ensures
            r == self.spec_static_visiblity(),
    {
        matches!(
            self,
            StuffTag::Wall | StuffTag::Sword | StuffTag::Dagger | StuffTag::HpPotion
                | StuffTag::LightningScroll | StuffTag::ConfusionScroll
        )
    }
}

#[derive(Clone, Copy, Debug, PartialEq, Eq, Structural)]
pub struct Pos(pub Vec2);

#[derive(Clone, Copy, Debug)]
pub struct Icon(pub &'static str);

#[derive(Clone, Copy, Debug)]
pub struct PlayerTag;

#[derive(Clone, Copy, Debug)]
pub struct Ai;

#[derive(Clone, Copy, Debug)]
pub struct Walkable;

#[derive(Clone, Copy, Debug)]
pub struct Item;

#[derive(Clone, Copy, Debug, PartialEq, Eq, Structural)]
pub struct Melee {
    pub power: i32,
    pub skill: i32,
}

impl Melee {
    /// Component-wise `+=`.
    pub fn add_assign(&mut self, rhs: Melee)
        requires
            fits_i32(old(self).power + rhs.power),
            fits_i32(old(self).skill + rhs.skill),
        ensures
            final(self).power == old(self).power + rhs.power,
            final(self).skill == old(self).skill + rhs.skill,
    {
        self.power = self.power + rhs.power;
        self.skill = self.skill + rhs.skill;
    }

    /// Component-wise `-=`.
    pub fn sub_assign(&mut self, rhs: Melee)
        requires
            fits_i32(old(self).power - rhs.power),
            fits_i32(old(self).skill - rhs.skill),
        ensures
            final(self).power == old(self).power - rhs.power,
            final(self).skill == old(self).skill - rhs.skill,
    {
        self.power = self.power - rhs.power;
        self.skill = self.skill - rhs.skill;
    }
}

#[derive(Clone, Debug)]
pub struct Description(pub String);

#[derive(Clone, Debug)]
pub struct Name(pub String);

#[derive(Clone, Copy, Debug, PartialEq, Eq, Structural)]
pub struct Hp {
    pub current: i32,
    pub max: i32,
}

impl Hp {
    pub fn new(max: i32) -> (r: Hp)
        ensures
            r.current == max,
            r.max == max,
    {
        Hp { current: max, max }
    }

    pub fn full(self) -> (r: bool)
        ensures
            r == (self.current >= self.max),
    {
        self.current >= self.max
    }
}

#[derive(Clone, Copy, Debug, PartialEq, Eq, Structural)]
pub struct Heal {
    pub hp: i32,
}

impl Heal {
    pub fn new(hp: i32) -> (r: Heal)
        ensures
            r.hp == hp,
    {
        Heal { hp }
    }
}

#[derive(Clone, Copy, Debug, PartialEq, Eq, Structural)]
pub struct Ranged {
    pub power: i32,
    pub range: i32,
    pub skill: i32,
}

#[derive(Clone, Copy, Debug, PartialEq, Eq, Structural)]
pub struct Leash {
    pub origin: Vec2,
    pub radius: i32,
}

pub struct Visible(pub Grid<bool>);

pub struct Explored(pub Grid<bool>);

#[derive(Clone, Copy, Debug, PartialEq, Eq, Structural)]
pub struct GameTick(pub i32);

impl Default for GameTick {
    fn default() -> (r: GameTick)
        ensures
            r.0 == 1,
    {
        GameTick(1)
    }
}

#[derive(Clone, Copy, Debug)]
pub struct Viewport(pub Vec2);

#[derive(Clone, Copy, Debug)]
pub struct CameraPos(pub Vec2);

#[derive(Clone, Copy, Debug)]
pub struct Visibility(pub Vec2);

#[derive(Clone, Copy, Debug)]
pub struct ShouldUpdateWorld(pub bool);

#[derive(Clone, Copy, Debug)]
pub struct ShouldUpdatePlayer(pub bool);

#[derive(Clone, Copy, Debug)]
pub struct Selected(pub Option<EntityId>);

#[derive(Clone, Copy, Debug, PartialEq, Eq, Structural)]
pub struct DungeonFloor {
    pub current: u32,
    pub desired: u32,
}

impl Default for DungeonFloor {
    fn default() -> (r: DungeonFloor)
        ensures
            r.current == 0,
            r.desired == 1,
    {
        DungeonFloor { current: 0, desired: 1 }
    }
}

#[derive(Clone, Copy, Debug, PartialEq, Eq, Structural)]
pub struct LastPos(pub Vec2);

/// Mark entities that can't move
#[derive(Clone, Copy, Debug)]
pub struct StaticStuff;

/// Holds the static stuff
pub struct StaticGrid(pub Grid<Stuff>);

#[derive(Clone, Copy, Debug)]
pub struct BounceOffTime(pub i32);

#[derive(Clone, Copy, Debug)]
pub struct ShouldTick(pub bool);

#[derive(Clone, Copy, Debug)]
pub struct DeltaTime(pub i32);

/// Number of real-world milliseconds a tick should take
#[derive(Clone, Copy, Debug)]
pub struct TickInMs(pub i32);

#[derive(Clone, Copy, Debug, PartialEq, Eq, Structural)]
pub enum AppMode {
    Game,
    Targeting,
    TargetingPosition,
    Levelup,
}

#[derive(Clone, Copy, Debug, PartialEq, Eq, Structural)]
pub struct Velocity(pub Vec2);

#[derive(Clone, Copy, Debug, PartialEq, Eq, Structural)]
pub struct ConfusedAi {
    pub duration: i32,
}

#[derive(Clone, Copy, Debug, PartialEq, Eq, Structural)]
pub struct Poisoned {
    pub duration: i32,
    pub power: i32,
}

#[derive(Clone, Copy, Debug, PartialEq, Eq, Structural)]
pub struct Aoe {
    pub radius: u32,
}

#[derive(Clone, Copy, Debug, PartialEq, Eq, Structural)]
pub struct TargetPos {
    pub pos: Option<Vec2>,
}

#[derive(Clone, Copy, Debug)]
pub struct DropItem(pub EntityId);

#[derive(Clone, Copy, Debug, PartialEq, Eq, Structural)]
pub struct WorldDims(pub Vec2);

/// Allows going to the next dungeon level
#[derive(Clone, Copy, Debug)]
pub struct NextLevel;

#[derive(Clone, Copy, Debug, PartialEq, Eq, Structural)]
pub struct Exp {
    pub amount: u32,
}

#[derive(Clone, Copy, Debug, PartialEq, Eq, Structural)]
pub enum DesiredStat {
    Attack,
    Hp,
    MeleeDefense,
}

#[derive(Clone, Copy, Debug, PartialEq, Eq, Structural)]
pub enum EquipmentType {
    Weapon,
    Armor,
}

#[derive(Clone, Copy, Debug, PartialEq, Eq, Structural)]
pub struct Defense {
    pub melee_defense: i32,
}

impl Defense {
    pub fn new(defense: i32) -> (r: Defense)
        ensures
            r.melee_defense == defense,
    {
        Defense { melee_defense: defense }
    }

    /// `+=` on the defense value.
    pub fn add_assign(&mut self, rhs: Defense)
        requires
            fits_i32(old(self).melee_defense + rhs.melee_defense),
        ensures
            final(self).melee_defense == old(self).melee_defense + rhs.melee_defense,
    {
        self.melee_defense = self.melee_defense + rhs.melee_defense;
    }

    /// `-=` on the defense value.
    pub fn sub_assign(&mut self, rhs: Defense)
        requires
            fits_i32(old(self).melee_defense - rhs.melee_defense),
        ensures
            final(self).melee_defense == old(self).melee_defense - rhs.melee_defense,
    {
        self.melee_defense = self.melee_defense - rhs.melee_defense;
    }
}

#[derive(Clone, Copy, Debug, PartialEq, Eq, Structural)]
pub struct Level {
    pub current_level: u32,
    pub current_xp: u32,
    pub level_up_base: u32,
    pub level_up_factor: u32,
}

impl Default for Level {
    fn default() -> (r: Level)
        ensures
            r.current_level == 1,
            r.current_xp == 0,
            r.level_up_base == 200,
            r.level_up_factor == 150,
    {
        Level { current_level: 1, current_xp: 0, level_up_base: 200, level_up_factor: 150 }
    }
}

impl Level {
    /// Experience the current level asks for before the next.
    pub open spec fn spec_experience_to_next_level(self) -> int {
        self.level_up_base + self.current_level * self.level_up_factor
    }

    /// Enough experience has been gathered for the next level.
    pub open spec fn needs_levelup_spec(self) -> bool {
        self.current_xp >= self.spec_experience_to_next_level()
    }

    /// The threshold of the current level is a `u32`.
    pub open spec fn threshold_fits(self) -> bool {
        self.spec_experience_to_next_level() <= u32::MAX
    }

    pub fn experience_to_next_level(self) -> (r: u32)
        requires
            self.threshold_fits(),
        ensures
            r == self.spec_experience_to_next_level(),
    {
        assert(0 <= self.current_level * self.level_up_factor) by (nonlinear_arith);
        self.level_up_base + self.current_level * self.level_up_factor
    }

    pub fn add_xp(&mut self, exp: u32)
        requires
            old(self).current_xp + exp <= u32::MAX,
        ensures
            *final(self) == (Level { current_xp: (old(self).current_xp + exp) as u32, ..*old(self) }),
    {
        self.current_xp = self.current_xp + exp;
    }

    pub fn needs_levelup(&self) -> (r: bool)
        requires
            self.threshold_fits(),
        ensures
            r == (self.current_xp >= self.spec_experience_to_next_level()),
    {
        let required = self.experience_to_next_level();
        self.current_xp >= required
    }

    /// Spend the experience of the current level and go up one level.
    pub fn levelup(&mut self)
        requires
            old(self).threshold_fits(),
            old(self).current_xp >= old(self).spec_experience_to_next_level(),
            old(self).current_level < u32::MAX,
        ensures
            final(self).current_level == old(self).current_level + 1,
            final(self).current_xp == old(self).current_xp
                - old(self).spec_experience_to_next_level(),
            final(self).level_up_base == old(self).level_up_base,
            final(self).level_up_factor == old(self).level_up_factor,
    {
        let required = self.experience_to_next_level();
        self.current_xp = self.current_xp - required;
        self.current_level = self.current_level + 1;
    }
}

/// Items carried by an entity, at most `capacity` of them in normal play.
#[derive(Clone, Debug)]
pub struct Inventory {
    pub capacity: usize,
    pub items: Vec<EntityId>,
}

/// `s` without the first occurrence of `x` (unchanged when `x` does not occur).
pub open spec fn remove_first(s: Seq<EntityId>, x: EntityId) -> Seq<EntityId>
    decreases s.len(),
{
    if s.len() == 0 {
        s
    } else if s[0] == x {
        s.drop_first()
    } else {
        seq![s[0]] + remove_first(s.drop_first(), x)
    }
}

/// Removing at the first occurrence of `x` is `remove_first`; a sequence without `x` stays.
proof fn lemma_remove_first(s: Seq<EntityId>, x: EntityId, i: int)
    requires
        0 <= i <= s.len(),
        forall|j: int| 0 <= j < i ==> s[j] != x,
    ensures
        i < s.len() && s[i] == x ==> remove_first(s, x) == s.remove(i),
        i == s.len() ==> remove_first(s, x) == s,
    decreases i,
{
    if i > 0 {
        lemma_remove_first(s.drop_first(), x, i - 1);
        if i < s.len() && s[i] == x {
            assert(s.remove(i) =~= seq![s[0]] + s.drop_first().remove(i - 1));
        }
        if i == s.len() {
            assert(s =~= seq![s[0]] + s.drop_first());
        }
    } else if s.len() > 0 {
        assert(s.remove(0) =~= s.drop_first());
    }
}

#[derive(Clone, Copy, Debug, PartialEq, Eq, Structural)]
pub enum InventoryError {
    Full,
}

impl Inventory {
    pub fn new(capacity: usize) -> (r: Inventory)
        ensures
            r.capacity == capacity,
            r.items@ == Seq::<EntityId>::empty(),
    {
        Inventory { capacity, items: Vec::new() }
    }

    /// Put `item` at the end, unless the inventory is full.
    pub fn add(&mut self, item: EntityId) -> (r: Result<(), InventoryError>)
        ensures
            final(self).capacity == old(self).capacity,
            old(self).items@.len() >= old(self).capacity ==> r == Err::<(), InventoryError>(
                InventoryError::Full,
            ) && final(self).items@ == old(self).items@,
            old(self).items@.len() < old(self).capacity ==> r is Ok && final(self).items@ == old(
                self,
            ).items@.push(item),
    {
        if self.items.len() >= self.capacity {
            return Err(InventoryError::Full);
        }
        self.items.push(item);
        Ok(())
    }

    /// Take out the first occurrence of `item`, if there is one.
    pub fn remove(&mut self, item: EntityId) -> (r: Option<EntityId>)
        ensures
            final(self).capacity == old(self).capacity,
            !old(self).items@.contains(item) ==> r is None && final(self).items@ == old(self).items@,
            old(self).items@.contains(item) ==> r == Some(item) && exists|i: int|
                0 <= i < old(self).items@.len() && old(self).items@[i] == item && (forall|j: int|
                    0 <= j < i ==> old(self).items@[j] != item) && final(self).items@ == old(
                    self,
                ).items@.remove(i),
        final(self).items@ == remove_first(old(self).items@, item),
    {
        let n = self.items.len();
        let mut i: usize = 0;
        while i < n
            invariant
                n == self.items@.len(),
                *self == *old(self),
                i <= n,
                forall|j: int| 0 <= j < i ==> self.items@[j] != item,
            decreases n - i,
        {
            if self.items[i] == item {
                proof {
                    lemma_remove_first(self.items@, item, i as int);
                }
                let x = self.items.remove(i);
                return Some(x);
            }
            i = i + 1;
        }
        proof {
            lemma_remove_first(self.items@, item, n as int);
        }
        None
    }

    /// The carried items, in order.
    pub fn iter(&self) -> (r: Vec<EntityId>)
        ensures
            r@ == self.items@,
    {
        self.items.clone()
    }
}

#[derive(Clone, Copy, Debug, PartialEq, Eq, Structural)]
pub struct Equipment {
    pub weapon: Option<EntityId>,
    pub armor: Option<EntityId>,
}

impl Default for Equipment {
    fn default() -> (r: Equipment)
        ensures
            r.weapon is None,
            r.armor is None,
    {
        Equipment { weapon: None, armor: None }
    }
}

impl Equipment {
    pub fn contains(&self, id: EntityId) -> (r: bool)
        ensures
            r == (self.weapon == Some(id) || self.armor == Some(id)),
    {
        let w = match self.weapon {
            Some(i) => i == id,
            None => false,
        };
        let a = match self.armor {
            Some(i) => i == id,
            None => false,
        };
        w || a
    }
}

/// The markup of one log line: `line` shown in `color`.
pub open spec fn colored_line(color: Seq<char>, line: Seq<char>) -> Seq<char> {
    "<span style=\"color:"@ + color + "\">"@ + line + "</span>"@
}

/// The text of each log line.
pub open spec fn lines_view(items: Seq<String>) -> Seq<Seq<char>> {
    items.map_values(|s: String| s@)
}

/// The last `capacity` elements of `s` (all of them when there are fewer).
pub open spec fn keep_last<A>(s: Seq<A>, capacity: int) -> Seq<A> {
    if s.len() > capacity {
        s.subrange(s.len() - capacity, s.len() as int)
    } else {
        s
    }
}

/// The most recent lines of the game log, oldest first.
pub struct LogHistory {
    pub items: VecDeque<String>,
    pub capacity: usize,
}

impl Default for LogHistory {
    fn default() -> (r: LogHistory)
        ensures
            r.items@.len() == 0,
            r.capacity == 20,
    {
        let capacity: usize = 20;
        LogHistory { items: VecDeque::with_capacity(capacity), capacity }
    }
}

impl LogHistory {
    /// Append `line` in `color`, then drop the oldest lines beyond `capacity`.
    pub fn push(&mut self, color: &str, line: &str)
        ensures
            final(self).capacity == old(self).capacity,
            lines_view(final(self).items@) == keep_last(
                lines_view(old(self).items@).push(colored_line(color@, line@)),
                old(self).capacity as int,
            ),
    {
        let mut text = String::from_str("<span style=\"color:");
        text.append(color);
        text.append("\">");
        text.append(line);
        text.append("</span>");
        let ghost pushed = lines_view(old(self).items@).push(colored_line(color@, line@));
        self.items.push_back(text);
        assert(lines_view(self.items@) =~= pushed);
        while self.items.len() > self.capacity
            invariant
                self.capacity == old(self).capacity,
                pushed.len() >= self.items@.len(),
                self.items@.len() >= self.capacity || self.items@.len() == pushed.len(),
                lines_view(self.items@) == pushed.subrange(
                    pushed.len() - self.items@.len(),
                    pushed.len() as int,
                ),
            decreases self.items@.len(),
        {
            let ghost before = self.items@;
            self.items.pop_front();
            assert(lines_view(self.items@) =~= lines_view(before).subrange(1, before.len() as int));
            assert(lines_view(self.items@) =~= pushed.subrange(
                pushed.len() - self.items@.len(),
                pushed.len() as int,
            ));
        }
        assert(lines_view(self.items@) =~= keep_last(pushed, self.capacity as int));
    }
}

} // verus!

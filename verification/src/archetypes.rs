//! What each kind of thing is made of: the markers and parts an entity of a kind gets when it
//! is spawned or loaded.
use vstd::prelude::*;

use crate::components::{
    Aoe, Defense, EntityId, Equipment, EquipmentType, Exp, Heal, Hp, Leash, Melee, Ranged, StuffTag,
};
use crate::math::Vec2;
use crate::systems::is_monster;

verus! {

/// Kinds the player can use from the inventory.
pub open spec fn spec_usable(tag: StuffTag) -> bool {
    tag is HpPotion || tag is LightningScroll || tag is ConfusionScroll || tag is FireBallScroll
        || tag is PoisonScroll || tag is WardScroll
}

pub fn usable(tag: StuffTag) -> (r: bool)
    ensures
        r == spec_usable(tag),
{
    matches!(
        tag,
        StuffTag::HpPotion | StuffTag::LightningScroll | StuffTag::ConfusionScroll
            | StuffTag::FireBallScroll | StuffTag::PoisonScroll | StuffTag::WardScroll
    )
}

/// What an item aims at when used.
#[derive(Clone, Copy, Debug, PartialEq, Eq, Structural)]
pub enum Aim {
    NoAim,
    /// A creature picked by the player.
    Entity,
    /// A cell picked by the player.
    Position,
}

/// The effect of a scroll.
#[derive(Clone, Copy, Debug, PartialEq, Eq, Structural)]
pub enum ScrollEffect {
    FireBall,
    ConfusionBolt,
    LightningBolt,
    PoisonAttack,
    Ward,
}

/// The markers of a kind that are not saved with the world.
#[derive(Clone, Copy, Debug, PartialEq, Eq, Structural)]
pub struct StuffTraits {
    /// Taking it leads to the next floor.
    pub next_level: bool,
    pub player: bool,
    /// It never moves.
    pub static_stuff: bool,
    /// It blocks the view.
    pub opaque: bool,
    /// Once seen it stays drawn.
    pub static_visibility: bool,
    /// A monster: it thinks, keeps a path and moves.
    pub ai: bool,
    /// It can be picked up.
    pub item: bool,
    pub equipment: Option<EquipmentType>,
    pub aim: Aim,
    pub effect: Option<ScrollEffect>,
}

/// Kinds that can be picked up.
pub open spec fn is_item_kind(tag: StuffTag) -> bool {
    tag is LeatherArmor || tag is ChainMailArmor || tag is Sword || tag is RareDagger || tag is RareSword
        || tag is Dagger || tag is HpPotion || tag is FireBallScroll || tag is ConfusionScroll
        || tag is LightningScroll || tag is PoisonScroll || tag is WardScroll
}

/// The equipment slot a kind goes in.
pub open spec fn equipment_of(tag: StuffTag) -> Option<EquipmentType> {
    if tag is LeatherArmor || tag is ChainMailArmor {
        Some(EquipmentType::Armor)
    } else if tag is Sword || tag is RareDagger || tag is RareSword || tag is Dagger {
        Some(EquipmentType::Weapon)
    } else {
        None
    }
}

/// What a scroll is aimed at.
pub open spec fn aim_of(tag: StuffTag) -> Aim {
    if tag is FireBallScroll {
        Aim::Position
    } else if tag is ConfusionScroll || tag is LightningScroll || tag is PoisonScroll {
        Aim::Entity
    } else {
        Aim::NoAim
    }
}

/// What a scroll does.
pub open spec fn effect_of(tag: StuffTag) -> Option<ScrollEffect> {
    match tag {
        StuffTag::FireBallScroll => Some(ScrollEffect::FireBall),
        StuffTag::ConfusionScroll => Some(ScrollEffect::ConfusionBolt),
        StuffTag::LightningScroll => Some(ScrollEffect::LightningBolt),
        StuffTag::PoisonScroll => Some(ScrollEffect::PoisonAttack),
        StuffTag::WardScroll => Some(ScrollEffect::Ward),
        _ => None,
    }
}

/// The markers an entity of the kind carries besides its saved parts.
pub fn stuff_traits(tag: StuffTag) -> (r: StuffTraits)
    ensures
        r.next_level == (tag is Stairs),
        r.player == (tag is Player),
        r.static_stuff == (tag is Wall || tag is Door || tag is Tombstone),
        r.opaque == (tag is Wall || tag is Door),
        r.static_visibility == (tag is Stairs || tag is Wall || tag is Door || is_item_kind(tag)),
        r.ai == is_monster(tag),
        r.item == is_item_kind(tag),
        r.equipment == equipment_of(tag),
        r.aim == aim_of(tag),
        r.effect == effect_of(tag),
{
    let none = StuffTraits {
        next_level: false,
        player: false,
        static_stuff: false,
        opaque: false,
        static_visibility: false,
        ai: false,
        item: false,
        equipment: None,
        aim: Aim::NoAim,
        effect: None,
    };
    let item = StuffTraits { item: true, static_visibility: true, ..none };
    match tag {
        StuffTag::Stairs => StuffTraits { next_level: true, static_visibility: true, ..none },
        StuffTag::Player => StuffTraits { player: true, ..none },
        StuffTag::Wall => StuffTraits { static_stuff: true, opaque: true, static_visibility: true, ..none },
        StuffTag::Door => StuffTraits { static_stuff: true, opaque: true, static_visibility: true, ..none },
        StuffTag::Tombstone => StuffTraits { static_stuff: true, ..none },
        StuffTag::Gargoyle | StuffTag::Troll | StuffTag::Orc | StuffTag::Warlord | StuffTag::Goblin
        | StuffTag::Zombie | StuffTag::Minotaur => StuffTraits { ai: true, ..none },
        StuffTag::LeatherArmor | StuffTag::ChainMailArmor => StuffTraits {
            equipment: Some(EquipmentType::Armor),
            ..item
        },
        StuffTag::Sword | StuffTag::RareDagger | StuffTag::RareSword | StuffTag::Dagger => StuffTraits {
            equipment: Some(EquipmentType::Weapon),
            ..item
        },
        StuffTag::HpPotion => item,
        StuffTag::FireBallScroll => StuffTraits {
            aim: Aim::Position,
            effect: Some(ScrollEffect::FireBall),
            ..item
        },
        StuffTag::ConfusionScroll => StuffTraits {
            aim: Aim::Entity,
            effect: Some(ScrollEffect::ConfusionBolt),
            ..item
        },
        StuffTag::LightningScroll => StuffTraits {
            aim: Aim::Entity,
            effect: Some(ScrollEffect::LightningBolt),
            ..item
        },
        StuffTag::PoisonScroll => StuffTraits {
            aim: Aim::Entity,
            effect: Some(ScrollEffect::PoisonAttack),
            ..item
        },
        StuffTag::WardScroll => StuffTraits { effect: Some(ScrollEffect::Ward), ..item },
    }
}

/// The numbers an entity of a kind starts with; `None` where the kind has no such part.
#[derive(Clone, Copy, Debug, PartialEq, Eq, Structural)]
pub struct KindStats {
    pub hp: Option<Hp>,
    pub melee: Option<Melee>,
    pub exp: Option<Exp>,
    pub defense: Option<Defense>,
    pub heal: Option<Heal>,
    pub ranged: Option<Ranged>,
    pub aoe: Option<Aoe>,
}

/// A kind without numbers.
pub open spec fn no_stats() -> KindStats {
    KindStats { hp: None, melee: None, exp: None, defense: None, heal: None, ranged: None, aoe: None }
}

/// The numbers of each kind: the player, trolls and orcs fight; armour defends, weapons add to
/// melee; potions heal; scrolls strike at range, the fireball over an area. The other
/// monsters and scrolls carry no numbers of their own.
pub open spec fn spec_kind_stats(tag: StuffTag) -> KindStats {
    let none = no_stats();
    match tag {
        StuffTag::Player => KindStats {
            hp: Some(Hp { current: 10, max: 10 }),
            melee: Some(Melee { power: 1, skill: 5 }),
            defense: Some(Defense { melee_defense: 0 }),
            ..none
        },
        StuffTag::Troll => KindStats {
            hp: Some(Hp { current: 6, max: 6 }),
            melee: Some(Melee { power: 4, skill: 1 }),
            exp: Some(Exp { amount: 100 }),
            defense: Some(Defense { melee_defense: 4 }),
            ..none
        },
        StuffTag::Orc => KindStats {
            hp: Some(Hp { current: 4, max: 4 }),
            melee: Some(Melee { power: 2, skill: 3 }),
            exp: Some(Exp { amount: 35 }),
            defense: Some(Defense { melee_defense: 0 }),
            ..none
        },
        StuffTag::LeatherArmor => KindStats { defense: Some(Defense { melee_defense: 1 }), ..none },
        StuffTag::ChainMailArmor => KindStats { defense: Some(Defense { melee_defense: 3 }), ..none },
        StuffTag::Dagger | StuffTag::RareDagger => KindStats { melee: Some(Melee { power: 2, skill: 0 }), ..none },
        StuffTag::Sword | StuffTag::RareSword => KindStats { melee: Some(Melee { power: 4, skill: 0 }), ..none },
        StuffTag::HpPotion => KindStats { heal: Some(Heal { hp: 3 }), ..none },
        StuffTag::LightningScroll => KindStats { ranged: Some(Ranged { power: 3, range: 5, skill: 4 }), ..none },
        StuffTag::ConfusionScroll => KindStats { ranged: Some(Ranged { power: 10, range: 5, skill: 4 }), ..none },
        StuffTag::FireBallScroll => KindStats {
            ranged: Some(Ranged { power: 4, range: 5, skill: 4 }),
            aoe: Some(Aoe { radius: 3 }),
            ..none
        },
        _ => none,
    }
}

/// The numbers an entity of kind `tag` starts with.
pub fn kind_stats(tag: StuffTag) -> (r: KindStats)
    ensures
        r == spec_kind_stats(tag),
{
    let none = KindStats { hp: None, melee: None, exp: None, defense: None, heal: None, ranged: None, aoe: None };
    match tag {
        StuffTag::Player => KindStats {
            hp: Some(Hp::new(10)),
            melee: Some(Melee { power: 1, skill: 5 }),
            defense: Some(Defense::new(0)),
            ..none
        },
        StuffTag::Troll => KindStats {
            hp: Some(Hp::new(6)),
            melee: Some(Melee { power: 4, skill: 1 }),
            exp: Some(Exp { amount: 100 }),
            defense: Some(Defense::new(4)),
            ..none
        },
        StuffTag::Orc => KindStats {
            hp: Some(Hp::new(4)),
            melee: Some(Melee { power: 2, skill: 3 }),
            exp: Some(Exp { amount: 35 }),
            defense: Some(Defense::new(0)),
            ..none
        },
        StuffTag::LeatherArmor => KindStats { defense: Some(Defense::new(1)), ..none },
        StuffTag::ChainMailArmor => KindStats { defense: Some(Defense::new(3)), ..none },
        StuffTag::Dagger | StuffTag::RareDagger => KindStats { melee: Some(Melee { power: 2, skill: 0 }), ..none },
        StuffTag::Sword | StuffTag::RareSword => KindStats { melee: Some(Melee { power: 4, skill: 0 }), ..none },
        StuffTag::HpPotion => KindStats { heal: Some(Heal::new(3)), ..none },
        StuffTag::LightningScroll => KindStats { ranged: Some(Ranged { power: 3, range: 5, skill: 4 }), ..none },
        StuffTag::ConfusionScroll => KindStats { ranged: Some(Ranged { power: 10, range: 5, skill: 4 }), ..none },
        StuffTag::FireBallScroll => KindStats {
            ranged: Some(Ranged { power: 4, range: 5, skill: 4 }),
            aoe: Some(Aoe { radius: 3 }),
            ..none
        },
        _ => none,
    }
}

/// How a kind is shown: its icon, and the name, description and color it has, if any.
#[derive(Clone, Copy, Debug)]
pub struct KindLooks {
    pub icon: &'static str,
    pub name: Option<&'static str>,
    pub description: Option<&'static str>,
    pub color: Option<&'static str>,
}

/// The looks of each kind.
pub open spec fn spec_kind_looks(tag: StuffTag) -> KindLooks {
    match tag {
        StuffTag::Stairs => KindLooks { icon: "stairs", name: Some("Stairs"), description: Some("Move deeper into the dungeon"), color: Some("white") },
        StuffTag::Tombstone => KindLooks { icon: "tombstone", name: Some("Tombstone"), description: Some("Your resting place"), color: None },
        StuffTag::Player => KindLooks { icon: "person", name: Some("Player"), description: Some("Yourself"), color: Some("white") },
        StuffTag::Wall => KindLooks { icon: "wall", name: None, description: None, color: Some("#d4dfd7") },
        StuffTag::Door => KindLooks { icon: "door", name: None, description: None, color: Some("#d4dfd7") },
        StuffTag::Troll => KindLooks { icon: "troll", name: Some("Troll"), description: Some("Large brutish troll. Clumsy, but hits hard"), color: None },
        StuffTag::Orc => KindLooks { icon: "orc-head", name: Some("Orc"), description: Some("Cunning, but brutal"), color: Some("#06b306") },
        StuffTag::Goblin => KindLooks { icon: "goblin", name: Some("Goblin"), description: None, color: None },
        StuffTag::Gargoyle => KindLooks { icon: "gargoyle", name: Some("Gargoyle"), description: None, color: None },
        StuffTag::Warlord => KindLooks { icon: "warlord-helmet", name: Some("Warlord"), description: None, color: None },
        StuffTag::Zombie => KindLooks { icon: "zombie", name: Some("Zombie"), description: None, color: None },
        StuffTag::Minotaur => KindLooks { icon: "minotaur", name: Some("Minotaur"), description: None, color: None },
        StuffTag::LeatherArmor => KindLooks { icon: "leather-vest", name: Some("Leather vest"), description: Some("Comfy"), color: Some("#00BFFF") },
        StuffTag::ChainMailArmor => KindLooks { icon: "chain-mail", name: Some("Chain mail"), description: Some("Stronk"), color: Some("#00BFFF") },
        StuffTag::Dagger | StuffTag::RareDagger => KindLooks { icon: "dagger", name: Some("Simple dagger"), description: Some("Small weapon"), color: Some("#00BFFF") },
        StuffTag::Sword | StuffTag::RareSword => KindLooks { icon: "sword", name: Some("Simple Sword"), description: Some("Larger weapon"), color: Some("#00BFFF") },
        StuffTag::HpPotion => KindLooks { icon: "hp_potion", name: Some("Health Potion"), description: Some("Restores some health"), color: Some("rgb(255, 0, 127)") },
        StuffTag::LightningScroll => KindLooks { icon: "scroll", name: Some("Lightning Bolt"), description: Some("Hurl a lightning bolt at your foe"), color: Some("#fee85d") },
        StuffTag::ConfusionScroll => KindLooks { icon: "scroll", name: Some("Confusion Bolt"), description: Some("Confuse the target enemy"), color: Some("#800080") },
        StuffTag::FireBallScroll => KindLooks { icon: "scroll", name: Some("Fire Ball"), description: Some("Hurl a fireball dealing damage in an area"), color: Some("#af0808") },
        StuffTag::PoisonScroll => KindLooks { icon: "scroll", name: Some("Poison Bolt"), description: None, color: None },
        StuffTag::WardScroll => KindLooks { icon: "scroll", name: Some("Ward"), description: None, color: None },
    }
}

/// The looks of kind `tag`.
pub fn kind_looks(tag: StuffTag) -> (r: KindLooks)
    ensures
        r == spec_kind_looks(tag),
{
    match tag {
        StuffTag::Stairs => KindLooks { icon: "stairs", name: Some("Stairs"), description: Some("Move deeper into the dungeon"), color: Some("white") },
        StuffTag::Tombstone => KindLooks { icon: "tombstone", name: Some("Tombstone"), description: Some("Your resting place"), color: None },
        StuffTag::Player => KindLooks { icon: "person", name: Some("Player"), description: Some("Yourself"), color: Some("white") },
        StuffTag::Wall => KindLooks { icon: "wall", name: None, description: None, color: Some("#d4dfd7") },
        StuffTag::Door => KindLooks { icon: "door", name: None, description: None, color: Some("#d4dfd7") },
        StuffTag::Troll => KindLooks { icon: "troll", name: Some("Troll"), description: Some("Large brutish troll. Clumsy, but hits hard"), color: None },
        StuffTag::Orc => KindLooks { icon: "orc-head", name: Some("Orc"), description: Some("Cunning, but brutal"), color: Some("#06b306") },
        StuffTag::Goblin => KindLooks { icon: "goblin", name: Some("Goblin"), description: None, color: None },
        StuffTag::Gargoyle => KindLooks { icon: "gargoyle", name: Some("Gargoyle"), description: None, color: None },
        StuffTag::Warlord => KindLooks { icon: "warlord-helmet", name: Some("Warlord"), description: None, color: None },
        StuffTag::Zombie => KindLooks { icon: "zombie", name: Some("Zombie"), description: None, color: None },
        StuffTag::Minotaur => KindLooks { icon: "minotaur", name: Some("Minotaur"), description: None, color: None },
        StuffTag::LeatherArmor => KindLooks { icon: "leather-vest", name: Some("Leather vest"), description: Some("Comfy"), color: Some("#00BFFF") },
        StuffTag::ChainMailArmor => KindLooks { icon: "chain-mail", name: Some("Chain mail"), description: Some("Stronk"), color: Some("#00BFFF") },
        StuffTag::Dagger | StuffTag::RareDagger => KindLooks { icon: "dagger", name: Some("Simple dagger"), description: Some("Small weapon"), color: Some("#00BFFF") },
        StuffTag::Sword | StuffTag::RareSword => KindLooks { icon: "sword", name: Some("Simple Sword"), description: Some("Larger weapon"), color: Some("#00BFFF") },
        StuffTag::HpPotion => KindLooks { icon: "hp_potion", name: Some("Health Potion"), description: Some("Restores some health"), color: Some("rgb(255, 0, 127)") },
        StuffTag::LightningScroll => KindLooks { icon: "scroll", name: Some("Lightning Bolt"), description: Some("Hurl a lightning bolt at your foe"), color: Some("#fee85d") },
        StuffTag::ConfusionScroll => KindLooks { icon: "scroll", name: Some("Confusion Bolt"), description: Some("Confuse the target enemy"), color: Some("#800080") },
        StuffTag::FireBallScroll => KindLooks { icon: "scroll", name: Some("Fire Ball"), description: Some("Hurl a fireball dealing damage in an area"), color: Some("#af0808") },
        StuffTag::PoisonScroll => KindLooks { icon: "scroll", name: Some("Poison Bolt"), description: None, color: None },
        StuffTag::WardScroll => KindLooks { icon: "scroll", name: Some("Ward"), description: None, color: None },
    }
}

/// The parts a freshly spawned entity gets beyond the looks of its kind.
#[derive(Clone, Copy, Debug)]
pub struct SpawnExtras {
    /// The numbers of its kind.
    pub stats: KindStats,
    /// The player's kit: where they last stood, an inventory of 16, level 1 and empty
    /// equipment slots.
    pub player_kit: bool,
    /// The icon and color of a wall or door.
    pub look: Option<(&'static str, &'static str)>,
    /// How far from its spawn point a monster roams.
    pub leash: Option<Leash>,
}

/// How far monsters of the kind stray from home: 20 cells for the common ones, 40 for the
/// strong ones.
pub open spec fn leash_radius(tag: StuffTag) -> Option<i32> {
    if tag is Gargoyle || tag is Goblin || tag is Troll || tag is Orc {
        Some(20)
    } else if tag is Zombie || tag is Warlord || tag is Minotaur {
        Some(40)
    } else {
        None
    }
}

/// The extra parts of an entity of the kind spawned at `pos`.
pub fn spawn_extras(tag: StuffTag, pos: Vec2) -> (r: SpawnExtras)
    ensures
        r.stats == spec_kind_stats(tag),
        r.player_kit == (tag is Player),
        tag is Wall ==> r.look == Some(("wall", "#d4dfd7")),
        tag is Door ==> r.look == Some(("door", "#d4dfd7")),
        !(tag is Wall || tag is Door) ==> r.look is None,
        r.leash == match leash_radius(tag) {
            Some(radius) => Some(Leash { origin: pos, radius }),
            None => None,
        },
{
    let none = SpawnExtras { stats: kind_stats(tag), player_kit: false, look: None, leash: None };
    match tag {
        StuffTag::Player => SpawnExtras { player_kit: true, ..none },
        StuffTag::Wall => SpawnExtras { look: Some(("wall", "#d4dfd7")), ..none },
        StuffTag::Door => SpawnExtras { look: Some(("door", "#d4dfd7")), ..none },
        StuffTag::Gargoyle | StuffTag::Goblin | StuffTag::Troll | StuffTag::Orc => SpawnExtras {
            leash: Some(Leash { origin: pos, radius: 20 }),
            ..none
        },
        StuffTag::Zombie | StuffTag::Warlord | StuffTag::Minotaur => SpawnExtras {
            leash: Some(Leash { origin: pos, radius: 40 }),
            ..none
        },
        _ => none,
    }
}

/// What the player can do with an item, as shown when it is inspected.
#[derive(Clone, Copy, Debug, PartialEq, Eq, Structural)]
pub struct ItemActions {
    pub usable: bool,
    pub equipable: bool,
    pub equipped: bool,
}

/// An item is equipped when the player's equipment holds it; it can be equipped when it is
/// carried (not on the map), not equipped, and has a slot; it can be used when it is carried
/// and of a usable kind.
pub fn item_actions(
    id: EntityId,
    tag: StuffTag,
    on_map: bool,
    has_slot: bool,
    equipment: Option<Equipment>,
) -> (r: ItemActions)
    ensures
        r.equipped == match equipment {
            Some(e) => e.weapon == Some(id) || e.armor == Some(id),
            None => false,
        },
        r.equipable == (!on_map && !r.equipped && has_slot),
        r.usable == (!on_map && spec_usable(tag)),
{
    let equipped = match equipment {
        Some(eq) => eq.contains(id),
        None => false,
    };
    let equipable = !on_map && !equipped && has_slot;
    let usable = !on_map && usable(tag);
    ItemActions { usable, equipable, equipped }
}

/// An inventory or equipment entry as the user interface lists it.
pub struct ItemDesc {
    pub id: EntityId,
    pub name: Option<String>,
    pub description: Option<String>,
    pub icon: Option<String>,
    pub color: Option<String>,
    pub usable: bool,
    pub range: i32,
}

/// Describe an item: its texts as they are, whether its kind is usable, and its range (0
/// for an item without one).
pub fn to_item_desc(
    id: EntityId,
    tag: StuffTag,
    icon: Option<String>,
    description: Option<String>,
    name: Option<String>,
    ranged: Option<Ranged>,
    color: Option<String>,
) -> (r: ItemDesc)
    ensures
        r.id == id,
        r.name == name,
        r.description == description,
        r.icon == icon,
        r.color == color,
        r.usable == spec_usable(tag),
        r.range == match ranged {
            Some(rg) => rg.range,
            None => 0i32,
        },
{
    let range = match ranged {
        Some(r) => r.range,
        None => 0,
    };
    ItemDesc { id, color, name, description, icon, usable: usable(tag), range }
}

} // verus!

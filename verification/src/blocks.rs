//! Block values and the material catalog.

use crate::object::{Property, StaticProperty, LEVEL_ONE};
use crate::random::random_u32;
use vstd::prelude::*;

verus! {

/// A small set of boolean physics flags, one bit each.
#[derive(Clone, Copy, Debug, PartialEq, Eq, Structural, Hash)]
pub struct BlockProperties {
    pub bits: u32,
}

impl BlockProperties {
    pub open spec fn spec_moved_this_step() -> BlockProperties {
        BlockProperties { bits: 1 }
    }

    pub open spec fn spec_powder_stable() -> BlockProperties {
        BlockProperties { bits: 2 }
    }

    pub open spec fn spec_changed_this_step() -> BlockProperties {
        BlockProperties { bits: 8 }
    }

    /// Has this block already moved this step
    #[verifier::when_used_as_spec(spec_moved_this_step)]
    pub fn moved_this_step() -> (r: BlockProperties)
        ensures
            r == Self::spec_moved_this_step(),
    {
        BlockProperties { bits: 1 }
    }

    /// Has this block settled into a stable state
    #[verifier::when_used_as_spec(spec_powder_stable)]
    pub fn powder_stable() -> (r: BlockProperties)
        ensures
            r == Self::spec_powder_stable(),
    {
        BlockProperties { bits: 2 }
    }

    /// Has this block changed at all this step
    #[verifier::when_used_as_spec(spec_changed_this_step)]
    pub fn changed_this_step() -> (r: BlockProperties)
        ensures
            r == Self::spec_changed_this_step(),
    {
        BlockProperties { bits: 8 }
    }

    /// Whether every flag of `other` is set in `self`.
    pub open spec fn has(self, other: BlockProperties) -> bool {
        self.bits & other.bits == other.bits
    }

    /// `self` with the flags of `other` switched on or off.
    pub open spec fn with(self, other: BlockProperties, value: bool) -> BlockProperties {
        if value {
            BlockProperties { bits: self.bits | other.bits }
        } else {
            BlockProperties { bits: self.bits & !other.bits }
        }
    }

    /// The set with no flag.
    pub fn empty() -> (r: BlockProperties)
        ensures
            r.bits == 0,
    {
        BlockProperties { bits: 0 }
    }

    pub fn contains(&self, other: BlockProperties) -> (r: bool)
        ensures
            r == self.has(other),
    {
        self.bits & other.bits == other.bits
    }

    pub fn set(&mut self, other: BlockProperties, value: bool)
        ensures
            *final(self) == old(self).with(other, value),
    {
        if value {
            self.bits = self.bits | other.bits;
        } else {
            self.bits = self.bits & !other.bits;
        }
    }

    /// Every flag, lowest bit first.
    pub fn iter_all() -> (v: Vec<BlockProperties>)
        ensures
            v@ == seq![
                BlockProperties::moved_this_step(),
                BlockProperties::powder_stable(),
                BlockProperties::changed_this_step(),
            ],
    {
        let mut v: Vec<BlockProperties> = Vec::new();
        v.push(BlockProperties::moved_this_step());
        v.push(BlockProperties::powder_stable());
        v.push(BlockProperties::changed_this_step());
        assert(v@ =~= seq![
            BlockProperties::moved_this_step(),
            BlockProperties::powder_stable(),
            BlockProperties::changed_this_step(),
        ]);
        v
    }
}

/// Whether `f` is one single flag.
pub open spec fn is_flag(f: BlockProperties) -> bool {
    f == BlockProperties::moved_this_step() || f == BlockProperties::powder_stable() || f
        == BlockProperties::changed_this_step()
}

/// Switching one flag sets that flag to the value given and leaves every
/// other flag as it was.
pub proof fn lemma_with_flag(p: BlockProperties, f: BlockProperties, g: BlockProperties, value: bool)
    requires
        is_flag(f),
        is_flag(g),
    ensures
        p.with(f, value).has(g) == (if g == f {
            value
        } else {
            p.has(g)
        }),
{
    let b = p.bits;
    assert((b | 1) & 1 == 1 && (b & !1) & 1 != 1 && (b | 2) & 2 == 2 && (b & !2) & 2 != 2 && (b | 8)
        & 8 == 8 && (b & !8) & 8 != 8u32) by (bit_vector);
    assert((b | 1) & 2 == b & 2 && (b & !1) & 2 == b & 2 && (b | 1) & 8 == b & 8 && (b & !1) & 8
        == b & 8u32) by (bit_vector);
    assert((b | 2) & 1 == b & 1 && (b & !2) & 1 == b & 1 && (b | 2) & 8 == b & 8 && (b & !2) & 8
        == b & 8u32) by (bit_vector);
    assert((b | 8) & 1 == b & 1 && (b & !8) & 1 == b & 1 && (b | 8) & 2 == b & 2 && (b & !8) & 2
        == b & 2u32) by (bit_vector);
}

/// How a material moves.
#[derive(Clone, Copy, Debug, PartialEq, Eq, Structural)]
pub enum BlockPhysics {
    /// Doesn't move, can be pushed around
    Inert,
    /// Doesn't move, can't be pushed around
    Solid,
    /// Falls and flows; settles with the material's stability
    Liquid,
}

/// One row of the material catalog.
#[derive(Clone, Copy, Debug)]
pub struct BlockData {
    /// Internal block name
    pub name: &'static str,
    /// Mass of a single block, in hundredths
    pub density: i32,
    /// Physics of this block
    pub physics: BlockPhysics,
    /// Chance out of a hundred that a block of this material settles
    pub powder_stability: u32,
}

/// Number of materials in the catalog.
pub const MATERIAL_COUNT: u16 = 9;

// The ids of the materials of the catalog.
pub const AIR: u16 = 0;

pub const STONE: u16 = 1;

pub const WATER: u16 = 2;

pub const SAND: u16 = 3;

pub const WOOD: u16 = 4;

pub const COAL: u16 = 5;

pub const FIRE: u16 = 6;

pub const SMOKE: u16 = 7;

pub const STEAM: u16 = 8;

/// The name of a material; empty for an id outside the catalog.
pub open spec fn material_name(id: u16) -> Seq<char> {
    if id == AIR {
        "Air"@
    } else if id == STONE {
        "Stone"@
    } else if id == WATER {
        "Water"@
    } else if id == SAND {
        "Sand"@
    } else if id == WOOD {
        "Wood"@
    } else if id == COAL {
        "Coal"@
    } else if id == FIRE {
        "Fire"@
    } else if id == SMOKE {
        "Smoke"@
    } else if id == STEAM {
        "Steam"@
    } else {
        Seq::empty()
    }
}

/// The density of a material, in hundredths; zero for an id outside the
/// catalog.
pub open spec fn material_density(id: u16) -> int {
    if id == AIR || id == FIRE {
        10
    } else if id == WATER {
        50
    } else if id == SAND {
        80
    } else if id == SMOKE || id == STEAM {
        5
    } else if id == STONE || id == WOOD || id == COAL {
        100
    } else {
        0
    }
}

/// The physics class of a material; inert for an id outside the catalog.
pub open spec fn material_physics(id: u16) -> BlockPhysics {
    if id == STONE || id == WOOD {
        BlockPhysics::Solid
    } else if id == WATER || id == SAND || id == COAL || id == SMOKE || id == STEAM {
        BlockPhysics::Liquid
    } else {
        BlockPhysics::Inert
    }
}

/// The chance out of a hundred that a block of a material settles.
pub open spec fn material_stability(id: u16) -> int {
    if id == SAND {
        30
    } else if id == COAL {
        70
    } else {
        0
    }
}

/// Whether `d` is the catalog's row for material `id`.
pub open spec fn is_material(d: BlockData, id: u16) -> bool {
    &&& d.name@ == material_name(id)
    &&& d.density == material_density(id)
    &&& d.physics == material_physics(id)
    &&& d.powder_stability == material_stability(id)
}

/// The catalog row of a material.
pub fn block_data(id: u16) -> (d: BlockData)
    requires
        id < MATERIAL_COUNT,
    ensures
        is_material(d, id),
{
    if id == AIR {
        BlockData { name: "Air", density: 10, physics: BlockPhysics::Inert, powder_stability: 0 }
    } else if id == STONE {
        BlockData { name: "Stone", density: 100, physics: BlockPhysics::Solid, powder_stability: 0 }
    } else if id == WATER {
        BlockData { name: "Water", density: 50, physics: BlockPhysics::Liquid, powder_stability: 0 }
    } else if id == SAND {
        BlockData { name: "Sand", density: 80, physics: BlockPhysics::Liquid, powder_stability: 30 }
    } else if id == WOOD {
        BlockData { name: "Wood", density: 100, physics: BlockPhysics::Solid, powder_stability: 0 }
    } else if id == COAL {
        BlockData { name: "Coal", density: 100, physics: BlockPhysics::Liquid, powder_stability: 70 }
    } else if id == FIRE {
        BlockData { name: "Fire", density: 10, physics: BlockPhysics::Inert, powder_stability: 0 }
    } else if id == SMOKE {
        BlockData { name: "Smoke", density: 5, physics: BlockPhysics::Liquid, powder_stability: 0 }
    } else {
        BlockData { name: "Steam", density: 5, physics: BlockPhysics::Liquid, powder_stability: 0 }
    }
}

/// Whether two string slices hold the same characters.
fn same_text(a: &str, b: &str) -> (r: bool)
    ensures
        r == (a@ == b@),
{
    let left = a.to_owned();
    let right = b.to_owned();
    left == right
}

/// The id of the first material with the given name.
pub fn get_id(name: &str) -> (id: u16)
    requires
        exists|i: u16| i < MATERIAL_COUNT && material_name(i) == name@,
    ensures
        id < MATERIAL_COUNT,
        material_name(id) == name@,
        forall|i: u16| i < id ==> material_name(i) != name@,
{
    let mut id: u16 = 0;
    while id < MATERIAL_COUNT
        invariant
            id <= MATERIAL_COUNT,
            forall|i: u16| i < id ==> material_name(i) != name@,
            exists|i: u16| i < MATERIAL_COUNT && material_name(i) == name@,
        decreases MATERIAL_COUNT - id,
    {
        if same_text(block_data(id).name, name) {
            return id;
        }
        id = id + 1;
    }
    id
}

/// The value stored per grid cell.
#[derive(Clone, Copy, Debug, PartialEq, Eq, Structural)]
pub struct Block {
    /// The index into the material catalog
    pub id: u16,
    /// Used to vary colors among blocks of the same type
    pub color_seed: u8,
    /// Reserved for future use
    pub damage: u8,
    /// The stored properties, all boolean-valued
    pub stored_properties: BlockProperties,
}

impl Default for Block {
    fn default() -> (b: Block)
        ensures
            b.id == 0,
            b.damage == 0,
            b.stored_properties.bits == 0,
    {
        let draw: u32 = random_u32();
        Block {
            id: 0,
            color_seed: (draw % 256) as u8,
            damage: 0,
            stored_properties: BlockProperties::empty(),
        }
    }
}

/// Whether a block's own value makes `property` hold.
pub open spec fn block_has(b: Block, property: Property) -> bool {
    match property {
        Property::Material(id) => b.id == id,
        Property::Static(StaticProperty::Liquid) => material_physics(b.id)
            == BlockPhysics::Liquid,
        _ => false,
    }
}

/// The properties that a block's own value makes hold.
pub open spec fn block_properties(b: Block) -> Seq<Property> {
    if material_physics(b.id) == BlockPhysics::Liquid {
        seq![Property::Material(b.id), Property::Static(StaticProperty::Liquid)]
    } else {
        seq![Property::Material(b.id)]
    }
}

/// A property is listed for a block exactly when the block has it.
pub proof fn lemma_block_properties(b: Block, property: Property)
    ensures
        block_properties(b).contains(property) <==> block_has(b, property),
        block_properties(b).no_duplicates(),
{
    let s = block_properties(b);
    if block_has(b, property) {
        match property {
            Property::Material(id) => {
                assert(s[0] == property);
            },
            _ => {
                assert(s[1] == property);
            },
        }
    }
}

impl Block {
    /// A fresh block of a material, with a random color seed.
    pub fn new(id: u16) -> (b: Block)
        ensures
            b.id == id,
            b.damage == 0,
            b.stored_properties.bits == 0,
    {
        let d = Block::default();
        Block { id, color_seed: d.color_seed, damage: d.damage, stored_properties: d.stored_properties }
    }

    /// The catalog row of this block's material.
    pub fn data(&self) -> (d: BlockData)
        requires
            self.id < MATERIAL_COUNT,
        ensures
            is_material(d, self.id),
    {
        block_data(self.id)
    }

    /// The value of `property` on this block, in thousandths: one if the
    /// block's own value makes the property hold, else zero.
    pub fn get_prop(&self, property: Property) -> (w: u32)
        requires
            self.id < MATERIAL_COUNT,
        ensures
            w == (if block_has(*self, property) {
                LEVEL_ONE
            } else {
                0u32
            }),
    {
        match property {
            Property::Material(id) => if self.id == id {
                LEVEL_ONE
            } else {
                0
            },
            Property::Static(StaticProperty::Liquid) => match self.data().physics {
                BlockPhysics::Liquid => LEVEL_ONE,
                _ => 0,
            },
            _ => 0,
        }
    }

    pub fn get(&self, property: BlockProperties) -> (r: bool)
        ensures
            r == self.stored_properties.has(property),
    {
        self.stored_properties.contains(property)
    }

    pub fn set(&mut self, property: BlockProperties, value: bool)
        ensures
            *final(self) == (Block {
                stored_properties: old(self).stored_properties.with(property, value),
                ..*old(self)
            }),
    {
        let mut flags = self.stored_properties;
        flags.set(property, value);
        self.stored_properties = flags;
    }

    /// The properties that this block's value makes hold: its material, and
    /// being a liquid where the material is one.
    pub fn iter_properties(&self) -> (v: Vec<Property>)
        requires
            self.id < MATERIAL_COUNT,
        ensures
            v@ == block_properties(*self),
    {
        let mut v: Vec<Property> = Vec::new();
        v.push(Property::Material(self.id));
        match self.data().physics {
            BlockPhysics::Liquid => {
                v.push(Property::Static(StaticProperty::Liquid));
            },
            _ => {},
        }
        assert(v@ =~= block_properties(*self));
        v
    }
}

} // verus!

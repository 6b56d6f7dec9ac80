//! World objects and the properties that can hold of them.

use vstd::prelude::*;

verus! {

/// A simulation subject: a grid cell or a free entity.
#[derive(Clone, Copy, Debug, PartialEq, Eq, Structural, Hash)]
pub enum Object {
    /// The cell at a grid coordinate.
    Block(i32, i32),
    /// A free-moving entity, by its identifier.
    Entity(u64),
}

/// A scalar stored per object, from 0 (absent) to [`LEVEL_ONE`].
#[derive(Clone, Copy, Debug, PartialEq, Eq, Structural, Hash)]
pub enum DynamicProperty {
    Burning,
}

/// A boolean derived from what an object is.
#[derive(Clone, Copy, Debug, PartialEq, Eq, Structural, Hash)]
pub enum StaticProperty {
    IsEntity,
    Liquid,
}

/// A predicate tag over an object.
#[derive(Clone, Copy, Debug, PartialEq, Eq, Structural, Hash)]
pub enum Property {
    /// The object is a block of exactly this material.
    Material(u16),
    /// The stored scalar is not zero.
    Dynamic(DynamicProperty),
    /// The derived boolean is true.
    Static(StaticProperty),
}

/// The stored scalar that stands for 1.0; scalars are thousandths.
pub const LEVEL_ONE: u32 = 1000;

/// Number of distinct object keys: 2^64 for blocks, 2^64 for entities.
pub open spec fn object_key_count() -> nat {
    0x2_0000_0000_0000_0000
}

/// The table key of an object. Distinct objects have distinct keys.
pub open spec fn object_key(o: Object) -> u128 {
    match o {
        Object::Block(x, y) => ((x + 0x8000_0000) * 0x1_0000_0000 + (y + 0x8000_0000)) as u128,
        Object::Entity(id) => (0x1_0000_0000_0000_0000 + id) as u128,
    }
}

/// The object with a given key, for keys below [`object_key_count`].
pub open spec fn object_of_key(k: int) -> Object {
    if k < 0x1_0000_0000_0000_0000 {
        Object::Block(
            (k / 0x1_0000_0000 - 0x8000_0000) as i32,
            (k % 0x1_0000_0000 - 0x8000_0000) as i32,
        )
    } else {
        Object::Entity((k - 0x1_0000_0000_0000_0000) as u64)
    }
}

/// Keys and objects correspond one to one.
pub proof fn lemma_object_key(o: Object)
    ensures
        0 <= object_key(o) < object_key_count(),
        object_of_key(object_key(o) as int) == o,
{
}

/// Every key below [`object_key_count`] is the key of the object it stands
/// for.
pub proof fn lemma_object_of_key(k: int)
    requires
        0 <= k < object_key_count(),
    ensures
        object_key(object_of_key(k)) == k,
{
}

/// Objects with the same key are the same object.
pub proof fn lemma_object_key_injective(a: Object, b: Object)
    requires
        object_key(a) == object_key(b),
    ensures
        a == b,
{
    lemma_object_key(a);
    lemma_object_key(b);
}

impl Object {
    pub fn key(&self) -> (k: u128)
        ensures
            k == object_key(*self),
    {
        match *self {
            Object::Block(x, y) => {
                let hi: u128 = (x as i64 + 0x8000_0000) as u128;
                let lo: u128 = (y as i64 + 0x8000_0000) as u128;
                hi * 0x1_0000_0000 + lo
            },
            Object::Entity(id) => 0x1_0000_0000_0000_0000u128 + id as u128,
        }
    }
}

/// The table key of a dynamic property.
pub open spec fn dynamic_index(d: DynamicProperty) -> u128 {
    match d {
        DynamicProperty::Burning => 0,
    }
}

/// Number of dynamic properties.
pub const DYNAMIC_COUNT: u128 = 1;

impl DynamicProperty {
    pub fn index(&self) -> (i: u128)
        ensures
            i == dynamic_index(*self),
            i < DYNAMIC_COUNT,
    {
        match *self {
            DynamicProperty::Burning => 0,
        }
    }

    /// Every dynamic property, in index order.
    pub fn all() -> (v: Vec<DynamicProperty>)
        ensures
            v@.len() == DYNAMIC_COUNT,
            forall|d: DynamicProperty| #[trigger] v@[dynamic_index(d) as int] == d,
    {
        let mut v: Vec<DynamicProperty> = Vec::new();
        v.push(DynamicProperty::Burning);
        v
    }
}

/// The table key of a property. Distinct properties have distinct keys.
pub open spec fn property_key(p: Property) -> u128 {
    match p {
        Property::Material(id) => id as u128,
        Property::Dynamic(d) => (0x1_0000 + dynamic_index(d)) as u128,
        Property::Static(StaticProperty::IsEntity) => 0x2_0000,
        Property::Static(StaticProperty::Liquid) => 0x2_0001,
    }
}

/// Properties with the same key are the same property.
pub proof fn lemma_property_key_injective(p: Property, q: Property)
    requires
        property_key(p) == property_key(q),
    ensures
        p == q,
{
}

impl Property {
    pub fn key(&self) -> (k: u128)
        ensures
            k == property_key(*self),
    {
        match *self {
            Property::Material(id) => id as u128,
            Property::Dynamic(d) => 0x1_0000u128 + d.index(),
            Property::Static(StaticProperty::IsEntity) => 0x2_0000,
            Property::Static(StaticProperty::Liquid) => 0x2_0001,
        }
    }
}

} // verus!

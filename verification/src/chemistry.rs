//! The world model: the block grid, the registry of entity bounds, the
//! stored scalars, and the index from each property to the objects that
//! currently have it.

use crate::blocks::{block_has, lemma_block_properties, Block, BlockProperties, MATERIAL_COUNT};
use crate::cells::{cell_index, in_grid, BlockGrid, GRID_SIZE};
use crate::object::{
    dynamic_index, lemma_object_key_injective, lemma_property_key_injective, object_key,
    property_key, DynamicProperty, Object, Property, StaticProperty, DYNAMIC_COUNT, LEVEL_ONE,
};
use crate::object_set::ObjectSet;
use crate::table::Table;
use vstd::prelude::*;

verus! {

/// Length units per cell side: bounds are kept in thousandths of a cell.
pub const CELL: i64 = 1000;

/// A point of the plane, in thousandths of a cell.
#[derive(Clone, Copy, Debug, PartialEq, Eq, Structural)]
pub struct Point {
    pub x: i64,
    pub y: i64,
}

/// An axis-aligned box, given by its lower left and upper right corners.
#[derive(Clone, Copy, Debug, PartialEq, Eq, Structural)]
pub struct AABBCollider {
    pub ll: Point,
    pub ur: Point,
}

/// Whether two boxes share a point; touching edges count.
pub open spec fn boxes_intersect(a: AABBCollider, b: AABBCollider) -> bool {
    a.ll.x <= b.ur.x && a.ur.x >= b.ll.x && a.ll.y <= b.ur.y && a.ur.y >= b.ll.y
}

/// The box that a grid cell covers.
pub open spec fn block_box(x: int, y: int) -> AABBCollider {
    AABBCollider {
        ll: Point { x: (x * CELL) as i64, y: (y * CELL) as i64 },
        ur: Point { x: ((x + 1) * CELL) as i64, y: ((y + 1) * CELL) as i64 },
    }
}

impl Default for AABBCollider {
    fn default() -> (c: Self)
        ensures
            c == (AABBCollider { ll: Point { x: 0, y: 0 }, ur: Point { x: 0, y: 0 } }),
    {
        AABBCollider { ll: Point { x: 0, y: 0 }, ur: Point { x: 0, y: 0 } }
    }
}

impl AABBCollider {
    pub fn intersects(&self, other: &AABBCollider) -> (r: bool)
        ensures
            r == boxes_intersect(*self, *other),
    {
        self.ll.x <= other.ur.x && self.ur.x >= other.ll.x && self.ll.y <= other.ur.y && self.ur.y
            >= other.ll.y
    }

    pub fn from_block(x: i32, y: i32) -> (c: AABBCollider)
        ensures
            c == block_box(x as int, y as int),
    {
        AABBCollider {
            ll: Point { x: x as i64 * CELL, y: y as i64 * CELL },
            ur: Point { x: (x as i64 + 1) * CELL, y: (y as i64 + 1) * CELL },
        }
    }
}

/// The table key of a stored scalar.
pub open spec fn level_key(o: Object, d: DynamicProperty) -> u128 {
    (object_key(o) * DYNAMIC_COUNT + dynamic_index(d)) as u128
}

proof fn lemma_level_key_injective(o: Object, d: DynamicProperty, o2: Object, d2: DynamicProperty)
    requires
        level_key(o, d) == level_key(o2, d2),
    ensures
        o == o2,
        d == d2,
{
    lemma_object_key_injective(o, o2);
}

/// The world model: what the rules read and change.
pub struct WorldInfo {
    /// The grid of blocks in the world
    blocks: BlockGrid,
    /// The colliders of all entities in the world
    entity_colliders: Table<(u64, AABBCollider)>,
    /// Stores the value of every property on every target
    properties: Table<u32>,
    /// Stores a set of active targets with each property
    active: Table<ObjectSet>,
    /// The set of targets that have changed so far this step
    changed: ObjectSet,
}

impl WorldInfo {
    /// The block of a cell, or `None` outside the grid.
    pub closed spec fn block(&self, x: int, y: int) -> Option<Block> {
        self.blocks.at(x, y)
    }

    /// The bounds registered for an entity.
    pub closed spec fn collider(&self, entity: u64) -> Option<AABBCollider> {
        if self.entity_colliders@.contains_key(entity as u128) {
            Some(self.entity_colliders@[entity as u128].1)
        } else {
            None
        }
    }

    /// The registered entities in enumeration order.
    pub closed spec fn entities(&self) -> Seq<u64> {
        Seq::new(
            self.entity_colliders.order().len(),
            |i: int| self.entity_colliders@[self.entity_colliders.order()[i]].0,
        )
    }

    /// The stored scalar of a dynamic property, 0 where none is stored.
    pub closed spec fn level(&self, o: Object, d: DynamicProperty) -> u32 {
        if self.properties@.contains_key(level_key(o, d)) {
            self.properties@[level_key(o, d)]
        } else {
            0
        }
    }

    /// The indexed set of objects that have a property.
    pub closed spec fn active(&self, p: Property) -> Set<Object> {
        if self.active@.contains_key(property_key(p)) {
            self.active@[property_key(p)]@
        } else {
            Set::empty()
        }
    }

    /// The objects whose stored state changed since the last reset.
    pub closed spec fn changed(&self) -> Set<Object> {
        self.changed@
    }

    /// The material ids of the grid, cell by cell in row-major order.
    pub open spec fn materials(&self) -> Seq<u16> {
        Seq::new(
            (GRID_SIZE * GRID_SIZE) as nat,
            |i: int| self.block(i % (GRID_SIZE as int), i / (GRID_SIZE as int))->0.id,
        )
    }

    /// Whether `o` exists: a cell of the grid or a registered entity.
    pub open spec fn is_object(&self, o: Object) -> bool {
        match o {
            Object::Block(x, y) => in_grid(x as int, y as int),
            Object::Entity(e) => self.collider(e) is Some,
        }
    }

    /// Whether a property currently holds of an object.
    pub open spec fn holds(&self, o: Object, p: Property) -> bool {
        match p {
            Property::Dynamic(d) => self.level(o, d) != 0,
            Property::Static(StaticProperty::IsEntity) => o is Entity && self.is_object(o),
            _ => match o {
                Object::Block(x, y) => in_grid(x as int, y as int) && block_has(
                    self.block(x as int, y as int)->0,
                    p,
                ),
                Object::Entity(_) => false,
            },
        }
    }

    /// The value of a property on an object, in thousandths: the stored
    /// scalar for a dynamic property, else one or zero.
    pub open spec fn value(&self, o: Object, p: Property) -> u32 {
        match p {
            Property::Dynamic(d) => self.level(o, d),
            _ => if self.holds(o, p) {
                LEVEL_ONE
            } else {
                0
            },
        }
    }

    spec fn parts_wf(&self) -> bool {
        &&& self.blocks.wf()
        &&& forall|i: int| 0 <= i < self.blocks@.len() ==> (#[trigger] self.blocks@[i]).id < MATERIAL_COUNT
        &&& self.entity_colliders.wf()
        &&& forall|k: u128| #[trigger]
            self.entity_colliders@.contains_key(k) ==> self.entity_colliders@[k].0 as u128 == k
        &&& self.properties.wf()
        &&& forall|k: u128| #[trigger]
            self.properties@.contains_key(k) ==> 0 < self.properties@[k] <= LEVEL_ONE
        &&& self.active.wf()
        &&& forall|k: u128| #[trigger] self.active@.contains_key(k) ==> self.active@[k].wf()
        &&& self.changed.wf()
    }

    spec fn index_sound(&self) -> bool {
        forall|p: Property, o: Object|
            #![trigger self.active(p).contains(o)]
            #![trigger self.holds(o, p)]
            self.active(p).contains(o) <==> self.holds(o, p)
    }

    /// The parts are consistent, and the index lists for each property
    /// exactly the objects that have it.
    pub closed spec fn wf(&self) -> bool {
        self.parts_wf() && self.index_sound()
    }

    /// An object is in the active set of a property if and only if the
    /// property currently holds of it.
    pub proof fn lemma_active_sound(&self, o: Object, p: Property)
        requires
            self.wf(),
        ensures
            self.active(p).contains(o) <==> self.holds(o, p),
    {
    }

    /// Every block of the grid is of a material of the catalog, and every
    /// stored scalar is at most one.
    pub proof fn lemma_ranges(&self)
        requires
            self.wf(),
        ensures
            forall|x: int, y: int| in_grid(x, y) ==> (#[trigger] self.block(x, y)) is Some && self.block(x, y)->0.id < MATERIAL_COUNT,
            forall|x: int, y: int| !in_grid(x, y) ==> (#[trigger] self.block(x, y)) is None,
            forall|o: Object, d: DynamicProperty| #[trigger] self.level(o, d) <= LEVEL_ONE,
    {
        assert forall|x: int, y: int| in_grid(x, y) implies (#[trigger] self.block(x, y)) is Some
            && self.block(x, y)->0.id < MATERIAL_COUNT by {
            assert(0 <= cell_index(x, y) < GRID_SIZE * GRID_SIZE) by (nonlinear_arith)
                requires
                    in_grid(x, y),
            ;
        }
    }

    fn index_insert(&mut self, p: Property, o: Object)
        requires
            old(self).parts_wf(),
        ensures
            final(self).parts_wf(),
            final(self).active(p) == old(self).active(p).insert(o),
            forall|q: Property| q != p ==> final(self).active(q) == old(self).active(q),
            final(self).blocks == old(self).blocks,
            final(self).entity_colliders == old(self).entity_colliders,
            final(self).properties == old(self).properties,
            final(self).changed == old(self).changed,
    {
        let k = p.key();
        let mut set = match self.active.remove(k) {
            Some(s) => s,
            None => ObjectSet::new(),
        };
        set.insert(o);
        self.active.insert(k, set);
        proof {
            assert forall|q: Property| q != p implies final(self).active(q) == old(self).active(
                q,
            ) by {
                if property_key(q) == property_key(p) {
                    lemma_property_key_injective(q, p);
                }
            }
        }
    }

    fn index_remove(&mut self, p: Property, o: Object)
        requires
            old(self).parts_wf(),
        ensures
            final(self).parts_wf(),
            final(self).active(p) == old(self).active(p).remove(o),
            forall|q: Property| q != p ==> final(self).active(q) == old(self).active(q),
            final(self).blocks == old(self).blocks,
            final(self).entity_colliders == old(self).entity_colliders,
            final(self).properties == old(self).properties,
            final(self).changed == old(self).changed,
    {
        let k = p.key();
        let mut set = match self.active.remove(k) {
            Some(s) => s,
            None => ObjectSet::new(),
        };
        set.remove(o);
        self.active.insert(k, set);
        proof {
            assert(old(self).active(p).remove(o) =~= final(self).active(p));
            assert forall|q: Property| q != p implies final(self).active(q) == old(self).active(
                q,
            ) by {
                if property_key(q) == property_key(p) {
                    lemma_property_key_injective(q, p);
                }
            }
        }
    }
}

fn level_key_of(o: Object, d: DynamicProperty) -> (k: u128)
    ensures
        k == level_key(o, d),
{
    proof {
        crate::object::lemma_object_key(o);
    }
    o.key() * DYNAMIC_COUNT + d.index()
}

impl Default for WorldInfo {
    /// A world of default blocks, all of the first material, with no
    /// entity, no stored scalar and nothing marked changed.
    fn default() -> (w: Self)
        ensures
            w.wf(),
            forall|x: int, y: int|
                in_grid(x, y) ==> (#[trigger] w.block(x, y)) is Some && w.block(x, y)->0.id == 0
                    && w.block(x, y)->0.stored_properties.bits == 0,
            forall|o: Object, d: DynamicProperty| #[trigger] w.level(o, d) == 0,
            forall|e: u64| #[trigger] w.collider(e) is None,
            w.changed() == Set::<Object>::empty(),
    {
        let blocks = BlockGrid::default();
        let mut all = ObjectSet::new();
        let mut i: usize = 0;
        while i < GRID_SIZE * GRID_SIZE
            invariant
                i <= GRID_SIZE * GRID_SIZE,
                all.wf(),
                forall|o: Object|
                    all@.contains(o) <==> (o matches Object::Block(x, y) && in_grid(
                        x as int,
                        y as int,
                    ) && cell_index(x as int, y as int) < i),
            decreases GRID_SIZE * GRID_SIZE - i,
        {
            let x = (i % GRID_SIZE) as i32;
            let y = (i / GRID_SIZE) as i32;
            all.insert(Object::Block(x, y));
            i = i + 1;
        }
        let mut active: Table<ObjectSet> = Table::new();
        active.insert(Property::Material(0).key(), all);
        let w = WorldInfo {
            blocks,
            entity_colliders: Table::new(),
            properties: Table::new(),
            active,
            changed: ObjectSet::new(),
        };
        proof {
            assert forall|x: int, y: int| in_grid(x, y) implies 0 <= #[trigger] cell_index(x, y)
                < GRID_SIZE * GRID_SIZE by {}
            assert forall|p: Property, o: Object| w.active(p).contains(o) <==> w.holds(o, p) by {
                if property_key(p) == property_key(Property::Material(0)) {
                    lemma_property_key_injective(p, Property::Material(0));
                }
            }
        }
        w
    }
}

impl WorldInfo {
    /// The value of a property on an object, in thousandths.
    pub fn get(&self, target: Object, property: Property) -> (r: u32)
        requires
            self.wf(),
        ensures
            r == self.value(target, property),
    {
        match property {
            Property::Dynamic(d) => match self.properties.get(level_key_of(target, d)) {
                Some(v) => *v,
                None => 0,
            },
            Property::Static(StaticProperty::IsEntity) => match target {
                Object::Entity(e) => if self.entity_colliders.contains(e as u128) {
                    LEVEL_ONE
                } else {
                    0
                },
                Object::Block(_, _) => 0,
            },
            _ => match target {
                Object::Block(x, y) => match self.blocks.get(x, y) {
                    Some(b) => {
                        proof {
                            self.lemma_ranges();
                            assert(self.block(x as int, y as int) == Some(b));
                        }
                        b.get_prop(property)
                    },
                    None => 0,
                },
                Object::Entity(_) => 0,
            },
        }
    }

    /// Whether a property currently holds of an object.
    pub fn has(&self, target: Object, property: Property) -> (r: bool)
        requires
            self.wf(),
        ensures
            r == self.holds(target, property),
    {
        self.get(target, property) != 0
    }

    /// Whether `o` exists: a cell of the grid or a registered entity.
    pub fn contains_object(&self, o: Object) -> (r: bool)
        requires
            self.wf(),
        ensures
            r == self.is_object(o),
    {
        match o {
            Object::Block(x, y) => crate::cells::in_bounds(x, y),
            Object::Entity(e) => self.entity_colliders.contains(e as u128),
        }
    }

    fn store_level(&mut self, o: Object, d: DynamicProperty, v: u32)
        requires
            old(self).wf(),
            v <= LEVEL_ONE,
        ensures
            final(self).wf(),
            final(self).level(o, d) == v,
            forall|o2: Object, d2: DynamicProperty|
                (o2 != o || d2 != d) ==> #[trigger] final(self).level(o2, d2) == old(self).level(
                    o2,
                    d2,
                ),
            final(self).blocks == old(self).blocks,
            final(self).entity_colliders == old(self).entity_colliders,
            final(self).changed == old(self).changed,
    {
        let k = level_key_of(o, d);
        if v == 0 {
            self.properties.remove(k);
            self.index_remove(Property::Dynamic(d), o);
        } else {
            self.properties.insert(k, v);
            self.index_insert(Property::Dynamic(d), o);
        }
        proof {
            assert forall|o2: Object, d2: DynamicProperty| (o2 != o || d2 != d) implies #[trigger]
                final(self).level(o2, d2) == old(self).level(o2, d2) by {
                if level_key(o2, d2) == level_key(o, d) {
                    lemma_level_key_injective(o2, d2, o, d);
                }
            }
            assert forall|p: Property, o2: Object| final(self).active(p).contains(o2)
                <==> final(self).holds(o2, p) by {
                assert(old(self).active(p).contains(o2) <==> old(self).holds(o2, p));
                match p {
                    Property::Dynamic(d2) => {
                        if o2 != o || d2 != d {
                            assert(final(self).level(o2, d2) == old(self).level(o2, d2));
                        }
                    },
                    _ => {},
                }
            }
        }
    }

    /// Stores a scalar, capped at one, and marks the target changed if the
    /// stored value differs from the one before.
    pub fn set(&mut self, target: Object, property: DynamicProperty, value: u32)
        requires
            old(self).wf(),
        ensures
            final(self).wf(),
            final(self).level(target, property) == (if value <= LEVEL_ONE {
                value
            } else {
                LEVEL_ONE
            }),
            forall|o: Object, d: DynamicProperty|
                (o != target || d != property) ==> #[trigger] final(self).level(o, d) == old(self).level(o, d),
            forall|x: int, y: int| #[trigger] final(self).block(x, y) == old(self).block(x, y),
            forall|e: u64| #[trigger] final(self).collider(e) == old(self).collider(e),
            final(self).entities() == old(self).entities(),
            final(self).changed() == (if final(self).level(target, property) != old(self).level(
                target,
                property,
            ) {
                old(self).changed().insert(target)
            } else {
                old(self).changed()
            }),
            final(self).level(target, property) == old(self).level(target, property) ==> *final(self) == *old(self),
    {
        let v = if value <= LEVEL_ONE {
            value
        } else {
            LEVEL_ONE
        };
        let old_value = match self.properties.get(level_key_of(target, property)) {
            Some(x) => *x,
            None => 0,
        };
        if old_value != v {
            self.store_level(target, property, v);
            let ghost stored = *self;
            self.changed.insert(target);
            proof {
                assert forall|p: Property, o: Object| final(self).active(p).contains(o)
                    <==> final(self).holds(o, p) by {
                    assert(stored.active(p).contains(o) <==> stored.holds(o, p));
                    assert(final(self).level(o, DynamicProperty::Burning) == stored.level(
                        o,
                        DynamicProperty::Burning,
                    ));
                }
                assert forall|o: Object, d: DynamicProperty|
                    (o != target || d != property) implies #[trigger] final(self).level(o, d)
                    == old(self).level(o, d) by {
                    assert(stored.level(o, d) == old(self).level(o, d));
                }
            }
        }
    }

    /// Exchanges the stored scalars of two objects, for every dynamic
    /// property.
    pub fn swap_properties(&mut self, target1: Object, target2: Object)
        requires
            old(self).wf(),
        ensures
            final(self).wf(),
            forall|d: DynamicProperty| #[trigger]
                final(self).level(target1, d) == old(self).level(target2, d),
            forall|d: DynamicProperty| #[trigger]
                final(self).level(target2, d) == old(self).level(target1, d),
            forall|o: Object, d: DynamicProperty|
                o != target1 && o != target2 ==> #[trigger] final(self).level(o, d) == old(self).level(o, d),
            forall|x: int, y: int| #[trigger] final(self).block(x, y) == old(self).block(x, y),
            forall|e: u64| #[trigger] final(self).collider(e) == old(self).collider(e),
            final(self).entities() == old(self).entities(),
            final(self).changed() == old(self).changed(),
    {
        let all = DynamicProperty::all();
        let mut i: usize = 0;
        while i < all.len()
            invariant
                i <= all@.len(),
                all@.len() == DYNAMIC_COUNT,
                forall|d: DynamicProperty| #[trigger] all@[dynamic_index(d) as int] == d,
                self.wf(),
                self.blocks == old(self).blocks,
                self.entity_colliders == old(self).entity_colliders,
                self.changed == old(self).changed,
                forall|o: Object, d: DynamicProperty|
                    o != target1 && o != target2 ==> #[trigger] self.level(o, d) == old(self).level(o, d),
                forall|d: DynamicProperty|
                    dynamic_index(d) < i ==> #[trigger] self.level(target1, d) == old(self).level(
                        target2,
                        d,
                    ),
                forall|d: DynamicProperty|
                    dynamic_index(d) < i ==> #[trigger] self.level(target2, d) == old(self).level(
                        target1,
                        d,
                    ),
                forall|d: DynamicProperty|
                    dynamic_index(d) >= i ==> #[trigger] self.level(target1, d) == old(self).level(
                        target1,
                        d,
                    ),
                forall|d: DynamicProperty|
                    dynamic_index(d) >= i ==> #[trigger] self.level(target2, d) == old(self).level(
                        target2,
                        d,
                    ),
            decreases all@.len() - i,
        {
            let d = all[i];
            assert(all@[dynamic_index(d) as int] == d);
            assert(dynamic_index(d) == i) by {
                assert(all@[dynamic_index(all@[i as int]) as int] == all@[i as int]);
                if dynamic_index(d) != i {
                    let j = dynamic_index(d) as int;
                    assert(all@[j] == all@[i as int]);
                    assert(dynamic_index(all@[j]) == j);
                }
            }
            let l1 = self.get(target1, Property::Dynamic(d));
            let l2 = self.get(target2, Property::Dynamic(d));
            proof {
                self.lemma_ranges();
            }
            self.store_level(target2, d, l1);
            self.store_level(target1, d, l2);
            i = i + 1;
        }
    }

    pub fn get_block(&self, x: i32, y: i32) -> (r: Option<Block>)
        requires
            self.wf(),
        ensures
            r == self.block(x as int, y as int),
            r is Some <==> in_grid(x as int, y as int),
            r matches Some(b) ==> b.id < MATERIAL_COUNT,
    {
        proof {
            self.lemma_ranges();
        }
        self.blocks.get(x, y)
    }

    /// Stores a block in a cell. If it differs from the block before, the
    /// index follows and the cell is marked changed.
    pub fn set_block(&mut self, x: i32, y: i32, block: Block)
        requires
            old(self).wf(),
            in_grid(x as int, y as int),
            block.id < MATERIAL_COUNT,
        ensures
            final(self).wf(),
            final(self).block(x as int, y as int) == Some(block),
            forall|x2: int, y2: int|
                (x2 != x || y2 != y) ==> #[trigger] final(self).block(x2, y2) == old(self).block(
                    x2,
                    y2,
                ),
            forall|o: Object, d: DynamicProperty| #[trigger]
                final(self).level(o, d) == old(self).level(o, d),
            forall|e: u64| #[trigger] final(self).collider(e) == old(self).collider(e),
            final(self).entities() == old(self).entities(),
            final(self).changed() == (if Some(block) != old(self).block(x as int, y as int) {
                old(self).changed().insert(Object::Block(x, y))
            } else {
                old(self).changed()
            }),
            Some(block) == old(self).block(x as int, y as int) ==> *final(self) == *old(self),
    {
        proof {
            self.lemma_ranges();
        }
        let old_block = self.blocks.get(x, y).unwrap();
        let o = Object::Block(x, y);
        if block != old_block {
            let old_props = old_block.iter_properties();
            let mut i: usize = 0;
            while i < old_props.len()
                invariant
                    i <= old_props@.len(),
                    self.parts_wf(),
                    self.blocks == old(self).blocks,
                    self.entity_colliders == old(self).entity_colliders,
                    self.properties == old(self).properties,
                    self.changed == old(self).changed,
                    forall|q: Property| #[trigger]
                        self.active(q) == (if old_props@.take(i as int).contains(q) {
                            old(self).active(q).remove(o)
                        } else {
                            old(self).active(q)
                        }),
                decreases old_props@.len() - i,
            {
                let p = old_props[i];
                let ghost before = *self;
                self.index_remove(p, o);
                proof {
                    let done = old_props@.take(i as int);
                    let next = old_props@.take(i + 1);
                    assert(next == done.push(p));
                    assert forall|q: Property| #[trigger]
                        self.active(q) == (if next.contains(q) {
                            old(self).active(q).remove(o)
                        } else {
                            old(self).active(q)
                        }) by {
                        if q == p {
                            assert(next[i as int] == p);
                            assert(old(self).active(q).remove(o).remove(o) =~= old(self).active(
                                q,
                            ).remove(o));
                        } else {
                            assert(self.active(q) == before.active(q));
                            if done.contains(q) {
                                let j = choose|j: int| 0 <= j < done.len() && done[j] == q;
                                assert(next[j] == q);
                            }
                            if next.contains(q) {
                                let j = choose|j: int| 0 <= j < next.len() && next[j] == q;
                                assert(done[j] == q);
                            }
                        }
                    }
                }
                i = i + 1;
            }
            let ghost mid = *self;
            let new_props = block.iter_properties();
            let mut i: usize = 0;
            while i < new_props.len()
                invariant
                    i <= new_props@.len(),
                    self.parts_wf(),
                    self.blocks == old(self).blocks,
                    self.entity_colliders == old(self).entity_colliders,
                    self.properties == old(self).properties,
                    self.changed == old(self).changed,
                    forall|q: Property| #[trigger]
                        self.active(q) == (if new_props@.take(i as int).contains(q) {
                            mid.active(q).insert(o)
                        } else {
                            mid.active(q)
                        }),
                decreases new_props@.len() - i,
            {
                let p = new_props[i];
                let ghost before = *self;
                self.index_insert(p, o);
                proof {
                    let done = new_props@.take(i as int);
                    let next = new_props@.take(i + 1);
                    assert(next == done.push(p));
                    assert forall|q: Property| #[trigger]
                        self.active(q) == (if next.contains(q) {
                            mid.active(q).insert(o)
                        } else {
                            mid.active(q)
                        }) by {
                        if q == p {
                            assert(next[i as int] == p);
                            assert(mid.active(q).insert(o).insert(o) =~= mid.active(q).insert(o));
                        } else {
                            assert(self.active(q) == before.active(q));
                            if done.contains(q) {
                                let j = choose|j: int| 0 <= j < done.len() && done[j] == q;
                                assert(next[j] == q);
                            }
                            if next.contains(q) {
                                let j = choose|j: int| 0 <= j < next.len() && next[j] == q;
                                assert(done[j] == q);
                            }
                        }
                    }
                }
                i = i + 1;
            }
            let ghost indexed = *self;
            self.blocks.set(x, y, block);
            self.changed.insert(o);
            proof {
                assert(old_props@.take(old_props@.len() as int) == old_props@);
                assert(new_props@.take(new_props@.len() as int) == new_props@);
                assert forall|x2: int, y2: int| in_grid(x2, y2) && (x2 != x || y2 != y) implies (
                cell_index(x2, y2) != cell_index(x as int, y as int)) by {}
                assert forall|x2: int, y2: int| in_grid(x2, y2) implies 0 <= #[trigger] cell_index(
                    x2,
                    y2,
                ) < GRID_SIZE * GRID_SIZE by {}
                assert forall|p: Property, o2: Object| final(self).active(p).contains(o2)
                    <==> final(self).holds(o2, p) by {
                    assert(old(self).active(p).contains(o2) <==> old(self).holds(o2, p));
                    assert(final(self).active(p) == indexed.active(p));
                    assert(indexed.active(p) == (if new_props@.contains(p) {
                        mid.active(p).insert(o)
                    } else {
                        mid.active(p)
                    }));
                    assert(mid.active(p) == (if old_props@.contains(p) {
                        old(self).active(p).remove(o)
                    } else {
                        old(self).active(p)
                    }));
                    lemma_block_properties(old_block, p);
                    lemma_block_properties(block, p);
                    assert(final(self).level(o2, DynamicProperty::Burning) == old(self).level(
                        o2,
                        DynamicProperty::Burning,
                    ));
                    match o2 {
                        Object::Block(x2, y2) => {
                            if in_grid(x2 as int, y2 as int) && (x2 != x || y2 != y) {
                                assert(final(self).block(x2 as int, y2 as int) == old(self).block(
                                    x2 as int,
                                    y2 as int,
                                ));
                            }
                        },
                        _ => {},
                    }
                }
            }
        }
    }

    /// The objects whose stored state changed since the last reset.
    pub fn all_changed(&self) -> (v: Vec<Object>)
        requires
            self.wf(),
        ensures
            v@.no_duplicates(),
            forall|o: Object| self.changed().contains(o) <==> v@.contains(o),
    {
        self.changed.to_vec()
    }

    /// The order in which the index lists the objects that have a property.
    pub closed spec fn active_order(&self, p: Property) -> Seq<Object> {
        if self.active@.contains_key(property_key(p)) {
            self.active@[property_key(p)].order()
        } else {
            Seq::empty()
        }
    }

    /// The order of an active set lists, each once, the objects that
    /// currently have the property.
    pub proof fn lemma_active_order(&self, p: Property)
        requires
            self.wf(),
        ensures
            self.active_order(p).no_duplicates(),
            forall|o: Object| self.active_order(p).contains(o) <==> self.holds(o, p),
    {
        if self.active@.contains_key(property_key(p)) {
            self.active@[property_key(p)].lemma_order();
        }
        assert forall|o: Object| self.active_order(p).contains(o) <==> self.holds(o, p) by {
            assert(self.active(p).contains(o) <==> self.holds(o, p));
        }
    }

    /// The objects that currently have a property, each once, in the order
    /// of the index.
    pub fn active_matching(&self, property: Property) -> (v: Vec<Object>)
        requires
            self.wf(),
        ensures
            v@ == self.active_order(property),
            v@.no_duplicates(),
            forall|o: Object| v@.contains(o) <==> self.active(property).contains(o),
            forall|o: Object| v@.contains(o) <==> self.holds(o, property),
    {
        proof {
            self.lemma_active_order(property);
        }
        match self.active.get(property.key()) {
            Some(set) => set.to_vec(),
            None => Vec::new(),
        }
    }
}

/// A block with its moved-this-step flag cleared.
pub open spec fn unmoved(b: Block) -> Block {
    Block {
        stored_properties: b.stored_properties.with(BlockProperties::moved_this_step(), false),
        ..b
    }
}

impl WorldInfo {
    /// Whether two objects are adjacent: two distinct cells of the grid
    /// that touch, a cell and a registered entity whose bounds intersect the
    /// cell's box, or two distinct registered entities whose bounds
    /// intersect.
    pub open spec fn adjacent_to(&self, a: Object, b: Object) -> bool {
        match (a, b) {
            (Object::Block(x, y), Object::Block(x2, y2)) => in_grid(x as int, y as int) && in_grid(
                x2 as int,
                y2 as int,
            ) && (x != x2 || y != y2) && -1 <= x2 - x <= 1 && -1 <= y2 - y <= 1,
            (Object::Block(x, y), Object::Entity(e)) => in_grid(x as int, y as int)
                && self.collider(e) is Some && boxes_intersect(
                self.collider(e)->0,
                block_box(x as int, y as int),
            ),
            (Object::Entity(e), Object::Block(x, y)) => in_grid(x as int, y as int)
                && self.collider(e) is Some && boxes_intersect(
                self.collider(e)->0,
                block_box(x as int, y as int),
            ),
            (Object::Entity(e), Object::Entity(e2)) => e != e2 && self.collider(e) is Some
                && self.collider(e2) is Some && boxes_intersect(
                self.collider(e)->0,
                self.collider(e2)->0,
            ),
        }
    }

    /// Adjacency is symmetric, and holds between existing objects only.
    pub proof fn lemma_adjacent_symmetric(&self, a: Object, b: Object)
        ensures
            self.adjacent_to(a, b) == self.adjacent_to(b, a),
            self.adjacent_to(a, b) ==> self.is_object(a) && self.is_object(b) && a != b,
    {
    }

    /// The bounds registered for an entity.
    pub fn get_collider(&self, entity: u64) -> (r: Option<AABBCollider>)
        requires
            self.wf(),
        ensures
            r == self.collider(entity),
    {
        match self.entity_colliders.get(entity as u128) {
            Some(pair) => Some(pair.1),
            None => None,
        }
    }

    /// Whether two objects are adjacent.
    pub fn is_adjacent(&self, a: Object, b: Object) -> (r: bool)
        requires
            self.wf(),
        ensures
            r == self.adjacent_to(a, b),
    {
        match (a, b) {
            (Object::Block(x, y), Object::Block(x2, y2)) => {
                let dx: i64 = x2 as i64 - x as i64;
                let dy: i64 = y2 as i64 - y as i64;
                crate::cells::in_bounds(x, y) && crate::cells::in_bounds(x2, y2) && (x != x2 || y
                    != y2) && -1 <= dx && dx <= 1 && -1 <= dy && dy <= 1
            },
            (Object::Block(x, y), Object::Entity(e)) => {
                match self.get_collider(e) {
                    Some(c) => crate::cells::in_bounds(x, y) && c.intersects(
                        &AABBCollider::from_block(x, y),
                    ),
                    None => false,
                }
            },
            (Object::Entity(e), Object::Block(x, y)) => {
                match self.get_collider(e) {
                    Some(c) => crate::cells::in_bounds(x, y) && c.intersects(
                        &AABBCollider::from_block(x, y),
                    ),
                    None => false,
                }
            },
            (Object::Entity(e), Object::Entity(e2)) => {
                match (self.get_collider(e), self.get_collider(e2)) {
                    (Some(c), Some(c2)) => e != e2 && c.intersects(&c2),
                    _ => false,
                }
            },
        }
    }

    /// The registered entities, each once.
    pub fn all_entities(&self) -> (v: Vec<u64>)
        requires
            self.wf(),
        ensures
            v@ == self.entities(),
            v@.no_duplicates(),
            forall|e: u64| v@.contains(e) <==> self.collider(e) is Some,
    {
        let mut v: Vec<u64> = Vec::new();
        let n = self.entity_colliders.len();
        let mut i: usize = 0;
        while i < n
            invariant
                self.wf(),
                n == self.entity_colliders.order().len(),
                i <= n,
                v@ == self.entities().take(i as int),
            decreases n - i,
        {
            let pair = self.entity_colliders.value_at(i);
            v.push(pair.0);
            assert(v@ =~= self.entities().take(i + 1));
            i = i + 1;
        }
        proof {
            assert(self.entities().take(n as int) =~= self.entities());
            self.lemma_entities();
        }
        v
    }

    /// The enumeration of entities lists every registered entity once.
    pub proof fn lemma_entities(&self)
        requires
            self.wf(),
        ensures
            self.entities().no_duplicates(),
            forall|e: u64| self.entities().contains(e) <==> self.collider(e) is Some,
    {
        self.entity_colliders.lemma_order();
        let keys = self.entity_colliders.order();
        let es = self.entities();
        assert forall|e: u64| self.collider(e) is Some implies es.contains(e) by {
            let k = e as u128;
            assert(keys.contains(k));
            let i = choose|i: int| 0 <= i < keys.len() && keys[i] == k;
            assert(es[i] == e);
        }
        assert forall|e: u64| es.contains(e) implies self.collider(e) is Some by {
            let i = choose|i: int| 0 <= i < es.len() && es[i] == e;
            assert(self.entity_colliders@.contains_key(keys[i]));
        }
        assert forall|i: int, j: int| 0 <= i < es.len() && 0 <= j < es.len() && i != j implies es[i]
            != es[j] by {
            assert(self.entity_colliders@.contains_key(keys[i]));
            assert(self.entity_colliders@.contains_key(keys[j]));
        }
    }

    /// Registers an entity with its bounds, or replaces its bounds, and
    /// marks the entity changed.
    pub fn set_collider(&mut self, entity: u64, bounds: AABBCollider)
        requires
            old(self).wf(),
        ensures
            final(self).wf(),
            final(self).collider(entity) == Some(bounds),
            forall|e: u64| e != entity ==> #[trigger] final(self).collider(e) == old(self).collider(e),
            forall|x: int, y: int| #[trigger] final(self).block(x, y) == old(self).block(x, y),
            forall|o: Object, d: DynamicProperty| #[trigger]
                final(self).level(o, d) == old(self).level(o, d),
            final(self).changed() == old(self).changed().insert(Object::Entity(entity)),
    {
        self.entity_colliders.insert(entity as u128, (entity, bounds));
        self.index_insert(Property::Static(StaticProperty::IsEntity), Object::Entity(entity));
        let ghost indexed = *self;
        self.changed.insert(Object::Entity(entity));
        proof {
            assert forall|p: Property, o: Object| final(self).active(p).contains(o) <==> final(self).holds(o, p) by {
                assert(old(self).active(p).contains(o) <==> old(self).holds(o, p));
                assert(final(self).active(p) == indexed.active(p));
                assert(final(self).level(o, DynamicProperty::Burning) == old(self).level(
                    o,
                    DynamicProperty::Burning,
                ));
                match o {
                    Object::Entity(e) => {
                        assert(e != entity ==> final(self).collider(e) == old(self).collider(e));
                    },
                    Object::Block(x, y) => {
                        assert(final(self).block(x as int, y as int) == old(self).block(
                            x as int,
                            y as int,
                        ));
                    },
                }
            }
        }
    }

    /// Takes an entity out of the registry and marks it changed.
    pub fn remove_collider(&mut self, entity: u64)
        requires
            old(self).wf(),
        ensures
            final(self).wf(),
            final(self).collider(entity) is None,
            forall|e: u64| e != entity ==> #[trigger] final(self).collider(e) == old(self).collider(e),
            forall|x: int, y: int| #[trigger] final(self).block(x, y) == old(self).block(x, y),
            forall|o: Object, d: DynamicProperty| #[trigger]
                final(self).level(o, d) == old(self).level(o, d),
            final(self).changed() == old(self).changed().insert(Object::Entity(entity)),
    {
        self.entity_colliders.remove(entity as u128);
        self.index_remove(Property::Static(StaticProperty::IsEntity), Object::Entity(entity));
        let ghost indexed = *self;
        self.changed.insert(Object::Entity(entity));
        proof {
            assert forall|p: Property, o: Object| final(self).active(p).contains(o) <==> final(self).holds(o, p) by {
                assert(old(self).active(p).contains(o) <==> old(self).holds(o, p));
                assert(final(self).active(p) == indexed.active(p));
                assert(final(self).level(o, DynamicProperty::Burning) == old(self).level(
                    o,
                    DynamicProperty::Burning,
                ));
                match o {
                    Object::Entity(e) => {
                        assert(e != entity ==> final(self).collider(e) == old(self).collider(e));
                    },
                    Object::Block(x, y) => {
                        assert(final(self).block(x as int, y as int) == old(self).block(
                            x as int,
                            y as int,
                        ));
                    },
                }
            }
        }
    }

    /// Clears the moved-this-step flag of every changed block, then
    /// forgets which objects changed.
    pub fn reset_changes(&mut self)
        requires
            old(self).wf(),
        ensures
            final(self).wf(),
            final(self).changed() == Set::<Object>::empty(),
            forall|x: i32, y: i32|
                in_grid(x as int, y as int) ==> #[trigger] final(self).block(x as int, y as int) == (
                if old(self).changed().contains(Object::Block(x, y)) {
                    Some(unmoved(old(self).block(x as int, y as int)->0))
                } else {
                    old(self).block(x as int, y as int)
                }),
            forall|o: Object, d: DynamicProperty| #[trigger]
                final(self).level(o, d) == old(self).level(o, d),
            forall|e: u64| #[trigger] final(self).collider(e) == old(self).collider(e),
            final(self).entities() == old(self).entities(),
    {
        let targets = self.changed.to_vec();
        let mut i: usize = 0;
        while i < targets.len()
            invariant
                i <= targets@.len(),
                targets@.no_duplicates(),
                self.wf(),
                self.entity_colliders == old(self).entity_colliders,
                self.properties == old(self).properties,
                self.changed == old(self).changed,
                forall|x: i32, y: i32|
                    in_grid(x as int, y as int) ==> #[trigger] self.block(x as int, y as int) == (
                    if targets@.take(i as int).contains(Object::Block(x, y)) {
                        Some(unmoved(old(self).block(x as int, y as int)->0))
                    } else {
                        old(self).block(x as int, y as int)
                    }),
            decreases targets@.len() - i,
        {
            let target = targets[i];
            let ghost before = *self;
            let ghost done = targets@.take(i as int);
            let ghost next = targets@.take(i + 1);
            proof {
                assert(next == done.push(target));
                assert forall|o: Object| next.contains(o) <==> done.contains(o) || o == target by {
                    if done.contains(o) {
                        let j = choose|j: int| 0 <= j < done.len() && done[j] == o;
                        assert(next[j] == o);
                    }
                    if next.contains(o) {
                        let j = choose|j: int| 0 <= j < next.len() && next[j] == o;
                        if j < i {
                            assert(done[j] == o);
                        }
                    }
                    assert(next[i as int] == target);
                }
                if done.contains(target) {
                    let j = choose|j: int| 0 <= j < done.len() && done[j] == target;
                    assert(targets@[j] == targets@[i as int]);
                }
                self.lemma_ranges();
            }
            match target {
                Object::Block(x, y) => {
                    match self.blocks.get(x, y) {
                        Some(b) => {
                            let mut block = b;
                            block.set(BlockProperties::moved_this_step(), false);
                            self.blocks.set(x, y, block);
                            proof {
                                assert(block == unmoved(b));
                                assert forall|x2: int, y2: int|
                                    in_grid(x2, y2) && (x2 != x || y2 != y) implies (cell_index(
                                    x2,
                                    y2,
                                ) != cell_index(x as int, y as int)) by {}
                                assert forall|x2: int, y2: int| in_grid(x2, y2) implies 0
                                    <= #[trigger] cell_index(x2, y2) < GRID_SIZE * GRID_SIZE by {}
                                assert forall|p: Property, o: Object| self.active(p).contains(o)
                                    <==> self.holds(o, p) by {
                                    assert(before.active(p).contains(o) <==> before.holds(o, p));
                                    assert(self.active(p) == before.active(p));
                                    assert(self.level(o, DynamicProperty::Burning) == before.level(
                                        o,
                                        DynamicProperty::Burning,
                                    ));
                                    match o {
                                        Object::Block(x2, y2) => {
                                            if in_grid(x2 as int, y2 as int) && (x2 != x || y2
                                                != y) {
                                                assert(self.block(x2 as int, y2 as int)
                                                    == before.block(x2 as int, y2 as int));
                                            }
                                        },
                                        _ => {},
                                    }
                                }
                            }
                        },
                        None => {},
                    }
                },
                Object::Entity(_) => {},
            }
            proof {
                assert forall|x2: i32, y2: i32| in_grid(x2 as int, y2 as int) implies #[trigger]
                    self.block(x2 as int, y2 as int) == (if next.contains(Object::Block(x2, y2)) {
                    Some(unmoved(old(self).block(x2 as int, y2 as int)->0))
                } else {
                    old(self).block(x2 as int, y2 as int)
                }) by {
                    assert(before.block(x2 as int, y2 as int) == (if done.contains(
                        Object::Block(x2, y2),
                    ) {
                        Some(unmoved(old(self).block(x2 as int, y2 as int)->0))
                    } else {
                        old(self).block(x2 as int, y2 as int)
                    }));
                    assert(next.contains(Object::Block(x2, y2)) <==> done.contains(
                        Object::Block(x2, y2),
                    ) || Object::Block(x2, y2) == target);
                    if Object::Block(x2, y2) != target {
                        match target {
                            Object::Block(x, y) => {
                                assert(cell_index(x2 as int, y2 as int) != cell_index(
                                    x as int,
                                    y as int,
                                ) || !in_grid(x as int, y as int));
                            },
                            _ => {},
                        }
                    }
                }
            }
            i = i + 1;
        }
        let ghost cleared = *self;
        self.changed = ObjectSet::new();
        proof {
            assert(targets@.take(targets@.len() as int) == targets@);
            assert forall|p: Property, o: Object| final(self).active(p).contains(o) <==> final(self).holds(o, p) by {
                assert(cleared.active(p).contains(o) <==> cleared.holds(o, p));
                assert(final(self).active(p) == cleared.active(p));
                assert(final(self).level(o, DynamicProperty::Burning) == cleared.level(
                    o,
                    DynamicProperty::Burning,
                ));
            }
            assert forall|x: i32, y: i32| in_grid(x as int, y as int) implies #[trigger] final(self).block(x as int, y as int) == (if old(self).changed().contains(Object::Block(x, y)) {
                Some(unmoved(old(self).block(x as int, y as int)->0))
            } else {
                old(self).block(x as int, y as int)
            }) by {
                assert(final(self).block(x as int, y as int) == cleared.block(x as int, y as int));
            }
        }
    }
}

/// Whether the cells at coordinate `x` end before `low`.
spec fn ends_before(x: int, low: i64) -> bool {
    (x + 1) * CELL < low
}

/// Whether the cells at coordinate `x` start after `high`.
spec fn starts_after(x: int, high: i64) -> bool {
    x * CELL > high
}

/// The lowest grid coordinate whose cells do not end before `low`: every
/// coordinate below it ends before `low`, and it does not. It is the grid
/// size if the cells of every coordinate of the grid end before `low`.
fn first_cell(low: i64) -> (c: i32)
    ensures
        0 <= c <= GRID_SIZE,
        forall|x: int| 0 <= x < c ==> #[trigger] ends_before(x, low),
        c < GRID_SIZE ==> !ends_before(c as int, low),
{
    if low <= 0 {
        0
    } else {
        let q = (low - 1) / CELL;
        if q > 256 {
            256
        } else {
            q as i32
        }
    }
}

/// The highest grid coordinate whose cell can start at or below `high`.
fn last_cell(high: i64) -> (c: i32)
    ensures
        -1 <= c < GRID_SIZE,
        forall|x: int| c < x < GRID_SIZE ==> #[trigger] starts_after(x, high),
{
    if high < 0 {
        -1
    } else {
        let q = high / CELL;
        if q > 255 {
            255
        } else {
            q as i32
        }
    }
}

impl WorldInfo {
    /// The cells of a rectangle of the grid that are adjacent to `source`.
    fn adjacent_cells(&self, source: Object, x_lo: i32, x_hi: i32, y_lo: i32, y_hi: i32) -> (out:
        Vec<Object>)
        requires
            self.wf(),
            0 <= x_lo <= GRID_SIZE,
            -1 <= x_hi < GRID_SIZE,
            0 <= y_lo <= GRID_SIZE,
            -1 <= y_hi < GRID_SIZE,
        ensures
            out@.no_duplicates(),
            forall|t: Object|
                out@.contains(t) <==> (t matches Object::Block(x, y) && x_lo <= x <= x_hi && y_lo
                    <= y <= y_hi && self.adjacent_to(source, t)),
    {
        let mut out: Vec<Object> = Vec::new();
        let mut x: i32 = x_lo;
        while x <= x_hi
            invariant
                self.wf(),
                x_lo <= x <= x_hi + 1 || (x == x_lo && x_lo > x_hi),
                0 <= x_lo <= GRID_SIZE,
                -1 <= x_hi < GRID_SIZE,
                0 <= y_lo <= GRID_SIZE,
                -1 <= y_hi < GRID_SIZE,
                out@.no_duplicates(),
                forall|t: Object|
                    out@.contains(t) <==> (t matches Object::Block(x2, y2) && x_lo <= x2 < x && y_lo
                        <= y2 <= y_hi && self.adjacent_to(source, t)),
            decreases x_hi + 1 - x,
        {
            let mut y: i32 = y_lo;
            while y <= y_hi
                invariant
                    self.wf(),
                    x_lo <= x <= x_hi,
                    y_lo <= y <= y_hi + 1 || (y == y_lo && y_lo > y_hi),
                    0 <= y_lo <= GRID_SIZE,
                    -1 <= y_hi < GRID_SIZE,
                    out@.no_duplicates(),
                    forall|t: Object|
                        out@.contains(t) <==> (t matches Object::Block(x2, y2) && ((x_lo <= x2 < x
                            && y_lo <= y2 <= y_hi) || (x2 == x && y_lo <= y2 < y))
                            && self.adjacent_to(source, t)),
                decreases y_hi + 1 - y,
            {
                let t = Object::Block(x, y);
                let ghost before = out@;
                let hit = self.is_adjacent(source, t);
                if hit {
                    out.push(t);
                    proof {
                        assert(!before.contains(t));
                        assert forall|u: Object| out@.contains(u) <==> before.contains(u) || u
                            == t by {
                            if before.contains(u) {
                                let j = choose|j: int| 0 <= j < before.len() && before[j] == u;
                                assert(out@[j] == u);
                            }
                            assert(out@[before.len() as int] == t);
                        }
                    }
                }
                proof {
                    assert forall|u: Object|
                        out@.contains(u) <==> (u matches Object::Block(x2, y2) && ((x_lo <= x2 < x
                            && y_lo <= y2 <= y_hi) || (x2 == x && y_lo <= y2 < y + 1))
                            && self.adjacent_to(source, u)) by {
                        assert(out@.contains(u) <==> before.contains(u) || (hit && u == t));
                        assert(before.contains(u) <==> (u matches Object::Block(x2, y2) && ((x_lo
                            <= x2 < x && y_lo <= y2 <= y_hi) || (x2 == x && y_lo <= y2 < y))
                            && self.adjacent_to(source, u)));
                    }
                }
                y = y + 1;
            }
            x = x + 1;
        }
        out
    }

    /// The objects adjacent to `o`, each once: for a cell, the cells of the
    /// grid that touch it and the entities whose bounds intersect its box;
    /// for an entity, the cells whose box its bounds intersect and the other
    /// entities whose bounds they intersect. An object that does not exist
    /// has no adjacent objects.
    pub fn adjacent(&self, o: Object) -> (out: Vec<Object>)
        requires
            self.wf(),
        ensures
            out@.no_duplicates(),
            forall|t: Object| out@.contains(t) <==> self.adjacent_to(o, t),
    {
        let mut out = match o {
            Object::Block(x, y) => {
                if crate::cells::in_bounds(x, y) {
                    let x_lo = if x > 0 {
                        x - 1
                    } else {
                        0
                    };
                    let x_hi = if x < 255 {
                        x + 1
                    } else {
                        255
                    };
                    let y_lo = if y > 0 {
                        y - 1
                    } else {
                        0
                    };
                    let y_hi = if y < 255 {
                        y + 1
                    } else {
                        255
                    };
                    self.adjacent_cells(o, x_lo, x_hi, y_lo, y_hi)
                } else {
                    Vec::new()
                }
            },
            Object::Entity(e) => {
                match self.get_collider(e) {
                    Some(c) => {
                        let x_lo = first_cell(c.ll.x);
                        let x_hi = last_cell(c.ur.x);
                        let y_lo = first_cell(c.ll.y);
                        let y_hi = last_cell(c.ur.y);
                        let cells = self.adjacent_cells(o, x_lo, x_hi, y_lo, y_hi);
                        proof {
                            assert forall|t: Object|
                                t is Block && self.adjacent_to(o, t) implies cells@.contains(t) by {
                                let x2 = t->Block_0 as int;
                                let y2 = t->Block_1 as int;
                                let b = block_box(x2, y2);
                                assert(b.ur.x == (x2 + 1) * CELL && b.ll.x == x2 * CELL);
                                assert(b.ur.y == (y2 + 1) * CELL && b.ll.y == y2 * CELL);
                                if x2 < x_lo {
                                    assert(ends_before(x2, c.ll.x));
                                }
                                if x2 > x_hi {
                                    assert(starts_after(x2, c.ur.x));
                                }
                                if y2 < y_lo {
                                    assert(ends_before(y2, c.ll.y));
                                }
                                if y2 > y_hi {
                                    assert(starts_after(y2, c.ur.y));
                                }
                            }
                        }
                        cells
                    },
                    None => Vec::new(),
                }
            },
        };
        assert forall|t: Object| out@.contains(t) <==> (t is Block && self.adjacent_to(o, t)) by {}
        let entities = self.all_entities();
        let mut i: usize = 0;
        while i < entities.len()
            invariant
                self.wf(),
                i <= entities@.len(),
                entities@.no_duplicates(),
                forall|e: u64| entities@.contains(e) <==> self.collider(e) is Some,
                out@.no_duplicates(),
                forall|t: Object|
                    out@.contains(t) <==> ((t is Block && self.adjacent_to(o, t)) || (t matches Object::Entity(
                        e,
                    ) && entities@.take(i as int).contains(e) && self.adjacent_to(o, t))),
            decreases entities@.len() - i,
        {
            let e = entities[i];
            let t = Object::Entity(e);
            let ghost done = entities@.take(i as int);
            let ghost next = entities@.take(i + 1);
            proof {
                assert(next == done.push(e));
                assert forall|e2: u64| next.contains(e2) <==> done.contains(e2) || e2 == e by {
                    if done.contains(e2) {
                        let j = choose|j: int| 0 <= j < done.len() && done[j] == e2;
                        assert(next[j] == e2);
                    }
                    if next.contains(e2) {
                        let j = choose|j: int| 0 <= j < next.len() && next[j] == e2;
                        if j < i {
                            assert(done[j] == e2);
                        }
                    }
                    assert(next[i as int] == e);
                }
                if done.contains(e) {
                    let j = choose|j: int| 0 <= j < done.len() && done[j] == e;
                    assert(entities@[j] == entities@[i as int]);
                }
            }
            let ghost before = out@;
            let hit = self.is_adjacent(o, t);
            if hit {
                out.push(t);
                proof {
                    assert(!before.contains(t));
                    assert forall|u: Object| out@.contains(u) <==> before.contains(u) || u == t by {
                        if before.contains(u) {
                            let j = choose|j: int| 0 <= j < before.len() && before[j] == u;
                            assert(out@[j] == u);
                        }
                        assert(out@[before.len() as int] == t);
                    }
                }
            }
            proof {
                assert forall|u: Object|
                    out@.contains(u) <==> ((u is Block && self.adjacent_to(o, u)) || (u matches Object::Entity(
                        e2,
                    ) && next.contains(e2) && self.adjacent_to(o, u))) by {
                    assert(out@.contains(u) <==> before.contains(u) || (hit && u == t));
                    assert(before.contains(u) <==> ((u is Block && self.adjacent_to(o, u)) || (
                    u matches Object::Entity(e2) && done.contains(e2) && self.adjacent_to(o, u))));
                    match u {
                        Object::Entity(e2) => {
                            assert(next.contains(e2) <==> done.contains(e2) || e2 == e);
                        },
                        _ => {},
                    }
                }
            }
            i = i + 1;
        }
        proof {
            assert(entities@.take(entities@.len() as int) == entities@);
            assert forall|t: Object| out@.contains(t) <==> self.adjacent_to(o, t) by {
                match t {
                    Object::Entity(e) => {
                        if self.adjacent_to(o, t) {
                            assert(self.collider(e) is Some);
                            assert(entities@.contains(e));
                        }
                    },
                    _ => {},
                }
            }
        }
        out
    }
}

impl WorldInfo {
    /// The bounds that stand for an object: those registered for an entity,
    /// the box of a cell, and an empty box at the origin for an entity that
    /// is not registered.
    pub open spec fn bounds_of(&self, o: Object) -> AABBCollider {
        match o {
            Object::Block(x, y) => block_box(x as int, y as int),
            Object::Entity(e) => match self.collider(e) {
                Some(c) => c,
                None => AABBCollider { ll: Point { x: 0, y: 0 }, ur: Point { x: 0, y: 0 } },
            },
        }
    }

    /// The bounds that stand for an object.
    pub fn bounds(&self, o: Object) -> (c: AABBCollider)
        requires
            self.wf(),
        ensures
            c == self.bounds_of(o),
    {
        match o {
            Object::Block(x, y) => AABBCollider::from_block(x, y),
            Object::Entity(e) => match self.get_collider(e) {
                Some(c) => c,
                None => AABBCollider::default(),
            },
        }
    }

    /// Whether `e` is the identifier that the next new entity gets: one more
    /// than the largest registered identifier, or zero if no entity is
    /// registered.
    pub open spec fn is_fresh(&self, e: u64) -> bool {
        &&& forall|e2: u64| (#[trigger] self.collider(e2)) is Some ==> e2 < e
        &&& (e == 0 || self.collider((e - 1) as u64) is Some)
    }

    /// The identifier for the next new entity: one more than the largest
    /// registered identifier. There is none if the largest possible
    /// identifier is registered.
    pub fn fresh_entity(&self) -> (r: Option<u64>)
        requires
            self.wf(),
        ensures
            match r {
                Some(e) => self.is_fresh(e) && self.collider(e) is None,
                None => self.collider(u64::MAX) is Some,
            },
    {
        let entities = self.all_entities();
        let mut next: u64 = 0;
        let mut full = false;
        let mut i: usize = 0;
        while i < entities.len()
            invariant
                i <= entities@.len(),
                !full ==> forall|j: int| 0 <= j < i ==> #[trigger] entities@[j] < next,
                !full ==> next == 0 || entities@.contains((next - 1) as u64),
                full ==> entities@.contains(u64::MAX),
            decreases entities@.len() - i,
        {
            let e = entities[i];
            if e == u64::MAX {
                full = true;
            } else if e >= next {
                next = e + 1;
            }
            i = i + 1;
        }
        if full {
            None
        } else {
            proof {
                assert forall|e2: u64| (#[trigger] self.collider(e2)) is Some implies e2 < next by {
                    assert(entities@.contains(e2));
                    let j = choose|j: int| 0 <= j < entities@.len() && entities@[j] == e2;
                    assert(entities@[j] < next);
                }
            }
            Some(next)
        }
    }
}

impl WorldInfo {
    /// Every object that exists: the cells of the grid in row-major order,
    /// then the registered entities.
    pub fn all_objects(&self) -> (v: Vec<Object>)
        requires
            self.wf(),
        ensures
            forall|o: Object| v@.contains(o) <==> self.is_object(o),
    {
        let mut v: Vec<Object> = Vec::new();
        let mut i: usize = 0;
        while i < GRID_SIZE * GRID_SIZE
            invariant
                i <= GRID_SIZE * GRID_SIZE,
                forall|j: int| 0 <= j < v@.len() ==> self.is_object(#[trigger] v@[j]),
                forall|x: i32, y: i32|
                    in_grid(x as int, y as int) && #[trigger] cell_index(x as int, y as int) < i
                        ==> v@.contains(Object::Block(x, y)),
            decreases GRID_SIZE * GRID_SIZE - i,
        {
            let x = (i % GRID_SIZE) as i32;
            let y = (i / GRID_SIZE) as i32;
            let ghost before = v@;
            v.push(Object::Block(x, y));
            proof {
                assert forall|cx: i32, cy: i32|
                    in_grid(cx as int, cy as int) && #[trigger] cell_index(cx as int, cy as int) < i
                        + 1 implies v@.contains(Object::Block(cx, cy)) by {
                    if cell_index(cx as int, cy as int) < i {
                        assert(before.contains(Object::Block(cx, cy)));
                        let j = choose|j: int|
                            0 <= j < before.len() && before[j] == Object::Block(cx, cy);
                        assert(v@[j] == Object::Block(cx, cy));
                    } else {
                        assert(cx == x && cy == y);
                        assert(v@[before.len() as int] == Object::Block(x, y));
                    }
                }
            }
            i = i + 1;
        }
        let entities = self.all_entities();
        let ghost cells = v@;
        let mut k: usize = 0;
        while k < entities.len()
            invariant
                k <= entities@.len(),
                v@.len() == cells.len() + k,
                forall|j: int| 0 <= j < cells.len() ==> v@[j] == cells[j],
                forall|j: int| 0 <= j < k ==> #[trigger] v@[cells.len() + j] == Object::Entity(entities@[j]),
            decreases entities@.len() - k,
        {
            v.push(Object::Entity(entities[k]));
            k = k + 1;
        }
        proof {
            assert forall|o: Object| v@.contains(o) <==> self.is_object(o) by {
                if v@.contains(o) {
                    let j = choose|j: int| 0 <= j < v@.len() && v@[j] == o;
                    if j < cells.len() {
                        assert(cells[j] == o);
                    } else {
                        assert(v@[cells.len() + (j - cells.len())] == Object::Entity(
                            entities@[j - cells.len()],
                        ));
                        assert(entities@.contains(entities@[j - cells.len()]));
                    }
                }
                if self.is_object(o) {
                    match o {
                        Object::Block(x, y) => {
                            assert(cell_index(x as int, y as int) < GRID_SIZE * GRID_SIZE);
                            assert(cells.contains(Object::Block(x, y)));
                            let j = choose|j: int| 0 <= j < cells.len() && cells[j] == o;
                            assert(v@[j] == o);
                        },
                        Object::Entity(e) => {
                            assert(entities@.contains(e));
                            let j = choose|j: int| 0 <= j < entities@.len() && entities@[j] == e;
                            assert(v@[cells.len() + j] == o);
                        },
                    }
                }
            }
        }
        v
    }
}

} // verus!

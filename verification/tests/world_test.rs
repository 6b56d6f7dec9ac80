use spellgrid::blocks::{Block, BlockProperties, COAL, SAND, STONE, WATER};
use spellgrid::chemistry::{AABBCollider, Point, WorldInfo, CELL};
use spellgrid::object::{DynamicProperty, Object, Property, StaticProperty, LEVEL_ONE};

fn bounds(llx: i64, lly: i64, urx: i64, ury: i64) -> AABBCollider {
    AABBCollider {
        ll: Point { x: llx, y: lly },
        ur: Point { x: urx, y: ury },
    }
}

fn sorted(mut v: Vec<Object>) -> Vec<Object> {
    v.sort_by_key(|o| o.key());
    v
}

#[test]
fn object_keys_are_distinct() {
    let objects = vec![
        Object::Block(0, 0),
        Object::Block(0, 1),
        Object::Block(1, 0),
        Object::Block(-1, -1),
        Object::Block(i32::MAX, i32::MIN),
        Object::Block(i32::MIN, i32::MAX),
        Object::Entity(0),
        Object::Entity(1),
        Object::Entity(u64::MAX),
    ];
    for (i, a) in objects.iter().enumerate() {
        for (j, b) in objects.iter().enumerate() {
            assert_eq!(a.key() == b.key(), i == j);
        }
    }
    assert_eq!(Object::Block(0, 0).key(), 0x8000_0000u128 * 0x1_0000_0000 + 0x8000_0000);
    assert_eq!(Object::Entity(5).key(), (1u128 << 64) + 5);
}

#[test]
fn property_keys_are_distinct() {
    let properties = vec![
        Property::Material(0),
        Property::Material(65535),
        Property::Dynamic(DynamicProperty::Burning),
        Property::Static(StaticProperty::IsEntity),
        Property::Static(StaticProperty::Liquid),
    ];
    for (i, a) in properties.iter().enumerate() {
        for (j, b) in properties.iter().enumerate() {
            assert_eq!(a.key() == b.key(), i == j);
        }
    }
}

#[test]
fn a_default_world_is_all_air_and_unchanged() {
    let info = WorldInfo::default();
    assert_eq!(info.get_block(0, 0).unwrap().id, 0);
    assert_eq!(info.get_block(255, 255).unwrap().id, 0);
    assert_eq!(info.get_block(256, 0), None);
    assert_eq!(info.get_block(0, -1), None);
    assert!(info.all_changed().is_empty());
    assert!(info.all_entities().is_empty());
    assert_eq!(info.active_matching(Property::Material(0)).len(), 256 * 256);
    assert!(info.active_matching(Property::Material(SAND)).is_empty());
    assert!(info
        .active_matching(Property::Static(StaticProperty::Liquid))
        .is_empty());
}

#[test]
fn get_gives_one_for_a_matching_material_and_the_stored_scalar() {
    let mut info = WorldInfo::default();
    info.set_block(4, 5, Block::new(WATER));
    let cell = Object::Block(4, 5);
    assert_eq!(info.get(cell, Property::Material(WATER)), LEVEL_ONE);
    assert_eq!(info.get(cell, Property::Material(SAND)), 0);
    assert_eq!(info.get(cell, Property::Static(StaticProperty::Liquid)), LEVEL_ONE);
    assert_eq!(info.get(cell, Property::Static(StaticProperty::IsEntity)), 0);
    assert_eq!(info.get(cell, Property::Dynamic(DynamicProperty::Burning)), 0);
    assert_eq!(info.get(Object::Block(300, 5), Property::Material(0)), 0);
    assert_eq!(info.get(Object::Entity(3), Property::Material(0)), 0);
    info.set(cell, DynamicProperty::Burning, 250);
    assert_eq!(info.get(cell, Property::Dynamic(DynamicProperty::Burning)), 250);
    assert!(info.has(cell, Property::Dynamic(DynamicProperty::Burning)));
}

#[test]
fn set_caps_the_scalar_at_one_and_marks_the_target() {
    let mut info = WorldInfo::default();
    let e = Object::Entity(9);
    info.set(e, DynamicProperty::Burning, 5000);
    assert_eq!(info.get(e, Property::Dynamic(DynamicProperty::Burning)), LEVEL_ONE);
    assert_eq!(info.all_changed(), vec![e]);
    assert_eq!(
        info.active_matching(Property::Dynamic(DynamicProperty::Burning)),
        vec![e]
    );
    info.reset_changes();
    info.set(e, DynamicProperty::Burning, LEVEL_ONE);
    assert!(info.all_changed().is_empty());
    info.set(e, DynamicProperty::Burning, 0);
    assert_eq!(info.all_changed(), vec![e]);
    assert!(info
        .active_matching(Property::Dynamic(DynamicProperty::Burning))
        .is_empty());
    assert_eq!(info.get(e, Property::Dynamic(DynamicProperty::Burning)), 0);
}

#[test]
fn the_active_set_holds_exactly_the_objects_with_the_property() {
    let mut info = WorldInfo::default();
    info.set_block(1, 1, Block::new(SAND));
    info.set_block(2, 1, Block::new(WATER));
    info.set_block(3, 1, Block::new(STONE));
    info.set_block(4, 1, Block::new(SAND));
    info.set_block(4, 1, Block::new(COAL));
    info.set_collider(7, bounds(0, 0, 10, 10));
    info.set(Object::Block(3, 1), DynamicProperty::Burning, LEVEL_ONE);
    info.set(Object::Entity(7), DynamicProperty::Burning, 1);
    info.set(Object::Block(2, 1), DynamicProperty::Burning, LEVEL_ONE);
    info.set(Object::Block(2, 1), DynamicProperty::Burning, 0);

    assert_eq!(
        info.active_matching(Property::Material(SAND)),
        vec![Object::Block(1, 1)]
    );
    assert_eq!(
        sorted(info.active_matching(Property::Static(StaticProperty::Liquid))),
        sorted(vec![Object::Block(1, 1), Object::Block(2, 1), Object::Block(4, 1)])
    );
    assert_eq!(
        info.active_matching(Property::Static(StaticProperty::IsEntity)),
        vec![Object::Entity(7)]
    );
    assert_eq!(
        sorted(info.active_matching(Property::Dynamic(DynamicProperty::Burning))),
        sorted(vec![Object::Block(3, 1), Object::Entity(7)])
    );
    assert_eq!(
        info.active_matching(Property::Material(0)).len(),
        256 * 256 - 4
    );
    let properties = vec![
        Property::Material(0),
        Property::Material(SAND),
        Property::Material(WATER),
        Property::Material(STONE),
        Property::Material(COAL),
        Property::Static(StaticProperty::Liquid),
        Property::Static(StaticProperty::IsEntity),
        Property::Dynamic(DynamicProperty::Burning),
    ];
    for p in properties {
        let active = info.active_matching(p);
        for x in 0..6 {
            for y in 0..3 {
                let o = Object::Block(x, y);
                assert_eq!(active.contains(&o), info.has(o, p));
            }
        }
        for e in 0..9 {
            let o = Object::Entity(e);
            assert_eq!(active.contains(&o), info.has(o, p));
        }
    }
}

#[test]
fn set_block_marks_a_cell_only_if_its_block_differs() {
    let mut info = WorldInfo::default();
    let same = info.get_block(8, 8).unwrap();
    info.set_block(8, 8, same);
    assert!(info.all_changed().is_empty());
    let other = Block {
        damage: 3,
        ..same
    };
    info.set_block(8, 8, other);
    assert_eq!(info.all_changed(), vec![Object::Block(8, 8)]);
    assert_eq!(info.get_block(8, 8), Some(other));
}

#[test]
fn swap_properties_exchanges_the_scalars_of_two_objects() {
    let mut info = WorldInfo::default();
    let a = Object::Block(1, 1);
    let b = Object::Block(1, 2);
    let c = Object::Block(1, 3);
    info.set(a, DynamicProperty::Burning, 700);
    info.set(c, DynamicProperty::Burning, 300);
    info.swap_properties(a, b);
    assert_eq!(info.get(a, Property::Dynamic(DynamicProperty::Burning)), 0);
    assert_eq!(info.get(b, Property::Dynamic(DynamicProperty::Burning)), 700);
    assert_eq!(info.get(c, Property::Dynamic(DynamicProperty::Burning)), 300);
    assert_eq!(
        sorted(info.active_matching(Property::Dynamic(DynamicProperty::Burning))),
        sorted(vec![b, c])
    );
    info.swap_properties(b, c);
    assert_eq!(info.get(b, Property::Dynamic(DynamicProperty::Burning)), 300);
    assert_eq!(info.get(c, Property::Dynamic(DynamicProperty::Burning)), 700);
    info.swap_properties(c, c);
    assert_eq!(info.get(c, Property::Dynamic(DynamicProperty::Burning)), 700);
}

#[test]
fn reset_changes_clears_the_moved_flag_of_changed_blocks() {
    let mut info = WorldInfo::default();
    let mut moved = Block::new(SAND);
    moved.set(BlockProperties::moved_this_step(), true);
    moved.set(BlockProperties::powder_stable(), true);
    info.set_block(5, 5, moved);
    info.set(Object::Block(300, 300), DynamicProperty::Burning, 5);
    info.set(Object::Entity(1), DynamicProperty::Burning, 5);
    assert_eq!(info.all_changed().len(), 3);
    info.reset_changes();
    assert!(info.all_changed().is_empty());
    let b = info.get_block(5, 5).unwrap();
    assert!(!b.get(BlockProperties::moved_this_step()));
    assert!(b.get(BlockProperties::powder_stable()));
    assert_eq!(b.id, SAND);
    assert_eq!(info.get(Object::Entity(1), Property::Dynamic(DynamicProperty::Burning)), 5);
}

#[test]
fn boxes_intersect_when_they_touch() {
    let a = bounds(0, 0, 10, 10);
    assert!(a.intersects(&bounds(10, 10, 20, 20)));
    assert!(a.intersects(&bounds(5, 5, 6, 6)));
    assert!(!a.intersects(&bounds(11, 0, 20, 10)));
    assert!(!a.intersects(&bounds(0, 11, 10, 20)));
    assert!(!a.intersects(&bounds(-5, -5, -1, 20)));
    let b = AABBCollider::from_block(2, 3);
    assert_eq!(b, bounds(2 * CELL, 3 * CELL, 3 * CELL, 4 * CELL));
    assert_eq!(AABBCollider::default(), bounds(0, 0, 0, 0));
    assert_eq!(CELL, 1000);
}

#[test]
fn a_cell_inside_the_grid_has_eight_adjacent_cells() {
    let info = WorldInfo::default();
    let near = info.adjacent(Object::Block(10, 10));
    assert_eq!(
        near,
        vec![
            Object::Block(9, 9),
            Object::Block(9, 10),
            Object::Block(9, 11),
            Object::Block(10, 9),
            Object::Block(10, 11),
            Object::Block(11, 9),
            Object::Block(11, 10),
            Object::Block(11, 11),
        ]
    );
    assert_eq!(
        info.adjacent(Object::Block(0, 0)),
        vec![Object::Block(0, 1), Object::Block(1, 0), Object::Block(1, 1)]
    );
    assert!(info.adjacent(Object::Block(-1, 0)).is_empty());
    assert!(info.adjacent(Object::Block(256, 256)).is_empty());
    assert!(info.adjacent(Object::Entity(4)).is_empty());
}

#[test]
fn adjacency_with_entities_is_symmetric() {
    let mut info = WorldInfo::default();
    info.set_collider(1, bounds(2500, 2500, 3500, 2600));
    info.set_collider(2, bounds(3500, 2600, 9000, 9000));
    info.set_collider(3, bounds(100_500, 100_500, 100_501, 100_501));
    assert_eq!(
        sorted(info.adjacent(Object::Entity(1))),
        sorted(vec![Object::Block(2, 2), Object::Block(3, 2), Object::Entity(2)])
    );
    assert_eq!(info.adjacent(Object::Entity(3)), vec![Object::Block(100, 100)]);
    let mut objects = vec![Object::Entity(1), Object::Entity(2), Object::Entity(3)];
    for x in 0..12 {
        for y in 0..12 {
            objects.push(Object::Block(x, y));
        }
    }
    for &a in &objects {
        let near = info.adjacent(a);
        for &b in &objects {
            assert_eq!(near.contains(&b), info.is_adjacent(a, b));
            assert_eq!(info.is_adjacent(a, b), info.is_adjacent(b, a));
        }
        assert!(!near.contains(&a));
    }
    assert!(info.is_adjacent(Object::Block(3, 2), Object::Entity(1)));
    assert!(info.is_adjacent(Object::Block(4, 2), Object::Entity(1)) == false);
    assert!(info.adjacent(Object::Block(2, 2)).contains(&Object::Entity(1)));
}

#[test]
fn colliders_can_be_set_replaced_and_removed() {
    let mut info = WorldInfo::default();
    assert_eq!(info.get_collider(4), None);
    assert_eq!(info.fresh_entity(), Some(0));
    info.set_collider(4, bounds(0, 0, 1, 1));
    assert_eq!(info.get_collider(4), Some(bounds(0, 0, 1, 1)));
    assert!(info.contains_object(Object::Entity(4)));
    assert!(!info.contains_object(Object::Entity(5)));
    assert!(info.contains_object(Object::Block(255, 0)));
    assert!(!info.contains_object(Object::Block(256, 0)));
    assert_eq!(info.fresh_entity(), Some(5));
    info.set_collider(4, bounds(5, 5, 6, 6));
    assert_eq!(info.get_collider(4), Some(bounds(5, 5, 6, 6)));
    assert_eq!(info.all_entities(), vec![4]);
    assert_eq!(info.bounds(Object::Entity(4)), bounds(5, 5, 6, 6));
    assert_eq!(info.bounds(Object::Entity(8)), bounds(0, 0, 0, 0));
    assert_eq!(info.bounds(Object::Block(1, 1)), bounds(1000, 1000, 2000, 2000));
    info.set_collider(u64::MAX, bounds(0, 0, 1, 1));
    assert_eq!(info.fresh_entity(), None);
    info.remove_collider(4);
    assert_eq!(info.get_collider(4), None);
    assert!(info
        .all_changed()
        .contains(&Object::Entity(4)));
    assert_eq!(
        info.active_matching(Property::Static(StaticProperty::IsEntity)),
        vec![Object::Entity(u64::MAX)]
    );
}

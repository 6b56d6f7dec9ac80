use spellgrid::blocks::{
    block_data, get_id, Block, BlockPhysics, BlockProperties, AIR, COAL, FIRE, MATERIAL_COUNT, SAND,
    SMOKE, STEAM, STONE, WATER, WOOD,
};
use spellgrid::object::{DynamicProperty, Property, StaticProperty};

#[test]
fn flags_are_distinct_single_bits() {
    let all = BlockProperties::iter_all();
    assert_eq!(all.len(), 3);
    assert_eq!(all[0], BlockProperties::moved_this_step());
    assert_eq!(all[1], BlockProperties::powder_stable());
    assert_eq!(all[2], BlockProperties::changed_this_step());
    assert_eq!(all[0].bits, 1);
    assert_eq!(all[1].bits, 2);
    assert_eq!(all[2].bits, 8);
}

#[test]
fn setting_a_flag_leaves_the_others() {
    let mut flags = BlockProperties::empty();
    assert!(!flags.contains(BlockProperties::moved_this_step()));
    flags.set(BlockProperties::moved_this_step(), true);
    flags.set(BlockProperties::changed_this_step(), true);
    assert!(flags.contains(BlockProperties::moved_this_step()));
    assert!(flags.contains(BlockProperties::changed_this_step()));
    assert!(!flags.contains(BlockProperties::powder_stable()));
    flags.set(BlockProperties::moved_this_step(), false);
    assert!(!flags.contains(BlockProperties::moved_this_step()));
    assert!(flags.contains(BlockProperties::changed_this_step()));
    assert_eq!(flags.bits, 8);
}

#[test]
fn get_id_finds_every_material_by_name() {
    assert_eq!(get_id("Air"), AIR);
    assert_eq!(get_id("Stone"), STONE);
    assert_eq!(get_id("Water"), WATER);
    assert_eq!(get_id("Sand"), SAND);
    assert_eq!(get_id("Wood"), WOOD);
    assert_eq!(get_id("Coal"), COAL);
    assert_eq!(get_id("Fire"), FIRE);
    assert_eq!(get_id("Smoke"), SMOKE);
    assert_eq!(get_id("Steam"), STEAM);
    assert_eq!(MATERIAL_COUNT, 9);
}

#[test]
fn the_catalog_gives_density_physics_and_stability() {
    let sand = block_data(SAND);
    assert_eq!(sand.name, "Sand");
    assert_eq!(sand.density, 80);
    assert_eq!(sand.physics, BlockPhysics::Liquid);
    assert_eq!(sand.powder_stability, 30);
    let air = block_data(AIR);
    assert_eq!(air.density, 10);
    assert_eq!(air.physics, BlockPhysics::Inert);
    assert_eq!(air.powder_stability, 0);
    let stone = block_data(STONE);
    assert_eq!(stone.density, 100);
    assert_eq!(stone.physics, BlockPhysics::Solid);
    let water = block_data(WATER);
    assert_eq!(water.density, 50);
    assert_eq!(water.physics, BlockPhysics::Liquid);
    assert_eq!(block_data(COAL).powder_stability, 70);
    assert_eq!(block_data(STEAM).density, 5);
    assert_eq!(block_data(SMOKE).density, 5);
    assert_eq!(block_data(FIRE).physics, BlockPhysics::Inert);
    assert_eq!(block_data(WOOD).physics, BlockPhysics::Solid);
}

#[test]
fn a_new_block_has_its_material_and_no_flags() {
    let b = Block::new(COAL);
    assert_eq!(b.id, COAL);
    assert_eq!(b.damage, 0);
    assert_eq!(b.stored_properties.bits, 0);
    assert_eq!(b.data().name, "Coal");
    let d = Block::default();
    assert_eq!(d.id, 0);
    assert_eq!(d.damage, 0);
    assert_eq!(d.stored_properties.bits, 0);
}

#[test]
fn block_flags_read_back_what_was_set() {
    let mut b = Block::new(SAND);
    assert!(!b.get(BlockProperties::powder_stable()));
    b.set(BlockProperties::powder_stable(), true);
    assert!(b.get(BlockProperties::powder_stable()));
    assert!(!b.get(BlockProperties::moved_this_step()));
    assert_eq!(b.id, SAND);
    b.set(BlockProperties::powder_stable(), false);
    assert!(!b.get(BlockProperties::powder_stable()));
}

#[test]
fn a_block_lists_its_material_and_liquidity() {
    let sand = Block::new(SAND);
    assert_eq!(
        sand.iter_properties(),
        vec![
            Property::Material(SAND),
            Property::Static(StaticProperty::Liquid)
        ]
    );
    let stone = Block::new(STONE);
    assert_eq!(stone.iter_properties(), vec![Property::Material(STONE)]);
}

#[test]
fn get_prop_is_one_for_what_holds_and_zero_otherwise() {
    let water = Block::new(WATER);
    assert_eq!(water.get_prop(Property::Material(WATER)), 1000);
    assert_eq!(water.get_prop(Property::Material(SAND)), 0);
    assert_eq!(water.get_prop(Property::Static(StaticProperty::Liquid)), 1000);
    assert_eq!(water.get_prop(Property::Static(StaticProperty::IsEntity)), 0);
    assert_eq!(water.get_prop(Property::Dynamic(DynamicProperty::Burning)), 0);
    let wood = Block::new(WOOD);
    assert_eq!(wood.get_prop(Property::Static(StaticProperty::Liquid)), 0);
}

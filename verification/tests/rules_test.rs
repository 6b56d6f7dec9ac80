use spellgrid::blocks::{Block, BlockProperties, AIR, COAL, SAND, SMOKE, STONE, WATER};
use spellgrid::cells::set_block_range;
use spellgrid::chemistry::WorldInfo;
use spellgrid::object::{DynamicProperty, Object, Property, StaticProperty, LEVEL_ONE};
use spellgrid::rules::{
    apply_effect, apply_effects, apply_rule, gravity_fall, gravity_update, liquid_flow,
    liquid_update, mark_unstable, rule_fires, rule_update, spell_update, step, swap_cells,
    UpdateRule, UpdateRules,
};
use spellgrid::spells::{basic, natural_rules, Rate, SpellEffect, SpellRule, SpellSelector, SpellTarget};
use spellgrid::storage::StorageManager;

const HALF: u32 = 0x8000_0000;

fn burning() -> Property {
    Property::Dynamic(DynamicProperty::Burning)
}

fn census(info: &WorldInfo) -> Vec<usize> {
    let mut counts = vec![0usize; 9];
    for x in 0..256 {
        for y in 0..256 {
            counts[info.get_block(x, y).unwrap().id as usize] += 1;
        }
    }
    counts
}

fn range(from: i32, to: i32) -> Vec<i32> {
    (from..to).collect()
}

fn level(info: &WorldInfo, o: Object) -> u32 {
    info.get(o, burning())
}

#[test]
fn a_candidate_fires_below_rate_times_weight() {
    assert!(rule_fires(Rate::Always, 0, u32::MAX));
    assert!(rule_fires(Rate::Always, 1, 0));
    assert!(!rule_fires(Rate::PerMillion(0), 1, 0));
    assert!(!rule_fires(Rate::PerMillion(500_000), 0, 0));
    // half: fires below 2^31
    assert!(rule_fires(Rate::PerMillion(500_000), 1, HALF - 1));
    assert!(!rule_fires(Rate::PerMillion(500_000), 1, HALF));
    // weight two doubles the chance
    assert!(rule_fires(Rate::PerMillion(500_000), 2, u32::MAX));
    assert!(rule_fires(Rate::PerMillion(250_000), 2, HALF - 1));
    assert!(!rule_fires(Rate::PerMillion(250_000), 2, HALF));
    assert!(rule_fires(Rate::PerMillion(1_000_000), 1, u32::MAX));
    assert!(rule_fires(Rate::PerMillion(1), 1_000_000, u32::MAX));
    assert!(rule_fires(Rate::PerMillion(1), u64::MAX, u32::MAX));
    // one in a million: fires below 2^32 / 10^6 = 4294.967...
    assert!(rule_fires(Rate::PerMillion(1), 1, 4294));
    assert!(!rule_fires(Rate::PerMillion(1), 1, 4295));
}

#[test]
fn sending_a_property_twice_leaves_exactly_one() {
    let mut info = WorldInfo::default();
    let cell = Object::Block(2, 2);
    let send = SpellEffect::Send(burning());
    assert_eq!(apply_effect(&mut info, send, cell), cell);
    assert_eq!(level(&info, cell), LEVEL_ONE);
    assert_eq!(info.all_changed(), vec![cell]);
    info.reset_changes();
    assert_eq!(apply_effect(&mut info, send, cell), cell);
    assert_eq!(level(&info, cell), LEVEL_ONE);
    assert!(info.all_changed().is_empty());
    assert_eq!(apply_effect(&mut info, SpellEffect::Add(burning()), cell), cell);
    assert_eq!(level(&info, cell), LEVEL_ONE);
    assert!(info.all_changed().is_empty());
}

#[test]
fn receiving_a_property_that_is_zero_changes_nothing() {
    let mut info = WorldInfo::default();
    let cell = Object::Block(2, 2);
    apply_effect(&mut info, SpellEffect::Receive(burning()), cell);
    assert!(info.all_changed().is_empty());
    assert_eq!(level(&info, cell), 0);
    apply_effect(&mut info, SpellEffect::Remove(burning()), Object::Entity(3));
    assert!(info.all_changed().is_empty());
    info.set(cell, DynamicProperty::Burning, 400);
    info.reset_changes();
    apply_effect(&mut info, SpellEffect::Receive(burning()), cell);
    assert_eq!(level(&info, cell), 0);
    assert_eq!(info.all_changed(), vec![cell]);
}

#[test]
fn sending_a_material_replaces_the_id_and_keeps_the_flags() {
    let mut info = WorldInfo::default();
    let mut b = Block::new(COAL);
    b.set(BlockProperties::powder_stable(), true);
    b.damage = 4;
    info.set_block(2, 2, b);
    let cell = Object::Block(2, 2);
    assert_eq!(
        apply_effect(&mut info, SpellEffect::Send(Property::Material(SMOKE)), cell),
        cell
    );
    let after = info.get_block(2, 2).unwrap();
    assert_eq!(after.id, SMOKE);
    assert_eq!(after.damage, 4);
    assert!(after.get(BlockProperties::powder_stable()));
    assert_eq!(info.active_matching(Property::Material(SMOKE)), vec![cell]);
    assert!(info.active_matching(Property::Material(COAL)).is_empty());
    let before = census(&info);
    apply_effect(
        &mut info,
        SpellEffect::Add(Property::Material(WATER)),
        Object::Block(-5, 2),
    );
    apply_effect(
        &mut info,
        SpellEffect::Add(Property::Material(WATER)),
        Object::Entity(1),
    );
    apply_effect(&mut info, SpellEffect::Receive(Property::Material(SMOKE)), cell);
    apply_effect(
        &mut info,
        SpellEffect::Send(Property::Static(StaticProperty::Liquid)),
        cell,
    );
    assert_eq!(census(&info), before);
    assert_eq!(info.get_block(2, 2).unwrap().id, SMOKE);
}

#[test]
fn summoning_registers_a_new_entity_that_becomes_the_target() {
    let mut info = WorldInfo::default();
    let out = apply_effects(
        &mut info,
        &vec![SpellEffect::Summon, SpellEffect::Send(burning())],
        Object::Block(3, 4),
    );
    assert_eq!(out, Object::Entity(0));
    assert_eq!(
        info.get_collider(0),
        Some(spellgrid::chemistry::AABBCollider::from_block(3, 4))
    );
    assert_eq!(level(&info, Object::Entity(0)), LEVEL_ONE);
    assert_eq!(level(&info, Object::Block(3, 4)), 0);
    let next = apply_effect(&mut info, SpellEffect::Summon, Object::Entity(0));
    assert_eq!(next, Object::Entity(1));
    assert_eq!(info.get_collider(1), info.get_collider(0));
    assert_eq!(
        apply_effects(&mut info, &vec![], Object::Block(1, 1)),
        Object::Block(1, 1)
    );
}

#[test]
fn a_rule_applies_its_effects_to_the_candidates_that_fire() {
    let mut info = WorldInfo::default();
    let candidates = vec![
        SpellTarget::new(Object::Block(1, 1)),
        SpellTarget::new(Object::Block(2, 2)),
        SpellTarget { target: Object::Block(3, 3), connection: 2 },
        SpellTarget::new(Object::Block(4, 4)),
    ];
    let draws = vec![HALF - 1, HALF, u32::MAX];
    apply_rule(
        &mut info,
        Rate::PerMillion(500_000),
        &vec![SpellEffect::Send(burning())],
        &candidates,
        &draws,
    );
    assert_eq!(level(&info, Object::Block(1, 1)), LEVEL_ONE);
    assert_eq!(level(&info, Object::Block(2, 2)), 0);
    assert_eq!(level(&info, Object::Block(3, 3)), LEVEL_ONE);
    assert_eq!(level(&info, Object::Block(4, 4)), 0);
}

#[test]
fn burning_coal_lights_the_air_beside_it() {
    let mut info = WorldInfo::default();
    info.set_block(20, 20, Block::new(COAL));
    info.set_block(21, 20, Block::new(STONE));
    info.set(Object::Block(20, 20), DynamicProperty::Burning, LEVEL_ONE);
    let natural = natural_rules();
    let rule = SpellRule {
        name: "Burning coal lights the air around it on fire",
        rate: Rate::Always,
        spell: basic(
            vec![
                SpellSelector::Is(Property::Material(COAL)),
                SpellSelector::Is(burning()),
                SpellSelector::Adjacent,
                SpellSelector::Is(Property::Material(AIR)),
            ],
            vec![SpellEffect::Send(burning())],
        ),
    };
    assert_eq!(rule.spell.selector(), natural[3].spell.selector());
    spell_update(&mut info, &rule, Object::Block(20, 20));
    for x in 18..23 {
        for y in 18..23 {
            let near = (x - 20i32).abs() <= 1 && (y - 20i32).abs() <= 1;
            let expected = if (x, y) == (20, 20) {
                LEVEL_ONE
            } else if near && (x, y) != (21, 20) {
                LEVEL_ONE
            } else {
                0
            };
            assert_eq!(level(&info, Object::Block(x, y)), expected);
        }
    }
}

#[test]
fn a_rule_runs_on_the_relation_that_the_manager_keeps() {
    let mut info = WorldInfo::default();
    info.set_block(20, 20, Block::new(COAL));
    info.set(Object::Block(20, 20), DynamicProperty::Burning, LEVEL_ONE);
    let rule = SpellRule {
        name: "lights",
        rate: Rate::Always,
        spell: basic(
            vec![
                SpellSelector::Is(Property::Material(COAL)),
                SpellSelector::Is(burning()),
                SpellSelector::Adjacent,
                SpellSelector::Is(Property::Material(AIR)),
            ],
            vec![SpellEffect::Send(burning())],
        ),
    };
    let mut manager = StorageManager::new();
    let handle = manager.require(&rule.spell.selector());
    let mut sources = Vec::new();
    for x in 17..24 {
        for y in 17..24 {
            sources.push(Object::Block(x, y));
        }
    }
    manager.observe(&info, &sources);
    manager.recompute_all_caches();
    assert_eq!(manager.for_each_entry(handle).len(), 8);
    rule_update(&mut info, &manager, handle, &rule);
    let lit = info.active_matching(burning());
    assert_eq!(lit.len(), 9);
    assert_eq!(level(&info, Object::Block(19, 21)), LEVEL_ONE);
    assert_eq!(level(&info, Object::Block(22, 20)), 0);

    let never = SpellRule {
        name: "never",
        rate: Rate::PerMillion(0),
        spell: basic(
            vec![SpellSelector::Is(Property::Material(COAL))],
            vec![SpellEffect::Send(Property::Material(SAND))],
        ),
    };
    let h2 = manager.require(&never.spell.selector());
    manager.observe(&info, &sources);
    manager.recompute_all_caches();
    assert_eq!(manager.for_each_entry(h2).len(), 1);
    rule_update(&mut info, &manager, h2, &never);
    assert_eq!(info.get_block(20, 20).unwrap().id, COAL);
}

#[test]
fn mark_unstable_unsettles_every_liquid_nearby() {
    let mut info = WorldInfo::default();
    let mut stable = Block::new(SAND);
    stable.set(BlockProperties::powder_stable(), true);
    let mut water = Block::new(WATER);
    water.set(BlockProperties::powder_stable(), true);
    water.set(BlockProperties::moved_this_step(), true);
    let mut stone = Block::new(STONE);
    stone.set(BlockProperties::powder_stable(), true);
    info.set_block(5, 5, stable);
    info.set_block(6, 6, stable);
    info.set_block(7, 5, stable);
    info.set_block(4, 5, water);
    info.set_block(5, 4, stone);
    let before = census(&info);
    mark_unstable(&mut info, 5, 5, SAND);
    assert!(!info.get_block(5, 5).unwrap().get(BlockProperties::powder_stable()));
    assert!(!info.get_block(6, 6).unwrap().get(BlockProperties::powder_stable()));
    // a liquid of another material is unsettled too, and keeps its other flag
    assert!(!info.get_block(4, 5).unwrap().get(BlockProperties::powder_stable()));
    assert!(info.get_block(4, 5).unwrap().get(BlockProperties::moved_this_step()));
    // outside the cells around (5, 5) nothing changes, nor does what is no liquid
    assert_eq!(info.get_block(7, 5), Some(stable));
    assert_eq!(info.get_block(5, 4), Some(stone));
    assert_eq!(census(&info), before);
    info.set_block(6, 6, stable);
    mark_unstable(&mut info, 5, 5, COAL);
    assert!(!info.get_block(6, 6).unwrap().get(BlockProperties::powder_stable()));
    mark_unstable(&mut info, 0, 0, SAND);
    mark_unstable(&mut info, -1, 300, SAND);
    assert_eq!(info.get_block(7, 5), Some(stable));
}

#[test]
fn a_swap_unsettles_the_sand_beside_moving_water() {
    let mut info = WorldInfo::default();
    let mut settled = Block::new(SAND);
    settled.set(BlockProperties::powder_stable(), true);
    info.set_block(5, 5, Block::new(WATER));
    info.set_block(4, 5, settled);
    info.set_block(5, 6, settled);
    info.set_block(8, 5, settled);
    liquid_flow(&mut info, 5, 5, u32::MAX, &vec![(6, 5)], &vec![0]);
    assert_eq!(info.get_block(6, 5).unwrap().id, WATER);
    assert!(!info.get_block(4, 5).unwrap().get(BlockProperties::powder_stable()));
    assert!(!info.get_block(5, 6).unwrap().get(BlockProperties::powder_stable()));
    assert!(info.get_block(8, 5).unwrap().get(BlockProperties::powder_stable()));
}

#[test]
fn a_swap_exchanges_blocks_and_scalars_and_marks_them_moved() {
    let mut info = WorldInfo::default();
    info.set_block(5, 5, Block::new(SAND));
    info.set(Object::Block(5, 5), DynamicProperty::Burning, 600);
    info.reset_changes();
    let before = census(&info);
    swap_cells(&mut info, 5, 5, 5, 4);
    assert_eq!(info.get_block(5, 4).unwrap().id, SAND);
    assert_eq!(info.get_block(5, 5).unwrap().id, AIR);
    assert!(info.get_block(5, 4).unwrap().get(BlockProperties::moved_this_step()));
    assert!(!info.get_block(5, 5).unwrap().get(BlockProperties::moved_this_step()));
    assert_eq!(level(&info, Object::Block(5, 4)), 600);
    assert_eq!(level(&info, Object::Block(5, 5)), 0);
    assert_eq!(census(&info), before);
    let mut changed = info.all_changed();
    changed.sort_by_key(|o| o.key());
    assert_eq!(changed, vec![Object::Block(5, 4), Object::Block(5, 5)]);
    info.set_block(6, 4, Block::new(WATER));
    swap_cells(&mut info, 5, 4, 6, 4);
    assert!(info.get_block(5, 4).unwrap().get(BlockProperties::moved_this_step()));
    assert_eq!(info.get_block(5, 4).unwrap().id, WATER);
    assert_eq!(info.get_block(6, 4).unwrap().id, SAND);
}

#[test]
fn sand_falls_as_far_as_the_draws_allow() {
    // sand over air: desire 70 hundredths, so the threshold is 1.4
    let mut info = WorldInfo::default();
    info.set_block(5, 9, Block::new(SAND));
    gravity_fall(&mut info, 5, 9, &vec![u32::MAX, 0, 0, 0, 0]);
    // step 0 never exceeds, step 1 with draw 0 never exceeds, step 2 always
    assert_eq!(info.get_block(5, 7).unwrap().id, SAND);
    assert_eq!(info.get_block(5, 9).unwrap().id, AIR);
    assert_eq!(info.get_block(5, 8).unwrap().id, AIR);

    let mut info = WorldInfo::default();
    info.set_block(5, 9, Block::new(SAND));
    // 0.4 * 2^32 = 1717986918.4: a draw of ...918 stays below, ...919 exceeds
    gravity_fall(&mut info, 5, 9, &vec![0, 1_717_986_919, 0, 0, 0]);
    assert_eq!(info.get_block(5, 8).unwrap().id, SAND);
    let mut info = WorldInfo::default();
    info.set_block(5, 9, Block::new(SAND));
    gravity_fall(&mut info, 5, 9, &vec![0, 1_717_986_918, 0, 0, 0]);
    assert_eq!(info.get_block(5, 7).unwrap().id, SAND);
}

#[test]
fn gravity_leaves_what_cannot_fall() {
    let mut info = WorldInfo::default();
    info.set_block(5, 0, Block::new(SAND));
    info.set_block(6, 5, Block::new(STONE));
    info.set_block(7, 5, Block::new(SAND));
    info.set_block(7, 4, Block::new(STONE));
    info.set_block(8, 5, Block::new(WATER));
    info.set_block(8, 4, Block::new(SAND));
    let mut moved = Block::new(SAND);
    moved.set(BlockProperties::moved_this_step(), true);
    info.set_block(9, 5, moved);
    info.reset_changes();
    info.set_block(9, 5, moved);
    info.reset_changes();
    let draws = vec![0, 0, 0, 0, 0];
    gravity_fall(&mut info, 5, 0, &draws);
    gravity_fall(&mut info, 6, 5, &draws);
    gravity_fall(&mut info, 7, 5, &draws);
    gravity_fall(&mut info, 8, 5, &draws);
    gravity_fall(&mut info, 300, 5, &draws);
    gravity_fall(&mut info, 10, 5, &vec![]);
    gravity_update(&mut info, Object::Entity(3));
    assert!(info.all_changed().is_empty());
    assert_eq!(info.get_block(5, 0).unwrap().id, SAND);
    assert_eq!(info.get_block(8, 5).unwrap().id, WATER);
    // sand sinks through water: desire 30 hundredths, threshold 0.6
    info.set_block(8, 6, Block::new(SAND));
    gravity_fall(&mut info, 8, 6, &draws);
    assert_eq!(info.get_block(8, 6).unwrap().id, WATER);
    assert_eq!(info.get_block(8, 5).unwrap().id, SAND);
}

#[test]
fn a_falling_block_takes_its_scalars_along() {
    let mut info = WorldInfo::default();
    info.set_block(5, 9, Block::new(SAND));
    info.set(Object::Block(5, 9), DynamicProperty::Burning, 900);
    info.set(Object::Block(5, 8), DynamicProperty::Burning, 100);
    gravity_fall(&mut info, 5, 9, &vec![0, 0, u32::MAX, 0, 0]);
    assert_eq!(info.get_block(5, 7).unwrap().id, SAND);
    assert_eq!(level(&info, Object::Block(5, 7)), 900);
    assert_eq!(level(&info, Object::Block(5, 9)), 100);
    assert_eq!(level(&info, Object::Block(5, 8)), 0);
    assert!(info.get_block(5, 7).unwrap().get(BlockProperties::moved_this_step()));
}

#[test]
fn gravity_keeps_the_count_of_every_material() {
    let mut info = WorldInfo::default();
    set_block_range(&mut info, &range(0, 40), &range(5, 6), STONE);
    set_block_range(&mut info, &range(10, 15), &range(10, 15), SAND);
    set_block_range(&mut info, &range(20, 25), &range(10, 30), WATER);
    set_block_range(&mut info, &range(22, 24), &range(30, 33), COAL);
    let before = census(&info);
    let rules = UpdateRules {
        update_rules: vec![UpdateRule::Gravity, UpdateRule::Liquid],
    };
    for tick in 0..10 {
        step(&mut info, &rules, tick);
        assert_eq!(census(&info), before);
    }
    for target in info.active_matching(Property::Static(StaticProperty::Liquid)) {
        gravity_update(&mut info, target);
        liquid_update(&mut info, target);
    }
    assert_eq!(census(&info), before);
}

#[test]
fn sand_settles_on_the_floor() {
    let mut info = WorldInfo::default();
    set_block_range(&mut info, &range(0, 256), &range(5, 6), STONE);
    set_block_range(&mut info, &range(10, 15), &range(10, 15), SAND);
    let rules = UpdateRules {
        update_rules: vec![UpdateRule::Gravity],
    };
    for tick in 0..50 {
        step(&mut info, &rules, tick);
    }
    let sand = info.active_matching(Property::Material(SAND));
    assert_eq!(sand.len(), 25);
    for o in sand {
        match o {
            Object::Block(x, y) => {
                assert!((10..15).contains(&x));
                assert!((6..=10).contains(&y));
                assert!(info.get_block(x, y).unwrap().id != AIR);
                assert_eq!(info.get_block(x, y).unwrap().id, SAND);
            }
            Object::Entity(_) => panic!("an entity is no sand"),
        }
    }
    for x in 10..15 {
        for y in 11..15 {
            assert_eq!(info.get_block(x, y).unwrap().id, AIR);
        }
        assert_eq!(info.get_block(x, 5).unwrap().id, STONE);
    }
}

#[test]
fn a_liquid_settles_when_the_draw_is_below_its_stability() {
    // sand settles 30 times in a hundred: 0.3 * 2^32 = 1288490188.8
    let mut info = WorldInfo::default();
    info.set_block(5, 5, Block::new(SAND));
    liquid_flow(&mut info, 5, 5, 1_288_490_189, &vec![], &vec![]);
    assert!(!info.get_block(5, 5).unwrap().get(BlockProperties::powder_stable()));
    liquid_flow(&mut info, 5, 5, 1_288_490_188, &vec![(4, 5)], &vec![0]);
    assert!(info.get_block(5, 5).unwrap().get(BlockProperties::powder_stable()));
    assert_eq!(info.get_block(4, 5).unwrap().id, AIR);
    // settled: stays even with a draw that would let it flow
    liquid_flow(&mut info, 5, 5, u32::MAX, &vec![(4, 5)], &vec![0]);
    assert_eq!(info.get_block(5, 5).unwrap().id, SAND);
}

#[test]
fn a_liquid_flows_to_the_first_open_side() {
    // water beside air: advantage 40 hundredths; 0.4 * 2^32 = 1717986918.4
    let mut info = WorldInfo::default();
    info.set_block(5, 5, Block::new(WATER));
    info.set_block(4, 5, Block::new(STONE));
    let before = census(&info);
    liquid_flow(&mut info, 5, 5, 0, &vec![(4, 5), (6, 5)], &vec![0, 1_717_986_919]);
    assert_eq!(info.get_block(5, 5).unwrap().id, WATER);
    liquid_flow(&mut info, 5, 5, 0, &vec![(4, 5), (6, 5)], &vec![0, 1_717_986_918]);
    assert_eq!(info.get_block(6, 5).unwrap().id, WATER);
    assert_eq!(info.get_block(5, 5).unwrap().id, AIR);
    assert_eq!(info.get_block(4, 5).unwrap().id, STONE);
    assert!(info.get_block(6, 5).unwrap().get(BlockProperties::moved_this_step()));
    assert_eq!(census(&info), before);
    // no draw for the second side, a cell outside the grid, the cell itself
    info.reset_changes();
    liquid_flow(
        &mut info,
        6,
        5,
        0,
        &vec![(6, 5), (6, 300), (7, 5)],
        &vec![0, 0],
    );
    assert_eq!(info.get_block(6, 5).unwrap().id, WATER);
    liquid_flow(&mut info, 6, 5, 0, &vec![(6, 5), (6, 300), (7, 5)], &vec![0, 0, 0]);
    assert_eq!(info.get_block(7, 5).unwrap().id, WATER);
    // stone does not flow, nor does anything outside the grid
    liquid_flow(&mut info, 4, 5, 0, &vec![(5, 5)], &vec![0]);
    liquid_flow(&mut info, -4, 5, 0, &vec![(5, 5)], &vec![0]);
    liquid_update(&mut info, Object::Entity(0));
    assert_eq!(info.get_block(4, 5).unwrap().id, STONE);
    assert_eq!(census(&info), before);
}

#[test]
fn a_liquid_does_not_push_what_has_moved_or_is_denser() {
    let mut info = WorldInfo::default();
    info.set_block(5, 5, Block::new(WATER));
    info.set_block(6, 5, Block::new(SAND));
    let mut moved = Block::new(AIR);
    moved.set(BlockProperties::moved_this_step(), true);
    info.set_block(4, 5, moved);
    liquid_flow(&mut info, 5, 5, 0, &vec![(6, 5), (4, 5)], &vec![0, 0]);
    assert_eq!(info.get_block(5, 5).unwrap().id, WATER);
    assert_eq!(info.get_block(6, 5).unwrap().id, SAND);
    // smoke is lighter than air, and air is inert: it flows with a small draw
    info.set_block(10, 5, Block::new(SMOKE));
    liquid_flow(&mut info, 10, 5, 0, &vec![(11, 5)], &vec![214_748_365]);
    assert_eq!(info.get_block(10, 5).unwrap().id, SMOKE);
    liquid_flow(&mut info, 10, 5, 0, &vec![(11, 5)], &vec![214_748_364]);
    assert_eq!(info.get_block(11, 5).unwrap().id, SMOKE);
}

#[test]
fn a_rule_runs_on_the_property_its_spell_starts_with() {
    assert_eq!(
        UpdateRule::Gravity.only_run_on(),
        Some(Property::Static(StaticProperty::Liquid))
    );
    assert_eq!(
        UpdateRule::Liquid.only_run_on(),
        Some(Property::Static(StaticProperty::Liquid))
    );
    let mut natural = natural_rules();
    let smoke = natural.remove(5);
    assert_eq!(
        UpdateRule::Spell(smoke).only_run_on(),
        Some(Property::Material(SMOKE))
    );
    let first = natural.remove(0);
    assert_eq!(UpdateRule::Spell(first).only_run_on(), Some(burning()));
    let mut player = spellgrid::spells::player_rules();
    assert_eq!(UpdateRule::Spell(player.remove(0)).only_run_on(), None);
    assert_eq!(UpdateRule::Spell(player.remove(0)).only_run_on(), None);
}

#[test]
fn a_tick_runs_spell_rules_on_their_active_set() {
    let mut info = WorldInfo::default();
    info.set_block(20, 20, Block::new(COAL));
    info.set(Object::Block(20, 20), DynamicProperty::Burning, LEVEL_ONE);
    let rule = SpellRule {
        name: "coal turns to smoke",
        rate: Rate::Always,
        spell: basic(
            vec![
                SpellSelector::Is(Property::Material(COAL)),
                SpellSelector::Is(burning()),
            ],
            vec![SpellEffect::Send(Property::Material(SMOKE))],
        ),
    };
    let rules = UpdateRules {
        update_rules: vec![UpdateRule::Spell(rule)],
    };
    step(&mut info, &rules, 1);
    assert_eq!(info.get_block(20, 20).unwrap().id, SMOKE);
    assert_eq!(info.all_changed(), vec![Object::Block(20, 20)]);
    step(&mut info, &UpdateRules { update_rules: vec![] }, 2);
    assert!(info.all_changed().is_empty());
}

#[test]
fn receiving_what_is_zero_everywhere_marks_nothing_changed() {
    let mut info = WorldInfo::default();
    info.set_block(20, 20, Block::new(COAL));
    info.set(Object::Block(3, 3), DynamicProperty::Burning, 700);
    info.reset_changes();
    let rule = SpellRule {
        name: "cools what is around coal",
        rate: Rate::Always,
        spell: basic(
            vec![
                SpellSelector::Is(Property::Material(COAL)),
                SpellSelector::Adjacent,
            ],
            vec![SpellEffect::Receive(burning())],
        ),
    };
    spell_update(&mut info, &rule, Object::Block(20, 20));
    assert!(info.all_changed().is_empty());
    assert_eq!(info.active_matching(burning()), vec![Object::Block(3, 3)]);
    assert_eq!(level(&info, Object::Block(3, 3)), 700);
    for x in 19..22 {
        for y in 19..22 {
            assert_eq!(level(&info, Object::Block(x, y)), 0);
        }
    }
}

#[test]
fn odd_ticks_visit_the_active_set_in_reverse() {
    let summons = || SpellRule {
        name: "stone calls an entity",
        rate: Rate::Always,
        spell: basic(
            vec![SpellSelector::Is(Property::Material(STONE))],
            vec![SpellEffect::Summon],
        ),
    };
    let world = || {
        let mut info = WorldInfo::default();
        info.set_block(3, 3, Block::new(STONE));
        info.set_block(9, 4, Block::new(STONE));
        info.set_block(200, 100, Block::new(STONE));
        info
    };
    let boxes = |info: &WorldInfo| -> Vec<spellgrid::chemistry::AABBCollider> {
        (0..3u64).map(|e| info.get_collider(e).unwrap()).collect()
    };
    let listed: Vec<spellgrid::chemistry::AABBCollider> = world()
        .active_matching(Property::Material(STONE))
        .iter()
        .map(|o| world().bounds(*o))
        .collect();
    assert_eq!(listed.len(), 3);

    let mut even = world();
    step(&mut even, &UpdateRules { update_rules: vec![UpdateRule::Spell(summons())] }, 4);
    assert_eq!(boxes(&even), listed);

    let mut odd = world();
    step(&mut odd, &UpdateRules { update_rules: vec![UpdateRule::Spell(summons())] }, 7);
    let mut reversed = listed.clone();
    reversed.reverse();
    assert_eq!(boxes(&odd), reversed);
}

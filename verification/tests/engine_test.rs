use spellgrid::blocks::{Block, AIR, COAL, SAND, STONE};
use spellgrid::cells::set_block_range;
use spellgrid::chemistry::{AABBCollider, Point, WorldInfo};
use spellgrid::object::{DynamicProperty, Object, Property, LEVEL_ONE};
use spellgrid::rules::{register_rules, tick, UpdateRule, UpdateRules};
use spellgrid::spells::{basic, Rate, SpellEffect, SpellRule, SpellSelector};
use spellgrid::storage::StorageManager;

fn burning() -> Property {
    Property::Dynamic(DynamicProperty::Burning)
}

fn lights(rate: Rate) -> SpellRule {
    SpellRule {
        name: "Burning coal lights the air around it on fire",
        rate,
        spell: basic(
            vec![
                SpellSelector::Is(Property::Material(COAL)),
                SpellSelector::Is(burning()),
                SpellSelector::Adjacent,
                SpellSelector::Is(Property::Material(AIR)),
            ],
            vec![SpellEffect::Send(burning())],
        ),
    }
}

#[test]
fn all_objects_lists_cells_and_entities() {
    let mut info = WorldInfo::default();
    info.set_collider(
        3,
        AABBCollider {
            ll: Point { x: 0, y: 0 },
            ur: Point { x: 1, y: 1 },
        },
    );
    let all = info.all_objects();
    assert_eq!(all.len(), 256 * 256 + 1);
    assert_eq!(all[0], Object::Block(0, 0));
    assert_eq!(all[1], Object::Block(1, 0));
    assert_eq!(all[256], Object::Block(0, 1));
    assert_eq!(all[256 * 256 - 1], Object::Block(255, 255));
    assert_eq!(all[256 * 256], Object::Entity(3));
}

#[test]
fn registering_rules_registers_each_spell_once() {
    let rules = UpdateRules {
        update_rules: vec![
            UpdateRule::Gravity,
            UpdateRule::Spell(lights(Rate::Always)),
            UpdateRule::Liquid,
            UpdateRule::Spell(lights(Rate::PerMillion(5))),
        ],
    };
    let mut manager = StorageManager::new();
    register_rules(&mut manager, &rules);
    assert_eq!(manager.len(), 7);
    assert!(manager.find(&lights(Rate::Always).spell.selector()).is_some());
    register_rules(&mut manager, &rules);
    assert_eq!(manager.len(), 7);
}

#[test]
fn a_tick_of_the_engine_lights_the_air_beside_burning_coal() {
    let mut info = WorldInfo::default();
    info.set_block(20, 20, Block::new(COAL));
    info.set_block(21, 20, Block::new(STONE));
    info.set(Object::Block(20, 20), DynamicProperty::Burning, LEVEL_ONE);
    let rules = UpdateRules {
        update_rules: vec![UpdateRule::Spell(lights(Rate::Always))],
    };
    let mut manager = StorageManager::new();
    register_rules(&mut manager, &rules);
    tick(&mut info, &mut manager, &rules, 0);

    let h = manager.find(&lights(Rate::Always).spell.selector()).unwrap();
    assert_eq!(manager.for_each_entry(h).len(), 7);
    for x in 18..23 {
        for y in 18..23 {
            let near = (x - 20i32).abs() <= 1 && (y - 20i32).abs() <= 1;
            let expected = if near && (x, y) != (21, 20) { LEVEL_ONE } else { 0 };
            assert_eq!(info.get(Object::Block(x, y), burning()), expected);
        }
    }

    // the next tick sees what this one changed: nothing is left to light
    tick(&mut info, &mut manager, &rules, 1);
    assert_eq!(manager.for_each_entry(h).len(), 7);
    info.set(Object::Block(20, 20), DynamicProperty::Burning, 0);
    tick(&mut info, &mut manager, &rules, 2);
    assert!(manager.for_each_entry(h).is_empty());
    assert_eq!(info.active_matching(burning()).len(), 7);
}

#[test]
fn sync_makes_every_relation_the_one_its_selector_denotes() {
    let mut info = WorldInfo::default();
    info.set_block(2, 2, Block::new(COAL));
    info.set(Object::Block(2, 2), DynamicProperty::Burning, LEVEL_ONE);
    let selector = lights(Rate::Always).spell.selector();
    let mut manager = StorageManager::new();
    let h = manager.require(&selector);
    manager.sync(&info);
    let mut pairs = manager.for_each_entry(h);
    pairs.sort_by_key(|e| e.1.key());
    assert_eq!(pairs.len(), 8);
    for (s, t, w) in pairs {
        assert_eq!(s, Object::Block(2, 2));
        assert_eq!(w, 1);
        assert!(selector.select(&info, s).iter().any(|x| x.target == t));
    }
    let adjacent = manager.find(&SpellSelector::Adjacent).unwrap();
    assert_eq!(
        manager.for_each_entry(adjacent).len(),
        4 * 3 + 4 * 254 * 5 + 254 * 254 * 8
    );
    info.set_block(2, 2, Block::new(SAND));
    manager.sync(&info);
    assert!(manager.for_each_entry(h).is_empty());
}

#[test]
fn a_tick_of_the_engine_runs_the_physics_rules_too() {
    let mut info = WorldInfo::default();
    set_block_range(&mut info, &vec![40], &vec![9], SAND);
    info.set_block(20, 20, Block::new(COAL));
    info.set(Object::Block(20, 20), DynamicProperty::Burning, LEVEL_ONE);
    let rules = UpdateRules {
        update_rules: vec![UpdateRule::Gravity, UpdateRule::Spell(lights(Rate::PerMillion(0)))],
    };
    let mut manager = StorageManager::new();
    register_rules(&mut manager, &rules);
    tick(&mut info, &mut manager, &rules, 0);
    assert_eq!(info.get_block(40, 9).unwrap().id, AIR);
    assert_eq!(info.active_matching(Property::Material(SAND)).len(), 1);
    assert_eq!(info.get_block(20, 20).unwrap().id, AIR);
    // the scalar went along with the coal, and the rule never fires
    let lit = info.active_matching(burning());
    assert_eq!(lit.len(), 1);
    assert_eq!(info.active_matching(Property::Material(COAL)), lit);
}

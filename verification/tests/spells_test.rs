use spellgrid::blocks::{Block, AIR, COAL, WATER};
use spellgrid::chemistry::{AABBCollider, Point, WorldInfo};
use spellgrid::object::{DynamicProperty, Object, Property, StaticProperty, LEVEL_ONE};
use spellgrid::spells::{
    basic, bind, natural_rules, not, player_rules, Rate, Spell, SpellEffect, SpellSelector,
    SpellTarget,
};

fn is(p: Property) -> SpellSelector {
    SpellSelector::Is(p)
}

fn burning() -> Property {
    Property::Dynamic(DynamicProperty::Burning)
}

fn targets(found: Vec<SpellTarget>) -> Vec<Object> {
    let mut v: Vec<Object> = found.iter().map(|t| t.target).collect();
    v.sort_by_key(|o| o.key());
    v
}

fn sorted(mut v: Vec<Object>) -> Vec<Object> {
    v.sort_by_key(|o| o.key());
    v
}

#[test]
fn bind_nests_to_the_right() {
    let a = is(Property::Material(1));
    let b = SpellSelector::Adjacent;
    let c = is(Property::Material(2));
    let bound = bind(vec![a.duplicate(), b.duplicate(), c.duplicate()]);
    assert_eq!(
        bound,
        SpellSelector::Bind(
            Box::new(a.duplicate()),
            Box::new(SpellSelector::Bind(Box::new(b), Box::new(c)))
        )
    );
    assert_eq!(bind(vec![a.duplicate()]), a);
    assert_eq!(bind(vec![]), SpellSelector::Identity);
}

#[test]
fn not_wraps_a_selector() {
    assert_eq!(
        not(SpellSelector::Adjacent),
        SpellSelector::Not(Box::new(SpellSelector::Adjacent))
    );
}

#[test]
fn same_tells_selectors_apart() {
    let a = bind(vec![is(burning()), SpellSelector::Adjacent]);
    let b = bind(vec![is(burning()), SpellSelector::Adjacent]);
    let c = bind(vec![SpellSelector::Adjacent, is(burning())]);
    assert!(a.same(&b));
    assert!(!a.same(&c));
    assert!(a.duplicate().same(&a));
    assert!(!not(a.duplicate()).same(&a));
    assert!(SpellSelector::Identity.same(&SpellSelector::Identity));
    assert!(!SpellSelector::Identity.same(&SpellSelector::Adjacent));
}

#[test]
fn basic_without_selectors_is_the_effects_alone() {
    let spell = basic(vec![], vec![SpellEffect::Summon]);
    assert!(matches!(spell, Spell::Effects(ref e) if e == &vec![SpellEffect::Summon]));
    assert_eq!(spell.selector(), SpellSelector::Identity);
    let spell = basic(
        vec![is(burning()), SpellSelector::Adjacent],
        vec![SpellEffect::Send(burning())],
    );
    assert_eq!(
        spell.selector(),
        bind(vec![is(burning()), SpellSelector::Adjacent])
    );
    assert_eq!(spell.effects(), &vec![SpellEffect::Send(burning())]);
    assert!(matches!(spell, Spell::Select(_, _)));
}

#[test]
fn identity_and_is_keep_the_source() {
    let mut info = WorldInfo::default();
    info.set_block(3, 3, Block::new(COAL));
    let cell = Object::Block(3, 3);
    assert_eq!(
        SpellSelector::Identity.select(&info, cell),
        vec![SpellTarget::new(cell)]
    );
    assert!(SpellSelector::Identity
        .select(&info, Object::Block(-1, 3))
        .is_empty());
    assert!(SpellSelector::Identity
        .select(&info, Object::Entity(1))
        .is_empty());
    assert_eq!(
        is(Property::Material(COAL)).select(&info, cell),
        vec![SpellTarget { target: cell, connection: 1 }]
    );
    assert!(is(Property::Material(AIR)).select(&info, cell).is_empty());
    assert!(is(burning()).select(&info, cell).is_empty());
    info.set(cell, DynamicProperty::Burning, LEVEL_ONE);
    assert_eq!(is(burning()).select(&info, cell).len(), 1);
}

#[test]
fn not_is_a_presence_test() {
    let mut info = WorldInfo::default();
    let cell = Object::Block(3, 3);
    let not_burning = not(is(burning()));
    assert_eq!(not_burning.select(&info, cell), vec![SpellTarget::new(cell)]);
    info.set(cell, DynamicProperty::Burning, 1);
    assert!(not_burning.select(&info, cell).is_empty());
    assert!(not_burning.select(&info, Object::Block(300, 0)).is_empty());
    let no_coal_near = not(bind(vec![
        SpellSelector::Adjacent,
        is(Property::Material(COAL)),
    ]));
    assert_eq!(no_coal_near.select(&info, cell).len(), 1);
    info.set_block(4, 4, Block::new(COAL));
    assert!(no_coal_near.select(&info, cell).is_empty());
    assert_eq!(no_coal_near.select(&info, Object::Block(10, 10)).len(), 1);
}

#[test]
fn bind_composes_and_counts_the_ways() {
    let mut info = WorldInfo::default();
    info.set_block(5, 5, Block::new(COAL));
    info.set_block(6, 5, Block::new(WATER));
    info.set(Object::Block(5, 5), DynamicProperty::Burning, LEVEL_ONE);
    let chain = bind(vec![
        is(Property::Material(COAL)),
        is(burning()),
        SpellSelector::Adjacent,
        is(Property::Material(AIR)),
    ]);
    let found = chain.select(&info, Object::Block(5, 5));
    assert!(found.iter().all(|t| t.connection == 1));
    assert_eq!(
        targets(found),
        sorted(vec![
            Object::Block(4, 4),
            Object::Block(4, 5),
            Object::Block(4, 6),
            Object::Block(5, 4),
            Object::Block(5, 6),
            Object::Block(6, 4),
            Object::Block(6, 6),
        ])
    );
    assert!(chain.select(&info, Object::Block(6, 5)).is_empty());

    let two_steps = bind(vec![SpellSelector::Adjacent, SpellSelector::Adjacent]);
    let found = two_steps.select(&info, Object::Block(0, 0));
    let back = found
        .iter()
        .filter(|t| t.target == Object::Block(0, 0))
        .count();
    assert_eq!(back, 3);
    let diagonal = found
        .iter()
        .filter(|t| t.target == Object::Block(2, 2))
        .count();
    assert_eq!(diagonal, 1);
    let beside = found
        .iter()
        .filter(|t| t.target == Object::Block(1, 0))
        .count();
    assert_eq!(beside, 2);
}

#[test]
fn binding_is_associative_on_a_world() {
    let mut info = WorldInfo::default();
    info.set_block(5, 5, Block::new(COAL));
    info.set_block(6, 6, Block::new(COAL));
    info.set(Object::Block(5, 5), DynamicProperty::Burning, LEVEL_ONE);
    info.set_collider(
        1,
        AABBCollider {
            ll: Point { x: 5500, y: 5500 },
            ur: Point { x: 6500, y: 6500 },
        },
    );
    let a = || SpellSelector::Adjacent;
    let b = || not(is(burning()));
    let c = || SpellSelector::Adjacent;
    let left = SpellSelector::Bind(
        Box::new(SpellSelector::Bind(Box::new(a()), Box::new(b()))),
        Box::new(c()),
    );
    let right = SpellSelector::Bind(
        Box::new(a()),
        Box::new(SpellSelector::Bind(Box::new(b()), Box::new(c()))),
    );
    for source in [
        Object::Block(5, 5),
        Object::Block(6, 6),
        Object::Block(0, 0),
        Object::Entity(1),
        Object::Entity(2),
    ] {
        assert_eq!(
            targets(left.select(&info, source)),
            targets(right.select(&info, source))
        );
    }
    assert!(!left.select(&info, Object::Block(5, 5)).is_empty());
}

#[test]
fn select_spell_carries_the_connection() {
    let info = WorldInfo::default();
    let start = SpellTarget {
        target: Object::Block(0, 0),
        connection: 7,
    };
    let found = SpellSelector::Adjacent.select_spell(&info, start);
    assert_eq!(found.len(), 3);
    assert!(found.iter().all(|t| t.connection == 7));
}

#[test]
fn cast_follows_the_chain_and_hands_out_the_effects() {
    let mut info = WorldInfo::default();
    info.set_block(5, 5, Block::new(COAL));
    let spell = basic(
        vec![is(Property::Material(COAL)), SpellSelector::Adjacent],
        vec![SpellEffect::Send(burning()), SpellEffect::Summon],
    );
    let results = spell.cast(&info, SpellTarget::new(Object::Block(5, 5)));
    assert_eq!(results.len(), 8);
    for r in &results {
        assert_eq!(r.target.connection, 1);
        assert_eq!(
            r.effects,
            &vec![SpellEffect::Send(burning()), SpellEffect::Summon]
        );
    }
    assert!(spell
        .cast(&info, SpellTarget::new(Object::Block(9, 9)))
        .is_empty());
    let bare = basic(vec![], vec![SpellEffect::Summon]);
    let results = bare.cast(&info, SpellTarget::new(Object::Entity(77)));
    assert_eq!(results.len(), 1);
    assert_eq!(results[0].target, SpellTarget::new(Object::Entity(77)));
}

#[test]
fn the_rule_tables_are_complete() {
    let natural = natural_rules();
    assert_eq!(natural.len(), 10);
    assert_eq!(natural[0].name, "Fire disappears over time");
    assert_eq!(natural[0].rate, Rate::PerMillion(30_000));
    assert_eq!(
        natural[3].name,
        "Burning coal lights the air around it on fire"
    );
    assert_eq!(natural[3].rate, Rate::PerMillion(200_000));
    assert_eq!(
        natural[3].spell.selector(),
        bind(vec![
            is(Property::Material(COAL)),
            is(burning()),
            SpellSelector::Adjacent,
            is(Property::Material(AIR)),
        ])
    );
    assert_eq!(natural[3].spell.effects(), &vec![SpellEffect::Send(burning())]);
    assert_eq!(
        natural[8].spell.selector(),
        bind(vec![
            is(burning()),
            SpellSelector::Adjacent,
            is(Property::Static(StaticProperty::IsEntity)),
        ])
    );
    let player = player_rules();
    assert_eq!(player.len(), 3);
    assert!(player.iter().all(|r| r.rate == Rate::Always));
    assert_eq!(player[1].name, "Launch fireball");
    assert_eq!(player[1].spell.selector(), SpellSelector::Identity);
    assert_eq!(
        player[0].spell.effects(),
        &vec![SpellEffect::Add(Property::Material(WATER))]
    );
}

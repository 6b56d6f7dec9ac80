use spellgrid::blocks::{Block, COAL};
use spellgrid::chemistry::WorldInfo;
use spellgrid::object::{DynamicProperty, Object, Property, LEVEL_ONE};
use spellgrid::object_set::ObjectSet;
use spellgrid::sparse_matrices::{add, add_scaled, diff, mat_mul, mul, sub};
use spellgrid::spells::{bind, not, SpellSelector};
use spellgrid::storage::{Digraph, StorageManager, TrackingDigraph, WEIGHT_MAX};
use spellgrid::table::Table;

fn b(x: i32, y: i32) -> Object {
    Object::Block(x, y)
}

fn entries(g: &Digraph) -> Vec<(u128, u128, i128)> {
    let mut v: Vec<(u128, u128, i128)> = g
        .entries()
        .iter()
        .map(|(s, t, w)| (s.key(), t.key(), *w))
        .collect();
    v.sort();
    v
}

fn graph(pairs: &[(Object, Object, i128)]) -> Digraph {
    let mut g = Digraph::new();
    for (s, t, w) in pairs {
        g.set_option(*s, *t, Some(*w));
    }
    g
}

fn burning() -> SpellSelector {
    SpellSelector::Is(Property::Dynamic(DynamicProperty::Burning))
}

fn coal() -> SpellSelector {
    SpellSelector::Is(Property::Material(COAL))
}

#[test]
fn a_table_inserts_replaces_and_removes() {
    let mut t: Table<u32> = Table::new();
    assert_eq!(t.len(), 0);
    assert_eq!(t.insert(5, 50), None);
    assert_eq!(t.insert(7, 70), None);
    assert_eq!(t.insert(9, 90), None);
    assert_eq!(t.insert(7, 71), Some(70));
    assert_eq!(t.len(), 3);
    assert_eq!(t.get(7), Some(&71));
    assert_eq!(t.get(8), None);
    assert!(t.contains(5));
    assert_eq!(t.key_at(0), 5);
    assert_eq!(*t.value_at(1), 71);
    assert_eq!(t.remove(5), Some(50));
    assert_eq!(t.remove(5), None);
    assert_eq!(t.len(), 2);
    assert!(!t.contains(5));
    assert_eq!(t.get(9), Some(&90));
    assert_eq!(t.get(7), Some(&71));
    let mut keys = vec![t.key_at(0), t.key_at(1)];
    keys.sort();
    assert_eq!(keys, vec![7, 9]);
    assert_eq!(t.remove(9), Some(90));
    assert_eq!(t.remove(7), Some(71));
    assert_eq!(t.len(), 0);
}

#[test]
fn an_object_set_holds_each_member_once() {
    let mut s = ObjectSet::new();
    assert!(s.insert(b(1, 1)));
    assert!(!s.insert(b(1, 1)));
    assert!(s.insert(Object::Entity(1)));
    assert_eq!(s.len(), 2);
    assert!(s.contains(b(1, 1)));
    assert!(!s.contains(b(1, 2)));
    assert_eq!(s.to_vec(), vec![b(1, 1), Object::Entity(1)]);
    assert_eq!(s.member_at(1), Object::Entity(1));
    assert!(s.remove(b(1, 1)));
    assert!(!s.remove(b(1, 1)));
    assert_eq!(s.to_vec(), vec![Object::Entity(1)]);
}

#[test]
fn a_digraph_stores_no_zero_weight() {
    let mut g = Digraph::new();
    assert_eq!(g.get_option(b(0, 0), b(0, 1)), None);
    assert_eq!(g.get(b(0, 0), b(0, 1)), 0);
    assert_eq!(g.set_option(b(0, 0), b(0, 1), Some(3)), None);
    assert_eq!(g.set_option(b(0, 0), b(0, 1), Some(4)), Some(3));
    assert_eq!(g.get(b(0, 0), b(0, 1)), 4);
    assert_eq!(g.get(b(0, 1), b(0, 0)), 0);
    g.set(b(0, 0), b(0, 2), -2);
    g.set(b(1, 0), b(0, 2), 5);
    assert_eq!(g.row(b(0, 0)).len(), 2);
    assert_eq!(g.row(b(1, 0)), vec![(b(0, 2), 5)]);
    assert!(g.row(b(2, 0)).is_empty());
    g.set(b(0, 0), b(0, 1), 0);
    assert_eq!(g.get_option(b(0, 0), b(0, 1)), None);
    assert_eq!(
        entries(&g),
        entries(&graph(&[(b(0, 0), b(0, 2), -2), (b(1, 0), b(0, 2), 5)]))
    );
    assert_eq!(g.set_option(b(1, 0), b(0, 2), None), Some(5));
    assert_eq!(g.set_option(b(1, 0), b(0, 2), None), None);
    assert!(g.entries().iter().all(|e| e.2 != 0));
    g.add_weight(b(0, 0), b(0, 2), 2);
    assert!(g.entries().is_empty());
    g.add_weight(b(0, 0), b(0, 2), 2);
    assert_eq!(g.get(b(0, 0), b(0, 2)), 2);
    assert!(g.sources().contains(&b(0, 0)));
    g.clear();
    assert!(g.entries().is_empty());
    assert_eq!(g.get(b(0, 0), b(0, 2)), 0);
}

#[test]
fn sums_differences_and_multiples_are_pointwise() {
    let l = graph(&[(b(0, 0), b(0, 1), 2), (b(0, 0), b(0, 2), 3)]);
    let r = graph(&[(b(0, 0), b(0, 1), -2), (b(5, 5), b(0, 2), 7)]);
    assert_eq!(
        entries(&add(&l, &r)),
        entries(&graph(&[(b(0, 0), b(0, 2), 3), (b(5, 5), b(0, 2), 7)]))
    );
    assert_eq!(
        entries(&sub(&l, &r)),
        entries(&graph(&[
            (b(0, 0), b(0, 1), 4),
            (b(0, 0), b(0, 2), 3),
            (b(5, 5), b(0, 2), -7)
        ]))
    );
    assert_eq!(
        entries(&mul(-3, &l)),
        entries(&graph(&[(b(0, 0), b(0, 1), -6), (b(0, 0), b(0, 2), -9)]))
    );
    assert!(mul(0, &l).entries().is_empty());
    let mut acc = graph(&[(b(0, 0), b(0, 1), 1)]);
    add_scaled(&mut acc, &l, 10);
    assert_eq!(
        entries(&acc),
        entries(&graph(&[(b(0, 0), b(0, 1), 21), (b(0, 0), b(0, 2), 30)]))
    );
}

#[test]
fn the_product_sums_over_the_objects_between() {
    let a = b(0, 0);
    let m1 = b(1, 1);
    let m2 = Object::Entity(4);
    let t = b(9, 9);
    let l = graph(&[(a, m1, 2), (a, m2, 3), (m1, m1, 5)]);
    let r = graph(&[(m1, t, 7), (m2, t, 11), (m2, a, -1), (t, t, 100)]);
    let p = mat_mul(&l, &r).unwrap();
    assert_eq!(
        entries(&p),
        entries(&graph(&[(a, t, 2 * 7 + 3 * 11), (a, a, -3), (m1, t, 35)]))
    );
    assert!(mat_mul(&l, &Digraph::new()).unwrap().entries().is_empty());
    assert!(mat_mul(&Digraph::new(), &r).unwrap().entries().is_empty());
    let cancel = mat_mul(
        &graph(&[(a, m1, 1), (a, m2, 1)]),
        &graph(&[(m1, t, 4), (m2, t, -4)]),
    ).unwrap();
    assert!(cancel.entries().is_empty());
}

#[test]
fn the_product_has_no_result_where_a_store_cannot_hold_it() {
    let (a, m, n, t) = (b(0, 0), b(1, 1), b(2, 2), b(9, 9));
    let huge = graph(&[(a, m, i128::MAX)]);
    assert!(mat_mul(&huge, &graph(&[(m, t, 2)])).is_none());
    assert_eq!(
        entries(&mat_mul(&huge, &graph(&[(m, t, -1)])).unwrap()),
        entries(&graph(&[(a, t, -i128::MAX)]))
    );
    // each term fits, their sum does not
    let two = graph(&[(a, m, i128::MAX), (a, n, i128::MAX)]);
    assert!(mat_mul(&two, &graph(&[(m, t, 1), (n, t, 1)])).is_none());
    // weights far above what a tracked relation stores still multiply
    let big = graph(&[(a, m, 1 << 60)]);
    assert_eq!(
        entries(&mat_mul(&big, &graph(&[(m, t, 1 << 60)])).unwrap()),
        entries(&graph(&[(a, t, 1 << 120)]))
    );
}

#[test]
fn the_product_is_associative() {
    let o: Vec<Object> = vec![b(0, 0), b(1, 0), b(2, 0), Object::Entity(1), Object::Entity(2)];
    let a = graph(&[(o[0], o[1], 2), (o[0], o[2], 1), (o[3], o[1], 3), (o[1], o[1], 1)]);
    let bb = graph(&[(o[1], o[2], 5), (o[1], o[3], 1), (o[2], o[3], 2), (o[2], o[2], 1)]);
    let c = graph(&[(o[2], o[4], 3), (o[3], o[4], 1), (o[3], o[0], 4)]);
    let left = mat_mul(&mat_mul(&a, &bb).unwrap(), &c).unwrap();
    let right = mat_mul(&a, &mat_mul(&bb, &c).unwrap()).unwrap();
    assert_eq!(entries(&left), entries(&right));
    assert_eq!(left.get(o[0], o[4]), 2 * 5 * 3 + 2 * 1 * 1 + 1 * 2 * 1 + 1 * 1 * 3);
    assert_eq!(left.get(o[0], o[0]), 2 * 1 * 4 + 1 * 2 * 4);
    // also with weights beyond what a tracked relation stores
    let a = mul(1 << 35, &a);
    let bb = mul(1 << 35, &bb);
    let c = mul(-(1 << 35), &c);
    let left = mat_mul(&mat_mul(&a, &bb).unwrap(), &c).unwrap();
    let right = mat_mul(&a, &mat_mul(&bb, &c).unwrap()).unwrap();
    assert_eq!(entries(&left), entries(&right));
    assert_eq!(left.get(o[0], o[4]), -37 * (1i128 << 105));
}

#[test]
fn a_tracking_digraph_records_its_changes() {
    let mut g = TrackingDigraph::default();
    let (s, t) = (b(0, 0), b(0, 1));
    g.update(s, t, 3);
    assert_eq!(g.current().get(s, t), 3);
    assert_eq!(g.changes().get(s, t), 3);
    g.update(s, t, -1);
    assert_eq!(g.current().get(s, t), 2);
    assert_eq!(g.changes().get(s, t), 2);
    assert_eq!(entries(&diff(&g)), entries(&graph(&[(s, t, 2)])));
    assert!(g.previous().entries().is_empty());
    assert!(Digraph::default().entries().is_empty());
    g.clear_previous();
    assert_eq!(g.current().get(s, t), 2);
    assert!(g.changes().entries().is_empty());
    assert_eq!(entries(&g.previous()), entries(&graph(&[(s, t, 2)])));
    g.update(s, t, -5);
    assert_eq!(entries(&g.previous()), entries(&graph(&[(s, t, 2)])));
    assert_eq!(g.current().get(s, t), 0);
    assert!(g.current().entries().is_empty());
    assert_eq!(g.changes().get(s, t), -2);
    g.update(s, t, 2);
    assert_eq!(g.current().get(s, t), 2);
    assert!(g.changes().entries().is_empty());
    g.set(s, t, WEIGHT_MAX + 5);
    assert_eq!(g.current().get(s, t), WEIGHT_MAX);
    g.update(s, t, i128::MAX);
    assert_eq!(g.current().get(s, t), WEIGHT_MAX);
    g.set(s, t, -4);
    assert_eq!(g.current().get(s, t), 0);
    assert_eq!(g.changes().get(s, t), -2);
    let delta = graph(&[(s, t, 6), (t, s, -1), (t, t, 1)]);
    g.apply(&delta);
    assert_eq!(g.current().get(s, t), 6);
    assert_eq!(g.current().get(t, s), 0);
    assert_eq!(g.current().get(t, t), 1);
    assert_eq!(g.changes().get(s, t), 4);
}

#[test]
fn require_registers_operands_first_and_only_once() {
    let mut m = StorageManager::new();
    let chain = bind(vec![burning(), SpellSelector::Adjacent, coal()]);
    let h = m.require(&chain);
    assert_eq!(m.len(), 5);
    assert_eq!(h, 4);
    assert_eq!(m.find(&burning()), Some(0));
    assert_eq!(m.find(&SpellSelector::Adjacent), Some(1));
    assert_eq!(m.find(&coal()), Some(2));
    assert_eq!(m.find(&bind(vec![SpellSelector::Adjacent, coal()])), Some(3));
    assert_eq!(m.find(&chain), Some(4));
    assert_eq!(m.require(&chain), 4);
    assert_eq!(m.require(&SpellSelector::Adjacent), 1);
    assert_eq!(m.len(), 5);
    assert_eq!(m.find(&SpellSelector::Identity), None);
    assert_eq!(
        m.get(4).parents(),
        vec![burning(), bind(vec![SpellSelector::Adjacent, coal()])]
    );
    assert!(m.get(0).parents().is_empty());
    assert!(m.for_each_entry(4).is_empty());
    assert!(m.get_prop(Property::Material(COAL)).is_some());
    assert!(m.get_prop(Property::Material(0)).is_none());
}

#[test]
fn a_schedule_lists_every_handle_after_its_operands() {
    let mut m = StorageManager::new();
    m.require(&bind(vec![burning(), SpellSelector::Adjacent, coal()]));
    m.require(&bind(vec![coal(), not(burning())]));
    m.require(&SpellSelector::Identity);
    m.require(&bind(vec![
        SpellSelector::Adjacent,
        SpellSelector::Adjacent,
        coal(),
    ]));
    let n = m.len();
    for _ in 0..20 {
        let order = m.schedule();
        assert_eq!(order.len(), n);
        let mut sorted = order.clone();
        sorted.sort();
        assert_eq!(sorted, (0..n).collect::<Vec<usize>>());
        for (i, h) in order.iter().enumerate() {
            for parent in m.get(*h).parents() {
                let p = m.find(&parent).unwrap();
                let at = order.iter().position(|x| *x == p).unwrap();
                assert!(at < i);
            }
        }
    }
}

fn region() -> Vec<Object> {
    let mut v = Vec::new();
    for x in 0..12 {
        for y in 0..12 {
            v.push(b(x, y));
        }
    }
    v.push(Object::Entity(1));
    v
}

fn selectors() -> Vec<SpellSelector> {
    vec![
        bind(vec![burning(), SpellSelector::Adjacent, coal(), not(burning())]),
        bind(vec![SpellSelector::Adjacent, SpellSelector::Adjacent]),
        bind(vec![coal(), burning()]),
        SpellSelector::Bind(
            Box::new(bind(vec![SpellSelector::Adjacent, coal()])),
            Box::new(SpellSelector::Adjacent),
        ),
    ]
}

fn relations(m: &StorageManager) -> Vec<Vec<(u128, u128, i128)>> {
    (0..m.len())
        .map(|h| {
            let mut v: Vec<(u128, u128, i128)> = m
                .for_each_entry(h)
                .iter()
                .map(|(s, t, w)| (s.key(), t.key(), *w))
                .collect();
            v.sort();
            v
        })
        .collect()
}

#[test]
fn incremental_refresh_equals_recomputation_from_scratch() {
    let mut info = WorldInfo::default();
    let mut manager = StorageManager::new();
    for s in selectors() {
        manager.require(&s);
    }
    info.set_block(3, 3, Block::new(COAL));
    info.set_block(4, 3, Block::new(COAL));
    info.set(b(4, 4), DynamicProperty::Burning, LEVEL_ONE);
    manager.observe(&info, &region());
    manager.recompute_all_caches();

    let steps: Vec<Box<dyn Fn(&mut WorldInfo)>> = vec![
        Box::new(|w| w.set(b(3, 3), DynamicProperty::Burning, LEVEL_ONE)),
        Box::new(|w| {
            w.set_block(5, 5, Block::new(COAL));
            w.set(b(4, 4), DynamicProperty::Burning, 0);
        }),
        Box::new(|w| w.set_block(3, 3, Block::new(0))),
        Box::new(|w| {
            w.set_collider(
                1,
                spellgrid::chemistry::AABBCollider {
                    ll: spellgrid::chemistry::Point { x: 3500, y: 3500 },
                    ur: spellgrid::chemistry::Point { x: 4500, y: 4500 },
                },
            );
            w.set(Object::Entity(1), DynamicProperty::Burning, LEVEL_ONE);
        }),
        Box::new(|w| w.remove_collider(1)),
        Box::new(|_| {}),
    ];
    for step in steps {
        step(&mut info);
        manager.observe(&info, &region());
        manager.recompute_all_caches();

        let mut fresh = StorageManager::new();
        for s in selectors() {
            fresh.require(&s);
        }
        fresh.observe(&info, &region());
        fresh.recompute_all_caches();
        assert_eq!(relations(&manager), relations(&fresh));

        for h in 0..manager.len() {
            for (s, t, w) in manager.for_each_entry(h) {
                assert!(w > 0);
                // a pair is complete only where the objects between lie in
                // the observed region
                let inside = match s {
                    Object::Block(x, y) => (1..=9).contains(&x) && (1..=9).contains(&y),
                    Object::Entity(_) => true,
                };
                if !inside {
                    continue;
                }
                let sel = selectors_of(&manager, h);
                let live = sel
                    .select(&info, s)
                    .iter()
                    .filter(|x| x.target == t)
                    .count();
                assert_eq!(live as i128, w);
            }
            assert!(manager.get(h).storage().changes().entries().is_empty());
        }
    }
    let chain = manager.find(&selectors()[0]).unwrap();
    assert_eq!(manager.for_each_entry(chain), vec![(b(3, 3), b(4, 3), 1)]);
    let pairs = manager.find(&selectors()[1]).unwrap();
    assert!(!manager.for_each_entry(pairs).is_empty());
}

fn selectors_of(m: &StorageManager, h: usize) -> SpellSelector {
    let mut all = vec![
        burning(),
        coal(),
        SpellSelector::Adjacent,
        not(burning()),
        SpellSelector::Identity,
    ];
    for s in selectors() {
        collect_parts(&s, &mut all);
    }
    for s in all {
        if m.find(&s) == Some(h) {
            return s;
        }
    }
    panic!("handle without a selector");
}

fn collect_parts(s: &SpellSelector, out: &mut Vec<SpellSelector>) {
    out.push(s.duplicate());
    if let SpellSelector::Bind(l, r) = s {
        collect_parts(l, out);
        collect_parts(r, out);
    }
}

#[test]
fn a_refresh_applies_the_change_of_the_product() {
    let mut info = WorldInfo::default();
    let mut manager = StorageManager::new();
    let chain = bind(vec![burning(), SpellSelector::Adjacent]);
    let h = manager.require(&chain);
    let sources = vec![b(5, 5), b(5, 6)];
    manager.observe(&info, &sources);
    manager.recompute_all_caches();
    assert!(manager.for_each_entry(h).is_empty());

    info.set(b(5, 5), DynamicProperty::Burning, LEVEL_ONE);
    manager.observe(&info, &sources);
    assert!(manager.for_each_entry(h).is_empty());
    let left = manager.find(&burning()).unwrap();
    assert_eq!(
        manager.get(left).compute_row_changes(b(5, 5)),
        vec![(b(5, 5), 1)]
    );
    manager.recompute_all_caches();
    let mut got: Vec<(Object, Object, i128)> = manager.for_each_entry(h);
    got.sort_by_key(|e| e.1.key());
    assert_eq!(got.len(), 8);
    assert!(got.iter().all(|e| e.0 == b(5, 5) && e.2 == 1));
    assert!(got.iter().any(|e| e.1 == b(5, 6)));
    assert!(manager.get(left).compute_row_changes(b(5, 5)).is_empty());

    info.set(b(5, 5), DynamicProperty::Burning, 0);
    info.set(b(5, 6), DynamicProperty::Burning, LEVEL_ONE);
    manager.observe(&info, &sources);
    manager.recompute_all_caches();
    let got = manager.for_each_entry(h);
    assert_eq!(got.len(), 8);
    assert!(got.iter().all(|e| e.0 == b(5, 6) && e.2 == 1));
}

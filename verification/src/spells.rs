//! Selectors, effects and rules, and the evaluation of a selector against
//! the world.

use crate::chemistry::WorldInfo;
use crate::blocks::{AIR, COAL, FIRE, MATERIAL_COUNT, SMOKE, STEAM, WATER};
use crate::object::{DynamicProperty, Object, Property, StaticProperty};
use crate::relation::{
    lemma_product_associative, lemma_sum_linear, lemma_sum_point, lemma_sum_zero, product,
    relation_of, sum_objects, weight, Relation,
};
use vstd::prelude::*;

verus! {

/// A selected object with the strength of its connection to the source.
#[derive(Copy, Clone, Debug, PartialEq, Eq, Structural)]
pub struct SpellTarget {
    pub target: Object,
    pub connection: u64,
}

impl SpellTarget {
    pub fn new(target: Object) -> (t: SpellTarget)
        ensures
            t == (SpellTarget { target, connection: 1 }),
    {
        SpellTarget { target, connection: 1 }
    }
}

/// A composable predicate or expansion over world objects.
#[derive(Debug, PartialEq, Eq, Hash)]
pub enum SpellSelector {
    /// Keeps the source.
    Identity,
    /// Expands the source to the objects adjacent to it.
    Adjacent,
    /// Keeps the source if the property holds of it.
    Is(Property),
    /// Keeps the source if the inner selector yields nothing for it.
    Not(Box<SpellSelector>),
    /// Applies the first selector, then the second to each result.
    Bind(Box<SpellSelector>, Box<SpellSelector>),
}

/// Whether a relation has no pair with source `s`.
pub open spec fn row_empty(r: Relation, s: Object) -> bool {
    forall|t: Object| #[trigger] weight(r, s, t) == 0
}

/// The relation that a selector denotes in a world.
pub open spec fn select_relation(selector: SpellSelector, info: WorldInfo) -> Relation
    decreases selector,
{
    match selector {
        SpellSelector::Identity => relation_of(
            |s: Object, t: Object|
                if s == t && info.is_object(s) {
                    1int
                } else {
                    0int
                },
        ),
        SpellSelector::Adjacent => relation_of(
            |s: Object, t: Object|
                if info.adjacent_to(s, t) {
                    1int
                } else {
                    0int
                },
        ),
        SpellSelector::Is(p) => relation_of(
            |s: Object, t: Object|
                if s == t && info.is_object(s) && info.holds(s, p) {
                    1int
                } else {
                    0int
                },
        ),
        SpellSelector::Not(inner) => {
            let denied = select_relation(*inner, info);
            relation_of(
                |s: Object, t: Object|
                    if s == t && info.is_object(s) && row_empty(denied, s) {
                        1int
                    } else {
                        0int
                    },
            )
        },
        SpellSelector::Bind(left, right) => product(
            select_relation(*left, info),
            select_relation(*right, info),
        ),
    }
}

/// Binding is associative: against one world, `Bind(Bind(a, b), c)` and
/// `Bind(a, Bind(b, c))` denote the same relation.
pub proof fn lemma_bind_associative(a: SpellSelector, b: SpellSelector, c: SpellSelector, info: WorldInfo)
    ensures
        select_relation(
            SpellSelector::Bind(Box::new(SpellSelector::Bind(Box::new(a), Box::new(b))), Box::new(c)),
            info,
        ) == select_relation(
            SpellSelector::Bind(Box::new(a), Box::new(SpellSelector::Bind(Box::new(b), Box::new(c)))),
            info,
        ),
{
    let ra = select_relation(a, info);
    let rb = select_relation(b, info);
    let rc = select_relation(c, info);
    lemma_product_associative(ra, rb, rc);
    let ab = SpellSelector::Bind(Box::new(a), Box::new(b));
    let bc = SpellSelector::Bind(Box::new(b), Box::new(c));
    assert(select_relation(ab, info) == product(ra, rb));
    assert(select_relation(bc, info) == product(rb, rc));
    assert(select_relation(SpellSelector::Bind(Box::new(ab), Box::new(c)), info) == product(
        product(ra, rb),
        rc,
    ));
    assert(select_relation(SpellSelector::Bind(Box::new(a), Box::new(bc)), info) == product(
        ra,
        product(rb, rc),
    ));
}

impl SpellSelector {
    /// Whether two selectors are the same expression.
    pub fn same(&self, other: &SpellSelector) -> (r: bool)
        ensures
            r == (*self == *other),
        decreases self,
    {
        match (self, other) {
            (SpellSelector::Identity, SpellSelector::Identity) => true,
            (SpellSelector::Adjacent, SpellSelector::Adjacent) => true,
            (SpellSelector::Is(p), SpellSelector::Is(q)) => *p == *q,
            (SpellSelector::Not(a), SpellSelector::Not(b)) => a.same(b),
            (SpellSelector::Bind(a, b), SpellSelector::Bind(c, d)) => a.same(c) && b.same(d),
            _ => false,
        }
    }

    /// A copy of the expression.
    pub fn duplicate(&self) -> (r: SpellSelector)
        ensures
            r == *self,
        decreases self,
    {
        match self {
            SpellSelector::Identity => SpellSelector::Identity,
            SpellSelector::Adjacent => SpellSelector::Adjacent,
            SpellSelector::Is(p) => SpellSelector::Is(*p),
            SpellSelector::Not(a) => SpellSelector::Not(Box::new(a.duplicate())),
            SpellSelector::Bind(a, b) => SpellSelector::Bind(
                Box::new(a.duplicate()),
                Box::new(b.duplicate()),
            ),
        }
    }
}

/// The selector that applies each selector of a list in turn: the list
/// bound from the right, and `Identity` for the empty list.
pub open spec fn bind_all(selectors: Seq<SpellSelector>) -> SpellSelector
    decreases selectors.len(),
{
    if selectors.len() == 0 {
        SpellSelector::Identity
    } else if selectors.len() == 1 {
        selectors[0]
    } else {
        SpellSelector::Bind(Box::new(selectors[0]), Box::new(bind_all(selectors.drop_first())))
    }
}

/// Binds a list of selectors into one.
pub fn bind(selectors: Vec<SpellSelector>) -> (r: SpellSelector)
    ensures
        r == bind_all(selectors@),
{
    let mut selectors = selectors;
    let ghost all = selectors@;
    match selectors.pop() {
        None => SpellSelector::Identity,
        Some(last) => {
            let mut acc = last;
            assert(all.subrange(all.len() - 1, all.len() as int).drop_first() =~= Seq::empty());
            assert(all.subrange(all.len() - 1, all.len() as int)[0] == last);
            while selectors.len() > 0
                invariant
                    selectors@.len() < all.len(),
                    selectors@ == all.take(selectors@.len() as int),
                    acc == bind_all(all.subrange(selectors@.len() as int, all.len() as int)),
                decreases selectors@.len(),
            {
                let ghost n = selectors@.len() as int;
                let item = selectors.pop().unwrap();
                proof {
                    let tail = all.subrange(n, all.len() as int);
                    let more = all.subrange(n - 1, all.len() as int);
                    assert(more.drop_first() =~= tail);
                    assert(more[0] == item);
                    assert(selectors@ =~= all.take(n - 1));
                }
                acc = SpellSelector::Bind(Box::new(item), Box::new(acc));
            }
            assert(all.subrange(0, all.len() as int) =~= all);
            acc
        },
    }
}

/// The negation of a selector.
pub fn not(spell: SpellSelector) -> (r: SpellSelector)
    ensures
        r == SpellSelector::Not(Box::new(spell)),
{
    SpellSelector::Not(Box::new(spell))
}

/// The total connection with which `t` occurs in a list of targets.
pub open spec fn bag_weight(bag: Seq<SpellTarget>, t: Object) -> int
    decreases bag.len(),
{
    if bag.len() == 0 {
        0
    } else {
        bag_weight(bag.drop_last(), t) + (if bag.last().target == t {
            bag.last().connection as int
        } else {
            0
        })
    }
}

/// The sum, over a list of targets, of each connection times the weight
/// of the pair from that target to `t` in `r`.
pub open spec fn chain_weight(bag: Seq<SpellTarget>, r: Relation, t: Object) -> int
    decreases bag.len(),
{
    if bag.len() == 0 {
        0
    } else {
        chain_weight(bag.drop_last(), r, t) + bag.last().connection * weight(
            r,
            bag.last().target,
            t,
        )
    }
}

proof fn lemma_bag_weight_concat(a: Seq<SpellTarget>, b: Seq<SpellTarget>, t: Object)
    ensures
        bag_weight(a + b, t) == bag_weight(a, t) + bag_weight(b, t),
    decreases b.len(),
{
    if b.len() == 0 {
        assert(a + b =~= a);
    } else {
        assert((a + b).drop_last() =~= a + b.drop_last());
        assert((a + b).last() == b.last());
        lemma_bag_weight_concat(a, b.drop_last(), t);
    }
}

/// The weight of a target in a list is never negative, and at least the
/// connection of each entry for that target.
pub proof fn lemma_bag_weight_bounds(bag: Seq<SpellTarget>, t: Object)
    ensures
        0 <= bag_weight(bag, t),
        forall|i: int| 0 <= i < bag.len() && bag[i].target == t ==> bag_weight(bag, t) >= bag[i].connection,
    decreases bag.len(),
{
    if bag.len() > 0 {
        lemma_bag_weight_bounds(bag.drop_last(), t);
        assert forall|i: int| 0 <= i < bag.len() && bag[i].target == t implies bag_weight(bag, t)
            >= bag[i].connection by {
            if i < bag.len() - 1 {
                assert(bag.drop_last()[i] == bag[i]);
            }
        }
    }
}

/// A list of distinct objects, each with connection one, weighs one at
/// its members and zero elsewhere.
proof fn lemma_bag_distinct(objects: Seq<Object>, bag: Seq<SpellTarget>, t: Object)
    requires
        objects.no_duplicates(),
        bag.len() == objects.len(),
        forall|i: int| 0 <= i < bag.len() ==> #[trigger] bag[i] == (SpellTarget { target: objects[i], connection: 1 }),
    ensures
        bag_weight(bag, t) == (if objects.contains(t) {
            1int
        } else {
            0int
        }),
    decreases bag.len(),
{
    if bag.len() > 0 {
        let rest = objects.drop_last();
        let n = bag.len() - 1;
        assert forall|i: int| 0 <= i < n implies #[trigger] bag.drop_last()[i] == (SpellTarget {
            target: rest[i],
            connection: 1,
        }) by {
            assert(bag.drop_last()[i] == bag[i]);
        }
        lemma_bag_distinct(rest, bag.drop_last(), t);
        assert(bag.last() == bag[n]);
        assert(objects[n] == bag[n].target);
        if rest.contains(t) {
            let i = choose|i: int| 0 <= i < rest.len() && rest[i] == t;
            assert(objects[i] == t);
            assert(objects[n] != objects[i]);
        } else if objects.contains(t) {
            let i = choose|i: int| 0 <= i < objects.len() && objects[i] == t;
            if i < n {
                assert(rest[i] == t);
            }
        }
    }
}

/// Chaining a list of targets through `r` is the product of the list's
/// weights with `r`.
proof fn lemma_chain_weight(bag: Seq<SpellTarget>, r: Relation, t: Object)
    ensures
        chain_weight(bag, r, t) == sum_objects(|m: Object| bag_weight(bag, m) * weight(r, m, t)),
    decreases bag.len(),
{
    let n = crate::object::object_key_count();
    let f = |m: Object| bag_weight(bag, m) * weight(r, m, t);
    if bag.len() == 0 {
        assert forall|m: Object| #[trigger] f(m) == 0 by {}
        lemma_sum_zero(n, f);
    } else {
        let e = bag.last();
        let rest = bag.drop_last();
        let f_rest = |m: Object| bag_weight(rest, m) * weight(r, m, t);
        let point = |m: Object|
            if m == e.target {
                e.connection * weight(r, m, t)
            } else {
                0int
            };
        let zero = |m: Object| 0int;
        lemma_chain_weight(rest, r, t);
        assert forall|m: Object| #[trigger] f(m) == 1 * f_rest(m) + 1 * point(m) by {
            let b = bag_weight(rest, m);
            let w = weight(r, m, t);
            let c = e.connection as int;
            if m == e.target {
                assert((b + c) * w == b * w + c * w) by (nonlinear_arith);
            }
        }
        lemma_sum_linear(n, f_rest, point, 1, 1, f);
        lemma_sum_point(n, point, zero, e.target);
        lemma_sum_zero(n, zero);
        crate::object::lemma_object_key(e.target);
    }
}

impl SpellSelector {
    /// Evaluates the selector at one source: the targets that it selects,
    /// each with connection one and as often as there are ways to reach it.
    /// For every target, the entries of the list add up to the weight of the
    /// pair from the source to that target in the relation that the selector
    /// denotes.
    pub fn select(&self, info: &WorldInfo, target: Object) -> (out: Vec<SpellTarget>)
        requires
            info.wf(),
        ensures
            forall|t: Object|
                #[trigger] bag_weight(out@, t) == weight(select_relation(*self, *info), target, t),
            forall|i: int| 0 <= i < out@.len() ==> (#[trigger] out@[i]).connection == 1,
        decreases self, 0nat,
    {
        let mut out: Vec<SpellTarget> = Vec::new();
        match self {
            SpellSelector::Identity => {
                if info.contains_object(target) {
                    out.push(SpellTarget::new(target));
                    proof {
                        assert forall|t: Object|
                            #[trigger] bag_weight(out@, t) == (if t == target {
                                1int
                            } else {
                                0int
                            }) by {
                            assert(out@.drop_last() =~= Seq::<SpellTarget>::empty());
                            assert(bag_weight(out@.drop_last(), t) == 0);
                        }
                    }
                }
            },
            SpellSelector::Adjacent => {
                let near = info.adjacent(target);
                let mut i: usize = 0;
                while i < near.len()
                    invariant
                        i <= near@.len(),
                        out@.len() == i,
                        forall|j: int|
                            0 <= j < i ==> #[trigger] out@[j] == (SpellTarget {
                                target: near@[j],
                                connection: 1,
                            }),
                    decreases near@.len() - i,
                {
                    out.push(SpellTarget::new(near[i]));
                    i = i + 1;
                }
                proof {
                    assert forall|t: Object|
                        #[trigger] bag_weight(out@, t) == weight(
                            select_relation(*self, *info),
                            target,
                            t,
                        ) by {
                        lemma_bag_distinct(near@, out@, t);
                    }
                }
            },
            SpellSelector::Is(property) => {
                if info.contains_object(target) && info.has(target, *property) {
                    out.push(SpellTarget::new(target));
                    proof {
                        assert forall|t: Object|
                            #[trigger] bag_weight(out@, t) == (if t == target {
                                1int
                            } else {
                                0int
                            }) by {
                            assert(out@.drop_last() =~= Seq::<SpellTarget>::empty());
                            assert(bag_weight(out@.drop_last(), t) == 0);
                        }
                    }
                }
            },
            SpellSelector::Not(selector) => {
                let inner = selector.select(info, target);
                let ghost denied = select_relation(**selector, *info);
                proof {
                    if inner@.len() > 0 {
                        lemma_bag_weight_bounds(inner@, inner@[0].target);
                        assert(weight(denied, target, inner@[0].target) != 0);
                    } else {
                        assert forall|t: Object| #[trigger] weight(denied, target, t) == 0 by {
                            assert(bag_weight(inner@, t) == 0);
                        }
                    }
                }
                if inner.len() == 0 && info.contains_object(target) {
                    out.push(SpellTarget::new(target));
                    proof {
                        assert forall|t: Object|
                            #[trigger] bag_weight(out@, t) == (if t == target {
                                1int
                            } else {
                                0int
                            }) by {
                            assert(out@.drop_last() =~= Seq::<SpellTarget>::empty());
                            assert(bag_weight(out@.drop_last(), t) == 0);
                        }
                    }
                }
            },
            SpellSelector::Bind(left, right) => {
                let first = left.select(info, target);
                let ghost lr = select_relation(**left, *info);
                let ghost rr = select_relation(**right, *info);
                out = right.select_each(info, &first);
                proof {
                    assert forall|t: Object|
                        #[trigger] bag_weight(out@, t) == weight(
                            select_relation(*self, *info),
                            target,
                            t,
                        ) by {
                        lemma_chain_weight(first@, rr, t);
                        let f = |m: Object| bag_weight(first@, m) * weight(rr, m, t);
                        let g = |m: Object| weight(lr, target, m) * weight(rr, m, t);
                        assert forall|m: Object| #[trigger] f(m) == g(m) by {
                            assert(bag_weight(first@, m) == weight(lr, target, m));
                        }
                        crate::relation::lemma_sum_ext(crate::object::object_key_count(), f, g);
                    }
                }
            },
        }
        out
    }

    /// Evaluates the selector at each target of a list in turn and joins
    /// the results.
    fn select_each(&self, info: &WorldInfo, first: &Vec<SpellTarget>) -> (out: Vec<SpellTarget>)
        requires
            info.wf(),
            forall|j: int| 0 <= j < first@.len() ==> (#[trigger] first@[j]).connection == 1,
        ensures
            forall|t: Object|
                #[trigger] bag_weight(out@, t) == chain_weight(
                    first@,
                    select_relation(*self, *info),
                    t,
                ),
            forall|i: int| 0 <= i < out@.len() ==> (#[trigger] out@[i]).connection == 1,
        decreases self, 1nat,
    {
        let ghost rr = select_relation(*self, *info);
        let mut out: Vec<SpellTarget> = Vec::new();
        let mut i: usize = 0;
        while i < first.len()
            invariant
                i <= first@.len(),
                info.wf(),
                rr == select_relation(*self, *info),
                forall|j: int| 0 <= j < first@.len() ==> (#[trigger] first@[j]).connection == 1,
                forall|j: int| 0 <= j < out@.len() ==> (#[trigger] out@[j]).connection == 1,
                forall|t: Object|
                    #[trigger] bag_weight(out@, t) == chain_weight(first@.take(i as int), rr, t),
            decreases first@.len() - i,
        {
            let second = self.select(info, first[i].target);
            let ghost before = out@;
            let mut k: usize = 0;
            while k < second.len()
                invariant
                    k <= second@.len(),
                    out@ == before + second@.take(k as int),
                decreases second@.len() - k,
            {
                out.push(second[k]);
                proof {
                    assert(second@.take(k + 1) =~= second@.take(k as int).push(second@[k as int]));
                }
                k = k + 1;
            }
            proof {
                assert(second@.take(second@.len() as int) =~= second@);
                assert(first@.take(i + 1).drop_last() =~= first@.take(i as int));
                assert(first@.take(i + 1).last() == first@[i as int]);
                assert forall|t: Object|
                    #[trigger] bag_weight(out@, t) == chain_weight(first@.take(i + 1), rr, t) by {
                    lemma_bag_weight_concat(before, second@, t);
                    assert(bag_weight(before, t) == chain_weight(first@.take(i as int), rr, t));
                    assert(bag_weight(second@, t) == weight(rr, first@[i as int].target, t));
                }
            }
            i = i + 1;
        }
        proof {
            assert(first@.take(first@.len() as int) =~= first@);
        }
        out
    }

    /// Evaluates the selector at a selected target: the results of
    /// [`SpellSelector::select`], each carrying the connection that the
    /// target came with.
    pub fn select_spell(&self, info: &WorldInfo, spell_target: SpellTarget) -> (out: Vec<SpellTarget>)
        requires
            info.wf(),
        ensures
            forall|t: Object|
                #[trigger] bag_weight(out@, t) == spell_target.connection * weight(
                    select_relation(*self, *info),
                    spell_target.target,
                    t,
                ),
            forall|i: int|
                0 <= i < out@.len() ==> (#[trigger] out@[i]).connection == spell_target.connection,
    {
        let found = self.select(info, spell_target.target);
        let mut out: Vec<SpellTarget> = Vec::new();
        let mut i: usize = 0;
        while i < found.len()
            invariant
                i <= found@.len(),
                out@.len() == i,
                forall|j: int| 0 <= j < found@.len() ==> (#[trigger] found@[j]).connection == 1,
                forall|j: int|
                    0 <= j < i ==> #[trigger] out@[j] == (SpellTarget {
                        target: found@[j].target,
                        connection: spell_target.connection,
                    }),
            decreases found@.len() - i,
        {
            let result = found[i];
            out.push(
                SpellTarget {
                    target: result.target,
                    connection: spell_target.connection * result.connection,
                },
            );
            i = i + 1;
        }
        proof {
            assert forall|t: Object|
                #[trigger] bag_weight(out@, t) == spell_target.connection * weight(
                    select_relation(*self, *info),
                    spell_target.target,
                    t,
                ) by {
                lemma_bag_scaled(found@, out@, spell_target.connection as int, t);
            }
        }
        out
    }
}

proof fn lemma_bag_scaled(found: Seq<SpellTarget>, out: Seq<SpellTarget>, c: int, t: Object)
    requires
        out.len() == found.len(),
        forall|j: int| 0 <= j < found.len() ==> (#[trigger] found[j]).connection == 1,
        forall|j: int|
            0 <= j < out.len() ==> (#[trigger] out[j]).target == found[j].target && out[j].connection
                == c,
    ensures
        bag_weight(out, t) == c * bag_weight(found, t),
    decreases found.len(),
{
    if found.len() > 0 {
        let n = found.len() - 1;
        assert forall|j: int| 0 <= j < n implies (#[trigger] out.drop_last()[j]).target
            == found.drop_last()[j].target && out.drop_last()[j].connection == c by {
            assert(out.drop_last()[j] == out[j]);
            assert(found.drop_last()[j] == found[j]);
        }
        assert forall|j: int| 0 <= j < n implies (#[trigger] found.drop_last()[j]).connection
            == 1 by {
            assert(found.drop_last()[j] == found[j]);
        }
        lemma_bag_scaled(found.drop_last(), out.drop_last(), c, t);
        assert(out.last() == out[n]);
        assert(found.last() == found[n]);
        let b = bag_weight(found.drop_last(), t);
        assert(c * (b + 1) == c * b + c) by (nonlinear_arith);
    }
}

/// One step of what a rule does to a selected object.
#[derive(Copy, Clone, Debug, PartialEq, Eq, Structural)]
pub enum SpellEffect {
    /// Creates a new entity by the target; later effects apply to it.
    Summon,
    /// Makes the property hold of the target.
    Add(Property),
    /// Makes the property cease to hold of the target.
    Remove(Property),
    /// Makes the property hold of the target.
    Send(Property),
    /// Makes the property cease to hold of the target.
    Receive(Property),
}

/// Whether an effect names only materials of the catalog.
pub open spec fn effect_ok(e: SpellEffect) -> bool {
    match e {
        SpellEffect::Add(Property::Material(id)) => id < MATERIAL_COUNT,
        SpellEffect::Send(Property::Material(id)) => id < MATERIAL_COUNT,
        _ => true,
    }
}

/// A selected target together with the effects to apply to it.
#[derive(Debug)]
pub struct SpellResult<'a> {
    pub target: SpellTarget,
    pub effects: &'a Vec<SpellEffect>,
}

/// A chain of selectors that ends in a list of effects.
#[derive(Debug)]
pub enum Spell {
    Effects(Vec<SpellEffect>),
    Select(SpellSelector, Box<Spell>),
}

/// The effects at the end of a spell.
pub open spec fn spell_effects(spell: Spell) -> Seq<SpellEffect>
    decreases spell,
{
    match spell {
        Spell::Effects(effects) => effects@,
        Spell::Select(_, rest) => spell_effects(*rest),
    }
}

/// The selector that a spell's chain of selectors amounts to.
pub open spec fn spell_selector(spell: Spell) -> SpellSelector
    decreases spell,
{
    match spell {
        Spell::Effects(_) => SpellSelector::Identity,
        Spell::Select(selector, rest) => match *rest {
            Spell::Effects(_) => selector,
            _ => SpellSelector::Bind(Box::new(selector), Box::new(spell_selector(*rest))),
        },
    }
}

/// The relation from a source to the targets that a spell reaches: every
/// object is related to itself by the empty chain, and a selector in front
/// of a chain composes with it.
pub open spec fn spell_relation(spell: Spell, info: WorldInfo) -> Relation
    decreases spell,
{
    match spell {
        Spell::Effects(_) => relation_of(
            |s: Object, t: Object|
                if s == t {
                    1int
                } else {
                    0int
                },
        ),
        Spell::Select(selector, rest) => product(
            select_relation(selector, info),
            spell_relation(*rest, info),
        ),
    }
}

/// The targets of a list of results.
pub open spec fn result_targets(results: Seq<SpellResult>) -> Seq<SpellTarget> {
    Seq::new(results.len(), |i: int| results[i].target)
}

impl Spell {
    /// Whether every effect names only materials of the catalog.
    pub open spec fn wf(&self) -> bool {
        forall|i: int|
            0 <= i < spell_effects(*self).len() ==> effect_ok(#[trigger] spell_effects(*self)[i])
    }

    /// The effects at the end of the spell.
    pub fn effects(&self) -> (r: &Vec<SpellEffect>)
        ensures
            r@ == spell_effects(*self),
        decreases self,
    {
        match self {
            Spell::Effects(effects) => effects,
            Spell::Select(_, rest) => rest.effects(),
        }
    }

    /// The selector that the spell's chain of selectors amounts to.
    pub fn selector(&self) -> (r: SpellSelector)
        ensures
            r == spell_selector(*self),
        decreases self,
    {
        match self {
            Spell::Effects(_) => SpellSelector::Identity,
            Spell::Select(selector, rest) => match **rest {
                Spell::Effects(_) => selector.duplicate(),
                _ => SpellSelector::Bind(Box::new(selector.duplicate()), Box::new(rest.selector())),
            },
        }
    }

    /// Casts the spell from a target: follows the chain of selectors and
    /// lists each object reached, as often as there are ways to reach it,
    /// with the spell's effects. For every object, the connections of its
    /// entries add up to the connection of the start times the weight of the
    /// pair from the start to that object in the spell's relation.
    pub fn cast<'a>(&'a self, info: &WorldInfo, target: SpellTarget) -> (out: Vec<SpellResult<'a>>)
        requires
            info.wf(),
        ensures
            forall|i: int| 0 <= i < out@.len() ==> (#[trigger] out@[i]).effects@ == spell_effects(*self),
            forall|i: int|
                0 <= i < out@.len() ==> (#[trigger] out@[i]).target.connection == target.connection,
            forall|t: Object|
                #[trigger] bag_weight(result_targets(out@), t) == target.connection * weight(
                    spell_relation(*self, *info),
                    target.target,
                    t,
                ),
        decreases self, 0nat,
    {
        match self {
            Spell::Effects(effects) => {
                let mut out: Vec<SpellResult<'a>> = Vec::new();
                out.push(SpellResult { target, effects });
                proof {
                    let bag = result_targets(out@);
                    assert forall|t: Object|
                        #[trigger] bag_weight(bag, t) == target.connection * weight(
                            spell_relation(*self, *info),
                            target.target,
                            t,
                        ) by {
                        assert(bag.drop_last() =~= Seq::<SpellTarget>::empty());
                        assert(bag_weight(bag.drop_last(), t) == 0);
                        assert(bag.last() == target);
                    }
                }
                out
            },
            Spell::Select(selector, spell) => Spell::cast_select(info, target, selector, spell),
        }
    }

    /// Casts `spell` from each object that `selector` selects at `target`.
    pub fn cast_select<'a>(
        info: &WorldInfo,
        target: SpellTarget,
        selector: &SpellSelector,
        spell: &'a Box<Spell>,
    ) -> (out: Vec<SpellResult<'a>>)
        requires
            info.wf(),
        ensures
            forall|i: int| 0 <= i < out@.len() ==> (#[trigger] out@[i]).effects@ == spell_effects(**spell),
            forall|i: int|
                0 <= i < out@.len() ==> (#[trigger] out@[i]).target.connection == target.connection,
            forall|t: Object|
                #[trigger] bag_weight(result_targets(out@), t) == target.connection * weight(
                    product(select_relation(*selector, *info), spell_relation(**spell, *info)),
                    target.target,
                    t,
                ),
        decreases **spell, 1nat,
    {
        let found = selector.select_spell(info, target);
        let ghost sr = select_relation(*selector, *info);
        let ghost rr = spell_relation(**spell, *info);
        let ghost c = target.connection as int;
        let mut out: Vec<SpellResult<'a>> = Vec::new();
        let mut i: usize = 0;
        while i < found.len()
            invariant
                i <= found@.len(),
                info.wf(),
                rr == spell_relation(**spell, *info),
                c == target.connection,
                forall|j: int| 0 <= j < found@.len() ==> (#[trigger] found@[j]).connection == c,
                forall|j: int| 0 <= j < out@.len() ==> (#[trigger] out@[j]).effects@ == spell_effects(**spell),
                forall|j: int| 0 <= j < out@.len() ==> (#[trigger] out@[j]).target.connection == c,
                forall|t: Object|
                    #[trigger] bag_weight(result_targets(out@), t) == chain_weight(
                        found@.take(i as int),
                        rr,
                        t,
                    ),
            decreases found@.len() - i,
        {
            let mut more = spell.cast(info, found[i]);
            let ghost before = out@;
            let ghost added = more@;
            out.append(&mut more);
            proof {
                assert(out@ == before + added);
                assert(result_targets(out@) =~= result_targets(before) + result_targets(added));
                assert(found@.take(i + 1).drop_last() =~= found@.take(i as int));
                assert(found@.take(i + 1).last() == found@[i as int]);
                assert forall|t: Object|
                    #[trigger] bag_weight(result_targets(out@), t) == chain_weight(
                        found@.take(i + 1),
                        rr,
                        t,
                    ) by {
                    lemma_bag_weight_concat(result_targets(before), result_targets(added), t);
                    assert(bag_weight(result_targets(before), t) == chain_weight(
                        found@.take(i as int),
                        rr,
                        t,
                    ));
                    assert(bag_weight(result_targets(added), t) == found@[i as int].connection
                        * weight(rr, found@[i as int].target, t));
                }
            }
            i = i + 1;
        }
        proof {
            assert(found@.take(found@.len() as int) =~= found@);
            let n = crate::object::object_key_count();
            assert forall|t: Object|
                #[trigger] bag_weight(result_targets(out@), t) == c * weight(
                    product(sr, rr),
                    target.target,
                    t,
                ) by {
                lemma_chain_weight(found@, rr, t);
                let f = |m: Object| bag_weight(found@, m) * weight(rr, m, t);
                let g = |m: Object| weight(sr, target.target, m) * weight(rr, m, t);
                let zero = |m: Object| 0int;
                assert forall|m: Object| #[trigger] f(m) == c * g(m) + 0 * zero(m) by {
                    assert(bag_weight(found@, m) == c * weight(sr, target.target, m));
                    assert(c * weight(sr, target.target, m) * weight(rr, m, t) == c * (weight(
                        sr,
                        target.target,
                        m,
                    ) * weight(rr, m, t))) by (nonlinear_arith);
                }
                lemma_sum_linear(n, g, zero, c, 0, f);
            }
        }
        out
    }
}

/// A spell from a list of selectors and a list of effects. Without
/// selectors the spell is its effects alone.
pub fn basic(selectors: Vec<SpellSelector>, effects: Vec<SpellEffect>) -> (spell: Spell)
    ensures
        spell == (if selectors@.len() > 0 {
            Spell::Select(bind_all(selectors@), Box::new(Spell::Effects(effects)))
        } else {
            Spell::Effects(effects)
        }),
        spell_effects(spell) == effects@,
        spell_selector(spell) == bind_all(selectors@),
{
    proof {
        reveal_with_fuel(spell_effects, 2);
        reveal_with_fuel(spell_selector, 2);
    }
    let effects = Spell::Effects(effects);
    if selectors.len() > 0 {
        Spell::Select(bind(selectors), Box::new(effects))
    } else {
        effects
    }
}

/// How often a rule fires.
#[derive(Copy, Clone, Debug, PartialEq, Eq, Structural)]
pub enum Rate {
    /// Every candidate fires.
    Always,
    /// A candidate of weight one fires this many times in a million.
    PerMillion(u32),
}

/// A named, rate-scaled transformation.
#[derive(Debug)]
pub struct SpellRule {
    pub name: &'static str,
    pub rate: Rate,
    pub spell: Spell,
}

/// What a rule table says of one rule: its rate, its selectors in order,
/// and its one effect.
pub struct RuleEntry {
    pub rate: Rate,
    pub selectors: Seq<SpellSelector>,
    pub effect: SpellEffect,
}

/// Whether a rule is the one that a table entry describes.
pub open spec fn follows(rule: SpellRule, entry: RuleEntry) -> bool {
    &&& rule.rate == entry.rate
    &&& spell_selector(rule.spell) == bind_all(entry.selectors)
    &&& spell_effects(rule.spell) == seq![entry.effect]
}

/// The selector that tests for a material.
pub open spec fn of_material(id: u16) -> SpellSelector {
    SpellSelector::Is(Property::Material(id))
}

/// The selector that tests whether the source burns.
pub open spec fn burns() -> SpellSelector {
    SpellSelector::Is(Property::Dynamic(DynamicProperty::Burning))
}

/// The selector that tests whether the source does not burn.
pub open spec fn burns_not() -> SpellSelector {
    SpellSelector::Not(Box::new(burns()))
}

/// The selector that tests whether the source is an entity.
pub open spec fn entity() -> SpellSelector {
    SpellSelector::Is(Property::Static(StaticProperty::IsEntity))
}

/// The table of the rules of nature.
pub open spec fn natural_table() -> Seq<RuleEntry> {
    let burning = Property::Dynamic(DynamicProperty::Burning);
    seq![
        RuleEntry {
            rate: Rate::PerMillion(30_000),
            selectors: seq![burns(), SpellSelector::Not(Box::new(of_material(COAL)))],
            effect: SpellEffect::Receive(burning),
        },
        RuleEntry {
            rate: Rate::PerMillion(200_000),
            selectors: seq![
                burns(),
                of_material(AIR),
                SpellSelector::Adjacent,
                of_material(COAL),
                burns_not(),
            ],
            effect: SpellEffect::Send(burning),
        },
        RuleEntry {
            rate: Rate::PerMillion(10_000),
            selectors: seq![of_material(COAL), burns()],
            effect: SpellEffect::Receive(burning),
        },
        RuleEntry {
            rate: Rate::PerMillion(200_000),
            selectors: seq![of_material(COAL), burns(), SpellSelector::Adjacent, of_material(AIR)],
            effect: SpellEffect::Send(burning),
        },
        RuleEntry {
            rate: Rate::PerMillion(5_000),
            selectors: seq![of_material(COAL), burns()],
            effect: SpellEffect::Send(Property::Material(SMOKE)),
        },
        RuleEntry {
            rate: Rate::PerMillion(1_000),
            selectors: seq![of_material(SMOKE)],
            effect: SpellEffect::Send(Property::Material(AIR)),
        },
        RuleEntry {
            rate: Rate::PerMillion(20_000),
            selectors: seq![burns(), of_material(AIR), SpellSelector::Adjacent, of_material(WATER)],
            effect: SpellEffect::Send(Property::Material(STEAM)),
        },
        RuleEntry {
            rate: Rate::PerMillion(1_000),
            selectors: seq![of_material(STEAM)],
            effect: SpellEffect::Send(Property::Material(WATER)),
        },
        RuleEntry {
            rate: Rate::PerMillion(100_000),
            selectors: seq![burns(), SpellSelector::Adjacent, entity()],
            effect: SpellEffect::Send(burning),
        },
        RuleEntry {
            rate: Rate::PerMillion(100_000),
            selectors: seq![burns(), entity(), SpellSelector::Adjacent, of_material(COAL)],
            effect: SpellEffect::Send(burning),
        },
    ]
}

/// The table of the rules that a player sets off.
pub open spec fn player_table() -> Seq<RuleEntry> {
    seq![
        RuleEntry {
            rate: Rate::Always,
            selectors: seq![SpellSelector::Adjacent, of_material(AIR)],
            effect: SpellEffect::Add(Property::Material(WATER)),
        },
        RuleEntry { rate: Rate::Always, selectors: Seq::empty(), effect: SpellEffect::Summon },
        RuleEntry {
            rate: Rate::Always,
            selectors: seq![
                SpellSelector::Adjacent,
                SpellSelector::Not(Box::new(of_material(AIR))),
                SpellSelector::Adjacent,
            ],
            effect: SpellEffect::Add(Property::Material(FIRE)),
        },
    ]
}

/// Whether `rules` holds, in order, the rules that a table describes.
pub open spec fn follows_table(rules: Seq<SpellRule>, table: Seq<RuleEntry>) -> bool {
    &&& rules.len() == table.len()
    &&& forall|i: int| 0 <= i < rules.len() ==> follows(#[trigger] rules[i], table[i])
}

fn entry(name: &'static str, rate: Rate, selectors: Vec<SpellSelector>, effect: SpellEffect) -> (r:
    SpellRule)
    ensures
        follows(r, (RuleEntry { rate, selectors: selectors@, effect })),
        r.name == name,
        effect_ok(effect) ==> r.spell.wf(),
{
    let mut effects: Vec<SpellEffect> = Vec::new();
    effects.push(effect);
    assert(effects@ =~= seq![effect]);
    SpellRule { name, rate, spell: basic(selectors, effects) }
}

fn is_material(id: u16) -> (s: SpellSelector)
    ensures
        s == of_material(id),
{
    SpellSelector::Is(Property::Material(id))
}

fn is_burning() -> (s: SpellSelector)
    ensures
        s == burns(),
{
    SpellSelector::Is(Property::Dynamic(DynamicProperty::Burning))
}

fn is_entity() -> (s: SpellSelector)
    ensures
        s == entity(),
{
    SpellSelector::Is(Property::Static(StaticProperty::IsEntity))
}

/// The rules of nature: how fire spreads and dies, and how smoke and
/// steam come and go.
pub fn natural_rules() -> (rules: Vec<SpellRule>)
    ensures
        follows_table(rules@, natural_table()),
        forall|i: int| 0 <= i < rules@.len() ==> (#[trigger] rules@[i]).spell.wf(),
{
    let burning = Property::Dynamic(DynamicProperty::Burning);
    let ghost table = natural_table();
    let mut rules: Vec<SpellRule> = Vec::new();
    rules.push(
        entry(
            "Fire disappears over time",
            Rate::PerMillion(30_000),
            vec![is_burning(), not(is_material(COAL))],
            SpellEffect::Receive(burning),
        ),
    );
    assert(table[0].selectors =~= seq![burns(), SpellSelector::Not(Box::new(of_material(COAL)))]);
    rules.push(
        entry(
            "Fire makes coal start burning",
            Rate::PerMillion(200_000),
            vec![
                is_burning(),
                is_material(AIR),
                SpellSelector::Adjacent,
                is_material(COAL),
                not(is_burning()),
            ],
            SpellEffect::Send(burning),
        ),
    );
    rules.push(
        entry(
            "Coal burns out over time",
            Rate::PerMillion(10_000),
            vec![is_material(COAL), is_burning()],
            SpellEffect::Receive(burning),
        ),
    );
    rules.push(
        entry(
            "Burning coal lights the air around it on fire",
            Rate::PerMillion(200_000),
            vec![is_material(COAL), is_burning(), SpellSelector::Adjacent, is_material(AIR)],
            SpellEffect::Send(burning),
        ),
    );
    rules.push(
        entry(
            "Burning coal transforms into smoke",
            Rate::PerMillion(5_000),
            vec![is_material(COAL), is_burning()],
            SpellEffect::Send(Property::Material(SMOKE)),
        ),
    );
    rules.push(
        entry(
            "Smoke disappears over time",
            Rate::PerMillion(1_000),
            vec![is_material(SMOKE)],
            SpellEffect::Send(Property::Material(AIR)),
        ),
    );
    rules.push(
        entry(
            "Fire turns water into steam",
            Rate::PerMillion(20_000),
            vec![is_burning(), is_material(AIR), SpellSelector::Adjacent, is_material(WATER)],
            SpellEffect::Send(Property::Material(STEAM)),
        ),
    );
    rules.push(
        entry(
            "Steam transforms into water over time",
            Rate::PerMillion(1_000),
            vec![is_material(STEAM)],
            SpellEffect::Send(Property::Material(WATER)),
        ),
    );
    rules.push(
        entry(
            "Burning materials light adjacent entities on fire",
            Rate::PerMillion(100_000),
            vec![is_burning(), SpellSelector::Adjacent, is_entity()],
            SpellEffect::Send(burning),
        ),
    );
    rules.push(
        entry(
            "Burning entities light adjacent coal on fire",
            Rate::PerMillion(100_000),
            vec![is_burning(), is_entity(), SpellSelector::Adjacent, is_material(COAL)],
            SpellEffect::Send(burning),
        ),
    );
    rules
}

/// The rules that a player sets off: each fires on every candidate.
pub fn player_rules() -> (rules: Vec<SpellRule>)
    ensures
        follows_table(rules@, player_table()),
        forall|i: int| 0 <= i < rules@.len() ==> (#[trigger] rules@[i]).spell.wf(),
{
    let mut rules: Vec<SpellRule> = Vec::new();
    rules.push(
        entry(
            "Create water",
            Rate::Always,
            vec![SpellSelector::Adjacent, is_material(AIR)],
            SpellEffect::Add(Property::Material(WATER)),
        ),
    );
    rules.push(entry("Launch fireball", Rate::Always, Vec::new(), SpellEffect::Summon));
    rules.push(
        entry(
            "Fireball",
            Rate::Always,
            vec![SpellSelector::Adjacent, not(is_material(AIR)), SpellSelector::Adjacent],
            SpellEffect::Add(Property::Material(FIRE)),
        ),
    );
    rules
}

} // verus!

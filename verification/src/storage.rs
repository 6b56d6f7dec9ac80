//! Relation stores: sparse weighted digraphs over world objects, digraphs
//! that track their changes, and the manager that keeps one store per
//! selector current.

use crate::object::{lemma_object_key_injective, object_key, Object};
use crate::relation::{
    canonical, lemma_incremental_equals_batch, lemma_minus_minus, lemma_product_weight,
    lemma_relation_ext, minus, product, product_change, product_weight, weight, Relation,
};
use crate::chemistry::WorldInfo;
use crate::spells::{bag_weight, lemma_bag_weight_bounds, select_relation, SpellSelector};
use crate::toposort::{linked, sort_add_dependency, sort_insert, sort_items, sort_links, sort_new, sort_pop};
use crate::table::Table;
use vstd::prelude::*;

verus! {

struct Cell {
    target: Object,
    weight: i128,
}

struct Row {
    source: Object,
    cells: Table<Cell>,
}

/// A sparse weighted directed graph: a weight for each stored pair of
/// objects. No pair is stored with weight zero.
pub struct Digraph {
    rows: Table<Row>,
}

impl View for Digraph {
    type V = Relation;

    closed spec fn view(&self) -> Relation {
        Map::new(
            |k: (Object, Object)| self.stores(k.0, k.1),
            |k: (Object, Object)|
                self.rows@[object_key(k.0)].cells@[object_key(k.1)].weight as int,
        )
    }
}

impl Digraph {
    spec fn stores(&self, s: Object, t: Object) -> bool {
        self.rows@.contains_key(object_key(s)) && self.rows@[object_key(s)].cells@.contains_key(
            object_key(t),
        )
    }

    spec fn row_wf(row: Row, k: u128) -> bool {
        &&& row.cells.wf()
        &&& object_key(row.source) == k
        &&& forall|k2: u128| #[trigger]
            row.cells@.contains_key(k2) ==> object_key(row.cells@[k2].target) == k2
                && row.cells@[k2].weight != 0
    }

    /// The stored keys are the keys of the stored objects, and no stored
    /// weight is zero.
    pub closed spec fn wf(&self) -> bool {
        &&& self.rows.wf()
        &&& forall|k: u128| #[trigger]
            self.rows@.contains_key(k) ==> Self::row_wf(self.rows@[k], k)
    }

    /// A well-formed digraph stores no zero weight, and every weight is
    /// one that the store can hold.
    pub proof fn lemma_canonical(&self)
        requires
            self.wf(),
        ensures
            canonical(self@),
            forall|s: Object, t: Object| i128::MIN <= #[trigger] weight(self@, s, t) <= i128::MAX,
    {
        assert forall|k: (Object, Object)| self@.contains_key(k) implies #[trigger] self@[k]
            != 0 by {
            assert(self.rows@.contains_key(object_key(k.0)));
            assert(self.rows@[object_key(k.0)].cells@.contains_key(object_key(k.1)));
        }
    }

    pub fn new() -> (g: Self)
        ensures
            g.wf(),
            g@ == Map::<(Object, Object), int>::empty(),
    {
        let g = Digraph { rows: Table::new() };
        assert(g@ =~= Map::<(Object, Object), int>::empty());
        g
    }

    /// Forgets every pair.
    pub fn clear(&mut self)
        ensures
            final(self).wf(),
            final(self)@ == Map::<(Object, Object), int>::empty(),
    {
        self.rows = Table::new();
        assert(self@ =~= Map::<(Object, Object), int>::empty());
    }

    /// The stored weight of a pair, if the pair is stored.
    pub fn get_option(&self, source: Object, target: Object) -> (r: Option<i128>)
        requires
            self.wf(),
        ensures
            r == (if self@.contains_key((source, target)) {
                Some(self@[(source, target)] as i128)
            } else {
                None
            }),
            r matches Some(w) ==> w == self@[(source, target)] && w != 0,
    {
        match self.rows.get(source.key()) {
            Some(row) => match row.cells.get(target.key()) {
                Some(cell) => Some(cell.weight),
                None => None,
            },
            None => None,
        }
    }

    /// The weight of a pair; zero where the pair is not stored.
    pub fn get(&self, source: Object, target: Object) -> (w: i128)
        requires
            self.wf(),
        ensures
            w == weight(self@, source, target),
    {
        match self.get_option(source, target) {
            Some(w) => w,
            None => 0,
        }
    }

    /// Stores a weight for a pair, or with `None` takes the pair out.
    /// Returns what was stored before.
    pub fn set_option(&mut self, source: Object, target: Object, value: Option<i128>) -> (prev:
        Option<i128>)
        requires
            old(self).wf(),
            value != Some(0i128),
        ensures
            final(self).wf(),
            final(self)@ == (match value {
                Some(w) => old(self)@.insert((source, target), w as int),
                None => old(self)@.remove((source, target)),
            }),
            prev == (if old(self)@.contains_key((source, target)) {
                Some(old(self)@[(source, target)] as i128)
            } else {
                None
            }),
    {
        let ks = source.key();
        let kt = target.key();
        let prev = match value {
            Some(w) => {
                let mut row = match self.rows.remove(ks) {
                    Some(r) => r,
                    None => Row { source, cells: Table::new() },
                };
                let prev = row.cells.insert(kt, Cell { target, weight: w });
                self.rows.insert(ks, row);
                match prev {
                    Some(c) => Some(c.weight),
                    None => None,
                }
            },
            None => {
                match self.rows.remove(ks) {
                    Some(r) => {
                        let mut row = r;
                        let prev = row.cells.remove(kt);
                        self.rows.insert(ks, row);
                        match prev {
                            Some(c) => Some(c.weight),
                            None => None,
                        }
                    },
                    None => None,
                }
            },
        };
        proof {
            let expected = match value {
                Some(w) => old(self)@.insert((source, target), w as int),
                None => old(self)@.remove((source, target)),
            };
            assert forall|k: (Object, Object)| final(self)@.contains_key(k)
                == expected.contains_key(k) by {
                if object_key(k.0) == ks {
                    lemma_object_key_injective(k.0, source);
                }
                if object_key(k.1) == kt {
                    lemma_object_key_injective(k.1, target);
                }
            }
            assert forall|k: (Object, Object)| final(self)@.contains_key(k) implies final(self)@[k]
                == expected[k] by {
                if object_key(k.0) == ks {
                    lemma_object_key_injective(k.0, source);
                }
                if object_key(k.1) == kt {
                    lemma_object_key_injective(k.1, target);
                }
            }
            assert(final(self)@ =~= expected);
        }
        prev
    }

    /// Stores a weight for a pair; a zero weight takes the pair out.
    pub fn set(&mut self, source: Object, target: Object, w: i128)
        requires
            old(self).wf(),
        ensures
            final(self).wf(),
            forall|s: Object, t: Object|
                #[trigger] weight(final(self)@, s, t) == (if s == source && t == target {
                    w as int
                } else {
                    weight(old(self)@, s, t)
                }),
    {
        if w == 0 {
            self.set_option(source, target, None);
        } else {
            self.set_option(source, target, Some(w));
        }
    }
}

/// The targets of a list of weighted targets.
pub open spec fn row_targets(r: Seq<(Object, i128)>) -> Seq<Object> {
    Seq::new(r.len(), |i: int| r[i].0)
}

/// Whether `r` lists the row of `s` in `rel`: every stored pair with source
/// `s` once, with its weight.
pub open spec fn lists_row(r: Seq<(Object, i128)>, rel: Relation, s: Object) -> bool {
    &&& row_targets(r).no_duplicates()
    &&& forall|i: int|
        0 <= i < r.len() ==> rel.contains_key((s, (#[trigger] r[i]).0)) && rel[(s, r[i].0)]
            == r[i].1
    &&& forall|t: Object| rel.contains_key((s, t)) ==> row_targets(r).contains(t)
}

/// The pairs of a list of weighted pairs.
pub open spec fn entry_pairs(r: Seq<(Object, Object, i128)>) -> Seq<(Object, Object)> {
    Seq::new(r.len(), |i: int| (r[i].0, r[i].1))
}

/// Whether `r` lists `rel`: every stored pair once, with its weight.
pub open spec fn lists_entries(r: Seq<(Object, Object, i128)>, rel: Relation) -> bool {
    &&& entry_pairs(r).no_duplicates()
    &&& forall|i: int|
        0 <= i < r.len() ==> rel.contains_key(((#[trigger] r[i]).0, r[i].1)) && rel[(
            r[i].0,
            r[i].1,
        )] == r[i].2
    &&& forall|k: (Object, Object)| rel.contains_key(k) ==> entry_pairs(r).contains(k)
}

impl Digraph {
    /// The stored pairs with a given source, each once, as targets with
    /// their weights.
    pub fn row(&self, source: Object) -> (r: Vec<(Object, i128)>)
        requires
            self.wf(),
        ensures
            lists_row(r@, self@, source),
    {
        let mut r: Vec<(Object, i128)> = Vec::new();
        match self.rows.get(source.key()) {
            Some(row) => {
                let n = row.cells.len();
                let mut i: usize = 0;
                proof {
                    row.cells.lemma_order();
                    assert(Self::row_wf(*row, object_key(source)));
                }
                while i < n
                    invariant
                        i <= n,
                        n == row.cells.order().len(),
                        row.cells.wf(),
                        r@.len() == i,
                        forall|j: int|
                            0 <= j < i ==> (#[trigger] r@[j]).0 == row.cells@[row.cells.order()[j]].target
                                && r@[j].1 == row.cells@[row.cells.order()[j]].weight,
                    decreases n - i,
                {
                    let cell = row.cells.value_at(i);
                    r.push((cell.target, cell.weight));
                    i = i + 1;
                }
                proof {
                    let keys = row.cells.order();
                    let ts = row_targets(r@);
                    assert forall|j: int| 0 <= j < r@.len() implies self@.contains_key(
                        (source, (#[trigger] r@[j]).0),
                    ) && self@[(source, r@[j].0)] == r@[j].1 by {
                        assert(row.cells@.contains_key(keys[j]));
                    }
                    assert forall|a: int, b: int|
                        0 <= a < ts.len() && 0 <= b < ts.len() && a != b implies ts[a] != ts[b] by {
                        assert(row.cells@.contains_key(keys[a]));
                        assert(row.cells@.contains_key(keys[b]));
                        assert(r@[a].0 == ts[a] && r@[b].0 == ts[b]);
                    }
                    assert forall|t: Object| self@.contains_key((source, t)) implies ts.contains(
                        t,
                    ) by {
                        let k = object_key(t);
                        assert(keys.contains(k));
                        let j = choose|j: int| 0 <= j < keys.len() && keys[j] == k;
                        lemma_object_key_injective(row.cells@[k].target, t);
                        assert(r@[j].0 == t);
                        assert(ts[j] == t);
                    }
                }
            },
            None => {
                assert(row_targets(r@) =~= Seq::<Object>::empty());
            },
        }
        r
    }

    /// The sources of the stored pairs, each once. A source whose pairs
    /// were all taken out may still be listed.
    pub fn sources(&self) -> (v: Vec<Object>)
        requires
            self.wf(),
        ensures
            v@.no_duplicates(),
            forall|s: Object, t: Object| self@.contains_key((s, t)) ==> v@.contains(s),
    {
        let mut v: Vec<Object> = Vec::new();
        let n = self.rows.len();
        let mut i: usize = 0;
        proof {
            self.rows.lemma_order();
        }
        while i < n
            invariant
                i <= n,
                n == self.rows.order().len(),
                self.wf(),
                v@.len() == i,
                forall|j: int| 0 <= j < i ==> #[trigger] v@[j] == self.rows@[self.rows.order()[j]].source,
            decreases n - i,
        {
            let row = self.rows.value_at(i);
            v.push(row.source);
            i = i + 1;
        }
        proof {
            let keys = self.rows.order();
            assert forall|a: int, b: int|
                0 <= a < v@.len() && 0 <= b < v@.len() && a != b implies v@[a] != v@[b] by {
                assert(self.rows@.contains_key(keys[a]));
                assert(self.rows@.contains_key(keys[b]));
            }
            assert forall|s: Object, t: Object| self@.contains_key((s, t)) implies v@.contains(
                s,
            ) by {
                let k = object_key(s);
                assert(keys.contains(k));
                let j = choose|j: int| 0 <= j < keys.len() && keys[j] == k;
                lemma_object_key_injective(self.rows@[k].source, s);
                assert(v@[j] == s);
            }
        }
        v
    }

    /// The stored pairs, each once, with their weights.
    pub fn entries(&self) -> (r: Vec<(Object, Object, i128)>)
        requires
            self.wf(),
        ensures
            lists_entries(r@, self@),
    {
        let mut r: Vec<(Object, Object, i128)> = Vec::new();
        let sources = self.sources();
        let mut i: usize = 0;
        while i < sources.len()
            invariant
                i <= sources@.len(),
                self.wf(),
                sources@.no_duplicates(),
                entry_pairs(r@).no_duplicates(),
                forall|j: int|
                    0 <= j < r@.len() ==> self@.contains_key(((#[trigger] r@[j]).0, r@[j].1))
                        && self@[(r@[j].0, r@[j].1)] == r@[j].2 && sources@.take(i as int).contains(
                        r@[j].0,
                    ),
                forall|k: (Object, Object)|
                    self@.contains_key(k) && sources@.take(i as int).contains(k.0) ==> entry_pairs(
                        r@,
                    ).contains(k),
            decreases sources@.len() - i,
        {
            let s = sources[i];
            let row = self.row(s);
            let ghost before = r@;
            let ghost done = sources@.take(i as int);
            let ghost next = sources@.take(i + 1);
            proof {
                assert(next == done.push(s));
                assert forall|o: Object| next.contains(o) <==> done.contains(o) || o == s by {
                    if done.contains(o) {
                        let j = choose|j: int| 0 <= j < done.len() && done[j] == o;
                        assert(next[j] == o);
                    }
                    if next.contains(o) {
                        let j = choose|j: int| 0 <= j < next.len() && next[j] == o;
                        if j < i {
                            assert(done[j] == o);
                        }
                    }
                    assert(next[i as int] == s);
                }
                if done.contains(s) {
                    let j = choose|j: int| 0 <= j < done.len() && done[j] == s;
                    assert(sources@[j] == sources@[i as int]);
                }
            }
            let mut j: usize = 0;
            while j < row.len()
                invariant
                    j <= row@.len(),
                    lists_row(row@, self@, s),
                    r@.len() == before.len() + j,
                    forall|a: int| 0 <= a < before.len() ==> r@[a] == before[a],
                    forall|a: int|
                        0 <= a < j ==> #[trigger] r@[before.len() + a] == (s, row@[a].0, row@[a].1),
                decreases row@.len() - j,
            {
                let (t, w) = row[j];
                r.push((s, t, w));
                j = j + 1;
            }
            proof {
                let ps = entry_pairs(r@);
                let pb = entry_pairs(before);
                let ts = row_targets(row@);
                assert forall|a: int| 0 <= a < ps.len() implies (if a < before.len() {
                    ps[a] == pb[a] && done.contains(ps[a].0)
                } else {
                    ps[a] == (s, ts[a - before.len()])
                }) by {
                    if a >= before.len() {
                        assert(r@[before.len() + (a - before.len())] == (
                            s,
                            row@[a - before.len()].0,
                            row@[a - before.len()].1,
                        ));
                    } else {
                        assert(r@[a] == before[a]);
                    }
                }
                assert forall|a: int, b: int|
                    0 <= a < ps.len() && 0 <= b < ps.len() && a != b implies ps[a] != ps[b] by {
                    if a < before.len() && b < before.len() {
                        assert(pb[a] != pb[b]);
                    } else if a >= before.len() && b >= before.len() {
                        assert(ts[a - before.len()] != ts[b - before.len()]);
                    }
                }
                assert forall|a: int| 0 <= a < r@.len() implies self@.contains_key(
                    ((#[trigger] r@[a]).0, r@[a].1),
                ) && self@[(r@[a].0, r@[a].1)] == r@[a].2 && next.contains(r@[a].0) by {
                    if a < before.len() {
                        assert(r@[a] == before[a]);
                    } else {
                        let c = a - before.len();
                        assert(r@[before.len() + c] == (s, row@[c].0, row@[c].1));
                    }
                }
                assert forall|k: (Object, Object)|
                    self@.contains_key(k) && next.contains(k.0) implies ps.contains(k) by {
                    if done.contains(k.0) {
                        assert(pb.contains(k));
                        let a = choose|a: int| 0 <= a < pb.len() && pb[a] == k;
                        assert(ps[a] == k);
                    } else {
                        assert(ts.contains(k.1));
                        let c = choose|c: int| 0 <= c < ts.len() && ts[c] == k.1;
                        assert(ps[before.len() + c] == k);
                    }
                }
            }
            i = i + 1;
        }
        proof {
            assert(sources@.take(sources@.len() as int) == sources@);
        }
        r
    }
}

/// The largest weight that a tracked relation stores: weights saturate
/// here.
pub const WEIGHT_MAX: i128 = 0x4000_0000;

/// A bound on the weights of a product of two relations whose weights are
/// at most [`WEIGHT_MAX`] in size.
pub const PRODUCT_MAX: i128 = 0x1000_0000_0000_0000_0000_0000_0000_0000;

/// Whether every weight of a relation is at most `b` in size.
pub open spec fn bounded(rel: Relation, b: int) -> bool {
    forall|s: Object, t: Object| -b <= #[trigger] weight(rel, s, t) <= b
}

impl Digraph {
    /// Adds `delta` to the weight of a pair.
    pub fn add_weight(&mut self, source: Object, target: Object, delta: i128)
        requires
            old(self).wf(),
            i128::MIN <= weight(old(self)@, source, target) + delta <= i128::MAX,
        ensures
            final(self).wf(),
            forall|s: Object, t: Object|
                #[trigger] weight(final(self)@, s, t) == (if s == source && t == target {
                    weight(old(self)@, s, t) + delta
                } else {
                    weight(old(self)@, s, t)
                }),
    {
        let w = self.get(source, target);
        self.set(source, target, w + delta);
    }
}

/// A weight brought into the range that a tracked relation stores.
pub open spec fn saturate(x: int) -> int {
    if x < 0 {
        0
    } else if x > WEIGHT_MAX {
        WEIGHT_MAX as int
    } else {
        x
    }
}

/// A relation with every weight brought into the range that a tracked
/// relation stores.
pub open spec fn saturated(r: Relation) -> Relation {
    crate::relation::relation_of(|s: Object, t: Object| saturate(weight(r, s, t)))
}

/// A relation store that tracks how it changed since its changes were
/// last cleared.
pub struct TrackingDigraph {
    current: Digraph,
    changes: Digraph,
}

impl View for TrackingDigraph {
    type V = Relation;

    /// The current relation.
    closed spec fn view(&self) -> Relation {
        self.current@
    }
}

impl TrackingDigraph {
    /// The changes: for each pair, the current weight less the weight when
    /// the changes were last cleared.
    pub closed spec fn delta(&self) -> Relation {
        self.changes@
    }

    /// The relation as it was when the changes were last cleared.
    pub open spec fn before(&self) -> Relation {
        minus(self@, self.delta())
    }

    /// Both stores are well formed, and the weights now and before lie
    /// between zero and [`WEIGHT_MAX`].
    pub closed spec fn wf(&self) -> bool {
        &&& self.current.wf()
        &&& self.changes.wf()
        &&& forall|s: Object, t: Object|
            0 <= #[trigger] weight(self.current@, s, t) <= WEIGHT_MAX
        &&& forall|s: Object, t: Object|
            0 <= weight(self.current@, s, t) - #[trigger] weight(self.changes@, s, t)
                <= WEIGHT_MAX
    }

    /// The ranges of the weights of a well-formed store.
    pub proof fn lemma_ranges(&self)
        requires
            self.wf(),
        ensures
            canonical(self@),
            canonical(self.delta()),
            forall|s: Object, t: Object| 0 <= #[trigger] weight(self@, s, t) <= WEIGHT_MAX,
            forall|s: Object, t: Object| 0 <= #[trigger] weight(self.before(), s, t) <= WEIGHT_MAX,
            bounded(self@, WEIGHT_MAX as int),
            bounded(self.delta(), WEIGHT_MAX as int),
    {
        self.current.lemma_canonical();
        self.changes.lemma_canonical();
        assert forall|s: Object, t: Object| 0 <= #[trigger] weight(self.before(), s, t)
            <= WEIGHT_MAX by {
            assert(0 <= weight(self.current@, s, t) - weight(self.changes@, s, t) <= WEIGHT_MAX);
        }
        assert forall|s: Object, t: Object| -WEIGHT_MAX <= #[trigger] weight(self.delta(), s, t)
            <= WEIGHT_MAX by {
            assert(0 <= weight(self.current@, s, t) <= WEIGHT_MAX);
            assert(0 <= weight(self.current@, s, t) - weight(self.changes@, s, t) <= WEIGHT_MAX);
        }
    }
}

impl Default for Digraph {
    fn default() -> (g: Self)
        ensures
            g.wf(),
            g@ == Map::<(Object, Object), int>::empty(),
    {
        Digraph::new()
    }
}

impl Default for TrackingDigraph {
    fn default() -> (g: Self)
        ensures
            g.wf(),
            g@ == Map::<(Object, Object), int>::empty(),
            g.delta() == Map::<(Object, Object), int>::empty(),
    {
        TrackingDigraph { current: Digraph::new(), changes: Digraph::new() }
    }
}

impl TrackingDigraph {
    /// The store of the current relation.
    pub fn current(&self) -> (g: &Digraph)
        requires
            self.wf(),
        ensures
            g.wf(),
            g@ == self@,
    {
        &self.current
    }

    /// The store of the changes.
    pub fn changes(&self) -> (g: &Digraph)
        requires
            self.wf(),
        ensures
            g.wf(),
            g@ == self.delta(),
    {
        &self.changes
    }

    /// A store of the relation as it was when the changes were last
    /// cleared.
    pub fn previous(&self) -> (g: Digraph)
        requires
            self.wf(),
        ensures
            g.wf(),
            g@ == self.before(),
    {
        proof {
            assert forall|s: Object, t: Object|
                i128::MIN < #[trigger] weight(self.changes@, s, t) && i128::MIN <= weight(
                    self.current@,
                    s,
                    t,
                ) - weight(self.changes@, s, t) <= i128::MAX by {
                assert(0 <= weight(self.current@, s, t) <= WEIGHT_MAX);
                assert(0 <= weight(self.current@, s, t) - weight(self.changes@, s, t)
                    <= WEIGHT_MAX);
            }
        }
        crate::sparse_matrices::sub(&self.current, &self.changes)
    }

    /// Forgets the changes: the relation before becomes the current one.
    pub fn clear_previous(&mut self)
        requires
            old(self).wf(),
        ensures
            final(self).wf(),
            final(self)@ == old(self)@,
            final(self).delta() == Map::<(Object, Object), int>::empty(),
    {
        self.changes.clear();
    }

    /// Adds `delta` to the weight of a pair, saturating at zero and at
    /// [`WEIGHT_MAX`], and records the change.
    pub fn update(&mut self, source: Object, target: Object, delta: i128)
        requires
            old(self).wf(),
        ensures
            final(self).wf(),
            forall|s: Object, t: Object|
                #[trigger] weight(final(self)@, s, t) == (if s == source && t == target {
                    saturate(weight(old(self)@, s, t) + delta)
                } else {
                    weight(old(self)@, s, t)
                }),
            final(self).before() == old(self).before(),
    {
        let cur = self.current.get(source, target);
        proof {
            assert(0 <= weight(self.current@, source, target) <= WEIGHT_MAX);
            assert(0 <= weight(self.current@, source, target) - weight(
                self.changes@,
                source,
                target,
            ) <= WEIGHT_MAX);
        }
        let new: i128 = if delta > WEIGHT_MAX {
            WEIGHT_MAX
        } else if delta < -WEIGHT_MAX {
            0
        } else if cur + delta < 0 {
            0
        } else if cur + delta > WEIGHT_MAX {
            WEIGHT_MAX
        } else {
            cur + delta
        };
        self.changes.add_weight(source, target, new - cur);
        self.current.set(source, target, new);
        proof {
            assert forall|s: Object, t: Object|
                0 <= weight(self.current@, s, t) - #[trigger] weight(self.changes@, s, t)
                    <= WEIGHT_MAX && weight(self.current@, s, t) - weight(self.changes@, s, t)
                    == weight(old(self).current@, s, t) - weight(old(self).changes@, s, t) by {
                assert(0 <= weight(old(self).current@, s, t) - weight(old(self).changes@, s, t)
                    <= WEIGHT_MAX);
            }
            assert forall|s: Object, t: Object| 0 <= #[trigger] weight(self.current@, s, t)
                <= WEIGHT_MAX by {
                assert(0 <= weight(old(self).current@, s, t) <= WEIGHT_MAX);
            }
            assert forall|s: Object, t: Object|
                weight(final(self).before(), s, t) == weight(old(self).before(), s, t) by {
                assert(weight(self.current@, s, t) - weight(self.changes@, s, t) == weight(
                    old(self).current@,
                    s,
                    t,
                ) - weight(old(self).changes@, s, t));
            }
            lemma_relation_ext(final(self).before(), old(self).before());
        }
    }

    /// Sets the weight of a pair to `w`, saturating at zero and at
    /// [`WEIGHT_MAX`], and records the change.
    pub fn set(&mut self, source: Object, target: Object, w: i128)
        requires
            old(self).wf(),
        ensures
            final(self).wf(),
            forall|s: Object, t: Object|
                #[trigger] weight(final(self)@, s, t) == (if s == source && t == target {
                    saturate(w as int)
                } else {
                    weight(old(self)@, s, t)
                }),
            final(self).before() == old(self).before(),
    {
        let cur = self.current.get(source, target);
        proof {
            assert(0 <= weight(self.current@, source, target) <= WEIGHT_MAX);
        }
        let goal: i128 = if w < 0 {
            0
        } else if w > WEIGHT_MAX {
            WEIGHT_MAX
        } else {
            w
        };
        self.update(source, target, goal - cur);
    }

    /// Adds the weights of `delta` to the current weights, each sum
    /// saturating at zero and at [`WEIGHT_MAX`], and records the changes.
    pub fn apply(&mut self, delta: &Digraph)
        requires
            old(self).wf(),
            delta.wf(),
        ensures
            final(self).wf(),
            forall|s: Object, t: Object|
                #[trigger] weight(final(self)@, s, t) == saturate(
                    weight(old(self)@, s, t) + weight(delta@, s, t),
                ),
            final(self).before() == old(self).before(),
    {
        let entries = delta.entries();
        let mut i: usize = 0;
        while i < entries.len()
            invariant
                i <= entries@.len(),
                self.wf(),
                lists_entries(entries@, delta@),
                self.before() == old(self).before(),
                forall|s: Object, t: Object|
                    #[trigger] weight(self@, s, t) == (if entry_pairs(entries@).take(
                        i as int,
                    ).contains((s, t)) {
                        saturate(weight(old(self)@, s, t) + weight(delta@, s, t))
                    } else {
                        weight(old(self)@, s, t)
                    }),
            decreases entries@.len() - i,
        {
            let (s, t, d) = entries[i];
            let ghost pairs = entry_pairs(entries@);
            let ghost done = pairs.take(i as int);
            let ghost next = pairs.take(i + 1);
            let ghost prior = self@;
            proof {
                assert(pairs[i as int] == (s, t));
                assert(next == done.push((s, t)));
                assert forall|p: (Object, Object)| next.contains(p) <==> done.contains(p) || p == (
                    s,
                    t,
                ) by {
                    if done.contains(p) {
                        let j = choose|j: int| 0 <= j < done.len() && done[j] == p;
                        assert(next[j] == p);
                    }
                    if next.contains(p) {
                        let j = choose|j: int| 0 <= j < next.len() && next[j] == p;
                        if j < i {
                            assert(done[j] == p);
                        }
                    }
                    assert(next[i as int] == (s, t));
                }
                if done.contains((s, t)) {
                    let j = choose|j: int| 0 <= j < done.len() && done[j] == (s, t);
                    assert(pairs[j] == pairs[i as int]);
                }
                assert(weight(delta@, s, t) == d);
                assert(weight(prior, s, t) == weight(old(self)@, s, t));
            }
            self.update(s, t, d);
            proof {
                assert forall|s2: Object, t2: Object|
                    #[trigger] weight(self@, s2, t2) == (if next.contains((s2, t2)) {
                        saturate(weight(old(self)@, s2, t2) + weight(delta@, s2, t2))
                    } else {
                        weight(old(self)@, s2, t2)
                    }) by {
                    assert(weight(prior, s2, t2) == (if done.contains((s2, t2)) {
                        saturate(weight(old(self)@, s2, t2) + weight(delta@, s2, t2))
                    } else {
                        weight(old(self)@, s2, t2)
                    }));
                    assert(next.contains((s2, t2)) <==> done.contains((s2, t2)) || (s2, t2) == (
                        s,
                        t,
                    ));
                }
            }
            i = i + 1;
        }
        proof {
            let pairs = entry_pairs(entries@);
            assert(pairs.take(entries@.len() as int) == pairs);
            old(self).lemma_ranges();
            assert forall|s: Object, t: Object|
                #[trigger] weight(self@, s, t) == saturate(
                    weight(old(self)@, s, t) + weight(delta@, s, t),
                ) by {
                if !pairs.contains((s, t)) {
                    assert(!delta@.contains_key((s, t)));
                    assert(0 <= weight(old(self)@, s, t) <= WEIGHT_MAX);
                }
            }
        }
    }
}

/// Incremental maintenance agrees with recomputation. Let a relation hold
/// the product of two factors as they were, and let it then get, pair by
/// pair, the change of the product added and the sum saturated. Then it
/// holds the product of the factors as they are, each weight saturated; and
/// it holds that product itself if no weight of it exceeds what a store
/// holds.
pub proof fn lemma_refreshed_product(
    held: Relation,
    refreshed: Relation,
    l: Relation,
    dl: Relation,
    r: Relation,
    dr: Relation,
)
    requires
        canonical(refreshed),
        held == product(minus(l, dl), minus(r, dr)),
        forall|s: Object, t: Object| 0 <= #[trigger] weight(l, s, t),
        forall|s: Object, t: Object| 0 <= #[trigger] weight(r, s, t),
        forall|s: Object, t: Object|
            #[trigger] weight(refreshed, s, t) == saturate(
                weight(held, s, t) + product_change(l, dl, r, dr, s, t),
            ),
    ensures
        refreshed == saturated(product(l, r)),
        (forall|s: Object, t: Object| #[trigger] product_weight(l, r, s, t) <= WEIGHT_MAX)
            ==> refreshed == product(l, r),
{
    assert forall|s: Object, t: Object| weight(refreshed, s, t) == weight(
        saturated(product(l, r)),
        s,
        t,
    ) by {
        lemma_incremental_equals_batch(l, dl, r, dr, s, t);
        lemma_product_weight(minus(l, dl), minus(r, dr), s, t);
        lemma_product_weight(l, r, s, t);
    }
    lemma_relation_ext(refreshed, saturated(product(l, r)));
    if forall|s: Object, t: Object| #[trigger] product_weight(l, r, s, t) <= WEIGHT_MAX {
        assert forall|s: Object, t: Object| weight(saturated(product(l, r)), s, t) == weight(
            product(l, r),
            s,
            t,
        ) by {
            lemma_product_weight(l, r, s, t);
            let f = |m: Object| weight(l, s, m) * weight(r, m, t);
            assert forall|m: Object| 0 <= #[trigger] f(m) by {
                assert(0 <= weight(l, s, m) * weight(r, m, t)) by (nonlinear_arith)
                    requires
                        0 <= weight(l, s, m),
                        0 <= weight(r, m, t),
                ;
            }
            crate::relation::lemma_sum_nonnegative(crate::object::object_key_count(), f);
            assert(product_weight(l, r, s, t) <= WEIGHT_MAX);
        }
        lemma_relation_ext(saturated(product(l, r)), product(l, r));
    }
}

/// The live relation of one selector, with the handles of the stores of
/// its operands where the selector is a `Bind`.
pub struct ReactiveStorage {
    selector: SpellSelector,
    links: Option<(usize, usize)>,
    storage: TrackingDigraph,
}

impl ReactiveStorage {
    /// The selector whose relation this is.
    pub closed spec fn selector(&self) -> SpellSelector {
        self.selector
    }

    /// The handles of the stores of the left and right operand.
    pub closed spec fn links(&self) -> Option<(usize, usize)> {
        self.links
    }

    /// The relation store.
    pub closed spec fn store(&self) -> TrackingDigraph {
        self.storage
    }

    pub open spec fn wf(&self) -> bool {
        self.store().wf()
    }

    /// The selectors of the operands of a `Bind`; no selector otherwise.
    pub open spec fn parents_of(selector: SpellSelector) -> Seq<SpellSelector> {
        match selector {
            SpellSelector::Bind(left, right) => seq![*left, *right],
            _ => Seq::empty(),
        }
    }

    /// The tracked relation store.
    pub fn storage(&self) -> (r: &TrackingDigraph)
        ensures
            *r == self.store(),
    {
        &self.storage
    }

    /// Who are my parents?
    pub fn parents(&self) -> (v: Vec<SpellSelector>)
        ensures
            v@ == Self::parents_of(self.selector()),
    {
        let mut v: Vec<SpellSelector> = Vec::new();
        match &self.selector {
            SpellSelector::Bind(left, right) => {
                v.push(left.duplicate());
                v.push(right.duplicate());
                assert(v@ =~= seq![**left, **right]);
            },
            _ => {},
        }
        v
    }

    /// The changes recorded for the pairs with a given source.
    pub fn compute_row_changes(&self, source: Object) -> (r: Vec<(Object, i128)>)
        requires
            self.wf(),
        ensures
            lists_row(r@, self.store().delta(), source),
    {
        self.storage.changes().row(source)
    }

    /// Called once per tick: updates the relation of a `Bind` from the
    /// changes of its operands. To each weight it adds the weight of the
    /// product of the left change with the right relation, plus that of the
    /// left relation with the right change, less that of the two changes,
    /// and stores the sum saturated.
    pub fn recompute_cache(&mut self, left: &ReactiveStorage, right: &ReactiveStorage)
        requires
            old(self).wf(),
            left.wf(),
            right.wf(),
        ensures
            final(self).wf(),
            final(self).selector() == old(self).selector(),
            final(self).links() == old(self).links(),
            final(self).store().before() == old(self).store().before(),
            forall|s: Object, t: Object|
                #[trigger] weight(final(self).store()@, s, t) == saturate(
                    weight(old(self).store()@, s, t) + product_change(
                        left.store()@,
                        left.store().delta(),
                        right.store()@,
                        right.store().delta(),
                        s,
                        t,
                    ),
                ),
            old(self).store()@ == product(left.store().before(), right.store().before())
                ==> final(self).store()@ == saturated(product(left.store()@, right.store()@)),
            old(self).store()@ == product(left.store().before(), right.store().before()) && (
            forall|s: Object, t: Object|
                #[trigger] product_weight(left.store()@, right.store()@, s, t) <= WEIGHT_MAX)
                ==> final(self).store()@ == product(left.store()@, right.store()@),
    {
        proof {
            left.storage.lemma_ranges();
            right.storage.lemma_ranges();
        }
        let from_left = crate::sparse_matrices::mat_mul(
            left.storage.changes(),
            right.storage.current(),
        ).unwrap();
        let from_right = crate::sparse_matrices::mat_mul(
            left.storage.current(),
            right.storage.changes(),
        ).unwrap();
        let from_both = crate::sparse_matrices::mat_mul(
            left.storage.changes(),
            right.storage.changes(),
        ).unwrap();
        let gained = crate::sparse_matrices::add(&from_left, &from_right);
        proof {
            assert forall|s: Object, t: Object|
                i128::MIN < #[trigger] weight(from_both@, s, t) && i128::MIN <= weight(gained@, s, t)
                    - weight(from_both@, s, t) <= i128::MAX by {
                assert(-PRODUCT_MAX <= weight(from_left@, s, t) <= PRODUCT_MAX);
                assert(-PRODUCT_MAX <= weight(from_right@, s, t) <= PRODUCT_MAX);
            }
        }
        let change = crate::sparse_matrices::sub(&gained, &from_both);
        self.storage.apply(&change);
        proof {
            let l = left.store()@;
            let dl = left.store().delta();
            let r = right.store()@;
            let dr = right.store().delta();
            assert forall|s: Object, t: Object|
                #[trigger] weight(final(self).store()@, s, t) == saturate(
                    weight(old(self).store()@, s, t) + product_change(l, dl, r, dr, s, t),
                ) by {
                lemma_product_weight(dl, r, s, t);
                lemma_product_weight(l, dr, s, t);
                lemma_product_weight(dl, dr, s, t);
                assert(weight(gained@, s, t) == weight(from_left@, s, t) + weight(
                    from_right@,
                    s,
                    t,
                ));
                assert(weight(change@, s, t) == weight(gained@, s, t) - weight(from_both@, s, t));
            }
            if old(self).store()@ == product(left.store().before(), right.store().before()) {
                lemma_refreshed_product(old(self).store()@, final(self).store()@, l, dl, r, dr);
                final(self).store().lemma_ranges();
            }
        }
    }
}

/// Whether `a` is `b` or an operand, at any depth, of the `Bind`s of `b`.
pub open spec fn is_part(a: SpellSelector, b: SpellSelector) -> bool
    decreases b,
{
    a == b || match b {
        SpellSelector::Bind(left, right) => is_part(a, *left) || is_part(a, *right),
        _ => false,
    }
}

/// The number of nested `Bind`s of a selector.
pub open spec fn bind_depth(a: SpellSelector) -> nat
    decreases a,
{
    match a {
        SpellSelector::Bind(left, right) => 1 + bind_depth(*left) + bind_depth(*right),
        _ => 0,
    }
}

proof fn lemma_part_depth(a: SpellSelector, b: SpellSelector)
    requires
        is_part(a, b),
    ensures
        bind_depth(a) <= bind_depth(b),
    decreases b,
{
    if a != b {
        match b {
            SpellSelector::Bind(left, right) => {
                if is_part(a, *left) {
                    lemma_part_depth(a, *left);
                } else {
                    lemma_part_depth(a, *right);
                }
            },
            _ => {},
        }
    }
}

/// Owns one relation store per selector in use, each under a handle: its
/// position in the order of registration.
pub struct StorageManager {
    storages: Vec<ReactiveStorage>,
}

impl StorageManager {
    /// The number of registered selectors.
    pub closed spec fn count(&self) -> nat {
        self.storages@.len()
    }

    /// The store under a handle.
    pub closed spec fn storage(&self, h: int) -> ReactiveStorage {
        self.storages@[h]
    }

    /// The selector under a handle.
    pub open spec fn selector(&self, h: int) -> SpellSelector {
        self.storage(h).selector()
    }

    /// The handles of the operands of the selector under a handle.
    pub open spec fn links(&self, h: int) -> Option<(usize, usize)> {
        self.storage(h).links()
    }

    /// The current relation under a handle.
    pub open spec fn relation(&self, h: int) -> Relation {
        self.storage(h).store()@
    }

    /// The changes recorded under a handle.
    pub open spec fn changes(&self, h: int) -> Relation {
        self.storage(h).store().delta()
    }

    /// The relation under a handle as it was when changes were last
    /// cleared.
    pub open spec fn before(&self, h: int) -> Relation {
        self.storage(h).store().before()
    }

    /// Whether a selector is registered.
    pub open spec fn registered(&self, selector: SpellSelector) -> bool {
        exists|h: int| 0 <= h < self.count() && #[trigger] self.selector(h) == selector
    }

    /// A `Bind` is linked to the stores of its operands, which were
    /// registered before it; no other selector is linked.
    pub open spec fn link_ok(&self, h: int) -> bool {
        match self.selector(h) {
            SpellSelector::Bind(left, right) => {
                &&& self.links(h) matches Some((hl, hr))
                &&& hl < h
                &&& hr < h
                &&& self.selector(hl as int) == *left
                &&& self.selector(hr as int) == *right
            },
            _ => self.links(h) is None,
        }
    }

    /// Every store is well formed, the links are in order, and no selector
    /// is registered twice.
    pub open spec fn wf(&self) -> bool {
        &&& forall|h: int| 0 <= h < self.count() ==> (#[trigger] self.storage(h)).wf()
        &&& forall|h: int| 0 <= h < self.count() ==> #[trigger] self.link_ok(h)
        &&& forall|a: int, b: int|
            0 <= a < b < self.count() ==> #[trigger] self.selector(a) != #[trigger] self.selector(b)
    }

    pub fn new() -> (m: StorageManager)
        ensures
            m.wf(),
            m.count() == 0,
    {
        StorageManager { storages: Vec::new() }
    }

    /// The number of registered selectors.
    pub fn len(&self) -> (n: usize)
        ensures
            n == self.count(),
    {
        self.storages.len()
    }

    /// The handle of a selector, if it is registered.
    pub fn find(&self, selector: &SpellSelector) -> (r: Option<usize>)
        ensures
            match r {
                Some(h) => h < self.count() && self.selector(h as int) == *selector,
                None => !self.registered(*selector),
            },
    {
        let mut h: usize = 0;
        while h < self.storages.len()
            invariant
                h <= self.count(),
                forall|k: int| 0 <= k < h ==> #[trigger] self.selector(k) != *selector,
            decreases self.count() - h,
        {
            if self.storages[h].selector.same(selector) {
                return Some(h);
            }
            h = h + 1;
        }
        None
    }

    /// The store under a handle.
    pub fn get(&self, handle: usize) -> (r: &ReactiveStorage)
        requires
            handle < self.count(),
        ensures
            *r == self.storage(handle as int),
    {
        &self.storages[handle]
    }

    /// The pairs of the current relation of a registered selector, each
    /// once, with their weights.
    pub fn for_each_entry(&self, handle: usize) -> (r: Vec<(Object, Object, i128)>)
        requires
            self.wf(),
            handle < self.count(),
        ensures
            lists_entries(r@, self.relation(handle as int)),
    {
        assert(self.storage(handle as int).wf());
        self.storages[handle].storage.current().entries()
    }

    /// The store of the base relation of a property: that of the selector
    /// `Is(property)`, if it is registered.
    pub fn get_prop(&self, property: crate::object::Property) -> (r: Option<&TrackingDigraph>)
        ensures
            match r {
                Some(g) => exists|h: int|
                    0 <= h < self.count() && #[trigger] self.selector(h) == SpellSelector::Is(
                        property,
                    ) && *g == self.storage(h).store(),
                None => !self.registered(SpellSelector::Is(property)),
            },
    {
        match self.find(&SpellSelector::Is(property)) {
            Some(h) => {
                assert(self.selector(h as int) == SpellSelector::Is(property));
                Some(&self.storages[h].storage)
            },
            None => None,
        }
    }

    /// Registers a selector, after its operands if it is a `Bind`, and
    /// returns its handle. A selector that is registered already keeps its
    /// handle and nothing changes. The stores registered before stay as they
    /// are; a new store starts empty.
    pub fn require(&mut self, selector: &SpellSelector) -> (handle: usize)
        requires
            old(self).wf(),
        ensures
            final(self).wf(),
            handle < final(self).count(),
            final(self).selector(handle as int) == *selector,
            old(self).count() <= final(self).count(),
            forall|h: int|
                0 <= h < old(self).count() ==> #[trigger] final(self).storage(h) == old(self).storage(
                    h,
                ),
            forall|h: int|
                old(self).count() <= h < final(self).count() ==> #[trigger] final(self).relation(h)
                    == Map::<(Object, Object), int>::empty() && final(self).changes(h) == Map::<
                    (Object, Object),
                    int,
                >::empty(),
            forall|h: int|
                old(self).count() <= h < final(self).count() ==> is_part(
                    #[trigger] final(self).selector(h),
                    *selector,
                ),
            old(self).registered(*selector) ==> *final(self) == *old(self),
        decreases *selector,
    {
        match self.find(selector) {
            Some(h) => h,
            None => {
                let links = match selector {
                    SpellSelector::Bind(left, right) => {
                        let hl = self.require(left);
                        let ghost mid = *self;
                        let hr = self.require(right);
                        proof {
                            assert(self.storage(hl as int) == mid.storage(hl as int));
                            assert forall|h: int| 0 <= h < old(self).count() implies #[trigger]
                                self.storage(h) == old(self).storage(h) by {
                                assert(mid.storage(h) == old(self).storage(h));
                            }
                            assert forall|h: int|
                                old(self).count() <= h < self.count() implies (is_part(
                                #[trigger] self.selector(h),
                                **left,
                            ) || is_part(self.selector(h), **right)) && self.relation(h) == Map::<
                                (Object, Object),
                                int,
                            >::empty() && self.changes(h) == Map::<(Object, Object), int>::empty() by {
                                if h < mid.count() {
                                    assert(self.storage(h) == mid.storage(h));
                                    assert(is_part(mid.selector(h), **left));
                                    assert(mid.relation(h) == Map::<(Object, Object), int>::empty());
                                } else {
                                    assert(is_part(self.selector(h), **right));
                                    assert(self.relation(h) == Map::<(Object, Object), int>::empty());
                                }
                            }
                        }
                        Some((hl, hr))
                    },
                    _ => None,
                };
                let ghost grown = *self;
                proof {
                    assert forall|k: int| 0 <= k < grown.count() implies #[trigger] grown.selector(k)
                        != *selector by {
                        if k < old(self).count() {
                            assert(grown.storage(k) == old(self).storage(k));
                            assert(old(self).selector(k) != *selector);
                        } else {
                            match *selector {
                                SpellSelector::Bind(left, right) => {
                                    assert(is_part(grown.selector(k), *left) || is_part(
                                        grown.selector(k),
                                        *right,
                                    ));
                                    if is_part(grown.selector(k), *left) {
                                        lemma_part_depth(grown.selector(k), *left);
                                    } else {
                                        lemma_part_depth(grown.selector(k), *right);
                                    }
                                },
                                _ => {},
                            }
                        }
                    }
                }
                let handle = self.storages.len();
                let fresh = ReactiveStorage {
                    selector: selector.duplicate(),
                    links,
                    storage: TrackingDigraph::default(),
                };
                let ghost added = fresh;
                self.storages.push(fresh);
                proof {
                    assert(self.storage(handle as int) == added);
                    assert(added.store()@ == Map::<(Object, Object), int>::empty());
                    assert(added.store().delta() == Map::<(Object, Object), int>::empty());
                    assert(added.selector() == *selector);
                    assert(added.links() == links);
                    assert forall|h: int| 0 <= h < grown.count() implies #[trigger] self.storage(h)
                        == grown.storage(h) by {}
                    assert forall|h: int| 0 <= h < self.count() implies #[trigger] self.link_ok(h) by {
                        if h < grown.count() {
                            assert(grown.link_ok(h));
                            assert(self.storage(h) == grown.storage(h));
                            match grown.links(h) {
                                Some((a, b)) => {
                                    assert(self.storage(a as int) == grown.storage(a as int));
                                    assert(self.storage(b as int) == grown.storage(b as int));
                                },
                                None => {},
                            }
                        }
                    }
                    assert forall|a: int, b: int| 0 <= a < b < self.count() implies #[trigger]
                        self.selector(a) != #[trigger] self.selector(b) by {
                        assert(self.storage(a) == grown.storage(a));
                        if b < grown.count() {
                            assert(self.storage(b) == grown.storage(b));
                            assert(grown.selector(a) != grown.selector(b));
                        } else {
                            assert(grown.selector(a) != *selector);
                        }
                    }
                    assert forall|h: int| 0 <= h < self.count() implies (#[trigger] self.storage(
                        h,
                    )).wf() by {
                        if h < grown.count() {
                            assert(self.storage(h) == grown.storage(h));
                            assert(grown.storage(h).wf());
                        }
                    }
                    assert forall|h: int| old(self).count() <= h < self.count() implies is_part(
                        #[trigger] self.selector(h),
                        *selector,
                    ) by {
                        if h < grown.count() {
                            assert(self.storage(h) == grown.storage(h));
                            match *selector {
                                SpellSelector::Bind(left, right) => {
                                    assert(is_part(grown.selector(h), *left) || is_part(
                                        grown.selector(h),
                                        *right,
                                    ));
                                },
                                _ => {},
                            }
                        }
                    }
                    assert forall|h: int|
                        old(self).count() <= h < self.count() implies #[trigger] self.relation(h)
                        == Map::<(Object, Object), int>::empty() && self.changes(h) == Map::<
                        (Object, Object),
                        int,
                    >::empty() by {
                        if h < grown.count() {
                            assert(self.storage(h) == grown.storage(h));
                            match *selector {
                                SpellSelector::Bind(left, right) => {
                                    assert(is_part(grown.selector(h), *left) || is_part(
                                        grown.selector(h),
                                        *right,
                                    ));
                                },
                                _ => {},
                            }
                        }
                    }
                }
                handle
            },
        }
    }
}

/// While every item that a sort holds depends on another one, and links
/// only lead from smaller to larger items, the sort holds no item at all.
proof fn lemma_none_blocked(ts: topological_sort::TopologicalSort<u64>, k: nat)
    requires
        forall|x: u64| #[trigger]
            sort_items(ts).contains(x) ==> exists|p: u64|
                sort_items(ts).contains(p) && #[trigger] linked(ts, p, x),
        forall|p: u64, x: u64| #[trigger] linked(ts, p, x) ==> p < x,
    ensures
        forall|x: u64| x < k ==> !sort_items(ts).contains(x),
    decreases k,
{
    if k > 0 {
        lemma_none_blocked(ts, (k - 1) as nat);
        if k - 1 <= u64::MAX {
            let x = (k - 1) as u64;
            if sort_items(ts).contains(x) {
                let p = choose|p: u64| sort_items(ts).contains(p) && #[trigger] linked(ts, p, x);
                assert(p < x);
            }
        }
    }
}

impl StorageManager {
    /// Whether the store under `p` is an operand of the `Bind` under `c`.
    pub open spec fn feeds(&self, p: int, c: int) -> bool {
        &&& 0 <= c < self.count()
        &&& self.links(c) matches Some((l, r))
        &&& (p == l || p == r)
    }

    /// Whether `order` lists every handle once, each `Bind` after its
    /// operands.
    pub open spec fn is_schedule(&self, order: Seq<usize>) -> bool {
        &&& order.no_duplicates()
        &&& forall|i: int| 0 <= i < order.len() ==> #[trigger] order[i] < self.count()
        &&& forall|h: usize| h < self.count() ==> order.contains(h)
        &&& forall|i: int, p: int|
            0 <= i < order.len() && #[trigger] self.feeds(p, order[i] as int) ==> exists|j: int|
                0 <= j < i && #[trigger] order[j] == p
    }

    /// An order in which to refresh the stores: every handle once, each
    /// `Bind` after its operands. Which of several such orders is returned
    /// is not determined.
    pub fn schedule(&self) -> (order: Vec<usize>)
        requires
            self.wf(),
        ensures
            self.is_schedule(order@),
    {
        let n = self.storages.len();
        let mut ts = sort_new();
        let mut h: usize = 0;
        while h < n
            invariant
                h <= n,
                n == self.count(),
                self.wf(),
                sort_items(ts) =~= Set::new(|x: u64| x < h),
                sort_links(ts) =~= Set::new(
                    |k: (u64, u64)| k.1 < h && self.feeds(k.0 as int, k.1 as int),
                ),
                sort_items(ts).finite(),
            decreases n - h,
        {
            proof {
                assert(self.link_ok(h as int));
            }
            sort_insert(&mut ts, h as u64);
            match self.storages[h].links {
                Some((l, r)) => {
                    sort_add_dependency(&mut ts, l as u64, h as u64);
                    sort_add_dependency(&mut ts, r as u64, h as u64);
                },
                None => {},
            }
            h = h + 1;
        }
        let mut order: Vec<usize> = Vec::new();
        let mut blocked = false;
        proof {
            assert forall|p: u64, c: u64|
                #[trigger] linked(ts, p, c) <==> (c < n && self.feeds(p as int, c as int)
                    && sort_items(ts).contains(p)) by {
                if c < n && self.feeds(p as int, c as int) {
                    assert(self.link_ok(c as int));
                }
            }
        }
        while !blocked
            invariant
                n == self.count(),
                self.wf(),
                sort_items(ts).finite(),
                forall|x: u64| sort_items(ts).contains(x) ==> x < n,
                forall|x: usize| x < n ==> (sort_items(ts).contains(x as u64) <==> !order@.contains(x)),
                order@.no_duplicates(),
                forall|i: int| 0 <= i < order@.len() ==> #[trigger] order@[i] < n,
                forall|p: u64, c: u64|
                    #[trigger] linked(ts, p, c) <==> (c < n && self.feeds(p as int, c as int)
                        && sort_items(ts).contains(p)),
                forall|i: int, p: int|
                    0 <= i < order@.len() && #[trigger] self.feeds(p, order@[i] as int)
                        ==> exists|j: int| 0 <= j < i && #[trigger] order@[j] == p,
                blocked ==> forall|x: u64| #[trigger]
                    sort_items(ts).contains(x) ==> exists|p: u64|
                        sort_items(ts).contains(p) && #[trigger] linked(ts, p, x),
            decreases
                    (if blocked {
                        0
                    } else {
                        sort_items(ts).len() + 1
                    }),
        {
            let ghost before = ts;
            let ghost listed = order@;
            match sort_pop(&mut ts) {
                Some(x) => {
                    proof {
                        assert(x < n);
                        assert(sort_items(before).contains((x as usize) as u64));
                        assert(!listed.contains(x as usize));
                    }
                    order.push(x as usize);
                    proof {
                        assert forall|y: usize| order@.contains(y) <==> listed.contains(y) || y
                            == x as usize by {
                            if listed.contains(y) {
                                let j = choose|j: int| 0 <= j < listed.len() && listed[j] == y;
                                assert(order@[j] == y);
                            }
                            assert(order@[listed.len() as int] == x as usize);
                        }
                        assert forall|y: usize| y < n implies (sort_items(ts).contains(y as u64)
                            <==> !order@.contains(y)) by {
                            assert(sort_items(before).contains(y as u64) <==> !listed.contains(y));
                            assert(sort_items(ts).contains(y as u64) <==> sort_items(
                                before,
                            ).contains(y as u64) && y as u64 != x);
                        }
                        assert(order@ == listed.push(x as usize));
                        assert forall|a: int, b: int|
                            0 <= a < order@.len() && 0 <= b < order@.len() && a != b implies order@[a]
                            != order@[b] by {
                            if a < listed.len() && b < listed.len() {
                                assert(listed[a] != listed[b]);
                            } else if a < listed.len() {
                                assert(listed.contains(listed[a]));
                            } else {
                                assert(listed.contains(listed[b]));
                            }
                        }
                        assert forall|p: u64, c: u64|
                            #[trigger] linked(ts, p, c) <==> (c < n && self.feeds(
                                p as int,
                                c as int,
                            ) && sort_items(ts).contains(p)) by {
                            assert(linked(before, p, c) <==> (c < n && self.feeds(
                                p as int,
                                c as int,
                            ) && sort_items(before).contains(p)));
                        }
                        assert forall|i: int, p: int|
                            0 <= i < order@.len() && #[trigger] self.feeds(
                                p,
                                order@[i] as int,
                            ) implies exists|j: int| 0 <= j < i && #[trigger] order@[j] == p by {
                            if i < listed.len() {
                                assert(order@[i] == listed[i]);
                                let j = choose|j: int| 0 <= j < i && #[trigger] listed[j] == p;
                                assert(order@[j] == p);
                            } else {
                                assert(self.link_ok(x as int));
                                let q = p as u64;
                                assert(!linked(before, q, x));
                                assert(!sort_items(before).contains(q));
                                assert(listed.contains(q as usize));
                                let j = choose|j: int| 0 <= j < listed.len() && listed[j] == q as usize;
                                assert(order@[j] == p);
                            }
                        }
                    }
                },
                None => {
                    blocked = true;
                    proof {
                        assert forall|x: u64| #[trigger]
                            sort_items(ts).contains(x) implies exists|p: u64|
                            sort_items(ts).contains(p) && #[trigger] linked(ts, p, x) by {
                            let p = choose|p: u64|
                                sort_items(before).contains(p) && #[trigger] linked(before, p, x);
                            assert(linked(ts, p, x));
                        }
                        assert forall|p: u64, c: u64|
                            #[trigger] linked(ts, p, c) <==> (c < n && self.feeds(
                                p as int,
                                c as int,
                            ) && sort_items(ts).contains(p)) by {
                            assert(linked(before, p, c) <==> (c < n && self.feeds(
                                p as int,
                                c as int,
                            ) && sort_items(before).contains(p)));
                        }
                    }
                },
            }
        }
        proof {
            assert forall|p: u64, x: u64| #[trigger] linked(ts, p, x) implies p < x by {
                assert(self.link_ok(x as int));
            }
            lemma_none_blocked(ts, n as nat);
            assert forall|h: usize| h < self.count() implies order@.contains(h) by {
                assert(!sort_items(ts).contains(h as u64));
            }
        }
        order
    }
}

impl TrackingDigraph {
    /// The changes are the current relation less the relation before.
    pub proof fn lemma_delta(&self)
        requires
            self.wf(),
        ensures
            minus(self@, self.before()) == self.delta(),
    {
        self.lemma_ranges();
        lemma_minus_minus(self@, self.delta());
    }
}

impl ReactiveStorage {
    /// An empty store for the selector `Identity`, to stand in the place of
    /// a store that is taken out of the manager while it is worked on.
    fn placeholder() -> (r: ReactiveStorage)
        ensures
            r.wf(),
            r.selector() == SpellSelector::Identity,
            r.links() is None,
            r.store()@ == Map::<(Object, Object), int>::empty(),
            r.store().delta() == Map::<(Object, Object), int>::empty(),
    {
        ReactiveStorage {
            selector: SpellSelector::Identity,
            links: None,
            storage: TrackingDigraph::default(),
        }
    }
}

impl StorageManager {
    /// The handles of the left and the right operand of the `Bind` under a
    /// handle.
    pub open spec fn operands(&self, h: int) -> (int, int) {
        match self.links(h) {
            Some((l, r)) => (l as int, r as int),
            None => (0, 0),
        }
    }

    /// Whether two managers hold the same selectors under the same handles,
    /// with the same links.
    pub open spec fn same_shape(&self, other: StorageManager) -> bool {
        &&& self.count() == other.count()
        &&& forall|h: int|
            0 <= h < self.count() ==> #[trigger] self.selector(h) == other.selector(h)
                && self.links(h) == other.links(h)
    }

    /// What a refresh does to one `Bind`: to each weight it adds the change
    /// of the product of the operands, computed from their relations after
    /// the refresh and their relations at the last refresh, and saturates
    /// the sum.
    pub open spec fn bind_refreshed(&self, pre: StorageManager, h: int) -> bool {
        let (l, r) = pre.links(h)->0;
        forall|s: Object, t: Object|
            #[trigger] weight(self.relation(h), s, t) == saturate(
                weight(pre.relation(h), s, t) + product_change(
                    self.relation(l as int),
                    minus(self.relation(l as int), pre.before(l as int)),
                    self.relation(r as int),
                    minus(self.relation(r as int), pre.before(r as int)),
                    s,
                    t,
                ),
            )
    }

    /// Whether `self` is what a refresh makes of `pre`: the same selectors,
    /// no recorded changes, every relation that is not a `Bind` as it was,
    /// and every `Bind` refreshed from its operands.
    pub open spec fn refreshed_from(&self, pre: StorageManager) -> bool {
        &&& self.same_shape(pre)
        &&& forall|h: int|
            0 <= h < self.count() ==> #[trigger] self.changes(h) == Map::<
                (Object, Object),
                int,
            >::empty()
        &&& forall|h: int|
            0 <= h < self.count() && pre.links(h) is None ==> #[trigger] self.relation(h)
                == pre.relation(h)
        &&& forall|h: int|
            0 <= h < self.count() && pre.links(h) is Some ==> #[trigger] self.bind_refreshed(
                pre,
                h,
            )
    }

    /// Whether every `Bind` holds the product of what its operands held
    /// when changes were last cleared: the state in which the relations that
    /// are not `Bind`s have changed and the `Bind`s await their refresh.
    pub open spec fn pending(&self) -> bool {
        forall|h: int|
            0 <= h < self.count() && self.links(h) is Some ==> #[trigger] self.relation(h)
                == product(
                self.before(self.operands(h).0),
                self.before(self.operands(h).1),
            )
    }

    /// Whether every `Bind` holds the product of the current relations of
    /// its operands.
    pub open spec fn settled(&self) -> bool {
        forall|h: int|
            0 <= h < self.count() && self.links(h) is Some ==> #[trigger] self.relation(h)
                == product(
                self.relation(self.operands(h).0),
                self.relation(self.operands(h).1),
            )
    }

    /// Whether no weight of a product of operands exceeds [`WEIGHT_MAX`].
    pub open spec fn fits(&self) -> bool {
        forall|h: int, s: Object, t: Object|
            0 <= h < self.count() && self.links(h) is Some ==> #[trigger] product_weight(
                self.relation(self.operands(h).0),
                self.relation(self.operands(h).1),
                s,
                t,
            ) <= WEIGHT_MAX
    }

    /// Whether every `Bind` holds the product of the current relations of
    /// its operands with each weight saturated.
    pub open spec fn settled_saturated(&self) -> bool {
        forall|h: int|
            0 <= h < self.count() && self.links(h) is Some ==> #[trigger] self.relation(h)
                == saturated(
                product(self.relation(self.operands(h).0), self.relation(self.operands(h).1)),
            )
    }

    /// What a refresh leaves, whatever the weights: if every `Bind` held
    /// the product of its operands as they were at the last refresh, then
    /// after a refresh every `Bind` holds the product of its operands as they
    /// are now, each weight saturated.
    pub proof fn lemma_refresh_saturates(pre: StorageManager, post: StorageManager)
        requires
            pre.wf(),
            post.wf(),
            post.refreshed_from(pre),
            pre.pending(),
        ensures
            post.settled_saturated(),
    {
        assert forall|h: int| 0 <= h < post.count() && post.links(h) is Some implies #[trigger]
            post.relation(h) == saturated(
            product(post.relation(post.operands(h).0), post.relation(post.operands(h).1)),
        ) by {
            assert(post.selector(h) == pre.selector(h) && post.links(h) == pre.links(h));
            assert(pre.link_ok(h));
            let (l, r) = pre.links(h)->0;
            let ln = post.relation(l as int);
            let rn = post.relation(r as int);
            let lb = pre.before(l as int);
            let rb = pre.before(r as int);
            assert(post.operands(h) == (l as int, r as int));
            assert(pre.operands(h) == (l as int, r as int));
            assert(post.bind_refreshed(pre, h));
            assert(pre.relation(h) == product(lb, rb));
            assert(post.storage(l as int).wf() && post.storage(r as int).wf());
            post.storage(l as int).store().lemma_ranges();
            post.storage(r as int).store().lemma_ranges();
            post.storage(h).store().lemma_ranges();
            lemma_minus_minus(ln, lb);
            lemma_minus_minus(rn, rb);
            lemma_refreshed_product(
                pre.relation(h),
                post.relation(h),
                ln,
                minus(ln, lb),
                rn,
                minus(rn, rb),
            );
        }
    }

    /// Incremental maintenance agrees with recomputation from scratch: if
    /// every `Bind` held the product of its operands as they were at the
    /// last refresh, then after a refresh every `Bind` holds the product of
    /// its operands as they are now, unless a weight of that product exceeds
    /// what a store holds.
    pub proof fn lemma_refresh_settles(pre: StorageManager, post: StorageManager)
        requires
            pre.wf(),
            post.wf(),
            post.refreshed_from(pre),
            pre.pending(),
            post.fits(),
        ensures
            post.settled(),
    {
        assert forall|h: int| 0 <= h < post.count() && post.links(h) is Some implies #[trigger]
            post.relation(h) == product(
            post.relation(post.operands(h).0),
            post.relation(post.operands(h).1),
        ) by {
            assert(post.selector(h) == pre.selector(h) && post.links(h) == pre.links(h));
            assert(pre.link_ok(h));
            let (l, r) = pre.links(h)->0;
            let ln = post.relation(l as int);
            let rn = post.relation(r as int);
            let lb = pre.before(l as int);
            let rb = pre.before(r as int);
            assert(post.bind_refreshed(pre, h));
            assert(pre.relation(h) == product(lb, rb));
            assert(post.storage(l as int).wf() && post.storage(r as int).wf());
            post.storage(l as int).store().lemma_ranges();
            post.storage(r as int).store().lemma_ranges();
            post.storage(h).store().lemma_ranges();
            lemma_minus_minus(ln, lb);
            lemma_minus_minus(rn, rb);
            assert forall|s: Object, t: Object|
                weight(post.relation(h), s, t) == weight(product(ln, rn), s, t) by {
                lemma_incremental_equals_batch(ln, minus(ln, lb), rn, minus(rn, rb), s, t);
                lemma_product_weight(lb, rb, s, t);
                lemma_product_weight(ln, rn, s, t);
                let f = |m: Object| weight(ln, s, m) * weight(rn, m, t);
                assert forall|m: Object| 0 <= #[trigger] f(m) by {
                    assert(0 <= weight(ln, s, m) && 0 <= weight(rn, m, t));
                    assert(0 <= weight(ln, s, m) * weight(rn, m, t)) by (nonlinear_arith)
                        requires
                            0 <= weight(ln, s, m),
                            0 <= weight(rn, m, t),
                    ;
                }
                crate::relation::lemma_sum_nonnegative(crate::object::object_key_count(), f);
                assert(post.operands(h) == (l as int, r as int));
                assert(product_weight(
                    post.relation(post.operands(h).0),
                    post.relation(post.operands(h).1),
                    s,
                    t,
                ) <= WEIGHT_MAX);
            }
            lemma_relation_ext(post.relation(h), product(ln, rn));
        }
    }

    /// Refreshes every store, once per tick: visits the handles in an order
    /// in which each `Bind` comes after its operands and updates each `Bind`
    /// from the changes of its operands, then clears the changes of every
    /// store.
    ///
    /// If every `Bind` held the product of its operands as they were at the
    /// last refresh, every `Bind` now holds the product of its operands as
    /// they are, each weight saturated: what evaluating it from scratch
    /// gives, as far as a store can hold it.
    pub fn recompute_all_caches(&mut self)
        requires
            old(self).wf(),
        ensures
            final(self).wf(),
            final(self).refreshed_from(*old(self)),
            old(self).pending() ==> final(self).settled_saturated(),
            old(self).pending() && final(self).fits() ==> final(self).settled(),
    {
        let order = self.schedule();
        let n = self.storages.len();
        let mut i: usize = 0;
        while i < order.len()
            invariant
                i <= order@.len(),
                n == self.count(),
                old(self).wf(),
                old(self).is_schedule(order@),
                self.same_shape(*old(self)),
                forall|h: int| 0 <= h < n ==> (#[trigger] self.storage(h)).wf(),
                forall|h: int| 0 <= h < n ==> #[trigger] self.before(h) == old(self).before(h),
                forall|h: int|
                    0 <= h < n && !order@.take(i as int).contains(h as usize)
                        ==> #[trigger] self.storage(h) == old(self).storage(h),
                forall|h: int|
                    0 <= h < n && old(self).links(h) is None ==> #[trigger] self.storage(h) == old(self).storage(h),
                forall|h: int|
                    0 <= h < n && order@.take(i as int).contains(h as usize) && old(self).links(
                        h,
                    ) is Some ==> #[trigger] self.step_done(*old(self), h),
            decreases order@.len() - i,
        {
            let h = order[i];
            let ghost cur = *self;
            let ghost done = order@.take(i as int);
            let ghost next = order@.take(i + 1);
            proof {
                assert(next == done.push(h));
                assert forall|k: usize| next.contains(k) <==> done.contains(k) || k == h by {
                    if done.contains(k) {
                        let j = choose|j: int| 0 <= j < done.len() && done[j] == k;
                        assert(next[j] == k);
                    }
                    if next.contains(k) {
                        let j = choose|j: int| 0 <= j < next.len() && next[j] == k;
                        if j < i {
                            assert(done[j] == k);
                        }
                    }
                    assert(next[i as int] == h);
                }
                if done.contains(h) {
                    let j = choose|j: int| 0 <= j < done.len() && done[j] == h;
                    assert(order@[j] == order@[i as int]);
                }
                assert(order@[i as int] < n);
                assert(old(self).link_ok(h as int));
                assert(self.selector(h as int) == old(self).selector(h as int));
            }
            match self.storages[h].links {
                Some((l, r)) => {
                    proof {
                        assert(old(self).feeds(l as int, order@[i as int] as int));
                        assert(old(self).feeds(r as int, order@[i as int] as int));
                        let jl = choose|j: int| 0 <= j < i && #[trigger] order@[j] == l as int;
                        let jr = choose|j: int| 0 <= j < i && #[trigger] order@[j] == r as int;
                        assert(done[jl] == l && done[jr] == r);
                        assert(self.storage(l as int).wf());
                        assert(self.storage(r as int).wf());
                        assert(self.storage(h as int).wf());
                    }
                    let mut target = ReactiveStorage::placeholder();
                    self.storages.set_and_swap(h, &mut target);
                    target.recompute_cache(&self.storages[l], &self.storages[r]);
                    self.storages.set_and_swap(h, &mut target);
                    proof {
                        assert forall|k: int| 0 <= k < n && k != h implies #[trigger] self.storage(
                            k,
                        ) == cur.storage(k) by {}
                        assert(self.step_done(*old(self), h as int)) by {
                            assert(self.storage(l as int) == cur.storage(l as int));
                            assert(self.storage(r as int) == cur.storage(r as int));
                            assert(cur.storage(h as int) == old(self).storage(h as int));
                        }
                        assert forall|k: int|
                            0 <= k < n && next.contains(k as usize) && old(self).links(k) is Some implies #[trigger]
                            self.step_done(*old(self), k) by {
                            if k != h {
                                assert(done.contains(k as usize));
                                assert(cur.step_done(*old(self), k));
                                assert(old(self).link_ok(k));
                                let (kl, kr) = old(self).links(k)->0;
                                let a = choose|a: int| 0 <= a < done.len() && done[a] == k as usize;
                                assert(order@[a] == k);
                                assert(old(self).feeds(kl as int, order@[a] as int));
                                assert(old(self).feeds(kr as int, order@[a] as int));
                                let jl = choose|j: int| 0 <= j < a && #[trigger] order@[j] == kl as int;
                                let jr = choose|j: int| 0 <= j < a && #[trigger] order@[j] == kr as int;
                                assert(order@[jl] != order@[i as int]);
                                assert(order@[jr] != order@[i as int]);
                                assert(self.storage(kl as int) == cur.storage(kl as int));
                                assert(self.storage(kr as int) == cur.storage(kr as int));
                                assert(self.storage(k) == cur.storage(k));
                                assert forall|s: Object, t: Object|
                                    #[trigger] weight(self.relation(k), s, t) == saturate(
                                        weight(old(self).relation(k), s, t) + product_change(
                                            self.relation(kl as int),
                                            self.changes(kl as int),
                                            self.relation(kr as int),
                                            self.changes(kr as int),
                                            s,
                                            t,
                                        ),
                                    ) by {
                                    assert(weight(cur.relation(k), s, t) == saturate(
                                        weight(old(self).relation(k), s, t) + product_change(
                                            cur.relation(kl as int),
                                            cur.changes(kl as int),
                                            cur.relation(kr as int),
                                            cur.changes(kr as int),
                                            s,
                                            t,
                                        ),
                                    ));
                                }
                            }
                        }
                        assert forall|k: int| 0 <= k < n implies #[trigger] self.before(k) == old(self).before(k) by {
                            if k != h {
                                assert(self.storage(k) == cur.storage(k));
                                assert(cur.before(k) == old(self).before(k));
                            } else {
                                assert(cur.before(k) == old(self).before(k));
                            }
                        }
                        assert forall|k: int| 0 <= k < n implies (#[trigger] self.storage(k)).wf() by {
                            if k != h {
                                assert(self.storage(k) == cur.storage(k));
                                assert(cur.storage(k).wf());
                            }
                        }
                        assert forall|k: int|
                            0 <= k < n && !next.contains(k as usize) implies #[trigger] self.storage(
                            k,
                        ) == old(self).storage(k) by {
                            assert(self.storage(k) == cur.storage(k));
                            assert(cur.storage(k) == old(self).storage(k));
                        }
                        assert forall|k: int| 0 <= k < self.count() implies #[trigger] self.selector(
                            k,
                        ) == old(self).selector(k) && self.links(k) == old(self).links(k) by {
                            if k != h {
                                assert(self.storage(k) == cur.storage(k));
                            }
                            assert(cur.selector(k) == old(self).selector(k));
                        }
                        assert forall|k: int|
                            0 <= k < n && old(self).links(k) is None implies #[trigger] self.storage(
                            k,
                        ) == old(self).storage(k) by {
                            assert(self.storage(k) == cur.storage(k));
                            assert(cur.storage(k) == old(self).storage(k));
                        }
                    }
                },
                None => {
                    proof {
                        assert forall|k: int|
                            0 <= k < n && next.contains(k as usize) && old(self).links(k) is Some implies #[trigger]
                            self.step_done(*old(self), k) by {
                            assert(done.contains(k as usize));
                        }
                    }
                },
            }
            i = i + 1;
        }
        let ghost visited = *self;
        proof {
            assert(order@.take(order@.len() as int) == order@);
        }
        let mut h: usize = 0;
        while h < n
            invariant
                h <= n,
                n == self.count(),
                n == visited.count(),
                self.same_shape(visited),
                forall|k: int| 0 <= k < n ==> (#[trigger] self.storage(k)).wf(),
                forall|k: int| 0 <= k < n ==> (#[trigger] visited.storage(k)).wf(),
                forall|k: int| 0 <= k < n ==> #[trigger] self.relation(k) == visited.relation(k),
                forall|k: int|
                    0 <= k < h ==> #[trigger] self.changes(k) == Map::<
                        (Object, Object),
                        int,
                    >::empty(),
            decreases n - h,
        {
            let ghost cur = *self;
            let mut target = ReactiveStorage::placeholder();
            self.storages.set_and_swap(h, &mut target);
            proof {
                assert(target == cur.storage(h as int));
                assert(cur.storage(h as int).wf());
            }
            target.storage.clear_previous();
            self.storages.set_and_swap(h, &mut target);
            proof {
                assert forall|k: int| 0 <= k < n && k != h implies #[trigger] self.storage(k)
                    == cur.storage(k) by {}
                assert forall|k: int| 0 <= k < n implies (#[trigger] self.storage(k)).wf() by {
                    if k != h {
                        assert(cur.storage(k).wf());
                    }
                }
                assert forall|k: int| 0 <= k < n implies #[trigger] self.relation(k)
                    == visited.relation(k) by {
                    assert(cur.relation(k) == visited.relation(k));
                }
                assert forall|k: int| 0 <= k < h + 1 implies #[trigger] self.changes(k) == Map::<
                    (Object, Object),
                    int,
                >::empty() by {
                    if k != h {
                        assert(cur.changes(k) == Map::<(Object, Object), int>::empty());
                    }
                }
                assert forall|k: int| 0 <= k < self.count() implies #[trigger] self.selector(k)
                    == visited.selector(k) && self.links(k) == visited.links(k) by {
                    if k != h {
                        assert(self.storage(k) == cur.storage(k));
                    }
                    assert(cur.selector(k) == visited.selector(k));
                }
            }
            h = h + 1;
        }
        proof {
            let pre = *old(self);
            assert forall|k: int| 0 <= k < self.count() implies #[trigger] self.link_ok(k) by {
                assert(pre.link_ok(k));
                assert(self.selector(k) == visited.selector(k));
                assert(visited.selector(k) == pre.selector(k));
                match pre.links(k) {
                    Some((a, b)) => {
                        assert(self.selector(a as int) == visited.selector(a as int));
                        assert(visited.selector(a as int) == pre.selector(a as int));
                        assert(self.selector(b as int) == visited.selector(b as int));
                        assert(visited.selector(b as int) == pre.selector(b as int));
                    },
                    None => {},
                }
            }
            assert forall|a: int, b: int| 0 <= a < b < self.count() implies #[trigger]
                self.selector(a) != #[trigger] self.selector(b) by {
                assert(self.selector(a) == visited.selector(a));
                assert(visited.selector(a) == pre.selector(a));
                assert(self.selector(b) == visited.selector(b));
                assert(visited.selector(b) == pre.selector(b));
                assert(pre.selector(a) != pre.selector(b));
            }
            assert forall|k: int| 0 <= k < self.count() implies #[trigger] self.selector(k)
                == pre.selector(k) && self.links(k) == pre.links(k) by {
                assert(self.selector(k) == visited.selector(k));
                assert(visited.selector(k) == pre.selector(k));
            }
            assert forall|k: int| 0 <= k < self.count() && pre.links(k) is None implies #[trigger]
                self.relation(k) == pre.relation(k) by {
                assert(self.relation(k) == visited.relation(k));
                assert(visited.storage(k) == pre.storage(k));
            }
            assert forall|k: int| 0 <= k < self.count() && pre.links(k) is Some implies #[trigger]
                self.bind_refreshed(pre, k) by {
                assert(order@.contains(k as usize));
                assert(visited.step_done(pre, k));
                assert(pre.link_ok(k));
                let (l, r) = pre.links(k)->0;
                assert(visited.storage(l as int).wf());
                assert(visited.storage(r as int).wf());
                visited.storage(l as int).store().lemma_delta();
                visited.storage(r as int).store().lemma_delta();
                assert(visited.before(l as int) == pre.before(l as int));
                assert(visited.before(r as int) == pre.before(r as int));
                assert(self.relation(k) == visited.relation(k));
                assert(self.relation(l as int) == visited.relation(l as int));
                assert(self.relation(r as int) == visited.relation(r as int));
                assert forall|s: Object, t: Object|
                    #[trigger] weight(self.relation(k), s, t) == saturate(
                        weight(pre.relation(k), s, t) + product_change(
                            self.relation(l as int),
                            minus(self.relation(l as int), pre.before(l as int)),
                            self.relation(r as int),
                            minus(self.relation(r as int), pre.before(r as int)),
                            s,
                            t,
                        ),
                    ) by {
                    assert(weight(visited.relation(k), s, t) == saturate(
                        weight(pre.relation(k), s, t) + product_change(
                            visited.relation(l as int),
                            visited.changes(l as int),
                            visited.relation(r as int),
                            visited.changes(r as int),
                            s,
                            t,
                        ),
                    ));
                }
            }
            assert(self.wf());
            assert(self.refreshed_from(pre));
            if pre.pending() {
                Self::lemma_refresh_saturates(pre, *self);
                if self.fits() {
                    Self::lemma_refresh_settles(pre, *self);
                }
            }
        }
    }

    /// What visiting a `Bind` during a refresh does to it, in terms of the
    /// relations and recorded changes of its operands.
    pub open spec fn step_done(&self, pre: StorageManager, h: int) -> bool {
        let (l, r) = pre.links(h)->0;
        forall|s: Object, t: Object|
            #[trigger] weight(self.relation(h), s, t) == saturate(
                weight(pre.relation(h), s, t) + product_change(
                    self.relation(l as int),
                    self.changes(l as int),
                    self.relation(r as int),
                    self.changes(r as int),
                    s,
                    t,
                ),
            )
    }
}

impl ReactiveStorage {
    /// Reads the pairs with one source anew from the world: afterwards the
    /// store holds, for that source, the weights of the relation that the
    /// selector denotes, saturated; the pairs with other sources stay.
    pub fn refresh_row(&mut self, info: &WorldInfo, source: Object)
        requires
            old(self).wf(),
            info.wf(),
        ensures
            final(self).wf(),
            final(self).selector() == old(self).selector(),
            final(self).links() == old(self).links(),
            final(self).store().before() == old(self).store().before(),
            forall|s: Object, t: Object|
                #[trigger] weight(final(self).store()@, s, t) == (if s == source {
                    saturate(weight(select_relation(old(self).selector(), *info), source, t))
                } else {
                    weight(old(self).store()@, s, t)
                }),
    {
        let stale = self.storage.current().row(source);
        let ghost targets = row_targets(stale@);
        let mut i: usize = 0;
        while i < stale.len()
            invariant
                i <= stale@.len(),
                self.wf(),
                self.selector() == old(self).selector(),
                self.links() == old(self).links(),
                self.store().before() == old(self).store().before(),
                targets == row_targets(stale@),
                forall|s: Object, t: Object|
                    #[trigger] weight(self.store()@, s, t) == (if s == source && targets.take(
                        i as int,
                    ).contains(t) {
                        0
                    } else {
                        weight(old(self).store()@, s, t)
                    }),
            decreases stale@.len() - i,
        {
            let (t, w) = stale[i];
            let ghost done = targets.take(i as int);
            let ghost next = targets.take(i + 1);
            let ghost prior = self.store()@;
            proof {
                assert(targets[i as int] == t);
                assert(next == done.push(t));
                assert forall|o: Object| next.contains(o) <==> done.contains(o) || o == t by {
                    if done.contains(o) {
                        let j = choose|j: int| 0 <= j < done.len() && done[j] == o;
                        assert(next[j] == o);
                    }
                    if next.contains(o) {
                        let j = choose|j: int| 0 <= j < next.len() && next[j] == o;
                        if j < i {
                            assert(done[j] == o);
                        }
                    }
                    assert(next[i as int] == t);
                }
            }
            self.storage.set(source, t, 0);
            proof {
                assert forall|s: Object, t2: Object|
                    #[trigger] weight(self.store()@, s, t2) == (if s == source && next.contains(t2) {
                        0
                    } else {
                        weight(old(self).store()@, s, t2)
                    }) by {
                    assert(weight(prior, s, t2) == (if s == source && done.contains(t2) {
                        0
                    } else {
                        weight(old(self).store()@, s, t2)
                    }));
                    assert(next.contains(t2) <==> done.contains(t2) || t2 == t);
                }
            }
            i = i + 1;
        }
        proof {
            assert(targets.take(stale@.len() as int) == targets);
            assert forall|t: Object| #[trigger] weight(self.store()@, source, t) == 0 by {
                if !targets.contains(t) {
                    assert(!old(self).store()@.contains_key((source, t)));
                }
            }
        }
        let ghost cleared = self.store()@;
        let fresh = self.selector.select(info, source);
        let ghost live = select_relation(old(self).selector(), *info);
        let mut k: usize = 0;
        while k < fresh.len()
            invariant
                k <= fresh@.len(),
                self.wf(),
                self.selector() == old(self).selector(),
                self.links() == old(self).links(),
                self.store().before() == old(self).store().before(),
                forall|j: int| 0 <= j < fresh@.len() ==> (#[trigger] fresh@[j]).connection == 1,
                forall|s: Object, t: Object|
                    #[trigger] weight(self.store()@, s, t) == (if s == source {
                        saturate(bag_weight(fresh@.take(k as int), t))
                    } else {
                        weight(old(self).store()@, s, t)
                    }),
            decreases fresh@.len() - k,
        {
            let e = fresh[k];
            let ghost prior = self.store()@;
            self.storage.update(source, e.target, 1);
            proof {
                assert(fresh@.take(k + 1).drop_last() =~= fresh@.take(k as int));
                assert(fresh@.take(k + 1).last() == e);
                assert forall|s: Object, t: Object|
                    #[trigger] weight(self.store()@, s, t) == (if s == source {
                        saturate(bag_weight(fresh@.take(k + 1), t))
                    } else {
                        weight(old(self).store()@, s, t)
                    }) by {
                    assert(weight(prior, s, t) == (if s == source {
                        saturate(bag_weight(fresh@.take(k as int), t))
                    } else {
                        weight(old(self).store()@, s, t)
                    }));
                    lemma_bag_weight_bounds(fresh@.take(k as int), t);
                }
            }
            k = k + 1;
        }
        proof {
            assert(fresh@.take(fresh@.len() as int) =~= fresh@);
        }
    }
}

impl StorageManager {
    /// Whether every relation is the one that its selector denotes in a
    /// world.
    pub open spec fn mirrors(&self, info: WorldInfo) -> bool {
        forall|h: int|
            0 <= h < self.count() ==> #[trigger] self.relation(h) == select_relation(
                self.selector(h),
                info,
            )
    }

    /// Whether `self` is what observing a world at the given sources makes
    /// of `pre`: the `Bind`s untouched, and every other relation read anew
    /// from the world for the pairs with those sources.
    pub open spec fn observed_from(&self, pre: StorageManager, info: WorldInfo, sources: Seq<Object>) -> bool {
        &&& self.same_shape(pre)
        &&& forall|h: int| 0 <= h < self.count() ==> #[trigger] self.before(h) == pre.before(h)
        &&& forall|h: int|
            0 <= h < self.count() && pre.links(h) is Some ==> #[trigger] self.storage(h)
                == pre.storage(h)
        &&& forall|h: int, s: Object, t: Object|
            0 <= h < self.count() && pre.links(h) is None ==> #[trigger] weight(
                self.relation(h),
                s,
                t,
            ) == (if sources.contains(s) {
                saturate(weight(select_relation(pre.selector(h), info), s, t))
            } else {
                weight(pre.relation(h), s, t)
            })
    }

    /// Feeds the base relations from the world: for every registered
    /// selector that is not a `Bind`, reads the pairs with the given sources
    /// anew and records what changed.
    pub fn observe(&mut self, info: &WorldInfo, sources: &Vec<Object>)
        requires
            old(self).wf(),
            info.wf(),
        ensures
            final(self).wf(),
            final(self).observed_from(*old(self), *info, sources@),
    {
        let n = self.storages.len();
        let mut h: usize = 0;
        while h < n
            invariant
                h <= n,
                n == self.count(),
                old(self).wf(),
                info.wf(),
                self.same_shape(*old(self)),
                forall|k: int| 0 <= k < n ==> (#[trigger] self.storage(k)).wf(),
                forall|k: int| 0 <= k < n ==> #[trigger] self.before(k) == old(self).before(k),
                forall|k: int|
                    0 <= k < n && (k >= h || old(self).links(k) is Some) ==> #[trigger] self.storage(
                        k,
                    ) == old(self).storage(k),
                forall|k: int, s: Object, t: Object|
                    0 <= k < h && old(self).links(k) is None ==> #[trigger] weight(
                        self.relation(k),
                        s,
                        t,
                    ) == (if sources@.contains(s) {
                        saturate(weight(select_relation(old(self).selector(k), *info), s, t))
                    } else {
                        weight(old(self).relation(k), s, t)
                    }),
            decreases n - h,
        {
            let ghost cur = *self;
            if self.storages[h].links.is_none() {
                let mut target = ReactiveStorage::placeholder();
                self.storages.set_and_swap(h, &mut target);
                proof {
                    assert(target == cur.storage(h as int));
                    assert(cur.storage(h as int).wf());
                    assert(cur.storage(h as int) == old(self).storage(h as int));
                }
                let mut j: usize = 0;
                while j < sources.len()
                    invariant
                        j <= sources@.len(),
                        info.wf(),
                        target.wf(),
                        target.selector() == old(self).selector(h as int),
                        target.links() == old(self).links(h as int),
                        target.store().before() == old(self).before(h as int),
                        forall|s: Object, t: Object|
                            #[trigger] weight(target.store()@, s, t) == (if sources@.take(
                                j as int,
                            ).contains(s) {
                                saturate(
                                    weight(select_relation(old(self).selector(h as int), *info), s, t),
                                )
                            } else {
                                weight(old(self).relation(h as int), s, t)
                            }),
                    decreases sources@.len() - j,
                {
                    let source = sources[j];
                    let ghost done = sources@.take(j as int);
                    let ghost next = sources@.take(j + 1);
                    let ghost prior = target.store()@;
                    proof {
                        assert(next == done.push(source));
                        assert forall|o: Object| next.contains(o) <==> done.contains(o) || o
                            == source by {
                            if done.contains(o) {
                                let a = choose|a: int| 0 <= a < done.len() && done[a] == o;
                                assert(next[a] == o);
                            }
                            if next.contains(o) {
                                let a = choose|a: int| 0 <= a < next.len() && next[a] == o;
                                if a < j {
                                    assert(done[a] == o);
                                }
                            }
                            assert(next[j as int] == source);
                        }
                    }
                    target.refresh_row(info, source);
                    proof {
                        assert forall|s: Object, t: Object|
                            #[trigger] weight(target.store()@, s, t) == (if next.contains(s) {
                                saturate(
                                    weight(select_relation(old(self).selector(h as int), *info), s, t),
                                )
                            } else {
                                weight(old(self).relation(h as int), s, t)
                            }) by {
                            assert(weight(prior, s, t) == (if done.contains(s) {
                                saturate(
                                    weight(select_relation(old(self).selector(h as int), *info), s, t),
                                )
                            } else {
                                weight(old(self).relation(h as int), s, t)
                            }));
                            assert(next.contains(s) <==> done.contains(s) || s == source);
                        }
                    }
                    j = j + 1;
                }
                proof {
                    assert(sources@.take(sources@.len() as int) == sources@);
                }
                self.storages.set_and_swap(h, &mut target);
            }
            proof {
                assert forall|k: int| 0 <= k < n && k != h implies #[trigger] self.storage(k)
                    == cur.storage(k) by {}
                assert forall|k: int| 0 <= k < n implies (#[trigger] self.storage(k)).wf() by {
                    if k != h {
                        assert(cur.storage(k).wf());
                    }
                }
                assert forall|k: int| 0 <= k < n implies #[trigger] self.before(k) == old(self).before(k) by {
                    if k != h {
                        assert(cur.before(k) == old(self).before(k));
                    }
                }
                assert forall|k: int| 0 <= k < self.count() implies #[trigger] self.selector(k)
                    == old(self).selector(k) && self.links(k) == old(self).links(k) by {
                    if k != h {
                        assert(self.storage(k) == cur.storage(k));
                    }
                    assert(cur.selector(k) == old(self).selector(k));
                }
                assert forall|k: int|
                    0 <= k < n && (k >= h + 1 || old(self).links(k) is Some) implies #[trigger]
                    self.storage(k) == old(self).storage(k) by {
                    if k != h {
                        assert(cur.storage(k) == old(self).storage(k));
                    } else {
                        assert(cur.storage(k) == old(self).storage(k));
                    }
                }
                assert forall|k: int, s: Object, t: Object|
                    0 <= k < h + 1 && old(self).links(k) is None implies #[trigger] weight(
                    self.relation(k),
                    s,
                    t,
                ) == (if sources@.contains(s) {
                    saturate(weight(select_relation(old(self).selector(k), *info), s, t))
                } else {
                    weight(old(self).relation(k), s, t)
                }) by {
                    if k != h {
                        assert(self.storage(k) == cur.storage(k));
                        assert(weight(cur.relation(k), s, t) == (if sources@.contains(s) {
                            saturate(weight(select_relation(old(self).selector(k), *info), s, t))
                        } else {
                            weight(old(self).relation(k), s, t)
                        }));
                    }
                }
            }
            h = h + 1;
        }
        proof {
            let pre = *old(self);
            assert forall|k: int| 0 <= k < self.count() implies #[trigger] self.link_ok(k) by {
                assert(pre.link_ok(k));
                assert(self.selector(k) == pre.selector(k));
                match pre.links(k) {
                    Some((a, b)) => {
                        assert(self.selector(a as int) == pre.selector(a as int));
                        assert(self.selector(b as int) == pre.selector(b as int));
                    },
                    None => {},
                }
            }
            assert forall|a: int, b: int| 0 <= a < b < self.count() implies #[trigger]
                self.selector(a) != #[trigger] self.selector(b) by {
                assert(self.selector(a) == pre.selector(a));
                assert(self.selector(b) == pre.selector(b));
                assert(pre.selector(a) != pre.selector(b));
            }
        }
    }

    /// When every `Bind` holds the product of its operands and every other
    /// relation is the one that its selector denotes, every relation is the
    /// one that its selector denotes.
    pub proof fn lemma_mirrors(&self, info: WorldInfo, h: int)
        requires
            self.wf(),
            self.settled(),
            forall|k: int|
                0 <= k < self.count() && self.links(k) is None ==> #[trigger] self.relation(k)
                    == select_relation(self.selector(k), info),
            0 <= h < self.count(),
        ensures
            self.relation(h) == select_relation(self.selector(h), info),
        decreases h,
    {
        assert(self.link_ok(h));
        match self.links(h) {
            Some((l, r)) => {
                self.lemma_mirrors(info, l as int);
                self.lemma_mirrors(info, r as int);
                assert(self.operands(h) == (l as int, r as int));
                assert(self.relation(h) == product(self.relation(l as int), self.relation(r as int)));
            },
            None => {},
        }
    }

    /// Observing a world leaves the `Bind`s waiting for their refresh: if
    /// every `Bind` held the product of its operands and no change was
    /// recorded, then after observing every `Bind` still holds the product of
    /// what its operands held before.
    pub proof fn lemma_observed_is_pending(
        start: StorageManager,
        observed: StorageManager,
        info: WorldInfo,
        sources: Seq<Object>,
    )
        requires
            start.wf(),
            start.settled(),
            start.idle(),
            observed.observed_from(start, info, sources),
        ensures
            observed.pending(),
    {
        // the Binds still hold the products of what their operands held
        assert forall|h: int| 0 <= h < observed.count() && observed.links(h) is Some implies #[trigger]
            observed.relation(h) == product(
            observed.before(observed.operands(h).0),
            observed.before(observed.operands(h).1),
        ) by {
            assert(observed.selector(h) == start.selector(h) && observed.links(h) == start.links(h));
            assert(start.link_ok(h));
            let (l, r) = start.links(h)->0;
            assert(start.operands(h) == (l as int, r as int));
            assert(observed.storage(h) == start.storage(h));
            assert(start.relation(h) == product(start.relation(l as int), start.relation(r as int)));
            assert(start.storage(l as int).wf() && start.storage(r as int).wf());
            start.storage(l as int).store().lemma_ranges();
            start.storage(r as int).store().lemma_ranges();
            assert(start.changes(l as int) == Map::<(Object, Object), int>::empty());
            assert(start.changes(r as int) == Map::<(Object, Object), int>::empty());
            lemma_relation_ext(start.before(l as int), start.relation(l as int));
            lemma_relation_ext(start.before(r as int), start.relation(r as int));
            assert(observed.before(l as int) == start.before(l as int));
            assert(observed.before(r as int) == start.before(r as int));
        }
    }

    /// Incremental maintenance agrees with recomputation against the
    /// world. Start from a manager whose `Bind`s hold the products of their
    /// operands and that records no change. Observe a world at some sources
    /// that cover every source at which a relation that is not a `Bind`
    /// differs from what its selector denotes in that world, then refresh.
    /// Afterwards every relation, the `Bind`s included, is the relation that
    /// its selector denotes in that world: the same as evaluating the
    /// selector from scratch. This holds unless a weight of a product
    /// exceeds what a store holds.
    pub proof fn lemma_tick_mirrors(
        start: StorageManager,
        observed: StorageManager,
        refreshed: StorageManager,
        info: WorldInfo,
        sources: Seq<Object>,
    )
        requires
            start.wf(),
            observed.wf(),
            refreshed.wf(),
            start.settled(),
            forall|h: int|
                0 <= h < start.count() ==> #[trigger] start.changes(h) == Map::<
                    (Object, Object),
                    int,
                >::empty(),
            observed.observed_from(start, info, sources),
            forall|h: int, s: Object, t: Object|
                0 <= h < start.count() && start.links(h) is None && !sources.contains(s)
                    ==> #[trigger] weight(start.relation(h), s, t) == weight(
                    select_relation(start.selector(h), info),
                    s,
                    t,
                ),
            refreshed.refreshed_from(observed),
            refreshed.fits(),
        ensures
            refreshed.mirrors(info),
    {
        Self::lemma_observed_is_pending(start, observed, info, sources);
        Self::lemma_refresh_settles(observed, refreshed);
        assert forall|k: int| 0 <= k < refreshed.count() && refreshed.links(k) is None implies #[trigger]
            refreshed.relation(k) == select_relation(refreshed.selector(k), info) by {
            assert(refreshed.selector(k) == observed.selector(k) && refreshed.links(k)
                == observed.links(k));
            assert(observed.selector(k) == start.selector(k) && observed.links(k) == start.links(k));
            assert(refreshed.relation(k) == observed.relation(k));
            let live = select_relation(start.selector(k), info);
            assert(observed.storage(k).wf());
            observed.storage(k).store().lemma_ranges();
            assert(start.link_ok(k));
            lemma_base_weights(start.selector(k), info);
            assert forall|s: Object, t: Object| weight(observed.relation(k), s, t) == weight(
                live,
                s,
                t,
            ) by {
                assert(0 <= weight(live, s, t) <= 1);
            }
            lemma_relation_ext(observed.relation(k), live);
        }
        assert forall|h: int| 0 <= h < refreshed.count() implies #[trigger] refreshed.relation(h)
            == select_relation(refreshed.selector(h), info) by {
            refreshed.lemma_mirrors(info, h);
        }
    }
}

/// A selector that is not a `Bind` relates a pair with weight one or not at
/// all.
pub proof fn lemma_base_weights(selector: SpellSelector, info: WorldInfo)
    requires
        !(selector is Bind),
    ensures
        canonical(select_relation(selector, info)),
        forall|s: Object, t: Object| 0 <= #[trigger] weight(select_relation(selector, info), s, t) <= 1,
{
}

/// A selector that is not a `Bind` relates only objects that exist.
pub proof fn lemma_base_sources(selector: SpellSelector, info: WorldInfo, s: Object, t: Object)
    requires
        !(selector is Bind),
        !info.is_object(s),
    ensures
        weight(select_relation(selector, info), s, t) == 0,
{
    info.lemma_adjacent_symmetric(s, t);
}

impl StorageManager {
    /// Whether no store records a change.
    pub open spec fn idle(&self) -> bool {
        forall|h: int|
            0 <= h < self.count() ==> #[trigger] self.changes(h) == Map::<
                (Object, Object),
                int,
            >::empty()
    }

    /// Brings every relation up to date with a world: reads every relation
    /// that is not a `Bind` anew, for every object that exists and for every
    /// source that the relation still holds, then refreshes the `Bind`s.
    /// Afterwards every relation that is not a `Bind` is the one that its
    /// selector denotes in the world. If the `Bind`s held the products of
    /// their operands before and no change was pending, every `Bind` holds
    /// the product of its operands with each weight saturated, and every
    /// relation is the one that its selector denotes unless a weight of a
    /// product exceeds what a store holds.
    pub fn sync(&mut self, info: &WorldInfo)
        requires
            old(self).wf(),
            info.wf(),
        ensures
            final(self).wf(),
            final(self).same_shape(*old(self)),
            final(self).idle(),
            forall|h: int|
                0 <= h < final(self).count() && final(self).links(h) is None
                    ==> #[trigger] final(self).relation(h) == select_relation(
                    final(self).selector(h),
                    *info,
                ),
            old(self).settled() && old(self).idle() ==> final(self).settled_saturated(),
            old(self).settled() && old(self).idle() && final(self).fits() ==> final(self).mirrors(
                *info,
            ),
    {
        let mut sources = info.all_objects();
        let n = self.storages.len();
        let mut h: usize = 0;
        while h < n
            invariant
                h <= n,
                n == self.count(),
                self.wf(),
                info.wf(),
                *self == *old(self),
                forall|o: Object| info.is_object(o) ==> sources@.contains(o),
                forall|k: int, s: Object, t: Object|
                    0 <= k < h && self.links(k) is None && #[trigger] self.relation(k).contains_key(
                        (s, t),
                    ) ==> sources@.contains(s),
            decreases n - h,
        {
            if self.storages[h].links.is_none() {
                assert(self.storage(h as int).wf());
                let held = self.storages[h].storage.current().sources();
                let ghost before = sources@;
                let mut j: usize = 0;
                while j < held.len()
                    invariant
                        j <= held@.len(),
                        sources@.len() == before.len() + j,
                        forall|a: int| 0 <= a < before.len() ==> sources@[a] == before[a],
                        forall|a: int| 0 <= a < j ==> #[trigger] sources@[before.len() + a] == held@[a],
                    decreases held@.len() - j,
                {
                    sources.push(held[j]);
                    j = j + 1;
                }
                proof {
                    assert forall|o: Object| before.contains(o) implies sources@.contains(o) by {
                        let a = choose|a: int| 0 <= a < before.len() && before[a] == o;
                        assert(sources@[a] == o);
                    }
                    assert forall|o: Object| held@.contains(o) implies sources@.contains(o) by {
                        let a = choose|a: int| 0 <= a < held@.len() && held@[a] == o;
                        assert(sources@[before.len() + a] == o);
                    }
                    assert forall|k: int, s: Object, t: Object|
                        0 <= k < h + 1 && self.links(k) is None && #[trigger] self.relation(
                            k,
                        ).contains_key((s, t)) implies sources@.contains(s) by {
                        if k < h {
                            assert(before.contains(s));
                        } else {
                            assert(held@.contains(s));
                        }
                    }
                }
            }
            h = h + 1;
        }
        self.observe(info, &sources);
        let ghost observed = *self;
        self.recompute_all_caches();
        proof {
            let start = *old(self);
            assert forall|k: int, s: Object, t: Object|
                0 <= k < start.count() && start.links(k) is None && !sources@.contains(s) implies #[trigger]
                weight(start.relation(k), s, t) == weight(
                select_relation(start.selector(k), *info),
                s,
                t,
            ) by {
                assert(start.link_ok(k));
                if start.relation(k).contains_key((s, t)) {
                    assert(sources@.contains(s));
                }
                lemma_base_sources(start.selector(k), *info, s, t);
            }
            assert forall|k: int| 0 <= k < self.count() && self.links(k) is None implies #[trigger]
                self.relation(k) == select_relation(self.selector(k), *info) by {
                assert(self.selector(k) == observed.selector(k) && self.links(k) == observed.links(
                    k,
                ));
                assert(observed.selector(k) == start.selector(k) && observed.links(k)
                    == start.links(k));
                assert(self.relation(k) == observed.relation(k));
                let live = select_relation(start.selector(k), *info);
                assert(observed.storage(k).wf());
                observed.storage(k).store().lemma_ranges();
                assert(start.link_ok(k));
                lemma_base_weights(start.selector(k), *info);
                assert forall|s: Object, t: Object| weight(observed.relation(k), s, t) == weight(
                    live,
                    s,
                    t,
                ) by {
                    assert(0 <= weight(live, s, t) <= 1);
                    if !sources@.contains(s) {
                        assert(weight(start.relation(k), s, t) == weight(live, s, t));
                    }
                }
                lemma_relation_ext(observed.relation(k), live);
            }
            assert(self.same_shape(start)) by {
                assert forall|k: int| 0 <= k < self.count() implies #[trigger] self.selector(k)
                    == start.selector(k) && self.links(k) == start.links(k) by {
                    assert(self.selector(k) == observed.selector(k));
                    assert(observed.selector(k) == start.selector(k));
                }
            }
            if start.settled() && start.idle() {
                Self::lemma_observed_is_pending(start, observed, *info, sources@);
                if self.fits() {
                    Self::lemma_tick_mirrors(start, observed, *self, *info, sources@);
                }
            }
        }
    }
}

} // verus!

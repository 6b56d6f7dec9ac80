//! Finite sets of world objects.

use crate::object::{lemma_object_key_injective, object_key, Object};
use crate::table::Table;
use vstd::prelude::*;

verus! {

/// A finite set of objects with constant-time membership and index-based
/// enumeration.
pub struct ObjectSet {
    members: Table<Object>,
}

impl View for ObjectSet {
    type V = Set<Object>;

    closed spec fn view(&self) -> Set<Object> {
        Set::new(|o: Object| self.members@.contains_key(object_key(o)))
    }
}

impl ObjectSet {
    /// Every stored key is the key of the object stored under it.
    pub closed spec fn wf(&self) -> bool {
        &&& self.members.wf()
        &&& forall|k: u128| #[trigger]
            self.members@.contains_key(k) ==> object_key(self.members@[k]) == k
    }

    /// The members in enumeration order.
    pub closed spec fn order(&self) -> Seq<Object> {
        Seq::new(self.members.order().len(), |i: int| self.members@[self.members.order()[i]])
    }

    /// The enumeration order lists every member exactly once.
    pub proof fn lemma_order(&self)
        requires
            self.wf(),
        ensures
            self.order().no_duplicates(),
            forall|o: Object| self@.contains(o) <==> self.order().contains(o),
    {
        self.members.lemma_order();
        let keys = self.members.order();
        assert forall|o: Object| self@.contains(o) implies self.order().contains(o) by {
            let k = object_key(o);
            assert(keys.contains(k));
            let i = choose|i: int| 0 <= i < keys.len() && keys[i] == k;
            lemma_object_key_injective(self.members@[k], o);
            assert(self.order()[i] == o);
        }
        assert forall|o: Object| self.order().contains(o) implies self@.contains(o) by {
            let i = choose|i: int| 0 <= i < self.order().len() && self.order()[i] == o;
            assert(self.members@.contains_key(keys[i]));
        }
        assert forall|i: int, j: int|
            0 <= i < self.order().len() && 0 <= j < self.order().len() && i != j implies self.order()[i]
            != self.order()[j] by {
            assert(self.members@.contains_key(keys[i]));
            assert(self.members@.contains_key(keys[j]));
        }
    }

    pub fn new() -> (s: Self)
        ensures
            s.wf(),
            s@ == Set::<Object>::empty(),
    {
        let s = ObjectSet { members: Table::new() };
        assert(s@ =~= Set::<Object>::empty());
        s
    }

    pub fn len(&self) -> (n: usize)
        requires
            self.wf(),
        ensures
            n == self.order().len(),
    {
        self.members.len()
    }

    pub fn contains(&self, o: Object) -> (r: bool)
        requires
            self.wf(),
        ensures
            r == self@.contains(o),
    {
        self.members.contains(o.key())
    }

    /// The member at a position of the enumeration.
    pub fn member_at(&self, i: usize) -> (o: Object)
        requires
            self.wf(),
            i < self.order().len(),
        ensures
            o == self.order()[i as int],
            self@.contains(o),
    {
        proof {
            self.members.lemma_order();
        }
        *self.members.value_at(i)
    }

    /// Adds an object; returns whether it was new.
    pub fn insert(&mut self, o: Object) -> (fresh: bool)
        requires
            old(self).wf(),
        ensures
            final(self).wf(),
            final(self)@ == old(self)@.insert(o),
            fresh == !old(self)@.contains(o),
    {
        let prev = self.members.insert(o.key(), o);
        proof {
            assert forall|p: Object| final(self)@.contains(p) == old(self)@.insert(o).contains(
                p,
            ) by {
                if object_key(p) == object_key(o) {
                    lemma_object_key_injective(p, o);
                }
            }
            assert(final(self)@ =~= old(self)@.insert(o));
        }
        prev.is_none()
    }

    /// Takes an object out; returns whether it was a member.
    pub fn remove(&mut self, o: Object) -> (present: bool)
        requires
            old(self).wf(),
        ensures
            final(self).wf(),
            final(self)@ == old(self)@.remove(o),
            present == old(self)@.contains(o),
    {
        let prev = self.members.remove(o.key());
        proof {
            assert forall|p: Object| final(self)@.contains(p) == old(self)@.remove(o).contains(
                p,
            ) by {
                if object_key(p) == object_key(o) {
                    lemma_object_key_injective(p, o);
                }
            }
            assert(final(self)@ =~= old(self)@.remove(o));
        }
        prev.is_some()
    }

    /// The members as a vector, each once.
    pub fn to_vec(&self) -> (v: Vec<Object>)
        requires
            self.wf(),
        ensures
            v@ == self.order(),
            v@.no_duplicates(),
            forall|o: Object| self@.contains(o) <==> v@.contains(o),
    {
        let mut v: Vec<Object> = Vec::new();
        let n = self.len();
        let mut i: usize = 0;
        while i < n
            invariant
                self.wf(),
                n == self.order().len(),
                i <= n,
                v@ == self.order().take(i as int),
            decreases n - i,
        {
            let o = self.member_at(i);
            v.push(o);
            assert(v@ =~= self.order().take(i + 1));
            i = i + 1;
        }
        proof {
            assert(self.order().take(n as int) =~= self.order());
            self.lemma_order();
        }
        v
    }
}

} // verus!

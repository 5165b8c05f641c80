//! A map keyed by identifiers, kept in the order of its keys.
//!
//! The entries lie in two vectors of one length, strictly ascending by key.
//! So a key is found by bisection, nothing occurs twice, and walking the
//! entries by index visits them in ascending key order.

use vstd::prelude::*;
use crate::ident::{id_lt, id_order, lemma_id_lt_irreflexive, lemma_id_lt_total, lemma_id_lt_transitive, Standing};

verus! {

/// The identifiers ascend strictly.
pub open spec fn ascending(ids: Seq<Seq<char>>) -> bool {
    forall|i: int, j: int| 0 <= i < j < ids.len() ==> id_lt(#[trigger] ids[i], #[trigger] ids[j])
}

/// Some position of `ids` holds `k`.
pub open spec fn listed(ids: Seq<Seq<char>>, k: Seq<char>) -> bool {
    exists|i: int| 0 <= i < ids.len() && #[trigger] ids[i] == k
}

/// A position of `ids` that holds `k`, where there is one.
pub open spec fn slot_of(ids: Seq<Seq<char>>, k: Seq<char>) -> int {
    choose|i: int| 0 <= i < ids.len() && #[trigger] ids[i] == k
}

/// The map that sends each identifier of `ids` to the value at its position.
pub open spec fn assoc<V>(ids: Seq<Seq<char>>, vals: Seq<V>) -> Map<Seq<char>, V> {
    Map::new(|k: Seq<char>| listed(ids, k), |k: Seq<char>| vals[slot_of(ids, k)])
}

/// Ascending identifiers are pairwise different.
pub proof fn lemma_ascending_distinct(ids: Seq<Seq<char>>)
    requires
        ascending(ids),
    ensures
        forall|i: int, j: int| 0 <= i < ids.len() && 0 <= j < ids.len() && i != j ==> #[trigger] ids[i] != #[trigger] ids[j],
{
    assert forall|i: int, j: int| 0 <= i < ids.len() && 0 <= j < ids.len() && i != j implies #[trigger] ids[i] != #[trigger] ids[j] by {
        lemma_id_lt_irreflexive(ids[i]);
        if i < j {
            assert(id_lt(ids[i], ids[j]));
        } else {
            assert(id_lt(ids[j], ids[i]));
        }
    }
}

/// In the map of ascending identifiers, the identifier at position `i` has
/// the value at position `i`.
pub proof fn lemma_assoc_at<V>(ids: Seq<Seq<char>>, vals: Seq<V>, i: int)
    requires
        ascending(ids),
        0 <= i < ids.len(),
    ensures
        assoc(ids, vals).contains_key(ids[i]),
        assoc(ids, vals)[ids[i]] == vals[i],
        slot_of(ids, ids[i]) == i,
{
    lemma_ascending_distinct(ids);
    assert(listed(ids, ids[i]));
}

/// Two ascending listings of one map are the same listing.
pub proof fn lemma_ascending_unique<V>(ids1: Seq<Seq<char>>, vals1: Seq<V>, ids2: Seq<Seq<char>>, vals2: Seq<V>)
    requires
        ascending(ids1),
        ascending(ids2),
        ids1.len() == vals1.len(),
        ids2.len() == vals2.len(),
        assoc(ids1, vals1) == assoc(ids2, vals2),
    ensures
        ids1 == ids2,
        vals1 == vals2,
    decreases ids1.len(),
{
    let m = assoc(ids1, vals1);
    if ids1.len() == 0 {
        if ids2.len() > 0 {
            lemma_assoc_at(ids2, vals2, 0);
            assert(listed(ids1, ids2[0]));
        }
        assert(ids1 =~= ids2);
        assert(vals1 =~= vals2);
    } else if ids2.len() == 0 {
        lemma_assoc_at(ids1, vals1, 0);
        assert(listed(ids2, ids1[0]));
    } else {
        // The first key of each listing is the least key of the map.
        lemma_assoc_at(ids1, vals1, 0);
        lemma_assoc_at(ids2, vals2, 0);
        assert(listed(ids2, ids1[0]));
        assert(listed(ids1, ids2[0]));
        let a = slot_of(ids2, ids1[0]);
        let b = slot_of(ids1, ids2[0]);
        lemma_id_lt_total(ids1[0], ids2[0]);
        lemma_id_lt_total(ids2[0], ids1[0]);
        if a > 0 {
            assert(id_lt(ids2[0], ids2[a]));
            if b > 0 {
                assert(id_lt(ids1[0], ids1[b]));
            }
        }
        assert(ids1[0] == ids2[0]);
        assert(vals1[0] == vals2[0]);
        let t1 = ids1.drop_first();
        let t2 = ids2.drop_first();
        let w1 = vals1.drop_first();
        let w2 = vals2.drop_first();
        lemma_ascending_distinct(ids1);
        lemma_ascending_distinct(ids2);
        assert(ascending(t1)) by {
            assert forall|i: int, j: int| 0 <= i < j < t1.len() implies id_lt(#[trigger] t1[i], #[trigger] t1[j]) by {
                assert(id_lt(ids1[i + 1], ids1[j + 1]));
            }
        }
        assert(ascending(t2)) by {
            assert forall|i: int, j: int| 0 <= i < j < t2.len() implies id_lt(#[trigger] t2[i], #[trigger] t2[j]) by {
                assert(id_lt(ids2[i + 1], ids2[j + 1]));
            }
        }
        assert(assoc(t1, w1) =~= assoc(t2, w2)) by {
            let m1 = assoc(t1, w1);
            let m2 = assoc(t2, w2);
            assert forall|k: Seq<char>| #[trigger] m1.contains_key(k) implies m2.contains_key(k) && m1[k] == m2[k] by {
                assert(listed(t1, k));
                let i = slot_of(t1, k);
                assert(t1[i] == k);
                assert(ids1[i + 1] == k);
                lemma_assoc_at(t1, w1, i);
                lemma_assoc_at(ids1, vals1, i + 1);
                assert(m.contains_key(k));
                assert(listed(ids2, k));
                let j = slot_of(ids2, k);
                assert(ids2[j] == k);
                assert(j != 0);
                assert(t2[j - 1] == k);
                lemma_assoc_at(t2, w2, j - 1);
                lemma_assoc_at(ids2, vals2, j);
                assert(w1[i] == vals1[i + 1]);
                assert(w2[j - 1] == vals2[j]);
            }
            assert forall|k: Seq<char>| #[trigger] m2.contains_key(k) implies m1.contains_key(k) by {
                assert(listed(t2, k));
                let i = slot_of(t2, k);
                assert(t2[i] == k);
                assert(ids2[i + 1] == k);
                lemma_assoc_at(ids2, vals2, i + 1);
                assert(m.contains_key(k));
                assert(listed(ids1, k));
                let j = slot_of(ids1, k);
                assert(ids1[j] == k);
                assert(j != 0);
                assert(t1[j - 1] == k);
                assert(listed(t1, k));
            }
        }
        lemma_ascending_unique(t1, w1, t2, w2);
        assert(ids1 =~= seq![ids1[0]] + t1);
        assert(ids2 =~= seq![ids2[0]] + t2);
        assert(vals1 =~= seq![vals1[0]] + w1);
        assert(vals2 =~= seq![vals2[0]] + w2);
    }
}

proof fn lemma_assoc_insert<V>(ids: Seq<Seq<char>>, vals: Seq<V>, i: int, k: Seq<char>, v: V)
    requires
        ascending(ids),
        ascending(ids.insert(i, k)),
        ids.len() == vals.len(),
        0 <= i <= ids.len(),
    ensures
        assoc(ids.insert(i, k), vals.insert(i, v)) == assoc(ids, vals).insert(k, v),
{
    let ids2 = ids.insert(i, k);
    let vals2 = vals.insert(i, v);
    let lhs = assoc(ids2, vals2);
    let rhs = assoc(ids, vals).insert(k, v);
    lemma_ascending_distinct(ids2);
    assert(ids2[i] == k);
    assert forall|x: Seq<char>| #[trigger] lhs.contains_key(x) implies rhs.contains_key(x) && lhs[x] == rhs[x] by {
        assert(listed(ids2, x));
        let j = slot_of(ids2, x);
        assert(ids2[j] == x);
        lemma_assoc_at(ids2, vals2, j);
        if j < i {
            assert(ids[j] == x);
            lemma_assoc_at(ids, vals, j);
            assert(vals2[j] == vals[j]);
        } else if j > i {
            assert(ids[j - 1] == x);
            lemma_assoc_at(ids, vals, j - 1);
            assert(vals2[j] == vals[j - 1]);
        } else {
            assert(vals2[j] == v);
        }
    }
    assert forall|x: Seq<char>| #[trigger] rhs.contains_key(x) implies lhs.contains_key(x) by {
        if x == k {
            assert(ids2[i] == x);
        } else {
            assert(listed(ids, x));
            let j = slot_of(ids, x);
            assert(ids[j] == x);
            if j < i {
                assert(ids2[j] == x);
            } else {
                assert(ids2[j + 1] == x);
            }
        }
        assert(listed(ids2, x));
    }
    assert(lhs =~= rhs);
}

proof fn lemma_assoc_update<V>(ids: Seq<Seq<char>>, vals: Seq<V>, i: int, v: V)
    requires
        ascending(ids),
        ids.len() == vals.len(),
        0 <= i < ids.len(),
    ensures
        assoc(ids, vals.update(i, v)) == assoc(ids, vals).insert(ids[i], v),
{
    let vals2 = vals.update(i, v);
    let lhs = assoc(ids, vals2);
    let rhs = assoc(ids, vals).insert(ids[i], v);
    assert(listed(ids, ids[i]));
    assert forall|x: Seq<char>| lhs.contains_key(x) implies lhs[x] == rhs[x] by {
        let j = slot_of(ids, x);
        lemma_assoc_at(ids, vals2, j);
        lemma_assoc_at(ids, vals, j);
        lemma_assoc_at(ids, vals, i);
    }
    assert(lhs =~= rhs);
}

proof fn lemma_assoc_remove<V>(ids: Seq<Seq<char>>, vals: Seq<V>, i: int)
    requires
        ascending(ids),
        ids.len() == vals.len(),
        0 <= i < ids.len(),
    ensures
        ascending(ids.remove(i)),
        assoc(ids.remove(i), vals.remove(i)) == assoc(ids, vals).remove(ids[i]),
{
    let ids2 = ids.remove(i);
    let vals2 = vals.remove(i);
    let lhs = assoc(ids2, vals2);
    let rhs = assoc(ids, vals).remove(ids[i]);
    lemma_ascending_distinct(ids);
    assert(ascending(ids2)) by {
        assert forall|a: int, b: int| 0 <= a < b < ids2.len() implies id_lt(#[trigger] ids2[a], #[trigger] ids2[b]) by {
            let a0 = if a < i { a } else { a + 1 };
            let b0 = if b < i { b } else { b + 1 };
            assert(id_lt(ids[a0], ids[b0]));
        }
    }
    assert forall|x: Seq<char>| lhs.contains_key(x) <==> rhs.contains_key(x) by {
        if lhs.contains_key(x) {
            let j = slot_of(ids2, x);
            let j0 = if j < i { j } else { j + 1 };
            assert(ids[j0] == x);
        }
        if rhs.contains_key(x) {
            let j = slot_of(ids, x);
            if j < i {
                assert(ids2[j] == x);
            } else {
                assert(ids2[j - 1] == x);
            }
        }
    }
    assert forall|x: Seq<char>| lhs.contains_key(x) implies lhs[x] == rhs[x] by {
        let j = slot_of(ids2, x);
        let j0 = if j < i { j } else { j + 1 };
        assert(ids[j0] == x);
        lemma_assoc_at(ids2, vals2, j);
        lemma_assoc_at(ids, vals, j0);
    }
    assert(lhs =~= rhs);
}

/// A map from identifiers to values of type `V`.
#[derive(Debug)]
pub struct IdMap<V> {
    keys: Vec<String>,
    values: Vec<V>,
}

impl<V> View for IdMap<V> {
    type V = Map<Seq<char>, V>;

    open spec fn view(&self) -> Map<Seq<char>, V> {
        assoc(self.ids(), self.vals())
    }
}

impl<V: Clone> Clone for IdMap<V> {
    /// A map with the same keys, each with a clone of its value.
    fn clone(&self) -> (r: IdMap<V>)
        ensures
            r.ids() == self.ids(),
            r.vals().len() == self.vals().len(),
            forall|i: int| 0 <= i < self.vals().len() ==> cloned(#[trigger] self.vals()[i], r.vals()[i]),
    {
        proof {
            use_type_invariant(self);
        }
        let keys = self.keys.clone();
        let values = self.values.clone();
        assert(keys@ =~= self.keys@);
        let r = IdMap { keys, values };
        assert(r.ids() =~= self.ids());
        r
    }
}

impl<V> IdMap<V> {
    #[verifier::type_invariant]
    spec fn well_formed(self) -> bool {
        &&& self.keys@.len() == self.values@.len()
        &&& ascending(self.ids())
    }

    /// The keys, in ascending order.
    pub closed spec fn ids(self) -> Seq<Seq<char>> {
        Seq::new(self.keys@.len(), |i: int| self.keys@[i]@)
    }

    /// The values, each at the position of its key.
    pub closed spec fn vals(self) -> Seq<V> {
        self.values@
    }

    /// The keys ascend and each has its value.
    pub open spec fn in_order(self) -> bool {
        &&& self.ids().len() == self.vals().len()
        &&& ascending(self.ids())
    }

    /// A map without entries.
    pub fn new() -> (r: IdMap<V>)
        ensures
            r@ == Map::<Seq<char>, V>::empty(),
            r.ids().len() == 0,
            r.in_order(),
    {
        let r = IdMap { keys: Vec::new(), values: Vec::new() };
        assert(r@ =~= Map::<Seq<char>, V>::empty());
        r
    }

    /// The number of entries.
    pub fn len(&self) -> (r: usize)
        ensures
            r == self.ids().len(),
            self.in_order(),
    {
        proof {
            use_type_invariant(self);
        }
        self.keys.len()
    }

    /// The first position whose key does not sort before `key`.
    fn lower_bound(&self, key: &str) -> (r: usize)
        ensures
            self.in_order(),
            r <= self.ids().len(),
            forall|j: int| 0 <= j < r ==> id_lt(#[trigger] self.ids()[j], key@),
            forall|j: int| r <= j < self.ids().len() ==> !id_lt(#[trigger] self.ids()[j], key@),
    {
        proof {
            use_type_invariant(self);
        }
        let mut lo: usize = 0;
        let mut hi: usize = self.keys.len();
        while lo < hi
            invariant
                self.in_order(),
                hi <= self.keys@.len(),
                lo <= hi,
                self.ids().len() == self.keys@.len(),
                forall|j: int| 0 <= j < lo ==> id_lt(#[trigger] self.ids()[j], key@),
                forall|j: int| hi <= j < self.ids().len() ==> !id_lt(#[trigger] self.ids()[j], key@),
            decreases hi - lo,
        {
            let mid: usize = lo + (hi - lo) / 2;
            let standing = id_order(self.keys[mid].as_str(), key);
            assert(self.ids()[mid as int] == self.keys@[mid as int]@);
            if standing == Standing::Before {
                assert forall|j: int| 0 <= j < mid + 1 implies id_lt(#[trigger] self.ids()[j], key@) by {
                    if j < mid {
                        assert(id_lt(self.ids()[j], self.ids()[mid as int]));
                        lemma_id_lt_transitive(self.ids()[j], self.ids()[mid as int], key@);
                    }
                }
                lo = mid + 1;
            } else {
                assert forall|j: int| mid <= j < self.ids().len() implies !id_lt(#[trigger] self.ids()[j], key@) by {
                    lemma_id_lt_irreflexive(key@);
                    lemma_id_lt_total(self.ids()[mid as int], key@);
                    if j > mid && id_lt(self.ids()[j], key@) {
                        assert(id_lt(self.ids()[mid as int], self.ids()[j]));
                        lemma_id_lt_transitive(self.ids()[mid as int], self.ids()[j], key@);
                    }
                }
                hi = mid;
            }
        }
        lo
    }

    /// The position of `key`, if the map has it.
    pub fn position(&self, key: &str) -> (r: Option<usize>)
        ensures
            self.in_order(),
            match r {
                Some(i) => i < self.ids().len() && self.ids()[i as int] == key@,
                None => !self@.contains_key(key@),
            },
            r is Some <==> self@.contains_key(key@),
    {
        let i = self.lower_bound(key);
        if i < self.keys.len() {
            let standing = id_order(self.keys[i].as_str(), key);
            assert(self.ids()[i as int] == self.keys@[i as int]@);
            if standing == Standing::Same {
                proof {
                    lemma_assoc_at(self.ids(), self.vals(), i as int);
                }
                return Some(i);
            }
        }
        proof {
            if self@.contains_key(key@) {
                let j = slot_of(self.ids(), key@);
                lemma_id_lt_irreflexive(key@);
                assert(self.ids()[j] == key@);
                if j > i {
                    assert(id_lt(self.ids()[i as int], self.ids()[j]));
                    lemma_id_lt_total(self.ids()[i as int], key@);
                }
            }
        }
        None
    }

    /// Whether the map has `key`.
    pub fn contains_key(&self, key: &str) -> (r: bool)
        ensures
            r == self@.contains_key(key@),
    {
        self.position(key).is_some()
    }

    /// The value of `key`, if the map has it.
    pub fn get(&self, key: &str) -> (r: Option<&V>)
        ensures
            r is Some <==> self@.contains_key(key@),
            r matches Some(v) ==> *v == self@[key@],
    {
        proof {
            use_type_invariant(self);
        }
        match self.position(key) {
            Some(i) => {
                proof {
                    lemma_assoc_at(self.ids(), self.vals(), i as int);
                }
                Some(&self.values[i])
            },
            None => None,
        }
    }

    /// The key at position `i`.
    pub fn key_at(&self, i: usize) -> (r: &String)
        requires
            i < self.ids().len(),
        ensures
            r@ == self.ids()[i as int],
    {
        &self.keys[i]
    }

    /// The value at position `i`.
    pub fn value_at(&self, i: usize) -> (r: &V)
        requires
            i < self.ids().len(),
        ensures
            *r == self.vals()[i as int],
            self.in_order(),
            self@.contains_key(self.ids()[i as int]),
            *r == self@[self.ids()[i as int]],
    {
        proof {
            use_type_invariant(self);
            lemma_assoc_at(self.ids(), self.vals(), i as int);
        }
        &self.values[i]
    }

    /// Puts `value` under `key`, and returns the value that was there.
    pub fn insert(&mut self, key: String, value: V) -> (r: Option<V>)
        ensures
            final(self)@ == old(self)@.insert(key@, value),
            r is Some <==> old(self)@.contains_key(key@),
            r matches Some(v) ==> v == old(self)@[key@],
            final(self).in_order(),
    {
        proof {
            use_type_invariant(&*self);
        }
        let i = self.lower_bound(key.as_str());
        let ghost ids0 = self.ids();
        let ghost vals0 = self.vals();
        let mut found = false;
        if i < self.keys.len() {
            let standing = id_order(self.keys[i].as_str(), key.as_str());
            assert(self.ids()[i as int] == self.keys@[i as int]@);
            found = standing == Standing::Same;
        }
        if found {
            let mut taken = IdMap { keys: Vec::new(), values: Vec::new() };
            std::mem::swap(self, &mut taken);
            let IdMap { keys, mut values } = taken;
            let mut slot = value;
            std::mem::swap(&mut slot, &mut values[i]);
            *self = IdMap { keys, values };
            proof {
                lemma_assoc_at(ids0, vals0, i as int);
                lemma_assoc_update(ids0, vals0, i as int, value);
                assert(self.ids() =~= ids0);
                assert(self.vals() =~= vals0.update(i as int, value));
            }
            Some(slot)
        } else {
            proof {
                lemma_id_lt_irreflexive(key@);
                if old(self)@.contains_key(key@) {
                    let j = slot_of(ids0, key@);
                    assert(ids0[j] == key@);
                    if j > i {
                        assert(id_lt(ids0[i as int], ids0[j]));
                    }
                }
                assert(ascending(ids0.insert(i as int, key@))) by {
                    let ids2 = ids0.insert(i as int, key@);
                    assert forall|a: int, b: int| 0 <= a < b < ids2.len() implies id_lt(#[trigger] ids2[a], #[trigger] ids2[b]) by {
                        if b == i {
                            assert(ids2[a] == ids0[a]);
                        } else if a == i {
                            assert(ids2[b] == ids0[b - 1]);
                            lemma_id_lt_total(ids0[b - 1], key@);
                            if ids0[b - 1] == key@ {
                                if b - 1 > i {
                                    assert(id_lt(ids0[i as int], ids0[b - 1]));
                                }
                            }
                        } else {
                            let a0 = if a < i { a } else { a - 1 };
                            let b0 = if b < i { b } else { b - 1 };
                            assert(id_lt(ids0[a0], ids0[b0]));
                        }
                    }
                }
                lemma_assoc_insert(ids0, vals0, i as int, key@, value);
            }
            let mut taken = IdMap { keys: Vec::new(), values: Vec::new() };
            std::mem::swap(self, &mut taken);
            let IdMap { mut keys, mut values } = taken;
            keys.insert(i, key);
            values.insert(i, value);
            assert(Seq::new(keys@.len(), |j: int| keys@[j]@) =~= ids0.insert(i as int, key@));
            *self = IdMap { keys, values };
            assert(self.ids() =~= ids0.insert(i as int, key@));
            assert(self.vals() =~= vals0.insert(i as int, value));
            None
        }
    }

    /// Takes `key` and its value out of the map, and returns the value.
    pub fn remove(&mut self, key: &str) -> (r: Option<V>)
        ensures
            final(self)@ == old(self)@.remove(key@),
            r is Some <==> old(self)@.contains_key(key@),
            r matches Some(v) ==> v == old(self)@[key@],
            final(self).in_order(),
    {
        proof {
            use_type_invariant(&*self);
        }
        let ghost ids0 = self.ids();
        let ghost vals0 = self.vals();
        match self.position(key) {
            Some(i) => {
                proof {
                    lemma_assoc_at(ids0, vals0, i as int);
                    lemma_assoc_remove(ids0, vals0, i as int);
                }
                let mut taken = IdMap { keys: Vec::new(), values: Vec::new() };
                std::mem::swap(self, &mut taken);
                let IdMap { mut keys, mut values } = taken;
                keys.remove(i);
                let v = values.remove(i);
                assert(Seq::new(keys@.len(), |j: int| keys@[j]@) =~= ids0.remove(i as int));
                *self = IdMap { keys, values };
                assert(self.ids() =~= ids0.remove(i as int));
                assert(self.vals() =~= vals0.remove(i as int));
                Some(v)
            },
            None => {
                assert(self@ =~= old(self)@.remove(key@));
                None
            },
        }
    }

    /// Puts `*value` at position `i`, and leaves in `*value` what was there.
    pub fn swap_value_at(&mut self, i: usize, value: &mut V)
        requires
            i < old(self).ids().len(),
        ensures
            final(self).ids() == old(self).ids(),
            final(self).vals() == old(self).vals().update(i as int, *old(value)),
            *final(value) == old(self).vals()[i as int],
            final(self)@ == old(self)@.insert(old(self).ids()[i as int], *old(value)),
            final(self).in_order(),
    {
        proof {
            use_type_invariant(&*self);
            lemma_assoc_update(self.ids(), self.vals(), i as int, *value);
        }
        let ghost ids0 = self.ids();
        let mut taken = IdMap { keys: Vec::new(), values: Vec::new() };
        std::mem::swap(self, &mut taken);
        let IdMap { keys, mut values } = taken;
        std::mem::swap(value, &mut values[i]);
        *self = IdMap { keys, values };
        assert(self.ids() =~= ids0);
    }

    /// The keys and the values of the map, both in ascending order of the keys.
    pub fn into_parts(self) -> (r: (Vec<String>, Vec<V>))
        ensures
            r.0@.len() == self.ids().len(),
            forall|i: int| 0 <= i < r.0@.len() ==> (#[trigger] r.0@[i])@ == self.ids()[i],
            r.1@ == self.vals(),
            self.in_order(),
    {
        proof {
            use_type_invariant(&self);
        }
        let IdMap { keys, values } = self;
        (keys, values)
    }

    /// Takes every entry out of the map.
    pub fn clear(&mut self)
        ensures
            final(self)@ == Map::<Seq<char>, V>::empty(),
            final(self).ids().len() == 0,
            final(self).in_order(),
    {
        *self = IdMap { keys: Vec::new(), values: Vec::new() };
        assert(self@ =~= Map::<Seq<char>, V>::empty());
    }
}

} // verus!

//! A map whose entries stand in the order of their names.
use crate::multi_robot::keys::Ordered;
use crate::text::Relation;
use vstd::prelude::*;

verus! {

/// A map in the order of its names, each of which occurs once.
#[derive(Clone, Debug)]
pub struct SortedMap<K: Ordered, V> {
    pub entries: Vec<(K, V)>,
}

/// Whether names stand in their order, each once.
pub open spec fn in_order<K: Ordered>(keys: Seq<K::Model>) -> bool {
    forall|i: int, j: int|
        0 <= i < j < keys.len() ==> K::before(#[trigger] keys[i], #[trigger] keys[j])
}

impl<K: Ordered, V> SortedMap<K, V> {
    /// The names, in their order.
    pub open spec fn keys(&self) -> Seq<K::Model> {
        self.entries@.map_values(|e: (K, V)| e.0.model())
    }

    /// Whether the names stand in their order.
    pub open spec fn wf(&self) -> bool {
        in_order::<K>(self.keys())
    }
}

impl<K: Ordered, V> View for SortedMap<K, V> {
    type V = Map<K::Model, V>;

    open spec fn view(&self) -> Map<K::Model, V> {
        Map::new(
            |k: K::Model| self.keys().contains(k),
            |k: K::Model| self.entries@[self.keys().index_of(k)].1,
        )
    }
}

/// Names in their order are distinct, so that each has one place.
pub proof fn places_are_unique<K: Ordered>(keys: Seq<K::Model>)
    requires
        in_order::<K>(keys),
    ensures
        keys.no_duplicates(),
        forall|i: int| 0 <= i < keys.len() ==> keys.index_of(#[trigger] keys[i]) == i,
{
    assert forall|i: int, j: int| 0 <= i < keys.len() && 0 <= j < keys.len() && i != j implies (
    #[trigger] keys[i]) != (#[trigger] keys[j]) by {
        K::is_total(keys[i], keys[j]);
        K::is_total(keys[j], keys[i]);
    }
    assert forall|i: int| 0 <= i < keys.len() implies keys.index_of(#[trigger] keys[i]) == i by {
        assert(keys.contains(keys[i]));
        let j = keys.index_of(keys[i]);
        assert(keys[j] == keys[i]);
    }
}

/// Names in their order are determined by which names there are.
pub proof fn order_is_determined<K: Ordered>(a: Seq<K::Model>, b: Seq<K::Model>)
    requires
        in_order::<K>(a),
        in_order::<K>(b),
        a.to_set() == b.to_set(),
    ensures
        a == b,
    decreases a.len(),
{
    places_are_unique::<K>(a);
    places_are_unique::<K>(b);
    a.unique_seq_to_set();
    b.unique_seq_to_set();
    if a.len() > 0 {
        let x = a.last();
        let y = b.last();
        assert(a.to_set().contains(x));
        assert(b.to_set().contains(y));
        let i = choose|i: int| 0 <= i < b.len() && b[i] == x;
        let j = choose|j: int| 0 <= j < a.len() && a[j] == y;
        if x != y {
            assert(K::before(b[i], b[b.len() - 1]));
            assert(K::before(a[j], a[a.len() - 1]));
            K::is_total(x, y);
        }
        let a1 = a.drop_last();
        let b1 = b.drop_last();
        assert(a1.to_set() =~= b1.to_set()) by {
            assert forall|k: K::Model| a1.to_set().contains(k) implies b1.to_set().contains(k) by {
                let p = choose|p: int| 0 <= p < a1.len() && a1[p] == k;
                assert(a[p] == k);
                assert(a.to_set().contains(k));
                let q = choose|q: int| 0 <= q < b.len() && b[q] == k;
                assert(b[q] == k && k != x);
                assert(b1[q] == k);
            }
            assert forall|k: K::Model| b1.to_set().contains(k) implies a1.to_set().contains(k) by {
                let p = choose|p: int| 0 <= p < b1.len() && b1[p] == k;
                assert(b[p] == k);
                assert(b.to_set().contains(k));
                let q = choose|q: int| 0 <= q < a.len() && a[q] == k;
                assert(a[q] == k && k != x);
                assert(a1[q] == k);
            }
        }
        order_is_determined::<K>(a1, b1);
        assert(a =~= a1.push(x));
        assert(b =~= b1.push(y));
    } else {
        assert(a =~= b);
    }
}

impl<K: Ordered, V> SortedMap<K, V> {
    /// An empty map.
    pub fn new() -> (map: Self)
        ensures
            map.wf(),
            map@ == Map::<K::Model, V>::empty(),
            map.entries@.len() == 0,
    {
        let map = SortedMap { entries: Vec::new() };
        assert(map@ =~= Map::<K::Model, V>::empty());
        map
    }

    /// How many names there are.
    pub fn len(&self) -> (n: usize)
        ensures
            n == self.keys().len(),
    {
        self.entries.len()
    }

    /// What stands under the name at a place.
    pub proof fn entry_at(&self, i: int)
        requires
            self.wf(),
            0 <= i < self.entries@.len(),
        ensures
            self.keys()[i] == self.entries@[i].0.model(),
            self@.dom().contains(self.keys()[i]),
            self@[self.keys()[i]] == self.entries@[i].1,
    {
        places_are_unique::<K>(self.keys());
        assert(self.keys().contains(self.keys()[i]));
    }

    /// The names are those that the map knows.
    pub proof fn keys_are_the_domain(&self)
        requires
            self.wf(),
        ensures
            self.keys().to_set() == self@.dom(),
            self.keys().no_duplicates(),
            self@.dom().finite(),
            self@.dom().len() == self.keys().len(),
    {
        places_are_unique::<K>(self.keys());
        assert(self.keys().to_set() =~= self@.dom());
        self.keys().unique_seq_to_set();
    }

    /// Where a name stands, or would stand.
    fn place(&self, key: &K) -> (place: (usize, bool))
        requires
            self.wf(),
        ensures
            place.0 <= self.entries@.len(),
            place.1 == self.keys().contains(key.model()),
            place.1 ==> place.0 < self.entries@.len() && self.keys()[place.0 as int]
                == key.model(),
            !place.1 ==> forall|i: int|
                0 <= i < place.0 ==> K::before(#[trigger] self.keys()[i], key.model()),
            !place.1 ==> forall|i: int|
                place.0 <= i < self.entries@.len() ==> K::before(
                    key.model(),
                    #[trigger] self.keys()[i],
                ),
    {
        let mut i: usize = 0;
        while i < self.entries.len()
            invariant
                self.wf(),
                i <= self.entries@.len(),
                forall|j: int| 0 <= j < i ==> K::before(#[trigger] self.keys()[j], key.model()),
            decreases self.entries@.len() - i,
        {
            assert(self.keys()[i as int] == self.entries@[i as int].0.model());
            match self.entries[i].0.order(key) {
                Relation::Before => {
                    i = i + 1;
                },
                Relation::Same => {
                    return (i, true);
                },
                Relation::After => {
                    proof {
                        let keys = self.keys();
                        assert forall|j: int| i <= j < keys.len() implies K::before(
                            key.model(),
                            #[trigger] keys[j],
                        ) by {
                            if j > i {
                                assert(K::before(keys[i as int], keys[j]));
                                K::is_transitive(key.model(), keys[i as int], keys[j]);
                            }
                        }
                        assert forall|j: int| 0 <= j < keys.len() implies #[trigger] keys[j]
                            != key.model() by {
                            K::is_total(key.model(), keys[j]);
                            K::is_total(keys[j], key.model());
                        }
                    }
                    return (i, false);
                },
            }
        }
        proof {
            let keys = self.keys();
            assert forall|j: int| 0 <= j < keys.len() implies #[trigger] keys[j]
                != key.model() by {
                K::is_total(keys[j], key.model());
            }
        }
        (i, false)
    }

    /// Where a name stands.
    pub fn find(&self, key: &K) -> (place: Option<usize>)
        requires
            self.wf(),
        ensures
            place is Some <==> self@.dom().contains(key.model()),
            place matches Some(i) ==> i < self.entries@.len() && self.keys()[i as int]
                == key.model() && self@[key.model()] == self.entries@[i as int].1,
    {
        let (i, found) = self.place(key);
        if found {
            proof {
                self.entry_at(i as int);
            }
            Some(i)
        } else {
            None
        }
    }

    /// What stands under a name.
    pub fn get(&self, key: &K) -> (value: Option<&V>)
        requires
            self.wf(),
        ensures
            match value {
                Some(v) => self@.dom().contains(key.model()) && *v == self@[key.model()],
                None => !self@.dom().contains(key.model()),
            },
    {
        match self.find(key) {
            Some(i) => Some(&self.entries[i].1),
            None => None,
        }
    }

    /// Whether a name is there.
    pub fn contains(&self, key: &K) -> (found: bool)
        requires
            self.wf(),
        ensures
            found == self@.dom().contains(key.model()),
    {
        self.find(key).is_some()
    }

    /// Puts a value under a name that is not there yet.
    pub fn insert(&mut self, key: K, value: V)
        requires
            old(self).wf(),
            !old(self)@.dom().contains(key.model()),
        ensures
            final(self).wf(),
            final(self)@ == old(self)@.insert(key.model(), value),
            final(self).keys().len() == old(self).keys().len() + 1,
    {
        let (i, found) = self.place(&key);
        let ghost before = *self;
        let ghost k = key.model();
        let ghost v = value;
        self.entries.insert(i, (key, value));
        proof {
            let keys = self.keys();
            assert(keys =~= before.keys().insert(i as int, k));
            assert forall|a: int, b: int| 0 <= a < b < keys.len() implies K::before(
                #[trigger] keys[a],
                #[trigger] keys[b],
            ) by {
                let fa = if a < i {
                    a
                } else {
                    a - 1
                };
                let fb = if b < i {
                    b
                } else {
                    b - 1
                };
                if a == i {
                    assert(keys[b] == before.keys()[fb]);
                } else if b == i {
                    assert(keys[a] == before.keys()[fa]);
                } else {
                    assert(keys[a] == before.keys()[fa] && keys[b] == before.keys()[fb]);
                }
            }
            let target = before@.insert(k, v);
            assert(self@ =~= target) by {
                assert forall|m: K::Model| #[trigger] self@.dom().contains(m)
                    <==> target.dom().contains(m) by {
                    if self@.dom().contains(m) {
                        let a = choose|a: int| 0 <= a < keys.len() && keys[a] == m;
                        if a != i {
                            let fa = if a < i {
                                a
                            } else {
                                a - 1
                            };
                            assert(before.keys()[fa] == m);
                        }
                    }
                    if target.dom().contains(m) {
                        if m == k {
                            assert(keys[i as int] == m);
                        } else {
                            let a = choose|a: int|
                                0 <= a < before.keys().len() && before.keys()[a] == m;
                            let fa = if a < i {
                                a
                            } else {
                                a + 1
                            };
                            assert(keys[fa] == m);
                        }
                    }
                }
                assert forall|m: K::Model| #[trigger] self@.dom().contains(m) implies self@[m]
                    == target[m] by {
                    let a = choose|a: int| 0 <= a < keys.len() && keys[a] == m;
                    self.entry_at(a);
                    if a != i {
                        let fa = if a < i {
                            a
                        } else {
                            a - 1
                        };
                        before.entry_at(fa);
                        assert(before.keys()[fa] == m);
                        K::is_total(m, k);
                    }
                }
            }
        }
    }
}

/// Two maps that know the same are walked alike, and what is put under two names does not depend on
/// which came first: so the walk does not depend on the order of arrival.
pub proof fn walks_do_not_depend_on_arrival<K: Ordered, V>(
    x: SortedMap<K, V>,
    y: SortedMap<K, V>,
    base: Map<K::Model, V>,
    a: K::Model,
    u: V,
    b: K::Model,
    v: V,
)
    requires
        a != b,
        x.wf(),
        y.wf(),
        x@ == base.insert(a, u).insert(b, v),
        y@ == base.insert(b, v).insert(a, u),
    ensures
        x@ == y@,
        x.keys() == y.keys(),
{
    assert(x@ =~= y@);
    x.keys_are_the_domain();
    y.keys_are_the_domain();
    order_is_determined::<K>(x.keys(), y.keys());
}

} // verus!

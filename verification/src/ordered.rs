//! Increasing sequences of integer identities, and the walk of an ordered map or set.
use std::collections::{BTreeMap, BTreeSet};

use vstd::prelude::*;
use vstd::std_specs::cmp::OrdSpec;
use vstd::std_specs::iter::IteratorSpec;

verus! {

broadcast use {vstd::std_specs::btree::group_btree_axioms, vstd::laws_cmp::group_laws_cmp};

/// Every element is smaller than all that follow it.
pub open spec fn increasing(s: Seq<u64>) -> bool {
    forall|i: int, j: int| 0 <= i < j < s.len() ==> s[i] < s[j]
}

/// The members of a finite set in ascending order.
pub open spec fn ascending(members: Set<u64>) -> Seq<u64> {
    choose|s: Seq<u64>| increasing(s) && s.to_set() == members
}

/// An increasing sequence lists its own members in ascending order.
pub proof fn increasing_is_ascending(s: Seq<u64>)
    requires
        increasing(s),
    ensures
        ascending(s.to_set()) == s,
{
    let t = ascending(s.to_set());
    assert(increasing(t) && t.to_set() == s.to_set());
    increasing_is_determined(s, t);
}

/// The ascending list of a finite set is increasing and holds exactly its members.
pub proof fn ascending_lists_members(members: Set<u64>)
    requires
        members.finite(),
    ensures
        increasing(ascending(members)),
        ascending(members).to_set() == members,
{
    ascending_exists(members);
}

proof fn ascending_exists(members: Set<u64>)
    requires
        members.finite(),
    ensures
        exists|s: Seq<u64>| increasing(s) && #[trigger] s.to_set() == members,
    decreases members.len(),
{
    if members.len() == 0 {
        assert(Seq::<u64>::empty().to_set() =~= members);
        assert(increasing(Seq::<u64>::empty()));
    } else {
        let top = largest(members);
        ascending_exists(members.remove(top));
        let s = choose|s: Seq<u64>| increasing(s) && #[trigger] s.to_set() == members.remove(top);
        let t = s.push(top);
        assert forall|i: int, j: int| 0 <= i < j < t.len() implies t[i] < t[j] by {
            if j == s.len() {
                assert(s.to_set().contains(s[i]));
            }
        }
        s.lemma_push_to_set_commute(top);
        assert(t.to_set() =~= members);
    }
}

proof fn largest(members: Set<u64>) -> (top: u64)
    requires
        members.finite(),
        members.len() > 0,
    ensures
        members.contains(top),
        forall|x: u64| #[trigger] members.contains(x) ==> x <= top,
    decreases members.len(),
{
    let a = members.choose();
    if members.len() == 1 {
        assert(members.remove(a).len() == 0);
        assert forall|x: u64| #[trigger] members.contains(x) implies x <= a by {
            if x != a {
                assert(members.remove(a).contains(x));
            }
        }
        a
    } else {
        let b = largest(members.remove(a));
        assert forall|x: u64| #[trigger] members.contains(x) && x != a implies x <= b by {
            assert(members.remove(a).contains(x));
        }
        if a < b {
            b
        } else {
            a
        }
    }
}

/// The keys of an ordered map in ascending order.
pub fn map_keys<V>(m: &BTreeMap<u64, V>) -> (keys: Vec<u64>)
    ensures
        keys@ == ascending(m@.dom()),
        increasing(keys@),
        keys@.to_set() == m@.dom(),
        keys@.len() == m@.dom().len(),
{
    let mut keys: Vec<u64> = Vec::new();
    let walk = m.iter();
    let ghost s = walk.remaining();
    let ghost ks = s.map_values(|kv: (&u64, &V)| *kv.0);
    assert(increasing(ks)) by {
        assert forall|i: int, j: int| 0 <= i < j < ks.len() implies ks[i] < ks[j] by {
            assert(ks[i].cmp_spec(&ks[j]) is Less);
        }
    }
    for kv in it: walk
        invariant
            it.seq() == s,
            keys@.len() == it.index(),
            forall|i: int| 0 <= i < keys@.len() ==> keys@[i] == *(#[trigger] it.seq()[i]).0,
    {
        keys.push(*kv.0);
    }
    assert(keys@ =~= ks);
    proof {
        assert forall|k: u64| keys@.to_set().contains(k) == m@.dom().contains(k) by {
            if m@.dom().contains(k) {
                let i = choose|i: int| 0 <= i < s.len() && s[i] == (&k, &m@[k]);
                assert(ks[i] == k);
            }
            if keys@.to_set().contains(k) {
                let i = choose|i: int| 0 <= i < ks.len() && ks[i] == k;
                assert(m@.contains_key(*s[i].0));
            }
        }
        assert(keys@.to_set() =~= m@.dom());
        increasing_is_ascending(keys@);
    }
    keys
}

/// The members of an ordered set in ascending order.
pub fn set_members(s: &BTreeSet<u64>) -> (members: Vec<u64>)
    ensures
        members@ == ascending(s@),
        increasing(members@),
        members@.to_set() == s@,
        members@.len() == s@.len(),
{
    let mut members: Vec<u64> = Vec::new();
    let walk = s.iter();
    let ghost ks = walk.remaining();
    assert forall|i: int, j: int| 0 <= i < j < ks.len() implies *ks[i] < *ks[j] by {
        assert(OrdSpec::cmp_spec(&ks[i], &ks[j]) is Less);
    }
    for k in it: walk
        invariant
            it.seq() == ks,
            members@.len() == it.index(),
            forall|i: int| 0 <= i < members@.len() ==> members@[i] == *(#[trigger] it.seq()[i]),
    {
        members.push(*k);
    }
    assert(members@ =~= ks.unref());
    proof {
        increasing_is_ascending(members@);
    }
    members
}

/// A copy of a list.
pub fn copy_list<T: Copy>(list: &Vec<T>) -> (copy: Vec<T>)
    ensures
        copy@ == list@,
{
    let mut copy: Vec<T> = Vec::new();
    for i in 0..list.len()
        invariant
            copy@ == list@.take(i as int),
    {
        copy.push(list[i]);
        assert(copy@ =~= list@.take(i + 1));
    }
    assert(copy@ =~= list@);
    copy
}

/// A copy of the list under a key, empty where there is none.
pub fn copy_list_of<T: Copy>(m: &BTreeMap<u64, Vec<T>>, key: u64) -> (copy: Vec<T>)
    ensures
        copy@ == list_of(lists(m@), key),
{
    match m.get(&key) {
        Some(list) => copy_list(list),
        None => Vec::new(),
    }
}

/// An ordered map of lists, as a map of sequences.
pub open spec fn lists<T>(m: Map<u64, Vec<T>>) -> Map<u64, Seq<T>> {
    m.map_values(|v: Vec<T>| v@)
}

/// The sequence under a key, empty where there is none.
pub open spec fn list_of<T>(m: Map<u64, Seq<T>>, key: u64) -> Seq<T> {
    if m.contains_key(key) {
        m[key]
    } else {
        Seq::empty()
    }
}

/// Appends to the list under a key, which starts empty.
pub fn push_to<T>(m: &mut BTreeMap<u64, Vec<T>>, key: u64, item: T)
    ensures
        lists(final(m)@) == lists(old(m)@).insert(
            key,
            list_of(lists(old(m)@), key).push(item),
        ),
{
    let ghost m0 = m@;
    let mut list: Vec<T> = match m.remove(&key) {
        Some(list) => list,
        None => Vec::new(),
    };
    list.push(item);
    m.insert(key, list);
    assert(lists(m@) =~= lists(m0).insert(key, list_of(lists(m0), key).push(item)));
}

/// Removes the listed keys from an ordered map.
pub fn remove_all<V>(m: &mut BTreeMap<u64, V>, ids: &Vec<u64>)
    ensures
        final(m)@ == old(m)@.remove_keys(ids@.to_set()),
{
    assert(m@ =~= old(m)@.remove_keys(ids@.take(0).to_set()));
    for i in 0..ids.len()
        invariant
            m@ == old(m)@.remove_keys(ids@.take(i as int).to_set()),
    {
        m.remove(&ids[i]);
        proof {
            assert(ids@.take(i + 1) =~= ids@.take(i as int).push(ids@[i as int]));
            ids@.take(i as int).lemma_push_to_set_commute(ids@[i as int]);
            assert(m@ =~= old(m)@.remove_keys(ids@.take(i + 1).to_set()));
        }
    }
    assert(ids@.take(ids@.len() as int) =~= ids@);
}

/// Keeps the listed keys of an ordered map and removes all others.
pub fn retain_ids<V>(m: &mut BTreeMap<u64, V>, ids: &Vec<u64>)
    ensures
        final(m)@ == old(m)@.restrict(ids@.to_set()),
{
    let keys = map_keys(m);
    let mut gone: Vec<u64> = Vec::new();
    for i in 0..keys.len()
        invariant
            forall|k: u64| #[trigger]
                gone@.contains(k) <==> keys@.take(i as int).contains(k) && !ids@.contains(k),
    {
        let ghost before = gone@;
        let key: u64 = keys[i];
        let kept = contains_id(ids, key);
        if !kept {
            gone.push(key);
        }
        proof {
            assert(keys@.take(i + 1) =~= keys@.take(i as int).push(key));
            assert forall|k: u64| #[trigger] gone@.contains(k) <==> keys@.take(i + 1).contains(k)
                && !ids@.contains(k) by {
                vstd::seq_lib::lemma_seq_contains_after_push(keys@.take(i as int), key, k);
                vstd::seq_lib::lemma_seq_contains_after_push(before, key, k);
            }
        }
    }
    assert(keys@.take(keys@.len() as int) =~= keys@);
    remove_all(m, &gone);
    proof {
        assert forall|k: u64| #[trigger] m@.contains_key(k) <==> old(m)@.contains_key(k)
            && ids@.to_set().contains(k) by {
            assert(keys@.to_set().contains(k) == keys@.contains(k));
            assert(gone@.contains(k) == gone@.to_set().contains(k));
        }
        assert(m@ =~= old(m)@.restrict(ids@.to_set()));
    }
}

/// Whether an identity is in a list.
pub fn contains_id(ids: &Vec<u64>, id: u64) -> (found: bool)
    ensures
        found == ids@.contains(id),
{
    for i in 0..ids.len()
        invariant
            !ids@.take(i as int).contains(id),
    {
        if ids[i] == id {
            return true;
        }
        assert(ids@.take(i + 1) =~= ids@.take(i as int).push(ids@[i as int]));
    }
    assert(ids@.take(ids@.len() as int) =~= ids@);
    false
}

/// The identities of a list in ascending order, each once.
pub fn sorted_unique(ids: &Vec<u64>) -> (sorted: Vec<u64>)
    ensures
        sorted@ == ascending(ids@.to_set()),
        increasing(sorted@),
        sorted@.to_set() == ids@.to_set(),
{
    let mut members: BTreeSet<u64> = BTreeSet::new();
    assert(ids@.take(0) =~= Seq::<u64>::empty());
    assert(members@ =~= ids@.take(0).to_set());
    for i in 0..ids.len()
        invariant
            members@ == ids@.take(i as int).to_set(),
    {
        members.insert(ids[i]);
        proof {
            assert(ids@.take(i + 1) =~= ids@.take(i as int).push(ids@[i as int]));
            ids@.take(i as int).lemma_push_to_set_commute(ids@[i as int]);
        }
    }
    assert(ids@.take(ids@.len() as int) =~= ids@);
    set_members(&members)
}

/// An increasing sequence is determined by its members.
pub proof fn increasing_is_determined(a: Seq<u64>, b: Seq<u64>)
    requires
        increasing(a),
        increasing(b),
        a.to_set() == b.to_set(),
    ensures
        a == b,
    decreases a.len(),
{
    if a.len() == 0 {
        if b.len() > 0 {
            assert(b.to_set().contains(b[0]));
            assert(a.contains(b[0]));
        }
        assert(a =~= b);
    } else {
        assert(a.to_set().contains(a.last()));
        assert(b.contains(a.last()));
        let i = choose|i: int| 0 <= i < b.len() && b[i] == a.last();
        assert(b.to_set().contains(b.last()));
        assert(a.contains(b.last()));
        let j = choose|j: int| 0 <= j < a.len() && a[j] == b.last();
        assert(a.last() == b.last());
        assert forall|x: u64| a.drop_last().to_set().contains(x) == b.drop_last().to_set().contains(x) by {
            if a.drop_last().contains(x) {
                let k = choose|k: int| 0 <= k < a.drop_last().len() && a.drop_last()[k] == x;
                assert(a[k] == x);
                assert(a.to_set().contains(x));
                assert(b.contains(x));
                let l = choose|l: int| 0 <= l < b.len() && b[l] == x;
                assert(b.drop_last()[l] == x);
            }
            if b.drop_last().contains(x) {
                let k = choose|k: int| 0 <= k < b.drop_last().len() && b.drop_last()[k] == x;
                assert(b[k] == x);
                assert(b.to_set().contains(x));
                assert(a.contains(x));
                let l = choose|l: int| 0 <= l < a.len() && a[l] == x;
                assert(a.drop_last()[l] == x);
            }
        }
        assert(a.drop_last().to_set() =~= b.drop_last().to_set());
        increasing_is_determined(a.drop_last(), b.drop_last());
        assert(a =~= a.drop_last().push(a.last()));
        assert(b =~= b.drop_last().push(b.last()));
    }
}

/// Filtering one element more keeps it exactly where it satisfies the predicate.
pub proof fn filter_next<T>(s: Seq<T>, keep: spec_fn(T) -> bool, i: int)
    requires
        0 <= i < s.len(),
    ensures
        s.take(i + 1).filter(keep) == if keep(s[i]) {
            s.take(i).filter(keep).push(s[i])
        } else {
            s.take(i).filter(keep)
        },
{
    assert(s.take(i + 1) =~= s.take(i).push(s[i]));
    s.take(i).lemma_filter_push(s[i], keep);
}

/// Filtering by the same predicate again changes nothing, and commutes with appending.
pub proof fn filter_append<T>(s: Seq<T>, x: T, keep: spec_fn(T) -> bool)
    ensures
        s.filter(keep).push(x).filter(keep) == s.push(x).filter(keep),
        s.filter(keep).filter(keep) == s.filter(keep),
{
    s.lemma_filter_push(x, keep);
    s.filter(keep).lemma_filter_push(x, keep);
    filter_twice(s, keep);
}

/// Filtering by the same predicate again changes nothing.
pub proof fn filter_twice<T>(s: Seq<T>, keep: spec_fn(T) -> bool)
    ensures
        s.filter(keep).filter(keep) == s.filter(keep),
    decreases s.len(),
{
    reveal(Seq::filter);
    if s.len() > 0 {
        filter_twice(s.drop_last(), keep);
        if keep(s.last()) {
            s.drop_last().filter(keep).lemma_filter_push(s.last(), keep);
        }
    }
}

/// A filtered sequence holds exactly the elements that satisfy the predicate.
pub proof fn filter_members<T>(s: Seq<T>, keep: spec_fn(T) -> bool)
    ensures
        forall|x: T| #[trigger] s.filter(keep).contains(x) <==> s.contains(x) && keep(x),
{
    assert forall|x: T| #[trigger] s.filter(keep).contains(x) implies s.contains(x) && keep(x) by {
        let i = choose|i: int| 0 <= i < s.filter(keep).len() && s.filter(keep)[i] == x;
        s.lemma_filter_pred(keep, i);
        s.lemma_filter_contains_rev(keep, x);
    }
    assert forall|x: T| s.contains(x) && keep(x) implies #[trigger] s.filter(keep).contains(x) by {
        let i = choose|i: int| 0 <= i < s.len() && s[i] == x;
        s.lemma_filter_contains(keep, i);
    }
}

/// Mapping what a list gives a result for goes element by element over what has one.
pub proof fn filter_map_pairs<A, B>(s: Seq<A>, f: spec_fn(A) -> Option<B>, keep: spec_fn(A) -> bool)
    requires
        forall|i: int| 0 <= i < s.len() ==> (keep(#[trigger] s[i]) <==> f(s[i]) is Some),
    ensures
        s.filter_map(f).len() == s.filter(keep).len(),
        forall|j: int|
            0 <= j < s.filter(keep).len() ==> f(#[trigger] s.filter(keep)[j]) == Some(
                s.filter_map(f)[j],
            ),
    decreases s.len(),
{
    reveal(Seq::filter);
    reveal(Seq::filter_map);
    if s.len() > 0 {
        let front = s.drop_last();
        assert forall|i: int| 0 <= i < front.len() implies (keep(#[trigger] front[i]) <==> f(
            front[i],
        ) is Some) by {
            assert(front[i] == s[i]);
        }
        filter_map_pairs(front, f, keep);
        assert(keep(s[s.len() - 1]) <==> f(s[s.len() - 1]) is Some);
        assert forall|j: int| 0 <= j < s.filter(keep).len() implies f(
            #[trigger] s.filter(keep)[j],
        ) == Some(s.filter_map(f)[j]) by {
            if j < front.filter(keep).len() {
                assert(s.filter(keep)[j] == front.filter(keep)[j]);
                assert(s.filter_map(f)[j] == front.filter_map(f)[j]);
            }
        }
    }
}

/// Keeping what meets one condition, then what meets another, keeps what meets both.
pub proof fn filter_both<A>(s: Seq<A>, first: spec_fn(A) -> bool, second: spec_fn(A) -> bool)
    ensures
        s.filter(first).filter(second) == s.filter(|a: A| first(a) && second(a)),
    decreases s.len(),
{
    let both = |a: A| first(a) && second(a);
    reveal(Seq::filter);
    if s.len() > 0 {
        let front = s.drop_last();
        filter_both(front, first, second);
        if first(s.last()) {
            let kept = front.filter(first);
            assert(kept.push(s.last()).drop_last() =~= kept);
            assert(kept.push(s.last()).filter(second) =~= if second(s.last()) {
                kept.filter(second).push(s.last())
            } else {
                kept.filter(second)
            });
        }
    }
}

/// Picking from a list of images keeps as many as picking by what the images meet.
pub proof fn filter_of_map<A, B>(s: Seq<A>, f: spec_fn(A) -> B, keep: spec_fn(B) -> bool)
    ensures
        s.map_values(f).filter(keep).len() == s.filter(|a: A| keep(f(a))).len(),
    decreases s.len(),
{
    reveal(Seq::filter);
    if s.len() > 0 {
        filter_of_map(s.drop_last(), f, keep);
        assert(s.map_values(f).drop_last() =~= s.drop_last().map_values(f));
    }
}

} // verus!

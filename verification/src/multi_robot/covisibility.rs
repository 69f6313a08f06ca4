//! Which keyframes of a session see the same landmarks.
use crate::ordered::{
    ascending, copy_list_of, increasing, list_of, lists, map_keys, push_to, set_members,
};
use std::collections::{BTreeMap, BTreeSet};
use vstd::prelude::*;

verus! {

broadcast use vstd::std_specs::btree::group_btree_axioms;

/// How many landmarks two keyframes have to share to be neighbours.
pub const SHARED_LANDMARKS: usize = 15;

/// A keyframe and the landmarks that it sees.
#[verifier::ext_equal]
pub ghost struct Sighting {
    pub id: u64,
    pub landmarks: Set<u64>,
}

/// Whether keyframes come with growing numbers and finitely many landmarks.
pub open spec fn sightings_grow(history: Seq<Sighting>) -> bool {
    &&& forall|i: int, j: int|
        0 <= i < j < history.len() ==> (#[trigger] history[i]).id < (#[trigger] history[j]).id
    &&& forall|i: int| 0 <= i < history.len() ==> (#[trigger] history[i]).landmarks.finite()
}

/// How many landmarks of a set a keyframe sees.
pub open spec fn shares(s: Sighting, landmarks: Set<u64>) -> nat {
    s.landmarks.intersect(landmarks).len()
}

/// Whether two keyframes are neighbours: two different ones that share enough landmarks.
pub open spec fn linked(history: Seq<Sighting>, a: u64, b: u64) -> bool {
    exists|i: int, j: int|
        0 <= i < history.len() && 0 <= j < history.len() && i != j && (
        #[trigger] history[i]).id == a && (#[trigger] history[j]).id == b && shares(
            history[i],
            history[j].landmarks,
        ) >= SHARED_LANDMARKS
}

/// The keyframes within some steps between neighbours.
pub open spec fn within(history: Seq<Sighting>, ids: Set<u64>, steps: nat) -> Set<u64>
    decreases steps,
{
    if steps == 0 {
        ids
    } else {
        let near = within(history, ids, (steps - 1) as nat);
        Set::new(|b: u64| near.contains(b) || reached(history, near, b))
    }
}

/// Whether a keyframe is a neighbour of one of a set.
pub open spec fn reached(history: Seq<Sighting>, from: Set<u64>, b: u64) -> bool {
    exists|a: u64| #[trigger] from.contains(a) && linked(history, a, b)
}

/// The keyframes that see a landmark, in their order.
pub open spec fn seen_by(history: Seq<Sighting>, landmark: u64) -> Seq<u64> {
    history.filter(|s: Sighting| s.landmarks.contains(landmark)).map_values(|s: Sighting| s.id)
}

/// The neighbours under a key.
pub open spec fn near_of(neighbors: Map<u64, BTreeSet<u64>>, a: u64) -> Set<u64> {
    if neighbors.contains_key(a) {
        neighbors[a]@
    } else {
        Set::empty()
    }
}

/// Which keyframes see the same landmarks.
pub struct Covisibility {
    observers: BTreeMap<u64, Vec<u64>>,
    neighbors: BTreeMap<u64, BTreeSet<u64>>,
    history: Ghost<Seq<Sighting>>,
}

impl View for Covisibility {
    type V = Seq<Sighting>;

    closed spec fn view(&self) -> Seq<Sighting> {
        self.history@
    }
}

/// Landmarks are indexed by the keyframes that see them.
spec fn observers_match(observers: Map<u64, Vec<u64>>, history: Seq<Sighting>) -> bool {
    forall|l: u64| #[trigger] list_of(lists(observers), l) == seen_by(history, l)
}

/// Neighbours are those that share enough landmarks.
spec fn neighbors_match(neighbors: Map<u64, BTreeSet<u64>>, history: Seq<Sighting>) -> bool {
    forall|a: u64, b: u64| #[trigger] near_of(neighbors, a).contains(b) <==> linked(history, a, b)
}

/// Whether a keyframe has come.
spec fn has_come(history: Seq<Sighting>, id: u64) -> bool {
    exists|i: int| 0 <= i < history.len() && (#[trigger] history[i]).id == id
}

proof fn seen_by_members(history: Seq<Sighting>, landmark: u64)
    requires
        sightings_grow(history),
    ensures
        increasing(seen_by(history, landmark)),
        forall|i: int|
            0 <= i < history.len() ==> (seen_by(history, landmark).contains(
                (#[trigger] history[i]).id,
            ) <==> history[i].landmarks.contains(landmark)),
        forall|k: int|
            0 <= k < seen_by(history, landmark).len() ==> has_come(
                history,
                #[trigger] seen_by(history, landmark)[k],
            ),
    decreases history.len(),
{
    reveal(Seq::filter);
    let keep = |s: Sighting| s.landmarks.contains(landmark);
    let name = |s: Sighting| s.id;
    let all = seen_by(history, landmark);
    if history.len() > 0 {
        let front = history.drop_last();
        let last = history.last();
        seen_by_members(front, landmark);
        let rest = seen_by(front, landmark);
        if keep(last) {
            assert(all =~= rest.push(last.id));
            assert(all[all.len() - 1] == last.id);
        } else {
            assert(all =~= rest);
        }
        assert forall|k: int| 0 <= k < all.len() implies has_come(history, #[trigger] all[k]) by {
            if k < rest.len() {
                assert(all[k] == rest[k]);
                assert(has_come(front, rest[k]));
                let i = choose|i: int|
                    0 <= i < front.len() && (#[trigger] front[i]).id == rest[k];
                assert(history[i].id == all[k]);
            } else {
                assert(history[history.len() - 1].id == all[k]);
            }
        }
        assert forall|i: int, j: int| 0 <= i < j < all.len() implies all[i] < all[j] by {
            if j < rest.len() {
                assert(all[i] == rest[i] && all[j] == rest[j]);
            } else {
                assert(all[i] == rest[i]);
                assert(has_come(front, rest[i]));
                let p = choose|p: int|
                    0 <= p < front.len() && (#[trigger] front[p]).id == rest[i];
                assert(history[p].id < history[history.len() - 1].id);
            }
        }
        assert forall|i: int| 0 <= i < history.len() implies (all.contains(
            (#[trigger] history[i]).id,
        ) <==> history[i].landmarks.contains(landmark)) by {
            let id = history[i].id;
            if i < front.len() {
                assert(front[i] == history[i]);
                assert(id < last.id);
                if all.contains(id) {
                    let k = choose|k: int| 0 <= k < all.len() && all[k] == id;
                    if k < rest.len() {
                        assert(rest[k] == id);
                    }
                    assert(rest.contains(id));
                }
                if rest.contains(id) {
                    let k = choose|k: int| 0 <= k < rest.len() && rest[k] == id;
                    assert(all[k] == id);
                }
            } else {
                if keep(last) {
                    assert(all[all.len() - 1] == id);
                } else if all.contains(id) {
                    let k = choose|k: int| 0 <= k < all.len() && all[k] == id;
                    assert(has_come(front, rest[k]));
                    let p = choose|p: int|
                        0 <= p < front.len() && (#[trigger] front[p]).id == rest[k];
                    assert(history[p].id < history[i].id);
                }
            }
        }
    }
}

/// A landmark more is counted for exactly the keyframes that see it.
proof fn shares_step(s: Sighting, landmarks: Set<u64>, l: u64)
    requires
        s.landmarks.finite(),
        !landmarks.contains(l),
    ensures
        shares(s, landmarks.insert(l)) == shares(s, landmarks) + if s.landmarks.contains(l) {
            1nat
        } else {
            0nat
        },
{
    let before = s.landmarks.intersect(landmarks);
    if s.landmarks.contains(l) {
        assert(s.landmarks.intersect(landmarks.insert(l)) =~= before.insert(l));
    } else {
        assert(s.landmarks.intersect(landmarks.insert(l)) =~= before);
    }
}

/// The counts of shared landmarks, as far as they have been taken.
spec fn counts_match(
    counts: Map<u64, usize>,
    history: Seq<Sighting>,
    landmarks: Set<u64>,
) -> bool {
    &&& forall|i: int|
        0 <= i < history.len() ==> {
            let c = shares(#[trigger] history[i], landmarks);
            &&& counts.contains_key(history[i].id) <==> c > 0
            &&& c > 0 ==> counts[history[i].id] == c
        }
    &&& forall|o: u64| #[trigger]
        counts.contains_key(o) ==> exists|i: int|
            0 <= i < history.len() && (#[trigger] history[i]).id == o
}

/// The counts while those that see one more landmark are being counted.
spec fn counts_between(
    counts: Map<u64, usize>,
    history: Seq<Sighting>,
    landmarks: Set<u64>,
    done: Seq<u64>,
) -> bool {
    &&& forall|i: int|
        0 <= i < history.len() ==> {
            let c = shares(#[trigger] history[i], landmarks) + if done.contains(history[i].id) {
                1nat
            } else {
                0nat
            };
            &&& counts.contains_key(history[i].id) <==> c > 0
            &&& c > 0 ==> counts[history[i].id] == c
        }
    &&& forall|o: u64| #[trigger]
        counts.contains_key(o) ==> exists|i: int|
            0 <= i < history.len() && (#[trigger] history[i]).id == o
}

proof fn ids_are_places(history: Seq<Sighting>, i: int, j: int)
    requires
        sightings_grow(history),
        0 <= i < history.len(),
        0 <= j < history.len(),
        history[i].id == history[j].id,
    ensures
        i == j,
{
}

/// What a new keyframe adds to the keyframes that see a landmark.
proof fn seen_by_push(history: Seq<Sighting>, s: Sighting, l: u64)
    ensures
        seen_by(history.push(s), l) == if s.landmarks.contains(l) {
            seen_by(history, l).push(s.id)
        } else {
            seen_by(history, l)
        },
{
    reveal(Seq::filter);
    let keep = |s: Sighting| s.landmarks.contains(l);
    let name = |s: Sighting| s.id;
    assert(history.push(s).drop_last() =~= history);
    if keep(s) {
        assert(history.push(s).filter(keep) == history.filter(keep).push(s));
        assert(seen_by(history.push(s), l) =~= seen_by(history, l).push(s.id));
    } else {
        assert(history.push(s).filter(keep) == history.filter(keep));
    }
}

/// What a new keyframe adds to the neighbours.
proof fn linked_push(history: Seq<Sighting>, s: Sighting, a: u64, b: u64)
    requires
        sightings_grow(history.push(s)),
    ensures
        linked(history.push(s), a, b) <==> {
            ||| linked(history, a, b)
            ||| a == s.id && shares_enough(history, s, b)
            ||| b == s.id && shares_enough(history, s, a)
        },
{
    let all = history.push(s);
    let n = history.len() as int;
    assert(all[n] == s);
    assert forall|i: int, j: int|
        0 <= i < all.len() && 0 <= j < all.len() implies #[trigger] shares(
        all[i],
        all[j].landmarks,
    ) == #[trigger] shares(all[j], all[i].landmarks) by {
        assert(all[i].landmarks.intersect(all[j].landmarks) =~= all[j].landmarks.intersect(
            all[i].landmarks,
        ));
    }
    if linked(all, a, b) {
        let (i, j) = choose|i: int, j: int|
            0 <= i < all.len() && 0 <= j < all.len() && i != j && (#[trigger] all[i]).id == a && (
            #[trigger] all[j]).id == b && shares(all[i], all[j].landmarks) >= SHARED_LANDMARKS;
        if i < n && j < n {
            assert(history[i] == all[i] && history[j] == all[j]);
        } else if i == n {
            assert(history[j] == all[j]);
            assert(shares(history[j], s.landmarks) >= SHARED_LANDMARKS);
        } else {
            assert(history[i] == all[i]);
            assert(shares(history[i], s.landmarks) >= SHARED_LANDMARKS);
        }
    }
    if linked(history, a, b) {
        let (i, j) = choose|i: int, j: int|
            0 <= i < history.len() && 0 <= j < history.len() && i != j && (
            #[trigger] history[i]).id == a && (#[trigger] history[j]).id == b && shares(
                history[i],
                history[j].landmarks,
            ) >= SHARED_LANDMARKS;
        assert(all[i] == history[i] && all[j] == history[j]);
    }
    if a == s.id && shares_enough(history, s, b) {
        let j = choose|j: int|
            0 <= j < history.len() && (#[trigger] history[j]).id == b && shares(
                history[j],
                s.landmarks,
            ) >= SHARED_LANDMARKS;
        assert(all[j] == history[j]);
        assert(shares(all[n], all[j].landmarks) == shares(all[j], all[n].landmarks));
    }
    if b == s.id && shares_enough(history, s, a) {
        let i = choose|i: int|
            0 <= i < history.len() && (#[trigger] history[i]).id == a && shares(
                history[i],
                s.landmarks,
            ) >= SHARED_LANDMARKS;
        assert(all[i] == history[i]);
        assert(shares(all[i], all[n].landmarks) >= SHARED_LANDMARKS);
    }
}

/// Whether an earlier keyframe shares enough landmarks with a new one.
spec fn shares_enough(history: Seq<Sighting>, s: Sighting, other: u64) -> bool {
    exists|j: int|
        0 <= j < history.len() && (#[trigger] history[j]).id == other && shares(
            history[j],
            s.landmarks,
        ) >= SHARED_LANDMARKS
}

fn add_near(neighbors: &mut BTreeMap<u64, BTreeSet<u64>>, a: u64, b: u64)
    ensures
        forall|x: u64, y: u64| #[trigger]
            near_of(final(neighbors)@, x).contains(y) <==> near_of(old(neighbors)@, x).contains(y)
                || (x == a && y == b),
{
    let ghost before = neighbors@;
    let mut near: BTreeSet<u64> = match neighbors.remove(&a) {
        Some(near) => near,
        None => BTreeSet::new(),
    };
    assert(near@ == near_of(before, a));
    near.insert(b);
    neighbors.insert(a, near);
}

impl Covisibility {
    /// What the index keeps: it says of the keyframes that came what they share.
    pub closed spec fn wf(&self) -> bool {
        &&& sightings_grow(self@)
        &&& observers_match(self.observers@, self@)
        &&& neighbors_match(self.neighbors@, self@)
    }

    /// Keyframes come with growing numbers.
    pub proof fn history_grows(&self)
        requires
            self.wf(),
        ensures
            sightings_grow(self@),
    {
    }

    /// No keyframe has come.
    pub fn new() -> (index: Self)
        ensures
            index.wf(),
            index@ == Seq::<Sighting>::empty(),
    {
        let index = Covisibility {
            observers: BTreeMap::new(),
            neighbors: BTreeMap::new(),
            history: Ghost(Seq::empty()),
        };
        proof {
            reveal(Seq::filter);
            assert forall|l: u64| #[trigger] list_of(lists(index.observers@), l) == seen_by(
                index@,
                l,
            ) by {
                assert(seen_by(index@, l) =~= Seq::empty());
            }
        }
        index
    }

    /// Adds a keyframe, which comes after all others.
    pub fn add(&mut self, id: u64, landmarks: &BTreeSet<u64>)
        requires
            old(self).wf(),
            forall|i: int| 0 <= i < old(self)@.len() ==> (#[trigger] old(self)@[i]).id < id,
        ensures
            final(self).wf(),
            final(self)@ == old(self)@.push(Sighting { id, landmarks: landmarks@ }),
    {
        let ghost history = self.history@;
        let ghost new = Sighting { id, landmarks: landmarks@ };
        let members = set_members(landmarks);
        let mut counts: BTreeMap<u64, usize> = BTreeMap::new();
        assert(members@.take(0).to_set() =~= Set::<u64>::empty());
        proof {
            assert forall|i: int| 0 <= i < history.len() implies shares(
                #[trigger] history[i],
                Set::<u64>::empty(),
            ) == 0 by {
                assert(history[i].landmarks.intersect(Set::<u64>::empty()) =~= Set::<u64>::empty());
            }
            assert(counts_match(counts@, history, Set::<u64>::empty()));
        }
        for m in 0..members.len()
            invariant
                sightings_grow(history),
                increasing(members@),
                members@.to_set() == landmarks@,
                new == (Sighting { id, landmarks: landmarks@ }),
                forall|l: u64| #[trigger]
                    list_of(lists(self.observers@), l) == if members@.take(m as int).contains(l) {
                        seen_by(history, l).push(id)
                    } else {
                        seen_by(history, l)
                    },
                counts_match(counts@, history, members@.take(m as int).to_set()),
                neighbors_match(self.neighbors@, history),
        {
            let l: u64 = members[m];
            let ghost done = members@.take(m as int).to_set();
            let others: Vec<u64> = copy_list_of(&self.observers, l);
            proof {
                assert(!members@.take(m as int).contains(l)) by {
                    if members@.take(m as int).contains(l) {
                        let p = choose|p: int|
                            0 <= p < m && members@.take(m as int)[p] == l;
                        assert(members@[p] < members@[m as int]);
                    }
                }
                members@.take(m as int).unique_seq_to_set();
                assert(others@ == seen_by(history, l));
                seen_by_members(history, l);
                assert(others@.take(0) =~= Seq::<u64>::empty());
                assert(counts_between(counts@, history, done, others@.take(0)));
            }
            for k in 0..others.len()
                invariant
                    sightings_grow(history),
                    done.finite(),
                    others@ == seen_by(history, l),
                    increasing(others@),
                    counts_between(counts@, history, done, others@.take(k as int)),
                    forall|p: int|
                        0 <= p < others@.len() ==> has_come(history, #[trigger] others@[p]),
                    done.len() == m,
                    m < usize::MAX,
            {
                let other: u64 = others[k];
                assert(has_come(history, others@[k as int]));
                let ghost at = choose|i: int|
                    0 <= i < history.len() && (#[trigger] history[i]).id == others@[k as int];
                let ghost before = counts@;
                proof {
                    let pre = others@.take(k as int);
                    if pre.contains(other) {
                        let p = choose|p: int| 0 <= p < pre.len() && pre[p] == other;
                        assert(others@[p] < others@[k as int]);
                    }
                    assert(shares(history[at], done) <= done.len()) by {
                        vstd::set_lib::lemma_len_intersect(done, history[at].landmarks);
                        assert(done.intersect(history[at].landmarks)
                            =~= history[at].landmarks.intersect(done));
                    }
                }
                let count: usize = match counts.get(&other) {
                    Some(c) => *c,
                    None => 0,
                };
                assert(count == shares(history[at], done));
                counts.insert(other, count + 1);
                proof {
                    let now = others@.take(k + 1);
                    let pre = others@.take(k as int);
                    assert(now =~= pre.push(other));
                    assert forall|i: int| 0 <= i < history.len() implies {
                        let c = shares(#[trigger] history[i], done) + if now.contains(
                            history[i].id,
                        ) {
                            1nat
                        } else {
                            0nat
                        };
                        &&& counts@.contains_key(history[i].id) <==> c > 0
                        &&& c > 0 ==> counts@[history[i].id] == c
                    } by {
                        let x = history[i].id;
                        if x == other {
                            ids_are_places(history, i, at);
                            assert(now[k as int] == other);
                        } else {
                            if now.contains(x) {
                                let p = choose|p: int| 0 <= p < now.len() && now[p] == x;
                                assert(pre[p] == x);
                            }
                            if pre.contains(x) {
                                let p = choose|p: int| 0 <= p < pre.len() && pre[p] == x;
                                assert(now[p] == x);
                            }
                        }
                    }
                    assert forall|o: u64| #[trigger] counts@.contains_key(o) implies exists|
                        i: int,
                    |
                        0 <= i < history.len() && (#[trigger] history[i]).id == o by {
                        if o == other {
                            assert(history[at].id == o);
                        } else {
                            assert(before.contains_key(o));
                        }
                    }
                }
            }
            let ghost observers0 = lists(self.observers@);
            push_to(&mut self.observers, l, id);
            proof {
                assert(others@.take(others@.len() as int) =~= others@);
                let next = members@.take(m + 1);
                assert(next =~= members@.take(m as int).push(l));
                assert(next.to_set() =~= done.insert(l)) by {
                    assert forall|x: u64| next.to_set().contains(x) <==> done.insert(l).contains(
                        x,
                    ) by {
                        if next.contains(x) {
                            let p = choose|p: int| 0 <= p < next.len() && next[p] == x;
                            if p < m {
                                assert(members@.take(m as int)[p] == x);
                            }
                        }
                        if x == l {
                            assert(next[m as int] == l);
                        } else if done.contains(x) {
                            let p = choose|p: int|
                                0 <= p < m && members@.take(m as int)[p] == x;
                            assert(next[p] == x);
                        }
                    }
                }
                assert forall|i: int| 0 <= i < history.len() implies {
                    let c = shares(#[trigger] history[i], next.to_set());
                    &&& counts@.contains_key(history[i].id) <==> c > 0
                    &&& c > 0 ==> counts@[history[i].id] == c
                } by {
                    shares_step(history[i], done, l);
                }
                assert forall|x: u64| #[trigger] list_of(lists(self.observers@), x)
                    == if next.contains(x) {
                    seen_by(history, x).push(id)
                } else {
                    seen_by(history, x)
                } by {
                    let was = list_of(observers0, x);
                    assert(next.to_set().contains(x) <==> next.contains(x));
                    assert(done.contains(x) <==> members@.take(m as int).contains(x));
                }
            }
        }
        let others = map_keys(&counts);
        let ghost near0 = self.neighbors@;
        proof {
            assert(members@.take(members@.len() as int) =~= members@);
        }
        for k in 0..others.len()
            invariant
                others@.to_set() == counts@.dom(),
                new == (Sighting { id, landmarks: landmarks@ }),
                neighbors_match(near0, history),
                counts_match(counts@, history, new.landmarks),
                sightings_grow(history),
                forall|l: u64| #[trigger]
                    list_of(lists(self.observers@), l) == if members@.contains(l) {
                        seen_by(history, l).push(id)
                    } else {
                        seen_by(history, l)
                    },
                forall|x: u64, y: u64| #[trigger]
                    near_of(self.neighbors@, x).contains(y) <==> {
                        ||| near_of(near0, x).contains(y)
                        ||| x == id && enough(counts@, others@.take(k as int), y)
                        ||| y == id && enough(counts@, others@.take(k as int), x)
                    },
        {
            let other: u64 = others[k];
            proof {
                assert(others@.to_set().contains(others@[k as int]));
                assert(others@.take(k + 1) =~= others@.take(k as int).push(other));
                assert forall|x: u64| #[trigger] enough(counts@, others@.take(k + 1), x)
                    <==> enough(counts@, others@.take(k as int), x) || (x == other
                    && counts@[other] >= SHARED_LANDMARKS) by {
                    let pre = others@.take(k as int);
                    let now = others@.take(k + 1);
                    if now.contains(x) {
                        let p = choose|p: int| 0 <= p < now.len() && now[p] == x;
                        if p < k {
                            assert(pre[p] == x);
                        }
                    }
                    if pre.contains(x) {
                        let p = choose|p: int| 0 <= p < pre.len() && pre[p] == x;
                        assert(now[p] == x);
                    }
                    assert(now[k as int] == other);
                }
            }
            let count: usize = match counts.get(&other) {
                Some(c) => *c,
                None => 0,
            };
            if count >= SHARED_LANDMARKS {
                add_near(&mut self.neighbors, other, id);
                add_near(&mut self.neighbors, id, other);
            }
        }
        self.history = Ghost(history.push(new));
        proof {
            let all = history.push(new);
            assert(others@.take(others@.len() as int) =~= others@);
            assert(sightings_grow(all));
            assert forall|l: u64| #[trigger] list_of(lists(self.observers@), l) == seen_by(
                all,
                l,
            ) by {
                seen_by_push(history, new, l);
                assert(members@.to_set().contains(l) <==> members@.contains(l));
            }
            assert forall|a: u64, b: u64| #[trigger] near_of(self.neighbors@, a).contains(b)
                <==> linked(all, a, b) by {
                linked_push(history, new, a, b);
                enough_is_shared(counts@, others@, history, new, a);
                enough_is_shared(counts@, others@, history, new, b);
                assert(near_of(near0, a).contains(b) <==> linked(history, a, b));
            }
        }
    }

    /// The keyframes within two steps of some.
    pub fn neighborhood(&self, ids: &Vec<u64>) -> (near: Vec<u64>)
        requires
            self.wf(),
        ensures
            near@ == ascending(within(self@, ids@.to_set(), 2)),
            increasing(near@),
            near@.to_set() == within(self@, ids@.to_set(), 2),
    {
        let mut visited: BTreeSet<u64> = BTreeSet::new();
        for i in 0..ids.len()
            invariant
                visited@ == ids@.take(i as int).to_set(),
        {
            visited.insert(ids[i]);
            proof {
                let next = ids@.take(i + 1);
                assert(next =~= ids@.take(i as int).push(ids@[i as int]));
                assert(visited@ =~= next.to_set()) by {
                    assert forall|x: u64| visited@.contains(x) <==> next.to_set().contains(x) by {
                        let pre = ids@.take(i as int);
                        if next.contains(x) {
                            let p = choose|p: int| 0 <= p < next.len() && next[p] == x;
                            if p < i {
                                assert(pre[p] == x);
                            }
                        }
                        if pre.contains(x) {
                            let p = choose|p: int| 0 <= p < pre.len() && pre[p] == x;
                            assert(next[p] == x);
                        }
                        assert(next[i as int] == ids@[i as int]);
                    }
                }
            }
        }
        assert(ids@.take(ids@.len() as int) =~= ids@);
        let ghost start = ids@.to_set();
        self.widen(&mut visited);
        assert(visited@ =~= within(self@, start, 1)) by {
            assert(within(self@, start, 0) == start);
        }
        self.widen(&mut visited);
        assert(visited@ =~= within(self@, start, 2)) by {
            assert(within(self@, start, 1) == within(self@, start, (2 - 1) as nat));
        }
        set_members(&visited)
    }

    /// Adds the neighbours of some keyframes to them.
    fn widen(&self, visited: &mut BTreeSet<u64>)
        requires
            self.wf(),
        ensures
            forall|b: u64| #[trigger]
                final(visited)@.contains(b) <==> old(visited)@.contains(b) || reached(
                    self@,
                    old(visited)@,
                    b,
                ),
    {
        let from = set_members(visited);
        let ghost start = visited@;
        for i in 0..from.len()
            invariant
                self.wf(),
                from@.to_set() == start,
                forall|b: u64| #[trigger]
                    visited@.contains(b) <==> start.contains(b) || reached(
                        self@,
                        from@.take(i as int).to_set(),
                        b,
                    ),
        {
            let a: u64 = from[i];
            let ghost before = visited@;
            let near: Vec<u64> = match self.neighbors.get(&a) {
                Some(near) => set_members(near),
                None => Vec::new(),
            };
            proof {
                assert(near@.to_set() =~= near_of(self.neighbors@, a));
                assert forall|b: u64| near@.contains(b) <==> linked(self@, a, b) by {
                    assert(near_of(self.neighbors@, a).contains(b) <==> linked(self@, a, b));
                    assert(near@.to_set().contains(b) <==> near@.contains(b));
                }
            }
            for k in 0..near.len()
                invariant
                    forall|b: u64| #[trigger]
                        visited@.contains(b) <==> before.contains(b) || near@.take(
                            k as int,
                        ).contains(b),
            {
                visited.insert(near[k]);
                proof {
                    let next = near@.take(k + 1);
                    let pre = near@.take(k as int);
                    assert(next =~= pre.push(near@[k as int]));
                    assert forall|b: u64| #[trigger] visited@.contains(b) <==> before.contains(b)
                        || next.contains(b) by {
                        if next.contains(b) {
                            let p = choose|p: int| 0 <= p < next.len() && next[p] == b;
                            if p < k {
                                assert(pre[p] == b);
                            }
                        }
                        if pre.contains(b) {
                            let p = choose|p: int| 0 <= p < pre.len() && pre[p] == b;
                            assert(next[p] == b);
                        }
                        assert(next[k as int] == near@[k as int]);
                    }
                }
            }
            proof {
                assert(near@.take(near@.len() as int) =~= near@);
                let pre = from@.take(i as int);
                let next = from@.take(i + 1);
                assert(next =~= pre.push(a));
                assert forall|b: u64| #[trigger] visited@.contains(b) <==> start.contains(b)
                    || reached(self@, next.to_set(), b) by {
                    if reached(self@, next.to_set(), b) {
                        let x = choose|x: u64| #[trigger]
                            next.to_set().contains(x) && linked(self@, x, b);
                        let p = choose|p: int| 0 <= p < next.len() && next[p] == x;
                        if p < i {
                            assert(pre[p] == x);
                            assert(pre.to_set().contains(x));
                        }
                    }
                    if reached(self@, pre.to_set(), b) {
                        let x = choose|x: u64| #[trigger]
                            pre.to_set().contains(x) && linked(self@, x, b);
                        let p = choose|p: int| 0 <= p < pre.len() && pre[p] == x;
                        assert(next[p] == x);
                        assert(next.to_set().contains(x));
                    }
                    if linked(self@, a, b) {
                        assert(next[i as int] == a);
                        assert(next.to_set().contains(a));
                    }
                }
            }
        }
        assert(from@.take(from@.len() as int) =~= from@);
    }
}

/// Whether a keyframe is among some and shares enough landmarks.
spec fn enough(counts: Map<u64, usize>, among: Seq<u64>, x: u64) -> bool {
    among.contains(x) && counts[x] >= SHARED_LANDMARKS
}

proof fn enough_is_shared(
    counts: Map<u64, usize>,
    others: Seq<u64>,
    history: Seq<Sighting>,
    new: Sighting,
    x: u64,
)
    requires
        others.to_set() == counts.dom(),
        counts_match(counts, history, new.landmarks),
    ensures
        enough(counts, others, x) <==> shares_enough(history, new, x),
{
    assert(others.to_set().contains(x) <==> others.contains(x));
    if enough(counts, others, x) {
        assert(counts.contains_key(x));
        let i = choose|i: int| 0 <= i < history.len() && (#[trigger] history[i]).id == x;
        assert(shares(history[i], new.landmarks) >= SHARED_LANDMARKS);
    }
}

/// Being neighbours is mutual, and no keyframe is its own neighbour.
pub proof fn neighbors_are_mutual(history: Seq<Sighting>, a: u64, b: u64)
    requires
        sightings_grow(history),
    ensures
        linked(history, a, b) ==> linked(history, b, a),
        !linked(history, a, a),
{
    if linked(history, a, b) {
        let (i, j) = choose|i: int, j: int|
            0 <= i < history.len() && 0 <= j < history.len() && i != j && (
            #[trigger] history[i]).id == a && (#[trigger] history[j]).id == b && shares(
                history[i],
                history[j].landmarks,
            ) >= SHARED_LANDMARKS;
        assert(history[i].landmarks.intersect(history[j].landmarks)
            =~= history[j].landmarks.intersect(history[i].landmarks));
        assert(shares(history[j], history[i].landmarks) >= SHARED_LANDMARKS);
    }
}

/// The neighbourhood holds the keyframes that are asked for, their neighbours, the neighbours of
/// these, and no other.
pub proof fn neighborhoods_are_two_steps(history: Seq<Sighting>, ids: Set<u64>, b: u64)
    ensures
        within(history, ids, 2).contains(b) <==> {
            ||| ids.contains(b)
            ||| reached(history, ids, b)
            ||| exists|m: u64|
                #![trigger reached(history, ids, m), linked(history, m, b)]
                reached(history, ids, m) && linked(history, m, b)
        },
{
    reveal_with_fuel(within, 3);
    let one = within(history, ids, 1);
    assert(forall|m: u64| #[trigger] one.contains(m) <==> ids.contains(m) || reached(history, ids, m));
    if reached(history, one, b) {
        let m = choose|m: u64| #[trigger] one.contains(m) && linked(history, m, b);
        if ids.contains(m) {
            assert(reached(history, ids, b));
        } else {
            assert(reached(history, ids, m) && linked(history, m, b));
        }
    }
    if exists|m: u64|
        #![trigger reached(history, ids, m), linked(history, m, b)]
        reached(history, ids, m) && linked(history, m, b) {
        let m = choose|m: u64|
            #![trigger reached(history, ids, m), linked(history, m, b)]
            reached(history, ids, m) && linked(history, m, b);
        assert(one.contains(m));
        assert(reached(history, one, b));
    }
    if ids.contains(b) || reached(history, ids, b) {
        assert(one.contains(b));
    }
}

/// Two keyframes are neighbours exactly where they share at least fifteen landmarks.
pub proof fn neighbors_share_landmarks(history: Seq<Sighting>, i: int, j: int)
    requires
        sightings_grow(history),
        0 <= i < history.len(),
        0 <= j < history.len(),
        i != j,
    ensures
        linked(history, history[i].id, history[j].id) <==> history[i].landmarks.intersect(
            history[j].landmarks,
        ).len() >= 15,
{
    let (a, b) = (history[i].id, history[j].id);
    if linked(history, a, b) {
        let (p, q) = choose|p: int, q: int|
            0 <= p < history.len() && 0 <= q < history.len() && p != q && (
            #[trigger] history[p]).id == a && (#[trigger] history[q]).id == b && shares(
                history[p],
                history[q].landmarks,
            ) >= SHARED_LANDMARKS;
        ids_are_places(history, p, i);
        ids_are_places(history, q, j);
    }
    if history[i].landmarks.intersect(history[j].landmarks).len() >= 15 {
        assert(shares(history[i], history[j].landmarks) >= SHARED_LANDMARKS);
    }
}

/// A keyframe that has not come has no neighbours.
pub proof fn strangers_have_no_neighbors(history: Seq<Sighting>, a: u64, b: u64)
    requires
        forall|i: int| 0 <= i < history.len() ==> (#[trigger] history[i]).id != a,
    ensures
        !linked(history, a, b),
        !linked(history, b, a),
{
}

/// Two steps from some keyframes lead to these, to their neighbours and to the neighbours of those, and no
/// further; one step to these and their neighbours.
pub proof fn steps_lead_to_neighbors(history: Seq<Sighting>, ids: Set<u64>, b: u64)
    ensures
        within(history, ids, 0) == ids,
        within(history, ids, 1).contains(b) <==> ids.contains(b) || exists|a: u64|
            ids.contains(a) && #[trigger] linked(history, a, b),
        within(history, ids, 2).contains(b) <==> ids.contains(b) || (exists|a: u64|
            ids.contains(a) && #[trigger] linked(history, a, b)) || (exists|a: u64, m: u64|
            ids.contains(a) && #[trigger] linked(history, a, m) && #[trigger] linked(
                history,
                m,
                b,
            )),
{
    reveal_with_fuel(within, 3);
    assert(within(history, ids, 1).contains(b) <==> ids.contains(b) || reached(history, ids, b));
    assert(reached(history, ids, b) <==> exists|a: u64|
        ids.contains(a) && #[trigger] linked(history, a, b)) by {
        if reached(history, ids, b) {
            let a = choose|a: u64| #[trigger] ids.contains(a) && linked(history, a, b);
            assert(linked(history, a, b));
        }
        if exists|a: u64| ids.contains(a) && #[trigger] linked(history, a, b) {
            let a = choose|a: u64| ids.contains(a) && #[trigger] linked(history, a, b);
            assert(ids.contains(a));
        }
    }
    neighborhoods_are_two_steps(history, ids, b);
    if exists|m: u64|
        #![trigger reached(history, ids, m), linked(history, m, b)]
        reached(history, ids, m) && linked(history, m, b) {
        let m = choose|m: u64|
            #![trigger reached(history, ids, m), linked(history, m, b)]
            reached(history, ids, m) && linked(history, m, b);
        let a = choose|a: u64| #[trigger] ids.contains(a) && linked(history, a, m);
        assert(linked(history, a, m) && linked(history, m, b));
    }
    if exists|a: u64, m: u64|
        ids.contains(a) && #[trigger] linked(history, a, m) && #[trigger] linked(history, m, b) {
        let (a, m) = choose|a: u64, m: u64|
            ids.contains(a) && #[trigger] linked(history, a, m) && #[trigger] linked(history, m, b);
        assert(ids.contains(a));
        assert(reached(history, ids, m));
    }
}

} // verus!

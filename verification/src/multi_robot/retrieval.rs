//! The search for sequences that show the same place.
use crate::ieee::{is_single_at_most, is_single_total_less, single_at_most, single_total};
use crate::multi_robot::error::{refused, Error};
use crate::multi_robot::keys::{same_session, Key, KeyModel};
use crate::multi_robot::sorted::SortedMap;
use crate::multi_robot::types::{same_sequence, sequence_fault, Sequence, SequenceModel};
use crate::ordered::{contains_id, filter_next};
use vstd::prelude::*;

verus! {

/// What a search went through.
#[derive(Clone, Copy, Debug, PartialEq, Eq, Structural)]
pub struct RetrievalStats {
    pub excluded_local: usize,
    pub compared: usize,
    pub above_threshold: usize,
    pub grouped: usize,
}

impl Default for RetrievalStats {
    fn default() -> (stats: Self)
        ensures
            stats == (RetrievalStats {
                excluded_local: 0,
                compared: 0,
                above_threshold: 0,
                grouped: 0,
            }),
    {
        RetrievalStats { excluded_local: 0, compared: 0, above_threshold: 0, grouped: 0 }
    }
}

/// How long after a sequence another of its session is still near: twenty seconds.
pub const LOCAL_NS: i64 = 20_000_000_000;

/// How many sequences a search gives at most.
pub const MAX_CANDIDATES: usize = 3;

/// Whether two numbers differ by one at most.
pub open spec fn adjacent(a: u64, b: u64) -> bool {
    a - b <= 1 && b - a <= 1
}

/// Whether two sequences have keyframes that follow one another.
pub open spec fn members_adjacent(a: SequenceModel, b: SequenceModel) -> bool {
    exists|i: int, j: int|
        0 <= i < a.members.len() && 0 <= j < b.members.len() && adjacent(
            (#[trigger] a.members[i]).id,
            (#[trigger] b.members[j]).id,
        )
}

/// Whether a sequence has a keyframe that another keeps away from.
pub open spec fn members_excluded(a: SequenceModel, b: SequenceModel) -> bool {
    exists|i: int|
        0 <= i < b.members.len() && a.excluded_keyframes.contains((#[trigger] b.members[i]).id)
}

/// How long one sequence ended before the other began.
pub open spec fn pause(a: SequenceModel, b: SequenceModel) -> int {
    (if a.start_ns >= b.start_ns {
        a.start_ns
    } else {
        b.start_ns
    }) - (if a.end_ns <= b.end_ns {
        a.end_ns
    } else {
        b.end_ns
    })
}

/// Whether two sequences are of one place because they are of one stretch of a session: they follow
/// one another, have keyframes that do, see the same landmarks, or, where time counts, are less than
/// twenty seconds apart.
pub open spec fn local(a: SequenceModel, b: SequenceModel, temporal: bool) -> bool {
    same_session(a.key, b.key) && {
        ||| adjacent(a.key.id, b.key.id)
        ||| members_adjacent(a, b)
        ||| members_excluded(a, b)
        ||| members_excluded(b, a)
        ||| temporal && pause(a, b) < LOCAL_NS
    }
}

fn is_adjacent(a: u64, b: u64) -> (result: bool)
    ensures
        result == adjacent(a, b),
{
    if a >= b {
        a - b <= 1
    } else {
        b - a <= 1
    }
}

fn are_members_adjacent(a: &Sequence, b: &Sequence) -> (result: bool)
    ensures
        result == members_adjacent(a@, b@),
{
    for i in 0..a.members.len()
        invariant
            forall|p: int, q: int|
                0 <= p < i && 0 <= q < b@.members.len() ==> !adjacent(
                    (#[trigger] a@.members[p]).id,
                    (#[trigger] b@.members[q]).id,
                ),
    {
        assert(a@.members[i as int].id == a.members@[i as int].id);
        for j in 0..b.members.len()
            invariant
                i < a.members@.len(),
                a@.members[i as int].id == a.members@[i as int].id,
                forall|q: int|
                    0 <= q < j ==> !adjacent(
                        a@.members[i as int].id,
                        (#[trigger] b@.members[q]).id,
                    ),
        {
            assert(b@.members[j as int].id == b.members@[j as int].id);
            if is_adjacent(a.members[i].id, b.members[j].id) {
                return true;
            }
        }
    }
    false
}

fn are_members_excluded(a: &Sequence, b: &Sequence) -> (result: bool)
    ensures
        result == members_excluded(a@, b@),
{
    for i in 0..b.members.len()
        invariant
            forall|p: int|
                0 <= p < i ==> !a@.excluded_keyframes.contains((#[trigger] b@.members[p]).id),
    {
        assert(b@.members[i as int].id == b.members@[i as int].id);
        if contains_id(&a.excluded_keyframes, b.members[i].id) {
            return true;
        }
    }
    false
}

/// Whether two sequences are of one stretch of a session.
pub fn is_local(a: &Sequence, b: &Sequence, temporal: bool) -> (result: bool)
    ensures
        result == local(a@, b@, temporal),
{
    if !a.key.same_session(&b.key) {
        return false;
    }
    let start: i64 = if a.start_ns >= b.start_ns {
        a.start_ns
    } else {
        b.start_ns
    };
    let end: i64 = if a.end_ns <= b.end_ns {
        a.end_ns
    } else {
        b.end_ns
    };
    let apart: i128 = start as i128 - end as i128;
    is_adjacent(a.key.id, b.key.id) || are_members_adjacent(a, b) || are_members_excluded(a, b)
        || are_members_excluded(b, a) || (temporal && apart < LOCAL_NS as i128)
}

/// Being of one stretch is mutual.
pub proof fn locality_is_mutual(a: SequenceModel, b: SequenceModel, temporal: bool)
    ensures
        local(a, b, temporal) == local(b, a, temporal),
{
    if members_adjacent(a, b) {
        let (i, j) = choose|i: int, j: int|
            0 <= i < a.members.len() && 0 <= j < b.members.len() && adjacent(
                (#[trigger] a.members[i]).id,
                (#[trigger] b.members[j]).id,
            );
        assert(adjacent(b.members[j].id, a.members[i].id));
    }
    if members_adjacent(b, a) {
        let (i, j) = choose|i: int, j: int|
            0 <= i < b.members.len() && 0 <= j < a.members.len() && adjacent(
                (#[trigger] b.members[i]).id,
                (#[trigger] a.members[j]).id,
            );
        assert(adjacent(a.members[j].id, b.members[i].id));
    }
}

/// Sequences of different robots, or of different sessions of one robot, are never of one stretch,
/// whatever their numbers and times.
pub proof fn strangers_are_not_local(a: SequenceModel, b: SequenceModel, temporal: bool)
    requires
        a.key.robot != b.key.robot || a.key.session != b.key.session,
    ensures
        !local(a, b, temporal),
{
}

/// A found sequence: its place in the order of the names, and how alike it is.
#[derive(Clone, Copy, Debug, PartialEq, Eq, Structural)]
pub struct Hit {
    pub place: usize,
    pub similarity: u32,
}

/// Whether a stored sequence may answer: it or the asker is of the robot that does the work, it is
/// another sequence, and of the same model.
pub open spec fn may_answer(
    query: SequenceModel,
    s: SequenceModel,
    owner: Option<KeyModel>,
) -> bool {
    &&& owner matches Some(o) ==> query.key.robot == o.robot || s.key.robot == o.robot
    &&& s.key != query.key
    &&& s.model_id == query.model_id
}

/// What the search counts and finds among the first `n` stored sequences.
#[verifier::ext_equal]
pub ghost struct Sweep {
    pub excluded_local: nat,
    pub compared: nat,
    pub hits: Seq<Hit>,
}

/// The sweep over the first `n` stored sequences.
pub open spec fn sweep(
    store: Seq<SequenceModel>,
    similarities: Seq<u32>,
    query: SequenceModel,
    minimum: u32,
    owner: Option<KeyModel>,
    n: int,
) -> Sweep
    decreases n,
{
    if n <= 0 {
        Sweep { excluded_local: 0, compared: 0, hits: Seq::empty() }
    } else {
        let before = sweep(store, similarities, query, minimum, owner, n - 1);
        let s = store[n - 1];
        if !may_answer(query, s, owner) {
            before
        } else if local(query, s, true) {
            Sweep { excluded_local: before.excluded_local + 1, ..before }
        } else if !single_at_most(minimum, similarities[n - 1]) {
            Sweep { compared: before.compared + 1, ..before }
        } else {
            Sweep {
                compared: before.compared + 1,
                hits: before.hits.push(
                    Hit { place: (n - 1) as usize, similarity: similarities[n - 1] },
                ),
                ..before
            }
        }
    }
}

/// Where a hit goes among the first `n` of a ranking: behind all that are at least as alike.
pub open spec fn rank_of(ranking: Seq<Hit>, hit: Hit, n: int) -> int
    decreases n,
{
    if n <= 0 || single_total(ranking[n - 1].similarity) >= single_total(hit.similarity) {
        n
    } else {
        rank_of(ranking, hit, n - 1)
    }
}

/// The hits from the most alike to the least; of equal ones the earlier name comes first.
pub open spec fn ranked(hits: Seq<Hit>) -> Seq<Hit>
    decreases hits.len(),
{
    if hits.len() == 0 {
        Seq::empty()
    } else {
        let front = ranked(hits.drop_last());
        front.insert(rank_of(front, hits.last(), front.len() as int), hits.last())
    }
}

/// Whether a hit is of one stretch with one that was taken.
pub open spec fn grouped_with(store: Seq<SequenceModel>, taken: Seq<Hit>, hit: Hit) -> bool {
    exists|i: int|
        0 <= i < taken.len() && local(
            store[(#[trigger] taken[i]).place as int],
            store[hit.place as int],
            false,
        )
}

/// What is taken of a ranking from place `i` on, and how many are left out because they are of one
/// stretch with one that was taken: three at most.
pub open spec fn taken_from(
    store: Seq<SequenceModel>,
    ranking: Seq<Hit>,
    taken: Seq<Hit>,
    grouped: nat,
    i: int,
) -> (Seq<Hit>, nat)
    decreases ranking.len() - i,
{
    if i >= ranking.len() || taken.len() >= MAX_CANDIDATES {
        (taken, grouped)
    } else if grouped_with(store, taken, ranking[i]) {
        taken_from(store, ranking, taken, grouped + 1, i + 1)
    } else {
        taken_from(store, ranking, taken.push(ranking[i]), grouped, i + 1)
    }
}

/// Sequences by their names.
#[derive(Debug)]
pub struct Retrieval {
    pub sequences: SortedMap<Key, Sequence>,
}

impl Default for Retrieval {
    fn default() -> (retrieval: Self)
        ensures
            retrieval.wf(),
            retrieval.sequences@ == Map::<KeyModel, Sequence>::empty(),
    {
        Retrieval::new()
    }
}

impl Retrieval {
    /// The stored sequences, in the order of their names.
    pub open spec fn store(&self) -> Seq<SequenceModel> {
        self.sequences.entries@.map_values(|e: (Key, Sequence)| e.1@)
    }

    /// What the store keeps: every sequence is acceptable and stands under its own name.
    pub open spec fn wf(&self) -> bool {
        &&& self.sequences.wf()
        &&& forall|k: KeyModel| #[trigger]
            self.sequences@.contains_key(k) ==> self.sequences@[k]@.key == k && sequence_fault(
                self.sequences@[k]@,
            ) is None
    }

    /// An empty store.
    pub fn new() -> (retrieval: Self)
        ensures
            retrieval.wf(),
            retrieval.sequences@ == Map::<KeyModel, Sequence>::empty(),
    {
        Retrieval { sequences: SortedMap::new() }
    }

    /// Takes in a sequence. One that came before is taken once; one that differs from it is refused.
    pub fn insert(&mut self, seq: Sequence) -> (result: Result<bool, Error>)
        requires
            old(self).wf(),
        ensures
            final(self).wf(),
            match sequence_fault(seq@) {
                Some(text) => refused(result, text) && *final(self) == *old(self),
                None => if old(self).sequences@.contains_key(seq@.key) {
                    &&& *final(self) == *old(self)
                    &&& if same_sequence(old(self).sequences@[seq@.key]@, seq@) {
                        result == Ok::<bool, Error>(false)
                    } else {
                        refused(result, "conflicting sequence retransmission"@)
                    }
                } else {
                    &&& result == Ok::<bool, Error>(true)
                    &&& final(self).sequences@ == old(self).sequences@.insert(seq@.key, seq)
                },
            },
    {
        match seq.validate() {
            Err(e) => return Err(e),
            Ok(()) => {},
        }
        if let Some(previous) = self.sequences.get(&seq.key) {
            if !previous.same(&seq) {
                return Err(Error::of("conflicting sequence retransmission"));
            }
            return Ok(false);
        }
        let key = seq.key.clone();
        self.sequences.insert(key, seq);
        Ok(true)
    }

    /// The sequences that look most like one, whoever does the work.
    pub fn candidates(&self, query: &Sequence, minimum: u32, similarities: &Vec<u32>) -> (found: (
        Vec<(Key, u32)>,
        RetrievalStats,
    ))
        requires
            self.wf(),
            similarities@.len() == self.sequences.entries@.len(),
        ensures
            self.found(query@, minimum, None, similarities@, found.0@, found.1),
    {
        self.candidates_for(query, minimum, None, similarities)
    }

    /// What a search gives.
    pub open spec fn found(
        &self,
        query: SequenceModel,
        minimum: u32,
        owner: Option<KeyModel>,
        similarities: Seq<u32>,
        out: Seq<(Key, u32)>,
        stats: RetrievalStats,
    ) -> bool {
        let store = self.store();
        let swept = sweep(store, similarities, query, minimum, owner, store.len() as int);
        let (taken, grouped) = taken_from(store, ranked(swept.hits), Seq::empty(), 0, 0);
        &&& out.map_values(|e: (Key, u32)| (e.0@, e.1)) == taken.map_values(
            |h: Hit| (store[h.place as int].key, h.similarity),
        )
        &&& stats.excluded_local == swept.excluded_local
        &&& stats.compared == swept.compared
        &&& stats.above_threshold == swept.hits.len()
        &&& stats.grouped == grouped
    }

    /// The sequences that look most like one, as far as the robot of `owner` does the work.
    /// `similarities` are those of the stored sequences, in the order of their names.
    pub fn candidates_for(
        &self,
        query: &Sequence,
        minimum: u32,
        owner: Option<&Key>,
        similarities: &Vec<u32>,
    ) -> (found: (Vec<(Key, u32)>, RetrievalStats))
        requires
            self.wf(),
            similarities@.len() == self.sequences.entries@.len(),
        ensures
            self.found(
                query@,
                minimum,
                match owner {
                    Some(o) => Some(o@),
                    None => None,
                },
                similarities@,
                found.0@,
                found.1,
            ),
    {
        let ghost whose: Option<KeyModel> = match owner {
            Some(o) => Some(o@),
            None => None,
        };
        let ghost store = self.store();
        let mut stats = RetrievalStats::default();
        let mut hits: Vec<Hit> = Vec::new();
        for i in 0..self.sequences.entries.len()
            invariant
                store == self.store(),
                similarities@.len() == self.sequences.entries@.len(),
                whose == (match owner {
                    Some(o) => Some(o@),
                    None => None,
                }),
                stats.excluded_local <= i,
                stats.compared <= i,
                stats.grouped == 0,
                stats.above_threshold == hits@.len(),
                ({
                    let s = sweep(store, similarities@, query@, minimum, whose, i as int);
                    &&& stats.excluded_local == s.excluded_local
                    &&& stats.compared == s.compared
                    &&& hits@ == s.hits
                }),
                hits@.len() <= i,
                forall|k: int|
                    0 <= k < hits@.len() ==> (#[trigger] hits@[k]).place < store.len(),
        {
            let seq = &self.sequences.entries[i].1;
            assert(store[i as int] == seq@);
            let mine: bool = match owner {
                Some(o) => query.key.robot == o.robot || seq.key.robot == o.robot,
                None => true,
            };
            if mine && !seq.key.same(&query.key) && seq.model_id == query.model_id {
                assert(may_answer(query@, seq@, whose));
                if is_local(query, seq, true) {
                    stats.excluded_local = stats.excluded_local + 1;
                } else {
                    stats.compared = stats.compared + 1;
                    let similarity: u32 = similarities[i];
                    if is_single_at_most(minimum, similarity) {
                        stats.above_threshold = stats.above_threshold + 1;
                        hits.push(Hit { place: i, similarity });
                    }
                }
            } else {
                assert(!may_answer(query@, seq@, whose));
            }
        }
        let ranking = rank(&hits);
        proof {
            ranking_keeps_places(hits@, store.len() as int);
        }
        let mut taken: Vec<Hit> = Vec::new();
        let mut grouped: usize = 0;
        let ghost goal = taken_from(store, ranking@, Seq::empty(), 0, 0);
        let mut i: usize = 0;
        while i < ranking.len() && taken.len() < MAX_CANDIDATES
            invariant
                store == self.store(),
                i <= ranking@.len(),
                grouped <= i,
                goal == taken_from(store, ranking@, taken@, grouped as nat, i as int),
                forall|k: int|
                    0 <= k < ranking@.len() ==> (#[trigger] ranking@[k]).place < store.len(),
                forall|k: int| 0 <= k < taken@.len() ==> (#[trigger] taken@[k]).place < store.len(),
            decreases ranking@.len() - i,
        {
            let hit: Hit = ranking[i];
            if self.is_grouped(&taken, &hit) {
                grouped = grouped + 1;
            } else {
                taken.push(hit);
            }
            i = i + 1;
        }
        stats.grouped = grouped;
        let mut out: Vec<(Key, u32)> = Vec::new();
        let ghost shown = |e: (Key, u32)| (e.0@, e.1);
        let ghost named = |h: Hit| (store[h.place as int].key, h.similarity);
        for k in 0..taken.len()
            invariant
                store == self.store(),
                self.wf(),
                shown == (|e: (Key, u32)| (e.0@, e.1)),
                named == (|h: Hit| (store[h.place as int].key, h.similarity)),
                out@.map_values(shown) == taken@.take(k as int).map_values(named),
                forall|k: int| 0 <= k < taken@.len() ==> (#[trigger] taken@[k]).place < store.len(),
        {
            let hit: Hit = taken[k];
            let key = self.sequences.entries[hit.place].1.key.clone();
            let ghost before = out@;
            out.push((key, hit.similarity));
            proof {
                assert(store[hit.place as int] == self.sequences.entries@[hit.place as int].1@);
                assert(out@.map_values(shown) =~= before.map_values(shown).push(
                    named(hit),
                ));
                assert(taken@.take(k + 1).map_values(named) =~= taken@.take(k as int).map_values(
                    named,
                ).push(named(hit)));
            }
        }
        assert(taken@.take(taken@.len() as int) =~= taken@);
        (out, stats)
    }

    fn is_grouped(&self, taken: &Vec<Hit>, hit: &Hit) -> (result: bool)
        requires
            hit.place < self.sequences.entries@.len(),
            forall|k: int|
                0 <= k < taken@.len() ==> (#[trigger] taken@[k]).place
                    < self.sequences.entries@.len(),
        ensures
            result == grouped_with(self.store(), taken@, *hit),
    {
        let ghost store = self.store();
        for i in 0..taken.len()
            invariant
                store == self.store(),
                hit.place < self.sequences.entries@.len(),
                forall|k: int|
                    0 <= k < taken@.len() ==> (#[trigger] taken@[k]).place
                        < self.sequences.entries@.len(),
                forall|k: int|
                    0 <= k < i ==> !local(
                        store[(#[trigger] taken@[k]).place as int],
                        store[hit.place as int],
                        false,
                    ),
        {
            let one = &self.sequences.entries[taken[i].place].1;
            let two = &self.sequences.entries[hit.place].1;
            assert(store[taken@[i as int].place as int] == one@);
            assert(store[hit.place as int] == two@);
            if is_local(one, two, false) {
                return true;
            }
        }
        false
    }
}

fn rank(hits: &Vec<Hit>) -> (ranking: Vec<Hit>)
    ensures
        ranking@ == ranked(hits@),
        ranking@.len() == hits@.len(),
{
    let mut ranking: Vec<Hit> = Vec::new();
    for i in 0..hits.len()
        invariant
            ranking@.len() == i,
            ranking@ == ranked(hits@.take(i as int)),
    {
        let hit: Hit = hits[i];
        let mut place: usize = ranking.len();
        while place > 0 && is_single_total_less(ranking[place - 1].similarity, hit.similarity)
            invariant
                place <= ranking@.len(),
                rank_of(ranking@, hit, place as int) == rank_of(
                    ranking@,
                    hit,
                    ranking@.len() as int,
                ),
            decreases place,
        {
            place = place - 1;
        }
        ranking.insert(place, hit);
        proof {
            let prefix = hits@.take(i + 1);
            assert(prefix.drop_last() =~= hits@.take(i as int));
            assert(prefix.last() == hit);
        }
    }
    assert(hits@.take(hits@.len() as int) =~= hits@);
    ranking
}

proof fn rank_bounds(ranking: Seq<Hit>, hit: Hit, n: int)
    requires
        0 <= n <= ranking.len(),
    ensures
        0 <= rank_of(ranking, hit, n) <= n,
        forall|k: int|
            rank_of(ranking, hit, n) <= k < n ==> single_total((#[trigger] ranking[k]).similarity)
                < single_total(hit.similarity),
        rank_of(ranking, hit, n) > 0 ==> single_total(
            ranking[rank_of(ranking, hit, n) - 1].similarity,
        ) >= single_total(hit.similarity),
    decreases n,
{
    if n > 0 && single_total(ranking[n - 1].similarity) < single_total(hit.similarity) {
        rank_bounds(ranking, hit, n - 1);
    }
}

proof fn ranking_keeps_places(hits: Seq<Hit>, bound: int)
    requires
        forall|k: int| 0 <= k < hits.len() ==> (#[trigger] hits[k]).place < bound,
    ensures
        forall|k: int| 0 <= k < ranked(hits).len() ==> (#[trigger] ranked(hits)[k]).place < bound,
    decreases hits.len(),
{
    if hits.len() > 0 {
        let front = hits.drop_last();
        assert forall|k: int| 0 <= k < front.len() implies (#[trigger] front[k]).place < bound by {
            assert(front[k] == hits[k]);
        }
        ranking_keeps_places(front, bound);
        let r = ranked(front);
        rank_bounds(r, hits.last(), r.len() as int);
        let place = rank_of(r, hits.last(), r.len() as int);
        assert forall|k: int| 0 <= k < ranked(hits).len() implies (
        #[trigger] ranked(hits)[k]).place < bound by {
            if k < place {
                assert(ranked(hits)[k] == r[k]);
            } else if k > place {
                assert(ranked(hits)[k] == r[k - 1]);
            }
        }
    }
}

/// A ranking loses no hit and adds none. It goes from the most alike to the least, and from the
/// earlier name to the later among equals.
pub proof fn rankings_are_ordered(hits: Seq<Hit>)
    requires
        forall|i: int, j: int|
            0 <= i < j < hits.len() ==> (#[trigger] hits[i]).place < (#[trigger] hits[j]).place,
    ensures
        ranked(hits).to_multiset() == hits.to_multiset(),
        forall|i: int, j: int|
            0 <= i < j < ranked(hits).len() ==> {
                let a = #[trigger] ranked(hits)[i];
                let b = #[trigger] ranked(hits)[j];
                ||| single_total(a.similarity) > single_total(b.similarity)
                ||| single_total(a.similarity) == single_total(b.similarity) && a.place < b.place
            },
    decreases hits.len(),
{
    broadcast use vstd::seq_lib::group_to_multiset_ensures;

    if hits.len() > 0 {
        let front = hits.drop_last();
        let x = hits.last();
        let r = ranked(front);
        rankings_are_ordered(front);
        rank_bounds(r, x, r.len() as int);
        let place = rank_of(r, x, r.len() as int);
        vstd::seq_lib::to_multiset_insert(r, place, x);
        vstd::seq_lib::to_multiset_build(front, x);
        assert(hits =~= front.push(x));
        let all = ranked(hits);
        assert forall|k: int| 0 <= k < r.len() implies (#[trigger] r[k]).place < x.place by {
            assert(r.to_multiset().count(r[k]) > 0) by {
                assert(r.contains(r[k]));
            }
            assert(front.contains(r[k]));
            let p = choose|p: int| 0 <= p < front.len() && front[p] == r[k];
            assert(hits[p].place < hits[hits.len() - 1].place);
        }
        assert forall|i: int, j: int| 0 <= i < j < all.len() implies {
            let a = #[trigger] all[i];
            let b = #[trigger] all[j];
            ||| single_total(a.similarity) > single_total(b.similarity)
            ||| single_total(a.similarity) == single_total(b.similarity) && a.place < b.place
        } by {
            let fi = if i < place {
                i
            } else {
                i - 1
            };
            let fj = if j < place {
                j
            } else {
                j - 1
            };
            if i == place {
                assert(all[j] == r[fj]);
            } else if j == place {
                assert(all[i] == r[fi]);
                if fi < place - 1 {
                    assert(r[fi] == all[i]);
                    let c = r[place - 1];
                    assert(single_total(r[fi].similarity) >= single_total(c.similarity));
                }
            } else {
                assert(all[i] == r[fi] && all[j] == r[fj]);
            }
        }
    } else {
        assert(hits =~= Seq::empty());
    }
}

/// A search gives three sequences at most, no two of which are of one stretch.
pub proof fn taken_are_apart(
    store: Seq<SequenceModel>,
    ranking: Seq<Hit>,
    taken: Seq<Hit>,
    grouped: nat,
    i: int,
)
    requires
        0 <= i,
        taken.len() <= MAX_CANDIDATES,
        forall|a: int, b: int|
            0 <= a < b < taken.len() ==> !local(
                store[(#[trigger] taken[a]).place as int],
                store[(#[trigger] taken[b]).place as int],
                false,
            ),
    ensures
        ({
            let out = taken_from(store, ranking, taken, grouped, i).0;
            &&& out.len() <= MAX_CANDIDATES
            &&& forall|a: int, b: int|
                0 <= a < b < out.len() ==> !local(
                    store[(#[trigger] out[a]).place as int],
                    store[(#[trigger] out[b]).place as int],
                    false,
                )
        }),
    decreases ranking.len() - i,
{
    if i < ranking.len() && taken.len() < MAX_CANDIDATES {
        if grouped_with(store, taken, ranking[i]) {
            taken_are_apart(store, ranking, taken, grouped + 1, i + 1);
        } else {
            let next = taken.push(ranking[i]);
            assert forall|a: int, b: int| 0 <= a < b < next.len() implies !local(
                store[(#[trigger] next[a]).place as int],
                store[(#[trigger] next[b]).place as int],
                false,
            ) by {
                if b == taken.len() {
                    assert(next[a] == taken[a]);
                } else {
                    assert(next[a] == taken[a] && next[b] == taken[b]);
                }
            }
            taken_are_apart(store, ranking, next, grouped, i + 1);
        }
    }
}

/// Two sequences are of one stretch exactly where they are of one robot and one session and their numbers
/// differ by one at most, or those of two of their keyframes do, or one sees a keyframe that the other
/// keeps away from, or, where time counts, neither begins twenty seconds or more after the other ended.
pub proof fn locality_is_of_neighbours(a: SequenceModel, b: SequenceModel, temporal: bool)
    requires
        a.start_ns <= a.end_ns,
        b.start_ns <= b.end_ns,
    ensures
        local(a, b, temporal) <==> a.key.robot == b.key.robot && a.key.session == b.key.session && {
            ||| a.key.id <= b.key.id + 1 && b.key.id <= a.key.id + 1
            ||| exists|i: int, j: int|
                0 <= i < a.members.len() && 0 <= j < b.members.len() && (
                #[trigger] a.members[i]).id <= (#[trigger] b.members[j]).id + 1 && b.members[j].id
                    <= a.members[i].id + 1
            ||| exists|j: int|
                0 <= j < b.members.len() && a.excluded_keyframes.contains(
                    (#[trigger] b.members[j]).id,
                )
            ||| exists|i: int|
                0 <= i < a.members.len() && b.excluded_keyframes.contains(
                    (#[trigger] a.members[i]).id,
                )
            ||| temporal && a.start_ns - b.end_ns < 20_000_000_000 && b.start_ns - a.end_ns
                < 20_000_000_000
        },
{
    if exists|i: int, j: int|
        0 <= i < a.members.len() && 0 <= j < b.members.len() && (#[trigger] a.members[i]).id <= (
        #[trigger] b.members[j]).id + 1 && b.members[j].id <= a.members[i].id + 1 {
        let (i, j) = choose|i: int, j: int|
            0 <= i < a.members.len() && 0 <= j < b.members.len() && (#[trigger] a.members[i]).id
                <= (#[trigger] b.members[j]).id + 1 && b.members[j].id <= a.members[i].id + 1;
        assert(adjacent(a.members[i].id, b.members[j].id));
    }
    if members_adjacent(a, b) {
        let (i, j) = choose|i: int, j: int|
            0 <= i < a.members.len() && 0 <= j < b.members.len() && adjacent(
                (#[trigger] a.members[i]).id,
                (#[trigger] b.members[j]).id,
            );
        assert(a.members[i].id <= b.members[j].id + 1);
    }
}

/// One more stored sequence is counted and found by what it holds: it counts where it is another of the
/// same model and the asker or it is of the robot that does the work, among the near ones where it is of
/// one stretch with the asker, among those compared where not; and it is found where it is compared and
/// its similarity reaches the minimum.
pub proof fn every_stored_sequence_is_judged(
    store: Seq<SequenceModel>,
    similarities: Seq<u32>,
    query: SequenceModel,
    minimum: u32,
    owner: Option<KeyModel>,
    n: int,
)
    requires
        0 <= n < store.len() <= usize::MAX,
    ensures
        ({
            let before = sweep(store, similarities, query, minimum, owner, n);
            let after = sweep(store, similarities, query, minimum, owner, n + 1);
            let s = store[n];
            let theirs = owner is None || query.key.robot == owner->0.robot || s.key.robot
                == owner->0.robot;
            let counts = theirs && s.key != query.key && s.model_id == query.model_id;
            &&& after.compared == before.compared + (if counts && !local(query, s, true) {
                1int
            } else {
                0
            })
            &&& after.excluded_local == before.excluded_local + (if counts && local(
                query,
                s,
                true,
            ) {
                1int
            } else {
                0
            })
            &&& after.hits == if counts && !local(query, s, true) && single_at_most(
                minimum,
                similarities[n],
            ) {
                before.hits.push(Hit { place: n as usize, similarity: similarities[n] })
            } else {
                before.hits
            }
        }),
        sweep(store, similarities, query, minimum, owner, 0).compared == 0,
        sweep(store, similarities, query, minimum, owner, 0).excluded_local == 0,
        sweep(store, similarities, query, minimum, owner, 0).hits.len() == 0,
{
}

/// A stored sequence is found exactly where it is another one of the same model, not of one stretch with
/// the asker, alike enough, and it or the asker is of the robot that does the work. Found ones keep the
/// order of the store.
pub proof fn found_sequences_are_those_that_may_answer(
    store: Seq<SequenceModel>,
    similarities: Seq<u32>,
    query: SequenceModel,
    minimum: u32,
    owner: Option<KeyModel>,
    n: int,
)
    requires
        0 <= n <= store.len() <= usize::MAX,
    ensures
        ({
            let hits = sweep(store, similarities, query, minimum, owner, n).hits;
            &&& forall|i: int|
                0 <= i < n ==> (hits.contains(
                    Hit { place: i as usize, similarity: similarities[i] },
                ) <==> {
                    let s = #[trigger] store[i];
                    &&& owner is None || query.key.robot == owner->0.robot || s.key.robot
                        == owner->0.robot
                    &&& s.key != query.key
                    &&& s.model_id == query.model_id
                    &&& !local(query, s, true)
                    &&& single_at_most(minimum, similarities[i])
                })
            &&& forall|k: int|
                0 <= k < hits.len() ==> (#[trigger] hits[k]).place < n && hits[k].similarity
                    == similarities[hits[k].place as int]
            &&& forall|j: int, k: int|
                0 <= j < k < hits.len() ==> (#[trigger] hits[j]).place < (#[trigger] hits[k]).place
        }),
    decreases n,
{
    if n > 0 {
        found_sequences_are_those_that_may_answer(
            store,
            similarities,
            query,
            minimum,
            owner,
            n - 1,
        );
        let before = sweep(store, similarities, query, minimum, owner, n - 1).hits;
        let hits = sweep(store, similarities, query, minimum, owner, n).hits;
        assert forall|k: int| 0 <= k < before.len() implies #[trigger] hits[k] == before[k] by {}
        assert forall|i: int| 0 <= i < n implies (hits.contains(
            Hit { place: i as usize, similarity: similarities[i] },
        ) <==> {
            let s = #[trigger] store[i];
            &&& owner is None || query.key.robot == owner->0.robot || s.key.robot == owner->0.robot
            &&& s.key != query.key
            &&& s.model_id == query.model_id
            &&& !local(query, s, true)
            &&& single_at_most(minimum, similarities[i])
        }) by {
            let hit = Hit { place: i as usize, similarity: similarities[i] };
            if i < n - 1 {
                if before.contains(hit) {
                    let k = choose|k: int| 0 <= k < before.len() && before[k] == hit;
                    assert(hits[k] == hit);
                }
                if hits.contains(hit) {
                    let k = choose|k: int| 0 <= k < hits.len() && hits[k] == hit;
                    if k < before.len() {
                        assert(before[k] == hit);
                    }
                }
            } else {
                if hits.len() > before.len() {
                    assert(hits[before.len() as int] == hit);
                } else if hits.contains(hit) {
                    let k = choose|k: int| 0 <= k < hits.len() && hits[k] == hit;
                    assert(before[k].place < n - 1);
                }
            }
        }
    }
}

/// A search whose asker is of the robot that does the work gives the same as one without such a robot.
pub proof fn owners_are_answered_in_full(
    retrieval: &Retrieval,
    query: SequenceModel,
    minimum: u32,
    owner: KeyModel,
    similarities: Seq<u32>,
    out: Seq<(Key, u32)>,
    stats: RetrievalStats,
)
    requires
        query.key.robot == owner.robot,
    ensures
        retrieval.found(query, minimum, Some(owner), similarities, out, stats) == retrieval.found(
            query,
            minimum,
            None,
            similarities,
            out,
            stats,
        ),
{
    let store = retrieval.store();
    sweep_of_owner(store, similarities, query, minimum, owner, store.len() as int);
}

proof fn sweep_of_owner(
    store: Seq<SequenceModel>,
    similarities: Seq<u32>,
    query: SequenceModel,
    minimum: u32,
    owner: KeyModel,
    n: int,
)
    requires
        query.key.robot == owner.robot,
    ensures
        sweep(store, similarities, query, minimum, Some(owner), n) == sweep(
            store,
            similarities,
            query,
            minimum,
            None,
            n,
        ),
    decreases n,
{
    if n > 0 {
        sweep_of_owner(store, similarities, query, minimum, owner, n - 1);
    }
}

/// A search takes the most alike first. What it leaves out of a ranking is of one stretch with one that is
/// ranked before it and was taken, or is ranked behind three that were taken.
pub proof fn searches_take_the_most_alike(store: Seq<SequenceModel>, ranking: Seq<Hit>)
    ensures
        ({
            let taken = taken_from(store, ranking, Seq::empty(), 0, 0).0;
            let grouped = taken_from(store, ranking, Seq::empty(), 0, 0).1;
            &&& taken.len() <= 3
            &&& taken.len() < 3 ==> taken.len() + grouped == ranking.len()
            &&& ranking.len() > 0 ==> taken.len() > 0 && taken[0] == ranking[0]
            &&& forall|k: int|
                #![trigger ranking[k]]
                0 <= k < ranking.len() ==> {
                    ||| taken.contains(ranking[k])
                    ||| exists|j: int|
                        0 <= j < k && taken.contains(#[trigger] ranking[j]) && local(
                            store[ranking[j].place as int],
                            store[ranking[k].place as int],
                            false,
                        )
                    ||| taken.len() == 3 && ranked_before(ranking, taken, k)
                }
            &&& ranked_before(ranking, taken, ranking.len() as int)
        }),
{
    most_alike_from(store, ranking, Seq::empty(), 0, 0);
    if ranking.len() > 0 {
        reveal_with_fuel(taken_from, 2);
        let one = Seq::<Hit>::empty().push(ranking[0]);
        assert(taken_from(store, ranking, Seq::empty(), 0, 0) == taken_from(
            store,
            ranking,
            one,
            0,
            1,
        ));
        assert(ranked_before(ranking, one, 1)) by {
            assert(ranking.take(1)[0] == one[0]);
        }
        assert(one[0] == ranking[0]);
        most_alike_from(store, ranking, one, 0, 1);
    }
}

/// Whether hits are among the first of a ranking.
pub open spec fn ranked_before(ranking: Seq<Hit>, hits: Seq<Hit>, n: int) -> bool {
    forall|t: int|
        0 <= t < hits.len() ==> #[trigger] ranking.take(n).contains(hits[t])
}

proof fn most_alike_from(
    store: Seq<SequenceModel>,
    ranking: Seq<Hit>,
    taken: Seq<Hit>,
    grouped: nat,
    i: int,
)
    requires
        0 <= i <= ranking.len(),
        taken.len() <= 3,
        taken.len() + grouped == i,
        ranked_before(ranking, taken, i),
        forall|k: int|
            #![trigger ranking[k]]
            0 <= k < i ==> taken.contains(ranking[k]) || exists|j: int|
                0 <= j < k && taken.contains(#[trigger] ranking[j]) && local(
                    store[ranking[j].place as int],
                    store[ranking[k].place as int],
                    false,
                ),
    ensures
        ({
            let out = taken_from(store, ranking, taken, grouped, i);
            &&& out.0.len() <= 3
            &&& out.0.len() < 3 ==> out.0.len() + out.1 == ranking.len()
            &&& taken.len() <= out.0.len()
            &&& forall|t: int| 0 <= t < taken.len() ==> #[trigger] out.0[t] == taken[t]
            &&& forall|k: int|
                #![trigger ranking[k]]
                0 <= k < ranking.len() ==> {
                    ||| out.0.contains(ranking[k])
                    ||| exists|j: int|
                        0 <= j < k && out.0.contains(#[trigger] ranking[j]) && local(
                            store[ranking[j].place as int],
                            store[ranking[k].place as int],
                            false,
                        )
                    ||| out.0.len() == 3 && ranked_before(ranking, out.0, k)
                }
            &&& ranked_before(ranking, out.0, ranking.len() as int)
        }),
    decreases ranking.len() - i,
{
    if i >= ranking.len() || taken.len() >= MAX_CANDIDATES {
        assert forall|k: int| i <= k <= ranking.len() implies #[trigger] ranked_before(
            ranking,
            taken,
            k,
        ) by {
            assert forall|t: int| 0 <= t < taken.len() implies #[trigger] ranking.take(k).contains(
                taken[t],
            ) by {
                assert(ranking.take(i).contains(taken[t]));
                let p = choose|p: int|
                    0 <= p < ranking.take(i).len() && ranking.take(i)[p] == taken[t];
                assert(ranking.take(k)[p] == taken[t]);
            }
        }
        assert(ranked_before(ranking, taken, ranking.len() as int));
    } else {
        let grouping = grouped_with(store, taken, ranking[i]);
        let next = if grouping {
            taken
        } else {
            taken.push(ranking[i])
        };
        assert forall|h: Hit| taken.contains(h) implies #[trigger] next.contains(h) by {
            let p = choose|p: int| 0 <= p < taken.len() && taken[p] == h;
            assert(next[p] == h);
        }
        assert forall|t: int| 0 <= t < next.len() implies #[trigger] ranking.take(i + 1).contains(
            next[t],
        ) by {
            if t < taken.len() {
                assert(next[t] == taken[t]);
                assert(ranking.take(i).contains(taken[t]));
                let p = choose|p: int|
                    0 <= p < ranking.take(i).len() && ranking.take(i)[p] == taken[t];
                assert(ranking.take(i + 1)[p] == taken[t]);
            } else {
                assert(ranking.take(i + 1)[i] == next[t]);
            }
        }
        assert forall|k: int|
            #![trigger ranking[k]]
            0 <= k < i + 1 implies next.contains(ranking[k]) || exists|j: int|
            0 <= j < k && next.contains(#[trigger] ranking[j]) && local(
                store[ranking[j].place as int],
                store[ranking[k].place as int],
                false,
            ) by {
            if k == i {
                if grouping {
                    let t = choose|t: int|
                        0 <= t < taken.len() && local(
                            store[(#[trigger] taken[t]).place as int],
                            store[ranking[i].place as int],
                            false,
                        );
                    assert(ranking.take(i).contains(taken[t]));
                    let p = choose|p: int|
                        0 <= p < ranking.take(i).len() && ranking.take(i)[p] == taken[t];
                    assert(ranking[p] == taken[t]);
                    assert(next.contains(ranking[p]));
                } else {
                    assert(next[taken.len() as int] == ranking[k]);
                }
            } else if !taken.contains(ranking[k]) {
                let j = choose|j: int|
                    0 <= j < k && taken.contains(#[trigger] ranking[j]) && local(
                        store[ranking[j].place as int],
                        store[ranking[k].place as int],
                        false,
                    );
                assert(next.contains(ranking[j]));
            }
        }
        if grouping {
            most_alike_from(store, ranking, next, grouped + 1, i + 1);
        } else {
            most_alike_from(store, ranking, next, grouped, i + 1);
            let out = taken_from(store, ranking, next, grouped, i + 1);
            assert forall|t: int| 0 <= t < taken.len() implies #[trigger] out.0[t] == taken[t] by {
                assert(out.0[t] == next[t]);
            }
        }
    }
}

/// A search tells of every stored sequence: it counts as near where it is another of the same model, the asker
/// or it is of the robot that does the work, and it is of one stretch with the asker; as compared where it is
/// not of one stretch; and as above the threshold where it is compared and alike enough.
pub proof fn searches_tell_what_they_went_through(
    retrieval: &Retrieval,
    query: SequenceModel,
    minimum: u32,
    owner: Option<KeyModel>,
    similarities: Seq<u32>,
    out: Seq<(Key, u32)>,
    stats: RetrievalStats,
    asked: spec_fn(int) -> bool,
)
    requires
        retrieval.found(query, minimum, owner, similarities, out, stats),
        retrieval.store().len() <= usize::MAX,
        forall|i: int|
            0 <= i < retrieval.store().len() ==> (#[trigger] asked(i) <==> (owner is None
                || query.key.robot == owner->0.robot || retrieval.store()[i].key.robot
                == owner->0.robot) && retrieval.store()[i].key != query.key
                && retrieval.store()[i].model_id == query.model_id),
    ensures
        ({
            let store = retrieval.store();
            let places = Seq::new(store.len(), |i: int| i);
            &&& stats.excluded_local == places.filter(
                |i: int| asked(i) && local(query, store[i], true),
            ).len()
            &&& stats.compared == places.filter(
                |i: int| asked(i) && !local(query, store[i], true),
            ).len()
            &&& stats.above_threshold == places.filter(
                |i: int|
                    asked(i) && !local(query, store[i], true) && single_at_most(
                        minimum,
                        similarities[i],
                    ),
            ).len()
            &&& out.len() <= 3
            &&& stats.above_threshold > 0 ==> out.len() > 0
        }),
{
    let store = retrieval.store();
    let n = store.len() as int;
    let places = Seq::new(store.len(), |i: int| i);
    let near = |i: int| asked(i) && local(query, store[i], true);
    let far = |i: int| asked(i) && !local(query, store[i], true);
    let alike = |i: int|
        asked(i) && !local(query, store[i], true) && single_at_most(minimum, similarities[i]);
    sweep_counts(store, similarities, query, minimum, owner, n, near, far, alike);
    assert(places.take(n) =~= places);
    let swept = sweep(store, similarities, query, minimum, owner, n);
    found_sequences_are_those_that_may_answer(store, similarities, query, minimum, owner, n);
    rankings_are_ordered(swept.hits);
    let ranking = ranked(swept.hits);
    let taken = taken_from(store, ranking, Seq::empty(), 0, 0).0;
    searches_take_the_most_alike(store, ranking);
    let shown = out.map_values(|e: (Key, u32)| (e.0@, e.1));
    let named = taken.map_values(|h: Hit| (store[h.place as int].key, h.similarity));
    assert(shown == named);
    assert(shown.len() == named.len());
    assert(ranking.len() == swept.hits.len()) by {
        broadcast use vstd::seq_lib::group_to_multiset_ensures;

        assert(ranking.to_multiset().len() == ranking.len());
        assert(swept.hits.to_multiset().len() == swept.hits.len());
    }
}

/// What a search gives out names a stored sequence with its own similarity: another of the same model that is
/// not of one stretch with the asker, alike enough, and of a robot that may answer.
pub proof fn searches_give_stored_sequences(
    retrieval: &Retrieval,
    query: SequenceModel,
    minimum: u32,
    owner: Option<KeyModel>,
    similarities: Seq<u32>,
    out: Seq<(Key, u32)>,
    stats: RetrievalStats,
    k: int,
) -> (i: int)
    requires
        retrieval.found(query, minimum, owner, similarities, out, stats),
        retrieval.store().len() <= usize::MAX,
        0 <= k < out.len(),
    ensures
        0 <= i < retrieval.store().len(),
        retrieval.store()[i].key == out[k].0@,
        similarities[i] == out[k].1,
        owner is None || query.key.robot == owner->0.robot || retrieval.store()[i].key.robot
            == owner->0.robot,
        retrieval.store()[i].key != query.key,
        retrieval.store()[i].model_id == query.model_id,
        !local(query, retrieval.store()[i], true),
        single_at_most(minimum, similarities[i]),
{
    broadcast use vstd::seq_lib::group_to_multiset_ensures;

    let store = retrieval.store();
    let n = store.len() as int;
    let swept = sweep(store, similarities, query, minimum, owner, n);
    found_sequences_are_those_that_may_answer(store, similarities, query, minimum, owner, n);
    rankings_are_ordered(swept.hits);
    let ranking = ranked(swept.hits);
    let taken = taken_from(store, ranking, Seq::empty(), 0, 0).0;
    searches_take_the_most_alike(store, ranking);
    let shown = out.map_values(|e: (Key, u32)| (e.0@, e.1));
    let named = taken.map_values(|h: Hit| (store[h.place as int].key, h.similarity));
    assert(shown == named);
    assert(shown.len() == named.len());
    assert(shown[k] == named[k]);
    let h = taken[k];
    assert(ranked_before(ranking, taken, ranking.len() as int));
    let whole = ranking.take(ranking.len() as int);
    assert(whole =~= ranking);
    assert(ranking.take(ranking.len() as int).contains(taken[k]));
    assert(ranking.contains(h));
    assert(ranking.to_multiset().contains(h));
    assert(swept.hits.to_multiset().contains(h));
    assert(swept.hits.contains(h));
    let q = choose|q: int| 0 <= q < swept.hits.len() && swept.hits[q] == h;
    let i = h.place as int;
    assert(swept.hits[q].place < n);
    assert(h == (Hit { place: i as usize, similarity: similarities[i] }));
    assert(store[i].key == out[k].0@);
    i
}

proof fn sweep_counts(
    store: Seq<SequenceModel>,
    similarities: Seq<u32>,
    query: SequenceModel,
    minimum: u32,
    owner: Option<KeyModel>,
    n: int,
    near: spec_fn(int) -> bool,
    far: spec_fn(int) -> bool,
    alike: spec_fn(int) -> bool,
)
    requires
        0 <= n <= store.len() <= usize::MAX,
        forall|i: int|
            0 <= i < store.len() ==> (#[trigger] near(i) <==> may_answer(query, store[i], owner)
                && local(query, store[i], true)),
        forall|i: int|
            0 <= i < store.len() ==> (#[trigger] far(i) <==> may_answer(query, store[i], owner)
                && !local(query, store[i], true)),
        forall|i: int|
            0 <= i < store.len() ==> (#[trigger] alike(i) <==> far(i) && single_at_most(
                minimum,
                similarities[i],
            )),
    ensures
        ({
            let places = Seq::new(store.len(), |i: int| i);
            let s = sweep(store, similarities, query, minimum, owner, n);
            &&& s.excluded_local == places.take(n).filter(near).len()
            &&& s.compared == places.take(n).filter(far).len()
            &&& s.hits.len() == places.take(n).filter(alike).len()
        }),
    decreases n,
{
    let places = Seq::new(store.len(), |i: int| i);
    if n > 0 {
        sweep_counts(store, similarities, query, minimum, owner, n - 1, near, far, alike);
        filter_next(places, near, n - 1);
        filter_next(places, far, n - 1);
        filter_next(places, alike, n - 1);
        assert(places[n - 1] == n - 1);
        assert(alike(n - 1) <==> far(n - 1) && single_at_most(minimum, similarities[n - 1]));
    } else {
        reveal(Seq::filter);
        assert(places.take(0).filter(near).len() == 0);
        assert(places.take(0).filter(far).len() == 0);
        assert(places.take(0).filter(alike).len() == 0);
    }
}

} // verus!

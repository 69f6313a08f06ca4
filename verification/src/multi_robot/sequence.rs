//! Sequences of ten keyframes: how a session is cut into them, how five stand for ten, and how the
//! sequences of many robots are searched.
use crate::ieee::{
    double_finite, double_less, double_nan, is_double_less, is_single_less, single_less, single_nan,
    DOUBLE_INFINITY, SINGLE_NEGATIVE_INFINITY,
};
use crate::multi_robot::covisibility::{sightings_grow, within, Covisibility, Sighting};
use crate::multi_robot::error::{first_of, refused, Error};
use crate::multi_robot::keys::{key_fault, same_session, Key, KeyModel};
use crate::multi_robot::types::{
    descriptors_fault, is_triple_finite, transform_fault, triple_finite, FrameDescriptors,
    KeyframeRecord, Triple,
};
use crate::ordered::{ascending, filter_members, filter_next, increasing, set_members};
use std::collections::BTreeSet;
use vstd::prelude::*;

verus! {

broadcast use vstd::std_specs::btree::group_btree_axioms;

/// A keyframe with the place of its camera and the landmarks that it sees.
#[derive(Clone, Debug)]
pub struct KeyframeMeta {
    pub record: KeyframeRecord,
    pub camera_position: Triple,
    pub landmarks: BTreeSet<u64>,
}

/// What a keyframe did to the sequence in the making.
#[derive(Debug)]
pub struct Partition {
    pub retained: bool,
    pub reset: bool,
    pub complete: Option<Vec<KeyframeMeta>>,
}

impl Default for Partition {
    fn default() -> (partition: Self)
        ensures
            !partition.retained,
            !partition.reset,
            partition.complete is None,
    {
        Partition { retained: false, reset: false, complete: None }
    }
}

/// How many keyframes a sequence has.
pub const SEQUENCE_LENGTH: usize = 10;

/// The cutting of one session into sequences. Every keyframe counts for who sees what, also those
/// that are left out of the sequences.
pub struct SequenceBuilder {
    pending: Vec<KeyframeMeta>,
    last_key: Option<Key>,
    last_retained: BTreeSet<u64>,
    seen: Covisibility,
}

/// What the cutting holds.
#[verifier::ext_equal]
pub ghost struct BuilderModel {
    pub pending: Seq<KeyframeMeta>,
    pub last_key: Option<KeyModel>,
    pub last_retained: Set<u64>,
    pub history: Seq<Sighting>,
}

impl View for SequenceBuilder {
    type V = BuilderModel;

    closed spec fn view(&self) -> BuilderModel {
        BuilderModel {
            pending: self.pending@,
            last_key: match self.last_key {
                Some(k) => Some(k@),
                None => None,
            },
            last_retained: self.last_retained@,
            history: self.seen@,
        }
    }
}

/// Whether keyframes may stand in one sequence: acceptable, of one session, with growing numbers.
pub open spec fn block_wf(block: Seq<KeyframeMeta>) -> bool {
    &&& forall|i: int|
        0 <= i < block.len() ==> key_fault((#[trigger] block[i]).record.key@) is None
            && triple_finite(block[i].camera_position)
    &&& forall|i: int, j: int|
        0 <= i < j < block.len() ==> same_session(
            (#[trigger] block[i]).record.key@,
            (#[trigger] block[j]).record.key@,
        ) && block[i].record.key@.id < block[j].record.key@.id
}

impl BuilderModel {
    /// Why a keyframe is refused.
    pub open spec fn fault(self, meta: KeyframeMeta) -> Option<Seq<char>> {
        let key = meta.record.key@;
        first_of(
            key_fault(key),
            first_of(
                transform_fault(meta.record.body_to_odom),
                first_of(
                    if triple_finite(meta.camera_position) {
                        None
                    } else {
                        Some("invalid camera center"@)
                    },
                    if self.last_key matches Some(last) && (!same_session(last, key) || key.id
                        <= last.id) {
                        Some("keyframes must increase within one session"@)
                    } else {
                        None
                    },
                ),
            ),
        )
    }

    /// Whether keyframes have been lost before this one.
    pub open spec fn resets(self, meta: KeyframeMeta) -> bool {
        self.last_key matches Some(last) && last.id + 1 != meta.record.key@.id
    }

    /// The keyframes of the sequence in the making, unless it starts anew.
    pub open spec fn kept(self, meta: KeyframeMeta) -> Seq<KeyframeMeta> {
        if self.resets(meta) {
            Seq::empty()
        } else {
            self.pending
        }
    }

    /// The landmarks of the last keyframe of the sequence in the making.
    pub open spec fn compared(self, meta: KeyframeMeta) -> Set<u64> {
        if self.resets(meta) {
            Set::empty()
        } else {
            self.last_retained
        }
    }

    /// Whether a keyframe shows too little that is new: over nineteen twentieths of its landmarks
    /// are those of the last one.
    pub open spec fn skips(self, meta: KeyframeMeta) -> bool {
        let landmarks = meta.landmarks@;
        landmarks.len() > 0 && landmarks.intersect(self.compared(meta)).len() * 20
            > landmarks.len() * 19
    }

    /// The sequence in the making with this keyframe.
    pub open spec fn grown(self, meta: KeyframeMeta) -> Seq<KeyframeMeta> {
        self.kept(meta).push(meta)
    }

    /// The cutting after a keyframe.
    pub open spec fn pushed(self, meta: KeyframeMeta) -> BuilderModel {
        BuilderModel {
            pending: if self.skips(meta) {
                self.kept(meta)
            } else if self.grown(meta).len() == SEQUENCE_LENGTH {
                Seq::empty()
            } else {
                self.grown(meta)
            },
            last_key: Some(meta.record.key@),
            last_retained: if self.skips(meta) {
                self.compared(meta)
            } else {
                meta.landmarks@
            },
            history: self.history.push(
                Sighting { id: meta.record.key@.id, landmarks: meta.landmarks@ },
            ),
        }
    }

    /// What every cutting keeps: keyframes with growing numbers, the last of which is known, and
    /// fewer pending than make a sequence, all acceptable and of one session.
    pub open spec fn wf(self) -> bool {
        &&& sightings_grow(self.history)
        &&& self.pending.len() > 0 ==> self.last_key is Some
        &&& block_wf(self.pending)
        &&& forall|i: int|
            0 <= i < self.pending.len() ==> same_session(
                (#[trigger] self.pending[i]).record.key@,
                self.last_key->Some_0,
            ) && self.pending[i].record.key@.id <= self.last_key->Some_0.id
        &&& self.pending.len() < SEQUENCE_LENGTH
        &&& self.history.len() > 0 ==> self.last_key is Some
        &&& forall|i: int|
            0 <= i < self.history.len() ==> (#[trigger] self.history[i]).id
                <= self.last_key->Some_0.id
    }
}

/// The identities of some keyframes.
pub open spec fn key_ids(keys: Seq<Key>) -> Set<u64> {
    Set::new(|id: u64| exists|i: int| 0 <= i < keys.len() && (#[trigger] keys[i]).id == id)
}

fn overlap_of(landmarks: &BTreeSet<u64>, other: &BTreeSet<u64>) -> (count: usize)
    ensures
        count == landmarks@.intersect(other@).len(),
{
    let members = set_members(landmarks);
    let mut count: usize = 0;
    assert(members@.take(0).to_set().intersect(other@) =~= Set::<u64>::empty());
    for i in 0..members.len()
        invariant
            increasing(members@),
            count == members@.take(i as int).to_set().intersect(other@).len(),
            count <= i,
    {
        let id: u64 = members[i];
        proof {
            let pre = members@.take(i as int);
            let next = members@.take(i + 1);
            assert(next =~= pre.push(id));
            if pre.contains(id) {
                let p = choose|p: int| 0 <= p < pre.len() && pre[p] == id;
                assert(members@[p] < members@[i as int]);
            }
            assert(next.to_set() =~= pre.to_set().insert(id)) by {
                assert forall|x: u64| next.to_set().contains(x) <==> pre.to_set().insert(
                    id,
                ).contains(x) by {
                    if next.contains(x) {
                        let p = choose|p: int| 0 <= p < next.len() && next[p] == x;
                        if p < i {
                            assert(pre[p] == x);
                        }
                    }
                    if pre.contains(x) {
                        let p = choose|p: int| 0 <= p < pre.len() && pre[p] == x;
                        assert(next[p] == x);
                    }
                    assert(next[i as int] == id);
                }
            }
            let shared = pre.to_set().intersect(other@);
            if other@.contains(id) {
                assert(next.to_set().intersect(other@) =~= shared.insert(id));
            } else {
                assert(next.to_set().intersect(other@) =~= shared);
            }
            pre.unique_seq_to_set();
        }
        if other.contains(&id) {
            count = count + 1;
        }
    }
    assert(members@.take(members@.len() as int) =~= members@);
    count
}

impl Default for SequenceBuilder {
    fn default() -> (builder: Self)
        ensures
            builder.wf(),
            builder@ == (BuilderModel {
                pending: Seq::empty(),
                last_key: None,
                last_retained: Set::empty(),
                history: Seq::empty(),
            }),
    {
        SequenceBuilder::new()
    }
}

impl SequenceBuilder {
    /// Whether the cutting keeps its promises.
    pub closed spec fn wf(&self) -> bool {
        self.seen.wf() && self@.wf()
    }

    /// What a cutting that keeps its promises says of its model.
    pub proof fn model_is_wf(&self)
        requires
            self.wf(),
        ensures
            self@.wf(),
    {
    }

    /// No keyframe has come.
    pub fn new() -> (builder: Self)
        ensures
            builder.wf(),
            builder@ == (BuilderModel {
                pending: Seq::empty(),
                last_key: None,
                last_retained: Set::empty(),
                history: Seq::empty(),
            }),
    {
        SequenceBuilder {
            pending: Vec::new(),
            last_key: None,
            last_retained: BTreeSet::new(),
            seen: Covisibility::new(),
        }
    }

    /// Takes in a keyframe. A gap in the numbers starts the sequence anew; a keyframe that shows too
    /// little that is new is left out; the tenth completes the sequence.
    pub fn push(&mut self, meta: KeyframeMeta) -> (result: Result<Partition, Error>)
        requires
            old(self).wf(),
        ensures
            final(self).wf(),
            match old(self)@.fault(meta) {
                Some(text) => refused(result, text) && final(self)@ == old(self)@,
                None => {
                    &&& final(self)@ == old(self)@.pushed(meta)
                    &&& result matches Ok(part)
                    &&& part.retained == !old(self)@.skips(meta)
                    &&& part.reset == old(self)@.resets(meta)
                    &&& match part.complete {
                        Some(block) => part.retained && old(self)@.grown(meta).len()
                            == SEQUENCE_LENGTH && block@ == old(self)@.grown(meta) && block_wf(
                            block@,
                        ),
                        None => !part.retained || old(self)@.grown(meta).len() != SEQUENCE_LENGTH,
                    }
                },
            },
    {
        match meta.record.key.validate() {
            Err(e) => return Err(e),
            Ok(()) => {},
        }
        match meta.record.body_to_odom.se3() {
            Err(e) => return Err(e),
            Ok(()) => {},
        }
        if !is_triple_finite(&meta.camera_position) {
            return Err(Error::of("invalid camera center"));
        }
        let mut reset: bool = false;
        if let Some(last) = &self.last_key {
            if !last.same_session(&meta.record.key) || meta.record.key.id <= last.id {
                return Err(Error::of("keyframes must increase within one session"));
            }
            reset = last.id + 1 != meta.record.key.id;
        }
        let ghost before = self@;
        if reset {
            self.pending = Vec::new();
            self.last_retained = BTreeSet::new();
        }
        self.last_key = Some(meta.record.key.clone());
        self.seen.add(meta.record.key.id, &meta.landmarks);
        proof {
            self.seen.history_grows();
        }
        let overlap: usize = overlap_of(&meta.landmarks, &self.last_retained);
        let total: usize = meta.landmarks.len();
        let skip: bool = total > 0 && (overlap as u128) * 20 > (total as u128) * 19;
        assert(skip == before.skips(meta));
        if skip {
            return Ok(Partition { retained: false, reset, complete: None });
        }
        self.last_retained = meta.landmarks.clone();
        self.pending.push(meta);
        if self.pending.len() == SEQUENCE_LENGTH {
            let mut block: Vec<KeyframeMeta> = Vec::new();
            std::mem::swap(&mut block, &mut self.pending);
            return Ok(Partition { retained: true, reset, complete: Some(block) });
        }
        Ok(Partition { retained: true, reset, complete: None })
    }

    /// The keyframes within two steps of shared landmarks of some.
    pub fn neighborhood(&self, members: &Vec<Key>) -> (near: Vec<u64>)
        requires
            self.wf(),
        ensures
            near@ == ascending(within(self@.history, key_ids(members@), 2)),
            increasing(near@),
            near@.to_set() == within(self@.history, key_ids(members@), 2),
    {
        let mut ids: Vec<u64> = Vec::new();
        for i in 0..members.len()
            invariant
                ids@.len() == i,
                forall|j: int| 0 <= j < i ==> ids@[j] == (#[trigger] members@[j]).id,
        {
            ids.push(members[i].id);
        }
        proof {
            assert(ids@.to_set() =~= key_ids(members@)) by {
                assert forall|x: u64| ids@.to_set().contains(x) <==> key_ids(members@).contains(
                    x,
                ) by {
                    if ids@.contains(x) {
                        let p = choose|p: int| 0 <= p < ids@.len() && ids@[p] == x;
                        assert(members@[p].id == x);
                    }
                    if key_ids(members@).contains(x) {
                        let p = choose|p: int|
                            0 <= p < members@.len() && (#[trigger] members@[p]).id == x;
                        assert(ids@[p] == x);
                    }
                }
            }
        }
        self.seen.neighborhood(&ids)
    }
}

/// Keyframes of one session with growing numbers enter a cutting, each is counted for who sees what,
/// and a gap in the numbers leaves the sequence in the making with the new keyframe alone.
pub proof fn builders_stay_within_one_session(m: BuilderModel, meta: KeyframeMeta)
    requires
        m.wf(),
        m.fault(meta) is None,
        meta.landmarks@.finite(),
    ensures
        m.pushed(meta).wf(),
        m.last_key matches Some(last) ==> same_session(last, meta.record.key@) && last.id
            < meta.record.key@.id,
        m.resets(meta) ==> m.grown(meta) == seq![meta],
        m.pushed(meta).history.len() == m.history.len() + 1,
{
    assert(m.resets(meta) ==> m.grown(meta) =~= seq![meta]);
}

/// The three keyframes between the first and the last that stand for a sequence.
#[derive(Clone, Copy, Debug, PartialEq, Eq, Structural)]
pub struct Middle {
    pub a: usize,
    pub b: usize,
    pub c: usize,
}

/// Three places in the order of a code of three digits.
pub open spec fn middle_of(code: int) -> Middle {
    Middle { a: (code / 81) as usize, b: (code / 9 % 9) as usize, c: (code % 9) as usize }
}

/// Whether three places follow one another between the first and the last.
pub open spec fn between_the_ends(m: Middle) -> bool {
    1 <= m.a && m.a < m.b && m.b < m.c
}

/// All choices of three places between the first and the last, in lexicographic order.
pub open spec fn all_middles() -> Seq<Middle> {
    Seq::new(729, |code: int| middle_of(code)).filter(|m: Middle| between_the_ends(m))
}

/// Lists the choices in their order: what the costs are computed for.
pub fn middles() -> (list: Vec<Middle>)
    ensures
        list@ == all_middles(),
{
    let ghost codes = Seq::new(729, |code: int| middle_of(code));
    let ghost keep = |m: Middle| between_the_ends(m);
    let mut list: Vec<Middle> = Vec::new();
    proof {
        reveal(Seq::filter);
        assert(codes.take(0).filter(keep) =~= Seq::empty());
    }
    for code in 0..729usize
        invariant
            codes == Seq::new(729, |code: int| middle_of(code)),
            keep == (|m: Middle| between_the_ends(m)),
            list@ == codes.take(code as int).filter(keep),
    {
        let m = Middle { a: code / 81, b: code / 9 % 9, c: code % 9 };
        proof {
            filter_next(codes, keep, code as int);
            assert(codes[code as int] == m);
        }
        if 1 <= m.a && m.a < m.b && m.b < m.c {
            list.push(m);
        }
    }
    assert(codes.take(729) =~= codes);
    list
}

/// The first of the first `n` costs that is below all before it, and that cost: the first place and
/// infinity where none is below infinity.
pub open spec fn cheapest(costs: Seq<u64>, n: int) -> (int, u64)
    decreases n,
{
    if n <= 0 {
        (0, DOUBLE_INFINITY)
    } else {
        let best = cheapest(costs, n - 1);
        if double_less(costs[n - 1], best.1) {
            (n - 1, costs[n - 1])
        } else {
            best
        }
    }
}

/// Whether a place costs no more than any other, and is the first that does: all before it cost more,
/// as far as their costs are numbers.
pub open spec fn first_least(costs: Seq<u64>, place: int) -> bool {
    &&& 0 <= place < costs.len()
    &&& forall|i: int|
        0 <= i < costs.len() ==> !double_less(#[trigger] costs[i], costs[place]) && (i < place
            ==> double_nan(costs[i]) || double_less(costs[place], costs[i]))
}

/// The five places of a choice.
pub open spec fn five_of(m: Middle) -> Seq<usize> {
    seq![0, m.a, m.b, m.c, 9]
}

/// The five keyframes of ten that stand for them: those whose squared steps add up to least. `costs`
/// are the sums for the choices in their order; ties go to the earlier choice.
pub fn select_five(positions: &Vec<Triple>, costs: &Vec<u64>) -> (result: Result<[usize; 5], Error>)
    requires
        costs@.len() == all_middles().len(),
    ensures
        if positions@.len() == 10 && (forall|i: int|
            0 <= i < positions@.len() ==> triple_finite(#[trigger] positions@[i])) {
            &&& result matches Ok(five)
            &&& five@ == five_of(all_middles()[cheapest(costs@, costs@.len() as int).0])
            &&& first_least(costs@, cheapest(costs@, costs@.len() as int).0)
        } else {
            refused(result, "selection requires ten finite camera centers"@)
        },
{
    if positions.len() != 10 {
        return Err(Error::of("selection requires ten finite camera centers"));
    }
    for i in 0..positions.len()
        invariant
            forall|j: int| 0 <= j < i ==> triple_finite(#[trigger] positions@[j]),
    {
        if !is_triple_finite(&positions[i]) {
            assert(!triple_finite(positions@[i as int]));
            return Err(Error::of("selection requires ten finite camera centers"));
        }
    }
    let list = middles();
    let mut best: usize = 0;
    let mut cost: u64 = DOUBLE_INFINITY;
    for i in 0..costs.len()
        invariant
            cheapest(costs@, i as int) == (best as int, cost),
            best == 0 || best < i,
    {
        if is_double_less(costs[i], cost) {
            cost = costs[i];
            best = i;
        }
    }
    proof {
        middles_are_not_empty();
        cheapest_choice_is_least(costs@);
    }
    let m: Middle = list[best];
    let five: [usize; 5] = [0, m.a, m.b, m.c, 9];
    assert(five@ =~= five_of(m));
    Ok(five)
}

/// There is a choice.
pub proof fn middles_are_not_empty()
    ensures
        all_middles().len() > 0,
{
    let codes = Seq::new(729, |code: int| middle_of(code));
    let keep = |m: Middle| between_the_ends(m);
    let m = codes[102];
    assert(m == (Middle { a: 1, b: 2, c: 3 }));
    filter_members(codes, keep);
    assert(codes.contains(m) && keep(m));
    assert(codes.filter(keep).contains(m));
}

/// The choice that is made is the first that costs no more than any other. Its cost is what is kept,
/// unless none is below infinity.
pub proof fn cheapest_choice_is_least(costs: Seq<u64>)
    requires
        costs.len() > 0,
    ensures
        first_least(costs, cheapest(costs, costs.len() as int).0),
        ({
            let best = cheapest(costs, costs.len() as int);
            best.1 == if double_less(costs[best.0], DOUBLE_INFINITY) {
                costs[best.0]
            } else {
                DOUBLE_INFINITY
            }
        }),
{
    cheapest_of_the_first(costs, costs.len() as int);
}

proof fn cheapest_of_the_first(costs: Seq<u64>, n: int)
    requires
        0 < n <= costs.len(),
    ensures
        ({
            let best = cheapest(costs, n);
            &&& 0 <= best.0 < n
            &&& best.1 == if double_less(costs[best.0], DOUBLE_INFINITY) {
                costs[best.0]
            } else {
                DOUBLE_INFINITY
            }
            &&& best.1 == DOUBLE_INFINITY ==> best.0 == 0
            &&& forall|i: int|
                0 <= i < n ==> !double_less(#[trigger] costs[i], best.1) && (i < best.0
                    ==> double_nan(costs[i]) || double_less(best.1, costs[i]))
        }),
    decreases n,
{
    if n > 1 {
        cheapest_of_the_first(costs, n - 1);
    } else {
        assert(cheapest(costs, 0) == (0int, DOUBLE_INFINITY));
    }
}

/// The first of the first `n` scores that is above all before it, and that score: the first place and
/// minus infinity where none is above that.
pub open spec fn strongest(scores: Seq<u32>, n: int) -> (int, u32)
    decreases n,
{
    if n <= 0 {
        (0, SINGLE_NEGATIVE_INFINITY)
    } else {
        let best = strongest(scores, n - 1);
        if single_less(best.1, scores[n - 1]) {
            (n - 1, scores[n - 1])
        } else {
            best
        }
    }
}

/// Whether a place has a score no smaller than any other, and is the first that does: all before it
/// have less, as far as their scores are numbers.
pub open spec fn first_greatest(scores: Seq<u32>, place: int) -> bool {
    &&& 0 <= place < scores.len()
    &&& forall|i: int|
        0 <= i < scores.len() ==> !single_less(scores[place], #[trigger] scores[i]) && (i < place
            ==> single_nan(scores[i]) || single_less(scores[i], scores[place]))
}

/// The pair that is taken is the first whose score is no smaller than any other. Its score is what is
/// kept, unless none is above minus infinity.
pub proof fn strongest_pair_is_greatest(scores: Seq<u32>)
    requires
        scores.len() > 0,
    ensures
        first_greatest(scores, strongest(scores, scores.len() as int).0),
        ({
            let best = strongest(scores, scores.len() as int);
            best.1 == if single_less(SINGLE_NEGATIVE_INFINITY, scores[best.0]) {
                scores[best.0]
            } else {
                SINGLE_NEGATIVE_INFINITY
            }
        }),
{
    strongest_of_the_first(scores, scores.len() as int);
}

proof fn strongest_of_the_first(scores: Seq<u32>, n: int)
    requires
        0 < n <= scores.len(),
    ensures
        ({
            let best = strongest(scores, n);
            &&& 0 <= best.0 < n
            &&& best.1 == if single_less(SINGLE_NEGATIVE_INFINITY, scores[best.0]) {
                scores[best.0]
            } else {
                SINGLE_NEGATIVE_INFINITY
            }
            &&& best.1 == SINGLE_NEGATIVE_INFINITY ==> best.0 == 0
            &&& forall|i: int|
                0 <= i < n ==> !single_less(best.1, #[trigger] scores[i]) && (i < best.0
                    ==> single_nan(scores[i]) || single_less(scores[i], best.1))
        }),
    decreases n,
{
    if n > 1 {
        strongest_of_the_first(scores, n - 1);
    } else {
        assert(strongest(scores, 0) == (0int, SINGLE_NEGATIVE_INFINITY));
    }
}

/// The two keyframes of two sequences that look most alike. `scores` are the similarities of all
/// twenty-five, row by row; ties go to the earlier.
pub fn refine(a: &FrameDescriptors, b: &FrameDescriptors, scores: &Vec<u32>) -> (result: Result<
    (Key, Key, u32),
    Error,
>)
    requires
        scores@.len() == 25,
    ensures
        match first_of(descriptors_fault(*a), descriptors_fault(*b)) {
            Some(text) => refused(result, text),
            None => {
                let best = strongest(scores@, 25);
                &&& result == Ok::<(Key, Key, u32), Error>(
                    (a.frames@[best.0 / 5], b.frames@[best.0 % 5], best.1),
                )
                &&& first_greatest(scores@, best.0)
            },
        },
{
    match a.validate() {
        Err(e) => return Err(e),
        Ok(()) => {},
    }
    match b.validate() {
        Err(e) => return Err(e),
        Ok(()) => {},
    }
    let mut best: usize = 0;
    let mut score: u32 = SINGLE_NEGATIVE_INFINITY;
    for i in 0..25usize
        invariant
            scores@.len() == 25,
            strongest(scores@, i as int) == (best as int, score),
            best < 25,
    {
        if is_single_less(score, scores[i]) {
            score = scores[i];
            best = i;
        }
    }
    proof {
        strongest_pair_is_greatest(scores@);
    }
    Ok((a.frames[best / 5].clone(), b.frames[best % 5].clone(), score))
}

/// A keyframe is refused exactly where it lacks a name, a motion or a place, or does not come after the last
/// one of its session.
pub proof fn keyframes_come_in_order(m: BuilderModel, meta: KeyframeMeta)
    ensures
        m.fault(meta) is None <==> {
            let key = meta.record.key@;
            &&& key_fault(key) is None
            &&& transform_fault(meta.record.body_to_odom) is None
            &&& double_finite(meta.camera_position.x)
            &&& double_finite(meta.camera_position.y)
            &&& double_finite(meta.camera_position.z)
            &&& m.last_key is Some ==> m.last_key->0.robot == key.robot && m.last_key->0.session
                == key.session && m.last_key->0.id < key.id
        },
{
}

/// A gap in the numbers gives up what was pending and what it would be compared with. A keyframe that then
/// shares more than nineteen twentieths of its landmarks with the last one that was kept is skipped: what is
/// pending stays. Any other is kept, behind what is pending, and the tenth completes the block. Every
/// keyframe is remembered with its landmarks.
pub proof fn pushes_keep_or_skip(m: BuilderModel, meta: KeyframeMeta)
    ensures
        ({
            let after = m.pushed(meta);
            let gap = m.last_key is Some && meta.record.key@.id != m.last_key->0.id + 1;
            let pending = if gap {
                Seq::empty()
            } else {
                m.pending
            };
            let shared = if gap {
                0
            } else {
                meta.landmarks@.intersect(m.last_retained).len()
            };
            let skip = meta.landmarks@.len() > 0 && 20 * shared > 19 * meta.landmarks@.len();
            &&& m.resets(meta) <==> gap
            &&& m.skips(meta) <==> skip
            &&& m.grown(meta) == pending.push(meta)
            &&& skip ==> after.pending == pending && after.last_retained == (if gap {
                Set::empty()
            } else {
                m.last_retained
            })
            &&& !skip ==> after.last_retained == meta.landmarks@
            &&& !skip && pending.len() + 1 == 10 ==> after.pending.len() == 0
            &&& !skip && pending.len() + 1 != 10 ==> after.pending == pending.push(meta)
            &&& after.last_key == Some(meta.record.key@)
            &&& after.history.len() == m.history.len() + 1
            &&& after.history.take(m.history.len() as int) == m.history
            &&& after.history.last().id == meta.record.key@.id
            &&& after.history.last().landmarks == meta.landmarks@
        }),
{
    let gap = m.last_key is Some && meta.record.key@.id != m.last_key->0.id + 1;
    assert(m.pushed(meta).history.take(m.history.len() as int) =~= m.history);
    if gap {
        assert(meta.landmarks@.intersect(Set::empty()) =~= Set::empty());
    }
}

/// The choices of three keyframes between the ends of a block are all those in growing order, each once.
pub proof fn middles_are_all_between_the_ends(m: Middle)
    ensures
        all_middles().contains(m) <==> 1 <= m.a < m.b < m.c <= 8,
        five_of(m).len() == 5,
        five_of(m)[0] == 0,
        five_of(m)[1] == m.a,
        five_of(m)[2] == m.b,
        five_of(m)[3] == m.c,
        five_of(m)[4] == 9,
{
    let all = Seq::new(729, |code: int| middle_of(code));
    let keep = |m: Middle| between_the_ends(m);
    filter_members(all, keep);
    assert(all_middles().contains(m) <==> all.contains(m) && keep(m));
    if 1 <= m.a < m.b < m.c <= 8 {
        let code = 81 * m.a + 9 * m.b + m.c;
        assert(code / 81 == m.a && code / 9 % 9 == m.b && code % 9 == m.c) by (nonlinear_arith)
            requires
                code == 81 * m.a + 9 * m.b + m.c,
                0 <= m.b <= 8,
                0 <= m.c <= 8,
        ;
        assert(all[code] == m);
    }
    if all.contains(m) {
        let code = choose|code: int| 0 <= code < 729 && all[code] == m;
        assert(code % 9 <= 8);
    }
}

/// The cheapest choice is the first with the least cost; costs that are no numbers do not count.
pub proof fn no_choice_is_cheaper(costs: Seq<u64>, i: int)
    requires
        0 <= i < costs.len(),
    ensures
        ({
            let best = cheapest(costs, costs.len() as int).0;
            &&& 0 <= best < costs.len()
            &&& !double_less(costs[i], costs[best])
            &&& i < best && !double_nan(costs[i]) ==> double_less(costs[best], costs[i])
        }),
{
    cheapest_choice_is_least(costs);
}

/// The strongest pair is the first with the greatest score; scores that are no numbers do not count.
pub proof fn no_pair_is_stronger(scores: Seq<u32>, i: int)
    requires
        0 <= i < scores.len(),
    ensures
        ({
            let best = strongest(scores, scores.len() as int).0;
            &&& 0 <= best < scores.len()
            &&& !single_less(scores[best], scores[i])
            &&& i < best && !single_nan(scores[i]) ==> single_less(scores[i], scores[best])
        }),
{
    strongest_pair_is_greatest(scores);
}

/// The numbers of some keyframes are those that occur among them.
pub proof fn numbers_are_those_of_the_keyframes(keys: Seq<Key>, id: u64)
    ensures
        key_ids(keys).contains(id) <==> !(forall|i: int|
            0 <= i < keys.len() ==> (#[trigger] keys[i]).id != id),
{
}

} // verus!

//! What the diagnostic stream says of the boundary at which a marginalization is linearized: which
//! blocks are solved, which are marginalized, and which rows of a landmark fall outside.
use crate::basalt::problem::{
    frame_of_block, LandmarkModel, ProblemModel, WindowLandmark, WindowObservation, WindowProblem,
};
use crate::basalt::window::{
    first_pose, first_pose_is_first, first_state, first_state_is_first,
};
use crate::ordered::filter_next;
use std::collections::BTreeMap;
use vstd::prelude::*;

verus! {

broadcast use vstd::std_specs::btree::group_btree_axioms;

/// The identity of a block.
#[derive(Clone, Copy, Debug, PartialEq, Eq, Structural)]
pub struct BlockIdentity {
    pub frame_id: u64,
    pub timestamp_ns: Option<i64>,
    pub block_index: usize,
    pub is_pose: bool,
}

/// One observation of a landmark at the boundary: the frame it points to, whether that is the
/// current one, whether its block is marginalized, and the first of its two rows.
#[derive(Clone, Copy, Debug, PartialEq, Eq, Structural)]
pub struct BoundaryObservation {
    pub state_index: usize,
    pub camera_id: u16,
    pub target_frame_id: Option<u64>,
    pub target_timestamp_ns: Option<i64>,
    pub is_current_event_frame: bool,
    pub in_aom: bool,
    pub first_row: usize,
}

/// One landmark at the boundary, with the number of its rows whose block is not marginalized.
#[derive(Debug)]
pub struct BoundaryLandmark {
    pub track_id: u64,
    pub host_frame_id: Option<u64>,
    pub host_timestamp_ns: Option<i64>,
    pub null_rows: usize,
    pub observations: Vec<BoundaryObservation>,
}

/// What is said of a landmark at the boundary.
#[verifier::ext_equal]
pub ghost struct BoundaryLandmarkModel {
    pub track_id: u64,
    pub host_frame_id: Option<u64>,
    pub host_timestamp_ns: Option<i64>,
    pub null_rows: nat,
    pub observations: Seq<BoundaryObservation>,
}

impl View for BoundaryLandmark {
    type V = BoundaryLandmarkModel;

    open spec fn view(&self) -> BoundaryLandmarkModel {
        BoundaryLandmarkModel {
            track_id: self.track_id,
            host_frame_id: self.host_frame_id,
            host_timestamp_ns: self.host_timestamp_ns,
            null_rows: self.null_rows as nat,
            observations: self.observations@,
        }
    }
}

/// One factor as it was linearized: the number of its kind, its rows, and the place of its landmark
/// where it has one.
#[derive(Clone, Copy, Debug, PartialEq, Eq, Structural)]
pub struct FactorShape {
    pub kind: u64,
    pub rows: usize,
    pub landmark_index: Option<usize>,
}

/// What is said of the landmark of a factor: the rows that fall outside, and the rows that its
/// observations call for.
#[derive(Clone, Copy, Debug, PartialEq, Eq, Structural)]
pub struct FactorLandmark {
    pub landmark_index: usize,
    pub null_rows: usize,
    pub expected_rows: usize,
}

/// The time of a frame in a problem: that of its pose, else of its state.
pub open spec fn problem_time(p: ProblemModel, frame_id: u64) -> Option<i64> {
    match first_pose(p.poses, frame_id, p.poses.len() as int) {
        Some(i) => Some(p.poses[i].timestamp_ns),
        None => match first_state(p.states, frame_id, p.states.len() as int) {
            Some(i) => Some(p.states[i].timestamp_ns),
            None => None,
        },
    }
}

/// The identity of the block at place `i`.
pub open spec fn block_identity(p: ProblemModel, i: int) -> BlockIdentity {
    let frame_id = frame_of_block(p.poses, p.states, i)->0;
    BlockIdentity {
        frame_id,
        timestamp_ns: problem_time(p, frame_id),
        block_index: i as usize,
        is_pose: i < p.poses.len(),
    }
}

/// Whether the block of an observation is among those of the problem.
pub open spec fn in_problem(p: ProblemModel, o: WindowObservation) -> bool {
    frame_of_block(p.poses, p.states, o.state_index as int) is Some
}

/// What is said of the observation at place `ordinal` of a landmark.
pub open spec fn boundary_observation(
    solved: ProblemModel,
    aom: ProblemModel,
    event_frame_id: u64,
    o: WindowObservation,
    ordinal: int,
) -> BoundaryObservation {
    let target = frame_of_block(solved.poses, solved.states, o.state_index as int);
    BoundaryObservation {
        state_index: o.state_index,
        camera_id: o.camera_id,
        target_frame_id: target,
        target_timestamp_ns: match target {
            Some(frame_id) => problem_time(solved, frame_id),
            None => None,
        },
        is_current_event_frame: target == Some(event_frame_id),
        in_aom: in_problem(aom, o),
        first_row: (2 * ordinal) as usize,
    }
}

/// The observations of a landmark whose block is not marginalized.
pub open spec fn outside(aom: ProblemModel, l: LandmarkModel) -> Seq<WindowObservation> {
    l.observations.filter(|o: WindowObservation| !in_problem(aom, o))
}

/// What is said of a landmark.
pub open spec fn boundary_landmark(
    solved: ProblemModel,
    aom: ProblemModel,
    event_frame_id: u64,
    l: LandmarkModel,
) -> BoundaryLandmarkModel {
    let host = frame_of_block(aom.poses, aom.states, l.anchor);
    BoundaryLandmarkModel {
        track_id: l.track_id,
        host_frame_id: host,
        host_timestamp_ns: match host {
            Some(frame_id) => problem_time(solved, frame_id),
            None => None,
        },
        null_rows: 2 * outside(aom, l).len(),
        observations: l.observations.map(
            |i: int, o: WindowObservation|
                boundary_observation(solved, aom, event_frame_id, o, i),
        ),
    }
}

/// The rows of the first `n` factors of a kind.
pub open spec fn rows_of_kind(factors: Seq<FactorShape>, kind: u64, n: int) -> nat
    decreases n,
{
    if n <= 0 {
        0
    } else {
        rows_of_kind(factors, kind, n - 1) + if factors[n - 1].kind == kind {
            factors[n - 1].rows as nat
        } else {
            0
        }
    }
}

/// The rows of the first `n` factors.
pub open spec fn rows_of_all(factors: Seq<FactorShape>, n: int) -> nat
    decreases n,
{
    if n <= 0 {
        0
    } else {
        rows_of_all(factors, n - 1) + factors[n - 1].rows as nat
    }
}

fn find_problem_time(p: &WindowProblem, frame_id: u64) -> (time: Option<i64>)
    ensures
        time == problem_time(p@, frame_id),
{
    let mut place: Option<usize> = None;
    for i in 0..p.poses.len()
        invariant
            match place {
                Some(k) => first_pose(p@.poses, frame_id, i as int) == Some(k as int) && k < i,
                None => first_pose(p@.poses, frame_id, i as int) is None,
            },
    {
        if place.is_none() && p.poses[i].frame_id == frame_id {
            place = Some(i);
        }
    }
    if let Some(i) = place {
        return Some(p.poses[i].timestamp_ns);
    }
    let mut place: Option<usize> = None;
    for i in 0..p.states.len()
        invariant
            match place {
                Some(k) => first_state(p@.states, frame_id, i as int) == Some(k as int) && k < i,
                None => first_state(p@.states, frame_id, i as int) is None,
            },
    {
        if place.is_none() && p.states[i].frame_id == frame_id {
            place = Some(i);
        }
    }
    match place {
        Some(i) => Some(p.states[i].timestamp_ns),
        None => None,
    }
}

/// Lists the blocks of a problem.
pub fn block_identities(p: &WindowProblem) -> (blocks: Vec<BlockIdentity>)
    requires
        p@.poses.len() + p@.states.len() <= usize::MAX,
    ensures
        blocks@ == Seq::new(
            p@.poses.len() + p@.states.len(),
            |i: int| block_identity(p@, i),
        ),
{
    let mut blocks: Vec<BlockIdentity> = Vec::new();
    let count: usize = p.poses.len() + p.states.len();
    for i in 0..count
        invariant
            count == p@.poses.len() + p@.states.len(),
            blocks@ =~= Seq::new(i as nat, |i: int| block_identity(p@, i)),
    {
        if let Some(frame_id) = p.block_frame_id(i) {
            blocks.push(
                BlockIdentity {
                    frame_id,
                    timestamp_ns: find_problem_time(p, frame_id),
                    block_index: i,
                    is_pose: i < p.poses.len(),
                },
            );
        }
    }
    blocks
}

fn landmark_at_boundary(
    solved: &WindowProblem,
    aom: &WindowProblem,
    event_frame_id: u64,
    l: &WindowLandmark,
) -> (landmark: BoundaryLandmark)
    requires
        2 * l@.observations.len() <= usize::MAX,
    ensures
        landmark@ == boundary_landmark(solved@, aom@, event_frame_id, l@),
{
    let ghost f = |i: int, o: WindowObservation|
        boundary_observation(solved@, aom@, event_frame_id, o, i);
    let ghost gone = |o: WindowObservation| !in_problem(aom@, o);
    let mut observations: Vec<BoundaryObservation> = Vec::new();
    let mut null_rows: usize = 0;
    proof {
        reveal(Seq::filter);
        assert(l@.observations.take(0).filter(gone) =~= Seq::empty());
    }
    for i in 0..l.observations.len()
        invariant
            2 * l@.observations.len() <= usize::MAX,
            f == (|i: int, o: WindowObservation|
                boundary_observation(solved@, aom@, event_frame_id, o, i)),
            gone == (|o: WindowObservation| !in_problem(aom@, o)),
            observations@ =~= l@.observations.map(f).take(i as int),
            null_rows == 2 * l@.observations.take(i as int).filter(gone).len(),
            null_rows <= 2 * i,
    {
        proof {
            filter_next(l@.observations, gone, i as int);
        }
        let o = l.observations[i];
        let target_frame_id = solved.block_frame_id(o.state_index);
        let target_timestamp_ns: Option<i64> = match target_frame_id {
            Some(frame_id) => find_problem_time(solved, frame_id),
            None => None,
        };
        let is_current_event_frame = match target_frame_id {
            Some(frame_id) => frame_id == event_frame_id,
            None => false,
        };
        let in_aom = aom.block_frame_id(o.state_index).is_some();
        if !in_aom {
            null_rows = null_rows + 2;
        }
        observations.push(
            BoundaryObservation {
                state_index: o.state_index,
                camera_id: o.camera_id,
                target_frame_id,
                target_timestamp_ns,
                is_current_event_frame,
                in_aom,
                first_row: i * 2,
            },
        );
    }
    assert(l@.observations.take(l@.observations.len() as int) =~= l@.observations);
    assert(observations@ =~= l@.observations.map(f));
    let host_frame_id = aom.block_frame_id(l.anchor_state_index);
    let host_timestamp_ns: Option<i64> = match host_frame_id {
        Some(frame_id) => find_problem_time(solved, frame_id),
        None => None,
    };
    let landmark = BoundaryLandmark {
        track_id: l.track_id,
        host_frame_id,
        host_timestamp_ns,
        null_rows,
        observations,
    };
    assert(landmark@ =~= boundary_landmark(solved@, aom@, event_frame_id, l@));
    landmark
}

/// Lists the landmarks that take part in a marginalization.
pub fn boundary_landmarks(solved: &WindowProblem, aom: &WindowProblem, event_frame_id: u64) -> (
    landmarks: Vec<BoundaryLandmark>)
    requires
        forall|i: int|
            0 <= i < aom@.landmarks.len() ==> 2 * (#[trigger] aom@.landmarks[i]).observations.len()
                <= usize::MAX,
    ensures
        landmarks@.map_values(|l: BoundaryLandmark| l@) == aom@.landmarks.map_values(
            |l: LandmarkModel| boundary_landmark(solved@, aom@, event_frame_id, l),
        ),
{
    let ghost model = |l: BoundaryLandmark| l@;
    let ghost f = |l: LandmarkModel| boundary_landmark(solved@, aom@, event_frame_id, l);
    let mut landmarks: Vec<BoundaryLandmark> = Vec::new();
    for i in 0..aom.landmarks.len()
        invariant
            aom@.landmarks.len() == aom.landmarks@.len(),
            forall|i: int|
                0 <= i < aom@.landmarks.len() ==> 2 * (
                #[trigger] aom@.landmarks[i]).observations.len() <= usize::MAX,
            model == (|l: BoundaryLandmark| l@),
            f == (|l: LandmarkModel| boundary_landmark(solved@, aom@, event_frame_id, l)),
            landmarks@.map_values(model) =~= aom@.landmarks.map_values(f).take(i as int),
    {
        let ghost before = landmarks@;
        assert(aom@.landmarks[i as int] == aom.landmarks@[i as int]@);
        let landmark = landmark_at_boundary(solved, aom, event_frame_id, &aom.landmarks[i]);
        landmarks.push(landmark);
        assert(landmarks@.map_values(model) =~= before.map_values(model).push(landmark@));
    }
    assert(landmarks@.map_values(model) =~= aom@.landmarks.map_values(f));
    landmarks
}

/// The rows of each kind of factor.
pub fn row_counts(factors: &Vec<FactorShape>) -> (counts: BTreeMap<u64, usize>)
    requires
        rows_of_all(factors@, factors@.len() as int) <= usize::MAX,
    ensures
        forall|kind: u64| #[trigger]
            counts@.contains_key(kind) <==> exists|i: int|
                0 <= i < factors@.len() && (#[trigger] factors@[i]).kind == kind,
        forall|kind: u64| #[trigger]
            counts@.contains_key(kind) ==> counts@[kind] == rows_of_kind(
                factors@,
                kind,
                factors@.len() as int,
            ),
{
    let mut counts: BTreeMap<u64, usize> = BTreeMap::new();
    for i in 0..factors.len()
        invariant
            rows_of_all(factors@, factors@.len() as int) <= usize::MAX,
            forall|kind: u64| #[trigger]
                counts@.contains_key(kind) <==> exists|j: int|
                    0 <= j < i && (#[trigger] factors@[j]).kind == kind,
            forall|kind: u64| #[trigger]
                counts@.contains_key(kind) ==> counts@[kind] == rows_of_kind(
                    factors@,
                    kind,
                    i as int,
                ),
    {
        let factor = factors[i];
        let ghost before = counts@;
        let kind: u64 = factor.kind;
        let sum: usize = match counts.get(&kind) {
            Some(sum) => *sum,
            None => 0,
        };
        proof {
            rows_of_kind_bounds(factors@, kind, i + 1);
            rows_grow(factors@, i + 1, factors@.len() as int);
            if !before.contains_key(kind) {
                rows_of_absent_kind(factors@, kind, i as int);
            }
        }
        counts.insert(kind, sum + factor.rows);
        proof {
            assert forall|k: u64| #[trigger] counts@.contains_key(k) <==> exists|j: int|
                0 <= j < i + 1 && (#[trigger] factors@[j]).kind == k by {
                if k == kind {
                    assert(factors@[i as int].kind == k);
                } else {
                    assert(counts@.contains_key(k) == before.contains_key(k));
                    if exists|j: int| 0 <= j < i + 1 && (#[trigger] factors@[j]).kind == k {
                        let j = choose|j: int| 0 <= j < i + 1 && (#[trigger] factors@[j]).kind == k;
                        assert(j < i);
                    }
                }
            }
        }
    }
    counts
}

proof fn rows_of_kind_bounds(factors: Seq<FactorShape>, kind: u64, n: int)
    ensures
        rows_of_kind(factors, kind, n) <= rows_of_all(factors, n),
    decreases n,
{
    if n > 0 {
        rows_of_kind_bounds(factors, kind, n - 1);
    }
}

proof fn rows_grow(factors: Seq<FactorShape>, a: int, b: int)
    requires
        0 <= a <= b,
    ensures
        rows_of_all(factors, a) <= rows_of_all(factors, b),
    decreases b - a,
{
    if a < b {
        rows_grow(factors, a, b - 1);
    }
}

proof fn rows_of_absent_kind(factors: Seq<FactorShape>, kind: u64, n: int)
    requires
        n <= factors.len(),
        forall|j: int| 0 <= j < n ==> (#[trigger] factors[j]).kind != kind,
    ensures
        rows_of_kind(factors, kind, n) == 0,
    decreases n,
{
    if n > 0 {
        rows_of_absent_kind(factors, kind, n - 1);
    }
}

/// What is said of the landmark of a factor, where the problem has it.
pub fn factor_landmark(aom: &WindowProblem, factor: &FactorShape) -> (landmark: Option<FactorLandmark>)
    requires
        forall|i: int|
            0 <= i < aom@.landmarks.len() ==> 2 * (#[trigger] aom@.landmarks[i]).observations.len()
                <= usize::MAX,
    ensures
        landmark == match factor.landmark_index {
            Some(i) => if i < aom@.landmarks.len() {
                let l = aom@.landmarks[i as int];
                Some(
                    FactorLandmark {
                        landmark_index: i,
                        null_rows: (2 * outside(aom@, l).len()) as usize,
                        expected_rows: (2 * l.observations.len()) as usize,
                    },
                )
            } else {
                None
            },
            None => None,
        },
{
    match factor.landmark_index {
        None => None,
        Some(index) => {
            assert(aom@.landmarks.len() == aom.landmarks@.len());
            if index >= aom.landmarks.len() {
                return None;
            }
            assert(aom@.landmarks[index as int] == aom.landmarks@[index as int]@);
            let l = &aom.landmarks[index];
            let ghost gone = |o: WindowObservation| !in_problem(aom@, o);
            let mut null_rows: usize = 0;
            proof {
                reveal(Seq::filter);
                assert(l@.observations.take(0).filter(gone) =~= Seq::empty());
            }
            for i in 0..l.observations.len()
                invariant
                    2 * l@.observations.len() <= usize::MAX,
                    gone == (|o: WindowObservation| !in_problem(aom@, o)),
                    null_rows == 2 * l@.observations.take(i as int).filter(gone).len(),
                    null_rows <= 2 * i,
            {
                proof {
                    filter_next(l@.observations, gone, i as int);
                }
                if aom.block_frame_id(l.observations[i].state_index).is_none() {
                    null_rows = null_rows + 2;
                }
            }
            assert(l@.observations.take(l@.observations.len() as int) =~= l@.observations);
            Some(
                FactorLandmark {
                    landmark_index: index,
                    null_rows,
                    expected_rows: l.observations.len() * 2,
                },
            )
        },
    }
}

/// The frame at which the solver stood: that of the last state, else of the last pose.
pub fn solve_frame(p: &WindowProblem) -> (frame: Option<(u64, i64)>)
    ensures
        frame == if p@.states.len() > 0 {
            Some((p@.states.last().frame_id, p@.states.last().timestamp_ns))
        } else if p@.poses.len() > 0 {
            Some((p@.poses.last().frame_id, p@.poses.last().timestamp_ns))
        } else {
            None
        },
{
    if p.states.len() > 0 {
        let s = p.states[p.states.len() - 1];
        Some((s.frame_id, s.timestamp_ns))
    } else if p.poses.len() > 0 {
        let s = p.poses[p.poses.len() - 1];
        Some((s.frame_id, s.timestamp_ns))
    } else {
        None
    }
}

/// The rows of a landmark that fall outside are never more than all its rows.
pub proof fn null_rows_are_among_the_rows(aom: ProblemModel, l: LandmarkModel)
    ensures
        2 * outside(aom, l).len() <= 2 * l.observations.len(),
{
    l.observations.lemma_filter_len(|o: WindowObservation| !in_problem(aom, o));
}

/// A block says the frame that it stands for, the time of the first pose of that frame or else of its first
/// state, its own place, and whether a pose stands there.
pub proof fn blocks_say_their_frames(p: ProblemModel, i: int)
    requires
        0 <= i < p.poses.len() + p.states.len() <= usize::MAX,
    ensures
        ({
            let b = block_identity(p, i);
            &&& b.block_index == i
            &&& b.is_pose <==> i < p.poses.len()
            &&& b.frame_id == if i < p.poses.len() {
                p.poses[i].frame_id
            } else {
                p.states[i - p.poses.len()].frame_id
            }
            &&& b.timestamp_ns is Some
            &&& {
                ||| exists|k: int|
                    0 <= k < p.poses.len() && (#[trigger] p.poses[k]).frame_id == b.frame_id
                        && b.timestamp_ns == Some(p.poses[k].timestamp_ns) && forall|j: int|
                        0 <= j < k ==> (#[trigger] p.poses[j]).frame_id != b.frame_id
                ||| (forall|k: int|
                    0 <= k < p.poses.len() ==> (#[trigger] p.poses[k]).frame_id != b.frame_id)
                    && exists|k: int|
                    0 <= k < p.states.len() && (#[trigger] p.states[k]).frame_id == b.frame_id
                        && b.timestamp_ns == Some(p.states[k].timestamp_ns) && forall|j: int|
                        0 <= j < k ==> (#[trigger] p.states[j]).frame_id != b.frame_id
            }
        }),
{
    let b = block_identity(p, i);
    first_pose_is_first(p.poses, b.frame_id, p.poses.len() as int);
    first_state_is_first(p.states, b.frame_id, p.states.len() as int);
    if i < p.poses.len() {
        assert(p.poses[i].frame_id == b.frame_id);
    } else {
        assert(p.states[i - p.poses.len()].frame_id == b.frame_id);
    }
}

/// A landmark at the boundary tells of each of its observations, in their order: the camera and the place as
/// they are, two rows for each, the frame that stands there among the solved blocks, whether that is the
/// frame of the event, and whether the block is one of those that take part; and it has two null rows for
/// each that is not.
pub proof fn boundary_landmarks_tell_their_observations(
    solved: ProblemModel,
    aom: ProblemModel,
    event_frame_id: u64,
    l: LandmarkModel,
)
    requires
        2 * l.observations.len() <= usize::MAX,
    ensures
        ({
            let b = boundary_landmark(solved, aom, event_frame_id, l);
            let blocks = solved.poses.len() + solved.states.len();
            let part = aom.poses.len() + aom.states.len();
            &&& b.track_id == l.track_id
            &&& b.null_rows == 2 * l.observations.filter(
                |o: WindowObservation| o.state_index >= part,
            ).len()
            &&& b.host_frame_id is Some <==> 0 <= l.anchor < part
            &&& 0 <= l.anchor < aom.poses.len() ==> b.host_frame_id == Some(
                aom.poses[l.anchor].frame_id,
            )
            &&& aom.poses.len() <= l.anchor < part ==> b.host_frame_id == Some(
                aom.states[l.anchor - aom.poses.len()].frame_id,
            )
            &&& b.observations.len() == l.observations.len()
            &&& forall|i: int|
                0 <= i < l.observations.len() ==> {
                    let o = l.observations[i];
                    let at = o.state_index as int;
                    let told = #[trigger] b.observations[i];
                    &&& told.state_index == o.state_index
                    &&& told.camera_id == o.camera_id
                    &&& told.first_row == 2 * i
                    &&& told.in_aom <==> at < part
                    &&& told.target_frame_id is Some <==> at < blocks
                    &&& at < solved.poses.len() ==> told.target_frame_id == Some(
                        solved.poses[at].frame_id,
                    )
                    &&& solved.poses.len() <= at < blocks ==> told.target_frame_id == Some(
                        solved.states[at - solved.poses.len()].frame_id,
                    )
                    &&& told.is_current_event_frame <==> told.target_frame_id == Some(
                        event_frame_id,
                    )
                }
        }),
{
    let part = aom.poses.len() + aom.states.len();
    assert((|o: WindowObservation| o.state_index >= part) =~= (|o: WindowObservation|
        !in_problem(aom, o)));
}

/// The rows of a kind are those of its factors, added up; the rows of all kinds those of all factors.
pub proof fn rows_add_up(factors: Seq<FactorShape>, kind: u64, n: int)
    requires
        0 <= n < factors.len(),
    ensures
        rows_of_kind(factors, kind, 0) == 0,
        rows_of_all(factors, 0) == 0,
        rows_of_all(factors, n + 1) - rows_of_all(factors, n) == factors[n].rows,
        factors[n].kind == kind ==> rows_of_kind(factors, kind, n + 1) - rows_of_kind(
            factors,
            kind,
            n,
        ) == factors[n].rows,
        factors[n].kind != kind ==> rows_of_kind(factors, kind, n + 1) == rows_of_kind(
            factors,
            kind,
            n,
        ),
{
}

} // verus!

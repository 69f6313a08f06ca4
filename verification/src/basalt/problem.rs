//! The least-squares problem of the window: which landmarks, observations and links enter it, and by
//! which unknowns.
use crate::basalt::collect::{Stores, TrackStore};
use crate::basalt::errors::EstimatorError;
use crate::basalt::identity::{Pixel, StoredObservation};
use crate::basalt::landmarks::{live, LandmarkRecord};
use crate::basalt::window::{
    first_state, first_state_is_first, pose_ids, state_ids, BlockKind, Frames, ImuLink, Window,
    WindowPose, WindowState, NAV_STATE_DOF, POSE_DOF,
};
use crate::ordered::{
    contains_id, copy_list, copy_list_of, filter_both, filter_map_pairs, filter_members,
    filter_next, list_of,
};
use vstd::prelude::*;

verus! {

broadcast use vstd::std_specs::btree::group_btree_axioms;

/// One observation of a landmark: the block of its frame, its camera and its pixel.
#[derive(Clone, Copy, Debug, PartialEq, Eq, Structural)]
pub struct WindowObservation {
    pub state_index: usize,
    pub camera_id: u16,
    pub pixel: Pixel,
}

/// One landmark of the problem: the block and the camera that host it, and its observations.
#[derive(Debug)]
pub struct WindowLandmark {
    pub track_id: u64,
    pub anchor_state_index: usize,
    pub anchor_camera_id: u16,
    pub observations: Vec<WindowObservation>,
}

/// What a landmark of the problem holds.
#[verifier::ext_equal]
pub ghost struct LandmarkModel {
    pub track_id: u64,
    pub anchor: int,
    pub camera: u16,
    pub observations: Seq<WindowObservation>,
}

impl View for WindowLandmark {
    type V = LandmarkModel;

    open spec fn view(&self) -> LandmarkModel {
        LandmarkModel {
            track_id: self.track_id,
            anchor: self.anchor_state_index as int,
            camera: self.anchor_camera_id,
            observations: self.observations@,
        }
    }
}

/// One inertial link between two states, by their places.
#[derive(Clone, Copy, Debug, PartialEq, Eq, Structural)]
pub struct WindowImuLink {
    pub from_index: usize,
    pub to_index: usize,
}

/// The problem of a window.
#[derive(Debug)]
pub struct WindowProblem {
    pub poses: Vec<WindowPose>,
    pub states: Vec<WindowState>,
    pub landmarks: Vec<WindowLandmark>,
    pub imu_links: Vec<WindowImuLink>,
}

/// What a problem holds.
#[verifier::ext_equal]
pub ghost struct ProblemModel {
    pub poses: Seq<WindowPose>,
    pub states: Seq<WindowState>,
    pub landmarks: Seq<LandmarkModel>,
    pub links: Seq<WindowImuLink>,
}

impl View for WindowProblem {
    type V = ProblemModel;

    open spec fn view(&self) -> ProblemModel {
        ProblemModel {
            poses: self.poses@,
            states: self.states@,
            landmarks: self.landmarks@.map_values(|l: WindowLandmark| l@),
            links: self.imu_links@,
        }
    }
}

/// The last of the first `n` poses that belongs to a frame.
pub open spec fn last_pose(poses: Seq<WindowPose>, frame_id: u64, n: int) -> Option<int>
    decreases n,
{
    if n <= 0 {
        None
    } else if poses[n - 1].frame_id == frame_id {
        Some(n - 1)
    } else {
        last_pose(poses, frame_id, n - 1)
    }
}

/// The last of the first `n` states that belongs to a frame.
pub open spec fn last_state(states: Seq<WindowState>, frame_id: u64, n: int) -> Option<int>
    decreases n,
{
    if n <= 0 {
        None
    } else if states[n - 1].frame_id == frame_id {
        Some(n - 1)
    } else {
        last_state(states, frame_id, n - 1)
    }
}

/// The block of a frame: its pose where it has one, else its state behind all poses.
pub open spec fn block_of(w: Frames, frame_id: u64) -> Option<int> {
    match last_pose(w.poses, frame_id, w.poses.len() as int) {
        Some(i) => Some(i),
        None => match last_state(w.states, frame_id, w.states.len() as int) {
            Some(i) => Some(w.poses.len() + i),
            None => None,
        },
    }
}

/// A factor record as an observation of the problem, where its frame is in the window.
pub open spec fn window_observation(w: Frames, r: StoredObservation) -> Option<WindowObservation> {
    match block_of(w, r.frame_id) {
        Some(i) => Some(
            WindowObservation { state_index: i as usize, camera_id: r.camera_id, pixel: r.pixel },
        ),
        None => None,
    }
}

/// The landmark of a track as it enters the problem: it was not removed, at least one of its
/// records and its host are in the window.
pub open spec fn window_landmark(w: Frames, s: Stores, track_id: u64) -> Option<LandmarkModel> {
    if !live(s.landmarks, track_id) {
        None
    } else {
        let record = s.landmarks[track_id];
        let observations = list_of(s.factors, track_id).filter_map(
            |r: StoredObservation| window_observation(w, r),
        );
        match block_of(w, record.anchor_pose) {
            Some(anchor) => if observations.len() == 0 {
                None
            } else {
                Some(
                    LandmarkModel {
                        track_id,
                        anchor,
                        camera: record.anchor_camera_id,
                        observations,
                    },
                )
            },
            None => None,
        }
    }
}

/// A link of the window as a link of the problem, where both frames have states.
pub open spec fn window_link(w: Frames, l: ImuLink) -> Option<WindowImuLink> {
    let n = w.states.len() as int;
    match (last_state(w.states, l.from, n), last_state(w.states, l.to, n)) {
        (Some(a), Some(b)) => Some(WindowImuLink { from_index: a as usize, to_index: b as usize }),
        _ => None,
    }
}

/// The problem of a window, with the landmarks in the order of `order`.
pub open spec fn problem_of(w: Frames, s: Stores, order: Seq<u64>) -> ProblemModel {
    ProblemModel {
        poses: w.poses,
        states: w.states,
        landmarks: order.filter_map(|t: u64| window_landmark(w, s, t)),
        links: w.links.filter_map(|l: ImuLink| window_link(w, l)),
    }
}

/// Every index of a problem is that of a block of the window.
pub proof fn problem_indices_are_blocks(w: Frames, s: Stores, order: Seq<u64>)
    requires
        w.poses.len() + w.states.len() <= usize::MAX,
    ensures
        ({
            let p = problem_of(w, s, order);
            let blocks = w.poses.len() + w.states.len();
            &&& forall|i: int|
                0 <= i < p.landmarks.len() ==> 0 <= (#[trigger] p.landmarks[i]).anchor < blocks
                    && p.landmarks[i].observations.len() > 0
            &&& forall|i: int, j: int|
                0 <= i < p.landmarks.len() && 0 <= j < p.landmarks[i].observations.len() ==> (
                #[trigger] p.landmarks[i].observations[j]).state_index < blocks
            &&& forall|i: int|
                0 <= i < p.links.len() ==> (#[trigger] p.links[i]).from_index < w.states.len()
                    && p.links[i].to_index < w.states.len()
        }),
{
    let p = problem_of(w, s, order);
    let to_landmark = |t: u64| window_landmark(w, s, t);
    filter_map_members(order, to_landmark);
    assert forall|i: int| 0 <= i < p.landmarks.len() implies 0 <= (
    #[trigger] p.landmarks[i]).anchor < w.poses.len() + w.states.len()
        && p.landmarks[i].observations.len() > 0 by {
        assert(maps_to(order, to_landmark, p.landmarks[i]));
        let k = choose|k: int|
            0 <= k < order.len() && to_landmark(#[trigger] order[k]) == Some(p.landmarks[i]);
        block_bounds(w, s.landmarks[order[k]].anchor_pose);
    }
    assert forall|i: int, j: int|
        0 <= i < p.landmarks.len() && 0 <= j < p.landmarks[i].observations.len() implies (
    #[trigger] p.landmarks[i].observations[j]).state_index < w.poses.len() + w.states.len() by {
        assert(maps_to(order, to_landmark, p.landmarks[i]));
        let k = choose|k: int|
            0 <= k < order.len() && to_landmark(#[trigger] order[k]) == Some(p.landmarks[i]);
        let records = list_of(s.factors, order[k]);
        let to_observation = |r: StoredObservation| window_observation(w, r);
        filter_map_members(records, to_observation);
        let observations = records.filter_map(to_observation);
        assert(p.landmarks[i].observations == observations);
        assert(maps_to(records, to_observation, observations[j]));
        let m = choose|m: int|
            0 <= m < records.len() && to_observation(#[trigger] records[m]) == Some(
                observations[j],
            );
        block_bounds(w, records[m].frame_id);
    }
    let to_link = |l: ImuLink| window_link(w, l);
    filter_map_members(w.links, to_link);
    assert forall|i: int| 0 <= i < p.links.len() implies (#[trigger] p.links[i]).from_index
        < w.states.len() && p.links[i].to_index < w.states.len() by {
        assert(maps_to(w.links, to_link, p.links[i]));
        let k = choose|k: int|
            0 <= k < w.links.len() && to_link(#[trigger] w.links[k]) == Some(p.links[i]);
        last_state_bounds(w.states, w.links[k].from, w.states.len() as int);
        last_state_bounds(w.states, w.links[k].to, w.states.len() as int);
    }
}

proof fn last_state_bounds(states: Seq<WindowState>, frame_id: u64, n: int)
    requires
        0 <= n <= states.len(),
    ensures
        last_state(states, frame_id, n) matches Some(i) ==> 0 <= i < n && states[i].frame_id
            == frame_id,
        last_state(states, frame_id, n) is None ==> forall|j: int|
            0 <= j < n ==> (#[trigger] states[j]).frame_id != frame_id,
    decreases n,
{
    if n > 0 && states[n - 1].frame_id != frame_id {
        last_state_bounds(states, frame_id, n - 1);
    }
}

proof fn last_pose_bounds(poses: Seq<WindowPose>, frame_id: u64, n: int)
    requires
        0 <= n <= poses.len(),
    ensures
        last_pose(poses, frame_id, n) matches Some(i) ==> 0 <= i < n && poses[i].frame_id
            == frame_id,
        last_pose(poses, frame_id, n) is None ==> forall|j: int|
            0 <= j < n ==> (#[trigger] poses[j]).frame_id != frame_id,
    decreases n,
{
    if n > 0 && poses[n - 1].frame_id != frame_id {
        last_pose_bounds(poses, frame_id, n - 1);
    }
}

proof fn block_bounds(w: Frames, frame_id: u64)
    ensures
        block_of(w, frame_id) matches Some(i) ==> 0 <= i < w.poses.len() + w.states.len(),
{
    last_pose_bounds(w.poses, frame_id, w.poses.len() as int);
    last_state_bounds(w.states, frame_id, w.states.len() as int);
}

proof fn filter_map_members<A, B>(s: Seq<A>, f: spec_fn(A) -> Option<B>)
    ensures
        forall|i: int|
            0 <= i < s.filter_map(f).len() ==> maps_to(s, f, #[trigger] s.filter_map(f)[i]),
    decreases s.len(),
{
    reveal(Seq::filter_map);
    assert forall|i: int| 0 <= i < s.filter_map(f).len() implies maps_to(
        s,
        f,
        #[trigger] s.filter_map(f)[i],
    ) by {
        s.lemma_filter_map_contains(f, s.filter_map(f)[i]);
        assert(s.filter_map(f).contains(s.filter_map(f)[i]));
        let t = choose|t: A| #[trigger] s.contains(t) && f(t) == Some(s.filter_map(f)[i]);
        let k = choose|k: int| 0 <= k < s.len() && s[k] == t;
        assert(f(s[k]) == Some(s.filter_map(f)[i]));
    }
}

spec fn maps_to<A, B>(s: Seq<A>, f: spec_fn(A) -> Option<B>, b: B) -> bool {
    exists|k: int| 0 <= k < s.len() && f(#[trigger] s[k]) == Some(b)
}

fn find_block(window: &Window, frame_id: u64) -> (block: Option<usize>)
    requires
        window@.poses.len() + window@.states.len() <= usize::MAX,
    ensures
        block_of(window@, frame_id) == match block {
            Some(i) => Some(i as int),
            None => None,
        },
{
    let mut found: Option<usize> = None;
    for i in 0..window.poses.len()
        invariant
            last_pose(window@.poses, frame_id, i as int) == match found {
                Some(i) => Some(i as int),
                None => None,
            },
    {
        if window.poses[i].frame_id == frame_id {
            found = Some(i);
        }
    }
    if found.is_some() {
        return found;
    }
    match find_state(window, frame_id) {
        Some(i) => {
            proof {
                last_state_bounds(window@.states, frame_id, window@.states.len() as int);
            }
            Some(window.poses.len() + i)
        },
        None => None,
    }
}

fn find_state(window: &Window, frame_id: u64) -> (place: Option<usize>)
    ensures
        last_state(window@.states, frame_id, window@.states.len() as int) == match place {
            Some(i) => Some(i as int),
            None => None,
        },
{
    let mut found: Option<usize> = None;
    for i in 0..window.states.len()
        invariant
            last_state(window@.states, frame_id, i as int) == match found {
                Some(i) => Some(i as int),
                None => None,
            },
    {
        if window.states[i].frame_id == frame_id {
            found = Some(i);
        }
    }
    found
}

fn landmark_block(window: &Window, store: &TrackStore, track_id: u64) -> (landmark: Option<
    WindowLandmark,
>)
    requires
        window@.poses.len() + window@.states.len() <= usize::MAX,
    ensures
        window_landmark(window@, store@, track_id) == match landmark {
            Some(l) => Some(l@),
            None => None,
        },
{
    if !store.landmarks.is_live(track_id) {
        return None;
    }
    let record: LandmarkRecord = match store.landmarks.landmarks.get(&track_id) {
        Some(record) => *record,
        None => return None,
    };
    let records = copy_list_of(&store.window_observations, track_id);
    let ghost f = |r: StoredObservation| window_observation(window@, r);
    let mut observations: Vec<WindowObservation> = Vec::new();
    proof {
        reveal(Seq::filter_map);
        assert(records@.take(0).filter_map(f) =~= Seq::empty());
    }
    for i in 0..records.len()
        invariant
            window@.poses.len() + window@.states.len() <= usize::MAX,
            f == (|r: StoredObservation| window_observation(window@, r)),
            observations@ == records@.take(i as int).filter_map(f),
    {
        let r = records[i];
        proof {
            records@.lemma_filter_map_take_succ(f, i as int);
        }
        if let Some(block) = find_block(window, r.frame_id) {
            observations.push(
                WindowObservation { state_index: block, camera_id: r.camera_id, pixel: r.pixel },
            );
        }
        assert(observations@ =~= records@.take(i + 1).filter_map(f));
    }
    assert(records@.take(records@.len() as int) =~= records@);
    if observations.len() == 0 {
        return None;
    }
    match find_block(window, record.anchor_pose) {
        Some(anchor) => Some(
            WindowLandmark {
                track_id,
                anchor_state_index: anchor,
                anchor_camera_id: record.anchor_camera_id,
                observations,
            },
        ),
        None => None,
    }
}

/// Builds the problem of a window. `order` lists the landmarks in the order in which their rows are
/// to be summed.
pub fn build_problem(window: &Window, store: &TrackStore, order: &Vec<u64>) -> (problem: WindowProblem)
    requires
        window@.poses.len() + window@.states.len() <= usize::MAX,
    ensures
        problem@ == problem_of(window@, store@, order@),
{
    let ghost f = |t: u64| window_landmark(window@, store@, t);
    let ghost g = |l: ImuLink| window_link(window@, l);
    let ghost model = |l: WindowLandmark| l@;
    let mut landmarks: Vec<WindowLandmark> = Vec::new();
    proof {
        reveal(Seq::filter_map);
        assert(order@.take(0).filter_map(f) =~= Seq::empty());
        assert(landmarks@.map_values(model) =~= Seq::empty());
    }
    for i in 0..order.len()
        invariant
            window@.poses.len() + window@.states.len() <= usize::MAX,
            f == (|t: u64| window_landmark(window@, store@, t)),
            model == (|l: WindowLandmark| l@),
            landmarks@.map_values(model) == order@.take(i as int).filter_map(f),
    {
        proof {
            order@.lemma_filter_map_take_succ(f, i as int);
        }
        let ghost before = landmarks@;
        if let Some(landmark) = landmark_block(window, store, order[i]) {
            landmarks.push(landmark);
            assert(landmarks@.map_values(model) =~= before.map_values(model).push(landmark@));
        }
        assert(landmarks@.map_values(model) =~= order@.take(i + 1).filter_map(f));
    }
    assert(order@.take(order@.len() as int) =~= order@);
    let mut imu_links: Vec<WindowImuLink> = Vec::new();
    proof {
        reveal(Seq::filter_map);
        assert(window@.links.take(0).filter_map(g) =~= Seq::empty());
    }
    for i in 0..window.imu_links.len()
        invariant
            g == (|l: ImuLink| window_link(window@, l)),
            imu_links@ == window@.links.take(i as int).filter_map(g),
    {
        proof {
            window@.links.lemma_filter_map_take_succ(g, i as int);
        }
        let l = window.imu_links[i];
        match (find_state(window, l.from), find_state(window, l.to)) {
            (Some(from_index), Some(to_index)) => {
                imu_links.push(WindowImuLink { from_index, to_index });
            },
            _ => {},
        }
        assert(imu_links@ =~= window@.links.take(i + 1).filter_map(g));
    }
    assert(window@.links.take(window@.links.len() as int) =~= window@.links);
    let problem = WindowProblem {
        poses: copy_list(&window.poses),
        states: copy_list(&window.states),
        landmarks,
        imu_links,
    };
    assert(problem@ =~= problem_of(window@, store@, order@));
    problem
}

/// The frame of a block.
pub open spec fn frame_of_block(poses: Seq<WindowPose>, states: Seq<WindowState>, i: int) -> Option<
    u64,
> {
    if 0 <= i < poses.len() {
        Some(poses[i].frame_id)
    } else if poses.len() <= i < poses.len() + states.len() {
        Some(states[i - poses.len()].frame_id)
    } else {
        None
    }
}

/// The problem cut off behind the state at place `last`: later states are gone, and with them the
/// links and the landmarks that need them.
pub open spec fn cut_off(p: ProblemModel, last: int) -> ProblemModel {
    ProblemModel {
        poses: p.poses,
        states: p.states.take(last + 1),
        links: p.links.filter(|l: WindowImuLink| l.from_index <= last && l.to_index <= last),
        landmarks: p.landmarks.filter(
            |l: LandmarkModel| l.anchor < p.poses.len() + last + 1,
        ),
    }
}

/// Whether a landmark takes part in a marginalization: it is lost, or the frame that hosts it
/// leaves.
pub open spec fn takes_part(p: ProblemModel, used: Seq<u64>, lost: Seq<u64>, l: LandmarkModel) -> bool {
    lost.contains(l.track_id) || match frame_of_block(p.poses, p.states, l.anchor) {
        Some(frame_id) => used.contains(frame_id),
        None => false,
    }
}

/// The number of unknowns of a problem.
pub open spec fn problem_dof(p: ProblemModel) -> nat {
    POSE_DOF as nat * p.poses.len() + NAV_STATE_DOF as nat * p.states.len()
}

/// The problem that a marginalization linearizes: cut off behind the boundary state, and only with
/// the landmarks that take part.
pub open spec fn marginal_problem(
    p: ProblemModel,
    boundary: Option<u64>,
    used: Seq<u64>,
    lost: Seq<u64>,
    columns: nat,
) -> Result<ProblemModel, EstimatorError> {
    let cut = match boundary {
        Some(frame_id) => match first_state(p.states, frame_id, p.states.len() as int) {
            Some(i) => Ok(cut_off(p, i)),
            None => Err(EstimatorError::MissingBoundary { frame_id }),
        },
        None => Ok(p),
    };
    match cut {
        Err(e) => Err(e),
        Ok(q) => {
            let r = ProblemModel {
                landmarks: q.landmarks.filter(|l: LandmarkModel| takes_part(q, used, lost, l)),
                ..q
            };
            if columns < problem_dof(r) {
                Err(
                    EstimatorError::StateColumns {
                        columns: columns as usize,
                        needed: problem_dof(r) as usize,
                    },
                )
            } else {
                Ok(r)
            }
        },
    }
}

fn copy_landmark(l: &WindowLandmark) -> (copy: WindowLandmark)
    ensures
        copy@ == l@,
{
    WindowLandmark {
        track_id: l.track_id,
        anchor_state_index: l.anchor_state_index,
        anchor_camera_id: l.anchor_camera_id,
        observations: copy_list(&l.observations),
    }
}

impl WindowProblem {
    /// The frame of a block.
    pub fn block_frame_id(&self, index: usize) -> (frame_id: Option<u64>)
        ensures
            frame_id == frame_of_block(self@.poses, self@.states, index as int),
    {
        if index < self.poses.len() {
            Some(self.poses[index].frame_id)
        } else {
            let rest: usize = index - self.poses.len();
            if rest < self.states.len() {
                Some(self.states[rest].frame_id)
            } else {
                None
            }
        }
    }

    /// The number of unknowns.
    pub fn state_dof(&self) -> (dof: usize)
        requires
            problem_dof(self@) <= usize::MAX,
        ensures
            dof == problem_dof(self@),
    {
        self.poses.len() * POSE_DOF + self.states.len() * NAV_STATE_DOF
    }

    fn first_position(&self, frame_id: u64) -> (place: Option<usize>)
        ensures
            match place {
                Some(i) => first_state(self@.states, frame_id, self@.states.len() as int) == Some(
                    i as int,
                ) && i < self@.states.len(),
                None => first_state(self@.states, frame_id, self@.states.len() as int) is None,
            },
    {
        let mut place: Option<usize> = None;
        for i in 0..self.states.len()
            invariant
                match place {
                    Some(p) => first_state(self@.states, frame_id, i as int) == Some(p as int) && p
                        < i,
                    None => first_state(self@.states, frame_id, i as int) is None,
                },
        {
            if place.is_none() && self.states[i].frame_id == frame_id {
                place = Some(i);
            }
        }
        place
    }

    /// Whether a landmark takes part in a marginalization.
    fn takes_part(&self, used: &Vec<u64>, lost: &Vec<u64>, l: &WindowLandmark) -> (result: bool)
        ensures
            result == takes_part(self@, used@, lost@, l@),
    {
        contains_id(lost, l.track_id) || match self.block_frame_id(l.anchor_state_index) {
            Some(frame_id) => contains_id(used, frame_id),
            None => false,
        }
    }

    /// The problem that a marginalization linearizes. `used` lists the poses that leave, `lost` the
    /// landmarks that are no longer seen, and `columns` is the length of the solution.
    pub fn pre_marginalization_snapshot(
        &self,
        boundary_state: Option<u64>,
        used: &Vec<u64>,
        lost: &Vec<u64>,
        columns: usize,
    ) -> (result: Result<WindowProblem, EstimatorError>)
        requires
            problem_dof(self@) <= usize::MAX,
        ensures
            match result {
                Ok(problem) => marginal_problem(
                    self@,
                    boundary_state,
                    used@,
                    lost@,
                    columns as nat,
                ) == Ok::<ProblemModel, EstimatorError>(problem@),
                Err(e) => marginal_problem(self@, boundary_state, used@, lost@, columns as nat)
                    == Err::<ProblemModel, EstimatorError>(e),
            },
    {
        let ghost p = self@;
        let ghost model = |l: WindowLandmark| l@;
        let mut problem = WindowProblem {
            poses: copy_list(&self.poses),
            states: copy_list(&self.states),
            landmarks: Vec::new(),
            imu_links: copy_list(&self.imu_links),
        };
        let mut bounded: bool = false;
        let mut limit: usize = 0;
        if let Some(frame_id) = boundary_state {
            match self.first_position(frame_id) {
                None => return Err(EstimatorError::MissingBoundary { frame_id }),
                Some(last) => {
                    problem.states.truncate(last + 1);
                    let ghost keep = |l: WindowImuLink|
                        l.from_index <= last && l.to_index <= last;
                    let mut links: Vec<WindowImuLink> = Vec::new();
                    proof {
                        reveal(Seq::filter);
                        assert(p.links.take(0).filter(keep) =~= Seq::empty());
                    }
                    for i in 0..self.imu_links.len()
                        invariant
                            p.links == self.imu_links@,
                            keep == (|l: WindowImuLink|
                                l.from_index <= last && l.to_index <= last),
                            links@ == p.links.take(i as int).filter(keep),
                    {
                        proof {
                            filter_next(p.links, keep, i as int);
                        }
                        let l = self.imu_links[i];
                        if l.from_index <= last && l.to_index <= last {
                            links.push(l);
                        }
                    }
                    assert(p.links.take(p.links.len() as int) =~= p.links);
                    problem.imu_links = links;
                    bounded = true;
                    limit = self.poses.len() + last + 1;
                    assert(problem.states@ =~= p.states.take(last + 1));
                },
            }
        }
        let ghost q = match boundary_state {
            Some(frame_id) => cut_off(
                p,
                first_state(p.states, frame_id, p.states.len() as int)->0,
            ),
            None => p,
        };
        let ghost within = |l: LandmarkModel| !bounded || l.anchor < limit;
        let ghost part = |l: LandmarkModel| takes_part(q, used@, lost@, l);
        proof {
            assert(problem.poses@ == q.poses);
            assert(problem.states@ == q.states);
            assert(problem.imu_links@ == q.links);
            reveal(Seq::filter);
            assert(p.landmarks.take(0).filter(within).filter(part) =~= Seq::empty());
        }
        let mut landmarks: Vec<WindowLandmark> = Vec::new();
        assert(landmarks@.map_values(model) =~= Seq::empty());
        for i in 0..self.landmarks.len()
            invariant
                p == self@,
                model == (|l: WindowLandmark| l@),
                p.landmarks == self.landmarks@.map_values(model),
                problem.poses@ == q.poses,
                problem.states@ == q.states,
                within == (|l: LandmarkModel| !bounded || l.anchor < limit),
                part == (|l: LandmarkModel| takes_part(q, used@, lost@, l)),
                landmarks@.map_values(model) == p.landmarks.take(i as int).filter(within).filter(
                    part,
                ),
        {
            let l = &self.landmarks[i];
            proof {
                filter_next(p.landmarks, within, i as int);
                if within(l@) {
                    p.landmarks.take(i as int).filter(within).lemma_filter_push(l@, part);
                }
            }
            let ghost before = landmarks@;
            if (!bounded || l.anchor_state_index < limit) && problem.takes_part(used, lost, l) {
                landmarks.push(copy_landmark(l));
                assert(landmarks@.map_values(model) =~= before.map_values(model).push(l@));
            }
        }
        proof {
            assert(p.landmarks.take(p.landmarks.len() as int) =~= p.landmarks);
            if boundary_state is Some {
                let last = first_state(p.states, boundary_state->0, p.states.len() as int)->0;
                assert(within =~= (|l: LandmarkModel| l.anchor < p.poses.len() + last + 1));
            } else {
                crate::basalt::window::filter_all(p.landmarks, within);
            }
        }
        problem.landmarks = landmarks;
        assert(problem@ =~= (ProblemModel {
            landmarks: q.landmarks.filter(part),
            ..q
        }));
        let needed: usize = problem.state_dof();
        if columns < needed {
            return Err(EstimatorError::StateColumns { columns, needed });
        }
        Ok(problem)
    }
}

/// The newest state takes no part in a marginalization that is bounded before it.
pub proof fn states_behind_the_boundary_stay(
    p: ProblemModel,
    frame_id: u64,
    used: Seq<u64>,
    lost: Seq<u64>,
    columns: nat,
)
    requires
        marginal_problem(p, Some(frame_id), used, lost, columns) is Ok,
    ensures
        ({
            let q = marginal_problem(p, Some(frame_id), used, lost, columns)->Ok_0;
            &&& q.states.len() > 0
            &&& q.states.last().frame_id == frame_id
            &&& q.states == p.states.take(q.states.len() as int)
            &&& q.poses == p.poses
        }),
{
    first_state_is_first(p.states, frame_id, p.states.len() as int);
}

/// The sum of a list of counts.
pub open spec fn total(rows: Seq<usize>) -> nat
    decreases rows.len(),
{
    if rows.len() == 0 {
        0
    } else {
        total(rows.drop_last()) + rows.last() as nat
    }
}

/// The sum of every other count, from the first one or from the second one on.
pub open spec fn every_other(rows: Seq<usize>, second: bool) -> nat
    decreases rows.len(),
{
    if rows.len() == 0 {
        0
    } else {
        let here: nat = if (rows.len() % 2 == 0) == second {
            rows.last() as nat
        } else {
            0
        };
        every_other(rows.drop_last(), second) + here
    }
}

/// How the rows of the factors divide: first at most one prior, last two factors for each link (the
/// inertial one and that of the biases), and between them the landmarks.
#[derive(Clone, Copy, Debug, PartialEq, Eq, Structural)]
pub struct RowCounts {
    pub prior: usize,
    pub visual: usize,
    pub imu: usize,
    pub bias: usize,
}

/// Where the landmarks start among the factors.
pub open spec fn visual_start(has_prior: bool, factors: nat) -> nat {
    if has_prior && factors > 0 {
        1
    } else {
        0
    }
}

/// Where the landmarks end among the factors.
pub open spec fn visual_end(has_prior: bool, links: nat, factors: nat) -> nat {
    let rest = (factors - visual_start(has_prior, factors)) as nat;
    if 2 * links <= rest {
        (factors - 2 * links) as nat
    } else {
        visual_start(has_prior, factors)
    }
}

proof fn total_take(rows: Seq<usize>, i: int)
    requires
        0 <= i < rows.len(),
    ensures
        total(rows.take(i + 1)) == total(rows.take(i)) + rows[i],
        total(rows.take(i)) <= total(rows),
        total(rows.take(i + 1)) <= total(rows),
    decreases rows.len() - i,
{
    assert(rows.take(i + 1).drop_last() =~= rows.take(i));
    assert(rows.take(i + 1).last() == rows[i]);
    if i + 1 < rows.len() {
        total_take(rows, i + 1);
    } else {
        assert(rows.take(i + 1) =~= rows);
    }
}

proof fn total_split(rows: Seq<usize>, i: int)
    requires
        0 <= i <= rows.len(),
    ensures
        total(rows) == total(rows.take(i)) + total(rows.skip(i)),
    decreases rows.len() - i,
{
    if i == rows.len() {
        assert(rows.take(i) =~= rows);
    } else {
        let front = rows.drop_last();
        total_split(front, i);
        assert(front.take(i) =~= rows.take(i));
        assert(rows.skip(i).drop_last() =~= front.skip(i));
        assert(rows.skip(i).last() == rows.last());
    }
}

proof fn every_other_adds_up(rows: Seq<usize>)
    ensures
        every_other(rows, false) + every_other(rows, true) == total(rows),
    decreases rows.len(),
{
    if rows.len() > 0 {
        every_other_adds_up(rows.drop_last());
    }
}

/// Every row is counted once.
pub proof fn row_counts_add_up(rows: Seq<usize>, has_prior: bool, links: nat)
    ensures
        ({
            let a = visual_start(has_prior, rows.len()) as int;
            let b = visual_end(has_prior, links, rows.len()) as int;
            total(rows.take(a)) + total(rows.take(b).skip(a)) + every_other(rows.skip(b), false)
                + every_other(rows.skip(b), true) == total(rows)
        }),
{
    let a = visual_start(has_prior, rows.len()) as int;
    let b = visual_end(has_prior, links, rows.len()) as int;
    total_split(rows, b);
    total_split(rows.take(b), a);
    assert(rows.take(b).take(a) =~= rows.take(a));
    every_other_adds_up(rows.skip(b));
}

/// Divides the rows of the factors.
pub fn factor_row_counts(rows: &Vec<usize>, has_prior: bool, links: usize) -> (counts: RowCounts)
    requires
        total(rows@) <= usize::MAX,
    ensures
        ({
            let a = visual_start(has_prior, rows@.len()) as int;
            let b = visual_end(has_prior, links as nat, rows@.len()) as int;
            &&& counts.prior == total(rows@.take(a))
            &&& counts.visual == total(rows@.take(b).skip(a))
            &&& counts.imu == every_other(rows@.skip(b), false)
            &&& counts.bias == every_other(rows@.skip(b), true)
        }),
{
    let n: usize = rows.len();
    let a: usize = if has_prior && n > 0 {
        1
    } else {
        0
    };
    let rest: usize = n - a;
    let b: usize = if links <= rest / 2 {
        n - links * 2
    } else {
        a
    };
    assert(b == visual_end(has_prior, links as nat, rows@.len()));
    proof {
        row_counts_add_up(rows@, has_prior, links as nat);
    }
    let mut prior: usize = 0;
    if a == 1 {
        prior = rows[0];
        assert(total(rows@.take(1).drop_last()) == 0);
        assert(rows@.take(1).last() == prior);
    } else {
        assert(rows@.take(0) =~= Seq::empty());
    }
    assert(prior == total(rows@.take(a as int)));
    let ghost middle = rows@.take(b as int).skip(a as int);
    let mut visual: usize = 0;
    for i in a..b
        invariant
            a <= i <= b,
            b <= rows@.len(),
            middle == rows@.take(b as int).skip(a as int),
            total(middle) <= usize::MAX,
            visual == total(middle.take(i - a)),
    {
        proof {
            total_take(middle, i - a);
        }
        visual = visual + rows[i];
    }
    assert(middle.take(b - a) =~= middle);
    let ghost tail = rows@.skip(b as int);
    let mut imu: usize = 0;
    let mut bias: usize = 0;
    let mut second: bool = false;
    assert(tail.take(0) =~= Seq::empty());
    for i in b..n
        invariant
            b <= i <= n,
            n == rows@.len(),
            tail == rows@.skip(b as int),
            every_other(tail, false) + every_other(tail, true) <= usize::MAX,
            imu == every_other(tail.take(i - b), false),
            bias == every_other(tail.take(i - b), true),
            second == ((i - b) % 2 == 1),
    {
        proof {
            every_other_grows(tail, i - b, false);
            every_other_grows(tail, i - b, true);
            assert(tail.take(i - b + 1).drop_last() =~= tail.take(i - b));
            assert(tail.take(i - b + 1).last() == rows@[i as int]);
        }
        if second {
            bias = bias + rows[i];
        } else {
            imu = imu + rows[i];
        }
        second = !second;
    }
    assert(tail.take(n - b) =~= tail);
    RowCounts { prior, visual, imu, bias }
}

proof fn every_other_grows(rows: Seq<usize>, i: int, second: bool)
    requires
        0 <= i < rows.len(),
    ensures
        every_other(rows.take(i + 1), second) <= every_other(rows, second),
    decreases rows.len() - i,
{
    if i + 1 == rows.len() {
        assert(rows.take(i + 1) =~= rows);
    } else {
        every_other_grows(rows, i + 1, second);
        assert(rows.take(i + 2).drop_last() =~= rows.take(i + 1));
    }
}

/// How a prior block is named beside the tables of a packet: the pose part of a frame that is a
/// state there, and no pose, is a state pose.
pub open spec fn table_kind(w: Frames, kind: BlockKind, frame_id: u64) -> BlockKind {
    if kind is Pose && state_ids(w.states).contains(frame_id) && !pose_ids(w.poses).contains(
        frame_id,
    ) {
        BlockKind::StatePose
    } else {
        kind
    }
}

/// Names the blocks of a prior beside the tables of a packet.
pub fn prior_data_for_tables(window: &Window, kinds: &Vec<BlockKind>, frame_ids: &Vec<u64>) -> (
    named: Vec<BlockKind>)
    requires
        kinds@.len() == frame_ids@.len(),
    ensures
        named@.len() == kinds@.len(),
        forall|i: int|
            0 <= i < named@.len() ==> #[trigger] named@[i] == table_kind(
                window@,
                kinds@[i],
                frame_ids@[i],
            ),
{
    let poses = window.pose_frames();
    let states = window.state_frames();
    let mut named: Vec<BlockKind> = Vec::new();
    for i in 0..kinds.len()
        invariant
            kinds@.len() == frame_ids@.len(),
            poses@ == pose_ids(window@.poses),
            states@ == state_ids(window@.states),
            named@.len() == i,
            forall|j: int|
                0 <= j < i ==> #[trigger] named@[j] == table_kind(
                    window@,
                    kinds@[j],
                    frame_ids@[j],
                ),
    {
        let kind = match kinds[i] {
            BlockKind::Pose => if contains_id(&states, frame_ids[i]) && !contains_id(
                &poses,
                frame_ids[i],
            ) {
                BlockKind::StatePose
            } else {
                BlockKind::Pose
            },
            other => other,
        };
        named.push(kind);
    }
    named
}

/// The blocks of a prior: their frames, their kinds, and the number of unknowns.
#[derive(Debug)]
pub struct PriorLayout {
    pub frame_ids: Vec<u64>,
    pub block_kinds: Vec<BlockKind>,
    pub dof: usize,
}

/// The blocks that stay when frames leave, none where no block stays.
pub fn anchor_prior_for_kept(window: &Window, dropped: &Vec<u64>) -> (layout: Option<PriorLayout>)
    requires
        window@.dof() <= usize::MAX,
    ensures
        ({
            let poses = window@.poses.filter(|p: WindowPose| !dropped@.contains(p.frame_id));
            let states = window@.states.filter(|s: WindowState| !dropped@.contains(s.frame_id));
            match layout {
                Some(l) => {
                    &&& l.frame_ids@ == pose_ids(poses) + state_ids(states)
                    &&& l.block_kinds@ == Seq::new(poses.len(), |i: int| BlockKind::Pose)
                        + Seq::new(states.len(), |i: int| BlockKind::State)
                    &&& l.dof == POSE_DOF * poses.len() + NAV_STATE_DOF * states.len()
                    &&& l.frame_ids@.len() > 0
                },
                None => poses.len() == 0 && states.len() == 0,
            }
        }),
{
    let ghost keep_pose = |p: WindowPose| !dropped@.contains(p.frame_id);
    let ghost keep_state = |s: WindowState| !dropped@.contains(s.frame_id);
    let mut frame_ids: Vec<u64> = Vec::new();
    let mut block_kinds: Vec<BlockKind> = Vec::new();
    let mut dof: usize = 0;
    proof {
        reveal(Seq::filter);
        assert(window@.poses.take(0).filter(keep_pose) =~= Seq::empty());
        assert(window@.states.take(0).filter(keep_state) =~= Seq::empty());
    }
    for i in 0..window.poses.len()
        invariant
            window@.dof() <= usize::MAX,
            keep_pose == (|p: WindowPose| !dropped@.contains(p.frame_id)),
            frame_ids@ == pose_ids(window@.poses.take(i as int).filter(keep_pose)),
            block_kinds@ == Seq::new(frame_ids@.len(), |i: int| BlockKind::Pose),
            frame_ids@.len() <= i,
            dof == 6 * frame_ids@.len(),
    {
        proof {
            filter_next(window@.poses, keep_pose, i as int);
        }
        if !contains_id(dropped, window.poses[i].frame_id) {
            frame_ids.push(window.poses[i].frame_id);
            block_kinds.push(BlockKind::Pose);
            dof = dof + POSE_DOF;
            assert(frame_ids@ =~= pose_ids(window@.poses.take(i + 1).filter(keep_pose)));
            assert(block_kinds@ =~= Seq::new(frame_ids@.len(), |i: int| BlockKind::Pose));
        }
    }
    assert(window@.poses.take(window@.poses.len() as int) =~= window@.poses);
    let ghost poses = window@.poses.filter(keep_pose);
    let ghost kinds = block_kinds@;
    assert(frame_ids@ =~= pose_ids(poses) + state_ids(window@.states.take(0).filter(keep_state)));
    assert(block_kinds@ =~= kinds + Seq::new(0, |i: int| BlockKind::State));
    for i in 0..window.states.len()
        invariant
            window@.dof() <= usize::MAX,
            keep_state == (|s: WindowState| !dropped@.contains(s.frame_id)),
            poses.len() <= window@.poses.len(),
            window@.states.take(i as int).filter(keep_state).len() <= i,
            frame_ids@ == pose_ids(poses) + state_ids(
                window@.states.take(i as int).filter(keep_state),
            ),
            block_kinds@ == kinds + Seq::new(
                window@.states.take(i as int).filter(keep_state).len(),
                |i: int| BlockKind::State,
            ),
            dof == 6 * poses.len() + 15 * window@.states.take(i as int).filter(keep_state).len(),
    {
        proof {
            filter_next(window@.states, keep_state, i as int);
        }
        if !contains_id(dropped, window.states[i].frame_id) {
            frame_ids.push(window.states[i].frame_id);
            block_kinds.push(BlockKind::State);
            dof = dof + NAV_STATE_DOF;
            proof {
                let next = window@.states.take(i + 1).filter(keep_state);
                assert(frame_ids@ =~= pose_ids(poses) + state_ids(next));
                assert(block_kinds@ =~= kinds + Seq::new(next.len(), |i: int| BlockKind::State));
            }
        }
    }
    assert(window@.states.take(window@.states.len() as int) =~= window@.states);
    if frame_ids.len() == 0 {
        None
    } else {
        Some(PriorLayout { frame_ids, block_kinds, dof })
    }
}

/// Whether a block of unknowns is that of a frame: a pose of it, or, where it has no pose, a state of
/// it behind all poses.
pub open spec fn is_block(w: Frames, block: int, frame_id: u64) -> bool {
    if block < w.poses.len() {
        &&& 0 <= block
        &&& w.poses[block].frame_id == frame_id
        &&& forall|k: int| block < k < w.poses.len() ==> (#[trigger] w.poses[k]).frame_id != frame_id
    } else {
        let i = block - w.poses.len();
        &&& i < w.states.len()
        &&& w.states[i].frame_id == frame_id
        &&& forall|k: int| 0 <= k < w.poses.len() ==> (#[trigger] w.poses[k]).frame_id != frame_id
        &&& forall|k: int| i < k < w.states.len() ==> (#[trigger] w.states[k]).frame_id != frame_id
    }
}

/// Whether some pose or state of the window is of a frame.
pub open spec fn in_window(w: Frames, frame_id: u64) -> bool {
    ||| exists|k: int| 0 <= k < w.poses.len() && (#[trigger] w.poses[k]).frame_id == frame_id
    ||| exists|k: int| 0 <= k < w.states.len() && (#[trigger] w.states[k]).frame_id == frame_id
}

proof fn block_is_found(w: Frames, frame_id: u64)
    ensures
        block_of(w, frame_id) is Some <==> in_window(w, frame_id),
        block_of(w, frame_id) matches Some(i) ==> is_block(w, i, frame_id) && 0 <= i
            < w.poses.len() + w.states.len(),
{
    last_pose_is_last(w.poses, frame_id, w.poses.len() as int);
    last_state_is_last(w.states, frame_id, w.states.len() as int);
}

/// The last pose of a frame is of the frame, and none behind it is.
pub proof fn last_pose_is_last(poses: Seq<WindowPose>, frame_id: u64, n: int)
    requires
        0 <= n <= poses.len(),
    ensures
        match last_pose(poses, frame_id, n) {
            Some(i) => 0 <= i < n && poses[i].frame_id == frame_id && forall|k: int|
                i < k < n ==> (#[trigger] poses[k]).frame_id != frame_id,
            None => forall|k: int| 0 <= k < n ==> (#[trigger] poses[k]).frame_id != frame_id,
        },
    decreases n,
{
    if n > 0 && poses[n - 1].frame_id != frame_id {
        last_pose_is_last(poses, frame_id, n - 1);
    }
}

/// The last state of a frame is of the frame, and none behind it is.
pub proof fn last_state_is_last(states: Seq<WindowState>, frame_id: u64, n: int)
    requires
        0 <= n <= states.len(),
    ensures
        match last_state(states, frame_id, n) {
            Some(i) => 0 <= i < n && states[i].frame_id == frame_id && forall|k: int|
                i < k < n ==> (#[trigger] states[k]).frame_id != frame_id,
            None => forall|k: int| 0 <= k < n ==> (#[trigger] states[k]).frame_id != frame_id,
        },
    decreases n,
{
    if n > 0 && states[n - 1].frame_id != frame_id {
        last_state_is_last(states, frame_id, n - 1);
    }
}

/// The factor records of a track whose frames are in the window.
pub open spec fn records_inside(w: Frames, s: Stores, track_id: u64) -> Seq<StoredObservation> {
    if s.factors.contains_key(track_id) {
        s.factors[track_id].filter(|r: StoredObservation| in_window(w, r.frame_id))
    } else {
        Seq::empty()
    }
}

/// A landmark of the problem is hosted where its record says, and its observations are the factor
/// records of its track whose frames are in the window, one for each and in their order: each with the
/// record's camera, the record's pixel, and the block of the record's frame.
pub proof fn landmarks_observe_their_records(w: Frames, s: Stores, order: Seq<u64>, l: LandmarkModel)
    requires
        w.poses.len() + w.states.len() <= usize::MAX,
        problem_of(w, s, order).landmarks.contains(l),
    ensures
        order.contains(l.track_id),
        s.landmarks.contains_key(l.track_id),
        !(s.landmarks[l.track_id].status is Removed),
        l.camera == s.landmarks[l.track_id].anchor_camera_id,
        is_block(w, l.anchor, s.landmarks[l.track_id].anchor_pose),
        l.observations.len() > 0,
        l.observations.len() == records_inside(w, s, l.track_id).len(),
        forall|j: int|
            0 <= j < l.observations.len() ==> {
                let o = #[trigger] l.observations[j];
                let r = records_inside(w, s, l.track_id)[j];
                &&& o.camera_id == r.camera_id
                &&& o.pixel == r.pixel
                &&& is_block(w, o.state_index as int, r.frame_id)
            },
{
    let to_landmark = |t: u64| window_landmark(w, s, t);
    filter_map_members(order, to_landmark);
    let p = problem_of(w, s, order);
    let i = choose|i: int| 0 <= i < p.landmarks.len() && p.landmarks[i] == l;
    assert(maps_to(order, to_landmark, p.landmarks[i]));
    let k = choose|k: int| 0 <= k < order.len() && to_landmark(#[trigger] order[k]) == Some(l);
    assert(order[k] == l.track_id);
    landmark_of_records(w, s, l.track_id);
}

proof fn landmark_of_records(w: Frames, s: Stores, t: u64)
    requires
        w.poses.len() + w.states.len() <= usize::MAX,
    ensures
        window_landmark(w, s, t) is Some <==> {
            &&& s.landmarks.contains_key(t)
            &&& !(s.landmarks[t].status is Removed)
            &&& in_window(w, s.landmarks[t].anchor_pose)
            &&& records_inside(w, s, t).len() > 0
        },
        window_landmark(w, s, t) matches Some(l) ==> {
            &&& l.track_id == t
            &&& l.camera == s.landmarks[t].anchor_camera_id
            &&& is_block(w, l.anchor, s.landmarks[t].anchor_pose)
            &&& l.observations.len() == records_inside(w, s, t).len()
            &&& forall|j: int|
                0 <= j < l.observations.len() ==> {
                    let o = #[trigger] l.observations[j];
                    let r = records_inside(w, s, t)[j];
                    &&& o.camera_id == r.camera_id
                    &&& o.pixel == r.pixel
                    &&& is_block(w, o.state_index as int, r.frame_id)
                }
        },
{
    let records = list_of(s.factors, t);
    let f = |r: StoredObservation| window_observation(w, r);
    let keep = |r: StoredObservation| in_window(w, r.frame_id);
    assert forall|i: int| 0 <= i < records.len() implies (keep(#[trigger] records[i]) <==> f(
        records[i],
    ) is Some) by {
        block_is_found(w, records[i].frame_id);
    }
    filter_map_pairs(records, f, keep);
    if s.landmarks.contains_key(t) {
        block_is_found(w, s.landmarks[t].anchor_pose);
    }
    let inside = records.filter(keep);
    assert(inside =~= records_inside(w, s, t)) by {
        reveal(Seq::filter);
    }
    assert forall|j: int| 0 <= j < inside.len() implies {
        let o = #[trigger] records.filter_map(f)[j];
        let r = inside[j];
        &&& o.camera_id == r.camera_id
        &&& o.pixel == r.pixel
        &&& is_block(w, o.state_index as int, r.frame_id)
    } by {
        assert(f(inside[j]) == Some(records.filter_map(f)[j]));
        block_is_found(w, inside[j].frame_id);
    }
}

/// The problem has exactly the landmarks that it should, in the order that is asked for: those that
/// were not removed and whose host and some factor record are in the window.
pub proof fn problem_has_the_landmarks_of_the_window(w: Frames, s: Stores, order: Seq<u64>)
    requires
        w.poses.len() + w.states.len() <= usize::MAX,
    ensures
        problem_of(w, s, order).landmarks.map_values(|l: LandmarkModel| l.track_id) == order.filter(
            |t: u64|
                {
                    &&& s.landmarks.contains_key(t)
                    &&& !(s.landmarks[t].status is Removed)
                    &&& in_window(w, s.landmarks[t].anchor_pose)
                    &&& records_inside(w, s, t).len() > 0
                },
        ),
        problem_of(w, s, order).poses == w.poses,
        problem_of(w, s, order).states == w.states,
{
    let f = |t: u64| window_landmark(w, s, t);
    let keep = |t: u64|
        {
            &&& s.landmarks.contains_key(t)
            &&& !(s.landmarks[t].status is Removed)
            &&& in_window(w, s.landmarks[t].anchor_pose)
            &&& records_inside(w, s, t).len() > 0
        };
    assert forall|i: int| 0 <= i < order.len() implies (keep(#[trigger] order[i]) <==> f(
        order[i],
    ) is Some) by {
        landmark_of_records(w, s, order[i]);
    }
    filter_map_pairs(order, f, keep);
    let ids = problem_of(w, s, order).landmarks.map_values(|l: LandmarkModel| l.track_id);
    assert forall|j: int| 0 <= j < ids.len() implies ids[j] == order.filter(keep)[j] by {
        assert(f(order.filter(keep)[j]) == Some(order.filter_map(f)[j]));
        landmark_of_records(w, s, order.filter(keep)[j]);
    }
    assert(ids =~= order.filter(keep));
}

/// The links of the problem are those of the window whose two frames have states, in their order, each
/// between the newest states of its frames.
pub proof fn problem_has_the_links_of_the_window(w: Frames, s: Stores, order: Seq<u64>)
    requires
        w.states.len() <= usize::MAX,
    ensures
        ({
            let inside = w.links.filter(
                |l: ImuLink|
                    (exists|k: int|
                        0 <= k < w.states.len() && (#[trigger] w.states[k]).frame_id == l.from) && (
                    exists|k: int|
                        0 <= k < w.states.len() && (#[trigger] w.states[k]).frame_id == l.to),
            );
            let links = problem_of(w, s, order).links;
            &&& links.len() == inside.len()
            &&& forall|j: int|
                0 <= j < links.len() ==> {
                    let a = (#[trigger] links[j]).from_index as int;
                    let b = links[j].to_index as int;
                    &&& 0 <= a < w.states.len()
                    &&& 0 <= b < w.states.len()
                    &&& w.states[a].frame_id == inside[j].from
                    &&& w.states[b].frame_id == inside[j].to
                    &&& forall|k: int|
                        a < k < w.states.len() ==> (#[trigger] w.states[k]).frame_id
                            != inside[j].from
                    &&& forall|k: int|
                        b < k < w.states.len() ==> (#[trigger] w.states[k]).frame_id
                            != inside[j].to
                }
        }),
{
    let f = |l: ImuLink| window_link(w, l);
    let n = w.states.len() as int;
    let keep = |l: ImuLink|
        (exists|k: int| 0 <= k < w.states.len() && (#[trigger] w.states[k]).frame_id == l.from) && (
        exists|k: int| 0 <= k < w.states.len() && (#[trigger] w.states[k]).frame_id == l.to);
    assert forall|i: int| 0 <= i < w.links.len() implies (keep(#[trigger] w.links[i]) <==> f(
        w.links[i],
    ) is Some) by {
        last_state_is_last(w.states, w.links[i].from, n);
        last_state_is_last(w.states, w.links[i].to, n);
    }
    filter_map_pairs(w.links, f, keep);
    let inside = w.links.filter(keep);
    let links = problem_of(w, s, order).links;
    assert forall|j: int| 0 <= j < links.len() implies f(inside[j]) == Some(#[trigger] links[j]) by {
        assert(f(inside[j]) == Some(w.links.filter_map(f)[j]));
        last_state_is_last(w.states, inside[j].from, n);
        last_state_is_last(w.states, inside[j].to, n);
    }
    assert forall|j: int| 0 <= j < links.len() implies {
        let a = (#[trigger] links[j]).from_index as int;
        let b = links[j].to_index as int;
        &&& 0 <= a < w.states.len()
        &&& 0 <= b < w.states.len()
        &&& w.states[a].frame_id == inside[j].from
        &&& w.states[b].frame_id == inside[j].to
        &&& forall|k: int|
            a < k < w.states.len() ==> (#[trigger] w.states[k]).frame_id != inside[j].from
        &&& forall|k: int|
            b < k < w.states.len() ==> (#[trigger] w.states[k]).frame_id != inside[j].to
    } by {
        assert(f(inside[j]) == Some(links[j]));
        last_state_is_last(w.states, inside[j].from, n);
        last_state_is_last(w.states, inside[j].to, n);
    }
}

/// The problem of a marginalization keeps the blocks up to the boundary, the links between states
/// there, and the landmarks hosted there that are lost or whose host leaves, as they are and in their
/// order; without a boundary it keeps all blocks and links.
pub proof fn marginal_problems_keep_what_takes_part(
    p: ProblemModel,
    boundary: Option<u64>,
    used: Seq<u64>,
    lost: Seq<u64>,
    columns: nat,
)
    requires
        marginal_problem(p, boundary, used, lost, columns) is Ok,
    ensures
        ({
            let q = marginal_problem(p, boundary, used, lost, columns)->Ok_0;
            let n = q.states.len();
            &&& q.poses == p.poses
            &&& n <= p.states.len()
            &&& q.states == p.states.take(n as int)
            &&& boundary is None ==> n == p.states.len() && q.links == p.links
            &&& boundary matches Some(id) ==> {
                &&& n > 0
                &&& p.states[n - 1].frame_id == id
                &&& forall|k: int| 0 <= k < n - 1 ==> (#[trigger] p.states[k]).frame_id != id
                &&& q.links == p.links.filter(
                    |l: WindowImuLink| l.from_index < n && l.to_index < n,
                )
            }
            &&& 6 * p.poses.len() + 15 * n <= columns
            &&& boundary is Some ==> q.landmarks == p.landmarks.filter(
                |l: LandmarkModel|
                    l.anchor < p.poses.len() + n && (lost.contains(l.track_id) || (0 <= l.anchor
                        && used.contains(
                        if l.anchor < p.poses.len() {
                            p.poses[l.anchor].frame_id
                        } else {
                            p.states[l.anchor - p.poses.len()].frame_id
                        },
                    ))),
            )
            &&& boundary is None ==> q.landmarks == p.landmarks.filter(
                |l: LandmarkModel|
                    lost.contains(l.track_id) || (0 <= l.anchor < p.poses.len() + n
                        && used.contains(
                        if l.anchor < p.poses.len() {
                            p.poses[l.anchor].frame_id
                        } else {
                            p.states[l.anchor - p.poses.len()].frame_id
                        },
                    )),
            )
        }),
{
    let q = marginal_problem(p, boundary, used, lost, columns)->Ok_0;
    let n = q.states.len() as int;
    match boundary {
        Some(id) => {
            first_state_is_first(p.states, id, p.states.len() as int);
            let last = first_state(p.states, id, p.states.len() as int)->0;
            assert(n == last + 1);
            let cut = cut_off(p, last);
            let near = |l: LandmarkModel| l.anchor < p.poses.len() + last + 1;
            let part = |l: LandmarkModel| takes_part(cut, used, lost, l);
            filter_both(p.landmarks, near, part);
            let both = |l: LandmarkModel|
                l.anchor < p.poses.len() + n && (lost.contains(l.track_id) || (0 <= l.anchor
                    && used.contains(
                    if l.anchor < p.poses.len() {
                        p.poses[l.anchor].frame_id
                    } else {
                        p.states[l.anchor - p.poses.len()].frame_id
                    },
                )));
            assert((|l: LandmarkModel| near(l) && part(l)) =~= both);
            assert((|l: WindowImuLink| l.from_index <= last && l.to_index <= last) =~= (
            |l: WindowImuLink| l.from_index < n && l.to_index < n));
        },
        None => {
            assert(p.states =~= p.states.take(n));
            let part = |l: LandmarkModel| takes_part(p, used, lost, l);
            let raw = |l: LandmarkModel|
                lost.contains(l.track_id) || (0 <= l.anchor < p.poses.len() + n && used.contains(
                    if l.anchor < p.poses.len() {
                        p.poses[l.anchor].frame_id
                    } else {
                        p.states[l.anchor - p.poses.len()].frame_id
                    },
                ));
            assert(part =~= raw);
        },
    }
}

/// Every observation of a landmark in the problem is a factor record of its track, with the record's
/// camera and pixel and a block of the record's frame.
pub proof fn observations_come_from_records(
    w: Frames,
    s: Stores,
    order: Seq<u64>,
    l: LandmarkModel,
    o: WindowObservation,
)
    requires
        w.poses.len() + w.states.len() <= usize::MAX,
        problem_of(w, s, order).landmarks.contains(l),
        l.observations.contains(o),
    ensures
        s.factors.contains_key(l.track_id),
        exists|r: StoredObservation|
            #![trigger s.factors[l.track_id].contains(r)]
            {
                &&& s.factors[l.track_id].contains(r)
                &&& o.camera_id == r.camera_id
                &&& o.pixel == r.pixel
                &&& o.state_index < w.poses.len() ==> w.poses[o.state_index as int].frame_id
                    == r.frame_id
                &&& o.state_index >= w.poses.len() ==> o.state_index < w.poses.len()
                    + w.states.len() && w.states[o.state_index - w.poses.len()].frame_id
                    == r.frame_id
            },
{
    landmarks_observe_their_records(w, s, order, l);
    let records = s.factors[l.track_id];
    let keep = |r: StoredObservation| in_window(w, r.frame_id);
    filter_members(records, keep);
    let j = choose|j: int| 0 <= j < l.observations.len() && l.observations[j] == o;
    let r = records_inside(w, s, l.track_id)[j];
    assert(records.filter(keep).contains(r));
    assert(s.factors[l.track_id].contains(r));
}

/// Every factor record of a landmark's track whose frame has a pose or a state in the window is an
/// observation of the landmark in the problem, with the record's camera and pixel and a block of the
/// record's frame.
pub proof fn records_become_observations(
    w: Frames,
    s: Stores,
    order: Seq<u64>,
    l: LandmarkModel,
    r: StoredObservation,
)
    requires
        w.poses.len() + w.states.len() <= usize::MAX,
        problem_of(w, s, order).landmarks.contains(l),
        s.factors[l.track_id].contains(r),
        (exists|i: int| 0 <= i < w.poses.len() && (#[trigger] w.poses[i]).frame_id == r.frame_id)
            || (exists|i: int|
            0 <= i < w.states.len() && (#[trigger] w.states[i]).frame_id == r.frame_id),
    ensures
        exists|o: WindowObservation|
            #![trigger l.observations.contains(o)]
            {
                &&& l.observations.contains(o)
                &&& o.camera_id == r.camera_id
                &&& o.pixel == r.pixel
                &&& o.state_index < w.poses.len() ==> w.poses[o.state_index as int].frame_id
                    == r.frame_id
                &&& o.state_index >= w.poses.len() ==> o.state_index < w.poses.len()
                    + w.states.len() && w.states[o.state_index - w.poses.len()].frame_id
                    == r.frame_id
            },
{
    landmarks_observe_their_records(w, s, order, l);
    let records = s.factors[l.track_id];
    let keep = |r: StoredObservation| in_window(w, r.frame_id);
    filter_members(records, keep);
    let inside = records_inside(w, s, l.track_id);
    assert(records.filter(keep).contains(r));
    if s.factors.contains_key(l.track_id) {
        let j = choose|j: int| 0 <= j < inside.len() && inside[j] == r;
        assert(l.observations[j].camera_id == inside[j].camera_id);
        assert(l.observations.contains(l.observations[j]));
    } else {
        assert(false);
    }
}

/// A marginalization fails exactly where its boundary frame has no state, which is told, or where the solution
/// has fewer columns than the blocks up to the boundary need, six for a pose and fifteen for a state.
pub proof fn marginal_problems_need_boundary_and_columns(
    p: ProblemModel,
    boundary: Option<u64>,
    used: Seq<u64>,
    lost: Seq<u64>,
    columns: nat,
)
    ensures
        ({
            let r = marginal_problem(p, boundary, used, lost, columns);
            let missing = boundary is Some && forall|i: int|
                0 <= i < p.states.len() ==> (#[trigger] p.states[i]).frame_id != boundary->0;
            &&& missing ==> r == Err::<ProblemModel, EstimatorError>(
                EstimatorError::MissingBoundary { frame_id: boundary->0 },
            )
            &&& boundary is None ==> (r is Ok <==> 6 * p.poses.len() + 15 * p.states.len()
                <= columns)
            &&& boundary is Some && !missing ==> forall|i: int|
                0 <= i < p.states.len() && (#[trigger] p.states[i]).frame_id == boundary->0 && (
                forall|j: int|
                    0 <= j < i ==> (#[trigger] p.states[j]).frame_id != boundary->0) ==> (r is Ok
                    <==> 6 * p.poses.len() + 15 * (i + 1) <= columns)
            &&& !missing && r is Err ==> r->Err_0 is StateColumns
        }),
{
    if boundary is Some {
        first_state_is_first(p.states, boundary->0, p.states.len() as int);
    }
}

/// Rows add up one by one, and every other one by its place: the first, the third and so on, or the second, the
/// fourth and so on. With a prior the first factor is its; the visual ones end where two for each link follow,
/// as far as there are so many.
pub proof fn rows_are_split_by_place(
    rows: Seq<usize>,
    x: usize,
    second: bool,
    has_prior: bool,
    links: nat,
    factors: nat,
)
    ensures
        total(Seq::<usize>::empty()) == 0,
        total(rows.push(x)) == total(rows) + x,
        every_other(Seq::<usize>::empty(), second) == 0,
        every_other(rows.push(x), second) - every_other(rows, second) == (if (rows.len() % 2 == 1)
            == second {
            x as int
        } else {
            0
        }),
        has_prior && factors > 0 ==> visual_start(has_prior, factors) == 1,
        !has_prior || factors == 0 ==> visual_start(has_prior, factors) == 0,
        visual_start(has_prior, factors) + 2 * links <= factors ==> visual_end(
            has_prior,
            links,
            factors,
        ) + 2 * links == factors,
        visual_start(has_prior, factors) + 2 * links > factors ==> visual_end(
            has_prior,
            links,
            factors,
        ) == visual_start(has_prior, factors),
{
    assert(rows.push(x).drop_last() =~= rows);
}

/// A pose of the tables is that of a state where its frame has a state and no pose; any other block is told as
/// it is.
pub proof fn table_kinds_tell_state_poses(w: Frames, kind: BlockKind, frame_id: u64)
    ensures
        ({
            let posed = exists|i: int|
                0 <= i < w.poses.len() && (#[trigger] w.poses[i]).frame_id == frame_id;
            let stated = exists|i: int|
                0 <= i < w.states.len() && (#[trigger] w.states[i]).frame_id == frame_id;
            &&& kind is Pose && stated && !posed ==> table_kind(w, kind, frame_id) is StatePose
            &&& !(kind is Pose && stated && !posed) ==> table_kind(w, kind, frame_id) == kind
        }),
{
    let poses = pose_ids(w.poses);
    let states = state_ids(w.states);
    if poses.contains(frame_id) {
        let i = choose|i: int| 0 <= i < poses.len() && poses[i] == frame_id;
        assert(w.poses[i].frame_id == frame_id);
    }
    if states.contains(frame_id) {
        let i = choose|i: int| 0 <= i < states.len() && states[i] == frame_id;
        assert(w.states[i].frame_id == frame_id);
    }
    if exists|i: int| 0 <= i < w.poses.len() && (#[trigger] w.poses[i]).frame_id == frame_id {
        let i = choose|i: int|
            0 <= i < w.poses.len() && (#[trigger] w.poses[i]).frame_id == frame_id;
        assert(poses[i] == frame_id);
    }
    if exists|i: int| 0 <= i < w.states.len() && (#[trigger] w.states[i]).frame_id == frame_id {
        let i = choose|i: int|
            0 <= i < w.states.len() && (#[trigger] w.states[i]).frame_id == frame_id;
        assert(states[i] == frame_id);
    }
}

} // verus!

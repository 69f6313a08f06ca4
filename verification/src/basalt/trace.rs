//! What the diagnostic streams say of triangulation and of the stores: how each attempt went, and the
//! identity of every visual factor before the solver runs.
use crate::basalt::collect::{
    accepted, select_attempt, Attempt, Stores, TrackStore, MAX_INVERSE_DISTANCE, MIN_BASELINE,
};
use crate::basalt::identity::{Pixel, StoredObservation, TrackHistory};
use crate::basalt::landmarks::{LandmarkRecord, LandmarkStatus};
use crate::basalt::scalar::ScalarMode;
use crate::basalt::window::{
    first_pose, first_pose_is_first, first_state, first_state_is_first, Frames, Window,
};
use crate::ieee::{double_finite, double_less, is_double_finite, is_double_less};
use crate::ordered::{
    ascending, ascending_lists_members, contains_id, copy_list, copy_list_of, filter_members,
    filter_next, list_of, map_keys,
};
use vstd::prelude::*;

verus! {

broadcast use vstd::std_specs::btree::group_btree_axioms;

/// How an attempt to triangulate a track went. In double precision only the baseline is told.
#[derive(Clone, Copy, Debug, PartialEq, Eq, Structural)]
pub enum AttemptStatus {
    BaselineRejected,
    Untraced,
    Failed,
    DistanceRejected,
    Accepted,
}

impl AttemptStatus {
    /// The name of a status.
    pub open spec fn text(self) -> Seq<char> {
        match self {
            AttemptStatus::BaselineRejected => "baseline_rejected"@,
            AttemptStatus::Untraced => "extended_f64_untraced"@,
            AttemptStatus::Failed => "dlt_failed"@,
            AttemptStatus::DistanceRejected => "rho_rejected"@,
            AttemptStatus::Accepted => "accepted"@,
        }
    }

    /// The name of a status.
    pub fn name(&self) -> (name: &'static str)
        ensures
            name@ == self.text(),
    {
        match self {
            AttemptStatus::BaselineRejected => "baseline_rejected",
            AttemptStatus::Untraced => "extended_f64_untraced",
            AttemptStatus::Failed => "dlt_failed",
            AttemptStatus::DistanceRejected => "rho_rejected",
            AttemptStatus::Accepted => "accepted",
        }
    }
}

/// What is said of an attempt.
pub open spec fn attempt_status(a: Attempt, mode: ScalarMode) -> AttemptStatus {
    if double_less(a.baseline, MIN_BASELINE) {
        AttemptStatus::BaselineRejected
    } else if mode is ExtendedF64 {
        AttemptStatus::Untraced
    } else {
        match a.inverse_distance {
            None => AttemptStatus::Failed,
            Some(rho) => if double_finite(rho) && double_less(0, rho) && double_less(
                rho,
                MAX_INVERSE_DISTANCE,
            ) {
                AttemptStatus::Accepted
            } else {
                AttemptStatus::DistanceRejected
            },
        }
    }
}

/// Tells how the attempts to triangulate a track went, up to the one that gives the landmark.
pub fn attempt_statuses(attempts: &Vec<Attempt>, mode: ScalarMode) -> (told: Vec<AttemptStatus>)
    ensures
        told@.len() <= attempts@.len(),
        told@ == Seq::new(told@.len(), |i: int| attempt_status(attempts@[i], mode)),
        forall|i: int| 0 <= i < told@.len() - 1 ==> !accepted(#[trigger] attempts@[i]),
        told@.len() == attempts@.len() || (told@.len() > 0 && accepted(
            attempts@[told@.len() - 1],
        )),
{
    let all: usize = attempts.len();
    let n: usize = match select_attempt(attempts) {
        Some(i) => i + 1,
        None => all,
    };
    let mut told: Vec<AttemptStatus> = Vec::new();
    for i in 0..n
        invariant
            n <= attempts@.len(),
            told@ =~= Seq::new(i as nat, |i: int| attempt_status(attempts@[i], mode)),
    {
        let a: Attempt = attempts[i];
        let status = if is_double_less(a.baseline, MIN_BASELINE) {
            AttemptStatus::BaselineRejected
        } else {
            match (mode, a.inverse_distance) {
                (ScalarMode::ExtendedF64, _) => AttemptStatus::Untraced,
                (_, None) => AttemptStatus::Failed,
                (_, Some(rho)) => if is_double_finite(rho) && is_double_less(0, rho)
                    && is_double_less(rho, MAX_INVERSE_DISTANCE) {
                    AttemptStatus::Accepted
                } else {
                    AttemptStatus::DistanceRejected
                },
            }
        };
        told.push(status);
    }
    told
}

/// In single precision the attempt that gives a landmark is the one that is told as accepted.
pub proof fn accepted_attempts_are_told(a: Attempt)
    ensures
        attempt_status(a, ScalarMode::UpstreamF32) is Accepted <==> accepted(a),
{
}

/// Where a track stands, one without a landmark included.
#[derive(Clone, Copy, Debug, PartialEq, Eq, Structural)]
pub enum TrackStatus {
    Active,
    Lost,
    Removed,
    Untriangulated,
}

/// Why a track is among the visual factors or not.
#[derive(Clone, Copy, Debug, PartialEq, Eq, Structural)]
pub enum Inclusion {
    Included,
    NotTriangulated,
    RecordRemoved,
    HostOutside,
    NoObservations,
    Unlisted,
}

/// At which stage of a frame a track is reported.
#[derive(Clone, Copy, Debug, PartialEq, Eq, Structural)]
pub enum FactorStage {
    VisualFactor,
    Lost,
    Untriangulated,
    NotAFactor,
}

impl TrackStatus {
    /// The name of a status.
    pub open spec fn text(self) -> Seq<char> {
        match self {
            TrackStatus::Active => "active"@,
            TrackStatus::Lost => "lost"@,
            TrackStatus::Removed => "removed"@,
            TrackStatus::Untriangulated => "untriangulated"@,
        }
    }

    /// The name of a status.
    pub fn name(&self) -> (name: &'static str)
        ensures
            name@ == self.text(),
    {
        match self {
            TrackStatus::Active => "active",
            TrackStatus::Lost => "lost",
            TrackStatus::Removed => "removed",
            TrackStatus::Untriangulated => "untriangulated",
        }
    }

    /// Why a track that is not active is out.
    pub fn delete_reason(&self) -> (reason: Option<&'static str>)
        ensures
            match self {
                TrackStatus::Active => reason is None,
                TrackStatus::Lost => reason matches Some(r) && r@ == "missed_current_frame"@,
                TrackStatus::Removed => reason matches Some(r) && r@
                    == "removed_from_landmark_db"@,
                TrackStatus::Untriangulated => reason matches Some(r) && r@
                    == "not_yet_triangulated"@,
            },
    {
        match self {
            TrackStatus::Active => None,
            TrackStatus::Lost => Some("missed_current_frame"),
            TrackStatus::Removed => Some("removed_from_landmark_db"),
            TrackStatus::Untriangulated => Some("not_yet_triangulated"),
        }
    }
}

impl Inclusion {
    /// The name of a reason.
    pub open spec fn text(self) -> Seq<char> {
        match self {
            Inclusion::Included => "host_and_observations_in_active_window"@,
            Inclusion::NotTriangulated => "landmark_not_triangulated"@,
            Inclusion::RecordRemoved => "landmark_record_removed"@,
            Inclusion::HostOutside => "host_outside_active_window"@,
            Inclusion::NoObservations => "no_observations_in_active_window"@,
            Inclusion::Unlisted => "factor_rejected_by_window_mapping"@,
        }
    }

    /// The name of a reason.
    pub fn name(&self) -> (name: &'static str)
        ensures
            name@ == self.text(),
    {
        match self {
            Inclusion::Included => "host_and_observations_in_active_window",
            Inclusion::NotTriangulated => "landmark_not_triangulated",
            Inclusion::RecordRemoved => "landmark_record_removed",
            Inclusion::HostOutside => "host_outside_active_window",
            Inclusion::NoObservations => "no_observations_in_active_window",
            Inclusion::Unlisted => "factor_rejected_by_window_mapping",
        }
    }
}

impl FactorStage {
    /// The name of a stage.
    pub open spec fn text(self) -> Seq<char> {
        match self {
            FactorStage::VisualFactor => "pre_solve_visual_factor"@,
            FactorStage::Lost => "post_association_lost_before_solve"@,
            FactorStage::Untriangulated => "post_association_untriangulated_before_solve"@,
            FactorStage::NotAFactor => "post_association_not_in_visual_factor"@,
        }
    }

    /// The name of a stage.
    pub fn name(&self) -> (name: &'static str)
        ensures
            name@ == self.text(),
    {
        match self {
            FactorStage::VisualFactor => "pre_solve_visual_factor",
            FactorStage::Lost => "post_association_lost_before_solve",
            FactorStage::Untriangulated => "post_association_untriangulated_before_solve",
            FactorStage::NotAFactor => "post_association_not_in_visual_factor",
        }
    }
}

/// One factor record of a reported track: where it points, when, and whether that frame is active.
#[derive(Clone, Copy, Debug, PartialEq, Eq, Structural)]
pub struct IdentityObservation {
    pub target_frame_id: u64,
    pub target_timestamp_ns: Option<i64>,
    pub target_camera_id: u16,
    pub pixel: Pixel,
    pub in_window: bool,
}

/// One reported track.
#[derive(Debug)]
pub struct IdentityRecord {
    pub track_id: u64,
    pub status: TrackStatus,
    pub factor_ordinal: Option<usize>,
    pub factor_observation_count: usize,
    pub inclusion: Inclusion,
    pub stage: FactorStage,
    pub record: Option<LandmarkRecord>,
    pub host_timestamp_ns: Option<i64>,
    pub observations: Vec<IdentityObservation>,
}

/// What a report says of a track.
#[verifier::ext_equal]
pub ghost struct IdentityModel {
    pub track_id: u64,
    pub status: TrackStatus,
    pub factor_ordinal: Option<nat>,
    pub factor_observation_count: nat,
    pub inclusion: Inclusion,
    pub stage: FactorStage,
    pub record: Option<LandmarkRecord>,
    pub host_timestamp_ns: Option<i64>,
    pub observations: Seq<IdentityObservation>,
}

impl View for IdentityRecord {
    type V = IdentityModel;

    open spec fn view(&self) -> IdentityModel {
        IdentityModel {
            track_id: self.track_id,
            status: self.status,
            factor_ordinal: match self.factor_ordinal {
                Some(n) => Some(n as nat),
                None => None,
            },
            factor_observation_count: self.factor_observation_count as nat,
            inclusion: self.inclusion,
            stage: self.stage,
            record: self.record,
            host_timestamp_ns: self.host_timestamp_ns,
            observations: self.observations@,
        }
    }
}

/// The members of a list in the order of their first occurrence.
pub open spec fn first_occurrences(s: Seq<u64>) -> Seq<u64>
    decreases s.len(),
{
    if s.len() == 0 {
        Seq::empty()
    } else {
        let front = first_occurrences(s.drop_last());
        if front.contains(s.last()) {
            front
        } else {
            front.push(s.last())
        }
    }
}

/// The tracks of a report: those of the landmark table in its order, then those with factor records
/// and those with a history, each once. A filter may leave some out.
pub open spec fn report_tracks(s: Stores, order: Seq<u64>, filter: Option<Seq<u64>>) -> Seq<u64> {
    let all = first_occurrences(order + ascending(s.factors.dom()) + ascending(s.history.dom()));
    match filter {
        Some(wanted) => all.filter(|t: u64| wanted.contains(t)),
        None => all,
    }
}

/// The number of factor records of a track on active frames.
pub open spec fn active_records(s: Stores, w: Frames, track_id: u64) -> nat {
    list_of(s.factors, track_id).filter(
        |r: StoredObservation| w.active().contains(r.frame_id),
    ).len()
}

/// Whether a track is a visual factor: its landmark was not removed, and its host and some record
/// are in the window.
pub open spec fn is_factor(s: Stores, w: Frames, track_id: u64) -> bool {
    &&& s.landmarks.contains_key(track_id)
    &&& !(s.landmarks[track_id].status is Removed)
    &&& w.active().contains(s.landmarks[track_id].anchor_pose)
    &&& active_records(s, w, track_id) > 0
}

/// The number of visual factors among the first `n` landmarks.
pub open spec fn factors_before(s: Stores, w: Frames, order: Seq<u64>, n: int) -> nat
    decreases n,
{
    if n <= 0 {
        0
    } else {
        factors_before(s, w, order, n - 1) + if is_factor(s, w, order[n - 1]) {
            1nat
        } else {
            0nat
        }
    }
}

/// The place of a track among the visual factors of the first `n` landmarks.
pub open spec fn factor_place(s: Stores, w: Frames, order: Seq<u64>, n: int, track_id: u64) -> Option<
    nat,
>
    decreases n,
{
    if n <= 0 {
        None
    } else if order[n - 1] == track_id && is_factor(s, w, track_id) {
        Some(factors_before(s, w, order, n - 1))
    } else {
        factor_place(s, w, order, n - 1, track_id)
    }
}

/// The time of a frame: that of its state, else of its pose, else of the current frame where it is
/// that one.
pub open spec fn frame_time(w: Frames, target: u64, frame_id: u64, timestamp_ns: i64) -> Option<i64> {
    match first_state(w.states, target, w.states.len() as int) {
        Some(i) => Some(w.states[i].timestamp_ns),
        None => match first_pose(w.poses, target, w.poses.len() as int) {
            Some(i) => Some(w.poses[i].timestamp_ns),
            None => if target == frame_id {
                Some(timestamp_ns)
            } else {
                None
            },
        },
    }
}

/// The time of the first of the first `n` entries of a history that has the frame and the camera.
pub open spec fn history_time(history: Seq<TrackHistory>, frame_id: u64, camera_id: u16, n: int) -> Option<
    i64,
>
    decreases n,
{
    if n <= 0 {
        None
    } else {
        match history_time(history, frame_id, camera_id, n - 1) {
            Some(t) => Some(t),
            None => if history[n - 1].frame_id == frame_id && history[n - 1].camera_id
                == camera_id {
                Some(history[n - 1].timestamp_ns)
            } else {
                None
            },
        }
    }
}

/// One factor record of a reported track.
pub open spec fn identity_observation(
    s: Stores,
    w: Frames,
    track_id: u64,
    r: StoredObservation,
    frame_id: u64,
    timestamp_ns: i64,
) -> IdentityObservation {
    let history = list_of(s.history, track_id);
    IdentityObservation {
        target_frame_id: r.frame_id,
        target_timestamp_ns: match history_time(
            history,
            r.frame_id,
            r.camera_id,
            history.len() as int,
        ) {
            Some(t) => Some(t),
            None => frame_time(w, r.frame_id, frame_id, timestamp_ns),
        },
        target_camera_id: r.camera_id,
        pixel: r.pixel,
        in_window: w.active().contains(r.frame_id),
    }
}

/// What the report of a frame says of a track.
pub open spec fn identity_of(
    s: Stores,
    w: Frames,
    order: Seq<u64>,
    track_id: u64,
    frame_id: u64,
    timestamp_ns: i64,
) -> IdentityModel {
    let record = if s.landmarks.contains_key(track_id) {
        Some(s.landmarks[track_id])
    } else {
        None
    };
    let status = match record {
        Some(r) => match r.status {
            LandmarkStatus::Active => TrackStatus::Active,
            LandmarkStatus::Lost => TrackStatus::Lost,
            LandmarkStatus::Removed => TrackStatus::Removed,
        },
        None => TrackStatus::Untriangulated,
    };
    let place = factor_place(s, w, order, order.len() as int, track_id);
    IdentityModel {
        track_id,
        status,
        factor_ordinal: place,
        factor_observation_count: active_records(s, w, track_id),
        inclusion: if place is Some {
            Inclusion::Included
        } else if record is None {
            Inclusion::NotTriangulated
        } else if status is Removed {
            Inclusion::RecordRemoved
        } else if !w.active().contains(record->0.anchor_pose) {
            Inclusion::HostOutside
        } else if active_records(s, w, track_id) == 0 {
            Inclusion::NoObservations
        } else {
            Inclusion::Unlisted
        },
        stage: if place is Some {
            FactorStage::VisualFactor
        } else if status is Lost {
            FactorStage::Lost
        } else if status is Untriangulated {
            FactorStage::Untriangulated
        } else {
            FactorStage::NotAFactor
        },
        record,
        host_timestamp_ns: match record {
            Some(r) => frame_time(w, r.anchor_pose, frame_id, timestamp_ns),
            None => None,
        },
        observations: list_of(s.factors, track_id).map_values(
            |r: StoredObservation|
                identity_observation(s, w, track_id, r, frame_id, timestamp_ns),
        ),
    }
}

/// Where the order lists the landmark of a track, the track is reported as included exactly where it
/// is a visual factor, and never as unlisted.
pub proof fn reasons_are_true(
    s: Stores,
    w: Frames,
    order: Seq<u64>,
    track_id: u64,
    frame_id: u64,
    timestamp_ns: i64,
)
    requires
        s.landmarks.contains_key(track_id) ==> order.contains(track_id),
    ensures
        ({
            let r = identity_of(s, w, order, track_id, frame_id, timestamp_ns);
            &&& r.inclusion is Included <==> is_factor(s, w, track_id)
            &&& !(r.inclusion is Unlisted)
        }),
{
    place_iff_factor(s, w, order, order.len() as int, track_id);
    assert(order.take(order.len() as int) =~= order);
}

proof fn place_iff_factor(s: Stores, w: Frames, order: Seq<u64>, n: int, track_id: u64)
    requires
        0 <= n <= order.len(),
    ensures
        factor_place(s, w, order, n, track_id) is Some <==> is_factor(s, w, track_id)
            && order.take(n).contains(track_id),
    decreases n,
{
    if n > 0 {
        place_iff_factor(s, w, order, n - 1, track_id);
        assert(order.take(n) =~= order.take(n - 1).push(order[n - 1]));
        vstd::seq_lib::lemma_seq_contains_after_push(order.take(n - 1), order[n - 1], track_id);
    }
}

fn distinct_list(s: &Vec<u64>) -> (distinct: Vec<u64>)
    ensures
        distinct@ == first_occurrences(s@),
{
    let mut distinct: Vec<u64> = Vec::new();
    for i in 0..s.len()
        invariant
            distinct@ == first_occurrences(s@.take(i as int)),
    {
        proof {
            assert(s@.take(i + 1).drop_last() =~= s@.take(i as int));
            assert(s@.take(i + 1).last() == s@[i as int]);
        }
        if !contains_id(&distinct, s[i]) {
            distinct.push(s[i]);
        }
    }
    assert(s@.take(s@.len() as int) =~= s@);
    distinct
}

fn count_active(records: &Vec<StoredObservation>, active: &Vec<u64>) -> (count: usize)
    ensures
        count == records@.filter(|r: StoredObservation| active@.contains(r.frame_id)).len(),
{
    let ghost keep = |r: StoredObservation| active@.contains(r.frame_id);
    let mut count: usize = 0;
    proof {
        reveal(Seq::filter);
        assert(records@.take(0).filter(keep) =~= Seq::empty());
    }
    for i in 0..records.len()
        invariant
            keep == (|r: StoredObservation| active@.contains(r.frame_id)),
            count == records@.take(i as int).filter(keep).len(),
            count <= i,
    {
        proof {
            filter_next(records@, keep, i as int);
        }
        if contains_id(active, records[i].frame_id) {
            count = count + 1;
        }
    }
    assert(records@.take(records@.len() as int) =~= records@);
    count
}

fn find_frame_time(window: &Window, target: u64, frame_id: u64, timestamp_ns: i64) -> (time: Option<
    i64,
>)
    ensures
        time == frame_time(window@, target, frame_id, timestamp_ns),
{
    if let Some(i) = window.position(target) {
        return Some(window.states[i].timestamp_ns);
    }
    let mut place: Option<usize> = None;
    for i in 0..window.poses.len()
        invariant
            match place {
                Some(p) => first_pose(window@.poses, target, i as int) == Some(p as int) && p < i,
                None => first_pose(window@.poses, target, i as int) is None,
            },
    {
        if place.is_none() && window.poses[i].frame_id == target {
            place = Some(i);
        }
    }
    match place {
        Some(i) => Some(window.poses[i].timestamp_ns),
        None => if target == frame_id {
            Some(timestamp_ns)
        } else {
            None
        },
    }
}

fn find_history_time(history: &Vec<TrackHistory>, frame_id: u64, camera_id: u16) -> (time: Option<i64>)
    ensures
        time == history_time(history@, frame_id, camera_id, history@.len() as int),
{
    let mut time: Option<i64> = None;
    for i in 0..history.len()
        invariant
            time == history_time(history@, frame_id, camera_id, i as int),
    {
        if time.is_none() && history[i].frame_id == frame_id && history[i].camera_id == camera_id {
            time = Some(history[i].timestamp_ns);
        }
    }
    time
}

fn is_visual_factor(store: &TrackStore, window: &Window, active: &Vec<u64>, track_id: u64) -> (result: bool)
    requires
        active@ == window@.active(),
    ensures
        result == is_factor(store@, window@, track_id),
{
    let hosted = match store.landmarks.landmarks.get(&track_id) {
        Some(record) => match record.status {
            LandmarkStatus::Removed => false,
            _ => contains_id(active, record.anchor_pose),
        },
        None => false,
    };
    if !hosted {
        return false;
    }
    let records = copy_list_of(&store.window_observations, track_id);
    count_active(&records, active) > 0
}

fn find_factor_place(
    store: &TrackStore,
    window: &Window,
    active: &Vec<u64>,
    order: &Vec<u64>,
    track_id: u64,
) -> (place: Option<usize>)
    requires
        active@ == window@.active(),
    ensures
        factor_place(store@, window@, order@, order@.len() as int, track_id) == match place {
            Some(n) => Some(n as nat),
            None => None,
        },
{
    let mut place: Option<usize> = None;
    let mut before: usize = 0;
    for i in 0..order.len()
        invariant
            active@ == window@.active(),
            before == factors_before(store@, window@, order@, i as int),
            before <= i,
            factor_place(store@, window@, order@, i as int, track_id) == match place {
                Some(n) => Some(n as nat),
                None => None,
            },
    {
        if is_visual_factor(store, window, active, order[i]) {
            if order[i] == track_id {
                place = Some(before);
            }
            before = before + 1;
        }
    }
    place
}

fn identity_record(
    store: &TrackStore,
    window: &Window,
    order: &Vec<u64>,
    track_id: u64,
    frame_id: u64,
    timestamp_ns: i64,
) -> (record: IdentityRecord)
    ensures
        record@ == identity_of(store@, window@, order@, track_id, frame_id, timestamp_ns),
{
    let active = window.active_frames();
    let found: Option<LandmarkRecord> = match store.landmarks.landmarks.get(&track_id) {
        Some(record) => Some(*record),
        None => None,
    };
    let status = match found {
        Some(r) => match r.status {
            LandmarkStatus::Active => TrackStatus::Active,
            LandmarkStatus::Lost => TrackStatus::Lost,
            LandmarkStatus::Removed => TrackStatus::Removed,
        },
        None => TrackStatus::Untriangulated,
    };
    let records = copy_list_of(&store.window_observations, track_id);
    let history = copy_list_of(&store.track_history, track_id);
    let factor_observation_count: usize = count_active(&records, &active);
    let factor_ordinal = find_factor_place(store, window, &active, order, track_id);
    let inclusion = if factor_ordinal.is_some() {
        Inclusion::Included
    } else {
        match found {
            None => Inclusion::NotTriangulated,
            Some(r) => match r.status {
                LandmarkStatus::Removed => Inclusion::RecordRemoved,
                _ => if !contains_id(&active, r.anchor_pose) {
                    Inclusion::HostOutside
                } else if factor_observation_count == 0 {
                    Inclusion::NoObservations
                } else {
                    Inclusion::Unlisted
                },
            },
        }
    };
    let stage = if factor_ordinal.is_some() {
        FactorStage::VisualFactor
    } else {
        match status {
            TrackStatus::Lost => FactorStage::Lost,
            TrackStatus::Untriangulated => FactorStage::Untriangulated,
            _ => FactorStage::NotAFactor,
        }
    };
    let host_timestamp_ns: Option<i64> = match found {
        Some(r) => find_frame_time(window, r.anchor_pose, frame_id, timestamp_ns),
        None => None,
    };
    let ghost f = |r: StoredObservation|
        identity_observation(store@, window@, track_id, r, frame_id, timestamp_ns);
    let mut observations: Vec<IdentityObservation> = Vec::new();
    for i in 0..records.len()
        invariant
            active@ == window@.active(),
            history@ == list_of(store@.history, track_id),
            f == (|r: StoredObservation|
                identity_observation(store@, window@, track_id, r, frame_id, timestamp_ns)),
            observations@ =~= records@.map_values(f).take(i as int),
    {
        let r = records[i];
        let target_timestamp_ns: Option<i64> = match find_history_time(
            &history,
            r.frame_id,
            r.camera_id,
        ) {
            Some(t) => Some(t),
            None => find_frame_time(window, r.frame_id, frame_id, timestamp_ns),
        };
        observations.push(
            IdentityObservation {
                target_frame_id: r.frame_id,
                target_timestamp_ns,
                target_camera_id: r.camera_id,
                pixel: r.pixel,
                in_window: contains_id(&active, r.frame_id),
            },
        );
    }
    assert(observations@ =~= records@.map_values(f));
    let record = IdentityRecord {
        track_id,
        status,
        factor_ordinal,
        factor_observation_count,
        inclusion,
        stage,
        record: found,
        host_timestamp_ns,
        observations,
    };
    assert(record@ =~= identity_of(store@, window@, order@, track_id, frame_id, timestamp_ns));
    record
}

/// Reports the tracks of the stores after a frame was associated and before the solver runs.
pub fn visual_factor_identities(
    store: &TrackStore,
    window: &Window,
    order: &Vec<u64>,
    filter: &Option<Vec<u64>>,
    frame_id: u64,
    timestamp_ns: i64,
) -> (records: Vec<IdentityRecord>)
    ensures
        ({
            let wanted = match filter {
                Some(v) => Some(v@),
                None => None,
            };
            records@.map_values(|r: IdentityRecord| r@) == report_tracks(
                store@,
                order@,
                wanted,
            ).map_values(
                |t: u64| identity_of(store@, window@, order@, t, frame_id, timestamp_ns),
            )
        }),
{
    let mut all = copy_list(order);
    let mut with_factors = map_keys(&store.window_observations);
    let mut with_history = map_keys(&store.track_history);
    assert(store@.factors.dom() =~= store.window_observations@.dom());
    assert(store@.history.dom() =~= store.track_history@.dom());
    all.append(&mut with_factors);
    all.append(&mut with_history);
    let distinct = distinct_list(&all);
    let tracks: Vec<u64> = match filter {
        Some(wanted) => {
            let ghost keep = |t: u64| wanted@.contains(t);
            let mut kept: Vec<u64> = Vec::new();
            proof {
                reveal(Seq::filter);
                assert(distinct@.take(0).filter(keep) =~= Seq::empty());
            }
            for i in 0..distinct.len()
                invariant
                    keep == (|t: u64| wanted@.contains(t)),
                    kept@ == distinct@.take(i as int).filter(keep),
            {
                proof {
                    filter_next(distinct@, keep, i as int);
                }
                if contains_id(wanted, distinct[i]) {
                    kept.push(distinct[i]);
                }
            }
            assert(distinct@.take(distinct@.len() as int) =~= distinct@);
            kept
        },
        None => distinct,
    };
    let ghost model = |r: IdentityRecord| r@;
    let ghost f = |t: u64| identity_of(store@, window@, order@, t, frame_id, timestamp_ns);
    let mut records: Vec<IdentityRecord> = Vec::new();
    for i in 0..tracks.len()
        invariant
            model == (|r: IdentityRecord| r@),
            f == (|t: u64| identity_of(store@, window@, order@, t, frame_id, timestamp_ns)),
            records@.map_values(model) =~= tracks@.map_values(f).take(i as int),
    {
        let ghost before = records@;
        let record = identity_record(store, window, order, tracks[i], frame_id, timestamp_ns);
        records.push(record);
        assert(records@.map_values(model) =~= before.map_values(model).push(record@));
    }
    assert(records@.map_values(model) =~= tracks@.map_values(f));
    records
}

/// An attempt is told as what ended it: too short a baseline, no trace in extended mode, no solution, a
/// distance that is not finite, not ahead or too close, or nothing.
pub proof fn attempts_are_told_by_what_ended_them(a: Attempt, mode: ScalarMode)
    ensures
        attempt_status(a, mode) is BaselineRejected <==> double_less(
            a.baseline,
            0x3fa9_9999_9999_999a,
        ),
        attempt_status(a, mode) is Untraced <==> !double_less(a.baseline, 0x3fa9_9999_9999_999a)
            && mode is ExtendedF64,
        attempt_status(a, mode) is Failed <==> !double_less(a.baseline, 0x3fa9_9999_9999_999a) && !(
        mode is ExtendedF64) && a.inverse_distance is None,
        attempt_status(a, mode) is Accepted <==> !double_less(a.baseline, 0x3fa9_9999_9999_999a)
            && !(mode is ExtendedF64) && a.inverse_distance is Some && double_finite(
            a.inverse_distance->0,
        ) && double_less(0, a.inverse_distance->0) && double_less(
            a.inverse_distance->0,
            0x4008_0000_0000_0000,
        ),
{
}

/// The first occurrences of a list are its members, each once.
pub proof fn first_occurrences_are_members(s: Seq<u64>)
    ensures
        first_occurrences(s).no_duplicates(),
        forall|t: u64| #[trigger] first_occurrences(s).contains(t) <==> s.contains(t),
        s.no_duplicates() ==> first_occurrences(s) == s,
    decreases s.len(),
{
    if s.len() > 0 {
        let rest = s.drop_last();
        first_occurrences_are_members(rest);
        let front = first_occurrences(rest);
        let all = first_occurrences(s);
        assert forall|t: u64| #[trigger] all.contains(t) <==> s.contains(t) by {
            if s.contains(t) {
                let i = choose|i: int| 0 <= i < s.len() && s[i] == t;
                if i < rest.len() {
                    assert(rest[i] == t);
                    assert(front.contains(t));
                    let k = choose|k: int| 0 <= k < front.len() && front[k] == t;
                    assert(all[k] == t);
                } else if !front.contains(t) {
                    assert(all[all.len() - 1] == t);
                } else {
                    let k = choose|k: int| 0 <= k < front.len() && front[k] == t;
                    assert(all[k] == t);
                }
            }
            if all.contains(t) {
                let k = choose|k: int| 0 <= k < all.len() && all[k] == t;
                if k < front.len() {
                    assert(front[k] == t);
                    assert(front.contains(t));
                    assert(rest.contains(t));
                    let i = choose|i: int| 0 <= i < rest.len() && rest[i] == t;
                    assert(s[i] == t);
                } else {
                    assert(s[s.len() - 1] == t);
                }
            }
        }
        if s.no_duplicates() {
            assert(rest.no_duplicates());
            if front.contains(s.last()) {
                assert(rest.contains(s.last()));
                let i = choose|i: int| 0 <= i < rest.len() && rest[i] == s.last();
                assert(s[i] == s[s.len() - 1]);
            }
            assert(s =~= rest.push(s.last()));
        }
    }
}

/// A report covers exactly the tracks that are asked for among those of the given order, those with factor
/// records and those with a history, each once.
pub proof fn reports_cover_every_track(s: Stores, order: Seq<u64>, filter: Option<Seq<u64>>)
    requires
        s.factors.dom().finite(),
        s.history.dom().finite(),
    ensures
        forall|t: u64| #[trigger]
            report_tracks(s, order, filter).contains(t) <==> (order.contains(t)
                || s.factors.contains_key(t) || s.history.contains_key(t)) && (filter is None
                || filter->0.contains(t)),
{
    let a = ascending(s.factors.dom());
    let b = ascending(s.history.dom());
    let all = order + a + b;
    ascending_lists_members(s.factors.dom());
    ascending_lists_members(s.history.dom());
    first_occurrences_are_members(all);
    assert forall|t: u64| #[trigger] all.contains(t) <==> order.contains(t)
        || s.factors.contains_key(t) || s.history.contains_key(t) by {
        assert(a.to_set().contains(t) <==> s.factors.dom().contains(t));
        assert(b.to_set().contains(t) <==> s.history.dom().contains(t));
        if all.contains(t) {
            let i = choose|i: int| 0 <= i < all.len() && all[i] == t;
            if i < order.len() {
                assert(order[i] == t);
            } else if i < order.len() + a.len() {
                assert(a[i - order.len()] == t);
                assert(a.contains(t));
            } else {
                assert(b[i - order.len() - a.len()] == t);
                assert(b.contains(t));
            }
        }
        if order.contains(t) {
            let i = choose|i: int| 0 <= i < order.len() && order[i] == t;
            assert(all[i] == t);
        }
        if a.contains(t) {
            let i = choose|i: int| 0 <= i < a.len() && a[i] == t;
            assert(all[order.len() + i] == t);
        }
        if b.contains(t) {
            let i = choose|i: int| 0 <= i < b.len() && b[i] == t;
            assert(all[order.len() + a.len() + i] == t);
        }
    }
    if filter is Some {
        filter_members(first_occurrences(all), |t: u64| filter->0.contains(t));
    }
}

/// A track is a factor exactly where it has a landmark that was not removed, whose host and some factor record
/// of which are in the window; it is told by its status, and its records by frame, camera and pixel with
/// whether the frame is in the window.
pub proof fn identities_tell_tracks_as_stored(
    s: Stores,
    w: Frames,
    order: Seq<u64>,
    track_id: u64,
    frame_id: u64,
    timestamp_ns: i64,
)
    requires
        order.no_duplicates(),
    ensures
        ({
            let m = identity_of(s, w, order, track_id, frame_id, timestamp_ns);
            let records = list_of(s.factors, track_id);
            let known = s.landmarks.contains_key(track_id);
            let record = s.landmarks[track_id];
            &&& m.track_id == track_id
            &&& m.record is Some <==> known
            &&& known ==> m.record == Some(record)
            &&& m.status is Untriangulated <==> !known
            &&& m.status is Active <==> known && record.status is Active
            &&& m.status is Lost <==> known && record.status is Lost
            &&& m.status is Removed <==> known && record.status is Removed
            &&& m.factor_observation_count == records.filter(
                |r: StoredObservation| w.active().contains(r.frame_id),
            ).len()
            &&& m.factor_ordinal is Some <==> order.contains(track_id) && known && !(
            record.status is Removed) && w.active().contains(record.anchor_pose)
                && m.factor_observation_count > 0
            &&& m.inclusion is Included <==> m.factor_ordinal is Some
            &&& m.inclusion is NotTriangulated <==> !known
            &&& m.inclusion is RecordRemoved <==> known && record.status is Removed
            &&& m.inclusion is HostOutside <==> known && !(record.status is Removed)
                && !w.active().contains(record.anchor_pose)
            &&& m.inclusion is NoObservations <==> known && !(record.status is Removed)
                && w.active().contains(record.anchor_pose) && m.factor_observation_count == 0
            &&& m.stage is VisualFactor <==> m.factor_ordinal is Some
            &&& m.stage is Lost <==> m.factor_ordinal is None && known && record.status is Lost
            &&& m.stage is Untriangulated <==> !known
            &&& m.observations.len() == records.len()
            &&& forall|i: int|
                0 <= i < records.len() ==> {
                    let o = #[trigger] m.observations[i];
                    &&& o.target_frame_id == records[i].frame_id
                    &&& o.target_camera_id == records[i].camera_id
                    &&& o.pixel == records[i].pixel
                    &&& o.in_window <==> w.active().contains(records[i].frame_id)
                }
        }),
{
    place_iff_factor(s, w, order, order.len() as int, track_id);
    assert(order.take(order.len() as int) =~= order);
}

/// The ordinal of a factor is the number of factors before it in the order.
pub proof fn ordinals_count_the_factors_before(
    s: Stores,
    w: Frames,
    order: Seq<u64>,
    n: int,
    k: int,
)
    requires
        order.no_duplicates(),
        0 <= k < n <= order.len(),
    ensures
        is_factor(s, w, order[k]) ==> factor_place(s, w, order, n, order[k]) == Some(
            order.take(k).filter(|t: u64| is_factor(s, w, t)).len(),
        ),
    decreases n,
{
    if k < n - 1 {
        ordinals_count_the_factors_before(s, w, order, n - 1, k);
        assert(order[n - 1] != order[k]);
    } else {
        factors_are_counted(s, w, order, k);
    }
}

proof fn factors_are_counted(s: Stores, w: Frames, order: Seq<u64>, n: int)
    requires
        0 <= n <= order.len(),
    ensures
        factors_before(s, w, order, n) == order.take(n).filter(
            |t: u64| is_factor(s, w, t),
        ).len(),
    decreases n,
{
    let keep = |t: u64| is_factor(s, w, t);
    if n > 0 {
        factors_are_counted(s, w, order, n - 1);
        filter_next(order, keep, n - 1);
    } else {
        reveal(Seq::filter);
        assert(order.take(0).filter(keep).len() == 0);
    }
}

/// The time of a frame is that of its first state, or else of its first pose, or else, for the frame at hand,
/// that frame's own; any other frame has none. The time of a record is that of the first history entry of
/// its frame and camera, where there is one.
pub proof fn frames_have_their_times(
    w: Frames,
    target: u64,
    frame_id: u64,
    timestamp_ns: i64,
    history: Seq<TrackHistory>,
    camera_id: u16,
)
    ensures
        ({
            let t = frame_time(w, target, frame_id, timestamp_ns);
            let no_state = forall|i: int|
                0 <= i < w.states.len() ==> (#[trigger] w.states[i]).frame_id != target;
            let no_pose = forall|i: int|
                0 <= i < w.poses.len() ==> (#[trigger] w.poses[i]).frame_id != target;
            &&& forall|i: int|
                0 <= i < w.states.len() && (#[trigger] w.states[i]).frame_id == target && (forall|
                    j: int,
                | 0 <= j < i ==> (#[trigger] w.states[j]).frame_id != target) ==> t == Some(
                    w.states[i].timestamp_ns,
                )
            &&& no_state ==> forall|i: int|
                0 <= i < w.poses.len() && (#[trigger] w.poses[i]).frame_id == target && (forall|
                    j: int,
                | 0 <= j < i ==> (#[trigger] w.poses[j]).frame_id != target) ==> t == Some(
                    w.poses[i].timestamp_ns,
                )
            &&& no_state && no_pose && target == frame_id ==> t == Some(timestamp_ns)
            &&& no_state && no_pose && target != frame_id ==> t is None
        }),
        match history_time(history, target, camera_id, history.len() as int) {
            Some(t) => exists|i: int|
                0 <= i < history.len() && (#[trigger] history[i]).frame_id == target
                    && history[i].camera_id == camera_id && history[i].timestamp_ns == t && forall|
                    j: int,
                |
                    0 <= j < i ==> (#[trigger] history[j]).frame_id != target
                        || history[j].camera_id != camera_id,
            None => forall|i: int|
                0 <= i < history.len() ==> (#[trigger] history[i]).frame_id != target
                    || history[i].camera_id != camera_id,
        },
{
    first_state_is_first(w.states, target, w.states.len() as int);
    first_pose_is_first(w.poses, target, w.poses.len() as int);
    history_time_is_first(history, target, camera_id, history.len() as int);
}

proof fn history_time_is_first(history: Seq<TrackHistory>, frame_id: u64, camera_id: u16, n: int)
    requires
        0 <= n <= history.len(),
    ensures
        match history_time(history, frame_id, camera_id, n) {
            Some(t) => exists|i: int|
                0 <= i < n && (#[trigger] history[i]).frame_id == frame_id && history[i].camera_id
                    == camera_id && history[i].timestamp_ns == t && forall|j: int|
                    0 <= j < i ==> (#[trigger] history[j]).frame_id != frame_id
                        || history[j].camera_id != camera_id,
            None => forall|i: int|
                0 <= i < n ==> (#[trigger] history[i]).frame_id != frame_id || history[i].camera_id
                    != camera_id,
        },
    decreases n,
{
    if n > 0 {
        history_time_is_first(history, frame_id, camera_id, n - 1);
        if history_time(history, frame_id, camera_id, n - 1) is None && history[n - 1].frame_id
            == frame_id && history[n - 1].camera_id == camera_id {
            assert(history[n - 1].timestamp_ns == history_time(history, frame_id, camera_id, n)->0);
        }
    }
}

} // verus!

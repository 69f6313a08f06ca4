//! One packet of observations enters the stores of the estimator: all of it, or none of it.
use crate::basalt::errors::EstimatorError;
use crate::basalt::identity::{
    candidate_sort, candidates, candidates_are_ordered, distinct_factors, distinct_history,
    factor_error, first_error, first_error_is_first, history_error, no_error_before, no_error_means,
    packet_error, packet_error_at, same_observation, stored, stored_of,
    validate_current_observation_identities, validate_factor_observation_records,
    validate_track_history_identity, StoredObservation, TrackHistory, TrackObservation,
};
use crate::basalt::landmarks::{
    associated, associated_times, associations_add_up, live, new_landmark, AssociatedFrame,
    LandmarkRecord, ObservationDb,
};
use crate::ieee::{double_finite, double_less, is_double_finite, is_double_less};
use crate::ordered::{
    ascending, ascending_lists_members, contains_id, filter_append, filter_members, filter_next,
    list_of, lists, map_keys, push_to,
};
use std::collections::{BTreeMap, BTreeSet};
use vstd::prelude::*;

verus! {

broadcast use vstd::std_specs::btree::group_btree_axioms;

/// The shortest baseline that a triangulation may have: 0.05.
pub const MIN_BASELINE: u64 = 0x3fa9_9999_9999_999a;

/// The inverse distance at which a landmark is too close: 3.
pub const MAX_INVERSE_DISTANCE: u64 = 0x4008_0000_0000_0000;

/// The distance up to which a landmark has no direction: 1e-9.
pub const MIN_ANCHOR_DISTANCE: u64 = 0x3e11_2e0b_e826_d695;

/// Whether the pixel of an observation has a bearing, and whether it has a raw one.
#[derive(Clone, Copy, Debug, PartialEq, Eq, Structural)]
pub struct BearingOutcome {
    pub bearing: bool,
    pub raw: bool,
}

/// One attempt to triangulate a track: the bits of the baseline, and those of the inverse distance
/// where the linear system has a solution.
#[derive(Clone, Copy, Debug, PartialEq, Eq, Structural)]
pub struct Attempt {
    pub baseline: u64,
    pub inverse_distance: Option<u64>,
}

/// What is measured of one unconnected track: for each of its candidates, in their order, whether
/// the pixel has a bearing and how the triangulation went; and of the point that the selected
/// attempt gives, its distance from the camera and whether its direction can be stored.
#[derive(Debug)]
pub struct TrackTriangulation {
    pub track_id: u64,
    pub bearings: Vec<bool>,
    pub attempts: Vec<Attempt>,
    pub anchor_distance: u64,
    pub direction: bool,
}

/// One packet: the observations of a frame and what is measured of them. The unconnected tracks
/// are in the order in which they are tried.
#[derive(Debug)]
pub struct Packet {
    pub frame_id: u64,
    pub timestamp_ns: i64,
    pub is_keyframe: bool,
    pub observations: Vec<TrackObservation>,
    pub bearings: Vec<BearingOutcome>,
    pub tracks: Vec<TrackTriangulation>,
}

/// Whether an attempt gives a landmark.
pub open spec fn accepted(a: Attempt) -> bool {
    !double_less(a.baseline, MIN_BASELINE) && match a.inverse_distance {
        Some(rho) => double_finite(rho) && double_less(0, rho) && double_less(
            rho,
            MAX_INVERSE_DISTANCE,
        ),
        None => false,
    }
}

fn is_accepted(a: &Attempt) -> (result: bool)
    ensures
        result == accepted(*a),
{
    !is_double_less(a.baseline, MIN_BASELINE) && match a.inverse_distance {
        Some(rho) => is_double_finite(rho) && is_double_less(0, rho) && is_double_less(
            rho,
            MAX_INVERSE_DISTANCE,
        ),
        None => false,
    }
}

/// The first attempt that gives a landmark.
pub fn select_attempt(attempts: &Vec<Attempt>) -> (selected: Option<usize>)
    ensures
        match selected {
            Some(i) => i < attempts@.len() && accepted(attempts@[i as int]) && forall|j: int|
                0 <= j < i ==> !accepted(#[trigger] attempts@[j]),
            None => forall|j: int| 0 <= j < attempts@.len() ==> !accepted(#[trigger] attempts@[j]),
        },
{
    for i in 0..attempts.len()
        invariant
            forall|j: int| 0 <= j < i ==> !accepted(#[trigger] attempts@[j]),
    {
        if is_accepted(&attempts[i]) {
            return Some(i);
        }
    }
    None
}

/// Whether a track becomes a landmark: some attempt is accepted, and the point it gives has a
/// distance and a direction.
pub open spec fn triangulated(t: TrackTriangulation) -> bool {
    &&& exists|i: int| 0 <= i < t.attempts@.len() && accepted(#[trigger] t.attempts@[i])
    &&& double_finite(t.anchor_distance)
    &&& double_less(MIN_ANCHOR_DISTANCE, t.anchor_distance)
    &&& t.direction
}

fn is_triangulated(t: &TrackTriangulation) -> (result: bool)
    ensures
        result == triangulated(*t),
{
    match select_attempt(&t.attempts) {
        Some(i) => {
            assert(accepted(t.attempts@[i as int]));
            is_double_finite(t.anchor_distance) && is_double_less(
                MIN_ANCHOR_DISTANCE,
                t.anchor_distance,
            ) && t.direction
        },
        None => false,
    }
}

/// Where a landmark is hosted, and the time of its host.
#[derive(Clone, Copy, Debug, PartialEq, Eq, Structural)]
pub struct HostKey {
    pub frame_id: u64,
    pub camera_id: u16,
    pub timestamp_ns: i64,
}

/// The stores that a packet changes: the history and the factor records of each track, the
/// landmarks, the tracks with a world point, and the hosts in the order in which they entered.
#[derive(Debug)]
pub struct TrackStore {
    pub track_history: BTreeMap<u64, Vec<TrackHistory>>,
    pub window_observations: BTreeMap<u64, Vec<StoredObservation>>,
    pub landmarks: ObservationDb,
    pub landmark_world: BTreeSet<u64>,
    pub native_host_keys: Vec<HostKey>,
}

/// What the stores hold.
#[verifier::ext_equal]
pub ghost struct Stores {
    pub history: Map<u64, Seq<TrackHistory>>,
    pub factors: Map<u64, Seq<StoredObservation>>,
    pub landmarks: Map<u64, LandmarkRecord>,
    pub associations: Seq<AssociatedFrame>,
    pub world: Set<u64>,
    pub hosts: Seq<HostKey>,
}

impl View for TrackStore {
    type V = Stores;

    open spec fn view(&self) -> Stores {
        Stores {
            history: lists(self.track_history@),
            factors: lists(self.window_observations@),
            landmarks: self.landmarks.landmarks@,
            associations: self.landmarks.observations@,
            world: self.landmark_world@,
            hosts: self.native_host_keys@,
        }
    }
}

/// The history entry of an observation.
pub open spec fn entry(o: TrackObservation) -> TrackHistory {
    TrackHistory {
        frame_id: o.frame_id,
        camera_id: o.camera_id,
        timestamp_ns: o.timestamp_ns,
        pixel: o.pixel,
    }
}

/// The history entries that a packet adds to a track, in the order of the packet.
pub open spec fn entries(observations: Seq<TrackObservation>, track_id: u64) -> Seq<TrackHistory> {
    observations.filter(|o: TrackObservation| o.track_id == track_id).map_values(
        |o: TrackObservation| entry(o),
    )
}

/// Whether a packet observes a track.
pub open spec fn observes(observations: Seq<TrackObservation>, track_id: u64) -> bool {
    exists|i: int| 0 <= i < observations.len() && (#[trigger] observations[i]).track_id == track_id
}

/// Whether a packet observes a track in the first camera and the track has no landmark.
pub open spec fn unconnected(
    landmarks: Map<u64, LandmarkRecord>,
    observations: Seq<TrackObservation>,
    track_id: u64,
) -> bool {
    !live(landmarks, track_id) && exists|i: int|
        0 <= i < observations.len() && (#[trigger] observations[i]).track_id == track_id
            && observations[i].camera_id == 0
}

/// The history of a track together with what a packet adds to it.
pub open spec fn complete_history(
    history: Map<u64, Seq<TrackHistory>>,
    observations: Seq<TrackObservation>,
    track_id: u64,
) -> Seq<TrackHistory> {
    list_of(history, track_id) + entries(observations, track_id)
}

/// What the bearings of the observation at place `i` lack.
pub open spec fn bearing_error_at(packet: Packet, cameras: nat, i: int) -> Option<EstimatorError> {
    if packet.observations@[i].camera_id >= cameras || !packet.bearings@[i].bearing {
        Some(EstimatorError::Bearing)
    } else if !packet.bearings@[i].raw {
        Some(EstimatorError::RawBearing)
    } else {
        None
    }
}

/// What the history of the track observed at place `i` says against the observation.
pub open spec fn retained_error_at(
    history: Map<u64, Seq<TrackHistory>>,
    observations: Seq<TrackObservation>,
    i: int,
) -> Option<EstimatorError> {
    let o = observations[i];
    let h = list_of(history, o.track_id);
    match history_error(h) {
        Some(e) => Some(e),
        None => if exists|j: int|
            0 <= j < h.len() && (#[trigger] h[j]).frame_id == o.frame_id && h[j].camera_id
                == o.camera_id {
            Some(
                EstimatorError::RetainedObservation {
                    track_id: o.track_id,
                    frame_id: o.frame_id,
                    camera_id: o.camera_id,
                },
            )
        } else {
            None
        },
    }
}

/// What the factor map says of itself: its tracks are checked in ascending order.
pub open spec fn factor_map_error(s: Stores) -> Option<EstimatorError> {
    let tracks = ascending(s.factors.dom());
    first_error(
        |i: int| factor_error(tracks[i], s.factors[tracks[i]], list_of(s.history, tracks[i])),
        tracks.len(),
    )
}

/// What the factor records of the track observed at place `i` say against the observation.
pub open spec fn current_factor_error_at(
    factors: Map<u64, Seq<StoredObservation>>,
    observations: Seq<TrackObservation>,
    i: int,
) -> Option<EstimatorError> {
    let o = observations[i];
    let f = list_of(factors, o.track_id);
    if exists|j: int|
        0 <= j < f.len() && (#[trigger] f[j]).frame_id == o.frame_id && f[j].camera_id
            == o.camera_id {
        Some(
            EstimatorError::CurrentFactor {
                track_id: o.track_id,
                frame_id: o.frame_id,
                camera_id: o.camera_id,
            },
        )
    } else {
        None
    }
}

/// Whether every candidate of a track has a camera and a bearing.
pub open spec fn candidate_bearings(
    ordered: Seq<TrackHistory>,
    bearings: Seq<bool>,
    cameras: nat,
) -> bool {
    &&& forall|i: int| 0 <= i < ordered.len() ==> (#[trigger] ordered[i]).camera_id < cameras
    &&& forall|i: int| 0 <= i < ordered.len() ==> #[trigger] bearings[i]
}

/// What the unconnected track at place `k` of the packet does wrong.
pub open spec fn track_error_at(
    history: Map<u64, Seq<TrackHistory>>,
    packet: Packet,
    cameras: nat,
    k: int,
) -> Option<EstimatorError> {
    let t = packet.tracks@[k];
    let complete = complete_history(history, packet.observations@, t.track_id);
    match history_error(complete) {
        Some(e) => Some(e),
        None => if candidate_bearings(candidates(complete), t.bearings@, cameras) {
            None
        } else {
            Some(EstimatorError::HistoryBearing)
        },
    }
}

/// What a packet does wrong before any track is triangulated: its own identities first, then the
/// bearings, the histories, the factor map, and the factors of the observed tracks.
pub open spec fn preflight_error(s: Stores, packet: Packet, cameras: nat) -> Option<
    EstimatorError,
> {
    let n = packet.observations@.len();
    match packet_error(packet.frame_id, packet.timestamp_ns, packet.observations@) {
        Some(e) => Some(e),
        None => match first_error(|i: int| bearing_error_at(packet, cameras, i), n) {
            Some(e) => Some(e),
            None => match first_error(
                |i: int| retained_error_at(s.history, packet.observations@, i),
                n,
            ) {
                Some(e) => Some(e),
                None => match factor_map_error(s) {
                    Some(e) => Some(e),
                    None => first_error(
                        |i: int| current_factor_error_at(s.factors, packet.observations@, i),
                        n,
                    ),
                },
            },
        },
    }
}

/// What a packet does wrong: before any track is triangulated, and on a keyframe in the unconnected
/// tracks.
pub open spec fn collect_error(s: Stores, packet: Packet, cameras: nat) -> Option<EstimatorError> {
    match preflight_error(s, packet, cameras) {
        Some(e) => Some(e),
        None => if packet.is_keyframe {
            first_error(
                |k: int| track_error_at(s.history, packet, cameras, k),
                packet.tracks@.len(),
            )
        } else {
            None
        },
    }
}

/// Whether the packet measures exactly the unconnected tracks, each once and each for all of its
/// candidates.
pub open spec fn measures_tracks(s: Stores, packet: Packet) -> bool {
    &&& forall|i: int, j: int|
        0 <= i < j < packet.tracks@.len() ==> (#[trigger] packet.tracks@[i]).track_id != (
        #[trigger] packet.tracks@[j]).track_id
    &&& forall|t: u64|
        (exists|k: int| 0 <= k < packet.tracks@.len() && (#[trigger] packet.tracks@[k]).track_id == t)
            <==> #[trigger] unconnected(s.landmarks, packet.observations@, t)
    &&& forall|k: int|
        0 <= k < packet.tracks@.len() ==> (#[trigger] packet.tracks@[k]).bearings@.len()
            == complete_history(
            s.history,
            packet.observations@,
            packet.tracks@[k].track_id,
        ).len()
}

/// Whether a packet creates a landmark for a track.
pub open spec fn created(packet: Packet, track_id: u64) -> bool {
    packet.is_keyframe && exists|k: int|
        0 <= k < packet.tracks@.len() && (#[trigger] packet.tracks@[k]).track_id == track_id
            && triangulated(packet.tracks@[k])
}

/// The tracks for which a packet creates landmarks, in the order in which they are tried.
pub open spec fn created_tracks(packet: Packet, n: nat) -> Seq<u64>
    decreases n,
{
    if n == 0 || !packet.is_keyframe {
        Seq::empty()
    } else if triangulated(packet.tracks@[n - 1]) {
        created_tracks(packet, (n - 1) as nat).push(packet.tracks@[n - 1].track_id)
    } else {
        created_tracks(packet, (n - 1) as nat)
    }
}

/// The histories after a packet.
pub open spec fn history_after(
    history: Map<u64, Seq<TrackHistory>>,
    observations: Seq<TrackObservation>,
) -> Map<u64, Seq<TrackHistory>> {
    Map::new(
        |t: u64| history.contains_key(t) || observes(observations, t),
        |t: u64| complete_history(history, observations, t),
    )
}

/// The factor records of a track that has a landmark, after a packet: what was there and what the
/// packet adds, on the active frames.
pub open spec fn extended_factors(
    factors: Map<u64, Seq<StoredObservation>>,
    observations: Seq<TrackObservation>,
    active: Seq<u64>,
    track_id: u64,
) -> Seq<StoredObservation> {
    (list_of(factors, track_id) + entries(observations, track_id).map_values(
        |h: TrackHistory| stored(h),
    )).filter(|r: StoredObservation| active.contains(r.frame_id))
}

/// The factor records of a new landmark: its candidates on the active frames, in their order.
pub open spec fn new_factors(
    history: Map<u64, Seq<TrackHistory>>,
    observations: Seq<TrackObservation>,
    active: Seq<u64>,
    track_id: u64,
) -> Seq<StoredObservation> {
    candidates(complete_history(history, observations, track_id)).filter(
        |h: TrackHistory| active.contains(h.frame_id),
    ).map_values(|h: TrackHistory| stored(h))
}

/// The factor map after a packet.
pub open spec fn factors_after(s: Stores, packet: Packet, active: Seq<u64>) -> Map<
    u64,
    Seq<StoredObservation>,
> {
    let observations = packet.observations@;
    Map::new(
        |t: u64|
            s.factors.contains_key(t) || created(packet, t) || (observes(observations, t) && live(
                s.landmarks,
                t,
            )),
        |t: u64|
            if created(packet, t) {
                new_factors(s.history, observations, active, t)
            } else if observes(observations, t) && live(s.landmarks, t) {
                extended_factors(s.factors, observations, active, t)
            } else {
                s.factors[t]
            },
    )
}

/// The landmarks after a packet: an observed one is active again and associated once for each
/// observation, and a new one is hosted in the first camera of the frame and associated once for
/// each of its candidates.
pub open spec fn landmarks_after(s: Stores, packet: Packet) -> Map<u64, LandmarkRecord> {
    let observations = packet.observations@;
    Map::new(
        |t: u64| s.landmarks.contains_key(t) || created(packet, t),
        |t: u64|
            if created(packet, t) {
                associated_times(
                    new_landmark(packet.frame_id, 0),
                    complete_history(s.history, observations, t).len(),
                )
            } else if observes(observations, t) && live(s.landmarks, t) {
                associated_times(s.landmarks[t], entries(observations, t).len())
            } else {
                s.landmarks[t]
            },
    )
}

/// The associations that the observed landmarks gain.
pub open spec fn observed_associations(
    landmarks: Map<u64, LandmarkRecord>,
    observations: Seq<TrackObservation>,
) -> Seq<AssociatedFrame> {
    observations.filter(|o: TrackObservation| live(landmarks, o.track_id)).map_values(
        |o: TrackObservation|
            AssociatedFrame { landmark_id: o.track_id, frame_id: o.frame_id },
    )
}

/// The associations that one new landmark gains.
pub open spec fn candidate_associations(ordered: Seq<TrackHistory>, track_id: u64) -> Seq<
    AssociatedFrame,
> {
    ordered.map_values(
        |h: TrackHistory| AssociatedFrame { landmark_id: track_id, frame_id: h.frame_id },
    )
}

/// The associations that the new landmarks of a list of tracks gain.
pub open spec fn new_associations(
    history: Map<u64, Seq<TrackHistory>>,
    observations: Seq<TrackObservation>,
    tracks: Seq<u64>,
) -> Seq<AssociatedFrame>
    decreases tracks.len(),
{
    if tracks.len() == 0 {
        Seq::empty()
    } else {
        new_associations(history, observations, tracks.drop_last()) + candidate_associations(
            candidates(complete_history(history, observations, tracks.last())),
            tracks.last(),
        )
    }
}

/// The hosts after one more entered: one frame and camera is listed once, with its latest time.
pub open spec fn host_entered(hosts: Seq<HostKey>, key: HostKey) -> Seq<HostKey> {
    hosts.filter(|h: HostKey| h.frame_id != key.frame_id || h.camera_id != key.camera_id).push(key)
}

/// The stores after a packet that does nothing wrong.
pub open spec fn stores_after(s: Stores, packet: Packet, active: Seq<u64>) -> Stores {
    let made = created_tracks(packet, packet.tracks@.len());
    Stores {
        history: history_after(s.history, packet.observations@),
        factors: factors_after(s, packet, active),
        landmarks: landmarks_after(s, packet),
        associations: s.associations + observed_associations(s.landmarks, packet.observations@)
            + new_associations(s.history, packet.observations@, made),
        world: s.world.union(Set::new(|t: u64| created(packet, t))),
        hosts: if made.len() == 0 {
            s.hosts
        } else {
            host_entered(
                s.hosts,
                HostKey {
                    frame_id: packet.frame_id,
                    camera_id: 0,
                    timestamp_ns: packet.timestamp_ns,
                },
            )
        },
    }
}

proof fn entries_next(observations: Seq<TrackObservation>, i: int, t: u64)
    requires
        0 <= i < observations.len(),
    ensures
        entries(observations.take(i + 1), t) == if observations[i].track_id == t {
            entries(observations.take(i), t).push(entry(observations[i]))
        } else {
            entries(observations.take(i), t)
        },
        observes(observations.take(i + 1), t) <==> observes(observations.take(i), t)
            || observations[i].track_id == t,
{
    let keep = |o: TrackObservation| o.track_id == t;
    let f = |o: TrackObservation| entry(o);
    filter_next(observations, keep, i);
    let p = observations.take(i);
    let q = observations.take(i + 1);
    if observations[i].track_id == t {
        assert(q.filter(keep).map_values(f) =~= p.filter(keep).map_values(f).push(
            entry(observations[i]),
        ));
        assert(q[i].track_id == t);
    }
    if observes(p, t) {
        let j = choose|j: int| 0 <= j < p.len() && (#[trigger] p[j]).track_id == t;
        assert(q[j].track_id == t);
    }
    if observes(q, t) && observations[i].track_id != t {
        let j = choose|j: int| 0 <= j < q.len() && (#[trigger] q[j]).track_id == t;
        assert(p[j].track_id == t);
    }
}

proof fn entries_none(observations: Seq<TrackObservation>, t: u64)
    requires
        !observes(observations, t),
    ensures
        entries(observations, t) == Seq::<TrackHistory>::empty(),
{
    let keep = |o: TrackObservation| o.track_id == t;
    assert forall|i: int| 0 <= i < observations.len() implies !keep(#[trigger] observations[i]) by {}
    observations.lemma_all_neg_filter_empty(keep);
    assert(entries(observations, t) =~= Seq::<TrackHistory>::empty());
}

/// The history entries that a packet adds to a track.
fn packet_entries(observations: &Vec<TrackObservation>, track_id: u64) -> (added: Vec<TrackHistory>)
    ensures
        added@ == entries(observations@, track_id),
{
    let mut added: Vec<TrackHistory> = Vec::new();
    proof {
        reveal(Seq::filter);
        assert(entries(observations@.take(0), track_id) =~= Seq::empty());
    }
    for i in 0..observations.len()
        invariant
            added@ == entries(observations@.take(i as int), track_id),
    {
        proof {
            entries_next(observations@, i as int, track_id);
        }
        let o = observations[i];
        if o.track_id == track_id {
            added.push(
                TrackHistory {
                    frame_id: o.frame_id,
                    camera_id: o.camera_id,
                    timestamp_ns: o.timestamp_ns,
                    pixel: o.pixel,
                },
            );
        }
    }
    assert(observations@.take(observations@.len() as int) =~= observations@);
    added
}

/// Whether every candidate of a track has a camera and a bearing.
fn has_candidate_bearings(ordered: &Vec<TrackHistory>, bearings: &Vec<bool>, cameras: usize) -> (
    result: bool)
    requires
        ordered@.len() == bearings@.len(),
    ensures
        result == candidate_bearings(ordered@, bearings@, cameras as nat),
{
    for i in 0..ordered.len()
        invariant
            ordered@.len() == bearings@.len(),
            forall|j: int| 0 <= j < i ==> (#[trigger] ordered@[j]).camera_id < cameras,
            forall|j: int| 0 <= j < i ==> #[trigger] bearings@[j],
    {
        let camera: usize = ordered[i].camera_id as usize;
        if camera >= cameras || !bearings[i] {
            assert(!(ordered@[i as int].camera_id < cameras && bearings@[i as int]));
            return false;
        }
    }
    true
}

/// One landmark that a packet creates, with its candidates.
struct Prepared {
    track_id: u64,
    ordered: Vec<TrackHistory>,
}

spec fn prepared_ids(prepared: Seq<Prepared>) -> Seq<u64> {
    prepared.map_values(|p: Prepared| p.track_id)
}

impl TrackStore {
    /// Empty stores.
    pub fn new() -> (store: TrackStore)
        ensures
            store@ == (Stores {
                history: Map::empty(),
                factors: Map::empty(),
                landmarks: Map::empty(),
                associations: Seq::empty(),
                world: Set::empty(),
                hosts: Seq::empty(),
            }),
    {
        let store = TrackStore {
            track_history: BTreeMap::new(),
            window_observations: BTreeMap::new(),
            landmarks: ObservationDb::new(),
            landmark_world: BTreeSet::new(),
            native_host_keys: Vec::new(),
        };
        assert(store@.history =~= Map::empty());
        assert(store@.factors =~= Map::empty());
        store
    }

    fn complete(&self, observations: &Vec<TrackObservation>, track_id: u64) -> (complete: Vec<
        TrackHistory,
    >)
        ensures
            complete@ == complete_history(self@.history, observations@, track_id),
    {
        let mut complete = crate::ordered::copy_list_of(&self.track_history, track_id);
        let mut added = packet_entries(observations, track_id);
        complete.append(&mut added);
        complete
    }

    /// The candidates from which a track can be triangulated, in their order: its history and what
    /// the packet adds to it.
    pub fn candidates_of(&self, observations: &Vec<TrackObservation>, track_id: u64) -> (ordered:
        Vec<TrackHistory>)
        ensures
            ordered@ == candidates(complete_history(self@.history, observations@, track_id)),
    {
        candidate_sort(&self.complete(observations, track_id))
    }

    /// The tracks that the packet observes in the first camera and that have no landmark, in the
    /// order in which the packet names them.
    pub fn unconnected_tracks(&self, observations: &Vec<TrackObservation>) -> (tracks: Vec<u64>)
        ensures
            tracks@.no_duplicates(),
            forall|t: u64| #[trigger]
                tracks@.contains(t) <==> unconnected(self@.landmarks, observations@, t),
    {
        let mut tracks: Vec<u64> = Vec::new();
        for i in 0..observations.len()
            invariant
                tracks@.no_duplicates(),
                forall|t: u64| #[trigger]
                    tracks@.contains(t) <==> unconnected(
                        self@.landmarks,
                        observations@.take(i as int),
                        t,
                    ),
        {
            let o = observations[i];
            let ghost before = tracks@;
            if o.camera_id == 0 && !self.landmarks.is_live(o.track_id) && !contains_id(
                &tracks,
                o.track_id,
            ) {
                tracks.push(o.track_id);
            }
            proof {
                let p = observations@.take(i as int);
                let q = observations@.take(i + 1);
                assert forall|t: u64| #[trigger] tracks@.contains(t) <==> unconnected(
                    self@.landmarks,
                    q,
                    t,
                ) by {
                    vstd::seq_lib::lemma_seq_contains_after_push(before, o.track_id, t);
                    if unconnected(self@.landmarks, p, t) {
                        let j = choose|j: int|
                            0 <= j < p.len() && (#[trigger] p[j]).track_id == t && p[j].camera_id
                                == 0;
                        assert(q[j].track_id == t);
                    }
                    if unconnected(self@.landmarks, q, t) {
                        let j = choose|j: int|
                            0 <= j < q.len() && (#[trigger] q[j]).track_id == t && q[j].camera_id
                                == 0;
                        if j < i {
                            assert(p[j].track_id == t);
                        } else {
                            assert(o.track_id == t && o.camera_id == 0);
                        }
                    }
                    if o.camera_id == 0 && o.track_id == t {
                        assert(q[i as int].track_id == t);
                    }
                }
            }
        }
        assert(observations@.take(observations@.len() as int) =~= observations@);
        tracks
    }

    fn bearing_stage(packet: &Packet, cameras: usize) -> (result: Result<(), EstimatorError>)
        requires
            packet.bearings@.len() == packet.observations@.len(),
        ensures
            match first_error(
                |i: int| bearing_error_at(*packet, cameras as nat, i),
                packet.observations@.len(),
            ) {
                Some(e) => result == Err::<(), EstimatorError>(e),
                None => result is Ok,
            },
    {
        let ghost at = |i: int| bearing_error_at(*packet, cameras as nat, i);
        for i in 0..packet.observations.len()
            invariant
                packet.bearings@.len() == packet.observations@.len(),
                at == (|i: int| bearing_error_at(*packet, cameras as nat, i)),
                forall|j: int| 0 <= j < i ==> #[trigger] at(j) is None,
        {
            let camera: usize = packet.observations[i].camera_id as usize;
            if camera >= cameras || !packet.bearings[i].bearing {
                assert(at(i as int) == Some(EstimatorError::Bearing));
                proof {
                    first_error_is_first(at, packet.observations@.len(), i as int);
                }
                return Err(EstimatorError::Bearing);
            }
            if !packet.bearings[i].raw {
                assert(at(i as int) == Some(EstimatorError::RawBearing));
                proof {
                    first_error_is_first(at, packet.observations@.len(), i as int);
                }
                return Err(EstimatorError::RawBearing);
            }
            assert(at(i as int) is None);
        }
        proof {
            no_error_before(at, packet.observations@.len());
        }
        Ok(())
    }

    fn history_stage(&self, observations: &Vec<TrackObservation>) -> (result: Result<
        (),
        EstimatorError,
    >)
        ensures
            match first_error(
                |i: int| retained_error_at(self@.history, observations@, i),
                observations@.len(),
            ) {
                Some(e) => result == Err::<(), EstimatorError>(e),
                None => result is Ok,
            },
    {
        let ghost at = |i: int| retained_error_at(self@.history, observations@, i);
        for i in 0..observations.len()
            invariant
                at == (|i: int| retained_error_at(self@.history, observations@, i)),
                forall|j: int| 0 <= j < i ==> #[trigger] at(j) is None,
        {
            let o = observations[i];
            let h = crate::ordered::copy_list_of(&self.track_history, o.track_id);
            match validate_track_history_identity(&h) {
                Err(e) => {
                    assert(at(i as int) == Some(e));
                    proof {
                        first_error_is_first(at, observations@.len(), i as int);
                    }
                    return Err(e);
                },
                Ok(()) => {},
            }
            for k in 0..h.len()
                invariant
                    i < observations@.len(),
                    o == observations@[i as int],
                    h@ == list_of(self@.history, o.track_id),
                    history_error(h@) is None,
                    at == (|i: int| retained_error_at(self@.history, observations@, i)),
                    forall|j: int| 0 <= j < i ==> #[trigger] at(j) is None,
                    forall|j: int|
                        0 <= j < k ==> !((#[trigger] h@[j]).frame_id == o.frame_id
                            && h@[j].camera_id == o.camera_id),
            {
                if h[k].frame_id == o.frame_id && h[k].camera_id == o.camera_id {
                    let e = EstimatorError::RetainedObservation {
                        track_id: o.track_id,
                        frame_id: o.frame_id,
                        camera_id: o.camera_id,
                    };
                    assert(at(i as int) == Some(e));
                    proof {
                        first_error_is_first(at, observations@.len(), i as int);
                    }
                    return Err(e);
                }
            }
            assert(at(i as int) is None);
        }
        proof {
            no_error_before(at, observations@.len());
        }
        Ok(())
    }

    fn factor_map_stage(&self) -> (result: Result<(), EstimatorError>)
        ensures
            match factor_map_error(self@) {
                Some(e) => result == Err::<(), EstimatorError>(e),
                None => result is Ok,
            },
    {
        let tracks = map_keys(&self.window_observations);
        let ghost s = self@;
        assert(s.factors.dom() =~= self.window_observations@.dom());
        let ghost at = |i: int|
            factor_error(tracks@[i], s.factors[tracks@[i]], list_of(s.history, tracks@[i]));
        for i in 0..tracks.len()
            invariant
                s == self@,
                tracks@ == ascending(s.factors.dom()),
                tracks@.to_set() == self.window_observations@.dom(),
                at == (|i: int|
                    factor_error(
                        tracks@[i],
                        s.factors[tracks@[i]],
                        list_of(s.history, tracks@[i]),
                    )),
                forall|j: int| 0 <= j < i ==> #[trigger] at(j) is None,
        {
            let track: u64 = tracks[i];
            assert(tracks@.to_set().contains(track));
            let h = crate::ordered::copy_list_of(&self.track_history, track);
            let records = match self.window_observations.get(&track) {
                Some(records) => records,
                None => {
                    assert(false);
                    return Ok(());
                },
            };
            assert(records@ == s.factors[track]);
            match validate_factor_observation_records(track, records, &h) {
                Err(e) => {
                    assert(at(i as int) == Some(e));
                    proof {
                        first_error_is_first(at, tracks@.len(), i as int);
                    }
                    return Err(e);
                },
                Ok(()) => {},
            }
            assert(at(i as int) is None);
        }
        proof {
            no_error_before(at, tracks@.len());
        }
        Ok(())
    }

    fn current_factor_stage(&self, observations: &Vec<TrackObservation>) -> (result: Result<
        (),
        EstimatorError,
    >)
        ensures
            match first_error(
                |i: int| current_factor_error_at(self@.factors, observations@, i),
                observations@.len(),
            ) {
                Some(e) => result == Err::<(), EstimatorError>(e),
                None => result is Ok,
            },
    {
        let ghost at = |i: int| current_factor_error_at(self@.factors, observations@, i);
        for i in 0..observations.len()
            invariant
                at == (|i: int| current_factor_error_at(self@.factors, observations@, i)),
                forall|j: int| 0 <= j < i ==> #[trigger] at(j) is None,
        {
            let o = observations[i];
            let f = crate::ordered::copy_list_of(&self.window_observations, o.track_id);
            for k in 0..f.len()
                invariant
                    i < observations@.len(),
                    o == observations@[i as int],
                    f@ == list_of(self@.factors, o.track_id),
                    at == (|i: int| current_factor_error_at(self@.factors, observations@, i)),
                    forall|j: int| 0 <= j < i ==> #[trigger] at(j) is None,
                    forall|j: int|
                        0 <= j < k ==> !((#[trigger] f@[j]).frame_id == o.frame_id
                            && f@[j].camera_id == o.camera_id),
            {
                if f[k].frame_id == o.frame_id && f[k].camera_id == o.camera_id {
                    let e = EstimatorError::CurrentFactor {
                        track_id: o.track_id,
                        frame_id: o.frame_id,
                        camera_id: o.camera_id,
                    };
                    assert(at(i as int) == Some(e));
                    proof {
                        first_error_is_first(at, observations@.len(), i as int);
                    }
                    return Err(e);
                }
            }
            assert(at(i as int) is None);
        }
        proof {
            no_error_before(at, observations@.len());
        }
        Ok(())
    }

    /// Checks a packet against the stores before any track is triangulated.
    pub fn preflight(&self, packet: &Packet, cameras: usize) -> (result: Result<(), EstimatorError>)
        requires
            packet.bearings@.len() == packet.observations@.len(),
        ensures
            match preflight_error(self@, *packet, cameras as nat) {
                Some(e) => result == Err::<(), EstimatorError>(e),
                None => result is Ok,
            },
    {
        match validate_current_observation_identities(
            packet.frame_id,
            packet.timestamp_ns,
            &packet.observations,
        ) {
            Err(e) => return Err(e),
            Ok(()) => {},
        }
        match Self::bearing_stage(packet, cameras) {
            Err(e) => return Err(e),
            Ok(()) => {},
        }
        match self.history_stage(&packet.observations) {
            Err(e) => return Err(e),
            Ok(()) => {},
        }
        match self.factor_map_stage() {
            Err(e) => return Err(e),
            Ok(()) => {},
        }
        self.current_factor_stage(&packet.observations)
    }

    /// Checks the unconnected tracks of a keyframe packet and lists the landmarks they give.
    fn prepare(&self, packet: &Packet, cameras: usize) -> (result: Result<
        Vec<Prepared>,
        EstimatorError,
    >)
        requires
            packet.is_keyframe,
            measures_tracks(self@, *packet),
        ensures
            match first_error(
                |k: int| track_error_at(self@.history, *packet, cameras as nat, k),
                packet.tracks@.len(),
            ) {
                Some(e) => result == Err::<Vec<Prepared>, EstimatorError>(e),
                None => {
                    &&& result is Ok
                    &&& prepared_ids(result->Ok_0@) == created_tracks(*packet, packet.tracks@.len())
                    &&& forall|j: int|
                        0 <= j < result->Ok_0@.len() ==> (#[trigger] result->Ok_0@[j]).ordered@
                            == candidates(
                            complete_history(
                                self@.history,
                                packet.observations@,
                                result->Ok_0@[j].track_id,
                            ),
                        )
                },
            },
    {
        let ghost at = |k: int| track_error_at(self@.history, *packet, cameras as nat, k);
        let mut prepared: Vec<Prepared> = Vec::new();
        assert(prepared_ids(prepared@) =~= created_tracks(*packet, 0));
        for k in 0..packet.tracks.len()
            invariant
                packet.is_keyframe,
                measures_tracks(self@, *packet),
                at == (|k: int| track_error_at(self@.history, *packet, cameras as nat, k)),
                forall|j: int| 0 <= j < k ==> #[trigger] at(j) is None,
                prepared_ids(prepared@) == created_tracks(*packet, k as nat),
                forall|j: int|
                    0 <= j < prepared@.len() ==> (#[trigger] prepared@[j]).ordered@ == candidates(
                        complete_history(
                            self@.history,
                            packet.observations@,
                            prepared@[j].track_id,
                        ),
                    ),
        {
            let track = &packet.tracks[k];
            let complete = self.complete(&packet.observations, track.track_id);
            match validate_track_history_identity(&complete) {
                Err(e) => {
                    assert(at(k as int) == Some(e));
                    proof {
                        first_error_is_first(at, packet.tracks@.len(), k as int);
                    }
                    return Err(e);
                },
                Ok(()) => {},
            }
            let ordered = candidate_sort(&complete);
            proof {
                candidates_are_ordered(complete@);
            }
            if !has_candidate_bearings(&ordered, &track.bearings, cameras) {
                assert(at(k as int) == Some(EstimatorError::HistoryBearing));
                proof {
                    first_error_is_first(at, packet.tracks@.len(), k as int);
                }
                return Err(EstimatorError::HistoryBearing);
            }
            assert(at(k as int) is None);
            let ghost before = prepared@;
            if is_triangulated(track) {
                prepared.push(Prepared { track_id: track.track_id, ordered });
                assert(prepared_ids(prepared@) =~= prepared_ids(before).push(track.track_id));
            }
        }
        proof {
            no_error_before(at, packet.tracks@.len());
        }
        Ok(prepared)
    }

    /// Whether each observation belongs to a track that has a landmark.
    fn connected_flags(&self, observations: &Vec<TrackObservation>) -> (flags: Vec<bool>)
        ensures
            flags@.len() == observations@.len(),
            forall|i: int|
                0 <= i < flags@.len() ==> #[trigger] flags@[i] == live(
                    self@.landmarks,
                    observations@[i].track_id,
                ),
    {
        let mut flags: Vec<bool> = Vec::new();
        for i in 0..observations.len()
            invariant
                flags@.len() == i,
                forall|j: int|
                    0 <= j < i ==> #[trigger] flags@[j] == live(
                        self@.landmarks,
                        observations@[j].track_id,
                    ),
        {
            flags.push(self.landmarks.is_live(observations[i].track_id));
        }
        flags
    }
}

/// The stores after the observed tracks, before any new landmark.
spec fn observed_after(s: Stores, observations: Seq<TrackObservation>, active: Seq<u64>) -> Stores {
    Stores {
        history: history_after(s.history, observations),
        factors: Map::new(
            |t: u64| s.factors.contains_key(t) || (observes(observations, t) && live(s.landmarks, t)),
            |t: u64|
                if observes(observations, t) && live(s.landmarks, t) {
                    extended_factors(s.factors, observations, active, t)
                } else {
                    s.factors[t]
                },
        ),
        landmarks: Map::new(
            |t: u64| s.landmarks.contains_key(t),
            |t: u64|
                if observes(observations, t) && live(s.landmarks, t) {
                    associated_times(s.landmarks[t], entries(observations, t).len())
                } else {
                    s.landmarks[t]
                },
        ),
        associations: s.associations + observed_associations(s.landmarks, observations),
        world: s.world,
        hosts: s.hosts,
    }
}

proof fn observed_associations_next(
    landmarks: Map<u64, LandmarkRecord>,
    observations: Seq<TrackObservation>,
    i: int,
)
    requires
        0 <= i < observations.len(),
    ensures
        observed_associations(landmarks, observations.take(i + 1)) == if live(
            landmarks,
            observations[i].track_id,
        ) {
            observed_associations(landmarks, observations.take(i)).push(
                AssociatedFrame {
                    landmark_id: observations[i].track_id,
                    frame_id: observations[i].frame_id,
                },
            )
        } else {
            observed_associations(landmarks, observations.take(i))
        },
{
    let keep = |o: TrackObservation| live(landmarks, o.track_id);
    let f = |o: TrackObservation|
        AssociatedFrame { landmark_id: o.track_id, frame_id: o.frame_id };
    filter_next(observations, keep, i);
    if live(landmarks, observations[i].track_id) {
        assert(observations.take(i + 1).filter(keep).map_values(f) =~= observations.take(
            i,
        ).filter(keep).map_values(f).push(f(observations[i])));
    }
}

proof fn observed_none(s: Stores, observations: Seq<TrackObservation>, active: Seq<u64>)
    requires
        observations.len() == 0,
    ensures
        observed_after(s, observations, active) == s,
{
    assert forall|t: u64| !observes(observations, t) by {}
    assert forall|t: u64| s.history.contains_key(t) implies #[trigger] complete_history(
        s.history,
        observations,
        t,
    ) == s.history[t] by {
        entries_none(observations, t);
        assert(complete_history(s.history, observations, t) =~= s.history[t]);
    }
    let r = observed_after(s, observations, active);
    assert(r.history =~= s.history);
    assert(r.factors =~= s.factors);
    assert(r.landmarks =~= s.landmarks);
    reveal(Seq::filter);
    assert(observed_associations(s.landmarks, observations) =~= Seq::empty());
    assert(r.associations =~= s.associations);
}

/// One observation more: the history grows by its entry, and where the track has a landmark, its
/// factor records grow and are cut down to the active frames and it is associated once more.
proof fn observed_step(s: Stores, observations: Seq<TrackObservation>, active: Seq<u64>, i: int)
    requires
        0 <= i < observations.len(),
    ensures
        ({
            let o = observations[i];
            let t = o.track_id;
            let a = observed_after(s, observations.take(i), active);
            let b = observed_after(s, observations.take(i + 1), active);
            let keep = |r: StoredObservation| active.contains(r.frame_id);
            &&& b.history == a.history.insert(t, list_of(a.history, t).push(entry(o)))
            &&& live(s.landmarks, t) ==> {
                &&& a.landmarks.contains_key(t)
                &&& b.factors == a.factors.insert(
                    t,
                    list_of(a.factors, t).push(stored(entry(o))).filter(keep),
                )
                &&& b.landmarks == a.landmarks.insert(t, associated(a.landmarks[t]))
                &&& b.associations == a.associations.push(
                    AssociatedFrame { landmark_id: t, frame_id: o.frame_id },
                )
            }
            &&& !live(s.landmarks, t) ==> {
                &&& b.factors == a.factors
                &&& b.landmarks == a.landmarks
                &&& b.associations == a.associations
            }
        }),
{
    entries_change(observations, i);
    observed_history_step(s, observations, active, i);
    observed_associations_next(s.landmarks, observations, i);
    let t = observations[i].track_id;
    let a = observed_after(s, observations.take(i), active);
    let b = observed_after(s, observations.take(i + 1), active);
    if live(s.landmarks, t) {
        observed_factors_step(s, observations, active, i);
        observed_landmarks_step(s, observations, active, i);
        assert(b.associations =~= a.associations.push(
            AssociatedFrame { landmark_id: t, frame_id: observations[i].frame_id },
        ));
    } else {
        assert(b.factors =~= a.factors) by {
            assert forall|u: u64| #[trigger] live(s.landmarks, u) && observes(
                observations.take(i + 1),
                u,
            ) implies entries(observations.take(i + 1), u) == entries(observations.take(i), u) by {
                entries_next(observations, i, u);
            }
            assert forall|u: u64| #[trigger] live(s.landmarks, u) implies observes(
                observations.take(i + 1),
                u,
            ) == observes(observations.take(i), u) by {
                entries_next(observations, i, u);
            }
        }
        assert(b.landmarks =~= a.landmarks) by {
            assert forall|u: u64| #[trigger] live(s.landmarks, u) implies entries(
                observations.take(i + 1),
                u,
            ) == entries(observations.take(i), u) && observes(observations.take(i + 1), u)
                == observes(observations.take(i), u) by {
                entries_next(observations, i, u);
            }
        }
    }
}

proof fn entries_change(observations: Seq<TrackObservation>, i: int)
    requires
        0 <= i < observations.len(),
    ensures
        forall|u: u64|
            #![trigger entries(observations.take(i + 1), u)]
            entries(observations.take(i + 1), u) == if observations[i].track_id == u {
                entries(observations.take(i), u).push(entry(observations[i]))
            } else {
                entries(observations.take(i), u)
            },
        forall|u: u64| #[trigger]
            observes(observations.take(i + 1), u) <==> observes(observations.take(i), u)
                || observations[i].track_id == u,
{
    assert forall|u: u64|
        #![trigger entries(observations.take(i + 1), u)]
        entries(observations.take(i + 1), u) == (if observations[i].track_id == u {
            entries(observations.take(i), u).push(entry(observations[i]))
        } else {
            entries(observations.take(i), u)
        }) by {
        entries_next(observations, i, u);
    }
    assert forall|u: u64| #[trigger]
        observes(observations.take(i + 1), u) <==> observes(observations.take(i), u)
            || observations[i].track_id == u by {
        entries_next(observations, i, u);
    }
}

proof fn observed_history_step(
    s: Stores,
    observations: Seq<TrackObservation>,
    active: Seq<u64>,
    i: int,
)
    requires
        0 <= i < observations.len(),
    ensures
        ({
            let o = observations[i];
            let a = observed_after(s, observations.take(i), active);
            let b = observed_after(s, observations.take(i + 1), active);
            b.history == a.history.insert(
                o.track_id,
                list_of(a.history, o.track_id).push(entry(o)),
            )
        }),
{
    let o = observations[i];
    let t = o.track_id;
    let p = observations.take(i);
    let q = observations.take(i + 1);
    let a = observed_after(s, p, active);
    let b = observed_after(s, q, active);
    entries_change(observations, i);
    if !observes(p, t) {
        entries_none(p, t);
    }
    assert(complete_history(s.history, q, t) =~= complete_history(s.history, p, t).push(entry(o)));
    assert(list_of(a.history, t) =~= complete_history(s.history, p, t));
    assert forall|u: u64| u != t implies #[trigger] complete_history(s.history, q, u)
        == complete_history(s.history, p, u) by {
        assert(entries(q, u) == entries(p, u));
    }
    assert(observes(q, t));
    assert(b.history =~= a.history.insert(t, list_of(a.history, t).push(entry(o))));
}

proof fn observed_factors_step(
    s: Stores,
    observations: Seq<TrackObservation>,
    active: Seq<u64>,
    i: int,
)
    requires
        0 <= i < observations.len(),
        live(s.landmarks, observations[i].track_id),
    ensures
        ({
            let o = observations[i];
            let a = observed_after(s, observations.take(i), active);
            let b = observed_after(s, observations.take(i + 1), active);
            b.factors == a.factors.insert(
                o.track_id,
                list_of(a.factors, o.track_id).push(stored(entry(o))).filter(
                    |r: StoredObservation| active.contains(r.frame_id),
                ),
            )
        }),
{
    let o = observations[i];
    let t = o.track_id;
    let p = observations.take(i);
    let q = observations.take(i + 1);
    let a = observed_after(s, p, active);
    let b = observed_after(s, q, active);
    let keep = |r: StoredObservation| active.contains(r.frame_id);
    let to_record = |h: TrackHistory| stored(h);
    entries_change(observations, i);
    if !observes(p, t) {
        entries_none(p, t);
    }
    let base = list_of(s.factors, t);
    let es = entries(p, t).map_values(to_record);
    assert(entries(q, t).map_values(to_record) =~= es.push(stored(entry(o))));
    assert(base + entries(q, t).map_values(to_record) =~= (base + es).push(stored(entry(o))));
    filter_append(base + es, stored(entry(o)), keep);
    if observes(p, t) {
        assert(list_of(a.factors, t) == (base + es).filter(keep));
    } else {
        assert(base + es =~= base);
        assert(list_of(a.factors, t) =~= base);
    }
    assert(observes(q, t));
    let changed = a.factors.insert(
        t,
        list_of(a.factors, t).push(stored(entry(o))).filter(keep),
    );
    assert(b.factors[t] == changed[t]);
    assert forall|u: u64| u != t && b.factors.contains_key(u) implies b.factors[u]
        == #[trigger] changed[u] by {
        assert(entries(q, u) == entries(p, u));
        assert(observes(q, u) == observes(p, u));
    }
    assert forall|u: u64| b.factors.contains_key(u) <==> #[trigger] changed.contains_key(u) by {
        assert(observes(q, u) == (observes(p, u) || u == t));
    }
    assert(b.factors =~= changed);
}

proof fn observed_landmarks_step(
    s: Stores,
    observations: Seq<TrackObservation>,
    active: Seq<u64>,
    i: int,
)
    requires
        0 <= i < observations.len(),
        live(s.landmarks, observations[i].track_id),
    ensures
        ({
            let t = observations[i].track_id;
            let a = observed_after(s, observations.take(i), active);
            let b = observed_after(s, observations.take(i + 1), active);
            &&& a.landmarks.contains_key(t)
            &&& b.landmarks == a.landmarks.insert(t, associated(a.landmarks[t]))
        }),
{
    let t = observations[i].track_id;
    let p = observations.take(i);
    let q = observations.take(i + 1);
    let a = observed_after(s, p, active);
    let b = observed_after(s, q, active);
    entries_change(observations, i);
    if !observes(p, t) {
        entries_none(p, t);
    }
    assert(observes(q, t));
    assert(entries(q, t).len() == entries(p, t).len() + 1);
    assert(a.landmarks[t] == associated_times(s.landmarks[t], entries(p, t).len()));
    assert(b.landmarks[t] == associated(a.landmarks[t]));
    assert forall|u: u64| u != t && b.landmarks.contains_key(u) implies b.landmarks[u]
        == #[trigger] a.landmarks[u] by {
        assert(entries(q, u) == entries(p, u));
        assert(observes(q, u) == observes(p, u));
    }
    assert(b.landmarks =~= a.landmarks.insert(t, associated(a.landmarks[t])));
}

/// The factor records on the active frames.
pub fn retain_active(records: &Vec<StoredObservation>, active: &Vec<u64>) -> (kept: Vec<
    StoredObservation,
>)
    ensures
        kept@ == records@.filter(|r: StoredObservation| active@.contains(r.frame_id)),
{
    let ghost keep = |r: StoredObservation| active@.contains(r.frame_id);
    let mut kept: Vec<StoredObservation> = Vec::new();
    proof {
        reveal(Seq::filter);
        assert(records@.take(0).filter(keep) =~= Seq::empty());
    }
    for i in 0..records.len()
        invariant
            keep == (|r: StoredObservation| active@.contains(r.frame_id)),
            kept@ == records@.take(i as int).filter(keep),
    {
        proof {
            filter_next(records@, keep, i as int);
        }
        let r = records[i];
        if contains_id(active, r.frame_id) {
            kept.push(r);
        }
    }
    assert(records@.take(records@.len() as int) =~= records@);
    kept
}

impl TrackStore {
    /// Commits the observations of a packet to the tracks that they observe.
    fn commit_observed(
        &mut self,
        observations: &Vec<TrackObservation>,
        connected: &Vec<bool>,
        active: &Vec<u64>,
    )
        requires
            connected@.len() == observations@.len(),
            forall|i: int|
                0 <= i < connected@.len() ==> #[trigger] connected@[i] == live(
                    old(self)@.landmarks,
                    observations@[i].track_id,
                ),
        ensures
            final(self)@ == observed_after(old(self)@, observations@, active@),
    {
        let ghost s = self@;
        proof {
            observed_none(s, observations@.take(0), active@);
        }
        for i in 0..observations.len()
            invariant
                s == old(self)@,
                connected@.len() == observations@.len(),
                forall|i: int|
                    0 <= i < connected@.len() ==> #[trigger] connected@[i] == live(
                        s.landmarks,
                        observations@[i].track_id,
                    ),
                self@ == observed_after(s, observations@.take(i as int), active@),
        {
            let o = observations[i];
            let ghost a = self@;
            proof {
                observed_step(s, observations@, active@, i as int);
            }
            let added = TrackHistory {
                frame_id: o.frame_id,
                camera_id: o.camera_id,
                timestamp_ns: o.timestamp_ns,
                pixel: o.pixel,
            };
            push_to(&mut self.track_history, o.track_id, added);
            if connected[i] {
                self.landmarks.associate(o.track_id, o.frame_id);
                let mut records = crate::ordered::copy_list_of(
                    &self.window_observations,
                    o.track_id,
                );
                records.push(stored_of(&added));
                let kept = retain_active(&records, active);
                self.window_observations.insert(o.track_id, kept);
                assert(lists(self.window_observations@) =~= a.factors.insert(o.track_id, kept@));
            }
            assert(self@ =~= observed_after(s, observations@.take(i + 1), active@));
        }
        assert(observations@.take(observations@.len() as int) =~= observations@);
    }

    /// Enters a host.
    fn enter_host(&mut self, key: HostKey)
        ensures
            final(self)@ == (Stores { hosts: host_entered(old(self)@.hosts, key), ..old(self)@ }),
    {
        let ghost keep = |h: HostKey|
            h.frame_id != key.frame_id || h.camera_id != key.camera_id;
        let mut kept: Vec<HostKey> = Vec::new();
        proof {
            reveal(Seq::filter);
            assert(self.native_host_keys@.take(0).filter(keep) =~= Seq::empty());
        }
        for i in 0..self.native_host_keys.len()
            invariant
                self == old(self),
                keep == (|h: HostKey| h.frame_id != key.frame_id || h.camera_id != key.camera_id),
                kept@ == self.native_host_keys@.take(i as int).filter(keep),
        {
            proof {
                filter_next(self.native_host_keys@, keep, i as int);
            }
            let h = self.native_host_keys[i];
            if h.frame_id != key.frame_id || h.camera_id != key.camera_id {
                kept.push(h);
            }
        }
        assert(self.native_host_keys@.take(self.native_host_keys@.len() as int)
            =~= self.native_host_keys@);
        kept.push(key);
        self.native_host_keys = kept;
        assert(self@ =~= (Stores { hosts: host_entered(old(self)@.hosts, key), ..old(self)@ }));
    }

    /// Enters one new landmark with its candidates.
    fn enter_landmark(&mut self, frame_id: u64, prepared: &Prepared, active: &Vec<u64>)
        ensures
            final(self)@ == (Stores {
                factors: old(self)@.factors.insert(
                    prepared.track_id,
                    prepared.ordered@.filter(
                        |h: TrackHistory| active@.contains(h.frame_id),
                    ).map_values(|h: TrackHistory| stored(h)),
                ),
                landmarks: old(self)@.landmarks.insert(
                    prepared.track_id,
                    associated_times(new_landmark(frame_id, 0), prepared.ordered@.len()),
                ),
                associations: old(self)@.associations + candidate_associations(
                    prepared.ordered@,
                    prepared.track_id,
                ),
                world: old(self)@.world.insert(prepared.track_id),
                ..old(self)@
            }),
    {
        let ghost s = self@;
        let t: u64 = prepared.track_id;
        self.landmark_world.insert(t);
        self.landmarks.insert(t, frame_id, 0);
        let ghost keep = |h: TrackHistory| active@.contains(h.frame_id);
        let ghost to_record = |h: TrackHistory| stored(h);
        let ghost to_frame = |h: TrackHistory|
            AssociatedFrame { landmark_id: t, frame_id: h.frame_id };
        let mut records: Vec<StoredObservation> = Vec::new();
        proof {
            reveal(Seq::filter);
            assert(prepared.ordered@.take(0).filter(keep).map_values(to_record) =~= Seq::empty());
            assert(candidate_associations(prepared.ordered@.take(0), t) =~= Seq::empty());
            assert(self@.associations =~= s.associations + candidate_associations(
                prepared.ordered@.take(0),
                t,
            ));
        }
        for i in 0..prepared.ordered.len()
            invariant
                t == prepared.track_id,
                keep == (|h: TrackHistory| active@.contains(h.frame_id)),
                to_record == (|h: TrackHistory| stored(h)),
                records@ == prepared.ordered@.take(i as int).filter(keep).map_values(to_record),
                self@.history == s.history,
                self@.factors == s.factors,
                self@.world == s.world.insert(t),
                self@.hosts == s.hosts,
                self@.landmarks == s.landmarks.insert(
                    t,
                    associated_times(new_landmark(frame_id, 0), i as nat),
                ),
                self@.associations == s.associations + candidate_associations(
                    prepared.ordered@.take(i as int),
                    t,
                ),
        {
            let h = prepared.ordered[i];
            let ghost before = records@;
            let ghost l = self@.landmarks;
            let ghost a = self@.associations;
            proof {
                filter_next(prepared.ordered@, keep, i as int);
            }
            if contains_id(active, h.frame_id) {
                records.push(stored_of(&h));
                assert(records@ =~= prepared.ordered@.take(i + 1).filter(keep).map_values(
                    to_record,
                ));
            }
            self.landmarks.associate(t, h.frame_id);
            proof {
                let next = AssociatedFrame { landmark_id: t, frame_id: h.frame_id };
                assert(candidate_associations(prepared.ordered@.take(i + 1), t)
                    =~= candidate_associations(prepared.ordered@.take(i as int), t).push(next));
                assert(self@.associations =~= s.associations + candidate_associations(
                    prepared.ordered@.take(i + 1),
                    t,
                ));
                assert(self@.landmarks =~= s.landmarks.insert(
                    t,
                    associated_times(new_landmark(frame_id, 0), (i + 1) as nat),
                ));
            }
        }
        assert(prepared.ordered@.take(prepared.ordered@.len() as int) =~= prepared.ordered@);
        let ghost kept = records@;
        self.window_observations.insert(t, records);
        assert(self@.factors =~= s.factors.insert(t, kept));
    }
}

/// The stores after the first new landmarks, on top of the observed tracks.
spec fn created_after(
    s: Stores,
    observations: Seq<TrackObservation>,
    frame_id: u64,
    active: Seq<u64>,
    made: Seq<u64>,
) -> Stores {
    let a = observed_after(s, observations, active);
    Stores {
        history: a.history,
        factors: Map::new(
            |t: u64| a.factors.contains_key(t) || made.contains(t),
            |t: u64|
                if made.contains(t) {
                    new_factors(s.history, observations, active, t)
                } else {
                    a.factors[t]
                },
        ),
        landmarks: Map::new(
            |t: u64| a.landmarks.contains_key(t) || made.contains(t),
            |t: u64|
                if made.contains(t) {
                    associated_times(
                        new_landmark(frame_id, 0),
                        complete_history(s.history, observations, t).len(),
                    )
                } else {
                    a.landmarks[t]
                },
        ),
        associations: a.associations + new_associations(s.history, observations, made),
        world: a.world.union(made.to_set()),
        hosts: a.hosts,
    }
}

proof fn created_tracks_members(packet: Packet, n: nat)
    requires
        n <= packet.tracks@.len(),
        packet.is_keyframe,
    ensures
        forall|t: u64| #[trigger]
            created_tracks(packet, n).contains(t) <==> exists|k: int|
                0 <= k < n && (#[trigger] packet.tracks@[k]).track_id == t && triangulated(
                    packet.tracks@[k],
                ),
    decreases n,
{
    if n > 0 {
        created_tracks_members(packet, (n - 1) as nat);
        let before = created_tracks(packet, (n - 1) as nat);
        let last = packet.tracks@[n - 1];
        assert forall|t: u64| #[trigger] created_tracks(packet, n).contains(t) <==> exists|k: int|
            0 <= k < n && (#[trigger] packet.tracks@[k]).track_id == t && triangulated(
                packet.tracks@[k],
            ) by {
            vstd::seq_lib::lemma_seq_contains_after_push(before, last.track_id, t);
            assert(before.contains(t) <==> exists|k: int|
                0 <= k < n - 1 && (#[trigger] packet.tracks@[k]).track_id == t && triangulated(
                    packet.tracks@[k],
                ));
        }
    }
}

/// The tracks that become landmarks are those that the packet creates.
pub proof fn created_tracks_are_created(packet: Packet)
    ensures
        forall|t: u64| #[trigger]
            created_tracks(packet, packet.tracks@.len()).contains(t) <==> created(packet, t),
{
    if packet.is_keyframe {
        created_tracks_members(packet, packet.tracks@.len());
    }
}

impl TrackStore {
    fn commit_created(
        &mut self,
        Ghost(s): Ghost<Stores>,
        packet: &Packet,
        prepared: &Vec<Prepared>,
        active: &Vec<u64>,
    )
        requires
            old(self)@ == observed_after(s, packet.observations@, active@),
            forall|j: int|
                0 <= j < prepared@.len() ==> (#[trigger] prepared@[j]).ordered@ == candidates(
                    complete_history(s.history, packet.observations@, prepared@[j].track_id),
                ),
        ensures
            final(self)@ == (Stores {
                hosts: if prepared@.len() == 0 {
                    s.hosts
                } else {
                    host_entered(
                        s.hosts,
                        HostKey {
                            frame_id: packet.frame_id,
                            camera_id: 0,
                            timestamp_ns: packet.timestamp_ns,
                        },
                    )
                },
                ..created_after(
                    s,
                    packet.observations@,
                    packet.frame_id,
                    active@,
                    prepared_ids(prepared@),
                )
            }),
    {
        let ghost obs = packet.observations@;
        let ghost ids = prepared_ids(prepared@);
        let ghost a = self@;
        if prepared.len() > 0 {
            self.enter_host(
                HostKey {
                    frame_id: packet.frame_id,
                    camera_id: 0,
                    timestamp_ns: packet.timestamp_ns,
                },
            );
        }
        let ghost hosts = self@.hosts;
        proof {
            let none = created_after(s, obs, packet.frame_id, active@, ids.take(0));
            assert(none.factors =~= a.factors);
            assert(none.landmarks =~= a.landmarks);
            assert(none.associations =~= a.associations);
            assert(none.world =~= a.world);
            assert(self@ =~= (Stores { hosts, ..none }));
        }
        for j in 0..prepared.len()
            invariant
                obs == packet.observations@,
                ids == prepared_ids(prepared@),
                forall|j: int|
                    0 <= j < prepared@.len() ==> (#[trigger] prepared@[j]).ordered@ == candidates(
                        complete_history(s.history, obs, prepared@[j].track_id),
                    ),
                self@ == (Stores {
                    hosts,
                    ..created_after(s, obs, packet.frame_id, active@, ids.take(j as int))
                }),
        {
            let ghost b = created_after(s, obs, packet.frame_id, active@, ids.take(j as int));
            self.enter_landmark(packet.frame_id, &prepared[j], active);
            proof {
                let t = prepared@[j as int].track_id;
                let made = ids.take(j as int);
                let next = ids.take(j + 1);
                assert(next =~= made.push(t));
                assert(next.drop_last() =~= made);
                assert forall|u: u64| #[trigger] next.contains(u) <==> made.contains(u) || u == t by {
                    vstd::seq_lib::lemma_seq_contains_after_push(made, t, u);
                }
                made.lemma_push_to_set_commute(t);
                candidates_are_ordered(complete_history(s.history, obs, t));
                let c = created_after(s, obs, packet.frame_id, active@, next);
                assert(self@.factors =~= c.factors);
                assert(self@.landmarks =~= c.landmarks);
                assert(self@.associations =~= c.associations);
                assert(self@.world =~= c.world);
                assert(self@ =~= (Stores { hosts, ..c }));
            }
        }
        assert(ids.take(ids.len() as int) =~= ids);
    }

    /// Takes one packet into the stores. `active` lists the frames of the window and the frame of
    /// the packet. Either every check passes and all stores change together, or nothing changes.
    pub fn collect(&mut self, packet: &Packet, cameras: usize, active: &Vec<u64>) -> (result: Result<
        usize,
        EstimatorError,
    >)
        requires
            packet.bearings@.len() == packet.observations@.len(),
            preflight_error(old(self)@, *packet, cameras as nat) is None && packet.is_keyframe
                ==> measures_tracks(old(self)@, *packet),
        ensures
            match collect_error(old(self)@, *packet, cameras as nat) {
                Some(e) => result == Err::<usize, EstimatorError>(e) && *final(self) == *old(self),
                None => {
                    &&& final(self)@ == stores_after(old(self)@, *packet, active@)
                    &&& result == Ok::<usize, EstimatorError>(
                        created_tracks(*packet, packet.tracks@.len()).len() as usize,
                    )
                    &&& created_tracks(*packet, packet.tracks@.len()).len() <= packet.tracks@.len()
                },
            },
    {
        let ghost s = self@;
        match self.preflight(packet, cameras) {
            Err(e) => return Err(e),
            Ok(()) => {},
        }
        let prepared: Vec<Prepared> = if packet.is_keyframe {
            match self.prepare(packet, cameras) {
                Err(e) => return Err(e),
                Ok(prepared) => prepared,
            }
        } else {
            Vec::new()
        };
        let ghost made = created_tracks(*packet, packet.tracks@.len());
        assert(prepared_ids(prepared@) =~= made);
        let connected = self.connected_flags(&packet.observations);
        self.commit_observed(&packet.observations, &connected, active);
        self.commit_created(Ghost(s), packet, &prepared, active);
        proof {
            created_tracks_are_created(*packet);
            created_tracks_len(*packet, packet.tracks@.len());
            let b = created_after(s, packet.observations@, packet.frame_id, active@, made);
            let c = stores_after(s, *packet, active@);
            assert forall|t: u64| created(*packet, t) == made.to_set().contains(t) by {
                assert(made.contains(t) == made.to_set().contains(t));
            }
            assert(b.world =~= c.world);
            assert(b.factors =~= c.factors);
            assert(b.landmarks =~= c.landmarks);
            assert(b.associations =~= c.associations);
            assert(self@ =~= c);
        }
        Ok(prepared.len())
    }
}

proof fn created_tracks_len(packet: Packet, n: nat)
    ensures
        created_tracks(packet, n).len() <= n,
    decreases n,
{
    if n > 0 {
        created_tracks_len(packet, (n - 1) as nat);
    }
}

proof fn filter_keeps_pairs<T>(s: Seq<T>, keep: spec_fn(T) -> bool, apart: spec_fn(T, T) -> bool)
    requires
        forall|i: int, j: int| 0 <= i < j < s.len() ==> apart(#[trigger] s[i], #[trigger] s[j]),
    ensures
        forall|i: int, j: int|
            0 <= i < j < s.filter(keep).len() ==> apart(
                #[trigger] s.filter(keep)[i],
                #[trigger] s.filter(keep)[j],
            ),
    decreases s.len(),
{
    reveal(Seq::filter);
    if s.len() > 0 {
        let front = s.drop_last();
        assert forall|i: int, j: int| 0 <= i < j < front.len() implies apart(
            #[trigger] front[i],
            #[trigger] front[j],
        ) by {
            assert(apart(s[i], s[j]));
        }
        filter_keeps_pairs(front, keep, apart);
        let kept = front.filter(keep);
        if keep(s.last()) {
            assert forall|i: int, j: int| 0 <= i < j < s.filter(keep).len() implies apart(
                #[trigger] s.filter(keep)[i],
                #[trigger] s.filter(keep)[j],
            ) by {
                if j == kept.len() {
                    crate::ordered::filter_members(front, keep);
                    assert(kept.contains(kept[i]));
                    let k = choose|k: int| 0 <= k < front.len() && front[k] == kept[i];
                    assert(apart(s[k], s[s.len() - 1]));
                } else {
                    assert(apart(kept[i], kept[j]));
                }
            }
        }
    }
}

proof fn candidates_keep_distinct(s: Seq<TrackHistory>)
    requires
        distinct_history(s),
    ensures
        distinct_history(candidates(s)),
    decreases s.len(),
{
    if s.len() > 0 {
        let front = s.drop_last();
        let x = s.last();
        assert forall|i: int, j: int| 0 <= i < j < front.len() implies (
        #[trigger] front[i]).frame_id != (#[trigger] front[j]).frame_id || front[i].camera_id
            != front[j].camera_id by {
            assert(s[i] == front[i] && s[j] == front[j]);
        }
        candidates_keep_distinct(front);
        candidates_are_ordered(front);
        let c = candidates(front);
        candidates_are_ordered(s);
        assert forall|i: int| 0 <= i < c.len() implies (#[trigger] c[i]).frame_id != x.frame_id
            || c[i].camera_id != x.camera_id by {
            assert(c.contains(c[i]));
            let k = choose|k: int| 0 <= k < front.len() && front[k] == c[i];
            assert(s[k] == front[k] && s[s.len() - 1] == x);
        }
        let place = crate::basalt::identity::candidate_place(c, x, c.len() as int);
        let all = candidates(s);
        crate::basalt::identity::candidate_place_bounds(c, x, c.len() as int);
        assert(all =~= c.insert(place, x));
        assert forall|i: int, j: int| 0 <= i < j < all.len() implies (
        #[trigger] all[i]).frame_id != (#[trigger] all[j]).frame_id || all[i].camera_id
            != all[j].camera_id by {
            let fi = if i < place { i } else { i - 1 };
            let fj = if j < place { j } else { j - 1 };
            if i == place {
                assert(all[j] == c[fj]);
            } else if j == place {
                assert(all[i] == c[fi]);
            } else {
                assert(all[i] == c[fi] && all[j] == c[fj]);
            }
        }
    }
}

/// A packet that passes its checks leaves no frame and camera twice in the history of a track that
/// it observes, and none twice in the factor records of any track.
pub proof fn collected_identities_are_distinct(
    s: Stores,
    packet: Packet,
    cameras: nat,
    active: Seq<u64>,
)
    requires
        s.factors.dom().finite(),
        packet.is_keyframe ==> measures_tracks(s, packet),
        collect_error(s, packet, cameras) is None,
    ensures
        forall|t: u64| #[trigger]
            observes(packet.observations@, t) ==> distinct_history(
                stores_after(s, packet, active).history[t],
            ),
        forall|t: u64| #[trigger]
            stores_after(s, packet, active).factors.contains_key(t) ==> distinct_factors(
                stores_after(s, packet, active).factors[t],
            ),
{
    let obs = packet.observations@;
    let after = stores_after(s, packet, active);
    assert forall|t: u64| #[trigger] observes(obs, t) implies distinct_history(
        complete_history(s.history, obs, t),
    ) by {
        observed_history_is_distinct(s, packet, cameras, t);
    }
    assert forall|t: u64| #[trigger] observes(obs, t) implies distinct_history(after.history[t]) by {
        assert(after.history.contains_key(t));
    }
    assert forall|t: u64| #[trigger] after.factors.contains_key(t) implies distinct_factors(
        after.factors[t],
    ) by {
        if created(packet, t) {
            let k = choose|k: int|
                0 <= k < packet.tracks@.len() && (#[trigger] packet.tracks@[k]).track_id == t
                    && triangulated(packet.tracks@[k]);
            assert(unconnected(s.landmarks, obs, t));
            let i = choose|i: int|
                0 <= i < obs.len() && (#[trigger] obs[i]).track_id == t && obs[i].camera_id == 0;
            assert(observes(obs, t));
            let complete = complete_history(s.history, obs, t);
            candidates_keep_distinct(complete);
            let apart = |a: TrackHistory, b: TrackHistory|
                a.frame_id != b.frame_id || a.camera_id != b.camera_id;
            let keep = |h: TrackHistory| active.contains(h.frame_id);
            filter_keeps_pairs(candidates(complete), keep, apart);
            let kept = candidates(complete).filter(keep);
            let records = new_factors(s.history, obs, active, t);
            assert(records.len() == kept.len());
            assert forall|i: int, j: int| 0 <= i < j < records.len() implies (
            #[trigger] records[i]).frame_id != (#[trigger] records[j]).frame_id
                || records[i].camera_id != records[j].camera_id by {
                assert(apart(kept[i], kept[j]));
            }
        } else if observes(obs, t) && live(s.landmarks, t) {
            let base = list_of(s.factors, t);
            kept_factors_are_distinct(s, packet, cameras, t);
            let es = entries(obs, t).map_values(|h: TrackHistory| stored(h));
            let all = base + es;
            let apart = |a: StoredObservation, b: StoredObservation|
                a.frame_id != b.frame_id || a.camera_id != b.camera_id;
            entries_come_from_packet(obs, t);
            observed_history_is_distinct(s, packet, cameras, t);
            let h = complete_history(s.history, obs, t);
            let n = list_of(s.history, t).len();
            assert forall|i: int, j: int| 0 <= i < j < all.len() implies apart(
                #[trigger] all[i],
                #[trigger] all[j],
            ) by {
                if j < base.len() {
                    assert(all[i] == base[i] && all[j] == base[j]);
                } else {
                    let ej = entries(obs, t)[j - base.len()];
                    assert(all[j] == stored(ej));
                    assert(in_packet(obs, t, ej));
                    let m = choose|m: int|
                        0 <= m < obs.len() && (#[trigger] obs[m]).track_id == t && entry(obs[m]) == ej;
                    if i < base.len() {
                        assert(all[i] == base[i]);
                        let at = |i: int| current_factor_error_at(s.factors, obs, i);
                        no_error_means(at, obs.len());
                        assert(at(m) is None);
                    } else {
                        let ei = entries(obs, t)[i - base.len()];
                        assert(all[i] == stored(ei));
                        assert(h[n + (i - base.len())] == ei);
                        assert(h[n + (j - base.len())] == ej);
                    }
                }
            }
            filter_keeps_pairs(all, |r: StoredObservation| active.contains(r.frame_id), apart);
            let kept = extended_factors(s.factors, obs, active, t);
            assert forall|i: int, j: int| 0 <= i < j < kept.len() implies (
            #[trigger] kept[i]).frame_id != (#[trigger] kept[j]).frame_id || kept[i].camera_id
                != kept[j].camera_id by {
                assert(apart(kept[i], kept[j]));
            }
        } else {
            kept_factors_are_distinct(s, packet, cameras, t);
        }
    }
}

spec fn in_packet(observations: Seq<TrackObservation>, t: u64, h: TrackHistory) -> bool {
    exists|m: int|
        0 <= m < observations.len() && (#[trigger] observations[m]).track_id == t && entry(
            observations[m],
        ) == h
}

proof fn entries_come_from_packet(observations: Seq<TrackObservation>, t: u64)
    ensures
        forall|i: int|
            0 <= i < entries(observations, t).len() ==> in_packet(
                observations,
                t,
                #[trigger] entries(observations, t)[i],
            ),
{
    let keep = |o: TrackObservation| o.track_id == t;
    let kept = observations.filter(keep);
    crate::ordered::filter_members(observations, keep);
    assert forall|i: int| 0 <= i < entries(observations, t).len() implies in_packet(
        observations,
        t,
        #[trigger] entries(observations, t)[i],
    ) by {
        assert(kept.contains(kept[i]));
        let m = choose|m: int| 0 <= m < observations.len() && observations[m] == kept[i];
        assert(observations[m].track_id == t);
    }
}

proof fn kept_factors_are_distinct(s: Stores, packet: Packet, cameras: nat, t: u64)
    requires
        s.factors.dom().finite(),
        collect_error(s, packet, cameras) is None,
    ensures
        distinct_factors(list_of(s.factors, t)),
{
    if s.factors.contains_key(t) {
        let tracks = ascending(s.factors.dom());
        crate::ordered::ascending_lists_members(s.factors.dom());
        let at = |i: int|
            factor_error(tracks[i], s.factors[tracks[i]], list_of(s.history, tracks[i]));
        no_error_means(at, tracks.len());
        assert(tracks.to_set().contains(t));
        let i = choose|i: int| 0 <= i < tracks.len() && tracks[i] == t;
        assert(at(i) is None);
        crate::basalt::identity::valid_factors_are_distinct(
            t,
            s.factors[t],
            list_of(s.history, t),
        );
    }
}

proof fn observed_history_is_distinct(s: Stores, packet: Packet, cameras: nat, t: u64)
    requires
        collect_error(s, packet, cameras) is None,
        observes(packet.observations@, t),
    ensures
        distinct_history(complete_history(s.history, packet.observations@, t)),
{
    let obs = packet.observations@;
    let old_entries = list_of(s.history, t);
    let new_entries = entries(obs, t);
    let i0 = choose|i: int| 0 <= i < obs.len() && (#[trigger] obs[i]).track_id == t;
    let retained = |i: int| retained_error_at(s.history, obs, i);
    no_error_means(retained, obs.len());
    assert(retained(i0) is None);
    crate::basalt::identity::valid_history_is_distinct(old_entries);
    let at = |i: int| packet_error_at(packet.frame_id, packet.timestamp_ns, obs, i);
    no_error_means(at, obs.len());
    let apart = |a: TrackObservation, b: TrackObservation|
        a.track_id != b.track_id || a.frame_id != b.frame_id || a.camera_id != b.camera_id;
    assert forall|i: int, j: int| 0 <= i < j < obs.len() implies apart(
        #[trigger] obs[i],
        #[trigger] obs[j],
    ) by {
        assert(at(j) is None);
        assert(!same_observation(obs[i], obs[j]));
    }
    let keep = |o: TrackObservation| o.track_id == t;
    filter_keeps_pairs(obs, keep, apart);
    crate::ordered::filter_members(obs, keep);
    entries_come_from_packet(obs, t);
    let kept = obs.filter(keep);
    let all = complete_history(s.history, obs, t);
    assert forall|i: int, j: int| 0 <= i < j < all.len() implies (#[trigger] all[i]).frame_id != (
    #[trigger] all[j]).frame_id || all[i].camera_id != all[j].camera_id by {
        let n = old_entries.len();
        if j < n {
            assert(all[i] == old_entries[i] && all[j] == old_entries[j]);
        } else if i < n {
            assert(all[i] == old_entries[i]);
            assert(in_packet(obs, t, new_entries[j - n]));
            let m = choose|m: int|
                0 <= m < obs.len() && (#[trigger] obs[m]).track_id == t && entry(obs[m])
                    == new_entries[j - n];
            assert(retained(m) is None);
        } else {
            assert(apart(kept[i - n], kept[j - n]));
            assert(kept.contains(kept[i - n]) && kept.contains(kept[j - n]));
        }
    }
}

/// A packet adds to the history of a track one entry for each of its observations of the track, in their
/// order, with the frame, the camera, the time and the pixel that were observed; what was there stays, and
/// tracks that it does not observe keep what they had.
pub proof fn histories_gain_every_observation(
    s: Stores,
    packet: Packet,
    active: Seq<u64>,
    track_id: u64,
)
    ensures
        ({
            let before = if s.history.contains_key(track_id) {
                s.history[track_id]
            } else {
                Seq::empty()
            };
            let seen = packet.observations@.filter(|o: TrackObservation| o.track_id == track_id);
            let after = stores_after(s, packet, active).history;
            &&& after.contains_key(track_id) <==> s.history.contains_key(track_id) || seen.len() > 0
            &&& after.contains_key(track_id) ==> {
                &&& after[track_id].len() == before.len() + seen.len()
                &&& after[track_id].take(before.len() as int) == before
                &&& forall|j: int|
                    0 <= j < seen.len() ==> {
                        let h = #[trigger] after[track_id][before.len() + j];
                        &&& h.frame_id == seen[j].frame_id
                        &&& h.camera_id == seen[j].camera_id
                        &&& h.timestamp_ns == seen[j].timestamp_ns
                        &&& h.pixel == seen[j].pixel
                    }
            }
        }),
{
    let observations = packet.observations@;
    let of_track = |o: TrackObservation| o.track_id == track_id;
    let seen = observations.filter(of_track);
    filter_members(observations, of_track);
    if seen.len() > 0 {
        assert(seen.contains(seen[0]));
        let i = choose|i: int| 0 <= i < observations.len() && observations[i] == seen[0];
        assert(observations[i].track_id == track_id);
    } else {
        assert forall|i: int| 0 <= i < observations.len() implies (
        #[trigger] observations[i]).track_id != track_id by {
            assert(observations.contains(observations[i]));
            if observations[i].track_id == track_id {
                assert(seen.contains(observations[i]));
            }
        }
    }
    let before = list_of(s.history, track_id);
    assert(complete_history(s.history, observations, track_id).take(before.len() as int)
        =~= before);
}

/// A track becomes a landmark exactly on a keyframe on which one of its attempts has a long enough baseline
/// and a distance that is finite, ahead and not too close, and the point has a distance from its host that
/// is finite and not too small, and a direction.
pub proof fn landmarks_are_made_of_good_attempts(packet: Packet, track_id: u64)
    ensures
        created(packet, track_id) <==> packet.is_keyframe && exists|k: int, i: int|
            {
                let t = packet.tracks@[k];
                let a = #[trigger] packet.tracks@[k].attempts@[i];
                &&& 0 <= k < packet.tracks@.len()
                &&& 0 <= i < t.attempts@.len()
                &&& t.track_id == track_id
                &&& !double_less(a.baseline, 0x3fa9_9999_9999_999a)
                &&& a.inverse_distance is Some
                &&& double_finite(a.inverse_distance->0)
                &&& double_less(0, a.inverse_distance->0)
                &&& double_less(a.inverse_distance->0, 0x4008_0000_0000_0000)
                &&& double_finite(t.anchor_distance)
                &&& double_less(0x3e11_2e0b_e826_d695, t.anchor_distance)
                &&& t.direction
            },
{
    if created(packet, track_id) {
        let k = choose|k: int|
            0 <= k < packet.tracks@.len() && (#[trigger] packet.tracks@[k]).track_id == track_id
                && triangulated(packet.tracks@[k]);
        let t = packet.tracks@[k];
        let i = choose|i: int| 0 <= i < t.attempts@.len() && accepted(#[trigger] t.attempts@[i]);
        assert(accepted(packet.tracks@[k].attempts@[i]));
    }
    if packet.is_keyframe && exists|k: int, i: int|
        {
            let t = packet.tracks@[k];
            let a = #[trigger] packet.tracks@[k].attempts@[i];
            &&& 0 <= k < packet.tracks@.len()
            &&& 0 <= i < t.attempts@.len()
            &&& t.track_id == track_id
            &&& !double_less(a.baseline, 0x3fa9_9999_9999_999a)
            &&& a.inverse_distance is Some
            &&& double_finite(a.inverse_distance->0)
            &&& double_less(0, a.inverse_distance->0)
            &&& double_less(a.inverse_distance->0, 0x4008_0000_0000_0000)
            &&& double_finite(t.anchor_distance)
            &&& double_less(0x3e11_2e0b_e826_d695, t.anchor_distance)
            &&& t.direction
        } {
        let (k, i) = choose|k: int, i: int|
            {
                let t = packet.tracks@[k];
                let a = #[trigger] packet.tracks@[k].attempts@[i];
                &&& 0 <= k < packet.tracks@.len()
                &&& 0 <= i < t.attempts@.len()
                &&& t.track_id == track_id
                &&& !double_less(a.baseline, 0x3fa9_9999_9999_999a)
                &&& a.inverse_distance is Some
                &&& double_finite(a.inverse_distance->0)
                &&& double_less(0, a.inverse_distance->0)
                &&& double_less(a.inverse_distance->0, 0x4008_0000_0000_0000)
                &&& double_finite(t.anchor_distance)
                &&& double_less(0x3e11_2e0b_e826_d695, t.anchor_distance)
                &&& t.direction
            };
        assert(accepted(packet.tracks@[k].attempts@[i]));
        assert(triangulated(packet.tracks@[k]));
    }
}

/// A packet makes a landmark active again that it observes and counts each observation; a new landmark is
/// hosted in the first camera of the packet's frame, with one count for each entry of its history and each
/// of the packet's observations; every other landmark stays as it was.
pub proof fn landmarks_count_their_observations(
    s: Stores,
    packet: Packet,
    active: Seq<u64>,
    track_id: u64,
)
    ensures
        ({
            let after = stores_after(s, packet, active).landmarks;
            let seen = packet.observations@.filter(
                |o: TrackObservation| o.track_id == track_id,
            ).len();
            let kept = if s.history.contains_key(track_id) {
                s.history[track_id].len()
            } else {
                0
            };
            &&& after.contains_key(track_id) <==> s.landmarks.contains_key(track_id) || created(
                packet,
                track_id,
            )
            &&& created(packet, track_id) ==> {
                &&& after[track_id].anchor_pose == packet.frame_id
                &&& after[track_id].anchor_camera_id == 0
                &&& after[track_id].status is Active
                &&& after[track_id].missed_frames == 0
                &&& kept + seen <= u64::MAX ==> after[track_id].connected_observations == kept
                    + seen
            }
            &&& !created(packet, track_id) && s.landmarks.contains_key(track_id) ==> {
                let was = s.landmarks[track_id];
                if seen == 0 || was.status is Removed {
                    after[track_id] == was
                } else {
                    &&& after[track_id].anchor_pose == was.anchor_pose
                    &&& after[track_id].anchor_camera_id == was.anchor_camera_id
                    &&& after[track_id].status is Active
                    &&& after[track_id].missed_frames == 0
                    &&& was.connected_observations + seen <= u64::MAX
                        ==> after[track_id].connected_observations == was.connected_observations
                        + seen
                }
            }
        }),
{
    histories_gain_every_observation(s, packet, active, track_id);
    let observations = packet.observations@;
    let of_track = |o: TrackObservation| o.track_id == track_id;
    filter_members(observations, of_track);
    let seen = observations.filter(of_track);
    assert(entries(observations, track_id).len() == seen.len());
    assert(observes(observations, track_id) <==> seen.len() > 0) by {
        if seen.len() > 0 {
            assert(seen.contains(seen[0]));
        }
        if observes(observations, track_id) {
            let i = choose|i: int|
                0 <= i < observations.len() && (#[trigger] observations[i]).track_id == track_id;
            assert(observations.contains(observations[i]));
            assert(seen.contains(observations[i]));
        }
    }
    associations_add_up(
        new_landmark(packet.frame_id, 0),
        complete_history(s.history, observations, track_id).len(),
    );
    if s.landmarks.contains_key(track_id) {
        associations_add_up(s.landmarks[track_id], entries(observations, track_id).len());
    }
}

/// A landmark that a packet observes gains a factor record for each observation on an active frame, with
/// the observed camera and pixel, and keeps those it had on active frames; a new landmark has one for each
/// entry of its history and each observation on an active frame; the records of other tracks stay as they
/// were. There are no others.
pub proof fn factors_gain_every_observation(
    s: Stores,
    packet: Packet,
    active: Seq<u64>,
    track_id: u64,
    r: StoredObservation,
)
    ensures
        ({
            let after = stores_after(s, packet, active).factors;
            let seen = exists|i: int|
                0 <= i < packet.observations@.len() && (
                #[trigger] packet.observations@[i]).track_id == track_id
                    && packet.observations@[i].frame_id == r.frame_id
                    && packet.observations@[i].camera_id == r.camera_id
                    && packet.observations@[i].pixel == r.pixel;
            let observed = exists|i: int|
                0 <= i < packet.observations@.len() && (
                #[trigger] packet.observations@[i]).track_id == track_id;
            let known = s.landmarks.contains_key(track_id) && !(
            s.landmarks[track_id].status is Removed);
            let remembered = s.history.contains_key(track_id) && exists|i: int|
                0 <= i < s.history[track_id].len() && (
                #[trigger] s.history[track_id][i]).frame_id == r.frame_id
                    && s.history[track_id][i].camera_id == r.camera_id
                    && s.history[track_id][i].pixel == r.pixel;
            let had = s.factors.contains_key(track_id) && s.factors[track_id].contains(r);
            &&& after.contains_key(track_id) <==> s.factors.contains_key(track_id) || created(
                packet,
                track_id,
            ) || (observed && known)
            &&& created(packet, track_id) ==> (after[track_id].contains(r) <==> active.contains(
                r.frame_id,
            ) && (remembered || seen))
            &&& !created(packet, track_id) && observed && known ==> (after[track_id].contains(r)
                <==> active.contains(r.frame_id) && (had || seen))
            &&& !created(packet, track_id) && !(observed && known) && s.factors.contains_key(
                track_id,
            ) ==> after[track_id] == s.factors[track_id]
        }),
{
    let observations = packet.observations@;
    let after = stores_after(s, packet, active).factors;
    let t = track_id;
    let added = entries(observations, t);
    let of_track = |o: TrackObservation| o.track_id == t;
    filter_members(observations, of_track);
    let picked = observations.filter(of_track);
    let complete = complete_history(s.history, observations, t);
    let before = list_of(s.history, t);
    let seen = exists|i: int|
        0 <= i < observations.len() && (#[trigger] observations[i]).track_id == t
            && observations[i].frame_id == r.frame_id && observations[i].camera_id == r.camera_id
            && observations[i].pixel == r.pixel;
    let to_record = |h: TrackHistory| stored(h);
    assert(added.map_values(to_record).contains(r) <==> seen) by {
        if seen {
            let i = choose|i: int|
                0 <= i < observations.len() && (#[trigger] observations[i]).track_id == t
                    && observations[i].frame_id == r.frame_id && observations[i].camera_id
                    == r.camera_id && observations[i].pixel == r.pixel;
            assert(observations.contains(observations[i]));
            assert(picked.contains(observations[i]));
            let j = choose|j: int| 0 <= j < picked.len() && picked[j] == observations[i];
            assert(added[j] == entry(picked[j]));
            assert(added.map_values(to_record)[j] == r);
        }
        if added.map_values(to_record).contains(r) {
            let j = choose|j: int|
                0 <= j < added.len() && added.map_values(to_record)[j] == r;
            assert(picked.contains(picked[j]));
            let i = choose|i: int| 0 <= i < observations.len() && observations[i] == picked[j];
            assert(added[j] == entry(observations[i]));
        }
    }
    if created(packet, t) {
        let on_active = |h: TrackHistory| active.contains(h.frame_id);
        let ordered = candidates(complete);
        candidates_are_ordered(complete);
        filter_members(ordered, on_active);
        let kept = ordered.filter(on_active);
        let records = kept.map_values(to_record);
        assert(after[t] == records);
        let remembered = s.history.contains_key(t) && exists|i: int|
            0 <= i < s.history[t].len() && (#[trigger] s.history[t][i]).frame_id == r.frame_id
                && s.history[t][i].camera_id == r.camera_id && s.history[t][i].pixel == r.pixel;
        if records.contains(r) {
            let j = choose|j: int| 0 <= j < records.len() && records[j] == r;
            assert(kept.contains(kept[j]));
            assert(complete.contains(kept[j]));
            let i = choose|i: int| 0 <= i < complete.len() && complete[i] == kept[j];
            if i < before.len() {
                assert(s.history[t][i] == kept[j]);
            } else {
                assert(added[i - before.len()] == kept[j]);
                assert(added.map_values(to_record)[i - before.len()] == r);
            }
        }
        if active.contains(r.frame_id) && (remembered || seen) {
            let h = if remembered {
                s.history[t][choose|i: int|
                    0 <= i < s.history[t].len() && (#[trigger] s.history[t][i]).frame_id
                        == r.frame_id && s.history[t][i].camera_id == r.camera_id
                        && s.history[t][i].pixel == r.pixel]
            } else {
                added[choose|j: int| 0 <= j < added.len() && added.map_values(to_record)[j] == r]
            };
            if remembered {
                let i = choose|i: int|
                    0 <= i < s.history[t].len() && (#[trigger] s.history[t][i]).frame_id
                        == r.frame_id && s.history[t][i].camera_id == r.camera_id
                        && s.history[t][i].pixel == r.pixel;
                assert(complete[i] == h);
            } else {
                let j = choose|j: int| 0 <= j < added.len() && added.map_values(to_record)[j] == r;
                assert(complete[before.len() + j] == h);
            }
            assert(complete.contains(h));
            assert(kept.contains(h));
            let j = choose|j: int| 0 <= j < kept.len() && kept[j] == h;
            assert(records[j] == r);
        }
    } else if observes(observations, t) && live(s.landmarks, t) {
        let on_active = |o: StoredObservation| active.contains(o.frame_id);
        let all = list_of(s.factors, t) + added.map_values(to_record);
        filter_members(all, on_active);
        assert(after[t] == all.filter(on_active));
        assert(after[t].contains(r) <==> all.contains(r) && on_active(r));
        let old_records = list_of(s.factors, t);
        if all.contains(r) {
            let i = choose|i: int| 0 <= i < all.len() && all[i] == r;
            if i < old_records.len() {
                assert(old_records[i] == r);
            } else {
                assert(added.map_values(to_record)[i - old_records.len()] == r);
            }
        }
        if old_records.contains(r) {
            let i = choose|i: int| 0 <= i < old_records.len() && old_records[i] == r;
            assert(all[i] == r);
        }
        if added.map_values(to_record).contains(r) {
            let i = choose|i: int| 0 <= i < added.len() && added.map_values(to_record)[i] == r;
            assert(all[old_records.len() + i] == r);
        }
    }
}

/// A packet associates each landmark that it observes with its frame, once for each observation, and each
/// new landmark with every frame of its history and of the observations; what was associated stays.
pub proof fn associations_gain_every_observation(s: Stores, packet: Packet, active: Seq<u64>)
    ensures
        ({
            let after = stores_after(s, packet, active).associations;
            &&& after.len() >= s.associations.len()
            &&& after.take(s.associations.len() as int) == s.associations
            &&& forall|i: int|
                0 <= i < packet.observations@.len() && s.landmarks.contains_key(
                    (#[trigger] packet.observations@[i]).track_id,
                ) && !(s.landmarks[packet.observations@[i].track_id].status is Removed)
                    ==> after.contains(
                    AssociatedFrame {
                        landmark_id: packet.observations@[i].track_id,
                        frame_id: packet.observations@[i].frame_id,
                    },
                )
            &&& forall|t: u64, i: int|
                created(packet, t) && stores_after(s, packet, active).history.contains_key(t) && 0
                    <= i < stores_after(s, packet, active).history[t].len() ==> after.contains(
                    AssociatedFrame {
                        landmark_id: t,
                        frame_id: (#[trigger] stores_after(
                            s,
                            packet,
                            active,
                        ).history[t][i]).frame_id,
                    },
                )
            &&& forall|k: int|
                s.associations.len() <= k < after.len() ==> {
                    let a = #[trigger] after[k];
                    ||| created(packet, a.landmark_id)
                    ||| s.landmarks.contains_key(a.landmark_id) && !(
                    s.landmarks[a.landmark_id].status is Removed)
                }
        }),
{
    let observations = packet.observations@;
    let made = created_tracks(packet, packet.tracks@.len());
    let after = stores_after(s, packet, active).associations;
    let old_part = s.associations;
    let seen = observed_associations(s.landmarks, observations);
    let new_part = new_associations(s.history, observations, made);
    assert(after == old_part + seen + new_part);
    assert(after.take(old_part.len() as int) =~= old_part);
    created_tracks_are_created(packet);
    let known = |o: TrackObservation| live(s.landmarks, o.track_id);
    filter_members(observations, known);
    let picked = observations.filter(known);
    assert forall|i: int|
        0 <= i < observations.len() && live(
            s.landmarks,
            (#[trigger] observations[i]).track_id,
        ) implies after.contains(
        AssociatedFrame {
            landmark_id: observations[i].track_id,
            frame_id: observations[i].frame_id,
        },
    ) by {
        assert(observations.contains(observations[i]));
        assert(picked.contains(observations[i]));
        let j = choose|j: int| 0 <= j < picked.len() && picked[j] == observations[i];
        assert(after[old_part.len() + j] == seen[j]);
    }
    assert forall|t: u64, i: int|
        created(packet, t) && stores_after(s, packet, active).history.contains_key(t) && 0 <= i
            < stores_after(s, packet, active).history[t].len() implies after.contains(
        AssociatedFrame {
            landmark_id: t,
            frame_id: (#[trigger] stores_after(s, packet, active).history[t][i]).frame_id,
        },
    ) by {
        let complete = complete_history(s.history, observations, t);
        if created(packet, t) {
            assert(made.contains(t));
            new_associations_hold(s.history, observations, made, t);
        }
        let h = stores_after(s, packet, active).history[t][i];
        if stores_after(s, packet, active).history.contains_key(t) {
            assert(complete[i] == h);
            let a = AssociatedFrame { landmark_id: t, frame_id: h.frame_id };
            assert(complete.contains(h));
            assert(new_part.contains(a));
            let j = choose|j: int| 0 <= j < new_part.len() && new_part[j] == a;
            assert(after[old_part.len() + seen.len() + j] == a);
        }
    }
    assert forall|k: int| old_part.len() <= k < after.len() implies {
        let a = #[trigger] after[k];
        ||| created(packet, a.landmark_id)
        ||| s.landmarks.contains_key(a.landmark_id) && !(
        s.landmarks[a.landmark_id].status is Removed)
    } by {
        if k < old_part.len() + seen.len() {
            let j = k - old_part.len();
            assert(after[k] == seen[j]);
            assert(picked.contains(picked[j]));
        } else {
            let j = k - old_part.len() - seen.len();
            assert(after[k] == new_part[j]);
            new_associations_are_of(s.history, observations, made);
            assert(made.contains(new_part[j].landmark_id));
        }
    }
}

proof fn new_associations_hold(
    history: Map<u64, Seq<TrackHistory>>,
    observations: Seq<TrackObservation>,
    tracks: Seq<u64>,
    t: u64,
)
    requires
        tracks.contains(t),
    ensures
        forall|h: TrackHistory| #[trigger]
            complete_history(history, observations, t).contains(h) ==> new_associations(
                history,
                observations,
                tracks,
            ).contains(AssociatedFrame { landmark_id: t, frame_id: h.frame_id }),
    decreases tracks.len(),
{
    let all = new_associations(history, observations, tracks);
    let front = new_associations(history, observations, tracks.drop_last());
    let complete = complete_history(history, observations, t);
    assert forall|h: TrackHistory| #[trigger] complete.contains(h) implies all.contains(
        AssociatedFrame { landmark_id: t, frame_id: h.frame_id },
    ) by {
        let a = AssociatedFrame { landmark_id: t, frame_id: h.frame_id };
        if tracks.last() == t {
            candidates_are_ordered(complete);
            let ordered = candidates(complete);
            assert(ordered.contains(h));
            let j = choose|j: int| 0 <= j < ordered.len() && ordered[j] == h;
            assert(all[front.len() + j] == a);
        } else {
            let i = choose|i: int| 0 <= i < tracks.len() && tracks[i] == t;
            assert(tracks.drop_last()[i] == t);
            new_associations_hold(history, observations, tracks.drop_last(), t);
            assert(front.contains(a));
            let j = choose|j: int| 0 <= j < front.len() && front[j] == a;
            assert(all[j] == a);
        }
    }
}

proof fn new_associations_are_of(
    history: Map<u64, Seq<TrackHistory>>,
    observations: Seq<TrackObservation>,
    tracks: Seq<u64>,
)
    ensures
        forall|k: int|
            0 <= k < new_associations(history, observations, tracks).len() ==> tracks.contains(
                (#[trigger] new_associations(history, observations, tracks)[k]).landmark_id,
            ),
    decreases tracks.len(),
{
    if tracks.len() > 0 {
        let all = new_associations(history, observations, tracks);
        let front = new_associations(history, observations, tracks.drop_last());
        new_associations_are_of(history, observations, tracks.drop_last());
        assert forall|k: int| 0 <= k < all.len() implies tracks.contains(
            (#[trigger] all[k]).landmark_id,
        ) by {
            if k < front.len() {
                assert(all[k] == front[k]);
                let i = choose|i: int|
                    0 <= i < tracks.len() - 1 && tracks.drop_last()[i] == front[k].landmark_id;
                assert(tracks[i] == front[k].landmark_id);
            } else {
                assert(tracks[tracks.len() - 1] == all[k].landmark_id);
            }
        }
    }
}

/// A packet that makes a landmark lists the first camera of its frame as a host, once and at its own time,
/// beside the other hosts; one that makes none leaves the hosts alone. World points are added for the new
/// landmarks and for nothing else.
pub proof fn new_landmarks_have_hosts(s: Stores, packet: Packet, active: Seq<u64>)
    ensures
        ({
            let after = stores_after(s, packet, active);
            let some = exists|t: u64| #[trigger] created(packet, t);
            &&& !some ==> after.hosts == s.hosts
            &&& some ==> forall|h: HostKey| #[trigger]
                after.hosts.contains(h) <==> (h == (HostKey {
                    frame_id: packet.frame_id,
                    camera_id: 0,
                    timestamp_ns: packet.timestamp_ns,
                })) || (s.hosts.contains(h) && !(h.frame_id == packet.frame_id && h.camera_id
                    == 0))
            &&& forall|t: u64| #[trigger]
                after.world.contains(t) <==> s.world.contains(t) || created(packet, t)
        }),
{
    let after = stores_after(s, packet, active);
    let made = created_tracks(packet, packet.tracks@.len());
    created_tracks_are_created(packet);
    if made.len() > 0 {
        assert(made.contains(made[0]));
        assert(created(packet, made[0]));
        let key = HostKey {
            frame_id: packet.frame_id,
            camera_id: 0,
            timestamp_ns: packet.timestamp_ns,
        };
        let other = |h: HostKey| h.frame_id != key.frame_id || h.camera_id != key.camera_id;
        filter_members(s.hosts, other);
        let kept = s.hosts.filter(other);
        assert forall|h: HostKey| #[trigger] after.hosts.contains(h) <==> (h == key) || (
        s.hosts.contains(h) && !(h.frame_id == packet.frame_id && h.camera_id == 0)) by {
            if after.hosts.contains(h) {
                let i = choose|i: int| 0 <= i < after.hosts.len() && after.hosts[i] == h;
                if i < kept.len() {
                    assert(kept[i] == h);
                    assert(kept.contains(h));
                }
            }
            if h == key {
                assert(after.hosts[kept.len() as int] == key);
            }
            if s.hosts.contains(h) && other(h) {
                assert(kept.contains(h));
                let i = choose|i: int| 0 <= i < kept.len() && kept[i] == h;
                assert(after.hosts[i] == h);
            }
        }
    } else {
        assert forall|t: u64| !#[trigger] created(packet, t) by {
            if created(packet, t) {
                assert(made.contains(t));
            }
        }
    }
}

/// A packet is taken in exactly where its observations are of its frame and time and of one track and
/// camera once, each has a camera and its bearings, the histories of the observed tracks are sound and hold
/// none of them yet, the factor records of all tracks are sound and hold none of them, and on a keyframe the
/// histories of the unconnected tracks are sound together with the packet and have cameras and bearings.
pub proof fn packets_are_taken_in_where_sound(s: Stores, packet: Packet, cameras: nat)
    requires
        s.factors.dom().finite(),
    ensures
        collect_error(s, packet, cameras) is None <==> {
            let observations = packet.observations@;
            &&& packet_error(packet.frame_id, packet.timestamp_ns, observations) is None
            &&& forall|i: int|
                0 <= i < observations.len() ==> (#[trigger] observations[i]).camera_id < cameras
                    && packet.bearings@[i].bearing && packet.bearings@[i].raw
            &&& forall|i: int|
                0 <= i < observations.len() && s.history.contains_key(
                    (#[trigger] observations[i]).track_id,
                ) ==> history_error(s.history[observations[i].track_id]) is None
            &&& forall|i: int, j: int|
                0 <= i < observations.len() && s.history.contains_key(observations[i].track_id)
                    && 0 <= j < s.history[observations[i].track_id].len() ==> {
                    let h = #[trigger] s.history[observations[i].track_id][j];
                    h.frame_id != observations[i].frame_id || h.camera_id
                        != observations[i].camera_id
                }
            &&& forall|t: u64| #[trigger]
                s.factors.contains_key(t) ==> factor_error(
                    t,
                    s.factors[t],
                    list_of(s.history, t),
                ) is None
            &&& forall|i: int, j: int|
                0 <= i < observations.len() && s.factors.contains_key(observations[i].track_id)
                    && 0 <= j < s.factors[observations[i].track_id].len() ==> {
                    let f = #[trigger] s.factors[observations[i].track_id][j];
                    f.frame_id != observations[i].frame_id || f.camera_id
                        != observations[i].camera_id
                }
            &&& packet.is_keyframe ==> forall|k: int|
                0 <= k < packet.tracks@.len() ==> #[trigger] track_error_at(
                    s.history,
                    packet,
                    cameras,
                    k,
                ) is None
        },
{
    let observations = packet.observations@;
    let n = observations.len();
    let bearing = |i: int| bearing_error_at(packet, cameras, i);
    let retained = |i: int| retained_error_at(s.history, observations, i);
    let current = |i: int| current_factor_error_at(s.factors, observations, i);
    let tracks = ascending(s.factors.dom());
    let factor = |i: int| factor_error(tracks[i], s.factors[tracks[i]], list_of(s.history, tracks[i]));
    let track = |k: int| track_error_at(s.history, packet, cameras, k);
    ascending_lists_members(s.factors.dom());
    assert forall|t: u64| #[trigger] s.factors.contains_key(t) <==> tracks.contains(t) by {
        assert(tracks.to_set().contains(t) <==> s.factors.dom().contains(t));
    }
    errors_all_or_none(bearing, n);
    errors_all_or_none(retained, n);
    errors_all_or_none(current, n);
    errors_all_or_none(factor, tracks.len());
    errors_all_or_none(track, packet.tracks@.len());
    assert((forall|i: int| 0 <= i < n ==> #[trigger] bearing(i) is None) <==> (forall|i: int|
        0 <= i < n ==> (#[trigger] observations[i]).camera_id < cameras
            && packet.bearings@[i].bearing && packet.bearings@[i].raw)) by {
        if forall|i: int| 0 <= i < n ==> #[trigger] bearing(i) is None {
            assert forall|i: int| 0 <= i < n implies (#[trigger] observations[i]).camera_id
                < cameras && packet.bearings@[i].bearing && packet.bearings@[i].raw by {
                assert(bearing(i) is None);
            }
        }
    }
    let sound = forall|i: int|
        0 <= i < n && s.history.contains_key((#[trigger] observations[i]).track_id)
            ==> history_error(s.history[observations[i].track_id]) is None;
    let fresh = forall|i: int, j: int|
        0 <= i < n && s.history.contains_key(observations[i].track_id) && 0 <= j
            < s.history[observations[i].track_id].len() ==> {
            let h = #[trigger] s.history[observations[i].track_id][j];
            h.frame_id != observations[i].frame_id || h.camera_id != observations[i].camera_id
        };
    assert((forall|i: int| 0 <= i < n ==> #[trigger] retained(i) is None) <==> (sound && fresh)) by {
        if forall|i: int| 0 <= i < n ==> #[trigger] retained(i) is None {
            assert forall|i: int|
                0 <= i < n && s.history.contains_key(
                    (#[trigger] observations[i]).track_id,
                ) implies history_error(s.history[observations[i].track_id]) is None by {
                assert(retained(i) is None);
            }
            assert forall|i: int, j: int|
                0 <= i < n && s.history.contains_key(observations[i].track_id) && 0 <= j
                    < s.history[observations[i].track_id].len() implies {
                let h = #[trigger] s.history[observations[i].track_id][j];
                h.frame_id != observations[i].frame_id || h.camera_id != observations[i].camera_id
            } by {
                assert(retained(i) is None);
                let h = list_of(s.history, observations[i].track_id);
                assert(h[j] == s.history[observations[i].track_id][j]);
            }
        }
        if sound && fresh {
            assert forall|i: int| 0 <= i < n implies #[trigger] retained(i) is None by {
                let o = observations[i];
                let h = list_of(s.history, o.track_id);
                if s.history.contains_key(o.track_id) {
                    assert forall|j: int| 0 <= j < h.len() implies !((
                    #[trigger] h[j]).frame_id == o.frame_id && h[j].camera_id == o.camera_id) by {
                        assert(h[j] == s.history[observations[i].track_id][j]);
                    }
                } else {
                    assert(history_error(h) is None);
                }
            }
        }
    }
    let unrecorded = forall|i: int, j: int|
        0 <= i < n && s.factors.contains_key(observations[i].track_id) && 0 <= j
            < s.factors[observations[i].track_id].len() ==> {
            let f = #[trigger] s.factors[observations[i].track_id][j];
            f.frame_id != observations[i].frame_id || f.camera_id != observations[i].camera_id
        };
    assert((forall|i: int| 0 <= i < n ==> #[trigger] current(i) is None) <==> unrecorded) by {
        if forall|i: int| 0 <= i < n ==> #[trigger] current(i) is None {
            assert forall|i: int, j: int|
                0 <= i < n && s.factors.contains_key(observations[i].track_id) && 0 <= j
                    < s.factors[observations[i].track_id].len() implies {
                let f = #[trigger] s.factors[observations[i].track_id][j];
                f.frame_id != observations[i].frame_id || f.camera_id != observations[i].camera_id
            } by {
                assert(current(i) is None);
                let f = list_of(s.factors, observations[i].track_id);
                assert(f[j] == s.factors[observations[i].track_id][j]);
            }
        }
        if unrecorded {
            assert forall|i: int| 0 <= i < n implies #[trigger] current(i) is None by {
                let o = observations[i];
                let f = list_of(s.factors, o.track_id);
                assert forall|j: int| 0 <= j < f.len() implies !((#[trigger] f[j]).frame_id
                    == o.frame_id && f[j].camera_id == o.camera_id) by {
                    assert(f[j] == s.factors[observations[i].track_id][j]);
                }
            }
        }
    }
    assert((forall|i: int| 0 <= i < tracks.len() ==> #[trigger] factor(i) is None) <==> (forall|
        t: u64,
    | #[trigger]
        s.factors.contains_key(t) ==> factor_error(t, s.factors[t], list_of(s.history, t)) is None)) by {
        if forall|i: int| 0 <= i < tracks.len() ==> #[trigger] factor(i) is None {
            assert forall|t: u64| #[trigger] s.factors.contains_key(t) implies factor_error(
                t,
                s.factors[t],
                list_of(s.history, t),
            ) is None by {
                let i = choose|i: int| 0 <= i < tracks.len() && tracks[i] == t;
                assert(factor(i) is None);
            }
        }
        if forall|t: u64| #[trigger]
            s.factors.contains_key(t) ==> factor_error(
                t,
                s.factors[t],
                list_of(s.history, t),
            ) is None {
            assert forall|i: int| 0 <= i < tracks.len() implies #[trigger] factor(i) is None by {
                assert(tracks.contains(tracks[i]));
                assert(s.factors.contains_key(tracks[i]));
            }
        }
    }
    assert((forall|k: int| 0 <= k < packet.tracks@.len() ==> #[trigger] track(k) is None) <==> (
    forall|k: int|
        0 <= k < packet.tracks@.len() ==> #[trigger] track_error_at(
            s.history,
            packet,
            cameras,
            k,
        ) is None)) by {
        if forall|k: int| 0 <= k < packet.tracks@.len() ==> #[trigger] track(k) is None {
            assert forall|k: int| 0 <= k < packet.tracks@.len() implies #[trigger] track_error_at(
                s.history,
                packet,
                cameras,
                k,
            ) is None by {
                assert(track(k) is None);
            }
        }
    }
}

/// An unconnected track is tried exactly where its history is sound together with the packet, and every
/// entry of it has a camera and a bearing.
pub proof fn tracks_are_tried_where_sound(
    history: Map<u64, Seq<TrackHistory>>,
    packet: Packet,
    cameras: nat,
    k: int,
    before: Seq<TrackHistory>,
    complete: Seq<TrackHistory>,
)
    requires
        history.contains_key(packet.tracks@[k].track_id) ==> before
            == history[packet.tracks@[k].track_id],
        !history.contains_key(packet.tracks@[k].track_id) ==> before.len() == 0,
        complete == before + packet.observations@.filter(
            |o: TrackObservation| o.track_id == packet.tracks@[k].track_id,
        ).map_values(
            |o: TrackObservation|
                TrackHistory {
                    frame_id: o.frame_id,
                    camera_id: o.camera_id,
                    timestamp_ns: o.timestamp_ns,
                    pixel: o.pixel,
                },
        ),
    ensures
        track_error_at(history, packet, cameras, k) is None <==> {
            &&& history_error(complete) is None
            &&& forall|i: int|
                0 <= i < complete.len() ==> (#[trigger] complete[i]).camera_id < cameras
            &&& forall|i: int|
                0 <= i < complete.len() ==> #[trigger] packet.tracks@[k].bearings@[i]
        },
{
    let t = packet.tracks@[k];
    let to_entry = |o: TrackObservation|
        TrackHistory {
            frame_id: o.frame_id,
            camera_id: o.camera_id,
            timestamp_ns: o.timestamp_ns,
            pixel: o.pixel,
        };
    let id = t.track_id;
    assert((|o: TrackObservation| entry(o)) =~= to_entry);
    assert((|o: TrackObservation| o.track_id == id) =~= (|o: TrackObservation|
        o.track_id == packet.tracks@[k].track_id));
    assert(before =~= list_of(history, id));
    assert(complete =~= complete_history(history, packet.observations@, t.track_id));
    candidates_are_ordered(complete);
    let ordered = candidates(complete);
    assert((forall|i: int| 0 <= i < ordered.len() ==> (#[trigger] ordered[i]).camera_id < cameras)
        <==> (forall|i: int|
        0 <= i < complete.len() ==> (#[trigger] complete[i]).camera_id < cameras)) by {
        if forall|i: int| 0 <= i < ordered.len() ==> (#[trigger] ordered[i]).camera_id < cameras {
            assert forall|i: int| 0 <= i < complete.len() implies (
            #[trigger] complete[i]).camera_id < cameras by {
                assert(complete.contains(complete[i]));
                assert(ordered.contains(complete[i]));
            }
        }
        if forall|i: int| 0 <= i < complete.len() ==> (#[trigger] complete[i]).camera_id < cameras {
            assert forall|i: int| 0 <= i < ordered.len() implies (#[trigger] ordered[i]).camera_id
                < cameras by {
                assert(ordered.contains(ordered[i]));
                assert(complete.contains(ordered[i]));
            }
        }
    }
}

proof fn errors_all_or_none(at: spec_fn(int) -> Option<EstimatorError>, n: nat)
    ensures
        first_error(at, n) is None <==> forall|i: int| 0 <= i < n ==> #[trigger] at(i) is None,
{
    if first_error(at, n) is None {
        no_error_means(at, n);
    }
    if forall|i: int| 0 <= i < n ==> #[trigger] at(i) is None {
        no_error_before(at, n);
    }
}

/// An unconnected track is one that the packet observes in the first camera and that has no landmark, or one
/// that was removed.
pub proof fn unconnected_tracks_lack_a_landmark(
    landmarks: Map<u64, LandmarkRecord>,
    observations: Seq<TrackObservation>,
    track_id: u64,
)
    ensures
        unconnected(landmarks, observations, track_id) <==> (!landmarks.contains_key(track_id)
            || landmarks[track_id].status is Removed) && exists|i: int|
            0 <= i < observations.len() && (#[trigger] observations[i]).track_id == track_id
                && observations[i].camera_id == 0,
{
}

} // verus!

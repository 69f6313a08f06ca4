//! Identities of observations: which frame and camera saw a track, and what a packet, a history
//! and a factor map may hold.
use crate::basalt::errors::EstimatorError;
use crate::ordered::{contains_id, increasing, sorted_unique};
use vstd::prelude::*;

verus! {

/// A pixel, as the bits of its two double-precision coordinates.
#[derive(Clone, Copy, Debug, PartialEq, Eq, Structural)]
pub struct Pixel {
    pub x: u64,
    pub y: u64,
}

/// One observation of a track in the current packet.
#[derive(Clone, Copy, Debug, PartialEq, Eq, Structural)]
pub struct TrackObservation {
    pub track_id: u64,
    pub frame_id: u64,
    pub timestamp_ns: i64,
    pub camera_id: u16,
    pub pixel: Pixel,
}

/// One retained observation of a track.
#[derive(Clone, Copy, Debug, PartialEq, Eq, Structural)]
pub struct TrackHistory {
    pub frame_id: u64,
    pub camera_id: u16,
    pub timestamp_ns: i64,
    pub pixel: Pixel,
}

/// One observation that enters the factors of a track.
#[derive(Clone, Copy, Debug, PartialEq, Eq, Structural)]
pub struct StoredObservation {
    pub frame_id: u64,
    pub camera_id: u16,
    pub pixel: Pixel,
}

/// The failure that the first `n` places report, where `at` is what each place reports.
pub open spec fn first_error(at: spec_fn(int) -> Option<EstimatorError>, n: nat) -> Option<
    EstimatorError,
>
    decreases n,
{
    if n == 0 {
        None
    } else {
        match first_error(at, (n - 1) as nat) {
            Some(e) => Some(e),
            None => at(n - 1),
        }
    }
}

/// Where some place reports a failure, the first such place decides.
pub proof fn first_error_is_first(at: spec_fn(int) -> Option<EstimatorError>, n: nat, i: int)
    requires
        0 <= i < n,
        at(i) is Some,
        forall|j: int| 0 <= j < i ==> #[trigger] at(j) is None,
    ensures
        first_error(at, n) == at(i),
    decreases n,
{
    if i == n - 1 {
        no_error_before(at, (n - 1) as nat);
    } else {
        first_error_is_first(at, (n - 1) as nat, i);
    }
}

/// Where no place reports a failure, there is none.
pub proof fn no_error_before(at: spec_fn(int) -> Option<EstimatorError>, n: nat)
    requires
        forall|j: int| 0 <= j < n ==> #[trigger] at(j) is None,
    ensures
        first_error(at, n) is None,
    decreases n,
{
    if n > 0 {
        no_error_before(at, (n - 1) as nat);
    }
}

/// Where there is no failure, no place reports one.
pub proof fn no_error_means(at: spec_fn(int) -> Option<EstimatorError>, n: nat)
    requires
        first_error(at, n) is None,
    ensures
        forall|j: int| 0 <= j < n ==> #[trigger] at(j) is None,
    decreases n,
{
    if n > 0 {
        no_error_means(at, (n - 1) as nat);
        assert forall|j: int| 0 <= j < n implies #[trigger] at(j) is None by {
            if j < n - 1 {
            }
        }
    }
}

/// Whether two observations of a packet have the same track, frame and camera.
pub open spec fn same_observation(a: TrackObservation, b: TrackObservation) -> bool {
    a.track_id == b.track_id && a.frame_id == b.frame_id && a.camera_id == b.camera_id
}

/// What the observation at place `i` of a packet does wrong.
pub open spec fn packet_error_at(
    frame_id: u64,
    timestamp_ns: i64,
    observations: Seq<TrackObservation>,
    i: int,
) -> Option<EstimatorError> {
    let o = observations[i];
    if o.frame_id != frame_id {
        Some(
            EstimatorError::ObservationFrame {
                observed: o.frame_id,
                current: frame_id,
                track_id: o.track_id,
                camera_id: o.camera_id,
            },
        )
    } else if o.timestamp_ns != timestamp_ns {
        Some(
            EstimatorError::ObservationTimestamp {
                observed_ns: o.timestamp_ns,
                current_ns: timestamp_ns,
                track_id: o.track_id,
                frame_id: o.frame_id,
                camera_id: o.camera_id,
            },
        )
    } else if exists|j: int| 0 <= j < i && same_observation(#[trigger] observations[j], o) {
        Some(
            EstimatorError::DuplicateObservation {
                track_id: o.track_id,
                frame_id: o.frame_id,
                camera_id: o.camera_id,
            },
        )
    } else {
        None
    }
}

/// What a packet does wrong: the frame, the time and the camera identities are checked observation
/// by observation.
pub open spec fn packet_error(
    frame_id: u64,
    timestamp_ns: i64,
    observations: Seq<TrackObservation>,
) -> Option<EstimatorError> {
    first_error(
        |i: int| packet_error_at(frame_id, timestamp_ns, observations, i),
        observations.len(),
    )
}

/// Checks that every observation of a packet belongs to the current frame and time and that no
/// track is observed twice in one camera.
pub fn validate_current_observation_identities(
    current_frame_id: u64,
    current_timestamp_ns: i64,
    observations: &Vec<TrackObservation>,
) -> (result: Result<(), EstimatorError>)
    ensures
        match packet_error(current_frame_id, current_timestamp_ns, observations@) {
            Some(e) => result == Err::<(), EstimatorError>(e),
            None => result is Ok,
        },
{
    let ghost at = |i: int|
        packet_error_at(current_frame_id, current_timestamp_ns, observations@, i);
    for i in 0..observations.len()
        invariant
            at == (|i: int|
                packet_error_at(current_frame_id, current_timestamp_ns, observations@, i)),
            forall|j: int| 0 <= j < i ==> #[trigger] at(j) is None,
    {
        let o = observations[i];
        if o.frame_id != current_frame_id {
            let e = EstimatorError::ObservationFrame {
                observed: o.frame_id,
                current: current_frame_id,
                track_id: o.track_id,
                camera_id: o.camera_id,
            };
            assert(at(i as int) == Some(e));
            proof {
                first_error_is_first(at, observations@.len(), i as int);
            }
            return Err(e);
        }
        if o.timestamp_ns != current_timestamp_ns {
            let e = EstimatorError::ObservationTimestamp {
                observed_ns: o.timestamp_ns,
                current_ns: current_timestamp_ns,
                track_id: o.track_id,
                frame_id: o.frame_id,
                camera_id: o.camera_id,
            };
            assert(at(i as int) == Some(e));
            proof {
                first_error_is_first(at, observations@.len(), i as int);
            }
            return Err(e);
        }
        for k in 0..i
            invariant
                i < observations@.len(),
                o == observations@[i as int],
                o.frame_id == current_frame_id,
                o.timestamp_ns == current_timestamp_ns,
                at == (|i: int|
                    packet_error_at(current_frame_id, current_timestamp_ns, observations@, i)),
                forall|j: int| 0 <= j < i ==> #[trigger] at(j) is None,
                forall|j: int| 0 <= j < k ==> !same_observation(#[trigger] observations@[j], o),
        {
            let earlier = observations[k];
            if earlier.track_id == o.track_id && earlier.frame_id == o.frame_id
                && earlier.camera_id == o.camera_id {
                let e = EstimatorError::DuplicateObservation {
                    track_id: o.track_id,
                    frame_id: o.frame_id,
                    camera_id: o.camera_id,
                };
                assert(same_observation(observations@[k as int], o));
                assert(at(i as int) == Some(e));
                proof {
                    first_error_is_first(at, observations@.len(), i as int);
                }
                return Err(e);
            }
        }
        assert(at(i as int) is None);
    }
    proof {
        no_error_before(at, observations@.len());
    }
    Ok(())
}

/// The frame that the first `n` entries of a history bind to a time and a camera, the latest such
/// entry deciding.
pub open spec fn bound_frame(
    history: Seq<TrackHistory>,
    n: int,
    timestamp_ns: i64,
    camera_id: u16,
) -> Option<u64>
    decreases n,
{
    if n <= 0 {
        None
    } else if history[n - 1].timestamp_ns == timestamp_ns && history[n - 1].camera_id
        == camera_id {
        Some(history[n - 1].frame_id)
    } else {
        bound_frame(history, n - 1, timestamp_ns, camera_id)
    }
}

/// What the entry at place `i` of a history does wrong.
pub open spec fn history_error_at(history: Seq<TrackHistory>, i: int) -> Option<EstimatorError> {
    let h = history[i];
    if exists|j: int|
        0 <= j < i && (#[trigger] history[j]).frame_id == h.frame_id && history[j].camera_id
            == h.camera_id {
        Some(EstimatorError::DuplicateHistory { frame_id: h.frame_id, camera_id: h.camera_id })
    } else {
        match bound_frame(history, i, h.timestamp_ns, h.camera_id) {
            Some(previous) => if previous != h.frame_id {
                Some(
                    EstimatorError::ReboundTimestamp {
                        timestamp_ns: h.timestamp_ns,
                        camera_id: h.camera_id,
                        previous,
                        frame_id: h.frame_id,
                    },
                )
            } else {
                None
            },
            None => None,
        }
    }
}

/// What a history does wrong: a frame and a camera occur once, and a time and a camera name one
/// frame.
pub open spec fn history_error(history: Seq<TrackHistory>) -> Option<EstimatorError> {
    first_error(|i: int| history_error_at(history, i), history.len())
}

/// Checks the one-to-one binding of frames, times and cameras in a history.
pub fn validate_track_history_identity(history: &Vec<TrackHistory>) -> (result: Result<
    (),
    EstimatorError,
>)
    ensures
        match history_error(history@) {
            Some(e) => result == Err::<(), EstimatorError>(e),
            None => result is Ok,
        },
{
    let ghost at = |i: int| history_error_at(history@, i);
    for i in 0..history.len()
        invariant
            at == (|i: int| history_error_at(history@, i)),
            forall|j: int| 0 <= j < i ==> #[trigger] at(j) is None,
    {
        let h = history[i];
        let mut bound: Option<u64> = None;
        for k in 0..i
            invariant
                i < history@.len(),
                h == history@[i as int],
                at == (|i: int| history_error_at(history@, i)),
                forall|j: int| 0 <= j < i ==> #[trigger] at(j) is None,
                forall|j: int|
                    0 <= j < k ==> !((#[trigger] history@[j]).frame_id == h.frame_id
                        && history@[j].camera_id == h.camera_id),
                bound == bound_frame(history@, k as int, h.timestamp_ns, h.camera_id),
        {
            let earlier = history[k];
            if earlier.frame_id == h.frame_id && earlier.camera_id == h.camera_id {
                let e = EstimatorError::DuplicateHistory {
                    frame_id: h.frame_id,
                    camera_id: h.camera_id,
                };
                assert(at(i as int) == Some(e));
                proof {
                    first_error_is_first(at, history@.len(), i as int);
                }
                return Err(e);
            }
            if earlier.timestamp_ns == h.timestamp_ns && earlier.camera_id == h.camera_id {
                bound = Some(earlier.frame_id);
            }
        }
        if let Some(previous) = bound {
            if previous != h.frame_id {
                let e = EstimatorError::ReboundTimestamp {
                    timestamp_ns: h.timestamp_ns,
                    camera_id: h.camera_id,
                    previous,
                    frame_id: h.frame_id,
                };
                assert(at(i as int) == Some(e));
                proof {
                    first_error_is_first(at, history@.len(), i as int);
                }
                return Err(e);
            }
        }
        assert(at(i as int) is None);
    }
    proof {
        no_error_before(at, history@.len());
    }
    Ok(())
}

/// The pixel of the first of the first `n` entries of a history that has the frame and the camera.
pub open spec fn history_pixel(
    history: Seq<TrackHistory>,
    n: int,
    frame_id: u64,
    camera_id: u16,
) -> Option<Pixel>
    decreases n,
{
    if n <= 0 {
        None
    } else {
        match history_pixel(history, n - 1, frame_id, camera_id) {
            Some(p) => Some(p),
            None => if history[n - 1].frame_id == frame_id && history[n - 1].camera_id
                == camera_id {
                Some(history[n - 1].pixel)
            } else {
                None
            },
        }
    }
}

/// What the factor record at place `i` of a track does wrong.
pub open spec fn factor_error_at(
    track_id: u64,
    records: Seq<StoredObservation>,
    history: Seq<TrackHistory>,
    i: int,
) -> Option<EstimatorError> {
    let r = records[i];
    if exists|j: int|
        0 <= j < i && (#[trigger] records[j]).frame_id == r.frame_id && records[j].camera_id
            == r.camera_id {
        Some(
            EstimatorError::DuplicateFactor {
                track_id,
                frame_id: r.frame_id,
                camera_id: r.camera_id,
            },
        )
    } else {
        match history_pixel(history, history.len() as int, r.frame_id, r.camera_id) {
            Some(p) => if p != r.pixel {
                Some(
                    EstimatorError::FactorPixel {
                        track_id,
                        frame_id: r.frame_id,
                        camera_id: r.camera_id,
                    },
                )
            } else {
                None
            },
            None => None,
        }
    }
}

/// What the factor records of a track do wrong: a frame and a camera occur once, and a pixel that
/// the history knows too is the same there. A record that the history lacks is in order.
pub open spec fn factor_error(
    track_id: u64,
    records: Seq<StoredObservation>,
    history: Seq<TrackHistory>,
) -> Option<EstimatorError> {
    first_error(|i: int| factor_error_at(track_id, records, history, i), records.len())
}

/// Checks the factor records of a track against each other and against its history, which is empty
/// where the track has none.
pub fn validate_factor_observation_records(
    track_id: u64,
    records: &Vec<StoredObservation>,
    history: &Vec<TrackHistory>,
) -> (result: Result<(), EstimatorError>)
    ensures
        match factor_error(track_id, records@, history@) {
            Some(e) => result == Err::<(), EstimatorError>(e),
            None => result is Ok,
        },
{
    let ghost at = |i: int| factor_error_at(track_id, records@, history@, i);
    for i in 0..records.len()
        invariant
            at == (|i: int| factor_error_at(track_id, records@, history@, i)),
            forall|j: int| 0 <= j < i ==> #[trigger] at(j) is None,
    {
        let r = records[i];
        for k in 0..i
            invariant
                i < records@.len(),
                r == records@[i as int],
                at == (|i: int| factor_error_at(track_id, records@, history@, i)),
                forall|j: int| 0 <= j < i ==> #[trigger] at(j) is None,
                forall|j: int|
                    0 <= j < k ==> !((#[trigger] records@[j]).frame_id == r.frame_id
                        && records@[j].camera_id == r.camera_id),
        {
            if records[k].frame_id == r.frame_id && records[k].camera_id == r.camera_id {
                let e = EstimatorError::DuplicateFactor {
                    track_id,
                    frame_id: r.frame_id,
                    camera_id: r.camera_id,
                };
                assert(at(i as int) == Some(e));
                proof {
                    first_error_is_first(at, records@.len(), i as int);
                }
                return Err(e);
            }
        }
        let mut pixel: Option<Pixel> = None;
        for k in 0..history.len()
            invariant
                pixel == history_pixel(history@, k as int, r.frame_id, r.camera_id),
        {
            if pixel.is_none() && history[k].frame_id == r.frame_id && history[k].camera_id
                == r.camera_id {
                pixel = Some(history[k].pixel);
            }
        }
        if let Some(p) = pixel {
            if p.x != r.pixel.x || p.y != r.pixel.y {
                let e = EstimatorError::FactorPixel {
                    track_id,
                    frame_id: r.frame_id,
                    camera_id: r.camera_id,
                };
                assert(at(i as int) == Some(e));
                proof {
                    first_error_is_first(at, records@.len(), i as int);
                }
                return Err(e);
            }
            assert(p == r.pixel);
        }
        assert(at(i as int) is None);
    }
    proof {
        no_error_before(at, records@.len());
    }
    Ok(())
}

/// Whether a history names each frame and camera once.
pub open spec fn distinct_history(history: Seq<TrackHistory>) -> bool {
    forall|i: int, j: int|
        0 <= i < j < history.len() ==> (#[trigger] history[i]).frame_id != (
        #[trigger] history[j]).frame_id || history[i].camera_id != history[j].camera_id
}

/// Whether the factor records of a track name each frame and camera once.
pub open spec fn distinct_factors(records: Seq<StoredObservation>) -> bool {
    forall|i: int, j: int|
        0 <= i < j < records.len() ==> (#[trigger] records[i]).frame_id != (
        #[trigger] records[j]).frame_id || records[i].camera_id != records[j].camera_id
}

/// A history without a failure names each frame and camera once.
pub proof fn valid_history_is_distinct(history: Seq<TrackHistory>)
    requires
        history_error(history) is None,
    ensures
        distinct_history(history),
{
    let at = |i: int| history_error_at(history, i);
    no_error_means(at, history.len());
    assert forall|i: int, j: int| 0 <= i < j < history.len() implies (
    #[trigger] history[i]).frame_id != (#[trigger] history[j]).frame_id || history[i].camera_id
        != history[j].camera_id by {
        assert(at(j) is None);
    }
}

/// Factor records without a failure name each frame and camera once.
pub proof fn valid_factors_are_distinct(
    track_id: u64,
    records: Seq<StoredObservation>,
    history: Seq<TrackHistory>,
)
    requires
        factor_error(track_id, records, history) is None,
    ensures
        distinct_factors(records),
{
    let at = |i: int| factor_error_at(track_id, records, history, i);
    no_error_means(at, records.len());
    assert forall|i: int, j: int| 0 <= i < j < records.len() implies (
    #[trigger] records[i]).frame_id != (#[trigger] records[j]).frame_id || records[i].camera_id
        != records[j].camera_id by {
        assert(at(j) is None);
    }
}

/// Whether a frame's observations stay in the factors of a landmark: those of the current frame, of
/// a keyframe, and of the frames since the latest keyframe.
pub open spec fn visible(candidate: u64, current: u64, keyframes: Seq<u64>) -> bool {
    ||| candidate == current
    ||| keyframes.contains(candidate)
    ||| keyframes.len() > 0 && keyframes.last() < candidate < current
}

/// Whether a frame's observations stay in the factors of a landmark, by the ascending list of the
/// keyframes.
pub fn factor_frame_visible(
    candidate_frame_id: u64,
    current_frame_id: u64,
    keyframe_frames: &Vec<u64>,
) -> (result: bool)
    ensures
        result == visible(candidate_frame_id, current_frame_id, keyframe_frames@),
{
    if candidate_frame_id == current_frame_id || contains_id(keyframe_frames, candidate_frame_id) {
        return true;
    }
    if keyframe_frames.len() == 0 {
        return false;
    }
    let latest: u64 = keyframe_frames[keyframe_frames.len() - 1];
    latest < candidate_frame_id && candidate_frame_id < current_frame_id
}

/// The factor record of a retained observation.
pub open spec fn stored(h: TrackHistory) -> StoredObservation {
    StoredObservation { frame_id: h.frame_id, camera_id: h.camera_id, pixel: h.pixel }
}

/// The factor record of a retained observation.
pub fn stored_of(h: &TrackHistory) -> (record: StoredObservation)
    ensures
        record == stored(*h),
{
    StoredObservation { frame_id: h.frame_id, camera_id: h.camera_id, pixel: h.pixel }
}

/// The factor records that a candidate list projects to, in the order of the candidates.
pub fn project_factor_observations(
    candidates: &Vec<TrackHistory>,
    current_frame_id: u64,
    keyframe_frames: &Vec<u64>,
) -> (records: Vec<StoredObservation>)
    ensures
        records@ == candidates@.filter(
            |h: TrackHistory| visible(h.frame_id, current_frame_id, keyframe_frames@),
        ).map_values(|h: TrackHistory| stored(h)),
{
    let ghost keep = |h: TrackHistory| visible(h.frame_id, current_frame_id, keyframe_frames@);
    let ghost to_record = |h: TrackHistory| stored(h);
    let mut records: Vec<StoredObservation> = Vec::new();
    proof {
        reveal(Seq::filter);
        assert(candidates@.take(0).filter(keep).map_values(to_record) =~= Seq::empty());
    }
    for i in 0..candidates.len()
        invariant
            keep == (|h: TrackHistory|
                visible(h.frame_id, current_frame_id, keyframe_frames@)),
            to_record == (|h: TrackHistory| stored(h)),
            records@ == candidates@.take(i as int).filter(keep).map_values(to_record),
    {
        proof {
            crate::ordered::filter_next(candidates@, keep, i as int);
        }
        if factor_frame_visible(candidates[i].frame_id, current_frame_id, keyframe_frames) {
            records.push(stored_of(&candidates[i]));
            assert(records@ =~= candidates@.take(i + 1).filter(keep).map_values(to_record));
        }
    }
    assert(candidates@.take(candidates@.len() as int) =~= candidates@);
    records
}

/// Whether one observation precedes another in the order by time, then camera, then frame.
pub open spec fn candidate_before(a: TrackHistory, b: TrackHistory) -> bool {
    if a.timestamp_ns != b.timestamp_ns {
        a.timestamp_ns < b.timestamp_ns
    } else if a.camera_id != b.camera_id {
        a.camera_id < b.camera_id
    } else {
        a.frame_id < b.frame_id
    }
}

/// Whether a list is in the order by time, then camera, then frame.
pub open spec fn candidate_order(s: Seq<TrackHistory>) -> bool {
    forall|i: int, j: int| 0 <= i < j < s.len() ==> !candidate_before(#[trigger] s[j], #[trigger] s[i])
}

fn is_candidate_before(a: &TrackHistory, b: &TrackHistory) -> (before: bool)
    ensures
        before == candidate_before(*a, *b),
{
    if a.timestamp_ns != b.timestamp_ns {
        a.timestamp_ns < b.timestamp_ns
    } else if a.camera_id != b.camera_id {
        a.camera_id < b.camera_id
    } else {
        a.frame_id < b.frame_id
    }
}

/// Where an observation goes among the first `n` of an ordered list: behind all that do not follow
/// it.
pub open spec fn candidate_place(s: Seq<TrackHistory>, x: TrackHistory, n: int) -> int
    decreases n,
{
    if n <= 0 || !candidate_before(x, s[n - 1]) {
        n
    } else {
        candidate_place(s, x, n - 1)
    }
}

/// The observations in the order by time, then camera, then frame.
pub open spec fn candidates(s: Seq<TrackHistory>) -> Seq<TrackHistory>
    decreases s.len(),
{
    if s.len() == 0 {
        Seq::empty()
    } else {
        let front = candidates(s.drop_last());
        front.insert(candidate_place(front, s.last(), front.len() as int), s.last())
    }
}

/// The place is within the list, before all that follow the observation and behind one that does
/// not.
pub proof fn candidate_place_bounds(s: Seq<TrackHistory>, x: TrackHistory, n: int)
    requires
        0 <= n <= s.len(),
    ensures
        0 <= candidate_place(s, x, n) <= n,
        forall|k: int| candidate_place(s, x, n) <= k < n ==> candidate_before(x, #[trigger] s[k]),
        candidate_place(s, x, n) > 0 ==> !candidate_before(x, s[candidate_place(s, x, n) - 1]),
    decreases n,
{
    if n > 0 && candidate_before(x, s[n - 1]) {
        candidate_place_bounds(s, x, n - 1);
    }
}

/// Ordering the observations of a track loses none, adds none, and leaves them in order.
pub proof fn candidates_are_ordered(s: Seq<TrackHistory>)
    ensures
        candidate_order(candidates(s)),
        candidates(s).to_multiset() == s.to_multiset(),
        candidates(s).len() == s.len(),
        forall|h: TrackHistory| #[trigger] candidates(s).contains(h) <==> s.contains(h),
    decreases s.len(),
{
    broadcast use vstd::seq_lib::group_to_multiset_ensures;

    if s.len() > 0 {
        let front = candidates(s.drop_last());
        candidates_are_ordered(s.drop_last());
        let x = s.last();
        let place = candidate_place(front, x, front.len() as int);
        candidate_place_bounds(front, x, front.len() as int);
        vstd::seq_lib::to_multiset_insert(front, place, x);
        vstd::seq_lib::to_multiset_build(s.drop_last(), x);
        assert(s =~= s.drop_last().push(x));
        let all = candidates(s);
        assert forall|i: int, j: int| 0 <= i < j < all.len() implies !candidate_before(
            #[trigger] all[j],
            #[trigger] all[i],
        ) by {
            if i == place {
                assert(candidate_before(x, front[j - 1]));
            } else if j == place {
                assert(all[i] == front[i]);
                if i < place - 1 {
                    assert(!candidate_before(front[place - 1], front[i]));
                }
            } else {
                let fi = if i < place { i } else { i - 1 };
                let fj = if j < place { j } else { j - 1 };
                assert(all[i] == front[fi]);
                assert(all[j] == front[fj]);
            }
        }
    } else {
        assert(s =~= Seq::empty());
    }
    assert forall|h: TrackHistory| #[trigger] candidates(s).contains(h) <==> s.contains(h) by {
        vstd::seq_lib::to_multiset_contains(s, h);
        vstd::seq_lib::to_multiset_contains(candidates(s), h);
    }
    candidates(s).to_multiset_ensures();
    s.to_multiset_ensures();
}

/// Puts observations in the order by time, then camera, then frame.
pub fn candidate_sort(observations: &Vec<TrackHistory>) -> (sorted: Vec<TrackHistory>)
    ensures
        sorted@ == candidates(observations@),
{
    let mut sorted: Vec<TrackHistory> = Vec::new();
    for i in 0..observations.len()
        invariant
            sorted@.len() == i,
            sorted@ == candidates(observations@.take(i as int)),
    {
        let next = observations[i];
        let mut place: usize = sorted.len();
        while place > 0 && is_candidate_before(&next, &sorted[place - 1])
            invariant
                place <= sorted@.len(),
                candidate_place(sorted@, next, place as int) == candidate_place(
                    sorted@,
                    next,
                    sorted@.len() as int,
                ),
            decreases place,
        {
            place = place - 1;
        }
        let ghost before = sorted@;
        sorted.insert(place, next);
        proof {
            let prefix = observations@.take(i + 1);
            assert(prefix.drop_last() =~= observations@.take(i as int));
            assert(prefix.last() == next);
            assert(sorted@ =~= candidates(prefix));
        }
    }
    assert(observations@.take(observations@.len() as int) =~= observations@);
    sorted
}

/// The keyframes of a window in ascending order: those of the states, of the poses, and the current
/// frame where it is one.
pub fn keyframe_frame_ids(keyframes: &Vec<u64>, current_frame_id: u64, current_is_keyframe: bool) -> (
    sorted: Vec<u64>)
    ensures
        increasing(sorted@),
        forall|id: u64| #[trigger]
            sorted@.contains(id) <==> keyframes@.contains(id) || (current_is_keyframe && id
                == current_frame_id),
{
    let mut all: Vec<u64> = Vec::new();
    for i in 0..keyframes.len()
        invariant
            all@ == keyframes@.take(i as int),
    {
        all.push(keyframes[i]);
        assert(all@ =~= keyframes@.take(i + 1));
    }
    assert(keyframes@.take(keyframes@.len() as int) =~= keyframes@);
    if current_is_keyframe {
        all.push(current_frame_id);
        assert(all@ =~= keyframes@.push(current_frame_id));
    }
    let sorted = sorted_unique(&all);
    proof {
        assert forall|id: u64| #[trigger] sorted@.contains(id) <==> keyframes@.contains(id) || (
        current_is_keyframe && id == current_frame_id) by {
            assert(sorted@.contains(id) == sorted@.to_set().contains(id));
            assert(all@.contains(id) == all@.to_set().contains(id));
            if current_is_keyframe {
                vstd::seq_lib::lemma_seq_contains_after_push(keyframes@, current_frame_id, id);
                if all@.contains(id) {
                    let k = choose|k: int| 0 <= k < all@.len() && all@[k] == id;
                    if k < keyframes@.len() {
                        assert(keyframes@[k] == id);
                    }
                }
                assert(all@[keyframes@.len() as int] == current_frame_id);
            }
        }
    }
    sorted
}

/// The identities of a packet are accepted exactly where every observation is of its frame and time and no
/// two are of one track in one camera.
pub proof fn packets_are_of_one_frame(
    frame_id: u64,
    timestamp_ns: i64,
    observations: Seq<TrackObservation>,
)
    ensures
        packet_error(frame_id, timestamp_ns, observations) is None <==> {
            &&& forall|i: int|
                0 <= i < observations.len() ==> (#[trigger] observations[i]).frame_id == frame_id
                    && observations[i].timestamp_ns == timestamp_ns
            &&& forall|i: int, j: int|
                0 <= i < j < observations.len() ==> (#[trigger] observations[i]).track_id != (
                #[trigger] observations[j]).track_id || observations[i].camera_id
                    != observations[j].camera_id
        },
{
    let at = |i: int| packet_error_at(frame_id, timestamp_ns, observations, i);
    if packet_error(frame_id, timestamp_ns, observations) is None {
        no_error_means(at, observations.len());
        assert forall|i: int| 0 <= i < observations.len() implies (
        #[trigger] observations[i]).frame_id == frame_id && observations[i].timestamp_ns
            == timestamp_ns by {
            assert(at(i) is None);
        }
        assert forall|i: int, j: int| 0 <= i < j < observations.len() implies (
        #[trigger] observations[i]).track_id != (#[trigger] observations[j]).track_id
            || observations[i].camera_id != observations[j].camera_id by {
            assert(at(i) is None && at(j) is None);
            assert(!same_observation(observations[i], observations[j]));
        }
    } else {
        if forall|j: int| 0 <= j < observations.len() ==> #[trigger] at(j) is None {
            no_error_before(at, observations.len());
        }
        let i = choose|i: int| 0 <= i < observations.len() && !(#[trigger] at(i) is None);
        let o = observations[i];
        if o.frame_id == frame_id && o.timestamp_ns == timestamp_ns {
            let j = choose|j: int| 0 <= j < i && same_observation(#[trigger] observations[j], o);
            assert(observations[j].track_id == observations[i].track_id);
        }
    }
}

/// A history is accepted exactly where no two entries are of one camera at one frame or at one time.
pub proof fn histories_hold_one_entry_for_a_frame(history: Seq<TrackHistory>)
    ensures
        history_error(history) is None <==> forall|i: int, j: int|
            0 <= i < j < history.len() && (#[trigger] history[i]).camera_id == (
            #[trigger] history[j]).camera_id ==> history[i].frame_id != history[j].frame_id
                && history[i].timestamp_ns != history[j].timestamp_ns,
{
    let at = |i: int| history_error_at(history, i);
    if history_error(history) is None {
        no_error_means(at, history.len());
        assert forall|i: int, j: int|
            0 <= i < j < history.len() && (#[trigger] history[i]).camera_id == (
            #[trigger] history[j]).camera_id implies history[i].frame_id != history[j].frame_id
            && history[i].timestamp_ns != history[j].timestamp_ns by {
            assert(at(j) is None);
            if history[i].timestamp_ns == history[j].timestamp_ns {
                bound_frame_is_latest(history, j, history[j].timestamp_ns, history[j].camera_id);
            }
        }
    } else {
        if forall|j: int| 0 <= j < history.len() ==> #[trigger] at(j) is None {
            no_error_before(at, history.len());
        }
        let i = choose|i: int| 0 <= i < history.len() && !(#[trigger] at(i) is None);
        let h = history[i];
        bound_frame_is_latest(history, i, h.timestamp_ns, h.camera_id);
    }
}

proof fn bound_frame_is_latest(history: Seq<TrackHistory>, n: int, timestamp_ns: i64, camera_id: u16)
    requires
        0 <= n <= history.len(),
    ensures
        match bound_frame(history, n, timestamp_ns, camera_id) {
            Some(f) => exists|j: int|
                0 <= j < n && (#[trigger] history[j]).timestamp_ns == timestamp_ns
                    && history[j].camera_id == camera_id && history[j].frame_id == f,
            None => forall|j: int|
                0 <= j < n ==> (#[trigger] history[j]).timestamp_ns != timestamp_ns
                    || history[j].camera_id != camera_id,
        },
    decreases n,
{
    if n > 0 {
        if history[n - 1].timestamp_ns == timestamp_ns && history[n - 1].camera_id == camera_id {
            assert(history[n - 1].frame_id == history[n - 1].frame_id);
        } else {
            bound_frame_is_latest(history, n - 1, timestamp_ns, camera_id);
        }
    }
}

/// Factor records are accepted exactly where no two are of one frame and camera, and each has the pixel
/// that the history of its track gives for them, if it gives one.
pub proof fn factors_agree_with_histories(
    track_id: u64,
    records: Seq<StoredObservation>,
    history: Seq<TrackHistory>,
)
    requires
        forall|i: int, j: int|
            0 <= i < j < history.len() ==> (#[trigger] history[i]).frame_id != (
            #[trigger] history[j]).frame_id || history[i].camera_id != history[j].camera_id,
    ensures
        factor_error(track_id, records, history) is None <==> {
            &&& forall|i: int, j: int|
                0 <= i < j < records.len() ==> (#[trigger] records[i]).frame_id != (
                #[trigger] records[j]).frame_id || records[i].camera_id != records[j].camera_id
            &&& forall|i: int, j: int|
                0 <= i < records.len() && 0 <= j < history.len() && (
                #[trigger] records[i]).frame_id == (#[trigger] history[j]).frame_id
                    && records[i].camera_id == history[j].camera_id ==> records[i].pixel
                    == history[j].pixel
        },
{
    let at = |i: int| factor_error_at(track_id, records, history, i);
    if factor_error(track_id, records, history) is None {
        no_error_means(at, records.len());
        valid_factors_are_distinct(track_id, records, history);
        assert forall|i: int, j: int|
            0 <= i < records.len() && 0 <= j < history.len() && (#[trigger] records[i]).frame_id
                == (#[trigger] history[j]).frame_id && records[i].camera_id
                == history[j].camera_id implies records[i].pixel == history[j].pixel by {
            assert(at(i) is None);
            history_pixel_is_of(
                history,
                history.len() as int,
                records[i].frame_id,
                records[i].camera_id,
                j,
            );
        }
    } else {
        if forall|j: int| 0 <= j < records.len() ==> #[trigger] at(j) is None {
            no_error_before(at, records.len());
        }
        let i = choose|i: int| 0 <= i < records.len() && !(#[trigger] at(i) is None);
        let r = records[i];
        if !(exists|j: int|
            0 <= j < i && (#[trigger] records[j]).frame_id == r.frame_id && records[j].camera_id
                == r.camera_id) {
            history_pixel_found(history, history.len() as int, r.frame_id, r.camera_id);
        }
    }
}

proof fn history_pixel_is_of(
    history: Seq<TrackHistory>,
    n: int,
    frame_id: u64,
    camera_id: u16,
    j: int,
)
    requires
        0 <= j < n <= history.len(),
        history[j].frame_id == frame_id,
        history[j].camera_id == camera_id,
        forall|i: int|
            0 <= i < history.len() && i != j ==> (#[trigger] history[i]).frame_id != frame_id
                || history[i].camera_id != camera_id,
    ensures
        history_pixel(history, n, frame_id, camera_id) == Some(history[j].pixel),
    decreases n,
{
    if j < n - 1 {
        history_pixel_is_of(history, n - 1, frame_id, camera_id, j);
    } else {
        history_pixel_found(history, n - 1, frame_id, camera_id);
    }
}

proof fn history_pixel_found(history: Seq<TrackHistory>, n: int, frame_id: u64, camera_id: u16)
    requires
        0 <= n <= history.len(),
    ensures
        history_pixel(history, n, frame_id, camera_id) matches Some(p) ==> exists|j: int|
            0 <= j < n && (#[trigger] history[j]).frame_id == frame_id && history[j].camera_id
                == camera_id && history[j].pixel == p,
    decreases n,
{
    if n > 0 {
        history_pixel_found(history, n - 1, frame_id, camera_id);
    }
}

/// Candidates go by time, at one time by camera, and in one camera by frame; each entry is one, as often as
/// it occurs.
pub proof fn candidates_go_by_time_camera_and_frame(s: Seq<TrackHistory>)
    ensures
        candidates(s).to_multiset() == s.to_multiset(),
        candidates(s).len() == s.len(),
        forall|i: int, j: int|
            0 <= i < j < s.len() ==> {
                let a = #[trigger] candidates(s)[i];
                let b = #[trigger] candidates(s)[j];
                &&& a.timestamp_ns <= b.timestamp_ns
                &&& a.timestamp_ns == b.timestamp_ns ==> a.camera_id <= b.camera_id
                &&& a.timestamp_ns == b.timestamp_ns && a.camera_id == b.camera_id ==> a.frame_id
                    <= b.frame_id
            },
{
    candidates_are_ordered(s);
    assert forall|i: int, j: int| 0 <= i < j < s.len() implies {
        let a = #[trigger] candidates(s)[i];
        let b = #[trigger] candidates(s)[j];
        &&& a.timestamp_ns <= b.timestamp_ns
        &&& a.timestamp_ns == b.timestamp_ns ==> a.camera_id <= b.camera_id
        &&& a.timestamp_ns == b.timestamp_ns && a.camera_id == b.camera_id ==> a.frame_id
            <= b.frame_id
    } by {
        assert(!candidate_before(candidates(s)[j], candidates(s)[i]));
    }
}

/// A frame sees the current frame, the keyframes, and what came between the last keyframe and the current
/// frame, and no other.
pub proof fn visible_frames(candidate: u64, current: u64, keyframes: Seq<u64>)
    ensures
        visible(current, current, keyframes),
        keyframes.contains(candidate) ==> visible(candidate, current, keyframes),
        keyframes.len() > 0 && keyframes[keyframes.len() - 1] < candidate && candidate < current
            ==> visible(candidate, current, keyframes),
        candidate > current && !keyframes.contains(candidate) ==> !visible(
            candidate,
            current,
            keyframes,
        ),
        candidate < current && !keyframes.contains(candidate) && (keyframes.len() == 0 || candidate
            <= keyframes[keyframes.len() - 1]) ==> !visible(candidate, current, keyframes),
{
}

} // verus!

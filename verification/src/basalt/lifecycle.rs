//! The life of the stores from frame to frame: how much they hold, how much they held at most, and
//! which tracks they gave up.
use crate::basalt::collect::{Stores, TrackStore};
use crate::basalt::landmarks::LandmarkStatus;
use crate::ordered::{
    ascending, ascending_lists_members, contains_id, filter_members, filter_next, lists, map_keys,
    set_members,
};
use std::collections::BTreeMap;
use vstd::prelude::*;

verus! {

broadcast use vstd::std_specs::btree::group_btree_axioms;

/// What the allocator set aside for the stores, as measured.
#[derive(Clone, Copy, Debug, PartialEq, Eq, Structural)]
pub struct Capacities {
    pub track_history: usize,
    pub factors: usize,
    pub observations: usize,
}

/// How much the stores hold.
#[derive(Clone, Copy, Debug, PartialEq, Eq, Structural)]
pub struct LifecycleCounts {
    pub track_history_tracks: usize,
    pub track_history_entries: usize,
    pub track_history_capacity: usize,
    pub factor_tracks: usize,
    pub factor_records: usize,
    pub factor_capacity: usize,
    pub landmark_count: usize,
    pub landmark_observation_records: usize,
    pub landmark_observation_capacity: usize,
    pub world_entries: usize,
}

/// The stores of one frame: the tracks of each in ascending order, and how much they hold.
#[derive(Debug)]
pub struct LifecycleTraceSnapshot {
    pub frame_id: u64,
    pub track_history_ids: Vec<u64>,
    pub factor_ids: Vec<u64>,
    pub landmark_ids: Vec<u64>,
    pub world_ids: Vec<u64>,
    pub counts: LifecycleCounts,
}

/// What a snapshot holds.
#[verifier::ext_equal]
pub ghost struct SnapshotModel {
    pub frame_id: u64,
    pub history: Seq<u64>,
    pub factors: Seq<u64>,
    pub landmarks: Seq<u64>,
    pub world: Seq<u64>,
    pub counts: LifecycleCounts,
}

impl View for LifecycleTraceSnapshot {
    type V = SnapshotModel;

    open spec fn view(&self) -> SnapshotModel {
        SnapshotModel {
            frame_id: self.frame_id,
            history: self.track_history_ids@,
            factors: self.factor_ids@,
            landmarks: self.landmark_ids@,
            world: self.world_ids@,
            counts: self.counts,
        }
    }
}

/// The trace from frame to frame: the stores of the frame before, and the most they ever held.
#[derive(Debug)]
pub struct LifecycleTrace {
    pub previous: Option<LifecycleTraceSnapshot>,
    pub peak: LifecycleCounts,
}

/// The report of one frame.
#[derive(Debug)]
pub struct LifecycleRecord {
    pub frame_id: u64,
    pub previous_frame_id: Option<u64>,
    pub counts: LifecycleCounts,
    pub active_count: usize,
    pub lost_count: usize,
    pub removed_count: usize,
    pub peaks: LifecycleCounts,
    pub removed_track_ids: Vec<u64>,
    pub removed_factor_ids: Vec<u64>,
    pub removed_landmark_ids: Vec<u64>,
    pub removed_world_ids: Vec<u64>,
    pub track_history_entry_net_drop: usize,
    pub factor_record_net_drop: usize,
    pub landmark_observation_net_drop: usize,
}

/// The number of list items under the first `n` keys.
pub open spec fn items<T>(m: Map<u64, Seq<T>>, keys: Seq<u64>, n: int) -> nat
    decreases n,
{
    if n <= 0 {
        0
    } else {
        items(m, keys, n - 1) + m[keys[n - 1]].len()
    }
}

/// The number of items of all lists.
pub open spec fn all_items<T>(m: Map<u64, Seq<T>>) -> nat {
    items(m, ascending(m.dom()), ascending(m.dom()).len() as int)
}

/// The landmarks of a status.
pub open spec fn with_status(s: Stores, status: LandmarkStatus) -> Seq<u64> {
    ascending(s.landmarks.dom()).filter(|t: u64| s.landmarks[t].status == status)
}

/// The stores of a frame.
pub open spec fn snapshot_of(s: Stores, frame_id: u64, capacities: Capacities) -> SnapshotModel {
    SnapshotModel {
        frame_id,
        history: ascending(s.history.dom()),
        factors: ascending(s.factors.dom()),
        landmarks: ascending(s.landmarks.dom()),
        world: ascending(s.world),
        counts: LifecycleCounts {
            track_history_tracks: ascending(s.history.dom()).len() as usize,
            track_history_entries: all_items(s.history) as usize,
            track_history_capacity: capacities.track_history,
            factor_tracks: ascending(s.factors.dom()).len() as usize,
            factor_records: all_items(s.factors) as usize,
            factor_capacity: capacities.factors,
            landmark_count: ascending(s.landmarks.dom()).len() as usize,
            landmark_observation_records: s.associations.len() as usize,
            landmark_observation_capacity: capacities.observations,
            world_entries: ascending(s.world).len() as usize,
        },
    }
}

/// The larger of two counts.
pub open spec fn larger(a: usize, b: usize) -> usize {
    if a < b {
        b
    } else {
        a
    }
}

/// The most that was held up to now.
pub open spec fn peak_of(a: LifecycleCounts, b: LifecycleCounts) -> LifecycleCounts {
    LifecycleCounts {
        track_history_tracks: larger(a.track_history_tracks, b.track_history_tracks),
        track_history_entries: larger(a.track_history_entries, b.track_history_entries),
        track_history_capacity: larger(a.track_history_capacity, b.track_history_capacity),
        factor_tracks: larger(a.factor_tracks, b.factor_tracks),
        factor_records: larger(a.factor_records, b.factor_records),
        factor_capacity: larger(a.factor_capacity, b.factor_capacity),
        landmark_count: larger(a.landmark_count, b.landmark_count),
        landmark_observation_records: larger(
            a.landmark_observation_records,
            b.landmark_observation_records,
        ),
        landmark_observation_capacity: larger(
            a.landmark_observation_capacity,
            b.landmark_observation_capacity,
        ),
        world_entries: larger(a.world_entries, b.world_entries),
    }
}

/// What is in one list and not in another, in the order of the first.
pub open spec fn without(a: Seq<u64>, b: Seq<u64>) -> Seq<u64> {
    a.filter(|t: u64| !b.contains(t))
}

/// By how much a count fell, none where it did not.
pub open spec fn fall(before: usize, after: usize) -> usize {
    if before > after {
        (before - after) as usize
    } else {
        0
    }
}

/// What a report says of a frame, given the stores of the frame before.
pub open spec fn reports(
    r: LifecycleRecord,
    s: Stores,
    previous: Option<SnapshotModel>,
    peak: LifecycleCounts,
    frame_id: u64,
    capacities: Capacities,
) -> bool {
    let now = snapshot_of(s, frame_id, capacities);
    &&& r.frame_id == frame_id
    &&& r.counts == now.counts
    &&& r.active_count == with_status(s, LandmarkStatus::Active).len()
    &&& r.lost_count == with_status(s, LandmarkStatus::Lost).len()
    &&& r.removed_count == with_status(s, LandmarkStatus::Removed).len()
    &&& r.peaks == peak_of(peak, now.counts)
    &&& match previous {
        Some(p) => {
            &&& r.previous_frame_id == Some(p.frame_id)
            &&& r.removed_track_ids@ == without(p.history, now.history)
            &&& r.removed_factor_ids@ == without(p.factors, now.factors)
            &&& r.removed_landmark_ids@ == without(p.landmarks, now.landmarks)
            &&& r.removed_world_ids@ == without(p.world, now.world)
            &&& r.track_history_entry_net_drop == fall(
                p.counts.track_history_entries,
                now.counts.track_history_entries,
            )
            &&& r.factor_record_net_drop == fall(
                p.counts.factor_records,
                now.counts.factor_records,
            )
            &&& r.landmark_observation_net_drop == fall(
                p.counts.landmark_observation_records,
                now.counts.landmark_observation_records,
            )
        },
        None => {
            &&& r.previous_frame_id is None
            &&& r.removed_track_ids@.len() == 0
            &&& r.removed_factor_ids@.len() == 0
            &&& r.removed_landmark_ids@.len() == 0
            &&& r.removed_world_ids@.len() == 0
            &&& r.track_history_entry_net_drop == 0
            &&& r.factor_record_net_drop == 0
            &&& r.landmark_observation_net_drop == 0
        },
    }
}

/// Whether one count is at least another in every part.
pub open spec fn covers(a: LifecycleCounts, b: LifecycleCounts) -> bool {
    &&& a.track_history_tracks >= b.track_history_tracks
    &&& a.track_history_entries >= b.track_history_entries
    &&& a.track_history_capacity >= b.track_history_capacity
    &&& a.factor_tracks >= b.factor_tracks
    &&& a.factor_records >= b.factor_records
    &&& a.factor_capacity >= b.factor_capacity
    &&& a.landmark_count >= b.landmark_count
    &&& a.landmark_observation_records >= b.landmark_observation_records
    &&& a.landmark_observation_capacity >= b.landmark_observation_capacity
    &&& a.world_entries >= b.world_entries
}

/// A peak never falls, is at least what is held now, and is no more than these two call for.
pub proof fn peaks_bound_the_counts(
    peak: LifecycleCounts,
    counts: LifecycleCounts,
    bound: LifecycleCounts,
)
    ensures
        covers(peak_of(peak, counts), peak),
        covers(peak_of(peak, counts), counts),
        covers(bound, peak) && covers(bound, counts) ==> covers(bound, peak_of(peak, counts)),
{
}

fn count_items<T>(m: &BTreeMap<u64, Vec<T>>, keys: &Vec<u64>) -> (count: usize)
    requires
        keys@ == ascending(m@.dom()),
        keys@.to_set() == m@.dom(),
        all_items(lists(m@)) <= usize::MAX,
    ensures
        count == all_items(lists(m@)),
{
    let ghost l = lists(m@);
    assert(l.dom() =~= m@.dom());
    let mut count: usize = 0;
    for i in 0..keys.len()
        invariant
            l == lists(m@),
            keys@ == ascending(l.dom()),
            keys@.to_set() == m@.dom(),
            count == items(l, keys@, i as int),
            items(l, keys@, keys@.len() as int) <= usize::MAX,
    {
        proof {
            items_grow(l, keys@, i + 1, keys@.len() as int);
        }
        assert(keys@.to_set().contains(keys@[i as int]));
        let here: usize = match m.get(&keys[i]) {
            Some(list) => list.len(),
            None => 0,
        };
        count = count + here;
    }
    count
}

proof fn items_grow<T>(m: Map<u64, Seq<T>>, keys: Seq<u64>, a: int, b: int)
    requires
        0 <= a <= b,
    ensures
        items(m, keys, a) <= items(m, keys, b),
    decreases b - a,
{
    if a < b {
        items_grow(m, keys, a, b - 1);
    }
}

fn count_status(store: &TrackStore, keys: &Vec<u64>, status: LandmarkStatus) -> (count: usize)
    requires
        keys@ == ascending(store@.landmarks.dom()),
        keys@.to_set() == store@.landmarks.dom(),
    ensures
        count == with_status(store@, status).len(),
{
    let ghost keep = |t: u64| store@.landmarks[t].status == status;
    let mut count: usize = 0;
    proof {
        reveal(Seq::filter);
        assert(keys@.take(0).filter(keep) =~= Seq::empty());
    }
    for i in 0..keys.len()
        invariant
            keys@.to_set() == store@.landmarks.dom(),
            keep == (|t: u64| store@.landmarks[t].status == status),
            count == keys@.take(i as int).filter(keep).len(),
            count <= i,
    {
        proof {
            filter_next(keys@, keep, i as int);
            assert(keys@.to_set().contains(keys@[i as int]));
        }
        let same = match store.landmarks.landmarks.get(&keys[i]) {
            Some(record) => record.status == status,
            None => false,
        };
        if same {
            count = count + 1;
        }
    }
    assert(keys@.take(keys@.len() as int) =~= keys@);
    count
}

fn list_without(a: &Vec<u64>, b: &Vec<u64>) -> (rest: Vec<u64>)
    ensures
        rest@ == without(a@, b@),
{
    let ghost keep = |t: u64| !b@.contains(t);
    let mut rest: Vec<u64> = Vec::new();
    proof {
        reveal(Seq::filter);
        assert(a@.take(0).filter(keep) =~= Seq::empty());
    }
    for i in 0..a.len()
        invariant
            keep == (|t: u64| !b@.contains(t)),
            rest@ == a@.take(i as int).filter(keep),
    {
        proof {
            filter_next(a@, keep, i as int);
        }
        if !contains_id(b, a[i]) {
            rest.push(a[i]);
        }
    }
    assert(a@.take(a@.len() as int) =~= a@);
    rest
}

fn larger_of(a: usize, b: usize) -> (c: usize)
    ensures
        c == larger(a, b),
{
    if a < b {
        b
    } else {
        a
    }
}

fn fall_of(before: usize, after: usize) -> (drop: usize)
    ensures
        drop == fall(before, after),
{
    if before > after {
        before - after
    } else {
        0
    }
}

fn peak_counts(a: &LifecycleCounts, b: &LifecycleCounts) -> (peak: LifecycleCounts)
    ensures
        peak == peak_of(*a, *b),
{
    LifecycleCounts {
        track_history_tracks: larger_of(a.track_history_tracks, b.track_history_tracks),
        track_history_entries: larger_of(a.track_history_entries, b.track_history_entries),
        track_history_capacity: larger_of(a.track_history_capacity, b.track_history_capacity),
        factor_tracks: larger_of(a.factor_tracks, b.factor_tracks),
        factor_records: larger_of(a.factor_records, b.factor_records),
        factor_capacity: larger_of(a.factor_capacity, b.factor_capacity),
        landmark_count: larger_of(a.landmark_count, b.landmark_count),
        landmark_observation_records: larger_of(
            a.landmark_observation_records,
            b.landmark_observation_records,
        ),
        landmark_observation_capacity: larger_of(
            a.landmark_observation_capacity,
            b.landmark_observation_capacity,
        ),
        world_entries: larger_of(a.world_entries, b.world_entries),
    }
}

impl LifecycleTrace {
    /// A trace that has seen no frame.
    pub fn new() -> (trace: LifecycleTrace)
        ensures
            trace.previous is None,
            trace.peak == (LifecycleCounts {
                track_history_tracks: 0,
                track_history_entries: 0,
                track_history_capacity: 0,
                factor_tracks: 0,
                factor_records: 0,
                factor_capacity: 0,
                landmark_count: 0,
                landmark_observation_records: 0,
                landmark_observation_capacity: 0,
                world_entries: 0,
            }),
    {
        LifecycleTrace {
            previous: None,
            peak: LifecycleCounts {
                track_history_tracks: 0,
                track_history_entries: 0,
                track_history_capacity: 0,
                factor_tracks: 0,
                factor_records: 0,
                factor_capacity: 0,
                landmark_count: 0,
                landmark_observation_records: 0,
                landmark_observation_capacity: 0,
                world_entries: 0,
            },
        }
    }

    /// Reports the stores of a frame and remembers them for the next one.
    pub fn record(&mut self, store: &TrackStore, frame_id: u64, capacities: Capacities) -> (report:
        LifecycleRecord)
        requires
            all_items(store@.history) <= usize::MAX,
            all_items(store@.factors) <= usize::MAX,
        ensures
            reports(
                report,
                store@,
                match old(self).previous {
                    Some(p) => Some(p@),
                    None => None,
                },
                old(self).peak,
                frame_id,
                capacities,
            ),
            final(self).previous matches Some(p) && p@ == snapshot_of(
                store@,
                frame_id,
                capacities,
            ),
            final(self).peak == report.peaks,
    {
        let ghost s = store@;
        assert(s.history.dom() =~= store.track_history@.dom());
        assert(s.factors.dom() =~= store.window_observations@.dom());
        let track_history_ids = map_keys(&store.track_history);
        let factor_ids = map_keys(&store.window_observations);
        let landmark_ids = map_keys(&store.landmarks.landmarks);
        let world_ids = set_members(&store.landmark_world);
        let counts = LifecycleCounts {
            track_history_tracks: track_history_ids.len(),
            track_history_entries: count_items(&store.track_history, &track_history_ids),
            track_history_capacity: capacities.track_history,
            factor_tracks: factor_ids.len(),
            factor_records: count_items(&store.window_observations, &factor_ids),
            factor_capacity: capacities.factors,
            landmark_count: landmark_ids.len(),
            landmark_observation_records: store.landmarks.observations.len(),
            landmark_observation_capacity: capacities.observations,
            world_entries: world_ids.len(),
        };
        let peaks = peak_counts(&self.peak, &counts);
        let active_count: usize = count_status(store, &landmark_ids, LandmarkStatus::Active);
        let lost_count: usize = count_status(store, &landmark_ids, LandmarkStatus::Lost);
        let removed_count: usize = count_status(store, &landmark_ids, LandmarkStatus::Removed);
        let report = match &self.previous {
            Some(p) => LifecycleRecord {
                frame_id,
                previous_frame_id: Some(p.frame_id),
                counts,
                active_count,
                lost_count,
                removed_count,
                peaks,
                removed_track_ids: list_without(&p.track_history_ids, &track_history_ids),
                removed_factor_ids: list_without(&p.factor_ids, &factor_ids),
                removed_landmark_ids: list_without(&p.landmark_ids, &landmark_ids),
                removed_world_ids: list_without(&p.world_ids, &world_ids),
                track_history_entry_net_drop: fall_of(
                    p.counts.track_history_entries,
                    counts.track_history_entries,
                ),
                factor_record_net_drop: fall_of(p.counts.factor_records, counts.factor_records),
                landmark_observation_net_drop: fall_of(
                    p.counts.landmark_observation_records,
                    counts.landmark_observation_records,
                ),
            },
            None => LifecycleRecord {
                frame_id,
                previous_frame_id: None,
                counts,
                active_count,
                lost_count,
                removed_count,
                peaks,
                removed_track_ids: Vec::new(),
                removed_factor_ids: Vec::new(),
                removed_landmark_ids: Vec::new(),
                removed_world_ids: Vec::new(),
                track_history_entry_net_drop: 0,
                factor_record_net_drop: 0,
                landmark_observation_net_drop: 0,
            },
        };
        self.peak = peaks;
        self.previous = Some(
            LifecycleTraceSnapshot {
                frame_id,
                track_history_ids,
                factor_ids,
                landmark_ids,
                world_ids,
                counts,
            },
        );
        report
    }
}

/// A report counts the tracks with a history, with factor records and with landmarks, the landmarks of each
/// status, the associations and the world points, and names, in ascending order, exactly those that the
/// report before had and that are gone.
pub proof fn reports_tell_what_went(
    r: LifecycleRecord,
    s: Stores,
    previous: Option<SnapshotModel>,
    peak: LifecycleCounts,
    frame_id: u64,
    capacities: Capacities,
)
    requires
        reports(r, s, previous, peak, frame_id, capacities),
        s.history.dom().finite(),
        s.factors.dom().finite(),
        s.landmarks.dom().finite(),
        s.world.finite(),
        s.history.dom().len() <= usize::MAX,
        s.factors.dom().len() <= usize::MAX,
        s.landmarks.dom().len() <= usize::MAX,
        s.world.len() <= usize::MAX,
        s.associations.len() <= usize::MAX,
    ensures
        r.frame_id == frame_id,
        r.counts.track_history_tracks == s.history.dom().len(),
        r.counts.factor_tracks == s.factors.dom().len(),
        r.counts.landmark_count == s.landmarks.dom().len(),
        r.counts.world_entries == s.world.len(),
        r.counts.landmark_observation_records == s.associations.len(),
        r.counts.track_history_capacity == capacities.track_history,
        r.counts.factor_capacity == capacities.factors,
        r.counts.landmark_observation_capacity == capacities.observations,
        r.active_count == s.landmarks.dom().filter(
            |t: u64| s.landmarks[t].status is Active,
        ).len(),
        r.lost_count == s.landmarks.dom().filter(|t: u64| s.landmarks[t].status is Lost).len(),
        r.removed_count == s.landmarks.dom().filter(
            |t: u64| s.landmarks[t].status is Removed,
        ).len(),
        previous matches Some(p) ==> {
            &&& r.previous_frame_id == Some(p.frame_id)
            &&& forall|t: u64| #[trigger]
                r.removed_track_ids@.contains(t) <==> p.history.contains(t)
                    && !s.history.contains_key(t)
            &&& forall|t: u64| #[trigger]
                r.removed_factor_ids@.contains(t) <==> p.factors.contains(t)
                    && !s.factors.contains_key(t)
            &&& forall|t: u64| #[trigger]
                r.removed_landmark_ids@.contains(t) <==> p.landmarks.contains(t)
                    && !s.landmarks.contains_key(t)
            &&& forall|t: u64| #[trigger]
                r.removed_world_ids@.contains(t) <==> p.world.contains(t) && !s.world.contains(t)
            &&& r.track_history_entry_net_drop + r.counts.track_history_entries == (
            if p.counts.track_history_entries > r.counts.track_history_entries {
                p.counts.track_history_entries
            } else {
                r.counts.track_history_entries
            })
            &&& r.factor_record_net_drop + r.counts.factor_records == (
            if p.counts.factor_records > r.counts.factor_records {
                p.counts.factor_records
            } else {
                r.counts.factor_records
            })
            &&& r.landmark_observation_net_drop + r.counts.landmark_observation_records == (
            if p.counts.landmark_observation_records > r.counts.landmark_observation_records {
                p.counts.landmark_observation_records
            } else {
                r.counts.landmark_observation_records
            })
        },
{
    listed(s.history.dom());
    listed(s.factors.dom());
    listed(s.landmarks.dom());
    listed(s.world);
    status_counted(s, LandmarkStatus::Active);
    status_counted(s, LandmarkStatus::Lost);
    status_counted(s, LandmarkStatus::Removed);
    assert(s.landmarks.dom().filter(|t: u64| s.landmarks[t].status == LandmarkStatus::Active)
        =~= s.landmarks.dom().filter(|t: u64| s.landmarks[t].status is Active));
    assert(s.landmarks.dom().filter(|t: u64| s.landmarks[t].status == LandmarkStatus::Lost)
        =~= s.landmarks.dom().filter(|t: u64| s.landmarks[t].status is Lost));
    assert(s.landmarks.dom().filter(|t: u64| s.landmarks[t].status == LandmarkStatus::Removed)
        =~= s.landmarks.dom().filter(|t: u64| s.landmarks[t].status is Removed));
    if previous is Some {
        let p = previous->0;
        left_behind(p.history, s.history.dom());
        left_behind(p.factors, s.factors.dom());
        left_behind(p.landmarks, s.landmarks.dom());
        left_behind(p.world, s.world);
    }
}

proof fn listed(members: Set<u64>)
    requires
        members.finite(),
    ensures
        ascending(members).len() == members.len(),
        forall|t: u64| #[trigger] ascending(members).contains(t) <==> members.contains(t),
{
    let list = ascending(members);
    ascending_lists_members(members);
    assert(list.no_duplicates());
    list.unique_seq_to_set();
    assert forall|t: u64| #[trigger] list.contains(t) <==> members.contains(t) by {
        assert(list.to_set().contains(t) <==> members.contains(t));
    }
}

proof fn left_behind(before: Seq<u64>, now: Set<u64>)
    requires
        now.finite(),
    ensures
        forall|t: u64| #[trigger]
            without(before, ascending(now)).contains(t) <==> before.contains(t) && !now.contains(t),
{
    listed(now);
    filter_members(before, |t: u64| !ascending(now).contains(t));
}

proof fn status_counted(s: Stores, status: LandmarkStatus)
    requires
        s.landmarks.dom().finite(),
    ensures
        with_status(s, status).len() == s.landmarks.dom().filter(
            |t: u64| s.landmarks[t].status == status,
        ).len(),
{
    let all = ascending(s.landmarks.dom());
    let keep = |t: u64| s.landmarks[t].status == status;
    listed(s.landmarks.dom());
    ascending_lists_members(s.landmarks.dom());
    filter_members(all, keep);
    let some = all.filter(keep);
    filter_stays_distinct(all, keep);
    some.unique_seq_to_set();
    assert(some.to_set() =~= s.landmarks.dom().filter(keep)) by {
        assert forall|t: u64| some.to_set().contains(t) <==> s.landmarks.dom().filter(
            keep,
        ).contains(t) by {
            assert(some.contains(t) <==> all.contains(t) && keep(t));
        }
    }
}

proof fn filter_stays_distinct(s: Seq<u64>, keep: spec_fn(u64) -> bool)
    requires
        s.no_duplicates(),
    ensures
        s.filter(keep).no_duplicates(),
    decreases s.len(),
{
    reveal(Seq::filter);
    if s.len() > 0 {
        let front = s.drop_last();
        filter_stays_distinct(front, keep);
        filter_members(front, keep);
        if keep(s.last()) {
            let kept = front.filter(keep);
            assert forall|i: int, j: int|
                0 <= i < j < kept.len() + 1 implies kept.push(s.last())[i] != kept.push(
                s.last(),
            )[j] by {
                if j == kept.len() {
                    assert(kept.contains(kept[i]));
                    assert(front.contains(kept[i]));
                    let k = choose|k: int| 0 <= k < front.len() && front[k] == kept[i];
                    assert(s[k] != s[s.len() - 1]);
                }
            }
        }
    }
}

/// The items under some keys are those under each of them, added up.
pub proof fn items_add_up<T>(m: Map<u64, Seq<T>>, keys: Seq<u64>, n: int)
    requires
        0 <= n < keys.len(),
    ensures
        items(m, keys, 0) == 0,
        items(m, keys, n + 1) == items(m, keys, n) + m[keys[n]].len(),
        all_items(m) == items(m, ascending(m.dom()), ascending(m.dom()).len() as int),
{
}

} // verus!

//! The table of triangulated landmarks: which frame hosts each, whether it is still seen, and which
//! frames were associated with it.
use crate::ordered::{contains_id, increasing, map_keys, remove_all};
use std::collections::BTreeMap;
use vstd::prelude::*;

verus! {

broadcast use vstd::std_specs::btree::group_btree_axioms;

/// Where a landmark stands in its life.
#[derive(Clone, Copy, Debug, PartialEq, Eq, Structural)]
pub enum LandmarkStatus {
    Active,
    Lost,
    Removed,
}

/// One landmark: its host frame and camera, its status, how often it was associated, and how many
/// frames in a row missed it.
#[derive(Clone, Copy, Debug, PartialEq, Eq, Structural)]
pub struct LandmarkRecord {
    pub anchor_pose: u64,
    pub anchor_camera_id: u16,
    pub status: LandmarkStatus,
    pub connected_observations: u64,
    pub missed_frames: u64,
}

/// One association of a landmark with a frame.
#[derive(Clone, Copy, Debug, PartialEq, Eq, Structural)]
pub struct AssociatedFrame {
    pub landmark_id: u64,
    pub frame_id: u64,
}

/// The landmarks by track, and their associations in the order in which they were made.
#[derive(Debug)]
pub struct ObservationDb {
    pub landmarks: BTreeMap<u64, LandmarkRecord>,
    pub observations: Vec<AssociatedFrame>,
}

/// A landmark as it enters the table.
pub open spec fn new_landmark(anchor_pose: u64, anchor_camera_id: u16) -> LandmarkRecord {
    LandmarkRecord {
        anchor_pose,
        anchor_camera_id,
        status: LandmarkStatus::Active,
        connected_observations: 0,
        missed_frames: 0,
    }
}

/// A count that stays at the largest value.
pub open spec fn count_up(n: u64) -> u64 {
    if n == u64::MAX {
        n
    } else {
        (n + 1) as u64
    }
}

/// A landmark after one association.
pub open spec fn associated(record: LandmarkRecord) -> LandmarkRecord {
    LandmarkRecord {
        status: LandmarkStatus::Active,
        connected_observations: count_up(record.connected_observations),
        missed_frames: 0,
        ..record
    }
}

/// A landmark after `n` associations.
pub open spec fn associated_times(record: LandmarkRecord, n: nat) -> LandmarkRecord
    decreases n,
{
    if n == 0 {
        record
    } else {
        associated(associated_times(record, (n - 1) as nat))
    }
}

/// A landmark after a frame that did not see it.
pub open spec fn missed(record: LandmarkRecord) -> LandmarkRecord {
    if record.status is Removed {
        record
    } else {
        LandmarkRecord {
            status: LandmarkStatus::Lost,
            missed_frames: count_up(record.missed_frames),
            ..record
        }
    }
}

/// Whether a track has a landmark that was not removed.
pub open spec fn live(landmarks: Map<u64, LandmarkRecord>, track_id: u64) -> bool {
    landmarks.contains_key(track_id) && !(landmarks[track_id].status is Removed)
}

/// The number of landmarks that were not removed.
pub open spec fn live_tracks(landmarks: Map<u64, LandmarkRecord>) -> Set<u64> {
    Set::new(|t: u64| live(landmarks, t))
}

impl ObservationDb {
    /// An empty table.
    pub fn new() -> (db: ObservationDb)
        ensures
            db.landmarks@ == Map::<u64, LandmarkRecord>::empty(),
            db.observations@ == Seq::<AssociatedFrame>::empty(),
    {
        ObservationDb { landmarks: BTreeMap::new(), observations: Vec::new() }
    }

    /// Enters a landmark for a track, in place of one it may have had.
    pub fn insert(&mut self, track_id: u64, anchor_pose: u64, anchor_camera_id: u16)
        ensures
            final(self).landmarks@ == old(self).landmarks@.insert(
                track_id,
                new_landmark(anchor_pose, anchor_camera_id),
            ),
            final(self).observations@ == old(self).observations@,
    {
        self.landmarks.insert(
            track_id,
            LandmarkRecord {
                anchor_pose,
                anchor_camera_id,
                status: LandmarkStatus::Active,
                connected_observations: 0,
                missed_frames: 0,
            },
        );
    }

    /// Associates a frame with the landmark of a track, which becomes active again. A track without
    /// a landmark changes nothing.
    pub fn associate(&mut self, track_id: u64, frame_id: u64)
        ensures
            old(self).landmarks@.contains_key(track_id) ==> {
                &&& final(self).landmarks@ == old(self).landmarks@.insert(
                    track_id,
                    associated(old(self).landmarks@[track_id]),
                )
                &&& final(self).observations@ == old(self).observations@.push(
                    AssociatedFrame { landmark_id: track_id, frame_id },
                )
            },
            !old(self).landmarks@.contains_key(track_id) ==> *final(self) == *old(self),
    {
        let found: Option<LandmarkRecord> = match self.landmarks.get(&track_id) {
            Some(record) => Some(*record),
            None => None,
        };
        if let Some(record) = found {
            let connected: u64 = if record.connected_observations == u64::MAX {
                u64::MAX
            } else {
                record.connected_observations + 1
            };
            self.landmarks.insert(
                track_id,
                LandmarkRecord {
                    anchor_pose: record.anchor_pose,
                    anchor_camera_id: record.anchor_camera_id,
                    status: LandmarkStatus::Active,
                    connected_observations: connected,
                    missed_frames: 0,
                },
            );
            self.observations.push(AssociatedFrame { landmark_id: track_id, frame_id });
        }
    }

    /// Whether a track has a landmark that was not removed.
    pub fn is_live(&self, track_id: u64) -> (result: bool)
        ensures
            result == live(self.landmarks@, track_id),
    {
        match self.landmarks.get(&track_id) {
            Some(record) => match record.status {
                LandmarkStatus::Removed => false,
                _ => true,
            },
            None => false,
        }
    }

    /// Marks every landmark that a frame did not see as lost, and leaves it in the table.
    pub fn mark_frame_end_deferred(&mut self, seen: &Vec<u64>)
        ensures
            final(self).landmarks@ == old(self).landmarks@.map_entries(
                |t: u64, r: LandmarkRecord| if seen@.contains(t) { r } else { missed(r) },
            ),
            final(self).observations@ == old(self).observations@,
    {
        let tracks = map_keys(&self.landmarks);
        let ghost m0 = self.landmarks@;
        let ghost after = |t: u64, r: LandmarkRecord| if seen@.contains(t) { r } else { missed(r) };
        for i in 0..tracks.len()
            invariant
                increasing(tracks@),
                tracks@.to_set() == m0.dom(),
                self.landmarks@.dom() == m0.dom(),
                self.observations@ == old(self).observations@,
                after == (|t: u64, r: LandmarkRecord|
                    if seen@.contains(t) { r } else { missed(r) }),
                forall|j: int|
                    0 <= j < i ==> self.landmarks@[#[trigger] tracks@[j]] == after(
                        tracks@[j],
                        m0[tracks@[j]],
                    ),
                forall|j: int|
                    i <= j < tracks@.len() ==> self.landmarks@[#[trigger] tracks@[j]]
                        == m0[tracks@[j]],
        {
            let track: u64 = tracks[i];
            assert(tracks@.to_set().contains(track));
            if !contains_id(seen, track) {
                let record: LandmarkRecord = match self.landmarks.get(&track) {
                    Some(record) => *record,
                    None => {
                        assert(false);
                        return;
                    },
                };
                match record.status {
                    LandmarkStatus::Removed => {},
                    _ => {
                        let missed_frames: u64 = if record.missed_frames == u64::MAX {
                            u64::MAX
                        } else {
                            record.missed_frames + 1
                        };
                        self.landmarks.insert(
                            track,
                            LandmarkRecord {
                                anchor_pose: record.anchor_pose,
                                anchor_camera_id: record.anchor_camera_id,
                                status: LandmarkStatus::Lost,
                                connected_observations: record.connected_observations,
                                missed_frames,
                            },
                        );
                        assert(self.landmarks@.dom() =~= m0.dom());
                    },
                }
            }
        }
        proof {
            assert forall|t: u64| m0.contains_key(t) implies self.landmarks@[t] == after(t, m0[t]) by {
                assert(tracks@.to_set().contains(t));
                let j = choose|j: int| 0 <= j < tracks@.len() && tracks@[j] == t;
            }
            assert(self.landmarks@ =~= m0.map_entries(after));
        }
    }

    /// The lost landmarks in ascending order.
    pub fn lost_ids(&self) -> (lost: Vec<u64>)
        ensures
            increasing(lost@),
            forall|t: u64| #[trigger]
                lost@.contains(t) <==> self.landmarks@.contains_key(t)
                    && self.landmarks@[t].status is Lost,
    {
        let tracks = map_keys(&self.landmarks);
        let mut lost: Vec<u64> = Vec::new();
        for i in 0..tracks.len()
            invariant
                increasing(tracks@),
                tracks@.to_set() == self.landmarks@.dom(),
                increasing(lost@),
                forall|j: int| 0 <= j < lost@.len() && i < tracks@.len() ==> lost@[j] < tracks@[i as int],
                forall|t: u64| #[trigger]
                    lost@.contains(t) <==> tracks@.take(i as int).contains(t)
                        && self.landmarks@[t].status is Lost,
        {
            let track: u64 = tracks[i];
            assert(tracks@.to_set().contains(track));
            let ghost before = lost@;
            let is_lost = match self.landmarks.get(&track) {
                Some(record) => match record.status {
                    LandmarkStatus::Lost => true,
                    _ => false,
                },
                None => false,
            };
            if is_lost {
                lost.push(track);
            }
            proof {
                assert(tracks@.take(i + 1) =~= tracks@.take(i as int).push(track));
                assert forall|t: u64| #[trigger] lost@.contains(t) <==> tracks@.take(
                    i + 1,
                ).contains(t) && self.landmarks@[t].status is Lost by {
                    vstd::seq_lib::lemma_seq_contains_after_push(tracks@.take(i as int), track, t);
                    vstd::seq_lib::lemma_seq_contains_after_push(before, track, t);
                }
            }
        }
        proof {
            assert(tracks@.take(tracks@.len() as int) =~= tracks@);
            assert forall|t: u64| #[trigger] lost@.contains(t) <==> self.landmarks@.contains_key(t)
                && self.landmarks@[t].status is Lost by {
                assert(tracks@.to_set().contains(t) == tracks@.contains(t));
            }
        }
        lost
    }

    /// Removes the lost landmarks and returns how many there were.
    pub fn remove_deferred_lost(&mut self) -> (removed: usize)
        ensures
            final(self).landmarks@ == old(self).landmarks@.remove_keys(
                Set::new(|t: u64| old(self).landmarks@[t].status is Lost),
            ),
            final(self).observations@ == old(self).observations@,
            removed == old(self).landmarks@.dom().filter(
                |t: u64| old(self).landmarks@[t].status is Lost,
            ).len(),
    {
        let lost = self.lost_ids();
        let ghost m0 = self.landmarks@;
        remove_all(&mut self.landmarks, &lost);
        proof {
            let picked = m0.dom().filter(|t: u64| m0[t].status is Lost);
            assert forall|t: u64| lost@.to_set().contains(t) == picked.contains(t) by {
                assert(lost@.to_set().contains(t) == lost@.contains(t));
            }
            assert(lost@.to_set() =~= picked);
            lost@.unique_seq_to_set();
            assert(self.landmarks@ =~= m0.remove_keys(Set::new(|t: u64| m0[t].status is Lost)));
        }
        lost.len()
    }

    /// Removes the landmarks that the frames host and returns how many there were.
    pub fn remove_host_landmarks(&mut self, frames: &Vec<u64>) -> (removed: usize)
        ensures
            final(self).landmarks@ == old(self).landmarks@.remove_keys(
                Set::new(|t: u64| frames@.contains(old(self).landmarks@[t].anchor_pose)),
            ),
            final(self).observations@ == old(self).observations@,
            removed == old(self).landmarks@.dom().filter(
                |t: u64| frames@.contains(old(self).landmarks@[t].anchor_pose),
            ).len(),
    {
        let tracks = map_keys(&self.landmarks);
        let ghost m0 = self.landmarks@;
        let mut hosted: Vec<u64> = Vec::new();
        for i in 0..tracks.len()
            invariant
                increasing(tracks@),
                m0 == self.landmarks@,
                tracks@.to_set() == m0.dom(),
                increasing(hosted@),
                forall|j: int|
                    0 <= j < hosted@.len() && i < tracks@.len() ==> hosted@[j] < tracks@[i as int],
                forall|t: u64| #[trigger]
                    hosted@.contains(t) <==> tracks@.take(i as int).contains(t)
                        && frames@.contains(m0[t].anchor_pose),
        {
            let track: u64 = tracks[i];
            assert(tracks@.to_set().contains(track));
            let ghost before = hosted@;
            let gone = match self.landmarks.get(&track) {
                Some(record) => contains_id(frames, record.anchor_pose),
                None => false,
            };
            if gone {
                hosted.push(track);
            }
            proof {
                assert(tracks@.take(i + 1) =~= tracks@.take(i as int).push(track));
                assert forall|t: u64| #[trigger] hosted@.contains(t) <==> tracks@.take(
                    i + 1,
                ).contains(t) && frames@.contains(m0[t].anchor_pose) by {
                    vstd::seq_lib::lemma_seq_contains_after_push(tracks@.take(i as int), track, t);
                    vstd::seq_lib::lemma_seq_contains_after_push(before, track, t);
                }
            }
        }
        assert(tracks@.take(tracks@.len() as int) =~= tracks@);
        remove_all(&mut self.landmarks, &hosted);
        proof {
            let picked = m0.dom().filter(|t: u64| frames@.contains(m0[t].anchor_pose));
            assert forall|t: u64| hosted@.to_set().contains(t) == picked.contains(t) by {
                assert(hosted@.to_set().contains(t) == hosted@.contains(t));
                assert(tracks@.to_set().contains(t) == tracks@.contains(t));
            }
            assert(hosted@.to_set() =~= picked);
            hosted@.unique_seq_to_set();
            assert(self.landmarks@ =~= m0.remove_keys(
                Set::new(|t: u64| frames@.contains(m0[t].anchor_pose)),
            ));
        }
        hosted.len()
    }

    /// Drops the associations of the frames.
    pub fn remove_frame_observations(&mut self, frames: &Vec<u64>)
        ensures
            final(self).landmarks@ == old(self).landmarks@,
            final(self).observations@ == old(self).observations@.filter(
                |o: AssociatedFrame| !frames@.contains(o.frame_id),
            ),
    {
        let ghost keep = |o: AssociatedFrame| !frames@.contains(o.frame_id);
        let mut kept: Vec<AssociatedFrame> = Vec::new();
        proof {
            reveal(Seq::filter);
            assert(self.observations@.take(0).filter(keep) =~= Seq::empty());
        }
        for i in 0..self.observations.len()
            invariant
                self == old(self),
                keep == (|o: AssociatedFrame| !frames@.contains(o.frame_id)),
                kept@ == self.observations@.take(i as int).filter(keep),
        {
            proof {
                crate::ordered::filter_next(self.observations@, keep, i as int);
            }
            let o = self.observations[i];
            if !contains_id(frames, o.frame_id) {
                kept.push(o);
            }
        }
        assert(self.observations@.take(self.observations@.len() as int) =~= self.observations@);
        self.observations = kept;
    }

    /// The number of landmarks that were not removed.
    pub fn live_count(&self) -> (count: usize)
        ensures
            count == live_tracks(self.landmarks@).len(),
    {
        let tracks = map_keys(&self.landmarks);
        let mut count: usize = 0;
        let ghost mut found: Seq<u64> = Seq::empty();
        for i in 0..tracks.len()
            invariant
                increasing(tracks@),
                tracks@.to_set() == self.landmarks@.dom(),
                count == found.len(),
                count <= i,
                increasing(found),
                forall|j: int| 0 <= j < found.len() && i < tracks@.len() ==> found[j] < tracks@[i as int],
                forall|t: u64| #[trigger]
                    found.contains(t) <==> tracks@.take(i as int).contains(t) && live(
                        self.landmarks@,
                        t,
                    ),
        {
            let track: u64 = tracks[i];
            assert(tracks@.to_set().contains(track));
            let ghost before = found;
            if self.is_live(track) {
                count += 1;
                proof {
                    found = found.push(track);
                }
            }
            proof {
                assert(tracks@.take(i + 1) =~= tracks@.take(i as int).push(track));
                assert forall|t: u64| #[trigger] found.contains(t) <==> tracks@.take(
                    i + 1,
                ).contains(t) && live(self.landmarks@, t) by {
                    vstd::seq_lib::lemma_seq_contains_after_push(tracks@.take(i as int), track, t);
                    vstd::seq_lib::lemma_seq_contains_after_push(before, track, t);
                }
            }
        }
        proof {
            assert(tracks@.take(tracks@.len() as int) =~= tracks@);
            assert forall|t: u64| found.to_set().contains(t) == live_tracks(
                self.landmarks@,
            ).contains(t) by {
                assert(found.to_set().contains(t) == found.contains(t));
                assert(tracks@.to_set().contains(t) == tracks@.contains(t));
            }
            assert(found.to_set() =~= live_tracks(self.landmarks@));
            found.unique_seq_to_set();
        }
        count
    }
}

/// Associations make a landmark active, forget what it missed, count up to the largest value, and leave its
/// host alone; none leaves it as it was.
pub proof fn associations_add_up(record: LandmarkRecord, n: nat)
    ensures
        associated_times(record, 0) == record,
        n > 0 ==> {
            let after = associated_times(record, n);
            &&& after.status is Active
            &&& after.missed_frames == 0
            &&& after.anchor_pose == record.anchor_pose
            &&& after.anchor_camera_id == record.anchor_camera_id
            &&& after.connected_observations == if record.connected_observations + n <= u64::MAX {
                record.connected_observations + n
            } else {
                u64::MAX as int
            }
        },
    decreases n,
{
    if n > 1 {
        associations_add_up(record, (n - 1) as nat);
    } else if n == 1 {
        assert(associated_times(record, 0) == record);
    }
}

/// A frame that does not see a landmark makes it lost and counts, up to the largest value, unless it was
/// removed; where it is, and by how many observations, stays.
pub proof fn misses_add_up(record: LandmarkRecord)
    ensures
        record.status is Removed ==> missed(record) == record,
        !(record.status is Removed) ==> missed(record).status is Lost && (missed(
            record,
        ).missed_frames == record.missed_frames + 1 || (missed(record).missed_frames
            == record.missed_frames && record.missed_frames == u64::MAX)),
        missed(record).anchor_pose == record.anchor_pose,
        missed(record).anchor_camera_id == record.anchor_camera_id,
        missed(record).connected_observations == record.connected_observations,
        new_landmark(record.anchor_pose, record.anchor_camera_id).status is Active,
        new_landmark(record.anchor_pose, record.anchor_camera_id).connected_observations == 0,
        new_landmark(record.anchor_pose, record.anchor_camera_id).missed_frames == 0,
        new_landmark(record.anchor_pose, record.anchor_camera_id).anchor_pose
            == record.anchor_pose,
        new_landmark(record.anchor_pose, record.anchor_camera_id).anchor_camera_id
            == record.anchor_camera_id,
{
}

} // verus!

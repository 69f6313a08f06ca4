//! What the stores give up when frames leave the window.
use crate::basalt::collect::{retain_active, HostKey, Stores, TrackStore};
use crate::basalt::identity::{StoredObservation, TrackHistory};
use crate::basalt::landmarks::{AssociatedFrame, LandmarkRecord};
use crate::ordered::{
    contains_id, copy_list_of, filter_members, filter_next, lists, map_keys, retain_ids,
    set_members,
};
use std::collections::BTreeMap;
use vstd::prelude::*;

verus! {

broadcast use vstd::std_specs::btree::group_btree_axioms;

/// The factor records on the active frames; a track without one is gone.
pub open spec fn active_factors(
    factors: Map<u64, Seq<StoredObservation>>,
    active: Seq<u64>,
) -> Map<u64, Seq<StoredObservation>> {
    let keep = |r: StoredObservation| active.contains(r.frame_id);
    Map::new(
        |t: u64| factors.contains_key(t) && factors[t].filter(keep).len() > 0,
        |t: u64| factors[t].filter(keep),
    )
}

/// The history entries on the active frames; a track without one is gone.
pub open spec fn active_history(
    history: Map<u64, Seq<TrackHistory>>,
    active: Seq<u64>,
) -> Map<u64, Seq<TrackHistory>> {
    let keep = |h: TrackHistory| active.contains(h.frame_id);
    Map::new(
        |t: u64| history.contains_key(t) && history[t].filter(keep).len() > 0,
        |t: u64| history[t].filter(keep),
    )
}

/// Whether some landmark with factor records is hosted by the frame and the camera.
pub open spec fn hosts_landmark(
    factors: Map<u64, Seq<StoredObservation>>,
    landmarks: Map<u64, LandmarkRecord>,
    key: HostKey,
) -> bool {
    exists|t: u64| #[trigger]
        factors.contains_key(t) && factors[t].len() > 0 && landmarks.contains_key(t)
            && landmarks[t].anchor_pose == key.frame_id && landmarks[t].anchor_camera_id
            == key.camera_id
}

/// The landmarks that neither are hosted by a pose that leaves nor are lost.
pub open spec fn surviving_landmarks(
    landmarks: Map<u64, LandmarkRecord>,
    drop_poses: Seq<u64>,
) -> Map<u64, LandmarkRecord> {
    landmarks.remove_keys(
        Set::new(
            |t: u64|
                drop_poses.contains(landmarks[t].anchor_pose) || landmarks[t].status is Lost,
        ),
    )
}

/// The stores after frames left the window: factor records stay on the active frames and of the
/// surviving landmarks, world points and hosts stay of those landmarks, and the associations of
/// the frames that went are gone.
pub open spec fn shifted(
    s: Stores,
    active: Seq<u64>,
    drop_poses: Seq<u64>,
    dropped_frames: Seq<u64>,
) -> Stores {
    let landmarks = surviving_landmarks(s.landmarks, drop_poses);
    let factors = active_factors(s.factors, active).restrict(landmarks.dom());
    Stores {
        history: s.history,
        factors,
        landmarks,
        associations: s.associations.filter(
            |o: AssociatedFrame| !dropped_frames.contains(o.frame_id),
        ),
        world: s.world.intersect(landmarks.dom()),
        hosts: s.hosts.filter(|h: HostKey| hosts_landmark(factors, landmarks, h)),
    }
}

fn kept_entries(entries: &Vec<TrackHistory>, active: &Vec<u64>) -> (kept: Vec<TrackHistory>)
    ensures
        kept@ == entries@.filter(|h: TrackHistory| active@.contains(h.frame_id)),
{
    let ghost keep = |h: TrackHistory| active@.contains(h.frame_id);
    let mut kept: Vec<TrackHistory> = Vec::new();
    proof {
        reveal(Seq::filter);
        assert(entries@.take(0).filter(keep) =~= Seq::empty());
    }
    for i in 0..entries.len()
        invariant
            keep == (|h: TrackHistory| active@.contains(h.frame_id)),
            kept@ == entries@.take(i as int).filter(keep),
    {
        proof {
            filter_next(entries@, keep, i as int);
        }
        if contains_id(active, entries[i].frame_id) {
            kept.push(entries[i]);
        }
    }
    assert(entries@.take(entries@.len() as int) =~= entries@);
    kept
}

impl TrackStore {
    /// Keeps the factor records on the active frames.
    fn retain_active_factors(&mut self, active: &Vec<u64>)
        ensures
            final(self)@ == (Stores {
                factors: active_factors(old(self)@.factors, active@),
                ..old(self)@
            }),
    {
        let ghost f0 = self@.factors;
        let ghost target = active_factors(f0, active@);
        let tracks = map_keys(&self.window_observations);
        let mut kept: BTreeMap<u64, Vec<StoredObservation>> = BTreeMap::new();
        for i in 0..tracks.len()
            invariant
                self == old(self),
                f0 == lists(self.window_observations@),
                tracks@.to_set() == self.window_observations@.dom(),
                target == active_factors(f0, active@),
                forall|t: u64| #[trigger]
                    kept@.contains_key(t) <==> tracks@.take(i as int).contains(t)
                        && target.contains_key(t),
                forall|t: u64| #[trigger] kept@.contains_key(t) ==> kept@[t]@ == target[t],
        {
            let track: u64 = tracks[i];
            let ghost before = kept@;
            let records = copy_list_of(&self.window_observations, track);
            let list = retain_active(&records, active);
            proof {
                assert(tracks@.to_set().contains(track));
                assert(records@ == f0[track]);
            }
            if list.len() > 0 {
                kept.insert(track, list);
            }
            proof {
                assert(tracks@.take(i + 1) =~= tracks@.take(i as int).push(track));
                assert forall|t: u64| #[trigger] kept@.contains_key(t) <==> tracks@.take(
                    i + 1,
                ).contains(t) && target.contains_key(t) by {
                    vstd::seq_lib::lemma_seq_contains_after_push(tracks@.take(i as int), track, t);
                }
            }
        }
        proof {
            assert(tracks@.take(tracks@.len() as int) =~= tracks@);
            assert forall|t: u64| lists(kept@).contains_key(t) <==> target.contains_key(t) by {
                assert(kept@.contains_key(t) <==> tracks@.contains(t) && target.contains_key(t));
                assert(tracks@.to_set().contains(t) == tracks@.contains(t));
            }
            assert(lists(kept@) =~= target);
        }
        self.window_observations = kept;
    }

    /// Keeps the history entries on the active frames.
    pub fn prune_track_history(&mut self, active: &Vec<u64>)
        ensures
            final(self)@ == (Stores {
                history: active_history(old(self)@.history, active@),
                ..old(self)@
            }),
    {
        let ghost h0 = self@.history;
        let ghost target = active_history(h0, active@);
        let tracks = map_keys(&self.track_history);
        let mut kept: BTreeMap<u64, Vec<TrackHistory>> = BTreeMap::new();
        for i in 0..tracks.len()
            invariant
                self == old(self),
                h0 == lists(self.track_history@),
                tracks@.to_set() == self.track_history@.dom(),
                target == active_history(h0, active@),
                forall|t: u64| #[trigger]
                    kept@.contains_key(t) <==> tracks@.take(i as int).contains(t)
                        && target.contains_key(t),
                forall|t: u64| #[trigger] kept@.contains_key(t) ==> kept@[t]@ == target[t],
        {
            let track: u64 = tracks[i];
            let entries = copy_list_of(&self.track_history, track);
            let list = kept_entries(&entries, active);
            proof {
                assert(tracks@.to_set().contains(track));
                assert(entries@ == h0[track]);
            }
            if list.len() > 0 {
                kept.insert(track, list);
            }
            proof {
                assert(tracks@.take(i + 1) =~= tracks@.take(i as int).push(track));
                assert forall|t: u64| #[trigger] kept@.contains_key(t) <==> tracks@.take(
                    i + 1,
                ).contains(t) && target.contains_key(t) by {
                    vstd::seq_lib::lemma_seq_contains_after_push(tracks@.take(i as int), track, t);
                }
            }
        }
        proof {
            assert(tracks@.take(tracks@.len() as int) =~= tracks@);
            assert forall|t: u64| lists(kept@).contains_key(t) <==> target.contains_key(t) by {
                assert(kept@.contains_key(t) <==> tracks@.contains(t) && target.contains_key(t));
                assert(tracks@.to_set().contains(t) == tracks@.contains(t));
            }
            assert(lists(kept@) =~= target);
        }
        self.track_history = kept;
    }

    /// Drops the world points of tracks without a landmark.
    pub fn prune_landmark_world_cache(&mut self)
        ensures
            final(self)@ == (Stores {
                world: old(self)@.world.intersect(old(self)@.landmarks.dom()),
                ..old(self)@
            }),
    {
        let ghost s = self@;
        let points = set_members(&self.landmark_world);
        for i in 0..points.len()
            invariant
                points@.to_set() == s.world,
                self@ == (Stores { world: self@.world, ..s }),
                forall|t: u64| #[trigger]
                    self@.world.contains(t) <==> s.world.contains(t) && (
                    !points@.take(i as int).contains(t) || s.landmarks.contains_key(t)),
        {
            let t: u64 = points[i];
            let ghost before = self@.world;
            if !self.landmarks.landmarks.contains_key(&t) {
                self.landmark_world.remove(&t);
            }
            proof {
                assert(points@.take(i + 1) =~= points@.take(i as int).push(t));
                assert forall|u: u64| #[trigger] self@.world.contains(u) <==> s.world.contains(u)
                    && (!points@.take(i + 1).contains(u) || s.landmarks.contains_key(u)) by {
                    vstd::seq_lib::lemma_seq_contains_after_push(points@.take(i as int), t, u);
                    assert(before.contains(u) <==> s.world.contains(u) && (!points@.take(
                        i as int,
                    ).contains(u) || s.landmarks.contains_key(u)));
                }
            }
        }
        proof {
            assert(points@.take(points@.len() as int) =~= points@);
            assert forall|t: u64| self@.world.contains(t) <==> s.world.contains(t)
                && s.landmarks.contains_key(t) by {
                assert(points@.to_set().contains(t) == points@.contains(t));
            }
            assert(self@.world =~= s.world.intersect(s.landmarks.dom()));
        }
    }

    /// Whether some landmark with factor records is hosted by the frame and the camera.
    fn is_host(&self, key: &HostKey) -> (result: bool)
        ensures
            result == hosts_landmark(self@.factors, self@.landmarks, *key),
    {
        let tracks = map_keys(&self.window_observations);
        for i in 0..tracks.len()
            invariant
                tracks@.to_set() == self.window_observations@.dom(),
                forall|j: int|
                    0 <= j < i ==> !({
                        let t = #[trigger] tracks@[j];
                        self@.factors[t].len() > 0 && self@.landmarks.contains_key(t)
                            && self@.landmarks[t].anchor_pose == key.frame_id
                            && self@.landmarks[t].anchor_camera_id == key.camera_id
                    }),
        {
            let t: u64 = tracks[i];
            assert(tracks@.to_set().contains(t));
            let observed = match self.window_observations.get(&t) {
                Some(records) => records.len() > 0,
                None => false,
            };
            let hosted = match self.landmarks.landmarks.get(&t) {
                Some(record) => record.anchor_pose == key.frame_id && record.anchor_camera_id
                    == key.camera_id,
                None => false,
            };
            if observed && hosted {
                assert(self@.factors.contains_key(t));
                return true;
            }
        }
        proof {
            assert forall|t: u64| #[trigger] self@.factors.contains_key(t) implies !(
            self@.factors[t].len() > 0 && self@.landmarks.contains_key(t)
                && self@.landmarks[t].anchor_pose == key.frame_id
                && self@.landmarks[t].anchor_camera_id == key.camera_id) by {
                assert(tracks@.to_set().contains(t));
                let j = choose|j: int| 0 <= j < tracks@.len() && tracks@[j] == t;
            }
        }
        false
    }

    /// Gives up the hosts that no landmark with factor records has any more, and lists them.
    pub fn prune_native_host_order(&mut self) -> (gone: Vec<HostKey>)
        ensures
            final(self)@ == (Stores {
                hosts: old(self)@.hosts.filter(
                    |h: HostKey| hosts_landmark(old(self)@.factors, old(self)@.landmarks, h),
                ),
                ..old(self)@
            }),
            gone@ == old(self)@.hosts.filter(
                |h: HostKey| !hosts_landmark(old(self)@.factors, old(self)@.landmarks, h),
            ),
    {
        let ghost s = self@;
        let ghost keep = |h: HostKey| hosts_landmark(s.factors, s.landmarks, h);
        let ghost drop = |h: HostKey| !hosts_landmark(s.factors, s.landmarks, h);
        let mut kept: Vec<HostKey> = Vec::new();
        let mut gone: Vec<HostKey> = Vec::new();
        proof {
            reveal(Seq::filter);
            assert(s.hosts.take(0).filter(keep) =~= Seq::empty());
            assert(s.hosts.take(0).filter(drop) =~= Seq::empty());
        }
        for i in 0..self.native_host_keys.len()
            invariant
                self == old(self),
                s == self@,
                keep == (|h: HostKey| hosts_landmark(s.factors, s.landmarks, h)),
                drop == (|h: HostKey| !hosts_landmark(s.factors, s.landmarks, h)),
                kept@ == s.hosts.take(i as int).filter(keep),
                gone@ == s.hosts.take(i as int).filter(drop),
        {
            proof {
                filter_next(s.hosts, keep, i as int);
                filter_next(s.hosts, drop, i as int);
            }
            let key = self.native_host_keys[i];
            if self.is_host(&key) {
                kept.push(key);
            } else {
                gone.push(key);
            }
        }
        assert(s.hosts.take(s.hosts.len() as int) =~= s.hosts);
        self.native_host_keys = kept;
        gone
    }

    /// Gives up what belongs to the frames that left the window, and lists the hosts that are gone.
    pub fn shift(&mut self, active: &Vec<u64>, drop_poses: &Vec<u64>, dropped_frames: &Vec<u64>) -> (
        gone: Vec<HostKey>)
        ensures
            final(self)@ == shifted(old(self)@, active@, drop_poses@, dropped_frames@),
            gone@ == old(self)@.hosts.filter(
                |h: HostKey|
                    !hosts_landmark(final(self)@.factors, final(self)@.landmarks, h),
            ),
    {
        let ghost s = self@;
        self.retain_active_factors(active);
        self.landmarks.remove_host_landmarks(drop_poses);
        self.landmarks.remove_deferred_lost();
        proof {
            assert(self@.landmarks =~= surviving_landmarks(s.landmarks, drop_poses@));
        }
        self.prune_landmark_world_cache();
        self.landmarks.remove_frame_observations(dropped_frames);
        let tracks = map_keys(&self.landmarks.landmarks);
        let ghost before = self@.factors;
        retain_ids(&mut self.window_observations, &tracks);
        proof {
            assert(self@.factors =~= before.restrict(self@.landmarks.dom()));
        }
        let gone = self.prune_native_host_order();
        proof {
            assert(self@ =~= shifted(s, active@, drop_poses@, dropped_frames@));
        }
        gone
    }
}

/// After the shift every factor record is on an active frame and belongs to a landmark that is
/// neither lost nor hosted by a pose that left, every world point and every host belongs to such a
/// landmark, and no association names a frame that went.
pub proof fn shifted_stores_are_active(
    s: Stores,
    active: Seq<u64>,
    drop_poses: Seq<u64>,
    dropped_frames: Seq<u64>,
)
    ensures
        ({
            let r = shifted(s, active, drop_poses, dropped_frames);
            &&& forall|t: u64, i: int|
                r.factors.contains_key(t) && 0 <= i < r.factors[t].len() ==> active.contains(
                    (#[trigger] r.factors[t][i]).frame_id,
                )
            &&& forall|t: u64| #[trigger]
                r.factors.contains_key(t) ==> r.landmarks.contains_key(t) && r.factors[t].len() > 0
            &&& forall|t: u64| #[trigger]
                r.landmarks.contains_key(t) ==> !(r.landmarks[t].status is Lost)
                    && !drop_poses.contains(r.landmarks[t].anchor_pose)
            &&& forall|t: u64| #[trigger] r.world.contains(t) ==> r.landmarks.contains_key(t)
            &&& forall|i: int|
                0 <= i < r.hosts.len() ==> hosts_landmark(
                    r.factors,
                    r.landmarks,
                    #[trigger] r.hosts[i],
                )
            &&& forall|i: int|
                0 <= i < r.associations.len() ==> !dropped_frames.contains(
                    (#[trigger] r.associations[i]).frame_id,
                )
        }),
{
    let r = shifted(s, active, drop_poses, dropped_frames);
    assert forall|t: u64, i: int|
        r.factors.contains_key(t) && 0 <= i < r.factors[t].len() implies active.contains(
        (#[trigger] r.factors[t][i]).frame_id,
    ) by {
        s.factors[t].lemma_filter_pred(|r: StoredObservation| active.contains(r.frame_id), i);
    }
    assert forall|i: int| 0 <= i < r.hosts.len() implies hosts_landmark(
        r.factors,
        r.landmarks,
        #[trigger] r.hosts[i],
    ) by {
        s.hosts.lemma_filter_pred(|h: HostKey| hosts_landmark(r.factors, r.landmarks, h), i);
    }
    assert forall|i: int| 0 <= i < r.associations.len() implies !dropped_frames.contains(
        (#[trigger] r.associations[i]).frame_id,
    ) by {
        s.associations.lemma_filter_pred(
            |o: AssociatedFrame| !dropped_frames.contains(o.frame_id),
            i,
        );
    }
}

/// A shift removes the landmarks that are lost or hosted by a pose that leaves and changes no other; of the
/// factor records it keeps those on active frames whose landmark stays, in their order; of the
/// associations those of frames that stay; of the world points those of landmarks that stay; and of the
/// hosts those that still host a landmark with factor records. It leaves the histories alone.
pub proof fn shifts_keep_what_stays(
    s: Stores,
    active: Seq<u64>,
    drop_poses: Seq<u64>,
    dropped_frames: Seq<u64>,
)
    ensures
        ({
            let r = shifted(s, active, drop_poses, dropped_frames);
            &&& forall|t: u64| #[trigger]
                r.landmarks.contains_key(t) <==> s.landmarks.contains_key(t) && !(
                s.landmarks[t].status is Lost) && !drop_poses.contains(s.landmarks[t].anchor_pose)
            &&& forall|t: u64| #[trigger]
                r.landmarks.contains_key(t) ==> r.landmarks[t] == s.landmarks[t]
            &&& forall|t: u64| #[trigger]
                r.factors.contains_key(t) ==> s.factors.contains_key(t) && r.factors[t]
                    == s.factors[t].filter(|o: StoredObservation| active.contains(o.frame_id))
            &&& forall|t: u64, i: int|
                s.factors.contains_key(t) && r.landmarks.contains_key(t) && 0 <= i
                    < s.factors[t].len() && active.contains((#[trigger] s.factors[t][i]).frame_id)
                    ==> r.factors.contains_key(t) && r.factors[t].contains(s.factors[t][i])
            &&& r.history == s.history
            &&& forall|t: u64| #[trigger]
                r.world.contains(t) <==> s.world.contains(t) && r.landmarks.contains_key(t)
            &&& r.associations == s.associations.filter(
                |o: AssociatedFrame| !dropped_frames.contains(o.frame_id),
            )
            &&& forall|h: HostKey| #[trigger]
                r.hosts.contains(h) <==> s.hosts.contains(h) && exists|t: u64|
                    #![trigger r.factors.contains_key(t)]
                    r.factors.contains_key(t) && r.landmarks[t].anchor_pose == h.frame_id
                        && r.landmarks[t].anchor_camera_id == h.camera_id
        }),
{
    let r = shifted(s, active, drop_poses, dropped_frames);
    let keep = |o: StoredObservation| active.contains(o.frame_id);
    assert forall|t: u64, i: int|
        s.factors.contains_key(t) && r.landmarks.contains_key(t) && 0 <= i < s.factors[t].len()
            && active.contains(
            (#[trigger] s.factors[t][i]).frame_id,
        ) implies r.factors.contains_key(t) && r.factors[t].contains(s.factors[t][i]) by {
        filter_members(s.factors[t], keep);
        assert(s.factors[t].contains(s.factors[t][i]));
        assert(s.factors[t].filter(keep).contains(s.factors[t][i]));
    }
    let hosting = |h: HostKey| hosts_landmark(r.factors, r.landmarks, h);
    filter_members(s.hosts, hosting);
    assert forall|h: HostKey| #[trigger] r.hosts.contains(h) <==> s.hosts.contains(h) && exists|
        t: u64,
    |
        #![trigger r.factors.contains_key(t)]
        r.factors.contains_key(t) && r.landmarks[t].anchor_pose == h.frame_id
            && r.landmarks[t].anchor_camera_id == h.camera_id by {
        assert(s.hosts.filter(hosting).contains(h) <==> s.hosts.contains(h) && hosting(h));
        if exists|t: u64|
            #![trigger r.factors.contains_key(t)]
            r.factors.contains_key(t) && r.landmarks[t].anchor_pose == h.frame_id
                && r.landmarks[t].anchor_camera_id == h.camera_id {
            let t = choose|t: u64|
                #![trigger r.factors.contains_key(t)]
                r.factors.contains_key(t) && r.landmarks[t].anchor_pose == h.frame_id
                    && r.landmarks[t].anchor_camera_id == h.camera_id;
            assert(r.factors[t].len() > 0 && r.landmarks.contains_key(t));
            assert(hosts_landmark(r.factors, r.landmarks, h));
        }
    }
}

} // verus!

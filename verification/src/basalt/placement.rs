//! Where the pose of a frame is found in the window, and which poses the history of the tracks takes
//! from there.
use crate::basalt::collect::TrackStore;
use crate::basalt::identity::TrackHistory;
use crate::basalt::problem::{last_pose, last_pose_is_last, last_state, last_state_is_last};
use crate::basalt::window::{
    first_pose, first_pose_is_first, first_state, first_state_is_first, Window, WindowPose,
    WindowState,
};
use crate::ordered::{ascending, copy_list_of, list_of, lists, map_keys};
use vstd::prelude::*;

verus! {

broadcast use vstd::std_specs::btree::group_btree_axioms;

/// Where a pose stands in the window.
#[derive(Clone, Copy, Debug, PartialEq, Eq, Structural)]
pub enum PoseSource {
    Pose(usize),
    State(usize),
}

/// Where the pose of a frame is looked up: among the poses first, then among the states.
pub open spec fn source_of(
    poses: Seq<WindowPose>,
    states: Seq<WindowState>,
    frame_id: u64,
) -> Option<PoseSource> {
    match first_pose(poses, frame_id, poses.len() as int) {
        Some(i) => Some(PoseSource::Pose(i as usize)),
        None => match first_state(states, frame_id, states.len() as int) {
            Some(i) => Some(PoseSource::State(i as usize)),
            None => None,
        },
    }
}

/// Where the history takes the pose of a frame from: a state counts before a pose, and of several
/// the last.
pub open spec fn latest_source(
    poses: Seq<WindowPose>,
    states: Seq<WindowState>,
    frame_id: u64,
) -> Option<PoseSource> {
    match last_state(states, frame_id, states.len() as int) {
        Some(i) => Some(PoseSource::State(i as usize)),
        None => match last_pose(poses, frame_id, poses.len() as int) {
            Some(i) => Some(PoseSource::Pose(i as usize)),
            None => None,
        },
    }
}

impl Window {
    /// Where the pose of a frame is.
    pub fn pose_for_frame(&self, frame_id: u64) -> (source: Option<PoseSource>)
        ensures
            source == source_of(self@.poses, self@.states, frame_id),
    {
        let mut found: Option<usize> = None;
        for i in 0..self.poses.len()
            invariant
                match found {
                    Some(p) => first_pose(self.poses@, frame_id, i as int) == Some(p as int) && p
                        < i,
                    None => first_pose(self.poses@, frame_id, i as int) is None,
                },
        {
            if found.is_none() && self.poses[i].frame_id == frame_id {
                found = Some(i);
            }
        }
        match found {
            Some(i) => Some(PoseSource::Pose(i)),
            None => match self.position(frame_id) {
                Some(i) => Some(PoseSource::State(i)),
                None => None,
            },
        }
    }

    /// Where the history takes the pose of a frame from.
    pub fn latest_pose(&self, frame_id: u64) -> (source: Option<PoseSource>)
        ensures
            source == latest_source(self@.poses, self@.states, frame_id),
    {
        let mut i: usize = self.states.len();
        while i > 0
            invariant
                i <= self.states@.len(),
                last_state(self.states@, frame_id, self.states@.len() as int) == last_state(
                    self.states@,
                    frame_id,
                    i as int,
                ),
            decreases i,
        {
            if self.states[i - 1].frame_id == frame_id {
                return Some(PoseSource::State(i - 1));
            }
            i = i - 1;
        }
        let mut j: usize = self.poses.len();
        while j > 0
            invariant
                j <= self.poses@.len(),
                last_state(self.states@, frame_id, self.states@.len() as int) is None,
                last_pose(self.poses@, frame_id, self.poses@.len() as int) == last_pose(
                    self.poses@,
                    frame_id,
                    j as int,
                ),
            decreases j,
        {
            if self.poses[j - 1].frame_id == frame_id {
                return Some(PoseSource::Pose(j - 1));
            }
            j = j - 1;
        }
        None
    }
}

/// A pose that an entry of the history of a track takes from the window.
#[derive(Clone, Copy, Debug, PartialEq, Eq, Structural)]
pub struct PoseRefresh {
    pub track_id: u64,
    pub entry: usize,
    pub source: PoseSource,
}

/// The poses that the first `n` entries of a track take: those of frames of the window, seen by
/// cameras of the rig.
pub open spec fn track_refreshes(
    poses: Seq<WindowPose>,
    states: Seq<WindowState>,
    cameras: nat,
    track_id: u64,
    history: Seq<TrackHistory>,
    n: int,
) -> Seq<PoseRefresh>
    decreases n,
{
    if n <= 0 {
        Seq::empty()
    } else {
        let before = track_refreshes(poses, states, cameras, track_id, history, n - 1);
        let source = latest_source(poses, states, history[n - 1].frame_id);
        if source is Some && history[n - 1].camera_id < cameras {
            before.push(
                PoseRefresh { track_id, entry: (n - 1) as usize, source: source->Some_0 },
            )
        } else {
            before
        }
    }
}

/// The poses that the first `n` tracks take.
pub open spec fn refreshes(
    poses: Seq<WindowPose>,
    states: Seq<WindowState>,
    cameras: nat,
    tracks: Seq<u64>,
    history: Map<u64, Seq<TrackHistory>>,
    n: int,
) -> Seq<PoseRefresh>
    decreases n,
{
    if n <= 0 {
        Seq::empty()
    } else {
        let list = list_of(history, tracks[n - 1]);
        refreshes(poses, states, cameras, tracks, history, n - 1) + track_refreshes(
            poses,
            states,
            cameras,
            tracks[n - 1],
            list,
            list.len() as int,
        )
    }
}

impl TrackStore {
    /// Lists the poses that the history of the tracks takes from the window, track by track.
    pub fn refresh_track_history_poses(&self, window: &Window, cameras: usize) -> (out: Vec<
        PoseRefresh,
    >)
        ensures
            ({
                let tracks = ascending(self.track_history@.dom());
                out@ == refreshes(
                    window@.poses,
                    window@.states,
                    cameras as nat,
                    tracks,
                    lists(self.track_history@),
                    tracks.len() as int,
                )
            }),
    {
        let tracks = map_keys(&self.track_history);
        let ghost history = lists(self.track_history@);
        let ghost poses = window@.poses;
        let ghost states = window@.states;
        let mut out: Vec<PoseRefresh> = Vec::new();
        for t in 0..tracks.len()
            invariant
                history == lists(self.track_history@),
                poses == window@.poses,
                states == window@.states,
                out@ == refreshes(poses, states, cameras as nat, tracks@, history, t as int),
        {
            let list = copy_list_of(&self.track_history, tracks[t]);
            let ghost before = out@;
            assert(before =~= before + track_refreshes(
                poses,
                states,
                cameras as nat,
                tracks@[t as int],
                list@,
                0,
            ));
            for i in 0..list.len()
                invariant
                    t < tracks@.len(),
                    poses == window@.poses,
                    states == window@.states,
                    out@ == before + track_refreshes(
                        poses,
                        states,
                        cameras as nat,
                        tracks@[t as int],
                        list@,
                        i as int,
                    ),
            {
                let entry: TrackHistory = list[i];
                let source = window.latest_pose(entry.frame_id);
                if let Some(s) = source {
                    if (entry.camera_id as usize) < cameras {
                        out.push(PoseRefresh { track_id: tracks[t], entry: i, source: s });
                        assert(out@ =~= before + track_refreshes(
                            poses,
                            states,
                            cameras as nat,
                            tracks@[t as int],
                            list@,
                            i + 1,
                        ));
                    }
                }
            }
        }
        out
    }
}

/// The pose of a frame is its first pose, or else its first state; the latest is its last state, or else
/// its last pose; and there is none exactly where no pose and no state is of the frame.
pub proof fn poses_are_found_in_the_window(
    poses: Seq<WindowPose>,
    states: Seq<WindowState>,
    frame_id: u64,
)
    requires
        poses.len() <= usize::MAX,
        states.len() <= usize::MAX,
    ensures
        match source_of(poses, states, frame_id) {
            Some(PoseSource::Pose(i)) => i < poses.len() && poses[i as int].frame_id == frame_id
                && forall|j: int| 0 <= j < i ==> (#[trigger] poses[j]).frame_id != frame_id,
            Some(PoseSource::State(i)) => i < states.len() && states[i as int].frame_id == frame_id
                && (forall|j: int| 0 <= j < i ==> (#[trigger] states[j]).frame_id != frame_id) && (
            forall|j: int| 0 <= j < poses.len() ==> (#[trigger] poses[j]).frame_id != frame_id),
            None => (forall|j: int|
                0 <= j < poses.len() ==> (#[trigger] poses[j]).frame_id != frame_id) && (forall|
                j: int,
            | 0 <= j < states.len() ==> (#[trigger] states[j]).frame_id != frame_id),
        },
        match latest_source(poses, states, frame_id) {
            Some(PoseSource::State(i)) => i < states.len() && states[i as int].frame_id == frame_id
                && forall|j: int|
                i < j < states.len() ==> (#[trigger] states[j]).frame_id != frame_id,
            Some(PoseSource::Pose(i)) => i < poses.len() && poses[i as int].frame_id == frame_id
                && (forall|j: int|
                i < j < poses.len() ==> (#[trigger] poses[j]).frame_id != frame_id) && (forall|
                j: int,
            | 0 <= j < states.len() ==> (#[trigger] states[j]).frame_id != frame_id),
            None => (forall|j: int|
                0 <= j < poses.len() ==> (#[trigger] poses[j]).frame_id != frame_id) && (forall|
                j: int,
            | 0 <= j < states.len() ==> (#[trigger] states[j]).frame_id != frame_id),
        },
{
    first_pose_is_first(poses, frame_id, poses.len() as int);
    first_state_is_first(states, frame_id, states.len() as int);
    last_pose_is_last(poses, frame_id, poses.len() as int);
    last_state_is_last(states, frame_id, states.len() as int);
}

/// Exactly the history entries whose camera exists and whose frame has a pose take that pose again, the
/// latest one.
pub proof fn every_placed_entry_is_refreshed(
    poses: Seq<WindowPose>,
    states: Seq<WindowState>,
    cameras: nat,
    tracks: Seq<u64>,
    history: Map<u64, Seq<TrackHistory>>,
    r: PoseRefresh,
)
    requires
        forall|k: int|
            0 <= k < tracks.len() ==> history.contains_key(#[trigger] tracks[k])
                && history[tracks[k]].len() <= usize::MAX,
    ensures
        refreshes(poses, states, cameras, tracks, history, tracks.len() as int).contains(r) <==> {
            &&& tracks.contains(r.track_id)
            &&& r.entry < history[r.track_id].len()
            &&& history[r.track_id][r.entry as int].camera_id < cameras
            &&& latest_source(poses, states, history[r.track_id][r.entry as int].frame_id) == Some(
                r.source,
            )
        },
{
    refreshed_up_to(poses, states, cameras, tracks, history, tracks.len() as int, r);
    assert(tracks.take(tracks.len() as int) =~= tracks);
}

proof fn refreshed_up_to(
    poses: Seq<WindowPose>,
    states: Seq<WindowState>,
    cameras: nat,
    tracks: Seq<u64>,
    history: Map<u64, Seq<TrackHistory>>,
    n: int,
    r: PoseRefresh,
)
    requires
        0 <= n <= tracks.len(),
        forall|k: int|
            0 <= k < tracks.len() ==> history.contains_key(#[trigger] tracks[k])
                && history[tracks[k]].len() <= usize::MAX,
    ensures
        refreshes(poses, states, cameras, tracks, history, n).contains(r) <==> {
            &&& tracks.take(n).contains(r.track_id)
            &&& r.entry < history[r.track_id].len()
            &&& history[r.track_id][r.entry as int].camera_id < cameras
            &&& latest_source(poses, states, history[r.track_id][r.entry as int].frame_id) == Some(
                r.source,
            )
        },
    decreases n,
{
    if n > 0 {
        refreshed_up_to(poses, states, cameras, tracks, history, n - 1, r);
        let t = tracks[n - 1];
        let list = history[t];
        track_refreshed_up_to(poses, states, cameras, t, list, list.len() as int, r);
        let before = refreshes(poses, states, cameras, tracks, history, n - 1);
        let mine = track_refreshes(poses, states, cameras, t, list, list.len() as int);
        let all = refreshes(poses, states, cameras, tracks, history, n);
        assert(all == before + mine);
        if all.contains(r) {
            let i = choose|i: int| 0 <= i < all.len() && all[i] == r;
            if i < before.len() {
                assert(before[i] == r);
            } else {
                assert(mine[i - before.len()] == r);
            }
        }
        if before.contains(r) {
            let i = choose|i: int| 0 <= i < before.len() && before[i] == r;
            assert(all[i] == r);
        }
        if mine.contains(r) {
            let i = choose|i: int| 0 <= i < mine.len() && mine[i] == r;
            assert(all[before.len() + i] == r);
        }
        let now = tracks.take(n);
        let earlier = tracks.take(n - 1);
        assert(now.contains(r.track_id) <==> earlier.contains(r.track_id) || r.track_id == t) by {
            if now.contains(r.track_id) {
                let i = choose|i: int| 0 <= i < now.len() && now[i] == r.track_id;
                if i < n - 1 {
                    assert(earlier[i] == r.track_id);
                }
            }
            if earlier.contains(r.track_id) {
                let i = choose|i: int| 0 <= i < earlier.len() && earlier[i] == r.track_id;
                assert(now[i] == r.track_id);
            }
            assert(now[n - 1] == t);
        }
    }
}

proof fn track_refreshed_up_to(
    poses: Seq<WindowPose>,
    states: Seq<WindowState>,
    cameras: nat,
    track_id: u64,
    history: Seq<TrackHistory>,
    n: int,
    r: PoseRefresh,
)
    requires
        0 <= n <= history.len() <= usize::MAX,
    ensures
        track_refreshes(poses, states, cameras, track_id, history, n).contains(r) <==> {
            &&& r.track_id == track_id
            &&& r.entry < n
            &&& history[r.entry as int].camera_id < cameras
            &&& latest_source(poses, states, history[r.entry as int].frame_id) == Some(r.source)
        },
    decreases n,
{
    if n > 0 {
        track_refreshed_up_to(poses, states, cameras, track_id, history, n - 1, r);
        let before = track_refreshes(poses, states, cameras, track_id, history, n - 1);
        let all = track_refreshes(poses, states, cameras, track_id, history, n);
        if all.contains(r) {
            let i = choose|i: int| 0 <= i < all.len() && all[i] == r;
            if i < before.len() {
                assert(before[i] == r);
            }
        }
        if before.contains(r) {
            let i = choose|i: int| 0 <= i < before.len() && before[i] == r;
            assert(all[i] == r);
        }
        if all.len() > before.len() {
            assert(all[before.len() as int].entry == n - 1);
            if r == all[before.len() as int] {
                assert(all.contains(r));
            }
        }
    }
}

} // verus!

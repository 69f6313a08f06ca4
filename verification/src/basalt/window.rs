//! The active window: keyframe poses, navigation states, and the links between them.
use crate::ordered::{contains_id, filter_members, filter_next};
use vstd::prelude::*;

verus! {

/// Degrees of freedom of a pose.
pub const POSE_DOF: usize = 6;

/// Degrees of freedom of a navigation state.
pub const NAV_STATE_DOF: usize = 15;

/// A keyframe of which only the pose is left.
#[derive(Clone, Copy, Debug, PartialEq, Eq, Structural)]
pub struct WindowPose {
    pub frame_id: u64,
    pub timestamp_ns: i64,
    pub is_keyframe: bool,
}

/// A frame with its full navigation state.
#[derive(Clone, Copy, Debug, PartialEq, Eq, Structural)]
pub struct WindowState {
    pub frame_id: u64,
    pub timestamp_ns: i64,
    pub is_keyframe: bool,
    pub is_latest: bool,
    pub linearized: bool,
}

/// An inertial link between two frames.
#[derive(Clone, Copy, Debug, PartialEq, Eq, Structural)]
pub struct ImuLink {
    pub from: u64,
    pub to: u64,
}

/// The active window. Poses come before states in the order of the unknowns.
#[derive(Debug)]
pub struct Window {
    pub poses: Vec<WindowPose>,
    pub states: Vec<WindowState>,
    pub imu_links: Vec<ImuLink>,
}

/// What a window holds.
#[verifier::ext_equal]
pub ghost struct Frames {
    pub poses: Seq<WindowPose>,
    pub states: Seq<WindowState>,
    pub links: Seq<ImuLink>,
}

impl View for Window {
    type V = Frames;

    open spec fn view(&self) -> Frames {
        Frames { poses: self.poses@, states: self.states@, links: self.imu_links@ }
    }
}

/// The frames of poses.
pub open spec fn pose_ids(poses: Seq<WindowPose>) -> Seq<u64> {
    poses.map_values(|p: WindowPose| p.frame_id)
}

/// The frames of states.
pub open spec fn state_ids(states: Seq<WindowState>) -> Seq<u64> {
    states.map_values(|s: WindowState| s.frame_id)
}

/// The frames of the states that are keyframes.
pub open spec fn keyframe_state_ids(states: Seq<WindowState>) -> Seq<u64> {
    state_ids(states.filter(|s: WindowState| s.is_keyframe))
}

impl Frames {
    /// The frames of the window in the order of the unknowns.
    pub open spec fn active(self) -> Seq<u64> {
        pose_ids(self.poses) + state_ids(self.states)
    }

    /// The keyframes of the window: every pose, and the states that are keyframes.
    pub open spec fn keyframes(self) -> Seq<u64> {
        pose_ids(self.poses) + keyframe_state_ids(self.states)
    }

    /// The number of unknowns.
    pub open spec fn dof(self) -> nat {
        POSE_DOF as nat * self.poses.len() + NAV_STATE_DOF as nat * self.states.len()
    }
}

/// The states after one more entered: the newest is the latest, and the first one is linearized.
pub open spec fn state_entered(
    states: Seq<WindowState>,
    frame_id: u64,
    timestamp_ns: i64,
    is_keyframe: bool,
) -> Seq<WindowState> {
    states.push(
        WindowState {
            frame_id,
            timestamp_ns,
            is_keyframe,
            is_latest: true,
            linearized: states.len() == 0,
        },
    ).map_values(|s: WindowState| WindowState { is_latest: s.frame_id == frame_id, ..s })
}

/// The kind of a block of unknowns.
#[derive(Clone, Copy, Debug, PartialEq, Eq, Structural)]
pub enum BlockKind {
    Pose,
    StatePose,
    State,
}

impl BlockKind {
    /// The name of a kind.
    pub open spec fn text(self) -> Seq<char> {
        match self {
            BlockKind::Pose => "pose"@,
            BlockKind::StatePose => "state_pose"@,
            BlockKind::State => "state"@,
        }
    }

    /// The name of a kind.
    pub fn name(&self) -> (name: &'static str)
        ensures
            name@ == self.text(),
    {
        match self {
            BlockKind::Pose => "pose",
            BlockKind::StatePose => "state_pose",
            BlockKind::State => "state",
        }
    }
}

/// One block of unknowns: its frame, where it starts, how long it is, and its kind.
#[derive(Clone, Copy, Debug, PartialEq, Eq, Structural)]
pub struct AomBlockData {
    pub frame_id: u64,
    pub offset: usize,
    pub dof: usize,
    pub kind: BlockKind,
}

/// Where block `i` starts: six unknowns for each pose before it and fifteen for each state.
pub open spec fn block_offset(poses: nat, i: int) -> int {
    if i <= poses {
        6 * i
    } else {
        6 * poses + 15 * (i - poses)
    }
}

/// The block at place `i` of the order of the unknowns.
pub open spec fn block_at(poses: Seq<WindowPose>, states: Seq<WindowState>, i: int) -> AomBlockData {
    if i < poses.len() {
        AomBlockData {
            frame_id: poses[i].frame_id,
            offset: block_offset(poses.len(), i) as usize,
            dof: POSE_DOF,
            kind: BlockKind::Pose,
        }
    } else {
        AomBlockData {
            frame_id: states[i - poses.len()].frame_id,
            offset: block_offset(poses.len(), i) as usize,
            dof: NAV_STATE_DOF,
            kind: BlockKind::State,
        }
    }
}

/// The blocks of unknowns, in their order.
pub open spec fn blocks(poses: Seq<WindowPose>, states: Seq<WindowState>) -> Seq<AomBlockData> {
    Seq::new(poses.len() + states.len(), |i: int| block_at(poses, states, i))
}

/// Each block of unknowns starts where the one before it ends, the first one at zero, and together
/// they cover all unknowns of the window.
pub proof fn blocks_are_contiguous(w: Frames)
    requires
        w.dof() <= usize::MAX,
    ensures
        ({
            let b = blocks(w.poses, w.states);
            &&& b.len() == w.active().len()
            &&& b.len() > 0 ==> b[0].offset == 0 && b.last().offset + b.last().dof == w.dof()
            &&& forall|i: int, j: int|
                0 <= i && j == i + 1 && j < b.len() ==> (#[trigger] b[i]).offset + b[i].dof == (
                #[trigger] b[j]).offset
        }),
{
    let b = blocks(w.poses, w.states);
    assert forall|i: int, j: int| 0 <= i && j == i + 1 && j < b.len() implies (
    #[trigger] b[i]).offset + b[i].dof == (#[trigger] b[j]).offset by {
        assert(b[i] == block_at(w.poses, w.states, i));
        assert(b[j] == block_at(w.poses, w.states, j));
    }
}

/// The blocks of unknowns of a window.
pub fn aom_order(poses: &Vec<WindowPose>, states: &Vec<WindowState>) -> (order: Vec<AomBlockData>)
    requires
        6 * poses@.len() + 15 * states@.len() <= usize::MAX,
    ensures
        order@ == blocks(poses@, states@),
{
    let mut order: Vec<AomBlockData> = Vec::new();
    let mut offset: usize = 0;
    for i in 0..poses.len()
        invariant
            6 * poses@.len() + 15 * states@.len() <= usize::MAX,
            offset == 6 * i,
            order@ =~= blocks(poses@, states@).take(i as int),
    {
        order.push(
            AomBlockData {
                frame_id: poses[i].frame_id,
                offset,
                dof: POSE_DOF,
                kind: BlockKind::Pose,
            },
        );
        offset = offset + POSE_DOF;
    }
    for i in 0..states.len()
        invariant
            6 * poses@.len() + 15 * states@.len() <= usize::MAX,
            offset == 6 * poses@.len() + 15 * i,
            order@ =~= blocks(poses@, states@).take(poses@.len() + i),
    {
        order.push(
            AomBlockData {
                frame_id: states[i].frame_id,
                offset,
                dof: NAV_STATE_DOF,
                kind: BlockKind::State,
            },
        );
        offset = offset + NAV_STATE_DOF;
    }
    assert(order@ =~= blocks(poses@, states@));
    order
}

/// Where a pose goes among the first `n` of the poses: behind all of smaller frames.
pub open spec fn pose_place(poses: Seq<WindowPose>, frame_id: u64, n: int) -> int
    decreases n,
{
    if n <= 0 || poses[n - 1].frame_id < frame_id {
        n
    } else {
        pose_place(poses, frame_id, n - 1)
    }
}

/// The first of the first `n` poses of a frame.
pub open spec fn first_pose(poses: Seq<WindowPose>, frame_id: u64, n: int) -> Option<int>
    decreases n,
{
    if n <= 0 {
        None
    } else {
        match first_pose(poses, frame_id, n - 1) {
            Some(i) => Some(i),
            None => if poses[n - 1].frame_id == frame_id {
                Some(n - 1)
            } else {
                None
            },
        }
    }
}

/// The first of the first `n` states that belongs to a frame.
pub open spec fn first_state(states: Seq<WindowState>, frame_id: u64, n: int) -> Option<int>
    decreases n,
{
    if n <= 0 {
        None
    } else {
        match first_state(states, frame_id, n - 1) {
            Some(i) => Some(i),
            None => if states[n - 1].frame_id == frame_id {
                Some(n - 1)
            } else {
                None
            },
        }
    }
}

/// The first pose of a frame is of the frame, and none before it is.
pub proof fn first_pose_is_first(poses: Seq<WindowPose>, frame_id: u64, n: int)
    requires
        0 <= n <= poses.len(),
    ensures
        match first_pose(poses, frame_id, n) {
            Some(i) => 0 <= i < n && poses[i].frame_id == frame_id && forall|j: int|
                0 <= j < i ==> (#[trigger] poses[j]).frame_id != frame_id,
            None => forall|j: int| 0 <= j < n ==> (#[trigger] poses[j]).frame_id != frame_id,
        },
    decreases n,
{
    if n > 0 {
        first_pose_is_first(poses, frame_id, n - 1);
    }
}

/// The first state of a frame is in the window and belongs to it; where there is none, no state
/// does.
pub proof fn first_state_is_first(states: Seq<WindowState>, frame_id: u64, n: int)
    requires
        0 <= n <= states.len(),
    ensures
        match first_state(states, frame_id, n) {
            Some(i) => 0 <= i < n && states[i].frame_id == frame_id && forall|j: int|
                0 <= j < i ==> (#[trigger] states[j]).frame_id != frame_id,
            None => forall|j: int| 0 <= j < n ==> (#[trigger] states[j]).frame_id != frame_id,
        },
    decreases n,
{
    if n > 0 {
        first_state_is_first(states, frame_id, n - 1);
    }
}

/// The window after the velocity and the biases of a frame left it and its pose stayed.
pub open spec fn converted(w: Frames, frame_id: u64) -> Frames {
    match first_state(w.states, frame_id, w.states.len() as int) {
        Some(i) => {
            let s = w.states[i];
            Frames {
                poses: w.poses.insert(
                    pose_place(w.poses, s.frame_id, w.poses.len() as int),
                    WindowPose {
                        frame_id: s.frame_id,
                        timestamp_ns: s.timestamp_ns,
                        is_keyframe: s.is_keyframe,
                    },
                ),
                states: w.states.remove(i),
                links: w.links,
            }
        },
        None => w,
    }
}

/// The window after several frames were converted, one after the other.
pub open spec fn all_converted(w: Frames, ids: Seq<u64>) -> Frames
    decreases ids.len(),
{
    if ids.len() == 0 {
        w
    } else {
        converted(all_converted(w, ids.drop_last()), ids.last())
    }
}

/// The window after the first state of the boundary frame became linearized.
pub open spec fn frozen(w: Frames, boundary: Option<u64>) -> Frames {
    match boundary {
        Some(frame_id) => match first_state(w.states, frame_id, w.states.len() as int) {
            Some(i) => Frames {
                states: w.states.update(i, WindowState { linearized: true, ..w.states[i] }),
                ..w
            },
            None => w,
        },
        None => w,
    }
}

/// The window after frames left it: poses, states, and the links that lost an end.
pub open spec fn dropped(w: Frames, drop_poses: Seq<u64>, drop_states: Seq<u64>) -> Frames {
    let states = w.states.filter(|s: WindowState| !drop_states.contains(s.frame_id));
    Frames {
        poses: w.poses.filter(|p: WindowPose| !drop_poses.contains(p.frame_id)),
        states,
        links: w.links.filter(
            |l: ImuLink| state_ids(states).contains(l.from) && state_ids(states).contains(l.to),
        ),
    }
}

impl Window {
    /// An empty window.
    pub fn new() -> (window: Window)
        ensures
            window@ == (Frames { poses: Seq::empty(), states: Seq::empty(), links: Seq::empty() }),
    {
        Window { poses: Vec::new(), states: Vec::new(), imu_links: Vec::new() }
    }

    /// The frames of the poses.
    pub fn pose_frames(&self) -> (ids: Vec<u64>)
        ensures
            ids@ == pose_ids(self@.poses),
    {
        let mut ids: Vec<u64> = Vec::new();
        for i in 0..self.poses.len()
            invariant
                ids@ =~= pose_ids(self@.poses).take(i as int),
        {
            ids.push(self.poses[i].frame_id);
        }
        assert(ids@ =~= pose_ids(self@.poses));
        ids
    }

    /// The frames of the states.
    pub fn state_frames(&self) -> (ids: Vec<u64>)
        ensures
            ids@ == state_ids(self@.states),
    {
        let mut ids: Vec<u64> = Vec::new();
        for i in 0..self.states.len()
            invariant
                ids@ =~= state_ids(self@.states).take(i as int),
        {
            ids.push(self.states[i].frame_id);
        }
        assert(ids@ =~= state_ids(self@.states));
        ids
    }

    /// The frames of the window in the order of the unknowns.
    pub fn active_frames(&self) -> (ids: Vec<u64>)
        ensures
            ids@ == self@.active(),
    {
        let mut ids = self.pose_frames();
        let mut more = self.state_frames();
        ids.append(&mut more);
        ids
    }

    /// The frames of the states that are keyframes.
    pub fn keyframe_state_frames(&self) -> (ids: Vec<u64>)
        ensures
            ids@ == keyframe_state_ids(self@.states),
    {
        let ghost keep = |s: WindowState| s.is_keyframe;
        let mut ids: Vec<u64> = Vec::new();
        proof {
            reveal(Seq::filter);
            assert(state_ids(self@.states.take(0).filter(keep)) =~= Seq::empty());
        }
        for i in 0..self.states.len()
            invariant
                keep == (|s: WindowState| s.is_keyframe),
                ids@ == state_ids(self@.states.take(i as int).filter(keep)),
        {
            proof {
                filter_next(self@.states, keep, i as int);
            }
            if self.states[i].is_keyframe {
                ids.push(self.states[i].frame_id);
                assert(ids@ =~= state_ids(self@.states.take(i + 1).filter(keep)));
            }
        }
        assert(self@.states.take(self@.states.len() as int) =~= self@.states);
        ids
    }

    /// The keyframes of the window: every pose, and the states that are keyframes.
    pub fn keyframes(&self) -> (ids: Vec<u64>)
        ensures
            ids@ == self@.keyframes(),
    {
        let mut ids = self.pose_frames();
        let mut more = self.keyframe_state_frames();
        ids.append(&mut more);
        ids
    }

    /// The keyframes in ascending order, the current frame with them where it is one. Of the poses
    /// those count that are marked as keyframes.
    pub fn keyframe_frame_ids(&self, current_frame_id: u64, current_is_keyframe: bool) -> (sorted:
        Vec<u64>)
        ensures
            crate::ordered::increasing(sorted@),
            forall|id: u64| #[trigger]
                sorted@.contains(id) <==> keyframe_state_ids(self@.states).contains(id)
                    || pose_ids(self@.poses.filter(|p: WindowPose| p.is_keyframe)).contains(id)
                    || (current_is_keyframe && id == current_frame_id),
    {
        let ghost keep = |p: WindowPose| p.is_keyframe;
        let mut ids = self.keyframe_state_frames();
        let ghost first = ids@;
        let mut marked: Vec<u64> = Vec::new();
        proof {
            reveal(Seq::filter);
            assert(pose_ids(self@.poses.take(0).filter(keep)) =~= Seq::empty());
        }
        for i in 0..self.poses.len()
            invariant
                keep == (|p: WindowPose| p.is_keyframe),
                marked@ == pose_ids(self@.poses.take(i as int).filter(keep)),
        {
            proof {
                filter_next(self@.poses, keep, i as int);
            }
            if self.poses[i].is_keyframe {
                marked.push(self.poses[i].frame_id);
                assert(marked@ =~= pose_ids(self@.poses.take(i + 1).filter(keep)));
            }
        }
        assert(self@.poses.take(self@.poses.len() as int) =~= self@.poses);
        let ghost second = marked@;
        ids.append(&mut marked);
        proof {
            assert forall|id: u64| #[trigger] ids@.contains(id) <==> first.contains(id)
                || second.contains(id) by {
                vstd::seq_lib::lemma_seq_concat_contains_all_elements(first, second, id);
            }
        }
        crate::basalt::identity::keyframe_frame_ids(&ids, current_frame_id, current_is_keyframe)
    }

    /// The number of unknowns.
    pub fn dof(&self) -> (dof: usize)
        requires
            self@.dof() <= usize::MAX,
        ensures
            dof == self@.dof(),
    {
        self.poses.len() * POSE_DOF + self.states.len() * NAV_STATE_DOF
    }

    /// Enters a frame, linked to the newest state where an inertial interval joins them.
    pub fn push_state(
        &mut self,
        frame_id: u64,
        timestamp_ns: i64,
        is_keyframe: bool,
        linked: bool,
    )
        ensures
            final(self)@ == (Frames {
                poses: old(self)@.poses,
                states: state_entered(old(self)@.states, frame_id, timestamp_ns, is_keyframe),
                links: if linked && old(self)@.states.len() > 0 {
                    old(self)@.links.push(
                        ImuLink { from: old(self)@.states.last().frame_id, to: frame_id },
                    )
                } else {
                    old(self)@.links
                },
            }),
    {
        let ghost w = self@;
        let first = self.states.len() == 0;
        if linked && !first {
            let last = self.states[self.states.len() - 1];
            self.imu_links.push(ImuLink { from: last.frame_id, to: frame_id });
        }
        self.states.push(
            WindowState { frame_id, timestamp_ns, is_keyframe, is_latest: true, linearized: first },
        );
        let ghost entered = self.states@;
        let ghost target = state_entered(w.states, frame_id, timestamp_ns, is_keyframe);
        let ghost links = self.imu_links@;
        let count: usize = self.states.len();
        for i in 0..count
            invariant
                count == entered.len(),
                self.states@.len() == entered.len(),
                target.len() == entered.len(),
                target == entered.map_values(
                    |s: WindowState| WindowState { is_latest: s.frame_id == frame_id, ..s },
                ),
                self.poses@ == w.poses,
                self.imu_links@ == links,
                forall|j: int| 0 <= j < i ==> self.states@[j] == target[j],
                forall|j: int| i <= j < count ==> self.states@[j] == entered[j],
        {
            let mut s = self.states[i];
            s.is_latest = s.frame_id == frame_id;
            self.states.set(i, s);
        }
        assert(self.states@ =~= target);
    }

    /// Linearizes the boundary state.
    pub fn freeze(&mut self, boundary: Option<u64>)
        ensures
            final(self)@ == frozen(old(self)@, boundary),
    {
        if let Some(frame_id) = boundary {
            if let Some(i) = self.position(frame_id) {
                let mut s = self.states[i];
                s.linearized = true;
                self.states.set(i, s);
            }
        }
    }

    /// The place of the first state of a frame.
    pub fn position(&self, frame_id: u64) -> (place: Option<usize>)
        ensures
            match place {
                Some(i) => first_state(self@.states, frame_id, self@.states.len() as int) == Some(
                    i as int,
                ) && i < self@.states.len(),
                None => first_state(self@.states, frame_id, self@.states.len() as int) is None,
            },
    {
        let mut place: Option<usize> = None;
        for i in 0..self.states.len()
            invariant
                match place {
                    Some(p) => first_state(self@.states, frame_id, i as int) == Some(p as int) && p
                        < i,
                    None => first_state(self@.states, frame_id, i as int) is None,
                },
        {
            if place.is_none() && self.states[i].frame_id == frame_id {
                place = Some(i);
            }
        }
        place
    }

    /// Turns the states of the frames into poses.
    pub fn convert(&mut self, ids: &Vec<u64>)
        ensures
            final(self)@ == all_converted(old(self)@, ids@),
    {
        let ghost w = self@;
        assert(all_converted(w, ids@.take(0)) == w);
        for k in 0..ids.len()
            invariant
                self@ == all_converted(w, ids@.take(k as int)),
        {
            let ghost before = self@;
            proof {
                assert(ids@.take(k + 1).drop_last() =~= ids@.take(k as int));
                assert(ids@.take(k + 1).last() == ids@[k as int]);
            }
            if let Some(i) = self.position(ids[k]) {
                let s = self.states.remove(i);
                proof {
                    first_state_is_first(before.states, ids@[k as int], before.states.len() as int);
                }
                let mut place: usize = self.poses.len();
                while place > 0 && self.poses[place - 1].frame_id >= s.frame_id
                    invariant
                        place <= self.poses@.len(),
                        pose_place(self.poses@, s.frame_id, place as int) == pose_place(
                            self.poses@,
                            s.frame_id,
                            self.poses@.len() as int,
                        ),
                    decreases place,
                {
                    place = place - 1;
                }
                self.poses.insert(
                    place,
                    WindowPose {
                        frame_id: s.frame_id,
                        timestamp_ns: s.timestamp_ns,
                        is_keyframe: s.is_keyframe,
                    },
                );
                assert(self@ =~= converted(before, ids@[k as int]));
            }
        }
        assert(ids@.take(ids@.len() as int) =~= ids@);
    }

    /// Removes frames from the window, and with them the links that lose an end.
    pub fn drop_frames(&mut self, drop_poses: &Vec<u64>, drop_states: &Vec<u64>)
        ensures
            final(self)@ == dropped(old(self)@, drop_poses@, drop_states@),
    {
        let ghost w = self@;
        let ghost keep_pose = |p: WindowPose| !drop_poses@.contains(p.frame_id);
        let ghost keep_state = |s: WindowState| !drop_states@.contains(s.frame_id);
        proof {
            reveal(Seq::filter);
        }
        let mut poses: Vec<WindowPose> = Vec::new();
        assert(w.poses.take(0).filter(keep_pose) =~= Seq::empty());
        for i in 0..self.poses.len()
            invariant
                w == self@,
                keep_pose == (|p: WindowPose| !drop_poses@.contains(p.frame_id)),
                poses@ == w.poses.take(i as int).filter(keep_pose),
        {
            proof {
                filter_next(w.poses, keep_pose, i as int);
            }
            if !contains_id(drop_poses, self.poses[i].frame_id) {
                poses.push(self.poses[i]);
            }
        }
        assert(w.poses.take(w.poses.len() as int) =~= w.poses);
        let mut states: Vec<WindowState> = Vec::new();
        assert(w.states.take(0).filter(keep_state) =~= Seq::empty());
        for i in 0..self.states.len()
            invariant
                w == self@,
                keep_state == (|s: WindowState| !drop_states@.contains(s.frame_id)),
                states@ == w.states.take(i as int).filter(keep_state),
        {
            proof {
                filter_next(w.states, keep_state, i as int);
            }
            if !contains_id(drop_states, self.states[i].frame_id) {
                states.push(self.states[i]);
            }
        }
        assert(w.states.take(w.states.len() as int) =~= w.states);
        self.poses = poses;
        self.states = states;
        let left = self.state_frames();
        let ghost keep_link = |l: ImuLink|
            state_ids(self.states@).contains(l.from) && state_ids(self.states@).contains(l.to);
        let mut links: Vec<ImuLink> = Vec::new();
        assert(w.links.take(0).filter(keep_link) =~= Seq::empty());
        for i in 0..self.imu_links.len()
            invariant
                w.links == self.imu_links@,
                left@ == state_ids(self.states@),
                keep_link == (|l: ImuLink|
                    state_ids(self.states@).contains(l.from) && state_ids(
                        self.states@,
                    ).contains(l.to)),
                links@ == w.links.take(i as int).filter(keep_link),
        {
            proof {
                filter_next(w.links, keep_link, i as int);
            }
            let l = self.imu_links[i];
            if contains_id(&left, l.from) && contains_id(&left, l.to) {
                links.push(l);
            }
        }
        assert(w.links.take(w.links.len() as int) =~= w.links);
        self.imu_links = links;
    }
}

/// Whether no two states belong to the same frame.
pub open spec fn distinct_states(states: Seq<WindowState>) -> bool {
    forall|i: int, j: int|
        0 <= i < j < states.len() ==> (#[trigger] states[i]).frame_id != (
        #[trigger] states[j]).frame_id
}

/// A list whose elements all satisfy a predicate, filtered, is the list.
pub proof fn filter_all<T>(s: Seq<T>, keep: spec_fn(T) -> bool)
    requires
        forall|i: int| 0 <= i < s.len() ==> keep(#[trigger] s[i]),
    ensures
        s.filter(keep) == s,
    decreases s.len(),
{
    reveal(Seq::filter);
    if s.len() > 0 {
        filter_all(s.drop_last(), keep);
        assert(s =~= s.drop_last().push(s.last()));
    } else {
        assert(s.filter(keep) =~= s);
    }
}

proof fn filter_none<T>(s: Seq<T>, keep: spec_fn(T) -> bool)
    requires
        forall|i: int| 0 <= i < s.len() ==> !keep(#[trigger] s[i]),
    ensures
        s.filter(keep) == Seq::<T>::empty(),
{
    s.lemma_all_neg_filter_empty(keep);
}

proof fn filter_both<T>(s: Seq<T>, a: spec_fn(T) -> bool, b: spec_fn(T) -> bool)
    ensures
        s.filter(a).filter(b) == s.filter(|x: T| a(x) && b(x)),
    decreases s.len(),
{
    reveal(Seq::filter);
    let c = |x: T| a(x) && b(x);
    if s.len() > 0 {
        filter_both(s.drop_last(), a, b);
        if a(s.last()) {
            s.drop_last().filter(a).lemma_filter_push(s.last(), b);
        }
    } else {
        assert(s.filter(a).filter(b) =~= s.filter(c));
    }
}

proof fn removal_filters(states: Seq<WindowState>, i: int)
    requires
        distinct_states(states),
        0 <= i < states.len(),
    ensures
        states.remove(i) == states.filter(|s: WindowState| s.frame_id != states[i].frame_id),
{
    let id = states[i].frame_id;
    let keep = |s: WindowState| s.frame_id != id;
    let a = states.take(i);
    let m = seq![states[i]];
    let b = states.skip(i + 1);
    assert(states =~= a + m + b);
    assert forall|k: int| 0 <= k < a.len() implies keep(#[trigger] a[k]) by {
        assert(states[k].frame_id != states[i].frame_id);
    }
    assert forall|k: int| 0 <= k < b.len() implies keep(#[trigger] b[k]) by {
        assert(states[i].frame_id != states[i + 1 + k].frame_id);
    }
    filter_all(a, keep);
    filter_all(b, keep);
    filter_none(m, keep);
    Seq::filter_distributes_over_add(a, m, keep);
    Seq::filter_distributes_over_add(a + m, b, keep);
    assert(states.remove(i) =~= a + b);
    assert(a + Seq::<WindowState>::empty() =~= a);
}

proof fn converted_states(w: Frames, ids: Seq<u64>)
    requires
        distinct_states(w.states),
    ensures
        all_converted(w, ids).states == w.states.filter(
            |s: WindowState| !ids.contains(s.frame_id),
        ),
        all_converted(w, ids).links == w.links,
    decreases ids.len(),
{
    let keep = |s: WindowState| !ids.contains(s.frame_id);
    if ids.len() == 0 {
        filter_all(w.states, keep);
    } else {
        let front = ids.drop_last();
        let id = ids.last();
        let a = all_converted(w, front);
        converted_states(w, front);
        let keep_front = |s: WindowState| !front.contains(s.frame_id);
        let keep_id = |s: WindowState| s.frame_id != id;
        filter_keeps_distinct(w.states, keep_front);
        first_state_is_first(a.states, id, a.states.len() as int);
        match first_state(a.states, id, a.states.len() as int) {
            Some(i) => {
                removal_filters(a.states, i);
            },
            None => {
                filter_all(a.states, keep_id);
            },
        }
        assert(all_converted(w, ids).states == a.states.filter(keep_id));
        filter_both(w.states, keep_front, keep_id);
        let both = |s: WindowState| keep_front(s) && keep_id(s);
        assert forall|s: WindowState| #[trigger] both(s) == keep(s) by {
            assert(ids =~= front.push(id));
            vstd::seq_lib::lemma_seq_contains_after_push(front, id, s.frame_id);
        }
        assert(both =~= keep);
    }
}

proof fn filter_keeps_distinct(states: Seq<WindowState>, keep: spec_fn(WindowState) -> bool)
    requires
        distinct_states(states),
    ensures
        distinct_states(states.filter(keep)),
    decreases states.len(),
{
    reveal(Seq::filter);
    if states.len() > 0 {
        let front = states.drop_last();
        assert forall|i: int, j: int| 0 <= i < j < front.len() implies (
        #[trigger] front[i]).frame_id != (#[trigger] front[j]).frame_id by {
            assert(states[i].frame_id != states[j].frame_id);
        }
        filter_keeps_distinct(front, keep);
        let kept = front.filter(keep);
        if keep(states.last()) {
            let all = states.filter(keep);
            assert forall|i: int, j: int| 0 <= i < j < all.len() implies (
            #[trigger] all[i]).frame_id != (#[trigger] all[j]).frame_id by {
                if j == kept.len() {
                    crate::ordered::filter_members(front, keep);
                    assert(kept.contains(kept[i]));
                    let k = choose|k: int| 0 <= k < front.len() && front[k] == kept[i];
                    assert(states[k].frame_id != states[states.len() - 1].frame_id);
                }
            }
        }
    }
}

/// Where no two states share a frame, converting some states and dropping others leaves exactly the
/// states that are neither, in their order.
pub proof fn shifted_states(w: Frames, convert: Seq<u64>, drop_poses: Seq<u64>, drop: Seq<u64>)
    requires
        distinct_states(w.states),
    ensures
        dropped(all_converted(w, convert), drop_poses, drop).states == w.states.filter(
            |s: WindowState| !convert.contains(s.frame_id) && !drop.contains(s.frame_id),
        ),
{
    converted_states(w, convert);
    let a = |s: WindowState| !convert.contains(s.frame_id);
    let b = |s: WindowState| !drop.contains(s.frame_id);
    filter_both(w.states, a, b);
    assert((|s: WindowState| a(s) && b(s)) =~= (|s: WindowState|
        !convert.contains(s.frame_id) && !drop.contains(s.frame_id)));
}

/// Taking an element out of a list and filtering it.
proof fn filter_without<T>(s: Seq<T>, i: int, keep: spec_fn(T) -> bool)
    requires
        0 <= i < s.len(),
    ensures
        s.remove(i).filter(keep) == s.take(i).filter(keep) + s.skip(i + 1).filter(keep),
        s.filter(keep) == s.take(i).filter(keep) + (if keep(s[i]) {
            seq![s[i]]
        } else {
            Seq::empty()
        }) + s.skip(i + 1).filter(keep),
{
    let a = s.take(i);
    let m = seq![s[i]];
    let b = s.skip(i + 1);
    assert(s =~= a + m + b);
    assert(s.remove(i) =~= a + b);
    Seq::filter_distributes_over_add(a, b, keep);
    Seq::filter_distributes_over_add(a, m, keep);
    Seq::filter_distributes_over_add(a + m, b, keep);
    if keep(s[i]) {
        filter_all(m, keep);
    } else {
        filter_none(m, keep);
    }
}

/// Turning the keyframes among the oldest states into poses leaves, apart from frames that are dropped
/// anyway, the states behind the oldest. `w` tells the oldest apart, and `f` has the same frames.
pub proof fn conversion_clears_the_front(w: Frames, f: Frames, drop: Seq<u64>, n: int)
    requires
        w.states.len() == f.states.len(),
        forall|i: int|
            0 <= i < w.states.len() ==> (#[trigger] f.states[i]).frame_id == w.states[i].frame_id,
        0 <= n <= w.states.len(),
        forall|i: int|
            0 <= i < n && !(#[trigger] w.states[i]).is_keyframe ==> drop.contains(
                w.states[i].frame_id,
            ),
    ensures
        all_converted(
            f,
            state_ids(w.states.take(n).filter(|s: WindowState| s.is_keyframe)),
        ).states.filter(|s: WindowState| !drop.contains(s.frame_id)) == f.states.skip(n).filter(
            |s: WindowState| !drop.contains(s.frame_id),
        ),
    decreases n,
{
    let kf = |s: WindowState| s.is_keyframe;
    let keep = |s: WindowState| !drop.contains(s.frame_id);
    if n == 0 {
        reveal(Seq::filter);
        assert(state_ids(w.states.take(0).filter(kf)) =~= Seq::empty());
        assert(f.states.skip(0) =~= f.states);
    } else {
        let j = n - 1;
        conversion_clears_the_front(w, f, drop, j);
        let ids = state_ids(w.states.take(j).filter(kf));
        let next = state_ids(w.states.take(n).filter(kf));
        let c = all_converted(f, ids);
        let x = f.states[j];
        let rest = f.states.skip(n);
        filter_next(w.states, kf, j);
        assert(f.states.skip(j) =~= seq![x] + rest);
        filter_without(f.states.skip(j), 0, keep);
        assert(f.states.skip(j).take(0) =~= Seq::empty());
        assert(f.states.skip(j).skip(1) =~= rest);
        assert(f.states.skip(j).take(0).filter(keep) =~= Seq::empty()) by {
            reveal(Seq::filter);
        }
        if w.states[j].is_keyframe {
            assert(next =~= ids.push(x.frame_id));
            assert(next.drop_last() =~= ids);
            assert(all_converted(f, next) == converted(c, x.frame_id));
            first_state_is_first(c.states, x.frame_id, c.states.len() as int);
            match first_state(c.states, x.frame_id, c.states.len() as int) {
                Some(i) => {
                    filter_without(c.states, i, keep);
                    if keep(x) {
                        front_is_first(c.states, i, keep, x, rest.filter(keep));
                    }
                },
                None => {
                    if keep(x) {
                        assert(c.states.filter(keep)[0] == x);
                        crate::ordered::filter_members(c.states, keep);
                        assert(c.states.filter(keep).contains(x));
                        let k = choose|k: int| 0 <= k < c.states.len() && c.states[k] == x;
                        assert(c.states[k].frame_id == x.frame_id);
                    }
                },
            }
        } else {
            assert(next =~= ids);
        }
        assert(all_converted(f, next).states.filter(keep) =~= rest.filter(keep));
    }
}

/// Where a filtered list begins with a state, the first state of its frame is the first that is kept.
proof fn front_is_first(
    s: Seq<WindowState>,
    i: int,
    keep: spec_fn(WindowState) -> bool,
    x: WindowState,
    rest: Seq<WindowState>,
)
    requires
        0 <= i < s.len(),
        s[i].frame_id == x.frame_id,
        forall|j: int| 0 <= j < i ==> (#[trigger] s[j]).frame_id != x.frame_id,
        keep(s[i]),
        s.filter(keep) == seq![x] + rest,
    ensures
        s.remove(i).filter(keep) == rest,
{
    filter_without(s, i, keep);
    let a = s.take(i).filter(keep);
    let b = s.skip(i + 1).filter(keep);
    if a.len() > 0 {
        assert(s.filter(keep)[0] == a[0]);
        assert(s.filter(keep)[0] == x);
        crate::ordered::filter_members(s.take(i), keep);
        assert(a.contains(a[0]));
        let k = choose|k: int| 0 <= k < i && s.take(i)[k] == x;
        assert(s[k].frame_id == x.frame_id);
    }
    assert(a =~= Seq::empty());
    assert(s.filter(keep).skip(1) =~= b);
    assert(s.filter(keep).skip(1) =~= rest);
}

/// A frame is active where a pose or a state is of it, and a keyframe where a pose or a keyframe state is of
/// it.
pub proof fn frames_are_members(w: Frames)
    ensures
        forall|id: u64| #[trigger]
            w.active().contains(id) <==> (exists|i: int|
                0 <= i < w.poses.len() && (#[trigger] w.poses[i]).frame_id == id) || (exists|
                i: int,
            | 0 <= i < w.states.len() && (#[trigger] w.states[i]).frame_id == id),
        forall|id: u64| #[trigger]
            w.keyframes().contains(id) <==> (exists|i: int|
                0 <= i < w.poses.len() && (#[trigger] w.poses[i]).frame_id == id) || (exists|
                i: int,
            |
                0 <= i < w.states.len() && (#[trigger] w.states[i]).frame_id == id
                    && w.states[i].is_keyframe),
        w.dof() == 6 * w.poses.len() + 15 * w.states.len(),
{
    let keep = |s: WindowState| s.is_keyframe;
    let kept = w.states.filter(keep);
    filter_members(w.states, keep);
    let poses = pose_ids(w.poses);
    let states = state_ids(w.states);
    let some = state_ids(kept);
    assert forall|id: u64| #[trigger] w.active().contains(id) <==> (exists|i: int|
        0 <= i < w.poses.len() && (#[trigger] w.poses[i]).frame_id == id) || (exists|i: int|
        0 <= i < w.states.len() && (#[trigger] w.states[i]).frame_id == id) by {
        joined(poses, states, id);
        if poses.contains(id) {
            let i = choose|i: int| 0 <= i < poses.len() && poses[i] == id;
            assert(w.poses[i].frame_id == id);
        }
        if states.contains(id) {
            let i = choose|i: int| 0 <= i < states.len() && states[i] == id;
            assert(w.states[i].frame_id == id);
        }
        if exists|i: int| 0 <= i < w.poses.len() && (#[trigger] w.poses[i]).frame_id == id {
            let i = choose|i: int| 0 <= i < w.poses.len() && (#[trigger] w.poses[i]).frame_id == id;
            assert(poses[i] == id);
        }
        if exists|i: int| 0 <= i < w.states.len() && (#[trigger] w.states[i]).frame_id == id {
            let i = choose|i: int|
                0 <= i < w.states.len() && (#[trigger] w.states[i]).frame_id == id;
            assert(states[i] == id);
        }
    }
    assert forall|id: u64| #[trigger] w.keyframes().contains(id) <==> (exists|i: int|
        0 <= i < w.poses.len() && (#[trigger] w.poses[i]).frame_id == id) || (exists|i: int|
        0 <= i < w.states.len() && (#[trigger] w.states[i]).frame_id == id
            && w.states[i].is_keyframe) by {
        joined(poses, some, id);
        if poses.contains(id) {
            let i = choose|i: int| 0 <= i < poses.len() && poses[i] == id;
            assert(w.poses[i].frame_id == id);
        }
        if some.contains(id) {
            let k = choose|k: int| 0 <= k < some.len() && some[k] == id;
            assert(kept.contains(kept[k]));
            let i = choose|i: int| 0 <= i < w.states.len() && w.states[i] == kept[k];
            assert(w.states[i].frame_id == id);
        }
        if exists|i: int| 0 <= i < w.poses.len() && (#[trigger] w.poses[i]).frame_id == id {
            let i = choose|i: int| 0 <= i < w.poses.len() && (#[trigger] w.poses[i]).frame_id == id;
            assert(poses[i] == id);
        }
        if exists|i: int|
            0 <= i < w.states.len() && (#[trigger] w.states[i]).frame_id == id
                && w.states[i].is_keyframe {
            let i = choose|i: int|
                0 <= i < w.states.len() && (#[trigger] w.states[i]).frame_id == id
                    && w.states[i].is_keyframe;
            assert(w.states.contains(w.states[i]));
            assert(kept.contains(w.states[i]));
            let k = choose|k: int| 0 <= k < kept.len() && kept[k] == w.states[i];
            assert(some[k] == id);
        }
    }
}

proof fn joined<T>(a: Seq<T>, b: Seq<T>, x: T)
    ensures
        (a + b).contains(x) <==> a.contains(x) || b.contains(x),
{
    if a.contains(x) {
        let i = choose|i: int| 0 <= i < a.len() && a[i] == x;
        assert((a + b)[i] == x);
    }
    if b.contains(x) {
        let i = choose|i: int| 0 <= i < b.len() && b[i] == x;
        assert((a + b)[a.len() + i] == x);
    }
    if (a + b).contains(x) {
        let i = choose|i: int| 0 <= i < (a + b).len() && (a + b)[i] == x;
        if i < a.len() {
            assert(a[i] == x);
        } else {
            assert(b[i - a.len()] == x);
        }
    }
}

/// A state that enters stands last, as it came, and is linearized where it is the only one; the states of
/// its frame, and no others, are the latest; nothing else of the earlier states changes.
pub proof fn states_enter_last(
    states: Seq<WindowState>,
    frame_id: u64,
    timestamp_ns: i64,
    is_keyframe: bool,
)
    ensures
        ({
            let after = state_entered(states, frame_id, timestamp_ns, is_keyframe);
            let new = after[states.len() as int];
            &&& after.len() == states.len() + 1
            &&& new.frame_id == frame_id
            &&& new.timestamp_ns == timestamp_ns
            &&& new.is_keyframe == is_keyframe
            &&& new.is_latest
            &&& new.linearized <==> states.len() == 0
            &&& forall|i: int|
                0 <= i < states.len() ==> {
                    &&& (#[trigger] after[i]).frame_id == states[i].frame_id
                    &&& after[i].timestamp_ns == states[i].timestamp_ns
                    &&& after[i].is_keyframe == states[i].is_keyframe
                    &&& after[i].linearized == states[i].linearized
                    &&& after[i].is_latest <==> states[i].frame_id == frame_id
                }
        }),
{
}

/// The blocks are those of the poses, six unknowns each, then those of the states, fifteen each, in their
/// order and one behind the other.
pub proof fn blocks_stand_for_poses_then_states(w: Frames, i: int)
    requires
        w.dof() <= usize::MAX,
        0 <= i < w.poses.len() + w.states.len(),
    ensures
        ({
            let b = blocks(w.poses, w.states)[i];
            if i < w.poses.len() {
                &&& b.frame_id == w.poses[i].frame_id
                &&& b.dof == 6
                &&& b.kind is Pose
                &&& b.offset == 6 * i
            } else {
                &&& b.frame_id == w.states[i - w.poses.len()].frame_id
                &&& b.dof == 15
                &&& b.kind is State
                &&& b.offset == 6 * w.poses.len() + 15 * (i - w.poses.len())
            }
        }),
{
}

/// Turning the state of a frame into a pose takes its first state out and puts a pose of the same frame,
/// time and kind behind the last pose of an earlier frame; nothing else changes, and nothing at all where
/// the frame has no state.
pub proof fn conversion_moves_one_state(w: Frames, frame_id: u64)
    ensures
        (forall|i: int| 0 <= i < w.states.len() ==> (#[trigger] w.states[i]).frame_id != frame_id)
            ==> converted(w, frame_id) == w,
        forall|i: int|
            0 <= i < w.states.len() && (#[trigger] w.states[i]).frame_id == frame_id && (forall|
                j: int,
            | 0 <= j < i ==> (#[trigger] w.states[j]).frame_id != frame_id) ==> {
                let after = converted(w, frame_id);
                let place = pose_place(w.poses, frame_id, w.poses.len() as int);
                &&& after.states == w.states.remove(i)
                &&& after.links == w.links
                &&& 0 <= place <= w.poses.len()
                &&& after.poses.len() == w.poses.len() + 1
                &&& after.poses[place].frame_id == frame_id
                &&& after.poses[place].timestamp_ns == w.states[i].timestamp_ns
                &&& after.poses[place].is_keyframe == w.states[i].is_keyframe
                &&& after.poses.remove(place) == w.poses
                &&& forall|k: int|
                    place <= k < w.poses.len() ==> (#[trigger] w.poses[k]).frame_id >= frame_id
                &&& place > 0 ==> w.poses[place - 1].frame_id < frame_id
            },
{
    first_state_is_first(w.states, frame_id, w.states.len() as int);
    pose_place_is_right(w.poses, frame_id, w.poses.len() as int);
    assert forall|i: int|
        0 <= i < w.states.len() && (#[trigger] w.states[i]).frame_id == frame_id && (forall|j: int|
            0 <= j < i ==> (#[trigger] w.states[j]).frame_id != frame_id) implies {
        let after = converted(w, frame_id);
        let place = pose_place(w.poses, frame_id, w.poses.len() as int);
        &&& after.states == w.states.remove(i)
        &&& after.links == w.links
        &&& after.poses.len() == w.poses.len() + 1
        &&& after.poses[place].frame_id == frame_id
        &&& after.poses[place].timestamp_ns == w.states[i].timestamp_ns
        &&& after.poses[place].is_keyframe == w.states[i].is_keyframe
        &&& after.poses.remove(place) == w.poses
    } by {
        let first = first_state(w.states, frame_id, w.states.len() as int)->0;
        assert(first == i);
        let place = pose_place(w.poses, frame_id, w.poses.len() as int);
        assert(converted(w, frame_id).poses.remove(place) =~= w.poses);
    }
}

proof fn pose_place_is_right(poses: Seq<WindowPose>, frame_id: u64, n: int)
    requires
        0 <= n <= poses.len(),
    ensures
        0 <= pose_place(poses, frame_id, n) <= n,
        forall|k: int|
            pose_place(poses, frame_id, n) <= k < n ==> (#[trigger] poses[k]).frame_id >= frame_id,
        pose_place(poses, frame_id, n) > 0 ==> poses[pose_place(poses, frame_id, n) - 1].frame_id
            < frame_id,
    decreases n,
{
    if n > 0 && poses[n - 1].frame_id >= frame_id {
        pose_place_is_right(poses, frame_id, n - 1);
    }
}

/// Freezing linearizes the first state of the boundary frame and changes nothing else.
pub proof fn freezing_linearizes_the_boundary(w: Frames, boundary: Option<u64>, i: int)
    requires
        0 <= i < w.states.len(),
    ensures
        ({
            let after = frozen(w, boundary);
            &&& after.poses == w.poses
            &&& after.links == w.links
            &&& after.states.len() == w.states.len()
            &&& after.states[i].frame_id == w.states[i].frame_id
            &&& after.states[i].timestamp_ns == w.states[i].timestamp_ns
            &&& after.states[i].is_keyframe == w.states[i].is_keyframe
            &&& after.states[i].is_latest == w.states[i].is_latest
            &&& after.states[i].linearized <==> w.states[i].linearized || (boundary == Some(
                w.states[i].frame_id,
            ) && forall|j: int|
                0 <= j < i ==> (#[trigger] w.states[j]).frame_id != w.states[i].frame_id)
        }),
{
    if boundary is Some {
        first_state_is_first(w.states, boundary->0, w.states.len() as int);
    }
}

/// Exactly the poses and states that are not named stay, and the links between states that stay.
pub proof fn drops_remove_what_is_named(w: Frames, drop_poses: Seq<u64>, drop_states: Seq<u64>)
    ensures
        ({
            let after = dropped(w, drop_poses, drop_states);
            &&& forall|p: WindowPose| #[trigger]
                after.poses.contains(p) <==> w.poses.contains(p) && !drop_poses.contains(
                    p.frame_id,
                )
            &&& forall|s: WindowState| #[trigger]
                after.states.contains(s) <==> w.states.contains(s) && !drop_states.contains(
                    s.frame_id,
                )
            &&& forall|l: ImuLink| #[trigger]
                after.links.contains(l) <==> w.links.contains(l) && (exists|i: int|
                    0 <= i < after.states.len() && (#[trigger] after.states[i]).frame_id == l.from)
                    && (exists|i: int|
                    0 <= i < after.states.len() && (#[trigger] after.states[i]).frame_id == l.to)
        }),
{
    let after = dropped(w, drop_poses, drop_states);
    filter_members(w.poses, |p: WindowPose| !drop_poses.contains(p.frame_id));
    filter_members(w.states, |s: WindowState| !drop_states.contains(s.frame_id));
    let keep = |l: ImuLink|
        state_ids(after.states).contains(l.from) && state_ids(after.states).contains(l.to);
    filter_members(w.links, keep);
    assert forall|id: u64| #[trigger] state_ids(after.states).contains(id) <==> exists|i: int|
        0 <= i < after.states.len() && (#[trigger] after.states[i]).frame_id == id by {
        if state_ids(after.states).contains(id) {
            let i = choose|i: int|
                0 <= i < after.states.len() && state_ids(after.states)[i] == id;
            assert(after.states[i].frame_id == id);
        }
        if exists|i: int| 0 <= i < after.states.len() && (#[trigger] after.states[i]).frame_id == id {
            let i = choose|i: int|
                0 <= i < after.states.len() && (#[trigger] after.states[i]).frame_id == id;
            assert(state_ids(after.states)[i] == id);
        }
    }
    assert forall|l: ImuLink| #[trigger] after.links.contains(l) <==> w.links.contains(l) && (
    exists|i: int|
        0 <= i < after.states.len() && (#[trigger] after.states[i]).frame_id == l.from) && (exists|
        i: int,
    | 0 <= i < after.states.len() && (#[trigger] after.states[i]).frame_id == l.to) by {
        assert(after.links.contains(l) <==> w.links.contains(l) && keep(l));
        assert(state_ids(after.states).contains(l.from) <==> exists|i: int|
            0 <= i < after.states.len() && (#[trigger] after.states[i]).frame_id == l.from);
        assert(state_ids(after.states).contains(l.to) <==> exists|i: int|
            0 <= i < after.states.len() && (#[trigger] after.states[i]).frame_id == l.to);
    }
}

/// Turning the states of some frames into poses leaves the other states, and gives a pose for each that is
/// turned, beside the poses that there were.
pub proof fn conversions_give_poses(w: Frames, ids: Seq<u64>, p: WindowPose)
    requires
        forall|i: int, j: int|
            0 <= i < j < w.states.len() ==> (#[trigger] w.states[i]).frame_id != (
            #[trigger] w.states[j]).frame_id,
    ensures
        all_converted(w, ids).states == w.states.filter(
            |s: WindowState| !ids.contains(s.frame_id),
        ),
        all_converted(w, ids).poses.contains(p) <==> w.poses.contains(p) || exists|i: int|
            0 <= i < w.states.len() && ids.contains((#[trigger] w.states[i]).frame_id)
                && w.states[i].frame_id == p.frame_id && w.states[i].timestamp_ns == p.timestamp_ns
                && w.states[i].is_keyframe == p.is_keyframe,
    decreases ids.len(),
{
    converted_states(w, ids);
    if ids.len() > 0 {
        let front = ids.drop_last();
        let before = all_converted(w, front);
        let after = all_converted(w, ids);
        conversions_give_poses(w, front, p);
        let keep = |s: WindowState| !front.contains(s.frame_id);
        filter_members(w.states, keep);
        first_state_is_first(before.states, ids.last(), before.states.len() as int);
        pose_place_is_right(before.poses, ids.last(), before.poses.len() as int);
        assert forall|t: u64| #[trigger] ids.contains(t) <==> front.contains(t) || t
            == ids.last() by {
            if ids.contains(t) {
                let i = choose|i: int| 0 <= i < ids.len() && ids[i] == t;
                if i < front.len() {
                    assert(front[i] == t);
                }
            }
            if front.contains(t) {
                let i = choose|i: int| 0 <= i < front.len() && front[i] == t;
                assert(ids[i] == t);
            }
            assert(ids[ids.len() - 1] == ids.last());
        }
        match first_state(before.states, ids.last(), before.states.len() as int) {
            Some(k) => {
                let s = before.states[k];
                let place = pose_place(before.poses, s.frame_id, before.poses.len() as int);
                let new = WindowPose {
                    frame_id: s.frame_id,
                    timestamp_ns: s.timestamp_ns,
                    is_keyframe: s.is_keyframe,
                };
                assert(before.states.contains(s));
                let m = choose|m: int| 0 <= m < w.states.len() && w.states[m] == s;
                assert(after.poses == before.poses.insert(place, new));
                if after.poses.contains(p) {
                    let i = choose|i: int| 0 <= i < after.poses.len() && after.poses[i] == p;
                    if i < place {
                        assert(before.poses[i] == p);
                    } else if i > place {
                        assert(before.poses[i - 1] == p);
                    } else {
                        assert(ids.contains(w.states[m].frame_id));
                    }
                }
                if before.poses.contains(p) {
                    let i = choose|i: int| 0 <= i < before.poses.len() && before.poses[i] == p;
                    if i < place {
                        assert(after.poses[i] == p);
                    } else {
                        assert(after.poses[i + 1] == p);
                    }
                }
                if exists|i: int|
                    0 <= i < w.states.len() && ids.contains((#[trigger] w.states[i]).frame_id)
                        && w.states[i].frame_id == p.frame_id && w.states[i].timestamp_ns
                        == p.timestamp_ns && w.states[i].is_keyframe == p.is_keyframe {
                    let i = choose|i: int|
                        0 <= i < w.states.len() && ids.contains((#[trigger] w.states[i]).frame_id)
                            && w.states[i].frame_id == p.frame_id && w.states[i].timestamp_ns
                            == p.timestamp_ns && w.states[i].is_keyframe == p.is_keyframe;
                    if !front.contains(w.states[i].frame_id) {
                        assert(w.states[i].frame_id == w.states[m].frame_id);
                        assert(i == m);
                        assert(after.poses[place] == p);
                    }
                }
            },
            None => {
                assert(after == before);
                if exists|i: int|
                    0 <= i < w.states.len() && ids.contains((#[trigger] w.states[i]).frame_id)
                        && w.states[i].frame_id == p.frame_id && w.states[i].timestamp_ns
                        == p.timestamp_ns && w.states[i].is_keyframe == p.is_keyframe {
                    let i = choose|i: int|
                        0 <= i < w.states.len() && ids.contains((#[trigger] w.states[i]).frame_id)
                            && w.states[i].frame_id == p.frame_id && w.states[i].timestamp_ns
                            == p.timestamp_ns && w.states[i].is_keyframe == p.is_keyframe;
                    if !front.contains(w.states[i].frame_id) {
                        assert(w.states.contains(w.states[i]));
                        assert(before.states.contains(w.states[i]));
                        let k = choose|k: int|
                            0 <= k < before.states.len() && before.states[k] == w.states[i];
                        assert(before.states[k].frame_id != ids.last());
                    }
                }
            },
        }
    }
}

} // verus!

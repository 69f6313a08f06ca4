//! Which frames leave the window, and which keyframes go when there are too many.
use crate::basalt::window::{
    frames_are_members, pose_ids, state_ids, Frames, Window, WindowState,
};
use crate::ieee::{double_less, double_total, is_double_less, is_double_total_less};
use crate::ordered::{
    ascending, ascending_lists_members, contains_id, copy_list, filter_members, filter_next,
    increasing, sorted_unique,
};
use vstd::prelude::*;

verus! {

/// How large the window may grow, and the bits of the ratio of features below which an old keyframe
/// is given up first.
#[derive(Clone, Copy, Debug, PartialEq, Eq, Structural)]
pub struct WindowPolicy {
    pub max_states: usize,
    pub max_kfs: usize,
    pub min_feature_ratio: u64,
}

impl Default for WindowPolicy {
    /// Three states, seven keyframes, a tenth of the features.
    fn default() -> (policy: Self)
        ensures
            policy == (WindowPolicy {
                max_states: 3,
                max_kfs: 7,
                min_feature_ratio: 0x3fb9_9999_9999_999a,
            }),
    {
        WindowPolicy { max_states: 3, max_kfs: 7, min_feature_ratio: 0x3fb9_9999_9999_999a }
    }
}

/// What leaves the window: states that go entirely, keyframe states of which the pose stays, poses
/// that go, and the state that bounds the frames that are left.
#[derive(Debug)]
pub struct MarginalizationPlan {
    pub drop_states: Vec<u64>,
    pub convert_states: Vec<u64>,
    pub drop_poses: Vec<u64>,
    pub boundary_state: Option<u64>,
}

/// What a plan holds.
#[verifier::ext_equal]
pub ghost struct PlanModel {
    pub drop_states: Seq<u64>,
    pub convert_states: Seq<u64>,
    pub drop_poses: Seq<u64>,
    pub boundary_state: Option<u64>,
}

impl View for MarginalizationPlan {
    type V = PlanModel;

    open spec fn view(&self) -> PlanModel {
        PlanModel {
            drop_states: self.drop_states@,
            convert_states: self.convert_states@,
            drop_poses: self.drop_poses@,
            boundary_state: self.boundary_state,
        }
    }
}

/// The number of states that leave: as many as bring the window below its limit, none where it is
/// below already.
pub open spec fn leaving(w: Frames, policy: WindowPolicy) -> nat {
    if w.states.len() >= policy.max_states {
        let count = (w.states.len() - policy.max_states + 1) as nat;
        if count <= w.states.len() {
            count
        } else {
            w.states.len()
        }
    } else {
        0
    }
}

/// Whether the window has too many states or too many poses.
pub open spec fn triggered(w: Frames, policy: WindowPolicy) -> bool {
    w.states.len() >= policy.max_states || w.poses.len() > policy.max_kfs
}

/// The oldest states leave: of a keyframe the pose stays, any other goes entirely. The next state
/// bounds what is left.
pub open spec fn first_plan(w: Frames, policy: WindowPolicy) -> PlanModel {
    let oldest = w.states.take(leaving(w, policy) as int);
    PlanModel {
        drop_states: state_ids(oldest.filter(|s: WindowState| !s.is_keyframe)),
        convert_states: state_ids(oldest.filter(|s: WindowState| s.is_keyframe)),
        drop_poses: Seq::empty(),
        boundary_state: if w.states.len() >= policy.max_states && leaving(w, policy)
            < w.states.len() {
            Some(w.states[leaving(w, policy) as int].frame_id)
        } else {
            None
        },
    }
}

/// The plan before a keyframe is picked: the oldest states leave a window that has too many states or
/// poses, and nothing leaves any other.
pub open spec fn begun(w: Frames, policy: WindowPolicy) -> PlanModel {
    if triggered(w, policy) {
        first_plan(w, policy)
    } else {
        PlanModel {
            drop_states: Seq::empty(),
            convert_states: Seq::empty(),
            drop_poses: Seq::empty(),
            boundary_state: None,
        }
    }
}

/// Whether anything leaves the window.
pub open spec fn is_needed(plan: PlanModel) -> bool {
    plan.drop_states.len() > 0 || plan.convert_states.len() > 0 || plan.drop_poses.len() > 0
}

/// The keyframes of the window in ascending order.
pub open spec fn keyframe_list(w: Frames) -> Seq<u64> {
    ascending(w.keyframes().to_set())
}

/// A plan under way: what was decided, the keyframes that are left, and the policy that they are
/// held against.
#[derive(Debug)]
pub struct MarginalizationPlanner {
    pub plan: MarginalizationPlan,
    pub kfs: Vec<u64>,
    pub policy: WindowPolicy,
}

/// Whether a keyframe still has to go: some state was turned into a pose, and there are more
/// keyframes than allowed and more than the two newest.
pub open spec fn selecting(p: MarginalizationPlanner) -> bool {
    &&& p.plan@.convert_states.len() > 0
    &&& p.kfs@.len() > p.policy.max_kfs
    &&& p.kfs@.len() > 2
}

/// The keyframe that goes: the first with too few features, else the one with the smallest score,
/// the earlier of two with the same score. A frame without a score is never picked by it.
pub open spec fn picks(
    count: nat,
    ratios: Seq<u64>,
    scores: Seq<Option<u64>>,
    min_ratio: u64,
    picked: Option<int>,
) -> bool {
    match picked {
        Some(i) => 0 <= i < count && {
            ||| double_less(ratios[i], min_ratio) && forall|j: int|
                0 <= j < i ==> !double_less(#[trigger] ratios[j], min_ratio)
            ||| {
                &&& forall|j: int|
                    0 <= j < count ==> !double_less(#[trigger] ratios[j], min_ratio)
                &&& scores[i] is Some
                &&& forall|j: int|
                    0 <= j < count && (#[trigger] scores[j]) is Some ==> {
                        let a = double_total(scores[i]->0);
                        let b = double_total(scores[j]->0);
                        a < b || (a == b && i <= j)
                    }
            }
        },
        None => {
            &&& forall|j: int|
                0 <= j < count ==> !double_less(#[trigger] ratios[j], min_ratio)
            &&& forall|j: int| 0 <= j < count ==> (#[trigger] scores[j]) is None
        },
    }
}

/// At most one keyframe is picked.
pub proof fn pick_is_determined(
    count: nat,
    ratios: Seq<u64>,
    scores: Seq<Option<u64>>,
    min_ratio: u64,
    a: Option<int>,
    b: Option<int>,
)
    requires
        picks(count, ratios, scores, min_ratio, a),
        picks(count, ratios, scores, min_ratio, b),
    ensures
        a == b,
{
    if a is Some && b is Some {
        let i = a->0;
        let j = b->0;
        if double_less(ratios[i], min_ratio) {
            assert(double_less(ratios[j], min_ratio));
        } else {
            assert(!double_less(ratios[j], min_ratio));
            assert(scores[i] is Some && scores[j] is Some);
        }
    } else if a is Some {
        assert(scores[a->0] is None);
    } else if b is Some {
        assert(scores[b->0] is None);
    }
}

/// Picks the keyframe that goes.
fn pick(ratios: &Vec<u64>, scores: &Vec<Option<u64>>, min_ratio: u64, count: usize) -> (picked:
    Option<usize>)
    requires
        ratios@.len() == count,
        scores@.len() == count,
    ensures
        match picked {
            Some(i) => i < count && picks(count as nat, ratios@, scores@, min_ratio, Some(i as int)),
            None => picks(count as nat, ratios@, scores@, min_ratio, None),
        },
{
    for i in 0..count
        invariant
            ratios@.len() == count,
            scores@.len() == count,
            forall|j: int| 0 <= j < i ==> !double_less(#[trigger] ratios@[j], min_ratio),
    {
        if is_double_less(ratios[i], min_ratio) {
            return Some(i);
        }
    }
    let mut best: Option<usize> = None;
    for i in 0..count
        invariant
            ratios@.len() == count,
            scores@.len() == count,
            match best {
                Some(b) => {
                    &&& b < i
                    &&& scores@[b as int] is Some
                    &&& forall|j: int|
                        0 <= j < i && (#[trigger] scores@[j]) is Some ==> {
                            let x = double_total(scores@[b as int]->0);
                            let y = double_total(scores@[j]->0);
                            x < y || (x == y && b <= j)
                        }
                },
                None => forall|j: int| 0 <= j < i ==> (#[trigger] scores@[j]) is None,
            },
    {
        if let Some(score) = scores[i] {
            match best {
                Some(b) => {
                    if let Some(least) = scores[b] {
                        if is_double_total_less(score, least) {
                            best = Some(i);
                        }
                    }
                },
                None => {
                    best = Some(i);
                },
            }
        }
    }
    best
}

impl MarginalizationPlanner {
    /// What holds of every plan under way: but for the keyframes that go it is the plan that was
    /// begun; the keyframes that are left are in order, the two newest of the window are among them
    /// and stay the newest; a pose that goes is a keyframe that is no longer left, and it is a pose
    /// of the window or becomes one now; and keyframes go only where some state turns into a pose,
    /// and only as many as there are above the limit.
    pub open spec fn wf(self, w: Frames) -> bool {
        let all = keyframe_list(w);
        &&& self.plan@ == (PlanModel { drop_poses: self.plan@.drop_poses, ..begun(w, self.policy) })
        &&& increasing(self.kfs@)
        &&& forall|id: u64| #[trigger] self.kfs@.contains(id) ==> all.contains(id)
        &&& all.len() >= 2 ==> {
            &&& self.kfs@.len() >= 2
            &&& self.kfs@[self.kfs@.len() - 1] == all[all.len() - 1]
            &&& self.kfs@[self.kfs@.len() - 2] == all[all.len() - 2]
        }
        &&& forall|id: u64| #[trigger]
            self.plan@.drop_poses.contains(id) ==> all.contains(id) && !self.kfs@.contains(id)
        &&& self.plan@.drop_poses.no_duplicates()
        &&& self.plan@.drop_poses.len() + self.kfs@.len() <= all.len()
        &&& forall|id: u64| #[trigger]
            self.plan@.drop_poses.contains(id) ==> pose_ids(w.poses).contains(id)
                || self.plan@.convert_states.contains(id)
        &&& self.plan@.drop_poses.len() > 0 ==> self.plan@.convert_states.len() > 0
            && self.plan@.drop_poses.len() + self.policy.max_kfs <= all.len()
    }

    /// Starts a plan: the oldest states leave, and all keyframes of the window are left.
    pub fn begin(window: &Window, policy: &WindowPolicy) -> (planner: MarginalizationPlanner)
        ensures
            planner.plan@ == begun(window@, *policy),
            planner.kfs@ == keyframe_list(window@),
            planner.policy == *policy,
            planner.wf(window@),
    {
        let ghost w = window@;
        let keyframes = window.keyframes();
        let kfs = sorted_unique(&keyframes);
        let mut drop_states: Vec<u64> = Vec::new();
        let mut convert_states: Vec<u64> = Vec::new();
        let mut boundary_state: Option<u64> = None;
        let states: usize = window.states.len();
        if states >= policy.max_states {
            let over: usize = states - policy.max_states;
            let ghost drop = |s: WindowState| !s.is_keyframe;
            let ghost convert = |s: WindowState| s.is_keyframe;
            proof {
                reveal(Seq::filter);
                assert(state_ids(w.states.take(0).filter(drop)) =~= Seq::empty());
                assert(state_ids(w.states.take(0).filter(convert)) =~= Seq::empty());
            }
            let count: usize = if over < states {
                over + 1
            } else {
                states
            };
            assert(count == leaving(w, *policy));
            for i in 0..count
                invariant
                    w == window@,
                    count <= w.states.len(),
                    drop == (|s: WindowState| !s.is_keyframe),
                    convert == (|s: WindowState| s.is_keyframe),
                    drop_states@ == state_ids(w.states.take(i as int).filter(drop)),
                    convert_states@ == state_ids(w.states.take(i as int).filter(convert)),
            {
                proof {
                    filter_next(w.states, drop, i as int);
                    filter_next(w.states, convert, i as int);
                }
                let s = window.states[i];
                if s.is_keyframe {
                    convert_states.push(s.frame_id);
                    assert(convert_states@ =~= state_ids(w.states.take(i + 1).filter(convert)));
                } else {
                    drop_states.push(s.frame_id);
                    assert(drop_states@ =~= state_ids(w.states.take(i + 1).filter(drop)));
                }
            }
            if count < states {
                boundary_state = Some(window.states[count].frame_id);
            }
        } else {
            proof {
                reveal(Seq::filter);
                let drop = |s: WindowState| !s.is_keyframe;
                let convert = |s: WindowState| s.is_keyframe;
                assert(state_ids(w.states.take(0).filter(drop)) =~= Seq::empty());
                assert(state_ids(w.states.take(0).filter(convert)) =~= Seq::empty());
            }
        }
        MarginalizationPlanner {
            plan: MarginalizationPlan {
                drop_states,
                convert_states,
                drop_poses: Vec::new(),
                boundary_state,
            },
            kfs,
            policy: *policy,
        }
    }

    /// The keyframes from which the next one is picked: all but the two newest, and none where no
    /// keyframe has to go.
    pub fn candidates(&self) -> (candidates: Vec<u64>)
        ensures
            candidates@ == if selecting(*self) {
                self.kfs@.take(self.kfs@.len() - 2)
            } else {
                Seq::empty()
            },
    {
        let mut candidates: Vec<u64> = Vec::new();
        if self.plan.convert_states.len() > 0 && self.kfs.len() > self.policy.max_kfs && self.kfs.len()
            > 2 {
            let count: usize = self.kfs.len() - 2;
            for i in 0..count
                invariant
                    count == self.kfs@.len() - 2,
                    candidates@ =~= self.kfs@.take(i as int),
            {
                candidates.push(self.kfs[i]);
            }
            assert(candidates@ =~= self.kfs@.take(count as int));
        }
        candidates
    }

    /// Picks one of the candidates by what is measured of each, and takes it out of the keyframes
    /// that are left. It leaves the window where it is a pose there or becomes one now. Returns
    /// whether one was picked.
    pub fn select(
        &mut self,
        window: &Window,
        ratios: &Vec<u64>,
        scores: &Vec<Option<u64>>,
    ) -> (selected: bool)
        requires
            old(self).wf(window@),
            selecting(*old(self)),
            ratios@.len() == old(self).kfs@.len() - 2,
            scores@.len() == old(self).kfs@.len() - 2,
        ensures
            final(self).wf(window@),
            final(self).policy == old(self).policy,
            selected ==> exists|i: int|
                {
                    let id = old(self).kfs@[i];
                    &&& #[trigger] picks(
                        (old(self).kfs@.len() - 2) as nat,
                        ratios@,
                        scores@,
                        old(self).policy.min_feature_ratio,
                        Some(i),
                    )
                    &&& final(self).kfs@ == old(self).kfs@.remove(i)
                    &&& final(self).plan@ == (PlanModel {
                        drop_poses: if pose_ids(window@.poses).contains(id)
                            || old(self).plan@.convert_states.contains(id) {
                            old(self).plan@.drop_poses.push(id)
                        } else {
                            old(self).plan@.drop_poses
                        },
                        ..old(self).plan@
                    })
                },
            !selected ==> *final(self) == *old(self) && picks(
                (old(self).kfs@.len() - 2) as nat,
                ratios@,
                scores@,
                old(self).policy.min_feature_ratio,
                None,
            ),
    {
        let count: usize = self.kfs.len() - 2;
        let ghost before = self.kfs@;
        let ghost all = keyframe_list(window@);
        let picked = pick(ratios, scores, self.policy.min_feature_ratio, count);
        match picked {
            None => {
                false
            },
            Some(i) => {
                let id: u64 = self.kfs.remove(i);
                let poses = window.pose_frames();
                let ghost dropped = self.plan.drop_poses@;
                assert(before.contains(id)) by {
                    assert(before[i as int] == id);
                }
                if contains_id(&poses, id) || contains_id(&self.plan.convert_states, id) {
                    self.plan.drop_poses.push(id);
                }
                proof {
                    let after = self.kfs@;
                    assert(after =~= before.remove(i as int));
                    assert forall|a: int, b: int| 0 <= a < b < after.len() implies after[a]
                        < after[b] by {
                        let x = if a < i { a } else { a + 1 };
                        let y = if b < i { b } else { b + 1 };
                        assert(before[x] < before[y]);
                    }
                    assert forall|x: u64| #[trigger] after.contains(x) implies before.contains(x)
                        && x != id by {
                        let a = choose|a: int| 0 <= a < after.len() && after[a] == x;
                        let b = if a < i { a } else { a + 1 };
                        assert(before[b] == x);
                    }
                    assert forall|x: u64| #[trigger] self.plan@.drop_poses.contains(x) implies all.contains(
                        x,
                    ) && !after.contains(x) && (pose_ids(window@.poses).contains(x)
                        || self.plan@.convert_states.contains(x)) by {
                        vstd::seq_lib::lemma_seq_contains_after_push(dropped, id, x);
                    }
                    assert(!dropped.contains(id));
                    assert forall|a: int, b: int|
                        0 <= a < self.plan@.drop_poses.len() && 0 <= b < self.plan@.drop_poses.len()
                            && a != b implies self.plan@.drop_poses[a]
                        != self.plan@.drop_poses[b] by {
                        if a < dropped.len() {
                            assert(dropped.contains(dropped[a]));
                        }
                        if b < dropped.len() {
                            assert(dropped.contains(dropped[b]));
                        }
                    }
                    assert(picks(
                        (before.len() - 2) as nat,
                        ratios@,
                        scores@,
                        old(self).policy.min_feature_ratio,
                        Some(i as int),
                    ));
                    assert(self.plan@ =~= (PlanModel {
                        drop_poses: if pose_ids(window@.poses).contains(id)
                            || old(self).plan@.convert_states.contains(id) {
                            old(self).plan@.drop_poses.push(id)
                        } else {
                            old(self).plan@.drop_poses
                        },
                        ..old(self).plan@
                    }));
                }
                true
            },
        }
    }
}

/// The two newest keyframes of the window never leave it.
pub proof fn newest_keyframes_stay(planner: MarginalizationPlanner, w: Frames)
    requires
        planner.wf(w),
        keyframe_list(w).len() >= 2,
    ensures
        ({
            let all = keyframe_list(w);
            &&& !planner.plan@.drop_poses.contains(all[all.len() - 1])
            &&& !planner.plan@.drop_poses.contains(all[all.len() - 2])
        }),
{
    let all = keyframe_list(w);
    let kfs = planner.kfs@;
    assert(kfs.contains(kfs[kfs.len() - 1]));
    assert(kfs.contains(kfs[kfs.len() - 2]));
}

/// Keyframes go only from above the limit: at least as many stay as the limit allows, or all where
/// there are no more than that.
pub proof fn keyframes_go_from_above_the_limit(planner: MarginalizationPlanner, w: Frames)
    requires
        planner.wf(w),
    ensures
        ({
            let left = keyframe_list(w).len() - planner.plan@.drop_poses.len();
            &&& left >= planner.policy.max_kfs || left == keyframe_list(w).len()
            &&& planner.plan@.convert_states.len() == 0 ==> left == keyframe_list(w).len()
        }),
{
}

/// The states that leave are the oldest, each either dropped or turned into a pose, and the boundary
/// is the first that stays.
pub proof fn first_plan_splits_the_oldest(w: Frames, policy: WindowPolicy)
    ensures
        ({
            let plan = first_plan(w, policy);
            let n = leaving(w, policy);
            &&& n <= w.states.len()
            &&& plan.drop_states.len() + plan.convert_states.len() == n
            &&& forall|i: int|
                0 <= i < n ==> if (#[trigger] w.states[i]).is_keyframe {
                    plan.convert_states.contains(w.states[i].frame_id)
                } else {
                    plan.drop_states.contains(w.states[i].frame_id)
                }
            &&& w.states.len() >= policy.max_states && 0 < policy.max_states ==> w.states.len() - n
                == policy.max_states - 1
            &&& plan.boundary_state matches Some(id) ==> n < w.states.len() && id
                == w.states[n as int].frame_id
        }),
{
    let n = leaving(w, policy) as int;
    let oldest = w.states.take(n);
    let keep = |s: WindowState| s.is_keyframe;
    let gone = |s: WindowState| !s.is_keyframe;
    split_counts(oldest);
    assert forall|i: int| 0 <= i < n implies if (#[trigger] w.states[i]).is_keyframe {
        first_plan(w, policy).convert_states.contains(w.states[i].frame_id)
    } else {
        first_plan(w, policy).drop_states.contains(w.states[i].frame_id)
    } by {
        assert(oldest[i] == w.states[i]);
        let which = if w.states[i].is_keyframe { keep } else { gone };
        let f = oldest.filter(which);
        oldest.lemma_filter_contains(which, i);
        let k = choose|k: int| 0 <= k < f.len() && f[k] == oldest[i];
        assert(state_ids(f)[k] == w.states[i].frame_id);
    }
}

proof fn split_counts(s: Seq<WindowState>)
    ensures
        s.filter(|s: WindowState| s.is_keyframe).len() + s.filter(
            |s: WindowState| !s.is_keyframe,
        ).len() == s.len(),
    decreases s.len(),
{
    let keep = |s: WindowState| s.is_keyframe;
    let gone = |s: WindowState| !s.is_keyframe;
    reveal(Seq::filter);
    if s.len() > 0 {
        split_counts(s.drop_last());
    }
}

impl MarginalizationPlan {
    /// Whether anything leaves the window.
    pub fn is_needed(&self) -> (needed: bool)
        ensures
            needed == is_needed(self@),
    {
        self.drop_states.len() > 0 || self.convert_states.len() > 0 || self.drop_poses.len() > 0
    }

    /// The frames whose observations leave: the states and the poses that go, but not those of
    /// which the pose stays.
    pub fn dropped_frames(&self) -> (frames: Vec<u64>)
        ensures
            frames@ == self@.drop_states + self@.drop_poses,
    {
        let mut frames = copy_list(&self.drop_states);
        let mut more = copy_list(&self.drop_poses);
        frames.append(&mut more);
        frames
    }

    /// All frames that the plan names: states that go, states of which the pose stays, and poses
    /// that go.
    pub fn touched_frames(&self) -> (frames: Vec<u64>)
        ensures
            frames@ == self@.drop_states + self@.convert_states + self@.drop_poses,
    {
        let mut frames = copy_list(&self.drop_states);
        let mut more = copy_list(&self.convert_states);
        frames.append(&mut more);
        let mut rest = copy_list(&self.drop_poses);
        frames.append(&mut rest);
        frames
    }
}

/// Where there are as many states as the limit or more, the oldest leave until one fewer than the limit is
/// left, or none; keyframes among them turn into poses and the others go, each in its order. The first that
/// stays is the boundary. Below the limit none leaves.
pub proof fn the_oldest_states_leave(w: Frames, policy: WindowPolicy)
    ensures
        ({
            let plan = first_plan(w, policy);
            let n = leaving(w, policy);
            &&& w.states.len() < policy.max_states ==> n == 0
            &&& w.states.len() >= policy.max_states && policy.max_states > 0 ==> n + policy.max_states
                == w.states.len() + 1
            &&& policy.max_states == 0 ==> n == w.states.len()
            &&& forall|id: u64| #[trigger]
                plan.drop_states.contains(id) <==> exists|i: int|
                    0 <= i < n && (#[trigger] w.states[i]).frame_id == id
                        && !w.states[i].is_keyframe
            &&& forall|id: u64| #[trigger]
                plan.convert_states.contains(id) <==> exists|i: int|
                    0 <= i < n && (#[trigger] w.states[i]).frame_id == id && w.states[i].is_keyframe
            &&& plan.drop_poses.len() == 0
            &&& plan.boundary_state is Some <==> 0 < n < w.states.len()
            &&& plan.boundary_state matches Some(id) ==> id == w.states[n as int].frame_id
        }),
{
    let n = leaving(w, policy) as int;
    let oldest = w.states.take(n);
    let going = |s: WindowState| !s.is_keyframe;
    let turning = |s: WindowState| s.is_keyframe;
    listed_ids(oldest, going);
    listed_ids(oldest, turning);
    let plan = first_plan(w, policy);
    assert forall|id: u64| #[trigger] plan.drop_states.contains(id) <==> exists|i: int|
        0 <= i < n && (#[trigger] w.states[i]).frame_id == id && !w.states[i].is_keyframe by {
        if plan.drop_states.contains(id) {
            let i = choose|i: int|
                0 <= i < oldest.len() && (#[trigger] oldest[i]).frame_id == id && going(oldest[i]);
            assert(w.states[i] == oldest[i]);
        }
        if exists|i: int|
            0 <= i < n && (#[trigger] w.states[i]).frame_id == id && !w.states[i].is_keyframe {
            let i = choose|i: int|
                0 <= i < n && (#[trigger] w.states[i]).frame_id == id && !w.states[i].is_keyframe;
            assert(w.states[i] == oldest[i]);
        }
    }
    assert forall|id: u64| #[trigger] plan.convert_states.contains(id) <==> exists|i: int|
        0 <= i < n && (#[trigger] w.states[i]).frame_id == id && w.states[i].is_keyframe by {
        if plan.convert_states.contains(id) {
            let i = choose|i: int|
                0 <= i < oldest.len() && (#[trigger] oldest[i]).frame_id == id && turning(
                    oldest[i],
                );
            assert(w.states[i] == oldest[i]);
        }
        if exists|i: int|
            0 <= i < n && (#[trigger] w.states[i]).frame_id == id && w.states[i].is_keyframe {
            let i = choose|i: int|
                0 <= i < n && (#[trigger] w.states[i]).frame_id == id && w.states[i].is_keyframe;
            assert(w.states[i] == oldest[i]);
        }
    }
}

proof fn listed_ids(states: Seq<WindowState>, keep: spec_fn(WindowState) -> bool)
    ensures
        forall|id: u64| #[trigger]
            state_ids(states.filter(keep)).contains(id) <==> exists|i: int|
                0 <= i < states.len() && (#[trigger] states[i]).frame_id == id && keep(states[i]),
{
    let kept = states.filter(keep);
    filter_members(states, keep);
    assert forall|id: u64| #[trigger] state_ids(kept).contains(id) <==> exists|i: int|
        0 <= i < states.len() && (#[trigger] states[i]).frame_id == id && keep(states[i]) by {
        if state_ids(kept).contains(id) {
            let k = choose|k: int| 0 <= k < kept.len() && state_ids(kept)[k] == id;
            assert(kept.contains(kept[k]));
            let i = choose|i: int| 0 <= i < states.len() && states[i] == kept[k];
            assert(states[i].frame_id == id);
        }
        if exists|i: int|
            0 <= i < states.len() && (#[trigger] states[i]).frame_id == id && keep(states[i]) {
            let i = choose|i: int|
                0 <= i < states.len() && (#[trigger] states[i]).frame_id == id && keep(states[i]);
            assert(states.contains(states[i]));
            assert(kept.contains(states[i]));
            let k = choose|k: int| 0 <= k < kept.len() && kept[k] == states[i];
            assert(state_ids(kept)[k] == id);
        }
    }
}

/// Nothing is planned before the window holds as many states as its limit or more poses than its limit.
pub proof fn plans_wait_for_a_full_window(w: Frames, policy: WindowPolicy)
    ensures
        triggered(w, policy) <==> w.states.len() >= policy.max_states || w.poses.len()
            > policy.max_kfs,
        !(w.states.len() >= policy.max_states || w.poses.len() > policy.max_kfs) ==> begun(
            w,
            policy,
        ).drop_states.len() == 0 && begun(w, policy).convert_states.len() == 0 && begun(
            w,
            policy,
        ).drop_poses.len() == 0 && begun(w, policy).boundary_state is None,
        w.states.len() >= policy.max_states || w.poses.len() > policy.max_kfs ==> begun(w, policy)
            == first_plan(w, policy),
        forall|plan: PlanModel| #[trigger]
            is_needed(plan) <==> plan.drop_states.len() + plan.convert_states.len()
                + plan.drop_poses.len() > 0,
{
}

/// The keyframes of a window are the frames of its poses and of its keyframe states, each once and in
/// ascending order.
pub proof fn keyframes_are_listed_once(w: Frames)
    ensures
        forall|id: u64| #[trigger]
            keyframe_list(w).contains(id) <==> (exists|i: int|
                0 <= i < w.poses.len() && (#[trigger] w.poses[i]).frame_id == id) || (exists|
                i: int,
            |
                0 <= i < w.states.len() && (#[trigger] w.states[i]).frame_id == id
                    && w.states[i].is_keyframe),
        forall|i: int, j: int|
            0 <= i < j < keyframe_list(w).len() ==> #[trigger] keyframe_list(w)[i]
                < #[trigger] keyframe_list(w)[j],
{
    let all = w.keyframes();
    let list = keyframe_list(w);
    ascending_lists_members(all.to_set());
    frames_are_members(w);
    assert forall|id: u64| #[trigger] list.contains(id) <==> (exists|i: int|
        0 <= i < w.poses.len() && (#[trigger] w.poses[i]).frame_id == id) || (exists|i: int|
        0 <= i < w.states.len() && (#[trigger] w.states[i]).frame_id == id
            && w.states[i].is_keyframe) by {
        assert(list.to_set().contains(id) <==> all.to_set().contains(id));
        assert(all.contains(id) <==> list.contains(id));
    }
}

/// Keyframes are given up only while some state turns into a pose, there are more than the limit, and more
/// than the two newest.
pub proof fn keyframes_are_given_up_above_the_limit(p: MarginalizationPlanner)
    ensures
        selecting(p) <==> p.plan@.convert_states.len() >= 1 && p.kfs@.len() >= p.policy.max_kfs + 1
            && p.kfs@.len() >= 3,
{
}

/// The candidate that is picked is the first whose ratio is below the limit; where none is, the first with
/// the least score; and none exactly where there is neither.
pub proof fn the_least_connected_is_picked(
    count: nat,
    ratios: Seq<u64>,
    scores: Seq<Option<u64>>,
    min_ratio: u64,
    picked: Option<int>,
)
    requires
        picks(count, ratios, scores, min_ratio, picked),
    ensures
        picked is None <==> forall|j: int|
            0 <= j < count ==> !double_less(#[trigger] ratios[j], min_ratio) && scores[j] is None,
        picked matches Some(i) ==> 0 <= i < count,
        forall|j: int|
            0 <= j < count && double_less(#[trigger] ratios[j], min_ratio) ==> picked is Some
                && picked->0 <= j && double_less(ratios[picked->0], min_ratio),
        (forall|j: int| 0 <= j < count ==> !double_less(#[trigger] ratios[j], min_ratio))
            ==> forall|j: int|
            0 <= j < count && (#[trigger] scores[j]) is Some ==> {
                &&& picked is Some
                &&& scores[picked->0] is Some
                &&& double_total(scores[picked->0]->0) <= double_total(scores[j]->0)
                &&& double_total(scores[picked->0]->0) == double_total(scores[j]->0) ==> picked->0
                    <= j
            },
{
    if picked is None {
        assert forall|j: int| 0 <= j < count implies !double_less(#[trigger] ratios[j], min_ratio)
            && scores[j] is None by {
            assert(scores[j] is None);
        }
    } else {
        let i = picked->0;
        assert(double_less(ratios[i], min_ratio) || scores[i] is Some);
    }
}

} // verus!

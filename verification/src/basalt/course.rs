//! The course of an estimator from frame to frame: all that decides what a frame does. The images,
//! raw observations and packets that an estimator keeps for others are not part of it.
use crate::basalt::collect::{created_tracks, stores_after, Packet, Stores};
use crate::basalt::estimator::{
    first_camera_tracks, gate_after, rehosted, window_shifted, written_back, BasaltVioEstimator,
    EstimatorConfig, KeyframeGate, LandmarkWriteback, OfImageData,
};
use crate::basalt::frame::{
    entered_frame_is_latest, frame_entered, frame_marked, new_frames_stay_the_newest, opened,
    shifted_window_keeps_the_newest, FrameRun,
};
use crate::basalt::identity::TrackHistory;
use crate::basalt::landmarks::{live, LandmarkRecord};
use crate::basalt::marginalization::{begun, first_plan_splits_the_oldest, is_needed, PlanModel};
use crate::basalt::report::{
    after_shift, packet_source, reported, PacketSource, ReportModel, SolverModel,
};
use crate::basalt::shift::{active_history, shifted};
use crate::basalt::window::{all_converted, filter_all, state_ids, Frames, WindowState};
use crate::ordered::{ascending, ascending_lists_members, filter_members, increasing};
use vstd::prelude::*;

verus! {

/// What decides the course of an estimator.
#[verifier::ext_equal]
pub ghost struct Course {
    pub config: EstimatorConfig,
    pub cameras: nat,
    pub window: Frames,
    pub store: Stores,
    pub points: Map<u64, usize>,
    pub last_timestamp_ns: Option<i64>,
    pub prior: bool,
    pub anchored: bool,
    pub opt_started: bool,
    pub gate: KeyframeGate,
    pub lost: Seq<u64>,
    pub targets: Targets,
}

/// What the last frame reports to go.
#[verifier::ext_equal]
pub ghost struct Targets {
    pub keyframes: Seq<(u64, u64)>,
    pub poses: Seq<u64>,
    pub states: Seq<u64>,
    pub vel_bias: Seq<u64>,
    pub landmarks: Seq<u64>,
}

/// The course of an estimator.
pub open spec fn course(e: BasaltVioEstimator) -> Course {
    Course {
        config: e.config,
        cameras: e.cameras as nat,
        window: e.window@,
        store: e.store@,
        points: e.num_points_kf@,
        last_timestamp_ns: e.last_timestamp_ns,
        prior: e.prior,
        anchored: e.anchored,
        opt_started: e.opt_started,
        gate: e.gate,
        lost: e.last_lost_landmarks@,
        targets: Targets {
            keyframes: e.last_kf_to_marg@,
            poses: e.last_marg_targets.poses_to_marg@,
            states: e.last_marg_targets.states_to_marg_all@,
            vel_bias: e.last_marg_targets.states_to_marg_vel_bias@,
            landmarks: e.last_marg_targets.lost_landmarks@,
        },
    }
}

/// The lost landmarks in ascending order.
pub open spec fn lost_tracks(landmarks: Map<u64, LandmarkRecord>) -> Seq<u64> {
    ascending(landmarks.dom().filter(|t: u64| landmarks[t].status is Lost))
}

impl Course {
    /// The course after a frame was chosen or not.
    pub open spec fn chosen(self, run: FrameRun, ratio: u64) -> Course {
        let tracks = (run.connected_cam0 + run.unconnected_cam0) as nat;
        Course { gate: gate_after(self.gate, self.config, tracks, ratio).0, ..self }
    }

    /// The course after the observations of a frame were taken in.
    pub open spec fn observed(self, run: FrameRun, packet: Packet, linked: bool) -> Course {
        let store = frame_marked(
            stores_after(self.store, packet, self.window.active().push(run.frame_id)),
            packet.observations@,
        );
        Course {
            store,
            window: frame_entered(self.window, run, linked),
            points: if packet.is_keyframe {
                self.points.insert(
                    packet.frame_id,
                    created_tracks(packet, packet.tracks@.len()).len() as usize,
                )
            } else {
                self.points
            },
            anchored: self.anchored || self.window.states.len() == 0,
            opt_started: self.opt_started || self.window.states.len() >= 4,
            lost: lost_tracks(store.landmarks),
            targets: Targets {
                keyframes: Seq::empty(),
                poses: Seq::empty(),
                states: Seq::empty(),
                vel_bias: Seq::empty(),
                landmarks: lost_tracks(store.landmarks),
            },
            ..self
        }
    }

    /// The course after the solver's landmarks came back.
    pub open spec fn solved(self, landmarks: Seq<LandmarkWriteback>, placed: Seq<u64>) -> Course {
        let s = written_back(
            self.store,
            self.window,
            self.cameras,
            landmarks,
            landmarks.len() as int,
        );
        Course { store: Stores { landmarks: rehosted(s, self.window, placed), ..s }, ..self }
    }

    /// The course after a plan was made.
    pub open spec fn planned(self, frame_id: u64, plan: PlanModel) -> Course {
        Course {
            targets: Targets {
                keyframes: ascending(plan.drop_poses.to_set()).map_values(
                    |id: u64| (id, frame_id),
                ),
                poses: plan.drop_poses,
                states: plan.drop_states,
                vel_bias: plan.convert_states,
                landmarks: self.lost,
            },
            ..self
        }
    }

    /// The course after a plan was carried out.
    pub open spec fn shifted(self, plan: PlanModel, has_prior: bool) -> Course {
        let window = window_shifted(self.window, plan);
        Course {
            window,
            store: shifted(
                self.store,
                window.active(),
                plan.drop_poses,
                plan.drop_states + plan.drop_poses,
            ),
            prior: has_prior,
            ..self
        }
    }

    /// The course after a frame was closed.
    pub open spec fn closed(self, timestamp_ns: i64, marginalized: bool) -> Course {
        Course {
            store: if marginalized {
                Stores {
                    history: active_history(self.store.history, self.window.active()),
                    ..self.store
                }
            } else {
                self.store
            },
            last_timestamp_ns: Some(timestamp_ns),
            ..self
        }
    }

    /// Whether the solver runs for the next frame: from the fifth state on.
    pub open spec fn solving(self) -> bool {
        self.opt_started || self.window.states.len() >= 4
    }

    /// The next frame as it is chosen, which keeps neither a packet nor a trace.
    pub open spec fn run(self, m: Measures) -> FrameRun {
        let tracks = first_camera_tracks(m.packet.observations@);
        let connected = tracks.filter(|t: u64| live(self.store.landmarks, t)).len() as usize;
        let unconnected = tracks.filter(|t: u64| !live(self.store.landmarks, t)).len() as usize;
        FrameRun {
            frame_id: m.packet.frame_id,
            timestamp_ns: m.packet.timestamp_ns,
            retain_marg_data: false,
            retain_trace: false,
            connected_cam0: connected,
            unconnected_cam0: unconnected,
            is_keyframe: gate_after(
                self.gate,
                self.config,
                (connected + unconnected) as nat,
                m.ratio,
            ).1,
            attempted: false,
            marginalized: false,
        }
    }

    /// The plan of a frame that has entered: the one that is begun, with the keyframes that were
    /// picked.
    pub open spec fn plan(self, m: Measures) -> PlanModel {
        PlanModel { drop_poses: m.drop_poses, ..begun(self.window, self.config.window) }
    }

    /// The course after a frame was chosen and observed.
    pub open spec fn seen(self, run: FrameRun, m: Measures) -> Course {
        self.chosen(run, m.ratio).observed(run, m.packet, m.linked)
    }

    /// Whether frames leave the window with a frame.
    pub open spec fn gives_up_frames(self, m: Measures) -> bool {
        self.solving() && is_needed(self.seen(self.run(m), m).plan(m))
    }

    /// The course after a frame, step by step. `run` is the frame as it was chosen.
    pub open spec fn stepped(self, run: FrameRun, m: Measures) -> Course {
        let seen = self.seen(run, m);
        if self.solving() {
            let plan = seen.plan(m);
            let ready = seen.solved(m.landmarks, m.placed).planned(run.frame_id, plan);
            if is_needed(plan) {
                ready.shifted(plan, m.has_prior).closed(run.timestamp_ns, true)
            } else {
                ready.closed(run.timestamp_ns, false)
            }
        } else {
            seen.closed(run.timestamp_ns, false)
        }
    }

    /// The course after a whole frame, from what was measured of it.
    pub open spec fn framed(self, m: Measures) -> Course {
        self.stepped(self.run(m), m)
    }

    /// The course after several frames.
    pub open spec fn after(self, frames: Seq<Measures>) -> Course
        decreases frames.len(),
    {
        if frames.len() == 0 {
            self
        } else {
            self.after(frames.drop_last()).framed(frames.last())
        }
    }

    /// What a whole frame tells.
    pub open spec fn told(self, m: Measures) -> Told {
        let run = self.run(m);
        let seen = self.seen(run, m);
        let after = self.framed(m);
        let report = reported(
            seen,
            m.prior_rows,
            if self.solving() {
                Some(m.solver)
            } else {
                None
            },
        );
        Told {
            frame_id: run.frame_id,
            is_keyframe: run.is_keyframe,
            connected_cam0: run.connected_cam0,
            unconnected_cam0: run.unconnected_cam0,
            active_state_count: after.window.states.len(),
            active_pose_count: after.window.poses.len(),
            window: if self.gives_up_frames(m) {
                after_shift(report, after, self.prior)
            } else {
                report
            },
        }
    }
}

/// What is measured of a frame: the ratio of connected tracks, its packet with what was measured of
/// the tracks, whether an inertial interval links it, and, where the solver runs, what it says, the
/// landmarks that it gives back, those whose host was moved, the keyframes that were picked to go, and
/// whether a prior is left.
pub ghost struct Measures {
    pub ratio: u64,
    pub packet: Packet,
    pub linked: bool,
    pub prior_rows: usize,
    pub solver: SolverModel,
    pub landmarks: Seq<LandmarkWriteback>,
    pub placed: Seq<u64>,
    pub drop_poses: Seq<u64>,
    pub has_prior: bool,
}

/// What a frame tells, but for its states and its packet.
#[verifier::ext_equal]
pub ghost struct Told {
    pub frame_id: u64,
    pub is_keyframe: bool,
    pub connected_cam0: usize,
    pub unconnected_cam0: usize,
    pub active_state_count: nat,
    pub active_pose_count: nat,
    pub window: ReportModel,
}

/// What a frame is asked to keep.
pub ghost struct Asked {
    pub images: Option<Seq<OfImageData>>,
    pub retain_marg_data: bool,
    pub retain_trace: bool,
}

/// The course of an estimator that has seen no frame.
pub open spec fn fresh(config: EstimatorConfig, cameras: nat) -> Course {
    Course {
        config,
        cameras,
        window: Frames { poses: Seq::empty(), states: Seq::empty(), links: Seq::empty() },
        store: Stores {
            history: Map::empty(),
            factors: Map::empty(),
            landmarks: Map::empty(),
            associations: Seq::empty(),
            world: Set::empty(),
            hosts: Seq::empty(),
        },
        points: Map::empty(),
        last_timestamp_ns: None,
        prior: false,
        anchored: false,
        opt_started: false,
        gate: KeyframeGate { take_kf: true, frames_after_kf: 0 },
        lost: Seq::empty(),
        targets: Targets {
            keyframes: Seq::empty(),
            poses: Seq::empty(),
            states: Seq::empty(),
            vel_bias: Seq::empty(),
            landmarks: Seq::empty(),
        },
    }
}

/// Whether a frame that was opened was taken through all its steps.
pub open spec fn passed(
    before: BasaltVioEstimator,
    after: BasaltVioEstimator,
    asked: Asked,
    m: Measures,
) -> bool {
    exists|open: BasaltVioEstimator, run: FrameRun|
        {
            &&& #[trigger] opened(
                before,
                open,
                m.packet.frame_id,
                m.packet.timestamp_ns,
                asked.images,
                m.packet.observations@,
                asked.retain_marg_data,
                asked.retain_trace,
                Ok(run),
            )
            &&& course(after) == course(open).stepped(
                FrameRun {
                    is_keyframe: gate_after(
                        open.gate,
                        open.config,
                        (run.connected_cam0 + run.unconnected_cam0) as nat,
                        m.ratio,
                    ).1,
                    ..run
                },
                m,
            )
        }
}

/// The steps of a frame, one after the other, take it through: opened, chosen, observed, and closed,
/// and between these, where the solver runs, solved, planned and, where frames leave, shifted.
pub proof fn steps_take_a_frame_through(
    before: BasaltVioEstimator,
    open: BasaltVioEstimator,
    chosen: BasaltVioEstimator,
    seen: BasaltVioEstimator,
    solved: BasaltVioEstimator,
    planned: BasaltVioEstimator,
    shifted: BasaltVioEstimator,
    closed: BasaltVioEstimator,
    asked: Asked,
    opening: FrameRun,
    run: FrameRun,
    m: Measures,
)
    requires
        opened(
            before,
            open,
            m.packet.frame_id,
            m.packet.timestamp_ns,
            asked.images,
            m.packet.observations@,
            asked.retain_marg_data,
            asked.retain_trace,
            Ok(opening),
        ),
        run == (FrameRun {
            is_keyframe: gate_after(
                open.gate,
                open.config,
                (opening.connected_cam0 + opening.unconnected_cam0) as nat,
                m.ratio,
            ).1,
            ..opening
        }),
        course(chosen) == course(open).chosen(opening, m.ratio),
        course(seen) == course(chosen).observed(run, m.packet, m.linked),
        course(before).solving() ==> {
            let plan = course(seen).plan(m);
            &&& course(solved) == course(seen).solved(m.landmarks, m.placed)
            &&& course(planned) == course(solved).planned(run.frame_id, plan)
            &&& is_needed(plan) ==> course(shifted) == course(planned).shifted(plan, m.has_prior)
                && course(closed) == course(shifted).closed(run.timestamp_ns, true)
            &&& !is_needed(plan) ==> course(closed) == course(planned).closed(
                run.timestamp_ns,
                false,
            )
        },
        !course(before).solving() ==> course(closed) == course(seen).closed(
            run.timestamp_ns,
            false,
        ),
    ensures
        passed(before, closed, asked, m),
{
}

/// A frame that goes through does to the course what is measured of it, whatever it is asked to keep.
pub proof fn frames_follow_the_course(
    before: BasaltVioEstimator,
    after: BasaltVioEstimator,
    asked: Asked,
    m: Measures,
)
    requires
        passed(before, after, asked, m),
    ensures
        course(after) == course(before).framed(m),
{
}

/// Two estimators on the same course that get the same frames stay on it frame by frame and tell the
/// same of each, whatever images, raw observations and packets either of them keeps. A frame that is
/// asked for no packet has the empty one.
pub proof fn payloads_change_no_frame(
    a: Seq<BasaltVioEstimator>,
    b: Seq<BasaltVioEstimator>,
    left: Seq<Asked>,
    right: Seq<Asked>,
    frames: Seq<Measures>,
)
    requires
        a.len() == frames.len() + 1,
        b.len() == frames.len() + 1,
        left.len() == frames.len(),
        right.len() == frames.len(),
        course(a[0]) == course(b[0]),
        forall|i: int, j: int|
            0 <= i && j == i + 1 && j < a.len() ==> passed(
                #[trigger] a[i],
                #[trigger] a[j],
                left[i],
                frames[i],
            ),
        forall|i: int, j: int|
            0 <= i && j == i + 1 && j < b.len() ==> passed(
                #[trigger] b[i],
                #[trigger] b[j],
                right[i],
                frames[i],
            ),
    ensures
        forall|i: int| 0 <= i < a.len() ==> course(#[trigger] a[i]) == course(b[i]),
        forall|i: int|
            0 <= i < frames.len() ==> course(a[i]).told(#[trigger] frames[i]) == course(b[i]).told(
                frames[i],
            ),
        forall|i: int|
            0 <= i < frames.len() && !right[i].retain_marg_data ==> packet_source(
                right[i].retain_marg_data,
                course(b[i]).gives_up_frames(#[trigger] frames[i]),
            ) is Nothing,
{
    assert forall|i: int| 0 <= i < a.len() implies course(#[trigger] a[i]) == course(b[i]) by {
        courses_agree(a, b, left, right, frames, i);
    }
}

proof fn courses_agree(
    a: Seq<BasaltVioEstimator>,
    b: Seq<BasaltVioEstimator>,
    left: Seq<Asked>,
    right: Seq<Asked>,
    frames: Seq<Measures>,
    n: int,
)
    requires
        0 <= n < a.len(),
        a.len() == b.len(),
        course(a[0]) == course(b[0]),
        forall|i: int, j: int|
            0 <= i && j == i + 1 && j < a.len() ==> passed(
                #[trigger] a[i],
                #[trigger] a[j],
                left[i],
                frames[i],
            ),
        forall|i: int, j: int|
            0 <= i && j == i + 1 && j < b.len() ==> passed(
                #[trigger] b[i],
                #[trigger] b[j],
                right[i],
                frames[i],
            ),
    ensures
        course(a[n]) == course(b[n]),
    decreases n,
{
    if n > 0 {
        courses_agree(a, b, left, right, frames, n - 1);
        frames_follow_the_course(a[n - 1], a[n], left[n - 1], frames[n - 1]);
        frames_follow_the_course(b[n - 1], b[n], right[n - 1], frames[n - 1]);
    }
}

/// The solver waits for the fifth state: the first four frames of an estimator all stay in the window
/// and are told not to have been attempted, and the fifth is.
pub proof fn solver_waits_for_the_fifth_state(
    config: EstimatorConfig,
    cameras: nat,
    frames: Seq<Measures>,
    next: Measures,
)
    requires
        frames.len() <= 4,
    ensures
        ({
            let c = fresh(config, cameras).after(frames);
            &&& c.window.states.len() == frames.len()
            &&& !c.opt_started
            &&& c.told(next).window.attempted <==> frames.len() == 4
            &&& frames.len() < 4 ==> {
                &&& c.told(next).window.status == "initialization_gate"@
                &&& c.told(next).active_state_count == frames.len() + 1
                &&& !c.told(next).window.state_writeback
            }
        }),
    decreases frames.len(),
{
    if frames.len() > 0 {
        solver_waits_for_the_fifth_state(config, cameras, frames.drop_last(), frames.last());
    }
}

/// Once the solver has run, a frame leaves fewer states than the limit; and where the limit is two or
/// more and its frame was not in the window before, it is the newest state and the only latest one.
pub proof fn solved_frames_bound_the_window(c: Course, m: Measures)
    requires
        c.solving(),
        c.config.window.max_states > 0,
    ensures
        ({
            let left = c.framed(m).window.states;
            &&& left.len() < c.config.window.max_states
            &&& c.told(m).window.attempted
            &&& c.told(m).active_state_count == left.len()
            &&& c.config.window.max_states >= 2 && !state_ids(c.window.states).contains(
                m.packet.frame_id,
            ) ==> {
                &&& left.len() > 0
                &&& left.last().frame_id == m.packet.frame_id
                &&& left.last().is_latest
                &&& left.last().is_keyframe == c.run(m).is_keyframe
                &&& forall|i: int| 0 <= i < left.len() - 1 ==> !(#[trigger] left[i]).is_latest
            }
        }),
{
    let run = c.run(m);
    let policy = c.config.window;
    let entered = frame_entered(c.window, run, m.linked);
    let plan = c.seen(run, m).plan(m);
    assert(c.seen(run, m).window == entered);
    entered_frame_is_latest(c.window, run, m.linked);
    first_plan_splits_the_oldest(entered, policy);
    if entered.states.len() >= policy.max_states {
        shifted_window_keeps_the_newest(entered, policy, m.drop_poses);
        assert(is_needed(plan));
        if policy.max_states >= 2 && !state_ids(c.window.states).contains(run.frame_id) {
            new_frames_stay_the_newest(c.window, run, m.linked, policy, m.drop_poses);
        }
    } else {
        assert(plan.drop_states =~= Seq::empty());
        assert(plan.convert_states =~= Seq::empty());
        assert(plan.boundary_state is None);
        let keep = |s: WindowState| !plan.drop_states.contains(s.frame_id);
        filter_all(entered.states, keep);
        assert(all_converted(entered, plan.convert_states) == entered);
        assert(window_shifted(entered, plan).states == entered.states);
        if !state_ids(c.window.states).contains(run.frame_id) {
            assert forall|i: int| 0 <= i < entered.states.len() - 1 implies !(
            #[trigger] entered.states[i]).is_latest by {
                assert(state_ids(c.window.states)[i] == entered.states[i].frame_id);
                assert(state_ids(c.window.states).contains(entered.states[i].frame_id));
            }
        }
    }
}

/// The lost tracks are those whose landmarks are lost, in ascending order.
pub proof fn lost_tracks_are_those_of_lost_landmarks(landmarks: Map<u64, LandmarkRecord>)
    requires
        landmarks.dom().finite(),
    ensures
        forall|t: u64| #[trigger]
            lost_tracks(landmarks).contains(t) <==> landmarks.contains_key(t)
                && landmarks[t].status is Lost,
        increasing(lost_tracks(landmarks)),
{
    let lost = landmarks.dom().filter(|t: u64| landmarks[t].status is Lost);
    ascending_lists_members(lost);
    assert forall|t: u64| #[trigger] lost_tracks(landmarks).contains(t) <==> landmarks.contains_key(
        t,
    ) && landmarks[t].status is Lost by {
        assert(ascending(lost).to_set().contains(t) <==> lost.contains(t));
    }
}

/// Observing a frame anchors the window with its first state, lets the solver run from the fifth state on,
/// remembers how many landmarks a keyframe made, and starts with no targets but the lost landmarks.
pub proof fn observed_frames_start_the_solver(c: Course, run: FrameRun, packet: Packet, linked: bool)
    ensures
        ({
            let after = c.observed(run, packet, linked);
            &&& after.anchored <==> c.anchored || c.window.states.len() == 0
            &&& after.opt_started <==> c.opt_started || c.window.states.len() > 3
            &&& c.solving() <==> c.opt_started || c.window.states.len() > 3
            &&& !packet.is_keyframe ==> after.points == c.points
            &&& packet.is_keyframe ==> after.points == c.points.insert(
                packet.frame_id,
                created_tracks(packet, packet.tracks@.len()).len() as usize,
            )
            &&& after.window.states.len() == c.window.states.len() + 1
            &&& after.targets.keyframes.len() == 0
            &&& after.targets.poses.len() == 0
            &&& after.targets.states.len() == 0
            &&& after.targets.vel_bias.len() == 0
            &&& after.targets.landmarks == after.lost
            &&& after.lost == lost_tracks(after.store.landmarks)
            &&& after.gate == c.gate
            &&& after.prior == c.prior
            &&& after.config == c.config
            &&& after.cameras == c.cameras
            &&& after.last_timestamp_ns == c.last_timestamp_ns
        }),
{
}

/// A plan is told as it is: the poses and states that go, the states of which the pose stays, the lost
/// landmarks, and each keyframe that goes once, in ascending order, together with the frame of the plan.
pub proof fn plans_are_told_as_targets(c: Course, frame_id: u64, plan: PlanModel, has_prior: bool)
    ensures
        ({
            let t = c.planned(frame_id, plan).targets;
            &&& t.poses == plan.drop_poses
            &&& t.states == plan.drop_states
            &&& t.vel_bias == plan.convert_states
            &&& t.landmarks == c.lost
            &&& forall|i: int|
                0 <= i < t.keyframes.len() ==> (#[trigger] t.keyframes[i]).1 == frame_id
                    && plan.drop_poses.contains(t.keyframes[i].0)
            &&& forall|id: u64|
                plan.drop_poses.contains(id) ==> #[trigger] t.keyframes.contains((id, frame_id))
            &&& forall|i: int, j: int|
                0 <= i < j < t.keyframes.len() ==> (#[trigger] t.keyframes[i]).0 < (
                #[trigger] t.keyframes[j]).0
        }),
        c.planned(frame_id, plan).window == c.window,
        c.planned(frame_id, plan).store == c.store,
        c.shifted(plan, has_prior).prior == has_prior,
        c.shifted(plan, has_prior).targets == c.targets,
{
    let set = plan.drop_poses.to_set();
    let list = ascending(set);
    ascending_lists_members(set);
    let t = c.planned(frame_id, plan).targets;
    assert(t.keyframes.len() == list.len());
    assert forall|i: int| 0 <= i < t.keyframes.len() implies (#[trigger] t.keyframes[i]).1
        == frame_id && plan.drop_poses.contains(t.keyframes[i].0) by {
        assert(list.to_set().contains(list[i]));
        assert(set.contains(list[i]));
    }
    assert forall|id: u64| plan.drop_poses.contains(id) implies #[trigger] t.keyframes.contains(
        (id, frame_id),
    ) by {
        assert(set.contains(id));
        assert(list.to_set().contains(id));
        let i = choose|i: int| 0 <= i < list.len() && list[i] == id;
        assert(t.keyframes[i] == (id, frame_id));
    }
}

/// Closing a frame remembers its time; where frames left, histories keep only their entries on active frames,
/// and a track without one is forgotten.
pub proof fn closed_frames_forget_what_left(c: Course, timestamp_ns: i64, marginalized: bool, t: u64)
    ensures
        ({
            let after = c.closed(timestamp_ns, marginalized);
            &&& after.last_timestamp_ns == Some(timestamp_ns)
            &&& after.window == c.window
            &&& after.store.factors == c.store.factors
            &&& after.store.landmarks == c.store.landmarks
            &&& after.store.associations == c.store.associations
            &&& after.store.world == c.store.world
            &&& after.store.hosts == c.store.hosts
            &&& !marginalized ==> after.store.history == c.store.history
            &&& marginalized && after.store.history.contains_key(t)
                ==> c.store.history.contains_key(t) && after.store.history[t]
                == c.store.history[t].filter(
                |h: TrackHistory| c.window.active().contains(h.frame_id),
            )
            &&& marginalized && c.store.history.contains_key(t) ==> (
            after.store.history.contains_key(t) <==> exists|i: int|
                0 <= i < c.store.history[t].len() && c.window.active().contains(
                    (#[trigger] c.store.history[t][i]).frame_id,
                ))
        }),
{
    if c.store.history.contains_key(t) {
        let keep = |h: TrackHistory| c.window.active().contains(h.frame_id);
        let kept = c.store.history[t].filter(keep);
        filter_members(c.store.history[t], keep);
        if kept.len() > 0 {
            assert(kept.contains(kept[0]));
            let i = choose|i: int|
                0 <= i < c.store.history[t].len() && c.store.history[t][i] == kept[0];
            assert(c.window.active().contains(c.store.history[t][i].frame_id));
        }
        if exists|i: int|
            0 <= i < c.store.history[t].len() && c.window.active().contains(
                (#[trigger] c.store.history[t][i]).frame_id,
            ) {
            let i = choose|i: int|
                0 <= i < c.store.history[t].len() && c.window.active().contains(
                    (#[trigger] c.store.history[t][i]).frame_id,
                );
            assert(c.store.history[t].contains(c.store.history[t][i]));
            assert(kept.contains(c.store.history[t][i]));
        }
    }
}

/// A frame is told as it ran: by its number, as the keyframe that it was chosen to be, with the tracks of its
/// first camera, connected or not, and with what is left of the window; the solver ran exactly where it was due.
pub proof fn frames_are_told_as_they_ran(c: Course, m: Measures)
    ensures
        ({
            let t = c.told(m);
            let run = c.run(m);
            &&& t.frame_id == m.packet.frame_id
            &&& run.frame_id == m.packet.frame_id
            &&& run.timestamp_ns == m.packet.timestamp_ns
            &&& t.is_keyframe == gate_after(
                c.gate,
                c.config,
                (t.connected_cam0 + t.unconnected_cam0) as nat,
                m.ratio,
            ).1
            &&& t.active_state_count == c.framed(m).window.states.len()
            &&& t.active_pose_count == c.framed(m).window.poses.len()
            &&& t.window.attempted <==> c.opt_started || c.window.states.len() > 3
            &&& c.framed(m).last_timestamp_ns == Some(m.packet.timestamp_ns)
            &&& c.framed(m).gate == gate_after(
                c.gate,
                c.config,
                (t.connected_cam0 + t.unconnected_cam0) as nat,
                m.ratio,
            ).0
        }),
{
}

} // verus!

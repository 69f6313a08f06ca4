//! One frame through the estimator: what is asked of the cameras and the solver, and what each
//! answer changes.
//!
//! A frame is opened, chosen, observed, solved where the solver runs, planned, shifted where frames
//! leave the window, and closed. Between the steps the caller measures: the ratio of connected
//! tracks, the bearings and triangulations of a packet, the solution, and the scores of the old
//! keyframes.
use crate::basalt::collect::{
    collect_error, created_tracks, measures_tracks, preflight_error, stores_after, HostKey, Packet, Stores,
};
use crate::basalt::course::{course, lost_tracks};
use crate::basalt::errors::EstimatorError;
use crate::basalt::estimator::{
    camera_order, first_camera_tracks, frame_error, gate_after, packet_tracks, raw_observations,
    raw_observations_are_kept_as_made, rehosted, window_shifted, written_back, BasaltVioEstimator,
    LandmarkWriteback, OfImageData,
};
use crate::basalt::identity::TrackObservation;
use crate::basalt::landmarks::{live, missed, LandmarkRecord};
use crate::basalt::marginalization::{
    begun, first_plan, first_plan_splits_the_oldest, is_needed, keyframe_list, leaving,
    MarginalizationPlan, MarginalizationPlanner, PlanModel, WindowPolicy,
};
use crate::basalt::window::{
    conversion_clears_the_front, distinct_states, filter_all, first_state, first_state_is_first,
    frozen, state_entered, state_ids, Frames, ImuLink, WindowState,
};
use crate::ordered::{ascending, filter_members, increasing, increasing_is_ascending, lists};
use vstd::prelude::*;

verus! {

/// A frame on its way.
#[derive(Clone, Copy, Debug, PartialEq, Eq, Structural)]
pub struct FrameRun {
    pub frame_id: u64,
    pub timestamp_ns: i64,
    pub retain_marg_data: bool,
    pub retain_trace: bool,
    pub connected_cam0: usize,
    pub unconnected_cam0: usize,
    pub is_keyframe: bool,
    /// Whether the solver runs.
    pub attempted: bool,
    pub marginalized: bool,
}

/// The images that come with a frame.
pub open spec fn given(images: Option<Vec<OfImageData>>) -> Option<Seq<OfImageData>> {
    match images {
        Some(v) => Some(v@),
        None => None,
    }
}

/// What opening a frame does to an estimator and gives back: the frame on its way with the tracks of
/// the first camera counted, and its images kept in the order of their cameras; or the fault of the
/// frame, with nothing changed.
pub open spec fn opened(
    before: BasaltVioEstimator,
    after: BasaltVioEstimator,
    frame_id: u64,
    timestamp_ns: i64,
    images: Option<Seq<OfImageData>>,
    observations: Seq<TrackObservation>,
    retain_marg_data: bool,
    retain_trace: bool,
    result: Result<FrameRun, EstimatorError>,
) -> bool {
    match frame_error(before, frame_id, timestamp_ns, images, retain_marg_data) {
        Some(e) => result == Err::<FrameRun, EstimatorError>(e) && after == before,
        None => {
            &&& result == Ok::<FrameRun, EstimatorError>(
                FrameRun {
                    frame_id,
                    timestamp_ns,
                    retain_marg_data,
                    retain_trace,
                    connected_cam0: first_camera_tracks(observations).filter(
                        |t: u64| live(before.store@.landmarks, t),
                    ).len() as usize,
                    unconnected_cam0: first_camera_tracks(observations).filter(
                        |t: u64| !live(before.store@.landmarks, t),
                    ).len() as usize,
                    is_keyframe: false,
                    attempted: false,
                    marginalized: false,
                },
            )
            &&& after == (BasaltVioEstimator { of_images: after.of_images, ..before })
            &&& course(after) == course(before)
            &&& match images {
                Some(v) => {
                    let kept = lists(after.of_images@)[frame_id];
                    &&& lists(after.of_images@) == lists(before.of_images@).insert(frame_id, kept)
                    &&& camera_order(kept)
                    &&& kept.to_multiset() == v.to_multiset()
                },
                None => after.of_images@ == before.of_images@,
            }
        },
    }
}

/// The landmarks after a frame: those that it did not see are lost.
pub open spec fn frame_marked(s: Stores, observations: Seq<TrackObservation>) -> Stores {
    Stores {
        landmarks: s.landmarks.map_entries(
            |t: u64, r: LandmarkRecord|
                if packet_tracks(observations).contains(t) { r } else { missed(r) },
        ),
        ..s
    }
}

/// The window after a frame entered it.
pub open spec fn frame_entered(w: Frames, run: FrameRun, linked: bool) -> Frames {
    Frames {
        poses: w.poses,
        states: state_entered(w.states, run.frame_id, run.timestamp_ns, run.is_keyframe),
        links: if linked && w.states.len() > 0 {
            w.links.push(ImuLink { from: w.states.last().frame_id, to: run.frame_id })
        } else {
            w.links
        },
    }
}

impl FrameRun {
    /// Opens a frame and counts the tracks of the first camera that have a landmark and that have
    /// none. A frame with a fault changes nothing.
    pub fn open(
        estimator: &mut BasaltVioEstimator,
        frame_id: u64,
        timestamp_ns: i64,
        images: Option<Vec<OfImageData>>,
        observations: &Vec<TrackObservation>,
        retain_marg_data: bool,
        retain_trace: bool,
    ) -> (result: Result<FrameRun, EstimatorError>)
        ensures
            opened(
                *old(estimator),
                *final(estimator),
                frame_id,
                timestamp_ns,
                given(images),
                observations@,
                retain_marg_data,
                retain_trace,
                result,
            ),
    {
        match estimator.begin_frame(frame_id, timestamp_ns, images, retain_marg_data) {
            Err(e) => Err(e),
            Ok(()) => {
                let (connected_cam0, unconnected_cam0) = estimator.cam0_connectivity(observations);
                Ok(
                    FrameRun {
                        frame_id,
                        timestamp_ns,
                        retain_marg_data,
                        retain_trace,
                        connected_cam0,
                        unconnected_cam0,
                        is_keyframe: false,
                        attempted: false,
                        marginalized: false,
                    },
                )
            },
        }
    }

    /// Decides by the ratio of connected tracks whether the frame is a keyframe.
    pub fn choose_keyframe(&mut self, estimator: &mut BasaltVioEstimator, ratio: u64)
        ensures
            (final(estimator).gate, final(self).is_keyframe) == gate_after(
                old(estimator).gate,
                old(estimator).config,
                (old(self).connected_cam0 + old(self).unconnected_cam0) as nat,
                ratio,
            ),
            *final(estimator) == (BasaltVioEstimator {
                gate: final(estimator).gate,
                ..*old(estimator)
            }),
            *final(self) == (FrameRun { is_keyframe: final(self).is_keyframe, ..*old(self) }),
            course(*final(estimator)) == course(*old(estimator)).chosen(*old(self), ratio),
    {
        self.is_keyframe = estimator.decide_keyframe(
            self.connected_cam0,
            self.unconnected_cam0,
            ratio,
        );
    }

    /// Takes the observations of the frame in, enters the frame into the window, and marks the
    /// landmarks that it did not see. Returns whether the solver runs. A packet with a fault
    /// changes nothing.
    pub fn observe(
        &mut self,
        estimator: &mut BasaltVioEstimator,
        packet: &Packet,
        linked: bool,
    ) -> (result: Result<bool, EstimatorError>)
        requires
            packet.frame_id == old(self).frame_id,
            packet.timestamp_ns == old(self).timestamp_ns,
            packet.is_keyframe == old(self).is_keyframe,
            packet.bearings@.len() == packet.observations@.len(),
            preflight_error(
                old(estimator).store@,
                *packet,
                old(estimator).cameras as nat,
            ) is None && packet.is_keyframe ==> measures_tracks(old(estimator).store@, *packet),
        ensures
            match collect_error(old(estimator).store@, *packet, old(estimator).cameras as nat) {
                Some(e) => result == Err::<bool, EstimatorError>(e) && *final(estimator)
                    == *old(estimator) && *final(self) == *old(self),
                None => {
                    &&& *final(self) == (FrameRun { attempted: result->Ok_0, ..*old(self) })
                    &&& result == Ok::<bool, EstimatorError>(
                        old(estimator).opt_started || old(estimator).window@.states.len() >= 4,
                    )
                    &&& final(estimator).store@ == frame_marked(
                        stores_after(
                            old(estimator).store@,
                            *packet,
                            old(estimator).window@.active().push(old(self).frame_id),
                        ),
                        packet.observations@,
                    )
                    &&& final(estimator).window@ == frame_entered(
                        old(estimator).window@,
                        *old(self),
                        linked,
                    )
                    &&& lists(final(estimator).of_observations@) == if packet.is_keyframe
                        && old(estimator).of_images@.contains_key(packet.frame_id) {
                        lists(old(estimator).of_observations@).insert(
                            packet.frame_id,
                            raw_observations(packet.frame_id, packet.observations@),
                        )
                    } else {
                        lists(old(estimator).of_observations@)
                    }
                    &&& final(estimator).num_points_kf@ == if packet.is_keyframe {
                        old(estimator).num_points_kf@.insert(
                            packet.frame_id,
                            created_tracks(*packet, packet.tracks@.len()).len() as usize,
                        )
                    } else {
                        old(estimator).num_points_kf@
                    }
                    &&& increasing(final(estimator).last_lost_landmarks@)
                    &&& forall|t: u64| #[trigger]
                        final(estimator).last_lost_landmarks@.contains(t) <==> {
                            &&& final(estimator).store@.landmarks.contains_key(t)
                            &&& final(estimator).store@.landmarks[t].status is Lost
                        }
                    &&& final(estimator).last_kf_to_marg@ == Seq::<(u64, u64)>::empty()
                    &&& final(estimator).last_marg_targets.poses_to_marg@ == Seq::<u64>::empty()
                    &&& final(estimator).last_marg_targets.states_to_marg_all@ == Seq::<
                        u64,
                    >::empty()
                    &&& final(estimator).last_marg_targets.states_to_marg_vel_bias@ == Seq::<
                        u64,
                    >::empty()
                    &&& final(estimator).last_marg_targets.lost_landmarks@ == final(
                        estimator
                    ).last_lost_landmarks@
                    &&& *final(estimator) == (BasaltVioEstimator {
                        store: final(estimator).store,
                        window: final(estimator).window,
                        of_observations: final(estimator).of_observations,
                        num_points_kf: final(estimator).num_points_kf,
                        last_lost_landmarks: final(estimator).last_lost_landmarks,
                        last_kf_to_marg: final(estimator).last_kf_to_marg,
                        last_marg_targets: final(estimator).last_marg_targets,
                        anchored: old(estimator).anchored || old(estimator).window@.states.len()
                            == 0,
                        opt_started: result->Ok_0,
                        ..*old(estimator)
                    })
                    &&& course(*final(estimator)) == course(*old(estimator)).observed(
                        *old(self),
                        *packet,
                        linked,
                    )
                },
            },
    {
        match estimator.collect_observations(packet) {
            Err(e) => return Err(e),
            Ok(()) => {},
        }
        estimator.push_state(self.frame_id, self.timestamp_ns, self.is_keyframe, linked);
        estimator.mark_lost(&packet.observations);
        let solve = estimator.begin_solve();
        proof {
            let landmarks = estimator.store@.landmarks;
            let lost = estimator.last_lost_landmarks@;
            increasing_is_ascending(lost);
            assert(lost.to_set() =~= landmarks.dom().filter(|t: u64| landmarks[t].status is Lost));
            assert(lost == lost_tracks(landmarks));
        }
        self.attempted = solve;
        Ok(solve)
    }

    /// Takes the solver's landmarks back and starts the plan of what leaves the window.
    pub fn solved(
        &self,
        estimator: &mut BasaltVioEstimator,
        landmarks: &Vec<LandmarkWriteback>,
        placed: &Vec<u64>,
    ) -> (planner: MarginalizationPlanner)
        ensures
            ({
                let w = old(estimator).window@;
                let s = written_back(
                    old(estimator).store@,
                    w,
                    old(estimator).cameras as nat,
                    landmarks@,
                    landmarks@.len() as int,
                );
                let policy = old(estimator).config.window;
                &&& final(estimator).store@ == (Stores { landmarks: rehosted(s, w, placed@), ..s })
                &&& planner.wf(w)
                &&& planner.kfs@ == keyframe_list(w)
                &&& planner.policy == policy
                &&& planner.plan@ == begun(w, policy)
            }),
            *final(estimator) == (BasaltVioEstimator {
                store: final(estimator).store,
                ..*old(estimator)
            }),
            course(*final(estimator)) == course(*old(estimator)).solved(landmarks@, placed@),
    {
        estimator.apply_landmark_writeback(landmarks);
        estimator.reanchor_landmarks(placed);
        MarginalizationPlanner::begin(&estimator.window, &estimator.config.window)
    }

    /// Reports the plan of the frame, and whether anything leaves the window.
    pub fn planned(&mut self, estimator: &mut BasaltVioEstimator, plan: &MarginalizationPlan) -> (
        needed: bool)
        ensures
            needed == is_needed(plan@),
            final(estimator).last_marg_targets.poses_to_marg@ == plan@.drop_poses,
            final(estimator).last_marg_targets.states_to_marg_all@ == plan@.drop_states,
            final(estimator).last_marg_targets.states_to_marg_vel_bias@ == plan@.convert_states,
            final(estimator).last_marg_targets.lost_landmarks@ == old(
                estimator
            ).last_lost_landmarks@,
            final(estimator).last_kf_to_marg@ == ascending(plan@.drop_poses.to_set()).map_values(
                |id: u64| (id, old(self).frame_id),
            ),
            *final(estimator) == (BasaltVioEstimator {
                last_marg_targets: final(estimator).last_marg_targets,
                last_kf_to_marg: final(estimator).last_kf_to_marg,
                ..*old(estimator)
            }),
            *final(self) == (FrameRun { marginalized: needed, ..*old(self) }),
            course(*final(estimator)) == course(*old(estimator)).planned(old(self).frame_id, plan@),
    {
        estimator.install_plan(plan, self.frame_id);
        self.marginalized = plan.is_needed();
        self.marginalized
    }

    /// Carries the plan out once the prior was computed, and returns the hosts that are gone.
    pub fn shifted(
        &self,
        estimator: &mut BasaltVioEstimator,
        plan: &MarginalizationPlan,
        has_prior: bool,
    ) -> (gone: Vec<HostKey>)
        ensures
            final(estimator).window@ == window_shifted(old(estimator).window@, plan@),
            final(estimator).store@ == crate::basalt::shift::shifted(
                old(estimator).store@,
                final(estimator).window@.active(),
                plan@.drop_poses,
                plan@.drop_states + plan@.drop_poses,
            ),
            final(estimator).prior == has_prior,
            gone@ == old(estimator).store@.hosts.filter(
                |h: HostKey|
                    !crate::basalt::shift::hosts_landmark(
                        final(estimator).store@.factors,
                        final(estimator).store@.landmarks,
                        h,
                    ),
            ),
            *final(estimator) == (BasaltVioEstimator {
                window: final(estimator).window,
                store: final(estimator).store,
                prior: has_prior,
                ..*old(estimator)
            }),
            course(*final(estimator)) == course(*old(estimator)).shifted(plan@, has_prior),
    {
        estimator.prior = has_prior;
        estimator.shift_window(plan)
    }

    /// Closes the frame.
    pub fn close(&self, estimator: &mut BasaltVioEstimator)
        ensures
            final(estimator).store@ == if self.marginalized {
                (Stores {
                    history: crate::basalt::shift::active_history(
                        old(estimator).store@.history,
                        old(estimator).window@.active(),
                    ),
                    ..old(estimator).store@
                })
            } else {
                old(estimator).store@
            },
            final(estimator).of_images@ == old(estimator).of_images@.restrict(
                old(estimator).window@.keyframes().to_set(),
            ),
            final(estimator).of_observations@ == old(estimator).of_observations@.restrict(
                old(estimator).window@.keyframes().to_set(),
            ),
            *final(estimator) == (BasaltVioEstimator {
                store: final(estimator).store,
                of_images: final(estimator).of_images,
                of_observations: final(estimator).of_observations,
                last_timestamp_ns: Some(self.timestamp_ns),
                lean_no_output_mode: old(estimator).lean_no_output_mode || (!self.retain_marg_data
                    && !self.retain_trace),
                ..*old(estimator)
            }),
            course(*final(estimator)) == course(*old(estimator)).closed(
                self.timestamp_ns,
                self.marginalized,
            ),
    {
        estimator.finish_frame(
            self.timestamp_ns,
            self.marginalized,
            self.retain_marg_data,
            self.retain_trace,
        );
    }
}

impl BasaltVioEstimator {
    /// Opens a frame that keeps its packet and its trace.
    pub fn process(
        &mut self,
        frame_id: u64,
        timestamp_ns: i64,
        observations: &Vec<TrackObservation>,
    ) -> (result: Result<FrameRun, EstimatorError>)
        ensures
            opened(
                *old(self),
                *final(self),
                frame_id,
                timestamp_ns,
                None,
                observations@,
                true,
                true,
                result,
            ),
    {
        FrameRun::open(
            self,
            frame_id,
            timestamp_ns,
            None,
            observations,
            true,
            true,
        )
    }

    /// Opens a frame that keeps its packet and its trace, and its images where it has some.
    pub fn process_with_images(
        &mut self,
        frame_id: u64,
        timestamp_ns: i64,
        images: Option<Vec<OfImageData>>,
        observations: &Vec<TrackObservation>,
    ) -> (result: Result<FrameRun, EstimatorError>)
        ensures
            opened(
                *old(self),
                *final(self),
                frame_id,
                timestamp_ns,
                given(images),
                observations@,
                true,
                true,
                result,
            ),
    {
        FrameRun::open(
            self,
            frame_id,
            timestamp_ns,
            images,
            observations,
            true,
            true,
        )
    }

    /// Opens a frame that keeps its trace but no packet.
    pub fn process_without_marg_data(
        &mut self,
        frame_id: u64,
        timestamp_ns: i64,
        observations: &Vec<TrackObservation>,
    ) -> (result: Result<FrameRun, EstimatorError>)
        ensures
            opened(
                *old(self),
                *final(self),
                frame_id,
                timestamp_ns,
                None,
                observations@,
                false,
                true,
                result,
            ),
    {
        FrameRun::open(
            self,
            frame_id,
            timestamp_ns,
            None,
            observations,
            false,
            true,
        )
    }

    /// Opens a frame that keeps neither a packet nor a trace. Once it is closed, packets are given up
    /// for good.
    pub fn process_without_marg_data_no_trace(
        &mut self,
        frame_id: u64,
        timestamp_ns: i64,
        observations: &Vec<TrackObservation>,
    ) -> (result: Result<FrameRun, EstimatorError>)
        ensures
            opened(
                *old(self),
                *final(self),
                frame_id,
                timestamp_ns,
                None,
                observations@,
                false,
                false,
                result,
            ),
    {
        FrameRun::open(
            self,
            frame_id,
            timestamp_ns,
            None,
            observations,
            false,
            false,
        )
    }

    /// Opens a frame that keeps what its caller asks for.
    pub fn process_adapter_frame(
        &mut self,
        frame_id: u64,
        timestamp_ns: i64,
        images: Option<Vec<OfImageData>>,
        observations: &Vec<TrackObservation>,
        retain_marg_data: bool,
        retain_trace: bool,
    ) -> (result: Result<FrameRun, EstimatorError>)
        ensures
            opened(
                *old(self),
                *final(self),
                frame_id,
                timestamp_ns,
                given(images),
                observations@,
                retain_marg_data,
                retain_trace,
                result,
            ),
    {
        FrameRun::open(
            self,
            frame_id,
            timestamp_ns,
            images,
            observations,
            retain_marg_data,
            retain_trace,
        )
    }
}

/// A frame enters the window as its newest and only latest state.
pub proof fn entered_frame_is_latest(w: Frames, run: FrameRun, linked: bool)
    ensures
        ({
            let r = frame_entered(w, run, linked);
            &&& r.states.len() == w.states.len() + 1
            &&& r.states.last().frame_id == run.frame_id
            &&& r.states.last().is_latest
            &&& r.states.last().is_keyframe == run.is_keyframe
            &&& forall|i: int|
                0 <= i < r.states.len() ==> ((#[trigger] r.states[i]).is_latest <==> r.states[i].frame_id
                    == run.frame_id)
        }),
{
}

/// A window with too many states is left with those behind the oldest that leave, the boundary now
/// linearized, but for states that share a frame with one that is dropped: with fewer than its limit.
/// Where no two states share a frame, these are all of them, one fewer than the limit.
pub proof fn shifted_window_keeps_the_newest(w: Frames, policy: WindowPolicy, drop_poses: Seq<u64>)
    requires
        0 < policy.max_states <= w.states.len(),
    ensures
        ({
            let plan = PlanModel { drop_poses, ..first_plan(w, policy) };
            let left = window_shifted(w, plan).states;
            let n = leaving(w, policy) as int;
            &&& left == frozen(w, plan.boundary_state).states.skip(n).filter(
                |s: WindowState| !plan.drop_states.contains(s.frame_id),
            )
            &&& left.len() < policy.max_states
            &&& distinct_states(w.states) ==> {
                &&& left.len() == policy.max_states - 1
                &&& left.len() > 0 ==> left[0] == (WindowState { linearized: true, ..w.states[n] })
                &&& forall|i: int| 1 <= i < left.len() ==> #[trigger] left[i] == w.states[n + i]
            }
        }),
{
    let plan = PlanModel { drop_poses, ..first_plan(w, policy) };
    let n = leaving(w, policy) as int;
    let f = frozen(w, plan.boundary_state);
    let drop = plan.drop_states;
    let keep = |s: WindowState| !drop.contains(s.frame_id);
    let left = window_shifted(w, plan).states;
    first_plan_splits_the_oldest(w, policy);
    if plan.boundary_state is Some {
        first_state_is_first(w.states, plan.boundary_state->0, w.states.len() as int);
    }
    conversion_clears_the_front(w, f, drop, n);
    assert(left == f.states.skip(n).filter(keep));
    f.states.skip(n).lemma_filter_len(keep);
    if distinct_states(w.states) {
        if plan.boundary_state is Some {
            let i = first_state(w.states, plan.boundary_state->0, w.states.len() as int)->0;
            assert(w.states[n].frame_id == plan.boundary_state->0);
            assert(i == n);
        }
        let oldest = w.states.take(n);
        let rest = f.states.skip(n);
        assert forall|i: int| 0 <= i < rest.len() implies keep(#[trigger] rest[i]) by {
            listed_in_oldest(oldest, |s: WindowState| !s.is_keyframe);
            if drop.contains(rest[i].frame_id) {
                assert(state_ids(oldest).contains(rest[i].frame_id));
                let k = choose|k: int|
                    0 <= k < state_ids(oldest).len() && state_ids(oldest)[k] == rest[i].frame_id;
                assert(w.states[k].frame_id != w.states[n + i].frame_id);
            }
        }
        filter_all(rest, keep);
    }
}

/// The frame of a state that is new to the window is not dropped, and stays the newest and the only
/// latest state where frames leave.
pub proof fn new_frames_stay_the_newest(
    w: Frames,
    run: FrameRun,
    linked: bool,
    policy: WindowPolicy,
    drop_poses: Seq<u64>,
)
    requires
        2 <= policy.max_states <= w.states.len() + 1,
        !state_ids(w.states).contains(run.frame_id),
    ensures
        ({
            let entered = frame_entered(w, run, linked);
            let plan = PlanModel { drop_poses, ..first_plan(entered, policy) };
            let left = window_shifted(entered, plan).states;
            &&& left.len() > 0
            &&& left.last().frame_id == run.frame_id
            &&& left.last().is_latest
            &&& left.last().is_keyframe == run.is_keyframe
            &&& forall|i: int| 0 <= i < left.len() - 1 ==> !(#[trigger] left[i]).is_latest
        }),
{
    let entered = frame_entered(w, run, linked);
    let plan = PlanModel { drop_poses, ..first_plan(entered, policy) };
    let n = leaving(entered, policy) as int;
    let f = frozen(entered, plan.boundary_state);
    let drop = plan.drop_states;
    let keep = |s: WindowState| !drop.contains(s.frame_id);
    let left = window_shifted(entered, plan).states;
    shifted_window_keeps_the_newest(entered, policy, drop_poses);
    if plan.boundary_state is Some {
        first_state_is_first(
            entered.states,
            plan.boundary_state->0,
            entered.states.len() as int,
        );
    }
    let rest = f.states.skip(n);
    let last = rest.last();
    assert(last == f.states[f.states.len() - 1]);
    assert(last.frame_id == run.frame_id);
    assert forall|i: int| 0 <= i < w.states.len() implies (
    #[trigger] w.states[i]).frame_id != run.frame_id by {
        assert(state_ids(w.states)[i] == w.states[i].frame_id);
    }
    let oldest = entered.states.take(n);
    listed_in_oldest(oldest, |s: WindowState| !s.is_keyframe);
    if drop.contains(run.frame_id) {
        assert(state_ids(oldest).contains(run.frame_id));
        let k = choose|k: int|
            0 <= k < state_ids(oldest).len() && state_ids(oldest)[k] == run.frame_id;
        assert(entered.states[k].frame_id == w.states[k].frame_id);
    }
    let front = rest.drop_last();
    assert(rest =~= front.push(last));
    front.lemma_filter_push(last, keep);
    assert(left == front.filter(keep).push(last));
    filter_members(front, keep);
    assert forall|i: int| 0 <= i < left.len() - 1 implies !(#[trigger] left[i]).is_latest by {
        assert(front.filter(keep).contains(left[i]));
        let k = choose|k: int| 0 <= k < front.len() && front[k] == left[i];
        assert(f.states[n + k] == left[i]);
        assert(entered.states[n + k].frame_id == w.states[n + k].frame_id);
    }
}

proof fn listed_in_oldest(states: Seq<WindowState>, keep: spec_fn(WindowState) -> bool)
    ensures
        forall|id: u64| #[trigger]
            state_ids(states.filter(keep)).contains(id) ==> state_ids(states).contains(id),
{
    let kept = states.filter(keep);
    filter_members(states, keep);
    assert forall|id: u64| #[trigger] state_ids(kept).contains(id) implies state_ids(
        states,
    ).contains(id) by {
        let k = choose|k: int| 0 <= k < state_ids(kept).len() && state_ids(kept)[k] == id;
        assert(kept.contains(kept[k]));
        let j = choose|j: int| 0 <= j < states.len() && states[j] == kept[k];
        assert(state_ids(states)[j] == id);
    }
}

/// A frame that is over marks every landmark that no observation names as missed, and changes nothing else.
pub proof fn unobserved_landmarks_are_missed(s: Stores, observations: Seq<TrackObservation>, t: u64)
    requires
        s.landmarks.contains_key(t),
    ensures
        ({
            let after = frame_marked(s, observations);
            &&& after.landmarks.dom() == s.landmarks.dom()
            &&& (exists|i: int|
                0 <= i < observations.len() && (#[trigger] observations[i]).track_id == t)
                ==> after.landmarks[t] == s.landmarks[t]
            &&& !(exists|i: int|
                0 <= i < observations.len() && (#[trigger] observations[i]).track_id == t)
                ==> after.landmarks[t] == missed(s.landmarks[t])
            &&& after.history == s.history
            &&& after.factors == s.factors
            &&& after.associations == s.associations
            &&& after.world == s.world
            &&& after.hosts == s.hosts
        }),
{
    let tracks = packet_tracks(observations);
    if exists|i: int| 0 <= i < observations.len() && (#[trigger] observations[i]).track_id == t {
        let i = choose|i: int|
            0 <= i < observations.len() && (#[trigger] observations[i]).track_id == t;
        assert(tracks[i] == t);
    }
    if tracks.contains(t) {
        let i = choose|i: int| 0 <= i < tracks.len() && tracks[i] == t;
        assert(observations[i].track_id == t);
    }
    assert(frame_marked(s, observations).landmarks.dom() =~= s.landmarks.dom());
}

/// A frame enters the window as its last state and, where the sensor links it, with a link from the state
/// before; poses and earlier links stay.
pub proof fn entering_frames_are_linked(w: Frames, run: FrameRun, linked: bool)
    ensures
        ({
            let r = frame_entered(w, run, linked);
            &&& r.poses == w.poses
            &&& r.states.len() == w.states.len() + 1
            &&& r.states.last().timestamp_ns == run.timestamp_ns
            &&& linked && w.states.len() > 0 ==> {
                &&& r.links.len() == w.links.len() + 1
                &&& r.links.drop_last() == w.links
                &&& r.links.last().from == w.states[w.states.len() - 1].frame_id
                &&& r.links.last().to == run.frame_id
            }
            &&& !linked || w.states.len() == 0 ==> r.links == w.links
        }),
{
    let r = frame_entered(w, run, linked);
    if linked && w.states.len() > 0 {
        assert(r.links.drop_last() =~= w.links);
    }
}

/// An opened frame counts the tracks that its first camera observes, those with a landmark that was not
/// removed as connected and the others as unconnected; the frame, its time and what is to be kept of it are
/// as given, and it is not a keyframe yet.
pub proof fn opened_frames_count_their_tracks(
    before: BasaltVioEstimator,
    after: BasaltVioEstimator,
    frame_id: u64,
    timestamp_ns: i64,
    images: Option<Seq<OfImageData>>,
    observations: Seq<TrackObservation>,
    retain_marg_data: bool,
    retain_trace: bool,
    run: FrameRun,
    connected: Set<u64>,
    unconnected: Set<u64>,
)
    requires
        opened(
            before,
            after,
            frame_id,
            timestamp_ns,
            images,
            observations,
            retain_marg_data,
            retain_trace,
            Ok(run),
        ),
        forall|t: u64| #[trigger]
            connected.contains(t) <==> (exists|i: int|
                0 <= i < observations.len() && (#[trigger] observations[i]).track_id == t
                    && observations[i].camera_id == 0)
                && before.store@.landmarks.contains_key(t) && !(
            before.store@.landmarks[t].status is Removed),
        forall|t: u64| #[trigger]
            unconnected.contains(t) <==> (exists|i: int|
                0 <= i < observations.len() && (#[trigger] observations[i]).track_id == t
                    && observations[i].camera_id == 0) && (
            !before.store@.landmarks.contains_key(t)
                || before.store@.landmarks[t].status is Removed),
        connected.len() <= usize::MAX,
        unconnected.len() <= usize::MAX,
    ensures
        run.connected_cam0 == connected.len(),
        run.unconnected_cam0 == unconnected.len(),
        run.frame_id == frame_id,
        run.timestamp_ns == timestamp_ns,
        run.retain_marg_data == retain_marg_data,
        run.retain_trace == retain_trace,
        !run.is_keyframe,
        !run.attempted,
        !run.marginalized,
{
    raw_observations_are_kept_as_made(frame_id, observations);
    let tracks = first_camera_tracks(observations);
    let landmarks = before.store@.landmarks;
    assert forall|t: u64| #[trigger] connected.contains(t) <==> tracks.filter(
        |t: u64| live(landmarks, t),
    ).contains(t) by {
        assert(tracks.contains(t) <==> exists|i: int|
            0 <= i < observations.len() && (#[trigger] observations[i]).track_id == t
                && observations[i].camera_id == 0);
    }
    assert forall|t: u64| #[trigger] unconnected.contains(t) <==> tracks.filter(
        |t: u64| !live(landmarks, t),
    ).contains(t) by {
        assert(tracks.contains(t) <==> exists|i: int|
            0 <= i < observations.len() && (#[trigger] observations[i]).track_id == t
                && observations[i].camera_id == 0);
    }
    assert(connected =~= tracks.filter(|t: u64| live(landmarks, t)));
    assert(unconnected =~= tracks.filter(|t: u64| !live(landmarks, t)));
}

/// Opening a frame keeps its images, one for each that was given and by camera, and the images of other frames;
/// it changes nothing else. A frame that is refused changes nothing at all.
pub proof fn opening_keeps_images_only(
    before: BasaltVioEstimator,
    after: BasaltVioEstimator,
    frame_id: u64,
    timestamp_ns: i64,
    images: Option<Seq<OfImageData>>,
    observations: Seq<TrackObservation>,
    retain_marg_data: bool,
    retain_trace: bool,
    result: Result<FrameRun, EstimatorError>,
    other: u64,
)
    requires
        opened(
            before,
            after,
            frame_id,
            timestamp_ns,
            images,
            observations,
            retain_marg_data,
            retain_trace,
            result,
        ),
        other != frame_id,
    ensures
        result is Err <==> frame_error(
            before,
            frame_id,
            timestamp_ns,
            images,
            retain_marg_data,
        ) is Some,
        result is Err ==> after == before,
        after.config == before.config,
        after.cameras == before.cameras,
        after.window == before.window,
        after.store == before.store,
        after.of_observations == before.of_observations,
        after.num_points_kf == before.num_points_kf,
        after.last_timestamp_ns == before.last_timestamp_ns,
        after.prior == before.prior,
        after.anchored == before.anchored,
        after.opt_started == before.opt_started,
        after.gate == before.gate,
        after.lean_no_output_mode == before.lean_no_output_mode,
        after.last_kf_to_marg == before.last_kf_to_marg,
        after.last_marg_targets == before.last_marg_targets,
        after.last_lost_landmarks == before.last_lost_landmarks,
        after.marg_event_ordinal == before.marg_event_ordinal,
        result is Ok && images is None ==> after.of_images@ == before.of_images@,
        after.of_images@.contains_key(other) <==> before.of_images@.contains_key(other),
        after.of_images@.contains_key(other) ==> after.of_images@[other]@
            == before.of_images@[other]@,
        result is Ok && images is Some ==> {
            &&& after.of_images@.contains_key(frame_id)
            &&& after.of_images@[frame_id]@.to_multiset() == images->0.to_multiset()
            &&& forall|i: int, j: int|
                0 <= i < j < after.of_images@[frame_id]@.len() ==> (
                #[trigger] after.of_images@[frame_id]@[i]).camera_id < (
                #[trigger] after.of_images@[frame_id]@[j]).camera_id
        },
{
    if result is Ok && images is Some {
        let x = lists(after.of_images@);
        let y = lists(before.of_images@);
        assert(x.contains_key(frame_id));
        assert(x.contains_key(other) <==> y.contains_key(other));
        if x.contains_key(other) {
            assert(x[other] == y[other]);
        }
    }
}

} // verus!

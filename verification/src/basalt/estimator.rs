//! The estimator's bookkeeping around the solver: when a frame is accepted, when it is a keyframe,
//! when the solver runs, and what is left of the window afterwards.
use crate::basalt::collect::{
    collect_error, created_tracks, measures_tracks, preflight_error, stores_after, HostKey, Packet,
    Stores, TrackStore,
};
use crate::basalt::course::{course, fresh};
use crate::basalt::errors::EstimatorError;
use crate::basalt::identity::{StoredObservation, TrackObservation};
use crate::basalt::landmarks::{live, missed, LandmarkRecord};
use crate::basalt::marginalization::{MarginalizationPlan, PlanModel, WindowPolicy};
use crate::basalt::scalar::ScalarMode;
use crate::basalt::window::{
    all_converted, conversions_give_poses, dropped, drops_remove_what_is_named, first_state_is_first,
    frames_are_members, freezing_linearizes_the_boundary, frozen, state_entered, Frames, ImuLink,
    Window, WindowPose, WindowState, NAV_STATE_DOF,
};
use crate::ieee::{
    double_at_most, double_finite, double_less, is_double_at_most, is_double_finite, is_double_less,
};
use crate::ordered::{
    ascending, contains_id, copy_list, filter_members, filter_next, increasing, list_of, lists,
    map_keys, retain_ids, sorted_unique,
};
use std::collections::BTreeMap;
use vstd::prelude::*;

verus! {

broadcast use vstd::std_specs::btree::group_btree_axioms;

/// The settings of the estimator. Real numbers are the bits of double-precision numbers.
#[derive(Clone, Copy, Debug, PartialEq, Eq, Structural)]
pub struct EstimatorConfig {
    pub scalar_mode: ScalarMode,
    pub window: WindowPolicy,
    /// A new keyframe comes only after more than this many frames.
    pub min_frames_after_kf: u64,
    /// The ratio of connected tracks below which a new keyframe is due.
    pub new_kf_keypoints_threshold: u64,
    pub initial_pose_weight: u64,
    pub initial_accel_bias_weight: u64,
    pub initial_gyro_bias_weight: u64,
}

impl Default for EstimatorConfig {
    fn default() -> (config: Self)
        ensures
            config == (EstimatorConfig {
                scalar_mode: ScalarMode::ExtendedF64,
                window: WindowPolicy {
                    max_states: 3,
                    max_kfs: 7,
                    min_feature_ratio: 0x3fb9_9999_9999_999a,
                },
                min_frames_after_kf: 5,
                new_kf_keypoints_threshold: 0x3fe6_6666_6666_6666,
                initial_pose_weight: 0x4197_d784_0000_0000,
                initial_accel_bias_weight: 0x4024_0000_0000_0000,
                initial_gyro_bias_weight: 0x4059_0000_0000_0000,
            }),
    {
        EstimatorConfig {
            scalar_mode: ScalarMode::ExtendedF64,
            window: WindowPolicy::default(),
            min_frames_after_kf: 5,
            new_kf_keypoints_threshold: 0x3fe6_6666_6666_6666,
            initial_pose_weight: 0x4197_d784_0000_0000,
            initial_accel_bias_weight: 0x4024_0000_0000_0000,
            initial_gyro_bias_weight: 0x4059_0000_0000_0000,
        }
    }
}

/// The densities of a noise model, and whether the model is valid.
#[derive(Clone, Copy, Debug, PartialEq, Eq, Structural)]
pub struct NoiseModel {
    pub valid: bool,
    pub gyro_density: u64,
    pub accel_density: u64,
}

/// One raw image of a frame, without its pixels.
#[derive(Clone, Copy, Debug, PartialEq, Eq, Structural)]
pub struct OfImageData {
    pub frame_id: u64,
    pub timestamp_ns: i64,
    pub camera_id: u16,
    pub valid: bool,
}

/// One raw feature observation of a keyframe.
#[derive(Clone, Copy, Debug, PartialEq, Eq, Structural)]
pub struct OfObservationData {
    pub frame_id: u64,
    pub track_id: u64,
    pub camera_id: u16,
    pub x: u64,
    pub y: u64,
}

/// When the next keyframe is due.
#[derive(Clone, Copy, Debug, PartialEq, Eq, Structural)]
pub struct KeyframeGate {
    pub take_kf: bool,
    pub frames_after_kf: u64,
}

/// What the last frame marginalizes.
#[derive(Debug)]
pub struct MarginalizationTargets {
    pub poses_to_marg: Vec<u64>,
    pub states_to_marg_all: Vec<u64>,
    pub states_to_marg_vel_bias: Vec<u64>,
    pub lost_landmarks: Vec<u64>,
}

/// What a frame chooses: the state of the keyframe rule after it, and whether it is a keyframe.
pub open spec fn gate_after(
    gate: KeyframeGate,
    config: EstimatorConfig,
    tracks: nat,
    ratio: u64,
) -> (KeyframeGate, bool) {
    let due = gate.take_kf || (tracks > 0 && double_less(ratio, config.new_kf_keypoints_threshold)
        && gate.frames_after_kf > config.min_frames_after_kf);
    if due {
        (KeyframeGate { take_kf: false, frames_after_kf: 0 }, true)
    } else {
        (
            KeyframeGate {
                take_kf: false,
                frames_after_kf: if gate.frames_after_kf == u64::MAX {
                    u64::MAX
                } else {
                    (gate.frames_after_kf + 1) as u64
                },
            },
            false,
        )
    }
}

/// The state of the keyframe rule after a sequence of frames, each given by the number of its tracks and
/// their ratio.
pub open spec fn gate_run(
    gate: KeyframeGate,
    config: EstimatorConfig,
    frames: Seq<(nat, u64)>,
) -> KeyframeGate
    decreases frames.len(),
{
    if frames.len() == 0 {
        gate
    } else {
        gate_after(gate_run(gate, config, frames.drop_last()), config, frames.last().0, frames.last().1).0
    }
}

/// A keyframe is followed by more than the minimum number of frames that are none: behind it, a frame
/// is no keyframe while at most the minimum number of frames lie between.
pub proof fn keyframes_keep_their_distance(
    config: EstimatorConfig,
    frames: Seq<(nat, u64)>,
    tracks: nat,
    ratio: u64,
)
    requires
        frames.len() <= config.min_frames_after_kf,
    ensures
        !gate_after(
            gate_run(KeyframeGate { take_kf: false, frames_after_kf: 0 }, config, frames),
            config,
            tracks,
            ratio,
        ).1,
{
    gate_counts(config, frames);
}

proof fn gate_counts(config: EstimatorConfig, frames: Seq<(nat, u64)>)
    requires
        frames.len() <= config.min_frames_after_kf,
    ensures
        gate_run(KeyframeGate { take_kf: false, frames_after_kf: 0 }, config, frames) == (
        KeyframeGate { take_kf: false, frames_after_kf: frames.len() as u64 }),
    decreases frames.len(),
{
    if frames.len() > 0 {
        gate_counts(config, frames.drop_last());
    }
}

/// The tracks that a packet observes in the first camera.
pub open spec fn first_camera_tracks(observations: Seq<TrackObservation>) -> Set<u64> {
    Set::new(
        |t: u64|
            exists|i: int|
                0 <= i < observations.len() && (#[trigger] observations[i]).camera_id == 0
                    && observations[i].track_id == t,
    )
}

/// What is wrong with the images of a frame.
pub open spec fn image_error(images: Seq<OfImageData>, frame_id: u64, timestamp_ns: i64) -> Option<
    EstimatorError,
> {
    if exists|i: int|
        0 <= i < images.len() && ((#[trigger] images[i]).frame_id != frame_id
            || images[i].timestamp_ns != timestamp_ns || !images[i].valid) {
        Some(EstimatorError::ImagePayload)
    } else if exists|i: int, j: int|
        0 <= i < j < images.len() && (#[trigger] images[i]).camera_id == (
        #[trigger] images[j]).camera_id {
        Some(EstimatorError::ImageCamera)
    } else {
        None
    }
}

/// Whether images are in the order of their cameras, each camera once.
pub open spec fn camera_order(images: Seq<OfImageData>) -> bool {
    forall|i: int, j: int|
        0 <= i < j < images.len() ==> (#[trigger] images[i]).camera_id < (
        #[trigger] images[j]).camera_id
}

/// The estimator without its numbers: those of a frame are kept by whoever runs the solver, under
/// the frame's identity.
#[derive(Debug)]
pub struct BasaltVioEstimator {
    pub config: EstimatorConfig,
    pub cameras: usize,
    pub calib_accel_bias: Vec<u64>,
    pub calib_gyro_bias: Vec<u64>,
    pub window: Window,
    pub store: TrackStore,
    pub of_images: BTreeMap<u64, Vec<OfImageData>>,
    pub of_observations: BTreeMap<u64, Vec<OfObservationData>>,
    pub num_points_kf: BTreeMap<u64, usize>,
    pub last_timestamp_ns: Option<i64>,
    pub prior: bool,
    pub anchored: bool,
    pub opt_started: bool,
    pub gate: KeyframeGate,
    pub lean_no_output_mode: bool,
    pub last_kf_to_marg: Vec<(u64, u64)>,
    pub last_marg_targets: MarginalizationTargets,
    pub last_lost_landmarks: Vec<u64>,
    pub marg_event_ordinal: usize,
}

/// What is wrong with a frame before any of its observations is looked at.
pub open spec fn frame_error(
    e: BasaltVioEstimator,
    frame_id: u64,
    timestamp_ns: i64,
    images: Option<Seq<OfImageData>>,
    retain_marg_data: bool,
) -> Option<EstimatorError> {
    if e.lean_no_output_mode && retain_marg_data {
        Some(EstimatorError::LeanMode)
    } else if e.last_timestamp_ns matches Some(previous) && timestamp_ns <= previous {
        Some(EstimatorError::FrameOrder)
    } else {
        match images {
            Some(images) => image_error(images, frame_id, timestamp_ns),
            None => None,
        }
    }
}

impl BasaltVioEstimator {
    /// An estimator that has seen no frame, with one camera.
    pub fn new(config: EstimatorConfig) -> (estimator: BasaltVioEstimator)
        ensures
            estimator.config == config,
            estimator.cameras == 1,
            estimator.calib_accel_bias@ == Seq::new(9, |i: int| 0u64),
            estimator.calib_gyro_bias@ == Seq::new(12, |i: int| 0u64),
            estimator.window@ == (Frames {
                poses: Seq::empty(),
                states: Seq::empty(),
                links: Seq::empty(),
            }),
            estimator.store@ == (Stores {
                history: Map::empty(),
                factors: Map::empty(),
                landmarks: Map::empty(),
                associations: Seq::empty(),
                world: Set::empty(),
                hosts: Seq::empty(),
            }),
            estimator.of_images@ == Map::<u64, Vec<OfImageData>>::empty(),
            estimator.of_observations@ == Map::<u64, Vec<OfObservationData>>::empty(),
            estimator.num_points_kf@ == Map::<u64, usize>::empty(),
            estimator.last_timestamp_ns is None,
            !estimator.prior,
            !estimator.anchored,
            !estimator.opt_started,
            estimator.gate == (KeyframeGate { take_kf: true, frames_after_kf: 0 }),
            !estimator.lean_no_output_mode,
            estimator.last_marg_targets.poses_to_marg@ == Seq::<u64>::empty(),
            estimator.last_marg_targets.states_to_marg_all@ == Seq::<u64>::empty(),
            estimator.last_marg_targets.states_to_marg_vel_bias@ == Seq::<u64>::empty(),
            estimator.last_marg_targets.lost_landmarks@ == Seq::<u64>::empty(),
            estimator.last_kf_to_marg@ == Seq::<(u64, u64)>::empty(),
            estimator.last_lost_landmarks@ == Seq::<u64>::empty(),
            estimator.marg_event_ordinal == 0,
            course(estimator) == fresh(config, 1),
    {
        let mut calib_accel_bias: Vec<u64> = Vec::new();
        for i in 0..9
            invariant
                calib_accel_bias@ =~= Seq::new(i as nat, |i: int| 0u64),
        {
            calib_accel_bias.push(0);
        }
        let mut calib_gyro_bias: Vec<u64> = Vec::new();
        for i in 0..12
            invariant
                calib_gyro_bias@ =~= Seq::new(i as nat, |i: int| 0u64),
        {
            calib_gyro_bias.push(0);
        }
        BasaltVioEstimator {
            config,
            cameras: 1,
            calib_accel_bias,
            calib_gyro_bias,
            window: Window::new(),
            store: TrackStore::new(),
            of_images: BTreeMap::new(),
            of_observations: BTreeMap::new(),
            num_points_kf: BTreeMap::new(),
            last_timestamp_ns: None,
            prior: false,
            anchored: false,
            opt_started: false,
            gate: KeyframeGate { take_kf: true, frames_after_kf: 0 },
            lean_no_output_mode: false,
            last_kf_to_marg: Vec::new(),
            last_marg_targets: MarginalizationTargets {
                poses_to_marg: Vec::new(),
                states_to_marg_all: Vec::new(),
                states_to_marg_vel_bias: Vec::new(),
                lost_landmarks: Vec::new(),
            },
            last_lost_landmarks: Vec::new(),
            marg_event_ordinal: 0,
        }
    }

    /// Takes over a rig of calibrated cameras, each with its place on the body.
    pub fn with_camera_rig(self, cameras: usize, extrinsics: usize) -> (result: Result<
        BasaltVioEstimator,
        EstimatorError,
    >)
        ensures
            if cameras == 0 || cameras != extrinsics {
                result == Err::<BasaltVioEstimator, EstimatorError>(
                    EstimatorError::CameraRig { cameras, extrinsics },
                )
            } else {
                result == Ok::<BasaltVioEstimator, EstimatorError>(
                    BasaltVioEstimator { cameras, ..self },
                )
            },
    {
        if cameras == 0 || cameras != extrinsics {
            return Err(EstimatorError::CameraRig { cameras, extrinsics });
        }
        let mut estimator = self;
        estimator.cameras = cameras;
        Ok(estimator)
    }

    /// Checks the noise densities that a run is given: both models are valid, and the measurement
    /// densities are positive.
    pub fn with_imu_noise(self, imu: NoiseModel, bias_walk: NoiseModel) -> (result: Result<
        BasaltVioEstimator,
        EstimatorError,
    >)
        ensures
            if !imu.valid || double_at_most(imu.gyro_density, 0) || double_at_most(
                imu.accel_density,
                0,
            ) || !bias_walk.valid {
                result == Err::<BasaltVioEstimator, EstimatorError>(EstimatorError::NoiseDensity)
            } else {
                result == Ok::<BasaltVioEstimator, EstimatorError>(self)
            },
    {
        if !imu.valid || is_double_at_most(imu.gyro_density, 0) || is_double_at_most(
            imu.accel_density,
            0,
        ) || !bias_walk.valid {
            return Err(EstimatorError::NoiseDensity);
        }
        Ok(self)
    }

    /// Takes over the static calibration of the inertial sensor: nine accelerometer and twelve
    /// gyroscope parameters, all finite.
    pub fn with_imu_calibration(self, accel_bias: Vec<u64>, gyro_bias: Vec<u64>) -> (result: Result<
        BasaltVioEstimator,
        EstimatorError,
    >)
        ensures
            if accel_bias@.len() != 9 || gyro_bias@.len() != 12 {
                result == Err::<BasaltVioEstimator, EstimatorError>(
                    EstimatorError::CalibrationSize {
                        accel: accel_bias@.len() as usize,
                        gyro: gyro_bias@.len() as usize,
                    },
                )
            } else if all_finite(accel_bias@) && all_finite(gyro_bias@) {
                result == Ok::<BasaltVioEstimator, EstimatorError>(
                    BasaltVioEstimator {
                        calib_accel_bias: accel_bias,
                        calib_gyro_bias: gyro_bias,
                        ..self
                    },
                )
            } else {
                result == Err::<BasaltVioEstimator, EstimatorError>(
                    EstimatorError::CalibrationValue,
                )
            },
    {
        if accel_bias.len() != 9 || gyro_bias.len() != 12 {
            return Err(
                EstimatorError::CalibrationSize { accel: accel_bias.len(), gyro: gyro_bias.len() },
            );
        }
        if !are_all_finite(&accel_bias) || !are_all_finite(&gyro_bias) {
            return Err(EstimatorError::CalibrationValue);
        }
        let mut estimator = self;
        estimator.calib_accel_bias = accel_bias;
        estimator.calib_gyro_bias = gyro_bias;
        Ok(estimator)
    }

    /// The number of navigation states in the window.
    pub fn active_state_count(&self) -> (count: usize)
        ensures
            count == self.window@.states.len(),
    {
        self.window.states.len()
    }

    /// The number of pose-only keyframes in the window.
    pub fn active_pose_count(&self) -> (count: usize)
        ensures
            count == self.window@.poses.len(),
    {
        self.window.poses.len()
    }

    /// The number of unknowns of the window.
    pub fn active_aom_dof(&self) -> (dof: usize)
        requires
            self.window@.dof() <= usize::MAX,
        ensures
            dof == self.window@.dof(),
    {
        self.window.dof()
    }

    /// The number of unknowns of the navigation states.
    pub fn active_state_dof(&self) -> (dof: usize)
        requires
            NAV_STATE_DOF * self.window@.states.len() <= usize::MAX,
        ensures
            dof == NAV_STATE_DOF * self.window@.states.len(),
    {
        self.window.states.len() * NAV_STATE_DOF
    }

    /// Whether a marginal prior is carried.
    pub fn has_prior(&self) -> (prior: bool)
        ensures
            prior == self.prior,
    {
        self.prior
    }

    /// Whether the estimator gave up the payloads of marginalization packets.
    pub fn no_output_mode_active(&self) -> (active: bool)
        ensures
            active == self.lean_no_output_mode,
    {
        self.lean_no_output_mode
    }

    /// Opens a frame: it is later than the one before it, a packet is not asked for once its
    /// payloads were given up, and its images belong to it and come one from each camera. The
    /// images are kept in the order of their cameras.
    pub fn begin_frame(
        &mut self,
        frame_id: u64,
        timestamp_ns: i64,
        images: Option<Vec<OfImageData>>,
        retain_marg_data: bool,
    ) -> (result: Result<(), EstimatorError>)
        ensures
            ({
                let given = match images {
                    Some(v) => Some(v@),
                    None => None,
                };
                match frame_error(*old(self), frame_id, timestamp_ns, given, retain_marg_data) {
                    Some(e) => result == Err::<(), EstimatorError>(e) && *final(self)
                        == *old(self),
                    None => {
                        &&& result is Ok
                        &&& *final(self) == (BasaltVioEstimator {
                            of_images: final(self).of_images,
                            ..*old(self)
                        })
                        &&& match images {
                            Some(v) => {
                                let kept = lists(final(self).of_images@)[frame_id];
                                &&& lists(final(self).of_images@) == lists(
                                    old(self).of_images@,
                                ).insert(frame_id, kept)
                                &&& camera_order(kept)
                                &&& kept.to_multiset() == v@.to_multiset()
                            },
                            None => final(self).of_images@ == old(self).of_images@,
                        }
                    },
                }
            }),
    {
        if self.lean_no_output_mode && retain_marg_data {
            return Err(EstimatorError::LeanMode);
        }
        if let Some(previous) = self.last_timestamp_ns {
            if timestamp_ns <= previous {
                return Err(EstimatorError::FrameOrder);
            }
        }
        if let Some(images) = images {
            match sorted_images(&images, frame_id, timestamp_ns) {
                Err(e) => return Err(e),
                Ok(sorted) => {
                    let ghost kept = sorted@;
                    let ghost before = self.of_images@;
                    self.of_images.insert(frame_id, sorted);
                    assert(lists(self.of_images@) =~= lists(before).insert(frame_id, kept));
                },
            }
        }
        Ok(())
    }

    /// How many tracks of the first camera have a landmark, and how many have none.
    pub fn cam0_connectivity(&self, observations: &Vec<TrackObservation>) -> (counts: (usize, usize))
        ensures
            counts.0 == first_camera_tracks(observations@).filter(
                |t: u64| live(self.store@.landmarks, t),
            ).len(),
            counts.1 == first_camera_tracks(observations@).filter(
                |t: u64| !live(self.store@.landmarks, t),
            ).len(),
    {
        let mut seen: Vec<u64> = Vec::new();
        for i in 0..observations.len()
            invariant
                forall|t: u64| #[trigger]
                    seen@.contains(t) <==> first_camera_tracks(
                        observations@.take(i as int),
                    ).contains(t),
        {
            let o = observations[i];
            let ghost before = seen@;
            if o.camera_id == 0 {
                seen.push(o.track_id);
            }
            proof {
                let p = observations@.take(i as int);
                let q = observations@.take(i + 1);
                assert forall|t: u64| #[trigger] seen@.contains(t) <==> first_camera_tracks(
                    q,
                ).contains(t) by {
                    vstd::seq_lib::lemma_seq_contains_after_push(before, o.track_id, t);
                    if first_camera_tracks(p).contains(t) {
                        let j = choose|j: int|
                            0 <= j < p.len() && (#[trigger] p[j]).camera_id == 0 && p[j].track_id
                                == t;
                        assert(q[j].camera_id == 0);
                    }
                    if first_camera_tracks(q).contains(t) {
                        let j = choose|j: int|
                            0 <= j < q.len() && (#[trigger] q[j]).camera_id == 0 && q[j].track_id
                                == t;
                        if j < i {
                            assert(p[j].camera_id == 0);
                        }
                    }
                    assert(q[i as int] == o);
                }
            }
        }
        assert(observations@.take(observations@.len() as int) =~= observations@);
        let tracks = sorted_unique(&seen);
        let ghost all = first_camera_tracks(observations@);
        proof {
            assert forall|t: u64| tracks@.to_set().contains(t) == all.contains(t) by {
                assert(seen@.to_set().contains(t) == seen@.contains(t));
            }
            assert(tracks@.to_set() =~= all);
        }
        let mut connected: usize = 0;
        let mut unconnected: usize = 0;
        let ghost yes = |t: u64| live(self.store@.landmarks, t);
        let ghost no = |t: u64| !live(self.store@.landmarks, t);
        proof {
            reveal(Seq::filter);
            assert(tracks@.take(0).filter(yes) =~= Seq::empty());
            assert(tracks@.take(0).filter(no) =~= Seq::empty());
        }
        for i in 0..tracks.len()
            invariant
                yes == (|t: u64| live(self.store@.landmarks, t)),
                no == (|t: u64| !live(self.store@.landmarks, t)),
                connected == tracks@.take(i as int).filter(yes).len(),
                unconnected == tracks@.take(i as int).filter(no).len(),
                connected + unconnected == i,
        {
            proof {
                filter_next(tracks@, yes, i as int);
                filter_next(tracks@, no, i as int);
            }
            if self.store.landmarks.is_live(tracks[i]) {
                connected = connected + 1;
            } else {
                unconnected = unconnected + 1;
            }
        }
        proof {
            assert(tracks@.take(tracks@.len() as int) =~= tracks@);
            filtered_count(tracks@, yes);
            filtered_count(tracks@, no);
        }
        (connected, unconnected)
    }

    /// Decides whether a frame is a keyframe. `ratio` is that of the connected tracks among all
    /// tracks of the first camera, and is not looked at where there are none.
    pub fn decide_keyframe(&mut self, connected: usize, unconnected: usize, ratio: u64) -> (
        is_keyframe: bool)
        ensures
            (final(self).gate, is_keyframe) == gate_after(
                old(self).gate,
                old(self).config,
                (connected + unconnected) as nat,
                ratio,
            ),
            *final(self) == (BasaltVioEstimator { gate: final(self).gate, ..*old(self) }),
    {
        if (connected > 0 || unconnected > 0) && is_double_less(
            ratio,
            self.config.new_kf_keypoints_threshold,
        ) && self.gate.frames_after_kf > self.config.min_frames_after_kf {
            self.gate.take_kf = true;
        }
        if self.gate.take_kf {
            self.gate.take_kf = false;
            self.gate.frames_after_kf = 0;
            true
        } else {
            if self.gate.frames_after_kf < u64::MAX {
                self.gate.frames_after_kf = self.gate.frames_after_kf + 1;
            }
            false
        }
    }

    /// The frames on which factor records stay: those of the window and the current one.
    pub fn active_factor_frames(&self, frame_id: u64) -> (frames: Vec<u64>)
        ensures
            frames@ == self.window@.active().push(frame_id),
    {
        let mut frames = self.window.active_frames();
        frames.push(frame_id);
        frames
    }

    /// Takes the observations of a frame into the stores. A keyframe whose images are kept also
    /// keeps its raw observations, and counts the landmarks that it creates. A packet with a fault
    /// changes nothing.
    pub fn collect_observations(&mut self, packet: &Packet) -> (result: Result<(), EstimatorError>)
        requires
            packet.bearings@.len() == packet.observations@.len(),
            preflight_error(old(self).store@, *packet, old(self).cameras as nat) is None
                && packet.is_keyframe ==> measures_tracks(old(self).store@, *packet),
        ensures
            match collect_error(old(self).store@, *packet, old(self).cameras as nat) {
                Some(e) => result == Err::<(), EstimatorError>(e) && *final(self) == *old(self),
                None => {
                    &&& result is Ok
                    &&& final(self).store@ == stores_after(
                        old(self).store@,
                        *packet,
                        old(self).window@.active().push(packet.frame_id),
                    )
                    &&& lists(final(self).of_observations@) == if packet.is_keyframe
                        && old(self).of_images@.contains_key(packet.frame_id) {
                        lists(old(self).of_observations@).insert(
                            packet.frame_id,
                            raw_observations(packet.frame_id, packet.observations@),
                        )
                    } else {
                        lists(old(self).of_observations@)
                    }
                    &&& final(self).num_points_kf@ == if packet.is_keyframe {
                        old(self).num_points_kf@.insert(
                            packet.frame_id,
                            created_tracks(*packet, packet.tracks@.len()).len() as usize,
                        )
                    } else {
                        old(self).num_points_kf@
                    }
                    &&& *final(self) == (BasaltVioEstimator {
                        store: final(self).store,
                        of_observations: final(self).of_observations,
                        num_points_kf: final(self).num_points_kf,
                        ..*old(self)
                    })
                },
            },
    {
        let active = self.active_factor_frames(packet.frame_id);
        match self.store.collect(packet, self.cameras, &active) {
            Err(e) => Err(e),
            Ok(created) => {
                if packet.is_keyframe {
                    if self.of_images.contains_key(&packet.frame_id) {
                        let raw = raw_observation_list(packet.frame_id, &packet.observations);
                        let ghost kept = raw@;
                        let ghost before = self.of_observations@;
                        self.of_observations.insert(packet.frame_id, raw);
                        assert(lists(self.of_observations@) =~= lists(before).insert(
                            packet.frame_id,
                            kept,
                        ));
                    }
                    self.num_points_kf.insert(packet.frame_id, created);
                }
                Ok(())
            },
        }
    }
}

/// The raw observations that a keyframe keeps.
pub open spec fn raw_observations(frame_id: u64, observations: Seq<TrackObservation>) -> Seq<
    OfObservationData,
> {
    observations.map_values(
        |o: TrackObservation|
            OfObservationData {
                frame_id,
                track_id: o.track_id,
                camera_id: o.camera_id,
                x: o.pixel.x,
                y: o.pixel.y,
            },
    )
}

fn raw_observation_list(frame_id: u64, observations: &Vec<TrackObservation>) -> (raw: Vec<
    OfObservationData,
>)
    ensures
        raw@ == raw_observations(frame_id, observations@),
{
    let mut raw: Vec<OfObservationData> = Vec::new();
    for i in 0..observations.len()
        invariant
            raw@ =~= raw_observations(frame_id, observations@).take(i as int),
    {
        let o = observations[i];
        raw.push(
            OfObservationData {
                frame_id,
                track_id: o.track_id,
                camera_id: o.camera_id,
                x: o.pixel.x,
                y: o.pixel.y,
            },
        );
    }
    assert(raw@ =~= raw_observations(frame_id, observations@));
    raw
}

/// Whether all numbers of a list are finite.
pub open spec fn all_finite(values: Seq<u64>) -> bool {
    forall|i: int| 0 <= i < values.len() ==> double_finite(#[trigger] values[i])
}

fn are_all_finite(values: &Vec<u64>) -> (finite: bool)
    ensures
        finite == all_finite(values@),
{
    for i in 0..values.len()
        invariant
            forall|j: int| 0 <= j < i ==> double_finite(#[trigger] values@[j]),
    {
        if !is_double_finite(values[i]) {
            return false;
        }
    }
    true
}

proof fn filtered_count(s: Seq<u64>, keep: spec_fn(u64) -> bool)
    requires
        increasing(s),
    ensures
        s.filter(keep).len() == s.to_set().filter(keep).len(),
    decreases s.len(),
{
    reveal(Seq::filter);
    if s.len() == 0 {
        assert(s.to_set().filter(keep) =~= Set::empty());
    } else {
        let front = s.drop_last();
        filtered_count(front, keep);
        assert(s =~= front.push(s.last()));
        front.lemma_push_to_set_commute(s.last());
        assert(!front.contains(s.last())) by {
            if front.contains(s.last()) {
                let i = choose|i: int| 0 <= i < front.len() && front[i] == s.last();
                assert(s[i] < s[s.len() - 1]);
            }
        }
        let before = front.to_set().filter(keep);
        assert(!before.contains(s.last()));
        if keep(s.last()) {
            assert(s.to_set().filter(keep) =~= before.insert(s.last()));
        } else {
            assert(s.to_set().filter(keep) =~= before);
        }
        vstd::seq_lib::seq_to_set_is_finite(front);
        assert(before =~= front.to_set().intersect(Set::new(keep)));
    }
}

/// Checks the images of a frame and puts them in the order of their cameras.
fn sorted_images(images: &Vec<OfImageData>, frame_id: u64, timestamp_ns: i64) -> (result: Result<
    Vec<OfImageData>,
    EstimatorError,
>)
    ensures
        match image_error(images@, frame_id, timestamp_ns) {
            Some(e) => result == Err::<Vec<OfImageData>, EstimatorError>(e),
            None => result is Ok && camera_order(result->Ok_0@)
                && result->Ok_0@.to_multiset() == images@.to_multiset(),
        },
{
    broadcast use vstd::seq_lib::group_to_multiset_ensures;

    for i in 0..images.len()
        invariant
            forall|j: int|
                0 <= j < i ==> (#[trigger] images@[j]).frame_id == frame_id
                    && images@[j].timestamp_ns == timestamp_ns && images@[j].valid,
    {
        let image = images[i];
        if image.frame_id != frame_id || image.timestamp_ns != timestamp_ns || !image.valid {
            return Err(EstimatorError::ImagePayload);
        }
    }
    let mut sorted: Vec<OfImageData> = Vec::new();
    for i in 0..images.len()
        invariant
            image_error(images@, frame_id, timestamp_ns) != Some(EstimatorError::ImagePayload),
            camera_order(sorted@),
            sorted@.len() == i,
            sorted@.to_multiset() == images@.take(i as int).to_multiset(),
            forall|a: int, b: int|
                0 <= a < b < i ==> (#[trigger] images@[a]).camera_id != (
                #[trigger] images@[b]).camera_id,
    {
        let image = images[i];
        let mut place: usize = sorted.len();
        while place > 0 && sorted[place - 1].camera_id >= image.camera_id
            invariant
                place <= sorted@.len(),
                camera_order(sorted@),
                forall|k: int|
                    place <= k < sorted@.len() ==> (#[trigger] sorted@[k]).camera_id
                        >= image.camera_id,
            decreases place,
        {
            place = place - 1;
        }
        proof {
            assert forall|h: OfImageData| #[trigger] sorted@.contains(h) <==> images@.take(
                i as int,
            ).contains(h) by {
                vstd::seq_lib::to_multiset_contains(sorted@, h);
                vstd::seq_lib::to_multiset_contains(images@.take(i as int), h);
            }
        }
        if place < sorted.len() && sorted[place].camera_id == image.camera_id {
            proof {
                let h = sorted@[place as int];
                assert(sorted@.contains(h));
                let a = choose|a: int| 0 <= a < i && images@.take(i as int)[a] == h;
                assert(images@[a].camera_id == images@[i as int].camera_id);
            }
            return Err(EstimatorError::ImageCamera);
        }
        assert forall|a: int| 0 <= a < i implies (#[trigger] images@[a]).camera_id
            != image.camera_id by {
            assert(images@.take(i as int)[a] == images@[a]);
            assert(images@.take(i as int).contains(images@[a]));
            assert(sorted@.contains(images@[a]));
            let k = choose|k: int| 0 <= k < sorted@.len() && sorted@[k] == images@[a];
            if k >= place {
                if k > place {
                    assert(sorted@[place as int].camera_id < sorted@[k].camera_id);
                }
            } else if k < place - 1 {
                assert(sorted@[k].camera_id < sorted@[place - 1].camera_id);
            }
        }
        let ghost before = sorted@;
        sorted.insert(place, image);
        proof {
            vstd::seq_lib::to_multiset_insert(before, place as int, image);
            vstd::seq_lib::to_multiset_build(images@.take(i as int), image);
            assert(images@.take(i + 1) =~= images@.take(i as int).push(image));
            assert forall|a: int, b: int| 0 <= a < b < sorted@.len() implies (
            #[trigger] sorted@[a]).camera_id < (#[trigger] sorted@[b]).camera_id by {
                let fa = if a < place { a } else { a - 1 };
                let fb = if b < place { b } else { b - 1 };
                if a == place {
                    if fb > place {
                        assert(before[place as int].camera_id < before[fb].camera_id);
                    }
                } else if b == place {
                    if fa < place - 1 {
                        assert(before[fa].camera_id < before[place - 1].camera_id);
                    }
                } else {
                    assert(before[fa].camera_id < before[fb].camera_id);
                }
            }
        }
    }
    assert(images@.take(images@.len() as int) =~= images@);
    Ok(sorted)
}

/// The tracks of a packet, in its order.
pub open spec fn packet_tracks(observations: Seq<TrackObservation>) -> Seq<u64> {
    observations.map_values(|o: TrackObservation| o.track_id)
}

/// The number of landmark observations by which an old keyframe is still connected to the current
/// frame, over the first `n` tracks: a landmark seen by both cameras counts twice.
pub open spec fn connections(s: Stores, tracks: Seq<u64>, n: int, host: u64, current: u64) -> nat
    decreases n,
{
    if n <= 0 {
        0
    } else {
        let t = tracks[n - 1];
        let here: nat = if live(s.landmarks, t) && s.landmarks[t].anchor_pose == host {
            list_of(s.factors, t).filter(|r: StoredObservation| r.frame_id == current).len()
        } else {
            0
        };
        connections(s, tracks, n - 1, host, current) + here
    }
}

/// A landmark as the solver wrote it back: the block and the camera that host it, and whether its
/// point is finite.
#[derive(Clone, Copy, Debug, PartialEq, Eq, Structural)]
pub struct LandmarkWriteback {
    pub track_id: u64,
    pub anchor_state_index: usize,
    pub anchor_camera_id: u16,
    pub finite: bool,
}

/// The frame of a block of the window, a block behind the poses counting from the first state.
pub open spec fn writeback_frame(w: Frames, index: nat) -> Option<u64> {
    if index < w.poses.len() {
        Some(w.poses[index as int].frame_id)
    } else {
        let rest = index - w.poses.len();
        if rest < w.states.len() {
            Some(w.states[rest].frame_id)
        } else {
            None
        }
    }
}

/// Whether a landmark that was written back is taken over.
pub open spec fn taken_over(w: Frames, cameras: nat, b: LandmarkWriteback) -> bool {
    writeback_frame(w, b.anchor_state_index as nat) is Some && b.anchor_camera_id < cameras
        && b.finite
}

/// The stores after the first `n` landmarks were written back: the world point of each is known,
/// and its record names the host.
pub open spec fn written_back(
    s: Stores,
    w: Frames,
    cameras: nat,
    landmarks: Seq<LandmarkWriteback>,
    n: int,
) -> Stores
    decreases n,
{
    if n <= 0 {
        s
    } else {
        let a = written_back(s, w, cameras, landmarks, n - 1);
        let b = landmarks[n - 1];
        if taken_over(w, cameras, b) {
            Stores {
                world: a.world.insert(b.track_id),
                landmarks: if a.landmarks.contains_key(b.track_id) {
                    a.landmarks.insert(
                        b.track_id,
                        LandmarkRecord {
                            anchor_pose: writeback_frame(w, b.anchor_state_index as nat)->0,
                            anchor_camera_id: b.anchor_camera_id,
                            ..a.landmarks[b.track_id]
                        },
                    )
                } else {
                    a.landmarks
                },
                ..a
            }
        } else {
            a
        }
    }
}

/// The oldest frame of the window: its first pose, else its first state.
pub open spec fn oldest_frame(w: Frames) -> Option<u64> {
    if w.poses.len() > 0 {
        Some(w.poses[0].frame_id)
    } else if w.states.len() > 0 {
        Some(w.states[0].frame_id)
    } else {
        None
    }
}

/// The landmarks after those whose host left the window and whose world point is known moved to the
/// first camera of the oldest frame. `placed` lists the tracks whose point has a direction there.
pub open spec fn rehosted(s: Stores, w: Frames, placed: Seq<u64>) -> Map<u64, LandmarkRecord> {
    match oldest_frame(w) {
        None => s.landmarks,
        Some(frame_id) => s.landmarks.map_entries(
            |t: u64, r: LandmarkRecord|
                if !w.active().contains(r.anchor_pose) && s.world.contains(t) && placed.contains(
                    t,
                ) {
                    LandmarkRecord { anchor_pose: frame_id, anchor_camera_id: 0, ..r }
                } else {
                    r
                },
        ),
    }
}

/// The window after a plan was carried out: the boundary is linearized, converted states became
/// poses, and then the poses and states that go are gone.
pub open spec fn window_shifted(w: Frames, plan: PlanModel) -> Frames {
    dropped(
        all_converted(frozen(w, plan.boundary_state), plan.convert_states),
        plan.drop_poses,
        plan.drop_states,
    )
}

impl BasaltVioEstimator {
    /// Enters the current frame into the window. The very first state anchors the gauge.
    pub fn push_state(
        &mut self,
        frame_id: u64,
        timestamp_ns: i64,
        is_keyframe: bool,
        linked: bool,
    )
        ensures
            final(self).window@ == (Frames {
                poses: old(self).window@.poses,
                states: state_entered(
                    old(self).window@.states,
                    frame_id,
                    timestamp_ns,
                    is_keyframe,
                ),
                links: if linked && old(self).window@.states.len() > 0 {
                    old(self).window@.links.push(
                        ImuLink { from: old(self).window@.states.last().frame_id, to: frame_id },
                    )
                } else {
                    old(self).window@.links
                },
            }),
            *final(self) == (BasaltVioEstimator {
                window: final(self).window,
                anchored: old(self).anchored || old(self).window@.states.len() == 0,
                ..*old(self)
            }),
    {
        if self.window.states.len() == 0 {
            self.anchored = true;
        }
        self.window.push_state(frame_id, timestamp_ns, is_keyframe, linked);
    }

    /// Marks the landmarks that the frame did not see as lost. They stay in the table until frames
    /// leave the window, and are reported as the targets of this frame.
    pub fn mark_lost(&mut self, observations: &Vec<TrackObservation>)
        ensures
            final(self).store@ == (Stores {
                landmarks: old(self).store@.landmarks.map_entries(
                    |t: u64, r: LandmarkRecord|
                        if packet_tracks(observations@).contains(t) { r } else { missed(r) },
                ),
                ..old(self).store@
            }),
            increasing(final(self).last_lost_landmarks@),
            forall|t: u64| #[trigger]
                final(self).last_lost_landmarks@.contains(t) <==> {
                    &&& final(self).store@.landmarks.contains_key(t)
                    &&& final(self).store@.landmarks[t].status is Lost
                },
            final(self).last_kf_to_marg@ == Seq::<(u64, u64)>::empty(),
            final(self).last_marg_targets.poses_to_marg@ == Seq::<u64>::empty(),
            final(self).last_marg_targets.states_to_marg_all@ == Seq::<u64>::empty(),
            final(self).last_marg_targets.states_to_marg_vel_bias@ == Seq::<u64>::empty(),
            final(self).last_marg_targets.lost_landmarks@ == final(self).last_lost_landmarks@,
            *final(self) == (BasaltVioEstimator {
                store: final(self).store,
                last_lost_landmarks: final(self).last_lost_landmarks,
                last_kf_to_marg: final(self).last_kf_to_marg,
                last_marg_targets: final(self).last_marg_targets,
                ..*old(self)
            }),
    {
        let ghost s = self.store@;
        let mut seen: Vec<u64> = Vec::new();
        for i in 0..observations.len()
            invariant
                seen@ =~= packet_tracks(observations@).take(i as int),
        {
            seen.push(observations[i].track_id);
        }
        assert(seen@ =~= packet_tracks(observations@));
        self.store.landmarks.mark_frame_end_deferred(&seen);
        proof {
            let a = |t: u64, r: LandmarkRecord| if seen@.contains(t) { r } else { missed(r) };
            let b = |t: u64, r: LandmarkRecord|
                if packet_tracks(observations@).contains(t) { r } else { missed(r) };
            assert(s.landmarks.map_entries(a) =~= s.landmarks.map_entries(b));
        }
        self.last_lost_landmarks = self.store.landmarks.lost_ids();
        self.last_kf_to_marg = Vec::new();
        self.last_marg_targets = MarginalizationTargets {
            poses_to_marg: Vec::new(),
            states_to_marg_all: Vec::new(),
            states_to_marg_vel_bias: Vec::new(),
            lost_landmarks: copy_list(&self.last_lost_landmarks),
        };
    }

    /// Whether the solver runs on this frame: once the window has held more than four states, on
    /// every frame.
    pub fn begin_solve(&mut self) -> (solve: bool)
        ensures
            solve == (old(self).opt_started || old(self).window@.states.len() > 4),
            *final(self) == (BasaltVioEstimator {
                opt_started: old(self).opt_started || solve,
                ..*old(self)
            }),
    {
        if !self.opt_started && self.window.states.len() <= 4 {
            false
        } else {
            self.opt_started = true;
            true
        }
    }

    /// By how many landmark observations an old keyframe is still connected to the current frame,
    /// and how many landmarks it created.
    pub fn connected_for_kf(&self, frame_id: u64, current_frame_id: u64) -> (counts: (usize, usize))
        requires
            connections(
                self.store@,
                ascending(self.store@.landmarks.dom()),
                ascending(self.store@.landmarks.dom()).len() as int,
                frame_id,
                current_frame_id,
            ) <= usize::MAX,
        ensures
            counts.0 == connections(
                self.store@,
                ascending(self.store@.landmarks.dom()),
                ascending(self.store@.landmarks.dom()).len() as int,
                frame_id,
                current_frame_id,
            ),
            counts.1 == if self.num_points_kf@.contains_key(frame_id) {
                self.num_points_kf@[frame_id]
            } else {
                0
            },
    {
        let created: usize = match self.num_points_kf.get(&frame_id) {
            Some(count) => *count,
            None => 0,
        };
        let tracks = map_keys(&self.store.landmarks.landmarks);
        let ghost s = self.store@;
        let ghost keep = |r: StoredObservation| r.frame_id == current_frame_id;
        let mut connected: usize = 0;
        for i in 0..tracks.len()
            invariant
                s == self.store@,
                keep == (|r: StoredObservation| r.frame_id == current_frame_id),
                connected == connections(s, tracks@, i as int, frame_id, current_frame_id),
                connections(s, tracks@, tracks@.len() as int, frame_id, current_frame_id)
                    <= usize::MAX,
        {
            let track: u64 = tracks[i];
            proof {
                connections_grow(s, tracks@, i + 1, tracks@.len() as int, frame_id, current_frame_id);
            }
            let hosted = self.store.landmarks.is_live(track) && match self.store.landmarks.landmarks.get(
                &track,
            ) {
                Some(record) => record.anchor_pose == frame_id,
                None => false,
            };
            if hosted {
                let records = crate::ordered::copy_list_of(&self.store.window_observations, track);
                let mut count: usize = 0;
                proof {
                    reveal(Seq::filter);
                    assert(records@.take(0).filter(keep) =~= Seq::empty());
                }
                for j in 0..records.len()
                    invariant
                        keep == (|r: StoredObservation| r.frame_id == current_frame_id),
                        count == records@.take(j as int).filter(keep).len(),
                        count <= j,
                {
                    proof {
                        filter_next(records@, keep, j as int);
                    }
                    if records[j].frame_id == current_frame_id {
                        count = count + 1;
                    }
                }
                assert(records@.take(records@.len() as int) =~= records@);
                connected = connected + count;
            }
        }
        (connected, created)
    }

    /// Takes the solver's landmarks back: the world points that are finite, and the hosts.
    pub fn apply_landmark_writeback(&mut self, landmarks: &Vec<LandmarkWriteback>)
        ensures
            final(self).store@ == written_back(
                old(self).store@,
                old(self).window@,
                old(self).cameras as nat,
                landmarks@,
                landmarks@.len() as int,
            ),
            *final(self) == (BasaltVioEstimator { store: final(self).store, ..*old(self) }),
    {
        let ghost s = self.store@;
        let ghost w = self.window@;
        let ghost e = *self;
        for i in 0..landmarks.len()
            invariant
                w == self.window@,
                e == *old(self),
                *self == (BasaltVioEstimator { store: self.store, ..e }),
                self.store@ == written_back(s, w, self.cameras as nat, landmarks@, i as int),
        {
            let b = landmarks[i];
            let ghost before = self.store@;
            let index: usize = b.anchor_state_index;
            let frame: Option<u64> = if index < self.window.poses.len() {
                Some(self.window.poses[index].frame_id)
            } else {
                let rest: usize = index - self.window.poses.len();
                if rest < self.window.states.len() {
                    Some(self.window.states[rest].frame_id)
                } else {
                    None
                }
            };
            assert(frame == writeback_frame(w, b.anchor_state_index as nat));
            let camera: usize = b.anchor_camera_id as usize;
            if let Some(frame_id) = frame {
                if camera < self.cameras && b.finite {
                    self.store.landmark_world.insert(b.track_id);
                    let found: Option<LandmarkRecord> = match self.store.landmarks.landmarks.get(
                        &b.track_id,
                    ) {
                        Some(record) => Some(*record),
                        None => None,
                    };
                    if let Some(record) = found {
                        self.store.landmarks.landmarks.insert(
                            b.track_id,
                            LandmarkRecord {
                                anchor_pose: frame_id,
                                anchor_camera_id: b.anchor_camera_id,
                                status: record.status,
                                connected_observations: record.connected_observations,
                                missed_frames: record.missed_frames,
                            },
                        );
                    }
                }
            }
            assert(self.store@ =~= written_back(
                s,
                w,
                self.cameras as nat,
                landmarks@,
                i + 1,
            ));
        }
    }

    /// Moves the landmarks whose host left the window to the oldest frame of the window.
    pub fn reanchor_landmarks(&mut self, placed: &Vec<u64>)
        ensures
            final(self).store@ == (Stores {
                landmarks: rehosted(old(self).store@, old(self).window@, placed@),
                ..old(self).store@
            }),
            *final(self) == (BasaltVioEstimator { store: final(self).store, ..*old(self) }),
    {
        let ghost s = self.store@;
        let ghost w = self.window@;
        let ghost e = *self;
        let oldest: Option<u64> = if self.window.poses.len() > 0 {
            Some(self.window.poses[0].frame_id)
        } else if self.window.states.len() > 0 {
            Some(self.window.states[0].frame_id)
        } else {
            None
        };
        if let Some(frame_id) = oldest {
            let active = self.window.active_frames();
            let tracks = map_keys(&self.store.landmarks.landmarks);
            let ghost f = |t: u64, r: LandmarkRecord|
                if !w.active().contains(r.anchor_pose) && s.world.contains(t) && placed@.contains(
                    t,
                ) {
                    LandmarkRecord { anchor_pose: frame_id, anchor_camera_id: 0, ..r }
                } else {
                    r
                };
            for i in 0..tracks.len()
                invariant
                    e == *old(self),
                    *self == (BasaltVioEstimator { store: self.store, ..e }),
                    w == self.window@,
                    active@ == w.active(),
                    increasing(tracks@),
                    tracks@.to_set() == s.landmarks.dom(),
                    self.store@ == (Stores { landmarks: self.store@.landmarks, ..s }),
                    self.store@.landmarks.dom() == s.landmarks.dom(),
                    f == (|t: u64, r: LandmarkRecord|
                        if !w.active().contains(r.anchor_pose) && s.world.contains(t)
                            && placed@.contains(t) {
                            LandmarkRecord { anchor_pose: frame_id, anchor_camera_id: 0, ..r }
                        } else {
                            r
                        }),
                    forall|j: int|
                        0 <= j < i ==> self.store@.landmarks[#[trigger] tracks@[j]] == f(
                            tracks@[j],
                            s.landmarks[tracks@[j]],
                        ),
                    forall|j: int|
                        i <= j < tracks@.len() ==> self.store@.landmarks[#[trigger] tracks@[j]]
                            == s.landmarks[tracks@[j]],
            {
                let t: u64 = tracks[i];
                assert(tracks@.to_set().contains(t));
                let record: LandmarkRecord = match self.store.landmarks.landmarks.get(&t) {
                    Some(record) => *record,
                    None => {
                        assert(false);
                        return;
                    },
                };
                if !contains_id(&active, record.anchor_pose) && self.store.landmark_world.contains(
                    &t,
                ) && contains_id(placed, t) {
                    self.store.landmarks.landmarks.insert(
                        t,
                        LandmarkRecord {
                            anchor_pose: frame_id,
                            anchor_camera_id: 0,
                            status: record.status,
                            connected_observations: record.connected_observations,
                            missed_frames: record.missed_frames,
                        },
                    );
                    assert(self.store@.landmarks.dom() =~= s.landmarks.dom());
                }
            }
            proof {
                assert forall|t: u64| s.landmarks.contains_key(t) implies self.store@.landmarks[t]
                    == f(t, s.landmarks[t]) by {
                    assert(tracks@.to_set().contains(t));
                    let j = choose|j: int| 0 <= j < tracks@.len() && tracks@[j] == t;
                }
                assert(self.store@.landmarks =~= s.landmarks.map_entries(f));
            }
        }
        assert(self.store@ =~= (Stores { landmarks: rehosted(s, w, placed@), ..s }));
    }

    /// Reports a plan as the targets of the frame: the keyframes that go are listed in ascending
    /// order, each with the frame that gives it up.
    pub fn install_plan(&mut self, plan: &MarginalizationPlan, frame_id: u64)
        ensures
            final(self).last_marg_targets.poses_to_marg@ == plan@.drop_poses,
            final(self).last_marg_targets.states_to_marg_all@ == plan@.drop_states,
            final(self).last_marg_targets.states_to_marg_vel_bias@ == plan@.convert_states,
            final(self).last_marg_targets.lost_landmarks@ == old(self).last_lost_landmarks@,
            final(self).last_kf_to_marg@ == ascending(plan@.drop_poses.to_set()).map_values(
                |id: u64| (id, frame_id),
            ),
            *final(self) == (BasaltVioEstimator {
                last_marg_targets: final(self).last_marg_targets,
                last_kf_to_marg: final(self).last_kf_to_marg,
                ..*old(self)
            }),
    {
        let ids = sorted_unique(&plan.drop_poses);
        let mut pairs: Vec<(u64, u64)> = Vec::new();
        for i in 0..ids.len()
            invariant
                pairs@ =~= ids@.map_values(|id: u64| (id, frame_id)).take(i as int),
        {
            pairs.push((ids[i], frame_id));
        }
        assert(pairs@ =~= ids@.map_values(|id: u64| (id, frame_id)));
        self.last_kf_to_marg = pairs;
        self.last_marg_targets = MarginalizationTargets {
            poses_to_marg: copy_list(&plan.drop_poses),
            states_to_marg_all: copy_list(&plan.drop_states),
            states_to_marg_vel_bias: copy_list(&plan.convert_states),
            lost_landmarks: copy_list(&self.last_lost_landmarks),
        };
    }

    /// Carries out a plan: the window gives up its frames, and the stores what belongs to them.
    /// Returns the hosts that are gone.
    pub fn shift_window(&mut self, plan: &MarginalizationPlan) -> (gone: Vec<HostKey>)
        ensures
            final(self).window@ == window_shifted(old(self).window@, plan@),
            final(self).store@ == crate::basalt::shift::shifted(
                old(self).store@,
                final(self).window@.active(),
                plan@.drop_poses,
                plan@.drop_states + plan@.drop_poses,
            ),
            gone@ == old(self).store@.hosts.filter(
                |h: HostKey|
                    !crate::basalt::shift::hosts_landmark(
                        final(self).store@.factors,
                        final(self).store@.landmarks,
                        h,
                    ),
            ),
            *final(self) == (BasaltVioEstimator {
                window: final(self).window,
                store: final(self).store,
                ..*old(self)
            }),
    {
        self.window.freeze(plan.boundary_state);
        self.window.convert(&plan.convert_states);
        self.window.drop_frames(&plan.drop_poses, &plan.drop_states);
        let active = self.window.active_frames();
        let frames = plan.dropped_frames();
        self.store.shift(&active, &plan.drop_poses, &frames)
    }

    /// Closes a frame: where frames left the window, the histories give up what belongs to them;
    /// images and raw observations stay of the keyframes of the window; and a frame that kept
    /// neither a packet nor a trace gives up packets for good.
    pub fn finish_frame(
        &mut self,
        timestamp_ns: i64,
        marginalized: bool,
        retain_marg_data: bool,
        retain_trace: bool,
    )
        ensures
            final(self).store@ == if marginalized {
                (Stores {
                    history: crate::basalt::shift::active_history(
                        old(self).store@.history,
                        old(self).window@.active(),
                    ),
                    ..old(self).store@
                })
            } else {
                old(self).store@
            },
            final(self).of_images@ == old(self).of_images@.restrict(
                old(self).window@.keyframes().to_set(),
            ),
            final(self).of_observations@ == old(self).of_observations@.restrict(
                old(self).window@.keyframes().to_set(),
            ),
            *final(self) == (BasaltVioEstimator {
                store: final(self).store,
                of_images: final(self).of_images,
                of_observations: final(self).of_observations,
                last_timestamp_ns: Some(timestamp_ns),
                lean_no_output_mode: old(self).lean_no_output_mode || (!retain_marg_data
                    && !retain_trace),
                ..*old(self)
            }),
    {
        if marginalized {
            let active = self.window.active_frames();
            self.store.prune_track_history(&active);
        }
        self.last_timestamp_ns = Some(timestamp_ns);
        let keyframes = self.window.keyframes();
        retain_ids(&mut self.of_images, &keyframes);
        retain_ids(&mut self.of_observations, &keyframes);
        if !retain_marg_data && !retain_trace {
            self.lean_no_output_mode = true;
        }
    }

    /// Counts one packet that went to the mapper, up to the largest count.
    pub fn count_packet(&mut self) -> (ordinal: usize)
        ensures
            ordinal == old(self).marg_event_ordinal,
            *final(self) == (BasaltVioEstimator {
                marg_event_ordinal: if ordinal == usize::MAX {
                    usize::MAX
                } else {
                    (ordinal + 1) as usize
                },
                ..*old(self)
            }),
    {
        let ordinal: usize = self.marg_event_ordinal;
        if ordinal < usize::MAX {
            self.marg_event_ordinal = ordinal + 1;
        }
        ordinal
    }
}

proof fn connections_grow(s: Stores, tracks: Seq<u64>, a: int, b: int, host: u64, current: u64)
    requires
        0 <= a <= b,
    ensures
        connections(s, tracks, a, host, current) <= connections(s, tracks, b, host, current),
    decreases b - a,
{
    if a < b {
        connections_grow(s, tracks, a, b - 1, host, current);
    }
}

/// Once packets were given up, no frame that asks for one is opened, and a first frame that asks for
/// none still is.
pub proof fn lean_mode_is_for_good(e: BasaltVioEstimator, frame_id: u64, timestamp_ns: i64)
    requires
        e.lean_no_output_mode,
    ensures
        frame_error(e, frame_id, timestamp_ns, None, true) == Some(EstimatorError::LeanMode),
        e.last_timestamp_ns is None ==> frame_error(e, frame_id, timestamp_ns, None, false) is None,
{
}

/// A frame becomes a keyframe exactly where one was asked for, or where it sees tracks, too few of which are
/// connected, and more frames than the least number came since the last one. A keyframe starts the count
/// anew; any other frame counts, up to the largest value. Nothing is asked for any longer either way.
pub proof fn keyframes_come_when_due(
    gate: KeyframeGate,
    config: EstimatorConfig,
    tracks: nat,
    ratio: u64,
)
    ensures
        gate.take_kf ==> gate_after(gate, config, tracks, ratio).1,
        tracks > 0 && double_less(ratio, config.new_kf_keypoints_threshold)
            && config.min_frames_after_kf < gate.frames_after_kf ==> gate_after(
            gate,
            config,
            tracks,
            ratio,
        ).1,
        !gate.take_kf && tracks == 0 ==> !gate_after(gate, config, tracks, ratio).1,
        !gate.take_kf && !double_less(ratio, config.new_kf_keypoints_threshold) ==> !gate_after(
            gate,
            config,
            tracks,
            ratio,
        ).1,
        !gate.take_kf && gate.frames_after_kf <= config.min_frames_after_kf ==> !gate_after(
            gate,
            config,
            tracks,
            ratio,
        ).1,
        !gate_after(gate, config, tracks, ratio).0.take_kf,
        gate_after(gate, config, tracks, ratio).1 ==> gate_after(
            gate,
            config,
            tracks,
            ratio,
        ).0.frames_after_kf == 0,
        !gate_after(gate, config, tracks, ratio).1 && gate.frames_after_kf < u64::MAX
            ==> gate_after(gate, config, tracks, ratio).0.frames_after_kf == gate.frames_after_kf
            + 1,
        !gate_after(gate, config, tracks, ratio).1 && gate.frames_after_kf == u64::MAX
            ==> gate_after(gate, config, tracks, ratio).0.frames_after_kf == u64::MAX,
{
}

/// Images are accepted exactly where each is valid and of the frame and its time, and no two are of one
/// camera.
pub proof fn images_are_one_for_a_camera(images: Seq<OfImageData>, frame_id: u64, timestamp_ns: i64)
    ensures
        image_error(images, frame_id, timestamp_ns) is None <==> {
            &&& forall|i: int|
                0 <= i < images.len() ==> (#[trigger] images[i]).frame_id == frame_id
                    && images[i].timestamp_ns == timestamp_ns && images[i].valid
            &&& forall|i: int, j: int|
                0 <= i < j < images.len() ==> (#[trigger] images[i]).camera_id != (
                #[trigger] images[j]).camera_id
        },
        (exists|i: int|
            0 <= i < images.len() && ((#[trigger] images[i]).frame_id != frame_id
                || images[i].timestamp_ns != timestamp_ns || !images[i].valid)) ==> image_error(
            images,
            frame_id,
            timestamp_ns,
        ) == Some(EstimatorError::ImagePayload),
{
}

/// A frame is refused exactly where data is to be kept of it in lean mode, where it is not later than the
/// frame before, and where its images are refused, in this order.
pub proof fn frames_come_in_order(
    e: BasaltVioEstimator,
    frame_id: u64,
    timestamp_ns: i64,
    images: Option<Seq<OfImageData>>,
    retain_marg_data: bool,
)
    ensures
        frame_error(e, frame_id, timestamp_ns, images, retain_marg_data) is None <==> {
            &&& !(e.lean_no_output_mode && retain_marg_data)
            &&& e.last_timestamp_ns is Some ==> e.last_timestamp_ns->0 < timestamp_ns
            &&& images is Some ==> image_error(images->0, frame_id, timestamp_ns) is None
        },
        e.lean_no_output_mode && retain_marg_data ==> frame_error(
            e,
            frame_id,
            timestamp_ns,
            images,
            retain_marg_data,
        ) == Some(EstimatorError::LeanMode),
        !(e.lean_no_output_mode && retain_marg_data) && e.last_timestamp_ns is Some
            && timestamp_ns <= e.last_timestamp_ns->0 ==> frame_error(
            e,
            frame_id,
            timestamp_ns,
            images,
            retain_marg_data,
        ) == Some(EstimatorError::FrameOrder),
{
}

/// The tracks of the first camera are those that it observes; the raw observations of a frame are all that
/// were made, in their order, with their track, camera and pixel.
pub proof fn raw_observations_are_kept_as_made(frame_id: u64, observations: Seq<TrackObservation>)
    ensures
        forall|t: u64| #[trigger]
            first_camera_tracks(observations).contains(t) <==> exists|i: int|
                0 <= i < observations.len() && (#[trigger] observations[i]).track_id == t
                    && observations[i].camera_id == 0,
        raw_observations(frame_id, observations).len() == observations.len(),
        packet_tracks(observations).len() == observations.len(),
        forall|i: int|
            0 <= i < observations.len() ==> {
                let o = #[trigger] raw_observations(frame_id, observations)[i];
                &&& o.frame_id == frame_id
                &&& o.track_id == observations[i].track_id
                &&& o.camera_id == observations[i].camera_id
                &&& o.x == observations[i].pixel.x
                &&& o.y == observations[i].pixel.y
            },
        forall|i: int|
            0 <= i < observations.len() ==> #[trigger] packet_tracks(observations)[i]
                == observations[i].track_id,
{
    assert forall|t: u64| #[trigger] first_camera_tracks(observations).contains(t) <==> exists|
        i: int,
    |
        0 <= i < observations.len() && (#[trigger] observations[i]).track_id == t
            && observations[i].camera_id == 0 by {
        if exists|i: int|
            0 <= i < observations.len() && (#[trigger] observations[i]).track_id == t
                && observations[i].camera_id == 0 {
            let i = choose|i: int|
                0 <= i < observations.len() && (#[trigger] observations[i]).track_id == t
                    && observations[i].camera_id == 0;
            assert(observations[i].camera_id == 0 && observations[i].track_id == t);
        }
    }
}

/// Every track in turn adds its factor records on the current frame to the connections of its host, unless
/// its landmark was removed; tracks without a landmark, or of another host, add none.
pub proof fn connections_are_counted_by_track(
    s: Stores,
    tracks: Seq<u64>,
    n: int,
    host: u64,
    current: u64,
)
    requires
        0 <= n < tracks.len(),
    ensures
        connections(s, tracks, 0, host, current) == 0,
        ({
            let t = tracks[n];
            let more = connections(s, tracks, n + 1, host, current) - connections(
                s,
                tracks,
                n,
                host,
                current,
            );
            if s.landmarks.contains_key(t) && !(s.landmarks[t].status is Removed)
                && s.landmarks[t].anchor_pose == host && s.factors.contains_key(t) {
                more == s.factors[t].filter(
                    |r: StoredObservation| r.frame_id == current,
                ).len()
            } else {
                more == 0
            }
        }),
{
    reveal(Seq::filter);
}

/// What is written back of a track is the last result for it whose block is in the window, whose camera
/// exists and whose position is finite: that block's frame and that camera become its host, and it has a
/// world point. A track without such a result keeps its host; nothing else changes.
pub proof fn results_move_their_hosts(
    s: Stores,
    w: Frames,
    cameras: nat,
    landmarks: Seq<LandmarkWriteback>,
    n: int,
    t: u64,
)
    requires
        0 <= n <= landmarks.len(),
    ensures
        ({
            let after = written_back(s, w, cameras, landmarks, n);
            let good = |j: int|
                {
                    let b = landmarks[j];
                    &&& 0 <= j < n
                    &&& b.track_id == t
                    &&& b.anchor_state_index < w.poses.len() + w.states.len()
                    &&& b.anchor_camera_id < cameras
                    &&& b.finite
                };
            &&& after.history == s.history
            &&& after.factors == s.factors
            &&& after.associations == s.associations
            &&& after.hosts == s.hosts
            &&& after.landmarks.dom() == s.landmarks.dom()
            &&& after.world.contains(t) <==> s.world.contains(t) || exists|j: int| #[trigger]
                good(j)
            &&& s.landmarks.contains_key(t) && !(exists|j: int| #[trigger] good(j))
                ==> after.landmarks[t] == s.landmarks[t]
            &&& s.landmarks.contains_key(t) ==> {
                &&& after.landmarks[t].status == s.landmarks[t].status
                &&& after.landmarks[t].connected_observations
                    == s.landmarks[t].connected_observations
                &&& after.landmarks[t].missed_frames == s.landmarks[t].missed_frames
            }
            &&& forall|j: int| #[trigger]
                good(j) && s.landmarks.contains_key(t) && (forall|k: int|
                    j < k < n ==> !#[trigger] good(k)) ==> {
                    let at = landmarks[j].anchor_state_index as int;
                    &&& after.landmarks[t].anchor_camera_id == landmarks[j].anchor_camera_id
                    &&& after.landmarks[t].anchor_pose == if at < w.poses.len() {
                        w.poses[at].frame_id
                    } else {
                        w.states[at - w.poses.len()].frame_id
                    }
                }
        }),
    decreases n,
{
    let good = |j: int|
        {
            let b = landmarks[j];
            &&& 0 <= j < n
            &&& b.track_id == t
            &&& b.anchor_state_index < w.poses.len() + w.states.len()
            &&& b.anchor_camera_id < cameras
            &&& b.finite
        };
    if n > 0 {
        results_move_their_hosts(s, w, cameras, landmarks, n - 1, t);
        let good_before = |j: int|
            {
                let b = landmarks[j];
                &&& 0 <= j < n - 1
                &&& b.track_id == t
                &&& b.anchor_state_index < w.poses.len() + w.states.len()
                &&& b.anchor_camera_id < cameras
                &&& b.finite
            };
        assert forall|j: int| #[trigger] good(j) <==> good_before(j) || (j == n - 1 && good(
            n - 1,
        )) by {}
        let before = written_back(s, w, cameras, landmarks, n - 1);
        let after = written_back(s, w, cameras, landmarks, n);
        assert(after.landmarks.dom() =~= s.landmarks.dom());
        let b = landmarks[n - 1];
        assert(b.track_id == t ==> (taken_over(w, cameras, b) <==> good(n - 1)));
        if exists|j: int| #[trigger] good_before(j) {
            let j = choose|j: int| #[trigger] good_before(j);
            assert(good(j));
        }
        if exists|j: int| #[trigger] good(j) {
            let j = choose|j: int| #[trigger] good(j);
            if !good(n - 1) {
                assert(good_before(j));
            }
        }
        assert forall|j: int| #[trigger]
            good(j) && s.landmarks.contains_key(t) && (forall|k: int|
                j < k < n ==> !#[trigger] good(k)) implies {
            let at = landmarks[j].anchor_state_index as int;
            &&& after.landmarks[t].anchor_camera_id == landmarks[j].anchor_camera_id
            &&& after.landmarks[t].anchor_pose == if at < w.poses.len() {
                w.poses[at].frame_id
            } else {
                w.states[at - w.poses.len()].frame_id
            }
        } by {
            if j < n - 1 {
                assert(!good(n - 1));
                assert(good_before(j));
                assert forall|k: int| j < k < n - 1 implies !#[trigger] good_before(k) by {
                    assert(!good(k));
                }
            }
        }
    }
}

/// A landmark whose host is in the window no longer, and which has a world point and was placed, is hosted by
/// the first camera of the oldest frame of the window, that of the first pose or else of the first state;
/// every other landmark stays as it was.
pub proof fn stranded_landmarks_move_to_the_oldest_frame(
    s: Stores,
    w: Frames,
    placed: Seq<u64>,
    t: u64,
)
    requires
        s.landmarks.contains_key(t),
    ensures
        rehosted(s, w, placed).dom() == s.landmarks.dom(),
        ({
            let was = s.landmarks[t];
            let now = rehosted(s, w, placed)[t];
            let inside = (exists|i: int|
                0 <= i < w.poses.len() && (#[trigger] w.poses[i]).frame_id == was.anchor_pose) || (
            exists|i: int|
                0 <= i < w.states.len() && (#[trigger] w.states[i]).frame_id == was.anchor_pose);
            &&& now.status == was.status
            &&& now.connected_observations == was.connected_observations
            &&& now.missed_frames == was.missed_frames
            &&& inside || !s.world.contains(t) || !placed.contains(t) ==> now == was
            &&& w.poses.len() == 0 && w.states.len() == 0 ==> now == was
            &&& !inside && s.world.contains(t) && placed.contains(t) && w.poses.len() > 0 ==> {
                &&& now.anchor_pose == w.poses[0].frame_id
                &&& now.anchor_camera_id == 0
            }
            &&& !inside && s.world.contains(t) && placed.contains(t) && w.poses.len() == 0
                && w.states.len() > 0 ==> {
                &&& now.anchor_pose == w.states[0].frame_id
                &&& now.anchor_camera_id == 0
            }
        }),
{
    frames_are_members(w);
    assert(w.active().contains(s.landmarks[t].anchor_pose) <==> (exists|i: int|
        0 <= i < w.poses.len() && (#[trigger] w.poses[i]).frame_id == s.landmarks[t].anchor_pose)
        || (exists|i: int|
        0 <= i < w.states.len() && (#[trigger] w.states[i]).frame_id
            == s.landmarks[t].anchor_pose));
    assert(rehosted(s, w, placed).dom() =~= s.landmarks.dom());
}

/// After a shift a pose stands in the window exactly where its frame is not among those that go and it stood
/// there before or its state was turned into it; and a state exactly where it was neither turned nor dropped.
pub proof fn shifted_windows_hold_what_stays(w: Frames, plan: PlanModel, p: WindowPose, id: u64)
    requires
        forall|i: int, j: int|
            0 <= i < j < w.states.len() ==> (#[trigger] w.states[i]).frame_id != (
            #[trigger] w.states[j]).frame_id,
    ensures
        window_shifted(w, plan).poses.contains(p) <==> !plan.drop_poses.contains(p.frame_id) && (
        w.poses.contains(p) || exists|i: int|
            0 <= i < w.states.len() && plan.convert_states.contains(
                (#[trigger] w.states[i]).frame_id,
            ) && w.states[i].frame_id == p.frame_id && w.states[i].timestamp_ns == p.timestamp_ns
                && w.states[i].is_keyframe == p.is_keyframe),
        (exists|k: int|
            0 <= k < window_shifted(w, plan).states.len() && (#[trigger] window_shifted(
                w,
                plan,
            ).states[k]).frame_id == id) <==> (exists|i: int|
            0 <= i < w.states.len() && (#[trigger] w.states[i]).frame_id == id)
            && !plan.convert_states.contains(id) && !plan.drop_states.contains(id),
{
    let f = frozen(w, plan.boundary_state);
    let c = all_converted(f, plan.convert_states);
    let after = window_shifted(w, plan);
    assert forall|i: int| 0 <= i < w.states.len() implies (#[trigger] f.states[i]).frame_id
        == w.states[i].frame_id && f.states[i].timestamp_ns == w.states[i].timestamp_ns
        && f.states[i].is_keyframe == w.states[i].is_keyframe by {
        freezing_linearizes_the_boundary(w, plan.boundary_state, i);
    }
    assert(f.states.len() == w.states.len() && f.poses == w.poses) by {
        if w.states.len() > 0 {
            freezing_linearizes_the_boundary(w, plan.boundary_state, 0);
        } else if plan.boundary_state is Some {
            first_state_is_first(w.states, plan.boundary_state->0, 0);
        }
    }
    conversions_give_poses(f, plan.convert_states, p);
    drops_remove_what_is_named(c, plan.drop_poses, plan.drop_states);
    assert(after.poses.contains(p) <==> c.poses.contains(p) && !plan.drop_poses.contains(
        p.frame_id,
    ));
    if exists|i: int|
        0 <= i < w.states.len() && plan.convert_states.contains((#[trigger] w.states[i]).frame_id)
            && w.states[i].frame_id == p.frame_id && w.states[i].timestamp_ns == p.timestamp_ns
            && w.states[i].is_keyframe == p.is_keyframe {
        let i = choose|i: int|
            0 <= i < w.states.len() && plan.convert_states.contains(
                (#[trigger] w.states[i]).frame_id,
            ) && w.states[i].frame_id == p.frame_id && w.states[i].timestamp_ns == p.timestamp_ns
                && w.states[i].is_keyframe == p.is_keyframe;
        assert(f.states[i].frame_id == p.frame_id);
    }
    if exists|i: int|
        0 <= i < f.states.len() && plan.convert_states.contains((#[trigger] f.states[i]).frame_id)
            && f.states[i].frame_id == p.frame_id && f.states[i].timestamp_ns == p.timestamp_ns
            && f.states[i].is_keyframe == p.is_keyframe {
        let i = choose|i: int|
            0 <= i < f.states.len() && plan.convert_states.contains(
                (#[trigger] f.states[i]).frame_id,
            ) && f.states[i].frame_id == p.frame_id && f.states[i].timestamp_ns == p.timestamp_ns
                && f.states[i].is_keyframe == p.is_keyframe;
        assert(w.states[i].frame_id == p.frame_id);
    }
    let stays = |s: WindowState| !plan.convert_states.contains(s.frame_id);
    filter_members(f.states, stays);
    if exists|k: int| 0 <= k < after.states.len() && (#[trigger] after.states[k]).frame_id == id {
        let k = choose|k: int|
            0 <= k < after.states.len() && (#[trigger] after.states[k]).frame_id == id;
        assert(after.states.contains(after.states[k]));
        assert(c.states.contains(after.states[k]));
        let i = choose|i: int| 0 <= i < f.states.len() && f.states[i] == after.states[k];
        assert(w.states[i].frame_id == id);
    }
    if (exists|i: int| 0 <= i < w.states.len() && (#[trigger] w.states[i]).frame_id == id)
        && !plan.convert_states.contains(id) && !plan.drop_states.contains(id) {
        let i = choose|i: int| 0 <= i < w.states.len() && (#[trigger] w.states[i]).frame_id == id;
        assert(f.states.contains(f.states[i]));
        assert(c.states.contains(f.states[i]));
        assert(after.states.contains(f.states[i]));
        let k = choose|k: int| 0 <= k < after.states.len() && after.states[k] == f.states[i];
        assert(after.states[k].frame_id == id);
    }
}

/// Values are all finite exactly where none is infinite or no number; images are in the order of their cameras
/// exactly where each is of a later camera than all before it.
pub proof fn values_and_images_one_by_one(values: Seq<u64>, images: Seq<OfImageData>)
    ensures
        !all_finite(values) <==> exists|i: int|
            0 <= i < values.len() && !double_finite(#[trigger] values[i]),
        !camera_order(images) <==> exists|i: int, j: int|
            0 <= i < j < images.len() && (#[trigger] images[j]).camera_id <= (
            #[trigger] images[i]).camera_id,
{
}

} // verus!

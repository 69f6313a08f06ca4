use nalgebra::{UnitQuaternion, Vector3};
use visloc::basalt::collect::{
    select_attempt, Attempt, BearingOutcome, HostKey, Packet, TrackTriangulation,
};
use visloc::basalt::errors::EstimatorError;
use visloc::basalt::estimator::{
    BasaltVioEstimator, EstimatorConfig, LandmarkWriteback, NoiseModel, OfImageData,
    OfObservationData,
};
use visloc::basalt::frame::FrameRun;
use visloc::basalt::identity::{
    candidate_sort, project_factor_observations, Pixel, StoredObservation, TrackHistory,
    TrackObservation,
};
use visloc::basalt::imu::{initial_sample, integration_steps, samples_within, ImuStep};
use visloc::basalt::landmarks::{LandmarkStatus, ObservationDb};
use visloc::basalt::marginalization::MarginalizationPlanner;
use visloc::basalt::packet::MargTables;
use visloc::basalt::placement::{PoseRefresh, PoseSource};
use visloc::basalt::problem::{build_problem, factor_row_counts, RowCounts, WindowProblem};
use visloc::basalt::report::{FrameOutput, PacketSource, SolverReport};
use visloc::basalt::scalar::ScalarMode;
use visloc::basalt::window::{aom_order, BlockKind, WindowPose, WindowState};

fn pixel(x: f64, y: f64) -> Pixel {
    Pixel { x: x.to_bits(), y: y.to_bits() }
}

fn obs(id: u64, frame_id: u64) -> TrackObservation {
    TrackObservation {
        track_id: id,
        frame_id,
        timestamp_ns: frame_id as i64 + 1,
        camera_id: 0,
        pixel: pixel(327.5, 236.25),
    }
}

fn stored(frame_id: u64, camera_id: u16) -> StoredObservation {
    StoredObservation { frame_id, camera_id, pixel: pixel(320.0, 240.0) }
}

fn history(frame_id: u64, camera_id: u16) -> TrackHistory {
    TrackHistory {
        frame_id,
        camera_id,
        timestamp_ns: frame_id as i64,
        pixel: pixel(frame_id as f64, camera_id as f64),
    }
}

fn state(frame_id: u64, is_keyframe: bool) -> WindowState {
    WindowState {
        frame_id,
        timestamp_ns: frame_id as i64,
        is_keyframe,
        is_latest: false,
        linearized: true,
    }
}

fn attempt(baseline: f64, inverse_distance: Option<f64>) -> Attempt {
    Attempt {
        baseline: baseline.to_bits(),
        inverse_distance: inverse_distance.map(|d| d.to_bits()),
    }
}

fn estimator() -> BasaltVioEstimator {
    BasaltVioEstimator::new(EstimatorConfig::default())
}

/// A packet of pixels that all have bearings, and of tracks of which each triangulates with
/// `baseline` to a point at four meters.
fn packet_at(
    e: &BasaltVioEstimator,
    frame_id: u64,
    timestamp_ns: i64,
    observations: &[TrackObservation],
    is_keyframe: bool,
    baseline: f64,
) -> Packet {
    let observations = observations.to_vec();
    let tracks = e
        .store
        .unconnected_tracks(&observations)
        .iter()
        .map(|t| {
            let candidates = e.store.candidates_of(&observations, *t);
            TrackTriangulation {
                track_id: *t,
                bearings: vec![true; candidates.len()],
                attempts: candidates
                    .iter()
                    .map(|c| {
                        let own = c.frame_id == frame_id && c.camera_id == 0;
                        attempt(if own { 0.0 } else { baseline }, Some(0.25))
                    })
                    .collect(),
                anchor_distance: 4.0f64.to_bits(),
                direction: true,
            }
        })
        .collect();
    Packet {
        frame_id,
        timestamp_ns,
        is_keyframe,
        bearings: vec![BearingOutcome { bearing: true, raw: true }; observations.len()],
        observations,
        tracks,
    }
}

fn collect(
    e: &mut BasaltVioEstimator,
    frame_id: u64,
    timestamp_ns: i64,
    observations: &[TrackObservation],
    is_keyframe: bool,
) -> Result<(), String> {
    let packet = packet_at(e, frame_id, timestamp_ns, observations, is_keyframe, 0.2);
    e.collect_observations(&packet).map_err(|x| x.message())
}

/// A packet that fails before any track is looked at.
fn collect_raw(
    e: &mut BasaltVioEstimator,
    frame_id: u64,
    timestamp_ns: i64,
    observations: &[TrackObservation],
) -> String {
    let packet = Packet {
        frame_id,
        timestamp_ns,
        is_keyframe: true,
        bearings: vec![BearingOutcome { bearing: true, raw: true }; observations.len()],
        observations: observations.to_vec(),
        tracks: Vec::new(),
    };
    e.collect_observations(&packet).unwrap_err().message()
}

fn frames(records: &[StoredObservation]) -> Vec<u64> {
    records.iter().map(|r| r.frame_id).collect()
}

fn order(e: &BasaltVioEstimator) -> Vec<u64> {
    e.store.landmarks.landmarks.keys().copied().collect()
}

/// What a frame showed.
struct Shown {
    run: FrameRun,
    attempted: bool,
    dof: usize,
    tables: Option<MargTables>,
    vel_bias: Vec<u64>,
    row_counts: [usize; 4],
    output: FrameOutput<u64>,
}

/// Runs one frame with a solver that leaves everything where it is.
fn process_with(
    e: &mut BasaltVioEstimator,
    frame_id: u64,
    timestamp_ns: i64,
    observations: &[TrackObservation],
    images: Option<Vec<OfImageData>>,
    linked: bool,
    retain_marg_data: bool,
    retain_trace: bool,
) -> Result<Shown, String> {
    let listed = observations.to_vec();
    let mut run = match (images, retain_marg_data, retain_trace) {
        (None, true, true) => e.process(frame_id, timestamp_ns, &listed),
        (images, true, true) => e.process_with_images(frame_id, timestamp_ns, images, &listed),
        (None, false, true) => e.process_without_marg_data(frame_id, timestamp_ns, &listed),
        (None, false, false) => {
            e.process_without_marg_data_no_trace(frame_id, timestamp_ns, &listed)
        }
        (images, packet, trace) => {
            e.process_adapter_frame(frame_id, timestamp_ns, images, &listed, packet, trace)
        }
    }
    .map_err(|x| x.message())?;
    assert_eq!((run.retain_marg_data, run.retain_trace), (retain_marg_data, retain_trace));
    let tracks = run.connected_cam0 + run.unconnected_cam0;
    let ratio = run.connected_cam0 as f64 / tracks as f64;
    run.choose_keyframe(e, ratio.to_bits());
    // The camera does not move: no baseline is long enough.
    let packet = packet_at(e, frame_id, timestamp_ns, observations, run.is_keyframe, 0.0);
    let attempted = run.observe(e, &packet, linked).map_err(|x| x.message())?;
    let problem = build_problem(&e.window, &e.store, &order(e));
    let dof = problem.state_dof();
    let had_prior = e.has_prior();
    let solver = attempted.then(|| SolverReport {
        factor_count: 1,
        rows: RowCounts { prior: 15, visual: 0, imu: 0, bias: 0 },
        status: "converged".to_string(),
    });
    let mut window = run.report(e, 0, solver);
    let mut tables = None;
    let mut vel_bias = Vec::new();
    let mut row_counts = [0; 4];
    if attempted {
        let planner = run.solved(e, &Vec::new(), &Vec::new());
        vel_bias = planner.plan.convert_states.clone();
        if run.planned(e, &planner.plan) {
            let aom = problem
                .pre_marginalization_snapshot(
                    planner.plan.boundary_state,
                    &planner.plan.drop_poses,
                    &e.last_lost_landmarks,
                    dof,
                )
                .map_err(|x| x.message())?;
            // An inertial factor has nine rows, that of the biases six.
            let mut rows: Vec<usize> = vec![aom.state_dof()];
            for _ in &aom.imu_links {
                rows.extend([9, 6]);
            }
            let counts = factor_row_counts(&rows, true, aom.imu_links.len());
            row_counts = [counts.prior, counts.visual, counts.imu, counts.bias];
            tables = Some(e.emit_pre_marg(&aom, &planner.plan));
            run.shifted(e, &planner.plan, true);
            window = window.shifted(e, had_prior);
        }
    }
    run.close(e);
    // The predicted state stands as the frame's number, the one behind the solver as a hundred more.
    let output = run.output(e, frame_id, Some(frame_id + 100), window);
    Ok(Shown { run, attempted, dof, tables, vel_bias, row_counts, output })
}

fn process(
    e: &mut BasaltVioEstimator,
    frame_id: u64,
    timestamp_ns: i64,
    observations: &[TrackObservation],
) -> Result<Shown, String> {
    let linked = frame_id > 0;
    process_with(e, frame_id, timestamp_ns, observations, None, linked, true, true)
}

fn process_lean(
    e: &mut BasaltVioEstimator,
    frame_id: u64,
    timestamp_ns: i64,
    observations: &[TrackObservation],
) -> Result<Shown, String> {
    let linked = frame_id > 0;
    process_with(e, frame_id, timestamp_ns, observations, None, linked, false, false)
}

fn replay(e: &mut BasaltVioEstimator) -> Vec<Shown> {
    (0..5)
        .map(|frame| {
            let timestamp_ns = frame as i64 * 1_000_000 + 1;
            let mut observation = obs(1, frame);
            observation.timestamp_ns = timestamp_ns;
            process(e, frame, timestamp_ns, &[observation]).unwrap()
        })
        .collect()
}

#[test]
fn unconnected_tracks_are_created_only_on_keyframes_and_count_successes() {
    let mut config = EstimatorConfig::default();
    config.scalar_mode = ScalarMode::ExtendedF64;
    let mut e = BasaltVioEstimator::new(config).with_camera_rig(2, 2).unwrap();
    let observations = |frame_id: u64, timestamp_ns: i64| {
        [0, 1].map(|camera_id| TrackObservation {
            track_id: 77,
            frame_id,
            timestamp_ns,
            camera_id,
            pixel: pixel(327.5 - 15.0 * camera_id as f64, 236.25),
        })
    };
    collect(&mut e, 1, 10, &observations(1, 10), false).unwrap();
    assert!(e.store.landmarks.landmarks.is_empty());

    // Camera 1 arrives first here; the camera-0 target and stereo candidate are still available.
    let frame = observations(2, 20);
    collect(&mut e, 2, 20, &[frame[1], frame[0]], true).unwrap();
    let landmark = &e.store.landmarks.landmarks[&77];
    assert_eq!(landmark.anchor_pose, 2);
    assert_eq!(landmark.anchor_camera_id, 0);
    assert_eq!(landmark.connected_observations, 4);
    assert_eq!(e.num_points_kf.get(&2), Some(&1));
    // Host identity uses the native timestamp, not the logical frame index or the first-arriving
    // camera in the input packet.
    let host = HostKey { frame_id: 2, camera_id: 0, timestamp_ns: 20 };
    assert_eq!(e.store.native_host_keys, vec![host]);

    // A keyframe candidate with no earlier baseline is not triangulated; its denominator must
    // therefore be zero, rather than an active landmark count delta inherited from the previous
    // window.
    let single = TrackObservation {
        track_id: 88,
        frame_id: 3,
        timestamp_ns: 30,
        camera_id: 0,
        pixel: pixel(327.5, 236.25),
    };
    collect(&mut e, 3, 30, &[single], true).unwrap();
    assert_eq!(e.num_points_kf.get(&3), Some(&0));
    assert_eq!(e.store.native_host_keys, vec![host]);
}

#[test]
fn factor_projection_backfills_native_keyframe_membership_for_1288_and_2018() {
    let mut e = estimator();
    for frame_id in [21_u64, 35, 42, 49] {
        e.window.states.push(state(frame_id, true));
    }
    // Frame 28 has already converted to a pose-only keyframe. The classifier must still recognize
    // it when rebuilding a delayed landmark's factor projection.
    e.window.poses.push(WindowPose { frame_id: 28, timestamp_ns: 28, is_keyframe: true });
    let mut candidates_1288: Vec<TrackHistory> =
        [21_u64, 22, 27, 28, 35, 42, 48, 49, 50].into_iter().map(|f| history(f, 0)).collect();
    let keyframes = e.window.keyframe_frame_ids(50, false);
    assert_eq!(keyframes, vec![21, 28, 35, 42, 49]);
    let projected_1288 = project_factor_observations(&candidates_1288, 50, &keyframes);
    assert_eq!(frames(&projected_1288), vec![21, 28, 35, 42, 49, 50]);
    assert_eq!(candidates_1288.len(), 9);

    let candidates_2018: Vec<TrackHistory> =
        [42_u64, 43, 48, 49, 50].into_iter().map(|f| history(f, 0)).collect();
    let projected_2018 = project_factor_observations(&candidates_2018, 50, &keyframes);
    assert_eq!(frames(&projected_2018), vec![42, 49, 50]);
    assert_eq!(candidates_2018.len(), 5);

    // At the following non-keyframe event, the sample after KF49 remains in the native factor
    // block; older non-keyframe samples remain excluded and the current event is included
    // independently.
    candidates_1288.push(history(51, 0));
    let projected_1288_next = project_factor_observations(&candidates_1288, 51, &keyframes);
    assert_eq!(frames(&projected_1288_next), vec![21, 28, 35, 42, 49, 50, 51]);
}

#[test]
fn active_factor_projection_drops_non_keyframe_before_next_solve() {
    let mut e = estimator();
    for frame_id in [21_u64, 28, 35, 42, 49] {
        e.window.states.push(state(frame_id, true));
    }
    e.store.landmarks.insert(1288, 28, 0);
    e.store.window_observations.insert(
        1288,
        [21_u64, 28, 35, 42, 48, 49].into_iter().map(|frame_id| stored(frame_id, 0)).collect(),
    );
    let observation = TrackObservation {
        track_id: 1288,
        frame_id: 50,
        timestamp_ns: 50,
        camera_id: 0,
        pixel: pixel(327.5, 236.25),
    };
    collect(&mut e, 50, 50, &[observation], false).unwrap();
    assert_eq!(frames(&e.store.window_observations[&1288]), vec![21, 28, 35, 42, 49, 50]);
}

#[test]
fn new_keyframe_keeps_existing_landmark_active_nonkeyframe_observations() {
    let mut e = estimator();
    for frame_id in [0, 5, 6] {
        e.window.states.push(WindowState { linearized: false, ..state(frame_id, frame_id == 0) });
    }
    e.store.landmarks.insert(118, 0, 0);
    e.store
        .window_observations
        .insert(118, [0, 5, 6].into_iter().map(|frame_id| stored(frame_id, 0)).collect());
    let current = obs(118, 7);
    let expected_pixel = current.pixel;
    e.of_images.insert(
        7,
        vec![OfImageData {
            frame_id: 7,
            timestamp_ns: current.timestamp_ns,
            camera_id: 0,
            valid: true,
        }],
    );
    collect(&mut e, 7, current.timestamp_ns, &[current], true).unwrap();
    assert_eq!(frames(&e.store.window_observations[&118]), vec![0, 5, 6, 7]);
    assert_eq!(e.of_observations[&7].len(), 1);
    assert_eq!(e.of_observations[&7][0].x, expected_pixel.x);
    assert_eq!(e.of_observations[&7][0].y, expected_pixel.y);
}

#[test]
fn duplicate_current_observation_fails_before_any_factor_mutation() {
    let mut e = estimator();
    let current = obs(77, 5);
    let error = collect_raw(&mut e, 5, 6, &[current, current]);
    assert!(error.contains("duplicate current observation identity"));
    assert!(e.store.landmarks.landmarks.is_empty());
    assert!(e.store.landmarks.observations.is_empty());
    assert!(e.store.window_observations.is_empty());
    assert!(e.store.track_history.is_empty());
    assert!(e.store.landmark_world.is_empty());
}

#[test]
fn current_observation_timestamp_mismatch_fails_without_rewriting_history() {
    let mut e = estimator();
    let mut current = obs(77, 5);
    current.timestamp_ns += 1;
    let error = collect_raw(&mut e, 5, 6, &[current]);
    assert!(error.contains("does not match current timestamp"));
    assert!(e.store.track_history.is_empty());
    assert!(e.store.landmarks.landmarks.is_empty());
    assert!(e.store.landmarks.observations.is_empty());
    assert!(e.store.window_observations.is_empty());
}

#[test]
fn duplicate_history_fails_before_landmark_or_factor_insertion() {
    let mut e = estimator();
    let entry = TrackHistory { pixel: pixel(320.0, 240.0), ..history(4, 0) };
    e.store.track_history.insert(77, vec![entry, entry]);
    let error = collect_raw(&mut e, 5, 6, &[obs(77, 5)]);
    assert!(error.contains("duplicate track history identity"));
    assert!(e.store.landmarks.landmarks.is_empty());
    assert!(e.store.landmarks.observations.is_empty());
    assert!(e.store.window_observations.is_empty());
    assert!(e.store.landmark_world.is_empty());
    assert_eq!(e.store.track_history[&77].len(), 2);
}

#[test]
fn invalid_historical_bearing_fails_before_landmark_insertion() {
    let mut config = EstimatorConfig::default();
    config.scalar_mode = ScalarMode::ExtendedF64;
    let mut e = BasaltVioEstimator::new(config);
    // This camera id is deliberately absent from the one-camera rig. The all-candidate bearing
    // preflight must reject it before insertion.
    e.store.track_history.insert(77, vec![history(4, 1)]);
    let error = collect(&mut e, 5, 6, &[obs(77, 5)], true)
        .expect_err("invalid historical camera must fail closed");
    assert!(error.contains("invalid DS history observation"));
    assert!(e.store.landmarks.landmarks.is_empty());
    assert!(e.store.landmarks.observations.is_empty());
    assert!(e.store.window_observations.is_empty());
    assert!(e.store.landmark_world.is_empty());
}

#[test]
fn later_track_failure_does_not_commit_earlier_track_mutations() {
    let mut e = estimator();
    // Preserve populated hosts, not merely an empty default, when a later track aborts the packet.
    let hosts = vec![HostKey { frame_id: 1, camera_id: 0, timestamp_ns: 100 }];
    e.store.native_host_keys = hosts.clone();
    e.store.landmarks.insert(1, 1, 0);
    let earlier_record = e.store.landmarks.landmarks[&1];
    e.store.window_observations.insert(1, vec![stored(1, 0)]);
    e.store.track_history.insert(2, vec![history(4, 1)]);
    let earlier_history = e.store.track_history.clone();
    let earlier_factor_map = e.store.window_observations.clone();

    let error = collect(&mut e, 5, 6, &[obs(1, 5), obs(2, 5)], true)
        .expect_err("second track's malformed history must abort the packet");
    assert!(error.contains("invalid DS history observation"));
    assert_eq!(e.store.landmarks.landmarks[&1], earlier_record);
    assert!(e.store.landmarks.observations.is_empty());
    assert_eq!(e.store.track_history, earlier_history);
    assert_eq!(e.store.window_observations, earlier_factor_map);
    assert_eq!(e.store.native_host_keys, hosts);
    assert!(e.store.landmark_world.is_empty());
}

#[test]
fn native_host_cleanup_waits_for_last_observed_landmark() {
    let mut e = estimator();
    let first = HostKey { frame_id: 10, camera_id: 0, timestamp_ns: 1000 };
    let second = HostKey { frame_id: 20, camera_id: 0, timestamp_ns: 2000 };
    e.store.native_host_keys = vec![first, second];
    for (track, host) in [(1, 10), (2, 10), (3, 20)] {
        e.store.landmarks.insert(track, host, 0);
        e.store.window_observations.insert(track, vec![stored(30, 0)]);
    }
    e.store.window_observations.remove(&1);
    assert!(e.store.prune_native_host_order().is_empty());
    assert_eq!(e.store.native_host_keys, vec![first, second]);
    e.store.window_observations.remove(&2);
    assert_eq!(e.store.prune_native_host_order(), vec![first]);
    assert_eq!(e.store.native_host_keys, vec![second]);
    e.store.landmarks.landmarks.remove(&3);
    assert_eq!(e.store.prune_native_host_order(), vec![second]);
    assert!(e.store.native_host_keys.is_empty());
}

#[test]
fn duplicate_existing_factor_map_fails_before_association() {
    let mut e = estimator();
    e.store.landmarks.insert(7, 1, 0);
    e.store.window_observations.insert(
        7,
        vec![stored(1, 0), StoredObservation { pixel: pixel(321.0, 240.0), ..stored(1, 0) }],
    );
    let earlier_record = e.store.landmarks.landmarks[&7];
    let error = collect(&mut e, 5, 6, &[obs(7, 5)], false)
        .expect_err("duplicate existing factor identity must fail closed");
    assert!(error.contains("duplicate factor observation identity"));
    assert_eq!(e.store.landmarks.landmarks[&7], earlier_record);
    assert!(e.store.landmarks.observations.is_empty());
    assert_eq!(e.store.window_observations[&7].len(), 2);
    assert!(e.store.track_history.is_empty());
}

#[test]
fn current_factor_identity_collision_fails_without_history() {
    let mut e = estimator();
    e.store.landmarks.insert(7, 1, 0);
    // Deliberately leave track_history absent: the factor projection can outlive that delayed store
    // during a loss/rebinding boundary.
    e.store.window_observations.insert(7, vec![stored(5, 0)]);
    let earlier_factor_map = e.store.window_observations.clone();
    let error = collect(&mut e, 5, 6, &[obs(7, 5)], false)
        .expect_err("current factor identity collision must fail closed");
    assert!(error.contains("duplicate current factor identity"));
    assert_eq!(e.store.window_observations, earlier_factor_map);
    assert!(e.store.track_history.is_empty());
    assert!(e.store.landmarks.observations.is_empty());
}

#[test]
fn lost_and_host_drop_boundaries_keep_factor_map_and_database_separate() {
    let mut e = estimator();
    e.store.landmarks.insert(1288, 28, 0);
    e.store.window_observations.insert(1288, vec![stored(50, 0)]);

    // Loss is marked before solve, so the pre-solve factor-visible map still contains the track.
    // Deferred removal then removes the DB record, after which the production retain step drops its
    // map entry.
    e.store.landmarks.mark_frame_end_deferred(&Vec::new());
    assert_eq!(e.store.landmarks.landmarks[&1288].status, LandmarkStatus::Lost);
    assert!(e.store.window_observations.contains_key(&1288));
    assert_eq!(e.store.landmarks.lost_ids(), vec![1288]);
    assert_eq!(e.store.landmarks.remove_deferred_lost(), 1);
    let left = e.store.landmarks.landmarks.clone();
    e.store.window_observations.retain(|track_id, _| left.contains_key(track_id));
    assert!(!e.store.landmarks.landmarks.contains_key(&1288));
    assert!(!e.store.window_observations.contains_key(&1288));

    // Host deletion is independent of observation-frame cleanup and does not reanchor a surviving
    // landmark.
    e.store.landmarks.insert(2018, 49, 0);
    assert_eq!(e.store.landmarks.remove_host_landmarks(&vec![49]), 1);
    assert!(!e.store.landmarks.landmarks.contains_key(&2018));
}

#[test]
fn lost_landmark_reassociation_reactivates_without_duplicate_identity() {
    let mut e = estimator();
    e.store.landmarks.insert(1288, 28, 0);
    let record = e.store.landmarks.landmarks.get_mut(&1288).unwrap();
    record.status = LandmarkStatus::Lost;
    record.missed_frames = 1;
    e.store.window_observations.insert(1288, vec![stored(4, 0)]);
    collect(&mut e, 5, 6, &[obs(1288, 5)], false)
        .expect("a previously lost but retained landmark can be observed again");
    let record = &e.store.landmarks.landmarks[&1288];
    assert_eq!(record.status, LandmarkStatus::Active);
    assert_eq!(record.missed_frames, 0);
    assert_eq!(record.connected_observations, 1);
    assert_eq!(e.store.landmarks.observations.len(), 1);
    assert_eq!(e.store.track_history[&1288].len(), 1);
    assert_eq!(e.store.window_observations[&1288].len(), 1);
    assert_eq!(e.store.window_observations[&1288][0].frame_id, 5);
}

#[test]
fn first_camera_initialization_matches_upstream_accel_alignment() {
    let times = vec![90, 100];
    let accel = [Vector3::new(1.0, 0.0, 0.0), Vector3::new(0.0, 2.0, 0.0)];
    let first = accel[initial_sample(&times, 100).unwrap()];
    let rotation = UnitQuaternion::rotation_between(&first, &Vector3::z()).unwrap();
    let aligned = rotation.transform_vector(&Vector3::y_axis());
    assert!((aligned - Vector3::z()).norm() < 1.0e-12);
}

#[test]
fn adapter_bootstrap_uses_first_future_imu_when_frame_interval_is_empty() {
    // The only sample lies behind the frame.
    assert_eq!(initial_sample(&vec![125], 100), Some(0));
    let rotation =
        UnitQuaternion::rotation_between(&Vector3::new(0.0, 2.0, 0.0), &Vector3::z()).unwrap();
    let aligned = rotation.transform_vector(&Vector3::y_axis());
    assert!((aligned - Vector3::z()).norm() < 1.0e-6);
    assert_ne!(rotation, UnitQuaternion::identity());
    // A frame without inertial samples enters the window without a link.
    let mut e = estimator();
    let shown = process_with(&mut e, 0, 100, &[], None, false, true, true).unwrap();
    assert!(shown.run.is_keyframe && e.window.imu_links.is_empty());
}

#[test]
fn first_attitudes_come_from_the_first_sample_at_or_after_the_frame() {
    let times = vec![90, 100];
    assert_eq!(initial_sample(&times, 100), Some(1));
    assert_eq!(initial_sample(&times, 80), Some(0));
    assert_eq!(initial_sample(&times, 101), Some(1));
    assert_eq!(initial_sample(&Vec::new(), 100), None);
}

#[test]
fn fallback_interval_uses_last_packet_for_trailing_endpoint() {
    let (steps, fallback) = integration_steps(&vec![10_000_000, 20_000_000], 0, 25_000_000);
    assert!(fallback);
    assert_eq!(
        steps,
        Some(vec![
            ImuStep { sample: 0, dt_ns: 10_000_000, t_ns: 10_000_000 },
            ImuStep { sample: 1, dt_ns: 10_000_000, t_ns: 20_000_000 },
            ImuStep { sample: 1, dt_ns: 5_000_000, t_ns: 25_000_000 },
        ])
    );
    // Each step moves by its velocity and half its acceleration.
    let accel = [1.0, 3.0];
    let (mut position, mut velocity) = (0.0f64, 0.0f64);
    for step in steps.unwrap() {
        let dt = step.dt_ns as f64 * 1e-9;
        position += velocity * dt + 0.5 * accel[step.sample] * dt * dt;
        velocity += accel[step.sample] * dt;
    }
    let reference = 0.5 * 1.0 * 1e-4 + 0.01 * 0.01 + 0.5 * 3.0 * 1e-4 + 0.04 * 0.005
        + 0.5 * 3.0 * 0.25e-4;
    assert!((position - reference).abs() < 1.0e-12);
}

#[test]
fn half_open_reader_interval_keeps_leading_imu_dt() {
    let (steps, fallback) = integration_steps(&vec![10, 20], 0, 20);
    let steps = steps.unwrap();
    assert!(!fallback);
    let delta_time: f64 = steps.iter().map(|s| s.dt_ns as f64 * 1e-9).sum();
    assert!((delta_time - 20.0e-9).abs() < 1.0e-15);
    assert!((9.81 * delta_time - 9.81 * 20.0e-9).abs() < 1.0e-12);
}

#[test]
fn intervals_without_usable_samples_have_no_steps() {
    assert_eq!(integration_steps(&vec![5], 10, 10), (None, true));
    assert_eq!(integration_steps(&vec![5, 25], 10, 20), (None, true));
    assert_eq!(integration_steps(&vec![15, 12], 10, 20), (None, true));
    assert_eq!(samples_within(&vec![10, 11, 20, 21], 10, 20), vec![1, 2]);
}

#[test]
fn upstream_keyframe_counter_uses_strict_min_gap_for_frames_zero_to_ten() {
    let mut e = estimator();
    let decisions = (0..=10)
        // A low connected ratio makes every frame eligible once the counter opens.
        .map(|_| e.decide_keyframe(0, 100, 0.0f64.to_bits()))
        .collect::<Vec<_>>();
    assert_eq!(
        decisions,
        vec![true, false, false, false, false, false, false, true, false, false, false]
    );
}

#[test]
fn keyframes_wait_for_tracks_and_a_low_ratio() {
    let mut e = estimator();
    e.decide_keyframe(0, 0, 0);
    for _ in 0..9 {
        assert!(!e.decide_keyframe(0, 0, 0.0f64.to_bits()));
        assert!(!e.decide_keyframe(70, 30, 0.7f64.to_bits()));
        assert!(!e.decide_keyframe(70, 30, f64::NAN.to_bits()));
    }
    assert!(e.decide_keyframe(69, 31, 0.69f64.to_bits()));
}

#[test]
fn degenerate_pending_track_does_not_create_placeholder_landmark() {
    let mut e = estimator();
    process(&mut e, 0, 1, &[obs(42, 0)]).unwrap();
    assert!(!e.store.landmarks.landmarks.contains_key(&42));
}

#[test]
fn synthetic_window_has_cross_blocks_and_shifts() {
    let mut e = estimator();
    let outputs = replay(&mut e);
    assert!(outputs.iter().any(|output| output.dof >= 30));
    let shifted = outputs.last().unwrap();
    let tables = shifted.tables.as_ref().unwrap();
    // A marginal packet is captured before the active-window shift, so its full frame tables
    // intentionally differ from the post-shift public counts. The packet must retain at least the
    // surviving blocks and may additionally contain the selected/dropped blocks.
    assert!(
        tables.frame_poses.len() + tables.frame_states.len()
            >= e.active_pose_count() + e.active_state_count()
    );
    assert!(tables
        .aom_order
        .windows(2)
        .all(|blocks| blocks[0].offset + blocks[0].dof == blocks[1].offset));
    assert_eq!(shifted.vel_bias, vec![0]);
    let solved = outputs
        .iter()
        .find(|output| output.attempted)
        .expect("the fifth state starts optimization");
    assert!(solved.row_counts[2] > 0); // IMU rows
    assert!(solved.row_counts[3] > 0); // bias random walk rows

    // The window shifts at `size >= max_states` and retains the boundary plus latest state, hence
    // two full states for max_states=3.
    assert_eq!(e.active_state_count(), 2);
    assert!(e.has_prior());
    let packet_latest = tables
        .frame_states
        .iter()
        .find(|state| state.is_latest)
        .expect("pre-marg packet keeps the newest state table entry");
    assert!(!packet_latest.linearized);
    let boundary_id = tables
        .aom_order
        .iter()
        .rev()
        .find(|block| block.kind.name() == "state")
        .expect("mixed AOM keeps the FEJ boundary state")
        .frame_id;
    assert!(e
        .window
        .states
        .iter()
        .find(|state| state.frame_id == boundary_id)
        .is_some_and(|state| state.linearized));
    assert_eq!(e.active_aom_dof(), 6 * e.active_pose_count() + 30);
    assert_eq!(e.active_state_dof(), 30);
}

#[test]
fn marginal_packet_keeps_images_for_a_keyframe_selected_for_removal() {
    let mut e = estimator();
    e.window.poses.push(WindowPose { frame_id: 1, timestamp_ns: 10, is_keyframe: true });
    e.window.states.push(WindowState {
        frame_id: 2,
        timestamp_ns: 20,
        is_keyframe: true,
        is_latest: true,
        linearized: false,
    });
    for frame_id in [1_u64, 2, 9] {
        let image = |camera_id| OfImageData {
            frame_id,
            timestamp_ns: frame_id as i64 * 10,
            camera_id,
            valid: true,
        };
        e.of_images.insert(frame_id, vec![image(0), image(1)]);
        e.of_observations.insert(
            frame_id,
            vec![OfObservationData {
                frame_id,
                track_id: 100 + frame_id,
                camera_id: 0,
                x: (frame_id as f64).to_bits(),
                y: (-(frame_id as f64)).to_bits(),
            }],
        );
    }
    // Frame 9 is no longer in the post-shift window, but the marginal packet is assembled before
    // erasing the selected keyframe.
    e.last_kf_to_marg = vec![(9, 10)];
    let data = e.emit_marg();
    assert_eq!(
        data.of_images.iter().map(|image| image.frame_id).collect::<Vec<_>>(),
        vec![1, 1, 2, 2, 9, 9]
    );
    assert_eq!(
        data.of_observations.iter().map(|o| o.frame_id).collect::<Vec<_>>(),
        vec![1, 2, 9]
    );
    assert_eq!(data.kfs_to_marg, vec![9]);
    assert_eq!(data.keyframes, vec![1, 2]);
    assert!(!data.used_imu);
    assert_eq!(data.aom_order, aom_order(&e.window.poses, &e.window.states));
    assert_eq!(data.aom_order[1].offset, 6);
    assert_eq!(data.aom_order[1].kind, BlockKind::State);
}

#[test]
fn world_cache_drops_tracks_removed_from_landmark_database() {
    let mut e = estimator();
    e.store.landmarks.insert(7, 1, 0);
    e.store.landmarks.insert(8, 1, 0);
    e.store.landmark_world.extend([7, 8, 99]);
    e.store.landmarks.mark_frame_end_deferred(&vec![7]);
    assert_eq!(e.store.landmarks.remove_deferred_lost(), 1);
    e.store.prune_landmark_world_cache();
    assert!(e.store.landmark_world.contains(&7));
    assert!(!e.store.landmark_world.contains(&8));
    assert!(!e.store.landmark_world.contains(&99));
}

#[test]
fn old_kf_connected_ratio_counts_stereo_observations_like_upstream() {
    let mut e = estimator();
    e.store.landmarks.insert(7, 35, 0);
    e.num_points_kf.insert(35, 51);
    e.store.window_observations.insert(7, vec![stored(51, 0), stored(51, 1), stored(50, 0)]);
    let (connected, created) = e.connected_for_kf(35, 51);
    assert_eq!(connected as f64 / created as f64, 2.0 / 51.0);
    assert_eq!(e.connected_for_kf(34, 51), (0, 0));
}

#[test]
fn raw_image_capture_leaves_mapper_off_vio_trace_identical() {
    let mut plain = estimator();
    let mut captured = estimator();
    for frame in 0..5_u64 {
        let timestamp_ns = frame as i64 * 1_000_000 + 1;
        let mut observation = obs(1, frame);
        observation.timestamp_ns = timestamp_ns;
        let left = process(&mut plain, frame, timestamp_ns, &[observation]).unwrap();
        let image = OfImageData { frame_id: frame, timestamp_ns, camera_id: 0, valid: true };
        let right = process_with(
            &mut captured,
            frame,
            timestamp_ns,
            &[observation],
            Some(vec![image]),
            frame > 0,
            true,
            true,
        )
        .unwrap();
        assert_eq!(left.run, right.run);
        assert_eq!((left.attempted, left.dof), (right.attempted, right.dof));
        assert_eq!(left.vel_bias, right.vel_bias);
        assert_eq!(plain.window.states, captured.window.states);
        assert_eq!(plain.window.poses, captured.window.poses);
        assert_eq!(plain.store.track_history, captured.store.track_history);
        assert_eq!(
            plain.store.landmarks.landmarks,
            captured.store.landmarks.landmarks
        );
    }
    assert!(plain.of_images.is_empty());
    assert_eq!(captured.of_images.keys().copied().collect::<Vec<_>>(), vec![0]);
}

#[test]
fn no_marg_data_mode_preserves_solver_and_window_outputs() {
    let mut retained = estimator();
    let mut suppressed = estimator();
    for frame in 0..5_u64 {
        let timestamp_ns = frame as i64 * 1_000_000 + 1;
        let mut observation = obs(1, frame);
        observation.timestamp_ns = timestamp_ns;
        let expected = process(&mut retained, frame, timestamp_ns, &[observation]).unwrap();
        let actual = process_with(
            &mut suppressed,
            frame,
            timestamp_ns,
            &[observation],
            None,
            frame > 0,
            false,
            true,
        )
        .unwrap();
        assert_eq!(actual.run.is_keyframe, expected.run.is_keyframe);
        assert_eq!(actual.run.connected_cam0, expected.run.connected_cam0);
        assert_eq!(actual.run.unconnected_cam0, expected.run.unconnected_cam0);
        assert_eq!(suppressed.active_state_count(), retained.active_state_count());
        assert_eq!(suppressed.active_pose_count(), retained.active_pose_count());
        assert_eq!(suppressed.window.states, retained.window.states);
        assert_eq!(actual.output.post_opt_state, expected.output.post_opt_state);
        assert_eq!(actual.output.window, expected.output.window);
        assert_eq!(actual.output.packet, PacketSource::Nothing);
        assert_ne!(expected.output.packet, PacketSource::Nothing);
        // A frame that keeps its trace keeps the way back open.
        assert!(!suppressed.no_output_mode_active());
    }
}

#[test]
fn no_trace_path_preserves_solver_and_omits_optional_payloads() {
    let mut retained = estimator();
    let mut suppressed = estimator();
    for frame in 0..5_u64 {
        let timestamp_ns = frame as i64 * 1_000_000 + 1;
        let mut observation = obs(1, frame);
        observation.timestamp_ns = timestamp_ns;
        let expected = process(&mut retained, frame, timestamp_ns, &[observation]).unwrap();
        let actual = process_lean(&mut suppressed, frame, timestamp_ns, &[observation]).unwrap();
        assert_eq!(actual.run.is_keyframe, expected.run.is_keyframe);
        assert_eq!(actual.run.connected_cam0, expected.run.connected_cam0);
        assert_eq!(actual.run.unconnected_cam0, expected.run.unconnected_cam0);
        assert_eq!(suppressed.active_state_count(), retained.active_state_count());
        assert_eq!(suppressed.active_pose_count(), retained.active_pose_count());
        assert_eq!(actual.attempted, expected.attempted);
        assert_eq!(actual.dof, expected.dof);
        assert!(!actual.run.retain_marg_data && !actual.run.retain_trace);
        assert!(suppressed.no_output_mode_active());
    }
}

#[test]
fn no_output_mode_allows_lean_continuation_and_rejects_full_return() {
    let mut e = estimator();
    process(&mut e, 0, 1, &[obs(1, 0)]).unwrap();
    process_lean(&mut e, 1, 2, &[obs(1, 1)]).unwrap();
    process_lean(&mut e, 2, 3, &[obs(1, 2)]).unwrap();
    let error = process(&mut e, 3, 4, &[obs(1, 3)])
        .err()
        .expect("full output must be rejected after lean mode starts");
    assert!(error.contains("optical-flow payloads"));
    assert!(error.contains("recreate"));
}

#[test]
fn failed_lean_call_does_not_latch_full_mode_out() {
    let mut e = estimator();
    let mut invalid = obs(1, 0);
    invalid.camera_id = 7;
    process_lean(&mut e, 0, 1, &[invalid])
        .err()
        .expect("an observation from an unconfigured camera must fail");
    assert!(!e.no_output_mode_active());
    let retried = process(&mut e, 1, 2, &[obs(1, 1)])
        .expect("a failed lean call must not block a full retry");
    assert_eq!(retried.run.frame_id, 1);
    assert!(!e.no_output_mode_active());
}

#[test]
fn upstream_initialization_gate_defers_lm_until_fifth_state() {
    let mut e = estimator();
    let outputs = replay(&mut e);
    for output in outputs.iter().take(4) {
        assert!(!output.attempted);
    }
    assert!(outputs[4].attempted);
    assert!(e.opt_started);
    for (i, shown) in outputs.iter().take(4).enumerate() {
        let output = &shown.output;
        assert!(!output.window.attempted);
        assert_eq!(output.window.status, "initialization_gate");
        assert!(!output.window.state_writeback);
        assert_eq!(output.window.factor_count, 0);
        assert_eq!(output.active_state_count, i + 1);
        assert_eq!(output.window.state_dof, 15 * (i + 1));
        // The trace keeps the predicted state.
        assert_eq!(output.post_opt_state, i as u64);
        assert_eq!(output.packet, PacketSource::Window);
    }
    let fifth = &outputs[4].output;
    assert!(fifth.window.attempted && fifth.window.state_writeback && fifth.window.prior_carry);
    assert_eq!(fifth.window.status, "converged");
    assert_eq!(fifth.post_opt_state, 104);
    assert_eq!(fifth.active_state_count, 2);
    assert_eq!(fifth.packet, PacketSource::BeforeShift);
}

#[test]
fn frames_that_share_a_number_do_not_overfill_the_window() {
    let mut e = estimator();
    for frame_id in [3, 3, 4, 4] {
        e.window.states.push(state(frame_id, frame_id == 3));
    }
    e.opt_started = true;
    let shown = process(&mut e, 9, 50, &[]).unwrap();
    assert!(shown.attempted);
    let left: Vec<(u64, bool)> = e.window.states.iter().map(|s| (s.frame_id, s.is_latest)).collect();
    // Both states of frame 3 became poses, and both of frame 4 went with the older of them.
    assert_eq!(left, vec![(9, true)]);
    assert_eq!(e.window.poses.len(), 2);
    assert!(shown.output.active_state_count < e.config.window.max_states);
}

#[test]
fn synthetic_stereo_inertial_replay_is_finite_bounded_and_deterministic() {
    let mut first = estimator();
    let mut second = estimator();
    for frame in 0..8 {
        let observation = obs(1, frame);
        let a = process(&mut first, frame, frame as i64 + 1, &[observation]).unwrap();
        let b = process(&mut second, frame, frame as i64 + 1, &[observation]).unwrap();
        assert_eq!(format!("{:?}", a.tables), format!("{:?}", b.tables));
        assert_eq!(format!("{first:?}"), format!("{second:?}"));
    }
    assert!(first.active_state_count() <= 3);
}

#[test]
fn refused_frames_change_nothing() {
    let mut e = estimator();
    process(&mut e, 0, 5, &[obs(1, 0)].map(|o| TrackObservation { timestamp_ns: 5, ..o })).unwrap();
    let before = format!("{e:?}");
    let open = |e: &mut BasaltVioEstimator, t: i64, images: Option<Vec<OfImageData>>| {
        FrameRun::open(e, 1, t, images, &Vec::new(), true, true).unwrap_err()
    };
    let image = OfImageData { frame_id: 1, timestamp_ns: 6, camera_id: 0, valid: true };
    assert_eq!(open(&mut e, 5, None).message(), "non-monotonic frame timestamp");
    assert_eq!(open(&mut e, 7, Some(vec![image])), EstimatorError::ImagePayload);
    let torn = OfImageData { valid: false, ..image };
    assert_eq!(open(&mut e, 6, Some(vec![torn])), EstimatorError::ImagePayload);
    assert_eq!(open(&mut e, 6, Some(vec![image, image])), EstimatorError::ImageCamera);
    assert_eq!(format!("{e:?}"), before);
    // Images are kept in the order of their cameras.
    let second = OfImageData { camera_id: 1, ..image };
    FrameRun::open(&mut e, 1, 6, Some(vec![second, image]), &Vec::new(), true, true).unwrap();
    assert_eq!(e.of_images[&1], vec![image, second]);
}

#[test]
fn every_fault_of_a_packet_is_named() {
    let mut e = estimator();
    assert_eq!(
        collect_raw(&mut e, 5, 6, &[obs(3, 4)]),
        "observation frame 4 does not match current frame 5 for track 3 camera 0"
    );
    let blind = |bearing, raw| Packet {
        frame_id: 5,
        timestamp_ns: 6,
        is_keyframe: false,
        observations: vec![obs(3, 5)],
        bearings: vec![BearingOutcome { bearing, raw }],
        tracks: Vec::new(),
    };
    assert_eq!(e.collect_observations(&blind(false, true)), Err(EstimatorError::Bearing));
    assert_eq!(e.collect_observations(&blind(true, false)), Err(EstimatorError::RawBearing));
    e.store.track_history.insert(3, vec![history(5, 0)]);
    assert_eq!(
        collect_raw(&mut e, 5, 6, &[obs(3, 5)]),
        "duplicate history observation identity for track 3 at frame 5 camera 0"
    );
    let rebound = TrackHistory { timestamp_ns: 5, ..history(6, 0) };
    e.store.track_history.insert(3, vec![history(5, 0), rebound]);
    assert_eq!(
        collect_raw(&mut e, 7, 8, &[obs(3, 7)]),
        "timestamp 5 camera 0 is bound to frames 5 and 6"
    );
    e.store.track_history.insert(3, vec![history(5, 0)]);
    e.store.window_observations.insert(3, vec![stored(5, 0)]);
    assert_eq!(
        collect_raw(&mut e, 7, 8, &[obs(3, 7)]),
        "factor/history pixel mismatch for track 3 at frame 5 camera 0"
    );
}

#[test]
fn builders_check_what_they_take_over() {
    assert_eq!(
        estimator().with_camera_rig(2, 1).unwrap_err().message(),
        "camera rig requires equal non-empty camera/extrinsic arrays, got 2 and 1"
    );
    assert_eq!(
        estimator().with_imu_calibration(vec![0; 8], vec![0; 12]).unwrap_err().message(),
        "IMU calibration requires 9 accel and 12 gyro parameters, got 8 and 12"
    );
    let mut broken = vec![0u64; 12];
    broken[11] = f64::NAN.to_bits();
    assert_eq!(
        estimator().with_imu_calibration(vec![0; 9], broken).unwrap_err(),
        EstimatorError::CalibrationValue
    );
    let accel: Vec<u64> = (0..9).map(|i| (i as f64).to_bits()).collect();
    let e = estimator().with_imu_calibration(accel.clone(), vec![0; 12]).unwrap();
    assert_eq!(e.calib_accel_bias, accel);
    let noise = NoiseModel {
        valid: true,
        gyro_density: 0.02f64.to_bits(),
        accel_density: 0.3f64.to_bits(),
    };
    assert!(estimator().with_imu_noise(noise, noise).is_ok());
    let none = NoiseModel { gyro_density: 0, ..noise };
    assert_eq!(estimator().with_imu_noise(none, noise).unwrap_err(), EstimatorError::NoiseDensity);
    let torn = NoiseModel { valid: false, ..noise };
    assert_eq!(
        estimator().with_imu_noise(noise, torn).unwrap_err().message(),
        "IMU measurement/bias noise densities must be finite and positive"
    );
}

#[test]
fn the_first_good_attempt_is_taken() {
    let attempts = vec![
        attempt(0.04, Some(0.5)),
        attempt(0.2, None),
        attempt(0.2, Some(-1.0)),
        attempt(0.2, Some(3.0)),
        attempt(0.05, Some(2.9)),
        attempt(1.0, Some(0.5)),
    ];
    assert_eq!(select_attempt(&attempts), Some(4));
    assert_eq!(select_attempt(&attempts[..4].to_vec()), None);
}

#[test]
fn candidates_are_tried_by_time_camera_and_frame() {
    let list = vec![history(9, 1), history(3, 0), history(9, 0), history(4, 1)];
    let sorted = candidate_sort(&list);
    let ids: Vec<(u64, u16)> = sorted.iter().map(|h| (h.frame_id, h.camera_id)).collect();
    assert_eq!(ids, vec![(3, 0), (4, 1), (9, 0), (9, 1)]);
}

#[test]
fn landmark_table_counts_and_forgets() {
    let mut db = ObservationDb::new();
    db.insert(1, 10, 0);
    db.insert(2, 20, 1);
    db.associate(1, 10);
    db.associate(1, 11);
    assert_eq!(db.landmarks[&1].connected_observations, 2);
    assert!(db.is_live(1) && !db.is_live(3));
    assert_eq!(db.live_count(), 2);
    db.remove_frame_observations(&vec![10]);
    assert_eq!(db.observations.len(), 1);
    db.landmarks.get_mut(&2).unwrap().status = LandmarkStatus::Removed;
    assert_eq!(db.live_count(), 1);
}

#[test]
fn written_back_landmarks_move_with_their_hosts() {
    let mut e = estimator();
    e.window.poses.push(WindowPose { frame_id: 4, timestamp_ns: 4, is_keyframe: true });
    e.window.states.push(state(6, true));
    for track in [1, 2, 3] {
        e.store.landmarks.insert(track, 2, 0);
    }
    let back = |track_id, anchor_state_index, finite| LandmarkWriteback {
        track_id,
        anchor_state_index,
        anchor_camera_id: 0,
        finite,
    };
    e.apply_landmark_writeback(&vec![back(1, 1, true), back(2, 5, true), back(3, 0, false)]);
    assert_eq!(e.store.landmarks.landmarks[&1].anchor_pose, 6);
    assert_eq!(e.store.landmarks.landmarks[&2].anchor_pose, 2);
    assert_eq!(e.store.landmark_world.iter().copied().collect::<Vec<_>>(), vec![1]);
    // A landmark whose host left moves to the oldest frame where its point is known and placed.
    e.store.landmark_world.insert(3);
    e.reanchor_landmarks(&vec![2, 3]);
    assert_eq!(e.store.landmarks.landmarks[&3].anchor_pose, 4);
    assert_eq!(e.store.landmarks.landmarks[&2].anchor_pose, 2);
    assert_eq!(e.count_packet(), 0);
    assert_eq!(e.count_packet(), 1);
}

#[test]
fn poses_are_found_among_poses_and_states() {
    let mut e = estimator();
    e.window.poses.push(WindowPose { frame_id: 4, timestamp_ns: 4, is_keyframe: true });
    e.window.states.push(state(4, true));
    e.window.states.push(state(6, false));
    assert_eq!(e.window.pose_for_frame(4), Some(PoseSource::Pose(0)));
    assert_eq!(e.window.latest_pose(4), Some(PoseSource::State(0)));
    assert_eq!(e.window.pose_for_frame(6), Some(PoseSource::State(1)));
    assert_eq!(e.window.pose_for_frame(5), None);
    e.store.track_history.insert(8, vec![history(6, 0), history(5, 0), history(4, 1)]);
    assert_eq!(
        e.store.refresh_track_history_poses(&e.window, 1),
        vec![PoseRefresh { track_id: 8, entry: 0, source: PoseSource::State(1) }]
    );
}

#[test]
fn old_keyframes_go_by_features_and_then_by_score() {
    let mut e = estimator();
    for frame_id in 1..8 {
        e.window.poses.push(WindowPose { frame_id, timestamp_ns: 0, is_keyframe: true });
    }
    for frame_id in 8..11 {
        e.window.states.push(state(frame_id, frame_id == 8));
    }
    let ratio = |x: f64| x.to_bits();
    let mut planner = MarginalizationPlanner::begin(&e.window, &e.config.window);
    assert_eq!(planner.policy.min_feature_ratio, ratio(0.1));
    assert_eq!(planner.plan.convert_states, vec![8]);
    assert_eq!(planner.plan.boundary_state, Some(9));
    assert_eq!(planner.candidates(), vec![1, 2, 3, 4, 5, 6]);
    let ratios: Vec<u64> = [0.5, 0.05, 0.01, 0.5, 0.5, 0.5].map(ratio).to_vec();
    assert!(planner.select(&e.window, &ratios, &vec![None; 6]));
    assert_eq!(planner.plan.drop_poses, vec![2]);
    assert!(planner.candidates().is_empty());

    let mut planner = MarginalizationPlanner::begin(&e.window, &e.config.window);
    let scores: Vec<Option<u64>> =
        [None, Some(3.0), Some(2.0), Some(2.0), Some(9.0), None].map(|s: Option<f64>| s.map(f64::to_bits)).to_vec();
    assert!(planner.select(&e.window, &vec![ratio(0.5); 6], &scores));
    assert_eq!(planner.plan.drop_poses, vec![3]);
    assert_eq!(planner.plan.touched_frames(), vec![8, 3]);
    assert_eq!(planner.plan.dropped_frames(), vec![3]);
}

fn problem() -> (BasaltVioEstimator, WindowProblem) {
    let mut e = estimator();
    e.window.poses.push(WindowPose { frame_id: 1, timestamp_ns: 10, is_keyframe: true });
    for frame_id in [2, 3, 4] {
        e.window.push_state(frame_id, frame_id as i64 * 10, false, true);
    }
    e.store.landmarks.insert(5, 1, 0);
    e.store.landmarks.insert(6, 3, 0);
    e.store.window_observations.insert(5, vec![stored(1, 0), stored(4, 0), stored(9, 0)]);
    e.store.window_observations.insert(6, vec![stored(3, 0)]);
    let problem = build_problem(&e.window, &e.store, &order(&e));
    (e, problem)
}

#[test]
fn problems_hold_what_the_window_holds() {
    let (_, p) = problem();
    assert_eq!(p.state_dof(), 6 + 45);
    assert_eq!(p.imu_links.iter().map(|l| (l.from_index, l.to_index)).collect::<Vec<_>>(), vec![(0, 1), (1, 2)]);
    assert_eq!(p.landmarks.len(), 2);
    let places: Vec<usize> = p.landmarks[0].observations.iter().map(|o| o.state_index).collect();
    assert_eq!(places, vec![0, 3]);
    assert_eq!((p.block_frame_id(0), p.block_frame_id(3), p.block_frame_id(4)), (Some(1), Some(4), None));
}

#[test]
fn marginal_problems_end_at_the_boundary() {
    let (_, p) = problem();
    let aom = p.pre_marginalization_snapshot(Some(3), &vec![1], &Vec::new(), 51).unwrap();
    assert_eq!(aom.states.iter().map(|s| s.frame_id).collect::<Vec<_>>(), vec![2, 3]);
    assert_eq!(aom.imu_links.len(), 1);
    assert_eq!(aom.landmarks.iter().map(|l| l.track_id).collect::<Vec<_>>(), vec![5]);
    let lost = p.pre_marginalization_snapshot(Some(3), &Vec::new(), &vec![6], 51).unwrap();
    assert_eq!(lost.landmarks.iter().map(|l| l.track_id).collect::<Vec<_>>(), vec![6]);
    assert_eq!(
        p.pre_marginalization_snapshot(Some(7), &Vec::new(), &Vec::new(), 51).unwrap_err().message(),
        "marginalization boundary 7 is absent"
    );
    assert_eq!(
        p.pre_marginalization_snapshot(Some(3), &Vec::new(), &Vec::new(), 35).unwrap_err().message(),
        "marginalization state has 35 columns, need 36"
    );
}

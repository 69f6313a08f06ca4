use nalgebra::{Point2, Unit, UnitQuaternion, Vector2, Vector3};
use std::collections::BTreeMap;
use std::f64::consts::PI;
use visloc::basalt::identity::Pixel;
use visloc::basalt::initialization::{
    estimate_initial_state, estimate_up_body_from_window, mean_has_direction, ForceSample,
    InitializationConfig, InitializationError, UpStep,
};
use visloc::basalt::startup::{
    stationary_statistics, visual_motion, ImuStatistics, StartupError, StartupFrame, StartupSample,
    StartupStep, StationaryStartup, StationaryStartupConfig,
};

#[derive(Clone, Copy)]
struct Sample {
    t: i64,
    gyro: Vector3<f64>,
    accel: Vector3<f64>,
}

fn bits(v: Vector3<f64>) -> [u64; 3] {
    [v.x.to_bits(), v.y.to_bits(), v.z.to_bits()]
}

fn statistics(samples: &[Sample]) -> ImuStatistics {
    let n = samples.len() as f64;
    let gyro = samples.iter().fold(Vector3::zeros(), |a, s| a + s.gyro) / n;
    let accel = samples.iter().fold(Vector3::zeros(), |a, s| a + s.accel) / n;
    let gyro_std = (samples.iter().map(|s| (s.gyro - gyro).norm_squared()).sum::<f64>() / n).sqrt();
    let accel_std =
        (samples.iter().map(|s| (s.accel - accel).norm_squared()).sum::<f64>() / n).sqrt();
    ImuStatistics {
        gyro: bits(gyro),
        accel: bits(accel),
        gyro_std: gyro_std.to_bits(),
        accel_std: accel_std.to_bits(),
        gyro_norm: gyro.norm().to_bits(),
        gravity_error: (accel.norm() - 9.81).abs().to_bits(),
    }
}

fn judge(samples: &[Sample], end: i64) -> Result<(), StartupError> {
    let times: Vec<i64> = samples.iter().map(|s| s.t).collect();
    stationary_statistics(
        &times,
        0,
        end,
        &StationaryStartupConfig::default(),
        &statistics(samples),
    )
}

fn samples() -> Vec<Sample> {
    (0..125)
        .map(|i| Sample {
            t: i * 8_000_000,
            gyro: Vector3::new(-0.002, 0.001, 0.0005),
            accel: Vector3::new(0.1, -6.8, -7.0),
        })
        .collect()
}

#[test]
fn stationary_bias_and_gravity_are_estimated_without_accel_bias_claim() {
    let s = samples();
    assert!(judge(&s, 1_000_000_000).is_ok());
    let stats = statistics(&s);
    let read = |v: [u64; 3]| Vector3::new(f64::from_bits(v[0]), f64::from_bits(v[1]), f64::from_bits(v[2]));
    assert!((read(stats.gyro) - s[0].gyro).norm() < 1e-14);
    assert!((read(stats.accel) - s[0].accel).norm() < 1e-12);
    assert!(f64::from_bits(stats.gyro_std) < 1e-12 && f64::from_bits(stats.accel_std) < 1e-12);
}

#[test]
fn missing_vibrating_rotating_and_nonfinite_imu_are_rejected() {
    let mut s = samples();
    s.drain(30..50);
    assert_eq!(judge(&s, 1_000_000_000), Err(StartupError::Gap));
    let mut s = samples();
    s[50].accel.x += 10.0;
    assert!(matches!(judge(&s, 1_000_000_000), Err(StartupError::Moving { .. })));
    let mut s = samples();
    for v in &mut s {
        v.gyro.x = 0.2;
    }
    assert!(matches!(judge(&s, 1_000_000_000), Err(StartupError::Moving { .. })));
    let mut s = samples();
    s[50].gyro.x = f64::NAN;
    assert!(matches!(judge(&s, 1_000_000_000), Err(StartupError::Moving { .. })));
    assert_eq!(judge(&samples()[..49], 1_000_000_000), Err(StartupError::Coverage));
    // The last sample is further from the end than a gap may be.
    assert_eq!(judge(&samples(), 1_043_000_000), Err(StartupError::Gap));
    assert!(judge(&samples(), 1_042_000_000).is_ok());
}

type Tracks = BTreeMap<u64, Point2<f64>>;

fn distances(reference: &Tracks, current: &Tracks) -> Vec<u64> {
    reference
        .iter()
        .filter_map(|(id, p)| current.get(id).map(|q| (p - q).norm().to_bits()))
        .collect()
}

fn motion(
    reference: &Tracks,
    current: &Tracks,
    c: &StationaryStartupConfig,
) -> Result<(usize, u64), StartupError> {
    let d = distances(reference, current);
    let short = (d.len() as f64) < reference.len() as f64 * f64::from_bits(c.min_track_fraction);
    visual_motion(&d, reference.len(), short, c)
}

#[test]
fn image_motion_detects_constant_rotation_that_imu_variance_cannot() {
    let c = StationaryStartupConfig::default();
    let r: Tracks = (0..40).map(|i| (i, Point2::new(i as f64, 10.0))).collect();
    assert_eq!(motion(&r, &r, &c), Ok((40, 0)));
    let moving = r.iter().map(|(i, p)| (*i, p + Vector2::new(2.0, 0.0))).collect();
    let error = motion(&r, &moving, &c).unwrap_err();
    assert_eq!(error, StartupError::ImageMotion { p90: 2.0f64.to_bits() });
    assert_eq!(
        error.message("2.000", ""),
        "stationary startup: image motion 2.000 px exceeds limit"
    );
    let error = motion(&r, &BTreeMap::new(), &c).unwrap_err();
    assert_eq!(
        error.message("0.5", ""),
        "stationary startup: insufficient persistent image tracks (0 of 40, need 30 and fraction 0.5)"
    );
}

#[test]
fn nine_tenths_of_the_tracks_decide() {
    let c = StationaryStartupConfig::default();
    let mut d: Vec<u64> = vec![0.5f64.to_bits(); 36];
    d.extend([9.0f64.to_bits(); 4]);
    // Place 36 of 40 is the first of the far ones.
    assert!(matches!(visual_motion(&d, 40, false, &c), Err(StartupError::ImageMotion { .. })));
    d[36] = 0.75f64.to_bits();
    assert_eq!(visual_motion(&d, 40, false, &c), Ok((40, 0.75f64.to_bits())));
    d[0] = f64::INFINITY.to_bits();
    assert_eq!(visual_motion(&d, 40, false, &c), Err(StartupError::TrackValues));
    assert!(matches!(
        visual_motion(&vec![0; 40], 90, true, &c),
        Err(StartupError::FewTracks { common: 40, reference: 90, needed: 30, .. })
    ));
}

#[derive(Clone, Debug, PartialEq)]
struct Sensor {
    tracks: Vec<(u64, f64, f64)>,
}

type Frame = StartupFrame<Sensor>;

fn rest(t: i64) -> StartupSample {
    StartupSample {
        timestamp_ns: t,
        gyro: bits(Vector3::new(-0.002, 0.001, 0.0005)),
        accel: bits(Vector3::new(0.0, 0.0, 9.81)),
        deviation: 0,
    }
}

fn fixture() -> (Vec<Frame>, StationaryStartupConfig) {
    let tracks: Vec<(u64, f64, f64)> = (0..40).map(|i| (i, 7.0 * i as f64, 100.0)).collect();
    let frames = (0..3)
        .map(|i: u64| Frame {
            frame_id: i,
            timestamp_ns: i as i64 * 50_000_000,
            imu: if i == 0 {
                vec![rest(0)]
            } else {
                ((i - 1) * 5 + 1..=i * 5).map(|k| rest(k as i64 * 10_000_000)).collect()
            },
            payload: Sensor { tracks: tracks.clone() },
        })
        .collect();
    let startup = StationaryStartupConfig {
        window_ns: 100_000_000,
        min_imu_samples: 10,
        min_common_tracks: 3,
        ..Default::default()
    };
    (frames, startup)
}

fn measured(samples: &[StartupSample]) -> ImuStatistics {
    let read = |v: [u64; 3]| Vector3::new(f64::from_bits(v[0]), f64::from_bits(v[1]), f64::from_bits(v[2]));
    let plain: Vec<Sample> = samples
        .iter()
        .map(|s| Sample { t: s.timestamp_ns, gyro: read(s.gyro), accel: read(s.accel) })
        .collect();
    statistics(&plain)
}

fn push(gate: &mut StationaryStartup<Sensor>, frame: Frame) -> Result<Vec<Frame>, String> {
    let current: BTreeMap<u64, Pixel> = frame
        .payload
        .tracks
        .iter()
        .map(|t| (t.0, Pixel { x: t.1.to_bits(), y: t.2.to_bits() }))
        .collect();
    if let Some(frame) = gate.push(frame).map_err(|e| e.message("", ""))? {
        return Ok(vec![frame]);
    }
    let point = |p: Pixel| Point2::new(f64::from_bits(p.x), f64::from_bits(p.y));
    let pairs = gate.persisting(&current);
    let distances: Vec<u64> =
        pairs.iter().map(|p| (point(p.1) - point(p.2)).norm().to_bits()).collect();
    let against = if gate.frames.is_empty() && gate.report.is_none() {
        current.len()
    } else {
        gate.reference.len()
    };
    let fraction = f64::from_bits(gate.config.min_track_fraction);
    let short = (distances.len() as f64) < against as f64 * fraction;
    let mut step = gate.observe(current, &distances, short).map_err(|e| e.message("?", "?"))?;
    if step == StartupStep::Complete {
        let stats = measured(&gate.samples);
        step = gate.settle(&stats).map_err(|e| e.message("?", "?"))?;
    }
    match step {
        StartupStep::Released(frames) => Ok(frames),
        _ => Ok(Vec::new()),
    }
}

#[test]
fn packets_are_released_once_in_order_only_after_stationarity_is_verified() {
    let (f, s) = fixture();
    let mut gate = StationaryStartup::new(s).unwrap();
    assert!(gate.finish().is_err());
    assert!(push(&mut gate, f[0].clone()).unwrap().is_empty());
    assert!(push(&mut gate, f[1].clone()).unwrap().is_empty());
    assert!(gate.report.is_none());
    assert_eq!(push(&mut gate, f[2].clone()).unwrap(), f);
    assert!(gate.finish().is_ok());
    let report = gate.report.unwrap();
    assert_eq!(report.imu_samples, 10); // half-open sensor window
    assert_eq!((report.first_camera_ns, report.ready_camera_ns), (0, 100_000_000));
    assert_eq!(report.released_camera_ns, Some(100_000_000));
    assert_eq!((report.buffered_frames, report.minimum_common_tracks), (3, 40));
    // From now on each frame goes straight on.
    assert_eq!(push(&mut gate, f[1].clone()).unwrap(), vec![f[1].clone()]);
}

#[test]
fn startup_buffers_and_camera_order_are_bounded_without_silent_fallback() {
    let (f, mut s) = fixture();
    s.max_frames = 2;
    let mut gate = StationaryStartup::new(s).unwrap();
    push(&mut gate, f[0].clone()).unwrap();
    push(&mut gate, f[1].clone()).unwrap();
    assert!(push(&mut gate, f[2].clone()).unwrap_err().contains("buffer limit"));
    assert!(gate.finish().is_err());
    assert!(push(&mut gate, f[2].clone()).unwrap_err().contains("previously failed"));
    let mut gate = StationaryStartup::new(s).unwrap();
    push(&mut gate, f[0].clone()).unwrap();
    assert!(push(&mut gate, f[0].clone()).unwrap_err().contains("timestamps"));
}

#[test]
fn motion_wait_is_bounded_and_does_not_recalibrate_from_moving_samples() {
    let (f, mut s) = fixture();
    s.wait_for_motion = true;
    s.average_gravity = true;
    s.max_wait_ns = 200_000_000;
    let mut gate = StationaryStartup::new(s).unwrap();
    for frame in &f {
        assert!(push(&mut gate, frame.clone()).unwrap().is_empty());
    }
    assert!(!gate.is_initialized());
    assert_eq!(gate.oldest_buffered_frame_id(), Some(2));
    assert_eq!(gate.report.as_ref().unwrap().discarded_stationary_frames, 2);
    let mut moving = f[2].clone();
    moving.frame_id = 3;
    moving.timestamp_ns = 150_000_000;
    moving.imu = (11..=15)
        .map(|i| {
            let accel = Vector3::new(0.0, 0.0, 10.31);
            StartupSample {
                timestamp_ns: i * 10_000_000,
                accel: bits(accel),
                deviation: (accel.norm() - 9.81f64).abs().to_bits(),
                ..rest(0)
            }
        })
        .collect();
    for track in &mut moving.payload.tracks {
        track.1 += 4.0;
    }
    let released = push(&mut gate, moving).unwrap();
    assert_eq!(released.iter().map(|f| f.frame_id).collect::<Vec<_>>(), vec![2, 3]);
    assert!(gate.is_initialized());
    let report = gate.report.as_ref().unwrap();
    assert_eq!(report.mean_accel_m_s2.map(f64::from_bits), [0.0, 0.0, 9.81]);
    assert_eq!(report.released_camera_ns, Some(150_000_000));
    let (f, mut s) = fixture();
    s.wait_for_motion = true;
    s.max_wait_ns = 100_000_000;
    let mut gate = StationaryStartup::new(s).unwrap();
    for frame in &f {
        push(&mut gate, frame.clone()).unwrap();
    }
    assert!(gate.finish().is_err());
    let mut late = f[2].clone();
    late.frame_id = 3;
    late.timestamp_ns = 150_000_000;
    assert!(push(&mut gate, late).unwrap_err().contains("timed out"));
}

#[test]
fn imu_gap_during_motion_wait_cannot_release_a_stale_seed() {
    let (f, mut s) = fixture();
    s.wait_for_motion = true;
    let mut gate = StationaryStartup::new(s).unwrap();
    for frame in &f {
        push(&mut gate, frame.clone()).unwrap();
    }
    let mut late = f[2].clone();
    late.frame_id = 3;
    late.timestamp_ns = 200_000_000;
    late.imu.truncate(1);
    late.imu[0].timestamp_ns = 200_000_000;
    assert!(push(&mut gate, late).unwrap_err().contains("gap in IMU coverage"));
    assert!(!gate.is_initialized());
}

#[test]
fn motion_alone_or_force_alone_releases_nothing() {
    let (f, mut s) = fixture();
    s.wait_for_motion = true;
    let mut gate = StationaryStartup::new(s).unwrap();
    for frame in &f {
        push(&mut gate, frame.clone()).unwrap();
    }
    // The images move, the inertial samples do not.
    let mut seen = f[2].clone();
    seen.frame_id = 3;
    seen.timestamp_ns = 150_000_000;
    seen.imu = (11..=15).map(|i| rest(i * 10_000_000)).collect();
    for track in &mut seen.payload.tracks {
        track.1 += 4.0;
    }
    assert!(push(&mut gate, seen).unwrap().is_empty());
    assert_eq!(gate.oldest_buffered_frame_id(), Some(3));
    // The inertial samples move while the images are back.
    let mut felt = f[2].clone();
    felt.frame_id = 4;
    felt.timestamp_ns = 200_000_000;
    felt.imu = (16..=20)
        .map(|i| StartupSample { deviation: 0.5f64.to_bits(), ..rest(i * 10_000_000) })
        .collect();
    assert!(push(&mut gate, felt).unwrap().is_empty());
    assert!(gate.motion_excited);
    assert_eq!(gate.report.as_ref().unwrap().discarded_stationary_frames, 4);
}

#[test]
fn every_fault_of_a_frame_is_named() {
    let (f, s) = fixture();
    let fault = |change: &dyn Fn(&mut StationaryStartup<Sensor>, &mut Frame)| {
        let mut gate = StationaryStartup::new(s).unwrap();
        push(&mut gate, f[0].clone()).unwrap();
        let mut frame = f[1].clone();
        change(&mut gate, &mut frame);
        let error = gate.push(frame).unwrap_err();
        assert!(gate.failed && gate.pending.is_none());
        error
    };
    assert_eq!(fault(&|_, f| f.timestamp_ns = 0), StartupError::CameraOrder);
    assert_eq!(fault(&|_, f| f.timestamp_ns = i64::MAX), StartupError::TimedOut);
    assert_eq!(fault(&|_, f| f.imu[0].timestamp_ns = 0), StartupError::ImuInput);
    assert_eq!(fault(&|_, f| f.imu[4].timestamp_ns = 50_000_001), StartupError::ImuInput);
    assert_eq!(fault(&|_, f| f.imu[2].gyro[1] = f64::NAN.to_bits()), StartupError::ImuInput);
    let packed = |_: &mut StationaryStartup<Sensor>, f: &mut Frame| {
        f.imu = (1..=4096).map(rest).collect();
    };
    assert_eq!(fault(&packed), StartupError::PacketLimit);
    let mut gate = StationaryStartup::<Sensor>::new(s).unwrap();
    let mut last = f[0].clone();
    last.timestamp_ns = i64::MAX - 1;
    assert_eq!(gate.push(last), Err(StartupError::TimestampOverflow));
    let mut tight = s;
    tight.max_imu_samples = 10;
    let mut gate = StationaryStartup::<Sensor>::new(tight).unwrap();
    for frame in &f[..2] {
        push(&mut gate, frame.clone()).unwrap();
    }
    assert_eq!(gate.push(f[2].clone()), Err(StartupError::PacketLimit));
}

#[test]
fn settings_are_checked_one_by_one() {
    assert!(StationaryStartupConfig::default().validate().is_ok());
    let wrong = |change: &dyn Fn(&mut StationaryStartupConfig)| {
        let mut config = StationaryStartupConfig::default();
        change(&mut config);
        assert_eq!(config.validate(), Err(StartupError::Config));
        assert!(StationaryStartup::<Sensor>::new(config).is_err());
    };
    wrong(&|c| c.max_wait_ns = c.window_ns - 1);
    wrong(&|c| c.window_ns = 0);
    wrong(&|c| c.max_frames = 1);
    wrong(&|c| c.min_imu_samples = 1);
    wrong(&|c| c.max_imu_samples = 49);
    wrong(&|c| c.max_imu_gap_ns = 0);
    wrong(&|c| c.min_common_tracks = 2);
    wrong(&|c| c.min_track_fraction = 1.5f64.to_bits());
    wrong(&|c| c.min_track_fraction = f64::NAN.to_bits());
    wrong(&|c| c.motion_disparity_px = 0);
    wrong(&|c| c.motion_accel_deviation_m_s2 = (-1.0f64).to_bits());
    wrong(&|c| c.max_disparity_p90_px = f64::INFINITY.to_bits());
    wrong(&|c| c.max_gyro_std_rad_s = f64::NAN.to_bits());
    wrong(&|c| c.max_accel_std_m_s2 = (-0.0f64).to_bits());
    wrong(&|c| c.max_gyro_mean_rad_s = 0);
    wrong(&|c| c.max_gravity_norm_error_m_s2 = 0);
    let mut zero = StationaryStartupConfig::default();
    zero.min_track_fraction = (-0.0f64).to_bits();
    assert!(zero.validate().is_ok());
}

#[test]
fn default_settings_are_the_documented_ones() {
    let c = StationaryStartupConfig::default();
    let reals = [
        c.min_track_fraction,
        c.max_disparity_p90_px,
        c.max_gyro_std_rad_s,
        c.max_accel_std_m_s2,
        c.max_gyro_mean_rad_s,
        c.max_gravity_norm_error_m_s2,
        c.motion_disparity_px,
        c.motion_accel_deviation_m_s2,
    ];
    assert_eq!(reals.map(f64::from_bits), [0.5, 0.75, 0.005, 0.15, 0.03, 0.5, 3.0, 0.2]);
    let i = InitializationConfig::default();
    assert_eq!((f64::from_bits(i.gravity_m_s2), i.minimum_static_samples), (9.81, 2));
}

struct Initial {
    gravity: Vector3<f64>,
    velocity: Vector3<f64>,
    rotation: UnitQuaternion<f64>,
    gyro_bias: Vector3<f64>,
    turned: UnitQuaternion<f64>,
    delta_velocity: Vector3<f64>,
    delta_time: f64,
}

/// Integrates samples that are all alike over the interval that the library gives.
fn initial(samples: &[Sample], camera_ns: i64) -> Result<Initial, InitializationError> {
    let config = InitializationConfig::default();
    let times: Vec<i64> = samples.iter().map(|s| s.t).collect();
    let n = samples.len() as f64;
    let gyro = samples.iter().fold(Vector3::zeros(), |a, s| a + s.gyro) / n;
    let accel = samples.iter().fold(Vector3::zeros(), |a, s| a + s.accel) / n;
    let (start, end) =
        estimate_initial_state(&times, camera_ns, &config, accel.norm().to_bits())?;
    let rotation = UnitQuaternion::rotation_between(&Unit::new_normalize(accel), &Vector3::z_axis())
        .unwrap_or_else(|| UnitQuaternion::from_axis_angle(&Vector3::x_axis(), PI));
    let gravity = -f64::from_bits(config.gravity_m_s2).abs() * Vector3::z();
    let dt = (end - start) as f64 * 1e-9;
    let turned = UnitQuaternion::from_scaled_axis((samples[0].gyro - gyro) * dt);
    let delta_velocity = samples[0].accel * dt;
    Ok(Initial {
        gravity,
        velocity: rotation * delta_velocity + gravity * dt,
        rotation: rotation * turned,
        gyro_bias: gyro,
        turned,
        delta_velocity,
        delta_time: dt,
    })
}

fn sample(t: i64, gyro: Vector3<f64>, accel: Vector3<f64>) -> Sample {
    Sample { t, gyro, accel }
}

#[test]
fn stationary_fixture_initializes_gravity_and_zero_motion() {
    let a = Vector3::new(0.0, 0.0, 9.81);
    let samples: Vec<Sample> =
        (0..3).map(|i| sample(i * 1_000_000_000, Vector3::zeros(), a)).collect();
    let x = initial(&samples, 500_000_000).unwrap();
    assert!((x.gravity - Vector3::new(0.0, 0.0, -9.81)).norm() < 1e-12);
    assert!(x.velocity.norm() < 1e-12);
    assert!(x.rotation.angle() < 1e-12);
}

#[test]
fn tilted_gravity_fixture_aligns_body_force_to_world_up() {
    let tilt = UnitQuaternion::from_axis_angle(&Vector3::x_axis(), 0.4);
    let a = tilt.inverse().transform_vector(&Vector3::new(0.0, 0.0, 9.81));
    let samples =
        [sample(0, Vector3::zeros(), a), sample(1_000_000_000, Vector3::zeros(), a)];
    let x = initial(&samples, 500_000_000).unwrap();
    assert!((x.rotation * a.normalize() - Vector3::new(0.0, 0.0, 1.0)).norm() < 1e-10);
}

#[test]
fn a_force_straight_down_is_turned_up() {
    let a = Vector3::new(0.0, 0.0, -9.81);
    let samples =
        [sample(0, Vector3::zeros(), a), sample(1_000_000_000, Vector3::zeros(), a)];
    let x = initial(&samples, 500_000_000).unwrap();
    assert!((x.rotation * a.normalize() - Vector3::new(0.0, 0.0, 1.0)).norm() < 1e-10);
    assert!(x.velocity.norm() < 1e-9);
}

#[test]
fn constant_gyro_bias_is_recorded_and_removed() {
    let bias = Vector3::new(0.01, -0.02, 0.03);
    let a = Vector3::new(0.0, 0.0, 9.81);
    let x = initial(&[sample(0, bias, a), sample(1_000_000_000, bias, a)], 500_000_000).unwrap();
    assert!((x.gyro_bias - bias).norm() < 1e-12);
    assert!(x.turned.angle() < 1e-12);
}

#[test]
fn first_camera_endpoint_is_integrated_by_interpolation() {
    let a = Vector3::new(2.0, 0.0, 0.0);
    let samples =
        [sample(0, Vector3::zeros(), a), sample(1_000_000_000, Vector3::zeros(), a)];
    let x = initial(&samples, 500_000_000).unwrap();
    assert!((x.delta_time - 0.5).abs() < 1e-12);
    assert!((x.delta_velocity.x - 1.0).abs() < 1e-12);
}

fn up_body(samples: &[Sample], start: i64, window: i64) -> Option<Vector3<f64>> {
    let forces: Vec<ForceSample> = samples
        .iter()
        .map(|s| ForceSample {
            timestamp_ns: s.t,
            accel: bits(s.accel),
            norm_squared: s.accel.norm_squared().to_bits(),
        })
        .collect();
    let steps = estimate_up_body_from_window(&forces, start, window)?;
    let mut rotation = UnitQuaternion::identity();
    let mut sum = Vector3::zeros();
    let mut count = 0usize;
    for UpStep { index, rotate_ns, counted } in steps {
        if let Some(dt) = rotate_ns {
            rotation *= UnitQuaternion::from_scaled_axis(samples[index].gyro * (dt as f64 * 1e-9));
        }
        if counted {
            sum += rotation.transform_vector(&samples[index].accel);
            count += 1;
        }
    }
    let mean = sum / count as f64;
    if mean_has_direction(&bits(mean), mean.norm_squared().to_bits()) {
        Some(mean)
    } else {
        None
    }
}

#[test]
fn gyro_compensated_window_recovers_up_during_rotation() {
    let omega = Vector3::new(0.7, 0.0, 0.3); // rad/s
    let mut samples = Vec::new();
    for k in 0..=200 {
        let t = k as i64 * 1_000_000; // 1 kHz, 200 ms
        let rotation = UnitQuaternion::from_scaled_axis(omega * (t as f64 * 1e-9));
        let accel = rotation.inverse_transform_vector(&Vector3::new(0.0, 0.0, 9.806));
        samples.push(sample(t, omega, accel));
    }
    let up = up_body(&samples, 0, 200_000_000).unwrap();
    let expected = UnitQuaternion::from_scaled_axis(omega * 0.0)
        .inverse_transform_vector(&Vector3::new(0.0, 0.0, 1.0));
    assert!(
        (up.normalize() - expected).norm() < 2.0e-3,
        "recovered {:?} vs {:?}",
        up.normalize(),
        expected
    );
    // The naive single-sample direction would be off once rotation is large.
    let naive = samples[samples.len() - 1].accel.normalize();
    assert!((naive - expected).norm() > 0.1);
}

#[test]
fn windows_without_enough_force_give_no_direction() {
    let up = Vector3::new(0.0, 0.0, 9.8);
    let none = Vector3::zeros();
    let samples = [sample(0, none, up), sample(10, none, none), sample(20, none, up)];
    assert!(up_body(&samples, 0, 0).is_none());
    assert!(up_body(&samples, 0, 10).is_none());
    assert_eq!(up_body(&samples, 0, 20), Some(up));
    assert_eq!(up_body(&samples, -5, i64::MAX), Some(up));
    // A sample before the window has no influence: the next one turns by the time since the start.
    let forces: Vec<ForceSample> = samples
        .iter()
        .map(|s| ForceSample { timestamp_ns: s.t, accel: bits(up), norm_squared: 96.04f64.to_bits() })
        .collect();
    assert_eq!(
        estimate_up_body_from_window(&forces, 5, 100),
        Some(vec![
            UpStep { index: 1, rotate_ns: Some(5), counted: true },
            UpStep { index: 2, rotate_ns: Some(10), counted: true },
        ])
    );
    assert_eq!(
        estimate_up_body_from_window(&forces[1..].to_vec(), 5, 100),
        Some(vec![
            UpStep { index: 0, rotate_ns: Some(5), counted: true },
            UpStep { index: 1, rotate_ns: Some(10), counted: true },
        ])
    );
    // The sample at the start turns nothing, whatever came before it.
    assert_eq!(
        estimate_up_body_from_window(&forces, 10, 100),
        Some(vec![
            UpStep { index: 1, rotate_ns: None, counted: true },
            UpStep { index: 2, rotate_ns: Some(10), counted: true },
        ])
    );
}

#[test]
fn a_turning_body_has_its_up_direction_at_the_start_of_the_window() {
    let omega = Vector3::new(0.7, 0.0, 0.3);
    let mut samples = Vec::new();
    for k in -100..=200 {
        let t = k as i64 * 1_000_000;
        let rotation = UnitQuaternion::from_scaled_axis(omega * (t as f64 * 1e-9));
        let accel = rotation.inverse_transform_vector(&Vector3::new(0.0, 0.0, 9.806));
        samples.push(sample(t, omega, accel));
    }
    let whole = up_body(&samples, 0, 200_000_000).unwrap();
    assert_eq!(up_body(&samples[100..], 0, 200_000_000), Some(whole));
    assert!((whole.normalize() - Vector3::new(0.0, 0.0, 1.0)).norm() < 2.0e-3);
}

#[test]
fn first_states_need_samples_time_and_force() {
    let none = Vector3::zeros();
    let up = Vector3::new(0.0, 0.0, 9.81);
    let fault = |s: &[Sample], t: i64| initial(s, t).map(|x| x.delta_time).unwrap_err();
    let one = [sample(0, none, up)];
    assert_eq!(fault(&one, 5).message(), "not enough static IMU samples");
    let two = [sample(10, none, up), sample(20, none, up)];
    assert_eq!(
        fault(&two, 10).message(),
        "camera timestamp must be after the first IMU timestamp"
    );
    let flat = [sample(0, none, none), sample(1, none, none)];
    assert_eq!(fault(&flat, 5), InitializationError::DegenerateAcceleration);
    assert_eq!(
        InitializationError::Sampling("no samples".into()).message(),
        "IMU sampling failed: no samples"
    );
}

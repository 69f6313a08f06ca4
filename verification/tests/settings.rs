use visloc::basalt::config::{
    settings_keys, BasaltConfig, ConfigError, GlobalBaConfig, LmConfig, OfflineMapperConfig,
};
use visloc::basalt::estimator::EstimatorConfig;
use visloc::basalt::marginalization::WindowPolicy;

const VALUES: [(&str, &str); 52] = [
    ("config.optical_flow_type", r#""frame_to_frame""#),
    ("config.optical_flow_detection_grid_size", "50"),
    ("config.optical_flow_max_recovered_dist2", "0.09"),
    ("config.optical_flow_pattern", "51"),
    ("config.optical_flow_max_iterations", "5"),
    ("config.optical_flow_epipolar_error", "0.005"),
    ("config.optical_flow_levels", "3"),
    ("config.optical_flow_skip_frames", "1"),
    ("config.vio_linearization_type", r#""ABS_QR""#),
    ("config.vio_sqrt_marg", "true"),
    ("config.vio_max_states", "3"),
    ("config.vio_max_kfs", "7"),
    ("config.vio_min_frames_after_kf", "5"),
    ("config.vio_new_kf_keypoints_thresh", "0.7"),
    ("config.vio_debug", "false"),
    ("config.vio_extended_logging", "false"),
    ("config.vio_obs_std_dev", "0.5"),
    ("config.vio_obs_huber_thresh", "1.0"),
    ("config.vio_min_triangulation_dist", "0.05"),
    ("config.vio_outlier_threshold", "3.0"),
    ("config.vio_filter_iteration", "4"),
    ("config.vio_max_iterations", "7"),
    ("config.vio_enforce_realtime", "false"),
    ("config.vio_use_lm", "true"),
    ("config.vio_lm_lambda_initial", "1e-4"),
    ("config.vio_lm_lambda_min", "1e-6"),
    ("config.vio_lm_lambda_max", "100"),
    ("config.vio_lm_landmark_damping_variant", "0"),
    ("config.vio_lm_pose_damping_variant", "0"),
    ("config.vio_scale_jacobian", "false"),
    ("config.vio_init_pose_weight", "1e8"),
    ("config.vio_init_ba_weight", "1e1"),
    ("config.vio_init_bg_weight", "1e2"),
    ("config.vio_marg_lost_landmarks", "true"),
    ("config.vio_kf_marg_feature_ratio", "0.1"),
    ("config.mapper_obs_std_dev", "0.25"),
    ("config.mapper_obs_huber_thresh", "1.5"),
    ("config.mapper_detection_num_points", "800"),
    ("config.mapper_num_frames_to_match", "30"),
    ("config.mapper_frames_to_match_threshold", "0.04"),
    ("config.mapper_min_matches", "20"),
    ("config.mapper_ransac_threshold", "5e-5"),
    ("config.mapper_min_track_length", "5"),
    ("config.mapper_max_hamming_distance", "70"),
    ("config.mapper_second_best_test_ratio", "1.2"),
    ("config.mapper_bow_num_bits", "16"),
    ("config.mapper_min_triangulation_dist", "0.07"),
    ("config.mapper_no_factor_weights", "false"),
    ("config.mapper_use_factors", "true"),
    ("config.mapper_use_lm", "true"),
    ("config.mapper_lm_lambda_min", "1e-6"),
    ("config.mapper_lm_lambda_max", "1e3"),
];

fn document(values: &[(&str, &str)]) -> String {
    let members: Vec<String> =
        values.iter().map(|(key, value)| format!("\"{key}\": {value}")).collect();
    format!("{{\"value0\": {{{}}}}}", members.join(", "))
}

fn with(key: &str, value: &'static str) -> BasaltConfig {
    let mut values = VALUES.to_vec();
    for v in values.iter_mut() {
        if v.0 == key {
            v.1 = value;
        }
    }
    BasaltConfig::from_json(&document(&values)).unwrap()
}

fn bits(x: f64) -> u64 {
    x.to_bits()
}

#[test]
fn upstream_fixture_semantic_roundtrip_and_all_keys_consumed() {
    let c = BasaltConfig::from_json(&document(&VALUES)).unwrap();
    assert_eq!(c.consumed_keys(), settings_keys().len());
    assert_eq!(c.consumed_keys(), 52);
    let e = c.estimator_config().unwrap();
    assert_eq!(e.estimator.window.max_states, 3);
    assert_eq!(e.estimator.window.max_kfs, 7);
    assert_eq!(e.estimator.window.min_feature_ratio, bits(0.1));
    assert_eq!(e.estimator.min_frames_after_kf, 5);
    assert_eq!(e.estimator.new_kf_keypoints_threshold, bits(0.7));
    assert_eq!(e.solver.max_iterations, 7);
    assert_eq!(e.estimator.initial_pose_weight, bits(1.0e8));
    assert_eq!(e.estimator.initial_accel_bias_weight, bits(1.0e1));
    assert_eq!(e.estimator.initial_gyro_bias_weight, bits(1.0e2));
    assert_eq!(e.estimator, EstimatorConfig::default());
    assert_eq!(e.estimator.window, WindowPolicy::default());
    assert_eq!(
        e.solver,
        LmConfig {
            lambda_initial: bits(1e-4),
            lambda_min: bits(1e-6),
            lambda_max: bits(100.0),
            max_iterations: 7,
            convergence_step: bits(1e-4),
        }
    );
    assert!(c.mapper_config().is_ok());
    assert_eq!(
        c.offline_mapper_config().unwrap(),
        OfflineMapperConfig {
            max_points: 800,
            max_hamming: 70,
            second_best_ratio: bits(1.2),
            bow_bits: 16,
            match_window: 30,
            frames_to_match_threshold: bits(0.04),
            min_matches: 20,
            ransac_threshold: bits(5e-5),
            min_track_length: 5,
            min_triangulation_distance: bits(0.07),
        }
    );
    assert_eq!(
        c.mapper_global_ba_config(9).unwrap(),
        GlobalBaConfig {
            enabled: true,
            use_lm: true,
            lambda_initial: bits(1e-6),
            lambda_min: bits(1e-6),
            lambda_max: bits(1e3),
            max_iterations: 9,
            huber_delta: bits(1.5),
            observation_std_dev: bits(0.25),
            use_factors: true,
        }
    );
}

#[test]
fn unknown_and_missing_keys_rejected() {
    let mut more = VALUES.to_vec();
    more.push(("config.unknown", "true"));
    assert!(matches!(
        BasaltConfig::from_json(&document(&more)),
        Err(ConfigError::Unknown(key)) if key == "config.unknown"
    ));
    let fewer: Vec<(&str, &str)> =
        VALUES.iter().copied().filter(|v| v.0 != "config.vio_max_states").collect();
    let error = BasaltConfig::from_json(&document(&fewer)).unwrap_err();
    assert!(matches!(&error, ConfigError::Missing(key) if key == "config.vio_max_states"));
    assert_eq!(error.message(), "missing config key: config.vio_max_states");
}

#[test]
fn compat_profile_has_no_out_of_json_extensions() {
    let c = BasaltConfig::from_json(&document(&VALUES)).unwrap();
    let p = c.compat_profile().unwrap();
    assert!(!p.velocity_seed);
    assert!(p.temporal_fb_threshold.is_none());
    assert!(!p.rebootstrap);
    assert!(!p.enforce_realtime);
    assert!(with("config.vio_enforce_realtime", "true").compat_profile().unwrap().enforce_realtime);
}

#[test]
fn text_that_is_no_settings_is_refused() {
    let error = BasaltConfig::from_json("{").unwrap_err();
    assert_eq!(
        error.message(),
        "invalid config value: EOF while parsing an object at line 1 column 1"
    );
    assert_eq!(BasaltConfig::from_json("{}").unwrap_err(), ConfigError::Wrapper);
    assert_eq!(
        BasaltConfig::from_json("{\"value0\": 3}").unwrap_err().message(),
        "invalid config wrapper"
    );
    // Unknown keys come before missing ones, the first in the order of the keys.
    assert_eq!(
        BasaltConfig::from_json("{\"value0\": {\"b\": 1, \"a\": 2}}").unwrap_err().message(),
        "unknown config key: a"
    );
    assert_eq!(
        BasaltConfig::from_json("{\"value0\": {}}").unwrap_err(),
        ConfigError::Missing("config.optical_flow_type".into())
    );
}

#[test]
fn values_of_another_kind_are_refused_with_the_key() {
    assert_eq!(
        with("config.vio_max_states", "-1").estimator_config().unwrap_err().message(),
        "invalid config value: config.vio_max_states: invalid value: integer `-1`, expected usize"
    );
    assert_eq!(
        with("config.vio_min_frames_after_kf", "1.5").estimator_config().unwrap_err().message(),
        "invalid config value: config.vio_min_frames_after_kf: invalid type: floating point `1.5`, expected u64"
    );
    assert_eq!(
        with("config.vio_init_pose_weight", "null").estimator_config().unwrap_err().message(),
        "invalid config value: config.vio_init_pose_weight: invalid type: null, expected f64"
    );
    assert_eq!(
        with("config.vio_enforce_realtime", "0").compat_profile().unwrap_err().message(),
        "invalid config value: config.vio_enforce_realtime: invalid type: integer `0`, expected a boolean"
    );
    assert_eq!(
        with("config.vio_lm_lambda_max", "7").estimator_config().unwrap().solver.lambda_max,
        bits(7.0)
    );
    assert_eq!(
        with("config.mapper_no_factor_weights", "true").mapper_config().unwrap_err().message(),
        "invalid config value: config.mapper_no_factor_weights=true is outside the pinned weighted-factor profile"
    );
}

#[test]
fn a_key_that_is_not_there_cannot_be_read() {
    let c = BasaltConfig::from_json(&document(&VALUES)).unwrap();
    assert_eq!(c.value_count("config.nothing"), Err(ConfigError::Missing("config.nothing".into())));
    assert_eq!(c.value_flag("config.vio_sqrt_marg"), Ok(true));
    assert_eq!(c.value_real("config.vio_obs_std_dev"), Ok(bits(0.5)));
    assert_eq!(c.value_wide("config.vio_max_kfs"), Ok(7));
}

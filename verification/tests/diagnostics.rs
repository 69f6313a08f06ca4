use std::collections::{BTreeMap, BTreeSet};
use visloc::basalt::boundary::{
    block_identities, boundary_landmarks, factor_landmark, row_counts, solve_frame, FactorLandmark,
    FactorShape,
};
use visloc::basalt::collect::{select_attempt, Attempt, TrackStore};
use visloc::basalt::identity::{Pixel, StoredObservation, TrackHistory};
use visloc::basalt::landmarks::LandmarkStatus;
use visloc::basalt::lifecycle::{Capacities, LifecycleTrace};
use visloc::basalt::problem::{
    anchor_prior_for_kept, build_problem, factor_row_counts, prior_data_for_tables, RowCounts,
};
use visloc::basalt::scalar::ScalarMode;
use visloc::basalt::trace::{
    attempt_statuses, visual_factor_identities, AttemptStatus, FactorStage, Inclusion, TrackStatus,
};
use visloc::basalt::window::{aom_order, BlockKind, Window, WindowPose};
use visloc::ieee::{
    is_double_at_most, is_double_finite, is_double_less, is_double_total_less, is_single_at_most,
    is_single_finite, is_single_less, is_single_total_less,
};
use visloc::ordered::{
    contains_id, copy_list_of, map_keys, push_to, remove_all, retain_ids, set_members,
    sorted_unique,
};
use visloc::text::{
    append_count, append_decimal, append_signed, hex_text, text_order, Relation,
};

fn stored(frame_id: u64) -> StoredObservation {
    StoredObservation { frame_id, camera_id: 0, pixel: Pixel { x: 0, y: 0 } }
}

fn window() -> Window {
    let mut w = Window::new();
    w.poses.push(WindowPose { frame_id: 1, timestamp_ns: 10, is_keyframe: true });
    for frame_id in [2, 3, 4] {
        w.push_state(frame_id, frame_id as i64 * 10, false, true);
    }
    w
}

/// A seen landmark, a lost one, one whose host is gone, one without records in the window, and a
/// track without a landmark.
fn store() -> TrackStore {
    let mut s = TrackStore::new();
    for (track, host) in [(5, 1), (6, 3), (7, 99), (8, 2)] {
        s.landmarks.insert(track, host, 0);
        s.window_observations.insert(track, vec![stored(1), stored(4)]);
    }
    s.landmarks.landmarks.get_mut(&6).unwrap().status = LandmarkStatus::Lost;
    s.window_observations.insert(8, vec![stored(99)]);
    s.track_history.insert(
        9,
        vec![TrackHistory {
            frame_id: 4,
            camera_id: 0,
            timestamp_ns: 40,
            pixel: Pixel { x: 0, y: 0 },
        }],
    );
    s
}

#[test]
fn every_track_is_reported_with_its_reason() {
    let (w, s) = (window(), store());
    let order = vec![5, 6, 7, 8];
    let records = visual_factor_identities(&s, &w, &order, &None, 4, 40);
    let said: Vec<(u64, TrackStatus, Inclusion, FactorStage)> =
        records.iter().map(|r| (r.track_id, r.status, r.inclusion, r.stage)).collect();
    assert_eq!(
        said,
        vec![
            (5, TrackStatus::Active, Inclusion::Included, FactorStage::VisualFactor),
            (6, TrackStatus::Lost, Inclusion::Included, FactorStage::VisualFactor),
            (7, TrackStatus::Active, Inclusion::HostOutside, FactorStage::NotAFactor),
            (8, TrackStatus::Active, Inclusion::NoObservations, FactorStage::NotAFactor),
            (9, TrackStatus::Untriangulated, Inclusion::NotTriangulated, FactorStage::Untriangulated),
        ]
    );
    assert_eq!(records[0].host_timestamp_ns, Some(10));
    assert_eq!(records[0].factor_ordinal, Some(0));
    assert_eq!(records[1].factor_ordinal, Some(1));
    let target = records[0].observations[1];
    assert_eq!((target.target_timestamp_ns, target.in_window), (Some(40), true));
    assert!(!records[3].observations[0].in_window);
    let one = visual_factor_identities(&s, &w, &order, &Some(vec![7]), 4, 40);
    assert_eq!(one.iter().map(|r| r.track_id).collect::<Vec<_>>(), vec![7]);
}

#[test]
fn reasons_and_stages_have_names() {
    assert_eq!(TrackStatus::Lost.name(), "lost");
    assert_eq!(TrackStatus::Active.delete_reason(), None);
    assert_eq!(TrackStatus::Lost.delete_reason(), Some("missed_current_frame"));
    assert_eq!(TrackStatus::Removed.delete_reason(), Some("removed_from_landmark_db"));
    assert_eq!(TrackStatus::Untriangulated.delete_reason(), Some("not_yet_triangulated"));
    assert_eq!(Inclusion::HostOutside.name(), "host_outside_active_window");
    assert_eq!(FactorStage::VisualFactor.name(), "pre_solve_visual_factor");
    assert_eq!(BlockKind::StatePose.name(), "state_pose");
}

#[test]
fn lifecycles_remember_peaks_and_losses() {
    let mut s = store();
    let mut trace = LifecycleTrace::new();
    let room = Capacities { track_history: 8, factors: 16, observations: 4 };
    let first = trace.record(&s, 4, room);
    assert_eq!(first.previous_frame_id, None);
    assert_eq!((first.counts.factor_tracks, first.counts.factor_records), (4, 7));
    assert_eq!((first.active_count, first.lost_count, first.removed_count), (3, 1, 0));
    s.window_observations.remove(&7);
    s.landmarks.landmarks.remove(&7);
    s.track_history.clear();
    s.landmark_world.insert(5);
    let second = trace.record(&s, 5, Capacities { factors: 9, ..room });
    assert_eq!(second.previous_frame_id, Some(4));
    assert_eq!(second.removed_factor_ids, vec![7]);
    assert_eq!(second.removed_landmark_ids, vec![7]);
    assert_eq!(second.removed_track_ids, vec![9]);
    assert!(second.removed_world_ids.is_empty());
    assert_eq!(second.factor_record_net_drop, 2);
    assert_eq!(second.track_history_entry_net_drop, 1);
    assert_eq!((second.peaks.factor_records, second.peaks.factor_capacity), (7, 16));
    assert_eq!((second.peaks.world_entries, second.counts.world_entries), (1, 1));
}

#[test]
fn boundaries_show_which_rows_fall_outside() {
    let (w, s) = (window(), store());
    let solved = build_problem(&w, &s, &vec![5, 6, 7, 8]);
    assert_eq!(solve_frame(&solved), Some((4, 40)));
    let blocks = block_identities(&solved);
    assert_eq!(blocks.iter().map(|b| b.frame_id).collect::<Vec<_>>(), vec![1, 2, 3, 4]);
    assert_eq!(blocks.iter().map(|b| b.is_pose).collect::<Vec<_>>(), vec![true, false, false, false]);
    assert_eq!(blocks[3].timestamp_ns, Some(40));
    let aom = solved.pre_marginalization_snapshot(Some(3), &vec![1], &Vec::new(), 51).unwrap();
    let landmarks = boundary_landmarks(&solved, &aom, 4);
    assert_eq!(landmarks.len(), 1);
    let l = &landmarks[0];
    assert_eq!((l.track_id, l.host_frame_id, l.host_timestamp_ns, l.null_rows), (5, Some(1), Some(10), 2));
    let rows: Vec<(usize, bool, bool)> = l
        .observations
        .iter()
        .map(|o| (o.first_row, o.in_aom, o.is_current_event_frame))
        .collect();
    assert_eq!(rows, vec![(0, true, false), (2, false, true)]);
    let factor = FactorShape { kind: 1, rows: 4, landmark_index: Some(0) };
    assert_eq!(
        factor_landmark(&aom, &factor),
        Some(FactorLandmark { landmark_index: 0, null_rows: 2, expected_rows: 4 })
    );
    assert_eq!(factor_landmark(&aom, &FactorShape { landmark_index: Some(1), ..factor }), None);
    let counts = row_counts(&vec![factor, FactorShape { kind: 2, rows: 9, landmark_index: None }, factor]);
    assert_eq!(counts, BTreeMap::from([(1, 8), (2, 9)]));
}

#[test]
fn rows_divide_into_prior_landmarks_and_links() {
    let counts = factor_row_counts(&vec![30, 4, 6, 9, 6, 9, 6], true, 2);
    assert_eq!(counts, RowCounts { prior: 30, visual: 10, imu: 18, bias: 12 });
    let counts = factor_row_counts(&vec![4, 6], false, 0);
    assert_eq!(counts, RowCounts { prior: 0, visual: 10, imu: 0, bias: 0 });
}

#[test]
fn priors_keep_the_blocks_that_stay() {
    let w = window();
    let layout = anchor_prior_for_kept(&w, &vec![2]).unwrap();
    assert_eq!(layout.frame_ids, vec![1, 3, 4]);
    assert_eq!(layout.dof, 36);
    assert!(anchor_prior_for_kept(&w, &vec![1, 2, 3, 4]).is_none());
    let kinds = vec![BlockKind::Pose, BlockKind::Pose, BlockKind::State];
    assert_eq!(
        prior_data_for_tables(&w, &kinds, &vec![1, 2, 3]),
        vec![BlockKind::Pose, BlockKind::StatePose, BlockKind::State]
    );
    let order = aom_order(&w.poses, &w.states);
    assert_eq!(order.iter().map(|b| b.offset).collect::<Vec<_>>(), vec![0, 6, 21, 36]);
}

#[test]
fn bits_compare_as_the_numbers_they_stand_for() {
    let numbers = [
        f64::NEG_INFINITY, -2.5, -1.0, -5e-324, -0.0, 0.0, 5e-324, 0.1, 1.0, 2.5, f64::MAX,
        f64::INFINITY, f64::NAN, -f64::NAN,
    ];
    for a in numbers {
        assert_eq!(is_double_finite(a.to_bits()), a.is_finite());
        for b in numbers {
            assert_eq!(is_double_less(a.to_bits(), b.to_bits()), a < b);
            assert_eq!(is_double_at_most(a.to_bits(), b.to_bits()), a <= b);
            let total = a.total_cmp(&b).is_lt();
            assert_eq!(is_double_total_less(a.to_bits(), b.to_bits()), total);
        }
    }
    let singles: Vec<f32> = numbers.iter().map(|x| *x as f32).collect();
    for a in &singles {
        assert_eq!(is_single_finite(a.to_bits()), a.is_finite());
        for b in &singles {
            assert_eq!(is_single_less(a.to_bits(), b.to_bits()), a < b);
            assert_eq!(is_single_at_most(a.to_bits(), b.to_bits()), a <= b);
            let total = a.total_cmp(b).is_lt();
            assert_eq!(is_single_total_less(a.to_bits(), b.to_bits()), total);
        }
    }
}

#[test]
fn numbers_and_bytes_are_written_out() {
    let mut out = String::from("<");
    append_decimal(&mut out, u64::MAX);
    append_count(&mut out, 0);
    append_signed(&mut out, i64::MIN);
    append_signed(&mut out, 12);
    assert_eq!(out, "<184467440737095516150-922337203685477580812");
    assert_eq!(hex_text(&vec![0, 1, 0xab, 0xff]), "0001abff");
}

#[test]
fn texts_are_ordered_by_their_bytes() {
    let texts = ["", "a", "ab", "b", "é", "z"];
    for a in texts {
        for b in texts {
            let relation = match text_order(&a.to_string(), &b.to_string()) {
                Relation::Before => std::cmp::Ordering::Less,
                Relation::Same => std::cmp::Ordering::Equal,
                Relation::After => std::cmp::Ordering::Greater,
            };
            assert_eq!(relation, a.cmp(b));
        }
    }
}

#[test]
fn maps_and_lists_keep_their_order() {
    let mut m: BTreeMap<u64, Vec<u8>> = BTreeMap::new();
    for key in [7, 3, 5] {
        push_to(&mut m, key, key as u8);
        push_to(&mut m, key, 0);
    }
    assert_eq!(map_keys(&m), vec![3, 5, 7]);
    assert_eq!(copy_list_of(&m, 5), vec![5, 0]);
    assert!(copy_list_of(&m, 6).is_empty());
    retain_ids(&mut m, &vec![3, 7, 9]);
    assert_eq!(map_keys(&m), vec![3, 7]);
    remove_all(&mut m, &vec![3, 4]);
    assert_eq!(map_keys(&m), vec![7]);
    assert_eq!(sorted_unique(&vec![4, 2, 4, 1]), vec![1, 2, 4]);
    assert!(contains_id(&vec![4, 2], 2) && !contains_id(&vec![4, 2], 3));
    assert_eq!(set_members(&BTreeSet::from([3, 1])), vec![1, 3]);
}

#[test]
fn attempts_are_told_up_to_the_accepted_one() {
    let attempt = |baseline: f64, rho: Option<f64>| Attempt {
        baseline: baseline.to_bits(),
        inverse_distance: rho.map(f64::to_bits),
    };
    let attempts = vec![
        attempt(0.04, Some(1.0)),
        attempt(0.2, None),
        attempt(0.2, Some(3.0)),
        attempt(0.2, Some(f64::NAN)),
        attempt(0.05, Some(0.5)),
        attempt(0.2, Some(0.5)),
    ];
    assert_eq!(select_attempt(&attempts), Some(4));
    assert_eq!(
        attempt_statuses(&attempts, ScalarMode::UpstreamF32),
        vec![
            AttemptStatus::BaselineRejected,
            AttemptStatus::Failed,
            AttemptStatus::DistanceRejected,
            AttemptStatus::DistanceRejected,
            AttemptStatus::Accepted,
        ]
    );
    let told: Vec<&str> = attempt_statuses(&attempts[..2].to_vec(), ScalarMode::ExtendedF64)
        .iter()
        .map(|s| s.name())
        .collect();
    assert_eq!(told, ["baseline_rejected", "extended_f64_untraced"]);
    assert_eq!(AttemptStatus::Failed.name(), "dlt_failed");
    assert_eq!(AttemptStatus::DistanceRejected.name(), "rho_rejected");
    assert_eq!(AttemptStatus::Accepted.name(), "accepted");
}

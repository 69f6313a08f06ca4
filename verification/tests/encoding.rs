use std::collections::BTreeSet;
use visloc::multi_robot::encoder::{
    describe_frames, feature_frame, landmarks_of, manifest_digest, model_id, Encoder, FoundFeature, ModelIdentity,
};
use visloc::multi_robot::keys::Key;
use visloc::multi_robot::retrieval::Retrieval;
use visloc::multi_robot::sequence::{middles, KeyframeMeta};
use visloc::multi_robot::types::{
    CameraModel, KeyframeRecord, Quadruple, SinglePixel, Transform, Triple,
};

fn camera() -> CameraModel {
    CameraModel {
        width: 640,
        height: 480,
        width_single: 640.0f32.to_bits(),
        height_single: 480.0f32.to_bits(),
        intrinsics: Quadruple {
            x: 300.0f64.to_bits(),
            y: 300.0f64.to_bits(),
            z: 320.0f64.to_bits(),
            w: 240.0f64.to_bits(),
        },
        camera_to_body: Transform::default(),
    }
}

fn meta(id: u64) -> KeyframeMeta {
    KeyframeMeta {
        record: KeyframeRecord {
            key: Key::new("a", "s", id),
            timestamp_ns: id as i64 * 10,
            body_to_odom: Transform::default(),
            previous: None,
        },
        camera_position: Triple { x: (id as f64).to_bits(), y: 0, z: 0 },
        landmarks: BTreeSet::new(),
    }
}

fn known(text: &str) -> ModelIdentity {
    ModelIdentity::Known(text.into())
}

fn encoder() -> Encoder<u64> {
    Encoder::new(128, camera(), Key::new("a", "s", 0), &known("j"), &known("x"), &known("l")).unwrap()
}

#[test]
fn model_names_are_digests_of_what_the_models_are() {
    let id = model_id(&known("j"), &known("x"), &known("l"));
    assert_eq!(id, "1889670404842fa1b753eea9b0dbc8c05a56812731e0754fc8c9883a6ff63faa");
    // A digest from a manifest and a file that holds the same bytes count alike.
    let same = model_id(&ModelIdentity::Contents(b"j".to_vec()), &known("x"), &known("l"));
    assert_eq!(id, same);
    assert_ne!(id, model_id(&known("k"), &known("x"), &known("l")));
}

#[test]
fn landmarks_are_the_tracks_with_points() {
    let seen = vec![(7, true), (3, false), (5, true), (7, false)];
    assert_eq!(landmarks_of(&seen).into_iter().collect::<Vec<u64>>(), vec![5, 7]);
    assert!(landmarks_of(&vec![(3, false)]).is_empty());
}

#[test]
fn manifests_name_digests_or_nothing() {
    let text = br#"{"models": {"jist": {"onnx_sha256": "abc"}, "xfeat": {"onnx_sha256": 7}}}"#;
    let manifest = text.to_vec();
    assert_eq!(manifest_digest(Some(&manifest), "jist"), Some("abc".to_string()));
    assert_eq!(manifest_digest(Some(&manifest), "xfeat"), None);
    assert_eq!(manifest_digest(Some(&manifest), "lighterglue"), None);
    assert_eq!(manifest_digest(Some(&b"not json".to_vec()), "jist"), None);
    assert_eq!(manifest_digest(None, "jist"), None);
}

#[test]
fn encoders_ask_for_the_right_models_camera_and_owner() {
    let make = |n: usize, c: CameraModel, robot: &str| {
        Encoder::<u64>::new(n, c, Key::new(robot, "s", 0), &known("j"), &known("x"), &known("l"))
            .map(|e| e.next_sequence)
            .map_err(|e| e.message())
    };
    assert_eq!(make(128, camera(), "a"), Ok(0));
    assert_eq!(
        make(127, camera(), "a"),
        Err("SB-SLAM mode requires exactly 128 real matcher features".to_string())
    );
    let mut blind = camera();
    blind.height = 0;
    assert_eq!(make(128, blind, "a"), Err("invalid pinhole camera".to_string()));
    assert_eq!(make(128, camera(), "!"), Err("invalid robot/session identity".to_string()));
}

#[test]
fn ten_frames_make_a_sequence_that_retrieval_accepts() {
    let mut e = encoder();
    for id in 0..9 {
        assert!(e.push(id, 100 + id, meta(id)).unwrap().is_none());
    }
    let block = e.push(9, 109, meta(9)).unwrap().expect("the tenth completes the sequence");
    let costs: Vec<u64> = middles()
        .iter()
        .map(|m| {
            let ids = [0, m.a, m.b, m.c, 9];
            ids.windows(2).map(|w| ((w[1] - w[0]) as f64).powi(2)).sum::<f64>().to_bits()
        })
        .collect();
    // The frames of the ten are all held.
    assert!(block.iter().all(|m| e.frames[&m.record.key.id] == 100 + m.record.key.id));
    let five = e.select(&block, &costs);
    assert_eq!(five, [0, 2, 4, 6, 9]);
    let mut descriptor = vec![0.0f32.to_bits(); 512];
    descriptor[3] = 1.0f32.to_bits();
    let sequence = e.assemble(&block, &five, descriptor, 0);
    assert_eq!(sequence.key, Key::new("a", "s", 0));
    assert_eq!(sequence.members.len(), 10);
    assert_eq!(sequence.selected.iter().map(|k| k.id).collect::<Vec<_>>(), vec![0, 2, 4, 6, 9]);
    assert_eq!((sequence.start_ns, sequence.end_ns), (0, 90));
    assert_eq!(sequence.excluded_keyframes, (0..10).collect::<Vec<u64>>());
    assert_eq!(sequence.model_id, e.model_id);
    assert_eq!(e.next_sequence, 1);
    let rows = vec![1.0f32.to_bits(); 2560];
    let described = describe_frames(&sequence, rows.clone(), vec![7; 5]);
    assert_eq!(described.sequence, sequence.key);
    assert_eq!(described.frames, sequence.selected);
    assert_eq!((described.descriptors, described.norm_errors), (rows, vec![7; 5]));
    assert_eq!(e.take_frame(2), Some(102));
    assert_eq!(e.take_frame(2), None);
    e.close();
    assert_eq!(e.take_frame(4), None);
    assert!(Retrieval::default().insert(sequence).unwrap());
}

#[test]
fn gaps_and_repeats_are_counted() {
    let mut e = encoder();
    e.push(0, 0, meta(0)).unwrap();
    e.push(2, 2, meta(2)).unwrap();
    assert_eq!((e.resets, e.skipped), (1, 0));
    assert_eq!(e.take_frame(0), None);
    let seen: BTreeSet<u64> = (0..40).collect();
    let mut third = meta(3);
    third.landmarks = seen.clone();
    e.push(3, 3, third).unwrap();
    let mut fourth = meta(4);
    fourth.landmarks = seen;
    assert!(e.push(4, 4, fourth).unwrap().is_none());
    assert_eq!((e.resets, e.skipped), (1, 1));
    assert_eq!(e.take_frame(4), None);
    assert_eq!(
        e.push(6, 6, meta(5)).unwrap_err().message(),
        "frame/session identity mismatch"
    );
    let mut foreign = meta(5);
    foreign.record.key.robot = "b".into();
    assert_eq!(e.push(5, 5, foreign).unwrap_err().message(), "frame/session identity mismatch");
}

#[test]
fn points_are_kept_where_depth_and_pixel_agree() {
    let feature = |z: f64, error: Option<f64>| FoundFeature {
        track_id: z as u64,
        point: Some(Triple { x: 0, y: 0, z: z.to_bits() }),
        pixel_error: error.map(|e| e.to_bits()),
    };
    let features = vec![
        feature(5.0, Some(2.9)),
        feature(5.0, Some(3.0)),
        feature(0.1, Some(0.0)),
        feature(150.0, Some(0.0)),
        feature(5.0, None),
        feature(7.0, Some(0.0)),
    ];
    let pixels = vec![SinglePixel { x: 0, y: 0 }; 5];
    let frame = feature_frame(&Key::new("a", "s", 1), 5, camera(), &features, pixels, vec![0; 320]);
    assert_eq!(frame.track_ids, vec![5, 5, 0, 150, 5]);
    let kept: Vec<bool> = frame.points_camera.iter().map(|p| p.is_some()).collect();
    assert_eq!(kept, vec![true, false, false, false, false]);
    assert!(frame.validate().is_ok());
}

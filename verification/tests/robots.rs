use std::collections::{BTreeMap, BTreeSet};
use visloc::multi_robot::backend::{Backend, BackendConfig};
use visloc::multi_robot::components::{span, Edge};
use visloc::multi_robot::error::Error;
use visloc::multi_robot::geometry::{
    seed, verify, Evidence, FeatureMatch, PnpReport, SHIFT_WEIGHT, TURN_WEIGHT,
};
use visloc::multi_robot::keys::{Key, Ordered, Pair};
use visloc::multi_robot::retrieval::{is_local, Retrieval};
use visloc::multi_robot::sequence::{
    middles, refine, select_five, KeyframeMeta, Middle, SequenceBuilder,
};
use visloc::multi_robot::solve::{accept_costs, GraphSnapshot, Solution};
use visloc::multi_robot::types::{
    checked_information, CameraModel, FeatureFrame, FrameDescriptors, KeyframeRecord,
    LoopConstraint, Quadruple, Sequence, SinglePixel, Transform, Triple, Verification,
};
use visloc::text::Relation;

fn triple(x: f64, y: f64, z: f64) -> Triple {
    Triple { x: x.to_bits(), y: y.to_bits(), z: z.to_bits() }
}

fn motion(translation: [f64; 3], rotation: [f64; 4]) -> Transform {
    let norm = rotation.iter().map(|v| v * v).sum::<f64>().sqrt();
    Transform {
        translation: triple(translation[0], translation[1], translation[2]),
        rotation_xyzw: Quadruple {
            x: rotation[0].to_bits(),
            y: rotation[1].to_bits(),
            z: rotation[2].to_bits(),
            w: rotation[3].to_bits(),
        },
        rotation_error: (norm - 1.0).abs().to_bits(),
    }
}

fn t(x: f64, y: f64, z: f64) -> Transform {
    motion([x, y, z], [0.0, 0.0, 0.0, 1.0])
}

fn place(t: &Transform) -> [f64; 3] {
    [
        f64::from_bits(t.translation.x),
        f64::from_bits(t.translation.y),
        f64::from_bits(t.translation.z),
    ]
}

fn key(robot: &str, id: u64) -> Key {
    Key::new(robot, "session", id)
}

fn record(robot: &str, id: u64, x: f64) -> KeyframeRecord {
    KeyframeRecord {
        key: key(robot, id),
        timestamp_ns: id as i64 * 1_000_000_000,
        body_to_odom: t(x, 0.0, 0.0),
        previous: if id > 0 { Some(key(robot, id - 1)) } else { None },
    }
}

fn meta(id: u64, landmarks: BTreeSet<u64>) -> KeyframeMeta {
    KeyframeMeta {
        record: record("a", id, id as f64),
        camera_position: triple(id as f64, 0.0, 0.0),
        landmarks,
    }
}

fn descriptor(axis: usize) -> Vec<f32> {
    let mut v = vec![0.0; 512];
    v[axis] = 1.0;
    v
}

fn bits(values: &[f32]) -> Vec<u32> {
    values.iter().map(|v| v.to_bits()).collect()
}

fn unit_error(values: &[f32]) -> u32 {
    (values.iter().map(|v| v * v).sum::<f32>() - 1.0).abs().to_bits()
}

fn dot(a: &[u32], b: &[u32]) -> f32 {
    a.iter().zip(b).map(|(x, y)| f32::from_bits(*x) * f32::from_bits(*y)).sum()
}

fn sequence(robot: &str, id: u64, start: u64) -> Sequence {
    let d = descriptor(0);
    Sequence {
        key: key(robot, id),
        members: (start..start + 10).map(|i| key(robot, i)).collect(),
        selected: [0, 2, 4, 6, 9].map(|i| key(robot, start + i)).to_vec(),
        start_ns: start as i64 * 1_000_000_000,
        end_ns: (start + 9) as i64 * 1_000_000_000,
        model_id: "model".into(),
        descriptor: bits(&d),
        norm_error: unit_error(&d),
        excluded_keyframes: vec![],
    }
}

fn similarities(db: &Retrieval, query: &Sequence) -> Vec<u32> {
    db.sequences
        .entries
        .iter()
        .map(|e| dot(&query.descriptor, &e.1.descriptor).to_bits())
        .collect()
}

fn information(translation: f64, rotation: f64) -> Vec<u64> {
    let mut out = vec![0u64; 36];
    for i in 0..6 {
        let sigma = if i < 3 { translation } else { rotation };
        out[i * 6 + i] = sigma.powi(-2).to_bits();
    }
    out
}

fn edge(a: Key, b: Key, z: Transform) -> LoopConstraint {
    LoopConstraint {
        pair: Pair::new(
            Key { id: 0, ..a.clone() },
            Key { id: 0, ..b.clone() },
        ),
        from: a,
        to: b,
        to_from: z,
        information: information(0.2, 0.04),
        asymmetry: 0,
        definite: true,
        similarity: 0.9f32.to_bits(),
        verification: Verification { pnp_inliers: 30, ..Default::default() },
    }
}

/// Composes translations along the trees of a plan: what a solver starts from, and what it keeps
/// where the constraints agree.
fn solve(b: &Backend, previous: &GraphSnapshot) -> Result<GraphSnapshot, Error> {
    let plan = b.plan(previous)?;
    let n = b.records.entries.len();
    let raw: Vec<[f64; 3]> = b.records.entries.iter().map(|e| place(&e.1.body_to_odom)).collect();
    // The motion of an edge takes a point of its first body to its second.
    let z: Vec<[f64; 3]> = plan
        .edges
        .iter()
        .map(|e| {
            if e.closes {
                place(&b.loops.entries[e.source].1.to_from)
            } else {
                let (p, r) = (raw[e.from], raw[e.to]);
                [p[0] - r[0], p[1] - r[1], p[2] - r[2]]
            }
        })
        .collect();
    let mut pose = vec![[0.0; 3]; n];
    for tree in &plan.trees {
        pose[tree.order[0]] = raw[tree.order[0]];
        for step in &tree.steps {
            let sign = if step.forward { -1.0 } else { 1.0 };
            for d in 0..3 {
                pose[step.child][d] = pose[step.parent][d] + sign * z[step.edge][d];
            }
        }
    }
    let seeds = pose.clone();
    for i in 0..n {
        if let Some(w) = plan.warm[i] {
            let a = plan.anchor[i].unwrap();
            let old = place(&previous.poses[w].body_to_map);
            let base = place(&previous.poses[plan.warm[a].unwrap()].body_to_map);
            for d in 0..3 {
                pose[i][d] = seeds[a][d] - base[d] + old[d];
            }
        }
    }
    let body_to_map = pose.iter().map(|p| t(p[0], p[1], p[2])).collect();
    let map_from_odom = pose
        .iter()
        .zip(&raw)
        .map(|(p, r)| t(p[0] - r[0], p[1] - r[1], p[2] - r[2]))
        .collect();
    let solution = Solution {
        body_to_map,
        map_from_odom,
        initial_cost: 0,
        final_cost: 0,
        solve_ms: 0,
    };
    b.conclude(previous, &plan, &solution)
}

fn costs(positions: &[[f64; 3]]) -> Vec<u64> {
    middles()
        .iter()
        .map(|m| {
            let ids = [0, m.a, m.b, m.c, 9];
            ids.windows(2)
                .map(|w| {
                    (0..3)
                        .map(|d| {
                            let p = positions.get(w[0]).map_or(0.0, |p| p[d]);
                            let q = positions.get(w[1]).map_or(0.0, |p| p[d]);
                            (p - q).powi(2)
                        })
                        .sum::<f64>()
                })
                .sum::<f64>()
                .to_bits()
        })
        .collect()
}

fn triples(positions: &[[f64; 3]]) -> Vec<Triple> {
    positions.iter().map(|p| triple(p[0], p[1], p[2])).collect()
}

#[test]
fn exact_selection_and_stationary_ties() {
    let positions: Vec<[f64; 3]> = (0..10).map(|i| [i as f64, 0.0, 0.0]).collect();
    assert_eq!(select_five(&triples(&positions), &costs(&positions)).unwrap(), [0, 2, 4, 6, 9]);
    let still = vec![[0.0; 3]; 10];
    assert_eq!(select_five(&triples(&still), &costs(&still)).unwrap(), [0, 1, 2, 3, 9]);
    // Costs that are no numbers or infinite lose against any other, and among themselves the first
    // choice stands.
    let mut wild = vec![f64::NAN.to_bits(); middles().len()];
    assert_eq!(select_five(&triples(&still), &wild).unwrap(), [0, 1, 2, 3, 9]);
    wild[1] = f64::INFINITY.to_bits();
    assert_eq!(select_five(&triples(&still), &wild).unwrap(), [0, 1, 2, 3, 9]);
    wild[2] = 5.0f64.to_bits();
    wild[3] = 5.0f64.to_bits();
    assert_eq!(select_five(&triples(&still), &wild).unwrap(), [0, 1, 2, 5, 9]);
    let few = vec![[0.0; 3]; 9];
    assert_eq!(
        select_five(&triples(&few), &costs(&few)).unwrap_err().message(),
        "selection requires ten finite camera centers"
    );
}

#[test]
fn choices_are_listed_in_lexicographic_order() {
    let list = middles();
    assert_eq!(list.len(), 56);
    assert_eq!(list[0], Middle { a: 1, b: 2, c: 3 });
    assert_eq!(list[55], Middle { a: 6, b: 7, c: 8 });
    assert!(list.windows(2).all(|w| (w[0].a, w[0].b, w[0].c) < (w[1].a, w[1].b, w[1].c)));
}

#[test]
fn covisibility_skips_do_not_reset_blocks_but_missing_keyframes_do() {
    let mut b = SequenceBuilder::default();
    assert!(b.push(meta(0, (0..100).collect())).unwrap().retained);
    assert!(!b.push(meta(1, (0..100).collect())).unwrap().retained);
    assert!(b.push(meta(2, (5..105).collect())).unwrap().retained); // exactly .95
    let result = b.push(meta(4, BTreeSet::new())).unwrap();
    assert!(result.reset && result.retained);
    for id in 5..13 {
        assert!(b.push(meta(id, BTreeSet::new())).unwrap().complete.is_none());
    }
    let result = b.push(meta(13, BTreeSet::new())).unwrap();
    let block = result.complete.unwrap();
    assert_eq!(block[0].record.key.id, 4);
    assert_eq!(block[9].record.key.id, 13);
}

#[test]
fn ten_retained_frames_not_raw_ordinals() {
    let mut b = SequenceBuilder::default();
    let mut completed = None;
    for i in 0..20 {
        let p = b.push(meta(i, ((i / 2) * 100..(i / 2 + 1) * 100).collect())).unwrap();
        if p.complete.is_some() {
            completed = p.complete;
        }
    }
    let block = completed.unwrap();
    assert_eq!(
        block.iter().map(|m| m.record.key.id).collect::<Vec<_>>(),
        (0..20).step_by(2).collect::<Vec<_>>()
    );
}

#[test]
fn a_builder_refuses_what_does_not_follow() {
    let mut b = SequenceBuilder::default();
    b.push(meta(3, BTreeSet::new())).unwrap();
    let again = b.push(meta(3, BTreeSet::new()));
    assert_eq!(again.unwrap_err().message(), "keyframes must increase within one session");
    let mut other = meta(4, BTreeSet::new());
    other.record.key.session = "other".into();
    assert_eq!(
        b.push(other).unwrap_err().message(),
        "keyframes must increase within one session"
    );
    let mut lost = meta(4, BTreeSet::new());
    lost.camera_position.y = f64::NAN.to_bits();
    assert_eq!(b.push(lost).unwrap_err().message(), "invalid camera center");
    let mut bent = meta(4, BTreeSet::new());
    bent.record.body_to_odom = motion([0.0; 3], [0.0; 4]);
    assert_eq!(b.push(bent).unwrap_err().message(), "nonfinite pose or non-unit quaternion");
    assert!(b.push(meta(4, BTreeSet::new())).unwrap().retained);
}

#[test]
fn refinement_searches_both_axes_instead_of_newest_frame() {
    let rows = |range: std::ops::Range<usize>| -> Vec<f32> { range.flat_map(descriptor).collect() };
    let errors = |v: &Vec<f32>| -> Vec<u32> { v.chunks(512).map(unit_error).collect() };
    let da = rows(0..5);
    let mut db = rows(10..15);
    db[512..1024].copy_from_slice(&descriptor(2));
    let a = FrameDescriptors {
        sequence: key("a", 0),
        frames: (0..5).map(|i| key("a", i)).collect(),
        descriptors: bits(&da),
        norm_errors: errors(&da),
    };
    let b = FrameDescriptors {
        sequence: key("b", 0),
        frames: (0..5).map(|i| key("b", i)).collect(),
        descriptors: bits(&db),
        norm_errors: errors(&db),
    };
    let mut scores = Vec::new();
    for i in 0..5 {
        for j in 0..5 {
            let x = &a.descriptors[i * 512..(i + 1) * 512];
            let y = &b.descriptors[j * 512..(j + 1) * 512];
            scores.push(dot(x, y).to_bits());
        }
    }
    let (ka, kb, s) = refine(&a, &b, &scores).unwrap();
    assert_eq!((ka.id, kb.id, f32::from_bits(s)), (2, 1, 1.0));
    let torn = FrameDescriptors {
        sequence: key("c", 0),
        frames: vec![],
        descriptors: vec![],
        norm_errors: vec![],
    };
    assert_eq!(
        refine(&a, &torn, &scores).unwrap_err().message(),
        "invalid JIST frame descriptor matrix"
    );
    // Equal scores go to the earliest pair.
    let (ka, kb, _) = refine(&a, &b, &vec![0.5f32.to_bits(); 25]).unwrap();
    assert_eq!((ka.id, kb.id), (0, 0));
}

#[test]
fn local_candidates_excluded_before_top_k_and_cross_robot_ids_never_excluded() {
    let mut db = Retrieval::default();
    let mut query = sequence("a", 10, 200);
    query.excluded_keyframes = (0..10).collect();
    db.insert(sequence("a", 0, 0)).unwrap();
    db.insert(sequence("a", 9, 190)).unwrap();
    db.insert(sequence("b", 10, 200)).unwrap();
    db.insert(sequence("c", 10, 200)).unwrap();
    db.insert(sequence("d", 10, 200)).unwrap();
    let (c, stats) = db.candidates(&query, 0.8f32.to_bits(), &similarities(&db, &query));
    assert_eq!(c.len(), 3);
    assert_eq!(stats.excluded_local, 2);
    assert_eq!(stats.compared, 3);
    assert!(c.iter().all(|(k, _)| k.robot != "a"));
}

#[test]
fn remote_queries_do_not_spend_slots_on_unowned_pairs() {
    let mut db = Retrieval::default();
    for r in ["a", "b", "c", "d"] {
        db.insert(sequence(r, 0, 0)).unwrap();
    }
    let query = sequence("d", 9, 90);
    let owner = key("a", 0);
    let near = similarities(&db, &query);
    let (c, s) = db.candidates_for(&query, 0.8f32.to_bits(), Some(&owner), &near);
    assert_eq!(s.compared, 1);
    assert_eq!(c[0].0.robot, "a");
}

#[test]
fn candidates_are_ranked_and_neighbours_grouped() {
    let mut db = Retrieval::default();
    db.insert(sequence("b", 1, 0)).unwrap();
    db.insert(sequence("b", 2, 100)).unwrap();
    db.insert(sequence("c", 1, 0)).unwrap();
    db.insert(sequence("d", 1, 0)).unwrap();
    db.insert(sequence("e", 1, 0)).unwrap();
    let query = sequence("a", 0, 0);
    // In the order of the names: two of robot b that follow one another, then c, d and e.
    let near: Vec<u32> = [0.9f32, 0.95, 0.85, 0.85, 0.5].iter().map(|v| v.to_bits()).collect();
    let (c, stats) = db.candidates(&query, 0.8f32.to_bits(), &near);
    let found: Vec<(String, u64)> = c.iter().map(|(k, _)| (k.robot.clone(), k.id)).collect();
    assert_eq!(found, vec![("b".to_string(), 2), ("c".to_string(), 1), ("d".to_string(), 1)]);
    assert_eq!(stats.compared, 5);
    assert_eq!(stats.above_threshold, 4);
    assert_eq!(stats.grouped, 1);
    assert_eq!(stats.excluded_local, 0);
}

#[test]
fn sequences_are_checked_and_taken_once() {
    let mut db = Retrieval::default();
    assert!(db.insert(sequence("a", 0, 0)).unwrap());
    assert!(!db.insert(sequence("a", 0, 0)).unwrap());
    let mut other = sequence("a", 0, 0);
    other.model_id = "other".into();
    assert_eq!(
        db.insert(other).unwrap_err().message(),
        "conflicting sequence retransmission"
    );
    let mut long = sequence("a", 1, 0);
    long.descriptor[1] = 0.5f32.to_bits();
    long.norm_error = 0.25f32.to_bits();
    assert_eq!(db.insert(long).unwrap_err().message(), "invalid ten-keyframe sequence");
    let mut backwards = sequence("a", 1, 0);
    backwards.members.swap(0, 1);
    assert_eq!(db.insert(backwards).unwrap_err().message(), "invalid ten-keyframe sequence");
    let mut unnamed = sequence("a", 1, 0);
    unnamed.key.robot = "a b".into();
    assert_eq!(db.insert(unnamed).unwrap_err().message(), "invalid robot/session identity");
    let mut foreign = sequence("a", 1, 0);
    foreign.selected[0] = key("a", 77);
    assert!(db.insert(foreign).is_err());
    assert_eq!(db.sequences.len(), 1);
}

#[test]
fn locality_counts_time_only_where_asked() {
    let a = sequence("a", 0, 0);
    let mut b = sequence("a", 5, 100);
    b.start_ns = 20_000_000_000;
    b.end_ns = 30_000_000_000;
    assert!(is_local(&a, &b, true));
    assert!(is_local(&b, &a, true));
    assert!(!is_local(&a, &b, false));
    b.start_ns = 29_000_000_000;
    assert!(!is_local(&a, &b, true));
    b.excluded_keyframes = vec![3];
    assert!(is_local(&a, &b, false));
    assert!(!is_local(&a, &sequence("b", 0, 0), true));
}

#[test]
fn identity_dedup_and_conflicting_retransmissions() {
    let mut b = Backend::default();
    assert!(b.insert_keyframe(record("a", 0, 0.0)).unwrap());
    assert!(!b.insert_keyframe(record("a", 0, 0.0)).unwrap());
    assert!(b.insert_keyframe(record("b", 0, 0.0)).unwrap());
    assert!(b.insert_keyframe(record("a", 0, 1.0)).is_err());
    assert_eq!(b.records.len(), 2);
}

#[test]
fn disconnected_components_remain_independent_until_measured_bridge() {
    let mut b = Backend::default();
    for r in ["a", "b"] {
        for i in 0..4 {
            b.insert_keyframe(record(r, i, i as f64)).unwrap();
        }
    }
    let before = solve(&b, &GraphSnapshot::default()).unwrap();
    assert_eq!(before.components, 2);
    let bridge = edge(key("a", 1), key("b", 1), t(-10.0, 0.0, 0.0));
    b.insert_loop(bridge.clone()).unwrap();
    assert!(!b.insert_loop(bridge).unwrap());
    let after = solve(&b, &before).unwrap();
    assert_eq!(after.components, 1);
    assert!(f64::from_bits(after.final_cost) <= f64::from_bits(after.initial_cost) + 1e-9);
    for p in &after.poses {
        let shift = if p.key.robot == "b" { 10.0 } else { 0.0 };
        assert!((place(&p.body_to_map)[0] - (p.key.id as f64 + shift)).abs() < 1e-7);
    }
    assert_eq!(place(&after.poses[0].body_to_map), [0.0, 0.0, 0.0]);
    assert_eq!(after.revision, 2);
    assert_eq!(after.input_revision, 9);
    assert_eq!(after.loops.len(), 1);
}

#[test]
fn out_of_order_constraints_wait_for_real_endpoints() {
    let mut b = Backend::default();
    b.insert_loop(edge(key("a", 0), key("b", 0), t(-3.0, 0.0, 0.0))).unwrap();
    assert_eq!(solve(&b, &GraphSnapshot::default()).unwrap().poses.len(), 0);
    b.insert_keyframe(record("a", 0, 0.0)).unwrap();
    b.insert_keyframe(record("b", 0, 0.0)).unwrap();
    let s = solve(&b, &GraphSnapshot::default()).unwrap();
    assert_eq!(s.components, 1);
    assert!((place(&s.poses[1].body_to_map)[0] - 3.0).abs() < 1e-7);
}

#[test]
fn no_loop_graph_preserves_raw_vio() {
    let mut b = Backend::default();
    for i in (0..20).rev() {
        b.insert_keyframe(record("a", i, i as f64 * 0.31)).unwrap();
    }
    let s = solve(&b, &GraphSnapshot::default()).unwrap();
    assert_eq!(s.poses.len(), 20);
    for p in s.poses {
        let raw = b.records.get(&p.key).unwrap();
        assert!((place(&p.body_to_map)[0] - place(&raw.body_to_odom)[0]).abs() < 1e-10);
    }
}

#[test]
fn arrival_order_leaves_the_graph_the_same() {
    let mut forward = Backend::default();
    let mut backward = Backend::default();
    for i in 0..5 {
        forward.insert_keyframe(record("a", i, i as f64)).unwrap();
        backward.insert_keyframe(record("a", 4 - i, (4 - i) as f64)).unwrap();
    }
    let names = |b: &Backend| b.records.entries.iter().map(|e| e.0.id).collect::<Vec<_>>();
    assert_eq!(names(&forward), vec![0, 1, 2, 3, 4]);
    assert_eq!(names(&forward), names(&backward));
}

#[test]
fn plans_say_where_loops_and_earlier_poses_are() {
    let mut b = Backend::default();
    for r in ["a", "b"] {
        for i in 0..2 {
            b.insert_keyframe(record(r, i, i as f64)).unwrap();
        }
    }
    let before = solve(&b, &GraphSnapshot::default()).unwrap();
    b.insert_loop(edge(key("a", 0), key("b", 1), t(-4.0, 0.0, 0.0))).unwrap();
    let plan = b.plan(&before).unwrap();
    assert_eq!(
        plan.edges,
        vec![
            Edge { from: 0, to: 1, closes: false, source: 1 },
            Edge { from: 2, to: 3, closes: false, source: 3 },
            Edge { from: 0, to: 3, closes: true, source: 0 },
        ]
    );
    assert_eq!(plan.trees.len(), 1);
    assert_eq!(plan.trees[0].order, vec![0, 1, 3, 2]);
    assert_eq!(plan.solves, vec![true]);
    assert_eq!(plan.component, vec![0, 0, 0, 0]);
    assert_eq!(plan.warm, vec![Some(0), Some(1), Some(2), Some(3)]);
    // Each earlier component is aligned by its own first keyframe.
    assert_eq!(plan.anchor, vec![Some(0), Some(0), Some(2), Some(2)]);
}

#[test]
fn graphs_that_cannot_be_solved_are_refused() {
    let mut config = BackendConfig::default();
    config.loop_rotation_sigma = 0;
    assert_eq!(
        Backend::new(config).plan(&GraphSnapshot::default()).unwrap_err().message(),
        "invalid graph noise configuration"
    );
    let mut b = Backend::default();
    b.insert_keyframe(record("a", 0, 0.0)).unwrap();
    let mut late = record("a", 1, 1.0);
    late.timestamp_ns = 0;
    b.insert_keyframe(late).unwrap();
    assert_eq!(
        b.plan(&GraphSnapshot::default()).unwrap_err().message(),
        "non-increasing odometry time"
    );
    let mut b = Backend::default();
    b.insert_keyframe(record("a", 0, 0.0)).unwrap();
    let mut bent = solve(&b, &GraphSnapshot::default()).unwrap();
    let straight = bent.poses[0].clone();
    bent.poses[0].body_to_map = motion([0.0; 3], [0.0, 0.0, 0.0, 2.0]);
    assert_eq!(b.plan(&bent).unwrap_err().message(), "nonfinite pose or non-unit quaternion");
    // The last pose of a keyframe counts, and one of an unknown keyframe does not.
    bent.poses.push(straight);
    assert_eq!(b.plan(&bent).unwrap().warm, vec![Some(1)]);
    bent.poses.truncate(1);
    bent.poses[0].key = key("z", 9);
    assert_eq!(b.plan(&bent).unwrap().warm, vec![None]);
    assert!(accept_costs(2.0f64.to_bits(), 1.0f64.to_bits(), 2.0f64.to_bits()).is_ok());
    assert_eq!(
        accept_costs(1.0f64.to_bits(), 2.0f64.to_bits(), (1.0 + 1e-9f64).to_bits())
            .unwrap_err()
            .message(),
        "optimizer increased robust objective"
    );
    assert!(accept_costs(f64::NAN.to_bits(), 0, 0).is_err());
}

#[test]
fn weights_of_found_loops_are_accepted() {
    let weights = information(0.2, 0.04);
    assert_eq!(weights[0], SHIFT_WEIGHT);
    assert_eq!(weights[35], TURN_WEIGHT);
    assert!(checked_information(&weights, 0, true).is_ok());
}

#[test]
fn keyframes_and_loops_are_checked() {
    let mut b = Backend::default();
    let mut loose = record("a", 3, 0.0);
    loose.previous = Some(key("a", 3));
    assert_eq!(
        b.insert_keyframe(loose).unwrap_err().message(),
        "invalid odometry predecessor"
    );
    let mut weak = edge(key("a", 0), key("b", 0), t(0.0, 0.0, 0.0));
    weak.similarity = 0.79f32.to_bits();
    assert_eq!(b.insert_loop(weak).unwrap_err().message(), "invalid verified loop constraint");
    let mut thin = edge(key("a", 0), key("b", 0), t(0.0, 0.0, 0.0));
    thin.verification.pnp_inliers = 14;
    assert!(b.insert_loop(thin).is_err());
    let mut soft = edge(key("a", 0), key("b", 0), t(0.0, 0.0, 0.0));
    soft.definite = false;
    assert_eq!(
        b.insert_loop(soft).unwrap_err().message(),
        "information must be symmetric positive definite"
    );
    b.insert_loop(edge(key("a", 0), key("b", 0), t(0.0, 0.0, 0.0))).unwrap();
    assert_eq!(
        b.insert_loop(edge(key("a", 0), key("b", 0), t(1.0, 0.0, 0.0))).unwrap_err().message(),
        "conflicting loop retransmission"
    );
    assert_eq!(b.input_revision, 1);
}

#[test]
fn invalid_information_and_pose_are_rejected() {
    // All zeros: symmetric, but without a Cholesky factor.
    assert!(checked_information(&vec![0; 36], 0, false).is_err());
    assert_eq!(
        checked_information(&vec![0; 35], 0, true).unwrap_err().message(),
        "invalid information matrix"
    );
    let transform = motion([0.0, 0.0, 0.0], [0.0; 4]);
    assert!(transform.se3().is_err());
    assert!(Transform::default().se3().is_ok());
}

#[test]
fn neighborhood_is_exactly_two_hops_over_all_keyframes() {
    let mut builder = SequenceBuilder::default();
    builder.push(meta(0, (0..15).collect())).unwrap();
    builder.push(meta(1, (0..30).collect())).unwrap();
    builder.push(meta(2, (15..45).collect())).unwrap();
    builder.push(meta(3, (30..60).collect())).unwrap();
    let neighborhood = builder.neighborhood(&vec![key("a", 0)]);
    assert_eq!(neighborhood, vec![0, 1, 2]);
    // Keyframes that are left out of the sequences still count for who sees what.
    assert!(!builder.push(meta(4, (30..60).collect())).unwrap().retained);
    assert!(builder.neighborhood(&vec![key("a", 2)]).contains(&4));
}

#[test]
fn restarted_sessions_do_not_collide_or_apply_temporal_exclusions() {
    let old = sequence("a", 0, 0);
    let mut new = sequence("a", 0, 0);
    new.key.session = "restarted".into();
    for key in new.members.iter_mut().chain(&mut new.selected) {
        key.session = new.key.session.clone();
    }
    let mut retrieval = Retrieval::default();
    retrieval.insert(old).unwrap();
    let near = similarities(&retrieval, &new);
    assert_eq!(retrieval.candidates(&new, 0.8f32.to_bits(), &near).0.len(), 1);
    let mut backend = Backend::default();
    backend.insert_keyframe(record("a", 0, 0.0)).unwrap();
    let mut r = record("a", 0, 2.0);
    r.key.session = "restarted".into();
    backend.insert_keyframe(r).unwrap();
    assert_eq!(solve(&backend, &GraphSnapshot::default()).unwrap().components, 2);
}

fn camera(width: u32, height: u32) -> CameraModel {
    CameraModel {
        width,
        height,
        width_single: (width as f32).to_bits(),
        height_single: (height as f32).to_bits(),
        intrinsics: Quadruple {
            x: 480.0f64.to_bits(),
            y: 470.0f64.to_bits(),
            z: 395.0f64.to_bits(),
            w: 302.0f64.to_bits(),
        },
        camera_to_body: Transform::default(),
    }
}

fn features(robot: &str) -> FeatureFrame {
    let mut f = FeatureFrame {
        key: key(robot, 0),
        timestamp_ns: 0,
        camera: camera(800, 600),
        pixels: vec![],
        descriptors: vec![],
        track_ids: vec![],
        points_camera: vec![],
    };
    for y in 0..8 {
        for x in 0..10 {
            f.pixels.push(SinglePixel {
                x: (x as f32 * 60.0).to_bits(),
                y: (y as f32 * 60.0).to_bits(),
            });
            f.points_camera.push(Some(triple(x as f64, y as f64, 4.0)));
            f.track_ids.push(f.pixels.len() as u64);
            f.descriptors.extend([1.0f32.to_bits(); 64]);
        }
    }
    f
}

fn report(inliers: usize, error: f64, to_from: Transform) -> PnpReport {
    PnpReport {
        inliers,
        mean_reprojection_error: error.to_bits(),
        coverage: 0.5f64.to_bits(),
        cells: vec![0, 5, 5, 10, 15],
        estimated: t(0.0, 0.0, 0.0),
        to_from,
    }
}

fn all_matches() -> Vec<FeatureMatch> {
    (0..80).map(|i| FeatureMatch { a: i, b: i, score: 1.0f32.to_bits() }).collect()
}

fn pair() -> Pair {
    Pair::new(key("a", 0), key("b", 0))
}

#[test]
fn different_rigs_and_reverse_pnp_preserve_body_constraint_direction() {
    let (mut a, b, matches) = (features("a"), features("b"), all_matches());
    for point in a.points_camera.iter_mut() {
        *point = None; // forward impossible; reverse must succeed
    }
    let expected = t(0.4, 0.05, 0.02);
    let evidence = Evidence {
        two_view: Some((0..80).collect()),
        forward: None,
        reverse: Some(report(80, 0.1, expected)),
    };
    let similarity = 0.9f32.to_bits();
    let (edge, diag) =
        verify(&a, &b, &matches, pair(), similarity, &evidence).unwrap();
    let result = edge.expect("reverse PnP");
    assert!(diag.reverse);
    assert_eq!(result.to_from, expected);
    assert_eq!(result.from, key("a", 0));
    assert_eq!(result.to, key("b", 0));
    assert_eq!(result.information, information(0.2, 0.04));
    assert_eq!(diag.reason, "verified");
}

#[test]
fn two_d_and_pnp_reject_scrambled_matches() {
    let (a, b) = (features("a"), features("b"));
    let matches: Vec<FeatureMatch> = (0..80)
        .map(|i| FeatureMatch { a: i, b: (i * 37 + 13) % 80, score: 1.0f32.to_bits() })
        .collect();
    let none = Evidence { two_view: None, forward: None, reverse: None };
    let (edge, diag) = verify(&a, &b, &matches, pair(), 0, &none).unwrap();
    assert!(edge.is_none());
    assert_eq!(diag.reason, "two_d_ransac_failed");
    let loose = Evidence {
        two_view: Some((0..20).collect()),
        forward: Some(report(9, 0.1, Transform::default())),
        reverse: Some(report(20, 2.5, Transform::default())),
    };
    let (edge, diag) = verify(&a, &b, &matches, pair(), 0, &loose).unwrap();
    assert!(edge.is_none());
    assert_eq!(diag.reason, "pnp_geometric_support_failed");
    assert_eq!(diag.two_d_inliers, 20);
}

#[test]
fn bidirectional_verification_chooses_the_stronger_direction() {
    let (a, mut b, matches) = (features("a"), features("b"), all_matches());
    for (i, point) in b.points_camera.iter_mut().enumerate() {
        if i % 4 != 0 {
            *point = None;
        }
    }
    let evidence = Evidence {
        two_view: Some((0..80).collect()),
        forward: Some(report(80, 0.2, t(1.0, 0.0, 0.0))),
        reverse: Some(report(20, 0.1, t(2.0, 0.0, 0.0))),
    };
    let (edge, diag) = verify(&a, &b, &matches, pair(), 0, &evidence).unwrap();
    assert!(!diag.reverse);
    assert_eq!(diag.pnp_inliers, 80);
    assert_eq!(edge.unwrap().to_from, t(1.0, 0.0, 0.0));
    // As many points: the smaller error decides.
    let even = Evidence {
        two_view: Some((0..80).collect()),
        forward: Some(report(20, 0.2, t(1.0, 0.0, 0.0))),
        reverse: Some(report(20, 0.1, t(2.0, 0.0, 0.0))),
    };
    let few: Vec<FeatureMatch> = (0..40).map(|i| matches[i]).collect();
    let short = Evidence { two_view: Some((0..40).collect()), ..even };
    let (edge, diag) = verify(&a, &a, &few, pair(), 0, &short).unwrap();
    assert!(diag.reverse);
    assert_eq!(edge.unwrap().to_from, t(2.0, 0.0, 0.0));
}

#[test]
fn geometry_gates_are_exact() {
    let (a, b, matches) = (features("a"), features("b"), all_matches());
    let judged = |r: PnpReport| {
        let e = Evidence { two_view: Some((0..80).collect()), forward: Some(r), reverse: None };
        verify(&a, &b, &matches, pair(), 0, &e).unwrap().0.is_some()
    };
    assert!(judged(report(40, 2.25, Transform::default())));
    assert!(!judged(report(39, 2.25, Transform::default())));
    assert!(!judged(report(40, 2.2500001, Transform::default())));
    let mut three = report(40, 1.0, Transform::default());
    three.cells = vec![1, 2, 3, 3];
    assert!(!judged(three));
    let mut flat = report(40, 1.0, Transform::default());
    flat.coverage = 0.019f64.to_bits();
    assert!(!judged(flat));
    let mut bent = report(40, 1.0, Transform::default());
    bent.estimated = motion([0.0; 3], [0.0, 0.0, 0.0, 2.0]);
    assert!(!judged(bent));
    let few = all_matches()[..14].to_vec();
    let none = Evidence { two_view: None, forward: None, reverse: None };
    let (edge, diag) = verify(&a, &b, &few, pair(), 0, &none).unwrap();
    assert!(edge.is_none());
    assert_eq!((diag.matches, diag.reason.as_str()), (14, "insufficient_matches"));
    let wild = vec![FeatureMatch { a: 80, b: 0, score: 0 }];
    assert_eq!(
        verify(&a, &b, &wild, pair(), 0, &none).unwrap_err().message(),
        "invalid match index/score"
    );
    assert_eq!(seed(3, 4), 3 * 1337 + 4);
    assert_eq!(seed(u64::MAX, 1), u64::MAX.wrapping_mul(1337).wrapping_add(1));
}

#[test]
fn feature_packets_are_checked() {
    assert!(features("a").validate().is_ok());
    let mut outside = features("a");
    outside.pixels[0].x = 800.0f32.to_bits();
    assert_eq!(outside.validate().unwrap_err().message(), "invalid sparse feature packet");
    let mut short = features("a");
    short.descriptors.pop();
    assert!(short.validate().is_err());
    let mut blind = features("a");
    blind.camera.width = 1;
    assert_eq!(blind.validate().unwrap_err().message(), "invalid pinhole camera");
    let mut mirrored = features("a");
    mirrored.camera.intrinsics.x = (-1.0f64).to_bits();
    assert!(mirrored.camera.camera().is_err());
}

#[test]
fn names_are_ordered_by_robot_session_and_number() {
    let a = Key::new("a", "s", 9);
    let b = Key::new("b", "a", 0);
    assert_eq!(a.order(&b), Relation::Before);
    assert_eq!(b.order(&a), Relation::After);
    assert_eq!(a.order(&Key::new("a", "s", 9)), Relation::Same);
    assert_eq!(Pair::new(a.clone(), b.clone()), Pair::new(b.clone(), a.clone()));
    assert_eq!(Pair::new(b, a.clone()).0, a);
    assert!(Key::new("robot_1", "S", 0).validate().is_ok());
    assert!(Key::new("", "S", 0).validate().is_err());
    assert!(Key::new("r", &"x".repeat(129), 0).validate().is_err());
    assert!(Key::new("r", &"x".repeat(128), 0).validate().is_ok());
    assert!(Key::new("r\u{e9}", "S", 0).validate().is_err());
    assert!(a.same_session(&Key::new("a", "s", 1)));
    assert!(!a.same_session(&Key::new("a", "t", 9)));
}

#[test]
fn trees_span_components_breadth_first() {
    let e = |from, to| Edge { from, to, closes: false, source: 0 };
    let edges = vec![e(4, 1), e(1, 3), e(0, 2), e(3, 4)];
    let (trees, component) = span(&edges, 6);
    let orders: Vec<Vec<usize>> = trees.iter().map(|t| t.order.clone()).collect();
    assert_eq!(orders, vec![vec![0, 2], vec![1, 4, 3], vec![5]]);
    assert_eq!(component, vec![0, 1, 0, 1, 1, 5]);
    let step = trees[1].steps[0];
    assert_eq!((step.child, step.parent, step.edge, step.forward), (4, 1, 0, false));
    let mut by_root: BTreeMap<usize, usize> = BTreeMap::new();
    for root in component {
        *by_root.entry(root).or_default() += 1;
    }
    assert_eq!(by_root.into_iter().collect::<Vec<_>>(), vec![(0, 2), (1, 3), (5, 1)]);
}

//! How a solution of the graph is planned, and what it has to meet.
use crate::ieee::{double_finite, double_less, is_double_finite, is_double_less};
use crate::multi_robot::backend::{is_usable_sigma, usable, Backend, BackendConfig};
use crate::multi_robot::components::{
    components_follow_the_edges, edges_within, forest, forest_wf, forests_are_components, root_of,
    span, tree_models, Edge, Tree,
};
use crate::multi_robot::error::{refused, Error};
use crate::multi_robot::keys::{Key, KeyModel, Pair};
use crate::multi_robot::sorted::places_are_unique;
use crate::multi_robot::types::{
    transform_fault, KeyframeRecord, LoopConstraint, LoopModel, RecordModel, Transform,
};
use vstd::prelude::*;

verus! {

/// Where an identity stands in a list of names.
pub open spec fn place_of(keys: Seq<KeyModel>, key: KeyModel) -> usize {
    keys.index_of(key) as usize
}

/// Whether a keyframe follows one that is known.
pub open spec fn follows_known(keys: Seq<KeyModel>, r: RecordModel) -> bool {
    r.previous matches Some(p) && keys.contains(p)
}

/// The motion from a keyframe's predecessor.
pub open spec fn odometry_edge(keys: Seq<KeyModel>, records: Seq<RecordModel>, i: int) -> Edge {
    Edge {
        from: place_of(keys, records[i].previous->Some_0),
        to: i as usize,
        closes: false,
        source: i as usize,
    }
}

/// The motions from their predecessors of the first `n` keyframes, as far as those are known.
pub open spec fn odometry_edges(
    keys: Seq<KeyModel>,
    records: Seq<RecordModel>,
    n: int,
) -> Seq<Edge>
    decreases n,
{
    if n <= 0 {
        Seq::empty()
    } else if follows_known(keys, records[n - 1]) {
        odometry_edges(keys, records, n - 1).push(odometry_edge(keys, records, n - 1))
    } else {
        odometry_edges(keys, records, n - 1)
    }
}

/// Whether some keyframe is not later than the one that it follows.
pub open spec fn time_stands_still(keys: Seq<KeyModel>, records: Seq<RecordModel>) -> bool {
    exists|i: int|
        0 <= i < records.len() && follows_known(keys, #[trigger] records[i])
            && records[place_of(keys, records[i].previous->Some_0) as int].timestamp_ns
            >= records[i].timestamp_ns
}

/// Whether both keyframes of a loop are known.
pub open spec fn loop_known(keys: Seq<KeyModel>, e: LoopModel) -> bool {
    keys.contains(e.from) && keys.contains(e.to)
}

/// The motion of a loop.
pub open spec fn loop_edge(keys: Seq<KeyModel>, loops: Seq<LoopModel>, i: int) -> Edge {
    Edge {
        from: place_of(keys, loops[i].from),
        to: place_of(keys, loops[i].to),
        closes: true,
        source: i as usize,
    }
}

/// The motions of the first `n` loops, as far as their keyframes are known.
pub open spec fn loop_edges(keys: Seq<KeyModel>, loops: Seq<LoopModel>, n: int) -> Seq<Edge>
    decreases n,
{
    if n <= 0 {
        Seq::empty()
    } else if loop_known(keys, loops[n - 1]) {
        loop_edges(keys, loops, n - 1).push(loop_edge(keys, loops, n - 1))
    } else {
        loop_edges(keys, loops, n - 1)
    }
}

/// A pose of an earlier solution: whose it is, and of which component.
#[derive(Clone, Debug, PartialEq)]
pub struct OptimizedPose {
    pub key: Key,
    pub timestamp_ns: i64,
    pub component: Key,
    pub body_to_map: Transform,
    pub map_from_odom: Transform,
}

/// A pose without the strings that hold its names.
#[verifier::ext_equal]
pub ghost struct PoseModel {
    pub key: KeyModel,
    pub timestamp_ns: i64,
    pub component: KeyModel,
    pub body_to_map: Transform,
    pub map_from_odom: Transform,
}

impl View for OptimizedPose {
    type V = PoseModel;

    open spec fn view(&self) -> PoseModel {
        PoseModel {
            key: self.key@,
            timestamp_ns: self.timestamp_ns,
            component: self.component@,
            body_to_map: self.body_to_map,
            map_from_odom: self.map_from_odom,
        }
    }
}

/// A solution of the graph; costs and the time taken are bits of real numbers.
#[derive(Clone, Debug, PartialEq)]
pub struct GraphSnapshot {
    pub revision: u64,
    pub input_revision: u64,
    pub poses: Vec<OptimizedPose>,
    pub loops: Vec<LoopConstraint>,
    pub components: usize,
    pub initial_cost: u64,
    pub final_cost: u64,
    pub solve_ms: u64,
}

impl Default for GraphSnapshot {
    fn default() -> (snapshot: Self)
        ensures
            snapshot.revision == 0,
            snapshot.input_revision == 0,
            snapshot.poses@.len() == 0,
            snapshot.loops@.len() == 0,
            snapshot.components == 0,
            snapshot.initial_cost == 0,
            snapshot.final_cost == 0,
            snapshot.solve_ms == 0,
    {
        GraphSnapshot {
            revision: 0,
            input_revision: 0,
            poses: Vec::new(),
            loops: Vec::new(),
            components: 0,
            initial_cost: 0,
            final_cost: 0,
            solve_ms: 0,
        }
    }
}

/// Poses without their strings.
pub open spec fn pose_models(poses: Seq<OptimizedPose>) -> Seq<PoseModel> {
    poses.map_values(|p: OptimizedPose| p@)
}

/// Loops without their strings.
pub open spec fn loop_models(loops: Seq<LoopConstraint>) -> Seq<LoopModel> {
    loops.map_values(|e: LoopConstraint| e@)
}

/// The last pose of a keyframe among the first `n`.
pub open spec fn warm_pose(poses: Seq<PoseModel>, key: KeyModel, n: int) -> Option<usize>
    decreases n,
{
    if n <= 0 {
        None
    } else if poses[n - 1].key == key {
        Some((n - 1) as usize)
    } else {
        warm_pose(poses, key, n - 1)
    }
}

/// Why the earlier pose of a keyframe is refused.
pub open spec fn warm_fault(poses: Seq<PoseModel>, key: KeyModel) -> Option<Seq<char>> {
    match warm_pose(poses, key, poses.len() as int) {
        Some(i) => transform_fault(poses[i as int].body_to_map),
        None => None,
    }
}

/// Whether the earlier pose of some keyframe is refused.
pub open spec fn some_warm_fault(poses: Seq<PoseModel>, keys: Seq<KeyModel>) -> bool {
    exists|k: int| 0 <= k < keys.len() && warm_fault(poses, #[trigger] keys[k]) is Some
}

/// How a solution is started: the motions, the trees along which poses are composed, the root of
/// each keyframe's component, the earlier pose of each keyframe, and the keyframe that its earlier
/// component is aligned by.
#[derive(Debug)]
pub struct SolvePlan {
    pub edges: Vec<Edge>,
    pub trees: Vec<Tree>,
    pub component: Vec<usize>,
    pub warm: Vec<Option<usize>>,
    pub anchor: Vec<Option<usize>>,
    /// For each tree, whether a loop makes it worth solving.
    pub solves: Vec<bool>,
}

/// Whether a keyframe is in one component with another, and both have earlier poses of one component.
pub open spec fn aligned(
    poses: Seq<PoseModel>,
    component: Seq<usize>,
    warm: Seq<Option<usize>>,
    q: int,
    place: int,
) -> bool {
    &&& component[q] == component[place]
    &&& warm[q] is Some
    &&& warm[place] is Some
    &&& poses[warm[q]->Some_0 as int].component == poses[warm[place]->Some_0 as int].component
}

/// The first keyframe, from place `q` on, that the earlier component of another is aligned by.
pub open spec fn anchor_of(
    poses: Seq<PoseModel>,
    component: Seq<usize>,
    warm: Seq<Option<usize>>,
    place: int,
    q: int,
) -> Option<usize>
    decreases component.len() - q,
{
    if q >= component.len() {
        None
    } else if aligned(poses, component, warm, q, place) {
        Some(q as usize)
    } else {
        anchor_of(poses, component, warm, place, q + 1)
    }
}

/// Whether a loop joins two keyframes of a tree.
pub open spec fn has_loop(edges: Seq<Edge>, component: Seq<usize>, root: usize) -> bool {
    exists|i: int|
        0 <= i < edges.len() && (#[trigger] edges[i]).closes && component[edges[i].from as int]
            == root && component[edges[i].to as int] == root
}

impl Backend {
    /// The keyframes, in the order of their names.
    pub open spec fn record_list(&self) -> Seq<RecordModel> {
        self.records.entries@.map_values(|e: (Key, KeyframeRecord)| e.1@)
    }

    /// The loops, in the order of their names.
    pub open spec fn loop_list(&self) -> Seq<LoopModel> {
        self.loops.entries@.map_values(|e: (Pair, LoopConstraint)| e.1@)
    }

    /// The motions between known keyframes: odometry first, then loops.
    pub open spec fn all_edges(&self) -> Seq<Edge> {
        odometry_edges(
            self.records.keys(),
            self.record_list(),
            self.record_list().len() as int,
        ) + loop_edges(self.records.keys(), self.loop_list(), self.loop_list().len() as int)
    }

    /// Collects the motions between known keyframes.
    pub fn collect_edges(&self) -> (result: Result<Vec<Edge>, Error>)
        requires
            self.wf(),
        ensures
            if time_stands_still(self.records.keys(), self.record_list()) {
                refused(result, "non-increasing odometry time"@)
            } else {
                result matches Ok(edges) && edges@ == self.all_edges() && edges_within(
                    edges@,
                    self.records.keys().len() as int,
                )
            },
    {
        let ghost keys = self.records.keys();
        let ghost records = self.record_list();
        let ghost loops = self.loop_list();
        let mut edges: Vec<Edge> = Vec::new();
        proof {
            places_are_unique::<Key>(keys);
        }
        for i in 0..self.records.entries.len()
            invariant
                self.wf(),
                keys == self.records.keys(),
                records == self.record_list(),
                forall|k: int| 0 <= k < keys.len() ==> keys.index_of(#[trigger] keys[k]) == k,
                edges@ == odometry_edges(keys, records, i as int),
                edges_within(edges@, keys.len() as int),
                forall|k: int|
                    0 <= k < i && follows_known(keys, #[trigger] records[k])
                        ==> records[place_of(
                        keys,
                        records[k].previous->Some_0,
                    ) as int].timestamp_ns < records[k].timestamp_ns,
        {
            let record = &self.records.entries[i].1;
            assert(records[i as int] == record@);
            if let Some(previous) = &record.previous {
                if let Some(p) = self.records.find(previous) {
                    proof {
                        assert(keys[p as int] == previous@);
                        assert(keys.contains(keys[p as int]));
                        assert(place_of(keys, previous@) == p);
                        assert(records[p as int] == self.records.entries@[p as int].1@);
                    }
                    if self.records.entries[p].1.timestamp_ns >= record.timestamp_ns {
                        proof {
                            assert(follows_known(keys, records[i as int]));
                        }
                        return Err(Error::of("non-increasing odometry time"));
                    }
                    edges.push(Edge { from: p, to: i, closes: false, source: i });
                } else {
                    assert(!keys.contains(previous@));
                }
            }
        }
        let ghost first = edges@;
        assert(first =~= first + loop_edges(keys, loops, 0));
        for i in 0..self.loops.entries.len()
            invariant
                self.wf(),
                keys == self.records.keys(),
                loops == self.loop_list(),
                forall|k: int| 0 <= k < keys.len() ==> keys.index_of(#[trigger] keys[k]) == k,
                edges@ == first + loop_edges(keys, loops, i as int),
                edges_within(edges@, keys.len() as int),
        {
            let e = &self.loops.entries[i].1;
            assert(loops[i as int] == e@);
            let ghost before = edges@;
            match (self.records.find(&e.from), self.records.find(&e.to)) {
                (Some(a), Some(b)) => {
                    proof {
                        assert(keys[a as int] == e@.from && keys[b as int] == e@.to);
                        assert(keys.contains(keys[a as int]) && keys.contains(keys[b as int]));
                    }
                    edges.push(Edge { from: a, to: b, closes: true, source: i });
                    assert(edges@ =~= first + loop_edges(keys, loops, i + 1));
                },
                _ => {},
            }
        }
        Ok(edges)
    }

    /// Plans a solution that starts from an earlier one.
    pub fn plan(&self, previous: &GraphSnapshot) -> (result: Result<SolvePlan, Error>)
        requires
            self.wf(),
        ensures
            if !usable(self.config) {
                refused(result, "invalid graph noise configuration"@)
            } else if time_stands_still(self.records.keys(), self.record_list()) {
                refused(result, "non-increasing odometry time"@)
            } else if some_warm_fault(pose_models(previous.poses@), self.records.keys()) {
                refused(result, "nonfinite pose or non-unit quaternion"@)
            } else {
                result matches Ok(plan) && self.planned(previous, plan)
            },
    {
        if !is_usable(&self.config) {
            return Err(Error::of("invalid graph noise configuration"));
        }
        let edges = match self.collect_edges() {
            Err(e) => return Err(e),
            Ok(edges) => edges,
        };
        let n: usize = self.records.entries.len();
        let ghost keys = self.records.keys();
        let ghost poses = pose_models(previous.poses@);
        let (trees, component) = span(&edges, n);
        let mut warm: Vec<Option<usize>> = Vec::new();
        for i in 0..n
            invariant
                usable(self.config),
                !time_stands_still(self.records.keys(), self.record_list()),
                n == self.records.entries@.len(),
                keys == self.records.keys(),
                poses == pose_models(previous.poses@),
                warm@.len() == i,
                forall|k: int|
                    0 <= k < i ==> #[trigger] warm@[k] == warm_pose(
                        poses,
                        keys[k],
                        poses.len() as int,
                    ),
                forall|k: int|
                    0 <= k < i && (#[trigger] warm@[k]) is Some ==> warm@[k]->Some_0
                        < previous.poses@.len(),
                forall|k: int| 0 <= k < i ==> warm_fault(poses, #[trigger] keys[k]) is None,
        {
            let found = find_warm(&previous.poses, &self.records.entries[i].0);
            assert(keys[i as int] == self.records.entries@[i as int].0@);
            if let Some(w) = found {
                assert(poses[w as int] == previous.poses@[w as int]@);
                match previous.poses[w].body_to_map.se3() {
                    Err(e) => {
                        assert(warm_fault(poses, keys[i as int]) is Some);
                        return Err(e);
                    },
                    Ok(()) => {},
                }
            }
            warm.push(found);
        }
        let mut anchor: Vec<Option<usize>> = Vec::new();
        for i in 0..n
            invariant
                n == component@.len(),
                n == warm@.len(),
                poses == pose_models(previous.poses@),
                anchor@.len() == i,
                forall|k: int|
                    0 <= k < n && (#[trigger] warm@[k]) is Some ==> warm@[k]->Some_0
                        < previous.poses@.len(),
                forall|k: int|
                    0 <= k < i ==> #[trigger] anchor@[k] == anchor_of(
                        poses,
                        component@,
                        warm@,
                        k,
                        0,
                    ),
        {
            let a = find_anchor(&previous.poses, &component, &warm, i);
            anchor.push(a);
        }
        let mut solves: Vec<bool> = Vec::new();
        let ghost f = forest(edges@, n as int, n as int);
        let m: usize = edges.len();
        proof {
            forests_are_components(edges@, n as int, n as int);
        }
        for t in 0..trees.len()
            invariant
                n == component@.len(),
                edges_within(edges@, n as int),
                f == forest(edges@, n as int, n as int),
                forest_wf(edges@, n as int, f),
                tree_models(trees@) == f.trees,
                solves@.len() == t,
                forall|k: int|
                    0 <= k < t ==> #[trigger] solves@[k] == has_loop(
                        edges@,
                        component@,
                        f.trees[k].order[0],
                    ),
        {
            proof {
                assert(tree_models(trees@)[t as int] == trees@[t as int]@);
                assert(f.trees[t as int].order.len() > 0);
            }
            let root: usize = trees[t].order[0];
            solves.push(contains_loop(&edges, &component, root));
        }
        Ok(SolvePlan { edges, trees, component, warm, anchor, solves })
    }

    /// What a plan says.
    pub open spec fn planned(&self, previous: &GraphSnapshot, plan: SolvePlan) -> bool {
        let keys = self.records.keys();
        let n = keys.len();
        let poses = pose_models(previous.poses@);
        let f = forest(self.all_edges(), n as int, n as int);
        &&& plan.edges@ == self.all_edges()
        &&& tree_models(plan.trees@) == f.trees
        &&& plan.component@.len() == n
        &&& plan.warm@.len() == n
        &&& plan.anchor@.len() == n
        &&& plan.solves@.len() == f.trees.len()
        &&& forall|x: int|
            0 <= x < n ==> #[trigger] plan.component@[x] == root_of(f, x as usize)
        &&& forall|k: int|
            0 <= k < n ==> #[trigger] plan.warm@[k] == warm_pose(poses, keys[k], poses.len() as int)
        &&& forall|k: int|
            0 <= k < n ==> #[trigger] plan.anchor@[k] == anchor_of(
                poses,
                plan.component@,
                plan.warm@,
                k,
                0,
            )
        &&& forall|t: int|
            0 <= t < f.trees.len() ==> #[trigger] plan.solves@[t] == has_loop(
                self.all_edges(),
                plan.component@,
                f.trees[t].order[0],
            )
    }
}

fn is_usable(config: &BackendConfig) -> (result: bool)
    ensures
        result == usable(*config),
{
    is_usable_sigma(config.odometry_translation_sigma) && is_usable_sigma(config.odometry_rotation_sigma)
        && is_usable_sigma(config.loop_translation_sigma) && is_usable_sigma(config.loop_rotation_sigma)
}

fn find_warm(poses: &Vec<OptimizedPose>, key: &Key) -> (found: Option<usize>)
    ensures
        found == warm_pose(pose_models(poses@), key@, poses@.len() as int),
        found matches Some(i) ==> i < poses@.len(),
{
    let mut i: usize = poses.len();
    while i > 0
        invariant
            i <= poses@.len(),
            warm_pose(pose_models(poses@), key@, poses@.len() as int) == warm_pose(
                pose_models(poses@),
                key@,
                i as int,
            ),
        decreases i,
    {
        assert(pose_models(poses@)[i - 1] == poses@[i - 1]@);
        if poses[i - 1].key.same(key) {
            return Some(i - 1);
        }
        i = i - 1;
    }
    None
}

fn find_anchor(
    poses: &Vec<OptimizedPose>,
    component: &Vec<usize>,
    warm: &Vec<Option<usize>>,
    place: usize,
) -> (found: Option<usize>)
    requires
        place < component@.len(),
        warm@.len() == component@.len(),
        forall|k: int|
            0 <= k < warm@.len() && (#[trigger] warm@[k]) is Some ==> warm@[k]->Some_0
                < poses@.len(),
    ensures
        found == anchor_of(pose_models(poses@), component@, warm@, place as int, 0),
{
    let ghost models = pose_models(poses@);
    let mine: Option<usize> = warm[place];
    for q in 0..component.len()
        invariant
            place < component@.len(),
            mine == warm@[place as int],
            models == pose_models(poses@),
            warm@.len() == component@.len(),
            forall|k: int|
                0 <= k < warm@.len() && (#[trigger] warm@[k]) is Some ==> warm@[k]->Some_0
                    < poses@.len(),
            anchor_of(models, component@, warm@, place as int, 0) == anchor_of(
                models,
                component@,
                warm@,
                place as int,
                q as int,
            ),
    {
        let theirs: Option<usize> = warm[q];
        if component[q] == component[place] {
            if let (Some(a), Some(b)) = (theirs, mine) {
                assert(warm@[q as int] == Some(a) && warm@[place as int] == Some(b));
                assert(models[a as int] == poses@[a as int]@);
                assert(models[b as int] == poses@[b as int]@);
                if poses[a].component.same(&poses[b].component) {
                    return Some(q);
                }
            }
        }
    }
    None
}

fn contains_loop(edges: &Vec<Edge>, component: &Vec<usize>, root: usize) -> (found: bool)
    requires
        edges_within(edges@, component@.len() as int),
    ensures
        found == has_loop(edges@, component@, root),
{
    for i in 0..edges.len()
        invariant
            edges_within(edges@, component@.len() as int),
            forall|k: int|
                0 <= k < i ==> !((#[trigger] edges@[k]).closes && component@[edges@[k].from as int]
                    == root && component@[edges@[k].to as int] == root),
    {
        let e: Edge = edges[i];
        assert(e == edges@[i as int]);
        if e.closes && component[e.from] == root && component[e.to] == root {
            return true;
        }
    }
    false
}

/// Why the outcome of solving a component is refused. `bound` is the initial cost and a billionth.
pub open spec fn costs_fault(initial: u64, solved: u64, bound: u64) -> bool {
    !double_finite(initial) || !double_finite(solved) || double_less(bound, solved)
}

/// Judges the outcome of solving a component.
pub fn accept_costs(initial: u64, solved: u64, bound: u64) -> (result: Result<(), Error>)
    ensures
        if costs_fault(initial, solved, bound) {
            refused(result, "optimizer increased robust objective"@)
        } else {
            result is Ok
        },
{
    if !is_double_finite(initial) || !is_double_finite(solved) || is_double_less(bound, solved) {
        return Err(Error::of("optimizer increased robust objective"));
    }
    Ok(())
}

/// What solving gave: the poses of the keyframes in the order of their names, the motions from the
/// frames of their odometry, and the costs.
#[derive(Debug)]
pub struct Solution {
    pub body_to_map: Vec<Transform>,
    pub map_from_odom: Vec<Transform>,
    pub initial_cost: u64,
    pub final_cost: u64,
    pub solve_ms: u64,
}

impl Backend {
    /// The poses of a solution: one for each keyframe, in the order of their names.
    pub open spec fn solved_pose(&self, plan: SolvePlan, solution: Solution, i: int) -> PoseModel {
        PoseModel {
            key: self.records.keys()[i],
            timestamp_ns: self.record_list()[i].timestamp_ns,
            component: self.records.keys()[plan.component@[i] as int],
            body_to_map: solution.body_to_map@[i],
            map_from_odom: solution.map_from_odom@[i],
        }
    }

    /// Makes a snapshot of a solution.
    pub fn conclude(
        &self,
        previous: &GraphSnapshot,
        plan: &SolvePlan,
        solution: &Solution,
    ) -> (result: Result<GraphSnapshot, Error>)
        requires
            self.wf(),
            self.planned(previous, *plan),
            previous.revision < u64::MAX,
            solution.body_to_map@.len() == self.records.keys().len(),
            solution.map_from_odom@.len() == self.records.keys().len(),
        ensures
            if exists|i: int|
                0 <= i < solution.body_to_map@.len() && transform_fault(
                    #[trigger] solution.body_to_map@[i],
                ) is Some {
                refused(result, "nonfinite pose or non-unit quaternion"@)
            } else {
                &&& result matches Ok(snapshot)
                &&& snapshot.revision == previous.revision + 1
                &&& snapshot.input_revision == self.input_revision
                &&& loop_models(snapshot.loops@) == self.loop_list()
                &&& snapshot.components == plan.trees@.len()
                &&& snapshot.initial_cost == solution.initial_cost
                &&& snapshot.final_cost == solution.final_cost
                &&& snapshot.solve_ms == solution.solve_ms
                &&& pose_models(snapshot.poses@) == Seq::new(
                    self.records.keys().len(),
                    |i: int| self.solved_pose(*plan, *solution, i),
                )
            },
    {
        let n: usize = self.records.entries.len();
        let ghost keys = self.records.keys();
        let m: usize = plan.edges.len();
        proof {
            motions_join_keyframes(self);
            forests_are_components(self.all_edges(), n as int, n as int);
            roots_are_vertices(self.all_edges(), n as int);
        }
        let mut poses: Vec<OptimizedPose> = Vec::new();
        for i in 0..n
            invariant
                n == self.records.entries@.len(),
                self.wf(),
                self.planned(previous, *plan),
                keys == self.records.keys(),
                solution.body_to_map@.len() == n,
                solution.map_from_odom@.len() == n,
                forall|x: usize|
                    x < n ==> #[trigger] root_of(
                        forest(self.all_edges(), n as int, n as int),
                        x,
                    ) < n,
                poses@.len() == i,
                forall|k: int|
                    0 <= k < i ==> transform_fault(#[trigger] solution.body_to_map@[k]) is None,
                forall|k: int|
                    0 <= k < i ==> (#[trigger] poses@[k])@ == self.solved_pose(
                        *plan,
                        *solution,
                        k,
                    ),
        {
            match solution.body_to_map[i].se3() {
                Err(e) => {
                    assert(transform_fault(solution.body_to_map@[i as int]) is Some);
                    return Err(e);
                },
                Ok(()) => {},
            }
            let root: usize = plan.component[i];
            proof {
                let f = forest(self.all_edges(), n as int, n as int);
                assert(plan.component@[i as int] == root_of(f, i));
                assert(root < n);
                assert(keys[root as int] == self.records.entries@[root as int].0@);
                assert(keys[i as int] == self.records.entries@[i as int].0@);
                assert(self.record_list()[i as int] == self.records.entries@[i as int].1@);
            }
            poses.push(
                OptimizedPose {
                    key: self.records.entries[i].0.clone(),
                    timestamp_ns: self.records.entries[i].1.timestamp_ns,
                    component: self.records.entries[root].0.clone(),
                    body_to_map: solution.body_to_map[i],
                    map_from_odom: solution.map_from_odom[i],
                },
            );
        }
        assert(pose_models(poses@) =~= Seq::new(
            keys.len(),
            |i: int| self.solved_pose(*plan, *solution, i),
        ));
        let mut loops: Vec<LoopConstraint> = Vec::new();
        for i in 0..self.loops.entries.len()
            invariant
                loops@.len() == i,
                forall|k: int| 0 <= k < i ==> (#[trigger] loops@[k])@ == self.loop_list()[k],
        {
            loops.push(self.loops.entries[i].1.clone());
        }
        assert(loop_models(loops@) =~= self.loop_list());
        Ok(
            GraphSnapshot {
                revision: previous.revision + 1,
                input_revision: self.input_revision,
                poses,
                loops,
                components: plan.trees.len(),
                initial_cost: solution.initial_cost,
                final_cost: solution.final_cost,
                solve_ms: solution.solve_ms,
            },
        )
    }
}

/// Every motion is between two known keyframes, which differ.
pub proof fn motions_join_keyframes(backend: &Backend)
    requires
        backend.wf(),
        backend.records.keys().len() <= usize::MAX,
    ensures
        edges_within(backend.all_edges(), backend.records.keys().len() as int),
        forall|i: int|
            0 <= i < backend.all_edges().len() ==> (#[trigger] backend.all_edges()[i]).from
                != backend.all_edges()[i].to,
{
    let keys = backend.records.keys();
    let records = backend.record_list();
    let loops = backend.loop_list();
    places_are_unique::<Key>(keys);
    assert forall|i: int| 0 <= i < records.len() implies (#[trigger] records[i]).key == keys[i]
        && (records[i].previous matches Some(p) ==> p != keys[i]) by {
        backend.records.entry_at(i);
        assert(backend.records@.contains_key(keys[i]));
    }
    assert forall|i: int| 0 <= i < loops.len() implies (#[trigger] loops[i]).from
        != loops[i].to by {
        backend.loops.entry_at(i);
        assert(backend.loops@.contains_key(backend.loops.keys()[i]));
    }
    odometry_joins(keys, records, records.len() as int);
    loops_join(keys, loops, loops.len() as int);
    let a = odometry_edges(keys, records, records.len() as int);
    let b = loop_edges(keys, loops, loops.len() as int);
    assert forall|i: int| 0 <= i < (a + b).len() implies (#[trigger] (a + b)[i]).from < keys.len()
        && (a + b)[i].to < keys.len() && (a + b)[i].from != (a + b)[i].to by {
        if i < a.len() {
            assert((a + b)[i] == a[i]);
        } else {
            assert((a + b)[i] == b[i - a.len()]);
        }
    }
}

/// Whether edges are between two different vertices.
spec fn all_join(edges: Seq<Edge>, n: int) -> bool {
    forall|i: int|
        0 <= i < edges.len() ==> (#[trigger] edges[i]).from < n && edges[i].to < n && edges[i].from
            != edges[i].to
}

proof fn odometry_joins(keys: Seq<KeyModel>, records: Seq<RecordModel>, n: int)
    requires
        0 <= n <= records.len(),
        records.len() == keys.len(),
        keys.len() <= usize::MAX,
        forall|i: int| 0 <= i < keys.len() ==> keys.index_of(#[trigger] keys[i]) == i,
        forall|i: int|
            0 <= i < records.len() ==> (#[trigger] records[i]).key == keys[i] && (
            records[i].previous matches Some(p) ==> p != keys[i]),
    ensures
        all_join(odometry_edges(keys, records, n), keys.len() as int),
    decreases n,
{
    if n > 0 {
        odometry_joins(keys, records, n - 1);
        if follows_known(keys, records[n - 1]) {
            let p = records[n - 1].previous->Some_0;
            let j = choose|j: int| 0 <= j < keys.len() && keys[j] == p;
            assert(keys.index_of(keys[j]) == j);
            assert(p != keys[n - 1] && records[n - 1].key == keys[n - 1]);
            let before = odometry_edges(keys, records, n - 1);
            assert(all_join(before, keys.len() as int));
            let e = odometry_edge(keys, records, n - 1);
            assert(e.from == j && e.to == n - 1);
            let all = odometry_edges(keys, records, n);
            assert(all == before.push(e));
            assert forall|i: int| 0 <= i < all.len() implies (#[trigger] all[i]).from < keys.len()
                && all[i].to < keys.len() && all[i].from != all[i].to by {
                if i < before.len() {
                    assert(all[i] == before[i]);
                }
            }
        }
    }
}

proof fn loops_join(keys: Seq<KeyModel>, loops: Seq<LoopModel>, n: int)
    requires
        0 <= n <= loops.len(),
        keys.len() <= usize::MAX,
        forall|i: int| 0 <= i < keys.len() ==> keys.index_of(#[trigger] keys[i]) == i,
        forall|i: int| 0 <= i < loops.len() ==> (#[trigger] loops[i]).from != loops[i].to,
    ensures
        all_join(loop_edges(keys, loops, n), keys.len() as int),
    decreases n,
{
    if n > 0 {
        loops_join(keys, loops, n - 1);
        if loop_known(keys, loops[n - 1]) {
            let a = choose|j: int| 0 <= j < keys.len() && keys[j] == loops[n - 1].from;
            let b = choose|j: int| 0 <= j < keys.len() && keys[j] == loops[n - 1].to;
            assert(keys.index_of(keys[a]) == a);
            assert(keys.index_of(keys[b]) == b);
            let before = loop_edges(keys, loops, n - 1);
            assert(all_join(before, keys.len() as int));
            let e = loop_edge(keys, loops, n - 1);
            assert(e.from == a && e.to == b);
            let all = loop_edges(keys, loops, n);
            assert(all == before.push(e));
            assert forall|i: int| 0 <= i < all.len() implies (#[trigger] all[i]).from < keys.len()
                && all[i].to < keys.len() && all[i].from != all[i].to by {
                if i < before.len() {
                    assert(all[i] == before[i]);
                }
            }
        }
    }
}

/// Whether edges are those of loops between known keyframes, among the first `n`.
spec fn from_known_loops(edges: Seq<Edge>, keys: Seq<KeyModel>, loops: Seq<LoopModel>, n: int) -> bool {
    forall|i: int|
        0 <= i < edges.len() ==> (#[trigger] edges[i]).source < n && loop_known(
            keys,
            loops[edges[i].source as int],
        ) && edges[i] == loop_edge(keys, loops, edges[i].source as int)
}

proof fn loop_edges_are_known(keys: Seq<KeyModel>, loops: Seq<LoopModel>, n: int)
    requires
        0 <= n <= loops.len() <= usize::MAX,
    ensures
        from_known_loops(loop_edges(keys, loops, n), keys, loops, n),
        forall|j: int|
            0 <= j < n && loop_known(keys, #[trigger] loops[j]) ==> loop_edges(
                keys,
                loops,
                n,
            ).contains(loop_edge(keys, loops, j)),
    decreases n,
{
    if n > 0 {
        loop_edges_are_known(keys, loops, n - 1);
        let before = loop_edges(keys, loops, n - 1);
        let all = loop_edges(keys, loops, n);
        assert(from_known_loops(before, keys, loops, n - 1));
        assert forall|i: int| 0 <= i < all.len() implies (#[trigger] all[i]).source < n
            && loop_known(keys, loops[all[i].source as int]) && all[i] == loop_edge(
            keys,
            loops,
            all[i].source as int,
        ) by {
            if i < before.len() {
                assert(all[i] == before[i]);
            }
        }
        assert forall|j: int| 0 <= j < n && loop_known(keys, #[trigger] loops[j]) implies all.contains(
            loop_edge(keys, loops, j),
        ) by {
            let e = loop_edge(keys, loops, j);
            if j < n - 1 {
                assert(before.contains(e));
                let k = choose|k: int| 0 <= k < before.len() && before[k] == e;
                assert(all[k] == e);
            } else {
                assert(all[all.len() - 1] == e);
            }
        }
    }
}

proof fn odometry_closes_nothing(keys: Seq<KeyModel>, records: Seq<RecordModel>, n: int)
    requires
        0 <= n <= records.len(),
    ensures
        forall|i: int|
            0 <= i < odometry_edges(keys, records, n).len() ==> !(#[trigger] odometry_edges(
                keys,
                records,
                n,
            )[i]).closes,
    decreases n,
{
    if n > 0 {
        odometry_closes_nothing(keys, records, n - 1);
        let before = odometry_edges(keys, records, n - 1);
        let all = odometry_edges(keys, records, n);
        assert forall|i: int| 0 <= i < all.len() implies !(#[trigger] all[i]).closes by {
            if i < before.len() {
                assert(all[i] == before[i]);
            }
        }
    }
}

/// A loop waits for its keyframes: it takes part once both are known, and not before.
pub proof fn loops_wait_for_their_keyframes(backend: &Backend)
    requires
        backend.loop_list().len() <= usize::MAX,
    ensures
        ({
            let keys = backend.records.keys();
            let loops = backend.loop_list();
            let edges = backend.all_edges();
            &&& forall|i: int|
                0 <= i < edges.len() && (#[trigger] edges[i]).closes ==> edges[i].source
                    < loops.len() && loop_known(keys, loops[edges[i].source as int]) && edges[i]
                    == loop_edge(keys, loops, edges[i].source as int)
            &&& forall|j: int|
                0 <= j < loops.len() && loop_known(keys, #[trigger] loops[j])
                    ==> edges.contains(loop_edge(keys, loops, j))
        }),
{
    let keys = backend.records.keys();
    let records = backend.record_list();
    let loops = backend.loop_list();
    let a = odometry_edges(keys, records, records.len() as int);
    let b = loop_edges(keys, loops, loops.len() as int);
    let edges = backend.all_edges();
    odometry_closes_nothing(keys, records, records.len() as int);
    loop_edges_are_known(keys, loops, loops.len() as int);
    assert forall|i: int| 0 <= i < edges.len() && (#[trigger] edges[i]).closes implies edges[i].source
        < loops.len() && loop_known(keys, loops[edges[i].source as int]) && edges[i] == loop_edge(
        keys,
        loops,
        edges[i].source as int,
    ) by {
        if i < a.len() {
            assert(edges[i] == a[i]);
        } else {
            assert(edges[i] == b[i - a.len()]);
        }
    }
    assert forall|j: int| 0 <= j < loops.len() && loop_known(keys, #[trigger] loops[j]) implies edges.contains(
        loop_edge(keys, loops, j),
    ) by {
        let e = loop_edge(keys, loops, j);
        let k = choose|k: int| 0 <= k < b.len() && b[k] == e;
        assert(edges[a.len() + k] == e);
    }
}

/// Where no loop joins known keyframes, no component is worth solving: the graph is left as odometry
/// made it.
pub proof fn without_loops_nothing_is_solved(backend: &Backend, component: Seq<usize>, root: usize)
    requires
        backend.loop_list().len() <= usize::MAX,
        forall|j: int|
            0 <= j < backend.loop_list().len() ==> !loop_known(
                backend.records.keys(),
                #[trigger] backend.loop_list()[j],
            ),
    ensures
        !has_loop(backend.all_edges(), component, root),
{
    loops_wait_for_their_keyframes(backend);
}

/// The root of every keyframe's component is a keyframe of that component, and no later one.
pub proof fn roots_are_vertices(edges: Seq<Edge>, n: int)
    requires
        edges_within(edges, n),
        0 <= n <= usize::MAX,
        edges.len() <= usize::MAX,
    ensures
        forall|x: usize|
            x < n ==> (#[trigger] root_of(forest(edges, n, n), x)) < n && root_of(
                forest(edges, n, n),
                x,
            ) <= x,
{
    forests_are_components(edges, n, n);
    let f = forest(edges, n, n);
    assert forall|x: usize| x < n implies (#[trigger] root_of(f, x)) < n && root_of(f, x) <= x by {
        assert(f.seen.contains(x));
        let t = choose|t: int| 0 <= t < f.trees.len() && (#[trigger] f.trees[t]).order.contains(x);
        let k = choose|k: int| 0 <= k < f.trees[t].order.len() && f.trees[t].order[k] == x;
        assert(f.trees[t].order[0] <= f.trees[t].order[k]);
    }
}

/// A keyframe with an earlier pose is aligned by one that is no later, which is in its component and
/// was in its earlier one: so the geometry of an earlier component stays as it was.
pub proof fn anchors_keep_components(
    poses: Seq<PoseModel>,
    component: Seq<usize>,
    warm: Seq<Option<usize>>,
    place: int,
    q: int,
)
    requires
        0 <= q <= place < component.len() <= usize::MAX,
        warm.len() == component.len(),
        warm[place] is Some,
    ensures
        ({
            let a = anchor_of(poses, component, warm, place, q);
            &&& a matches Some(x)
            &&& q <= x <= place
            &&& aligned(poses, component, warm, x as int, place)
        }),
    decreases place - q,
{
    if !aligned(poses, component, warm, q, place) {
        anchors_keep_components(poses, component, warm, place, q + 1);
    }
}

/// The motions are those of the loops whose two keyframes are both known, each between the places of
/// these, and of the keyframes whose predecessor is known, each from the predecessor's place to its own;
/// every such loop and keyframe gives one, and nothing else does.
pub proof fn motions_are_those_of_known_keyframes(backend: &Backend)
    requires
        backend.wf(),
        backend.records.keys().len() <= usize::MAX,
        backend.loop_list().len() <= usize::MAX,
    ensures
        ({
            let keys = backend.records.keys();
            let records = backend.record_list();
            let loops = backend.loop_list();
            let edges = backend.all_edges();
            &&& forall|j: int|
                #![trigger loops[j]]
                0 <= j < loops.len() && keys.contains(loops[j].from) && keys.contains(loops[j].to)
                    ==> exists|m: int|
                    0 <= m < edges.len() && (#[trigger] edges[m]).closes && edges[m].source == j
                        && edges[m].from < keys.len() && keys[edges[m].from as int]
                        == loops[j].from && edges[m].to < keys.len() && keys[edges[m].to as int]
                        == loops[j].to
            &&& forall|i: int|
                #![trigger records[i]]
                0 <= i < records.len() && records[i].previous is Some && keys.contains(
                    records[i].previous->0,
                ) ==> exists|m: int|
                    0 <= m < edges.len() && !(#[trigger] edges[m]).closes && edges[m].source == i
                        && edges[m].to == i && edges[m].from < keys.len()
                        && keys[edges[m].from as int] == records[i].previous->0
            &&& forall|m: int|
                0 <= m < edges.len() && (#[trigger] edges[m]).closes ==> edges[m].source
                    < loops.len() && edges[m].from < keys.len() && edges[m].to < keys.len()
                    && keys[edges[m].from as int] == loops[edges[m].source as int].from
                    && keys[edges[m].to as int] == loops[edges[m].source as int].to
            &&& forall|m: int|
                0 <= m < edges.len() && !(#[trigger] edges[m]).closes ==> edges[m].to < keys.len()
                    && edges[m].source == edges[m].to && edges[m].from < keys.len()
                    && records[edges[m].to as int].previous == Some(keys[edges[m].from as int])
            &&& forall|a: int, b: int|
                0 <= a < b < edges.len() && (#[trigger] edges[a]).closes == (
                #[trigger] edges[b]).closes ==> edges[a].source < edges[b].source
            &&& forall|a: int, b: int|
                0 <= a < b < edges.len() && (#[trigger] edges[a]).closes ==> (
                #[trigger] edges[b]).closes
        }),
{
    let keys = backend.records.keys();
    let records = backend.record_list();
    let loops = backend.loop_list();
    let a = odometry_edges(keys, records, records.len() as int);
    let b = loop_edges(keys, loops, loops.len() as int);
    let edges = backend.all_edges();
    places_are_unique::<Key>(keys);
    loop_motions(keys, loops, loops.len() as int);
    odometry_motions(keys, records, records.len() as int);
    assert forall|m: int| 0 <= m < edges.len() implies (m < a.len() && #[trigger] edges[m] == a[m])
        || (m >= a.len() && edges[m] == b[m - a.len()]) by {}
    assert forall|j: int|
        #![trigger loops[j]]
        0 <= j < loops.len() && keys.contains(loops[j].from) && keys.contains(
            loops[j].to,
        ) implies exists|m: int|
        0 <= m < edges.len() && (#[trigger] edges[m]).closes && edges[m].source == j
            && edges[m].from < keys.len() && keys[edges[m].from as int] == loops[j].from
            && edges[m].to < keys.len() && keys[edges[m].to as int] == loops[j].to by {
        let m = choose|m: int| 0 <= m < b.len() && (#[trigger] b[m]).source == j;
        assert(edges[a.len() + m] == b[m]);
    }
    assert forall|i: int|
        #![trigger records[i]]
        0 <= i < records.len() && records[i].previous is Some && keys.contains(
            records[i].previous->0,
        ) implies exists|m: int|
        0 <= m < edges.len() && !(#[trigger] edges[m]).closes && edges[m].source == i
            && edges[m].to == i && edges[m].from < keys.len() && keys[edges[m].from as int]
            == records[i].previous->0 by {
        let m = choose|m: int| 0 <= m < a.len() && (#[trigger] a[m]).source == i;
        assert(edges[m] == a[m]);
    }
}

proof fn loop_motions(keys: Seq<KeyModel>, loops: Seq<LoopModel>, n: int)
    requires
        0 <= n <= loops.len() <= usize::MAX,
        keys.len() <= usize::MAX,
        forall|i: int| 0 <= i < keys.len() ==> keys.index_of(#[trigger] keys[i]) == i,
    ensures
        ({
            let edges = loop_edges(keys, loops, n);
            &&& forall|m: int|
                0 <= m < edges.len() ==> (#[trigger] edges[m]).closes && edges[m].source < n
                    && edges[m].from < keys.len() && edges[m].to < keys.len()
                    && keys[edges[m].from as int] == loops[edges[m].source as int].from
                    && keys[edges[m].to as int] == loops[edges[m].source as int].to
            &&& forall|j: int|
                #![trigger loops[j]]
                0 <= j < n && keys.contains(loops[j].from) && keys.contains(loops[j].to)
                    ==> exists|m: int| 0 <= m < edges.len() && (#[trigger] edges[m]).source == j
            &&& forall|a: int, b: int|
                0 <= a < b < edges.len() ==> (#[trigger] edges[a]).source < (
                #[trigger] edges[b]).source
        }),
    decreases n,
{
    if n > 0 {
        loop_motions(keys, loops, n - 1);
        let before = loop_edges(keys, loops, n - 1);
        let edges = loop_edges(keys, loops, n);
        let l = loops[n - 1];
        if keys.contains(l.from) && keys.contains(l.to) {
            let a = choose|a: int| 0 <= a < keys.len() && keys[a] == l.from;
            let b = choose|b: int| 0 <= b < keys.len() && keys[b] == l.to;
            assert(keys.index_of(keys[a]) == a && keys.index_of(keys[b]) == b);
            assert(edges[edges.len() - 1].source == n - 1);
            assert(edges.drop_last() =~= before);
        }
        assert forall|m: int| 0 <= m < edges.len() && m < before.len() implies #[trigger] edges[m]
            == before[m] by {}
        assert forall|j: int|
            #![trigger loops[j]]
            0 <= j < n && keys.contains(loops[j].from) && keys.contains(loops[j].to) implies exists|
            m: int,
        | 0 <= m < edges.len() && (#[trigger] edges[m]).source == j by {
            if j < n - 1 {
                let m = choose|m: int| 0 <= m < before.len() && (#[trigger] before[m]).source == j;
                assert(edges[m] == before[m]);
            }
        }
    }
}

proof fn odometry_motions(keys: Seq<KeyModel>, records: Seq<RecordModel>, n: int)
    requires
        0 <= n <= records.len() == keys.len(),
        keys.len() <= usize::MAX,
        forall|i: int| 0 <= i < keys.len() ==> keys.index_of(#[trigger] keys[i]) == i,
    ensures
        ({
            let edges = odometry_edges(keys, records, n);
            &&& forall|m: int|
                0 <= m < edges.len() ==> !(#[trigger] edges[m]).closes && edges[m].source < n
                    && edges[m].to == edges[m].source && edges[m].from < keys.len()
                    && records[edges[m].to as int].previous == Some(keys[edges[m].from as int])
            &&& forall|j: int|
                #![trigger records[j]]
                0 <= j < n && records[j].previous is Some && keys.contains(records[j].previous->0)
                    ==> exists|m: int| 0 <= m < edges.len() && (#[trigger] edges[m]).source == j
            &&& forall|a: int, b: int|
                0 <= a < b < edges.len() ==> (#[trigger] edges[a]).source < (
                #[trigger] edges[b]).source
        }),
    decreases n,
{
    if n > 0 {
        odometry_motions(keys, records, n - 1);
        let before = odometry_edges(keys, records, n - 1);
        let edges = odometry_edges(keys, records, n);
        let r = records[n - 1];
        if r.previous is Some && keys.contains(r.previous->0) {
            let a = choose|a: int| 0 <= a < keys.len() && keys[a] == r.previous->0;
            assert(keys.index_of(keys[a]) == a);
            assert(edges[edges.len() - 1].source == n - 1);
            assert(edges.drop_last() =~= before);
        }
        assert forall|m: int| 0 <= m < edges.len() && m < before.len() implies #[trigger] edges[m]
            == before[m] by {}
        assert forall|j: int|
            #![trigger records[j]]
            0 <= j < n && records[j].previous is Some && keys.contains(
                records[j].previous->0,
            ) implies exists|m: int|
            0 <= m < edges.len() && (#[trigger] edges[m]).source == j by {
            if j < n - 1 {
                let m = choose|m: int| 0 <= m < before.len() && (#[trigger] before[m]).source == j;
                assert(edges[m] == before[m]);
            }
        }
    }
}

/// Motions are refused exactly where some keyframe is not later than the known one that it follows.
pub proof fn motions_need_rising_times(backend: &Backend)
    requires
        backend.wf(),
        backend.records.keys().len() <= usize::MAX,
    ensures
        ({
            let keys = backend.records.keys();
            let records = backend.record_list();
            time_stands_still(keys, records) <==> exists|i: int, p: int|
                0 <= i < records.len() && 0 <= p < records.len() && (
                #[trigger] records[i]).previous == Some(keys[p]) && records[i].timestamp_ns <= (
                #[trigger] records[p]).timestamp_ns
        }),
{
    let keys = backend.records.keys();
    let records = backend.record_list();
    places_are_unique::<Key>(keys);
    if time_stands_still(keys, records) {
        let i = choose|i: int|
            0 <= i < records.len() && follows_known(keys, #[trigger] records[i])
                && records[place_of(keys, records[i].previous->Some_0) as int].timestamp_ns
                >= records[i].timestamp_ns;
        let p = choose|p: int| 0 <= p < keys.len() && keys[p] == records[i].previous->0;
        assert(keys.index_of(keys[p]) == p);
        assert(records[i].timestamp_ns <= records[p].timestamp_ns);
    }
    if exists|i: int, p: int|
        0 <= i < records.len() && 0 <= p < records.len() && (#[trigger] records[i]).previous == Some(
            keys[p],
        ) && records[i].timestamp_ns <= (#[trigger] records[p]).timestamp_ns {
        let (i, p) = choose|i: int, p: int|
            0 <= i < records.len() && 0 <= p < records.len() && (#[trigger] records[i]).previous
                == Some(keys[p]) && records[i].timestamp_ns <= (#[trigger] records[p]).timestamp_ns;
        assert(keys.index_of(keys[p]) == p);
        assert(keys.contains(keys[p]));
        assert(follows_known(keys, records[i]));
    }
}

/// A plan starts every keyframe from the last earlier pose that names it, aligns it by the first keyframe
/// of its component that was in one component with it before, and solves the components that both
/// keyframes of some loop are in.
pub proof fn plans_start_from_earlier_poses(
    backend: &Backend,
    previous: &GraphSnapshot,
    plan: SolvePlan,
    k: int,
)
    requires
        backend.wf(),
        backend.planned(previous, plan),
        0 <= k < backend.records.keys().len() <= usize::MAX,
        backend.loop_list().len() <= usize::MAX,
        previous.poses@.len() <= usize::MAX,
        backend.all_edges().len() <= usize::MAX,
    ensures
        match plan.warm@[k] {
            Some(w) => w < previous.poses@.len() && previous.poses@[w as int].key@
                == backend.records.keys()[k] && forall|v: int|
                w < v < previous.poses@.len() ==> (#[trigger] previous.poses@[v]).key@
                    != backend.records.keys()[k],
            None => forall|v: int|
                0 <= v < previous.poses@.len() ==> (#[trigger] previous.poses@[v]).key@
                    != backend.records.keys()[k],
        },
        match plan.anchor@[k] {
            Some(q) => {
                &&& q <= k
                &&& plan.component@[q as int] == plan.component@[k]
                &&& plan.warm@[q as int] is Some
                &&& plan.warm@[k] is Some
                &&& previous.poses@[plan.warm@[q as int]->0 as int].component@
                    == previous.poses@[plan.warm@[k]->0 as int].component@
                &&& forall|p: int|
                    0 <= p < q && #[trigger] plan.component@[p] == plan.component@[k]
                        && plan.warm@[p] is Some
                        ==> previous.poses@[plan.warm@[p]->0 as int].component@
                        != previous.poses@[plan.warm@[k]->0 as int].component@
            },
            None => plan.warm@[k] is None,
        },
        plan.edges@ == backend.all_edges(),
        plan.component@[k] <= k,
        forall|m: int|
            0 <= m < plan.edges@.len() ==> plan.component@[(
            #[trigger] plan.edges@[m]).from as int] == plan.component@[plan.edges@[m].to as int],
        forall|t: int|
            0 <= t < plan.trees@.len() ==> (#[trigger] plan.solves@[t] <==> exists|j: int|
                {
                    let keys = backend.records.keys();
                    let l = #[trigger] backend.loop_list()[j];
                    &&& 0 <= j < backend.loop_list().len()
                    &&& keys.contains(l.from)
                    &&& keys.contains(l.to)
                    &&& plan.component@[keys.index_of(l.from)] == plan.trees@[t].order@[0]
                    &&& plan.component@[keys.index_of(l.to)] == plan.trees@[t].order@[0]
                }),
{
    let keys = backend.records.keys();
    let loops = backend.loop_list();
    let poses = pose_models(previous.poses@);
    let edges = backend.all_edges();
    places_are_unique::<Key>(keys);
    assert forall|p: int| 0 <= p < keys.len() implies match #[trigger] plan.warm@[p] {
        Some(w) => w < poses.len(),
        None => true,
    } by {
        warm_pose_is_last(poses, keys[p], poses.len() as int);
    }
    warm_pose_is_last(poses, keys[k], poses.len() as int);
    assert forall|v: int| 0 <= v < poses.len() implies #[trigger] previous.poses@[v].key@
        == poses[v].key && previous.poses@[v].component@ == poses[v].component by {}
    anchor_is_first(poses, plan.component@, plan.warm@, k, 0);
    if plan.warm@[k] is Some {
        anchors_keep_components(poses, plan.component@, plan.warm@, k, 0);
        let q = plan.anchor@[k]->0;
        assert(aligned(poses, plan.component@, plan.warm@, q as int, k));
        assert(previous.poses@[plan.warm@[q as int]->0 as int].component@
            == poses[plan.warm@[q as int]->0 as int].component);
        assert(previous.poses@[plan.warm@[k]->0 as int].component@
            == poses[plan.warm@[k]->0 as int].component);
        assert forall|p: int|
            0 <= p < q && #[trigger] plan.component@[p] == plan.component@[k]
                && plan.warm@[p] is Some implies previous.poses@[plan.warm@[p]->0 as int].component@
            != previous.poses@[plan.warm@[k]->0 as int].component@ by {
            assert(!aligned(poses, plan.component@, plan.warm@, p, k));
            assert(previous.poses@[plan.warm@[p]->0 as int].component@
                == poses[plan.warm@[p]->0 as int].component);
        }
    }
    motions_are_those_of_known_keyframes(backend);
    motions_join_keyframes(backend);
    roots_are_vertices(edges, keys.len() as int);
    components_follow_the_edges(edges, keys.len() as int);
    let f = forest(edges, keys.len() as int, keys.len() as int);
    assert(plan.component@[k] == root_of(f, k as usize));
    assert forall|m: int| 0 <= m < edges.len() implies plan.component@[(
    #[trigger] edges[m]).from as int] == plan.component@[edges[m].to as int] by {
        assert(plan.component@[edges[m].from as int] == root_of(f, edges[m].from));
        assert(plan.component@[edges[m].to as int] == root_of(f, edges[m].to));
    }
    assert forall|t: int| 0 <= t < plan.trees@.len() implies (#[trigger] plan.solves@[t]
        <==> exists|j: int|
        {
            let l = #[trigger] backend.loop_list()[j];
            &&& 0 <= j < backend.loop_list().len()
            &&& keys.contains(l.from)
            &&& keys.contains(l.to)
            &&& plan.component@[keys.index_of(l.from)] == plan.trees@[t].order@[0]
            &&& plan.component@[keys.index_of(l.to)] == plan.trees@[t].order@[0]
        }) by {
        assert(tree_models(plan.trees@)[t] == plan.trees@[t]@);
        let root = plan.trees@[t].order@[0];
        assert(plan.solves@[t] == has_loop(edges, plan.component@, root));
        if has_loop(edges, plan.component@, root) {
            let m = choose|m: int|
                0 <= m < edges.len() && (#[trigger] edges[m]).closes
                    && plan.component@[edges[m].from as int] == root
                    && plan.component@[edges[m].to as int] == root;
            let l = loops[edges[m].source as int];
            assert(keys.index_of(keys[edges[m].from as int]) == edges[m].from);
            assert(keys.index_of(keys[edges[m].to as int]) == edges[m].to);
            assert(keys.contains(l.from) && keys.contains(l.to));
        }
        if exists|j: int|
            {
                let l = #[trigger] backend.loop_list()[j];
                &&& 0 <= j < backend.loop_list().len()
                &&& keys.contains(l.from)
                &&& keys.contains(l.to)
                &&& plan.component@[keys.index_of(l.from)] == root
                &&& plan.component@[keys.index_of(l.to)] == root
            } {
            let j = choose|j: int|
                {
                    let l = #[trigger] backend.loop_list()[j];
                    &&& 0 <= j < backend.loop_list().len()
                    &&& keys.contains(l.from)
                    &&& keys.contains(l.to)
                    &&& plan.component@[keys.index_of(l.from)] == root
                    &&& plan.component@[keys.index_of(l.to)] == root
                };
            assert(loops[j].from == backend.loop_list()[j].from);
            let m = choose|m: int|
                0 <= m < edges.len() && (#[trigger] edges[m]).closes && edges[m].source == j
                    && edges[m].from < keys.len() && keys[edges[m].from as int] == loops[j].from
                    && edges[m].to < keys.len() && keys[edges[m].to as int] == loops[j].to;
            assert(keys.index_of(keys[edges[m].from as int]) == edges[m].from);
            assert(keys.index_of(keys[edges[m].to as int]) == edges[m].to);
        }
    }
}

proof fn warm_pose_is_last(poses: Seq<PoseModel>, key: KeyModel, n: int)
    requires
        0 <= n <= poses.len() <= usize::MAX,
    ensures
        match warm_pose(poses, key, n) {
            Some(w) => w < n && poses[w as int].key == key && forall|v: int|
                w < v < n ==> (#[trigger] poses[v]).key != key,
            None => forall|v: int| 0 <= v < n ==> (#[trigger] poses[v]).key != key,
        },
    decreases n,
{
    if n > 0 && poses[n - 1].key != key {
        warm_pose_is_last(poses, key, n - 1);
    }
}

proof fn anchor_is_first(
    poses: Seq<PoseModel>,
    component: Seq<usize>,
    warm: Seq<Option<usize>>,
    place: int,
    q: int,
)
    requires
        0 <= q <= component.len() <= usize::MAX,
    ensures
        match anchor_of(poses, component, warm, place, q) {
            Some(x) => q <= x < component.len() && aligned(poses, component, warm, x as int, place)
                && forall|p: int|
                q <= p < x ==> !#[trigger] aligned(poses, component, warm, p, place),
            None => forall|p: int|
                q <= p < component.len() ==> !#[trigger] aligned(poses, component, warm, p, place),
        },
    decreases component.len() - q,
{
    if q < component.len() && !aligned(poses, component, warm, q, place) {
        anchor_is_first(poses, component, warm, place, q + 1);
    }
}

/// A start is refused exactly where the last earlier pose of some keyframe is no motion; a result exactly where
/// a cost is not finite or the final one is above its bound.
pub proof fn solutions_start_and_end_sound(
    poses: Seq<PoseModel>,
    keys: Seq<KeyModel>,
    initial: u64,
    solved: u64,
    bound: u64,
)
    requires
        poses.len() <= usize::MAX,
    ensures
        some_warm_fault(poses, keys) <==> exists|k: int, w: int|
            0 <= k < keys.len() && 0 <= w < poses.len() && (#[trigger] poses[w]).key
                == #[trigger] keys[k] && transform_fault(poses[w].body_to_map) is Some && forall|
                v: int,
            | w < v < poses.len() ==> (#[trigger] poses[v]).key != keys[k],
        costs_fault(initial, solved, bound) <==> !(double_finite(initial) && double_finite(solved)
            && !double_less(bound, solved)),
{
    if some_warm_fault(poses, keys) {
        let k = choose|k: int|
            0 <= k < keys.len() && warm_fault(poses, #[trigger] keys[k]) is Some;
        warm_pose_is_last(poses, keys[k], poses.len() as int);
        let w = warm_pose(poses, keys[k], poses.len() as int)->0 as int;
        assert(poses[w].key == keys[k]);
    }
    if exists|k: int, w: int|
        0 <= k < keys.len() && 0 <= w < poses.len() && (#[trigger] poses[w]).key
            == #[trigger] keys[k] && transform_fault(poses[w].body_to_map) is Some && forall|v: int|
            w < v < poses.len() ==> (#[trigger] poses[v]).key != keys[k] {
        let (k, w) = choose|k: int, w: int|
            0 <= k < keys.len() && 0 <= w < poses.len() && (#[trigger] poses[w]).key
                == #[trigger] keys[k] && transform_fault(poses[w].body_to_map) is Some && forall|
                v: int,
            | w < v < poses.len() ==> (#[trigger] poses[v]).key != keys[k];
        warm_pose_is_last(poses, keys[k], poses.len() as int);
        assert(warm_fault(poses, keys[k]) is Some);
    }
}

/// The pose of a keyframe in a solution is named after it, has its time, is of the component of its root, and
/// has the motions that were solved for it.
pub proof fn solved_poses_are_of_their_keyframes(
    backend: &Backend,
    plan: SolvePlan,
    solution: Solution,
    i: int,
)
    requires
        0 <= i < backend.records.keys().len(),
    ensures
        ({
            let p = backend.solved_pose(plan, solution, i);
            &&& p.key == backend.records.entries@[i].0@
            &&& p.timestamp_ns == backend.records.entries@[i].1.timestamp_ns
            &&& p.component == backend.records.keys()[plan.component@[i] as int]
            &&& p.body_to_map == solution.body_to_map@[i]
            &&& p.map_from_odom == solution.map_from_odom@[i]
        }),
{
}

} // verus!

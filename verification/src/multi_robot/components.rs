//! Spanning trees of a graph: which vertices hang together, and in what order they are reached.
use vstd::prelude::*;

verus! {

/// A measured motion between two vertices. `closes` tells loops from odometry; `source` is the place
/// of the loop, or of the later keyframe.
#[derive(Clone, Copy, Debug, PartialEq, Eq, Structural)]
pub struct Edge {
    pub from: usize,
    pub to: usize,
    pub closes: bool,
    pub source: usize,
}

/// One step of a tree: a new vertex, the one that it is reached from, the edge between them, and
/// whether the edge goes from the parent to the child.
#[derive(Clone, Copy, Debug, PartialEq, Eq, Structural)]
pub struct TreeStep {
    pub child: usize,
    pub parent: usize,
    pub edge: usize,
    pub forward: bool,
}

/// The other end of an edge.
pub open spec fn across(e: Edge, a: usize) -> Option<usize> {
    if e.from == a {
        Some(e.to)
    } else if e.to == a {
        Some(e.from)
    } else {
        None
    }
}

/// A walk in the making: the vertices seen so far, those of this tree in the order in which they were
/// reached, and how.
#[verifier::ext_equal]
pub ghost struct Walk {
    pub seen: Set<usize>,
    pub order: Seq<usize>,
    pub steps: Seq<TreeStep>,
}

/// Looks across the first `n` edges from a vertex, in their order.
pub open spec fn expanded(edges: Seq<Edge>, a: usize, n: int, w: Walk) -> Walk
    decreases n,
{
    if n <= 0 {
        w
    } else {
        let p = expanded(edges, a, n - 1, w);
        match across(edges[n - 1], a) {
            None => p,
            Some(b) => if p.seen.contains(b) {
                p
            } else {
                Walk {
                    seen: p.seen.insert(b),
                    order: p.order.push(b),
                    steps: p.steps.push(
                        TreeStep {
                            child: b,
                            parent: a,
                            edge: (n - 1) as usize,
                            forward: edges[n - 1].from == a,
                        },
                    ),
                }
            },
        }
    }
}

/// Looks around from every reached vertex in turn, from place `head` on: breadth first.
pub open spec fn walked(edges: Seq<Edge>, n: int, w: Walk, head: int) -> Walk
    decreases n - head,
{
    if head >= w.order.len() || head >= n {
        w
    } else {
        walked(edges, n, expanded(edges, w.order[head], edges.len() as int, w), head + 1)
    }
}

/// A tree: its vertices in the order in which they are reached, and how each but the first is.
#[verifier::ext_equal]
pub ghost struct TreeModel {
    pub order: Seq<usize>,
    pub steps: Seq<TreeStep>,
}

/// A forest in the making.
#[verifier::ext_equal]
pub ghost struct Forest {
    pub seen: Set<usize>,
    pub trees: Seq<TreeModel>,
}

/// The trees that start from the first `r` vertices, each from the first that no earlier one reached.
pub open spec fn forest(edges: Seq<Edge>, n: int, r: int) -> Forest
    decreases r,
{
    if r <= 0 {
        Forest { seen: Set::empty(), trees: Seq::empty() }
    } else {
        let before = forest(edges, n, r - 1);
        let root = (r - 1) as usize;
        if before.seen.contains(root) {
            before
        } else {
            let w = walked(
                edges,
                n,
                Walk { seen: before.seen.insert(root), order: seq![root], steps: Seq::empty() },
                0,
            );
            Forest {
                seen: w.seen,
                trees: before.trees.push(TreeModel { order: w.order, steps: w.steps }),
            }
        }
    }
}

/// A tree: its vertices in the order in which they are reached, and how each but the first is.
#[derive(Debug, PartialEq)]
pub struct Tree {
    pub order: Vec<usize>,
    pub steps: Vec<TreeStep>,
}

impl View for Tree {
    type V = TreeModel;

    open spec fn view(&self) -> TreeModel {
        TreeModel { order: self.order@, steps: self.steps@ }
    }
}

/// Trees without the lists that hold them.
pub open spec fn tree_models(trees: Seq<Tree>) -> Seq<TreeModel> {
    trees.map_values(|t: Tree| t@)
}

/// Whether the ends of all edges are vertices.
pub open spec fn edges_within(edges: Seq<Edge>, n: int) -> bool {
    forall|i: int| 0 <= i < edges.len() ==> (#[trigger] edges[i]).from < n && edges[i].to < n
}

/// Whether a step of a tree is what it says: its child comes next, its parent came before, and its
/// edge joins the two.
pub open spec fn step_joins(edges: Seq<Edge>, order: Seq<usize>, s: TreeStep, k: int) -> bool {
    &&& s.child == order[k + 1]
    &&& s.edge < edges.len()
    &&& across(edges[s.edge as int], s.parent) == Some(s.child)
    &&& s.forward == (edges[s.edge as int].from == s.parent)
    &&& order.take(k + 1).contains(s.parent)
}

/// Whether all that an edge leads to from a vertex is in a set.
pub open spec fn closed_at(edges: Seq<Edge>, a: usize, set: Set<usize>) -> bool {
    forall|i: int|
        0 <= i < edges.len() && across(#[trigger] edges[i], a) is Some ==> set.contains(
            across(edges[i], a)->Some_0,
        )
}

/// What a walk keeps: it reaches new vertices only, each once, and says how.
pub open spec fn walk_wf(edges: Seq<Edge>, n: int, w: Walk, before: Set<usize>) -> bool {
    &&& w.order.len() > 0
    &&& w.order.no_duplicates()
    &&& w.steps.len() + 1 == w.order.len()
    &&& forall|k: int| 0 <= k < w.order.len() ==> (#[trigger] w.order[k]) < n && !before.contains(w.order[k])
    &&& forall|x: usize| #[trigger] w.seen.contains(x) <==> before.contains(x) || w.order.contains(x)
    &&& forall|k: int|
        0 <= k < w.steps.len() ==> step_joins(edges, w.order, #[trigger] w.steps[k], k)
}

/// Whether one list begins with another.
pub open spec fn extends<T>(long: Seq<T>, short: Seq<T>) -> bool {
    short.len() <= long.len() && long.take(short.len() as int) == short
}

proof fn expanded_keeps(
    edges: Seq<Edge>,
    n: int,
    a: usize,
    k: int,
    w: Walk,
    before: Set<usize>,
)
    requires
        edges_within(edges, n),
        walk_wf(edges, n, w, before),
        w.order.contains(a),
        0 <= k <= edges.len() <= usize::MAX,
    ensures
        walk_wf(edges, n, expanded(edges, a, k, w), before),
        extends(expanded(edges, a, k, w).order, w.order),
        w.seen.subset_of(expanded(edges, a, k, w).seen),
        forall|i: int|
            0 <= i < k && across(#[trigger] edges[i], a) is Some ==> expanded(
                edges,
                a,
                k,
                w,
            ).seen.contains(across(edges[i], a)->Some_0),
    decreases k,
{
    if k <= 0 {
        assert(w.order.take(w.order.len() as int) =~= w.order);
    } else {
        expanded_keeps(edges, n, a, k - 1, w, before);
        let p = expanded(edges, a, k - 1, w);
        let q = expanded(edges, a, k, w);
        assert(p.order.contains(a)) by {
            let i = choose|i: int| 0 <= i < w.order.len() && w.order[i] == a;
            assert(p.order.take(w.order.len() as int)[i] == a);
            assert(p.order[i] == a);
        }
        if let Some(b) = across(edges[k - 1], a) {
            if !p.seen.contains(b) {
                assert(q.order == p.order.push(b));
                assert(!p.order.contains(b));
                assert(q.order.no_duplicates());
                assert(q.order.take(w.order.len() as int) =~= p.order.take(w.order.len() as int));
                assert forall|x: usize| #[trigger] q.seen.contains(x) <==> before.contains(x)
                    || q.order.contains(x) by {
                    if q.order.contains(x) {
                        let i = choose|i: int| 0 <= i < q.order.len() && q.order[i] == x;
                        if i < p.order.len() {
                            assert(p.order[i] == x);
                        }
                    }
                    if p.order.contains(x) {
                        let i = choose|i: int| 0 <= i < p.order.len() && p.order[i] == x;
                        assert(q.order[i] == x);
                    }
                    assert(q.order[p.order.len() as int] == b);
                }
                assert forall|i: int| 0 <= i < q.steps.len() implies step_joins(
                    edges,
                    q.order,
                    #[trigger] q.steps[i],
                    i,
                ) by {
                    if i < p.steps.len() {
                        assert(step_joins(edges, p.order, p.steps[i], i));
                        assert(q.steps[i] == p.steps[i]);
                        assert(q.order.take(i + 1) =~= p.order.take(i + 1));
                    } else {
                        assert(q.order.take(i + 1) =~= p.order);
                    }
                }
            }
        }
    }
}

proof fn bounded_order(order: Seq<usize>, n: int)
    requires
        order.no_duplicates(),
        forall|k: int| 0 <= k < order.len() ==> (#[trigger] order[k]) < n,
        0 <= n,
    ensures
        order.len() <= n,
{
    let places = order.map_values(|x: usize| x as int);
    assert(places.no_duplicates()) by {
        assert forall|i: int, j: int| 0 <= i < places.len() && 0 <= j < places.len() && i != j implies places[i] != places[j] by {
            assert(order[i] != order[j]);
        }
    }
    places.unique_seq_to_set();
    vstd::set_lib::lemma_int_range(0, n);
    assert(places.to_set().subset_of(vstd::set_lib::set_int_range(0, n))) by {
        assert forall|x: int| places.to_set().contains(x) implies vstd::set_lib::set_int_range(
            0,
            n,
        ).contains(x) by {
            let i = choose|i: int| 0 <= i < places.len() && places[i] == x;
            assert(order[i] < n);
        }
    }
    vstd::set_lib::lemma_len_subset(places.to_set(), vstd::set_lib::set_int_range(0, n));
}

/// A walk from its start reaches a set of vertices that no edge leaves but to those seen before.
proof fn walked_keeps(edges: Seq<Edge>, n: int, w: Walk, head: int, before: Set<usize>)
    requires
        edges_within(edges, n),
        walk_wf(edges, n, w, before),
        0 <= head <= w.order.len(),
        edges.len() <= usize::MAX,
        0 <= n,
        forall|k: int| 0 <= k < head ==> closed_at(edges, #[trigger] w.order[k], w.seen),
    ensures
        ({
            let out = walked(edges, n, w, head);
            &&& walk_wf(edges, n, out, before)
            &&& extends(out.order, w.order)
            &&& forall|k: int|
                0 <= k < out.order.len() ==> closed_at(edges, #[trigger] out.order[k], out.seen)
        }),
    decreases n - head,
{
    bounded_order(w.order, n);
    if head >= w.order.len() || head >= n {
        assert(w.order.take(w.order.len() as int) =~= w.order);
    } else {
        let a = w.order[head];
        let next = expanded(edges, a, edges.len() as int, w);
        expanded_keeps(edges, n, a, edges.len() as int, w, before);
        assert forall|k: int| 0 <= k < head + 1 implies closed_at(
            edges,
            #[trigger] next.order[k],
            next.seen,
        ) by {
            assert(next.order.take(w.order.len() as int)[k] == w.order[k]);
            assert(next.order[k] == w.order[k]);
            if k < head {
                assert(closed_at(edges, w.order[k], w.seen));
            }
        }
        walked_keeps(edges, n, next, head + 1, before);
        let out = walked(edges, n, next, head + 1);
        assert(out.order.take(w.order.len() as int) =~= w.order) by {
            assert forall|i: int| 0 <= i < w.order.len() implies out.order[i] == w.order[i] by {
                assert(out.order.take(next.order.len() as int)[i] == next.order[i]);
                assert(next.order.take(w.order.len() as int)[i] == w.order[i]);
            }
        }
    }
}

/// What a forest keeps.
pub open spec fn forest_wf(edges: Seq<Edge>, n: int, f: Forest) -> bool {
    &&& forall|t: int| 0 <= t < f.trees.len() ==> tree_wf(edges, n, #[trigger] f.trees[t])
    &&& forall|s: int, t: int, x: usize|
        0 <= s < t < f.trees.len() && #[trigger] f.trees[s].order.contains(x) ==> !(
        #[trigger] f.trees[t].order.contains(x))
    &&& forall|x: usize| #[trigger]
        f.seen.contains(x) <==> exists|t: int|
            0 <= t < f.trees.len() && (#[trigger] f.trees[t]).order.contains(x)
}

/// What a tree keeps: vertices that each occur once, the first of which is the least; a step for
/// each of the others that joins it to an earlier one; and no edge that leaves it.
pub open spec fn tree_wf(edges: Seq<Edge>, n: int, t: TreeModel) -> bool {
    &&& t.order.len() > 0
    &&& t.order.no_duplicates()
    &&& t.steps.len() + 1 == t.order.len()
    &&& forall|k: int|
        0 <= k < t.order.len() ==> t.order[0] <= (#[trigger] t.order[k]) && t.order[k] < n
    &&& forall|k: int|
        0 <= k < t.steps.len() ==> step_joins(edges, t.order, #[trigger] t.steps[k], k)
    &&& forall|k: int|
        0 <= k < t.order.len() ==> closed_at(edges, #[trigger] t.order[k], t.order.to_set())
}

/// Breadth-first search splits a graph into its components: every vertex is in one tree, no vertex in
/// two, no edge leaves a tree, each vertex of a tree but the first is joined by an edge to an earlier
/// one, and the first is the least.
pub proof fn forests_are_components(edges: Seq<Edge>, n: int, r: int)
    requires
        edges_within(edges, n),
        0 <= r <= n <= usize::MAX,
        edges.len() <= usize::MAX,
    ensures
        forest_wf(edges, n, forest(edges, n, r)),
        forall|x: usize| x < r ==> #[trigger] forest(edges, n, r).seen.contains(x),
    decreases r,
{
    if r > 0 {
        forests_are_components(edges, n, r - 1);
        let f = forest(edges, n, r - 1);
        let g = forest(edges, n, r);
        let root = (r - 1) as usize;
        if !f.seen.contains(root) {
            let start = Walk {
                seen: f.seen.insert(root),
                order: seq![root],
                steps: Seq::<TreeStep>::empty(),
            };
            assert forall|x: usize| #[trigger] start.seen.contains(x) <==> f.seen.contains(x)
                || start.order.contains(x) by {
                assert(start.order[0] == root);
                if start.order.contains(x) {
                    assert(x == root);
                }
            }
            assert(walk_wf(edges, n, start, f.seen));
            walked_keeps(edges, n, start, 0, f.seen);
            let w = walked(edges, n, start, 0);
            let t = TreeModel { order: w.order, steps: w.steps };
            assert(w.order[0] == root) by {
                assert(w.order.take(1)[0] == start.order[0]);
            }
            assert forall|k: int| 0 <= k < t.order.len() implies t.order[0] <= (
            #[trigger] t.order[k]) && t.order[k] < n by {
                if t.order[k] < root {
                    assert(f.seen.contains(t.order[k]));
                }
            }
            assert forall|k: int| 0 <= k < t.order.len() implies closed_at(
                edges,
                #[trigger] t.order[k],
                t.order.to_set(),
            ) by {
                let a = t.order[k];
                assert(closed_at(edges, a, w.seen));
                assert forall|i: int|
                    0 <= i < edges.len() && across(#[trigger] edges[i], a) is Some implies t.order.to_set().contains(
                across(edges[i], a)->Some_0) by {
                    let b = across(edges[i], a)->Some_0;
                    if f.seen.contains(b) {
                        let s = choose|s: int|
                            0 <= s < f.trees.len() && (#[trigger] f.trees[s]).order.contains(b);
                        assert(tree_wf(edges, n, f.trees[s]));
                        let q = choose|q: int|
                            0 <= q < f.trees[s].order.len() && f.trees[s].order[q] == b;
                        assert(closed_at(edges, f.trees[s].order[q], f.trees[s].order.to_set()));
                        assert(across(edges[i], b) == Some(a) || a == b);
                        assert(f.trees[s].order.to_set().contains(a));
                        assert(f.trees[s].order.contains(a));
                        assert(f.seen.contains(a));
                    }
                }
            }
            assert(tree_wf(edges, n, t));
            assert forall|s: int, u: int, x: usize|
                0 <= s < u < g.trees.len() && #[trigger] g.trees[s].order.contains(x) implies !(
            #[trigger] g.trees[u].order.contains(x)) by {
                if u == f.trees.len() {
                    assert(f.trees[s].order.contains(x));
                    assert(f.seen.contains(x));
                    if t.order.contains(x) {
                        let k = choose|k: int| 0 <= k < t.order.len() && t.order[k] == x;
                        assert(!f.seen.contains(w.order[k]));
                    }
                } else {
                    assert(f.trees[s].order.contains(x));
                    assert(g.trees[u] == f.trees[u]);
                }
            }
            assert forall|x: usize| #[trigger] g.seen.contains(x) <==> exists|s: int|
                0 <= s < g.trees.len() && (#[trigger] g.trees[s]).order.contains(x) by {
                if f.seen.contains(x) {
                    let s = choose|s: int|
                        0 <= s < f.trees.len() && (#[trigger] f.trees[s]).order.contains(x);
                    assert(g.trees[s].order.contains(x));
                }
                if w.order.contains(x) {
                    assert(g.trees[f.trees.len() as int].order.contains(x));
                }
                if exists|s: int| 0 <= s < g.trees.len() && (#[trigger] g.trees[s]).order.contains(x) {
                    let s = choose|s: int|
                        0 <= s < g.trees.len() && (#[trigger] g.trees[s]).order.contains(x);
                    if s < f.trees.len() {
                        assert(f.trees[s].order.contains(x));
                    }
                }
            }
            assert forall|k: int| 0 <= k < g.trees.len() implies tree_wf(
                edges,
                n,
                #[trigger] g.trees[k],
            ) by {
                if k < f.trees.len() {
                    assert(g.trees[k] == f.trees[k]);
                }
            }
            assert(w.seen.contains(root)) by {
                assert(w.order.contains(w.order[0]));
            }
            assert forall|x: usize| x < r implies #[trigger] g.seen.contains(x) by {
                if x < r - 1 {
                    assert(f.seen.contains(x));
                }
            }
        }
    }
}

/// The root of the tree that a vertex is in.
pub open spec fn root_of(f: Forest, x: usize) -> usize {
    let t = choose|t: int| 0 <= t < f.trees.len() && (#[trigger] f.trees[t]).order.contains(x);
    f.trees[t].order[0]
}

/// Whether the vertices of trees are marked with their roots.
spec fn marked(component: Seq<usize>, trees: Seq<TreeModel>) -> bool {
    forall|t: int, k: int|
        0 <= t < trees.len() && 0 <= k < trees[t].order.len() ==> component[(
        #[trigger] trees[t].order[k]) as int] == trees[t].order[0]
}

/// Splits a graph into its components. Gives the trees, and for each vertex the root of its tree.
pub fn span(edges: &Vec<Edge>, n: usize) -> (result: (Vec<Tree>, Vec<usize>))
    requires
        edges_within(edges@, n as int),
    ensures
        tree_models(result.0@) == forest(edges@, n as int, n as int).trees,
        result.1@.len() == n,
        forall|x: int|
            0 <= x < n ==> #[trigger] result.1@[x] == root_of(
                forest(edges@, n as int, n as int),
                x as usize,
            ),
{
    let mut trees: Vec<Tree> = Vec::new();
    let mut seen: Vec<bool> = Vec::new();
    let mut component: Vec<usize> = Vec::new();
    let ghost size = n as int;
    let m: usize = edges.len();
    for i in 0..n
        invariant
            seen@.len() == i,
            component@.len() == i,
            forall|k: int| 0 <= k < i ==> !#[trigger] seen@[k],
    {
        seen.push(false);
        component.push(0);
    }
    assert(tree_models(trees@) =~= Seq::empty());
    for root in 0..n
        invariant
            size == n,
            seen@.len() == n,
            component@.len() == n,
            edges_within(edges@, size),
            tree_models(trees@) == forest(edges@, size, root as int).trees,
            forall|x: usize|
                x < n ==> (#[trigger] seen@[x as int] <==> forest(
                    edges@,
                    size,
                    root as int,
                ).seen.contains(x)),
            marked(component@, forest(edges@, size, root as int).trees),
            edges@.len() == m,
    {
        let ghost f = forest(edges@, size, root as int);
        let ghost g = forest(edges@, size, root + 1);
        proof {
            forests_are_components(edges@, size, root as int);
            forests_are_components(edges@, size, root + 1);
        }
        if !seen[root] {
            let mut order: Vec<usize> = Vec::new();
            let mut steps: Vec<TreeStep> = Vec::new();
            order.push(root);
            seen.set(root, true);
            component.set(root, root);
            let ghost start = Walk {
                seen: f.seen.insert(root),
                order: seq![root],
                steps: Seq::<TreeStep>::empty(),
            };
            let ghost goal = walked(edges@, size, start, 0);
            let ghost comp0 = component@;
            let ghost mut now = start;
            proof {
                assert(order@ =~= start.order);
                assert(steps@ =~= start.steps);
                assert forall|x: usize| #[trigger] start.seen.contains(x) <==> f.seen.contains(x)
                    || start.order.contains(x) by {
                    assert(start.order[0] == root);
                    if start.order.contains(x) {
                        assert(x == root);
                    }
                }
                assert(walk_wf(edges@, size, start, f.seen));
            }
            let mut head: usize = 0;
            while head < order.len()
                invariant
                    size == n,
                    root < n,
                    edges_within(edges@, size),
                    seen@.len() == n,
                    component@.len() == n,
                    edges@.len() == m,
                    order@ == now.order,
                    steps@ == now.steps,
                    head <= order@.len(),
                    order@.len() <= n,
                    order@[0] == root,
                    walk_wf(edges@, size, now, f.seen),
                    goal == walked(edges@, size, now, head as int),
                    forall|x: usize| x < n ==> (#[trigger] seen@[x as int] <==> now.seen.contains(x)),
                    forall|k: int|
                        0 <= k < order@.len() ==> component@[(#[trigger] order@[k]) as int] == root,
                    forall|x: usize|
                        x < n && !order@.contains(x) ==> #[trigger] component@[x as int]
                            == comp0[x as int],
                decreases n - head,
            {
                let a: usize = order[head];
                let ghost base = now;
                let ghost after = expanded(edges@, a, edges@.len() as int, base);
                proof {
                    assert(base.order[head as int] == a);
                    assert(base.order.contains(a));
                }
                for i in 0..edges.len()
                    invariant
                        size == n,
                        root < n,
                        edges_within(edges@, size),
                        seen@.len() == n,
                        component@.len() == n,
                        edges@.len() == m,
                        order@ == now.order,
                        steps@ == now.steps,
                        order@.len() > 0,
                        order@[0] == root,
                        base.order.contains(a),
                        walk_wf(edges@, size, base, f.seen),
                        now == expanded(edges@, a, i as int, base),
                        forall|x: usize|
                            x < n ==> (#[trigger] seen@[x as int] <==> now.seen.contains(x)),
                        forall|k: int|
                            0 <= k < order@.len() ==> component@[(#[trigger] order@[k]) as int]
                                == root,
                        forall|x: usize|
                            x < n && !order@.contains(x) ==> #[trigger] component@[x as int]
                                == comp0[x as int],
                {
                    let e: Edge = edges[i];
                    let other: Option<usize> = if e.from == a {
                        Some(e.to)
                    } else if e.to == a {
                        Some(e.from)
                    } else {
                        None
                    };
                    let ghost prior = now;
                    proof {
                        expanded_keeps(edges@, size, a, i as int, base, f.seen);
                        expanded_keeps(edges@, size, a, i + 1, base, f.seen);
                        now = expanded(edges@, a, i + 1, base);
                    }
                    if let Some(b) = other {
                        if !seen[b] {
                            let ghost before = order@;
                            seen.set(b, true);
                            component.set(b, root);
                            order.push(b);
                            steps.push(
                                TreeStep { child: b, parent: a, edge: i, forward: e.from == a },
                            );
                            proof {
                                assert forall|k: int| 0 <= k < order@.len() implies component@[(
                                #[trigger] order@[k]) as int] == root by {
                                    if k < before.len() {
                                        assert(order@[k] == before[k]);
                                    }
                                }
                                assert forall|x: usize|
                                    x < n && !order@.contains(x) implies #[trigger] component@[x as int]
                                    == comp0[x as int] by {
                                    assert(order@[before.len() as int] == b);
                                    if before.contains(x) {
                                        let k = choose|k: int|
                                            0 <= k < before.len() && before[k] == x;
                                        assert(order@[k] == x);
                                    }
                                }
                                assert(order@[0] == before[0]);
                            }
                        }
                    }
                }
                proof {
                    expanded_keeps(edges@, size, a, edges@.len() as int, base, f.seen);
                    bounded_order(now.order, size);
                    assert(goal == walked(edges@, size, after, head + 1));
                }
                head = head + 1;
            }
            proof {
                assert(goal == now);
            }
            let tree = Tree { order, steps };
            let ghost trees0 = trees@;
            trees.push(tree);
            proof {
                assert(tree@ == (TreeModel { order: goal.order, steps: goal.steps }));
                assert(tree_models(trees@) =~= tree_models(trees0).push(tree@));
                assert(g.trees == f.trees.push(tree@));
                assert forall|t: int, k: int|
                    0 <= t < g.trees.len() && 0 <= k < g.trees[t].order.len() implies component@[(
                #[trigger] g.trees[t].order[k]) as int] == g.trees[t].order[0] by {
                    if t < f.trees.len() {
                        let x = f.trees[t].order[k];
                        assert(g.trees[t].order[k] == x);
                        assert(tree_wf(edges@, size, f.trees[t]));
                        assert(f.trees[t].order.contains(x));
                        assert(f.seen.contains(x));
                        if tree.order@.contains(x) {
                            let q = choose|q: int|
                                0 <= q < tree.order@.len() && tree.order@[q] == x;
                            assert(!f.seen.contains(now.order[q]));
                        }
                        assert(component@[x as int] == comp0[x as int]);
                        assert(x != root);
                    } else {
                        assert(g.trees[t] == tree@);
                        assert(tree.order@[k] == g.trees[t].order[k]);
                    }
                }
            }
        } else {
            assert(f.seen.contains(root));
        }
    }
    proof {
        let f = forest(edges@, size, size);
        forests_are_components(edges@, size, size);
        assert forall|x: int| 0 <= x < n implies #[trigger] component@[x] == root_of(
            f,
            x as usize,
        ) by {
            let v = x as usize;
            assert(f.seen.contains(v));
            let t = choose|t: int|
                0 <= t < f.trees.len() && (#[trigger] f.trees[t]).order.contains(v);
            let k = choose|k: int| 0 <= k < f.trees[t].order.len() && f.trees[t].order[k] == v;
            assert(marked(component@, f.trees));
            assert(component@[f.trees[t].order[k] as int] == f.trees[t].order[0]);
        }
    }
    (trees, component)
}

/// The two ends of every edge are in one component, every component is named after its least vertex, and
/// every other vertex of it is joined by an edge to one that came before it.
pub proof fn components_follow_the_edges(edges: Seq<Edge>, n: int)
    requires
        edges_within(edges, n),
        0 <= n <= usize::MAX,
        edges.len() <= usize::MAX,
    ensures
        ({
            let f = forest(edges, n, n);
            &&& forall|i: int|
                0 <= i < edges.len() ==> root_of(f, (#[trigger] edges[i]).from) == root_of(
                    f,
                    edges[i].to,
                )
            &&& forall|t: int, k: int|
                0 <= t < f.trees.len() && 0 <= k < f.trees[t].order.len() ==> {
                    let x = #[trigger] f.trees[t].order[k];
                    &&& x < n
                    &&& root_of(f, x) == f.trees[t].order[0]
                    &&& root_of(f, x) <= x
                }
            &&& forall|t: int, k: int|
                0 <= t < f.trees.len() && 0 <= k < f.trees[t].steps.len() ==> {
                    let s = #[trigger] f.trees[t].steps[k];
                    let e = edges[s.edge as int];
                    &&& s.edge < edges.len()
                    &&& s.child == f.trees[t].order[k + 1]
                    &&& f.trees[t].order.take(k + 1).contains(s.parent)
                    &&& if s.forward {
                        e.from == s.parent && e.to == s.child
                    } else {
                        e.to == s.parent && e.from == s.child
                    }
                }
            &&& forall|t: int|
                0 <= t < f.trees.len() ==> (#[trigger] f.trees[t]).steps.len() + 1
                    == f.trees[t].order.len()
        }),
{
    let f = forest(edges, n, n);
    forests_are_components(edges, n, n);
    assert forall|t: int, k: int|
        0 <= t < f.trees.len() && 0 <= k < f.trees[t].order.len() implies {
        let x = #[trigger] f.trees[t].order[k];
        &&& x < n
        &&& root_of(f, x) == f.trees[t].order[0]
        &&& root_of(f, x) <= x
    } by {
        let x = f.trees[t].order[k];
        assert(tree_wf(edges, n, f.trees[t]));
        assert(f.trees[t].order.contains(x));
        let u = choose|u: int| 0 <= u < f.trees.len() && (#[trigger] f.trees[u]).order.contains(x);
        if u < t {
            assert(f.trees[u].order.contains(x) && f.trees[t].order.contains(x));
        }
        if t < u {
            assert(f.trees[t].order.contains(x) && f.trees[u].order.contains(x));
        }
        assert(u == t);
    }
    assert forall|i: int| 0 <= i < edges.len() implies root_of(f, (#[trigger] edges[i]).from)
        == root_of(f, edges[i].to) by {
        let e = edges[i];
        assert(e.from < n && e.to < n);
        assert(f.seen.contains(e.from));
        let t = choose|t: int|
            0 <= t < f.trees.len() && #[trigger] f.trees[t].order.contains(e.from);
        assert(tree_wf(edges, n, f.trees[t]));
        let k = choose|k: int| 0 <= k < f.trees[t].order.len() && f.trees[t].order[k] == e.from;
        assert(closed_at(edges, f.trees[t].order[k], f.trees[t].order.to_set()));
        assert(across(edges[i], e.from) == Some(e.to));
        assert(f.trees[t].order.to_set().contains(e.to));
        let j = choose|j: int| 0 <= j < f.trees[t].order.len() && f.trees[t].order[j] == e.to;
        assert(root_of(f, f.trees[t].order[k]) == f.trees[t].order[0]);
        assert(root_of(f, f.trees[t].order[j]) == f.trees[t].order[0]);
    }
    assert forall|t: int, k: int|
        0 <= t < f.trees.len() && 0 <= k < f.trees[t].steps.len() implies {
        let s = #[trigger] f.trees[t].steps[k];
        let e = edges[s.edge as int];
        &&& s.edge < edges.len()
        &&& s.child == f.trees[t].order[k + 1]
        &&& f.trees[t].order.take(k + 1).contains(s.parent)
        &&& if s.forward {
            e.from == s.parent && e.to == s.child
        } else {
            e.to == s.parent && e.from == s.child
        }
    } by {
        assert(tree_wf(edges, n, f.trees[t]));
        assert(step_joins(edges, f.trees[t].order, f.trees[t].steps[k], k));
    }
    assert forall|t: int| 0 <= t < f.trees.len() implies (#[trigger] f.trees[t]).steps.len() + 1
        == f.trees[t].order.len() by {
        assert(tree_wf(edges, n, f.trees[t]));
    }
}

/// Every vertex is in exactly one tree.
pub proof fn every_vertex_is_in_one_tree(edges: Seq<Edge>, n: int, x: usize)
    requires
        edges_within(edges, n),
        0 <= x < n <= usize::MAX,
        edges.len() <= usize::MAX,
    ensures
        exists|t: int|
            0 <= t < forest(edges, n, n).trees.len() && (#[trigger] forest(
                edges,
                n,
                n,
            ).trees[t]).order.contains(x),
        forall|s: int, t: int|
            0 <= s < t < forest(edges, n, n).trees.len() ==> !((#[trigger] forest(
                edges,
                n,
                n,
            ).trees[s]).order.contains(x) && (#[trigger] forest(
                edges,
                n,
                n,
            ).trees[t]).order.contains(x)),
{
    forests_are_components(edges, n, n);
    assert(forest(edges, n, n).seen.contains(x));
}

/// Whether the steps of a walk, whose parents stand at the given places, are breadth first up to the edge `k`
/// of the vertex at `head`.
spec fn breadth_first(edges: Seq<Edge>, w: Walk, at: Seq<int>, head: int, k: int) -> bool {
    &&& at.len() == w.steps.len()
    &&& forall|i: int|
        0 <= i < at.len() ==> 0 <= (#[trigger] at[i]) <= i && w.order[at[i]] == w.steps[i].parent && (
        at[i] < head || (at[i] == head && w.steps[i].edge < k))
    &&& forall|i: int, j: int|
        0 <= i < j < at.len() ==> (#[trigger] at[i]) < (#[trigger] at[j]) || (at[i] == at[j]
            && w.steps[i].edge < w.steps[j].edge)
    &&& forall|i: int, q: int, e: int|
        0 <= i < at.len() && 0 <= q <= at[i] && 0 <= e < edges.len() && (q < at[i] || e
            < w.steps[i].edge) ==> #[trigger] across(edges[e], w.order[q]) != Some(
            (#[trigger] w.steps[i]).child,
        )
}

proof fn expanded_is_breadth_first(
    edges: Seq<Edge>,
    n: int,
    w: Walk,
    at: Seq<int>,
    head: int,
    k: int,
    before: Set<usize>,
) -> (out: Seq<int>)
    requires
        edges_within(edges, n),
        walk_wf(edges, n, w, before),
        0 <= head < w.order.len(),
        breadth_first(edges, w, at, head, 0),
        0 <= k <= edges.len() <= usize::MAX,
        forall|q: int| 0 <= q < head ==> closed_at(edges, #[trigger] w.order[q], w.seen),
    ensures
        breadth_first(edges, expanded(edges, w.order[head], k, w), out, head, k),
    decreases k,
{
    let a = w.order[head];
    assert(w.order.contains(a));
    if k <= 0 {
        at
    } else {
        let old_at = expanded_is_breadth_first(edges, n, w, at, head, k - 1, before);
        let p = expanded(edges, a, k - 1, w);
        expanded_keeps(edges, n, a, k - 1, w, before);
        assert forall|q: int| 0 <= q < w.order.len() implies #[trigger] p.order[q] == w.order[q] by {
            assert(p.order.take(w.order.len() as int)[q] == w.order[q]);
        }
        match across(edges[k - 1], a) {
            None => old_at,
            Some(b) => if p.seen.contains(b) {
                old_at
            } else {
                let next = expanded(edges, a, k, w);
                let out = old_at.push(head);
                let m = old_at.len() as int;
                assert(next.steps.len() == m + 1);
                assert(next.steps[m].child == b && next.steps[m].parent == a && next.steps[m].edge
                    == k - 1);
                assert forall|i: int| 0 <= i < m implies #[trigger] next.steps[i] == p.steps[i] by {}
                assert forall|q: int| 0 <= q < p.order.len() implies #[trigger] next.order[q]
                    == p.order[q] by {}
                assert forall|i: int| 0 <= i < out.len() implies 0 <= (#[trigger] out[i]) <= i
                    && next.order[out[i]] == next.steps[i].parent && (out[i] < head || (out[i]
                    == head && next.steps[i].edge < k)) by {
                    if i < m {
                        assert(out[i] == old_at[i]);
                    }
                }
                assert forall|i: int, j: int| 0 <= i < j < out.len() implies (#[trigger] out[i]) < (
                #[trigger] out[j]) || (out[i] == out[j] && next.steps[i].edge
                    < next.steps[j].edge) by {
                    assert(out[i] == old_at[i]);
                    if j < m {
                        assert(out[j] == old_at[j]);
                    }
                }
                assert forall|i: int, q: int, e: int|
                    0 <= i < out.len() && 0 <= q <= out[i] && 0 <= e < edges.len() && (q < out[i]
                        || e < next.steps[i].edge) implies #[trigger] across(
                    edges[e],
                    next.order[q],
                ) != Some((#[trigger] next.steps[i]).child) by {
                    if i < m {
                        assert(out[i] == old_at[i]);
                        assert(next.steps[i] == p.steps[i]);
                        assert(next.order[q] == p.order[q]);
                        assert(across(edges[e], p.order[q]) != Some(p.steps[i].child));
                    } else {
                        assert(next.order[q] == w.order[q]);
                        if across(edges[e], next.order[q]) == Some(b) {
                            if q < head {
                                assert(closed_at(edges, w.order[q], w.seen));
                                assert(across(edges[e], w.order[q]) is Some);
                                assert(w.seen.contains(b));
                                assert(p.seen.contains(b));
                            } else {
                                assert(across(edges[e], a) is Some);
                                assert(p.seen.contains(b));
                            }
                        }
                    }
                }
                out
            },
        }
    }
}

proof fn walked_is_breadth_first(
    edges: Seq<Edge>,
    n: int,
    w: Walk,
    at: Seq<int>,
    head: int,
    before: Set<usize>,
) -> (out: Seq<int>)
    requires
        edges_within(edges, n),
        walk_wf(edges, n, w, before),
        0 <= head <= w.order.len(),
        edges.len() <= usize::MAX,
        0 <= n,
        breadth_first(edges, w, at, head, 0),
        forall|q: int| 0 <= q < head ==> closed_at(edges, #[trigger] w.order[q], w.seen),
    ensures
        breadth_first(
            edges,
            walked(edges, n, w, head),
            out,
            walked(edges, n, w, head).order.len() as int,
            0,
        ),
    decreases n - head,
{
    bounded_order(w.order, n);
    if head >= w.order.len() || head >= n {
        assert forall|i: int| 0 <= i < at.len() implies (#[trigger] at[i])
            < w.order.len() as int by {}
        at
    } else {
        let a = w.order[head];
        assert(w.order.contains(a));
        let next = expanded(edges, a, edges.len() as int, w);
        let next_at = expanded_is_breadth_first(
            edges,
            n,
            w,
            at,
            head,
            edges.len() as int,
            before,
        );
        expanded_keeps(edges, n, a, edges.len() as int, w, before);
        assert forall|q: int| 0 <= q < w.order.len() implies #[trigger] next.order[q]
            == w.order[q] by {
            assert(next.order.take(w.order.len() as int)[q] == w.order[q]);
        }
        assert forall|q: int| 0 <= q < head + 1 implies closed_at(
            edges,
            #[trigger] next.order[q],
            next.seen,
        ) by {
            if q < head {
                assert(closed_at(edges, w.order[q], w.seen));
            }
        }
        assert(breadth_first(edges, next, next_at, head + 1, 0));
        walked_is_breadth_first(edges, n, next, next_at, head + 1, before)
    }
}

/// A tree is walked breadth first: its vertices are reached in the order of their parents, and those of one
/// parent in the order of the edges; each is reached from the earliest vertex that an edge joins it to, by the
/// first such edge. The result is the place of the parent of each step.
pub proof fn trees_are_breadth_first(edges: Seq<Edge>, n: int, r: int, t: int) -> (at: Seq<int>)
    requires
        edges_within(edges, n),
        0 <= r <= n <= usize::MAX,
        edges.len() <= usize::MAX,
        0 <= t < forest(edges, n, r).trees.len(),
    ensures
        ({
            let tree = forest(edges, n, r).trees[t];
            &&& at.len() == tree.steps.len()
            &&& forall|i: int|
                0 <= i < at.len() ==> 0 <= (#[trigger] at[i]) <= i && tree.order[at[i]]
                    == tree.steps[i].parent
            &&& forall|i: int, j: int|
                0 <= i < j < at.len() ==> (#[trigger] at[i]) < (#[trigger] at[j]) || (at[i] == at[j]
                    && tree.steps[i].edge < tree.steps[j].edge)
            &&& forall|i: int, q: int, e: int|
                0 <= i < at.len() && 0 <= q <= at[i] && 0 <= e < edges.len() && (q < at[i] || e
                    < tree.steps[i].edge) ==> {
                    let f = #[trigger] edges[e];
                    let x = #[trigger] tree.order[q];
                    let y = (#[trigger] tree.steps[i]).child;
                    !(f.from == x && f.to == y) && !(f.to == x && f.from == y)
                }
        }),
    decreases r,
{
    forests_are_components(edges, n, r);
    if r <= 0 {
        Seq::empty()
    } else {
        let f = forest(edges, n, r - 1);
        forests_are_components(edges, n, r - 1);
        let root = (r - 1) as usize;
        if t < f.trees.len() {
            assert(forest(edges, n, r).trees[t] == f.trees[t]);
            trees_are_breadth_first(edges, n, r - 1, t)
        } else {
            let start = Walk {
                seen: f.seen.insert(root),
                order: seq![root],
                steps: Seq::<TreeStep>::empty(),
            };
            assert forall|x: usize| #[trigger] start.seen.contains(x) <==> f.seen.contains(x)
                || start.order.contains(x) by {
                assert(start.order[0] == root);
                if start.order.contains(x) {
                    assert(x == root);
                }
            }
            assert(walk_wf(edges, n, start, f.seen));
            let at = walked_is_breadth_first(edges, n, start, Seq::empty(), 0, f.seen);
            let w = walked(edges, n, start, 0);
            let tree = forest(edges, n, r).trees[t];
            assert(tree.order == w.order && tree.steps == w.steps);
            assert forall|i: int, q: int, e: int|
                0 <= i < at.len() && 0 <= q <= at[i] && 0 <= e < edges.len() && (q < at[i] || e
                    < tree.steps[i].edge) implies {
                let f = #[trigger] edges[e];
                let x = #[trigger] tree.order[q];
                let y = (#[trigger] tree.steps[i]).child;
                !(f.from == x && f.to == y) && !(f.to == x && f.from == y)
            } by {
                assert(across(edges[e], w.order[q]) != Some(w.steps[i].child));
            }
            at
        }
    }
}

} // verus!

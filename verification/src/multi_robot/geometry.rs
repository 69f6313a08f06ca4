//! Whether two keyframes show one place: how matches are held against geometry.
//!
//! The robust estimators work outside. What they are given and what is made of their reports is
//! decided here.
use crate::ieee::{
    double_finite, double_less, is_double_finite, is_double_less, is_single_finite, single_finite,
};
use crate::multi_robot::error::{first_of, refused, Error};
use crate::multi_robot::keys::Pair;
use crate::multi_robot::types::{
    features_fault, information_fault, no_verification, transform_fault, FeatureFrame, LoopConstraint, LoopModel,
    Transform, Triple, Verification, VerificationModel,
};
use crate::ordered::{filter_next, filter_of_map};
use vstd::prelude::*;

verus! {

/// How many matches or points a loop needs.
pub const MIN_SUPPORT: usize = 15;

/// Nine quarters of a pixel.
pub const MAX_REPROJECTION: u64 = 0x4002_0000_0000_0000;

/// A fiftieth.
pub const MIN_COVERAGE: u64 = 0x3f94_7ae1_47ae_147b;

/// How many of the sixteen cells of an image the points have to lie in.
pub const MIN_CELLS: usize = 4;

/// The weight of a shift by a fifth of a metre: one over its square, as it is rounded.
pub const SHIFT_WEIGHT: u64 = 0x4038_ffff_ffff_ffff;

/// The weight of a turn by a twenty-fifth of a radian: one over its square.
pub const TURN_WEIGHT: u64 = 0x4083_8800_0000_0000;

/// The weights of a loop's motion, row by row: a diagonal matrix, shifts first.
pub open spec fn loop_information() -> Seq<u64> {
    Seq::new(
        36,
        |i: int|
            if i % 7 != 0 {
                0
            } else if i < 18 {
                SHIFT_WEIGHT
            } else {
                TURN_WEIGHT
            },
    )
}

fn loop_weights() -> (weights: Vec<u64>)
    ensures
        weights@ == loop_information(),
{
    let mut weights: Vec<u64> = Vec::new();
    for i in 0usize..36
        invariant
            weights@ =~= loop_information().take(i as int),
    {
        let weight: u64 = if i % 7 != 0 {
            0
        } else if i < 18 {
            SHIFT_WEIGHT
        } else {
            TURN_WEIGHT
        };
        weights.push(weight);
    }
    assert(loop_information().take(36) =~= loop_information());
    weights
}

/// A match of two features and its score.
#[derive(Clone, Copy, Debug, PartialEq, Eq, Structural)]
pub struct FeatureMatch {
    pub a: usize,
    pub b: usize,
    pub score: u32,
}

/// Whether a match is between two features and has a score.
pub open spec fn match_valid(m: FeatureMatch, na: nat, nb: nat) -> bool {
    m.a < na && m.b < nb && single_finite(m.score)
}

/// Why matches are refused.
pub open spec fn matches_fault(
    a: FeatureFrame,
    b: FeatureFrame,
    matches: Seq<FeatureMatch>,
) -> Option<Seq<char>> {
    first_of(
        first_of(features_fault(a), features_fault(b)),
        if forall|i: int|
            0 <= i < matches.len() ==> match_valid(
                #[trigger] matches[i],
                a.pixels@.len(),
                b.pixels@.len(),
            ) {
            None
        } else {
            Some("invalid match index/score"@)
        },
    )
}

/// The seed of a robust estimate, which depends on the two keyframes and on nothing else.
pub open spec fn seed_of(first: u64, second: u64) -> int {
    (first * 1337 + second) % 0x1_0000_0000_0000_0000
}

/// The seed of a robust estimate.
pub fn seed(first: u64, second: u64) -> (seed: u64)
    ensures
        seed == seed_of(first, second),
{
    let sum: u128 = (first as u128) * 1337 + second as u128;
    (sum % 0x1_0000_0000_0000_0000u128) as u64
}

/// The matches that an estimate keeps, in its order.
pub open spec fn kept(matches: Seq<FeatureMatch>, inliers: Seq<usize>) -> Seq<FeatureMatch> {
    inliers.map_values(|i: usize| matches[i as int])
}

/// Picks the matches that an estimate keeps.
pub fn kept_matches(matches: &Vec<FeatureMatch>, inliers: &Vec<usize>) -> (out: Vec<FeatureMatch>)
    requires
        forall|k: int| 0 <= k < inliers@.len() ==> (#[trigger] inliers@[k]) < matches@.len(),
    ensures
        out@ == kept(matches@, inliers@),
{
    let mut out: Vec<FeatureMatch> = Vec::new();
    for k in 0..inliers.len()
        invariant
            out@ == kept(matches@, inliers@.take(k as int)),
            forall|k: int| 0 <= k < inliers@.len() ==> (#[trigger] inliers@[k]) < matches@.len(),
    {
        let i: usize = inliers[k];
        out.push(matches[i]);
        assert(out@ =~= kept(matches@, inliers@.take(k + 1)));
    }
    assert(inliers@.take(inliers@.len() as int) =~= inliers@);
    out
}

/// A match seen from the other side.
pub open spec fn turned(m: FeatureMatch) -> FeatureMatch {
    FeatureMatch { a: m.b, b: m.a, score: m.score }
}

/// Turns matches around.
pub fn turned_matches(matches: &Vec<FeatureMatch>) -> (out: Vec<FeatureMatch>)
    ensures
        out@ == matches@.map_values(|m: FeatureMatch| turned(m)),
{
    let mut out: Vec<FeatureMatch> = Vec::new();
    let ghost f = |m: FeatureMatch| turned(m);
    for k in 0..matches.len()
        invariant
            f == (|m: FeatureMatch| turned(m)),
            out@ == matches@.take(k as int).map_values(f),
    {
        let m: FeatureMatch = matches[k];
        out.push(FeatureMatch { a: m.b, b: m.a, score: m.score });
        assert(out@ =~= matches@.take(k + 1).map_values(f));
    }
    assert(matches@.take(matches@.len() as int) =~= matches@);
    out
}

/// Whether the first feature of a match has a known point.
pub open spec fn has_point(points: Seq<Option<Triple>>, m: FeatureMatch) -> bool {
    points[m.a as int] is Some
}

/// The matches whose first feature has a known point: what a pose is estimated from.
pub open spec fn with_points(
    points: Seq<Option<Triple>>,
    matches: Seq<FeatureMatch>,
) -> Seq<FeatureMatch> {
    matches.filter(|m: FeatureMatch| has_point(points, m))
}

/// Picks the matches whose first feature has a known point.
pub fn matches_with_points(points: &Vec<Option<Triple>>, matches: &Vec<FeatureMatch>) -> (out: Vec<
    FeatureMatch,
>)
    requires
        forall|k: int| 0 <= k < matches@.len() ==> (#[trigger] matches@[k]).a < points@.len(),
    ensures
        out@ == with_points(points@, matches@),
{
    let mut out: Vec<FeatureMatch> = Vec::new();
    let ghost keep = |m: FeatureMatch| has_point(points@, m);
    proof {
        reveal(Seq::filter);
        assert(matches@.take(0).filter(keep) =~= Seq::empty());
    }
    for k in 0..matches.len()
        invariant
            keep == (|m: FeatureMatch| has_point(points@, m)),
            out@ == matches@.take(k as int).filter(keep),
            forall|k: int| 0 <= k < matches@.len() ==> (#[trigger] matches@[k]).a < points@.len(),
    {
        let m: FeatureMatch = matches[k];
        proof {
            filter_next(matches@, keep, k as int);
        }
        if points[m.a].is_some() {
            out.push(m);
        }
    }
    assert(matches@.take(matches@.len() as int) =~= matches@);
    out
}

/// What a pose estimate reports: how many points agree with it, how far they are off, how much of the
/// image they span and which of its sixteen cells they lie in, the motion that was estimated, and the
/// motion from the first body to the second.
#[derive(Debug)]
pub struct PnpReport {
    pub inliers: usize,
    pub mean_reprojection_error: u64,
    pub coverage: u64,
    pub cells: Vec<u8>,
    pub estimated: Transform,
    pub to_from: Transform,
}

/// Which cells occur.
pub open spec fn occupied(cells: Seq<u8>) -> Set<u8> {
    cells.to_set()
}

/// Whether a report supports a loop, given how many points it was estimated from.
pub open spec fn report_supports(r: PnpReport, points: nat) -> bool {
    &&& points >= MIN_SUPPORT
    &&& double_finite(r.mean_reprojection_error)
    &&& r.inliers >= MIN_SUPPORT
    &&& 2 * r.inliers >= points
    &&& !double_less(MAX_REPROJECTION, r.mean_reprojection_error)
    &&& !double_less(r.coverage, MIN_COVERAGE)
    &&& occupied(r.cells@).len() >= MIN_CELLS
    &&& transform_fault(r.estimated) is None
}

fn occupied_count(cells: &Vec<u8>) -> (count: usize)
    ensures
        count == occupied(cells@).len(),
{
    let mut distinct: Vec<u8> = Vec::new();
    assert(cells@.take(0).to_set() =~= distinct@.to_set());
    for i in 0..cells.len()
        invariant
            distinct@.no_duplicates(),
            distinct@.to_set() == cells@.take(i as int).to_set(),
    {
        let c: u8 = cells[i];
        let mut known: bool = false;
        for k in 0..distinct.len()
            invariant
                known == distinct@.take(k as int).contains(c),
        {
            assert(distinct@.take(k + 1) =~= distinct@.take(k as int).push(distinct@[k as int]));
            if distinct[k] == c {
                known = true;
                assert(distinct@.take(k + 1)[k as int] == c);
            }
            proof {
                let pre = distinct@.take(k as int);
                let now = distinct@.take(k + 1);
                if now.contains(c) {
                    let p = choose|p: int| 0 <= p < now.len() && now[p] == c;
                    if p < k {
                        assert(pre[p] == c);
                    }
                }
                if pre.contains(c) {
                    let p = choose|p: int| 0 <= p < pre.len() && pre[p] == c;
                    assert(now[p] == c);
                }
            }
        }
        assert(distinct@.take(distinct@.len() as int) =~= distinct@);
        let ghost before = distinct@;
        if !known {
            distinct.push(c);
        }
        proof {
            let pre = cells@.take(i as int);
            let now = cells@.take(i + 1);
            assert(now =~= pre.push(c));
            assert(now.to_set() =~= pre.to_set().insert(c)) by {
                assert forall|x: u8| now.to_set().contains(x) <==> pre.to_set().insert(
                    c,
                ).contains(x) by {
                    if now.contains(x) {
                        let p = choose|p: int| 0 <= p < now.len() && now[p] == x;
                        if p < i {
                            assert(pre[p] == x);
                        }
                    }
                    if pre.contains(x) {
                        let p = choose|p: int| 0 <= p < pre.len() && pre[p] == x;
                        assert(now[p] == x);
                    }
                    assert(now[i as int] == c);
                }
            }
            if known {
                assert(before.to_set().contains(c));
                assert(now.to_set() =~= distinct@.to_set());
            } else {
                assert(distinct@.to_set() =~= before.to_set().insert(c)) by {
                    assert forall|x: u8| distinct@.to_set().contains(x) <==> before.to_set().insert(
                        c,
                    ).contains(x) by {
                        if distinct@.contains(x) {
                            let p = choose|p: int|
                                0 <= p < distinct@.len() && distinct@[p] == x;
                            if p < before.len() {
                                assert(before[p] == x);
                            }
                        }
                        if before.contains(x) {
                            let p = choose|p: int| 0 <= p < before.len() && before[p] == x;
                            assert(distinct@[p] == x);
                        }
                        assert(distinct@[before.len() as int] == c);
                    }
                }
            }
        }
    }
    proof {
        assert(cells@.take(cells@.len() as int) =~= cells@);
        distinct@.unique_seq_to_set();
    }
    distinct.len()
}

/// Whether a report supports a loop.
pub fn supports(r: &PnpReport, points: usize) -> (result: bool)
    ensures
        result == report_supports(*r, points as nat),
{
    if points < MIN_SUPPORT || !is_double_finite(r.mean_reprojection_error) || r.inliers
        < MIN_SUPPORT || (2u128 * (r.inliers as u128)) < points as u128 || is_double_less(
        MAX_REPROJECTION,
        r.mean_reprojection_error,
    ) || is_double_less(r.coverage, MIN_COVERAGE) {
        return false;
    }
    if occupied_count(&r.cells) < MIN_CELLS {
        return false;
    }
    match r.estimated.se3() {
        Ok(()) => true,
        Err(e) => false,
    }
}

/// Whether the second of two reports is the better: more points, or as many that are less off.
pub open spec fn better(first: PnpReport, second: PnpReport) -> bool {
    second.inliers > first.inliers || (second.inliers == first.inliers && double_less(
        second.mean_reprojection_error,
        first.mean_reprojection_error,
    ))
}

/// What the estimators reported: which matches agree with one epipolar geometry, and the poses
/// estimated in either direction.
#[derive(Debug)]
pub struct Evidence {
    pub two_view: Option<Vec<usize>>,
    pub forward: Option<PnpReport>,
    pub reverse: Option<PnpReport>,
}

/// The supported direction: the report and whether it is the reverse one.
pub open spec fn chosen(
    a: FeatureFrame,
    b: FeatureFrame,
    matches: Seq<FeatureMatch>,
    e: Evidence,
) -> Option<(PnpReport, bool)> {
    let filtered = kept(matches, e.two_view->Some_0@);
    let back = filtered.map_values(|m: FeatureMatch| turned(m));
    let forward = e.forward is Some && report_supports(
        e.forward->Some_0,
        with_points(a.points_camera@, filtered).len(),
    );
    let reverse = e.reverse is Some && report_supports(
        e.reverse->Some_0,
        with_points(b.points_camera@, back).len(),
    );
    if forward && reverse {
        if better(e.forward->Some_0, e.reverse->Some_0) {
            Some((e.reverse->Some_0, true))
        } else {
            Some((e.forward->Some_0, false))
        }
    } else if forward {
        Some((e.forward->Some_0, false))
    } else if reverse {
        Some((e.reverse->Some_0, true))
    } else {
        None
    }
}

/// What holding two keyframes against each other gives.
pub open spec fn verified(
    a: FeatureFrame,
    b: FeatureFrame,
    matches: Seq<FeatureMatch>,
    e: Evidence,
) -> VerificationModel {
    let base = VerificationModel {
        matches: matches.len() as usize,
        ..no_verification()
    };
    if matches.len() < MIN_SUPPORT {
        VerificationModel { reason: "insufficient_matches"@, ..base }
    } else {
        match e.two_view {
            None => VerificationModel { reason: "two_d_ransac_failed"@, ..base },
            Some(inliers) => match chosen(a, b, matches, e) {
                None => VerificationModel {
                    two_d_inliers: inliers@.len() as usize,
                    reason: "pnp_geometric_support_failed"@,
                    ..base
                },
                Some(best) => VerificationModel {
                    matches: matches.len() as usize,
                    two_d_inliers: inliers@.len() as usize,
                    pnp_inliers: best.0.inliers,
                    reprojection_px: best.0.mean_reprojection_error,
                    coverage: best.0.coverage,
                    reverse: best.1,
                    reason: "verified"@,
                },
            },
        }
    }
}

/// Whether there is a loop.
pub open spec fn closes(
    a: FeatureFrame,
    b: FeatureFrame,
    matches: Seq<FeatureMatch>,
    e: Evidence,
) -> bool {
    matches.len() >= MIN_SUPPORT && e.two_view is Some && chosen(a, b, matches, e) is Some
}

fn diagnosis(matches: usize, two_d_inliers: usize, reason: &str) -> (v: Verification)
    ensures
        v@ == (VerificationModel { matches, two_d_inliers, reason: reason@, ..no_verification() }),
{
    let mut v = Verification::default();
    v.matches = matches;
    v.two_d_inliers = two_d_inliers;
    v.reason = reason.to_owned();
    v
}

/// Holds two keyframes against each other.
pub fn verify(
    a: &FeatureFrame,
    b: &FeatureFrame,
    matches: &Vec<FeatureMatch>,
    pair: Pair,
    similarity: u32,
    evidence: &Evidence,
) -> (result: Result<(Option<LoopConstraint>, Verification), Error>)
    requires
        evidence.two_view matches Some(inliers) ==> forall|k: int|
            0 <= k < inliers@.len() ==> (#[trigger] inliers@[k]) < matches@.len(),
    ensures
        match matches_fault(*a, *b, matches@) {
            Some(text) => refused(result, text),
            None => {
                &&& result matches Ok(out)
                &&& out.1@ == verified(*a, *b, matches@, *evidence)
                &&& if closes(*a, *b, matches@, *evidence) {
                    out.0 matches Some(edge) && edge@ == (LoopModel {
                        pair: pair@,
                        from: a.key@,
                        to: b.key@,
                        to_from: chosen(*a, *b, matches@, *evidence)->Some_0.0.to_from,
                        information: loop_information(),
                        asymmetry: 0,
                        definite: true,
                        similarity,
                        verification: verified(*a, *b, matches@, *evidence),
                    })
                } else {
                    out.0 is None
                }
            },
        },
{
    match a.validate() {
        Err(e) => return Err(e),
        Ok(()) => {},
    }
    match b.validate() {
        Err(e) => return Err(e),
        Ok(()) => {},
    }
    for i in 0..matches.len()
        invariant
            features_fault(*a) is None,
            features_fault(*b) is None,
            forall|k: int|
                0 <= k < i ==> match_valid(
                    #[trigger] matches@[k],
                    a.pixels@.len(),
                    b.pixels@.len(),
                ),
    {
        let m: FeatureMatch = matches[i];
        if m.a >= a.pixels.len() || m.b >= b.pixels.len() || !is_single_finite(m.score) {
            assert(!match_valid(matches@[i as int], a.pixels@.len(), b.pixels@.len()));
            return Err(Error::of("invalid match index/score"));
        }
    }
    if matches.len() < MIN_SUPPORT {
        return Ok((None, diagnosis(matches.len(), 0, "insufficient_matches")));
    }
    let inliers = match &evidence.two_view {
        None => return Ok((None, diagnosis(matches.len(), 0, "two_d_ransac_failed"))),
        Some(inliers) => inliers,
    };
    let filtered = kept_matches(matches, inliers);
    assert forall|k: int| 0 <= k < filtered@.len() implies (#[trigger] filtered@[k]).a
        < a.points_camera@.len() && filtered@[k].b < b.points_camera@.len() by {
        let i = inliers@[k];
        assert(filtered@[k] == matches@[i as int]);
        assert(match_valid(matches@[i as int], a.pixels@.len(), b.pixels@.len()));
    }
    let back = turned_matches(&filtered);
    assert forall|k: int| 0 <= k < back@.len() implies (#[trigger] back@[k]).a
        < b.points_camera@.len() by {
        assert(back@[k] == turned(filtered@[k]));
    }
    let there = matches_with_points(&a.points_camera, &filtered);
    let home = matches_with_points(&b.points_camera, &back);
    let forward: bool = match &evidence.forward {
        Some(r) => supports(r, there.len()),
        None => false,
    };
    let reverse: bool = match &evidence.reverse {
        Some(r) => supports(r, home.len()),
        None => false,
    };
    let ghost best = chosen(*a, *b, matches@, *evidence);
    let mut turn: bool = false;
    if forward && reverse {
        if let (Some(f), Some(r)) = (&evidence.forward, &evidence.reverse) {
            turn = r.inliers > f.inliers || (r.inliers == f.inliers && is_double_less(
                r.mean_reprojection_error,
                f.mean_reprojection_error,
            ));
        }
    } else if reverse {
        turn = true;
    } else if !forward {
        return Ok((None, diagnosis(matches.len(), filtered.len(), "pnp_geometric_support_failed")));
    }
    let report = if turn {
        &evidence.reverse
    } else {
        &evidence.forward
    };
    match report {
        Some(r) => {
            assert(best == Some((*r, turn)));
            let v = Verification {
                matches: matches.len(),
                two_d_inliers: filtered.len(),
                pnp_inliers: r.inliers,
                reprojection_px: r.mean_reprojection_error,
                coverage: r.coverage,
                reverse: turn,
                reason: "verified".to_owned(),
            };
            let edge = LoopConstraint {
                pair,
                from: a.key.clone(),
                to: b.key.clone(),
                to_from: r.to_from,
                information: loop_weights(),
                asymmetry: 0,
                definite: true,
                similarity,
                verification: v.clone(),
            };
            Ok((Some(edge), v))
        },
        None => Ok((None, diagnosis(matches.len(), filtered.len(), "pnp_geometric_support_failed"))),
    }
}

/// A loop has at least fifteen points that agree, at least half of those that were asked, and its
/// diagnosis says so.
pub proof fn loops_are_supported(
    a: FeatureFrame,
    b: FeatureFrame,
    matches: Seq<FeatureMatch>,
    e: Evidence,
)
    requires
        closes(a, b, matches, e),
    ensures
        verified(a, b, matches, e).pnp_inliers >= MIN_SUPPORT,
        verified(a, b, matches, e).reason == "verified"@,
        !double_less(MAX_REPROJECTION, verified(a, b, matches, e).reprojection_px),
        !double_less(verified(a, b, matches, e).coverage, MIN_COVERAGE),
        transform_fault(chosen(a, b, matches, e)->Some_0.0.estimated) is None,
        ({
            let filtered = kept(matches, e.two_view->Some_0@);
            let back = filtered.map_values(|m: FeatureMatch| turned(m));
            let asked = if verified(a, b, matches, e).reverse {
                with_points(b.points_camera@, back).len()
            } else {
                with_points(a.points_camera@, filtered).len()
            };
            2 * verified(a, b, matches, e).pnp_inliers >= asked >= MIN_SUPPORT
        }),
{
}

/// The weights of a loop's motion pass the check of loops that come in.
pub proof fn loop_weights_are_accepted()
    ensures
        information_fault(loop_information(), 0, true) is None,
{
}

/// A report supports a loop exactly where it was estimated from at least fifteen points, at least fifteen
/// and at least half of which agree, finitely far off and by no more than the limit, covering enough of
/// the image and at least four of its cells, with a motion that is one.
pub proof fn support_needs_every_criterion(r: PnpReport, points: nat)
    ensures
        report_supports(r, points) <==> {
            &&& points >= 15
            &&& r.inliers >= 15
            &&& r.inliers + r.inliers >= points
            &&& double_finite(r.mean_reprojection_error)
            &&& !double_less(0x4002_0000_0000_0000, r.mean_reprojection_error)
            &&& !double_less(r.coverage, 0x3f94_7ae1_47ae_147b)
            &&& r.cells@.to_set().len() >= 4
            &&& transform_fault(r.estimated) is None
        },
{
}

/// A pose is estimated forward from the kept matches whose feature of the first image has a point, and in
/// reverse from those whose feature of the second image has one. There is a loop exactly where one of the
/// two reports supports it. Where both do, the diagnosis is that of the one with more points that agree,
/// among as many that of the one that is less off, and the forward one where they are as good; it says
/// which of the two gives the motion.
pub proof fn the_better_direction_is_taken(
    a: FeatureFrame,
    b: FeatureFrame,
    matches: Seq<FeatureMatch>,
    e: Evidence,
)
    requires
        matches.len() >= 15,
        matches.len() <= usize::MAX,
        e.two_view is Some,
        e.two_view->0@.len() <= usize::MAX,
    ensures
        ({
            let inliers = e.two_view->0@;
            let there = inliers.filter(
                |i: usize| a.points_camera@[matches[i as int].a as int] is Some,
            );
            let home = inliers.filter(
                |i: usize| b.points_camera@[matches[i as int].b as int] is Some,
            );
            let forward = e.forward is Some && report_supports(e.forward->0, there.len());
            let reverse = e.reverse is Some && report_supports(e.reverse->0, home.len());
            let v = verified(a, b, matches, e);
            let f = e.forward->0;
            let r = e.reverse->0;
            &&& closes(a, b, matches, e) <==> forward || reverse
            &&& v.matches == matches.len()
            &&& v.two_d_inliers == inliers.len()
            &&& closes(a, b, matches, e) ==> {
                let taken = if v.reverse {
                    r
                } else {
                    f
                };
                &&& v.reverse ==> reverse
                &&& !v.reverse ==> forward
                &&& chosen(a, b, matches, e)->Some_0.0 == taken
                &&& chosen(a, b, matches, e)->Some_0.0.to_from == taken.to_from
                &&& v.pnp_inliers == taken.inliers
                &&& v.reprojection_px == taken.mean_reprojection_error
                &&& v.coverage == taken.coverage
                &&& v.reason == "verified"@
            }
            &&& forward && reverse ==> {
                &&& v.pnp_inliers >= f.inliers
                &&& v.pnp_inliers >= r.inliers
                &&& f.inliers == r.inliers ==> !double_less(
                    f.mean_reprojection_error,
                    v.reprojection_px,
                ) && !double_less(r.mean_reprojection_error, v.reprojection_px)
                &&& r.inliers > f.inliers ==> v.reverse
                &&& r.inliers < f.inliers ==> !v.reverse
                &&& r.inliers == f.inliers ==> (v.reverse <==> double_less(
                    r.mean_reprojection_error,
                    f.mean_reprojection_error,
                ))
            }
            &&& !closes(a, b, matches, e) ==> v.reason == "pnp_geometric_support_failed"@
                && v.pnp_inliers == 0
        }),
{
    let inliers = e.two_view->0@;
    let filtered = kept(matches, inliers);
    let back = filtered.map_values(|m: FeatureMatch| turned(m));
    let pick = |i: usize| matches[i as int];
    let first = |m: FeatureMatch| has_point(a.points_camera@, m);
    filter_of_map(inliers, pick, first);
    assert((|i: usize| first(pick(i))) =~= (|i: usize|
        a.points_camera@[matches[i as int].a as int] is Some));
    let turn = |i: usize| turned(matches[i as int]);
    assert(back =~= inliers.map_values(turn));
    let second = |m: FeatureMatch| has_point(b.points_camera@, m);
    filter_of_map(inliers, turn, second);
    assert((|i: usize| second(turn(i))) =~= (|i: usize|
        b.points_camera@[matches[i as int].b as int] is Some));
}

/// Without fifteen matches, or without a common geometry of them, there is no loop, and the diagnosis
/// says which of the two was missing.
pub proof fn loops_need_matches_of_one_geometry(
    a: FeatureFrame,
    b: FeatureFrame,
    matches: Seq<FeatureMatch>,
    e: Evidence,
)
    requires
        matches.len() < 15 || e.two_view is None,
        matches.len() <= usize::MAX,
    ensures
        !closes(a, b, matches, e),
        verified(a, b, matches, e).matches == matches.len(),
        verified(a, b, matches, e).two_d_inliers == 0,
        verified(a, b, matches, e).pnp_inliers == 0,
        verified(a, b, matches, e).reason == if matches.len() < 15 {
            "insufficient_matches"@
        } else {
            "two_d_ransac_failed"@
        },
{
}

/// Matches are refused where one of them names a feature that its image lacks or has a score that is not
/// finite, and where one of the images is refused.
pub proof fn matches_name_features_of_their_images(
    a: FeatureFrame,
    b: FeatureFrame,
    matches: Seq<FeatureMatch>,
)
    ensures
        matches_fault(a, b, matches) is None <==> {
            &&& features_fault(a) is None
            &&& features_fault(b) is None
            &&& forall|i: int|
                0 <= i < matches.len() ==> (#[trigger] matches[i]).a < a.pixels@.len()
                    && matches[i].b < b.pixels@.len() && single_finite(matches[i].score)
        },
        features_fault(a) is Some ==> matches_fault(a, b, matches) == features_fault(a),
        features_fault(a) is None && features_fault(b) is Some ==> matches_fault(a, b, matches)
            == features_fault(b),
{
    if forall|i: int|
        0 <= i < matches.len() ==> (#[trigger] matches[i]).a < a.pixels@.len() && matches[i].b
            < b.pixels@.len() && single_finite(matches[i].score) {
        assert(forall|i: int|
            0 <= i < matches.len() ==> match_valid(
                #[trigger] matches[i],
                a.pixels@.len(),
                b.pixels@.len(),
            ));
    }
}

/// The weights of a loop's motion form a diagonal matrix: those of the three shifts, then of the three
/// turns, and nothing between two directions.
pub proof fn loop_weights_are_diagonal(row: int, column: int)
    requires
        0 <= row < 6,
        0 <= column < 6,
    ensures
        loop_information().len() == 36,
        row != column ==> loop_information()[6 * row + column] == 0,
        row == column < 3 ==> loop_information()[6 * row + column] == 0x4038_ffff_ffff_ffff,
        row == column >= 3 ==> loop_information()[6 * row + column] == 0x4083_8800_0000_0000,
{
}

/// Kept matches are those at the places of the inliers, in their order; turning a match swaps its features and
/// keeps its score; a pose is estimated from the matches whose first feature has a point.
pub proof fn matches_are_picked_as_they_are(
    matches: Seq<FeatureMatch>,
    inliers: Seq<usize>,
    points: Seq<Option<Triple>>,
    m: FeatureMatch,
)
    ensures
        kept(matches, inliers).len() == inliers.len(),
        forall|k: int|
            0 <= k < inliers.len() ==> #[trigger] kept(matches, inliers)[k]
                == matches[inliers[k] as int],
        turned(m).a == m.b,
        turned(m).b == m.a,
        turned(m).score == m.score,
        with_points(points, matches) == matches.filter(
            |m: FeatureMatch| points[m.a as int] is Some,
        ),
{
    assert((|m: FeatureMatch| has_point(points, m)) =~= (|m: FeatureMatch|
        points[m.a as int] is Some));
}

/// The seed of an estimate is 1337 times the first number and the second, in the 64 bits of the machine.
pub proof fn seeds_mix_both_keyframes(first: u64, second: u64)
    ensures
        0 <= seed_of(first, second) < 0x1_0000_0000_0000_0000,
        (1337 * first + second - seed_of(first, second)) % 0x1_0000_0000_0000_0000 == 0,
{
}

} // verus!

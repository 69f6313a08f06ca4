//! The graph of keyframes and loops: what enters it, and how a solution of it is planned and judged.
use crate::ieee::{
    double_at_most, double_finite, double_less, is_double_at_most, is_double_finite, is_single_finite,
    is_single_less, single_finite, single_less,
};
use crate::multi_robot::error::{first_of, refused, Error};
use crate::multi_robot::keys::{
    key_before, key_fault, same_session, Key, KeyModel, Ordered, Pair, PairModel,
};
use crate::multi_robot::sorted::SortedMap;
use crate::multi_robot::types::{
    checked_information, information_fault, same_loop, same_record, transform_fault, KeyframeRecord,
    LoopConstraint, LoopModel, RecordModel,
};
use crate::text::Relation;
use vstd::prelude::*;

verus! {

/// How far odometry and loops are trusted; real numbers are bits.
#[derive(Clone, Copy, Debug, PartialEq, Eq, Structural)]
pub struct BackendConfig {
    pub odometry_translation_sigma: u64,
    pub odometry_rotation_sigma: u64,
    pub loop_translation_sigma: u64,
    pub loop_rotation_sigma: u64,
}

/// The deviations without any change: 0.15 and 0.03 for odometry, 0.2 and 0.04 for loops.
pub open spec fn default_backend() -> BackendConfig {
    BackendConfig {
        odometry_translation_sigma: 0x3fc3_3333_3333_3333,
        odometry_rotation_sigma: 0x3f9e_b851_eb85_1eb8,
        loop_translation_sigma: 0x3fc9_9999_9999_999a,
        loop_rotation_sigma: 0x3fa4_7ae1_47ae_147b,
    }
}

impl Default for BackendConfig {
    fn default() -> (config: Self)
        ensures
            config == default_backend(),
    {
        BackendConfig {
            odometry_translation_sigma: 0x3fc3_3333_3333_3333,
            odometry_rotation_sigma: 0x3f9e_b851_eb85_1eb8,
            loop_translation_sigma: 0x3fc9_9999_9999_999a,
            loop_rotation_sigma: 0x3fa4_7ae1_47ae_147b,
        }
    }
}

/// Whether a deviation can be weighed with: finite and positive.
pub open spec fn usable_sigma(bits: u64) -> bool {
    double_finite(bits) && !double_at_most(bits, 0)
}

/// Whether all four deviations can be weighed with.
pub open spec fn usable(config: BackendConfig) -> bool {
    &&& usable_sigma(config.odometry_translation_sigma)
    &&& usable_sigma(config.odometry_rotation_sigma)
    &&& usable_sigma(config.loop_translation_sigma)
    &&& usable_sigma(config.loop_rotation_sigma)
}

/// Whether a deviation can be weighed with.
pub fn is_usable_sigma(bits: u64) -> (result: bool)
    ensures
        result == usable_sigma(bits),
{
    is_double_finite(bits) && !is_double_at_most(bits, 0)
}

/// Four fifths in single precision: how alike two keyframes have to look.
pub const MIN_SIMILARITY: u32 = 0x3f4c_cccd;

/// How many points have to support a loop.
pub const MIN_PNP_INLIERS: usize = 15;

/// Why a keyframe is refused.
pub open spec fn record_fault(r: RecordModel) -> Option<Seq<char>> {
    first_of(
        key_fault(r.key),
        first_of(
            transform_fault(r.body_to_odom),
            if r.previous matches Some(p) && (!same_session(p, r.key) || p.id >= r.key.id) {
                Some("invalid odometry predecessor"@)
            } else {
                None
            },
        ),
    )
}

/// Whether a constraint is between two keyframes of the two sessions of its pair, and is supported.
pub open spec fn loop_supported(e: LoopModel) -> bool {
    &&& e.from != e.to
    &&& key_before(e.pair.first, e.pair.second)
    &&& same_session(e.from, e.pair.first)
    &&& same_session(e.to, e.pair.second)
    &&& single_finite(e.similarity)
    &&& !single_less(e.similarity, MIN_SIMILARITY)
    &&& e.verification.pnp_inliers >= MIN_PNP_INLIERS
}

/// Why a constraint is refused.
pub open spec fn loop_fault(e: LoopModel) -> Option<Seq<char>> {
    first_of(
        key_fault(e.from),
        first_of(
            key_fault(e.to),
            first_of(
                transform_fault(e.to_from),
                first_of(
                    information_fault(e.information, e.asymmetry, e.definite),
                    if loop_supported(e) {
                        None
                    } else {
                        Some("invalid verified loop constraint"@)
                    },
                ),
            ),
        ),
    )
}

/// The graph: keyframes and loops by their names.
#[derive(Clone, Debug)]
pub struct Backend {
    pub records: SortedMap<Key, KeyframeRecord>,
    pub loops: SortedMap<Pair, LoopConstraint>,
    pub input_revision: u64,
    pub ids: SortedMap<Key, u64>,
    pub config: BackendConfig,
}

impl Default for Backend {
    fn default() -> (backend: Self)
        ensures
            backend.wf(),
            backend.records@ == Map::<KeyModel, KeyframeRecord>::empty(),
            backend.loops@ == Map::<PairModel, LoopConstraint>::empty(),
            backend.input_revision == 0,
            backend.config == default_backend(),
    {
        Backend::new(BackendConfig::default())
    }
}

impl Backend {
    /// What the graph keeps: every keyframe and loop is acceptable and stands under its own name,
    /// and every keyframe has a number of its own.
    pub open spec fn wf(&self) -> bool {
        &&& self.records.wf()
        &&& self.loops.wf()
        &&& self.ids.wf()
        &&& self.ids@.dom() == self.records@.dom()
        &&& forall|k: KeyModel| #[trigger]
            self.records@.contains_key(k) ==> self.records@[k]@.key == k && record_fault(
                self.records@[k]@,
            ) is None
        &&& forall|p: PairModel| #[trigger]
            self.loops@.contains_key(p) ==> self.loops@[p]@.pair == p && loop_fault(
                self.loops@[p]@,
            ) is None
        &&& forall|k: KeyModel| #[trigger]
            self.ids@.contains_key(k) ==> self.ids@[k] < self.ids.keys().len()
        &&& forall|j: KeyModel, k: KeyModel| #[trigger]
            self.ids@.contains_key(j) && #[trigger] self.ids@.contains_key(k) && j != k
                ==> self.ids@[j] != self.ids@[k]
    }

    /// An empty graph.
    pub fn new(config: BackendConfig) -> (backend: Self)
        ensures
            backend.wf(),
            backend.records@ == Map::<KeyModel, KeyframeRecord>::empty(),
            backend.loops@ == Map::<PairModel, LoopConstraint>::empty(),
            backend.input_revision == 0,
            backend.config == config,
    {
        let backend = Backend {
            records: SortedMap::new(),
            loops: SortedMap::new(),
            input_revision: 0,
            ids: SortedMap::new(),
            config,
        };
        assert(backend.ids@.dom() =~= backend.records@.dom());
        backend
    }

    /// Takes in a keyframe. One that came before is taken once; one that differs from it is refused.
    pub fn insert_keyframe(&mut self, record: KeyframeRecord) -> (result: Result<bool, Error>)
        requires
            old(self).wf(),
            old(self).input_revision < u64::MAX,
        ensures
            final(self).wf(),
            match record_fault(record@) {
                Some(text) => refused(result, text) && *final(self) == *old(self),
                None => if old(self).records@.contains_key(record@.key) {
                    &&& *final(self) == *old(self)
                    &&& if same_record(old(self).records@[record@.key]@, record@) {
                        result == Ok::<bool, Error>(false)
                    } else {
                        refused(result, "conflicting keyframe retransmission"@)
                    }
                } else {
                    &&& result == Ok::<bool, Error>(true)
                    &&& final(self).records@ == old(self).records@.insert(record@.key, record)
                    &&& final(self).loops == old(self).loops
                    &&& final(self).ids@ == old(self).ids@.insert(
                        record@.key,
                        old(self).records.keys().len() as u64,
                    )
                    &&& final(self).input_revision == old(self).input_revision + 1
                    &&& final(self).config == old(self).config
                },
            },
    {
        match record.key.validate() {
            Err(e) => return Err(e),
            Ok(()) => {},
        }
        match record.body_to_odom.se3() {
            Err(e) => return Err(e),
            Ok(()) => {},
        }
        if let Some(previous) = &record.previous {
            if !previous.same_session(&record.key) || previous.id >= record.key.id {
                return Err(Error::of("invalid odometry predecessor"));
            }
        }
        if let Some(previous) = self.records.get(&record.key) {
            if !previous.same(&record) {
                return Err(Error::of("conflicting keyframe retransmission"));
            }
            return Ok(false);
        }
        let ghost before = *self;
        proof {
            self.ids.keys_are_the_domain();
            self.records.keys_are_the_domain();
            assert(record_fault(record@) is None);
            assert(!before.ids@.dom().contains(record@.key));
        }
        let number: u64 = self.ids.len() as u64;
        self.ids.insert(record.key.clone(), number);
        let key = record.key.clone();
        let ghost model = record@;
        self.records.insert(key, record);
        self.input_revision = self.input_revision + 1;
        proof {
            assert(self.ids@.dom() =~= self.records@.dom());
            assert forall|k: KeyModel| #[trigger] self.ids@.contains_key(k) implies self.ids@[k]
                < self.ids.keys().len() by {
                if k != model.key {
                    assert(before.ids@.contains_key(k));
                }
            }
            assert forall|j: KeyModel, k: KeyModel| #[trigger]
                self.ids@.contains_key(j) && #[trigger] self.ids@.contains_key(k) && j
                    != k implies self.ids@[j] != self.ids@[k] by {
                if j != model.key {
                    assert(before.ids@.contains_key(j));
                }
                if k != model.key {
                    assert(before.ids@.contains_key(k));
                }
            }
            assert forall|k: KeyModel| #[trigger] self.records@.contains_key(
                k,
            ) implies self.records@[k]@.key == k && record_fault(self.records@[k]@) is None by {
                if k != model.key {
                    assert(before.records@.contains_key(k));
                }
            }
        }
        Ok(true)
    }

    /// Takes in a loop. Its keyframes may come later.
    pub fn insert_loop(&mut self, edge: LoopConstraint) -> (result: Result<bool, Error>)
        requires
            old(self).wf(),
            old(self).input_revision < u64::MAX,
        ensures
            final(self).wf(),
            match loop_fault(edge@) {
                Some(text) => refused(result, text) && *final(self) == *old(self),
                None => if old(self).loops@.contains_key(edge@.pair) {
                    &&& *final(self) == *old(self)
                    &&& if same_loop(old(self).loops@[edge@.pair]@, edge@) {
                        result == Ok::<bool, Error>(false)
                    } else {
                        refused(result, "conflicting loop retransmission"@)
                    }
                } else {
                    &&& result == Ok::<bool, Error>(true)
                    &&& final(self).loops@ == old(self).loops@.insert(edge@.pair, edge)
                    &&& final(self).records == old(self).records
                    &&& final(self).ids == old(self).ids
                    &&& final(self).input_revision == old(self).input_revision + 1
                    &&& final(self).config == old(self).config
                },
            },
    {
        match edge.from.validate() {
            Err(e) => return Err(e),
            Ok(()) => {},
        }
        match edge.to.validate() {
            Err(e) => return Err(e),
            Ok(()) => {},
        }
        match edge.to_from.se3() {
            Err(e) => return Err(e),
            Ok(()) => {},
        }
        match checked_information(&edge.information, edge.asymmetry, edge.definite) {
            Err(e) => return Err(e),
            Ok(()) => {},
        }
        let ordered: bool = match edge.pair.0.order(&edge.pair.1) {
            Relation::Before => true,
            Relation::Same => false,
            Relation::After => false,
        };
        if edge.from.same(&edge.to) || !ordered || !edge.from.same_session(&edge.pair.0)
            || !edge.to.same_session(&edge.pair.1) || !is_single_finite(edge.similarity)
            || is_single_less(edge.similarity, MIN_SIMILARITY) || edge.verification.pnp_inliers
            < MIN_PNP_INLIERS {
            return Err(Error::of("invalid verified loop constraint"));
        }
        if let Some(old_edge) = self.loops.get(&edge.pair) {
            if !old_edge.same(&edge) {
                return Err(Error::of("conflicting loop retransmission"));
            }
            return Ok(false);
        }
        let ghost before = *self;
        let ghost model = edge@;
        let pair = edge.pair.clone();
        self.loops.insert(pair, edge);
        self.input_revision = self.input_revision + 1;
        proof {
            assert forall|p: PairModel| #[trigger] self.loops@.contains_key(p) implies self.loops@[p]@.pair
                == p && loop_fault(self.loops@[p]@) is None by {
                if p != model.pair {
                    assert(before.loops@.contains_key(p));
                }
            }
        }
        Ok(true)
    }
}

/// A keyframe is accepted exactly where it has a name and a motion and follows, if any, one of its own session
/// with a smaller number.
pub proof fn keyframes_follow_their_session(r: RecordModel)
    ensures
        record_fault(r) is None <==> {
            &&& key_fault(r.key) is None
            &&& transform_fault(r.body_to_odom) is None
            &&& r.previous is Some ==> r.previous->0.robot == r.key.robot && r.previous->0.session
                == r.key.session && r.previous->0.id < r.key.id
        },
{
}

/// A loop is accepted exactly where its two keyframes have names and differ, each is of the session of its
/// part of an ordered pair, the motion and its weights are sound, and it is alike and supported enough.
pub proof fn loops_are_verified_and_ordered(e: LoopModel)
    ensures
        loop_fault(e) is None <==> {
            &&& key_fault(e.from) is None
            &&& key_fault(e.to) is None
            &&& transform_fault(e.to_from) is None
            &&& information_fault(e.information, e.asymmetry, e.definite) is None
            &&& e.from != e.to
            &&& key_before(e.pair.first, e.pair.second)
            &&& e.from.robot == e.pair.first.robot && e.from.session == e.pair.first.session
            &&& e.to.robot == e.pair.second.robot && e.to.session == e.pair.second.session
            &&& single_finite(e.similarity)
            &&& !single_less(e.similarity, 0x3f4c_cccd)
            &&& e.verification.pnp_inliers >= 15
        },
{
}

/// A configuration is usable exactly where its four deviations are finite and positive.
pub proof fn deviations_are_positive(config: BackendConfig)
    ensures
        usable(config) <==> {
            &&& double_finite(config.odometry_translation_sigma) && double_less(
                0,
                config.odometry_translation_sigma,
            )
            &&& double_finite(config.odometry_rotation_sigma) && double_less(
                0,
                config.odometry_rotation_sigma,
            )
            &&& double_finite(config.loop_translation_sigma) && double_less(
                0,
                config.loop_translation_sigma,
            )
            &&& double_finite(config.loop_rotation_sigma) && double_less(
                0,
                config.loop_rotation_sigma,
            )
        },
{
}

} // verus!

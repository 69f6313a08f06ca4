//! The records that robots exchange, and what makes them acceptable.
//!
//! Real numbers are bits. Where a rule needs the outcome of real arithmetic, the record carries that
//! outcome, and the rule is stated on it.
use crate::ieee::{
    double_at_most, double_finite, double_less, is_double_at_most, is_double_finite, is_double_less,
    is_single_at_most, is_single_finite, is_single_less, single_at_most, single_finite, single_less,
};
use crate::multi_robot::error::{first_of, refused_for, Error};
use crate::multi_robot::keys::{key_fault, same_session, Key, KeyModel, Pair, PairModel};
use crate::ordered::copy_list;
use vstd::prelude::*;

verus! {

/// Three double-precision numbers.
#[derive(Clone, Copy, Debug, PartialEq, Eq, Structural)]
pub struct Triple {
    pub x: u64,
    pub y: u64,
    pub z: u64,
}

/// Four double-precision numbers.
#[derive(Clone, Copy, Debug, PartialEq, Eq, Structural)]
pub struct Quadruple {
    pub x: u64,
    pub y: u64,
    pub z: u64,
    pub w: u64,
}

/// Whether all three numbers are finite.
pub open spec fn triple_finite(t: Triple) -> bool {
    double_finite(t.x) && double_finite(t.y) && double_finite(t.z)
}

/// Whether all four numbers are finite.
pub open spec fn quadruple_finite(q: Quadruple) -> bool {
    double_finite(q.x) && double_finite(q.y) && double_finite(q.z) && double_finite(q.w)
}

/// Whether all three numbers are finite.
pub fn is_triple_finite(t: &Triple) -> (finite: bool)
    ensures
        finite == triple_finite(*t),
{
    is_double_finite(t.x) && is_double_finite(t.y) && is_double_finite(t.z)
}

fn is_quadruple_finite(q: &Quadruple) -> (finite: bool)
    ensures
        finite == quadruple_finite(*q),
{
    is_double_finite(q.x) && is_double_finite(q.y) && is_double_finite(q.z) && is_double_finite(
        q.w,
    )
}

/// A thousandth.
pub const THOUSANDTH: u64 = 0x3f50_624d_d2f1_a9fc;

/// A thousandth in single precision.
pub const SINGLE_THOUSANDTH: u32 = 0x3a83_126f;

/// A rigid motion. `rotation_error` is how far the length of the quaternion is from one.
#[derive(Clone, Copy, Debug, PartialEq, Eq, Structural)]
pub struct Transform {
    pub translation: Triple,
    pub rotation_xyzw: Quadruple,
    pub rotation_error: u64,
}

impl Default for Transform {
    fn default() -> (transform: Self)
        ensures
            transform == (Transform {
                translation: Triple { x: 0, y: 0, z: 0 },
                rotation_xyzw: Quadruple { x: 0, y: 0, z: 0, w: 0x3ff0_0000_0000_0000 },
                rotation_error: 0,
            }),
    {
        Transform {
            translation: Triple { x: 0, y: 0, z: 0 },
            rotation_xyzw: Quadruple { x: 0, y: 0, z: 0, w: 0x3ff0_0000_0000_0000 },
            rotation_error: 0,
        }
    }
}

/// Why a motion is refused.
pub open spec fn transform_fault(t: Transform) -> Option<Seq<char>> {
    if !triple_finite(t.translation) || !quadruple_finite(t.rotation_xyzw) || double_less(
        THOUSANDTH,
        t.rotation_error,
    ) {
        Some("nonfinite pose or non-unit quaternion"@)
    } else {
        None
    }
}

/// Whether two motions are the same record.
pub open spec fn same_transform(a: Transform, b: Transform) -> bool {
    a.translation == b.translation && a.rotation_xyzw == b.rotation_xyzw
}

impl Transform {
    /// Checks the motion.
    pub fn se3(&self) -> (result: Result<(), Error>)
        ensures
            refused_for(result, transform_fault(*self)),
    {
        if !is_triple_finite(&self.translation) || !is_quadruple_finite(&self.rotation_xyzw)
            || is_double_less(THOUSANDTH, self.rotation_error) {
            return Err(Error::of("nonfinite pose or non-unit quaternion"));
        }
        Ok(())
    }

    /// Whether two motions are the same record.
    pub fn same(&self, other: &Self) -> (same: bool)
        ensures
            same == same_transform(*self, *other),
    {
        self.translation == other.translation && self.rotation_xyzw == other.rotation_xyzw
    }
}

/// A pinhole camera on a body. `width_single` and `height_single` are the size in single precision.
#[derive(Clone, Copy, Debug, PartialEq, Eq, Structural)]
pub struct CameraModel {
    pub width: u32,
    pub height: u32,
    pub width_single: u32,
    pub height_single: u32,
    /// Focal lengths and principal point.
    pub intrinsics: Quadruple,
    pub camera_to_body: Transform,
}

/// Why a camera is refused.
pub open spec fn camera_fault(c: CameraModel) -> Option<Seq<char>> {
    if c.width < 2 || c.height < 2 || double_at_most(c.intrinsics.x, 0) || double_at_most(
        c.intrinsics.y,
        0,
    ) || !quadruple_finite(c.intrinsics) {
        Some("invalid pinhole camera"@)
    } else {
        transform_fault(c.camera_to_body)
    }
}

impl CameraModel {
    /// Checks the camera.
    pub fn camera(&self) -> (result: Result<(), Error>)
        ensures
            refused_for(result, camera_fault(*self)),
    {
        if self.width < 2 || self.height < 2 || is_double_at_most(self.intrinsics.x, 0)
            || is_double_at_most(self.intrinsics.y, 0) || !is_quadruple_finite(&self.intrinsics) {
            return Err(Error::of("invalid pinhole camera"));
        }
        self.camera_to_body.se3()
    }
}

/// A keyframe: where its robot believes to be, and which keyframe it follows.
#[derive(Debug, PartialEq)]
pub struct KeyframeRecord {
    pub key: Key,
    pub timestamp_ns: i64,
    pub body_to_odom: Transform,
    pub previous: Option<Key>,
}

impl Clone for KeyframeRecord {
    fn clone(&self) -> (record: Self)
        ensures
            record == *self,
    {
        KeyframeRecord {
            key: self.key.clone(),
            timestamp_ns: self.timestamp_ns,
            body_to_odom: self.body_to_odom,
            previous: match &self.previous {
                Some(p) => Some(p.clone()),
                None => None,
            },
        }
    }
}

/// A keyframe without the strings that hold its names.
#[verifier::ext_equal]
pub ghost struct RecordModel {
    pub key: KeyModel,
    pub timestamp_ns: i64,
    pub body_to_odom: Transform,
    pub previous: Option<KeyModel>,
}

impl View for KeyframeRecord {
    type V = RecordModel;

    open spec fn view(&self) -> RecordModel {
        RecordModel {
            key: self.key@,
            timestamp_ns: self.timestamp_ns,
            body_to_odom: self.body_to_odom,
            previous: match self.previous {
                Some(p) => Some(p@),
                None => None,
            },
        }
    }
}

/// Whether two keyframes are the same record.
pub open spec fn same_record(a: RecordModel, b: RecordModel) -> bool {
    &&& a.key == b.key
    &&& a.timestamp_ns == b.timestamp_ns
    &&& same_transform(a.body_to_odom, b.body_to_odom)
    &&& a.previous == b.previous
}

impl KeyframeRecord {
    /// Whether two keyframes are the same record.
    pub fn same(&self, other: &Self) -> (same: bool)
        ensures
            same == same_record(self@, other@),
    {
        let follows: bool = match (&self.previous, &other.previous) {
            (Some(a), Some(b)) => a.same(b),
            (None, None) => true,
            _ => false,
        };
        self.key.same(&other.key) && self.timestamp_ns == other.timestamp_ns
            && self.body_to_odom.same(&other.body_to_odom) && follows
    }
}

/// The identities of a list.
pub open spec fn key_models(keys: Seq<Key>) -> Seq<KeyModel> {
    keys.map_values(|k: Key| k@)
}

/// Ten keyframes of one session, five of which stand for them. `norm_error` is how far the squared
/// length of the descriptor is from one.
#[derive(Clone, Debug, PartialEq)]
pub struct Sequence {
    pub key: Key,
    pub members: Vec<Key>,
    pub selected: Vec<Key>,
    pub start_ns: i64,
    pub end_ns: i64,
    pub model_id: String,
    pub descriptor: Vec<u32>,
    pub norm_error: u32,
    /// The keyframes within two hops of shared landmarks.
    pub excluded_keyframes: Vec<u64>,
}

/// A sequence without the strings that hold its names.
#[verifier::ext_equal]
pub ghost struct SequenceModel {
    pub key: KeyModel,
    pub members: Seq<KeyModel>,
    pub selected: Seq<KeyModel>,
    pub start_ns: i64,
    pub end_ns: i64,
    pub model_id: Seq<char>,
    pub descriptor: Seq<u32>,
    pub norm_error: u32,
    pub excluded_keyframes: Seq<u64>,
}

impl View for Sequence {
    type V = SequenceModel;

    open spec fn view(&self) -> SequenceModel {
        SequenceModel {
            key: self.key@,
            members: key_models(self.members@),
            selected: key_models(self.selected@),
            start_ns: self.start_ns,
            end_ns: self.end_ns,
            model_id: self.model_id@,
            descriptor: self.descriptor@,
            norm_error: self.norm_error,
            excluded_keyframes: self.excluded_keyframes@,
        }
    }
}

/// Whether numbers are a unit vector of a length: finite, and with a squared length within a
/// thousandth of one.
pub open spec fn unit_vector(v: Seq<u32>, norm_error: u32, n: nat) -> bool {
    &&& v.len() == n
    &&& forall|i: int| 0 <= i < v.len() ==> single_finite(#[trigger] v[i])
    &&& single_less(norm_error, SINGLE_THOUSANDTH)
}

/// Whether numbers are a unit vector of a length.
pub fn normalized(v: &Vec<u32>, norm_error: u32, n: usize) -> (unit: bool)
    ensures
        unit == unit_vector(v@, norm_error, n as nat),
{
    if v.len() != n {
        return false;
    }
    all_finite(v) && is_single_less(norm_error, SINGLE_THOUSANDTH)
}

fn all_finite(v: &Vec<u32>) -> (finite: bool)
    ensures
        finite == forall|i: int| 0 <= i < v@.len() ==> single_finite(#[trigger] v@[i]),
{
    for i in 0..v.len()
        invariant
            forall|j: int| 0 <= j < i ==> single_finite(#[trigger] v@[j]),
    {
        if !is_single_finite(v[i]) {
            assert(!single_finite(v@[i as int]));
            return false;
        }
    }
    true
}

/// Whether the numbers of identities grow.
pub open spec fn ids_grow(keys: Seq<KeyModel>) -> bool {
    forall|i: int, j: int| 0 <= i < j < keys.len() ==> (#[trigger] keys[i]).id < (#[trigger] keys[j]).id
}

/// Whether a sequence has its shape: ten members of its session with growing numbers, five of them
/// selected, a model, an interval, and a unit descriptor.
pub open spec fn sequence_shape(s: SequenceModel) -> bool {
    &&& s.members.len() == 10
    &&& s.selected.len() == 5
    &&& s.model_id.len() > 0
    &&& s.start_ns <= s.end_ns
    &&& unit_vector(s.descriptor, s.norm_error, 512)
    &&& forall|i: int|
        0 <= i < s.members.len() ==> same_session(#[trigger] s.members[i], s.key)
    &&& ids_grow(s.members)
    &&& forall|i: int| 0 <= i < s.selected.len() ==> s.members.contains(#[trigger] s.selected[i])
    &&& ids_grow(s.selected)
}

/// Why a sequence is refused.
pub open spec fn sequence_fault(s: SequenceModel) -> Option<Seq<char>> {
    first_of(
        key_fault(s.key),
        if sequence_shape(s) {
            None
        } else {
            Some("invalid ten-keyframe sequence"@)
        },
    )
}

fn do_ids_grow(keys: &Vec<Key>) -> (grow: bool)
    ensures
        grow == ids_grow(key_models(keys@)),
{
    let ghost models = key_models(keys@);
    for i in 0..keys.len()
        invariant
            models == key_models(keys@),
            forall|a: int, b: int|
                0 <= a < b < i ==> (#[trigger] models[a]).id < (#[trigger] models[b]).id,
    {
        if i > 0 {
            assert(models[i as int].id == keys@[i as int].id);
            assert(models[i - 1].id == keys@[i - 1].id);
            if keys[i - 1].id >= keys[i].id {
                assert(!(models[i - 1].id < models[i as int].id));
                return false;
            }
        }
    }
    true
}

/// Whether an identity is in a list.
pub fn contains_key(keys: &Vec<Key>, key: &Key) -> (found: bool)
    ensures
        found == key_models(keys@).contains(key@),
{
    for i in 0..keys.len()
        invariant
            forall|j: int| 0 <= j < i ==> key_models(keys@)[j] != key@,
    {
        if keys[i].same(key) {
            assert(key_models(keys@)[i as int] == key@);
            return true;
        }
    }
    false
}

fn same_keys(a: &Vec<Key>, b: &Vec<Key>) -> (same: bool)
    ensures
        same == (key_models(a@) == key_models(b@)),
{
    if a.len() != b.len() {
        assert(key_models(a@).len() != key_models(b@).len());
        return false;
    }
    for i in 0..a.len()
        invariant
            a@.len() == b@.len(),
            forall|j: int| 0 <= j < i ==> key_models(a@)[j] == key_models(b@)[j],
    {
        if !a[i].same(&b[i]) {
            assert(key_models(a@)[i as int] != key_models(b@)[i as int]);
            return false;
        }
    }
    assert(key_models(a@) =~= key_models(b@));
    true
}

fn same_singles(a: &Vec<u32>, b: &Vec<u32>) -> (same: bool)
    ensures
        same == (a@ == b@),
{
    if a.len() != b.len() {
        return false;
    }
    for i in 0..a.len()
        invariant
            a@.len() == b@.len(),
            forall|j: int| 0 <= j < i ==> a@[j] == b@[j],
    {
        if a[i] != b[i] {
            return false;
        }
    }
    assert(a@ =~= b@);
    true
}

/// Whether two lists of numbers are the same.
pub fn same_numbers(a: &Vec<u64>, b: &Vec<u64>) -> (same: bool)
    ensures
        same == (a@ == b@),
{
    if a.len() != b.len() {
        return false;
    }
    for i in 0..a.len()
        invariant
            a@.len() == b@.len(),
            forall|j: int| 0 <= j < i ==> a@[j] == b@[j],
    {
        if a[i] != b[i] {
            return false;
        }
    }
    assert(a@ =~= b@);
    true
}

/// Whether two sequences are the same record.
pub open spec fn same_sequence(a: SequenceModel, b: SequenceModel) -> bool {
    a == (SequenceModel { norm_error: a.norm_error, ..b })
}

impl Sequence {
    /// Checks the sequence.
    pub fn validate(&self) -> (result: Result<(), Error>)
        ensures
            refused_for(result, sequence_fault(self@)),
    {
        match self.key.validate() {
            Err(e) => return Err(e),
            Ok(()) => {},
        }
        let mut valid: bool = self.members.len() == 10 && self.selected.len() == 5
            && self.model_id.as_str().unicode_len() > 0 && self.start_ns <= self.end_ns && normalized(
            &self.descriptor,
            self.norm_error,
            512,
        ) && do_ids_grow(&self.members) && do_ids_grow(&self.selected);
        let ghost members = key_models(self.members@);
        let ghost selected = key_models(self.selected@);
        if !valid {
            return Err(Error::of("invalid ten-keyframe sequence"));
        }
        for i in 0..self.members.len()
            invariant
                members == key_models(self.members@),
                forall|j: int| 0 <= j < i ==> same_session(#[trigger] members[j], self.key@),
                key_fault(self.key@) is None,
        {
            assert(members[i as int] == self.members@[i as int]@);
            if !self.members[i].same_session(&self.key) {
                assert(!same_session(members[i as int], self.key@));
                assert(self@.members[i as int] == members[i as int]);
                return Err(Error::of("invalid ten-keyframe sequence"));
            }
        }
        for i in 0..self.selected.len()
            invariant
                members == key_models(self.members@),
                selected == key_models(self.selected@),
                forall|j: int| 0 <= j < i ==> members.contains(#[trigger] selected[j]),
                key_fault(self.key@) is None,
        {
            assert(selected[i as int] == self.selected@[i as int]@);
            if !contains_key(&self.members, &self.selected[i]) {
                assert(!self@.members.contains(self@.selected[i as int]));
                return Err(Error::of("invalid ten-keyframe sequence"));
            }
        }
        Ok(())
    }

    /// Whether two sequences are the same record.
    pub fn same(&self, other: &Self) -> (same: bool)
        ensures
            same == same_sequence(self@, other@),
    {
        self.key.same(&other.key) && same_keys(&self.members, &other.members) && same_keys(
            &self.selected,
            &other.selected,
        ) && self.start_ns == other.start_ns && self.end_ns == other.end_ns && self.model_id
            == other.model_id && same_singles(&self.descriptor, &other.descriptor) && same_numbers(
            &self.excluded_keyframes,
            &other.excluded_keyframes,
        )
    }
}

/// The descriptors of the five selected keyframes of a sequence, one after the other. `norm_errors`
/// is how far their squared lengths are from one.
#[derive(Clone, Debug, PartialEq)]
pub struct FrameDescriptors {
    pub sequence: Key,
    pub frames: Vec<Key>,
    pub descriptors: Vec<u32>,
    pub norm_errors: Vec<u32>,
}

/// Why descriptors are refused.
pub open spec fn descriptors_fault(d: FrameDescriptors) -> Option<Seq<char>> {
    if d.frames@.len() == 5 && d.descriptors@.len() == 2560 && d.norm_errors@.len() == 5 && (
    forall|i: int|
        0 <= i < d.descriptors@.len() ==> single_finite(#[trigger] d.descriptors@[i])) && (forall|
        i: int,
    |
        0 <= i < d.norm_errors@.len() ==> single_less(
            #[trigger] d.norm_errors@[i],
            SINGLE_THOUSANDTH,
        )) {
        None
    } else {
        Some("invalid JIST frame descriptor matrix"@)
    }
}

impl FrameDescriptors {
    /// Checks the descriptors.
    pub fn validate(&self) -> (result: Result<(), Error>)
        ensures
            refused_for(result, descriptors_fault(*self)),
    {
        if self.frames.len() != 5 || self.descriptors.len() != 2560 || self.norm_errors.len() != 5
            || !all_finite(&self.descriptors) {
            return Err(Error::of("invalid JIST frame descriptor matrix"));
        }
        for i in 0..self.norm_errors.len()
            invariant
                forall|j: int|
                    0 <= j < i ==> single_less(
                        #[trigger] self.norm_errors@[j],
                        SINGLE_THOUSANDTH,
                    ),
        {
            if !is_single_less(self.norm_errors[i], SINGLE_THOUSANDTH) {
                assert(!single_less(self.norm_errors@[i as int], SINGLE_THOUSANDTH));
                return Err(Error::of("invalid JIST frame descriptor matrix"));
            }
        }
        Ok(())
    }
}

/// A pixel in single precision.
#[derive(Clone, Copy, Debug, PartialEq, Eq, Structural)]
pub struct SinglePixel {
    pub x: u32,
    pub y: u32,
}

/// The sparse features of one keyframe, with the points that they show where they are known.
#[derive(Clone, Debug, PartialEq)]
pub struct FeatureFrame {
    pub key: Key,
    pub timestamp_ns: i64,
    pub camera: CameraModel,
    pub pixels: Vec<SinglePixel>,
    pub descriptors: Vec<u32>,
    pub track_ids: Vec<u64>,
    pub points_camera: Vec<Option<Triple>>,
}

/// Whether a pixel lies in an image.
pub open spec fn pixel_inside(p: SinglePixel, c: CameraModel) -> bool {
    &&& single_finite(p.x)
    &&& single_finite(p.y)
    &&& !single_less(p.x, 0)
    &&& !single_less(p.y, 0)
    &&& !single_at_most(c.width_single, p.x)
    &&& !single_at_most(c.height_single, p.y)
}

/// Whether a point is known to be nowhere, or is finite.
pub open spec fn point_finite(p: Option<Triple>) -> bool {
    p matches Some(t) ==> triple_finite(t)
}

/// Whether features have their shape: as many tracks and points as pixels, 64 numbers for each, and
/// everything finite and inside the image.
pub open spec fn features_shape(f: FeatureFrame) -> bool {
    let n = f.pixels@.len();
    &&& n <= 1024
    &&& f.descriptors@.len() == n * 64
    &&& f.track_ids@.len() == n
    &&& f.points_camera@.len() == n
    &&& forall|i: int| 0 <= i < f.descriptors@.len() ==> single_finite(#[trigger] f.descriptors@[i])
    &&& forall|i: int| 0 <= i < n ==> pixel_inside(#[trigger] f.pixels@[i], f.camera)
    &&& forall|i: int|
        0 <= i < f.points_camera@.len() ==> point_finite(#[trigger] f.points_camera@[i])
}

/// Why features are refused.
pub open spec fn features_fault(f: FeatureFrame) -> Option<Seq<char>> {
    first_of(
        first_of(key_fault(f.key@), camera_fault(f.camera)),
        if features_shape(f) {
            None
        } else {
            Some("invalid sparse feature packet"@)
        },
    )
}

fn is_pixel_inside(p: &SinglePixel, c: &CameraModel) -> (inside: bool)
    ensures
        inside == pixel_inside(*p, *c),
{
    is_single_finite(p.x) && is_single_finite(p.y) && !is_single_less(p.x, 0) && !is_single_less(
        p.y,
        0,
    ) && !is_single_at_most(c.width_single, p.x) && !is_single_at_most(c.height_single, p.y)
}

impl FeatureFrame {
    /// Checks the features.
    pub fn validate(&self) -> (result: Result<(), Error>)
        ensures
            refused_for(result, features_fault(*self)),
    {
        match self.key.validate() {
            Err(e) => return Err(e),
            Ok(()) => {},
        }
        match self.camera.camera() {
            Err(e) => return Err(e),
            Ok(()) => {},
        }
        let n: usize = self.pixels.len();
        if n > 1024 || self.descriptors.len() != n * 64 || self.track_ids.len() != n
            || self.points_camera.len() != n || !all_finite(&self.descriptors) {
            return Err(Error::of("invalid sparse feature packet"));
        }
        for i in 0..n
            invariant
                n == self.pixels@.len(),
                forall|j: int|
                    0 <= j < i ==> pixel_inside(#[trigger] self.pixels@[j], self.camera),
                key_fault(self.key@) is None,
                camera_fault(self.camera) is None,
        {
            if !is_pixel_inside(&self.pixels[i], &self.camera) {
                assert(!pixel_inside(self.pixels@[i as int], self.camera));
                return Err(Error::of("invalid sparse feature packet"));
            }
        }
        for i in 0..n
            invariant
                n == self.points_camera@.len(),
                forall|j: int| 0 <= j < i ==> point_finite(#[trigger] self.points_camera@[j]),
                key_fault(self.key@) is None,
                camera_fault(self.camera) is None,
        {
            if let Some(t) = &self.points_camera[i] {
                if !is_triple_finite(t) {
                    assert(!point_finite(self.points_camera@[i as int]));
                    return Err(Error::of("invalid sparse feature packet"));
                }
            }
        }
        Ok(())
    }
}

/// What holding two keyframes against each other gave.
#[derive(Debug, PartialEq)]
pub struct Verification {
    pub matches: usize,
    pub two_d_inliers: usize,
    pub pnp_inliers: usize,
    pub reprojection_px: u64,
    pub coverage: u64,
    pub reverse: bool,
    pub reason: String,
}

/// A verification without the string that holds its reason.
#[verifier::ext_equal]
pub ghost struct VerificationModel {
    pub matches: usize,
    pub two_d_inliers: usize,
    pub pnp_inliers: usize,
    pub reprojection_px: u64,
    pub coverage: u64,
    pub reverse: bool,
    pub reason: Seq<char>,
}

impl View for Verification {
    type V = VerificationModel;

    open spec fn view(&self) -> VerificationModel {
        VerificationModel {
            matches: self.matches,
            two_d_inliers: self.two_d_inliers,
            pnp_inliers: self.pnp_inliers,
            reprojection_px: self.reprojection_px,
            coverage: self.coverage,
            reverse: self.reverse,
            reason: self.reason@,
        }
    }
}

/// A verification of which nothing is known.
pub open spec fn no_verification() -> VerificationModel {
    VerificationModel {
        matches: 0,
        two_d_inliers: 0,
        pnp_inliers: 0,
        reprojection_px: 0,
        coverage: 0,
        reverse: false,
        reason: Seq::empty(),
    }
}

impl Default for Verification {
    fn default() -> (v: Self)
        ensures
            v@ == no_verification(),
    {
        Verification {
            matches: 0,
            two_d_inliers: 0,
            pnp_inliers: 0,
            reprojection_px: 0,
            coverage: 0,
            reverse: false,
            reason: String::new(),
        }
    }
}

impl Clone for Verification {
    fn clone(&self) -> (v: Self)
        ensures
            v@ == self@,
    {
        Verification {
            matches: self.matches,
            two_d_inliers: self.two_d_inliers,
            pnp_inliers: self.pnp_inliers,
            reprojection_px: self.reprojection_px,
            coverage: self.coverage,
            reverse: self.reverse,
            reason: self.reason.clone(),
        }
    }
}

/// A verified motion between two keyframes. `asymmetry` is how far the information is from its
/// transpose, and `definite` whether it has a Cholesky factor.
#[derive(Debug, PartialEq)]
pub struct LoopConstraint {
    pub pair: Pair,
    pub from: Key,
    pub to: Key,
    /// Takes a point of the first body to the second.
    pub to_from: Transform,
    /// Row by row, translation before rotation.
    pub information: Vec<u64>,
    pub asymmetry: u64,
    pub definite: bool,
    pub similarity: u32,
    pub verification: Verification,
}

/// A constraint without the strings that hold its names.
#[verifier::ext_equal]
pub ghost struct LoopModel {
    pub pair: PairModel,
    pub from: KeyModel,
    pub to: KeyModel,
    pub to_from: Transform,
    pub information: Seq<u64>,
    pub asymmetry: u64,
    pub definite: bool,
    pub similarity: u32,
    pub verification: VerificationModel,
}

impl View for LoopConstraint {
    type V = LoopModel;

    open spec fn view(&self) -> LoopModel {
        LoopModel {
            pair: self.pair@,
            from: self.from@,
            to: self.to@,
            to_from: self.to_from,
            information: self.information@,
            asymmetry: self.asymmetry,
            definite: self.definite,
            similarity: self.similarity,
            verification: self.verification@,
        }
    }
}

/// A hundred-millionth.
pub const SYMMETRY_LIMIT: u64 = 0x3e45_798e_e230_8c3a;

/// Why an information matrix is refused.
pub open spec fn information_fault(
    v: Seq<u64>,
    asymmetry: u64,
    definite: bool,
) -> Option<Seq<char>> {
    if v.len() != 36 || exists|i: int| 0 <= i < v.len() && !double_finite(#[trigger] v[i]) {
        Some("invalid information matrix"@)
    } else if double_less(SYMMETRY_LIMIT, asymmetry) || !definite {
        Some("information must be symmetric positive definite"@)
    } else {
        None
    }
}

/// Checks an information matrix.
pub fn checked_information(v: &Vec<u64>, asymmetry: u64, definite: bool) -> (result: Result<
    (),
    Error,
>)
    ensures
        refused_for(result, information_fault(v@, asymmetry, definite)),
{
    if v.len() != 36 {
        return Err(Error::of("invalid information matrix"));
    }
    for i in 0..v.len()
        invariant
            v@.len() == 36,
            forall|j: int| 0 <= j < i ==> double_finite(#[trigger] v@[j]),
    {
        if !is_double_finite(v[i]) {
            assert(!double_finite(v@[i as int]));
            return Err(Error::of("invalid information matrix"));
        }
    }
    if is_double_less(SYMMETRY_LIMIT, asymmetry) || !definite {
        return Err(Error::of("information must be symmetric positive definite"));
    }
    Ok(())
}

/// Whether two numbers are the same in a record, which does not tell apart those that are not finite.
pub open spec fn same_value(a: u64, b: u64) -> bool {
    a == b || (!double_finite(a) && !double_finite(b))
}

/// Whether two constraints are the same record.
pub open spec fn same_loop(a: LoopModel, b: LoopModel) -> bool {
    &&& a.pair == b.pair
    &&& a.from == b.from
    &&& a.to == b.to
    &&& same_transform(a.to_from, b.to_from)
    &&& a.information == b.information
    &&& a.similarity == b.similarity
    &&& a.verification.matches == b.verification.matches
    &&& a.verification.two_d_inliers == b.verification.two_d_inliers
    &&& a.verification.pnp_inliers == b.verification.pnp_inliers
    &&& same_value(a.verification.reprojection_px, b.verification.reprojection_px)
    &&& same_value(a.verification.coverage, b.verification.coverage)
    &&& a.verification.reverse == b.verification.reverse
    &&& a.verification.reason == b.verification.reason
}

fn is_same_value(a: u64, b: u64) -> (same: bool)
    ensures
        same == same_value(a, b),
{
    a == b || (!is_double_finite(a) && !is_double_finite(b))
}

impl Clone for LoopConstraint {
    fn clone(&self) -> (edge: Self)
        ensures
            edge@ == self@,
    {
        LoopConstraint {
            pair: self.pair.clone(),
            from: self.from.clone(),
            to: self.to.clone(),
            to_from: self.to_from,
            information: copy_list(&self.information),
            asymmetry: self.asymmetry,
            definite: self.definite,
            similarity: self.similarity,
            verification: self.verification.clone(),
        }
    }
}

impl LoopConstraint {
    /// Whether two constraints are the same record.
    pub fn same(&self, other: &Self) -> (same: bool)
        ensures
            same == same_loop(self@, other@),
    {
        let v = &self.verification;
        let w = &other.verification;
        self.pair.0.same(&other.pair.0) && self.pair.1.same(&other.pair.1) && self.from.same(
            &other.from,
        ) && self.to.same(&other.to) && self.to_from.same(&other.to_from) && same_numbers(
            &self.information,
            &other.information,
        ) && self.similarity == other.similarity && v.matches == w.matches && v.two_d_inliers
            == w.two_d_inliers && v.pnp_inliers == w.pnp_inliers && is_same_value(
            v.reprojection_px,
            w.reprojection_px,
        ) && is_same_value(v.coverage, w.coverage) && v.reverse == w.reverse && v.reason
            == w.reason
    }
}

/// A motion is refused exactly where one of its seven numbers is not finite or its rotation is off a unit by
/// more than a thousandth.
pub proof fn motions_are_finite_and_rigid(t: Transform)
    ensures
        transform_fault(t) is None <==> {
            &&& double_finite(t.translation.x)
            &&& double_finite(t.translation.y)
            &&& double_finite(t.translation.z)
            &&& double_finite(t.rotation_xyzw.x)
            &&& double_finite(t.rotation_xyzw.y)
            &&& double_finite(t.rotation_xyzw.z)
            &&& double_finite(t.rotation_xyzw.w)
            &&& !double_less(0x3f50_624d_d2f1_a9fc, t.rotation_error)
        },
{
}

/// A camera is accepted exactly where its image is at least two by two, its focal lengths are positive, its
/// numbers are finite, and it has a place on the body.
pub proof fn cameras_are_pinholes(c: CameraModel)
    ensures
        camera_fault(c) is None <==> {
            &&& c.width >= 2
            &&& c.height >= 2
            &&& double_finite(c.intrinsics.x)
            &&& double_finite(c.intrinsics.y)
            &&& double_finite(c.intrinsics.z)
            &&& double_finite(c.intrinsics.w)
            &&& double_less(0, c.intrinsics.x)
            &&& double_less(0, c.intrinsics.y)
            &&& transform_fault(c.camera_to_body) is None
        },
{
}

/// A sequence is accepted exactly where it has a name, ten members of its session with growing numbers, five
/// of which are selected in growing order, a model, a time that does not end before it starts, and 512
/// finite numbers that are off a unit vector by less than a thousandth.
pub proof fn sequences_have_ten_members(s: SequenceModel)
    ensures
        sequence_fault(s) is None <==> {
            &&& key_fault(s.key) is None
            &&& s.members.len() == 10
            &&& s.selected.len() == 5
            &&& s.model_id.len() > 0
            &&& s.start_ns <= s.end_ns
            &&& s.descriptor.len() == 512
            &&& forall|i: int| 0 <= i < 512 ==> single_finite(#[trigger] s.descriptor[i])
            &&& single_less(s.norm_error, 0x3a83_126f)
            &&& forall|i: int|
                0 <= i < 10 ==> (#[trigger] s.members[i]).robot == s.key.robot
                    && s.members[i].session == s.key.session
            &&& forall|i: int, j: int|
                0 <= i < j < 10 ==> (#[trigger] s.members[i]).id < (#[trigger] s.members[j]).id
            &&& forall|i: int| 0 <= i < 5 ==> s.members.contains(#[trigger] s.selected[i])
            &&& forall|i: int, j: int|
                0 <= i < j < 5 ==> (#[trigger] s.selected[i]).id < (#[trigger] s.selected[j]).id
        },
{
    if sequence_shape(s) {
        assert forall|i: int| 0 <= i < 10 implies (#[trigger] s.members[i]).robot == s.key.robot
            && s.members[i].session == s.key.session by {
            assert(same_session(s.members[i], s.key));
        }
    }
    if key_fault(s.key) is None && s.members.len() == 10 && s.selected.len() == 5
        && s.descriptor.len() == 512 && (forall|i: int|
        0 <= i < 10 ==> (#[trigger] s.members[i]).robot == s.key.robot && s.members[i].session
            == s.key.session) {
        assert forall|i: int| 0 <= i < s.members.len() implies same_session(
            #[trigger] s.members[i],
            s.key,
        ) by {}
    }
}

/// Feature packets are accepted exactly where they have a name and a camera and at most 1024 pixels inside
/// the image, with 64 finite descriptor numbers, a track and a finite point or none for each.
pub proof fn features_lie_inside_the_image(f: FeatureFrame)
    ensures
        features_fault(f) is None <==> {
            let n = f.pixels@.len();
            &&& key_fault(f.key@) is None
            &&& camera_fault(f.camera) is None
            &&& n <= 1024
            &&& f.descriptors@.len() == 64 * n
            &&& f.track_ids@.len() == n
            &&& f.points_camera@.len() == n
            &&& forall|i: int| 0 <= i < 64 * n ==> single_finite(#[trigger] f.descriptors@[i])
            &&& forall|i: int|
                0 <= i < n ==> {
                    let p = #[trigger] f.pixels@[i];
                    &&& single_finite(p.x)
                    &&& single_finite(p.y)
                    &&& !single_less(p.x, 0)
                    &&& !single_less(p.y, 0)
                    &&& !single_at_most(f.camera.width_single, p.x)
                    &&& !single_at_most(f.camera.height_single, p.y)
                }
            &&& forall|i: int|
                0 <= i < n && (#[trigger] f.points_camera@[i]) is Some ==> double_finite(
                    f.points_camera@[i]->0.x,
                ) && double_finite(f.points_camera@[i]->0.y) && double_finite(
                    f.points_camera@[i]->0.z,
                )
        },
{
    let n = f.pixels@.len();
    if features_shape(f) {
        assert forall|i: int| 0 <= i < n implies pixel_inside(#[trigger] f.pixels@[i], f.camera) by {}
        assert forall|i: int| 0 <= i < n implies point_finite(#[trigger] f.points_camera@[i]) by {}
    }
}

/// Weights are accepted exactly where there are thirty-six of them, all finite, close enough to symmetric and
/// positive definite.
pub proof fn weights_are_six_by_six(v: Seq<u64>, asymmetry: u64, definite: bool)
    ensures
        information_fault(v, asymmetry, definite) is None <==> {
            &&& v.len() == 36
            &&& forall|i: int| 0 <= i < 36 ==> double_finite(#[trigger] v[i])
            &&& !double_less(0x3e45_798e_e230_8c3a, asymmetry)
            &&& definite
        },
{
}

/// Descriptors of five frames are accepted exactly where there are 512 finite numbers for each and each is off
/// a unit vector by less than a thousandth.
pub proof fn frame_descriptors_are_five_units(d: FrameDescriptors)
    ensures
        descriptors_fault(d) is None <==> {
            &&& d.frames@.len() == 5
            &&& d.norm_errors@.len() == 5
            &&& d.descriptors@.len() == 5 * 512
            &&& forall|i: int| 0 <= i < 2560 ==> single_finite(#[trigger] d.descriptors@[i])
            &&& forall|i: int|
                0 <= i < 5 ==> single_less(#[trigger] d.norm_errors@[i], 0x3a83_126f)
        },
{
}

/// Records, sequences and loops are the same where their names, times, motions and evidence are; what is only
/// derived from these (how far off a unit or symmetry they are) does not count.
pub proof fn sameness_is_of_all_that_was_sent(
    a: RecordModel,
    b: RecordModel,
    s: SequenceModel,
    t: SequenceModel,
    e: LoopModel,
    f: LoopModel,
)
    ensures
        same_record(a, b) <==> a.key == b.key && a.timestamp_ns == b.timestamp_ns && a.previous
            == b.previous && a.body_to_odom.translation == b.body_to_odom.translation
            && a.body_to_odom.rotation_xyzw == b.body_to_odom.rotation_xyzw,
        same_sequence(s, t) <==> s.key == t.key && s.members == t.members && s.selected
            == t.selected && s.start_ns == t.start_ns && s.end_ns == t.end_ns && s.model_id
            == t.model_id && s.descriptor == t.descriptor && s.excluded_keyframes
            == t.excluded_keyframes,
        same_loop(e, f) ==> e.pair == f.pair && e.from == f.from && e.to == f.to
            && e.to_from.translation == f.to_from.translation && e.to_from.rotation_xyzw
            == f.to_from.rotation_xyzw && e.information == f.information && e.similarity
            == f.similarity && e.verification.matches == f.verification.matches
            && e.verification.two_d_inliers == f.verification.two_d_inliers
            && e.verification.pnp_inliers == f.verification.pnp_inliers
            && e.verification.reverse == f.verification.reverse && e.verification.reason
            == f.verification.reason,
        same_loop(e, f) && double_finite(e.verification.reprojection_px) ==> f.verification.reprojection_px
            == e.verification.reprojection_px,
        same_loop(e, f) && double_finite(e.verification.coverage) ==> f.verification.coverage
            == e.verification.coverage,
        same_record(a, a),
        same_sequence(s, s),
        same_loop(e, e),
        e == (LoopModel {
            asymmetry: e.asymmetry,
            definite: e.definite,
            to_from: Transform { rotation_error: e.to_from.rotation_error, ..f.to_from },
            ..f
        }) ==> same_loop(e, f),
{
}

} // verus!

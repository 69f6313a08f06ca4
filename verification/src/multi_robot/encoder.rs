//! How the keyframes of a robot become the sequences that it shares. The models run outside; what
//! they are given and what is made of their results is decided here.
use crate::digest::{sha256, sha256_of};
use crate::ieee::{double_less, is_double_less};
use crate::json::{json_text_at, text_at};
use crate::multi_robot::covisibility::within;
use crate::multi_robot::error::{first_of, refused, Error};
use crate::multi_robot::keys::{key_fault, same_session, Key, KeyModel};
use crate::multi_robot::sequence::{
    all_middles, between_the_ends, block_wf, cheapest, cheapest_choice_is_least, first_least,
    five_of, key_ids, middle_of, middles_are_all_between_the_ends, middles_are_not_empty,
    no_choice_is_cheaper, select_five, BuilderModel, KeyframeMeta, Middle, SequenceBuilder, SEQUENCE_LENGTH,
};
use crate::multi_robot::types::{
    camera_fault, key_models, sequence_fault, sequence_shape, triple_finite, unit_vector,
    CameraModel, FeatureFrame, FrameDescriptors, Sequence, SequenceModel, SinglePixel, Triple,
};
use crate::ordered::{ascending, filter_members};
use crate::text::{hex, hex_text};
use std::collections::{BTreeMap, BTreeSet};
use vstd::prelude::*;
use vstd::utf8::encode_utf8;

verus! {

broadcast use vstd::std_specs::btree::group_btree_axioms;

/// How many features a matcher works on.
pub const MATCHER_KEYPOINTS: usize = 128;

/// What a model is known by: the digest that a manifest gives, or what its file holds.
#[derive(Debug)]
pub enum ModelIdentity {
    Known(String),
    Contents(Vec<u8>),
}

impl View for ModelIdentity {
    type V = Seq<u8>;

    open spec fn view(&self) -> Seq<u8> {
        match self {
            ModelIdentity::Known(digest) => encode_utf8(digest@),
            ModelIdentity::Contents(bytes) => bytes@,
        }
    }
}

/// The digest of a model that a manifest gives.
pub fn manifest_digest(manifest: Option<&Vec<u8>>, name: &str) -> (digest: Option<String>)
    ensures
        match manifest {
            None => digest is None,
            Some(bytes) => match json_text_at(bytes@, "models"@, name@, "onnx_sha256"@) {
                Some(text) => digest matches Some(d) && d@ == text,
                None => digest is None,
            },
        },
{
    match manifest {
        None => None,
        Some(bytes) => text_at(bytes.as_slice(), "models", name, "onnx_sha256"),
    }
}

/// The number of features as a machine word of so many bits, its low byte first.
pub open spec fn keypoint_bytes(word: u32) -> Seq<u8> {
    Seq::new((word / 8) as nat, |i: int| if i == 0 { 128u8 } else { 0 })
}

/// The bytes that tell sets of models apart: a tag, the three models, and the number of features as a
/// word of this machine.
pub open spec fn model_material(jist: Seq<u8>, xfeat: Seq<u8>, lighterglue: Seq<u8>) -> Seq<u8> {
    encode_utf8("visloc-jist-imagenet-rgb-five-xfeat-lighterglue-v1"@) + jist + xfeat + lighterglue
        + keypoint_bytes(usize::BITS)
}

fn append_bytes(out: &mut Vec<u8>, bytes: &[u8])
    ensures
        final(out)@ == old(out)@ + bytes@,
{
    for i in 0..bytes.len()
        invariant
            out@ == old(out)@ + bytes@.take(i as int),
    {
        out.push(bytes[i]);
        assert(out@ =~= old(out)@ + bytes@.take(i + 1));
    }
    assert(bytes@.take(bytes@.len() as int) =~= bytes@);
}

fn append_identity(out: &mut Vec<u8>, model: &ModelIdentity)
    ensures
        final(out)@ == old(out)@ + model@,
{
    match model {
        ModelIdentity::Known(digest) => append_bytes(out, digest.as_str().as_bytes()),
        ModelIdentity::Contents(bytes) => append_bytes(out, bytes.as_slice()),
    }
}

/// The name of a set of models.
pub fn model_id(jist: &ModelIdentity, xfeat: &ModelIdentity, lighterglue: &ModelIdentity) -> (id: String)
    ensures
        id@ == hex(sha256(model_material(jist@, xfeat@, lighterglue@))),
        id@.len() == 64,
{
    let mut material: Vec<u8> = Vec::new();
    append_bytes(&mut material, "visloc-jist-imagenet-rgb-five-xfeat-lighterglue-v1".as_bytes());
    append_identity(&mut material, jist);
    append_identity(&mut material, xfeat);
    append_identity(&mut material, lighterglue);
    let ghost models = material@;
    assert(models + keypoint_bytes(usize::BITS).take(0) =~= models);
    for i in 0..usize::BITS / 8
        invariant
            material@ == models + keypoint_bytes(usize::BITS).take(i as int),
    {
        let byte: u8 = if i == 0 {
            128
        } else {
            0
        };
        material.push(byte);
        assert(material@ =~= models + keypoint_bytes(usize::BITS).take(i + 1));
    }
    assert(material@ =~= model_material(jist@, xfeat@, lighterglue@));
    let digest = sha256_of(material.as_slice());
    proof {
        hex_length(digest@);
    }
    hex_text(&digest)
}

proof fn hex_length(bytes: Seq<u8>)
    ensures
        hex(bytes).len() == 2 * bytes.len(),
    decreases bytes.len(),
{
    if bytes.len() > 0 {
        hex_length(bytes.drop_last());
    }
}

/// The tracks that a frame's observations have points for, given with each whether it has one.
pub fn landmarks_of(observations: &Vec<(u64, bool)>) -> (landmarks: BTreeSet<u64>)
    ensures
        forall|t: u64| #[trigger]
            landmarks@.contains(t) <==> observations@.contains((t, true)),
{
    let mut landmarks: BTreeSet<u64> = BTreeSet::new();
    for i in 0..observations.len()
        invariant
            forall|t: u64| #[trigger]
                landmarks@.contains(t) <==> observations@.take(i as int).contains((t, true)),
    {
        let (track_id, has_point) = observations[i];
        let ghost before = observations@.take(i as int);
        assert(observations@.take(i + 1) =~= before.push((track_id, has_point)));
        proof {
            assert forall|t: u64| before.push((track_id, has_point)).contains((t, true)) implies (
            t == track_id && has_point) || before.contains((t, true)) by {
                let k = before.push((track_id, has_point)).index_of((t, true));
                if k < before.len() {
                    assert(before[k] == (t, true));
                }
            }
            assert forall|t: u64| (t == track_id && has_point) || before.contains(
                (t, true),
            ) implies before.push((track_id, has_point)).contains((t, true)) by {
                if before.contains((t, true)) {
                    let k = before.index_of((t, true));
                    assert(before.push((track_id, has_point))[k] == (t, true));
                } else {
                    assert(before.push((track_id, has_point))[i as int] == (t, true));
                }
            }
        }
        if has_point {
            landmarks.insert(track_id);
        }
    }
    assert(observations@.take(observations@.len() as int) =~= observations@);
    landmarks
}

/// The making of sequences of one session. `P` is a frame with its image.
pub struct Encoder<P> {
    pub camera: CameraModel,
    pub builder: SequenceBuilder,
    pub frames: BTreeMap<u64, P>,
    pub owner: Key,
    pub next_sequence: u64,
    pub model_id: String,
    pub resets: u64,
    pub skipped: u64,
}

/// Why there is no encoder.
pub open spec fn encoder_fault(
    matcher_keypoints: usize,
    camera: CameraModel,
    owner: KeyModel,
) -> Option<Seq<char>> {
    first_of(
        if matcher_keypoints == MATCHER_KEYPOINTS {
            None
        } else {
            Some("SB-SLAM mode requires exactly 128 real matcher features"@)
        },
        first_of(camera_fault(camera), key_fault(owner)),
    )
}

/// Why a frame is refused before it is cut into sequences.
pub open spec fn frame_fault(owner: KeyModel, index: u64, key: KeyModel) -> Option<Seq<char>> {
    if same_session(key, owner) && index == key.id {
        None
    } else {
        Some("frame/session identity mismatch"@)
    }
}

impl<P> Encoder<P> {
    /// Whether the frames of some keyframes are held.
    pub open spec fn holds(&self, block: Seq<KeyframeMeta>) -> bool {
        forall|i: int|
            0 <= i < block.len() ==> self.frames@.contains_key(
                (#[trigger] block[i]).record.key@.id,
            )
    }

    /// Whether the encoder keeps its promises: those of its cutting, in the session of its owner, and
    /// that it holds the frames of the sequence in the making.
    pub open spec fn wf(&self) -> bool {
        &&& self.builder.wf()
        &&& self.holds(self.builder@.pending)
        &&& self.model_id@.len() > 0
        &&& self.builder@.last_key matches Some(k) ==> same_session(k, self.owner@)
    }

    /// Begins a session.
    pub fn new(
        matcher_keypoints: usize,
        camera: CameraModel,
        owner: Key,
        jist: &ModelIdentity,
        xfeat: &ModelIdentity,
        lighterglue: &ModelIdentity,
    ) -> (result: Result<Self, Error>)
        ensures
            match encoder_fault(matcher_keypoints, camera, owner@) {
                Some(text) => refused(result, text),
                None => {
                    &&& result matches Ok(encoder)
                    &&& encoder.wf()
                    &&& encoder.camera == camera
                    &&& encoder.owner == owner
                    &&& encoder.builder@ == (BuilderModel {
                        pending: Seq::empty(),
                        last_key: None,
                        last_retained: Set::empty(),
                        history: Seq::empty(),
                    })
                    &&& encoder.frames@ == Map::<u64, P>::empty()
                    &&& encoder.next_sequence == 0
                    &&& encoder.resets == 0
                    &&& encoder.skipped == 0
                    &&& encoder.model_id@ == hex(
                        sha256(model_material(jist@, xfeat@, lighterglue@)),
                    )
                },
            },
    {
        if matcher_keypoints != MATCHER_KEYPOINTS {
            return Err(Error::of("SB-SLAM mode requires exactly 128 real matcher features"));
        }
        match camera.camera() {
            Err(e) => return Err(e),
            Ok(()) => {},
        }
        match owner.validate() {
            Err(e) => return Err(e),
            Ok(()) => {},
        }
        let model_id = model_id(jist, xfeat, lighterglue);
        Ok(
            Encoder {
                camera,
                builder: SequenceBuilder::new(),
                frames: BTreeMap::new(),
                owner,
                next_sequence: 0,
                model_id,
                resets: 0,
                skipped: 0,
            },
        )
    }

    /// The frames that are held once one has come: none from before a gap, and the new one where it
    /// is not left out.
    pub open spec fn held(&self, index: u64, frame: P, meta: KeyframeMeta) -> Map<u64, P> {
        let base = if self.builder@.resets(meta) {
            Map::empty()
        } else {
            self.frames@
        };
        if self.builder@.skips(meta) {
            base
        } else {
            base.insert(index, frame)
        }
    }

    /// Takes in a frame with its keyframe. The tenth of a sequence gives its keyframes back, whose
    /// frames are all held.
    pub fn push(&mut self, index: u64, frame: P, meta: KeyframeMeta) -> (result: Result<
        Option<Vec<KeyframeMeta>>,
        Error,
    >)
        requires
            old(self).wf(),
            old(self).resets < u64::MAX,
            old(self).skipped < u64::MAX,
        ensures
            final(self).wf(),
            final(self).camera == old(self).camera,
            final(self).owner == old(self).owner,
            final(self).next_sequence == old(self).next_sequence,
            final(self).model_id == old(self).model_id,
            match first_of(
                frame_fault(old(self).owner@, index, meta.record.key@),
                old(self).builder@.fault(meta),
            ) {
                Some(text) => {
                    &&& refused(result, text)
                    &&& final(self).builder@ == old(self).builder@
                    &&& final(self).frames@ == old(self).frames@
                    &&& final(self).resets == old(self).resets
                    &&& final(self).skipped == old(self).skipped
                },
                None => {
                    let b = old(self).builder@;
                    &&& final(self).builder@ == b.pushed(meta)
                    &&& final(self).frames@ == old(self).held(index, frame, meta)
                    &&& final(self).resets == old(self).resets + if b.resets(meta) {
                        1int
                    } else {
                        0
                    }
                    &&& final(self).skipped == old(self).skipped + if b.skips(meta) {
                        1int
                    } else {
                        0
                    }
                    &&& result matches Ok(complete)
                    &&& match complete {
                        Some(block) => !b.skips(meta) && block@ == b.grown(meta) && block@.len()
                            == SEQUENCE_LENGTH && block_wf(block@) && final(self).holds(block@)
                            && (forall|i: int|
                            0 <= i < block@.len() ==> same_session(
                                (#[trigger] block@[i]).record.key@,
                                old(self).owner@,
                            )),
                        None => b.skips(meta) || b.grown(meta).len() != SEQUENCE_LENGTH,
                    }
                },
            },
    {
        if !meta.record.key.same_session(&self.owner) || index != meta.record.key.id {
            return Err(Error::of("frame/session identity mismatch"));
        }
        let ghost b = self.builder@;
        let ghost key = meta.record.key@;
        let ghost given = meta;
        proof {
            self.builder.model_is_wf();
        }
        let part = match self.builder.push(meta) {
            Err(e) => return Err(e),
            Ok(part) => part,
        };
        if part.reset {
            self.frames = BTreeMap::new();
            self.resets = self.resets + 1;
        }
        if !part.retained {
            self.skipped = self.skipped + 1;
            return Ok(None);
        }
        self.frames.insert(index, frame);
        proof {
            if part.complete is Some {
                let block = part.complete->Some_0;
                assert forall|i: int| 0 <= i < block@.len() implies same_session(
                    (#[trigger] block@[i]).record.key@,
                    self.owner@,
                ) by {
                    let last = block@.len() - 1;
                    assert(block@[last] == given);
                    if i < last {
                        assert(same_session(block@[i].record.key@, block@[last].record.key@));
                    }
                }
            }
        }
        Ok(part.complete)
    }
}

/// Every choice of three lies between the first and the last keyframe.
proof fn middles_lie_between()
    ensures
        forall|i: int|
            0 <= i < all_middles().len() ==> between_the_ends(#[trigger] all_middles()[i])
                && all_middles()[i].c <= 8,
{
    let codes = Seq::new(729, |code: int| middle_of(code));
    let keep = |m: Middle| between_the_ends(m);
    filter_members(codes, keep);
    assert forall|i: int| 0 <= i < all_middles().len() implies between_the_ends(
        #[trigger] all_middles()[i],
    ) && all_middles()[i].c <= 8 by {
        let m = all_middles()[i];
        assert(codes.filter(keep).contains(m));
        let k = choose|k: int| 0 <= k < codes.len() && codes[k] == m;
        assert(m == middle_of(k));
    }
}

/// The sequence of ten keyframes and five places among them.
pub open spec fn sequence_of(
    block: Seq<KeyframeMeta>,
    five: Seq<usize>,
    owner: KeyModel,
    id: u64,
    model_id: Seq<char>,
    descriptor: Seq<u32>,
    norm_error: u32,
    excluded: Seq<u64>,
) -> SequenceModel {
    SequenceModel {
        key: KeyModel { id, ..owner },
        members: Seq::new(10, |i: int| block[i].record.key@),
        selected: Seq::new(5, |i: int| block[five[i] as int].record.key@),
        start_ns: block[0].record.timestamp_ns,
        end_ns: block[9].record.timestamp_ns,
        model_id,
        descriptor,
        norm_error,
        excluded_keyframes: excluded,
    }
}

/// The numbers of the keyframes of a sequence.
pub open spec fn block_ids(block: Seq<KeyframeMeta>) -> Set<u64> {
    Set::new(
        |id: u64|
            exists|i: int| 0 <= i < block.len() && (#[trigger] block[i]).record.key@.id == id,
    )
}

/// The five keyframes that stand for ten.
pub open spec fn five_for(costs: Seq<u64>) -> Seq<usize> {
    five_of(all_middles()[cheapest(costs, costs.len() as int).0])
}

impl<P> Encoder<P> {
    /// Picks the five keyframes of a complete sequence that stand for it. `costs` are those of the
    /// choices.
    pub fn select(&self, block: &Vec<KeyframeMeta>, costs: &Vec<u64>) -> (five: [usize; 5])
        requires
            block@.len() == SEQUENCE_LENGTH,
            block_wf(block@),
            costs@.len() == all_middles().len(),
        ensures
            five@ == five_for(costs@),
            first_least(costs@, cheapest(costs@, costs@.len() as int).0),
            forall|i: int| 0 <= i < 5 ==> (#[trigger] five@[i]) < 10,
            forall|i: int, j: int|
                0 <= i < j < 5 ==> (#[trigger] five@[i]) < (#[trigger] five@[j]),
    {
        let mut positions: Vec<Triple> = Vec::new();
        for i in 0..block.len()
            invariant
                block_wf(block@),
                positions@.len() == i,
                forall|k: int| 0 <= k < i ==> triple_finite(#[trigger] positions@[k]),
        {
            assert(triple_finite(block@[i as int].camera_position));
            positions.push(block[i].camera_position);
        }
        let selected = select_five(&positions, costs);
        proof {
            middles_lie_between();
            middles_are_not_empty();
            cheapest_choice_is_least(costs@);
            let m = all_middles()[cheapest(costs@, costs@.len() as int).0];
            assert(between_the_ends(m) && m.c <= 8);
            assert(five_of(m) =~= seq![0, m.a, m.b, m.c, 9]);
        }
        match selected {
            Ok(five) => five,
            Err(e) => [0, 1, 2, 3, 9],
        }
    }

    /// Makes the sequence of ten keyframes, once the models have described it.
    pub fn assemble(
        &mut self,
        block: &Vec<KeyframeMeta>,
        five: &[usize; 5],
        descriptor: Vec<u32>,
        norm_error: u32,
    ) -> (sequence: Sequence)
        requires
            old(self).wf(),
            old(self).next_sequence < u64::MAX,
            block@.len() == SEQUENCE_LENGTH,
            forall|i: int| 0 <= i < 5 ==> (#[trigger] five@[i]) < 10,
        ensures
            final(self).wf(),
            final(self).camera == old(self).camera,
            final(self).owner == old(self).owner,
            final(self).model_id == old(self).model_id,
            final(self).builder@ == old(self).builder@,
            final(self).frames@ == old(self).frames@,
            final(self).resets == old(self).resets,
            final(self).skipped == old(self).skipped,
            final(self).next_sequence == old(self).next_sequence + 1,
            sequence@ == sequence_of(
                block@,
                five@,
                old(self).owner@,
                old(self).next_sequence,
                old(self).model_id@,
                descriptor@,
                norm_error,
                ascending(within(old(self).builder@.history, block_ids(block@), 2)),
            ),
    {
        let mut members: Vec<Key> = Vec::new();
        for i in 0..block.len()
            invariant
                block@.len() == SEQUENCE_LENGTH,
                members@.len() == i,
                forall|k: int| 0 <= k < i ==> (#[trigger] members@[k]) == block@[k].record.key,
        {
            members.push(block[i].record.key.clone());
        }
        let mut selected: Vec<Key> = Vec::new();
        for i in 0..5usize
            invariant
                block@.len() == SEQUENCE_LENGTH,
                forall|i: int| 0 <= i < 5 ==> (#[trigger] five@[i]) < 10,
                selected@.len() == i,
                forall|k: int|
                    0 <= k < i ==> (#[trigger] selected@[k]) == block@[five@[k] as int].record.key,
        {
            let place: usize = five[i];
            assert(place == five@[i as int]);
            selected.push(block[place].record.key.clone());
        }
        let excluded_keyframes = self.builder.neighborhood(&members);
        let key = Key {
            robot: self.owner.robot.clone(),
            session: self.owner.session.clone(),
            id: self.next_sequence,
        };
        self.next_sequence = self.next_sequence + 1;
        let sequence = Sequence {
            key,
            members,
            selected,
            start_ns: block[0].record.timestamp_ns,
            end_ns: block[9].record.timestamp_ns,
            model_id: self.model_id.clone(),
            descriptor,
            norm_error,
            excluded_keyframes,
        };
        proof {
            assert(key_ids(sequence.members@) =~= block_ids(block@)) by {
                assert forall|x: u64| key_ids(sequence.members@).contains(x) <==> block_ids(
                    block@,
                ).contains(x) by {
                    if key_ids(sequence.members@).contains(x) {
                        let i = choose|i: int|
                            0 <= i < sequence.members@.len() && (
                            #[trigger] sequence.members@[i]).id == x;
                        assert(block@[i].record.key@.id == x);
                    }
                    if block_ids(block@).contains(x) {
                        let i = choose|i: int|
                            0 <= i < block@.len() && (#[trigger] block@[i]).record.key@.id == x;
                        assert(sequence.members@[i].id == x);
                    }
                }
            }
            assert(key_models(sequence.members@) =~= Seq::new(
                10,
                |i: int| block@[i].record.key@,
            ));
            assert(key_models(sequence.selected@) =~= Seq::new(
                5,
                |i: int| block@[five@[i] as int].record.key@,
            ));
        }
        sequence
    }

    /// Takes the frame of a keyframe out.
    pub fn take_frame(&mut self, id: u64) -> (frame: Option<P>)
        ensures
            frame == if old(self).frames@.contains_key(id) {
                Some(old(self).frames@[id])
            } else {
                None::<P>
            },
            final(self).frames@ == old(self).frames@.remove(id),
            old(self).wf() && old(self).builder@.pending.len() == 0 ==> final(self).wf(),
            final(self).builder == old(self).builder,
            final(self).camera == old(self).camera,
            final(self).owner == old(self).owner,
            final(self).next_sequence == old(self).next_sequence,
            final(self).model_id == old(self).model_id,
            final(self).resets == old(self).resets,
            final(self).skipped == old(self).skipped,
    {
        self.frames.remove(&id)
    }

    /// Lets go of all frames, once a sequence is complete.
    pub fn close(&mut self)
        ensures
            final(self).frames@ == Map::<u64, P>::empty(),
            old(self).wf() && old(self).builder@.pending.len() == 0 ==> final(self).wf(),
            final(self).builder == old(self).builder,
            final(self).camera == old(self).camera,
            final(self).owner == old(self).owner,
            final(self).next_sequence == old(self).next_sequence,
            final(self).model_id == old(self).model_id,
            final(self).resets == old(self).resets,
            final(self).skipped == old(self).skipped,
    {
        self.frames = BTreeMap::new();
    }
}

/// Puts the descriptors of the five keyframes of a sequence with their names. `norm_errors` is how far
/// their squared lengths are from one.
pub fn describe_frames(
    sequence: &Sequence,
    descriptors: Vec<u32>,
    norm_errors: Vec<u32>,
) -> (frames: FrameDescriptors)
    ensures
        frames.sequence == sequence.key,
        frames.frames@ == sequence.selected@,
        frames.descriptors == descriptors,
        frames.norm_errors == norm_errors,
{
    let mut names: Vec<Key> = Vec::new();
    for i in 0..sequence.selected.len()
        invariant
            names@ =~= sequence.selected@.take(i as int),
    {
        names.push(sequence.selected[i].clone());
    }
    assert(names@ =~= sequence.selected@);
    FrameDescriptors { sequence: sequence.key.clone(), frames: names, descriptors, norm_errors }
}

/// What an encoder makes of ten keyframes is accepted wherever sequences are taken in, provided that
/// time does not go back in it and the descriptor is a unit vector.
pub proof fn encoded_sequences_are_accepted(
    block: Seq<KeyframeMeta>,
    five: Seq<usize>,
    owner: KeyModel,
    id: u64,
    model_id: Seq<char>,
    descriptor: Seq<u32>,
    norm_error: u32,
    excluded: Seq<u64>,
)
    requires
        block.len() == SEQUENCE_LENGTH,
        block_wf(block),
        key_fault(owner) is None,
        model_id.len() > 0,
        unit_vector(descriptor, norm_error, 512),
        block[0].record.timestamp_ns <= block[9].record.timestamp_ns,
        forall|i: int| 0 <= i < block.len() ==> same_session((#[trigger] block[i]).record.key@, owner),
        five.len() == 5,
        forall|i: int| 0 <= i < 5 ==> (#[trigger] five[i]) < 10,
        forall|i: int, j: int| 0 <= i < j < 5 ==> (#[trigger] five[i]) < (#[trigger] five[j]),
    ensures
        sequence_fault(
            sequence_of(block, five, owner, id, model_id, descriptor, norm_error, excluded),
        ) is None,
{
    let s = sequence_of(block, five, owner, id, model_id, descriptor, norm_error, excluded);
    assert(key_fault(s.key) is None);
    assert forall|i: int| 0 <= i < s.members.len() implies same_session(
        #[trigger] s.members[i],
        s.key,
    ) by {
        assert(same_session(block[i].record.key@, owner));
    }
    assert forall|i: int, j: int| 0 <= i < j < s.members.len() implies (#[trigger] s.members[i]).id
        < (#[trigger] s.members[j]).id by {
        assert(block[i].record.key@.id < block[j].record.key@.id);
    }
    assert forall|i: int| 0 <= i < s.selected.len() implies s.members.contains(
        #[trigger] s.selected[i],
    ) by {
        assert(five[i] < 10);
        assert(s.members[five[i] as int] == s.selected[i]);
    }
    assert forall|i: int, j: int| 0 <= i < j < s.selected.len() implies (
    #[trigger] s.selected[i]).id < (#[trigger] s.selected[j]).id by {
        assert(five[i] < five[j] && five[j] < 10);
        assert(block[five[i] as int].record.key@.id < block[five[j] as int].record.key@.id);
    }
    assert(sequence_shape(s));
}

/// A tenth.
pub const MIN_DEPTH: u64 = 0x3fb9_9999_9999_999a;

/// A hundred and fifty.
pub const MAX_DEPTH: u64 = 0x4062_c000_0000_0000;

/// Three pixels.
pub const MAX_PIXEL_ERROR: u64 = 0x4008_0000_0000_0000;

/// A feature that a model found: its track, its pixel, and where its landmark lies before the camera
/// with how far that is from the pixel, as far as these are known.
#[derive(Clone, Copy, Debug, PartialEq, Eq)]
pub struct FoundFeature {
    pub track_id: u64,
    pub point: Option<Triple>,
    pub pixel_error: Option<u64>,
}

/// The point of a feature, where it lies at a sensible depth and agrees with the pixel.
pub open spec fn trusted_point(f: FoundFeature) -> Option<Triple> {
    match f.point {
        Some(p) => if f.pixel_error is Some && double_less(MIN_DEPTH, p.z) && double_less(
            p.z,
            MAX_DEPTH,
        ) && double_less(f.pixel_error->Some_0, MAX_PIXEL_ERROR) {
            Some(p)
        } else {
            None
        },
        None => None,
    }
}

fn point_of(f: &FoundFeature) -> (point: Option<Triple>)
    ensures
        point == trusted_point(*f),
{
    match (f.point, f.pixel_error) {
        (Some(p), Some(e)) => if is_double_less(MIN_DEPTH, p.z) && is_double_less(p.z, MAX_DEPTH)
            && is_double_less(e, MAX_PIXEL_ERROR) {
            Some(p)
        } else {
            None
        },
        _ => None,
    }
}

/// Makes the feature packet of a keyframe: one track and one point for each pixel that the model
/// kept.
pub fn feature_frame(
    key: &Key,
    timestamp_ns: i64,
    camera: CameraModel,
    features: &Vec<FoundFeature>,
    pixels: Vec<SinglePixel>,
    descriptors: Vec<u32>,
) -> (frame: FeatureFrame)
    ensures
        frame.key == *key,
        frame.timestamp_ns == timestamp_ns,
        frame.camera == camera,
        frame.pixels == pixels,
        frame.descriptors == descriptors,
        ({
            let n = if features@.len() < pixels@.len() {
                features@.len()
            } else {
                pixels@.len()
            };
            &&& frame.track_ids@ == Seq::new(n, |i: int| features@[i].track_id)
            &&& frame.points_camera@ == Seq::new(n, |i: int| trusted_point(features@[i]))
        }),
{
    let n: usize = if features.len() < pixels.len() {
        features.len()
    } else {
        pixels.len()
    };
    let mut track_ids: Vec<u64> = Vec::new();
    let mut points_camera: Vec<Option<Triple>> = Vec::new();
    for i in 0..n
        invariant
            n <= features@.len(),
            track_ids@ == Seq::new(i as nat, |k: int| features@[k].track_id),
            points_camera@ == Seq::new(i as nat, |k: int| trusted_point(features@[k])),
    {
        track_ids.push(features[i].track_id);
        points_camera.push(point_of(&features[i]));
        assert(track_ids@ =~= Seq::new((i + 1) as nat, |k: int| features@[k].track_id));
        assert(points_camera@ =~= Seq::new((i + 1) as nat, |k: int| trusted_point(features@[k])));
    }
    FeatureFrame {
        key: key.clone(),
        timestamp_ns,
        camera,
        pixels,
        descriptors,
        track_ids,
        points_camera,
    }
}

/// The point of a feature is known exactly where it was given together with its distance from the pixel, lies
/// between the least and the greatest depth, and is less than three pixels off; and then as it was given.
pub proof fn points_are_near_and_agree(f: FoundFeature)
    ensures
        trusted_point(f) is Some <==> {
            &&& f.point is Some
            &&& f.pixel_error is Some
            &&& double_less(0x3fb9_9999_9999_999a, f.point->0.z)
            &&& double_less(f.point->0.z, 0x4062_c000_0000_0000)
            &&& double_less(f.pixel_error->0, 0x4008_0000_0000_0000)
        },
        trusted_point(f) is Some ==> trusted_point(f) == f.point,
{
}

/// An encoder is accepted exactly where its matcher takes 128 features and its camera and owner are sound; a
/// frame exactly where it is of the owner's session and under its own number.
pub proof fn encoders_take_their_own_frames(
    matcher_keypoints: usize,
    camera: CameraModel,
    owner: KeyModel,
    index: u64,
    key: KeyModel,
)
    ensures
        encoder_fault(matcher_keypoints, camera, owner) is None <==> matcher_keypoints == 128
            && camera_fault(camera) is None && key_fault(owner) is None,
        frame_fault(owner, index, key) is None <==> key.robot == owner.robot && key.session
            == owner.session && key.id == index,
{
}

/// A sequence is named after its owner and its number, its members are the ten keyframes of its block, those
/// selected stand at the five places, and it lasts from the time of the first to that of the last.
pub proof fn sequences_tell_their_block(
    block: Seq<KeyframeMeta>,
    five: Seq<usize>,
    owner: KeyModel,
    id: u64,
    model_id: Seq<char>,
    descriptor: Seq<u32>,
    norm_error: u32,
    excluded: Seq<u64>,
)
    requires
        block.len() == 10,
        five.len() == 5,
    ensures
        ({
            let s = sequence_of(
                block,
                five,
                owner,
                id,
                model_id,
                descriptor,
                norm_error,
                excluded,
            );
            &&& s.key.robot == owner.robot
            &&& s.key.session == owner.session
            &&& s.key.id == id
            &&& s.members.len() == 10
            &&& forall|i: int|
                0 <= i < 10 ==> #[trigger] s.members[i] == block[i].record.key@
            &&& s.selected.len() == 5
            &&& forall|i: int|
                0 <= i < 5 ==> #[trigger] s.selected[i] == block[five[i] as int].record.key@
            &&& s.start_ns == block[0].record.timestamp_ns
            &&& s.end_ns == block[9].record.timestamp_ns
            &&& s.model_id == model_id
            &&& s.descriptor == descriptor
            &&& s.norm_error == norm_error
            &&& s.excluded_keyframes == excluded
        }),
        forall|n: u64| #[trigger]
            block_ids(block).contains(n) <==> exists|i: int|
                0 <= i < 10 && (#[trigger] block[i]).record.key@.id == n,
{
    assert forall|n: u64| #[trigger] block_ids(block).contains(n) <==> exists|i: int|
        0 <= i < 10 && (#[trigger] block[i]).record.key@.id == n by {}
}

impl<P> Encoder<P> {
    /// A gap gives up the frames that were held. A frame that is kept is held under its number; one that is
    /// skipped is not.
    pub proof fn frames_are_held_while_pending(&self, index: u64, frame: P, meta: KeyframeMeta, n: u64)
        ensures
            ({
                let held = self.held(index, frame, meta);
                let gap = self.builder@.resets(meta);
                let skip = self.builder@.skips(meta);
                &&& !skip ==> held.contains_key(index) && held[index] == frame
                &&& n != index || skip ==> (held.contains_key(n) <==> !gap
                    && self.frames@.contains_key(n))
                &&& (n != index || skip) && held.contains_key(n) ==> held[n] == self.frames@[n]
            }),
    {
    }
}

/// What a model is named after is the text of the mode, the three models one after the other, and the number
/// of features, 128, its lowest byte first.
pub proof fn model_names_cover_all_models(jist: Seq<u8>, xfeat: Seq<u8>, lighterglue: Seq<u8>)
    ensures
        ({
            let head = encode_utf8("visloc-jist-imagenet-rgb-five-xfeat-lighterglue-v1"@);
            let m = model_material(jist, xfeat, lighterglue);
            let a = head.len() as int;
            let b = a + jist.len();
            let c = b + xfeat.len();
            let d = c + lighterglue.len();
            &&& m.len() == d + usize::BITS / 8
            &&& m.subrange(0, a) == head
            &&& m.subrange(a, b) == jist
            &&& m.subrange(b, c) == xfeat
            &&& m.subrange(c, d) == lighterglue
            &&& usize::BITS >= 8 ==> m[d] == 128
            &&& forall|i: int| d < i < m.len() ==> #[trigger] m[i] == 0
        }),
{
    let head = encode_utf8("visloc-jist-imagenet-rgb-five-xfeat-lighterglue-v1"@);
    let m = model_material(jist, xfeat, lighterglue);
    let a = head.len() as int;
    let b = a + jist.len();
    let c = b + xfeat.len();
    let d = c + lighterglue.len();
    assert(m.subrange(0, a) =~= head);
    assert(m.subrange(a, b) =~= jist);
    assert(m.subrange(b, c) =~= xfeat);
    assert(m.subrange(c, d) =~= lighterglue);
}

/// The five keyframes that stand for ten are the two ends and three between them, in growing order, such that
/// no other such choice is cheaper.
pub proof fn five_stand_for_ten(costs: Seq<u64>, i: int)
    requires
        costs.len() == all_middles().len(),
        0 <= i < costs.len(),
    ensures
        ({
            let five = five_for(costs);
            &&& five.len() == 5
            &&& five[0] == 0
            &&& 0 < five[1] < five[2] < five[3] < 9
            &&& five[4] == 9
            &&& exists|k: int|
                0 <= k < costs.len() && #[trigger] all_middles()[k] == (Middle {
                    a: five[1],
                    b: five[2],
                    c: five[3],
                }) && !double_less(costs[i], costs[k])
        }),
{
    no_choice_is_cheaper(costs, i);
    let k = cheapest(costs, costs.len() as int).0;
    let m = all_middles()[k];
    assert(all_middles().contains(m));
    middles_are_all_between_the_ends(m);
    assert(m == (Middle { a: m.a, b: m.b, c: m.c }));
}

} // verus!

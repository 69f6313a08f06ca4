//! The tables of a marginalization packet: which frames, blocks, images and raw observations it
//! carries.
use crate::basalt::estimator::{BasaltVioEstimator, OfImageData, OfObservationData};
use crate::basalt::marginalization::MarginalizationPlan;
use crate::basalt::problem::WindowProblem;
use crate::basalt::window::{
    aom_order, blocks, frames_are_members, AomBlockData, Frames, WindowPose, WindowState,
};
use crate::ordered::{
    ascending, ascending_lists_members, contains_id, copy_list, copy_list_of, filter_members,
    filter_next, list_of, lists, map_keys,
    sorted_unique,
};
use std::collections::BTreeMap;
use vstd::prelude::*;

verus! {

broadcast use vstd::std_specs::btree::group_btree_axioms;

/// The tables of a packet.
#[derive(Debug)]
pub struct MargTables {
    pub frame_poses: Vec<WindowPose>,
    pub frame_states: Vec<WindowState>,
    pub keyframes: Vec<u64>,
    pub kf_to_marg: Vec<(u64, u64)>,
    pub kfs_to_marg: Vec<u64>,
    pub aom_order: Vec<AomBlockData>,
    pub of_images: Vec<OfImageData>,
    pub of_observations: Vec<OfObservationData>,
    pub used_imu: bool,
}

/// The lists under several keys, one behind the other.
pub open spec fn gather<T>(m: Map<u64, Seq<T>>, ids: Seq<u64>) -> Seq<T>
    decreases ids.len(),
{
    if ids.len() == 0 {
        Seq::empty()
    } else {
        gather(m, ids.drop_last()) + list_of(m, ids.last())
    }
}

/// Whether an image precedes another in the order by frame, then time, then camera.
pub open spec fn image_before(a: OfImageData, b: OfImageData) -> bool {
    if a.frame_id != b.frame_id {
        a.frame_id < b.frame_id
    } else if a.timestamp_ns != b.timestamp_ns {
        a.timestamp_ns < b.timestamp_ns
    } else {
        a.camera_id < b.camera_id
    }
}

/// Where an image goes among the first `n` of an ordered list: behind all that do not follow it.
pub open spec fn image_place(s: Seq<OfImageData>, x: OfImageData, n: int) -> int
    decreases n,
{
    if n <= 0 || !image_before(x, s[n - 1]) {
        n
    } else {
        image_place(s, x, n - 1)
    }
}

/// The images in the order by frame, then time, then camera; equal ones keep their order.
pub open spec fn ordered_images(s: Seq<OfImageData>) -> Seq<OfImageData>
    decreases s.len(),
{
    if s.len() == 0 {
        Seq::empty()
    } else {
        let front = ordered_images(s.drop_last());
        front.insert(image_place(front, s.last(), front.len() as int), s.last())
    }
}

/// The frames whose images and raw observations a packet carries: the keyframes of the window, and
/// those that leave it.
pub open spec fn image_frames(w: Frames, leaving: Seq<u64>) -> Seq<u64> {
    ascending((w.keyframes() + leaving).to_set())
}

/// The keyframes that leave, without the frames that give them up.
pub open spec fn first_parts(pairs: Seq<(u64, u64)>) -> Seq<u64> {
    pairs.map_values(|p: (u64, u64)| p.0)
}

/// What the tables of a packet hold. `leaving` are the keyframes that leave, and `order` the blocks
/// of unknowns.
pub open spec fn tables_of(
    t: MargTables,
    e: BasaltVioEstimator,
    leaving: Seq<u64>,
    order: Seq<AomBlockData>,
    used_imu: bool,
) -> bool {
    let frames = image_frames(e.window@, leaving);
    &&& t.frame_poses@ == e.window@.poses
    &&& t.frame_states@ == e.window@.states
    &&& t.keyframes@ == e.window@.keyframes()
    &&& t.kf_to_marg@ == e.last_kf_to_marg@
    &&& t.kfs_to_marg@ == first_parts(e.last_kf_to_marg@)
    &&& t.aom_order@ == order
    &&& t.of_images@ == ordered_images(gather(lists(e.of_images@), frames))
    &&& t.of_observations@ == gather(
        lists(e.of_observations@),
        ascending(e.of_observations@.dom()).filter(|id: u64| frames.contains(id)),
    )
    &&& t.used_imu == used_imu
}

fn is_image_before(a: &OfImageData, b: &OfImageData) -> (before: bool)
    ensures
        before == image_before(*a, *b),
{
    if a.frame_id != b.frame_id {
        a.frame_id < b.frame_id
    } else if a.timestamp_ns != b.timestamp_ns {
        a.timestamp_ns < b.timestamp_ns
    } else {
        a.camera_id < b.camera_id
    }
}

fn order_images(images: &Vec<OfImageData>) -> (sorted: Vec<OfImageData>)
    ensures
        sorted@ == ordered_images(images@),
{
    let mut sorted: Vec<OfImageData> = Vec::new();
    for i in 0..images.len()
        invariant
            sorted@.len() == i,
            sorted@ == ordered_images(images@.take(i as int)),
    {
        let next = images[i];
        let mut place: usize = sorted.len();
        while place > 0 && is_image_before(&next, &sorted[place - 1])
            invariant
                place <= sorted@.len(),
                image_place(sorted@, next, place as int) == image_place(
                    sorted@,
                    next,
                    sorted@.len() as int,
                ),
            decreases place,
        {
            place = place - 1;
        }
        sorted.insert(place, next);
        proof {
            let prefix = images@.take(i + 1);
            assert(prefix.drop_last() =~= images@.take(i as int));
            assert(prefix.last() == next);
            assert(sorted@ =~= ordered_images(prefix));
        }
    }
    assert(images@.take(images@.len() as int) =~= images@);
    sorted
}

fn gather_lists<T: Copy>(m: &BTreeMap<u64, Vec<T>>, ids: &Vec<u64>) -> (all: Vec<T>)
    ensures
        all@ == gather(lists(m@), ids@),
{
    let mut all: Vec<T> = Vec::new();
    for i in 0..ids.len()
        invariant
            all@ == gather(lists(m@), ids@.take(i as int)),
    {
        proof {
            assert(ids@.take(i + 1).drop_last() =~= ids@.take(i as int));
            assert(ids@.take(i + 1).last() == ids@[i as int]);
        }
        let mut more = copy_list_of(m, ids[i]);
        all.append(&mut more);
    }
    assert(ids@.take(ids@.len() as int) =~= ids@);
    all
}

fn kept_ids(ids: &Vec<u64>, wanted: &Vec<u64>) -> (kept: Vec<u64>)
    ensures
        kept@ == ids@.filter(|id: u64| wanted@.contains(id)),
{
    let ghost keep = |id: u64| wanted@.contains(id);
    let mut kept: Vec<u64> = Vec::new();
    proof {
        reveal(Seq::filter);
        assert(ids@.take(0).filter(keep) =~= Seq::empty());
    }
    for i in 0..ids.len()
        invariant
            keep == (|id: u64| wanted@.contains(id)),
            kept@ == ids@.take(i as int).filter(keep),
    {
        proof {
            filter_next(ids@, keep, i as int);
        }
        if contains_id(wanted, ids[i]) {
            kept.push(ids[i]);
        }
    }
    assert(ids@.take(ids@.len() as int) =~= ids@);
    kept
}

impl BasaltVioEstimator {
    fn leaving_keyframes(&self) -> (ids: Vec<u64>)
        ensures
            ids@ == first_parts(self.last_kf_to_marg@),
    {
        let mut ids: Vec<u64> = Vec::new();
        for i in 0..self.last_kf_to_marg.len()
            invariant
                ids@ =~= first_parts(self.last_kf_to_marg@).take(i as int),
        {
            ids.push(self.last_kf_to_marg[i].0);
        }
        assert(ids@ =~= first_parts(self.last_kf_to_marg@));
        ids
    }

    fn tables(&self, leaving: &Vec<u64>, order: Vec<AomBlockData>, used_imu: bool) -> (tables: MargTables)
        ensures
            tables_of(tables, *self, leaving@, order@, used_imu),
    {
        let keyframes = self.window.keyframes();
        let mut wanted = copy_list(&keyframes);
        let mut more = copy_list(leaving);
        wanted.append(&mut more);
        let frames = sorted_unique(&wanted);
        let images = gather_lists(&self.of_images, &frames);
        let observed = map_keys(&self.of_observations);
        let kept = kept_ids(&observed, &frames);
        MargTables {
            frame_poses: copy_list(&self.window.poses),
            frame_states: copy_list(&self.window.states),
            keyframes,
            kf_to_marg: copy_list(&self.last_kf_to_marg),
            kfs_to_marg: self.leaving_keyframes(),
            aom_order: order,
            of_images: order_images(&images),
            of_observations: gather_lists(&self.of_observations, &kept),
            used_imu,
        }
    }

    /// The tables of the packet that a marginalization sends, before the window shifts: the blocks
    /// are those of the marginalized problem, and the images include those of the poses that leave.
    pub fn emit_pre_marg(&self, aom: &WindowProblem, plan: &MarginalizationPlan) -> (tables: MargTables)
        requires
            6 * aom@.poses.len() + 15 * aom@.states.len() <= usize::MAX,
        ensures
            tables_of(
                tables,
                *self,
                plan@.drop_poses,
                blocks(aom@.poses, aom@.states),
                self.last_kf_to_marg@.len() > 0 || self.window@.links.len() > 0,
            ),
    {
        let order = aom_order(&aom.poses, &aom.states);
        let used_imu = self.last_kf_to_marg.len() > 0 || self.window.imu_links.len() > 0;
        self.tables(&plan.drop_poses, order, used_imu)
    }

    /// The tables of the packet of a frame that marginalizes nothing.
    pub fn emit_marg(&self) -> (tables: MargTables)
        requires
            self.window@.dof() <= usize::MAX,
        ensures
            tables_of(
                tables,
                *self,
                first_parts(self.last_kf_to_marg@),
                blocks(self.window@.poses, self.window@.states),
                self.window@.links.len() > 0,
            ),
    {
        let order = aom_order(&self.window.poses, &self.window.states);
        let leaving = self.leaving_keyframes();
        self.tables(&leaving, order, self.window.imu_links.len() > 0)
    }
}

/// Every image that is kept for a keyframe of the window or for a keyframe that leaves is in the
/// packet.
pub proof fn packet_carries_leaving_images(
    t: MargTables,
    e: BasaltVioEstimator,
    leaving: Seq<u64>,
    order: Seq<AomBlockData>,
    used_imu: bool,
    frame_id: u64,
    image: OfImageData,
)
    requires
        tables_of(t, e, leaving, order, used_imu),
        leaving.contains(frame_id) || e.window@.keyframes().contains(frame_id),
        list_of(lists(e.of_images@), frame_id).contains(image),
    ensures
        t.of_images@.contains(image),
{
    let frames = image_frames(e.window@, leaving);
    let wanted = e.window@.keyframes() + leaving;
    vstd::seq_lib::lemma_seq_concat_contains_all_elements(e.window@.keyframes(), leaving, frame_id);
    vstd::seq_lib::seq_to_set_is_finite(wanted);
    crate::ordered::ascending_lists_members(wanted.to_set());
    assert(wanted.to_set().contains(frame_id));
    assert(frames.to_set().contains(frame_id));
    gather_contains(lists(e.of_images@), frames, frame_id, image);
    ordered_images_contain(gather(lists(e.of_images@), frames), image);
}

proof fn gather_contains<T>(m: Map<u64, Seq<T>>, ids: Seq<u64>, id: u64, x: T)
    requires
        ids.contains(id),
        list_of(m, id).contains(x),
    ensures
        gather(m, ids).contains(x),
    decreases ids.len(),
{
    let i = choose|i: int| 0 <= i < ids.len() && ids[i] == id;
    let front = gather(m, ids.drop_last());
    let last = list_of(m, ids.last());
    vstd::seq_lib::lemma_seq_concat_contains_all_elements(front, last, x);
    if i < ids.len() - 1 {
        assert(ids.drop_last()[i] == id);
        gather_contains(m, ids.drop_last(), id, x);
    }
}

proof fn image_place_bounds(s: Seq<OfImageData>, x: OfImageData, n: int)
    requires
        0 <= n <= s.len(),
    ensures
        0 <= image_place(s, x, n) <= n,
    decreases n,
{
    if n > 0 && image_before(x, s[n - 1]) {
        image_place_bounds(s, x, n - 1);
    }
}

proof fn ordered_images_contain(s: Seq<OfImageData>, x: OfImageData)
    requires
        s.contains(x),
    ensures
        ordered_images(s).contains(x),
    decreases s.len(),
{
    let i = choose|i: int| 0 <= i < s.len() && s[i] == x;
    let front = ordered_images(s.drop_last());
    let place = image_place(front, s.last(), front.len() as int);
    image_place_bounds(front, s.last(), front.len() as int);
    let all = ordered_images(s);
    if i == s.len() - 1 {
        assert(all[place] == x);
    } else {
        assert(s.drop_last()[i] == x);
        ordered_images_contain(s.drop_last(), x);
        let k = choose|k: int| 0 <= k < front.len() && front[k] == x;
        let j = if k < place { k } else { k + 1 };
        assert(all[j] == x);
    }
}

/// The packet carries the images of the keyframes of the window and of the frames that leave, and no other,
/// by frame, then time, then camera, each as often as it is kept.
pub proof fn packet_images_are_of_its_keyframes(
    t: MargTables,
    e: BasaltVioEstimator,
    leaving: Seq<u64>,
    order: Seq<AomBlockData>,
    used_imu: bool,
)
    requires
        tables_of(t, e, leaving, order, used_imu),
    ensures
        forall|image: OfImageData| #[trigger]
            t.of_images@.contains(image) ==> exists|id: u64|
                (leaving.contains(id) || e.window@.keyframes().contains(id)) && (
                #[trigger] e.of_images@.contains_key(id)) && e.of_images@[id]@.contains(image),
        forall|i: int, j: int|
            0 <= i < j < t.of_images@.len() ==> {
                let a = #[trigger] t.of_images@[i];
                let b = #[trigger] t.of_images@[j];
                &&& a.frame_id <= b.frame_id
                &&& a.frame_id == b.frame_id ==> a.timestamp_ns <= b.timestamp_ns
                &&& a.frame_id == b.frame_id && a.timestamp_ns == b.timestamp_ns ==> a.camera_id
                    <= b.camera_id
            },
{
    let frames = image_frames(e.window@, leaving);
    let all = gather(lists(e.of_images@), frames);
    ordered_images_are(all);
    image_frames_are(e.window@, leaving);
    assert forall|image: OfImageData| #[trigger] t.of_images@.contains(image) implies exists|
        id: u64,
    |
        (leaving.contains(id) || e.window@.keyframes().contains(id)) && (
        #[trigger] e.of_images@.contains_key(id)) && e.of_images@[id]@.contains(image) by {
        broadcast use vstd::seq_lib::group_to_multiset_ensures;

        assert(ordered_images(all).to_multiset().contains(image));
        assert(all.contains(image));
        gathered_from(lists(e.of_images@), frames, image);
        let id = choose|id: u64| #[trigger]
            frames.contains(id) && list_of(lists(e.of_images@), id).contains(image);
        assert(e.of_images@.contains_key(id));
    }
}

proof fn image_frames_are(w: Frames, leaving: Seq<u64>)
    ensures
        forall|id: u64| #[trigger]
            image_frames(w, leaving).contains(id) <==> w.keyframes().contains(id)
                || leaving.contains(id),
{
    let all = w.keyframes() + leaving;
    let list = ascending(all.to_set());
    ascending_lists_members(all.to_set());
    assert forall|id: u64| #[trigger] list.contains(id) <==> w.keyframes().contains(id)
        || leaving.contains(id) by {
        assert(list.to_set().contains(id) <==> all.to_set().contains(id));
        if w.keyframes().contains(id) {
            let i = choose|i: int| 0 <= i < w.keyframes().len() && w.keyframes()[i] == id;
            assert(all[i] == id);
        }
        if leaving.contains(id) {
            let i = choose|i: int| 0 <= i < leaving.len() && leaving[i] == id;
            assert(all[w.keyframes().len() + i] == id);
        }
        if all.contains(id) {
            let i = choose|i: int| 0 <= i < all.len() && all[i] == id;
            if i < w.keyframes().len() {
                assert(w.keyframes()[i] == id);
            } else {
                assert(leaving[i - w.keyframes().len()] == id);
            }
        }
    }
}

proof fn gathered_from<T>(m: Map<u64, Seq<T>>, ids: Seq<u64>, x: T)
    requires
        gather(m, ids).contains(x),
    ensures
        exists|id: u64| #[trigger] ids.contains(id) && list_of(m, id).contains(x),
    decreases ids.len(),
{
    if ids.len() > 0 {
        let front = gather(m, ids.drop_last());
        let all = gather(m, ids);
        let i = choose|i: int| 0 <= i < all.len() && all[i] == x;
        if i < front.len() {
            assert(front[i] == x);
            gathered_from(m, ids.drop_last(), x);
            let id = choose|id: u64| #[trigger]
                ids.drop_last().contains(id) && list_of(m, id).contains(x);
            let k = choose|k: int| 0 <= k < ids.len() - 1 && ids.drop_last()[k] == id;
            assert(ids[k] == id);
            assert(ids.contains(id));
        } else {
            assert(list_of(m, ids.last())[i - front.len()] == x);
            assert(list_of(m, ids.last()).contains(x));
            assert(ids[ids.len() - 1] == ids.last());
            assert(ids.contains(ids.last()));
        }
    }
}

proof fn image_place_is_right(s: Seq<OfImageData>, x: OfImageData, n: int)
    requires
        0 <= n <= s.len(),
    ensures
        0 <= image_place(s, x, n) <= n,
        forall|k: int| image_place(s, x, n) <= k < n ==> image_before(x, #[trigger] s[k]),
        image_place(s, x, n) > 0 ==> !image_before(x, s[image_place(s, x, n) - 1]),
    decreases n,
{
    if n > 0 && image_before(x, s[n - 1]) {
        image_place_is_right(s, x, n - 1);
    }
}

proof fn ordered_images_are(s: Seq<OfImageData>)
    ensures
        ordered_images(s).to_multiset() == s.to_multiset(),
        ordered_images(s).len() == s.len(),
        forall|i: int, j: int|
            0 <= i < j < s.len() ==> {
                let a = #[trigger] ordered_images(s)[i];
                let b = #[trigger] ordered_images(s)[j];
                &&& a.frame_id <= b.frame_id
                &&& a.frame_id == b.frame_id ==> a.timestamp_ns <= b.timestamp_ns
                &&& a.frame_id == b.frame_id && a.timestamp_ns == b.timestamp_ns ==> a.camera_id
                    <= b.camera_id
            },
    decreases s.len(),
{
    broadcast use vstd::seq_lib::group_to_multiset_ensures;

    if s.len() > 0 {
        let front = ordered_images(s.drop_last());
        let x = s.last();
        ordered_images_are(s.drop_last());
        let place = image_place(front, x, front.len() as int);
        image_place_is_right(front, x, front.len() as int);
        let all = ordered_images(s);
        assert(all == front.insert(place, x));
        assert(s =~= s.drop_last().push(x));
        assert forall|i: int, j: int| 0 <= i < j < all.len() implies {
            let a = #[trigger] all[i];
            let b = #[trigger] all[j];
            &&& a.frame_id <= b.frame_id
            &&& a.frame_id == b.frame_id ==> a.timestamp_ns <= b.timestamp_ns
            &&& a.frame_id == b.frame_id && a.timestamp_ns == b.timestamp_ns ==> a.camera_id
                <= b.camera_id
        } by {
            if i < place {
                assert(all[i] == front[i]);
            } else if i > place {
                assert(all[i] == front[i - 1]);
            }
            if j < place {
                assert(all[j] == front[j]);
            } else if j > place {
                assert(all[j] == front[j - 1]);
            }
            if i < place && j == place {
                assert(!image_before(x, front[place - 1]));
                if i < place - 1 {
                    assert(front[i].frame_id <= front[place - 1].frame_id);
                }
            }
            if i == place {
                assert(image_before(x, front[j - 1]));
            }
        }
    }
}

/// The packet carries exactly the raw observations that are kept for the keyframes of the window and for the
/// frames that leave, frame by frame in ascending order.
pub proof fn packet_observations_are_of_its_keyframes(
    t: MargTables,
    e: BasaltVioEstimator,
    leaving: Seq<u64>,
    order: Seq<AomBlockData>,
    used_imu: bool,
    o: OfObservationData,
)
    requires
        tables_of(t, e, leaving, order, used_imu),
        e.of_observations@.dom().finite(),
    ensures
        t.of_observations@.contains(o) <==> exists|id: u64|
            (leaving.contains(id) || e.window@.keyframes().contains(id)) && (
            #[trigger] e.of_observations@.contains_key(id)) && e.of_observations@[id]@.contains(o),
        t.frame_poses@ == e.window@.poses,
        t.frame_states@ == e.window@.states,
        t.aom_order@ == order,
        t.used_imu == used_imu,
        forall|id: u64| #[trigger]
            t.keyframes@.contains(id) <==> (exists|i: int|
                0 <= i < e.window@.poses.len() && (#[trigger] e.window@.poses[i]).frame_id == id)
                || (exists|i: int|
                0 <= i < e.window@.states.len() && (#[trigger] e.window@.states[i]).frame_id == id
                    && e.window@.states[i].is_keyframe),
        t.kf_to_marg@ == e.last_kf_to_marg@,
        t.kfs_to_marg@.len() == e.last_kf_to_marg@.len(),
        forall|i: int|
            0 <= i < t.kfs_to_marg@.len() ==> #[trigger] t.kfs_to_marg@[i]
                == e.last_kf_to_marg@[i].0,
{
    frames_are_members(e.window@);
    let m = lists(e.of_observations@);
    let frames = image_frames(e.window@, leaving);
    let keep = |id: u64| frames.contains(id);
    let all = ascending(e.of_observations@.dom());
    let ids = all.filter(keep);
    ascending_lists_members(e.of_observations@.dom());
    filter_members(all, keep);
    image_frames_are(e.window@, leaving);
    assert forall|id: u64| #[trigger] all.contains(id) <==> e.of_observations@.contains_key(id) by {
        assert(all.to_set().contains(id) <==> e.of_observations@.dom().contains(id));
    }
    if t.of_observations@.contains(o) {
        gathered_from(m, ids, o);
        let id = choose|id: u64| #[trigger] ids.contains(id) && list_of(m, id).contains(o);
        assert(e.of_observations@.contains_key(id));
    }
    if exists|id: u64|
        (leaving.contains(id) || e.window@.keyframes().contains(id)) && (
        #[trigger] e.of_observations@.contains_key(id)) && e.of_observations@[id]@.contains(o) {
        let id = choose|id: u64|
            (leaving.contains(id) || e.window@.keyframes().contains(id)) && (
            #[trigger] e.of_observations@.contains_key(id)) && e.of_observations@[id]@.contains(o);
        assert(all.contains(id));
        assert(ids.contains(id));
        assert(list_of(m, id).contains(o));
        gather_contains(m, ids, id, o);
    }
}

} // verus!

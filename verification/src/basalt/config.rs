//! The settings file: an object of known keys, each of which has to be there.
use crate::basalt::estimator::EstimatorConfig;
use crate::basalt::marginalization::WindowPolicy;
use crate::basalt::scalar::ScalarMode;
use crate::json::{json_object, member_keys, models, object_members, JsonMember, MemberModel};
use vstd::prelude::*;

verus! {

/// The keys of the settings, in their order.
pub open spec fn known_keys() -> Seq<Seq<char>> {
    seq![
        "config.optical_flow_type"@,
        "config.optical_flow_detection_grid_size"@,
        "config.optical_flow_max_recovered_dist2"@,
        "config.optical_flow_pattern"@,
        "config.optical_flow_max_iterations"@,
        "config.optical_flow_epipolar_error"@,
        "config.optical_flow_levels"@,
        "config.optical_flow_skip_frames"@,
        "config.vio_linearization_type"@,
        "config.vio_sqrt_marg"@,
        "config.vio_max_states"@,
        "config.vio_max_kfs"@,
        "config.vio_min_frames_after_kf"@,
        "config.vio_new_kf_keypoints_thresh"@,
        "config.vio_debug"@,
        "config.vio_extended_logging"@,
        "config.vio_obs_std_dev"@,
        "config.vio_obs_huber_thresh"@,
        "config.vio_min_triangulation_dist"@,
        "config.vio_outlier_threshold"@,
        "config.vio_filter_iteration"@,
        "config.vio_max_iterations"@,
        "config.vio_enforce_realtime"@,
        "config.vio_use_lm"@,
        "config.vio_lm_lambda_initial"@,
        "config.vio_lm_lambda_min"@,
        "config.vio_lm_lambda_max"@,
        "config.vio_lm_landmark_damping_variant"@,
        "config.vio_lm_pose_damping_variant"@,
        "config.vio_scale_jacobian"@,
        "config.vio_init_pose_weight"@,
        "config.vio_init_ba_weight"@,
        "config.vio_init_bg_weight"@,
        "config.vio_marg_lost_landmarks"@,
        "config.vio_kf_marg_feature_ratio"@,
        "config.mapper_obs_std_dev"@,
        "config.mapper_obs_huber_thresh"@,
        "config.mapper_detection_num_points"@,
        "config.mapper_num_frames_to_match"@,
        "config.mapper_frames_to_match_threshold"@,
        "config.mapper_min_matches"@,
        "config.mapper_ransac_threshold"@,
        "config.mapper_min_track_length"@,
        "config.mapper_max_hamming_distance"@,
        "config.mapper_second_best_test_ratio"@,
        "config.mapper_bow_num_bits"@,
        "config.mapper_min_triangulation_dist"@,
        "config.mapper_no_factor_weights"@,
        "config.mapper_use_factors"@,
        "config.mapper_use_lm"@,
        "config.mapper_lm_lambda_min"@,
        "config.mapper_lm_lambda_max"@,
    ]
}

fn add_key(keys: &mut Vec<String>, key: &str)
    ensures
        texts(final(keys)@) == texts(old(keys)@).push(key@),
{
    keys.push(key.to_owned());
    assert(texts(keys@) =~= texts(old(keys)@).push(key@));
}

/// Strings as text.
pub open spec fn texts(strings: Seq<String>) -> Seq<Seq<char>> {
    strings.map_values(|s: String| s@)
}

/// Lists the keys of the settings.
pub fn settings_keys() -> (keys: Vec<String>)
    ensures
        texts(keys@) == known_keys(),
{
    let mut keys: Vec<String> = Vec::new();
    assert(texts(keys@) =~= Seq::empty());
    add_key(&mut keys, "config.optical_flow_type");
    add_key(&mut keys, "config.optical_flow_detection_grid_size");
    add_key(&mut keys, "config.optical_flow_max_recovered_dist2");
    add_key(&mut keys, "config.optical_flow_pattern");
    add_key(&mut keys, "config.optical_flow_max_iterations");
    add_key(&mut keys, "config.optical_flow_epipolar_error");
    add_key(&mut keys, "config.optical_flow_levels");
    add_key(&mut keys, "config.optical_flow_skip_frames");
    add_key(&mut keys, "config.vio_linearization_type");
    add_key(&mut keys, "config.vio_sqrt_marg");
    add_key(&mut keys, "config.vio_max_states");
    add_key(&mut keys, "config.vio_max_kfs");
    add_key(&mut keys, "config.vio_min_frames_after_kf");
    add_key(&mut keys, "config.vio_new_kf_keypoints_thresh");
    add_key(&mut keys, "config.vio_debug");
    add_key(&mut keys, "config.vio_extended_logging");
    add_key(&mut keys, "config.vio_obs_std_dev");
    add_key(&mut keys, "config.vio_obs_huber_thresh");
    add_key(&mut keys, "config.vio_min_triangulation_dist");
    add_key(&mut keys, "config.vio_outlier_threshold");
    add_key(&mut keys, "config.vio_filter_iteration");
    add_key(&mut keys, "config.vio_max_iterations");
    add_key(&mut keys, "config.vio_enforce_realtime");
    add_key(&mut keys, "config.vio_use_lm");
    add_key(&mut keys, "config.vio_lm_lambda_initial");
    add_key(&mut keys, "config.vio_lm_lambda_min");
    add_key(&mut keys, "config.vio_lm_lambda_max");
    add_key(&mut keys, "config.vio_lm_landmark_damping_variant");
    add_key(&mut keys, "config.vio_lm_pose_damping_variant");
    add_key(&mut keys, "config.vio_scale_jacobian");
    add_key(&mut keys, "config.vio_init_pose_weight");
    add_key(&mut keys, "config.vio_init_ba_weight");
    add_key(&mut keys, "config.vio_init_bg_weight");
    add_key(&mut keys, "config.vio_marg_lost_landmarks");
    add_key(&mut keys, "config.vio_kf_marg_feature_ratio");
    add_key(&mut keys, "config.mapper_obs_std_dev");
    add_key(&mut keys, "config.mapper_obs_huber_thresh");
    add_key(&mut keys, "config.mapper_detection_num_points");
    add_key(&mut keys, "config.mapper_num_frames_to_match");
    add_key(&mut keys, "config.mapper_frames_to_match_threshold");
    add_key(&mut keys, "config.mapper_min_matches");
    add_key(&mut keys, "config.mapper_ransac_threshold");
    add_key(&mut keys, "config.mapper_min_track_length");
    add_key(&mut keys, "config.mapper_max_hamming_distance");
    add_key(&mut keys, "config.mapper_second_best_test_ratio");
    add_key(&mut keys, "config.mapper_bow_num_bits");
    add_key(&mut keys, "config.mapper_min_triangulation_dist");
    add_key(&mut keys, "config.mapper_no_factor_weights");
    add_key(&mut keys, "config.mapper_use_factors");
    add_key(&mut keys, "config.mapper_use_lm");
    add_key(&mut keys, "config.mapper_lm_lambda_min");
    add_key(&mut keys, "config.mapper_lm_lambda_max");
    keys
}

/// A number that tells the known keys apart: their length and three of their characters.
spec fn fingerprint(key: Seq<char>) -> int {
    let at = |i: int|
        if i < key.len() {
            key[i] as int
        } else {
            0
        };
    ((key.len() * 128 + at(17)) * 128 + at(22)) * 128 + at(25)
}

/// The place of the known key with a fingerprint.
spec fn place(code: int) -> int {
    if code == 52164608 {
        0
    } else if code == 83622516 {
        1
    } else if code == 83623013 {
        2
    } else if code == 58456690 {
        3
    } else if code == 73137268 {
        4
    } else if code == 73135340 {
        5
    } else if code == 56359795 {
        6
    } else if code == 66843878 {
        7
    } else if code == 62552052 {
        8
    } else if code == 43532288 {
        9
    } else if code == 45629440 {
        10
    } else if code == 39632896 {
        11
    } else if code == 64516325 {
        12
    } else if code == 72873972 {
        13
    } else if code == 33554432 {
        14
    } else if code == 58291182 {
        15
    } else if code == 47775744 {
        16
    } else if code == 58242163 {
        17
    } else if code == 70940265 {
        18
    } else if code == 60601071 {
        19
    } else if code == 58192111 {
        20
    } else if code == 54097792 {
        21
    } else if code == 58291821 {
        22
    } else if code == 35651584 {
        23
    } else if code == 60340073 {
        24
    } else if code == 51950720 {
        25
    } else if code == 51949696 {
        26
    } else if code == 81342445 {
        27
    } else if code == 72972391 {
        28
    } else if code == 54178944 {
        29
    } else if code == 58454760 {
        30
    } else if code == 54031232 {
        31
    } else if code == 54129536 {
        32
    } else if code == 64745709 {
        33
    } else if code == 68811365 {
        34
    } else if code == 53998080 {
        35
    } else if code == 64485736 {
        36
    } else if code == 72972149 {
        37
    } else if code == 70775540 {
        38
    } else if code == 83589089 {
        39
    } else if code == 53998592 {
        40
    } else if code == 64812147 {
        41
    } else if code == 64484837 {
        42
    } else if code == 72873183 {
        43
    } else if code == 77329119 {
        44
    } else if code == 56095091 {
        45
    } else if code == 77068140 {
        46
    } else if code == 66697573 {
        47
    } else if code == 53999488 {
        48
    } else if code == 43499520 {
        49
    } else if code == 58405097 {
        50
    } else if code == 58405089 {
        51
    } else {
        -1
    }
}

/// No key of the settings is listed twice.
#[verifier::rlimit(50)]
pub proof fn known_keys_are_distinct()
    ensures
        known_keys().no_duplicates(),
        known_keys().len() == 52,
{
    let keys = known_keys();
    reveal_strlit("config.optical_flow_type");
    assert(fingerprint("config.optical_flow_type"@) == 52164608);
    reveal_strlit("config.optical_flow_detection_grid_size");
    assert(fingerprint("config.optical_flow_detection_grid_size"@) == 83622516);
    reveal_strlit("config.optical_flow_max_recovered_dist2");
    assert(fingerprint("config.optical_flow_max_recovered_dist2"@) == 83623013);
    reveal_strlit("config.optical_flow_pattern");
    assert(fingerprint("config.optical_flow_pattern"@) == 58456690);
    reveal_strlit("config.optical_flow_max_iterations");
    assert(fingerprint("config.optical_flow_max_iterations"@) == 73137268);
    reveal_strlit("config.optical_flow_epipolar_error");
    assert(fingerprint("config.optical_flow_epipolar_error"@) == 73135340);
    reveal_strlit("config.optical_flow_levels");
    assert(fingerprint("config.optical_flow_levels"@) == 56359795);
    reveal_strlit("config.optical_flow_skip_frames");
    assert(fingerprint("config.optical_flow_skip_frames"@) == 66843878);
    reveal_strlit("config.vio_linearization_type");
    assert(fingerprint("config.vio_linearization_type"@) == 62552052);
    reveal_strlit("config.vio_sqrt_marg");
    assert(fingerprint("config.vio_sqrt_marg"@) == 43532288);
    reveal_strlit("config.vio_max_states");
    assert(fingerprint("config.vio_max_states"@) == 45629440);
    reveal_strlit("config.vio_max_kfs");
    assert(fingerprint("config.vio_max_kfs"@) == 39632896);
    reveal_strlit("config.vio_min_frames_after_kf");
    assert(fingerprint("config.vio_min_frames_after_kf"@) == 64516325);
    reveal_strlit("config.vio_new_kf_keypoints_thresh");
    assert(fingerprint("config.vio_new_kf_keypoints_thresh"@) == 72873972);
    reveal_strlit("config.vio_debug");
    assert(fingerprint("config.vio_debug"@) == 33554432);
    reveal_strlit("config.vio_extended_logging");
    assert(fingerprint("config.vio_extended_logging"@) == 58291182);
    reveal_strlit("config.vio_obs_std_dev");
    assert(fingerprint("config.vio_obs_std_dev"@) == 47775744);
    reveal_strlit("config.vio_obs_huber_thresh");
    assert(fingerprint("config.vio_obs_huber_thresh"@) == 58242163);
    reveal_strlit("config.vio_min_triangulation_dist");
    assert(fingerprint("config.vio_min_triangulation_dist"@) == 70940265);
    reveal_strlit("config.vio_outlier_threshold");
    assert(fingerprint("config.vio_outlier_threshold"@) == 60601071);
    reveal_strlit("config.vio_filter_iteration");
    assert(fingerprint("config.vio_filter_iteration"@) == 58192111);
    reveal_strlit("config.vio_max_iterations");
    assert(fingerprint("config.vio_max_iterations"@) == 54097792);
    reveal_strlit("config.vio_enforce_realtime");
    assert(fingerprint("config.vio_enforce_realtime"@) == 58291821);
    reveal_strlit("config.vio_use_lm");
    assert(fingerprint("config.vio_use_lm"@) == 35651584);
    reveal_strlit("config.vio_lm_lambda_initial");
    assert(fingerprint("config.vio_lm_lambda_initial"@) == 60340073);
    reveal_strlit("config.vio_lm_lambda_min");
    assert(fingerprint("config.vio_lm_lambda_min"@) == 51950720);
    reveal_strlit("config.vio_lm_lambda_max");
    assert(fingerprint("config.vio_lm_lambda_max"@) == 51949696);
    reveal_strlit("config.vio_lm_landmark_damping_variant");
    assert(fingerprint("config.vio_lm_landmark_damping_variant"@) == 81342445);
    reveal_strlit("config.vio_lm_pose_damping_variant");
    assert(fingerprint("config.vio_lm_pose_damping_variant"@) == 72972391);
    reveal_strlit("config.vio_scale_jacobian");
    assert(fingerprint("config.vio_scale_jacobian"@) == 54178944);
    reveal_strlit("config.vio_init_pose_weight");
    assert(fingerprint("config.vio_init_pose_weight"@) == 58454760);
    reveal_strlit("config.vio_init_ba_weight");
    assert(fingerprint("config.vio_init_ba_weight"@) == 54031232);
    reveal_strlit("config.vio_init_bg_weight");
    assert(fingerprint("config.vio_init_bg_weight"@) == 54129536);
    reveal_strlit("config.vio_marg_lost_landmarks");
    assert(fingerprint("config.vio_marg_lost_landmarks"@) == 64745709);
    reveal_strlit("config.vio_kf_marg_feature_ratio");
    assert(fingerprint("config.vio_kf_marg_feature_ratio"@) == 68811365);
    reveal_strlit("config.mapper_obs_std_dev");
    assert(fingerprint("config.mapper_obs_std_dev"@) == 53998080);
    reveal_strlit("config.mapper_obs_huber_thresh");
    assert(fingerprint("config.mapper_obs_huber_thresh"@) == 64485736);
    reveal_strlit("config.mapper_detection_num_points");
    assert(fingerprint("config.mapper_detection_num_points"@) == 72972149);
    reveal_strlit("config.mapper_num_frames_to_match");
    assert(fingerprint("config.mapper_num_frames_to_match"@) == 70775540);
    reveal_strlit("config.mapper_frames_to_match_threshold");
    assert(fingerprint("config.mapper_frames_to_match_threshold"@) == 83589089);
    reveal_strlit("config.mapper_min_matches");
    assert(fingerprint("config.mapper_min_matches"@) == 53998592);
    reveal_strlit("config.mapper_ransac_threshold");
    assert(fingerprint("config.mapper_ransac_threshold"@) == 64812147);
    reveal_strlit("config.mapper_min_track_length");
    assert(fingerprint("config.mapper_min_track_length"@) == 64484837);
    reveal_strlit("config.mapper_max_hamming_distance");
    assert(fingerprint("config.mapper_max_hamming_distance"@) == 72873183);
    reveal_strlit("config.mapper_second_best_test_ratio");
    assert(fingerprint("config.mapper_second_best_test_ratio"@) == 77329119);
    reveal_strlit("config.mapper_bow_num_bits");
    assert(fingerprint("config.mapper_bow_num_bits"@) == 56095091);
    reveal_strlit("config.mapper_min_triangulation_dist");
    assert(fingerprint("config.mapper_min_triangulation_dist"@) == 77068140);
    reveal_strlit("config.mapper_no_factor_weights");
    assert(fingerprint("config.mapper_no_factor_weights"@) == 66697573);
    reveal_strlit("config.mapper_use_factors");
    assert(fingerprint("config.mapper_use_factors"@) == 53999488);
    reveal_strlit("config.mapper_use_lm");
    assert(fingerprint("config.mapper_use_lm"@) == 43499520);
    reveal_strlit("config.mapper_lm_lambda_min");
    assert(fingerprint("config.mapper_lm_lambda_min"@) == 58405097);
    reveal_strlit("config.mapper_lm_lambda_max");
    assert(fingerprint("config.mapper_lm_lambda_max"@) == 58405089);
    assert forall|i: int| 0 <= i < 52 implies place(fingerprint(#[trigger] keys[i])) == i by {}
}

/// Why there are no settings, or why one cannot be read.
#[derive(Clone, Debug, PartialEq)]
pub enum ConfigError {
    Missing(String),
    Unknown(String),
    Wrapper,
    Value(String),
}

/// An error without the string that it holds.
#[verifier::ext_equal]
pub ghost enum Fault {
    Missing(Seq<char>),
    Unknown(Seq<char>),
    Wrapper,
    Value(Seq<char>),
}

impl View for ConfigError {
    type V = Fault;

    open spec fn view(&self) -> Fault {
        match self {
            ConfigError::Missing(key) => Fault::Missing(key@),
            ConfigError::Unknown(key) => Fault::Unknown(key@),
            ConfigError::Wrapper => Fault::Wrapper,
            ConfigError::Value(reason) => Fault::Value(reason@),
        }
    }
}

impl ConfigError {
    /// The text of an error.
    pub open spec fn text(self) -> Seq<char> {
        match self {
            ConfigError::Missing(key) => "missing config key: "@ + key@,
            ConfigError::Unknown(key) => "unknown config key: "@ + key@,
            ConfigError::Wrapper => "invalid config wrapper"@,
            ConfigError::Value(reason) => "invalid config value: "@ + reason@,
        }
    }

    /// Writes an error out.
    pub fn message(&self) -> (message: String)
        ensures
            message@ == self.text(),
    {
        let mut out = String::new();
        match self {
            ConfigError::Missing(key) => {
                out.append("missing config key: ");
                out.append(key.as_str());
            },
            ConfigError::Unknown(key) => {
                out.append("unknown config key: ");
                out.append(key.as_str());
            },
            ConfigError::Wrapper => out.append("invalid config wrapper"),
            ConfigError::Value(reason) => {
                out.append("invalid config value: ");
                out.append(reason.as_str());
            },
        }
        assert(out@ =~= self.text());
        out
    }
}

/// The first of the texts, from place `i` on, that is not in a list.
pub open spec fn first_outside(
    texts: Seq<Seq<char>>,
    list: Seq<Seq<char>>,
    i: int,
) -> Option<Seq<char>>
    decreases texts.len() - i,
{
    if i >= texts.len() {
        None
    } else if !list.contains(texts[i]) {
        Some(texts[i])
    } else {
        first_outside(texts, list, i + 1)
    }
}

proof fn first_outside_meaning(texts: Seq<Seq<char>>, list: Seq<Seq<char>>, i: int)
    requires
        0 <= i,
    ensures
        first_outside(texts, list, i) is None <==> forall|k: int|
            i <= k < texts.len() ==> list.contains(#[trigger] texts[k]),
    decreases texts.len() - i,
{
    if i < texts.len() && list.contains(texts[i]) {
        first_outside_meaning(texts, list, i + 1);
    }
}

/// Why members are no settings: the first unknown key, or else the first that is missing.
pub open spec fn members_fault(members: Seq<MemberModel>) -> Option<Fault> {
    match first_outside(member_keys(members), known_keys(), 0) {
        Some(key) => Some(Fault::Unknown(key)),
        None => match first_outside(known_keys(), member_keys(members), 0) {
            Some(key) => Some(Fault::Missing(key)),
            None => None,
        },
    }
}

/// Settings are complete: each known key has a member, and there is no other member.
pub proof fn accepted_settings_are_complete(members: Seq<MemberModel>)
    requires
        member_keys(members).no_duplicates(),
        members_fault(members) is None,
    ensures
        members.len() == known_keys().len(),
        member_keys(members).to_set() == known_keys().to_set(),
        forall|key: Seq<char>| #[trigger]
            known_keys().contains(key) ==> lookup(members, key, 0) is Some,
{
    let keys = member_keys(members);
    first_outside_meaning(keys, known_keys(), 0);
    first_outside_meaning(known_keys(), keys, 0);
    known_keys_are_distinct();
    assert(keys.to_set() =~= known_keys().to_set()) by {
        assert forall|key: Seq<char>| keys.to_set().contains(key) implies known_keys().to_set().contains(
            key,
        ) by {
            let i = choose|i: int| 0 <= i < keys.len() && keys[i] == key;
            assert(known_keys().contains(keys[i]));
        }
        assert forall|key: Seq<char>| known_keys().to_set().contains(
            key,
        ) implies keys.to_set().contains(key) by {
            let i = choose|i: int| 0 <= i < known_keys().len() && known_keys()[i] == key;
            assert(keys.contains(known_keys()[i]));
        }
    }
    keys.unique_seq_to_set();
    known_keys().unique_seq_to_set();
    assert forall|key: Seq<char>| #[trigger] known_keys().contains(key) implies lookup(
        members,
        key,
        0,
    ) is Some by {
        let i = choose|i: int| 0 <= i < known_keys().len() && known_keys()[i] == key;
        assert(keys.contains(known_keys()[i]));
        let j = choose|j: int| 0 <= j < keys.len() && keys[j] == key;
        lookup_finds(members, key, 0, j);
    }
}

proof fn lookup_finds(members: Seq<MemberModel>, key: Seq<char>, i: int, j: int)
    requires
        0 <= i <= j < members.len(),
        members[j].key == key,
    ensures
        lookup(members, key, i) is Some,
    decreases j - i,
{
    if members[i].key != key {
        lookup_finds(members, key, i + 1, j);
    }
}

/// The member with a key, from place `i` on.
pub open spec fn lookup(members: Seq<MemberModel>, key: Seq<char>, i: int) -> Option<MemberModel>
    decreases members.len() - i,
{
    if i >= members.len() {
        None
    } else if members[i].key == key {
        Some(members[i])
    } else {
        lookup(members, key, i + 1)
    }
}

/// The first of two faults.
pub open spec fn either(a: Option<Fault>, b: Option<Fault>) -> Option<Fault> {
    match a {
        Some(fault) => Some(fault),
        None => b,
    }
}

/// The reason why a value is no real number, from the reason why it is no `usize`: both end in the
/// name of the type, and are the same up to there.
pub open spec fn real_reason(reason: Seq<char>) -> Seq<char> {
    if reason.len() < 5 {
        reason
    } else {
        reason.take(reason.len() - 5) + "f64"@
    }
}

/// What the settings hold.
#[verifier::ext_equal]
pub ghost struct Settings {
    pub members: Seq<MemberModel>,
}

impl Settings {
    /// Why a value is no `usize`, or is not there.
    pub open spec fn count_fault(self, key: Seq<char>) -> Option<Fault> {
        match lookup(self.members, key, 0) {
            None => Some(Fault::Missing(key)),
            Some(m) => match m.count {
                Ok(n) => None,
                Err(e) => Some(Fault::Value(key + ": "@ + e)),
            },
        }
    }

    /// A value as a `usize`.
    pub open spec fn count(self, key: Seq<char>) -> usize {
        lookup(self.members, key, 0)->Some_0.count->Ok_0
    }

    /// Why a value is no `u64`, or is not there.
    pub open spec fn wide_fault(self, key: Seq<char>) -> Option<Fault> {
        match lookup(self.members, key, 0) {
            None => Some(Fault::Missing(key)),
            Some(m) => match m.wide {
                Ok(n) => None,
                Err(e) => Some(Fault::Value(key + ": "@ + e)),
            },
        }
    }

    /// A value as a `u64`.
    pub open spec fn wide(self, key: Seq<char>) -> u64 {
        lookup(self.members, key, 0)->Some_0.wide->Ok_0
    }

    /// Why a value is no `bool`, or is not there.
    pub open spec fn flag_fault(self, key: Seq<char>) -> Option<Fault> {
        match lookup(self.members, key, 0) {
            None => Some(Fault::Missing(key)),
            Some(m) => match m.flag {
                Ok(b) => None,
                Err(e) => Some(Fault::Value(key + ": "@ + e)),
            },
        }
    }

    /// A value as a `bool`.
    pub open spec fn flag(self, key: Seq<char>) -> bool {
        lookup(self.members, key, 0)->Some_0.flag->Ok_0
    }

    /// Why a value is no real number, or is not there.
    pub open spec fn real_fault(self, key: Seq<char>) -> Option<Fault> {
        match lookup(self.members, key, 0) {
            None => Some(Fault::Missing(key)),
            Some(m) => match m.real {
                Some(bits) => None,
                None => match m.count {
                    Ok(n) => Some(Fault::Value(key)),
                    Err(e) => Some(Fault::Value(key + ": "@ + real_reason(e))),
                },
            },
        }
    }

    /// A value as the bits of a real number.
    pub open spec fn bits(self, key: Seq<char>) -> u64 {
        lookup(self.members, key, 0)->Some_0.real->Some_0
    }
}

/// The settings, by their keys.
#[derive(Debug, PartialEq)]
pub struct BasaltConfig {
    pub values: Vec<JsonMember>,
}

impl View for BasaltConfig {
    type V = Settings;

    open spec fn view(&self) -> Settings {
        Settings { members: models(self.values@) }
    }
}

impl Clone for BasaltConfig {
    fn clone(&self) -> (config: Self)
        ensures
            config@ == self@,
    {
        let mut values: Vec<JsonMember> = Vec::new();
        for i in 0..self.values.len()
            invariant
                values@.len() == i,
                forall|k: int| 0 <= k < i ==> (#[trigger] values@[k])@ == self.values@[k]@,
        {
            values.push(self.values[i].clone());
        }
        assert(models(values@) =~= models(self.values@));
        BasaltConfig { values }
    }
}

/// The settings of the solver; real numbers are bits.
#[derive(Clone, Copy, Debug, PartialEq, Eq, Structural)]
pub struct LmConfig {
    pub lambda_initial: u64,
    pub lambda_min: u64,
    pub lambda_max: u64,
    pub max_iterations: usize,
    /// The solver stops where no part of an accepted step is larger.
    pub convergence_step: u64,
}

/// A ten-thousandth.
pub const CONVERGENCE_STEP: u64 = 0x3f1a_36e2_eb1c_432d;

/// The settings of the estimator together with those of its solver.
#[derive(Clone, Copy, Debug, PartialEq, Eq, Structural)]
pub struct EstimatorSettings {
    pub estimator: EstimatorConfig,
    pub solver: LmConfig,
}

/// What the settings switch on beside the estimator.
#[derive(Clone, Copy, Debug, PartialEq, Eq)]
pub struct CompatProfile {
    pub enforce_realtime: bool,
    pub velocity_seed: bool,
    pub temporal_fb_threshold: Option<u64>,
    pub rebootstrap: bool,
}

/// The settings of the mapper that works on recorded frames; real numbers are bits.
#[derive(Clone, Copy, Debug, PartialEq, Eq, Structural)]
pub struct OfflineMapperConfig {
    pub max_points: usize,
    pub max_hamming: usize,
    pub second_best_ratio: u64,
    pub bow_bits: usize,
    pub match_window: usize,
    pub frames_to_match_threshold: u64,
    pub min_matches: usize,
    pub ransac_threshold: u64,
    pub min_track_length: usize,
    pub min_triangulation_distance: u64,
}

/// The settings of the global adjustment; real numbers are bits.
#[derive(Clone, Copy, Debug, PartialEq, Eq, Structural)]
pub struct GlobalBaConfig {
    pub enabled: bool,
    pub use_lm: bool,
    pub lambda_initial: u64,
    pub lambda_min: u64,
    pub lambda_max: u64,
    pub max_iterations: usize,
    pub huber_delta: u64,
    pub observation_std_dev: u64,
    pub use_factors: bool,
}

fn has_text(list: &Vec<String>, text: &String) -> (found: bool)
    ensures
        found == texts(list@).contains(text@),
{
    for i in 0..list.len()
        invariant
            forall|j: int| 0 <= j < i ==> texts(list@)[j] != text@,
    {
        if list[i] == *text {
            assert(texts(list@)[i as int] == text@);
            return true;
        }
    }
    false
}

fn has_member(members: &Vec<JsonMember>, key: &String) -> (found: bool)
    ensures
        found == member_keys(models(members@)).contains(key@),
{
    for i in 0..members.len()
        invariant
            forall|j: int| 0 <= j < i ==> member_keys(models(members@))[j] != key@,
    {
        if members[i].key == *key {
            assert(member_keys(models(members@))[i as int] == key@);
            return true;
        }
    }
    false
}

fn value_fault(key: &str, reason: &str) -> (error: ConfigError)
    ensures
        error@ == Fault::Value(key@ + ": "@ + reason@),
{
    let mut out = String::new();
    out.append(key);
    out.append(": ");
    out.append(reason);
    assert(out@ =~= key@ + ": "@ + reason@);
    ConfigError::Value(out)
}

fn real_reason_of(reason: &String) -> (text: String)
    ensures
        text@ == real_reason(reason@),
{
    let n: usize = reason.as_str().unicode_len();
    if n < 5 {
        return reason.clone();
    }
    let mut out = String::new();
    let head = reason.as_str().substring_char(0, n - 5);
    out.append(head);
    out.append("f64");
    assert(out@ =~= real_reason(reason@));
    out
}

impl BasaltConfig {
    /// Reads the settings from JSON text: the object under `value0`.
    pub fn from_json(text: &str) -> (result: Result<Self, ConfigError>)
        ensures
            match json_object(text@, "value0"@, usize::BITS) {
                Err(e) => result matches Err(error) && error@ == Fault::Value(e),
                Ok(None) => result matches Err(error) && error@ == Fault::Wrapper,
                Ok(Some(members)) => match members_fault(members) {
                    Some(fault) => result matches Err(error) && error@ == fault,
                    None => result matches Ok(config) && config@.members == members
                        && member_keys(members).no_duplicates(),
                },
            },
    {
        match object_members(text, "value0") {
            Err(e) => Err(ConfigError::Value(e)),
            Ok(None) => Err(ConfigError::Wrapper),
            Ok(Some(members)) => BasaltConfig::from_members(members),
        }
    }

    /// Takes members for settings.
    pub fn from_members(members: Vec<JsonMember>) -> (result: Result<Self, ConfigError>)
        ensures
            match members_fault(models(members@)) {
                Some(fault) => result matches Err(error) && error@ == fault,
                None => result matches Ok(config) && config@.members == models(members@),
            },
    {
        let known = settings_keys();
        let ghost keys = member_keys(models(members@));
        for i in 0..members.len()
            invariant
                texts(known@) == known_keys(),
                keys == member_keys(models(members@)),
                first_outside(keys, known_keys(), 0) == first_outside(keys, known_keys(), i as int),
        {
            assert(keys[i as int] == members@[i as int].key@);
            if !has_text(&known, &members[i].key) {
                return Err(ConfigError::Unknown(members[i].key.clone()));
            }
        }
        for i in 0..known.len()
            invariant
                texts(known@) == known_keys(),
                keys == member_keys(models(members@)),
                first_outside(keys, known_keys(), 0) is None,
                first_outside(known_keys(), keys, 0) == first_outside(known_keys(), keys, i as int),
        {
            assert(texts(known@)[i as int] == known@[i as int]@);
            if !has_member(&members, &known[i]) {
                return Err(ConfigError::Missing(known[i].clone()));
            }
        }
        assert(texts(known@).len() == known@.len());
        Ok(BasaltConfig { values: members })
    }

    fn find(&self, key: &str) -> (place: Option<usize>)
        ensures
            match place {
                Some(i) => i < self.values@.len() && lookup(self@.members, key@, 0) == Some(
                    self.values@[i as int]@,
                ),
                None => lookup(self@.members, key@, 0) is None,
            },
    {
        let wanted = key.to_owned();
        for i in 0..self.values.len()
            invariant
                wanted@ == key@,
                lookup(self@.members, key@, 0) == lookup(self@.members, key@, i as int),
        {
            assert(self@.members[i as int] == self.values@[i as int]@);
            if self.values[i].key == wanted {
                return Some(i);
            }
        }
        None
    }

    /// Reads a value as a `usize`.
    pub fn value_count(&self, key: &str) -> (result: Result<usize, ConfigError>)
        ensures
            match self@.count_fault(key@) {
                Some(fault) => result matches Err(error) && error@ == fault,
                None => result == Ok::<usize, ConfigError>(self@.count(key@)),
            },
    {
        match self.find(key) {
            None => Err(ConfigError::Missing(key.to_owned())),
            Some(i) => match &self.values[i].count {
                Ok(n) => Ok(*n),
                Err(e) => Err(value_fault(key, e.as_str())),
            },
        }
    }

    /// Reads a value as a `u64`.
    pub fn value_wide(&self, key: &str) -> (result: Result<u64, ConfigError>)
        ensures
            match self@.wide_fault(key@) {
                Some(fault) => result matches Err(error) && error@ == fault,
                None => result == Ok::<u64, ConfigError>(self@.wide(key@)),
            },
    {
        match self.find(key) {
            None => Err(ConfigError::Missing(key.to_owned())),
            Some(i) => match &self.values[i].wide {
                Ok(n) => Ok(*n),
                Err(e) => Err(value_fault(key, e.as_str())),
            },
        }
    }

    /// Reads a value as a `bool`.
    pub fn value_flag(&self, key: &str) -> (result: Result<bool, ConfigError>)
        ensures
            match self@.flag_fault(key@) {
                Some(fault) => result matches Err(error) && error@ == fault,
                None => result == Ok::<bool, ConfigError>(self@.flag(key@)),
            },
    {
        match self.find(key) {
            None => Err(ConfigError::Missing(key.to_owned())),
            Some(i) => match &self.values[i].flag {
                Ok(b) => Ok(*b),
                Err(e) => Err(value_fault(key, e.as_str())),
            },
        }
    }

    /// Reads a value as the bits of a real number.
    pub fn value_real(&self, key: &str) -> (result: Result<u64, ConfigError>)
        ensures
            match self@.real_fault(key@) {
                Some(fault) => result matches Err(error) && error@ == fault,
                None => result == Ok::<u64, ConfigError>(self@.bits(key@)),
            },
    {
        match self.find(key) {
            None => Err(ConfigError::Missing(key.to_owned())),
            Some(i) => match self.values[i].real {
                Some(bits) => Ok(bits),
                None => match &self.values[i].count {
                    Ok(n) => Err(ConfigError::Value(key.to_owned())),
                    Err(e) => {
                        let reason = real_reason_of(e);
                        Err(value_fault(key, reason.as_str()))
                    },
                },
            },
        }
    }

    /// The settings of the estimator and its solver.
    pub fn estimator_config(&self) -> (result: Result<EstimatorSettings, ConfigError>)
        ensures
            match either(self@.count_fault("config.vio_max_states"@), either(self@.count_fault("config.vio_max_kfs"@), either(self@.real_fault("config.vio_kf_marg_feature_ratio"@), either(self@.wide_fault("config.vio_min_frames_after_kf"@), either(self@.real_fault("config.vio_new_kf_keypoints_thresh"@), either(self@.real_fault("config.vio_lm_lambda_initial"@), either(self@.real_fault("config.vio_lm_lambda_min"@), either(self@.real_fault("config.vio_lm_lambda_max"@), either(self@.count_fault("config.vio_max_iterations"@), either(self@.real_fault("config.vio_init_pose_weight"@), either(self@.real_fault("config.vio_init_ba_weight"@), self@.real_fault("config.vio_init_bg_weight"@)))))))))))) {
                Some(fault) => result matches Err(error) && error@ == fault,
                None => result == Ok::<EstimatorSettings, ConfigError>(
                    EstimatorSettings {
                        estimator: EstimatorConfig {
                            scalar_mode: ScalarMode::ExtendedF64,
                            window: WindowPolicy {
                                max_states: self@.count("config.vio_max_states"@),
                                max_kfs: self@.count("config.vio_max_kfs"@),
                                min_feature_ratio: self@.bits("config.vio_kf_marg_feature_ratio"@),
                            },
                            min_frames_after_kf: self@.wide("config.vio_min_frames_after_kf"@),
                            new_kf_keypoints_threshold: self@.bits("config.vio_new_kf_keypoints_thresh"@),
                            initial_pose_weight: self@.bits("config.vio_init_pose_weight"@),
                            initial_accel_bias_weight: self@.bits("config.vio_init_ba_weight"@),
                            initial_gyro_bias_weight: self@.bits("config.vio_init_bg_weight"@),
                        },
                        solver: LmConfig {
                            lambda_initial: self@.bits("config.vio_lm_lambda_initial"@),
                            lambda_min: self@.bits("config.vio_lm_lambda_min"@),
                            lambda_max: self@.bits("config.vio_lm_lambda_max"@),
                            max_iterations: self@.count("config.vio_max_iterations"@),
                            convergence_step: CONVERGENCE_STEP,
                        },
                    },
                ),
            },
    {
        let max_states: usize = match self.value_count("config.vio_max_states") {
            Ok(v) => v,
            Err(e) => return Err(e),
        };
        let max_kfs: usize = match self.value_count("config.vio_max_kfs") {
            Ok(v) => v,
            Err(e) => return Err(e),
        };
        let min_feature_ratio: u64 = match self.value_real("config.vio_kf_marg_feature_ratio") {
            Ok(v) => v,
            Err(e) => return Err(e),
        };
        let min_frames_after_kf: u64 = match self.value_wide("config.vio_min_frames_after_kf") {
            Ok(v) => v,
            Err(e) => return Err(e),
        };
        let new_kf_keypoints_threshold: u64 = match self.value_real("config.vio_new_kf_keypoints_thresh") {
            Ok(v) => v,
            Err(e) => return Err(e),
        };
        let lambda_initial: u64 = match self.value_real("config.vio_lm_lambda_initial") {
            Ok(v) => v,
            Err(e) => return Err(e),
        };
        let lambda_min: u64 = match self.value_real("config.vio_lm_lambda_min") {
            Ok(v) => v,
            Err(e) => return Err(e),
        };
        let lambda_max: u64 = match self.value_real("config.vio_lm_lambda_max") {
            Ok(v) => v,
            Err(e) => return Err(e),
        };
        let max_iterations: usize = match self.value_count("config.vio_max_iterations") {
            Ok(v) => v,
            Err(e) => return Err(e),
        };
        let initial_pose_weight: u64 = match self.value_real("config.vio_init_pose_weight") {
            Ok(v) => v,
            Err(e) => return Err(e),
        };
        let initial_accel_bias_weight: u64 = match self.value_real("config.vio_init_ba_weight") {
            Ok(v) => v,
            Err(e) => return Err(e),
        };
        let initial_gyro_bias_weight: u64 = match self.value_real("config.vio_init_bg_weight") {
            Ok(v) => v,
            Err(e) => return Err(e),
        };
        Ok(
            EstimatorSettings {
                estimator: EstimatorConfig {
                    scalar_mode: ScalarMode::ExtendedF64,
                    window: WindowPolicy { max_states, max_kfs, min_feature_ratio },
                    min_frames_after_kf,
                    new_kf_keypoints_threshold,
                    initial_pose_weight,
                    initial_accel_bias_weight,
                    initial_gyro_bias_weight,
                },
                solver: LmConfig {
                    lambda_initial,
                    lambda_min,
                    lambda_max,
                    max_iterations,
                    convergence_step: CONVERGENCE_STEP,
                },
            },
        )
    }

    /// What the settings switch on beside the estimator: nothing but the pace.
    pub fn compat_profile(&self) -> (result: Result<CompatProfile, ConfigError>)
        ensures
            match self@.flag_fault("config.vio_enforce_realtime"@) {
                Some(fault) => result matches Err(error) && error@ == fault,
                None => result == Ok::<CompatProfile, ConfigError>(
                    CompatProfile {
                        enforce_realtime: self@.flag("config.vio_enforce_realtime"@),
                        velocity_seed: false,
                        temporal_fb_threshold: None,
                        rebootstrap: false,
                    },
                ),
            },
    {
        match self.value_flag("config.vio_enforce_realtime") {
            Err(e) => Err(e),
            Ok(enforce_realtime) => Ok(
                CompatProfile {
                    enforce_realtime,
                    velocity_seed: false,
                    temporal_fb_threshold: None,
                    rebootstrap: false,
                },
            ),
        }
    }

    /// Whether the mapper may run with its own settings: it weighs its factors.
    pub fn mapper_config(&self) -> (result: Result<(), ConfigError>)
        ensures
            match self@.flag_fault("config.mapper_no_factor_weights"@) {
                Some(fault) => result matches Err(error) && error@ == fault,
                None => if self@.flag("config.mapper_no_factor_weights"@) {
                    result matches Err(error) && error@ == Fault::Value(
                        "config.mapper_no_factor_weights=true is outside the pinned weighted-factor profile"@,
                    )
                } else {
                    result is Ok
                },
            },
    {
        match self.value_flag("config.mapper_no_factor_weights") {
            Err(e) => Err(e),
            Ok(unweighted) => {
                if unweighted {
                    return Err(
                        ConfigError::Value(
                            "config.mapper_no_factor_weights=true is outside the pinned weighted-factor profile".to_owned(),
                        ),
                    );
                }
                Ok(())
            },
        }
    }

    /// The settings of the mapper that works on recorded frames.
    pub fn offline_mapper_config(&self) -> (result: Result<OfflineMapperConfig, ConfigError>)
        ensures
            match either(self@.count_fault("config.mapper_detection_num_points"@), either(self@.count_fault("config.mapper_max_hamming_distance"@), either(self@.real_fault("config.mapper_second_best_test_ratio"@), either(self@.count_fault("config.mapper_bow_num_bits"@), either(self@.count_fault("config.mapper_num_frames_to_match"@), either(self@.real_fault("config.mapper_frames_to_match_threshold"@), either(self@.count_fault("config.mapper_min_matches"@), either(self@.real_fault("config.mapper_ransac_threshold"@), either(self@.count_fault("config.mapper_min_track_length"@), self@.real_fault("config.mapper_min_triangulation_dist"@)))))))))) {
                Some(fault) => result matches Err(error) && error@ == fault,
                None => result == Ok::<OfflineMapperConfig, ConfigError>(
                    OfflineMapperConfig {
                        max_points: self@.count("config.mapper_detection_num_points"@),
                        max_hamming: self@.count("config.mapper_max_hamming_distance"@),
                        second_best_ratio: self@.bits("config.mapper_second_best_test_ratio"@),
                        bow_bits: self@.count("config.mapper_bow_num_bits"@),
                        match_window: self@.count("config.mapper_num_frames_to_match"@),
                        frames_to_match_threshold: self@.bits("config.mapper_frames_to_match_threshold"@),
                        min_matches: self@.count("config.mapper_min_matches"@),
                        ransac_threshold: self@.bits("config.mapper_ransac_threshold"@),
                        min_track_length: self@.count("config.mapper_min_track_length"@),
                        min_triangulation_distance: self@.bits("config.mapper_min_triangulation_dist"@),
                    },
                ),
            },
    {
        let max_points: usize = match self.value_count("config.mapper_detection_num_points") {
            Ok(v) => v,
            Err(e) => return Err(e),
        };
        let max_hamming: usize = match self.value_count("config.mapper_max_hamming_distance") {
            Ok(v) => v,
            Err(e) => return Err(e),
        };
        let second_best_ratio: u64 = match self.value_real("config.mapper_second_best_test_ratio") {
            Ok(v) => v,
            Err(e) => return Err(e),
        };
        let bow_bits: usize = match self.value_count("config.mapper_bow_num_bits") {
            Ok(v) => v,
            Err(e) => return Err(e),
        };
        let match_window: usize = match self.value_count("config.mapper_num_frames_to_match") {
            Ok(v) => v,
            Err(e) => return Err(e),
        };
        let frames_to_match_threshold: u64 = match self.value_real("config.mapper_frames_to_match_threshold") {
            Ok(v) => v,
            Err(e) => return Err(e),
        };
        let min_matches: usize = match self.value_count("config.mapper_min_matches") {
            Ok(v) => v,
            Err(e) => return Err(e),
        };
        let ransac_threshold: u64 = match self.value_real("config.mapper_ransac_threshold") {
            Ok(v) => v,
            Err(e) => return Err(e),
        };
        let min_track_length: usize = match self.value_count("config.mapper_min_track_length") {
            Ok(v) => v,
            Err(e) => return Err(e),
        };
        let min_triangulation_distance: u64 = match self.value_real("config.mapper_min_triangulation_dist") {
            Ok(v) => v,
            Err(e) => return Err(e),
        };
        Ok(
            OfflineMapperConfig {
                max_points,
                max_hamming,
                second_best_ratio,
                bow_bits,
                match_window,
                frames_to_match_threshold,
                min_matches,
                ransac_threshold,
                min_track_length,
                min_triangulation_distance,
            },
        )
    }

    /// The settings of the global adjustment, which starts from its smallest damping.
    pub fn mapper_global_ba_config(&self, max_iterations: usize) -> (result: Result<
        GlobalBaConfig,
        ConfigError,
    >)
        ensures
            match either(self@.flag_fault("config.mapper_use_lm"@), either(self@.real_fault("config.mapper_lm_lambda_min"@), either(self@.real_fault("config.mapper_lm_lambda_max"@), either(self@.real_fault("config.mapper_obs_huber_thresh"@), either(self@.real_fault("config.mapper_obs_std_dev"@), self@.flag_fault("config.mapper_use_factors"@)))))) {
                Some(fault) => result matches Err(error) && error@ == fault,
                None => result == Ok::<GlobalBaConfig, ConfigError>(
                    GlobalBaConfig {
                        enabled: true,
                        use_lm: self@.flag("config.mapper_use_lm"@),
                        lambda_initial: self@.bits("config.mapper_lm_lambda_min"@),
                        lambda_min: self@.bits("config.mapper_lm_lambda_min"@),
                        lambda_max: self@.bits("config.mapper_lm_lambda_max"@),
                        max_iterations,
                        huber_delta: self@.bits("config.mapper_obs_huber_thresh"@),
                        observation_std_dev: self@.bits("config.mapper_obs_std_dev"@),
                        use_factors: self@.flag("config.mapper_use_factors"@),
                    },
                ),
            },
    {
        let use_lm: bool = match self.value_flag("config.mapper_use_lm") {
            Ok(v) => v,
            Err(e) => return Err(e),
        };
        let lambda_min: u64 = match self.value_real("config.mapper_lm_lambda_min") {
            Ok(v) => v,
            Err(e) => return Err(e),
        };
        let lambda_max: u64 = match self.value_real("config.mapper_lm_lambda_max") {
            Ok(v) => v,
            Err(e) => return Err(e),
        };
        let huber_delta: u64 = match self.value_real("config.mapper_obs_huber_thresh") {
            Ok(v) => v,
            Err(e) => return Err(e),
        };
        let observation_std_dev: u64 = match self.value_real("config.mapper_obs_std_dev") {
            Ok(v) => v,
            Err(e) => return Err(e),
        };
        let use_factors: bool = match self.value_flag("config.mapper_use_factors") {
            Ok(v) => v,
            Err(e) => return Err(e),
        };
        Ok(
            GlobalBaConfig {
                enabled: true,
                use_lm,
                lambda_initial: lambda_min,
                lambda_min,
                lambda_max,
                max_iterations,
                huber_delta,
                observation_std_dev,
                use_factors,
            },
        )
    }

    /// How many keys the settings have.
    pub fn consumed_keys(&self) -> (count: usize)
        ensures
            count == self@.members.len(),
    {
        self.values.len()
    }
}

/// Settings are accepted exactly where every key is known and every known key is there; a key that is unknown
/// is told before one that is missing, the first of each.
pub proof fn settings_hold_the_known_keys(members: Seq<MemberModel>)
    ensures
        members_fault(members) is None <==> {
            &&& forall|i: int|
                0 <= i < members.len() ==> known_keys().contains((#[trigger] members[i]).key)
            &&& forall|k: int|
                0 <= k < known_keys().len() ==> exists|i: int|
                    0 <= i < members.len() && (#[trigger] members[i]).key
                        == #[trigger] known_keys()[k]
        },
        (exists|i: int|
            0 <= i < members.len() && !known_keys().contains((#[trigger] members[i]).key)) ==> {
            &&& members_fault(members) is Some
            &&& members_fault(members)->0 is Unknown
        },
        (forall|i: int|
            0 <= i < members.len() ==> known_keys().contains((#[trigger] members[i]).key))
            && members_fault(members) is Some ==> members_fault(members)->0 is Missing,
{
    let keys = member_keys(members);
    first_outside_meaning(keys, known_keys(), 0);
    first_outside_meaning(known_keys(), keys, 0);
    assert((forall|k: int| 0 <= k < keys.len() ==> known_keys().contains(#[trigger] keys[k])) <==> (
    forall|i: int|
        0 <= i < members.len() ==> known_keys().contains((#[trigger] members[i]).key))) by {
        if forall|k: int| 0 <= k < keys.len() ==> known_keys().contains(#[trigger] keys[k]) {
            assert forall|i: int| 0 <= i < members.len() implies known_keys().contains(
                (#[trigger] members[i]).key,
            ) by {
                assert(keys[i] == members[i].key);
            }
        }
    }
    assert forall|k: int| 0 <= k < known_keys().len() implies (keys.contains(
        #[trigger] known_keys()[k],
    ) <==> exists|i: int|
        0 <= i < members.len() && (#[trigger] members[i]).key == known_keys()[k]) by {
        let key = known_keys()[k];
        if keys.contains(key) {
            let i = choose|i: int| 0 <= i < keys.len() && keys[i] == key;
            assert(members[i].key == key);
        }
        if exists|i: int| 0 <= i < members.len() && (#[trigger] members[i]).key == key {
            let i = choose|i: int| 0 <= i < members.len() && (#[trigger] members[i]).key == key;
            assert(keys[i] == key);
        }
    }
}

/// A setting is looked up by its key: the first member of that key, where there is one.
pub proof fn settings_are_found_by_key(members: Seq<MemberModel>, key: Seq<char>, from: int)
    requires
        0 <= from <= members.len(),
    ensures
        match lookup(members, key, from) {
            Some(m) => exists|i: int|
                from <= i < members.len() && #[trigger] members[i] == m && m.key == key && forall|
                    j: int,
                | from <= j < i ==> (#[trigger] members[j]).key != key,
            None => forall|i: int|
                from <= i < members.len() ==> (#[trigger] members[i]).key != key,
        },
    decreases members.len() - from,
{
    if from < members.len() {
        if members[from].key == key {
            assert(members[from] == lookup(members, key, from)->0);
        } else {
            settings_are_found_by_key(members, key, from + 1);
        }
    }
}

impl Settings {
    /// A setting can be read exactly where it is there and is of the kind that is asked for; one that is not
    /// there is told as missing.
    pub proof fn settings_are_read_by_kind(self, key: Seq<char>)
        ensures
            ({
                let m = lookup(self.members, key, 0);
                &&& self.count_fault(key) is None <==> m is Some && m->0.count is Ok
                &&& self.wide_fault(key) is None <==> m is Some && m->0.wide is Ok
                &&& self.flag_fault(key) is None <==> m is Some && m->0.flag is Ok
                &&& self.real_fault(key) is None <==> m is Some && m->0.real is Some
                &&& m is None ==> self.count_fault(key) == Some(Fault::Missing(key))
                    && self.wide_fault(key) == Some(Fault::Missing(key)) && self.flag_fault(key)
                    == Some(Fault::Missing(key)) && self.real_fault(key) == Some(
                    Fault::Missing(key),
                )
                &&& m is Some && m->0.count is Ok ==> self.count(key) == m->0.count->Ok_0
                &&& m is Some && m->0.wide is Ok ==> self.wide(key) == m->0.wide->Ok_0
                &&& m is Some && m->0.flag is Ok ==> self.flag(key) == m->0.flag->Ok_0
                &&& m is Some && m->0.real is Some ==> self.bits(key) == m->0.real->0
            }),
    {
    }
}

} // verus!

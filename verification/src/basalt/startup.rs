//! Bounded, causal start of the estimator from a device at rest.
//!
//! Frames are held back while the images show no motion and the inertial samples cover a window.
//! Once they do, the held frames are released unchanged and in order, at once or, where the start
//! waits for motion, with the first frame that moves. Any fault ends the start for good.
use crate::basalt::identity::Pixel;
use crate::ieee::{
    double_at_most, double_finite, double_less, double_total, is_double_at_most, is_double_finite,
    is_double_less, is_double_total_less,
};
use crate::ordered::{
    ascending, ascending_lists_members, filter_members, filter_next, increasing, map_keys, retain_ids,
};
use crate::text::{append_count, decimal};
use std::collections::BTreeMap;
use vstd::prelude::*;

verus! {

broadcast use vstd::std_specs::btree::group_btree_axioms;

/// The settings of the start. Real numbers are the bits of double-precision numbers.
#[derive(Clone, Copy, Debug, PartialEq, Eq, Structural)]
pub struct StationaryStartupConfig {
    pub window_ns: i64,
    pub max_frames: usize,
    pub max_imu_samples: usize,
    pub min_imu_samples: usize,
    pub max_imu_gap_ns: i64,
    pub min_common_tracks: usize,
    pub min_track_fraction: u64,
    pub max_disparity_p90_px: u64,
    pub max_gyro_std_rad_s: u64,
    pub max_accel_std_m_s2: u64,
    pub max_gyro_mean_rad_s: u64,
    pub max_gravity_norm_error_m_s2: u64,
    /// Take the mean acceleration instead of the first sample as the direction of gravity.
    pub average_gravity: bool,
    pub wait_for_motion: bool,
    pub motion_disparity_px: u64,
    pub motion_accel_deviation_m_s2: u64,
    pub max_wait_ns: i64,
}

/// The bits of one.
pub const ONE: u64 = 0x3ff0_0000_0000_0000;

/// The bits of the largest finite number.
pub const DOUBLE_MAX: u64 = 0x7fef_ffff_ffff_ffff;

/// The settings without any change: a window of a second.
pub open spec fn default_startup() -> StationaryStartupConfig {
    StationaryStartupConfig {
        window_ns: 1_000_000_000,
        max_frames: 64,
        max_imu_samples: 4096,
        min_imu_samples: 50,
        max_imu_gap_ns: 50_000_000,
        min_common_tracks: 30,
        min_track_fraction: 0x3fe0_0000_0000_0000,
        max_disparity_p90_px: 0x3fe8_0000_0000_0000,
        max_gyro_std_rad_s: 0x3f74_7ae1_47ae_147b,
        max_accel_std_m_s2: 0x3fc3_3333_3333_3333,
        max_gyro_mean_rad_s: 0x3f9e_b851_eb85_1eb8,
        max_gravity_norm_error_m_s2: 0x3fe0_0000_0000_0000,
        average_gravity: false,
        wait_for_motion: false,
        motion_disparity_px: 0x4008_0000_0000_0000,
        motion_accel_deviation_m_s2: 0x3fc9_9999_9999_999a,
        max_wait_ns: 30_000_000_000,
    }
}

impl Default for StationaryStartupConfig {
    fn default() -> (config: Self)
        ensures
            config == default_startup(),
    {
        StationaryStartupConfig {
            window_ns: 1_000_000_000,
            max_frames: 64,
            max_imu_samples: 4096,
            min_imu_samples: 50,
            max_imu_gap_ns: 50_000_000,
            min_common_tracks: 30,
            min_track_fraction: 0x3fe0_0000_0000_0000,
            max_disparity_p90_px: 0x3fe8_0000_0000_0000,
            max_gyro_std_rad_s: 0x3f74_7ae1_47ae_147b,
            max_accel_std_m_s2: 0x3fc3_3333_3333_3333,
            max_gyro_mean_rad_s: 0x3f9e_b851_eb85_1eb8,
            max_gravity_norm_error_m_s2: 0x3fe0_0000_0000_0000,
            average_gravity: false,
            wait_for_motion: false,
            motion_disparity_px: 0x4008_0000_0000_0000,
            motion_accel_deviation_m_s2: 0x3fc9_9999_9999_999a,
            max_wait_ns: 30_000_000_000,
        }
    }
}

/// Why a start fails. A real number that a failure names is given by its bits.
#[derive(Clone, Copy, Debug, PartialEq, Eq, Structural)]
pub enum StartupError {
    Config,
    PreviouslyFailed,
    CameraOrder,
    TimedOut,
    TimestampOverflow,
    FrameLimit,
    PacketLimit,
    ImuInput,
    WaitGap,
    SampleLimit,
    FewTracks { common: usize, reference: usize, needed: usize, fraction: u64 },
    TrackValues,
    ImageMotion { p90: u64 },
    Coverage,
    Gap,
    Moving { gyro_std: u64, accel_std: u64 },
    Unfinished,
}

impl StartupError {
    /// The text of a failure, given the texts of the real numbers that it names.
    pub open spec fn text(self, first: Seq<char>, second: Seq<char>) -> Seq<char> {
        match self {
            StartupError::Config => "invalid stationary IMU startup configuration"@,
            StartupError::PreviouslyFailed => {
                "stationary startup previously failed; start a new session"@
            },
            StartupError::CameraOrder => {
                "stationary startup: camera timestamps are not increasing"@
            },
            StartupError::TimedOut => {
                "stationary startup: timed out waiting for motion; no VIO poses published"@
            },
            StartupError::TimestampOverflow => "startup timestamp overflow"@,
            StartupError::FrameLimit => "stationary startup: frame buffer limit exceeded"@,
            StartupError::PacketLimit => {
                "stationary startup: buffered IMU packet limit exceeded"@
            },
            StartupError::ImuInput => {
                "stationary startup: invalid IMU ordering or nonfinite input"@
            },
            StartupError::WaitGap => {
                "stationary startup: gap in IMU coverage while waiting for motion"@
            },
            StartupError::SampleLimit => "stationary startup: IMU buffer limit exceeded"@,
            StartupError::FewTracks { common, reference, needed, fraction } => {
                "stationary startup: insufficient persistent image tracks ("@ + decimal(
                    common as nat,
                ) + " of "@ + decimal(reference as nat) + ", need "@ + decimal(needed as nat)
                    + " and fraction "@ + first + ")"@
            },
            StartupError::TrackValues => "stationary startup: nonfinite image tracks"@,
            StartupError::ImageMotion { p90 } => {
                "stationary startup: image motion "@ + first + " px exceeds limit"@
            },
            StartupError::Coverage => "stationary startup: insufficient IMU coverage"@,
            StartupError::Gap => "stationary startup: gap in IMU coverage"@,
            StartupError::Moving { gyro_std, accel_std } => {
                "stationary startup: IMU is not stationary (gyro std "@ + first + ", accel std "@
                    + second + ")"@
            },
            StartupError::Unfinished => {
                "stream ended before a valid stationary IMU startup window; no VIO poses published"@
            },
        }
    }

    /// Writes a failure out. `first` and `second` show the real numbers that it names, in their
    /// order.
    pub fn message(&self, first: &str, second: &str) -> (message: String)
        ensures
            message@ == self.text(first@, second@),
    {
        let mut out = String::new();
        match self {
            StartupError::Config => out.append("invalid stationary IMU startup configuration"),
            StartupError::PreviouslyFailed => out.append(
                "stationary startup previously failed; start a new session",
            ),
            StartupError::CameraOrder => out.append(
                "stationary startup: camera timestamps are not increasing",
            ),
            StartupError::TimedOut => out.append(
                "stationary startup: timed out waiting for motion; no VIO poses published",
            ),
            StartupError::TimestampOverflow => out.append("startup timestamp overflow"),
            StartupError::FrameLimit => out.append(
                "stationary startup: frame buffer limit exceeded",
            ),
            StartupError::PacketLimit => out.append(
                "stationary startup: buffered IMU packet limit exceeded",
            ),
            StartupError::ImuInput => out.append(
                "stationary startup: invalid IMU ordering or nonfinite input",
            ),
            StartupError::WaitGap => out.append(
                "stationary startup: gap in IMU coverage while waiting for motion",
            ),
            StartupError::SampleLimit => out.append(
                "stationary startup: IMU buffer limit exceeded",
            ),
            StartupError::FewTracks { common, reference, needed, fraction } => {
                out.append("stationary startup: insufficient persistent image tracks (");
                append_count(&mut out, *common);
                out.append(" of ");
                append_count(&mut out, *reference);
                out.append(", need ");
                append_count(&mut out, *needed);
                out.append(" and fraction ");
                out.append(first);
                out.append(")");
            },
            StartupError::TrackValues => out.append("stationary startup: nonfinite image tracks"),
            StartupError::ImageMotion { p90 } => {
                out.append("stationary startup: image motion ");
                out.append(first);
                out.append(" px exceeds limit");
            },
            StartupError::Coverage => out.append("stationary startup: insufficient IMU coverage"),
            StartupError::Gap => out.append("stationary startup: gap in IMU coverage"),
            StartupError::Moving { gyro_std, accel_std } => {
                out.append("stationary startup: IMU is not stationary (gyro std ");
                out.append(first);
                out.append(", accel std ");
                out.append(second);
                out.append(")");
            },
            StartupError::Unfinished => out.append(
                "stream ended before a valid stationary IMU startup window; no VIO poses published",
            ),
        }
        assert(out@ =~= self.text(first@, second@));
        out
    }
}

/// Whether a number is finite and positive.
pub open spec fn positive(bits: u64) -> bool {
    double_finite(bits) && double_less(0, bits)
}

fn is_positive(bits: u64) -> (result: bool)
    ensures
        result == positive(bits),
{
    is_double_finite(bits) && is_double_less(0, bits)
}

impl StationaryStartupConfig {
    /// Whether the settings make sense.
    pub open spec fn valid(self) -> bool {
        &&& self.max_wait_ns >= self.window_ns
        &&& self.window_ns > 0
        &&& self.max_frames >= 2
        &&& self.min_imu_samples >= 2
        &&& self.max_imu_samples >= self.min_imu_samples
        &&& self.max_imu_gap_ns > 0
        &&& self.min_common_tracks >= 3
        &&& double_at_most(0, self.min_track_fraction)
        &&& double_at_most(self.min_track_fraction, ONE)
        &&& positive(self.motion_disparity_px)
        &&& positive(self.motion_accel_deviation_m_s2)
        &&& positive(self.max_disparity_p90_px)
        &&& positive(self.max_gyro_std_rad_s)
        &&& positive(self.max_accel_std_m_s2)
        &&& positive(self.max_gyro_mean_rad_s)
        &&& positive(self.max_gravity_norm_error_m_s2)
    }

    /// Checks the settings.
    pub fn validate(&self) -> (result: Result<(), StartupError>)
        ensures
            result == if self.valid() {
                Ok::<(), StartupError>(())
            } else {
                Err(StartupError::Config)
            },
    {
        if self.max_wait_ns < self.window_ns || self.window_ns <= 0 || self.max_frames < 2
            || self.min_imu_samples < 2 || self.max_imu_samples < self.min_imu_samples
            || self.max_imu_gap_ns <= 0 || self.min_common_tracks < 3 || !is_double_at_most(
            0,
            self.min_track_fraction,
        ) || !is_double_at_most(self.min_track_fraction, ONE) || !is_positive(
            self.motion_disparity_px,
        ) || !is_positive(self.motion_accel_deviation_m_s2) || !is_positive(
            self.max_disparity_p90_px,
        ) || !is_positive(self.max_gyro_std_rad_s) || !is_positive(self.max_accel_std_m_s2)
            || !is_positive(self.max_gyro_mean_rad_s) || !is_positive(
            self.max_gravity_norm_error_m_s2,
        ) {
            return Err(StartupError::Config);
        }
        Ok(())
    }
}

/// One inertial sample of a frame: its time, its measurements, and how far the length of its
/// calibrated acceleration is from that of the mean at rest, which counts only once there is one.
#[derive(Clone, Copy, Debug, PartialEq, Eq)]
pub struct StartupSample {
    pub timestamp_ns: i64,
    pub gyro: [u64; 3],
    pub accel: [u64; 3],
    pub deviation: u64,
}

/// One frame that is held back, with whatever it carries.
#[derive(Clone, Debug, PartialEq)]
pub struct StartupFrame<P> {
    pub frame_id: u64,
    pub timestamp_ns: i64,
    pub imu: Vec<StartupSample>,
    pub payload: P,
}

/// What a successful start reports.
#[derive(Clone, Copy, Debug, PartialEq, Eq)]
pub struct StationaryStartupReport {
    pub config: StationaryStartupConfig,
    pub first_camera_ns: i64,
    pub ready_camera_ns: i64,
    pub buffered_frames: usize,
    pub released_camera_ns: Option<i64>,
    pub discarded_stationary_frames: usize,
    pub imu_samples: usize,
    pub gyro_offset_rad_s: [u64; 3],
    pub mean_accel_m_s2: [u64; 3],
    pub gyro_std_rad_s: u64,
    pub accel_std_m_s2: u64,
    pub max_disparity_p90_px: u64,
    pub minimum_common_tracks: usize,
}

/// The statistics of the samples of the window, as computed from them: means, deviations, the
/// length of the mean rate, and the distance of the length of the mean acceleration from gravity.
#[derive(Clone, Copy, Debug, PartialEq, Eq)]
pub struct ImuStatistics {
    pub gyro: [u64; 3],
    pub accel: [u64; 3],
    pub gyro_std: u64,
    pub accel_std: u64,
    pub gyro_norm: u64,
    pub gravity_error: u64,
}

/// A difference of times that stays within the range of a time.
pub open spec fn saturating_difference(a: i64, b: i64) -> int {
    if a - b > i64::MAX {
        i64::MAX as int
    } else if a - b < i64::MIN {
        i64::MIN as int
    } else {
        a - b
    }
}

fn exceeds(a: i64, b: i64, limit: i64) -> (result: bool)
    ensures
        result == (saturating_difference(a, b) > limit),
{
    let d: i128 = a as i128 - b as i128;
    d > limit as i128 && limit < i64::MAX
}

/// Whether all three numbers are finite.
pub open spec fn finite3(v: [u64; 3]) -> bool {
    double_finite(v[0]) && double_finite(v[1]) && double_finite(v[2])
}

/// Whether all three numbers are finite.
pub fn is_finite3(v: &[u64; 3]) -> (result: bool)
    ensures
        result == finite3(*v),
{
    is_double_finite(v[0]) && is_double_finite(v[1]) && is_double_finite(v[2])
}

/// The distances in the total order.
pub open spec fn sorted_distances(s: Seq<u64>) -> Seq<u64>
    decreases s.len(),
{
    if s.len() == 0 {
        Seq::empty()
    } else {
        let front = sorted_distances(s.drop_last());
        front.insert(distance_place(front, s.last(), front.len() as int), s.last())
    }
}

/// Where a distance goes among the first `n` of an ordered list.
pub open spec fn distance_place(s: Seq<u64>, x: u64, n: int) -> int
    decreases n,
{
    if n <= 0 || double_total(s[n - 1]) <= double_total(x) {
        n
    } else {
        distance_place(s, x, n - 1)
    }
}

proof fn distance_place_bounds(s: Seq<u64>, x: u64, n: int)
    requires
        0 <= n <= s.len(),
    ensures
        0 <= distance_place(s, x, n) <= n,
        forall|k: int|
            distance_place(s, x, n) <= k < n ==> double_total(x) < double_total(#[trigger] s[k]),
        distance_place(s, x, n) > 0 ==> double_total(s[distance_place(s, x, n) - 1])
            <= double_total(x),
    decreases n,
{
    if n > 0 && double_total(s[n - 1]) > double_total(x) {
        distance_place_bounds(s, x, n - 1);
    }
}

/// Ordering distances loses none, adds none, and leaves them in the total order.
pub proof fn sorted_distances_are_ordered(s: Seq<u64>)
    ensures
        forall|i: int, j: int|
            0 <= i < j < sorted_distances(s).len() ==> double_total(
                #[trigger] sorted_distances(s)[i],
            ) <= double_total(#[trigger] sorted_distances(s)[j]),
        sorted_distances(s).to_multiset() == s.to_multiset(),
        sorted_distances(s).len() == s.len(),
    decreases s.len(),
{
    broadcast use vstd::seq_lib::group_to_multiset_ensures;

    if s.len() > 0 {
        let front = sorted_distances(s.drop_last());
        sorted_distances_are_ordered(s.drop_last());
        let x = s.last();
        let place = distance_place(front, x, front.len() as int);
        distance_place_bounds(front, x, front.len() as int);
        vstd::seq_lib::to_multiset_insert(front, place, x);
        vstd::seq_lib::to_multiset_build(s.drop_last(), x);
        assert(s =~= s.drop_last().push(x));
        let all = sorted_distances(s);
        assert forall|i: int, j: int| 0 <= i < j < all.len() implies double_total(
            #[trigger] all[i],
        ) <= double_total(#[trigger] all[j]) by {
            let fi = if i < place { i } else { i - 1 };
            let fj = if j < place { j } else { j - 1 };
            if i == place {
                assert(all[j] == front[fj]);
            } else if j == place {
                assert(all[i] == front[fi]);
                if fi < place - 1 {
                    assert(double_total(front[fi]) <= double_total(front[place - 1]));
                }
            } else {
                assert(all[i] == front[fi] && all[j] == front[fj]);
            }
        }
    } else {
        assert(s =~= Seq::empty());
    }
}

fn sort_distances(distances: &Vec<u64>) -> (sorted: Vec<u64>)
    ensures
        sorted@ == sorted_distances(distances@),
        sorted@.len() == distances@.len(),
{
    let mut sorted: Vec<u64> = Vec::new();
    for i in 0..distances.len()
        invariant
            sorted@.len() == i,
            sorted@ == sorted_distances(distances@.take(i as int)),
    {
        let next: u64 = distances[i];
        let mut place: usize = sorted.len();
        while place > 0 && is_double_total_less(next, sorted[place - 1])
            invariant
                place <= sorted@.len(),
                distance_place(sorted@, next, place as int) == distance_place(
                    sorted@,
                    next,
                    sorted@.len() as int,
                ),
            decreases place,
        {
            place = place - 1;
        }
        sorted.insert(place, next);
        proof {
            let prefix = distances@.take(i + 1);
            assert(prefix.drop_last() =~= distances@.take(i as int));
            assert(prefix.last() == next);
            assert(sorted@ =~= sorted_distances(prefix));
        }
    }
    assert(distances@.take(distances@.len() as int) =~= distances@);
    sorted
}

/// The distance that nine tenths of the distances do not exceed: the one at nine tenths of the last
/// place, rounded up.
pub open spec fn ninth_decile(distances: Seq<u64>) -> u64 {
    let m = distances.len() - 1;
    sorted_distances(distances)[m - m / 10]
}

/// What the images say of motion: how many tracks persist, and how far nine tenths of them moved at
/// most. `distances` are those of the persisting tracks; `short` says that they are fewer than the
/// configured fraction of the `reference` tracks.
pub open spec fn motion_result(
    distances: Seq<u64>,
    reference: nat,
    short: bool,
    config: StationaryStartupConfig,
) -> Result<(nat, u64), StartupError> {
    if distances.len() < config.min_common_tracks || short {
        Err(
            StartupError::FewTracks {
                common: distances.len() as usize,
                reference: reference as usize,
                needed: config.min_common_tracks,
                fraction: config.min_track_fraction,
            },
        )
    } else if exists|i: int| 0 <= i < distances.len() && !double_finite(#[trigger] distances[i]) {
        Err(StartupError::TrackValues)
    } else if double_less(config.max_disparity_p90_px, ninth_decile(distances)) {
        Err(StartupError::ImageMotion { p90: ninth_decile(distances) })
    } else {
        Ok((distances.len(), ninth_decile(distances)))
    }
}

/// Judges the motion of the persisting tracks.
pub fn visual_motion(
    distances: &Vec<u64>,
    reference: usize,
    short: bool,
    config: &StationaryStartupConfig,
) -> (result: Result<(usize, u64), StartupError>)
    requires
        config.min_common_tracks >= 1 || distances@.len() >= 1 || short,
    ensures
        match motion_result(distances@, reference as nat, short, *config) {
            Ok(m) => result matches Ok(r) && r.0 == m.0 && r.1 == m.1,
            Err(e) => result == Err::<(usize, u64), StartupError>(e),
        },
{
    if distances.len() < config.min_common_tracks || short {
        return Err(
            StartupError::FewTracks {
                common: distances.len(),
                reference,
                needed: config.min_common_tracks,
                fraction: config.min_track_fraction,
            },
        );
    }
    for i in 0..distances.len()
        invariant
            !(distances@.len() < config.min_common_tracks || short),
            forall|j: int| 0 <= j < i ==> double_finite(#[trigger] distances@[j]),
    {
        if !is_double_finite(distances[i]) {
            assert(!double_finite(distances@[i as int]));
            return Err(StartupError::TrackValues);
        }
    }
    let sorted = sort_distances(distances);
    let m: usize = distances.len() - 1;
    let p90: u64 = sorted[m - m / 10];
    if is_double_less(config.max_disparity_p90_px, p90) {
        return Err(StartupError::ImageMotion { p90 });
    }
    Ok((distances.len(), p90))
}

/// Whether the samples cover the window without a gap.
pub open spec fn covered(times: Seq<i64>, start: i64, end: i64, gap: i64) -> bool {
    &&& times.len() > 0
    &&& times[0] - start <= gap
    &&& end - times.last() <= gap
    &&& forall|i: int, j: int|
        0 <= i && j == i + 1 && j < times.len() ==> (#[trigger] times[i]) < (#[trigger] times[j])
            <= times[i] + gap
}

/// What the samples of the window say: whether there are enough, whether they cover it, and whether
/// the device is at rest.
pub open spec fn statistics_error(
    times: Seq<i64>,
    start: i64,
    end: i64,
    config: StationaryStartupConfig,
    stats: ImuStatistics,
) -> Option<StartupError> {
    if times.len() < config.min_imu_samples {
        Some(StartupError::Coverage)
    } else if !covered(times, start, end, config.max_imu_gap_ns) {
        Some(StartupError::Gap)
    } else if !finite3(stats.gyro) || !finite3(stats.accel) || !double_finite(stats.gyro_std)
        || !double_finite(stats.accel_std) || double_less(config.max_gyro_std_rad_s, stats.gyro_std)
        || double_less(config.max_accel_std_m_s2, stats.accel_std) || double_less(
        config.max_gyro_mean_rad_s,
        stats.gyro_norm,
    ) || double_less(config.max_gravity_norm_error_m_s2, stats.gravity_error) {
        Some(StartupError::Moving { gyro_std: stats.gyro_std, accel_std: stats.accel_std })
    } else {
        None
    }
}

/// Judges the samples of the window.
pub fn stationary_statistics(
    times: &Vec<i64>,
    start: i64,
    end: i64,
    config: &StationaryStartupConfig,
    stats: &ImuStatistics,
) -> (result: Result<(), StartupError>)
    requires
        config.min_imu_samples >= 1 || times@.len() >= 1,
    ensures
        match statistics_error(times@, start, end, *config, *stats) {
            Some(e) => result == Err::<(), StartupError>(e),
            None => result is Ok,
        },
{
    if times.len() < config.min_imu_samples {
        return Err(StartupError::Coverage);
    }
    let gap: i128 = config.max_imu_gap_ns as i128;
    let lead: i128 = times[0] as i128 - start as i128;
    let tail: i128 = end as i128 - times[times.len() - 1] as i128;
    if lead > gap || tail > gap {
        return Err(StartupError::Gap);
    }
    let mut i: usize = 1;
    while i < times.len()
        invariant
            1 <= i <= times@.len(),
            gap == config.max_imu_gap_ns,
            !(times@.len() < config.min_imu_samples),
            forall|a: int, b: int|
                0 <= a && b == a + 1 && b < i ==> (#[trigger] times@[a]) < (#[trigger] times@[b])
                    <= times@[a] + gap,
        decreases times@.len() - i,
    {
        let step: i128 = times[i] as i128 - times[i - 1] as i128;
        if step <= 0 || step > gap {
            proof {
                let a = i - 1;
                assert(!(times@[a] < times@[i as int] <= times@[a] + gap));
            }
            return Err(StartupError::Gap);
        }
        i = i + 1;
    }
    if !is_finite3(&stats.gyro) || !is_finite3(&stats.accel) || !is_double_finite(stats.gyro_std)
        || !is_double_finite(stats.accel_std) || is_double_less(
        config.max_gyro_std_rad_s,
        stats.gyro_std,
    ) || is_double_less(config.max_accel_std_m_s2, stats.accel_std) || is_double_less(
        config.max_gyro_mean_rad_s,
        stats.gyro_norm,
    ) || is_double_less(config.max_gravity_norm_error_m_s2, stats.gravity_error) {
        return Err(
            StartupError::Moving { gyro_std: stats.gyro_std, accel_std: stats.accel_std },
        );
    }
    Ok(())
}

/// The start of a session.
#[derive(Clone, Debug)]
pub struct StationaryStartup<P> {
    pub config: StationaryStartupConfig,
    /// The frames held back.
    pub frames: Vec<StartupFrame<P>>,
    /// The frame that is being looked at.
    pub pending: Option<StartupFrame<P>>,
    /// The samples of the window.
    pub samples: Vec<StartupSample>,
    /// The tracks that motion is measured against.
    pub reference: BTreeMap<u64, Pixel>,
    pub first_ns: Option<i64>,
    pub last_ns: Option<i64>,
    pub last_imu_ns: Option<i64>,
    pub disparity: u64,
    pub minimum_common: usize,
    pub failed: bool,
    pub released: bool,
    pub motion_excited: bool,
    pub report: Option<StationaryStartupReport>,
}

/// What a start holds.
#[verifier::ext_equal]
pub ghost struct StartupModel<P> {
    pub config: StationaryStartupConfig,
    pub frames: Seq<StartupFrame<P>>,
    pub pending: Option<StartupFrame<P>>,
    pub samples: Seq<StartupSample>,
    pub reference: Map<u64, Pixel>,
    pub first_ns: Option<i64>,
    pub last_ns: Option<i64>,
    pub last_imu_ns: Option<i64>,
    pub disparity: u64,
    pub minimum_common: usize,
    pub failed: bool,
    pub released: bool,
    pub motion_excited: bool,
    pub report: Option<StationaryStartupReport>,
}

impl<P> View for StationaryStartup<P> {
    type V = StartupModel<P>;

    open spec fn view(&self) -> StartupModel<P> {
        StartupModel {
            config: self.config,
            frames: self.frames@,
            pending: self.pending,
            samples: self.samples@,
            reference: self.reference@,
            first_ns: self.first_ns,
            last_ns: self.last_ns,
            last_imu_ns: self.last_imu_ns,
            disparity: self.disparity,
            minimum_common: self.minimum_common,
            failed: self.failed,
            released: self.released,
            motion_excited: self.motion_excited,
            report: self.report,
        }
    }
}

/// How many samples the frames carry.
pub open spec fn carried<P>(frames: Seq<StartupFrame<P>>) -> nat
    decreases frames.len(),
{
    if frames.len() == 0 {
        0
    } else {
        carried(frames.drop_last()) + frames.last().imu@.len()
    }
}

/// What the samples of a frame leave behind: the time of the last one, whether any deviates from
/// rest, and those that belong to the window.
#[verifier::ext_equal]
pub ghost struct SampleWalk {
    pub last_imu_ns: Option<i64>,
    pub motion_excited: bool,
    pub samples: Seq<StartupSample>,
}

/// Whether a sample follows the last one, does not come after its frame, and is finite.
pub open spec fn sample_valid(last: Option<i64>, sample: StartupSample, frame_ns: i64) -> bool {
    &&& last matches Some(t) ==> t < sample.timestamp_ns
    &&& sample.timestamp_ns <= frame_ns
    &&& finite3(sample.gyro)
    &&& finite3(sample.accel)
}

impl<P> StartupModel<P> {
    /// Takes in the first `n` samples of a frame.
    pub open spec fn walked(self, frame: StartupFrame<P>, end: int, n: int) -> Result<
        SampleWalk,
        StartupError,
    >
        decreases n,
    {
        if n <= 0 {
            Ok(
                SampleWalk {
                    last_imu_ns: self.last_imu_ns,
                    motion_excited: self.motion_excited,
                    samples: self.samples,
                },
            )
        } else {
            match self.walked(frame, end, n - 1) {
                Err(e) => Err(e),
                Ok(walk) => {
                    let sample = frame.imu@[n - 1];
                    if !sample_valid(walk.last_imu_ns, sample, frame.timestamp_ns) {
                        Err(StartupError::ImuInput)
                    } else if self.report is Some && (walk.last_imu_ns matches Some(t)
                        && saturating_difference(sample.timestamp_ns, t)
                        > self.config.max_imu_gap_ns) {
                        Err(StartupError::WaitGap)
                    } else if self.report is None && self.started(frame) <= sample.timestamp_ns
                        < end {
                        if walk.samples.len() >= self.config.max_imu_samples {
                            Err(StartupError::SampleLimit)
                        } else {
                            Ok(
                                SampleWalk {
                                    last_imu_ns: Some(sample.timestamp_ns),
                                    motion_excited: walk.motion_excited,
                                    samples: walk.samples.push(sample),
                                },
                            )
                        }
                    } else {
                        Ok(
                            SampleWalk {
                                last_imu_ns: Some(sample.timestamp_ns),
                                motion_excited: walk.motion_excited || (self.report is Some
                                    && double_less(
                                    self.config.motion_accel_deviation_m_s2,
                                    sample.deviation,
                                )),
                                samples: walk.samples,
                            },
                        )
                    }
                },
            }
        }
    }

    /// When the start began, once this frame has come.
    pub open spec fn started(self, frame: StartupFrame<P>) -> i64 {
        match self.first_ns {
            Some(t) => t,
            None => frame.timestamp_ns,
        }
    }

    /// The end of the window.
    pub open spec fn window_end(self, frame: StartupFrame<P>) -> int {
        self.started(frame) + self.config.window_ns
    }

    /// Why a frame cannot be taken in before its images are looked at.
    pub open spec fn admission_error(self, frame: StartupFrame<P>) -> Option<StartupError> {
        if self.last_ns matches Some(t) && frame.timestamp_ns <= t {
            Some(StartupError::CameraOrder)
        } else if saturating_difference(frame.timestamp_ns, self.started(frame))
            > self.config.max_wait_ns {
            Some(StartupError::TimedOut)
        } else if self.window_end(frame) > i64::MAX {
            Some(StartupError::TimestampOverflow)
        } else if self.frames.len() >= self.config.max_frames {
            Some(StartupError::FrameLimit)
        } else if carried(self.frames) + frame.imu@.len() > self.config.max_imu_samples {
            Some(StartupError::PacketLimit)
        } else {
            match self.walked(frame, self.window_end(frame), frame.imu@.len() as int) {
                Err(e) => Some(e),
                Ok(walk) => None,
            }
        }
    }

    /// The start after a frame has been taken in and before its images are looked at.
    pub open spec fn admitted(self, frame: StartupFrame<P>) -> StartupModel<P> {
        let walk = self.walked(frame, self.window_end(frame), frame.imu@.len() as int)->Ok_0;
        StartupModel {
            pending: Some(frame),
            first_ns: Some(self.started(frame)),
            last_ns: Some(frame.timestamp_ns),
            last_imu_ns: walk.last_imu_ns,
            motion_excited: walk.motion_excited,
            samples: walk.samples,
            ..self
        }
    }

    /// The frames that were taken in and not yet released, in their order.
    pub open spec fn in_hand(self) -> Seq<StartupFrame<P>> {
        match self.pending {
            Some(frame) => self.frames.push(frame),
            None => self.frames,
        }
    }

    /// The start after a fault.
    pub open spec fn broken(self) -> StartupModel<P> {
        StartupModel { failed: true, pending: None, ..self }
    }

    /// Whether the next frame is the first.
    pub open spec fn is_first(self) -> bool {
        self.frames.len() == 0 && self.report is None
    }

    /// Whether the next frame is the first that can be matched with an earlier one.
    pub open spec fn is_second(self) -> bool {
        self.frames.len() == 1 && self.report is None
    }

    /// The tracks that the pending frame is measured against.
    pub open spec fn anchor(self, current: Map<u64, Pixel>) -> Map<u64, Pixel> {
        if self.is_first() {
            current
        } else {
            self.reference
        }
    }

    /// The tracks that persist into the pending frame, in ascending order.
    pub open spec fn persisting(self, current: Map<u64, Pixel>) -> Seq<u64> {
        ascending(self.anchor(current).dom()).filter(|id: u64| current.dom().contains(id))
    }

    /// The settings that the pending frame is judged by: newly found corners need not persist in
    /// the first match, and motion is no fault while it is waited for.
    pub open spec fn visual_config(self) -> StationaryStartupConfig {
        if self.report is Some {
            StationaryStartupConfig {
                max_disparity_p90_px: DOUBLE_MAX,
                min_track_fraction: 0,
                ..self.config
            }
        } else if self.is_second() {
            StationaryStartupConfig { min_track_fraction: 0, ..self.config }
        } else {
            self.config
        }
    }

    /// How the images of the pending frame are judged.
    pub open spec fn judged(
        self,
        current: Map<u64, Pixel>,
        distances: Seq<u64>,
        short: bool,
    ) -> Result<(nat, u64), StartupError> {
        motion_result(
            distances,
            self.anchor(current).dom().len(),
            short && !(self.report is Some || self.is_second()),
            self.visual_config(),
        )
    }

    /// The tracks that the next frame will be measured against: from the first match on those that
    /// persist, and while motion is waited for a new set where too few are left that barely moved.
    pub open spec fn next_reference(
        self,
        current: Map<u64, Pixel>,
        disparity: u64,
        short: bool,
    ) -> Map<u64, Pixel> {
        if self.report is Some && double_less(disparity, self.config.motion_disparity_px) && short {
            current
        } else if self.is_second() {
            self.reference.restrict(current.dom())
        } else {
            self.anchor(current)
        }
    }

    /// The start once the images of the pending frame have been judged.
    pub open spec fn observed(
        self,
        current: Map<u64, Pixel>,
        common: nat,
        disparity: u64,
        short: bool,
    ) -> StartupModel<P> {
        StartupModel {
            frames: self.frames.push(self.pending->Some_0),
            pending: None,
            reference: self.next_reference(current, disparity, short),
            minimum_common: if common < self.minimum_common {
                common as usize
            } else {
                self.minimum_common
            },
            disparity: if double_less(self.disparity, disparity) {
                disparity
            } else {
                self.disparity
            },
            ..self
        }
    }

    /// The start with only its last frame left, the others counted as discarded.
    pub open spec fn waiting(self) -> StartupModel<P> {
        let count = self.frames.len() - 1;
        StartupModel {
            frames: seq![self.frames.last()],
            report: Some(
                StationaryStartupReport {
                    discarded_stationary_frames: (self.report->Some_0.discarded_stationary_frames
                        + count) as usize,
                    ..self.report->Some_0
                },
            ),
            ..self
        }
    }

    /// The start with its frames released.
    pub open spec fn opened(self) -> StartupModel<P> {
        StartupModel {
            frames: Seq::empty(),
            reference: Map::empty(),
            released: true,
            ..self
        }
    }

    /// The start once the statistics of the window have passed.
    pub open spec fn settled(self, stats: ImuStatistics) -> StartupModel<P> {
        let ready = self.frames.last().timestamp_ns;
        let reported = StartupModel {
            samples: Seq::empty(),
            report: Some(
                StationaryStartupReport {
                    config: self.config,
                    first_camera_ns: self.first_ns->Some_0,
                    ready_camera_ns: ready,
                    buffered_frames: self.frames.len() as usize,
                    released_camera_ns: if self.config.wait_for_motion {
                        None
                    } else {
                        Some(ready)
                    },
                    discarded_stationary_frames: 0,
                    imu_samples: self.samples.len() as usize,
                    gyro_offset_rad_s: stats.gyro,
                    mean_accel_m_s2: stats.accel,
                    gyro_std_rad_s: stats.gyro_std,
                    accel_std_m_s2: stats.accel_std,
                    max_disparity_p90_px: self.disparity,
                    minimum_common_tracks: self.minimum_common,
                },
            ),
            ..self
        };
        if self.config.wait_for_motion {
            reported.waiting()
        } else {
            reported.opened()
        }
    }

    /// Whether the window is complete and its statistics are due.
    pub open spec fn ready(self) -> bool {
        &&& self.report is None
        &&& self.frames.len() > 0
        &&& self.first_ns matches Some(first) && self.frames.last().timestamp_ns >= first
            + self.config.window_ns
    }

    /// What taking a frame in leads to: the start after it and the frames that go on, or the fault.
    pub open spec fn taken(self, frame: StartupFrame<P>) -> Result<
        (StartupModel<P>, Seq<StartupFrame<P>>),
        StartupError,
    > {
        if self.failed {
            Err(StartupError::PreviouslyFailed)
        } else if self.released {
            Ok((self, seq![frame]))
        } else {
            match self.admission_error(frame) {
                Some(e) => Err(e),
                None => Ok((self.admitted(frame), Seq::empty())),
            }
        }
    }

    /// What judging the images of the pending frame leads to.
    pub open spec fn looked_at(
        self,
        current: Map<u64, Pixel>,
        distances: Seq<u64>,
        short: bool,
    ) -> Result<(StartupModel<P>, Seq<StartupFrame<P>>), StartupError> {
        match self.judged(current, distances, short) {
            Err(e) => Err(e),
            Ok(m) => {
                let seen = self.observed(current, m.0, m.1, short);
                if self.report is None {
                    Ok((seen, Seq::empty()))
                } else if double_at_most(self.config.motion_disparity_px, m.1)
                    && seen.motion_excited {
                    Ok(
                        (
                            StartupModel {
                                report: Some(
                                    StationaryStartupReport {
                                        released_camera_ns: Some(seen.frames.last().timestamp_ns),
                                        ..seen.report->Some_0
                                    },
                                ),
                                ..seen.opened()
                            },
                            seen.frames,
                        ),
                    )
                } else {
                    Ok((seen.waiting(), Seq::empty()))
                }
            },
        }
    }

    /// What judging the samples of a complete window leads to.
    pub open spec fn weighed(self, stats: ImuStatistics) -> Result<
        (StartupModel<P>, Seq<StartupFrame<P>>),
        StartupError,
    > {
        let first = self.first_ns->Some_0;
        match statistics_error(
            self.samples.map_values(|s: StartupSample| s.timestamp_ns),
            first,
            (first + self.config.window_ns) as i64,
            self.config,
            stats,
        ) {
            Some(e) => Err(e),
            None => Ok(
                (
                    self.settled(stats),
                    if self.config.wait_for_motion {
                        Seq::empty()
                    } else {
                        self.frames
                    },
                ),
            ),
        }
    }

    /// What every start keeps: sensible settings, bounded buffers, frames in the order of time, one
    /// waiting frame at most once the window has passed, and none held after the release, which
    /// follows a report.
    pub open spec fn wf(self) -> bool {
        &&& self.config.valid()
        &&& self.frames.len() <= self.config.max_frames
        &&& carried(self.frames) <= self.config.max_imu_samples
        &&& self.samples.len() <= self.config.max_imu_samples
        &&& self.frames.len() > 0 || self.pending is Some ==> self.first_ns is Some
            && self.last_ns is Some
        &&& self.first_ns matches Some(first) ==> first + self.config.window_ns <= i64::MAX
            && self.last_ns is Some && first <= self.last_ns->Some_0
        &&& forall|i: int, j: int|
            0 <= i < j < self.frames.len() ==> (#[trigger] self.frames[i]).timestamp_ns < (
            #[trigger] self.frames[j]).timestamp_ns
        &&& forall|i: int|
            0 <= i < self.frames.len() ==> (#[trigger] self.frames[i]).timestamp_ns
                <= self.last_ns->Some_0
        &&& self.report is Some ==> self.released || self.frames.len() == 1
        &&& self.released ==> self.report is Some && self.frames.len() == 0
        &&& self.pending matches Some(frame) ==> {
            &&& self.frames.len() < self.config.max_frames
            &&& carried(self.frames) + frame.imu@.len() <= self.config.max_imu_samples
            &&& self.last_ns == Some(frame.timestamp_ns)
            &&& forall|i: int|
                0 <= i < self.frames.len() ==> (#[trigger] self.frames[i]).timestamp_ns
                    < frame.timestamp_ns
            &&& !self.released
            &&& self.first_ns->Some_0 <= frame.timestamp_ns
        }
    }
}

/// What a frame leads to once its images have been judged.
#[derive(Clone, Debug, PartialEq)]
pub enum StartupStep<P> {
    /// The frame is held back.
    Held,
    /// The window is complete, and the statistics of its samples are due.
    Complete,
    /// The frames go on.
    Released(Vec<StartupFrame<P>>),
}

fn carried_by<P>(frames: &Vec<StartupFrame<P>>) -> (total: usize)
    requires
        carried(frames@) <= usize::MAX,
    ensures
        total == carried(frames@),
{
    let mut total: usize = 0;
    for i in 0..frames.len()
        invariant
            total == carried(frames@.take(i as int)),
            carried(frames@) <= usize::MAX,
    {
        proof {
            let prefix = frames@.take(i + 1);
            assert(prefix.drop_last() =~= frames@.take(i as int));
            carried_grows(frames@, i + 1);
        }
        total = total + frames[i].imu.len();
    }
    assert(frames@.take(frames@.len() as int) =~= frames@);
    total
}

proof fn carried_grows<P>(frames: Seq<StartupFrame<P>>, n: int)
    requires
        0 <= n <= frames.len(),
    ensures
        carried(frames.take(n)) <= carried(frames),
    decreases frames.len(),
{
    if n < frames.len() {
        carried_grows(frames.drop_last(), n);
        assert(frames.drop_last().take(n) =~= frames.take(n));
    } else {
        assert(frames.take(n) =~= frames);
    }
}

/// Samples once refused stay refused.
proof fn walk_stops<P>(m: StartupModel<P>, frame: StartupFrame<P>, end: int, i: int, n: int)
    requires
        0 <= i <= n,
        m.walked(frame, end, i) is Err,
    ensures
        m.walked(frame, end, n) == m.walked(frame, end, i),
    decreases n,
{
    if i < n {
        walk_stops(m, frame, end, i, n - 1);
    }
}

impl<P> StationaryStartup<P> {
    /// Whether the start keeps its promises.
    pub open spec fn wf(&self) -> bool {
        self@.wf()
    }

    /// Begins a start.
    pub fn new(config: StationaryStartupConfig) -> (result: Result<Self, StartupError>)
        ensures
            match result {
                Ok(start) => config.valid() && start.wf() && start@ == new_start::<P>(config),
                Err(e) => !config.valid() && e == StartupError::Config,
            },
    {
        match config.validate() {
            Err(e) => Err(e),
            Ok(()) => Ok(
                StationaryStartup {
                    config,
                    frames: Vec::new(),
                    pending: None,
                    samples: Vec::new(),
                    reference: BTreeMap::new(),
                    first_ns: None,
                    last_ns: None,
                    last_imu_ns: None,
                    disparity: 0,
                    minimum_common: usize::MAX,
                    failed: false,
                    released: false,
                    motion_excited: false,
                    report: None,
                },
            ),
        }
    }

    /// Ends the start with a fault.
    pub fn abort(&mut self)
        ensures
            final(self)@ == old(self)@.broken(),
            old(self).wf() ==> final(self).wf(),
    {
        self.failed = true;
        self.pending = None;
    }

    /// Takes in the samples of a frame, with `samples` those of the window before it.
    fn walk(&self, frame: &StartupFrame<P>, first: i64, end: i64) -> (result: Result<
        (Option<i64>, bool, Vec<StartupSample>),
        StartupError,
    >)
        requires
            first == self@.started(*frame),
            self.samples@.len() <= self.config.max_imu_samples,
        ensures
            match self@.walked(*frame, end as int, frame.imu@.len() as int) {
                Ok(walk) => {
                    &&& result matches Ok(r)
                    &&& r.0 == walk.last_imu_ns
                    &&& r.1 == walk.motion_excited
                    &&& self.samples@ + r.2@ == walk.samples
                    &&& walk.samples.len() <= self.config.max_imu_samples
                },
                Err(e) => result == Err::<(Option<i64>, bool, Vec<StartupSample>), StartupError>(e),
            },
    {
        let mut last: Option<i64> = self.last_imu_ns;
        let mut excited: bool = self.motion_excited;
        let mut kept: Vec<StartupSample> = Vec::new();
        let ghost n = frame.imu@.len() as int;
        assert(self.samples@ + kept@ =~= self.samples@);
        for i in 0..frame.imu.len()
            invariant
                n == frame.imu@.len(),
                first == self@.started(*frame),
                self@.walked(*frame, end as int, i as int) == Ok::<SampleWalk, StartupError>(
                    SampleWalk {
                        last_imu_ns: last,
                        motion_excited: excited,
                        samples: self.samples@ + kept@,
                    },
                ),
                self.samples@.len() + kept@.len() <= self.config.max_imu_samples,
        {
            let sample: StartupSample = frame.imu[i];
            let follows: bool = match last {
                Some(t) => t < sample.timestamp_ns,
                None => true,
            };
            let gap: bool = match last {
                Some(t) => exceeds(sample.timestamp_ns, t, self.config.max_imu_gap_ns),
                None => false,
            };
            let ghost next = self@.walked(*frame, end as int, i + 1);
            if !follows || sample.timestamp_ns > frame.timestamp_ns || !is_finite3(&sample.gyro)
                || !is_finite3(&sample.accel) {
                proof {
                    assert(next == Err::<SampleWalk, StartupError>(StartupError::ImuInput));
                    walk_stops(self@, *frame, end as int, i + 1, n);
                }
                return Err(StartupError::ImuInput);
            }
            if self.report.is_some() && gap {
                proof {
                    assert(next == Err::<SampleWalk, StartupError>(StartupError::WaitGap));
                    walk_stops(self@, *frame, end as int, i + 1, n);
                }
                return Err(StartupError::WaitGap);
            }
            last = Some(sample.timestamp_ns);
            if self.report.is_some() {
                if is_double_less(self.config.motion_accel_deviation_m_s2, sample.deviation) {
                    excited = true;
                }
            } else if first <= sample.timestamp_ns && sample.timestamp_ns < end {
                if self.samples.len() + kept.len() >= self.config.max_imu_samples {
                    proof {
                        assert(next == Err::<SampleWalk, StartupError>(StartupError::SampleLimit));
                        walk_stops(self@, *frame, end as int, i + 1, n);
                    }
                    return Err(StartupError::SampleLimit);
                }
                let ghost before = self.samples@ + kept@;
                kept.push(sample);
                assert(self.samples@ + kept@ =~= before.push(sample));
            }
        }
        Ok((last, excited, kept))
    }

    /// Takes a frame in. After the release it goes straight on. Before it, the frame becomes the
    /// pending one, whose images are to be judged next. Any fault ends the start.
    pub fn push(&mut self, frame: StartupFrame<P>) -> (result: Result<
        Option<StartupFrame<P>>,
        StartupError,
    >)
        requires
            old(self).wf(),
            old(self).pending is None,
        ensures
            final(self).wf(),
            match old(self)@.taken(frame) {
                Err(e) => {
                    &&& result == Err::<Option<StartupFrame<P>>, StartupError>(e)
                    &&& final(self)@ == if old(self)@.failed {
                        old(self)@
                    } else {
                        old(self)@.broken()
                    }
                },
                Ok(next) => {
                    &&& final(self)@ == next.0
                    &&& match result {
                        Ok(Some(out)) => old(self)@.released && next.1 == seq![out],
                        Ok(None) => !old(self)@.released && next.1.len() == 0,
                        Err(e) => false,
                    }
                },
            },
    {
        if self.failed {
            return Err(StartupError::PreviouslyFailed);
        }
        if self.released {
            return Ok(Some(frame));
        }
        let first: i64 = match self.first_ns {
            Some(t) => t,
            None => frame.timestamp_ns,
        };
        let ordered: bool = match self.last_ns {
            Some(t) => t < frame.timestamp_ns,
            None => true,
        };
        if !ordered {
            self.abort();
            return Err(StartupError::CameraOrder);
        }
        if exceeds(frame.timestamp_ns, first, self.config.max_wait_ns) {
            self.abort();
            return Err(StartupError::TimedOut);
        }
        let end: i64 = match first.checked_add(self.config.window_ns) {
            Some(end) => end,
            None => {
                self.abort();
                return Err(StartupError::TimestampOverflow);
            },
        };
        if self.frames.len() >= self.config.max_frames {
            self.abort();
            return Err(StartupError::FrameLimit);
        }
        let held: usize = carried_by(&self.frames);
        if frame.imu.len() > self.config.max_imu_samples - held {
            self.abort();
            return Err(StartupError::PacketLimit);
        }
        match self.walk(&frame, first, end) {
            Err(e) => {
                self.abort();
                Err(e)
            },
            Ok(walk) => {
                let (last, excited, kept) = walk;
                let mut kept = kept;
                self.samples.append(&mut kept);
                self.last_imu_ns = last;
                self.motion_excited = excited;
                self.first_ns = Some(first);
                self.last_ns = Some(frame.timestamp_ns);
                self.pending = Some(frame);
                Ok(None)
            },
        }
    }

    /// The tracks that persist into the pending frame, each with where it was and where it is:
    /// what the distances are measured from.
    pub fn persisting(&self, current: &BTreeMap<u64, Pixel>) -> (pairs: Vec<(u64, Pixel, Pixel)>)
        ensures
            pairs@ == self@.persisting(current@).map_values(
                |id: u64| (id, self@.anchor(current@)[id], current@[id]),
            ),
    {
        let first: bool = self.frames.len() == 0 && self.report.is_none();
        let keys: Vec<u64> = if first {
            map_keys(current)
        } else {
            map_keys(&self.reference)
        };
        let ghost keep = |id: u64| current@.dom().contains(id);
        let ghost pair = |id: u64| (id, self@.anchor(current@)[id], current@[id]);
        let mut pairs: Vec<(u64, Pixel, Pixel)> = Vec::new();
        proof {
            reveal(Seq::filter);
            assert(keys@.take(0).filter(keep) =~= Seq::empty());
            assert(pairs@ =~= keys@.take(0).filter(keep).map_values(pair));
        }
        for i in 0..keys.len()
            invariant
                first == self@.is_first(),
                keys@ == ascending(self@.anchor(current@).dom()),
                keys@.to_set() == self@.anchor(current@).dom(),
                keep == (|id: u64| current@.dom().contains(id)),
                pair == (|id: u64| (id, self@.anchor(current@)[id], current@[id])),
                pairs@ == keys@.take(i as int).filter(keep).map_values(pair),
        {
            let id: u64 = keys[i];
            proof {
                filter_next(keys@, keep, i as int);
                assert(keys@.to_set().contains(keys@[i as int]));
            }
            let ghost before = keys@.take(i as int).filter(keep);
            if let Some(now) = current.get(&id) {
                let was: Pixel = if first {
                    *now
                } else {
                    match self.reference.get(&id) {
                        Some(p) => *p,
                        None => *now,
                    }
                };
                pairs.push((id, was, *now));
                assert(before.push(id).map_values(pair) =~= before.map_values(pair).push(pair(id)));
            }
        }
        assert(keys@.take(keys@.len() as int) =~= keys@);
        pairs
    }

    /// Judges the images of the pending frame. `current` are the tracks seen in it, `distances` how
    /// far the persisting ones moved, and `short` says that they are fewer than the configured
    /// fraction of the tracks that motion is measured against.
    pub fn observe(
        &mut self,
        current: BTreeMap<u64, Pixel>,
        distances: &Vec<u64>,
        short: bool,
    ) -> (result: Result<StartupStep<P>, StartupError>)
        requires
            old(self).wf(),
            old(self).pending is Some,
            old(self).report matches Some(r) ==> r.discarded_stationary_frames < usize::MAX,
            old(self)@.anchor(current@).dom().len() <= usize::MAX,
        ensures
            final(self).wf(),
            match old(self)@.looked_at(current@, distances@, short) {
                Err(e) => {
                    &&& result == Err::<StartupStep<P>, StartupError>(e)
                    &&& final(self)@ == old(self)@.broken()
                },
                Ok(next) => {
                    &&& final(self)@ == next.0
                    &&& match result {
                        Ok(StartupStep::Released(out)) => next.0.released && out@ == next.1,
                        Ok(StartupStep::Complete) => !next.0.released && next.0.ready(),
                        Ok(StartupStep::Held) => !next.0.released && !next.0.ready(),
                        Err(e) => false,
                    }
                },
            },
    {
        let first: bool = self.frames.len() == 0 && self.report.is_none();
        let second: bool = self.frames.len() == 1 && self.report.is_none();
        let mut visual: StationaryStartupConfig = self.config;
        if second {
            visual.min_track_fraction = 0;
        }
        if self.report.is_some() {
            visual.max_disparity_p90_px = DOUBLE_MAX;
            visual.min_track_fraction = 0;
        }
        let anchored: usize = if first {
            current.len()
        } else {
            self.reference.len()
        };
        let relaxed: bool = second || self.report.is_some();
        let (common, disparity) = match visual_motion(distances, anchored, short && !relaxed, &visual) {
            Err(e) => {
                self.abort();
                return Err(e);
            },
            Ok(m) => m,
        };
        if second {
            let ids: Vec<u64> = map_keys(&current);
            retain_ids(&mut self.reference, &ids);
        }
        if first || (self.report.is_some() && is_double_less(
            disparity,
            self.config.motion_disparity_px,
        ) && short) {
            self.reference = current;
        }
        if common < self.minimum_common {
            self.minimum_common = common;
        }
        if is_double_less(self.disparity, disparity) {
            self.disparity = disparity;
        }
        let frame = self.pending.take().unwrap();
        let ready_ns: i64 = frame.timestamp_ns;
        let ghost before = self.frames@;
        self.frames.push(frame);
        proof {
            assert(self.frames@.drop_last() =~= before);
        }
        if let Some(report) = self.report {
            if is_double_at_most(self.config.motion_disparity_px, disparity)
                && self.motion_excited {
                let mut report: StationaryStartupReport = report;
                report.released_camera_ns = Some(ready_ns);
                self.report = Some(report);
                return Ok(StartupStep::Released(self.release()));
            }
            self.retain_last_stationary_frame();
            return Ok(StartupStep::Held);
        }
        let end: i64 = match self.first_ns {
            Some(first) => first + self.config.window_ns,
            None => i64::MAX,
        };
        if ready_ns < end {
            return Ok(StartupStep::Held);
        }
        Ok(StartupStep::Complete)
    }

    fn release(&mut self) -> (out: Vec<StartupFrame<P>>)
        requires
            old(self).pending is None,
            old(self).config.valid(),
            old(self).report is Some,
            old(self).samples@.len() <= old(self).config.max_imu_samples,
            old(self).first_ns matches Some(first) ==> first + old(self).config.window_ns
                <= i64::MAX && old(self).last_ns is Some && first <= old(self).last_ns->Some_0,
        ensures
            out@ == old(self).frames@,
            final(self)@ == old(self)@.opened(),
            final(self).wf(),
    {
        let mut out: Vec<StartupFrame<P>> = Vec::new();
        std::mem::swap(&mut out, &mut self.frames);
        self.reference = BTreeMap::new();
        self.released = true;
        out
    }

    fn retain_last_stationary_frame(&mut self)
        requires
            old(self).pending is None,
            !old(self).released,
            old(self).config.valid(),
            old(self).frames@.len() > 0,
            carried(old(self).frames@) <= old(self).config.max_imu_samples,
            old(self).samples@.len() <= old(self).config.max_imu_samples,
            old(self).first_ns is Some,
            old(self).last_ns is Some,
            old(self).first_ns->Some_0 + old(self).config.window_ns <= i64::MAX,
            old(self).first_ns->Some_0 <= old(self).last_ns->Some_0,
            old(self).frames@.last().timestamp_ns <= old(self).last_ns->Some_0,
            old(self).report matches Some(r) && r.discarded_stationary_frames
                + old(self).frames@.len() - 1 <= usize::MAX,
        ensures
            final(self)@ == old(self)@.waiting(),
            final(self).wf(),
    {
        let count: usize = self.frames.len() - 1;
        let last = self.frames.pop().unwrap();
        let ghost kept = last;
        self.frames.clear();
        self.frames.push(last);
        if let Some(report) = self.report {
            let mut report: StationaryStartupReport = report;
            report.discarded_stationary_frames = report.discarded_stationary_frames + count;
            self.report = Some(report);
        }
        proof {
            assert(self.frames@ =~= seq![kept]);
            assert(self.frames@.drop_last() =~= Seq::empty());
            assert(carried(self.frames@.drop_last()) == 0);
            assert(carried(self.frames@) == kept.imu@.len());
        }
    }

    /// Judges the samples of a complete window. A device at rest is reported, and its frames are
    /// released, or all but the last discarded where the start waits for motion.
    pub fn settle(&mut self, stats: &ImuStatistics) -> (result: Result<
        StartupStep<P>,
        StartupError,
    >)
        requires
            old(self).wf(),
            old(self).pending is None,
            old(self)@.ready(),
        ensures
            final(self).wf(),
            match old(self)@.weighed(*stats) {
                Err(e) => {
                    &&& result == Err::<StartupStep<P>, StartupError>(e)
                    &&& final(self)@ == old(self)@.broken()
                },
                Ok(next) => {
                    &&& final(self)@ == next.0
                    &&& match result {
                        Ok(StartupStep::Released(out)) => !old(self).config.wait_for_motion
                            && out@ == next.1,
                        Ok(StartupStep::Held) => old(self).config.wait_for_motion,
                        Ok(StartupStep::Complete) => false,
                        Err(e) => false,
                    }
                },
            },
    {
        let first: i64 = self.first_ns.unwrap();
        let end: i64 = first + self.config.window_ns;
        let ghost time = |s: StartupSample| s.timestamp_ns;
        let mut times: Vec<i64> = Vec::new();
        for i in 0..self.samples.len()
            invariant
                time == (|s: StartupSample| s.timestamp_ns),
                times@ == self.samples@.take(i as int).map_values(time),
        {
            times.push(self.samples[i].timestamp_ns);
            assert(times@ =~= self.samples@.take(i + 1).map_values(time));
        }
        assert(self.samples@.take(self.samples@.len() as int) =~= self.samples@);
        match stationary_statistics(&times, first, end, &self.config, stats) {
            Err(e) => {
                self.abort();
                return Err(e);
            },
            Ok(()) => {},
        }
        let ready_ns: i64 = self.frames[self.frames.len() - 1].timestamp_ns;
        self.report = Some(
            StationaryStartupReport {
                config: self.config,
                first_camera_ns: first,
                ready_camera_ns: ready_ns,
                buffered_frames: self.frames.len(),
                released_camera_ns: if self.config.wait_for_motion {
                    None
                } else {
                    Some(ready_ns)
                },
                discarded_stationary_frames: 0,
                imu_samples: self.samples.len(),
                gyro_offset_rad_s: stats.gyro,
                mean_accel_m_s2: stats.accel,
                gyro_std_rad_s: stats.gyro_std,
                accel_std_m_s2: stats.accel_std,
                max_disparity_p90_px: self.disparity,
                minimum_common_tracks: self.minimum_common,
            },
        );
        self.samples.clear();
        if self.config.wait_for_motion {
            self.retain_last_stationary_frame();
            return Ok(StartupStep::Held);
        }
        Ok(StartupStep::Released(self.release()))
    }

    /// The oldest frame held back.
    pub fn oldest_buffered_frame_id(&self) -> (id: Option<u64>)
        ensures
            id == if self.frames@.len() > 0 {
                Some(self.frames@[0].frame_id)
            } else {
                None::<u64>
            },
    {
        if self.frames.len() > 0 {
            Some(self.frames[0].frame_id)
        } else {
            None
        }
    }

    /// Whether the start has succeeded.
    pub fn is_initialized(&self) -> (initialized: bool)
        ensures
            initialized == (self.released && !self.failed),
    {
        self.released && !self.failed
    }

    /// Whether the stream may end.
    pub fn finish(&self) -> (result: Result<(), StartupError>)
        ensures
            result == if self.released && !self.failed {
                Ok::<(), StartupError>(())
            } else {
                Err(StartupError::Unfinished)
            },
    {
        if self.is_initialized() {
            Ok(())
        } else {
            Err(StartupError::Unfinished)
        }
    }
}

/// The frames that a judged frame may release are the held ones and it, in the order of time, within
/// the limits of the buffers, and just two where the start has waited for motion: the last one that
/// waited and the one that moves.
pub proof fn released_frames_are_in_order<P>(
    m: StartupModel<P>,
    current: Map<u64, Pixel>,
    common: nat,
    disparity: u64,
    short: bool,
)
    requires
        m.wf(),
        m.pending is Some,
    ensures
        m.observed(current, common, disparity, short).frames == m.frames.push(m.pending->Some_0),
        ({
            let out = m.observed(current, common, disparity, short).frames;
            &&& forall|i: int, j: int|
                0 <= i < j < out.len() ==> (#[trigger] out[i]).timestamp_ns < (
                #[trigger] out[j]).timestamp_ns
            &&& 0 < out.len() <= m.config.max_frames
            &&& carried(out) <= m.config.max_imu_samples
            &&& m.report is Some ==> out == seq![m.frames.last(), m.pending->Some_0]
        }),
{
    let out = m.observed(current, common, disparity, short).frames;
    assert(out.drop_last() =~= m.frames);
    if m.report is Some {
        assert(out =~= seq![m.frames.last(), m.pending->Some_0]);
    }
}

/// A frame that is taken in stays as it is and in its place until it is released: taking one in adds
/// it behind those in hand, judging it changes none of them, and only a start that waits for motion
/// lets go of frames, of all but the last, and counts them.
pub proof fn frames_pass_unchanged<P>(
    m: StartupModel<P>,
    frame: StartupFrame<P>,
    current: Map<u64, Pixel>,
    common: nat,
    disparity: u64,
    short: bool,
)
    requires
        m.wf(),
    ensures
        m.pending is None ==> m.admitted(frame).in_hand() == m.in_hand().push(frame),
        m.pending is Some ==> m.observed(current, common, disparity, short).in_hand()
            == m.in_hand(),
        m.pending is None && m.frames.len() > 0 && m.report is Some ==> {
            &&& m.waiting().in_hand() == seq![m.in_hand().last()]
            &&& m.waiting().report->Some_0.discarded_stationary_frames == (
            m.report->Some_0.discarded_stationary_frames + m.in_hand().len() - 1) as usize
        },
{
    assert(m.admitted(frame).in_hand() =~= m.frames.push(frame));
    if m.pending is Some {
        assert(m.observed(current, common, disparity, short).in_hand() =~= m.in_hand());
    } else {
        assert(m.in_hand() =~= m.frames);
    }
    assert(m.waiting().frames =~= seq![m.frames.last()]);
    if m.pending is None {
        assert(m.waiting().in_hand() =~= seq![m.frames.last()]);
    }
}

/// What happens to a start: a frame comes, its images are judged, or the samples of the window are.
pub ghost enum StartupEvent<P> {
    Frame(StartupFrame<P>),
    Images { current: Map<u64, Pixel>, distances: Seq<u64>, short: bool },
    Samples(ImuStatistics),
}

/// A start under way: what it holds, the frames that came, and those that went on.
#[verifier::ext_equal]
pub ghost struct StartupHistory<P> {
    pub start: StartupModel<P>,
    pub came: Seq<StartupFrame<P>>,
    pub out: Seq<StartupFrame<P>>,
}

/// The start of a session before anything has happened.
pub open spec fn new_start<P>(config: StationaryStartupConfig) -> StartupModel<P> {
    StartupModel {
        config,
        frames: Seq::empty(),
        pending: None,
        samples: Seq::empty(),
        reference: Map::empty(),
        first_ns: None,
        last_ns: None,
        last_imu_ns: None,
        disparity: 0,
        minimum_common: usize::MAX,
        failed: false,
        released: false,
        motion_excited: false,
        report: None,
    }
}

impl<P> StartupModel<P> {
    /// What an event leads to. None where it is not its turn, or where it is a fault.
    pub open spec fn after(self, event: StartupEvent<P>) -> Option<
        (StartupModel<P>, Seq<StartupFrame<P>>),
    > {
        let next = match event {
            StartupEvent::Frame(frame) => if self.pending is None {
                Some(self.taken(frame))
            } else {
                None
            },
            StartupEvent::Images { current, distances, short } => if self.pending is Some && (
            self.report matches Some(r) ==> r.discarded_stationary_frames < usize::MAX) {
                Some(self.looked_at(current, distances, short))
            } else {
                None
            },
            StartupEvent::Samples(stats) => if self.pending is None && self.ready() {
                Some(self.weighed(stats))
            } else {
                None
            },
        };
        match next {
            Some(Ok(step)) => Some(step),
            _ => None,
        }
    }

    /// How many frames were let go of while motion was waited for.
    pub open spec fn discarded(self) -> nat {
        match self.report {
            Some(r) => r.discarded_stationary_frames as nat,
            None => 0,
        }
    }
}

/// A start after a run of events without a fault.
pub open spec fn started_run<P>(
    config: StationaryStartupConfig,
    events: Seq<StartupEvent<P>>,
) -> Option<StartupHistory<P>>
    decreases events.len(),
{
    if events.len() == 0 {
        Some(
            StartupHistory {
                start: new_start(config),
                came: Seq::empty(),
                out: Seq::empty(),
            },
        )
    } else {
        match started_run(config, events.drop_last()) {
            None => None,
            Some(h) => match h.start.after(events.last()) {
                None => None,
                Some(next) => Some(
                    StartupHistory {
                        start: next.0,
                        came: match events.last() {
                            StartupEvent::Frame(frame) => h.came.push(frame),
                            _ => h.came,
                        },
                        out: h.out + next.1,
                    },
                ),
            },
        }
    }
}

/// Frames go on unchanged and in the order in which they came: those that went on and those in hand
/// are together all that came, but for the first ones that were let go of while motion was waited for.
/// None are where the start does not wait. Where it does, nothing goes on before the last waiting frame
/// and the one that moves.
pub proof fn frames_go_on_in_order<P>(
    config: StationaryStartupConfig,
    events: Seq<StartupEvent<P>>,
)
    requires
        started_run(config, events) is Some,
    ensures
        ({
            let h = started_run(config, events)->Some_0;
            &&& h.start.discarded() <= h.came.len()
            &&& h.out + h.start.in_hand() == h.came.skip(h.start.discarded() as int)
            &&& !config.wait_for_motion ==> h.start.discarded() == 0
            &&& !h.start.released ==> h.out.len() == 0
            &&& config.wait_for_motion && h.start.released ==> h.out.len() >= 2
        }),
{
    history_keeps_its_frames(config, events);
}

proof fn history_keeps_its_frames<P>(
    config: StationaryStartupConfig,
    events: Seq<StartupEvent<P>>,
)
    requires
        started_run(config, events) is Some,
    ensures
        ({
            let h = started_run(config, events)->Some_0;
            let m = h.start;
            &&& m.config == config
            &&& m.frames.len() <= config.max_frames
            &&& m.pending is Some ==> m.frames.len() < config.max_frames
            &&& m.released ==> m.frames.len() == 0 && m.pending is None && m.report is Some
            &&& m.report is Some && !m.released ==> m.frames.len() == 1 && config.wait_for_motion
            &&& m.discarded() <= h.came.len()
            &&& h.out + m.in_hand() == h.came.skip(m.discarded() as int)
            &&& !config.wait_for_motion ==> m.discarded() == 0
            &&& !m.released ==> h.out.len() == 0
            &&& config.wait_for_motion && m.released ==> h.out.len() >= 2
        }),
    decreases events.len(),
{
    if events.len() == 0 {
        let h = started_run(config, events)->Some_0;
        assert(h.out + h.start.in_hand() =~= h.came.skip(0));
    } else {
        history_keeps_its_frames(config, events.drop_last());
        let before = started_run(config, events.drop_last())->Some_0;
        let h = started_run(config, events)->Some_0;
        let m = before.start;
        let next = m.after(events.last())->Some_0;
        let d = m.discarded() as int;
        match events.last() {
            StartupEvent::Frame(frame) => {
                assert(h.came.skip(d) =~= before.came.skip(d).push(frame));
                assert(h.out + h.start.in_hand() =~= h.came.skip(d));
            },
            StartupEvent::Images { current, distances, short } => {
                let step = m.judged(current, distances, short)->Ok_0;
                let seen = m.observed(current, step.0, step.1, short);
                assert(seen.frames == m.in_hand());
                if m.report is None {
                    assert(h.out + h.start.in_hand() =~= h.came.skip(d));
                } else if h.start.released {
                    assert(h.out + h.start.in_hand() =~= h.came.skip(d));
                } else {
                    assert(before.out + m.in_hand() =~= m.in_hand());
                    assert(m.in_hand() == before.came.skip(d));
                    assert(h.start.discarded() == d + 1);
                    assert(h.out + h.start.in_hand() =~= before.came.skip(d).skip(1));
                    assert(before.came.skip(d).skip(1) =~= h.came.skip(d + 1));
                }
            },
            StartupEvent::Samples(stats) => {
                let k = m.frames.len() - 1;
                assert(m.in_hand() == m.frames);
                assert(before.out + m.in_hand() =~= m.frames);
                assert(m.frames == before.came.skip(0));
                if config.wait_for_motion {
                    assert(h.start.discarded() == k);
                    assert(h.out + h.start.in_hand() =~= before.came.skip(0).skip(k));
                    assert(before.came.skip(0).skip(k) =~= h.came.skip(k));
                } else {
                    assert(h.out + h.start.in_hand() =~= h.came.skip(0));
                }
            },
        }
    }
}

/// The samples of the window are those that came in order, from its start on and before its end.
pub proof fn window_samples_lie_in_the_window<P>(
    m: StartupModel<P>,
    frame: StartupFrame<P>,
    end: int,
    n: int,
)
    requires
        0 <= n <= frame.imu@.len(),
        m.walked(frame, end, n) is Ok,
        forall|i: int|
            0 <= i < m.samples.len() ==> m.started(frame) <= (
            #[trigger] m.samples[i]).timestamp_ns < end && m.last_imu_ns is Some
                && m.samples[i].timestamp_ns <= m.last_imu_ns->Some_0,
        forall|i: int, j: int|
            0 <= i < j < m.samples.len() ==> (#[trigger] m.samples[i]).timestamp_ns < (
            #[trigger] m.samples[j]).timestamp_ns,
    ensures
        ({
            let walk = m.walked(frame, end, n)->Ok_0;
            &&& forall|i: int|
                0 <= i < walk.samples.len() ==> m.started(frame) <= (
                #[trigger] walk.samples[i]).timestamp_ns < end && walk.last_imu_ns is Some
                    && walk.samples[i].timestamp_ns <= walk.last_imu_ns->Some_0
            &&& forall|i: int, j: int|
                0 <= i < j < walk.samples.len() ==> (#[trigger] walk.samples[i]).timestamp_ns < (
                #[trigger] walk.samples[j]).timestamp_ns
        }),
    decreases n,
{
    if n > 0 {
        window_samples_lie_in_the_window(m, frame, end, n - 1);
    }
}

/// A configuration is accepted exactly where it waits at least as long as its window, which is not empty, takes
/// two frames or more, two samples or more and as many as it needs, allows a gap, needs three tracks or more
/// and a fraction between none and all of them, and has positive finite limits.
pub proof fn configurations_are_sensible(c: StationaryStartupConfig)
    ensures
        c.valid() <==> {
            &&& 0 < c.window_ns <= c.max_wait_ns
            &&& c.max_frames > 1
            &&& 1 < c.min_imu_samples <= c.max_imu_samples
            &&& c.max_imu_gap_ns > 0
            &&& c.min_common_tracks > 2
            &&& double_at_most(0, c.min_track_fraction)
            &&& double_at_most(c.min_track_fraction, 0x3ff0_0000_0000_0000)
            &&& double_finite(c.motion_disparity_px) && double_less(0, c.motion_disparity_px)
            &&& double_finite(c.motion_accel_deviation_m_s2) && double_less(
                0,
                c.motion_accel_deviation_m_s2,
            )
            &&& double_finite(c.max_disparity_p90_px) && double_less(0, c.max_disparity_p90_px)
            &&& double_finite(c.max_gyro_std_rad_s) && double_less(0, c.max_gyro_std_rad_s)
            &&& double_finite(c.max_accel_std_m_s2) && double_less(0, c.max_accel_std_m_s2)
            &&& double_finite(c.max_gyro_mean_rad_s) && double_less(0, c.max_gyro_mean_rad_s)
            &&& double_finite(c.max_gravity_norm_error_m_s2) && double_less(
                0,
                c.max_gravity_norm_error_m_s2,
            )
        },
{
}

/// The ninth decile of some distances is one of them: in their order, the first with at least nine tenths of
/// the others not above it.
pub proof fn ninth_deciles_are_of_the_distances(distances: Seq<u64>, k: int)
    requires
        distances.len() > 0,
        9 * (distances.len() - 1) <= 10 * k < 9 * (distances.len() - 1) + 10,
    ensures
        0 <= k < distances.len(),
        ninth_decile(distances) == sorted_distances(distances)[k],
        distances.contains(ninth_decile(distances)),
        forall|j: int|
            0 <= j < k ==> double_total(#[trigger] sorted_distances(distances)[j]) <= double_total(
                ninth_decile(distances),
            ),
        forall|j: int|
            k < j < distances.len() ==> double_total(ninth_decile(distances)) <= double_total(
                #[trigger] sorted_distances(distances)[j],
            ),
{
    broadcast use vstd::seq_lib::group_to_multiset_ensures;

    let m = distances.len() - 1;
    assert(k == m - m / 10);
    let sorted = sorted_distances(distances);
    sorted_distances_are_ordered(distances);
    assert(sorted.contains(sorted[k]));
    assert(sorted.to_multiset().contains(sorted[k]));
}

/// The motion of the image is accepted exactly where enough tracks go on, their distances are finite, and the
/// ninth decile of these is not above the limit. Then it is told with their number; otherwise the first of
/// these that fails is told.
pub proof fn image_motion_is_limited(
    distances: Seq<u64>,
    reference: nat,
    short: bool,
    config: StationaryStartupConfig,
)
    ensures
        ({
            let r = motion_result(distances, reference, short, config);
            let few = distances.len() < config.min_common_tracks || short;
            let finite = forall|i: int|
                0 <= i < distances.len() ==> double_finite(#[trigger] distances[i]);
            let wide = double_less(config.max_disparity_p90_px, ninth_decile(distances));
            &&& r is Ok <==> !few && finite && !wide
            &&& r is Ok ==> r == Ok::<(nat, u64), StartupError>(
                (distances.len(), ninth_decile(distances)),
            )
            &&& few ==> r is Err && r->Err_0 is FewTracks
            &&& !few && !finite ==> r == Err::<(nat, u64), StartupError>(StartupError::TrackValues)
            &&& !few && finite && wide ==> r is Err && r->Err_0 is ImageMotion
        }),
{
}

/// The samples of a window are accepted exactly where there are enough of them, each after the one before, no
/// gap is longer than allowed, neither before the first nor after the last, and their statistics are finite
/// and within the limits.
pub proof fn samples_cover_a_still_window(
    times: Seq<i64>,
    start: i64,
    end: i64,
    config: StationaryStartupConfig,
    stats: ImuStatistics,
)
    requires
        config.min_imu_samples > 0,
    ensures
        ({
            let gap = config.max_imu_gap_ns;
            let close = times[0] <= start + gap && end <= times[times.len() - 1] + gap && forall|
                i: int,
                j: int,
            |
                0 <= i && j == i + 1 && j < times.len() ==> (#[trigger] times[i]) < (
                #[trigger] times[j]) && times[j] - times[i] <= gap;
            let still = finite3(stats.gyro) && finite3(stats.accel) && double_finite(stats.gyro_std)
                && double_finite(stats.accel_std) && !double_less(
                config.max_gyro_std_rad_s,
                stats.gyro_std,
            ) && !double_less(config.max_accel_std_m_s2, stats.accel_std) && !double_less(
                config.max_gyro_mean_rad_s,
                stats.gyro_norm,
            ) && !double_less(config.max_gravity_norm_error_m_s2, stats.gravity_error);
            let r = statistics_error(times, start, end, config, stats);
            &&& r is None <==> times.len() >= config.min_imu_samples && close && still
            &&& times.len() < config.min_imu_samples ==> r == Some(StartupError::Coverage)
            &&& times.len() >= config.min_imu_samples && !close ==> r == Some(StartupError::Gap)
            &&& times.len() >= config.min_imu_samples && close && !still ==> r is Some
                && r->0 is Moving
        }),
{
    let gap = config.max_imu_gap_ns;
    if times.len() > 0 {
        let close = times[0] <= start + gap && end <= times[times.len() - 1] + gap && forall|
            i: int,
            j: int,
        |
            0 <= i && j == i + 1 && j < times.len() ==> (#[trigger] times[i]) < (
            #[trigger] times[j]) && times[j] - times[i] <= gap;
        if covered(times, start, end, gap) {
            assert forall|i: int, j: int| 0 <= i && j == i + 1 && j < times.len() implies (
            #[trigger] times[i]) < (#[trigger] times[j]) && times[j] - times[i] <= gap by {}
            assert(close);
        }
        if close {
            assert forall|i: int, j: int| 0 <= i && j == i + 1 && j < times.len() implies (
            #[trigger] times[i]) < (#[trigger] times[j]) <= times[i] + gap by {}
            assert(covered(times, start, end, gap));
        }
    }
}

/// The samples that come with a frame are walked to their end exactly where each is finite, after the one
/// before and not after the frame; while waiting, close enough to the one before; and until then, no more of
/// them lie in the window than it may hold.
pub proof fn walks_end_where_samples_are_sound<P>(
    m: StartupModel<P>,
    frame: StartupFrame<P>,
    end: int,
    n: int,
)
    requires
        0 <= n <= frame.imu@.len(),
        m.samples.len() <= m.config.max_imu_samples,
    ensures
        m.walked(frame, end, n) is Ok <==> {
            &&& forall|i: int|
                0 <= i < n ==> finite3((#[trigger] frame.imu@[i]).gyro) && finite3(
                    frame.imu@[i].accel,
                ) && frame.imu@[i].timestamp_ns <= frame.timestamp_ns
            &&& forall|i: int, j: int|
                0 <= i && j == i + 1 && j < n ==> (#[trigger] frame.imu@[i]).timestamp_ns < (
                #[trigger] frame.imu@[j]).timestamp_ns
            &&& n > 0 && m.last_imu_ns is Some ==> m.last_imu_ns->0 < frame.imu@[0].timestamp_ns
            &&& m.report is Some ==> {
                &&& forall|i: int, j: int|
                    0 <= i && j == i + 1 && j < n ==> (
                    #[trigger] frame.imu@[j]).timestamp_ns - (
                    #[trigger] frame.imu@[i]).timestamp_ns <= m.config.max_imu_gap_ns
                        || m.config.max_imu_gap_ns == i64::MAX
                &&& n > 0 && m.last_imu_ns is Some ==> frame.imu@[0].timestamp_ns
                    - m.last_imu_ns->0 <= m.config.max_imu_gap_ns || m.config.max_imu_gap_ns
                    == i64::MAX
            }
            &&& m.report is None ==> m.samples.len() + frame.imu@.take(n).filter(
                |s: StartupSample| m.started(frame) <= s.timestamp_ns < end,
            ).len() <= m.config.max_imu_samples
        },
        m.walked(frame, end, n) matches Ok(walk) ==> {
            &&& walk.last_imu_ns == if n == 0 {
                m.last_imu_ns
            } else {
                Some(frame.imu@[n - 1].timestamp_ns)
            }
            &&& m.report is Some ==> walk.samples == m.samples
            &&& m.report is None ==> walk.samples == m.samples + frame.imu@.take(n).filter(
                |s: StartupSample| m.started(frame) <= s.timestamp_ns < end,
            )
            &&& m.report is None ==> walk.motion_excited == m.motion_excited
            &&& m.report is Some ==> (walk.motion_excited <==> m.motion_excited || exists|i: int|
                0 <= i < n && double_less(
                    m.config.motion_accel_deviation_m_s2,
                    (#[trigger] frame.imu@[i]).deviation,
                ))
        },
    decreases n,
{
    let inside = |s: StartupSample| m.started(frame) <= s.timestamp_ns < end;
    let all = frame.imu@;
    if n > 0 {
        walks_end_where_samples_are_sound(m, frame, end, n - 1);
        filter_next(all, inside, n - 1);
        let before = all.take(n - 1).filter(inside);
        let now = all.take(n).filter(inside);
        let sample = all[n - 1];
        if m.walked(frame, end, n - 1) is Ok {
            let walk = m.walked(frame, end, n - 1)->Ok_0;
            if n > 1 {
                assert(walk.last_imu_ns == Some(all[n - 2].timestamp_ns));
            }
            if m.walked(frame, end, n) is Ok {
                let next = m.walked(frame, end, n)->Ok_0;
                if m.report is None {
                    if inside(sample) {
                        assert(next.samples =~= m.samples + now);
                    }
                }
                if m.report is Some {
                    if double_less(m.config.motion_accel_deviation_m_s2, sample.deviation) {
                        assert(double_less(
                            m.config.motion_accel_deviation_m_s2,
                            all[n - 1].deviation,
                        ));
                    }
                }
            }
        }
    } else {
        reveal(Seq::filter);
        assert(all.take(0).filter(inside) =~= Seq::empty());
        assert(m.samples + all.take(0).filter(inside) =~= m.samples);
    }
}

/// A frame is held back exactly where nothing failed or was released before, it is later than the frame
/// before, not too long after the first, there is room for it and its samples, and its samples are sound. It
/// is then the one to be looked at, and the first frame of all begins the window.
pub proof fn frames_are_held_while_there_is_room<P>(m: StartupModel<P>, frame: StartupFrame<P>)
    ensures
        ({
            let first = if m.first_ns is Some {
                m.first_ns->0
            } else {
                frame.timestamp_ns
            };
            let end = first + m.config.window_ns;
            let sound = {
                &&& m.last_ns is Some ==> m.last_ns->0 < frame.timestamp_ns
                &&& frame.timestamp_ns - first <= m.config.max_wait_ns || m.config.max_wait_ns
                    == i64::MAX
                &&& end <= i64::MAX
                &&& m.frames.len() < m.config.max_frames
                &&& carried(m.frames) + frame.imu@.len() <= m.config.max_imu_samples
                &&& m.walked(frame, end, frame.imu@.len() as int) is Ok
            };
            let r = m.taken(frame);
            &&& m.failed ==> r is Err && r->Err_0 is PreviouslyFailed
            &&& !m.failed && m.released ==> r is Ok && r->Ok_0.0 == m && r->Ok_0.1 == seq![frame]
            &&& !m.failed && !m.released ==> (r is Ok <==> sound)
            &&& !m.failed && !m.released && r is Ok ==> {
                let after = r->Ok_0.0;
                let walk = m.walked(frame, end, frame.imu@.len() as int)->Ok_0;
                &&& r->Ok_0.1.len() == 0
                &&& after.pending == Some(frame)
                &&& after.first_ns == Some(first)
                &&& after.last_ns == Some(frame.timestamp_ns)
                &&& after.samples == walk.samples
                &&& after.last_imu_ns == walk.last_imu_ns
                &&& after.motion_excited == walk.motion_excited
                &&& after.frames == m.frames
                &&& after.reference == m.reference
                &&& after.report == m.report
                &&& after.config == m.config
                &&& after.disparity == m.disparity
                &&& after.minimum_common == m.minimum_common
            }
            &&& carried(Seq::<StartupFrame<P>>::empty()) == 0
            &&& carried(m.frames.push(frame)) == carried(m.frames) + frame.imu@.len()
        }),
{
    assert(m.frames.push(frame).drop_last() =~= m.frames);
}

/// The first frame of a window is what the others are measured against; at the second, tracks that did not go
/// on are given up; while waiting for motion, the reference is taken anew where tracks run short without
/// motion. Tracks are measured in ascending order, those of the reference that go on.
pub proof fn references_follow_the_tracks<P>(
    m: StartupModel<P>,
    current: Map<u64, Pixel>,
    disparity: u64,
    short: bool,
    id: u64,
)
    requires
        m.reference.dom().finite(),
        current.dom().finite(),
    ensures
        ({
            let first = m.frames.len() == 0 && m.report is None;
            let second = m.frames.len() == 1 && m.report is None;
            let anew = m.report is Some && short && double_less(
                disparity,
                m.config.motion_disparity_px,
            );
            let next = m.next_reference(current, disparity, short);
            &&& m.persisting(current).contains(id) <==> current.contains_key(id) && (first
                || m.reference.contains_key(id))
            &&& increasing(ascending(m.anchor(current).dom()))
            &&& first ==> m.anchor(current) == current && next == current
            &&& !first ==> m.anchor(current) == m.reference
            &&& anew ==> next == current
            &&& second ==> (next.contains_key(id) <==> m.reference.contains_key(id)
                && current.contains_key(id)) && (next.contains_key(id) ==> next[id]
                == m.reference[id])
            &&& !first && !second && !anew ==> next == m.reference
        }),
{
    let all = ascending(m.anchor(current).dom());
    ascending_lists_members(m.anchor(current).dom());
    filter_members(all, |t: u64| current.dom().contains(t));
    assert(all.contains(id) <==> m.anchor(current).contains_key(id)) by {
        assert(all.to_set().contains(id) <==> m.anchor(current).dom().contains(id));
    }
}

/// While waiting for motion, and at the second frame, no fraction of the tracks has to go on, and while waiting
/// the image may move; the number of tracks that is needed stays.
pub proof fn waiting_lets_the_image_move<P>(
    m: StartupModel<P>,
    current: Map<u64, Pixel>,
    distances: Seq<u64>,
    short: bool,
)
    ensures
        ({
            let lenient = m.report is Some || m.frames.len() == 1;
            let r = m.judged(current, distances, short);
            let few = distances.len() < m.config.min_common_tracks || (short && !lenient);
            let finite = forall|i: int|
                0 <= i < distances.len() ==> double_finite(#[trigger] distances[i]);
            let limit = if m.report is Some {
                0x7fef_ffff_ffff_ffff
            } else {
                m.config.max_disparity_p90_px
            };
            &&& r is Ok <==> !few && finite && !double_less(limit, ninth_decile(distances))
            &&& r matches Ok(v) ==> v.0 == distances.len() && v.1 == ninth_decile(distances)
        }),
{
}

/// A frame that was looked at joins those that are held; the least number of common tracks and the largest
/// motion are remembered. Before the window is judged nothing goes on. While waiting, the frames go on, all of
/// them and in their order, exactly where the image moved far enough and the acceleration told of motion;
/// otherwise only the newest is kept and the others are counted as discarded.
pub proof fn waiting_ends_with_motion<P>(
    m: StartupModel<P>,
    current: Map<u64, Pixel>,
    distances: Seq<u64>,
    short: bool,
)
    requires
        m.pending is Some,
        m.judged(current, distances, short) is Ok,
    ensures
        ({
            let common = distances.len();
            let moved = ninth_decile(distances);
            let all = m.frames.push(m.pending->0);
            let r = m.looked_at(current, distances, short);
            let after = r->Ok_0.0;
            let out = r->Ok_0.1;
            let goes = m.report is Some && double_at_most(m.config.motion_disparity_px, moved)
                && m.motion_excited;
            &&& r is Ok
            &&& after.pending is None
            &&& after.minimum_common <= m.minimum_common
            &&& after.minimum_common == m.minimum_common || after.minimum_common == common
            &&& common < m.minimum_common ==> after.minimum_common == common as usize
            &&& common >= m.minimum_common ==> after.minimum_common == m.minimum_common
            &&& double_less(m.disparity, moved) ==> after.disparity == moved
            &&& !double_less(m.disparity, moved) ==> after.disparity == m.disparity
            &&& m.report is None ==> after.frames == all && out.len() == 0 && after.report is None
                && after.released == m.released
            &&& goes ==> {
                &&& out == all
                &&& after.released
                &&& after.frames.len() == 0
                &&& after.report is Some
                &&& after.report->0.released_camera_ns == Some(m.pending->0.timestamp_ns)
                &&& after.report->0.discarded_stationary_frames
                    == m.report->0.discarded_stationary_frames
            }
            &&& m.report is Some && !goes ==> {
                &&& out.len() == 0
                &&& after.released == m.released
                &&& after.frames == seq![m.pending->0]
                &&& after.report is Some
                &&& m.report->0.discarded_stationary_frames + m.frames.len() <= usize::MAX
                    ==> after.report->0.discarded_stationary_frames
                    == m.report->0.discarded_stationary_frames + m.frames.len()
            }
        }),
{
    waiting_lets_the_image_move(m, current, distances, short);
    let all = m.frames.push(m.pending->0);
    assert(all.last() == m.pending->0);
}

/// A window is judged once a frame comes at or after its end. Where its samples are accepted it is reported as
/// it was measured, and its frames go on at once, or, where motion is waited for, only the newest is kept.
pub proof fn still_windows_are_reported<P>(m: StartupModel<P>, stats: ImuStatistics)
    requires
        m.frames.len() > 0,
        m.first_ns is Some,
        m.first_ns->0 + m.config.window_ns <= i64::MAX,
        m.frames.len() <= usize::MAX,
        m.samples.len() <= usize::MAX,
    ensures
        m.ready() <==> m.report is None && m.frames.last().timestamp_ns - m.first_ns->0
            >= m.config.window_ns,
        ({
            let r = m.weighed(stats);
            let end = (m.first_ns->0 + m.config.window_ns) as i64;
            let times = m.samples.map_values(|s: StartupSample| s.timestamp_ns);
            &&& r is Ok <==> statistics_error(
                times,
                m.first_ns->0,
                end,
                m.config,
                stats,
            ) is None
            &&& r is Ok ==> {
                let after = r->Ok_0.0;
                let out = r->Ok_0.1;
                let told = after.report->0;
                &&& after.report is Some
                &&& after.samples.len() == 0
                &&& told.config == m.config
                &&& told.first_camera_ns == m.first_ns->0
                &&& told.ready_camera_ns == m.frames.last().timestamp_ns
                &&& told.buffered_frames == m.frames.len()
                &&& told.imu_samples == m.samples.len()
                &&& told.gyro_offset_rad_s == stats.gyro
                &&& told.mean_accel_m_s2 == stats.accel
                &&& told.gyro_std_rad_s == stats.gyro_std
                &&& told.accel_std_m_s2 == stats.accel_std
                &&& told.max_disparity_p90_px == m.disparity
                &&& told.minimum_common_tracks == m.minimum_common
                &&& !m.config.wait_for_motion ==> {
                    &&& out == m.frames
                    &&& after.released
                    &&& after.frames.len() == 0
                    &&& told.released_camera_ns == Some(m.frames.last().timestamp_ns)
                    &&& told.discarded_stationary_frames == 0
                }
                &&& m.config.wait_for_motion ==> {
                    &&& out.len() == 0
                    &&& after.released == m.released
                    &&& after.frames == seq![m.frames.last()]
                    &&& told.released_camera_ns is None
                    &&& told.discarded_stationary_frames == m.frames.len() - 1
                }
            }
        }),
{
}

/// A vector is finite where all of its three numbers are, and a difference of times is as it is, or the nearest
/// that a time can be.
pub proof fn vectors_and_differences(v: [u64; 3], a: i64, b: i64)
    ensures
        !finite3(v) <==> !double_finite(v[0]) || !double_finite(v[1]) || !double_finite(v[2]),
        i64::MIN <= a - b <= i64::MAX ==> saturating_difference(a, b) == a - b,
        a - b > i64::MAX ==> saturating_difference(a, b) == i64::MAX,
        a - b < i64::MIN ==> saturating_difference(a, b) == i64::MIN,
{
}

} // verus!

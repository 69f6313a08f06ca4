//! The first state from inertial samples alone: which samples count, and which windows do not do.
use crate::basalt::startup::{finite3, is_finite3};
use crate::ieee::{double_finite, double_less, is_double_finite, is_double_less};
use vstd::prelude::*;

verus! {

/// The settings of the first state; gravity is the bits of a double-precision number.
#[derive(Clone, Copy, Debug, PartialEq, Eq, Structural)]
pub struct InitializationConfig {
    pub gravity_m_s2: u64,
    pub minimum_static_samples: usize,
}

impl Default for InitializationConfig {
    fn default() -> (config: Self)
        ensures
            config == (InitializationConfig {
                gravity_m_s2: 0x4023_9eb8_51eb_851f,
                minimum_static_samples: 2,
            }),
    {
        InitializationConfig { gravity_m_s2: 0x4023_9eb8_51eb_851f, minimum_static_samples: 2 }
    }
}

/// Why there is no first state.
#[derive(Clone, Debug, PartialEq)]
pub enum InitializationError {
    InsufficientStaticSamples,
    DegenerateAcceleration,
    InvalidCameraTimestamp,
    Sampling(String),
}

impl InitializationError {
    /// The text of an error.
    pub open spec fn text(self) -> Seq<char> {
        match self {
            InitializationError::InsufficientStaticSamples => "not enough static IMU samples"@,
            InitializationError::DegenerateAcceleration => {
                "static IMU average acceleration is degenerate"@
            },
            InitializationError::InvalidCameraTimestamp => {
                "camera timestamp must be after the first IMU timestamp"@
            },
            InitializationError::Sampling(cause) => "IMU sampling failed: "@ + cause@,
        }
    }

    /// Writes an error out.
    pub fn message(&self) -> (message: String)
        ensures
            message@ == self.text(),
    {
        let mut out = String::new();
        match self {
            InitializationError::InsufficientStaticSamples => out.append(
                "not enough static IMU samples",
            ),
            InitializationError::DegenerateAcceleration => out.append(
                "static IMU average acceleration is degenerate",
            ),
            InitializationError::InvalidCameraTimestamp => out.append(
                "camera timestamp must be after the first IMU timestamp",
            ),
            InitializationError::Sampling(cause) => {
                out.append("IMU sampling failed: ");
                out.append(cause.as_str());
            },
        }
        assert(out@ =~= self.text());
        out
    }
}

/// The shortest mean acceleration that has a direction: a billionth.
pub const MIN_ACCELERATION: u64 = 0x3e11_2e0b_e826_d695;

/// The squared length that an acceleration has to exceed to have a direction.
pub const MIN_SQUARED_ACCELERATION: u64 = 0x3c32_725d_d1d2_43ac;

/// Why a window of static samples gives no first state.
pub open spec fn window_error(
    times: Seq<i64>,
    camera_timestamp_ns: i64,
    config: InitializationConfig,
    norm: u64,
) -> Option<InitializationError> {
    if times.len() < 2 || times.len() < config.minimum_static_samples {
        Some(InitializationError::InsufficientStaticSamples)
    } else if camera_timestamp_ns <= times[0] {
        Some(InitializationError::InvalidCameraTimestamp)
    } else if !double_finite(norm) || double_less(norm, MIN_ACCELERATION) {
        Some(InitializationError::DegenerateAcceleration)
    } else {
        None
    }
}

/// Judges a window of static samples by their times and the length of their mean acceleration, and
/// gives the interval to integrate over up to the first camera frame.
pub fn estimate_initial_state(
    times: &Vec<i64>,
    camera_timestamp_ns: i64,
    config: &InitializationConfig,
    norm: u64,
) -> (result: Result<(i64, i64), InitializationError>)
    ensures
        match window_error(times@, camera_timestamp_ns, *config, norm) {
            Some(e) => result == Err::<(i64, i64), InitializationError>(e),
            None => result == Ok::<(i64, i64), InitializationError>(
                (times@[0], camera_timestamp_ns),
            ),
        },
{
    if times.len() < 2 || times.len() < config.minimum_static_samples {
        return Err(InitializationError::InsufficientStaticSamples);
    }
    if camera_timestamp_ns <= times[0] {
        return Err(InitializationError::InvalidCameraTimestamp);
    }
    if !is_double_finite(norm) || is_double_less(norm, MIN_ACCELERATION) {
        return Err(InitializationError::DegenerateAcceleration);
    }
    Ok((times[0], camera_timestamp_ns))
}

/// A sample of the window: its time, its acceleration, and the squared length of that.
#[derive(Clone, Copy, Debug, PartialEq, Eq)]
pub struct ForceSample {
    pub timestamp_ns: i64,
    pub accel: [u64; 3],
    pub norm_squared: u64,
}

/// What to do with one sample of the window: how long to rotate by its rate, and whether its
/// acceleration is added.
#[derive(Clone, Copy, Debug, PartialEq, Eq, Structural)]
pub struct UpStep {
    pub index: usize,
    pub rotate_ns: Option<u64>,
    pub counted: bool,
}

/// The end of a window, which does not pass the largest time.
pub open spec fn window_end(start: i64, window_ns: i64) -> int {
    if start + window_ns > i64::MAX {
        i64::MAX as int
    } else {
        start + window_ns
    }
}

/// How many samples come before the first one past the end.
pub open spec fn samples_before(samples: Seq<ForceSample>, end: int, i: int) -> int
    decreases samples.len() - i,
{
    if i >= samples.len() || samples[i].timestamp_ns > end {
        i
    } else {
        samples_before(samples, end, i + 1)
    }
}

/// Whether an acceleration has a direction.
pub open spec fn has_direction(accel: [u64; 3], norm_squared: u64) -> bool {
    finite3(accel) && double_less(MIN_SQUARED_ACCELERATION, norm_squared)
}

/// The time from which on sample `i` turns the body: that of the sample before it, but not before the
/// start.
pub open spec fn turns_from(samples: Seq<ForceSample>, start: i64, i: int) -> i64 {
    if i > 0 && samples[i - 1].timestamp_ns >= start {
        samples[i - 1].timestamp_ns
    } else {
        start
    }
}

/// What to do with sample `i` of a window.
pub open spec fn up_step(samples: Seq<ForceSample>, start: i64, i: int) -> UpStep {
    let from = turns_from(samples, start, i);
    UpStep {
        index: i as usize,
        rotate_ns: if from < samples[i].timestamp_ns {
            Some((samples[i].timestamp_ns - from) as u64)
        } else {
            None
        },
        counted: has_direction(samples[i].accel, samples[i].norm_squared),
    }
}

/// What to do with the first `n` samples, of which those before the start are left out.
pub open spec fn up_steps(samples: Seq<ForceSample>, start: i64, n: int) -> Seq<UpStep>
    decreases n,
{
    if n <= 0 {
        Seq::empty()
    } else if samples[n - 1].timestamp_ns < start {
        up_steps(samples, start, n - 1)
    } else {
        up_steps(samples, start, n - 1).push(up_step(samples, start, n - 1))
    }
}

/// How many steps add an acceleration.
pub open spec fn counted(steps: Seq<UpStep>) -> nat {
    steps.filter(|s: UpStep| s.counted).len()
}

/// The steps that give the direction of gravity in the frame of the body at the start of a window, none
/// where the window is empty or fewer than two of its accelerations have a direction.
pub open spec fn window_steps(samples: Seq<ForceSample>, start: i64, window_ns: i64) -> Option<
    Seq<UpStep>,
> {
    let n = samples_before(samples, window_end(start, window_ns), 0);
    let all = up_steps(samples, start, n);
    if window_ns <= 0 || counted(all) < 2 {
        None
    } else {
        Some(all)
    }
}

/// The steps that give the direction of gravity from a window: each acceleration is turned back to the
/// start by the rates since then. None where the window is empty or fewer than two accelerations have
/// a direction.
pub fn estimate_up_body_from_window(
    samples: &Vec<ForceSample>,
    start_timestamp_ns: i64,
    window_ns: i64,
) -> (steps: Option<Vec<UpStep>>)
    ensures
        match window_steps(samples@, start_timestamp_ns, window_ns) {
            Some(all) => steps matches Some(s) && s@ == all,
            None => steps is None,
        },
{
    if window_ns <= 0 {
        return None;
    }
    let end: i64 = match start_timestamp_ns.checked_add(window_ns) {
        Some(end) => end,
        None => i64::MAX,
    };
    let ghost total = samples_before(samples@, end as int, 0);
    let ghost is_counted = |s: UpStep| s.counted;
    let mut steps: Vec<UpStep> = Vec::new();
    let mut count: usize = 0;
    let mut i: usize = 0;
    proof {
        reveal(Seq::filter);
        assert(steps@.filter(is_counted) =~= Seq::empty());
    }
    while i < samples.len() && samples[i].timestamp_ns <= end
        invariant
            i <= samples@.len(),
            total == samples_before(samples@, end as int, i as int),
            is_counted == (|s: UpStep| s.counted),
            steps@ == up_steps(samples@, start_timestamp_ns, i as int),
            count == steps@.filter(is_counted).len(),
            count <= i,
        decreases samples@.len() - i,
    {
        let sample: ForceSample = samples[i];
        if sample.timestamp_ns >= start_timestamp_ns {
            let from: i64 = if i > 0 && samples[i - 1].timestamp_ns >= start_timestamp_ns {
                samples[i - 1].timestamp_ns
            } else {
                start_timestamp_ns
            };
            let rotate_ns: Option<u64> = if from < sample.timestamp_ns {
                let d: i128 = sample.timestamp_ns as i128 - from as i128;
                Some(d as u64)
            } else {
                None
            };
            let counted: bool = is_finite3(&sample.accel) && is_double_less(
                MIN_SQUARED_ACCELERATION,
                sample.norm_squared,
            );
            let step = UpStep { index: i, rotate_ns, counted };
            let ghost before = steps@;
            steps.push(step);
            proof {
                reveal(Seq::filter);
                assert(steps@.drop_last() =~= before);
            }
            if counted {
                count = count + 1;
            }
        }
        i = i + 1;
    }
    if count < 2 {
        return None;
    }
    Some(steps)
}

/// Whether a mean acceleration has a direction: the last condition on the estimate.
pub fn mean_has_direction(mean: &[u64; 3], norm_squared: u64) -> (result: bool)
    ensures
        result == has_direction(*mean, norm_squared),
{
    is_finite3(mean) && is_double_less(MIN_SQUARED_ACCELERATION, norm_squared)
}

/// Every step lies in the window, steps are in the order of the samples, and each turns by the time
/// since the sample before it, or since the start where that sample lies before it.
pub proof fn steps_lie_in_the_window(samples: Seq<ForceSample>, start: i64, end: int, n: int)
    requires
        0 <= n <= samples_before(samples, end, 0),
        samples.len() <= usize::MAX,
    ensures
        n <= samples.len(),
        forall|k: int|
            0 <= k < up_steps(samples, start, n).len() ==> {
                let step = #[trigger] up_steps(samples, start, n)[k];
                &&& step.index < n
                &&& start <= samples[step.index as int].timestamp_ns <= end
                &&& step == up_step(samples, start, step.index as int)
            },
        forall|j: int, k: int|
            0 <= j < k < up_steps(samples, start, n).len() ==> (#[trigger] up_steps(
                samples,
                start,
                n,
            )[j]).index < (#[trigger] up_steps(samples, start, n)[k]).index,
    decreases n,
{
    samples_before_bound(samples, end, 0);
    if n > 0 {
        steps_lie_in_the_window(samples, start, end, n - 1);
    }
}

proof fn samples_before_bound(samples: Seq<ForceSample>, end: int, i: int)
    requires
        0 <= i <= samples.len(),
    ensures
        i <= samples_before(samples, end, i) <= samples.len(),
        forall|k: int|
            i <= k < samples_before(samples, end, i) ==> (#[trigger] samples[k]).timestamp_ns
                <= end,
    decreases samples.len() - i,
{
    if i < samples.len() && samples[i].timestamp_ns <= end {
        samples_before_bound(samples, end, i + 1);
    }
}

/// Whether samples are in the order of time.
pub open spec fn in_time_order(samples: Seq<ForceSample>) -> bool {
    forall|i: int, j: int|
        0 <= i < j < samples.len() ==> (#[trigger] samples[i]).timestamp_ns <= (
        #[trigger] samples[j]).timestamp_ns
}

/// The first sample, from place `i` on, that does not lie before the start.
pub open spec fn first_from(samples: Seq<ForceSample>, start: i64, i: int) -> int
    decreases samples.len() - i,
{
    if i >= samples.len() || samples[i].timestamp_ns >= start {
        i
    } else {
        first_from(samples, start, i + 1)
    }
}

/// Steps whose samples stand `k` places further on.
pub open spec fn moved_on(steps: Seq<UpStep>, k: int) -> Seq<UpStep> {
    steps.map_values(|s: UpStep| UpStep { index: (s.index + k) as usize, ..s })
}

proof fn first_from_splits(samples: Seq<ForceSample>, start: i64, i: int)
    requires
        0 <= i <= samples.len(),
        in_time_order(samples),
    ensures
        ({
            let k = first_from(samples, start, i);
            &&& i <= k <= samples.len()
            &&& forall|j: int| i <= j < k ==> (#[trigger] samples[j]).timestamp_ns < start
            &&& forall|j: int| k <= j < samples.len() ==> (#[trigger] samples[j]).timestamp_ns
                >= start
        }),
    decreases samples.len() - i,
{
    if i < samples.len() && samples[i].timestamp_ns < start {
        first_from_splits(samples, start, i + 1);
    }
}

proof fn before_moves(samples: Seq<ForceSample>, end: int, k: int, i: int)
    requires
        0 <= k <= i <= samples.len(),
    ensures
        samples_before(samples, end, i) == samples_before(samples.skip(k), end, i - k) + k,
    decreases samples.len() - i,
{
    if i < samples.len() {
        assert(samples.skip(k)[i - k] == samples[i]);
        if samples[i].timestamp_ns <= end {
            before_moves(samples, end, k, i + 1);
        }
    }
}

proof fn before_passes(samples: Seq<ForceSample>, end: int, k: int, i: int)
    requires
        0 <= i <= k <= samples.len(),
        forall|j: int| i <= j < k ==> (#[trigger] samples[j]).timestamp_ns <= end,
    ensures
        samples_before(samples, end, i) == samples_before(samples, end, k),
    decreases k - i,
{
    if i < k {
        before_passes(samples, end, k, i + 1);
    }
}

proof fn steps_move(samples: Seq<ForceSample>, start: i64, k: int, n: int)
    requires
        0 <= k <= n <= samples.len() <= usize::MAX,
        forall|j: int| 0 <= j < k ==> (#[trigger] samples[j]).timestamp_ns < start,
    ensures
        up_steps(samples, start, n) == moved_on(up_steps(samples.skip(k), start, n - k), k),
    decreases n,
{
    let rest = samples.skip(k);
    if n > k {
        steps_move(samples, start, k, n - 1);
        let i = n - 1;
        assert(rest[i - k] == samples[i]);
        if i > k {
            assert(rest[i - k - 1] == samples[i - 1]);
        }
        let before = up_steps(rest, start, i - k);
        if samples[i].timestamp_ns >= start {
            let step = up_step(rest, start, i - k);
            assert(up_step(samples, start, i) == (UpStep { index: (step.index + k) as usize, ..step }));
            assert(moved_on(before.push(step), k) =~= moved_on(before, k).push(
                up_step(samples, start, i),
            ));
        }
    } else {
        none_before_the_start(samples, start, k);
        assert(moved_on(up_steps(rest, start, 0), k) =~= Seq::empty());
    }
}

proof fn none_before_the_start(samples: Seq<ForceSample>, start: i64, k: int)
    requires
        0 <= k <= samples.len(),
        forall|j: int| 0 <= j < k ==> (#[trigger] samples[j]).timestamp_ns < start,
    ensures
        up_steps(samples, start, k) == Seq::<UpStep>::empty(),
    decreases k,
{
    if k > 0 {
        none_before_the_start(samples, start, k - 1);
    }
}

proof fn moving_keeps_the_count(steps: Seq<UpStep>, k: int)
    ensures
        counted(moved_on(steps, k)) == counted(steps),
    decreases steps.len(),
{
    reveal(Seq::filter);
    if steps.len() > 0 {
        moving_keeps_the_count(steps.drop_last(), k);
        assert(moved_on(steps, k).drop_last() =~= moved_on(steps.drop_last(), k));
    }
}

/// Samples before the window have no influence: for samples in the order of time, the steps are those
/// of the samples from the start on, moved on by as many places as there are samples before.
pub proof fn earlier_samples_have_no_influence(
    samples: Seq<ForceSample>,
    start: i64,
    window_ns: i64,
)
    requires
        in_time_order(samples),
        samples.len() <= usize::MAX,
    ensures
        ({
            let k = first_from(samples, start, 0);
            &&& 0 <= k <= samples.len()
            &&& window_steps(samples, start, window_ns) == match window_steps(
                samples.skip(k),
                start,
                window_ns,
            ) {
                Some(steps) => Some(moved_on(steps, k)),
                None => None,
            }
        }),
{
    let k = first_from(samples, start, 0);
    first_from_splits(samples, start, 0);
    if window_ns > 0 {
        let end = window_end(start, window_ns);
        let rest = samples.skip(k);
        before_passes(samples, end, k, 0);
        before_moves(samples, end, k, k);
        samples_before_bound(rest, end, 0);
        let n = samples_before(samples, end, 0);
        steps_move(samples, start, k, n);
        moving_keeps_the_count(up_steps(rest, start, n - k), k);
    }
}

/// A window is accepted exactly where it has two samples and as many as asked for, the camera is later than
/// the first, and the acceleration is finite and not too small.
pub proof fn static_windows_are_accepted(
    times: Seq<i64>,
    camera_timestamp_ns: i64,
    config: InitializationConfig,
    norm: u64,
)
    ensures
        window_error(times, camera_timestamp_ns, config, norm) is None <==> {
            &&& times.len() >= 2
            &&& times.len() >= config.minimum_static_samples
            &&& times[0] < camera_timestamp_ns
            &&& double_finite(norm)
            &&& !double_less(norm, 0x3e11_2e0b_e826_d695)
        },
        times.len() < 2 || times.len() < config.minimum_static_samples ==> window_error(
            times,
            camera_timestamp_ns,
            config,
            norm,
        ) == Some(InitializationError::InsufficientStaticSamples),
{
}

/// Every sample of the window has a step: of samples in the order of their times, exactly those from the start
/// to the end of the window, each turned by the time since the sample before or, for the first, since the
/// start, and counted where it has a direction.
pub proof fn every_sample_of_the_window_steps(samples: Seq<ForceSample>, start: i64, window_ns: i64)
    requires
        in_time_order(samples),
        samples.len() <= usize::MAX,
        window_ns > 0,
    ensures
        ({
            let n = samples_before(samples, window_end(start, window_ns), 0);
            let all = up_steps(samples, start, n);
            &&& forall|i: int|
                #![trigger samples[i]]
                0 <= i < samples.len() && start <= samples[i].timestamp_ns && samples[i].timestamp_ns
                    <= start + window_ns ==> exists|k: int|
                    0 <= k < all.len() && (#[trigger] all[k]).index == i
            &&& forall|k: int|
                0 <= k < all.len() ==> {
                    let step = #[trigger] all[k];
                    let s = samples[step.index as int];
                    let before = if step.index > 0 && samples[step.index - 1].timestamp_ns >= start {
                        samples[step.index - 1].timestamp_ns
                    } else {
                        start
                    };
                    &&& step.index < samples.len()
                    &&& start <= s.timestamp_ns <= start + window_ns
                    &&& step.rotate_ns == if before < s.timestamp_ns {
                        Some((s.timestamp_ns - before) as u64)
                    } else {
                        None
                    }
                    &&& step.counted <==> double_finite(s.accel[0]) && double_finite(s.accel[1])
                        && double_finite(s.accel[2]) && double_less(
                        0x3c32_725d_d1d2_43ac,
                        s.norm_squared,
                    )
                }
            &&& window_steps(samples, start, window_ns) is Some <==> all.filter(
                |s: UpStep| s.counted,
            ).len() >= 2
            &&& window_steps(samples, start, window_ns) is Some ==> window_steps(
                samples,
                start,
                window_ns,
            ) == Some(all)
        }),
{
    let end = window_end(start, window_ns);
    let n = samples_before(samples, end, 0);
    let all = up_steps(samples, start, n);
    samples_before_bound(samples, end, 0);
    stops_behind_the_end(samples, end, 0);
    steps_lie_in_the_window(samples, start, end, n);
    assert forall|i: int|
        #![trigger samples[i]]
        0 <= i < samples.len() && start <= samples[i].timestamp_ns && samples[i].timestamp_ns
            <= start + window_ns implies exists|k: int|
        0 <= k < all.len() && (#[trigger] all[k]).index == i by {
        if i >= n {
            assert(samples[n].timestamp_ns > end);
            assert(samples[n].timestamp_ns <= samples[i].timestamp_ns);
        }
        step_of_sample(samples, start, n, i);
    }
}

proof fn stops_behind_the_end(samples: Seq<ForceSample>, end: int, i: int)
    requires
        0 <= i <= samples.len(),
    ensures
        samples_before(samples, end, i) < samples.len() ==> samples[samples_before(
            samples,
            end,
            i,
        )].timestamp_ns > end,
    decreases samples.len() - i,
{
    if i < samples.len() && samples[i].timestamp_ns <= end {
        stops_behind_the_end(samples, end, i + 1);
    }
}

proof fn step_of_sample(samples: Seq<ForceSample>, start: i64, n: int, i: int)
    requires
        0 <= i < n <= samples.len() <= usize::MAX,
        samples[i].timestamp_ns >= start,
    ensures
        exists|k: int|
            0 <= k < up_steps(samples, start, n).len() && (#[trigger] up_steps(
                samples,
                start,
                n,
            )[k]).index == i,
    decreases n,
{
    let all = up_steps(samples, start, n);
    let before = up_steps(samples, start, n - 1);
    if i < n - 1 {
        step_of_sample(samples, start, n - 1, i);
        let k = choose|k: int| 0 <= k < before.len() && (#[trigger] before[k]).index == i;
        assert(all[k] == before[k]);
    } else {
        assert(all[all.len() - 1].index == i);
    }
}

} // verus!

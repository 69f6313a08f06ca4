//! How the samples of an inertial sensor divide the interval between two frames.
use vstd::prelude::*;

verus! {

/// One step of an integration: the sample whose measurement holds, for how long, and the end of the
/// step counted from the start of the interval.
#[derive(Clone, Copy, Debug, PartialEq, Eq, Structural)]
pub struct ImuStep {
    pub sample: usize,
    pub dt_ns: i64,
    pub t_ns: i64,
}

/// Whether a sample falls into an interval that is open at its start and closed at its end.
pub open spec fn within(t: i64, start_ns: i64, end_ns: i64) -> bool {
    start_ns < t <= end_ns
}

/// The samples of an interval, by their places.
pub open spec fn interval_samples(times: Seq<i64>, start_ns: i64, end_ns: i64, n: int) -> Seq<usize>
    decreases n,
{
    if n <= 0 {
        Seq::empty()
    } else if within(times[n - 1], start_ns, end_ns) {
        interval_samples(times, start_ns, end_ns, n - 1).push((n - 1) as usize)
    } else {
        interval_samples(times, start_ns, end_ns, n - 1)
    }
}

/// The time up to which the first `n` samples of a list reach.
pub open spec fn reached(times: Seq<i64>, picked: Seq<usize>, start_ns: i64, n: int) -> i64 {
    if n <= 0 {
        start_ns
    } else {
        times[picked[n - 1] as int]
    }
}

/// The step that the sample at place `k` of a list ends.
pub open spec fn step_at(times: Seq<i64>, picked: Seq<usize>, start_ns: i64, k: int) -> ImuStep {
    let t = times[picked[k] as int];
    ImuStep {
        sample: picked[k],
        dt_ns: (t - reached(times, picked, start_ns, k)) as i64,
        t_ns: (t - start_ns) as i64,
    }
}

/// Whether the samples come one after the other.
pub open spec fn advancing(times: Seq<i64>, picked: Seq<usize>, start_ns: i64) -> bool {
    forall|k: int|
        0 <= k < picked.len() ==> reached(times, picked, start_ns, k) < times[(
        #[trigger] picked[k]) as int]
}

/// The steps of an interval: one for each of its samples, and where the last sample does not reach
/// the end, one more that holds its measurement. There are none where the interval is empty, holds
/// no sample, or holds samples out of order.
pub open spec fn interval_steps(times: Seq<i64>, start_ns: i64, end_ns: i64) -> Option<
    Seq<ImuStep>,
> {
    let picked = interval_samples(times, start_ns, end_ns, times.len() as int);
    if end_ns <= start_ns || picked.len() == 0 || !advancing(times, picked, start_ns) {
        None
    } else {
        let steps = Seq::new(picked.len(), |k: int| step_at(times, picked, start_ns, k));
        let last = times[picked.last() as int];
        Some(
            if last < end_ns {
                steps.push(
                    ImuStep {
                        sample: picked.last(),
                        dt_ns: (end_ns - last) as i64,
                        t_ns: (end_ns - start_ns) as i64,
                    },
                )
            } else {
                steps
            },
        )
    }
}

/// Whether the last sample of an interval lies at its end.
pub open spec fn ends_on_sample(times: Seq<i64>, start_ns: i64, end_ns: i64) -> bool {
    let picked = interval_samples(times, start_ns, end_ns, times.len() as int);
    picked.len() > 0 && times[picked.last() as int] == end_ns
}

proof fn interval_samples_lie_within(times: Seq<i64>, start_ns: i64, end_ns: i64, n: int)
    requires
        0 <= n <= times.len() <= usize::MAX,
    ensures
        forall|k: int|
            0 <= k < interval_samples(times, start_ns, end_ns, n).len() ==> {
                let i = #[trigger] interval_samples(times, start_ns, end_ns, n)[k];
                0 <= i < n && within(times[i as int], start_ns, end_ns)
            },
    decreases n,
{
    if n > 0 {
        interval_samples_lie_within(times, start_ns, end_ns, n - 1);
        let before = interval_samples(times, start_ns, end_ns, n - 1);
        let after = interval_samples(times, start_ns, end_ns, n);
        assert forall|k: int| 0 <= k < after.len() implies {
            let i = #[trigger] after[k];
            0 <= i < n && within(times[i as int], start_ns, end_ns)
        } by {
            if k < before.len() {
                assert(after[k] == before[k]);
            }
        }
    }
}

/// The sum of the lengths of the first `n` steps.
pub open spec fn steps_length(steps: Seq<ImuStep>, n: int) -> int
    decreases n,
{
    if n <= 0 {
        0
    } else {
        steps_length(steps, n - 1) + steps[n - 1].dt_ns
    }
}

/// The steps of an interval cover it without a gap: every step has a positive length, ends where the
/// lengths up to it add up to, and together they last from the start to the end.
pub proof fn steps_cover_the_interval(times: Seq<i64>, start_ns: i64, end_ns: i64)
    requires
        times.len() <= usize::MAX,
        end_ns - start_ns <= i64::MAX,
        interval_steps(times, start_ns, end_ns) is Some,
    ensures
        ({
            let steps = interval_steps(times, start_ns, end_ns)->0;
            &&& steps.len() > 0
            &&& forall|k: int| 0 <= k < steps.len() ==> (#[trigger] steps[k]).dt_ns > 0
            &&& forall|k: int|
                0 <= k < steps.len() ==> (#[trigger] steps[k]).t_ns == steps_length(steps, k + 1)
            &&& steps_length(steps, steps.len() as int) == end_ns - start_ns
        }),
{
    let picked = interval_samples(times, start_ns, end_ns, times.len() as int);
    interval_samples_lie_within(times, start_ns, end_ns, times.len() as int);
    let steps = interval_steps(times, start_ns, end_ns)->0;
    assert forall|k: int| 0 <= k <= picked.len() implies steps_length(steps, k)
        == #[trigger] reached(times, picked, start_ns, k) - start_ns by {
        length_reached(times, picked, start_ns, end_ns, steps, k);
    }
    assert forall|k: int| 0 <= k < steps.len() implies (#[trigger] steps[k]).dt_ns > 0
        && steps[k].t_ns == steps_length(steps, k + 1) by {
        if k < picked.len() {
            assert(steps[k] == step_at(times, picked, start_ns, k));
            assert(within(times[picked[k] as int], start_ns, end_ns));
            if k > 0 {
                assert(within(times[picked[k - 1] as int], start_ns, end_ns));
            }
            assert(steps_length(steps, k + 1) == reached(times, picked, start_ns, k + 1)
                - start_ns);
        } else {
            let n = picked.len() as int;
            assert(within(times[picked[n - 1] as int], start_ns, end_ns));
            assert(steps_length(steps, n) == reached(times, picked, start_ns, n) - start_ns);
            assert(steps_length(steps, n + 1) == steps_length(steps, n) + steps[n].dt_ns);
        }
    }
    let n = picked.len() as int;
    assert(steps_length(steps, n) == reached(times, picked, start_ns, n) - start_ns);
    assert(within(times[picked[n - 1] as int], start_ns, end_ns));
    if steps.len() > n {
        assert(steps_length(steps, n + 1) == steps_length(steps, n) + steps[n].dt_ns);
    }
}

proof fn length_reached(
    times: Seq<i64>,
    picked: Seq<usize>,
    start_ns: i64,
    end_ns: i64,
    steps: Seq<ImuStep>,
    k: int,
)
    requires
        0 <= k <= picked.len() <= steps.len(),
        end_ns - start_ns <= i64::MAX,
        forall|j: int|
            0 <= j < picked.len() ==> within(times[(#[trigger] picked[j]) as int], start_ns, end_ns),
        forall|j: int|
            0 <= j < picked.len() ==> #[trigger] steps[j] == step_at(times, picked, start_ns, j),
        advancing(times, picked, start_ns),
    ensures
        steps_length(steps, k) == reached(times, picked, start_ns, k) - start_ns,
    decreases k,
{
    if k > 0 {
        length_reached(times, picked, start_ns, end_ns, steps, k - 1);
        assert(steps[k - 1] == step_at(times, picked, start_ns, k - 1));
        assert(within(times[picked[k - 1] as int], start_ns, end_ns));
        if k > 1 {
            assert(within(times[picked[k - 2] as int], start_ns, end_ns));
        }
    }
}

/// Divides the interval between two frames. Returns its steps, and whether the end had to be reached
/// without a sample or there are no steps at all.
pub fn integration_steps(times: &Vec<i64>, start_ns: i64, end_ns: i64) -> (result: (
    Option<Vec<ImuStep>>,
    bool,
))
    requires
        end_ns - start_ns <= i64::MAX,
    ensures
        match result.0 {
            Some(steps) => interval_steps(times@, start_ns, end_ns) == Some(steps@),
            None => interval_steps(times@, start_ns, end_ns) is None,
        },
        result.1 == (interval_steps(times@, start_ns, end_ns) is None || !ends_on_sample(
            times@,
            start_ns,
            end_ns,
        )),
{
    let ghost all = interval_samples(times@, start_ns, end_ns, times@.len() as int);
    assert(times@.len() == times.len());
    proof {
        interval_samples_lie_within(times@, start_ns, end_ns, times@.len() as int);
    }
    if end_ns <= start_ns {
        return (None, true);
    }
    let picked = samples_within(times, start_ns, end_ns);
    if picked.len() == 0 {
        return (None, true);
    }
    let mut steps: Vec<ImuStep> = Vec::new();
    let mut previous: i64 = start_ns;
    for k in 0..picked.len()
        invariant
            picked@ == all,
            end_ns > start_ns,
            end_ns - start_ns <= i64::MAX,
            all == interval_samples(times@, start_ns, end_ns, times@.len() as int),
            forall|k: int|
                0 <= k < all.len() ==> {
                    let i = #[trigger] all[k];
                    0 <= i < times@.len() && within(times@[i as int], start_ns, end_ns)
                },
            previous == reached(times@, all, start_ns, k as int),
            start_ns <= previous <= end_ns,
            forall|j: int|
                0 <= j < k ==> reached(times@, all, start_ns, j) < times@[(
                #[trigger] all[j]) as int],
            steps@ =~= Seq::new(k as nat, |k: int| step_at(times@, all, start_ns, k)),
    {
        let sample: usize = picked[k];
        assert(within(times@[all[k as int] as int], start_ns, end_ns));
        let t: i64 = times[sample];
        let dt_ns: i64 = t - previous;
        if dt_ns <= 0 {
            assert(!advancing(times@, all, start_ns)) by {
                assert(!(reached(times@, all, start_ns, k as int) < times@[all[k as int] as int]));
            }
            return (None, true);
        }
        steps.push(ImuStep { sample, dt_ns, t_ns: t - start_ns });
        previous = t;
    }
    assert(advancing(times@, all, start_ns));
    let last: usize = picked[picked.len() - 1];
    assert(within(times@[all[all.len() - 1] as int], start_ns, end_ns));
    if previous < end_ns {
        steps.push(
            ImuStep { sample: last, dt_ns: end_ns - previous, t_ns: end_ns - start_ns },
        );
    }
    (Some(steps), times[last] != end_ns)
}

/// The places of the samples that fall into an interval.
pub fn samples_within(times: &Vec<i64>, start_ns: i64, end_ns: i64) -> (picked: Vec<usize>)
    ensures
        picked@ == interval_samples(times@, start_ns, end_ns, times@.len() as int),
{
    let mut picked: Vec<usize> = Vec::new();
    for i in 0..times.len()
        invariant
            picked@ == interval_samples(times@, start_ns, end_ns, i as int),
    {
        if start_ns < times[i] && times[i] <= end_ns {
            picked.push(i);
        }
    }
    picked
}

/// The sample that gives the first attitude: the first at or after the frame, else the last one.
pub fn initial_sample(times: &Vec<i64>, timestamp_ns: i64) -> (sample: Option<usize>)
    ensures
        match sample {
            Some(i) => i < times@.len() && {
                ||| times@[i as int] >= timestamp_ns && forall|j: int|
                    0 <= j < i ==> (#[trigger] times@[j]) < timestamp_ns
                ||| i == times@.len() - 1 && forall|j: int|
                    0 <= j < times@.len() ==> (#[trigger] times@[j]) < timestamp_ns
            },
            None => times@.len() == 0,
        },
{
    for i in 0..times.len()
        invariant
            forall|j: int| 0 <= j < i ==> (#[trigger] times@[j]) < timestamp_ns,
    {
        if times[i] >= timestamp_ns {
            return Some(i);
        }
    }
    if times.len() == 0 {
        None
    } else {
        Some(times.len() - 1)
    }
}

/// The samples of an interval are all those after its start and up to its end, and no others, in the
/// order in which they came.
pub proof fn every_sample_is_picked(times: Seq<i64>, start_ns: i64, end_ns: i64)
    requires
        times.len() <= usize::MAX,
    ensures
        ({
            let picked = interval_samples(times, start_ns, end_ns, times.len() as int);
            &&& forall|i: int|
                0 <= i < times.len() && start_ns < #[trigger] times[i] <= end_ns
                    ==> picked.contains(i as usize)
            &&& forall|k: int|
                0 <= k < picked.len() ==> (#[trigger] picked[k]) < times.len() && start_ns
                    < times[picked[k] as int] <= end_ns
            &&& forall|j: int, k: int|
                0 <= j < k < picked.len() ==> #[trigger] picked[j] < #[trigger] picked[k]
        }),
{
    picked_up_to(times, start_ns, end_ns, times.len() as int);
}

proof fn picked_up_to(times: Seq<i64>, start_ns: i64, end_ns: i64, n: int)
    requires
        0 <= n <= times.len() <= usize::MAX,
    ensures
        ({
            let picked = interval_samples(times, start_ns, end_ns, n);
            &&& forall|i: int|
                0 <= i < n && start_ns < #[trigger] times[i] <= end_ns ==> picked.contains(
                    i as usize,
                )
            &&& forall|k: int|
                0 <= k < picked.len() ==> (#[trigger] picked[k]) < n && start_ns
                    < times[picked[k] as int] <= end_ns
            &&& forall|j: int, k: int|
                0 <= j < k < picked.len() ==> #[trigger] picked[j] < #[trigger] picked[k]
        }),
    decreases n,
{
    if n > 0 {
        picked_up_to(times, start_ns, end_ns, n - 1);
        let before = interval_samples(times, start_ns, end_ns, n - 1);
        let after = interval_samples(times, start_ns, end_ns, n);
        assert forall|i: int| 0 <= i < n && start_ns < #[trigger] times[i] <= end_ns implies after.contains(
            i as usize,
        ) by {
            if i == n - 1 {
                assert(after[after.len() - 1] == i);
            } else {
                let k = choose|k: int| 0 <= k < before.len() && before[k] == i as usize;
                assert(after[k] == i as usize);
            }
        }
        assert forall|k: int| 0 <= k < after.len() implies (#[trigger] after[k]) < n && start_ns
            < times[after[k] as int] <= end_ns by {
            if k < before.len() {
                assert(after[k] == before[k]);
            }
        }
        assert forall|j: int, k: int| 0 <= j < k < after.len() implies #[trigger] after[j]
            < #[trigger] after[k] by {
            assert(after[j] == before[j]);
            if k < before.len() {
                assert(after[k] == before[k]);
            }
        }
    }
}

/// An interval has steps exactly where it is not empty, some sample falls into it, and the samples in it
/// come at later and later times. Every sample in it then ends a step, at its own time; and every step
/// but one that only fills up to the end is ended so by the sample that it names, the filling one holding
/// on to the last of them.
pub proof fn steps_follow_the_samples(times: Seq<i64>, start_ns: i64, end_ns: i64)
    requires
        times.len() <= usize::MAX,
        end_ns - start_ns <= i64::MAX,
    ensures
        interval_steps(times, start_ns, end_ns) is Some <==> {
            &&& start_ns < end_ns
            &&& exists|i: int| 0 <= i < times.len() && start_ns < #[trigger] times[i] <= end_ns
            &&& forall|i: int, j: int|
                0 <= i < j < times.len() && start_ns < #[trigger] times[i] <= end_ns && start_ns
                    < #[trigger] times[j] <= end_ns ==> times[i] < times[j]
        },
        interval_steps(times, start_ns, end_ns) matches Some(steps) ==> {
            &&& forall|i: int|
                #![trigger times[i]]
                0 <= i < times.len() && start_ns < times[i] <= end_ns ==> exists|k: int|
                    0 <= k < steps.len() && (#[trigger] steps[k]).sample == i && start_ns
                        + steps[k].t_ns == times[i]
            &&& forall|k: int|
                0 <= k < steps.len() ==> {
                    let step = #[trigger] steps[k];
                    &&& step.sample < times.len()
                    &&& start_ns < times[step.sample as int] <= end_ns
                    &&& start_ns + step.t_ns == times[step.sample as int] || (k == steps.len() - 1
                        && step.t_ns == end_ns - start_ns && k > 0 && step.sample == steps[k
                        - 1].sample && times[step.sample as int] < end_ns)
                }
            &&& ends_on_sample(times, start_ns, end_ns) <==> exists|i: int|
                0 <= i < times.len() && #[trigger] times[i] == end_ns
        },
{
    let picked = interval_samples(times, start_ns, end_ns, times.len() as int);
    every_sample_is_picked(times, start_ns, end_ns);
    if start_ns < end_ns && picked.len() > 0 {
        assert(start_ns < times[picked[0] as int] <= end_ns);
        if advancing(times, picked, start_ns) {
            assert forall|i: int, j: int|
                0 <= i < j < times.len() && start_ns < #[trigger] times[i] <= end_ns && start_ns
                    < #[trigger] times[j] <= end_ns implies times[i] < times[j] by {
                let a = choose|a: int| 0 <= a < picked.len() && picked[a] == i as usize;
                let b = choose|b: int| 0 <= b < picked.len() && picked[b] == j as usize;
                advancing_rises(times, picked, start_ns, a, b);
            }
        } else {
            let k = choose|k: int|
                0 <= k < picked.len() && !(reached(times, picked, start_ns, k) < times[(
                #[trigger] picked[k]) as int]);
            assert(k > 0);
            let i = picked[k - 1] as int;
            let j = picked[k] as int;
            assert(i < j);
            assert(!(times[i] < times[j]));
        }
    } else if start_ns < end_ns {
        assert forall|i: int| 0 <= i < times.len() implies !(start_ns < #[trigger] times[i]
            <= end_ns) by {
            if start_ns < times[i] <= end_ns {
                assert(picked.contains(i as usize));
            }
        }
    }
    if interval_steps(times, start_ns, end_ns) is Some {
        let steps = interval_steps(times, start_ns, end_ns)->0;
        assert forall|i: int| 0 <= i < times.len() && start_ns < #[trigger] times[i] <= end_ns implies exists|
            k: int,
        |
            0 <= k < steps.len() && (#[trigger] steps[k]).sample == i && start_ns + steps[k].t_ns
                == times[i] by {
            let k = choose|k: int| 0 <= k < picked.len() && picked[k] == i as usize;
            assert(steps[k] == step_at(times, picked, start_ns, k));
        }
        assert forall|k: int| 0 <= k < steps.len() implies {
            let step = #[trigger] steps[k];
            &&& step.sample < times.len()
            &&& start_ns < times[step.sample as int] <= end_ns
            &&& start_ns + step.t_ns == times[step.sample as int] || (k == steps.len() - 1
                && step.t_ns == end_ns - start_ns && k > 0 && step.sample == steps[k - 1].sample
                && times[step.sample as int] < end_ns)
        } by {
            if k < picked.len() {
                assert(steps[k] == step_at(times, picked, start_ns, k));
            } else {
                assert(steps[k - 1] == step_at(times, picked, start_ns, k - 1));
            }
        }
        let last = picked.len() - 1;
        if exists|i: int| 0 <= i < times.len() && #[trigger] times[i] == end_ns {
            let i = choose|i: int| 0 <= i < times.len() && #[trigger] times[i] == end_ns;
            let a = choose|a: int| 0 <= a < picked.len() && picked[a] == i as usize;
            advancing_rises(times, picked, start_ns, a, last);
            assert(times[picked[last] as int] <= end_ns);
        }
    }
}

proof fn advancing_rises(times: Seq<i64>, picked: Seq<usize>, start_ns: i64, a: int, b: int)
    requires
        advancing(times, picked, start_ns),
        0 <= a < picked.len(),
        0 <= b < picked.len(),
        forall|j: int, k: int|
            0 <= j < k < picked.len() ==> #[trigger] picked[j] < #[trigger] picked[k],
    ensures
        picked[a] < picked[b] ==> times[picked[a] as int] < times[picked[b] as int],
        a < b ==> times[picked[a] as int] < times[picked[b] as int],
    decreases b,
{
    if a < b - 1 {
        advancing_rises(times, picked, start_ns, a, b - 1);
    }
    if a < b {
        assert(reached(times, picked, start_ns, b) < times[picked[b] as int]);
    }
}

} // verus!

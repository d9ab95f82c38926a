//! The index logic of the YIN frequency estimator.
//!
//! The estimator works on a window of candidate periods (lags) `tau_min..tau_max`.
//! The arithmetic on samples happens outside this module; here the lag window,
//! the frame size it needs, the absolute-threshold search over the cumulative
//! mean normalized difference, and the neighbourhood used for parabolic
//! interpolation are defined and proved.

use vstd::prelude::*;

verus! {

/// The YIN estimator settings: the sample rate, the window of candidate lags
/// `tau_min..tau_max`, and the threshold against which the normalized
/// difference is compared (carried as given).
pub struct Yin<T> {
    pub sample_rate: u32,
    pub tau_min: usize,
    pub tau_max: usize,
    pub threshold: T,
}

/// The first lag in `tau_min..tau_max` whose normalized difference lies below
/// the threshold, if any.
pub open spec fn first_below(below: Seq<bool>, tau_min: int, tau_max: int) -> Option<int>
    decreases tau_max - tau_min,
{
    if tau_min >= tau_max {
        None
    } else if below[tau_min] {
        Some(tau_min)
    } else {
        first_below(below, tau_min + 1, tau_max)
    }
}

/// From lag `tau`, follow the normalized difference down while the next lag is
/// still inside the window and lower.
pub open spec fn descend(falls: Seq<bool>, tau: int, tau_max: int) -> int
    decreases tau_max - tau,
{
    if tau + 1 < tau_max && falls[tau] {
        descend(falls, tau + 1, tau_max)
    } else {
        tau
    }
}

/// The lag that the absolute-threshold step settles on: the first lag below the
/// threshold, followed down to the bottom of its dip.
pub open spec fn threshold_lag(below: Seq<bool>, falls: Seq<bool>, tau_min: int, tau_max: int) -> Option<int> {
    match first_below(below, tau_min, tau_max) {
        Some(tau) => Some(descend(falls, tau, tau_max)),
        None => None,
    }
}

/// `first_below` finds the least lag of the window that lies below the threshold.
pub proof fn lemma_first_below(below: Seq<bool>, tau_min: int, tau_max: int)
    ensures
        first_below(below, tau_min, tau_max) is None <==> (forall|t: int|
            tau_min <= t < tau_max ==> !#[trigger] below[t]),
        first_below(below, tau_min, tau_max) matches Some(tau) ==> {
            &&& tau_min <= tau < tau_max
            &&& below[tau]
            &&& forall|t: int| tau_min <= t < tau ==> !#[trigger] below[t]
        },
    decreases tau_max - tau_min,
{
    if tau_min < tau_max && !below[tau_min] {
        lemma_first_below(below, tau_min + 1, tau_max);
    }
}

/// `descend` stops at a lag of the window that is not followed by a lower one,
/// and every lag it passes is followed by a lower one.
pub proof fn lemma_descend(falls: Seq<bool>, tau: int, tau_max: int)
    requires
        tau < tau_max,
    ensures
        tau <= descend(falls, tau, tau_max) < tau_max,
        forall|t: int| tau <= t < descend(falls, tau, tau_max) ==> #[trigger] falls[t],
        descend(falls, tau, tau_max) + 1 == tau_max || !falls[descend(falls, tau, tau_max)],
    decreases tau_max - tau,
{
    if tau + 1 < tau_max && falls[tau] {
        lemma_descend(falls, tau + 1, tau_max);
    }
}

/// The absolute-threshold lag is the bottom of the first dip below the
/// threshold: when no lag of the window is below the threshold there is none;
/// otherwise, with `f` the least lag of the window below the threshold, the lag
/// `t` chosen satisfies `f <= t < tau_max`, every lag from `f` up to `t` is
/// followed by a lower one, and `t` is not (or is the last lag of the window).
pub proof fn lemma_threshold_lag_is_first_dip(
    below: Seq<bool>,
    falls: Seq<bool>,
    tau_min: int,
    tau_max: int,
)
    ensures
        threshold_lag(below, falls, tau_min, tau_max) is None <==> (forall|u: int|
            tau_min <= u < tau_max ==> !#[trigger] below[u]),
        forall|f: int|
            tau_min <= f < tau_max && below[f] && (forall|u: int|
                tau_min <= u < f ==> !#[trigger] below[u]) ==> {
                &&& threshold_lag(below, falls, tau_min, tau_max) is Some
                &&& f <= threshold_lag(below, falls, tau_min, tau_max)->0 < tau_max
                &&& forall|u: int|
                    f <= u < threshold_lag(below, falls, tau_min, tau_max)->0 ==> #[trigger] falls[u]
                &&& threshold_lag(below, falls, tau_min, tau_max)->0 + 1 == tau_max || !falls[
                    threshold_lag(below, falls, tau_min, tau_max)->0]
            },
{
    lemma_first_below(below, tau_min, tau_max);
    if let Some(first) = first_below(below, tau_min, tau_max) {
        lemma_descend(falls, first, tau_max);
        assert forall|f: int|
            tau_min <= f < tau_max && below[f] && (forall|u: int|
                tau_min <= u < f ==> !#[trigger] below[u]) implies f == first by {
            if f < first {
                assert(!below[f]);
            } else if first < f {
                assert(!below[first]);
            }
        }
    }
}

impl<T> Yin<T> {
    /// The settings for the given sample rate, lag window and threshold.
    pub fn with_lags(sample_rate: u32, tau_min: usize, tau_max: usize, threshold: T) -> (yin: Yin<T>)
        ensures
            yin.sample_rate == sample_rate,
            yin.tau_min == tau_min,
            yin.tau_max == tau_max,
            yin.threshold == threshold,
    {
        Yin { sample_rate, tau_min, tau_max, threshold }
    }

    /// Returns the minimum size for input with the current settings.
    ///
    /// The input frame must have at least this many samples to get decent results.
    pub fn minimum_frame_size(&self) -> (size: usize)
        requires
            self.tau_max <= usize::MAX / 2,
        ensures
            size == 2 * self.tau_max,
    {
        2 * self.tau_max
    }

    /// How many sample positions the difference function (step 2 of YIN) sums
    /// over for a frame of `frame_len` samples: `frame_len - tau_max`, for which
    /// every pair of samples `i` and `i + tau` with `tau < tau_max` lies inside
    /// the frame. `None` when the frame is shorter than the minimum frame size,
    /// on which no estimate is made.
    pub fn difference_span(&self, frame_len: usize) -> (span: Option<usize>)
        requires
            self.tau_max <= usize::MAX / 2,
        ensures
            span is None <==> frame_len < 2 * self.tau_max,
            span matches Some(s) ==> s + self.tau_max == frame_len,
    {
        if frame_len < self.minimum_frame_size() {
            None
        } else {
            Some(frame_len - self.tau_max)
        }
    }

    /// Step 4 of YIN, the absolute threshold, on the comparisons of the cumulative
    /// mean normalized difference `d'`: `below[tau]` tells whether `d'[tau]` is below
    /// the threshold, `falls[tau]` whether `d'[tau + 1] < d'[tau]`.
    ///
    /// Returns the first lag of `tau_min..tau_max` below the threshold, followed
    /// down while the next lag is lower; `None` when no lag is below the threshold.
    pub fn absolute_threshold(below: &[bool], falls: &[bool], tau_min: usize, tau_max: usize) -> (lag: Option<usize>)
        requires
            below.len() == falls.len(),
            tau_max <= below.len(),
        ensures
            lag matches Some(tau) ==> Some(tau as int) == threshold_lag(
                below@,
                falls@,
                tau_min as int,
                tau_max as int,
            ),
            lag is None <==> threshold_lag(below@, falls@, tau_min as int, tau_max as int) is None,
            lag is None <==> forall|t: int| tau_min <= t < tau_max ==> !#[trigger] below@[t],
            lag matches Some(tau) ==> {
                &&& tau_min <= tau < tau_max
                &&& tau + 1 == tau_max || !falls@[tau as int]
            },
            forall|f: int|
                tau_min <= f < tau_max && below@[f] && (forall|u: int|
                    tau_min <= u < f ==> !#[trigger] below@[u]) ==> {
                    &&& lag matches Some(tau)
                    &&& f <= lag->0
                    &&& forall|u: int| f <= u < lag->0 ==> #[trigger] falls@[u]
                },
    {
        proof {
            lemma_first_below(below@, tau_min as int, tau_max as int);
            lemma_threshold_lag_is_first_dip(below@, falls@, tau_min as int, tau_max as int);
        }
        let mut start = tau_min;
        while start < tau_max
            invariant
                below.len() == falls.len(),
                tau_max <= below.len(),
                start >= tau_min,
                first_below(below@, tau_min as int, tau_max as int) == first_below(
                    below@,
                    start as int,
                    tau_max as int,
                ),
            decreases tau_max - start,
        {
            if below[start] {
                let mut tau = start;
                proof {
                    lemma_descend(falls@, start as int, tau_max as int);
                }
                while tau + 1 < tau_max && falls[tau]
                    invariant
                        start <= tau < tau_max,
                        tau_max <= below.len(),
                        below.len() == falls.len(),
                        descend(falls@, tau as int, tau_max as int) == descend(
                            falls@,
                            start as int,
                            tau_max as int,
                        ),
                    decreases tau_max - tau,
                {
                    tau = tau + 1;
                }
                proof {
                    lemma_descend(falls@, start as int, tau_max as int);
                    lemma_threshold_lag_is_first_dip(below@, falls@, tau_min as int, tau_max as int);
                }
                return Some(tau);
            }
            start = start + 1;
        }
        None
    }

    /// The three lags around `tau` used for parabolic interpolation (step 5 of
    /// YIN), when both neighbours lie inside a difference of length `len`;
    /// otherwise the lag is taken as it is.
    pub fn interpolation_neighbours(len: usize, tau: usize) -> (neighbours: Option<(usize, usize, usize)>)
        requires
            tau < usize::MAX,
        ensures
            neighbours is Some <==> 0 < tau && tau + 1 < len,
            neighbours matches Some(n) ==> n == (
                (tau - 1) as usize,
                tau,
                (tau + 1) as usize,
            ),
    {
        if tau == 0 || tau + 1 >= len {
            None
        } else {
            Some((tau - 1, tau, tau + 1))
        }
    }
}

} // verus!

//! Frame timings: recent durations and what they sum up to.
//!
//! Every instant is a number of nanoseconds on one monotonic clock.

use std::collections::VecDeque;

use vstd::prelude::*;

verus! {

/// Most recent durations that are kept of each sort.
pub const MAX_TIMING_SAMPLES: usize = 240;

// ---------------------------------------------------------------------------
// Samples
// ---------------------------------------------------------------------------
/// `samples` with one more, without the oldest where the window was full.
pub open spec fn with_sample(samples: Seq<u64>, sample: u64) -> Seq<u64> {
    if samples.len() == MAX_TIMING_SAMPLES {
        samples.drop_first().push(sample)
    } else {
        samples.push(sample)
    }
}

/// Add a duration to a window of recent ones.
pub fn push_sample(samples: &mut VecDeque<u64>, sample: u64)
    ensures
        final(samples)@ == with_sample(old(samples)@, sample),
{
    if samples.len() == MAX_TIMING_SAMPLES {
        let _ = samples.pop_front();
    }
    samples.push_back(sample);
}

/// The time from `earlier` to `later`, or zero where the clock went back.
pub open spec fn elapsed(earlier: u64, later: u64) -> u64 {
    if earlier <= later {
        (later - earlier) as u64
    } else {
        0
    }
}

fn time_since(earlier: u64, later: u64) -> (duration: u64)
    ensures
        duration == elapsed(earlier, later),
{
    later.saturating_sub(earlier)
}

/// The sum of durations.
pub open spec fn total(samples: Seq<u64>) -> nat
    decreases samples.len(),
{
    if samples.len() == 0 {
        0
    } else {
        total(samples.drop_last()) + samples.last() as nat
    }
}

/// The longest duration, or zero where there is none.
pub open spec fn longest(samples: Seq<u64>) -> u64
    decreases samples.len(),
{
    if samples.len() == 0 {
        0
    } else if longest(samples.drop_last()) < samples.last() {
        samples.last()
    } else {
        longest(samples.drop_last())
    }
}

/// The longest duration is one of them, and none is longer.
pub proof fn lemma_longest(samples: Seq<u64>)
    ensures
        forall|i: int| 0 <= i < samples.len() ==> #[trigger] samples[i] <= longest(samples),
        samples.len() > 0 ==> samples.contains(longest(samples)),
    decreases samples.len(),
{
    if samples.len() > 0 {
        let rest = samples.drop_last();
        lemma_longest(rest);
        assert forall|i: int| 0 <= i < samples.len() implies #[trigger] samples[i] <= longest(
            samples,
        ) by {
            if i < rest.len() {
                assert(rest[i] == samples[i]);
            }
        }
        if longest(rest) < samples.last() {
            assert(samples[samples.len() - 1] == longest(samples));
        } else if rest.len() > 0 {
            let i = rest.index_of(longest(rest));
            assert(samples[i] == longest(samples));
        } else {
            assert(samples[0] == longest(samples));
        }
    }
}

/// The number, sum, and maximum of a window of durations, in nanoseconds.
#[derive(Clone, Copy, Debug, PartialEq, Eq, Structural)]
pub struct TimingSummary {
    pub count: usize,
    pub total_nanos: u128,
    pub max_nanos: u64,
}

pub open spec fn summary(samples: Seq<u64>) -> TimingSummary {
    TimingSummary {
        count: samples.len() as usize,
        total_nanos: total(samples) as u128,
        max_nanos: longest(samples),
    }
}

/// Sum up a window of durations.
pub fn timing_summary(samples: &VecDeque<u64>) -> (summed: TimingSummary)
    ensures
        summed == summary(samples@),
        summed.total_nanos == total(samples@),
{
    let mut total_nanos: u128 = 0;
    let mut max_nanos: u64 = 0;
    let mut i: usize = 0;
    while i < samples.len()
        invariant
            i <= samples@.len(),
            total_nanos == total(samples@.take(i as int)),
            total_nanos <= i * 0xffff_ffff_ffff_ffff,
            max_nanos == longest(samples@.take(i as int)),
        decreases samples@.len() - i,
    {
        let sample = samples[i];
        proof {
            assert(samples@.take(i + 1).drop_last() =~= samples@.take(i as int));
            assert(samples@.take(i + 1).last() == sample);
            assert((i + 1) * 0xffff_ffff_ffff_ffff == i * 0xffff_ffff_ffff_ffff
                + 0xffff_ffff_ffff_ffff) by (nonlinear_arith);
            assert(i * 0xffff_ffff_ffff_ffff <= 0xffff_ffff_ffff_ffff * 0xffff_ffff_ffff_ffff)
                by (nonlinear_arith)
                requires
                    i <= 0xffff_ffff_ffff_ffff,
            ;
        }
        total_nanos = total_nanos + sample as u128;
        if max_nanos < sample {
            max_nanos = sample;
        }
        i += 1;
    }
    assert(samples@.take(samples@.len() as int) =~= samples@);
    TimingSummary { count: samples.len(), total_nanos, max_nanos }
}

// ---------------------------------------------------------------------------
// Frames
// ---------------------------------------------------------------------------
/// How the frames so far were timed.
pub struct TimingState {
    previous_frame: Option<u64>,
    prepaint_started: Option<u64>,
    root_paint_started: Option<u64>,
    frame_count: u64,
    intervals: VecDeque<u64>,
    prepaint: VecDeque<u64>,
    root_paint: VecDeque<u64>,
}

#[verifier::ext_equal]
pub struct TimingModel {
    /// When the last frame began.
    pub previous_frame: Option<u64>,
    /// When the prepaint that is running began.
    pub prepaint_started: Option<u64>,
    /// When the root paint that is running began.
    pub root_paint_started: Option<u64>,
    /// How many frames began.
    pub frame_count: u64,
    pub intervals: Seq<u64>,
    pub prepaint: Seq<u64>,
    pub root_paint: Seq<u64>,
}

pub open spec fn no_frames() -> TimingModel {
    TimingModel {
        previous_frame: None,
        prepaint_started: None,
        root_paint_started: None,
        frame_count: 0,
        intervals: Seq::empty(),
        prepaint: Seq::empty(),
        root_paint: Seq::empty(),
    }
}

/// `samples` with the time since `started`, if anything had started.
pub open spec fn with_elapsed(samples: Seq<u64>, started: Option<u64>, now: u64) -> Seq<u64> {
    match started {
        Some(earlier) => with_sample(samples, elapsed(earlier, now)),
        None => samples,
    }
}

pub open spec fn frame_began(timings: TimingModel, now: u64) -> TimingModel {
    TimingModel {
        previous_frame: Some(now),
        prepaint_started: Some(now),
        root_paint_started: None,
        frame_count: if timings.frame_count < u64::MAX {
            (timings.frame_count + 1) as u64
        } else {
            u64::MAX
        },
        intervals: with_elapsed(timings.intervals, timings.previous_frame, now),
        ..timings
    }
}

pub open spec fn prepaint_finished(timings: TimingModel, now: u64) -> TimingModel {
    TimingModel {
        prepaint_started: None,
        prepaint: with_elapsed(timings.prepaint, timings.prepaint_started, now),
        ..timings
    }
}

pub open spec fn root_paint_began(timings: TimingModel, now: u64) -> TimingModel {
    TimingModel { root_paint_started: Some(now), ..timings }
}

pub open spec fn root_paint_finished(timings: TimingModel, now: u64) -> TimingModel {
    TimingModel {
        root_paint_started: None,
        root_paint: with_elapsed(timings.root_paint, timings.root_paint_started, now),
        ..timings
    }
}

/// What is known of the frames when one has been painted.
#[derive(Clone, Copy, Debug, PartialEq, Eq, Structural)]
pub struct FrameStats {
    pub frame_count: u64,
    pub sample_count: u32,
    pub intervals: TimingSummary,
    pub prepaint: TimingSummary,
    pub root_paint: TimingSummary,
}

/// The number of samples as far as 32 bits hold it.
pub open spec fn sample_count(samples: Seq<u64>) -> u32 {
    if samples.len() <= u32::MAX {
        samples.len() as u32
    } else {
        u32::MAX
    }
}

pub open spec fn stats(timings: TimingModel) -> FrameStats {
    FrameStats {
        frame_count: timings.frame_count,
        sample_count: sample_count(timings.intervals),
        intervals: summary(timings.intervals),
        prepaint: summary(timings.prepaint),
        root_paint: summary(timings.root_paint),
    }
}

/// The timings of every sort stay within their window.
pub open spec fn windowed(timings: TimingModel) -> bool {
    &&& timings.intervals.len() <= MAX_TIMING_SAMPLES
    &&& timings.prepaint.len() <= MAX_TIMING_SAMPLES
    &&& timings.root_paint.len() <= MAX_TIMING_SAMPLES
}

/// No event makes a window of durations outgrow its limit.
pub proof fn law_windows_are_kept(timings: TimingModel, now: u64)
    requires
        windowed(timings),
    ensures
        windowed(frame_began(timings, now)),
        windowed(prepaint_finished(timings, now)),
        windowed(root_paint_began(timings, now)),
        windowed(root_paint_finished(timings, now)),
{
}

fn push_elapsed(samples: &mut VecDeque<u64>, started: Option<u64>, now: u64)
    ensures
        final(samples)@ == with_elapsed(old(samples)@, started, now),
{
    if let Some(earlier) = started {
        push_sample(samples, time_since(earlier, now));
    }
}

impl TimingState {
    pub closed spec fn model(&self) -> TimingModel {
        TimingModel {
            previous_frame: self.previous_frame,
            prepaint_started: self.prepaint_started,
            root_paint_started: self.root_paint_started,
            frame_count: self.frame_count,
            intervals: self.intervals@,
            prepaint: self.prepaint@,
            root_paint: self.root_paint@,
        }
    }

    /// No frame has begun.
    pub fn new() -> (timings: Self)
        ensures
            timings.model() == no_frames(),
    {
        TimingState {
            previous_frame: None,
            prepaint_started: None,
            root_paint_started: None,
            frame_count: 0,
            intervals: VecDeque::with_capacity(MAX_TIMING_SAMPLES),
            prepaint: VecDeque::with_capacity(MAX_TIMING_SAMPLES),
            root_paint: VecDeque::with_capacity(MAX_TIMING_SAMPLES),
        }
    }

    /// A frame begins, and its prepaint with it.
    pub fn begin_frame(&mut self, now: u64)
        ensures
            final(self).model() == frame_began(old(self).model(), now),
    {
        self.frame_count = self.frame_count.saturating_add(1);
        push_elapsed(&mut self.intervals, self.previous_frame, now);
        self.previous_frame = Some(now);
        self.prepaint_started = Some(now);
        self.root_paint_started = None;
    }

    /// The prepaint ends, if one was running.
    pub fn finish_prepaint(&mut self, now: u64)
        ensures
            final(self).model() == prepaint_finished(old(self).model(), now),
    {
        push_elapsed(&mut self.prepaint, self.prepaint_started, now);
        self.prepaint_started = None;
    }

    /// The root paint begins.
    pub fn begin_root_paint(&mut self, now: u64)
        ensures
            final(self).model() == root_paint_began(old(self).model(), now),
    {
        self.root_paint_started = Some(now);
    }

    /// The root paint ends, if one was running: the stats of the frame.
    pub fn finish_root_paint(&mut self, now: u64) -> (completed: FrameStats)
        ensures
            final(self).model() == root_paint_finished(old(self).model(), now),
            completed == stats(final(self).model()),
    {
        push_elapsed(&mut self.root_paint, self.root_paint_started, now);
        self.root_paint_started = None;
        frame_stats_from_timings(self)
    }
}

/// What the timings sum up to.
pub fn frame_stats_from_timings(timings: &TimingState) -> (completed: FrameStats)
    ensures
        completed == stats(timings.model()),
{
    let intervals = timing_summary(&timings.intervals);
    let count = timings.intervals.len();
    FrameStats {
        frame_count: timings.frame_count,
        sample_count: if count <= 0xffff_ffff {
            count as u32
        } else {
            u32::MAX
        },
        intervals,
        prepaint: timing_summary(&timings.prepaint),
        root_paint: timing_summary(&timings.root_paint),
    }
}

/// The stats before any frame was painted.
pub fn no_stats() -> (none: FrameStats)
    ensures
        none == stats(no_frames()),
{
    let none = TimingSummary { count: 0, total_nanos: 0, max_nanos: 0 };
    FrameStats { frame_count: 0, sample_count: 0, intervals: none, prepaint: none, root_paint: none }
}

// ---------------------------------------------------------------------------
// Laws
// ---------------------------------------------------------------------------
/// A window of durations keeps the latest 240 in order: what is added comes
/// last, and only the oldest of a full window goes.
pub proof fn law_windows_keep_the_latest(samples: Seq<u64>, sample: u64)
    ensures
        with_sample(samples, sample).len() > 0,
        with_sample(samples, sample).last() == sample,
        samples.len() == 240 ==> with_sample(samples, sample).drop_last() == samples.drop_first(),
        samples.len() != 240 ==> with_sample(samples, sample).drop_last() == samples,
{
    assert(with_sample(samples, sample).drop_last() =~= if samples.len() == 240 {
        samples.drop_first()
    } else {
        samples
    });
}

/// A duration is what the clock went forward; where it went back, nothing.
pub proof fn law_durations(earlier: u64, later: u64)
    ensures
        earlier <= later ==> earlier + elapsed(earlier, later) == later,
        later <= earlier ==> elapsed(earlier, later) == 0,
{
}

/// The count, sum, and maximum of durations: one more counts one more, adds
/// itself to the sum, and is the maximum where none before it was longer.
pub proof fn law_summaries_add_up(samples: Seq<u64>, sample: u64)
    requires
        samples.len() <= MAX_TIMING_SAMPLES,
    ensures
        total(Seq::empty()) == 0,
        longest(Seq::empty()) == 0,
        summary(samples).count == samples.len(),
        summary(samples).total_nanos == total(samples),
        summary(samples).max_nanos == longest(samples),
        total(samples.push(sample)) == total(samples) + sample,
        longest(samples.push(sample)) == (if longest(samples) < sample {
            sample
        } else {
            longest(samples)
        }),
{
    assert(samples.push(sample).drop_last() =~= samples);
    lemma_total_bounded(samples);
    assert(total(samples) <= 240 * 0xffff_ffff_ffff_ffff) by {
        assert(samples.len() * 0xffff_ffff_ffff_ffff <= 240 * 0xffff_ffff_ffff_ffff)
            by (nonlinear_arith)
            requires
                samples.len() <= 240,
        ;
    }
}

proof fn lemma_total_bounded(samples: Seq<u64>)
    ensures
        total(samples) <= samples.len() * 0xffff_ffff_ffff_ffff,
    decreases samples.len(),
{
    if samples.len() > 0 {
        lemma_total_bounded(samples.drop_last());
        assert(samples.len() * 0xffff_ffff_ffff_ffff == (samples.len() - 1) * 0xffff_ffff_ffff_ffff
            + 0xffff_ffff_ffff_ffff) by (nonlinear_arith);
    }
}

/// A frame that begins counts one more, adds the time since the last one began
/// to the intervals if there was one, and starts its prepaint; the durations
/// of prepaints and root paints stay.
pub proof fn law_beginning_a_frame(timings: TimingModel, now: u64)
    ensures
        ({
            let after = frame_began(timings, now);
            &&& timings.frame_count < u64::MAX ==> after.frame_count == timings.frame_count + 1
            &&& timings.frame_count == u64::MAX ==> after.frame_count == u64::MAX
            &&& after.previous_frame == Some(now)
            &&& after.prepaint_started == Some(now)
            &&& after.root_paint_started is None
            &&& timings.previous_frame is None ==> after.intervals == timings.intervals
            &&& timings.previous_frame matches Some(earlier) ==> after.intervals == with_sample(
                timings.intervals,
                elapsed(earlier, now),
            )
            &&& after.prepaint == timings.prepaint
            &&& after.root_paint == timings.root_paint
        }),
{
}

/// A prepaint that ends adds its own time to the prepaints, once; nothing else
/// changes, and without one that runs nothing does.
pub proof fn law_finishing_a_prepaint(timings: TimingModel, now: u64, again: u64)
    ensures
        ({
            let after = prepaint_finished(timings, now);
            &&& timings.prepaint_started matches Some(earlier) ==> after.prepaint == with_sample(
                timings.prepaint,
                elapsed(earlier, now),
            )
            &&& timings.prepaint_started is None ==> after == timings
            &&& after.prepaint_started is None
            &&& after.previous_frame == timings.previous_frame
            &&& after.root_paint_started == timings.root_paint_started
            &&& after.frame_count == timings.frame_count
            &&& after.intervals == timings.intervals
            &&& after.root_paint == timings.root_paint
            &&& prepaint_finished(after, again) == after
        }),
{
}

/// A root paint adds the time from its beginning to its end to the root
/// paints, once; nothing else changes, and without one that runs nothing does.
pub proof fn law_painting(timings: TimingModel, began: u64, now: u64)
    ensures
        root_paint_began(timings, began).root_paint_started == Some(began),
        root_paint_began(timings, began).root_paint == timings.root_paint,
        ({
            let after = root_paint_finished(root_paint_began(timings, began), now);
            &&& after.root_paint == with_sample(timings.root_paint, elapsed(began, now))
            &&& after.root_paint_started is None
            &&& after.previous_frame == timings.previous_frame
            &&& after.prepaint_started == timings.prepaint_started
            &&& after.frame_count == timings.frame_count
            &&& after.intervals == timings.intervals
            &&& after.prepaint == timings.prepaint
        }),
        timings.root_paint_started is None ==> root_paint_finished(timings, now) == timings,
{
}

/// Stats say how many frames began, how many intervals are kept, and what each
/// sort of duration sums up to.
pub proof fn law_stats_sum_up(timings: TimingModel)
    requires
        windowed(timings),
    ensures
        stats(timings).frame_count == timings.frame_count,
        stats(timings).sample_count == timings.intervals.len(),
        stats(timings).intervals == summary(timings.intervals),
        stats(timings).prepaint == summary(timings.prepaint),
        stats(timings).root_paint == summary(timings.root_paint),
{
}

} // verus!

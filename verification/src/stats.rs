//! Frame counting. The frame rate is measured over windows of a quarter of a second.
use crate::accuracy::{distance, law_sum_is_accurate, lemma_rounding_error};
use crate::arithmetic::{
    law_count_is_finite, law_quotient_sign, law_small_count_is_exact,
    law_small_term_does_not_overflow, law_sum_commutes, law_sum_keeps_order, law_sum_with_zero,
    lemma_infinite, lemma_rounded, lemma_zero,
};
use crate::rounding::{
    law_rounding_keeps_exact, law_rounding_keeps_order, lemma_encoding, nearest,
};
use crate::single::{
    law_magnitude_increases, law_unsigned_order_is_order_of_bits, law_value_of_fields,
    magnitude_of, Single, INFINITY, ZERO,
};
use vstd::arithmetic::power2::{
    lemma2_to64, lemma_pow2_adds, lemma_pow2_pos, lemma_pow2_strictly_increases, pow2,
};
use vstd::prelude::*;

verus! {

/// The bits of 0.25: a window closes once it has lasted this many seconds.
pub const WINDOW_SECONDS: u32 = 0x3e80_0000;

/// What the page is told: the frames so far and the frame rate.
#[derive(Clone, Copy, PartialEq, Eq, Structural, Debug)]
pub struct Stats {
    pub frames: u64,
    pub fps: Single,
}

/// The frame counts.
#[derive(Clone, Copy, PartialEq, Eq, Structural, Debug)]
pub struct FrameStats {
    /// All frames so far.
    pub frames: u64,
    /// The rate over the last window that closed.
    pub fps: Single,
    /// How many seconds the open window has lasted.
    pub accumulator: Single,
    /// The frames of the open window.
    pub window_frames: u32,
}

/// A window that has lasted `accumulator` seconds closes.
pub open spec fn closes(accumulator: Single) -> bool {
    accumulator.ge(Single { bits: WINDOW_SECONDS })
}

impl FrameStats {
    /// The open window is one that does not close yet, and its frames are among all
    /// frames.
    pub open spec fn wf(self) -> bool {
        &&& !closes(self.accumulator)
        &&& self.window_frames <= self.frames
    }

    /// The counts before the first frame.
    pub open spec fn initial() -> FrameStats {
        FrameStats {
            frames: 0,
            fps: Single { bits: ZERO },
            accumulator: Single { bits: ZERO },
            window_frames: 0,
        }
    }

    /// How many seconds the open window has lasted after a frame of `delta` seconds more.
    pub open spec fn lasted(self, delta: Single) -> Single {
        self.accumulator.sum(delta)
    }

    /// The counts after a frame of `delta` seconds. If that closes the window, its frame
    /// rate is kept and a new one is opened.
    pub open spec fn counted(self, delta: Single) -> FrameStats {
        if closes(self.lasted(delta)) {
            FrameStats {
                frames: (self.frames + 1) as u64,
                fps: Single::count((self.window_frames + 1) as u32).quotient(self.lasted(delta)),
                accumulator: Single { bits: ZERO },
                window_frames: 0,
            }
        } else {
            FrameStats {
                frames: (self.frames + 1) as u64,
                fps: self.fps,
                accumulator: self.lasted(delta),
                window_frames: (self.window_frames + 1) as u32,
            }
        }
    }

    /// The counts after a run of frames of the given lengths.
    pub open spec fn counted_all(self, deltas: Seq<Single>) -> FrameStats
        decreases deltas.len(),
    {
        if deltas.len() == 0 {
            self
        } else {
            self.counted_all(deltas.drop_last()).counted(deltas.last())
        }
    }

    /// Counts a frame of `delta` seconds.
    pub fn track_stats(&mut self, delta: Single)
        requires
            old(self).frames < u64::MAX,
            old(self).window_frames < u32::MAX,
        ensures
            *final(self) == old(self).counted(delta),
            old(self).wf() ==> final(self).wf(),
            final(self).frames == old(self).frames + 1,
            final(self).window_frames == 0 || final(self).window_frames == old(self).window_frames
                + 1,
            final(self).window_frames != 0 ==> final(self).fps == old(self).fps,
            final(self).window_frames == 0 ==> final(self).accumulator.bits == ZERO,
    {
        proof {
            lemma_zero_keeps_window_open();
        }
        self.frames = self.frames + 1;
        self.accumulator = self.accumulator.plus(delta);
        self.window_frames = self.window_frames + 1;
        if self.accumulator.is_at_least(Single::from_bits(WINDOW_SECONDS)) {
            self.fps = Single::from_count(self.window_frames).over(self.accumulator);
            self.accumulator = Single::from_bits(ZERO);
            self.window_frames = 0;
        }
    }
}

proof fn lemma_zero_keeps_window_open()
    ensures
        !closes(Single { bits: ZERO }),
{
    law_unsigned_order_is_order_of_bits(Single { bits: ZERO }, Single { bits: WINDOW_SECONDS });
}

impl Default for FrameStats {
    fn default() -> (r: FrameStats)
        ensures
            r == FrameStats::initial(),
            r.wf(),
    {
        proof {
            lemma_zero_keeps_window_open();
        }
        FrameStats {
            frames: 0,
            fps: Single::from_bits(ZERO),
            accumulator: Single::from_bits(ZERO),
            window_frames: 0,
        }
    }
}

/// Counting a run of frames adds their number to the frames.
pub proof fn law_every_frame_is_counted(stats: FrameStats, deltas: Seq<Single>)
    requires
        stats.frames + deltas.len() <= u64::MAX,
    ensures
        stats.counted_all(deltas).frames == stats.frames + deltas.len(),
    decreases deltas.len(),
{
    if deltas.len() > 0 {
        law_every_frame_is_counted(stats, deltas.drop_last());
    }
}

/// The length of a window, as a multiple of 2^-149.
pub(crate) proof fn lemma_window_seconds()
    ensures
        (Single { bits: WINDOW_SECONDS }).value() == pow2(147),
        pow2(149) == 4 * pow2(147),
        0 < 2 * pow2(147) < pow2(253),
{
    lemma2_to64();
    lemma_pow2_pos(147);
    lemma_pow2_adds(23, 124);
    lemma_pow2_adds(147, 1);
    lemma_pow2_adds(147, 2);
    lemma_pow2_strictly_increases(148, 253);
    law_value_of_fields(Single { bits: WINDOW_SECONDS }, 125, 0);
}

/// What an open window lasts with one frame more: a finite time that is not negative.
proof fn lemma_lasted(accumulator: Single, delta: Single)
    requires
        !accumulator.nan(),
        accumulator.value() >= 0,
        !closes(accumulator),
        !delta.nan(),
        !delta.infinite(),
        delta.value() >= 0,
    ensures
        !accumulator.sum(delta).nan(),
        !accumulator.sum(delta).infinite(),
        accumulator.sum(delta).value() >= 0,
{
    let zero = Single { bits: ZERO };
    lemma_window_seconds();
    law_unsigned_order_is_order_of_bits(zero, Single { bits: WINDOW_SECONDS });
    law_small_term_does_not_overflow(accumulator, delta);
    law_sum_with_zero(accumulator, zero);
    law_sum_commutes(accumulator, zero);
    law_sum_commutes(accumulator, delta);
    law_sum_keeps_order(zero, delta, accumulator);
}

/// The rate of a number of frames in a time of a quarter of a second or more: it is finite,
/// positive, and at most four for each frame.
pub(crate) proof fn lemma_rate(frames: u32, time: Single)
    requires
        frames >= 1,
        closes(time),
        !time.infinite(),
    ensures
        ({
            let rate = Single::count(frames).quotient(time);
            &&& !rate.nan()
            &&& !rate.infinite()
            &&& 0 < rate.value() <= 4 * Single::count(frames).value()
        }),
{
    let count = Single::count(frames);
    let unit = pow2(149) as int;
    lemma_window_seconds();
    law_count_is_finite(frames);
    lemma_zero(time);
    lemma_infinite(time);
    let (c, den) = (count.abs_value(), time.abs_value());
    let num = c * unit;
    let fourfold = count.low_bits() + 0x100_0000;
    assert(magnitude_of(fourfold) == 4 * c) by {
        let (exponent, fraction) = (count.low_bits() / 0x80_0000, count.low_bits() % 0x80_0000);
        assert(fourfold / 0x80_0000 == exponent + 2 && fourfold % 0x80_0000 == fraction);
        lemma2_to64();
        lemma_pow2_adds((exponent - 1) as nat, 2);
        let (m, p) = (0x80_0000 + fraction, pow2((exponent - 1) as nat) as int);
        assert(m * (p * 4) == 4 * (m * p)) by (nonlinear_arith);
    }
    assert(num >= 0 && num <= 4 * c * den) by (nonlinear_arith)
        requires
            num == c * unit,
            c >= 0,
            0 < unit <= 4 * den,
    ;
    lemma_rounded(false, num, den);
    law_rounding_keeps_exact(fourfold, 1);
    law_rounding_keeps_order(nearest(num, den), num, den, fourfold, magnitude_of(fourfold), 1);
    if nearest(num, den) < fourfold {
        law_magnitude_increases(nearest(num, den), fourfold);
    }
    let top = INFINITY as int;
    assert(den <= num) by {
        lemma_encoding(253, 0x100_0000);
        lemma2_to64();
        lemma_pow2_adds(253, 24);
        lemma_pow2_adds(149, 149);
        lemma_pow2_strictly_increases(277, 298);
        law_magnitude_increases(time.low_bits(), top);
        assert(unit * unit <= num) by (nonlinear_arith)
            requires
                num == c * unit,
                c >= unit,
                unit > 0,
        ;
    }
    law_rounding_keeps_exact(1, 1);
    assert(magnitude_of(1) == 1);
    law_rounding_keeps_order(1, 1, 1, nearest(num, den), num, den);
    law_magnitude_increases(0, nearest(num, den));
}

/// As long as time does not run backwards, the open window has lasted from nothing to less
/// than a quarter of a second, and the counts go up by one. A window that closes leaves an
/// empty one, and a rate that is finite, positive and at most four for each of its frames.
pub proof fn law_windows_and_rates_are_bounded(stats: FrameStats, delta: Single)
    requires
        stats.frames < u64::MAX,
        stats.window_frames < u32::MAX,
        !stats.accumulator.nan(),
        stats.accumulator.value() >= 0,
        !closes(stats.accumulator),
        !delta.nan(),
        !delta.infinite(),
        delta.value() >= 0,
    ensures
        ({
            let next = stats.counted(delta);
            let frames = (stats.window_frames + 1) as u32;
            &&& next.frames == stats.frames + 1
            &&& !next.accumulator.nan()
            &&& 0 <= next.accumulator.value() < (Single { bits: WINDOW_SECONDS }).value()
            &&& closes(stats.lasted(delta)) ==> {
                &&& next.accumulator.value() == 0
                &&& next.window_frames == 0
                &&& !next.fps.nan()
                &&& !next.fps.infinite()
                &&& 0 < next.fps.value() <= 4 * Single::count(frames).value()
                &&& frames <= 0x100_0000 ==> next.fps.value() <= 4 * frames * pow2(149)
            }
            &&& !closes(stats.lasted(delta)) ==> {
                &&& next.window_frames == stats.window_frames + 1
                &&& next.fps == stats.fps
            }
        }),
{
    lemma_zero_keeps_window_open();
    lemma_window_seconds();
    lemma_lasted(stats.accumulator, delta);
    let frames = (stats.window_frames + 1) as u32;
    if closes(stats.lasted(delta)) {
        lemma_rate(frames, stats.lasted(delta));
        if frames <= 0x100_0000 {
            law_small_count_is_exact(frames);
            assert(4 * (frames * pow2(149)) == 4 * frames * pow2(149)) by (nonlinear_arith);
        }
    }
}

/// Over a run in which time does not run backwards, the open window has always lasted from
/// nothing to less than a quarter of a second, and the rate is always a finite number that is
/// not negative.
pub proof fn law_run_keeps_windows_bounded(deltas: Seq<Single>)
    requires
        deltas.len() <= u32::MAX,
        forall|i: int|
            0 <= i < deltas.len() ==> (#[trigger] deltas[i]).finite() && deltas[i].value() >= 0,
    ensures
        ({
            let stats = FrameStats::initial().counted_all(deltas);
            &&& !stats.accumulator.nan()
            &&& 0 <= stats.accumulator.value() < (Single { bits: WINDOW_SECONDS }).value()
            &&& stats.window_frames <= deltas.len()
            &&& stats.fps.finite()
            &&& stats.fps.value() >= 0
        }),
    decreases deltas.len(),
{
    if deltas.len() == 0 {
        let (zero, window) = (Single { bits: ZERO }, Single { bits: WINDOW_SECONDS });
        law_unsigned_order_is_order_of_bits(zero, window);
    } else {
        let rest = deltas.drop_last();
        law_run_keeps_windows_bounded(rest);
        law_every_frame_is_counted(FrameStats::initial(), rest);
        assert(deltas.last().finite());
        law_windows_and_rates_are_bounded(
            FrameStats::initial().counted_all(rest),
            deltas.last(),
        );
    }
}

/// Frame `i` of a run closes a window.
pub open spec fn closes_at(stats: FrameStats, deltas: Seq<Single>, i: int) -> bool {
    closes(stats.counted_all(deltas.take(i)).lasted(deltas[i]))
}

/// The open window holds the frames after the last one that closed a window, and the rate
/// is the one that this frame gave.
pub proof fn law_window_holds_frames_since_last_close(
    stats: FrameStats,
    deltas: Seq<Single>,
    last: int,
)
    requires
        0 <= last < deltas.len() <= u32::MAX,
        closes_at(stats, deltas, last),
        forall|i: int| last < i < deltas.len() ==> !#[trigger] closes_at(stats, deltas, i),
    ensures
        stats.counted_all(deltas).window_frames == deltas.len() - 1 - last,
        stats.counted_all(deltas).fps == stats.counted_all(deltas.take(last + 1)).fps,
    decreases deltas.len(),
{
    let rest = deltas.drop_last();
    assert(rest == deltas.take(deltas.len() - 1));
    if last < deltas.len() - 1 {
        assert(rest.take(last) == deltas.take(last));
        assert(rest.take(last + 1) == deltas.take(last + 1));
        assert forall|i: int| last < i < rest.len() implies !#[trigger] closes_at(
            stats,
            rest,
            i,
        ) by {
            assert(rest.take(i) == deltas.take(i));
            assert(!closes_at(stats, deltas, i));
        }
        law_window_holds_frames_since_last_close(stats, rest, last);
        assert(!closes_at(stats, deltas, deltas.len() - 1));
    } else {
        assert(deltas.take(last + 1) == deltas);
    }
}

/// The running sum of a run of times, from a start.
pub open spec fn summed(start: Single, deltas: Seq<Single>) -> Single
    decreases deltas.len(),
{
    if deltas.len() == 0 {
        start
    } else {
        summed(start, deltas.drop_last()).sum(deltas.last())
    }
}

/// The counts after a run of frames that close no window.
pub open spec fn left_open(stats: FrameStats, deltas: Seq<Single>) -> FrameStats {
    FrameStats {
        frames: (stats.frames + deltas.len()) as u64,
        fps: stats.fps,
        accumulator: summed(stats.accumulator, deltas),
        window_frames: (stats.window_frames + deltas.len()) as u32,
    }
}

/// As long as the running sum does not reach the length of a window, the window stays open and
/// the rate stays as it is.
pub proof fn law_window_stays_open(stats: FrameStats, deltas: Seq<Single>)
    requires
        stats.frames + deltas.len() <= u64::MAX,
        stats.window_frames + deltas.len() <= u32::MAX,
        forall|i: int|
            0 < i <= deltas.len() ==> !closes(
                summed(stats.accumulator, #[trigger] deltas.take(i)),
            ),
    ensures
        stats.counted_all(deltas) == left_open(stats, deltas),
    decreases deltas.len(),
{
    if deltas.len() > 0 {
        let rest = deltas.drop_last();
        assert forall|i: int| 0 < i <= rest.len() implies !closes(
            summed(stats.accumulator, #[trigger] rest.take(i)),
        ) by {
            assert(rest.take(i) == deltas.take(i));
        }
        law_window_stays_open(stats, rest);
        assert(deltas.take(deltas.len() as int) == deltas);
    }
}

/// The frame with which the running sum reaches the length of a window closes it. The rate is
/// then the number of the window's frames over the time that they took, and not before.
pub proof fn law_rate_is_frames_over_time(stats: FrameStats, deltas: Seq<Single>)
    requires
        0 < deltas.len(),
        stats.frames + deltas.len() <= u64::MAX,
        stats.window_frames + deltas.len() <= u32::MAX,
        forall|i: int|
            0 < i < deltas.len() ==> !closes(summed(stats.accumulator, #[trigger] deltas.take(i))),
        closes(summed(stats.accumulator, deltas)),
    ensures
        forall|i: int|
            0 <= i < deltas.len() ==> stats.counted_all(#[trigger] deltas.take(i)) == left_open(
                stats,
                deltas.take(i),
            ),
        stats.counted_all(deltas) == (FrameStats {
            frames: (stats.frames + deltas.len()) as u64,
            fps: Single::count((stats.window_frames + deltas.len()) as u32).quotient(
                summed(stats.accumulator, deltas),
            ),
            accumulator: Single { bits: ZERO },
            window_frames: 0,
        }),
{
    assert forall|i: int| 0 <= i < deltas.len() implies stats.counted_all(#[trigger] deltas.take(i))
        == left_open(stats, deltas.take(i)) by {
        let part = deltas.take(i);
        assert forall|j: int| 0 < j <= part.len() implies !closes(
            summed(stats.accumulator, #[trigger] part.take(j)),
        ) by {
            assert(part.take(j) == deltas.take(j));
        }
        law_window_stays_open(stats, part);
    }
    assert(deltas.drop_last() == deltas.take(deltas.len() - 1));
}

/// Counting a run is counting its parts in turn.
pub proof fn law_counting_goes_on(stats: FrameStats, first: Seq<Single>, second: Seq<Single>)
    ensures
        stats.counted_all(first + second) == stats.counted_all(first).counted_all(second),
    decreases second.len(),
{
    if second.len() == 0 {
        assert(first + second == first);
    } else {
        assert((first + second).drop_last() == first + second.drop_last());
        assert((first + second).last() == second.last());
        law_counting_goes_on(stats, first, second.drop_last());
    }
}

/// As long as no frame closes the window, the window has lasted for the running sum.
proof fn lemma_no_frame_closes(stats: FrameStats, deltas: Seq<Single>, n: int)
    requires
        0 <= n <= deltas.len(),
        stats.frames + deltas.len() <= u64::MAX,
        stats.window_frames + deltas.len() <= u32::MAX,
        forall|i: int| 0 <= i < n ==> !#[trigger] closes_at(stats, deltas, i),
    ensures
        stats.counted_all(deltas.take(n)) == left_open(stats, deltas.take(n)),
        forall|i: int|
            0 < i <= n ==> !closes(summed(stats.accumulator, #[trigger] deltas.take(i))),
    decreases n,
{
    assert forall|i: int| 0 < i <= n implies !closes(
        summed(stats.accumulator, #[trigger] deltas.take(i)),
    ) by {
        lemma_no_frame_closes(stats, deltas, i - 1);
        assert(!closes_at(stats, deltas, i - 1));
        assert(deltas.take(i).drop_last() == deltas.take(i - 1));
    }
    let part = deltas.take(n);
    assert forall|j: int| 0 < j <= part.len() implies !closes(
        summed(stats.accumulator, #[trigger] part.take(j)),
    ) by {
        assert(part.take(j) == deltas.take(j));
    }
    law_window_stays_open(stats, part);
}

/// The rate after a run whose last frame, and no other, closes the window.
proof fn lemma_last_frame_closes(stats: FrameStats, deltas: Seq<Single>)
    requires
        0 < deltas.len(),
        stats.frames + deltas.len() <= u64::MAX,
        stats.window_frames + deltas.len() <= u32::MAX,
        forall|i: int| 0 <= i < deltas.len() - 1 ==> !#[trigger] closes_at(stats, deltas, i),
        closes_at(stats, deltas, deltas.len() - 1),
    ensures
        stats.counted_all(deltas).fps == Single::count(
            (stats.window_frames + deltas.len()) as u32,
        ).quotient(summed(stats.accumulator, deltas)),
{
    let n = deltas.len() as int;
    lemma_no_frame_closes(stats, deltas, n - 1);
    assert(deltas.drop_last() == deltas.take(n - 1));
    law_rate_is_frames_over_time(stats, deltas);
}

/// The rate that a frame of a run gives by closing a window is the number of frames since the
/// one that closed the window before, over the running sum of their times.
#[verifier::rlimit(40)]
#[verifier::spinoff_prover]
pub proof fn law_rate_of_each_window(
    stats: FrameStats,
    deltas: Seq<Single>,
    before: int,
    last: int,
)
    requires
        0 <= before < last < deltas.len() <= u32::MAX,
        stats.frames + deltas.len() <= u64::MAX,
        closes_at(stats, deltas, before),
        closes_at(stats, deltas, last),
        forall|i: int| before < i < last ==> !#[trigger] closes_at(stats, deltas, i),
    ensures
        stats.counted_all(deltas.take(last + 1)).fps == Single::count(
            (last - before) as u32,
        ).quotient(summed(Single { bits: ZERO }, deltas.subrange(before + 1, last + 1))),
{
    let first = deltas.take(before + 1);
    let window = deltas.subrange(before + 1, last + 1);
    let opened = stats.counted_all(first);
    assert(first.drop_last() == deltas.take(before));
    law_every_frame_is_counted(stats, first);
    assert forall|i: int| 0 <= i < window.len() implies #[trigger] closes_at(opened, window, i)
        == closes_at(stats, deltas, before + 1 + i) by {
        law_counting_goes_on(stats, first, window.take(i));
        assert(first + window.take(i) == deltas.take(before + 1 + i));
    }
    lemma_last_frame_closes(opened, window);
    law_counting_goes_on(stats, first, window);
    assert(first + window == deltas.take(last + 1));
}

/// A rate, by the number of frames and the time, in plain values.
pub(crate) proof fn lemma_rate_in_values(frames: u32, time: Single, total: int)
    requires
        frames >= 1,
        closes(time),
        !time.infinite(),
        total >= 0,
        0x100_0000 * distance(total, time.value()) <= time.value(),
    ensures
        ({
            let (count, rate) = (Single::count(frames), Single::count(frames).quotient(time));
            0x100_0000 * distance(count.value() * pow2(149), rate.value() * total) <= 4
                * rate.value() * total + 0x100_0000 * total
        }),
{
    let count = Single::count(frames);
    let rate = count.quotient(time);
    let w = pow2(149) as int;
    lemma_window_seconds();
    lemma_rate(frames, time);
    law_count_is_finite(frames);
    lemma_zero(time);
    lemma_zero(count);
    lemma_zero(rate);
    lemma_infinite(time);
    let (c, t, f) = (count.value(), time.value(), rate.value());
    assert(c * w >= 0) by (nonlinear_arith)
        requires
            c >= 0,
            w > 0,
    ;
    law_quotient_sign(count, time);
    lemma_rounded(false, c * w, t);
    lemma_rounding_error(nearest(c * w, t), c * w, t);
    let (ft, fn_total) = (f * t, f * total);
    let gap = total - t;
    assert(fn_total - ft == f * gap) by (nonlinear_arith)
        requires
            fn_total == f * total,
            ft == f * t,
            gap == total - t,
    ;
    assert(-ft <= 0x100_0000 * (f * gap) <= ft) by (nonlinear_arith)
        requires
            ft == f * t,
            f >= 0,
            -t <= 0x100_0000 * gap <= t,
    ;
    assert(t <= 2 * total);
    assert(ft <= 2 * fn_total && fn_total >= 0) by (nonlinear_arith)
        requires
            ft == f * t,
            fn_total == f * total,
            t <= 2 * total,
            f >= 0,
            total >= 0,
    ;
    assert(4 * f * total == 4 * fn_total) by (nonlinear_arith)
        requires
            fn_total == f * total,
    ;
}

/// A frame, in plain numbers. Its time is added to that of the open window, but for rounding.
/// While that is less than a quarter of a second, the window stays open with one frame more, and
/// the rate stays as it is. From a quarter of a second on, the window is closed: the rate times
/// the time is the number of its frames, but for rounding, and a window of no frames and no
/// time is open.
pub proof fn law_frame_adds_its_time(stats: FrameStats, delta: Single)
    requires
        stats.frames < u64::MAX,
        stats.window_frames < u32::MAX,
        stats.accumulator.finite(),
        0 <= 4 * stats.accumulator.value() < pow2(149),
        delta.finite(),
        delta.value() >= 0,
    ensures
        ({
            let next = stats.counted(delta);
            let total = stats.accumulator.value() + delta.value();
            let (count, rate) = (Single::count((stats.window_frames + 1) as u32), next.fps.value());
            &&& next.frames == stats.frames + 1
            &&& next.accumulator.finite()
            &&& 0 <= 4 * next.accumulator.value() < pow2(149)
            &&& next.window_frames == 0 || next.window_frames == stats.window_frames + 1
            &&& next.window_frames != 0 ==> {
                &&& next.fps == stats.fps
                &&& 0x100_0000 * distance(total, next.accumulator.value())
                    <= next.accumulator.value()
            }
            &&& next.window_frames == 0 ==> {
                &&& next.accumulator.value() == 0
                &&& 0x400_0000 * total >= 0xff_ffff * pow2(149)
                &&& next.fps.finite()
                &&& rate > 0
                &&& 0x100_0000 * distance(count.value() * pow2(149), rate * total) <= 4 * rate
                    * total + 0x100_0000 * total
            }
        }),
{
    let time = stats.lasted(delta);
    let frames = (stats.window_frames + 1) as u32;
    lemma_window_seconds();
    lemma_lasted(stats.accumulator, delta);
    law_sum_is_accurate(stats.accumulator, delta);
    law_windows_and_rates_are_bounded(stats, delta);
    lemma_zero(time);
    if closes(time) {
        lemma_rate_in_values(frames, time, stats.accumulator.value() + delta.value());
    }
}

} // verus!

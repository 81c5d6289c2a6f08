//! What is heard, and when.
use vstd::prelude::*;
use crate::edit::{closest, first_after, last_before, Split};
use crate::player::{mapped_frames, points_until, Playback, Point};
use crate::source::{backs, less, try_count, MemPcm, TimeBase};
use crate::state::frames_in;
use crate::video::Sent;

verus! {

/// A second of sound that the device has played is a second of the recording, whatever the two
/// rates.
pub proof fn law_a_second_is_a_second(p: Playback)
    requires
        p.wf(),
        p.consumed + p.dev_rate <= u64::MAX,
    ensures
        (Playback { consumed: (p.consumed + p.dev_rate) as u64, ..p }).reached() == p.reached() + p.src_rate,
        p.consumed == 0 ==> p.reached() == p.base,
{
    let (c, s, d) = (p.consumed as int, p.src_rate as int, p.dev_rate as int);
    assert((c + d) * s / d == c * s / d + s) by (nonlinear_arith)
        requires
            d > 0,
    ;
    assert(0 * s / d == 0) by (nonlinear_arith)
        requires
            d > 0,
    ;
}

/// Each frame keeps its place, and each channel too: a single channel goes to all of the device's,
/// of several each goes to its own, and a channel that the recording lacks stays silent.
pub proof fn law_channels_keep_their_place<T>(
    input: Seq<T>,
    src_ch: int,
    silence: T,
    dev_ch: int,
    n: int,
    f: int,
    d: int,
)
    requires
        src_ch > 0,
        dev_ch >= 0,
        n >= 0,
        n * src_ch <= input.len(),
        0 <= f < n,
        0 <= d < dev_ch,
    ensures
        mapped_frames(input, src_ch, silence, dev_ch, n).len() == n * dev_ch,
        0 <= f * dev_ch + d < n * dev_ch,
        mapped_frames(input, src_ch, silence, dev_ch, n)[f * dev_ch + d] == if src_ch == 1 {
            input[f]
        } else if d < src_ch {
            input[f * src_ch + d]
        } else {
            silence
        },
    decreases n,
{
    lemma_mapped_len(input, src_ch, silence, dev_ch, n);
    lemma_mapped_len(input, src_ch, silence, dev_ch, n - 1);
    assert(0 <= f * dev_ch && f * dev_ch + d < n * dev_ch && (n - 1) * dev_ch + dev_ch == n * dev_ch && (n - 1) * src_ch
        <= input.len() && (n - 1) * src_ch + src_ch == n * src_ch && 0 <= (n - 1) * src_ch) by (nonlinear_arith)
        requires
            0 <= f < n,
            0 <= d < dev_ch,
            n * src_ch <= input.len(),
            src_ch > 0,
    ;
    let before = mapped_frames(input, src_ch, silence, dev_ch, n - 1);
    if f < n - 1 {
        law_channels_keep_their_place(input, src_ch, silence, dev_ch, n - 1, f, d);
    } else {
        let frame = input.subrange((n - 1) * src_ch, n * src_ch);
        assert(frame.len() == src_ch);
        assert(d < src_ch ==> frame[d] == input[f * src_ch + d]);
        if src_ch == 1 {
            assert((n - 1) * src_ch == n - 1);
            assert(frame[0] == input[f]);
        }
    }
}

proof fn lemma_mapped_len<T>(input: Seq<T>, src_ch: int, silence: T, dev_ch: int, n: int)
    requires
        dev_ch >= 0,
        n >= 0,
    ensures
        mapped_frames(input, src_ch, silence, dev_ch, n).len() == n * dev_ch,
    decreases n,
{
    if n > 0 {
        lemma_mapped_len(input, src_ch, silence, dev_ch, n - 1);
        assert((n - 1) * dev_ch + dev_ch == n * dev_ch) by (nonlinear_arith);
    } else {
        assert(n * dev_ch == 0) by (nonlinear_arith)
            requires
                n == 0,
        ;
    }
}

/// A change of rate keeps the time: output frame `j` is taken `j / dev_rate` seconds behind the
/// first, from between two source frames that are both at hand.
pub proof fn law_resampling_keeps_time(points: Seq<Point>, t: int, src_rate: int, dev_rate: int, frames: int, j: int)
    requires
        t >= 0,
        src_rate > 0,
        dev_rate > 0,
        frames >= 1,
        points_until(points, t, src_rate, dev_rate, (frames - 1) * dev_rate),
        0 <= j < points.len(),
    ensures
        points[j].index * dev_rate + points[j].num == t + j * src_rate,
        0 <= points[j].num < dev_rate,
        points[j].index + 1 < frames,
        src_rate == dev_rate && t == 0 ==> points[j].index == j && points[j].num == 0,
{
    let x = t + j * src_rate;
    let (i, m) = (x / dev_rate, x % dev_rate);
    let last = (frames - 1) * dev_rate;
    let p = points[j];
    assert(x < last);
    assert(p.index == i);
    assert(p.num == m);
    assert(i * dev_rate + m == x && 0 <= m < dev_rate) by (nonlinear_arith)
        requires
            i == x / dev_rate,
            m == x % dev_rate,
            dev_rate > 0,
    ;
    assert(i + 1 < frames) by (nonlinear_arith)
        requires
            i * dev_rate + m == x,
            0 <= m,
            x < (frames - 1) * dev_rate,
            dev_rate > 0,
    ;
    if src_rate == dev_rate && t == 0 {
        assert(i == j && m == 0) by (nonlinear_arith)
            requires
                i * dev_rate + m == j * dev_rate,
                0 <= m < dev_rate,
        ;
    }
}

/// A timestamp is the last one that is not behind its frame, and a frame the last one that is not
/// behind its timestamp.
pub proof fn law_timestamps_tell_the_time(t: TimeBase, n: int)
    requires
        t.wf(),
        n >= 0,
    ensures
        t.ts_of(n) * (t.numer * t.rate) <= n * t.denom < (t.ts_of(n) + 1) * (t.numer * t.rate),
        t.frame_of(n) * t.denom <= n * (t.numer * t.rate) < (t.frame_of(n) + 1) * t.denom,
        t.numer * t.rate == t.denom ==> t.ts_of(n) == n && t.frame_of(n) == n,
{
    let (a, b) = (t.numer * t.rate, t.denom as int);
    assert(a > 0) by (nonlinear_arith)
        requires
            a == t.numer * t.rate,
            t.numer > 0,
            t.rate > 0,
    ;
    lemma_floor(n * b, a);
    lemma_floor(n * a, b);
    if a == b {
        let (p, q) = (t.ts_of(n), t.frame_of(n));
        assert(p == n && q == n) by (nonlinear_arith)
            requires
                p * a <= n * a < (p + 1) * a,
                q * a <= n * a < (q + 1) * a,
                a > 0,
        ;
    }
}

proof fn lemma_floor(x: int, d: int)
    requires
        d > 0,
    ensures
        x / d * d <= x < (x / d + 1) * d,
{
    assert(x / d * d <= x < (x / d + 1) * d) by (nonlinear_arith)
        requires
            d > 0,
    ;
}

/// Where a seek fails, it is tried from further and further back: first 2048 frames before the
/// one asked for, then 16384, then 131072, and never again once that is the beginning.
pub proof fn law_seeks_start_further_back(frame: u64, i: int)
    requires
        0 <= i < try_count(frame),
    ensures
        less(frame, backs()[i]) <= frame,
        i == 0 ==> less(frame, backs()[i]) == if frame > 2048 {
            frame - 2048
        } else {
            0
        },
        i == 1 ==> frame > 2048 && less(frame, backs()[i]) == if frame > 16384 {
            frame - 16384
        } else {
            0
        },
        i == 2 ==> frame > 16384 && less(frame, backs()[i]) == if frame > 131072 {
            frame - 131072
        } else {
            0
        },
        i < 3,
        frame > 131072 ==> try_count(frame) == 3,
        i + 1 < try_count(frame) <==> less(frame, backs()[i]) > 0 && i < 2,
{
    let s = backs();
    assert(s[0] == 2048 && s[1] == 16384 && s[2] == 131072);
}

/// The picture is set anew where another recording was loaded, where playing was started or
/// stopped, and where it is more than 150 ms from where it should have got by itself.
pub proof fn law_the_picture_follows_the_sound(then: Sent, now: Sent, elapsed: u64)
    ensures
        now.loads != then.loads ==> then.is_hard(now, elapsed),
        now.playing != then.playing ==> then.is_hard(now, elapsed),
        now.loads == then.loads && now.playing && then.playing ==> (then.is_hard(now, elapsed) <==> (now.ns - then.ns
            - elapsed > 150_000_000 || then.ns + elapsed - now.ns > 150_000_000)),
        now.loads == then.loads && !now.playing && !then.playing ==> (then.is_hard(now, elapsed) <==> (now.ns - then.ns
            > 150_000_000 || then.ns - now.ns > 150_000_000)),
{
}

/// Stepping to the next split goes over none: no split lies between the place and the one that
/// was found, and where none was found, none lies behind the place. Stepping back does the same.
pub proof fn law_stepping_goes_over_none(s: Seq<Split>, pos: int, r: Option<usize>, k: int)
    requires
        crate::edit::sorted(s),
        0 <= k < s.len(),
    ensures
        first_after(s, pos, r) && s[k].at > pos ==> r is Some && pos < s[r->0 as int].at <= s[k].at,
        last_before(s, pos, r) && s[k].at < pos ==> r is Some && s[k].at <= s[r->0 as int].at < pos,
{
    if first_after(s, pos, r) && s[k].at > pos {
        let i = r->0 as int;
        assert(k >= i);
        if i < k {
            assert(s[i].at < s[k].at);
        }
    }
    if last_before(s, pos, r) && s[k].at < pos {
        let i = r->0 as int;
        if k < i {
            assert(s[k].at < s[i].at);
        }
    }
}

/// The split that a click takes is within reach, and none is closer.
pub proof fn law_the_nearest_split_is_taken(s: Seq<Split>, pos: u64, reach: u64, r: Option<usize>, k: int)
    requires
        closest(s, pos, reach, r),
        0 <= k < s.len(),
    ensures
        -reach <= s[k].at - pos <= reach ==> r is Some,
        r matches Some(i) ==> i < s.len() && -reach <= s[i as int].at - pos <= reach,
        r matches Some(i) ==> {
            let d = s[k].at - pos;
            let e = s[i as int].at - pos;
            -d <= e <= d || d <= e <= -d
        },
{
}

/// What was played moves the playhead on by its frames. Playing stops once the end of a range was
/// reached, and the range is over then, or once all was played; else it goes on.
pub proof fn law_playing_goes_on_to_the_end(p: Playback, n: usize, want: usize, out_len: usize, channels: u16, empty: bool)
    requires
        channels > 0,
        n <= want <= out_len,
        p.consumed + n <= u64::MAX,
    ensures
        ({
            let after = p.after_playing(n, want, out_len, channels, empty);
            let reached_end = n == want && want < out_len;
            let ran_dry = n < out_len && p.eos && empty;
            &&& after.consumed == p.consumed + n as int / channels as int
            &&& reached_end ==> !after.playing && after.stop_at == u64::MAX
            &&& !reached_end ==> after.stop_at == p.stop_at
            &&& ran_dry ==> !after.playing
            &&& !reached_end && !ran_dry ==> after.playing == p.playing
            &&& after.base == p.base && after.loop_range == p.loop_range && after.using_alt == p.using_alt
        }),
{
    let (a, c) = (n as int, channels as int);
    assert(0 <= a / c <= a) by (nonlinear_arith)
        requires
            a >= 0,
            c > 0,
    ;
}

/// A time is as many frames as it fills at the rate, and no part of one.
pub proof fn law_times_are_whole_frames(ns: int, rate: int)
    requires
        ns >= 0,
        rate >= 0,
    ensures
        frames_in(ns, rate) * 1_000_000_000 <= ns * rate < (frames_in(ns, rate) + 1) * 1_000_000_000,
{
    let x = ns * rate;
    assert(frames_in(ns, rate) == x / 1_000_000_000);
}

/// Audio in memory stands where it was taken from: frame `pos` is the one that many frames behind
/// the first, channel by channel, and before the first there is silence.
pub proof fn law_memory_stands_in_its_place<T: Copy>(m: MemPcm<T>, pos: int, n: int, f: int, c: int)
    requires
        m.wf(),
        0 <= pos,
        0 <= f < n,
        0 <= c < m.channel_count(),
        pos >= m.first() ==> pos + n <= m.past(),
    ensures
        0 <= f * m.channel_count() + c < m.frames_at(pos, n).len(),
        m.frames_at(pos, n)[f * m.channel_count() + c] == if pos < m.first() {
            m.quiet()
        } else {
            m.samples()[(pos - m.first() + f) * m.channel_count() + c]
        },
{
    let ch = m.channel_count();
    let len = m.samples().len() as int;
    let q = len / ch;
    let a = pos - m.first();
    assert(0 <= f * ch + c < n * ch) by (nonlinear_arith)
        requires
            0 <= f < n,
            0 <= c < ch,
    ;
    if a >= 0 {
        assert(0 <= a * ch && a * ch + n * ch == (a + n) * ch && (a + n) * ch <= len && (a + f) * ch == a * ch + f * ch)
            by (nonlinear_arith)
            requires
                0 <= a,
                a + n <= q,
                q == len / ch,
                ch > 0,
                len >= 0,
                n >= 0,
        ;
    }
}

} // verus!

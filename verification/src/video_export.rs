//! Video clips with ffmpeg: positions on the video's own timeline, and the arguments that cut a
//! track out on its exact start and end, or join the kept ranges of a cleaned copy.
//!
//! Positions come in as sample frames and go to ffmpeg as seconds on the video's timeline, which
//! skips the AAC priming that decoding yields.
use vstd::prelude::*;
use crate::export::VideoProfile;
use crate::mp4::Delay;
use crate::tags::{hundredths, Tags};
use crate::text::{
    after_last, append_chars, append_str, chars_of, decimal, decimal_chars, is_digit, last_piece,
    lemma_decimal_reads_back, lemma_decimal_width, lemma_padded_reads_back, padded, padded_chars, push_text, string_of,
    strings, strip_prefix, trim, trimmed, value_of,
};

verus! {

/// Microseconds in a second.
pub const SECOND: u64 = 1_000_000;

/// Converts sample frames into time on a video's timeline.
#[derive(Clone, Copy, Debug, PartialEq, Eq)]
pub struct Timeline {
    pub rate: u32,
    /// AAC priming at the start of the decoded sound, which the video's timeline skips.
    pub delay: Option<Delay>,
}

/// `a / b` rounded to the nearest whole number, up where both are as near.
pub open spec fn nearest(a: int, b: int) -> int {
    (2 * a + b) / (2 * b)
}

/// A number, or the largest that can be told.
pub open spec fn at_most(n: int) -> int {
    if n > u64::MAX {
        u64::MAX as int
    } else {
        n
    }
}

impl Timeline {
    pub open spec fn wf(&self) -> bool {
        &&& self.rate > 0
        &&& self.delay matches Some(d) ==> d.per_second > 0
    }

    /// The priming as a fraction of a second.
    pub open spec fn delay_num(&self) -> int {
        match self.delay {
            Some(d) => d.time as int,
            None => 0,
        }
    }

    pub open spec fn delay_den(&self) -> int {
        match self.delay {
            Some(d) => d.per_second as int,
            None => 1,
        }
    }

    /// How far `frame` is on the video's timeline, in parts of a second over
    /// `rate * delay_den()`; nothing of it lies before the start.
    pub open spec fn parts(&self, frame: int) -> int {
        let x = frame * self.delay_den() - self.delay_num() * self.rate;
        if x < 0 {
            0
        } else {
            x
        }
    }

    pub open spec fn whole(&self) -> int {
        self.rate * self.delay_den()
    }

    fn parts_of(&self, frame: u64) -> (r: (u128, u128))
        requires
            self.wf(),
        ensures
            r.0 == self.parts(frame as int),
            r.1 == self.whole(),
            r.0 <= u64::MAX * u32::MAX,
            0 < r.1 <= u32::MAX * u32::MAX,
    {
        let (num, den): (u128, u128) = match self.delay {
            Some(d) => (d.time as u128, d.per_second as u128),
            None => (0, 1),
        };
        let f: u128 = frame as u128;
        let r: u128 = self.rate as u128;
        assert(0 <= f * den <= u64::MAX * u32::MAX) by (nonlinear_arith)
            requires
                0 <= f <= u64::MAX,
                0 <= den <= u32::MAX,
        ;
        assert(0 <= num * r <= u64::MAX * u32::MAX) by (nonlinear_arith)
            requires
                0 <= num <= u64::MAX,
                0 <= r <= u32::MAX,
        ;
        assert(0 < r * den <= u32::MAX * u32::MAX) by (nonlinear_arith)
            requires
                0 < r <= u32::MAX,
                0 < den <= u32::MAX,
        ;
        let a: u128 = f * den;
        let b: u128 = num * r;
        (
            if a < b {
                0
            } else {
                a - b
            },
            r * den,
        )
    }

    /// `frame` in microseconds on the video's timeline.
    pub open spec fn micros_at(&self, frame: int) -> int {
        nearest(self.parts(frame) * SECOND, self.whole())
    }

    /// The same, as far as it can be told.
    pub fn micros(&self, frame: u64) -> (r: u64)
        requires
            self.wf(),
        ensures
            r == at_most(self.micros_at(frame as int)),
    {
        let (a, b) = self.parts_of(frame);
        micros_of(a, b)
    }

    /// The time from `start` to `end` in microseconds, as far as it can be told.
    pub fn micros_between(&self, start: u64, end: u64) -> (r: u64)
        requires
            self.wf(),
            start <= end,
        ensures
            r == at_most(nearest((self.parts(end as int) - self.parts(start as int)) * SECOND, self.whole())),
    {
        let (a, w) = self.parts_of(start);
        let (b, _w) = self.parts_of(end);
        proof {
            let den = self.delay_den();
            assert(start * den <= end * den) by (nonlinear_arith)
                requires
                    start <= end,
                    den >= 0,
            ;
        }
        micros_of(b - a, w)
    }

    /// The sample frame at `micros` on the video's timeline.
    pub open spec fn frame_at(&self, micros: int) -> int {
        nearest((micros * self.delay_den() + self.delay_num() * SECOND) * self.rate, SECOND * self.delay_den())
    }

    /// The sample frame at `micros` on the video's timeline, as far as it can be told.
    pub fn frame(&self, micros: u64) -> (r: u64)
        requires
            self.wf(),
        ensures
            r == at_most(self.frame_at(micros as int)),
    {
        let (num, den): (u128, u128) = match self.delay {
            Some(d) => (d.time as u128, d.per_second as u128),
            None => (0, 1),
        };
        let m: u128 = micros as u128;
        let r: u128 = self.rate as u128;
        assert(0 <= m * den <= u64::MAX * u32::MAX) by (nonlinear_arith)
            requires
                0 <= m <= u64::MAX,
                0 <= den <= u32::MAX,
        ;
        let t: u128 = m * den + num * SECOND as u128;
        let b: u128 = SECOND as u128 * den;
        // Whole seconds apart from the rest, so that the frames of each can be counted.
        let q: u128 = t / b;
        let rest: u128 = t % b;
        proof {
            assert(q <= u64::MAX + u64::MAX) by (nonlinear_arith)
                requires
                    q == t / b,
                    t == m * den + num * SECOND,
                    b == SECOND * den,
                    0 <= m <= u64::MAX,
                    0 <= num <= u64::MAX,
                    1 <= den,
                    SECOND == 1_000_000,
            ;
            assert(0 <= q * r <= (u64::MAX + u64::MAX) * u32::MAX) by (nonlinear_arith)
                requires
                    0 <= q <= u64::MAX + u64::MAX,
                    0 <= r <= u32::MAX,
            ;
            assert(0 <= rest * r <= SECOND * u32::MAX * u32::MAX) by (nonlinear_arith)
                requires
                    0 <= rest <= SECOND * u32::MAX,
                    0 <= r <= u32::MAX,
            ;
            let (qi, ri, bi, ti, si) = (q as int, r as int, b as int, t as int, rest as int);
            assert(ti * ri == (qi * ri) * bi + si * ri) by (nonlinear_arith)
                requires
                    qi == ti / bi,
                    si == ti % bi,
                    bi > 0,
            ;
            lemma_nearest_of_sum(qi * ri, si * ri, bi);
        }
        let x: u128 = rest * r;
        let over: u128 = x % b;
        proof {
            lemma_nearest(x as int, b as int);
        }
        let n: u128 = q * r + if over >= b - over {
            x / b + 1
        } else {
            x / b
        };
        if n > u64::MAX as u128 {
            u64::MAX
        } else {
            n as u64
        }
    }
}

/// A position from the start of the video on survives the way to its timeline and back, at any
/// rate below a million frames a second.
pub proof fn law_positions_survive_the_timeline(t: Timeline, frame: int)
    requires
        t.wf(),
        t.rate < SECOND,
        frame * t.delay_den() >= t.delay_num() * t.rate,
    ensures
        t.frame_at(t.micros_at(frame)) == frame,
{
    let (rate, den, num) = (t.rate as int, t.delay_den(), t.delay_num());
    let us = SECOND as int;
    let w = t.whole();
    let p = t.parts(frame);
    let m = t.micros_at(frame);
    assert(w > 0) by (nonlinear_arith)
        requires
            w == rate * den,
            rate > 0,
            den > 0,
    ;
    // How far the rounded time is off.
    let e = m * w - p * us;
    assert(2 * e <= w && 2 * e > -w) by (nonlinear_arith)
        requires
            m == (2 * (p * us) + w) / (2 * w),
            e == m * w - p * us,
            w > 0,
    ;
    let n = (m * den + num * us) * rate;
    let d = us * den;
    assert(n == m * w + num * us * rate) by (nonlinear_arith)
        requires
            n == (m * den + num * us) * rate,
            w == rate * den,
    ;
    assert(frame * d == p * us + num * us * rate) by (nonlinear_arith)
        requires
            d == us * den,
            p == frame * den - num * rate,
    ;
    assert(w < d) by (nonlinear_arith)
        requires
            w == rate * den,
            d == us * den,
            rate < us,
            den > 0,
    ;
    assert((2 * n + d) / (2 * d) == frame) by (nonlinear_arith)
        requires
            n == frame * d + e,
            2 * e <= w,
            2 * e > -w,
            w < d,
            d > 0,
    ;
}

/// Whole parts stay out of the rounding.
proof fn lemma_nearest_of_sum(k: int, x: int, b: int)
    requires
        x >= 0,
        b > 0,
    ensures
        nearest(k * b + x, b) == k + nearest(x, b),
{
    let w = (2 * x + b) / (2 * b);
    let z = (2 * x + b) % (2 * b);
    assert(2 * x + b == w * (2 * b) + z && 0 <= z < 2 * b) by (nonlinear_arith)
        requires
            w == (2 * x + b) / (2 * b),
            z == (2 * x + b) % (2 * b),
            b > 0,
    ;
    assert((2 * (k * b + x) + b) / (2 * b) == k + w) by (nonlinear_arith)
        requires
            2 * x + b == w * (2 * b) + z,
            0 <= z < 2 * b,
            b > 0,
    ;
}

/// Rounding looks at whether the rest is at least a half.
proof fn lemma_nearest(a: int, b: int)
    requires
        a >= 0,
        b > 0,
    ensures
        nearest(a, b) == a / b + if 2 * (a % b) >= b {
            1int
        } else {
            0
        },
        0 <= a / b <= a,
        0 <= a % b < b,
{
    let q = a / b;
    let r = a % b;
    assert(a == q * b + r && 0 <= r < b && 0 <= q <= a) by (nonlinear_arith)
        requires
            q == a / b,
            r == a % b,
            b > 0,
            a >= 0,
    ;
    let up: int = if 2 * r >= b {
        1
    } else {
        0
    };
    assert((2 * a + b) / (2 * b) == q + up) by (nonlinear_arith)
        requires
            a == q * b + r,
            0 <= r < b,
            b > 0,
            2 * r >= b ==> up == 1,
            2 * r < b ==> up == 0,
    ;
}

fn micros_of(a: u128, b: u128) -> (r: u64)
    requires
        a <= u64::MAX * u32::MAX,
        0 < b <= u32::MAX * u32::MAX,
    ensures
        r == at_most(nearest(a * SECOND, b as int)),
{
    let x: u128 = a * SECOND as u128;
    proof {
        lemma_nearest(x as int, b as int);
    }
    let rest: u128 = x % b;
    let n: u128 = if rest >= b - rest {
        x / b + 1
    } else {
        x / b
    };
    if n > u64::MAX as u128 {
        u64::MAX
    } else {
        n as u64
    }
}

/// A number of microseconds as seconds with six decimals.
pub open spec fn secs_text(micros: int) -> Seq<char> {
    decimal((micros / SECOND as int) as nat) + "."@ + padded((micros % SECOND as int) as nat, 6)
}

fn append_secs(out: &mut Vec<char>, micros: u64)
    ensures
        final(out)@ == old(out)@ + secs_text(micros as int),
{
    let ghost before = out@;
    append_chars(out, &decimal_chars(micros / SECOND));
    append_str(out, ".");
    append_chars(out, &padded_chars(micros % SECOND, 6));
    assert(out@ =~= before + secs_text(micros as int));
}

/// `[p0][p1]..` for the first `n`, for a label `p`.
pub open spec fn labels(p: Seq<char>, n: int) -> Seq<char>
    decreases n,
{
    if n <= 0 {
        Seq::empty()
    } else {
        labels(p, n - 1) + "["@ + p + decimal((n - 1) as nat) + "]"@
    }
}

fn append_labels(out: &mut Vec<char>, p: &str, n: usize)
    ensures
        final(out)@ == old(out)@ + labels(p@, n as int),
{
    let ghost before = out@;
    let mut i: usize = 0;
    assert(out@ =~= before + labels(p@, 0));
    while i < n
        invariant
            i <= n,
            out@ == before + labels(p@, i as int),
        decreases n - i,
    {
        append_str(out, "[");
        append_str(out, p);
        append_chars(out, &decimal_chars(i as u64));
        append_str(out, "]");
        i += 1;
        assert(out@ =~= before + labels(p@, i as int));
    }
}

/// The part of the filter that trims one range of one stream.
pub open spec fn trim_text(
    from: Seq<char>,
    trim: Seq<char>,
    setpts: Seq<char>,
    to: Seq<char>,
    i: nat,
    range: (u64, u64),
) -> Seq<char> {
    "["@ + from + decimal(i) + "]"@ + trim + "=start="@ + secs_text(range.0 as int) + ":end="@ + secs_text(
        range.1 as int,
    ) + ","@ + setpts + "=PTS-STARTPTS["@ + to + decimal(i) + "];"@
}

fn append_trim(out: &mut Vec<char>, from: &str, trim: &str, setpts: &str, to: &str, i: usize, range: (u64, u64))
    ensures
        final(out)@ == old(out)@ + trim_text(from@, trim@, setpts@, to@, i as nat, range),
{
    let ghost before = out@;
    append_str(out, "[");
    append_str(out, from);
    append_chars(out, &decimal_chars(i as u64));
    append_str(out, "]");
    append_str(out, trim);
    append_str(out, "=start=");
    append_secs(out, range.0);
    append_str(out, ":end=");
    append_secs(out, range.1);
    append_str(out, ",");
    append_str(out, setpts);
    append_str(out, "=PTS-STARTPTS[");
    append_str(out, to);
    append_chars(out, &decimal_chars(i as u64));
    append_str(out, "];");
    assert(out@ =~= before + trim_text(from@, trim@, setpts@, to@, i as nat, range));
}

/// The trimmed picture and sound of the first `n` ranges.
pub open spec fn trims(ranges: Seq<(u64, u64)>, n: int) -> Seq<char>
    decreases n,
{
    if n <= 0 {
        Seq::empty()
    } else {
        trims(ranges, n - 1) + trim_text("sv"@, "trim"@, "setpts"@, "v"@, (n - 1) as nat, ranges[n - 1]) + trim_text(
            "sa"@,
            "atrim"@,
            "asetpts"@,
            "a"@,
            (n - 1) as nat,
            ranges[n - 1],
        )
    }
}

/// `[v0][a0][v1][a1]..` for the first `n`.
pub open spec fn joints(n: int) -> Seq<char>
    decreases n,
{
    if n <= 0 {
        Seq::empty()
    } else {
        joints(n - 1) + "[v"@ + decimal((n - 1) as nat) + "][a"@ + decimal((n - 1) as nat) + "]"@
    }
}

/// The filter that trims and joins the ranges.
pub open spec fn concat_text(ranges: Seq<(u64, u64)>) -> Seq<char> {
    let n = ranges.len() as int;
    "[0:v:0]split="@ + decimal(n as nat) + labels("sv"@, n) + ";[0:a:0]asplit="@ + decimal(n as nat) + labels("sa"@, n)
        + ";"@ + trims(ranges, n) + joints(n) + "concat=n="@ + decimal(n as nat) + ":v=1:a=1[v][a]"@
}

/// Each `[start, end)` of picture and sound, in microseconds, trimmed and joined.
pub fn concat_filter(ranges: &[(u64, u64)]) -> (r: String)
    ensures
        r@ == concat_text(ranges@),
{
    let n: usize = ranges.len();
    let mut out = chars_of("[0:v:0]split=");
    append_chars(&mut out, &decimal_chars(n as u64));
    append_labels(&mut out, "sv", n);
    append_str(&mut out, ";[0:a:0]asplit=");
    append_chars(&mut out, &decimal_chars(n as u64));
    append_labels(&mut out, "sa", n);
    append_str(&mut out, ";");
    let ghost head = out@;
    let mut i: usize = 0;
    assert(out@ =~= head + trims(ranges@, 0));
    while i < n
        invariant
            i <= n,
            n == ranges@.len(),
            out@ == head + trims(ranges@, i as int),
        decreases n - i,
    {
        append_trim(&mut out, "sv", "trim", "setpts", "v", i, ranges[i]);
        append_trim(&mut out, "sa", "atrim", "asetpts", "a", i, ranges[i]);
        i += 1;
        assert(out@ =~= head + trims(ranges@, i as int));
    }
    let ghost cut = out@;
    i = 0;
    assert(out@ =~= cut + joints(0));
    while i < n
        invariant
            i <= n,
            out@ == cut + joints(i as int),
        decreases n - i,
    {
        append_str(&mut out, "[v");
        append_chars(&mut out, &decimal_chars(i as u64));
        append_str(&mut out, "][a");
        append_chars(&mut out, &decimal_chars(i as u64));
        append_str(&mut out, "]");
        i += 1;
        assert(out@ =~= cut + joints(i as int));
    }
    append_str(&mut out, "concat=n=");
    append_chars(&mut out, &decimal_chars(n as u64));
    append_str(&mut out, ":v=1:a=1[v][a]");
    assert(out@ =~= concat_text(ranges@));
    string_of(&out)
}

/// `[sv3]trim=start=1.500000:end=4.250000,setpts=PTS-STARTPTS[v3];`: the picture of range `i`.
pub open spec fn picture(i: int, range: (u64, u64)) -> Seq<char> {
    "[sv"@ + decimal(i as nat) + "]trim=start="@ + secs_text(range.0 as int) + ":end="@ + secs_text(range.1 as int)
        + ",setpts=PTS-STARTPTS[v"@ + decimal(i as nat) + "];"@
}

/// `[sa3]atrim=start=1.500000:end=4.250000,asetpts=PTS-STARTPTS[a3];`: the sound of range `i`.
pub open spec fn sound(i: int, range: (u64, u64)) -> Seq<char> {
    "[sa"@ + decimal(i as nat) + "]atrim=start="@ + secs_text(range.0 as int) + ":end="@ + secs_text(range.1 as int)
        + ",asetpts=PTS-STARTPTS[a"@ + decimal(i as nat) + "];"@
}

/// What is joined is each range's own picture and sound: for every range the filter trims both
/// by its start and end, in streams that carry its number.
pub proof fn law_each_range_keeps_its_own_sound(ranges: Seq<(u64, u64)>, i: int) -> (r: (Seq<char>, Seq<char>))
    requires
        0 <= i < ranges.len(),
    ensures
        concat_text(ranges) == r.0 + picture(i, ranges[i]) + sound(i, ranges[i]) + r.1,
{
    let n = ranges.len() as int;
    let (x, y) = lemma_trims_hold(ranges, n, i);
    let head = "[0:v:0]split="@ + decimal(n as nat) + labels("sv"@, n) + ";[0:a:0]asplit="@ + decimal(n as nat) + labels(
        "sa"@,
        n,
    ) + ";"@;
    let tail = joints(n) + "concat=n="@ + decimal(n as nat) + ":v=1:a=1[v][a]"@;
    let r = (head + x, y + tail);
    assert(concat_text(ranges) =~= head + trims(ranges, n) + tail);
    assert(concat_text(ranges) =~= r.0 + picture(i, ranges[i]) + sound(i, ranges[i]) + r.1);
    r
}

proof fn lemma_trims_hold(ranges: Seq<(u64, u64)>, n: int, i: int) -> (r: (Seq<char>, Seq<char>))
    requires
        0 <= i < n <= ranges.len(),
    ensures
        trims(ranges, n) == r.0 + picture(i, ranges[i]) + sound(i, ranges[i]) + r.1,
    decreases n,
{
    let v = trim_text("sv"@, "trim"@, "setpts"@, "v"@, (n - 1) as nat, ranges[n - 1]);
    let a = trim_text("sa"@, "atrim"@, "asetpts"@, "a"@, (n - 1) as nat, ranges[n - 1]);
    lemma_trim_texts((n - 1) as nat, ranges[n - 1]);
    if i == n - 1 {
        let r = (trims(ranges, n - 1), Seq::<char>::empty());
        assert(trims(ranges, n) =~= r.0 + picture(i, ranges[i]) + sound(i, ranges[i]) + r.1);
        r
    } else {
        let (x, y) = lemma_trims_hold(ranges, n - 1, i);
        let r = (x, y + v + a);
        assert(trims(ranges, n) =~= r.0 + picture(i, ranges[i]) + sound(i, ranges[i]) + r.1);
        r
    }
}

proof fn lemma_trim_texts(i: nat, range: (u64, u64))
    ensures
        trim_text("sv"@, "trim"@, "setpts"@, "v"@, i, range) == picture(i as int, range),
        trim_text("sa"@, "atrim"@, "asetpts"@, "a"@, i, range) == sound(i as int, range),
{
    reveal_strlit("[");
    reveal_strlit("]");
    reveal_strlit("=start=");
    reveal_strlit(",");
    reveal_strlit("=PTS-STARTPTS[");
    let (s, e) = (secs_text(range.0 as int), secs_text(range.1 as int));
    assert("["@ + "sv"@ == "[sv"@) by {
        reveal_strlit("sv");
        reveal_strlit("[sv");
    }
    assert("["@ + "sa"@ == "[sa"@) by {
        reveal_strlit("sa");
        reveal_strlit("[sa");
    }
    assert("]"@ + "trim"@ + "=start="@ == "]trim=start="@) by {
        reveal_strlit("trim");
        reveal_strlit("]trim=start=");
    }
    assert("]"@ + "atrim"@ + "=start="@ == "]atrim=start="@) by {
        reveal_strlit("atrim");
        reveal_strlit("]atrim=start=");
    }
    assert(","@ + "setpts"@ + "=PTS-STARTPTS["@ + "v"@ == ",setpts=PTS-STARTPTS[v"@) by {
        reveal_strlit("setpts");
        reveal_strlit("v");
        reveal_strlit(",setpts=PTS-STARTPTS[v");
    }
    assert(","@ + "asetpts"@ + "=PTS-STARTPTS["@ + "a"@ == ",asetpts=PTS-STARTPTS[a"@) by {
        reveal_strlit("asetpts");
        reveal_strlit("a");
        reveal_strlit(",asetpts=PTS-STARTPTS[a");
    }
    lemma_regroup("sv"@, "trim"@, "setpts"@, "v"@, decimal(i), s, e);
    lemma_regroup("sa"@, "atrim"@, "asetpts"@, "a"@, decimal(i), s, e);
}

proof fn lemma_regroup(
    from: Seq<char>,
    trim: Seq<char>,
    setpts: Seq<char>,
    to: Seq<char>,
    d: Seq<char>,
    s: Seq<char>,
    e: Seq<char>,
)
    ensures
        "["@ + from + d + "]"@ + trim + "=start="@ + s + ":end="@ + e + ","@ + setpts + "=PTS-STARTPTS["@ + to + d + "];"@
            == ("["@ + from) + d + ("]"@ + trim + "=start="@) + s + ":end="@ + e + (","@ + setpts + "=PTS-STARTPTS["@ + to)
            + d + "];"@,
{
    let head = "["@ + from + d;
    assert(head + "]"@ + trim + "=start="@ =~= head + ("]"@ + trim + "=start="@));
    let mid = head + "]"@ + trim + "=start="@ + s + ":end="@ + e;
    assert(mid + ","@ + setpts + "=PTS-STARTPTS["@ + to =~= mid + (","@ + setpts + "=PTS-STARTPTS["@ + to));
}

/// The filter names one stream of picture and one of sound for each range, trims them, and joins
/// them in the order of the ranges, picture and sound of a range side by side.
pub proof fn law_ranges_are_joined_in_order(ranges: Seq<(u64, u64)>)
    ensures
        ({
            let n = ranges.len();
            concat_text(ranges) == "[0:v:0]split="@ + decimal(n) + Seq::new(
                n,
                |i: int| "[sv"@ + decimal(i as nat) + "]"@,
            ).flatten() + ";[0:a:0]asplit="@ + decimal(n) + Seq::new(
                n,
                |i: int| "[sa"@ + decimal(i as nat) + "]"@,
            ).flatten() + ";"@ + Seq::new(n, |i: int| picture(i, ranges[i]) + sound(i, ranges[i])).flatten() + Seq::new(
                n,
                |i: int| "[v"@ + decimal(i as nat) + "][a"@ + decimal(i as nat) + "]"@,
            ).flatten() + "concat=n="@ + decimal(n) + ":v=1:a=1[v][a]"@
        }),
{
    let n = ranges.len();
    assert("["@ + "sv"@ == "[sv"@) by {
        reveal_strlit("[");
        reveal_strlit("sv");
        reveal_strlit("[sv");
    }
    assert("["@ + "sa"@ == "[sa"@) by {
        reveal_strlit("[");
        reveal_strlit("sa");
        reveal_strlit("[sa");
    }
    lemma_labels_listed("sv"@, "[sv"@, n);
    lemma_labels_listed("sa"@, "[sa"@, n);
    lemma_trims_listed(ranges, n);
    lemma_joints_listed(n);
}

proof fn lemma_labels_listed(p: Seq<char>, q: Seq<char>, n: nat)
    requires
        q == "["@ + p,
    ensures
        labels(p, n as int) == Seq::new(n, |i: int| q + decimal(i as nat) + "]"@).flatten(),
    decreases n,
{
    let all = Seq::new(n, |i: int| q + decimal(i as nat) + "]"@);
    if n > 0 {
        let m = (n - 1) as nat;
        lemma_labels_listed(p, q, m);
        let less = Seq::new(m, |i: int| q + decimal(i as nat) + "]"@);
        let last = q + decimal(m) + "]"@;
        assert(all =~= less.push(last));
        less.lemma_flatten_push(last);
        assert(labels(p, m as int) + "["@ + p + decimal(m) + "]"@ =~= labels(p, m as int) + last);
    }
}

proof fn lemma_trims_listed(ranges: Seq<(u64, u64)>, n: nat)
    requires
        n <= ranges.len(),
    ensures
        trims(ranges, n as int) == Seq::new(n, |i: int| picture(i, ranges[i]) + sound(i, ranges[i])).flatten(),
    decreases n,
{
    let all = Seq::new(n, |i: int| picture(i, ranges[i]) + sound(i, ranges[i]));
    if n > 0 {
        let m = (n - 1) as nat;
        lemma_trims_listed(ranges, m);
        let less = Seq::new(m, |i: int| picture(i, ranges[i]) + sound(i, ranges[i]));
        let (v, a) = (picture(m as int, ranges[m as int]), sound(m as int, ranges[m as int]));
        assert(all =~= less.push(v + a));
        less.lemma_flatten_push(v + a);
        lemma_trim_texts(m, ranges[m as int]);
        assert(trims(ranges, m as int) + v + a =~= trims(ranges, m as int) + (v + a));
    }
}

proof fn lemma_joints_listed(n: nat)
    ensures
        joints(n as int) == Seq::new(n, |i: int| "[v"@ + decimal(i as nat) + "][a"@ + decimal(i as nat) + "]"@).flatten(),
    decreases n,
{
    let all = Seq::new(n, |i: int| "[v"@ + decimal(i as nat) + "][a"@ + decimal(i as nat) + "]"@);
    if n > 0 {
        let m = (n - 1) as nat;
        lemma_joints_listed(m);
        let less = Seq::new(m, |i: int| "[v"@ + decimal(i as nat) + "][a"@ + decimal(i as nat) + "]"@);
        let last = "[v"@ + decimal(m) + "][a"@ + decimal(m) + "]"@;
        assert(all =~= less.push(last));
        less.lemma_flatten_push(last);
        assert(joints(m as int) + "[v"@ + decimal(m) + "][a"@ + decimal(m) + "]"@ =~= joints(m as int) + last);
    }
}

/// A time is written as whole seconds, a point and six digits, and reads back as itself.
pub proof fn law_seconds_read_back(micros: int) -> (r: (Seq<char>, Seq<char>))
    requires
        micros >= 0,
    ensures
        secs_text(micros) == r.0 + "."@ + r.1,
        r.1.len() == 6,
        r.0.len() > 0,
        forall|i: int| 0 <= i < r.0.len() ==> '0' <= #[trigger] r.0[i] <= '9',
        forall|i: int| 0 <= i < r.1.len() ==> '0' <= #[trigger] r.1[i] <= '9',
        value_of(r.0) * 1_000_000 + value_of(r.1) == micros,
{
    let (q, x) = ((micros / 1_000_000) as nat, (micros % 1_000_000) as nat);
    lemma_decimal_reads_back(q);
    lemma_padded_reads_back(x, 6);
    lemma_decimal_width(x);
    assert forall|i: int| 0 <= i < decimal(q).len() implies '0' <= #[trigger] decimal(q)[i] <= '9' by {
        assert(is_digit(decimal(q)[i]));
    }
    (decimal(q), padded(x, 6))
}

/// A position goes to the video's timeline as the nearest microsecond: its frames at the rate,
/// less what the timeline skips, and never before the start. Back it goes by the same count.
pub proof fn law_times_are_the_nearest(t: Timeline, frame: int, micros: int)
    requires
        t.wf(),
        frame >= 0,
        micros >= 0,
    ensures
        ({
            let (skip, per) = match t.delay {
                Some(d) => (d.time as int, d.per_second as int),
                None => (0, 1),
            };
            let exact = (frame * per - skip * t.rate) * 1_000_000;
            let off = t.micros_at(frame) * (t.rate * per) - exact;
            let back = t.frame_at(micros) * (1_000_000 * per) - (micros * per + skip * 1_000_000) * t.rate;
            &&& exact >= 0 ==> -(t.rate * per) < 2 * off <= t.rate * per
            &&& exact < 0 ==> t.micros_at(frame) == 0
            &&& -(1_000_000 * per) < 2 * back <= 1_000_000 * per
        }),
{
    let (skip, per) = match t.delay {
        Some(d) => (d.time as int, d.per_second as int),
        None => (0, 1),
    };
    let w = t.rate * per;
    assert(w > 0) by (nonlinear_arith)
        requires
            w == t.rate * per,
            t.rate > 0,
            per > 0,
    ;
    lemma_nearest_is_near(t.parts(frame) * 1_000_000, w);
    lemma_nearest_is_near((micros * per + skip * 1_000_000) * t.rate, 1_000_000 * per);
}

proof fn lemma_nearest_is_near(a: int, b: int)
    requires
        b > 0,
    ensures
        -b < 2 * (nearest(a, b) * b - a) <= b,
        a == 0 ==> nearest(a, b) == 0,
{
    let q = (2 * a + b) / (2 * b);
    assert(-b < 2 * (q * b - a) <= b) by (nonlinear_arith)
        requires
            q == (2 * a + b) / (2 * b),
            b > 0,
    ;
    if a == 0 {
        assert(b / (2 * b) == 0) by (nonlinear_arith)
            requires
                b > 0,
        ;
    }
}

// ---- Arguments ----

/// Encoding settings shared by clips and cleaned copies.
pub open spec fn encoding(profile: VideoProfile) -> Seq<Seq<char>> {
    let VideoProfile::Mp4 { crf } = profile;
    seq![
        "-c:v"@,
        "libx264"@,
        "-preset"@,
        "medium"@,
        "-crf"@,
        decimal(crf as nat),
        "-pix_fmt"@,
        "yuv420p"@,
        "-c:a"@,
        "aac"@,
        "-b:a"@,
        "192k"@,
        "-movflags"@,
        "+faststart"@,
    ]
}

fn push_encoding(args: &mut Vec<String>, profile: VideoProfile)
    ensures
        strings(final(args)@) == strings(old(args)@) + encoding(profile),
{
    let ghost before = strings(args@);
    let VideoProfile::Mp4 { crf } = profile;
    push_text(args, "-c:v");
    push_text(args, "libx264");
    push_text(args, "-preset");
    push_text(args, "medium");
    push_text(args, "-crf");
    push_text(args, string_of(&decimal_chars(crf as u64)).as_str());
    push_text(args, "-pix_fmt");
    push_text(args, "yuv420p");
    push_text(args, "-c:a");
    push_text(args, "aac");
    push_text(args, "-b:a");
    push_text(args, "192k");
    push_text(args, "-movflags");
    push_text(args, "+faststart");
    assert(strings(args@) =~= before + encoding(profile));
}

/// The change of level for a gain in millionths of a decibel: nothing for one too small to
/// matter.
pub open spec fn volume(gain: int) -> Seq<Seq<char>> {
    let size = if gain < 0 {
        -gain
    } else {
        gain
    };
    let q = hundredths(size);
    if size > 5000 {
        seq![
            "-af"@,
            "volume="@ + (if gain < 0 {
                "-"@
            } else {
                ""@
            }) + decimal((q / 100) as nat) + "."@ + padded((q % 100) as nat, 2) + "dB"@,
        ]
    } else {
        Seq::empty()
    }
}

fn push_volume(args: &mut Vec<String>, gain: i64)
    ensures
        strings(final(args)@) == strings(old(args)@) + volume(gain as int),
{
    let ghost before = strings(args@);
    let size: u64 = if gain < 0 {
        (0 - (gain as i128)) as u64
    } else {
        gain as u64
    };
    if size <= 5000 {
        assert(strings(args@) =~= before + volume(gain as int));
        return;
    }
    let (q0, rest): (u64, u64) = (size / 10_000, size % 10_000);
    let q: u64 = if rest > 5000 || (rest == 5000 && q0 % 2 == 1) {
        q0 + 1
    } else {
        q0
    };
    assert(q == hundredths(size as int));
    let mut out = chars_of("volume=");
    if gain < 0 {
        append_str(&mut out, "-");
    } else {
        append_str(&mut out, "");
    }
    append_chars(&mut out, &decimal_chars(q / 100));
    append_str(&mut out, ".");
    append_chars(&mut out, &padded_chars(q % 100, 2));
    append_str(&mut out, "dB");
    push_text(args, "-af");
    push_text(args, string_of(&out).as_str());
    assert(strings(args@) =~= before + volume(gain as int));
}

/// The tags of a clip.
pub open spec fn metadata(tags: Tags) -> Seq<Seq<char>> {
    seq![
        "-metadata"@,
        "title="@ + tags.title@,
        "-metadata"@,
        "album="@ + tags.album@,
        "-metadata"@,
        "track="@ + decimal(tags.track as nat) + "/"@ + decimal(tags.total as nat),
    ]
}

fn push_metadata(args: &mut Vec<String>, tags: &Tags)
    ensures
        strings(final(args)@) == strings(old(args)@) + metadata(*tags),
{
    let ghost before = strings(args@);
    let mut title = chars_of("title=");
    append_str(&mut title, tags.title.as_str());
    let mut album = chars_of("album=");
    append_str(&mut album, tags.album.as_str());
    let mut track = chars_of("track=");
    append_chars(&mut track, &decimal_chars(tags.track as u64));
    append_str(&mut track, "/");
    append_chars(&mut track, &decimal_chars(tags.total as u64));
    push_text(args, "-metadata");
    push_text(args, string_of(&title).as_str());
    push_text(args, "-metadata");
    push_text(args, string_of(&album).as_str());
    push_text(args, "-metadata");
    push_text(args, string_of(&track).as_str());
    assert(strings(args@) =~= before + metadata(*tags));
}

/// The arguments that cut one clip, up to where the output follows.
pub open spec fn clip_list(
    source: Seq<char>,
    start: int,
    length: int,
    profile: VideoProfile,
    gain: int,
    tags: Tags,
) -> Seq<Seq<char>> {
    seq![
        "-hide_banner"@,
        "-nostdin"@,
        "-y"@,
        "-loglevel"@,
        "error"@,
        "-ss"@,
        secs_text(start),
        "-i"@,
        source,
        "-t"@,
        secs_text(length),
        "-map"@,
        "0:v:0"@,
        "-map"@,
        "0:a:0"@,
        "-map_metadata"@,
        "-1"@,
        "-sn"@,
        "-dn"@,
    ] + encoding(profile) + volume(gain) + metadata(tags)
}

/// The arguments that cut `length` microseconds from `start` out of `source` into a clip of its
/// own. Seeking before the input while re-encoding is exact: ffmpeg decodes from the keyframe
/// before and drops what comes ahead of the start.
pub fn clip_args(source: &str, start: u64, length: u64, profile: VideoProfile, gain: i64, tags: &Tags) -> (r: Vec<
    String,
>)
    ensures
        strings(r@) == clip_list(source@, start as int, length as int, profile, gain as int, *tags),
{
    let mut args: Vec<String> = Vec::new();
    assert(strings(args@) =~= Seq::<Seq<char>>::empty());
    let mut at: Vec<char> = Vec::new();
    append_secs(&mut at, start);
    assert(at@ =~= secs_text(start as int));
    let mut len: Vec<char> = Vec::new();
    append_secs(&mut len, length);
    assert(len@ =~= secs_text(length as int));
    push_text(&mut args, "-hide_banner");
    push_text(&mut args, "-nostdin");
    push_text(&mut args, "-y");
    push_text(&mut args, "-loglevel");
    push_text(&mut args, "error");
    push_text(&mut args, "-ss");
    push_text(&mut args, string_of(&at).as_str());
    push_text(&mut args, "-i");
    push_text(&mut args, source);
    push_text(&mut args, "-t");
    push_text(&mut args, string_of(&len).as_str());
    push_text(&mut args, "-map");
    push_text(&mut args, "0:v:0");
    push_text(&mut args, "-map");
    push_text(&mut args, "0:a:0");
    push_text(&mut args, "-map_metadata");
    push_text(&mut args, "-1");
    push_text(&mut args, "-sn");
    push_text(&mut args, "-dn");
    push_encoding(&mut args, profile);
    push_volume(&mut args, gain);
    push_metadata(&mut args, tags);
    assert(strings(args@) =~= clip_list(source@, start as int, length as int, profile, gain as int, *tags));
    args
}

/// The arguments that write the ranges back to back, up to where the output follows.
pub open spec fn join_list(source: Seq<char>, ranges: Seq<(u64, u64)>, profile: VideoProfile) -> Seq<Seq<char>> {
    seq![
        "-hide_banner"@,
        "-nostdin"@,
        "-y"@,
        "-loglevel"@,
        "error"@,
        "-i"@,
        source,
        "-filter_complex"@,
        concat_text(ranges),
        "-map"@,
        "[v]"@,
        "-map"@,
        "[a]"@,
        "-map_metadata"@,
        "-1"@,
    ] + encoding(profile)
}

/// The arguments that write the `ranges` (microseconds, sorted) of `source` back to back into a
/// new video.
pub fn join_args(source: &str, ranges: &[(u64, u64)], profile: VideoProfile) -> (r: Vec<String>)
    ensures
        strings(r@) == join_list(source@, ranges@, profile),
{
    let mut args: Vec<String> = Vec::new();
    assert(strings(args@) =~= Seq::<Seq<char>>::empty());
    push_text(&mut args, "-hide_banner");
    push_text(&mut args, "-nostdin");
    push_text(&mut args, "-y");
    push_text(&mut args, "-loglevel");
    push_text(&mut args, "error");
    push_text(&mut args, "-i");
    push_text(&mut args, source);
    push_text(&mut args, "-filter_complex");
    push_text(&mut args, concat_filter(ranges).as_str());
    push_text(&mut args, "-map");
    push_text(&mut args, "[v]");
    push_text(&mut args, "-map");
    push_text(&mut args, "[a]");
    push_text(&mut args, "-map_metadata");
    push_text(&mut args, "-1");
    push_encoding(&mut args, profile);
    assert(strings(args@) =~= join_list(source@, ranges@, profile));
    args
}

// ---- Output ----

/// The time a progress line reports, in microseconds, as it stands there.
pub fn progress_time(line: &str) -> (r: Option<String>)
    ensures
        match r {
            Some(t) => "out_time_us="@.is_prefix_of(line@) && t@ == trimmed(line@.skip("out_time_us="@.len() as int)),
            None => !"out_time_us="@.is_prefix_of(line@),
        },
{
    let chars = chars_of(line);
    match strip_prefix(&chars, "out_time_us=") {
        Some(rest) => Some(string_of(trim(rest))),
        None => None,
    }
}

/// The last line of what was printed as errors; `None` where nothing was.
pub fn last_error(errors: &str) -> (r: Option<String>)
    ensures
        match r {
            Some(e) => trimmed(errors@).len() > 0 && e@ == after_last(trimmed(errors@), '\n'),
            None => trimmed(errors@).len() == 0,
        },
{
    let chars = chars_of(errors);
    let t = trim(&chars);
    if t.len() == 0 {
        None
    } else {
        Some(string_of(last_piece(t, '\n')))
    }
}

} // verus!

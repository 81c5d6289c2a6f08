//! Split suggestions from the loudness track: one level per fixed window of sample frames, in
//! millionths of a decibel. Durations are given in nanoseconds.
use vstd::prelude::*;
use crate::edit::{DetectParams, Silence, Split, SplitState};
use crate::silences::{
    cuts_the_silences, law_suggestions_split_the_silences, law_tags_cut_the_silences, splits_the_silences,
};

verus! {

/// A quarter of a second of silence is kept at each edge of a cut, so quiet attacks and decays
/// aren't clipped: one frame in four of a second's worth.
pub const CUT_MARGIN_DIV: u32 = 4;

/// A run of quiet windows, as window indices `[start, end)`.
#[derive(Clone, Copy, Debug, PartialEq, Eq, Structural)]
pub struct Run {
    pub start: usize,
    pub end: usize,
}

/// Nanoseconds in a second.
pub const SECOND: u64 = 1_000_000_000;

/// `a / b` rounded up.
pub open spec fn ceil_div(a: int, b: int) -> int {
    (a + b - 1) / b
}

/// How many windows the given time takes up, rounded up. Empty windows never fill any time.
pub open spec fn windows_in(ns: u64, rate: u32, window: u64) -> int {
    if ns * rate == 0 {
        0
    } else if window == 0 {
        usize::MAX as int
    } else {
        let n = ceil_div(ns * rate, SECOND * window);
        if n < usize::MAX {
            n
        } else {
            usize::MAX as int
        }
    }
}

fn window_count(ns: u64, rate: u32, window: u64) -> (r: usize)
    ensures
        r == windows_in(ns, rate, window),
{
    assert(0 <= ns * rate <= u64::MAX * u32::MAX) by (nonlinear_arith)
        requires
            0 <= ns <= u64::MAX,
            0 <= rate <= u32::MAX,
    ;
    let a: u128 = (ns as u128) * (rate as u128);
    if a == 0 {
        return 0;
    }
    if window == 0 {
        return usize::MAX;
    }
    assert(SECOND * window >= 1) by (nonlinear_arith)
        requires
            window >= 1,
            SECOND == 1_000_000_000,
    ;
    let b: u128 = (SECOND as u128) * (window as u128);
    let n: u128 = (a + b - 1) / b;
    assert(n == ceil_div(ns * rate, SECOND * window));
    if n < usize::MAX as u128 {
        n as usize
    } else {
        usize::MAX
    }
}

/// The fewest windows that count as silence: at least one.
pub open spec fn min_windows(p: DetectParams, rate: u32, window: u64) -> int {
    let n = windows_in(p.min_silence_ns, rate, window);
    if n < 1 {
        1
    } else {
        n
    }
}

/// Window `i` is quiet.
pub open spec fn quiet(db: Seq<i32>, p: DetectParams, i: int) -> bool {
    db[i] < p.threshold_udb
}

/// `[a, b)` is a run of quiet windows that cannot be made longer.
pub open spec fn whole_run(db: Seq<i32>, p: DetectParams, a: int, b: int) -> bool {
    &&& 0 <= a < b <= db.len()
    &&& forall|i: int| a <= i < b ==> #[trigger] quiet(db, p, i)
    &&& a == 0 || !quiet(db, p, a - 1)
    &&& b == db.len() || !quiet(db, p, b)
}

/// `runs` are all the whole runs of at least `m` quiet windows, in order.
pub open spec fn all_runs(db: Seq<i32>, p: DetectParams, m: int, runs: Seq<Run>) -> bool {
    &&& forall|k: int| #![trigger runs[k]]
        0 <= k < runs.len() ==> whole_run(db, p, runs[k].start as int, runs[k].end as int) && runs[k].end - runs[k].start
            >= m
    &&& forall|i: int, j: int| 0 <= i < j < runs.len() ==> (#[trigger] runs[i]).end < (#[trigger] runs[j]).start
    &&& forall|a: int, b: int| #[trigger]
        whole_run(db, p, a, b) && b - a >= m ==> exists|k: int|
            0 <= k < runs.len() && (#[trigger] runs[k]).start == a && runs[k].end == b
}

/// All silences that are long enough, in order.
pub fn silences(db: &[i32], window: u64, rate: u32, p: &DetectParams) -> (r: Vec<Run>)
    ensures
        all_runs(db@, *p, min_windows(*p, rate, window), r@),
{
    let count = window_count(p.min_silence_ns, rate, window);
    let m: usize = if count < 1 {
        1
    } else {
        count
    };
    let n: usize = db.len();
    let mut out: Vec<Run> = Vec::new();
    let mut open: Option<usize> = None;
    let mut i: usize = 0;
    loop
        invariant_except_break
            n == db@.len(),
            m == min_windows(*p, rate, window),
            i <= n,
            match open {
                Some(s) => {
                    &&& s < i
                    &&& forall|k: int| s <= k < i ==> #[trigger] quiet(db@, *p, k)
                    &&& s == 0 || !quiet(db@, *p, s - 1)
                    &&& forall|k: int| 0 <= k < out@.len() ==> (#[trigger] out@[k]).end < s
                },
                None => {
                    &&& i == 0 || !quiet(db@, *p, i - 1)
                    &&& forall|k: int| 0 <= k < out@.len() ==> (#[trigger] out@[k]).end < i
                },
            },
            forall|k: int| #![trigger out@[k]]
                0 <= k < out@.len() ==> whole_run(db@, *p, out@[k].start as int, out@[k].end as int) && out@[k].end
                    - out@[k].start >= m,
            forall|a: int, b: int| 0 <= a < b < out@.len() ==> (#[trigger] out@[a]).end < (#[trigger] out@[b]).start,
            forall|a: int, b: int| #[trigger]
                whole_run(db@, *p, a, b) && b - a >= m && b < i ==> exists|k: int|
                    0 <= k < out@.len() && (#[trigger] out@[k]).start == a && out@[k].end == b,
        ensures
            all_runs(db@, *p, m as int, out@),
        decreases n - i,
    {
        let is_quiet = i < n && db[i] < p.threshold_udb;
        let ghost before = out@;
        assert(i < n ==> is_quiet == quiet(db@, *p, i as int));
        let was = open;
        if is_quiet {
            if open.is_none() {
                open = Some(i);
            }
        } else {
            if let Some(s) = open {
                if i - s >= m {
                    assert(whole_run(db@, *p, s as int, i as int));
                    out.push(Run { start: s, end: i });
                }
                open = None;
            }
        }
        assert forall|a: int, b: int| #[trigger]
            whole_run(db@, *p, a, b) && b - a >= m && b < i + 1 implies exists|k: int|
            0 <= k < out@.len() && (#[trigger] out@[k]).start == a && out@[k].end == b by {
            if b == i {
                assert(quiet(db@, *p, i - 1));
                if let Some(s) = was {
                    if a < s {
                        assert(quiet(db@, *p, s - 1));
                    } else if s < a {
                        assert(quiet(db@, *p, a - 1));
                    }
                    assert(out@[out@.len() - 1].start == a && out@[out@.len() - 1].end == b);
                }
            } else {
                let k = choose|k: int| 0 <= k < before.len() && (#[trigger] before[k]).start == a && before[k].end == b;
                assert(out@[k] == before[k]);
            }
        }
        if i == n {
            break;
        }
        i += 1;
    }
    out
}

/// The frames to cut for a run of quiet windows: a margin less on each side that borders sound.
/// Lead-in and tail silence reach the recording's start and end.
pub open spec fn tagged(run: Run, n: int, window: u64, rate: u32) -> Option<Silence> {
    let margin = rate / CUT_MARGIN_DIV;
    let start = if run.start == 0 {
        0
    } else {
        run.start * window + margin
    };
    let end = if run.end >= n {
        u64::MAX as int
    } else if run.end * window >= margin {
        run.end * window - margin
    } else {
        0
    };
    if start < end {
        Some(Silence { start: start as u64, end: end as u64, keep: false })
    } else {
        None
    }
}

/// What is cut for each of the runs, where anything is left to cut.
pub open spec fn all_tagged(runs: Seq<Run>, n: int, window: u64, rate: u32) -> Seq<Silence>
    decreases runs.len(),
{
    if runs.len() == 0 {
        Seq::empty()
    } else {
        let before = all_tagged(runs.drop_last(), n, window, rate);
        match tagged(runs.last(), n, window, rate) {
            Some(s) => before.push(s),
            None => before,
        }
    }
}

/// Every silence as sample frames, less a margin on each side that borders sound.
/// Lead-in and tail silence reach the recording's start and end (the tail's end may lie past the
/// last sample, since the last window can be partial).
pub fn tag(db: &[i32], window: u64, rate: u32, p: &DetectParams) -> (r: Vec<Silence>)
    requires
        db@.len() * window + rate <= u64::MAX,
    ensures
        exists|runs: Seq<Run>| #[trigger]
            all_runs(db@, *p, min_windows(*p, rate, window), runs) && r@ == all_tagged(
                runs,
                db@.len() as int,
                window,
                rate,
            ),
        window > 0 && db@.len() < usize::MAX ==> cuts_the_silences(db@, window, rate, *p, r@),
{
    let margin: u64 = (rate / CUT_MARGIN_DIV) as u64;
    let n: usize = db.len();
    let runs = silences(db, window, rate, p);
    let mut out: Vec<Silence> = Vec::new();
    let mut k: usize = 0;
    while k < runs.len()
        invariant
            n == db@.len(),
            n * window + rate <= u64::MAX,
            margin == rate / CUT_MARGIN_DIV,
            all_runs(db@, *p, min_windows(*p, rate, window), runs@),
            k <= runs@.len(),
            out@ == all_tagged(runs@.take(k as int), n as int, window, rate),
        decreases runs@.len() - k,
    {
        let run = runs[k];
        assert(runs@.take(k + 1).drop_last() =~= runs@.take(k as int));
        assert(whole_run(db@, *p, run.start as int, run.end as int));
        assert(0 <= run.start * window <= n * window) by (nonlinear_arith)
            requires
                0 <= run.start <= n,
                0 <= window,
        ;
        assert(0 <= run.end * window <= n * window) by (nonlinear_arith)
            requires
                0 <= run.end <= n,
                0 <= window,
        ;
        let start: u64 = if run.start == 0 {
            0
        } else {
            run.start as u64 * window + margin
        };
        let end: u64 = if run.end >= n {
            u64::MAX
        } else {
            (run.end as u64 * window).saturating_sub(margin)
        };
        if start < end {
            out.push(Silence { start, end, keep: false });
        }
        k += 1;
    }
    assert(runs@.take(k as int) =~= runs@);
    proof {
        if window > 0 && n < usize::MAX {
            law_tags_cut_the_silences(db@, window, rate, *p, runs@);
        }
    }
    out
}

/// A suggestion before it becomes a split: its position and the length of its silence in
/// windows.
pub struct Candidate {
    pub at: int,
    pub len: int,
}

/// The middle of a run.
pub open spec fn middle(run: Run, window: u64) -> int {
    (run.start + run.end) * window / 2
}

/// The shortest track, in frames.
pub open spec fn min_track(p: DetectParams, rate: u32) -> int {
    let n = p.min_track_ns * rate / SECOND as int;
    if n < u64::MAX {
        n
    } else {
        u64::MAX as int
    }
}

/// One candidate in the middle of each run between sounds. Of two closer than `gap` the one
/// with the longer silence stays, the first if they are as long.
pub open spec fn thinned(runs: Seq<Run>, n: int, window: u64, gap: int) -> Seq<Candidate>
    decreases runs.len(),
{
    if runs.len() == 0 {
        Seq::empty()
    } else {
        let before = thinned(runs.drop_last(), n, window, gap);
        let run = runs.last();
        let c = Candidate { at: middle(run, window), len: run.end - run.start };
        if run.start == 0 || run.end >= n {
            before
        } else if before.len() > 0 && c.at - before.last().at < gap {
            if c.len > before.last().len {
                before.drop_last().push(c)
            } else {
                before
            }
        } else {
            before.push(c)
        }
    }
}

/// The length of `len` windows in nanoseconds, as far as it can be told.
pub open spec fn silence_ns(len: int, window: u64, rate: u32) -> int {
    let n = len * window * SECOND / rate as int;
    if rate == 0 || n > u64::MAX {
        u64::MAX as int
    } else {
        n
    }
}

/// `s` is the suggestion for candidate `c`: unreviewed, with the length of its silence, and
/// nothing decided about the track that starts there.
pub open spec fn is_suggestion(s: Split, c: Candidate, window: u64, rate: u32) -> bool {
    &&& s.at == c.at
    &&& s.state == SplitState::Suggested
    &&& s.silence is Some
    &&& s.silence->0 == silence_ns(c.len, window, rate)
    &&& s.track@.plain()
}

fn nanoseconds(len: usize, window: u64, rate: u32) -> (r: u64)
    requires
        len * window <= u64::MAX,
    ensures
        r == silence_ns(len as int, window, rate),
{
    if rate == 0 {
        return u64::MAX;
    }
    let frames: u64 = len as u64 * window;
    let n: u128 = frames as u128 * 1_000_000_000 / (rate as u128);
    assert(n == len * window * SECOND / rate as int);
    if n > u64::MAX as u128 {
        u64::MAX
    } else {
        n as u64
    }
}

fn min_track_frames(p: &DetectParams, rate: u32) -> (r: u64)
    ensures
        r == min_track(*p, rate),
{
    assert(0 <= p.min_track_ns * rate <= u64::MAX * u32::MAX) by (nonlinear_arith)
        requires
            0 <= p.min_track_ns <= u64::MAX,
            0 <= rate <= u32::MAX,
    ;
    let n: u128 = (p.min_track_ns as u128) * (rate as u128) / (SECOND as u128);
    if n < u64::MAX as u128 {
        n as u64
    } else {
        u64::MAX
    }
}

/// The middle of a run lies inside it.
pub proof fn lemma_middle(run: Run, window: u64)
    requires
        run.start <= run.end,
    ensures
        run.start * window <= middle(run, window) <= run.end * window,
        run.start < run.end && window > 0 ==> middle(run, window) < run.end * window,
        run.start < run.end && window > 1 ==> run.start * window < middle(run, window),
{
    let (a, b, w) = (run.start as int, run.end as int, window as int);
    assert((a + b) * w == a * w + b * w) by (nonlinear_arith);
    assert(a * w <= b * w) by (nonlinear_arith)
        requires
            a <= b,
            0 <= w,
    ;
    if a < b {
        assert(a * w + w <= b * w) by (nonlinear_arith)
            requires
                a + 1 <= b,
                0 <= w,
        ;
    }
}

/// One suggested split in the middle of each silence, skipping lead-in and tail silence, and
/// thinning suggestions closer than the shortest track (the longer silence wins).
pub fn suggest(db: &[i32], window: u64, rate: u32, p: &DetectParams) -> (r: Vec<Split>)
    requires
        2 * db@.len() <= usize::MAX,
        2 * db@.len() * window <= u64::MAX,
    ensures
        exists|runs: Seq<Run>| #[trigger]
            all_runs(db@, *p, min_windows(*p, rate, window), runs) && {
                let cs = thinned(runs, db@.len() as int, window, min_track(*p, rate));
                &&& r@.len() == cs.len()
                &&& forall|k: int| 0 <= k < cs.len() ==> is_suggestion(#[trigger] r@[k], cs[k], window, rate)
            },
        window > 0 ==> splits_the_silences(db@, window, rate, *p, r@),
{
    let n: usize = db.len();
    let gap = min_track_frames(p, rate);
    let runs = silences(db, window, rate, p);
    let mut out: Vec<Split> = Vec::new();
    let mut last_len: usize = 0;
    let mut k: usize = 0;
    while k < runs.len()
        invariant
            n == db@.len(),
            2 * n <= usize::MAX,
            2 * n * window <= u64::MAX,
            gap == min_track(*p, rate),
            all_runs(db@, *p, min_windows(*p, rate, window), runs@),
            k <= runs@.len(),
            ({
                let cs = thinned(runs@.take(k as int), n as int, window, gap as int);
                &&& out@.len() == cs.len()
                &&& forall|j: int| 0 <= j < cs.len() ==> is_suggestion(#[trigger] out@[j], cs[j], window, rate)
                &&& cs.len() > 0 ==> last_len == cs.last().len && k > 0 && cs.last().at <= runs@[k - 1].end * window
            }),
        decreases runs@.len() - k,
    {
        let run = runs[k];
        let ghost before = thinned(runs@.take(k as int), n as int, window, gap as int);
        proof {
            assert(runs@.take(k + 1).drop_last() =~= runs@.take(k as int));
            assert(whole_run(db@, *p, run.start as int, run.end as int));
            lemma_middle(run, window);
            let (a, b, w, nn) = (run.start as int, run.end as int, window as int, n as int);
            assert(0 <= (a + b) * w <= 2 * nn * w) by (nonlinear_arith)
                requires
                    0 <= a <= nn,
                    0 <= b <= nn,
                    0 <= w,
            ;
            assert((b - a) * w <= 2 * nn * w) by (nonlinear_arith)
                requires
                    0 <= a,
                    b <= nn,
                    0 <= nn,
                    0 <= w,
            ;
            if k > 0 {
                let e = runs@[k - 1].end as int;
                assert(e * w <= a * w) by (nonlinear_arith)
                    requires
                        e <= a,
                        0 <= w,
                ;
            }
        }
        if run.start != 0 && run.end < n {
            let len: usize = run.end - run.start;
            let at: u64 = ((run.start + run.end) as u64 * window) / 2;
            let split = Split::suggested(at, nanoseconds(len, window, rate));
            let m: usize = out.len();
            if m > 0 && at - out[m - 1].at < gap {
                if len > last_len {
                    out.set(m - 1, split);
                    last_len = len;
                }
            } else {
                out.push(split);
                last_len = len;
            }
        }
        k += 1;
    }
    assert(runs@.take(k as int) =~= runs@);
    proof {
        if window > 0 {
            law_suggestions_split_the_silences(db@, window, rate, *p, runs@, out@);
        }
    }
    out
}

/// `k` comes before `j` when looking for a quiet window near `here`: quieter, or as quiet and
/// nearer, or as near and earlier.
pub open spec fn better(db: Seq<i32>, here: int, k: int, j: int) -> bool {
    let dk = if k < here { here - k } else { k - here };
    let dj = if j < here { here - j } else { j - here };
    db[k] < db[j] || (db[k] == db[j] && (dk < dj || (dk == dj && k <= j)))
}

/// The window that `at` lies in, or the last one.
pub open spec fn window_of(n: int, window: u64, at: u64) -> int {
    if at / window < n {
        (at / window) as int
    } else {
        n - 1
    }
}

/// `r` is `at`, or the centre of the quietest window within `radius` windows if that is quieter
/// than the one `at` lies in.
pub open spec fn snapped(db: Seq<i32>, window: u64, radius: int, at: u64, r: u64) -> bool {
    let here = window_of(db.len() as int, window, at);
    let lo = if here < radius { 0 } else { here - radius };
    let hi = if here + radius < db.len() { here + radius } else { db.len() - 1 };
    exists|best: int| {
        &&& lo <= best <= hi
        &&& forall|k: int| lo <= k <= hi ==> #[trigger] better(db, here, best, k)
        &&& r == if db[here] <= db[best] {
            at as int
        } else {
            best * window + window / 2
        }
    }
}

/// Move `at` to the centre of the quietest window within the given time. Among equally quiet
/// windows (e.g. digital silence) the one nearest to `at` wins.
pub fn snap(db: &[i32], window: u64, rate: u32, at: u64, radius_ns: u64) -> (r: u64)
    requires
        db@.len() > 0 ==> window > 0,
        db@.len() * window <= u64::MAX,
    ensures
        db@.len() == 0 ==> r == at,
        db@.len() > 0 ==> snapped(db@, window, windows_in(radius_ns, rate, window), at, r),
{
    let n: usize = db.len();
    if n == 0 {
        return at;
    }
    let radius: usize = window_count(radius_ns, rate, window);
    let q: u64 = at / window;
    let here: usize = if q < n as u64 {
        q as usize
    } else {
        n - 1
    };
    let lo: usize = if here < radius {
        0
    } else {
        here - radius
    };
    let hi: usize = if radius < n - here {
        here + radius
    } else {
        n - 1
    };
    let mut best: usize = lo;
    let mut k: usize = lo;
    while k < hi
        invariant
            n == db@.len(),
            lo <= best <= k <= hi < n,
            forall|j: int| lo <= j <= k ==> #[trigger] better(db@, here as int, best as int, j),
        decreases hi - k,
    {
        k += 1;
        let dk: usize = if k < here {
            here - k
        } else {
            k - here
        };
        let dbest: usize = if best < here {
            here - best
        } else {
            best - here
        };
        let ghost was = best as int;
        if db[k] < db[best] || (db[k] == db[best] && dk < dbest) {
            best = k;
        }
        assert forall|j: int| lo <= j <= k implies #[trigger] better(db@, here as int, best as int, j) by {
            if j < k {
                assert(better(db@, here as int, was, j));
            }
        }
    }
    // If `at` is already inside a window as quiet as the best one, don't move it.
    if db[here] <= db[best] {
        return at;
    }
    assert(best * window + window <= n * window) by (nonlinear_arith)
        requires
            best + 1 <= n,
            0 <= window,
    ;
    assert(0 <= best * window) by (nonlinear_arith)
        requires
            0 <= best,
            0 <= window,
    ;
    best as u64 * window + window / 2
}

/// Snapping lands in the quietest window within reach, and moves only to a quieter one.
pub proof fn law_snapping_finds_the_quietest(db: Seq<i32>, window: u64, radius: int, at: u64, r: u64)
    requires
        db.len() > 0,
        window > 0,
        radius >= 0,
        snapped(db, window, radius, at, r),
    ensures
        ({
            let here = window_of(db.len() as int, window, at);
            let there = window_of(db.len() as int, window, r);
            &&& 0 <= there < db.len()
            &&& here - radius <= there <= here + radius
            &&& forall|k: int| 0 <= k < db.len() && here - radius <= k <= here + radius ==> db[there] <= #[trigger] db[k]
            &&& r != at ==> db[there] < db[here]
        }),
{
    let n = db.len() as int;
    let here = window_of(n, window, at);
    let lo = if here < radius { 0 } else { here - radius };
    let hi = if here + radius < n { here + radius } else { n - 1 };
    let best = choose|best: int| {
        &&& lo <= best <= hi
        &&& forall|k: int| lo <= k <= hi ==> #[trigger] better(db, here, best, k)
        &&& r == if db[here] <= db[best] {
            at as int
        } else {
            best * window + window / 2
        }
    };
    assert(better(db, here, best, here));
    assert forall|k: int| 0 <= k < n && here - radius <= k <= here + radius implies db[best] <= #[trigger] db[k] by {
        assert(better(db, here, best, k));
    }
    if db[here] > db[best] {
        let w = window as int;
        assert((best * w + w / 2) / w == best) by (nonlinear_arith)
            requires
                0 <= best,
                w > 0,
        ;
    }
}

/// Runs in order, as `silences` gives them.
pub open spec fn in_order(runs: Seq<Run>) -> bool {
    &&& forall|k: int| 0 <= k < runs.len() ==> (#[trigger] runs[k]).start < runs[k].end
    &&& forall|i: int, j: int| 0 <= i < j < runs.len() ==> (#[trigger] runs[i]).end < (#[trigger] runs[j]).start
}

/// No two suggestions are closer than the shortest track.
pub proof fn law_suggestions_keep_their_distance(runs: Seq<Run>, n: int, window: u64, gap: int)
    requires
        in_order(runs),
        gap >= 0,
    ensures
        forall|i: int, j: int|
            0 <= i < j < thinned(runs, n, window, gap).len() ==> (#[trigger] thinned(runs, n, window, gap)[j]).at - (
            #[trigger] thinned(runs, n, window, gap)[i]).at >= gap,
        forall|i: int| #![trigger thinned(runs, n, window, gap)[i]]
            0 <= i < thinned(runs, n, window, gap).len() ==> runs.len() > 0 && thinned(runs, n, window, gap)[i].at
                <= runs.last().end * window,
    decreases runs.len(),
{
    if runs.len() > 0 {
        let less = runs.drop_last();
        assert(in_order(less));
        law_suggestions_keep_their_distance(less, n, window, gap);
        let before = thinned(less, n, window, gap);
        let run = runs.last();
        let now = thinned(runs, n, window, gap);
        lemma_middle(run, window);
        if less.len() > 0 {
            let e = less.last();
            assert(less.last() == runs[runs.len() - 2]);
            assert(e.end * window <= run.start * window) by (nonlinear_arith)
                requires
                    e.end <= run.start,
                    0 <= window,
            ;
        }
        assert forall|i: int| 0 <= i < before.len() implies (#[trigger] before[i]).at <= middle(run, window) by {}
        assert forall|i: int, j: int| 0 <= i < j < now.len() implies (#[trigger] now[j]).at - (#[trigger] now[i]).at
            >= gap by {
            assert(now[i] == before[i]);
            if j < before.len() {
                if now[j] != before[j] {
                    assert(before[j].at - before[i].at >= gap);
                }
            } else {
                assert(before.last().at >= before[i].at) by {
                    if i < before.len() - 1 {
                        assert(before[before.len() - 1].at - before[i].at >= gap);
                    }
                }
            }
        }
    }
}

/// The candidates come from runs between sounds, in their order and no two from one run.
pub proof fn lemma_thinned_from_runs(runs: Seq<Run>, n: int, window: u64, gap: int) -> (from: Seq<int>)
    ensures
        from.len() == thinned(runs, n, window, gap).len(),
        forall|k: int| 0 <= k < from.len() ==> 0 <= #[trigger] from[k] < runs.len() && is_inner(runs[from[k]], n) && thinned(
            runs,
            n,
            window,
            gap,
        )[k] == (Candidate { at: middle(runs[from[k]], window), len: runs[from[k]].end - runs[from[k]].start }),
        forall|j: int, k: int| 0 <= j < k < from.len() ==> #[trigger] from[j] < #[trigger] from[k],
    decreases runs.len(),
{
    if runs.len() == 0 {
        Seq::empty()
    } else {
        let less = runs.drop_last();
        let before = lemma_thinned_from_runs(less, n, window, gap);
        let was = thinned(less, n, window, gap);
        let now = thinned(runs, n, window, gap);
        let last = runs.len() - 1;
        assert forall|k: int| 0 <= k < before.len() implies runs[#[trigger] before[k]] == less[before[k]] by {}
        if now == was {
            before
        } else if now.len() == was.len() {
            before.drop_last().push(last)
        } else {
            before.push(last)
        }
    }
}

/// A run that borders sound on both sides.
pub open spec fn is_inner(run: Run, n: int) -> bool {
    0 < run.start && run.end < n
}

/// `s` is the suggestion for `run`: in its middle, unreviewed, with its length and with nothing
/// decided about the track that starts there.
pub open spec fn is_split_of(s: Split, run: Run, window: u64, rate: u32) -> bool {
    &&& s.at == middle(run, window)
    &&& s.state == SplitState::Suggested
    &&& s.silence is Some
    &&& s.silence->0 == silence_ns(run.end - run.start, window, rate)
    &&& s.track@.plain()
}

/// Suggestions come in order, at least the shortest track apart. Each stands in the middle of a
/// silence between sounds, and no silence has two of them.
pub proof fn law_suggestions_split_silences(
    db: Seq<i32>,
    window: u64,
    rate: u32,
    p: DetectParams,
    runs: Seq<Run>,
    splits: Seq<Split>,
)
    requires
        window > 0,
        all_runs(db, p, min_windows(p, rate, window), runs),
        splits.len() == thinned(runs, db.len() as int, window, min_track(p, rate)).len(),
        forall|k: int| 0 <= k < splits.len() ==> is_suggestion(
            #[trigger] splits[k],
            thinned(runs, db.len() as int, window, min_track(p, rate))[k],
            window,
            rate,
        ),
    ensures
        forall|j: int, k: int| 0 <= j < k < splits.len() ==> {
            &&& (#[trigger] splits[j]).at < (#[trigger] splits[k]).at
            &&& splits[k].at - splits[j].at >= min_track(p, rate)
        },
        forall|k: int| 0 <= k < splits.len() ==> exists|i: int|
            0 <= i < runs.len() && is_inner(runs[i], db.len() as int) && is_split_of(
                #[trigger] splits[k],
                #[trigger] runs[i],
                window,
                rate,
            ),
        forall|i: int, j: int, k: int|
            0 <= i < runs.len() && 0 <= j < k < splits.len() ==> !(#[trigger] is_split_of(splits[j], runs[i], window, rate)
                && #[trigger] is_split_of(splits[k], runs[i], window, rate)),
{
    let n = db.len() as int;
    let gap = min_track(p, rate);
    let cs = thinned(runs, n, window, gap);
    assert forall|k: int| 0 <= k < runs.len() implies (#[trigger] runs[k]).start < runs[k].end by {
        assert(whole_run(db, p, runs[k].start as int, runs[k].end as int));
    }
    assert(in_order(runs));
    assert(gap >= 0) by {
        assert(p.min_track_ns * rate >= 0) by (nonlinear_arith)
            requires
                p.min_track_ns >= 0,
                rate >= 0,
        ;
    }
    law_suggestions_keep_their_distance(runs, n, window, gap);
    let from = lemma_thinned_from_runs(runs, n, window, gap);
    assert forall|j: int, k: int| 0 <= j < k < splits.len() implies {
        &&& (#[trigger] splits[j]).at < (#[trigger] splits[k]).at
        &&& splits[k].at - splits[j].at >= gap
    } by {
        let (x, y) = (runs[from[j]], runs[from[k]]);
        assert(is_suggestion(splits[j], cs[j], window, rate) && is_suggestion(splits[k], cs[k], window, rate));
        assert(cs[k].at - cs[j].at >= gap);
        assert(from[j] < from[k]);
        lemma_middle(x, window);
        lemma_middle(y, window);
        assert(x.end * window < y.start * window) by (nonlinear_arith)
            requires
                x.end < y.start,
                window > 0,
        ;
    }
    assert forall|k: int| 0 <= k < splits.len() implies exists|i: int|
        0 <= i < runs.len() && is_inner(runs[i], n) && is_split_of(#[trigger] splits[k], #[trigger] runs[i], window, rate) by {
        assert(is_suggestion(splits[k], cs[k], window, rate));
        let i = from[k];
        assert(is_inner(runs[i], n));
        assert(is_split_of(splits[k], runs[i], window, rate));
    }
}

/// The silence cut around a suggestion reaches it from both sides, so both tracks lose theirs.
pub proof fn law_suggestion_lies_in_its_silence(run: Run, n: int, window: u64, rate: u32)
    requires
        0 < run.start < run.end < n,
        n * window + rate <= u64::MAX,
        tagged(run, n, window, rate) is Some,
    ensures
        tagged(run, n, window, rate)->0.start <= middle(run, window) < tagged(run, n, window, rate)->0.end,
{
    let (a, b, w) = (run.start as int, run.end as int, window as int);
    assert((a + b) * w == a * w + b * w) by (nonlinear_arith);
    assert(0 <= a * w <= n * w && 0 <= b * w <= n * w) by (nonlinear_arith)
        requires
            0 <= a <= n,
            0 <= b <= n,
            0 <= w,
    ;
}

/// Tagged silences come in order, none empty and none overlapping another.
pub proof fn law_tags_are_sorted(runs: Seq<Run>, n: int, window: u64, rate: u32)
    requires
        in_order(runs),
        forall|k: int| 0 <= k < runs.len() ==> (#[trigger] runs[k]).end <= n,
        n * window + rate <= u64::MAX,
    ensures
        crate::edit::silences_sorted(all_tagged(runs, n, window, rate)),
        forall|i: int| #![trigger all_tagged(runs, n, window, rate)[i]]
            0 <= i < all_tagged(runs, n, window, rate).len() ==> runs.len() > 0 && (all_tagged(runs, n, window, rate)[i].end
                <= runs.last().end * window || runs.last().end == n),
    decreases runs.len(),
{
    if runs.len() > 0 {
        let less = runs.drop_last();
        assert(in_order(less));
        law_tags_are_sorted(less, n, window, rate);
        let run = runs.last();
        let (a, b, w) = (run.start as int, run.end as int, window as int);
        assert(0 <= a * w <= b * w <= n * w) by (nonlinear_arith)
            requires
                0 <= a <= b <= n,
                0 <= w,
        ;
        if less.len() > 0 {
            let e = less.last();
            assert(less.last() == runs[runs.len() - 2]);
            assert(e.end * w <= a * w) by (nonlinear_arith)
                requires
                    e.end <= a,
                    0 <= w,
            ;
        }
    }
}

} // verus!

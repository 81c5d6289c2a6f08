//! The folder being worked on: which recording is selected, what opening and selecting set off,
//! and the window of the detail view.
use vstd::prelude::*;
use crate::recording::{file_name, last_part, paths_of, Recording, Status};
use crate::text::{same_str, strings};

verus! {

/// Nanoseconds in a second.
pub const SECOND: u64 = 1_000_000_000;

/// The narrowest detail view: 2 s.
pub const MIN_SPAN: u64 = 2_000_000_000;

/// The widest detail view: 10 min.
pub const MAX_SPAN: u64 = 600_000_000_000;

/// Detail view window: start sample and width in nanoseconds.
#[derive(Clone, Copy, Debug, PartialEq, Eq, Structural)]
pub struct Detail {
    pub start: u64,
    pub span_ns: u64,
}

/// A stretch of time in frames.
pub open spec fn frames_in(ns: int, rate: int) -> int {
    ns * rate / SECOND as int
}

fn frames_of(ns: u64, rate: u32) -> (r: u64)
    requires
        ns <= MAX_SPAN,
    ensures
        r == frames_in(ns as int, rate as int),
{
    let n: u128 = ns as u128;
    let d: u128 = rate as u128;
    assert(0 <= n * d <= MAX_SPAN * u32::MAX) by (nonlinear_arith)
        requires
            0 <= n <= MAX_SPAN,
            0 <= d <= u32::MAX,
    ;
    let f: u128 = n * d / SECOND as u128;
    assert(f <= u64::MAX) by (nonlinear_arith)
        requires
            f == n * d / (SECOND as int),
            n * d <= MAX_SPAN * u32::MAX,
    ;
    f as u64
}

/// The later of the start and nothing before the recording; never past the last full window.
pub open spec fn start_within(start: int, total: int, span: int) -> int {
    let last = if span < total {
        total - span
    } else {
        0
    };
    if start < 0 {
        0
    } else if start < last {
        start
    } else {
        last
    }
}

impl Detail {
    pub open spec fn wf(&self) -> bool {
        0 < self.span_ns <= MAX_SPAN
    }

    /// The window's width in frames.
    pub open spec fn span(&self, rate: u32) -> int {
        frames_in(self.span_ns as int, rate as int)
    }

    /// The window of a new session: 20 s from the beginning.
    pub fn new() -> (r: Detail)
        ensures
            r.wf(),
            r == (Detail { start: 0, span_ns: 20_000_000_000 }),
    {
        Detail { start: 0, span_ns: 20_000_000_000 }
    }

    /// The window as it is for another recording: the same width, from the beginning.
    pub fn rewound(&self) -> (r: Detail)
        ensures
            r == (Detail { start: 0, ..*self }),
    {
        Detail { start: 0, span_ns: self.span_ns }
    }

    fn starting(&self, start: i128, total: u64, span: u64) -> (r: Detail)
        ensures
            r == (Detail { start: start_within(start as int, total as int, span as int) as u64, ..*self }),
    {
        let last: u64 = total.saturating_sub(span);
        let start: u64 = if start < 0 {
            0
        } else if start < last as i128 {
            start as u64
        } else {
            last
        };
        Detail { start, span_ns: self.span_ns }
    }

    /// Scroll so that `frame` is visible (centred if `center`).
    pub fn show(&self, frame: u64, center: bool, total: u64, rate: u32) -> (r: Detail)
        requires
            self.wf(),
        ensures
            r.wf(),
            ({
                let span = self.span(rate);
                if self.start <= frame < self.start + span && !center {
                    r == *self
                } else {
                    let back = if center {
                        span / 2
                    } else {
                        span / 10
                    };
                    r == (Detail { start: start_within(frame - back, total as int, span) as u64, ..*self })
                }
            }),
    {
        let span = frames_of(self.span_ns, rate);
        if frame >= self.start && (frame as u128) < self.start as u128 + span as u128 && !center {
            return *self;
        }
        let back: u64 = if center {
            span / 2
        } else {
            span / 10
        };
        self.starting(frame as i128 - back as i128, total, span)
    }

    /// Move the window by `frames`, within the recording.
    pub fn scroll(&self, frames: i64, total: u64, rate: u32) -> (r: Detail)
        requires
            self.wf(),
        ensures
            r.wf(),
            r == (Detail { start: start_within(self.start + frames, total as int, self.span(rate)) as u64, ..*self }),
    {
        let span = frames_of(self.span_ns, rate);
        self.starting(self.start as i128 + frames as i128, total, span)
    }

    /// Page the window when the playhead runs off its right edge (or is left of it).
    pub fn follow(&self, pos: u64, total: u64, rate: u32) -> (r: Detail)
        requires
            self.wf(),
        ensures
            r.wf(),
            ({
                let span = self.span(rate);
                if pos < self.start || pos >= self.start + span * 97 / 100 {
                    r == (Detail { start: start_within(pos - span * 3 / 100, total as int, span) as u64, ..*self })
                } else {
                    r == *self
                }
            }),
    {
        let span = frames_of(self.span_ns, rate);
        let edge: u128 = span as u128 * 97 / 100;
        if pos < self.start || pos as u128 >= self.start as u128 + edge {
            let back: u128 = span as u128 * 3 / 100;
            self.starting(pos as i128 - back as i128, total, span)
        } else {
            *self
        }
    }

    /// The width after zooming by `num / den`: no narrower than `MIN_SPAN`, and no wider than
    /// `MAX_SPAN` or the recording.
    pub open spec fn zoomed_span(&self, num: u32, den: u32, total: u64, rate: u32) -> int {
        let whole = total * SECOND / rate as int;
        let max = if whole < MIN_SPAN {
            MIN_SPAN as int
        } else if whole < MAX_SPAN {
            whole
        } else {
            MAX_SPAN as int
        };
        let span = self.span_ns * num / den as int;
        if span < MIN_SPAN {
            MIN_SPAN as int
        } else if span < max {
            span
        } else {
            max
        }
    }

    /// Whether the playhead is on screen.
    pub open spec fn shows(&self, pos: u64, rate: u32) -> bool {
        self.start <= pos && (pos - self.start) * SECOND < self.span_ns * rate
    }

    /// Where the window of width `span` starts that was zoomed into: the playhead keeps its
    /// relative spot if it is on screen, otherwise the middle does.
    pub open spec fn zoomed_start(&self, span: int, pos: u64, rate: u32) -> int {
        if self.shows(pos, rate) {
            let before = (pos - self.start) * span;
            pos - (before + self.span_ns - 1) / self.span_ns as int
        } else {
            self.start + (self.span_ns - span) * rate / (2 * SECOND as int)
        }
    }

    /// Zoom by `num / den`.
    pub fn zoom(&self, num: u32, den: u32, pos: u64, total: u64, rate: u32) -> (r: Detail)
        requires
            self.wf(),
            den > 0,
            rate > 0,
        ensures
            r.wf(),
            ({
                let span = self.zoomed_span(num, den, total, rate);
                r == (Detail {
                    start: start_within(
                        self.zoomed_start(span, pos, rate),
                        total as int,
                        frames_in(span, rate as int),
                    ) as u64,
                    span_ns: span as u64,
                })
            }),
    {
        let t: u128 = total as u128;
        assert(t * SECOND <= u64::MAX * SECOND) by (nonlinear_arith)
            requires
                t <= u64::MAX,
        ;
        let whole: u128 = t * SECOND as u128 / rate as u128;
        let max: u64 = if whole < MIN_SPAN as u128 {
            MIN_SPAN
        } else if whole < MAX_SPAN as u128 {
            whole as u64
        } else {
            MAX_SPAN
        };
        let s: u128 = self.span_ns as u128;
        let f: u128 = num as u128;
        assert(0 <= s * f <= MAX_SPAN * u32::MAX) by (nonlinear_arith)
            requires
                0 <= s <= MAX_SPAN,
                0 <= f <= u32::MAX,
        ;
        let wide: u128 = s * f / den as u128;
        let span: u64 = if wide < MIN_SPAN as u128 {
            MIN_SPAN
        } else if wide < max as u128 {
            wide as u64
        } else {
            max
        };
        assert(span == self.zoomed_span(num, den, total, rate));
        let rt: u128 = rate as u128;
        assert(0 <= s * rt <= MAX_SPAN * u32::MAX) by (nonlinear_arith)
            requires
                0 <= s <= MAX_SPAN,
                0 <= rt <= u32::MAX,
        ;
        let on_screen = self.start <= pos && (pos - self.start) as u128 * (SECOND as u128) < s * rt;
        let start: i128 = if on_screen {
            let off: u128 = (pos - self.start) as u128;
            let w: u128 = span as u128;
            assert(0 <= off * w <= u64::MAX * MAX_SPAN) by (nonlinear_arith)
                requires
                    0 <= off <= u64::MAX,
                    0 <= w <= MAX_SPAN,
            ;
            let ahead: u128 = (off * w + (s - 1)) / s;
            assert(0 <= ahead <= off * w + s) by (nonlinear_arith)
                requires
                    ahead == (off * w + (s - 1)) / (s as int),
                    s > 0,
                    off * w >= 0,
            ;
            pos as i128 - ahead as i128
        } else {
            let diff: i128 = self.span_ns as i128 - span as i128;
            let rate_i: i128 = rate as i128;
            assert(-(MAX_SPAN * u32::MAX) <= diff * rate_i <= MAX_SPAN * u32::MAX) by (nonlinear_arith)
                requires
                    -MAX_SPAN <= diff <= MAX_SPAN,
                    0 <= rate_i <= u32::MAX,
            ;
            self.start as i128 + floor_div(diff * rate_i, 2 * SECOND as i128)
        };
        assert(start == self.zoomed_start(span as int, pos, rate));
        let frames = frames_of(span, rate);
        Detail { start: 0, span_ns: span }.starting(start, total, frames)
    }
}

/// Division that rounds down.
fn floor_div(a: i128, b: i128) -> (r: i128)
    requires
        0 < b <= 0x1_0000_0000_0000_0000,
        -0x1_0000_0000_0000_0000_0000_0000 <= a <= 0x1_0000_0000_0000_0000_0000_0000,
    ensures
        r == a as int / b as int,
        -0x1_0000_0000_0000_0000_0000_0000 <= r <= 0x1_0000_0000_0000_0000_0000_0000,
{
    if a >= 0 {
        assert(0 <= a as int / b as int <= a) by (nonlinear_arith)
            requires
                a >= 0,
                b > 0,
        ;
        (a as u128 / b as u128) as i128
    } else {
        let m: i128 = b - 1 - a;
        let q: i128 = (m as u128 / b as u128) as i128;
        assert(-q == a as int / b as int && 0 <= q <= -a) by (nonlinear_arith)
            requires
                q == m as int / b as int,
                m == b - 1 - a,
                a < 0,
                b > 0,
        ;
        -q
    }
}

/// Where a jump of `ns` from `pos` lands, within the recording.
pub fn jump(pos: u64, ns: i64, total: u64, rate: u32) -> (r: u64)
    ensures
        ({
            let d = frames_in(
                if ns < 0 {
                    -ns
                } else {
                    ns as int
                },
                rate as int,
            );
            let to = if ns < 0 {
                if pos < d {
                    0
                } else {
                    pos - d
                }
            } else {
                pos + d
            };
            r == if to < total {
                to
            } else {
                total as int
            }
        }),
{
    let n: u128 = if ns < 0 {
        (-(ns as i128)) as u128
    } else {
        ns as u128
    };
    let f: u128 = rate as u128;
    assert(0 <= n * f <= 0x8000_0000_0000_0000 * u32::MAX) by (nonlinear_arith)
        requires
            0 <= n <= 0x8000_0000_0000_0000,
            0 <= f <= u32::MAX,
    ;
    let d: u128 = n * f / SECOND as u128;
    let to: u128 = if ns < 0 {
        if (pos as u128) < d {
            0
        } else {
            pos as u128 - d
        }
    } else {
        pos as u128 + d
    };
    if to < total as u128 {
        to as u64
    } else {
        total
    }
}

/// The recording that is `delta` further in the list; from before the first where none is
/// selected. `None` only for an empty list.
pub fn select_offset(selected: Option<usize>, delta: i64, len: usize) -> (r: Option<usize>)
    ensures
        len == 0 ==> r is None,
        len > 0 ==> ({
            let from = match selected {
                Some(i) => i as int,
                None => -1,
            };
            let to = from + delta;
            r == Some(
                (if to < 0 {
                    0
                } else if to < len {
                    to
                } else {
                    len - 1
                }) as usize,
            )
        }),
{
    if len == 0 {
        return None;
    }
    let from: i128 = match selected {
        Some(i) => i as i128,
        None => -1,
    };
    let to: i128 = from + delta as i128;
    Some(
        if to < 0 {
            0
        } else if to < len as i128 {
            to as usize
        } else {
            len - 1
        },
    )
}

/// Whether selecting `i` changes anything: it is in the list, and another one is selected.
pub fn selects(selected: Option<usize>, i: usize, len: usize) -> (r: bool)
    ensures
        r == (selected != Some(i) && i < len),
{
    let same = match selected {
        Some(j) => j == i,
        None => false,
    };
    !same && i < len
}

/// The status of a recording once it has been looked at.
pub fn opened_status(status: Status) -> (r: Status)
    ensures
        r == if status == Status::Todo {
            Status::InProgress
        } else {
            status
        },
{
    if status == Status::Todo {
        Status::InProgress
    } else {
        status
    }
}

/// F: flag a recording to come back to (or unflag it).
pub fn toggled_flag(status: Status) -> (r: Status)
    ensures
        r == if status == Status::Flagged {
            Status::InProgress
        } else {
            Status::Flagged
        },
{
    if status == Status::Flagged {
        Status::InProgress
    } else {
        Status::Flagged
    }
}

/// How far the analysis of a recording is.
#[derive(Clone, Copy, Debug, PartialEq, Eq, Structural)]
pub enum ScanProgress {
    Unknown,
    Scanning,
    Ready,
    Failed,
}

/// What selecting a recording sets off.
#[derive(Clone, Copy, Debug, PartialEq, Eq, Structural)]
pub enum OnSelect {
    /// Load it into the player, and measure its loudness first if that is not known.
    Load { measure: bool },
    /// Analyse it next.
    Prioritize,
    Nothing,
}

pub fn on_select(scan: ScanProgress, has_loudness: bool) -> (r: OnSelect)
    ensures
        r == match scan {
            ScanProgress::Ready => OnSelect::Load { measure: !has_loudness },
            ScanProgress::Failed => OnSelect::Nothing,
            ScanProgress::Unknown => OnSelect::Prioritize,
            ScanProgress::Scanning => OnSelect::Prioritize,
        },
{
    match scan {
        ScanProgress::Ready => OnSelect::Load { measure: !has_loudness },
        ScanProgress::Failed => OnSelect::Nothing,
        _ => OnSelect::Prioritize,
    }
}

/// The paths of the first `n` recordings that are still to be analysed.
pub open spec fn unscanned(paths: Seq<Seq<char>>, scans: Seq<ScanProgress>, n: int) -> Seq<Seq<char>>
    decreases n,
{
    if n <= 0 {
        Seq::empty()
    } else {
        let before = unscanned(paths, scans, n - 1);
        if scans[n - 1] == ScanProgress::Ready {
            before
        } else {
            before.push(paths[n - 1])
        }
    }
}

/// What the scanner has to do for a folder that was just opened, in the order of the list.
pub fn pending(recordings: &Vec<Recording>, scans: &Vec<ScanProgress>) -> (r: Vec<String>)
    requires
        recordings@.len() == scans@.len(),
    ensures
        strings(r@) == unscanned(paths_of(recordings@), scans@, recordings@.len() as int),
{
    let mut out: Vec<String> = Vec::new();
    let mut i: usize = 0;
    assert(strings(out@) =~= Seq::<Seq<char>>::empty());
    while i < recordings.len()
        invariant
            i <= recordings@.len(),
            recordings@.len() == scans@.len(),
            strings(out@) == unscanned(paths_of(recordings@), scans@, i as int),
        decreases recordings@.len() - i,
    {
        if scans[i] != ScanProgress::Ready {
            let ghost before = out@;
            let p: String = recordings[i].path.as_str().to_owned();
            out.push(p);
            assert(strings(out@) =~= strings(before).push(p@));
            assert(p@ == paths_of(recordings@)[i as int]);
        }
        i += 1;
    }
    out
}

/// The recording to select in a folder that was just opened: the file that was asked for if it
/// is there, otherwise the first. `None` for an empty folder.
pub fn first_selected(recordings: &Vec<Recording>, file: Option<&str>) -> (r: Option<usize>)
    ensures
        recordings@.len() == 0 ==> r is None,
        recordings@.len() > 0 ==> r is Some && r->0 < recordings@.len() && match file {
            None => r->0 == 0,
            Some(f) => {
                let ps = paths_of(recordings@);
                ||| ps[r->0 as int] == f@ && forall|j: int| 0 <= j < r->0 ==> #[trigger] ps[j] != f@
                ||| r->0 == 0 && forall|j: int| 0 <= j < ps.len() ==> #[trigger] ps[j] != f@
            },
        },
{
    if recordings.len() == 0 {
        return None;
    }
    let ghost ps = paths_of(recordings@);
    match file {
        None => Some(0),
        Some(f) => {
            let mut i: usize = 0;
            while i < recordings.len()
                invariant
                    i <= recordings@.len(),
                    recordings@.len() > 0,
                    file == Some(f),
                    ps == paths_of(recordings@),
                    forall|j: int| #![trigger ps[j]] 0 <= j < i ==> ps[j] != f@,
                decreases recordings@.len() - i,
            {
                if same_str(recordings[i].path.as_str(), f) {
                    assert(ps[i as int] == f@);
                    return Some(i);
                }
                assert(ps[i as int] != f@);
                i += 1;
            }
            Some(0)
        },
    }
}

/// Cutlist key for a recording: its file name, so the folder can be moved or renamed.
pub fn key_of(path: &str) -> (r: String)
    ensures
        r@ == match last_part(path@) {
            Some(name) => name,
            None => Seq::empty(),
        },
{
    match file_name(path) {
        Some(name) => name,
        None => {
            proof {
                reveal_strlit("");
                assert(""@ =~= Seq::<char>::empty());
            }
            "".to_owned()
        },
    }
}

/// How long an error message stays up, in nanoseconds: 10 s.
pub const ERROR_NS: u64 = 10_000_000_000;

/// What to do about the error message.
#[derive(Clone, Copy, Debug, PartialEq, Eq, Structural)]
pub enum Fade {
    /// It was just shown: its time starts now.
    Start,
    /// It was up long enough: take it down.
    Clear,
    /// It is gone: forget when it was shown.
    Forget,
    Keep,
}

/// Whether an error message is up, and for how long it has been.
pub fn fade_error(shown: bool, since_ns: Option<u64>) -> (r: Fade)
    ensures
        r == match since_ns {
            None => if shown {
                Fade::Start
            } else {
                Fade::Keep
            },
            Some(t) => if !shown {
                Fade::Forget
            } else if t > ERROR_NS {
                Fade::Clear
            } else {
                Fade::Keep
            },
        },
{
    match since_ns {
        None => if shown {
            Fade::Start
        } else {
            Fade::Keep
        },
        Some(t) => if !shown {
            Fade::Forget
        } else if t > ERROR_NS {
            Fade::Clear
        } else {
            Fade::Keep
        },
    }
}

/// Changes are written once they are this old, in nanoseconds: 400 ms.
pub const SAVE_NS: u64 = 400_000_000;

/// Whether to write the cutlist now, given how long there have been unsaved changes.
pub fn save_due(dirty_ns: Option<u64>) -> (r: bool)
    ensures
        r == (dirty_ns matches Some(t) && t > SAVE_NS),
{
    match dirty_ns {
        Some(t) => t > SAVE_NS,
        None => false,
    }
}

/// The window never reaches outside the recording: it starts inside, and ends inside too where
/// the recording is at least as long.
pub proof fn law_view_stays_inside(start: int, total: int, span: int)
    requires
        0 <= total,
        0 <= span,
    ensures
        ({
            let s = start_within(start, total, span);
            &&& 0 <= s <= total
            &&& span <= total ==> s + span <= total
        }),
{
}

/// A playhead on screen stays where it was on screen when zooming, up to a frame, as far as the
/// recording reaches.
pub proof fn law_zoom_keeps_the_playhead(v: Detail, span: int, pos: u64, rate: u32)
    requires
        v.wf(),
        v.shows(pos, rate),
        span >= 0,
    ensures
        ({
            let s = v.zoomed_start(span, pos, rate);
            &&& (pos - s) * v.span_ns >= (pos - v.start) * span
            &&& (pos - s - 1) * v.span_ns < (pos - v.start) * span
        }),
{
    let before = (pos - v.start) * span;
    let w = v.span_ns as int;
    let s = v.zoomed_start(span, pos, rate);
    let q = (before + w - 1) / w;
    assert(before >= 0) by (nonlinear_arith)
        requires
            before == (pos - v.start) * span,
            pos >= v.start,
            span >= 0,
    ;
    assert(q * w >= before && (q - 1) * w < before) by (nonlinear_arith)
        requires
            q == (before + w - 1) / w,
            w > 0,
    ;
    assert(pos - s == q);
}

} // verus!

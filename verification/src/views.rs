//! What is shown: the ruler and waveform, the bands over them, and the texts of the lists and
//! dialogs.
use vstd::prelude::*;
use crate::edit::{of_state, RecordingEdit, Silence, Split, SplitState};
use crate::export::{PlannedTrack, Profile, SourceFacts};
use crate::exporting::ExportStatus;
use crate::recording::Status;
use crate::scan::{Bitrate, SourceInfo};
use crate::state::{ScanProgress, MAX_SPAN, SECOND};
use crate::text::{
    append_chars, append_str, chars_of, decimal, decimal_chars, drop_end, only, padded, padded_chars, string_of,
};
use crate::time::{fmt_precise, fmt_short, precise, shortened};

verus! {

// ---- The ruler ----

/// The distances between ticks to choose from, in tenths of a second.
pub open spec fn tick_steps() -> Seq<u64> {
    seq![1u64, 2, 5, 10, 20, 50, 100, 150, 300, 600, 1200, 3000, 6000]
}

/// The first of them that gives at most ten ticks across `span`.
pub open spec fn step_from(i: int, span: int) -> int
    decreases tick_steps().len() - i,
{
    if i >= tick_steps().len() {
        1200 * SECOND
    } else if span <= tick_steps()[i] * SECOND {
        tick_steps()[i] * (SECOND as int / 10)
    } else {
        step_from(i + 1, span)
    }
}

/// Tick spacing that gives at most about ten labels across `span`, both in nanoseconds.
pub fn tick_step(span: u64) -> (r: u64)
    ensures
        r == step_from(0, span as int),
        r > 0,
        r % 100_000_000 == 0,
        r <= 1200 * SECOND,
{
    let steps: [u64; 13] = [1, 2, 5, 10, 20, 50, 100, 150, 300, 600, 1200, 3000, 6000];
    let mut i: usize = 0;
    assert(steps@ =~= tick_steps());
    while i < 13
        invariant
            i <= 13,
            steps@ == tick_steps(),
            step_from(0, span as int) == step_from(i as int, span as int),
        decreases 13 - i,
    {
        assert(1 <= tick_steps()[i as int] <= 6000);
        if span <= steps[i] * SECOND {
            return steps[i] * 100_000_000;
        }
        i += 1;
    }
    1200 * SECOND
}

/// A tick of the ruler: its time and its label.
#[derive(Clone, Debug, PartialEq, Eq)]
pub struct Tick {
    pub ns: u64,
    pub label: String,
}

/// The label of a tick: as many decimals as the distance between ticks asks for.
pub open spec fn tick_label(ns: int, step: int) -> Seq<char> {
    if step < SECOND {
        drop_end(precise(ns / 1_000_000), only('0'))
    } else {
        shortened(ns / 1_000_000)
    }
}

fn label_of(ns: u64, step: u64) -> (r: String)
    ensures
        r@ == tick_label(ns as int, step as int),
{
    if step < SECOND {
        let s = chars_of(fmt_precise(ns / 1_000_000).as_str());
        let ghost p = only('0');
        let mut n: usize = s.len();
        assert(s@.take(n as int) =~= s@);
        while n > 0 && s[n - 1] == '0'
            invariant
                n <= s@.len(),
                p == only('0'),
                drop_end(s@, p) == drop_end(s@.take(n as int), p),
            decreases n,
        {
            assert(s@.take(n as int).drop_last() =~= s@.take(n - 1));
            n -= 1;
        }
        let rest = vstd::slice::slice_subrange(&s, 0, n);
        assert(rest@ =~= s@.take(n as int));
        string_of(rest)
    } else {
        fmt_short(ns / 1_000_000)
    }
}

/// Whether a tick at `ns` is shown in the window of `span` from frame `start`: not left of it,
/// and not so far right that its label would be clipped.
pub open spec fn tick_shown(ns: int, start: int, span: int, rate: int) -> bool {
    let x = ns * rate - start * SECOND;
    0 <= x && x * 100 < 96 * (span * rate)
}

/// The first multiple of `step` that is not left of frame `start`.
pub open spec fn first_tick(start: int, step: int, rate: int) -> int {
    (start * SECOND + step * rate - 1) / (step * rate) * step
}

/// The ticks of a window of `span` nanoseconds from frame `start`: every multiple of the tick
/// spacing that is shown, in order.
pub fn ticks(start: u64, span: u64, rate: u32) -> (r: Vec<Tick>)
    requires
        rate > 0,
        0 < span <= MAX_SPAN,
        start * SECOND / rate as int + 4 * MAX_SPAN <= u64::MAX,
    ensures
        ({
            let step = step_from(0, span as int);
            let first = first_tick(start as int, step, rate as int);
            &&& forall|j: int| #![trigger r@[j]]
                0 <= j < r@.len() ==> r@[j].ns == first + j * step && r@[j].label@ == tick_label(first + j * step, step)
                    && tick_shown(first + j * step, start as int, span as int, rate as int)
            &&& !tick_shown(first + r@.len() * step, start as int, span as int, rate as int)
        }),
{
    let step = tick_step(span);
    let ghost st = step as int;
    let ghost rt = rate as int;
    let ghost origin = start * SECOND;
    assert(0 < st * rt <= 1200 * SECOND * u32::MAX) by (nonlinear_arith)
        requires
            0 < st <= 1200 * SECOND,
            0 < rt <= u32::MAX,
    ;
    let unit: u128 = step as u128 * rate as u128;
    let from: u128 = start as u128 * SECOND as u128;
    let k: u128 = (from + unit - 1) / unit;
    let ghost ki = k as int;
    assert(ki * unit < from + unit && ki * unit >= from && ki >= 0) by (nonlinear_arith)
        requires
            ki == (from + unit - 1) / (unit as int),
            unit > 0,
            from >= 0,
    ;
    let ghost first = ki * st;
    assert(first * rt == ki * unit) by (nonlinear_arith)
        requires
            first == ki * st,
            unit == st * rt,
    ;
    // The first tick lies less than one step behind the start.
    assert(first <= from as int / rt + st + 1 && first >= 0) by (nonlinear_arith)
        requires
            first * rt < from + st * rt,
            first == ki * st,
            ki >= 0,
            st > 0,
            rt > 0,
            from >= 0,
    ;
    assert(ki <= first) by (nonlinear_arith)
        requires
            first == ki * st,
            st >= 1,
            ki >= 0,
    ;
    let mut at: u128 = k * step as u128;
    let mut x: u128 = k * unit - from;
    assert(0 <= span * rt <= MAX_SPAN * u32::MAX) by (nonlinear_arith)
        requires
            0 <= span <= MAX_SPAN,
            0 <= rt <= u32::MAX,
    ;
    let width: u128 = span as u128 * rate as u128;
    let mut out: Vec<Tick> = Vec::new();
    assert(0 * st == 0);
    while x * 100 < 96 * width
        invariant
            st == step,
            rt == rate,
            0 < step <= 1200 * SECOND,
            0 < span <= MAX_SPAN,
            0 < unit == st * rt,
            unit <= 1200 * SECOND * u32::MAX,
            width == span * rt,
            width <= MAX_SPAN * u32::MAX,
            from == start * SECOND,
            rt > 0,
            step == step_from(0, span as int),
            first == first_tick(start as int, st, rt),
            at == first + out@.len() * st,
            x + from == at * rt,
            at <= from as int / rt + MAX_SPAN + 2 * st + 2,
            x <= width + unit,
            from as int / rt + 4 * MAX_SPAN <= u64::MAX,
            forall|j: int| #![trigger out@[j]]
                0 <= j < out@.len() ==> out@[j].ns == first + j * st && out@[j].label@ == tick_label(first + j * st, st)
                    && tick_shown(first + j * st, start as int, span as int, rt),
        decreases width + unit - x,
    {
        let ns: u64 = at as u64;
        let label = label_of(ns, step);
        proof {
            let a = at as int;
            assert(a <= from as int / rt + span + 1) by (nonlinear_arith)
                requires
                    a * rt == x + from,
                    x <= span * rt,
                    rt > 0,
                    from >= 0,
            ;
            assert((a + st) * rt == a * rt + st * rt) by (nonlinear_arith);
            assert((out@.len() + 1) * st == out@.len() * st + st) by (nonlinear_arith);
        }
        out.push(Tick { ns, label });
        at = at + step as u128;
        x = x + unit;
    }
    out
}

// ---- The waveform ----

/// A height in hundredths, from a sample: the axis is at 50, full scale 49 above or below, and the
/// line is `pad` thicker.
pub open spec fn height(v: int, pad: int) -> int {
    let n = (5000 + pad) * 32767 - v * 4900;
    (2 * n + 32767) / 65534
}

/// Hundredths with two decimals.
pub open spec fn height_text(h: int) -> Seq<char> {
    decimal((h / 100) as nat) + "."@ + padded((h % 100) as nat, 2)
}

/// One point of the outline.
pub open spec fn point_text(letter: Seq<char>, i: nat, h: int) -> Seq<char> {
    letter + decimal(i) + ","@ + height_text(h)
}

/// The upper edge of the first `n` columns, from left to right.
pub open spec fn upper_edge(cols: Seq<(i16, i16)>, n: int) -> Seq<char>
    decreases n,
{
    if n <= 0 {
        Seq::empty()
    } else {
        upper_edge(cols, n - 1) + point_text(
            if n == 1 {
                "M"@
            } else {
                "L"@
            },
            (n - 1) as nat,
            height(cols[n - 1].1 as int, -30),
        )
    }
}

/// The lower edge of the first `n` columns, from right to left.
pub open spec fn lower_edge(cols: Seq<(i16, i16)>, n: int) -> Seq<char>
    decreases n,
{
    if n <= 0 {
        Seq::empty()
    } else {
        point_text("L"@, (n - 1) as nat, height(cols[n - 1].0 as int, 30)) + lower_edge(cols, n - 1)
    }
}

fn append_point(out: &mut Vec<char>, letter: &str, i: usize, v: i16, pad: i64)
    requires
        -30 <= pad <= 30,
    ensures
        final(out)@ == old(out)@ + point_text(letter@, i as nat, height(v as int, pad as int)),
{
    let ghost before = out@;
    let n: i64 = (5000 + pad) * 32767 - v as i64 * 4900;
    let h: u64 = (2 * n + 32767) as u64 / 65534;
    append_str(out, letter);
    append_chars(out, &decimal_chars(i as u64));
    append_str(out, ",");
    append_chars(out, &decimal_chars(h / 100));
    append_str(out, ".");
    append_chars(out, &padded_chars(h % 100, 2));
    assert(out@ =~= before + point_text(letter@, i as nat, height(v as int, pad as int)));
}

/// The outline of the columns as an SVG path: along the upper edge, back along the lower one, and
/// closed.
pub fn wave_path(cols: &[(i16, i16)]) -> (r: String)
    ensures
        r@ == upper_edge(cols@, cols@.len() as int) + lower_edge(cols@, cols@.len() as int) + "Z"@,
{
    let n: usize = cols.len();
    let mut out: Vec<char> = Vec::new();
    let mut i: usize = 0;
    while i < n
        invariant
            i <= n,
            n == cols@.len(),
            out@ == upper_edge(cols@, i as int),
        decreases n - i,
    {
        append_point(
            &mut out,
            if i == 0 {
                "M"
            } else {
                "L"
            },
            i,
            cols[i].1,
            -30,
        );
        i += 1;
    }
    let ghost upper = out@;
    assert(out@ + lower_edge(cols@, n as int) =~= upper + lower_edge(cols@, n as int));
    while i > 0
        invariant
            i <= n,
            n == cols@.len(),
            out@ + lower_edge(cols@, i as int) == upper + lower_edge(cols@, n as int),
        decreases i,
    {
        let ghost before = out@;
        i -= 1;
        append_point(&mut out, "L", i, cols[i].0, 30);
        assert(out@ + lower_edge(cols@, i as int) =~= before + lower_edge(cols@, i + 1));
    }
    assert(out@ =~= out@ + lower_edge(cols@, 0));
    append_str(&mut out, "Z");
    string_of(&out)
}

// ---- Bands over the waveform ----

/// The part of `[a, b)` inside the window `[start, end)`: how far into the window it starts, and
/// its length.
pub open spec fn clipped(a: int, b: int, start: int, end: int) -> Option<(int, int)> {
    if b > start && a < end && start < end {
        let from = if a < start {
            start
        } else {
            a
        };
        let to = if b < end {
            b
        } else {
            end
        };
        Some((from - start, to - from))
    } else {
        None
    }
}

pub fn clip(a: u64, b: u64, start: u64, end: u64) -> (r: Option<(u64, u64)>)
    requires
        a <= b,
    ensures
        match r {
            Some((from, len)) => clipped(a as int, b as int, start as int, end as int) == Some(
                (from as int, len as int),
            ),
            None => clipped(a as int, b as int, start as int, end as int) is None,
        },
{
    if b > start && a < end && start < end {
        let from: u64 = if a < start {
            start
        } else {
            a
        };
        let to: u64 = if b < end {
            b
        } else {
            end
        };
        Some((from - start, to - from))
    } else {
        None
    }
}

/// What becomes of a tagged silence.
#[derive(Clone, Copy, Debug, PartialEq, Eq, Structural)]
pub enum SilenceKind {
    /// At the edge of a track, and cut from the export.
    Cut,
    /// At the edge of a track, but kept.
    Kept,
    /// Inside a track: never cut.
    Inside,
}

/// Whether a silence lies at an edge of a track: of the recording, or around a split.
pub open spec fn at_edge(s: Silence, splits: Seq<Split>, total: u64) -> bool {
    let end = if s.end < total {
        s.end
    } else {
        total
    };
    s.start == 0 || end >= total || exists|i: int|
        0 <= i < splits.len() && s.start < (#[trigger] splits[i]).at && splits[i].at < end
}

pub fn silence_kind(edit: &RecordingEdit, s: &Silence, total: u64) -> (r: SilenceKind)
    ensures
        r == if !at_edge(*s, edit.splits@, total) {
            SilenceKind::Inside
        } else if s.keep {
            SilenceKind::Kept
        } else {
            SilenceKind::Cut
        },
{
    let end: u64 = if s.end < total {
        s.end
    } else {
        total
    };
    let mut edge = s.start == 0 || end >= total;
    let mut i: usize = 0;
    while i < edit.splits.len() && !edge
        invariant
            i <= edit.splits@.len(),
            end == if s.end < total {
                s.end
            } else {
                total
            },
            edge ==> at_edge(*s, edit.splits@, total),
            !edge ==> s.start != 0 && end < total && forall|j: int|
                0 <= j < i ==> !(s.start < (#[trigger] edit.splits@[j]).at && edit.splits@[j].at < end),
        decreases edit.splits@.len() - i,
    {
        if s.start < edit.splits[i].at && edit.splits[i].at < end {
            edge = true;
        }
        i += 1;
    }
    if !edge {
        SilenceKind::Inside
    } else if s.keep {
        SilenceKind::Kept
    } else {
        SilenceKind::Cut
    }
}

/// A track that reaches into a window.
#[derive(Clone, Copy, Debug, PartialEq, Eq, Structural)]
pub struct Visible {
    pub track: usize,
    pub from: u64,
    pub len: u64,
}

/// The tracks among the first `n` that reach into the window.
pub open spec fn visible(e: RecordingEdit, total: u64, start: u64, end: u64, n: int) -> Seq<(int, int, int)>
    decreases n,
{
    if n <= 0 {
        Seq::empty()
    } else {
        let before = visible(e, total, start, end, n - 1);
        match clipped(e.bound(total, n - 1) as int, e.bound(total, n) as int, start as int, end as int) {
            Some((from, len)) => before.push((n - 1, from, len)),
            None => before,
        }
    }
}

pub open spec fn visible_views(v: Seq<Visible>) -> Seq<(int, int, int)> {
    v.map_values(|x: Visible| (x.track as int, x.from as int, x.len as int))
}

/// The tracks that reach into the window `[start, end)`, in order.
pub fn visible_tracks(edit: &RecordingEdit, total: u64, start: u64, end: u64) -> (r: Vec<Visible>)
    requires
        edit.wf(),
        edit.splits@.len() < usize::MAX,
    ensures
        visible_views(r@) == visible(*edit, total, start, end, edit.track_count()),
{
    let tracks = edit.tracks(total);
    let mut out: Vec<Visible> = Vec::new();
    let mut k: usize = 0;
    proof {
        edit.lemma_bounds(total);
    }
    assert(visible_views(out@) =~= Seq::<(int, int, int)>::empty());
    while k < tracks.len()
        invariant
            tracks@.len() == edit.track_count(),
            forall|j: int| 0 <= j < tracks@.len() ==> edit.is_track(total, j, #[trigger] tracks@[j]),
            forall|i: int, j: int| i <= j ==> #[trigger] edit.bound(total, i) <= #[trigger] edit.bound(total, j),
            k <= tracks@.len(),
            visible_views(out@) == visible(*edit, total, start, end, k as int),
        decreases tracks@.len() - k,
    {
        let ghost before = out@;
        let t = &tracks[k];
        assert(edit.is_track(total, k as int, *t));
        match clip(t.start, t.end, start, end) {
            Some((from, len)) => {
                let v = Visible { track: k, from, len };
                out.push(v);
                assert(visible_views(out@) =~= visible_views(before).push((k as int, from as int, len as int)));
            },
            None => {},
        }
        k += 1;
    }
    out
}

/// How a part of the recording is marked.
#[derive(Clone, Copy, Debug, PartialEq, Eq, Structural)]
pub enum PartKind {
    /// Left out of the export, and the one that keys act on.
    CutFocus,
    Cut,
    Focus,
    /// Not marked.
    Plain,
}

pub fn part_kind(dropped: bool, focus: bool) -> (r: PartKind)
    ensures
        r == match (dropped, focus) {
            (true, true) => PartKind::CutFocus,
            (true, false) => PartKind::Cut,
            (false, true) => PartKind::Focus,
            (false, false) => PartKind::Plain,
        },
{
    match (dropped, focus) {
        (true, true) => PartKind::CutFocus,
        (true, false) => PartKind::Cut,
        (false, true) => PartKind::Focus,
        (false, false) => PartKind::Plain,
    }
}

/// The name in front, or else "Track" and the number of track `k`.
pub open spec fn named_track(name: Option<Seq<char>>, k: int) -> Seq<char> {
    match name {
        Some(n) => n,
        None => "Track "@ + decimal((k + 1) as nat),
    }
}

/// The label of a part of the recording.
pub open spec fn part_text(kind: PartKind, name: Option<Seq<char>>, k: int) -> Seq<char> {
    match kind {
        PartKind::CutFocus => "✂ cut · X to keep"@,
        PartKind::Cut => "✂ cut"@,
        PartKind::Focus => named_track(name, k) + " · X to cut"@,
        PartKind::Plain => ""@,
    }
}

pub fn part_label(kind: PartKind, name: Option<&str>, k: usize) -> (r: String)
    requires
        k < usize::MAX,
    ensures
        r@ == part_text(
            kind,
            match name {
                Some(n) => Some(n@),
                None => None,
            },
            k as int,
        ),
{
    match kind {
        PartKind::CutFocus => "✂ cut · X to keep".to_owned(),
        PartKind::Cut => "✂ cut".to_owned(),
        PartKind::Plain => "".to_owned(),
        PartKind::Focus => {
            let mut out: Vec<char> = match name {
                Some(n) => chars_of(n),
                None => {
                    let mut t = chars_of("Track ");
                    append_chars(&mut t, &decimal_chars((k + 1) as u64));
                    t
                },
            };
            append_str(&mut out, " · X to cut");
            string_of(&out)
        },
    }
}

/// The number of a track where it starts, with its name if it has one.
pub open spec fn track_text(k: int, name: Option<Seq<char>>) -> Seq<char> {
    match name {
        Some(n) => decimal((k + 1) as nat) + " · "@ + n,
        None => decimal((k + 1) as nat),
    }
}

pub fn track_label(k: usize, name: Option<&str>) -> (r: String)
    requires
        k < usize::MAX,
    ensures
        r@ == track_text(
            k as int,
            match name {
                Some(n) => Some(n@),
                None => None,
            },
        ),
{
    let mut out = decimal_chars((k + 1) as u64);
    match name {
        Some(n) => {
            append_str(&mut out, " · ");
            append_str(&mut out, n);
        },
        None => {},
    }
    string_of(&out)
}

/// The state of the split at which track `k` starts; `None` for the first track.
pub fn track_state(edit: &RecordingEdit, k: usize) -> (r: Option<SplitState>)
    ensures
        r == if 0 < k <= edit.splits@.len() {
            Some(edit.splits@[k - 1].state)
        } else {
            None
        },
{
    if k > 0 && k - 1 < edit.splits.len() {
        Some(edit.splits[k - 1].state)
    } else {
        None
    }
}

// ---- The lists ----

/// How a recording is marked in the list, and what that means.
pub fn status_dot(status: Status) -> (r: (&'static str, &'static str))
    ensures
        (r.0@, r.1@) == match status {
            Status::Done => ("dot done"@, "done"@),
            Status::Exported => ("dot done"@, "done"@),
            Status::InProgress => ("dot active"@, "in progress"@),
            Status::Flagged => ("dot flagged"@, "flagged"@),
            Status::Todo => ("dot"@, "to do"@),
        },
{
    match status {
        Status::Done | Status::Exported => ("dot done", "done"),
        Status::InProgress => ("dot active", "in progress"),
        Status::Flagged => ("dot flagged", "flagged"),
        Status::Todo => ("dot", "to do"),
    }
}

/// What is said about a recording in the list.
#[derive(Clone, Copy, Debug, PartialEq, Eq, Structural)]
pub enum RowNote {
    Queued,
    Measuring,
    Exporting { done: usize, total: usize },
    ExportFailed,
    Scanning,
    ScanFailed,
    /// All splits are confirmed: how many there are.
    Reviewed { confirmed: usize },
    ToReview { confirmed: usize, todo: usize },
    /// No splits: the length.
    Length,
    Waiting,
}

/// What the analysis and the splits say, where no export does.
pub open spec fn scan_note(scan: ScanProgress, confirmed: usize, todo: usize) -> RowNote {
    match scan {
        ScanProgress::Scanning => RowNote::Scanning,
        ScanProgress::Failed => RowNote::ScanFailed,
        ScanProgress::Unknown => RowNote::Waiting,
        ScanProgress::Ready => if confirmed + todo == 0 {
            RowNote::Length
        } else if todo == 0 {
            RowNote::Reviewed { confirmed }
        } else {
            RowNote::ToReview { confirmed, todo }
        },
    }
}

/// A running or failed export goes first, then the analysis, then the splits (`confirmed` and
/// `todo` are how many there are of each).
pub fn row_note(export: Option<&ExportStatus>, scan: ScanProgress, confirmed: usize, todo: usize) -> (r: RowNote)
    ensures
        r == match export {
            Some(ExportStatus::Queued) => RowNote::Queued,
            Some(ExportStatus::Measuring) => RowNote::Measuring,
            Some(ExportStatus::Running { done, total }) => RowNote::Exporting { done: *done, total: *total },
            Some(ExportStatus::Failed(_)) => RowNote::ExportFailed,
            _ => scan_note(scan, confirmed, todo),
        },
{
    match export {
        Some(ExportStatus::Queued) => return RowNote::Queued,
        Some(ExportStatus::Measuring) => return RowNote::Measuring,
        Some(ExportStatus::Running { done, total }) => return RowNote::Exporting { done: *done, total: *total },
        Some(ExportStatus::Failed(_)) => return RowNote::ExportFailed,
        _ => {},
    }
    match scan {
        ScanProgress::Scanning => RowNote::Scanning,
        ScanProgress::Failed => RowNote::ScanFailed,
        ScanProgress::Unknown => RowNote::Waiting,
        ScanProgress::Ready => {
            if confirmed == 0 && todo == 0 {
                RowNote::Length
            } else if todo == 0 {
                RowNote::Reviewed { confirmed }
            } else {
                RowNote::ToReview { confirmed, todo }
            }
        },
    }
}

/// The title shown in a row of the track list: what was typed, or else the track's name.
pub fn row_title(title: &str, name: Option<&str>) -> (r: String)
    ensures
        r@ == if title@.len() > 0 {
            title@
        } else if name is Some && name->0@.len() > 0 {
            name->0@
        } else {
            "untitled"@
        },
{
    if chars_of(title).len() > 0 {
        return title.to_owned();
    }
    match name {
        Some(n) => {
            if chars_of(n).len() > 0 {
                n.to_owned()
            } else {
                "untitled".to_owned()
            }
        },
        None => "untitled".to_owned(),
    }
}

/// Whether a row is shown as left out: dropped, or nothing of it is left.
pub fn row_left_out(dropped: bool, audio_start: u64, audio_end: u64) -> (r: bool)
    ensures
        r == (dropped || audio_end <= audio_start),
{
    dropped || audio_end <= audio_start
}

/// What is said about the review, next to the counts.
#[derive(Clone, Copy, Debug, PartialEq, Eq, Structural)]
pub enum ReviewNote {
    /// The selected split.
    Split(usize),
    /// There are splits to review.
    ReviewNext,
    MarkedDone,
    AllReviewed,
}

pub fn review_note(edit: &RecordingEdit, cur: Option<usize>) -> (r: ReviewNote)
    ensures
        r == if cur is Some && cur->0 < edit.splits@.len() {
            ReviewNote::Split(cur->0)
        } else if of_state(edit.splits@, SplitState::Suggested).len() > 0 {
            ReviewNote::ReviewNext
        } else if edit.status == Status::Done {
            ReviewNote::MarkedDone
        } else {
            ReviewNote::AllReviewed
        },
{
    if let Some(i) = cur {
        if i < edit.splits.len() {
            return ReviewNote::Split(i);
        }
    }
    let (_confirmed, todo) = edit.counts();
    if todo > 0 {
        ReviewNote::ReviewNext
    } else if edit.status == Status::Done {
        ReviewNote::MarkedDone
    } else {
        ReviewNote::AllReviewed
    }
}

// ---- About the source and the export ----

/// The bitrate as text.
pub open spec fn bitrate_words(b: Bitrate) -> Seq<char> {
    match b {
        Bitrate::Cbr(k) => "CBR "@ + decimal(k as nat) + " kbps"@,
        Bitrate::Vbr { min, avg, max } => "VBR "@ + decimal(min as nat) + "–"@ + decimal(max as nat) + " kbps (avg "@
            + decimal(avg as nat) + ")"@,
        Bitrate::Pcm { kbps, .. } => decimal(kbps as nat) + " kbps"@,
        Bitrate::Unknown => "bitrate unknown"@,
    }
}

pub fn bitrate_text(b: Bitrate) -> (r: String)
    ensures
        r@ == bitrate_words(b),
{
    match b {
        Bitrate::Cbr(k) => {
            let mut out = chars_of("CBR ");
            append_chars(&mut out, &decimal_chars(k as u64));
            append_str(&mut out, " kbps");
            string_of(&out)
        },
        Bitrate::Vbr { min, avg, max } => {
            let mut out = chars_of("VBR ");
            append_chars(&mut out, &decimal_chars(min as u64));
            append_str(&mut out, "–");
            append_chars(&mut out, &decimal_chars(max as u64));
            append_str(&mut out, " kbps (avg ");
            append_chars(&mut out, &decimal_chars(avg as u64));
            append_str(&mut out, ")");
            string_of(&out)
        },
        Bitrate::Pcm { kbps, .. } => {
            let mut out = decimal_chars(kbps as u64);
            append_str(&mut out, " kbps");
            string_of(&out)
        },
        Bitrate::Unknown => "bitrate unknown".to_owned(),
    }
}

/// The channels as text.
pub fn channels_text(channels: u16) -> (r: String)
    ensures
        r@ == if channels == 1 {
            "mono"@
        } else if channels == 2 {
            "stereo"@
        } else {
            decimal(channels as nat) + " ch"@
        },
{
    if channels == 1 {
        "mono".to_owned()
    } else if channels == 2 {
        "stereo".to_owned()
    } else {
        let mut out = decimal_chars(channels as u64);
        append_str(&mut out, " ch");
        string_of(&out)
    }
}

/// How many frames the first `n` planned tracks have together.
pub open spec fn planned_frames(planned: Seq<PlannedTrack>, n: int) -> int
    decreases n,
{
    if n <= 0 {
        0
    } else {
        planned_frames(planned, n - 1) + (planned[n - 1].end - planned[n - 1].start)
    }
}

/// A number of bytes, or the most that can be told.
pub open spec fn byte_count(n: int) -> int {
    if n > u64::MAX {
        u64::MAX as int
    } else {
        n
    }
}

/// About how large an export becomes. For the source's own format it is the tracks' share of the
/// file; otherwise the format's estimate for their length.
pub fn export_bytes(planned: &Vec<PlannedTrack>, info: &SourceInfo, facts: &SourceFacts, profile: Profile) -> (r: u64)
    requires
        info.sample_rate > 0,
        forall|i: int| 0 <= i < planned@.len() ==> (#[trigger] planned@[i]).start <= planned@[i].end,
        planned_frames(planned@, planned@.len() as int) <= info.total_samples,
    ensures
        ({
            let frames = planned_frames(planned@, planned@.len() as int);
            if profile.used_for(*facts) == Profile::Original {
                r == if info.total_samples == 0 {
                    0
                } else {
                    byte_count(info.file_size * frames / info.total_samples as int)
                }
            } else {
                let ns = frames * SECOND / info.sample_rate as int;
                r == byte_count(
                    profile.used_for(*facts).byte_rate_1600(*facts) * byte_count(ns) / 1_600_000_000_000,
                )
            }
        }),
{
    let mut frames: u64 = 0;
    let mut i: usize = 0;
    while i < planned.len()
        invariant
            i <= planned@.len(),
            forall|j: int| 0 <= j < planned@.len() ==> (#[trigger] planned@[j]).start <= planned@[j].end,
            frames == planned_frames(planned@, i as int),
            planned_frames(planned@, planned@.len() as int) <= info.total_samples,
        decreases planned@.len() - i,
    {
        proof {
            lemma_planned_grow(planned@, i + 1, planned@.len() as int);
        }
        let t = &planned[i];
        frames = frames + (t.end - t.start);
        i += 1;
    }
    if profile.effective(facts) == Profile::Original {
        if info.total_samples == 0 {
            return 0;
        }
        let f: u128 = frames as u128;
        let size: u128 = info.file_size as u128;
        assert(0 <= size * f <= u64::MAX * u64::MAX) by (nonlinear_arith)
            requires
                0 <= size <= u64::MAX,
                0 <= f <= u64::MAX,
        ;
        let n: u128 = size * f / info.total_samples as u128;
        if n > u64::MAX as u128 {
            u64::MAX
        } else {
            n as u64
        }
    } else {
        let ns: u128 = frames as u128 * SECOND as u128 / info.sample_rate as u128;
        let ns: u64 = if ns > u64::MAX as u128 {
            u64::MAX
        } else {
            ns as u64
        };
        profile.estimate_bytes(facts, ns)
    }
}

/// More tracks have no fewer frames.
proof fn lemma_planned_grow(planned: Seq<PlannedTrack>, m: int, n: int)
    requires
        0 <= m <= n <= planned.len(),
        forall|i: int| 0 <= i < planned.len() ==> (#[trigger] planned[i]).start <= planned[i].end,
    ensures
        planned_frames(planned, m) <= planned_frames(planned, n),
    decreases n,
{
    if m < n {
        lemma_planned_grow(planned, m, n - 1);
        assert(planned[n - 1].start <= planned[n - 1].end);
    }
}

/// What is said about a pasted list of titles.
pub open spec fn paste_text(titles: nat, kept: nat) -> Seq<char> {
    decimal(titles) + " titles for "@ + decimal(kept) + " kept tracks"@ + if titles > kept {
        " — the extra titles will be ignored"@
    } else if titles < kept && titles > 0 {
        " — the last tracks keep their titles"@
    } else {
        ""@
    }
}

pub fn paste_note(titles: usize, kept: usize) -> (r: String)
    ensures
        r@ == paste_text(titles as nat, kept as nat),
{
    let mut out = decimal_chars(titles as u64);
    append_str(&mut out, " titles for ");
    append_chars(&mut out, &decimal_chars(kept as u64));
    append_str(&mut out, " kept tracks");
    if titles > kept {
        append_str(&mut out, " — the extra titles will be ignored");
    } else if titles < kept && titles > 0 {
        append_str(&mut out, " — the last tracks keep their titles");
    } else {
        append_str(&mut out, "");
    }
    string_of(&out)
}

} // verus!

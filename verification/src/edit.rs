//! Per-recording edit state: split points, their review state, and what is cut on export.
//!
//! Positions are sample frames at the recording's own sample rate. Track `k` runs from split
//! `k-1` (or the start) to split `k` (or the end), so tracks never overlap or leave gaps.
//! Silence tagged by detection is cut from a track's edges on export unless the user keeps it.
use vstd::prelude::*;
use crate::recording::Status;
use crate::text::{append_chars, append_str, chars_of, decimal, decimal_chars, string_of, trim, trimmed};

verus! {

#[derive(Clone, Copy, Debug, PartialEq, Eq, Structural)]
pub enum SplitState {
    /// Proposed by silence detection, not yet reviewed.
    Suggested,
    /// Accepted (or placed by hand).
    Confirmed,
}

/// What the user decided about one track.
#[derive(Clone, Debug, PartialEq, Eq)]
pub struct TrackMeta {
    pub title: String,
    /// Left out of the export (talk, tuning, applause…).
    pub drop: bool,
}

/// A track's metadata with its title as a sequence of characters.
pub struct MetaView {
    pub title: Seq<char>,
    pub drop: bool,
}

impl View for TrackMeta {
    type V = MetaView;

    open spec fn view(&self) -> MetaView {
        MetaView { title: self.title@, drop: self.drop }
    }
}

impl MetaView {
    /// Neither titled nor left out.
    pub open spec fn plain(self) -> bool {
        self.title.len() == 0 && !self.drop
    }
}

impl Default for TrackMeta {
    fn default() -> (r: TrackMeta)
        ensures
            r@.plain(),
    {
        TrackMeta { title: String::new(), drop: false }
    }
}

impl TrackMeta {
    /// Whether nothing has been decided: no title, not left out.
    pub fn is_default(&self) -> (r: bool)
        ensures
            r == self@.plain(),
    {
        self.title.as_str().is_empty() && !self.drop
    }

    /// An equal copy.
    pub fn dup(&self) -> (r: TrackMeta)
        ensures
            r == *self,
    {
        TrackMeta { title: self.title.clone(), drop: self.drop }
    }

    /// Whether both hold the same title and flag.
    pub fn same(&self, other: &TrackMeta) -> (r: bool)
        ensures
            r == (self@ == other@),
    {
        self.title == other.title && self.drop == other.drop
    }
}

#[derive(Clone, Debug, PartialEq, Eq)]
pub struct Split {
    pub at: u64,
    pub state: SplitState,
    /// Length of the silence this suggestion came from, in nanoseconds.
    pub silence: Option<u64>,
    /// The track that starts at this split. Keeping it on the split means titles follow
    /// their track when splits are added, moved or removed.
    pub track: TrackMeta,
}

/// A split with its track's metadata as a `MetaView`.
pub struct SplitView {
    pub at: u64,
    pub state: SplitState,
    pub silence: Option<u64>,
    pub track: MetaView,
}

impl View for Split {
    type V = SplitView;

    open spec fn view(&self) -> SplitView {
        SplitView { at: self.at, state: self.state, silence: self.silence, track: self.track@ }
    }
}

impl Split {
    /// A split placed by hand.
    pub fn confirmed(at: u64) -> (r: Split)
        ensures
            r.at == at,
            r.state == SplitState::Confirmed,
            r.silence == None::<u64>,
            r.track@.plain(),
    {
        Split { at, state: SplitState::Confirmed, silence: None, track: TrackMeta::default() }
    }

    /// A split proposed in the middle of a silence of the given length.
    pub fn suggested(at: u64, silence_ns: u64) -> (r: Split)
        ensures
            r.at == at,
            r.state == SplitState::Suggested,
            r.silence == Some(silence_ns),
            r.track@.plain(),
    {
        Split { at, state: SplitState::Suggested, silence: Some(silence_ns), track: TrackMeta::default() }
    }

    /// An equal copy.
    pub fn dup(&self) -> (r: Split)
        ensures
            r == *self,
    {
        Split { at: self.at, state: self.state, silence: self.silence, track: self.track.dup() }
    }

    /// Whether both are the same in every field.
    pub fn same(&self, other: &Split) -> (r: bool)
        ensures
            r == (self@ == other@),
    {
        let silence = match (self.silence, other.silence) {
            (None, None) => true,
            (Some(a), Some(b)) => a == b,
            _ => false,
        };
        self.at == other.at && self.state == other.state && silence && self.track.same(&other.track)
    }
}

/// A quiet stretch found by detection, `[start, end)`. Where it touches a track's edge (the
/// recording's lead-in or tail, or the gap around a split) that part is cut from the export,
/// unless `keep` is set. Silence in the middle of a track is never cut.
#[derive(Clone, Copy, Debug, PartialEq, Eq, Structural)]
pub struct Silence {
    pub start: u64,
    pub end: u64,
    pub keep: bool,
}

/// What silence detection looks for. Loudness is given in millionths of a decibel, durations
/// in nanoseconds.
#[derive(Clone, Copy, Debug, PartialEq, Eq, Structural)]
pub struct DetectParams {
    /// Loudness below this counts as silence (full scale, mean square over 50 ms).
    pub threshold_udb: i32,
    /// Silences shorter than this are ignored.
    pub min_silence_ns: u64,
    /// Two suggestions closer than this keep only the one with the longer silence.
    pub min_track_ns: u64,
}

/// Quieter than -45 dB for 1.5 s or more; tracks of 30 s or more.
pub open spec fn default_params() -> DetectParams {
    DetectParams { threshold_udb: (-45_000_000) as i32, min_silence_ns: 1_500_000_000, min_track_ns: 30_000_000_000 }
}

impl Default for DetectParams {
    fn default() -> (r: DetectParams)
        ensures
            r == default_params(),
    {
        DetectParams { threshold_udb: -45_000_000, min_silence_ns: 1_500_000_000, min_track_ns: 30_000_000_000 }
    }
}

/// One track as shown and exported: `[start, end)` plus its metadata.
#[derive(Clone, Debug, PartialEq)]
pub struct Track<'a> {
    /// 0-based position in the recording (dropped tracks counted too).
    pub index: usize,
    pub start: u64,
    pub end: u64,
    /// What gets exported: `[start, end)` minus the silence cut at either edge. Empty when the
    /// whole track is cut silence.
    pub audio_start: u64,
    pub audio_end: u64,
    pub meta: &'a TrackMeta,
}

impl Track<'_> {
    /// The length of what gets exported.
    pub open spec fn len(&self) -> int {
        if self.audio_end > self.audio_start {
            self.audio_end - self.audio_start
        } else {
            0
        }
    }

    /// Frames of audio to export.
    pub fn audio_len(&self) -> (r: u64)
        ensures
            r == self.len(),
    {
        self.audio_end.saturating_sub(self.audio_start)
    }

    /// Not left out, and not all cut silence.
    pub fn exported(&self) -> (r: bool)
        ensures
            r == (!self.meta.drop && self.len() > 0),
    {
        !self.meta.drop && self.audio_len() > 0
    }
}

/// All that is known about one recording.
#[derive(Clone, Debug, PartialEq)]
pub struct RecordingEdit {
    pub status: Status,
    pub detect: DetectParams,
    /// Whether detection has run once; later runs only happen on request.
    pub detected: bool,
    /// The first track (the others hang off their starting split).
    pub head: TrackMeta,
    /// Sorted by `at`, no duplicates, all strictly inside the recording.
    pub splits: Vec<Split>,
    /// Sorted, non-overlapping.
    pub silences: Vec<Silence>,
    /// Whether `silences` has been filled in (cutlists from before silence tagging lack it).
    pub silences_detected: bool,
}

impl Default for RecordingEdit {
    fn default() -> (r: RecordingEdit)
        ensures
            r.status == Status::Todo,
            r.detect == default_params(),
            !r.detected,
            r.head@.plain(),
            r.splits@.len() == 0,
            r.silences@.len() == 0,
            !r.silences_detected,
    {
        RecordingEdit {
            status: Status::Todo,
            detect: DetectParams::default(),
            detected: false,
            head: TrackMeta::default(),
            splits: Vec::new(),
            silences: Vec::new(),
            silences_detected: false,
        }
    }
}

/// In strictly increasing order of position.
pub open spec fn sorted(s: Seq<Split>) -> bool {
    forall|i: int, j: int| 0 <= i < j < s.len() ==> (#[trigger] s[i]).at < (#[trigger] s[j]).at
}

/// Non-empty and in order, without overlap.
pub open spec fn silences_sorted(s: Seq<Silence>) -> bool {
    &&& forall|i: int| 0 <= i < s.len() ==> (#[trigger] s[i]).start < s[i].end
    &&& forall|i: int, j: int| 0 <= i < j < s.len() ==> (#[trigger] s[i]).end <= (#[trigger] s[j]).start
}

/// `x` put in its place among `s`, in place of what was at the same position.
pub open spec fn inserted(s: Seq<Split>, x: Split) -> Seq<Split> {
    s.filter(|y: Split| y.at < x.at).push(x) + s.filter(|y: Split| y.at > x.at)
}

/// The distance between two positions.
pub open spec fn distance(a: u64, b: u64) -> int {
    if a < b {
        b - a
    } else {
        a - b
    }
}

/// `distance` of two positions.
pub fn abs_diff(a: u64, b: u64) -> (r: u64)
    ensures
        r == distance(a, b),
{
    if a < b {
        b - a
    } else {
        a - b
    }
}

/// The least of two positions.
pub open spec fn least(a: u64, b: u64) -> u64 {
    if a < b {
        a
    } else {
        b
    }
}

/// The greatest of two positions.
pub open spec fn greatest(a: u64, b: u64) -> u64 {
    if a < b {
        b
    } else {
        a
    }
}

fn min_of(a: u64, b: u64) -> (r: u64)
    ensures
        r == least(a, b),
{
    if a < b {
        a
    } else {
        b
    }
}

fn max_of(a: u64, b: u64) -> (r: u64)
    ensures
        r == greatest(a, b),
{
    if a < b {
        b
    } else {
        a
    }
}

proof fn lemma_filter_all(s: Seq<Split>, p: spec_fn(Split) -> bool)
    requires
        forall|i: int| 0 <= i < s.len() ==> p(#[trigger] s[i]),
    ensures
        s.filter(p) == s,
    decreases s.len(),
{
    reveal(Seq::filter);
    if s.len() > 0 {
        let t = s.drop_last();
        assert forall|i: int| 0 <= i < t.len() implies p(#[trigger] t[i]) by {
            assert(t[i] == s[i]);
        }
        lemma_filter_all(t, p);
        assert(p(s[s.len() - 1]));
        assert(t.push(s.last()) =~= s);
    }
}

proof fn lemma_filter_none(s: Seq<Split>, p: spec_fn(Split) -> bool)
    requires
        forall|i: int| 0 <= i < s.len() ==> !p(#[trigger] s[i]),
    ensures
        s.filter(p).len() == 0,
    decreases s.len(),
{
    reveal(Seq::filter);
    if s.len() > 0 {
        let t = s.drop_last();
        assert forall|i: int| 0 <= i < t.len() implies !p(#[trigger] t[i]) by {
            assert(t[i] == s[i]);
        }
        lemma_filter_none(t, p);
        assert(!p(s[s.len() - 1]));
    }
}

/// Where everything before `i` satisfies `p` and nothing from `i` on does, filtering takes the
/// first `i` items.
proof fn lemma_filter_prefix(s: Seq<Split>, p: spec_fn(Split) -> bool, i: int)
    requires
        0 <= i <= s.len(),
        forall|k: int| 0 <= k < i ==> p(#[trigger] s[k]),
        forall|k: int| i <= k < s.len() ==> !p(#[trigger] s[k]),
    ensures
        s.filter(p) == s.take(i),
{
    let a = s.take(i);
    let b = s.skip(i);
    assert(a + b =~= s);
    Seq::filter_distributes_over_add(a, b, p);
    assert forall|k: int| 0 <= k < b.len() implies !p(#[trigger] b[k]) by {
        assert(b[k] == s[k + i]);
    }
    lemma_filter_all(a, p);
    lemma_filter_none(b, p);
    assert(a + b.filter(p) =~= a);
}

/// Where nothing before `i` satisfies `p` and everything from `i` on does, filtering skips the
/// first `i` items.
proof fn lemma_filter_suffix(s: Seq<Split>, p: spec_fn(Split) -> bool, i: int)
    requires
        0 <= i <= s.len(),
        forall|k: int| 0 <= k < i ==> !p(#[trigger] s[k]),
        forall|k: int| i <= k < s.len() ==> p(#[trigger] s[k]),
    ensures
        s.filter(p) == s.skip(i),
{
    let a = s.take(i);
    let b = s.skip(i);
    assert(a + b =~= s);
    Seq::filter_distributes_over_add(a, b, p);
    assert forall|k: int| 0 <= k < b.len() implies p(#[trigger] b[k]) by {
        assert(b[k] == s[k + i]);
    }
    lemma_filter_none(a, p);
    lemma_filter_all(b, p);
    assert(a.filter(p) + b =~= b);
}

/// Everything but the splits is the same.
pub open spec fn same_but_splits(a: RecordingEdit, b: RecordingEdit) -> bool {
    &&& a.status == b.status
    &&& a.detect == b.detect
    &&& a.detected == b.detected
    &&& a.head == b.head
    &&& a.silences == b.silences
    &&& a.silences_detected == b.silences_detected
}

impl RecordingEdit {
    /// The splits are in order, no two at one position.
    pub open spec fn wf(&self) -> bool {
        sorted(self.splits@)
    }

    /// How many splits lie before `at`.
    fn lower_bound(&self, at: u64) -> (r: usize)
        requires
            self.wf(),
        ensures
            r <= self.splits@.len(),
            forall|k: int| 0 <= k < r ==> (#[trigger] self.splits@[k]).at < at,
            forall|k: int| r <= k < self.splits@.len() ==> (#[trigger] self.splits@[k]).at >= at,
    {
        let mut lo: usize = 0;
        let mut hi: usize = self.splits.len();
        while lo < hi
            invariant
                self.wf(),
                lo <= hi <= self.splits@.len(),
                forall|k: int| 0 <= k < lo ==> (#[trigger] self.splits@[k]).at < at,
                forall|k: int| hi <= k < self.splits@.len() ==> (#[trigger] self.splits@[k]).at >= at,
            decreases hi - lo,
        {
            let mid: usize = lo + (hi - lo) / 2;
            if self.splits[mid].at < at {
                lo = mid + 1;
            } else {
                hi = mid;
            }
        }
        lo
    }

    /// Insert keeping order; a split already at exactly `at` is replaced. Returns its index.
    pub fn insert(&mut self, split: Split) -> (r: usize)
        requires
            old(self).wf(),
        ensures
            final(self).wf(),
            same_but_splits(*final(self), *old(self)),
            final(self).splits@ == inserted(old(self).splits@, split),
            r < final(self).splits@.len(),
            final(self).splits@[r as int] == split,
    {
        let i = self.lower_bound(split.at);
        let ghost s = self.splits@;
        let ghost x = split;
        proof {
            lemma_filter_prefix(s, |y: Split| y.at < x.at, i as int);
        }
        if i < self.splits.len() && self.splits[i].at == split.at {
            proof {
                lemma_filter_suffix(s, |y: Split| y.at > x.at, i + 1);
                assert(s.take(i as int).push(x) + s.skip(i + 1) =~= s.update(i as int, x));
            }
            self.splits.set(i, split);
        } else {
            proof {
                lemma_filter_suffix(s, |y: Split| y.at > x.at, i as int);
                assert(s.take(i as int).push(x) + s.skip(i as int) =~= s.insert(i as int, x));
            }
            self.splits.insert(i, split);
        }
        i
    }

    /// Take split `i` out, if there is one.
    pub fn remove(&mut self, i: usize) -> (r: Option<Split>)
        requires
            old(self).wf(),
        ensures
            final(self).wf(),
            same_but_splits(*final(self), *old(self)),
            i < old(self).splits@.len() ==> r == Some(old(self).splits@[i as int]) && final(self).splits@
                == old(self).splits@.remove(i as int),
            i >= old(self).splits@.len() ==> r == None::<Split> && *final(self) == *old(self),
    {
        if i < self.splits.len() {
            Some(self.splits.remove(i))
        } else {
            None
        }
    }

    /// Move split `i` to `at`. Returns its new index (it may pass its neighbours).
    pub fn move_to(&mut self, i: usize, at: u64) -> (r: usize)
        requires
            old(self).wf(),
        ensures
            final(self).wf(),
            same_but_splits(*final(self), *old(self)),
            i >= old(self).splits@.len() ==> r == i && *final(self) == *old(self),
            i < old(self).splits@.len() ==> {
                let moved = Split { at, ..old(self).splits@[i as int] };
                &&& final(self).splits@ == inserted(old(self).splits@.remove(i as int), moved)
                &&& r < final(self).splits@.len()
                &&& final(self).splits@[r as int] == moved
            },
    {
        match self.remove(i) {
            None => i,
            Some(s) => {
                let mut s = s;
                s.at = at;
                self.insert(s)
            },
        }
    }

    /// Accept split `i`.
    pub fn confirm(&mut self, i: usize)
        ensures
            same_but_splits(*final(self), *old(self)),
            old(self).wf() ==> final(self).wf(),
            i < old(self).splits@.len() ==> final(self).splits@ == old(self).splits@.update(
                i as int,
                Split { state: SplitState::Confirmed, ..old(self).splits@[i as int] },
            ),
            i >= old(self).splits@.len() ==> *final(self) == *old(self),
    {
        if i < self.splits.len() {
            let ghost before = self.splits@;
            let mut s = self.splits[i].dup();
            s.state = SplitState::Confirmed;
            self.splits.set(i, s);
            assert(self.splits@ =~= before.update(i as int, Split { state: SplitState::Confirmed, ..before[i as int] }));
        }
    }
}


/// Whether split `i` still waits to be reviewed.
pub open spec fn to_review(s: Seq<Split>, i: int) -> bool {
    s[i].state == SplitState::Suggested
}

/// `r` is the first split to review when the splits are gone through from index `begin` to the
/// end and then from the start up to `begin`.
pub open spec fn first_to_review(s: Seq<Split>, begin: int, r: Option<usize>) -> bool {
    match r {
        None => forall|k: int| 0 <= k < s.len() ==> !#[trigger] to_review(s, k),
        Some(i) => {
            &&& i < s.len()
            &&& to_review(s, i as int)
            &&& i >= begin ==> forall|k: int| begin <= k < i ==> !#[trigger] to_review(s, k)
            &&& i < begin ==> forall|k: int|
                0 <= k < s.len() && (k < i || k >= begin) ==> !#[trigger] to_review(s, k)
        },
    }
}

/// The index at which a search after `from` starts, wrapping around.
pub open spec fn review_start(n: int, from: Option<usize>) -> int {
    match from {
        None => 0,
        Some(i) => (i + 1) % n,
    }
}

/// `r` is the first split after `pos`.
pub open spec fn first_after(s: Seq<Split>, pos: int, r: Option<usize>) -> bool {
    match r {
        None => forall|k: int| 0 <= k < s.len() ==> (#[trigger] s[k]).at <= pos,
        Some(i) => {
            &&& i < s.len()
            &&& s[i as int].at > pos
            &&& forall|k: int| 0 <= k < i ==> (#[trigger] s[k]).at <= pos
        },
    }
}

/// `r` is the last split before `pos`.
pub open spec fn last_before(s: Seq<Split>, pos: int, r: Option<usize>) -> bool {
    match r {
        None => forall|k: int| 0 <= k < s.len() ==> (#[trigger] s[k]).at >= pos,
        Some(i) => {
            &&& i < s.len()
            &&& s[i as int].at < pos
            &&& forall|k: int| i < k < s.len() ==> (#[trigger] s[k]).at >= pos
        },
    }
}

/// Whether `pos` lies in the silence.
pub open spec fn within(s: Silence, pos: u64) -> bool {
    s.start <= pos < s.end
}

/// Whether two silences share a position.
pub open spec fn overlaps(a: Silence, b: Silence) -> bool {
    a.start < b.end && b.start < a.end
}

/// Whether one of `old` that the user chose to keep overlaps `s`.
pub open spec fn kept_before(old: Seq<Silence>, s: Silence) -> bool {
    exists|k: int| 0 <= k < old.len() && (#[trigger] old[k]).keep && overlaps(old[k], s)
}

/// The suggestion `s` is far enough from everything the user confirmed, and on none of it.
pub open spec fn clear_of(confirmed: Seq<Split>, s: Split, min_gap: u64) -> bool {
    forall|k: int|
        0 <= k < confirmed.len() ==> distance((#[trigger] confirmed[k]).at, s.at) >= min_gap && confirmed[k].at != s.at
}

/// Whether a decision on the old suggestion `o` carries over to the new one `s`.
pub open spec fn hands_on(o: Split, s: Split, min_gap: u64) -> bool {
    !o.track@.plain() && distance(o.at, s.at) < min_gap
}

/// `s` with the title and flag of the first old suggestion nearby that has any.
pub open spec fn with_carried(old: Seq<Split>, s: Split, min_gap: u64) -> Split
    decreases old.len(),
{
    if old.len() == 0 {
        s
    } else if hands_on(old[0], s, min_gap) {
        Split { track: old[0].track, ..s }
    } else {
        with_carried(old.skip(1), s, min_gap)
    }
}

/// `base` with the suggestions put in one after the other, except those too close to a
/// confirmed split.
pub open spec fn with_suggestions(
    base: Seq<Split>,
    confirmed: Seq<Split>,
    old: Seq<Split>,
    suggestions: Seq<Split>,
    min_gap: u64,
) -> Seq<Split>
    decreases suggestions.len(),
{
    if suggestions.len() == 0 {
        base
    } else {
        let s = suggestions.last();
        let before = with_suggestions(base, confirmed, old, suggestions.drop_last(), min_gap);
        if clear_of(confirmed, s, min_gap) {
            inserted(before, with_carried(old, s, min_gap))
        } else {
            before
        }
    }
}

/// The splits of a given state, in order.
pub open spec fn of_state(s: Seq<Split>, state: SplitState) -> Seq<Split> {
    s.filter(|x: Split| x.state == state)
}

/// Choosing from a sorted list leaves it sorted.
pub proof fn lemma_filter_sorted(s: Seq<Split>, p: spec_fn(Split) -> bool)
    requires
        sorted(s),
    ensures
        sorted(s.filter(p)),
        forall|k: int| 0 <= k < s.filter(p).len() ==> s.contains(#[trigger] s.filter(p)[k]),
    decreases s.len(),
{
    reveal(Seq::filter);
    if s.len() > 0 {
        let t = s.drop_last();
        lemma_filter_sorted(t, p);
        let f = t.filter(p);
        assert forall|k: int| 0 <= k < s.filter(p).len() implies s.contains(#[trigger] s.filter(p)[k]) by {
            if k < f.len() {
                assert(t.contains(f[k]));
                let j = choose|j: int| 0 <= j < t.len() && t[j] == f[k];
                assert(s[j] == f[k]);
            } else {
                assert(s[s.len() - 1] == s.last());
            }
        }
        assert forall|i: int, j: int| 0 <= i < j < s.filter(p).len() implies (#[trigger] s.filter(p)[i]).at
            < (#[trigger] s.filter(p)[j]).at by {
            if j == f.len() {
                assert(t.contains(f[i]));
                let m = choose|m: int| 0 <= m < t.len() && t[m] == f[i];
                assert(s[m] == f[i]);
                assert(s[s.len() - 1] == s.last());
            }
        }
    }
}

/// `r` is the split closest to `pos` within `max_dist`; of two as close, the first.
pub open spec fn closest(s: Seq<Split>, pos: u64, max_dist: u64, r: Option<usize>) -> bool {
    match r {
        None => forall|k: int| 0 <= k < s.len() ==> distance((#[trigger] s[k]).at, pos) > max_dist,
        Some(i) => {
            &&& i < s.len()
            &&& distance(s[i as int].at, pos) <= max_dist
            &&& forall|k: int|
                0 <= k < s.len() ==> distance((#[trigger] s[k]).at, pos) >= distance(s[i as int].at, pos)
            &&& forall|k: int| 0 <= k < i ==> distance((#[trigger] s[k]).at, pos) > distance(s[i as int].at, pos)
        },
    }
}

/// Counting one item more.
proof fn lemma_filter_step(s: Seq<Split>, p: spec_fn(Split) -> bool, i: int)
    requires
        0 <= i < s.len(),
    ensures
        s.take(i + 1).filter(p) == if p(s[i]) {
            s.take(i).filter(p).push(s[i])
        } else {
            s.take(i).filter(p)
        },
{
    reveal(Seq::filter);
    assert(s.take(i + 1).drop_last() =~= s.take(i));
    assert(s.take(i + 1).last() == s[i]);
}

impl RecordingEdit {
    /// First split strictly after `pos`.
    pub fn next_after(&self, pos: u64) -> (r: Option<usize>)
        requires
            self.wf(),
        ensures
            first_after(self.splits@, pos as int, r),
    {
        if pos == u64::MAX {
            return None;
        }
        let i = self.lower_bound(pos + 1);
        if i < self.splits.len() {
            Some(i)
        } else {
            None
        }
    }

    /// Last split strictly before `pos`.
    pub fn prev_before(&self, pos: u64) -> (r: Option<usize>)
        requires
            self.wf(),
        ensures
            last_before(self.splits@, pos as int, r),
    {
        let i = self.lower_bound(pos);
        if i == 0 {
            None
        } else {
            Some(i - 1)
        }
    }

    /// Next suggestion to review after index `from` (or from the start), wrapping around.
    pub fn next_to_review(&self, from: Option<usize>) -> (r: Option<usize>)
        requires
            from matches Some(i) ==> i < usize::MAX,
        ensures
            self.splits@.len() == 0 ==> r == None::<usize>,
            self.splits@.len() > 0 ==> first_to_review(self.splits@, review_start(self.splits@.len() as int, from), r),
    {
        let n: usize = self.splits.len();
        if n == 0 {
            return None;
        }
        let begin: usize = match from {
            None => 0,
            Some(i) => (i + 1) % n,
        };
        let mut i: usize = begin;
        while i < n
            invariant
                begin <= i <= n == self.splits@.len(),
                begin == review_start(n as int, from),
                forall|k: int| begin <= k < i ==> !#[trigger] to_review(self.splits@, k),
            decreases n - i,
        {
            if self.splits[i].state == SplitState::Suggested {
                assert(to_review(self.splits@, i as int));
                return Some(i);
            }
            i += 1;
        }
        i = 0;
        while i < begin
            invariant
                i <= begin <= n == self.splits@.len(),
                begin == review_start(n as int, from),
                forall|k: int| begin <= k < n ==> !#[trigger] to_review(self.splits@, k),
                forall|k: int| 0 <= k < i ==> !#[trigger] to_review(self.splits@, k),
            decreases begin - i,
        {
            if self.splits[i].state == SplitState::Suggested {
                assert(to_review(self.splits@, i as int));
                return Some(i);
            }
            i += 1;
        }
        None
    }

    /// Split closest to `pos`, if within `max_dist`.
    pub fn nearest(&self, pos: u64, max_dist: u64) -> (r: Option<usize>)
        ensures
            closest(self.splits@, pos, max_dist, r),
    {
        let mut best: Option<usize> = None;
        let mut i: usize = 0;
        while i < self.splits.len()
            invariant
                i <= self.splits@.len(),
                closest(self.splits@.take(i as int), pos, max_dist, best),
            decreases self.splits@.len() - i,
        {
            let ghost s = self.splits@;
            let d = abs_diff(self.splits[i].at, pos);
            assert(forall|k: int| 0 <= k < i ==> s.take(i as int)[k] == s.take(i + 1)[k]);
            assert(s.take(i + 1)[i as int] == s[i as int]);
            match best {
                None => {
                    if d <= max_dist {
                        best = Some(i);
                    }
                },
                Some(b) => {
                    if d < abs_diff(self.splits[b].at, pos) {
                        best = Some(i);
                    }
                },
            }
            assert(closest(s.take(i + 1), pos, max_dist, best)) by {
                assert(forall|k: int| 0 <= k < i ==> s.take(i + 1)[k] == s.take(i as int)[k]);
            }
            i += 1;
        }
        assert(self.splits@.take(i as int) =~= self.splits@);
        best
    }

    /// How many splits are confirmed, and how many only suggested.
    pub fn counts(&self) -> (r: (usize, usize))
        ensures
            r.0 == of_state(self.splits@, SplitState::Confirmed).len(),
            r.1 == of_state(self.splits@, SplitState::Suggested).len(),
            r.0 + r.1 == self.splits@.len(),
    {
        let ghost p = |x: Split| x.state == SplitState::Confirmed;
        let ghost q = |x: Split| x.state == SplitState::Suggested;
        let mut confirmed: usize = 0;
        let mut i: usize = 0;
        proof {
            reveal(Seq::filter);
        }
        while i < self.splits.len()
            invariant
                p == (|x: Split| x.state == SplitState::Confirmed),
                q == (|x: Split| x.state == SplitState::Suggested),
                i <= self.splits@.len(),
                confirmed <= i,
                confirmed == self.splits@.take(i as int).filter(p).len(),
                i - confirmed == self.splits@.take(i as int).filter(q).len(),
            decreases self.splits@.len() - i,
        {
            proof {
                lemma_filter_step(self.splits@, p, i as int);
                lemma_filter_step(self.splits@, q, i as int);
            }
            if self.splits[i].state == SplitState::Confirmed {
                confirmed += 1;
            }
            i += 1;
        }
        assert(self.splits@.take(i as int) =~= self.splits@);
        (confirmed, self.splits.len() - confirmed)
    }

    /// Replace the tagged silences. One the user chose to keep stays kept if it overlaps a new one.
    pub fn set_silences(&mut self, silences: Vec<Silence>)
        ensures
            final(self).silences@.len() == silences@.len(),
            forall|i: int| #![trigger final(self).silences@[i]]
                0 <= i < silences@.len() ==> final(self).silences@[i] == (Silence {
                    keep: kept_before(old(self).silences@, silences@[i]),
                    ..silences@[i]
                }),
            final(self).silences_detected,
            final(self).splits == old(self).splits,
            final(self).head == old(self).head,
            final(self).status == old(self).status,
            final(self).detect == old(self).detect,
            final(self).detected == old(self).detected,
    {
        let mut out: Vec<Silence> = Vec::new();
        let mut i: usize = 0;
        while i < silences.len()
            invariant
                i <= silences@.len(),
                out@.len() == i,
                forall|k: int| #![trigger out@[k]]
                    0 <= k < i ==> out@[k] == (Silence { keep: kept_before(self.silences@, silences@[k]), ..silences@[k] }),
            decreases silences@.len() - i,
        {
            let s = silences[i];
            let mut keep = false;
            let mut j: usize = 0;
            while j < self.silences.len()
                invariant
                    j <= self.silences@.len(),
                    keep == exists|k: int| 0 <= k < j && (#[trigger] self.silences@[k]).keep && overlaps(self.silences@[k], s),
                decreases self.silences@.len() - j,
            {
                let o = self.silences[j];
                if o.keep && o.start < s.end && s.start < o.end {
                    assert(self.silences@[j as int].keep && overlaps(self.silences@[j as int], s));
                    keep = true;
                }
                j += 1;
            }
            out.push(Silence { start: s.start, end: s.end, keep });
            i += 1;
        }
        self.silences = out;
        self.silences_detected = true;
    }

    /// The silence containing `pos`.
    pub fn silence_at(&self, pos: u64) -> (r: Option<usize>)
        requires
            silences_sorted(self.silences@),
        ensures
            r matches Some(i) ==> i < self.silences@.len() && within(self.silences@[i as int], pos),
            r is None ==> forall|k: int| 0 <= k < self.silences@.len() ==> !within(#[trigger] self.silences@[k], pos),
    {
        let mut lo: usize = 0;
        let mut hi: usize = self.silences.len();
        while lo < hi
            invariant
                silences_sorted(self.silences@),
                lo <= hi <= self.silences@.len(),
                forall|k: int| 0 <= k < lo ==> (#[trigger] self.silences@[k]).end <= pos,
                forall|k: int| hi <= k < self.silences@.len() ==> (#[trigger] self.silences@[k]).end > pos,
            decreases hi - lo,
        {
            let mid: usize = lo + (hi - lo) / 2;
            if self.silences[mid].end <= pos {
                lo = mid + 1;
            } else {
                hi = mid;
            }
        }
        if lo < self.silences.len() && self.silences[lo].start <= pos {
            Some(lo)
        } else {
            None
        }
    }

    /// Replace all unreviewed suggestions with `suggestions`, dropping any that land within
    /// `min_gap` of a confirmed split or on one (the user already decided that area).
    /// A title or drop flag on a replaced suggestion carries over to a new one nearby.
    pub fn apply_detection(&mut self, suggestions: Vec<Split>, min_gap: u64)
        requires
            old(self).wf(),
        ensures
            final(self).wf(),
            final(self).detected,
            final(self).splits@ == with_suggestions(
                of_state(old(self).splits@, SplitState::Confirmed),
                of_state(old(self).splits@, SplitState::Confirmed),
                of_state(old(self).splits@, SplitState::Suggested),
                suggestions@,
                min_gap,
            ),
            final(self).status == old(self).status,
            final(self).detect == old(self).detect,
            final(self).head == old(self).head,
            final(self).silences == old(self).silences,
            final(self).silences_detected == old(self).silences_detected,
    {
        let ghost all = self.splits@;
        let ghost is_old = |x: Split| x.state == SplitState::Suggested;
        let ghost is_conf = |x: Split| x.state == SplitState::Confirmed;
        let mut old_suggested: Vec<Split> = Vec::new();
        let mut confirmed: Vec<Split> = Vec::new();
        let mut base: Vec<Split> = Vec::new();
        let mut i: usize = 0;
        proof {
            reveal(Seq::filter);
        }
        while i < self.splits.len()
            invariant
                self.splits@ == all,
                is_old == (|x: Split| x.state == SplitState::Suggested),
                is_conf == (|x: Split| x.state == SplitState::Confirmed),
                i <= all.len(),
                old_suggested@ == all.take(i as int).filter(is_old),
                confirmed@ == all.take(i as int).filter(is_conf),
                base@ == confirmed@,
            decreases all.len() - i,
        {
            proof {
                lemma_filter_step(all, is_old, i as int);
                lemma_filter_step(all, is_conf, i as int);
            }
            let s = self.splits[i].dup();
            match s.state {
                SplitState::Suggested => {
                    old_suggested.push(s);
                },
                SplitState::Confirmed => {
                    confirmed.push(s.dup());
                    base.push(s);
                },
            }
            i += 1;
        }
        assert(all.take(i as int) =~= all);
        proof {
            lemma_filter_sorted(all, is_conf);
        }
        self.splits = base;
        let ghost start = self.splits@;
        let mut j: usize = 0;
        while j < suggestions.len()
            invariant
                j <= suggestions@.len(),
                self.wf(),
                self.status == old(self).status,
                self.detect == old(self).detect,
                self.head == old(self).head,
                self.silences == old(self).silences,
                self.silences_detected == old(self).silences_detected,
                self.splits@ == with_suggestions(
                    start,
                    confirmed@,
                    old_suggested@,
                    suggestions@.take(j as int),
                    min_gap,
                ),
            decreases suggestions@.len() - j,
        {
            let s = suggestions[j].dup();
            proof {
                assert(suggestions@.take(j + 1).drop_last() =~= suggestions@.take(j as int));
                assert(suggestions@.take(j + 1).last() == s);
            }
            if Self::far_from(&confirmed, &s, min_gap) {
                let s = Self::carry(&old_suggested, s, min_gap);
                self.insert(s);
            }
            j += 1;
        }
        assert(suggestions@.take(j as int) =~= suggestions@);
        self.detected = true;
    }

    fn far_from(confirmed: &Vec<Split>, s: &Split, min_gap: u64) -> (r: bool)
        ensures
            r == clear_of(confirmed@, *s, min_gap),
    {
        let mut i: usize = 0;
        while i < confirmed.len()
            invariant
                i <= confirmed@.len(),
                forall|k: int|
                    0 <= k < i ==> distance((#[trigger] confirmed@[k]).at, s.at) >= min_gap && confirmed@[k].at != s.at,
            decreases confirmed@.len() - i,
        {
            if abs_diff(confirmed[i].at, s.at) < min_gap || confirmed[i].at == s.at {
                return false;
            }
            i += 1;
        }
        true
    }

    fn carry(old_suggested: &Vec<Split>, s: Split, min_gap: u64) -> (r: Split)
        ensures
            r == with_carried(old_suggested@, s, min_gap),
    {
        let mut i: usize = 0;
        assert(old_suggested@.skip(0) =~= old_suggested@);
        while i < old_suggested.len()
            invariant
                i <= old_suggested@.len(),
                with_carried(old_suggested@, s, min_gap) == with_carried(old_suggested@.skip(i as int), s, min_gap),
            decreases old_suggested@.len() - i,
        {
            let o = &old_suggested[i];
            assert(old_suggested@.skip(i as int)[0] == *o);
            assert(old_suggested@.skip(i as int).skip(1) =~= old_suggested@.skip(i + 1));
            if !o.track.is_default() && abs_diff(o.at, s.at) < min_gap {
                return Split { at: s.at, state: s.state, silence: s.silence, track: o.track.dup() };
            }
            i += 1;
        }
        s
    }
}


// ---- Tracks ----

/// The first silence that satisfies `p`.
pub open spec fn first_hit(s: Seq<Silence>, p: spec_fn(Silence) -> bool) -> Option<Silence>
    decreases s.len(),
{
    if s.len() == 0 {
        None
    } else if p(s[0]) {
        Some(s[0])
    } else {
        first_hit(s.skip(1), p)
    }
}

/// Where the audio of a track `[start, end)` starts: past the silence it starts in, if that
/// isn't kept.
pub open spec fn cut_start(silences: Seq<Silence>, start: u64, end: u64) -> u64 {
    match first_hit(silences, |s: Silence| !s.keep && s.start <= start && start < s.end) {
        Some(s) => least(s.end, end),
        None => start,
    }
}

/// Where the audio of a track `[start, end)` ends: before the silence it ends in, if that
/// isn't kept, but never before it starts.
pub open spec fn cut_end(silences: Seq<Silence>, start: u64, end: u64) -> u64 {
    let at = match first_hit(silences, |s: Silence| !s.keep && s.start < end && end <= s.end) {
        Some(s) => greatest(s.start, start),
        None => end,
    };
    greatest(at, cut_start(silences, start, end))
}

/// Ranges `[a, b)` in order, none empty, with a gap between any two.
pub open spec fn separate(s: Seq<(u64, u64)>) -> bool {
    &&& forall|i: int| 0 <= i < s.len() ==> (#[trigger] s[i]).0 < s[i].1
    &&& forall|i: int, j: int| 0 <= i < j < s.len() ==> (#[trigger] s[i]).1 < (#[trigger] s[j]).0
}

/// Whether a position lies in one of the ranges.
pub open spec fn covers(s: Seq<(u64, u64)>, x: int) -> bool {
    exists|i: int| 0 <= i < s.len() && (#[trigger] s[i]).0 <= x < s[i].1
}

/// The sum of the lengths of all ranges.
pub open spec fn total_len(s: Seq<(u64, u64)>) -> int
    decreases s.len(),
{
    if s.len() == 0 {
        0
    } else {
        total_len(s.drop_last()) + (s.last().1 - s.last().0)
    }
}

impl RecordingEdit {
    /// The `k`-th boundary of a recording `total` frames long: its start, its splits, its end.
    /// Track `k` runs from boundary `k` to boundary `k + 1`.
    pub open spec fn bound(&self, total: u64, k: int) -> u64 {
        if k <= 0 {
            0
        } else if k <= self.splits@.len() {
            least(self.splits@[k - 1].at, total)
        } else {
            total
        }
    }

    /// How many tracks there are.
    pub open spec fn track_count(&self) -> int {
        self.splits@.len() as int + 1
    }

    /// What the user decided about track `k`.
    pub open spec fn meta_at(&self, k: int) -> TrackMeta {
        if k <= 0 {
            self.head
        } else {
            self.splits@[k - 1].track
        }
    }

    /// Where the audio of track `k` starts.
    pub open spec fn audio_from(&self, total: u64, k: int) -> u64 {
        cut_start(self.silences@, self.bound(total, k), self.bound(total, k + 1))
    }

    /// Where the audio of track `k` ends.
    pub open spec fn audio_to(&self, total: u64, k: int) -> u64 {
        cut_end(self.silences@, self.bound(total, k), self.bound(total, k + 1))
    }

    /// Track `k` is not left out, and not all cut silence.
    pub open spec fn exports(&self, total: u64, k: int) -> bool {
        !self.meta_at(k).drop && self.audio_from(total, k) < self.audio_to(total, k)
    }

    /// Position `x` is exported as part of some track.
    pub open spec fn keeps(&self, total: u64, x: int) -> bool {
        exists|k: int| #[trigger] self.keeps_in(total, k, x)
    }

    /// Position `x` is exported as part of track `k`.
    pub open spec fn keeps_in(&self, total: u64, k: int, x: int) -> bool {
        0 <= k < self.track_count() && self.exports(total, k) && self.audio_from(total, k) <= x < self.audio_to(total, k)
    }

    /// The exported ones among the first `n` tracks.
    pub open spec fn kept_tracks(&self, total: u64, n: int) -> Seq<int>
        decreases n,
    {
        if n <= 0 {
            Seq::empty()
        } else if self.exports(total, n - 1) {
            self.kept_tracks(total, n - 1).push(n - 1)
        } else {
            self.kept_tracks(total, n - 1)
        }
    }

    /// The ranges are all that no track exports, merged.
    pub open spec fn leaves_out(&self, total: u64, ranges: Seq<(u64, u64)>) -> bool {
        &&& separate(ranges)
        &&& forall|x: int| #![trigger covers(ranges, x)] covers(ranges, x) <==> 0 <= x < total && !self.keeps(total, x)
    }

    /// The audio of track `k`.
    pub open spec fn audio(&self, total: u64, k: int) -> (u64, u64) {
        (self.audio_from(total, k), self.audio_to(total, k))
    }

    /// The audio of the exported ones among the first `n` tracks.
    pub open spec fn kept_ranges(&self, total: u64, n: int) -> Seq<(u64, u64)> {
        self.kept_tracks(total, n).map_values(|k: int| self.audio(total, k))
    }

    /// What `tracks` shows of track `k`.
    pub open spec fn is_track(&self, total: u64, k: int, t: Track<'_>) -> bool {
        &&& t.index == k
        &&& t.start == self.bound(total, k)
        &&& t.end == self.bound(total, k + 1)
        &&& t.audio_start == self.audio_from(total, k)
        &&& t.audio_end == self.audio_to(total, k)
        &&& *t.meta == self.meta_at(k)
    }

    /// The boundaries come in order and stay inside the recording.
    pub proof fn lemma_bounds(&self, total: u64)
        requires
            self.wf(),
        ensures
            forall|i: int, j: int| i <= j ==> #[trigger] self.bound(total, i) <= #[trigger] self.bound(total, j),
            forall|i: int| #[trigger] self.bound(total, i) <= total,
            self.bound(total, 0) == 0,
            self.bound(total, self.track_count()) == total,
    {
    }

    /// A silence cuts the start of a track if the track starts inside it, and the end if the
    /// track ends inside it: what is left lies inside the track.
    pub proof fn lemma_audio_inside(&self, total: u64, k: int)
        requires
            self.wf(),
        ensures
            self.bound(total, k) <= self.audio_from(total, k) <= self.audio_to(total, k) <= self.bound(total, k + 1),
    {
        self.lemma_bounds(total);
        let (start, end) = (self.bound(total, k), self.bound(total, k + 1));
        assert(start <= end);
        lemma_first_hit(self.silences@, |s: Silence| !s.keep && s.start <= start && start < s.end);
        lemma_first_hit(self.silences@, |s: Silence| !s.keep && s.start < end && end <= s.end);
    }

    fn cut_at_start(&self, start: u64, end: u64) -> (r: u64)
        ensures
            r == cut_start(self.silences@, start, end),
    {
        let ghost p = |s: Silence| !s.keep && s.start <= start && start < s.end;
        let mut i: usize = 0;
        assert(self.silences@.skip(0) =~= self.silences@);
        while i < self.silences.len()
            invariant
                p == (|s: Silence| !s.keep && s.start <= start && start < s.end),
                i <= self.silences@.len(),
                first_hit(self.silences@, p) == first_hit(self.silences@.skip(i as int), p),
            decreases self.silences@.len() - i,
        {
            let s = self.silences[i];
            assert(self.silences@.skip(i as int)[0] == s);
            assert(self.silences@.skip(i as int).skip(1) =~= self.silences@.skip(i + 1));
            if !s.keep && s.start <= start && start < s.end {
                assert(p(s));
                return min_of(s.end, end);
            }
            i += 1;
        }
        start
    }

    fn cut_at_end(&self, start: u64, end: u64) -> (r: u64)
        ensures
            r == cut_end(self.silences@, start, end),
    {
        let from = self.cut_at_start(start, end);
        let ghost p = |s: Silence| !s.keep && s.start < end && end <= s.end;
        let mut i: usize = 0;
        assert(self.silences@.skip(0) =~= self.silences@);
        while i < self.silences.len()
            invariant
                p == (|s: Silence| !s.keep && s.start < end && end <= s.end),
                from == cut_start(self.silences@, start, end),
                i <= self.silences@.len(),
                first_hit(self.silences@, p) == first_hit(self.silences@.skip(i as int), p),
            decreases self.silences@.len() - i,
        {
            let s = self.silences[i];
            assert(self.silences@.skip(i as int)[0] == s);
            assert(self.silences@.skip(i as int).skip(1) =~= self.silences@.skip(i + 1));
            if !s.keep && s.start < end && end <= s.end {
                assert(p(s));
                return max_of(max_of(s.start, start), from);
            }
            i += 1;
        }
        max_of(end, from)
    }

    /// All tracks of a recording `total` frames long, in order.
    pub fn tracks(&self, total: u64) -> (r: Vec<Track<'_>>)
        requires
            self.splits@.len() < usize::MAX,
        ensures
            r@.len() == self.track_count(),
            forall|k: int| 0 <= k < r@.len() ==> self.is_track(total, k, #[trigger] r@[k]),
    {
        let n: usize = self.splits.len();
        let mut out: Vec<Track<'_>> = Vec::new();
        let mut k: usize = 0;
        while k <= n
            invariant
                n == self.splits@.len(),
                n < usize::MAX,
                k <= n + 1,
                out@.len() == k,
                forall|j: int| 0 <= j < k ==> self.is_track(total, j, #[trigger] out@[j]),
            decreases n + 1 - k,
        {
            let start: u64 = if k == 0 {
                0
            } else {
                min_of(self.splits[k - 1].at, total)
            };
            let end: u64 = if k == n {
                total
            } else {
                min_of(self.splits[k].at, total)
            };
            let meta: &TrackMeta = if k == 0 {
                &self.head
            } else {
                &self.splits[k - 1].track
            };
            let audio_start = self.cut_at_start(start, end);
            let audio_end = self.cut_at_end(start, end);
            out.push(Track { index: k, start, end, audio_start, audio_end, meta });
            k += 1;
        }
        out
    }

    /// What the export leaves out, as merged `[start, end)` ranges: cut silence and dropped
    /// tracks. Playing everything else sounds like the exported tracks back to back.
    pub fn skipped(&self, total: u64) -> (r: Vec<(u64, u64)>)
        requires
            self.wf(),
            self.splits@.len() < usize::MAX,
        ensures
            self.leaves_out(total, r@),
    {
        let tracks = self.tracks(total);
        let mut out: Vec<(u64, u64)> = Vec::new();
        let mut k: usize = 0;
        while k < tracks.len()
            invariant
                self.wf(),
                tracks@.len() == self.track_count(),
                forall|j: int| 0 <= j < tracks@.len() ==> self.is_track(total, j, #[trigger] tracks@[j]),
                k <= tracks@.len(),
                separate(out@),
                out@.len() > 0 ==> out@.last().1 <= self.bound(total, k as int),
                forall|x: int| #![trigger covers(out@, x)]
                    covers(out@, x) <==> 0 <= x < self.bound(total, k as int) && !self.keeps(total, x),
            decreases tracks@.len() - k,
        {
            let ghost before = out@;
            let t = &tracks[k];
            assert(self.is_track(total, k as int, *t));
            proof {
                self.lemma_bounds(total);
                self.lemma_audio_inside(total, k as int);
            }
            assert(self.bound(total, k as int) <= self.bound(total, k + 1));
            if t.exported() {
                add_range(&mut out, t.start, t.audio_start);
                add_range(&mut out, t.audio_end, t.end);
            } else {
                add_range(&mut out, t.start, t.end);
            }
            assert forall|x: int| #![trigger covers(out@, x)]
                covers(out@, x) <==> 0 <= x < self.bound(total, k + 1) && !self.keeps(total, x) by {
                self.lemma_keeps_only_in(total, k as int, x);
                assert(covers(before, x) <==> 0 <= x < self.bound(total, k as int) && !self.keeps(total, x));
            }
            k += 1;
        }
        proof {
            self.lemma_bounds(total);
        }
        out
    }

    /// Where playback goes on from `pos` while only what is exported is to be heard: behind what
    /// is left out there, or nowhere else if `pos` is exported.
    pub fn jump_from(&self, total: u64, pos: u64) -> (r: Option<u64>)
        requires
            self.wf(),
            self.splits@.len() < usize::MAX,
        ensures
            match r {
                Some(end) => {
                    &&& pos < end <= total
                    &&& forall|x: int| pos <= x < end ==> !#[trigger] self.keeps(total, x)
                    &&& end == total || self.keeps(total, end as int)
                },
                None => pos >= total || self.keeps(total, pos as int),
            },
    {
        let skipped = self.skipped(total);
        let mut i: usize = 0;
        while i < skipped.len()
            invariant
                i <= skipped@.len(),
                self.leaves_out(total, skipped@),
                forall|k: int| 0 <= k < i ==> !((#[trigger] skipped@[k]).0 <= pos < skipped@[k].1),
            decreases skipped@.len() - i,
        {
            let (a, b) = skipped[i];
            if a <= pos && pos < b {
                proof {
                    assert forall|x: int| pos <= x < b implies !#[trigger] self.keeps(total, x) by {
                        assert(skipped@[i as int].0 <= x < skipped@[i as int].1);
                        assert(covers(skipped@, x));
                    }
                    assert(skipped@[i as int].0 <= b - 1 < skipped@[i as int].1);
                    assert(covers(skipped@, b - 1));
                    if covers(skipped@, b as int) {
                        let k = choose|k: int|
                            0 <= k < skipped@.len() && (#[trigger] skipped@[k]).0 <= b < skipped@[k].1;
                        if k < i {
                            assert(skipped@[k].1 < skipped@[i as int].0);
                        } else if k > i {
                            assert(skipped@[i as int].1 < skipped@[k].0);
                        }
                    }
                }
                return Some(b);
            }
            i += 1;
        }
        assert(!covers(skipped@, pos as int));
        None
    }

    /// A position of track `k` is exported only as part of track `k`.
    proof fn lemma_keeps_only_in(&self, total: u64, k: int, x: int)
        requires
            self.wf(),
            0 <= k < self.track_count(),
        ensures
            self.bound(total, k) <= x < self.bound(total, k + 1) ==> self.keeps(total, x) == self.keeps_in(total, k, x),
    {
        self.lemma_bounds(total);
        if self.bound(total, k) <= x < self.bound(total, k + 1) && self.keeps(total, x) {
            let j = choose|j: int| #[trigger] self.keeps_in(total, j, x);
            self.lemma_audio_inside(total, j);
            if j < k {
                assert(self.bound(total, j + 1) <= self.bound(total, k));
            } else if j > k {
                assert(self.bound(total, k + 1) <= self.bound(total, j));
            }
        }
    }
}

proof fn lemma_first_hit(s: Seq<Silence>, p: spec_fn(Silence) -> bool)
    ensures
        first_hit(s, p) matches Some(x) ==> p(x) && s.contains(x),
        first_hit(s, p) is None ==> forall|i: int| 0 <= i < s.len() ==> !p(#[trigger] s[i]),
    decreases s.len(),
{
    if s.len() > 0 && !p(s[0]) {
        let t = s.skip(1);
        lemma_first_hit(t, p);
        match first_hit(t, p) {
            Some(x) => {
                let i = choose|i: int| 0 <= i < t.len() && t[i] == x;
                assert(s[i + 1] == x);
            },
            None => {
                assert forall|i: int| 0 <= i < s.len() implies !p(#[trigger] s[i]) by {
                    if i > 0 {
                        assert(t[i - 1] == s[i]);
                    }
                }
            },
        }
    }
}

/// Add `[a, b)` behind the ranges in `out`, joining it to the last one where they touch.
fn add_range(out: &mut Vec<(u64, u64)>, a: u64, b: u64)
    requires
        separate(old(out)@),
        old(out)@.len() > 0 ==> old(out)@.last().1 <= a,
        a <= b,
    ensures
        separate(final(out)@),
        final(out)@.len() > 0 ==> final(out)@.last().1 <= b,
        forall|x: int| #![trigger covers(final(out)@, x)] covers(final(out)@, x) <==> covers(old(out)@, x) || a <= x < b,
{
    if a >= b {
        return;
    }
    let ghost before = out@;
    let n: usize = out.len();
    if n > 0 && out[n - 1].1 >= a {
        let first = out[n - 1].0;
        out.set(n - 1, (first, b));
        assert forall|x: int| #![trigger covers(out@, x)] covers(out@, x) <==> covers(before, x) || a <= x < b by {
            if covers(before, x) {
                let i = choose|i: int| 0 <= i < before.len() && (#[trigger] before[i]).0 <= x < before[i].1;
                assert(out@[i].0 <= x < out@[i].1);
            }
            if a <= x < b {
                assert(out@[n - 1].0 <= x < out@[n - 1].1);
            }
            if covers(out@, x) {
                let i = choose|i: int| 0 <= i < out@.len() && (#[trigger] out@[i]).0 <= x < out@[i].1;
                if i < n - 1 || x < a {
                    assert(before[i].0 <= x < before[i].1);
                }
            }
        }
    } else {
        out.push((a, b));
        assert forall|x: int| #![trigger covers(out@, x)] covers(out@, x) <==> covers(before, x) || a <= x < b by {
            if covers(before, x) {
                let i = choose|i: int| 0 <= i < before.len() && (#[trigger] before[i]).0 <= x < before[i].1;
                assert(out@[i].0 <= x < out@[i].1);
            }
            if a <= x < b {
                assert(out@[n as int].0 <= x < out@[n as int].1);
            }
            if covers(out@, x) {
                let i = choose|i: int| 0 <= i < out@.len() && (#[trigger] out@[i]).0 <= x < out@[i].1;
                if i < n {
                    assert(before[i].0 <= x < before[i].1);
                }
            }
        }
    }
}


// ---- The cleaned recording, names, and the review loop ----

/// `c` is the edit for the recording made of `ranges`, the audio of the tracks of `e` listed in
/// `kept`: one confirmed split between any two of them, titles kept, nothing to cut.
pub open spec fn is_cleaned(e: RecordingEdit, kept: Seq<int>, ranges: Seq<(u64, u64)>, c: RecordingEdit) -> bool {
    &&& c.status == Status::Todo
    &&& c.detect == e.detect
    &&& c.detected
    &&& c.silences_detected
    &&& c.silences@.len() == 0
    &&& c.head@.title == if kept.len() > 0 {
        e.meta_at(kept[0]).title@
    } else {
        Seq::empty()
    }
    &&& !c.head.drop
    &&& c.splits@.len() == if kept.len() > 0 {
        kept.len() - 1
    } else {
        0
    }
    &&& forall|j: int| #![trigger c.splits@[j]]
        0 <= j < c.splits@.len() ==> {
            &&& c.splits@[j].at == total_len(ranges.take(j + 1))
            &&& c.splits@[j].state == SplitState::Confirmed
            &&& c.splits@[j].silence == None::<u64>
            &&& c.splits@[j].track@ == (MetaView { title: e.meta_at(kept[j + 1]).title@, drop: false })
        }
}

/// The name of a track: its title, or else "Track" and its number if it has one.
pub open spec fn shown_name(title: Seq<char>, number: Option<nat>) -> Option<Seq<char>> {
    if trimmed(title).len() > 0 {
        Some(trimmed(title))
    } else {
        match number {
            Some(n) => Some("Track "@ + decimal(n)),
            None => None,
        }
    }
}

/// The characters of an optional string.
pub open spec fn opt_chars(s: Option<String>) -> Option<Seq<char>> {
    match s {
        Some(t) => Some(t@),
        None => None,
    }
}

/// The undoable part of an edit.
#[derive(Clone, Debug, PartialEq)]
pub struct Snapshot {
    pub head: TrackMeta,
    pub splits: Vec<Split>,
    pub silences: Vec<Silence>,
}

/// The undoable part of an edit, with its texts as sequences of characters.
#[verifier::ext_equal]
pub struct SnapView {
    pub head: MetaView,
    pub splits: Seq<SplitView>,
    pub silences: Seq<Silence>,
}

/// The views of a list of splits.
pub open spec fn split_views(s: Seq<Split>) -> Seq<SplitView> {
    s.map_values(|x: Split| x@)
}

impl View for Snapshot {
    type V = SnapView;

    open spec fn view(&self) -> SnapView {
        SnapView { head: self.head@, splits: split_views(self.splits@), silences: self.silences@ }
    }
}

fn dup_splits(s: &Vec<Split>) -> (r: Vec<Split>)
    ensures
        r@ == s@,
{
    let mut out: Vec<Split> = Vec::new();
    let mut i: usize = 0;
    while i < s.len()
        invariant
            i <= s@.len(),
            out@ == s@.take(i as int),
        decreases s@.len() - i,
    {
        out.push(s[i].dup());
        assert(s@.take(i as int).push(s@[i as int]) =~= s@.take(i + 1));
        i += 1;
    }
    assert(s@.take(i as int) =~= s@);
    out
}

fn dup_silences(s: &Vec<Silence>) -> (r: Vec<Silence>)
    ensures
        r@ == s@,
{
    let mut out: Vec<Silence> = Vec::new();
    let mut i: usize = 0;
    while i < s.len()
        invariant
            i <= s@.len(),
            out@ == s@.take(i as int),
        decreases s@.len() - i,
    {
        out.push(s[i]);
        assert(s@.take(i as int).push(s@[i as int]) =~= s@.take(i + 1));
        i += 1;
    }
    assert(s@.take(i as int) =~= s@);
    out
}

impl RecordingEdit {
    /// The undoable part.
    pub open spec fn snap(&self) -> SnapView {
        SnapView { head: self.head@, splits: split_views(self.splits@), silences: self.silences@ }
    }

    /// The audio of the tracks that are exported is no longer than the recording.
    proof fn lemma_kept_len(&self, total: u64, n: int)
        requires
            self.wf(),
            0 <= n,
        ensures
            0 <= total_len(self.kept_ranges(total, n)) <= self.bound(total, n),
            forall|i: int| 0 <= i < self.kept_tracks(total, n).len() ==> 0 <= #[trigger] self.kept_tracks(total, n)[i] < n
                && self.exports(total, self.kept_tracks(total, n)[i]),
        decreases n,
    {
        if n > 0 {
            self.lemma_kept_len(total, n - 1);
            self.lemma_bounds(total);
            self.lemma_audio_inside(total, n - 1);
            assert(self.bound(total, n - 1) <= self.bound(total, n));
            if self.exports(total, n - 1) {
                assert(self.kept_ranges(total, n).drop_last() =~= self.kept_ranges(total, n - 1));
                assert(self.kept_ranges(total, n).last() == self.audio(total, n - 1));
            }
        }
    }

    /// The cleaned recording: the exported tracks' audio back to back, as `[start, end)` source
    /// ranges, plus the edit that goes with it (a confirmed split between consecutive tracks,
    /// titles kept, nothing left to cut). Empty if nothing would be kept.
    pub fn cleaned(&self, total: u64) -> (r: (Vec<(u64, u64)>, RecordingEdit))
        requires
            self.wf(),
            self.splits@.len() < usize::MAX,
        ensures
            r.0@ == self.kept_ranges(total, self.track_count()),
            is_cleaned(*self, self.kept_tracks(total, self.track_count()), r.0@, r.1),
    {
        let tracks = self.tracks(total);
        let mut ranges: Vec<(u64, u64)> = Vec::new();
        let mut edit = RecordingEdit::default();
        edit.detect = self.detect;
        edit.detected = true;
        edit.silences_detected = true;
        let mut at: u64 = 0;
        let mut k: usize = 0;
        assert(self.kept_ranges(total, 0) =~= Seq::<(u64, u64)>::empty());
        assert(edit.head@.title =~= Seq::<char>::empty());
        while k < tracks.len()
            invariant
                self.wf(),
                tracks@.len() == self.track_count(),
                forall|j: int| 0 <= j < tracks@.len() ==> self.is_track(total, j, #[trigger] tracks@[j]),
                k <= tracks@.len(),
                ranges@ == self.kept_ranges(total, k as int),
                at == total_len(ranges@),
                is_cleaned(*self, self.kept_tracks(total, k as int), ranges@, edit),
            decreases tracks@.len() - k,
        {
            let t = &tracks[k];
            let ghost kept = self.kept_tracks(total, k as int);
            let ghost before = ranges@;
            assert(self.is_track(total, k as int, *t));
            proof {
                self.lemma_kept_len(total, k as int);
                self.lemma_kept_len(total, k + 1);
                self.lemma_bounds(total);
            }
            if t.exported() {
                let meta = TrackMeta { title: t.meta.title.clone(), drop: false };
                if ranges.len() == 0 {
                    edit.head = meta;
                } else {
                    assert(before.take(before.len() as int) =~= before);
                    edit.splits.push(Split { at, state: SplitState::Confirmed, silence: None, track: meta });
                }
                ranges.push((t.audio_start, t.audio_end));
                assert(ranges@ =~= self.kept_ranges(total, k + 1));
                assert(ranges@.drop_last() =~= before);
                at = at + t.audio_len();
                proof {
                    let now = self.kept_tracks(total, k + 1);
                    assert(now == kept.push(k as int));
                    assert forall|j: int| #![trigger edit.splits@[j]] 0 <= j < edit.splits@.len() implies edit.splits@[j].at
                        == total_len(ranges@.take(j + 1)) by {
                        assert(ranges@.take(j + 1) =~= before.take(j + 1));
                    }
                }
            }
            k += 1;
        }
        (ranges, edit)
    }

    /// Each track's name as shown and exported: its title, or "Track N" by its number among the
    /// exported tracks. `None` for an untitled track that isn't exported.
    pub fn names(&self, total: u64) -> (r: Vec<Option<String>>)
        requires
            self.splits@.len() < usize::MAX,
        ensures
            r@.len() == self.track_count(),
            forall|k: int| 0 <= k < r@.len() ==> opt_chars(#[trigger] r@[k]) == shown_name(
                self.meta_at(k).title@,
                self.export_number(total, k),
            ),
    {
        let tracks = self.tracks(total);
        let mut out: Vec<Option<String>> = Vec::new();
        let mut n: usize = 0;
        let mut k: usize = 0;
        while k < tracks.len()
            invariant
                tracks@.len() == self.track_count(),
                forall|j: int| 0 <= j < tracks@.len() ==> self.is_track(total, j, #[trigger] tracks@[j]),
                k <= tracks@.len(),
                n <= k,
                n == self.kept_tracks(total, k as int).len(),
                out@.len() == k,
                forall|j: int| 0 <= j < k ==> opt_chars(#[trigger] out@[j]) == shown_name(
                    self.meta_at(j).title@,
                    self.export_number(total, j),
                ),
            decreases tracks@.len() - k,
        {
            let t = &tracks[k];
            assert(self.is_track(total, k as int, *t));
            let exported = t.exported();
            if exported {
                n += 1;
            }
            let title = chars_of(t.meta.title.as_str());
            let title = trim(&title);
            let name: Option<String> = if title.len() > 0 {
                Some(string_of(title))
            } else if exported {
                let mut s: Vec<char> = Vec::new();
                append_str(&mut s, "Track ");
                let d = decimal_chars(n as u64);
                append_chars(&mut s, &d);
                assert(s@ =~= "Track "@ + decimal(n as nat));
                Some(string_of(&s))
            } else {
                None
            };
            out.push(name);
            k += 1;
        }
        out
    }

    /// The number of track `k` among the exported tracks, counted from one.
    pub open spec fn export_number(&self, total: u64, k: int) -> Option<nat> {
        if self.exports(total, k) {
            Some(self.kept_tracks(total, k + 1).len())
        } else {
            None
        }
    }

    /// The metadata of track `index`, to be changed in place.
    pub fn track_meta_mut(&mut self, index: usize) -> (r: Option<&mut TrackMeta>)
        ensures
            index > old(self).splits@.len() ==> r is None && *final(self) == *old(self),
            index <= old(self).splits@.len() ==> r is Some && *r->0 == old(self).meta_at(index as int),
            index == 0 ==> *final(self) == (RecordingEdit { head: *final(r->0), ..*old(self) }),
            0 < index <= old(self).splits@.len() ==> {
                &&& same_but_splits(*final(self), *old(self))
                &&& final(self).splits@ == old(self).splits@.update(
                    index - 1,
                    Split { track: *final(r->0), ..old(self).splits@[index - 1] },
                )
            },
    {
        if index == 0 {
            Some(&mut self.head)
        } else if index <= self.splits.len() {
            Some(&mut self.splits[index - 1].track)
        } else {
            None
        }
    }

    /// The track being worked on: the one starting at the selected split, else the one
    /// under the playhead.
    pub fn current_track(&self, cur: Option<usize>, pos: u64) -> (r: usize)
        requires
            self.wf(),
            self.splits@.len() < usize::MAX,
        ensures
            r <= self.splits@.len(),
            match cur {
                Some(i) if i < self.splits@.len() => r == i + 1,
                _ => (forall|k: int| 0 <= k < r ==> (#[trigger] self.splits@[k]).at <= pos) && (forall|k: int|
                    r <= k < self.splits@.len() ==> (#[trigger] self.splits@[k]).at > pos),
            },
    {
        if let Some(i) = cur {
            if i < self.splits.len() {
                return i + 1;
            }
        }
        if pos == u64::MAX {
            self.splits.len()
        } else {
            self.lower_bound(pos + 1)
        }
    }

    /// Tab / Shift+Tab: the neighbouring split.
    pub fn step_from(&self, cur: Option<usize>, pos: u64, forward: bool) -> (r: Option<usize>)
        requires
            self.wf(),
            cur matches Some(i) ==> i < usize::MAX,
        ensures
            match cur {
                Some(i) => r == if forward {
                    if i + 1 < self.splits@.len() {
                        Some((i + 1) as usize)
                    } else {
                        None
                    }
                } else if i > 0 {
                    Some((i - 1) as usize)
                } else {
                    None
                },
                None => if forward {
                    first_after(self.splits@, pos as int, r)
                } else {
                    last_before(self.splits@, pos as int, r)
                },
            },
    {
        match cur {
            Some(i) => if forward {
                if i + 1 < self.splits.len() {
                    Some(i + 1)
                } else {
                    None
                }
            } else if i > 0 {
                Some(i - 1)
            } else {
                None
            },
            None => if forward {
                self.next_after(pos)
            } else {
                self.prev_before(pos)
            },
        }
    }

    /// Enter: confirm the selected split, then go to the next one still to review
    /// (or simply the next split once everything is reviewed).
    pub fn confirm_and_next(&mut self, cur: Option<usize>, pos: u64) -> (r: Option<usize>)
        requires
            old(self).wf(),
            cur matches Some(i) ==> i < usize::MAX,
            cur is None ==> pos < u64::MAX,
        ensures
            final(self).wf(),
            same_but_splits(*final(self), *old(self)),
            match cur {
                Some(i) => {
                    &&& final(self).splits@ == if i < old(self).splits@.len() {
                        old(self).splits@.update(
                            i as int,
                            Split { state: SplitState::Confirmed, ..old(self).splits@[i as int] },
                        )
                    } else {
                        old(self).splits@
                    }
                    &&& next_or_following(final(self).splits@, i, r)
                },
                None => {
                    &&& final(self).splits@ == old(self).splits@
                    &&& next_from_playhead(old(self).splits@, pos, r)
                },
            },
    {
        match cur {
            Some(i) => {
                self.confirm(i);
                let next = self.next_to_review(Some(i));
                if next.is_some() {
                    return next;
                }
                assert(forall|k: int| 0 <= k < self.splits@.len() ==> !#[trigger] to_review(self.splits@, k));
                if i + 1 < self.splits.len() {
                    Some(i + 1)
                } else {
                    None
                }
            },
            None => {
                let n: usize = self.splits.len();
                let before = self.prev_before(pos + 1);
                assert(before matches Some(i) ==> i < n);
                let next = self.next_to_review(before);
                if next.is_some() {
                    return next;
                }
                assert(forall|k: int| 0 <= k < self.splits@.len() ==> !#[trigger] to_review(self.splits@, k));
                self.next_after(pos)
            },
        }
    }

    /// Backspace: remove the selected split, then go to the next one still to review.
    pub fn delete_and_next(&mut self, cur: usize) -> (r: Option<usize>)
        requires
            old(self).wf(),
        ensures
            final(self).wf(),
            same_but_splits(*final(self), *old(self)),
            cur >= old(self).splits@.len() ==> r == None::<usize> && final(self).splits@ == old(self).splits@,
            cur < old(self).splits@.len() ==> {
                let left = old(self).splits@.remove(cur as int);
                &&& final(self).splits@ == left
                &&& left.len() == 0 ==> r == None::<usize>
                &&& left.len() > 0 ==> first_to_review(left, cur as int % left.len() as int, r)
            },
    {
        if self.remove(cur).is_none() {
            return None;
        }
        proof {
            let n = self.splits@.len() as int;
            if cur == 0 && n > 0 {
                vstd::arithmetic::div_mod::lemma_small_mod(0, n as nat);
            }
        }
        // Index `cur` now holds the split that followed the removed one.
        let from: Option<usize> = if cur == 0 {
            None
        } else {
            Some(cur - 1)
        };
        self.next_to_review(from)
    }

    /// The undoable part, copied.
    pub fn snapshot(&self) -> (r: Snapshot)
        ensures
            r.head == self.head,
            r.splits@ == self.splits@,
            r.silences@ == self.silences@,
            r@ == self.snap(),
    {
        Snapshot { head: self.head.dup(), splits: dup_splits(&self.splits), silences: dup_silences(&self.silences) }
    }
}

/// `r` is the next split to review after split `i`, or the one that follows it when there is
/// nothing left to review.
pub open spec fn next_or_following(s: Seq<Split>, i: usize, r: Option<usize>) -> bool {
    if exists|k: int| 0 <= k < s.len() && #[trigger] to_review(s, k) {
        r is Some && first_to_review(s, (i + 1) % s.len() as int, r)
    } else {
        r == if i + 1 < s.len() {
            Some((i + 1) as usize)
        } else {
            None
        }
    }
}

/// `r` is the first split to review after `pos`, wrapping around, or simply the first split
/// after `pos` when there is nothing left to review.
pub open spec fn next_from_playhead(s: Seq<Split>, pos: u64, r: Option<usize>) -> bool {
    if exists|k: int| 0 <= k < s.len() && #[trigger] to_review(s, k) {
        exists|before: Option<usize>| #[trigger] last_before(s, pos + 1, before) && r is Some && first_to_review(
            s,
            review_start(s.len() as int, before),
            r,
        )
    } else {
        first_after(s, pos as int, r)
    }
}

} // verus!

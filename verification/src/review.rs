//! Split review: the Tab / Enter / Backspace loop, nudging, snapping, dragging, undo.
use vstd::prelude::*;
use crate::detect::{
    all_runs, all_tagged, is_inner, is_split_of, is_suggestion, law_suggestions_split_silences, law_tags_are_sorted,
    lemma_middle, min_track, min_windows, snap, snapped, suggest, tag, thinned, whole_run, windows_in, Run,
};
use crate::edit::{
    clear_of, closest, first_after, first_to_review, inserted, kept_before, last_before, next_from_playhead,
    next_or_following, of_state, same_but_splits, silences_sorted, with_carried, with_suggestions, within, DetectParams,
    RecordingEdit, Silence, SnapView, Snapshot, Split, SplitState, TrackMeta,
};
use crate::history::{differs_first, same_outside, same_snapshot, History, HistoryView};
use crate::laws::{carried_stays_put, law_detection_keeps_confirmed, law_insert_keeps_the_others};
use crate::text::{chars_of, split_on, string_of, strings, trim, trimmed};
use crate::tracklist;

verus! {

/// Nanoseconds searched on each side by snap-to-silence: half a second.
pub const SNAP_NS: u64 = 500_000_000;

/// Seconds played on each side of a split when reviewing it.
pub const PREVIEW_SECS: u64 = 3;

/// New suggestions this close (in seconds) to a confirmed split are dropped on re-detect.
pub const KEEP_CLEAR_SECS: u64 = 2;

/// One recording under review: its edit, what can be undone, the split being looked at, and the
/// edit as it was when a marker drag started.
#[derive(Clone, Debug)]
pub struct Session {
    pub edit: RecordingEdit,
    pub history: History,
    pub cur: Option<usize>,
    pub drag: Option<Snapshot>,
}

/// The history after a change from `before` to `after`: a step only if something changed.
pub open spec fn stepped(h: HistoryView, before: SnapView, after: SnapView) -> HistoryView {
    if before == after {
        h
    } else {
        h.recorded(before)
    }
}

/// Every change can be taken back: the state before it is the next that undoing brings back.
pub proof fn law_every_change_can_be_undone(h: HistoryView, before: SnapView, after: SnapView)
    requires
        before != after,
    ensures
        stepped(h, before, after).past.len() > 0,
        stepped(h, before, after).past.last() == before,
{
}

/// What is left of the drag when it starts.
pub open spec fn opt_snap(s: Option<Snapshot>) -> Option<SnapView> {
    match s {
        Some(x) => Some(x@),
        None => None,
    }
}

/// The distance to keep clear of confirmed splits, in frames.
pub fn keep_clear(rate: u32) -> (r: u64)
    ensures
        r == KEEP_CLEAR_SECS * rate,
{
    KEEP_CLEAR_SECS * rate as u64
}

/// The frames to play when reviewing the split at `at`.
pub fn preview_range(at: u64, rate: u32) -> (r: (u64, u64))
    requires
        at + PREVIEW_SECS * rate <= u64::MAX,
    ensures
        r.0 == if at < PREVIEW_SECS * rate {
            0
        } else {
            at - PREVIEW_SECS * rate
        },
        r.1 == at + PREVIEW_SECS * rate,
{
    let d: u64 = PREVIEW_SECS * rate as u64;
    (at.saturating_sub(d), at + d)
}

/// `at` moved by `delta`, kept strictly inside the recording.
pub open spec fn nudged(at: u64, delta: i64, total: u64) -> int {
    let x = at + delta;
    if x < 1 {
        1
    } else if x > total - 1 {
        total - 1
    } else {
        x
    }
}

/// A change of the detection settings.
#[derive(Clone, Copy, Debug, PartialEq, Eq, Structural)]
pub enum DetectStep {
    /// Silence is 3 dB quieter.
    Quieter,
    /// Silence is 3 dB louder, up to -6 dB.
    Louder,
    /// Silence is a quarter of a second shorter, down to that.
    Shorter,
    /// Silence is a quarter of a second longer.
    Longer,
}

/// The settings after a change. What is already at its limit stays there.
pub open spec fn stepped_params(p: DetectParams, step: DetectStep) -> DetectParams {
    match step {
        DetectStep::Quieter => DetectParams {
            threshold_udb: (if p.threshold_udb - 3_000_000 < i32::MIN {
                i32::MIN as int
            } else {
                p.threshold_udb - 3_000_000
            }) as i32,
            ..p
        },
        DetectStep::Louder => DetectParams {
            threshold_udb: (if p.threshold_udb + 3_000_000 > -6_000_000 {
                -6_000_000
            } else {
                p.threshold_udb + 3_000_000
            }) as i32,
            ..p
        },
        DetectStep::Shorter => DetectParams {
            min_silence_ns: (if p.min_silence_ns < 500_000_000 {
                250_000_000
            } else {
                p.min_silence_ns - 250_000_000
            }) as u64,
            ..p
        },
        DetectStep::Longer => DetectParams {
            min_silence_ns: (if p.min_silence_ns + 250_000_000 > u64::MAX {
                u64::MAX as int
            } else {
                p.min_silence_ns + 250_000_000
            }) as u64,
            ..p
        },
    }
}

/// Adjust the detection settings (applied by `redetect`).
pub fn step_params(p: &mut DetectParams, step: DetectStep)
    ensures
        *final(p) == stepped_params(*old(p), step),
{
    match step {
        DetectStep::Quieter => {
            let t: i64 = p.threshold_udb as i64 - 3_000_000;
            p.threshold_udb = if t < i32::MIN as i64 {
                i32::MIN
            } else {
                t as i32
            };
        },
        DetectStep::Louder => {
            let t: i64 = p.threshold_udb as i64 + 3_000_000;
            p.threshold_udb = if t > -6_000_000 {
                -6_000_000
            } else {
                t as i32
            };
        },
        DetectStep::Shorter => {
            p.min_silence_ns = if p.min_silence_ns < 500_000_000 {
                250_000_000
            } else {
                p.min_silence_ns - 250_000_000
            };
        },
        DetectStep::Longer => {
            p.min_silence_ns = p.min_silence_ns.saturating_add(250_000_000);
        },
    }
}

/// A nudge of `ns` nanoseconds in frames, as far as it can be told.
pub fn nudge_frames(ns: i64, rate: u32) -> (r: i64)
    ensures
        ({
            let size = if ns < 0 {
                -ns
            } else {
                ns as int
            } * rate / 1_000_000_000;
            let most = if size > i64::MAX {
                i64::MAX as int
            } else {
                size
            };
            r == if ns < 0 {
                -most
            } else {
                most
            }
        }),
{
    let n: u128 = if ns < 0 {
        (0 - (ns as i128)) as u128
    } else {
        ns as u128
    };
    let f: u128 = rate as u128;
    assert(0 <= n * f <= 0x8000_0000_0000_0000 * u32::MAX) by (nonlinear_arith)
        requires
            0 <= n <= 0x8000_0000_0000_0000,
            0 <= f <= u32::MAX,
    ;
    let size: u128 = n * f / 1_000_000_000;
    let most: i64 = if size > i64::MAX as u128 {
        i64::MAX
    } else {
        size as i64
    };
    if ns < 0 {
        -most
    } else {
        most
    }
}

/// Find suggestions and tag silence once per recording, when it has been analysed. A recording
/// that was searched before silence was tagged only gets its tags. Returns whether there was
/// anything to do.
pub fn ensure_detected(edit: &mut RecordingEdit, db: &[i32], window: u64, rate: u32) -> (r: bool)
    requires
        old(edit).wf(),
        2 * db@.len() <= usize::MAX,
        2 * db@.len() * window <= u64::MAX,
    ensures
        forall|total: u64| #[trigger]
            splits_inside(old(edit).splits@, total) && covers_all_but_one(db@, window, total) ==> splits_inside(
                final(edit).splits@,
                total,
            ),
        r == !(old(edit).detected && old(edit).silences_detected),
        same_decisions(*old(edit), *final(edit)),
        final(edit).wf(),
        final(edit).detected,
        final(edit).silences_detected,
        if old(edit).detected {
            final(edit).splits == old(edit).splits
        } else {
            suggests_anew(*old(edit), *final(edit), db@, window, rate)
        },
        if old(edit).silences_detected {
            final(edit).silences == old(edit).silences
        } else {
            tags_anew(*old(edit), *final(edit), db@, window, rate)
        },
{
    let ghost was = *edit;
    let suggested = edit.detected;
    let tagged = edit.silences_detected;
    if !suggested {
        suggest_again(edit, db, window, rate);
    }
    if !tagged {
        let ghost mid = *edit;
        tag_again(edit, db, window, rate);
        assert(suggests_anew(was, mid, db@, window, rate) ==> suggests_anew(was, *edit, db@, window, rate)) by {
            if suggests_anew(was, mid, db@, window, rate) {
                let (s, runs) = choose|s: Seq<Split>, runs: Seq<Run>| #[trigger]
                    found(was, mid, db@, window, rate, s, runs);
                assert(found(was, *edit, db@, window, rate, s, runs));
            }
        }
        assert(tags_anew(was, *edit, db@, window, rate)) by {
            let runs = choose|runs: Seq<Run>| #[trigger] tagged_as(mid, *edit, db@, window, rate, runs);
            assert(tagged_as(was, *edit, db@, window, rate, runs));
        }
    }
    proof {
        assert forall|total: u64| #[trigger]
            splits_inside(was.splits@, total) && covers_all_but_one(db@, window, total) implies splits_inside(
            edit.splits@,
            total,
        ) by {
            if !suggested {
                lemma_found_inside(was, *edit, db@, window, rate, total);
            }
        }
    }
    !suggested || !tagged
}

fn suggest_again(edit: &mut RecordingEdit, db: &[i32], window: u64, rate: u32)
    requires
        old(edit).wf(),
        2 * db@.len() <= usize::MAX,
        2 * db@.len() * window <= u64::MAX,
    ensures
        final(edit).wf(),
        final(edit).detected,
        same_decisions(*old(edit), *final(edit)),
        final(edit).silences == old(edit).silences,
        final(edit).silences_detected == old(edit).silences_detected,
        suggests_anew(*old(edit), *final(edit), db@, window, rate),
{
    let ghost was = *edit;
    let suggestions = suggest(db, window, rate, &edit.detect);
    let ghost sv = suggestions@;
    edit.apply_detection(suggestions, keep_clear(rate));
    proof {
        let p = was.detect;
        let runs = choose|runs: Seq<Run>| #[trigger]
            all_runs(db@, p, min_windows(p, rate, window), runs) && {
                let cs = thinned(runs, db@.len() as int, window, min_track(p, rate));
                &&& sv.len() == cs.len()
                &&& forall|k: int| 0 <= k < cs.len() ==> is_suggestion(#[trigger] sv[k], cs[k], window, rate)
            };
        assert(found(was, *edit, db@, window, rate, sv, runs));
    }
}

fn tag_again(edit: &mut RecordingEdit, db: &[i32], window: u64, rate: u32)
    requires
        2 * db@.len() * window <= u64::MAX,
    ensures
        same_decisions(*old(edit), *final(edit)),
        final(edit).splits == old(edit).splits,
        final(edit).detected == old(edit).detected,
        final(edit).silences_detected,
        tags_anew(*old(edit), *final(edit), db@, window, rate),
{
    let ghost was = *edit;
    let ghost n = db@.len() as int;
    assert(n * window + rate <= u64::MAX) by (nonlinear_arith)
        requires
            2 * n * window <= u64::MAX,
            n >= 0,
            rate <= u32::MAX,
    ;
    let tags = tag(db, window, rate, &edit.detect);
    let ghost tv = tags@;
    edit.set_silences(tags);
    proof {
        let p = was.detect;
        let runs = choose|runs: Seq<Run>| #[trigger]
            all_runs(db@, p, min_windows(p, rate, window), runs) && tv == all_tagged(runs, n, window, rate);
        law_tags_are_sorted(runs, n, window, rate);
        assert(tagged_as(was, *edit, db@, window, rate, runs));
    }
}

impl Session {
    /// The splits are in order, now and in every step that can be taken back; the history is no
    /// longer than it may be; and the selection is an index that can be counted up from.
    pub open spec fn wf(&self) -> bool {
        &&& self.edit.wf()
        &&& self.history@.wf()
        &&& all_ordered(self.history@)
        &&& self.drag matches Some(s) ==> ordered(s@)
        &&& self.cur matches Some(i) ==> i < usize::MAX
    }

    /// Every split lies strictly inside a recording of `total` frames, now and in every state
    /// that can be brought back.
    pub open spec fn inside(&self, total: u64) -> bool {
        &&& splits_inside(self.edit.splits@, total)
        &&& history_inside(self.history@, total)
        &&& self.drag matches Some(s) ==> snap_inside(s@, total)
    }

    pub fn new(edit: RecordingEdit) -> (r: Session)
        requires
            edit.wf(),
        ensures
            r.wf(),
            forall|total: u64| splits_inside(edit.splits@, total) ==> #[trigger] r.inside(total),
            r.edit == edit,
            r.history@.past.len() == 0,
            r.history@.future.len() == 0,
            r.cur is None,
            r.drag is None,
    {
        Session { edit, history: History::default(), cur: None, drag: None }
    }

    /// Record the step from `before` to the edit as it is, if there is a difference.
    fn step(&mut self, before: Snapshot)
        requires
            old(self).history@.wf(),
            all_ordered(old(self).history@),
            ordered(before@),
        ensures
            all_ordered(final(self).history@),
            final(self).edit == old(self).edit,
            final(self).cur == old(self).cur,
            final(self).drag == old(self).drag,
            final(self).history@ == stepped(old(self).history@, before@, old(self).edit.snap()),
            final(self).history@.wf(),
            forall|total: u64|
                history_inside(old(self).history@, total) && snap_inside(before@, total) ==> #[trigger] history_inside(
                    final(self).history@,
                    total,
                ),
    {
        proof {
            assert forall|total: u64| history_inside(old(self).history@, total) && snap_inside(before@, total) implies
                #[trigger] history_inside(stepped(old(self).history@, before@, old(self).edit.snap()), total) by {
                lemma_stepped_inside(old(self).history@, before@, old(self).edit.snap(), total);
            }
        }
        let now = self.edit.snapshot();
        if !same_snapshot(&now, &before) {
            self.history.record(before);
        }
    }

    /// The split to listen to again: the selected one, or the one nearest the playhead.
    pub fn replay(&self, pos: u64) -> (r: Option<usize>)
        ensures
            match self.cur {
                Some(i) => r == if i < self.edit.splits@.len() {
                    Some(i)
                } else {
                    None
                },
                None => closest(self.edit.splits@, pos, u64::MAX, r),
            },
    {
        match self.cur {
            Some(i) => if i < self.edit.splits.len() {
                Some(i)
            } else {
                None
            },
            None => self.edit.nearest(pos, u64::MAX),
        }
    }

    /// Tab / Shift+Tab: move through splits in order. The selection stays where there is none to
    /// move to.
    pub fn step_split(&mut self, pos: u64, forward: bool) -> (r: Option<usize>)
        requires
            old(self).wf(),
        ensures
            final(self).wf(),
            forall|total: u64| #[trigger] old(self).inside(total) ==> final(self).inside(total),
            final(self).edit == old(self).edit,
            final(self).history == old(self).history,
            final(self).drag == old(self).drag,
            final(self).cur == if r is Some {
                r
            } else {
                old(self).cur
            },
            match old(self).cur {
                Some(i) => r == if forward {
                    if i + 1 < old(self).edit.splits@.len() {
                        Some((i + 1) as usize)
                    } else {
                        None
                    }
                } else if 0 < i <= old(self).edit.splits@.len() {
                    Some((i - 1) as usize)
                } else {
                    None
                },
                None => if forward {
                    first_after(old(self).edit.splits@, pos as int, r)
                } else {
                    last_before(old(self).edit.splits@, pos as int, r)
                },
            },
    {
        let n: usize = self.edit.splits.len();
        if let Some(i) = self.edit.step_from(self.cur, pos, forward) {
            if i < n {
                self.cur = Some(i);
                return Some(i);
            }
        }
        None
    }

    /// Enter: keep the selected split, then go to the next one still to review.
    pub fn confirm_and_next(&mut self, pos: u64) -> (r: Option<usize>)
        requires
            old(self).wf(),
            old(self).cur is None ==> pos < u64::MAX,
        ensures
            final(self).wf(),
            forall|total: u64| #[trigger] old(self).inside(total) ==> final(self).inside(total),
            same_but_splits(final(self).edit, old(self).edit),
            final(self).drag == old(self).drag,
            final(self).history@ == stepped(old(self).history@, old(self).edit.snap(), final(self).edit.snap()),
            final(self).cur == if r is Some {
                r
            } else {
                old(self).cur
            },
            match old(self).cur {
                Some(i) => {
                    &&& final(self).edit.splits@ == if i < old(self).edit.splits@.len() {
                        old(self).edit.splits@.update(
                            i as int,
                            Split { state: SplitState::Confirmed, ..old(self).edit.splits@[i as int] },
                        )
                    } else {
                        old(self).edit.splits@
                    }
                    &&& next_or_following(final(self).edit.splits@, i, r)
                },
                None => {
                    &&& final(self).edit.splits@ == old(self).edit.splits@
                    &&& next_from_playhead(old(self).edit.splits@, pos, r)
                },
            },
    {
        let _n: usize = self.edit.splits.len();
        let before = self.edit.snapshot();
        let r = self.edit.confirm_and_next(self.cur, pos);
        self.step(before);
        if r.is_some() {
            self.cur = r;
        }
        r
    }

    /// Backspace: drop the selected split, then go to the next one still to review.
    pub fn delete_split(&mut self) -> (r: Option<usize>)
        requires
            old(self).wf(),
        ensures
            final(self).wf(),
            forall|total: u64| #[trigger] old(self).inside(total) ==> final(self).inside(total),
            same_but_splits(final(self).edit, old(self).edit),
            final(self).drag == old(self).drag,
            old(self).cur is None ==> r is None && final(self).edit == old(self).edit && final(self).history == old(
                self,
            ).history && final(self).cur is None,
            old(self).cur matches Some(i) ==> {
                &&& final(self).cur == r
                &&& final(self).history@ == stepped(old(self).history@, old(self).edit.snap(), final(self).edit.snap())
                &&& i >= old(self).edit.splits@.len() ==> r is None && final(self).edit.splits@ == old(self).edit.splits@
                &&& i < old(self).edit.splits@.len() ==> {
                    let left = old(self).edit.splits@.remove(i as int);
                    &&& final(self).edit.splits@ == left
                    &&& left.len() == 0 ==> r is None
                    &&& left.len() > 0 ==> first_to_review(left, i as int % left.len() as int, r)
                }
            },
    {
        let i = match self.cur {
            Some(i) => i,
            None => return None,
        };
        let before = self.edit.snapshot();
        let next = self.edit.delete_and_next(i);
        let _n: usize = self.edit.splits.len();
        self.step(before);
        self.cur = next;
        next
    }

    /// Move the selected split to `at`, as one step. Nothing without a selected split.
    fn move_selected(&mut self, at: u64)
        requires
            old(self).wf(),
            old(self).cur matches Some(i) && i < old(self).edit.splits@.len(),
        ensures
            final(self).wf(),
            forall|total: u64| #[trigger] old(self).inside(total) && 0 < at < total ==> final(self).inside(total),
            same_but_splits(final(self).edit, old(self).edit),
            final(self).drag == old(self).drag,
            final(self).history@ == stepped(old(self).history@, old(self).edit.snap(), final(self).edit.snap()),
            moved_to(old(self).edit.splits@, old(self).cur->0, at, final(self).edit.splits@, final(self).cur),
    {
        let i: usize = match self.cur {
            Some(i) => i,
            None => 0,
        };
        let before = self.edit.snapshot();
        let j = self.edit.move_to(i, at);
        let _n: usize = self.edit.splits.len();
        self.step(before);
        self.cur = Some(j);
        proof {
            assert forall|total: u64| #[trigger] old(self).inside(total) && 0 < at < total implies self.inside(total) by {
                lemma_moved_inside(old(self).edit.splits@, i as int, at, total);
                lemma_snap_inside(old(self).edit, total);
            }
        }
    }

    /// , / . : move the selected split.
    pub fn nudge_split(&mut self, delta: i64, total: u64)
        requires
            old(self).wf(),
            2 <= total <= i64::MAX,
        ensures
            final(self).wf(),
            old(self).inside(total) ==> final(self).inside(total),
            same_but_splits(final(self).edit, old(self).edit),
            final(self).drag == old(self).drag,
            ({
                let s = old(self).edit.splits@;
                if old(self).cur matches Some(i) && i < s.len() {
                    let i = old(self).cur->0;
                    &&& moved_to(
                        s,
                        i,
                        nudged(s[i as int].at, delta, total) as u64,
                        final(self).edit.splits@,
                        final(self).cur,
                    )
                    &&& final(self).history@ == stepped(
                        old(self).history@,
                        old(self).edit.snap(),
                        final(self).edit.snap(),
                    )
                } else {
                    final(self).edit == old(self).edit && final(self).history == old(self).history && final(self).cur == old(
                        self,
                    ).cur
                }
            }),
    {
        let i = match self.cur {
            Some(i) => i,
            None => return ,
        };
        if i >= self.edit.splits.len() {
            return ;
        }
        let x: i128 = self.edit.splits[i].at as i128 + delta as i128;
        let at: u64 = if x < 1 {
            1
        } else if x > total as i128 - 1 {
            total - 1
        } else {
            x as u64
        };
        self.move_selected(at);
    }

    /// S: move the selected split to the quietest point nearby.
    pub fn snap_split(&mut self, db: &[i32], window: u64, rate: u32)
        requires
            old(self).wf(),
            db@.len() > 0 ==> window > 0,
            db@.len() * window <= u64::MAX,
        ensures
            final(self).wf(),
            forall|total: u64| #[trigger]
                old(self).inside(total) && (final(self).cur matches Some(j) ==> 0 < final(self).edit.splits@[j as int].at
                    < total) ==> final(self).inside(total),
            same_but_splits(final(self).edit, old(self).edit),
            final(self).drag == old(self).drag,
            ({
                let s = old(self).edit.splits@;
                if old(self).cur matches Some(i) && i < s.len() {
                    let i = old(self).cur->0;
                    &&& exists|to: u64| #[trigger]
                        moved_to(s, i, to, final(self).edit.splits@, final(self).cur) && if db@.len() == 0 {
                            to == s[i as int].at
                        } else {
                            snapped(db@, window, windows_in(SNAP_NS, rate, window), s[i as int].at, to)
                        }
                    &&& final(self).history@ == stepped(
                        old(self).history@,
                        old(self).edit.snap(),
                        final(self).edit.snap(),
                    )
                } else {
                    final(self).edit == old(self).edit && final(self).history == old(self).history && final(self).cur == old(
                        self,
                    ).cur
                }
            }),
    {
        let i = match self.cur {
            Some(i) => i,
            None => return ,
        };
        if i >= self.edit.splits.len() {
            return ;
        }
        let to = snap(db, window, rate, self.edit.splits[i].at, SNAP_NS);
        self.move_selected(to);
    }

    /// M: add a (confirmed) split at the playhead, inside the recording.
    pub fn add_split(&mut self, pos: u64, total: u64)
        requires
            old(self).wf(),
        ensures
            final(self).wf(),
            old(self).inside(total) ==> final(self).inside(total),
            same_but_splits(final(self).edit, old(self).edit),
            final(self).drag == old(self).drag,
            if pos == 0 || pos >= total {
                final(self).edit == old(self).edit && final(self).history == old(self).history && final(self).cur == old(
                    self,
                ).cur
            } else {
                &&& final(self).history@ == stepped(old(self).history@, old(self).edit.snap(), final(self).edit.snap())
                &&& final(self).cur matches Some(i) && i < final(self).edit.splits@.len() && {
                    let x = final(self).edit.splits@[i as int];
                    &&& x.at == pos
                    &&& x.state == SplitState::Confirmed
                    &&& x.silence is None
                    &&& x.track@.plain()
                    &&& final(self).edit.splits@ == inserted(old(self).edit.splits@, x)
                }
            },
    {
        if pos == 0 || pos >= total {
            return ;
        }
        let before = self.edit.snapshot();
        let split = Split::confirmed(pos);
        proof {
            if self.inside(total) {
                lemma_inserted_inside(self.edit.splits@, split, total);
                lemma_snap_inside(self.edit, total);
            }
        }
        let i = self.edit.insert(split);
        let _n: usize = self.edit.splits.len();
        self.step(before);
        self.cur = Some(i);
    }

    /// Undo (or redo) one step. The selection lands on the split that changed, and off a split
    /// that is gone. Returns whether there was a step.
    pub fn apply_history(&mut self, undo: bool) -> (r: bool)
        requires
            old(self).wf(),
        ensures
            final(self).wf(),
            forall|total: u64| #[trigger] old(self).inside(total) ==> final(self).inside(total),
            final(self).drag == old(self).drag,
            same_outside(final(self).edit, old(self).edit),
            r == if undo {
                old(self).history@.past.len() > 0
            } else {
                old(self).history@.future.len() > 0
            },
            !r ==> final(self).edit == old(self).edit && final(self).history@ == old(self).history@ && final(self).cur
                == old(self).cur,
            r ==> {
                let back = last_step(old(self).history@, undo);
                &&& final(self).edit.snap() == back
                &&& final(self).history@ == if undo {
                    old(self).history@.undone(old(self).edit.snap())
                } else {
                    old(self).history@.redone(old(self).edit.snap())
                }
                &&& followed(old(self).edit.snap(), back, old(self).cur, final(self).cur)
            },
    {
        proof {
            assert forall|total: u64| #[trigger] old(self).inside(total) implies snap_inside(old(self).edit.snap(), total) by {
                lemma_snap_inside(old(self).edit, total);
            }
        }
        let changed = if undo {
            self.history.undo(&mut self.edit)
        } else {
            self.history.redo(&mut self.edit)
        };
        match changed {
            None => false,
            Some(at) => {
                proof {
                    let back = last_step(old(self).history@, undo);
                    assert(differs_first(old(self).edit.snap().splits, back.splits, at));
                    assert(ordered(back));
                    assert(self.edit.snap().splits.len() == self.edit.splits@.len());
                    assert forall|i: int, j: int| 0 <= i < j < self.edit.splits@.len() implies (
                    #[trigger] self.edit.splits@[i]).at < (#[trigger] self.edit.splits@[j]).at by {
                        assert(back.splits[i] == self.edit.splits@[i]@);
                        assert(back.splits[j] == self.edit.splits@[j]@);
                    }
                    assert forall|total: u64| #[trigger] old(self).inside(total) implies splits_inside(
                        self.edit.splits@,
                        total,
                    ) && history_inside(self.history@, total) by {
                        assert(snap_inside(back, total));
                        lemma_snap_inside(self.edit, total);
                    }
                }
                let n: usize = self.edit.splits.len();
                match at {
                    Some(i) => {
                        self.cur = Some(i);
                    },
                    None => {
                        if let Some(i) = self.cur {
                            if i >= n {
                                self.cur = if n == 0 {
                                    None
                                } else {
                                    Some(n - 1)
                                };
                            }
                        }
                    },
                }
                true
            },
        }
    }

    /// Replace unreviewed suggestions and the tagged silences using the current settings.
    /// Confirmed splits stay, and a silence that overlaps one the user kept is kept.
    pub fn redetect(&mut self, db: &[i32], window: u64, rate: u32)
        requires
            old(self).wf(),
            2 * db@.len() <= usize::MAX,
            2 * db@.len() * window <= u64::MAX,
        ensures
            final(self).wf(),
            forall|total: u64| #[trigger]
                old(self).inside(total) && covers_all_but_one(db@, window, total) ==> final(self).inside(total),
            final(self).cur is None,
            final(self).drag == old(self).drag,
            final(self).history@ == stepped(old(self).history@, old(self).edit.snap(), final(self).edit.snap()),
            redetected(old(self).edit, final(self).edit, db@, window, rate),
    {
        let before = self.edit.snapshot();
        let ghost was = self.edit;
        suggest_again(&mut self.edit, db, window, rate);
        let ghost mid = self.edit;
        tag_again(&mut self.edit, db, window, rate);
        proof {
            let (s, runs) = choose|s: Seq<Split>, runs: Seq<Run>| #[trigger]
                found(was, mid, db@, window, rate, s, runs);
            assert(found(was, self.edit, db@, window, rate, s, runs));
            let runs = choose|runs: Seq<Run>| #[trigger] tagged_as(mid, self.edit, db@, window, rate, runs);
            assert(tagged_as(was, self.edit, db@, window, rate, runs));
            assert forall|total: u64| #[trigger]
                old(self).inside(total) && covers_all_but_one(db@, window, total) implies splits_inside(
                self.edit.splits@,
                total,
            ) && snap_inside(was.snap(), total) by {
                lemma_found_inside(was, self.edit, db@, window, rate, total);
                lemma_snap_inside(was, total);
            }
        }
        self.step(before);
        self.cur = None;
    }

    /// Start dragging split `i`.
    pub fn begin_drag(&mut self, i: usize)
        requires
            old(self).wf(),
            i < usize::MAX,
        ensures
            final(self).wf(),
            forall|total: u64| #[trigger] old(self).inside(total) ==> final(self).inside(total),
            final(self).edit == old(self).edit,
            final(self).history == old(self).history,
            final(self).cur == Some(i),
            opt_snap(final(self).drag) == Some(old(self).edit.snap()),
    {
        self.drag = Some(self.edit.snapshot());
        self.cur = Some(i);
    }

    /// The marker is now at `frame`: no step of its own until the drag ends.
    pub fn drag_to(&mut self, frame: u64, total: u64)
        requires
            old(self).wf(),
            total >= 2,
        ensures
            final(self).wf(),
            old(self).inside(total) ==> final(self).inside(total),
            same_but_splits(final(self).edit, old(self).edit),
            final(self).history == old(self).history,
            final(self).drag == old(self).drag,
            old(self).cur is None ==> final(self).edit == old(self).edit && final(self).cur is None,
            old(self).cur matches Some(i) ==> if i < old(self).edit.splits@.len() {
                moved_to(
                    old(self).edit.splits@,
                    i,
                    nudged(frame, 0, total) as u64,
                    final(self).edit.splits@,
                    final(self).cur,
                )
            } else {
                final(self).edit == old(self).edit && final(self).cur == old(self).cur
            },
    {
        let i = match self.cur {
            Some(i) => i,
            None => return ,
        };
        let at: u64 = if frame < 1 {
            1
        } else if frame > total - 1 {
            total - 1
        } else {
            frame
        };
        proof {
            if self.inside(total) && i < self.edit.splits@.len() {
                lemma_moved_inside(self.edit.splits@, i as int, at, total);
            }
        }
        let j = self.edit.move_to(i, at);
        let _n: usize = self.edit.splits.len();
        self.cur = Some(j);
    }

    /// The marker was let go: the whole drag becomes one step. Returns whether it moved.
    pub fn end_drag(&mut self) -> (r: bool)
        requires
            old(self).wf(),
        ensures
            final(self).wf(),
            forall|total: u64| #[trigger] old(self).inside(total) ==> final(self).inside(total),
            final(self).edit == old(self).edit,
            final(self).cur == old(self).cur,
            final(self).drag is None,
            r == (old(self).drag matches Some(s) && s@ != old(self).edit.snap()),
            final(self).history@ == match old(self).drag {
                Some(s) => stepped(old(self).history@, s@, old(self).edit.snap()),
                None => old(self).history@,
            },
    {
        let before = match self.drag.take() {
            Some(s) => s,
            None => return false,
        };
        let now = self.edit.snapshot();
        if same_snapshot(&now, &before) {
            return false;
        }
        self.history.record(before);
        true
    }

    /// Give a track its title, without spaces around it.
    pub fn set_title(&mut self, track: usize, title: &str)
        requires
            old(self).wf(),
        ensures
            final(self).wf(),
            forall|total: u64| #[trigger] old(self).inside(total) ==> final(self).inside(total),
            final(self).cur == old(self).cur,
            final(self).drag == old(self).drag,
            tracklist::same_but_metas(final(self).edit, old(self).edit),
            final(self).history@ == stepped(old(self).history@, old(self).edit.snap(), final(self).edit.snap()),
            forall|k: int| #![trigger final(self).edit.meta_at(k)]
                0 <= k < old(self).edit.track_count() ==> if k == track {
                    final(self).edit.meta_at(k).title@ == trimmed(title@) && final(self).edit.meta_at(k).drop == old(
                        self,
                    ).edit.meta_at(k).drop
                } else {
                    final(self).edit.meta_at(k) == old(self).edit.meta_at(k)
                },
    {
        let before = self.edit.snapshot();
        let t = chars_of(title);
        let text = string_of(trim(&t));
        let ghost was = self.edit;
        match self.edit.track_meta_mut(track) {
            Some(m) => {
                m.title = text;
            },
            None => {},
        }
        proof {
            assert forall|k: int| #![trigger self.edit.meta_at(k)] 0 <= k < was.track_count() && k != track implies self.edit.meta_at(
                k,
            ) == was.meta_at(k) by {}
        }
        self.step(before);
    }

    /// X: leave a track out of the export (or bring it back).
    pub fn toggle_drop(&mut self, track: usize)
        requires
            old(self).wf(),
        ensures
            final(self).wf(),
            forall|total: u64| #[trigger] old(self).inside(total) ==> final(self).inside(total),
            final(self).cur == old(self).cur,
            final(self).drag == old(self).drag,
            tracklist::same_but_metas(final(self).edit, old(self).edit),
            final(self).history@ == stepped(old(self).history@, old(self).edit.snap(), final(self).edit.snap()),
            forall|k: int| #![trigger final(self).edit.meta_at(k)]
                0 <= k < old(self).edit.track_count() ==> if k == track {
                    final(self).edit.meta_at(k) == (TrackMeta {
                        drop: !old(self).edit.meta_at(k).drop,
                        ..old(self).edit.meta_at(k)
                    })
                } else {
                    final(self).edit.meta_at(k) == old(self).edit.meta_at(k)
                },
    {
        let before = self.edit.snapshot();
        let ghost was = self.edit;
        match self.edit.track_meta_mut(track) {
            Some(m) => {
                m.drop = !m.drop;
            },
            None => {},
        }
        proof {
            assert forall|k: int| #![trigger self.edit.meta_at(k)] 0 <= k < was.track_count() && k != track implies self.edit.meta_at(
                k,
            ) == was.meta_at(k) by {}
        }
        self.step(before);
    }

    /// The place whose silence G acts on: the selected split, or the playhead.
    pub open spec fn silence_place(&self, pos: u64) -> u64 {
        match self.cur {
            Some(i) if i < self.edit.splits@.len() => self.edit.splits@[i as int].at,
            _ => pos,
        }
    }

    /// G: keep the silence at the selected split (or under the playhead) in the export, or cut it
    /// again.
    pub fn toggle_silence(&mut self, pos: u64)
        requires
            old(self).wf(),
            silences_sorted(old(self).edit.silences@),
        ensures
            final(self).wf(),
            forall|total: u64| #[trigger] old(self).inside(total) ==> final(self).inside(total),
            silences_sorted(final(self).edit.silences@),
            final(self).cur == old(self).cur,
            final(self).drag == old(self).drag,
            same_decisions(old(self).edit, final(self).edit),
            final(self).edit.splits == old(self).edit.splits,
            final(self).edit.detected == old(self).edit.detected,
            final(self).edit.silences_detected == old(self).edit.silences_detected,
            final(self).history@ == stepped(old(self).history@, old(self).edit.snap(), final(self).edit.snap()),
            final(self).edit.silences@.len() == old(self).edit.silences@.len(),
            forall|k: int| #![trigger final(self).edit.silences@[k]]
                0 <= k < old(self).edit.silences@.len() ==> final(self).edit.silences@[k] == toggled(
                    old(self).edit.silences@[k],
                    old(self).silence_place(pos),
                ),
    {
        let before = self.edit.snapshot();
        let at: u64 = match self.cur {
            Some(i) if i < self.edit.splits.len() => self.edit.splits[i].at,
            _ => pos,
        };
        match self.edit.silence_at(at) {
            Some(i) => {
                let s = self.edit.silences[i];
                self.edit.silences.set(i, Silence { keep: !s.keep, ..s });
            },
            None => {},
        }
        self.step(before);
    }

    /// Titles from a pasted list go to the kept tracks in order. Returns how many were set.
    pub fn apply_tracklist(&mut self, text: &str) -> (r: usize)
        requires
            old(self).wf(),
            old(self).edit.splits@.len() < usize::MAX,
        ensures
            final(self).wf(),
            forall|total: u64| #[trigger] old(self).inside(total) ==> final(self).inside(total),
            final(self).cur == old(self).cur,
            final(self).drag == old(self).drag,
            tracklist::same_but_metas(final(self).edit, old(self).edit),
            final(self).history@ == stepped(old(self).history@, old(self).edit.snap(), final(self).edit.snap()),
            exists|titles: Seq<String>| {
                &&& #[trigger] strings(titles) == tracklist::titles_of(
                    split_on(text@, '\n'),
                )
                &&& forall|k: int| #![trigger final(self).edit.meta_at(k)]
                    0 <= k < old(self).edit.track_count() ==> final(self).edit.meta_at(k) == tracklist::titled(
                        old(self).edit,
                        titles,
                        k,
                    )
                &&& r == if tracklist::kept_before(old(self).edit, old(self).edit.track_count()) < titles.len() {
                    tracklist::kept_before(old(self).edit, old(self).edit.track_count())
                } else {
                    titles.len() as int
                }
            },
    {
        let titles = tracklist::parse(text);
        let before = self.edit.snapshot();
        let n = tracklist::apply(&mut self.edit, &titles);
        self.step(before);
        n
    }
}

/// Every split lies strictly inside a recording of `total` frames.
pub open spec fn splits_inside(s: Seq<Split>, total: u64) -> bool {
    forall|k: int| 0 <= k < s.len() ==> 0 < (#[trigger] s[k]).at < total
}

/// So does every split of a snapshot.
pub open spec fn snap_inside(s: SnapView, total: u64) -> bool {
    forall|k: int| 0 <= k < s.splits.len() ==> 0 < (#[trigger] s.splits[k]).at < total
}

/// So does every split of every state in the history.
pub open spec fn history_inside(h: HistoryView, total: u64) -> bool {
    &&& forall|i: int| 0 <= i < h.past.len() ==> snap_inside(#[trigger] h.past[i], total)
    &&& forall|i: int| 0 <= i < h.future.len() ==> snap_inside(#[trigger] h.future[i], total)
}

/// A snapshot is inside the recording if its splits are.
proof fn lemma_snap_inside(e: RecordingEdit, total: u64)
    ensures
        snap_inside(e.snap(), total) == splits_inside(e.splits@, total),
{
    assert forall|k: int| 0 <= k < e.splits@.len() implies (#[trigger] e.snap().splits[k]).at == e.splits@[k].at by {}
    if snap_inside(e.snap(), total) {
        assert forall|k: int| 0 <= k < e.splits@.len() implies 0 < (#[trigger] e.splits@[k]).at < total by {
            assert(e.snap().splits[k].at == e.splits@[k].at);
        }
    }
}

/// A step keeps the history inside the recording.
proof fn lemma_stepped_inside(h: HistoryView, before: SnapView, after: SnapView, total: u64)
    requires
        history_inside(h, total),
        snap_inside(before, total),
    ensures
        history_inside(stepped(h, before, after), total),
{
    let past = h.past.push(before);
    assert forall|i: int| 0 <= i < past.len() implies snap_inside(#[trigger] past[i], total) by {
        if i < h.past.len() {
            assert(past[i] == h.past[i]);
        }
    }
    assert forall|i: int| 0 <= i < past.len() - 1 implies snap_inside(#[trigger] past.skip(1)[i], total) by {
        assert(past.skip(1)[i] == past[i + 1]);
    }
}

proof fn lemma_inserted_inside(s: Seq<Split>, x: Split, total: u64)
    requires
        splits_inside(s, total),
        0 < x.at < total,
    ensures
        splits_inside(inserted(s, x), total),
{
    law_insert_keeps_the_others(s, x);
    let r = inserted(s, x);
    assert forall|k: int| 0 <= k < r.len() implies 0 < (#[trigger] r[k]).at < total by {
        assert(r.contains(r[k]));
        if r[k] != x {
            let i = choose|i: int| 0 <= i < s.len() && s[i] == r[k];
            assert(0 < s[i].at < total);
        }
    }
}

proof fn lemma_removed_inside(s: Seq<Split>, i: int, total: u64)
    requires
        splits_inside(s, total),
        0 <= i < s.len(),
    ensures
        splits_inside(s.remove(i), total),
{
    let r = s.remove(i);
    assert forall|k: int| 0 <= k < r.len() implies 0 < (#[trigger] r[k]).at < total by {
        assert(r[k] == if k < i { s[k] } else { s[k + 1] });
    }
}

proof fn lemma_moved_inside(s: Seq<Split>, i: int, at: u64, total: u64)
    requires
        splits_inside(s, total),
        0 <= i < s.len(),
        0 < at < total,
    ensures
        splits_inside(inserted(s.remove(i), Split { at, ..s[i] }), total),
{
    lemma_removed_inside(s, i, total);
    lemma_inserted_inside(s.remove(i), Split { at, ..s[i] }, total);
}

/// Detection suggests nothing outside a recording that its windows do not reach beyond by more
/// than the last of them.
proof fn lemma_found_inside(
    before: RecordingEdit,
    after: RecordingEdit,
    db: Seq<i32>,
    window: u64,
    rate: u32,
    total: u64,
)
    requires
        before.wf(),
        suggests_anew(before, after, db, window, rate),
        splits_inside(before.splits@, total),
        covers_all_but_one(db, window, total),
    ensures
        splits_inside(after.splits@, total),
{
    let (found_splits, runs) = choose|s: Seq<Split>, runs: Seq<Run>| #[trigger]
        found(before, after, db, window, rate, s, runs);
    let p = before.detect;
    let all = before.splits@;
    let gap = (KEEP_CLEAR_SECS * rate) as u64;
    law_suggestions_split_silences(db, window, rate, p, runs, found_splits);
    law_detection_keeps_confirmed(all, found_splits, gap);
    let confirmed = of_state(all, SplitState::Confirmed);
    let old = of_state(all, SplitState::Suggested);
    let is_conf = |x: Split| x.state == SplitState::Confirmed;
    assert forall|k: int| 0 <= k < found_splits.len() implies 0 < (#[trigger] found_splits[k]).at < total by {
        let i = choose|i: int|
            0 <= i < runs.len() && is_inner(runs[i], db.len() as int) && is_split_of(
                found_splits[k],
                #[trigger] runs[i],
                window,
                rate,
            );
        assert(whole_run(db, p, runs[i].start as int, runs[i].end as int));
        lemma_middle(runs[i], window);
        let (x, y, w, n) = (runs[i].start as int, runs[i].end as int, window as int, db.len() as int);
        assert(x * w > 0 && y * w <= (n - 1) * w) by (nonlinear_arith)
            requires
                0 < x,
                y <= n - 1,
                w > 0,
        ;
    }
    let now = after.splits@;
    assert forall|k: int| 0 <= k < now.len() implies 0 < (#[trigger] now[k]).at < total by {
        assert(now.contains(now[k]));
        if confirmed.contains(now[k]) {
            all.lemma_filter_contains_rev(is_conf, now[k]);
            let i = choose|i: int| 0 <= i < all.len() && all[i] == now[k];
            assert(0 < all[i].at < total);
        } else {
            let i = choose|i: int|
                0 <= i < found_splits.len() && clear_of(confirmed, #[trigger] found_splits[i], gap) && now[k] == with_carried(
                    old,
                    found_splits[i],
                    gap,
                );
            carried_stays_put(old, found_splits[i], gap);
        }
    }
}

/// The windows of a loudness track over a recording of `total` frames: all but the last lie
/// wholly inside it.
pub open spec fn covers_all_but_one(db: Seq<i32>, window: u64, total: u64) -> bool {
    window > 0 && (db.len() - 1) * window <= total
}

/// The state that the next undo (or redo) brings back.
pub open spec fn last_step(h: HistoryView, undo: bool) -> SnapView {
    if undo {
        h.past.last()
    } else {
        h.future.last()
    }
}

/// Where the selection goes when `now` gives way to `back`.
pub open spec fn followed(now: SnapView, back: SnapView, cur: Option<usize>, after: Option<usize>) -> bool {
    exists|at: Option<usize>| #[trigger]
        differs_first(now.splits, back.splits, at) && after == (match at {
            Some(i) => Some(i),
            None => landed(cur, back.splits.len() as int),
        })
}

/// Where the selection goes when nothing it could land on changed: it stays, unless it is past
/// the last split.
pub open spec fn landed(cur: Option<usize>, n: int) -> Option<usize> {
    match cur {
        Some(i) => if i < n {
            Some(i)
        } else if n == 0 {
            None
        } else {
            Some((n - 1) as usize)
        },
        None => None,
    }
}

/// Every state in the history has its splits in order.
pub open spec fn all_ordered(h: HistoryView) -> bool {
    &&& forall|i: int| 0 <= i < h.past.len() ==> ordered(#[trigger] h.past[i])
    &&& forall|i: int| 0 <= i < h.future.len() ==> ordered(#[trigger] h.future[i])
}

pub open spec fn ordered(s: SnapView) -> bool {
    sorted_views(s.splits)
}

/// In strictly increasing order of position.
pub open spec fn sorted_views(s: Seq<crate::edit::SplitView>) -> bool {
    forall|i: int, j: int| 0 <= i < j < s.len() ==> (#[trigger] s[i]).at < (#[trigger] s[j]).at
}

/// Split `i` was moved to `at`, and the selection went with it.
pub open spec fn moved_to(before: Seq<Split>, i: usize, at: u64, after: Seq<Split>, cur: Option<usize>) -> bool {
    let x = Split { at, ..before[i as int] };
    &&& after == inserted(before.remove(i as int), x)
    &&& cur is Some
    &&& cur->0 < after.len()
    &&& after[cur->0 as int] == x
}

/// A silence after asking to keep what is silent at `at`, or to cut it again.
pub open spec fn toggled(s: Silence, at: u64) -> Silence {
    if within(s, at) {
        Silence { keep: !s.keep, ..s }
    } else {
        s
    }
}

/// Asking twice at the same place changes nothing.
pub proof fn law_silence_toggles_back(s: Silence, at: u64)
    ensures
        toggled(toggled(s, at), at) == s,
{
}

/// What the user decided about the recording as a whole is the same in both.
pub open spec fn same_decisions(before: RecordingEdit, after: RecordingEdit) -> bool {
    &&& after.status == before.status
    &&& after.detect == before.detect
    &&& after.head == before.head
}

/// `after` is `before` with its suggestions and its tagged silences replaced by those found in
/// the loudness track.
pub open spec fn redetected(before: RecordingEdit, after: RecordingEdit, db: Seq<i32>, window: u64, rate: u32) -> bool {
    &&& after.wf()
    &&& after.detected
    &&& after.silences_detected
    &&& same_decisions(before, after)
    &&& suggests_anew(before, after, db, window, rate)
    &&& tags_anew(before, after, db, window, rate)
}

/// The splits of `after` are those of `before` with the suggestions replaced.
pub open spec fn suggests_anew(before: RecordingEdit, after: RecordingEdit, db: Seq<i32>, window: u64, rate: u32) -> bool {
    exists|suggestions: Seq<Split>, runs: Seq<Run>| #[trigger]
        found(before, after, db, window, rate, suggestions, runs)
}

/// The silences of `after` are the quiet stretches of the loudness track.
pub open spec fn tags_anew(before: RecordingEdit, after: RecordingEdit, db: Seq<i32>, window: u64, rate: u32) -> bool {
    exists|runs: Seq<Run>| #[trigger] tagged_as(before, after, db, window, rate, runs)
}

/// The silences of `after` are what is cut for the quiet stretches `runs`, in order; one that
/// overlaps a silence that was kept is kept.
pub open spec fn tagged_as(
    before: RecordingEdit,
    after: RecordingEdit,
    db: Seq<i32>,
    window: u64,
    rate: u32,
    runs: Seq<Run>,
) -> bool {
    let p = before.detect;
    let tags = all_tagged(runs, db.len() as int, window, rate);
    &&& all_runs(db, p, min_windows(p, rate, window), runs)
    &&& silences_sorted(after.silences@)
    &&& after.silences@.len() == tags.len()
    &&& forall|i: int| #![trigger after.silences@[i]]
        0 <= i < tags.len() ==> after.silences@[i] == (Silence {
            keep: kept_before(before.silences@, tags[i]),
            ..tags[i]
        })
}

/// `suggestions` is what the quiet stretches `runs` of the loudness track suggest, and they took
/// the place of the old ones.
pub open spec fn found(
    before: RecordingEdit,
    after: RecordingEdit,
    db: Seq<i32>,
    window: u64,
    rate: u32,
    suggestions: Seq<Split>,
    runs: Seq<Run>,
) -> bool {
    let p = before.detect;
    let cs = thinned(runs, db.len() as int, window, min_track(p, rate));
    &&& all_runs(db, p, min_windows(p, rate, window), runs)
    &&& suggestions.len() == cs.len()
    &&& forall|k: int| 0 <= k < cs.len() ==> is_suggestion(#[trigger] suggestions[k], cs[k], window, rate)
    &&& after.splits@ == with_suggestions(
        of_state(before.splits@, SplitState::Confirmed),
        of_state(before.splits@, SplitState::Confirmed),
        of_state(before.splits@, SplitState::Suggested),
        suggestions,
        (KEEP_CLEAR_SECS * rate) as u64,
    )
}

} // verus!

//! Undo and redo over snapshots of the split list. Splits are small, so snapshots are cheap.
use vstd::prelude::*;
use crate::edit::{split_views, RecordingEdit, Silence, SnapView, Snapshot, Split, SplitView};

verus! {

/// How many steps can be undone.
pub const LIMIT: usize = 500;

/// What has been recorded and what has been undone, oldest first.
#[derive(Clone, Debug)]
pub struct History {
    past: Vec<Snapshot>,
    future: Vec<Snapshot>,
}

/// The contents of a history.
#[verifier::ext_equal]
pub struct HistoryView {
    pub past: Seq<SnapView>,
    pub future: Seq<SnapView>,
}

/// The views of a list of snapshots.
pub open spec fn snap_views(s: Seq<Snapshot>) -> Seq<SnapView> {
    s.map_values(|x: Snapshot| x@)
}

impl View for History {
    type V = HistoryView;

    closed spec fn view(&self) -> HistoryView {
        HistoryView { past: snap_views(self.past@), future: snap_views(self.future@) }
    }
}

impl HistoryView {
    /// No more than `LIMIT` steps are held.
    pub open spec fn wf(self) -> bool {
        self.past.len() + self.future.len() <= LIMIT
    }

    /// The history after recording `before`. A state equal to the last one is not recorded
    /// again; otherwise what had been undone is forgotten, and the oldest step with it once
    /// there are too many.
    pub open spec fn recorded(self, before: SnapView) -> HistoryView {
        if self.past.len() > 0 && self.past.last() == before {
            self
        } else {
            let past = self.past.push(before);
            HistoryView {
                past: if past.len() > LIMIT {
                    past.skip(1)
                } else {
                    past
                },
                future: Seq::empty(),
            }
        }
    }

    /// The history after undoing one step from the state `now`.
    pub open spec fn undone(self, now: SnapView) -> HistoryView {
        HistoryView { past: self.past.drop_last(), future: self.future.push(now) }
    }

    /// The history after redoing one step from the state `now`.
    pub open spec fn redone(self, now: SnapView) -> HistoryView {
        HistoryView { past: self.past.push(now), future: self.future.drop_last() }
    }
}

/// The first index where `a` and `b` differ, clamped to a valid index of `b`; nothing if they
/// are the same or `b` is empty.
pub open spec fn differs_first(a: Seq<SplitView>, b: Seq<SplitView>, r: Option<usize>) -> bool {
    if a == b || b.len() == 0 {
        r is None
    } else {
        &&& r is Some
        &&& r->0 < b.len()
        &&& forall|k: int| 0 <= k < r->0 ==> k < a.len() && #[trigger] a[k] == b[k]
        &&& r->0 < a.len() && a[r->0 as int] == b[r->0 as int] ==> r->0 == b.len() - 1 && b.len() < a.len()
    }
}

/// Everything but the undoable part is the same.
pub open spec fn same_outside(a: RecordingEdit, b: RecordingEdit) -> bool {
    &&& a.status == b.status
    &&& a.detect == b.detect
    &&& a.detected == b.detected
    &&& a.silences_detected == b.silences_detected
}

fn same_silences(a: &Vec<Silence>, b: &Vec<Silence>) -> (r: bool)
    ensures
        r == (a@ == b@),
{
    if a.len() != b.len() {
        return false;
    }
    let mut i: usize = 0;
    while i < a.len()
        invariant
            i <= a@.len() == b@.len(),
            forall|k: int| 0 <= k < i ==> a@[k] == b@[k],
        decreases a@.len() - i,
    {
        if a[i] != b[i] {
            return false;
        }
        i += 1;
    }
    assert(a@ =~= b@);
    true
}

/// How many splits at the start are the same in both.
fn common_prefix(a: &Vec<Split>, b: &Vec<Split>) -> (r: usize)
    ensures
        r <= a@.len(),
        r <= b@.len(),
        forall|k: int| 0 <= k < r ==> (#[trigger] a@[k])@ == b@[k]@,
        r < a@.len() && r < b@.len() ==> a@[r as int]@ != b@[r as int]@,
{
    let mut i: usize = 0;
    while i < a.len() && i < b.len() && a[i].same(&b[i])
        invariant
            i <= a@.len(),
            i <= b@.len(),
            forall|k: int| 0 <= k < i ==> (#[trigger] a@[k])@ == b@[k]@,
        decreases a@.len() - i,
    {
        i += 1;
    }
    i
}

fn same_splits(a: &Vec<Split>, b: &Vec<Split>) -> (r: bool)
    ensures
        r == (split_views(a@) == split_views(b@)),
{
    let (va, vb) = (Ghost(split_views(a@)), Ghost(split_views(b@)));
    if a.len() != b.len() {
        assert(va@.len() != vb@.len());
        return false;
    }
    let n: usize = common_prefix(a, b);
    if n < a.len() {
        assert(va@[n as int] != vb@[n as int]);
        false
    } else {
        assert(va@ =~= vb@);
        true
    }
}

pub fn same_snapshot(a: &Snapshot, b: &Snapshot) -> (r: bool)
    ensures
        r == (a@ == b@),
{
    a.head.same(&b.head) && same_splits(&a.splits, &b.splits) && same_silences(&a.silences, &b.silences)
}

/// First index where `a` and `b` differ, clamped to a valid index of `b`.
fn first_difference(a: &Vec<Split>, b: &Vec<Split>) -> (r: Option<usize>)
    ensures
        differs_first(split_views(a@), split_views(b@), r),
{
    let (va, vb) = (Ghost(split_views(a@)), Ghost(split_views(b@)));
    if b.len() == 0 || same_splits(a, b) {
        return None;
    }
    let i: usize = common_prefix(a, b);
    assert(forall|k: int| 0 <= k < i ==> va@[k] == vb@[k]);
    assert(i < a@.len() && i < b@.len() ==> va@[i as int] != vb@[i as int]);
    if i == b.len() && i == a.len() {
        assert(va@ =~= vb@);
    }
    if i < b.len() {
        Some(i)
    } else {
        Some(b.len() - 1)
    }
}

impl Default for History {
    fn default() -> (r: History)
        ensures
            r@.past.len() == 0,
            r@.future.len() == 0,
            r@.wf(),
    {
        History { past: Vec::new(), future: Vec::new() }
    }
}

impl History {
    /// Whether there is a step to undo.
    pub fn can_undo(&self) -> (r: bool)
        ensures
            r == (self@.past.len() > 0),
    {
        self.past.len() > 0
    }

    /// Record the state *before* a change.
    pub fn record(&mut self, before: Snapshot)
        requires
            old(self)@.wf(),
        ensures
            final(self)@ == old(self)@.recorded(before@),
            final(self)@.wf(),
    {
        let n: usize = self.past.len();
        let ghost was = self@.past;
        if n > 0 && same_snapshot(&self.past[n - 1], &before) {
            assert(was.last() == before@);
            return;
        }
        assert(n > 0 ==> was.last() == self.past@[n - 1]@);
        self.past.push(before);
        assert(snap_views(self.past@) =~= was.push(before@));
        if self.past.len() > LIMIT {
            let ghost full = self.past@;
            self.past.remove(0);
            assert(snap_views(self.past@) =~= snap_views(full).skip(1));
        }
        self.future.clear();
        assert(snap_views(self.future@) =~= Seq::<SnapView>::empty());
    }

    /// Restore the previous state. `None` if there was nothing to undo; otherwise the index
    /// of the first split that changed, if any (so the selection can land on it).
    pub fn undo(&mut self, edit: &mut RecordingEdit) -> (r: Option<Option<usize>>)
        requires
            old(self)@.wf(),
        ensures
            final(self)@.wf(),
            same_outside(*final(edit), *old(edit)),
            old(self)@.past.len() == 0 ==> r is None && final(self)@ == old(self)@ && *final(edit) == *old(edit),
            old(self)@.past.len() > 0 ==> {
                &&& r is Some
                &&& differs_first(old(edit).snap().splits, old(self)@.past.last().splits, r->0)
                &&& final(edit).snap() == old(self)@.past.last()
                &&& final(self)@ == old(self)@.undone(old(edit).snap())
            },
    {
        let ghost was = self@;
        match self.past.pop() {
            None => None,
            Some(prev) => {
                let now = edit.snapshot();
                let at = first_difference(&now.splits, &prev.splits);
                assert(was.past.last() == prev@);
                assert(snap_views(self.past@) =~= was.past.drop_last());
                edit.head = prev.head;
                edit.splits = prev.splits;
                edit.silences = prev.silences;
                self.future.push(now);
                assert(snap_views(self.future@) =~= was.future.push(now@));
                Some(at)
            },
        }
    }

    /// Take back the last `undo`.
    pub fn redo(&mut self, edit: &mut RecordingEdit) -> (r: Option<Option<usize>>)
        requires
            old(self)@.wf(),
        ensures
            final(self)@.wf(),
            same_outside(*final(edit), *old(edit)),
            old(self)@.future.len() == 0 ==> r is None && final(self)@ == old(self)@ && *final(edit) == *old(edit),
            old(self)@.future.len() > 0 ==> {
                &&& r is Some
                &&& differs_first(old(edit).snap().splits, old(self)@.future.last().splits, r->0)
                &&& final(edit).snap() == old(self)@.future.last()
                &&& final(self)@ == old(self)@.redone(old(edit).snap())
            },
    {
        let ghost was = self@;
        match self.future.pop() {
            None => None,
            Some(next) => {
                let now = edit.snapshot();
                let at = first_difference(&now.splits, &next.splits);
                assert(was.future.last() == next@);
                assert(snap_views(self.future@) =~= was.future.drop_last());
                edit.head = next.head;
                edit.splits = next.splits;
                edit.silences = next.silences;
                self.past.push(now);
                assert(snap_views(self.past@) =~= was.past.push(now@));
                Some(at)
            },
        }
    }
}

/// Undoing the change made after `before` was recorded brings `before` back.
pub proof fn law_undo_restores(h: HistoryView, before: SnapView)
    requires
        h.wf(),
    ensures
        h.recorded(before).past.len() > 0,
        h.recorded(before).past.last() == before,
{
}

/// A redo right after an undo brings back both the history and the state that were there, and
/// an undo right after a redo likewise.
pub proof fn law_redo_takes_undo_back(h: HistoryView, now: SnapView)
    ensures
        h.past.len() > 0 ==> h.undone(now).future.last() == now && h.undone(now).redone(h.past.last()) == h,
        h.future.len() > 0 ==> h.redone(now).past.last() == now && h.redone(now).undone(h.future.last()) == h,
{
    if h.past.len() > 0 {
        assert(h.undone(now).redone(h.past.last()) =~= h);
    }
    if h.future.len() > 0 {
        assert(h.redone(now).undone(h.future.last()) =~= h);
    }
}

/// Recording a change forgets what had been undone, so that a redo never mixes two lines of work.
pub proof fn law_recording_forgets_the_future(h: HistoryView, before: SnapView)
    requires
        h.past.len() == 0 || h.past.last() != before,
    ensures
        h.recorded(before).future.len() == 0,
{
}

} // verus!

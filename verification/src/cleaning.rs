//! Apply cuts: a copy of the recording without its cut silence and left-out tracks, as a new
//! entry next to the original (which is never touched). A recording's copy is a WAV; a video's
//! is an MP4.
use vstd::prelude::*;
use crate::edit::{
    covers, is_cleaned, same_but_splits, sorted, RecordingEdit, Split,
};
use crate::recording::{file_stem, is_video, path_stem, video_path, with_file_name, with_name};
use crate::text::{
    append_chars, append_str, chars_of, decimal, decimal_chars, lemma_decimal_reads_back, same_str, string_of,
};

verus! {

/// The stem of a path, or nothing.
pub open spec fn stem_or_none(p: Seq<char>) -> Seq<char> {
    match path_stem(p) {
        Some(s) => s,
        None => Seq::empty(),
    }
}

/// The extension of the copy.
pub open spec fn copy_extension(p: Seq<char>) -> Seq<char> {
    if video_path(p) {
        "mp4"@
    } else {
        "wav"@
    }
}

/// What comes between the stem and the extension of the `n`th name.
pub open spec fn copy_mark(n: nat) -> Seq<char> {
    if n == 1 {
        " (cleaned)."@
    } else {
        " (cleaned "@ + decimal(n) + ")."@
    }
}

/// The `n`th name for the copy, next to the original.
pub open spec fn copy_path(p: Seq<char>, n: nat) -> Seq<char> {
    with_name(p, stem_or_none(p) + copy_mark(n) + copy_extension(p))
}

/// The `n`th name to try: `name (cleaned).wav` (`.mp4` for a video) next to the original, then
/// `(cleaned 2)`, and so on. The first that is not taken is the one.
pub fn cleaned_path(path: &str, n: u64) -> (r: String)
    ensures
        r@ == copy_path(path@, n as nat),
{
    let mut name: Vec<char> = match file_stem(path) {
        Some(s) => chars_of(s.as_str()),
        None => Vec::new(),
    };
    assert(name@ =~= stem_or_none(path@));
    let ghost stem = name@;
    if n == 1 {
        append_str(&mut name, " (cleaned).");
    } else {
        append_str(&mut name, " (cleaned ");
        append_chars(&mut name, &decimal_chars(n));
        append_str(&mut name, ").");
    }
    assert(name@ =~= stem + copy_mark(n as nat));
    if is_video(path) {
        append_str(&mut name, "mp4");
    } else {
        append_str(&mut name, "wav");
    }
    string_of(&with_file_name(&chars_of(path), &name))
}

/// No two of the names are the same, so one is free however many are taken.
pub proof fn law_copies_have_distinct_names(p: Seq<char>, n: nat, m: nat)
    requires
        n > 0,
        m > 0,
        copy_path(p, n) == copy_path(p, m),
    ensures
        n == m,
{
    let stem = stem_or_none(p);
    let ext = copy_extension(p);
    let a = stem + copy_mark(n) + ext;
    let b = stem + copy_mark(m) + ext;
    reveal_strlit(" (cleaned).");
    reveal_strlit(" (cleaned ");
    reveal_strlit(").");
    lemma_decimal_reads_back(n);
    lemma_decimal_reads_back(m);
    let head = (crate::recording::with_name(p, Seq::empty())).len() as int;
    assert(copy_path(p, n).skip(head) =~= a);
    assert(copy_path(p, m).skip(head) =~= b);
    assert(a =~= b);
    let ca = copy_mark(n);
    let cb = copy_mark(m);
    assert(ca.len() == cb.len());
    assert(a.subrange(stem.len() as int, (stem.len() + ca.len()) as int) =~= ca);
    assert(b.subrange(stem.len() as int, (stem.len() + cb.len()) as int) =~= cb);
    assert(ca =~= cb);
    if n == 1 && m != 1 {
        assert(ca[9] == ')');
        assert(cb[9] == ' ');
    }
    if m == 1 && n != 1 {
        assert(cb[9] == ')');
        assert(ca[9] == ' ');
    }
    if n != 1 && m != 1 {
        assert(ca.subrange(10, ca.len() - 2) =~= decimal(n));
        assert(cb.subrange(10, cb.len() - 2) =~= decimal(m));
    }
}

/// Whether the export leaves anything out.
pub open spec fn cuts_something(e: RecordingEdit, total: u64) -> bool {
    exists|x: int| 0 <= x < total && !#[trigger] e.keeps(total, x)
}

fn has_cuts(edit: &RecordingEdit, total: u64) -> (r: bool)
    requires
        edit.wf(),
        edit.splits@.len() < usize::MAX,
    ensures
        r == cuts_something(*edit, total),
{
    let skipped = edit.skipped(total);
    proof {
        if skipped@.len() > 0 {
            assert(covers(skipped@, skipped@[0].0 as int));
            assert(!edit.keeps(total, skipped@[0].0 as int));
        } else {
            assert forall|x: int| 0 <= x < total implies #[trigger] edit.keeps(total, x) by {
                assert(!covers(skipped@, x));
            }
        }
    }
    skipped.len() > 0
}

/// Whether the recording has anything to cut (and isn't being cleaned already).
pub fn can_apply_cuts(edit: &RecordingEdit, total: u64, busy: bool) -> (r: bool)
    requires
        edit.wf(),
        edit.splits@.len() < usize::MAX,
    ensures
        r == (!busy && cuts_something(*edit, total)),
{
    !busy && has_cuts(edit, total)
}

/// What applying the cuts comes to.
#[derive(Clone, Debug)]
pub enum ApplyCuts {
    /// A copy is being written already.
    Busy,
    /// Every track is left out.
    NothingKept,
    /// Nothing is cut in this recording yet.
    NothingCut,
    /// Write these ranges, back to back; the copy gets this edit.
    Write { ranges: Vec<(u64, u64)>, edit: RecordingEdit },
}

pub fn apply_cuts(edit: &RecordingEdit, total: u64, busy: bool) -> (r: ApplyCuts)
    requires
        edit.wf(),
        edit.splits@.len() < usize::MAX,
    ensures
        r is Busy <==> busy,
        r is NothingKept <==> !busy && edit.kept_ranges(total, edit.track_count()).len() == 0,
        r is NothingCut <==> !busy && edit.kept_ranges(total, edit.track_count()).len() > 0 && !cuts_something(*edit, total),
        r matches ApplyCuts::Write { ranges, edit: e } ==> ranges@ == edit.kept_ranges(total, edit.track_count())
            && is_cleaned(*edit, edit.kept_tracks(total, edit.track_count()), ranges@, e),
{
    if busy {
        return ApplyCuts::Busy;
    }
    let (ranges, cleaned) = edit.cleaned(total);
    if ranges.len() == 0 {
        ApplyCuts::NothingKept
    } else if !has_cuts(edit, total) {
        ApplyCuts::NothingCut
    } else {
        ApplyCuts::Write { ranges, edit: cleaned }
    }
}

/// The copy is written, and its timeline starts `shift` frames in (a video's AAC priming): every
/// split moves along.
pub fn shift_splits(edit: &mut RecordingEdit, shift: u64)
    requires
        old(edit).wf(),
        forall|i: int| 0 <= i < old(edit).splits@.len() ==> (#[trigger] old(edit).splits@[i]).at + shift <= u64::MAX,
    ensures
        final(edit).wf(),
        same_but_splits(*final(edit), *old(edit)),
        final(edit).splits@.len() == old(edit).splits@.len(),
        forall|i: int| #![trigger final(edit).splits@[i]]
            0 <= i < old(edit).splits@.len() ==> final(edit).splits@[i] == (Split {
                at: (old(edit).splits@[i].at + shift) as u64,
                ..old(edit).splits@[i]
            }),
{
    let ghost was = edit.splits@;
    let mut i: usize = 0;
    while i < edit.splits.len()
        invariant
            i <= edit.splits@.len(),
            edit.splits@.len() == was.len(),
            was == old(edit).splits@,
            same_but_splits(*edit, *old(edit)),
            forall|j: int| 0 <= j < was.len() ==> (#[trigger] was[j]).at + shift <= u64::MAX,
            forall|j: int| #![trigger edit.splits@[j]]
                0 <= j < was.len() ==> edit.splits@[j] == if j < i {
                    Split { at: (was[j].at + shift) as u64, ..was[j] }
                } else {
                    was[j]
                },
        decreases edit.splits@.len() - i,
    {
        assert(edit.splits@[i as int] == was[i as int]);
        let at: u64 = edit.splits[i].at + shift;
        edit.splits[i].at = at;
        i += 1;
    }
    assert(sorted(edit.splits@)) by {
        assert forall|a: int, b: int| 0 <= a < b < edit.splits@.len() implies (#[trigger] edit.splits@[a]).at < (
        #[trigger] edit.splits@[b]).at by {
            assert(was[a].at < was[b].at);
        }
    }
}

/// Whether undoing takes back the copy itself: it is the one that is selected, it was just made,
/// and it has no edits of its own to undo.
pub fn undoes_apply(last: Option<&str>, selected: Option<&str>, can_undo: bool) -> (r: bool)
    ensures
        r == (last is Some && selected is Some && last->0@ == selected->0@ && !can_undo),
{
    match (last, selected) {
        (Some(a), Some(b)) => same_str(a, b) && !can_undo,
        _ => false,
    }
}

} // verus!

//! What becomes of what the user decided.
use vstd::prelude::*;
use crate::detect::Run;
use crate::edit::{shown_name, RecordingEdit, Silence, SnapView};
use crate::exporting::{done_paths, guessed_kbps};
use crate::history::HistoryView;
use crate::mp3index::Mp3Index;
use crate::recording::Status;
use crate::review::{landed, tagged_as};
use crate::scan::{bitrate_of, Bitrate, SourceInfo};
use crate::state::{unscanned, ScanProgress};
use crate::text::{decimal, is_white, lemma_already_trimmed};
use crate::tracklist::{kept_before, titled};
use crate::views::{paste_text, scan_note, RowNote};

verus! {

/// A silence is kept after a new detection where it shares a frame with one that the user chose to
/// keep, and else it is not.
pub proof fn law_kept_silences_stay_kept(
    before: RecordingEdit,
    after: RecordingEdit,
    db: Seq<i32>,
    window: u64,
    rate: u32,
    runs: Seq<Run>,
    i: int,
)
    requires
        tagged_as(before, after, db, window, rate, runs),
        0 <= i < after.silences@.len(),
    ensures
        forall|k: int, x: int| #![trigger before.silences@[k], in_silence(after.silences@[i], x)]
            0 <= k < before.silences@.len() && before.silences@[k].keep && in_silence(before.silences@[k], x) && in_silence(
                after.silences@[i],
                x,
            ) ==> after.silences@[i].keep,
        after.silences@[i].keep ==> exists|k: int|
            0 <= k < before.silences@.len() && (#[trigger] before.silences@[k]).keep && before.silences@[k].start
                < after.silences@[i].end && after.silences@[i].start < before.silences@[k].end,
{
    let s = after.silences@[i];
    assert forall|k: int, x: int| #![trigger before.silences@[k], in_silence(s, x)]
        0 <= k < before.silences@.len() && before.silences@[k].keep && in_silence(before.silences@[k], x) && in_silence(
            s,
            x,
        ) implies s.keep by {
        let o = before.silences@[k];
        assert(o.start < s.end && s.start < o.end);
    }
}

/// Whether a frame lies in a silence.
pub open spec fn in_silence(s: Silence, x: int) -> bool {
    s.start <= x < s.end
}

/// Pasted titles go to the tracks that are not left out, in order: the first of them gets the
/// first title, and the next one after a track that got a title gets the next title. Tracks that
/// are left out, and those that no title is left for, stay as they are.
pub proof fn law_titles_go_to_the_kept_tracks_in_order(e: RecordingEdit, titles: Seq<String>, j: int, k: int)
    requires
        0 <= j < k,
        !e.meta_at(k).drop,
        forall|i: int| j < i < k ==> (#[trigger] e.meta_at(i)).drop,
    ensures
        !e.meta_at(j).drop ==> kept_before(e, k) == kept_before(e, j) + 1,
        !e.meta_at(j).drop && kept_before(e, j) + 1 < titles.len() ==> titled(e, titles, j).title == titles[kept_before(e, j)]
            && titled(e, titles, k).title == titles[kept_before(e, j) + 1],
        kept_before(e, k) >= titles.len() ==> titled(e, titles, k) == e.meta_at(k),
        e.meta_at(j).drop ==> titled(e, titles, j) == e.meta_at(j),
        !titled(e, titles, k).drop,
        kept_before(e, 0) == 0,
        !e.meta_at(0).drop && titles.len() > 0 ==> titled(e, titles, 0).title == titles[0],
{
    lemma_none_between(e, j + 1, k);
    assert(kept_before(e, j + 1) == kept_before(e, j) + if e.meta_at(j).drop {
        0int
    } else {
        1
    });
    lemma_counted(e, j);
}

proof fn lemma_none_between(e: RecordingEdit, a: int, b: int)
    requires
        0 <= a <= b,
        forall|i: int| a <= i < b ==> (#[trigger] e.meta_at(i)).drop,
    ensures
        kept_before(e, b) == kept_before(e, a),
    decreases b,
{
    if a < b {
        assert(e.meta_at(b - 1).drop);
        lemma_none_between(e, a, b - 1);
    }
}

proof fn lemma_counted(e: RecordingEdit, k: int)
    ensures
        kept_before(e, k) >= 0,
    decreases k,
{
    if k > 0 {
        lemma_counted(e, k - 1);
    }
}

/// A track is shown with its title, without white space round it, and one without a title with its
/// number.
pub proof fn law_tracks_are_shown_with_their_titles(title: Seq<char>, number: Option<nat>)
    ensures
        title.len() > 0 && !is_white(title[0]) && !is_white(title.last()) ==> shown_name(title, number) == Some(title),
        title.len() == 0 ==> shown_name(title, number) == match number {
            Some(n) => Some("Track "@ + decimal(n)),
            None => None,
        },
{
    if title.len() > 0 && !is_white(title[0]) && !is_white(title.last()) {
        lemma_already_trimmed(title);
    } else if title.len() == 0 {
        lemma_already_trimmed(title);
    }
}

/// After a step back the selection is on a split if there is one, and on the same one as before
/// unless that is gone.
pub proof fn law_the_selection_stays(cur: Option<usize>, n: int)
    requires
        n >= 0,
    ensures
        cur is None ==> landed(cur, n) is None,
        cur matches Some(i) && i < n ==> landed(cur, n) == cur,
        cur is Some && n > 0 ==> landed(cur, n) is Some && landed(cur, n)->0 < n,
        n == 0 ==> landed(cur, n) is None,
{
}

/// What is exported as a whole is what is done: each such recording once, in the order of the
/// list, and nothing else.
pub proof fn law_done_recordings_are_exported(paths: Seq<Seq<char>>, statuses: Seq<Option<Status>>, n: int, i: int)
    requires
        0 <= i < n <= paths.len(),
        n <= statuses.len(),
    ensures
        statuses[i] == Some(Status::Done) ==> done_paths(paths, statuses, i + 1) == done_paths(paths, statuses, i).push(paths[i])
            && done_paths(paths, statuses, i + 1).is_prefix_of(done_paths(paths, statuses, n)),
        statuses[i] != Some(Status::Done) ==> done_paths(paths, statuses, i + 1) == done_paths(paths, statuses, i),
        done_paths(paths, statuses, 0).len() == 0,
    decreases n,
{
    if i < n - 1 {
        law_done_recordings_are_exported(paths, statuses, n - 1, i);
        let (a, b, c) = (
            done_paths(paths, statuses, i + 1),
            done_paths(paths, statuses, n - 1),
            done_paths(paths, statuses, n),
        );
        if statuses[i] == Some(Status::Done) {
            assert(a =~= b.subrange(0, a.len() as int));
            assert(a =~= c.subrange(0, a.len() as int));
        }
    } else {
        let a = done_paths(paths, statuses, n);
        assert(a =~= a.subrange(0, a.len() as int));
    }
}

/// What is scanned next is what was not: each such recording once, in the order of the list, and
/// nothing else.
pub proof fn law_unscanned_recordings_are_scanned(paths: Seq<Seq<char>>, scans: Seq<ScanProgress>, n: int, i: int)
    requires
        0 <= i < n <= paths.len(),
        n <= scans.len(),
    ensures
        scans[i] != ScanProgress::Ready ==> unscanned(paths, scans, i + 1) == unscanned(paths, scans, i).push(paths[i])
            && unscanned(paths, scans, i + 1).is_prefix_of(unscanned(paths, scans, n)),
        scans[i] == ScanProgress::Ready ==> unscanned(paths, scans, i + 1) == unscanned(paths, scans, i),
        unscanned(paths, scans, 0).len() == 0,
    decreases n,
{
    if i < n - 1 {
        law_unscanned_recordings_are_scanned(paths, scans, n - 1, i);
        let (a, b, c) = (unscanned(paths, scans, i + 1), unscanned(paths, scans, n - 1), unscanned(paths, scans, n));
        if scans[i] != ScanProgress::Ready {
            assert(a =~= b.subrange(0, a.len() as int));
            assert(a =~= c.subrange(0, a.len() as int));
        }
    } else {
        let a = unscanned(paths, scans, n);
        assert(a =~= a.subrange(0, a.len() as int));
    }
}

/// A recording lasts as many seconds as its frames fill at its rate, to the nanosecond.
pub proof fn law_durations_are_of_the_frames(info: SourceInfo)
    requires
        info.sample_rate > 0,
        info.total_samples < info.sample_rate * 18_000_000_000,
    ensures
        info.nanoseconds() * info.sample_rate <= info.total_samples * 1_000_000_000 < (info.nanoseconds() + 1)
            * info.sample_rate,
{
    let x = info.total_samples * 1_000_000_000;
    let d = info.sample_rate as int;
    let q = x / d;
    assert(q * d <= x < (q + 1) * d && q <= 18_000_000_000 * 1_000_000_000) by (nonlinear_arith)
        requires
            q == x / d,
            d > 0,
            x < d * 18_000_000_000 * 1_000_000_000,
    ;
}

/// A file that does not tell its bitrate has that of its size over its length, where it is longer
/// than a second.
pub proof fn law_bitrates_are_size_over_length(size: u64, total: u64, rate: u32)
    requires
        0 < rate < total,
        size < 0x1000_0000,
    ensures
        guessed_kbps(size as int, total as int, rate as int) * 1000 * total <= size * 8 * rate < (guessed_kbps(
            size as int,
            total as int,
            rate as int,
        ) + 1) * 1000 * total,
{
    let x = size * 8 * rate;
    let d = 1000 * total;
    let q = x / d;
    assert(0 <= x < 0x8000_0000 * total) by (nonlinear_arith)
        requires
            x == size * 8 * rate,
            0 <= size < 0x1000_0000,
            0 < rate < total,
    ;
    assert(q * d <= x < (q + 1) * d && q <= 0x8000_0000) by (nonlinear_arith)
        requires
            q == x / d,
            d == 1000 * total,
            total > 0,
            0 <= x < 0x8000_0000 * total,
    ;
    assert(q * 1000 * total == q * d && (q + 1) * 1000 * total == (q + 1) * d) by (nonlinear_arith)
        requires
            d == 1000 * total,
    ;
}

/// A bitrate is told as constant where no frame has another one, and then it is that of each
/// frame. Sound that is not compressed has the bitrate of its samples.
pub proof fn law_bitrates_are_those_of_the_frames(m: Mp3Index, bits: u32, rate: u32, channels: u16)
    requires
        m.min_kbps <= m.avg_kbps <= m.max_kbps,
        rate * channels * bits <= u32::MAX,
    ensures
        m.min_kbps == m.max_kbps ==> bitrate_of(Some(m), None, rate, channels) == Bitrate::Cbr(m.min_kbps),
        m.min_kbps < m.max_kbps ==> bitrate_of(Some(m), None, rate, channels) == (Bitrate::Vbr {
            min: m.min_kbps,
            avg: m.avg_kbps,
            max: m.max_kbps,
        }),
        bitrate_of(None, Some(bits), rate, channels) matches Bitrate::Pcm { bits: b, kbps } && b == bits && kbps * 1000
            <= rate * channels * bits < (kbps + 1) * 1000,
        bitrate_of(None, None, rate, channels) == Bitrate::Unknown,
{
    let n = rate * channels * bits;
    assert(n >= 0) by (nonlinear_arith)
        requires
            n == rate * channels * bits,
    ;
}

/// Five hundred steps can be taken back. A new one is the first to be, and it makes the oldest one
/// forgotten where there are as many already.
pub proof fn law_five_hundred_steps_can_be_taken_back(h: HistoryView, before: SnapView, i: int)
    requires
        h.past.len() <= 500,
        h.past.len() == 0 || h.past.last() != before,
        0 <= i < h.past.len(),
    ensures
        ({
            let past = h.recorded(before).past;
            &&& past.last() == before
            &&& h.past.len() < 500 ==> past.len() == h.past.len() + 1 && past[i] == h.past[i]
            &&& h.past.len() == 500 ==> past.len() == 500 && (i > 0 ==> past[i - 1] == h.past[i])
        }),
{
}

/// Pasting tells how many titles there are for how many tracks, that titles are left over where
/// there are more of them, and that tracks are where there are fewer.
pub proof fn law_pasting_tells_what_is_left_over(titles: nat, kept: nat)
    ensures
        ({
            let front = decimal(titles) + " titles for "@ + decimal(kept) + " kept tracks"@;
            &&& titles > kept ==> paste_text(titles, kept) == front + " — the extra titles will be ignored"@
            &&& 0 < titles < kept ==> paste_text(titles, kept) == front + " — the last tracks keep their titles"@
            &&& titles == kept || titles == 0 ==> paste_text(titles, kept) == front
        }),
{
    let front = decimal(titles) + " titles for "@ + decimal(kept) + " kept tracks"@;
    reveal_strlit("");
    assert(front + ""@ =~= front);
}

/// What a recording in the list says of itself: that it waits, is scanned or could not be; and
/// once it was, how many splits there are to review, if any.
pub proof fn law_recordings_say_what_is_left(confirmed: usize, todo: usize)
    requires
        confirmed + todo <= usize::MAX,
    ensures
        scan_note(ScanProgress::Unknown, confirmed, todo) == RowNote::Waiting,
        scan_note(ScanProgress::Scanning, confirmed, todo) == RowNote::Scanning,
        scan_note(ScanProgress::Failed, confirmed, todo) == RowNote::ScanFailed,
        todo > 0 ==> scan_note(ScanProgress::Ready, confirmed, todo) == (RowNote::ToReview { confirmed, todo }),
        todo == 0 && confirmed > 0 ==> scan_note(ScanProgress::Ready, confirmed, todo) == (RowNote::Reviewed { confirmed }),
        todo == 0 && confirmed == 0 ==> scan_note(ScanProgress::Ready, confirmed, todo) == RowNote::Length,
{
}

} // verus!

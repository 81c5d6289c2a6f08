//! What holds of every edit, whatever was done to it.
use vstd::prelude::*;
use crate::edit::{
    clear_of, covers, first_hit, inserted, is_cleaned, of_state, sorted, total_len, with_carried,
    with_suggestions, RecordingEdit, Silence, Split, SplitState,
};

verus! {

/// Tracks never overlap or leave gaps: every position of the recording lies in exactly one.
pub proof fn law_tracks_tile_the_recording(e: RecordingEdit, total: u64, x: int)
    requires
        e.wf(),
        0 <= x < total,
    ensures
        exists|k: int| 0 <= k < e.track_count() && #[trigger] e.bound(total, k) <= x < e.bound(total, k + 1),
        forall|j: int, k: int|
            0 <= j < e.track_count() && 0 <= k < e.track_count() && #[trigger] e.bound(total, j) <= x < e.bound(
                total,
                j + 1,
            ) && #[trigger] e.bound(total, k) <= x < e.bound(total, k + 1) ==> j == k,
{
    e.lemma_bounds(total);
    let k = find_track(e, total, x, e.track_count());
    assert(e.bound(total, k) <= x < e.bound(total, k + 1));
    assert forall|j: int, k: int|
        0 <= j < e.track_count() && 0 <= k < e.track_count() && #[trigger] e.bound(total, j) <= x < e.bound(total, j + 1)
            && #[trigger] e.bound(total, k) <= x < e.bound(total, k + 1) implies j == k by {
        if j < k {
            assert(e.bound(total, j + 1) <= e.bound(total, k));
        } else if k < j {
            assert(e.bound(total, k + 1) <= e.bound(total, j));
        }
    }
}

proof fn find_track(e: RecordingEdit, total: u64, x: int, n: int) -> (k: int)
    requires
        e.wf(),
        0 < n <= e.track_count(),
        0 <= x < e.bound(total, n),
    ensures
        0 <= k < n,
        e.bound(total, k) <= x < e.bound(total, k + 1),
    decreases n,
{
    e.lemma_bounds(total);
    if e.bound(total, n - 1) <= x {
        n - 1
    } else {
        find_track(e, total, x, n - 1)
    }
}

/// Silence in the middle of a track is never cut, nor is silence the user keeps: unless the
/// track starts or ends inside a silence that is not kept, its audio is the whole track.
pub proof fn law_inner_and_kept_silence_stays(e: RecordingEdit, total: u64, k: int)
    requires
        e.wf(),
        forall|i: int| #![trigger e.silences@[i]]
            0 <= i < e.silences@.len() ==> {
                let s = e.silences@[i];
                s.keep || (!(s.start <= e.bound(total, k) < s.end) && !(s.start < e.bound(total, k + 1) <= s.end))
            },
    ensures
        e.audio(total, k) == (e.bound(total, k), e.bound(total, k + 1)),
{
    let (start, end) = (e.bound(total, k), e.bound(total, k + 1));
    no_hit(e.silences@, |s: Silence| !s.keep && s.start <= start && start < s.end);
    no_hit(e.silences@, |s: Silence| !s.keep && s.start < end && end <= s.end);
    e.lemma_bounds(total);
    assert(start <= end);
}

proof fn no_hit(s: Seq<Silence>, p: spec_fn(Silence) -> bool)
    requires
        forall|i: int| 0 <= i < s.len() ==> !p(#[trigger] s[i]),
    ensures
        first_hit(s, p) is None,
    decreases s.len(),
{
    if s.len() > 0 {
        let t = s.skip(1);
        assert forall|i: int| 0 <= i < t.len() implies !p(#[trigger] t[i]) by {
            assert(t[i] == s[i + 1]);
        }
        no_hit(t, p);
    }
}

/// What is left out and what is kept make up the recording: both are ranges inside it, none
/// empty and each in order, those left out with something kept between them, and every position
/// lies in one or the other, never in both.
pub proof fn law_skipped_and_kept_tile_the_recording(e: RecordingEdit, total: u64, skipped: Seq<(u64, u64)>)
    requires
        e.wf(),
        e.leaves_out(total, skipped),
    ensures
        ({
            let kept = e.kept_ranges(total, e.track_count());
            &&& forall|i: int| 0 <= i < skipped.len() ==> (#[trigger] skipped[i]).0 < skipped[i].1 <= total
            &&& forall|i: int, j: int| 0 <= i < j < skipped.len() ==> (#[trigger] skipped[i]).1 < (#[trigger] skipped[j]).0
            &&& forall|i: int| 0 <= i < kept.len() ==> (#[trigger] kept[i]).0 < kept[i].1 <= total
            &&& forall|i: int, j: int| 0 <= i < j < kept.len() ==> (#[trigger] kept[i]).1 <= (#[trigger] kept[j]).0
            &&& forall|x: int| 0 <= x < total ==> (#[trigger] covers(skipped, x) <==> !covers(kept, x))
        }),
{
    let n = e.track_count();
    let tracks = e.kept_tracks(total, n);
    let kept = e.kept_ranges(total, n);
    kept_are_exported(e, total, n);
    kept_in_order(e, total, n);
    e.lemma_bounds(total);
    assert forall|i: int| 0 <= i < skipped.len() implies (#[trigger] skipped[i]).0 < skipped[i].1 <= total by {
        let x = skipped[i].1 - 1;
        assert(skipped[i].0 <= x < skipped[i].1);
        assert(covers(skipped, x));
    }
    assert forall|i: int| 0 <= i < kept.len() implies (#[trigger] kept[i]).0 < kept[i].1 <= total by {
        assert(e.exports(total, tracks[i]));
        e.lemma_audio_inside(total, tracks[i]);
    }
    assert forall|i: int, j: int| 0 <= i < j < kept.len() implies (#[trigger] kept[i]).1 <= (#[trigger] kept[j]).0 by {
        e.lemma_audio_inside(total, tracks[i]);
        e.lemma_audio_inside(total, tracks[j]);
        assert(e.bound(total, tracks[i] + 1) <= e.bound(total, tracks[j]));
    }
    assert forall|x: int| 0 <= x < total implies (#[trigger] covers(skipped, x) <==> !covers(kept, x)) by {
        if e.keeps(total, x) {
            let k = choose|k: int| #[trigger] e.keeps_in(total, k, x);
            exported_is_kept(e, total, n, k);
            let i = choose|i: int| 0 <= i < tracks.len() && tracks[i] == k;
            assert(kept[i].0 <= x < kept[i].1);
        }
        if covers(kept, x) {
            let i = choose|i: int| 0 <= i < kept.len() && (#[trigger] kept[i]).0 <= x < kept[i].1;
            assert(e.exports(total, tracks[i]));
            assert(e.keeps_in(total, tracks[i], x));
        }
    }
}

/// The kept tracks are listed in order.
pub proof fn kept_in_order(e: RecordingEdit, total: u64, n: int)
    requires
        0 <= n,
    ensures
        forall|i: int| 0 <= i < e.kept_tracks(total, n).len() ==> 0 <= #[trigger] e.kept_tracks(total, n)[i] < n,
        forall|i: int, j: int|
            0 <= i < j < e.kept_tracks(total, n).len() ==> (#[trigger] e.kept_tracks(total, n)[i]) < (
            #[trigger] e.kept_tracks(total, n)[j]),
    decreases n,
{
    if n > 0 {
        kept_in_order(e, total, n - 1);
        let less = e.kept_tracks(total, n - 1);
        let now = e.kept_tracks(total, n);
        assert forall|i: int| 0 <= i < less.len() implies #[trigger] now[i] == less[i] by {}
    }
}

/// Every exported track is listed among the kept ones.
proof fn exported_is_kept(e: RecordingEdit, total: u64, n: int, k: int)
    requires
        0 <= k < n,
        e.exports(total, k),
    ensures
        exists|i: int| 0 <= i < e.kept_tracks(total, n).len() && #[trigger] e.kept_tracks(total, n)[i] == k,
    decreases n,
{
    let now = e.kept_tracks(total, n);
    if k == n - 1 {
        assert(now[now.len() - 1] == k);
    } else {
        exported_is_kept(e, total, n - 1, k);
        let less = e.kept_tracks(total, n - 1);
        let i = choose|i: int| 0 <= i < less.len() && #[trigger] less[i] == k;
        assert(now[i] == k);
    }
}

/// The cleaned recording needs no more work: it is as long as the audio that was kept, its
/// tracks are those pieces back to back, all of them exported whole and under the titles they
/// had, all splits are confirmed, and so there is nothing left that an export would leave out.
/// Nothing is kept exactly where no track is exported.
pub proof fn law_cleaned_has_nothing_left_to_cut(
    e: RecordingEdit,
    total: u64,
    ranges: Seq<(u64, u64)>,
    c: RecordingEdit,
    length: u64,
)
    requires
        e.wf(),
        ranges == e.kept_ranges(total, e.track_count()),
        is_cleaned(e, e.kept_tracks(total, e.track_count()), ranges, c),
        length == total_len(ranges),
    ensures
        c.wf(),
        c.silences@.len() == 0,
        ranges.len() == 0 <==> forall|k: int| 0 <= k < e.track_count() ==> !#[trigger] e.exports(total, k),
        c.splits@.len() == if ranges.len() == 0 {
            0
        } else {
            ranges.len() - 1
        },
        forall|i: int, j: int| 0 <= i < j < c.splits@.len() ==> (#[trigger] c.splits@[i]).at < (#[trigger] c.splits@[j]).at,
        forall|j: int| 0 <= j < c.splits@.len() ==> 0 < (#[trigger] c.splits@[j]).at < length,
        forall|j: int| 0 <= j < c.splits@.len() ==> (#[trigger] c.splits@[j]).state == SplitState::Confirmed,
        of_state(c.splits@, SplitState::Suggested).len() == 0,
        forall|j: int| 0 <= j <= ranges.len() ==> #[trigger] c.bound(length, j) == total_len(ranges.take(j)),
        forall|j: int| 0 <= j < ranges.len() ==> {
            &&& c.exports(length, j)
            &&& #[trigger] c.audio(length, j) == (c.bound(length, j), c.bound(length, j + 1))
            &&& c.bound(length, j + 1) - c.bound(length, j) == ranges[j].1 - ranges[j].0
            &&& c.meta_at(j).title@ == e.meta_at(e.kept_tracks(total, e.track_count())[j]).title@
        },
        forall|x: int| 0 <= x < length ==> #[trigger] c.keeps(length, x),
        forall|r: Seq<(u64, u64)>| #[trigger] c.leaves_out(length, r) ==> r.len() == 0,
{
    let kept = e.kept_tracks(total, e.track_count());
    kept_are_exported(e, total, e.track_count());
    kept_in_order(e, total, e.track_count());
    assert forall|j: int| 0 <= j < ranges.len() implies (#[trigger] ranges[j]).0 < ranges[j].1 by {
        assert(e.exports(total, kept[j]));
    }
    if ranges.len() == 0 {
        assert forall|k: int| 0 <= k < e.track_count() implies !#[trigger] e.exports(total, k) by {
            if e.exports(total, k) {
                exported_is_kept(e, total, e.track_count(), k);
            }
        }
    } else {
        assert(e.exports(total, kept[0]));
    }
    assert(ranges.take(ranges.len() as int) =~= ranges);
    assert forall|i: int, j: int| 0 <= i < j <= ranges.len() implies total_len(#[trigger] ranges.take(i)) < total_len(
        #[trigger] ranges.take(j),
    ) by {
        lengths_grow(ranges, i, j);
    }
    assert(total_len(ranges.take(0)) == 0);
    assert forall|i: int, j: int| 0 <= i < j < c.splits@.len() implies (#[trigger] c.splits@[i]).at < (
    #[trigger] c.splits@[j]).at by {
        assert(total_len(ranges.take(i + 1)) < total_len(ranges.take(j + 1)));
    }
    assert(sorted(c.splits@));
    assert forall|j: int| 0 <= j < c.splits@.len() implies 0 < (#[trigger] c.splits@[j]).at < length by {
        assert(total_len(ranges.take(0)) < total_len(ranges.take(j + 1)));
        assert(total_len(ranges.take(j + 1)) < total_len(ranges.take(ranges.len() as int)));
    }
    assert forall|j: int| 0 <= j <= ranges.len() implies #[trigger] c.bound(length, j) == total_len(ranges.take(j)) by {
        if 0 < j < ranges.len() {
            assert(c.splits@[j - 1].at == total_len(ranges.take(j)));
            assert(total_len(ranges.take(j)) < total_len(ranges.take(ranges.len() as int)));
        }
    }
    assert forall|j: int| 0 <= j < ranges.len() implies {
        &&& c.exports(length, j)
        &&& #[trigger] c.audio(length, j) == (c.bound(length, j), c.bound(length, j + 1))
        &&& c.bound(length, j + 1) - c.bound(length, j) == ranges[j].1 - ranges[j].0
        &&& c.meta_at(j).title@ == e.meta_at(kept[j]).title@
    } by {
        law_inner_and_kept_silence_stays(c, length, j);
        assert(total_len(ranges.take(j)) < total_len(ranges.take(j + 1)));
        assert(c.bound(length, j) == total_len(ranges.take(j)));
        assert(c.bound(length, j + 1) == total_len(ranges.take(j + 1)));
        assert(ranges.take(j + 1).drop_last() =~= ranges.take(j));
        if j > 0 {
            let track = c.splits@[j - 1].track;
            assert(track@.drop == false);
            assert(track@.title == e.meta_at(kept[j]).title@);
        }
    }
    assert forall|x: int| 0 <= x < length implies #[trigger] c.keeps(length, x) by {
        assert(c.bound(length, ranges.len() as int) == length);
        let k = find_track(c, length, x, c.track_count());
        assert(c.audio(length, k) == (c.bound(length, k), c.bound(length, k + 1)));
        assert(c.keeps_in(length, k, x));
    }
    assert forall|r: Seq<(u64, u64)>| #[trigger] c.leaves_out(length, r) implies r.len() == 0 by {
        if r.len() > 0 {
            let x = r[0].0 as int;
            assert(r[0].0 <= x < r[0].1);
            assert(covers(r, x));
            assert(c.keeps(length, x));
        }
    }
    none_suggested(c.splits@);
}

proof fn kept_are_exported(e: RecordingEdit, total: u64, n: int)
    requires
        0 <= n,
    ensures
        forall|i: int| 0 <= i < e.kept_tracks(total, n).len() ==> e.exports(total, #[trigger] e.kept_tracks(total, n)[i]),
    decreases n,
{
    if n > 0 {
        kept_are_exported(e, total, n - 1);
        assert forall|i: int| 0 <= i < e.kept_tracks(total, n).len() implies e.exports(
            total,
            #[trigger] e.kept_tracks(total, n)[i],
        ) by {
            if i < e.kept_tracks(total, n - 1).len() {
                assert(e.kept_tracks(total, n)[i] == e.kept_tracks(total, n - 1)[i]);
            }
        }
    }
}

proof fn lengths_grow(ranges: Seq<(u64, u64)>, i: int, j: int)
    requires
        0 <= i < j <= ranges.len(),
        forall|k: int| 0 <= k < ranges.len() ==> (#[trigger] ranges[k]).0 < ranges[k].1,
    ensures
        total_len(ranges.take(i)) < total_len(ranges.take(j)),
    decreases j - i,
{
    assert(ranges.take(j).drop_last() =~= ranges.take(j - 1));
    if i < j - 1 {
        lengths_grow(ranges, i, j - 1);
    }
}

proof fn none_suggested(s: Seq<Split>)
    requires
        forall|k: int| 0 <= k < s.len() ==> (#[trigger] s[k]).state == SplitState::Confirmed,
    ensures
        of_state(s, SplitState::Suggested).len() == 0,
    decreases s.len(),
{
    reveal(Seq::filter);
    if s.len() > 0 {
        let t = s.drop_last();
        assert forall|k: int| 0 <= k < t.len() implies (#[trigger] t[k]).state == SplitState::Confirmed by {
            assert(t[k] == s[k]);
        }
        none_suggested(t);
        assert(s.last() == s[s.len() - 1]);
    }
}

/// Putting a split in leaves all the others, with the titles of the tracks that start at them,
/// as they were; only one at the very same position makes way.
pub proof fn law_insert_keeps_the_others(s: Seq<Split>, x: Split)
    ensures
        inserted(s, x).contains(x),
        forall|y: Split| #[trigger] inserted(s, x).contains(y) <==> y == x || (s.contains(y) && y.at != x.at),
{
    let less = |y: Split| y.at < x.at;
    let more = |y: Split| y.at > x.at;
    let (a, b) = (s.filter(less), s.filter(more));
    let r = inserted(s, x);
    assert(r[a.len() as int] == x);
    assert forall|y: Split| #[trigger] r.contains(y) <==> y == x || (s.contains(y) && y.at != x.at) by {
        if r.contains(y) {
            let i = choose|i: int| 0 <= i < r.len() && r[i] == y;
            if i < a.len() {
                s.lemma_filter_pred(less, i);
                s.lemma_filter_contains_rev(less, a[i]);
            } else if i > a.len() {
                s.lemma_filter_pred(more, i - a.len() - 1);
                s.lemma_filter_contains_rev(more, b[i - a.len() - 1]);
            }
        }
        if s.contains(y) && y.at != x.at {
            let i = choose|i: int| 0 <= i < s.len() && s[i] == y;
            if y.at < x.at {
                s.lemma_filter_contains(less, i);
                let k = choose|k: int| 0 <= k < a.len() && a[k] == y;
                assert(r[k] == y);
            } else {
                s.lemma_filter_contains(more, i);
                let k = choose|k: int| 0 <= k < b.len() && b[k] == y;
                assert(r[k + a.len() + 1] == y);
            }
        }
    }
}

/// Detection never touches what the user decided: every confirmed split is still there, and
/// every split there is a confirmed one or a new suggestion clear of them. As long as what
/// detection hands in is only suggested, nothing else is confirmed afterwards.
pub proof fn law_detection_keeps_confirmed(all: Seq<Split>, suggestions: Seq<Split>, min_gap: u64)
    requires
        sorted(all),
    ensures
        ({
            let confirmed = of_state(all, SplitState::Confirmed);
            let old = of_state(all, SplitState::Suggested);
            let now = with_suggestions(confirmed, confirmed, old, suggestions, min_gap);
            &&& forall|y: Split| all.contains(y) && y.state == SplitState::Confirmed ==> #[trigger] now.contains(y)
            &&& forall|y: Split| #[trigger] now.contains(y) ==> confirmed.contains(y) || exists|k: int|
                0 <= k < suggestions.len() && clear_of(confirmed, #[trigger] suggestions[k], min_gap) && y == with_carried(
                    old,
                    suggestions[k],
                    min_gap,
                )
            &&& (forall|k: int| 0 <= k < suggestions.len() ==> (#[trigger] suggestions[k]).state == SplitState::Suggested)
                ==> forall|y: Split|
                (#[trigger] now.contains(y) && y.state == SplitState::Confirmed) <==> (all.contains(y) && y.state
                    == SplitState::Confirmed)
        }),
{
    let is_conf = |x: Split| x.state == SplitState::Confirmed;
    let confirmed = of_state(all, SplitState::Confirmed);
    let old = of_state(all, SplitState::Suggested);
    detection_step(confirmed, old, suggestions, min_gap);
    let now = with_suggestions(confirmed, confirmed, old, suggestions, min_gap);
    assert forall|y: Split| all.contains(y) && y.state == SplitState::Confirmed implies #[trigger] now.contains(y) by {
        let i = choose|i: int| 0 <= i < all.len() && all[i] == y;
        all.lemma_filter_contains(is_conf, i);
    }
    if forall|k: int| 0 <= k < suggestions.len() ==> (#[trigger] suggestions[k]).state == SplitState::Suggested {
        assert forall|y: Split| #[trigger] now.contains(y) && y.state == SplitState::Confirmed implies all.contains(y) by {
            if confirmed.contains(y) {
                all.lemma_filter_contains_rev(is_conf, y);
            } else {
                let k = choose|k: int|
                    0 <= k < suggestions.len() && clear_of(confirmed, #[trigger] suggestions[k], min_gap) && y
                        == with_carried(old, suggestions[k], min_gap);
                carried_stays_put(old, suggestions[k], min_gap);
            }
        }
    }
}

proof fn detection_step(confirmed: Seq<Split>, old: Seq<Split>, suggestions: Seq<Split>, min_gap: u64)
    ensures
        ({
            let now = with_suggestions(confirmed, confirmed, old, suggestions, min_gap);
            &&& forall|y: Split| confirmed.contains(y) ==> #[trigger] now.contains(y)
            &&& forall|y: Split| #[trigger] now.contains(y) ==> confirmed.contains(y) || exists|k: int|
                0 <= k < suggestions.len() && clear_of(confirmed, #[trigger] suggestions[k], min_gap) && y == with_carried(
                    old,
                    suggestions[k],
                    min_gap,
                )
        }),
    decreases suggestions.len(),
{
    let now = with_suggestions(confirmed, confirmed, old, suggestions, min_gap);
    if suggestions.len() > 0 {
        let less = suggestions.drop_last();
        detection_step(confirmed, old, less, min_gap);
        let before = with_suggestions(confirmed, confirmed, old, less, min_gap);
        let s = suggestions.last();
        let x = with_carried(old, s, min_gap);
        carried_stays_put(old, s, min_gap);
        if clear_of(confirmed, s, min_gap) {
            law_insert_keeps_the_others(before, x);
            assert forall|y: Split| confirmed.contains(y) implies #[trigger] now.contains(y) by {
                let i = choose|i: int| 0 <= i < confirmed.len() && confirmed[i] == y;
                assert(confirmed[i].at != s.at);
                assert(before.contains(y));
            }
        }
        assert forall|y: Split| #[trigger] now.contains(y) implies confirmed.contains(y) || exists|k: int|
            0 <= k < suggestions.len() && clear_of(confirmed, #[trigger] suggestions[k], min_gap) && y == with_carried(
                old,
                suggestions[k],
                min_gap,
            ) by {
            if clear_of(confirmed, s, min_gap) && y == x {
                assert(suggestions[suggestions.len() - 1] == s);
            } else {
                assert(before.contains(y));
                if !confirmed.contains(y) {
                    let k = choose|k: int|
                        0 <= k < less.len() && clear_of(confirmed, #[trigger] less[k], min_gap) && y == with_carried(
                            old,
                            less[k],
                            min_gap,
                        );
                    assert(suggestions[k] == less[k]);
                }
            }
        }
    }
}

/// A decision that is carried over does not move the suggestion.
pub proof fn carried_stays_put(old: Seq<Split>, s: Split, min_gap: u64)
    ensures
        with_carried(old, s, min_gap).at == s.at,
        with_carried(old, s, min_gap).state == s.state,
    decreases old.len(),
{
    if old.len() > 0 {
        carried_stays_put(old.skip(1), s, min_gap);
    }
}

/// Confirming a suggestion leaves one fewer to review, so the review comes to an end.
pub proof fn law_confirming_makes_progress(s: Seq<Split>, i: int)
    requires
        0 <= i < s.len(),
        s[i].state == SplitState::Suggested,
    ensures
        of_state(s.update(i, Split { state: SplitState::Confirmed, ..s[i] }), SplitState::Suggested).len() + 1 == of_state(
            s,
            SplitState::Suggested,
        ).len(),
    decreases s.len(),
{
    reveal(Seq::filter);
    let c = Split { state: SplitState::Confirmed, ..s[i] };
    let u = s.update(i, c);
    if i == s.len() - 1 {
        assert(u.drop_last() =~= s.drop_last());
    } else {
        law_confirming_makes_progress(s.drop_last(), i);
        assert(u.drop_last() =~= s.drop_last().update(i, c));
        assert(u.last() == s.last());
    }
}

/// Exported tracks are numbered one after the other: the `j`-th exported track has number
/// `j + 1`.
pub proof fn law_export_numbers_are_consecutive(e: RecordingEdit, total: u64, j: int)
    requires
        0 <= j < e.kept_tracks(total, e.track_count()).len(),
    ensures
        e.export_number(total, e.kept_tracks(total, e.track_count())[j]) == Some((j + 1) as nat),
{
    numbered(e, total, e.track_count(), j);
}

proof fn numbered(e: RecordingEdit, total: u64, n: int, j: int)
    requires
        0 <= n,
        0 <= j < e.kept_tracks(total, n).len(),
    ensures
        e.exports(total, e.kept_tracks(total, n)[j]),
        e.kept_tracks(total, e.kept_tracks(total, n)[j] + 1).len() == j + 1,
    decreases n,
{
    if n > 0 {
        if e.exports(total, n - 1) && j == e.kept_tracks(total, n).len() - 1 {
        } else {
            numbered(e, total, n - 1, j);
        }
    }
}

} // verus!

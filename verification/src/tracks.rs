//! What splits, silences and decisions make of a recording: where its tracks run, what an export
//! takes of them, and what detection and review change.
use vstd::prelude::*;
use crate::edit::{
    first_hit, first_to_review, of_state, silences_sorted, sorted, with_carried,
    with_suggestions, RecordingEdit, Silence, Split, SplitState,
};
use crate::laws::{carried_stays_put, law_detection_keeps_confirmed, law_insert_keeps_the_others};

verus! {

/// Tracks run from split to split: the first from the start of the recording, the last up to its
/// end, and none past it. What is decided about a track stands at the split that it starts at.
pub proof fn law_tracks_run_from_split_to_split(e: RecordingEdit, total: u64, k: int)
    requires
        0 <= k <= e.splits@.len(),
    ensures
        e.bound(total, 0) == 0,
        e.bound(total, e.splits@.len() as int + 1) == total,
        e.track_count() == e.splits@.len() + 1,
        k > 0 && e.splits@[k - 1].at <= total ==> e.bound(total, k) == e.splits@[k - 1].at,
        k > 0 && e.splits@[k - 1].at > total ==> e.bound(total, k) == total,
        k == 0 ==> e.meta_at(k) == e.head,
        k > 0 ==> e.meta_at(k) == e.splits@[k - 1].track,
{
}

/// Where a track starts or ends inside a silence that is not kept, that much of it is cut, and
/// where it does not, nothing is. It never ends before it starts.
pub proof fn law_silence_at_the_edges_is_cut(e: RecordingEdit, total: u64, k: int, i: int)
    requires
        e.wf(),
        silences_sorted(e.silences@),
        0 <= k <= e.splits@.len(),
        0 <= i < e.silences@.len(),
        !e.silences@[i].keep,
    ensures
        ({
            let (start, end) = (e.bound(total, k) as int, e.bound(total, k + 1) as int);
            let (from, to) = (e.audio(total, k).0 as int, e.audio(total, k).1 as int);
            let s = e.silences@[i];
            &&& s.start <= start < s.end && s.end <= end ==> from == s.end
            &&& s.start <= start < s.end && s.end > end ==> from == end
            &&& s.start < end <= s.end && from <= s.start ==> to == s.start
            &&& s.start < end <= s.end && s.start < from ==> to == from
            &&& start <= from <= to <= end
        }),
{
    let s = e.silences@[i];
    let (start, end) = (e.bound(total, k), e.bound(total, k + 1));
    e.lemma_audio_inside(total, k);
    let p = |x: Silence| !x.keep && x.start <= start && start < x.end;
    let q = |x: Silence| !x.keep && x.start < end && end <= x.end;
    if p(s) {
        lemma_only_hit(e.silences@, p, i);
    }
    if q(s) {
        lemma_only_hit(e.silences@, q, i);
    }
}

proof fn lemma_only_hit(s: Seq<Silence>, p: spec_fn(Silence) -> bool, i: int)
    requires
        0 <= i < s.len(),
        p(s[i]),
        forall|k: int| 0 <= k < s.len() && k != i ==> !p(#[trigger] s[k]),
    ensures
        first_hit(s, p) == Some(s[i]),
    decreases s.len(),
{
    if i > 0 {
        let t = s.skip(1);
        assert(t[i - 1] == s[i]);
        assert forall|k: int| 0 <= k < t.len() && k != i - 1 implies !p(#[trigger] t[k]) by {
            assert(t[k] == s[k + 1]);
        }
        lemma_only_hit(t, p, i - 1);
    }
}

/// A track is exported unless it is left out or all of it is cut.
pub proof fn law_tracks_are_exported_unless_left_out(e: RecordingEdit, total: u64, k: int)
    requires
        0 <= k <= e.splits@.len(),
    ensures
        e.exports(total, k) <==> !e.meta_at(k).drop && e.audio(total, k).0 < e.audio(total, k).1,
        forall|i: int|
            0 <= i < e.kept_tracks(total, e.track_count()).len() ==> e.exports(
                total,
                #[trigger] e.kept_tracks(total, e.track_count())[i],
            ),
        e.exports(total, k) ==> exists|i: int|
            0 <= i < e.kept_tracks(total, e.track_count()).len() && #[trigger] e.kept_tracks(total, e.track_count())[i] == k,
{
    lemma_kept(e, total, e.track_count());
    if e.exports(total, k) {
        lemma_listed(e, total, e.track_count(), k);
    }
}

proof fn lemma_kept(e: RecordingEdit, total: u64, n: int)
    ensures
        forall|i: int| 0 <= i < e.kept_tracks(total, n).len() ==> e.exports(total, #[trigger] e.kept_tracks(total, n)[i]),
    decreases n,
{
    if n > 0 {
        lemma_kept(e, total, n - 1);
        let (less, now) = (e.kept_tracks(total, n - 1), e.kept_tracks(total, n));
        assert forall|i: int| 0 <= i < now.len() implies e.exports(total, #[trigger] now[i]) by {
            if i < less.len() {
                assert(now[i] == less[i]);
            }
        }
    }
}

proof fn lemma_listed(e: RecordingEdit, total: u64, n: int, k: int)
    requires
        0 <= k < n,
        e.exports(total, k),
    ensures
        exists|i: int| 0 <= i < e.kept_tracks(total, n).len() && #[trigger] e.kept_tracks(total, n)[i] == k,
    decreases n,
{
    let now = e.kept_tracks(total, n);
    if k == n - 1 {
        assert(now[now.len() - 1] == k);
    } else {
        lemma_listed(e, total, n - 1, k);
        let less = e.kept_tracks(total, n - 1);
        let i = choose|i: int| 0 <= i < less.len() && #[trigger] less[i] == k;
        assert(now[i] == k);
    }
}

// ---- Detection ----

/// How far two positions are apart.
pub open spec fn apart(a: u64, b: u64) -> int {
    if a <= b {
        b - a
    } else {
        a - b
    }
}

/// `s` is at least `min_gap` away from every confirmed split of `all`, and on none.
pub open spec fn far_from_confirmed(all: Seq<Split>, s: Split, min_gap: u64) -> bool {
    forall|i: int| #![trigger all[i]]
        0 <= i < all.len() && all[i].state == SplitState::Confirmed ==> all[i].at != s.at && apart(all[i].at, s.at)
            >= min_gap
}

/// `o` was suggested, is closer than `min_gap` to `s`, and the track that starts at it has a title
/// or is left out.
pub open spec fn has_a_decision(o: Split, s: Split, min_gap: u64) -> bool {
    &&& o.state == SplitState::Suggested
    &&& apart(o.at, s.at) < min_gap
    &&& o.track.title@.len() > 0 || o.track.drop
}

/// Detection takes every suggestion that is far enough from what was confirmed: it stands among
/// the splits, with its silence. The title or flag of the first old suggestion nearby goes over to
/// it; where there is none, it keeps its own. Nothing that was not confirmed stands close to a
/// confirmed split.
pub proof fn law_detection_takes_the_suggestions(all: Seq<Split>, suggestions: Seq<Split>, min_gap: u64, k: int)
    requires
        sorted(all),
        sorted(suggestions),
        0 <= k < suggestions.len(),
    ensures
        ({
            let confirmed = of_state(all, SplitState::Confirmed);
            let old = of_state(all, SplitState::Suggested);
            let now = with_suggestions(confirmed, confirmed, old, suggestions, min_gap);
            let s = suggestions[k];
            let taken = with_carried(old, s, min_gap);
            &&& far_from_confirmed(all, s, min_gap) ==> now.contains(taken)
            &&& forall|y: Split| #[trigger]
                now.contains(y) ==> (all.contains(y) && y.state == SplitState::Confirmed) || far_from_confirmed(
                    all,
                    y,
                    min_gap,
                )
            &&& taken.at == s.at && taken.state == s.state && taken.silence == s.silence
            &&& (forall|i: int| 0 <= i < all.len() ==> !has_a_decision(#[trigger] all[i], s, min_gap)) ==> taken.track
                == s.track
            &&& forall|i: int| #![trigger all[i]]
                0 <= i < all.len() && has_a_decision(all[i], s, min_gap) && (forall|j: int|
                    0 <= j < i ==> !has_a_decision(#[trigger] all[j], s, min_gap)) ==> taken.track == all[i].track
        }),
{
    let confirmed = of_state(all, SplitState::Confirmed);
    let old = of_state(all, SplitState::Suggested);
    let s = suggestions[k];
    let is_conf = |x: Split| x.state == SplitState::Confirmed;
    carried_stays_put(old, s, min_gap);
    lemma_carried_silence(old, s, min_gap);
    lemma_carried(all, s, min_gap);
    let now = with_suggestions(confirmed, confirmed, old, suggestions, min_gap);
    law_detection_keeps_confirmed(all, suggestions, min_gap);
    assert forall|y: Split| #[trigger] now.contains(y) implies (all.contains(y) && y.state == SplitState::Confirmed)
        || far_from_confirmed(all, y, min_gap) by {
        if confirmed.contains(y) {
            let i = choose|i: int| 0 <= i < confirmed.len() && confirmed[i] == y;
            all.lemma_filter_pred(is_conf, i);
            all.lemma_filter_contains_rev(is_conf, y);
        } else {
            let m = choose|m: int|
                0 <= m < suggestions.len() && crate::edit::clear_of(confirmed, #[trigger] suggestions[m], min_gap) && y
                    == with_carried(old, suggestions[m], min_gap);
            carried_stays_put(old, suggestions[m], min_gap);
            assert forall|i: int| #![trigger all[i]]
                0 <= i < all.len() && all[i].state == SplitState::Confirmed implies all[i].at != y.at && apart(
                all[i].at,
                y.at,
            ) >= min_gap by {
                all.lemma_filter_contains(is_conf, i);
                let j = choose|j: int| 0 <= j < confirmed.len() && confirmed[j] == all[i];
                assert(crate::edit::distance(confirmed[j].at, suggestions[m].at) >= min_gap);
            }
        }
    }
    if far_from_confirmed(all, s, min_gap) {
        assert(crate::edit::clear_of(confirmed, s, min_gap)) by {
            assert forall|i: int| 0 <= i < confirmed.len() implies crate::edit::distance((#[trigger] confirmed[i]).at, s.at)
                >= min_gap && confirmed[i].at != s.at by {
                all.lemma_filter_pred(is_conf, i);
                all.lemma_filter_contains_rev(is_conf, confirmed[i]);
                let j = choose|j: int| 0 <= j < all.len() && all[j] == confirmed[i];
                assert(all[j].state == SplitState::Confirmed);
            }
        }
        lemma_taken(confirmed, old, suggestions, min_gap, k);
    }
}

proof fn lemma_carried_silence(old: Seq<Split>, s: Split, min_gap: u64)
    ensures
        with_carried(old, s, min_gap).silence == s.silence,
    decreases old.len(),
{
    if old.len() > 0 {
        lemma_carried_silence(old.skip(1), s, min_gap);
    }
}

proof fn lemma_taken(confirmed: Seq<Split>, old: Seq<Split>, suggestions: Seq<Split>, min_gap: u64, k: int)
    requires
        sorted(suggestions),
        0 <= k < suggestions.len(),
        crate::edit::clear_of(confirmed, suggestions[k], min_gap),
    ensures
        with_suggestions(confirmed, confirmed, old, suggestions, min_gap).contains(
            with_carried(old, suggestions[k], min_gap),
        ),
    decreases suggestions.len(),
{
    let less = suggestions.drop_last();
    let last = suggestions.last();
    let before = with_suggestions(confirmed, confirmed, old, less, min_gap);
    let x = with_carried(old, last, min_gap);
    carried_stays_put(old, last, min_gap);
    if k == suggestions.len() - 1 {
        law_insert_keeps_the_others(before, x);
    } else {
        assert(less[k] == suggestions[k]);
        assert(sorted(less)) by {
            assert forall|i: int, j: int| 0 <= i < j < less.len() implies (#[trigger] less[i]).at < (#[trigger] less[j]).at by {
                assert(less[i] == suggestions[i] && less[j] == suggestions[j]);
            }
        }
        lemma_taken(confirmed, old, less, min_gap, k);
        carried_stays_put(old, suggestions[k], min_gap);
        assert(suggestions[k].at < suggestions[suggestions.len() - 1].at);
        if crate::edit::clear_of(confirmed, last, min_gap) {
            law_insert_keeps_the_others(before, x);
        }
    }
}

/// The first decision nearby is the one that is carried over.
proof fn lemma_carried(all: Seq<Split>, s: Split, min_gap: u64)
    ensures
        ({
            let taken = with_carried(of_state(all, SplitState::Suggested), s, min_gap);
            &&& (forall|i: int| 0 <= i < all.len() ==> !has_a_decision(#[trigger] all[i], s, min_gap)) ==> taken.track
                == s.track
            &&& forall|i: int| #![trigger all[i]]
                0 <= i < all.len() && has_a_decision(all[i], s, min_gap) && (forall|j: int|
                    0 <= j < i ==> !has_a_decision(#[trigger] all[j], s, min_gap)) ==> taken.track == all[i].track
        }),
    decreases all.len(),
{
    reveal(Seq::filter);
    let old = of_state(all, SplitState::Suggested);
    if all.len() > 0 {
        let t = all.drop_last();
        let x = all.last();
        lemma_carried(t, s, min_gap);
        let before = of_state(t, SplitState::Suggested);
        if x.state == SplitState::Suggested {
            assert(old =~= before.push(x));
            lemma_carried_push(before, x, s, min_gap);
        } else {
            assert(old =~= before);
        }
        let taken = with_carried(old, s, min_gap);
        lemma_some_hands_on(before, s, min_gap);
        let some = exists|i: int| 0 <= i < before.len() && crate::edit::hands_on(#[trigger] before[i], s, min_gap);
        let is_old = |y: Split| y.state == SplitState::Suggested;
        if some {
            let i = choose|i: int| 0 <= i < before.len() && crate::edit::hands_on(#[trigger] before[i], s, min_gap);
            t.lemma_filter_pred(is_old, i);
            t.lemma_filter_contains_rev(is_old, before[i]);
            let j = choose|j: int| 0 <= j < t.len() && t[j] == before[i];
            assert(has_a_decision(t[j], s, min_gap));
            assert(t[j] == all[j]);
            assert(taken == with_carried(before, s, min_gap));
            assert forall|i: int| #![trigger all[i]]
                0 <= i < all.len() && has_a_decision(all[i], s, min_gap) && (forall|j: int|
                    0 <= j < i ==> !has_a_decision(#[trigger] all[j], s, min_gap)) implies taken.track == all[i].track by {
                assert(i <= j);
                assert(t[i] == all[i]);
                assert forall|m: int| 0 <= m < i implies !has_a_decision(#[trigger] t[m], s, min_gap) by {
                    assert(t[m] == all[m]);
                }
            }
        } else {
            assert forall|i: int| 0 <= i < t.len() implies !has_a_decision(#[trigger] t[i], s, min_gap) by {
                if has_a_decision(t[i], s, min_gap) {
                    t.lemma_filter_contains(is_old, i);
                    let m = choose|m: int| 0 <= m < before.len() && before[m] == t[i];
                    assert(crate::edit::hands_on(before[m], s, min_gap));
                }
            }
            assert forall|i: int| #![trigger all[i]]
                0 <= i < all.len() && has_a_decision(all[i], s, min_gap) && (forall|j: int|
                    0 <= j < i ==> !has_a_decision(#[trigger] all[j], s, min_gap)) implies taken.track == all[i].track by {
                if i < t.len() {
                    assert(t[i] == all[i]);
                }
            }
            if forall|i: int| 0 <= i < all.len() ==> !has_a_decision(#[trigger] all[i], s, min_gap) {
                assert(!has_a_decision(all[all.len() - 1], s, min_gap));
            }
        }
    }
}

/// Where none of them hands anything on, the suggestion stays as it is.
proof fn lemma_some_hands_on(old: Seq<Split>, s: Split, min_gap: u64)
    ensures
        !(exists|i: int| 0 <= i < old.len() && crate::edit::hands_on(#[trigger] old[i], s, min_gap)) ==> with_carried(
            old,
            s,
            min_gap,
        ) == s,
    decreases old.len(),
{
    if old.len() > 0 {
        let t = old.skip(1);
        lemma_some_hands_on(t, s, min_gap);
        if !(exists|i: int| 0 <= i < old.len() && crate::edit::hands_on(#[trigger] old[i], s, min_gap)) {
            assert(!crate::edit::hands_on(old[0], s, min_gap));
            assert forall|i: int| 0 <= i < t.len() implies !crate::edit::hands_on(#[trigger] t[i], s, min_gap) by {
                assert(t[i] == old[i + 1]);
            }
        }
    }
}

/// One more at the end counts only where none before it hands anything on.
proof fn lemma_carried_push(old: Seq<Split>, x: Split, s: Split, min_gap: u64)
    ensures
        with_carried(old.push(x), s, min_gap) == if exists|i: int|
            0 <= i < old.len() && crate::edit::hands_on(#[trigger] old[i], s, min_gap) {
            with_carried(old, s, min_gap)
        } else if crate::edit::hands_on(x, s, min_gap) {
            (Split { track: x.track, ..s })
        } else {
            s
        },
    decreases old.len(),
{
    let all = old.push(x);
    if old.len() == 0 {
        assert(all.skip(1) =~= Seq::<Split>::empty());
        assert(with_carried(all.skip(1), s, min_gap) == s);
    } else {
        let t = old.skip(1);
        assert(all.skip(1) =~= t.push(x));
        assert(all[0] == old[0]);
        lemma_carried_push(t, x, s, min_gap);
        if crate::edit::hands_on(old[0], s, min_gap) {
        } else {
            if exists|i: int| 0 <= i < t.len() && crate::edit::hands_on(#[trigger] t[i], s, min_gap) {
                let i = choose|i: int| 0 <= i < t.len() && crate::edit::hands_on(#[trigger] t[i], s, min_gap);
                assert(old[i + 1] == t[i]);
            }
            if exists|i: int| 0 <= i < old.len() && crate::edit::hands_on(#[trigger] old[i], s, min_gap) {
                let i = choose|i: int| 0 <= i < old.len() && crate::edit::hands_on(#[trigger] old[i], s, min_gap);
                assert(t[i - 1] == old[i]);
            }
        }
    }
}

// ---- Review ----

/// The first `steps` splits from `begin` on, in a circle, are reviewed.
pub open spec fn reviewed_for(s: Seq<Split>, begin: int, steps: int) -> bool {
    forall|d: int| 0 <= d < steps ==> (#[trigger] s[(begin + d) % s.len() as int]).state == SplitState::Confirmed
}

/// The next split to review is the first unreviewed one met when the splits are gone through in a
/// circle; there is none just where all are reviewed.
pub proof fn law_review_goes_round(s: Seq<Split>, begin: int, r: Option<usize>)
    requires
        0 <= begin < s.len(),
        first_to_review(s, begin, r),
    ensures
        r is None <==> forall|k: int| 0 <= k < s.len() ==> (#[trigger] s[k]).state == SplitState::Confirmed,
        r matches Some(i) ==> exists|steps: int| {
            &&& 0 <= steps < s.len()
            &&& i == (begin + steps) % s.len() as int
            &&& s[i as int].state == SplitState::Suggested
            &&& #[trigger] reviewed_for(s, begin, steps)
        },
{
    let n = s.len() as int;
    if let Some(i) = r {
        assert(crate::edit::to_review(s, i as int));
        assert(s[i as int].state != SplitState::Confirmed);
        let steps = if i >= begin {
            i - begin
        } else {
            i + n - begin
        };
        assert((begin + steps) % n == i) by (nonlinear_arith)
            requires
                0 <= i < n,
                begin + steps == i || begin + steps == i + n,
        ;
        assert(reviewed_for(s, begin, steps)) by {
            assert forall|d: int| 0 <= d < steps implies (#[trigger] s[(begin + d) % n]).state
                == SplitState::Confirmed by {
                let k = (begin + d) % n;
                assert(k == begin + d || k == begin + d - n) by (nonlinear_arith)
                    requires
                        k == (begin + d) % n,
                        0 <= begin + d < 2 * n,
                ;
                assert(0 <= k < n) by (nonlinear_arith)
                    requires
                        k == (begin + d) % n,
                        n > 0,
                ;
                assert(!crate::edit::to_review(s, k));
            }
        }
    } else {
        assert forall|k: int| 0 <= k < n implies (#[trigger] s[k]).state == SplitState::Confirmed by {
            assert(!crate::edit::to_review(s, k));
        }
    }
}

} // verus!

//! What detection is for: which silences a recording has, where they are split and what is cut
//! of them.
use vstd::prelude::*;
use crate::detect::{
    all_runs, all_tagged, better, in_order, is_inner, is_suggestion, law_suggestions_split_silences,
    lemma_middle, lemma_thinned_from_runs, middle, min_track, min_windows, quiet, snapped, tagged, thinned, whole_run,
    window_of, windows_in, Candidate, Run, SECOND,
};
use crate::edit::{DetectParams, Silence, Split, SplitState};

verus! {

/// The windows `[a, b)` lie below the threshold, and neither of the windows next to them does.
pub open spec fn quiet_stretch(db: Seq<i32>, threshold: int, a: int, b: int) -> bool {
    &&& 0 <= a < b <= db.len()
    &&& forall|i: int| a <= i < b ==> #[trigger] db[i] < threshold
    &&& a > 0 ==> db[a - 1] >= threshold
    &&& b < db.len() ==> db[b] >= threshold
}

/// `[a, b)` is a quiet stretch that lasts at least as long as a silence has to.
pub open spec fn long_silence(db: Seq<i32>, window: u64, rate: u32, p: DetectParams, a: int, b: int) -> bool {
    quiet_stretch(db, p.threshold_udb as int, a, b) && (b - a) * window * 1_000_000_000 >= p.min_silence_ns * rate
}

/// `[a, b)` is a silence with sound before and behind it.
pub open spec fn gap_between_sounds(db: Seq<i32>, window: u64, rate: u32, p: DetectParams, a: int, b: int) -> bool {
    long_silence(db, window, rate, p, a, b) && 0 < a && b < db.len()
}

/// Of two silences whose middles are closer than the shortest track, `[c, d)` goes before
/// `[a, b)`: it is longer, or as long and earlier.
pub open spec fn outdoes(window: u64, rate: u32, p: DetectParams, c: int, d: int, a: int, b: int) -> bool {
    let apart = (c + d) * window / 2 - (a + b) * window / 2;
    let shortest = p.min_track_ns * rate / 1_000_000_000;
    -shortest < apart < shortest && (d - c > b - a || (d - c == b - a && c < a))
}

/// `s` splits the silence `[a, b)`: an unreviewed suggestion in its middle that tells how long it
/// lasts, and says nothing of the track that starts there.
pub open spec fn splits_silence(s: Split, window: u64, rate: u32, a: int, b: int) -> bool {
    &&& s.at == (a + b) * window / 2
    &&& s.state == SplitState::Suggested
    &&& s.silence is Some
    &&& rate > 0 && (b - a) * window * 1_000_000_000 / rate as int <= u64::MAX ==> s.silence->0 == (b - a) * window
        * 1_000_000_000 / rate as int
    &&& s.track.title@.len() == 0
    &&& !s.track.drop
}

/// `s` splits one of the silences between sounds.
pub open spec fn splits_some_silence(db: Seq<i32>, window: u64, rate: u32, p: DetectParams, s: Split) -> bool {
    exists|a: int, b: int| #[trigger]
        gap_between_sounds(db, window, rate, p, a, b) && splits_silence(s, window, rate, a, b)
}

/// What suggestions are for. Each splits a silence between sounds in its middle, and they come in
/// order, the shortest track apart or more. No such silence goes without, unless a longer one (or
/// an earlier one as long) lies closer to it than the shortest track.
pub open spec fn splits_the_silences(db: Seq<i32>, window: u64, rate: u32, p: DetectParams, splits: Seq<Split>) -> bool {
    &&& forall|k: int| 0 <= k < splits.len() ==> splits_some_silence(db, window, rate, p, #[trigger] splits[k])
    &&& forall|j: int, k: int| 0 <= j < k < splits.len() ==> {
        &&& (#[trigger] splits[j]).at < (#[trigger] splits[k]).at
        &&& splits[k].at - splits[j].at >= p.min_track_ns * rate / 1_000_000_000
    }
    &&& forall|a: int, b: int| #[trigger]
        gap_between_sounds(db, window, rate, p, a, b) ==> {
            ||| exists|k: int| 0 <= k < splits.len() && splits_silence(#[trigger] splits[k], window, rate, a, b)
            ||| exists|c: int, d: int| #[trigger]
                gap_between_sounds(db, window, rate, p, c, d) && outdoes(window, rate, p, c, d, a, b)
        }
}

/// Silences are the quiet stretches that last long enough, all of them and nothing else.
pub proof fn law_silences_are_long_quiet_stretches(
    db: Seq<i32>,
    window: u64,
    rate: u32,
    p: DetectParams,
    runs: Seq<Run>,
)
    requires
        window > 0,
        db.len() < usize::MAX,
        all_runs(db, p, min_windows(p, rate, window), runs),
    ensures
        forall|k: int| #![trigger runs[k]]
            0 <= k < runs.len() ==> long_silence(db, window, rate, p, runs[k].start as int, runs[k].end as int),
        forall|a: int, b: int| #[trigger]
            long_silence(db, window, rate, p, a, b) ==> exists|k: int|
                0 <= k < runs.len() && (#[trigger] runs[k]).start == a && runs[k].end == b,
        forall|i: int, j: int| 0 <= i < j < runs.len() ==> (#[trigger] runs[i]).end < (#[trigger] runs[j]).start,
{
    assert forall|k: int| #![trigger runs[k]] 0 <= k < runs.len() implies long_silence(
        db,
        window,
        rate,
        p,
        runs[k].start as int,
        runs[k].end as int,
    ) by {
        let (a, b) = (runs[k].start as int, runs[k].end as int);
        assert(whole_run(db, p, a, b));
        assert forall|i: int| a <= i < b implies #[trigger] db[i] < p.threshold_udb by {
            assert(quiet(db, p, i));
        }
        lemma_long_enough(p.min_silence_ns, rate, window, b - a);
    }
    assert forall|a: int, b: int| #[trigger] long_silence(db, window, rate, p, a, b) implies exists|k: int|
        0 <= k < runs.len() && (#[trigger] runs[k]).start == a && runs[k].end == b by {
        assert(whole_run(db, p, a, b));
        lemma_long_enough(p.min_silence_ns, rate, window, b - a);
    }
}

/// A number of windows is enough for a time just where it lasts that long.
proof fn lemma_long_enough(ns: u64, rate: u32, window: u64, len: int)
    requires
        window > 0,
        0 < len < usize::MAX,
    ensures
        len >= windows_in(ns, rate, window) <==> len * window * 1_000_000_000 >= ns * rate,
{
    let x = ns * rate;
    let y = SECOND * window;
    assert(len * window * 1_000_000_000 == len * y) by (nonlinear_arith)
        requires
            y == 1_000_000_000 * window,
    ;
    assert(0 <= x) by (nonlinear_arith)
        requires
            x == ns * rate,
            ns >= 0,
            rate >= 0,
    ;
    assert(len * y > 0) by (nonlinear_arith)
        requires
            len > 0,
            y > 0,
    ;
    let q = (x + y - 1) / y;
    assert(len >= q <==> len * y >= x) by (nonlinear_arith)
        requires
            q == (x + y - 1) / y,
            y > 0,
    ;
}

/// Suggestions do what they are for.
pub proof fn law_suggestions_split_the_silences(
    db: Seq<i32>,
    window: u64,
    rate: u32,
    p: DetectParams,
    runs: Seq<Run>,
    splits: Seq<Split>,
)
    requires
        window > 0,
        db.len() < usize::MAX,
        all_runs(db, p, min_windows(p, rate, window), runs),
        splits.len() == thinned(runs, db.len() as int, window, min_track(p, rate)).len(),
        forall|k: int| 0 <= k < splits.len() ==> is_suggestion(
            #[trigger] splits[k],
            thinned(runs, db.len() as int, window, min_track(p, rate))[k],
            window,
            rate,
        ),
    ensures
        splits_the_silences(db, window, rate, p, splits),
{
    let n = db.len() as int;
    let gap = min_track(p, rate);
    let cs = thinned(runs, n, window, gap);
    law_silences_are_long_quiet_stretches(db, window, rate, p, runs);
    law_suggestions_split_silences(db, window, rate, p, runs, splits);
    let from = lemma_thinned_from_runs(runs, n, window, gap);
    let shortest = p.min_track_ns * rate / 1_000_000_000;
    assert forall|k: int| 0 <= k < splits.len() implies splits_some_silence(db, window, rate, p, #[trigger] splits[k]) by {
        assert(is_suggestion(splits[k], cs[k], window, rate));
        let run = runs[from[k]];
        assert(gap_between_sounds(db, window, rate, p, run.start as int, run.end as int));
        assert(splits_silence(splits[k], window, rate, run.start as int, run.end as int));
    }
    assert forall|j: int, k: int| 0 <= j < k < splits.len() implies {
        &&& (#[trigger] splits[j]).at < (#[trigger] splits[k]).at
        &&& splits[k].at - splits[j].at >= shortest
    } by {
        if shortest > gap {
            let run = runs[from[j]];
            assert(is_suggestion(splits[j], cs[j], window, rate));
            assert(run.start >= 1 && run.end >= 2);
            assert((run.start + run.end) * window >= 3) by (nonlinear_arith)
                requires
                    run.start + run.end >= 3,
                    window >= 1,
            ;
            assert(splits[j].at >= 1);
        }
    }
    assert forall|a: int, b: int| #[trigger] gap_between_sounds(db, window, rate, p, a, b) implies {
        ||| exists|k: int| 0 <= k < splits.len() && splits_silence(#[trigger] splits[k], window, rate, a, b)
        ||| exists|c: int, d: int| #[trigger]
            gap_between_sounds(db, window, rate, p, c, d) && outdoes(window, rate, p, c, d, a, b)
    } by {
        assert(long_silence(db, window, rate, p, a, b));
        let i = choose|k: int| 0 <= k < runs.len() && (#[trigger] runs[k]).start == a && runs[k].end == b;
        lemma_thinned_or_outdone(runs, n, window, gap, i);
        if exists|k: int| 0 <= k < cs.len() && (#[trigger] cs[k]).at == middle(runs[i], window) && cs[k].len == b - a {
            let k = choose|k: int| 0 <= k < cs.len() && (#[trigger] cs[k]).at == middle(runs[i], window) && cs[k].len == b - a;
            assert(is_suggestion(splits[k], cs[k], window, rate));
            assert(splits_silence(splits[k], window, rate, a, b));
        } else {
            let j = choose|j: int| 0 <= j < runs.len() && is_inner(#[trigger] runs[j], n) && near_and_first(runs, window, gap, j, i);
            let (c, d) = (runs[j].start as int, runs[j].end as int);
            assert(long_silence(db, window, rate, p, c, d));
            assert(gap_between_sounds(db, window, rate, p, c, d));
            assert(j < i ==> runs[j].end < runs[i].start);
            assert(outdoes(window, rate, p, c, d, a, b));
        }
    }
}

/// Run `j` is closer to run `i` than `gap`, and longer, or as long and before it.
spec fn near_and_first(runs: Seq<Run>, window: u64, gap: int, j: int, i: int) -> bool {
    let apart = middle(runs[j], window) - middle(runs[i], window);
    let (x, y) = (runs[j].end - runs[j].start, runs[i].end - runs[i].start);
    -gap < apart < gap && (x > y || (x == y && j < i))
}

proof fn lemma_thinned_or_outdone(runs: Seq<Run>, n: int, window: u64, gap: int, i: int)
    requires
        in_order(runs),
        0 <= i < runs.len(),
        is_inner(runs[i], n),
    ensures
        ({
            let cs = thinned(runs, n, window, gap);
            ||| exists|k: int|
                0 <= k < cs.len() && (#[trigger] cs[k]).at == middle(runs[i], window) && cs[k].len == runs[i].end
                    - runs[i].start
            ||| exists|j: int|
                0 <= j < runs.len() && is_inner(#[trigger] runs[j], n) && near_and_first(runs, window, gap, j, i)
        }),
    decreases runs.len(),
{
    let less = runs.drop_last();
    let last = runs.len() - 1;
    assert(in_order(less));
    let was = thinned(less, n, window, gap);
    let now = thinned(runs, n, window, gap);
    let run = runs.last();
    let from = lemma_thinned_from_runs(less, n, window, gap);
    if was.len() > 0 {
        let f = from[was.len() - 1];
        assert(runs[f] == less[f]);
        lemma_middle(runs[f], window);
        lemma_middle(run, window);
        assert(runs[f].end < run.start);
        assert(runs[f].end * window <= run.start * window) by (nonlinear_arith)
            requires
                runs[f].end <= run.start,
                0 <= window,
        ;
        assert(was.last() == was[was.len() - 1]);
    }
    if i == last {
        if now != was && now.len() > 0 {
            assert(now[now.len() - 1].at == middle(run, window));
        } else {
            let f = from[was.len() - 1];
            assert(near_and_first(runs, window, gap, f, i));
        }
    } else {
        assert(less[i] == runs[i]);
        lemma_thinned_or_outdone(less, n, window, gap, i);
        if exists|k: int|
            0 <= k < was.len() && (#[trigger] was[k]).at == middle(runs[i], window) && was[k].len == runs[i].end
                - runs[i].start {
            let k = choose|k: int|
                0 <= k < was.len() && (#[trigger] was[k]).at == middle(runs[i], window) && was[k].len == runs[i].end
                    - runs[i].start;
            if now.len() == was.len() && now != was && k == was.len() - 1 {
                assert(runs[last] == run);
                assert(near_and_first(runs, window, gap, last, i));
            } else {
                assert(now[k] == was[k]);
            }
        } else {
            let j = choose|j: int|
                0 <= j < less.len() && is_inner(#[trigger] less[j], n) && near_and_first(less, window, gap, j, i);
            assert(less[j] == runs[j]);
            assert(near_and_first(runs, window, gap, j, i));
        }
    }
}

/// `f` is the first of the longest runs between sounds among `lo..hi`.
pub open spec fn leads(runs: Seq<Run>, n: int, lo: int, hi: int, f: int) -> bool {
    &&& lo <= f < hi
    &&& 0 < runs[f].start && runs[f].end < n
    &&& forall|i: int| #![trigger runs[i]]
        lo <= i < hi && 0 < runs[i].start && runs[i].end < n ==> {
            &&& i < f ==> runs[i].end - runs[i].start < runs[f].end - runs[f].start
            &&& f < i ==> runs[i].end - runs[i].start <= runs[f].end - runs[f].start
        }
}

/// Where group `k` ends, with the groups starting at `starts`.
pub open spec fn group_end(starts: Seq<int>, k: int, len: int) -> int {
    if k + 1 < starts.len() {
        starts[k + 1]
    } else {
        len
    }
}

/// How far the middle of run `i` is behind that of run `f`.
pub open spec fn behind(runs: Seq<Run>, window: u64, f: int, i: int) -> int {
    (runs[i].start + runs[i].end) * window / 2 - (runs[f].start + runs[f].end) * window / 2
}

/// Run `i` is closer than `gap` to the first longest run of `lo..i`.
pub open spec fn joins(runs: Seq<Run>, n: int, window: u64, gap: int, lo: int, i: int) -> bool {
    exists|f: int| #[trigger] leads(runs, n, lo, i, f) && behind(runs, window, f, i) < gap
}

/// The runs `lo..hi` form a group with the leader `f`: the first of them lies between sounds, and
/// every other that does is closer than `gap` to the first longest before it.
pub open spec fn is_group(runs: Seq<Run>, n: int, window: u64, gap: int, lo: int, hi: int, f: int) -> bool {
    &&& 0 <= lo < hi <= runs.len()
    &&& 0 < runs[lo].start && runs[lo].end < n
    &&& leads(runs, n, lo, hi, f)
    &&& forall|i: int| #![trigger runs[i]]
        lo < i < hi && 0 < runs[i].start && runs[i].end < n ==> joins(runs, n, window, gap, lo, i)
}

/// `c` stands in the middle of run `f`.
pub open spec fn stands_in(runs: Seq<Run>, window: u64, c: Candidate, f: int) -> bool {
    c.at == (runs[f].start + runs[f].end) * window / 2 && c.len == runs[f].end - runs[f].start
}

/// The runs between sounds fall into groups, one for each suggestion, which stands in the first
/// of the longest of its group. A run belongs to the group before it just where it is closer than
/// `gap` to the first longest run that the group has so far.
pub proof fn law_suggestions_lead_their_groups(runs: Seq<Run>, n: int, window: u64, gap: int) -> (r: (
    Seq<int>,
    Seq<int>,
))
    ensures
        ({
            let (starts, leaders) = r;
            let cs = thinned(runs, n, window, gap);
            let len = runs.len() as int;
            &&& starts.len() == cs.len() && leaders.len() == cs.len()
            &&& forall|k: int| #![trigger leaders[k]]
                0 <= k < cs.len() ==> {
                    &&& is_group(runs, n, window, gap, starts[k], group_end(starts, k, len), leaders[k])
                    &&& stands_in(runs, window, cs[k], leaders[k])
                }
            &&& forall|k: int| #![trigger leaders[k]]
                0 <= k < cs.len() - 1 ==> behind(runs, window, leaders[k], starts[k + 1]) >= gap
            &&& forall|i: int| #![trigger runs[i]]
                0 <= i < len && (cs.len() == 0 || i < starts[0]) ==> runs[i].start == 0 || runs[i].end >= n
        }),
    decreases runs.len(),
{
    let cs = thinned(runs, n, window, gap);
    let len = runs.len() as int;
    if len == 0 {
        (Seq::empty(), Seq::empty())
    } else {
        let less = runs.drop_last();
        let last = len - 1;
        let (starts, leaders) = law_suggestions_lead_their_groups(less, n, window, gap);
        let was = thinned(less, n, window, gap);
        let run = runs.last();
        let m = was.len() - 1;
        assert forall|k: int| #![trigger leaders[k]] 0 <= k < was.len() implies {
            &&& is_group(runs, n, window, gap, starts[k], group_end(starts, k, last), leaders[k])
            &&& stands_in(runs, window, was[k], leaders[k])
            &&& k < m ==> behind(runs, window, leaders[k], starts[k + 1]) >= gap
        } by {
            lemma_group_stays(runs, n, window, gap, starts[k], group_end(starts, k, last), leaders[k]);
            if k < m {
                let next = leaders[k + 1];
                assert(is_group(less, n, window, gap, starts[k + 1], group_end(starts, k + 1, last), next));
            }
        }
        assert forall|i: int| #![trigger runs[i]] 0 <= i < last && (was.len() == 0 || i < starts[0]) implies runs[i].start
            == 0 || runs[i].end >= n by {
            assert(less[i] == runs[i]);
        }
        if was.len() > 0 {
            let leader = leaders[m];
            let first = leaders[0];
            assert(was.last() == was[m]);
            assert(behind(runs, window, leader, last) == middle(run, window) - was.last().at);
        }
        if run.start == 0 || run.end >= n {
            if was.len() > 0 {
                lemma_group_grows(runs, n, window, gap, starts[m], leaders[m], leaders[m]);
            }
            (starts, leaders)
        } else if was.len() > 0 && middle(run, window) - was.last().at < gap {
            assert(joins(runs, n, window, gap, starts[m], last)) by {
                let leader = leaders[m];
                assert(leads(runs, n, starts[m], last, leader));
            }
            if run.end - run.start > was.last().len {
                let next = leaders.drop_last().push(last);
                lemma_group_grows(runs, n, window, gap, starts[m], leaders[m], last);
                assert forall|k: int| #![trigger next[k]] 0 <= k < cs.len() implies {
                    &&& is_group(runs, n, window, gap, starts[k], group_end(starts, k, len), next[k])
                    &&& stands_in(runs, window, cs[k], next[k])
                    &&& k < cs.len() - 1 ==> behind(runs, window, next[k], starts[k + 1]) >= gap
                } by {
                    if k < m {
                        assert(next[k] == leaders[k]);
                    }
                }
                (starts, next)
            } else {
                lemma_group_grows(runs, n, window, gap, starts[m], leaders[m], leaders[m]);
                (starts, leaders)
            }
        } else {
            let (s, l) = (starts.push(last), leaders.push(last));
            assert(leads(runs, n, last, last + 1, last));
            assert forall|k: int| #![trigger l[k]] 0 <= k < cs.len() implies {
                &&& is_group(runs, n, window, gap, s[k], group_end(s, k, len), l[k])
                &&& stands_in(runs, window, cs[k], l[k])
                &&& k < cs.len() - 1 ==> behind(runs, window, l[k], s[k + 1]) >= gap
            } by {
                if k <= m {
                    assert(l[k] == leaders[k]);
                    assert(group_end(s, k, len) == group_end(starts, k, last));
                }
            }
            (s, l)
        }
    }
}

/// A group of the runs before the last is a group of all of them.
proof fn lemma_group_stays(runs: Seq<Run>, n: int, window: u64, gap: int, lo: int, hi: int, f: int)
    requires
        runs.len() > 0,
        is_group(runs.drop_last(), n, window, gap, lo, hi, f),
    ensures
        is_group(runs, n, window, gap, lo, hi, f),
{
    let less = runs.drop_last();
    lemma_leads_stays(runs, n, lo, hi, f);
    assert(less[lo] == runs[lo]);
    assert forall|i: int| #![trigger runs[i]] lo < i < hi && 0 < runs[i].start && runs[i].end < n implies joins(
        runs,
        n,
        window,
        gap,
        lo,
        i,
    ) by {
        assert(less[i] == runs[i]);
        let g = choose|g: int| #[trigger] leads(less, n, lo, i, g) && behind(less, window, g, i) < gap;
        lemma_leads_stays(runs, n, lo, i, g);
        assert(less[g] == runs[g]);
        assert(leads(runs, n, lo, i, g) && behind(runs, window, g, i) < gap);
    }
}

proof fn lemma_leads_stays(runs: Seq<Run>, n: int, lo: int, hi: int, f: int)
    requires
        0 <= lo <= hi < runs.len(),
        leads(runs.drop_last(), n, lo, hi, f),
    ensures
        leads(runs, n, lo, hi, f),
{
    let less = runs.drop_last();
    assert(less[f] == runs[f]);
    assert forall|i: int| #![trigger runs[i]] lo <= i < hi && 0 < runs[i].start && runs[i].end < n implies {
        &&& i < f ==> runs[i].end - runs[i].start < runs[f].end - runs[f].start
        &&& f < i ==> runs[i].end - runs[i].start <= runs[f].end - runs[f].start
    } by {
        assert(less[i] == runs[i]);
    }
}

/// The last run joins the last group, whose leader `f` gives way to `g` where it is longer.
proof fn lemma_group_grows(runs: Seq<Run>, n: int, window: u64, gap: int, lo: int, f: int, g: int)
    requires
        runs.len() > 0,
        is_group(runs, n, window, gap, lo, runs.len() - 1, f),
        0 < runs.last().start && runs.last().end < n ==> joins(runs, n, window, gap, lo, runs.len() - 1),
        ({
            let inner = 0 < runs.last().start && runs.last().end < n;
            let longer = runs.last().end - runs.last().start > runs[f].end - runs[f].start;
            g == if inner && longer {
                runs.len() - 1
            } else {
                f
            }
        }),
    ensures
        is_group(runs, n, window, gap, lo, runs.len() as int, g),
{
}

/// What is cut of the silence `[a, b)`: all of it but a quarter of a second next to sound.
pub open spec fn cuts_silence(s: Silence, n: int, window: u64, rate: u32, a: int, b: int) -> bool {
    &&& s.start == if a == 0 {
        0
    } else {
        a * window + rate as int / 4
    }
    &&& s.end == if b == n {
        u64::MAX as int
    } else {
        b * window - rate as int / 4
    }
    &&& s.start < s.end
    &&& !s.keep
}

/// Something of the silence `[a, b)` is left to cut.
pub open spec fn leaves_a_cut(n: int, window: u64, rate: u32, a: int, b: int) -> bool {
    let from = if a == 0 {
        0
    } else {
        a * window + rate as int / 4
    };
    let to = if b == n {
        u64::MAX as int
    } else {
        b * window - rate as int / 4
    };
    from < to
}

/// What tags are for. Every silence is cut, but for a quarter of a second next to sound, where
/// that leaves anything; nothing else is.
pub open spec fn cuts_the_silences(db: Seq<i32>, window: u64, rate: u32, p: DetectParams, tags: Seq<Silence>) -> bool {
    &&& forall|k: int| 0 <= k < tags.len() ==> cuts_some_silence(db, window, rate, p, #[trigger] tags[k])
    &&& forall|a: int, b: int| #[trigger]
        long_silence(db, window, rate, p, a, b) && leaves_a_cut(db.len() as int, window, rate, a, b) ==> exists|k: int| 0 <= k < tags.len() && cuts_silence(#[trigger] tags[k], db.len() as int, window, rate, a, b)
}

/// `s` is what is cut of one of the silences.
pub open spec fn cuts_some_silence(db: Seq<i32>, window: u64, rate: u32, p: DetectParams, s: Silence) -> bool {
    exists|a: int, b: int| #[trigger]
        long_silence(db, window, rate, p, a, b) && cuts_silence(s, db.len() as int, window, rate, a, b)
}

/// Tags do what they are for.
pub proof fn law_tags_cut_the_silences(db: Seq<i32>, window: u64, rate: u32, p: DetectParams, runs: Seq<Run>)
    requires
        window > 0,
        db.len() < usize::MAX,
        db.len() * window + rate <= u64::MAX,
        all_runs(db, p, min_windows(p, rate, window), runs),
    ensures
        cuts_the_silences(db, window, rate, p, all_tagged(runs, db.len() as int, window, rate)),
{
    let n = db.len() as int;
    let tags = all_tagged(runs, n, window, rate);
    law_silences_are_long_quiet_stretches(db, window, rate, p, runs);
    assert forall|k: int| 0 <= k < tags.len() implies cuts_some_silence(db, window, rate, p, #[trigger] tags[k]) by {
        let i = lemma_tag_has_a_run(runs, n, window, rate, k);
        let (a, b) = (runs[i].start as int, runs[i].end as int);
        assert(long_silence(db, window, rate, p, a, b));
        lemma_tag_of_run(runs[i], n, window, rate);
    }
    assert forall|a: int, b: int| #[trigger]
        long_silence(db, window, rate, p, a, b) && leaves_a_cut(n, window, rate, a, b) implies exists|k: int| 0 <= k < tags.len() && cuts_silence(#[trigger] tags[k], n, window, rate, a, b) by {
        let i = choose|k: int| 0 <= k < runs.len() && (#[trigger] runs[k]).start == a && runs[k].end == b;
        lemma_tag_of_run(runs[i], n, window, rate);
        let k = lemma_run_has_a_tag(runs, n, window, rate, i);
        assert(cuts_silence(tags[k], n, window, rate, a, b));
    }
}

proof fn lemma_tag_of_run(run: Run, n: int, window: u64, rate: u32)
    requires
        run.start < run.end <= n,
        n * window + rate <= u64::MAX,
    ensures
        tagged(run, n, window, rate) is Some <==> leaves_a_cut(n, window, rate, run.start as int, run.end as int),
        tagged(run, n, window, rate) matches Some(s) ==> cuts_silence(
            s,
            n,
            window,
            rate,
            run.start as int,
            run.end as int,
        ),
{
    let (a, b) = (run.start as int, run.end as int);
    assert(0 <= a * window <= b * window <= n * window) by (nonlinear_arith)
        requires
            0 <= a <= b <= n,
            window >= 0,
    ;
}

proof fn lemma_tag_has_a_run(runs: Seq<Run>, n: int, window: u64, rate: u32, k: int) -> (i: int)
    requires
        0 <= k < all_tagged(runs, n, window, rate).len(),
    ensures
        0 <= i < runs.len(),
        tagged(runs[i], n, window, rate) == Some(all_tagged(runs, n, window, rate)[k]),
    decreases runs.len(),
{
    let less = runs.drop_last();
    if k < all_tagged(less, n, window, rate).len() {
        let i = lemma_tag_has_a_run(less, n, window, rate, k);
        assert(less[i] == runs[i]);
        i
    } else {
        runs.len() - 1
    }
}

proof fn lemma_run_has_a_tag(runs: Seq<Run>, n: int, window: u64, rate: u32, i: int) -> (k: int)
    requires
        0 <= i < runs.len(),
        tagged(runs[i], n, window, rate) is Some,
    ensures
        0 <= k < all_tagged(runs, n, window, rate).len(),
        tagged(runs[i], n, window, rate) == Some(all_tagged(runs, n, window, rate)[k]),
    decreases runs.len(),
{
    let less = runs.drop_last();
    if i < less.len() {
        assert(less[i] == runs[i]);
        lemma_run_has_a_tag(less, n, window, rate, i)
    } else {
        all_tagged(runs, n, window, rate).len() - 1
    }
}

/// `k` is within the given time of window `here`: the windows between them last less than that.
pub open spec fn in_reach(window: u64, rate: u32, ns: u64, here: int, k: int) -> bool {
    k == here || ((if k < here {
        here - k
    } else {
        k - here
    }) - 1) * window * 1_000_000_000 < ns * rate
}

/// Snapping stays where it is unless there is a quieter window within reach, and then goes to the
/// centre of the quietest, of several the nearest to where it was.
pub proof fn law_snapping_stays_in_reach(db: Seq<i32>, window: u64, rate: u32, radius_ns: u64, at: u64, r: u64)
    requires
        0 < db.len() < usize::MAX,
        window > 0,
        snapped(db, window, windows_in(radius_ns, rate, window), at, r),
    ensures
        ({
            let n = db.len() as int;
            let here = if at as int / window as int >= n {
                n - 1
            } else {
                at as int / window as int
            };
            exists|best: int| {
                &&& 0 <= best < n
                &&& in_reach(window, rate, radius_ns, here, best)
                &&& forall|k: int|
                    0 <= k < n && in_reach(window, rate, radius_ns, here, k) ==> {
                        &&& db[best] <= #[trigger] db[k]
                        &&& db[best] == db[k] ==> (if best < here {
                            here - best
                        } else {
                            best - here
                        }) <= (if k < here {
                            here - k
                        } else {
                            k - here
                        })
                    }
                &&& db[here] <= #[trigger] db[best] ==> r == at
                &&& db[best] < db[here] ==> r == best * window + window / 2
            }
        }),
{
    let n = db.len() as int;
    let radius = windows_in(radius_ns, rate, window);
    let here = window_of(n, window, at);
    let lo = if here < radius { 0 } else { here - radius };
    let hi = if here + radius < n { here + radius } else { n - 1 };
    let best = choose|best: int| {
        &&& lo <= best <= hi
        &&& forall|k: int| lo <= k <= hi ==> #[trigger] better(db, here, best, k)
        &&& r == if db[here] <= db[best] {
            at as int
        } else {
            best * window + window / 2
        }
    };
    assert forall|k: int| 0 <= k < n implies (in_reach(window, rate, radius_ns, here, k) <==> lo <= k <= hi) by {
        let d = if k < here {
            here - k
        } else {
            k - here
        };
        if d > 1 {
            lemma_long_enough(radius_ns, rate, window, d - 1);
        } else if d == 1 {
            assert((d - 1) * window * 1_000_000_000 == 0) by (nonlinear_arith)
                requires
                    d == 1,
            ;
            assert(radius_ns * rate >= 0) by (nonlinear_arith)
                requires
                    radius_ns >= 0,
                    rate >= 0,
            ;
            if radius_ns * rate > 0 {
                assert(windows_in(radius_ns, rate, window) >= 1) by {
                    let (x, y) = (radius_ns * rate, SECOND * window);
                    assert((x + y - 1) / y >= 1) by (nonlinear_arith)
                        requires
                            x > 0,
                            y > 0,
                    ;
                }
            }
        }
        assert(radius >= 0) by {
            let (x, y) = (radius_ns * rate, SECOND * window);
            assert(x >= 0) by (nonlinear_arith)
                requires
                    x == radius_ns * rate,
                    radius_ns >= 0,
                    rate >= 0,
            ;
            assert((x + y - 1) / y >= 0) by (nonlinear_arith)
                requires
                    x >= 0,
                    y > 0,
            ;
        }
    }
    assert forall|k: int| 0 <= k < n && in_reach(window, rate, radius_ns, here, k) implies {
        &&& db[best] <= #[trigger] db[k]
        &&& db[best] == db[k] ==> (if best < here {
            here - best
        } else {
            best - here
        }) <= (if k < here {
            here - k
        } else {
            k - here
        })
    } by {
        assert(better(db, here, best, k));
    }
    assert(db[best] == db[best]);
}

} // verus!

//! What the waveform and its ruler show.
use vstd::prelude::*;
use crate::edit::{shown_name, RecordingEdit, Silence, Split};
use crate::peaks::{
    bucket_len, buckets, chunk_count, chunk_end, coarser, column_from, column_to, extent, extent_of, law_extents_join,
    level_for,
};
use crate::state::Detail;
use crate::text::{decimal, lemma_decimal_reads_back, lemma_decimal_width, lemma_padded_reads_back, padded, value_of};
use crate::views::{
    at_edge, clipped, first_tick, height, height_text, named_track, step_from, tick_shown, tick_steps, track_text, visible,
};

verus! {

/// Both ends of an extent are samples of it.
pub proof fn law_extremes_are_samples(s: Seq<i16>)
    requires
        s.len() > 0,
    ensures
        s.contains(extent(s).0),
        s.contains(extent(s).1),
    decreases s.len(),
{
    let t = s.drop_last();
    assert(s[s.len() - 1] == s.last());
    if t.len() > 0 {
        law_extremes_are_samples(t);
        let a = choose|i: int| 0 <= i < t.len() && t[i] == extent(t).0;
        let b = choose|i: int| 0 <= i < t.len() && t[i] == extent(t).1;
        assert(s[a] == extent(t).0 && s[b] == extent(t).1);
    } else {
        assert(extent(t) == (i16::MAX, i16::MIN));
        assert(i16::MIN <= s.last() <= i16::MAX);
    }
}

/// Four buckets make one of the next level: it has the extent of all their samples.
proof fn lemma_bucket_runs(s: Seq<i16>, w: int, a: int, b: int)
    requires
        w > 0,
        0 <= a <= b <= chunk_count(s.len() as int, w),
    ensures
        extent_of(buckets(s, w).subrange(a, b)) == extent(
            s.subrange(
                if a * w < s.len() {
                    a * w
                } else {
                    s.len() as int
                },
                if b * w < s.len() {
                    b * w
                } else {
                    s.len() as int
                },
            ),
        ),
    decreases b - a,
{
    let n = s.len() as int;
    let all = buckets(s, w);
    let cut = all.subrange(a, b);
    assert(0 <= a * w <= b * w) by (nonlinear_arith)
        requires
            0 <= a <= b,
            w > 0,
    ;
    if a == b {
        assert(cut.len() == 0);
    } else {
        lemma_bucket_runs(s, w, a, b - 1);
        assert(cut.drop_last() =~= all.subrange(a, b - 1));
        assert(a * w <= (b - 1) * w < n && (b - 1) * w <= b * w && (b - 1 + 1) * w == b * w && 0 <= (b - 1) * w) by (nonlinear_arith)
            requires
                0 <= a < b <= (n + w - 1) / w,
                w > 0,
                n >= 0,
        ;
        let end = if b * w < n {
            b * w
        } else {
            n
        };
        assert(cut.last() == extent(s.subrange((b - 1) * w, end)));
        assert(s.subrange(a * w, end) =~= s.subrange(a * w, (b - 1) * w) + s.subrange((b - 1) * w, end));
        law_extents_join(s.subrange(a * w, (b - 1) * w), s.subrange((b - 1) * w, end));
    }
}

/// A level of the peaks shows the samples themselves, four times as many to a bucket as the level
/// below.
pub proof fn law_levels_show_the_samples(s: Seq<i16>, w: int)
    requires
        w > 0,
    ensures
        coarser(buckets(s, w)) == buckets(s, 4 * w),
{
    let n = s.len() as int;
    let fine = buckets(s, w);
    let m = fine.len() as int;
    assert(m == (n + w - 1) / w && m >= 0 && (m - 1) * w < n <= m * w) by (nonlinear_arith)
        requires
            m == chunk_count(n, w),
            m == ((n + w - 1) / w) as nat,
            w > 0,
            n >= 0,
    ;
    assert((m + 3) / 4 == (n + 4 * w - 1) / (4 * w)) by {
        let q = (m + 3) / 4;
        assert(4 * q - 3 <= m <= 4 * q);
        assert((n + 4 * w - 1) / (4 * w) == q) by (nonlinear_arith)
            requires
                4 * q - 3 <= m <= 4 * q,
                (m - 1) * w < n <= m * w,
                w > 0,
        ;
    }
    assert forall|i: int| 0 <= i < (m + 3) / 4 implies coarser(fine)[i] == #[trigger] buckets(s, 4 * w)[i] by {
        let end = chunk_end(m, 4, i);
        assert(i * 4 < m);
        lemma_bucket_runs(s, w, i * 4, end);
        assert(i * 4 * w == i * (4 * w) && (i + 1) * 4 * w == (i + 1) * (4 * w)) by (nonlinear_arith);
        assert(i * 4 * w <= (m - 1) * w) by (nonlinear_arith)
            requires
                i * 4 <= m - 1,
                w > 0,
        ;
        if (i + 1) * 4 < m {
            assert((i + 1) * 4 * w <= (m - 1) * w) by (nonlinear_arith)
                requires
                    (i + 1) * 4 <= m - 1,
                    w > 0,
            ;
        } else {
            assert((i + 1) * 4 * w >= m * w) by (nonlinear_arith)
                requires
                    (i + 1) * 4 >= m,
                    w > 0,
            ;
        }
    }
    assert(coarser(fine) =~= buckets(s, 4 * w));
}

/// Column `c` of `n` shows every frame `x` of its share of `[start, start + width)`: the bucket of
/// `x` is among those that it is drawn from. And it shows little else: its first bucket starts at
/// the share's start or before, its last one before the share's end.
pub proof fn law_columns_show_their_share(start: int, width: int, n: int, bucket: int, c: int, len: int, x: int)
    requires
        start >= 0,
        width > 0,
        n > 0,
        bucket > 0,
        0 <= c < n,
    ensures
        start * n + c * width <= x * n < start * n + (c + 1) * width && x / bucket < len ==> column_from(
            start,
            width,
            n,
            bucket,
            c,
        ) <= x / bucket < column_to(start, width, n, bucket, c, len),
        column_from(start, width, n, bucket, c) * bucket * n <= start * n + c * width,
        column_to(start, width, n, bucket, c, len) > column_from(start, width, n, bucket, c) + 1 ==> (column_to(
            start,
            width,
            n,
            bucket,
            c,
            len,
        ) - 1) * bucket * n < start * n + (c + 1) * width,
{
    let from = column_from(start, width, n, bucket, c);
    let l = start * n + c * width;
    let r = start * n + (c + 1) * width;
    let d = n * bucket;
    assert(d > 0 && l >= 0 && r >= 0) by (nonlinear_arith)
        requires
            d == n * bucket,
            n > 0,
            bucket > 0,
            start >= 0,
            width > 0,
            c >= 0,
            l == start * n + c * width,
            r == start * n + (c + 1) * width,
    ;
    assert(from == l / d);
    assert(from * bucket * n <= l) by (nonlinear_arith)
        requires
            from == l / d,
            d == n * bucket,
            d > 0,
    ;
    let q = r / d;
    let up = q + if r % d == 0 {
        0int
    } else {
        1
    };
    assert(r == q * d + r % d && 0 <= r % d < d) by (nonlinear_arith)
        requires
            q == r / d,
            d > 0,
    ;
    assert((up - 1) * bucket * n < r && r <= up * bucket * n) by (nonlinear_arith)
        requires
            r == q * d + r % d,
            0 <= r % d < d,
            up == q + if r % d == 0 {
                0int
            } else {
                1
            },
            d == n * bucket,
            d > 0,
    ;
    let to = column_to(start, width, n, bucket, c, len);
    if to > from + 1 {
        assert((to - 1) * bucket * n <= (up - 1) * bucket * n) by (nonlinear_arith)
            requires
                to <= up,
                bucket > 0,
                n > 0,
        ;
    }
    if l <= x * n < r {
        let y = x / bucket;
        assert(from <= y && y < up) by (nonlinear_arith)
            requires
                y == x / bucket,
                bucket > 0,
                n > 0,
                from * bucket * n <= l <= x * n < r <= up * bucket * n,
        ;
    }
}

/// The peaks of a view come from the coarsest level whose buckets are no wider than a column, or
/// from the finest.
pub proof fn law_columns_come_from_the_coarsest_level(n: int, width: int, columns: int)
    requires
        n > 0,
    ensures
        ({
            let l = level_for(n, width, columns);
            &&& 0 <= l < n
            &&& l > 0 ==> bucket_len(l as nat) * columns <= width
            &&& forall|k: int| l < k < n ==> #[trigger] bucket_len(k as nat) * columns > width
        }),
    decreases n,
{
    if n > 1 {
        law_columns_come_from_the_coarsest_level(n - 1, width, columns);
    }
}

/// A louder sample is drawn further out. Silence is drawn as a thin line round the middle, and
/// the two edges mirror each other: the lower one of `-v` lies as far below the middle as the
/// upper one of `v` lies above it.
pub proof fn law_heights_follow_the_samples(v: int, louder: int)
    requires
        -32767 <= v < louder <= 32767,
    ensures
        height(louder, -30) <= height(v, -30),
        height(louder, 30) <= height(v, 30),
        height(v, -30) + height(-v, 30) == 10000,
        height(0, -30) == 4970,
        height(32767, -30) == 70,
        height(-32767, 30) == 9930,
{
}

/// What is shown of a range is its overlap with the view, counted from the view's start.
pub proof fn law_clipping_shows_the_overlap(a: int, b: int, start: int, end: int, x: int)
    requires
        a <= b,
    ensures
        match clipped(a, b, start, end) {
            Some((from, len)) => (a <= x < b && start <= x < end) <==> (from <= x - start < from + len),
            None => !(a <= x < b && start <= x < end),
        },
        clipped(a, b, start, end) matches Some((from, len)) ==> 0 <= from && from + len <= end - start,
{
}

/// The ruler has ten ticks to a view at the most, and at least two where the view is no longer
/// than ten minutes.
pub proof fn law_ticks_are_neither_few_nor_many(span: int)
    requires
        0 < span <= 600 * 1_000_000_000,
    ensures
        span <= 10 * step_from(0, span),
        span > 100_000_000 ==> step_from(0, span) < span,
        span > 1_000_000_000 ==> 2 * step_from(0, span) <= span,
{
    reveal_with_fuel(step_from, 14);
    let t = tick_steps();
    assert(t[0] == 1 && t[1] == 2 && t[2] == 5 && t[3] == 10 && t[4] == 20 && t[5] == 50 && t[6] == 100);
    assert(t[7] == 150 && t[8] == 300 && t[9] == 600 && t[10] == 1200 && t[11] == 3000 && t[12] == 6000);
}

/// Ticks stand on whole multiples of the step. The first is the earliest that the view shows.
pub proof fn law_ticks_stand_on_the_step(start: int, step: int, rate: int)
    requires
        start >= 0,
        step > 0,
        rate > 0,
    ensures
        first_tick(start, step, rate) % step == 0,
        first_tick(start, step, rate) * rate >= start * 1_000_000_000,
        (first_tick(start, step, rate) - step) * rate < start * 1_000_000_000,
{
    let u = step * rate;
    let from = start * 1_000_000_000;
    let k = (from + u - 1) / u;
    assert(u > 0) by (nonlinear_arith)
        requires
            u == step * rate,
            step > 0,
            rate > 0,
    ;
    assert(k * u >= from && (k - 1) * u < from) by (nonlinear_arith)
        requires
            k == (from + u - 1) / u,
            u > 0,
    ;
    assert(k * step * rate == k * u && (k * step - step) * rate == (k - 1) * u) by (nonlinear_arith)
        requires
            u == step * rate,
    ;
    vstd::arithmetic::div_mod::lemma_mod_multiples_basic(k, step);
}

/// Zooming changes the length of the view in the ratio asked for, to the nanosecond, between two
/// seconds and ten minutes and no further than the recording is long.
pub proof fn law_zooming_changes_the_span(v: Detail, num: u32, den: u32, total: u64, rate: u32)
    requires
        v.wf(),
        num > 0,
        den > 0,
        rate > 0,
    ensures
        ({
            let s = v.zoomed_span(num, den, total, rate);
            &&& 2_000_000_000 <= s <= 600_000_000_000
            &&& s == 2_000_000_000 || s * rate <= total * 1_000_000_000
            &&& s * den <= v.span_ns * num || s == 2_000_000_000
            &&& (s + 1) * den > v.span_ns * num || s == 600_000_000_000 || (s + 1) * rate > total * 1_000_000_000
        }),
{
    let (a, b, x) = (v.span_ns * num, den as int, total * 1_000_000_000);
    let (q, w, r) = (a / b, x / rate as int, rate as int);
    assert(q * b <= a < (q + 1) * b) by (nonlinear_arith)
        requires
            q == a / b,
            b > 0,
    ;
    assert(w * r <= x < (w + 1) * r) by (nonlinear_arith)
        requires
            w == x / r,
            r > 0,
    ;
    let s = v.zoomed_span(num, den, total, rate);
    if s != 2_000_000_000 {
        assert(s <= q && s <= w);
        assert(s * b <= q * b && s * r <= w * r) by (nonlinear_arith)
            requires
                s <= q,
                s <= w,
                b > 0,
                r > 0,
        ;
    }
    if s >= q {
        assert((s + 1) * b >= (q + 1) * b) by (nonlinear_arith)
            requires
                s >= q,
                b > 0,
        ;
    } else if s >= w {
        assert((s + 1) * r >= (w + 1) * r) by (nonlinear_arith)
            requires
                s >= w,
                r > 0,
        ;
    }
}

/// A tick is shown where it lies in the view and leaves the last twenty-fifth of it to its label.
pub proof fn law_ticks_lie_in_the_view(ns: int, start: int, span: int, rate: int)
    requires
        span > 0,
        rate > 0,
    ensures
        tick_shown(ns, start, span, rate) <==> start * 1_000_000_000 <= ns * rate && (ns * rate - start * 1_000_000_000) * 25 < 24
            * (span * rate),
        tick_shown(ns, start, span, rate) ==> ns * rate < start * 1_000_000_000 + span * rate,
{
    assert(span * rate > 0) by (nonlinear_arith)
        requires
            span > 0,
            rate > 0,
    ;
}

/// Tracks are counted from one on, and what names a track in the waveform is what names it in the
/// list.
pub proof fn law_tracks_are_counted_from_one(k: int, name: Option<Seq<char>>)
    requires
        k >= 0,
    ensures
        named_track(None, k) == shown_name(Seq::empty(), Some((k + 1) as nat))->0,
        name is Some ==> named_track(name, k) == name->0,
        decimal((k + 1) as nat).is_prefix_of(track_text(k, name)),
        name is None ==> track_text(k, name) == decimal((k + 1) as nat),
{
    crate::text::lemma_already_trimmed(Seq::empty());
    let d = decimal((k + 1) as nat);
    if let Some(n) = name {
        assert(track_text(k, name).subrange(0, d.len() as int) =~= d);
    } else {
        assert(d.subrange(0, d.len() as int) =~= d);
    }
}

/// Of the tracks those are shown that the view shows a part of, each once and in order.
pub proof fn law_visible_tracks_are_shown(e: RecordingEdit, total: u64, start: u64, end: u64, n: int, k: int, x: int)
    requires
        0 <= k < n,
        e.bound(total, k) <= x < e.bound(total, k + 1),
        start <= x < end,
    ensures
        exists|i: int| #![trigger visible(e, total, start, end, n)[i]]
            0 <= i < visible(e, total, start, end, n).len() && ({
                let v = visible(e, total, start, end, n)[i];
                v.0 == k && v.1 <= x - start < v.1 + v.2
            }),
    decreases n,
{
    let before = visible(e, total, start, end, n - 1);
    let all = visible(e, total, start, end, n);
    if k < n - 1 {
        law_visible_tracks_are_shown(e, total, start, end, n - 1, k, x);
        let i = choose|i: int| #![trigger before[i]]
            0 <= i < before.len() && before[i].0 == k && before[i].1 <= x - start < before[i].1 + before[i].2;
        assert(all[i] == before[i]);
    } else {
        assert(all[all.len() - 1].0 == k);
    }
}

/// Where the playhead is out of sight, the middle of the view stays in its place, up to a frame.
pub proof fn law_zooming_keeps_the_middle(v: Detail, span: int, pos: u64, rate: u32)
    requires
        !v.shows(pos, rate),
    ensures
        ({
            let moved = v.zoomed_start(span, pos, rate) - v.start;
            moved * 2_000_000_000 <= (v.span_ns - span) * rate < (moved + 1) * 2_000_000_000
        }),
{
    let x = (v.span_ns - span) * rate;
    let d = 2 * crate::state::SECOND as int;
    assert(d == 2_000_000_000);
    let q = x / d;
    assert(q * d <= x < (q + 1) * d) by (nonlinear_arith)
        requires
            q == x / d,
            d > 0,
    ;
    assert(v.zoomed_start(span, pos, rate) == v.start + q);
}

/// A silence is at the edge of a track where it is at the start or the end of the recording, or
/// where a split lies inside it, and else it is not.
pub proof fn law_silences_at_edges(s: Silence, splits: Seq<Split>, total: u64, i: int)
    requires
        s.start < s.end,
    ensures
        s.start == 0 ==> at_edge(s, splits, total),
        s.end >= total ==> at_edge(s, splits, total),
        0 <= i < splits.len() && s.start < splits[i].at < s.end ==> at_edge(s, splits, total),
        s.start > 0 && s.end < total && (forall|k: int|
            0 <= k < splits.len() ==> (#[trigger] splits[k]).at <= s.start || s.end <= splits[k].at) ==> !at_edge(
            s,
            splits,
            total,
        ),
{
}

/// A height is written in hundredths, with two digits behind the point.
pub proof fn law_heights_read_back(h: int) -> (r: (Seq<char>, Seq<char>))
    requires
        h >= 0,
    ensures
        height_text(h) == r.0 + "."@ + r.1,
        r.1.len() == 2,
        value_of(r.0) * 100 + value_of(r.1) == h,
{
    lemma_decimal_reads_back((h / 100) as nat);
    lemma_padded_reads_back((h % 100) as nat, 2);
    lemma_decimal_width((h % 100) as nat);
    (decimal((h / 100) as nat), padded((h % 100) as nat, 2))
}

} // verus!

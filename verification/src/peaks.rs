//! Min/max waveform peaks at several zoom levels, from samples scaled to 16 bits.
use vstd::prelude::*;

verus! {

/// Frames per bucket at level 0; each level above is four times coarser.
pub const BASE_BUCKET: u64 = 256;

/// How many buckets make one of the next level.
pub const FACTOR: usize = 4;

/// 256, 1k, 4k, 16k, 64k frames per bucket.
pub const LEVELS: usize = 5;

/// More levels than any recording has use for.
pub const MAX_LEVELS: usize = 28;

/// The waveform's least and greatest samples.
#[derive(Clone, Debug, PartialEq, Eq)]
pub struct Peaks {
    /// `levels[l][i]` = (min, max) over bucket `i` at level `l`, scaled to i16.
    pub levels: Vec<Vec<(i16, i16)>>,
}

/// Frames per bucket.
pub open spec fn bucket_len(level: nat) -> nat
    decreases level,
{
    if level == 0 {
        BASE_BUCKET as nat
    } else {
        bucket_len((level - 1) as nat) * 4
    }
}

proof fn lemma_bucket_len(level: nat)
    requires
        level < MAX_LEVELS,
    ensures
        0 < bucket_len(level) <= 0x4000_0000_0000_0000,
{
    reveal_with_fuel(bucket_len, 28);
    lemma_bucket_grows(level, 27);
}

proof fn lemma_bucket_grows(a: nat, b: nat)
    requires
        a <= b,
    ensures
        0 < bucket_len(a) <= bucket_len(b),
    decreases b,
{
    if a < b {
        lemma_bucket_grows(a, (b - 1) as nat);
    } else if b > 0 {
        lemma_bucket_grows((a - 1) as nat, (b - 1) as nat);
    }
}

/// The least of two samples.
pub open spec fn lesser(a: i16, b: i16) -> i16 {
    if a < b {
        a
    } else {
        b
    }
}

/// The greatest of two samples.
pub open spec fn larger(a: i16, b: i16) -> i16 {
    if a < b {
        b
    } else {
        a
    }
}

/// The extent of two extents together.
pub open spec fn join(a: (i16, i16), b: (i16, i16)) -> (i16, i16) {
    (lesser(a.0, b.0), larger(a.1, b.1))
}

/// The extent of nothing.
pub open spec fn no_extent() -> (i16, i16) {
    (i16::MAX, i16::MIN)
}

/// The extent of all samples.
pub open spec fn extent(s: Seq<i16>) -> (i16, i16)
    decreases s.len(),
{
    if s.len() == 0 {
        no_extent()
    } else {
        join(extent(s.drop_last()), (s.last(), s.last()))
    }
}

/// The extent of all extents.
pub open spec fn extent_of(s: Seq<(i16, i16)>) -> (i16, i16)
    decreases s.len(),
{
    if s.len() == 0 {
        no_extent()
    } else {
        join(extent_of(s.drop_last()), s.last())
    }
}

/// The end of chunk `i` of `width` items of `n`.
pub open spec fn chunk_end(n: int, width: int, i: int) -> int {
    if (i + 1) * width < n {
        (i + 1) * width
    } else {
        n
    }
}

/// How many chunks of `width` items there are among `n`.
pub open spec fn chunk_count(n: int, width: int) -> nat {
    ((n + width - 1) / width) as nat
}

/// The extents of the chunks of `width` samples.
pub open spec fn buckets(s: Seq<i16>, width: int) -> Seq<(i16, i16)> {
    Seq::new(chunk_count(s.len() as int, width), |i: int| extent(s.subrange(i * width, chunk_end(s.len() as int, width, i))))
}

/// The next coarser level.
pub open spec fn coarser(s: Seq<(i16, i16)>) -> Seq<(i16, i16)> {
    Seq::new(
        chunk_count(s.len() as int, FACTOR as int),
        |i: int| extent_of(s.subrange(i * FACTOR, chunk_end(s.len() as int, FACTOR as int, i))),
    )
}

fn joined(a: (i16, i16), b: (i16, i16)) -> (r: (i16, i16))
    ensures
        r == join(a, b),
{
    let lo: i16 = if a.0 < b.0 {
        a.0
    } else {
        b.0
    };
    let hi: i16 = if a.1 < b.1 {
        b.1
    } else {
        a.1
    };
    (lo, hi)
}

fn range_extent(s: &Vec<(i16, i16)>, from: usize, to: usize) -> (r: (i16, i16))
    requires
        from <= to <= s@.len(),
    ensures
        r == extent_of(s@.subrange(from as int, to as int)),
{
    let mut e: (i16, i16) = (i16::MAX, i16::MIN);
    let mut i: usize = from;
    while i < to
        invariant
            from <= i <= to <= s@.len(),
            e == extent_of(s@.subrange(from as int, i as int)),
        decreases to - i,
    {
        assert(s@.subrange(from as int, i + 1).drop_last() =~= s@.subrange(from as int, i as int));
        e = joined(e, s[i]);
        i += 1;
    }
    e
}

fn next_level(s: &Vec<(i16, i16)>) -> (r: Vec<(i16, i16)>)
    ensures
        r@ == coarser(s@),
{
    let n: usize = s.len();
    let mut out: Vec<(i16, i16)> = Vec::new();
    let mut at: usize = 0;
    while at < n
        invariant
            n == s@.len(),
            at <= n,
            at == if out@.len() * FACTOR < n {
                out@.len() * FACTOR
            } else {
                n as int
            },
            out@.len() <= coarser(s@).len(),
            out@ == coarser(s@).take(out@.len() as int),
        decreases n - at,
    {
        let to: usize = if n - at > FACTOR {
            at + FACTOR
        } else {
            n
        };
        let ghost k = out@.len() as int;
        assert(to == chunk_end(n as int, FACTOR as int, k));
        assert(k < coarser(s@).len());
        out.push(range_extent(s, at, to));
        assert(out@ =~= coarser(s@).take(k + 1));
        at = to;
    }
    assert(out@.len() == coarser(s@).len());
    assert(coarser(s@).take(out@.len() as int) =~= coarser(s@));
    out
}

/// The coarsest of the levels below `n` whose buckets are no wider than a column, or else the
/// finest.
pub open spec fn level_for(n: int, width: int, columns: int) -> int
    decreases n,
{
    if n <= 1 {
        0
    } else if bucket_len((n - 1) as nat) * columns <= width {
        n - 1
    } else {
        level_for(n - 1, width, columns)
    }
}

/// The first bucket that column `c` of `n` touches.
pub open spec fn column_from(start: int, width: int, n: int, bucket: int, c: int) -> int {
    (start * n + c * width) / (n * bucket)
}

/// One past the last bucket that column `c` touches: at least one, and none past the end.
pub open spec fn column_to(start: int, width: int, n: int, bucket: int, c: int, len: int) -> int {
    let x = start * n + (c + 1) * width;
    let up = x / (n * bucket) + if x % (n * bucket) == 0 { 0int } else { 1 };
    let from = column_from(start, width, n, bucket, c);
    let to = if up > from + 1 { up } else { from + 1 };
    if to < len {
        to
    } else {
        len
    }
}

/// The extent that column `c` shows.
pub open spec fn column(data: Seq<(i16, i16)>, start: int, width: int, n: int, bucket: int, c: int) -> (i16, i16) {
    let from = column_from(start, width, n, bucket, c);
    let to = column_to(start, width, n, bucket, c, data.len() as int);
    if from >= data.len() {
        (0i16, 0i16)
    } else {
        extent_of(data.subrange(from, to))
    }
}

impl Peaks {
    fn bucket(level: usize) -> (r: u64)
        requires
            level < MAX_LEVELS,
        ensures
            r == bucket_len(level as nat),
            0 < r <= 0x4000_0000_0000_0000,
        decreases level,
    {
        proof {
            lemma_bucket_len(level as nat);
        }
        if level == 0 {
            BASE_BUCKET
        } else {
            Self::bucket(level - 1) * 4
        }
    }

    fn wider(bucket: u64, n: usize, width: u64) -> (r: bool)
        ensures
            r == (bucket * n > width),
    {
        assert(0 <= bucket * n <= 0xffff_ffff_ffff_ffff * 0xffff_ffff_ffff_ffff) by (nonlinear_arith)
            requires
                0 <= bucket <= 0xffff_ffff_ffff_ffff,
                0 <= n <= 0xffff_ffff_ffff_ffff,
        ;
        bucket as u128 * n as u128 > width as u128
    }

    /// `n` columns of (min, max) covering frames `[start, end)`.
    pub fn columns(&self, start: u64, end: u64, n: usize) -> (r: Vec<(i16, i16)>)
        requires
            self.levels@.len() <= MAX_LEVELS,
        ensures
            r@.len() == n,
            end <= start || self.levels@.len() == 0 ==> forall|c: int| 0 <= c < n ==> #[trigger] r@[c] == (0i16, 0i16),
            end > start && self.levels@.len() > 0 ==> {
                let level = level_for(self.levels@.len() as int, end - start, n as int);
                forall|c: int| 0 <= c < n ==> #[trigger] r@[c] == column(
                    self.levels@[level]@,
                    start as int,
                    end - start,
                    n as int,
                    bucket_len(level as nat) as int,
                    c,
                )
            },
    {
        let mut out: Vec<(i16, i16)> = Vec::new();
        let count: usize = self.levels.len();
        if n == 0 || end <= start || count == 0 {
            while out.len() < n
                invariant
                    out@.len() <= n,
                    forall|c: int| 0 <= c < out@.len() ==> #[trigger] out@[c] == (0i16, 0i16),
                decreases n - out@.len(),
            {
                out.push((0, 0));
            }
            return out;
        }
        let width: u64 = end - start;
        let mut level: usize = count - 1;
        while level > 0 && Self::wider(Self::bucket(level), n, width)
            invariant
                level < count <= MAX_LEVELS,
                level_for(count as int, width as int, n as int) == level_for(level + 1, width as int, n as int),
            decreases level,
        {
            level -= 1;
        }
        let bucket = Self::bucket(level);
        let data = &self.levels[level];
        let len: usize = data.len();
        let mut c: usize = 0;
        while c < n
            invariant
                c <= n,
                0 < n,
                start < end,
                width == end - start,
                0 < bucket <= 0x4000_0000_0000_0000,
                len == data@.len(),
                out@.len() == c,
                forall|k: int| 0 <= k < c ==> #[trigger] out@[k] == column(
                    data@,
                    start as int,
                    width as int,
                    n as int,
                    bucket as int,
                    k,
                ),
            decreases n - c,
        {
            proof {
                let (s, e, w, m, k, b) = (start as int, end as int, width as int, n as int, c as int, bucket as int);
                assert(0 <= s * m && 0 <= k * w && 0 <= (k + 1) * w && s * m + (k + 1) * w <= e * m && s * m + k * w <= e
                    * m) by (nonlinear_arith)
                    requires
                        0 <= s,
                        0 <= k < m,
                        0 < w,
                        w == e - s,
                ;
                assert(e * m <= 0xffff_ffff_ffff_ffff * 0xffff_ffff_ffff_ffff) by (nonlinear_arith)
                    requires
                        0 <= e <= 0xffff_ffff_ffff_ffff,
                        0 <= m <= 0xffff_ffff_ffff_ffff,
                ;
                assert(0 < m * b <= 0xffff_ffff_ffff_ffff * 0x4000_0000_0000_0000) by (nonlinear_arith)
                    requires
                        0 < m <= 0xffff_ffff_ffff_ffff,
                        0 < b <= 0x4000_0000_0000_0000,
                ;
                assert((k + 1) * w == k * w + w) by (nonlinear_arith);
            }
            let per: u128 = n as u128 * bucket as u128;
            let x0: u128 = start as u128 * n as u128 + c as u128 * width as u128;
            let x1: u128 = x0 + width as u128;
            let from: u128 = x0 / per;
            if from >= len as u128 {
                out.push((0, 0));
            } else {
                let up: u128 = x1 / per + if x1 % per == 0 {
                    0
                } else {
                    1
                };
                let to: u128 = if up > from + 1 {
                    up
                } else {
                    from + 1
                };
                let to: usize = if to < len as u128 {
                    to as usize
                } else {
                    len
                };
                assert(to == column_to(start as int, width as int, n as int, bucket as int, c as int, len as int));
                out.push(range_extent(data, from as usize, to));
            }
            c += 1;
        }
        out
    }
}

/// Streaming builder fed with interleaved frames during the scan pass.
pub struct AnalysisBuilder {
    channels: usize,
    bucket: (i16, i16),
    in_bucket: u64,
    level0: Vec<(i16, i16)>,
    /// All samples of whole frames so far.
    seen: Ghost<Seq<i16>>,
}

impl AnalysisBuilder {
    /// All samples of whole frames so far.
    pub closed spec fn samples(&self) -> Seq<i16> {
        self.seen@
    }

    /// The number of channels.
    pub closed spec fn channel_count(&self) -> int {
        self.channels as int
    }

    /// Samples per bucket.
    spec fn width(&self) -> int {
        self.channels * BASE_BUCKET
    }

    /// The buckets so far are those of the samples so far.
    pub closed spec fn wf(&self) -> bool {
        let done = self.level0@.len() * self.width();
        &&& 0 < self.channels <= 0xffff
        &&& self.in_bucket < BASE_BUCKET
        &&& self.seen@.len() == done + self.in_bucket * self.channels
        &&& self.bucket == extent(self.seen@.skip(done))
        &&& forall|i: int| #![trigger self.level0@[i]]
            0 <= i < self.level0@.len() ==> self.level0@[i] == extent(
                self.seen@.subrange(i * self.width(), (i + 1) * self.width()),
            )
    }

    /// Start with nothing; no channels count as one.
    pub fn new(channels: u16) -> (r: AnalysisBuilder)
        ensures
            r.wf(),
            r.samples().len() == 0,
            r.channel_count() == if channels == 0 {
                1
            } else {
                channels as int
            },
    {
        let channels: usize = if channels == 0 {
            1
        } else {
            channels as usize
        };
        let r = AnalysisBuilder {
            channels,
            bucket: (i16::MAX, i16::MIN),
            in_bucket: 0,
            level0: Vec::new(),
            seen: Ghost(Seq::empty()),
        };
        assert(r.seen@.skip(0) =~= Seq::<i16>::empty());
        r
    }

    /// Add the whole frames of `interleaved`.
    pub fn push(&mut self, interleaved: &[i16])
        requires
            old(self).wf(),
        ensures
            final(self).wf(),
            final(self).channel_count() == old(self).channel_count(),
            ({
                let ch = old(self).channel_count();
                let n = interleaved@.len() as int / ch * ch;
                final(self).samples() == old(self).samples() + interleaved@.take(n)
            }),
    {
        let len: usize = interleaved.len();
        let ch: usize = self.channels;
        let ghost before = self.seen@;
        let mut at: usize = 0;
        let mut left: usize = len / ch;
        let ghost n = (len / ch) as int;
        proof {
            assert(n * ch <= len) by (nonlinear_arith)
                requires
                    n == len as int / ch as int,
                    ch > 0,
            ;
            assert(0 == (n - left) * ch) by (nonlinear_arith)
                requires
                    n == left,
            ;
            assert(before + interleaved@.take(0) =~= self.seen@);
        }
        while left > 0
            invariant
                self.wf(),
                ch == self.channels,
                self.channels == old(self).channels,
                len == interleaved@.len(),
                n * ch <= len,
                0 <= left <= n,
                at == (n - left) * ch,
                self.seen@ == before + interleaved@.take(at as int),
            decreases left,
        {
            proof {
                let (l, c) = (left as int, ch as int);
                assert((n - l) * c + c == (n - (l - 1)) * c && (n - (l - 1)) * c <= n * c) by (nonlinear_arith)
                    requires
                        1 <= l <= n,
                        c > 0,
                ;
            }
            let ghost start = *self;
            self.push_frame(interleaved, at);
            assert(self.seen@ =~= before + interleaved@.take(at + ch));
            at = at + ch;
            left = left - 1;
        }
        proof {
            assert(at == n * ch) by (nonlinear_arith)
                requires
                    at == (n - left) * ch,
                    left == 0,
            ;
        }
    }

    fn push_frame(&mut self, s: &[i16], at: usize)
        requires
            old(self).wf(),
            at + old(self).channels <= s@.len(),
        ensures
            final(self).wf(),
            final(self).channels == old(self).channels,
            final(self).seen@ == old(self).seen@ + s@.subrange(at as int, at + old(self).channels),
    {
        let ch: usize = self.channels;
        let n: usize = s.len();
        let ghost was = *self;
        let ghost done = self.level0@.len() * self.width();
        let ghost tail = self.seen@.skip(done);
        let ghost frame = s@.subrange(at as int, at + ch);
        let mut e = self.bucket;
        let mut i: usize = 0;
        proof {
            assert(0 <= self.in_bucket * ch) by (nonlinear_arith)
                requires
                    0 <= self.in_bucket,
                    0 <= ch,
            ;
            assert(0 <= done) by (nonlinear_arith)
                requires
                    done == self.level0@.len() * self.width(),
                    self.width() >= 0,
                    self.level0@.len() >= 0,
            ;
            assert(tail + frame.take(0) =~= tail);
        }
        while i < ch
            invariant
                i <= ch,
                at + ch <= n == s@.len(),
                frame == s@.subrange(at as int, at + ch),
                e == extent(tail + frame.take(i as int)),
            decreases ch - i,
        {
            let x = s[at + i];
            assert((tail + frame.take(i + 1)).drop_last() =~= tail + frame.take(i as int));
            e = joined(e, (x, x));
            i += 1;
        }
        assert(frame.take(ch as int) =~= frame);
        let ghost seen2 = was.seen@ + frame;
        assert(seen2.skip(done) =~= tail + frame);
        proof {
            self.seen@ = seen2;
            assert forall|k: int| #![trigger was.level0@[k]] 0 <= k < was.level0@.len() implies was.level0@[k] == extent(
                seen2.subrange(k * was.width(), (k + 1) * was.width()),
            ) by {
                let (w, m) = (was.width(), was.level0@.len() as int);
                assert(0 <= k * w && (k + 1) * w <= m * w && k * w <= (k + 1) * w) by (nonlinear_arith)
                    requires
                        0 <= k < m,
                        w >= 0,
                ;
                assert(seen2.subrange(k * w, (k + 1) * w) =~= was.seen@.subrange(k * w, (k + 1) * w));
            }
            let (b, c) = (was.in_bucket as int, ch as int);
            assert((b + 1) * c == b * c + c) by (nonlinear_arith);
        }
        self.in_bucket = self.in_bucket + 1;
        if self.in_bucket == BASE_BUCKET {
            let ghost m = was.level0@.len() as int;
            self.level0.push(e);
            self.bucket = (i16::MAX, i16::MIN);
            self.in_bucket = 0;
            proof {
                let w = self.width();
                assert((m + 1) * w == m * w + w) by (nonlinear_arith);
                assert(w == BASE_BUCKET * ch) by (nonlinear_arith)
                    requires
                        w == ch * BASE_BUCKET,
                ;
                assert(seen2.subrange(m * w, (m + 1) * w) =~= seen2.skip(done));
                assert(seen2.skip((m + 1) * w) =~= Seq::<i16>::empty());
                assert(self.in_bucket * self.channels == 0) by (nonlinear_arith)
                    requires
                        self.in_bucket == 0,
                ;
            }
        } else {
            self.bucket = e;
        }
    }

    /// All levels: the buckets of all samples, and each level four times coarser than the one
    /// before.
    pub fn finish(self) -> (r: Peaks)
        requires
            self.wf(),
        ensures
            r.levels@.len() == LEVELS,
            r.levels@[0]@ == buckets(self.samples(), self.channel_count() * BASE_BUCKET),
            forall|l: int| #![trigger r.levels@[l]]
                0 < l < LEVELS ==> r.levels@[l]@ == coarser(r.levels@[l - 1]@),
    {
        let ghost s = self.seen@;
        let ghost w = self.width();
        let ghost m = self.level0@.len() as int;
        let ghost was = self;
        let mut level0 = self.level0;
        proof {
            let (b, c) = (self.in_bucket as int, self.channels as int);
            assert(w == c * 256);
            assert(0 <= m * w) by (nonlinear_arith)
                requires
                    0 <= m,
                    0 < w,
            ;
            assert(0 <= b * c < w && (b > 0 <==> b * c > 0)) by (nonlinear_arith)
                requires
                    0 <= b < 256,
                    0 < c,
                    w == c * 256,
            ;
            lemma_chunks(s.len() as int, w, m, b * c);
        }
        if self.in_bucket > 0 {
            level0.push(self.bucket);
        }
        proof {
            assert(s.skip(m * w) =~= s.subrange(m * w, s.len() as int));
            assert(was.bucket == extent(s.skip(m * w)));
            let all = buckets(s, w);
            assert forall|i: int| 0 <= i < m implies level0@[i] == all[i] by {
                assert(was.level0@[i] == extent(s.subrange(i * w, (i + 1) * w)));
                assert((i + 1) * w <= m * w) by (nonlinear_arith)
                    requires
                        0 <= i < m,
                        0 < w,
                ;
                assert(chunk_end(s.len() as int, w, i) == (i + 1) * w);
            }
            assert(all.len() == level0@.len());
            if was.in_bucket > 0 {
                assert(level0@[m] == was.bucket);
                assert(chunk_end(s.len() as int, w, m) == s.len());
                assert(all[m] == extent(s.subrange(m * w, chunk_end(s.len() as int, w, m))));
            }
            assert(level0@ =~= all);
        }
        let mut levels: Vec<Vec<(i16, i16)>> = Vec::new();
        levels.push(level0);
        let mut l: usize = 1;
        while l < LEVELS
            invariant
                1 <= l <= LEVELS,
                levels@.len() == l,
                levels@[0]@ == buckets(s, w),
                forall|k: int| #![trigger levels@[k]] 0 < k < l ==> levels@[k]@ == coarser(levels@[k - 1]@),
            decreases LEVELS - l,
        {
            let next = next_level(&levels[l - 1]);
            levels.push(next);
            l += 1;
        }
        Peaks { levels }
    }
}

proof fn lemma_chunks(n: int, w: int, m: int, rest: int)
    requires
        0 < w,
        0 <= m,
        0 <= rest < w,
        n == m * w + rest,
    ensures
        chunk_count(n, w) == if rest > 0 {
            m + 1
        } else {
            m
        },
        rest > 0 ==> chunk_end(n, w, m) == n,
{
    let q = (n + w - 1) / w;
    let k = if rest > 0 { m + 1 } else { m };
    assert(q == k) by (nonlinear_arith)
        requires
            q == (m * w + rest + w - 1) / w,
            0 < w,
            0 <= rest < w,
            k == if rest > 0 { m + 1 } else { m },
    ;
    assert((m + 1) * w == m * w + w) by (nonlinear_arith);
}

/// The extent of two stretches of samples together is the join of their extents: so a bucket
/// of any level shows exactly the least and greatest sample of the frames it stands for.
pub proof fn law_extents_join(a: Seq<i16>, b: Seq<i16>)
    ensures
        extent(a + b) == join(extent(a), extent(b)),
    decreases b.len(),
{
    if b.len() == 0 {
        assert(a + b =~= a);
    } else {
        law_extents_join(a, b.drop_last());
        assert((a + b).drop_last() =~= a + b.drop_last());
    }
}

/// No sample lies outside the extent.
pub proof fn law_extent_bounds_samples(s: Seq<i16>, i: int)
    requires
        0 <= i < s.len(),
    ensures
        extent(s).0 <= s[i] <= extent(s).1,
    decreases s.len(),
{
    if i < s.len() - 1 {
        law_extent_bounds_samples(s.drop_last(), i);
    }
}

} // verus!

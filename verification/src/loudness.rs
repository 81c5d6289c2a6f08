//! EBU R128 / ITU-R BS.1770 integrated loudness and true peak of arbitrary ranges, from
//! per-block measurements taken once per recording, and the gains that follow from them.
//!
//! The analysis stores, every `hop` samples (100 ms), the mean-square energy of the K-weighted
//! 400 ms block ending there, and the true peak within the hop. Integrated loudness of a range
//! is the standard two-stage gated mean over the blocks that lie entirely inside it, so track
//! numbers stay instant however the splits move.
//!
//! Energies are in units of 10^-15, linear peaks in units of 10^-9; loudness and levels are in
//! millionths of a unit (LUFS, dB).
use vstd::prelude::*;
use crate::export::{Normalize, CEILING};

verus! {

/// The energy at the absolute gate of -70 LUFS, in units of 10^-15: 10^((-70 + 0.691) / 10).
pub const ABSOLUTE_GATE: u64 = 117_246_530;

/// Hops per 400 ms block.
pub const BLOCK_HOPS: u64 = 4;

/// ReplayGain 2.0 reference level.
pub const REPLAYGAIN_REFERENCE: i64 = -18_000_000;

/// The loudness and peak of a range.
#[derive(Clone, Copy, Debug, PartialEq, Eq)]
pub struct Loudness {
    /// Integrated loudness; `None` if the range is silent or shorter than 400 ms.
    pub lufs: Option<i32>,
    /// True peak level.
    pub peak: i32,
}

/// The blocks that pass a gate: how many there are, and their energies added up.
#[derive(Clone, Copy, Debug, PartialEq, Eq, Structural)]
pub struct Mean {
    pub sum: u128,
    pub count: u64,
}

/// The energies above `gate`, added up.
pub open spec fn gated_sum(blocks: Seq<u64>, gate: int) -> int
    decreases blocks.len(),
{
    if blocks.len() == 0 {
        0
    } else {
        gated_sum(blocks.drop_last(), gate) + if blocks.last() > gate {
            blocks.last() as int
        } else {
            0
        }
    }
}

/// How many energies are above `gate`.
pub open spec fn gated_count(blocks: Seq<u64>, gate: int) -> int
    decreases blocks.len(),
{
    if blocks.len() == 0 {
        0
    } else {
        gated_count(blocks.drop_last(), gate) + if blocks.last() > gate {
            1int
        } else {
            0
        }
    }
}

/// The second gate: a tenth of the mean above the first (10 LU below it), but not less than
/// the first.
pub open spec fn relative_gate(blocks: Seq<u64>) -> int {
    let g = gated_sum(blocks, ABSOLUTE_GATE as int) / (gated_count(blocks, ABSOLUTE_GATE as int) * 10);
    if g < ABSOLUTE_GATE {
        ABSOLUTE_GATE as int
    } else {
        g
    }
}

/// The two-stage gated mean: nothing if no block passes the first gate.
pub open spec fn gated_mean(blocks: Seq<u64>) -> Option<(int, int)> {
    if gated_count(blocks, ABSOLUTE_GATE as int) == 0 {
        None
    } else {
        let gate = relative_gate(blocks);
        Some((gated_sum(blocks, gate), gated_count(blocks, gate)))
    }
}

/// Sums and counts stay in bounds.
proof fn lemma_gated(blocks: Seq<u64>, gate: int)
    requires
        gate >= 0,
    ensures
        0 <= gated_count(blocks, gate) <= blocks.len(),
        0 <= gated_sum(blocks, gate) <= gated_count(blocks, gate) * u64::MAX,
        gate * gated_count(blocks, gate) <= gated_sum(blocks, gate),
    decreases blocks.len(),
{
    if blocks.len() > 0 {
        lemma_gated(blocks.drop_last(), gate);
        let c = gated_count(blocks.drop_last(), gate);
        assert((c + 1) * u64::MAX == c * u64::MAX + u64::MAX) by (nonlinear_arith);
        assert(gate * (c + 1) == gate * c + gate) by (nonlinear_arith);
    }
}

/// With a mean there is always a block at least as loud as it, so the second gate lets some
/// through: a range with any sound has a loudness.
pub proof fn law_sound_has_a_loudness(blocks: Seq<u64>)
    ensures
        gated_mean(blocks) is Some <==> exists|i: int| 0 <= i < blocks.len() && (#[trigger] blocks[i]) > ABSOLUTE_GATE,
        gated_mean(blocks) matches Some((sum, n)) ==> n > 0 && sum > 0,
{
    let g = ABSOLUTE_GATE as int;
    lemma_counted(blocks, g);
    if gated_count(blocks, g) > 0 {
        let n = gated_count(blocks, g);
        let s = gated_sum(blocks, g);
        lemma_gated(blocks, g);
        let rel = s / (n * 10);
        assert(0 < s) by (nonlinear_arith)
            requires
                g * n <= s,
                g > 0,
                n > 0,
        ;
        lemma_some_above_mean(blocks, g, s, n);
        let i = choose|i: int| 0 <= i < blocks.len() && (#[trigger] blocks[i]) > g && blocks[i] * n >= s;
        assert(blocks[i] > rel) by (nonlinear_arith)
            requires
                blocks[i] * n >= s,
                s > 0,
                n > 0,
                rel == s / (n * 10),
        ;
        let gate = relative_gate(blocks);
        lemma_counted(blocks, gate);
        lemma_gated(blocks, gate);
        assert(gated_count(blocks, gate) > 0);
        let c = gated_count(blocks, gate);
        assert(0 < gated_sum(blocks, gate)) by (nonlinear_arith)
            requires
                gate * c <= gated_sum(blocks, gate),
                gate > 0,
                c > 0,
        ;
    }
}

proof fn lemma_counted(blocks: Seq<u64>, gate: int)
    ensures
        gated_count(blocks, gate) > 0 <==> exists|i: int| 0 <= i < blocks.len() && (#[trigger] blocks[i]) > gate,
        gated_count(blocks, gate) >= 0,
    decreases blocks.len(),
{
    if blocks.len() > 0 {
        let t = blocks.drop_last();
        lemma_counted(t, gate);
        if gated_count(t, gate) > 0 {
            let i = choose|i: int| 0 <= i < t.len() && (#[trigger] t[i]) > gate;
            assert(blocks[i] > gate);
        }
        if blocks.last() > gate {
            assert(blocks[blocks.len() - 1] > gate);
        }
        if exists|i: int| 0 <= i < blocks.len() && (#[trigger] blocks[i]) > gate {
            let i = choose|i: int| 0 <= i < blocks.len() && (#[trigger] blocks[i]) > gate;
            if i < t.len() {
                assert(t[i] > gate);
            }
        }
    }
}

proof fn lemma_some_above_mean(blocks: Seq<u64>, gate: int, s: int, n: int)
    requires
        n > 0,
        gated_count(blocks, gate) > 0,
        gated_sum(blocks, gate) * n >= s * gated_count(blocks, gate),
    ensures
        exists|i: int| 0 <= i < blocks.len() && (#[trigger] blocks[i]) > gate && blocks[i] * n >= s,
    decreases blocks.len(),
{
    let t = blocks.drop_last();
    let x = blocks.last() as int;
    lemma_counted(t, gate);
    let (a, c) = (gated_sum(t, gate), gated_count(t, gate));
    if x > gate {
        if x * n >= s {
            assert(blocks[blocks.len() - 1] == x);
        } else {
            assert((a + x) * n == a * n + x * n) by (nonlinear_arith);
            assert(s * (c + 1) == s * c + s) by (nonlinear_arith);
            assert(a * n >= s * c);
            if c == 0 {
                lemma_no_sum(t, gate);
                assert(a * n == 0 && s * c == 0) by (nonlinear_arith)
                    requires
                        a == 0,
                        c == 0,
                ;
            }
            lemma_some_above_mean(t, gate, s, n);
            let i = choose|i: int| 0 <= i < t.len() && (#[trigger] t[i]) > gate && t[i] * n >= s;
            assert(blocks[i] == t[i]);
        }
    } else {
        lemma_some_above_mean(t, gate, s, n);
        let i = choose|i: int| 0 <= i < t.len() && (#[trigger] t[i]) > gate && t[i] * n >= s;
        assert(blocks[i] == t[i]);
    }
}

proof fn lemma_no_sum(blocks: Seq<u64>, gate: int)
    requires
        gated_count(blocks, gate) == 0,
    ensures
        gated_sum(blocks, gate) == 0,
    decreases blocks.len(),
{
    if blocks.len() > 0 {
        lemma_counted(blocks.drop_last(), gate);
        lemma_no_sum(blocks.drop_last(), gate);
    }
}

fn pass_gate(blocks: &Vec<u64>, gate: u128) -> (r: Mean)
    ensures
        r.sum == gated_sum(blocks@, gate as int),
        r.count == gated_count(blocks@, gate as int),
{
    let len: usize = blocks.len();
    let mut sum: u128 = 0;
    let mut count: u64 = 0;
    let mut i: usize = 0;
    while i < len
        invariant
            len == blocks@.len(),
            i <= len,
            sum == gated_sum(blocks@.take(i as int), gate as int),
            count == gated_count(blocks@.take(i as int), gate as int),
        decreases len - i,
    {
        proof {
            assert(blocks@.take(i + 1).drop_last() =~= blocks@.take(i as int));
            lemma_gated(blocks@.take(i as int), gate as int);
            let c = count as int;
            assert(c * u64::MAX <= 0xffff_ffff_ffff_ffff * 0xffff_ffff_ffff_ffff) by (nonlinear_arith)
                requires
                    0 <= c <= 0xffff_ffff_ffff_ffff,
            ;
        }
        let e = blocks[i];
        if e as u128 > gate {
            sum = sum + e as u128;
            count = count + 1;
        }
        i += 1;
    }
    assert(blocks@.take(i as int) =~= blocks@);
    Mean { sum, count }
}

/// Two-stage gated mean over block energies.
pub fn integrated(blocks: &Vec<u64>) -> (r: Option<Mean>)
    ensures
        match r {
            Some(m) => gated_mean(blocks@) == Some((m.sum as int, m.count as int)) && m.count > 0,
            None => gated_mean(blocks@) is None,
        },
{
    let first = pass_gate(blocks, ABSOLUTE_GATE as u128);
    if first.count == 0 {
        return None;
    }
    let g: u128 = first.sum / (first.count as u128 * 10);
    let gate: u128 = if g < ABSOLUTE_GATE as u128 {
        ABSOLUTE_GATE as u128
    } else {
        g
    };
    let second = pass_gate(blocks, gate);
    proof {
        law_sound_has_a_loudness(blocks@);
    }
    Some(second)
}

/// Block measurements for one recording.
#[derive(Clone, Debug, PartialEq, Eq)]
pub struct LoudnessMap {
    /// Samples per hop (100 ms).
    pub hop: u64,
    /// `block_energy[i]`: K-weighted mean square of the 400 ms block ending at the end of hop `i`.
    pub block_energy: Vec<u64>,
    /// `peak[i]`: true peak (linear, max over channels) within hop `i`.
    pub peak: Vec<u64>,
}

impl Default for LoudnessMap {
    fn default() -> (r: LoudnessMap)
        ensures
            r.hop == 0,
            r.block_energy@.len() == 0,
            r.peak@.len() == 0,
    {
        LoudnessMap { hop: 0, block_energy: Vec::new(), peak: Vec::new() }
    }
}

/// What is measured over some ranges: the gated mean energy and the greatest peak.
#[derive(Clone, Copy, Debug, PartialEq, Eq)]
pub struct Measured {
    pub mean: Option<Mean>,
    pub peak: u64,
}

/// The smaller of two numbers.
pub open spec fn min2(a: int, b: int) -> int {
    if a < b {
        a
    } else {
        b
    }
}

/// `a / b` rounded up.
pub open spec fn up(a: int, b: int) -> int {
    (a + b - 1) / b
}

/// The greatest of all values, at least zero.
pub open spec fn greatest_of(s: Seq<u64>) -> u64
    decreases s.len(),
{
    if s.len() == 0 {
        0
    } else if s.last() > greatest_of(s.drop_last()) {
        s.last()
    } else {
        greatest_of(s.drop_last())
    }
}

impl LoudnessMap {
    /// One past the last block inside a range that ends at `b`.
    pub open spec fn block_end(&self, b: int) -> int {
        min2(b / self.hop as int, self.block_energy@.len() as int)
    }

    /// The first block inside a range that starts at `a`: three hops after the first whole hop.
    pub open spec fn block_start(&self, a: int, b: int) -> int {
        min2(up(a, self.hop as int) + BLOCK_HOPS - 1, self.block_end(b))
    }

    /// The blocks lying entirely inside `[a, b)`.
    pub open spec fn inner_blocks(&self, a: int, b: int) -> Seq<u64> {
        self.block_energy@.subrange(self.block_start(a, b), self.block_end(b))
    }

    /// The peaks of the hops that `[a, b)` touches.
    pub open spec fn touched_peaks(&self, a: int, b: int) -> Seq<u64> {
        let from = a / self.hop as int;
        let to = min2(up(b, self.hop as int), self.peak@.len() as int);
        if from <= to {
            self.peak@.subrange(from, to)
        } else {
            Seq::empty()
        }
    }

    /// The blocks inside any of the ranges, one range after the other.
    pub open spec fn all_blocks(&self, ranges: Seq<(u64, u64)>) -> Seq<u64>
        decreases ranges.len(),
    {
        if ranges.len() == 0 {
            Seq::empty()
        } else {
            self.all_blocks(ranges.drop_last()) + self.inner_blocks(ranges.last().0 as int, ranges.last().1 as int)
        }
    }

    /// The greatest peak in any of the ranges.
    pub open spec fn all_peaks(&self, ranges: Seq<(u64, u64)>) -> u64
        decreases ranges.len(),
    {
        if ranges.len() == 0 {
            0
        } else {
            let before = self.all_peaks(ranges.drop_last());
            let own = greatest_of(self.touched_peaks(ranges.last().0 as int, ranges.last().1 as int));
            if own > before {
                own
            } else {
                before
            }
        }
    }

    /// Indices of the blocks lying entirely inside `[a, b)`.
    pub fn blocks_in(&self, a: u64, b: u64) -> (r: (usize, usize))
        requires
            self.hop > 0,
        ensures
            r.0 == self.block_start(a as int, b as int),
            r.1 == self.block_end(b as int),
            r.0 <= r.1 <= self.block_energy@.len(),
    {
        let len: usize = self.block_energy.len();
        let hop: u128 = self.hop as u128;
        let first: u128 = (a as u128 + (hop - 1)) / hop + (BLOCK_HOPS as u128 - 1);
        let q: u64 = b / self.hop;
        let end: usize = if q < len as u64 {
            q as usize
        } else {
            len
        };
        let start: usize = if first < end as u128 {
            first as usize
        } else {
            end
        };
        (start, end)
    }

    /// The greatest linear peak in the hops that `[a, b)` touches.
    pub fn peak_in(&self, a: u64, b: u64) -> (r: u64)
        requires
            self.hop > 0,
        ensures
            r == greatest_of(self.touched_peaks(a as int, b as int)),
    {
        let len: usize = self.peak.len();
        let hop: u128 = self.hop as u128;
        let from: u64 = a / self.hop;
        let end: u128 = (b as u128 + (hop - 1)) / hop;
        let to: usize = if end < len as u128 {
            end as usize
        } else {
            len
        };
        if from > to as u64 {
            return 0;
        }
        let mut best: u64 = 0;
        let mut i: usize = from as usize;
        let ghost part = self.touched_peaks(a as int, b as int);
        assert(part.take(0).len() == 0);
        while i < to
            invariant
                from <= i <= to <= self.peak@.len(),
                part == self.peak@.subrange(from as int, to as int),
                best == greatest_of(part.take(i - from)),
            decreases to - i,
        {
            assert(part.take(i - from + 1).drop_last() =~= part.take(i - from));
            if self.peak[i] > best {
                best = self.peak[i];
            }
            i += 1;
        }
        assert(part.take(i - from) =~= part);
        best
    }

    /// One range alone.
    pub fn range(&self, a: u64, b: u64) -> (r: Measured)
        ensures
            self.hop == 0 ==> r.mean is None && r.peak == 0,
            self.hop > 0 ==> self.is_measured(seq![(a, b)], r),
    {
        let one = vec![(a, b)];
        assert(one@ =~= seq![(a, b)]);
        self.ranges(&one)
    }

    /// `r` is what the blocks and peaks in the ranges give.
    pub open spec fn is_measured(&self, ranges: Seq<(u64, u64)>, r: Measured) -> bool {
        &&& match r.mean {
            Some(m) => gated_mean(self.all_blocks(ranges)) == Some((m.sum as int, m.count as int)) && m.count > 0,
            None => gated_mean(self.all_blocks(ranges)) is None,
        }
        &&& r.peak == self.all_peaks(ranges)
    }

    /// Several ranges taken together (e.g. an album of kept tracks).
    pub fn ranges(&self, ranges: &[(u64, u64)]) -> (r: Measured)
        ensures
            self.hop == 0 ==> r.mean is None && r.peak == 0,
            self.hop > 0 ==> self.is_measured(ranges@, r),
    {
        if self.hop == 0 {
            return Measured { mean: None, peak: 0 };
        }
        let mut blocks: Vec<u64> = Vec::new();
        let mut peak: u64 = 0;
        let mut i: usize = 0;
        assert(blocks@ =~= self.all_blocks(ranges@.take(0)));
        while i < ranges.len()
            invariant
                self.hop > 0,
                i <= ranges@.len(),
                blocks@ == self.all_blocks(ranges@.take(i as int)),
                peak == self.all_peaks(ranges@.take(i as int)),
            decreases ranges@.len() - i,
        {
            let (a, b) = ranges[i];
            assert(ranges@.take(i + 1).drop_last() =~= ranges@.take(i as int));
            assert(ranges@.take(i + 1).last() == (a, b));
            let (from, to) = self.blocks_in(a, b);
            let ghost before = blocks@;
            let ghost part = self.inner_blocks(a as int, b as int);
            let mut k: usize = from;
            assert(before + part.take(0) =~= before);
            while k < to
                invariant
                    from <= k <= to <= self.block_energy@.len(),
                    part == self.block_energy@.subrange(from as int, to as int),
                    blocks@ == before + part.take(k - from),
                decreases to - k,
            {
                blocks.push(self.block_energy[k]);
                assert(blocks@ =~= before + part.take(k - from + 1));
                k += 1;
            }
            assert(part.take(k - from) =~= part);
            let own = self.peak_in(a, b);
            if own > peak {
                peak = own;
            }
            i += 1;
        }
        assert(ranges@.take(i as int) =~= ranges@);
        Measured { mean: integrated(&blocks), peak }
    }
}

/// The gain that brings `l` to `target` without the true peak going over `ceiling`.
pub open spec fn gain_for(l: Loudness, target: i32, ceiling: i32) -> int {
    match l.lufs {
        Some(lufs) => min2(target - lufs, ceiling - l.peak),
        None => 0,
    }
}

/// Gain that brings `l` to `target` without the true peak going over `ceiling`.
pub fn normalize_gain(l: &Loudness, target: i32, ceiling: i32) -> (r: i64)
    ensures
        r == gain_for(*l, target, ceiling),
{
    match l.lufs {
        Some(lufs) => {
            let a: i64 = target as i64 - lufs as i64;
            let b: i64 = ceiling as i64 - l.peak as i64;
            if a < b {
                a
            } else {
                b
            }
        },
        None => 0,
    }
}

/// Normalization never pushes the true peak above the ceiling, nor the loudness above the
/// target, and reaches one of the two.
pub proof fn law_gain_respects_the_ceiling(l: Loudness, target: i32, ceiling: i32)
    requires
        l.lufs is Some,
    ensures
        l.peak + gain_for(l, target, ceiling) <= ceiling,
        l.lufs->0 + gain_for(l, target, ceiling) <= target,
        l.peak + gain_for(l, target, ceiling) == ceiling || l.lufs->0 + gain_for(l, target, ceiling) == target,
{
}

/// What a track is written with: its gain, and the levels its tags describe.
#[derive(Clone, Copy, Debug, PartialEq, Eq)]
pub struct JobGain {
    /// Level change, applied only when re-encoding.
    pub gain: i64,
    /// ReplayGain and peak level of the audio as written.
    pub track: Option<Level>,
    /// The same for the whole set of exported tracks.
    pub album: Option<Level>,
}

/// A ReplayGain value and a peak level.
#[derive(Clone, Copy, Debug, PartialEq, Eq, Structural)]
pub struct Level {
    pub gain: i64,
    pub peak: i64,
}

/// The gain that goes with a choice of normalization; none for a copy, which can't change level.
pub open spec fn job_gain(track: Loudness, album: Loudness, normalize: Normalize, reencode: bool) -> int {
    if !reencode {
        0
    } else {
        match normalize {
            Normalize::Off => 0,
            Normalize::Album { target } => gain_for(album, target, CEILING),
            Normalize::Track { target } => gain_for(track, target, CEILING),
        }
    }
}

/// The levels of audio after a gain.
pub open spec fn level_after(l: Loudness, gain: int) -> Option<Level> {
    match l.lufs {
        Some(lufs) => Some(
            Level { gain: (REPLAYGAIN_REFERENCE - (lufs + gain)) as i64, peak: (l.peak + gain) as i64 },
        ),
        None => None,
    }
}

/// What a track is written with. With per-track gains the album figures no longer describe one
/// consistent level, so they are left out.
pub open spec fn is_job_gain(
    j: JobGain,
    track: Loudness,
    album: Loudness,
    normalize: Normalize,
    reencode: bool,
) -> bool {
    let g = job_gain(track, album, normalize, reencode);
    &&& j.gain == g
    &&& j.track == level_after(track, g)
    &&& j.album == if track.lufs is None || normalize is Track {
        None
    } else {
        level_after(album, g)
    }
}

fn written_level(l: &Loudness, gain: i64) -> (r: Option<Level>)
    requires
        -0x2_0000_0000 <= gain <= 0x2_0000_0000,
    ensures
        r == level_after(*l, gain as int),
{
    match l.lufs {
        Some(lufs) => Some(Level { gain: REPLAYGAIN_REFERENCE - (lufs as i64 + gain), peak: l.peak as i64 + gain }),
        None => None,
    }
}

/// Each track's normalization gain (only when `reencode`) and the ReplayGain levels describing
/// the audio as written, i.e. after that gain.
pub fn apply_to_jobs(tracks: &[Loudness], album: &Loudness, normalize: Normalize, reencode: bool) -> (r: Vec<JobGain>)
    ensures
        r@.len() == tracks@.len(),
        forall|i: int| 0 <= i < r@.len() ==> is_job_gain(#[trigger] r@[i], tracks@[i], *album, normalize, reencode),
        normalize is Off || !reencode ==> forall|i: int| 0 <= i < r@.len() ==> (#[trigger] r@[i]).gain == 0,
{
    let mut out: Vec<JobGain> = Vec::new();
    let mut i: usize = 0;
    while i < tracks.len()
        invariant
            i <= tracks@.len(),
            out@.len() == i,
            forall|k: int| 0 <= k < i ==> is_job_gain(#[trigger] out@[k], tracks@[k], *album, normalize, reencode),
            normalize is Off || !reencode ==> forall|k: int| 0 <= k < i ==> (#[trigger] out@[k]).gain == 0,
        decreases tracks@.len() - i,
    {
        let track = tracks[i];
        let gain: i64 = if !reencode {
            0
        } else {
            match normalize {
                Normalize::Off => 0,
                Normalize::Album { target } => normalize_gain(album, target, CEILING),
                Normalize::Track { target } => normalize_gain(&track, target, CEILING),
            }
        };
        let per_track = match normalize {
            Normalize::Track { .. } => true,
            _ => false,
        };
        let whole = if track.lufs.is_none() || per_track {
            None
        } else {
            written_level(album, gain)
        };
        out.push(JobGain { gain, track: written_level(&track, gain), album: whole });
        i += 1;
    }
    out
}

/// Whatever the choice, normalization never pushes the true peak of a track above the ceiling:
/// a per-track gain does not, and neither does the gain of an album whose peak is no lower than
/// the track's. What is below the ceiling as it is stays below it, and where a loudness can be
/// measured what is written ends up below it in any case.
pub proof fn law_written_peaks_stay_below(track: Loudness, album: Loudness, normalize: Normalize, reencode: bool)
    requires
        normalize is Album ==> track.peak <= album.peak,
    ensures
        ({
            let g = job_gain(track, album, normalize, reencode);
            &&& g <= 0 || track.peak + g <= CEILING
            &&& track.peak <= CEILING ==> track.peak + g <= CEILING
            &&& reencode && (normalize is Track && track.lufs is Some || normalize is Album && album.lufs is Some)
                ==> track.peak + g <= CEILING
        }),
{
}

/// The gain brings `l` to the target, or as near to it from below as a true peak of -1 dB allows.
/// What has no loudness stays as it is.
pub open spec fn brings_to(gain: int, l: Loudness, target: int) -> bool {
    match l.lufs {
        Some(lufs) => {
            &&& lufs + gain <= target
            &&& l.peak + gain <= -1_000_000
            &&& lufs + gain == target || l.peak + gain == -1_000_000
        },
        None => gain == 0,
    }
}

/// The tag tells how far the audio is from -18 LUFS once the gain is in it, and its peak then.
pub open spec fn describes(level: Option<Level>, l: Loudness, gain: int) -> bool {
    match (level, l.lufs) {
        (Some(x), Some(lufs)) => x.gain + lufs + gain == -18_000_000 && x.peak == l.peak + gain,
        (None, None) => true,
        _ => false,
    }
}

/// The level of a track changes only where that was asked for and it is encoded anew. Without
/// normalization, and in a copy, every gain is nothing whatever was measured; per track it goes by
/// the track's own loudness, per album by the album's, so all tracks get the same. The tags
/// describe what is written; those of the album are left out where each track has its own gain,
/// and a track without a loudness has none.
pub proof fn law_levels_change_only_as_asked(
    tracks: Seq<Loudness>,
    album: Loudness,
    normalize: Normalize,
    reencode: bool,
    jobs: Seq<JobGain>,
)
    requires
        jobs.len() == tracks.len(),
        forall|i: int| 0 <= i < jobs.len() ==> is_job_gain(#[trigger] jobs[i], tracks[i], album, normalize, reencode),
    ensures
        forall|i: int| #![trigger jobs[i]]
            0 <= i < jobs.len() ==> {
                &&& normalize is Off ==> jobs[i].gain == 0
                &&& !reencode ==> jobs[i].gain == 0
                &&& reencode && normalize is Track ==> brings_to(
                    jobs[i].gain as int,
                    tracks[i],
                    normalize->Track_target as int,
                )
                &&& reencode && normalize is Album ==> brings_to(
                    jobs[i].gain as int,
                    album,
                    normalize->Album_target as int,
                )
                &&& describes(jobs[i].track, tracks[i], jobs[i].gain as int)
                &&& normalize is Track || tracks[i].lufs is None ==> jobs[i].album is None
                &&& normalize !is Track && tracks[i].lufs is Some ==> describes(jobs[i].album, album, jobs[i].gain as int)
            },
        !(normalize is Track) ==> forall|i: int, j: int|
            0 <= i < jobs.len() && 0 <= j < jobs.len() ==> (#[trigger] jobs[i]).gain == (#[trigger] jobs[j]).gain,
{
    assert forall|i: int| #![trigger jobs[i]] 0 <= i < jobs.len() implies {
        &&& describes(jobs[i].track, tracks[i], jobs[i].gain as int)
        &&& normalize !is Track && tracks[i].lufs is Some ==> describes(jobs[i].album, album, jobs[i].gain as int)
    } by {
        assert(is_job_gain(jobs[i], tracks[i], album, normalize, reencode));
    }
}

/// The blocks that count for a range are those that lie in it from end to end: block `i` takes
/// the four hops up to the end of hop `i`.
pub proof fn law_blocks_lie_inside(map: LoudnessMap, a: u64, b: u64, i: int)
    requires
        map.hop > 0,
        0 <= i < map.block_energy@.len(),
    ensures
        map.inner_blocks(a as int, b as int) == map.block_energy@.subrange(
            map.block_start(a as int, b as int),
            map.block_end(b as int),
        ),
        map.block_start(a as int, b as int) <= i < map.block_end(b as int) <==> a <= (i - 3) * map.hop && (i + 1) * map.hop
            <= b,
{
    let (x, y, h) = (a as int, b as int, map.hop as int);
    assert(i < y / h <==> (i + 1) * h <= y) by (nonlinear_arith)
        requires
            h > 0,
    ;
    assert((x + h - 1) / h + 3 <= i <==> x <= (i - 3) * h) by (nonlinear_arith)
        requires
            h > 0,
    ;
}

/// The peak of some ranges is that of the hops that one of them touches: no such hop peaks higher,
/// and one of them peaks there unless all is silent.
pub proof fn law_peak_is_that_of_the_hops_touched(map: LoudnessMap, ranges: Seq<(u64, u64)>)
    requires
        map.hop > 0,
    ensures
        forall|k: int, i: int| #![trigger ranges[k], map.peak@[i]]
            0 <= k < ranges.len() && 0 <= i < map.peak@.len() && touches(map.hop as int, i, ranges[k]) ==> map.peak@[i]
                <= map.all_peaks(ranges),
        map.all_peaks(ranges) > 0 ==> exists|k: int, i: int| #![trigger ranges[k], map.peak@[i]]
            0 <= k < ranges.len() && 0 <= i < map.peak@.len() && touches(map.hop as int, i, ranges[k]) && map.peak@[i]
                == map.all_peaks(ranges),
    decreases ranges.len(),
{
    if ranges.len() > 0 {
        let less = ranges.drop_last();
        let last = ranges.len() - 1;
        law_peak_is_that_of_the_hops_touched(map, less);
        let r = ranges.last();
        let (a, b, h) = (r.0 as int, r.1 as int, map.hop as int);
        let part = map.touched_peaks(a, b);
        let from = a / h;
        lemma_greatest(part);
        let n = map.peak@.len() as int;
        assert forall|i: int| 0 <= i < n implies (#[trigger] touches(h, i, r) <==> from <= i < up(b, h)) by {
            assert(i * h < b <==> i < (b + h - 1) / h) by (nonlinear_arith)
                requires
                    h > 0,
            ;
            assert((i + 1) * h > a <==> a / h <= i) by (nonlinear_arith)
                requires
                    h > 0,
            ;
        }
        assert(from >= 0) by (nonlinear_arith)
            requires
                from == a / h,
                a >= 0,
                h > 0,
        ;
        assert forall|k: int, i: int| #![trigger ranges[k], map.peak@[i]]
            0 <= k < ranges.len() && 0 <= i < n && touches(h, i, ranges[k]) implies map.peak@[i] <= map.all_peaks(ranges) by {
            if k < last {
                assert(less[k] == ranges[k]);
            } else {
                assert(part[i - from] == map.peak@[i]);
            }
        }
        if map.all_peaks(ranges) > 0 {
            let before = map.all_peaks(less);
            if greatest_of(part) > before {
                let j = choose|j: int| 0 <= j < part.len() && #[trigger] part[j] == greatest_of(part);
                assert(map.peak@[from + j] == part[j]);
                assert(touches(h, from + j, r));
                assert(ranges[last] == r);
            } else {
                let (k, i) = choose|k: int, i: int| #![trigger less[k], map.peak@[i]]
                    0 <= k < less.len() && 0 <= i < n && touches(h, i, less[k]) && map.peak@[i] == before;
                assert(ranges[k] == less[k]);
                assert(map.peak@[i] == before);
            }
        }
    }
}

/// Hop `i` and a range have a sample in common, or the range lies within it.
pub open spec fn touches(hop: int, i: int, range: (u64, u64)) -> bool {
    i * hop < range.1 && (i + 1) * hop > range.0
}

proof fn lemma_greatest(s: Seq<u64>)
    ensures
        forall|i: int| 0 <= i < s.len() ==> #[trigger] s[i] <= greatest_of(s),
        greatest_of(s) > 0 ==> exists|i: int| 0 <= i < s.len() && #[trigger] s[i] == greatest_of(s),
    decreases s.len(),
{
    if s.len() > 0 {
        let t = s.drop_last();
        lemma_greatest(t);
        assert forall|i: int| 0 <= i < s.len() implies #[trigger] s[i] <= greatest_of(s) by {
            if i < t.len() {
                assert(t[i] == s[i]);
            }
        }
        if greatest_of(s) > 0 {
            if s.last() > greatest_of(t) {
                assert(s[s.len() - 1] == greatest_of(s));
            } else {
                let i = choose|i: int| 0 <= i < t.len() && #[trigger] t[i] == greatest_of(t);
                assert(s[i] == t[i]);
            }
        }
    }
}

/// All of the energies added up.
pub open spec fn total(s: Seq<u64>) -> int
    decreases s.len(),
{
    if s.len() == 0 {
        0
    } else {
        total(s.drop_last()) + s.last()
    }
}

/// The two gates: a block counts where it is above -70 LUFS, and less than 10 LU (a tenth) below
/// the mean of all that are. The mean is that of the blocks that count.
pub proof fn law_blocks_count_above_both_gates(blocks: Seq<u64>)
    ensures
        ({
            let loud = blocks.filter(|e: u64| e > 117_246_530);
            let kept = blocks.filter(|e: u64| e > 117_246_530 && e * 10 * loud.len() > total(loud));
            &&& loud.len() == 0 ==> gated_mean(blocks) is None
            &&& loud.len() > 0 ==> gated_mean(blocks) == Some((total(kept), kept.len() as int))
        }),
{
    let loud = blocks.filter(|e: u64| e > 117_246_530);
    let kept = blocks.filter(|e: u64| e > 117_246_530 && e * 10 * loud.len() > total(loud));
    let g = ABSOLUTE_GATE as int;
    lemma_gate_filters(blocks, g, |e: u64| e > 117_246_530);
    if loud.len() > 0 {
        let (s, n) = (total(loud), loud.len() as int);
        let q = s / (n * 10);
        assert forall|e: u64| (e > relative_gate(blocks) <==> (e > 117_246_530 && #[trigger] (e * 10) * loud.len() > s)) by {
            let x = e as int;
            assert(x > q <==> x * 10 * n > s) by (nonlinear_arith)
                requires
                    n > 0,
                    q == s / (n * 10),
            ;
        }
        lemma_gate_filters(
            blocks,
            relative_gate(blocks),
            |e: u64| e > 117_246_530 && e * 10 * loud.len() > total(loud),
        );
    }
}

proof fn lemma_gate_filters(blocks: Seq<u64>, gate: int, p: spec_fn(u64) -> bool)
    requires
        forall|e: u64| #[trigger] p(e) <==> e > gate,
    ensures
        gated_sum(blocks, gate) == total(blocks.filter(p)),
        gated_count(blocks, gate) == blocks.filter(p).len(),
    decreases blocks.len(),
{
    reveal(Seq::filter);
    if blocks.len() > 0 {
        lemma_gate_filters(blocks.drop_last(), gate, p);
        let less = blocks.drop_last().filter(p);
        assert(less.push(blocks.last()).drop_last() =~= less);
    }
}

/// The blocks of several ranges are those of each, one range after the other.
pub proof fn law_ranges_are_pooled(map: LoudnessMap, a: Seq<(u64, u64)>, b: Seq<(u64, u64)>)
    ensures
        map.all_blocks(a + b) == map.all_blocks(a) + map.all_blocks(b),
        forall|r: (u64, u64)| #[trigger] map.all_blocks(seq![r]) == map.inner_blocks(r.0 as int, r.1 as int),
    decreases b.len(),
{
    if b.len() == 0 {
        assert(a + b =~= a);
        assert(map.all_blocks(a) + map.all_blocks(b) =~= map.all_blocks(a));
    } else {
        assert((a + b).drop_last() =~= a + b.drop_last());
        law_ranges_are_pooled(map, a, b.drop_last());
        assert(map.all_blocks(a + b) =~= map.all_blocks(a) + map.all_blocks(b));
    }
    assert forall|r: (u64, u64)| #[trigger] map.all_blocks(seq![r]) == map.inner_blocks(r.0 as int, r.1 as int) by {
        assert(seq![r].drop_last() =~= Seq::empty());
        assert(map.all_blocks(seq![r].drop_last()) =~= Seq::empty());
        assert(map.all_blocks(seq![r]) =~= map.inner_blocks(r.0 as int, r.1 as int));
    }
}

/// No range has a higher peak than all ranges taken together: a track never peaks above its
/// album.
pub proof fn law_album_peaks_are_no_lower(map: LoudnessMap, ranges: Seq<(u64, u64)>, i: int)
    requires
        0 <= i < ranges.len(),
    ensures
        map.all_peaks(seq![ranges[i]]) <= map.all_peaks(ranges),
    decreases ranges.len(),
{
    let one = seq![ranges[i]];
    assert(one.drop_last() =~= Seq::<(u64, u64)>::empty());
    assert(map.all_peaks(one.drop_last()) == 0);
    if i < ranges.len() - 1 {
        law_album_peaks_are_no_lower(map, ranges.drop_last(), i);
    }
}

} // verus!

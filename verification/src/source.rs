//! Seeking and reading decoded audio: which frame to start decoding at, how much to throw away,
//! and audio held in memory.
use vstd::prelude::*;
use crate::mp3index::{IndexError, Mp3Index};

verus! {

/// Timestamps of a track: units of `numer / denom` seconds, at `rate` sample frames a second.
/// An MP4 track's timescale isn't always its sample rate.
#[derive(Clone, Copy, Debug, PartialEq, Eq, Structural)]
pub struct TimeBase {
    pub numer: u32,
    pub denom: u32,
    pub rate: u32,
}

/// What 64 bits hold of a number.
pub open spec fn wrapped(n: int) -> int {
    n % 0x1_0000_0000_0000_0000
}

impl TimeBase {
    /// The units and the rate say something.
    pub open spec fn wf(&self) -> bool {
        self.numer > 0 && self.denom > 0 && self.rate > 0
    }

    /// The timestamp of a frame, rounded down.
    pub open spec fn ts_of(&self, frame: int) -> int {
        frame * self.denom / (self.numer * self.rate)
    }

    /// The frame at a timestamp, rounded down.
    pub open spec fn frame_of(&self, ts: int) -> int {
        ts * (self.numer * self.rate) / self.denom as int
    }

    /// Nothing here is negative, and the products fit into 128 bits.
    proof fn lemma_sizes(&self, x: u64)
        requires
            self.wf(),
        ensures
            0 < self.numer * self.rate <= 0xffff_ffff * 0xffff_ffff,
            0 <= x * self.denom <= 0xffff_ffff_ffff_ffff * 0xffff_ffff,
            0 <= x * self.numer <= 0xffff_ffff_ffff_ffff * 0xffff_ffff,
            0 <= x * self.numer * self.rate <= 0xffff_ffff_ffff_ffff * (0xffff_ffff * 0xffff_ffff),
            x * self.numer * self.rate == x * (self.numer * self.rate),
    {
        let (n, d, r, y) = (self.numer as int, self.denom as int, self.rate as int, x as int);
        assert(0 < n * r <= 0xffff_ffff * 0xffff_ffff) by (nonlinear_arith)
            requires
                0 < n <= 0xffff_ffff,
                0 < r <= 0xffff_ffff,
        ;
        assert(0 <= y * d <= 0xffff_ffff_ffff_ffff * 0xffff_ffff) by (nonlinear_arith)
            requires
                0 <= y <= 0xffff_ffff_ffff_ffff,
                0 < d <= 0xffff_ffff,
        ;
        assert(0 <= y * n <= 0xffff_ffff_ffff_ffff * 0xffff_ffff) by (nonlinear_arith)
            requires
                0 <= y <= 0xffff_ffff_ffff_ffff,
                0 < n <= 0xffff_ffff,
        ;
        assert(y * n * r == y * (n * r)) by (nonlinear_arith);
        let m = n * r;
        assert(0 <= y * m <= 0xffff_ffff_ffff_ffff * (0xffff_ffff * 0xffff_ffff)) by (nonlinear_arith)
            requires
                0 <= y <= 0xffff_ffff_ffff_ffff,
                0 < m <= 0xffff_ffff * 0xffff_ffff,
        ;
    }

    /// The timestamp to ask for to reach a frame.
    pub fn to_ts(&self, frame: u64) -> (r: u64)
        requires
            self.wf(),
        ensures
            r == wrapped(self.ts_of(frame as int)),
    {
        proof {
            self.lemma_sizes(frame);
        }
        let per: u128 = self.numer as u128 * self.rate as u128;
        let q: u128 = frame as u128 * self.denom as u128 / per;
        (q % 0x1_0000_0000_0000_0000) as u64
    }

    /// The frame that a timestamp stands for.
    pub fn to_frame(&self, ts: u64) -> (r: u64)
        requires
            self.wf(),
        ensures
            r == wrapped(self.frame_of(ts as int)),
    {
        proof {
            self.lemma_sizes(ts);
        }
        let q: u128 = ts as u128 * self.numer as u128 * self.rate as u128 / self.denom as u128;
        (q % 0x1_0000_0000_0000_0000) as u64
    }
}

/// Going to the timestamp of a frame never lands behind the frame, so that what comes too early
/// can be thrown away and nothing is missed.
pub proof fn law_seeking_lands_before(t: TimeBase, frame: int)
    requires
        t.wf(),
        frame >= 0,
    ensures
        0 <= t.frame_of(t.ts_of(frame)) <= frame,
{
    let m = t.numer * t.rate;
    let d = t.denom as int;
    let ts = t.ts_of(frame);
    assert(m > 0) by (nonlinear_arith)
        requires
            m == t.numer * t.rate,
            t.numer > 0,
            t.rate > 0,
    ;
    assert(0 <= ts && ts * m <= frame * d) by (nonlinear_arith)
        requires
            ts == frame * d / m,
            m > 0,
            d > 0,
            frame >= 0,
    ;
    let f = t.frame_of(ts);
    assert(f * d <= ts * m && 0 <= f) by (nonlinear_arith)
        requires
            f == ts * m / d,
            d > 0,
            ts >= 0,
            m > 0,
    ;
    assert(f <= frame) by (nonlinear_arith)
        requires
            f * d <= frame * d,
            d > 0,
    ;
}

/// How far before the target to start, first try to last.
pub open spec fn backs() -> Seq<u64> {
    seq![2048u64, 16384, 131072]
}

/// `a - b`, but not below zero.
pub open spec fn less(a: u64, b: u64) -> u64 {
    if a < b {
        0
    } else {
        (a - b) as u64
    }
}

/// How many tries there are for a frame: none after one that starts at the beginning.
pub open spec fn try_count(frame: u64) -> int {
    if frame <= 2048 {
        1
    } else if frame <= 16384 {
        2
    } else {
        3
    }
}

/// The frames to try to seek to, in order, so as to reach `frame`.
///
/// Start 2048 frames early: AAC (like MP3) needs the packet before the target to rebuild its
/// overlap, and a seek only lands on a packet boundary. A reader may also be unable to seek into
/// the last packets: start further back then. Whatever comes before the target is discarded.
pub fn seek_points(frame: u64) -> (r: Vec<u64>)
    ensures
        r@.len() == try_count(frame),
        forall|i: int| 0 <= i < r@.len() ==> #[trigger] r@[i] == less(frame, backs()[i]),
{
    let steps: [u64; 3] = [2048, 16384, 131072];
    assert(steps@ =~= backs());
    let mut out: Vec<u64> = Vec::new();
    let mut i: usize = 0;
    while i < 3
        invariant
            i <= 3,
            steps@ == backs(),
            out@.len() == i,
            i >= 1 ==> frame > 2048,
            i >= 2 ==> frame > 16384,
            forall|k: int| 0 <= k < i ==> #[trigger] out@[k] == less(frame, backs()[k]),
        decreases 3 - i,
    {
        let from = frame.saturating_sub(steps[i]);
        out.push(from);
        if from == 0 {
            return out;
        }
        i += 1;
    }
    out
}

/// How many decoded frames to throw away, having landed at frame `landed`.
pub fn discard_after_seek(frame: u64, landed: u64) -> (r: u64)
    ensures
        r == less(frame, landed),
{
    frame.saturating_sub(landed)
}

/// How much of a decoded packet to throw away.
#[derive(Clone, Copy, Debug, PartialEq, Eq, Structural)]
pub struct Skipped {
    /// Frames of this packet to throw away.
    pub skip: u64,
    /// Frames still to throw away afterwards.
    pub left: u64,
}

/// Throw away up to `discard` of the `frames` frames of a packet.
pub fn skip_frames(discard: u64, frames: u64) -> (r: Skipped)
    ensures
        r.skip == if discard < frames {
            discard
        } else {
            frames
        },
        r.skip + r.left == discard,
{
    let skip: u64 = if discard < frames {
        discard
    } else {
        frames
    };
    Skipped { skip, left: discard - skip }
}

/// Where to start decoding an MP3 file, and how much to throw away.
#[derive(Clone, Copy, Debug, PartialEq, Eq, Structural)]
pub struct Mp3Seek {
    /// The bytes to decode: `[from, to)`.
    pub from: u64,
    pub to: u64,
    pub discard: u64,
}

/// Where to start decoding the MP3 file `b` so that `frame` is the first frame that comes out.
/// Nothing if that is past the end.
pub fn mp3_seek(index: &Mp3Index, b: &[u8], frame: u64) -> (r: Result<Option<Mp3Seek>, IndexError>)
    requires
        index.wf(),
        index.samples_per_frame > 0,
        index.offsets@.len() * index.samples_per_frame <= u64::MAX,
    ensures
        ({
            let spf = index.samples_per_frame as int;
            if frame as int / spf >= index.offsets@.len() {
                r == Ok::<Option<Mp3Seek>, IndexError>(None)
            } else {
                match index.start_for(b@, frame as int / spf) {
                    Err(e) => r == Err::<Option<Mp3Seek>, IndexError>(e),
                    Ok(start) => {
                        &&& r is Ok
                        &&& r->Ok_0 is Some
                        &&& r->Ok_0->0.from == index.offsets@[start]
                        &&& r->Ok_0->0.to == index.audio_end
                        &&& r->Ok_0->0.discard == frame - start * spf
                    },
                }
            }
        }),
{
    let spf: u64 = index.samples_per_frame as u64;
    let target: u64 = frame / spf;
    let n: usize = index.frames();
    if target >= n as u64 {
        return Ok(None);
    }
    match index.decode_start(b, target as usize) {
        Err(e) => Err(e),
        Ok(start) => {
            proof {
                let (s, t, p, f) = (start as int, target as int, spf as int, frame as int);
                assert(0 <= s * p <= t * p <= f) by (nonlinear_arith)
                    requires
                        0 <= s <= t,
                        t == f / p,
                        p > 0,
                        f >= 0,
                ;
            }
            Ok(
                Some(
                    Mp3Seek { from: index.offsets[start], to: index.audio_end, discard: frame - start as u64 * spf },
                ),
            )
        },
    }
}

/// How many frames are handed out at a time.
pub const CHUNK: u64 = 4096;

/// Decoded audio held in memory covering source frames `[start, start + len)`, e.g. an
/// encoded A/B preview. Reads outside that window are silent.
pub struct MemPcm<T> {
    pcm: Vec<T>,
    silence: T,
    channels: usize,
    rate: u32,
    start: u64,
    pos: u64,
}

impl<T: Copy> MemPcm<T> {
    /// The samples, frame by frame.
    pub closed spec fn samples(&self) -> Seq<T> {
        self.pcm@
    }

    /// What stands for silence.
    pub closed spec fn quiet(&self) -> T {
        self.silence
    }

    pub closed spec fn channel_count(&self) -> int {
        self.channels as int
    }

    /// Frames per second.
    pub closed spec fn frame_rate(&self) -> u32 {
        self.rate
    }

    /// The first frame that there is audio for.
    pub closed spec fn first(&self) -> int {
        self.start as int
    }

    /// The frame that the next read starts at.
    pub closed spec fn at(&self) -> int {
        self.pos as int
    }

    /// One past the last frame that there is audio for.
    pub open spec fn past(&self) -> int {
        self.first() + self.samples().len() as int / self.channel_count()
    }

    /// Frames can be counted.
    pub open spec fn wf(&self) -> bool {
        &&& 0 < self.channel_count() <= 0xffff
        &&& self.past() <= u64::MAX
    }

    /// The next `n` frames read at frame `pos`: silence before the window, its audio in it.
    pub open spec fn frames_at(&self, pos: int, n: int) -> Seq<T> {
        let ch = self.channel_count();
        if pos < self.first() {
            Seq::new((n * ch) as nat, |i: int| self.quiet())
        } else {
            self.samples().subrange((pos - self.first()) * ch, (pos - self.first() + n) * ch)
        }
    }

    /// How many frames the next read gives: up to a chunk, not crossing the start or the end.
    pub open spec fn next_len(&self) -> int {
        let left = if self.at() < self.first() {
            self.first() - self.at()
        } else {
            self.past() - self.at()
        };
        if left < CHUNK {
            left
        } else {
            CHUNK as int
        }
    }

    pub fn new(pcm: Vec<T>, silence: T, channels: usize, rate: u32, start: u64) -> (r: MemPcm<T>)
        requires
            0 < channels <= 0xffff,
            start + pcm@.len() as int / channels as int <= u64::MAX,
        ensures
            r.wf(),
            r.samples() == pcm@,
            r.quiet() == silence,
            r.channel_count() == channels,
            r.frame_rate() == rate,
            r.first() == start,
            r.at() == start,
    {
        MemPcm { pcm, silence, channels, rate, start, pos: start }
    }

    pub fn channels(&self) -> (r: usize)
        ensures
            r == self.channel_count(),
    {
        self.channels
    }

    pub fn sample_rate(&self) -> (r: u32)
        ensures
            r == self.frame_rate(),
    {
        self.rate
    }

    /// Position so the next `read` starts at `frame`.
    pub fn seek(&mut self, frame: u64)
        requires
            old(self).wf(),
        ensures
            final(self).wf(),
            final(self).at() == frame,
            final(self).samples() == old(self).samples(),
            final(self).quiet() == old(self).quiet(),
            final(self).channel_count() == old(self).channel_count(),
            final(self).frame_rate() == old(self).frame_rate(),
            final(self).first() == old(self).first(),
    {
        self.pos = frame;
    }

    /// Append the next frames to `out`. `false` at the end.
    pub fn read(&mut self, out: &mut Vec<T>) -> (more: bool)
        requires
            old(self).wf(),
        ensures
            final(self).wf(),
            final(self).samples() == old(self).samples(),
            final(self).quiet() == old(self).quiet(),
            final(self).channel_count() == old(self).channel_count(),
            final(self).frame_rate() == old(self).frame_rate(),
            final(self).first() == old(self).first(),
            more == (old(self).at() < old(self).past()),
            !more ==> final(self).at() == old(self).at() && final(out)@ == old(out)@,
            more ==> {
                &&& old(self).next_len() > 0
                &&& final(self).at() == old(self).at() + old(self).next_len()
                &&& final(out)@ == old(out)@ + old(self).frames_at(old(self).at(), old(self).next_len())
            },
    {
        let len: usize = self.pcm.len();
        let end: u64 = self.start + (len / self.channels) as u64;
        if self.pos >= end {
            return false;
        }
        let ghost before = out@;
        if self.pos < self.start {
            let left: u64 = self.start - self.pos;
            let n: u64 = if left < CHUNK {
                left
            } else {
                CHUNK
            };
            proof {
                let (x, c) = (n as int, self.channels as int);
                assert(0 <= x * c <= 4096 * 0xffff) by (nonlinear_arith)
                    requires
                        0 <= x <= 4096,
                        0 < c <= 0xffff,
                ;
            }
            let count: usize = n as usize * self.channels;
            let mut i: usize = 0;
            let ghost part = self.frames_at(self.at(), n as int);
            assert(out@ =~= before + part.take(0));
            while i < count
                invariant
                    i <= count == part.len(),
                    *self == *old(self),
                    part == self.frames_at(self.at(), n as int),
                    self.at() < self.first(),
                    out@ == before + part.take(i as int),
                decreases count - i,
            {
                out.push(self.silence);
                assert(out@ =~= before + part.take(i + 1));
                i += 1;
            }
            assert(part.take(i as int) =~= part);
            self.pos = self.pos + n;
            return true;
        }
        let left: u64 = end - self.pos;
        let n: u64 = if left < CHUNK {
            left
        } else {
            CHUNK
        };
        let skip: u64 = self.pos - self.start;
        proof {
            let (x, y, c, l) = (skip as int, n as int, self.channels as int, len as int);
            assert(0 <= x * c && x * c + y * c == (x + y) * c && 0 <= y * c && (x + y) * c <= l) by (nonlinear_arith)
                requires
                    0 <= x,
                    0 <= y,
                    x + y <= l / c,
                    c > 0,
                    l >= 0,
            ;
        }
        let from: usize = skip as usize * self.channels;
        let count: usize = n as usize * self.channels;
        let ghost part = self.frames_at(self.at(), n as int);
        let mut i: usize = 0;
        assert(out@ =~= before + part.take(0));
        while i < count
            invariant
                i <= count == part.len(),
                from + count <= len == self.pcm@.len(),
                *self == *old(self),
                part == self.pcm@.subrange(from as int, from + count),
                out@ == before + part.take(i as int),
            decreases count - i,
        {
            out.push(self.pcm[from + i]);
            assert(out@ =~= before + part.take(i + 1));
            i += 1;
        }
        assert(part.take(i as int) =~= part);
        self.pos = self.pos + n;
        true
    }
}

/// Where to go in a stream.
#[derive(Clone, Copy, Debug, PartialEq, Eq, Structural)]
pub enum SeekTo {
    Start(u64),
    Current(i64),
    End(i64),
}

/// A byte range of a file presented as a whole stream.
#[derive(Clone, Copy, Debug, PartialEq, Eq, Structural)]
pub struct FileSlice {
    pub start: u64,
    pub len: u64,
    pub pos: u64,
}

impl FileSlice {
    /// The range `[start, end)`; empty if it ends before it starts.
    pub fn new(start: u64, end: u64) -> (r: FileSlice)
        ensures
            r.start == start,
            r.len == less(end, start),
            r.pos == 0,
    {
        FileSlice { start, len: end.saturating_sub(start), pos: 0 }
    }

    /// How many bytes may be read into a buffer of `wanted` bytes.
    pub fn readable(&self, wanted: usize) -> (r: usize)
        ensures
            r == if wanted < less(self.len, self.pos) {
                wanted as int
            } else {
                less(self.len, self.pos) as int
            },
    {
        let left = self.len.saturating_sub(self.pos);
        if (wanted as u64) < left {
            wanted
        } else {
            left as usize
        }
    }

    /// `n` bytes have been read.
    pub fn advance(&mut self, n: usize)
        requires
            old(self).pos + n <= u64::MAX,
        ensures
            *final(self) == (FileSlice { pos: (old(self).pos + n) as u64, ..*old(self) }),
    {
        self.pos = self.pos + n as u64;
    }

    /// The position asked for.
    pub open spec fn target(&self, to: SeekTo) -> int {
        match to {
            SeekTo::Start(p) => p as int,
            SeekTo::Current(d) => self.pos + d,
            SeekTo::End(d) => self.len + d,
        }
    }

    /// Move to a position, which must not be before the start. Returns where that is in the
    /// file.
    pub fn seek(&mut self, to: SeekTo) -> (r: Option<u64>)
        requires
            old(self).start + old(self).target(to) <= i64::MAX,
        ensures
            old(self).target(to) < 0 ==> r is None && *final(self) == *old(self),
            old(self).target(to) >= 0 ==> r == Some((old(self).start + old(self).target(to)) as u64) && *final(self) == (
            FileSlice { pos: old(self).target(to) as u64, ..*old(self) }),
    {
        let target: i128 = match to {
            SeekTo::Start(p) => p as i128,
            SeekTo::Current(d) => self.pos as i128 + d as i128,
            SeekTo::End(d) => self.len as i128 + d as i128,
        };
        if target < 0 {
            return None;
        }
        self.pos = target as u64;
        Some(self.start + self.pos)
    }
}

} // verus!

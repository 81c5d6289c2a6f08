//! What one pass over a recording finds out, and how the result is cached.
use vstd::prelude::*;
use crate::bytes::same_bytes;
use crate::mp3index::Mp3Index;
use crate::text::{append_chars, append_str, chars_of, decimal, decimal_chars, string_of};

verus! {

/// How much data a second of audio takes, in kilobits.
#[derive(Clone, Copy, Debug, PartialEq, Eq, Structural)]
pub enum Bitrate {
    Cbr(u32),
    Vbr { min: u32, avg: u32, max: u32 },
    Pcm { bits: u32, kbps: u32 },
    Unknown,
}

/// What is known about the recording's file.
#[derive(Clone, Debug, PartialEq, Eq)]
pub struct SourceInfo {
    pub codec: String,
    pub sample_rate: u32,
    pub channels: u16,
    /// Playable length in sample frames, as decoded.
    pub total_samples: u64,
    pub file_size: u64,
    pub bitrate: Bitrate,
}

impl SourceInfo {
    /// The length in nanoseconds, as far as it can be told.
    pub open spec fn nanoseconds(&self) -> int {
        let n = self.total_samples * 1_000_000_000 / self.sample_rate as int;
        if n > u64::MAX {
            u64::MAX as int
        } else {
            n
        }
    }

    /// The length in nanoseconds.
    pub fn duration_ns(&self) -> (r: u64)
        requires
            self.sample_rate > 0,
        ensures
            r == self.nanoseconds(),
    {
        let n: u128 = self.total_samples as u128 * 1_000_000_000 / self.sample_rate as u128;
        if n > u64::MAX as u128 {
            u64::MAX
        } else {
            n as u64
        }
    }
}

/// The codec's name.
pub open spec fn codec_name(mp3: bool, bits: Option<u32>) -> Seq<char> {
    if mp3 {
        "MP3"@
    } else {
        match bits {
            Some(b) => "PCM "@ + decimal(b as nat) + "-bit"@,
            None => "PCM"@,
        }
    }
}

/// The bitrate of a source: from the index of an MP3, or the size of PCM samples.
pub open spec fn bitrate_of(mp3: Option<Mp3Index>, bits: Option<u32>, rate: u32, channels: u16) -> Bitrate {
    match mp3 {
        Some(m) => if m.min_kbps != m.max_kbps {
            Bitrate::Vbr { min: m.min_kbps, avg: m.avg_kbps, max: m.max_kbps }
        } else {
            Bitrate::Cbr(m.avg_kbps)
        },
        None => match bits {
            Some(b) => Bitrate::Pcm { bits: b, kbps: (rate * channels * b / 1000) as u32 },
            None => Bitrate::Unknown,
        },
    }
}

/// The codec and bitrate of a source.
pub fn describe(mp3: Option<&Mp3Index>, bits: Option<u32>, rate: u32, channels: u16) -> (r: (String, Bitrate))
    requires
        bits matches Some(b) ==> rate * channels * b <= u32::MAX,
        bits matches Some(b) ==> rate * channels <= u32::MAX,
    ensures
        r.0@ == codec_name(mp3 is Some, bits),
        r.1 == bitrate_of(
            match mp3 {
                Some(m) => Some(*m),
                None => None,
            },
            bits,
            rate,
            channels,
        ),
{
    match mp3 {
        Some(m) => {
            let bitrate = if m.is_vbr() {
                Bitrate::Vbr { min: m.min_kbps, avg: m.avg_kbps, max: m.max_kbps }
            } else {
                Bitrate::Cbr(m.avg_kbps)
            };
            ("MP3".to_owned(), bitrate)
        },
        None => match bits {
            Some(b) => {
                let mut s = chars_of("PCM ");
                append_chars(&mut s, &decimal_chars(b as u64));
                append_str(&mut s, "-bit");
                assert(0 <= rate * channels) by (nonlinear_arith)
                    requires
                        0 <= rate,
                        0 <= channels,
                ;
                assert(0 <= rate * channels * b) by (nonlinear_arith)
                    requires
                        0 <= rate * channels,
                        0 <= b,
                ;
                let kbps: u32 = rate * channels as u32 * b / 1000;
                (string_of(&s), Bitrate::Pcm { bits: b, kbps })
            },
            None => ("PCM".to_owned(), Bitrate::Unknown),
        },
    }
}

/// What came of reading the next piece of a recording.
#[derive(Clone, Copy, Debug, PartialEq, Eq, Structural)]
pub enum Read {
    /// So many samples.
    Samples(usize),
    /// The end of the recording.
    End,
    /// It could not be read.
    Failed,
}

/// How the scan goes on.
#[derive(Clone, Copy, Debug, PartialEq, Eq, Structural)]
pub enum ScanStep {
    /// Read on; so many frames in all by now.
    Next { total: u64 },
    /// All there is has been read.
    Finish,
    /// Give up.
    Fail,
}

/// How the scan goes on after reading a piece. A truncated or damaged tail shouldn't make the
/// whole recording unusable.
pub fn scan_step(total: u64, read: Read, channels: usize) -> (r: ScanStep)
    requires
        channels > 0,
        read matches Read::Samples(n) ==> total + n <= u64::MAX,
    ensures
        r == match read {
            Read::Samples(n) => ScanStep::Next { total: (total + n as int / channels as int) as u64 },
            Read::End => ScanStep::Finish,
            Read::Failed => if total > 0 {
                ScanStep::Finish
            } else {
                ScanStep::Fail
            },
        },
{
    match read {
        Read::Samples(n) => {
            assert(n as int / channels as int <= n) by (nonlinear_arith)
                requires
                    channels >= 1,
                    n >= 0,
            ;
            ScanStep::Next { total: total + (n / channels) as u64 }
        },
        Read::End => ScanStep::Finish,
        Read::Failed => if total > 0 {
            ScanStep::Finish
        } else {
            ScanStep::Fail
        },
    }
}

/// Identifies the exact file a cache entry was computed from.
#[derive(Clone, Debug, PartialEq, Eq)]
pub struct CacheKey {
    pub path: String,
    pub size: u64,
    pub mtime_ns: u128,
}

impl CacheKey {
    /// Whether both stand for the same version of the same file.
    pub fn same(&self, other: &CacheKey) -> (r: bool)
        ensures
            r == (self.path@ == other.path@ && self.size == other.size && self.mtime_ns == other.mtime_ns),
    {
        self.path == other.path && self.size == other.size && self.mtime_ns == other.mtime_ns
    }
}

/// What every cached scan starts with: "SPLTIDX1".
pub open spec fn scan_magic() -> Seq<u8> {
    seq![0x53u8, 0x50, 0x4C, 0x54, 0x49, 0x44, 0x58, 0x31]
}

/// What every cached loudness map starts with: "SPLTLUD1".
pub open spec fn loudness_magic() -> Seq<u8> {
    seq![0x53u8, 0x50, 0x4C, 0x54, 0x4C, 0x55, 0x44, 0x31]
}

/// The first bytes of a cached scan.
pub fn scan_mark() -> (r: Vec<u8>)
    ensures
        r@ == scan_magic(),
{
    let v = vec![0x53u8, 0x50, 0x4C, 0x54, 0x49, 0x44, 0x58, 0x31];
    assert(v@ =~= scan_magic());
    v
}

/// The first bytes of a cached loudness map.
pub fn loudness_mark() -> (r: Vec<u8>)
    ensures
        r@ == loudness_magic(),
{
    let v = vec![0x53u8, 0x50, 0x4C, 0x54, 0x4C, 0x55, 0x44, 0x31];
    assert(v@ =~= loudness_magic());
    v
}

/// Whether a cache entry is one of the kind looked for, and of this exact version of the file.
pub fn cache_hit(mark: &[u8], wanted: &[u8], stored: &CacheKey, key: &CacheKey) -> (r: bool)
    ensures
        r == (mark@ == wanted@ && stored.path@ == key.path@ && stored.size == key.size && stored.mtime_ns == key.mtime_ns),
{
    same_bytes(mark, wanted) && stored.same(key)
}

/// The digit for a value below sixteen.
pub open spec fn hex_char(d: int) -> char {
    if d < 10 {
        (48 + d) as char
    } else {
        (87 + d) as char
    }
}

/// The lowest `n` hexadecimal digits of `v`.
pub open spec fn hex(v: int, n: nat) -> Seq<char>
    decreases n,
{
    if n == 0 {
        Seq::empty()
    } else {
        hex(v / 16, (n - 1) as nat).push(hex_char(v % 16))
    }
}

/// The lowest `n` hexadecimal digits of `v`.
pub fn hex_chars(v: u64, n: usize) -> (r: Vec<char>)
    ensures
        r@ == hex(v as int, n as nat),
    decreases n,
{
    if n == 0 {
        return Vec::new();
    }
    let mut out = hex_chars(v / 16, n - 1);
    let d: u8 = (v % 16) as u8;
    let c: u8 = if d < 10 {
        48 + d
    } else {
        87 + d
    };
    out.push(c as char);
    out
}

/// The name of a cache file: the hash of the path in 16 digits, and what is cached.
pub fn cache_name(hash: u64, ext: &str) -> (r: String)
    ensures
        r@ == hex(hash as int, 16) + "."@ + ext@,
{
    let mut s = hex_chars(hash, 16);
    append_str(&mut s, ".");
    append_str(&mut s, ext);
    string_of(&s)
}

} // verus!

//! Byte-offset index of every MPEG Layer III frame in a file.
//!
//! Frame `i` holds samples `[i * spf, (i + 1) * spf)`, where Xing, Info and VBRI tag frames
//! are skipped. This gives exact seeking on VBR files and is what lossless frame-copy export
//! uses.
use vstd::prelude::*;
use vstd::slice::slice_subrange;
use crate::bytes::{append_bytes, copy_range, holds, matches_at, push_zeros, zeros};

verus! {

#[derive(Clone, Copy, Debug, PartialEq, Eq, Structural)]
pub enum MpegVersion {
    V1,
    V2,
    V2_5,
}

#[derive(Clone, Copy, Debug, PartialEq, Eq, Structural)]
pub struct FrameHeader {
    pub version: MpegVersion,
    pub sample_rate: u32,
    pub bitrate_kbps: u32,
    pub channels: u16,
    pub frame_len: usize,
    pub samples: u32,
}

/// Why a file could not be indexed or read by its index.
#[derive(Clone, Copy, Debug, PartialEq, Eq, Structural)]
pub enum IndexError {
    /// No MPEG Layer III frames found.
    NoFrames,
    /// No frames with audio found.
    NoAudio,
    /// Bad frame header where the index has a frame.
    BadHeader,
    /// The file ends before what the index says.
    ShortFile,
}

impl FrameHeader {
    /// The bytes of side information behind the header.
    pub open spec fn side_len(self) -> int {
        match self.version {
            MpegVersion::V1 => if self.channels == 1 {
                17
            } else {
                32
            },
            _ => if self.channels == 1 {
                9
            } else {
                17
            },
        }
    }

    pub fn side_info_len(&self) -> (r: usize)
        ensures
            r == self.side_len(),
    {
        match self.version {
            MpegVersion::V1 => if self.channels == 1 {
                17
            } else {
                32
            },
            _ => if self.channels == 1 {
                9
            } else {
                17
            },
        }
    }

    /// Whether both can belong to one stream.
    pub open spec fn goes_with(self, other: FrameHeader) -> bool {
        self.version == other.version && self.sample_rate == other.sample_rate
    }

    pub fn compatible(&self, other: &FrameHeader) -> (r: bool)
        ensures
            r == self.goes_with(*other),
    {
        self.version == other.version && self.sample_rate == other.sample_rate
    }
}

/// The bitrates of MPEG-1, by their code.
pub open spec fn bitrates_v1() -> Seq<u32> {
    seq![0u32, 32, 40, 48, 56, 64, 80, 96, 112, 128, 160, 192, 224, 256, 320]
}

/// The bitrates of MPEG-2 and 2.5, by their code.
pub open spec fn bitrates_v2() -> Seq<u32> {
    seq![0u32, 8, 16, 24, 32, 40, 48, 56, 64, 80, 96, 112, 128, 144, 160]
}

/// The version that the two bits stand for.
pub open spec fn version_of(bits: int) -> Option<MpegVersion> {
    if bits == 0 {
        Some(MpegVersion::V2_5)
    } else if bits == 2 {
        Some(MpegVersion::V2)
    } else if bits == 3 {
        Some(MpegVersion::V1)
    } else {
        None
    }
}

/// The bitrate for a version and code.
pub open spec fn kbps_of(version: MpegVersion, code: int) -> u32 {
    if version == MpegVersion::V1 {
        bitrates_v1()[code]
    } else {
        bitrates_v2()[code]
    }
}

/// The sample rate for a version and code.
pub open spec fn rate_of(version: MpegVersion, code: int) -> u32 {
    match version {
        MpegVersion::V1 => seq![44100u32, 48000, 32000][code],
        MpegVersion::V2 => seq![22050u32, 24000, 16000][code],
        MpegVersion::V2_5 => seq![11025u32, 12000, 8000][code],
    }
}

/// The samples in a frame.
pub open spec fn samples_of(version: MpegVersion) -> u32 {
    if version == MpegVersion::V1 {
        1152
    } else {
        576
    }
}

/// The length of a frame in bytes.
pub open spec fn frame_bytes(version: MpegVersion, kbps: u32, rate: u32, padding: int) -> int {
    samples_of(version) as int / 8 * kbps * 1000 / rate as int + padding
}

/// The Layer III frame header at the start of `b`. Free-format and reserved values are none.
pub open spec fn header_of(b: Seq<u8>) -> Option<FrameHeader> {
    if b.len() < 4 || b[0] != 0xFF || b[1] < 0xE0 {
        None
    } else {
        let version = version_of(b[1] as int / 8 % 4);
        let layer = b[1] as int / 2 % 4;
        let (br, sr) = (b[2] as int / 16, b[2] as int / 4 % 4);
        if version is None || layer != 1 || br == 0 || br == 15 || sr == 3 {
            None
        } else {
            let v = version->0;
            let (kbps, rate) = (kbps_of(v, br), rate_of(v, sr));
            Some(
                FrameHeader {
                    version: v,
                    sample_rate: rate,
                    bitrate_kbps: kbps,
                    channels: if b[3] as int / 64 == 3 {
                        1
                    } else {
                        2
                    },
                    frame_len: frame_bytes(v, kbps, rate, b[2] as int / 2 % 2) as usize,
                    samples: samples_of(v),
                },
            )
        }
    }
}

/// Every header names one of the standard's rates and bitrates; no frame is empty or large.
pub proof fn lemma_header_range(b: Seq<u8>)
    ensures
        header_of(b) matches Some(h) ==> {
            &&& 24 <= h.frame_len <= 1441
            &&& 3 * h.bitrate_kbps <= h.frame_len
            &&& 8 <= h.bitrate_kbps <= 320
            &&& 8000 <= h.sample_rate <= 48000
            &&& 1 <= h.channels <= 2
            &&& h.samples == 576 || h.samples == 1152
            &&& h.frame_len == frame_bytes(h.version, h.bitrate_kbps, h.sample_rate, b[2] as int / 2 % 2)
            &&& h.samples == samples_of(h.version)
        },
{
    if let Some(h) = header_of(b) {
        let (br, sr, pad) = (b[2] as int / 16, b[2] as int / 4 % 4, b[2] as int / 2 % 2);
        assert(1 <= br <= 14);
        assert(0 <= sr <= 2);
        let kbps = h.bitrate_kbps as int;
        if h.version == MpegVersion::V1 {
            assert(kbps == bitrates_v1()[br]);
            assert(32 <= kbps <= 320);
            lemma_frame_range(144, kbps, h.sample_rate as int);
        } else {
            assert(kbps == bitrates_v2()[br]);
            assert(8 <= kbps <= 160);
            lemma_frame_range(72, kbps, h.sample_rate as int);
        }
    }
}

proof fn lemma_frame_range(eighth: int, kbps: int, rate: int)
    requires
        eighth == 144 && 32 <= kbps <= 320 && 32000 <= rate <= 48000 || eighth == 72 && 8 <= kbps <= 160 && 8000 <= rate
            <= 24000,
    ensures
        24 <= eighth * kbps * 1000 / rate <= 1440,
        3 * kbps <= eighth * kbps * 1000 / rate,
{
    let n = eighth * kbps * 1000;
    assert(3 * kbps * rate <= n) by (nonlinear_arith)
        requires
            n == eighth * kbps * 1000,
            kbps > 0,
            rate > 0,
            eighth == 144 && rate <= 48000 || eighth == 72 && rate <= 24000,
    ;
    let q = n / rate;
    assert(n == rate * q + n % rate && 0 <= n % rate < rate) by (nonlinear_arith)
        requires
            rate > 0,
            q == n / rate,
    ;
    if q < 24 {
        assert(rate * q <= rate * 23) by (nonlinear_arith)
            requires
                q <= 23,
                rate > 0,
        ;
    }
    if q < 3 * kbps {
        assert(rate * q + rate <= 3 * kbps * rate) by (nonlinear_arith)
            requires
                q + 1 <= 3 * kbps,
                rate > 0,
        ;
    }
    if q > 1440 {
        assert(rate * q >= rate * 1441) by (nonlinear_arith)
            requires
                q >= 1441,
                rate > 0,
        ;
    }
}

/// What the four bytes of a frame header say, as the standard fixes it. There is a header where
/// the eleven sync bits are set, the version is not reserved, the layer is the third, and bitrate
/// and sample rate have a code. MPEG-1 runs at 44.1, 48 or 32 kHz, MPEG-2 at half of that and
/// MPEG-2.5 at a quarter. A frame is as many whole bytes as its bitrate fills while its samples
/// play, and one more where it is padded.
pub proof fn law_headers_follow_the_standard(b: Seq<u8>)
    ensures
        header_of(b) is Some <==> {
            &&& b.len() >= 4
            &&& b[0] == 0xFF
            &&& b[1] as int / 32 == 7
            &&& b[1] as int / 8 % 4 != 1
            &&& b[1] as int / 2 % 4 == 1
            &&& 1 <= b[2] as int / 16 <= 14
            &&& b[2] as int / 4 % 4 <= 2
        },
        header_of(b) matches Some(h) ==> {
            let (version, kbps, rate, pad) = (
                b[1] as int / 8 % 4,
                b[2] as int / 16,
                b[2] as int / 4 % 4,
                b[2] as int / 2 % 2,
            );
            &&& version == 3 <==> h.version == MpegVersion::V1
            &&& version == 2 <==> h.version == MpegVersion::V2
            &&& version == 0 <==> h.version == MpegVersion::V2_5
            &&& rate == 0 && version == 3 ==> h.sample_rate == 44_100
            &&& rate == 1 && version == 3 ==> h.sample_rate == 48_000
            &&& rate == 2 && version == 3 ==> h.sample_rate == 32_000
            &&& rate == 0 && version == 2 ==> h.sample_rate == 22_050
            &&& rate == 1 && version == 2 ==> h.sample_rate == 24_000
            &&& rate == 2 && version == 2 ==> h.sample_rate == 16_000
            &&& rate == 0 && version == 0 ==> h.sample_rate == 11_025
            &&& rate == 1 && version == 0 ==> h.sample_rate == 12_000
            &&& rate == 2 && version == 0 ==> h.sample_rate == 8_000
            &&& version == 3 ==> h.bitrate_kbps == (seq![
                32int,
                40,
                48,
                56,
                64,
                80,
                96,
                112,
                128,
                160,
                192,
                224,
                256,
                320,
            ])[kbps - 1]
            &&& version != 3 ==> h.bitrate_kbps == (seq![
                8int,
                16,
                24,
                32,
                40,
                48,
                56,
                64,
                80,
                96,
                112,
                128,
                144,
                160,
            ])[kbps - 1]
            &&& h.samples == if version == 3 {
                1152int
            } else {
                576
            }
            &&& h.channels == if b[3] >= 0xC0 {
                1int
            } else {
                2
            }
            &&& (h.frame_len - pad) * 8 * h.sample_rate <= h.samples * h.bitrate_kbps * 1000
            &&& h.samples * h.bitrate_kbps * 1000 < (h.frame_len - pad + 1) * 8 * h.sample_rate
        },
{
    if let Some(h) = header_of(b) {
        lemma_header_range(b);
        let (br, sr, pad) = (b[2] as int / 16, b[2] as int / 4 % 4, b[2] as int / 2 % 2);
        assert(1 <= br <= 14 && 0 <= sr <= 2);
        let (eighth, kbps, rate) = (h.samples as int / 8, h.bitrate_kbps as int, h.sample_rate as int);
        let q = h.frame_len - pad;
        assert(q == eighth * kbps * 1000 / rate);
        assert(q * 8 * rate <= 8 * eighth * kbps * 1000 < (q + 1) * 8 * rate) by (nonlinear_arith)
            requires
                q == eighth * kbps * 1000 / rate,
                rate > 0,
        ;
        assert(h.samples * h.bitrate_kbps * 1000 == 8 * eighth * kbps * 1000);
    }
}

/// The bytes of side information, as the standard fixes them: 32 in MPEG-1 and 17 in MPEG-2 and
/// 2.5 for two channels, 17 and 9 for one.
pub proof fn law_side_information_has_its_length(h: FrameHeader)
    ensures
        h.version == MpegVersion::V1 && h.channels != 1 ==> h.side_len() == 32,
        h.version == MpegVersion::V1 && h.channels == 1 ==> h.side_len() == 17,
        h.version != MpegVersion::V1 && h.channels != 1 ==> h.side_len() == 17,
        h.version != MpegVersion::V1 && h.channels == 1 ==> h.side_len() == 9,
{
}

/// Parse a Layer III frame header. Free-format and reserved values are rejected.
pub fn parse_header(b: &[u8]) -> (r: Option<FrameHeader>)
    ensures
        r == header_of(b@),
        r matches Some(h) ==> {
            let code = b@[2] as int / 4 % 4;
            &&& h.sample_rate * (match h.version {
                MpegVersion::V1 => 1int,
                MpegVersion::V2 => 2,
                MpegVersion::V2_5 => 4,
            }) == if code == 0 {
                44_100int
            } else if code == 1 {
                48_000
            } else {
                32_000
            }
            &&& h.samples == if b@[1] as int / 8 % 4 == 3 {
                1152int
            } else {
                576
            }
        },
{
    if b.len() < 4 || b[0] != 0xFF || b[1] < 0xE0 {
        return None;
    }
    let bits: u8 = b[1] / 8 % 4;
    let version = if bits == 0 {
        MpegVersion::V2_5
    } else if bits == 2 {
        MpegVersion::V2
    } else if bits == 3 {
        MpegVersion::V1
    } else {
        return None;
    };
    if b[1] / 2 % 4 != 1 {
        return None;  // not Layer III
    }
    let br: usize = (b[2] / 16) as usize;
    let sr: usize = (b[2] / 4 % 4) as usize;
    if br == 0 || br == 15 || sr == 3 {
        return None;
    }
    let padding: usize = (b[2] / 2 % 2) as usize;
    let channels: u16 = if b[3] / 64 == 3 {
        1
    } else {
        2
    };
    let v1: [u32; 15] = [0, 32, 40, 48, 56, 64, 80, 96, 112, 128, 160, 192, 224, 256, 320];
    let v2: [u32; 15] = [0, 8, 16, 24, 32, 40, 48, 56, 64, 80, 96, 112, 128, 144, 160];
    assert(v1@ =~= bitrates_v1());
    assert(v2@ =~= bitrates_v2());
    let bitrate_kbps: u32 = match version {
        MpegVersion::V1 => v1[br],
        _ => v2[br],
    };
    let base: u32 = if sr == 0 {
        44100
    } else if sr == 1 {
        48000
    } else {
        32000
    };
    let sample_rate: u32 = match version {
        MpegVersion::V1 => base,
        MpegVersion::V2 => base / 2,
        MpegVersion::V2_5 => base / 4,
    };
    let samples: u32 = match version {
        MpegVersion::V1 => 1152,
        _ => 576,
    };
    proof {
        assert(bitrate_kbps == kbps_of(version, br as int));
        assert(sample_rate == rate_of(version, sr as int));
        assert(bitrate_kbps <= 320);
        lemma_header_range(b@);
        law_headers_follow_the_standard(b@);
    }
    let eighth: u32 = samples / 8;
    assert(0 <= eighth * bitrate_kbps <= 144 * 320) by (nonlinear_arith)
        requires
            0 <= eighth <= 144,
            0 <= bitrate_kbps <= 320,
    ;
    let frame_len: usize = (eighth * bitrate_kbps * 1000 / sample_rate) as usize + padding;
    Some(FrameHeader { version, sample_rate, bitrate_kbps, channels, frame_len, samples })
}

/// "Xing"
pub open spec fn xing() -> Seq<u8> {
    seq![0x58u8, 0x69, 0x6E, 0x67]
}

/// "Info"
pub open spec fn info() -> Seq<u8> {
    seq![0x49u8, 0x6E, 0x66, 0x6F]
}

/// "VBRI"
pub open spec fn vbri() -> Seq<u8> {
    seq![0x56u8, 0x42, 0x52, 0x49]
}

/// A frame that holds a Xing, Info or VBRI tag instead of audio.
pub open spec fn tag_frame(frame: Seq<u8>, h: FrameHeader) -> bool {
    let off = 4 + h.side_len();
    ||| (holds(frame, off, xing()) || holds(frame, off, info())) && forall|i: int|
        4 <= i < off ==> #[trigger] frame[i] == 0
    ||| holds(frame, 36, vbri())
}

/// Xing/Info or VBRI tag frames carry no audio; decoders drop them, so must we.
pub fn is_tag_frame(frame: &[u8], h: &FrameHeader) -> (r: bool)
    ensures
        r == tag_frame(frame@, *h),
{
    let off: usize = 4 + h.side_info_len();
    let xing_id = vec![0x58u8, 0x69, 0x6E, 0x67];
    let info_id = vec![0x49u8, 0x6E, 0x66, 0x6F];
    let vbri_id = vec![0x56u8, 0x42, 0x52, 0x49];
    assert(xing_id@ =~= xing());
    assert(info_id@ =~= info());
    assert(vbri_id@ =~= vbri());
    if matches_at(frame, off, &xing_id) || matches_at(frame, off, &info_id) {
        let mut clear = true;
        let mut i: usize = 4;
        while i < off
            invariant
                4 <= i <= off <= frame@.len(),
                clear == forall|k: int| 4 <= k < i ==> #[trigger] frame@[k] == 0,
            decreases off - i,
        {
            if frame[i] != 0 {
                clear = false;
            }
            i += 1;
        }
        if clear {
            return true;
        }
    }
    matches_at(frame, 36, &vbri_id)
}

/// Where every audio frame of a file is.
#[derive(Clone, Debug, PartialEq, Eq)]
pub struct Mp3Index {
    /// Byte offset of each audio frame.
    pub offsets: Vec<u64>,
    pub samples_per_frame: u32,
    pub sample_rate: u32,
    pub channels: u16,
    pub min_kbps: u32,
    pub max_kbps: u32,
    pub avg_kbps: u32,
    /// Byte offset just past the last audio frame (start of trailing tags, if any).
    pub audio_end: u64,
}

// ---- Building the index ----

/// The length of an ID3v2 tag at the start of the file, its header and footer counted.
pub open spec fn id3v2_size(b: Seq<u8>) -> int {
    if holds(b, 0, seq![0x49u8, 0x44, 0x33]) && b.len() >= 10 {
        let size = ((b[6] as int % 128 * 128 + b[7] as int % 128) * 128 + b[8] as int % 128) * 128 + b[9] as int % 128;
        10 + size + if b[5] as int / 16 % 2 == 1 {
            10int
        } else {
            0
        }
    } else {
        0
    }
}

fn id3v2_len(b: &[u8]) -> (r: u64)
    ensures
        r == id3v2_size(b@),
        r <= 0x1000_0020,
{
    let id = vec![0x49u8, 0x44, 0x33];
    assert(id@ =~= seq![0x49u8, 0x44, 0x33]);
    if b.len() >= 10 && matches_at(b, 0, &id) {
        let size: u64 = (((b[6] % 128) as u64 * 128 + (b[7] % 128) as u64) * 128 + (b[8] % 128) as u64) * 128 + (b[9] % 128)
            as u64;
        let footer: u64 = if b[5] / 16 % 2 == 1 {
            10
        } else {
            0
        };
        10 + size + footer
    } else {
        0
    }
}

/// What has been gathered while going through a file.
#[verifier::ext_equal]
pub struct Found {
    /// The first header, which the others have to go with.
    pub first: Option<FrameHeader>,
    pub offsets: Seq<u64>,
    pub min_kbps: u32,
    pub max_kbps: u32,
    pub sum_kbps: int,
    pub audio_end: int,
}

/// What is at a position of the file.
pub enum Step {
    /// No frame: look one byte further on.
    Skip,
    /// A frame that the file ends in: nothing more to come.
    Stop,
    /// A frame.
    Frame(FrameHeader),
}

/// Whether what follows a frame confirms it: the end of the file, a tag, or another frame of
/// the same stream.
pub open spec fn confirmed(b: Seq<u8>, h: FrameHeader, next: int) -> bool {
    ||| next + 4 > b.len()
    ||| holds(b, next, seq![0x54u8, 0x41, 0x47])
    ||| holds(b, next, seq![0x41u8, 0x50, 0x45, 0x54, 0x41, 0x47, 0x45, 0x58])
    ||| header_of(b.skip(next)) matches Some(n) && h.goes_with(n)
}

/// What is at `pos`, given the first header of the stream.
pub open spec fn step_at(b: Seq<u8>, pos: int, first: Option<FrameHeader>) -> Step {
    match header_of(b.skip(pos)) {
        None => Step::Skip,
        Some(h) => if first matches Some(f) && !f.goes_with(h) {
            Step::Skip
        } else if pos + h.frame_len > b.len() {
            Step::Stop
        } else if !confirmed(b, h, pos + h.frame_len) {
            Step::Skip
        } else {
            Step::Frame(h)
        },
    }
}

/// The first bytes of the frame at `pos`, which are enough to tell a tag.
pub open spec fn peek(b: Seq<u8>, pos: int, h: FrameHeader) -> Seq<u8> {
    b.subrange(pos, pos + if h.frame_len < 64 {
        h.frame_len as int
    } else {
        64
    })
}

/// `f` with the frame at `pos` added.
pub open spec fn with_frame(b: Seq<u8>, f: Found, pos: int, h: FrameHeader) -> Found {
    let first = if f.first is None {
        Some(h)
    } else {
        f.first
    };
    if tag_frame(peek(b, pos, h), h) {
        Found { first, ..f }
    } else {
        Found {
            first,
            offsets: f.offsets.push(pos as u64),
            min_kbps: if h.bitrate_kbps < f.min_kbps {
                h.bitrate_kbps
            } else {
                f.min_kbps
            },
            max_kbps: if h.bitrate_kbps > f.max_kbps {
                h.bitrate_kbps
            } else {
                f.max_kbps
            },
            sum_kbps: f.sum_kbps + h.bitrate_kbps,
            audio_end: pos + h.frame_len,
        }
    }
}

/// All that is found from `pos` on, added to `f`.
pub open spec fn found_from(b: Seq<u8>, pos: int, f: Found) -> Found
    decreases b.len() - pos,
    via found_from_moves_on
{
    if pos + 4 > b.len() || pos < 0 {
        f
    } else {
        match step_at(b, pos, f.first) {
            Step::Skip => found_from(b, pos + 1, f),
            Step::Stop => f,
            Step::Frame(h) => found_from(b, pos + h.frame_len, with_frame(b, f, pos, h)),
        }
    }
}

#[via_fn]
proof fn found_from_moves_on(b: Seq<u8>, pos: int, f: Found) {
    lemma_header_range(b.skip(pos));
}

/// Nothing found yet in a file whose audio can start at `pos`.
pub open spec fn nothing_found(pos: int) -> Found {
    Found { first: None, offsets: Seq::empty(), min_kbps: u32::MAX, max_kbps: 0, sum_kbps: 0, audio_end: pos }
}

/// All that is found in a file.
pub open spec fn found_in(b: Seq<u8>) -> Found {
    found_from(b, id3v2_size(b), nothing_found(id3v2_size(b)))
}

/// Frames of at least 24 bytes one behind the other, up to `end`.
pub open spec fn frames_in_order(offsets: Seq<u64>, end: int) -> bool {
    &&& forall|i: int, j: int| 0 <= i < j < offsets.len() ==> (#[trigger] offsets[i]) + 24 <= #[trigger] offsets[j]
    &&& forall|i: int| 0 <= i < offsets.len() ==> (#[trigger] offsets[i]) + 24 <= end
}

impl Mp3Index {
    /// The frames lie one behind the other and each could hold a header.
    pub open spec fn wf(&self) -> bool {
        frames_in_order(self.offsets@, self.audio_end as int)
    }

    /// The index holds what was found.
    pub open spec fn is_index_of(&self, f: Found) -> bool {
        &&& f.first is Some
        &&& f.offsets.len() > 0
        &&& self.offsets@ == f.offsets
        &&& self.samples_per_frame == f.first->0.samples
        &&& self.sample_rate == f.first->0.sample_rate
        &&& self.channels == f.first->0.channels
        &&& self.min_kbps == f.min_kbps
        &&& self.max_kbps == f.max_kbps
        &&& self.avg_kbps == f.sum_kbps / f.offsets.len() as int
        &&& self.audio_end == f.audio_end
    }

    /// Index the frames of the file `b`.
    pub fn build(b: &[u8]) -> (r: Result<Mp3Index, IndexError>)
        ensures
            match r {
                Ok(index) => index.is_index_of(found_in(b@)) && index.wf() && index.audio_end <= b@.len() && 576
                    <= index.samples_per_frame <= 1152,
                Err(e) => if found_in(b@).first is None {
                    e == IndexError::NoFrames
                } else {
                    e == IndexError::NoAudio && found_in(b@).offsets.len() == 0
                },
            },
    {
        let len: usize = b.len();
        let tag = id3v2_len(b);
        let mut offsets: Vec<u64> = Vec::new();
        let mut first: Option<FrameHeader> = None;
        let mut min_kbps: u32 = u32::MAX;
        let mut max_kbps: u32 = 0;
        let mut sum_kbps: u64 = 0;
        let mut audio_end: u64 = tag;
        let mut pos: usize = 0;
        if tag > len as u64 {
            assert(found_in(b@) == nothing_found(tag as int));
            return Err(IndexError::NoFrames);
        }
        pos = tag as usize;
        let ghost mut f = nothing_found(tag as int);
        loop
            invariant_except_break
                pos <= len,
                frames_in_order(offsets@, pos as int),
                audio_end <= pos,
            invariant
                len == b@.len(),
                found_from(b@, pos as int, f) == found_in(b@),
                f.first == first,
                f.offsets == offsets@,
                f.min_kbps == min_kbps,
                f.max_kbps == max_kbps,
                f.sum_kbps == sum_kbps,
                f.audio_end == audio_end,
                frames_in_order(offsets@, audio_end as int),
                audio_end <= len,
                0 <= sum_kbps <= 320 * offsets@.len(),
                3 * sum_kbps <= audio_end,
                24 * offsets@.len() <= len,
                24 * offsets@.len() <= audio_end,
                first matches Some(h) ==> h.samples == 576 || h.samples == 1152,
                offsets@.len() > 0 ==> first is Some,
            ensures
                f == found_in(b@),
            decreases len - pos,
        {
            if len - pos < 4 {
                break;
            }
            let here = slice_subrange(b, pos, len);
            assert(here@ =~= b@.skip(pos as int));
            proof {
                lemma_header_range(here@);
            }
            let h = match parse_header(here) {
                None => {
                    pos += 1;
                    continue;
                },
                Some(h) => h,
            };
            let fits = match first {
                None => true,
                Some(g) => g.compatible(&h),
            };
            if !fits {
                pos += 1;
                continue;
            }
            if h.frame_len > len - pos {
                break;  // truncated last frame
            }
            let next: usize = pos + h.frame_len;
            // Confirm sync by checking what follows; guards against false sync patterns.
            if !Self::is_confirmed(b, &h, next) {
                pos += 1;
                continue;
            }
            assert(step_at(b@, pos as int, first) == Step::Frame(h));
            let ghost before = f;
            proof {
                f = with_frame(b@, f, pos as int, h);
            }
            let peek_len: usize = if h.frame_len < 64 {
                h.frame_len
            } else {
                64
            };
            let start = slice_subrange(b, pos, pos + peek_len);
            assert(start@ =~= peek(b@, pos as int, h));
            if !is_tag_frame(start, &h) {
                offsets.push(pos as u64);
                if h.bitrate_kbps < min_kbps {
                    min_kbps = h.bitrate_kbps;
                }
                if h.bitrate_kbps > max_kbps {
                    max_kbps = h.bitrate_kbps;
                }
                sum_kbps = sum_kbps + h.bitrate_kbps as u64;
                audio_end = next as u64;
                assert(f.offsets =~= offsets@);
            }
            if first.is_none() {
                first = Some(h);
            }
            pos = next;
        }
        let head = match first {
            None => return Err(IndexError::NoFrames),
            Some(h) => h,
        };
        let n: usize = offsets.len();
        if n == 0 {
            return Err(IndexError::NoAudio);
        }
        proof {
            let (s, m) = (sum_kbps as int, n as int);
            assert(s / m <= 320) by (nonlinear_arith)
                requires
                    0 <= s <= 320 * m,
                    m > 0,
            ;
        }
        let avg_kbps: u32 = (sum_kbps / n as u64) as u32;
        Ok(
            Mp3Index {
                offsets,
                samples_per_frame: head.samples,
                sample_rate: head.sample_rate,
                channels: head.channels,
                min_kbps,
                max_kbps,
                avg_kbps,
                audio_end,
            },
        )
    }

    fn is_confirmed(b: &[u8], h: &FrameHeader, next: usize) -> (r: bool)
        requires
            next <= b@.len(),
        ensures
            r == confirmed(b@, *h, next as int),
    {
        let len: usize = b.len();
        if len - next < 4 {
            return true;
        }
        let tag = vec![0x54u8, 0x41, 0x47];
        let ape = vec![0x41u8, 0x50, 0x45, 0x54, 0x41, 0x47, 0x45, 0x58];
        assert(tag@ =~= seq![0x54u8, 0x41, 0x47]);
        assert(ape@ =~= seq![0x41u8, 0x50, 0x45, 0x54, 0x41, 0x47, 0x45, 0x58]);
        if matches_at(b, next, &tag) || matches_at(b, next, &ape) {
            return true;
        }
        let rest = slice_subrange(b, next, len);
        assert(rest@ =~= b@.skip(next as int));
        match parse_header(rest) {
            Some(n) => h.compatible(&n),
            None => false,
        }
    }

    /// Whether the frames lie one behind the other, as in an index that was just built.
    pub fn in_order(&self) -> (r: bool)
        ensures
            r == self.wf(),
    {
        let n: usize = self.offsets.len();
        let mut i: usize = 0;
        while i < n
            invariant
                n == self.offsets@.len(),
                i <= n,
                forall|a: int, b: int|
                    0 <= a < b < i ==> (#[trigger] self.offsets@[a]) + 24 <= #[trigger] self.offsets@[b],
                forall|a: int| 0 <= a < i ==> (#[trigger] self.offsets@[a]) + 24 <= self.audio_end,
            decreases n - i,
        {
            let at = self.offsets[i];
            if self.audio_end < 24 || at > self.audio_end - 24 {
                assert(!(self.offsets@[i as int] + 24 <= self.audio_end));
                return false;
            }
            if i > 0 {
                let before = self.offsets[i - 1];
                if at < 24 || before > at - 24 {
                    assert(!(self.offsets@[i - 1] + 24 <= self.offsets@[i as int]));
                    return false;
                }
            }
            i += 1;
        }
        true
    }

    pub fn frames(&self) -> (r: usize)
        ensures
            r == self.offsets@.len(),
    {
        self.offsets.len()
    }

    pub fn total_samples(&self) -> (r: u64)
        requires
            self.offsets@.len() * self.samples_per_frame <= u64::MAX,
        ensures
            r == self.offsets@.len() * self.samples_per_frame,
    {
        self.offsets.len() as u64 * self.samples_per_frame as u64
    }

    pub fn is_vbr(&self) -> (r: bool)
        ensures
            r == (self.min_kbps != self.max_kbps),
    {
        self.min_kbps != self.max_kbps
    }

    /// Where frame `i` ends: at the next one, or where the audio ends.
    pub open spec fn end_of(&self, i: int) -> u64 {
        if i + 1 < self.offsets@.len() {
            self.offsets@[i + 1]
        } else {
            self.audio_end
        }
    }

    /// Byte offset just past frame `i`.
    pub fn frame_end(&self, i: usize) -> (r: u64)
        requires
            i < usize::MAX,
        ensures
            r == self.end_of(i as int),
    {
        if i + 1 < self.offsets.len() {
            self.offsets[i + 1]
        } else {
            self.audio_end
        }
    }
}

// ---- What an index tells ----

/// The header of the frame at byte `o`.
pub open spec fn header_at(b: Seq<u8>, o: int) -> FrameHeader {
    header_of(b.skip(o))->0
}

/// There is an audio frame at byte `o`, all of it in the file, with the rate and the number of
/// samples given; it is no tag.
pub open spec fn audio_frame(b: Seq<u8>, o: int, rate: u32, samples: u32) -> bool {
    &&& header_of(b.skip(o)) is Some
    &&& header_at(b, o).sample_rate == rate
    &&& header_at(b, o).samples == samples
    &&& o + header_at(b, o).frame_len <= b.len()
    &&& !tag_frame(peek(b, o, header_at(b, o)), header_at(b, o))
}

/// The bitrate of the frame at byte `o`.
pub open spec fn kbps_at(b: Seq<u8>, o: int) -> u32 {
    header_at(b, o).bitrate_kbps
}

/// What holds of all that was found before `pos`.
spec fn found_well(b: Seq<u8>, f: Found, pos: int) -> bool {
    let n = f.offsets.len() as int;
    &&& f.first matches Some(h) ==> h.samples == samples_of(h.version)
    &&& n > 0 ==> f.first is Some
    &&& forall|i: int| 0 <= i < n ==> audio_frame(
        b,
        (#[trigger] f.offsets[i]) as int,
        f.first->0.sample_rate,
        f.first->0.samples,
    )
    &&& forall|i: int, j: int|
        0 <= i < j < n ==> (#[trigger] f.offsets[i]) + header_at(b, f.offsets[i] as int).frame_len <= #[trigger] f.offsets[j]
    &&& forall|i: int| 0 <= i < n ==> (#[trigger] f.offsets[i]) + header_at(b, f.offsets[i] as int).frame_len <= pos
    &&& n > 0 ==> f.audio_end == f.offsets.last() + header_at(b, f.offsets.last() as int).frame_len
    &&& forall|i: int| 0 <= i < n ==> f.min_kbps <= kbps_at(b, (#[trigger] f.offsets[i]) as int) <= f.max_kbps
    &&& n > 0 ==> exists|i: int| 0 <= i < n && kbps_at(b, (#[trigger] f.offsets[i]) as int) == f.min_kbps
    &&& n > 0 ==> exists|i: int| 0 <= i < n && kbps_at(b, (#[trigger] f.offsets[i]) as int) == f.max_kbps
    &&& n == 0 ==> f.min_kbps == u32::MAX && f.max_kbps == 0 && f.sum_kbps == 0
    &&& n > 0 ==> n * f.min_kbps <= f.sum_kbps <= n * f.max_kbps
}

proof fn lemma_with_frame(b: Seq<u8>, f: Found, pos: int, h: FrameHeader)
    requires
        found_well(b, f, pos),
        0 <= pos,
        b.len() <= u64::MAX,
        step_at(b, pos, f.first) == Step::Frame(h),
    ensures
        found_well(b, with_frame(b, f, pos, h), pos + h.frame_len),
{
    let g = with_frame(b, f, pos, h);
    lemma_header_range(b.skip(pos));
    if tag_frame(peek(b, pos, h), h) {
        assert(g.offsets == f.offsets);
    } else {
        let n = f.offsets.len() as int;
        assert(header_at(b, pos) == h);
        assert(g.offsets[n] == pos);
        assert(g.offsets.last() == pos);
        assert forall|i: int| 0 <= i < n implies #[trigger] g.offsets[i] == f.offsets[i] by {}
        if n > 0 {
            let i = choose|i: int| 0 <= i < n && kbps_at(b, (#[trigger] f.offsets[i]) as int) == f.min_kbps;
            let j = choose|j: int| 0 <= j < n && kbps_at(b, (#[trigger] f.offsets[j]) as int) == f.max_kbps;
            assert(kbps_at(b, g.offsets[i] as int) == f.min_kbps && kbps_at(b, g.offsets[j] as int) == f.max_kbps);
            let (lo, hi, k) = (f.min_kbps as int, f.max_kbps as int, h.bitrate_kbps as int);
            let (low, high) = (g.min_kbps as int, g.max_kbps as int);
            assert((n + 1) * low <= n * lo + k && n * hi + k <= (n + 1) * high) by (nonlinear_arith)
                requires
                    n > 0,
                    low <= lo,
                    low <= k,
                    hi <= high,
                    k <= high,
            ;
        } else {
            assert(kbps_at(b, g.offsets[0] as int) == h.bitrate_kbps);
        }
    }
}

proof fn lemma_found_from(b: Seq<u8>, pos: int, f: Found)
    requires
        found_well(b, f, pos),
        0 <= pos,
        b.len() <= u64::MAX,
    ensures
        exists|end: int| found_well(b, found_from(b, pos, f), end),
    decreases b.len() - pos,
{
    lemma_header_range(b.skip(pos));
    if pos + 4 > b.len() {
        assert(found_well(b, found_from(b, pos, f), pos));
    } else {
        match step_at(b, pos, f.first) {
            Step::Skip => {
                assert(found_well(b, f, pos + 1));
                lemma_found_from(b, pos + 1, f);
            },
            Step::Stop => {
                assert(found_well(b, found_from(b, pos, f), pos));
            },
            Step::Frame(h) => {
                lemma_with_frame(b, f, pos, h);
                lemma_found_from(b, pos + h.frame_len, with_frame(b, f, pos, h));
            },
        }
    }
}

/// The index of a file lists audio frames alone, one behind the other, all of one rate and one
/// number of samples and all of them whole. The audio ends where the last of them does. The
/// lowest and the highest bitrate are those of some frames, and the average lies between them.
pub proof fn law_index_lists_the_audio_frames(b: Seq<u8>, index: Mp3Index)
    requires
        b.len() <= u64::MAX,
        index.is_index_of(found_in(b)),
    ensures
        index.offsets@.len() > 0,
        forall|i: int| 0 <= i < index.offsets@.len() ==> audio_frame(
            b,
            (#[trigger] index.offsets@[i]) as int,
            index.sample_rate,
            index.samples_per_frame,
        ),
        forall|i: int, j: int|
            0 <= i < j < index.offsets@.len() ==> (#[trigger] index.offsets@[i]) < index.offsets@[i] + header_at(
                b,
                index.offsets@[i] as int,
            ).frame_len <= #[trigger] index.offsets@[j],
        index.audio_end == index.offsets@.last() + header_at(b, index.offsets@.last() as int).frame_len,
        forall|i: int| 0 <= i < index.offsets@.len() ==> index.min_kbps <= kbps_at(
            b,
            (#[trigger] index.offsets@[i]) as int,
        ) <= index.max_kbps,
        exists|i: int| 0 <= i < index.offsets@.len() && kbps_at(b, (#[trigger] index.offsets@[i]) as int) == index.min_kbps,
        exists|i: int| 0 <= i < index.offsets@.len() && kbps_at(b, (#[trigger] index.offsets@[i]) as int) == index.max_kbps,
        index.min_kbps <= index.avg_kbps <= index.max_kbps,
{
    let tag = id3v2_size(b);
    assert(found_well(b, nothing_found(tag), tag));
    lemma_found_from(b, tag, nothing_found(tag));
    let f = found_in(b);
    let end = choose|end: int| found_well(b, f, end);
    assert(found_well(b, f, end));
    let (n, sum, lo, hi) = (f.offsets.len() as int, f.sum_kbps, f.min_kbps as int, f.max_kbps as int);
    assert(lo <= sum / n <= hi) by (nonlinear_arith)
        requires
            n > 0,
            n * lo <= sum <= n * hi,
    ;
    assert forall|i: int, j: int| 0 <= i < j < index.offsets@.len() implies (#[trigger] index.offsets@[i])
        < index.offsets@[i] + header_at(b, index.offsets@[i] as int).frame_len <= #[trigger] index.offsets@[j] by {
        lemma_header_range(b.skip(index.offsets@[i] as int));
    }
}

/// The frame at `o` is whole, of the given rate, no tag, and followed by the end of the file, by
/// a tag ("TAG" or "APETAGEX") or by another frame of that rate.
pub open spec fn sound_frame(b: Seq<u8>, o: int, rate: u32) -> bool {
    let next = o + header_at(b, o).frame_len;
    &&& header_of(b.skip(o)) is Some
    &&& header_at(b, o).sample_rate == rate
    &&& next <= b.len()
    &&& !tag_frame(peek(b, o, header_at(b, o)), header_at(b, o))
    &&& {
        ||| next + 4 > b.len()
        ||| b.subrange(next, next + 3) == seq![0x54u8, 0x41, 0x47]
        ||| next + 8 <= b.len() && b.subrange(next, next + 8) == seq![0x41u8, 0x50, 0x45, 0x54, 0x41, 0x47, 0x45, 0x58]
        ||| header_of(b.skip(next)) is Some && header_at(b, next).sample_rate == rate
    }
}

/// No frame is missed: where one stands right behind a frame of the index, it is the next one.
/// The last frame of the index has none behind it.
pub proof fn law_index_misses_no_frame(b: Seq<u8>, index: Mp3Index, i: int)
    requires
        b.len() <= u64::MAX,
        index.is_index_of(found_in(b)),
        0 <= i < index.offsets@.len(),
    ensures
        ({
            let next = index.offsets@[i] + header_at(b, index.offsets@[i] as int).frame_len;
            sound_frame(b, next, index.sample_rate) ==> i + 1 < index.offsets@.len() && index.offsets@[i + 1] == next
        }),
{
    let tag = id3v2_size(b);
    let f = nothing_found(tag);
    lemma_next_is_found(b, tag, f, i);
    lemma_first_is_listed(b, tag, f);
    let first = found_in(b).first->0;
    let next = index.offsets@[i] + header_at(b, index.offsets@[i] as int).frame_len;
    if sound_frame(b, next, index.sample_rate) {
        lemma_rate_tells_version(b.skip(next), first);
        let h = header_at(b, next);
        let end = next + h.frame_len;
        if end + 4 <= b.len() {
            if b.subrange(end, end + 3) == seq![0x54u8, 0x41, 0x47] {
                assert(holds(b, end, seq![0x54u8, 0x41, 0x47]));
            } else if end + 8 <= b.len() && b.subrange(end, end + 8) == seq![
                0x41u8,
                0x50,
                0x45,
                0x54,
                0x41,
                0x47,
                0x45,
                0x58,
            ] {
                assert(holds(b, end, seq![0x41u8, 0x50, 0x45, 0x54, 0x41, 0x47, 0x45, 0x58]));
            } else {
                lemma_rate_tells_version(b.skip(end), first);
            }
        }
        assert(step_at(b, next, Some(first)) == Step::Frame(h));
    }
}

/// Each version has its own rates.
proof fn lemma_rate_tells_version(x: Seq<u8>, first: FrameHeader)
    requires
        header_of(x) is Some,
        header_of(x)->0.sample_rate == first.sample_rate,
        exists|y: Seq<u8>| #[trigger] header_of(y) == Some(first),
    ensures
        header_of(x)->0.version == first.version,
{
    let y = choose|y: Seq<u8>| #[trigger] header_of(y) == Some(first);
    law_headers_follow_the_standard(x);
    law_headers_follow_the_standard(y);
}

/// The first header that was found stands in the file, and stays what it is.
proof fn lemma_first_is_listed(b: Seq<u8>, pos: int, f: Found)
    ensures
        f.first is Some ==> found_from(b, pos, f).first == f.first,
        f.first is None && found_from(b, pos, f).first is Some ==> exists|y: Seq<u8>| #[trigger]
            header_of(y) == found_from(b, pos, f).first,
    decreases b.len() - pos,
{
    lemma_header_range(b.skip(pos));
    if pos + 4 > b.len() || pos < 0 {
    } else {
        match step_at(b, pos, f.first) {
            Step::Skip => {
                lemma_first_is_listed(b, pos + 1, f);
            },
            Step::Stop => {},
            Step::Frame(h) => {
                assert(header_of(b.skip(pos)) == Some(h));
                lemma_first_is_listed(b, pos + h.frame_len, with_frame(b, f, pos, h));
            },
        }
    }
}

/// What was found stays at the front.
proof fn lemma_found_stays(b: Seq<u8>, pos: int, f: Found)
    ensures
        f.offsets.is_prefix_of(found_from(b, pos, f).offsets),
    decreases b.len() - pos,
{
    lemma_header_range(b.skip(pos));
    if pos + 4 > b.len() || pos < 0 {
    } else {
        match step_at(b, pos, f.first) {
            Step::Skip => {
                lemma_found_stays(b, pos + 1, f);
            },
            Step::Stop => {},
            Step::Frame(h) => {
                let g = with_frame(b, f, pos, h);
                lemma_found_stays(b, pos + h.frame_len, g);
                let all = found_from(b, pos + h.frame_len, g).offsets;
                assert(all.subrange(0, f.offsets.len() as int) =~= f.offsets) by {
                    assert(g.offsets =~= all.subrange(0, g.offsets.len() as int));
                    assert forall|k: int| 0 <= k < f.offsets.len() implies all[k] == f.offsets[k] by {
                        assert(g.offsets[k] == all[k]);
                    }
                }
            },
        }
    }
}

proof fn lemma_next_is_found(b: Seq<u8>, pos: int, f: Found, i: int)
    requires
        0 <= pos,
        b.len() <= u64::MAX,
        f.offsets.len() <= i < found_from(b, pos, f).offsets.len(),
    ensures
        ({
            let all = found_from(b, pos, f);
            let next = all.offsets[i] + header_at(b, all.offsets[i] as int).frame_len;
            &&& all.first is Some
            &&& step_at(b, next, all.first) matches Step::Frame(h) ==> tag_frame(peek(b, next, h), h) || (i + 1
                < all.offsets.len() && all.offsets[i + 1] == next)
        }),
    decreases b.len() - pos,
{
    lemma_header_range(b.skip(pos));
    if pos + 4 > b.len() {
    } else {
        match step_at(b, pos, f.first) {
            Step::Skip => {
                lemma_next_is_found(b, pos + 1, f, i);
            },
            Step::Stop => {},
            Step::Frame(h) => {
                let g = with_frame(b, f, pos, h);
                let next = pos + h.frame_len;
                if i >= g.offsets.len() {
                    lemma_next_is_found(b, next, g, i);
                } else {
                    let all = found_from(b, next, g);
                    lemma_found_stays(b, next, g);
                    lemma_first_is_listed(b, next, g);
                    assert(g.offsets[i] == all.offsets[i]);
                    assert(all.offsets[i] == pos);
                    match step_at(b, next, all.first) {
                        Step::Frame(h2) => {
                            if !tag_frame(peek(b, next, h2), h2) {
                                let g2 = with_frame(b, g, next, h2);
                                lemma_header_range(b.skip(next));
                                lemma_found_stays(b, next + h2.frame_len, g2);
                                assert(next + 4 <= b.len());
                                assert(all == found_from(b, next + h2.frame_len, g2));
                                assert(g2.offsets[i + 1] == next);
                                assert(all.offsets[i + 1] == g2.offsets[i + 1]);
                            }
                        },
                        _ => {},
                    }
                }
            },
        }
    }
}

/// A frame is a tag where the words "Xing" or "Info" stand behind side information that is all
/// zeros, or "VBRI" 32 bytes behind the header.
pub proof fn law_tag_frames_hold_their_words(frame: Seq<u8>, h: FrameHeader)
    ensures
        ({
            let side = if h.version == MpegVersion::V1 {
                if h.channels == 1 {
                    17int
                } else {
                    32
                }
            } else if h.channels == 1 {
                9
            } else {
                17
            };
            let at = 4 + side;
            tag_frame(frame, h) <==> {
                ||| frame.len() >= at + 4 && (frame.subrange(at, at + 4) == seq![0x58u8, 0x69, 0x6E, 0x67]
                    || frame.subrange(at, at + 4) == seq![0x49u8, 0x6E, 0x66, 0x6F]) && frame.subrange(4, at) == Seq::new(
                    side as nat,
                    |i: int| 0u8,
                )
                ||| frame.len() >= 40 && frame.subrange(36, 40) == seq![0x56u8, 0x42, 0x52, 0x49]
            }
        }),
{
    let at = 4 + h.side_len();
    if frame.len() >= at + 4 {
        assert(holds(frame, at, xing()) <==> frame.subrange(at, at + 4) =~= seq![0x58u8, 0x69, 0x6E, 0x67]);
        assert(holds(frame, at, info()) <==> frame.subrange(at, at + 4) =~= seq![0x49u8, 0x6E, 0x66, 0x6F]);
        let zeros = Seq::new(h.side_len() as nat, |i: int| 0u8);
        if forall|i: int| 4 <= i < at ==> #[trigger] frame[i] == 0 {
            assert(frame.subrange(4, at) =~= zeros);
        }
        if frame.subrange(4, at) == zeros {
            assert forall|i: int| 4 <= i < at implies #[trigger] frame[i] == 0 by {
                assert(frame.subrange(4, at)[i - 4] == zeros[i - 4]);
            }
        }
    }
    if frame.len() >= 40 {
        assert(holds(frame, 36, vbri()) <==> frame.subrange(36, 40) =~= seq![0x56u8, 0x42, 0x52, 0x49]);
    }
}

// ---- The bit reservoir ----

/// The bytes of a checksum behind the header, by the protection bit.
pub open spec fn crc_len(b1: u8) -> int {
    if b1 as int % 2 == 0 {
        2
    } else {
        0
    }
}

/// How far back the audio data of a frame starts: 9 bits in MPEG-1, 8 in the others.
pub open spec fn data_begin(b: Seq<u8>, h: FrameHeader) -> int {
    let s = 4 + crc_len(b[1]);
    if h.version == MpegVersion::V1 {
        b[s] as int * 2 + b[s + 1] as int / 128
    } else {
        b[s] as int
    }
}

impl Mp3Index {
    /// The header of frame `i`, with what follows it.
    pub open spec fn frame_at(&self, b: Seq<u8>, i: int) -> Seq<u8> {
        b.skip(self.offsets@[i] as int)
    }

    /// Frame `i` starts inside the file, with at least `n` bytes left.
    pub open spec fn readable(&self, b: Seq<u8>, i: int, n: int) -> bool {
        self.offsets@[i] + n <= b.len()
    }

    /// How many bytes frame `i` borrows from earlier ones, and how many it holds for itself and
    /// later ones. None if the file does not have it.
    pub open spec fn side(&self, b: Seq<u8>, i: int) -> Result<(int, int), IndexError> {
        if !self.readable(b, i, 8) {
            Err(IndexError::ShortFile)
        } else {
            let f = self.frame_at(b, i);
            match header_of(f) {
                None => Err(IndexError::BadHeader),
                Some(h) => {
                    let own = self.end_of(i) - self.offsets@[i] - (4 + crc_len(f[1]) + h.side_len());
                    Ok((data_begin(f, h), if own < 0 { 0 } else { own }))
                },
            }
        }
    }

    /// The frame that holds the byte `back` bytes before frame `i`'s own data.
    pub open spec fn reach(&self, b: Seq<u8>, i: int, back: int) -> Result<int, IndexError>
        decreases i,
    {
        if back <= 0 || i <= 0 {
            Ok(i)
        } else {
            match self.side(b, i - 1) {
                Err(e) => Err(e),
                Ok((_, own)) => if own >= back {
                    Ok(i - 1)
                } else {
                    self.reach(b, i - 1, back - own)
                },
            }
        }
    }

    /// The earliest frame whose data frame `j` reads.
    #[verifier::opaque]
    pub open spec fn reservoir_from(&self, b: Seq<u8>, j: int) -> Result<int, IndexError> {
        match self.side(b, j) {
            Err(e) => Err(e),
            Ok((back, _)) => self.reach(b, j, back),
        }
    }

    /// The earliest frame read by any of the frames `[j, k]`, or `start` if that is earlier.
    pub open spec fn earliest(&self, b: Seq<u8>, start: int, j: int, k: int) -> Result<int, IndexError>
        decreases k - j + 1,
    {
        if j > k {
            Ok(start)
        } else {
            match self.reservoir_from(b, j) {
                Err(e) => Err(e),
                Ok(i) => self.earliest(
                    b,
                    if i < start {
                        i
                    } else {
                        start
                    },
                    j + 1,
                    k,
                ),
            }
        }
    }

    /// How many bytes frame `i` borrows from earlier ones, and how many it holds.
    fn side_info(&self, b: &[u8], i: usize) -> (r: Result<(u64, u64), IndexError>)
        requires
            self.wf(),
            i < self.offsets@.len(),
        ensures
            match r {
                Ok((x, y)) => self.side(b@, i as int) == Ok::<(int, int), IndexError>((x as int, y as int)),
                Err(e) => self.side(b@, i as int) == Err::<(int, int), IndexError>(e),
            },
    {
        let len: usize = b.len();
        let at = self.offsets[i];
        if len < 8 || at > (len - 8) as u64 {
            return Err(IndexError::ShortFile);
        }
        let f = slice_subrange(b, at as usize, len);
        assert(f@ =~= self.frame_at(b@, i as int));
        match parse_header(f) {
            None => Err(IndexError::BadHeader),
            Some(h) => {
                let crc: usize = if f[1] % 2 == 0 {
                    2
                } else {
                    0
                };
                let s: usize = 4 + crc;
                let begin: u64 = match h.version {
                    MpegVersion::V1 => f[s] as u64 * 2 + (f[s + 1] / 128) as u64,
                    _ => f[s] as u64,
                };
                let n: usize = self.offsets.len();
                assert(i < n);
                let frame_len: u64 = self.frame_end(i) - at;
                let head: u64 = (4 + crc + h.side_info_len()) as u64;
                Ok((begin, frame_len.saturating_sub(head)))
            },
        }
    }

    /// The earliest frame whose audio data frame `j` reads from.
    fn reservoir_start(&self, b: &[u8], j: usize) -> (r: Result<usize, IndexError>)
        requires
            self.wf(),
            j < self.offsets@.len(),
        ensures
            match r {
                Ok(i) => self.reservoir_from(b@, j as int) == Ok::<int, IndexError>(i as int) && i <= j,
                Err(e) => self.reservoir_from(b@, j as int) == Err::<int, IndexError>(e),
            },
    {
        proof {
            reveal(Mp3Index::reservoir_from);
        }
        let mut back: u64 = match self.side_info(b, j) {
            Ok((x, _)) => x,
            Err(e) => return Err(e),
        };
        let mut i: usize = j;
        while back > 0 && i > 0
            invariant
                self.wf(),
                i <= j < self.offsets@.len(),
                self.reservoir_from(b@, j as int) == self.reach(b@, i as int, back as int),
            decreases i,
        {
            i -= 1;
            let own = match self.side_info(b, i) {
                Ok((_, y)) => y,
                Err(e) => return Err(e),
            };
            if own >= back {
                return Ok(i);
            }
            back = back - own;
        }
        Ok(i)
    }

    /// The frame to start decoding at for frame `k`: two before it, or earlier where one of the
    /// three borrows from further back.
    pub open spec fn start_for(&self, b: Seq<u8>, k: int) -> Result<int, IndexError> {
        let n = self.offsets@.len() as int;
        let k = if k < n { k } else { n - 1 };
        let lo = if k < 2 { 0 } else { k - 2 };
        self.earliest(b, lo, lo, k)
    }

    /// Earliest frame to feed a decoder so that frame `k` comes out exactly as in a full decode.
    ///
    /// Frame `k` depends on the two frames before it (MDCT overlap, and the synthesis
    /// filterbank state for single-granule MPEG-2 frames), and each of those three frames may
    /// take its audio data from up to 511 bytes back — the bit reservoir — which at low
    /// bitrates spans several frames.
    pub fn decode_start(&self, b: &[u8], k: usize) -> (r: Result<usize, IndexError>)
        requires
            self.wf(),
            self.offsets@.len() > 0,
        ensures
            match r {
                Ok(i) => self.start_for(b@, k as int) == Ok::<int, IndexError>(i as int) && i <= k,
                Err(e) => self.start_for(b@, k as int) == Err::<int, IndexError>(e),
            },
    {
        let n: usize = self.offsets.len();
        let top: usize = if k < n {
            k
        } else {
            n - 1
        };
        let lo: usize = if top < 2 {
            0
        } else {
            top - 2
        };
        let mut start: usize = lo;
        let mut j: usize = lo;
        while j <= top
            invariant
                self.wf(),
                lo <= j <= top + 1,
                start <= lo <= top < n == self.offsets@.len(),
                top <= k,
                self.start_for(b@, k as int) == self.earliest(b@, start as int, j as int, top as int),
            decreases top + 1 - j,
        {
            let i = match self.reservoir_start(b, j) {
                Ok(i) => i,
                Err(e) => return Err(e),
            };
            if i < start {
                start = i;
            }
            j += 1;
        }
        Ok(start)
    }

    /// The audio data bytes in frame `i`: what follows its header, checksum and side information.
    pub open spec fn main_data(&self, b: Seq<u8>, i: int) -> Result<Seq<u8>, IndexError> {
        if !self.readable(b, i, 4) {
            Err(IndexError::ShortFile)
        } else {
            let f = self.frame_at(b, i);
            match header_of(f) {
                None => Err(IndexError::BadHeader),
                Some(h) => {
                    let from = self.offsets@[i] + 4 + crc_len(f[1]) + h.side_len();
                    let to = self.end_of(i) as int;
                    if from >= to {
                        Ok(Seq::empty())
                    } else if to > b.len() {
                        Err(IndexError::ShortFile)
                    } else {
                        Ok(b.subrange(from, to))
                    }
                },
            }
        }
    }

    /// The audio data of as many frames before frame `first` as it takes to have `n` bytes.
    pub open spec fn stream_before(&self, b: Seq<u8>, first: int, n: int) -> Result<Seq<u8>, IndexError>
        decreases first,
    {
        if n <= 0 || first <= 0 {
            Ok(Seq::empty())
        } else {
            match self.main_data(b, first - 1) {
                Err(e) => Err(e),
                Ok(data) => match self.stream_before(b, first - 1, n - data.len()) {
                    Err(e) => Err(e),
                    Ok(before) => Ok(before + data),
                },
            }
        }
    }

    fn data_of(&self, b: &[u8], i: usize) -> (r: Result<Vec<u8>, IndexError>)
        requires
            self.wf(),
            i < self.offsets@.len(),
        ensures
            match r {
                Ok(d) => self.main_data(b@, i as int) == Ok::<Seq<u8>, IndexError>(d@),
                Err(e) => self.main_data(b@, i as int) == Err::<Seq<u8>, IndexError>(e),
            },
    {
        let len: usize = b.len();
        let at = self.offsets[i];
        if len < 4 || at > (len - 4) as u64 {
            return Err(IndexError::ShortFile);
        }
        let f = slice_subrange(b, at as usize, len);
        assert(f@ =~= self.frame_at(b@, i as int));
        match parse_header(f) {
            None => Err(IndexError::BadHeader),
            Some(h) => {
                let crc: u64 = if f[1] % 2 == 0 {
                    2
                } else {
                    0
                };
                let n: usize = self.offsets.len();
                assert(i < n);
                let to = self.frame_end(i);
                let head: u64 = 4 + crc + h.side_info_len() as u64;
                if to - at <= head {
                    let none: Vec<u8> = Vec::new();
                    assert(none@ =~= Seq::<u8>::empty());
                    return Ok(none);
                }
                if to > len as u64 {
                    return Err(IndexError::ShortFile);
                }
                Ok(copy_range(b, (at + head) as usize, to as usize))
            },
        }
    }

    fn gather(&self, b: &[u8], first: usize, n: usize) -> (r: Result<Vec<u8>, IndexError>)
        requires
            self.wf(),
            first <= self.offsets@.len(),
        ensures
            match r {
                Ok(d) => self.stream_before(b@, first as int, n as int) == Ok::<Seq<u8>, IndexError>(d@),
                Err(e) => self.stream_before(b@, first as int, n as int) == Err::<Seq<u8>, IndexError>(e),
            },
    {
        let ghost whole = self.stream_before(b@, first as int, n as int);
        let mut rest: Vec<u8> = Vec::new();
        let mut i: usize = first;
        assert(whole matches Ok(s) ==> s + rest@ =~= s);
        while rest.len() < n && i > 0
            invariant
                self.wf(),
                i <= first <= self.offsets@.len(),
                match self.stream_before(b@, i as int, n - rest@.len()) {
                    Ok(s) => whole == Ok::<Seq<u8>, IndexError>(s + rest@),
                    Err(e) => whole == Err::<Seq<u8>, IndexError>(e),
                },
                whole == self.stream_before(b@, first as int, n as int),
            decreases i,
        {
            i -= 1;
            let ghost had = rest@;
            let data = match self.data_of(b, i) {
                Ok(d) => d,
                Err(e) => return Err(e),
            };
            let mut more = data;
            append_bytes(&mut more, &rest);
            rest = more;
            proof {
                let d = self.main_data(b@, i as int)->Ok_0;
                assert(rest@ == d + had);
                match self.stream_before(b@, i as int, n - rest@.len()) {
                    Ok(s) => {
                        assert((s + d) + had =~= s + rest@);
                    },
                    Err(e) => {},
                }
            }
        }
        proof {
            let none = Seq::<u8>::empty();
            assert(none + rest@ =~= rest@);
        }
        Ok(rest)
    }

    /// The last `n` bytes of the main-data stream (the bit reservoir) before frame `first`,
    /// front-padded with zeros if the stream is shorter.
    pub fn reservoir_before(&self, b: &[u8], first: usize, n: usize) -> (r: Result<Vec<u8>, IndexError>)
        requires
            self.wf(),
            first <= self.offsets@.len(),
        ensures
            match self.stream_before(b@, first as int, n as int) {
                Ok(s) => r is Ok && r->Ok_0@ == last_bytes(s, n as int),
                Err(e) => r == Err::<Vec<u8>, IndexError>(e),
            },
    {
        let stream = match self.gather(b, first, n) {
            Ok(s) => s,
            Err(e) => return Err(e),
        };
        let mut out: Vec<u8> = Vec::new();
        if stream.len() < n {
            push_zeros(&mut out, n - stream.len());
            append_bytes(&mut out, &stream);
        } else {
            append_bytes(&mut out, slice_subrange(&stream, stream.len() - n, stream.len()));
        }
        assert(out@ =~= last_bytes(stream@, n as int));
        Ok(out)
    }
}

/// The last `n` bytes of `s`, with zeros in front if it is shorter.
pub open spec fn last_bytes(s: Seq<u8>, n: int) -> Seq<u8> {
    if s.len() < n {
        zeros(n - s.len()) + s
    } else {
        s.skip(s.len() - n)
    }
}

} // verus!

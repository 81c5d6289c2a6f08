//! Lossless cutting of MP3 files: the original frames are copied, never re-encoded.
//!
//! A track starting in frame `k` gets frames `k-2..` (so the MDCT overlap and filterbank are
//! primed), preceded by one silent *carrier* frame whose main data holds the 511 bytes of bit
//! reservoir those frames may read from. That bounds the warm-up to under four frames at any
//! bitrate, which the Info/LAME header's 12-bit encoder delay can always describe, so gapless
//! decoders trim the output to exactly `[start, end)`. Players that ignore the LAME header play
//! up to about 0.1 s extra at the edges.
use vstd::prelude::*;
use crate::bytes::{append_bytes, be_bytes, copy_range, push_be, push_zeros, zeros};
use crate::mp3index::{
    bitrates_v1, bitrates_v2, data_begin, header_of, info, kbps_of, last_bytes, lemma_header_range, parse_header, samples_of,
    tag_frame, xing, IndexError, Mp3Index, MpegVersion,
};
use crate::tags::{id3_tag, id3v2, Tags};

verus! {

/// Samples every MP3 decoder outputs before the first real sample (LAME convention).
pub const DECODER_DELAY: u64 = 529;

/// The LAME header stores delay and padding in 12 bits each.
pub const MAX_LAME_FIELD: u64 = 4095;

/// Largest possible `main_data_begin`: how far back a frame can read the bit reservoir.
pub const MAX_RESERVOIR: usize = 511;

/// The same for MPEG-2 and 2.5, which have 8 bits for it.
pub const SHORT_RESERVOIR: usize = 255;

/// Frames copied before the one containing the track start.
pub const PRIME_FRAMES: u64 = 2;

/// Why a track could not be cut.
#[derive(Clone, Copy, Debug, PartialEq, Eq, Structural)]
pub enum CutError {
    /// The track holds no samples of the recording.
    Empty,
    /// The frames have a header that no tag frame can be made from.
    UnexpectedHeader,
    /// No bitrate makes frames large enough.
    NoBitrate,
    /// The track is as long as the size field of the Info header can count, and starts over.
    Uncountable,
    /// The file does not hold what its index says.
    Index(IndexError),
}

/// Which frames to copy and the LAME trim values for one track.
#[derive(Clone, Copy, Debug, PartialEq, Eq, Structural)]
pub struct Mp3Cut {
    pub first_frame: usize,
    /// Source frames copied.
    pub frames: usize,
    /// Whether a reservoir carrier frame goes in front.
    pub carrier: bool,
    pub enc_delay: u64,
    pub enc_padding: u64,
}

/// The frame copied first for a track starting at `start`.
pub open spec fn first_copied(spf: int, start: int) -> int {
    let k = start / spf;
    if k < PRIME_FRAMES {
        0
    } else {
        k - PRIME_FRAMES
    }
}

/// The sample of the recording that the first sample of the output stands for: that of the
/// carrier, if there is one.
pub open spec fn output_origin(spf: int, start: int) -> int {
    let first = first_copied(spf, start);
    if first > 0 {
        first * spf - spf
    } else {
        0
    }
}

/// One frame past the last one copied.
pub open spec fn copied_end(spf: int, n: int, end: int) -> int {
    let last = (end + spf - 1) / spf;
    if last < n {
        last
    } else {
        n
    }
}

/// A cut in whole numbers.
pub struct Cut {
    pub first: int,
    pub frames: int,
    pub enc_delay: int,
    pub enc_padding: int,
}

impl Mp3Cut {
    /// This is the cut `c`; a carrier goes in front unless it starts with the first frame.
    pub open spec fn is_cut(self, c: Cut) -> bool {
        &&& self.first_frame == c.first
        &&& self.frames == c.frames
        &&& self.carrier == (c.first > 0)
        &&& self.enc_delay == c.enc_delay
        &&& self.enc_padding == c.enc_padding
    }
}

/// The cut for `[start, end)` of a recording of `n` frames of `spf` samples.
pub open spec fn cut_for(spf: int, n: int, start: int, end: int) -> Cut {
    let first = first_copied(spf, start);
    let lead = output_origin(spf, start);
    let skip = start - lead;
    let enc_delay = if skip < DECODER_DELAY { 0 } else { skip - DECODER_DELAY };
    let from = lead + enc_delay + DECODER_DELAY;
    let frames = copied_end(spf, n, end) - first;
    let decoded = (frames + if first > 0 { 1int } else { 0 }) * spf;
    let keep = if end < from { 0 } else { end - from };
    let rest = decoded - (enc_delay + keep);
    let enc_padding = if rest < 0 {
        0
    } else if rest > MAX_LAME_FIELD {
        MAX_LAME_FIELD as int
    } else {
        rest
    };
    Cut { first, frames, enc_delay, enc_padding }
}

/// Facts about frame numbers that the solver needs help with.
proof fn lemma_frames(spf: int, n: int, start: int, end: int)
    requires
        0 < spf,
        0 <= start < end,
        start < n * spf,
    ensures
        0 <= first_copied(spf, start) <= start / spf < n,
        start / spf * spf <= start < start / spf * spf + spf,
        first_copied(spf, start) * spf <= start,
        first_copied(spf, start) > 0 ==> first_copied(spf, start) * spf >= spf && start - output_origin(spf, start) < 4
            * spf && start - output_origin(spf, start) >= 3 * spf,
        first_copied(spf, start) == 0 ==> start < 3 * spf,
        0 <= output_origin(spf, start) <= start,
        first_copied(spf, start) < copied_end(spf, n, end) <= n,
        copied_end(spf, n, end) * spf < end + spf,
        end <= n * spf ==> copied_end(spf, n, end) * spf >= end,
        0 <= n * spf,
{
    let k = start / spf;
    let last = (end + spf - 1) / spf;
    assert(k * spf <= start < k * spf + spf && 0 <= k) by (nonlinear_arith)
        requires
            0 < spf,
            0 <= start,
            k == start / spf,
    ;
    assert(k < n) by (nonlinear_arith)
        requires
            k * spf <= start < n * spf,
            0 < spf,
    ;
    assert(last * spf <= end + spf - 1 < last * spf + spf && 0 <= last) by (nonlinear_arith)
        requires
            0 < spf,
            0 <= end,
            last == (end + spf - 1) / spf,
    ;
    assert(k < last) by (nonlinear_arith)
        requires
            k * spf <= start < end,
            end + spf - 1 < last * spf + spf,
            0 < spf,
    ;
    let first = first_copied(spf, start);
    assert(first * spf <= k * spf) by (nonlinear_arith)
        requires
            first <= k,
            0 < spf,
    ;
    if first > 0 {
        assert(first * spf == k * spf - 2 * spf) by (nonlinear_arith)
            requires
                first == k - 2,
        ;
        assert(first * spf >= spf) by (nonlinear_arith)
            requires
                first >= 1,
                0 < spf,
        ;
    } else {
        assert(k * spf <= 2 * spf) by (nonlinear_arith)
            requires
                k <= 2,
                0 < spf,
        ;
    }
    if last > n {
        assert(n * spf <= last * spf) by (nonlinear_arith)
            requires
                n <= last,
                0 < spf,
        ;
    }
    assert(0 <= n * spf) by (nonlinear_arith)
        requires
            n > 0,
            spf > 0,
    ;
}

/// Plan the cut of `[start, end)`.
pub fn plan_mp3_cut(index: &Mp3Index, start: u64, end: u64) -> (r: Result<Mp3Cut, CutError>)
    requires
        0 < index.samples_per_frame <= 1152,
        (index.offsets@.len() + 1) * index.samples_per_frame <= u64::MAX,
        end + index.samples_per_frame <= u64::MAX,
    ensures
        ({
            let (spf, n) = (index.samples_per_frame as int, index.offsets@.len() as int);
            if end <= start || start >= n * spf {
                r == Err::<Mp3Cut, CutError>(CutError::Empty)
            } else {
                &&& r is Ok
                &&& r->Ok_0.is_cut(cut_for(spf, n, start as int, end as int))
                &&& r->Ok_0.frames > 0
                &&& r->Ok_0.first_frame + r->Ok_0.frames <= n
                &&& r->Ok_0.enc_delay <= MAX_LAME_FIELD
                &&& r->Ok_0.enc_padding <= MAX_LAME_FIELD
            }
        }),
{
    let spf: u64 = index.samples_per_frame as u64;
    let n: usize = index.frames();
    assert((n + 1) * spf == n * spf + spf) by (nonlinear_arith);
    let total: u64 = index.total_samples();
    if end <= start || start >= total {
        return Err(CutError::Empty);
    }
    proof {
        lemma_frames(spf as int, n as int, start as int, end as int);
    }
    let k: u64 = start / spf;
    let first: u64 = if k < PRIME_FRAMES {
        0
    } else {
        k - PRIME_FRAMES
    };
    let carrier = first > 0;
    assert(first * spf <= start);
    // Output sample 0 is the carrier's (silent) first sample, if there is one.
    let lead: u64 = if carrier {
        first * spf - spf
    } else {
        0
    };
    let skip: u64 = start - lead;
    // Near the very start of a file the decoder delay can't be hidden; the track then starts
    // up to 529 samples (12 ms) late, inside the encoder's own lead-in silence.
    let enc_delay: u64 = skip.saturating_sub(DECODER_DELAY);
    let up: u64 = (end + (spf - 1)) / spf;
    let last: u64 = if up < n as u64 {
        up
    } else {
        n as u64
    };
    let frames: u64 = last - first;
    let with_carrier: u64 = frames + if carrier {
        1
    } else {
        0
    };
    proof {
        let (w, m, s) = (with_carrier as int, n as int, spf as int);
        assert(0 <= w * s <= (m + 1) * s) by (nonlinear_arith)
            requires
                0 <= w <= m + 1,
                0 < s,
        ;
    }
    let decoded: u64 = with_carrier * spf;
    let from: u128 = lead as u128 + enc_delay as u128 + DECODER_DELAY as u128;
    let keep: u64 = if (end as u128) < from {
        0
    } else {
        (end as u128 - from) as u64
    };
    let rest: u64 = if (decoded as u128) < enc_delay as u128 + keep as u128 {
        0
    } else {
        (decoded as u128 - (enc_delay as u128 + keep as u128)) as u64
    };
    let enc_padding: u64 = if rest > MAX_LAME_FIELD {
        MAX_LAME_FIELD
    } else {
        rest
    };
    Ok(Mp3Cut { first_frame: first as usize, frames: frames as usize, carrier, enc_delay, enc_padding })
}

/// A gapless decoder plays exactly the track. Of the samples decoded from the copied frames
/// (and the carrier) it drops the delay and its own 529 samples at the front, and the padding
/// less those 529 at the back; what is left are the recording's samples `[start, end)`. Only
/// within the first 529 samples of a file the decoder's own delay can't be hidden, and the track
/// starts after them.
pub proof fn law_cut_is_exact(spf: int, n: int, start: int, end: int)
    requires
        576 <= spf <= 1152,
        0 <= start < end <= n * spf,
        end >= DECODER_DELAY,
    ensures
        ({
            let c = cut_for(spf, n, start, end);
            let origin = output_origin(spf, start);
            let decoded = (c.frames + if c.first > 0 { 1int } else { 0 }) * spf;
            let played_from = origin + c.enc_delay + DECODER_DELAY;
            let played_to = origin + decoded - c.enc_padding + DECODER_DELAY;
            &&& played_from == if start < DECODER_DELAY { DECODER_DELAY as int } else { start }
            &&& played_to == end
            &&& c.enc_delay <= MAX_LAME_FIELD
            &&& c.enc_padding <= MAX_LAME_FIELD
            &&& start >= c.first * spf
            &&& c.first + c.frames <= n
        }),
{
    lemma_frames(spf, n, start, end);
    let first = first_copied(spf, start);
    let last = copied_end(spf, n, end);
    assert((last - first) * spf == last * spf - first * spf) by (nonlinear_arith);
    assert((last - first + 1) * spf == last * spf - first * spf + spf) by (nonlinear_arith);
}

// ---- Tag and carrier frames ----

/// `template` without a checksum and without padding.
pub open spec fn plain_header(template: Seq<u8>) -> Seq<u8> {
    let b1 = if template[1] as int % 2 == 0 { template[1] + 1 } else { template[1] as int };
    let b2 = if template[2] as int / 2 % 2 == 1 { template[2] - 2 } else { template[2] as int };
    seq![template[0], b1 as u8, b2 as u8, template[3]]
}

/// `h` with the bitrate of the given code.
pub open spec fn with_bitrate(h: Seq<u8>, code: int) -> Seq<u8> {
    seq![h[0], h[1], (h[2] as int % 16 + code * 16) as u8, h[3]]
}

/// The lowest bitrate code from `code` on whose frames have at least `need` bytes.
pub open spec fn roomy_code(h: Seq<u8>, need: int, code: int) -> Option<int>
    decreases 15 - code,
{
    if code >= 15 {
        None
    } else if header_of(with_bitrate(h, code)) matches Some(p) && p.frame_len >= need {
        Some(code)
    } else {
        roomy_code(h, need, code + 1)
    }
}

/// A header of the same kind as `template`, for frames with room for `main_data` bytes.
pub open spec fn roomy(template: Seq<u8>, main_data: int) -> Result<Seq<u8>, CutError> {
    let h = plain_header(template);
    match header_of(h) {
        None => Err(CutError::UnexpectedHeader),
        Some(p) => match roomy_code(h, 4 + p.side_len() + main_data, 1) {
            None => Err(CutError::NoBitrate),
            Some(code) => Ok(with_bitrate(h, code)),
        },
    }
}

/// The side information of frames with the header of `template`.
pub open spec fn side_for(template: Seq<u8>) -> int {
    header_of(plain_header(template))->0.side_len()
}

/// The length of the frames with this header.
pub open spec fn len_for(h: Seq<u8>) -> int {
    header_of(h)->0.frame_len as int
}

proof fn lemma_roomy_code(h: Seq<u8>, need: int, code: int)
    requires
        0 <= code,
    ensures
        roomy_code(h, need, code) matches Some(c) ==> code <= c < 15 && header_of(with_bitrate(h, c)) is Some && header_of(
            with_bitrate(h, c),
        )->0.frame_len >= need,
    decreases 15 - code,
{
    if code < 15 {
        lemma_roomy_code(h, need, code + 1);
    }
}

/// A roomy header is a header, and its frames have the room asked for.
pub proof fn lemma_roomy(template: Seq<u8>, main_data: int)
    ensures
        roomy(template, main_data) matches Ok(h) ==> {
            &&& h.len() == 4
            &&& header_of(h) is Some
            &&& len_for(h) >= 4 + side_for(template) + main_data
            &&& len_for(h) <= 1441
            &&& 9 <= side_for(template) <= 32
        },
{
    let h = plain_header(template);
    if let Some(p) = header_of(h) {
        lemma_roomy_code(h, 4 + p.side_len() + main_data, 1);
        if let Ok(t) = roomy(template, main_data) {
            lemma_header_range(t);
        }
    }
}

/// A header keeps its meaning under another bitrate code, and the higher code has the longer
/// frames.
proof fn lemma_bitrates_grow(h: Seq<u8>, c: int, d: int)
    requires
        h.len() == 4,
        header_of(h) is Some,
        1 <= c <= d <= 14,
    ensures
        header_of(with_bitrate(h, c)) is Some,
        header_of(with_bitrate(h, d)) is Some,
        c < d ==> len_for(with_bitrate(h, c)) < len_for(with_bitrate(h, d)),
{
    let (x, y) = (with_bitrate(h, c), with_bitrate(h, d));
    let low = h[2] as int % 16;
    assert(x[2] == low + c * 16 && y[2] == low + d * 16);
    assert(x[2] as int / 16 == c && y[2] as int / 16 == d);
    assert(x[2] as int / 4 % 4 == h[2] as int / 4 % 4 && y[2] as int / 4 % 4 == h[2] as int / 4 % 4);
    assert(x[2] as int / 2 % 2 == y[2] as int / 2 % 2);
    lemma_header_range(x);
    lemma_header_range(y);
    if c < d {
        let v = header_of(h)->0.version;
        let rate = header_of(h)->0.sample_rate as int;
        let (k, m) = (kbps_of(v, c) as int, kbps_of(v, d) as int);
        let eighth = samples_of(v) as int / 8;
        assert(k + 8 <= m) by {
            if v == MpegVersion::V1 {
                assert(k == bitrates_v1()[c] && m == bitrates_v1()[d]);
            } else {
                assert(k == bitrates_v2()[c] && m == bitrates_v2()[d]);
            }
        }
        assert(eighth * k * 1000 / rate < eighth * m * 1000 / rate) by (nonlinear_arith)
            requires
                k + 8 <= m,
                0 < rate <= eighth * 8000,
                eighth > 0,
        ;
    }
}

/// A roomy header differs from the template in the checksum bit, the padding bit and the
/// bitrate alone. Its bitrate is the lowest whose frames have the room: all lower ones give
/// shorter frames, too short for it. There is none exactly where the template is no header, or
/// where even the highest bitrate is too low.
pub proof fn law_roomy_header_is_the_smallest(template: Seq<u8>, main_data: int)
    requires
        template.len() == 4,
    ensures
        ({
            let h = plain_header(template);
            let need = 4 + side_for(template) + main_data;
            &&& h.len() == 4 && h[0] == template[0] && h[3] == template[3]
            &&& h[1] as int % 2 == 1 && h[1] as int / 2 == template[1] as int / 2
            &&& h[2] as int / 2 % 2 == 0 && h[2] as int % 2 == template[2] as int % 2 && h[2] as int / 4
                == template[2] as int / 4
            &&& header_of(h) is None <==> header_of(template) is None
            &&& roomy(template, main_data) == Err::<Seq<u8>, CutError>(CutError::UnexpectedHeader) <==> header_of(
                template,
            ) is None
            &&& roomy(template, main_data) == Err::<Seq<u8>, CutError>(CutError::NoBitrate) <==> header_of(template) is Some
                && len_for(with_bitrate(h, 14)) < need
            &&& roomy(template, main_data) matches Ok(r) ==> exists|code: int| #[trigger]
                is_lowest_code(h, need, code) && r == with_bitrate(h, code)
        }),
{
    let h = plain_header(template);
    if header_of(h) is Some {
        let need = 4 + side_for(template) + main_data;
        lemma_lowest_code(h, need, 1);
        lemma_bitrates_grow(h, 14, 14);
        if let Some(code) = roomy_code(h, need, 1) {
            assert(is_lowest_code(h, need, code));
            lemma_bitrates_grow(h, code, 14);
        }
    }
}

/// The frames of `code` have `need` bytes, and those of all lower codes are shorter than that.
pub open spec fn is_lowest_code(h: Seq<u8>, need: int, code: int) -> bool {
    &&& 1 <= code <= 14
    &&& header_of(with_bitrate(h, code)) is Some
    &&& len_for(with_bitrate(h, code)) >= need
    &&& forall|c: int| #![trigger with_bitrate(h, c)]
        1 <= c < code ==> header_of(with_bitrate(h, c)) is Some && len_for(with_bitrate(h, c)) < need && len_for(
            with_bitrate(h, c),
        ) < len_for(with_bitrate(h, code))
}

proof fn lemma_lowest_code(h: Seq<u8>, need: int, from: int)
    requires
        h.len() == 4,
        header_of(h) is Some,
        1 <= from <= 15,
        forall|c: int| #![trigger with_bitrate(h, c)] 1 <= c < from ==> len_for(with_bitrate(h, c)) < need,
    ensures
        match roomy_code(h, need, from) {
            Some(code) => is_lowest_code(h, need, code),
            None => len_for(with_bitrate(h, 14)) < need,
        },
    decreases 15 - from,
{
    if from < 15 {
        lemma_bitrates_grow(h, from, from);
        if len_for(with_bitrate(h, from)) >= need {
            assert forall|c: int| #![trigger with_bitrate(h, c)] 1 <= c < from implies header_of(with_bitrate(h, c)) is Some
                && len_for(with_bitrate(h, c)) < len_for(with_bitrate(h, from)) by {
                lemma_bitrates_grow(h, c, from);
            }
        } else {
            lemma_lowest_code(h, need, from + 1);
        }
    }
}

/// `template` with no CRC, no padding bit, and the smallest bitrate whose frame has at least
/// `main_data` bytes after the side information. Returns (header, frame length, side info length).
pub fn roomy_header(template: &[u8], main_data: usize) -> (r: Result<(Vec<u8>, usize, usize), CutError>)
    requires
        template@.len() == 4,
    ensures
        match r {
            Ok((h, len, side)) => roomy(template@, main_data as int) == Ok::<Seq<u8>, CutError>(h@) && len == len_for(h@)
                && side == side_for(template@),
            Err(e) => roomy(template@, main_data as int) == Err::<Seq<u8>, CutError>(e),
        },
{
    let b1: u8 = if template[1] % 2 == 0 {
        template[1] + 1
    } else {
        template[1]
    };
    let b2: u8 = if template[2] / 2 % 2 == 1 {
        template[2] - 2
    } else {
        template[2]
    };
    let h = vec![template[0], b1, b2, template[3]];
    assert(h@ =~= plain_header(template@));
    let side: usize = match parse_header(&h) {
        None => return Err(CutError::UnexpectedHeader),
        Some(p) => p.side_info_len(),
    };
    let ghost need = 4 + side + main_data;
    let mut code: u8 = 1;
    while code < 15
        invariant
            1 <= code <= 15,
            h@ == plain_header(template@),
            header_of(h@) is Some,
            side == side_for(template@),
            side <= 32,
            need == 4 + side + main_data,
            roomy_code(h@, need, 1) == roomy_code(h@, need, code as int),
        decreases 15 - code,
    {
        let t = vec![h[0], h[1], h[2] % 16 + code * 16, h[3]];
        assert(t@ =~= with_bitrate(h@, code as int));
        if let Some(p) = parse_header(&t) {
            if p.frame_len >= 4 + side && p.frame_len - 4 - side >= main_data {
                return Ok((t, p.frame_len, side));
            }
        }
        code += 1;
    }
    Err(CutError::NoBitrate)
}

/// A silent frame with header `h` that ends with `reservoir`.
pub open spec fn carrier(h: Seq<u8>, reservoir: Seq<u8>) -> Seq<u8> {
    h + zeros(len_for(h) - 4 - reservoir.len()) + reservoir
}

/// A frame that decodes to silence (all-zero side info) and whose main data ends with
/// `reservoir`, the bytes the following frames reach back for.
pub fn carrier_frame(template: &[u8], reservoir: &[u8]) -> (r: Result<Vec<u8>, CutError>)
    requires
        template@.len() == 4,
    ensures
        match roomy(template@, reservoir@.len() as int) {
            Ok(h) => r is Ok && r->Ok_0@ == carrier(h, reservoir@) && r->Ok_0@.len() == len_for(h),
            Err(e) => r == Err::<Vec<u8>, CutError>(e),
        },
{
    proof {
        lemma_roomy(template@, reservoir@.len() as int);
    }
    let (h, len, _side) = match roomy_header(template, reservoir.len()) {
        Ok(x) => x,
        Err(e) => return Err(e),
    };
    let mut f: Vec<u8> = Vec::new();
    append_bytes(&mut f, &h);
    push_zeros(&mut f, len - 4 - reservoir.len());
    append_bytes(&mut f, reservoir);
    assert(f@ =~= carrier(h@, reservoir@));
    Ok(f)
}

/// The carrier is one frame of the stream, its side information is all zeros (so it is silent
/// and borrows nothing), and its last bytes are the reservoir.
pub proof fn law_carrier_carries(template: Seq<u8>, reservoir: Seq<u8>)
    requires
        roomy(template, reservoir.len() as int) is Ok,
    ensures
        ({
            let h = roomy(template, reservoir.len() as int)->Ok_0;
            let f = carrier(h, reservoir);
            &&& header_of(f) == header_of(h)
            &&& f.len() == header_of(f)->0.frame_len
            &&& forall|i: int| 4 <= i < 4 + side_for(template) ==> #[trigger] f[i] == 0
            &&& f.skip(f.len() - reservoir.len()) == reservoir
        }),
{
    lemma_roomy(template, reservoir.len() as int);
    let h = roomy(template, reservoir.len() as int)->Ok_0;
    let f = carrier(h, reservoir);
    assert(f[0] == h[0] && f[1] == h[1] && f[2] == h[2] && f[3] == h[3]);
    assert(f.skip(f.len() - reservoir.len()) =~= reservoir);
}

// ---- Checksum ----

/// One bit of the reflected division by 0x8005.
pub open spec fn crc_bit(crc: u16) -> u16 {
    if crc % 2 == 1 {
        (crc / 2) ^ 0xA001
    } else {
        crc / 2
    }
}

/// `n` bits.
pub open spec fn crc_bits(crc: u16, n: nat) -> u16
    decreases n,
{
    if n == 0 {
        crc
    } else {
        crc_bits(crc_bit(crc), (n - 1) as nat)
    }
}

/// The checksum CRC-16/ARC of `s`, carried on from `crc`.
pub open spec fn crc_from(crc: u16, s: Seq<u8>) -> u16
    decreases s.len(),
{
    if s.len() == 0 {
        crc
    } else {
        crc_bits(crc_from(crc, s.drop_last()) ^ (s.last() as u16), 8)
    }
}

/// CRC-16/ARC (reflected 0x8005, init 0), as used by the LAME tag.
pub fn crc16(data: &[u8]) -> (r: u16)
    ensures
        r == crc_from(0, data@),
{
    let mut crc: u16 = 0;
    let mut i: usize = 0;
    while i < data.len()
        invariant
            i <= data@.len(),
            crc == crc_from(0, data@.take(i as int)),
        decreases data@.len() - i,
    {
        assert(data@.take(i + 1).drop_last() =~= data@.take(i as int));
        crc = crc ^ (data[i] as u16);
        let ghost whole = crc_bits(crc, 8);
        let mut bit: u8 = 0;
        while bit < 8
            invariant
                bit <= 8,
                crc_bits(crc, (8 - bit) as nat) == whole,
            decreases 8 - bit,
        {
            crc = if crc % 2 == 1 {
                (crc / 2) ^ 0xA001
            } else {
                crc / 2
            };
            bit += 1;
        }
        i += 1;
    }
    assert(data@.take(i as int) =~= data@);
    crc
}

// ---- The Info frame ----

/// What fits into the 32-bit size fields of the tag.
pub open spec fn counted(n: int) -> int {
    n % 0x1_0000_0000
}

/// The table-of-contents entry for `i` percent of the frames: the position of that frame in
/// 1/256ths of the file.
pub open spec fn toc_entry(frame_len: int, offsets: Seq<u64>, total: int, i: int) -> u8 {
    let k = i * offsets.len() / 100;
    let frame = if k < offsets.len() { k } else { offsets.len() - 1 };
    let e = (frame_len + offsets[frame]) * 256 / total;
    (if e < 255 { e } else { 255 }) as u8
}

/// The first `n` entries of the table of contents.
pub open spec fn toc(frame_len: int, offsets: Seq<u64>, total: int, n: nat) -> Seq<u8> {
    Seq::new(n, |i: int| toc_entry(frame_len, offsets, total, i))
}

/// "LAME3.100"
pub open spec fn lame() -> Seq<u8> {
    seq![0x4Cu8, 0x41, 0x4D, 0x45, 0x33, 0x2E, 0x31, 0x30, 0x30]
}

/// The smaller of a value and the largest that 12 bits hold.
pub open spec fn lame_field(v: u64) -> int {
    if v < MAX_LAME_FIELD {
        v as int
    } else {
        MAX_LAME_FIELD as int
    }
}

/// The Info or Xing tag with its LAME extension, without the checksum at its end.
pub open spec fn info_tag(
    vbr: bool,
    frame_len: int,
    offsets: Seq<u64>,
    audio: Seq<u8>,
    enc_delay: u64,
    enc_padding: u64,
) -> Seq<u8> {
    let total = counted(frame_len + audio.len());
    let trim = lame_field(enc_delay) * 4096 + lame_field(enc_padding);
    // Which fields follow: frames, bytes, table of contents, quality.
    (if vbr { xing() } else { info() }) + be_bytes(0x0F, 4) + be_bytes(offsets.len(), 4) + be_bytes(total as nat, 4) + toc(
        frame_len,
        offsets,
        total,
        100,
    ) + be_bytes(0, 4)
    // Encoder, then revision and VBR method, lowpass, peak, two gains, flags and bitrate.
     + lame() + zeros(12)
    // Delay and padding, 12 bits each; then misc, gain, preset.
     + be_bytes(trim as nat, 3) + zeros(4)
    // Music length and checksum.
     + be_bytes(total as nat, 4) + be_bytes(crc_from(0, audio) as nat, 2)
}

/// The whole frame: its header, empty side information, the tag, the checksum of all that, and
/// zeros up to the end.
pub open spec fn info_bytes(h: Seq<u8>, side: int, tag: Seq<u8>) -> Seq<u8> {
    let front = h + zeros(side) + tag;
    let sum = be_bytes(crc_from(0, front) as nat, 2);
    front + sum + zeros(len_for(h) - front.len() - 2)
}

/// The room the tag needs behind the side information.
pub const INFO_ROOM: usize = 156;

fn push_toc(t: &mut Vec<u8>, frame_len: usize, offsets: &[u64], total: u64)
    requires
        offsets@.len() > 0,
        offsets@.len() <= 0x00ff_ffff_ffff_ffff,
        forall|i: int| 0 <= i < offsets@.len() ==> (#[trigger] offsets@[i]) <= 0x00ff_ffff_0000_0000,
        frame_len <= 0xffff,
        0 < total <= 0xffff_ffff,
    ensures
        final(t)@ == old(t)@ + toc(frame_len as int, offsets@, total as int, 100),
{
    let n: u64 = offsets.len() as u64;
    let mut i: u64 = 0;
    assert(old(t)@ + toc(frame_len as int, offsets@, total as int, 0) =~= t@);
    while i < 100
        invariant
            i <= 100,
            n == offsets@.len(),
            0 < n <= 0x00ff_ffff_ffff_ffff,
            forall|i: int| 0 <= i < offsets@.len() ==> (#[trigger] offsets@[i]) <= 0x00ff_ffff_0000_0000,
            frame_len <= 0xffff,
            0 < total <= 0xffff_ffff,
            t@ == old(t)@ + toc(frame_len as int, offsets@, total as int, i as nat),
        decreases 100 - i,
    {
        assert(0 <= i * n <= 100 * n) by (nonlinear_arith)
            requires
                0 <= i <= 100,
                0 <= n,
        ;
        let k: u64 = i * n / 100;
        let frame: u64 = if k < n {
            k
        } else {
            n - 1
        };
        let at = offsets[frame as usize];
        let e: u64 = (frame_len as u64 + at) * 256 / total;
        let entry: u8 = if e < 255 {
            e as u8
        } else {
            255
        };
        let ghost before = t@;
        t.push(entry);
        assert(entry == toc_entry(frame_len as int, offsets@, total as int, i as int));
        assert(t@ =~= old(t)@ + toc(frame_len as int, offsets@, total as int, (i + 1) as nat));
        i += 1;
    }
}

proof fn lemma_be_len(v: nat, n: nat)
    ensures
        be_bytes(v, n).len() == n,
    decreases n,
{
    if n > 0 {
        lemma_be_len(v / 256, (n - 1) as nat);
    }
}

/// The tag is 154 bytes long, so that it and its checksum fill the room set aside for it.
proof fn lemma_info_tag_len(
    vbr: bool,
    frame_len: int,
    offsets: Seq<u64>,
    audio: Seq<u8>,
    enc_delay: u64,
    enc_padding: u64,
)
    ensures
        info_tag(vbr, frame_len, offsets, audio, enc_delay, enc_padding).len() == INFO_ROOM - 2,
{
    let total = counted(frame_len + audio.len());
    let trim = lame_field(enc_delay) * 4096 + lame_field(enc_padding);
    lemma_be_len(0x0F, 4);
    lemma_be_len(offsets.len(), 4);
    lemma_be_len(total as nat, 4);
    lemma_be_len(0, 4);
    lemma_be_len(trim as nat, 3);
    lemma_be_len(crc_from(0, audio) as nat, 2);
}

/// An Info (CBR) / Xing (VBR) frame with a LAME extension carrying the gapless trim.
pub fn info_frame(
    template: &[u8],
    vbr: bool,
    frame_offsets: &[u64],
    audio: &[u8],
    enc_delay: u64,
    enc_padding: u64,
) -> (r: Result<Vec<u8>, CutError>)
    requires
        template@.len() == 4,
        0 < frame_offsets@.len() <= 0x00ff_ffff_ffff_ffff,
        forall|i: int| 0 <= i < frame_offsets@.len() ==> (#[trigger] frame_offsets@[i]) <= 0x00ff_ffff_0000_0000,
    ensures
        match roomy(template@, INFO_ROOM as int) {
            Ok(h) => if counted(len_for(h) + audio@.len()) == 0 {
                r == Err::<Vec<u8>, CutError>(CutError::Uncountable)
            } else {
                r is Ok && r->Ok_0@ == info_bytes(
                    h,
                    side_for(template@),
                    info_tag(vbr, len_for(h), frame_offsets@, audio@, enc_delay, enc_padding),
                ) && r->Ok_0@.len() == len_for(h)
            },
            Err(e) => r == Err::<Vec<u8>, CutError>(e),
        },
{
    // Same version / rate / channel mode as the audio; the tag lives after the side info.
    proof {
        lemma_roomy(template@, INFO_ROOM as int);
    }
    let (h, frame_len, side) = match roomy_header(template, INFO_ROOM) {
        Ok(x) => x,
        Err(e) => return Err(e),
    };
    let audio_len: usize = audio.len();
    let total: u64 = ((frame_len as u128 + audio_len as u128) % 0x1_0000_0000) as u64;
    assert(total == counted(frame_len + audio@.len()));
    if total == 0 {
        return Err(CutError::Uncountable);
    }
    let mut f: Vec<u8> = Vec::new();
    append_bytes(&mut f, &h);
    push_zeros(&mut f, side);
    let ghost front = f@;
    assert(front =~= h@ + zeros(side as int));
    let mut t: Vec<u8> = if vbr {
        vec![0x58u8, 0x69, 0x6E, 0x67]
    } else {
        vec![0x49u8, 0x6E, 0x66, 0x6F]
    };
    assert(t@ =~= if vbr { xing() } else { info() });
    push_be(&mut t, 0x0F, 4);
    push_be(&mut t, frame_offsets.len() as u64, 4);
    push_be(&mut t, total, 4);
    push_toc(&mut t, frame_len, frame_offsets, total);
    push_be(&mut t, 0, 4);
    let encoder = vec![0x4Cu8, 0x41, 0x4D, 0x45, 0x33, 0x2E, 0x31, 0x30, 0x30];
    assert(encoder@ =~= lame());
    append_bytes(&mut t, &encoder);
    push_zeros(&mut t, 12);
    let delay: u64 = if enc_delay < MAX_LAME_FIELD {
        enc_delay
    } else {
        MAX_LAME_FIELD
    };
    let padding: u64 = if enc_padding < MAX_LAME_FIELD {
        enc_padding
    } else {
        MAX_LAME_FIELD
    };
    push_be(&mut t, delay * 4096 + padding, 3);
    push_zeros(&mut t, 4);
    push_be(&mut t, total, 4);
    push_be(&mut t, crc16(audio) as u64, 2);
    assert(t@ =~= info_tag(vbr, frame_len as int, frame_offsets@, audio@, enc_delay, enc_padding));
    proof {
        lemma_info_tag_len(vbr, frame_len as int, frame_offsets@, audio@, enc_delay, enc_padding);
    }
    append_bytes(&mut f, &t);
    // Tag CRC over every byte of the frame before it.
    let crc = crc16(&f);
    let ghost all = f@;
    assert(all =~= h@ + zeros(side as int) + t@);
    push_be(&mut f, crc as u64, 2);
    proof {
        lemma_be_len(crc as nat, 2);
    }
    let rest: usize = frame_len - f.len();
    push_zeros(&mut f, rest);
    assert(f@ =~= info_bytes(h@, side as int, t@));
    Ok(f)
}

/// The frame made here is recognised as one that carries no audio, and so is skipped when the
/// exported file is indexed again.
pub proof fn law_info_frame_is_a_tag(
    template: Seq<u8>,
    vbr: bool,
    offsets: Seq<u64>,
    audio: Seq<u8>,
    enc_delay: u64,
    enc_padding: u64,
)
    requires
        roomy(template, INFO_ROOM as int) is Ok,
    ensures
        ({
            let h = roomy(template, INFO_ROOM as int)->Ok_0;
            let tag = info_tag(vbr, len_for(h), offsets, audio, enc_delay, enc_padding);
            let f = info_bytes(h, side_for(template), tag);
            &&& header_of(f) == header_of(h)
            &&& f.len() == header_of(f)->0.frame_len
            &&& tag_frame(f, header_of(f)->0)
        }),
{
    let h = roomy(template, INFO_ROOM as int)->Ok_0;
    lemma_roomy(template, INFO_ROOM as int);
    let side = side_for(template);
    let tag = info_tag(vbr, len_for(h), offsets, audio, enc_delay, enc_padding);
    lemma_info_tag_len(vbr, len_for(h), offsets, audio, enc_delay, enc_padding);
    let front = h + zeros(side) + tag;
    lemma_be_len(crc_from(0, front) as nat, 2);
    let f = info_bytes(h, side, tag);
    lemma_same_kind(template, INFO_ROOM as int);
    assert(f[0] == h[0] && f[1] == h[1] && f[2] == h[2] && f[3] == h[3]);
    let id = if vbr { xing() } else { info() };
    let off = 4 + side;
    assert(f.subrange(off, off + 4) =~= id) by {
        assert forall|i: int| 0 <= i < 4 implies f[off + i] == id[i] by {
            assert(f[off + i] == front[off + i]);
            assert(front[off + i] == tag[i]);
            assert(tag[i] == id[i]);
        }
    }
    assert forall|i: int| 4 <= i < off implies #[trigger] f[i] == 0 by {
        assert(f[i] == front[i]);
    }
}

/// A roomy header belongs to frames with as much side information as the template's.
proof fn lemma_same_kind(template: Seq<u8>, main_data: int)
    ensures
        roomy(template, main_data) matches Ok(h) ==> header_of(h)->0.side_len() == side_for(template),
{
    let p = plain_header(template);
    if let Ok(h) = roomy(template, main_data) {
        lemma_roomy_code(p, 4 + side_for(template) + main_data, 1);
        assert(h[1] == p[1] && h[3] == p[3]);
    }
}

/// The version and the rate are told by four bits.
proof fn lemma_same_stream(x: Seq<u8>, y: Seq<u8>)
    requires
        header_of(x) is Some,
        header_of(y) is Some,
        x[1] as int / 8 % 4 == y[1] as int / 8 % 4,
        x[2] as int / 4 % 4 == y[2] as int / 4 % 4,
    ensures
        header_of(x)->0.goes_with(header_of(y)->0),
{
}

/// They stay under another bitrate code.
proof fn lemma_code_keeps_stream(template: Seq<u8>, code: int)
    requires
        template.len() == 4,
        1 <= code <= 14,
    ensures
        ({
            let h = with_bitrate(plain_header(template), code);
            &&& h[1] as int / 8 % 4 == template[1] as int / 8 % 4
            &&& h[2] as int / 4 % 4 == template[2] as int / 4 % 4
        }),
{
    let p = plain_header(template);
    let h = with_bitrate(p, code);
    let (x, y) = (template[1] as int, template[2] as int);
    lemma_plain_bits(x, y);
    assert(p[1] == if x % 2 == 0 { x + 1 } else { x });
    assert(p[2] == if y / 2 % 2 == 1 { y - 2 } else { y });
    lemma_code_bits(p[2] as int, code);
    assert(h[1] == p[1]);
    assert(h[2] == p[2] as int % 16 + code * 16);
}

/// The checksum bit and the padding bit stand apart from those of the stream.
proof fn lemma_plain_bits(x: int, y: int)
    requires
        0 <= x < 256,
        0 <= y < 256,
    ensures
        x % 2 == 0 ==> (x + 1) / 8 == x / 8 && x + 1 < 256,
        y / 2 % 2 == 1 ==> (y - 2) / 4 == y / 4 && y >= 2,
{
}

/// So do those of the bitrate.
proof fn lemma_code_bits(y: int, code: int)
    requires
        0 <= y < 256,
        1 <= code <= 14,
    ensures
        (y % 16 + code * 16) / 4 % 4 == y / 4 % 4,
        0 <= y % 16 + code * 16 < 256,
{
    let low = y % 16;
    assert((low + code * 16) / 4 == low / 4 + code * 4);
    assert(0 <= low / 4 < 4);
    assert(y / 4 == y / 16 * 4 + low / 4);
}

/// A roomy header belongs to the stream of its template.
pub proof fn lemma_roomy_goes_with(template: Seq<u8>, main_data: int)
    requires
        template.len() == 4,
        roomy(template, main_data) is Ok,
    ensures
        header_of(template) is Some,
        header_of(roomy(template, main_data)->Ok_0) is Some,
        header_of(roomy(template, main_data)->Ok_0)->0.goes_with(header_of(template)->0),
{
    let p = plain_header(template);
    let need = 4 + side_for(template) + main_data;
    let h = roomy(template, main_data)->Ok_0;
    assert(header_of(template) is Some) by {
        law_roomy_header_is_the_smallest(template, main_data);
    }
    lemma_roomy_code(p, need, 1);
    let code = roomy_code(p, need, 1)->0;
    assert(h == with_bitrate(p, code));
    lemma_code_keeps_stream(template, code);
    lemma_same_stream(h, template);
}

// ---- The whole file ----

/// The frames of a cut, and where each of them starts.
#[verifier::ext_equal]
pub struct Audio {
    pub offsets: Seq<u64>,
    pub bytes: Seq<u8>,
}

/// `offsets` moved by `by`.
pub open spec fn moved(offsets: Seq<u64>, by: int) -> Seq<u64> {
    offsets.map_values(|o: u64| (o + by) as u64)
}

/// The frames that a cut copies from the file.
pub open spec fn copied(index: Mp3Index, b: Seq<u8>, c: Cut) -> Result<Audio, CutError> {
    let from = index.offsets@[c.first] as int;
    let to = index.end_of(c.first + c.frames - 1) as int;
    if to > b.len() {
        Err(CutError::Index(IndexError::ShortFile))
    } else {
        Ok(
            Audio {
                offsets: moved(index.offsets@.subrange(c.first, c.first + c.frames), -from),
                bytes: b.subrange(from, to),
            },
        )
    }
}

/// How many bytes of the reservoir a carrier of the template's stream holds: as many as any frame
/// can reach back for. The frames of MPEG-2 at 22.05 and 24 kHz have no room for that; their
/// carrier holds what frames of that version can reach back for.
pub open spec fn reservoir_room(template: Seq<u8>) -> int {
    if roomy(template, MAX_RESERVOIR as int) == Err::<Seq<u8>, CutError>(CutError::NoBitrate) {
        SHORT_RESERVOIR as int
    } else {
        MAX_RESERVOIR as int
    }
}

/// Every stream has a carrier, and it holds all that a frame of the stream can reach back for.
pub proof fn law_carrier_reaches_far_enough(template: Seq<u8>, frame: Seq<u8>)
    requires
        template.len() == 4,
        header_of(template) is Some,
        header_of(frame) is Some,
        header_of(frame)->0.goes_with(header_of(template)->0),
    ensures
        roomy(template, reservoir_room(template)) is Ok,
        roomy(template, INFO_ROOM as int) is Ok,
        data_begin(frame, header_of(frame)->0) <= reservoir_room(template),
        header_of(template)->0.version == MpegVersion::V1 ==> reservoir_room(template) == MAX_RESERVOIR,
{
    lemma_most_room(template);
    lemma_room_enough(template, MAX_RESERVOIR as int);
    lemma_room_enough(template, SHORT_RESERVOIR as int);
    lemma_room_enough(template, INFO_ROOM as int);
}

/// The largest frames of a stream, and their side information.
proof fn lemma_most_room(template: Seq<u8>)
    requires
        template.len() == 4,
        header_of(template) is Some,
    ensures
        ({
            let v1 = header_of(template)->0.version == MpegVersion::V1;
            let most = len_for(with_bitrate(plain_header(template), 14));
            &&& most >= if v1 { 960int } else { 480 }
            &&& 9 <= side_for(template) <= if v1 { 32int } else { 17 }
        }),
{
    let h = plain_header(template);
    let top = with_bitrate(h, 14);
    assert(header_of(h) is Some) by {
        law_roomy_header_is_the_smallest(template, 0);
    }
    lemma_bitrates_grow(h, 14, 14);
    lemma_code_keeps_stream(template, 14);
    lemma_same_stream(top, template);
    assert(h[1] == top[1]);
    assert(header_of(h)->0.version == header_of(top)->0.version);
    assert(top[2] as int / 16 == 14);
    lemma_header_range(top);
    let rate = header_of(top)->0.sample_rate as int;
    if header_of(top)->0.version == MpegVersion::V1 {
        assert(header_of(top)->0.bitrate_kbps == bitrates_v1()[14]);
        assert(46_080_000int / rate >= 960) by (nonlinear_arith)
            requires
                0 < rate <= 48000,
        ;
    } else {
        assert(header_of(top)->0.bitrate_kbps == bitrates_v2()[14]);
        assert(rate <= 24000) by {
            let sr = top[2] as int / 4 % 4;
            assert(0 <= sr <= 2);
        }
        assert(11_520_000int / rate >= 480) by (nonlinear_arith)
            requires
                0 < rate <= 24000,
        ;
    }
}

proof fn lemma_room_enough(template: Seq<u8>, main_data: int)
    requires
        template.len() == 4,
        header_of(template) is Some,
    ensures
        len_for(with_bitrate(plain_header(template), 14)) >= 4 + side_for(template) + main_data <==> roomy(
            template,
            main_data,
        ) is Ok,
        roomy(template, main_data) matches Err(e) ==> e == CutError::NoBitrate,
{
    law_roomy_header_is_the_smallest(template, main_data);
}

/// The frames of a cut with the carrier in front, unless the file's first frame is the first.
pub open spec fn with_carrier(index: Mp3Index, b: Seq<u8>, c: Cut, a: Audio) -> Result<Audio, CutError> {
    if c.first <= 0 {
        Ok(a)
    } else {
        let room = reservoir_room(a.bytes.take(4));
        match index.stream_before(b, c.first, room) {
            Err(e) => Err(CutError::Index(e)),
            Ok(s) => match roomy(a.bytes.take(4), room) {
                Err(e) => Err(e),
                Ok(h) => {
                    let f = carrier(h, last_bytes(s, room));
                    Ok(Audio { offsets: seq![0u64] + moved(a.offsets, f.len() as int), bytes: f + a.bytes })
                },
            },
        }
    }
}

/// The file for a cut: tags, the Info frame, and the frames.
pub open spec fn track_bytes(index: Mp3Index, b: Seq<u8>, c: Cut, tags: Tags) -> Result<Seq<u8>, CutError> {
    match copied(index, b, c) {
        Err(e) => Err(e),
        Ok(own) => match with_carrier(index, b, c, own) {
            Err(e) => Err(e),
            Ok(a) => match roomy(own.bytes.take(4), INFO_ROOM as int) {
                Err(e) => Err(e),
                Ok(h) => if counted(len_for(h) + a.bytes.len()) == 0 {
                    Err(CutError::Uncountable)
                } else {
                    let tag = info_tag(
                        index.min_kbps != index.max_kbps,
                        len_for(h),
                        a.offsets,
                        a.bytes,
                        c.enc_delay as u64,
                        c.enc_padding as u64,
                    );
                    Ok(id3_tag(tags) + info_bytes(h, side_for(own.bytes.take(4)), tag) + a.bytes)
                },
            },
        },
    }
}

/// The largest file that is cut: positions in it, times 256, fit into 64 bits.
pub const MAX_FILE: u64 = 0x0080_0000_0000_0000;

fn copy_offsets(index: &Mp3Index, first: usize, frames: usize, from: u64) -> (r: Vec<u64>)
    requires
        index.wf(),
        first + frames <= index.offsets@.len(),
        frames > 0,
        from == index.offsets@[first as int],
    ensures
        r@ == moved(index.offsets@.subrange(first as int, first + frames), -(from as int)),
        forall|i: int| 0 <= i < r@.len() ==> (#[trigger] r@[i]) + from <= index.end_of(first + frames - 1),
{
    let ghost all = moved(index.offsets@.subrange(first as int, first + frames), -(from as int));
    let n: usize = index.offsets.len();
    let mut out: Vec<u64> = Vec::new();
    let mut i: usize = 0;
    while i < frames
        invariant
            index.wf(),
            first + frames <= n == index.offsets@.len(),
            from == index.offsets@[first as int],
            all == moved(index.offsets@.subrange(first as int, first + frames), -(from as int)),
            i <= frames,
            out@ == all.take(i as int),
            forall|k: int| 0 <= k < i ==> (#[trigger] out@[k]) + from <= index.end_of(first + frames - 1),
        decreases frames - i,
    {
        let o = index.offsets[first + i];
        assert(o >= from);
        out.push(o - from);
        assert(out@ =~= all.take(i + 1));
        i += 1;
    }
    assert(all.take(i as int) =~= all);
    out
}

/// Where frames start, and their bytes.
pub struct Frames {
    pub offsets: Vec<u64>,
    pub bytes: Vec<u8>,
}

impl View for Frames {
    type V = Audio;

    open spec fn view(&self) -> Audio {
        Audio { offsets: self.offsets@, bytes: self.bytes@ }
    }
}

fn copy_frames(b: &[u8], index: &Mp3Index, cut: &Mp3Cut, Ghost(c): Ghost<Cut>) -> (r: Result<Frames, CutError>)
    requires
        index.wf(),
        cut.is_cut(c),
        c.frames > 0,
        c.first + c.frames <= index.offsets@.len(),
        b@.len() <= MAX_FILE,
    ensures
        match copied(*index, b@, c) {
            Ok(a) => r is Ok && r->Ok_0@ == a && a.bytes.len() >= 24 && a.offsets.len() == c.frames && a.offsets.len()
                <= a.bytes.len() && (forall|k: int| 0 <= k < a.offsets.len() ==> (#[trigger] a.offsets[k]) <= MAX_FILE),
            Err(e) => r is Err && r->Err_0 == e,
        },
{
    let n: usize = index.offsets.len();
    let from = index.offsets[cut.first_frame];
    let to = index.frame_end(cut.first_frame + cut.frames - 1);
    if to > b.len() as u64 {
        return Err(CutError::Index(IndexError::ShortFile));
    }
    proof {
        lemma_span(index.offsets@, index.audio_end as int, c.first, c.first + c.frames - 1);
    }
    let offsets = copy_offsets(index, cut.first_frame, cut.frames, from);
    let bytes = copy_range(b, from as usize, to as usize);
    Ok(Frames { offsets, bytes })
}

/// So many frames one behind the other take up at least 24 bytes each.
proof fn lemma_span(offsets: Seq<u64>, end: int, i: int, j: int)
    requires
        crate::mp3index::frames_in_order(offsets, end),
        0 <= i <= j < offsets.len(),
    ensures
        offsets[i] + 24 * (j - i) <= offsets[j],
        offsets[i] + 24 * (j - i + 1) <= if j + 1 < offsets.len() { offsets[j + 1] as int } else { end },
    decreases j - i,
{
    if i < j {
        lemma_span(offsets, end, i, j - 1);
        assert(offsets[j - 1] + 24 <= offsets[j]);
    }
}

fn add_carrier(b: &[u8], index: &Mp3Index, cut: &Mp3Cut, own: Frames, Ghost(c): Ghost<Cut>) -> (r: Result<Frames, CutError>)
    requires
        index.wf(),
        cut.is_cut(c),
        0 <= c.first <= index.offsets@.len(),
        own.bytes@.len() >= 4,
        0 < own.offsets@.len() <= MAX_FILE,
        forall|k: int| 0 <= k < own.offsets@.len() ==> (#[trigger] own.offsets@[k]) <= MAX_FILE,
    ensures
        match with_carrier(*index, b@, c, own@) {
            Ok(a) => r is Ok && r->Ok_0@ == a && 0 < a.offsets.len() <= MAX_FILE + 1 && (forall|k: int|
                0 <= k < a.offsets.len() ==> (#[trigger] a.offsets[k]) <= MAX_FILE + 1441),
            Err(e) => r is Err && r->Err_0 == e,
        },
{
    if !cut.carrier {
        return Ok(own);
    }
    let template = copy_range(&own.bytes, 0, 4);
    assert(template@ =~= own.bytes@.take(4));
    let room: usize = match roomy_header(&template, MAX_RESERVOIR) {
        Err(CutError::NoBitrate) => SHORT_RESERVOIR,
        _ => MAX_RESERVOIR,
    };
    assert(room == reservoir_room(template@));
    let reservoir = match index.reservoir_before(b, cut.first_frame, room) {
        Ok(x) => x,
        Err(e) => return Err(CutError::Index(e)),
    };
    assert(reservoir@.len() == room);
    proof {
        lemma_roomy(template@, room as int);
    }
    let lead = match carrier_frame(&template, &reservoir) {
        Ok(x) => x,
        Err(e) => return Err(e),
    };
    let by: u64 = lead.len() as u64;
    let ghost all = moved(own.offsets@, by as int);
    let mut starts: Vec<u64> = Vec::new();
    starts.push(0);
    let mut i: usize = 0;
    assert(starts@ =~= seq![0u64] + all.take(0));
    while i < own.offsets.len()
        invariant
            i <= own.offsets@.len(),
            by <= 1441,
            all == moved(own.offsets@, by as int),
            forall|k: int| 0 <= k < own.offsets@.len() ==> (#[trigger] own.offsets@[k]) <= MAX_FILE,
            starts@ == seq![0u64] + all.take(i as int),
            forall|k: int| 0 <= k < starts@.len() ==> (#[trigger] starts@[k]) <= MAX_FILE + 1441,
        decreases own.offsets@.len() - i,
    {
        starts.push(own.offsets[i] + by);
        assert(starts@ =~= seq![0u64] + all.take(i + 1));
        i += 1;
    }
    assert(all.take(i as int) =~= all);
    let mut audio = lead;
    append_bytes(&mut audio, &own.bytes);
    Ok(Frames { offsets: starts, bytes: audio })
}

/// The track `[start, end)` of the MP3 file `b` as an MP3 file of its own.
pub fn mp3_track(b: &[u8], index: &Mp3Index, start: u64, end: u64, tags: &Tags) -> (r: Result<Vec<u8>, CutError>)
    requires
        index.wf(),
        0 < index.samples_per_frame <= 1152,
        (index.offsets@.len() + 1) * index.samples_per_frame <= u64::MAX,
        end + index.samples_per_frame <= u64::MAX,
        b@.len() <= MAX_FILE,
    ensures
        ({
            let (spf, n) = (index.samples_per_frame as int, index.offsets@.len() as int);
            if end <= start || start >= n * spf {
                r == Err::<Vec<u8>, CutError>(CutError::Empty)
            } else {
                match track_bytes(*index, b@, cut_for(spf, n, start as int, end as int), *tags) {
                    Ok(bytes) => r is Ok && r->Ok_0@ == bytes,
                    Err(e) => r is Err && r->Err_0 == e,
                }
            }
        }),
{
    let cut = match plan_mp3_cut(index, start, end) {
        Ok(c) => c,
        Err(e) => return Err(e),
    };
    let ghost c = cut_for(index.samples_per_frame as int, index.offsets@.len() as int, start as int, end as int);
    let own = match copy_frames(b, index, &cut, Ghost(c)) {
        Ok(f) => f,
        Err(e) => return Err(e),
    };
    let template = copy_range(&own.bytes, 0, 4);
    assert(template@ =~= own@.bytes.take(4));
    let a = match add_carrier(b, index, &cut, own, Ghost(c)) {
        Ok(f) => f,
        Err(e) => return Err(e),
    };
    let frame = match info_frame(&template, index.is_vbr(), &a.offsets, &a.bytes, cut.enc_delay, cut.enc_padding) {
        Ok(x) => x,
        Err(e) => return Err(e),
    };
    let mut out = id3v2(tags);
    append_bytes(&mut out, &frame);
    append_bytes(&mut out, &a.bytes);
    Ok(out)
}

} // verus!

//! Re-encoding tracks to another format: what the encoders are asked for, how a range is read
//! piece by piece, and FLAC files.
use vstd::prelude::*;
use crate::bytes::{be, holds, matches_at};
use crate::export::Profile;
use crate::tags::{comment_block, vorbis_comment, Tags};

verus! {

/// Sample rates MP3 can carry.
pub open spec fn mp3_rates() -> Seq<u32> {
    seq![8000u32, 11025, 12000, 16000, 22050, 24000, 32000, 44100, 48000]
}

/// The rate kept when MP3 can carry it; otherwise the nearest family (88.2k to 44.1k, 96k to
/// 48k).
pub open spec fn mp3_rate_for(rate: u32) -> u32 {
    if mp3_rates().contains(rate) {
        rate
    } else if rate % 44100 == 0 {
        44100
    } else {
        48000
    }
}

/// The sample rate of an MP3 made from audio at `rate`.
pub fn mp3_rate(rate: u32) -> (r: u32)
    ensures
        r == mp3_rate_for(rate),
        mp3_rates().contains(r),
{
    let rates: [u32; 9] = [8000, 11025, 12000, 16000, 22050, 24000, 32000, 44100, 48000];
    assert(rates@ =~= mp3_rates());
    let mut i: usize = 0;
    while i < 9
        invariant
            i <= 9,
            rates@ == mp3_rates(),
            forall|k: int| 0 <= k < i ==> mp3_rates()[k] != rate,
        decreases 9 - i,
    {
        if rates[i] == rate {
            assert(mp3_rates()[i as int] == rate);
            return rate;
        }
        i += 1;
    }
    assert(mp3_rates()[7] == 44100 && mp3_rates()[8] == 48000);
    assert(!mp3_rates().contains(rate));
    if rate % 44100 == 0 {
        44100
    } else {
        48000
    }
}

/// The channels of an MP3: one or two of the source's.
pub fn mp3_channels(channels: usize) -> (r: usize)
    ensures
        r == if channels < 2 {
            channels
        } else {
            2
        },
{
    if channels < 2 {
        channels
    } else {
        2
    }
}

/// The encoder's quality levels, from best to worst.
#[derive(Clone, Copy, Debug, PartialEq, Eq, Structural)]
pub enum LameQuality {
    Best,
    SecondBest,
    NearBest,
    VeryNice,
    Nice,
    Good,
    Decent,
    Fair,
    SecondWorst,
    Worst,
}

/// The level for a `-V` number: 0 is best, 9 and above worst.
pub fn lame_quality(q: u8) -> (r: LameQuality)
    ensures
        r == match q {
            0 => LameQuality::Best,
            1 => LameQuality::SecondBest,
            2 => LameQuality::NearBest,
            3 => LameQuality::VeryNice,
            4 => LameQuality::Nice,
            5 => LameQuality::Good,
            6 => LameQuality::Decent,
            7 => LameQuality::Fair,
            8 => LameQuality::SecondWorst,
            _ => LameQuality::Worst,
        },
{
    match q {
        0 => LameQuality::Best,
        1 => LameQuality::SecondBest,
        2 => LameQuality::NearBest,
        3 => LameQuality::VeryNice,
        4 => LameQuality::Nice,
        5 => LameQuality::Good,
        6 => LameQuality::Decent,
        7 => LameQuality::Fair,
        8 => LameQuality::SecondWorst,
        _ => LameQuality::Worst,
    }
}

/// The constant bitrates offered by the encoder that are used here.
pub open spec fn lame_bitrates() -> Seq<u16> {
    seq![96u16, 112, 128, 160, 192, 224, 256, 320]
}

/// `r` is the lowest bitrate that is no less than `kbps`, or the highest there is.
pub open spec fn rounds_up(kbps: u16, r: u16) -> bool {
    &&& lame_bitrates().contains(r)
    &&& r >= kbps || r == 320
    &&& forall|i: int| 0 <= i < 8 && #[trigger] lame_bitrates()[i] < r ==> lame_bitrates()[i] < kbps
}

/// The bitrate in kbps to ask the encoder for.
pub fn lame_bitrate(kbps: u16) -> (r: u16)
    ensures
        rounds_up(kbps, r),
{
    let rates: [u16; 8] = [96, 112, 128, 160, 192, 224, 256, 320];
    assert(rates@ =~= lame_bitrates());
    let mut i: usize = 0;
    while i < 7 && rates[i] < kbps
        invariant
            i <= 7,
            rates@ == lame_bitrates(),
            forall|k: int| 0 <= k < i ==> lame_bitrates()[k] < kbps,
        decreases 7 - i,
    {
        i += 1;
    }
    assert(rates@[i as int] == lame_bitrates()[i as int]);
    assert forall|k: int| 0 <= k < 8 && #[trigger] lame_bitrates()[k] < rates@[i as int] implies lame_bitrates()[k]
        < kbps by {
        if k >= i {
            assert(lame_bitrates()[i as int] <= lame_bitrates()[k]);
        }
    }
    rates[i]
}

/// The bit depth of a FLAC file: 24 for sources with more than 16 bits.
pub fn flac_bits(bits: Option<u32>) -> (r: usize)
    ensures
        r == if bits is Some && bits->0 > 16 {
            24int
        } else {
            16
        },
{
    match bits {
        Some(b) => if b > 16 {
            24
        } else {
            16
        },
        None => 16,
    }
}

/// Whether a gain (in millionths of a decibel) is applied at all.
pub fn gain_matters(gain: i64) -> (r: bool)
    ensures
        r == (gain < -1 || gain > 1),
{
    gain < -1 || gain > 1
}

// ---- Reading a range piece by piece ----

/// What to do with a piece of audio that was read.
#[derive(Clone, Copy, Debug, PartialEq, Eq, Structural)]
pub enum Piece {
    /// Use so many of its samples and read on; so many are left then.
    Take { samples: usize, left: usize },
    /// The recording ended so many frames early.
    EndedEarly { frames: usize },
}

/// The samples of the frames `[start, end)`.
pub fn range_samples(start: u64, end: u64, channels: usize) -> (r: usize)
    requires
        (end - start) * channels <= usize::MAX,
    ensures
        r == if end > start {
            (end - start) * channels
        } else {
            0
        },
{
    if end <= start {
        return 0;
    }
    let n: u64 = end - start;
    assert(n <= n * channels || channels == 0) by (nonlinear_arith)
        requires
            n >= 0,
            channels >= 0,
    ;
    if channels == 0 {
        assert((end - start) * channels == 0) by (nonlinear_arith)
            requires
                channels == 0,
        ;
        return 0;
    }
    n as usize * channels
}

/// What to do with a piece of `got` samples while `left` samples are still to come. `more` is
/// false at the end of the recording.
pub fn next_piece(left: usize, got: usize, more: bool, channels: usize) -> (r: Piece)
    requires
        channels > 0,
    ensures
        r == if !more {
            Piece::EndedEarly { frames: (left as int / channels as int) as usize }
        } else if got < left {
            Piece::Take { samples: got, left: (left - got) as usize }
        } else {
            Piece::Take { samples: left, left: 0 }
        },
{
    if !more {
        return Piece::EndedEarly { frames: left / channels };
    }
    if got < left {
        Piece::Take { samples: got, left: left - got }
    } else {
        Piece::Take { samples: left, left: 0 }
    }
}

// ---- Previews ----

/// Why a preview could not be made.
#[derive(Clone, Copy, Debug, PartialEq, Eq, Structural)]
pub enum PreviewError {
    /// A/B needs a mono or stereo source.
    TooManyChannels,
    /// The encoded preview doesn't line up with the source (resampled?).
    Misaligned,
}

/// What a preview is made from.
#[derive(Clone, Copy, Debug, PartialEq, Eq, Structural)]
pub enum PreviewPlan {
    /// Encode and decode again.
    RoundTrip,
    /// The source at the output's bit depth.
    Quantize { bits: usize },
}

/// How to show what a profile sounds like.
pub fn preview_plan(profile: Profile, channels: usize, bits: Option<u32>) -> (r: Result<PreviewPlan, PreviewError>)
    ensures
        r == match profile {
            Profile::Mp3Vbr { .. } => if channels > 2 {
                Err(PreviewError::TooManyChannels)
            } else {
                Ok(PreviewPlan::RoundTrip)
            },
            Profile::Mp3Cbr { .. } => if channels > 2 {
                Err(PreviewError::TooManyChannels)
            } else {
                Ok(PreviewPlan::RoundTrip)
            },
            Profile::Wav16 => Ok(PreviewPlan::Quantize { bits: 16 }),
            Profile::Flac => Ok(
                PreviewPlan::Quantize {
                    bits: if bits is Some && bits->0 > 16 {
                        24
                    } else {
                        16
                    },
                },
            ),
            Profile::Original => Ok(PreviewPlan::Quantize { bits: 24 }),
        },
{
    match profile {
        Profile::Mp3Vbr { .. } => if channels > 2 {
            Err(PreviewError::TooManyChannels)
        } else {
            Ok(PreviewPlan::RoundTrip)
        },
        Profile::Mp3Cbr { .. } => if channels > 2 {
            Err(PreviewError::TooManyChannels)
        } else {
            Ok(PreviewPlan::RoundTrip)
        },
        Profile::Wav16 => Ok(PreviewPlan::Quantize { bits: 16 }),
        Profile::Flac => Ok(PreviewPlan::Quantize { bits: flac_bits(bits) }),
        Profile::Original => Ok(PreviewPlan::Quantize { bits: 24 }),
    }
}

/// Fit a decoded preview to the length of the source: cut it or fill it up with silence. More
/// than two frames off, and it does not line up.
pub fn fit_preview<T: Copy>(pcm: Vec<T>, want: usize, channels: usize, silence: T) -> (r: Result<Vec<T>, PreviewError>)
    requires
        channels <= 0xffff,
    ensures
        ({
            let n = pcm@.len();
            let off = if n < want { want - n } else { n - want };
            if off > channels * 2 {
                r is Err && r->Err_0 == PreviewError::Misaligned
            } else {
                &&& r is Ok
                &&& r->Ok_0@.len() == want
                &&& forall|i: int| 0 <= i < want ==> #[trigger] r->Ok_0@[i] == if i < n {
                    pcm@[i]
                } else {
                    silence
                }
            }
        }),
{
    let n: usize = pcm.len();
    let off: usize = if n < want {
        want - n
    } else {
        n - want
    };
    if off > channels * 2 {
        return Err(PreviewError::Misaligned);
    }
    let mut out: Vec<T> = Vec::new();
    let mut i: usize = 0;
    while i < want
        invariant
            n == pcm@.len(),
            i <= want,
            out@.len() == i,
            forall|k: int| 0 <= k < i ==> #[trigger] out@[k] == if k < n {
                pcm@[k]
            } else {
                silence
            },
        decreases want - i,
    {
        if i < n {
            out.push(pcm[i]);
        } else {
            out.push(silence);
        }
        i += 1;
    }
    Ok(out)
}

/// The first two channels of audio with more: the samples `0, 1, ch, ch + 1, 2 ch, ...`.
pub open spec fn front_pair<T>(s: Seq<T>, channels: int) -> Seq<T> {
    Seq::new((s.len() as int / channels * 2) as nat, |i: int| s[i / 2 * channels + i % 2])
}

/// Keep the first two of `channels` channels.
pub fn first_two<T: Copy>(chunk: &[T], channels: usize) -> (r: Vec<T>)
    requires
        2 <= channels <= 0xffff,
    ensures
        r@ == front_pair(chunk@, channels as int),
{
    let len: usize = chunk.len();
    let frames: usize = len / channels;
    let ghost all = front_pair(chunk@, channels as int);
    let mut out: Vec<T> = Vec::new();
    let mut f: usize = 0;
    let mut at: usize = 0;
    while f < frames
        invariant
            2 <= channels <= 0xffff,
            len == chunk@.len(),
            frames == len / channels,
            all == front_pair(chunk@, channels as int),
            f <= frames,
            at == f * channels,
            out@ == all.take(f * 2),
        decreases frames - f,
    {
        proof {
            let (x, n, c, l) = (f as int, frames as int, channels as int, len as int);
            assert(x * c + c == (x + 1) * c && (x + 1) * c <= l) by (nonlinear_arith)
                requires
                    x + 1 <= n,
                    n == l / c,
                    c > 0,
                    l >= 0,
            ;
        }
        out.push(chunk[at]);
        out.push(chunk[at + 1]);
        assert(out@ =~= all.take((f + 1) * 2)) by {
            assert((f * 2) / 2 == f && (f * 2) % 2 == 0 && (f * 2 + 1) / 2 == f && (f * 2 + 1) % 2 == 1);
            assert(all[f * 2] == chunk@[at as int]);
            assert(all[f * 2 + 1] == chunk@[at + 1]);
        }
        at = at + channels;
        f += 1;
    }
    assert(all.take(f * 2) =~= all);
    out
}

// ---- FLAC ----

/// Why a FLAC file could not be made.
#[derive(Clone, Copy, Debug, PartialEq, Eq, Structural)]
pub enum FlacError {
    /// The encoder refused the audio.
    Encoding,
    /// The stream could not be written down.
    Output,
}

/// An encoded stream, of flacenc.
#[verifier::external_type_specification]
#[verifier::external_body]
pub struct ExStream(flacenc::component::Stream);

/// The interleaved samples that a stream encodes.
pub uninterp spec fn stream_audio(s: flacenc::component::Stream) -> Seq<i32>;

/// The format a stream says it has: channels, bits per sample, sample rate.
pub uninterp spec fn stream_format(s: flacenc::component::Stream) -> Seq<nat>;

/// The metadata blocks of a stream behind the first: their types and contents.
pub uninterp spec fn stream_blocks(s: flacenc::component::Stream) -> Seq<(u8, Seq<u8>)>;

/// The number of frames that the stream information gives; zero where it is unknown.
pub uninterp spec fn stream_count(s: flacenc::component::Stream) -> nat;

/// A stream written down as a file; `None` where it cannot be.
pub uninterp spec fn stream_file(s: flacenc::component::Stream) -> Option<Seq<u8>>;

/// The most channels a FLAC stream has.
pub const FLAC_CHANNELS: usize = 8;

/// The highest sample rate that is encoded as FLAC.
pub const FLAC_RATE: u32 = 96_000;

/// From this many samples on the encoder may run out of frame numbers: `2^31` frames of 4096.
pub const FLAC_SAMPLES: u64 = 0x800_0000_0000;

/// "fLaC"
pub open spec fn flac_mark() -> Seq<u8> {
    seq![0x66u8, 0x4c, 0x61, 0x43]
}

/// Samples that a signed number of `bits` bits can hold.
pub open spec fn samples_fit(samples: Seq<i32>, bits: usize) -> bool {
    let half: int = if bits == 16 { 0x8000 } else { 0x80_0000 };
    forall|i: int| 0 <= i < samples.len() ==> -half <= #[trigger] samples[i] < half
}

/// Calls `flacenc::encode_with_fixed_block_size` with the default settings and their block
/// size on a `MemSource` of the samples. A stream that comes back holds exactly these samples
/// (the coding is lossless) in this format, and no metadata besides the stream information.
/// It refuses more than eight channels and rates above 96 kHz, and nothing else as long as its
/// 31-bit frame numbers last; what happens beyond that is left open.
#[verifier::external_body]
fn flac_encode(samples: &[i32], channels: usize, bits: usize, rate: u32) -> (r: Option<flacenc::component::Stream>)
    requires
        channels > 0,
        bits == 16 || bits == 24,
        samples@.len() % channels as nat == 0,
        samples_fit(samples@, bits),
    ensures
        r matches Some(s) ==> {
            &&& stream_audio(s) == samples@
            &&& stream_format(s) == seq![channels as nat, bits as nat, rate as nat]
            &&& stream_blocks(s).len() == 0
        },
        r is Some ==> channels <= FLAC_CHANNELS && rate <= FLAC_RATE,
        r is None ==> channels > FLAC_CHANNELS || rate > FLAC_RATE || samples@.len() >= FLAC_SAMPLES,
{
    let config = flacenc::error::Verify::into_verified(flacenc::config::Encoder::default()).ok()?;
    let source = flacenc::source::MemSource::from_samples(samples, channels, bits, rate as usize);
    flacenc::encode_with_fixed_block_size(&config, source, config.block_size).ok()
}

/// Calls `Stream::add_metadata_block` with a block of type 4 (VORBIS_COMMENT) made by
/// `MetadataBlockData::new_unknown`, which accepts every type up to 126. The block comes last;
/// audio, format and number of frames stay.
#[verifier::external_body]
fn flac_add_comments(stream: &mut flacenc::component::Stream, body: &[u8])
    ensures
        stream_audio(*final(stream)) == stream_audio(*old(stream)),
        stream_format(*final(stream)) == stream_format(*old(stream)),
        stream_count(*final(stream)) == stream_count(*old(stream)),
        stream_blocks(*final(stream)) == stream_blocks(*old(stream)).push((4u8, body@)),
{
    if let Ok(block) = flacenc::component::MetadataBlockData::new_unknown(4, body) {
        stream.add_metadata_block(block);
    }
}

/// Calls `StreamInfo::set_total_samples` on the information of the stream: nothing else in it
/// changes.
#[verifier::external_body]
fn flac_set_count(stream: &mut flacenc::component::Stream, count: usize)
    ensures
        stream_audio(*final(stream)) == stream_audio(*old(stream)),
        stream_format(*final(stream)) == stream_format(*old(stream)),
        stream_blocks(*final(stream)) == stream_blocks(*old(stream)),
        stream_count(*final(stream)) == count,
{
    stream.stream_info_mut().set_total_samples(count);
}

/// The number of frames in the stream information of a file: 36 bits from the middle of byte 21.
pub open spec fn count_in(b: Seq<u8>) -> nat {
    (b[21] as nat % 16) * 0x1_0000_0000 + be(b.subrange(22, 26))
}

/// Calls `BitRepr::write` of the stream into a `ByteSink`: the mark "fLaC", the stream
/// information block of 4 and 34 bytes, which gives the number of frames in 36 bits, and the
/// rest. Whether it can be written down, and the bytes, depend on the stream alone.
#[verifier::external_body]
fn flac_write(stream: &flacenc::component::Stream) -> (r: Option<Vec<u8>>)
    ensures
        match r {
            Some(b) => stream_file(*stream) == Some(b@) && b@.len() >= 42 && holds(b@, 0, flac_mark()) && (stream_count(
                *stream,
            ) < 0x10_0000_0000 ==> count_in(b@) == stream_count(*stream)),
            None => stream_file(*stream) is None,
        },
{
    let mut sink = flacenc::bitsink::ByteSink::new();
    flacenc::component::BitRepr::write(stream, &mut sink).ok()?;
    Some(sink.as_slice().to_vec())
}

/// A FLAC file whose stream information gives the largest block size as the smallest too. The
/// encoder records the short final block as the stream's minimum block size. The format excludes
/// the last block, and decoders read two different sizes as "variable block size" and then
/// reject the fixed-size frames.
pub open spec fn one_block_size(b: Seq<u8>) -> Seq<u8> {
    if b.len() >= 12 && holds(b, 0, flac_mark()) {
        b.update(8, b[10]).update(9, b[11])
    } else {
        b
    }
}

/// `one_block_size` of a file. The stream information starts at byte 8: smallest block size,
/// largest block size, two bytes each.
pub fn fix_block_size(bytes: Vec<u8>) -> (r: Vec<u8>)
    ensures
        r@ == one_block_size(bytes@),
{
    let mark = vec![0x66u8, 0x4c, 0x61, 0x43];
    assert(mark@ =~= flac_mark());
    let mut bytes = bytes;
    if bytes.len() >= 12 && matches_at(&bytes, 0, &mark) {
        let (hi, lo) = (bytes[10], bytes[11]);
        bytes.set(8, hi);
        bytes.set(9, lo);
    }
    bytes
}

/// `s` holds this audio and these tags, and nothing else. It leaves the number of frames open.
pub open spec fn is_flac_stream(
    s: flacenc::component::Stream,
    samples: Seq<i32>,
    channels: usize,
    bits: usize,
    rate: u32,
    tags: Tags,
) -> bool {
    &&& stream_audio(s) == samples
    &&& stream_format(s) == seq![channels as nat, bits as nat, rate as nat]
    &&& stream_blocks(s) == seq![(4u8, comment_block(tags))]
    &&& stream_count(s) == 0
}

/// What comes of writing the stream `s` down as a FLAC file.
pub open spec fn is_flac_file(s: flacenc::component::Stream, r: Result<Vec<u8>, FlacError>) -> bool {
    match stream_file(s) {
        Some(file) => r is Ok && r->Ok_0@ == one_block_size(file),
        None => r == Err::<Vec<u8>, FlacError>(FlacError::Output),
    }
}

/// Encode interleaved samples as a FLAC file with comments, as a stream of unknown length. Too
/// many channels, or too high a rate, are refused.
pub fn encode_flac(samples: &[i32], channels: usize, bits: usize, rate: u32, tags: &Tags) -> (r: Result<
    Vec<u8>,
    FlacError,
>)
    requires
        channels > 0,
        bits == 16 || bits == 24,
        samples@.len() % channels as nat == 0,
        samples_fit(samples@, bits),
    ensures
        samples@.len() < FLAC_SAMPLES ==> (r == Err::<Vec<u8>, FlacError>(FlacError::Encoding) <==> channels
            > FLAC_CHANNELS || rate > FLAC_RATE),
        r != Err::<Vec<u8>, FlacError>(FlacError::Encoding) ==> exists|s: flacenc::component::Stream|
            #[trigger] is_flac_stream(s, samples@, channels, bits, rate, *tags) && is_flac_file(s, r),
        r matches Ok(bytes) ==> bytes@.len() >= 42 && bytes@[8] == bytes@[10] && bytes@[9] == bytes@[11] && count_in(
            bytes@,
        ) == 0,
{
    let mut stream = match flac_encode(samples, channels, bits, rate) {
        Some(s) => s,
        None => return Err(FlacError::Encoding),
    };
    flac_set_count(&mut stream, 0);
    let body = vorbis_comment(tags);
    flac_add_comments(&mut stream, &body);
    assert(stream_blocks(stream) =~= seq![(4u8, comment_block(*tags))]);
    assert(is_flac_stream(stream, samples@, channels, bits, rate, *tags));
    let r = match flac_write(&stream) {
        Some(bytes) => {
            let fixed = fix_block_size(bytes);
            assert(fixed@.subrange(22, 26) =~= bytes@.subrange(22, 26));
            Ok(fixed)
        },
        None => Err(FlacError::Output),
    };
    assert(is_flac_file(stream, r));
    r
}

} // verus!

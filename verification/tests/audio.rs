//! End-to-end checks on real encoded files: seeking lands on exactly the samples a straight decode
//! produces, and exported tracks are exactly the source samples `[start, end)`.

use ebur128::{EbuR128, Mode};
use mp3lame_encoder::{Bitrate, Builder, FlushGap, FlushNoGap, InterleavedPcm, Quality, VbrMode};
use splitter::export::{Normalize, Profile};
use splitter::loudness::{apply_to_jobs, JobGain, Loudness, LoudnessMap, Measured};
use splitter::mp3cut::{mp3_track, CutError};
use splitter::mp3index::Mp3Index;
use splitter::scan::{describe, Bitrate as Rate};
use splitter::source::{discard_after_seek, mp3_seek, seek_points, skip_frames, TimeBase};
use splitter::tags::{id3v2, ReplayGain, Tags};
use splitter::transcode::{
    encode_flac, fit_preview, flac_bits, lame_bitrate, lame_quality, mp3_channels, mp3_rate, preview_plan, LameQuality,
    PreviewPlan,
};
use splitter::wav::{pcm16_bytes, wav16_header, wav_ranges, wav_track, WavCopy, WavLayout};
use std::io::Cursor;
use std::num::NonZeroU32;
use symphonia::default::formats::MpaReader;

const RATE: u32 = 44100;
const SECS: usize = 12;

#[derive(Clone, Copy)]
enum Mp3Mode {
    Cbr(Bitrate),
    Vbr,
}

/// Stereo test signal whose content changes constantly (chirp + LCG noise), so an
/// off-by-some-samples result can't match by accident.
fn signal() -> Vec<i16> {
    let n = RATE as usize * SECS;
    let mut out = Vec::with_capacity(n * 2);
    let mut seed: u32 = 12345;
    for i in 0..n {
        let t = i as f32 / RATE as f32;
        let chirp = (2.0 * std::f32::consts::PI * (200.0 + 300.0 * t) * t).sin();
        seed = seed.wrapping_mul(1664525).wrapping_add(1013904223);
        let noise = (seed >> 16) as f32 / 65535.0 - 0.5;
        // Quiet gap in the middle, like the space between two tracks.
        let gain = if (5.0..6.0).contains(&t) { 0.0 } else { 0.5 };
        out.push((gain * (chirp * 0.8 + noise * 0.2) * 32767.0) as i16);
        out.push((gain * (chirp * 0.3 - noise * 0.4) * 32767.0) as i16);
    }
    out
}

fn encode_mp3(mode: Mp3Mode) -> Vec<u8> {
    let mut b = Builder::new().unwrap();
    b.set_num_channels(2).unwrap();
    b.set_sample_rate(RATE).unwrap();
    // Never let LAME resample (it would at low bitrates).
    b.set_output_sample_rate(NonZeroU32::new(RATE)).unwrap();
    match mode {
        Mp3Mode::Vbr => {
            b.set_vbr_mode(VbrMode::Mtrh).unwrap();
            b.set_vbr_quality(Quality::Good).unwrap();
        }
        Mp3Mode::Cbr(rate) => {
            b.set_vbr_mode(VbrMode::Off).unwrap();
            b.set_brate(rate).unwrap();
        }
    }
    b.set_quality(Quality::Good).unwrap();
    b.set_to_write_vbr_tag(true).unwrap();
    let mut enc = b.build().unwrap();

    let pcm = signal();
    let mut mp3 = Vec::new();
    // The *_to_vec helpers write into spare capacity only, and LAME treats an empty
    // buffer as unbounded, so always reserve first.
    for chunk in pcm.chunks(4096 * 2) {
        mp3.reserve(mp3lame_encoder::max_required_buffer_size(chunk.len()));
        enc.encode_to_vec(InterleavedPcm(chunk), &mut mp3).unwrap();
    }
    mp3.reserve(7200);
    enc.flush_to_vec::<FlushNoGap>(&mut mp3).unwrap();
    // Replace the placeholder first frame with the real Xing/Info + LAME tag.
    let mut tag = Vec::with_capacity(enc.lame_tag_size());
    if enc.lame_tag_encode_to_vec(&mut tag).is_some() {
        mp3[..tag.len()].copy_from_slice(&tag);
    }

    // Prepend a small ID3v2 tag, as real files have.
    let mut file = b"ID3\x03\x00\x00\x00\x00\x00\x0a".to_vec();
    file.extend_from_slice(&[0u8; 10]);
    file.extend_from_slice(&mp3);
    file
}

fn wav_file() -> Vec<u8> {
    let pcm = signal();
    let data_len = (pcm.len() * 2) as u32;
    let mut f = Vec::new();
    f.extend_from_slice(b"RIFF");
    f.extend_from_slice(&(36 + data_len).to_le_bytes());
    f.extend_from_slice(b"WAVEfmt ");
    f.extend_from_slice(&16u32.to_le_bytes());
    f.extend_from_slice(&1u16.to_le_bytes()); // PCM
    f.extend_from_slice(&2u16.to_le_bytes());
    f.extend_from_slice(&RATE.to_le_bytes());
    f.extend_from_slice(&(RATE * 4).to_le_bytes());
    f.extend_from_slice(&4u16.to_le_bytes());
    f.extend_from_slice(&16u16.to_le_bytes());
    f.extend_from_slice(b"data");
    f.extend_from_slice(&data_len.to_le_bytes());
    for s in pcm {
        f.extend_from_slice(&s.to_le_bytes());
    }
    f
}

/// Decode from here on, throwing away the first `discard` frames.
fn decode(mut format: Box<dyn symphonia::core::formats::FormatReader>, mut dec: Box<dyn symphonia::core::codecs::Decoder>, mut discard: u64, limit: usize) -> Vec<f32> {
    let mut out = Vec::new();
    while let Ok(packet) = format.next_packet() {
        let Ok(decoded) = dec.decode(&packet) else { continue };
        let spec = *decoded.spec();
        let ch = spec.channels.count();
        let mut buf = symphonia::core::audio::SampleBuffer::<f32>::new(decoded.capacity() as u64, spec);
        buf.copy_interleaved_ref(decoded);
        let s = skip_frames(discard, (buf.samples().len() / ch) as u64);
        discard = s.left;
        out.extend_from_slice(&buf.samples()[s.skip as usize * ch..]);
        if out.len() >= limit {
            break;
        }
    }
    out
}

fn decoder_of(format: &dyn symphonia::core::formats::FormatReader) -> Box<dyn symphonia::core::codecs::Decoder> {
    let track = format.default_track().unwrap();
    symphonia::default::get_codecs().make(&track.codec_params, &Default::default()).unwrap()
}

fn probe(bytes: Vec<u8>, gapless: bool) -> Box<dyn symphonia::core::formats::FormatReader> {
    let mss = symphonia::core::io::MediaSourceStream::new(Box::new(Cursor::new(bytes)), Default::default());
    let opts = symphonia::core::formats::FormatOptions { enable_gapless: gapless, ..Default::default() };
    symphonia::default::get_probe().format(&symphonia::core::probe::Hint::new(), mss, &opts, &Default::default()).unwrap().format
}

/// Decode with gapless trimming on (LAME delay/padding honoured), as a player would.
fn decode_gapless(bytes: Vec<u8>) -> Vec<f32> {
    let format = probe(bytes, true);
    let dec = decoder_of(format.as_ref());
    decode(format, dec, 0, usize::MAX)
}

/// From sample frame `frame` on.
fn mp3_from(bytes: &[u8], index: &Mp3Index, frame: u64, limit: usize) -> Vec<f32> {
    let Some(seek) = mp3_seek(index, bytes, frame).unwrap() else { return Vec::new() };
    let part = bytes[seek.from as usize..seek.to as usize].to_vec();
    let mss = symphonia::core::io::MediaSourceStream::new(Box::new(symphonia::core::io::ReadOnlySource::new(Cursor::new(part))), Default::default());
    let reader = <MpaReader as symphonia::core::formats::FormatReader>::try_new(mss, &symphonia::core::formats::FormatOptions::default()).unwrap();
    let dec = decoder_of(&reader);
    decode(Box::new(reader), dec, seek.discard, limit)
}

fn wav_from(bytes: &[u8], frame: u64, limit: usize) -> Vec<f32> {
    let mut format = probe(bytes.to_vec(), false);
    let mut dec = decoder_of(format.as_ref());
    let track = format.default_track().unwrap();
    let (id, tb) = (track.id, track.codec_params.time_base.unwrap());
    let base = TimeBase { numer: tb.numer, denom: tb.denom, rate: RATE };
    for from in seek_points(frame) {
        let to = symphonia::core::formats::SeekTo::TimeStamp { ts: base.to_ts(from), track_id: id };
        if let Ok(seeked) = format.seek(symphonia::core::formats::SeekMode::Accurate, to) {
            dec.reset();
            let discard = discard_after_seek(frame, base.to_frame(seeked.actual_ts));
            return decode(format, dec, discard, limit);
        }
    }
    Vec::new()
}

fn max_diff(a: &[f32], b: &[f32]) -> f32 {
    a.iter().zip(b).map(|(x, y)| (x - y).abs()).fold(0.0, f32::max)
}

fn check_seeks(total: u64, full: &[f32], from: impl Fn(u64, usize) -> Vec<f32>) {
    assert!(total.abs_diff(RATE as u64 * SECS as u64) < 4000, "decoded {total} frames");
    assert_eq!(full.len() as u64, total * 2);
    for t in [0, 1, 1151, 1152, 1153, 4000, 50_000, 3 * RATE as u64 + 17, total - 5000, total - 1] {
        let got = from(t, 4096 * 2);
        let want = &full[t as usize * 2..];
        let n = got.len().min(want.len()).min(4096 * 2);
        assert!(n > 0, "nothing decoded after seek to {t}");
        let diff = max_diff(&got[..n], &want[..n]);
        assert!(diff < 1e-4, "seek to {t} is off (max diff {diff})");
    }
}

fn check_mp3_seeks(mode: Mp3Mode) -> Mp3Index {
    let bytes = encode_mp3(mode);
    let index = Mp3Index::build(&bytes).unwrap();
    assert!(index.in_order());
    let full = mp3_from(&bytes, &index, 0, usize::MAX);
    check_seeks(index.total_samples(), &full, |t, n| mp3_from(&bytes, &index, t, n));
    assert!(mp3_from(&bytes, &index, index.total_samples(), 10).is_empty());
    index
}

#[test]
fn mp3_cbr_index_and_seek_are_exact() {
    let index = check_mp3_seeks(Mp3Mode::Cbr(Bitrate::Kbps128));
    let (codec, bitrate) = describe(Some(&index), None, RATE, 2);
    assert_eq!(codec, "MP3");
    assert!(matches!(bitrate, Rate::Cbr(128)));
}

#[test]
fn mp3_vbr_index_and_seek_are_exact() {
    let index = check_mp3_seeks(Mp3Mode::Vbr);
    let (_, bitrate) = describe(Some(&index), None, RATE, 2);
    assert!(matches!(bitrate, Rate::Vbr { .. }), "{bitrate:?}");
}

#[test]
fn mp3_low_bitrate_seek_is_exact() {
    // At 32 kbps the bit reservoir reaches back several frames.
    check_mp3_seeks(Mp3Mode::Cbr(Bitrate::Kbps32));
}

#[test]
fn wav_seek_is_exact() {
    let bytes = wav_file();
    let full = wav_from(&bytes, 0, usize::MAX);
    check_seeks(RATE as u64 * SECS as u64, &full, |t, n| wav_from(&bytes, t, n));
}

/// Samples every MP3 decoder emits before the first real one; a track starting at 0 can't
/// begin earlier than this.
const DECODER_DELAY: u64 = 529;

/// Awkward boundaries: mid-frame, on a frame edge, in loud audio, in the quiet gap, the end.
fn bounds(total: u64) -> [u64; 7] {
    [0, 1_153 * 3 + 7, 99_999, 115_200, 5 * RATE as u64 + 22_050, 400_001, total]
}

fn tags_of(i: usize) -> Tags {
    Tags { title: format!("Track {}", i + 1), album: "Test".into(), track: i + 1, total: 6, replaygain: None }
}

fn check_mp3_export(mode: Mp3Mode) {
    let bytes = encode_mp3(mode);
    let index = Mp3Index::build(&bytes).unwrap();
    let full = mp3_from(&bytes, &index, 0, usize::MAX);
    for (i, w) in bounds(index.total_samples()).windows(2).enumerate() {
        let track = mp3_track(&bytes, &index, w[0], w[1], &tags_of(i)).unwrap();
        let got = decode_gapless(track);
        let want = &full[w[0].max(DECODER_DELAY) as usize * 2..w[1] as usize * 2];
        assert_eq!(got.len(), want.len(), "track {i}: {} frames, expected {}", got.len() / 2, want.len() / 2);
        let diff = max_diff(&got, want);
        assert!(diff < 1e-4, "track {i}: samples differ (max {diff})");
    }
    assert_eq!(mp3_track(&bytes, &index, 5, 5, &tags_of(0)), Err(CutError::Empty));
    assert_eq!(mp3_track(&bytes, &index, index.total_samples(), u32::MAX as u64, &tags_of(0)), Err(CutError::Empty));
}

#[test]
fn mp3_cbr_export_is_sample_exact() {
    check_mp3_export(Mp3Mode::Cbr(Bitrate::Kbps128));
}

#[test]
fn mp3_vbr_export_is_sample_exact() {
    check_mp3_export(Mp3Mode::Vbr);
}

#[test]
fn mp3_low_bitrate_export_is_sample_exact() {
    check_mp3_export(Mp3Mode::Cbr(Bitrate::Kbps32));
}

/// The file that a copy describes.
fn write_copy(src: &[u8], copy: &WavCopy) -> Vec<u8> {
    let mut out = copy.header.clone();
    for &(at, len) in &copy.ranges {
        out.extend_from_slice(&src[at as usize..(at + len) as usize]);
    }
    if copy.pad {
        out.push(0);
    }
    out
}

#[test]
fn wav_export_is_byte_exact() {
    let src = wav_file();
    let full = wav_from(&src, 0, usize::MAX);
    let layout = WavLayout::read(&src, src.len() as u64).unwrap();
    let b = bounds(RATE as u64 * SECS as u64);
    let mut files = Vec::new();
    for w in b.windows(2) {
        let out = write_copy(&src, &wav_track(&layout, w[0], w[1]).unwrap());
        let got = decode_gapless(out.clone());
        assert_eq!(got, &full[w[0] as usize * 2..w[1] as usize * 2]);
        files.push(out);
    }
    // Byte-level check on one track: the data chunk is a straight copy.
    let (a, b) = (1_153 * 3 + 7, 99_999);
    assert_eq!(&files[1][44..], &src[44 + a * 4..44 + b * 4]);
}

#[test]
fn joined_ranges_are_byte_exact() {
    let src = wav_file();
    let layout = WavLayout::read(&src, src.len() as u64).unwrap();
    let out = write_copy(&src, &wav_ranges(&layout, &[(10, 20), (30, 35)]).unwrap());
    assert_eq!(out.len(), 44 + 15 * 4);
    assert_eq!(&out[44..84], &src[84..124]);
    assert_eq!(&out[84..], &src[44 + 30 * 4..44 + 35 * 4]);
}

const A: u64 = 1_153 * 3 + 7;
const B: u64 = 5 * RATE as u64 + 22_050;

fn to_int(x: f32, bits: usize) -> i32 {
    let max = ((1i64 << (bits - 1)) - 1) as f32;
    (x * (max + 1.0)).round().clamp(-max - 1.0, max) as i32
}

fn paris() -> Tags {
    Tags { replaygain: None, title: "Été à Paris".into(), album: "Live".into(), track: 2, total: 9 }
}

/// The track `[A, B)` of `pcm` as a file.
fn encode_track(profile: Profile, pcm: &[f32], bits: Option<u32>, tags: &Tags) -> Vec<u8> {
    let part = &pcm[A as usize * 2..B as usize * 2];
    match profile {
        Profile::Flac => {
            let b = flac_bits(bits);
            let ints: Vec<i32> = part.iter().map(|&x| to_int(x, b)).collect();
            encode_flac(&ints, 2, b, RATE, tags).unwrap()
        }
        Profile::Wav16 => {
            let ints: Vec<i16> = part.iter().map(|&x| to_int(x, 16) as i16).collect();
            let mut out = wav16_header(2, RATE, ints.len() as u64 * 2).unwrap();
            out.extend_from_slice(&pcm16_bytes(&ints));
            out
        }
        _ => {
            let mut out = id3v2(tags);
            out.extend_from_slice(&lame(profile, part));
            out
        }
    }
}

fn lame(profile: Profile, part: &[f32]) -> Vec<u8> {
    let mut b = Builder::new().unwrap();
    b.set_num_channels(mp3_channels(2) as u8).unwrap();
    b.set_sample_rate(RATE).unwrap();
    b.set_output_sample_rate(NonZeroU32::new(mp3_rate(RATE))).unwrap();
    match profile {
        Profile::Mp3Vbr { quality } => {
            b.set_vbr_mode(VbrMode::Mtrh).unwrap();
            let q = match lame_quality(quality) {
                LameQuality::NearBest => Quality::NearBest,
                LameQuality::Nice => Quality::Nice,
                other => panic!("{other:?}"),
            };
            b.set_vbr_quality(q).unwrap();
        }
        Profile::Mp3Cbr { kbps } => {
            assert_eq!(lame_bitrate(kbps), 192);
            b.set_vbr_mode(VbrMode::Off).unwrap();
            b.set_brate(Bitrate::Kbps192).unwrap();
        }
        _ => unreachable!(),
    }
    b.set_quality(Quality::NearBest).unwrap();
    b.set_to_write_vbr_tag(true).unwrap();
    let mut enc = b.build().unwrap();
    let mut mp3 = Vec::new();
    for chunk in part.chunks(8192) {
        mp3.reserve(mp3lame_encoder::max_required_buffer_size(chunk.len()));
        enc.encode_to_vec(InterleavedPcm(chunk), &mut mp3).unwrap();
    }
    mp3.reserve(7200);
    enc.flush_to_vec::<FlushGap>(&mut mp3).unwrap();
    let mut tag = Vec::with_capacity(enc.lame_tag_size());
    if enc.lame_tag_encode_to_vec(&mut tag).is_some() && tag.len() <= mp3.len() {
        mp3[..tag.len()].copy_from_slice(&tag);
    }
    mp3
}

/// Signal-to-noise ratio of `got` against `want`, in dB.
fn snr_db(got: &[f32], want: &[f32]) -> f64 {
    let (mut sig, mut err) = (0.0f64, 0.0f64);
    for (g, w) in got.iter().zip(want) {
        sig += (*w as f64).powi(2);
        err += (*g as f64 - *w as f64).powi(2);
    }
    10.0 * (sig / err.max(1e-20)).log10()
}

#[test]
fn wav_to_flac_is_lossless() {
    let pcm = wav_from(&wav_file(), 0, usize::MAX);
    let out = encode_track(Profile::Flac, &pcm, Some(16), &paris());
    let size = out.len();
    let got = decode_gapless(out);
    let want = &pcm[A as usize * 2..B as usize * 2];
    assert_eq!(got.len(), want.len());
    assert!(max_diff(&got, want) < 1e-6, "FLAC must be bit-exact for a 16-bit source");
    // Smaller than the PCM it holds.
    assert!((size as u64) < want.len() as u64 * 2);
}

#[test]
fn wav_to_wav16_is_exact() {
    let pcm = wav_from(&wav_file(), 0, usize::MAX);
    let got = decode_gapless(encode_track(Profile::Wav16, &pcm, Some(16), &paris()));
    assert_eq!(got.len(), (B - A) as usize * 2);
    assert!(max_diff(&got, &pcm[A as usize * 2..B as usize * 2]) < 1e-6);
}

#[test]
fn mp3_to_flac_keeps_the_decoded_audio() {
    let bytes = encode_mp3(Mp3Mode::Cbr(Bitrate::Kbps128));
    let index = Mp3Index::build(&bytes).unwrap();
    let pcm = mp3_from(&bytes, &index, 0, usize::MAX);
    let got = decode_gapless(encode_track(Profile::Flac, &pcm, None, &paris()));
    let want = &pcm[A as usize * 2..B as usize * 2];
    assert_eq!(got.len(), want.len());
    // Only 16-bit rounding of the decoded MP3.
    assert!(max_diff(&got, want) <= 1.0 / 32768.0 + 1e-6);
}

#[test]
fn reencoded_mp3_is_exact_length_and_aligned() {
    let vbr = encode_mp3(Mp3Mode::Vbr);
    let index = Mp3Index::build(&vbr).unwrap();
    for (name, pcm) in
        [("wav", wav_from(&wav_file(), 0, usize::MAX)), ("mp3", mp3_from(&vbr, &index, 0, usize::MAX))]
    {
        for profile in [Profile::Mp3Vbr { quality: 2 }, Profile::Mp3Cbr { kbps: 192 }] {
            let out = encode_track(profile, &pcm, None, &paris());
            assert_eq!(&out[..3], b"ID3");
            let got = decode_gapless(out);
            let want = &pcm[A as usize * 2..B as usize * 2];
            assert_eq!(got.len(), want.len(), "{name} → {}: gapless length", profile.short());
            // Misaligned by even one sample, this noisy test signal would score near 0 dB.
            let snr = snr_db(&got, want);
            assert!(snr > 12.0, "{name} → {}: SNR {snr:.1} dB", profile.short());
        }
    }
}

#[test]
fn previews_line_up_with_the_source() {
    let pcm = wav_from(&wav_file(), 0, usize::MAX);
    let want = &pcm[A as usize * 2..B as usize * 2];
    for profile in [Profile::Mp3Vbr { quality: 4 }, Profile::Flac, Profile::Wav16] {
        let p = match preview_plan(profile, 2, Some(16)).unwrap() {
            PreviewPlan::RoundTrip => decode_gapless(lame(profile, want)),
            PreviewPlan::Quantize { bits } => {
                let max = (1i64 << (bits - 1)) as f32;
                want.iter().map(|&x| to_int(x, bits) as f32 / max).collect()
            }
        };
        let p = fit_preview(p, want.len(), 2, 0.0).unwrap();
        assert_eq!(p.len(), want.len(), "{}", profile.short());
        let snr = snr_db(&p, want);
        let floor = if profile.is_lossy() { 12.0 } else { 80.0 };
        assert!(snr > floor, "{}: SNR {snr:.1} dB", profile.short());
    }
}

/// Block measurements of stereo audio.
fn analyze(pcm: &[f32]) -> LoudnessMap {
    let hop = (RATE / 10) as u64;
    let mut ebu = EbuR128::new(2, RATE, Mode::M | Mode::TRUE_PEAK).unwrap();
    let mut map = LoudnessMap { hop, ..Default::default() };
    for frames in pcm.chunks(hop as usize * 2) {
        ebu.add_frames_f32(frames).unwrap();
        let m = ebu.loudness_momentary().unwrap_or(f64::NEG_INFINITY);
        let energy = if m.is_finite() { 10f64.powf((m + 0.691) / 10.0) } else { 0.0 };
        let peak = (0..2).map(|c| ebu.prev_true_peak(c).unwrap_or(0.0)).fold(0.0, f64::max);
        map.block_energy.push((energy * 1e15) as u64);
        map.peak.push((peak * 1e9) as u64);
    }
    map
}

fn levels(m: &Measured) -> (Option<f64>, f64) {
    let lufs = m.mean.map(|m| -0.691 + 10.0 * (m.sum as f64 / m.count as f64 / 1e15).log10());
    (lufs, 20.0 * (m.peak as f64 / 1e9).log10())
}

fn loudness(m: &Measured) -> Loudness {
    let (lufs, peak) = levels(m);
    Loudness { lufs: lufs.map(|l| (l * 1e6) as i32), peak: (peak * 1e6) as i32 }
}

#[test]
fn range_loudness_matches_direct_measurement() {
    let pcm = wav_from(&wav_file(), 0, usize::MAX);
    let map = analyze(&pcm);
    let hop = map.hop;
    // Hop-aligned ranges: a whole "track", one spanning the quiet gap, and the full file.
    for (a, b) in [(0, 40 * hop), (30 * hop, 70 * hop), (0, map.block_energy.len() as u64 * hop)] {
        let (lufs, peak_db) = levels(&map.range(a, b));
        let mut e = EbuR128::new(2, RATE, Mode::I | Mode::TRUE_PEAK).unwrap();
        let end = (b as usize * 2).min(pcm.len());
        e.add_frames_f32(&pcm[a as usize * 2..end]).unwrap();
        let direct = e.loudness_global().unwrap();
        let direct_peak = (0..2).map(|c| e.true_peak(c).unwrap()).fold(0.0, f64::max);
        let direct_peak_db = 20.0 * direct_peak.log10();
        // Only difference: the K-weighting filters were already warmed up by earlier audio.
        assert!((lufs.unwrap() - direct).abs() < 0.2, "[{a}, {b}): {lufs:?} vs {direct}");
        assert!((peak_db - direct_peak_db).abs() < 0.3, "[{a}, {b}): peak {peak_db} vs {direct_peak_db}");
    }
}

#[test]
fn normalized_export_hits_the_target_and_is_tagged() {
    let pcm = wav_from(&wav_file(), 0, usize::MAX);
    let map = analyze(&pcm);
    // The loud first 5 s, well away from the silent gap.
    let (a, b) = (RATE as u64 / 2, RATE as u64 * 9 / 2);
    let before = loudness(&map.range(a, b));
    // −14 LUFS would push this signal's peaks past the −1 dBTP ceiling, so aim lower.
    let target = before.lufs.unwrap() - 3_000_000;
    let jobs = apply_to_jobs(&[before], &loudness(&map.ranges(&[(a, b)])), Normalize::Track { target }, true);
    let JobGain { gain, track, album } = jobs[0];
    assert_eq!(gain, -3_000_000);
    let level = track.unwrap();
    assert_eq!(level.gain, -18_000_000 - target as i64, "ReplayGain describes the written level");
    assert!(album.is_none());

    let factor = 10f64.powf(gain as f64 / 1e6 / 20.0) as f32;
    let ints: Vec<i32> =
        pcm[a as usize * 2..b as usize * 2].iter().map(|&x| to_int(x * factor, 16)).collect();
    let peak = (10f64.powf(level.peak as f64 / 1e6 / 20.0) * 1e6) as u64;
    let rg = ReplayGain { track_gain: level.gain, track_peak: peak, album: None };
    let tags = Tags { title: "t".into(), track: 1, total: 1, replaygain: Some(rg), ..Default::default() };
    let bytes = encode_flac(&ints, 2, 16, RATE, &tags).unwrap();
    let text = String::from_utf8_lossy(&bytes[..4096.min(bytes.len())]).into_owned();
    assert!(text.contains("REPLAYGAIN_TRACK_GAIN="), "FLAC carries ReplayGain comments");
    let out = decode_gapless(bytes);
    let mut e = EbuR128::new(2, RATE, Mode::I).unwrap();
    e.add_frames_f32(&out).unwrap();
    let measured = e.loudness_global().unwrap();
    assert!((measured - target as f64 / 1e6).abs() < 0.3, "measured {measured} LUFS, target {target}");
}

#[test]
fn normalization_never_exceeds_the_peak_ceiling() {
    let pcm = wav_from(&wav_file(), 0, usize::MAX);
    let map = analyze(&pcm);
    let range = (0, RATE as u64 * 4);
    let track = loudness(&map.range(range.0, range.1));
    let album = loudness(&map.ranges(&[range]));
    let jobs = apply_to_jobs(&[track], &album, Normalize::Track { target: 0 }, true);
    let peak_after = track.peak as i64 + jobs[0].gain;
    assert!(peak_after <= -1_000_000, "peak would be {peak_after} dBTP");
    // A byte copy can't change level: no gain, but still tagged.
    let jobs = apply_to_jobs(&[track], &album, Normalize::Track { target: 0 }, false);
    assert_eq!(jobs[0].gain, 0);
    assert!(jobs[0].track.is_some());
}

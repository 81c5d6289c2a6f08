use splitter::bytes::{be_u32, be_u64, le_u16, le_u32, push_be, push_le};
use splitter::mp3cut::{carrier_frame, info_frame, mp3_track, plan_mp3_cut, roomy_header, CutError};
use splitter::mp3index::{is_tag_frame, parse_header, IndexError, Mp3Index};
use splitter::mp4::{audio_delay, find_box, BoxStep, Delay, MOOV};
use splitter::peaks::{AnalysisBuilder, LEVELS};
use splitter::player::{
    map_frames, pick_config, resample_points, ring_size, Action, Cmd, ConfigChoice, ConfigError, Fill, OutputConfig,
    Playback,
};
use splitter::ring::Ring;
use splitter::scan::{cache_hit, cache_name, describe, loudness_mark, scan_mark, scan_step, Bitrate, CacheKey, Read, ScanStep, SourceInfo};
use splitter::scanner::{Queues, Work};
use splitter::source::{discard_after_seek, seek_points, skip_frames, FileSlice, MemPcm, SeekTo, TimeBase};
use splitter::tags::{id3v2, vorbis_comment, ReplayGain, Tags};
use splitter::text;
use splitter::transcode::{
    encode_flac, first_two, fit_preview, fix_block_size, gain_matters, lame_bitrate, lame_quality, mp3_channels, mp3_rate,
    next_piece, preview_plan, range_samples, FlacError, LameQuality, Piece, PreviewError,
};
use splitter::export::Profile;
use splitter::wav::{count_frames, wav16_header, wav_ranges, wav_track, WavError, WavLayout};

#[test]
fn id3_is_well_formed() {
    let tag = id3v2(&Tags { title: "Été".into(), album: "Live".into(), track: 3, total: 12, replaygain: None });
    assert_eq!(&tag[..3], b"ID3");
    let size = tag[6..10].iter().fold(0usize, |a, &b| (a << 7) | b as usize);
    assert_eq!(size + 10, tag.len());
}

#[test]
fn replaygain_is_written() {
    let rg = ReplayGain { track_gain: -3_456_000, track_peak: 987_654, album: Some((1_200_000, 1_000_000)) };
    let tags = Tags { title: "T".into(), album: "".into(), track: 0, total: 0, replaygain: Some(rg) };
    let text = String::from_utf8_lossy(&vorbis_comment(&tags)).into_owned();
    for part in [
        "TITLE=T",
        "REPLAYGAIN_TRACK_GAIN=-3.46 dB",
        "REPLAYGAIN_TRACK_PEAK=0.987654",
        "REPLAYGAIN_ALBUM_GAIN=+1.20 dB",
        "REPLAYGAIN_ALBUM_PEAK=1.000000",
    ] {
        assert!(text.contains(part), "{part}");
    }
    assert!(!text.contains("ALBUM=\u{0}") && !text.contains("TRACKNUMBER"));
    assert!(id3v2(&tags).windows(21).any(|w| w == b"REPLAYGAIN_TRACK_GAIN"));
}

// ---- MP4 ----

fn atom(kind: &[u8; 4], body: &[u8]) -> Vec<u8> {
    let mut b = (body.len() as u32 + 8).to_be_bytes().to_vec();
    b.extend_from_slice(kind);
    b.extend_from_slice(body);
    b
}

fn trak(handler: &[u8; 4], timescale: u32, edits: &[i32]) -> Vec<u8> {
    let mut hdlr = vec![0u8; 8];
    hdlr.extend_from_slice(handler);
    hdlr.extend_from_slice(&[0u8; 12]);
    let mut mdhd = vec![0u8; 12];
    mdhd.extend_from_slice(&timescale.to_be_bytes());
    mdhd.extend_from_slice(&[0u8; 8]);
    let mut elst = vec![0u8; 4];
    elst.extend_from_slice(&(edits.len() as u32).to_be_bytes());
    for e in edits {
        elst.extend_from_slice(&1000u32.to_be_bytes());
        elst.extend_from_slice(&e.to_be_bytes());
        elst.extend_from_slice(&0x10000u32.to_be_bytes());
    }
    let mdia = [atom(b"mdhd", &mdhd), atom(b"hdlr", &hdlr)].concat();
    atom(b"trak", &[atom(b"edts", &atom(b"elst", &elst)), atom(b"mdia", &mdia)].concat())
}

#[test]
fn reads_the_aac_priming_from_the_edit_list() {
    // AAC encoders prime with 1024 samples; the video track's own edit (B-frame delay) must not be
    // taken for it, nor an empty edit that only delays the track.
    let moov = [trak(b"vide", 90000, &[6000]), trak(b"soun", 44100, &[-1, 1024])].concat();
    assert_eq!(audio_delay(&moov), Some(Delay { time: 1024, per_second: 44100 }));
}

/// The priming of a whole file.
fn file_delay(file: &[u8]) -> Option<Delay> {
    let len = file.len() as u64;
    let mut pos = 0u64;
    loop {
        let head = &file[pos as usize..(pos as usize + 16).min(file.len())];
        match find_box(head, pos, len, MOOV) {
            BoxStep::Found { start, end } => return audio_delay(&file[start as usize..end as usize]),
            BoxStep::Next { pos: next } => pos = next,
            BoxStep::Missing => return None,
        }
    }
}

#[test]
fn nothing_for_files_without_one() {
    assert_eq!(file_delay(b"not an mp4 at all"), None);
}

#[test]
fn moov_can_come_last() {
    let moov = atom(b"moov", &trak(b"soun", 48000, &[2112]));
    let file = [atom(b"ftyp", b"isom"), atom(b"mdat", &[7u8; 100]), moov].concat();
    assert_eq!(file_delay(&file), Some(Delay { time: 2112, per_second: 48000 }));
    assert_eq!(audio_delay(&trak(b"vide", 48000, &[2112])), None);
    assert_eq!(audio_delay(&trak(b"soun", 0, &[2112])), None);
    assert_eq!(audio_delay(&trak(b"soun", 48000, &[])), None);
}

// ---- Peaks, ring, player ----

#[test]
fn builds_levels_and_columns() {
    let mut b = AnalysisBuilder::new(1);
    let quantize = |v: f32| (v.clamp(-1.0, 1.0) * 32767.0) as i16;
    let samples: Vec<i16> = (0..100_000).map(|i| quantize(if i < 50_000 { 0.5 } else { -0.25 })).collect();
    b.push(&samples);
    let peaks = b.finish();
    assert_eq!(peaks.levels.len(), LEVELS);
    assert_eq!(peaks.levels[0].len(), 100_000usize.div_ceil(256));
    let cols = peaks.columns(0, 100_000, 2);
    assert!((cols[0].1 as f32 / 32767.0 - 0.5).abs() < 1e-3);
    assert!((cols[1].0 as f32 / 32767.0 + 0.25).abs() < 1e-3);
}

#[test]
fn columns_of_nothing_are_flat() {
    let peaks = AnalysisBuilder::new(2).finish();
    assert_eq!(peaks.columns(0, 100, 3), [(0, 0), (0, 0), (0, 0)]);
    assert_eq!(peaks.columns(5, 5, 1), [(0, 0)]);
    let mut b = AnalysisBuilder::new(2);
    // Pieces that don't end on a frame are the caller's: the odd sample is left out.
    b.push(&[1, -2, 3]);
    b.push(&[-4, 5]);
    assert_eq!(b.finish().levels[0], [(-4, 5)]);
}

#[test]
fn wraps_and_aligns() {
    let mut ring = Ring::new(8, 0.0);
    assert_eq!(ring.push(&[1.0; 7], 2), 6);
    let mut out = vec![0.0; 4];
    assert_eq!(ring.pop(&mut out), 4);
    assert_eq!(ring.push(&[2.0, 3.0, 4.0, 5.0, 6.0, 7.0], 2), 6);
    let mut out = vec![0.0; 8];
    assert_eq!(ring.pop(&mut out), 8);
    assert_eq!(&out[..4], &[1.0, 1.0, 2.0, 3.0]);
    assert_eq!(ring.len(), 0);
}

#[test]
fn rings_tell_their_room() {
    let mut ring = Ring::new(4, 0u8);
    assert_eq!((ring.len(), ring.free()), (0, 4));
    assert_eq!(ring.push(&[1, 2, 3], 1), 3);
    assert_eq!((ring.len(), ring.free()), (3, 1));
    ring.clear();
    assert_eq!((ring.len(), ring.free()), (0, 4));
}

#[test]
fn mono_is_duplicated() {
    let mut out = Vec::new();
    map_frames(&[0.1, 0.2], 1, 0.0, 2, &mut out);
    assert_eq!(out, vec![0.1, 0.1, 0.2, 0.2]);
}

#[test]
fn missing_channels_are_silent() {
    let mut out = Vec::new();
    map_frames(&[1, 2, 3, 4, 5], 2, 0, 3, &mut out);
    assert_eq!(out, [1, 2, 0, 3, 4, 0]);
}

/// Linear interpolation between the source frames.
struct Resampler {
    t: u64,
    prev: Vec<f32>,
}

impl Resampler {
    fn process(&mut self, input: &[f32], ch: usize, src: u32, dev: u32, out: &mut Vec<f32>) {
        let mut frames: Vec<Vec<f32>> = Vec::new();
        if !self.prev.is_empty() {
            frames.push(self.prev.clone());
        }
        frames.extend(input.chunks_exact(ch).map(|f| f.to_vec()));
        let (points, t) = resample_points(self.t, src, dev, frames.len());
        for p in points {
            let f = p.num as f32 / dev as f32;
            let (a, b) = (&frames[p.index], &frames[p.index + 1]);
            out.extend(a.iter().zip(b).map(|(x, y)| x * (1.0 - f) + y * f));
        }
        self.t = t;
        self.prev = frames.pop().unwrap();
    }
}

#[test]
fn resampler_keeps_rate() {
    let mut r = Resampler { t: 0, prev: Vec::new() };
    let mut out = Vec::new();
    for _ in 0..100 {
        r.process(&[0.5f32; 441 * 2], 2, 44100, 48000, &mut out);
    }
    let frames = out.len() / 2;
    assert!((frames as i64 - 48000).abs() < 4, "{frames}");
    assert!(out.iter().all(|&s| (s - 0.5).abs() < 1e-6));
}

#[test]
fn playback_starts_seeks_and_stops() {
    let mut p = Playback::idle();
    assert_eq!(p.handle(Cmd::Play, true), Action::Nothing);
    assert!(!p.playing);
    p.load(1000, 44100, 48000);
    assert_eq!(p.handle(Cmd::Toggle, false), Action::Nothing);
    assert!(p.playing);
    assert_eq!(p.wanted(512, 2), 512);
    p.played(512, 512, 512, 2, false);
    assert_eq!(p.consumed, 256);
    assert_eq!(p.position(), 256 * 44100 / 48000);
    assert_eq!(p.handle(Cmd::Seek(5000), false), Action::Seek(1000));
    assert_eq!(p.position(), 1000);
    p.seeked(true);
    // The end of everything pauses, and playing again starts over.
    p.eos = true;
    p.played(0, 512, 512, 2, true);
    assert!(!p.playing);
    assert_eq!(p.handle(Cmd::Play, true), Action::Seek(0));
    assert!(p.playing);
    assert_eq!(p.handle(Cmd::Unload, true), Action::Unload);
    assert!(!p.loaded && !p.playing);
}

#[test]
fn ranges_stop_at_their_end() {
    let mut p = Playback::idle();
    p.load(100_000, 44100, 48000);
    assert_eq!(p.handle(Cmd::PlayRange(1000, 1441), false), Action::SeekThenPlay(1000));
    p.seeked(true);
    assert_eq!(p.play(true), Action::Nothing);
    // 441 source frames are 480 device frames.
    assert_eq!(p.wanted(512, 2), 512);
    p.played(512, 512, 512, 2, false);
    assert_eq!(p.wanted(512, 2), (480 - 256) * 2);
    p.played((480 - 256) * 2, (480 - 256) * 2, 512, 2, false);
    assert!(!p.playing);
    assert_eq!(p.position(), 1441);
    assert_eq!(p.stop_at, u64::MAX);
}

#[test]
fn comparing_swaps_and_loops() {
    let mut p = Playback::idle();
    p.load(100_000, 44100, 44100);
    assert_eq!(p.handle(Cmd::UseAlt(true), false), Action::Nothing, "nothing to compare with");
    p.handle(Cmd::SetAlt(true), false);
    p.handle(Cmd::Loop(Some((100, 200))), false);
    p.handle(Cmd::Seek(100), false);
    p.handle(Cmd::Play, false);
    p.played(100, 100, 100, 2, false);
    assert_eq!(p.handle(Cmd::UseAlt(true), false), Action::Swap { alt: true, frame: 150 });
    assert_eq!(p.check_loop(false), Action::Nothing);
    p.played(100, 100, 100, 2, false);
    assert_eq!(p.check_loop(false), Action::Seek(100));
    // The preview ran out: around again.
    p.playing = false;
    p.eos = true;
    assert_eq!(p.check_loop(true), Action::Seek(100));
    assert!(p.playing);
    assert_eq!(p.handle(Cmd::SetAlt(false), false), Action::Swap { alt: false, frame: 100 });
    assert!(!p.using_alt && !p.has_alt);
    p.handle(Cmd::Pause, false);
    assert!(!p.playing);
}

#[test]
fn filling_stops_when_there_is_no_room() {
    let mut p = Playback::idle();
    assert!(!p.wants_data(100_000, 2));
    p.load(1000, 44100, 44100);
    assert!(p.wants_data(8192, 2) && !p.wants_data(8191, 2));
    assert_eq!(p.next_fill(5, 0, 2), Fill::Push);
    assert_eq!(p.next_fill(0, 8191, 2), Fill::Done);
    assert_eq!(p.next_fill(0, 8192, 2), Fill::Read);
    p.eos = true;
    assert_eq!(p.next_fill(0, 8192, 2), Fill::Done);
    assert_eq!(ring_size(48000, 2), 28800);
}

#[test]
fn output_formats_near_stereo_are_preferred() {
    let c = |channels: u16, min_rate: u32, max_rate: u32, f32_samples: bool| OutputConfig {
        channels,
        min_rate,
        max_rate,
        f32_samples,
    };
    let list = [c(2, 48000, 96000, true), c(8, 8000, 96000, true), c(1, 8000, 96000, true), c(2, 8000, 96000, false)];
    assert_eq!(pick_config(&list, Some(true), 44100), Ok(ConfigChoice::Exact(2)));
    assert_eq!(pick_config(&list, Some(true), 48000), Ok(ConfigChoice::Exact(0)));
    assert_eq!(pick_config(&list[..1], Some(true), 44100), Ok(ConfigChoice::Default));
    assert_eq!(pick_config(&[], Some(false), 44100), Err(ConfigError::NoFloat));
    assert_eq!(pick_config(&[], None, 44100), Err(ConfigError::NoDefault));
}

// ---- Scanning ----

#[test]
fn scans_survive_a_damaged_tail() {
    assert_eq!(scan_step(10, Read::Samples(6), 2), ScanStep::Next { total: 13 });
    assert_eq!(scan_step(10, Read::End, 2), ScanStep::Finish);
    assert_eq!(scan_step(10, Read::Failed, 2), ScanStep::Finish);
    assert_eq!(scan_step(0, Read::Failed, 2), ScanStep::Fail);
    let (codec, bitrate) = describe(None, Some(16), 44100, 2);
    assert_eq!(codec, "PCM 16-bit");
    assert_eq!(bitrate, Bitrate::Pcm { bits: 16, kbps: 1411 });
    assert_eq!(describe(None, None, 44100, 2).1, Bitrate::Unknown);
    let info = SourceInfo {
        codec,
        sample_rate: 44100,
        channels: 2,
        total_samples: 66150,
        file_size: 0,
        bitrate,
    };
    assert_eq!(info.duration_ns(), 1_500_000_000);
}

#[test]
fn caches_hold_one_version_of_a_file() {
    let key = CacheKey { path: "/a".into(), size: 5, mtime_ns: 7 };
    let same = CacheKey { path: "/a".into(), size: 5, mtime_ns: 7 };
    let newer = CacheKey { path: "/a".into(), size: 5, mtime_ns: 8 };
    assert!(cache_hit(&scan_mark(), b"SPLTIDX1", &same, &key));
    assert!(!cache_hit(&scan_mark(), &loudness_mark(), &same, &key));
    assert!(!cache_hit(&scan_mark(), &scan_mark(), &newer, &key));
    assert_eq!(loudness_mark(), b"SPLTLUD1");
    assert_eq!(cache_name(0xabc, "idx"), "0000000000000abc.idx");
}

#[test]
fn the_selection_is_scanned_first() {
    let s = |x: &str| x.to_string();
    let mut q = Queues::default();
    q.set_queue(vec![s("a"), s("b"), s("c")]);
    q.prioritize(s("c"));
    q.scanned(s("x"));
    q.scanned(s("y"));
    q.prioritize_loudness(s("y"));
    let mut order = Vec::new();
    while let Some(w) = q.next_work() {
        order.push(match w {
            Work::Scan(p) => p,
            Work::Loudness(p) => format!("loud {p}"),
        });
    }
    assert_eq!(order, ["c", "a", "b", "loud y", "loud x"]);
}

// ---- Sources ----

#[test]
fn seeking_starts_early_enough() {
    assert_eq!(seek_points(200_000), [197_952, 183_616, 68_928]);
    assert_eq!(seek_points(1000), [0]);
    assert_eq!(discard_after_seek(1000, 900), 100);
    assert_eq!(discard_after_seek(1000, 1100), 0);
    let s = skip_frames(1500, 1152);
    assert_eq!((s.skip, s.left), (1152, 348));
    let s = skip_frames(348, 1152);
    assert_eq!((s.skip, s.left), (348, 0));
    let tb = TimeBase { numer: 1, denom: 90_000, rate: 44_100 };
    assert_eq!(tb.to_ts(44_100), 90_000);
    assert_eq!(tb.to_frame(90_000), 44_100);
    assert!(tb.to_frame(tb.to_ts(12_345)) <= 12_345);
}

#[test]
fn audio_in_memory_is_silent_outside() {
    let mut m = MemPcm::new(vec![1, 2, 3, 4], 0, 2, 44100, 10);
    assert_eq!((m.channels(), m.sample_rate()), (2, 44100));
    m.seek(9);
    let mut out = Vec::new();
    assert!(m.read(&mut out));
    assert_eq!(out, [0, 0]);
    assert!(m.read(&mut out));
    assert_eq!(out, [0, 0, 1, 2, 3, 4]);
    assert!(!m.read(&mut out));
    assert_eq!(out.len(), 6);
}

#[test]
fn slices_stay_inside_the_file() {
    let mut f = FileSlice::new(100, 150);
    assert_eq!(f.readable(80), 50);
    f.advance(30);
    assert_eq!(f.readable(80), 20);
    assert_eq!(f.seek(SeekTo::Current(-40)), None);
    assert_eq!(f.pos, 30);
    assert_eq!(f.seek(SeekTo::End(-10)), Some(140));
    assert_eq!(f.readable(80), 10);
    assert_eq!(f.seek(SeekTo::Start(60)), Some(160));
    assert_eq!(f.readable(80), 0);
    assert_eq!(FileSlice::new(9, 3).len, 0);
}

// ---- MP3 ----

#[test]
fn broken_files_have_no_index() {
    assert_eq!(Mp3Index::build(b"").err(), Some(IndexError::NoFrames));
    assert_eq!(Mp3Index::build(&[0u8; 5000]).err(), Some(IndexError::NoFrames));
}

/// A file of `n` silent frames at 128 kbps.
fn silent_mp3(n: usize) -> Vec<u8> {
    let mut frame = vec![0xFF, 0xFB, 0x90, 0x00];
    frame.resize(417, 0);
    frame.repeat(n)
}

#[test]
fn silent_frames_are_indexed_and_cut() {
    let b = silent_mp3(20);
    let index = Mp3Index::build(&b).unwrap();
    assert_eq!(index.frames(), 20);
    assert_eq!(index.total_samples(), 20 * 1152);
    assert!(!index.is_vbr());
    assert_eq!(index.frame_end(19), 20 * 417);
    let cut = plan_mp3_cut(&index, 5 * 1152 + 3, 7 * 1152).unwrap();
    assert_eq!(cut.first_frame, 3);
    assert!(cut.carrier);
    assert_eq!(plan_mp3_cut(&index, 7, 7), Err(CutError::Empty));
}

#[test]
fn made_frames_are_real_frames() {
    let template = [0xFF, 0xFB, 0x90, 0x00];
    let (head, len, side) = roomy_header(&template, 511).unwrap();
    let h = parse_header(&head).unwrap();
    assert_eq!((h.frame_len, h.side_info_len()), (len, side));
    let lead = carrier_frame(&template, &[7u8; 511]).unwrap();
    assert_eq!(parse_header(&lead).unwrap().frame_len, lead.len());
    assert_eq!(&lead[lead.len() - 511..], &[7u8; 511]);
    assert_eq!(roomy_header(&[0xFF, 0xFF, 0x90, 0x00], 511).err(), Some(CutError::UnexpectedHeader));
    let tag = info_frame(&template, false, &[0, 417], &silent_mp3(2), 576, 1000);
    assert!(tag.is_ok());
    let tag = tag.unwrap();
    assert!(is_tag_frame(&tag, &parse_header(&tag).unwrap()));
}

// ---- WAV ----

fn wav(fmt: &[u8], data: &[u8]) -> Vec<u8> {
    let mut f = b"RIFF\0\0\0\0WAVEfmt ".to_vec();
    f.extend_from_slice(&(fmt.len() as u32).to_le_bytes());
    f.extend_from_slice(fmt);
    f.extend_from_slice(b"data");
    f.extend_from_slice(&(data.len() as u32).to_le_bytes());
    f.extend_from_slice(data);
    f
}

const FMT: [u8; 16] = [1, 0, 1, 0, 0x44, 0xAC, 0, 0, 0x44, 0xAC, 0, 0, 3, 0, 24, 0];

#[test]
fn wav_files_are_checked() {
    let read = |b: &[u8]| WavLayout::read(b, b.len() as u64);
    let ok = wav(&FMT, &[1, 2, 3, 4, 5, 6, 7, 8, 9]);
    let l = read(&ok).unwrap();
    assert_eq!((l.data_offset, l.data_len, l.block_align), (44, 9, 3));
    // The last three bytes, filled up to an even length.
    let copy = wav_track(&l, 2, 10).unwrap();
    assert_eq!((copy.ranges, copy.pad), (vec![(50, 3)], true));
    assert_eq!(wav_track(&l, 3, 10), Err(WavError::Empty));
    assert_eq!(wav_track(&l, 2, 1), Err(WavError::Empty));
    assert_eq!(wav_ranges(&l, &[]), Err(WavError::NothingKept));
    assert_eq!(count_frames(&[(0, 5), (7, 9)]), 7);
    assert_eq!(read(b"RIFX\0\0\0\0WAVE"), Err(WavError::NotWave));
    assert_eq!(read(&wav(&FMT[..10], &[])), Err(WavError::BadFormat));
    let mut flat = FMT;
    flat[12] = 0;
    assert_eq!(read(&wav(&flat, &[1])), Err(WavError::BadAlignment));
    assert_eq!(read(b"RIFF\0\0\0\0WAVEdata\x01\0\0\0x"), Err(WavError::DataFirst));
    assert_eq!(read(b"RIFF\0\0\0\0WAVE"), Err(WavError::NoData));
    assert!(matches!(WavLayout::read(&ok[..20], ok.len() as u64), Err(WavError::NeedMore { .. })));
    assert_eq!(wav16_header(2, 44100, u32::MAX as u64), Err(WavError::TooLarge));
    let h = wav16_header(2, 44100, 8).unwrap();
    assert_eq!(h.len(), 44);
    assert_eq!(&h[36..], b"data\x08\0\0\0");
}

// ---- Encoding settings ----

#[test]
fn encoders_get_what_they_can_take() {
    assert_eq!((mp3_rate(44100), mp3_rate(96000), mp3_rate(88200), mp3_rate(11025)), (44100, 48000, 44100, 11025));
    assert_eq!((mp3_channels(1), mp3_channels(2), mp3_channels(6)), (1, 2, 2));
    assert_eq!(lame_quality(0), LameQuality::Best);
    assert_eq!(lame_quality(200), LameQuality::Worst);
    assert_eq!((lame_bitrate(64), lame_bitrate(97), lame_bitrate(320), lame_bitrate(999)), (96, 112, 320, 320));
    assert!(!gain_matters(1) && gain_matters(2) && gain_matters(-2));
    assert_eq!(first_two(&[1, 2, 3, 4, 5, 6, 7], 3), [1, 2, 4, 5]);
    assert_eq!(range_samples(5, 9, 2), 8);
    assert_eq!(range_samples(9, 5, 2), 0);
    assert_eq!(next_piece(10, 4, true, 2), Piece::Take { samples: 4, left: 6 });
    assert_eq!(next_piece(10, 40, true, 2), Piece::Take { samples: 10, left: 0 });
    assert_eq!(next_piece(10, 0, false, 2), Piece::EndedEarly { frames: 5 });
    assert_eq!(preview_plan(Profile::Mp3Cbr { kbps: 128 }, 6, None), Err(PreviewError::TooManyChannels));
    assert_eq!(fit_preview(vec![1, 2, 3], 4, 1, 0), Ok(vec![1, 2, 3, 0]));
    assert_eq!(fit_preview(vec![1, 2, 3], 9, 1, 0), Err(PreviewError::Misaligned));
}

#[test]
fn flac_streams_have_one_block_size() {
    assert_eq!(fix_block_size(b"fLaC\0\0\0\x22\x01\x02\x10\0rest".to_vec()), b"fLaC\0\0\0\x22\x10\0\x10\0rest");
    assert_eq!(fix_block_size(b"OggS12345678".to_vec()), b"OggS12345678");
    let samples: Vec<i32> = (0..10_000).map(|i| (i * 37 % 2000) - 1000).collect();
    let tags = Tags { title: "Song".into(), ..Default::default() };
    let bytes = encode_flac(&samples, 1, 16, 44100, &tags).unwrap();
    assert_eq!(&bytes[..4], b"fLaC");
    assert_eq!(bytes[8..10], bytes[10..12]);
    assert!(bytes.windows(10).any(|w| w == b"TITLE=Song"));
    // What a FLAC stream can't have is refused; silence and nothing at all are not.
    assert_eq!(encode_flac(&samples, 1, 16, 192_000, &tags), Err(FlacError::Encoding));
    assert_eq!(encode_flac(&[0; 9], 9, 16, 44100, &tags), Err(FlacError::Encoding));
    assert_eq!(encode_flac(&[0; 257], 257, 16, 44100, &tags), Err(FlacError::Encoding));
    assert!(encode_flac(&[0; 8], 8, 24, 96_000, &tags).is_ok());
    assert!(encode_flac(&[], 2, 16, 44100, &tags).is_ok());
    assert!(encode_flac(&[1, -1, 5], 1, 16, 8000, &tags).is_ok());
}

// ---- Bytes and text ----

#[test]
fn numbers_read_back() {
    let mut b = Vec::new();
    push_be(&mut b, 0x0102_0304_0506_0708, 8);
    assert_eq!(be_u64(&b, 0), 0x0102_0304_0506_0708);
    assert_eq!(be_u32(&b, 4), 0x0506_0708);
    let mut l = Vec::new();
    push_le(&mut l, 0xABCD_1234, 4);
    assert_eq!(le_u32(&l, 0), 0xABCD_1234);
    assert_eq!(le_u16(&l, 2), 0xABCD);
}

#[test]
fn characters_are_classified_as_in_unicode() {
    for c in '\0'..=char::MAX {
        assert_eq!(text::white(c), c.is_whitespace(), "{c:?}");
        assert_eq!(text::control(c), c.is_control(), "{c:?}");
        assert_eq!(text::digit(c), c.is_ascii_digit(), "{c:?}");
        assert_eq!(text::ascii_lower(c), c.to_ascii_lowercase(), "{c:?}");
    }
}

#[test]
fn words_and_numbers() {
    let chars = |s: &str| text::chars_of(s);
    let words: Vec<String> = text::split_words(&chars(" a\tbc  d\n")).iter().map(|w| text::string_of(w)).collect();
    assert_eq!(words, ["a", "bc", "d"]);
    assert_eq!(text::parse_number(&chars("0042"), 100), Some(42));
    assert_eq!(text::parse_number(&chars("101"), 100), None);
    assert_eq!(text::parse_number(&chars("4x"), 100), None);
    assert_eq!(text::parse_number(&chars(""), 100), None);
    assert_eq!(text::string_of(&text::padded_chars(7, 3)), "007");
    assert_eq!(text::string_of(&text::decimal_chars(u64::MAX)), u64::MAX.to_string());
    assert_eq!(text::string_of(&text::replace(&chars("aXbXc"), &chars("X"), &chars("--"))), "a--b--c");
    assert!(text::has_text(&chars("hello"), "ell") && !text::has_text(&chars("hello"), "elo"));
    assert!(text::has_text(&chars(""), ""));
}

#[test]
fn the_smallest_roomy_bitrate_is_taken() {
    let template = [0xFF, 0xFA, 0x92, 0x00];
    let kbps = |n: usize| parse_header(&roomy_header(&template, n).unwrap().0).unwrap().bitrate_kbps;
    assert_eq!((kbps(0), kbps(511), kbps(1008)), (32, 192, 320));
    let (head, len, side) = roomy_header(&template, 511).unwrap();
    assert_eq!((head[1], head[2] & 2, len, side), (0xFB, 0, 626, 32));
    for n in [1009, 0x1_0000, usize::MAX] {
        assert_eq!(roomy_header(&template, n).err(), Some(CutError::NoBitrate));
    }
    assert_eq!(carrier_frame(&template, &vec![1u8; 0x1_0001]).err(), Some(CutError::NoBitrate));
}

#[test]
fn an_index_lists_frames_of_any_bitrate_one_behind_the_other() {
    let mut b = Vec::new();
    for (code, len) in [(0x90, 417usize), (0xB0, 626), (0x50, 208), (0x90, 417)] {
        let at = b.len();
        b.extend([0xFF, 0xFB, code, 0x00]);
        b.resize(at + len, 0);
    }
    b.extend(b"TAG and more");
    let index = Mp3Index::build(&b).unwrap();
    assert_eq!(index.offsets, [0, 417, 1043, 1251]);
    assert_eq!(index.audio_end, 1668);
    assert_eq!((index.min_kbps, index.avg_kbps, index.max_kbps), (64, 128, 192));
}

#[test]
fn an_exported_track_reads_back() {
    let b = silent_mp3(20);
    let index = Mp3Index::build(&b).unwrap();
    let tags = Tags { title: "Song".into(), album: "Live".into(), track: 1, total: 2, replaygain: None };
    // Frames 3 to 6 of the recording, behind the carrier; the whole recording has none.
    for (start, end, frames, carrier) in [(5 * 1152 + 3, 7 * 1152, 4, true), (0, 20 * 1152, 20, false)] {
        let cut = plan_mp3_cut(&index, start, end).unwrap();
        assert_eq!((cut.frames, cut.carrier), (frames, carrier));
        let out = mp3_track(&b, &index, start, end, &tags).unwrap();
        let again = Mp3Index::build(&out).unwrap();
        assert_eq!(again.frames(), frames + carrier as usize);
        assert_eq!(again.audio_end, out.len() as u64);
        assert_eq!((again.sample_rate, again.samples_per_frame), (index.sample_rate, index.samples_per_frame));
        let own = again.offsets[carrier as usize] as usize;
        assert_eq!(&out[own..], &b[cut.first_frame * 417..(cut.first_frame + frames) * 417]);
    }
}

#[test]
fn copies_of_wav_files_read_back() {
    let mut src = wav16_header(1, 8000, 20).unwrap();
    src.extend(0u8..20);
    let l = WavLayout::read(&src, src.len() as u64).unwrap();
    assert_eq!((l.data_offset, l.data_len, l.block_align), (44, 20, 2));
    let copy = wav_track(&l, 2, 5).unwrap();
    let mut out = copy.header.clone();
    for &(at, len) in &copy.ranges {
        out.extend(&src[at as usize..(at + len) as usize]);
    }
    let back = WavLayout::read(&out, out.len() as u64).unwrap();
    assert_eq!((back.fmt, back.data_len, back.block_align), (l.fmt, 6, 2));
    assert_eq!(&out[back.data_offset as usize..], &[4, 5, 6, 7, 8, 9]);
}

#[test]
fn mpeg_2_tracks_have_a_carrier_too() {
    // Header codes of 64 kbps at 22.05, 24 and 16 kHz; only the last has room for 511 bytes.
    for (code, len, room, kbps) in [(0x80, 208, 255, 96), (0x84, 192, 255, 96), (0x88, 288, 511, 128)] {
        let mut frame = vec![0xFF, 0xF3, code, 0x00];
        frame.resize(len, 0);
        // Something for the carrier to hold, behind the side information.
        frame[21..].fill(0xA5);
        let b = frame.repeat(20);
        let index = Mp3Index::build(&b).unwrap();
        let out = mp3_track(&b, &index, 9 * 576, 12 * 576, &Tags::default()).unwrap();
        let again = Mp3Index::build(&out).unwrap();
        let (lead, own) = (again.offsets[0] as usize, again.offsets[1] as usize);
        assert_eq!(parse_header(&out[lead..]).unwrap().bitrate_kbps, kbps);
        assert!(out[own - room..own].iter().all(|&x| x == 0xA5));
        assert!(out[lead + 4..own - room].iter().all(|&x| x == 0));
        assert_eq!(&out[own..], &b[7 * len..12 * len]);
    }
}

#[test]
fn flac_files_leave_their_length_open() {
    let bytes = encode_flac(&[1, -1, 5, 9], 2, 16, 44100, &Tags::default()).unwrap();
    assert_eq!(bytes[21] % 16, 0);
    assert_eq!(&bytes[22..26], &[0; 4]);
}

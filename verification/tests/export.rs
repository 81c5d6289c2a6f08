use splitter::edit::{RecordingEdit, Silence, Split};
use splitter::export::{
    plan, sanitize, vbr_kbps, ExportSettings, Normalize, Profile, SourceFacts, VideoProfile, CEILING,
};
use splitter::exporting::{
    begin, done_recordings, enqueue, export_dir_of, progress, reported, source_facts, Begin, Enqueue, ExportStatus,
};
use splitter::recording::{list_recordings, Recording};
use splitter::scan::{Bitrate, SourceInfo};
use splitter::Status;

const MINUTE: u64 = 60_000_000_000;

#[test]
fn numbers_kept_tracks_and_names_files() {
    let mut e = RecordingEdit::default();
    for at in [100, 200, 300] {
        e.insert(Split::confirmed(at));
    }
    e.head.title = "Intro".into();
    e.track_meta_mut(1).unwrap().drop = true;
    e.track_meta_mut(2).unwrap().title = "AC/DC: Live?".into();
    let p = plan(&e, 400, "set", &ExportSettings::default());
    let names: Vec<&str> = p.iter().map(|t| t.stem.as_str()).collect();
    assert_eq!(names, ["01 - Intro", "02 - AC_DC_ Live_", "03 - Track 3"]);
    assert_eq!((p[1].start, p[1].end, p[1].total), (200, 300, 3));
}

#[test]
fn cuts_silence_and_skips_silent_tracks() {
    let mut e = RecordingEdit::default();
    for at in [100, 150, 250] {
        e.insert(Split::confirmed(at));
    }
    // A long pause between two songs, with a split at each end of it.
    e.set_silences(vec![Silence { start: 90, end: 160, keep: false }]);
    let p = plan(&e, 400, "set", &ExportSettings::default());
    let bounds: Vec<(u64, u64, usize)> = p.iter().map(|t| (t.start, t.end, t.number)).collect();
    assert_eq!(bounds, [(0, 90, 1), (160, 250, 2), (250, 400, 3)]);
}

#[test]
fn duplicate_titles_get_distinct_names() {
    let mut e = RecordingEdit::default();
    e.insert(Split::confirmed(100));
    e.head.title = "Jam".into();
    e.track_meta_mut(1).unwrap().title = "Jam".into();
    let s = ExportSettings { naming: "{title}".into(), ..Default::default() };
    let names: Vec<String> = plan(&e, 200, "set", &s).into_iter().map(|t| t.stem).collect();
    assert_eq!(names, ["Jam", "Jam (2)"]);
}

#[test]
fn profile_warnings_and_sizes() {
    let mp3 = SourceFacts { lossy: true, copyable: true, kbps: 128, sample_rate: 44100, channels: 2, bits: None };
    let wav = SourceFacts { lossy: false, copyable: true, kbps: 1411, sample_rate: 44100, channels: 2, bits: Some(16) };
    assert!(Profile::Original.warnings(&mp3).is_empty());
    assert_eq!(Profile::Mp3Cbr { kbps: 320 }.warnings(&mp3).len(), 2, "re-encode + upsized bitrate");
    assert_eq!(Profile::Mp3Cbr { kbps: 128 }.warnings(&mp3).len(), 1);
    assert_eq!(Profile::Flac.warnings(&mp3).len(), 1);
    assert!(Profile::Mp3Vbr { quality: 2 }.warnings(&wav).is_empty());
    // One minute: 128 kbps = 960 kB; CD audio = 10.6 MB.
    assert_eq!(Profile::Original.estimate_bytes(&mp3, MINUTE), 960_000);
    assert_eq!(Profile::Wav16.estimate_bytes(&wav, MINUTE), 10_584_000);
    assert_eq!(Profile::Flac.extension("wav"), "flac");
    assert_eq!(Profile::Original.extension("wav"), "wav");
}

#[test]
fn original_falls_back_to_flac_for_video() {
    let video = SourceFacts { lossy: true, copyable: false, kbps: 128, sample_rate: 48000, channels: 2, bits: None };
    assert_eq!(Profile::Original.effective(&video), Profile::Flac);
    assert_eq!(Profile::Mp3Vbr { quality: 2 }.effective(&video), Profile::Mp3Vbr { quality: 2 });
    assert_eq!(Profile::Original.estimate_bytes(&video, MINUTE), Profile::Flac.estimate_bytes(&video, MINUTE));
    assert_eq!(Profile::Original.warnings(&video).len(), 1);
    let reencode = Profile::Mp3Cbr { kbps: 128 }.warnings(&video);
    assert!(!reencode[0].contains("Original"), "{reencode:?}");
}

#[test]
fn choices_have_labels() {
    let videos: Vec<String> = VideoProfile::choices().iter().map(|p| p.label()).collect();
    assert_eq!(videos.len(), 3);
    assert_eq!(ExportSettings::default().video, VideoProfile::Mp4 { crf: 18 });
    assert_eq!(VideoProfile::Mp4 { crf: 18 }.extension(), "mp4");
    assert_eq!(VideoProfile::Mp4 { crf: 18 }.audio_kbps(), 192);
    let shorts: Vec<String> = Profile::choices().iter().map(|p| p.short()).collect();
    assert!(shorts.contains(&"FLAC".to_string()), "{shorts:?}");
    assert_eq!(Normalize::choices()[0], Normalize::Off);
    assert!(Normalize::choices().iter().all(|n| !n.label().is_empty()));
    assert!(Profile::choices().iter().all(|p| !p.label().is_empty()));
    assert_eq!(CEILING, -1_000_000);
    assert_eq!(vbr_kbps(0), 245);
    assert_eq!(vbr_kbps(2), 190);
    assert_eq!(vbr_kbps(9), 65);
}

#[test]
fn file_names_are_safe() {
    assert_eq!(sanitize("a/b\\c:d*e?f\"g<h>i|j"), "a_b_c_d_e_f_g_h_i_j");
    assert_eq!(sanitize("..hidden"), "hidden");
    assert_eq!(sanitize(&"x".repeat(300)).chars().count(), 180);
    assert_eq!(sanitize(""), "untitled");
}

#[test]
fn warnings_say_why() {
    let mp3 = SourceFacts { lossy: true, copyable: true, kbps: 128, sample_rate: 44100, channels: 2, bits: None };
    let hires = SourceFacts { lossy: false, copyable: true, kbps: 4608, sample_rate: 96000, channels: 2, bits: Some(24) };
    assert_eq!(Profile::Wav16.warnings(&mp3).len(), 1);
    assert_eq!(Profile::Wav16.warnings(&hires).len(), 1);
    assert_eq!(Profile::Mp3Cbr { kbps: 320 }.warnings(&hires).len(), 1);
    assert!(Profile::Flac.warnings(&hires).is_empty());
}

#[test]
fn numbers_are_padded_to_the_same_width() {
    let mut e = RecordingEdit::default();
    for at in 1..10 {
        e.insert(Split::confirmed(at * 10));
    }
    let s = ExportSettings { naming: "{n}-{nn} {source}".into(), ..Default::default() };
    let p = plan(&e, 200, "set", &s);
    assert_eq!(p[0].stem, "1-01 set");
    assert_eq!(p[9].stem, "10-10 set");
}

fn info(bitrate: Bitrate) -> SourceInfo {
    SourceInfo {
        codec: "MP3".into(),
        sample_rate: 44100,
        channels: 2,
        total_samples: 441_000,
        file_size: 160_000,
        bitrate,
    }
}

#[test]
fn queued_tracks_go_next_to_the_recording() {
    let mut e = RecordingEdit::default();
    e.insert(Split::confirmed(100));
    e.head.title = "Intro".into();
    let settings = ExportSettings { profile: Profile::Flac, ..Default::default() };
    let Enqueue::Queue { dir, jobs } = enqueue("/m/Live.MP3", false, Some(200), &e, &settings) else {
        panic!("not queued");
    };
    assert_eq!(dir, "/m/Live");
    assert_eq!(jobs.len(), 2);
    assert_eq!(jobs[0].path, "/m/Live/01 - Intro.flac");
    assert_eq!((jobs[1].start, jobs[1].end, jobs[1].gain), (100, 200, 0));
    assert_eq!(jobs[1].tags.title, "Track 2");
    assert_eq!(jobs[1].tags.album, "Live");
    assert_eq!((jobs[1].tags.track, jobs[1].tags.total), (2, 2));

    // A copy keeps the extension, in small letters.
    let original = ExportSettings::default();
    let Enqueue::Queue { jobs, .. } = enqueue("/m/Live.MP3", false, Some(200), &e, &original) else {
        panic!("not queued");
    };
    assert_eq!(jobs[0].path, "/m/Live/01 - Intro.mp3");
    let Enqueue::Queue { jobs, .. } = enqueue("/m/Live.MOV", false, Some(200), &e, &original) else {
        panic!("not queued");
    };
    assert!(jobs.iter().all(|j| j.path.ends_with(".mp4")), "a video's tracks are MP4 clips");
    assert!(matches!(enqueue("/m/Live.MP3", true, Some(200), &e, &original), Enqueue::Active));
    assert!(matches!(enqueue("/m/Live.MP3", false, None, &e, &original), Enqueue::NotYet));
    assert!(matches!(enqueue("/", false, Some(200), &e, &original), Enqueue::NotYet));
    e.head.drop = true;
    e.track_meta_mut(1).unwrap().drop = true;
    assert!(matches!(enqueue("/m/Live.MP3", false, Some(200), &e, &original), Enqueue::NothingKept));
}

#[test]
fn export_folders_are_named_after_the_recording() {
    assert_eq!(export_dir_of("/a/b/Set one.wav"), Some("/a/b/Set one".to_string()));
    assert_eq!(export_dir_of("set.wav"), Some("set".to_string()));
    assert_eq!(export_dir_of("a/b/.."), None);
}

#[test]
fn the_worker_reports_each_step() {
    assert_eq!(begin(true, true, Profile::Flac, Normalize::Off), Begin::Cancelled);
    assert_eq!(begin(false, false, Profile::Flac, Normalize::Track { target: -14_000_000 }), Begin::Measure);
    assert_eq!(begin(false, true, Profile::Flac, Normalize::Track { target: -14_000_000 }), Begin::Write);
    assert_eq!(begin(false, false, Profile::Original, Normalize::Track { target: -14_000_000 }), Begin::Write);
    assert_eq!(begin(false, false, Profile::Flac, Normalize::Off), Begin::Write);
    assert_eq!(progress(0, 2, false, "d"), ExportStatus::Running { done: 0, total: 2 });
    assert_eq!(progress(1, 2, true, "d"), ExportStatus::Cancelled);
    assert_eq!(progress(2, 2, true, "d"), ExportStatus::Finished { dir: "d".into(), count: 2 });
}

#[test]
fn cancelling_ignores_late_progress() {
    let mut s = ExportStatus::Running { done: 1, total: 3 };
    assert!(s.is_active());
    s.cancel();
    assert_eq!(s, ExportStatus::Cancelled);
    assert!(!ExportStatus::accepts(Some(&s), &ExportStatus::Measuring));
    assert!(ExportStatus::accepts(Some(&s), &ExportStatus::Failed("x".into())));
    assert!(ExportStatus::accepts(None, &ExportStatus::Queued));
    let mut f = ExportStatus::Finished { dir: "d".into(), count: 1 };
    f.cancel();
    assert_eq!(f, ExportStatus::Finished { dir: "d".into(), count: 1 });
    assert_eq!(reported(Status::Done, &f), Status::Exported);
    assert_eq!(reported(Status::Done, &ExportStatus::Cancelled), Status::Done);
}

#[test]
fn done_recordings_are_the_ones_marked() {
    let list: Vec<Recording> = ["a.mp3", "b.mp3", "c.mp3"].iter().map(|p| Recording::new(p.to_string())).collect();
    let statuses = vec![Some(Status::Done), None, Some(Status::Done)];
    assert_eq!(done_recordings(&list, &statuses), ["a.mp3", "c.mp3"]);
    assert!(done_recordings(&list, &vec![Some(Status::Exported), Some(Status::Todo), None]).is_empty());
}

#[test]
fn facts_about_the_source() {
    let f = source_facts(&info(Bitrate::Cbr(128)), true, true);
    assert_eq!((f.kbps, f.bits, f.lossy, f.copyable), (128, None, true, true));
    let f = source_facts(&info(Bitrate::Pcm { bits: 16, kbps: 1411 }), false, true);
    assert_eq!((f.kbps, f.bits), (1411, Some(16)));
    let f = source_facts(&info(Bitrate::Vbr { min: 32, avg: 190, max: 320 }), true, true);
    assert_eq!(f.kbps, 190);
    // 160 kB over ten seconds.
    let f = source_facts(&info(Bitrate::Unknown), true, false);
    assert_eq!(f.kbps, 128);
    assert_eq!((f.sample_rate, f.channels), (44100, 2));
}

#[test]
fn recordings_are_listed_by_name() {
    let list = list_recordings(
        ["/m/b.mp3", "/m/Étude.wav", "/m/._b.mp3", "/m/A.MP4", "/m/note.txt"].iter().map(|p| p.to_string()).collect(),
    );
    let names: Vec<String> = list.iter().map(|r| r.name()).collect();
    assert_eq!(names, ["A.MP4", "b.mp3", "Étude.wav"]);
}

#[test]
fn numbering_goes_on_until_a_name_is_free() {
    let mut e = RecordingEdit::default();
    for at in [100, 200, 300] {
        e.insert(Split::confirmed(at));
    }
    for (k, title) in ["Jam (3)", "Jam", "jam", "JAM"].iter().enumerate() {
        e.track_meta_mut(k).unwrap().title = title.to_string();
    }
    let s = ExportSettings { naming: "{title}".into(), ..Default::default() };
    let names: Vec<String> = plan(&e, 400, "set", &s).into_iter().map(|t| t.stem).collect();
    assert_eq!(names, ["Jam (3)", "Jam", "jam (3) (3)", "JAM (4)"]);
}

#[test]
fn a_little_more_than_the_source_is_worth_a_warning() {
    let warnings = |kbps: u32, p: Profile| {
        p.warnings(&SourceFacts { lossy: true, copyable: true, kbps, sample_rate: 44100, channels: 2, bits: None }).len()
    };
    assert_eq!(warnings(160, Profile::Mp3Cbr { kbps: 184 }), 1);
    assert_eq!(warnings(160, Profile::Mp3Cbr { kbps: 185 }), 2);
    // 1.15 times 100 is just below 115 in double precision.
    assert_eq!(warnings(100, Profile::Mp3Vbr { quality: 6 }), 2);
    for kbps in (0..2000).chain([u32::MAX - 1, u32::MAX]) {
        let near = (kbps as u64 * 115 / 100) as u32;
        for target in near.saturating_sub(1)..=near.saturating_add(1) {
            if let Ok(t) = u16::try_from(target) {
                let more = t as f64 > kbps as f64 * 1.15;
                assert_eq!(warnings(kbps, Profile::Mp3Cbr { kbps: t }), 1 + more as usize, "{t} from {kbps}");
            }
        }
        assert_eq!(warnings(kbps, Profile::Mp3Cbr { kbps: u16::MAX }), 1 + (65535.0 > kbps as f64 * 1.15) as usize);
    }
}

#[test]
fn the_plan_shows_the_names_of_the_tracks() {
    let mut e = RecordingEdit::default();
    for at in [100, 200] {
        e.insert(Split::confirmed(at));
    }
    e.head.drop = true;
    e.track_meta_mut(1).unwrap().title = "  Song ".into();
    let p = plan(&e, 300, "set", &ExportSettings::default());
    let got: Vec<_> = p.iter().map(|t| (t.number, t.total, t.start, t.end, Some(t.title.clone()))).collect();
    let names = e.names(300);
    assert_eq!(got, [(1, 2, 100, 200, names[1].clone()), (2, 2, 200, 300, names[2].clone())]);
    assert_eq!(names, [None, Some("Song".to_string()), Some("Track 2".to_string())]);
}

#[test]
fn tracks_do_not_overwrite_each_other() {
    let mut e = RecordingEdit::default();
    for at in [100, 200, 300] {
        e.insert(Split::confirmed(at));
    }
    for (k, title) in ["Jam (3)", "Jam", "jam", "../Jam"].iter().enumerate() {
        e.track_meta_mut(k).unwrap().title = title.to_string();
    }
    let s = ExportSettings { naming: "{title}".into(), ..Default::default() };
    let Enqueue::Queue { dir, jobs } = enqueue("/music/set.mp3", false, Some(400), &e, &s) else { panic!("not queued") };
    assert_eq!(dir, "/music/set");
    let paths: Vec<&str> = jobs.iter().map(|j| j.path.as_str()).collect();
    assert_eq!(
        paths,
        ["/music/set/Jam (3).mp3", "/music/set/Jam.mp3", "/music/set/jam (3) (3).mp3", "/music/set/_Jam.mp3"]
    );
}

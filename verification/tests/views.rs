use splitter::ab::{ab_prepared, ab_stop, ab_toggle, ab_window, flipped, AbState, AbToggle};
use splitter::cleaning::{apply_cuts, can_apply_cuts, cleaned_path, shift_splits, undoes_apply, ApplyCuts};
use splitter::cutlist::{Cutlist, FILE_NAME};
use splitter::edit::{RecordingEdit, Silence, Split, SplitState};
use splitter::export::{plan, ExportSettings, Profile, SourceFacts, VideoProfile};
use splitter::exporting::ExportStatus;
use splitter::keys::{
    command, left_title, mouse, next_title, wheel_zoom, Command, Held, Key, LeaveTitle, Mouse, MouseAction,
};
use splitter::mp4::Delay;
use splitter::recording::Recording;
use splitter::scan::{Bitrate, SourceInfo};
use splitter::state::{
    fade_error, first_selected, jump, key_of, on_select, opened_status, pending, save_due, select_offset, selects,
    toggled_flag, Detail, Fade, OnSelect, ScanProgress, MAX_SPAN, MIN_SPAN,
};
use splitter::tags::Tags;
use splitter::time::{fmt_precise, fmt_short};
use splitter::video::Sent;
use splitter::video_export::{clip_args, concat_filter, join_args, last_error, progress_time, Timeline};
use splitter::views::{
    bitrate_text, channels_text, clip, export_bytes, part_kind, part_label, paste_note, review_note, row_left_out,
    row_note, row_title, silence_kind, status_dot, tick_step, ticks, track_label, track_state, visible_tracks,
    wave_path, PartKind, ReviewNote, RowNote, SilenceKind, Visible,
};
use splitter::Status;

const SECOND: u64 = 1_000_000_000;

#[test]
fn formats() {
    assert_eq!(fmt_precise(0), "00:00.000");
    assert_eq!(fmt_precise(3_723_457), "1:02:03.457");
    assert_eq!(fmt_short(125_000), "2:05");
    assert_eq!(fmt_short(3_600_000), "1:00:00");
}

#[test]
fn ticks_are_readable() {
    assert_eq!(tick_step(2 * SECOND), SECOND / 5);
    assert_eq!(tick_step(20 * SECOND), 2 * SECOND);
    assert_eq!(tick_step(600 * SECOND), 60 * SECOND);
}

#[test]
fn ticks_stand_on_round_times() {
    // Twenty seconds from 3.5 s: every two seconds, none too close to the right edge.
    let t = ticks(3500, 20 * SECOND, 1000);
    let labels: Vec<&str> = t.iter().map(|t| t.label.as_str()).collect();
    assert_eq!(labels, ["0:04", "0:06", "0:08", "0:10", "0:12", "0:14", "0:16", "0:18", "0:20", "0:22"]);
    let fine = ticks(0, 2 * SECOND, 44_100);
    assert_eq!(fine[0].label, "00:00.");
    assert_eq!(fine[1].label, "00:00.2");
    assert_eq!(fine[1].ns, SECOND / 5);
    assert_eq!(tick_step(7000 * SECOND), 1200 * SECOND);
}

#[test]
fn wave_path_is_closed() {
    let d = wave_path(&[(0, 16384), (-16384, 0)]);
    assert!(d.starts_with("M0,") && d.ends_with('Z'));
}

#[test]
fn waves_go_up_and_down() {
    assert_eq!(wave_path(&[(0, 32767), (-32767, 0)]), "M0,0.70L1,49.70L1,99.30L0,50.30Z");
    assert_eq!(wave_path(&[]), "Z");
}

#[test]
fn timeline_skips_the_priming() {
    let t = Timeline { rate: 44100, delay: Some(Delay { time: 1024, per_second: 44100 }) };
    assert_eq!(t.micros(44100 + 1024), 1_000_000);
    assert_eq!(t.micros(0), 0);
    assert_eq!(t.frame(1_000_000), 44100 + 1024);
    // From the start of the video on, positions survive the way there and back.
    for frame in [1024, 1025, 44_099, 50_001, 1_234_567] {
        assert_eq!(t.frame(t.micros(frame)), frame);
    }
}

#[test]
fn timelines_round_to_the_nearest() {
    let t = Timeline { rate: 44100, delay: None };
    assert_eq!(t.micros(1), 23);
    assert_eq!(t.micros(44100), 1_000_000);
    assert_eq!(t.frame(0), 0);
    assert_eq!(t.frame(12), 1);
    assert_eq!(t.frame(11), 0);
    assert_eq!(t.micros_between(44100, 88200), 1_000_000);
}

#[test]
fn concat_filter_joins_every_range() {
    let f = concat_filter(&[(0, 1_500_000), (3_000_000, 4_250_000)]);
    assert!(f.starts_with("[0:v:0]split=2[sv0][sv1];[0:a:0]asplit=2[sa0][sa1];"), "{f}");
    assert!(f.contains("[sv1]trim=start=3.000000:end=4.250000,setpts=PTS-STARTPTS[v1];"), "{f}");
    assert!(f.ends_with("[v0][a0][v1][a1]concat=n=2:v=1:a=1[v][a]"), "{f}");
}

#[test]
fn clips_are_cut_by_time() {
    let tags = Tags { title: "Song".into(), album: "Live".into(), track: 2, total: 9, replaygain: None };
    let a = clip_args("in.mp4", 1_500_000, 250_000, VideoProfile::Mp4 { crf: 18 }, -2_345_000, &tags);
    assert_eq!(
        a.join(" "),
        "-hide_banner -nostdin -y -loglevel error -ss 1.500000 -i in.mp4 -t 0.250000 -map 0:v:0 -map 0:a:0 \
         -map_metadata -1 -sn -dn -c:v libx264 -preset medium -crf 18 -pix_fmt yuv420p -c:a aac -b:a 192k \
         -movflags +faststart -af volume=-2.34dB -metadata title=Song -metadata album=Live -metadata track=2/9"
    );
    // A change of level that can't be heard is left out.
    assert!(!clip_args("a", 0, 1, VideoProfile::Mp4 { crf: 23 }, 5000, &tags).contains(&"-af".to_string()));
    let j = join_args("in.mp4", &[(0, 1_000_000)], VideoProfile::Mp4 { crf: 23 });
    assert_eq!(j[7], "-filter_complex");
    assert_eq!(j[8], concat_filter(&[(0, 1_000_000)]));
    assert_eq!(j.last().unwrap(), "+faststart");
    assert_eq!(progress_time("out_time_us= 1500000 "), Some("1500000".to_string()));
    assert_eq!(progress_time("frame=3"), None);
    assert_eq!(last_error(" first\nlast one \n"), Some("last one".to_string()));
    assert_eq!(last_error(" \n"), None);
}

#[test]
fn the_picture_follows_the_playhead() {
    let at = |ns: i64, playing: bool| Sent { ns, playing, loads: 1 };
    assert_eq!(Sent::nothing().steer(&at(0, false), 0), Some(true), "loaded");
    assert_eq!(at(0, false).steer(&at(0, false), 5 * SECOND), None);
    assert_eq!(at(0, false).steer(&at(100_000_000, false), 1), Some(false));
    assert_eq!(at(0, false).steer(&at(200_000_000, false), 1), Some(true), "jumped");
    assert_eq!(at(0, true).steer(&at(100_000_000, true), 100_000_000), None);
    assert_eq!(at(0, true).steer(&at(300_000_000, true), 300_000_000), Some(false));
    assert_eq!(at(0, true).steer(&at(0, true), 200_000_000), Some(true), "fell behind");
    assert_eq!(at(0, true).steer(&at(0, false), 0), Some(true), "paused");
}

#[test]
fn bands_are_clipped_to_the_window() {
    assert_eq!(clip(10, 20, 15, 30), Some((0, 5)));
    assert_eq!(clip(20, 40, 15, 30), Some((5, 10)));
    assert_eq!(clip(0, 15, 15, 30), None);
    assert_eq!(clip(0, 15, 5, 5), None);
    let mut e = RecordingEdit::default();
    e.insert(Split::confirmed(10));
    e.insert(Split::suggested(30, SECOND));
    assert_eq!(
        visible_tracks(&e, 50, 20, 40),
        [Visible { track: 1, from: 0, len: 10 }, Visible { track: 2, from: 10, len: 10 }]
    );
    assert_eq!(track_state(&e, 0), None);
    assert_eq!(track_state(&e, 1), Some(SplitState::Confirmed));
    assert_eq!(track_state(&e, 2), Some(SplitState::Suggested));
    assert_eq!(track_state(&e, 3), None);
}

#[test]
fn silence_is_cut_only_at_edges() {
    let mut e = RecordingEdit::default();
    e.insert(Split::confirmed(50));
    let kind = |s: u64, end: u64, keep: bool| silence_kind(&e, &Silence { start: s, end, keep }, 100);
    assert_eq!(kind(0, 5, false), SilenceKind::Cut);
    assert_eq!(kind(20, 25, false), SilenceKind::Inside);
    assert_eq!(kind(45, 55, false), SilenceKind::Cut);
    assert_eq!(kind(45, 55, true), SilenceKind::Kept);
    assert_eq!(kind(90, u64::MAX, false), SilenceKind::Cut);
    assert_eq!(kind(50, 55, false), SilenceKind::Inside);
}

#[test]
fn parts_and_rows_have_texts() {
    assert_eq!(part_kind(true, true), PartKind::CutFocus);
    assert_eq!(part_label(PartKind::Focus, Some("Song"), 0), "Song · X to cut");
    assert_eq!(part_label(PartKind::Focus, None, 4), "Track 5 · X to cut");
    assert_eq!(part_label(PartKind::Cut, None, 0), "✂ cut");
    assert_eq!(part_label(PartKind::Plain, None, 0), "");
    assert_eq!(track_label(1, Some("Song")), "2 · Song");
    assert_eq!(track_label(1, None), "2");
    assert_eq!(row_title("", Some("Track 1")), "Track 1");
    assert_eq!(row_title("Song", Some("Track 1")), "Song");
    assert_eq!(row_title("", None), "untitled");
    assert!(row_left_out(false, 5, 5) && row_left_out(true, 0, 5) && !row_left_out(false, 0, 5));
    assert_eq!(status_dot(Status::Flagged), ("dot flagged", "flagged"));
    assert_eq!(status_dot(Status::Exported), ("dot done", "done"));
    assert_eq!(bitrate_text(Bitrate::Vbr { min: 32, avg: 190, max: 320 }), "VBR 32–320 kbps (avg 190)");
    assert_eq!(bitrate_text(Bitrate::Cbr(128)), "CBR 128 kbps");
    assert_eq!(bitrate_text(Bitrate::Unknown), "bitrate unknown");
    assert_eq!((channels_text(1), channels_text(2), channels_text(6)), ("mono".into(), "stereo".into(), "6 ch".into()));
    assert_eq!(paste_note(3, 2), "3 titles for 2 kept tracks — the extra titles will be ignored");
    assert_eq!(paste_note(1, 2), "1 titles for 2 kept tracks — the last tracks keep their titles");
    assert_eq!(paste_note(0, 2), "0 titles for 2 kept tracks");
}

#[test]
fn rows_say_what_matters_most() {
    let note = |e: Option<&ExportStatus>, s: ScanProgress, c: usize, t: usize| row_note(e, s, c, t);
    let running = ExportStatus::Running { done: 1, total: 3 };
    assert_eq!(note(Some(&running), ScanProgress::Ready, 1, 1), RowNote::Exporting { done: 1, total: 3 });
    assert_eq!(note(Some(&ExportStatus::Cancelled), ScanProgress::Ready, 1, 0), RowNote::Reviewed { confirmed: 1 });
    assert_eq!(note(None, ScanProgress::Ready, 1, 2), RowNote::ToReview { confirmed: 1, todo: 2 });
    assert_eq!(note(None, ScanProgress::Ready, 0, 0), RowNote::Length);
    assert_eq!(note(None, ScanProgress::Unknown, 0, 0), RowNote::Waiting);
    let mut e = RecordingEdit::default();
    assert_eq!(review_note(&e, Some(0)), ReviewNote::AllReviewed);
    e.insert(Split::suggested(5, SECOND));
    assert_eq!(review_note(&e, None), ReviewNote::ReviewNext);
    assert_eq!(review_note(&e, Some(0)), ReviewNote::Split(0));
    e.confirm(0);
    e.status = Status::Done;
    assert_eq!(review_note(&e, None), ReviewNote::MarkedDone);
}

#[test]
fn sizes_follow_what_is_kept() {
    let mut e = RecordingEdit::default();
    e.insert(Split::confirmed(220_500));
    e.head.drop = true;
    let info = SourceInfo {
        codec: "MP3".into(),
        sample_rate: 44100,
        channels: 2,
        total_samples: 441_000,
        file_size: 160_000,
        bitrate: Bitrate::Cbr(128),
    };
    let facts = SourceFacts { lossy: true, copyable: true, kbps: 128, sample_rate: 44100, channels: 2, bits: None };
    let planned = plan(&e, 441_000, "set", &ExportSettings::default());
    assert_eq!(export_bytes(&planned, &info, &facts, Profile::Original), 80_000);
    assert_eq!(export_bytes(&planned, &info, &facts, Profile::Wav16), 882_000);
}

#[test]
fn keys_ask_for_commands() {
    let none = Held { cmd: false, shift: false, alt: false };
    let cmd = Held { cmd: true, ..none };
    let shift = Held { shift: true, ..none };
    assert_eq!(command(Key::Space, none, false), Some(Command::Toggle));
    assert_eq!(command(Key::Space, none, true), None, "a text field has the keyboard");
    assert_eq!(command(Key::Left, shift, false), Some(Command::Jump(-500_000_000)));
    assert_eq!(command(Key::Right, Held { alt: true, ..none }, false), Some(Command::Jump(10_000_000)));
    assert_eq!(command(Key::Enter, cmd, false), Some(Command::Finish));
    assert_eq!(command(Key::Tab, shift, false), Some(Command::StepSplit { forward: false }));
    assert_eq!(command(Key::Letter('Z'), cmd, false), Some(Command::Undo));
    assert_eq!(command(Key::Letter('Z'), Held { shift: true, ..cmd }, false), Some(Command::Redo));
    assert_eq!(command(Key::Letter('Z'), none, false), None);
    assert_eq!(command(Key::Letter('X'), none, false), Some(Command::ToggleDrop));
    assert_eq!(command(Key::Letter('X'), cmd, false), None);
    assert_eq!(command(Key::Period, none, false), Some(Command::NudgeSplit(10_000_000)));
    assert_eq!(command(Key::Other, none, false), None);
}

#[test]
fn the_mouse_seeks_or_drags() {
    assert_eq!(mouse(Mouse::Down { grab: Some(3) }, false, true), MouseAction::BeginDrag(3));
    assert_eq!(mouse(Mouse::Down { grab: None }, false, true), MouseAction::Seek { center: true });
    assert_eq!(mouse(Mouse::Move { held: true, grab: None }, true, true), MouseAction::DragTo);
    assert_eq!(mouse(Mouse::Move { held: false, grab: None }, true, true), MouseAction::EndDrag);
    assert_eq!(mouse(Mouse::Move { held: true, grab: None }, false, true), MouseAction::Seek { center: false });
    assert_eq!(mouse(Mouse::Move { held: false, grab: Some(0) }, false, true), MouseAction::Hover(true));
    assert_eq!(mouse(Mouse::Up, true, true), MouseAction::EndDrag);
    assert_eq!(mouse(Mouse::Leave, false, true), MouseAction::Left);
    assert_eq!((wheel_zoom(true), wheel_zoom(false)), ((5, 4), (4, 5)));
}

#[test]
fn title_fields_move_on() {
    assert_eq!(next_title(LeaveTitle::Enter, 0, 2), Some(1));
    assert_eq!(next_title(LeaveTitle::Enter, 1, 2), None);
    assert_eq!(next_title(LeaveTitle::Tab { shift: true }, 1, 2), Some(0));
    assert_eq!(next_title(LeaveTitle::Tab { shift: true }, 0, 2), None);
    assert_eq!(next_title(LeaveTitle::Blur, 0, 2), None);
    assert_eq!(left_title(LeaveTitle::Tab { shift: false }, "  ", "Track 1"), Some("Track 1".to_string()));
    assert_eq!(left_title(LeaveTitle::Enter, "  ", "Track 1"), Some("  ".to_string()));
    assert_eq!(left_title(LeaveTitle::Escape, "x", "y"), None);
}

#[test]
fn the_view_stays_in_the_recording() {
    let v = Detail::new();
    assert_eq!(v, Detail { start: 0, span_ns: 20 * SECOND });
    // 1000 frames per second, 100 s long.
    let (total, rate) = (100_000, 1000);
    assert_eq!(v.show(5000, false, total, rate), v);
    assert_eq!(v.show(50_000, false, total, rate).start, 48_000);
    assert_eq!(v.show(50_000, true, total, rate).start, 40_000);
    assert_eq!(v.show(99_999, true, total, rate).start, 80_000);
    assert_eq!(v.scroll(-5, total, rate).start, 0);
    assert_eq!(v.scroll(i64::MAX, total, rate).start, 80_000);
    assert_eq!(v.follow(19_399, total, rate), v);
    assert_eq!(v.follow(19_400, total, rate).start, 18_800);
    let w = Detail { start: 10_000, ..v };
    // The playhead keeps its place on screen.
    assert_eq!(w.zoom(1, 2, 15_000, total, rate), Detail { start: 12_500, span_ns: 10 * SECOND });
    // Off screen, the middle does.
    assert_eq!(w.zoom(1, 2, 0, total, rate), Detail { start: 15_000, span_ns: 10 * SECOND });
    assert_eq!(w.zoom(1, 1000, 0, total, rate).span_ns, MIN_SPAN);
    assert_eq!(w.zoom(1000, 1, 0, total, rate), Detail { start: 0, span_ns: 100 * SECOND });
    assert_eq!(w.zoom(1000, 1, 0, u32::MAX as u64, rate).span_ns, MAX_SPAN);
    assert_eq!(w.rewound().start, 0);
    assert_eq!(jump(5000, -10 * SECOND as i64, total, rate), 0);
    assert_eq!(jump(5000, 10_000_000, total, rate), 5010);
    assert_eq!(jump(99_999, 5 * SECOND as i64, total, rate), total);
}

#[test]
fn selection_and_status() {
    assert_eq!(select_offset(None, 1, 3), Some(0));
    assert_eq!(select_offset(Some(1), 5, 3), Some(2));
    assert_eq!(select_offset(Some(1), -5, 3), Some(0));
    assert_eq!(select_offset(Some(1), 1, 0), None);
    assert!(selects(None, 0, 1) && !selects(Some(0), 0, 1) && !selects(None, 1, 1));
    assert_eq!(opened_status(Status::Todo), Status::InProgress);
    assert_eq!(opened_status(Status::Flagged), Status::Flagged);
    assert_eq!(toggled_flag(Status::Done), Status::Flagged);
    assert_eq!(toggled_flag(Status::Flagged), Status::InProgress);
    assert_eq!(on_select(ScanProgress::Ready, false), OnSelect::Load { measure: true });
    assert_eq!(on_select(ScanProgress::Scanning, false), OnSelect::Prioritize);
    assert_eq!(on_select(ScanProgress::Failed, false), OnSelect::Nothing);
    let list: Vec<Recording> = ["d/a.mp3", "d/b.mp3"].iter().map(|p| Recording::new(p.to_string())).collect();
    assert_eq!(pending(&list, &vec![ScanProgress::Ready, ScanProgress::Failed]), ["d/b.mp3"]);
    assert_eq!(first_selected(&list, Some("d/b.mp3")), Some(1));
    assert_eq!(first_selected(&list, Some("d/x.mp3")), Some(0));
    assert_eq!(first_selected(&vec![], None), None);
    assert_eq!(key_of("d/a.mp3"), "a.mp3");
    assert_eq!(key_of("/"), "");
    assert_eq!(fade_error(true, None), Fade::Start);
    assert_eq!(fade_error(true, Some(10 * SECOND)), Fade::Keep);
    assert_eq!(fade_error(true, Some(10 * SECOND + 1)), Fade::Clear);
    assert_eq!(fade_error(false, Some(1)), Fade::Forget);
    assert!(!save_due(None) && !save_due(Some(400_000_000)) && save_due(Some(400_000_001)));
}

#[test]
fn comparisons_flip_and_stop() {
    let p = Profile::Mp3Vbr { quality: 2 };
    assert_eq!(ab_toggle(&AbState::Off, p, 5, false), AbToggle::Start);
    assert_eq!(ab_toggle(&AbState::Off, p, 5, true), AbToggle::Video);
    assert_eq!(ab_toggle(&AbState::Off, Profile::Original, 5, false), AbToggle::Original);
    let ready = ab_prepared(p, 10, 20, true);
    assert_eq!(ab_toggle(&ready, p, 20, false), AbToggle::Flip { encoded: true });
    assert_eq!(ab_toggle(&ready, p, 21, false), AbToggle::Start);
    assert_eq!(ab_toggle(&ready, Profile::Flac, 15, false), AbToggle::Start);
    let waiting = AbState::Preparing { profile: p, start: 1, end: 2 };
    assert_eq!(ab_toggle(&waiting, p, 1, false), AbToggle::Wait);
    let mut s = flipped(&ready, true);
    assert_eq!(s, AbState::Ready { profile: p, start: 10, end: 20, encoded: true });
    assert!(ab_stop(&mut s) && !ab_stop(&mut s));
    assert_eq!(ab_prepared(p, 1, 2, false), AbState::Off);
    assert_eq!(ab_window(5, 100_000, 1000), (5, 12_005));
    assert_eq!(ab_window(99_000, 100_000, 1000), (88_000, 100_000));
    assert_eq!(ab_window(3, 5000, 1000), (0, 5000));
}

#[test]
fn cuts_are_applied_to_a_copy() {
    assert_eq!(cleaned_path("/m/Live.mp3", 1), "/m/Live (cleaned).wav");
    assert_eq!(cleaned_path("/m/Live.mp3", 12), "/m/Live (cleaned 12).wav");
    assert_eq!(cleaned_path("/m/clip.MOV", 2), "/m/clip (cleaned 2).mp4");
    let mut e = RecordingEdit::default();
    e.insert(Split::confirmed(50));
    assert!(!can_apply_cuts(&e, 100, false));
    assert!(matches!(apply_cuts(&e, 100, false), ApplyCuts::NothingCut));
    assert!(matches!(apply_cuts(&e, 100, true), ApplyCuts::Busy));
    e.head.drop = true;
    assert!(can_apply_cuts(&e, 100, false) && !can_apply_cuts(&e, 100, true));
    let ApplyCuts::Write { ranges, edit } = apply_cuts(&e, 100, false) else { panic!("nothing to write") };
    assert_eq!(ranges, [(50, 100)]);
    assert!(edit.splits.is_empty());
    e.track_meta_mut(1).unwrap().drop = true;
    assert!(matches!(apply_cuts(&e, 100, false), ApplyCuts::NothingKept));
    shift_splits(&mut e, 1024);
    assert_eq!(e.splits[0].at, 1074);
    assert!(undoes_apply(Some("a"), Some("a"), false));
    assert!(!undoes_apply(Some("a"), Some("a"), true));
    assert!(!undoes_apply(Some("a"), Some("b"), false));
    assert!(!undoes_apply(None, Some("b"), false));
}

#[test]
fn cutlists_keep_one_edit_per_file() {
    assert_eq!(FILE_NAME, "splitter.cutlist.json");
    let mut c = Cutlist::default();
    assert_eq!(c.version, 1);
    let a = c.entry("a.mp3");
    c.recordings[a].edit.status = Status::Done;
    let b = c.entry("b.mp3");
    assert_ne!(a, b);
    assert_eq!(c.entry("a.mp3"), a);
    assert_eq!(c.find("a.mp3").map(|i| c.recordings[i].edit.status), Some(Status::Done));
    c.remove("a.mp3");
    assert_eq!(c.find("a.mp3"), None);
    assert_eq!(c.find("b.mp3"), Some(0));
    c.remove("x");
    assert_eq!(c.recordings.len(), 1);
}

#[test]
fn timelines_reach_past_the_first_hours() {
    let t = Timeline { rate: 44100, delay: None };
    assert_eq!(t.frame(5_000_000_000), 220_500_000);
    let t = Timeline { rate: 48000, delay: Some(Delay { time: 1024, per_second: 48000 }) };
    assert_eq!(t.frame(7_200_000_000), 7200 * 48000 + 1024);
    assert_eq!(t.frame(u64::MAX), 885_443_715_538_058_478 + 1024);
    assert_eq!(t.frame(t.micros(1 << 40)), 1 << 40);
    let t = Timeline { rate: 4_000_000_000, delay: None };
    assert_eq!(t.frame(u64::MAX), u64::MAX);
}

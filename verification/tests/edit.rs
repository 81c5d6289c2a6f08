use splitter::detect::{snap, suggest, tag};
use splitter::edit::{DetectParams, RecordingEdit, Silence, Split, SplitState};
use splitter::history::{same_snapshot, History, LIMIT};
use splitter::review::{self, DetectStep, Session};
use splitter::tracklist;

const SECOND: u64 = 1_000_000_000;

fn sugg(at: u64) -> Split {
    Split::suggested(at, 2 * SECOND)
}

fn ats(e: &RecordingEdit) -> Vec<u64> {
    e.splits.iter().map(|s| s.at).collect()
}

#[test]
fn stays_sorted_through_moves() {
    let mut e = RecordingEdit::default();
    for at in [300, 100, 200] {
        e.insert(sugg(at));
    }
    assert_eq!(ats(&e), [100, 200, 300]);
    let i = e.move_to(0, 250);
    assert_eq!(i, 1);
    assert_eq!(ats(&e), [200, 250, 300]);
}

#[test]
fn navigation() {
    let mut e = RecordingEdit::default();
    for at in [100, 200, 300] {
        e.insert(sugg(at));
    }
    assert_eq!(e.next_after(100), Some(1));
    assert_eq!(e.next_after(300), None);
    assert_eq!(e.prev_before(100), None);
    assert_eq!(e.prev_before(250), Some(1));
    e.confirm(1);
    assert_eq!(e.next_to_review(Some(0)), Some(2));
    assert_eq!(e.next_to_review(Some(2)), Some(0)); // wraps
    assert_eq!(e.nearest(190, 20), Some(1));
    assert_eq!(e.nearest(150, 20), None);
    assert_eq!(e.counts(), (1, 2));
}

#[test]
fn detection_keeps_confirmed_decisions() {
    let mut e = RecordingEdit::default();
    e.insert(Split::confirmed(1000));
    e.insert(sugg(5000));
    e.apply_detection(vec![sugg(1010), sugg(3000), sugg(9000)], 100);
    assert_eq!(ats(&e), [1000, 3000, 9000]);
    assert!(e.detected);
}

#[test]
fn tracks_cover_everything() {
    let mut e = RecordingEdit::default();
    e.insert(sugg(10));
    e.insert(sugg(30));
    let bounds: Vec<(u64, u64)> = e.tracks(50).iter().map(|t| (t.start, t.end)).collect();
    assert_eq!(bounds, [(0, 10), (10, 30), (30, 50)]);
    assert_eq!(e.current_track(None, 10), 1);
    assert_eq!(e.current_track(None, 9), 0);
    assert_eq!(e.current_track(Some(1), 0), 2);
}

#[test]
fn silence_is_cut_from_track_edges() {
    let mut e = RecordingEdit::default();
    e.insert(sugg(50));
    e.set_silences(vec![
        Silence { start: 0, end: 5, keep: false },    // lead-in
        Silence { start: 20, end: 25, keep: false },  // inside track 0: stays
        Silence { start: 45, end: 55, keep: false },  // around the split
        Silence { start: 90, end: 100, keep: false }, // tail
    ]);
    let audio: Vec<(u64, u64)> = e.tracks(100).iter().map(|t| (t.audio_start, t.audio_end)).collect();
    assert_eq!(audio, [(5, 45), (55, 90)]);
    let bounds: Vec<(u64, u64)> = e.tracks(100).iter().map(|t| (t.start, t.end)).collect();
    assert_eq!(bounds, [(0, 50), (50, 100)], "splits are unchanged");

    // Keeping the gap's silence puts it back in both tracks.
    let i = e.silence_at(50).unwrap();
    e.silences[i].keep = true;
    let audio: Vec<(u64, u64)> = e.tracks(100).iter().map(|t| (t.audio_start, t.audio_end)).collect();
    assert_eq!(audio, [(5, 50), (50, 90)]);

    // A track that is all silence ends up empty; re-detecting keeps the user's choice.
    e.insert(sugg(95));
    assert_eq!(e.tracks(100)[2].audio_len(), 0);
    e.set_silences(vec![Silence { start: 46, end: 54, keep: false }]);
    assert!(e.silences[0].keep);
    assert_eq!(e.silence_at(45), None);
    assert_eq!(e.silence_at(54), None);
}

#[test]
fn skipped_is_what_the_export_leaves_out() {
    let mut e = RecordingEdit::default();
    for at in [50, 100] {
        e.insert(sugg(at));
    }
    e.set_silences(vec![
        Silence { start: 0, end: 5, keep: false },
        Silence { start: 45, end: 55, keep: false },
        Silence { start: 95, end: 105, keep: false },
    ]);
    assert_eq!(e.skipped(150), [(0, 5), (45, 55), (95, 105)]);
    // Leaving out the middle track merges it with the silence on both sides.
    e.track_meta_mut(1).unwrap().drop = true;
    assert_eq!(e.skipped(150), [(0, 5), (45, 105)]);
}

#[test]
fn cleaned_keeps_exported_audio_and_titles() {
    let mut e = RecordingEdit::default();
    for at in [50, 100] {
        e.insert(sugg(at));
    }
    e.set_silences(vec![
        Silence { start: 0, end: 5, keep: false },
        Silence { start: 45, end: 55, keep: false },
        Silence { start: 140, end: u64::MAX, keep: false },
    ]);
    e.head.title = "Intro".into();
    e.track_meta_mut(1).unwrap().drop = true; // talk
    e.track_meta_mut(2).unwrap().title = "Song".into();
    let (ranges, c) = e.cleaned(150);
    assert_eq!(ranges, [(5, 45), (100, 140)]);
    let tracks: Vec<(u64, u64, &str)> = c.tracks(80).iter().map(|t| (t.start, t.end, t.meta.title.as_str())).collect();
    assert_eq!(tracks, [(0, 40, "Intro"), (40, 80, "Song")]);
    assert_eq!(c.counts(), (1, 0), "already reviewed");
    assert!(c.skipped(80).is_empty(), "nothing left to cut");
}

#[test]
fn untitled_tracks_are_named_by_export_number() {
    let mut e = RecordingEdit::default();
    for at in [10, 20, 30] {
        e.insert(sugg(at));
    }
    e.track_meta_mut(1).unwrap().drop = true;
    e.track_meta_mut(2).unwrap().title = " Song ".into();
    let names = e.names(40);
    assert_eq!(names, [Some("Track 1".into()), None, Some("Song".into()), Some("Track 3".into())]);
}

#[test]
fn titles_follow_their_track() {
    let mut e = RecordingEdit::default();
    e.insert(sugg(10));
    e.insert(sugg(30));
    e.head.title = "Intro".into();
    e.track_meta_mut(1).unwrap().title = "Song A".into();
    e.track_meta_mut(2).unwrap().title = "Song B".into();
    // A new split inside Song A creates an untitled track; Song B keeps its title.
    e.insert(Split::confirmed(20));
    let titles: Vec<&str> = e.tracks(50).iter().map(|t| t.meta.title.as_str()).collect();
    assert_eq!(titles, ["Intro", "Song A", "", "Song B"]);
    // Removing the split that starts Song A merges it into Intro.
    e.remove(0);
    let titles: Vec<&str> = e.tracks(50).iter().map(|t| t.meta.title.as_str()).collect();
    assert_eq!(titles, ["Intro", "", "Song B"]);
}

#[test]
fn redetect_keeps_titles_on_nearby_suggestions() {
    let mut e = RecordingEdit::default();
    e.insert(sugg(1000));
    e.track_meta_mut(1).unwrap().title = "Kept".into();
    e.apply_detection(vec![sugg(1050), sugg(5000)], 100);
    assert_eq!(e.splits[0].track.title, "Kept");
    assert_eq!(e.splits[1].track.title, "");
}

#[test]
fn undo_redo() {
    let mut h = History::default();
    let mut e = RecordingEdit::default();
    e.insert(sugg(1));
    h.record(e.snapshot());
    e.insert(sugg(2));
    assert_eq!(h.undo(&mut e), Some(Some(0)));
    assert_eq!(e.splits.len(), 1);
    assert_eq!(h.redo(&mut e), Some(Some(1)), "selects the split that came back");
    assert_eq!(e.splits.len(), 2);
    assert_eq!(h.redo(&mut e), None);
    // Undoing a title change on the first track touches no split.
    h.record(e.snapshot());
    e.head.title = "x".into();
    assert_eq!(h.undo(&mut e), Some(None));
    assert_eq!(e.head.title, "");
}

#[test]
fn titles_go_to_kept_tracks_only() {
    let mut e = RecordingEdit::default();
    e.insert(Split::confirmed(10));
    e.insert(Split::confirmed(20));
    e.track_meta_mut(1).unwrap().drop = true; // talk between songs
    let n = tracklist::apply(&mut e, &vec!["A".to_string(), "B".to_string(), "C".to_string()]);
    assert_eq!(n, 2);
    let titles: Vec<&str> = e.tracks(30).iter().map(|t| t.meta.title.as_str()).collect();
    assert_eq!(titles, ["A", "", "B"]);
}

/// Replays a review session the way the keyboard drives it.
struct Keyboard {
    s: Session,
    pos: u64,
}

impl Keyboard {
    fn new(at: &[u64]) -> Self {
        let mut edit = RecordingEdit::default();
        for &a in at {
            edit.insert(sugg(a));
        }
        Self { s: Session::new(edit), pos: 0 }
    }
    fn tab(&mut self) {
        self.s.step_split(self.pos, true);
    }
    fn enter(&mut self) {
        self.s.confirm_and_next(self.pos);
    }
    fn backspace(&mut self) {
        self.s.delete_split();
    }
    fn undo(&mut self) {
        self.s.apply_history(true);
    }
    fn selected(&self) -> Option<u64> {
        self.s.cur.map(|i| self.s.edit.splits[i].at)
    }
    fn ats(&self) -> Vec<u64> {
        ats(&self.s.edit)
    }
}

#[test]
fn tab_tab_delete_undo_restores_and_selects_the_split() {
    let mut s = Keyboard::new(&[100, 200, 300, 400]);
    s.tab();
    assert_eq!(s.selected(), Some(100));
    s.tab();
    assert_eq!(s.selected(), Some(200));
    s.backspace();
    assert_eq!(s.ats(), [100, 300, 400]);
    assert_eq!(s.selected(), Some(300), "moves on to the next one to review");
    s.undo();
    assert_eq!(s.ats(), [100, 200, 300, 400]);
    assert_eq!(s.selected(), Some(200), "selection returns to the restored split");
}

#[test]
fn enter_walks_through_suggestions_then_wraps_to_skipped_ones() {
    let mut s = Keyboard::new(&[100, 200, 300]);
    s.enter(); // nothing selected: go to the first suggestion
    assert_eq!(s.selected(), Some(100));
    s.tab(); // skip 200 without deciding
    s.tab();
    assert_eq!(s.selected(), Some(300));
    s.enter(); // keep 300 -> wraps back to 100, still unreviewed
    assert_eq!(s.selected(), Some(100));
    s.enter();
    assert_eq!(s.selected(), Some(200));
    s.enter();
    assert_eq!(s.s.edit.counts(), (3, 0));
    assert_eq!(s.selected(), Some(300), "all reviewed: just moves forward");
    s.undo();
    assert_eq!(s.s.edit.counts(), (2, 1));
    assert_eq!(s.selected(), Some(200), "undo lands on the split whose state changed");
}

#[test]
fn deleting_the_last_suggestion_leaves_nothing_selected() {
    let mut s = Keyboard::new(&[100]);
    s.tab();
    s.backspace();
    assert!(s.s.edit.splits.is_empty());
    assert_eq!(s.s.cur, None);
    s.undo();
    assert_eq!(s.selected(), Some(100));
}

#[test]
fn enter_from_the_playhead_starts_at_the_next_suggestion() {
    let mut s = Keyboard::new(&[100, 200, 300]);
    s.pos = 150;
    s.enter();
    assert_eq!(s.selected(), Some(200));
}

#[test]
fn history_forgets_the_oldest_step() {
    let mut h = History::default();
    let mut e = RecordingEdit::default();
    for i in 0..LIMIT as u64 + 7 {
        h.record(e.snapshot());
        e.insert(Split::confirmed(i + 1));
    }
    let mut undone = 0;
    while h.undo(&mut e).is_some() {
        undone += 1;
    }
    assert_eq!(undone, LIMIT);
    assert_eq!(e.splits.len(), 7);
    // What was undone is forgotten once something new happens.
    h.record(e.snapshot());
    assert_eq!(h.redo(&mut e), None);
}

#[test]
fn undo_takes_back_exactly_one_step() {
    let mut s = Keyboard::new(&[100, 200]);
    let before = s.s.edit.snapshot();
    s.s.set_title(1, "  Song ");
    assert_eq!(s.s.edit.splits[0].track.title, "Song");
    assert!(s.s.apply_history(true));
    assert!(same_snapshot(&s.s.edit.snapshot(), &before));
    assert!(s.s.apply_history(false));
    assert_eq!(s.s.edit.splits[0].track.title, "Song");
    assert!(!s.s.apply_history(false));
    // Nothing changed: nothing to undo but the title.
    s.s.set_title(1, "Song");
    assert!(s.s.apply_history(true));
    assert!(!s.s.apply_history(true));
}

#[test]
fn splits_move_within_the_recording() {
    let mut s = Keyboard::new(&[100, 200]);
    s.tab();
    s.s.nudge_split(-1000, 500);
    assert_eq!(s.ats(), [1, 200]);
    s.s.nudge_split(10_000, 500);
    assert_eq!(s.ats(), [200, 499]);
    assert_eq!(s.s.cur, Some(1));
    // A drag is one step, however often the marker moved.
    s.s.begin_drag(0);
    s.s.drag_to(300, 500);
    s.s.drag_to(350, 500);
    assert!(s.s.end_drag());
    assert_eq!(s.ats(), [350, 499]);
    s.undo();
    assert_eq!(s.ats(), [200, 499]);
    s.s.begin_drag(0);
    assert!(!s.s.end_drag());
    // Ten milliseconds at 44.1 kHz.
    assert_eq!(review::nudge_frames(10_000_000, 44_100), 441);
    assert_eq!(review::nudge_frames(-100_000_000, 44_100), -4410);
}

#[test]
fn playhead_splits_are_confirmed() {
    let mut s = Keyboard::new(&[100]);
    s.s.add_split(0, 500);
    s.s.add_split(500, 500);
    assert_eq!(s.ats(), [100]);
    s.s.add_split(250, 500);
    assert_eq!(s.ats(), [100, 250]);
    assert_eq!(s.s.cur, Some(1));
    assert_eq!(s.s.edit.splits[1].state, SplitState::Confirmed);
    assert_eq!(s.s.edit.splits[1].silence, None);
    assert_eq!(s.s.replay(0), Some(1));
    s.s.cur = None;
    assert_eq!(s.s.replay(120), Some(0));
    assert_eq!(review::preview_range(250, 100), (0, 550));
    assert_eq!(review::preview_range(1000, 100), (700, 1300));
}

#[test]
fn pasted_titles_are_one_step() {
    let mut s = Keyboard::new(&[100, 200]);
    s.s.toggle_drop(1);
    assert_eq!(s.s.apply_tracklist("1. One\n2. Two\n3. Three\n"), 2);
    assert_eq!(s.s.edit.head.title, "One");
    assert_eq!(s.s.edit.splits[1].track.title, "Two");
    s.undo();
    assert_eq!(s.s.edit.head.title, "");
    assert!(s.s.edit.splits[0].track.drop);
    s.undo();
    assert!(!s.s.edit.splits[0].track.drop);
}

#[test]
fn detection_settings_have_limits() {
    let mut p = DetectParams { threshold_udb: -10_000_000, min_silence_ns: SECOND, min_track_ns: 30 * SECOND };
    review::step_params(&mut p, DetectStep::Louder);
    assert_eq!(p.threshold_udb, -7_000_000);
    review::step_params(&mut p, DetectStep::Louder);
    assert_eq!(p.threshold_udb, -6_000_000);
    review::step_params(&mut p, DetectStep::Quieter);
    assert_eq!(p.threshold_udb, -9_000_000);
    for _ in 0..5 {
        review::step_params(&mut p, DetectStep::Shorter);
    }
    assert_eq!(p.min_silence_ns, 250_000_000);
    review::step_params(&mut p, DetectStep::Longer);
    assert_eq!(p.min_silence_ns, 500_000_000);
}

// ---- Detection ----

const RATE: u32 = 1000;
const WIN: u64 = 50; // 20 windows per second

/// `pattern` of (seconds, dB) segments.
fn db(pattern: &[(u64, i32)]) -> Vec<i32> {
    pattern.iter().flat_map(|&(s, d)| std::iter::repeat(d * 1_000_000).take((s * 20) as usize)).collect()
}

fn params() -> DetectParams {
    DetectParams { threshold_udb: -45_000_000, min_silence_ns: 3 * SECOND / 2, min_track_ns: 30 * SECOND }
}

#[test]
fn suggests_middle_of_gaps() {
    let d = db(&[(60, -20), (2, -70), (60, -20), (1, -70), (60, -20)]);
    let s = suggest(&d, WIN, RATE, &params());
    assert_eq!(s.len(), 1, "the 1 s gap is too short");
    assert_eq!(s[0].at, 61_000);
    assert_eq!(s[0].silence, Some(2 * SECOND));
}

#[test]
fn ignores_lead_in_and_tail() {
    let d = db(&[(3, -80), (60, -20), (3, -80)]);
    assert!(suggest(&d, WIN, RATE, &params()).is_empty());
}

#[test]
fn close_suggestions_keep_longest_silence() {
    let d = db(&[(60, -20), (2, -70), (10, -20), (4, -70), (60, -20)]);
    let s = suggest(&d, WIN, RATE, &params());
    assert_eq!(s.len(), 1);
    assert_eq!(s[0].silence, Some(4 * SECOND));
}

#[test]
fn tags_silence_with_margins() {
    let d = db(&[(3, -80), (60, -20), (2, -70), (60, -20), (3, -80)]);
    let t = tag(&d, WIN, RATE, &params());
    let bounds: Vec<(u64, u64)> = t.iter().map(|s| (s.start, s.end)).collect();
    assert_eq!(bounds, [(0, 2_750), (63_250, 64_750), (125_250, u64::MAX)]);
    // The suggested split sits inside the tagged gap.
    let at = suggest(&d, WIN, RATE, &params())[0].at;
    assert!(t[1].start < at && at < t[1].end);
}

#[test]
fn snap_finds_quiet_spot_nearby() {
    let mut d = vec![-20_000_000; 200];
    d[110] = -60_000_000;
    assert_eq!(snap(&d, WIN, RATE, 100 * WIN, SECOND / 2), 110 * WIN + WIN / 2);
    // Out of reach: stays put.
    assert_eq!(snap(&d, WIN, RATE, 50 * WIN, SECOND / 2), 50 * WIN);
}

#[test]
fn redetecting_keeps_confirmed_splits_and_can_be_undone() {
    let d = db(&[(60, -20), (2, -70), (60, -20), (2, -70), (60, -20)]);
    let mut e = RecordingEdit::default();
    e.detect = params();
    assert!(review::ensure_detected(&mut e, &d, WIN, RATE));
    assert_eq!(ats(&e), [61_000, 123_000]);
    assert_eq!(e.silences.len(), 2, "detection tags silence too");
    assert!(!review::ensure_detected(&mut e, &[], WIN, RATE), "once is enough");
    // A cutlist from before silence was tagged gets the tags and keeps its splits.
    e.silences = Vec::new();
    e.silences_detected = false;
    e.splits.truncate(1);
    assert!(review::ensure_detected(&mut e, &d, WIN, RATE));
    assert_eq!((ats(&e), e.silences.len()), (vec![61_000], 2));
    e.detected = false;
    assert!(review::ensure_detected(&mut e, &d, WIN, RATE));
    assert_eq!(ats(&e), [61_000, 123_000]);
    let mut s = Session::new(e);
    s.edit.confirm(0);
    s.edit.move_to(0, 60_500);
    s.redetect(&d, WIN, RATE);
    // The suggestion next to the confirmed split is dropped.
    assert_eq!(ats(&s.edit), [60_500, 123_000]);
    assert_eq!(s.edit.splits[0].state, SplitState::Confirmed);
    s.cur = Some(0);
    s.snap_split(&d, WIN, RATE);
    assert_eq!(ats(&s.edit), [60_500, 123_000], "already as quiet as it gets");
}

#[test]
fn silence_can_be_kept_and_cut_again() {
    let d = db(&[(60, -20), (2, -70), (60, -20), (2, -70), (60, -20)]);
    let mut e = RecordingEdit::default();
    e.detect = params();
    review::ensure_detected(&mut e, &d, WIN, RATE);
    let kept = |s: &Session| s.edit.silences.iter().map(|x| x.keep).collect::<Vec<_>>();
    let mut s = Session::new(e);
    // Nothing is selected: the silence under the playhead.
    s.toggle_silence(123_000);
    assert_eq!(kept(&s), [false, true]);
    // The selected split's silence, wherever the playhead is.
    s.cur = Some(0);
    s.toggle_silence(123_000);
    assert_eq!(kept(&s), [true, true]);
    // Detecting again keeps the choice.
    s.redetect(&d, WIN, RATE);
    assert_eq!(kept(&s), [true, true]);
    s.toggle_silence(30_000);
    assert_eq!(kept(&s), [true, true], "no silence there");
    assert!(s.apply_history(true));
    assert_eq!(kept(&s), [false, true]);
    s.cur = Some(1);
    s.toggle_silence(0);
    assert_eq!(kept(&s), [false, false]);
    s.toggle_silence(0);
    assert_eq!(kept(&s), [false, true], "twice is not at all");
}

#[test]
fn a_suggestion_never_takes_the_place_of_a_confirmed_split() {
    let mut e = RecordingEdit::default();
    e.insert(Split::confirmed(1000));
    e.track_meta_mut(1).unwrap().title = "Mine".into();
    let before = e.splits[0].clone();
    e.apply_detection(vec![sugg(1000), sugg(1001)], 0);
    assert_eq!(ats(&e), [1000, 1001]);
    assert_eq!(e.splits[0], before);
    assert_eq!(e.counts(), (1, 1));
}

#[test]
fn stepping_selects_only_splits_that_exist() {
    let mut s = Session::new(RecordingEdit::default());
    s.cur = Some(10);
    assert_eq!(s.step_split(0, false), None);
    assert_eq!(s.cur, Some(10));
    let mut k = Keyboard::new(&[10, 20]);
    k.s.cur = Some(2);
    assert_eq!(k.s.step_split(0, false), Some(1));
    assert_eq!(k.s.cur, Some(1));
    k.s.cur = Some(3);
    assert_eq!(k.s.step_split(0, false), None);
    assert_eq!(k.s.step_split(0, true), None);
    assert_eq!(k.s.cur, Some(3));
}

/// The three tracks of `skipped_is_what_the_export_leaves_out`, the middle one left out.
fn cut_up() -> RecordingEdit {
    let mut e = RecordingEdit::default();
    for at in [50, 100] {
        e.insert(sugg(at));
    }
    e.set_silences(vec![
        Silence { start: 0, end: 5, keep: false },
        Silence { start: 45, end: 55, keep: false },
        Silence { start: 95, end: 105, keep: false },
    ]);
    e.track_meta_mut(1).unwrap().drop = true;
    e
}

#[test]
fn skipped_and_kept_tile_the_recording() {
    let e = cut_up();
    let skipped = e.skipped(150);
    let kept = e.cleaned(150).0;
    assert_eq!(kept, [(5, 45), (105, 150)]);
    for x in 0..150 {
        let within = |r: &[(u64, u64)]| r.iter().filter(|(a, b)| *a <= x && x < *b).count();
        assert_eq!(within(&skipped) + within(&kept), 1, "{x}");
    }
}

#[test]
fn the_preview_jumps_over_what_is_left_out() {
    let e = cut_up();
    assert_eq!(e.jump_from(150, 0), Some(5));
    assert_eq!(e.jump_from(150, 5), None);
    assert_eq!(e.jump_from(150, 44), None);
    assert_eq!(e.jump_from(150, 45), Some(105));
    assert_eq!(e.jump_from(150, 104), Some(105));
    assert_eq!(e.jump_from(150, 149), None);
    assert_eq!(e.jump_from(150, 150), None);
}

#[test]
fn cleaning_keeps_nothing_only_where_no_track_is_exported() {
    let mut e = cut_up();
    e.head.drop = true;
    e.track_meta_mut(2).unwrap().drop = true;
    let (ranges, c) = e.cleaned(150);
    assert!(ranges.is_empty() && c.splits.is_empty() && c.skipped(0).is_empty());
    e.track_meta_mut(2).unwrap().drop = false;
    assert_eq!(e.cleaned(150).0, [(105, 150)]);
}

#[test]
fn suggestions_come_in_order_from_different_silences() {
    let p = DetectParams { min_track_ns: 0, ..params() };
    let d = db(&[(3, -80), (4, -20), (2, -70), (1, -20), (3, -70), (5, -20), (2, -80)]);
    let s = suggest(&d, WIN, RATE, &p);
    let got: Vec<(u64, Option<u64>)> = s.iter().map(|x| (x.at, x.silence)).collect();
    assert_eq!(got, [(8_000, Some(2 * SECOND)), (11_500, Some(3 * SECOND))]);
    assert!(s.iter().all(|x| x.state == SplitState::Suggested && x.track.title.is_empty() && !x.track.drop));
}

#[test]
fn snapping_takes_the_quietest_window_in_reach() {
    let mut d = vec![-20_000_000; 200];
    (d[95], d[104], d[130]) = (-50_000_000, -55_000_000, -90_000_000);
    let to = snap(&d, WIN, RATE, 100 * WIN, SECOND / 2);
    assert_eq!(to, 104 * WIN + WIN / 2);
    // Once there, it stays.
    assert_eq!(snap(&d, WIN, RATE, to, SECOND / 2), to);
}

#[test]
fn splits_stay_inside_the_recording() {
    let mut k = Keyboard::new(&[10, 50]);
    let inside = |k: &Keyboard| k.ats().iter().all(|&at| 0 < at && at < 60);
    k.s.cur = Some(0);
    k.s.nudge_split(-100, 60);
    assert_eq!(k.ats(), [1, 50]);
    k.s.begin_drag(1);
    k.s.drag_to(1_000, 60);
    k.s.end_drag();
    assert_eq!(k.ats(), [1, 59]);
    k.s.add_split(0, 60);
    k.s.add_split(60, 60);
    k.s.add_split(30, 60);
    assert_eq!(k.ats(), [1, 30, 59]);
    while k.s.apply_history(true) {
        assert!(inside(&k));
    }
    assert_eq!(k.ats(), [10, 50]);
}

#[test]
fn only_a_split_that_exists_is_heard_again() {
    let mut k = Keyboard::new(&[10, 50]);
    assert_eq!(k.s.replay(45), Some(1));
    k.s.cur = Some(0);
    assert_eq!(k.s.replay(45), Some(0));
    k.s.cur = Some(7);
    assert_eq!(k.s.replay(45), None);
}

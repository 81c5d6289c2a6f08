//! What keys, commands and settings do.
use vstd::prelude::*;
use crate::detect::CUT_MARGIN_DIV;
use crate::edit::DetectParams;
use crate::keys::{command_of, Command, Held, Key};
use crate::player::{Action, Cmd, Playback};
use crate::review::{nudged, stepped_params, DetectStep};
use crate::transcode::{front_pair, lame_bitrates, mp3_rate_for, rounds_up};

verus! {

// ---- Keys ----

/// What each key does: moving in the recording, and between recordings.
pub proof fn law_keys_move(held: Held)
    ensures
        command_of(Key::Space, held) == Some(Command::Toggle),
        !held.shift && !held.alt ==> command_of(Key::Right, held) == Some(Command::Jump(5_000_000_000)),
        held.shift && !held.alt ==> command_of(Key::Right, held) == Some(Command::Jump(500_000_000)),
        held.alt ==> command_of(Key::Right, held) == Some(Command::Jump(10_000_000)),
        !held.shift && !held.alt ==> command_of(Key::Left, held) == Some(Command::Jump((-5_000_000_000) as i64)),
        held.shift && !held.alt ==> command_of(Key::Left, held) == Some(Command::Jump((-500_000_000) as i64)),
        held.alt ==> command_of(Key::Left, held) == Some(Command::Jump((-10_000_000) as i64)),
        command_of(Key::Up, held) == Some(Command::SelectOffset((-1) as i64)),
        command_of(Key::Down, held) == Some(Command::SelectOffset(1)),
        command_of(Key::Home, held) == Some(Command::GoToStart),
        command_of(Key::End, held) == Some(Command::GoToEnd),
        command_of(Key::Plus, held) == Some(Command::Zoom { num: 1, den: 2 }),
        command_of(Key::Minus, held) == Some(Command::Zoom { num: 2, den: 1 }),
{
}

/// What each key does: reviewing splits.
pub proof fn law_keys_review(held: Held)
    ensures
        command_of(Key::Tab, held) == Some(Command::StepSplit { forward: !held.shift }),
        !held.cmd ==> command_of(Key::Enter, held) == Some(Command::ConfirmAndNext),
        held.cmd ==> command_of(Key::Enter, held) == Some(Command::Finish),
        command_of(Key::Backspace, held) == Some(Command::DeleteSplit),
        !held.shift ==> command_of(Key::Period, held) == Some(Command::NudgeSplit(10_000_000)),
        held.shift ==> command_of(Key::Period, held) == Some(Command::NudgeSplit(100_000_000)),
        !held.shift ==> command_of(Key::Comma, held) == Some(Command::NudgeSplit((-10_000_000) as i64)),
        held.shift ==> command_of(Key::Comma, held) == Some(Command::NudgeSplit((-100_000_000) as i64)),
        command_of(Key::Escape, held) == Some(Command::Escape),
        !held.cmd ==> command_of(Key::Letter('S'), held) == Some(Command::SnapSplit),
        !held.cmd ==> command_of(Key::Letter('G'), held) == Some(Command::ToggleSilence),
        !held.cmd ==> command_of(Key::Letter('M'), held) == Some(Command::AddSplit),
        !held.cmd ==> command_of(Key::Letter('C'), held) == Some(Command::Replay),
        held.cmd && !held.shift ==> command_of(Key::Letter('Z'), held) == Some(Command::Undo),
        held.cmd && held.shift ==> command_of(Key::Letter('Z'), held) == Some(Command::Redo),
{
}

/// What each key does: tracks, files and the export.
pub proof fn law_keys_export(held: Held)
    ensures
        !held.cmd ==> command_of(Key::Letter('T'), held) == Some(Command::EditTitle),
        !held.cmd ==> command_of(Key::Letter('X'), held) == Some(Command::ToggleDrop),
        !held.cmd ==> command_of(Key::Letter('A'), held) == Some(Command::Compare),
        !held.cmd ==> command_of(Key::Letter('F'), held) == Some(Command::ToggleFlag),
        !held.cmd ==> command_of(Key::Letter('P'), held) == Some(Command::TogglePreview),
        !held.cmd ==> command_of(Key::Letter('R'), held) == Some(Command::Rename),
        held.cmd && !held.shift ==> command_of(Key::Letter('E'), held) == Some(Command::ExportCurrent),
        held.cmd && held.shift ==> command_of(Key::Letter('E'), held) == Some(Command::ExportDone),
        held.cmd ==> command_of(Key::Letter('O'), held) == Some(Command::OpenFolder),
        held.cmd ==> command_of(Key::Letter('U'), held) == Some(Command::AskUrl),
        command_of(Key::Other, held) is None,
{
}

// ---- Playback ----

/// Going to a frame puts the playhead on it, or on the end where it lies behind that. The player
/// goes on as it was, without a stop, and the source is moved there.
pub proof fn law_seeking_goes_there(p: Playback, frame: u64, drained: bool)
    requires
        p.wf(),
        p.loaded,
    ensures
        ({
            let (after, act) = p.commanded(Cmd::Seek(frame), drained);
            let to = if frame < p.total {
                frame
            } else {
                p.total
            };
            &&& after.at() == to
            &&& act == Action::Seek(to)
            &&& after.playing == p.playing
            &&& after.stop_at == u64::MAX
            &&& after.using_alt == p.using_alt && after.loop_range == p.loop_range && after.total == p.total
        }),
{
    lemma_fresh(p.src_rate, p.dev_rate);
}

proof fn lemma_fresh(src: u32, dev: u32)
    requires
        dev > 0,
    ensures
        0 * src / dev as int == 0,
{
    assert(0 * src == 0);
    assert(0int / dev as int == 0) by (nonlinear_arith)
        requires
            dev > 0,
    ;
}

/// Playing a range starts at its start and stops at its end.
pub proof fn law_ranges_play_from_start_to_end(p: Playback, from: u64, to: u64, drained: bool)
    requires
        p.wf(),
        p.loaded,
        from <= p.total,
    ensures
        ({
            let (after, act) = p.commanded(Cmd::PlayRange(from, to), drained);
            &&& after.at() == from
            &&& after.stop_at == to
            &&& act == Action::SeekThenPlay(from)
        }),
{
    lemma_fresh(p.src_rate, p.dev_rate);
}

/// Pausing keeps the playhead where it is; the same key that pauses plays again, from the same
/// place unless all was played, and then from the beginning.
pub proof fn law_toggling_pauses_and_plays(p: Playback, drained: bool)
    requires
        p.wf(),
        p.loaded,
    ensures
        !p.commanded(Cmd::Pause, drained).0.playing,
        p.commanded(Cmd::Pause, drained).0.at() == p.at(),
        p.commanded(Cmd::Pause, drained).1 == Action::Nothing,
        p.playing ==> !p.commanded(Cmd::Toggle, drained).0.playing && p.commanded(Cmd::Toggle, drained).0.at() == p.at(),
        !p.playing ==> p.commanded(Cmd::Toggle, drained).0.playing,
        p.commanded(Cmd::Play, drained).0.playing,
        !(p.eos && drained) ==> p.commanded(Cmd::Play, drained).0.at() == p.at() && p.commanded(Cmd::Play, drained).1
            == Action::Nothing,
        p.eos && drained ==> p.commanded(Cmd::Play, drained).0.at() == 0 && p.commanded(Cmd::Play, drained).1
            == Action::Seek(0),
{
    lemma_fresh(p.src_rate, p.dev_rate);
}

/// Swapping between the file and its encoded version goes on at the same place, with the other
/// one, and swapping back brings the first one back.
pub proof fn law_swapping_keeps_the_place(p: Playback, on: bool)
    requires
        p.wf(),
        p.loaded,
        p.has_alt,
    ensures
        ({
            let (after, act) = p.swapped(on);
            &&& after.at() == p.at()
            &&& after.using_alt == on
            &&& after.playing == p.playing
            &&& on != p.using_alt ==> act == Action::Swap { alt: on, frame: p.at() as u64 }
            &&& on == p.using_alt ==> act == Action::Nothing && after == p
            &&& after.swapped(p.using_alt).0.using_alt == p.using_alt
            &&& after.swapped(p.using_alt).0.at() == p.at()
        }),
{
    lemma_fresh(p.src_rate, p.dev_rate);
    let (c, a, b) = (p.consumed as int, p.src_rate as int, p.dev_rate as int);
    assert(c * a / b >= 0) by (nonlinear_arith)
        requires
            c >= 0,
            a >= 0,
            b > 0,
    ;
}

/// A loop goes back to its start once its end is reached, and not before.
pub proof fn law_loops_go_back(p: Playback, a: u64, b: u64, drained: bool)
    requires
        p.wf(),
        p.loaded,
        p.playing,
        p.loop_range == Some((a, b)),
        a <= p.total,
    ensures
        p.reached() >= b ==> p.looped(drained).0.at() == a && p.looped(drained).1 == Action::Seek(a),
        p.reached() < b ==> p.looped(drained) == (p, Action::Nothing),
        p.looped(drained).0.playing,
{
    lemma_fresh(p.src_rate, p.dev_rate);
}

// ---- Settings and splits ----

/// A nudged split moves by as much as asked for, but stays inside the recording.
pub proof fn law_nudging_moves_by_that_much(at: u64, delta: i64, total: u64)
    requires
        total >= 2,
    ensures
        0 < nudged(at, delta, total) < total,
        0 < at + delta < total ==> nudged(at, delta, total) == at + delta,
        at + delta <= 0 ==> nudged(at, delta, total) == 1,
        at + delta >= total ==> nudged(at, delta, total) == total - 1,
{
}

/// The threshold moves by 3 dB and the shortest silence by a quarter of a second, each alone. The
/// way back undoes a step that met no limit.
pub proof fn law_detection_settings_step(p: DetectParams)
    requires
        -90_000_000 <= p.threshold_udb <= -6_000_000,
        250_000_000 <= p.min_silence_ns <= 60_000_000_000,
    ensures
        stepped_params(p, DetectStep::Quieter) == (DetectParams { threshold_udb: (p.threshold_udb - 3_000_000) as i32, ..p }),
        p.threshold_udb <= -9_000_000 ==> stepped_params(p, DetectStep::Louder) == (DetectParams {
            threshold_udb: (p.threshold_udb + 3_000_000) as i32,
            ..p
        }),
        p.threshold_udb > -9_000_000 ==> stepped_params(p, DetectStep::Louder).threshold_udb == -6_000_000,
        stepped_params(p, DetectStep::Longer) == (DetectParams {
            min_silence_ns: (p.min_silence_ns + 250_000_000) as u64,
            ..p
        }),
        p.min_silence_ns >= 500_000_000 ==> stepped_params(p, DetectStep::Shorter) == (DetectParams {
            min_silence_ns: (p.min_silence_ns - 250_000_000) as u64,
            ..p
        }),
        p.min_silence_ns < 500_000_000 ==> stepped_params(p, DetectStep::Shorter).min_silence_ns == 250_000_000,
        stepped_params(stepped_params(p, DetectStep::Quieter), DetectStep::Louder) == p,
        stepped_params(stepped_params(p, DetectStep::Longer), DetectStep::Shorter) == p,
{
}

/// The lengths that are told to the user: a split is snapped within half a second, heard for
/// three seconds on each side, suggested no closer than two seconds to a confirmed one; a cut
/// leaves a quarter of a second; the comparison loops over twelve seconds; 500 steps can be taken
/// back, and tools are updated once a day.
pub proof fn law_lengths_are_as_told()
    ensures
        crate::review::SNAP_NS == 500_000_000,
        crate::review::PREVIEW_SECS == 3,
        crate::review::KEEP_CLEAR_SECS == 2,
        CUT_MARGIN_DIV == 4,
        crate::ab::AB_SECS == 12,
        crate::history::LIMIT == 500,
        crate::tools::UPDATE_EVERY == 24 * 3600 * 1_000_000_000,
        crate::state::MIN_SPAN == 2_000_000_000,
        crate::state::MAX_SPAN == 600_000_000_000,
        crate::export::CEILING == -1_000_000,
        crate::export::NAME_LIMIT == 180,
        crate::loudness::REPLAYGAIN_REFERENCE == -18_000_000,
        crate::mp3cut::DECODER_DELAY == 529,
        crate::mp3cut::MAX_LAME_FIELD == 4095,
        crate::mp3cut::MAX_RESERVOIR == 511,
        crate::mp3cut::PRIME_FRAMES == 2,
        crate::media_server::IN_APP_CHUNK == 4 * 1024 * 1024,
{
}

// ---- Encoding ----

/// MP3 keeps the rates that it has. Multiples of 44.1 kHz become that, all others 48 kHz.
pub proof fn law_mp3_keeps_its_rates(rate: u32)
    ensures
        ({
            let own = rate == 8000 || rate == 11_025 || rate == 12_000 || rate == 16_000 || rate == 22_050 || rate == 24_000
                || rate == 32_000 || rate == 44_100 || rate == 48_000;
            &&& own ==> mp3_rate_for(rate) == rate
            &&& !own && rate % 44_100 == 0 ==> mp3_rate_for(rate) == 44_100
            &&& !own && rate % 44_100 != 0 ==> mp3_rate_for(rate) == 48_000
        }),
{
    let s = crate::transcode::mp3_rates();
    assert(s[0] == 8000 && s[1] == 11_025 && s[2] == 12_000 && s[3] == 16_000 && s[4] == 22_050 && s[5] == 24_000);
    assert(s[6] == 32_000 && s[7] == 44_100 && s[8] == 48_000);
}

/// A bitrate is rounded up to one that is offered: 96, 112, 128, 160, 192, 224, 256 or 320.
pub proof fn law_bitrates_are_rounded_up(kbps: u16, r: u16)
    requires
        rounds_up(kbps, r),
    ensures
        r == if kbps <= 96 {
            96int
        } else if kbps <= 112 {
            112
        } else if kbps <= 128 {
            128
        } else if kbps <= 160 {
            160
        } else if kbps <= 192 {
            192
        } else if kbps <= 224 {
            224
        } else if kbps <= 256 {
            256
        } else {
            320
        },
{
    let s = lame_bitrates();
    assert(s[0] == 96 && s[1] == 112 && s[2] == 128 && s[3] == 160);
    assert(s[4] == 192 && s[5] == 224 && s[6] == 256 && s[7] == 320);
    let i = choose|i: int| 0 <= i < s.len() && s[i] == r;
    assert(r == s[i]);
}

/// Of more than two channels the first two are kept, frame by frame.
pub proof fn law_the_front_pair_is_kept(s: Seq<i16>, channels: int, frame: int)
    requires
        channels >= 2,
        s.len() as int % channels == 0,
        0 <= frame < s.len() as int / channels,
    ensures
        front_pair(s, channels).len() == s.len() as int / channels * 2,
        front_pair(s, channels)[frame * 2] == s[frame * channels],
        front_pair(s, channels)[frame * 2 + 1] == s[frame * channels + 1],
{
    assert((frame * 2) / 2 == frame && (frame * 2) % 2 == 0);
    assert((frame * 2 + 1) / 2 == frame && (frame * 2 + 1) % 2 == 1);
}

} // verus!

//! A/B listening: loop a short window and switch instantly between the original and how it
//! sounds with the chosen export profile.
use vstd::prelude::*;
use crate::export::Profile;

verus! {

/// Length of the compared window in seconds.
pub const AB_SECS: u64 = 12;

/// What is being compared.
#[derive(Clone, Copy, Debug, PartialEq, Eq, Structural)]
pub enum AbState {
    Off,
    Preparing { profile: Profile, start: u64, end: u64 },
    Ready { profile: Profile, start: u64, end: u64, encoded: bool },
}

impl Default for AbState {
    fn default() -> (r: AbState)
        ensures
            r == AbState::Off,
    {
        AbState::Off
    }
}

/// What pressing the key leads to.
#[derive(Clone, Copy, Debug, PartialEq, Eq, Structural)]
pub enum AbToggle {
    /// Switch the player to the encoded audio, or back to the original.
    Flip { encoded: bool },
    /// A preview is being made: wait for it.
    Wait,
    /// A video is exported as clips: there is no audio format to compare.
    Video,
    /// Original is the source itself: there is nothing to compare.
    Original,
    /// Make a preview at the playhead.
    Start,
}

/// A: start comparing at the playhead, or flip between original and encoded.
pub fn ab_toggle(state: &AbState, profile: Profile, pos: u64, video: bool) -> (r: AbToggle)
    ensures
        r == match *state {
            AbState::Ready { profile: p, start, end, encoded } if p == profile && start <= pos <= end => AbToggle::Flip {
                encoded: !encoded,
            },
            AbState::Preparing { .. } => AbToggle::Wait,
            _ => if video {
                AbToggle::Video
            } else if profile == Profile::Original {
                AbToggle::Original
            } else {
                AbToggle::Start
            },
        },
{
    match *state {
        AbState::Ready { profile: p, start, end, encoded } => {
            if p == profile && pos >= start && pos <= end {
                return AbToggle::Flip { encoded: !encoded };
            }
        },
        AbState::Preparing { .. } => return AbToggle::Wait,
        AbState::Off => {},
    }
    if video {
        AbToggle::Video
    } else if profile == Profile::Original {
        AbToggle::Original
    } else {
        AbToggle::Start
    }
}

/// The state after the player was switched.
pub fn flipped(state: &AbState, encoded: bool) -> (r: AbState)
    ensures
        r == match *state {
            AbState::Ready { profile, start, end, encoded: _ } => AbState::Ready { profile, start, end, encoded },
            other => other,
        },
{
    match *state {
        AbState::Ready { profile, start, end, encoded: _ } => AbState::Ready { profile, start, end, encoded },
        other => other,
    }
}

/// The window to compare: from the playhead, but whole if the recording is long enough.
pub open spec fn window_at(pos: int, total: int, len: int) -> (int, int) {
    let last = if total < len {
        0
    } else {
        total - len
    };
    let start = if pos < last {
        pos
    } else {
        last
    };
    (
        start,
        if start + len < total {
            start + len
        } else {
            total
        },
    )
}

pub fn ab_window(pos: u64, total: u64, rate: u32) -> (r: (u64, u64))
    ensures
        (r.0 as int, r.1 as int) == window_at(pos as int, total as int, AB_SECS * rate),
{
    let len: u64 = AB_SECS * rate as u64;
    let last: u64 = total.saturating_sub(len);
    let start: u64 = if pos < last {
        pos
    } else {
        last
    };
    let end: u64 = if total - start > len {
        start + len
    } else {
        total
    };
    (start, end)
}

/// The window lies in the recording, is as long as it should be where the recording is that
/// long, and holds the playhead unless that is within a window's length of the end.
pub proof fn law_window_is_whole(pos: int, total: int, len: int)
    requires
        0 <= pos,
        0 <= total,
        0 <= len,
    ensures
        ({
            let (start, end) = window_at(pos, total, len);
            &&& 0 <= start <= end <= total
            &&& len <= total ==> end - start == len
            &&& total < len ==> start == 0 && end == total
            &&& pos <= total ==> start <= pos <= end
        }),
{
}

/// Esc, file change or profile change: back to normal playback. Returns whether there was
/// anything to stop.
pub fn ab_stop(state: &mut AbState) -> (r: bool)
    ensures
        *final(state) == AbState::Off,
        r == (*old(state) != AbState::Off),
{
    let was = *state != AbState::Off;
    *state = AbState::Off;
    was
}

/// The state once the preview is made, or could not be.
pub fn ab_prepared(profile: Profile, start: u64, end: u64, ok: bool) -> (r: AbState)
    ensures
        r == if ok {
            AbState::Ready { profile, start, end, encoded: false }
        } else {
            AbState::Off
        },
{
    if ok {
        AbState::Ready { profile, start, end, encoded: false }
    } else {
        AbState::Off
    }
}

} // verus!

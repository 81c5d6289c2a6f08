//! Video preview: when the picture has to be steered to the playhead.
//!
//! The audio stays on the player and the picture follows it: the exact frame while paused; while
//! playing, a jump when the playhead jumps or the picture drifts off.
use vstd::prelude::*;

verus! {

/// A playhead further than this from where it was expected has jumped: 0.15 s.
pub const JUMP_NS: i64 = 150_000_000;

/// While playing, the picture is steered again after this long: 0.25 s.
pub const STEER_NS: u64 = 250_000_000;

/// What was last sent to the picture, to decide when it needs steering again.
#[derive(Clone, Copy, Debug, PartialEq, Eq, Structural)]
pub struct Sent {
    /// Where the playhead was, in nanoseconds.
    pub ns: i64,
    pub playing: bool,
    /// How often the picture had been loaded: after (re)loading, the position is sent whatever it is.
    pub loads: u32,
}

impl Sent {
    /// Nothing was sent yet.
    pub fn nothing() -> (r: Sent)
        ensures
            r == (Sent { ns: (-1_000_000_000) as i64, playing: false, loads: 0 }),
    {
        Sent { ns: -1_000_000_000, playing: false, loads: 0 }
    }

    /// Where the picture should be by now if nothing jumped.
    pub open spec fn expected(&self, elapsed: u64) -> int {
        if self.playing {
            self.ns + elapsed
        } else {
            self.ns as int
        }
    }

    /// The picture has to be put in its place, wherever it is.
    pub open spec fn is_hard(&self, now: Sent, elapsed: u64) -> bool {
        let off = now.ns - self.expected(elapsed);
        now.loads != self.loads || now.playing != self.playing || off > JUMP_NS || off < -JUMP_NS
    }

    /// Whether to send `now`, `elapsed` nanoseconds after the last time: `None` for not yet,
    /// otherwise whether it is a jump.
    pub fn steer(&self, now: &Sent, elapsed: u64) -> (r: Option<bool>)
        ensures
            r == if self.is_hard(*now, elapsed) {
                Some(true)
            } else if now.playing && elapsed > STEER_NS || !now.playing && now.ns != self.ns {
                Some(false)
            } else {
                None
            },
    {
        let expected: i128 = if self.playing {
            self.ns as i128 + elapsed as i128
        } else {
            self.ns as i128
        };
        let off: i128 = now.ns as i128 - expected;
        if now.loads != self.loads || now.playing != self.playing || off > JUMP_NS as i128 || off < -(JUMP_NS as i128) {
            Some(true)
        } else if (now.playing && elapsed > STEER_NS) || (!now.playing && now.ns != self.ns) {
            Some(false)
        } else {
            None
        }
    }
}

} // verus!

//! Playback: what the engine and the audio callback decide.
//!
//! The engine decodes ahead into a ring buffer, already converted to the device's channel count
//! and rate; the callback only copies out of the ring. Both work on one `Playback`: the engine
//! hands it commands and carries out the `Action` that comes back, the callback asks it how much
//! to play and reports what it played.
use vstd::prelude::*;

verus! {

/// What the user asks of the engine for the recording that is loaded.
#[derive(Clone, Copy, Debug, PartialEq, Eq)]
pub enum Cmd {
    Unload,
    Play,
    Pause,
    Toggle,
    Seek(u64),
    /// Play `[from, to)` and pause at `to`, leaving the playhead there.
    PlayRange(u64, u64),
    /// Alternative audio (an encoded preview) was provided, or removed.
    SetAlt(bool),
    /// Switch between the file and the alternative audio at the current position.
    UseAlt(bool),
    /// Loop playback over `[from, to)`.
    Loop(Option<(u64, u64)>),
}

/// What the engine has to do with its source, after the state has changed.
#[derive(Clone, Copy, Debug, PartialEq, Eq, Structural)]
pub enum Action {
    Nothing,
    /// Drop the stream and the source.
    Unload,
    /// Empty the buffers and continue reading at the frame; report back with `seeked`.
    Seek(u64),
    /// The same, and after `seeked` call `play`.
    SeekThenPlay(u64),
    /// Read from the alternative audio (or from the file again), at the frame.
    Swap { alt: bool, frame: u64 },
}

/// The state that the engine and the callback share.
#[derive(Clone, Copy, Debug, PartialEq, Eq)]
pub struct Playback {
    pub loaded: bool,
    pub playing: bool,
    /// Source frame at the head of the ring when `consumed` was last reset.
    pub base: u64,
    /// Device frames the callback has played since `base`.
    pub consumed: u64,
    pub src_rate: u32,
    pub dev_rate: u32,
    pub total: u64,
    /// The decoder hit end of stream; once the ring drains, playback stops.
    pub eos: bool,
    /// Pause when the playhead reaches this source frame (`u64::MAX` = never).
    pub stop_at: u64,
    pub has_alt: bool,
    /// Playing the alternative (encoded) audio instead of the file.
    pub using_alt: bool,
    pub loop_range: Option<(u64, u64)>,
}

/// Device frames still to play until the playhead, `consumed` device frames behind `base`, is at
/// the source frame `stop`.
pub open spec fn frames_left(base: int, consumed: int, src_rate: int, dev_rate: int, stop: int) -> int {
    let rest = (stop - base) * dev_rate - consumed * src_rate;
    if rest <= 0 {
        0
    } else {
        (rest + src_rate - 1) / src_rate
    }
}

/// A range that is played up to its end leaves the playhead on it: the last device frame that is
/// played is the first to reach it.
pub proof fn law_range_stops_on_its_end(base: int, consumed: int, src_rate: int, dev_rate: int, stop: int)
    requires
        src_rate > 0,
    ensures
        ({
            let left = frames_left(base, consumed, src_rate, dev_rate, stop);
            &&& left >= 0
            &&& base * dev_rate + (consumed + left) * src_rate >= stop * dev_rate
            &&& left > 0 ==> base * dev_rate + (consumed + left - 1) * src_rate < stop * dev_rate
        }),
{
    let rest = (stop - base) * dev_rate - consumed * src_rate;
    let left = frames_left(base, consumed, src_rate, dev_rate, stop);
    assert((stop - base) * dev_rate == stop * dev_rate - base * dev_rate) by (nonlinear_arith);
    assert((consumed + left) * src_rate == consumed * src_rate + left * src_rate) by (nonlinear_arith);
    assert((consumed + left - 1) * src_rate == consumed * src_rate + left * src_rate - src_rate) by (nonlinear_arith);
    if rest > 0 {
        assert(left * src_rate >= rest && left * src_rate - src_rate < rest && left >= 0) by (nonlinear_arith)
            requires
                left == (rest + src_rate - 1) / src_rate,
                src_rate > 0,
                rest > 0,
        ;
    } else {
        assert(left * src_rate == 0) by (nonlinear_arith)
            requires
                left == 0,
        ;
    }
}

impl Playback {
    pub open spec fn wf(&self) -> bool {
        self.src_rate > 0 && self.dev_rate > 0
    }

    /// The playhead in source frames, however far it went.
    pub open spec fn reached(&self) -> int {
        self.base + self.consumed * self.src_rate / self.dev_rate as int
    }

    /// The playhead in source frames.
    pub open spec fn at(&self) -> int {
        if self.reached() < self.total {
            self.reached()
        } else {
            self.total as int
        }
    }

    /// The state after going to `frame`.
    pub open spec fn sought(self, frame: int) -> Playback {
        Playback {
            base: (if frame < self.total {
                frame
            } else {
                self.total as int
            }) as u64,
            consumed: 0,
            eos: false,
            ..self
        }
    }

    /// Nothing loaded yet.
    pub fn idle() -> (r: Playback)
        ensures
            r.wf(),
            r == (Playback {
                loaded: false,
                playing: false,
                base: 0,
                consumed: 0,
                src_rate: 1,
                dev_rate: 1,
                total: 0,
                eos: false,
                stop_at: u64::MAX,
                has_alt: false,
                using_alt: false,
                loop_range: None,
            }),
    {
        Playback {
            loaded: false,
            playing: false,
            base: 0,
            consumed: 0,
            src_rate: 1,
            dev_rate: 1,
            total: 0,
            eos: false,
            stop_at: u64::MAX,
            has_alt: false,
            using_alt: false,
            loop_range: None,
        }
    }

    fn reached_frame(&self) -> (r: u128)
        requires
            self.wf(),
        ensures
            r == self.reached(),
    {
        let consumed: u128 = self.consumed as u128;
        let rate: u128 = self.src_rate as u128;
        assert(0 <= consumed * rate <= u64::MAX * u32::MAX) by (nonlinear_arith)
            requires
                0 <= consumed <= u64::MAX,
                0 <= rate <= u32::MAX,
        ;
        let x: u128 = consumed * rate;
        let d: u128 = self.dev_rate as u128;
        assert(x / d <= x) by (nonlinear_arith)
            requires
                d > 0,
        ;
        self.base as u128 + x / d
    }

    /// Current playhead in source sample frames.
    pub fn position(&self) -> (r: u64)
        requires
            self.wf(),
        ensures
            r == self.at(),
    {
        let x = self.reached_frame();
        proof {
            self.lemma_reached();
        }
        if x < self.total as u128 {
            x as u64
        } else {
            self.total
        }
    }

    proof fn lemma_reached(&self)
        requires
            self.wf(),
        ensures
            self.reached() >= 0,
    {
        let x = self.consumed * self.src_rate;
        assert(x >= 0) by (nonlinear_arith)
            requires
                x == self.consumed * self.src_rate,
        ;
        assert(x / self.dev_rate as int >= 0) by (nonlinear_arith)
            requires
                x >= 0,
                self.dev_rate > 0,
        ;
    }

    /// Everything decoded has been played.
    pub open spec fn at_end(&self, drained: bool) -> bool {
        self.eos && drained
    }

    fn unload(&mut self)
        ensures
            *final(self) == old(self).unloaded(),
    {
        self.playing = false;
        self.loaded = false;
        self.has_alt = false;
        self.using_alt = false;
        self.loop_range = None;
        self.base = 0;
        self.consumed = 0;
        self.total = 0;
        self.eos = false;
    }

    /// The state with nothing loaded.
    pub open spec fn unloaded(self) -> Playback {
        Playback {
            playing: false,
            loaded: false,
            has_alt: false,
            using_alt: false,
            loop_range: None,
            base: 0,
            consumed: 0,
            total: 0,
            eos: false,
            ..self
        }
    }

    /// A recording was opened: `total` frames at `src_rate`, on a device at `dev_rate`.
    pub fn load(&mut self, total: u64, src_rate: u32, dev_rate: u32)
        requires
            src_rate > 0,
            dev_rate > 0,
        ensures
            final(self).wf(),
            *final(self) == (Playback { loaded: true, total, src_rate, dev_rate, ..old(self).unloaded() }),
    {
        self.unload();
        self.loaded = true;
        self.total = total;
        self.src_rate = src_rate;
        self.dev_rate = dev_rate;
    }

    fn seek(&mut self, frame: u128) -> (r: u64)
        ensures
            *final(self) == old(self).sought(frame as int),
            r == final(self).base,
    {
        let frame: u64 = if frame < self.total as u128 {
            frame as u64
        } else {
            self.total
        };
        self.base = frame;
        self.consumed = 0;
        self.eos = false;
        frame
    }

    /// Whether the source could be moved to where a `Seek` asked. Where it could not, there is
    /// nothing more to play.
    pub fn seeked(&mut self, ok: bool)
        ensures
            *final(self) == (Playback { eos: !ok, ..*old(self) }),
    {
        self.eos = !ok;
    }

    /// What starting to play does: from the beginning if all was played and no stop is set.
    pub open spec fn started(self, drained: bool) -> (Playback, Action) {
        if !self.loaded {
            (self, Action::Nothing)
        } else if self.at_end(drained) && self.stop_at == u64::MAX {
            (Playback { playing: true, ..self.sought(0) }, Action::Seek(0))
        } else {
            (Playback { playing: true, ..self }, Action::Nothing)
        }
    }

    /// Start playing. `drained` tells whether all that was decoded has left the buffers.
    pub fn play(&mut self, drained: bool) -> (r: Action)
        ensures
            (*final(self), r) == old(self).started(drained),
    {
        if !self.loaded {
            return Action::Nothing;
        }
        if self.eos && drained && self.stop_at == u64::MAX {
            let at = self.seek(0);
            self.playing = true;
            Action::Seek(at)
        } else {
            self.playing = true;
            Action::Nothing
        }
    }

    /// What swapping between the file and the alternative audio does: the other one continues
    /// from the same position.
    pub open spec fn swapped(self, on: bool) -> (Playback, Action) {
        if !self.loaded || on == self.using_alt || (on && !self.has_alt) {
            (self, Action::Nothing)
        } else {
            let s = self.sought(self.reached());
            (Playback { using_alt: on, ..s }, Action::Swap { alt: on, frame: s.base })
        }
    }

    fn use_alt(&mut self, on: bool) -> (r: Action)
        requires
            old(self).wf(),
        ensures
            (*final(self), r) == old(self).swapped(on),
    {
        if !self.loaded || on == self.using_alt || (on && !self.has_alt) {
            return Action::Nothing;
        }
        let pos = self.reached_frame();
        let frame = self.seek(pos);
        self.using_alt = on;
        Action::Swap { alt: on, frame }
    }

    /// What a command does to the state, and what is left for the engine to do.
    pub open spec fn commanded(self, cmd: Cmd, drained: bool) -> (Playback, Action) {
        let free = Playback { stop_at: u64::MAX, ..self };
        match cmd {
            Cmd::Unload => (self.unloaded(), Action::Unload),
            Cmd::Play => free.started(drained),
            Cmd::Pause => (Playback { playing: false, ..self }, Action::Nothing),
            Cmd::Toggle => if self.playing {
                (Playback { playing: false, ..free }, Action::Nothing)
            } else {
                free.started(drained)
            },
            Cmd::Seek(frame) => if self.loaded {
                (free.sought(frame as int), Action::Seek(free.sought(frame as int).base))
            } else {
                (free, Action::Nothing)
            },
            Cmd::PlayRange(from, to) => if self.loaded {
                let s = Playback { stop_at: to, ..self.sought(from as int) };
                (s, Action::SeekThenPlay(s.base))
            } else {
                (Playback { stop_at: to, ..self }, Action::Nothing)
            },
            Cmd::SetAlt(some) => {
                let s = if some {
                    (self, Action::Nothing)
                } else {
                    self.swapped(false)
                };
                if self.loaded {
                    (Playback { has_alt: some, ..s.0 }, s.1)
                } else {
                    s
                }
            },
            Cmd::UseAlt(on) => self.swapped(on),
            Cmd::Loop(range) => if self.loaded {
                (Playback { loop_range: range, ..self }, Action::Nothing)
            } else {
                (self, Action::Nothing)
            },
        }
    }

    /// Take a command.
    pub fn handle(&mut self, cmd: Cmd, drained: bool) -> (r: Action)
        requires
            old(self).wf(),
        ensures
            final(self).wf(),
            (*final(self), r) == old(self).commanded(cmd, drained),
    {
        match cmd {
            Cmd::Unload => {
                self.unload();
                Action::Unload
            },
            Cmd::Play => {
                self.stop_at = u64::MAX;
                self.play(drained)
            },
            Cmd::Pause => {
                self.playing = false;
                Action::Nothing
            },
            Cmd::Toggle => {
                self.stop_at = u64::MAX;
                if self.playing {
                    self.playing = false;
                    Action::Nothing
                } else {
                    self.play(drained)
                }
            },
            Cmd::Seek(frame) => {
                self.stop_at = u64::MAX;
                if self.loaded {
                    let at = self.seek(frame as u128);
                    Action::Seek(at)
                } else {
                    Action::Nothing
                }
            },
            Cmd::PlayRange(from, to) => {
                self.stop_at = to;
                if self.loaded {
                    let at = self.seek(from as u128);
                    Action::SeekThenPlay(at)
                } else {
                    Action::Nothing
                }
            },
            Cmd::SetAlt(some) => {
                let r = if some {
                    Action::Nothing
                } else {
                    self.use_alt(false)
                };
                if self.loaded {
                    self.has_alt = some;
                }
                r
            },
            Cmd::UseAlt(on) => self.use_alt(on),
            Cmd::Loop(range) => {
                if self.loaded {
                    self.loop_range = range;
                }
                Action::Nothing
            },
        }
    }

    /// What looping does: at the end of the range, or where all was played and nothing had asked
    /// to stop, back to its start.
    pub open spec fn looped(self, drained: bool) -> (Playback, Action) {
        match self.loop_range {
            Some((a, b)) => if !self.loaded {
                (self, Action::Nothing)
            } else if self.stop_at == u64::MAX && !self.playing && self.at_end(drained) {
                (Playback { playing: true, ..self.sought(a as int) }, Action::Seek(self.sought(a as int).base))
            } else if self.playing && self.reached() >= b {
                (self.sought(a as int), Action::Seek(self.sought(a as int).base))
            } else {
                (self, Action::Nothing)
            },
            None => (self, Action::Nothing),
        }
    }

    /// Called after each round of the engine.
    pub fn check_loop(&mut self, drained: bool) -> (r: Action)
        requires
            old(self).wf(),
        ensures
            final(self).wf(),
            (*final(self), r) == old(self).looped(drained),
    {
        if !self.loaded {
            return Action::Nothing;
        }
        match self.loop_range {
            None => Action::Nothing,
            Some((a, b)) => {
                if self.stop_at == u64::MAX && !self.playing && self.eos && drained {
                    // The in-memory preview ran out at the window's end: wrap around and keep playing.
                    let at = self.seek(a as u128);
                    self.playing = true;
                    return Action::Seek(at);
                }
                let pos = self.reached_frame();
                if self.playing && pos >= b as u128 {
                    let at = self.seek(a as u128);
                    Action::Seek(at)
                } else {
                    Action::Nothing
                }
            },
        }
    }

    /// How many samples the callback may play of the `out_len` that the device asks for: not past
    /// `stop_at`.
    pub open spec fn wants(&self, out_len: int, channels: int) -> int {
        let left = frames_left(
            self.base as int,
            self.consumed as int,
            self.src_rate as int,
            self.dev_rate as int,
            self.stop_at as int,
        ) * channels;
        if self.stop_at != u64::MAX && left < out_len {
            left
        } else {
            out_len
        }
    }

    pub fn wanted(&self, out_len: usize, channels: u16) -> (r: usize)
        requires
            self.wf(),
        ensures
            r == self.wants(out_len as int, channels as int),
    {
        if self.stop_at == u64::MAX {
            return out_len;
        }
        let ghost c = channels as int;
        let dev: i128 = self.dev_rate as i128;
        let src: i128 = self.src_rate as i128;
        let gap: i128 = self.stop_at as i128 - self.base as i128;
        let used: i128 = self.consumed as i128;
        assert(-0x1_0000_0000_0000_0000_0000_0000 <= gap * dev <= 0x1_0000_0000_0000_0000_0000_0000) by (nonlinear_arith)
            requires
                -0x1_0000_0000_0000_0000 <= gap <= 0x1_0000_0000_0000_0000,
                0 <= dev <= 0x1_0000_0000,
        ;
        assert(0 <= used * src <= 0x1_0000_0000_0000_0000_0000_0000) by (nonlinear_arith)
            requires
                0 <= used <= 0x1_0000_0000_0000_0000,
                0 <= src <= 0x1_0000_0000,
        ;
        let rest: i128 = gap * dev - used * src;
        if rest <= 0 {
            assert(0 * c == 0);
            return 0;
        }
        let left: u128 = (rest + src - 1) as u128 / src as u128;
        assert(left == frames_left(
            self.base as int,
            self.consumed as int,
            self.src_rate as int,
            self.dev_rate as int,
            self.stop_at as int,
        ));
        assert(left <= 0x4_0000_0000_0000_0000_0000_0000) by (nonlinear_arith)
            requires
                left == (rest + src - 1) / (src as int),
                src >= 1,
                0 < rest <= 0x2_0000_0000_0000_0000_0000_0000,
                src <= 0x1_0000_0000,
        ;
        assert(0 <= left * c <= 0x4_0000_0000_0000_0000_0000_0000 * 0x1_0000) by (nonlinear_arith)
            requires
                0 <= left <= 0x4_0000_0000_0000_0000_0000_0000,
                0 <= c <= 0x1_0000,
        ;
        let samples: u128 = left * channels as u128;
        if samples < out_len as u128 {
            samples as usize
        } else {
            out_len
        }
    }

    /// The state after the callback played `n` of the `want` samples it asked the ring for.
    pub open spec fn after_playing(self, n: usize, want: usize, out_len: usize, channels: u16, empty: bool) -> Playback {
        let s = Playback {
            consumed: vstd::wrapping::u64_specs::wrapping_add(self.consumed, (n / channels as usize) as u64),
            ..self
        };
        if want < out_len && n == want {
            Playback { playing: false, stop_at: u64::MAX, ..s }
        } else if n < out_len && self.eos && empty {
            Playback { playing: false, ..s }
        } else {
            s
        }
    }

    /// The callback played `n` samples of the `want` it asked for, where the device asked for
    /// `out_len`; `empty` tells whether the ring is empty now. Reaching `stop_at`, or the end of
    /// everything, pauses.
    pub fn played(&mut self, n: usize, want: usize, out_len: usize, channels: u16, empty: bool)
        requires
            channels > 0,
        ensures
            *final(self) == old(self).after_playing(n, want, out_len, channels, empty),
    {
        self.consumed = self.consumed.wrapping_add((n / channels as usize) as u64);
        if want < out_len && n == want {
            self.playing = false;
            self.stop_at = u64::MAX;
        } else if n < out_len && self.eos && empty {
            self.playing = false;
        }
    }

    /// There is something to decode and room for a chunk of it.
    pub fn wants_data(&self, free: usize, channels: u16) -> (r: bool)
        ensures
            r == (self.loaded && !self.eos && free >= CHUNK_FRAMES * channels),
    {
        self.loaded && !self.eos && free as u64 >= CHUNK_FRAMES as u64 * channels as u64
    }

    /// What filling the ring does next, with `pending` converted samples waiting and `free`
    /// samples of room.
    pub fn next_fill(&self, pending: usize, free: usize, channels: u16) -> (r: Fill)
        ensures
            r == if pending > 0 {
                Fill::Push
            } else if self.eos || free < CHUNK_FRAMES * channels {
                Fill::Done
            } else {
                Fill::Read
            },
    {
        if pending > 0 {
            Fill::Push
        } else if self.eos || (free as u64) < CHUNK_FRAMES as u64 * channels as u64 {
            Fill::Done
        } else {
            Fill::Read
        }
    }
}

/// Frames decoded at a time.
pub const CHUNK_FRAMES: usize = 4096;

/// The next step of filling the ring.
#[derive(Clone, Copy, Debug, PartialEq, Eq, Structural)]
pub enum Fill {
    /// Push what is pending; if not all of it fits, the ring is full and the filling is done.
    Push,
    /// Decode and convert the next chunk.
    Read,
    Done,
}

/// Size of the ring: about 0.3 s of device audio buffered ahead.
pub fn ring_size(dev_rate: u32, channels: u16) -> (r: u64)
    ensures
        r == dev_rate * channels * 3 / 10,
{
    assert(dev_rate * channels <= u32::MAX * u16::MAX) by (nonlinear_arith);
    dev_rate as u64 * channels as u64 * 3 / 10
}

/// One range of output formats that a device offers.
#[derive(Clone, Copy, Debug, PartialEq, Eq, Structural)]
pub struct OutputConfig {
    pub channels: u16,
    pub min_rate: u32,
    pub max_rate: u32,
    /// Whether the samples are 32-bit floats.
    pub f32_samples: bool,
}

impl OutputConfig {
    pub open spec fn fits(&self, rate: u32) -> bool {
        self.f32_samples && self.min_rate <= rate <= self.max_rate
    }

    /// How far from stereo.
    pub open spec fn off_stereo(&self) -> int {
        if self.channels >= 2 {
            self.channels - 2
        } else {
            2 - self.channels
        }
    }
}

/// Where to take the output format from.
#[derive(Clone, Copy, Debug, PartialEq, Eq, Structural)]
pub enum ConfigChoice {
    /// The offered range with this index, at the file's own rate.
    Exact(usize),
    /// The device's default.
    Default,
}

#[derive(Clone, Copy, Debug, PartialEq, Eq, Structural)]
pub enum ConfigError {
    NoDefault,
    NoFloat,
}

/// `i` is the first of the fitting ranges that are nearest to stereo, among the first `n`.
pub open spec fn best_config(configs: Seq<OutputConfig>, n: int, rate: u32, i: int) -> bool {
    &&& 0 <= i < n
    &&& configs[i].fits(rate)
    &&& forall|j: int|
        0 <= j < n && (#[trigger] configs[j]).fits(rate) ==> configs[i].off_stereo() < configs[j].off_stereo() || (
        configs[i].off_stereo() == configs[j].off_stereo() && i <= j)
}

/// Prefer an f32 format at the file's own rate (no resampling); otherwise the device default,
/// which is given by whether its samples are floats.
pub fn pick_config(configs: &[OutputConfig], default_is_float: Option<bool>, rate: u32) -> (r: Result<
    ConfigChoice,
    ConfigError,
>)
    ensures
        match r {
            Ok(ConfigChoice::Exact(i)) => best_config(configs@, configs@.len() as int, rate, i as int),
            other => {
                &&& forall|j: int| 0 <= j < configs@.len() ==> !(#[trigger] configs@[j]).fits(rate)
                &&& other == match default_is_float {
                    None => Err(ConfigError::NoDefault),
                    Some(false) => Err(ConfigError::NoFloat),
                    Some(true) => Ok(ConfigChoice::Default),
                }
            },
        },
{
    let mut best: Option<usize> = None;
    let mut i: usize = 0;
    while i < configs.len()
        invariant
            i <= configs@.len(),
            match best {
                Some(b) => best_config(configs@, i as int, rate, b as int),
                None => forall|j: int| 0 <= j < i ==> !(#[trigger] configs@[j]).fits(rate),
            },
        decreases configs@.len() - i,
    {
        let c = configs[i];
        if c.f32_samples && c.min_rate <= rate && rate <= c.max_rate {
            match best {
                None => {
                    best = Some(i);
                },
                Some(b) => {
                    if off_stereo(c.channels) < off_stereo(configs[b].channels) {
                        best = Some(i);
                    }
                },
            }
        }
        i += 1;
    }
    match best {
        Some(b) => Ok(ConfigChoice::Exact(b)),
        None => match default_is_float {
            None => Err(ConfigError::NoDefault),
            Some(f) => if f {
                Ok(ConfigChoice::Default)
            } else {
                Err(ConfigError::NoFloat)
            },
        },
    }
}

fn off_stereo(channels: u16) -> (r: u16)
    ensures
        r == if channels >= 2 {
            channels - 2
        } else {
            2 - channels
        },
{
    if channels >= 2 {
        channels - 2
    } else {
        2 - channels
    }
}

/// The sample on device channel `d`: mono is heard on every channel, a channel that the source
/// does not have is silent.
pub open spec fn mapped<T>(frame: Seq<T>, silence: T, d: int) -> T {
    if frame.len() == 1 {
        frame[0]
    } else if d < frame.len() {
        frame[d]
    } else {
        silence
    }
}

/// `frame` on `n` device channels.
pub open spec fn mapped_frame<T>(frame: Seq<T>, silence: T, n: int) -> Seq<T> {
    Seq::new(n as nat, |d: int| mapped(frame, silence, d))
}

/// Add one frame, mapped to the device's channels.
pub fn map<T: Copy>(src: &[T], silence: T, dev_ch: usize, out: &mut Vec<T>)
    ensures
        final(out)@ == old(out)@ + mapped_frame(src@, silence, dev_ch as int),
{
    let ghost before = out@;
    let mut d: usize = 0;
    while d < dev_ch
        invariant
            d <= dev_ch,
            out@ == before + mapped_frame(src@, silence, d as int),
        decreases dev_ch - d,
    {
        let x = if src.len() == 1 {
            src[0]
        } else if d < src.len() {
            src[d]
        } else {
            silence
        };
        out.push(x);
        d += 1;
        assert(out@ =~= before + mapped_frame(src@, silence, d as int));
    }
}

/// The first `n` frames of `input`, each mapped to the device's channels.
pub open spec fn mapped_frames<T>(input: Seq<T>, src_ch: int, silence: T, dev_ch: int, n: int) -> Seq<T>
    decreases n,
{
    if n <= 0 {
        Seq::empty()
    } else {
        mapped_frames(input, src_ch, silence, dev_ch, n - 1) + mapped_frame(
            input.subrange((n - 1) * src_ch, n * src_ch),
            silence,
            dev_ch,
        )
    }
}

/// Add every whole frame of `input`, mapped to the device's channels (no change of rate).
pub fn map_frames<T: Copy>(input: &[T], src_ch: usize, silence: T, dev_ch: usize, out: &mut Vec<T>)
    requires
        src_ch > 0,
    ensures
        final(out)@ == old(out)@ + mapped_frames(
            input@,
            src_ch as int,
            silence,
            dev_ch as int,
            input@.len() as int / src_ch as int,
        ),
{
    let ghost before = out@;
    let len: usize = input.len();
    let n: usize = len / src_ch;
    let mut k: usize = 0;
    while k < n
        invariant
            src_ch > 0,
            len == input@.len(),
            n == input@.len() as int / src_ch as int,
            k <= n,
            out@ == before + mapped_frames(input@, src_ch as int, silence, dev_ch as int, k as int),
        decreases n - k,
    {
        assert((k + 1) * src_ch <= len && k * src_ch + src_ch == (k + 1) * src_ch && 0 <= k * src_ch)
            by (nonlinear_arith)
            requires
                src_ch > 0,
                k + 1 <= n,
                n == len as int / src_ch as int,
        ;
        let frame = vstd::slice::slice_subrange(input, k * src_ch, k * src_ch + src_ch);
        map(frame, silence, dev_ch, out);
        k += 1;
        assert(out@ =~= before + mapped_frames(input@, src_ch as int, silence, dev_ch as int, k as int));
    }
}

/// Where an output frame lies between two source frames: `num / dev_rate` of the way from
/// `index` to the next.
#[derive(Clone, Copy, Debug, PartialEq, Eq, Structural)]
pub struct Point {
    pub index: usize,
    pub num: u32,
}

/// `points` are the places `t`, `t + src_rate`, .. before `last`, in units of a source frame
/// over `dev_rate`.
pub open spec fn points_until(points: Seq<Point>, t: int, src_rate: int, dev_rate: int, last: int) -> bool {
    &&& forall|j: int| 0 <= j < points.len() ==> (#[trigger] points[j]).index == (t + j * src_rate) / dev_rate
        && points[j].num == (t + j * src_rate) % dev_rate && t + j * src_rate < last
    &&& t + points.len() * src_rate >= last
}

/// The output frames that fall between the `frames` source frames at hand, for a change of rate
/// from `src_rate` to `dev_rate`. The first lies `t / dev_rate` behind the first source frame;
/// with the last source frame kept as the first of the next round, `t` is brought forward to
/// that round.
pub fn resample_points(t: u64, src_rate: u32, dev_rate: u32, frames: usize) -> (r: (Vec<Point>, u64))
    requires
        src_rate > 0,
        dev_rate > 0,
        frames >= 1,
        t + src_rate + (frames - 1) * dev_rate <= u64::MAX,
    ensures
        points_until(r.0@, t as int, src_rate as int, dev_rate as int, (frames - 1) * dev_rate),
        r.1 == t + r.0@.len() * src_rate - (frames - 1) * dev_rate,
{
    let ghost last_frame = (frames - 1) as int;
    let ghost rate = dev_rate as int;
    assert(0 <= last_frame * rate) by (nonlinear_arith)
        requires
            last_frame >= 0,
            rate >= 0,
    ;
    assert((frames - 1) * dev_rate == last_frame * rate);
    let last: u64 = (frames - 1) as u64 * dev_rate as u64;
    let mut points: Vec<Point> = Vec::new();
    let mut at: u64 = t;
    let ghost step = src_rate as int;
    assert(0 * step == 0);
    while at < last
        invariant
            src_rate > 0,
            dev_rate > 0,
            frames >= 1,
            last == (frames - 1) * dev_rate,
            t + src_rate + last <= u64::MAX,
            step == src_rate,
            at == t + points@.len() * step,
            at <= t || at < last + src_rate,
            forall|j: int|
                0 <= j < points@.len() ==> (#[trigger] points@[j]).index == (t + j * step) / dev_rate as int
                    && points@[j].num == (t + j * step) % dev_rate as int && t + j * step < last,
        decreases last + src_rate - at,
    {
        let ghost d = dev_rate as int;
        assert(at as int / d < frames) by (nonlinear_arith)
            requires
                at < (frames - 1) * d,
                d > 0,
                frames >= 1,
                at >= 0,
        ;
        assert(0 <= at as int / d) by (nonlinear_arith)
            requires
                d > 0,
                at >= 0,
        ;
        points.push(Point { index: (at / dev_rate as u64) as usize, num: (at % dev_rate as u64) as u32 });
        assert((points@.len() - 1) * step + step == points@.len() * step) by (nonlinear_arith);
        at = at + src_rate as u64;
    }
    (points, at - last)
}

} // verus!

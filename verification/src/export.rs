//! What an export produces: numbering, titles and file names for the kept tracks, and what is
//! worth knowing about the chosen format beforehand.
use vstd::prelude::*;
use vstd::slice::slice_subrange;
use crate::edit::{shown_name, RecordingEdit};
use crate::laws::{kept_in_order, law_export_numbers_are_consecutive};
use crate::text::{
    append_chars, append_str, ascii_lowered, chars_of, control, copy_of, decimal, decimal_chars, drop_end, drop_start,
    is_control, is_digit, is_white, lemma_already_trimmed, lemma_decimal_reads_back, lemma_drop_end, lemma_dropped_piece,
    lemma_trimmed, lowered, millionths, millionths_chars, only, padded, padded_chars, piece_of, replace, replaced,
    same_chars, string_of, strings, trim, trim_end_of, trim_start_of, trimmed, white,
};

verus! {

#[derive(Clone, Debug, PartialEq)]
pub struct ExportSettings {
    /// File name template: `{n}` track number, `{nn}` zero-padded, `{title}`, `{source}`
    /// (the recording's file name without extension).
    pub naming: String,
    pub profile: Profile,
    pub normalize: Normalize,
    /// Format of a video's clips (`profile` is for audio recordings).
    pub video: VideoProfile,
}

impl Default for ExportSettings {
    fn default() -> (r: ExportSettings)
        ensures
            r.naming@ == "{nn} - {title}"@,
            r.profile == Profile::Original,
            r.normalize == Normalize::Off,
            r.video == (VideoProfile::Mp4 { crf: 18 }),
    {
        ExportSettings {
            naming: "{nn} - {title}".to_owned(),
            profile: Profile::Original,
            normalize: Normalize::Off,
            video: VideoProfile::Mp4 { crf: 18 },
        }
    }
}

/// Output of a video's export: MP4 clips cut exactly on the splits, so re-encoded (H.264 and
/// AAC; a copy could only cut on keyframes, often seconds away).
#[derive(Clone, Copy, Debug, PartialEq, Eq, Hash, Structural)]
pub enum VideoProfile {
    /// H.264 at constant quality `crf` (lower is better; 18 looks the same as the source).
    Mp4 { crf: u8 },
}

impl Default for VideoProfile {
    fn default() -> (r: VideoProfile)
        ensures
            r == (VideoProfile::Mp4 { crf: 18 }),
    {
        VideoProfile::Mp4 { crf: 18 }
    }
}

impl VideoProfile {
    /// The formats offered.
    pub fn choices() -> (r: Vec<VideoProfile>)
        ensures
            r@ == seq![VideoProfile::Mp4 { crf: 18 }, VideoProfile::Mp4 { crf: 23 }, VideoProfile::Mp4 { crf: 28 }],
    {
        vec![VideoProfile::Mp4 { crf: 18 }, VideoProfile::Mp4 { crf: 23 }, VideoProfile::Mp4 { crf: 28 }]
    }

    pub fn label(&self) -> (r: String)
        ensures
            r@ == match self {
                VideoProfile::Mp4 { crf } => if *crf <= 18 {
                    "MP4 \u{b7} high quality"@
                } else if *crf <= 23 {
                    "MP4 \u{b7} standard"@
                } else {
                    "MP4 \u{b7} small files"@
                },
            },
    {
        match self {
            VideoProfile::Mp4 { crf } => if *crf <= 18 {
                "MP4 \u{b7} high quality".to_owned()
            } else if *crf <= 23 {
                "MP4 \u{b7} standard".to_owned()
            } else {
                "MP4 \u{b7} small files".to_owned()
            },
        }
    }

    pub fn extension(&self) -> (r: &'static str)
        ensures
            r@ == "mp4"@,
    {
        "mp4"
    }

    /// Audio bitrate of the clips.
    pub fn audio_kbps(&self) -> (r: u32)
        ensures
            r == 192,
    {
        192
    }
}

/// Loudness adjustment applied when re-encoding (a byte copy can't change level; it gets
/// ReplayGain tags instead). Targets are in millionths of a loudness unit (LUFS).
#[derive(Clone, Copy, Debug, PartialEq, Eq, Structural)]
pub enum Normalize {
    Off,
    /// Every track to `target`: even levels, but quiet songs get as loud as loud ones.
    Track { target: i32 },
    /// One gain for the whole recording so its kept tracks average `target`; keeps the
    /// dynamics between songs, usually right for a live set.
    Album { target: i32 },
}

impl Default for Normalize {
    fn default() -> (r: Normalize)
        ensures
            r == Normalize::Off,
    {
        Normalize::Off
    }
}

/// Never let normalization push the true peak above this (millionths of a decibel).
pub const CEILING: i32 = -1_000_000;

impl Normalize {
    /// The settings offered.
    pub fn choices() -> (r: Vec<Normalize>)
        ensures
            r@ == seq![
                Normalize::Off,
                Normalize::Album { target: (-14_000_000) as i32 },
                Normalize::Album { target: (-16_000_000) as i32 },
                Normalize::Track { target: (-14_000_000) as i32 },
                Normalize::Track { target: (-16_000_000) as i32 },
            ],
    {
        vec![
            Normalize::Off,
            Normalize::Album { target: -14_000_000 },
            Normalize::Album { target: -16_000_000 },
            Normalize::Track { target: -14_000_000 },
            Normalize::Track { target: -16_000_000 },
        ]
    }

    pub fn label(&self) -> (r: String)
        ensures
            r@ == match self {
                Normalize::Off => "Loudness unchanged"@,
                Normalize::Album { target } => "Whole recording to "@ + millionths(*target as int) + " LUFS"@,
                Normalize::Track { target } => "Each track to "@ + millionths(*target as int) + " LUFS"@,
            },
    {
        match self {
            Normalize::Off => "Loudness unchanged".to_owned(),
            Normalize::Album { target } => around("Whole recording to ", &millionths_chars(*target), " LUFS"),
            Normalize::Track { target } => around("Each track to ", &millionths_chars(*target), " LUFS"),
        }
    }
}

/// `a`, `b` and `c` one after the other.
pub fn around(a: &str, b: &[char], c: &str) -> (r: String)
    ensures
        r@ == a@ + b@ + c@,
{
    let mut s = chars_of(a);
    append_chars(&mut s, b);
    append_str(&mut s, c);
    string_of(&s)
}

/// Output format of an export.
#[derive(Clone, Copy, Debug, PartialEq, Eq, Hash, Structural)]
pub enum Profile {
    /// Lossless copy in the source's own format (MP3 frames or WAV bytes).
    Original,
    /// LAME VBR, `-V quality` (0 = best).
    Mp3Vbr { quality: u8 },
    Mp3Cbr { kbps: u16 },
    Flac,
    /// 16-bit PCM WAV.
    Wav16,
}

impl Default for Profile {
    fn default() -> (r: Profile)
        ensures
            r == Profile::Original,
    {
        Profile::Original
    }
}

/// `n` rounded as a double-precision number is, to 53 bits. `unit` is doubled until `n` has fewer
/// than `2^53` of them; then the nearest multiple counts, the even one of two that are as near.
pub open spec fn double_of(n: int, unit: int) -> int
    decreases n - unit,
{
    let (q, rest) = (n / unit, n % unit);
    if unit <= 0 || n < 0x20_0000_0000_0000 * unit {
        if 2 * rest > unit || (2 * rest == unit && q % 2 == 1) {
            (q + 1) * unit
        } else {
            q * unit
        }
    } else {
        double_of(n, 2 * unit)
    }
}

/// The double-precision number nearest to 1.15, as a multiple of `2^-52`.
pub const MARGIN: u64 = 5_179_139_571_476_070;

/// Whether a bitrate is more than 15 % above that of the source, both taken as double-precision
/// numbers: the margin is a little less than 1.15, so at exactly 15 % it depends on how the
/// product is rounded.
pub open spec fn worth_less(target: u32, kbps: u32) -> bool {
    target * 0x10_0000_0000_0000 > double_of(kbps * MARGIN, 1)
}

fn is_worth_less(target: u32, kbps: u32) -> (r: bool)
    ensures
        r == worth_less(target, kbps),
{
    let n: u128 = kbps as u128 * MARGIN as u128;
    let mut unit: u128 = 1;
    while n >= 0x20_0000_0000_0000 * unit
        invariant
            n <= u32::MAX * MARGIN,
            1 <= unit <= 0x2_0000_0000,
            double_of(n as int, 1) == double_of(n as int, unit as int),
        decreases n - unit,
    {
        unit = unit * 2;
    }
    let (q, rest): (u128, u128) = (n / unit, n % unit);
    proof {
        let (a, u) = (n as int, unit as int);
        assert(0 <= (a / u) * u <= a && (a / u + 1) * u <= a + u) by (nonlinear_arith)
            requires
                a >= 0,
                u > 0,
        ;
    }
    let rounded: u128 = if 2 * rest > unit || (2 * rest == unit && q % 2 == 1) {
        (q + 1) * unit
    } else {
        q * unit
    };
    target as u128 * 0x10_0000_0000_0000 > rounded
}

/// What the size estimate and warnings need to know about the source.
#[derive(Clone, Copy, Debug, PartialEq, Eq)]
pub struct SourceFacts {
    /// MP3 (or another lossy codec, e.g. AAC in a video).
    pub lossy: bool,
    /// Original can copy the audio as is (MP3, WAV); not audio inside a video file.
    pub copyable: bool,
    /// Average bitrate of the file's audio.
    pub kbps: u32,
    pub sample_rate: u32,
    pub channels: u16,
    /// Bits per sample for PCM sources.
    pub bits: Option<u32>,
}

/// Typical average bitrate of the LAME presets `-V0` to `-V9`.
pub open spec fn preset_kbps() -> Seq<u32> {
    seq![245u32, 225, 190, 175, 165, 130, 115, 100, 85, 65]
}

/// The preset's bitrate; qualities past the last preset are that preset.
pub open spec fn vbr_rate(quality: u8) -> u32 {
    preset_kbps()[if quality < 9 { quality as int } else { 9 }]
}

/// Typical average bitrate of LAME `-V` presets.
pub fn vbr_kbps(quality: u8) -> (r: u32)
    ensures
        r == vbr_rate(quality),
{
    let presets: [u32; 10] = [245, 225, 190, 175, 165, 130, 115, 100, 85, 65];
    assert(presets@ =~= preset_kbps());
    let i: usize = if quality < 9 {
        quality as usize
    } else {
        9
    };
    presets[i]
}

impl Profile {
    /// The formats offered.
    pub fn choices() -> (r: Vec<Profile>)
        ensures
            r@ == seq![
                Profile::Original,
                Profile::Mp3Vbr { quality: 0 },
                Profile::Mp3Vbr { quality: 2 },
                Profile::Mp3Vbr { quality: 4 },
                Profile::Mp3Cbr { kbps: 320 },
                Profile::Mp3Cbr { kbps: 256 },
                Profile::Mp3Cbr { kbps: 192 },
                Profile::Mp3Cbr { kbps: 128 },
                Profile::Flac,
                Profile::Wav16,
            ],
    {
        vec![
            Profile::Original,
            Profile::Mp3Vbr { quality: 0 },
            Profile::Mp3Vbr { quality: 2 },
            Profile::Mp3Vbr { quality: 4 },
            Profile::Mp3Cbr { kbps: 320 },
            Profile::Mp3Cbr { kbps: 256 },
            Profile::Mp3Cbr { kbps: 192 },
            Profile::Mp3Cbr { kbps: 128 },
            Profile::Flac,
            Profile::Wav16,
        ]
    }

    pub fn label(&self) -> (r: String)
        ensures
            r@ == match self {
                Profile::Original => "Original (lossless copy)"@,
                Profile::Mp3Vbr { quality } => "MP3 VBR V"@ + decimal(*quality as nat) + " (~"@ + decimal(
                    vbr_rate(*quality) as nat,
                ) + " kbps)"@,
                Profile::Mp3Cbr { kbps } => "MP3 CBR "@ + decimal(*kbps as nat) + " kbps"@,
                Profile::Flac => "FLAC (lossless)"@,
                Profile::Wav16 => "WAV 16-bit"@,
            },
    {
        match self {
            Profile::Original => "Original (lossless copy)".to_owned(),
            Profile::Mp3Vbr { quality } => {
                let mut s = chars_of("MP3 VBR V");
                append_chars(&mut s, &decimal_chars(*quality as u64));
                append_str(&mut s, " (~");
                append_chars(&mut s, &decimal_chars(vbr_kbps(*quality) as u64));
                append_str(&mut s, " kbps)");
                string_of(&s)
            },
            Profile::Mp3Cbr { kbps } => around("MP3 CBR ", &decimal_chars(*kbps as u64), " kbps"),
            Profile::Flac => "FLAC (lossless)".to_owned(),
            Profile::Wav16 => "WAV 16-bit".to_owned(),
        }
    }

    /// The short name.
    pub open spec fn short_name(self) -> Seq<char> {
        match self {
            Profile::Original => "Original"@,
            Profile::Mp3Vbr { quality } => "MP3 V"@ + decimal(quality as nat) + ""@,
            Profile::Mp3Cbr { kbps } => "MP3 "@ + decimal(kbps as nat) + "k"@,
            Profile::Flac => "FLAC"@,
            Profile::Wav16 => "WAV 16"@,
        }
    }

    /// Short name for compact places, e.g. the A/B indicator.
    pub fn short(&self) -> (r: String)
        ensures
            r@ == self.short_name(),
    {
        match self {
            Profile::Original => "Original".to_owned(),
            Profile::Mp3Vbr { quality } => around("MP3 V", &decimal_chars(*quality as u64), ""),
            Profile::Mp3Cbr { kbps } => around("MP3 ", &decimal_chars(*kbps as u64), "k"),
            Profile::Flac => "FLAC".to_owned(),
            Profile::Wav16 => "WAV 16".to_owned(),
        }
    }

    pub fn extension<'a>(&self, source_ext: &'a str) -> (r: &'a str)
        ensures
            r@ == match self {
                Profile::Original => source_ext@,
                Profile::Mp3Vbr { .. } => "mp3"@,
                Profile::Mp3Cbr { .. } => "mp3"@,
                Profile::Flac => "flac"@,
                Profile::Wav16 => "wav"@,
            },
    {
        match self {
            Profile::Original => source_ext,
            Profile::Mp3Vbr { .. } => "mp3",
            Profile::Mp3Cbr { .. } => "mp3",
            Profile::Flac => "flac",
            Profile::Wav16 => "wav",
        }
    }

    /// The profile used: FLAC where the audio can't be copied as is.
    pub open spec fn used_for(self, src: SourceFacts) -> Profile {
        if self == Profile::Original && !src.copyable {
            Profile::Flac
        } else {
            self
        }
    }

    /// The profile actually used for `src`: Original falls back to FLAC when the audio can't be
    /// copied as is, which keeps the decoded audio exactly.
    pub fn effective(self, src: &SourceFacts) -> (r: Profile)
        ensures
            r == self.used_for(*src),
    {
        match self {
            Profile::Original => if src.copyable {
                self
            } else {
                Profile::Flac
            },
            p => p,
        }
    }

    /// Encoded with loss.
    pub open spec fn lossy(self) -> bool {
        self is Mp3Vbr || self is Mp3Cbr
    }

    /// Whether the output can differ audibly from the source.
    pub fn is_lossy(&self) -> (r: bool)
        ensures
            r == self.lossy(),
    {
        match self {
            Profile::Mp3Vbr { .. } => true,
            Profile::Mp3Cbr { .. } => true,
            _ => false,
        }
    }

    /// The bytes a second of audio takes in this format, times 1600. FLAC typically takes 58 %
    /// of the samples it holds, which have at least 16 bits.
    pub open spec fn byte_rate_1600(self, src: SourceFacts) -> int {
        let pcm16 = src.sample_rate * src.channels * 2;
        match self {
            Profile::Original => src.kbps * 125 * 1600,
            Profile::Mp3Vbr { quality } => vbr_rate(quality) * 125 * 1600,
            Profile::Mp3Cbr { kbps } => kbps * 125 * 1600,
            Profile::Flac => {
                let bits = if src.bits is Some && src.bits->0 > 16 { src.bits->0 as int } else { 16 };
                pcm16 * bits * 58
            },
            Profile::Wav16 => pcm16 * 1600,
        }
    }

    /// Estimated output size for `ns` nanoseconds of audio.
    pub fn estimate_bytes(&self, src: &SourceFacts, ns: u64) -> (r: u64)
        ensures
            ({
                let n = self.used_for(*src).byte_rate_1600(*src) * ns / 1_600_000_000_000;
                r == if n < u64::MAX {
                    n
                } else {
                    u64::MAX as int
                }
            }),
    {
        let p = self.effective(src);
        assert(0 <= src.sample_rate * src.channels <= 0xffff_ffff * 0xffff) by (nonlinear_arith)
            requires
                0 <= src.sample_rate <= 0xffff_ffff,
                0 <= src.channels <= 0xffff,
        ;
        let pcm16: u64 = src.sample_rate as u64 * src.channels as u64 * 2;
        let rate: u128 = match p {
            Profile::Original => src.kbps as u128 * 125 * 1600,
            Profile::Mp3Vbr { quality } => vbr_kbps(quality) as u128 * 125 * 1600,
            Profile::Mp3Cbr { kbps } => kbps as u128 * 125 * 1600,
            Profile::Flac => {
                let bits: u32 = match src.bits {
                    Some(b) => if b > 16 {
                        b
                    } else {
                        16
                    },
                    None => 16,
                };
                assert(0 <= pcm16 * bits <= 0x1_ffff_ffff_ffff * 0xffff_ffff) by (nonlinear_arith)
                    requires
                        0 <= pcm16 <= 0x1_ffff_ffff_ffff,
                        0 <= bits <= 0xffff_ffff,
                ;
                pcm16 as u128 * bits as u128 * 58
            },
            Profile::Wav16 => pcm16 as u128 * 1600,
        };
        assert(rate == p.byte_rate_1600(*src));
        match rate.checked_mul(ns as u128) {
            Some(product) => {
                let n: u128 = product / 1_600_000_000_000;
                if n < u64::MAX as u128 {
                    n as u64
                } else {
                    u64::MAX
                }
            },
            None => {
                assert(rate * ns > u128::MAX);
                u64::MAX
            },
        }
    }

    /// The bitrate aimed at, where there is one.
    pub open spec fn target_kbps(self) -> Option<u32> {
        match self {
            Profile::Mp3Vbr { quality } => Some(vbr_rate(quality)),
            Profile::Mp3Cbr { kbps } => Some(kbps as u32),
            _ => None,
        }
    }

    /// What there is to say when a lossy source is encoded.
    pub open spec fn lossy_source_warnings(self, src: SourceFacts) -> Seq<Seq<char>> {
        if !src.lossy {
            Seq::empty()
        } else if self == Profile::Flac || self == Profile::Wav16 {
            seq![
                "The source is lossy (~"@ + decimal(src.kbps as nat) + " kbps): "@ + self.short_name()
                    + " keeps exactly that quality in a much larger file."@,
            ]
        } else if self.lossy() {
            let first = if src.copyable {
                "Re-encoding MP3 loses a little quality; Original keeps the source exactly."@
            } else {
                "Re-encoding a lossy source loses a little quality."@
            };
            let t = self.target_kbps()->0;
            if worth_less(t, src.kbps) {
                seq![
                    first,
                    "The source is only ~"@ + decimal(src.kbps as nat) + " kbps: "@ + decimal(t as nat)
                        + " kbps makes files bigger without sounding better."@,
                ]
            } else {
                seq![first]
            }
        } else {
            Seq::empty()
        }
    }

    /// What there is to say about bits that are dropped.
    pub open spec fn bit_warnings(self, src: SourceFacts) -> Seq<Seq<char>> {
        if self == Profile::Wav16 && src.bits is Some && src.bits->0 > 16 {
            seq!["Reduces the "@ + decimal(src.bits->0 as nat) + "-bit source to 16-bit."@]
        } else {
            Seq::empty()
        }
    }

    /// What there is to say about sample rates that MP3 does not have.
    pub open spec fn rate_warnings(self, src: SourceFacts) -> Seq<Seq<char>> {
        if self.lossy() && src.sample_rate > 48_000 {
            seq!["MP3 tops out at 48 kHz; the "@ + decimal(src.sample_rate as nat) + " Hz source will be resampled."@]
        } else {
            Seq::empty()
        }
    }

    /// All that is worth knowing before exporting `src`, in order.
    pub open spec fn all_warnings(self, src: SourceFacts) -> Seq<Seq<char>> {
        if self != self.used_for(src) {
            seq![
                "The audio of a video can't be copied as is: Original exports "@ + self.used_for(src).short_name()
                    + " here (an MP3 format gives smaller files)."@,
            ]
        } else {
            self.lossy_source_warnings(src) + self.bit_warnings(src) + self.rate_warnings(src)
        }
    }

    /// Things worth knowing before exporting `src` with this profile.
    pub fn warnings(&self, src: &SourceFacts) -> (r: Vec<String>)
        ensures
            strings(r@) == self.all_warnings(*src),
    {
        let mut w: Vec<String> = Vec::new();
        let used = self.effective(src);
        if *self != used {
            w.push(
                around(
                    "The audio of a video can't be copied as is: Original exports ",
                    &chars_of(used.short().as_str()),
                    " here (an MP3 format gives smaller files).",
                ),
            );
            assert(strings(w@) =~= self.all_warnings(*src));
            return w;
        }
        if src.lossy {
            if *self == Profile::Flac || *self == Profile::Wav16 {
                let mut s = chars_of("The source is lossy (~");
                append_chars(&mut s, &decimal_chars(src.kbps as u64));
                append_str(&mut s, " kbps): ");
                append_str(&mut s, self.short().as_str());
                append_str(&mut s, " keeps exactly that quality in a much larger file.");
                w.push(string_of(&s));
            } else if self.is_lossy() {
                if src.copyable {
                    w.push("Re-encoding MP3 loses a little quality; Original keeps the source exactly.".to_owned());
                } else {
                    w.push("Re-encoding a lossy source loses a little quality.".to_owned());
                }
                let t: u32 = match self {
                    Profile::Mp3Vbr { quality } => vbr_kbps(*quality),
                    Profile::Mp3Cbr { kbps } => *kbps as u32,
                    _ => 0,
                };
                if is_worth_less(t, src.kbps) {
                    let mut s = chars_of("The source is only ~");
                    append_chars(&mut s, &decimal_chars(src.kbps as u64));
                    append_str(&mut s, " kbps: ");
                    append_chars(&mut s, &decimal_chars(t as u64));
                    append_str(&mut s, " kbps makes files bigger without sounding better.");
                    w.push(string_of(&s));
                }
            }
        }
        assert(strings(w@) =~= self.lossy_source_warnings(*src));
        let ghost a = strings(w@);
        if *self == Profile::Wav16 {
            if let Some(b) = src.bits {
                if b > 16 {
                    w.push(around("Reduces the ", &decimal_chars(b as u64), "-bit source to 16-bit."));
                }
            }
        }
        assert(strings(w@) =~= a + self.bit_warnings(*src));
        let ghost b = strings(w@);
        if self.is_lossy() && src.sample_rate > 48_000 {
            w.push(
                around(
                    "MP3 tops out at 48 kHz; the ",
                    &decimal_chars(src.sample_rate as u64),
                    " Hz source will be resampled.",
                ),
            );
        }
        assert(strings(w@) =~= b + self.rate_warnings(*src));
        w
    }
}

// ---- File names ----

/// The characters that some file system gives a meaning of its own.
pub open spec fn is_reserved(c: char) -> bool {
    c == '/' || c == '\\' || c == ':' || c == '*' || c == '?' || c == '"' || c == '<' || c == '>' || c == '|'
}

/// `c`, or an underscore in its place.
pub open spec fn safe_char(c: char) -> char {
    if is_reserved(c) || is_control(c) {
        '_'
    } else {
        c
    }
}

/// The longest file name, in characters.
pub const NAME_LIMIT: usize = 180;

/// White space and dots, which are lost at the end of a file name on Windows.
pub open spec fn is_edge(c: char) -> bool {
    is_white(c) || c == '.'
}

/// `s` with unsafe characters replaced, without the space around it, the dots around that and
/// the space around what is left, and with no space or dot left at its end.
pub open spec fn safe_core(s: Seq<char>) -> Seq<char> {
    let t = trimmed(s.map_values(|c: char| safe_char(c)));
    let u = trimmed(drop_end(drop_start(t, only('.')), only('.')));
    drop_end(u, |c: char| is_edge(c))
}

/// `s` made safe as a file name.
pub open spec fn safe_name(s: Seq<char>) -> Seq<char> {
    let t = safe_core(s);
    if t.len() == 0 {
        "untitled"@
    } else if t.len() > NAME_LIMIT {
        t.take(NAME_LIMIT as int)
    } else {
        t
    }
}

fn safe_chars(s: &[char]) -> (r: Vec<char>)
    ensures
        r@ == s@.map_values(|c: char| safe_char(c)),
{
    let ghost all = s@.map_values(|c: char| safe_char(c));
    let mut out: Vec<char> = Vec::new();
    let mut i: usize = 0;
    while i < s.len()
        invariant
            i <= s@.len(),
            all == s@.map_values(|c: char| safe_char(c)),
            out@ == all.take(i as int),
        decreases s@.len() - i,
    {
        let c = s[i];
        let reserved = c == '/' || c == '\\' || c == ':' || c == '*' || c == '?' || c == '"' || c == '<' || c == '>' || c
            == '|';
        if reserved || control(c) {
            out.push('_');
        } else {
            out.push(c);
        }
        assert(out@ =~= all.take(i + 1));
        i += 1;
    }
    assert(all.take(i as int) =~= all);
    out
}

/// `s` without white space and dots at its end.
fn trim_edges(s: &[char]) -> (r: &[char])
    ensures
        r@ == drop_end(s@, |c: char| is_edge(c)),
{
    let ghost edge = |c: char| is_edge(c);
    let n: usize = s.len();
    let mut j: usize = n;
    assert(s@.take(n as int) =~= s@);
    while 0 < j && (white(s[j - 1]) || s[j - 1] == '.')
        invariant
            n == s@.len(),
            j <= n,
            edge == (|c: char| is_edge(c)),
            drop_end(s@, edge) == drop_end(s@.take(j as int), edge),
        decreases j,
    {
        assert(s@.take(j as int).drop_last() =~= s@.take(j - 1));
        j -= 1;
    }
    let r = slice_subrange(s, 0, j);
    assert(r@ =~= s@.take(j as int));
    r
}

/// `safe_name` on characters.
pub fn sanitize_chars(name: &[char]) -> (r: Vec<char>)
    ensures
        r@ == safe_name(name@),
{
    let cleaned = safe_chars(name);
    let dot = vec!['.'];
    proof {
        assert((|c: char| dot@.contains(c)) =~= only('.')) by {
            assert(dot@[0] == '.');
        }
    }
    let t = trim_edges(trim(trim_end_of(trim_start_of(trim(&cleaned), &dot), &dot)));
    if t.len() == 0 {
        chars_of("untitled")
    } else if t.len() > NAME_LIMIT {
        let short = slice_subrange(t, 0, NAME_LIMIT);
        assert(short@ =~= t@.take(NAME_LIMIT as int));
        copy_of(short)
    } else {
        copy_of(t)
    }
}

/// Make a string safe as a file name on macOS, Windows and Linux.
pub fn sanitize(name: &str) -> (r: String)
    ensures
        r@ == safe_name(name@),
{
    let s = chars_of(name);
    string_of(&sanitize_chars(&s))
}

/// A safe name is never empty, never longer than the limit, holds no character with a meaning
/// to a file system, does not start with white space, ends with neither white space nor a dot
/// unless it was cut off there, and is not one of the two names that stand for a folder.
pub proof fn law_safe_names_are_safe(s: Seq<char>)
    ensures
        0 < safe_name(s).len() <= NAME_LIMIT,
        forall|i: int| 0 <= i < safe_name(s).len() ==> !is_reserved(#[trigger] safe_name(s)[i]) && !is_control(
            safe_name(s)[i],
        ),
        !is_white(safe_name(s)[0]),
        safe_name(s).len() < NAME_LIMIT ==> !is_edge(safe_name(s).last()),
        safe_name(s) != "."@,
        safe_name(s) != ".."@,
{
    reveal_strlit("untitled");
    reveal_strlit(".");
    reveal_strlit("..");
    lemma_safe_core(s);
    assert("."@.last() == '.' && ".."@.last() == '.');
}

/// What is left of a name is a piece of it with the unsafe characters replaced.
proof fn lemma_safe_core(s: Seq<char>)
    ensures
        forall|k: int| 0 <= k < safe_core(s).len() ==> !is_reserved(#[trigger] safe_core(s)[k]) && !is_control(
            safe_core(s)[k],
        ),
        safe_core(s).len() > 0 ==> !is_white(safe_core(s)[0]) && !is_edge(safe_core(s).last()),
{
    let m = s.map_values(|c: char| safe_char(c));
    let edge = |c: char| is_edge(c);
    let a = trimmed(m);
    let b = drop_start(a, only('.'));
    let c = drop_end(b, only('.'));
    let d = trimmed(c);
    let e = drop_end(d, edge);
    assert(m =~= m.subrange(0, m.len() as int));
    lemma_trimmed(m, m);
    lemma_dropped_piece(a, m, only('.'));
    lemma_dropped_piece(b, m, only('.'));
    lemma_trimmed(c, m);
    lemma_dropped_piece(d, m, edge);
    lemma_drop_end(d, edge);
    assert(safe_core(s) == e);
    lemma_piece_is_safe(s, e);
    if e.len() > 0 {
        assert(e[0] == d[0]);
    }
}

proof fn lemma_piece_is_safe(s: Seq<char>, e: Seq<char>)
    requires
        piece_of(e, s.map_values(|c: char| safe_char(c))),
    ensures
        forall|k: int| 0 <= k < e.len() ==> !is_reserved(#[trigger] e[k]) && !is_control(e[k]),
{
    let m = s.map_values(|c: char| safe_char(c));
    let (i, j) = choose|i: int, j: int| 0 <= i <= j <= m.len() && e == #[trigger] m.subrange(i, j);
    assert forall|k: int| 0 <= k < e.len() implies !is_reserved(#[trigger] e[k]) && !is_control(e[k]) by {
        assert(e[k] == m[i + k]);
        assert(m[i + k] == safe_char(s[i + k]));
    }
}

/// A file name from the template.
pub open spec fn filled_in(
    naming: Seq<char>,
    number: nat,
    width: nat,
    title: Seq<char>,
    source: Seq<char>,
) -> Seq<char> {
    let a = replaced(naming, "{nn}"@, padded(number, width));
    let b = replaced(a, "{n}"@, decimal(number));
    let c = replaced(b, "{title}"@, title);
    replaced(c, "{source}"@, source)
}

/// Digits for the highest number, at least two.
pub open spec fn number_width(total: nat) -> nat {
    let w = decimal(total).len();
    if w < 2 {
        2
    } else {
        w
    }
}

/// Some text of `s` is `t` but for the case of ASCII letters.
pub open spec fn holds_like(s: Seq<Seq<char>>, t: Seq<char>) -> bool {
    exists|i: int| 0 <= i < s.len() && lowered(#[trigger] s[i]) == lowered(t)
}

/// `stem` with the track's number behind it.
pub open spec fn numbered_stem(stem: Seq<char>, number: nat) -> Seq<char> {
    stem + " ("@ + decimal(number) + ")"@
}

/// The file name that the template gives track `j` of the exported ones.
pub open spec fn plain_stem(e: RecordingEdit, total: u64, source: Seq<char>, naming: Seq<char>, j: int) -> Seq<char> {
    let kept = e.kept_tracks(total, e.track_count());
    safe_name(
        filled_in(naming, (j + 1) as nat, number_width(kept.len()), planned_title(e, total, j), source),
    )
}

/// The title of track `j` of the exported ones: the user's, or "Track" and its number.
pub open spec fn planned_title(e: RecordingEdit, total: u64, j: int) -> Seq<char> {
    let kept = e.kept_tracks(total, e.track_count());
    shown_name(e.meta_at(kept[j]).title@, Some((j + 1) as nat))->0
}

/// `stem` with the track's number behind it as many times as it takes, at most `tries`, for no
/// name of `before` to be like it.
pub open spec fn free_stem(before: Seq<Seq<char>>, stem: Seq<char>, number: nat, tries: nat) -> Seq<char>
    decreases tries,
{
    if tries > 0 && holds_like(before, stem) {
        free_stem(before, numbered_stem(stem, number), number, (tries - 1) as nat)
    } else {
        stem
    }
}

/// The file names of the first `n` exported tracks. One that an earlier track has already gets
/// the number of its track.
pub open spec fn stems(e: RecordingEdit, total: u64, source: Seq<char>, naming: Seq<char>, n: int) -> Seq<Seq<char>>
    decreases n,
{
    if n <= 0 {
        Seq::empty()
    } else {
        let before = stems(e, total, source, naming, n - 1);
        let stem = plain_stem(e, total, source, naming, n - 1);
        before.push(free_stem(before, stem, n as nat, before.len()))
    }
}

#[derive(Clone, Debug, PartialEq, Eq)]
pub struct PlannedTrack {
    /// 1-based among exported tracks.
    pub number: usize,
    pub total: usize,
    pub start: u64,
    pub end: u64,
    /// The user's title, or "Track N".
    pub title: String,
    /// File name without extension.
    pub stem: String,
}

/// `p` is the plan for track `j` of the exported ones.
pub open spec fn is_planned(
    e: RecordingEdit,
    total: u64,
    source: Seq<char>,
    naming: Seq<char>,
    j: int,
    p: PlannedTrack,
) -> bool {
    let kept = e.kept_tracks(total, e.track_count());
    &&& p.number == j + 1
    &&& p.total == kept.len()
    &&& (p.start, p.end) == e.audio(total, kept[j])
    &&& p.title@ == planned_title(e, total, j)
    &&& p.stem@ == stems(e, total, source, naming, j + 1)[j]
}

fn fill_in(naming: &[char], number: usize, width: usize, title: &[char], source: &[char]) -> (r: Vec<char>)
    ensures
        r@ == filled_in(naming@, number as nat, width as nat, title@, source@),
{
    proof {
        reveal_strlit("{nn}");
        reveal_strlit("{n}");
        reveal_strlit("{title}");
        reveal_strlit("{source}");
    }
    let a = replace(naming, &chars_of("{nn}"), &padded_chars(number as u64, width));
    let b = replace(&a, &chars_of("{n}"), &decimal_chars(number as u64));
    let c = replace(&b, &chars_of("{title}"), title);
    replace(&c, &chars_of("{source}"), source)
}

fn has_like(out: &Vec<PlannedTrack>, stem: &[char], Ghost(before): Ghost<Seq<Seq<char>>>) -> (r: bool)
    requires
        before.len() == out@.len(),
        forall|i: int| 0 <= i < before.len() ==> (#[trigger] out@[i]).stem@ == before[i],
    ensures
        r == holds_like(before, stem@),
{
    let low = ascii_lowered(stem);
    let mut i: usize = 0;
    while i < out.len()
        invariant
            i <= out@.len() == before.len(),
            forall|k: int| 0 <= k < before.len() ==> (#[trigger] out@[k]).stem@ == before[k],
            low@ == lowered(stem@),
            forall|k: int| 0 <= k < i ==> lowered(#[trigger] before[k]) != lowered(stem@),
        decreases out@.len() - i,
    {
        let other = ascii_lowered(&chars_of(out[i].stem.as_str()));
        assert(other@ == lowered(before[i as int]));
        if same_chars(&other, &low) {
            return true;
        }
        i += 1;
    }
    false
}

/// The exported tracks with their numbers, titles and file names.
pub fn plan(edit: &RecordingEdit, total_samples: u64, source_stem: &str, settings: &ExportSettings) -> (r: Vec<
    PlannedTrack,
>)
    requires
        edit.splits@.len() < usize::MAX,
    ensures
        r@.len() == edit.kept_tracks(total_samples, edit.track_count()).len(),
        forall|j: int| 0 <= j < r@.len() ==> is_planned(
            *edit,
            total_samples,
            source_stem@,
            settings.naming@,
            j,
            #[trigger] r@[j],
        ),
{
    let tracks = edit.tracks(total_samples);
    let naming = chars_of(settings.naming.as_str());
    let source = chars_of(source_stem);
    let mut total: usize = 0;
    let mut k: usize = 0;
    while k < tracks.len()
        invariant
            tracks@.len() == edit.track_count(),
            forall|j: int| 0 <= j < tracks@.len() ==> edit.is_track(total_samples, j, #[trigger] tracks@[j]),
            k <= tracks@.len(),
            total <= k,
            total == edit.kept_tracks(total_samples, k as int).len(),
        decreases tracks@.len() - k,
    {
        assert(edit.is_track(total_samples, k as int, tracks@[k as int]));
        if tracks[k].exported() {
            total += 1;
        }
        k += 1;
    }
    let ghost kept = edit.kept_tracks(total_samples, edit.track_count());
    let digits = decimal_chars(total as u64).len();
    let width: usize = if digits < 2 {
        2
    } else {
        digits
    };
    let mut out: Vec<PlannedTrack> = Vec::new();
    k = 0;
    while k < tracks.len()
        invariant
            tracks@.len() == edit.track_count(),
            forall|j: int| 0 <= j < tracks@.len() ==> edit.is_track(total_samples, j, #[trigger] tracks@[j]),
            k <= tracks@.len(),
            naming@ == settings.naming@,
            source@ == source_stem@,
            kept == edit.kept_tracks(total_samples, edit.track_count()),
            total == kept.len(),
            total <= tracks@.len(),
            width == number_width(total as nat),
            out@.len() <= k,
            out@.len() == edit.kept_tracks(total_samples, k as int).len(),
            forall|j: int| 0 <= j < out@.len() ==> is_planned(
                *edit,
                total_samples,
                source@,
                naming@,
                j,
                #[trigger] out@[j],
            ),
        decreases tracks@.len() - k,
    {
        let t = &tracks[k];
        assert(edit.is_track(total_samples, k as int, *t));
        if t.exported() {
            let ghost j = out@.len() as int;
            let number: usize = out.len() + 1;
            proof {
                lemma_kept_prefix(*edit, total_samples, k + 1, edit.track_count());
                assert(edit.kept_tracks(total_samples, k + 1)[j] == k);
                assert(kept[j] == k);
            }
            let own = chars_of(t.meta.title.as_str());
            let own = trim(&own);
            let title: Vec<char> = if own.len() == 0 {
                let mut s = chars_of("Track ");
                append_chars(&mut s, &decimal_chars(number as u64));
                s
            } else {
                copy_of(own)
            };
            assert(title@ == planned_title(*edit, total_samples, j));
            let name = fill_in(&naming, number, width, &title, &source);
            let plain = sanitize_chars(&name);
            assert(plain@ == plain_stem(*edit, total_samples, source@, naming@, j));
            let ghost before = stems(*edit, total_samples, source@, naming@, j);
            proof {
                lemma_stems_len(*edit, total_samples, source@, naming@, j);
                assert forall|i: int| 0 <= i < before.len() implies (#[trigger] out@[i]).stem@ == before[i] by {
                    assert(is_planned(*edit, total_samples, source@, naming@, i, out@[i]));
                    lemma_stems_len(*edit, total_samples, source@, naming@, i + 1);
                    lemma_stems_prefix(*edit, total_samples, source@, naming@, i + 1, j);
                    let few = stems(*edit, total_samples, source@, naming@, i + 1);
                    assert(few[i] == before[i]);
                }
            }
            // Two tracks with the same title would overwrite each other.
            let ghost first = plain@;
            let mut stem = plain;
            let mut tries: usize = out.len();
            while tries > 0 && has_like(&out, &stem, Ghost(before))
                invariant
                    before.len() == out@.len(),
                    forall|i: int| 0 <= i < before.len() ==> (#[trigger] out@[i]).stem@ == before[i],
                    free_stem(before, first, number as nat, before.len()) == free_stem(
                        before,
                        stem@,
                        number as nat,
                        tries as nat,
                    ),
                decreases tries,
            {
                append_str(&mut stem, " (");
                append_chars(&mut stem, &decimal_chars(number as u64));
                append_str(&mut stem, ")");
                tries -= 1;
            }
            assert(stem@ == stems(*edit, total_samples, source@, naming@, j + 1)[j]);
            out.push(
                PlannedTrack {
                    number,
                    total,
                    start: t.audio_start,
                    end: t.audio_end,
                    title: string_of(&title),
                    stem: string_of(&stem),
                },
            );
        }
        k += 1;
    }
    out
}

/// The exported ones among fewer tracks come first among those of more tracks.
pub proof fn lemma_kept_prefix(e: RecordingEdit, total: u64, m: int, n: int)
    requires
        0 <= m <= n,
    ensures
        e.kept_tracks(total, m).is_prefix_of(e.kept_tracks(total, n)),
    decreases n,
{
    if m < n {
        lemma_kept_prefix(e, total, m, n - 1);
    }
}

/// The plan follows the exported tracks: numbered from one in their order, each from where its
/// audio starts to where it ends, under the name that is shown for it, which is neither empty
/// nor has white space at either end.
pub proof fn law_plan_follows_the_tracks(
    e: RecordingEdit,
    total: u64,
    source: Seq<char>,
    naming: Seq<char>,
    j: int,
    p: PlannedTrack,
)
    requires
        e.wf(),
        0 <= j < e.kept_tracks(total, e.track_count()).len(),
        is_planned(e, total, source, naming, j, p),
    ensures
        ({
            let kept = e.kept_tracks(total, e.track_count());
            &&& 0 <= kept[j] < e.track_count()
            &&& e.exports(total, kept[j])
            &&& p.number == j + 1
            &&& p.total == kept.len()
            &&& p.start == e.audio_from(total, kept[j])
            &&& p.end == e.audio_to(total, kept[j])
            &&& p.start < p.end
            &&& Some(p.title@) == shown_name(e.meta_at(kept[j]).title@, e.export_number(total, kept[j]))
        }),
        p.title@.len() > 0,
        trimmed(p.title@) == p.title@,
{
    let k = e.kept_tracks(total, e.track_count())[j];
    law_export_numbers_are_consecutive(e, total, j);
    kept_in_order(e, total, e.track_count());
    let own = e.meta_at(k).title@;
    assert(own =~= own.subrange(0, own.len() as int));
    lemma_trimmed(own, own);
    if trimmed(own).len() == 0 {
        reveal_strlit("Track ");
        let d = decimal((j + 1) as nat);
        lemma_decimal_reads_back((j + 1) as nat);
        assert(p.title@[0] == 'T');
        assert(p.title@.last() == d.last());
        assert(is_digit(d[d.len() - 1]));
    }
    lemma_already_trimmed(p.title@);
}

proof fn lemma_stems_len(e: RecordingEdit, total: u64, source: Seq<char>, naming: Seq<char>, n: int)
    requires
        0 <= n,
    ensures
        stems(e, total, source, naming, n).len() == n,
    decreases n,
{
    if n > 0 {
        lemma_stems_len(e, total, source, naming, n - 1);
    }
}

proof fn lemma_stems_prefix(e: RecordingEdit, total: u64, source: Seq<char>, naming: Seq<char>, m: int, n: int)
    requires
        0 <= m <= n,
    ensures
        stems(e, total, source, naming, m).is_prefix_of(stems(e, total, source, naming, n)),
    decreases n,
{
    if m < n {
        lemma_stems_prefix(e, total, source, naming, m, n - 1);
    }
}

/// The file name of a track is the same however many tracks follow it.
pub proof fn lemma_stem_of_all(e: RecordingEdit, total: u64, source: Seq<char>, naming: Seq<char>, j: int, n: int)
    requires
        0 <= j < n,
    ensures
        stems(e, total, source, naming, n).len() == n,
        stems(e, total, source, naming, j + 1)[j] == stems(e, total, source, naming, n)[j],
{
    lemma_stems_len(e, total, source, naming, j + 1);
    lemma_stems_len(e, total, source, naming, n);
    lemma_stems_prefix(e, total, source, naming, j + 1, n);
}

/// No two exported tracks get the same file name, even where case does not count.
pub proof fn law_stems_are_distinct(
    e: RecordingEdit,
    total: u64,
    source: Seq<char>,
    naming: Seq<char>,
    n: int,
    i: int,
    j: int,
)
    requires
        0 <= i < j < n,
    ensures
        lowered(stems(e, total, source, naming, n)[i]) != lowered(stems(e, total, source, naming, n)[j]),
{
    let all = stems(e, total, source, naming, n);
    let second = stems(e, total, source, naming, j + 1);
    let before = stems(e, total, source, naming, j);
    lemma_stems_len(e, total, source, naming, j);
    lemma_stems_len(e, total, source, naming, j + 1);
    lemma_stems_len(e, total, source, naming, n);
    lemma_stems_prefix(e, total, source, naming, j, n);
    lemma_stems_prefix(e, total, source, naming, j + 1, n);
    assert(all[i] == before[i] && all[j] == second[j]);
    let stem = plain_stem(e, total, source, naming, j);
    lemma_free_stem(before, before, stem, (j + 1) as nat);
    assert(!holds_like(before, second[j]));
}

/// Of a stem and what becomes of it as its number is put behind it again and again, no two are
/// as long, so one of them is free after as many tries as there are names to keep clear of.
/// `rest` are those of the names that are no shorter than the stem.
proof fn lemma_free_stem(before: Seq<Seq<char>>, rest: Seq<Seq<char>>, stem: Seq<char>, number: nat)
    requires
        forall|x: Seq<char>| #[trigger] before.contains(x) && x.len() >= stem.len() ==> rest.contains(x),
    ensures
        !holds_like(before, free_stem(before, stem, number, rest.len())),
    decreases rest.len(),
{
    if holds_like(before, stem) {
        let i = choose|i: int| 0 <= i < before.len() && lowered(#[trigger] before[i]) == lowered(stem);
        let x = before[i];
        assert(lowered(x).len() == x.len() && lowered(stem).len() == stem.len());
        assert(before.contains(x));
        let k = choose|k: int| 0 <= k < rest.len() && rest[k] == x;
        let less = rest.remove(k);
        let longer = numbered_stem(stem, number);
        reveal_strlit(" (");
        assert(longer.len() > stem.len());
        assert forall|y: Seq<char>| #[trigger] before.contains(y) && y.len() >= longer.len() implies less.contains(y) by {
            assert(rest.contains(y));
            let m = choose|m: int| 0 <= m < rest.len() && rest[m] == y;
            assert(m != k);
            if m < k {
                assert(less[m] == y);
            } else {
                assert(less[m - 1] == y);
            }
        }
        lemma_free_stem(before, less, longer, number);
    }
}

/// No file name leads out of the folder: none holds a character with a meaning to a file system,
/// numbered or not, and none is empty.
pub proof fn law_stems_are_safe(e: RecordingEdit, total: u64, source: Seq<char>, naming: Seq<char>, n: int, j: int)
    requires
        0 <= j < n,
    ensures
        stems(e, total, source, naming, n)[j].len() > 0,
        forall|k: int| 0 <= k < stems(e, total, source, naming, n)[j].len() ==> !is_reserved(
            #[trigger] stems(e, total, source, naming, n)[j][k],
        ),
        !is_white(stems(e, total, source, naming, n)[j][0]),
{
    lemma_stem_of_all(e, total, source, naming, j, n);
    let before = stems(e, total, source, naming, j);
    lemma_stems_len(e, total, source, naming, j);
    let kept = e.kept_tracks(total, e.track_count());
    law_safe_names_are_safe(
        filled_in(naming, (j + 1) as nat, number_width(kept.len()), planned_title(e, total, j), source),
    );
    lemma_free_stem_is_safe(before, plain_stem(e, total, source, naming, j), (j + 1) as nat, before.len());
}

proof fn lemma_free_stem_is_safe(before: Seq<Seq<char>>, stem: Seq<char>, number: nat, tries: nat)
    requires
        stem.len() > 0,
        !is_white(stem[0]),
        forall|k: int| 0 <= k < stem.len() ==> !is_reserved(#[trigger] stem[k]),
    ensures
        free_stem(before, stem, number, tries).len() > 0,
        !is_white(free_stem(before, stem, number, tries)[0]),
        forall|k: int| 0 <= k < free_stem(before, stem, number, tries).len() ==> !is_reserved(
            #[trigger] free_stem(before, stem, number, tries)[k],
        ),
    decreases tries,
{
    if tries > 0 && holds_like(before, stem) {
        let more = numbered_stem(stem, number);
        reveal_strlit(" (");
        reveal_strlit(")");
        lemma_decimal_reads_back(number);
        let d = decimal(number);
        assert(more[0] == stem[0]);
        assert forall|k: int| 0 <= k < more.len() implies !is_reserved(#[trigger] more[k]) by {
            let n = stem.len() as int;
            if k < n {
                assert(more[k] == stem[k]);
            } else if k >= n + 2 && k < n + 2 + d.len() {
                assert(more[k] == d[k - n - 2]);
                assert(is_digit(d[k - n - 2]));
            }
        }
        lemma_free_stem_is_safe(before, more, number, (tries - 1) as nat);
    }
}

} // verus!

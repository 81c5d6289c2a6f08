//! What tags, headers and times say once they are written down.
use vstd::prelude::*;
use crate::bytes::{be_bytes, law_le_reads_back, le, le_bytes, limit};
use crate::mp3index::id3v2_size;
use crate::tags::{
    comment_list, gain_fields, gain_text, hundredths, id3_frame, id3_frames, id3_tag,
    peak_text, synchsafe, text_frame, track_text, user_frames, utf16, utf16_units, ReplayGain, Tags,
};
use crate::text::{
    decimal, is_digit, lemma_decimal_reads_back, lemma_decimal_width, lemma_padded_reads_back, padded, value_of,
};
use crate::time::{precise, shortened};
use crate::wav::{byte_range, header16, sample16, Layout};

verus! {

/// Nothing but digits, and at least one.
pub open spec fn digits(s: Seq<char>) -> bool {
    s.len() > 0 && forall|i: int| 0 <= i < s.len() ==> '0' <= #[trigger] s[i] <= '9'
}

proof fn lemma_digits(n: nat, width: nat)
    ensures
        digits(decimal(n)) && value_of(decimal(n)) == n,
        digits(padded(n, width)) && value_of(padded(n, width)) == n && padded(n, width).len() >= width,
        padded(n, width).len() == width || padded(n, width) == decimal(n),
{
    lemma_decimal_reads_back(n);
    lemma_padded_reads_back(n, width);
    assert forall|i: int| 0 <= i < decimal(n).len() implies '0' <= #[trigger] decimal(n)[i] <= '9' by {
        assert(is_digit(decimal(n)[i]));
    }
}

// ---- ReplayGain ----

/// A gain is written with its sign, whole decibels, a point and two digits, rounded to the
/// nearest hundredth.
pub proof fn law_gains_read_back(n: int) -> (r: (Seq<char>, Seq<char>))
    ensures
        gain_text(n) == (if n < 0 {
            "-"@
        } else {
            "+"@
        }) + r.0 + "."@ + r.1 + " dB"@,
        digits(r.0) && digits(r.1) && r.1.len() == 2,
        ({
            let size = if n < 0 {
                -n
            } else {
                n
            };
            -5_000 <= (value_of(r.0) * 100 + value_of(r.1)) * 10_000 - size <= 5_000
        }),
{
    let size = if n < 0 {
        -n
    } else {
        n
    };
    let q = hundredths(size);
    let (x, y) = ((q / 100) as nat, (q % 100) as nat);
    lemma_digits(x, 0);
    lemma_digits(y, 2);
    lemma_decimal_width(y);
    (decimal(x), padded(y, 2))
}

/// A peak is written as a number with six decimals.
pub proof fn law_peaks_read_back(n: int) -> (r: (Seq<char>, Seq<char>))
    requires
        n >= 0,
    ensures
        peak_text(n) == r.0 + "."@ + r.1,
        digits(r.0) && digits(r.1) && r.1.len() == 6,
        value_of(r.0) * 1_000_000 + value_of(r.1) == n,
{
    let (x, y) = ((n / 1_000_000) as nat, (n % 1_000_000) as nat);
    lemma_digits(x, 0);
    lemma_digits(y, 6);
    lemma_decimal_width(y);
    (decimal(x), padded(y, 6))
}

/// The ReplayGain fields: gain and peak of the track under the track's keys, those of the album
/// under the album's, where there are any.
pub proof fn law_replaygain_fields_are_the_levels(rg: ReplayGain)
    ensures
        rg.field_list().len() == if rg.album is Some {
            4int
        } else {
            2
        },
        rg.field_list()[0] == ("REPLAYGAIN_TRACK_GAIN"@, gain_text(rg.track_gain as int)),
        rg.field_list()[1] == ("REPLAYGAIN_TRACK_PEAK"@, peak_text(rg.track_peak as int)),
        rg.album matches Some((gain, peak)) ==> rg.field_list()[2] == ("REPLAYGAIN_ALBUM_GAIN"@, gain_text(gain as int))
            && rg.field_list()[3] == ("REPLAYGAIN_ALBUM_PEAK"@, peak_text(peak as int)),
{
}

// ---- ID3 ----

/// `f` is a text frame: its name, the length of what follows in four bytes, two bytes of flags,
/// the mark of UTF-16 and the text.
pub open spec fn holds_text(f: Seq<u8>, name: Seq<u8>, text: Seq<char>) -> bool {
    &&& f.len() == 13 + utf16(text).len()
    &&& f.take(4) == name
    &&& ((f[4] * 256 + f[5]) * 256 + f[6]) * 256 + f[7] == f.len() - 10
    &&& f.subrange(8, 13) == seq![0u8, 0, 1, 0xFF, 0xFE]
    &&& f.skip(13) == utf16(text)
}

/// An ID3 tag holds the title as TIT2, the album as TALB and "number/total" as TRCK, in this
/// order, each left out where there is nothing to say; the ReplayGain fields follow.
pub proof fn law_id3_says_title_album_and_number(tags: Tags) -> (r: (Seq<u8>, Seq<u8>, Seq<u8>))
    requires
        utf16(tags.title@).len() < 0xFFFF_0000,
        utf16(tags.album@).len() < 0xFFFF_0000,
        utf16(track_text(tags)).len() < 0xFFFF_0000,
    ensures
        id3_tag(tags).skip(10) == r.0 + r.1 + r.2 + user_frames(gain_fields(tags)),
        id3_tag(tags).take(5) == seq![0x49u8, 0x44, 0x33, 3, 0],
        tags.title@.len() == 0 ==> r.0.len() == 0,
        tags.title@.len() > 0 ==> holds_text(r.0, seq![0x54u8, 0x49, 0x54, 0x32], tags.title@),
        tags.album@.len() == 0 ==> r.1.len() == 0,
        tags.album@.len() > 0 ==> holds_text(r.1, seq![0x54u8, 0x41, 0x4C, 0x42], tags.album@),
        tags.track == 0 ==> r.2.len() == 0,
        tags.track > 0 ==> holds_text(
            r.2,
            seq![0x54u8, 0x52, 0x43, 0x4B],
            decimal(tags.track as nat) + "/"@ + decimal(tags.total as nat),
        ),
{
    let t = id3_tag(tags);
    let (a, b, c) = (
        text_frame(seq![0x54u8, 0x49u8, 0x54u8, 0x32u8], tags.title@),
        text_frame(seq![0x54u8, 0x41u8, 0x4Cu8, 0x42u8], tags.album@),
        text_frame(seq![0x54u8, 0x52u8, 0x43u8, 0x4Bu8], track_text(tags)),
    );
    assert(t.skip(10) =~= id3_frames(tags));
    assert(t.take(5) =~= seq![0x49u8, 0x44, 0x33, 3, 0]);
    if tags.title@.len() > 0 {
        lemma_text_frame(seq![0x54u8, 0x49, 0x54, 0x32], tags.title@);
    }
    if tags.album@.len() > 0 {
        lemma_text_frame(seq![0x54u8, 0x41, 0x4C, 0x42], tags.album@);
    }
    if tags.track > 0 {
        lemma_digits(tags.track as nat, 0);
        assert(track_text(tags).len() > 0);
        lemma_text_frame(seq![0x54u8, 0x52, 0x43, 0x4B], track_text(tags));
    }
    (a, b, c)
}

proof fn lemma_text_frame(name: Seq<u8>, text: Seq<char>)
    requires
        name.len() == 4,
        text.len() > 0,
        utf16(text).len() < 0xFFFF_0000,
    ensures
        holds_text(text_frame(name, text), name, text),
{
    let mark = seq![0x01u8, 0xFFu8, 0xFEu8];
    let body = mark + utf16(text);
    let size = be_bytes(body.len(), 4);
    let f = id3_frame(name, body);
    lemma_four(body.len());
    assert(f.take(4) =~= name);
    assert(f[4] == size[0] && f[5] == size[1] && f[6] == size[2] && f[7] == size[3]);
    assert(f.subrange(8, 13) =~= seq![0u8, 0, 1, 0xFF, 0xFE]);
    assert(f.skip(13) =~= utf16(text));
}

proof fn lemma_four(v: nat)
    requires
        v < 0x1_0000_0000,
    ensures
        be_bytes(v, 4).len() == 4,
        ((be_bytes(v, 4)[0] * 256 + be_bytes(v, 4)[1]) * 256 + be_bytes(v, 4)[2]) * 256 + be_bytes(v, 4)[3] == v,
{
    reveal_with_fuel(be_bytes, 5);
    let b = be_bytes(v, 4);
    assert(b[3] == v % 256 && b[2] == v / 256 % 256 && b[1] == v / 256 / 256 % 256 && b[0] == v / 256 / 256 / 256 % 256);
}

/// Text in UTF-16 reads back character by character: two bytes each, the low one first, or two
/// surrogates of two bytes each for what does not fit into one.
pub proof fn law_utf16_reads_back(c: char)
    ensures
        ({
            let (u, n) = (utf16_units(c), c as u32 as int);
            &&& n < 0x1_0000 ==> u.len() == 2 && u[0] + u[1] * 256 == n
            &&& n >= 0x1_0000 ==> {
                let (high, low) = (u[0] + u[1] * 256, u[2] + u[3] * 256);
                &&& u.len() == 4
                &&& 0xD800 <= high < 0xDC00
                &&& 0xDC00 <= low < 0xE000
                &&& 0x1_0000 + (high - 0xD800) * 0x400 + (low - 0xDC00) == n
            }
        }),
{
    let n = c as u32 as int;
    reveal_with_fuel(le_bytes, 3);
    if n >= 0x1_0000 {
        let (h, l) = (0xD800 + (n - 0x1_0000) / 0x400, 0xDC00 + (n - 0x1_0000) % 0x400);
        let (x, y) = (le_bytes(h as nat, 2), le_bytes(l as nat, 2));
        assert(x.len() == 2 && y.len() == 2);
        assert(x[0] == h % 256 && x[1] == h / 256 && y[0] == l % 256 && y[1] == l / 256);
        let u = utf16_units(c);
        assert(u =~= x + y);
        assert(u[0] == x[0] && u[1] == x[1] && u[2] == y[0] && u[3] == y[1]);
    } else {
        let x = le_bytes(n as nat, 2);
        assert(x.len() == 2 && x[0] == n % 256 && x[1] == n / 256);
    }
}

/// The text of two pieces is that of the first and then that of the second.
pub proof fn law_utf16_joins(a: Seq<char>, b: Seq<char>)
    ensures
        utf16(a + b) == utf16(a) + utf16(b),
        b.len() == 1 ==> utf16(b) == utf16_units(b[0]),
    decreases b.len(),
{
    if b.len() == 0 {
        assert(a + b =~= a);
        assert(utf16(a) + utf16(b) =~= utf16(a));
    } else {
        assert((a + b).drop_last() =~= a + b.drop_last());
        law_utf16_joins(a, b.drop_last());
        assert(utf16(a + b) =~= utf16(a) + utf16(b));
        if b.len() == 1 {
            assert(utf16(b.drop_last()) =~= Seq::<u8>::empty());
            assert(utf16(b) =~= utf16_units(b[0]));
        }
    }
}

// ---- Vorbis comments ----

/// The comments of a FLAC file: the title, the album, the number and the total each under its own
/// key, left out where there is nothing to say, and the ReplayGain fields behind them.
pub proof fn law_comments_say_title_album_and_number(tags: Tags)
    ensures
        ({
            let list = comment_list(tags);
            let (t, a, n) = (
                if tags.title@.len() > 0 {
                    1int
                } else {
                    0
                },
                if tags.album@.len() > 0 {
                    1int
                } else {
                    0
                },
                if tags.track > 0 {
                    2int
                } else {
                    0
                },
            );
            &&& list.len() == t + a + n + gain_fields(tags).len()
            &&& t == 1 ==> list[0] == "TITLE="@ + tags.title@
            &&& a == 1 ==> list[t] == "ALBUM="@ + tags.album@
            &&& n == 2 ==> list[t + a] == "TRACKNUMBER="@ + decimal(tags.track as nat)
            &&& n == 2 ==> list[t + a + 1] == "TRACKTOTAL="@ + decimal(tags.total as nat)
            &&& forall|i: int| #![trigger gain_fields(tags)[i]]
                0 <= i < gain_fields(tags).len() ==> list[t + a + n + i] == gain_fields(tags)[i].0 + "="@ + gain_fields(
                    tags,
                )[i].1
        }),
{
}

// ---- WAV ----

/// The bytes of the frames `[a, b)`: right where they lie in the file, all of them and no others.
pub proof fn law_ranges_are_whole_frames(l: Layout, a: u64, b: u64)
    requires
        l.block_align > 0,
        l.data_len >= 0,
        a <= b,
        b * l.block_align <= l.data_len,
    ensures
        byte_range(l, a, b).0 == l.data_offset + a * l.block_align,
        byte_range(l, a, b).1 == (b - a) * l.block_align,
{
    let n = l.data_len / l.block_align;
    assert(b <= n) by (nonlinear_arith)
        requires
            n == l.data_len / l.block_align,
            b * l.block_align <= l.data_len,
            l.block_align > 0,
    ;
}

/// The header of a 16-bit file: plain samples, the channels, the rate, the bytes of a second and
/// of a frame, and 16 bits.
pub proof fn law_16_bit_headers_say_how_to_read(ch: u32, rate: u32, len: u64)
    requires
        0 < ch <= 0x7fff,
        rate * ch * 2 <= u32::MAX,
        36 + len <= u32::MAX,
    ensures
        ({
            let h = header16(ch, rate, len);
            &&& h.len() == 44
            &&& h.take(4) == seq![0x52u8, 0x49, 0x46, 0x46]
            &&& le(h.subrange(4, 8)) == 36 + len
            &&& h.subrange(8, 16) == seq![0x57u8, 0x41, 0x56, 0x45, 0x66, 0x6D, 0x74, 0x20]
            &&& le(h.subrange(16, 20)) == 16
            &&& le(h.subrange(20, 22)) == 1
            &&& le(h.subrange(22, 24)) == ch
            &&& le(h.subrange(24, 28)) == rate
            &&& le(h.subrange(28, 32)) == rate * ch * 2
            &&& le(h.subrange(32, 34)) == ch * 2
            &&& le(h.subrange(34, 36)) == 16
            &&& h.subrange(36, 40) == seq![0x64u8, 0x61, 0x74, 0x61]
            &&& le(h.subrange(40, 44)) == len
        }),
{
    assert(rate * ch * 2 >= 0) by (nonlinear_arith)
        requires
            rate >= 0,
            ch >= 0,
    ;
    reveal_with_fuel(limit, 5);
    let (a, b, c, d, e, f, g, i) = (
        le_bytes((36 + len) as nat, 4),
        le_bytes(16, 4),
        le_bytes(1, 2),
        le_bytes(ch as nat, 2),
        le_bytes(rate as nat, 4),
        le_bytes((rate * ch * 2) as nat, 4),
        le_bytes((ch * 2) as nat, 2),
        le_bytes(16, 2),
    );
    let j = le_bytes(len as nat, 4);
    law_le_reads_back((36 + len) as nat, 4);
    law_le_reads_back(16, 4);
    law_le_reads_back(1, 2);
    law_le_reads_back(ch as nat, 2);
    law_le_reads_back(rate as nat, 4);
    law_le_reads_back((rate * ch * 2) as nat, 4);
    law_le_reads_back((ch * 2) as nat, 2);
    law_le_reads_back(16, 2);
    law_le_reads_back(len as nat, 4);
    let h = header16(ch, rate, len);
    assert(h.len() == 44);
    assert(h.take(4) =~= seq![0x52u8, 0x49, 0x46, 0x46]);
    assert(h.subrange(4, 8) =~= a);
    assert(h.subrange(8, 16) =~= seq![0x57u8, 0x41, 0x56, 0x45, 0x66, 0x6D, 0x74, 0x20]);
    assert(h.subrange(16, 20) =~= b);
    assert(h.subrange(20, 22) =~= c);
    assert(h.subrange(22, 24) =~= d);
    assert(h.subrange(24, 28) =~= e);
    assert(h.subrange(28, 32) =~= f);
    assert(h.subrange(32, 34) =~= g);
    assert(h.subrange(34, 36) =~= i);
    assert(h.subrange(36, 40) =~= seq![0x64u8, 0x61, 0x74, 0x61]);
    assert(h.subrange(40, 44) =~= j);
}

/// A sample in two bytes, the low one first, reads back with its sign.
pub proof fn law_samples_read_back(x: i16)
    ensures
        sample16(x).len() == 2,
        ({
            let v = sample16(x)[0] + sample16(x)[1] * 256;
            x == if v < 0x8000 {
                v
            } else {
                v - 0x1_0000
            }
        }),
{
    reveal_with_fuel(le_bytes, 3);
}

// ---- Times ----

/// A time reads back: hours where there are any, then minutes, seconds and, in the long form,
/// milliseconds, with minutes and seconds below sixty.
pub proof fn law_times_read_back(ms: int) -> (r: (Seq<char>, Seq<char>, Seq<char>, Seq<char>))
    requires
        ms >= 0,
    ensures
        ({
            let (h, m, s, f) = r;
            let tail = m + ":"@ + s + "."@ + f;
            &&& digits(h) && digits(m) && digits(s) && digits(f)
            &&& m.len() == 2 && s.len() == 2 && f.len() == 3
            &&& value_of(m) < 60 && value_of(s) < 60 && value_of(f) < 1000
            &&& ((value_of(h) * 60 + value_of(m)) * 60 + value_of(s)) * 1000 + value_of(f) == ms
            &&& precise(ms) == if value_of(h) > 0 {
                h + ":"@ + tail
            } else {
                tail
            }
            &&& value_of(h) > 0 ==> shortened(ms) == h + ":"@ + m + ":"@ + s
            &&& value_of(h) == 0 ==> shortened(ms) == decimal(value_of(m) as nat) + ":"@ + s
        }),
{
    let s = ms / 1000;
    let (h, m, sec, f) = ((s / 3600) as nat, (s / 60 % 60) as nat, (s % 60) as nat, (ms % 1000) as nat);
    lemma_digits(h, 0);
    lemma_digits(m, 2);
    lemma_digits(sec, 2);
    lemma_digits(f, 3);
    lemma_decimal_width(m);
    lemma_decimal_width(sec);
    lemma_decimal_width(f);
    assert(s / 60 / 60 == s / 3600);
    (decimal(h), padded(m, 2), padded(sec, 2), padded(f, 3))
}

/// A tag in front of the sound is as long as its size says, ten bytes of head not counted, and
/// ten bytes longer where it has a footer.
pub proof fn law_id3_tags_are_passed_over(b: Seq<u8>, n: int)
    requires
        b.len() >= 10,
        b.subrange(0, 3) == seq![0x49u8, 0x44u8, 0x33u8],
        0 <= n < 0x1000_0000,
        b.subrange(6, 10) == synchsafe(n),
    ensures
        b[5] as int / 16 % 2 == 0 ==> id3v2_size(b) == 10 + n,
        b[5] as int / 16 % 2 == 1 ==> id3v2_size(b) == 20 + n,
{
    let s = b.subrange(6, 10);
    assert(s[0] == b[6] && s[1] == b[7] && s[2] == b[8] && s[3] == b[9]);
    assert(crate::bytes::holds(b, 0, seq![0x49u8, 0x44, 0x33])) by {
        assert(b.subrange(0, 3) =~= seq![0x49u8, 0x44, 0x33]);
    }
}

} // verus!

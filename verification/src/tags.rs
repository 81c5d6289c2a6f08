//! Tags written to exported tracks: ID3v2.3 in front of an MP3, a VORBIS_COMMENT block in a
//! FLAC file.
use vstd::prelude::*;
use vstd::utf8::encode_utf8;
use crate::bytes::{append_bytes, be_bytes, le_bytes, push_be, push_le};
use crate::mp3index::id3v2_size;
use crate::text::{append_chars, append_str, chars_of, decimal, decimal_chars, padded, padded_chars, string_of, strings};

verus! {

/// What is written into a track's file about it.
#[derive(Clone, Debug, PartialEq, Eq)]
pub struct Tags {
    pub title: String,
    pub album: String,
    pub track: usize,
    pub total: usize,
    pub replaygain: Option<ReplayGain>,
}

impl Default for Tags {
    fn default() -> (r: Tags)
        ensures
            r.title@.len() == 0,
            r.album@.len() == 0,
            r.track == 0,
            r.total == 0,
            r.replaygain is None,
    {
        Tags { title: String::new(), album: String::new(), track: 0, total: 0, replaygain: None }
    }
}

/// ReplayGain 2.0 values (reference -18 LUFS), as written to tags: gains in millionths of a
/// decibel, linear true peaks in millionths of full scale.
#[derive(Clone, Copy, Debug, PartialEq, Eq)]
pub struct ReplayGain {
    pub track_gain: i64,
    pub track_peak: u64,
    /// Gain and peak for the whole set of exported tracks.
    pub album: Option<(i64, u64)>,
}

/// Millionths rounded to hundredths, to the even one where both are as near.
pub open spec fn hundredths(m: int) -> int {
    let (q, r) = (m / 10_000, m % 10_000);
    if r > 5000 || (r == 5000 && q % 2 == 1) {
        q + 1
    } else {
        q
    }
}

/// A gain with its sign and two decimals.
pub open spec fn gain_text(n: int) -> Seq<char> {
    let q = hundredths(if n < 0 { -n } else { n });
    (if n < 0 { "-"@ } else { "+"@ }) + decimal((q / 100) as nat) + "."@ + padded((q % 100) as nat, 2) + " dB"@
}

/// A peak with six decimals.
pub open spec fn peak_text(n: int) -> Seq<char> {
    decimal((n / 1_000_000) as nat) + "."@ + padded((n % 1_000_000) as nat, 6)
}

fn gain_chars(n: i64) -> (r: Vec<char>)
    ensures
        r@ == gain_text(n as int),
{
    let m: u64 = if n < 0 {
        (0 - (n as i128)) as u64
    } else {
        n as u64
    };
    let q: u64 = m / 10_000;
    let rest: u64 = m % 10_000;
    let q: u64 = if rest > 5000 || (rest == 5000 && q % 2 == 1) {
        q + 1
    } else {
        q
    };
    let mut s = chars_of(if n < 0 {
        "-"
    } else {
        "+"
    });
    append_chars(&mut s, &decimal_chars(q / 100));
    append_str(&mut s, ".");
    append_chars(&mut s, &padded_chars(q % 100, 2));
    append_str(&mut s, " dB");
    s
}

fn peak_chars(n: u64) -> (r: Vec<char>)
    ensures
        r@ == peak_text(n as int),
{
    let mut s = decimal_chars(n / 1_000_000);
    append_str(&mut s, ".");
    append_chars(&mut s, &padded_chars(n % 1_000_000, 6));
    s
}

/// A key and its value.
#[derive(Clone, Debug, PartialEq, Eq)]
pub struct Field {
    pub key: String,
    pub value: String,
}

/// A key and its value, as sequences of characters.
pub open spec fn field_texts(v: Seq<Field>) -> Seq<(Seq<char>, Seq<char>)> {
    v.map_values(|f: Field| (f.key@, f.value@))
}

impl ReplayGain {
    /// The fields, in order.
    pub open spec fn field_list(self) -> Seq<(Seq<char>, Seq<char>)> {
        let track = seq![
            ("REPLAYGAIN_TRACK_GAIN"@, gain_text(self.track_gain as int)),
            ("REPLAYGAIN_TRACK_PEAK"@, peak_text(self.track_peak as int)),
        ];
        match self.album {
            Some((gain, peak)) => track + seq![
                ("REPLAYGAIN_ALBUM_GAIN"@, gain_text(gain as int)),
                ("REPLAYGAIN_ALBUM_PEAK"@, peak_text(peak as int)),
            ],
            None => track,
        }
    }

    /// Keys and values in the usual text form.
    pub fn fields(&self) -> (r: Vec<Field>)
        ensures
            field_texts(r@) == self.field_list(),
    {
        let mut f: Vec<Field> = Vec::new();
        f.push(Field { key: "REPLAYGAIN_TRACK_GAIN".to_owned(), value: string_of(&gain_chars(self.track_gain)) });
        f.push(Field { key: "REPLAYGAIN_TRACK_PEAK".to_owned(), value: string_of(&peak_chars(self.track_peak)) });
        if let Some((gain, peak)) = self.album {
            f.push(Field { key: "REPLAYGAIN_ALBUM_GAIN".to_owned(), value: string_of(&gain_chars(gain)) });
            f.push(Field { key: "REPLAYGAIN_ALBUM_PEAK".to_owned(), value: string_of(&peak_chars(peak)) });
        }
        assert(field_texts(f@) =~= self.field_list());
        f
    }
}

/// The ReplayGain fields, if there are any.
pub open spec fn gain_fields(tags: Tags) -> Seq<(Seq<char>, Seq<char>)> {
    match tags.replaygain {
        Some(rg) => rg.field_list(),
        None => Seq::empty(),
    }
}

// ---- ID3v2 ----

/// A character in UTF-16: one unit, or a pair of surrogates.
pub open spec fn utf16_units(c: char) -> Seq<u8> {
    let n = c as u32 as int;
    if n < 0x1_0000 {
        le_bytes(n as nat, 2)
    } else {
        le_bytes((0xD800 + (n - 0x1_0000) / 0x400) as nat, 2) + le_bytes((0xDC00 + (n - 0x1_0000) % 0x400) as nat, 2)
    }
}

/// A text in UTF-16, least significant bytes first.
pub open spec fn utf16(s: Seq<char>) -> Seq<u8>
    decreases s.len(),
{
    if s.len() == 0 {
        Seq::empty()
    } else {
        utf16(s.drop_last()) + utf16_units(s.last())
    }
}

fn push_utf16(out: &mut Vec<u8>, s: &[char])
    ensures
        final(out)@ == old(out)@ + utf16(s@),
{
    let mut i: usize = 0;
    assert(old(out)@ + utf16(s@.take(0)) =~= out@);
    while i < s.len()
        invariant
            i <= s@.len(),
            out@ == old(out)@ + utf16(s@.take(i as int)),
        decreases s@.len() - i,
    {
        let ghost before = out@;
        let n: u32 = s[i] as u32;
        if n < 0x1_0000 {
            push_le(out, n as u64, 2);
        } else {
            push_le(out, (0xD800 + (n - 0x1_0000) / 0x400) as u64, 2);
            push_le(out, (0xDC00 + (n - 0x1_0000) % 0x400) as u64, 2);
        }
        assert(out@ =~= before + utf16_units(s@[i as int]));
        assert(s@.take(i + 1).drop_last() =~= s@.take(i as int));
        assert(out@ =~= old(out)@ + utf16(s@.take(i + 1)));
        i += 1;
    }
    assert(s@.take(i as int) =~= s@);
}

/// A text of ASCII characters as bytes.
pub open spec fn ascii(s: Seq<char>) -> Seq<u8> {
    s.map_values(|c: char| c as u8)
}

fn push_ascii(out: &mut Vec<u8>, s: &[char])
    ensures
        final(out)@ == old(out)@ + ascii(s@),
{
    let mut i: usize = 0;
    assert(old(out)@ + ascii(s@).take(0) =~= out@);
    while i < s.len()
        invariant
            i <= s@.len(),
            out@ == old(out)@ + ascii(s@).take(i as int),
        decreases s@.len() - i,
    {
        out.push(s[i] as u8);
        assert((old(out)@ + ascii(s@).take(i as int)).push(s@[i as int] as u8) =~= old(out)@ + ascii(s@).take(i + 1));
        i += 1;
    }
    assert(ascii(s@).take(i as int) =~= ascii(s@));
}

/// A frame: its name, the length of its body, no flags, and the body.
pub open spec fn id3_frame(id: Seq<u8>, body: Seq<u8>) -> Seq<u8> {
    id + be_bytes(body.len(), 4) + seq![0u8, 0u8] + body
}

/// A text frame in UTF-16 with a byte order mark, so any title survives; none for no text.
pub open spec fn text_frame(id: Seq<u8>, value: Seq<char>) -> Seq<u8> {
    if value.len() == 0 {
        Seq::empty()
    } else {
        id3_frame(id, seq![0x01u8, 0xFFu8, 0xFEu8] + utf16(value))
    }
}

/// A user-defined text frame (Latin-1: description, NUL, value).
pub open spec fn user_frame(key: Seq<char>, value: Seq<char>) -> Seq<u8> {
    id3_frame(seq![0x54u8, 0x58u8, 0x58u8, 0x58u8], seq![0u8] + ascii(key) + seq![0u8] + ascii(value))
}

/// One user-defined text frame for each field.
pub open spec fn user_frames(fields: Seq<(Seq<char>, Seq<char>)>) -> Seq<u8>
    decreases fields.len(),
{
    if fields.len() == 0 {
        Seq::empty()
    } else {
        user_frames(fields.drop_last()) + user_frame(fields.last().0, fields.last().1)
    }
}

/// "3/12"
pub open spec fn track_text(tags: Tags) -> Seq<char> {
    if tags.track > 0 {
        decimal(tags.track as nat) + "/"@ + decimal(tags.total as nat)
    } else {
        Seq::empty()
    }
}

/// All frames: title, album, track number and ReplayGain.
pub open spec fn id3_frames(tags: Tags) -> Seq<u8> {
    text_frame(seq![0x54u8, 0x49u8, 0x54u8, 0x32u8], tags.title@) + text_frame(
        seq![0x54u8, 0x41u8, 0x4Cu8, 0x42u8],
        tags.album@,
    ) + text_frame(seq![0x54u8, 0x52u8, 0x43u8, 0x4Bu8], track_text(tags)) + user_frames(gain_fields(tags))
}

/// Four bytes of seven bits each.
pub open spec fn synchsafe(n: int) -> Seq<u8> {
    seq![
        (n / 0x20_0000 % 128) as u8,
        (n / 0x4000 % 128) as u8,
        (n / 128 % 128) as u8,
        (n % 128) as u8,
    ]
}

/// The whole tag.
pub open spec fn id3_tag(tags: Tags) -> Seq<u8> {
    let frames = id3_frames(tags);
    seq![0x49u8, 0x44u8, 0x33u8, 0x03u8, 0u8, 0u8] + synchsafe(frames.len() as int) + frames
}

fn push_frame(out: &mut Vec<u8>, id: &[u8], body: &[u8])
    ensures
        final(out)@ == old(out)@ + id3_frame(id@, body@),
{
    append_bytes(out, id);
    push_be(out, body.len() as u64, 4);
    out.push(0);
    out.push(0);
    append_bytes(out, body);
    assert(out@ =~= old(out)@ + id3_frame(id@, body@));
}

fn push_text(out: &mut Vec<u8>, id: &[u8], value: &[char])
    ensures
        final(out)@ == old(out)@ + text_frame(id@, value@),
{
    if value.len() == 0 {
        assert(out@ + Seq::<u8>::empty() =~= out@);
        return;
    }
    let mut body = vec![0x01u8, 0xFF, 0xFE];
    push_utf16(&mut body, value);
    assert(body@ =~= seq![0x01u8, 0xFFu8, 0xFEu8] + utf16(value@));
    push_frame(out, id, &body);
}

/// Minimal ID3v2.3 tag: title, album and track number.
pub fn id3v2(tags: &Tags) -> (r: Vec<u8>)
    ensures
        r@ == id3_tag(*tags),
{
    let mut frames: Vec<u8> = Vec::new();
    let tit2 = vec![0x54u8, 0x49, 0x54, 0x32];
    let talb = vec![0x54u8, 0x41, 0x4C, 0x42];
    let trck = vec![0x54u8, 0x52, 0x43, 0x4B];
    let txxx = vec![0x54u8, 0x58, 0x58, 0x58];
    assert(tit2@ =~= seq![0x54u8, 0x49u8, 0x54u8, 0x32u8]);
    assert(talb@ =~= seq![0x54u8, 0x41u8, 0x4Cu8, 0x42u8]);
    assert(trck@ =~= seq![0x54u8, 0x52u8, 0x43u8, 0x4Bu8]);
    assert(txxx@ =~= seq![0x54u8, 0x58u8, 0x58u8, 0x58u8]);
    push_text(&mut frames, &tit2, &chars_of(tags.title.as_str()));
    push_text(&mut frames, &talb, &chars_of(tags.album.as_str()));
    let ghost two = frames@;
    if tags.track > 0 {
        let mut t = decimal_chars(tags.track as u64);
        append_str(&mut t, "/");
        append_chars(&mut t, &decimal_chars(tags.total as u64));
        assert(t@ =~= track_text(*tags));
        push_text(&mut frames, &trck, &t);
    } else {
        assert(track_text(*tags) =~= Seq::<char>::empty());
        assert(two + text_frame(trck@, track_text(*tags)) =~= two);
    }
    let ghost three = frames@;
    let fields: Vec<Field> = match &tags.replaygain {
        Some(rg) => rg.fields(),
        None => Vec::new(),
    };
    assert(field_texts(fields@) =~= gain_fields(*tags));
    let mut i: usize = 0;
    assert(three + user_frames(field_texts(fields@).take(0)) =~= three);
    while i < fields.len()
        invariant
            i <= fields@.len(),
            txxx@ == seq![0x54u8, 0x58u8, 0x58u8, 0x58u8],
            frames@ == three + user_frames(field_texts(fields@).take(i as int)),
        decreases fields@.len() - i,
    {
        let ghost before = frames@;
        let key = chars_of(fields[i].key.as_str());
        let value = chars_of(fields[i].value.as_str());
        let mut body = vec![0u8];
        push_ascii(&mut body, &key);
        body.push(0);
        push_ascii(&mut body, &value);
        assert(body@ =~= seq![0u8] + ascii(key@) + seq![0u8] + ascii(value@));
        push_frame(&mut frames, &txxx, &body);
        assert(field_texts(fields@).take(i + 1).drop_last() =~= field_texts(fields@).take(i as int));
        assert(field_texts(fields@).take(i + 1).last() == (key@, value@));
        assert(frames@ =~= three + user_frames(field_texts(fields@).take(i + 1)));
        i += 1;
    }
    assert(field_texts(fields@).take(i as int) =~= field_texts(fields@));
    assert(frames@ =~= id3_frames(*tags));
    let n: usize = frames.len();
    let mut out = vec![0x49u8, 0x44, 0x33, 0x03, 0, 0];
    out.push((n / 0x20_0000 % 128) as u8);
    out.push((n / 0x4000 % 128) as u8);
    out.push((n / 128 % 128) as u8);
    out.push((n % 128) as u8);
    append_bytes(&mut out, &frames);
    assert(out@ =~= id3_tag(*tags));
    out
}

/// The size in the tag's header is that of what follows it, so that a reader which skips the
/// tag ends up right behind it.
pub proof fn law_id3_size_is_right(tags: Tags, rest: Seq<u8>)
    requires
        id3_frames(tags).len() < 0x1000_0000,
    ensures
        id3v2_size(id3_tag(tags) + rest) == id3_tag(tags).len(),
{
    let n = id3_frames(tags).len() as int;
    let t = id3_tag(tags);
    let b = t + rest;
    let id = seq![0x49u8, 0x44u8, 0x33u8];
    assert(b.subrange(0, 3) =~= id);
    assert(b.len() >= 10);
    assert(b[5] == 0);
    assert(b[6] == synchsafe(n)[0] && b[7] == synchsafe(n)[1] && b[8] == synchsafe(n)[2] && b[9] == synchsafe(n)[3]);
    assert(n == ((n / 0x20_0000 % 128 * 128 + n / 0x4000 % 128) * 128 + n / 128 % 128) * 128 + n % 128);
}

// ---- Vorbis comments ----

/// A field with its length in front, in UTF-8.
pub open spec fn comment(text: Seq<char>) -> Seq<u8> {
    le_bytes(encode_utf8(text).len(), 4) + encode_utf8(text)
}

/// Fields one after the other.
pub open spec fn comments(texts: Seq<Seq<char>>) -> Seq<u8>
    decreases texts.len(),
{
    if texts.len() == 0 {
        Seq::empty()
    } else {
        comments(texts.drop_last()) + comment(texts.last())
    }
}

/// `key=value` for each field.
pub open spec fn joined_fields(fields: Seq<(Seq<char>, Seq<char>)>) -> Seq<Seq<char>> {
    fields.map_values(|f: (Seq<char>, Seq<char>)| f.0 + "="@ + f.1)
}

/// All comments: title, album, track number and ReplayGain.
pub open spec fn comment_list(tags: Tags) -> Seq<Seq<char>> {
    let title = if tags.title@.len() > 0 { seq!["TITLE="@ + tags.title@] } else { Seq::empty() };
    let album = if tags.album@.len() > 0 { seq!["ALBUM="@ + tags.album@] } else { Seq::empty() };
    let number = if tags.track > 0 {
        seq!["TRACKNUMBER="@ + decimal(tags.track as nat), "TRACKTOTAL="@ + decimal(tags.total as nat)]
    } else {
        Seq::empty()
    };
    title + album + number + joined_fields(gain_fields(tags))
}

/// The body of the block: who wrote it, how many comments there are, and the comments.
pub open spec fn comment_block(tags: Tags) -> Seq<u8> {
    let list = comment_list(tags);
    comment("splitter"@) + le_bytes(list.len(), 4) + comments(list)
}

fn push_comment(out: &mut Vec<u8>, text: &str)
    ensures
        final(out)@ == old(out)@ + comment(text@),
{
    let b = text.as_bytes();
    push_le(out, b.len() as u64, 4);
    append_bytes(out, b);
    assert(out@ =~= old(out)@ + comment(text@));
}

fn joined(a: &str, b: &[char]) -> (r: String)
    ensures
        r@ == a@ + b@,
{
    let mut s = chars_of(a);
    append_chars(&mut s, b);
    string_of(&s)
}

fn comment_texts(tags: &Tags) -> (r: Vec<String>)
    ensures
        strings(r@) == comment_list(*tags),
{
    let mut list: Vec<String> = Vec::new();
    let ghost none = Seq::<Seq<char>>::empty();
    if !tags.title.as_str().is_empty() {
        list.push(joined("TITLE=", &chars_of(tags.title.as_str())));
    }
    let ghost title = if tags.title@.len() > 0 { seq!["TITLE="@ + tags.title@] } else { none };
    assert(strings(list@) =~= title);
    if !tags.album.as_str().is_empty() {
        list.push(joined("ALBUM=", &chars_of(tags.album.as_str())));
    }
    let ghost album = if tags.album@.len() > 0 { seq!["ALBUM="@ + tags.album@] } else { none };
    assert(strings(list@) =~= title + album);
    if tags.track > 0 {
        list.push(joined("TRACKNUMBER=", &decimal_chars(tags.track as u64)));
        list.push(joined("TRACKTOTAL=", &decimal_chars(tags.total as u64)));
    }
    let ghost number = if tags.track > 0 {
        seq!["TRACKNUMBER="@ + decimal(tags.track as nat), "TRACKTOTAL="@ + decimal(tags.total as nat)]
    } else {
        none
    };
    assert(strings(list@) =~= title + album + number);
    let fields: Vec<Field> = match &tags.replaygain {
        Some(rg) => rg.fields(),
        None => Vec::new(),
    };
    assert(field_texts(fields@) =~= gain_fields(*tags));
    let ghost all = joined_fields(field_texts(fields@));
    let ghost head = title + album + number;
    let mut i: usize = 0;
    assert(head + all.take(0) =~= head);
    while i < fields.len()
        invariant
            i <= fields@.len(),
            all == joined_fields(field_texts(fields@)),
            strings(list@) == head + all.take(i as int),
        decreases fields@.len() - i,
    {
        let ghost before = list@;
        let mut s = chars_of(fields[i].key.as_str());
        append_str(&mut s, "=");
        append_str(&mut s, fields[i].value.as_str());
        list.push(string_of(&s));
        assert(all[i as int] == s@);
        assert(strings(list@) =~= strings(before).push(s@));
        assert(strings(list@) =~= head + all.take(i + 1));
        i += 1;
    }
    assert(all.take(i as int) =~= all);
    list
}

/// FLAC VORBIS_COMMENT block body.
pub fn vorbis_comment(tags: &Tags) -> (r: Vec<u8>)
    ensures
        r@ == comment_block(*tags),
{
    let list = comment_texts(tags);
    let ghost texts = strings(list@);
    let mut out: Vec<u8> = Vec::new();
    push_comment(&mut out, "splitter");
    push_le(&mut out, list.len() as u64, 4);
    let ghost head = out@;
    assert(head =~= comment("splitter"@) + le_bytes(texts.len(), 4));
    let mut i: usize = 0;
    assert(head + comments(texts.take(0)) =~= head);
    while i < list.len()
        invariant
            i <= list@.len(),
            texts == strings(list@),
            out@ == head + comments(texts.take(i as int)),
        decreases list@.len() - i,
    {
        push_comment(&mut out, list[i].as_str());
        assert(texts.take(i + 1).drop_last() =~= texts.take(i as int));
        assert(out@ =~= head + comments(texts.take(i + 1)));
        i += 1;
    }
    assert(texts.take(i as int) =~= texts);
    out
}

} // verus!

//! What the video encoder is asked for.
use vstd::prelude::*;
use crate::bytes::be;
use crate::export::VideoProfile;
use crate::mp4::{body_of, boxes, shown_in, timescale_of, trak_delay};
use crate::tags::{hundredths, Tags};
use crate::text::{decimal, lemma_decimal_reads_back, lemma_decimal_width, lemma_padded_reads_back, padded, value_of};
use crate::video_export::{clip_list, concat_text, encoding, join_list, metadata, secs_text, volume};

verus! {

/// The argument behind `i` is `value`, and `i` itself is `flag`.
pub open spec fn says_at(args: Seq<Seq<char>>, i: int, flag: Seq<char>, value: Seq<char>) -> bool {
    0 <= i && i + 1 < args.len() && args[i] == flag && args[i + 1] == value
}

/// `value` stands behind a `flag` among the arguments.
pub open spec fn asks(args: Seq<Seq<char>>, flag: Seq<char>, value: Seq<char>) -> bool {
    exists|i: int| #[trigger] says_at(args, i, flag, value)
}

/// A clip is taken from its source, from its start on and as long as it is. The start stands in
/// front of the source, so that it is looked for there, and the length behind it. Picture and
/// sound come along, and nothing that the source says of itself.
pub proof fn law_clips_are_cut_where_asked(
    source: Seq<char>,
    start: int,
    length: int,
    profile: VideoProfile,
    gain: int,
    tags: Tags,
)
    ensures
        ({
            let args = clip_list(source, start, length, profile, gain, tags);
            &&& exists|i: int, j: int, k: int| #![trigger args[i], args[j], args[k]]
                says_at(args, i, "-ss"@, secs_text(start)) && says_at(args, j, "-i"@, source) && says_at(
                    args,
                    k,
                    "-t"@,
                    secs_text(length),
                ) && i < j < k
            &&& asks(args, "-map"@, "0:v:0"@)
            &&& asks(args, "-map"@, "0:a:0"@)
            &&& asks(args, "-map_metadata"@, "-1"@)
            &&& asks(args, "-crf"@, decimal(profile->crf as nat))
            &&& asks(args, "-metadata"@, "title="@ + tags.title@)
            &&& asks(args, "-metadata"@, "album="@ + tags.album@)
            &&& asks(args, "-metadata"@, "track="@ + decimal(tags.track as nat) + "/"@ + decimal(tags.total as nat))
            &&& forall|value: Seq<char>| #[trigger] asks(volume(gain), "-af"@, value) ==> asks(args, "-af"@, value)
        }),
{
    let args = clip_list(source, start, length, profile, gain, tags);
    let e = encoding(profile);
    let v = volume(gain);
    let m = metadata(tags);
    assert(args.len() == 19 + e.len() + v.len() + m.len());
    assert(says_at(args, 5, "-ss"@, secs_text(start)));
    assert(says_at(args, 7, "-i"@, source));
    assert(says_at(args, 9, "-t"@, secs_text(length)));
    assert(args[5] == "-ss"@ && args[7] == "-i"@ && args[9] == "-t"@);
    assert(says_at(args, 11, "-map"@, "0:v:0"@));
    assert(says_at(args, 13, "-map"@, "0:a:0"@));
    assert(says_at(args, 15, "-map_metadata"@, "-1"@));
    assert(e.len() == 14 && e[4] == "-crf"@ && e[5] == decimal(profile->crf as nat));
    assert(args[23] == e[4] && args[24] == e[5]);
    assert(says_at(args, 23, "-crf"@, decimal(profile->crf as nat)));
    let at = 33 + v.len() as int;
    assert(forall|i: int| 0 <= i < 6 ==> #[trigger] args[at + i] == m[i]);
    assert(args[at] == m[0] && args[at + 1] == m[1] && args[at + 2] == m[2] && args[at + 3] == m[3]);
    assert(args[at + 4] == m[4] && args[at + 5] == m[5]);
    assert(says_at(args, at, "-metadata"@, "title="@ + tags.title@));
    assert(says_at(args, at + 2, "-metadata"@, "album="@ + tags.album@));
    assert(says_at(
        args,
        at + 4,
        "-metadata"@,
        "track="@ + decimal(tags.track as nat) + "/"@ + decimal(tags.total as nat),
    ));
    assert forall|value: Seq<char>| #[trigger] asks(v, "-af"@, value) implies asks(args, "-af"@, value) by {
        let i = choose|i: int| #[trigger] says_at(v, i, "-af"@, value);
        assert(args[33 + i] == v[i] && args[33 + i + 1] == v[i + 1]);
        assert(says_at(args, 33 + i, "-af"@, value));
    }
}

/// What is joined is the parts of the source that were asked for: both outputs of the filter that
/// joins them, and nothing else.
pub proof fn law_joins_take_the_filters_outputs(source: Seq<char>, ranges: Seq<(u64, u64)>, profile: VideoProfile)
    ensures
        ({
            let args = join_list(source, ranges, profile);
            &&& asks(args, "-i"@, source)
            &&& asks(args, "-filter_complex"@, concat_text(ranges))
            &&& asks(args, "-map"@, "[v]"@)
            &&& asks(args, "-map"@, "[a]"@)
            &&& asks(args, "-map_metadata"@, "-1"@)
            &&& asks(args, "-crf"@, decimal(profile->crf as nat))
        }),
{
    let args = join_list(source, ranges, profile);
    let e = encoding(profile);
    assert(says_at(args, 5, "-i"@, source));
    assert(says_at(args, 7, "-filter_complex"@, concat_text(ranges)));
    assert(says_at(args, 9, "-map"@, "[v]"@));
    assert(says_at(args, 11, "-map"@, "[a]"@));
    assert(says_at(args, 13, "-map_metadata"@, "-1"@));
    assert(e.len() == 14 && e[4] == "-crf"@ && e[5] == decimal(profile->crf as nat));
    assert(args[19] == e[4] && args[20] == e[5]);
    assert(says_at(args, 19, "-crf"@, decimal(profile->crf as nat)));
}

/// The level is changed by the gain, in decibels with two digits behind the point and a minus
/// sign where it gets softer, and not at all where the gain is too small for that.
pub proof fn law_the_volume_is_the_gain(gain: int) -> (r: (Seq<char>, Seq<char>))
    ensures
        -5000 <= gain <= 5000 <==> volume(gain).len() == 0,
        gain > 5000 ==> asks(volume(gain), "-af"@, "volume="@ + (r.0 + "."@ + r.1 + "dB"@)),
        gain < -5000 ==> asks(volume(gain), "-af"@, "volume=-"@ + (r.0 + "."@ + r.1 + "dB"@)),
        r.1.len() == 2,
        gain >= 0 ==> -5000 <= (value_of(r.0) * 100 + value_of(r.1)) * 10_000 - gain <= 5000,
        gain < 0 ==> -5000 <= (value_of(r.0) * 100 + value_of(r.1)) * 10_000 + gain <= 5000,
{
    let size = if gain < 0 {
        -gain
    } else {
        gain
    };
    let q = hundredths(size);
    let (w, c) = (decimal((q / 100) as nat), padded((q % 100) as nat, 2));
    lemma_decimal_reads_back((q / 100) as nat);
    lemma_padded_reads_back((q % 100) as nat, 2);
    lemma_decimal_width((q % 100) as nat);
    let v = volume(gain);
    if size > 5000 {
        reveal_strlit("volume=");
        reveal_strlit("volume=-");
        reveal_strlit("-");
        reveal_strlit("");
        if gain < 0 {
            assert(v[1] =~= "volume=-"@ + (w + "."@ + c + "dB"@));
            assert(says_at(v, 0, "-af"@, "volume=-"@ + (w + "."@ + c + "dB"@)));
        } else {
            assert(v[1] =~= "volume="@ + (w + "."@ + c + "dB"@));
            assert(says_at(v, 0, "-af"@, "volume="@ + (w + "."@ + c + "dB"@)));
        }
    }
    (w, c)
}

/// The delay of the sound of a video is what the edit list of its sound track says, in units of
/// the time scale of its media header; a track whose handler is not that of sound has none.
pub proof fn law_the_delay_is_that_of_the_sound(
    trak: Seq<u8>,
    mdia: Seq<u8>,
    hdlr: Seq<u8>,
    mdhd: Seq<u8>,
    edts: Seq<u8>,
    elst: Seq<u8>,
)
    requires
        body_of(boxes(trak), be(seq![0x6du8, 0x64, 0x69, 0x61]) as int) == Some(mdia),
        body_of(boxes(mdia), be(seq![0x68u8, 0x64, 0x6c, 0x72]) as int) == Some(hdlr),
        body_of(boxes(mdia), be(seq![0x6du8, 0x64, 0x68, 0x64]) as int) == Some(mdhd),
        body_of(boxes(trak), be(seq![0x65u8, 0x64, 0x74, 0x73]) as int) == Some(edts),
        body_of(boxes(edts), be(seq![0x65u8, 0x6c, 0x73, 0x74]) as int) == Some(elst),
        hdlr.len() >= 12,
    ensures
        ({
            let is_sound = hdlr[8] == 0x73 && hdlr[9] == 0x6f && hdlr[10] == 0x75 && hdlr[11] == 0x6e;
            &&& !is_sound ==> trak_delay(trak) is None
            &&& is_sound && timescale_of(mdhd) is Some && timescale_of(mdhd)->0 > 0 && shown_in(elst) is Some ==> trak_delay(
                trak,
            ) == Some((shown_in(elst)->0, timescale_of(mdhd)->0))
            &&& shown_in(elst) is None ==> trak_delay(trak) is None
        }),
{
    reveal_with_fuel(be, 5);
    lemma_kind(0x6d, 0x64, 0x69, 0x61);
    lemma_kind(0x68, 0x64, 0x6c, 0x72);
    lemma_kind(0x6d, 0x64, 0x68, 0x64);
    lemma_kind(0x65, 0x64, 0x74, 0x73);
    lemma_kind(0x65, 0x6c, 0x73, 0x74);
    let s = hdlr.subrange(8, 12);
    assert(s[0] == hdlr[8] && s[1] == hdlr[9] && s[2] == hdlr[10] && s[3] == hdlr[11]);
    if hdlr[8] == 0x73 && hdlr[9] == 0x6f && hdlr[10] == 0x75 && hdlr[11] == 0x6e {
        assert(s =~= crate::mp4::sound());
    }
}

proof fn lemma_kind(a: u8, b: u8, c: u8, d: u8)
    ensures
        be(seq![a, b, c, d]) == ((a * 256 + b) * 256 + c) * 256 + d,
{
    let s = seq![a, b, c, d];
    reveal_with_fuel(be, 5);
    assert(s.drop_last() =~= seq![a, b, c]);
    assert(s.drop_last().drop_last() =~= seq![a, b]);
    assert(s.drop_last().drop_last().drop_last() =~= seq![a]);
    assert(s.drop_last().drop_last().drop_last().drop_last().len() == 0);
}

/// The time scale of a media header stands behind its two times: of four bytes each in the first
/// form, of eight in the later one.
pub proof fn law_time_scales_stand_behind_the_times(mdhd: Seq<u8>, scale: nat)
    requires
        scale < 0x1_0000_0000,
    ensures
        mdhd.len() >= 16 && mdhd[0] == 0 && mdhd.subrange(12, 16) == crate::bytes::be_bytes(scale, 4) ==> timescale_of(mdhd)
            == Some(scale as int),
        mdhd.len() >= 24 && mdhd[0] == 1 && mdhd.subrange(20, 24) == crate::bytes::be_bytes(scale, 4) ==> timescale_of(mdhd)
            == Some(scale as int),
{
    assert(crate::bytes::limit(4) == 0x1_0000_0000) by {
        reveal_with_fuel(crate::bytes::limit, 5);
    }
    crate::bytes::law_be_reads_back(scale, 4);
}

} // verus!

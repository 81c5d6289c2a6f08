//! What reading an exported MP3 file gives back: its index lists the frames that were written.
use vstd::prelude::*;
use crate::mp3cut::{
    carrier, copied, info_bytes, info_tag, law_carrier_carries, law_info_frame_is_a_tag, len_for, lemma_roomy,
    lemma_roomy_goes_with, moved, reservoir_room, roomy, side_for, track_bytes, with_carrier, Audio, Cut, INFO_ROOM,
    MAX_FILE,
};
use crate::mp3index::{
    audio_frame, found_from, found_in, header_at, header_of, last_bytes, law_index_lists_the_audio_frames,
    lemma_header_range, nothing_found, peek, step_at, tag_frame, with_frame, Found, FrameHeader, Mp3Index, MpegVersion, Step,
};
use crate::tags::{id3_frames, id3_tag, law_id3_size_is_right, Tags};

verus! {

/// There is an audio frame of the stream of `g` at byte `o`, and it ends at `end`.
#[verifier::opaque]
pub open spec fn frame_until(b: Seq<u8>, o: int, end: int, g: FrameHeader) -> bool {
    &&& 0 <= o
    &&& header_of(b.skip(o)) is Some
    &&& g.goes_with(header_at(b, o))
    &&& o + header_at(b, o).frame_len == end
    &&& end <= b.len()
    &&& !tag_frame(peek(b, o, header_at(b, o)), header_at(b, o))
}

/// The place behind frame `k`: where the next one starts, or the end of the file.
pub open spec fn place(b: Seq<u8>, at: Seq<u64>, k: int) -> int {
    if k < at.len() {
        at[k] as int
    } else {
        b.len() as int
    }
}

/// From the first of the places `at` on, the file is audio frames of the stream of `g`, one
/// right behind the other.
pub open spec fn all_frames(b: Seq<u8>, at: Seq<u64>, g: FrameHeader) -> bool {
    forall|k: int| 0 <= k < at.len() ==> frame_until(b, (#[trigger] at[k]) as int, place(b, at, k + 1), g)
}

/// Such frames are all found, and nothing else.
proof fn lemma_frames_found(b: Seq<u8>, at: Seq<u64>, k: int, f: Found)
    requires
        0 <= k <= at.len(),
        b.len() <= u64::MAX,
        f.first is Some,
        all_frames(b, at, f.first->0),
    ensures
        ({
            let r = found_from(b, place(b, at, k), f);
            &&& r.first == f.first
            &&& r.offsets == f.offsets + at.skip(k)
            &&& r.audio_end == if k < at.len() {
                b.len() as int
            } else {
                f.audio_end
            }
        }),
    decreases at.len() - k,
{
    reveal(frame_until);
    let pos = place(b, at, k);
    if k == at.len() {
        assert(f.offsets + at.skip(k) =~= f.offsets);
    } else {
        let g = f.first->0;
        let next = place(b, at, k + 1);
        assert(frame_until(b, at[k] as int, next, g));
        let h = header_at(b, pos);
        lemma_header_range(b.skip(pos));
        if k + 1 < at.len() {
            assert(frame_until(b, at[k + 1] as int, place(b, at, k + 2), g));
        }
        assert(step_at(b, pos, f.first) == Step::Frame(h));
        let more = with_frame(b, f, pos, h);
        lemma_frames_found(b, at, k + 1, more);
        assert(more.offsets + at.skip(k + 1) =~= f.offsets + at.skip(k));
    }
}

/// The first 64 bytes of a frame are enough to tell a tag.
proof fn lemma_tag_in_front(frame: Seq<u8>, h: FrameHeader)
    requires
        frame.len() >= 64,
        tag_frame(frame, h),
    ensures
        tag_frame(frame.take(64), h),
{
    let t = frame.take(64);
    let off = 4 + h.side_len();
    assert(9 <= h.side_len() <= 32);
    assert(t.subrange(off, off + 4) =~= frame.subrange(off, off + 4));
    assert(t.subrange(36, 40) =~= frame.subrange(36, 40));
    if forall|i: int| 4 <= i < off ==> #[trigger] frame[i] == 0 {
        assert forall|i: int| 4 <= i < off implies #[trigger] t[i] == 0 by {
            assert(t[i] == frame[i]);
        }
    }
}

/// The sample rate tells the version.
proof fn lemma_rate_tells_version(x: Seq<u8>, y: Seq<u8>)
    requires
        header_of(x) is Some,
        header_of(y) is Some,
        header_of(x)->0.sample_rate == header_of(y)->0.sample_rate,
    ensures
        header_of(x)->0.goes_with(header_of(y)->0),
{
    lemma_rates(x);
    lemma_rates(y);
}

proof fn lemma_rates(x: Seq<u8>)
    requires
        header_of(x) is Some,
    ensures
        header_of(x)->0.version == MpegVersion::V1 <==> header_of(x)->0.sample_rate >= 32000,
        header_of(x)->0.version == MpegVersion::V2_5 <==> header_of(x)->0.sample_rate <= 12000,
{
    let h = header_of(x)->0;
    let sr = x[2] as int / 4 % 4;
    assert(0 <= sr <= 2);
    match h.version {
        MpegVersion::V1 => {
            assert(h.sample_rate == seq![44100u32, 48000, 32000][sr]);
        },
        MpegVersion::V2 => {
            assert(h.sample_rate == seq![22050u32, 24000, 16000][sr]);
        },
        MpegVersion::V2_5 => {
            assert(h.sample_rate == seq![11025u32, 12000, 8000][sr]);
        },
    }
}

/// A header is told by its four bytes.
proof fn lemma_same_header(x: Seq<u8>, y: Seq<u8>)
    requires
        x.len() >= 4,
        y.len() >= 4,
        x.take(4) == y.take(4),
    ensures
        header_of(x) == header_of(y),
{
    assert(x[0] == x.take(4)[0] && x[1] == x.take(4)[1] && x[2] == x.take(4)[2] && x[3] == x.take(4)[3]);
    assert(y[0] == y.take(4)[0] && y[1] == y.take(4)[1] && y[2] == y.take(4)[2] && y[3] == y.take(4)[3]);
}

/// A frame stays a frame where it is copied to.
proof fn lemma_copied_frame(b: Seq<u8>, from: int, to: int, front: Seq<u8>, o: int, end: int, g: FrameHeader)
    requires
        0 <= from <= o,
        end <= to <= b.len(),
        frame_until(b, o, end, g),
    ensures
        frame_until(
            front + b.subrange(from, to),
            front.len() + o - from,
            front.len() + end - from,
            g,
        ),
{
    reveal(frame_until);
    let out = front + b.subrange(from, to);
    let p = front.len() + o - from;
    let h = header_at(b, o);
    lemma_header_range(b.skip(o));
    assert(out.skip(p).take(4) =~= b.skip(o).take(4));
    lemma_same_header(out.skip(p), b.skip(o));
    assert(peek(out, p, h) =~= peek(b, o, h));
}

/// The frames of a file that a cut copies lie one right behind the other.
pub open spec fn without_gaps(index: Mp3Index, b: Seq<u8>, c: Cut) -> bool {
    forall|i: int| c.first <= i < c.first + c.frames ==> #[trigger] index.end_of(i) == index.offsets@[i] + header_at(
        b,
        index.offsets@[i] as int,
    ).frame_len
}

/// Every frame that a cut copies is a frame of the stream, inside what is copied.
proof fn lemma_source_frame(index: Mp3Index, b: Seq<u8>, c: Cut, g: FrameHeader, i: int)
    requires
        b.len() <= MAX_FILE,
        index.is_index_of(found_in(b)),
        0 <= c.first <= i < c.first + c.frames <= index.offsets@.len(),
        without_gaps(index, b, c),
        g.goes_with(header_at(b, index.offsets@[c.first] as int)),
    ensures
        frame_until(b, index.offsets@[i] as int, index.end_of(i) as int, g),
        index.offsets@[c.first] <= index.offsets@[i] <= index.end_of(i) <= index.end_of(c.first + c.frames - 1),
{
    reveal(frame_until);
    law_index_lists_the_audio_frames(b, index);
    let last = c.first + c.frames - 1;
    let o = index.offsets@[i] as int;
    let from = index.offsets@[c.first] as int;
    assert(audio_frame(b, o, index.sample_rate, index.samples_per_frame));
    assert(audio_frame(b, from, index.sample_rate, index.samples_per_frame));
    lemma_rate_tells_version(b.skip(from), b.skip(o));
    assert(index.end_of(i) == o + header_at(b, o).frame_len);
    if i < last {
        assert(index.offsets@[i + 1] <= index.offsets@[last]);
        assert(index.end_of(last) == index.offsets@[last] + header_at(b, index.offsets@[last] as int).frame_len);
    }
}

/// The first frame of a cut has the rate of the recording.
proof fn lemma_source_rate(index: Mp3Index, b: Seq<u8>, c: Cut)
    requires
        b.len() <= MAX_FILE,
        index.is_index_of(found_in(b)),
        0 <= c.first < index.offsets@.len(),
    ensures
        header_of(b.skip(index.offsets@[c.first] as int)) is Some,
        header_at(b, index.offsets@[c.first] as int).sample_rate == index.sample_rate,
        header_at(b, index.offsets@[c.first] as int).samples == index.samples_per_frame,
{
    law_index_lists_the_audio_frames(b, index);
    assert(audio_frame(b, index.offsets@[c.first] as int, index.sample_rate, index.samples_per_frame));
}

/// The first four bytes of what is copied are the header of its first frame.
proof fn lemma_template(index: Mp3Index, b: Seq<u8>, c: Cut)
    requires
        b.len() <= MAX_FILE,
        index.is_index_of(found_in(b)),
        0 <= c.first,
        0 < c.frames,
        c.first + c.frames <= index.offsets@.len(),
        without_gaps(index, b, c),
        copied(index, b, c) is Ok,
    ensures
        copied(index, b, c)->Ok_0.bytes.len() >= 24,
        copied(index, b, c)->Ok_0.bytes.take(4).len() == 4,
        header_of(copied(index, b, c)->Ok_0.bytes.take(4)) == header_of(b.skip(index.offsets@[c.first] as int)),
{
    let g = header_at(b, index.offsets@[c.first] as int);
    lemma_source_frame(index, b, c, g, c.first);
    reveal(frame_until);
    let from = index.offsets@[c.first] as int;
    let bytes = copied(index, b, c)->Ok_0.bytes;
    lemma_header_range(b.skip(from));
    assert(bytes.take(4).take(4) =~= b.skip(from).take(4));
    lemma_same_header(bytes.take(4), b.skip(from));
}

/// Frames one right behind the other stay so where they are copied to.
proof fn lemma_copied_frames(b: Seq<u8>, at: Seq<u64>, from: int, to: int, front: Seq<u8>, g: FrameHeader)
    requires
        0 <= from <= to <= b.len(),
        front.len() + to <= u64::MAX,
        forall|k: int| 0 <= k < at.len() ==> from <= #[trigger] at[k] <= to,
        forall|k: int| 0 <= k < at.len() ==> frame_until(
            b,
            (#[trigger] at[k]) as int,
            if k + 1 < at.len() {
                at[k + 1] as int
            } else {
                to
            },
            g,
        ),
    ensures
        all_frames(front + b.subrange(from, to), moved(at, front.len() - from), g),
{
    let out = front + b.subrange(from, to);
    let now = moved(at, front.len() - from);
    assert forall|k: int| 0 <= k < now.len() implies frame_until(out, (#[trigger] now[k]) as int, place(out, now, k + 1), g) by {
        let end = if k + 1 < at.len() {
            at[k + 1] as int
        } else {
            to
        };
        assert(from <= at[k] <= to);
        lemma_copied_frame(b, from, to, front, at[k] as int, end, g);
        if k + 1 < at.len() {
            assert(from <= at[k + 1] <= to);
        }
    }
}

/// One more frame in front of others.
proof fn lemma_one_in_front(b: Seq<u8>, first: u64, at: Seq<u64>, g: FrameHeader)
    requires
        all_frames(b, at, g),
        frame_until(b, first as int, place(b, at, 0), g),
    ensures
        all_frames(b, seq![first] + at, g),
{
    let all = seq![first] + at;
    assert forall|k: int| 0 <= k < all.len() implies frame_until(b, (#[trigger] all[k]) as int, place(b, all, k + 1), g) by {
        if k > 0 {
            assert(all[k] == at[k - 1]);
            assert(place(b, all, k + 1) == place(b, at, k));
        } else {
            assert(place(b, all, 1) == place(b, at, 0));
        }
    }
}

/// Where the frames are that a cut copies: they fill what is copied.
proof fn lemma_source_chain(index: Mp3Index, b: Seq<u8>, c: Cut, g: FrameHeader)
    requires
        b.len() <= MAX_FILE,
        index.is_index_of(found_in(b)),
        0 <= c.first,
        0 < c.frames,
        c.first + c.frames <= index.offsets@.len(),
        without_gaps(index, b, c),
        g.goes_with(header_at(b, index.offsets@[c.first] as int)),
    ensures
        ({
            let at = index.offsets@.subrange(c.first, c.first + c.frames);
            let to = index.end_of(c.first + c.frames - 1) as int;
            &&& at[0] <= to
            &&& forall|k: int| 0 <= k < at.len() ==> at[0] <= #[trigger] at[k] <= to
            &&& forall|k: int| 0 <= k < at.len() ==> frame_until(
                b,
                (#[trigger] at[k]) as int,
                if k + 1 < at.len() {
                    at[k + 1] as int
                } else {
                    to
                },
                g,
            )
        }),
{
    let at = index.offsets@.subrange(c.first, c.first + c.frames);
    let to = index.end_of(c.first + c.frames - 1) as int;
    lemma_source_frame(index, b, c, g, c.first);
    assert forall|k: int| 0 <= k < at.len() implies at[0] <= #[trigger] at[k] <= to && frame_until(
        b,
        at[k] as int,
        if k + 1 < at.len() {
            at[k + 1] as int
        } else {
            to
        },
        g,
    ) by {
        lemma_source_frame(index, b, c, g, c.first + k);
    }
}

/// The frames that a cut copies, behind something else.
proof fn lemma_own_frames(b: Seq<u8>, at: Seq<u64>, to: int, own: Audio, front: Seq<u8>, g: FrameHeader)
    requires
        at.len() > 0,
        at[0] <= to <= b.len() <= MAX_FILE,
        front.len() <= 0x3000_0000,
        forall|k: int| 0 <= k < at.len() ==> at[0] <= #[trigger] at[k] <= to,
        forall|k: int| 0 <= k < at.len() ==> frame_until(
            b,
            (#[trigger] at[k]) as int,
            if k + 1 < at.len() {
                at[k + 1] as int
            } else {
                to
            },
            g,
        ),
        own.offsets == moved(at, -(at[0] as int)),
        own.bytes == b.subrange(at[0] as int, to),
    ensures
        all_frames(front + own.bytes, moved(own.offsets, front.len() as int), g),
        own.offsets.len() == at.len(),
        own.offsets[0] == 0,
        own.bytes.len() <= b.len(),
        forall|k: int| 0 <= k < own.offsets.len() ==> (#[trigger] own.offsets[k]) <= own.bytes.len(),
{
    let from = at[0] as int;
    lemma_copied_frames(b, at, from, to, front, g);
    assert forall|k: int| 0 <= k < at.len() implies (#[trigger] own.offsets[k]) == at[k] - from by {
        assert(from <= at[k] <= to);
    }
    let x = moved(own.offsets, front.len() as int);
    let y = moved(at, front.len() - from);
    assert(x =~= y) by {
        assert forall|k: int| 0 <= k < x.len() implies x[k] == y[k] by {
            assert(own.offsets[k] == at[k] - from);
        }
    }
}

/// The carrier is a frame of the stream where it is written.
proof fn lemma_lead_frame(template: Seq<u8>, reservoir: Seq<u8>, front: Seq<u8>, rest: Seq<u8>, g: FrameHeader)
    requires
        template.len() == 4,
        roomy(template, reservoir.len() as int) is Ok,
        g.goes_with(header_of(template)->0),
        ({
            let lead = carrier(roomy(template, reservoir.len() as int)->Ok_0, reservoir);
            !tag_frame(peek(lead + rest, 0, header_of(lead + rest)->0), header_of(lead + rest)->0)
        }),
    ensures
        ({
            let lead = carrier(roomy(template, reservoir.len() as int)->Ok_0, reservoir);
            &&& frame_until(front + (lead + rest), front.len() as int, (front.len() + lead.len()) as int, g)
            &&& 24 <= lead.len() <= 1441
        }),
{
    reveal(frame_until);
    let lead = carrier(roomy(template, reservoir.len() as int)->Ok_0, reservoir);
    let bytes = lead + rest;
    let out = front + bytes;
    let p = front.len() as int;
    lemma_roomy(template, reservoir.len() as int);
    lemma_roomy_goes_with(template, reservoir.len() as int);
    law_carrier_carries(template, reservoir);
    lemma_header_range(lead);
    assert(out.skip(p).take(4) =~= lead.take(4));
    lemma_same_header(out.skip(p), lead);
    assert(bytes.take(4) =~= lead.take(4));
    lemma_same_header(bytes, lead);
    let h = header_of(lead)->0;
    assert(peek(out, p, h) =~= peek(bytes, 0, h));
}

/// Behind anything of up to a few hundred megabytes, the frames of a track are all frames, one
/// right behind the other.
proof fn lemma_written_frames(index: Mp3Index, b: Seq<u8>, c: Cut, front: Seq<u8>, g: FrameHeader)
    requires
        b.len() <= MAX_FILE,
        index.is_index_of(found_in(b)),
        0 <= c.first,
        0 < c.frames,
        c.first + c.frames <= index.offsets@.len(),
        without_gaps(index, b, c),
        front.len() <= 0x2000_0000,
        copied(index, b, c) is Ok,
        with_carrier(index, b, c, copied(index, b, c)->Ok_0) is Ok,
        g.goes_with(header_at(b, index.offsets@[c.first] as int)),
        c.first > 0 ==> !tag_frame(
            peek(written(index, b, c).bytes, 0, header_of(written(index, b, c).bytes)->0),
            header_of(written(index, b, c).bytes)->0,
        ),
    ensures
        ({
            let a = written(index, b, c);
            let at = moved(a.offsets, front.len() as int);
            &&& all_frames(front + a.bytes, at, g)
            &&& at.len() == c.frames + if c.first > 0 {
                1int
            } else {
                0
            }
            &&& at[0] == front.len()
            &&& a.bytes.len() <= b.len() + 1441
        }),
{
    let own = copied(index, b, c)->Ok_0;
    let a = written(index, b, c);
    let at = moved(a.offsets, front.len() as int);
    let source = index.offsets@.subrange(c.first, c.first + c.frames);
    let to = index.end_of(c.first + c.frames - 1) as int;
    lemma_source_chain(index, b, c, g);
    if c.first == 0 {
        lemma_own_frames(b, source, to, own, front, g);
        assert(a == own);
        assert(own.offsets[0] == 0);
    } else {
        let template = own.bytes.take(4);
        let room = reservoir_room(template);
        let reservoir = last_bytes(index.stream_before(b, c.first, room)->Ok_0, room);
        let lead = carrier(roomy(template, room)->Ok_0, reservoir);
        lemma_template(index, b, c);
        assert(reservoir.len() == room);
        assert(a.bytes == lead + own.bytes);
        lemma_lead_frame(template, reservoir, front, own.bytes, g);
        lemma_own_frames(b, source, to, own, front + lead, g);
        assert(front + (lead + own.bytes) =~= front + lead + own.bytes);
        let rest = moved(own.offsets, (front.len() + lead.len()) as int);
        assert(own.offsets[0] == 0);
        assert(rest[0] == front.len() + lead.len());
        lemma_one_in_front(front + a.bytes, front.len() as u64, rest, g);
        assert(at =~= seq![front.len() as u64] + rest) by {
            assert forall|k: int| 0 <= k < at.len() implies at[k] == (seq![front.len() as u64] + rest)[k] by {
                if k > 0 {
                    assert(own.offsets[k - 1] <= own.bytes.len());
                    assert(a.offsets[k] == own.offsets[k - 1] + lead.len());
                }
            }
        }
    }
}

/// The frames of a track as they are written: those of the cut, with the carrier in front where
/// there is one.
pub open spec fn written(index: Mp3Index, b: Seq<u8>, c: Cut) -> Audio {
    with_carrier(index, b, c, copied(index, b, c)->Ok_0)->Ok_0
}

/// Behind the tags and a frame that is one, the frames are all that is found.
proof fn lemma_tags_passed_over(t: Seq<u8>, info: Seq<u8>, bytes: Seq<u8>, at: Seq<u64>, g: FrameHeader)
    requires
        crate::mp3index::id3v2_size(t + info + bytes) == t.len(),
        header_of(info) == Some(g),
        info.len() == g.frame_len,
        info.len() >= 64,
        tag_frame(info, g),
        (t + info + bytes).len() <= u64::MAX,
        all_frames(t + info + bytes, at, g),
        at.len() > 0,
        at[0] == t.len() + info.len(),
    ensures
        found_in(t + info + bytes).first == Some(g),
        found_in(t + info + bytes).offsets == at,
        found_in(t + info + bytes).audio_end == (t + info + bytes).len(),
{
    let out = t + info + bytes;
    let pos = t.len() as int;
    assert(out.skip(pos).take(4) =~= info.take(4));
    lemma_same_header(out.skip(pos), info);
    assert(peek(out, pos, g) =~= info.take(64));
    lemma_tag_in_front(info, g);
    assert(frame_until(out, at[0] as int, place(out, at, 1), g));
    assert(step_at(out, pos, None) == Step::Frame(g)) by {
        reveal(frame_until);
    }
    let seen = with_frame(out, nothing_found(pos), pos, g);
    lemma_frames_found(out, at, 0, seen);
    assert(seen.offsets + at.skip(0) =~= at);
}

/// The Info frame in front of the frames of a track.
pub open spec fn info_of(index: Mp3Index, b: Seq<u8>, c: Cut) -> Seq<u8> {
    let template = copied(index, b, c)->Ok_0.bytes.take(4);
    let h = roomy(template, INFO_ROOM as int)->Ok_0;
    let a = written(index, b, c);
    info_bytes(
        h,
        side_for(template),
        info_tag(
            index.min_kbps != index.max_kbps,
            len_for(h),
            a.offsets,
            a.bytes,
            c.enc_delay as u64,
            c.enc_padding as u64,
        ),
    )
}

/// It is a tag that belongs to the stream of the recording.
proof fn lemma_info_frame(index: Mp3Index, b: Seq<u8>, c: Cut)
    requires
        b.len() <= MAX_FILE,
        index.is_index_of(found_in(b)),
        0 <= c.first,
        0 < c.frames,
        c.first + c.frames <= index.offsets@.len(),
        without_gaps(index, b, c),
        copied(index, b, c) is Ok,
        roomy(copied(index, b, c)->Ok_0.bytes.take(4), INFO_ROOM as int) is Ok,
    ensures
        ({
            let info = info_of(index, b, c);
            let g = header_of(info)->0;
            &&& header_of(info) is Some
            &&& g.goes_with(header_at(b, index.offsets@[c.first] as int))
            &&& g.sample_rate == index.sample_rate
            &&& g.samples == index.samples_per_frame
            &&& info.len() == g.frame_len
            &&& 64 <= info.len() <= 1441
            &&& tag_frame(info, g)
        }),
{
    let template = copied(index, b, c)->Ok_0.bytes.take(4);
    let a = written(index, b, c);
    let first = index.offsets@[c.first] as int;
    lemma_source_rate(index, b, c);
    lemma_template(index, b, c);
    lemma_roomy_goes_with(template, INFO_ROOM as int);
    lemma_roomy(template, INFO_ROOM as int);
    law_info_frame_is_a_tag(
        template,
        index.min_kbps != index.max_kbps,
        a.offsets,
        a.bytes,
        c.enc_delay as u64,
        c.enc_padding as u64,
    );
    lemma_same_samples(roomy(template, INFO_ROOM as int)->Ok_0, b.skip(first));
}

/// The parts of the file of a track.
proof fn lemma_track_parts(index: Mp3Index, b: Seq<u8>, c: Cut, tags: Tags)
    requires
        track_bytes(index, b, c, tags) is Ok,
    ensures
        copied(index, b, c) is Ok,
        with_carrier(index, b, c, copied(index, b, c)->Ok_0) is Ok,
        roomy(copied(index, b, c)->Ok_0.bytes.take(4), INFO_ROOM as int) is Ok,
        track_bytes(index, b, c, tags)->Ok_0 == id3_tag(tags) + info_of(index, b, c) + written(index, b, c).bytes,
        id3_tag(tags).len() == 10 + id3_frames(tags).len(),
{
}

/// An exported track reads back: the index of its file lists just the frames that were written,
/// the carrier and the copies of the recording's own, at the recording's rate and up to the end
/// of the file; the tags and the Info frame in front are passed over. This holds of recordings
/// whose frames lie one right behind the other, and unless the bytes in the carrier happen to
/// look like a tag.
pub proof fn law_exported_tracks_read_back(index: Mp3Index, b: Seq<u8>, c: Cut, tags: Tags)
    requires
        b.len() <= MAX_FILE,
        index.is_index_of(found_in(b)),
        0 <= c.first,
        0 < c.frames,
        c.first + c.frames <= index.offsets@.len(),
        without_gaps(index, b, c),
        id3_frames(tags).len() < 0x1000_0000,
        track_bytes(index, b, c, tags) is Ok,
        c.first > 0 ==> !tag_frame(
            peek(written(index, b, c).bytes, 0, header_of(written(index, b, c).bytes)->0),
            header_of(written(index, b, c).bytes)->0,
        ),
    ensures
        ({
            let out = track_bytes(index, b, c, tags)->Ok_0;
            let a = written(index, b, c);
            let front = out.len() - a.bytes.len();
            let f = found_in(out);
            &&& front >= 0 && out.skip(front) == a.bytes
            &&& f.offsets == moved(a.offsets, front)
            &&& f.offsets.len() == c.frames + if c.first > 0 {
                1int
            } else {
                0
            }
            &&& f.audio_end == out.len()
            &&& f.first is Some
            &&& f.first->0.sample_rate == index.sample_rate
            &&& f.first->0.samples == index.samples_per_frame
        }),
{
    let a = written(index, b, c);
    let out = track_bytes(index, b, c, tags)->Ok_0;
    let t = id3_tag(tags);
    let info = info_of(index, b, c);
    let g = header_of(info)->0;
    lemma_track_parts(index, b, c, tags);
    lemma_info_frame(index, b, c);
    lemma_written_frames(index, b, c, t + info, g);
    lemma_read_back(t, info, a.bytes, moved(a.offsets, (t + info).len() as int), g, tags);
}

/// The same, of the parts of the file.
proof fn lemma_read_back(t: Seq<u8>, info: Seq<u8>, bytes: Seq<u8>, at: Seq<u64>, g: FrameHeader, tags: Tags)
    requires
        t == id3_tag(tags),
        id3_frames(tags).len() < 0x1000_0000,
        header_of(info) == Some(g),
        info.len() == g.frame_len,
        info.len() >= 64,
        tag_frame(info, g),
        (t + info + bytes).len() <= u64::MAX,
        all_frames(t + info + bytes, at, g),
        at.len() > 0,
        at[0] == (t + info).len(),
    ensures
        found_in(t + info + bytes).first == Some(g),
        found_in(t + info + bytes).offsets == at,
        found_in(t + info + bytes).audio_end == (t + info + bytes).len(),
        (t + info + bytes).skip((t + info).len() as int) == bytes,
{
    law_id3_size_is_right(tags, info + bytes);
    assert(t + info + bytes =~= t + (info + bytes));
    assert((t + info + bytes).skip((t + info).len() as int) =~= bytes);
    lemma_tags_passed_over(t, info, bytes, at, g);
}

/// Headers of one stream have as many samples.
proof fn lemma_same_samples(x: Seq<u8>, y: Seq<u8>)
    requires
        header_of(x) is Some,
        header_of(y) is Some,
        header_of(x)->0.goes_with(header_of(y)->0),
    ensures
        header_of(x)->0.samples == header_of(y)->0.samples,
{
}

} // verus!

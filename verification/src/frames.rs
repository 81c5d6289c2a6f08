//! What cutting MP3 frames out of a recording promises: what a decoder is fed, and what the file
//! of a track holds.
use vstd::prelude::*;
use crate::bytes::{be_bytes, zeros};
use crate::mp3cut::{
    carrier, copied, copied_end, cut_for, first_copied, info_bytes, info_tag, lame_field, len_for, reservoir_room, roomy,
    toc_entry, track_bytes, with_carrier, Cut,
};
use crate::mp3index::{
    crc_len, data_begin, header_of, last_bytes, FrameHeader, Mp3Index, MpegVersion,
};
use crate::tags::Tags;

verus! {

/// How many bytes of audio data frame `i` holds, if the file has it.
pub open spec fn data_in(index: Mp3Index, b: Seq<u8>, i: int) -> int {
    match index.side(b, i) {
        Ok((_, own)) => own,
        Err(_) => 0,
    }
}

/// How many bytes of audio data the frames `i..j` hold.
pub open spec fn data_between(index: Mp3Index, b: Seq<u8>, i: int, j: int) -> int
    decreases j - i,
{
    if i >= j {
        0
    } else {
        data_between(index, b, i, j - 1) + data_in(index, b, j - 1)
    }
}

/// Frame `j` finds all the bytes that it reaches back for in the frames from `i` on, or there is
/// no earlier frame.
pub open spec fn finds_its_data(index: Mp3Index, b: Seq<u8>, i: int, j: int) -> bool {
    &&& index.side(b, j) is Ok
    &&& i == 0 || index.side(b, j)->Ok_0.0 <= data_between(index, b, i, j)
}

/// A frame comes out as in a full decode: decoding starts two frames before it or earlier, and
/// all three find the bytes that they reach back for.
pub proof fn law_decoding_starts_early_enough(index: Mp3Index, b: Seq<u8>, k: int)
    requires
        index.offsets@.len() > 0,
        0 <= k,
        index.start_for(b, k) is Ok,
    ensures
        ({
            let i = index.start_for(b, k)->Ok_0;
            let last = index.offsets@.len() - 1;
            let top = if k < last {
                k
            } else {
                last
            };
            &&& 0 <= i
            &&& i == 0 || i <= top - 2
            &&& forall|j: int| 0 <= j && top - 2 <= j <= top ==> #[trigger] finds_its_data(index, b, i, j)
        }),
{
    let last = index.offsets@.len() - 1;
    let top = if k < last {
        k
    } else {
        last
    };
    let lo = if top < 2 {
        0
    } else {
        top - 2
    };
    lemma_earliest(index, b, lo, lo, top);
}

proof fn lemma_earliest(index: Mp3Index, b: Seq<u8>, start: int, j: int, k: int)
    requires
        0 <= start,
        0 <= j,
        index.earliest(b, start, j, k) is Ok,
    ensures
        0 <= index.earliest(b, start, j, k)->Ok_0 <= start,
        forall|m: int| j <= m <= k ==> #[trigger] finds_its_data(index, b, index.earliest(b, start, j, k)->Ok_0, m),
    decreases k - j + 1,
{
    if j <= k {
        let i = index.reservoir_from(b, j)->Ok_0;
        lemma_reservoir(index, b, j);
        let next = if i < start {
            i
        } else {
            start
        };
        lemma_earliest(index, b, next, j + 1, k);
        let r = index.earliest(b, start, j, k)->Ok_0;
        assert forall|m: int| j <= m <= k implies #[trigger] finds_its_data(index, b, r, m) by {
            if m == j {
                lemma_more_data(index, b, r, i, j);
            }
        }
    }
}

proof fn lemma_reservoir(index: Mp3Index, b: Seq<u8>, j: int)
    requires
        0 <= j,
        index.reservoir_from(b, j) is Ok,
    ensures
        0 <= index.reservoir_from(b, j)->Ok_0 <= j,
        finds_its_data(index, b, index.reservoir_from(b, j)->Ok_0, j),
{
    reveal(Mp3Index::reservoir_from);
    lemma_reach(index, b, j, index.side(b, j)->Ok_0.0);
}

proof fn lemma_reach(index: Mp3Index, b: Seq<u8>, i: int, back: int)
    requires
        0 <= i,
        index.reach(b, i, back) is Ok,
    ensures
        0 <= index.reach(b, i, back)->Ok_0 <= i,
        index.reach(b, i, back)->Ok_0 == 0 || back <= data_between(index, b, index.reach(b, i, back)->Ok_0, i),
    decreases i,
{
    if back > 0 && i > 0 {
        let own = index.side(b, i - 1)->Ok_0.1;
        if own >= back {
            assert(data_between(index, b, i - 1, i - 1) == 0);
        } else {
            lemma_reach(index, b, i - 1, back - own);
        }
    }
}

/// Starting earlier leaves no less to reach back for.
proof fn lemma_more_data(index: Mp3Index, b: Seq<u8>, r: int, i: int, j: int)
    requires
        0 <= r <= i <= j,
    ensures
        data_between(index, b, i, j) <= data_between(index, b, r, j),
        data_between(index, b, i, j) >= 0,
    decreases j - r,
{
    if r < j {
        if i < j {
            lemma_more_data(index, b, r, i, j - 1);
        } else {
            lemma_more_data(index, b, r, j - 1, j - 1);
        }
    }
}

/// Where the audio data of a frame starts is told by the first nine bits of the side information
/// in MPEG-1 and by the first eight in MPEG-2 and 2.5. It stands behind the header, and behind a
/// checksum of two bytes where the protection bit is clear.
pub proof fn law_data_begins_where_the_side_information_says(f: Seq<u8>, h: FrameHeader)
    ensures
        ({
            let at = if f[1] as int % 2 == 1 {
                4int
            } else {
                6
            };
            &&& h.version == MpegVersion::V1 ==> data_begin(f, h) == (f[at] * 256 + f[at + 1]) / 128
            &&& h.version != MpegVersion::V1 ==> data_begin(f, h) == f[at]
        }),
{
    let at = 4 + crc_len(f[1]);
    let (x, y) = (f[at] as int, f[at + 1] as int);
    assert((x * 256 + y) / 128 == x * 2 + y / 128);
}

/// A track gets every frame that holds a sample of it, and two frames in front to warm the
/// decoder up where the recording has them.
pub proof fn law_frames_of_a_track(spf: int, n: int, start: int, end: int)
    requires
        0 < spf,
        0 <= start < end,
        start < n * spf,
    ensures
        ({
            let c = cut_for(spf, n, start, end);
            &&& c.first == 0 && start < 3 * spf || c.first > 0 && (c.first + 2) * spf <= start < (c.first + 3) * spf
            &&& c.first + c.frames <= n
            &&& end <= n * spf ==> end <= (c.first + c.frames) * spf < end + spf
            &&& end > n * spf ==> c.first + c.frames == n
        }),
{
    let k = start / spf;
    let last = (end + spf - 1) / spf;
    let first = first_copied(spf, start);
    assert(k * spf <= start < k * spf + spf && 0 <= k < n) by (nonlinear_arith)
        requires
            0 < spf,
            0 <= start < n * spf,
            k == start / spf,
    ;
    assert(last * spf < end + spf && end <= last * spf) by (nonlinear_arith)
        requires
            0 < spf,
            last == (end + spf - 1) / spf,
    ;
    if first > 0 {
        assert((first + 2) * spf == k * spf && (first + 3) * spf == k * spf + spf) by (nonlinear_arith)
            requires
                first + 2 == k,
        ;
    } else {
        assert(k * spf <= 2 * spf) by (nonlinear_arith)
            requires
                k <= 2,
                0 < spf,
        ;
    }
    if end <= n * spf {
        assert(last <= n) by (nonlinear_arith)
            requires
                last * spf < end + spf,
                end <= n * spf,
                0 < spf,
        ;
    } else {
        assert(last > n) by (nonlinear_arith)
            requires
                end <= last * spf,
                end > n * spf,
                0 < spf,
        ;
    }
    assert(copied_end(spf, n, end) == if last < n {
        last
    } else {
        n
    });
}

/// What the Info frame tells a player: how many frames and bytes the file has, where each
/// hundredth of them lies, and how many samples to drop at the start and at the end, 12 bits each.
#[verifier::spinoff_prover]
#[verifier::rlimit(60)]
pub proof fn law_info_frame_tells_the_trim(
    h: Seq<u8>,
    side: int,
    vbr: bool,
    offsets: Seq<u64>,
    audio: Seq<u8>,
    enc_delay: u64,
    enc_padding: u64,
)
    requires
        h.len() == 4,
        0 <= side,
        header_of(h) is Some,
        len_for(h) >= 4 + side + 156,
        0 < offsets.len() < 0x1_0000_0000,
        len_for(h) + audio.len() < 0x1_0000_0000,
        enc_delay <= 4095,
        enc_padding <= 4095,
    ensures
        ({
            let f = info_bytes(h, side, info_tag(vbr, len_for(h), offsets, audio, enc_delay, enc_padding));
            let at = 4 + side;
            &&& f.subrange(at, at + 4) == if vbr {
                seq![0x58u8, 0x69, 0x6E, 0x67]
            } else {
                seq![0x49u8, 0x6E, 0x66, 0x6F]
            }
            &&& f.subrange(at + 4, at + 8) == seq![0u8, 0, 0, 0x0F]
            &&& ((f[at + 8] * 256 + f[at + 9]) * 256 + f[at + 10]) * 256 + f[at + 11] == offsets.len()
            &&& ((f[at + 12] * 256 + f[at + 13]) * 256 + f[at + 14]) * 256 + f[at + 15] == f.len() + audio.len()
            &&& forall|i: int| 0 <= i < 100 ==> #[trigger] f[at + 16 + i] == toc_entry(
                len_for(h),
                offsets,
                len_for(h) + audio.len(),
                i,
            )
            &&& f.subrange(at + 120, at + 124) == seq![0x4Cu8, 0x41, 0x4D, 0x45]
            &&& f[at + 141] * 16 + f[at + 142] as int / 16 == enc_delay
            &&& f[at + 142] as int % 16 * 256 + f[at + 143] == enc_padding
            &&& f.len() == len_for(h)
        }),
{
    let tag = info_tag(vbr, len_for(h), offsets, audio, enc_delay, enc_padding);
    let total = len_for(h) + audio.len();
    let trim = lame_field(enc_delay) * 4096 + lame_field(enc_padding);
    let (d, p) = (enc_delay as int, enc_padding as int);
    assert(trim == d * 4096 + p);
    let front = h + zeros(side) + tag;
    let f = info_bytes(h, side, tag);
    let at = 4 + side;
    lemma_four_bytes(0x0F);
    lemma_four_bytes(offsets.len());
    lemma_four_bytes(total as nat);
    lemma_four_bytes(0);
    lemma_three_bytes(trim as nat);
    lemma_two_bytes(crate::mp3cut::crc_from(0, audio) as nat);
    lemma_two_bytes(crate::mp3cut::crc_from(0, front) as nat);
    assert(tag.len() == 154);
    assert forall|i: int| 0 <= i < 154 implies #[trigger] f[at + i] == tag[i] by {
        assert(f[at + i] == front[at + i]);
    }
    assert(f[at + 0] == tag[0] && f[at + 1] == tag[1] && f[at + 2] == tag[2] && f[at + 3] == tag[3]);
    assert(f.subrange(at, at + 4) =~= if vbr {
        seq![0x58u8, 0x69, 0x6E, 0x67]
    } else {
        seq![0x49u8, 0x6E, 0x66, 0x6F]
    });
    assert(f[at + 4] == tag[4] && f[at + 5] == tag[5] && f[at + 6] == tag[6] && f[at + 7] == tag[7]);
    assert(f.subrange(at + 4, at + 8) =~= seq![0u8, 0, 0, 0x0F]);
    assert(f[at + 8] == tag[8] && f[at + 9] == tag[9] && f[at + 10] == tag[10] && f[at + 11] == tag[11]);
    assert(f[at + 12] == tag[12] && f[at + 13] == tag[13] && f[at + 14] == tag[14] && f[at + 15] == tag[15]);
    assert forall|i: int| 0 <= i < 100 implies #[trigger] f[at + 16 + i] == toc_entry(len_for(h), offsets, total, i) by {
        assert(f[at + (16 + i)] == tag[16 + i]);
    }
    assert(f[at + 120] == tag[120] && f[at + 121] == tag[121] && f[at + 122] == tag[122] && f[at + 123] == tag[123]);
    assert(f.subrange(at + 120, at + 124) =~= seq![0x4Cu8, 0x41, 0x4D, 0x45]);
    assert(f[at + 141] == tag[141] && f[at + 142] == tag[142] && f[at + 143] == tag[143]);
    lemma_trim_bits(d, p);
}

proof fn lemma_trim_bits(d: int, p: int)
    requires
        0 <= d <= 4095,
        0 <= p <= 4095,
    ensures
        (d * 4096 + p) / 256 / 256 % 256 * 16 + (d * 4096 + p) / 256 % 256 / 16 == d,
        (d * 4096 + p) / 256 % 256 % 16 * 256 + (d * 4096 + p) % 256 == p,
{
    let v = d * 4096 + p;
    assert(v / 256 == d * 16 + p / 256);
    assert(v / 256 / 256 == d / 16);
    assert((d * 16 + p / 256) % 256 == d % 16 * 16 + p / 256);
}

proof fn lemma_four_bytes(v: nat)
    ensures
        be_bytes(v, 4) == seq![
            (v / 256 / 256 / 256 % 256) as u8,
            (v / 256 / 256 % 256) as u8,
            (v / 256 % 256) as u8,
            (v % 256) as u8,
        ],
        v < 0x1_0000_0000 ==> ((v / 256 / 256 / 256 % 256 * 256 + v / 256 / 256 % 256) * 256 + v / 256 % 256) * 256 + v % 256
            == v,
{
    reveal_with_fuel(be_bytes, 5);
    assert(be_bytes(v, 4) =~= seq![
        (v / 256 / 256 / 256 % 256) as u8,
        (v / 256 / 256 % 256) as u8,
        (v / 256 % 256) as u8,
        (v % 256) as u8,
    ]);
}

proof fn lemma_three_bytes(v: nat)
    ensures
        be_bytes(v, 3) == seq![(v / 256 / 256 % 256) as u8, (v / 256 % 256) as u8, (v % 256) as u8],
{
    reveal_with_fuel(be_bytes, 4);
    assert(be_bytes(v, 3) =~= seq![(v / 256 / 256 % 256) as u8, (v / 256 % 256) as u8, (v % 256) as u8]);
}

proof fn lemma_two_bytes(v: nat)
    ensures
        be_bytes(v, 2).len() == 2,
{
    reveal_with_fuel(be_bytes, 3);
}

/// The table of contents: entry `i` is the place of the frame at `i` percent of all frames, in
/// 256ths of the file.
pub proof fn law_table_of_contents_points_at_frames(frame_len: int, offsets: Seq<u64>, total: int, i: int)
    requires
        0 <= i < 100,
        0 < offsets.len(),
        0 <= frame_len,
        0 < total,
    ensures
        ({
            let at = frame_len + offsets[i * offsets.len() / 100];
            let e = toc_entry(frame_len, offsets, total, i);
            &&& 0 <= i * offsets.len() / 100 < offsets.len()
            &&& e < 255 ==> e * total <= at * 256 < (e + 1) * total
            &&& e == 255 ==> 255 * total <= at * 256
        }),
{
    let n = offsets.len() as int;
    let k = i * n / 100;
    assert(0 <= k < n) by (nonlinear_arith)
        requires
            k == i * n / 100,
            0 <= i < 100,
            0 < n,
    ;
    let at = frame_len + offsets[k];
    let e = at * 256 / total;
    assert(e * total <= at * 256 < (e + 1) * total) by (nonlinear_arith)
        requires
            e == at * 256 / total,
            total > 0,
    ;
    assert(e >= 0) by (nonlinear_arith)
        requires
            e == at * 256 / total,
            at >= 0,
            total > 0,
    ;
    if e > 255 {
        assert(255 * total <= e * total) by (nonlinear_arith)
            requires
                255 <= e,
                total > 0,
        ;
    }
}

/// All the audio data of the first `n` frames, where the file has them.
pub open spec fn all_data(index: Mp3Index, b: Seq<u8>, n: int) -> Seq<u8>
    decreases n,
{
    if n <= 0 {
        Seq::empty()
    } else {
        all_data(index, b, n - 1) + match index.main_data(b, n - 1) {
            Ok(d) => d,
            Err(_) => Seq::empty(),
        }
    }
}

/// The file of a track ends with the recording's own bytes, from its first copied frame up to the
/// end of its last: no frame is changed. Right in front of them, where a carrier is needed, stand
/// the bytes of audio data that come before them in the recording, with zeros in front of those
/// where there are fewer.
pub proof fn law_tracks_hold_the_recordings_frames(index: Mp3Index, b: Seq<u8>, c: Cut, tags: Tags)
    requires
        0 <= c.first,
        track_bytes(index, b, c, tags) is Ok,
        index.offsets@[c.first] <= index.end_of(c.first + c.frames - 1),
    ensures
        ({
            let out = track_bytes(index, b, c, tags)->Ok_0;
            let (from, to) = (index.offsets@[c.first] as int, index.end_of(c.first + c.frames - 1) as int);
            let room = reservoir_room(b.subrange(from, to).take(4));
            let stream = zeros(room) + all_data(index, b, c.first);
            let at = out.len() - (to - from);
            &&& to <= b.len()
            &&& 0 <= at
            &&& out.skip(at) == b.subrange(from, to)
            &&& c.first > 0 ==> at >= room && out.subrange(at - room, at) == stream.skip(stream.len() - room)
        }),
{
    let out = track_bytes(index, b, c, tags)->Ok_0;
    let own = copied(index, b, c)->Ok_0;
    let a = with_carrier(index, b, c, own)->Ok_0;
    let (from, to) = (index.offsets@[c.first] as int, index.end_of(c.first + c.frames - 1) as int);
    let at = out.len() - (to - from);
    let front = out.len() - a.bytes.len();
    assert(out.skip(front) =~= a.bytes);
    if c.first > 0 {
        let room = reservoir_room(own.bytes.take(4));
        let s = index.stream_before(b, c.first, room)->Ok_0;
        let h = roomy(own.bytes.take(4), room)->Ok_0;
        let tail = last_bytes(s, room);
        lemma_stream_is_the_end(index, b, c.first, room);
        assert(tail.len() == room);
        let f = carrier(h, tail);
        assert(a.bytes =~= f + own.bytes);
        assert(a.bytes.skip(f.len() as int) =~= own.bytes);
        assert(out.skip(at) =~= own.bytes) by {
            assert(out.skip(at) =~= out.skip(front).skip(f.len() as int));
        }
        assert(f.skip(f.len() - room) =~= tail);
        assert forall|i: int| 0 <= i < room implies out[at - room + i] == #[trigger] tail[i] by {
            assert(out.skip(front)[f.len() - room + i] == a.bytes[f.len() - room + i]);
            assert(a.bytes[f.len() - room + i] == f[f.len() - room + i]);
            assert(f.skip(f.len() - room)[i] == tail[i]);
        }
        assert(out.subrange(at - room, at) =~= tail);
    } else {
        assert(out.skip(at) =~= own.bytes);
    }
}

/// What is gathered before a frame are the last bytes of all the audio data before it.
proof fn lemma_stream_is_the_end(index: Mp3Index, b: Seq<u8>, first: int, n: int)
    requires
        0 <= n,
        index.stream_before(b, first, n) is Ok,
    ensures
        ({
            let all = zeros(n) + all_data(index, b, first);
            last_bytes(index.stream_before(b, first, n)->Ok_0, n) == all.skip(all.len() - n)
        }),
{
    let s = index.stream_before(b, first, n)->Ok_0;
    let data = all_data(index, b, first);
    let all = zeros(n) + data;
    lemma_stream_ends_alike(index, b, first, n);
    let k = data.len() - s.len();
    if s.len() < n {
        assert(s =~= data);
        assert(zeros(n - s.len()) + s =~= all.skip(all.len() - n));
    } else {
        assert(s.skip(s.len() - n) =~= all.skip(all.len() - n)) by {
            assert forall|i: int| 0 <= i < n implies #[trigger] s.skip(s.len() - n)[i] == all.skip(all.len() - n)[i] by {
                assert(data.skip(k)[s.len() - n + i] == data[data.len() - n + i]);
            }
        }
    }
}

proof fn lemma_stream_ends_alike(index: Mp3Index, b: Seq<u8>, first: int, n: int)
    requires
        index.stream_before(b, first, n) is Ok,
    ensures
        ({
            let s = index.stream_before(b, first, n)->Ok_0;
            let data = all_data(index, b, first);
            &&& s.len() <= data.len()
            &&& s == data.skip(data.len() - s.len())
            &&& s.len() >= n || s.len() == data.len()
        }),
    decreases first,
{
    let s = index.stream_before(b, first, n)->Ok_0;
    let data = all_data(index, b, first);
    if n <= 0 || first <= 0 {
        assert(s =~= data.skip(data.len() as int));
    } else {
        let own = index.main_data(b, first - 1)->Ok_0;
        lemma_stream_ends_alike(index, b, first - 1, n - own.len());
        let before = all_data(index, b, first - 1);
        let t = index.stream_before(b, first - 1, n - own.len())->Ok_0;
        assert(s =~= data.skip(data.len() - s.len())) by {
            assert forall|i: int| 0 <= i < s.len() implies #[trigger] s[i] == data[data.len() - s.len() + i] by {
                if i < t.len() {
                    assert(t[i] == before.skip(before.len() - t.len())[i]);
                }
            }
        }
    }
}

} // verus!

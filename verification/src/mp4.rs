//! Just enough of the MP4/QuickTime box structure to line our timeline up with everyone
//! else's.
//!
//! Decoding every AAC packet from the first also gives the encoder's priming samples
//! (typically 1024 or 2112). The file's edit list says to skip them, and players do. So our
//! sample frame `f` is at `f / rate - delay` seconds in the video.
use vstd::prelude::*;
use vstd::slice::slice_subrange;
use crate::bytes::{be, be_u32, be_u64, holds, matches_at};

verus! {

/// The names of the boxes that are looked at, as numbers.
pub const MOOV: u32 = 0x6d6f6f76;

pub const TRAK: u32 = 0x7472616b;

pub const MDIA: u32 = 0x6d646961;

pub const HDLR: u32 = 0x68646c72;

pub const MDHD: u32 = 0x6d646864;

pub const EDTS: u32 = 0x65647473;

pub const ELST: u32 = 0x656c7374;

/// A box: its name, where its body starts, and where it ends.
pub struct BoxSpan {
    pub kind: int,
    pub start: int,
    pub end: int,
}

/// The number in the bytes `[a, b)`.
pub open spec fn number(s: Seq<u8>, a: int, b: int) -> int {
    be(s.subrange(a, b)) as int
}

/// The box at the start of `data`. A size of 0 means all that is left; a size of 1 means that
/// eight more bytes hold it.
pub open spec fn first_box(data: Seq<u8>) -> Option<BoxSpan> {
    if data.len() < 8 {
        None
    } else {
        let (size, kind) = (number(data, 0, 4), number(data, 4, 8));
        if size == 1 && data.len() < 16 {
            None
        } else {
            let (start, end) = if size == 0 {
                (8int, data.len() as int)
            } else if size == 1 {
                (16int, number(data, 8, 16))
            } else {
                (8int, size)
            };
            if start <= end <= data.len() {
                Some(BoxSpan { kind, start, end })
            } else {
                None
            }
        }
    }
}

/// The boxes inside a box body: their names and bodies.
pub open spec fn boxes(data: Seq<u8>) -> Seq<(int, Seq<u8>)>
    decreases data.len(),
{
    match first_box(data) {
        None => Seq::empty(),
        Some(b) => seq![(b.kind, data.subrange(b.start, b.end))] + boxes(data.skip(b.end)),
    }
}

/// The body of the first box called `kind`.
pub open spec fn body_of(list: Seq<(int, Seq<u8>)>, kind: int) -> Option<Seq<u8>>
    decreases list.len(),
{
    if list.len() == 0 {
        None
    } else if list[0].0 == kind {
        Some(list[0].1)
    } else {
        body_of(list.skip(1), kind)
    }
}

/// A box inside a body held in memory.
#[derive(Clone, Copy, Debug, PartialEq, Eq)]
pub struct Child<'a> {
    pub kind: u32,
    pub body: &'a [u8],
}

/// The names and bodies of a list of boxes.
pub open spec fn child_views(v: Seq<Child<'_>>) -> Seq<(int, Seq<u8>)> {
    v.map_values(|c: Child<'_>| (c.kind as int, c.body@))
}

fn next_box(data: &[u8]) -> (r: Option<(u32, usize, usize)>)
    ensures
        match r {
            Some((kind, start, end)) => first_box(data@) == Some(
                BoxSpan { kind: kind as int, start: start as int, end: end as int },
            ) && 8 <= start <= end <= data@.len(),
            None => first_box(data@) is None,
        },
{
    let len: usize = data.len();
    if len < 8 {
        return None;
    }
    let size = be_u32(data, 0);
    let kind = be_u32(data, 4);
    if size == 0 {
        return Some((kind, 8, len));
    }
    if size == 1 {
        if len < 16 {
            return None;
        }
        let large = be_u64(data, 8);
        if large < 16 || large > len as u64 {
            return None;
        }
        return Some((kind, 16, large as usize));
    }
    if (size as u64) < 8 || size as u64 > len as u64 {
        return None;
    }
    Some((kind, 8, size as usize))
}

/// The boxes inside a box body held in memory.
pub fn children(data: &[u8]) -> (r: Vec<Child<'_>>)
    ensures
        child_views(r@) == boxes(data@),
{
    let mut out: Vec<Child<'_>> = Vec::new();
    let mut rest: &[u8] = data;
    assert(child_views(out@) + boxes(data@) =~= boxes(data@));
    loop
        invariant_except_break
            child_views(out@) + boxes(rest@) == boxes(data@),
        ensures
            child_views(out@) == boxes(data@),
        decreases rest@.len(),
    {
        let ghost before = child_views(out@);
        let ghost was = rest@;
        match next_box(rest) {
            None => {
                assert(before + Seq::<(int, Seq<u8>)>::empty() =~= before);
                break;
            },
            Some((kind, start, end)) => {
                let body = slice_subrange(rest, start, end);
                out.push(Child { kind, body });
                rest = slice_subrange(rest, end, rest.len());
                assert(rest@ =~= was.skip(end as int));
                assert(child_views(out@) =~= before.push((kind as int, was.subrange(start as int, end as int))));
                assert(child_views(out@) + boxes(rest@) =~= before + boxes(was));
            },
        }
    }
    out
}

/// The body of the first box called `kind`.
pub fn child<'a>(data: &'a [u8], kind: u32) -> (r: Option<&'a [u8]>)
    ensures
        match r {
            Some(b) => body_of(boxes(data@), kind as int) == Some(b@),
            None => body_of(boxes(data@), kind as int) is None,
        },
{
    let list = children(data);
    let ghost all = boxes(data@);
    let mut i: usize = 0;
    assert(all.skip(0) =~= all);
    while i < list.len()
        invariant
            i <= list@.len(),
            all == child_views(list@),
            all == boxes(data@),
            body_of(all, kind as int) == body_of(all.skip(i as int), kind as int),
        decreases list@.len() - i,
    {
        let c = list[i];
        assert(all.skip(i as int)[0] == (c.kind as int, c.body@));
        assert(all.skip(i as int).skip(1) =~= all.skip(i + 1));
        if c.kind == kind {
            return Some(c.body);
        }
        i += 1;
    }
    None
}

/// A time in units of which there are `per_second`.
#[derive(Clone, Copy, Debug, PartialEq, Eq, Structural)]
pub struct Delay {
    pub time: u64,
    pub per_second: u32,
}

/// The time at which edit `i` of an edit list starts in the media; negative for an empty edit.
pub open spec fn edit_time(elst: Seq<u8>, i: int) -> int {
    if elst[0] == 1 {
        let v = number(elst, 8 + i * 20 + 8, 8 + i * 20 + 16);
        if v < 0x8000_0000_0000_0000 {
            v
        } else {
            v - 0x1_0000_0000_0000_0000
        }
    } else {
        let v = number(elst, 8 + i * 12 + 4, 8 + i * 12 + 8);
        if v < 0x8000_0000 {
            v
        } else {
            v - 0x1_0000_0000
        }
    }
}

/// The length of an edit.
pub open spec fn edit_size(elst: Seq<u8>) -> int {
    if elst[0] == 1 {
        20
    } else {
        12
    }
}

/// The first edit from `i` on that shows media (an empty edit only delays the track).
pub open spec fn first_shown(elst: Seq<u8>, count: int, i: int) -> Option<int>
    decreases count - i,
{
    if i >= count || 8 + (i + 1) * edit_size(elst) > elst.len() {
        None
    } else if edit_time(elst, i) >= 0 {
        Some(edit_time(elst, i))
    } else {
        first_shown(elst, count, i + 1)
    }
}

/// "soun"
pub open spec fn sound() -> Seq<u8> {
    seq![0x73u8, 0x6f, 0x75, 0x6e]
}

/// The units per second in a media header, where it is long enough to say.
pub open spec fn timescale_of(mdhd: Seq<u8>) -> Option<int> {
    if mdhd.len() == 0 {
        None
    } else if mdhd[0] == 0 {
        if mdhd.len() >= 16 {
            Some(number(mdhd, 12, 16))
        } else {
            None
        }
    } else if mdhd.len() >= 24 {
        Some(number(mdhd, 20, 24))
    } else {
        None
    }
}

/// The first shown edit of an edit list, where it is long enough to have one.
pub open spec fn shown_in(elst: Seq<u8>) -> Option<int> {
    if elst.len() < 8 {
        None
    } else {
        first_shown(elst, number(elst, 4, 8), 0)
    }
}

/// What is skipped at the start of a track, as a time and its units per second: nothing unless
/// it is a sound track with an edit list that shows media.
pub open spec fn trak_delay(trak: Seq<u8>) -> Option<(int, int)> {
    match body_of(boxes(trak), MDIA as int) {
        None => None,
        Some(mdia) => {
            let hdlr = body_of(boxes(mdia), HDLR as int);
            let mdhd = body_of(boxes(mdia), MDHD as int);
            let edts = body_of(boxes(trak), EDTS as int);
            if hdlr is None || !holds(hdlr->0, 8, sound()) || mdhd is None || timescale_of(mdhd->0) is None || edts is None {
                None
            } else {
                let elst = body_of(boxes(edts->0), ELST as int);
                if elst is None || shown_in(elst->0) is None || timescale_of(mdhd->0)->0 == 0 {
                    None
                } else {
                    Some((shown_in(elst->0)->0, timescale_of(mdhd->0)->0))
                }
            }
        },
    }
}

fn timescale(mdhd: &[u8]) -> (r: Option<u32>)
    ensures
        match r {
            Some(t) => timescale_of(mdhd@) == Some(t as int),
            None => timescale_of(mdhd@) is None,
        },
{
    if mdhd.len() == 0 {
        return None;
    }
    if mdhd[0] == 0 {
        if mdhd.len() >= 16 {
            Some(be_u32(mdhd, 12))
        } else {
            None
        }
    } else if mdhd.len() >= 24 {
        Some(be_u32(mdhd, 20))
    } else {
        None
    }
}

fn shown_edit(elst: &[u8]) -> (r: Option<u64>)
    ensures
        match r {
            Some(t) => shown_in(elst@) == Some(t as int),
            None => shown_in(elst@) is None,
        },
{
    let len: usize = elst.len();
    if len < 8 {
        return None;
    }
    let count = be_u32(elst, 4);
    let long = elst[0] == 1;
    let size: usize = if long {
        20
    } else {
        12
    };
    let mut i: u32 = 0;
    let mut at: usize = 8;
    while i < count && len - at >= size
        invariant
            len == elst@.len(),
            8 <= len,
            i <= count,
            count == number(elst@, 4, 8),
            long == (elst@[0] == 1),
            size == edit_size(elst@),
            at == 8 + i * size,
            at <= len,
            shown_in(elst@) == first_shown(elst@, count as int, i as int),
        decreases count - i,
    {
        assert((i + 1) * size == i * size + size) by (nonlinear_arith);
        assert(size == 20 || size == 12);
        if long {
            let v = be_u64(elst, at + 8);
            assert(v == number(elst@, 8 + i * 20 + 8, 8 + i * 20 + 16));
            if v < 0x8000_0000_0000_0000 {
                return Some(v);
            }
        } else {
            let v = be_u32(elst, at + 4);
            assert(v == number(elst@, 8 + i * 12 + 4, 8 + i * 12 + 8));
            if v < 0x8000_0000 {
                return Some(v as u64);
            }
        }
        at = at + size;
        i += 1;
    }
    proof {
        assert((i + 1) * size == i * size + size) by (nonlinear_arith);
    }
    None
}

/// What players skip at the start of a track.
pub fn audio_delay_of_trak(trak: &[u8]) -> (r: Option<Delay>)
    ensures
        match r {
            Some(d) => trak_delay(trak@) == Some((d.time as int, d.per_second as int)) && d.per_second > 0,
            None => trak_delay(trak@) is None,
        },
{
    let mdia = match child(trak, MDIA) {
        Some(b) => b,
        None => return None,
    };
    // hdlr: version/flags (4), pre_defined (4), handler type (4).
    let soun = vec![0x73u8, 0x6f, 0x75, 0x6e];
    assert(soun@ =~= sound());
    match child(mdia, HDLR) {
        Some(b) => if !matches_at(b, 8, &soun) {
            return None;
        },
        None => return None,
    }
    let per_second = match child(mdia, MDHD) {
        Some(b) => match timescale(b) {
            Some(t) => t,
            None => return None,
        },
        None => return None,
    };
    let edts = match child(trak, EDTS) {
        Some(b) => b,
        None => return None,
    };
    let elst = match child(edts, ELST) {
        Some(b) => b,
        None => return None,
    };
    match shown_edit(elst) {
        Some(time) => if per_second > 0 {
            Some(Delay { time, per_second })
        } else {
            None
        },
        None => None,
    }
}

/// The first of the boxes' tracks that says what to skip.
pub open spec fn first_delay(list: Seq<(int, Seq<u8>)>) -> Option<(int, int)>
    decreases list.len(),
{
    if list.len() == 0 {
        None
    } else if list[0].0 == TRAK && trak_delay(list[0].1) is Some {
        trak_delay(list[0].1)
    } else {
        first_delay(list.skip(1))
    }
}

/// The priming at the start of the audio track that players skip, from its edit list, given the
/// body of the `moov` box. `None` if the file has no audio track or edit list saying so (then
/// nothing is skipped).
pub fn audio_delay(moov: &[u8]) -> (r: Option<Delay>)
    ensures
        match r {
            Some(d) => first_delay(boxes(moov@)) == Some((d.time as int, d.per_second as int)) && d.per_second > 0,
            None => first_delay(boxes(moov@)) is None,
        },
{
    let list = children(moov);
    let ghost all = boxes(moov@);
    let mut i: usize = 0;
    assert(all.skip(0) =~= all);
    while i < list.len()
        invariant
            i <= list@.len(),
            all == child_views(list@),
            all == boxes(moov@),
            first_delay(all) == first_delay(all.skip(i as int)),
        decreases list@.len() - i,
    {
        let c = list[i];
        assert(all.skip(i as int)[0] == (c.kind as int, c.body@));
        assert(all.skip(i as int).skip(1) =~= all.skip(i + 1));
        if c.kind == TRAK {
            let d = audio_delay_of_trak(c.body);
            if d.is_some() {
                return d;
            }
        }
        i += 1;
    }
    None
}

// ---- Boxes of a file too large to hold ----

/// The box whose header bytes are `h`, at `pos` in a file that ends at `end`. `None` if the
/// file ends before it does.
pub open spec fn box_at(h: Seq<u8>, pos: int, end: int) -> Option<BoxSpan> {
    if h.len() < 8 {
        None
    } else {
        let (size, kind) = (number(h, 0, 4), number(h, 4, 8));
        if size == 1 && h.len() < 16 {
            None
        } else {
            let (head, len) = if size == 0 {
                (8int, end - pos)
            } else if size == 1 {
                (16int, number(h, 8, 16))
            } else {
                (8int, size)
            };
            if head <= len <= end - pos {
                Some(BoxSpan { kind, start: pos + head, end: pos + len })
            } else {
                None
            }
        }
    }
}

/// A box header at `pos`: (name, start of its body, end of the box), from the up to 16 bytes
/// that the file has there.
pub fn header(h: &[u8], pos: u64, end: u64) -> (r: Option<(u32, u64, u64)>)
    requires
        pos <= end <= 0x7fff_ffff_ffff_ffff,
    ensures
        match r {
            Some((kind, start, stop)) => box_at(h@, pos as int, end as int) == Some(
                BoxSpan { kind: kind as int, start: start as int, end: stop as int },
            ) && pos + 8 <= start <= stop <= end,
            None => box_at(h@, pos as int, end as int) is None,
        },
{
    if h.len() < 8 {
        return None;
    }
    let size = be_u32(h, 0);
    let kind = be_u32(h, 4);
    let left: u64 = end - pos;
    let (head, len): (u64, u64) = if size == 0 {
        (8, left)
    } else if size == 1 {
        if h.len() < 16 {
            return None;
        }
        (16, be_u64(h, 8))
    } else {
        (8, size as u64)
    };
    if len < head || len > left {
        return None;
    }
    Some((kind, pos + head, pos + len))
}

/// What to do after looking at a box header.
#[derive(Clone, Copy, Debug, PartialEq, Eq, Structural)]
pub enum BoxStep {
    /// It is the box looked for: its body.
    Found { start: u64, end: u64 },
    /// Look at the next one.
    Next { pos: u64 },
    /// There is none.
    Missing,
}

/// One step in the search for the first top-level box called `kind`, without reading the
/// others (the media data can be gigabytes, and moov can come after it). `h` holds the up to 16
/// bytes at `pos`.
pub fn find_box(h: &[u8], pos: u64, end: u64, kind: u32) -> (r: BoxStep)
    requires
        pos <= end <= 0x7fff_ffff_ffff_ffff,
    ensures
        match box_at(h@, pos as int, end as int) {
            None => r == BoxStep::Missing,
            Some(b) => if b.kind == kind {
                r matches BoxStep::Found { start, end: stop } && start == b.start && stop == b.end
            } else if b.end + 8 <= end {
                r matches BoxStep::Next { pos: next } && next == b.end && next >= pos + 8
            } else {
                r == BoxStep::Missing
            },
        },
{
    match header(h, pos, end) {
        None => BoxStep::Missing,
        Some((name, start, stop)) => if name == kind {
            BoxStep::Found { start, end: stop }
        } else if end - stop >= 8 {
            BoxStep::Next { pos: stop }
        } else {
            BoxStep::Missing
        },
    }
}

/// Boxes come one behind the other: each body found in a box lies inside it, and together they
/// are no longer than it.
pub proof fn law_boxes_fit(data: Seq<u8>, i: int)
    requires
        0 <= i < boxes(data).len(),
    ensures
        exists|a: int, b: int| #![trigger data.subrange(a, b)]
            8 <= a <= b <= data.len() && boxes(data)[i].1 == data.subrange(a, b),
        8 * boxes(data).len() <= data.len(),
    decreases data.len(),
{
    match first_box(data) {
        None => {},
        Some(s) => {
            let rest = data.skip(s.end);
            assert(boxes(data) == seq![(s.kind, data.subrange(s.start, s.end))] + boxes(rest));
            if boxes(rest).len() > 0 {
                law_boxes_fit(rest, if i > 0 { i - 1 } else { 0 });
            }
            if i > 0 {
                let (a, b) = choose|a: int, b: int| #![trigger rest.subrange(a, b)]
                    8 <= a <= b <= rest.len() && boxes(rest)[i - 1].1 == rest.subrange(a, b);
                assert(rest.subrange(a, b) =~= data.subrange(a + s.end, b + s.end));
            }
        },
    }
}

} // verus!

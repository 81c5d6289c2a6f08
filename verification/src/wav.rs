//! WAV files: where the samples are, lossless copies of ranges of them, and 16-bit headers.
//!
//! A copy keeps the original `fmt ` chunk and the sample bytes, so it is bit-exact.
use vstd::prelude::*;
use crate::bytes::{append_bytes, copy_range, holds, le, le_bytes, le_u16, le_u32, matches_at, push_le};

verus! {

/// Why a WAV file could not be read or written.
#[derive(Clone, Copy, Debug, PartialEq, Eq, Structural)]
pub enum WavError {
    /// Not a RIFF/WAVE file (RF64 and others aren't supported yet).
    NotWave,
    /// A data chunk before the fmt chunk.
    DataFirst,
    /// A fmt chunk that is too short to say how the samples are laid out.
    BadFormat,
    /// Samples of no length.
    BadAlignment,
    /// No data chunk.
    NoData,
    /// The file ends inside a chunk.
    ShortFile,
    /// The first `bytes` bytes of the file are needed to tell.
    NeedMore { bytes: u64 },
    /// The track holds no samples of the recording.
    Empty,
    /// There is nothing to keep.
    NothingKept,
    /// More than the 4 GB that WAV can hold.
    TooLarge,
}

/// Where the samples of a WAV file are, and how they are laid out.
#[derive(Clone, Debug, PartialEq, Eq)]
pub struct WavLayout {
    pub fmt: Vec<u8>,
    pub data_offset: u64,
    pub data_len: u64,
    pub block_align: u64,
}

/// A layout, with the fmt chunk as a sequence of bytes.
#[verifier::ext_equal]
pub struct Layout {
    pub fmt: Seq<u8>,
    pub data_offset: int,
    pub data_len: int,
    pub block_align: int,
}

/// "RIFF"
pub open spec fn riff() -> Seq<u8> {
    seq![0x52u8, 0x49, 0x46, 0x46]
}

/// "WAVE"
pub open spec fn wave() -> Seq<u8> {
    seq![0x57u8, 0x41, 0x56, 0x45]
}

/// "fmt "
pub open spec fn fmt_id() -> Seq<u8> {
    seq![0x66u8, 0x6D, 0x74, 0x20]
}

/// "data"
pub open spec fn data_id() -> Seq<u8> {
    seq![0x64u8, 0x61, 0x74, 0x61]
}

fn id4(a: u8, b: u8, c: u8, d: u8) -> (r: Vec<u8>)
    ensures
        r@ == seq![a, b, c, d],
{
    let v = vec![a, b, c, d];
    assert(v@ =~= seq![a, b, c, d]);
    v
}

/// The layout found from the chunk at `pos` on. `head` is the start of a file of `len` bytes,
/// `fmt` the last fmt chunk before `pos`.
pub open spec fn layout_from(head: Seq<u8>, len: int, pos: int, fmt: Option<Seq<u8>>) -> Result<Layout, WavError>
    decreases (if pos < len { len - pos } else { 0 }),
{
    if pos + 8 > len || pos < 0 {
        Err(WavError::NoData)
    } else if pos + 8 > head.len() {
        Err(WavError::NeedMore { bytes: (pos + 8) as u64 })
    } else {
        let size = le(head.subrange(pos + 4, pos + 8)) as int;
        let body = pos + 8;
        let next = body + size + size % 2;
        if holds(head, pos, fmt_id()) {
            if body + size > len {
                Err(WavError::ShortFile)
            } else if body + size > head.len() {
                Err(WavError::NeedMore { bytes: (body + size) as u64 })
            } else {
                layout_from(head, len, next, Some(head.subrange(body, body + size)))
            }
        } else if holds(head, pos, data_id()) {
            match fmt {
                None => Err(WavError::DataFirst),
                Some(f) => if f.len() < 14 {
                    Err(WavError::BadFormat)
                } else if le(f.subrange(12, 14)) == 0 {
                    Err(WavError::BadAlignment)
                } else {
                    Ok(
                        Layout {
                            fmt: f,
                            data_offset: body,
                            data_len: if size < len - body {
                                size
                            } else {
                                len - body
                            },
                            block_align: le(f.subrange(12, 14)) as int,
                        },
                    )
                },
            }
        } else {
            layout_from(head, len, next, fmt)
        }
    }
}

/// The layout of a file of `len` bytes that starts with `head`.
pub open spec fn layout_of(head: Seq<u8>, len: int) -> Result<Layout, WavError> {
    if len < 12 {
        Err(WavError::ShortFile)
    } else if head.len() < 12 {
        Err(WavError::NeedMore { bytes: 12 })
    } else if !holds(head, 0, riff()) || !holds(head, 8, wave()) {
        Err(WavError::NotWave)
    } else {
        layout_from(head, len, 12, None)
    }
}

/// With the whole file at hand, no more of it is ever asked for.
pub proof fn law_whole_file_is_enough(file: Seq<u8>)
    ensures
        !(layout_of(file, file.len() as int) matches Err(WavError::NeedMore { .. })),
{
    if file.len() >= 12 {
        never_more(file, 12, None);
    }
}

proof fn never_more(file: Seq<u8>, pos: int, fmt: Option<Seq<u8>>)
    requires
        0 <= pos,
    ensures
        !(layout_from(file, file.len() as int, pos, fmt) matches Err(WavError::NeedMore { .. })),
    decreases (if pos < file.len() { file.len() - pos } else { 0 }),
{
    if pos + 8 <= file.len() {
        let size = le(file.subrange(pos + 4, pos + 8)) as int;
        let next = pos + 8 + size + size % 2;
        if pos + 8 + size <= file.len() {
            never_more(file, next, Some(file.subrange(pos + 8, pos + 8 + size)));
        }
        never_more(file, next, fmt);
    }
}

/// The fmt chunk, if there was one, as a sequence of bytes.
pub open spec fn opt_bytes(v: Option<Vec<u8>>) -> Option<Seq<u8>> {
    match v {
        Some(x) => Some(x@),
        None => None,
    }
}

impl View for WavLayout {
    type V = Layout;

    open spec fn view(&self) -> Layout {
        Layout {
            fmt: self.fmt@,
            data_offset: self.data_offset as int,
            data_len: self.data_len as int,
            block_align: self.block_align as int,
        }
    }
}

/// Files are no longer than a signed 64-bit length.
pub const MAX_LEN: u64 = 0x7fff_ffff_ffff_ffff;

impl WavLayout {
    /// The samples have a length and lie in a file.
    pub open spec fn wf(&self) -> bool {
        &&& 0 < self.block_align <= 0xffff
        &&& self.data_offset + self.data_len <= MAX_LEN
        &&& self.fmt@.len() <= 0xffff_ffff
    }

    /// Find the samples of a file of `len` bytes, given the start of it.
    pub fn read(head: &[u8], len: u64) -> (r: Result<WavLayout, WavError>)
        requires
            len <= MAX_LEN,
            head@.len() <= len,
        ensures
            match layout_of(head@, len as int) {
                Ok(l) => r is Ok && r->Ok_0@ == l && r->Ok_0.wf(),
                Err(e) => r is Err && r->Err_0 == e,
            },
    {
        let have: usize = head.len();
        if len < 12 {
            return Err(WavError::ShortFile);
        }
        if have < 12 {
            return Err(WavError::NeedMore { bytes: 12 });
        }
        if !matches_at(head, 0, &id4(0x52, 0x49, 0x46, 0x46)) || !matches_at(head, 8, &id4(0x57, 0x41, 0x56, 0x45)) {
            return Err(WavError::NotWave);
        }
        let mut pos: u64 = 12;
        let mut fmt: Option<Vec<u8>> = None;
        while pos <= len && len - pos >= 8
            invariant
                have == head@.len(),
                head@.len() <= len <= MAX_LEN,
                12 <= pos <= MAX_LEN + 0x2_0000_0000,
                fmt matches Some(f) ==> f@.len() <= 0xffff_ffff,
                layout_of(head@, len as int) == layout_from(head@, len as int, pos as int, opt_bytes(fmt)),
            decreases len + 0x1_0000_0000 - pos,
        {
            if pos + 8 > have as u64 {
                return Err(WavError::NeedMore { bytes: pos + 8 });
            }
            let at: usize = pos as usize;
            let size: u64 = le_u32(head, at + 4) as u64;
            let body: u64 = pos + 8;
            if matches_at(head, at, &id4(0x66, 0x6D, 0x74, 0x20)) {
                if size > len - body {
                    return Err(WavError::ShortFile);
                }
                if body + size > have as u64 {
                    return Err(WavError::NeedMore { bytes: body + size });
                }
                fmt = Some(copy_range(head, body as usize, (body + size) as usize));
            } else if matches_at(head, at, &id4(0x64, 0x61, 0x74, 0x61)) {
                match fmt {
                    None => return Err(WavError::DataFirst),
                    Some(f) => {
                        if f.len() < 14 {
                            return Err(WavError::BadFormat);
                        }
                        let block_align: u64 = le_u16(&f, 12) as u64;
                        if block_align == 0 {
                            return Err(WavError::BadAlignment);
                        }
                        let data_len: u64 = if size < len - body {
                            size
                        } else {
                            len - body
                        };
                        return Ok(WavLayout { fmt: f, data_offset: body, data_len, block_align });
                    },
                }
            }
            pos = body + size + size % 2;
        }
        Err(WavError::NoData)
    }
}

// ---- Copies of ranges ----

/// The length of a chunk, with the byte that fills it up to an even length.
pub open spec fn even(n: int) -> int {
    n + n % 2
}

/// What the RIFF header counts: all chunks of a file with this fmt chunk and `len` data bytes.
pub open spec fn riff_len(fmt: int, len: int) -> int {
    4 + (8 + even(fmt)) + (8 + even(len))
}

/// The header of a WAV file up to its samples.
pub open spec fn wav_header(fmt: Seq<u8>, len: int) -> Seq<u8> {
    riff() + le_bytes(riff_len(fmt.len() as int, len) as nat, 4) + wave() + fmt_id() + le_bytes(fmt.len(), 4) + fmt + (
    if fmt.len() % 2 == 1 {
        seq![0u8]
    } else {
        Seq::empty()
    }) + data_id() + le_bytes(len as nat, 4)
}

/// Everything a WAV file needs besides the samples: what comes before them, the byte ranges of
/// the source that hold them, and whether a zero byte fills them up to an even length.
#[derive(Clone, Debug, PartialEq, Eq)]
pub struct WavCopy {
    pub header: Vec<u8>,
    /// `(offset, length)` in bytes.
    pub ranges: Vec<(u64, u64)>,
    pub pad: bool,
}

fn build_header(fmt: &Vec<u8>, len: u64) -> (r: Result<Vec<u8>, WavError>)
    requires
        fmt@.len() <= 0xffff_ffff,
        len <= MAX_LEN,
    ensures
        riff_len(fmt@.len() as int, len as int) > u32::MAX ==> r is Err && r->Err_0 == WavError::TooLarge,
        riff_len(fmt@.len() as int, len as int) <= u32::MAX ==> r is Ok && r->Ok_0@ == wav_header(fmt@, len as int),
{
    let fmt_len: u64 = fmt.len() as u64;
    let riff: u64 = 4 + (8 + fmt_len + fmt_len % 2) + (8 + len + len % 2);
    if riff > u32::MAX as u64 {
        return Err(WavError::TooLarge);
    }
    let mut out = id4(0x52, 0x49, 0x46, 0x46);
    push_le(&mut out, riff, 4);
    append_bytes(&mut out, &id4(0x57, 0x41, 0x56, 0x45));
    append_bytes(&mut out, &id4(0x66, 0x6D, 0x74, 0x20));
    push_le(&mut out, fmt_len, 4);
    append_bytes(&mut out, fmt);
    let ghost before = out@;
    if fmt_len % 2 == 1 {
        out.push(0);
    }
    assert(out@ =~= before + (if fmt@.len() % 2 == 1 { seq![0u8] } else { Seq::<u8>::empty() }));
    append_bytes(&mut out, &id4(0x64, 0x61, 0x74, 0x61));
    push_le(&mut out, len, 4);
    assert(out@ =~= wav_header(fmt@, len as int));
    Ok(out)
}

/// A frame number of the recording, or its end.
pub open spec fn clipped(l: Layout, frame: u64) -> int {
    let n = l.data_len / l.block_align;
    if frame < n {
        frame as int
    } else {
        n
    }
}

/// Where the samples of the frames `[a, b)` are, as an offset and a length in bytes.
pub open spec fn byte_range(l: Layout, a: u64, b: u64) -> (int, int) {
    (l.data_offset + clipped(l, a) * l.block_align, (clipped(l, b) - clipped(l, a)) * l.block_align)
}

fn range_bytes(l: &WavLayout, a: u64, b: u64) -> (r: (u64, u64))
    requires
        l.wf(),
        a <= b,
    ensures
        r.0 == byte_range(l@, a, b).0,
        r.1 == byte_range(l@, a, b).1,
        r.0 + r.1 <= l.data_offset + l.data_len,
        r.1 == 0 <==> clipped(l@, b) <= clipped(l@, a),
{
    let frames: u64 = l.data_len / l.block_align;
    let a: u64 = if a < frames {
        a
    } else {
        frames
    };
    let b: u64 = if b < frames {
        b
    } else {
        frames
    };
    proof {
        let (x, y, n, al, len) = (a as int, b as int, frames as int, l.block_align as int, l.data_len as int);
        assert(n * al <= len) by (nonlinear_arith)
            requires
                n == len / al,
                al > 0,
                len >= 0,
        ;
        assert(0 <= x * al && x * al + (y - x) * al == y * al && y * al <= n * al && 0 <= (y - x) * al) by (nonlinear_arith)
            requires
                0 <= x <= y <= n,
                al > 0,
        ;
        assert(x < y ==> (y - x) * al > 0) by (nonlinear_arith)
            requires
                al > 0,
        ;
    }
    (l.data_offset + a * l.block_align, (b - a) * l.block_align)
}

/// The track `[start, end)` of a WAV file as a WAV file of its own.
pub fn wav_track(l: &WavLayout, start: u64, end: u64) -> (r: Result<WavCopy, WavError>)
    requires
        l.wf(),
    ensures
        ({
            let range = byte_range(l@, start, end);
            if clipped(l@, end) <= clipped(l@, start) {
                r is Err && r->Err_0 == WavError::Empty
            } else if riff_len(l.fmt@.len() as int, range.1) > u32::MAX {
                r is Err && r->Err_0 == WavError::TooLarge
            } else {
                &&& r is Ok
                &&& r->Ok_0.header@ == wav_header(l.fmt@, range.1)
                &&& r->Ok_0.ranges@ == seq![(range.0 as u64, range.1 as u64)]
                &&& r->Ok_0.ranges@[0].0 == range.0 && r->Ok_0.ranges@[0].1 == range.1
                &&& r->Ok_0.pad == (range.1 % 2 == 1)
            }
        }),
{
    if end <= start {
        return Err(WavError::Empty);
    }
    let range = range_bytes(l, start, end);
    if range.1 == 0 {
        return Err(WavError::Empty);
    }
    match build_header(&l.fmt, range.1) {
        Ok(header) => {
            let ranges = vec![range];
            assert(ranges@ =~= seq![(byte_range(l@, start, end).0 as u64, byte_range(l@, start, end).1 as u64)]);
            Ok(WavCopy { header, ranges, pad: range.1 % 2 == 1 })
        },
        Err(e) => Err(e),
    }
}

/// The frames in all ranges together.
pub open spec fn frames_in(ranges: Seq<(u64, u64)>) -> int
    decreases ranges.len(),
{
    if ranges.len() == 0 {
        0
    } else {
        frames_in(ranges.drop_last()) + (ranges.last().1 - ranges.last().0)
    }
}

/// No range ends before it starts.
pub open spec fn forward(ranges: Seq<(u64, u64)>) -> bool {
    forall|i: int| 0 <= i < ranges.len() ==> (#[trigger] ranges[i]).0 <= ranges[i].1
}

proof fn lemma_frames_grow(ranges: Seq<(u64, u64)>, n: int)
    requires
        forward(ranges),
        0 <= n <= ranges.len(),
    ensures
        0 <= frames_in(ranges.take(n)) <= frames_in(ranges),
    decreases ranges.len(),
{
    if n < ranges.len() {
        let t = ranges.drop_last();
        assert(forall|i: int| 0 <= i < t.len() ==> t[i] == ranges[i]);
        lemma_frames_grow(t, n);
        assert(t.take(n) =~= ranges.take(n));
        assert(ranges[ranges.len() - 1].0 <= ranges[ranges.len() - 1].1);
    } else {
        assert(ranges.take(n) =~= ranges);
        if n > 0 {
            let t = ranges.drop_last();
            assert(forall|i: int| 0 <= i < t.len() ==> t[i] == ranges[i]);
            lemma_frames_grow(t, n - 1);
            assert(t.take(n - 1) =~= t);
            assert(ranges[n - 1].0 <= ranges[n - 1].1);
        }
    }
}

/// How many frames the ranges hold.
pub fn count_frames(ranges: &[(u64, u64)]) -> (r: u64)
    requires
        forward(ranges@),
        frames_in(ranges@) <= u64::MAX,
    ensures
        r == frames_in(ranges@),
{
    let mut total: u64 = 0;
    let mut i: usize = 0;
    while i < ranges.len()
        invariant
            forward(ranges@),
            frames_in(ranges@) <= u64::MAX,
            i <= ranges@.len(),
            total == frames_in(ranges@.take(i as int)),
        decreases ranges@.len() - i,
    {
        proof {
            assert(ranges@.take(i + 1).drop_last() =~= ranges@.take(i as int));
            assert(ranges@.take(i + 1).last() == ranges@[i as int]);
            lemma_frames_grow(ranges@, i + 1);
            assert(ranges@[i as int].0 <= ranges@[i as int].1);
        }
        total = total + (ranges[i].1 - ranges[i].0);
        i += 1;
    }
    assert(ranges@.take(i as int) =~= ranges@);
    total
}

/// The ranges of a WAV file back to back as a WAV file of their own.
pub fn wav_ranges(l: &WavLayout, ranges: &[(u64, u64)]) -> (r: Result<WavCopy, WavError>)
    requires
        l.wf(),
        forward(ranges@),
        frames_in(ranges@) * l.block_align <= MAX_LEN,
    ensures
        ({
            let len = frames_in(ranges@) * l.block_align;
            if frames_in(ranges@) == 0 {
                r is Err && r->Err_0 == WavError::NothingKept
            } else if riff_len(l.fmt@.len() as int, len) > u32::MAX {
                r is Err && r->Err_0 == WavError::TooLarge
            } else {
                &&& r is Ok
                &&& r->Ok_0.header@ == wav_header(l.fmt@, len)
                &&& r->Ok_0.ranges@.len() == ranges@.len()
                &&& forall|i: int| #![trigger r->Ok_0.ranges@[i]]
                    0 <= i < ranges@.len() ==> {
                        &&& r->Ok_0.ranges@[i].0 == byte_range(l@, ranges@[i].0, ranges@[i].1).0
                        &&& r->Ok_0.ranges@[i].1 == byte_range(l@, ranges@[i].0, ranges@[i].1).1
                    }
                &&& r->Ok_0.pad == (len % 2 == 1)
            }
        }),
{
    proof {
        lemma_frames_grow(ranges@, 0);
        let (n, a) = (frames_in(ranges@), l.block_align as int);
        assert(n <= n * a) by (nonlinear_arith)
            requires
                n >= 0,
                a >= 1,
        ;
    }
    let total = count_frames(ranges);
    if total == 0 {
        return Err(WavError::NothingKept);
    }
    let len: u64 = total * l.block_align;
    let header = match build_header(&l.fmt, len) {
        Ok(h) => h,
        Err(e) => return Err(e),
    };
    let mut out: Vec<(u64, u64)> = Vec::new();
    let mut i: usize = 0;
    while i < ranges.len()
        invariant
            l.wf(),
            forward(ranges@),
            i <= ranges@.len(),
            out@.len() == i,
            forall|k: int| #![trigger out@[k]]
                0 <= k < i ==> out@[k].0 == byte_range(l@, ranges@[k].0, ranges@[k].1).0 && out@[k].1 == byte_range(
                    l@,
                    ranges@[k].0,
                    ranges@[k].1,
                ).1,
        decreases ranges@.len() - i,
    {
        let (a, b) = ranges[i];
        assert(ranges@[i as int].0 <= ranges@[i as int].1);
        out.push(range_bytes(l, a, b));
        i += 1;
    }
    Ok(WavCopy { header, ranges: out, pad: len % 2 == 1 })
}

/// The sizes in the header add up: what the RIFF header counts is the length of the whole file
/// behind it, once the samples and the byte that evens them out are written.
pub proof fn law_wav_sizes_add_up(fmt: Seq<u8>, len: int)
    requires
        0 <= len,
        riff_len(fmt.len() as int, len) <= u32::MAX,
    ensures
        wav_header(fmt, len).len() + even(len) == 8 + riff_len(fmt.len() as int, len),
        le(wav_header(fmt, len).subrange(4, 8)) == riff_len(fmt.len() as int, len),
{
    let n = riff_len(fmt.len() as int, len) as nat;
    reveal_with_fuel(crate::bytes::limit, 5);
    crate::bytes::law_le_reads_back(n, 4);
    crate::bytes::law_le_reads_back(fmt.len(), 4);
    crate::bytes::law_le_reads_back(len as nat, 4);
    assert(wav_header(fmt, len).subrange(4, 8) =~= le_bytes(n, 4));
}

/// A copy reads back: what was written behind its header is found as its samples, in the format
/// of the original, whatever comes behind them.
pub proof fn law_wav_copies_read_back(fmt: Seq<u8>, samples: Seq<u8>, rest: Seq<u8>)
    requires
        fmt.len() >= 14,
        le(fmt.subrange(12, 14)) != 0,
        riff_len(fmt.len() as int, samples.len() as int) <= u32::MAX,
    ensures
        ({
            let head = wav_header(fmt, samples.len() as int);
            let file = head + samples + rest;
            &&& layout_of(file, file.len() as int) == Ok::<Layout, WavError>(
                Layout {
                    fmt,
                    data_offset: head.len() as int,
                    data_len: samples.len() as int,
                    block_align: le(fmt.subrange(12, 14)) as int,
                },
            )
            &&& file.subrange(head.len() as int, (head.len() + samples.len()) as int) == samples
        }),
{
    let n = samples.len() as int;
    let m = fmt.len() as int;
    let head = wav_header(fmt, n);
    let file = head + samples + rest;
    reveal_with_fuel(crate::bytes::limit, 5);
    crate::bytes::law_le_reads_back(riff_len(m, n) as nat, 4);
    crate::bytes::law_le_reads_back(fmt.len(), 4);
    crate::bytes::law_le_reads_back(samples.len(), 4);
    let p = 20 + m + m % 2;
    assert(head.len() == p + 8);
    assert(file.subrange(0, 4) =~= riff());
    assert(file.subrange(8, 12) =~= wave());
    assert(file.subrange(12, 16) =~= fmt_id());
    assert(file.subrange(16, 20) =~= le_bytes(fmt.len(), 4));
    assert(file.subrange(20, 20 + m) =~= fmt);
    assert(file.subrange(p, p + 4) =~= data_id());
    assert(data_id()[0] != fmt_id()[0]);
    assert(file.subrange(p + 4, p + 8) =~= le_bytes(samples.len(), 4));
    assert(layout_from(file, file.len() as int, 12, None) == layout_from(file, file.len() as int, p, Some(fmt)));
    assert(file.subrange(head.len() as int, head.len() + n) =~= samples);
}

// ---- 16-bit files ----

/// The 44 bytes before the samples of a 16-bit file.
pub open spec fn header16(ch: u32, rate: u32, data_len: u64) -> Seq<u8> {
    riff() + le_bytes((36 + data_len) as nat, 4) + wave() + fmt_id() + le_bytes(16, 4) + le_bytes(1, 2) + le_bytes(
        ch as nat,
        2,
    ) + le_bytes(rate as nat, 4) + le_bytes((rate * ch * 2) as nat, 4) + le_bytes((ch * 2) as nat, 2) + le_bytes(16, 2)
        + data_id() + le_bytes(data_len as nat, 4)
}

/// The fmt chunk of a 16-bit file.
pub open spec fn fmt16(ch: u32, rate: u32) -> Seq<u8> {
    le_bytes(1, 2) + le_bytes(ch as nat, 2) + le_bytes(rate as nat, 4) + le_bytes((rate * ch * 2) as nat, 4) + le_bytes(
        (ch * 2) as nat,
        2,
    ) + le_bytes(16, 2)
}

/// A 16-bit file reads back: its samples are found behind its header, two bytes for each
/// channel of a frame.
pub proof fn law_16_bit_files_read_back(ch: u32, rate: u32, samples: Seq<u8>)
    requires
        0 < ch <= 0x7fff,
        samples.len() % 2 == 0,
        36 + samples.len() <= u32::MAX,
    ensures
        ({
            let file = header16(ch, rate, samples.len() as u64) + samples;
            layout_of(file, file.len() as int) == Ok::<Layout, WavError>(
                Layout {
                    fmt: fmt16(ch, rate),
                    data_offset: 44,
                    data_len: samples.len() as int,
                    block_align: (ch * 2) as int,
                },
            )
        }),
{
    let fmt = fmt16(ch, rate);
    let head = header16(ch, rate, samples.len() as u64);
    lemma_header16(ch, rate, samples.len() as u64);
    law_wav_copies_read_back(fmt, samples, Seq::empty());
    assert(head + samples + Seq::<u8>::empty() =~= head + samples);
}

/// The header of a 16-bit file is that of a copy with its fmt chunk.
proof fn lemma_header16(ch: u32, rate: u32, len: u64)
    requires
        0 < ch <= 0x7fff,
        len % 2 == 0,
        36 + len <= u32::MAX,
    ensures
        header16(ch, rate, len) == wav_header(fmt16(ch, rate), len as int),
        header16(ch, rate, len).len() == 44,
        fmt16(ch, rate).len() == 16,
        le(fmt16(ch, rate).subrange(12, 14)) == ch * 2,
{
    let (a, b, c, d, e, f) = (
        le_bytes(1, 2),
        le_bytes(ch as nat, 2),
        le_bytes(rate as nat, 4),
        le_bytes((rate * ch * 2) as nat, 4),
        le_bytes((ch * 2) as nat, 2),
        le_bytes(16, 2),
    );
    let fmt = fmt16(ch, rate);
    lemma_le_len(1, 2);
    lemma_le_len(ch as nat, 2);
    lemma_le_len(rate as nat, 4);
    lemma_le_len((rate * ch * 2) as nat, 4);
    lemma_le_len(16, 2);
    lemma_le_len(16, 4);
    lemma_le_len((36 + len) as nat, 4);
    lemma_le_len(len as nat, 4);
    assert(crate::bytes::limit(2) == 0x1_0000) by {
        reveal_with_fuel(crate::bytes::limit, 3);
    }
    crate::bytes::law_le_reads_back((ch * 2) as nat, 2);
    assert(fmt.len() == 16);
    assert(fmt.subrange(12, 14) =~= e);
    assert(riff_len(16, len as int) == 36 + len);
    let front = riff() + le_bytes((36 + len) as nat, 4) + wave() + fmt_id() + le_bytes(16, 4);
    assert(front + a + b + c + d + e + f =~= front + (a + b + c + d + e + f) + Seq::<u8>::empty());
}

proof fn lemma_le_len(v: nat, n: nat)
    ensures
        le_bytes(v, n).len() == n,
    decreases n,
{
    if n > 0 {
        lemma_le_len(v / 256, (n - 1) as nat);
    }
}

/// The header of a 16-bit PCM file with `data_len` bytes of samples.
pub fn wav16_header(ch: u32, rate: u32, data_len: u64) -> (r: Result<Vec<u8>, WavError>)
    requires
        rate * ch * 2 <= u32::MAX,
    ensures
        36 + data_len > u32::MAX ==> r is Err && r->Err_0 == WavError::TooLarge,
        36 + data_len <= u32::MAX ==> r is Ok && r->Ok_0@ == header16(ch, rate, data_len),
{
    if data_len > u32::MAX as u64 - 36 {
        return Err(WavError::TooLarge);
    }
    assert(0 <= rate * ch) by (nonlinear_arith)
        requires
            0 <= rate,
            0 <= ch,
    ;
    let mut out = id4(0x52, 0x49, 0x46, 0x46);
    push_le(&mut out, 36 + data_len, 4);
    append_bytes(&mut out, &id4(0x57, 0x41, 0x56, 0x45));
    append_bytes(&mut out, &id4(0x66, 0x6D, 0x74, 0x20));
    push_le(&mut out, 16, 4);
    push_le(&mut out, 1, 2);
    push_le(&mut out, ch as u64, 2);
    push_le(&mut out, rate as u64, 4);
    push_le(&mut out, (rate * ch * 2) as u64, 4);
    push_le(&mut out, ch as u64 * 2, 2);
    push_le(&mut out, 16, 2);
    append_bytes(&mut out, &id4(0x64, 0x61, 0x74, 0x61));
    push_le(&mut out, data_len, 4);
    Ok(out)
}

/// A sample in two bytes.
pub open spec fn sample16(x: i16) -> Seq<u8> {
    le_bytes((if x < 0 { x + 0x1_0000 } else { x as int }) as nat, 2)
}

/// Samples one after the other.
pub open spec fn samples16(s: Seq<i16>) -> Seq<u8>
    decreases s.len(),
{
    if s.len() == 0 {
        Seq::empty()
    } else {
        samples16(s.drop_last()) + sample16(s.last())
    }
}

/// The bytes of 16-bit samples.
pub fn pcm16_bytes(s: &[i16]) -> (r: Vec<u8>)
    ensures
        r@ == samples16(s@),
{
    let mut out: Vec<u8> = Vec::new();
    let mut i: usize = 0;
    assert(out@ =~= samples16(s@.take(0)));
    while i < s.len()
        invariant
            i <= s@.len(),
            out@ == samples16(s@.take(i as int)),
        decreases s@.len() - i,
    {
        let x = s[i] as i32;
        let u: u64 = if x < 0 {
            (x + 0x1_0000) as u64
        } else {
            x as u64
        };
        push_le(&mut out, u, 2);
        assert(s@.take(i + 1).drop_last() =~= s@.take(i as int));
        i += 1;
    }
    assert(s@.take(i as int) =~= s@);
    out
}

} // verus!

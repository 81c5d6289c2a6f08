//! How an MP4 file is taken apart.
use vstd::prelude::*;
use crate::bytes::{be, be_bytes, law_be_reads_back, limit};
use crate::mp4::{body_of, box_at, boxes, edit_time, first_box, first_shown, shown_in, BoxSpan};

verus! {

/// The bytes of a box: its length with the head of eight bytes, its kind, and what it holds.
pub open spec fn boxed(kind: Seq<u8>, body: Seq<u8>) -> Seq<u8> {
    be_bytes(8 + body.len(), 4) + kind + body
}

/// The same with a length of eight bytes, for what is too long for four.
pub open spec fn long_boxed(kind: Seq<u8>, body: Seq<u8>) -> Seq<u8> {
    be_bytes(1, 4) + kind + be_bytes(16 + body.len(), 8) + body
}

proof fn lemma_limits()
    ensures
        limit(4) == 0x1_0000_0000,
        limit(8) == 0x1_0000_0000_0000_0000,
{
    reveal_with_fuel(limit, 9);
}

/// A box that was written is read back, and so is all that follows it.
pub proof fn law_boxes_read_back(kind: Seq<u8>, body: Seq<u8>, rest: Seq<u8>)
    requires
        kind.len() == 4,
        8 + body.len() < 0x1_0000_0000,
    ensures
        boxes(boxed(kind, body) + rest) == seq![(be(kind) as int, body)] + boxes(rest),
{
    let size = be_bytes(8 + body.len(), 4);
    let data = boxed(kind, body) + rest;
    lemma_limits();
    law_be_reads_back(8 + body.len(), 4);
    assert(data.subrange(0, 4) =~= size);
    assert(data.subrange(4, 8) =~= kind);
    let end = 8 + body.len() as int;
    assert(first_box(data) == Some(BoxSpan { kind: be(kind) as int, start: 8, end }));
    assert(data.subrange(8, end) =~= body);
    assert(data.skip(end) =~= rest);
}

/// The same for a box with a length of eight bytes.
pub proof fn law_long_boxes_read_back(kind: Seq<u8>, body: Seq<u8>, rest: Seq<u8>)
    requires
        kind.len() == 4,
        16 + body.len() < 0x1_0000_0000_0000_0000,
    ensures
        boxes(long_boxed(kind, body) + rest) == seq![(be(kind) as int, body)] + boxes(rest),
{
    let size = be_bytes(16 + body.len(), 8);
    let data = long_boxed(kind, body) + rest;
    lemma_limits();
    law_be_reads_back(1, 4);
    law_be_reads_back(16 + body.len(), 8);
    assert(data.subrange(0, 4) =~= be_bytes(1, 4));
    assert(data.subrange(4, 8) =~= kind);
    assert(data.subrange(8, 16) =~= size);
    let end = 16 + body.len() as int;
    assert(first_box(data) == Some(BoxSpan { kind: be(kind) as int, start: 16, end }));
    assert(data.subrange(16, end) =~= body);
    assert(data.skip(end) =~= rest);
}

/// In a file too a box that was written at `pos` is found there, however much of what follows its
/// head was read along.
pub proof fn law_heads_read_back(kind: Seq<u8>, body: Seq<u8>, more: Seq<u8>, pos: int, end: int)
    requires
        kind.len() == 4,
        8 + body.len() < 0x1_0000_0000,
        pos + 8 + body.len() <= end,
    ensures
        box_at(be_bytes(8 + body.len(), 4) + kind + more, pos, end) == Some(
            BoxSpan { kind: be(kind) as int, start: pos + 8, end: pos + 8 + body.len() },
        ),
{
    let h = be_bytes(8 + body.len(), 4) + kind + more;
    lemma_limits();
    law_be_reads_back(8 + body.len(), 4);
    assert(h.subrange(0, 4) =~= be_bytes(8 + body.len(), 4));
    assert(h.subrange(4, 8) =~= kind);
}

/// Of the boxes of a kind the first one counts.
pub proof fn law_the_first_of_a_kind_is_taken(list: Seq<(int, Seq<u8>)>, kind: int, i: int)
    requires
        0 <= i < list.len(),
        list[i].0 == kind,
        forall|k: int| 0 <= k < i ==> (#[trigger] list[k]).0 != kind,
    ensures
        body_of(list, kind) == Some(list[i].1),
    decreases i,
{
    if i > 0 {
        assert(list[0].0 != kind);
        let t = list.skip(1);
        assert forall|k: int| 0 <= k < i - 1 implies (#[trigger] t[k]).0 != kind by {
            assert(t[k] == list[k + 1]);
        }
        law_the_first_of_a_kind_is_taken(t, kind, i - 1);
    }
}

/// The sound starts where the first edit that shows any of it says; edits before it that show
/// nothing, and say minus one, are passed over.
pub proof fn law_empty_edits_are_passed_over(elst: Seq<u8>, i: int, t: nat)
    requires
        elst.len() >= 8 + 12 * (i + 1),
        elst[0] == 0,
        0 <= i < be(elst.subrange(4, 8)),
        t < 0x8000_0000,
        elst.subrange(8 + 12 * i + 4, 8 + 12 * i + 8) == be_bytes(t, 4),
        forall|k: int| 0 <= k < i ==> #[trigger] elst.subrange(8 + 12 * k + 4, 8 + 12 * k + 8) == be_bytes(0xffff_ffff, 4),
    ensures
        shown_in(elst) == Some(t as int),
{
    lemma_limits();
    law_be_reads_back(t, 4);
    law_be_reads_back(0xffff_ffff, 4);
    assert(edit_time(elst, i) == t);
    assert forall|k: int| 0 <= k < i implies #[trigger] edit_time(elst, k) < 0 by {
        assert(elst.subrange(8 + 12 * k + 4, 8 + 12 * k + 8) == be_bytes(0xffff_ffff, 4));
    }
    lemma_first_shown(elst, be(elst.subrange(4, 8)) as int, 0, i, 12);
}

/// The same for edits of the later form, with times of eight bytes.
pub proof fn law_long_empty_edits_are_passed_over(elst: Seq<u8>, i: int, t: nat)
    requires
        elst.len() >= 8 + 20 * (i + 1),
        elst[0] == 1,
        0 <= i < be(elst.subrange(4, 8)),
        t < 0x8000_0000_0000_0000,
        elst.subrange(8 + 20 * i + 8, 8 + 20 * i + 16) == be_bytes(t, 8),
        forall|k: int|
            0 <= k < i ==> #[trigger] elst.subrange(8 + 20 * k + 8, 8 + 20 * k + 16) == be_bytes(0xffff_ffff_ffff_ffff, 8),
    ensures
        shown_in(elst) == Some(t as int),
{
    lemma_limits();
    law_be_reads_back(t, 8);
    law_be_reads_back(0xffff_ffff_ffff_ffff, 8);
    assert(edit_time(elst, i) == t);
    assert forall|k: int| 0 <= k < i implies #[trigger] edit_time(elst, k) < 0 by {
        assert(elst.subrange(8 + 20 * k + 8, 8 + 20 * k + 16) == be_bytes(0xffff_ffff_ffff_ffff, 8));
    }
    lemma_first_shown(elst, be(elst.subrange(4, 8)) as int, 0, i, 20);
}

proof fn lemma_first_shown(elst: Seq<u8>, count: int, from: int, i: int, size: int)
    requires
        0 <= from <= i < count,
        size == if elst[0] == 1 {
            20int
        } else {
            12
        },
        elst.len() >= 8 + size * (i + 1),
        edit_time(elst, i) >= 0,
        forall|k: int| 0 <= k < i ==> #[trigger] edit_time(elst, k) < 0,
    ensures
        first_shown(elst, count, from) == Some(edit_time(elst, i)),
    decreases i - from,
{
    assert((from + 1) * size <= size * (i + 1)) by (nonlinear_arith)
        requires
            from <= i,
            size > 0,
    ;
    if from < i {
        assert(edit_time(elst, from) < 0);
        lemma_first_shown(elst, count, from + 1, i, size);
    }
}

} // verus!

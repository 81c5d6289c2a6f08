//! Numbers in bytes, most or least significant byte first, and pieces of byte strings.
use vstd::prelude::*;
use vstd::slice::slice_subrange;

verus! {

/// The number whose bytes these are, the most significant first.
pub open spec fn be(s: Seq<u8>) -> nat
    decreases s.len(),
{
    if s.len() == 0 {
        0
    } else {
        be(s.drop_last()) * 256 + s.last() as nat
    }
}

/// The number whose bytes these are, the least significant first.
pub open spec fn le(s: Seq<u8>) -> nat
    decreases s.len(),
{
    if s.len() == 0 {
        0
    } else {
        s[0] as nat + 256 * le(s.skip(1))
    }
}

/// The lowest `n` bytes of `v`, the most significant first.
pub open spec fn be_bytes(v: nat, n: nat) -> Seq<u8>
    decreases n,
{
    if n == 0 {
        Seq::empty()
    } else {
        be_bytes(v / 256, (n - 1) as nat).push((v % 256) as u8)
    }
}

/// The lowest `n` bytes of `v`, the least significant first.
pub open spec fn le_bytes(v: nat, n: nat) -> Seq<u8>
    decreases n,
{
    if n == 0 {
        Seq::empty()
    } else {
        seq![(v % 256) as u8] + le_bytes(v / 256, (n - 1) as nat)
    }
}

/// One more than the largest number that `n` bytes hold.
pub open spec fn limit(n: nat) -> nat
    decreases n,
{
    if n == 0 {
        1
    } else {
        limit((n - 1) as nat) * 256
    }
}

/// What was written most significant byte first reads back the same.
pub proof fn law_be_reads_back(v: nat, n: nat)
    requires
        v < limit(n),
    ensures
        be_bytes(v, n).len() == n,
        be(be_bytes(v, n)) == v,
    decreases n,
{
    if n > 0 {
        law_be_reads_back(v / 256, (n - 1) as nat);
        assert(be_bytes(v, n).drop_last() =~= be_bytes(v / 256, (n - 1) as nat));
    }
}

/// What was written least significant byte first reads back the same.
pub proof fn law_le_reads_back(v: nat, n: nat)
    requires
        v < limit(n),
    ensures
        le_bytes(v, n).len() == n,
        le(le_bytes(v, n)) == v,
    decreases n,
{
    if n > 0 {
        law_le_reads_back(v / 256, (n - 1) as nat);
        assert(le_bytes(v, n).skip(1) =~= le_bytes(v / 256, (n - 1) as nat));
    }
}

/// `lit` stands at `pos`.
pub open spec fn holds(b: Seq<u8>, pos: int, lit: Seq<u8>) -> bool {
    0 <= pos && pos + lit.len() <= b.len() && b.subrange(pos, pos + lit.len()) == lit
}

/// Whether `lit` stands at `pos`.
pub fn matches_at(b: &[u8], pos: usize, lit: &[u8]) -> (r: bool)
    ensures
        r == holds(b@, pos as int, lit@),
{
    if pos > b.len() || lit.len() > b.len() - pos {
        return false;
    }
    let n: usize = b.len();
    let mut i: usize = 0;
    while i < lit.len()
        invariant
            n == b@.len(),
            i <= lit@.len(),
            pos + lit@.len() <= n,
            forall|k: int| 0 <= k < i ==> b@[pos + k] == lit@[k],
        decreases lit@.len() - i,
    {
        if b[pos + i] != lit[i] {
            assert(b@.subrange(pos as int, pos + lit@.len())[i as int] != lit@[i as int]);
            return false;
        }
        i += 1;
    }
    assert(b@.subrange(pos as int, pos + lit@.len()) =~= lit@);
    true
}

/// Whether two byte strings are the same.
pub fn same_bytes(a: &[u8], b: &[u8]) -> (r: bool)
    ensures
        r == (a@ == b@),
{
    let same = a.len() == b.len() && matches_at(a, 0, b);
    assert(a@.len() == b@.len() ==> a@.subrange(0, b@.len() as int) =~= a@);
    same
}

/// The four bytes at `pos`, most significant first.
pub fn be_u32(b: &[u8], pos: usize) -> (r: u32)
    requires
        pos + 4 <= b@.len(),
    ensures
        r == be(b@.subrange(pos as int, pos + 4)),
{
    proof {
        let s = b@.subrange(pos as int, pos + 4);
        reveal_with_fuel(be, 5);
        assert(s.drop_last().drop_last().drop_last().drop_last() =~= Seq::<u8>::empty());
    }
    ((b[pos] as u32 * 256 + b[pos + 1] as u32) * 256 + b[pos + 2] as u32) * 256 + b[pos + 3] as u32
}

/// The eight bytes at `pos`, most significant first.
pub fn be_u64(b: &[u8], pos: usize) -> (r: u64)
    requires
        pos + 8 <= b@.len(),
    ensures
        r == be(b@.subrange(pos as int, pos + 8)),
{
    let n: usize = b.len();
    assert(pos + 8 <= n);
    let hi = be_u32(b, pos);
    let lo = be_u32(b, pos + 4);
    proof {
        let s = b@.subrange(pos as int, pos + 8);
        let t = s.drop_last().drop_last().drop_last().drop_last();
        reveal_with_fuel(be, 5);
        assert(t =~= b@.subrange(pos as int, pos + 4));
        let u = b@.subrange(pos + 4, pos + 8);
        assert(u.drop_last().drop_last().drop_last().drop_last() =~= Seq::<u8>::empty());
        assert(be(s) == be(t) * 0x1_0000_0000 + be(u));
    }
    hi as u64 * 0x1_0000_0000 + lo as u64
}

/// The two bytes at `pos`, least significant first.
pub fn le_u16(b: &[u8], pos: usize) -> (r: u16)
    requires
        pos + 2 <= b@.len(),
    ensures
        r == le(b@.subrange(pos as int, pos + 2)),
{
    proof {
        let s = b@.subrange(pos as int, pos + 2);
        reveal_with_fuel(le, 3);
        assert(s.skip(1).skip(1) =~= Seq::<u8>::empty());
    }
    b[pos] as u16 + 256 * b[pos + 1] as u16
}

/// The four bytes at `pos`, least significant first.
pub fn le_u32(b: &[u8], pos: usize) -> (r: u32)
    requires
        pos + 4 <= b@.len(),
    ensures
        r == le(b@.subrange(pos as int, pos + 4)),
{
    proof {
        let s = b@.subrange(pos as int, pos + 4);
        reveal_with_fuel(le, 5);
        assert(s.skip(1).skip(1).skip(1).skip(1) =~= Seq::<u8>::empty());
    }
    b[pos] as u32 + 256 * (b[pos + 1] as u32 + 256 * (b[pos + 2] as u32 + 256 * b[pos + 3] as u32))
}

/// Append the lowest `n` bytes of `v`, the least significant first.
pub fn push_le(out: &mut Vec<u8>, v: u64, n: usize)
    ensures
        final(out)@ == old(out)@ + le_bytes(v as nat, n as nat),
{
    let mut left: u64 = v;
    let mut i: usize = 0;
    assert(out@ + le_bytes(v as nat, n as nat) =~= old(out)@ + le_bytes(v as nat, n as nat));
    while i < n
        invariant
            i <= n,
            out@ + le_bytes(left as nat, (n - i) as nat) == old(out)@ + le_bytes(v as nat, n as nat),
        decreases n - i,
    {
        let ghost before = out@;
        let b: u8 = (left % 256) as u8;
        out.push(b);
        assert(before.push(b) + le_bytes((left / 256) as nat, (n - i - 1) as nat) =~= before + le_bytes(
            left as nat,
            (n - i) as nat,
        ));
        left = left / 256;
        i += 1;
    }
    assert(out@ + le_bytes(left as nat, 0) =~= out@);
}

/// Append the lowest `n` bytes of `v`, the most significant first.
pub fn push_be(out: &mut Vec<u8>, v: u64, n: usize)
    ensures
        final(out)@ == old(out)@ + be_bytes(v as nat, n as nat),
    decreases n,
{
    if n > 0 {
        push_be(out, v / 256, n - 1);
        let b: u8 = (v % 256) as u8;
        out.push(b);
        assert(out@ =~= old(out)@ + be_bytes(v as nat, n as nat));
    } else {
        assert(out@ =~= old(out)@ + be_bytes(v as nat, 0));
    }
}

/// Append all of `more` to `out`.
pub fn append_bytes(out: &mut Vec<u8>, more: &[u8])
    ensures
        final(out)@ == old(out)@ + more@,
{
    let mut i: usize = 0;
    assert(old(out)@ + more@.take(0) =~= out@);
    while i < more.len()
        invariant
            i <= more@.len(),
            out@ == old(out)@ + more@.take(i as int),
        decreases more@.len() - i,
    {
        out.push(more[i]);
        assert((old(out)@ + more@.take(i as int)).push(more@[i as int]) =~= old(out)@ + more@.take(i + 1));
        i += 1;
    }
    assert(more@.take(i as int) =~= more@);
}

/// `n` zero bytes.
pub open spec fn zeros(n: int) -> Seq<u8> {
    Seq::new(
        (if n < 0 {
            0
        } else {
            n
        }) as nat,
        |i: int| 0u8,
    )
}

/// Append `n` zero bytes.
pub fn push_zeros(out: &mut Vec<u8>, n: usize)
    ensures
        final(out)@ == old(out)@ + zeros(n as int),
{
    let mut i: usize = 0;
    assert(old(out)@ + zeros(0) =~= out@);
    while i < n
        invariant
            i <= n,
            out@ == old(out)@ + zeros(i as int),
        decreases n - i,
    {
        out.push(0);
        assert((old(out)@ + zeros(i as int)).push(0) =~= old(out)@ + zeros(i + 1));
        i += 1;
    }
}

/// A copy of the bytes `[from, to)`.
pub fn copy_range(b: &[u8], from: usize, to: usize) -> (r: Vec<u8>)
    requires
        from <= to <= b@.len(),
    ensures
        r@ == b@.subrange(from as int, to as int),
{
    let mut out: Vec<u8> = Vec::new();
    append_bytes(&mut out, slice_subrange(b, from, to));
    assert(out@ =~= b@.subrange(from as int, to as int));
    out
}

} // verus!

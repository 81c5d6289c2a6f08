//! Times as text, from whole milliseconds.
use vstd::prelude::*;
use crate::text::{append_chars, append_str, decimal, decimal_chars, padded, padded_chars, string_of};

verus! {

/// Hours, minutes, seconds and milliseconds.
pub fn split(total_ms: u64) -> (r: (u64, u64, u64, u64))
    ensures
        r.0 == total_ms / 1000 / 3600,
        r.1 == total_ms / 1000 / 60 % 60,
        r.2 == total_ms / 1000 % 60,
        r.3 == total_ms % 1000,
        total_ms == ((r.0 * 60 + r.1) * 60 + r.2) * 1000 + r.3,
        r.1 < 60,
        r.2 < 60,
        r.3 < 1000,
{
    let ms: u64 = total_ms % 1000;
    let s: u64 = total_ms / 1000;
    (s / 3600, (s / 60) % 60, s % 60, ms)
}

/// Hours, minutes and seconds, with the milliseconds after a point: `1:02:03.456` or `02:03.456`.
pub open spec fn precise(total_ms: int) -> Seq<char> {
    let (s, ms) = (total_ms / 1000, (total_ms % 1000) as nat);
    let (h, m, sec) = ((s / 3600) as nat, (s / 60 % 60) as nat, (s % 60) as nat);
    let tail = padded(m, 2) + ":"@ + padded(sec, 2) + "."@ + padded(ms, 3);
    if h > 0 {
        decimal(h) + ":"@ + tail
    } else {
        tail
    }
}

/// `1:02:03` or `2:03`.
pub open spec fn shortened(total_ms: int) -> Seq<char> {
    let s = total_ms / 1000;
    let (h, m, sec) = ((s / 3600) as nat, (s / 60 % 60) as nat, (s % 60) as nat);
    if h > 0 {
        decimal(h) + ":"@ + padded(m, 2) + ":"@ + padded(sec, 2)
    } else {
        decimal(m) + ":"@ + padded(sec, 2)
    }
}

/// `1:02:03.456` or `02:03.456`.
pub fn fmt_precise(total_ms: u64) -> (r: String)
    ensures
        r@ == precise(total_ms as int),
{
    let (h, m, s, ms) = split(total_ms);
    let mut tail = padded_chars(m, 2);
    append_str(&mut tail, ":");
    append_chars(&mut tail, &padded_chars(s, 2));
    append_str(&mut tail, ".");
    append_chars(&mut tail, &padded_chars(ms, 3));
    if h > 0 {
        let mut out = decimal_chars(h);
        append_str(&mut out, ":");
        append_chars(&mut out, &tail);
        string_of(&out)
    } else {
        string_of(&tail)
    }
}

/// `1:02:03` or `2:03`.
pub fn fmt_short(total_ms: u64) -> (r: String)
    ensures
        r@ == shortened(total_ms as int),
{
    let (h, m, s, _) = split(total_ms);
    if h > 0 {
        let mut out = decimal_chars(h);
        append_str(&mut out, ":");
        append_chars(&mut out, &padded_chars(m, 2));
        append_str(&mut out, ":");
        append_chars(&mut out, &padded_chars(s, 2));
        string_of(&out)
    } else {
        let mut out = decimal_chars(m);
        append_str(&mut out, ":");
        append_chars(&mut out, &padded_chars(s, 2));
        string_of(&out)
    }
}

} // verus!

//! What the checksum of an MP3 file is.
use vstd::prelude::*;
use crate::mp3cut::{crc_bit, crc_bits, crc_from};

verus! {

/// Each step of the checksum is a step of a division by the polynomial `x^16 + x^15 + x^2 + 1`, its
/// lowest coefficient in front: what the step took off is the polynomial, where a one was carried
/// out, and else nothing.
pub proof fn law_checksums_divide_by_the_polynomial(crc: u16)
    ensures
        ((crc_bit(crc) as u32) << 1) ^ (if crc % 2 == 1 {
            0x1_4003u32
        } else {
            0u32
        }) == crc as u32,
{
    lemma_carried(crc);
}

proof fn lemma_carried(crc: u16)
    by (bit_vector)
    ensures
        crc % 2 == 1 ==> ((((crc / 2) ^ 0xA001) as u32) << 1) ^ 0x1_4003u32 == crc as u32,
        crc % 2 == 0 ==> (((crc / 2) as u32) << 1) ^ 0u32 == crc as u32,
{
}

proof fn lemma_low_byte(sum: u16)
    by (bit_vector)
    ensures
        (sum ^ (((sum % 256) as u8) as u16)) / 256 == sum / 256,
        (sum ^ (((sum % 256) as u8) as u16)) % 256 == 0,
        sum ^ sum == 0,
{
}

/// Bytes with their own checksum behind them, its low byte first, have the checksum zero.
pub proof fn law_checksums_close(start: u16, s: Seq<u8>)
    ensures
        ({
            let sum = crc_from(start, s);
            crc_from(start, s + seq![(sum % 256) as u8, (sum / 256) as u8]) == 0
        }),
{
    let sum = crc_from(start, s);
    let (lo, hi) = ((sum % 256) as u8, (sum / 256) as u8);
    let both = s + seq![lo, hi];
    assert(both.drop_last() =~= s.push(lo));
    assert(s.push(lo).drop_last() =~= s);
    let one: u16 = sum ^ (lo as u16);
    lemma_low_byte(sum);
    assert(crc_from(start, s.push(lo)) == crc_bits(one, 8));
    reveal_with_fuel(crc_bits, 9);
    assert(crc_bits(one, 8) == one / 256);
    let two: u16 = (one / 256) as u16;
    assert(two == hi as u16);
    lemma_low_byte(two);
    assert(crc_from(start, both) == crc_bits(two ^ (hi as u16), 8));
    assert(crc_bits(0, 8) == 0);
}

} // verus!

//! PDF functions (7.10): the parts that read integers out of a stream and text out of a
//! calculator program.

pub mod postscript;

use vstd::prelude::*;

verus! {

/// Bit `b` of `data`, counting from the most significant bit of the first byte.
pub open spec fn bit_at(data: Seq<u8>, b: int) -> int {
    ((data[b / 8] >> ((7 - b % 8) as u8)) & 1u8) as int
}

/// The value of the `n` bits of `data` from bit `offset`, most significant first, as
/// far as 64 bits hold it: the bits above the lowest 64 are lost.
pub open spec fn bits_value(data: Seq<u8>, offset: int, n: int) -> int
    decreases n,
{
    if n <= 0 {
        0
    } else {
        (2 * bits_value(data, offset, n - 1) + bit_at(data, offset + n - 1)) % 0x1_0000_0000_0000_0000
    }
}

/// Whether `count` bits from bit `offset` lie within `len` bytes.
pub open spec fn bits_within(len: int, offset: int, count: int) -> bool {
    count == 0 || (offset + count - 1 <= u64::MAX && (offset + count - 1) / 8 < len)
}

/// Shifting a bit in at the bottom doubles the value and adds the bit, modulo 2^64.
proof fn lemma_shift_in(v: u64, b: u64)
    requires
        b <= 1,
    ensures
        ((v << 1u64) | b) as int == (2 * v + b) % 0x1_0000_0000_0000_0000,
{
    assert(((v << 1u64) | b) as int == (2 * v + b) % 0x1_0000_0000_0000_0000) by (bit_vector)
        requires
            b <= 1,
    ;
}

/// Reads `count` bits big-endian from `data`, starting `offset` bits in: a sampled
/// function's samples may be 12 or 24 bits wide and straddle bytes. `None` past the end
/// of the data.
pub fn read_bits(data: &[u8], offset: u64, count: u32) -> (r: Option<u64>)
    ensures
        r is Some <==> bits_within(data@.len() as int, offset as int, count as int),
        r matches Some(v) ==> v as int == bits_value(data@, offset as int, count as int),
{
    let mut value: u64 = 0;
    let mut i: u64 = 0;
    while i < count as u64
        invariant
            i <= count,
            value as int == bits_value(data@, offset as int, i as int),
            i > 0 ==> offset + i - 1 <= u64::MAX && (offset + i - 1) / 8 < data@.len(),
        decreases count - i,
    {
        let bit = match offset.checked_add(i) {
            Some(b) => b,
            None => return None,
        };
        let index = bit / 8;
        if index >= data.len() as u64 {
            return None;
        }
        let byte = data[index as usize];
        let shift = 7 - (bit % 8) as u32;
        let low = (byte >> shift) & 1;
        assert(low <= 1) by (bit_vector)
            requires
                low == (byte >> shift) & 1,
        ;
        let b = low as u64;
        proof {
            lemma_shift_in(value, b);
            assert(b as int == bit_at(data@, offset + i));
        }
        value = (value << 1) | b;
        i = i + 1;
    }
    Some(value)
}

} // verus!

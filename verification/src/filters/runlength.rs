//! `RunLengthDecode` (7.4.5).
//!
//! A leaf function with a fixed, forty-year-old definition and no dependants, beside
//! three filters from the same clause that files do exercise. Leaving the one gap would
//! make a file that is legal, simple and old fail for no reason a user could act on.

use crate::error::PdfResult;
use crate::filters::FilterContext;
use vstd::prelude::*;

verus! {

/// The length byte that ends the data.
pub const END_OF_DATA: u8 = 128;

/// `RunLengthDecode` over `s` from position `i`, with `out` already decoded.
///
/// A length byte of 0 to 127 is followed by that many plus one literal bytes; 129 to 255
/// by one byte to repeat 257 minus the length times; 128 ends the data. Data that stops
/// inside a run keeps what it has.
pub open spec fn rl_from(s: Seq<u8>, i: int, out: Seq<u8>) -> Seq<u8>
    decreases s.len() - i,
{
    if i < 0 || i >= s.len() {
        out
    } else {
        let l = s[i];
        if l == 128 {
            out
        } else if l < 128 {
            let end = if i + 1 + l + 1 <= s.len() {
                i + 1 + l + 1
            } else {
                s.len() as int
            };
            rl_from(s, end, out + s.subrange(i + 1, end))
        } else if i + 1 >= s.len() {
            out
        } else {
            rl_from(s, i + 2, out + Seq::new((257 - l) as nat, |_j: int| s[i + 1]))
        }
    }
}

/// What `RunLengthDecode` makes of `s`.
pub open spec fn spec_rl_decode(s: Seq<u8>) -> Seq<u8> {
    rl_from(s, 0, seq![])
}

/// The `RunLengthDecode` stream filter.
pub struct RunLengthFilter;

impl RunLengthFilter {
    /// Expands the runs. Never fails: data that stops inside a run keeps what it has.
    pub fn decode(&self, input: &[u8], _cx: &FilterContext<'_>) -> (r: PdfResult<Vec<u8>>)
        ensures
            r matches Ok(out) && out@ == spec_rl_decode(input@),
    {
        Ok(decode_runs(input))
    }
}

/// The whole of `RunLengthDecode`.
pub fn decode_runs(input: &[u8]) -> (out: Vec<u8>)
    ensures
        out@ == spec_rl_decode(input@),
{
    let mut out: Vec<u8> = Vec::new();
    let mut i: usize = 0;
    while i < input.len()
        invariant
            i <= input@.len(),
            spec_rl_decode(input@) == rl_from(input@, i as int, out@),
        decreases input@.len() - i,
    {
        let length = input[i];
        if length == END_OF_DATA {
            return out;
        }
        if length < END_OF_DATA {
            // 0..=127: the next length + 1 bytes are literal.
            let count = length as usize + 1;
            let start = i + 1;
            let end = if count <= input.len() - start {
                start + count
            } else {
                input.len()
            };
            let ghost before = out@;
            let mut j = start;
            while j < end
                invariant
                    start <= j <= end <= input@.len(),
                    out@ == before + input@.subrange(start as int, j as int),
                decreases end - j,
            {
                out.push(input[j]);
                assert(input@.subrange(start as int, j + 1) =~= input@.subrange(
                    start as int,
                    j as int,
                ).push(input@[j as int]));
                j = j + 1;
            }
            i = end;
        } else {
            // 129..=255: the next byte, repeated 257 - length times.
            if i + 1 >= input.len() {
                return out;
            }
            let byte = input[i + 1];
            let times = 257 - length as usize;
            let ghost before = out@;
            let mut k: usize = 0;
            while k < times
                invariant
                    k <= times,
                    out@ == before + Seq::new(k as nat, |_j: int| byte),
                decreases times - k,
            {
                out.push(byte);
                assert(Seq::new((k + 1) as nat, |_j: int| byte) =~= Seq::new(
                    k as nat,
                    |_j: int| byte,
                ).push(byte));
                k = k + 1;
            }
            assert(Seq::new(times as nat, |_j: int| byte) =~= Seq::new(
                (257 - length) as nat,
                |_j: int| input@[i + 1],
            ));
            i = i + 2;
        }
    }
    out
}

} // verus!

//! `ASCIIHexDecode` (7.4.2) and `ASCII85Decode` (7.4.3).
//!
//! Both turn printable ASCII back into bytes and neither compresses anything. They exist
//! so a stream can survive a transport that is not eight-bit clean, which is why they are
//! usually the *first* filter in a `/Filter` array with a real compressor behind them.

use crate::error::{char_text, concat, filter_error, text, PdfError, PdfResult};
use crate::filters::FilterContext;
use vstd::prelude::*;

verus! {

/// The white space `u8::is_ascii_whitespace` recognises: space, tab, line feed, form
/// feed and carriage return.
pub open spec fn is_ascii_ws(b: u8) -> bool {
    b == 32 || b == 9 || b == 10 || b == 12 || b == 13
}

/// A byte both filters pass over: white space, or the null byte.
pub open spec fn skipped(b: u8) -> bool {
    is_ascii_ws(b) || b == 0
}

/// The value of one hexadecimal digit, in either case.
pub open spec fn spec_hex_value(b: u8) -> Option<u8> {
    if 48 <= b <= 57 {
        Some((b - 48) as u8)
    } else if 97 <= b <= 102 {
        Some((b - 87) as u8)
    } else if 65 <= b <= 70 {
        Some((b - 55) as u8)
    } else {
        None
    }
}

/// The digits an `ASCIIHexDecode` stream writes before its `>`, appended to `acc`, or
/// the first byte that is neither a digit nor skipped.
pub open spec fn hex_digits_from(s: Seq<u8>, acc: Seq<u8>) -> Result<Seq<u8>, u8>
    decreases s.len(),
{
    if s.len() == 0 || s[0] == 62 {
        Ok(acc)
    } else if skipped(s[0]) {
        hex_digits_from(s.drop_first(), acc)
    } else {
        match spec_hex_value(s[0]) {
            Some(n) => hex_digits_from(s.drop_first(), acc.push(n)),
            None => Err(s[0]),
        }
    }
}

/// Hexadecimal digits as bytes, two to a byte; an odd last digit is followed by an
/// implicit zero (7.4.2).
pub open spec fn pack_nibbles(n: Seq<u8>) -> Seq<u8> {
    Seq::new(
        ((n.len() + 1) / 2) as nat,
        |i: int|
            if 2 * i + 1 < n.len() {
                (n[2 * i] * 16 + n[2 * i + 1]) as u8
            } else {
                (n[2 * i] * 16) as u8
            },
    )
}

/// What `ASCIIHexDecode` makes of `s`: the bytes, or the byte that is not a digit.
pub open spec fn spec_hex_decode(s: Seq<u8>) -> Result<Seq<u8>, u8> {
    match hex_digits_from(s, seq![]) {
        Ok(n) => Ok(pack_nibbles(n)),
        Err(b) => Err(b),
    }
}

/// Why a filter refused a byte: the byte, quoted, and what it is not.
pub open spec fn bad_byte_message(b: u8, what: Seq<char>) -> Seq<char> {
    seq!['\''] + seq![b as char] + what
}

/// The value of a hexadecimal digit, if `byte` is one.
pub fn hex_value(byte: u8) -> (r: Option<u8>)
    ensures
        r == spec_hex_value(byte),
        r matches Some(v) ==> v < 16,
{
    if 48 <= byte && byte <= 57 {
        Some(byte - 48)
    } else if 97 <= byte && byte <= 102 {
        Some(byte - 87)
    } else if 65 <= byte && byte <= 70 {
        Some(byte - 55)
    } else {
        None
    }
}

/// Whether `byte` is skipped between digits.
pub fn is_skipped(byte: u8) -> (r: bool)
    ensures
        r == skipped(byte),
{
    byte == 32 || byte == 9 || byte == 10 || byte == 12 || byte == 13 || byte == 0
}

/// `'c'` followed by `what`, for a byte that is not what a filter reads.
fn bad_byte(filter: &str, byte: u8, what: &str) -> (e: PdfError)
    ensures
        e matches PdfError::Filter { filter: f, message: m } && f@ == filter@ && m@
            == bad_byte_message(byte, what@),
{
    let m = concat(concat(concat(text("'"), char_text(byte as char).as_str()), ""), what);
    proof {
        reveal_strlit("'");
        reveal_strlit("");
        assert(m@ =~= bad_byte_message(byte, what@));
    }
    filter_error(filter, m)
}

proof fn lemma_pack_push_pair(acc: Seq<u8>, h: u8, n: u8)
    requires
        acc.len() % 2 == 0,
    ensures
        pack_nibbles(acc.push(h).push(n)) =~= pack_nibbles(acc).push((h * 16 + n) as u8),
{
    let a2 = acc.push(h).push(n);
    assert(pack_nibbles(a2).len() == pack_nibbles(acc).len() + 1);
    assert forall|i: int| 0 <= i < pack_nibbles(acc).len() implies pack_nibbles(a2)[i]
        == pack_nibbles(acc)[i] by {
        assert(2 * i + 1 < acc.len());
    }
}

proof fn lemma_pack_push_one(acc: Seq<u8>, h: u8)
    requires
        acc.len() % 2 == 0,
    ensures
        pack_nibbles(acc.push(h)) =~= pack_nibbles(acc).push((h * 16) as u8),
{
    let a2 = acc.push(h);
    assert forall|i: int| 0 <= i < pack_nibbles(acc).len() implies pack_nibbles(a2)[i]
        == pack_nibbles(acc)[i] by {
        assert(2 * i + 1 < acc.len());
    }
}

/// `ASCIIHexDecode` (7.4.2): pairs of hex digits, `>` ends the data.
pub struct AsciiHexFilter;

impl AsciiHexFilter {
    /// Decodes hexadecimal text into the bytes it spells.
    pub fn decode(&self, input: &[u8], _cx: &FilterContext<'_>) -> (r: PdfResult<Vec<u8>>)
        ensures
            match spec_hex_decode(input@) {
                Ok(bytes) => r matches Ok(out) && out@ == bytes,
                Err(b) => r matches Err(PdfError::Filter { filter: f, message: m }) && f@
                    == "ASCIIHexDecode"@ && m@ == bad_byte_message(
                    b,
                    "' is not a hexadecimal digit"@,
                ),
            },
    {
        decode_hex(input)
    }
}

/// The whole of `ASCIIHexDecode`.
pub fn decode_hex(input: &[u8]) -> (r: PdfResult<Vec<u8>>)
    ensures
        match spec_hex_decode(input@) {
            Ok(bytes) => r matches Ok(out) && out@ == bytes,
            Err(b) => r matches Err(PdfError::Filter { filter: f, message: m }) && f@
                == "ASCIIHexDecode"@ && m@ == bad_byte_message(b, "' is not a hexadecimal digit"@),
        },
{
    let mut out: Vec<u8> = Vec::new();
    let mut high: Option<u8> = None;
    let ghost mut acc: Seq<u8> = seq![];
    let mut i: usize = 0;
    assert(input@.skip(0) =~= input@);
    while i < input.len() && input[i] != 62
        invariant
            i <= input@.len(),
            hex_digits_from(input@, seq![]) == hex_digits_from(input@.skip(i as int), acc),
            forall|j: int| 0 <= j < acc.len() ==> acc[j] < 16,
            match high {
                None => acc.len() % 2 == 0 && out@ == pack_nibbles(acc),
                Some(h) => acc.len() % 2 == 1 && h == acc.last() && out@ == pack_nibbles(
                    acc.drop_last(),
                ),
            },
        decreases input@.len() - i,
    {
        let byte = input[i];
        let ghost rest = input@.skip(i as int);
        assert(rest.drop_first() =~= input@.skip(i + 1));
        if is_skipped(byte) {
            i = i + 1;
            continue;
        }
        match hex_value(byte) {
            None => {
                return Err(bad_byte("ASCIIHexDecode", byte, "' is not a hexadecimal digit"));
            },
            Some(nibble) => {
                match high {
                    Some(first) => {
                        let v = (first << 4) | nibble;
                        assert(v == first * 16 + nibble) by (bit_vector)
                            requires
                                first < 16,
                                nibble < 16,
                                v == (first << 4) | nibble,
                        ;
                        proof {
                            lemma_pack_push_pair(acc.drop_last(), first, nibble);
                            assert(acc.drop_last().push(first) =~= acc);
                        }
                        out.push(v);
                        high = None;
                    },
                    None => {
                        high = Some(nibble);
                    },
                }
                proof {
                    let before = acc;
                    acc = acc.push(nibble);
                    assert(acc.drop_last() =~= before);
                }
            },
        }
        i = i + 1;
    }
    proof {
        if i < input.len() {
            assert(input@.skip(i as int)[0] == 62);
        }
    }
    if let Some(first) = high {
        let v = first << 4;
        assert(v == first * 16) by (bit_vector)
            requires
                first < 16,
                v == first << 4,
        ;
        proof {
            lemma_pack_push_one(acc.drop_last(), first);
            assert(acc.drop_last().push(first) =~= acc);
        }
        out.push(v);
    }
    Ok(out)
}

// --- ASCII85Decode ---------------------------------------------------------------

/// The value a full group of five base-85 digits spells, modulo 2^32 as a 32-bit
/// accumulator holds it.
pub open spec fn group_value(g: Seq<u8>) -> int {
    ((((g[0] * 85 + g[1]) * 85 + g[2]) * 85 + g[3]) * 85 + g[4]) % 4294967296
}

/// A 32-bit value as four bytes, most significant first.
pub open spec fn be_bytes(v: int) -> Seq<u8> {
    seq![
        ((v / 16777216) % 256) as u8,
        ((v / 65536) % 256) as u8,
        ((v / 256) % 256) as u8,
        (v % 256) as u8,
    ]
}

/// The bytes a group of five digits yields, keeping `count - 1` of them.
pub open spec fn group_bytes(g: Seq<u8>, count: int) -> Seq<u8> {
    be_bytes(group_value(g)).take(count - 1)
}

/// A short final group, padded with the highest digit to five.
pub open spec fn pad_group(g: Seq<u8>) -> Seq<u8> {
    g + Seq::new((5 - g.len()) as nat, |_i: int| 84u8)
}

/// Why `ASCII85Decode` refused: a byte outside the alphabet, or (`None`) a final group
/// of one digit, which encodes no byte.
pub open spec fn a85_finish(out: Seq<u8>, g: Seq<u8>) -> Result<Seq<u8>, Option<u8>> {
    if g.len() == 0 {
        Ok(out)
    } else if g.len() == 1 {
        Err(None)
    } else {
        Ok(out + group_bytes(pad_group(g), g.len() as int))
    }
}

/// `ASCII85Decode` over `s`, with `out` already decoded and `g` the digits of the group
/// in progress.
pub open spec fn a85_from(s: Seq<u8>, out: Seq<u8>, g: Seq<u8>) -> Result<Seq<u8>, Option<u8>>
    decreases s.len(),
{
    if s.len() == 0 || s[0] == 126 {
        a85_finish(out, g)
    } else if skipped(s[0]) {
        a85_from(s.drop_first(), out, g)
    } else if s[0] == 122 && g.len() == 0 {
        a85_from(s.drop_first(), out + seq![0u8, 0u8, 0u8, 0u8], g)
    } else if !(33 <= s[0] <= 117) {
        Err(Some(s[0]))
    } else {
        let g2 = g.push((s[0] - 33) as u8);
        if g2.len() == 5 {
            a85_from(s.drop_first(), out + group_bytes(g2, 5), seq![])
        } else {
            a85_from(s.drop_first(), out, g2)
        }
    }
}

/// Whether `s` starts with `<~`, the marker Adobe's standalone encoding writes.
pub open spec fn starts_with_marker(s: Seq<u8>) -> bool {
    s.len() >= 2 && s[0] == 60 && s[1] == 126
}

/// What `ASCII85Decode` makes of `s`.
pub open spec fn spec_a85_decode(s: Seq<u8>) -> Result<Seq<u8>, Option<u8>> {
    a85_from(if starts_with_marker(s) { s.skip(2) } else { s }, seq![], seq![])
}

/// What five base-85 digits spell, without the 32-bit wrap.
pub open spec fn digits_value(g: Seq<u8>) -> int {
    (((g[0] * 85 + g[1]) * 85 + g[2]) * 85 + g[3]) * 85 + g[4]
}

/// Four bytes as a 32-bit value, most significant first.
pub open spec fn word(b: Seq<u8>) -> int {
    b[0] * 16777216 + b[1] * 65536 + b[2] * 256 + b[3]
}

/// The five base-85 digits of a value below 2^32, most significant first.
pub open spec fn base85_digits(v: int) -> Seq<u8> {
    let q1 = v / 85;
    let q2 = q1 / 85;
    let q3 = q2 / 85;
    let q4 = q3 / 85;
    seq![(q4 % 85) as u8, (q3 % 85) as u8, (q2 % 85) as u8, (q1 % 85) as u8, (v % 85) as u8]
}

/// Digits written as the characters `!` (0) to `u` (84).
pub open spec fn digit_chars(d: Seq<u8>) -> Seq<u8> {
    d.map_values(|x: u8| (x + 33) as u8)
}

/// The standard base-85 encoding of `b` (7.4.3), without its `~>`: each four bytes as
/// five digits, and a final group of `n` bytes padded with zero bytes and written as its
/// first `n + 1` digits.
pub open spec fn a85_encode(b: Seq<u8>) -> Seq<u8>
    decreases b.len(),
{
    if b.len() == 0 {
        Seq::empty()
    } else if b.len() < 4 {
        digit_chars(base85_digits(word(b + Seq::new((4 - b.len()) as nat, |_i: int| 0u8)))).take(b.len() + 1int)
    } else {
        digit_chars(base85_digits(word(b.take(4)))) + a85_encode(b.skip(4))
    }
}

/// The bytes of a value `v` that lies between `b` followed by zero bytes and less than
/// `b`'s next value: its first bytes are `b`'s.
#[verifier::rlimit(30)]
proof fn lemma_leading_bytes(b: Seq<u8>, v: int)
    requires
        1 <= b.len() <= 4,
        ({
            let low = (4 - b.len()) as nat;
            let base = word(b + Seq::new(low, |_i: int| 0u8));
            let step = if b.len() == 1 { 16777216int } else if b.len() == 2 { 65536int } else if b.len() == 3 { 256int } else { 1int };
            base <= v < base + step
        }),
    ensures
        be_bytes(v).take(b.len() as int) == b,
{
    let low = (4 - b.len()) as nat;
    let p = b + Seq::new(low, |_i: int| 0u8);
    assert(p[0] == b[0]);
    let r = v - word(p);
    if b.len() == 1 {
        vstd::arithmetic::div_mod::lemma_fundamental_div_mod_converse(v, 16777216, b[0] as int, r);
    } else if b.len() == 2 {
        assert(p[1] == b[1] && p[2] == 0 && p[3] == 0);
        vstd::arithmetic::div_mod::lemma_fundamental_div_mod_converse(v, 16777216, b[0] as int, b[1] * 65536 + r);
        vstd::arithmetic::div_mod::lemma_fundamental_div_mod_converse(v, 65536, b[0] * 256 + b[1], r);
        vstd::arithmetic::div_mod::lemma_fundamental_div_mod_converse(b[0] * 256 + b[1], 256, b[0] as int, b[1] as int);
    } else if b.len() == 3 {
        assert(p[1] == b[1] && p[2] == b[2] && p[3] == 0);
        vstd::arithmetic::div_mod::lemma_fundamental_div_mod_converse(v, 16777216, b[0] as int, b[1] * 65536 + b[2] * 256 + r);
        vstd::arithmetic::div_mod::lemma_fundamental_div_mod_converse(v, 65536, b[0] * 256 + b[1], b[2] * 256 + r);
        vstd::arithmetic::div_mod::lemma_fundamental_div_mod_converse(b[0] * 256 + b[1], 256, b[0] as int, b[1] as int);
        vstd::arithmetic::div_mod::lemma_fundamental_div_mod_converse(v, 256, b[0] * 65536 + b[1] * 256 + b[2], r);
        vstd::arithmetic::div_mod::lemma_fundamental_div_mod_converse(
            b[0] * 65536 + b[1] * 256 + b[2],
            256,
            b[0] * 256 + b[1],
            b[2] as int,
        );
    } else {
        assert(p =~= b);
        vstd::arithmetic::div_mod::lemma_fundamental_div_mod_converse(v, 16777216, b[0] as int, b[1] * 65536 + b[2] * 256 + b[3]);
        vstd::arithmetic::div_mod::lemma_fundamental_div_mod_converse(v, 65536, b[0] * 256 + b[1], b[2] * 256 + b[3]);
        vstd::arithmetic::div_mod::lemma_fundamental_div_mod_converse(b[0] * 256 + b[1], 256, b[0] as int, b[1] as int);
        vstd::arithmetic::div_mod::lemma_fundamental_div_mod_converse(v, 256, b[0] * 65536 + b[1] * 256 + b[2], b[3] as int);
        vstd::arithmetic::div_mod::lemma_fundamental_div_mod_converse(
            b[0] * 65536 + b[1] * 256 + b[2],
            256,
            b[0] * 256 + b[1],
            b[2] as int,
        );
    }
    assert(be_bytes(v).take(b.len() as int) =~= b);
}

/// A value below 2^32 is what its digits spell; padding digits past the `k`th with the
/// highest digit spells the value with its low digits all 84.
#[verifier::rlimit(30)]
proof fn lemma_digits_spell(v: int)
    requires
        0 <= v < 4294967296,
    ensures
        ({
            let d = base85_digits(v);
            let q1 = v / 85;
            let q2 = q1 / 85;
            let q3 = q2 / 85;
            &&& forall|i: int| 0 <= i < 5 ==> #[trigger] d[i] < 85
            &&& group_value(d) == v
            &&& digits_value(seq![d[0], d[1], d[2], d[3], 84u8]) == q1 * 85 + 84
            &&& digits_value(seq![d[0], d[1], d[2], 84u8, 84u8]) == q2 * 7225 + 7224
            &&& digits_value(seq![d[0], d[1], 84u8, 84u8, 84u8]) == q3 * 614125 + 614124
            &&& q1 * 85 <= v < q1 * 85 + 85
            &&& q2 * 7225 <= v < q2 * 7225 + 7225
            &&& q3 * 614125 <= v < q3 * 614125 + 614125
        }),
{
    let q1 = v / 85;
    let q2 = q1 / 85;
    let q3 = q2 / 85;
    let q4 = q3 / 85;
    vstd::arithmetic::div_mod::lemma_fundamental_div_mod(v, 85);
    vstd::arithmetic::div_mod::lemma_fundamental_div_mod(q1, 85);
    vstd::arithmetic::div_mod::lemma_fundamental_div_mod(q2, 85);
    vstd::arithmetic::div_mod::lemma_fundamental_div_mod(q3, 85);
    assert(0 <= v % 85 < 85 && 0 <= q1 % 85 < 85 && 0 <= q2 % 85 < 85 && 0 <= q3 % 85 < 85);
    assert(q4 < 85);
    assert(q4 % 85 == q4);
    let d = base85_digits(v);
    assert(d[0] == q4 && d[1] == q3 % 85 && d[2] == q2 % 85 && d[3] == q1 % 85 && d[4] == v % 85);
    assert(((((q4 * 85 + q3 % 85) * 85 + q2 % 85) * 85 + q1 % 85) * 85 + v % 85) == v);
    assert(group_value(d) == v);
    assert(digits_value(seq![d[0], d[1], d[2], d[3], 84u8]) == q1 * 85 + 84);
    assert(digits_value(seq![d[0], d[1], d[2], 84u8, 84u8]) == q2 * 7225 + 7224);
    assert(digits_value(seq![d[0], d[1], 84u8, 84u8, 84u8]) == q3 * 614125 + 614124);
}

/// Feeding digit characters to the decoder adds their digits to the group in progress,
/// and a group of five becomes its bytes.
#[verifier::rlimit(30)]
proof fn lemma_feed(cs: Seq<u8>, rest: Seq<u8>, out: Seq<u8>, g: Seq<u8>)
    requires
        forall|i: int| 0 <= i < cs.len() ==> 33 <= #[trigger] cs[i] <= 117,
        g.len() + cs.len() <= 5,
        g.len() < 5,
    ensures
        ({
            let all = g + cs.map_values(|c: u8| (c - 33) as u8);
            if all.len() < 5 {
                a85_from(cs + rest, out, g) == a85_from(rest, out, all)
            } else {
                a85_from(cs + rest, out, g) == a85_from(rest, out + group_bytes(all, 5), Seq::empty())
            }
        }),
    decreases cs.len(),
{
    let all = g + cs.map_values(|c: u8| (c - 33) as u8);
    if cs.len() == 0 {
        assert(cs + rest =~= rest);
        assert(all =~= g);
    } else {
        let s = cs + rest;
        assert(s[0] == cs[0]);
        assert(s.drop_first() =~= cs.drop_first() + rest);
        let g2 = g.push((cs[0] - 33) as u8);
        assert(g2 + cs.drop_first().map_values(|c: u8| (c - 33) as u8) =~= all);
        if g2.len() == 5 {
            assert(cs.drop_first().len() == 0);
            assert(cs.drop_first() + rest =~= rest);
            assert(all =~= g2);
        } else {
            lemma_feed(cs.drop_first(), rest, out, g2);
        }
    }
}

/// Digits as characters are read back as the digits.
proof fn lemma_chars_back(d: Seq<u8>)
    requires
        forall|i: int| 0 <= i < d.len() ==> #[trigger] d[i] < 85,
    ensures
        forall|i: int| 0 <= i < d.len() ==> 33 <= #[trigger] digit_chars(d)[i] <= 117,
        digit_chars(d).map_values(|c: u8| (c - 33) as u8) =~= d,
{
}

/// The zero-padded value of a short group of bytes.
pub open spec fn padded_word(b: Seq<u8>) -> int {
    word(b + Seq::new((4 - b.len()) as nat, |_i: int| 0u8))
}

/// A group of 1 byte: its padded digits spell its value with the low digits all 84.
#[verifier::rlimit(30)]
proof fn lemma_short_value_1(b: Seq<u8>) -> (w: int)
    requires
        b.len() == 1,
    ensures
        w == group_value(pad_group(base85_digits(padded_word(b)).take(2))),
        padded_word(b) <= w < padded_word(b) + 614125,
        padded_word(b) + 16777216 <= 4294967296,
{
    let p = b + Seq::new(3, |_i: int| 0u8);
    let v = word(p);
    assert(p[0] == b[0] && p[1] == 0 && p[2] == 0 && p[3] == 0);
    lemma_digits_spell(v);
    let d = base85_digits(v);
    let pg = pad_group(d.take(2));
    assert(pg =~= seq![d[0], d[1], 84u8, 84u8, 84u8]);
    assert(0 <= digits_value(pg) < 4294967296);
    digits_value(pg)
}

/// A group of 2 bytes: its padded digits spell its value with the low digits all 84.
#[verifier::rlimit(30)]
proof fn lemma_short_value_2(b: Seq<u8>) -> (w: int)
    requires
        b.len() == 2,
    ensures
        w == group_value(pad_group(base85_digits(padded_word(b)).take(3))),
        padded_word(b) <= w < padded_word(b) + 7225,
        padded_word(b) + 65536 <= 4294967296,
{
    let p = b + Seq::new(2, |_i: int| 0u8);
    let v = word(p);
    assert(p[0] == b[0] && p[1] == b[1] && p[2] == 0 && p[3] == 0);
    lemma_digits_spell(v);
    let d = base85_digits(v);
    let pg = pad_group(d.take(3));
    assert(pg =~= seq![d[0], d[1], d[2], 84u8, 84u8]);
    assert(0 <= digits_value(pg) < 4294967296);
    digits_value(pg)
}

/// A group of 3 bytes: its padded digits spell its value with the low digits all 84.
#[verifier::rlimit(30)]
proof fn lemma_short_value_3(b: Seq<u8>) -> (w: int)
    requires
        b.len() == 3,
    ensures
        w == group_value(pad_group(base85_digits(padded_word(b)).take(4))),
        padded_word(b) <= w < padded_word(b) + 85,
        padded_word(b) + 256 <= 4294967296,
{
    let p = b + Seq::new(1, |_i: int| 0u8);
    let v = word(p);
    assert(p[0] == b[0] && p[1] == b[1] && p[2] == b[2] && p[3] == 0);
    lemma_digits_spell(v);
    let d = base85_digits(v);
    let pg = pad_group(d.take(4));
    assert(pg =~= seq![d[0], d[1], d[2], d[3], 84u8]);
    assert(0 <= digits_value(pg) < 4294967296);
    digits_value(pg)
}

/// The padded group of a short group's leading digits spells the value it came from
/// with its low digits all 84, below 2^32.
proof fn lemma_short_value(b: Seq<u8>) -> (w: int)
    requires
        1 <= b.len() < 4,
    ensures
        w == group_value(pad_group(base85_digits(padded_word(b)).take(b.len() + 1int))),
        padded_word(b) <= w,
        b.len() == 1 ==> w < padded_word(b) + 614125,
        b.len() == 2 ==> w < padded_word(b) + 7225,
        b.len() == 3 ==> w < padded_word(b) + 85,
        padded_word(b) + (if b.len() == 1 { 16777216int } else if b.len() == 2 { 65536int } else { 256int })
            <= 4294967296,
{
    if b.len() == 1 {
        lemma_short_value_1(b)
    } else if b.len() == 2 {
        lemma_short_value_2(b)
    } else {
        lemma_short_value_3(b)
    }
}

/// A short group's leading digits, padded with the highest digit, spell bytes that
/// begin with the group's bytes.
proof fn lemma_short_bytes(b: Seq<u8>)
    requires
        1 <= b.len() < 4,
    ensures
        group_bytes(pad_group(base85_digits(padded_word(b)).take(b.len() + 1int)), b.len() + 1int) == b,
{
    let w = lemma_short_value(b);
    lemma_leading_bytes(b, w);
}

/// Five digits spell the four bytes they encode.
proof fn lemma_full_bytes(head: Seq<u8>)
    requires
        head.len() == 4,
    ensures
        group_bytes(base85_digits(word(head)), 5) == head,
{
    let v = word(head);
    lemma_digits_spell(v);
    assert(head + Seq::new(0, |_i: int| 0u8) =~= head);
    lemma_leading_bytes(head, v);
    assert(be_bytes(v).take(4) =~= be_bytes(v));
}

/// The characters of a value's digits are digit characters, read back as the digits.
proof fn lemma_digit_chars_of(v: int)
    requires
        0 <= v < 4294967296,
    ensures
        forall|i: int| 0 <= i < 5 ==> 33 <= #[trigger] digit_chars(base85_digits(v))[i] <= 117,
        digit_chars(base85_digits(v)).map_values(|c: u8| (c - 33) as u8) =~= base85_digits(v),
{
    lemma_digits_spell(v);
    lemma_chars_back(base85_digits(v));
}

/// Decoding a short final group's encoding, ended by `~>`, after `out`.
#[verifier::rlimit(30)]
proof fn lemma_round_trip_short(b: Seq<u8>, out: Seq<u8>)
    requires
        1 <= b.len() < 4,
    ensures
        a85_from(a85_encode(b) + seq![126u8, 62u8], out, Seq::empty()) == Ok::<Seq<u8>, Option<u8>>(out + b),
{
    let tail = seq![126u8, 62u8];
    let n = b.len() as int;
    let p = b + Seq::new((4 - b.len()) as nat, |_i: int| 0u8);
    assert(p[0] == b[0]);
    let v = padded_word(b);
    lemma_digit_chars_of(v);
    let d = base85_digits(v);
    let cs = digit_chars(d).take(n + 1);
    assert(a85_encode(b) == cs);
    assert forall|i: int| 0 <= i < cs.len() implies 33 <= #[trigger] cs[i] <= 117 by {
        assert(cs[i] == digit_chars(d)[i]);
    }
    lemma_feed(cs, tail, out, Seq::empty());
    let g = Seq::<u8>::empty() + cs.map_values(|c: u8| (c - 33) as u8);
    assert(g =~= d.take(n + 1));
    lemma_short_bytes(b);
}

/// Decoding the encoding of `b`, ended by `~>`, after `out`, gives `out` then `b`.
#[verifier::rlimit(30)]
proof fn lemma_round_trip(b: Seq<u8>, out: Seq<u8>)
    ensures
        a85_from(a85_encode(b) + seq![126u8, 62u8], out, Seq::empty()) == Ok::<Seq<u8>, Option<u8>>(out + b),
    decreases b.len(),
{
    let tail = seq![126u8, 62u8];
    if b.len() == 0 {
        assert(a85_encode(b) + tail =~= tail);
        assert(out + b =~= out);
    } else if b.len() < 4 {
        lemma_round_trip_short(b, out);
    } else {
        let head = b.take(4);
        let v = word(head);
        lemma_digit_chars_of(v);
        let d = base85_digits(v);
        let cs = digit_chars(d);
        let rest = a85_encode(b.skip(4)) + tail;
        assert(a85_encode(b) + tail =~= cs + rest);
        lemma_feed(cs, rest, out, Seq::empty());
        assert(Seq::<u8>::empty() + cs.map_values(|c: u8| (c - 33) as u8) =~= d);
        lemma_full_bytes(head);
        lemma_round_trip(b.skip(4), out + head);
        assert(out + head + b.skip(4) =~= out + b);
    }
}

/// What the standard base-85 encoding of any bytes decodes to, ended by `~>`: those
/// bytes, a short final group included. The encoder pads a short group with zero bytes
/// and keeps its leading digits, so the decoder must pad with the highest digit to get
/// the same bytes back.
pub proof fn law_a85_decodes_its_encoding(b: Seq<u8>)
    ensures
        spec_a85_decode(a85_encode(b) + seq![126u8, 62u8]) == Ok::<Seq<u8>, Option<u8>>(b),
{
    let s = a85_encode(b) + seq![126u8, 62u8];
    if b.len() > 0 {
        assert(s[1] <= 117) by {
            if b.len() < 4 {
                let p = b + Seq::new((4 - b.len()) as nat, |_i: int| 0u8);
                assert(p[0] == b[0]);
                lemma_digit_chars_of(padded_word(b));
                assert(s[1] == digit_chars(base85_digits(padded_word(b)))[1]);
            } else {
                lemma_digit_chars_of(word(b.take(4)));
                assert(s[1] == digit_chars(base85_digits(word(b.take(4))))[1]);
            }
        }
    }
    assert(!starts_with_marker(s));
    lemma_round_trip(b, Seq::empty());
    assert(Seq::<u8>::empty() + b =~= b);
}

/// The message for a final group of one digit.
pub open spec fn lone_digit_message() -> Seq<char> {
    "a final group of one character encodes no byte (7.4.3)"@
}

/// One base-85 digit, or the refusal naming the character that is not one.
fn digit(byte: u8) -> (r: PdfResult<u8>)
    ensures
        33 <= byte <= 117 ==> r == Ok::<u8, PdfError>((byte - 33) as u8),
        !(33 <= byte <= 117) ==> (r matches Err(PdfError::Filter { filter: f, message: m }) && f@
            == "ASCII85Decode"@ && m@ == bad_byte_message(byte, "' is outside the base-85 alphabet"@)),
{
    if 33 <= byte && byte <= 117 {
        Ok(byte - 33)
    } else {
        Err(bad_byte("ASCII85Decode", byte, "' is outside the base-85 alphabet"))
    }
}

/// Expands one group of five digits onto `out`, keeping `count - 1` of its bytes.
fn push_group(out: &mut Vec<u8>, group: &Vec<u8>, count: usize)
    requires
        group@.len() == 5,
        forall|j: int| 0 <= j < 5 ==> group@[j] < 85,
        2 <= count <= 5,
    ensures
        final(out)@ == old(out)@ + group_bytes(group@, count as int),
{
    let g0 = group[0] as u64;
    let g1 = group[1] as u64;
    let g2 = group[2] as u64;
    let g3 = group[3] as u64;
    let g4 = group[4] as u64;
    let total: u64 = (((g0 * 85 + g1) * 85 + g2) * 85 + g3) * 85 + g4;
    let value: u64 = total % 4294967296;
    assert(value == group_value(group@));
    let ghost bytes = be_bytes(value as int);
    let b0 = ((value / 16777216) % 256) as u8;
    let b1 = ((value / 65536) % 256) as u8;
    let b2 = ((value / 256) % 256) as u8;
    let b3 = (value % 256) as u8;
    let ghost start = out@;
    out.push(b0);
    if count > 2 {
        out.push(b1);
    }
    if count > 3 {
        out.push(b2);
    }
    if count > 4 {
        out.push(b3);
    }
    assert(out@ =~= start + bytes.take(count - 1));
}

/// `ASCII85Decode` (7.4.3): base-85 in groups of five, `~>` ends the data.
pub struct Ascii85Filter;

impl Ascii85Filter {
    /// Decodes base-85 text into the bytes it spells.
    pub fn decode(&self, input: &[u8], _cx: &FilterContext<'_>) -> (r: PdfResult<Vec<u8>>)
        ensures
            match spec_a85_decode(input@) {
                Ok(bytes) => r matches Ok(out) && out@ == bytes,
                Err(Some(b)) => r matches Err(PdfError::Filter { filter: f, message: m }) && f@
                    == "ASCII85Decode"@ && m@ == bad_byte_message(
                    b,
                    "' is outside the base-85 alphabet"@,
                ),
                Err(None) => r matches Err(PdfError::Filter { filter: f, message: m }) && f@
                    == "ASCII85Decode"@ && m@ == lone_digit_message(),
            },
    {
        decode_a85(input)
    }
}

/// The whole of `ASCII85Decode`.
pub fn decode_a85(input: &[u8]) -> (r: PdfResult<Vec<u8>>)
    ensures
        match spec_a85_decode(input@) {
            Ok(bytes) => r matches Ok(out) && out@ == bytes,
            Err(Some(b)) => r matches Err(PdfError::Filter { filter: f, message: m }) && f@
                == "ASCII85Decode"@ && m@ == bad_byte_message(b, "' is outside the base-85 alphabet"@),
            Err(None) => r matches Err(PdfError::Filter { filter: f, message: m }) && f@
                == "ASCII85Decode"@ && m@ == lone_digit_message(),
        },
{
    let mut out: Vec<u8> = Vec::new();
    let mut group: Vec<u8> = Vec::new();
    // A leading `<~` is not in 7.4.3 — it belongs to Adobe's standalone encoding — but
    // producers emit it, and refusing the whole stream over two bytes that carry no data
    // would be reading the clause more strictly than the files behave.
    let mut i: usize = if input.len() >= 2 && input[0] == 60 && input[1] == 126 {
        2
    } else {
        0
    };
    let ghost data = if starts_with_marker(input@) {
        input@.skip(2)
    } else {
        input@
    };
    assert(input@.skip(i as int) =~= data);
    while i < input.len() && input[i] != 126
        invariant
            i <= input@.len(),
            spec_a85_decode(input@) == a85_from(input@.skip(i as int), out@, group@),
            group@.len() < 5,
            forall|j: int| 0 <= j < group@.len() ==> group@[j] < 85,
        decreases input@.len() - i,
    {
        let byte = input[i];
        let ghost rest = input@.skip(i as int);
        assert(rest.drop_first() =~= input@.skip(i + 1));
        if is_skipped(byte) {
            i = i + 1;
            continue;
        }
        if byte == 122 && group.len() == 0 {
            let ghost before = out@;
            out.push(0);
            out.push(0);
            out.push(0);
            out.push(0);
            assert(out@ =~= before + seq![0u8, 0u8, 0u8, 0u8]);
            i = i + 1;
            continue;
        }
        let d = digit(byte)?;
        group.push(d);
        if group.len() == 5 {
            push_group(&mut out, &group, 5);
            group = Vec::new();
            assert(group@ =~= Seq::<u8>::empty());
        }
        i = i + 1;
    }
    proof {
        if i < input.len() {
            assert(input@.skip(i as int)[0] == 126);
        }
    }
    let n = group.len();
    if n == 0 {
        return Ok(out);
    }
    if n == 1 {
        proof {
            reveal_strlit("a final group of one character encodes no byte (7.4.3)");
        }
        return Err(
            filter_error(
                "ASCII85Decode",
                text("a final group of one character encodes no byte (7.4.3)"),
            ),
        );
    }
    // A short final group is padded with the *highest* digit, and yields one fewer byte
    // than it has characters.
    let ghost short = group@;
    while group.len() < 5
        invariant
            2 <= short.len() < 5,
            short.len() <= group@.len() <= 5,
            group@ =~= short + Seq::new((group@.len() - short.len()) as nat, |_i: int| 84u8),
            forall|j: int| 0 <= j < group@.len() ==> group@[j] < 85,
        decreases 5 - group@.len(),
    {
        group.push(84);
    }
    assert(group@ =~= pad_group(short));
    push_group(&mut out, &group, n);
    Ok(out)
}

} // verus!

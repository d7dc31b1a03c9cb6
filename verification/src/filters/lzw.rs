//! `LZWDecode` (7.4.4.2).
//!
//! LZW is what PDF used before 1.2 and what a producer targeting older readers still
//! emits, so a file that needs it is an old file rather than an exotic one.
//!
//! `/EarlyChange` is the detail that makes two implementations disagree: with its default
//! of 1 the code width grows one code sooner than the table filling would suggest. A
//! decoder that ignores it produces plausible-looking rubbish rather than an error, which
//! is the worst failure mode available here.

use crate::error::{concat, decimal, decimal_text, filter_error, text, PdfError, PdfResult};
use crate::filters::predictor::unpredict;
use crate::filters::{filter_result_matches, lzw_outcome, spec_param_int, then_unpredict, FilterContext};
use crate::object::opt_ref;
use crate::object::{Arena, Object};
use vstd::prelude::*;

verus! {

/// LZW can expand far more than it compresses, and a crafted stream is a
/// denial-of-service dressed as a document: this is the most it may produce.
pub const MAX_DECOMPRESSED_SIZE: usize = 134217728;

/// The code that empties the table.
pub const CLEAR_TABLE: u16 = 256;

/// The code that ends the data.
pub const END_OF_DATA: u16 = 257;

/// The table a decoder starts from: the 256 single bytes, then the two control codes.
pub open spec fn initial_table() -> Seq<Seq<u8>> {
    Seq::new(258, |i: int| if i < 256 { seq![i as u8] } else { Seq::<u8>::empty() })
}

/// What a code names in the table: an entry that exists and is not a control code.
pub open spec fn table_get(t: Seq<Seq<u8>>, code: int) -> Option<Seq<u8>> {
    if 0 <= code < t.len() && (t[code].len() > 0 || code < 256) {
        Some(t[code])
    } else {
        None
    }
}

/// The width the next code is read at, for a table of `len` entries. `/EarlyChange` 1
/// widens one entry sooner.
pub open spec fn spec_next_width(len: int, early_change: int) -> int {
    let n = len + early_change;
    if n <= 511 {
        9
    } else if n <= 1023 {
        10
    } else if n <= 2047 {
        11
    } else {
        12
    }
}

/// Bit `pos` of `data`, counting from the most significant bit of the first byte.
pub open spec fn bit_at(data: Seq<u8>, pos: int) -> u8 {
    (data[pos / 8] >> ((7 - pos % 8) as u8)) & 1u8
}

/// The `width` bits from `pos`, most significant first, as a number.
pub open spec fn bits_value(data: Seq<u8>, pos: int, width: int) -> int
    decreases width,
{
    if width <= 0 {
        0
    } else {
        bits_value(data, pos, width - 1) * 2 + bit_at(data, pos + width - 1)
    }
}

/// `LZWDecode` over `data` from bit `pos`, with `table`, the previous entry and the output
/// so far. A failure is the code that names no entry, or `None` when the output passed
/// [`MAX_DECOMPRESSED_SIZE`]. Data that stops before an end-of-data code keeps what it has.
pub open spec fn lzw_from(
    data: Seq<u8>,
    pos: int,
    table: Seq<Seq<u8>>,
    prev: Option<Seq<u8>>,
    out: Seq<u8>,
    early_change: int,
) -> Result<Seq<u8>, Option<u16>>
    decreases 8 * data.len() - pos,
{
    let w = spec_next_width(table.len() as int, early_change);
    if pos < 0 || pos + w > 8 * data.len() {
        Ok(out)
    } else {
        let code = bits_value(data, pos, w);
        let next = pos + w;
        if code == 256 {
            lzw_from(data, next, initial_table(), None, out, early_change)
        } else if code == 257 {
            Ok(out)
        } else {
            let entry = match table_get(table, code) {
                Some(e) => Some(e),
                None => if code == table.len() {
                    match prev {
                        Some(p) => Some(p.push(p[0])),
                        None => None,
                    }
                } else {
                    None
                },
            };
            match entry {
                None => Err(Some(code as u16)),
                Some(e) => {
                    let out2 = out + e;
                    if out2.len() > MAX_DECOMPRESSED_SIZE {
                        Err(None)
                    } else {
                        let table2 = match prev {
                            Some(p) => if table.len() < 4096 {
                                table.push(p.push(e[0]))
                            } else {
                                table
                            },
                            None => table,
                        };
                        lzw_from(data, next, table2, Some(e), out2, early_change)
                    }
                },
            }
        }
    }
}

/// A clear-table code forgets everything decoded before it. Two decoders that read the
/// code 256 at the same place and width go on to give the same result whatever their
/// tables and previous strings; and one that reads it at the starting width goes on as
/// a decoder that begins at that code with the table it starts from and no previous
/// string.
pub proof fn law_clear_code_starts_afresh(
    data: Seq<u8>,
    pos: int,
    t1: Seq<Seq<u8>>,
    p1: Option<Seq<u8>>,
    t2: Seq<Seq<u8>>,
    p2: Option<Seq<u8>>,
    out: Seq<u8>,
    early_change: int,
)
    requires
        0 <= pos,
        0 <= early_change <= 1,
        spec_next_width(t1.len() as int, early_change) == spec_next_width(t2.len() as int, early_change),
        pos + spec_next_width(t1.len() as int, early_change) <= 8 * data.len(),
        bits_value(data, pos, spec_next_width(t1.len() as int, early_change)) == 256,
    ensures
        lzw_from(data, pos, t1, p1, out, early_change) == lzw_from(data, pos, t2, p2, out, early_change),
        spec_next_width(t1.len() as int, early_change) == 9 ==> lzw_from(data, pos, t1, p1, out, early_change)
            == lzw_from(data, pos, initial_table(), None, out, early_change),
{
    assert(initial_table().len() == 258);
}

/// What `LZWDecode` makes of `data` with this `/EarlyChange`.
pub open spec fn spec_lzw_decode(data: Seq<u8>, early_change: int) -> Result<Seq<u8>, Option<u16>> {
    lzw_from(data, 0, initial_table(), None, seq![], early_change)
}

/// The message for a code that names no entry.
pub open spec fn bad_code_message(code: u16) -> Seq<char> {
    "code "@ + decimal(code as nat) + " names no table entry"@
}

/// The message for output past the limit.
pub open spec fn too_large_message() -> Seq<char> {
    "expanded past the limit of 134217728 bytes"@
}

/// What a failure of the spec is, as the decoder reports it.
pub open spec fn lzw_result_matches(
    spec: Result<Seq<u8>, Option<u16>>,
    r: PdfResult<Vec<u8>>,
) -> bool {
    match spec {
        Ok(bytes) => r matches Ok(out) && out@ == bytes,
        Err(Some(code)) => r matches Err(PdfError::Filter { filter: f, message: m }) && f@
            == "LZWDecode"@ && m@ == bad_code_message(code),
        Err(None) => r matches Err(PdfError::Filter { filter: f, message: m }) && f@
            == "LZWDecode"@ && m@ == too_large_message(),
    }
}

/// The table of expansions, indexed by code.
///
/// Entries 0–255 are the single bytes, 256 and 257 are the two control codes, and
/// everything from 258 is built as the stream is read.
pub struct Table {
    /// Each code's expansion.
    pub entries: Vec<Vec<u8>>,
}

/// The view of a table: each entry's bytes.
pub open spec fn table_view(t: Seq<Vec<u8>>) -> Seq<Seq<u8>> {
    Seq::new(t.len(), |i: int| t[i]@)
}

/// A copy of `v`.
pub fn copy_bytes(v: &Vec<u8>) -> (r: Vec<u8>)
    ensures
        r@ == v@,
{
    let mut out: Vec<u8> = Vec::new();
    let mut i: usize = 0;
    while i < v.len()
        invariant
            i <= v@.len(),
            out@ == v@.subrange(0, i as int),
        decreases v@.len() - i,
    {
        out.push(v[i]);
        assert(v@.subrange(0, i + 1) =~= v@.subrange(0, i as int).push(v@[i as int]));
        i = i + 1;
    }
    assert(v@.subrange(0, v@.len() as int) =~= v@);
    out
}

impl Table {
    /// The table a decoder starts from, and returns to at every clear code.
    pub fn new() -> (t: Self)
        ensures
            table_view(t.entries@) == initial_table(),
    {
        let mut entries: Vec<Vec<u8>> = Vec::new();
        let mut b: u16 = 0;
        while b < 256
            invariant
                b <= 256,
                entries@.len() == b,
                table_view(entries@) =~= Seq::new(b as nat, |i: int| seq![i as u8]),
            decreases 256 - b,
        {
            let mut one: Vec<u8> = Vec::new();
            one.push(b as u8);
            assert(one@ =~= seq![b as u8]);
            let ghost prev = table_view(entries@);
            entries.push(one);
            assert(entries@.len() == b + 1);
            assert forall|i: int| 0 <= i < b + 1 implies table_view(entries@)[i] == seq![
                i as u8,
            ] by {
                if i < b {
                    assert(table_view(entries@)[i] == prev[i]);
                }
            }
            assert(table_view(entries@) =~= Seq::new((b + 1) as nat, |i: int| seq![i as u8]));
            b = b + 1;
        }
        let ghost singles = table_view(entries@);
        entries.push(Vec::new());
        entries.push(Vec::new());
        assert(entries@.len() == 258);
        assert forall|i: int| 0 <= i < 258 implies table_view(entries@)[i] == initial_table()[i] by {
            if i < 256 {
                assert(table_view(entries@)[i] == singles[i]);
            }
        }
        assert(table_view(entries@) =~= initial_table());
        Table { entries }
    }

    /// The expansion of `code`, if it names one.
    fn get(&self, code: u16) -> (r: Option<Vec<u8>>)
        ensures
            match r {
                Some(e) => table_get(table_view(self.entries@), code as int) == Some(e@),
                None => table_get(table_view(self.entries@), code as int).is_none(),
            },
    {
        let i = code as usize;
        if i < self.entries.len() && (self.entries[i].len() > 0 || code < CLEAR_TABLE) {
            Some(copy_bytes(&self.entries[i]))
        } else {
            None
        }
    }

    /// How many entries the table holds, as a code.
    pub fn len(&self) -> (n: u16)
        ensures
            n == self.entries@.len() as u16,
    {
        self.entries.len() as u16
    }

    /// The width the *next* code will be read at.
    ///
    /// `early_change` is why this is not simply "the width that holds `len()`": with the
    /// default of 1 the width grows one entry sooner.
    pub fn next_width(&self, early_change: u16) -> (w: u32)
        requires
            self.entries@.len() as u16 + early_change <= u16::MAX,
        ensures
            w == spec_next_width((self.entries@.len() as u16) as int, early_change as int),
    {
        let n = self.len() + early_change;
        if n <= 511 {
            9
        } else if n <= 1023 {
            10
        } else if n <= 2047 {
            11
        } else {
            12
        }
    }
}

/// Codes are packed most significant bit first and are not byte-aligned.
struct BitReader<'a> {
    data: &'a [u8],
    byte: usize,
    offset: u8,
}

impl<'a> BitReader<'a> {
    spec fn pos(&self) -> int {
        8 * self.byte + self.offset
    }

    spec fn wf(&self) -> bool {
        self.offset < 8 && self.pos() <= 8 * self.data@.len()
    }

    /// The next `width` bits, or `None` once the data runs out.
    ///
    /// Running out is not an error: 7.4.4.2 requires an end-of-data code, and files exist
    /// that simply stop instead. Returning what was decoded so far is what every other
    /// reader does, and erroring would lose a page over a missing two bytes.
    fn read(&mut self, width: u32) -> (r: Option<u16>)
        requires
            old(self).wf(),
            1 <= width <= 12,
        ensures
            final(self).data@ == old(self).data@,
            match r {
                Some(v) => old(self).pos() + width <= 8 * old(self).data@.len() && v as int
                    == bits_value(old(self).data@, old(self).pos(), width as int) && final(self).pos()
                    == old(self).pos() + width && final(self).wf(),
                None => old(self).pos() + width > 8 * old(self).data@.len(),
            },
    {
        let mut value: u32 = 0;
        let mut byte = self.byte;
        let mut offset = self.offset;
        let mut k: u32 = 0;
        let ghost start = self.pos();
        while k < width
            invariant
                self.wf(),
                start == self.pos(),
                k <= width <= 12,
                offset < 8,
                8 * byte + offset == start + k,
                8 * byte + offset <= 8 * self.data@.len(),
                value as int == bits_value(self.data@, start, k as int),
                value < two_to(k as int),
            decreases width - k,
        {
            if byte >= self.data.len() {
                return None;
            }
            let shift: u8 = 7 - offset;
            let b = self.data[byte];
            let bit = (b >> shift) & 1;
            assert(bit <= 1) by (bit_vector)
                requires
                    bit == (b >> shift) & 1,
            ;
            assert((8 * byte + offset) / 8 == byte);
            assert((8 * byte + offset) % 8 == offset);
            proof {
                lemma_two_to_12(k as int);
            }
            value = value * 2 + bit as u32;
            k = k + 1;
            if offset == 7 {
                offset = 0;
                byte = byte + 1;
            } else {
                offset = offset + 1;
            }
        }
        self.byte = byte;
        self.offset = offset;
        proof {
            lemma_two_to_12(width as int);
        }
        Some(value as u16)
    }
}

/// 2 to the power `k`.
pub open spec fn two_to(k: int) -> int
    decreases k,
{
    if k <= 0 {
        1
    } else {
        2 * two_to(k - 1)
    }
}

proof fn lemma_two_to_mono(k: int, n: int)
    requires
        0 <= k <= n,
    ensures
        two_to(k) <= two_to(n),
    decreases n - k,
{
    if k < n {
        lemma_two_to_pos(k);
        lemma_two_to_mono(k + 1, n);
    }
}

proof fn lemma_two_to_pos(k: int)
    ensures
        two_to(k) >= 1,
    decreases k,
{
    if k > 0 {
        lemma_two_to_pos(k - 1);
    }
}

proof fn lemma_two_to_12(k: int)
    requires
        0 <= k <= 12,
    ensures
        two_to(k) <= 4096,
{
    reveal_with_fuel(two_to, 13);
    lemma_two_to_mono(k, 12);
}

/// `LZWDecode` with this `/EarlyChange`.
pub fn decode_lzw(input: &[u8], early_change: u16) -> (r: PdfResult<Vec<u8>>)
    requires
        early_change <= 1,
    ensures
        lzw_result_matches(spec_lzw_decode(input@, early_change as int), r),
{
    let mut table = Table::new();
    let mut out: Vec<u8> = Vec::new();
    let mut previous: Option<Vec<u8>> = None;
    let mut bits = BitReader { data: input, byte: 0, offset: 0 };
    proof {
        assert forall|i: int| 0 <= i < 256 implies #[trigger] table.entries@[i]@ == seq![
            i as u8,
        ] by {
            assert(table_view(table.entries@)[i] == table.entries@[i]@);
        }
    }
    loop
        invariant
            bits.data@ == input@,
            bits.wf(),
            early_change <= 1,
            258 <= table.entries@.len() <= 4096,
            forall|i: int|
                258 <= i < table.entries@.len() ==> #[trigger] table.entries@[i]@.len() > 0,
            forall|i: int| 0 <= i < 256 ==> #[trigger] table.entries@[i]@ == seq![i as u8],
            previous matches Some(p) ==> p@.len() > 0,
            out@.len() <= MAX_DECOMPRESSED_SIZE,
            spec_lzw_decode(input@, early_change as int) == lzw_from(
                input@,
                bits.pos(),
                table_view(table.entries@),
                opt_bytes(previous),
                out@,
                early_change as int,
            ),
        decreases 8 * input@.len() - bits.pos(),
    {
        let ghost pos = bits.pos();
        let ghost tv = table_view(table.entries@);
        let ghost pv = opt_bytes(previous);
        let width = table.next_width(early_change);
        assert(tv.len() == table.entries@.len());
        let code = match bits.read(width) {
            Some(c) => c,
            None => {
                return Ok(out);
            },
        };
        if code == CLEAR_TABLE {
            table = Table::new();
            previous = None;
            proof {
                assert forall|i: int| 0 <= i < 256 implies #[trigger] table.entries@[i]@ == seq![
                    i as u8,
                ] by {
                    assert(table_view(table.entries@)[i] == table.entries@[i]@);
                }
            }
            continue;
        }
        if code == END_OF_DATA {
            return Ok(out);
        }
        let entry = match table.get(code) {
            Some(found) => found,
            None => {
                // The one legal forward reference: a code for the entry this step is about
                // to add, which expands to the previous string plus its own first byte.
                if code == table.len() {
                    match &previous {
                        Some(prev) => {
                            let mut e = copy_bytes(prev);
                            e.push(prev[0]);
                            e
                        },
                        None => {
                            return Err(bad_code(code));
                        },
                    }
                } else {
                    return Err(bad_code(code));
                }
            },
        };
        proof {
            if (code as int) < tv.len() && (code as int) >= 258 {
                assert(tv[code as int] == table.entries@[code as int]@);
            }
            if (code as int) < 256 {
                assert(tv[code as int] == table.entries@[code as int]@);
            }
        }
        assert(entry@.len() > 0);
        let ghost before = out@;
        let mut j: usize = 0;
        while j < entry.len()
            invariant
                j <= entry@.len(),
                out@ == before + entry@.subrange(0, j as int),
            decreases entry@.len() - j,
        {
            out.push(entry[j]);
            assert(entry@.subrange(0, j + 1) =~= entry@.subrange(0, j as int).push(entry@[j as int]));
            j = j + 1;
        }
        assert(entry@.subrange(0, entry@.len() as int) =~= entry@);
        if out.len() > MAX_DECOMPRESSED_SIZE {
            proof {
                reveal_strlit("expanded past the limit of 134217728 bytes");
            }
            return Err(
                filter_error("LZWDecode", text("expanded past the limit of 134217728 bytes")),
            );
        }
        let first = entry[0];
        match previous {
            Some(prev) => {
                if table.entries.len() < 4096 {
                    let mut new_entry = prev;
                    new_entry.push(first);
                    table.entries.push(new_entry);
                    proof {
                        assert(table_view(table.entries@) =~= tv.push(pv->Some_0.push(entry@[0])));
                    }
                }
            },
            None => {},
        }
        previous = Some(entry);
    }
}

/// The bytes an optional entry holds.
pub open spec fn opt_bytes(o: Option<Vec<u8>>) -> Option<Seq<u8>> {
    match o {
        Some(v) => Some(v@),
        None => None,
    }
}

/// The refusal for a code that names no entry.
fn bad_code(code: u16) -> (e: PdfError)
    ensures
        e matches PdfError::Filter { filter: f, message: m } && f@ == "LZWDecode"@ && m@
            == bad_code_message(code),
{
    let m = concat(concat(text("code "), decimal_text(code as u64).as_str()), " names no table entry");
    filter_error("LZWDecode", m)
}

/// Reads `/DecodeParms` for one integer, when it is a dictionary that carries it.
pub fn int_param(params: &Object, arena: &Arena, key: &str) -> (r: Option<i64>)
    ensures
        r == match arena.spec_dict_of(*params) {
            Some(d) => match d.spec_get(key@) {
                Some(v) => arena.spec_integer_of(v),
                None => None,
            },
            None => None,
        },
{
    match arena.dict_of(params) {
        Some(d) => match d.get(key) {
            Some(v) => arena.integer_of(v),
            None => None,
        },
        None => None,
    }
}

/// `/EarlyChange` as the parameters give it: 1 when absent, and clamped to 0 or 1.
pub open spec fn spec_early_change(p: Option<i64>) -> u16 {
    match p {
        Some(v) => if v <= 0 {
            0
        } else {
            1
        },
        None => 1,
    }
}

/// The `LZWDecode` stream filter.
pub struct LzwFilter;

impl LzwFilter {
    /// Decodes with the `/EarlyChange` the parameters give, then undoes the predictor
    /// they name.
    pub fn decode(&self, input: &[u8], cx: &FilterContext<'_>) -> (r: PdfResult<Vec<u8>>)
        ensures
            filter_result_matches(
                r,
                then_unpredict(
                    "LZWDecode"@,
                    lzw_outcome(
                        input@,
                        spec_early_change(spec_param_int(opt_ref(cx.params), *cx.arena, "EarlyChange"@)) as int,
                    ),
                    opt_ref(cx.params),
                    *cx.arena,
                ),
            ),
    {
        let mut early_change: u16 = 1;
        match cx.params {
            Some(p) => match int_param(p, cx.arena, "EarlyChange") {
                Some(v) => {
                    early_change = if v <= 0 {
                        0
                    } else {
                        1
                    };
                },
                None => {},
            },
            None => {},
        }
        match decode_lzw(input, early_change) {
            Ok(bytes) => match unpredict(bytes, cx.params, cx.arena) {
                Ok(v) => Ok(v),
                Err(m) => Err(filter_error("LZWDecode", m)),
            },
            Err(e) => Err(e),
        }
    }
}

} // verus!

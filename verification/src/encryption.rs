//! What protects a document, and how far the engine conforms in handling it (7.6).
//!
//! Conformance is stated per file, against what the code implements rather than what
//! the dictionary declares: a file can declare AES-256 and still be unreadable.

use crate::decision::Decision;
use crate::decrypt::{
    permissions, spec_encryption_dict, spec_permissions, Access,
};
use crate::error::{char_text, concat, text, PdfError, PdfResult};
use crate::object::{str_eq, Arena, Dict, Object};
use crate::object::{first_match, lemma_first_match_some};
use crate::text::{
    chars_of, find_sorted, insert_sorted, is_white, lemma_lex_irreflexive, lossy_text, str_set, string_of,
    strictly_sorted, trimmed, utf8_lossy, views, white,
};
use vstd::prelude::*;

verus! {

/// How far the engine conforms in handling a given security handler.
#[derive(Clone, Copy, Debug, PartialEq, Eq, Structural)]
pub enum Conformance {
    /// Implemented against the standard's algorithms and cross-checked against an
    /// independent implementation.
    Implemented,
    /// Implemented, with a documented departure from the clause.
    NonConformant,
    /// Not implemented: the document stays encrypted and its content unreadable.
    Unsupported,
}

/// One permission bit of Table 22, and whether the document grants it.
#[derive(Debug)]
pub struct Permission {
    /// The bit position the standard numbers it by, counting from 1.
    pub bit: u8,
    /// What the bit governs.
    pub meaning: &'static str,
    /// Whether the document allows it.
    pub granted: bool,
}

/// How many bits of Table 22 are not reserved.
pub const PERMISSION_COUNT: usize = 8;

/// Table 22, for revision 3 and later: each row the bit, the keyword that names it, and
/// what it means. Bits 1, 2, 7 and 8 are reserved. One table serves reading a `/P` and
/// writing one, so the two cannot disagree.
#[verifier::opaque]
pub open spec fn permission_rows() -> Seq<(u8, Seq<char>, Seq<char>)> {
    seq![
        (3u8, "print"@, "print"@),
        (4u8, "modify"@, "modify contents"@),
        (5u8, "copy"@, "copy or extract text and graphics"@),
        (6u8, "annotate"@, "add or modify annotations and fill form fields"@),
        (9u8, "forms"@, "fill form fields, even with bit 6 clear"@),
        (10u8, "accessibility"@, "extract for accessibility (deprecated in PDF 2.0)"@),
        (11u8, "assemble"@, "assemble: insert, rotate or delete pages"@),
        (12u8, "print-high"@, "print at high resolution"@),
    ]
}

/// The `i`th row of Table 22.
pub fn permission_row(i: usize) -> (r: (u8, &'static str, &'static str))
    requires
        i < PERMISSION_COUNT,
    ensures
        r.0 == permission_rows()[i as int].0,
        r.1@ == permission_rows()[i as int].1,
        r.2@ == permission_rows()[i as int].2,
        3 <= r.0 <= 12,
{
    proof {
        reveal(permission_rows);
    }
    match i {
        0 => (3, "print", "print"),
        1 => (4, "modify", "modify contents"),
        2 => (5, "copy", "copy or extract text and graphics"),
        3 => (6, "annotate", "add or modify annotations and fill form fields"),
        4 => (9, "forms", "fill form fields, even with bit 6 clear"),
        5 => (10, "accessibility", "extract for accessibility (deprecated in PDF 2.0)"),
        6 => (11, "assemble", "assemble: insert, rotate or delete pages"),
        _ => (12, "print-high", "print at high resolution"),
    }
}

/// The keywords of Table 22's rows, in the table's order.
pub fn permission_keywords() -> (r: Vec<&'static str>)
    ensures
        r@.len() == PERMISSION_COUNT,
        forall|i: int| 0 <= i < PERMISSION_COUNT ==> (#[trigger] r@[i])@ == permission_rows()[i].1,
{
    let mut out: Vec<&'static str> = Vec::new();
    let mut i: usize = 0;
    while i < PERMISSION_COUNT
        invariant
            i <= PERMISSION_COUNT,
            out@.len() == i,
            forall|k: int| 0 <= k < i ==> (#[trigger] out@[k])@ == permission_rows()[k].1,
        decreases PERMISSION_COUNT - i,
    {
        out.push(permission_row(i).1);
        i = i + 1;
    }
    out
}

/// The bit a keyword names, searching Table 22 from the `i`th row.
pub open spec fn keyword_bit(k: Seq<char>, i: int) -> Option<u8>
    decreases PERMISSION_COUNT - i,
{
    if i < 0 || i >= PERMISSION_COUNT {
        None
    } else if permission_rows()[i].1 == k {
        Some(permission_rows()[i].0)
    } else {
        keyword_bit(k, i + 1)
    }
}

/// The bit a keyword names.
fn bit_of(k: &str) -> (r: Option<u8>)
    ensures
        r == keyword_bit(k@, 0),
        r matches Some(b) ==> 3 <= b <= 12,
{
    let mut i: usize = 0;
    while i < PERMISSION_COUNT
        invariant
            i <= PERMISSION_COUNT,
            keyword_bit(k@, 0) == keyword_bit(k@, i as int),
        decreases PERMISSION_COUNT - i,
    {
        let (bit, keyword, _) = permission_row(i);
        if str_eq(keyword, k) {
            return Some(bit);
        }
        i = i + 1;
    }
    None
}

/// The fields of `s` between commas, as `str::split(',')` gives them: one more than
/// there are commas, empty fields included.
pub open spec fn split_commas(s: Seq<char>) -> Seq<Seq<char>>
    decreases s.len(),
{
    if s.len() == 0 {
        seq![Seq::<char>::empty()]
    } else {
        let r = split_commas(s.drop_last());
        if s.last() == ',' {
            r.push(Seq::empty())
        } else {
            r.update(r.len() - 1, r.last().push(s.last()))
        }
    }
}

/// There is always at least one field.
pub proof fn lemma_split_nonempty(s: Seq<char>)
    ensures
        split_commas(s).len() >= 1,
    decreases s.len(),
{
    if s.len() > 0 {
        lemma_split_nonempty(s.drop_last());
    }
}

/// The fields trimmed of white space, empty ones dropped.
pub open spec fn keywords_in(fields: Seq<Seq<char>>) -> Seq<Seq<char>>
    decreases fields.len(),
{
    if fields.len() == 0 {
        Seq::empty()
    } else {
        let rest = keywords_in(fields.drop_last());
        let t = trimmed(fields.last());
        if t.len() > 0 {
            rest.push(t)
        } else {
            rest
        }
    }
}

/// Bits 1 and 2 clear, the eight meaningful bits of Table 22 clear, and every other bit
/// set: what a `/P` is before anything is granted.
pub const DENY_ALL: u32 = 0xFFFF_F0C0;

/// The bits granted by `keys`, read left to right, or the first key that names no bit.
pub open spec fn grant(keys: Seq<Seq<char>>) -> Result<u32, Seq<char>>
    decreases keys.len(),
{
    if keys.len() == 0 {
        Ok(DENY_ALL)
    } else {
        match grant(keys.drop_last()) {
            Err(k) => Err(k),
            Ok(b) => match keyword_bit(keys.last(), 0) {
                None => Err(keys.last()),
                Some(bit) => Ok(b | (1u32 << ((bit - 1) as u32))),
            },
        }
    }
}

/// What `{:?}` writes for a string: quoted, with the escapes `str`'s `Debug` uses.
pub uninterp spec fn debug_text(s: Seq<char>) -> Seq<char>;

/// Formats `s` with `{:?}`, which quotes it and escapes what needs escaping.
///
/// Trusted: the contract claims only that the result is a function of `s`, named
/// [`debug_text`].
#[verifier::external_body]
fn debug_quoted(s: &str) -> (r: String)
    ensures
        r@ == debug_text(s@),
{
    format!("{s:?}")
}

/// The keywords from the `i`th row on, each after a comma and a space.
pub open spec fn keywords_after(i: int) -> Seq<char>
    decreases PERMISSION_COUNT - i,
{
    if i < 0 || i >= PERMISSION_COUNT {
        Seq::empty()
    } else {
        ", "@ + permission_rows()[i].1 + keywords_after(i + 1)
    }
}

/// The keywords Table 22 defines, joined with commas.
pub open spec fn keyword_list() -> Seq<char> {
    permission_rows()[0].1 + keywords_after(1)
}

/// Why a keyword was refused, naming the ones that are not.
pub open spec fn refusal(keyword: Seq<char>) -> Seq<char> {
    debug_text(keyword) + " is not a permission; the ones Table 22 defines are "@ + keyword_list()
}

/// The keywords of Table 22 joined with commas.
fn joined_keywords() -> (r: String)
    ensures
        r@ == keyword_list(),
{
    let mut tail = String::new();
    let mut i: usize = PERMISSION_COUNT;
    while i > 1
        invariant
            1 <= i <= PERMISSION_COUNT,
            tail@ == keywords_after(i as int),
        decreases i,
    {
        i = i - 1;
        let piece = concat(text(", "), permission_row(i).1);
        tail = concat(piece, tail.as_str());
    }
    concat(text(permission_row(0).1), tail.as_str())
}

/// The white space at either end of `cs[lo..hi]` skipped.
fn trim_bounds(cs: &Vec<char>, lo: usize, hi: usize) -> (r: (usize, usize))
    requires
        lo <= hi <= cs@.len(),
    ensures
        lo <= r.0 <= r.1 <= hi,
        trimmed(cs@.subrange(lo as int, hi as int)) == cs@.subrange(r.0 as int, r.1 as int),
{
    let mut a = lo;
    while a < hi && white(cs[a])
        invariant
            lo <= a <= hi <= cs@.len(),
            trimmed(cs@.subrange(lo as int, hi as int)) == trimmed(cs@.subrange(a as int, hi as int)),
        decreases hi - a,
    {
        assert(cs@.subrange(a as int, hi as int).drop_first() =~= cs@.subrange(a + 1, hi as int));
        a = a + 1;
    }
    let mut b = hi;
    while b > a && white(cs[b - 1])
        invariant
            lo <= a <= b <= hi <= cs@.len(),
            a < b ==> !is_white(cs@[a as int]),
            trimmed(cs@.subrange(lo as int, hi as int)) == trimmed(cs@.subrange(a as int, b as int)),
        decreases b - a,
    {
        assert(cs@.subrange(a as int, b as int).drop_last() =~= cs@.subrange(a as int, b - 1));
        assert(cs@.subrange(a as int, b as int)[0] == cs@[a as int]);
        b = b - 1;
    }
    proof {
        if a < b {
            assert(cs@.subrange(a as int, b as int)[0] == cs@[a as int]);
            assert(cs@.subrange(a as int, b as int).last() == cs@[b - 1]);
        }
    }
    (a, b)
}

/// What granting one more field does: its trimmed keyword, when there is one, grants its
/// bit, or becomes the refusal; a refusal already made stands.
fn take_field(cs: &Vec<char>, start: usize, end: usize, state: Result<u32, String>, Ghost(done): Ghost<Seq<Seq<char>>>) -> (r: Result<u32, String>)
    requires
        start <= end <= cs@.len(),
        match grant(keywords_in(done)) {
            Ok(b) => state == Ok::<u32, String>(b),
            Err(k) => state matches Err(s) && s@ == k,
        },
    ensures
        match grant(keywords_in(done.push(cs@.subrange(start as int, end as int)))) {
            Ok(b) => r == Ok::<u32, String>(b),
            Err(k) => r matches Err(s) && s@ == k,
        },
{
    let ghost field = cs@.subrange(start as int, end as int);
    let (a, b) = trim_bounds(cs, start, end);
    assert(done.push(field).drop_last() =~= done);
    if a < b {
        assert(keywords_in(done.push(field)).drop_last() =~= keywords_in(done));
        let keyword = string_of(cs.as_slice(), a, b);
        match state {
            Err(k) => Err(k),
            Ok(bits) => match bit_of(keyword.as_str()) {
                None => Err(keyword),
                Some(bit) => Ok(bits | (1u32 << ((bit - 1) as u32))),
            },
        }
    } else {
        state
    }
}

/// Builds a `/P` from a comma-separated list of keywords: what is named is granted and
/// everything else denied, so an empty list grants nothing. The reserved bits follow
/// Table 22: 1 and 2 cleared, the rest set.
///
/// Fails on the first keyword that is not one of [`permission_keywords`], naming the
/// ones that are.
pub fn permissions_from_keywords(list: &str) -> (r: PdfResult<i32>)
    ensures
        match grant(keywords_in(split_commas(list@))) {
            Ok(bits) => r == Ok::<i32, PdfError>(bits as i32),
            Err(k) => r matches Err(PdfError::Other(m)) && m@ == refusal(k),
        },
{
    let cs = chars_of(list);
    let n = cs.len();
    let mut state: Result<u32, String> = Ok(DENY_ALL);
    let ghost mut done: Seq<Seq<char>> = Seq::empty();
    let mut start: usize = 0;
    let mut i: usize = 0;
    proof {
        assert(cs@.take(0) =~= Seq::<char>::empty());
        assert(split_commas(cs@.take(0)) =~= done.push(cs@.subrange(0, 0)));
    }
    while i < n
        invariant
            cs@ == list@,
            n == cs@.len(),
            start <= i <= n,
            split_commas(cs@.take(i as int)) == done.push(cs@.subrange(start as int, i as int)),
            match grant(keywords_in(done)) {
                Ok(b) => state == Ok::<u32, String>(b),
                Err(k) => state matches Err(s) && s@ == k,
            },
        decreases n - i,
    {
        proof {
            assert(cs@.take(i + 1).drop_last() =~= cs@.take(i as int));
            assert(cs@.take(i + 1).last() == cs@[i as int]);
            lemma_split_nonempty(cs@.take(i as int));
        }
        if cs[i] == ',' {
            state = take_field(&cs, start, i, state, Ghost(done));
            proof {
                assert(split_commas(cs@.take(i + 1)) == done.push(cs@.subrange(start as int, i as int)).push(Seq::<char>::empty()));
                assert(cs@.subrange(i + 1, i + 1) =~= Seq::<char>::empty());
                done = done.push(cs@.subrange(start as int, i as int));
            }
            start = i + 1;
        } else {
            proof {
                assert(cs@.subrange(start as int, i + 1) =~= cs@.subrange(start as int, i as int).push(cs@[i as int]));
                assert(split_commas(cs@.take(i + 1)) =~= done.push(cs@.subrange(start as int, i + 1)));
            }
        }
        i = i + 1;
    }
    state = take_field(&cs, start, n, state, Ghost(done));
    proof {
        assert(cs@.take(n as int) =~= cs@);
    }
    match state {
        Ok(bits) => Ok(bits as i32),
        Err(k) => {
            let m = concat(concat(debug_quoted(k.as_str()), " is not a permission; the ones Table 22 defines are "), joined_keywords().as_str());
            Err(PdfError::Other(m))
        },
    }
}

/// Whether the bits `bits` grant the permission numbered `bit` (counting from 1).
pub open spec fn bit_set(bits: i32, bit: u8) -> bool {
    (bits as u32) & (1u32 << ((bit - 1) as u32)) != 0
}

/// Table 22, decoded: each row's bit, its meaning, and whether `bits` grants it. A
/// cleared bit denies; the reserved bits are not reported; no `/P` makes no claim.
pub fn decode_permissions(bits: Option<i32>) -> (r: Vec<Permission>)
    ensures
        bits is None ==> r@.len() == 0,
        bits matches Some(b) ==> r@.len() == PERMISSION_COUNT && forall|i: int|
            0 <= i < PERMISSION_COUNT ==> {
                &&& (#[trigger] r@[i]).bit == permission_rows()[i].0
                &&& r@[i].meaning@ == permission_rows()[i].2
                &&& r@[i].granted == bit_set(b, permission_rows()[i].0)
            },
{
    let mut out: Vec<Permission> = Vec::new();
    let b = match bits {
        Some(b) => b,
        None => {
            return out;
        },
    };
    let mut i: usize = 0;
    while i < PERMISSION_COUNT
        invariant
            i <= PERMISSION_COUNT,
            out@.len() == i,
            forall|k: int| 0 <= k < i ==> {
                &&& (#[trigger] out@[k]).bit == permission_rows()[k].0
                &&& out@[k].meaning@ == permission_rows()[k].2
                &&& out@[k].granted == bit_set(b, permission_rows()[k].0)
            },
        decreases PERMISSION_COUNT - i,
    {
        let (bit, _, meaning) = permission_row(i);
        out.push(Permission { bit, meaning, granted: (b as u32) & (1u32 << ((bit - 1) as u32)) != 0 });
        i = i + 1;
    }
    out
}

/// What the engine can do with this `/V` and `/R`, as opposed to what the dictionary
/// claims, and why in one phrase.
pub open spec fn spec_judge(version: Option<i64>, revision: Option<i64>) -> (Conformance, Seq<char>) {
    let v = match version {
        Some(v) => v,
        None => 0,
    };
    let r = match revision {
        Some(r) => r,
        None => 0,
    };
    if (v == 1 || v == 2) && 2 <= r <= 3 {
        (Conformance::Implemented, "RC4 to Algorithms 1 to 6, checked against an independent implementation"@)
    } else if v == 4 && r == 4 {
        (Conformance::Implemented, "AES-128 or RC4 by /CFM, to Algorithms 1 to 6, cross-checked against PDFKit"@)
    } else if v == 5 && r == 6 {
        (Conformance::Implemented, "AES-256 to Algorithms 2.A and 2.B, with /Perms checked and SASLprep applied to the password (its mappings and NFKC, not its refusals)"@)
    } else if v == 5 && r == 5 {
        (Conformance::Implemented, "AES-256 at Adobe's revision 5, which hashes once where revision 6 runs Algorithm 2.B; deprecated by PDF 2.0 but still read"@)
    } else {
        (Conformance::Unsupported, "no handler is implemented for this /V and /R"@)
    }
}

/// How far the engine conforms for this `/V` and `/R`.
pub fn judge(version: Option<i64>, revision: Option<i64>) -> (r: (Conformance, &'static str))
    ensures
        r.0 == spec_judge(version, revision).0,
        r.1@ == spec_judge(version, revision).1,
{
    let v = match version {
        Some(v) => v,
        None => 0,
    };
    let r = match revision {
        Some(r) => r,
        None => 0,
    };
    if (v == 1 || v == 2) && 2 <= r && r <= 3 {
        (Conformance::Implemented, "RC4 to Algorithms 1 to 6, checked against an independent implementation")
    } else if v == 4 && r == 4 {
        (Conformance::Implemented, "AES-128 or RC4 by /CFM, to Algorithms 1 to 6, cross-checked against PDFKit")
    } else if v == 5 && r == 6 {
        (Conformance::Implemented, "AES-256 to Algorithms 2.A and 2.B, with /Perms checked and SASLprep applied to the password (its mappings and NFKC, not its refusals)")
    } else if v == 5 && r == 5 {
        (Conformance::Implemented, "AES-256 at Adobe's revision 5, which hashes once where revision 6 runs Algorithm 2.B; deprecated by PDF 2.0 but still read")
    } else {
        (Conformance::Unsupported, "no handler is implemented for this /V and /R")
    }
}

/// `/Length` in bits, written in place, defaulting as 7.6.4.2 does: 40 for `/V 1` and
/// 256 for `/V 5`.
pub open spec fn spec_key_bits(encrypt: Dict, version: Option<i64>) -> Option<usize> {
    match encrypt.spec_integer_entry("Length"@) {
        Some(bits) => if 0 <= bits <= usize::MAX {
            Some(bits as usize)
        } else {
            None
        },
        None => match version {
            Some(1) => Some(40),
            Some(5) => Some(256),
            _ => None,
        },
    }
}

/// The key length in bits.
pub fn key_bits(encrypt: &Dict, version: Option<i64>) -> (r: Option<usize>)
    ensures
        r == spec_key_bits(*encrypt, version),
{
    match encrypt.integer_entry("Length") {
        Some(bits) => if 0 <= bits && (bits as u64) <= (usize::MAX as u64) {
            Some(bits as usize)
        } else {
            None
        },
        None => match version {
            Some(1) => Some(40),
            Some(5) => Some(256),
            _ => None,
        },
    }
}

/// A crypt filter (7.6.5).
pub struct CryptFilter {
    /// The name it is registered under in `/CF`.
    pub name: String,
    /// `/CFM`: `V2`, `AESV2`, `AESV3` or `None`.
    pub method: String,
    /// Whether `/StmF` names it for streams.
    pub for_streams: bool,
    /// Whether `/StrF` names it for strings.
    pub for_strings: bool,
}

/// The `/CF` dictionary of `/Encrypt`.
pub open spec fn spec_cf(arena: Arena, encrypt: Dict) -> Option<Dict> {
    match encrypt.spec_get("CF"@) {
        Some(o) => arena.spec_as_dict(o),
        None => None,
    }
}

/// Whether `key` of `cf` names a crypt filter: its value is a dictionary.
pub open spec fn names_filter(arena: Arena, cf: Dict, key: Seq<char>) -> bool {
    match cf.spec_get(key) {
        Some(v) => arena.spec_as_dict(v).is_some(),
        None => false,
    }
}

/// `/CFM` of a crypt filter, written in place, `None` when absent.
pub open spec fn spec_cfm(f: Dict) -> Seq<char> {
    match f.spec_name_entry("CFM"@) {
        Some(m) => m,
        None => "None"@,
    }
}

/// What the report says of the crypt filter registered under `f.name`.
pub open spec fn filter_reads(arena: Arena, encrypt: Dict, cf: Dict, f: CryptFilter) -> bool {
    match cf.spec_get(f.name@) {
        Some(v) => match arena.spec_as_dict(v) {
            Some(d) => {
                &&& f.method@ == spec_cfm(d)
                &&& f.for_streams == (encrypt.spec_name_entry("StmF"@) == Some(f.name@))
                &&& f.for_strings == (encrypt.spec_name_entry("StrF"@) == Some(f.name@))
            },
            None => false,
        },
        None => false,
    }
}

/// The names of crypt filters among the first `j` entries of `cf`.
pub open spec fn filter_names_upto(arena: Arena, cf: Dict, j: int) -> Set<Seq<char>> {
    Set::new(|k: Seq<char>| exists|m: int| 0 <= m < j && #[trigger] cf.entries@[m].0@ == k && names_filter(arena, cf, k))
}

/// Whether the optional name `n` is `k`.
fn names(n: Option<&String>, k: &str) -> (r: bool)
    ensures
        r == match n {
            Some(s) => s@ == k@,
            None => false,
        },
{
    match n {
        Some(s) => str_eq(s.as_str(), k),
        None => false,
    }
}

/// The crypt filters `/CF` defines, sorted by name, each with its method and whether
/// `/StmF` and `/StrF` name it.
pub fn read_crypt_filters(arena: &Arena, encrypt: &Dict) -> (r: Vec<CryptFilter>)
    ensures
        spec_cf(*arena, *encrypt).is_none() ==> r@.len() == 0,
        spec_cf(*arena, *encrypt) matches Some(cf) ==> {
            &&& strictly_sorted(r@.map_values(|f: CryptFilter| f.name@))
            &&& forall|i: int| 0 <= i < r@.len() ==> filter_reads(*arena, *encrypt, cf, #[trigger] r@[i])
            &&& forall|k: Seq<char>| names_filter(*arena, cf, k) ==> exists|i: int|
                0 <= i < r@.len() && #[trigger] r@[i].name@ == k
        },
{
    let cf = match encrypt.get("CF") {
        Some(o) => match arena.as_dict(o) {
            Some(d) => d,
            None => {
                return Vec::new();
            },
        },
        None => {
            return Vec::new();
        },
    };
    let mut keys: Vec<String> = Vec::new();
    let mut j: usize = 0;
    assert(str_set(keys@) =~= filter_names_upto(*arena, *cf, 0));
    while j < cf.entries.len()
        invariant
            j <= cf.entries@.len(),
            strictly_sorted(views(keys@)),
            str_set(keys@) == filter_names_upto(*arena, *cf, j as int),
        decreases cf.entries@.len() - j,
    {
        let key = cf.entries[j].0.as_str();
        let is_filter = match cf.get(key) {
            Some(v) => arena.as_dict(v).is_some(),
            None => false,
        };
        if is_filter {
            insert_sorted(&mut keys, key);
            assert(str_set(keys@) =~= filter_names_upto(*arena, *cf, j + 1)) by {
                assert(cf.entries@[j as int].0@ == key@);
            }
        } else {
            assert(str_set(keys@) =~= filter_names_upto(*arena, *cf, j + 1));
        }
        j = j + 1;
    }
    let stream_filter = encrypt.name_entry("StmF");
    let string_filter = encrypt.name_entry("StrF");
    let mut out: Vec<CryptFilter> = Vec::new();
    let mut i: usize = 0;
    while i < keys.len()
        invariant
            i <= keys@.len(),
            out@.len() == i,
            forall|m: int| 0 <= m < i ==> (#[trigger] out@[m]).name@ == keys@[m]@,
            forall|m: int| 0 <= m < i ==> filter_reads(*arena, *encrypt, *cf, #[trigger] out@[m]),
            str_set(keys@) == filter_names_upto(*arena, *cf, cf.entries@.len() as int),
            match stream_filter {
                Some(s) => encrypt.spec_name_entry("StmF"@) == Some(s@),
                None => encrypt.spec_name_entry("StmF"@).is_none(),
            },
            match string_filter {
                Some(s) => encrypt.spec_name_entry("StrF"@) == Some(s@),
                None => encrypt.spec_name_entry("StrF"@).is_none(),
            },
            spec_cf(*arena, *encrypt) == Some(*cf),
        decreases keys@.len() - i,
    {
        let name = keys[i].as_str();
        proof {
            assert(views(keys@)[i as int] == keys@[i as int]@);
            assert(str_set(keys@).contains(name@));
        }
        let d = match cf.get(name) {
            Some(v) => match arena.as_dict(v) {
                Some(d) => d,
                None => {
                    proof {
                        let m = choose|m: int| 0 <= m < cf.entries@.len() && #[trigger] cf.entries@[m].0@ == name@ && names_filter(*arena, *cf, name@);
                    }
                    return out;
                },
            },
            None => {
                return out;
            },
        };
        let method = match d.name_entry("CFM") {
            Some(m) => text(m.as_str()),
            None => text("None"),
        };
        out.push(CryptFilter {
            name: text(name),
            method,
            for_streams: names(stream_filter, name),
            for_strings: names(string_filter, name),
        });
        i = i + 1;
    }
    proof {
        assert(out@.map_values(|f: CryptFilter| f.name@) =~= views(keys@));
        assert forall|k: Seq<char>| names_filter(*arena, *cf, k) implies exists|m: int|
            0 <= m < out@.len() && #[trigger] out@[m].name@ == k by {
            lemma_first_match_some(cf.entries@, k);
            let m = choose|m: int| 0 <= m < cf.entries@.len() && #[trigger] cf.entries@[m].0@ == k;
            assert(filter_names_upto(*arena, *cf, cf.entries@.len() as int).contains(k));
            let x = choose|x: int| 0 <= x < views(keys@).len() && views(keys@)[x] == k;
            assert(out@[x].name@ == k);
        }
    }
    out
}

/// An encrypted payload carried by an unencrypted wrapper document (7.6.7): the real
/// document is embedded, encrypted by a filter this standard does not define, and a
/// reader without that filter can still tell which one is missing.
pub struct EncryptedPayload {
    /// `/EP /Subtype`: the name of the cryptographic filter needed (Table 28).
    pub filter: String,
    /// `/EP /Version`, if the producer gave one, kept as the name was written.
    pub filter_version: Option<String>,
    /// `/UF` or `/F` from the file specification.
    pub file_name: Option<String>,
    /// `/Desc`, where a producer puts the instructions the clause asks for.
    pub description: Option<String>,
    /// Which of 7.6.7's conditions the file meets.
    pub conditions_met: Vec<String>,
    /// Which it does not.
    pub conditions_unmet: Vec<String>,
}

/// The name `key` holds, through a reference.
pub open spec fn name_in(arena: Arena, d: Dict, key: Seq<char>) -> Option<Seq<char>> {
    match d.spec_get(key) {
        Some(o) => arena.spec_name_of(o),
        None => None,
    }
}

/// The text `key` holds, through a reference: a text string as it is, a byte string as
/// UTF-8.
pub open spec fn text_in(arena: Arena, d: Dict, key: Seq<char>) -> Option<Seq<char>> {
    match d.spec_get(key) {
        Some(o) => match arena.spec_resolve(o) {
            Object::String(b) => Some(utf8_lossy(b@)),
            Object::Hex(b) => Some(utf8_lossy(b@)),
            Object::Text(t) => Some(t@),
            _ => None,
        },
        None => None,
    }
}

/// The name `key` holds.
fn name_at(arena: &Arena, d: &Dict, key: &str) -> (r: Option<String>)
    ensures
        match r {
            Some(s) => name_in(*arena, *d, key@) == Some(s@),
            None => name_in(*arena, *d, key@).is_none(),
        },
{
    match d.get(key) {
        Some(o) => match arena.name_of(o) {
            Some(n) => Some(text(n.as_str())),
            None => None,
        },
        None => None,
    }
}

/// The text `key` holds.
fn text_at(arena: &Arena, d: &Dict, key: &str) -> (r: Option<String>)
    ensures
        match r {
            Some(s) => text_in(*arena, *d, key@) == Some(s@),
            None => text_in(*arena, *d, key@).is_none(),
        },
{
    match d.get(key) {
        Some(o) => match arena.resolve(o) {
            Object::String(b) => Some(lossy_text(b.as_slice())),
            Object::Hex(b) => Some(lossy_text(b.as_slice())),
            Object::Text(t) => Some(text(t.as_str())),
            _ => None,
        },
        None => None,
    }
}

/// The dictionary `key` holds, through a reference.
pub open spec fn dict_in(arena: Arena, d: Dict, key: Seq<char>) -> Option<Dict> {
    match d.spec_get(key) {
        Some(o) => arena.spec_as_dict(o),
        None => None,
    }
}

/// The array `key` holds, through a reference.
pub open spec fn array_in(arena: Arena, d: Dict, key: Seq<char>) -> Option<Seq<Object>> {
    match d.spec_get(key) {
        Some(o) => arena.spec_array_of(o),
        None => None,
    }
}

/// The conditions of 7.6.7 a wrapper's catalogue can meet before its file specification
/// is reached, each with whether this catalogue meets it.
pub open spec fn catalogue_conditions(arena: Arena, catalog: Dict) -> Seq<(bool, Seq<char>)> {
    let collection = dict_in(arena, catalog, "Collection"@);
    let embedded = match dict_in(arena, catalog, "Names"@) {
        Some(n) => match dict_in(arena, n, "EmbeddedFiles"@) {
            Some(e) => array_in(arena, e, "Names"@),
            None => None,
        },
        None => None,
    };
    let af = array_in(arena, catalog, "AF"@);
    seq![
        (collection.is_some(), "/Collection in the catalogue"@),
        (
            match collection {
                Some(c) => c.spec_name_entry("View"@) == Some("H"@),
                None => false,
            },
            "/Collection /View /H"@,
        ),
        (
            match embedded {
                Some(names) => names.len() == 2,
                None => false,
            },
            "exactly one entry in the EmbeddedFiles name tree"@,
        ),
        (
            match af {
                Some(a) => a.len() > 0,
                None => false,
            },
            "/AF names the payload"@,
        ),
    ]
}

/// The conditions met, in order.
pub open spec fn met_of(conds: Seq<(bool, Seq<char>)>) -> Seq<Seq<char>>
    decreases conds.len(),
{
    if conds.len() == 0 {
        Seq::empty()
    } else if conds.last().0 {
        met_of(conds.drop_last()).push(conds.last().1)
    } else {
        met_of(conds.drop_last())
    }
}

/// The conditions not met, in order.
pub open spec fn unmet_of(conds: Seq<(bool, Seq<char>)>) -> Seq<Seq<char>>
    decreases conds.len(),
{
    if conds.len() == 0 {
        Seq::empty()
    } else if !conds.last().0 {
        unmet_of(conds.drop_last()).push(conds.last().1)
    } else {
        unmet_of(conds.drop_last())
    }
}

/// The file specification `/AF` names first.
pub open spec fn payload_spec(arena: Arena, catalog: Dict) -> Option<Dict> {
    match array_in(arena, catalog, "AF"@) {
        Some(a) => if a.len() > 0 {
            arena.spec_as_dict(a[0])
        } else {
            None
        },
        None => None,
    }
}

/// Every condition of 7.6.7, the file specification's and the filter's included.
pub open spec fn all_conditions(arena: Arena, catalog: Dict, spec: Dict) -> Seq<(bool, Seq<char>)> {
    catalogue_conditions(arena, catalog) + seq![
        (
            name_in(arena, spec, "AFRelationship"@) == Some("EncryptedPayload"@),
            "/AFRelationship /EncryptedPayload"@,
        ),
        (true, "/EP /Subtype names the filter"@),
    ]
}

/// Whether this file is an unencrypted wrapper, and what its payload needs (7.6.7).
///
/// A wrapper is recognised by its file specification: the first `/AF` entry, with an
/// `/EP` dictionary naming the filter. Every condition the clause states is then
/// reported, met or not.
pub open spec fn spec_payload(arena: Arena, catalog: Dict) -> Option<(Dict, Dict, Seq<char>)> {
    match payload_spec(arena, catalog) {
        Some(spec) => match dict_in(arena, spec, "EP"@) {
            Some(ep) => match name_in(arena, ep, "Subtype"@) {
                Some(filter) => Some((spec, ep, filter)),
                None => None,
            },
            None => None,
        },
        None => None,
    }
}

/// An optional string, as its characters.
pub open spec fn opt_text(o: Option<String>) -> Option<Seq<char>> {
    match o {
        Some(s) => Some(s@),
        None => None,
    }
}

/// Files one condition under met or unmet.
fn note(met: &mut Vec<String>, unmet: &mut Vec<String>, ok: bool, what: &str, Ghost(conds): Ghost<Seq<(bool, Seq<char>)>>)
    requires
        views(old(met)@) == met_of(conds),
        views(old(unmet)@) == unmet_of(conds),
    ensures
        views(final(met)@) == met_of(conds.push((ok, what@))),
        views(final(unmet)@) == unmet_of(conds.push((ok, what@))),
{
    assert(conds.push((ok, what@)).drop_last() =~= conds);
    if ok {
        met.push(text(what));
        assert(views(met@) =~= views(old(met)@).push(what@));
    } else {
        unmet.push(text(what));
        assert(views(unmet@) =~= views(old(unmet)@).push(what@));
    }
}

/// The dictionary `key` holds.
fn dict_at<'a>(arena: &'a Arena, d: &'a Dict, key: &str) -> (r: Option<&'a Dict>)
    ensures
        match r {
            Some(x) => dict_in(*arena, *d, key@) == Some(*x),
            None => dict_in(*arena, *d, key@).is_none(),
        },
{
    match d.get(key) {
        Some(o) => arena.as_dict(o),
        None => None,
    }
}

/// The array `key` holds.
fn array_at<'a>(arena: &'a Arena, d: &'a Dict, key: &str) -> (r: Option<&'a Vec<Object>>)
    ensures
        match r {
            Some(x) => array_in(*arena, *d, key@) == Some(x@),
            None => array_in(*arena, *d, key@).is_none(),
        },
{
    match d.get(key) {
        Some(o) => arena.array_of(o),
        None => None,
    }
}

/// Whether this file is an unencrypted wrapper, and what its payload needs (7.6.7),
/// every condition of the clause reported individually, met or not: a producer that
/// gets four of five right has still said which filter is missing.
pub fn read_payload(arena: &Arena, catalog: &Dict) -> (r: Option<EncryptedPayload>)
    ensures
        spec_payload(*arena, *catalog) is None ==> r is None,
        spec_payload(*arena, *catalog) matches Some((spec, ep, filter)) ==> (r matches Some(p) && {
            &&& p.filter@ == filter
            &&& opt_text(p.filter_version) == name_in(*arena, ep, "Version"@)
            &&& opt_text(p.file_name) == match text_in(*arena, spec, "UF"@) {
                Some(t) => Some(t),
                None => text_in(*arena, spec, "F"@),
            }
            &&& opt_text(p.description) == text_in(*arena, spec, "Desc"@)
            &&& views(p.conditions_met@) == met_of(all_conditions(*arena, *catalog, spec))
            &&& views(p.conditions_unmet@) == unmet_of(all_conditions(*arena, *catalog, spec))
        }),
{
    let mut met: Vec<String> = Vec::new();
    let mut unmet: Vec<String> = Vec::new();
    let ghost conds = catalogue_conditions(*arena, *catalog);
    assert(views(met@) =~= met_of(conds.take(0)));
    assert(views(unmet@) =~= unmet_of(conds.take(0)));

    let collection = dict_at(arena, catalog, "Collection");
    note(&mut met, &mut unmet, collection.is_some(), "/Collection in the catalogue", Ghost(conds.take(0)));
    assert(conds.take(0).push(conds[0]) =~= conds.take(1));
    let view_h = match collection {
        Some(c) => match c.name_entry("View") {
            Some(v) => str_eq(v.as_str(), "H"),
            None => false,
        },
        None => false,
    };
    note(&mut met, &mut unmet, view_h, "/Collection /View /H", Ghost(conds.take(1)));
    assert(conds.take(1).push(conds[1]) =~= conds.take(2));
    let embedded = match dict_at(arena, catalog, "Names") {
        Some(n) => match dict_at(arena, n, "EmbeddedFiles") {
            Some(e) => array_at(arena, e, "Names"),
            None => None,
        },
        None => None,
    };
    let one_entry = match embedded {
        Some(names) => names.len() == 2,
        None => false,
    };
    note(&mut met, &mut unmet, one_entry, "exactly one entry in the EmbeddedFiles name tree", Ghost(conds.take(2)));
    assert(conds.take(2).push(conds[2]) =~= conds.take(3));
    let af = array_at(arena, catalog, "AF");
    let names_payload = match af {
        Some(a) => a.len() > 0,
        None => false,
    };
    note(&mut met, &mut unmet, names_payload, "/AF names the payload", Ghost(conds.take(3)));
    assert(conds.take(3).push(conds[3]) =~= conds);
    let spec = match af {
        Some(a) => if a.len() > 0 {
            match arena.as_dict(&a[0]) {
                Some(s) => s,
                None => {
                    return None;
                },
            }
        } else {
            return None;
        },
        None => {
            return None;
        },
    };
    let relationship = match name_at(arena, spec, "AFRelationship") {
        Some(n) => str_eq(n.as_str(), "EncryptedPayload"),
        None => false,
    };
    note(&mut met, &mut unmet, relationship, "/AFRelationship /EncryptedPayload", Ghost(conds));
    let ep = match dict_at(arena, spec, "EP") {
        Some(e) => e,
        None => {
            return None;
        },
    };
    let filter = match name_at(arena, ep, "Subtype") {
        Some(f) => f,
        None => {
            return None;
        },
    };
    let ghost conds5 = conds.push((relationship, "/AFRelationship /EncryptedPayload"@));
    note(&mut met, &mut unmet, true, "/EP /Subtype names the filter", Ghost(conds5));
    assert(conds5.push((true, "/EP /Subtype names the filter"@)) =~= all_conditions(*arena, *catalog, *spec));
    let file_name = match text_at(arena, spec, "UF") {
        Some(t) => Some(t),
        None => text_at(arena, spec, "F"),
    };
    Some(EncryptedPayload {
        filter,
        filter_version: name_at(arena, ep, "Version"),
        file_name,
        description: text_at(arena, spec, "Desc"),
        conditions_met: met,
        conditions_unmet: unmet,
    })
}

/// The document's security, as declared and as handled.
pub struct EncryptionReport {
    /// Whether the trailer declares `/Encrypt` at all.
    pub encrypted: bool,
    /// `/Filter`, naming the security handler.
    pub handler: Option<String>,
    /// `/V`, the algorithm version.
    pub version: Option<i64>,
    /// `/R`, the handler revision.
    pub revision: Option<i64>,
    /// Key length in bits, as `/Length` gives it or as `/V` implies.
    pub key_bits: Option<usize>,
    /// The cipher applied to streams, from `/CFM` where a crypt filter names one.
    pub cipher: Option<String>,
    /// `/EncryptMetadata`.
    pub encrypt_metadata: bool,
    /// Crypt filters, if the file defines any.
    pub crypt_filters: Vec<CryptFilter>,
    /// `/P` as written.
    pub permission_bits: Option<i32>,
    /// What each Table 22 bit permits.
    pub permissions: Vec<Permission>,
    /// How far the engine conforms in handling this handler.
    pub conformance: Conformance,
    /// Why, in one phrase.
    pub conformance_note: &'static str,
    /// Whether the supplied credentials unlocked it.
    pub unlocked: bool,
    /// Which password authenticated: `"user"`, `"owner"`, or absent. 7.6.4.1 restricts
    /// only user access by `/P`, so `unlocked` alone does not say enough.
    pub access: Option<String>,
    /// An encrypted payload, when the document is an unencrypted wrapper (7.6.7).
    pub payload: Option<EncryptedPayload>,
    /// Decisions taken reading and unlocking.
    pub decisions: Vec<Decision>,
}

/// The catalogue a trailer names.
pub open spec fn spec_catalogue(arena: Arena, trailer: Dict) -> Option<Dict> {
    dict_in(arena, trailer, "Root"@)
}

/// The word a report uses for who authenticated.
pub open spec fn access_word(a: Access) -> Seq<char> {
    match a {
        Access::User => "user"@,
        Access::Owner => "owner"@,
    }
}

/// The cipher a report names: the method of the first crypt filter `/StmF` names, and
/// otherwise `V2` below `/V 4` and `unnamed` from it on.
pub open spec fn spec_cipher(filters: Seq<CryptFilter>, version: Option<i64>) -> Option<Seq<char>>
    decreases filters.len(),
{
    if filters.len() > 0 && filters[0].for_streams {
        Some(filters[0].method@)
    } else if filters.len() > 0 {
        spec_cipher(filters.drop_first(), version)
    } else {
        match version {
            Some(v) => if v >= 4 {
                Some("unnamed"@)
            } else {
                Some("V2"@)
            },
            None => None,
        }
    }
}

/// The cipher a report names.
fn cipher_of(filters: &Vec<CryptFilter>, version: Option<i64>) -> (r: Option<String>)
    ensures
        opt_text(r) == spec_cipher(filters@, version),
{
    let mut i: usize = 0;
    assert(filters@.skip(0) =~= filters@);
    while i < filters.len()
        invariant
            i <= filters@.len(),
            spec_cipher(filters@, version) == spec_cipher(filters@.skip(i as int), version),
        decreases filters@.len() - i,
    {
        assert(filters@.skip(i as int)[0] == filters@[i as int]);
        if filters[i].for_streams {
            return Some(text(filters[i].method.as_str()));
        }
        assert(filters@.skip(i as int).drop_first() =~= filters@.skip(i + 1));
        i = i + 1;
    }
    match version {
        Some(v) => if v >= 4 {
            Some(text("unnamed"))
        } else {
            Some(text("V2"))
        },
        None => None,
    }
}

/// The payload of a catalogue, when there is one.
pub open spec fn payload_of(arena: Arena, trailer: Dict, p: Option<EncryptedPayload>) -> bool {
    match spec_catalogue(arena, trailer) {
        Some(catalog) => match spec_payload(arena, catalog) {
            Some((spec, ep, filter)) => p matches Some(x) && {
                &&& x.filter@ == filter
                &&& opt_text(x.filter_version) == name_in(arena, ep, "Version"@)
                &&& opt_text(x.file_name) == match text_in(arena, spec, "UF"@) {
                    Some(t) => Some(t),
                    None => text_in(arena, spec, "F"@),
                }
                &&& opt_text(x.description) == text_in(arena, spec, "Desc"@)
                &&& views(x.conditions_met@) == met_of(all_conditions(arena, catalog, spec))
                &&& views(x.conditions_unmet@) == unmet_of(all_conditions(arena, catalog, spec))
            },
            None => p is None,
        },
        None => p is None,
    }
}

impl EncryptionReport {
    /// What a document with no `/Encrypt` reports: nothing to conform to, unlocked, and
    /// the payload if it is a wrapper.
    fn unencrypted(decisions: Vec<Decision>, payload: Option<EncryptedPayload>) -> (r: Self)
        ensures
            !r.encrypted && r.handler.is_none() && r.version.is_none() && r.revision.is_none(),
            r.key_bits.is_none() && r.cipher.is_none() && r.encrypt_metadata,
            r.crypt_filters@.len() == 0 && r.permission_bits.is_none() && r.permissions@.len() == 0,
            r.conformance == Conformance::Implemented,
            r.conformance_note@ == "the document declares no /Encrypt"@,
            r.unlocked && r.access.is_none(),
            r.payload == payload,
            r.decisions == decisions,
    {
        EncryptionReport {
            encrypted: false,
            handler: None,
            version: None,
            revision: None,
            key_bits: None,
            cipher: None,
            encrypt_metadata: true,
            crypt_filters: Vec::new(),
            permission_bits: None,
            permissions: Vec::new(),
            conformance: Conformance::Implemented,
            conformance_note: "the document declares no /Encrypt",
            unlocked: true,
            access: None,
            payload,
            decisions,
        }
    }

    /// Reports what protects the document whose trailer, read before unlocking, is
    /// `trailer`: `unlocked` and `access` say what the security handler made of the
    /// credentials, and `decisions` what was decided reading and unlocking.
    ///
    /// A wrapper's payload (7.6.7) is looked for whether or not the file is encrypted:
    /// a wrapper is itself unencrypted.
    pub fn survey(
        arena: &Arena,
        trailer: &Dict,
        unlocked: bool,
        access: Option<Access>,
        decisions: Vec<Decision>,
    ) -> (r: Self)
        ensures
            payload_of(*arena, *trailer, r.payload),
            r.decisions == decisions,
            dict_in(*arena, *trailer, "Encrypt"@) is None ==> {
                &&& !r.encrypted && r.handler.is_none() && r.version.is_none()
                &&& r.revision.is_none() && r.key_bits.is_none() && r.cipher.is_none()
                &&& r.encrypt_metadata && r.crypt_filters@.len() == 0
                &&& r.permission_bits.is_none() && r.permissions@.len() == 0
                &&& r.conformance == Conformance::Implemented
                &&& r.conformance_note@ == "the document declares no /Encrypt"@
                &&& r.unlocked && r.access.is_none()
            },
            dict_in(*arena, *trailer, "Encrypt"@) matches Some(encrypt) ==> {
                let version = encrypt.spec_integer_entry("V"@);
                let revision = encrypt.spec_integer_entry("R"@);
                &&& r.encrypted
                &&& opt_text(r.handler) == encrypt.spec_name_entry("Filter"@)
                &&& r.version == version
                &&& r.revision == revision
                &&& r.key_bits == spec_key_bits(encrypt, version)
                &&& opt_text(r.cipher) == spec_cipher(r.crypt_filters@, version)
                &&& r.encrypt_metadata == match encrypt.spec_bool_entry("EncryptMetadata"@) {
                    Some(b) => b,
                    None => true,
                }
                &&& (spec_cf(*arena, encrypt) is None ==> r.crypt_filters@.len() == 0)
                &&& (spec_cf(*arena, encrypt) matches Some(cf) ==> {
                    &&& strictly_sorted(r.crypt_filters@.map_values(|f: CryptFilter| f.name@))
                    &&& forall|i: int| 0 <= i < r.crypt_filters@.len() ==> filter_reads(*arena, encrypt, cf, #[trigger] r.crypt_filters@[i])
                    &&& forall|k: Seq<char>| names_filter(*arena, cf, k) ==> exists|i: int|
                        0 <= i < r.crypt_filters@.len() && #[trigger] r.crypt_filters@[i].name@ == k
                })
                &&& r.permission_bits == spec_permissions(*arena, encrypt)
                &&& (r.permission_bits is None ==> r.permissions@.len() == 0)
                &&& (r.permission_bits matches Some(b) ==> r.permissions@.len() == PERMISSION_COUNT && forall|i: int|
                    0 <= i < PERMISSION_COUNT ==> {
                        &&& (#[trigger] r.permissions@[i]).bit == permission_rows()[i].0
                        &&& r.permissions@[i].meaning@ == permission_rows()[i].2
                        &&& r.permissions@[i].granted == bit_set(b, permission_rows()[i].0)
                    })
                &&& r.conformance == spec_judge(version, revision).0
                &&& r.conformance_note@ == spec_judge(version, revision).1
                &&& r.unlocked == unlocked
                &&& opt_text(r.access) == match access {
                    Some(a) => Some(access_word(a)),
                    None => None,
                }
            },
    {
        let payload = match dict_at(arena, trailer, "Root") {
            Some(catalog) => read_payload(arena, catalog),
            None => None,
        };
        let encrypt = match dict_at(arena, trailer, "Encrypt") {
            Some(e) => e,
            None => {
                return EncryptionReport::unencrypted(decisions, payload);
            },
        };
        let version = encrypt.integer_entry("V");
        let revision = encrypt.integer_entry("R");
        let crypt_filters = read_crypt_filters(arena, encrypt);
        let (conformance, conformance_note) = judge(version, revision);
        let handler = match encrypt.name_entry("Filter") {
            Some(n) => Some(text(n.as_str())),
            None => None,
        };
        let cipher = cipher_of(&crypt_filters, version);
        let encrypt_metadata = match encrypt.bool_entry("EncryptMetadata") {
            Some(b) => b,
            None => true,
        };
        let permission_bits = permissions(arena, encrypt);
        let access = match access {
            Some(Access::User) => Some(text("user")),
            Some(Access::Owner) => Some(text("owner")),
            None => None,
        };
        EncryptionReport {
            encrypted: true,
            handler,
            version,
            revision,
            key_bits: key_bits(encrypt, version),
            cipher,
            encrypt_metadata,
            crypt_filters,
            permission_bits,
            permissions: decode_permissions(permission_bits),
            conformance,
            conformance_note,
            payload,
            unlocked,
            access,
            decisions,
        }
    }
}

/// Setting one bit of a `/P` leaves every other bit as it was.
pub proof fn lemma_grant_one(b: u32, x: u8, y: u8)
    requires
        1 <= x <= 32,
        1 <= y <= 32,
    ensures
        ((b | (1u32 << ((x - 1) as u32))) & (1u32 << ((y - 1) as u32)) != 0) <==> ((b & (1u32 << ((
            y - 1) as u32))) != 0 || x == y),
{
    let xs = (x - 1) as u32;
    let ys = (y - 1) as u32;
    assert(xs < 32 && ys < 32);
    assert(((b | (1u32 << xs)) & (1u32 << ys) != 0) <==> ((b & (1u32 << ys)) != 0 || xs == ys)) by (bit_vector)
        requires
            xs < 32,
            ys < 32,
    ;
}

/// Reading a `/P` as `i32` and back as `u32` changes no bit.
pub proof fn lemma_signed_bits(b: u32)
    ensures
        ((b as i32) as u32) == b,
{
    assert(((b as i32) as u32) == b) by (bit_vector);
}

/// Each row of Table 22 is its keyword's only row: the keywords are distinct, and so
/// are the bits.
pub proof fn lemma_rows_distinct(i: int, j: int)
    requires
        0 <= i < PERMISSION_COUNT,
        0 <= j < PERMISSION_COUNT,
    ensures
        keyword_bit(permission_rows()[i].1, 0) == Some(permission_rows()[i].0),
        (permission_rows()[i].0 == permission_rows()[j].0) <==> i == j,
        3 <= permission_rows()[i].0 <= 12,
{
    reveal(permission_rows);
    reveal_strlit("print");
    reveal_strlit("modify");
    reveal_strlit("copy");
    reveal_strlit("annotate");
    reveal_strlit("forms");
    reveal_strlit("accessibility");
    reveal_strlit("assemble");
    reveal_strlit("print-high");
    let rows = permission_rows();
    assert(rows[0].1[0] == 'p' && rows[0].1.len() == 5);
    assert(rows[1].1[0] == 'm' && rows[1].1.len() == 6);
    assert(rows[2].1[0] == 'c' && rows[2].1.len() == 4);
    assert(rows[3].1[0] == 'a' && rows[3].1.len() == 8 && rows[3].1[1] == 'n');
    assert(rows[4].1[0] == 'f' && rows[4].1.len() == 5);
    assert(rows[5].1[0] == 'a' && rows[5].1.len() == 13);
    assert(rows[6].1[0] == 'a' && rows[6].1.len() == 8 && rows[6].1[1] == 's');
    assert(rows[7].1[0] == 'p' && rows[7].1.len() == 10);
    assert(keyword_bit(rows[i].1, 8) == None::<u8>);
    assert(keyword_bit(rows[i].1, 7) == if i == 7 { Some(rows[7].0) } else { None::<u8> });
    assert(keyword_bit(rows[i].1, 6) == if i == 6 { Some(rows[6].0) } else { keyword_bit(rows[i].1, 7) });
    assert(keyword_bit(rows[i].1, 5) == if i == 5 { Some(rows[5].0) } else { keyword_bit(rows[i].1, 6) });
    assert(keyword_bit(rows[i].1, 4) == if i == 4 { Some(rows[4].0) } else { keyword_bit(rows[i].1, 5) });
    assert(keyword_bit(rows[i].1, 3) == if i == 3 { Some(rows[3].0) } else { keyword_bit(rows[i].1, 4) });
    assert(keyword_bit(rows[i].1, 2) == if i == 2 { Some(rows[2].0) } else { keyword_bit(rows[i].1, 3) });
    assert(keyword_bit(rows[i].1, 1) == if i == 1 { Some(rows[1].0) } else { keyword_bit(rows[i].1, 2) });
}

/// Whether the keywords name the `j`th row.
pub open spec fn names_row(keys: Seq<Seq<char>>, j: int) -> bool {
    exists|m: int| 0 <= m < keys.len() && #[trigger] keys[m] == permission_rows()[j].1
}

/// Writing a `/P` from keywords and reading it back agree, through the one table: when
/// every keyword is one of Table 22's, the bits granted are exactly the rows named, and
/// none is granted that was not.
pub proof fn law_keywords_read_back(keys: Seq<Seq<char>>)
    requires
        forall|m: int| 0 <= m < keys.len() ==> exists|i: int|
            0 <= i < PERMISSION_COUNT && #[trigger] keys[m] == permission_rows()[i].1,
    ensures
        grant(keys) is Ok,
        forall|j: int| 0 <= j < PERMISSION_COUNT ==> (bit_set(
            (grant(keys)->Ok_0) as i32,
            #[trigger] permission_rows()[j].0,
        ) <==> names_row(keys, j)),
    decreases keys.len(),
{
    if keys.len() == 0 {
        assert forall|j: int| 0 <= j < PERMISSION_COUNT implies (bit_set(
            (grant(keys)->Ok_0) as i32,
            #[trigger] permission_rows()[j].0,
        ) <==> names_row(keys, j)) by {
            lemma_rows_distinct(j, j);
            lemma_signed_bits(DENY_ALL);
            let y = permission_rows()[j].0;
            let ys = (y - 1) as u32;
            assert(ys == 2 || ys == 3 || ys == 4 || ys == 5 || ys == 8 || ys == 9 || ys == 10 || ys == 11) by {
                reveal(permission_rows);
            }
            assert((0xFFFF_F0C0u32 & (1u32 << ys)) == 0) by (bit_vector)
                requires
                    ys == 2 || ys == 3 || ys == 4 || ys == 5 || ys == 8 || ys == 9 || ys == 10 || ys == 11,
            ;
        }
    } else {
        let rest = keys.drop_last();
        assert forall|m: int| 0 <= m < rest.len() implies exists|i: int|
            0 <= i < PERMISSION_COUNT && #[trigger] rest[m] == permission_rows()[i].1 by {
            assert(rest[m] == keys[m]);
        }
        law_keywords_read_back(rest);
        let i = choose|i: int| 0 <= i < PERMISSION_COUNT && #[trigger] keys[keys.len() - 1] == permission_rows()[i].1;
        lemma_rows_distinct(i, i);
        let b = grant(rest)->Ok_0;
        let x = permission_rows()[i].0;
        assert(grant(keys) == Ok::<u32, Seq<char>>(b | (1u32 << ((x - 1) as u32))));
        assert forall|j: int| 0 <= j < PERMISSION_COUNT implies (bit_set(
            (grant(keys)->Ok_0) as i32,
            #[trigger] permission_rows()[j].0,
        ) <==> names_row(keys, j)) by {
            lemma_rows_distinct(i, j);
            lemma_rows_distinct(j, j);
            let y = permission_rows()[j].0;
            lemma_grant_one(b, x, y);
            lemma_signed_bits(b | (1u32 << ((x - 1) as u32)));
            lemma_signed_bits(b);
            assert(bit_set(b as i32, y) <==> names_row(rest, j));
            if names_row(rest, j) {
                let m = choose|m: int| 0 <= m < rest.len() && #[trigger] rest[m] == permission_rows()[j].1;
                assert(keys[m] == rest[m]);
            }
            if names_row(keys, j) {
                let m = choose|m: int| 0 <= m < keys.len() && #[trigger] keys[m] == permission_rows()[j].1;
                if m < keys.len() - 1 {
                    assert(rest[m] == keys[m]);
                } else {
                    lemma_rows_distinct(j, i);
                }
            }
            if i == j {
                assert(keys[keys.len() - 1] == permission_rows()[j].1);
            }
        }
    }
}

/// A comma-separated list whose keywords are all Table 22's reads back as what it names:
/// [`permissions_from_keywords`] accepts it, and the `/P` it gives grants a row exactly
/// when one of the list's trimmed fields names it.
pub proof fn law_keyword_list_reads_back(list: Seq<char>)
    requires
        forall|m: int| 0 <= m < keywords_in(split_commas(list)).len() ==> exists|i: int|
            0 <= i < PERMISSION_COUNT && #[trigger] keywords_in(split_commas(list))[m] == permission_rows()[i].1,
    ensures
        grant(keywords_in(split_commas(list))) is Ok,
        forall|j: int| 0 <= j < PERMISSION_COUNT ==> (bit_set(
            (grant(keywords_in(split_commas(list)))->Ok_0) as i32,
            #[trigger] permission_rows()[j].0,
        ) <==> names_row(keywords_in(split_commas(list)), j)),
{
    law_keywords_read_back(keywords_in(split_commas(list)));
}

/// The conditions met and those not met split the conditions: as many between them as
/// there are conditions, a label among the met exactly where a condition of that label
/// holds, and among the unmet exactly where one fails.
#[verifier::rlimit(30)]
proof fn lemma_conditions_split(conds: Seq<(bool, Seq<char>)>)
    ensures
        met_of(conds).len() + unmet_of(conds).len() == conds.len(),
        forall|x: Seq<char>| #[trigger] met_of(conds).contains(x) <==> exists|i: int|
            0 <= i < conds.len() && conds[i].0 && #[trigger] conds[i].1 == x,
        forall|x: Seq<char>| #[trigger] unmet_of(conds).contains(x) <==> exists|i: int|
            0 <= i < conds.len() && !conds[i].0 && #[trigger] conds[i].1 == x,
    decreases conds.len(),
{
    if conds.len() > 0 {
        let rest = conds.drop_last();
        lemma_conditions_split(rest);
        assert forall|x: Seq<char>| #[trigger] met_of(conds).contains(x) <==> exists|i: int|
            0 <= i < conds.len() && conds[i].0 && #[trigger] conds[i].1 == x by {
            if met_of(conds).contains(x) {
                if conds.last().0 && x == conds.last().1 {
                    assert(conds[conds.len() - 1].1 == x);
                } else {
                    let k = choose|k: int| 0 <= k < met_of(conds).len() && met_of(conds)[k] == x;
                    assert(met_of(rest).contains(x)) by {
                        if conds.last().0 {
                            assert(met_of(conds) == met_of(rest).push(conds.last().1));
                            assert(k < met_of(rest).len());
                            assert(met_of(rest)[k] == x);
                        }
                    }
                    let i = choose|i: int| 0 <= i < rest.len() && rest[i].0 && #[trigger] rest[i].1 == x;
                    assert(conds[i] == rest[i]);
                }
            }
            if exists|i: int| 0 <= i < conds.len() && conds[i].0 && #[trigger] conds[i].1 == x {
                let i = choose|i: int| 0 <= i < conds.len() && conds[i].0 && #[trigger] conds[i].1 == x;
                if i == conds.len() - 1 {
                    assert(met_of(conds) == met_of(rest).push(conds.last().1));
                    assert(met_of(conds)[met_of(rest).len() as int] == x);
                } else {
                    assert(rest[i] == conds[i]);
                    assert(met_of(rest).contains(x));
                    let k = choose|k: int| 0 <= k < met_of(rest).len() && met_of(rest)[k] == x;
                    if conds.last().0 {
                        assert(met_of(conds)[k] == x);
                    }
                }
            }
        }
        assert forall|x: Seq<char>| #[trigger] unmet_of(conds).contains(x) <==> exists|i: int|
            0 <= i < conds.len() && !conds[i].0 && #[trigger] conds[i].1 == x by {
            if unmet_of(conds).contains(x) {
                if !conds.last().0 && x == conds.last().1 {
                    assert(conds[conds.len() - 1].1 == x);
                } else {
                    let k = choose|k: int| 0 <= k < unmet_of(conds).len() && unmet_of(conds)[k] == x;
                    assert(unmet_of(rest).contains(x)) by {
                        if !conds.last().0 {
                            assert(unmet_of(conds) == unmet_of(rest).push(conds.last().1));
                            assert(k < unmet_of(rest).len());
                            assert(unmet_of(rest)[k] == x);
                        }
                    }
                    let i = choose|i: int| 0 <= i < rest.len() && !rest[i].0 && #[trigger] rest[i].1 == x;
                    assert(conds[i] == rest[i]);
                }
            }
            if exists|i: int| 0 <= i < conds.len() && !conds[i].0 && #[trigger] conds[i].1 == x {
                let i = choose|i: int| 0 <= i < conds.len() && !conds[i].0 && #[trigger] conds[i].1 == x;
                if i == conds.len() - 1 {
                    assert(unmet_of(conds) == unmet_of(rest).push(conds.last().1));
                    assert(unmet_of(conds)[unmet_of(rest).len() as int] == x);
                } else {
                    assert(rest[i] == conds[i]);
                    assert(unmet_of(rest).contains(x));
                    let k = choose|k: int| 0 <= k < unmet_of(rest).len() && unmet_of(rest)[k] == x;
                    if !conds.last().0 {
                        assert(unmet_of(conds)[k] == x);
                    }
                }
            }
        }
    }
}

/// A wrapper's payload report (7.6.7) names each of the clause's six conditions once,
/// among the met where it holds and among the unmet where it does not: the two lists
/// together are the six conditions.
#[verifier::rlimit(30)]
pub proof fn law_each_condition_is_reported_once(arena: Arena, catalog: Dict)
    requires
        spec_payload(arena, catalog) is Some,
    ensures
        ({
            let c = all_conditions(arena, catalog, spec_payload(arena, catalog)->Some_0.0);
            &&& c.len() == 6
            &&& forall|i: int, j: int| 0 <= i < j < 6 ==> c[i].1 != c[j].1
            &&& met_of(c).len() + unmet_of(c).len() == 6
            &&& forall|i: int| 0 <= i < 6 ==> (c[i].0 ==> met_of(c).contains(c[i].1) && !unmet_of(c).contains(c[i].1))
            &&& forall|i: int| 0 <= i < 6 ==> (!c[i].0 ==> unmet_of(c).contains(c[i].1) && !met_of(c).contains(c[i].1))
        }),
{
    let c = all_conditions(arena, catalog, spec_payload(arena, catalog)->Some_0.0);
    reveal_strlit("/Collection in the catalogue");
    reveal_strlit("/Collection /View /H");
    reveal_strlit("exactly one entry in the EmbeddedFiles name tree");
    reveal_strlit("/AF names the payload");
    reveal_strlit("/AFRelationship /EncryptedPayload");
    reveal_strlit("/EP /Subtype names the filter");
    assert(c.len() == 6);
    assert forall|i: int, j: int| 0 <= i < j < 6 implies c[i].1 != c[j].1 by {
        assert(c[i].1.len() != c[j].1.len());
    }
    lemma_conditions_split(c);
    assert forall|i: int| 0 <= i < 6 implies (c[i].0 ==> met_of(c).contains(c[i].1) && !unmet_of(c).contains(c[i].1)) by {
        if c[i].0 {
            assert(c[i].1 == c[i].1);
            if unmet_of(c).contains(c[i].1) {
                let j = choose|j: int| 0 <= j < c.len() && !c[j].0 && #[trigger] c[j].1 == c[i].1;
                assert(j == i);
            }
        }
    }
    assert forall|i: int| 0 <= i < 6 implies (!c[i].0 ==> unmet_of(c).contains(c[i].1) && !met_of(c).contains(c[i].1)) by {
        if !c[i].0 {
            assert(c[i].1 == c[i].1);
            if met_of(c).contains(c[i].1) {
                let j = choose|j: int| 0 <= j < c.len() && c[j].0 && #[trigger] c[j].1 == c[i].1;
                assert(j == i);
            }
        }
    }
}

} // verus!

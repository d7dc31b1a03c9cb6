//! Unlocking an encrypted document (7.6): what the `/Encrypt` dictionary says, and what
//! has to be handed to a security handler to open it.
//!
//! Strings and streams are encrypted with a key derived from the object's own number,
//! so decryption runs over the object table once every object is in place; the trailer
//! and the `/Encrypt` dictionary are never encrypted. The cryptography itself belongs to
//! the security handler: what is decided here is which handler, with which inputs, and
//! what is recorded when none can be built.

use crate::decision::Decision;
use crate::error::{char_text, concat, text};
use crate::filters::lzw::copy_bytes;
use crate::object::{
    first_match, lemma_first_match_append, lemma_first_match_none, str_eq, Arena, Dict, Object,
};
use crate::text::chars_of;
use vstd::prelude::*;

verus! {

/// Which password authenticated.
#[derive(Clone, Copy, Debug, PartialEq, Eq, Structural)]
pub enum Access {
    /// The user password: `/P` restricts what may be done (7.6.4.1).
    User,
    /// The owner password: nothing is restricted.
    Owner,
}

/// What the document said about its own protection.
pub struct Security {
    /// A name for the handler, as a report prints it.
    pub method: String,
    /// The `/P` permission bits, if the document declared any.
    pub permissions: Option<i32>,
    /// Which password authenticated; none when the document is not encrypted or when
    /// no password opened it.
    pub access: Option<Access>,
}

impl Security {
    /// What a document with no `/Encrypt` reports.
    pub fn none() -> (s: Self)
        ensures
            s.method@ == "No Security"@,
            s.permissions.is_none(),
            s.access.is_none(),
    {
        Security { method: text("No Security"), permissions: None, access: None }
    }
}

/// A certificate and its private key, for a document encrypted to a recipient (7.6.5).
pub struct RecipientIdentity {
    /// The recipient's certificate, DER-encoded.
    pub certificate: Vec<u8>,
    /// Its private key, DER-encoded.
    pub private_key: Vec<u8>,
}

/// What a reader offers a document to get in: a password for the standard handler, and
/// a certificate with its key for a public-key one. A document takes exactly one kind.
#[derive(Clone, Copy)]
pub struct Credentials<'a> {
    /// The password to try. Every reader starts with the empty one.
    pub password: &'a str,
    /// The identity a public-key encrypted document may have been addressed to.
    pub recipient: Option<&'a RecipientIdentity>,
}

impl<'a> Credentials<'a> {
    /// Just a password.
    pub fn password(password: &'a str) -> (c: Self)
        ensures
            c.password == password,
            c.recipient.is_none(),
    {
        Credentials { password, recipient: None }
    }
}

/// The cipher a crypt filter names (7.6.5).
#[derive(Clone, Copy, Debug, PartialEq, Eq, Structural)]
pub enum Cipher {
    /// RC4.
    Rc4,
    /// AES.
    Aes,
}

/// The `/Encrypt` dictionary a trailer names and, when it is indirect, the number of the
/// object that holds it — which decryption skips.
pub open spec fn spec_encryption_dict(arena: Arena, trailer: Dict) -> Option<(Dict, Option<u32>)> {
    match trailer.spec_get("Encrypt"@) {
        Some(Object::Dictionary(d)) => Some((d, None)),
        Some(Object::Reference(n)) => match arena.spec_resolve(Object::Reference(n)) {
            Object::Dictionary(d) => Some((d, Some(n))),
            _ => None,
        },
        _ => None,
    }
}

/// The `/Encrypt` dictionary a trailer names, and the object to skip.
pub fn encryption_dict<'a>(arena: &'a Arena, trailer: &'a Dict) -> (r: Option<(&'a Dict, Option<u32>)>)
    ensures
        match r {
            Some((d, n)) => spec_encryption_dict(*arena, *trailer) == Some((*d, n)),
            None => spec_encryption_dict(*arena, *trailer).is_none(),
        },
{
    match trailer.get("Encrypt") {
        Some(Object::Dictionary(d)) => Some((d, None)),
        Some(o) => match o {
            Object::Reference(n) => match arena.resolve(o) {
                Object::Dictionary(d) => Some((d, Some(*n))),
                _ => None,
            },
            _ => None,
        },
        _ => None,
    }
}

/// The `/P` bits, as the signed 32-bit field 7.6.4.2 defines: producers write the same
/// bits either signed or unsigned, and both forms read alike. A value that fits neither
/// is no permission field.
pub open spec fn spec_permissions(arena: Arena, encrypt: Dict) -> Option<i32> {
    match encrypt.spec_get("P"@) {
        Some(p) => match arena.spec_integer_of(p) {
            Some(v) => if i32::MIN <= v <= i32::MAX {
                Some(v as i32)
            } else if 0 <= v <= u32::MAX {
                Some((v - 0x1_0000_0000) as i32)
            } else {
                None
            },
            None => None,
        },
        None => None,
    }
}

/// The `/P` bits, read in either form.
pub fn permissions(arena: &Arena, encrypt: &Dict) -> (r: Option<i32>)
    ensures
        r == spec_permissions(*arena, *encrypt),
{
    let v = match encrypt.get("P") {
        Some(p) => match arena.integer_of(p) {
            Some(v) => v,
            None => {
                return None;
            },
        },
        None => {
            return None;
        },
    };
    if -2147483648 <= v && v <= 2147483647 {
        Some(v as i32)
    } else if 0 <= v && v <= 4294967295 {
        Some((v - 0x1_0000_0000) as i32)
    } else {
        None
    }
}

/// `/P` written unsigned reads as the same bits written signed: the two forms producers
/// use for one 32-bit field are one permission set.
pub proof fn law_either_form_reads_alike(arena: Arena, unsigned: Dict, signed: Dict, bits: i64)
    requires
        0x8000_0000 <= bits < 0x1_0000_0000,
        spec_integer(arena, unsigned, "P"@) == Some(bits),
        spec_integer(arena, signed, "P"@) == Some((bits - 0x1_0000_0000) as i64),
    ensures
        spec_permissions(arena, unsigned) == spec_permissions(arena, signed),
        spec_permissions(arena, signed) is Some,
{
}

/// An integer entry, following one reference.
pub open spec fn spec_integer(arena: Arena, d: Dict, key: Seq<char>) -> Option<i64> {
    match d.spec_get(key) {
        Some(o) => arena.spec_integer_of(o),
        None => None,
    }
}

/// An integer entry, following one reference.
pub fn integer(arena: &Arena, d: &Dict, key: &str) -> (r: Option<i64>)
    ensures
        r == spec_integer(*arena, *d, key@),
{
    match d.get(key) {
        Some(o) => arena.integer_of(o),
        None => None,
    }
}

/// What a report calls the handler: by `/Filter` first — a certificate is not a
/// password — and then by `/V`, which sizes the key.
pub open spec fn spec_method(arena: Arena, encrypt: Dict) -> Seq<char> {
    let v = match spec_integer(arena, encrypt, "V"@) {
        Some(v) => v,
        None => 0,
    };
    if encrypt.spec_name_entry("Filter"@) == Some("Adobe.PubSec"@) {
        if v == 5 {
            "Certificate Security (AES-256)"@
        } else if v == 4 {
            "Certificate Security (AES-128)"@
        } else {
            "Certificate Security"@
        }
    } else {
        if v == 5 {
            "Password Security (AES-256)"@
        } else if v == 4 {
            "Password Security (AES-128)"@
        } else {
            "Password Security (Standard)"@
        }
    }
}

/// Names the handler for reporting, without attempting to unlock anything.
pub fn describe(arena: &Arena, encrypt: &Dict) -> (s: Security)
    ensures
        s.method@ == spec_method(*arena, *encrypt),
        s.permissions == spec_permissions(*arena, *encrypt),
        s.access.is_none(),
{
    let v = match integer(arena, encrypt, "V") {
        Some(v) => v,
        None => 0,
    };
    let public_key = match encrypt.name_entry("Filter") {
        Some(n) => str_eq(n.as_str(), "Adobe.PubSec"),
        None => false,
    };
    let method = if public_key {
        if v == 5 {
            "Certificate Security (AES-256)"
        } else if v == 4 {
            "Certificate Security (AES-128)"
        } else {
            "Certificate Security"
        }
    } else {
        if v == 5 {
            "Password Security (AES-256)"
        } else if v == 4 {
            "Password Security (AES-128)"
        } else {
            "Password Security (Standard)"
        }
    };
    Security { method: text(method), permissions: permissions(arena, encrypt), access: None }
}

/// `/Length` in bytes: written in bits, and only 40 to 128 of them name a key length.
pub open spec fn spec_key_bytes(arena: Arena, encrypt: Dict) -> Option<usize> {
    match spec_integer(arena, encrypt, "Length"@) {
        Some(bits) => if 0 <= bits <= usize::MAX && 5 <= bits / 8 <= 16 {
            Some((bits / 8) as usize)
        } else {
            None
        },
        None => None,
    }
}

/// `/Length` in bytes.
pub fn key_bytes(arena: &Arena, encrypt: &Dict) -> (r: Option<usize>)
    ensures
        r == spec_key_bytes(*arena, *encrypt),
{
    match integer(arena, encrypt, "Length") {
        Some(bits) => if 0 <= bits && (bits as u64) <= (usize::MAX as u64) && 5 <= bits / 8 && bits
            / 8 <= 16 {
            Some((bits / 8) as usize)
        } else {
            None
        },
        None => None,
    }
}

/// The crypt filter `/StmF` names (`Identity` when it names none), in `/CF`.
pub open spec fn spec_stream_filter(arena: Arena, encrypt: Dict) -> Option<Dict> {
    match encrypt.spec_get("CF"@) {
        Some(cf) => match arena.spec_as_dict(cf) {
            Some(cfd) => {
                let named = match encrypt.spec_name_entry("StmF"@) {
                    Some(n) => n,
                    None => "Identity"@,
                };
                match cfd.spec_get(named) {
                    Some(f) => arena.spec_as_dict(f),
                    None => None,
                }
            },
            None => None,
        },
        None => None,
    }
}

/// The crypt filter `/StmF` names.
fn stream_filter<'a>(arena: &'a Arena, encrypt: &'a Dict) -> (r: Option<&'a Dict>)
    ensures
        match r {
            Some(d) => spec_stream_filter(*arena, *encrypt) == Some(*d),
            None => spec_stream_filter(*arena, *encrypt).is_none(),
        },
{
    let cf = match encrypt.get("CF") {
        Some(cf) => match arena.as_dict(cf) {
            Some(d) => d,
            None => {
                return None;
            },
        },
        None => {
            return None;
        },
    };
    let named = match encrypt.name_entry("StmF") {
        Some(n) => n.as_str(),
        None => "Identity",
    };
    match cf.get(named) {
        Some(f) => arena.as_dict(f),
        None => None,
    }
}

/// The cipher of the default stream crypt filter: AES when its `/CFM` says `/AESV2` or
/// `/AESV3`, and RC4 otherwise — `/V 4` files exist with `/CFM /V2`.
pub open spec fn spec_crypt_filter_method(arena: Arena, encrypt: Dict) -> Cipher {
    match spec_stream_filter(arena, encrypt) {
        Some(f) => match f.spec_name_entry("CFM"@) {
            Some(m) => if m == "AESV2"@ || m == "AESV3"@ {
                Cipher::Aes
            } else {
                Cipher::Rc4
            },
            None => Cipher::Rc4,
        },
        None => Cipher::Rc4,
    }
}

/// The cipher of the default stream crypt filter.
pub fn crypt_filter_method(arena: &Arena, encrypt: &Dict) -> (r: Cipher)
    ensures
        r == spec_crypt_filter_method(*arena, *encrypt),
{
    match stream_filter(arena, encrypt) {
        Some(f) => match f.name_entry("CFM") {
            Some(m) => if str_eq(m.as_str(), "AESV2") || str_eq(m.as_str(), "AESV3") {
                Cipher::Aes
            } else {
                Cipher::Rc4
            },
            None => Cipher::Rc4,
        },
        None => Cipher::Rc4,
    }
}

/// The byte strings among `items`, each resolved, in order.
pub open spec fn byte_strings(arena: Arena, items: Seq<Object>) -> Seq<Seq<u8>>
    decreases items.len(),
{
    if items.len() == 0 {
        Seq::empty()
    } else {
        let rest = byte_strings(arena, items.drop_last());
        match arena.spec_resolve(items.last()) {
            Object::String(b) => rest.push(b@),
            Object::Hex(b) => rest.push(b@),
            _ => rest,
        }
    }
}

/// An entry that is an array of byte strings, or a single one.
pub open spec fn spec_strings(arena: Arena, d: Dict, key: Seq<char>) -> Seq<Seq<u8>> {
    match d.spec_get(key) {
        Some(o) => match arena.spec_resolve(o) {
            Object::Array(a) => byte_strings(arena, a@),
            Object::String(b) => seq![b@],
            Object::Hex(b) => seq![b@],
            _ => Seq::empty(),
        },
        None => Seq::empty(),
    }
}

/// The byte strings of a list of byte strings, as values.
pub open spec fn byte_views(v: Seq<Vec<u8>>) -> Seq<Seq<u8>> {
    v.map_values(|b: Vec<u8>| b@)
}

/// An entry that is an array of byte strings, or a single one.
pub fn strings(arena: &Arena, d: &Dict, key: &str) -> (r: Vec<Vec<u8>>)
    ensures
        byte_views(r@) == spec_strings(*arena, *d, key@),
{
    let mut out: Vec<Vec<u8>> = Vec::new();
    match d.get(key) {
        Some(o) => match arena.resolve(o) {
            Object::Array(a) => {
                let mut i: usize = 0;
                while i < a.len()
                    invariant
                        i <= a@.len(),
                        byte_views(out@) == byte_strings(*arena, a@.take(i as int)),
                    decreases a@.len() - i,
                {
                    assert(a@.take(i + 1).drop_last() =~= a@.take(i as int));
                    match arena.resolve(&a[i]) {
                        Object::String(b) => {
                            out.push(copy_bytes(b));
                            assert(byte_views(out@) =~= byte_views(out@.drop_last()).push(b@));
                        },
                        Object::Hex(b) => {
                            out.push(copy_bytes(b));
                            assert(byte_views(out@) =~= byte_views(out@.drop_last()).push(b@));
                        },
                        _ => {},
                    }
                    i = i + 1;
                }
                assert(a@.take(a@.len() as int) =~= a@);
            },
            Object::String(b) => {
                out.push(copy_bytes(b));
                assert(byte_views(out@) =~= seq![b@]);
            },
            Object::Hex(b) => {
                out.push(copy_bytes(b));
                assert(byte_views(out@) =~= seq![b@]);
            },
            _ => {},
        },
        None => {},
    }
    assert(out@.len() == 0 ==> byte_views(out@) =~= Seq::<Seq<u8>>::empty());
    out
}

/// The `/Recipients` a public-key handler derives its key from: in the crypt filter
/// `/StmF` names for `/V` 4 and 5, and otherwise at the top of `/Encrypt` (7.6.5).
pub open spec fn spec_recipients(arena: Arena, encrypt: Dict) -> Seq<Seq<u8>> {
    let from_filter = match spec_stream_filter(arena, encrypt) {
        Some(f) => spec_strings(arena, f, "Recipients"@),
        None => Seq::empty(),
    };
    if from_filter.len() == 0 {
        spec_strings(arena, encrypt, "Recipients"@)
    } else {
        from_filter
    }
}

/// The `/Recipients` entries, wherever this version keeps them.
pub fn recipients(arena: &Arena, encrypt: &Dict) -> (r: Vec<Vec<u8>>)
    ensures
        byte_views(r@) == spec_recipients(*arena, *encrypt),
{
    let from_filter = match stream_filter(arena, encrypt) {
        Some(f) => strings(arena, f, "Recipients"),
        None => {
            let v: Vec<Vec<u8>> = Vec::new();
            assert(byte_views(v@) =~= Seq::<Seq<u8>>::empty());
            v
        },
    };
    if from_filter.len() == 0 {
        strings(arena, encrypt, "Recipients")
    } else {
        from_filter
    }
}

/// The first element of the trailer's `/ID`, which keys the encryption: both written in
/// place, and empty when either is not.
pub open spec fn spec_first_file_id(trailer: Dict) -> Seq<u8> {
    match trailer.spec_get("ID"@) {
        Some(Object::Array(items)) => if items@.len() > 0 {
            match items@[0] {
                Object::String(b) => b@,
                Object::Hex(b) => b@,
                _ => Seq::empty(),
            }
        } else {
            Seq::empty()
        },
        _ => Seq::empty(),
    }
}

/// The first element of the trailer's `/ID`.
pub fn first_file_id(trailer: &Dict) -> (r: Vec<u8>)
    ensures
        r@ == spec_first_file_id(*trailer),
{
    match trailer.get("ID") {
        Some(Object::Array(items)) => if items.len() > 0 {
            match &items[0] {
                Object::String(b) => copy_bytes(b),
                Object::Hex(b) => copy_bytes(b),
                _ => Vec::new(),
            }
        } else {
            Vec::new()
        },
        _ => Vec::new(),
    }
}

/// Drops `/Encrypt` from the trailer once the objects behind it are plain: Acrobat
/// refuses a file whose trailer still claims encryption over plain objects.
pub fn remove_encrypt(trailer: &mut Dict)
    ensures
        final(trailer).spec_get("Encrypt"@).is_none(),
        forall|k: Seq<char>| k != "Encrypt"@ ==> #[trigger] final(trailer).spec_get(k) == old(
            trailer,
        ).spec_get(k),
{
    let mut rest: Vec<(String, Object)> = Vec::new();
    std::mem::swap(&mut rest, &mut trailer.entries);
    let mut kept: Vec<(String, Object)> = Vec::new();
    while rest.len() > 0
        invariant
            forall|j: int| 0 <= j < kept@.len() ==> (#[trigger] kept@[j]).0@ != "Encrypt"@,
            forall|k: Seq<char>| k != "Encrypt"@ ==> #[trigger] first_match(old(trailer).entries@, k)
                == first_match(kept@ + rest@, k),
        decreases rest@.len(),
    {
        let ghost before_kept = kept@;
        let ghost before_rest = rest@;
        let e = rest.remove(0);
        assert(before_rest =~= seq![e] + rest@);
        if !str_eq(e.0.as_str(), "Encrypt") {
            kept.push(e);
            assert(before_kept + before_rest =~= kept@ + rest@);
        } else {
            assert forall|k: Seq<char>| k != "Encrypt"@ implies #[trigger] first_match(old(trailer).entries@, k)
                == first_match(kept@ + rest@, k) by {
                lemma_first_match_append(before_kept, before_rest, k);
                lemma_first_match_append(kept@, rest@, k);
                lemma_first_match_append(seq![e], rest@, k);
                assert((seq![e] + rest@).drop_first() =~= rest@);
            }
        }
    }
    assert(kept@ + rest@ =~= kept@);
    proof {
        lemma_first_match_none(kept@, "Encrypt"@);
    }
    trailer.entries = kept;
}

/// RFC 3454 table B.1: soft hyphen, zero-width joiners, variation selectors and the
/// other characters stringprep deletes outright.
pub open spec fn spec_mapped_to_nothing(c: char) -> bool {
    let n = c as u32;
    n == 0x00AD || n == 0x034F || n == 0x1806 || (0x180B <= n <= 0x180D) || (0x200B <= n
        <= 0x200D) || n == 0x2060 || (0xFE00 <= n <= 0xFE0F) || n == 0xFEFF
}

/// Whether stringprep deletes `c`.
pub fn is_mapped_to_nothing(c: char) -> (r: bool)
    ensures
        r == spec_mapped_to_nothing(c),
{
    let n = c as u32;
    n == 0x00AD || n == 0x034F || n == 0x1806 || (0x180B <= n && n <= 0x180D) || (0x200B <= n
        && n <= 0x200D) || n == 0x2060 || (0xFE00 <= n && n <= 0xFE0F) || n == 0xFEFF
}

/// RFC 3454 table C.1.2: the spaces that are not `U+0020`.
pub open spec fn spec_non_ascii_space(c: char) -> bool {
    let n = c as u32;
    n == 0x00A0 || n == 0x1680 || (0x2000 <= n <= 0x200A) || n == 0x2028 || n == 0x2029 || n
        == 0x202F || n == 0x205F || n == 0x3000
}

/// Whether `c` is a space other than `U+0020`.
pub fn is_non_ascii_space(c: char) -> (r: bool)
    ensures
        r == spec_non_ascii_space(c),
{
    let n = c as u32;
    n == 0x00A0 || n == 0x1680 || (0x2000 <= n && n <= 0x200A) || n == 0x2028 || n == 0x2029
        || n == 0x202F || n == 0x205F || n == 0x3000
}

/// The two mappings of SASLprep (RFC 4013): characters of table B.1 deleted, and the
/// spaces of table C.1.2 turned into `U+0020`.
pub open spec fn sasl_mapped(cs: Seq<char>) -> Seq<char>
    decreases cs.len(),
{
    if cs.len() == 0 {
        Seq::empty()
    } else {
        let rest = sasl_mapped(cs.drop_last());
        let c = cs.last();
        if spec_mapped_to_nothing(c) {
            rest
        } else if spec_non_ascii_space(c) {
            rest.push(' ')
        } else {
            rest.push(c)
        }
    }
}

/// The Unicode Normalization Form KC of `s`, as `unicode_normalization` computes it.
pub uninterp spec fn nfkc_of(s: Seq<char>) -> Seq<char>;

/// Normalises `s` to NFKC with `unicode_normalization::UnicodeNormalization::nfkc`.
///
/// Trusted: the contract claims only that the result is a function of `s`, named
/// [`nfkc_of`]; the normalisation tables are the crate's.
#[verifier::external_body]
fn nfkc(s: &str) -> (r: String)
    ensures
        r@ == nfkc_of(s@),
{
    unicode_normalization::UnicodeNormalization::nfkc(s).collect()
}

/// What SASLprep (RFC 4013) makes of a password before it is hashed (7.6.4.3.3 step (a)):
/// the two mappings, then NFKC. The prohibited-output and bidi checks, which refuse a
/// password rather than transform it, are not applied.
pub open spec fn spec_saslprep(password: Seq<char>) -> Seq<char> {
    nfkc_of(sasl_mapped(password))
}

/// SASLprep of a password: what a keyboard produces becomes what was hashed.
pub fn saslprep(password: &str) -> (r: String)
    ensures
        r@ == spec_saslprep(password@),
{
    let cs = chars_of(password);
    let mut mapped = String::new();
    let mut i: usize = 0;
    while i < cs.len()
        invariant
            cs@ == password@,
            i <= cs@.len(),
            mapped@ == sasl_mapped(cs@.take(i as int)),
        decreases cs@.len() - i,
    {
        assert(cs@.take(i + 1).drop_last() =~= cs@.take(i as int));
        let c = cs[i];
        if is_mapped_to_nothing(c) {
        } else if is_non_ascii_space(c) {
            mapped = concat(mapped, char_text(' ').as_str());
        } else {
            mapped = concat(mapped, char_text(c).as_str());
        }
        i = i + 1;
    }
    assert(cs@.take(cs@.len() as int) =~= cs@);
    nfkc(mapped.as_str())
}

/// The security handler a document needs, with what has to be handed to it: the
/// decisions of 7.6 taken, the cryptography left to the handler.
pub enum HandlerPlan {
    /// A public-key handler (7.6.5), whose key comes from a seed among `recipients`.
    PublicKey {
        /// The `/Recipients` entries.
        recipients: Vec<Vec<u8>>,
        /// The key length in bytes.
        key_len: usize,
        /// `/EncryptMetadata`, true when absent.
        encrypt_metadata: bool,
    },
    /// The AES-256 handler (Algorithm 2.A), whose key comes from `/U`, `/UE`, `/O` and
    /// `/OE` and from no part of `/ID`.
    Aes256 {
        /// The password after SASLprep.
        password: String,
        /// `/U`.
        u: Vec<u8>,
        /// `/UE`.
        ue: Vec<u8>,
        /// `/O`.
        o: Vec<u8>,
        /// `/OE`.
        oe: Vec<u8>,
        /// `/R`: 5 or 6.
        revision: i32,
        /// `/EncryptMetadata`, true when absent.
        encrypt_metadata: bool,
    },
    /// The standard handler (Algorithms 1 to 7), tried with the password as a user
    /// password and then as an owner password.
    Standard {
        /// The password as given.
        password: String,
        /// `/O`, empty when absent.
        owner: Vec<u8>,
        /// `/U`, empty when absent.
        user: Vec<u8>,
        /// `/P`, in either form.
        permissions: i32,
        /// The first element of the trailer's `/ID`.
        file_id: Vec<u8>,
        /// `/EncryptMetadata`, true when absent.
        encrypt_metadata: bool,
        /// `/R`: 2, 3 or 4.
        revision: i32,
        /// The key length in bytes.
        key_len: usize,
        /// The cipher.
        cipher: Cipher,
    },
    /// No handler can be built for this `/V` and `/R`, or from what was offered.
    Unavailable,
}

/// `/V`, zero when absent.
pub open spec fn spec_version(arena: Arena, encrypt: Dict) -> i64 {
    match spec_integer(arena, encrypt, "V"@) {
        Some(v) => v,
        None => 0,
    }
}

/// `/R`, zero when absent.
pub open spec fn spec_revision(arena: Arena, encrypt: Dict) -> i64 {
    match spec_integer(arena, encrypt, "R"@) {
        Some(v) => v,
        None => 0,
    }
}

/// `/EncryptMetadata`, true when absent.
pub open spec fn spec_encrypt_metadata(encrypt: Dict) -> bool {
    match encrypt.spec_bool_entry("EncryptMetadata"@) {
        Some(b) => b,
        None => true,
    }
}

/// Whether `/Filter` names the public-key handler.
pub open spec fn is_public_key(encrypt: Dict) -> bool {
    encrypt.spec_name_entry("Filter"@) == Some("Adobe.PubSec"@)
}

/// The key length and cipher `/V` gives the standard handler (Table 20): `/V` sizes
/// the key and `/CFM` names the cipher.
pub open spec fn spec_standard_key(arena: Arena, encrypt: Dict) -> Option<(usize, Cipher)> {
    let v = spec_version(arena, encrypt);
    if v == 1 {
        Some((5, Cipher::Rc4))
    } else if v == 2 {
        Some(
            (
                match spec_key_bytes(arena, encrypt) {
                    Some(n) => n,
                    None => 5,
                },
                Cipher::Rc4,
            ),
        )
    } else if v == 4 {
        Some(
            (
                match spec_key_bytes(arena, encrypt) {
                    Some(n) => n,
                    None => 16,
                },
                spec_crypt_filter_method(arena, encrypt),
            ),
        )
    } else {
        None
    }
}

/// The bytes of a string entry, empty when absent.
pub open spec fn bytes_or_empty(d: Dict, key: Seq<char>) -> Seq<u8> {
    match d.spec_bytes_entry(key) {
        Some(b) => b,
        None => Seq::empty(),
    }
}

/// One more decision, a violation of `clause`, at the end of `after`.
pub open spec fn recorded(before: Seq<Decision>, after: Seq<Decision>, clause: Seq<char>, found: Seq<char>, action: Seq<char>) -> bool {
    &&& after.len() == before.len() + 1
    &&& after.take(before.len() as int) == before
    &&& after.last().severity == crate::decision::Severity::Violation
    &&& after.last().clause@ == clause
    &&& after.last().found@ == found
    &&& after.last().action@ == action
}

/// A copy of a string entry's bytes, empty when absent.
fn bytes_of(d: &Dict, key: &str) -> (r: Vec<u8>)
    ensures
        r@ == bytes_or_empty(*d, key@),
{
    match d.bytes_entry(key) {
        Some(b) => copy_bytes(b),
        None => Vec::new(),
    }
}

/// Decides which security handler opens the document, and with what.
///
/// A public-key document offered no certificate, or carrying no `/Recipients`, is
/// recorded as a violation of 7.6.5 and left encrypted; nothing else is recorded here.
pub fn plan_handler(
    arena: &Arena,
    trailer: &Dict,
    encrypt: &Dict,
    credentials: Credentials<'_>,
    decisions: &mut Vec<Decision>,
) -> (r: HandlerPlan)
    ensures
        is_public_key(*encrypt) && credentials.recipient.is_none() ==> r is Unavailable && recorded(
            old(decisions)@,
            final(decisions)@,
            "7.6.5"@,
            "the document is encrypted to a certificate"@,
            "no certificate and key were offered, so it stays encrypted"@,
        ),
        is_public_key(*encrypt) && credentials.recipient.is_some() && spec_recipients(
            *arena,
            *encrypt,
        ).len() == 0 ==> r is Unavailable && recorded(
            old(decisions)@,
            final(decisions)@,
            "7.6.5"@,
            "a public-key handler with no /Recipients"@,
            "left the document encrypted; there is no seed to derive a key from"@,
        ),
        is_public_key(*encrypt) && credentials.recipient.is_some() && spec_recipients(
            *arena,
            *encrypt,
        ).len() > 0 ==> final(decisions)@ == old(decisions)@ && (r matches HandlerPlan::PublicKey {
            recipients,
            key_len,
            encrypt_metadata,
        } && byte_views(recipients@) == spec_recipients(*arena, *encrypt) && key_len == match spec_key_bytes(
            *arena,
            *encrypt,
        ) {
            Some(n) => n,
            None => 32,
        } && encrypt_metadata == spec_encrypt_metadata(*encrypt)),
        !is_public_key(*encrypt) ==> final(decisions)@ == old(decisions)@,
        !is_public_key(*encrypt) && spec_version(*arena, *encrypt) == 5 && (spec_revision(
            *arena,
            *encrypt,
        ) == 5 || spec_revision(*arena, *encrypt) == 6) ==> {
            let all = encrypt.spec_bytes_entry("U"@).is_some() && encrypt.spec_bytes_entry(
                "UE"@,
            ).is_some() && encrypt.spec_bytes_entry("O"@).is_some() && encrypt.spec_bytes_entry(
                "OE"@,
            ).is_some();
            &&& !all ==> r is Unavailable
            &&& all ==> (r matches HandlerPlan::Aes256 { password, u, ue, o, oe, revision, encrypt_metadata }
                && password@ == spec_saslprep(credentials.password@)
                && u@ == bytes_or_empty(*encrypt, "U"@) && ue@ == bytes_or_empty(*encrypt, "UE"@)
                && o@ == bytes_or_empty(*encrypt, "O"@) && oe@ == bytes_or_empty(*encrypt, "OE"@)
                && revision == spec_revision(*arena, *encrypt)
                && encrypt_metadata == spec_encrypt_metadata(*encrypt))
        },
        !is_public_key(*encrypt) && !(spec_version(*arena, *encrypt) == 5 && (spec_revision(
            *arena,
            *encrypt,
        ) == 5 || spec_revision(*arena, *encrypt) == 6)) ==> {
            let usable = spec_standard_key(*arena, *encrypt).is_some() && 2 <= spec_revision(*arena, *encrypt) <= 4
                && spec_permissions(*arena, *encrypt).is_some();
            &&& !usable ==> r is Unavailable
            &&& usable ==> (r matches HandlerPlan::Standard {
                password,
                owner,
                user,
                permissions,
                file_id,
                encrypt_metadata,
                revision,
                key_len,
                cipher,
            } && password@ == credentials.password@ && owner@ == bytes_or_empty(*encrypt, "O"@)
                && user@ == bytes_or_empty(*encrypt, "U"@)
                && permissions == spec_permissions(*arena, *encrypt).unwrap()
                && file_id@ == spec_first_file_id(*trailer)
                && encrypt_metadata == spec_encrypt_metadata(*encrypt)
                && revision == spec_revision(*arena, *encrypt)
                && (key_len, cipher) == spec_standard_key(*arena, *encrypt).unwrap())
        },
{
    let version = match integer(arena, encrypt, "V") {
        Some(v) => v,
        None => 0,
    };
    let revision = match integer(arena, encrypt, "R") {
        Some(v) => v,
        None => 0,
    };
    let encrypt_metadata = match encrypt.bool_entry("EncryptMetadata") {
        Some(b) => b,
        None => true,
    };
    let public_key = match encrypt.name_entry("Filter") {
        Some(n) => str_eq(n.as_str(), "Adobe.PubSec"),
        None => false,
    };
    if public_key {
        if credentials.recipient.is_none() {
            decisions.push(
                Decision::violation(
                    "7.6.5",
                    text("the document is encrypted to a certificate"),
                    "no certificate and key were offered, so it stays encrypted",
                ),
            );
            assert(decisions@.take(old(decisions)@.len() as int) =~= old(decisions)@);
            return HandlerPlan::Unavailable;
        }
        let recipients = recipients(arena, encrypt);
        if recipients.len() == 0 {
            decisions.push(
                Decision::violation(
                    "7.6.5",
                    text("a public-key handler with no /Recipients"),
                    "left the document encrypted; there is no seed to derive a key from",
                ),
            );
            assert(decisions@.take(old(decisions)@.len() as int) =~= old(decisions)@);
            return HandlerPlan::Unavailable;
        }
        let key_len = match key_bytes(arena, encrypt) {
            Some(n) => n,
            None => 32,
        };
        return HandlerPlan::PublicKey { recipients, key_len, encrypt_metadata };
    }
    if version == 5 && (revision == 5 || revision == 6) {
        let (u, ue, o, oe) = match (
            encrypt.bytes_entry("U"),
            encrypt.bytes_entry("UE"),
            encrypt.bytes_entry("O"),
            encrypt.bytes_entry("OE"),
        ) {
            (Some(u), Some(ue), Some(o), Some(oe)) => (u, ue, o, oe),
            _ => {
                return HandlerPlan::Unavailable;
            },
        };
        return HandlerPlan::Aes256 {
            password: saslprep(credentials.password),
            u: copy_bytes(u),
            ue: copy_bytes(ue),
            o: copy_bytes(o),
            oe: copy_bytes(oe),
            revision: revision as i32,
            encrypt_metadata,
        };
    }
    let (key_len, cipher) = if version == 1 {
        (5, Cipher::Rc4)
    } else if version == 2 {
        (
            match key_bytes(arena, encrypt) {
                Some(n) => n,
                None => 5,
            },
            Cipher::Rc4,
        )
    } else if version == 4 {
        (
            match key_bytes(arena, encrypt) {
                Some(n) => n,
                None => 16,
            },
            crypt_filter_method(arena, encrypt),
        )
    } else {
        return HandlerPlan::Unavailable;
    };
    if !(2 <= revision && revision <= 4) {
        return HandlerPlan::Unavailable;
    }
    let permissions = match permissions(arena, encrypt) {
        Some(p) => p,
        None => {
            return HandlerPlan::Unavailable;
        },
    };
    HandlerPlan::Standard {
        password: text(credentials.password),
        owner: bytes_of(encrypt, "O"),
        user: bytes_of(encrypt, "U"),
        permissions,
        file_id: first_file_id(trailer),
        encrypt_metadata,
        revision: revision as i32,
        key_len,
        cipher,
    }
}

} // verus!

//! Fonts (ISO 32000-2 clause 9): what the model says of a font without loading its
//! program — how a substitute face is addressed, which characters are withheld from
//! extraction, and the labels of the routes that name a character.

pub mod metrics;
pub mod schema;

use crate::error::text;
use crate::object::{str_eq, Arena, Dict, Object};
use crate::text::{chars_of, lossy_text, utf8_lossy};
use vstd::prelude::*;

verus! {

/// The base of the glyph-identifier range that is **not** glyph identifiers: a font
/// that embeds no program answers `SYSTEM_FALLBACK_BASE` plus the Unicode scalar value,
/// for the renderer to look the character up in the substitute face it holds.
pub const SYSTEM_FALLBACK_BASE: u32 = 1_000_000;

/// Marks `c` as a character to resolve in the host's substitute face.
pub fn system_fallback_gid(c: char) -> (r: u32)
    ensures
        r == SYSTEM_FALLBACK_BASE + (c as u32),
{
    SYSTEM_FALLBACK_BASE + c as u32
}

/// Whether `n` is a Unicode scalar value: in range, and not a surrogate.
pub open spec fn is_scalar(n: int) -> bool {
    (0 <= n <= 0xD7FF) || (0xE000 <= n <= 0x10FFFF)
}

/// The character a marker stands for, or `None` if this is an ordinary glyph index or
/// the value above the base is not a character.
pub fn system_fallback_char(gid: u32) -> (r: Option<char>)
    ensures
        gid < SYSTEM_FALLBACK_BASE ==> r is None,
        gid >= SYSTEM_FALLBACK_BASE && !is_scalar(gid - SYSTEM_FALLBACK_BASE) ==> r is None,
        gid >= SYSTEM_FALLBACK_BASE && is_scalar(gid - SYSTEM_FALLBACK_BASE) ==> (r matches Some(c)
            && c as int == gid - SYSTEM_FALLBACK_BASE),
{
    if gid < SYSTEM_FALLBACK_BASE {
        return None;
    }
    char_from(gid - SYSTEM_FALLBACK_BASE)
}

/// The character of a number, with `char::from_u32`: one exactly when the number is a
/// Unicode scalar value, as that function's documentation states.
#[verifier::external_body]
fn char_from(n: u32) -> (r: Option<char>)
    ensures
        r is Some <==> is_scalar(n as int),
        r matches Some(c) ==> c as int == n,
{
    char::from_u32(n)
}

/// Which bundled font stands in when an embedded program is unusable.
#[derive(Clone, Copy, Debug, PartialEq, Eq, Structural)]
pub enum FallbackFontType {
    /// No preference; the loader picks by descriptor flags.
    Default,
    /// A proportional sans-serif face.
    SansSerif,
    /// A proportional serif face.
    Serif,
    /// A fixed-pitch face.
    Monospace,
    /// A Japanese gothic (sans) face.
    JapaneseSans,
    /// A Japanese mincho (serif) face.
    JapaneseSerif,
}

/// Summary of a font used in the document.
pub struct FontSummary {
    /// The base name of the font.
    pub name: String,
    /// The font type (Type1, TrueType, Type0, and so on).
    pub font_type: String,
    /// Whether the font is embedded in the file.
    pub is_embedded: bool,
    /// Whether the font is a Type 3 font, defined by content streams.
    pub is_type3: bool,
    /// Whether the font is a subset of the original font.
    pub is_subset: bool,
    /// The character encoding the font uses.
    pub encoding: String,
    /// Whether the font has a `/ToUnicode` mapping.
    pub has_to_unicode: bool,
    /// Object number of the font dictionary.
    pub object_id: u32,
}

/// Which route named a character code, or why none did (9.10.2). A label, not a
/// taxonomy: the list grows with the files it meets.
#[derive(Clone, Copy, Debug, PartialEq, Eq, Structural)]
pub enum UnicodeSource {
    /// The file's own `/ToUnicode` CMap said so (9.10.3). Authoritative.
    ToUnicode,
    /// The font's encoding named it: a glyph name, or a Unicode-based CMap.
    Encoding,
    /// The CID collection's table, reached through `/CIDSystemInfo`.
    CidCollection,
    /// A CID in the ASCII range read as that byte. A guess, and named as one.
    AsciiGuess,
    /// A route produced a character in a private-use area and it was discarded: private
    /// use means the meaning is not universal.
    Withheld,
    /// No route named it.
    Unmapped,
}

impl UnicodeSource {
    /// The route's name, for a decision or a tally.
    pub fn name(self) -> (r: &'static str)
        ensures
            r@ == match self {
                UnicodeSource::ToUnicode => "ToUnicode"@,
                UnicodeSource::Encoding => "encoding"@,
                UnicodeSource::CidCollection => "CID collection"@,
                UnicodeSource::AsciiGuess => "ASCII guess"@,
                UnicodeSource::Withheld => "withheld"@,
                UnicodeSource::Unmapped => "unmapped"@,
            },
    {
        match self {
            UnicodeSource::ToUnicode => "ToUnicode",
            UnicodeSource::Encoding => "encoding",
            UnicodeSource::CidCollection => "CID collection",
            UnicodeSource::AsciiGuess => "ASCII guess",
            UnicodeSource::Withheld => "withheld",
            UnicodeSource::Unmapped => "unmapped",
        }
    }
}

/// Whether a resolved character is withheld from extraction (9.10.2): the private-use
/// areas always — the supplementary range taken whole, `U+F0000` to `U+10FFFF` — and the
/// C0 and C1 controls when the route asks.
pub open spec fn spec_withheld(c: char, reject_control: bool) -> bool {
    let v = c as int;
    (0xE000 <= v <= 0xF8FF) || (0xF0000 <= v <= 0x10FFFF) || (reject_control && (v <= 0x1F || (
    0x7F <= v <= 0x9F)))
}

/// Whether a resolved character is withheld from extraction, and so labelled.
pub fn is_withheld(c: char, reject_control: bool) -> (r: Option<UnicodeSource>)
    ensures
        spec_withheld(c, reject_control) ==> r == Some(UnicodeSource::Withheld),
        !spec_withheld(c, reject_control) ==> r is None,
{
    let value = c as u32;
    if (0xE000 <= value && value <= 0xF8FF) || (0xF0000 <= value && value <= 0x10FFFF) {
        return Some(UnicodeSource::Withheld);
    }
    if reject_control && (value <= 0x1F || (0x7F <= value && value <= 0x9F)) {
        return Some(UnicodeSource::Withheld);
    }
    None
}

/// Whether a mapping's value is a glyph name rather than the text itself: a solidus
/// with something after it. A lone `/` is the character.
pub fn is_glyph_name(value: &str) -> (r: bool)
    ensures
        r == (value@.len() > 1 && value@[0] == '/'),
{
    let cs = crate::text::chars_of(value);
    cs.len() > 1 && cs[0] == '/'
}

/// The mapping steps recorded for one character.
pub struct GlyphTrace {
    /// The character's CID.
    pub cid: u32,
    /// The Unicode value the route suggested, if any.
    pub unicode_hint: Option<char>,
    /// The glyph the character resolved to, if any.
    pub resolved_gid: Option<u32>,
    /// What was tried, in order.
    pub steps: Vec<String>,
}

/// Collects glyph traces while characters are resolved: one trace open at a time,
/// closed into the list when the glyph is known.
pub struct TraceContext {
    /// The trace being written.
    pub current_trace: Option<GlyphTrace>,
    /// The traces finished so far, in order.
    pub traces: Vec<GlyphTrace>,
}

impl TraceContext {
    /// No trace open, none finished.
    pub fn new() -> (t: Self)
        ensures
            t.current_trace is None,
            t.traces@.len() == 0,
    {
        TraceContext { current_trace: None, traces: Vec::new() }
    }

    /// Opens a trace for `cid`, replacing any still open.
    pub fn start(&mut self, cid: u32, hint: Option<char>)
        ensures
            final(self).current_trace matches Some(t) && t.cid == cid && t.unicode_hint == hint
                && t.resolved_gid is None && t.steps@.len() == 0,
            final(self).traces@ == old(self).traces@,
    {
        self.current_trace = Some(GlyphTrace { cid, unicode_hint: hint, resolved_gid: None, steps: Vec::new() });
    }

    /// Records a step in the open trace; with none open, nothing.
    pub fn push_step(&mut self, step: &str)
        ensures
            final(self).traces@ == old(self).traces@,
            old(self).current_trace is None ==> final(self).current_trace is None,
            old(self).current_trace matches Some(t) ==> (final(self).current_trace matches Some(u)
                && u.cid == t.cid && u.unicode_hint == t.unicode_hint && u.resolved_gid == t.resolved_gid
                && u.steps@.len() == t.steps@.len() + 1 && u.steps@.take(t.steps@.len() as int) == t.steps@
                && u.steps@.last()@ == step@),
    {
        let open = self.current_trace.take();
        match open {
            Some(mut t) => {
                t.steps.push(crate::error::text(step));
                self.current_trace = Some(t);
            },
            None => {},
        }
    }

    /// Closes the open trace with the glyph it resolved to; with none open, nothing.
    pub fn finish(&mut self, gid: Option<u32>)
        ensures
            final(self).current_trace is None,
            old(self).current_trace is None ==> final(self).traces@ == old(self).traces@,
            old(self).current_trace matches Some(t) ==> (final(self).traces@.len() == old(self).traces@.len() + 1
                && final(self).traces@.take(old(self).traces@.len() as int) == old(self).traces@
                && final(self).traces@.last().cid == t.cid
                && final(self).traces@.last().unicode_hint == t.unicode_hint
                && final(self).traces@.last().resolved_gid == gid
                && final(self).traces@.last().steps == t.steps),
    {
        let open = self.current_trace.take();
        match open {
            Some(mut t) => {
                t.resolved_gid = gid;
                self.traces.push(t);
                assert(self.traces@.take(old(self).traces@.len() as int) =~= old(self).traces@);
            },
            None => {},
        }
    }
}

/// How deep a `/DescendantFonts` chain is followed when asking whether a font is
/// embedded. A Type 0 font has one level; only a cycle goes deeper.
pub const MAX_FONT_DEPTH: usize = 8;

/// The text a font's name is written as: a name as itself, a literal string as its text.
pub open spec fn spec_name_or_string(arena: Arena, o: Object) -> Option<Seq<char>> {
    match arena.spec_resolve(o) {
        Object::Name(n) => Some(n@),
        Object::String(b) => Some(utf8_lossy(b@)),
        _ => None,
    }
}

/// `/FontName` of a font's descriptor.
pub open spec fn descriptor_font_name(arena: Arena, d: Dict) -> Option<Seq<char>> {
    match d.spec_get("FontDescriptor"@) {
        Some(fd) => match arena.spec_dict_of(fd) {
            Some(fdd) => match fdd.spec_get("FontName"@) {
                Some(n) => arena.spec_name_of(n),
                None => None,
            },
            None => None,
        },
        None => None,
    }
}

/// `/BaseFont` of a font's first descendant.
pub open spec fn descendant_base_font(arena: Arena, d: Dict) -> Option<Seq<char>> {
    match d.spec_get("DescendantFonts"@) {
        Some(k) => match arena.spec_array_of(k) {
            Some(kids) => if kids.len() > 0 {
                match arena.spec_dict_of(kids[0]) {
                    Some(kd) => match kd.spec_get("BaseFont"@) {
                        Some(b) => spec_name_or_string(arena, b),
                        None => None,
                    },
                    None => None,
                }
            } else {
                None
            },
            None => None,
        },
        None => None,
    }
}

/// Whether a name says nothing: the placeholder, or empty.
pub open spec fn is_blank_name(n: Seq<char>) -> bool {
    n == "Untitled"@ || n.len() == 0
}

/// A font's name: `/BaseFont`; when that is missing, empty or lost characters, the
/// descriptor's `/FontName`; when still nothing, the first descendant's `/BaseFont`;
/// else `Untitled`.
pub open spec fn spec_font_name(arena: Arena, d: Dict) -> Seq<char> {
    let first = match d.spec_get("BaseFont"@) {
        Some(o) => match spec_name_or_string(arena, o) {
            Some(n) => n,
            None => "Untitled"@,
        },
        None => "Untitled"@,
    };
    let second = if is_blank_name(first) || first.contains('\u{FFFD}') {
        match descriptor_font_name(arena, d) {
            Some(n) => n,
            None => first,
        }
    } else {
        first
    };
    if is_blank_name(second) {
        match descendant_base_font(arena, d) {
            Some(n) => n,
            None => second,
        }
    } else {
        second
    }
}

/// A font's `/Subtype`, `Type1` when it has none.
pub open spec fn spec_font_type(arena: Arena, d: Dict) -> Seq<char> {
    match d.spec_get("Subtype"@) {
        Some(o) => match arena.spec_name_of(o) {
            Some(n) => n,
            None => "Type1"@,
        },
        None => "Type1"@,
    }
}

/// How a font's `/Encoding` is labelled: a name as itself, a dictionary or a stream by
/// its kind, and anything else, or nothing, as the standard encoding.
pub open spec fn spec_encoding_label(arena: Arena, d: Dict) -> Seq<char> {
    match d.spec_get("Encoding"@) {
        Some(o) => match arena.spec_resolve(o) {
            Object::Name(n) => n@,
            Object::Dictionary(_) => "CustomDict"@,
            Object::Stream(_, _) => "CustomStream"@,
            _ => "Standard"@,
        },
        None => "Standard"@,
    }
}

/// Whether a font's descriptor carries a font program (9.9).
pub open spec fn descriptor_has_program(arena: Arena, d: Dict) -> bool {
    match d.spec_get("FontDescriptor"@) {
        Some(o) => match arena.spec_dict_of(o) {
            Some(fd) => fd.spec_get("FontFile"@) is Some || fd.spec_get("FontFile2"@) is Some
                || fd.spec_get("FontFile3"@) is Some,
            None => false,
        },
        None => false,
    }
}

/// Whether a font, read at `depth`, embeds its program: its descriptor does, or one of
/// its descendants does.
pub open spec fn font_embedded(arena: Arena, d: Dict, depth: nat) -> bool
    decreases MAX_FONT_DEPTH - depth, 0int,
{
    descriptor_has_program(arena, d) || (depth < MAX_FONT_DEPTH && match d.spec_get("DescendantFonts"@) {
        Some(k) => match arena.spec_array_of(k) {
            Some(kids) => kids_embedded(arena, kids, kids.len() as int, depth + 1),
            None => false,
        },
        None => false,
    })
}

/// Whether one of the first `n` descendants, read at `depth`, embeds its program.
pub open spec fn kids_embedded(arena: Arena, kids: Seq<Object>, n: int, depth: nat) -> bool
    decreases MAX_FONT_DEPTH - depth, n + 1,
{
    if n <= 0 || n > kids.len() || depth > MAX_FONT_DEPTH {
        false
    } else {
        kids_embedded(arena, kids, n - 1, depth) || match arena.spec_dict_of(kids[n - 1]) {
            Some(kd) => font_embedded(arena, kd, depth),
            None => false,
        }
    }
}

/// A descendant that embeds its program still does among more descendants.
proof fn lemma_kids_embedded_grow(arena: Arena, kids: Seq<Object>, m: int, n: int, depth: nat)
    requires
        0 <= m <= n <= kids.len(),
        kids_embedded(arena, kids, m, depth),
    ensures
        kids_embedded(arena, kids, n, depth),
    decreases n - m,
{
    if m < n {
        lemma_kids_embedded_grow(arena, kids, m, n - 1, depth);
    }
}

/// Whether a name is a subset's: six tag letters and a plus sign before the base name
/// (9.6.4), judged on the name's UTF-8 bytes.
pub open spec fn spec_is_subset(name: Seq<char>) -> bool {
    vstd::utf8::encode_utf8(name).len() > 7 && vstd::utf8::encode_utf8(name)[6] == 43u8
}

/// Whether `s` summarizes the font dictionary `d`, object `id`.
pub open spec fn summarizes(arena: Arena, d: Dict, id: u32, s: FontSummary) -> bool {
    &&& s.name@ == spec_font_name(arena, d)
    &&& s.font_type@ == spec_font_type(arena, d)
    &&& s.is_type3 == (spec_font_type(arena, d) == "Type3"@)
    &&& s.is_embedded == if s.is_type3 {
        d.spec_get("CharProcs"@) is Some
    } else {
        font_embedded(arena, d, 0)
    }
    &&& s.is_subset == spec_is_subset(s.name@)
    &&& s.encoding@ == spec_encoding_label(arena, d)
    &&& s.has_to_unicode == d.spec_get("ToUnicode"@) is Some
    &&& s.object_id == id
}

/// The font dictionary object `o` is: a dictionary whose `/Type` is `/Font`.
pub open spec fn font_dict(arena: Arena, o: Object) -> Option<Dict> {
    match o {
        Object::Dictionary(d) => match d.spec_get("Type"@) {
            Some(t) => if arena.spec_name_of(t) == Some("Font"@) {
                Some(d)
            } else {
                None
            },
            None => None,
        },
        _ => None,
    }
}

/// The object numbers, below `n`, of the font dictionaries.
pub open spec fn font_ids(arena: Arena, n: int) -> Seq<u32>
    decreases n,
{
    if n <= 0 {
        Seq::empty()
    } else if font_dict(arena, arena.objects@[n - 1]) is Some {
        font_ids(arena, n - 1).push((n - 1) as u32)
    } else {
        font_ids(arena, n - 1)
    }
}

/// A name or a literal string, as text.
fn resolve_name_or_string(arena: &Arena, o: &Object) -> (r: Option<String>)
    ensures
        match r {
            Some(s) => spec_name_or_string(*arena, *o) == Some(s@),
            None => spec_name_or_string(*arena, *o) is None,
        },
{
    match arena.resolve(o) {
        Object::Name(n) => Some(text(n.as_str())),
        Object::String(b) => Some(lossy_text(b.as_slice())),
        _ => None,
    }
}

/// Whether `s` holds the replacement character, which marks characters lost in decoding.
fn has_replacement(s: &str) -> (r: bool)
    ensures
        r == s@.contains('\u{FFFD}'),
{
    let cs = chars_of(s);
    let mut i: usize = 0;
    while i < cs.len()
        invariant
            i <= cs@.len(),
            cs@ == s@,
            forall|j: int| 0 <= j < i ==> cs@[j] != '\u{FFFD}',
        decreases cs@.len() - i,
    {
        if cs[i] == '\u{FFFD}' {
            assert(s@[i as int] == '\u{FFFD}');
            return true;
        }
        i = i + 1;
    }
    false
}

/// Whether a name says nothing.
fn blank(n: &str) -> (r: bool)
    ensures
        r == is_blank_name(n@),
{
    proof {
        reveal_strlit("");
    }
    str_eq(n, "Untitled") || n.unicode_len() == 0
}

/// A font's name, from wherever the file wrote one.
fn extract_font_name(arena: &Arena, d: &Dict) -> (r: String)
    ensures
        r@ == spec_font_name(*arena, *d),
{
    let mut name = match d.get("BaseFont") {
        Some(o) => match resolve_name_or_string(arena, o) {
            Some(n) => n,
            None => text("Untitled"),
        },
        None => text("Untitled"),
    };
    if blank(name.as_str()) || has_replacement(name.as_str()) {
        if let Some(fd_obj) = d.get("FontDescriptor") {
            if let Some(fd) = arena.dict_of(fd_obj) {
                if let Some(fname) = fd.get("FontName") {
                    if let Some(n) = arena.name_of(fname) {
                        name = text(n.as_str());
                    }
                }
            }
        }
    }
    if blank(name.as_str()) {
        if let Some(kids_obj) = d.get("DescendantFonts") {
            if let Some(kids) = arena.array_of(kids_obj) {
                if kids.len() > 0 {
                    if let Some(kd) = arena.dict_of(&kids[0]) {
                        if let Some(bf) = kd.get("BaseFont") {
                            if let Some(n) = resolve_name_or_string(arena, bf) {
                                name = n;
                            }
                        }
                    }
                }
            }
        }
    }
    name
}

/// Whether a font, read at `depth`, embeds its program.
fn check_font_embedding(arena: &Arena, d: &Dict, depth: usize) -> (r: bool)
    requires
        depth <= MAX_FONT_DEPTH,
    ensures
        r == font_embedded(*arena, *d, depth as nat),
    decreases MAX_FONT_DEPTH - depth,
{
    if let Some(o) = d.get("FontDescriptor") {
        if let Some(fd) = arena.dict_of(o) {
            if fd.contains_key("FontFile") || fd.contains_key("FontFile2") || fd.contains_key("FontFile3") {
                return true;
            }
        }
    }
    if depth >= MAX_FONT_DEPTH {
        return false;
    }
    if let Some(k) = d.get("DescendantFonts") {
        if let Some(kids) = arena.array_of(k) {
            let mut i: usize = 0;
            while i < kids.len()
                invariant
                    i <= kids@.len(),
                    depth < MAX_FONT_DEPTH,
                    d.spec_get("DescendantFonts"@) == Some(*k),
                    arena.spec_array_of(*k) == Some(kids@),
                    !kids_embedded(*arena, kids@, i as int, (depth + 1) as nat),
                decreases kids@.len() - i,
            {
                if let Some(kd) = arena.dict_of(&kids[i]) {
                    if check_font_embedding(arena, kd, depth + 1) {
                        proof {
                            assert(kids_embedded(*arena, kids@, i + 1, (depth + 1) as nat));
                            lemma_kids_embedded_grow(*arena, kids@, i + 1, kids@.len() as int, (depth + 1) as nat);
                        }
                        return true;
                    }
                }
                i = i + 1;
            }
        }
    }
    false
}

/// What a font dictionary says of its font.
fn extract_font_summary(arena: &Arena, d: &Dict, id: u32) -> (r: FontSummary)
    ensures
        summarizes(*arena, *d, id, r),
{
    let name = extract_font_name(arena, d);
    let font_type = match d.get("Subtype") {
        Some(o) => match arena.name_of(o) {
            Some(n) => text(n.as_str()),
            None => text("Type1"),
        },
        None => text("Type1"),
    };
    let encoding = match d.get("Encoding") {
        Some(o) => match arena.resolve(o) {
            Object::Name(n) => text(n.as_str()),
            Object::Dictionary(_) => text("CustomDict"),
            Object::Stream(_, _) => text("CustomStream"),
            _ => text("Standard"),
        },
        None => text("Standard"),
    };
    let is_type3 = str_eq(font_type.as_str(), "Type3");
    let is_embedded = if is_type3 {
        d.contains_key("CharProcs")
    } else {
        check_font_embedding(arena, d, 0)
    };
    let bytes = name.as_str().as_bytes();
    let is_subset = bytes.len() > 7 && bytes[6] == 43u8;
    let has_to_unicode = d.contains_key("ToUnicode");
    FontSummary { name, font_type, is_embedded, is_type3, is_subset, encoding, has_to_unicode, object_id: id }
}

/// Every font dictionary the file holds as an object of its own, in object order, each
/// summarized.
pub fn list_fonts(arena: &Arena) -> (r: Vec<FontSummary>)
    requires
        arena.objects@.len() <= u32::MAX,
    ensures
        r@.len() == font_ids(*arena, arena.objects@.len() as int).len(),
        forall|i: int| 0 <= i < r@.len() ==> {
            let id = #[trigger] font_ids(*arena, arena.objects@.len() as int)[i];
            summarizes(*arena, font_dict(*arena, arena.objects@[id as int]).unwrap(), id, r@[i])
        },
{
    let mut fonts: Vec<FontSummary> = Vec::new();
    let mut i: usize = 0;
    while i < arena.objects.len()
        invariant
            i <= arena.objects@.len(),
            arena.objects@.len() <= u32::MAX,
            fonts@.len() == font_ids(*arena, i as int).len(),
            forall|j: int| 0 <= j < fonts@.len() ==> (font_ids(*arena, i as int)[j] as int) < i,
            forall|j: int| 0 <= j < fonts@.len() ==> {
                let id = #[trigger] font_ids(*arena, i as int)[j];
                summarizes(*arena, font_dict(*arena, arena.objects@[id as int]).unwrap(), id, fonts@[j])
            },
        decreases arena.objects@.len() - i,
    {
        if let Object::Dictionary(d) = &arena.objects[i] {
            let is_font = match d.get("Type") {
                Some(t) => match arena.name_of(t) {
                    Some(n) => str_eq(n.as_str(), "Font"),
                    None => false,
                },
                None => false,
            };
            if is_font {
                let s = extract_font_summary(arena, d, i as u32);
                fonts.push(s);
            }
        }
        i = i + 1;
    }
    fonts
}

/// An optional text, as characters.
pub open spec fn opt_string(o: Option<String>) -> Option<Seq<char>> {
    match o {
        Some(t) => Some(t@),
        None => None,
    }
}

/// Whether a font of this subtype reads two bytes to a code.
pub open spec fn multibyte_subtype(subtype: Seq<char>) -> bool {
    subtype == "Type0"@ || subtype == "CIDFontType0"@ || subtype == "CIDFontType2"@
}

/// What the last-resort decoding of a code at the start of `data` gives: how many bytes
/// it takes, the text, and the route. `from_collection` is what the font's CID
/// collection made of the first two bytes, where it has one; `from_maps` is what the
/// font's own maps made of the code's bytes.
///
/// A font that reads two bytes to a code (a composite subtype, or an `Identity`
/// encoding) answers from its collection first; a one-byte font that is not a legacy
/// Distiller font reads a printable ASCII byte as itself; everything else is what its
/// maps said.
pub open spec fn spec_heuristic_decode(
    subtype: Seq<char>,
    encoding: Option<Seq<char>>,
    legacy_distiller: bool,
    from_collection: Option<(usize, Option<Seq<char>>, UnicodeSource)>,
    from_maps: (Option<Seq<char>>, UnicodeSource),
    data: Seq<u8>,
) -> (int, Option<Seq<char>>, UnicodeSource) {
    let multibyte = multibyte_subtype(subtype);
    let identity = match encoding {
        Some(e) => crate::font::metrics::occurs(e, "Identity"@),
        None => false,
    };
    let consumed: int = if multibyte || identity { 2 } else { 1 };
    if data.len() < consumed {
        (data.len() as int, None, UnicodeSource::Unmapped)
    } else if (multibyte || identity) && from_collection is Some {
        let (n, t, src) = from_collection.unwrap();
        (n as int, t, src)
    } else if !multibyte && !identity && !legacy_distiller && 32 <= data[0] < 127 {
        (1, Some(seq![data[0] as char]), UnicodeSource::AsciiGuess)
    } else {
        (consumed, from_maps.0, from_maps.1)
    }
}

/// Decodes a code at the start of `data` when no map of the font named it at first
/// sight, from the font's subtype and encoding name, whether it is a legacy Distiller
/// font, what its CID collection made of the code (`from_collection`) and what its own
/// maps made of it (`from_maps`).
pub fn heuristic_decode(
    subtype: &str,
    encoding: Option<&str>,
    legacy_distiller: bool,
    from_collection: Option<(usize, Option<String>, UnicodeSource)>,
    from_maps: (Option<String>, UnicodeSource),
    data: &[u8],
) -> (r: (usize, Option<String>, UnicodeSource))
    ensures
        ({
            let s = spec_heuristic_decode(
                subtype@,
                match encoding {
                    Some(e) => Some(e@),
                    None => None,
                },
                legacy_distiller,
                match from_collection {
                    Some((n, t, src)) => Some((n, opt_string(t), src)),
                    None => None,
                },
                (opt_string(from_maps.0), from_maps.1),
                data@,
            );
            r.0 == s.0 && opt_string(r.1) == s.1 && r.2 == s.2
        }),
{
    let multibyte = str_eq(subtype, "Type0") || str_eq(subtype, "CIDFontType0") || str_eq(subtype, "CIDFontType2");
    let identity = match encoding {
        Some(e) => crate::font::metrics::contains(&chars_of(e), "Identity"),
        None => false,
    };
    let consumed: usize = if multibyte || identity { 2 } else { 1 };
    if data.len() < consumed {
        return (data.len(), None, UnicodeSource::Unmapped);
    }
    if multibyte || identity {
        if let Some(found) = from_collection {
            return found;
        }
    }
    if !multibyte && !identity && !legacy_distiller && 32 <= data[0] && data[0] < 127 {
        return (1, Some(crate::error::char_text(data[0] as char)), UnicodeSource::AsciiGuess);
    }
    (consumed, from_maps.0, from_maps.1)
}

} // verus!

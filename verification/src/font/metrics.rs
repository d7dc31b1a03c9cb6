//! What a font's name and descriptor flags say about its shape, and which way it is
//! written.

use crate::destination::{number, number_view, opt_number, spec_number, Number, NumberView};
use crate::object::{str_eq, Arena, Dict, Object};
use crate::text::chars_of;
use vstd::prelude::*;

verus! {

/// A font's category, for estimating advance widths where the file gives none.
#[derive(Clone, Copy, Debug, PartialEq, Eq, Structural)]
pub enum FontCategory {
    /// Fixed pitch: Courier, Consolas.
    Monospace,
    /// Proportional serif: Times, Georgia, Mincho.
    Serif,
    /// Proportional sans-serif: Helvetica, Arial, Gothic.
    SansSerif,
    /// Chinese, Japanese or Korean.
    Cjk,
    /// Symbolic or dingbat.
    Symbol,
}

impl Default for FontCategory {
    /// Sans-serif, what a font says nothing about is taken to be.
    fn default() -> (r: Self)
        ensures
            r == FontCategory::SansSerif,
    {
        FontCategory::SansSerif
    }
}

/// `c` in lower case, when it is an ASCII capital.
pub open spec fn lower_char(c: char) -> char {
    if 65 <= (c as u32) <= 90 {
        (((c as u32) + 32) as u8) as char
    } else {
        c
    }
}

/// `s` with its ASCII capitals in lower case, as `str::to_ascii_lowercase` leaves it.
pub open spec fn ascii_lower(s: Seq<char>) -> Seq<char> {
    s.map_values(|c: char| lower_char(c))
}

/// Whether `needle` occurs in `hay`.
pub open spec fn occurs(hay: Seq<char>, needle: Seq<char>) -> bool {
    exists|i: int| 0 <= i && i + needle.len() <= hay.len() && #[trigger] hay.subrange(i, i + needle.len()) == needle
}

/// `c` in lower case, when it is an ASCII capital.
fn lower(c: char) -> (r: char)
    ensures
        r == lower_char(c),
{
    let n = c as u32;
    if 65 <= n && n <= 90 {
        ((n + 32) as u8) as char
    } else {
        c
    }
}

/// Whether `needle` occurs in `hay` at `i`.
fn occurs_at(hay: &Vec<char>, needle: &Vec<char>, i: usize) -> (r: bool)
    requires
        i + needle@.len() <= hay@.len(),
    ensures
        r == (hay@.subrange(i as int, i + needle@.len()) == needle@),
{
    let mut k: usize = 0;
    while k < needle.len()
        invariant
            i + needle@.len() <= hay.len(),
            k <= needle@.len(),
            hay@.subrange(i as int, i + k) == needle@.take(k as int),
        decreases needle@.len() - k,
    {
        if hay[i + k] != needle[k] {
            assert(hay@.subrange(i as int, i + needle@.len())[k as int] != needle@[k as int]);
            return false;
        }
        assert(hay@.subrange(i as int, i + k + 1) =~= hay@.subrange(i as int, i + k).push(hay@[i + k]));
        assert(needle@.take(k + 1) =~= needle@.take(k as int).push(needle@[k as int]));
        k = k + 1;
    }
    assert(needle@.take(k as int) =~= needle@);
    true
}

/// Whether `needle` occurs in `hay`.
pub(crate) fn contains(hay: &Vec<char>, needle: &str) -> (r: bool)
    ensures
        r == occurs(hay@, needle@),
{
    let n = chars_of(needle);
    if n.len() > hay.len() {
        return false;
    }
    let mut i: usize = 0;
    let last = hay.len() - n.len();
    while i <= last
        invariant
            n@ == needle@,
            n@.len() <= hay.len(),
            last == hay.len() - n@.len(),
            i <= last + 1,
            forall|j: int| 0 <= j < i ==> #[trigger] hay@.subrange(j, j + n@.len()) != n@,
        decreases last + 1 - i,
    {
        if occurs_at(hay, &n, i) {
            return true;
        }
        if i == last {
            assert forall|j: int| 0 <= j && j + n@.len() <= hay@.len() implies #[trigger] hay@.subrange(j, j + n@.len()) != n@ by {
                assert(j <= i);
            }
            return false;
        }
        i = i + 1;
    }
    proof {
        assert forall|j: int| 0 <= j && j + n@.len() <= hay@.len() implies #[trigger] hay@.subrange(j, j + n@.len()) != n@ by {
        }
    }
    false
}

/// Whether the lower-cased name carries any of the CJK markers.
pub open spec fn spec_cjk_named(l: Seq<char>) -> bool {
    occurs(l, "mincho"@) || occurs(l, "gothic"@) || occurs(l, "\u{660E}\u{671D}"@) || occurs(
        l,
        "\u{30B4}\u{30B7}\u{30C3}\u{30AF}"@,
    ) || occurs(l, "song"@) || occurs(l, "kai"@) || occurs(l, "heiti"@) || occurs(l, "batang"@)
        || occurs(l, "dotum"@)
}

/// Whether the lower-cased name says fixed pitch.
pub open spec fn spec_mono_named(l: Seq<char>) -> bool {
    occurs(l, "courier"@) || occurs(l, "mono"@) || occurs(l, "consolas"@)
}

/// Whether the lower-cased name says serif.
pub open spec fn spec_serif_named(l: Seq<char>) -> bool {
    occurs(l, "times"@) || occurs(l, "serif"@) || occurs(l, "georgia"@) || occurs(l, "palatino"@)
}

/// Whether the lower-cased name says symbolic.
pub open spec fn spec_symbol_named(l: Seq<char>) -> bool {
    occurs(l, "symbol"@) || occurs(l, "dingbat"@) || occurs(l, "wingdings"@)
}

/// The category a font's name and descriptor flags give, tested in this order: CJK
/// (a CID-keyed font, or a CJK name), then fixed pitch (flag bit 1, or the name), then
/// serif (bit 2, or the name), then symbolic (bit 3, or the name), and otherwise
/// sans-serif.
pub open spec fn spec_category(base_font: Seq<char>, flags: u32, is_cid_keyed: bool) -> FontCategory {
    let l = ascii_lower(base_font);
    if is_cid_keyed || spec_cjk_named(l) {
        FontCategory::Cjk
    } else if (flags & 1) != 0 || spec_mono_named(l) {
        FontCategory::Monospace
    } else if (flags & 2) != 0 || spec_serif_named(l) {
        FontCategory::Serif
    } else if (flags & 4) != 0 || spec_symbol_named(l) {
        FontCategory::Symbol
    } else {
        FontCategory::SansSerif
    }
}

impl FontCategory {
    /// Classifies a font from its base name and its descriptor flags.
    pub fn from_name_and_flags(base_font: &str, flags: u32, is_cid_keyed: bool) -> (r: Self)
        ensures
            r == spec_category(base_font@, flags, is_cid_keyed),
    {
        let cs = chars_of(base_font);
        let mut l: Vec<char> = Vec::new();
        let mut i: usize = 0;
        while i < cs.len()
            invariant
                cs@ == base_font@,
                i <= cs@.len(),
                l@ == ascii_lower(cs@.take(i as int)),
            decreases cs@.len() - i,
        {
            l.push(lower(cs[i]));
            assert(ascii_lower(cs@.take(i + 1)) =~= ascii_lower(cs@.take(i as int)).push(lower_char(cs@[i as int])));
            i = i + 1;
        }
        assert(cs@.take(i as int) =~= cs@);
        if is_cid_keyed || contains(&l, "mincho") || contains(&l, "gothic") || contains(&l, "\u{660E}\u{671D}")
            || contains(&l, "\u{30B4}\u{30B7}\u{30C3}\u{30AF}") || contains(&l, "song") || contains(&l, "kai")
            || contains(&l, "heiti") || contains(&l, "batang") || contains(&l, "dotum") {
            return FontCategory::Cjk;
        }
        if (flags & 1) != 0 || contains(&l, "courier") || contains(&l, "mono") || contains(&l, "consolas") {
            return FontCategory::Monospace;
        }
        if (flags & 2) != 0 || contains(&l, "times") || contains(&l, "serif") || contains(&l, "georgia")
            || contains(&l, "palatino") {
            return FontCategory::Serif;
        }
        if (flags & 4) != 0 || contains(&l, "symbol") || contains(&l, "dingbat") || contains(&l, "wingdings") {
            return FontCategory::Symbol;
        }
        FontCategory::SansSerif
    }
}

/// Whether a CMap's name says vertical: it ends `-V`, or is `V`.
pub open spec fn vertical_name(n: Seq<char>) -> bool {
    (n.len() >= 2 && n[n.len() - 2] == '-' && n[n.len() - 1] == 'V') || n == seq!['V']
}

/// Whether a name says vertical.
fn is_vertical(n: &str) -> (r: bool)
    ensures
        r == vertical_name(n@),
{
    let cs = chars_of(n);
    let k = cs.len();
    if k >= 2 && cs[k - 2] == '-' && cs[k - 1] == 'V' {
        return true;
    }
    if k == 1 && cs[0] == 'V' {
        assert(cs@ =~= seq!['V']);
        return true;
    }
    false
}

/// The writing mode a font dictionary's `/Encoding` gives: 1, vertical, when it names a
/// vertical CMap — by its own name, or by a CMap stream's `/CMapName` — and 0 otherwise.
pub open spec fn spec_wmode(dict: Dict, arena: Arena) -> i32 {
    match dict.spec_get("Encoding"@) {
        Some(enc) => match arena.spec_resolve(enc) {
            Object::Name(n) => if vertical_name(n@) {
                1
            } else {
                0
            },
            Object::Stream(d, _) => match d.spec_get("CMapName"@) {
                Some(o) => match arena.spec_name_of(o) {
                    Some(n) => if vertical_name(n) {
                        1
                    } else {
                        0
                    },
                    None => 0,
                },
                None => 0,
            },
            _ => 0,
        },
        None => 0,
    }
}

/// Detects the writing mode, horizontal 0 or vertical 1, from `/Encoding`.
pub fn detect_wmode(dict: &Dict, arena: &Arena) -> (r: i32)
    ensures
        r == spec_wmode(*dict, *arena),
{
    match dict.get("Encoding") {
        Some(enc) => match arena.resolve(enc) {
            Object::Name(n) => if is_vertical(n.as_str()) {
                1
            } else {
                0
            },
            Object::Stream(d, _) => match d.get("CMapName") {
                Some(o) => match arena.name_of(o) {
                    Some(n) => if is_vertical(n.as_str()) {
                        1
                    } else {
                        0
                    },
                    None => 0,
                },
                None => 0,
            },
            _ => 0,
        },
        None => 0,
    }
}

/// A run of CIDs that `/W` gives one width (9.7.4.3): `first` to `last`, both included,
/// and the width as written, or `None` where the file wrote something that is not a
/// number, which a reader takes as 1000.
#[derive(Debug, Clone, PartialEq)]
pub struct WidthRun {
    /// The first CID of the run.
    pub first: u32,
    /// The last CID of the run.
    pub last: u32,
    /// The width, as written.
    pub width: Option<Number>,
}

/// A run, as values.
pub open spec fn run_view(r: WidthRun) -> (u32, u32, Option<NumberView>) {
    (r.first, r.last, opt_number(r.width))
}

/// Runs, as values.
pub open spec fn runs_view(v: Seq<WidthRun>) -> Seq<(u32, u32, Option<NumberView>)> {
    v.map_values(|r: WidthRun| run_view(r))
}

/// The widths a CIDFont declares: `/DW`, and the runs of `/W` in the order written, a
/// later run overriding an earlier one where they overlap.
pub struct CidWidths {
    /// `/DW`, as written; `None` where it is absent or not a number, which a reader takes
    /// as 1000.
    pub default: Option<Number>,
    /// The runs of `/W`, in order.
    pub runs: Vec<WidthRun>,
}

/// The integer an element of `/W` gives as a CID, 0 where it is none, cut to 32 bits as
/// a cast cuts it.
pub open spec fn cid_at(arena: Arena, o: Object) -> u32 {
    match arena.spec_integer_of(o) {
        Some(v) => v as u32,
        None => 0u32,
    }
}

/// The runs of the form `c [w1 w2 ...]`: one CID each, counting up from `first` (and
/// wrapping past the largest CID).
pub open spec fn one_each(arena: Arena, first: u32, ws: Seq<Object>) -> Seq<(u32, u32, Option<NumberView>)> {
    Seq::new(
        ws.len(),
        |k: int| {
            let c = ((first + k) % 0x1_0000_0000) as u32;
            (c, c, spec_number(arena, ws[k]))
        },
    )
}

/// The runs `/W` gives from its `i`th element on. A range `c1 c2 w` with `c1 > c2` gives
/// none; an element left without what must follow it ends the array.
pub open spec fn w_runs(arena: Arena, w: Seq<Object>, i: int) -> Seq<(u32, u32, Option<NumberView>)>
    decreases w.len() - i,
{
    if i < 0 || i + 1 >= w.len() {
        Seq::empty()
    } else {
        let first = cid_at(arena, w[i]);
        match arena.spec_resolve(w[i + 1]) {
            Object::Array(ws) => one_each(arena, first, ws@) + w_runs(arena, w, i + 2),
            _ => if i + 2 >= w.len() {
                Seq::empty()
            } else {
                let last = cid_at(arena, w[i + 1]);
                (if first <= last {
                    seq![(first, last, spec_number(arena, w[i + 2]))]
                } else {
                    Seq::empty()
                }) + w_runs(arena, w, i + 3)
            },
        }
    }
}

/// The runs of a CIDFont's `/W`: none where it is absent or not an array.
pub open spec fn spec_w_entries(arena: Arena, dict: Dict) -> Seq<(u32, u32, Option<NumberView>)> {
    match dict.spec_get("W"@) {
        Some(o) => match arena.spec_resolve(o) {
            Object::Array(w) => w_runs(arena, w@, 0),
            _ => Seq::empty(),
        },
        None => Seq::empty(),
    }
}

/// A CIDFont's `/DW`, as a number.
pub open spec fn spec_dw(arena: Arena, dict: Dict) -> Option<NumberView> {
    match dict.spec_get("DW"@) {
        Some(o) => spec_number(arena, o),
        None => None,
    }
}

/// Reads a CIDFont's `/DW` and `/W` (9.7.4.3), keeping each width as written.
pub fn parse_cid_widths(dict: &Dict, arena: &Arena) -> (m: CidWidths)
    ensures
        opt_number(m.default) == spec_dw(*arena, *dict),
        runs_view(m.runs@) == spec_w_entries(*arena, *dict),
{
    let default = match dict.get("DW") {
        Some(o) => number(arena, o),
        None => None,
    };
    let mut runs: Vec<WidthRun> = Vec::new();
    let w: &Vec<Object> = match dict.get("W") {
        Some(o) => match arena.resolve(o) {
            Object::Array(w) => w,
            _ => {
                assert(runs_view(runs@) =~= Seq::<(u32, u32, Option<NumberView>)>::empty());
                return CidWidths { default, runs };
            },
        },
        None => {
            assert(runs_view(runs@) =~= Seq::<(u32, u32, Option<NumberView>)>::empty());
            return CidWidths { default, runs };
        },
    };
    let ghost whole = w_runs(*arena, w@, 0);
    let mut i: usize = 0;
    assert(runs_view(runs@) =~= Seq::<(u32, u32, Option<NumberView>)>::empty());
    while w.len() - i > 1
        invariant
            i <= w@.len(),
            whole == w_runs(*arena, w@, 0),
            whole == runs_view(runs@) + w_runs(*arena, w@, i as int),
        ensures
            whole == runs_view(runs@),
        decreases w@.len() - i,
    {
        let first: u32 = match arena.integer_of(&w[i]) {
            Some(v) => v as u32,
            None => 0,
        };
        assert(first == cid_at(*arena, w@[i as int]));
        match arena.resolve(&w[i + 1]) {
            Object::Array(ws) => {
                let ghost before = runs@;
                let mut k: usize = 0;
                while k < ws.len()
                    invariant
                        k <= ws@.len(),
                        runs_view(runs@) == runs_view(before) + one_each(*arena, first, ws@).take(k as int),
                    decreases ws@.len() - k,
                {
                    let c: u32 = (((first as u64) + ((k as u64) % 4294967296)) % 4294967296) as u32;
                    proof {
                        vstd::arithmetic::div_mod::lemma_add_mod_noop_right(first as int, k as int, 4294967296);
                    }
                    assert(c == ((first + k) % 0x1_0000_0000) as u32);
                    let width = number(arena, &ws[k]);
                    let ghost mid = runs@;
                    runs.push(WidthRun { first: c, last: c, width });
                    assert(runs_view(runs@) =~= runs_view(mid).push(run_view(runs@[mid.len() as int])));
                    assert(one_each(*arena, first, ws@).take(k + 1) =~= one_each(*arena, first, ws@).take(k as int).push(
                        one_each(*arena, first, ws@)[k as int],
                    ));
                    k = k + 1;
                }
                assert(one_each(*arena, first, ws@).take(ws@.len() as int) =~= one_each(*arena, first, ws@));
                assert(runs_view(before) + one_each(*arena, first, ws@) + w_runs(*arena, w@, i + 2) =~= runs_view(
                    before,
                ) + (one_each(*arena, first, ws@) + w_runs(*arena, w@, i + 2)));
                i = i + 2;
            },
            _ => {
                if w.len() - i <= 2 {
                    assert(w_runs(*arena, w@, i as int) =~= Seq::empty());
                    assert(runs_view(runs@) + Seq::<(u32, u32, Option<NumberView>)>::empty() =~= runs_view(runs@));
                    break;
                }
                let last: u32 = match arena.integer_of(&w[i + 1]) {
                    Some(v) => v as u32,
                    None => 0,
                };
                let ghost before = runs@;
                let ghost step: Seq<(u32, u32, Option<NumberView>)> = if first <= last {
                    seq![(first, last, spec_number(*arena, w@[i + 2]))]
                } else {
                    Seq::empty()
                };
                if first <= last {
                    let width = number(arena, &w[i + 2]);
                    runs.push(WidthRun { first, last, width });
                    assert(runs_view(runs@) =~= runs_view(before) + step);
                } else {
                    assert(runs_view(runs@) =~= runs_view(before) + step);
                }
                assert(runs_view(before) + step + w_runs(*arena, w@, i + 3) =~= runs_view(before) + (step + w_runs(
                    *arena,
                    w@,
                    i + 3,
                )));
                i = i + 3;
            },
        }
    }
    CidWidths { default, runs }
}

/// The width `/W` gives `cid`, among `runs`: that of the last run that covers it.
pub open spec fn width_in(runs: Seq<(u32, u32, Option<NumberView>)>, cid: u32) -> Option<Option<NumberView>>
    decreases runs.len(),
{
    if runs.len() == 0 {
        None
    } else if runs.last().0 <= cid <= runs.last().1 {
        Some(runs.last().2)
    } else {
        width_in(runs.drop_last(), cid)
    }
}

impl CidWidths {
    /// The width `/W` gives `cid`, as written: that of the last run covering it, or
    /// `None` where no run does and `/DW` answers.
    pub fn width_of(&self, cid: u32) -> (r: Option<&Option<Number>>)
        ensures
            match r {
                Some(w) => width_in(runs_view(self.runs@), cid) == Some(opt_number(*w)),
                None => width_in(runs_view(self.runs@), cid) is None,
            },
    {
        let mut i: usize = self.runs.len();
        assert(self.runs@.take(i as int) =~= self.runs@);
        while i > 0
            invariant
                i <= self.runs@.len(),
                width_in(runs_view(self.runs@), cid) == width_in(runs_view(self.runs@.take(i as int)), cid),
            decreases i,
        {
            let ghost prefix = self.runs@.take(i as int);
            assert(runs_view(prefix).drop_last() =~= runs_view(self.runs@.take(i - 1)));
            let run = &self.runs[i - 1];
            if run.first <= cid && cid <= run.last {
                return Some(&run.width);
            }
            i = i - 1;
        }
        None
    }

    /// `/DW`, or 1000 where it is absent or not a number (9.7.4.3).
    pub fn default_width(&self) -> (r: Number)
        ensures
            number_view(r) == spec_default_width(opt_number(self.default)),
    {
        match &self.default {
            Some(n) => copy_number(n),
            None => Number::Integer(1000),
        }
    }

    /// The width of `cid`: that of the last run of `/W` covering it (1000 where that run
    /// wrote no number), else `/DW`, else 1000.
    pub fn width_for(&self, cid: u32) -> (r: Number)
        ensures
            number_view(r) == spec_resolved_width(runs_view(self.runs@), opt_number(self.default), cid),
    {
        match self.width_of(cid) {
            Some(Some(n)) => copy_number(n),
            Some(None) => Number::Integer(1000),
            None => self.default_width(),
        }
    }
}

/// 1000, the width a CID is given where nothing else gives one.
pub open spec fn thousand() -> NumberView {
    (true, 1000, Seq::empty())
}

/// The width a font gives a CID that no run of `/W` covers.
pub open spec fn spec_default_width(default: Option<NumberView>) -> NumberView {
    match default {
        Some(n) => n,
        None => thousand(),
    }
}

/// The width of `cid`: the last run covering it, else the default.
pub open spec fn spec_resolved_width(
    runs: Seq<(u32, u32, Option<NumberView>)>,
    default: Option<NumberView>,
    cid: u32,
) -> NumberView {
    match width_in(runs, cid) {
        Some(Some(n)) => n,
        Some(None) => thousand(),
        None => spec_default_width(default),
    }
}

/// A run of `/W` written after the others decides the width of every CID it covers,
/// whatever the runs before it said; the CIDs it does not cover keep theirs.
pub proof fn law_later_run_wins(
    runs: Seq<(u32, u32, Option<NumberView>)>,
    run: (u32, u32, Option<NumberView>),
    default: Option<NumberView>,
    cid: u32,
)
    ensures
        run.0 <= cid <= run.1 ==> spec_resolved_width(runs.push(run), default, cid) == match run.2 {
            Some(n) => n,
            None => thousand(),
        },
        !(run.0 <= cid <= run.1) ==> spec_resolved_width(runs.push(run), default, cid) == spec_resolved_width(
            runs,
            default,
            cid,
        ),
{
    assert(runs.push(run).drop_last() =~= runs);
}

/// A copy of a number.
fn copy_number(n: &Number) -> (r: Number)
    ensures
        number_view(r) == number_view(*n),
{
    match n {
        Number::Integer(i) => Number::Integer(*i),
        Number::Real(s) => Number::Real(crate::error::text(s.as_str())),
    }
}

} // verus!

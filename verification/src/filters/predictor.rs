//! The predictors `/FlateDecode` and `/LZWDecode` undo after decompressing (7.4.4.4,
//! Table 8): the TIFF predictor 2, and the PNG predictors 10 to 15, where each row
//! carries its own filter type in a leading byte.

use crate::error::{concat, decimal, decimal_text, text};
use crate::filters::lzw::int_param;
use crate::filters::spec_param_int;
use crate::object::{opt_ref, Arena, Object};
use vstd::prelude::*;

verus! {

/// An integer of the parameters, or `default` where they do not give it.
pub open spec fn param_or(params: Option<Object>, arena: Arena, key: Seq<char>, default: i64) -> i64 {
    match spec_param_int(params, arena, key) {
        Some(v) => v,
        None => default,
    }
}

/// The Paeth predictor of a byte with `a` to its left, `b` above and `c` above-left
/// (PNG's filter type 4).
pub open spec fn paeth(a: int, b: int, c: int) -> int {
    let p = a + b - c;
    let pa = if p >= a { p - a } else { a - p };
    let pb = if p >= b { p - b } else { b - p };
    let pc = if p >= c { p - c } else { c - p };
    if pa <= pb && pa <= pc {
        a
    } else if pb <= pc {
        b
    } else {
        c
    }
}

/// What PNG's filter type `t` predicts from the byte to the left, above, and above-left.
pub open spec fn png_prediction(t: u8, left: u8, up: u8, up_left: u8) -> int {
    if t == 0 {
        0
    } else if t == 1 {
        left as int
    } else if t == 2 {
        up as int
    } else if t == 3 {
        (left + up) / 2
    } else {
        paeth(left as int, up as int, up_left as int)
    }
}

/// The first `n` bytes of a row written with filter type `t` and restored, given the
/// restored row above it and `bpp` bytes to a pixel. A byte with nothing to its left or
/// above is predicted from 0.
pub open spec fn png_row(t: u8, body: Seq<u8>, prev: Seq<u8>, bpp: int, n: int) -> Seq<u8>
    decreases n,
{
    if n <= 0 {
        Seq::empty()
    } else {
        let o = png_row(t, body, prev, bpp, n - 1);
        let i = n - 1;
        let left: u8 = if i >= bpp { o[i - bpp] } else { 0u8 };
        let up: u8 = if i < prev.len() { prev[i] } else { 0u8 };
        let up_left: u8 = if i >= bpp && i - bpp < prev.len() { prev[i - bpp] } else { 0u8 };
        o.push(((body[i] + png_prediction(t, left, up, up_left)) % 256) as u8)
    }
}

/// A restored row has as many bytes as were restored.
proof fn lemma_png_row_len(t: u8, body: Seq<u8>, prev: Seq<u8>, bpp: int, n: int)
    requires
        n >= 0,
    ensures
        png_row(t, body, prev, bpp, n).len() == n,
    decreases n,
{
    if n > 0 {
        lemma_png_row_len(t, body, prev, bpp, n - 1);
    }
}

/// Restoring more of a row leaves the bytes already restored as they were.
proof fn lemma_png_row_stable(t: u8, body: Seq<u8>, prev: Seq<u8>, bpp: int, n: int, i: int)
    requires
        0 <= i < n,
    ensures
        png_row(t, body, prev, bpp, n)[i] == png_row(t, body, prev, bpp, i + 1)[i],
    decreases n,
{
    lemma_png_row_len(t, body, prev, bpp, n - 1);
    if i < n - 1 {
        lemma_png_row_stable(t, body, prev, bpp, n - 1, i);
    }
}

/// A row restored with the Sub type (or the TIFF predictor, which is the same sum):
/// each byte is its written difference plus the byte one pixel, `bpp` bytes, to its
/// left, modulo 256.
#[verifier::rlimit(30)]
proof fn lemma_sub_row(body: Seq<u8>, bpp: int, n: int)
    requires
        0 <= n,
        bpp >= 1,
    ensures
        png_row(1, body, Seq::empty(), bpp, n).len() == n,
        forall|i: int|
            0 <= i < n ==> #[trigger] png_row(1, body, Seq::empty(), bpp, n)[i] as int == (body[i] + if i >= bpp {
                png_row(1, body, Seq::empty(), bpp, n)[i - bpp] as int
            } else {
                0int
            }) % 256,
{
    lemma_png_row_len(1, body, Seq::empty(), bpp, n);
    assert forall|i: int|
        0 <= i < n implies #[trigger] png_row(1, body, Seq::empty(), bpp, n)[i] as int == (body[i] + if i >= bpp {
            png_row(1, body, Seq::empty(), bpp, n)[i - bpp] as int
        } else {
            0int
        }) % 256 by {
        lemma_png_row_stable(1, body, Seq::empty(), bpp, n, i);
        lemma_png_row_len(1, body, Seq::empty(), bpp, i);
        if i >= bpp {
            lemma_png_row_stable(1, body, Seq::empty(), bpp, n, i - bpp);
            lemma_png_row_stable(1, body, Seq::empty(), bpp, i, i - bpp);
        }
    }
}

/// Under a PNG predictor with 8 bits to a component, a row written with the Sub type
/// is restored by adding to each byte the same component of the pixel to its left: the
/// byte `/Colors` bytes back, so that a pixel is as many bytes as it has colours.
#[verifier::rlimit(30)]
pub proof fn law_png_sub_adds_the_pixel_to_the_left(
    data: Seq<u8>,
    params: Option<Object>,
    arena: Arena,
    colors: int,
    columns: int,
)
    requires
        10 <= param_or(params, arena, "Predictor"@, 1) <= 15,
        param_or(params, arena, "BitsPerComponent"@, 8) == 8,
        param_or(params, arena, "Colors"@, 1) == colors,
        param_or(params, arena, "Columns"@, 1) == columns,
        1 <= colors <= 4096,
        1 <= columns <= u32::MAX,
        data.len() == 1 + colors * columns,
        data[0] == 1,
    ensures
        spec_unpredict(data, params, arena) matches Ok(out) && out.len() == colors * columns && forall|i: int|
            0 <= i < out.len() ==> #[trigger] out[i] as int == (data[i + 1] + if i >= colors {
                out[i - colors] as int
            } else {
                0int
            }) % 256,
{
    let rowlen = colors * columns;
    assert((colors * 8 * columns + 7) / 8 == rowlen) by (nonlinear_arith)
        requires
            rowlen == colors * columns,
    ;
    assert((colors * 8 + 7) / 8 == colors);
    let body = data.subrange(1, rowlen + 1);
    lemma_sub_row(body, colors, rowlen);
    let row = png_row(1, body, Seq::empty(), colors, rowlen);
    assert(data.skip(rowlen + 1) =~= Seq::<u8>::empty());
    assert(png_rows(data.skip(rowlen + 1), rowlen, colors, row) == Ok::<Seq<u8>, u8>(Seq::empty()));
    assert(row + Seq::<u8>::empty() =~= row);
    assert(png_rows(data, rowlen, colors, Seq::empty()) == Ok::<Seq<u8>, u8>(row));
    assert forall|i: int| 0 <= i < row.len() implies #[trigger] row[i] as int == (data[i + 1] + if i >= colors {
        row[i - colors] as int
    } else {
        0int
    }) % 256 by {
        assert(body[i] == data[i + 1]);
    }
}

/// Under the TIFF predictor with 8 bits to a component, each byte of a row is restored
/// by adding the same component of the pixel to its left, `/Colors` bytes back.
#[verifier::rlimit(30)]
pub proof fn law_tiff_adds_the_pixel_to_the_left(
    data: Seq<u8>,
    params: Option<Object>,
    arena: Arena,
    colors: int,
    columns: int,
)
    requires
        param_or(params, arena, "Predictor"@, 1) == 2,
        param_or(params, arena, "BitsPerComponent"@, 8) == 8,
        param_or(params, arena, "Colors"@, 1) == colors,
        param_or(params, arena, "Columns"@, 1) == columns,
        1 <= colors <= 4096,
        1 <= columns <= u32::MAX,
        data.len() == colors * columns,
    ensures
        spec_unpredict(data, params, arena) matches Ok(out) && out.len() == data.len() && forall|i: int|
            0 <= i < out.len() ==> #[trigger] out[i] as int == (data[i] + if i >= colors {
                out[i - colors] as int
            } else {
                0int
            }) % 256,
{
    let rowlen = colors * columns;
    assert((colors * 8 * columns + 7) / 8 == rowlen) by (nonlinear_arith)
        requires
            rowlen == colors * columns,
    ;
    assert(rowlen >= 1) by (nonlinear_arith)
        requires
            rowlen == colors * columns,
            colors >= 1,
            columns >= 1,
    ;
    assert(data.take(rowlen) =~= data);
    lemma_sub_row(data, colors, rowlen);
    let row = png_row(1, data, Seq::empty(), colors, rowlen);
    assert(data.skip(rowlen) =~= Seq::<u8>::empty());
    assert(tiff_rows(data.skip(rowlen), rowlen, colors) =~= Seq::<u8>::empty());
    assert(row + Seq::<u8>::empty() =~= row);
    assert(tiff_rows(data, rowlen, colors) == row);
}

/// Rows of `rowlen` bytes, each after its filter-type byte, restored in turn; the last
/// row may be short. A filter type above 4 is refused with that type.
pub open spec fn png_rows(data: Seq<u8>, rowlen: int, bpp: int, prev: Seq<u8>) -> Result<Seq<u8>, u8>
    decreases data.len(),
{
    if data.len() == 0 || rowlen < 1 {
        Ok(Seq::empty())
    } else {
        let t = data[0];
        if t > 4 {
            Err(t)
        } else {
            let end = if data.len() < rowlen + 1 { data.len() as int } else { rowlen + 1 };
            let body = data.subrange(1, end);
            let row = png_row(t, body, prev, bpp, body.len() as int);
            match png_rows(data.skip(end), rowlen, bpp, row) {
                Ok(rest) => Ok(row + rest),
                Err(b) => Err(b),
            }
        }
    }
}

/// Rows of `rowlen` bytes, each restored from its differences with the pixel to its
/// left (`colors` bytes back); the last row may be short.
pub open spec fn tiff_rows(data: Seq<u8>, rowlen: int, colors: int) -> Seq<u8>
    decreases data.len(),
{
    if data.len() == 0 || rowlen < 1 {
        Seq::empty()
    } else {
        let end = if data.len() < rowlen { data.len() as int } else { rowlen };
        png_row(1, data.take(end), Seq::empty(), colors, end) + tiff_rows(data.skip(end), rowlen, colors)
    }
}

/// Whether `/BitsPerComponent` is one Table 8 allows.
pub open spec fn bits_allowed(bpc: i64) -> bool {
    bpc == 1 || bpc == 2 || bpc == 4 || bpc == 8 || bpc == 16
}

/// What undoing the predictor the parameters name makes of `data`, or why it cannot be
/// undone.
pub open spec fn spec_unpredict(data: Seq<u8>, params: Option<Object>, arena: Arena) -> Result<Seq<u8>, Seq<char>> {
    let p = param_or(params, arena, "Predictor"@, 1);
    if p <= 1 {
        Ok(data)
    } else if p != 2 && !(10 <= p <= 15) {
        Err("/Predictor "@ + decimal(p as nat) + " is not defined"@)
    } else {
        let colors = param_or(params, arena, "Colors"@, 1);
        let bpc = param_or(params, arena, "BitsPerComponent"@, 8);
        let columns = param_or(params, arena, "Columns"@, 1);
        if !(1 <= colors <= 4096) || !bits_allowed(bpc) || !(1 <= columns <= u32::MAX) {
            Err("the predictor's /Colors, /BitsPerComponent or /Columns is out of range"@)
        } else {
            let rowlen = (colors * bpc * columns + 7) / 8;
            if p == 2 {
                if bpc != 8 {
                    Err("the TIFF predictor is undone for 8 bits per component only"@)
                } else {
                    Ok(tiff_rows(data, rowlen, colors as int))
                }
            } else {
                match png_rows(data, rowlen, (colors * bpc + 7) / 8, Seq::empty()) {
                    Ok(b) => Ok(b),
                    Err(t) => Err("PNG filter type "@ + decimal(t as nat) + " is not defined"@),
                }
            }
        }
    }
}

/// An integer of the parameters, or `default`.
fn param(params: Option<&Object>, arena: &Arena, key: &str, default: i64) -> (r: i64)
    ensures
        r == param_or(opt_ref(params), *arena, key@, default),
{
    match params {
        Some(p) => match int_param(p, arena, key) {
            Some(v) => v,
            None => default,
        },
        None => default,
    }
}

/// Restores the bytes `data[start..end]` of a row written with filter type `t`, given
/// the restored row above it.
fn unfilter_row(t: u8, data: &Vec<u8>, start: usize, end: usize, prev: &Vec<u8>, bpp: usize) -> (out: Vec<u8>)
    requires
        start <= end <= data@.len(),
        t <= 4,
        bpp >= 1,
    ensures
        out@ == png_row(t, data@.subrange(start as int, end as int), prev@, bpp as int, (end - start) as int),
{
    let ghost body = data@.subrange(start as int, end as int);
    let mut out: Vec<u8> = Vec::new();
    let mut i: usize = 0;
    while i < end - start
        invariant
            start <= end <= data@.len(),
            body == data@.subrange(start as int, end as int),
            i <= end - start,
            bpp >= 1,
            out@ == png_row(t, body, prev@, bpp as int, i as int),
        decreases end - start - i,
    {
        proof {
            lemma_png_row_len(t, body, prev@, bpp as int, i as int);
        }
        let left: u8 = if i >= bpp { out[i - bpp] } else { 0u8 };
        let up: u8 = if i < prev.len() { prev[i] } else { 0u8 };
        let up_left: u8 = if i >= bpp && i - bpp < prev.len() { prev[i - bpp] } else { 0u8 };
        let guess: u32 = if t == 0 {
            0
        } else if t == 1 {
            left as u32
        } else if t == 2 {
            up as u32
        } else if t == 3 {
            (left as u32 + up as u32) / 2
        } else {
            let a: i32 = left as i32;
            let b: i32 = up as i32;
            let c: i32 = up_left as i32;
            let p: i32 = a + b - c;
            let pa: i32 = if p >= a { p - a } else { a - p };
            let pb: i32 = if p >= b { p - b } else { b - p };
            let pc: i32 = if p >= c { p - c } else { c - p };
            if pa <= pb && pa <= pc {
                left as u32
            } else if pb <= pc {
                up as u32
            } else {
                up_left as u32
            }
        };
        assert(guess == png_prediction(t, left, up, up_left));
        let byte: u8 = ((data[start + i] as u32 + guess) % 256) as u8;
        assert(data@[start + i] == body[i as int]);
        out.push(byte);
        i = i + 1;
    }
    out
}

/// Undoes the predictor the parameters name (Table 8) on decompressed `data`.
pub fn unpredict(data: Vec<u8>, params: Option<&Object>, arena: &Arena) -> (r: Result<Vec<u8>, String>)
    ensures
        match spec_unpredict(data@, opt_ref(params), *arena) {
            Ok(b) => r matches Ok(v) && v@ == b,
            Err(m) => r matches Err(s) && s@ == m,
        },
{
    let p = param(params, arena, "Predictor", 1);
    if p <= 1 {
        return Ok(data);
    }
    if p != 2 && !(10 <= p && p <= 15) {
        return Err(concat(concat(text("/Predictor "), decimal_text(p as u64).as_str()), " is not defined"));
    }
    let colors = param(params, arena, "Colors", 1);
    let bpc = param(params, arena, "BitsPerComponent", 8);
    let columns = param(params, arena, "Columns", 1);
    if !(1 <= colors && colors <= 4096) || !(bpc == 1 || bpc == 2 || bpc == 4 || bpc == 8 || bpc == 16)
        || !(1 <= columns && columns <= 4294967295) {
        return Err(text("the predictor's /Colors, /BitsPerComponent or /Columns is out of range"));
    }
    assert(1 <= colors * bpc <= 65536) by (nonlinear_arith)
        requires
            1 <= colors <= 4096,
            1 <= bpc <= 16,
    ;
    assert(1 <= colors * bpc * columns <= 65536 * 4294967295) by (nonlinear_arith)
        requires
            1 <= colors * bpc <= 65536,
            1 <= columns <= 4294967295,
    ;
    let rowlen64: u64 = ((colors as u64) * (bpc as u64) * (columns as u64) + 7) / 8;
    assert(rowlen64 >= 1);
    if p == 2 {
        if bpc != 8 {
            return Err(text("the TIFF predictor is undone for 8 bits per component only"));
        }
        return Ok(tiff(&data, rowlen64, colors as usize));
    }
    let bpp: usize = (((colors * bpc) + 7) / 8) as usize;
    match png(&data, rowlen64, bpp) {
        Ok(v) => Ok(v),
        Err(t) => Err(concat(concat(text("PNG filter type "), decimal_text(t as u64).as_str()), " is not defined")),
    }
}

/// The end of the row that starts at `pos` and has `len` bytes, or the end of `data`.
fn row_end(total: usize, pos: usize, len: u64) -> (end: usize)
    requires
        pos <= total,
    ensures
        end == if total - pos < len { total as int } else { pos + len },
{
    if ((total - pos) as u64) < len {
        total
    } else {
        pos + (len as usize)
    }
}

/// Restores rows of `rowlen` bytes, each from its differences with the pixel `colors`
/// bytes to its left.
fn tiff(data: &Vec<u8>, rowlen: u64, colors: usize) -> (out: Vec<u8>)
    requires
        rowlen >= 1,
        colors >= 1,
    ensures
        out@ == tiff_rows(data@, rowlen as int, colors as int),
{
    let empty: Vec<u8> = Vec::new();
    let mut out: Vec<u8> = Vec::new();
    let mut pos: usize = 0;
    assert(data@.skip(0) =~= data@);
    while pos < data.len()
        invariant
            rowlen >= 1,
            colors >= 1,
            pos <= data@.len(),
            empty@ == Seq::<u8>::empty(),
            tiff_rows(data@, rowlen as int, colors as int) == out@ + tiff_rows(data@.skip(pos as int), rowlen as int, colors as int),
        decreases data@.len() - pos,
    {
        let end = row_end(data.len(), pos, rowlen);
        let ghost rest = data@.skip(pos as int);
        let row = unfilter_row(1, data, pos, end, &empty, colors);
        proof {
            let e = (end - pos) as int;
            assert(rest.take(e) =~= data@.subrange(pos as int, end as int));
            assert(rest.skip(e) =~= data@.skip(end as int));
        }
        let ghost before = out@;
        let ghost rv = row@;
        let mut row = row;
        out.append(&mut row);
        assert(tiff_rows(rest, rowlen as int, colors as int) == rv + tiff_rows(data@.skip(end as int), rowlen as int, colors as int));
        assert(before + (rv + tiff_rows(data@.skip(end as int), rowlen as int, colors as int)) =~= out@ + tiff_rows(data@.skip(end as int), rowlen as int, colors as int));
        pos = end;
    }
    assert(data@.skip(pos as int) =~= Seq::<u8>::empty());
    assert(out@ + Seq::<u8>::empty() =~= out@);
    out
}

/// Restores rows of `rowlen` bytes, each after its PNG filter-type byte; a filter type
/// above 4 is answered with that type.
fn png(data: &Vec<u8>, rowlen: u64, bpp: usize) -> (r: Result<Vec<u8>, u8>)
    requires
        rowlen >= 1,
        rowlen < u64::MAX,
        bpp >= 1,
    ensures
        match png_rows(data@, rowlen as int, bpp as int, Seq::empty()) {
            Ok(b) => r matches Ok(v) && v@ == b,
            Err(t) => r == Err::<Vec<u8>, u8>(t),
        },
{
    let mut prev: Vec<u8> = Vec::new();
    let mut out: Vec<u8> = Vec::new();
    let mut pos: usize = 0;
    assert(data@.skip(0) =~= data@);
    while pos < data.len()
        invariant
            1 <= rowlen < u64::MAX,
            bpp >= 1,
            pos <= data@.len(),
            png_rows(data@, rowlen as int, bpp as int, Seq::empty()) == match png_rows(
                data@.skip(pos as int),
                rowlen as int,
                bpp as int,
                prev@,
            ) {
                Ok(rest) => Ok(out@ + rest),
                Err(b) => Err(b),
            },
        decreases data@.len() - pos,
    {
        let ghost rest = data@.skip(pos as int);
        let t = data[pos];
        assert(rest[0] == t);
        if t > 4 {
            return Err(t);
        }
        let end = row_end(data.len(), pos, rowlen + 1);
        let row = unfilter_row(t, data, pos + 1, end, &prev, bpp);
        proof {
            let e = (end - pos) as int;
            assert(rest.subrange(1, e) =~= data@.subrange(pos + 1, end as int));
            assert(rest.skip(e) =~= data@.skip(end as int));
        }
        let ghost before = out@;
        let mut copy = copy_row(&row);
        out.append(&mut copy);
        proof {
            match png_rows(data@.skip(end as int), rowlen as int, bpp as int, row@) {
                Ok(r2) => assert(before + (row@ + r2) =~= out@ + r2),
                Err(_) => {},
            }
        }
        prev = row;
        pos = end;
    }
    assert(data@.skip(pos as int) =~= Seq::<u8>::empty());
    assert(out@ + Seq::<u8>::empty() =~= out@);
    Ok(out)
}

/// A copy of a row.
fn copy_row(v: &Vec<u8>) -> (r: Vec<u8>)
    ensures
        r@ == v@,
{
    let mut r: Vec<u8> = Vec::new();
    let mut i: usize = 0;
    while i < v.len()
        invariant
            i <= v@.len(),
            r@ == v@.take(i as int),
        decreases v@.len() - i,
    {
        r.push(v[i]);
        assert(v@.take(i + 1) =~= v@.take(i as int).push(v@[i as int]));
        i = i + 1;
    }
    assert(v@.take(v@.len() as int) =~= v@);
    r
}

} // verus!

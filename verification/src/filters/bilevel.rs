//! Packing one-bit samples the way PDF lays image data out.
//!
//! Both bilevel codecs — `/CCITTFaxDecode` and `/JBIG2Decode` — hand their output back a
//! pixel or a byte at a time, and both need it packed the same way: **one bit per pixel,
//! most significant bit first, each row starting on a byte boundary** (8.9.5.1). A
//! 1,728-column fax is 216 bytes a row exactly; a 1,729-column one is 217, with seven
//! bits of padding that belong to no pixel.
//!
//! **White is a 1 bit and black is a 0**, which is what an image dictionary declaring
//! `/DeviceGray` and one bit per component means.

use vstd::prelude::*;

verus! {

/// The value of the bit for pixel `j` of a byte: `0x80 >> j` when the pixel is white.
pub open spec fn pixel_bit(p: Seq<bool>, pos: int, j: int) -> u8 {
    if 0 <= pos < p.len() && p[pos] {
        0x80u8 >> (j as u8)
    } else {
        0u8
    }
}

/// The byte holding pixels `base .. base + n` of a row, most significant bit first; a
/// pixel past the end of the row is a 0 bit of padding.
pub open spec fn row_byte(p: Seq<bool>, base: int, n: int) -> u8
    decreases n,
{
    if n <= 0 {
        0u8
    } else {
        row_byte(p, base, n - 1) | pixel_bit(p, base + n - 1, n - 1)
    }
}

/// One row, packed: eight pixels to a byte, padded to a byte boundary.
pub open spec fn pack_row(p: Seq<bool>) -> Seq<u8> {
    Seq::new(((p.len() + 7) / 8) as nat, |k: int| row_byte(p, 8 * k, 8))
}

/// Rows, packed one after another, each starting on a byte boundary.
pub open spec fn pack_rows(rows: Seq<Seq<bool>>) -> Seq<u8>
    decreases rows.len(),
{
    if rows.len() == 0 {
        Seq::<u8>::empty()
    } else {
        pack_rows(rows.drop_last()) + pack_row(rows.last())
    }
}

/// `n` pixels of one colour.
pub open spec fn run(white: bool, n: nat) -> Seq<bool> {
    Seq::new(n, |_i: int| white)
}

/// `cur` after `n` pixels of one colour were pushed one at a time.
pub open spec fn pushed_one_at_a_time(cur: Seq<bool>, white: bool, n: nat) -> Seq<bool>
    decreases n,
{
    if n == 0 {
        cur
    } else {
        pushed_one_at_a_time(cur, white, (n - 1) as nat).push(white)
    }
}


/// How many of the first `n` change positions are at or before pixel `x`.
pub open spec fn changes_upto(changes: Seq<u32>, n: int, x: int) -> nat
    decreases n,
{
    if n <= 0 {
        0
    } else {
        changes_upto(changes, n - 1, x) + if changes[n - 1] as int <= x { 1nat } else { 0nat }
    }
}

/// A row given as the positions where its colour changes: it starts white, and each
/// position flips it, so a pixel is black when an odd number of changes are at or before
/// it. Stored as a 1 bit when white, or, with `black_is_one`, when black.
pub open spec fn row_of_changes(changes: Seq<u32>, columns: nat, black_is_one: bool) -> Seq<bool> {
    Seq::new(
        columns,
        |x: int|
            {
                let black = changes_upto(changes, changes.len() as int, x) % 2 == 1;
                if black_is_one {
                    black
                } else {
                    !black
                }
            },
    )
}

/// With the changes in ascending order, those at or before `x` are a prefix.
proof fn lemma_changes_prefix(changes: Seq<u32>, n: int, x: int, idx: int)
    requires
        0 <= idx <= changes.len(),
        0 <= n <= changes.len(),
        forall|i: int| 0 <= i < idx ==> changes[i] as int <= x,
        forall|i: int| idx <= i < changes.len() ==> changes[i] as int > x,
    ensures
        changes_upto(changes, n, x) == if n <= idx { n } else { idx },
    decreases n,
{
    if n > 0 {
        lemma_changes_prefix(changes, n - 1, x, idx);
    }
}

/// A bilevel page, packed as PDF lays image samples out.
pub struct Bitmap {
    data: Vec<u8>,
    /// How many pixels of the current row have been written.
    x: u32,
    /// Completed rows, which is what an error message needs to be diagnosable.
    rows_done: u32,
    done: Ghost<Seq<Seq<bool>>>,
    current: Ghost<Seq<bool>>,
}

proof fn lemma_or_zero(v: u8)
    ensures
        v | 0u8 == v,
        0u8 | v == v,
{
    assert(v | 0u8 == v) by (bit_vector);
    assert(0u8 | v == v) by (bit_vector);
}

/// Pixels past the end of the row add nothing to a byte.
proof fn lemma_row_byte_tail(p: Seq<bool>, base: int, m: int, n: int)
    requires
        0 <= m <= n,
        base + m >= p.len(),
    ensures
        row_byte(p, base, n) == row_byte(p, base, m),
    decreases n - m,
{
    if n > m {
        lemma_row_byte_tail(p, base, m, n - 1);
        lemma_or_zero(row_byte(p, base, n - 1));
    }
}

/// A byte depends only on the pixels it covers.
proof fn lemma_row_byte_same(p: Seq<bool>, q: Seq<bool>, base: int, n: int)
    requires
        0 <= base,
        (p.len() >= base + n && q.len() >= base + n) || p.len() == q.len(),
        forall|i: int| base <= i < base + n && i < p.len() ==> p[i] == q[i],
    ensures
        row_byte(p, base, n) == row_byte(q, base, n),
    decreases n,
{
    if n > 0 {
        lemma_row_byte_same(p, q, base, n - 1);
        assert(pixel_bit(p, base + n - 1, n - 1) == pixel_bit(q, base + n - 1, n - 1));
    }
}

/// Eight pixels of one colour are the byte of that colour.
proof fn lemma_row_byte_full(p: Seq<bool>, base: int, white: bool)
    requires
        0 <= base,
        base + 8 <= p.len(),
        forall|j: int| 0 <= j < 8 ==> #[trigger] p[base + j] == white,
    ensures
        row_byte(p, base, 8) == (if white {
            0xFFu8
        } else {
            0u8
        }),
{
    reveal_with_fuel(row_byte, 9);
    assert(p[base + 0] == white);
    assert(p[base + 1] == white);
    assert(p[base + 2] == white);
    assert(p[base + 3] == white);
    assert(p[base + 4] == white);
    assert(p[base + 5] == white);
    assert(p[base + 6] == white);
    assert(p[base + 7] == white);
    if white {
        assert(((((((((0u8 | (0x80u8 >> 0u8)) | (0x80u8 >> 1u8)) | (0x80u8 >> 2u8)) | (0x80u8
            >> 3u8)) | (0x80u8 >> 4u8)) | (0x80u8 >> 5u8)) | (0x80u8 >> 6u8)) | (0x80u8 >> 7u8))
            == 0xFFu8) by (bit_vector);
    } else {
        assert(((((((((0u8 | 0u8) | 0u8) | 0u8) | 0u8) | 0u8) | 0u8) | 0u8) | 0u8) == 0u8)
            by (bit_vector);
    }
}

/// Pushing one pixel changes only the last byte of the row, or adds one.
proof fn lemma_pack_push(p: Seq<bool>, white: bool)
    ensures
        p.len() % 8 == 0 ==> pack_row(p.push(white)) == pack_row(p).push(pixel_bit(p.push(white), p.len() as int, 0)),
        p.len() % 8 != 0 ==> pack_row(p.push(white)) == pack_row(p).update(
            pack_row(p).len() - 1,
            pack_row(p).last() | pixel_bit(p.push(white), p.len() as int, (p.len() % 8) as int),
        ),
{
    let q = p.push(white);
    let r: int = (p.len() % 8) as int;
    let k: int = (p.len() / 8) as int;
    assert forall|i: int| 0 <= i < k implies #[trigger] pack_row(q)[i] == pack_row(p)[i] by {
        lemma_row_byte_same(p, q, 8 * i, 8);
    }
    if r == 0 {
        lemma_row_byte_tail(q, 8 * k, 1, 8);
        lemma_or_zero(pixel_bit(q, p.len() as int, 0));
        assert(row_byte(q, 8 * k, 0) == 0u8);
        assert(pack_row(q) =~= pack_row(p).push(pixel_bit(q, p.len() as int, 0)));
    } else {
        lemma_row_byte_tail(q, 8 * k, r + 1, 8);
        lemma_row_byte_tail(p, 8 * k, r, 8);
        lemma_row_byte_same(p, q, 8 * k, r);
        assert(pack_row(q) =~= pack_row(p).update(
            pack_row(p).len() - 1,
            pack_row(p).last() | pixel_bit(q, p.len() as int, r),
        ));
    }
}

/// A run of whole bytes appends those bytes.
proof fn lemma_pack_run(p: Seq<bool>, white: bool, count: nat)
    requires
        p.len() % 8 == 0,
    ensures
        pack_row(p + run(white, 8 * count)) == pack_row(p) + Seq::new(
            count,
            |_i: int|
                if white {
                    0xFFu8
                } else {
                    0u8
                },
        ),
{
    let q = p + run(white, 8 * count);
    let k: int = (p.len() / 8) as int;
    let bytes = Seq::new(count, |_i: int| if white { 0xFFu8 } else { 0u8 });
    assert forall|i: int| 0 <= i < pack_row(q).len() implies pack_row(q)[i] == (pack_row(p)
        + bytes)[i] by {
        if i < k {
            lemma_row_byte_same(p, q, 8 * i, 8);
        } else {
            assert forall|j: int| 0 <= j < 8 implies #[trigger] q[8 * i + j] == white by {
                assert(q[8 * i + j] == run(white, 8 * count)[8 * i + j - p.len()]);
            }
            lemma_row_byte_full(q, 8 * i, white);
        }
    }
    assert(pack_row(q) =~= pack_row(p) + bytes);
}

/// **Law**: a run of whole bytes of one colour leaves a row exactly as that many pixels
/// pushed one at a time would.
pub proof fn law_run_is_pixels(cur: Seq<bool>, white: bool, n: nat)
    ensures
        cur + run(white, n) == pushed_one_at_a_time(cur, white, n),
    decreases n,
{
    if n == 0 {
        assert(cur + run(white, 0) =~= cur);
    } else {
        law_run_is_pixels(cur, white, (n - 1) as nat);
        assert(cur + run(white, n) =~= (cur + run(white, (n - 1) as nat)).push(white));
    }
}

impl Bitmap {
    /// The rows completed so far.
    pub closed spec fn rows(&self) -> Seq<Seq<bool>> {
        self.done@
    }

    /// The pixels of the row in progress.
    pub closed spec fn row(&self) -> Seq<bool> {
        self.current@
    }

    /// Whether the packed bytes are the rows so far, then the row in progress.
    pub closed spec fn wf(&self) -> bool {
        &&& self.data@ == pack_rows(self.done@) + pack_row(self.current@)
        &&& self.x as int == self.current@.len()
        &&& self.rows_done as int == self.done@.len()
    }

    /// Room for `columns × rows`, which is a hint and not a limit — a codestream that
    /// disagrees with the dictionary still writes what it has.
    pub fn new(columns: u32, rows: u32) -> (b: Self)
        ensures
            b.wf(),
            b.rows() == Seq::<Seq<bool>>::empty(),
            b.row() == Seq::<bool>::empty(),
    {
        let _ = (columns, rows);
        let b = Bitmap {
            data: Vec::new(),
            x: 0,
            rows_done: 0,
            done: Ghost(Seq::empty()),
            current: Ghost(Seq::empty()),
        };
        assert(pack_row(Seq::<bool>::empty()) =~= Seq::<u8>::empty());
        assert(b.data@ =~= pack_rows(b.done@) + pack_row(b.current@));
        b
    }

    /// One pixel.
    pub fn push(&mut self, white: bool)
        requires
            old(self).wf(),
            old(self).row().len() < u32::MAX,
        ensures
            final(self).wf(),
            final(self).rows() == old(self).rows(),
            final(self).row() == old(self).row().push(white),
    {
        let ghost p = self.current@;
        let ghost head = pack_rows(self.done@);
        proof {
            lemma_pack_push(p, white);
        }
        let bit = self.x % 8;
        if bit == 0 {
            self.data.push(0);
        }
        if white {
            let n = self.data.len();
            let last = self.data[n - 1];
            let b8 = bit as u8;
            let v = last | (0x80u8 >> b8);
            self.data.set(n - 1, v);
        }
        self.x = self.x + 1;
        proof {
            self.current = Ghost(p.push(white));
            let q = p.push(white);
            assert(pixel_bit(q, p.len() as int, (p.len() % 8) as int) == if white {
                0x80u8 >> ((p.len() % 8) as u8)
            } else {
                0u8
            });
            if bit == 0 {
                lemma_or_zero(0x80u8 >> 0u8);
                assert(self.data@ =~= head + pack_row(q));
            } else {
                lemma_or_zero(pack_row(p).last());
                assert(self.data@ =~= head + pack_row(q));
            }
        }
    }

    /// Whole bytes of one colour, which both codecs offer for runs and neither offers off
    /// a byte boundary.
    pub fn push_bytes(&mut self, white: bool, count: u32)
        requires
            old(self).wf(),
            old(self).row().len() % 8 == 0,
            old(self).row().len() + 8 * count <= u32::MAX,
        ensures
            final(self).wf(),
            final(self).rows() == old(self).rows(),
            final(self).row() == old(self).row() + run(white, (8 * count) as nat),
    {
        let ghost p = self.current@;
        let ghost before = self.data@;
        let byte: u8 = if white {
            0xFF
        } else {
            0x00
        };
        let mut i: u32 = 0;
        while i < count
            invariant
                i <= count,
                self.data@ == before + Seq::new(i as nat, |_j: int| byte),
                self.x == old(self).x,
                self.current == old(self).current,
                self.done == old(self).done,
                self.rows_done == old(self).rows_done,
            decreases count - i,
        {
            self.data.push(byte);
            assert(Seq::new((i + 1) as nat, |_j: int| byte) =~= Seq::new(i as nat, |_j: int| byte).push(byte));
            i = i + 1;
        }
        self.x = self.x + count * 8;
        proof {
            lemma_pack_run(p, white, count as nat);
            self.current = Ghost(p + run(white, (8 * count) as nat));
            assert(Seq::new(count as nat, |_j: int| byte) =~= Seq::new(
                count as nat,
                |_i: int|
                    if white {
                        0xFFu8
                    } else {
                        0u8
                    },
            ));
            assert(self.data@ =~= pack_rows(self.done@) + pack_row(self.current@));
        }
    }

    /// Completes the current row, so the next one starts on a byte boundary.
    pub fn next_line(&mut self)
        requires
            old(self).wf(),
            old(self).rows().len() < u32::MAX,
        ensures
            final(self).wf(),
            final(self).rows() == old(self).rows().push(old(self).row()),
            final(self).row() == Seq::<bool>::empty(),
    {
        self.rows_done = self.rows_done + 1;
        self.x = 0;
        proof {
            let rows = self.done@.push(self.current@);
            assert(rows.drop_last() =~= self.done@);
            self.done = Ghost(rows);
            self.current = Ghost(Seq::empty());
            assert(pack_row(Seq::<bool>::empty()) =~= Seq::<u8>::empty());
            assert(self.data@ =~= pack_rows(self.done@) + pack_row(self.current@));
        }
    }

    /// One row, given as the ascending positions where its colour changes, as a codec
    /// that reports runs hands it over.
    pub fn push_changes(&mut self, changes: &[u32], columns: u32, black_is_one: bool)
        requires
            old(self).wf(),
            old(self).row().len() == 0,
            columns < u32::MAX,
            old(self).rows().len() < u32::MAX,
            forall|i: int, j: int| 0 <= i < j < changes@.len() ==> changes@[i] < changes@[j],
        ensures
            final(self).wf(),
            final(self).rows() == old(self).rows().push(row_of_changes(changes@, columns as nat, black_is_one)),
            final(self).row() == Seq::<bool>::empty(),
    {
        let ghost target = row_of_changes(changes@, columns as nat, black_is_one);
        let mut idx: usize = 0;
        let mut x: u32 = 0;
        while x < columns
            invariant
                self.wf(),
                x <= columns < u32::MAX,
                idx <= changes@.len(),
                self.rows() == old(self).rows(),
                self.row() == target.take(x as int),
                target == row_of_changes(changes@, columns as nat, black_is_one),
                forall|i: int, j: int| 0 <= i < j < changes@.len() ==> changes@[i] < changes@[j],
                forall|i: int| 0 <= i < idx ==> (changes@[i] as int) < x,
                forall|i: int| idx <= i < changes@.len() ==> changes@[i] as int >= x,
            decreases columns - x,
        {
            while idx < changes.len() && changes[idx] <= x
                invariant
                    idx <= changes@.len(),
                    forall|i: int, j: int| 0 <= i < j < changes@.len() ==> changes@[i] < changes@[j],
                    forall|i: int| 0 <= i < idx ==> changes@[i] as int <= x,
                    forall|i: int| idx <= i < changes@.len() ==> changes@[i] as int >= x,
                decreases changes@.len() - idx,
            {
                idx = idx + 1;
            }
            proof {
                assert forall|i: int| idx <= i < changes@.len() implies changes@[i] as int > x by {
                    if changes@[i] as int == x {
                        assert(changes@[idx as int] <= x);
                        if i > idx {
                            assert(changes@[idx as int] < changes@[i]);
                        }
                    }
                }
                lemma_changes_prefix(changes@, changes@.len() as int, x as int, idx as int);
            }
            let black = idx % 2 == 1;
            let bit = if black_is_one {
                black
            } else {
                !black
            };
            self.push(bit);
            assert(target.take(x + 1) =~= target.take(x as int).push(bit));
            x = x + 1;
        }
        assert(target.take(x as int) =~= target);
        self.next_line();
    }

    /// How many rows are complete.
    pub fn rows_done(&self) -> (n: u32)
        requires
            self.wf(),
        ensures
            n as int == self.rows().len(),
    {
        self.rows_done
    }

    /// The page, with the last row completed.
    pub fn finish(self) -> (out: Vec<u8>)
        requires
            self.wf(),
        ensures
            out@ == pack_rows(self.rows().push(self.row())),
    {
        proof {
            let rows = self.done@.push(self.current@);
            assert(rows.drop_last() =~= self.done@);
        }
        self.data
    }
}

} // verus!

//! Picking rows: new columns out of runs of rows of others.

use vstd::prelude::*;
use vstd::slice::slice_subrange;
use crate::bitmap;
use crate::bitmap::Bitmap;
use crate::buffer;
use crate::buffer::Buffer;
use crate::column;
use crate::column::{Column, DictBuffers};
use crate::dataview;
use crate::dataview::Data;
use crate::error::FormatError;
use crate::le;
use crate::schema;
use crate::table::TableError;
use crate::types::DataType;

verus! {

/// A run of rows: the first, and how many.
pub type RowSpan = (usize, usize);

/// The rows of runs, one after the other.
pub open spec fn picked(runs: Seq<RowSpan>) -> Seq<int>
    decreases runs.len(),
{
    if runs.len() == 0 {
        Seq::empty()
    } else {
        picked(runs.drop_last()) + Seq::new(
            runs.last().1 as nat,
            |i: int| runs.last().0 + i,
        )
    }
}

/// The runs lie within the first `rows` rows.
pub open spec fn runs_within(runs: Seq<RowSpan>, rows: int) -> bool {
    forall|k: int| 0 <= k < runs.len() ==> (#[trigger] runs[k]).0 + runs[k].1 <= rows
}

/// The rows of the runs before run `k` come first.
pub proof fn lemma_picked_step(runs: Seq<RowSpan>, k: int)
    requires
        0 <= k < runs.len(),
    ensures
        picked(runs.take(k + 1)) == picked(runs.take(k)) + Seq::new(
            runs[k].1 as nat,
            |i: int| runs[k].0 + i,
        ),
        picked(runs.take(0)).len() == 0,
{
    assert(runs.take(k + 1).drop_last() =~= runs.take(k));
    assert(runs.take(k + 1).last() == runs[k]);
    assert(picked(runs.take(k + 1)) =~= picked(runs.take(k)) + Seq::new(
        runs[k].1 as nat,
        |i: int| runs[k].0 + i,
    ));
}

proof fn lemma_picked_prefix(runs: Seq<RowSpan>, k: int)
    requires
        0 <= k <= runs.len(),
    ensures
        picked(runs.take(k)).len() <= picked(runs).len(),
    decreases runs.len() - k,
{
    if k < runs.len() {
        lemma_picked_step(runs, k);
        lemma_picked_prefix(runs, k + 1);
    } else {
        assert(runs.take(k) =~= runs);
    }
}

/// No run has no rows.
pub proof fn lemma_picked_zero(runs: Seq<RowSpan>)
    ensures
        picked(runs.take(0)).len() == 0,
{
    assert(runs.take(0).len() == 0);
}

/// Picked rows are rows of the table.
proof fn lemma_picked_within(runs: Seq<RowSpan>, rows: int, r: int)
    requires
        runs_within(runs, rows),
        0 <= r < picked(runs).len(),
    ensures
        0 <= picked(runs)[r] < rows,
    decreases runs.len(),
{
    let front = runs.drop_last();
    assert forall|k: int| 0 <= k < front.len() implies (#[trigger] front[k]).0 + front[k].1
        <= rows by {
        assert(front[k] == runs[k]);
    }
    if r < picked(front).len() {
        lemma_picked_within(front, rows, r);
    } else {
        assert(runs[runs.len() - 1] == runs.last());
    }
}

/// How many rows runs have.
pub(crate) fn count_rows(runs: &[RowSpan]) -> (total: usize)
    requires
        picked(runs@).len() <= usize::MAX,
    ensures
        total == picked(runs@).len(),
{
    let mut total: usize = 0;
    let mut k: usize = 0;
    assert(runs@.take(0).len() == 0);
    while k < runs.len()
        invariant
            k <= runs@.len(),
            picked(runs@).len() <= usize::MAX,
            total == picked(runs@.take(k as int)).len(),
        decreases runs.len() - k,
    {
        proof {
            lemma_picked_step(runs@, k as int);
            lemma_picked_prefix(runs@, k + 1);
        }
        total = total + runs[k].1;
        k += 1;
    }
    assert(runs@.take(k as int) =~= runs@);
    total
}

/// Each picked row, `width` bytes of it, is found in its place.
pub open spec fn rows_gathered(out: Seq<u8>, src: Seq<u8>, rows: Seq<int>, width: nat) -> bool {
    &&& out.len() == rows.len() * width
    &&& forall|r: int|
        0 <= r < rows.len() ==> #[trigger] buffer::group(out, r, width) == buffer::group(
            src,
            rows[r],
            width,
        )
}

/// Copies the rows of runs, run by run.
fn gather_bytes(src: &[u8], runs: &[RowSpan], width: usize) -> (out: Vec<u8>)
    requires
        forall|k: int|
            0 <= k < runs@.len() ==> ((#[trigger] runs@[k]).0 + runs@[k].1) * width <= src@.len(),
    ensures
        rows_gathered(out@, src@, picked(runs@), width as nat),
{
    let mut out: Vec<u8> = Vec::new();
    let mut k: usize = 0;
    assert(runs@.take(0).len() == 0);
    while k < runs.len()
        invariant
            k <= runs@.len(),
            forall|k: int|
                0 <= k < runs@.len() ==> ((#[trigger] runs@[k]).0 + runs@[k].1) * width
                    <= src@.len(),
            rows_gathered(out@, src@, picked(runs@.take(k as int)), width as nat),
        decreases runs.len() - k,
    {
        let (start, len) = runs[k];
        assert(src@.len() == src.len());
        let ghost before = out@;
        let ghost done = picked(runs@.take(k as int));
        let ghost w = width as nat;
        proof {
            lemma_scaled(start as int, len as int, w as int);
        }
        let part = if width == 0 {
            assert((start + len) * w == 0 && start * w == 0) by (nonlinear_arith)
                requires
                    w == 0,
            ;
            slice_subrange(src, 0, 0)
        } else {
            proof {
                lemma_factor_bound(start as int, len as int, w as int, src@.len() as int);
            }
            slice_subrange(src, start * width, start * width + len * width)
        };
        assert(part@ =~= src@.subrange(start * w, (start + len) * w));
        out.extend_from_slice(part);
        proof {
            lemma_picked_step(runs@, k as int);
            let rows = picked(runs@.take(k + 1));
            lemma_scaled(done.len() as int, len as int, w as int);
            assert forall|r: int| 0 <= r < rows.len() implies #[trigger] buffer::group(out@, r, w)
                == buffer::group(src@, rows[r], w) by {
                lemma_scaled(r, 1, w as int);
                lemma_scaled_order(r + 1, rows.len() as int, w as int);
                if r < done.len() {
                    lemma_scaled_order(r + 1, done.len() as int, w as int);
                    assert(buffer::group(out@, r, w) =~= buffer::group(before, r, w));
                } else {
                    let i = r - done.len();
                    lemma_scaled(done.len() as int, i, w as int);
                    lemma_scaled(start as int, i, w as int);
                    lemma_scaled(i, 1, w as int);
                    lemma_scaled(start + i, 1, w as int);
                    lemma_scaled_order(i + 1, len as int, w as int);
                    assert(buffer::group(out@, r, w) =~= part@.subrange(i * w, i * w + w));
                    assert(part@.subrange(i * w, i * w + w) =~= buffer::group(src@, start + i, w));
                }
            }
        }
        k += 1;
    }
    assert(runs@.take(k as int) =~= runs@);
    out
}

proof fn lemma_scaled(a: int, b: int, w: int)
    by (nonlinear_arith)
    requires
        0 <= a,
        0 <= b,
        0 <= w,
    ensures
        (a + b) * w == a * w + b * w,
        0 <= a * w,
        0 <= b * w,
{
}

proof fn lemma_scaled_order(a: int, b: int, w: int)
    by (nonlinear_arith)
    requires
        0 <= a <= b,
        0 <= w,
    ensures
        a * w <= b * w,
{
}

proof fn lemma_factor_bound(a: int, b: int, w: int, total: int)
    by (nonlinear_arith)
    requires
        0 <= a,
        0 <= b,
        1 <= w,
        (a + b) * w <= total,
    ensures
        a * w <= total,
        b * w <= total,
        a * w + b * w <= total,
{
}

/// The picked bits of a bitmap; none where all of them are set.
pub open spec fn validity_gathered(
    out: Option<Bitmap>,
    src: Option<Bitmap>,
    rows: Seq<int>,
) -> bool {
    match src {
        None => out is None,
        Some(v) => {
            let all = forall|r: int| 0 <= r < rows.len() ==> v@[#[trigger] rows[r]];
            if all {
                out is None
            } else {
                out matches Some(w) && w.wf() && w@ == Seq::new(
                    rows.len(),
                    |r: int| v@[rows[r]],
                )
            }
        },
    }
}

/// Run `k` is the first that goes beyond so many rows.
pub open spec fn first_beyond(runs: Seq<RowSpan>, rows: int, k: int) -> bool {
    &&& 0 <= k < runs.len()
    &&& runs[k].0 + runs[k].1 > rows
    &&& forall|j: int| 0 <= j < k ==> (#[trigger] runs[j]).0 + runs[j].1 <= rows
}

/// The bitmap ends before rows of the runs, and this is said of it.
pub open spec fn uncovered(
    validity: Option<Bitmap>,
    runs: Seq<RowSpan>,
    message: Seq<char>,
) -> bool {
    validity matches Some(v) && exists|k: int| #[trigger]
        first_beyond(runs, v@.len() as int, k) && message == bitmap::slice_message(
            v@.len(),
            runs[k].0 as int,
            runs[k].1 as int,
        )
}

/// Copies the validity of the rows of runs.
pub fn gather_validity(validity: &Option<Bitmap>, runs: &[RowSpan], total: usize) -> (r: Result<
    Option<Bitmap>,
    TableError,
>)
    requires
        validity matches Some(v) ==> v.wf(),
        total == picked(runs@).len(),
        runs_within(runs@, usize::MAX as int),
    ensures
        match r {
            Ok(out) => {
                &&& validity matches Some(v) ==> runs_within(runs@, v@.len() as int)
                &&& validity_gathered(out, *validity, picked(runs@))
            },
            Err(TableError::Format(FormatError::InvalidLayout(m))) => uncovered(
                *validity,
                runs@,
                m@,
            ),
            Err(_) => false,
        },
{
    let src = match validity {
        Some(v) => v,
        None => {
            return Ok(None);
        },
    };
    let view = src.as_view();
    let mut dst = Bitmap::zeros(total);
    let mut out: usize = 0;
    let mut k: usize = 0;
    assert(runs@.take(0).len() == 0);
    while k < runs.len()
        invariant
            k <= runs@.len(),
            *validity == Some(*src),
            src.wf(),
            view@ == src@,
            dst.wf(),
            dst@.len() == total,
            total == picked(runs@).len(),
            runs_within(runs@, usize::MAX as int),
            out == picked(runs@.take(k as int)).len(),
            forall|j: int| 0 <= j < k ==> (#[trigger] runs@[j]).0 + runs@[j].1 <= src@.len(),
            forall|r: int|
                0 <= r < out ==> #[trigger] dst@[r] == src@[picked(runs@.take(k as int))[r]],
        decreases runs.len() - k,
    {
        let (start, len) = runs[k];
        let ghost before = dst@;
        let ghost done = picked(runs@.take(k as int));
        proof {
            lemma_picked_step(runs@, k as int);
            lemma_picked_prefix(runs@, k + 1);
            assert(runs@[k as int].0 + runs@[k as int].1 <= usize::MAX);
        }
        match view.slice(start, len) {
            Ok(piece) => {
                let counts = dst.copy_bits_from(out, &piece, len);
                proof {
                    let rows = picked(runs@.take(k + 1));
                    assert forall|r: int| 0 <= r < out + len implies #[trigger] dst@[r]
                        == src@[rows[r]] by {
                        if r >= out {
                            assert(dst@[r] == dst@.subrange(out as int, out + len)[r - out]);
                            assert(piece@.subrange(0, len as int) =~= piece@);
                            assert(piece@[r - out] == src@[start + (r - out)]);
                        } else {
                            assert(dst@[r] == before[r]);
                        }
                    }
                }
                out = out + len;
            },
            Err(e) => {
                let ghost error = e;
                proof {
                    assert(runs@[k as int] == (start, len));
                    assert(first_beyond(runs@, src@.len() as int, k as int));
                    if let FormatError::InvalidLayout(m) = error {
                        assert(m@ == bitmap::slice_message(view@.len(), start as int, len as int));
                        assert(validity matches Some(v) && v@ == src@);
                        assert(uncovered(*validity, runs@, m@));
                    }
                }
                return Err(TableError::Format(e));
            },
        }
        k += 1;
    }
    proof {
        assert(runs@.take(k as int) =~= runs@);
        let rows = picked(runs@);
        assert(dst@ =~= Seq::new(rows.len(), |r: int| src@[rows[r]]));
        bitmap::lemma_ones_full(dst@);
        assert((forall|r: int| 0 <= r < rows.len() ==> src@[#[trigger] rows[r]]) == (forall|i: int|
            0 <= i < dst@.len() ==> dst@[i])) by {
            if forall|i: int| 0 <= i < dst@.len() ==> dst@[i] {
                assert forall|r: int| 0 <= r < rows.len() implies src@[#[trigger] rows[r]] by {
                    assert(dst@[r]);
                }
            }
            if forall|r: int| 0 <= r < rows.len() ==> src@[#[trigger] rows[r]] {
                assert forall|i: int| 0 <= i < dst@.len() implies dst@[i] by {
                    assert(src@[rows[i]]);
                }
            }
        }
    }
    if dst.count_ones() == total {
        Ok(None)
    } else {
        Ok(Some(dst))
    }
}

/// Values in the order in which they first occur, each once.
pub open spec fn firsts(keys: Seq<u32>) -> Seq<u32>
    decreases keys.len(),
{
    if keys.len() == 0 {
        Seq::empty()
    } else {
        let front = firsts(keys.drop_last());
        if front.contains(keys.last()) {
            front
        } else {
            front.push(keys.last())
        }
    }
}

/// The dictionary keys of rows.
pub open spec fn keys_of(keys: Seq<u8>, rows: Seq<int>) -> Seq<u32> {
    Seq::new(rows.len(), |r: int| column::key_at(keys, rows[r]) as u32)
}

/// The dictionary entries of keys.
pub open spec fn entries(offsets: Seq<u8>, strings: Seq<u8>, keys: Seq<u32>) -> Seq<Seq<u8>> {
    Seq::new(keys.len(), |k: int| column::dict_entry(offsets, strings, keys[k] as int)->0)
}

/// For each key, its place in the order of first occurrence.
pub open spec fn ranks(keys: Seq<u32>) -> Seq<u32> {
    Seq::new(keys.len(), |r: int| firsts(keys).index_of(keys[r]) as u32)
}

/// Each key has a dictionary entry.
pub open spec fn keys_resolve(offsets: Seq<u8>, strings: Seq<u8>, keys: Seq<u32>) -> bool {
    forall|r: int|
        0 <= r < keys.len() ==> column::dict_entry(offsets, strings, #[trigger] keys[r] as int)
            is Some
}

/// No value occurs twice, and those that occur are those that were given.
pub proof fn lemma_firsts(keys: Seq<u32>)
    ensures
        firsts(keys).no_duplicates(),
        forall|k: u32| firsts(keys).contains(k) == keys.contains(k),
        firsts(keys).len() <= keys.len(),
    decreases keys.len(),
{
    if keys.len() > 0 {
        let front = keys.drop_last();
        lemma_firsts(front);
        let ds = firsts(keys);
        assert forall|k: u32| ds.contains(k) == keys.contains(k) by {
            if keys.contains(k) {
                let i = keys.index_of(k);
                if i < front.len() {
                    assert(front[i] == k);
                    assert(front.contains(k));
                    let j = firsts(front).index_of(k);
                    assert(ds[j] == k);
                } else {
                    assert(k == keys.last());
                    if !firsts(front).contains(k) {
                        assert(ds[ds.len() - 1] == k);
                    }
                }
            }
            if ds.contains(k) {
                let j = ds.index_of(k);
                if j < firsts(front).len() {
                    assert(firsts(front)[j] == k);
                    assert(front.contains(k));
                    let i = front.index_of(k);
                    assert(keys[i] == k);
                } else {
                    assert(keys[keys.len() - 1] == k);
                }
            }
        }
    }
}

/// The first occurrences of a prefix come first.
proof fn lemma_firsts_prefix(keys: Seq<u32>, n: int)
    requires
        0 <= n <= keys.len(),
    ensures
        firsts(keys.take(n)).len() <= firsts(keys).len(),
        firsts(keys).take(firsts(keys.take(n)).len() as int) == firsts(keys.take(n)),
    decreases keys.len() - n,
{
    if n < keys.len() {
        lemma_firsts_prefix(keys, n + 1);
        assert(keys.take(n + 1).drop_last() =~= keys.take(n));
        let a = firsts(keys.take(n));
        let b = firsts(keys.take(n + 1));
        assert(b.take(a.len() as int) =~= a);
        assert(firsts(keys).take(a.len() as int) =~= firsts(keys).take(b.len() as int).take(
            a.len() as int,
        ));
    } else {
        assert(keys.take(n) =~= keys);
        assert(firsts(keys).take(firsts(keys).len() as int) =~= firsts(keys));
    }
}

/// A dictionary under construction.
struct Remap {
    /// For each old key the new one, or `u32::MAX` where it has not occurred.
    table: Vec<u32>,
    keys: Vec<u32>,
    offsets: Vec<u64>,
    strings: Vec<u8>,
    count: u32,
}

impl Remap {
    /// The keys `done` have been entered, whose entries `offsets` and `strings` give.
    spec fn holds(self, offsets: Seq<u8>, strings: Seq<u8>, done: Seq<u32>) -> bool {
        let ds = firsts(done);
        let parts = entries(offsets, strings, ds);
        &&& self.table@.len() == offsets.len() / 8 - 1
        &&& forall|k: u32|
            #![trigger self.table@[k as int]]
            k < self.table@.len() ==> (if ds.contains(k) {
                self.table@[k as int] < ds.len() && ds[self.table@[k as int] as int] == k
            } else {
                self.table@[k as int] == u32::MAX
            })
        &&& self.keys@.len() == done.len()
        &&& forall|r: int|
            0 <= r < done.len() ==> #[trigger] self.keys@[r] < ds.len() && ds[self.keys@[r] as int]
                == done[r]
        &&& self.offsets@ == buffer::starts(parts)
        &&& self.strings@ == buffer::concat(parts)
        &&& self.count == ds.len()
    }

    /// Enters one more key.
    fn enter(
        &mut self,
        offsets: &[u8],
        strings: &[u8],
        key: u32,
        Ghost(done): Ghost<Seq<u32>>,
    )
        requires
            old(self).holds(offsets@, strings@, done),
            column::dict_entry(offsets@, strings@, key as int) is Some,
            firsts(done.push(key)).len() <= u32::MAX,
        ensures
            final(self).holds(offsets@, strings@, done.push(key)),
    {
        let ghost before = *self;
        let ghost ds = firsts(done);
        let ghost after = done.push(key);
        let ghost next = firsts(after);
        let ghost parts = entries(offsets@, strings@, ds);
        proof {
            assert(after.drop_last() =~= done);
            lemma_firsts(done);
            lemma_firsts(after);
            assert(8 * key + 16 <= offsets@.len());
            assert(key < self.table@.len());
        }
        let known: u32 = self.table[key as usize];
        if known == u32::MAX {
            assert(!ds.contains(key));
            match column::dict_bytes(offsets, strings, key) {
                Some(bytes) => {
                    self.strings.extend_from_slice(bytes);
                },
                None => {},
            }
            self.offsets.push(self.strings.len() as u64);
            let id: u32 = self.count;
            self.count = self.count + 1;
            self.table.set(key as usize, id);
            self.keys.push(id);
            proof {
                let grown = entries(offsets@, strings@, next);
                let entry = column::dict_entry(offsets@, strings@, key as int)->0;
                assert(grown =~= parts.push(entry));
                assert(grown.drop_last() =~= parts);
                assert(self.strings@ =~= buffer::concat(grown));
                assert forall|k: int| 0 <= k < self.offsets@.len() implies self.offsets@[k]
                    == buffer::starts(grown)[k] by {
                    if k < parts.len() + 1 {
                        assert(grown.take(k) =~= parts.take(k));
                    } else {
                        assert(grown.take(k) =~= grown);
                    }
                }
                assert(self.offsets@ =~= buffer::starts(grown));
                assert forall|k: u32|
                    #![trigger self.table@[k as int]]
                    k < self.table@.len() implies (if next.contains(k) {
                    self.table@[k as int] < next.len() && next[self.table@[k as int] as int] == k
                } else {
                    self.table@[k as int] == u32::MAX
                }) by {
                    assert(self.table@[k as int] == if k == key {
                        id
                    } else {
                        before.table@[k as int]
                    });
                    if k == key {
                        assert(next[next.len() - 1] == key);
                    } else {
                        assert(next.contains(k) == ds.contains(k)) by {
                            if ds.contains(k) {
                                let j = ds.index_of(k);
                                assert(next[j] == k);
                            }
                            if next.contains(k) {
                                let j = next.index_of(k);
                                assert(next.last() == key);
                                assert(ds[j] == k);
                            }
                        }
                    }
                }
                assert forall|r: int| 0 <= r < after.len() implies #[trigger] self.keys@[r]
                    < next.len() && next[self.keys@[r] as int] == after[r] by {
                    if r < done.len() {
                        assert(self.keys@[r] == before.keys@[r]);
                    }
                }
            }
        } else {
            self.keys.push(known);
            proof {
                assert(ds.contains(key));
                assert forall|r: int| 0 <= r < after.len() implies #[trigger] self.keys@[r]
                    < next.len() && next[self.keys@[r] as int] == after[r] by {
                    if r < done.len() {
                        assert(self.keys@[r] == before.keys@[r]);
                    }
                }
            }
        }
    }
}

/// The dictionary that rows of a column of text get: their entries in the order in
/// which they first occur.
pub open spec fn dict_gathered(
    out: (Seq<u8>, Seq<u8>, Seq<u8>),
    src: (Seq<u8>, Seq<u8>, Seq<u8>),
    rows: Seq<int>,
) -> bool {
    let keys = keys_of(src.0, rows);
    let parts = entries(src.1, src.2, firsts(keys));
    &&& out.0 == column::u32_table(ranks(keys))
    &&& out.1 == column::u64_table(buffer::starts(parts))
    &&& out.2 == buffer::concat(parts)
}

/// Copies the keys of the rows of runs, and makes the dictionary that they need.
fn gather_dict(keys: &[u8], offsets: &[u8], strings: &[u8], runs: &[RowSpan]) -> (out: (
    Vec<u32>,
    Vec<u64>,
    Vec<u8>,
))
    requires
        column::offsets_ok(offsets@),
        forall|k: int|
            0 <= k < runs@.len() ==> 4 * ((#[trigger] runs@[k]).0 + runs@[k].1) <= keys@.len(),
        keys_resolve(offsets@, strings@, keys_of(keys@, picked(runs@))),
        firsts(keys_of(keys@, picked(runs@))).len() <= u32::MAX,
    ensures
        ({
            let ks = keys_of(keys@, picked(runs@));
            let parts = entries(offsets@, strings@, firsts(ks));
            &&& out.0@ == ranks(ks)
            &&& out.1@ == buffer::starts(parts)
            &&& out.2@ == buffer::concat(parts)
        }),
{
    let ghost all = keys_of(keys@, picked(runs@));
    let known: usize = offsets.len() / 8 - 1;
    let mut offsets_out: Vec<u64> = Vec::new();
    offsets_out.push(0);
    let mut remap = Remap {
        table: vec![u32::MAX; known],
        keys: Vec::new(),
        offsets: offsets_out,
        strings: Vec::new(),
        count: 0,
    };
    let mut k: usize = 0;
    proof {
        let none = Seq::<u32>::empty();
        let parts = entries(offsets@, strings@, firsts(none));
        assert(parts =~= Seq::empty());
        assert(parts.take(0) =~= Seq::empty());
        assert(remap.offsets@ =~= buffer::starts(parts));
        assert(remap.strings@ =~= buffer::concat(parts));
        assert(runs@.take(0).len() == 0);
        assert(all.take(0) =~= none);
    }
    while k < runs.len()
        invariant
            k <= runs@.len(),
            all == keys_of(keys@, picked(runs@)),
            forall|k: int|
                0 <= k < runs@.len() ==> 4 * ((#[trigger] runs@[k]).0 + runs@[k].1) <= keys@.len(),
            keys_resolve(offsets@, strings@, all),
            firsts(all).len() <= u32::MAX,
            remap.holds(
                offsets@,
                strings@,
                all.take(picked(runs@.take(k as int)).len() as int),
            ),
        decreases runs.len() - k,
    {
        let (start, len) = runs[k];
        let ghost total: usize = keys.len();
        let mut i: usize = 0;
        let ghost base = picked(runs@.take(k as int)).len();
        proof {
            lemma_picked_step(runs@, k as int);
            lemma_picked_prefix(runs@, k + 1);
        }
        while i < len
            invariant
                i <= len,
                k < runs@.len(),
                runs@[k as int] == (start, len),
                all == keys_of(keys@, picked(runs@)),
                4 * (start + len) <= total == keys@.len(),
                keys_resolve(offsets@, strings@, all),
                firsts(all).len() <= u32::MAX,
                base == picked(runs@.take(k as int)).len(),
                base + len <= all.len(),
                remap.holds(offsets@, strings@, all.take(base + i)),
            decreases len - i,
        {
            let key: u32 = le::get_u32(keys, 4 * (start + i));
            proof {
                lemma_picked_at(runs@, k as int, i as int);
                assert(all[base + i] == column::key_at(keys@, start + i) as u32);
                let done = all.take(base + i);
                assert(done.push(key) =~= all.take(base + i + 1));
                lemma_firsts_prefix(all, base + i + 1);
            }
            remap.enter(offsets, strings, key, Ghost(all.take(base + i)));
            i += 1;
        }
        k += 1;
    }
    proof {
        assert(runs@.take(k as int) =~= runs@);
        assert(all.take(all.len() as int) =~= all);
        lemma_firsts(all);
        assert forall|r: int| 0 <= r < all.len() implies remap.keys@[r] == ranks(all)[r] by {
            let ds = firsts(all);
            assert(all.contains(all[r]));
            assert(ds.contains(all[r]));
            let j = ds.index_of(all[r]);
            assert(ds[j] == all[r]);
            assert(ds[remap.keys@[r] as int] == all[r]);
        }
        assert(remap.keys@ =~= ranks(all));
    }
    (remap.keys, remap.offsets, remap.strings)
}

/// Row `i` of run `k` follows the rows of the runs before.
pub proof fn lemma_picked_at(runs: Seq<RowSpan>, k: int, i: int)
    requires
        0 <= k < runs.len(),
        0 <= i < runs[k].1,
    ensures
        picked(runs.take(k)).len() + i < picked(runs).len(),
        picked(runs)[picked(runs.take(k)).len() + i] == runs[k].0 + i,
    decreases runs.len() - k,
{
    lemma_picked_step(runs, k);
    lemma_picked_agree(runs, k + 1);
    let at = picked(runs.take(k)).len() + i;
    assert(picked(runs).take(picked(runs.take(k + 1)).len() as int)[at] == picked(
        runs.take(k + 1),
    )[at]);
}

pub proof fn lemma_picked_agree(runs: Seq<RowSpan>, k: int)
    requires
        0 <= k <= runs.len(),
    ensures
        picked(runs.take(k)).len() <= picked(runs).len(),
        picked(runs).take(picked(runs.take(k)).len() as int) == picked(runs.take(k)),
    decreases runs.len() - k,
{
    if k < runs.len() {
        lemma_picked_step(runs, k);
        lemma_picked_agree(runs, k + 1);
        let a = picked(runs.take(k));
        let b = picked(runs.take(k + 1));
        assert(b.take(a.len() as int) =~= a);
        assert(picked(runs).take(a.len() as int) =~= picked(runs).take(b.len() as int).take(
            a.len() as int,
        ));
    } else {
        assert(runs.take(k) =~= runs);
        assert(picked(runs).take(picked(runs).len() as int) =~= picked(runs));
    }
}

/// A dictionary that was written down entry by entry gives each of them back.
pub proof fn law_dict_written(parts: Seq<Seq<u8>>, k: int)
    requires
        0 <= k < parts.len(),
        buffer::concat(parts).len() <= u64::MAX,
    ensures
        column::dict_entry(
            column::u64_table(buffer::starts(parts)),
            buffer::concat(parts),
            k,
        ) == Some(parts[k]),
{
    let starts = buffer::starts(parts);
    let table = column::u64_table(starts);
    buffer::lemma_words_len(starts);
    buffer::law_words_group(starts, k);
    buffer::law_words_group(starts, k + 1);
    buffer::lemma_concat_prefix(parts, k);
    buffer::lemma_concat_part(parts, k);
    assert(buffer::group(table, k, 8) =~= table.subrange(8 * k, 8 * k + 8));
    assert(buffer::group(table, k + 1, 8) =~= table.subrange(8 * (k + 1), 8 * (k + 1) + 8));
}

/// Picking rows of a column of text keeps the text of each.
pub proof fn law_gather_keeps_text(
    out: (Seq<u8>, Seq<u8>, Seq<u8>),
    src: (Seq<u8>, Seq<u8>, Seq<u8>),
    rows: Seq<int>,
    r: int,
)
    requires
        dict_gathered(out, src, rows),
        keys_resolve(src.1, src.2, keys_of(src.0, rows)),
        firsts(keys_of(src.0, rows)).len() <= u32::MAX,
        out.2.len() <= u64::MAX,
        0 <= r < rows.len(),
        0 <= 4 * rows[r],
        4 * rows[r] + 4 <= src.0.len(),
    ensures
        column::dict_entry(out.1, out.2, column::key_at(out.0, r) as int) == column::dict_entry(
            src.1,
            src.2,
            column::key_at(src.0, rows[r]) as int,
        ),
{
    let keys = keys_of(src.0, rows);
    let ds = firsts(keys);
    let parts = entries(src.1, src.2, ds);
    lemma_firsts(keys);
    assert(keys.contains(keys[r]));
    let j = ds.index_of(keys[r]);
    assert(ds.contains(keys[r]));
    assert(ds[j] == keys[r]);
    buffer::law_words_group(ranks(keys), r);
    assert(buffer::group(out.0, r, 4) =~= out.0.subrange(4 * r, 4 * r + 4));
    assert(ranks(keys)[r] == j as u32);
    assert(column::key_at(out.0, r) == j);
    law_dict_written(parts, j);
    let spelled = src.0.subrange(4 * rows[r], 4 * rows[r] + 4);
    le::lemma_le_bytes_of_value(spelled);
    le::lemma_le_limits();
    assert(column::key_at(src.0, rows[r]) == keys[r]);
}

/// The rows of runs can be picked from a column whose field has that type.
pub open spec fn gatherable(src: Column, data_type: DataType, runs: Seq<RowSpan>) -> bool {
    &&& src.validity matches Some(v) ==> v.wf()
    &&& match src.dict {
        Some(d) => {
            &&& column::offsets_ok(d.offsets@)
            &&& runs_within(runs, src.values@.len() as int / 4)
            &&& keys_resolve(d.offsets@, d.strings@, keys_of(src.values@, picked(runs)))
            &&& firsts(keys_of(src.values@, picked(runs))).len() <= u32::MAX
        },
        None => {
            &&& forall|k: int|
                0 <= k < runs.len() ==> ((#[trigger] runs[k]).0 + runs[k].1) * data_type.width()
                    <= src.values@.len()
            &&& picked(runs).len() * data_type.width() + 8 <= isize::MAX
        },
    }
}

/// A column of picked rows: its values, its dictionary and its bitmap.
pub open spec fn gathered(out: Column, src: Column, data_type: DataType, rows: Seq<int>) -> bool {
    &&& match src.dict {
        Some(d) => {
            &&& out.data_type is Utf8
            &&& out.dict matches Some(e) && dict_gathered(
                (out.values@, e.offsets@, e.strings@),
                (src.values@, d.offsets@, d.strings@),
                rows,
            )
        },
        None => {
            &&& out.data_type == data_type
            &&& out.dict is None
            &&& out.values.spec_alignment() == 8
            &&& rows_gathered(out.values@, src.values@, rows, data_type.width())
        },
    }
    &&& validity_gathered(out.validity, src.validity, rows)
}

/// The bitmap of a column, where it has one, covers the runs.
pub open spec fn bitmap_covers(src: Column, runs: Seq<RowSpan>) -> bool {
    src.validity matches Some(v) ==> runs_within(runs, v@.len() as int)
}

/// Rows that a column of picked rows counts: none where text comes without a
/// dictionary.
pub open spec fn gathered_length(src: Column, data_type: DataType, rows: Seq<int>) -> nat {
    if src.dict is None && data_type is Utf8 {
        0
    } else {
        rows.len()
    }
}

/// Copies the rows of runs of one column.
fn gather_column(src: &Column, data_type: DataType, runs: &[RowSpan], total: usize) -> (r: Result<
    Column,
    TableError,
>)
    requires
        gatherable(*src, data_type, runs@),
        total == picked(runs@).len(),
        runs_within(runs@, usize::MAX as int),
    ensures
        match r {
            Ok(out) => {
                &&& bitmap_covers(*src, runs@)
                &&& gathered(out, *src, data_type, picked(runs@))
                &&& out.spec_length() == gathered_length(*src, data_type, picked(runs@))
            },
            Err(TableError::Format(FormatError::InvalidLayout(m))) => {
                &&& !bitmap_covers(*src, runs@)
                &&& uncovered(src.validity, runs@, m@)
            },
            Err(_) => false,
        },
{
    match &src.dict {
        Some(dict) => {
            proof {
                assert forall|k: int| 0 <= k < runs@.len() implies 4 * ((#[trigger] runs@[k]).0
                    + runs@[k].1) <= src.values@.len() by {
                    assert(runs@[k].0 + runs@[k].1 <= src.values@.len() as int / 4);
                }
            }
            let (keys, offsets, strings) = gather_dict(
                src.values.as_slice(),
                dict.offsets.as_slice(),
                dict.strings.as_slice(),
                runs,
            );
            let validity = match gather_validity(&src.validity, runs, total) {
                Ok(validity) => validity,
                Err(e) => {
                    return Err(e);
                },
            };
            proof {
                buffer::lemma_words_len(keys@);
            }
            Ok(
                Column {
                    data_type: DataType::Utf8,
                    values: Buffer::from_vec(column::table_bytes(&keys)),
                    validity,
                    dict: Some(
                        DictBuffers {
                            offsets: Buffer::from_vec(column::table_bytes(&offsets)),
                            strings: Buffer::from_vec(strings),
                        },
                    ),
                },
            )
        },
        None => {
            let size: usize = data_type.size_of();
            let bytes = gather_bytes(src.values.as_slice(), runs, size);
            proof {
                reveal_with_fuel(vstd::arithmetic::power2::is_pow2, 4);
                assert(vstd::arithmetic::power2::is_pow2(8));
                if size > 0 {
                    assert((total * size) / (size as int) == total) by (nonlinear_arith)
                        requires
                            size > 0,
                    ;
                } else {
                    assert(total * size == 0) by (nonlinear_arith)
                        requires
                            size == 0,
                    ;
                }
            }
            let values = Buffer::zeroed_aligned_bytes(bytes, 8);
            let validity = match gather_validity(&src.validity, runs, total) {
                Ok(validity) => validity,
                Err(e) => {
                    return Err(e);
                },
            };
            Ok(Column { data_type, values, validity, dict: None })
        },
    }
}

/// Column `j` is the one that field `i` names.
pub open spec fn names_column(data: Data, i: int, j: int) -> bool {
    schema::first_named(data.schema.fields@, data.schema.fields@[i].name@, j)
}

/// The rows of runs can be picked from the column of field `i`.
pub open spec fn field_gatherable(data: Data, i: int, runs: Seq<RowSpan>) -> bool {
    forall|j: int| #[trigger]
        names_column(data, i, j) ==> gatherable(
            data.columns@[j],
            data.schema.fields@[i].data_type,
            runs,
        )
}

/// The bitmap of the column of field `i` covers the runs.
pub open spec fn field_covered(data: Data, i: int, runs: Seq<RowSpan>) -> bool {
    exists|j: int| #[trigger] names_column(data, i, j) && bitmap_covers(data.columns@[j], runs)
}

/// A column of picked rows of the column of field `i`.
pub open spec fn field_gathered(out: Column, data: Data, i: int, rows: Seq<int>) -> bool {
    exists|j: int| #[trigger]
        names_column(data, i, j) && gathered(
            out,
            data.columns@[j],
            data.schema.fields@[i].data_type,
            rows,
        ) && out.spec_length() == gathered_length(
            data.columns@[j],
            data.schema.fields@[i].data_type,
            rows,
        )
}

/// The field is one of text whose column has no dictionary.
pub open spec fn bare_text(data: Data, i: int) -> bool {
    &&& data.schema.fields@[i].data_type is Utf8
    &&& exists|j: int| #[trigger] names_column(data, i, j) && data.columns@[j].dict is None
}

/// Two fields of which one counts no rows and the other does.
pub open spec fn odd_lengths(data: Data, i: int, rows: Seq<int>) -> bool {
    &&& 0 <= i < data.schema.fields@.len()
    &&& rows.len() > 0
    &&& bare_text(data, i) != bare_text(data, 0)
}

/// Field `i` is the first whose bitmap ends before rows of the runs, and this is said of it.
pub open spec fn first_uncovered(
    data: Data,
    runs: Seq<RowSpan>,
    i: int,
    message: Seq<char>,
) -> bool {
    &&& 0 <= i < data.schema.fields@.len()
    &&& !field_covered(data, i, runs)
    &&& forall|g: int| 0 <= g < i ==> #[trigger] field_covered(data, g, runs)
    &&& forall|j: int| #[trigger]
        names_column(data, i, j) ==> uncovered(data.columns@[j].validity, runs, message)
}

/// How many rows field `i` counts.
pub open spec fn counted_rows(data: Data, i: int, rows: Seq<int>) -> nat {
    if bare_text(data, i) {
        0
    } else {
        rows.len()
    }
}

/// Field `i` is the first that does not count as many rows as the first field, and this is
/// said of it.
pub open spec fn first_odd_length(
    data: Data,
    rows: Seq<int>,
    i: int,
    message: Seq<char>,
) -> bool {
    &&& odd_lengths(data, i, rows)
    &&& forall|g: int| 0 <= g < i ==> !(#[trigger] odd_lengths(data, g, rows))
    &&& message == dataview::length_message(
        data.schema.fields@[i].name@,
        counted_rows(data, i, rows),
        counted_rows(data, 0, rows),
    )
}

/// Picks the rows of runs, run by run, from every column.
pub fn gather_runs(data: &Data, runs: &[RowSpan]) -> (r: Result<Data, TableError>)
    requires
        data.columns@.len() == data.schema.fields@.len(),
        runs_within(runs@, usize::MAX as int),
        picked(runs@).len() <= usize::MAX,
        forall|i: int|
            0 <= i < data.schema.fields@.len() ==> #[trigger] field_gatherable(*data, i, runs@),
    ensures
        match r {
            Ok(out) => {
                &&& out.wf()
                &&& out.schema.fields@ == data.schema.fields@
                &&& forall|i: int|
                    0 <= i < data.schema.fields@.len() ==> #[trigger] field_gathered(
                        out.columns@[i],
                        *data,
                        i,
                        picked(runs@),
                    )
                &&& forall|i: int|
                    0 <= i < data.schema.fields@.len() ==> #[trigger] field_covered(
                        *data,
                        i,
                        runs@,
                    )
            },
            Err(TableError::Format(FormatError::InvalidLayout(m))) => {
                ||| exists|i: int| #[trigger] first_uncovered(*data, runs@, i, m@)
                ||| exists|i: int| #[trigger] first_odd_length(*data, picked(runs@), i, m@)
                    && forall|g: int|
                    0 <= g < data.schema.fields@.len() ==> #[trigger] field_covered(
                        *data,
                        g,
                        runs@,
                    )
            },
            Err(_) => false,
        },
{
    let total: usize = count_rows(runs);
    let mut columns: Vec<Column> = Vec::new();
    let ghost rows = picked(runs@);
    let ghost fields = data.schema.fields@;
    let mut k: usize = 0;
    while k < data.schema.fields.len()
        invariant
            k <= fields.len(),
            fields == data.schema.fields@,
            rows == picked(runs@),
            total == rows.len(),
            data.columns@.len() == fields.len(),
            columns@.len() == k,
            runs_within(runs@, usize::MAX as int),
            forall|i: int|
                0 <= i < fields.len() ==> #[trigger] field_gatherable(*data, i, runs@),
            forall|i: int|
                0 <= i < k ==> #[trigger] field_gathered(columns@[i], *data, i, rows),
            forall|i: int| 0 <= i < k ==> #[trigger] field_covered(*data, i, runs@),
        decreases data.schema.fields.len() - k,
    {
        let field = &data.schema.fields[k];
        match data.schema.position(field.name.as_str()) {
            Some(j) => {
                proof {
                    assert(names_column(*data, k as int, j as int));
                    assert(field_gatherable(*data, k as int, runs@));
                }
                match gather_column(&data.columns[j], field.data_type, runs, total) {
                    Ok(out) => {
                        proof {
                            assert(field_covered(*data, k as int, runs@));
                            assert(field_gathered(out, *data, k as int, rows));
                        }
                        let ghost before = columns@;
                        columns.push(out);
                        proof {
                            assert forall|i: int| 0 <= i < k + 1 implies #[trigger] field_gathered(
                                columns@[i],
                                *data,
                                i,
                                rows,
                            ) by {
                                if i < k {
                                    assert(columns@[i] == before[i]);
                                    assert(field_gathered(before[i], *data, i, rows));
                                }
                            }
                        }
                    },
                    Err(e) => {
                        let ghost error = e;
                        proof {
                            assert forall|m: int| #[trigger]
                                names_column(*data, k as int, m) implies m == j by {
                                lemma_first_named_unique(fields, fields[k as int].name@, m, j as int);
                            }
                            assert(!field_covered(*data, k as int, runs@));
                            if let TableError::Format(FormatError::InvalidLayout(m)) = error {
                                assert(first_uncovered(*data, runs@, k as int, m@));
                            }
                        }
                        return Err(e);
                    },
                }
            },
            None => {
                proof {
                    assert(fields[k as int].name@ == field.name@);
                    assert(false);
                }
            },
        }
        k += 1;
    }
    let ghost lengths = Data::lengths(columns@);
    match Data::new(data.schema.clone(), columns) {
        Ok(out) => Ok(out),
        Err(e) => {
            let ghost error = e;
            proof {
                if let FormatError::InvalidLayout(m) = error {
                    let i = choose|i: int|
                        #[trigger] dataview::first_odd(lengths, i) && m@ == dataview::length_message(
                            fields[i].name@,
                            lengths[i],
                            dataview::lengths_first(lengths),
                        );
                    lemma_odd(columns@, *data, rows, i);
                    assert(first_odd_length(*data, rows, i, m@));
                }
            }
            Err(TableError::Format(e))
        },
    }
}

/// The first column with a name is one column.
pub proof fn lemma_first_named_unique(
    fields: Seq<schema::FieldSchema>,
    name: Seq<char>,
    i: int,
    j: int,
)
    requires
        schema::first_named(fields, name, i),
        schema::first_named(fields, name, j),
    ensures
        i == j,
{
    if i < j {
        assert(fields[i].name@ != name);
    }
    if j < i {
        assert(fields[j].name@ != name);
    }
}

/// The length of a picked column shows whether its field is bare text.
proof fn lemma_picked_length(out: Column, data: Data, i: int, rows: Seq<int>)
    requires
        field_gathered(out, data, i, rows),
    ensures
        out.spec_length() == (if bare_text(data, i) {
            0
        } else {
            rows.len()
        }),
{
    let fields = data.schema.fields@;
    let j = choose|j: int| #[trigger]
        names_column(data, i, j) && gathered(
            out,
            data.columns@[j],
            fields[i].data_type,
            rows,
        ) && out.spec_length() == gathered_length(data.columns@[j], fields[i].data_type, rows);
    assert forall|m: int| #[trigger] names_column(data, i, m) implies m == j by {
        lemma_first_named_unique(fields, fields[i].name@, m, j);
    }
}

proof fn lemma_odd(columns: Seq<Column>, data: Data, rows: Seq<int>, i: int)
    requires
        columns.len() == data.schema.fields@.len(),
        dataview::first_odd(Data::lengths(columns), i),
        forall|k: int| 0 <= k < columns.len() ==> #[trigger] field_gathered(columns[k], data, k, rows),
    ensures
        odd_lengths(data, i, rows),
        forall|g: int| 0 <= g < i ==> !(#[trigger] odd_lengths(data, g, rows)),
        columns[i].spec_length() == counted_rows(data, i, rows),
        columns[0].spec_length() == counted_rows(data, 0, rows),
{
    assert(field_gathered(columns[i], data, i, rows));
    assert(field_gathered(columns[0], data, 0, rows));
    lemma_picked_length(columns[i], data, i, rows);
    lemma_picked_length(columns[0], data, 0, rows);
    assert forall|g: int| 0 <= g < i implies !(#[trigger] odd_lengths(data, g, rows)) by {
        assert(field_gathered(columns[g], data, g, rows));
        lemma_picked_length(columns[g], data, g, rows);
        assert(Data::lengths(columns)[g] == dataview::lengths_first(Data::lengths(columns)));
    }
}

/// The rows of runs are those of the runs one after the other, and those of one run count up
/// from its first.
pub proof fn law_picked_in_order(a: Seq<RowSpan>, b: Seq<RowSpan>, i: int)
    ensures
        picked(a + b) == picked(a) + picked(b),
        a.len() == 0 ==> picked(a).len() == 0,
        a.len() == 1 ==> picked(a).len() == a[0].1 && (0 <= i < a[0].1 ==> picked(a)[i] == a[0].0
            + i),
    decreases b.len(),
{
    reveal_with_fuel(picked, 2);
    if b.len() == 0 {
        assert(a + b =~= a);
        assert(picked(a) + picked(b) =~= picked(a));
    } else {
        law_picked_in_order(a, b.drop_last(), i);
        assert((a + b).drop_last() =~= a + b.drop_last());
        assert(picked(a + b) =~= picked(a) + picked(b));
    }
}

/// A row that was gathered holds the bytes of the row that it was taken from, and is missing
/// exactly where that one is.
pub proof fn law_gathered_row(
    out: Column,
    src: Column,
    data_type: DataType,
    rows: Seq<int>,
    r: int,
    b: int,
)
    requires
        gathered(out, src, data_type, rows),
        0 <= r < rows.len(),
        0 <= b < data_type.width(),
        0 <= rows[r],
        (rows[r] + 1) * data_type.width() <= src.values@.len(),
    ensures
        src.dict is None ==> out.data_type == data_type && out.dict is None && out.values@[r
            * data_type.width() + b] == src.values@[rows[r] * data_type.width() + b],
        src.dict is Some ==> out.data_type is Utf8 && out.dict is Some,
        src.validity is None ==> out.validity is None,
        src.validity matches Some(v) ==> (match out.validity {
            Some(w) => w@.len() == rows.len() && w@[r] == v@[rows[r]],
            None => v@[rows[r]],
        }),
{
    let w = data_type.width();
    if src.dict is None {
        assert((r + 1) * w <= rows.len() * w) by (nonlinear_arith)
            requires
                r + 1 <= rows.len(),
                0 <= w,
        ;
        buffer::law_group_by_byte(out.values@, r, w, b);
        buffer::law_group_by_byte(src.values@, rows[r], w, b);
        assert(buffer::group(out.values@, r, w) == buffer::group(src.values@, rows[r], w));
    }
}

/// The keys that occur are listed once each, in the order in which they occur first.
pub proof fn law_keys_listed_once(keys: Seq<u32>, more: u32)
    ensures
        firsts(keys).no_duplicates(),
        forall|k: u32| firsts(keys).contains(k) == keys.contains(k),
        keys.contains(more) ==> firsts(keys.push(more)) == firsts(keys),
        !keys.contains(more) ==> firsts(keys.push(more)) == firsts(keys).push(more),
{
    lemma_firsts(keys);
    assert(keys.push(more).drop_last() =~= keys);
}

/// The rows that are gathered of a field are those of the first column of its name: as many
/// as are picked, each with the bytes of the row that it was taken from, unless the column
/// holds text without a dictionary, of which no rows are kept.
pub proof fn law_field_gathered(
    out: Column,
    data: Data,
    i: int,
    j: int,
    rows: Seq<int>,
    r: int,
    b: int,
)
    requires
        field_gathered(out, data, i, rows),
        0 <= j < data.schema.fields@.len(),
        data.schema.fields@[j].name@ == data.schema.fields@[i].name@,
        forall|k: int|
            0 <= k < j ==> #[trigger] data.schema.fields@[k].name@
                != data.schema.fields@[i].name@,
    ensures
        data.columns@[j].dict is Some || data.schema.fields@[i].data_type !is Utf8
            ==> out.spec_length() == rows.len(),
        data.columns@[j].dict is None && data.schema.fields@[i].data_type is Utf8
            ==> out.spec_length() == 0,
        data.columns@[j].dict is Some <==> out.dict is Some,
        data.columns@[j].dict is None ==> out.data_type == data.schema.fields@[i].data_type,
        data.columns@[j].dict is None && 0 <= r < rows.len() && 0 <= b
            < data.schema.fields@[i].data_type.width() && 0 <= rows[r] && (rows[r] + 1)
            * data.schema.fields@[i].data_type.width() <= data.columns@[j].values@.len()
            ==> out.values@[r * data.schema.fields@[i].data_type.width() + b]
            == data.columns@[j].values@[rows[r] * data.schema.fields@[i].data_type.width() + b],
{
    let k = choose|k: int| #[trigger]
        names_column(data, i, k) && gathered(
            out,
            data.columns@[k],
            data.schema.fields@[i].data_type,
            rows,
        ) && out.spec_length() == gathered_length(
            data.columns@[k],
            data.schema.fields@[i].data_type,
            rows,
        );
    if k < j {
        assert(data.schema.fields@[k].name@ != data.schema.fields@[i].name@);
    }
    if j < k {
        assert(data.schema.fields@[j].name@ != data.schema.fields@[i].name@);
    }
    let t = data.schema.fields@[i].data_type;
    if data.columns@[j].dict is None && 0 <= r < rows.len() && 0 <= b < t.width() && 0 <= rows[r]
        && (rows[r] + 1) * t.width() <= data.columns@[j].values@.len() {
        law_gathered_row(out, data.columns@[j], t, rows, r, b);
    }
}

/// Columns come out of different lengths exactly where rows are picked and one of the column
/// and the first holds text without a dictionary and the other does not.
pub proof fn law_uneven_columns(data: Data, i: int, rows: Seq<int>, message: Seq<char>)
    requires
        0 <= i < data.schema.fields@.len(),
    ensures
        odd_lengths(data, i, rows) <==> counted_rows(data, i, rows) != counted_rows(data, 0, rows),
        !odd_lengths(data, 0, rows),
        bare_text(data, i) ==> counted_rows(data, i, rows) == 0,
        !bare_text(data, i) ==> counted_rows(data, i, rows) == rows.len(),
        data.schema.fields@[i].data_type !is Utf8 ==> !bare_text(data, i),
        first_odd_length(data, rows, i, message) ==> i > 0 && odd_lengths(data, i, rows),
        first_odd_length(data, rows, i, message) ==> exists|a: nat, b: nat|
            {
                &&& message == #[trigger] dataview::length_message(
                    data.schema.fields@[i].name@,
                    a,
                    b,
                )
                &&& bare_text(data, i) ==> a == 0 && b == rows.len()
                &&& !bare_text(data, i) ==> a == rows.len() && b == 0
            },
{
}

/// Runs reach beyond the marks of a column exactly where one of them ends behind the last.
pub proof fn law_runs_beyond(src: Column, runs: Seq<RowSpan>, k: int, rows: int)
    ensures
        src.validity is None ==> bitmap_covers(src, runs),
        src.validity matches Some(v) ==> (0 <= k < runs.len() && runs[k].0 + runs[k].1 > v@.len()
            ==> !bitmap_covers(src, runs)),
        src.validity matches Some(v) ==> ((forall|n: int|
            0 <= n < runs.len() ==> (#[trigger] runs[n]).0 + runs[n].1 <= v@.len())
            ==> bitmap_covers(src, runs)),
        first_beyond(runs, rows, k) ==> 0 <= k < runs.len() && runs[k].0 + runs[k].1 > rows,
{
}

} // verus!

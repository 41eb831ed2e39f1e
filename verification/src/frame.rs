//! Columns as plain values, one per row, and back.

use vstd::prelude::*;
use vstd::string::*;
use vstd::utf8;
use crate::bitmap::Bitmap;
use crate::buffer;
use crate::buffer::{Buffer, FixedWidth};
use crate::column;
use crate::column::{Column, ColumnView, DictBuffers};
use crate::dataview;
use crate::dataview::{Data, DataView};
use crate::error::FormatError;
use crate::filter::FilterValue;
use crate::gather;
use crate::le;
use crate::schema;
use crate::schema::{FieldSchema, Schema};
use crate::stats;
use crate::table::TableError;
use crate::text;
use crate::text::Relation;
use crate::types::DataType;
use crate::writing;

verus! {

/// A text as bytes.
pub open spec fn text_bytes(s: Seq<char>) -> Seq<u8> {
    utf8::encode_utf8(s)
}

/// What row `i` of a column is read as: nothing where it is missing; else its text or its
/// value.
pub open spec fn reads_as(cell: Option<FilterValue>, view: ColumnView<'_>, i: int) -> bool {
    if !view.row_valid(i) {
        cell is None
    } else if view.spec_type() is Utf8 {
        match writing::sym_at(view, i) {
            Some(t) => cell matches Some(FilterValue::String(s)) && s@ == t,
            None => cell is None,
        }
    } else {
        cell == stats::value_of(view.spec_type(), view.cell(i)->0)
    }
}

/// The rows of a column can be read: texts have their offsets in order; values of a fixed
/// width are all there, each with its bit.
pub open spec fn readable(view: ColumnView<'_>) -> bool {
    if view.spec_type() is Utf8 {
        forall|i: int|
            0 <= i < view.spec_length() ==> #[trigger] text_ready(view, i)
    } else {
        &&& writing::filled(view)
        &&& forall|k: int|
            0 <= k < view.spec_segments().len() ==> (
            #[trigger] view.spec_segments()[k]).spec_values() is Fixed && (
            view.spec_segments()[k].spec_validity() matches Some(v) ==> v@.len()
                == view.spec_segments()[k].spec_rows())
    }
}

pub open spec fn text_ready(view: ColumnView<'_>, i: int) -> bool {
    column::row_in(view.spec_segments(), i) matches Some((segment, j))
        ==> segment.spec_values().text_in_order(j)
}

/// Reads one row.
fn read_cell(view: &ColumnView<'_>, i: usize) -> (cell: Option<FilterValue>)
    requires
        readable(*view),
        i < view.spec_length(),
    ensures
        reads_as(cell, *view, i as int),
{
    let t = view.data_type();
    let (segment, j) = match view.locate(i) {
        Some(found) => found,
        None => {
            return None;
        },
    };
    let valid = match segment.validity() {
        Some(v) => j < v.len() && v.is_valid(j),
        None => true,
    };
    if !valid {
        return None;
    }
    if t == DataType::Utf8 {
        assert(text_ready(*view, i as int));
        return match view.string_at(i) {
            Some(s) => Some(FilterValue::String(s.to_owned())),
            None => None,
        };
    }
    let ghost width = t.width();
    proof {
        column::lemma_row_in_end(view.spec_segments(), i as int);
        let m = choose|m: int|
            0 <= m < view.spec_segments().len() && view.spec_segments()[m] == segment;
        assert(view.spec_segments()[m].spec_values() is Fixed);
        assert(column::cuttable(
            view.spec_segments()[m],
            width,
            segment.spec_rows() as int,
        ));
        lemma_row_fits(j as int, segment.spec_rows() as int, width as int);
    }
    match segment.fixed_bytes() {
        Some(bytes) => {
            let size: usize = t.size_of();
            assert(bytes@.len() == bytes.len());
            let cell = stats::read_value(t, bytes, j * size);
            cell
        },
        None => None,
    }
}

proof fn lemma_row_fits(j: int, rows: int, width: int)
    by (nonlinear_arith)
    requires
        0 <= j < rows,
        0 <= width,
    ensures
        0 <= j * width,
        (j + 1) * width == j * width + width,
        (j + 1) * width <= rows * width,
{
}

/// Reads a column row by row.
pub fn read_cells(view: &ColumnView<'_>) -> (cells: Vec<Option<FilterValue>>)
    requires
        readable(*view),
    ensures
        cells@.len() == view.spec_length(),
        forall|i: int| 0 <= i < cells@.len() ==> reads_as(#[trigger] cells@[i], *view, i),
{
    let mut cells: Vec<Option<FilterValue>> = Vec::new();
    let rows: usize = view.length();
    let mut i: usize = 0;
    while i < rows
        invariant
            i <= rows,
            rows == view.spec_length(),
            readable(*view),
            cells@.len() == i,
            forall|j: int| 0 <= j < i ==> reads_as(#[trigger] cells@[j], *view, j),
        decreases rows - i,
    {
        cells.push(read_cell(view, i));
        i += 1;
    }
    cells
}

/// The bytes that spell a value; none for text, which has its dictionary.
pub open spec fn value_bytes(v: FilterValue) -> Seq<u8> {
    match v {
        FilterValue::Bool(b) => seq![if b {
            1u8
        } else {
            0u8
        }],
        FilterValue::Int8(x) => le::le_bytes(x.bits(), 1),
        FilterValue::Int16(x) => le::le_bytes(x.bits(), 2),
        FilterValue::Int32(x) => le::le_bytes(x.bits(), 4),
        FilterValue::Int64(x) => le::le_bytes(x.bits(), 8),
        FilterValue::UInt8(x) => le::le_bytes(x.bits(), 1),
        FilterValue::UInt16(x) => le::le_bytes(x.bits(), 2),
        FilterValue::UInt32(x) => le::le_bytes(x.bits(), 4),
        FilterValue::UInt64(x) => le::le_bytes(x.bits(), 8),
        FilterValue::Float32(x) => le::le_bytes(x.bits(), 4),
        FilterValue::Float64(x) => le::le_bytes(x.bits(), 8),
        FilterValue::Date32(x) => le::le_bytes(x.bits(), 4),
        FilterValue::Date64(x) => le::le_bytes(x.bits(), 8),
        FilterValue::TimestampUs(x) => le::le_bytes(x.bits(), 8),
        FilterValue::String(_) => Seq::empty(),
    }
}

/// The type that stores a value.
pub open spec fn type_of(v: FilterValue) -> DataType {
    match v {
        FilterValue::Bool(_) => DataType::Bool,
        FilterValue::Int8(_) => DataType::Int8,
        FilterValue::Int16(_) => DataType::Int16,
        FilterValue::Int32(_) => DataType::Int32,
        FilterValue::Int64(_) => DataType::Int64,
        FilterValue::UInt8(_) => DataType::UInt8,
        FilterValue::UInt16(_) => DataType::UInt16,
        FilterValue::UInt32(_) => DataType::UInt32,
        FilterValue::UInt64(_) => DataType::UInt64,
        FilterValue::Float32(_) => DataType::Float32,
        FilterValue::Float64(_) => DataType::Float64,
        FilterValue::Date32(_) => DataType::Date32,
        FilterValue::Date64(_) => DataType::Date64,
        FilterValue::TimestampUs(_) => DataType::TimestampUs,
        FilterValue::String(_) => DataType::Utf8,
    }
}

fn put_cell(v: &FilterValue, out: &mut Vec<u8>)
    ensures
        final(out)@ == old(out)@ + value_bytes(*v),
{
    match v {
        FilterValue::Bool(b) => {
            let byte: u8 = if *b {
                1
            } else {
                0
            };
            out.push(byte);
            assert(out@ =~= old(out)@ + value_bytes(*v));
        },
        FilterValue::Int8(x) => x.put(out),
        FilterValue::Int16(x) => x.put(out),
        FilterValue::Int32(x) => x.put(out),
        FilterValue::Int64(x) => x.put(out),
        FilterValue::UInt8(x) => x.put(out),
        FilterValue::UInt16(x) => x.put(out),
        FilterValue::UInt32(x) => x.put(out),
        FilterValue::UInt64(x) => x.put(out),
        FilterValue::Float32(x) => x.put(out),
        FilterValue::Float64(x) => x.put(out),
        FilterValue::Date32(x) => x.put(out),
        FilterValue::Date64(x) => x.put(out),
        FilterValue::TimestampUs(x) => x.put(out),
        FilterValue::String(_) => {
            assert(out@ =~= old(out)@ + value_bytes(*v));
        },
    }
}

proof fn lemma_signed_8(x: i8)
    ensures
        le::le_signed(le::le_bytes(x.bits(), 1)) == x,
{
    broadcast use le::lemma_le_bytes_len;

    le::lemma_le_limits();
    x.lemma_bits_fit();
    le::lemma_le_value_of_bytes(x.bits(), 1);
    assert((x as u8) as int == if x < 0 {
        x + 0x100
    } else {
        x as int
    }) by (bit_vector);
}

proof fn lemma_signed_16(x: i16)
    ensures
        le::le_signed(le::le_bytes(x.bits(), 2)) == x,
{
    broadcast use le::lemma_le_bytes_len;

    le::lemma_le_limits();
    x.lemma_bits_fit();
    le::lemma_le_value_of_bytes(x.bits(), 2);
    assert((x as u16) as int == if x < 0 {
        x + 0x1_0000
    } else {
        x as int
    }) by (bit_vector);
}

proof fn lemma_signed_32(x: i32)
    ensures
        le::le_signed(le::le_bytes(x.bits(), 4)) == x,
{
    broadcast use le::lemma_le_bytes_len;

    le::lemma_le_limits();
    x.lemma_bits_fit();
    le::lemma_le_value_of_bytes(x.bits(), 4);
    assert((x as u32) as int == if x < 0 {
        x + 0x1_0000_0000
    } else {
        x as int
    }) by (bit_vector);
}

proof fn lemma_signed_64(x: i64)
    ensures
        le::le_signed(le::le_bytes(x.bits(), 8)) == x,
{
    broadcast use le::lemma_le_bytes_len;

    le::lemma_le_limits();
    x.lemma_bits_fit();
    le::lemma_le_value_of_bytes(x.bits(), 8);
    assert((x as u64) as int == if x < 0 {
        x + 0x1_0000_0000_0000_0000
    } else {
        x as int
    }) by (bit_vector);
}

/// A value that was written is read back.
pub proof fn law_value_read_back(v: FilterValue)
    requires
        v !is String,
    ensures
        stats::value_of(type_of(v), value_bytes(v)) == Some(v),
        value_bytes(v).len() == type_of(v).width(),
{
    broadcast use le::lemma_le_bytes_len;

    le::lemma_le_limits();
    match v {
        FilterValue::Bool(_) => {},
        FilterValue::Int8(x) => lemma_signed_8(x),
        FilterValue::Int16(x) => lemma_signed_16(x),
        FilterValue::Int32(x) => lemma_signed_32(x),
        FilterValue::Int64(x) => lemma_signed_64(x),
        FilterValue::UInt8(x) => {
            le::lemma_le_value_of_bytes(x.bits(), 1);
            le::lemma_le_one(value_bytes(v));
        },
        FilterValue::UInt16(x) => le::lemma_le_value_of_bytes(x.bits(), 2),
        FilterValue::UInt32(x) => le::lemma_le_value_of_bytes(x.bits(), 4),
        FilterValue::UInt64(x) => le::lemma_le_value_of_bytes(x.bits(), 8),
        FilterValue::Float32(x) => le::lemma_le_value_of_bytes(x.bits(), 4),
        FilterValue::Float64(x) => le::lemma_le_value_of_bytes(x.bits(), 8),
        FilterValue::Date32(x) => lemma_signed_32(x),
        FilterValue::Date64(x) => lemma_signed_64(x),
        FilterValue::TimestampUs(x) => lemma_signed_64(x),
        FilterValue::String(_) => {},
    }
}

/// Values of one type, any of them missing.
pub open spec fn typed(cells: Seq<Option<FilterValue>>, t: DataType) -> bool {
    forall|i: int| 0 <= i < cells.len() ==> (#[trigger] cells[i] matches Some(v) ==> type_of(v) == t)
}

/// The bytes of a value; zeros where it is missing.
pub open spec fn cell_bytes(cell: Option<FilterValue>, t: DataType) -> Seq<u8> {
    match cell {
        Some(v) => value_bytes(v),
        None => Seq::new(t.width(), |b: int| 0u8),
    }
}

/// The bytes of each value.
pub open spec fn cell_parts(cells: Seq<Option<FilterValue>>, t: DataType) -> Seq<Seq<u8>> {
    Seq::new(cells.len(), |i: int| cell_bytes(cells[i], t))
}

/// Parts of one width stand at multiples of it.
pub proof fn lemma_even_parts(parts: Seq<Seq<u8>>, width: nat, k: int)
    requires
        forall|i: int| 0 <= i < parts.len() ==> (#[trigger] parts[i]).len() == width,
        0 <= k <= parts.len(),
    ensures
        buffer::concat(parts.take(k)).len() == k * width,
        k < parts.len() ==> buffer::group(buffer::concat(parts), k, width) == parts[k],
    decreases k,
{
    if k > 0 {
        lemma_even_parts(parts, width, k - 1);
        buffer::lemma_concat_part(parts, k - 1);
        assert((k - 1) * width + width == k * width) by (nonlinear_arith);
    } else {
        assert(parts.take(0) =~= Seq::empty());
        assert(0 * width == 0) by (nonlinear_arith);
    }
    if k < parts.len() {
        buffer::lemma_concat_part(parts, k);
        assert((k + 1) * width == k * width + width) by (nonlinear_arith);
    }
}

/// Puts values of a fixed width one after the other.
fn pack_cells(cells: &Vec<Option<FilterValue>>, t: DataType) -> (out: Vec<u8>)
    ensures
        out@ == buffer::concat(cell_parts(cells@, t)),
{
    let mut out: Vec<u8> = Vec::new();
    let size: usize = t.size_of();
    let ghost parts = cell_parts(cells@, t);
    let mut i: usize = 0;
    assert(parts.take(0) =~= Seq::empty());
    while i < cells.len()
        invariant
            i <= cells@.len(),
            size == t.width(),
            parts == cell_parts(cells@, t),
            out@ == buffer::concat(parts.take(i as int)),
        decreases cells.len() - i,
    {
        let ghost before = out@;
        assert(parts.take(i + 1).drop_last() =~= parts.take(i as int));
        match &cells[i] {
            Some(v) => {
                put_cell(v, &mut out);
            },
            None => {
                let mut b: usize = 0;
                while b < size
                    invariant
                        b <= size,
                        out@ == before + Seq::new(b as nat, |b: int| 0u8),
                    decreases size - b,
                {
                    out.push(0);
                    b += 1;
                    assert(out@ =~= before + Seq::new(b as nat, |b: int| 0u8));
                }
            },
        }
        assert(out@ =~= before + parts[i as int]);
        i += 1;
    }
    assert(parts.take(i as int) =~= parts);
    out
}

/// A bit for each value that is not missing; no bits where none is missing.
pub open spec fn marks(out: Option<Bitmap>, cells: Seq<Option<FilterValue>>) -> bool {
    if forall|i: int| 0 <= i < cells.len() ==> #[trigger] cells[i] is Some {
        out is None
    } else {
        out matches Some(v) && v.wf() && v@ == Seq::new(cells.len(), |i: int| cells[i] is Some)
    }
}

fn mark_cells(cells: &Vec<Option<FilterValue>>) -> (out: Option<Bitmap>)
    ensures
        marks(out, cells@),
{
    let mut bits = Bitmap::ones(cells.len());
    let mut missing: bool = false;
    let mut i: usize = 0;
    while i < cells.len()
        invariant
            i <= cells@.len(),
            bits.wf(),
            bits@.len() == cells@.len(),
            forall|j: int| 0 <= j < i ==> #[trigger] bits@[j] == (cells@[j] is Some),
            forall|j: int| i <= j < cells@.len() ==> #[trigger] bits@[j],
            missing == (exists|j: int| 0 <= j < i && #[trigger] cells@[j] is None),
        decreases cells.len() - i,
    {
        if cells[i].is_none() {
            bits.set(i, false);
            missing = true;
            assert(cells@[i as int] is None);
        }
        i += 1;
    }
    if missing {
        assert(bits@ =~= Seq::new(cells@.len(), |i: int| cells@[i] is Some));
        Some(bits)
    } else {
        None
    }
}

/// The text of a value.
pub open spec fn cell_text(cell: Option<FilterValue>) -> Option<Seq<char>> {
    match cell {
        Some(FilterValue::String(s)) => Some(s@),
        _ => None,
    }
}

/// Some value is that text.
pub open spec fn occurs(cells: Seq<Option<FilterValue>>, t: Seq<char>) -> bool {
    exists|i: int| 0 <= i < cells.len() && cell_text(#[trigger] cells[i]) == Some(t)
}

/// Texts in order, each once.
pub open spec fn ascending(list: Seq<Seq<char>>) -> bool {
    forall|i: int, j: int|
        0 <= i < j < list.len() ==> text::text_before(#[trigger] list[i], #[trigger] list[j])
}

/// The texts that occur, in order, each once.
pub open spec fn is_dictionary(list: Seq<Seq<char>>, cells: Seq<Option<FilterValue>>) -> bool {
    &&& ascending(list)
    &&& forall|t: Seq<char>| #[trigger] list.contains(t) == occurs(cells, t)
}

/// There is one dictionary for given values.
pub proof fn law_one_dictionary(
    a: Seq<Seq<char>>,
    b: Seq<Seq<char>>,
    cells: Seq<Option<FilterValue>>,
)
    requires
        is_dictionary(a, cells),
        is_dictionary(b, cells),
    ensures
        a == b,
{
    lemma_same_members(a, b);
}

/// Ascending lists with the same members are equal.
pub proof fn lemma_same_members(a: Seq<Seq<char>>, b: Seq<Seq<char>>)
    requires
        ascending(a),
        ascending(b),
        forall|t: Seq<char>| #[trigger] a.contains(t) == b.contains(t),
    ensures
        a == b,
    decreases a.len(),
{
    if a.len() == 0 {
        if b.len() > 0 {
            assert(b.contains(b[0]));
            assert(a.contains(b[0]));
        }
        assert(a =~= b);
    } else {
        assert(a.contains(a.last()));
        assert(b.contains(a.last()));
        let j = b.index_of(a.last());
        assert(b.contains(b.last()));
        assert(a.contains(b.last()));
        let i = a.index_of(b.last());
        if a.last() != b.last() {
            assert(i < a.len() - 1);
            assert(j < b.len() - 1);
            assert(text::text_before(a[i], a[a.len() - 1]));
            assert(text::text_before(b[j], b[b.len() - 1]));
            text::lemma_text_before_order(a.last(), b.last());
        }
        let a0 = a.drop_last();
        let b0 = b.drop_last();
        assert forall|t: Seq<char>| #[trigger] a0.contains(t) == b0.contains(t) by {
            lemma_drop_last_member(a, t);
            lemma_drop_last_member(b, t);
        }
        assert forall|i: int, j: int| 0 <= i < j < a0.len() implies text::text_before(
            #[trigger] a0[i],
            #[trigger] a0[j],
        ) by {
            assert(a0[i] == a[i] && a0[j] == a[j]);
        }
        assert forall|i: int, j: int| 0 <= i < j < b0.len() implies text::text_before(
            #[trigger] b0[i],
            #[trigger] b0[j],
        ) by {
            assert(b0[i] == b[i] && b0[j] == b[j]);
        }
        lemma_same_members(a0, b0);
        assert(a =~= a0.push(a.last()));
        assert(b =~= b0.push(b.last()));
    }
}

/// Without its last member an ascending list has all the others.
proof fn lemma_drop_last_member(a: Seq<Seq<char>>, t: Seq<char>)
    requires
        ascending(a),
        a.len() > 0,
    ensures
        a.drop_last().contains(t) == (a.contains(t) && t != a.last()),
{
    let a0 = a.drop_last();
    if a0.contains(t) {
        let i = a0.index_of(t);
        assert(a[i] == t);
        assert(text::text_before(a[i], a[a.len() - 1]));
        text::lemma_text_before_order(t, a.last());
    }
    if a.contains(t) && t != a.last() {
        let i = a.index_of(t);
        assert(a0[i] == t);
    }
}

/// Where a text stands in a dictionary, or where it would.
fn find_text(list: &Vec<String>, s: &str) -> (r: (usize, bool))
    requires
        ascending(text::texts(list@)),
    ensures
        r.0 <= list@.len(),
        r.1 == text::texts(list@).contains(s@),
        r.1 ==> r.0 < list@.len() && list@[r.0 as int]@ == s@,
        !r.1 ==> (forall|i: int|
            0 <= i < r.0 ==> text::text_before(#[trigger] text::texts(list@)[i], s@)) && (forall|
            i: int,
        |
            r.0 <= i < list@.len() ==> text::text_before(s@, #[trigger] text::texts(list@)[i])),
{
    let ghost all = text::texts(list@);
    let mut lo: usize = 0;
    let mut hi: usize = list.len();
    while lo < hi
        invariant
            lo <= hi <= list@.len(),
            all == text::texts(list@),
            ascending(all),
            forall|i: int| 0 <= i < lo ==> text::text_before(#[trigger] all[i], s@),
            forall|i: int| hi <= i < all.len() ==> text::text_before(s@, #[trigger] all[i]),
        decreases hi - lo,
    {
        let mid: usize = lo + (hi - lo) / 2;
        assert(all[mid as int] == list@[mid as int]@);
        match text::relate(list[mid].as_str(), s) {
            Relation::Before => {
                proof {
                    assert forall|i: int| 0 <= i < mid + 1 implies text::text_before(
                        #[trigger] all[i],
                        s@,
                    ) by {
                        if i < mid {
                            assert(text::text_before(all[i], all[mid as int]));
                            text::lemma_text_before_transitive(all[i], all[mid as int], s@);
                        }
                    }
                }
                lo = mid + 1;
            },
            Relation::Same => {
                assert(all.contains(s@));
                return (mid, true);
            },
            Relation::After => {
                proof {
                    assert forall|i: int| mid <= i < all.len() implies text::text_before(
                        s@,
                        #[trigger] all[i],
                    ) by {
                        if mid < i {
                            assert(text::text_before(all[mid as int], all[i]));
                            text::lemma_text_before_transitive(s@, all[mid as int], all[i]);
                        }
                    }
                }
                hi = mid;
            },
        }
    }
    proof {
        if all.contains(s@) {
            let i = all.index_of(s@);
            text::lemma_text_before_order(all[i], s@);
            if i < lo {
                assert(text::text_before(all[i], s@));
            } else {
                assert(text::text_before(s@, all[i]));
            }
        }
    }
    (lo, false)
}

/// Collects the texts that occur.
fn collect_texts(cells: &Vec<Option<FilterValue>>) -> (list: Vec<String>)
    ensures
        is_dictionary(text::texts(list@), cells@),
{
    let mut list: Vec<String> = Vec::new();
    let mut k: usize = 0;
    assert(forall|t: Seq<char>| !(#[trigger] text::texts(list@).contains(t)));
    while k < cells.len()
        invariant
            k <= cells@.len(),
            is_dictionary(text::texts(list@), cells@.take(k as int)),
        decreases cells.len() - k,
    {
        let ghost before = text::texts(list@);
        let ghost seen = cells@.take(k as int);
        let ghost next = cells@.take(k + 1);
        proof {
            assert forall|t: Seq<char>| occurs(next, t) == (occurs(seen, t) || cell_text(
                cells@[k as int],
            ) == Some(t)) by {
                if occurs(seen, t) {
                    let i = choose|i: int|
                        0 <= i < seen.len() && cell_text(#[trigger] seen[i]) == Some(t);
                    assert(next[i] == seen[i]);
                }
                if cell_text(cells@[k as int]) == Some(t) {
                    assert(next[k as int] == cells@[k as int]);
                }
                if occurs(next, t) {
                    let i = choose|i: int|
                        0 <= i < next.len() && cell_text(#[trigger] next[i]) == Some(t);
                    if i < k {
                        assert(seen[i] == next[i]);
                    }
                }
            }
        }
        if let Some(FilterValue::String(s)) = &cells[k] {
            let (at, found) = find_text(&list, s.as_str());
            if !found {
                list.insert(at, s.clone());
                proof {
                    let after = text::texts(list@);
                    let at = at as int;
                    assert(after =~= before.insert(at, s@));
                    assert forall|t: Seq<char>| #[trigger] after.contains(t) == (before.contains(t)
                        || t == s@) by {
                        if before.contains(t) {
                            let i = before.index_of(t);
                            if i < at {
                                assert(after[i] == t);
                            } else {
                                assert(after[i + 1] == t);
                            }
                        }
                        if t == s@ {
                            assert(after[at] == t);
                        }
                        if after.contains(t) {
                            let i = after.index_of(t);
                            if i < at {
                                assert(before[i] == t);
                            } else if i > at {
                                assert(before[i - 1] == t);
                            }
                        }
                    }
                    assert forall|i: int, j: int| 0 <= i < j < after.len() implies
                        text::text_before(#[trigger] after[i], #[trigger] after[j]) by {
                        let i0 = if i < at {
                            i
                        } else {
                            i - 1
                        };
                        let j0 = if j < at {
                            j
                        } else {
                            j - 1
                        };
                        if i != at && j != at {
                            assert(after[i] == before[i0] && after[j] == before[j0]);
                        } else if i == at {
                            assert(after[j] == before[j0]);
                        } else {
                            assert(after[i] == before[i]);
                        }
                    }
                }
            }
        }
        k += 1;
    }
    assert(cells@.take(k as int) =~= cells@);
    list
}

/// The bytes of each text of a dictionary.
pub open spec fn text_parts(list: Seq<Seq<char>>) -> Seq<Seq<u8>> {
    Seq::new(list.len(), |i: int| text_bytes(list[i]))
}

/// The key of a value: its place in the dictionary, or 0 where it is missing.
pub open spec fn key_for(list: Seq<Seq<char>>, cell: Option<FilterValue>) -> u32 {
    match cell_text(cell) {
        Some(t) => list.index_of(t) as u32,
        None => 0,
    }
}

/// The keys of values.
pub open spec fn keys_for(list: Seq<Seq<char>>, cells: Seq<Option<FilterValue>>) -> Seq<u32> {
    Seq::new(cells.len(), |i: int| key_for(list, cells[i]))
}

/// A column that holds values.
pub open spec fn holds_cells(out: Column, t: DataType, cells: Seq<Option<FilterValue>>) -> bool {
    &&& out.data_type == t
    &&& marks(out.validity, cells)
    &&& if t is Utf8 {
        exists|list: Seq<Seq<char>>|
            {
                &&& #[trigger] is_dictionary(list, cells)
                &&& out.values@ == column::u32_table(keys_for(list, cells))
                &&& out.dict matches Some(d) && d.offsets@ == column::u64_table(
                    buffer::starts(text_parts(list)),
                ) && d.strings@ == buffer::concat(text_parts(list))
            }
    } else {
        &&& out.dict is None
        &&& out.values@ == buffer::concat(cell_parts(cells, t))
    }
}

fn lay_out_texts(list: &Vec<String>) -> (out: (Vec<u64>, Vec<u8>))
    ensures
        out.0@ == buffer::starts(text_parts(text::texts(list@))),
        out.1@ == buffer::concat(text_parts(text::texts(list@))),
{
    let mut offsets: Vec<u64> = Vec::new();
    let mut strings: Vec<u8> = Vec::new();
    offsets.push(0);
    let ghost parts = text_parts(text::texts(list@));
    let mut k: usize = 0;
    assert(parts.take(0) =~= Seq::empty());
    while k < list.len()
        invariant
            k <= list@.len(),
            parts == text_parts(text::texts(list@)),
            strings@ == buffer::concat(parts.take(k as int)),
            offsets@.len() == k + 1,
            forall|i: int| 0 <= i <= k ==> #[trigger] offsets@[i] == buffer::starts(parts)[i],
        decreases list.len() - k,
    {
        let ghost before = strings@;
        assert(parts.take(k + 1).drop_last() =~= parts.take(k as int));
        strings.extend_from_slice(list[k].as_str().as_bytes());
        assert(strings@ =~= before + parts[k as int]);
        offsets.push(strings.len() as u64);
        k += 1;
    }
    assert(parts.take(k as int) =~= parts);
    assert(offsets@ =~= buffer::starts(parts));
    (offsets, strings)
}

/// Stores values as a column.  Texts go to a dictionary in text order.
pub fn column_of_cells(t: DataType, cells: &Vec<Option<FilterValue>>) -> (out: Column)
    requires
        typed(cells@, t),
        forall|list: Seq<Seq<char>>| #[trigger]
            is_dictionary(list, cells@) ==> list.len() <= 0x1_0000_0000,
    ensures
        holds_cells(out, t, cells@),
{
    let validity = mark_cells(cells);
    if t != DataType::Utf8 {
        return Column {
            data_type: t,
            values: Buffer::from_vec(pack_cells(cells, t)),
            validity,
            dict: None,
        };
    }
    let list = collect_texts(cells);
    let ghost texts = text::texts(list@);
    let (offsets, strings) = lay_out_texts(&list);
    let mut keys: Vec<u32> = Vec::new();
    let mut i: usize = 0;
    while i < cells.len()
        invariant
            i <= cells@.len(),
            texts == text::texts(list@),
            is_dictionary(texts, cells@),
            texts.len() <= 0x1_0000_0000,
            keys@.len() == i,
            forall|j: int| 0 <= j < i ==> #[trigger] keys@[j] == key_for(texts, cells@[j]),
        decreases cells.len() - i,
    {
        let key: u32 = match &cells[i] {
            Some(FilterValue::String(s)) => {
                let (at, _) = find_text(&list, s.as_str());
                proof {
                    assert(cell_text(cells@[i as int]) == Some(s@));
                    assert(occurs(cells@, s@));
                    assert(texts.contains(s@));
                    let j = texts.index_of(s@);
                    assert(texts[at as int] == s@);
                    text::lemma_text_before_order(s@, s@);
                    if at < j {
                        assert(text::text_before(texts[at as int], texts[j]));
                    }
                    if j < at {
                        assert(text::text_before(texts[j], texts[at as int]));
                    }
                }
                at as u32
            },
            _ => 0,
        };
        keys.push(key);
        i += 1;
    }
    assert(keys@ =~= keys_for(texts, cells@));
    Column {
        data_type: t,
        values: Buffer::from_vec(column::table_bytes(&keys)),
        validity,
        dict: Some(
            DictBuffers {
                offsets: Buffer::from_vec(column::table_bytes(&offsets)),
                strings: Buffer::from_vec(strings),
            },
        ),
    }
}

/// A column of a fixed width gives back the values that it was made of.
pub proof fn law_column_keeps_values(
    out: Column,
    t: DataType,
    cells: Seq<Option<FilterValue>>,
    i: int,
)
    requires
        holds_cells(out, t, cells),
        typed(cells, t),
        t !is Utf8,
        0 <= i < cells.len(),
    ensures
        cells[i] is Some ==> stats::value_of(t, buffer::group(out.values@, i, t.width()))
            == cells[i],
        out.values@.len() == cells.len() * t.width(),
        (out.validity matches Some(v) ==> v@[i] == (cells[i] is Some)),
        out.validity is None ==> cells[i] is Some,
{
    let parts = cell_parts(cells, t);
    assert forall|k: int| 0 <= k < parts.len() implies (#[trigger] parts[k]).len() == t.width() by {
        if let Some(v) = cells[k] {
            law_value_read_back(v);
        }
    }
    lemma_even_parts(parts, t.width(), i);
    lemma_even_parts(parts, t.width(), parts.len() as int);
    assert(parts.take(parts.len() as int) =~= parts);
    if let Some(v) = cells[i] {
        law_value_read_back(v);
    }
}

/// A column of text gives back the texts that it was made of, and marks those that are
/// missing.
pub proof fn law_column_keeps_text(out: Column, cells: Seq<Option<FilterValue>>, i: int)
    requires
        holds_cells(out, DataType::Utf8, cells),
        typed(cells, DataType::Utf8),
        out.dict matches Some(d) && d.strings@.len() <= u64::MAX,
        forall|list: Seq<Seq<char>>| #[trigger]
            is_dictionary(list, cells) ==> list.len() <= 0x1_0000_0000,
        0 <= i < cells.len(),
    ensures
        cell_text(cells[i]) matches Some(t) ==> (out.dict matches Some(d) && column::dict_entry(
            d.offsets@,
            d.strings@,
            column::key_at(out.values@, i) as int,
        ) == Some(text_bytes(t))),
        (out.validity matches Some(v) ==> v@[i] == (cell_text(cells[i]) is Some)),
        out.validity is None ==> cell_text(cells[i]) is Some,
{
    if cell_text(cells[i]) is Some {
        lemma_text_kept(out, cells, i);
    }
}

/// The key of a text points at it.
proof fn lemma_text_kept(out: Column, cells: Seq<Option<FilterValue>>, i: int)
    requires
        holds_cells(out, DataType::Utf8, cells),
        out.dict matches Some(d) && d.strings@.len() <= u64::MAX,
        forall|list: Seq<Seq<char>>| #[trigger]
            is_dictionary(list, cells) ==> list.len() <= 0x1_0000_0000,
        0 <= i < cells.len(),
        cell_text(cells[i]) is Some,
    ensures
        out.dict matches Some(d) && column::dict_entry(
            d.offsets@,
            d.strings@,
            column::key_at(out.values@, i) as int,
        ) == Some(text_bytes(cell_text(cells[i])->0)),
{
    let list = choose|list: Seq<Seq<char>>|
        {
            &&& #[trigger] is_dictionary(list, cells)
            &&& out.values@ == column::u32_table(keys_for(list, cells))
            &&& out.dict matches Some(d) && d.offsets@ == column::u64_table(
                buffer::starts(text_parts(list)),
            ) && d.strings@ == buffer::concat(text_parts(list))
        };
    let t = cell_text(cells[i])->0;
    assert(occurs(cells, t));
    assert(list.contains(t));
    let k = list.index_of(t);
    let keys = keys_for(list, cells);
    buffer::law_words_group(keys, i);
    assert(buffer::group(out.values@, i, 4) =~= out.values@.subrange(4 * i, 4 * i + 4));
    assert(column::key_at(out.values@, i) == k);
    gather::law_dict_written(text_parts(list), k);
}

/// Two values that cannot be told apart.
pub open spec fn same_cell(a: Option<FilterValue>, b: Option<FilterValue>) -> bool {
    match (a, b) {
        (Some(FilterValue::String(s)), Some(FilterValue::String(t))) => s@ == t@,
        _ => a == b,
    }
}

/// What is read from a column is what it was made of, missing values included.
pub proof fn law_column_reads_back(
    out: Column,
    view: ColumnView<'_>,
    t: DataType,
    cells: Seq<Option<FilterValue>>,
    i: int,
    cell: Option<FilterValue>,
)
    requires
        holds_cells(out, t, cells),
        typed(cells, t),
        out.dict matches Some(d) ==> d.strings@.len() <= u64::MAX,
        forall|list: Seq<Seq<char>>| #[trigger]
            is_dictionary(list, cells) ==> list.len() <= 0x1_0000_0000,
        dataview::views(view, out),
        0 <= i < cells.len(),
        reads_as(cell, view, i),
    ensures
        same_cell(cell, cells[i]),
{
    lemma_cells_length(out, t, cells);
    let segments = view.spec_segments();
    column::lemma_rows_before_step(segments, 0);
    column::lemma_row_in(segments, 0, i);
    if t is Utf8 {
        law_column_keeps_text(out, cells, i);
        if let Some(s) = cell_text(cells[i]) {
            assert(writing::sym_at(view, i) == Some(s)) by {
                utf8::encode_utf8_valid_utf8(s);
                utf8::encode_utf8_decode_utf8(s);
            }
        }
    } else {
        law_column_keeps_values(out, t, cells, i);
    }
}

/// Rows that were cut out of a column that can be read can be read.
pub proof fn law_cut_rows_readable(
    part: ColumnView<'_>,
    whole: ColumnView<'_>,
    offset: int,
    length: nat,
)
    requires
        column::rows_of(part, whole, offset, length),
        readable(whole),
        0 <= offset,
        offset + length <= whole.spec_length(),
        whole.spec_length() == column::total_rows(whole.spec_segments()),
    ensures
        readable(part),
{
    let segments = part.spec_segments();
    let width = part.spec_type().width();
    if part.spec_type() is Utf8 {
        assert forall|i: int| 0 <= i < part.spec_length() implies #[trigger] text_ready(
            part,
            i,
        ) by {
            assert(text_ready(whole, offset + i));
            assert(part.text_in_order(i) == whole.text_in_order(offset + i));
        }
    } else {
        assert forall|k: int| 0 <= k < segments.len() implies column::cuttable(
            #[trigger] segments[k],
            width,
            segments[k].spec_rows() as int,
        ) && segments[k].spec_values() is Fixed && (segments[k].spec_validity() matches Some(v)
            ==> v@.len() == segments[k].spec_rows()) by {
            assert(column::exact(segments[k], width));
            column::lemma_rows_before_step(segments, k);
            column::lemma_rows_before_monotone(segments, k + 1, segments.len() as int);
            let row = column::rows_before(segments, k) as int;
            column::lemma_row_in(segments, k, row);
            assert(part.fixed_at(row) == whole.fixed_at(offset + row));
            column::lemma_row_in_end(whole.spec_segments(), offset + row);
            let (s, j) = column::row_in(whole.spec_segments(), offset + row)->0;
            let m = choose|m: int|
                0 <= m < whole.spec_segments().len() && whole.spec_segments()[m] == s;
            assert(whole.spec_segments()[m].spec_values() is Fixed);
        }
    }
}

/// The type of a series of values.
#[derive(Debug)]
pub enum SeriesType {
    Boolean,
    Int8,
    Int16,
    Int32,
    Int64,
    UInt8,
    UInt16,
    UInt32,
    UInt64,
    Float32,
    Float64,
    Text,
    /// A type that cannot be stored, by its name.
    Other(String),
}

impl SeriesType {
    /// The type that stores the values.
    pub open spec fn stored(self) -> Option<DataType> {
        match self {
            SeriesType::Boolean => Some(DataType::Bool),
            SeriesType::Int8 => Some(DataType::Int8),
            SeriesType::Int16 => Some(DataType::Int16),
            SeriesType::Int32 => Some(DataType::Int32),
            SeriesType::Int64 => Some(DataType::Int64),
            SeriesType::UInt8 => Some(DataType::UInt8),
            SeriesType::UInt16 => Some(DataType::UInt16),
            SeriesType::UInt32 => Some(DataType::UInt32),
            SeriesType::UInt64 => Some(DataType::UInt64),
            SeriesType::Float32 => Some(DataType::Float32),
            SeriesType::Float64 => Some(DataType::Float64),
            SeriesType::Text => Some(DataType::Utf8),
            SeriesType::Other(_) => None,
        }
    }

    pub fn storage(&self) -> (r: Result<DataType, TableError>)
        ensures
            match self.stored() {
                Some(t) => r matches Ok(u) && u == t,
                None => *self matches SeriesType::Other(name) && (r matches Err(e) && e.says(
                    "unsupported polars dtype "@ + name@,
                )),
            },
    {
        match self {
            SeriesType::Boolean => Ok(DataType::Bool),
            SeriesType::Int8 => Ok(DataType::Int8),
            SeriesType::Int16 => Ok(DataType::Int16),
            SeriesType::Int32 => Ok(DataType::Int32),
            SeriesType::Int64 => Ok(DataType::Int64),
            SeriesType::UInt8 => Ok(DataType::UInt8),
            SeriesType::UInt16 => Ok(DataType::UInt16),
            SeriesType::UInt32 => Ok(DataType::UInt32),
            SeriesType::UInt64 => Ok(DataType::UInt64),
            SeriesType::Float32 => Ok(DataType::Float32),
            SeriesType::Float64 => Ok(DataType::Float64),
            SeriesType::Text => Ok(DataType::Utf8),
            SeriesType::Other(name) => {
                let mut message = String::new();
                message.append("unsupported polars dtype ");
                message.append(name.as_str());
                Err(TableError::Invalid(message))
            },
        }
    }

    /// The type in which stored values are shown: times as plain integers.
    pub open spec fn showing(t: DataType) -> SeriesType {
        match t {
            DataType::Bool => SeriesType::Boolean,
            DataType::Int8 => SeriesType::Int8,
            DataType::Int16 => SeriesType::Int16,
            DataType::Int32 | DataType::Date32 => SeriesType::Int32,
            DataType::Int64 | DataType::TimestampUs | DataType::Date64 => SeriesType::Int64,
            DataType::UInt8 => SeriesType::UInt8,
            DataType::UInt16 => SeriesType::UInt16,
            DataType::UInt32 => SeriesType::UInt32,
            DataType::UInt64 => SeriesType::UInt64,
            DataType::Float32 => SeriesType::Float32,
            DataType::Float64 => SeriesType::Float64,
            DataType::Utf8 => SeriesType::Text,
        }
    }

    pub fn for_stored(t: DataType) -> (s: Self)
        ensures
            s == SeriesType::showing(t),
    {
        match t {
            DataType::Bool => SeriesType::Boolean,
            DataType::Int8 => SeriesType::Int8,
            DataType::Int16 => SeriesType::Int16,
            DataType::Int32 | DataType::Date32 => SeriesType::Int32,
            DataType::Int64 | DataType::TimestampUs | DataType::Date64 => SeriesType::Int64,
            DataType::UInt8 => SeriesType::UInt8,
            DataType::UInt16 => SeriesType::UInt16,
            DataType::UInt32 => SeriesType::UInt32,
            DataType::UInt64 => SeriesType::UInt64,
            DataType::Float32 => SeriesType::Float32,
            DataType::Float64 => SeriesType::Float64,
            DataType::Utf8 => SeriesType::Text,
        }
    }
}

/// A named series of values.
#[derive(Debug)]
pub struct NamedSeries {
    pub name: String,
    pub kind: SeriesType,
    pub cells: Vec<Option<FilterValue>>,
}

/// The values of a series can be stored.
pub open spec fn storable(s: NamedSeries) -> bool {
    &&& s.kind.stored() matches Some(t) ==> typed(s.cells@, t)
    &&& forall|list: Seq<Seq<char>>| #[trigger]
        is_dictionary(list, s.cells@) ==> list.len() <= 0x1_0000_0000
}

/// Series `i` is the first that cannot be stored.
pub open spec fn first_unstored(series: Seq<NamedSeries>, i: int) -> bool {
    &&& 0 <= i < series.len()
    &&& series[i].kind is Other
    &&& forall|j: int| 0 <= j < i ==> (#[trigger] series[j]).kind !is Other
}

/// All series have one length.
pub open spec fn one_length(series: Seq<NamedSeries>) -> bool {
    forall|i: int|
        0 <= i < series.len() ==> (#[trigger] series[i]).cells@.len() == series[0].cells@.len()
}

/// The column counts as many rows as it was given values.
proof fn lemma_cells_length(out: Column, t: DataType, cells: Seq<Option<FilterValue>>)
    requires
        holds_cells(out, t, cells),
        typed(cells, t),
    ensures
        out.spec_length() == cells.len(),
{
    if t is Utf8 {
        let list = choose|list: Seq<Seq<char>>|
            {
                &&& #[trigger] is_dictionary(list, cells)
                &&& out.values@ == column::u32_table(keys_for(list, cells))
            };
        buffer::lemma_words_len(keys_for(list, cells));
    } else {
        let parts = cell_parts(cells, t);
        assert forall|k: int| 0 <= k < parts.len() implies (#[trigger] parts[k]).len()
            == t.width() by {
            if let Some(v) = cells[k] {
                law_value_read_back(v);
            }
        }
        lemma_even_parts(parts, t.width(), parts.len() as int);
        assert(parts.take(parts.len() as int) =~= parts);
        let (n, w) = (cells.len() as int, t.width() as int);
        assert((n * w) / w == n) by (nonlinear_arith)
            requires
                w > 0,
        ;
    }
}

/// The lengths of series.
pub open spec fn series_lengths(series: Seq<NamedSeries>) -> Seq<nat> {
    Seq::new(series.len(), |i: int| series[i].cells@.len())
}

/// Stores named series as a table.
pub fn data_of_series(series: &[NamedSeries]) -> (r: Result<Data, TableError>)
    requires
        forall|i: int| 0 <= i < series@.len() ==> storable(#[trigger] series@[i]),
    ensures
        match r {
            Ok(data) => {
                &&& data.wf()
                &&& data.columns@.len() == series@.len()
                &&& one_length(series@)
                &&& forall|i: int|
                    0 <= i < series@.len() ==> #[trigger] stores(data, series@, i)
            },
            Err(TableError::Format(FormatError::InvalidLayout(m))) => {
                &&& forall|j: int| 0 <= j < series@.len() ==> (#[trigger] series@[j]).kind !is Other
                &&& exists|i: int|
                    #[trigger] dataview::first_odd(series_lengths(series@), i) && m@
                        == dataview::length_message(
                        series@[i].name@,
                        series_lengths(series@)[i],
                        dataview::lengths_first(series_lengths(series@)),
                    )
            },
            Err(e) => exists|i: int|
                #[trigger] first_unstored(series@, i) && e.says(
                    "unsupported polars dtype "@ + series@[i].kind->Other_0@,
                ),
        },
{
    let mut fields: Vec<FieldSchema> = Vec::new();
    let mut columns: Vec<Column> = Vec::new();
    let mut k: usize = 0;
    while k < series.len()
        invariant
            k <= series@.len(),
            forall|i: int| 0 <= i < series@.len() ==> storable(#[trigger] series@[i]),
            fields@.len() == k,
            columns@.len() == k,
            forall|i: int| 0 <= i < k ==> (#[trigger] series@[i]).kind !is Other,
            forall|i: int|
                0 <= i < k ==> #[trigger] stored_as(fields@[i], columns@[i], series@[i]),
        decreases series.len() - k,
    {
        let one = &series[k];
        assert(storable(series@[k as int]));
        let t = match one.kind.storage() {
            Ok(t) => t,
            Err(e) => {
                assert(first_unstored(series@, k as int));
                return Err(e);
            },
        };
        let column = column_of_cells(t, &one.cells);
        proof {
            lemma_cells_length(column, t, one.cells@);
        }
        let ghost (fields0, columns0) = (fields@, columns@);
        fields.push(FieldSchema::new(one.name.as_str(), t));
        columns.push(column);
        proof {
            assert forall|i: int| 0 <= i < k + 1 implies #[trigger] stored_as(
                fields@[i],
                columns@[i],
                series@[i],
            ) by {
                if i < k {
                    assert(stored_as(fields0[i], columns0[i], series@[i]));
                }
            }
        }
        k += 1;
    }
    proof {
        let lengths = Data::lengths(columns@);
        assert forall|i: int| 0 <= i < series@.len() implies #[trigger] lengths[i]
            == series@[i].cells@.len() by {
            assert(stored_as(fields@[i], columns@[i], series@[i]));
        }
        assert(lengths =~= series_lengths(series@));
        assert(dataview::uniform(lengths) == one_length(series@)) by {
            if dataview::uniform(lengths) {
                assert forall|i: int| 0 <= i < series@.len() implies (
                #[trigger] series@[i]).cells@.len() == series@[0].cells@.len() by {
                    assert(lengths[i] == dataview::lengths_first(lengths));
                    assert(lengths[0] == series@[0].cells@.len());
                }
            }
            if one_length(series@) {
                assert forall|i: int| 0 <= i < lengths.len() implies #[trigger] lengths[i]
                    == dataview::lengths_first(lengths) by {
                    assert(lengths[i] == series@[i].cells@.len());
                    assert(lengths[0] == series@[0].cells@.len());
                }
            }
        }
    }
    let schema = Schema::new(fields);
    match Data::new(schema, columns) {
        Ok(data) => {
            proof {
                assert forall|i: int| 0 <= i < series@.len() implies #[trigger] stores(
                    data,
                    series@,
                    i,
                ) by {
                    assert(stored_as(fields@[i], columns@[i], series@[i]));
                }
            }
            Ok(data)
        },
        Err(e) => {
            proof {
                let lengths = Data::lengths(columns@);
                let i = choose|i: int| #[trigger]
                    dataview::first_odd(lengths, i) && e->InvalidLayout_0@
                        == dataview::length_message(
                        schema.fields@[i].name@,
                        lengths[i],
                        dataview::lengths_first(lengths),
                    );
                assert(stored_as(fields@[i], columns@[i], series@[i]));
                assert(dataview::first_odd(series_lengths(series@), i));
            }
            Err(TableError::Format(e))
        },
    }
}

/// The field and the column of a series.
pub open spec fn stored_as(field: FieldSchema, column: Column, s: NamedSeries) -> bool {
    s.kind.stored() matches Some(t) && field.name@ == s.name@ && field.data_type == t
        && holds_cells(column, t, s.cells@) && column.spec_length() == s.cells@.len()
}

/// Column `i` of a table is that series.
pub open spec fn stores(data: Data, series: Seq<NamedSeries>, i: int) -> bool {
    stored_as(data.schema.fields@[i], data.columns@[i], series[i])
}

/// A series is read from a column.
pub open spec fn read_from(s: NamedSeries, name: Seq<char>, view: ColumnView<'_>) -> bool {
    &&& s.name@ == name
    &&& s.kind == SeriesType::showing(view.spec_type())
    &&& s.cells@.len() == view.spec_length()
    &&& forall|i: int| 0 <= i < s.cells@.len() ==> reads_as(#[trigger] s.cells@[i], view, i)
}

/// Series `k` is read from the first column with its name.
pub open spec fn reads_named(series: Seq<NamedSeries>, view: DataView<'_>, k: int) -> bool {
    exists|i: int| #[trigger]
        schema::first_named(view.schema.fields@, view.schema.fields@[k].name@, i) && read_from(
            series[k],
            view.schema.fields@[k].name@,
            view.columns@[i],
        )
}

/// Reads a table as named series, one for each field.
pub fn series_of_view(view: &DataView<'_>) -> (series: Vec<NamedSeries>)
    requires
        view.wf(),
        forall|i: int| 0 <= i < view.columns@.len() ==> readable(#[trigger] view.columns@[i]),
    ensures
        series@.len() == view.schema.fields@.len(),
        forall|k: int| 0 <= k < series@.len() ==> #[trigger] reads_named(series@, *view, k),
{
    let mut series: Vec<NamedSeries> = Vec::new();
    let mut k: usize = 0;
    while k < view.schema.fields.len()
        invariant
            k <= view.schema.fields@.len(),
            view.wf(),
            forall|i: int| 0 <= i < view.columns@.len() ==> readable(#[trigger] view.columns@[i]),
            series@.len() == k,
            forall|j: int| 0 <= j < k ==> #[trigger] reads_named(series@, *view, j),
        decreases view.schema.fields.len() - k,
    {
        let name = view.schema.fields[k].name.as_str();
        assert(schema::has_name(view.schema.fields@, name@));
        if let Some(column) = view.column(name) {
            let ghost before = series@;
            series.push(
                NamedSeries {
                    name: name.to_owned(),
                    kind: SeriesType::for_stored(column.data_type()),
                    cells: read_cells(column),
                },
            );
            proof {
                assert forall|j: int| 0 <= j < k + 1 implies #[trigger] reads_named(
                    series@,
                    *view,
                    j,
                ) by {
                    if j < k {
                        assert(reads_named(before, *view, j));
                        assert(series@[j] == before[j]);
                    }
                }
            }
        }
        k += 1;
    }
    series
}

/// A series is shown as the type it is stored as; of types that no series has, dates and times
/// are shown as whole numbers of their width.
pub proof fn law_series_types(kind: SeriesType, t: DataType)
    ensures
        kind.stored() == Some(t) ==> SeriesType::showing(t) == kind,
        kind is Other <==> kind.stored() is None,
        SeriesType::showing(t).stored() matches Some(u) && u.width() == t.width() && (u == t || (t
            is Date32 && u is Int32) || (t is Date64 && u is Int64) || (t is TimestampUs && u
            is Int64)),
{
}

/// The texts of a column stand in its dictionary in the order of their bytes, each once, and
/// no others do.
pub proof fn law_dictionary_in_order(
    list: Seq<Seq<char>>,
    cells: Seq<Option<FilterValue>>,
    i: int,
    j: int,
    c: int,
)
    requires
        is_dictionary(list, cells),
        0 <= i < j < list.len(),
    ensures
        text::bytes_before(utf8::encode_utf8(list[i]), utf8::encode_utf8(list[j])),
        exists|k: int|
            0 <= k < cells.len() && ((#[trigger] cells[k]) matches Some(FilterValue::String(s))
                && s@ == list[i]),
        0 <= c < cells.len() ==> (cells[c] matches Some(FilterValue::String(s)) ==> list.contains(
            s@,
        )),
{
    assert(list.contains(list[i]));
    let k = choose|k: int| 0 <= k < cells.len() && cell_text(#[trigger] cells[k]) == Some(list[i]);
    assert(cells[k] is Some);
    if 0 <= c < cells.len() {
        if let Some(FilterValue::String(s)) = cells[c] {
            assert(cell_text(cells[c]) == Some(s@));
            assert(occurs(cells, s@));
        }
    }
}

/// A series that is stored and read again is the same series: it has the name and the type
/// that it had, and in each row the value that it had there, or none where it had none.
pub proof fn law_series_kept(
    field: FieldSchema,
    column: Column,
    view: ColumnView<'_>,
    s: NamedSeries,
    r: NamedSeries,
    i: int,
)
    requires
        stored_as(field, column, s),
        storable(s),
        column.dict matches Some(d) ==> d.strings@.len() <= u64::MAX,
        dataview::views(view, column),
        read_from(r, field.name@, view),
    ensures
        r.name@ == s.name@,
        r.kind == s.kind,
        r.cells@.len() == s.cells@.len(),
        0 <= i < s.cells@.len() ==> same_cell(r.cells@[i], s.cells@[i]),
        0 <= i < s.cells@.len() ==> (r.cells@[i] is Some <==> s.cells@[i] is Some),
{
    let t = s.kind.stored()->0;
    law_series_types(s.kind, t);
    if 0 <= i < s.cells@.len() {
        assert(reads_as(r.cells@[i], view, i));
        law_column_reads_back(column, view, t, s.cells@, i, r.cells@[i]);
    }
}

/// The same cells are the same values: numbers that are equal, texts with the same letters,
/// or nothing in both.
pub proof fn law_same_cells(a: Option<FilterValue>, b: Option<FilterValue>)
    ensures
        same_cell(a, b) ==> (a is None <==> b is None),
        a matches Some(FilterValue::String(s)) ==> (same_cell(a, b) <==> (b matches Some(
            FilterValue::String(t),
        ) && s@ == t@)),
        !(a matches Some(FilterValue::String(_))) ==> (same_cell(a, b) <==> a == b),
{
}

/// The columns of a frame are read from the first columns of their names.
pub proof fn law_first_column_read(series: Seq<NamedSeries>, view: DataView<'_>, k: int, j: int)
    requires
        reads_named(series, view, k),
        0 <= j < view.schema.fields@.len(),
        view.schema.fields@[j].name@ == view.schema.fields@[k].name@,
        forall|n: int|
            0 <= n < j ==> #[trigger] view.schema.fields@[n].name@ != view.schema.fields@[k].name@,
    ensures
        series[k].name@ == view.schema.fields@[k].name@,
        series[k].cells@.len() == view.columns@[j].spec_length(),
        forall|i: int|
            0 <= i < series[k].cells@.len() ==> reads_as(
                #[trigger] series[k].cells@[i],
                view.columns@[j],
                i,
            ),
{
    let name = view.schema.fields@[k].name@;
    let n = choose|n: int| #[trigger]
        schema::first_named(view.schema.fields@, name, n) && read_from(
            series[k],
            name,
            view.columns@[n],
        );
    if n < j {
        assert(view.schema.fields@[n].name@ != name);
    }
    if j < n {
        assert(view.schema.fields@[j].name@ != name);
    }
}

} // verus!

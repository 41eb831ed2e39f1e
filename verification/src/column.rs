//! Columns: values in one or more runs of bytes, with their validity.

use vstd::prelude::*;
use vstd::slice::slice_subrange;
use vstd::string::*;
use crate::bitmap;
use crate::bitmap::{Bitmap, BitmapView};
use crate::buffer::{Buffer, BufferView};
use crate::error::FormatError;
use crate::le;
use crate::text;
use crate::types::DataType;

verus! {

/// How a segment holds its values.
#[derive(Debug, Clone, Copy)]
pub enum ColumnValues<'a> {
    /// Values of a fixed width, one after the other.
    Fixed(BufferView<'a>),
    /// Text: one `u32` key per row into a dictionary, whose entry `k` is the text
    /// between the `u64` offsets `k` and `k + 1`.
    Dict { keys: BufferView<'a>, dict_offsets: BufferView<'a>, dict_strings: BufferView<'a> },
    /// The same dictionary entry in every row.
    RepeatDict { dict_offsets: BufferView<'a>, dict_strings: BufferView<'a>, dict_index: u32 },
}

/// The `u64` number `k` of an offset table.
pub open spec fn offset_at(offsets: Seq<u8>, k: int) -> nat {
    le::le_value(offsets.subrange(8 * k, 8 * k + 8))
}

/// Bytes of a dictionary entry; there is none where its offsets are missing, cross
/// each other or point behind the text.
pub open spec fn dict_entry(offsets: Seq<u8>, strings: Seq<u8>, key: int) -> Option<Seq<u8>> {
    if 0 <= key && 8 * key + 16 <= offsets.len() && offset_at(offsets, key) <= offset_at(
        offsets,
        key + 1,
    ) <= strings.len() {
        Some(
            strings.subrange(
                offset_at(offsets, key) as int,
                offset_at(offsets, key + 1) as int,
            ),
        )
    } else {
        None
    }
}

/// The offsets of a dictionary entry do not cross, unless they are missing or the
/// second points behind the text.
pub open spec fn dict_in_order(offsets: Seq<u8>, strings: Seq<u8>, key: int) -> bool {
    8 * key + 16 <= offsets.len() && offset_at(offsets, key + 1) <= strings.len() ==> offset_at(
        offsets,
        key,
    ) <= offset_at(offsets, key + 1)
}

/// A table of offsets: whole `u64` numbers, at least one.
pub open spec fn offsets_ok(offsets: Seq<u8>) -> bool {
    offsets.len() > 0 && offsets.len() % 8 == 0
}

/// The dictionary key of row `i`.
pub open spec fn key_at(keys: Seq<u8>, i: int) -> nat {
    le::le_value(keys.subrange(4 * i, 4 * i + 4))
}

impl<'a> ColumnValues<'a> {
    /// What row `i` holds: the bytes of its value, at `width` bytes per value of a
    /// fixed width, or those of its text.
    pub open spec fn cell(self, width: nat, i: int) -> Option<Seq<u8>> {
        match self {
            ColumnValues::Fixed(v) => Some(v@.subrange(i * width, (i + 1) * width)),
            ColumnValues::Dict { keys, dict_offsets, dict_strings } => dict_entry(
                dict_offsets@,
                dict_strings@,
                key_at(keys@, i) as int,
            ),
            ColumnValues::RepeatDict { dict_offsets, dict_strings, dict_index } => dict_entry(
                dict_offsets@,
                dict_strings@,
                dict_index as int,
            ),
        }
    }

    /// The text of row `i`; values of a fixed width are no text.
    pub open spec fn text_bytes(self, i: int) -> Option<Seq<u8>> {
        match self {
            ColumnValues::Fixed(_) => None,
            _ => self.cell(0, i),
        }
    }

    /// The dictionary entry of row `i`, if it is text, has its offsets in order.
    pub open spec fn text_in_order(self, i: int) -> bool {
        match self {
            ColumnValues::Fixed(_) => true,
            ColumnValues::Dict { keys, dict_offsets, dict_strings } => dict_in_order(
                dict_offsets@,
                dict_strings@,
                key_at(keys@, i) as int,
            ),
            ColumnValues::RepeatDict { dict_offsets, dict_strings, dict_index } => dict_in_order(
                dict_offsets@,
                dict_strings@,
                dict_index as int,
            ),
        }
    }

    /// Values, keys and offset tables have the lengths that `rows` rows ask for, at
    /// `width` bytes per value of a fixed width.
    pub open spec fn shaped(self, rows: nat, width: nat) -> bool {
        match self {
            ColumnValues::Fixed(v) => v@.len() == rows * width,
            ColumnValues::Dict { keys, dict_offsets, .. } => keys@.len() == rows * 4 && offsets_ok(
                dict_offsets@,
            ),
            ColumnValues::RepeatDict { dict_offsets, dict_index, .. } => offsets_ok(dict_offsets@)
                && 8 * dict_index + 16 <= dict_offsets@.len(),
        }
    }
}

/// Consecutive rows of a column.  Without a validity bitmap no row is missing.
#[derive(Debug, Clone, Copy)]
pub struct ColumnSegment<'a> {
    values: ColumnValues<'a>,
    validity: Option<BitmapView<'a>>,
    rows: usize,
    width: usize,
}

pub const NO_OFFSETS: &'static str = "dict offsets must be a non-empty multiple of 8 bytes";

impl<'a> ColumnSegment<'a> {
    #[verifier::type_invariant]
    spec fn inv(self) -> bool {
        self.values.shaped(self.rows as nat, self.width as nat)
    }

    pub closed spec fn spec_values(self) -> ColumnValues<'a> {
        self.values
    }

    pub closed spec fn spec_validity(self) -> Option<BitmapView<'a>> {
        self.validity
    }

    pub closed spec fn spec_rows(self) -> nat {
        self.rows as nat
    }

    /// Bytes per value of a fixed width, or per key of a text.
    pub closed spec fn spec_width(self) -> nat {
        self.width as nat
    }

    /// The bitmap, if there is one, has a bit for row `i`.
    pub open spec fn counted(self, i: int) -> bool {
        self.spec_validity() matches Some(v) ==> 0 <= i < v@.len()
    }

    /// Row `i` is marked as holding a value.
    pub open spec fn row_valid(self, i: int) -> bool {
        match self.spec_validity() {
            Some(v) => 0 <= i < v@.len() && v@[i],
            None => true,
        }
    }

    /// The bit at the place of row `i` in the bytes under the bitmap, also where the
    /// bitmap ends before it.
    pub open spec fn bit(self, i: int) -> bool {
        match self.spec_validity() {
            Some(v) => bitmap::bit_at(v.bytes(), v.offset() + i),
            None => true,
        }
    }

    /// Rows that the bitmap marks as missing.
    pub open spec fn missing(self) -> nat {
        match self.spec_validity() {
            Some(v) => (v@.len() - bitmap::ones(v@)) as nat,
            None => 0,
        }
    }

    /// Rows of a fixed width: `values` must hold exactly that many.
    pub fn new(
        data_type: DataType,
        values: BufferView<'a>,
        validity: Option<BitmapView<'a>>,
        rows: usize,
    ) -> (r: Result<Self, FormatError>)
        requires
            rows * data_type.width() <= usize::MAX,
        ensures
            match r {
                Ok(segment) => {
                    &&& values@.len() == rows * data_type.width()
                    &&& segment.spec_values() == ColumnValues::Fixed(values)
                    &&& segment.spec_validity() == validity
                    &&& segment.spec_rows() == rows
                    &&& segment.spec_width() == data_type.width()
                },
                Err(e) => {
                    &&& values@.len() != rows * data_type.width()
                    &&& e == FormatError::SizeMismatch {
                        expected: (rows * data_type.width()) as usize,
                        found: values@.len() as usize,
                    }
                },
            },
    {
        let width: usize = data_type.size_of();
        let expected: usize = rows * width;
        if values.len() != expected {
            return Err(FormatError::SizeMismatch { expected, found: values.len() });
        }
        Ok(ColumnSegment { values: ColumnValues::Fixed(values), validity, rows, width })
    }

    /// Rows that all hold entry `dict_index` of a dictionary.
    pub fn new_repeat_dict(
        dict_offsets: BufferView<'a>,
        dict_strings: BufferView<'a>,
        dict_index: u32,
        validity: Option<BitmapView<'a>>,
        rows: usize,
    ) -> (r: Result<Self, FormatError>)
        ensures
            match r {
                Ok(segment) => {
                    &&& offsets_ok(dict_offsets@)
                    &&& 8 * dict_index + 16 <= dict_offsets@.len()
                    &&& segment.spec_values() == (ColumnValues::RepeatDict {
                        dict_offsets,
                        dict_strings,
                        dict_index,
                    })
                    &&& segment.spec_validity() == validity
                    &&& segment.spec_rows() == rows
                    &&& segment.spec_width() == 4
                },
                Err(FormatError::InvalidLayout(message)) => {
                    if offsets_ok(dict_offsets@) {
                        &&& 8 * dict_index + 16 > dict_offsets@.len()
                        &&& message@ == "dict_index "@ + text::dec(dict_index as nat)
                            + " out of range"@
                    } else {
                        message@ == NO_OFFSETS@
                    }
                },
                Err(_) => false,
            },
    {
        if dict_offsets.is_empty() || dict_offsets.len() % 8 != 0 {
            return Err(FormatError::InvalidLayout(NO_OFFSETS.to_owned()));
        }
        if dict_index as u64 >= dict_offsets.len() as u64 / 8 - 1 {
            let mut message = String::new();
            message.append("dict_index ");
            text::push_dec(&mut message, dict_index as u64);
            message.append(" out of range");
            return Err(FormatError::InvalidLayout(message));
        }
        Ok(
            ColumnSegment {
                values: ColumnValues::RepeatDict { dict_offsets, dict_strings, dict_index },
                validity,
                rows,
                width: 4,
            },
        )
    }

    /// Rows of text with one dictionary key each.
    pub fn new_dict(
        keys: BufferView<'a>,
        dict_offsets: BufferView<'a>,
        dict_strings: BufferView<'a>,
        validity: Option<BitmapView<'a>>,
        rows: usize,
    ) -> (r: Result<Self, FormatError>)
        requires
            rows * 4 <= usize::MAX,
        ensures
            match r {
                Ok(segment) => {
                    &&& keys@.len() == rows * 4
                    &&& offsets_ok(dict_offsets@)
                    &&& segment.spec_values() == (ColumnValues::Dict {
                        keys,
                        dict_offsets,
                        dict_strings,
                    })
                    &&& segment.spec_validity() == validity
                    &&& segment.spec_rows() == rows
                    &&& segment.spec_width() == 4
                },
                Err(FormatError::SizeMismatch { expected, found }) => {
                    &&& keys@.len() != rows * 4
                    &&& expected == rows * 4
                    &&& found == keys@.len()
                },
                Err(FormatError::InvalidLayout(message)) => {
                    &&& keys@.len() == rows * 4
                    &&& !offsets_ok(dict_offsets@)
                    &&& message@ == NO_OFFSETS@
                },
                Err(_) => false,
            },
    {
        if keys.len() != rows * 4 {
            return Err(FormatError::SizeMismatch { expected: rows * 4, found: keys.len() });
        }
        if dict_offsets.is_empty() || dict_offsets.len() % 8 != 0 {
            return Err(FormatError::InvalidLayout(NO_OFFSETS.to_owned()));
        }
        Ok(
            ColumnSegment {
                values: ColumnValues::Dict { keys, dict_offsets, dict_strings },
                validity,
                rows,
                width: 4,
            },
        )
    }

    pub fn values(&self) -> (values: &ColumnValues<'a>)
        ensures
            *values == self.spec_values(),
            values.shaped(self.spec_rows(), self.spec_width()),
    {
        proof {
            use_type_invariant(self);
        }
        &self.values
    }

    /// The bytes of values of a fixed width.
    pub fn fixed_bytes(&self) -> (r: Option<&'a [u8]>)
        ensures
            match self.spec_values() {
                ColumnValues::Fixed(v) => r matches Some(bytes) && bytes@ == v@,
                _ => r is None,
            },
    {
        match &self.values {
            ColumnValues::Fixed(v) => Some(v.as_slice()),
            _ => None,
        }
    }

    pub fn validity(&self) -> (validity: Option<BitmapView<'a>>)
        ensures
            validity == self.spec_validity(),
    {
        self.validity
    }

    pub fn rows(&self) -> (rows: usize)
        ensures
            rows == self.spec_rows(),
    {
        self.rows
    }

    pub fn null_count(&self) -> (count: usize)
        ensures
            count == self.missing(),
    {
        match self.validity {
            Some(v) => v.null_count(),
            None => 0,
        }
    }
}

/// Rows of all segments together.
pub open spec fn total_rows(segments: Seq<ColumnSegment<'_>>) -> nat
    decreases segments.len(),
{
    if segments.len() == 0 {
        0
    } else {
        total_rows(segments.drop_last()) + segments.last().spec_rows()
    }
}

/// Rows before segment `k`.
pub open spec fn rows_before(segments: Seq<ColumnSegment<'_>>, k: int) -> nat {
    total_rows(segments.take(k))
}

/// Missing rows of all segments together.
pub open spec fn total_missing(segments: Seq<ColumnSegment<'_>>) -> nat
    decreases segments.len(),
{
    if segments.len() == 0 {
        0
    } else {
        total_missing(segments.drop_last()) + segments.last().missing()
    }
}

/// The segment that holds row `row`, and which of its rows that is.
pub open spec fn row_in<'a>(segments: Seq<ColumnSegment<'a>>, row: int) -> Option<
    (ColumnSegment<'a>, int),
>
    decreases segments.len(),
{
    if segments.len() == 0 || row < 0 {
        None
    } else {
        let front = total_rows(segments.drop_last());
        if row < front {
            row_in(segments.drop_last(), row)
        } else if row < front + segments.last().spec_rows() {
            Some((segments.last(), row - front))
        } else {
            None
        }
    }
}

/// Segment `k` ends where segment `k + 1` begins.
pub proof fn lemma_rows_before_step(segments: Seq<ColumnSegment<'_>>, k: int)
    requires
        0 <= k < segments.len(),
    ensures
        rows_before(segments, k + 1) == rows_before(segments, k) + segments[k].spec_rows(),
        rows_before(segments, 0) == 0,
        rows_before(segments, segments.len() as int) == total_rows(segments),
{
    assert(segments.take(k + 1).drop_last() =~= segments.take(k));
    assert(segments.take(k + 1).last() == segments[k]);
    assert(segments.take(segments.len() as int) =~= segments);
    assert(segments.take(0).len() == 0);
}

pub proof fn lemma_rows_before_monotone(segments: Seq<ColumnSegment<'_>>, j: int, k: int)
    requires
        0 <= j <= k <= segments.len(),
    ensures
        rows_before(segments, j) <= rows_before(segments, k),
    decreases k - j,
{
    if j < k {
        lemma_rows_before_monotone(segments, j, k - 1);
        lemma_rows_before_step(segments, k - 1);
    }
}

/// A row between the bounds of segment `k` is in that segment.
pub proof fn lemma_row_in(segments: Seq<ColumnSegment<'_>>, k: int, row: int)
    requires
        0 <= k < segments.len(),
        rows_before(segments, k) <= row < rows_before(segments, k + 1),
    ensures
        row_in(segments, row) == Some((segments[k], row - rows_before(segments, k))),
    decreases segments.len(),
{
    let front = segments.drop_last();
    assert(segments.take(segments.len() - 1) =~= front);
    lemma_rows_before_step(segments, segments.len() - 1);
    if k < segments.len() - 1 {
        assert(front.take(k) =~= segments.take(k));
        assert(front.take(k + 1) =~= segments.take(k + 1));
        lemma_rows_before_monotone(segments, k + 1, segments.len() - 1);
        lemma_row_in(front, k, row);
    }
}

/// No row is found at or behind the end.
pub proof fn lemma_row_in_end(segments: Seq<ColumnSegment<'_>>, row: int)
    ensures
        row_in(segments, row) is Some == (0 <= row < total_rows(segments)),
        row_in(segments, row) matches Some((s, i)) ==> 0 <= i < s.spec_rows() && segments.contains(
            s,
        ),
    decreases segments.len(),
{
    if segments.len() > 0 && row >= 0 {
        let front = segments.drop_last();
        lemma_row_in_end(front, row);
        if row < total_rows(front) {
            let (s, i) = row_in(front, row)->0;
            let j = choose|j: int| 0 <= j < front.len() && front[j] == s;
            assert(segments[j] == s);
        } else if row < total_rows(segments) {
            assert(segments[segments.len() - 1] == segments.last());
        }
    }
}

/// One column: segments in row order.
#[derive(Debug)]
pub struct ColumnView<'a> {
    data_type: DataType,
    segments: Vec<ColumnSegment<'a>>,
    length: usize,
}

impl<'a> Clone for ColumnView<'a> {
    fn clone(&self) -> (copy: Self)
        ensures
            copy.spec_type() == self.spec_type(),
            copy.spec_segments() == self.spec_segments(),
            copy.spec_length() == self.spec_length(),
    {
        proof {
            use_type_invariant(self);
        }
        let segments: Vec<ColumnSegment<'a>> = self.segments.clone();
        assert(segments@ =~= self.segments@);
        ColumnView { data_type: self.data_type, segments, length: self.length }
    }
}

pub const NO_SEGMENTS: &'static str = "ColumnView requires at least one segment";

impl<'a> ColumnView<'a> {
    #[verifier::type_invariant]
    spec fn inv(self) -> bool {
        self.segments@.len() > 0 && self.length == total_rows(self.segments@)
    }

    pub closed spec fn spec_type(self) -> DataType {
        self.data_type
    }

    pub closed spec fn spec_segments(self) -> Seq<ColumnSegment<'a>> {
        self.segments@
    }

    pub closed spec fn spec_length(self) -> nat {
        self.length as nat
    }

    /// What row `row` holds.
    pub open spec fn cell(self, row: int) -> Option<Seq<u8>> {
        match row_in(self.spec_segments(), row) {
            Some((segment, i)) => segment.spec_values().cell(self.spec_type().width(), i),
            None => None,
        }
    }

    /// Row `row` is marked as holding a value.
    pub open spec fn row_valid(self, row: int) -> bool {
        match row_in(self.spec_segments(), row) {
            Some((segment, i)) => segment.row_valid(i),
            None => false,
        }
    }

    /// The bitmap of row `row`, if there is one, has a bit for it.
    pub open spec fn counted(self, row: int) -> bool {
        match row_in(self.spec_segments(), row) {
            Some((segment, i)) => segment.counted(i),
            None => false,
        }
    }

    /// The bit at the place of row `row` in the bytes under its bitmap.
    pub open spec fn bit(self, row: int) -> bool {
        match row_in(self.spec_segments(), row) {
            Some((segment, i)) => segment.bit(i),
            None => false,
        }
    }

    /// Row `row` holds a value of a fixed width.
    pub open spec fn fixed_at(self, row: int) -> bool {
        match row_in(self.spec_segments(), row) {
            Some((segment, i)) => segment.spec_values() is Fixed,
            None => false,
        }
    }

    /// The dictionary entry of row `row`, if it is text, has its offsets in order.
    pub open spec fn text_in_order(self, row: int) -> bool {
        match row_in(self.spec_segments(), row) {
            Some((segment, i)) => segment.spec_values().text_in_order(i),
            None => true,
        }
    }

    /// The bytes of the text in row `row`.
    pub open spec fn text_bytes(self, row: int) -> Option<Seq<u8>> {
        match row_in(self.spec_segments(), row) {
            Some((segment, i)) => segment.spec_values().text_bytes(i),
            None => None,
        }
    }

    pub fn new(data_type: DataType, segments: Vec<ColumnSegment<'a>>) -> (r: Result<
        Self,
        FormatError,
    >)
        requires
            total_rows(segments@) <= usize::MAX,
        ensures
            match r {
                Ok(view) => {
                    &&& segments@.len() > 0
                    &&& view.spec_type() == data_type
                    &&& view.spec_segments() == segments@
                    &&& view.spec_length() == total_rows(segments@)
                },
                Err(FormatError::InvalidLayout(message)) => segments@.len() == 0 && message@
                    == NO_SEGMENTS@,
                Err(_) => false,
            },
    {
        if segments.len() == 0 {
            return Err(FormatError::InvalidLayout(NO_SEGMENTS.to_owned()));
        }
        let mut length: usize = 0;
        let mut k: usize = 0;
        proof {
            lemma_rows_before_step(segments@, 0);
        }
        while k < segments.len()
            invariant
                k <= segments@.len(),
                total_rows(segments@) <= usize::MAX,
                length == rows_before(segments@, k as int),
            decreases segments.len() - k,
        {
            proof {
                lemma_rows_before_step(segments@, k as int);
                lemma_rows_before_monotone(segments@, k + 1, segments@.len() as int);
            }
            length = length + segments[k].rows();
            k += 1;
        }
        Ok(ColumnView { data_type, segments, length })
    }

    /// A column of one segment of a fixed width.
    pub fn from_one(
        data_type: DataType,
        values: BufferView<'a>,
        validity: Option<BitmapView<'a>>,
        rows: usize,
    ) -> (r: Result<Self, FormatError>)
        requires
            rows * data_type.width() <= usize::MAX,
        ensures
            match r {
                Ok(view) => {
                    &&& values@.len() == rows * data_type.width()
                    &&& view.spec_type() == data_type
                    &&& view.spec_length() == rows
                    &&& view.spec_segments().len() == 1
                    &&& view.spec_segments()[0].spec_values() == ColumnValues::Fixed(values)
                    &&& view.spec_segments()[0].spec_validity() == validity
                    &&& view.spec_segments()[0].spec_rows() == rows
                },
                Err(e) => {
                    &&& values@.len() != rows * data_type.width()
                    &&& e == FormatError::SizeMismatch {
                        expected: (rows * data_type.width()) as usize,
                        found: values@.len() as usize,
                    }
                },
            },
    {
        match ColumnSegment::new(data_type, values, validity, rows) {
            Ok(segment) => {
                let mut segments: Vec<ColumnSegment<'a>> = Vec::new();
                segments.push(segment);
                proof {
                    lemma_rows_before_step(segments@, 0);
                }
                ColumnView::new(data_type, segments)
            },
            Err(e) => Err(e),
        }
    }

    pub fn data_type(&self) -> (t: DataType)
        ensures
            t == self.spec_type(),
    {
        self.data_type
    }

    pub fn segments(&self) -> (segments: &[ColumnSegment<'a>])
        ensures
            segments@ == self.spec_segments(),
            segments@.len() > 0,
            total_rows(segments@) == self.spec_length(),
            self.spec_length() <= usize::MAX,
    {
        proof {
            use_type_invariant(self);
        }
        self.segments.as_slice()
    }

    pub fn length(&self) -> (length: usize)
        ensures
            length == self.spec_length(),
            length == total_rows(self.spec_segments()),
    {
        proof {
            use_type_invariant(self);
        }
        self.length
    }

    pub fn is_empty(&self) -> (empty: bool)
        ensures
            empty == (self.spec_length() == 0),
    {
        self.length == 0
    }

    pub fn null_count(&self) -> (count: usize)
        requires
            total_missing(self.spec_segments()) <= usize::MAX,
        ensures
            count == total_missing(self.spec_segments()),
    {
        let mut count: usize = 0;
        let mut k: usize = 0;
        proof {
            assert(self.segments@.take(0).len() == 0);
        }
        while k < self.segments.len()
            invariant
                k <= self.segments@.len(),
                total_missing(self.segments@) <= usize::MAX,
                count == total_missing(self.segments@.take(k as int)),
            decreases self.segments.len() - k,
        {
            proof {
                let next = self.segments@.take(k + 1);
                assert(next.drop_last() =~= self.segments@.take(k as int));
                lemma_missing_monotone(self.segments@, k + 1);
            }
            count = count + self.segments[k].null_count();
            k += 1;
        }
        assert(self.segments@.take(k as int) =~= self.segments@);
        count
    }

    /// The text in row `row`: none where the row is not there, holds no text, or its
    /// bytes are no UTF-8.
    pub fn string_at(&self, row: usize) -> (r: Option<&'a str>)
        requires
            row_in(self.spec_segments(), row as int) matches Some((segment, i))
                ==> segment.spec_values().text_in_order(i),
        ensures
            match self.text_bytes(row as int) {
                Some(bytes) => if vstd::utf8::valid_utf8(bytes) {
                    r matches Some(s) && s@ == vstd::utf8::decode_utf8(bytes)
                } else {
                    r is None
                },
                None => r is None,
            },
    {
        match self.locate(row) {
            Some((segment, i)) => text_of(&segment, i),
            None => None,
        }
    }

    /// The segment that holds a row, and which of its rows that is.
    pub fn locate(&self, row: usize) -> (r: Option<(ColumnSegment<'a>, usize)>)
        ensures
            match row_in(self.spec_segments(), row as int) {
                Some((segment, i)) => r matches Some((s, j)) && s == segment && j == i && i
                    < s.spec_rows(),
                None => r is None,
            },
            r is Some == (row < self.spec_length()),
    {
        let ghost all = self.segments@;
        let mut pos: usize = row;
        let mut k: usize = 0;
        proof {
            use_type_invariant(self);
            lemma_rows_before_step(all, 0);
            lemma_row_in_end(all, row as int);
        }
        while k < self.segments.len()
            invariant
                all == self.segments@,
                k <= all.len(),
                row == rows_before(all, k as int) + pos,
                all == self.spec_segments(),
                self.spec_length() == total_rows(all),
                row_in(all, row as int) is Some == (row < total_rows(all)),
            decreases self.segments.len() - k,
        {
            let segment = self.segments[k];
            proof {
                lemma_rows_before_step(all, k as int);
            }
            if pos < segment.rows() {
                proof {
                    lemma_row_in(all, k as int, row as int);
                }
                return Some((segment, pos));
            }
            pos = pos - segment.rows();
            k += 1;
        }
        proof {
            use_type_invariant(self);
            lemma_rows_before_step(all, all.len() - 1);
        }
        None
    }

    /// Rows `offset .. offset + length`, without copying.  They may span segments;
    /// each segment that has any of them gives one of the new view.
    #[verifier::rlimit(50)]
    pub fn slice_rows(&self, offset: usize, length: usize) -> (r: Result<Self, FormatError>)
        requires
            offset + length <= usize::MAX,
            forall|k: int|
                #[trigger] touches(self.spec_segments(), k, offset as int, offset + length)
                    ==> cuttable(
                    self.spec_segments()[k],
                    self.spec_type().width(),
                    part_hi(self.spec_segments(), k, offset + length),
                ),
        ensures
            0 < length && offset + length <= self.spec_length() && (forall|k: int| #[trigger]
                touches(self.spec_segments(), k, offset as int, offset + length) ==> covered(
                    self.spec_segments()[k],
                    part_hi(self.spec_segments(), k, offset + length),
                )) ==> r is Ok,
            match r {
                Ok(view) => {
                    &&& offset + length <= self.spec_length()
                    &&& length > 0
                    &&& forall|k: int|
                        #[trigger] touches(self.spec_segments(), k, offset as int, offset + length)
                            ==> !short(
                            self.spec_segments()[k],
                            part_hi(self.spec_segments(), k, offset + length),
                        )
                    &&& rows_of(view, *self, offset as int, length as nat)
                },
                Err(FormatError::InvalidLayout(message)) => cut_error(
                    *self,
                    offset as int,
                    length as int,
                    message@,
                ),
                Err(_) => false,
            },
    {
        if offset + length > self.length {
            let mut message = String::new();
            message.append("slice [");
            text::push_dec(&mut message, offset as u64);
            message.append(", ");
            text::push_dec(&mut message, offset as u64);
            message.append(") out of range (len=");
            text::push_dec(&mut message, (offset + length) as u64);
            message.append(")");
            return Err(FormatError::InvalidLayout(message));
        }
        let ghost all = self.segments@;
        let ghost width = self.data_type.width();
        let end: usize = offset + length;
        let mut parts: Vec<ColumnSegment<'a>> = Vec::new();
        let mut start: usize = 0;
        let mut k: usize = 0;
        let ghost mut taken: int = 0;
        proof {
            use_type_invariant(self);
            lemma_rows_before_step(all, 0);
            assert(parts@.len() == 0);
        }
        while k < self.segments.len()
            invariant
                all == self.segments@,
                all == self.spec_segments(),
                width == self.data_type.width(),
                width == self.spec_type().width(),
                self.length == total_rows(all),
                end == offset + length,
                end <= self.length,
                k <= all.len(),
                start == rows_before(all, k as int),
                taken == if start < offset {
                    0
                } else if start < end {
                    start - offset
                } else {
                    length as int
                },
                total_rows(parts@) == taken,
                taken > 0 ==> parts@.len() > 0,
                taken == 0 ==> parts@.len() == 0,
                forall|j: int| 0 <= j < parts@.len() ==> exact(#[trigger] parts@[j], width),
                forall|i: int|
                    0 <= i < taken ==> same_row(
                        #[trigger] row_in(parts@, i),
                        row_in(all, offset + i),
                        width,
                    ),
                forall|j: int|
                    0 <= j < k && #[trigger] touches(all, j, offset as int, end as int) ==> !short(
                        all[j],
                        part_hi(all, j, end as int),
                    ),
                forall|j: int|
                    #[trigger] touches(all, j, offset as int, end as int) ==> cuttable(
                        all[j],
                        width,
                        part_hi(all, j, end as int),
                    ),
            decreases self.segments.len() - k,
        {
            let segment = self.segments[k];
            proof {
                lemma_rows_before_step(all, k as int);
                lemma_rows_before_monotone(all, k + 1, all.len() as int);
                lemma_rows_before_step(all, all.len() - 1);
            }
            let seg_end: usize = start + segment.rows();
            let lo: usize = if offset > start {
                offset
            } else {
                start
            };
            let hi: usize = if end < seg_end {
                end
            } else {
                seg_end
            };
            if hi > lo {
                assert(touches(all, k as int, offset as int, end as int));
                let ghost before = parts@;
                match cut(self.data_type, &segment, lo - start, hi - start) {
                    Ok(part) => {
                        parts.push(part);
                        proof {
                            assert(parts@.drop_last() =~= before);
                            assert forall|i: int| 0 <= i < hi - offset implies same_row(
                                #[trigger] row_in(parts@, i),
                                row_in(all, offset + i),
                                width,
                            ) by {
                                if i < taken {
                                    assert(row_in(parts@, i) == row_in(before, i));
                                } else {
                                    lemma_row_in(all, k as int, offset + i);
                                    assert(row_in(parts@, i) == Some((part, i - taken)));
                                    assert(same_row(
                                        Some((part, i - taken)),
                                        Some((segment, (lo - start) + (i - taken))),
                                        width,
                                    ));
                                }
                            }
                            taken = hi - offset;
                        }
                    },
                    Err(e) => {
                        return Err(e);
                    },
                }
            }
            start = seg_end;
            k += 1;
        }
        proof {
            lemma_rows_before_step(all, all.len() - 1);
        }
        match ColumnView::new(self.data_type, parts) {
            Ok(view) => {
                proof {
                    assert forall|i: int| 0 <= i < length implies {
                        &&& #[trigger] view.cell(i) == self.cell(offset + i)
                        &&& view.text_bytes(i) == self.text_bytes(offset + i)
                        &&& view.bit(i) == self.bit(offset + i)
                        &&& view.text_in_order(i) == self.text_in_order(offset + i)
                        &&& view.fixed_at(i) == self.fixed_at(offset + i)
                        &&& self.counted(offset + i) ==> view.row_valid(i) == self.row_valid(
                            offset + i,
                        )
                    } by {
                        assert(same_row(row_in(parts@, i), row_in(all, offset + i), width));
                    }
                }
                Ok(view)
            },
            Err(e) => Err(e),
        }
    }
}

/// A segment that holds its rows and nothing else: at least one row, the bytes of those
/// rows, and a bit for each of them, if it has bits.
pub open spec fn exact(segment: ColumnSegment<'_>, width: nat) -> bool {
    &&& segment.spec_rows() > 0
    &&& segment.spec_values() matches ColumnValues::Fixed(v) ==> v@.len() == segment.spec_rows()
        * width
    &&& segment.spec_values() matches ColumnValues::Dict { keys, .. } ==> keys@.len()
        == segment.spec_rows() * 4
    &&& segment.spec_validity() matches Some(v) ==> {
        &&& v@.len() == segment.spec_rows()
        &&& v.bytes().len() >= bitmap::bytes_for(v.offset() + v@.len())
    }
}

/// `part` holds the `length` rows of `whole` from `offset` on, and nothing else.
pub open spec fn rows_of(
    part: ColumnView<'_>,
    whole: ColumnView<'_>,
    offset: int,
    length: nat,
) -> bool {
    &&& part.spec_type() == whole.spec_type()
    &&& part.spec_length() == length
    &&& part.spec_length() == total_rows(part.spec_segments())
    &&& forall|k: int|
        0 <= k < part.spec_segments().len() ==> exact(
            #[trigger] part.spec_segments()[k],
            part.spec_type().width(),
        )
    &&& forall|i: int| 0 <= i < length ==> #[trigger] part.cell(i) == whole.cell(offset + i)
    &&& forall|i: int|
        0 <= i < length && whole.counted(offset + i) ==> #[trigger] part.row_valid(i)
            == whole.row_valid(offset + i)
    &&& forall|i: int| 0 <= i < length ==> #[trigger] part.bit(i) == whole.bit(offset + i)
    &&& forall|i: int|
        0 <= i < length ==> #[trigger] part.text_bytes(i) == whole.text_bytes(offset + i)
    &&& forall|i: int|
        0 <= i < length ==> #[trigger] part.text_in_order(i) == whole.text_in_order(offset + i)
    &&& forall|i: int| 0 <= i < length ==> #[trigger] part.fixed_at(i) == whole.fixed_at(offset + i)
}

/// In an exact segment all rows are counted.
proof fn lemma_exact_counted(view: ColumnView<'_>, row: int)
    requires
        forall|k: int|
            0 <= k < view.spec_segments().len() ==> exact(
                #[trigger] view.spec_segments()[k],
                view.spec_type().width(),
            ),
        0 <= row < total_rows(view.spec_segments()),
    ensures
        view.counted(row),
        view.row_valid(row) == view.bit(row),
{
    let segments = view.spec_segments();
    lemma_row_in_end(segments, row);
    let (s, i) = row_in(segments, row)->0;
    let k = choose|k: int| 0 <= k < segments.len() && segments[k] == s;
    assert(exact(segments[k], view.spec_type().width()));
}

/// Rows of rows are rows of the whole.
pub proof fn law_slice_of_slice(
    inner: ColumnView<'_>,
    outer: ColumnView<'_>,
    whole: ColumnView<'_>,
    inner_offset: int,
    inner_length: nat,
    outer_offset: int,
    outer_length: nat,
)
    requires
        rows_of(outer, whole, outer_offset, outer_length),
        rows_of(inner, outer, inner_offset, inner_length),
        0 <= inner_offset,
        inner_offset + inner_length <= outer_length,
    ensures
        rows_of(inner, whole, outer_offset + inner_offset, inner_length),
{
    let from = outer_offset + inner_offset;
    assert forall|i: int|
        #![trigger inner.cell(i)]
        #![trigger inner.text_bytes(i)]
        #![trigger inner.bit(i)]
        #![trigger inner.text_in_order(i)]
        #![trigger inner.fixed_at(i)]
        #![trigger inner.row_valid(i)]
        0 <= i < inner_length implies {
        &&& inner.cell(i) == whole.cell(from + i)
        &&& inner.text_bytes(i) == whole.text_bytes(from + i)
        &&& inner.bit(i) == whole.bit(from + i)
        &&& inner.text_in_order(i) == whole.text_in_order(from + i)
        &&& inner.fixed_at(i) == whole.fixed_at(from + i)
        &&& whole.counted(from + i) ==> inner.row_valid(i) == whole.row_valid(from + i)
    } by {
        let j = inner_offset + i;
        assert(outer.cell(j) == whole.cell(outer_offset + j));
        assert(outer.text_bytes(j) == whole.text_bytes(outer_offset + j));
        assert(outer.bit(j) == whole.bit(outer_offset + j));
        assert(outer.text_in_order(j) == whole.text_in_order(outer_offset + j));
        assert(outer.fixed_at(j) == whole.fixed_at(outer_offset + j));
        lemma_exact_counted(outer, j);
        assert(inner.row_valid(i) == outer.row_valid(j));
        if whole.counted(outer_offset + j) {
            assert(outer.row_valid(j) == whole.row_valid(outer_offset + j));
        }
    }
}

/// The rows of segment `k` that lie in `lo .. hi`, counted from its first.
pub open spec fn part_lo(segments: Seq<ColumnSegment<'_>>, k: int, lo: int) -> int {
    if lo > rows_before(segments, k) {
        lo - rows_before(segments, k)
    } else {
        0
    }
}

pub open spec fn part_hi(segments: Seq<ColumnSegment<'_>>, k: int, hi: int) -> int {
    if hi < rows_before(segments, k + 1) {
        hi - rows_before(segments, k)
    } else {
        rows_before(segments, k + 1) - rows_before(segments, k)
    }
}

/// Segment `k` has rows in `lo .. hi`.
pub open spec fn touches(segments: Seq<ColumnSegment<'_>>, k: int, lo: int, hi: int) -> bool {
    0 <= k < segments.len() && part_lo(segments, k, lo) < part_hi(segments, k, hi)
}

/// Segment `k` is the first with rows in `lo .. hi` and a bitmap too short for them.
pub open spec fn first_short(segments: Seq<ColumnSegment<'_>>, k: int, lo: int, hi: int) -> bool {
    &&& short(segments[k], part_hi(segments, k, hi))
    &&& forall|j: int|
        0 <= j < k && #[trigger] touches(segments, j, lo, hi) ==> !short(
            segments[j],
            part_hi(segments, j, hi),
        )
}

/// Values of a fixed width reach up to row `hi`, and its bit can be counted.
pub open spec fn cuttable(segment: ColumnSegment<'_>, width: nat, hi: int) -> bool {
    &&& segment.spec_values() matches ColumnValues::Fixed(v) ==> hi * width <= v@.len()
    &&& segment.spec_validity() matches Some(v) ==> hi <= v@.len() || v.offset() + hi
        <= usize::MAX
}

/// The bitmap, if there is one, has bits up to row `hi`.
pub open spec fn covered(segment: ColumnSegment<'_>, hi: int) -> bool {
    segment.spec_validity() matches Some(v) ==> hi <= v@.len()
}

/// The validity bytes end before row `hi`.
pub open spec fn short(segment: ColumnSegment<'_>, hi: int) -> bool {
    segment.spec_validity() matches Some(v) && v.bytes().len() < bitmap::bytes_for(
        v.offset() + hi,
    )
}

/// Rows that were cut out can be cut again, wherever they are asked for within their
/// number.
pub proof fn law_slice_cuts_again(
    part: ColumnView<'_>,
    whole: ColumnView<'_>,
    offset: int,
    length: nat,
    lo: int,
    hi: int,
)
    requires
        rows_of(part, whole, offset, length),
        0 <= lo <= hi <= length,
    ensures
        forall|k: int| #[trigger]
            touches(part.spec_segments(), k, lo, hi) ==> cuttable(
                part.spec_segments()[k],
                part.spec_type().width(),
                part_hi(part.spec_segments(), k, hi),
            ) && covered(part.spec_segments()[k], part_hi(part.spec_segments(), k, hi)) && !short(
                part.spec_segments()[k],
                part_hi(part.spec_segments(), k, hi),
            ),
{
    let segments = part.spec_segments();
    let width = part.spec_type().width();
    assert forall|k: int| #[trigger] touches(segments, k, lo, hi) implies cuttable(
        segments[k],
        width,
        part_hi(segments, k, hi),
    ) && covered(segments[k], part_hi(segments, k, hi)) && !short(
        segments[k],
        part_hi(segments, k, hi),
    ) by {
        lemma_rows_before_step(segments, k);
        assert(exact(segments[k], width));
        let h = part_hi(segments, k, hi);
        let n = segments[k].spec_rows() as int;
        lemma_scaled(h, n, width as int);
    }
}

/// How many of the `n` rows from `from` on are missing.
pub open spec fn nulls(view: ColumnView<'_>, from: int, n: nat) -> nat
    decreases n,
{
    if n == 0 {
        0
    } else {
        nulls(view, from, (n - 1) as nat) + if view.row_valid(from + n - 1) {
            0nat
        } else {
            1nat
        }
    }
}

/// How many of the first `n` rows of segments are missing.
spec fn nulls_in(segments: Seq<ColumnSegment<'_>>, n: nat) -> nat
    decreases n,
{
    if n == 0 {
        0
    } else {
        nulls_in(segments, (n - 1) as nat) + match row_in(segments, n - 1) {
            Some((s, i)) => if s.row_valid(i) {
                0nat
            } else {
                1nat
            },
            None => 0nat,
        }
    }
}

/// More segments do not change what the first rows hold.
proof fn lemma_nulls_front(segments: Seq<ColumnSegment<'_>>, n: nat)
    requires
        segments.len() > 0,
        n <= total_rows(segments.drop_last()),
    ensures
        nulls_in(segments, n) == nulls_in(segments.drop_last(), n),
    decreases n,
{
    if n > 0 {
        lemma_nulls_front(segments, (n - 1) as nat);
    }
}

/// The first `m` rows of the last segment are missing as its bits say.
proof fn lemma_nulls_last(segments: Seq<ColumnSegment<'_>>, width: nat, m: nat)
    requires
        segments.len() > 0,
        exact(segments.last(), width),
        m <= segments.last().spec_rows(),
    ensures
        nulls_in(segments, total_rows(segments.drop_last()) + m) == nulls_in(
            segments,
            total_rows(segments.drop_last()),
        ) + match segments.last().spec_validity() {
            Some(v) => m - bitmap::ones(v@.take(m as int)),
            None => 0,
        },
    decreases m,
{
    let front = total_rows(segments.drop_last());
    if m > 0 {
        lemma_nulls_last(segments, width, (m - 1) as nat);
        assert(row_in(segments, front + m - 1) == Some((segments.last(), m - 1)));
        if let Some(v) = segments.last().spec_validity() {
            assert(v@.take(m as int).drop_last() =~= v@.take(m - 1));
        }
    } else if let Some(v) = segments.last().spec_validity() {
        assert(v@.take(0).len() == 0);
    }
}

/// Exact segments count their missing rows.
proof fn lemma_missing_counted(segments: Seq<ColumnSegment<'_>>, width: nat)
    requires
        forall|k: int| 0 <= k < segments.len() ==> exact(#[trigger] segments[k], width),
    ensures
        total_missing(segments) == nulls_in(segments, total_rows(segments)),
    decreases segments.len(),
{
    if segments.len() > 0 {
        let front = segments.drop_last();
        let last = segments.last();
        assert forall|k: int| 0 <= k < front.len() implies exact(#[trigger] front[k], width) by {
            assert(front[k] == segments[k]);
        }
        lemma_missing_counted(front, width);
        lemma_nulls_front(segments, total_rows(front));
        assert(exact(segments[segments.len() - 1], width));
        lemma_nulls_last(segments, width, last.spec_rows());
        if let Some(v) = last.spec_validity() {
            assert(v@.take(v@.len() as int) =~= v@);
            bitmap::lemma_ones_bound(v@);
        }
    }
}

/// The missing rows of rows that were cut out are those that the whole marks as missing.
pub proof fn law_slice_counts_nulls(
    part: ColumnView<'_>,
    whole: ColumnView<'_>,
    offset: int,
    length: nat,
)
    requires
        rows_of(part, whole, offset, length),
        forall|i: int| 0 <= i < length ==> #[trigger] whole.counted(offset + i),
    ensures
        total_missing(part.spec_segments()) == nulls(whole, offset, length),
        nulls(whole, offset, length) <= length,
{
    lemma_missing_counted(part.spec_segments(), part.spec_type().width());
    lemma_nulls_same(part, whole, offset, length, length);
}

proof fn lemma_nulls_same(
    part: ColumnView<'_>,
    whole: ColumnView<'_>,
    offset: int,
    length: nat,
    n: nat,
)
    requires
        rows_of(part, whole, offset, length),
        forall|i: int| 0 <= i < length ==> #[trigger] whole.counted(offset + i),
        n <= length,
    ensures
        nulls_in(part.spec_segments(), n) == nulls(whole, offset, n),
        nulls(whole, offset, n) <= n,
    decreases n,
{
    if n > 0 {
        lemma_nulls_same(part, whole, offset, length, (n - 1) as nat);
        lemma_row_in_end(part.spec_segments(), n - 1);
        assert(whole.counted(offset + (n - 1)));
        assert(part.row_valid(n - 1) == whole.row_valid(offset + (n - 1)));
    }
}

/// What is said of validity bytes that end too early for rows `lo .. hi`.
pub open spec fn short_message(segment: ColumnSegment<'_>, lo: int, hi: int) -> Seq<char> {
    match segment.spec_validity() {
        Some(v) => "validity buffer too small: need "@ + text::dec(
            bitmap::bytes_for(v.offset() + hi) as nat,
        ) + " bytes for bits ["@ + text::dec((v.offset() + lo) as nat) + ", "@ + text::dec(
            (v.offset() + hi) as nat,
        ) + "), got "@ + text::dec(v.bytes().len()),
        None => Seq::empty(),
    }
}

/// What is said of rows that cannot be cut out of a column: they lie beyond its end, or
/// there are none, or a bitmap ends before them.  Of rows beyond the end the message gives
/// the first twice, and then where they would end.
pub open spec fn cut_error(
    view: ColumnView<'_>,
    offset: int,
    length: int,
    message: Seq<char>,
) -> bool {
    if offset + length > view.spec_length() {
        message == "slice ["@ + text::dec(offset as nat) + ", "@ + text::dec(offset as nat)
            + ") out of range (len="@ + text::dec((offset + length) as nat) + ")"@
    } else if length == 0 {
        message == NO_SEGMENTS@
    } else {
        exists|k: int|
            {
                &&& #[trigger] touches(view.spec_segments(), k, offset, offset + length)
                &&& first_short(view.spec_segments(), k, offset, offset + length)
                &&& message == short_message(
                    view.spec_segments()[k],
                    part_lo(view.spec_segments(), k, offset),
                    part_hi(view.spec_segments(), k, offset + length),
                )
            }
    }
}

/// Two places in two columns that hold the same row.
pub open spec fn same_row(
    a: Option<(ColumnSegment<'_>, int)>,
    b: Option<(ColumnSegment<'_>, int)>,
    width: nat,
) -> bool {
    match (a, b) {
        (Some((s, i)), Some((t, j))) => {
            &&& s.spec_values().cell(width, i) == t.spec_values().cell(width, j)
            &&& s.spec_values().text_bytes(i) == t.spec_values().text_bytes(j)
            &&& s.spec_values().text_in_order(i) == t.spec_values().text_in_order(j)
            &&& s.spec_values() is Fixed == t.spec_values() is Fixed
            &&& s.bit(i) == t.bit(j)
            &&& t.counted(j) ==> s.row_valid(i) == t.row_valid(j)
        },
        _ => false,
    }
}

/// Rows `lo .. hi` of a segment.
#[verifier::rlimit(50)]
fn cut<'a>(data_type: DataType, segment: &ColumnSegment<'a>, lo: usize, hi: usize) -> (r: Result<
    ColumnSegment<'a>,
    FormatError,
>)
    requires
        lo < hi <= segment.spec_rows(),
        cuttable(*segment, data_type.width(), hi as int),
    ensures
        covered(*segment, hi as int) ==> r is Ok,
        match r {
            Ok(part) => {
                &&& !short(*segment, hi as int)
                &&& part.spec_rows() == hi - lo
                &&& exact(part, data_type.width())
                &&& forall|i: int|
                    0 <= i < hi - lo ==> #[trigger] same_row(
                        Some((part, i)),
                        Some((*segment, lo + i)),
                        data_type.width(),
                    )
            },
            Err(FormatError::InvalidLayout(message)) => {
                &&& short(*segment, hi as int)
                &&& message@ == short_message(*segment, lo as int, hi as int)
            },
            Err(_) => false,
        },
{
    let n: usize = hi - lo;
    let validity: Option<BitmapView<'a>> = match segment.validity() {
        Some(v) => {
            let moved = v.shifted(lo, n);
            match moved {
                Ok(m) => Some(m),
                Err(e) => {
                    return Err(e);
                },
            }
        },
        None => None,
    };
    let size: usize = data_type.size_of();
    match segment.values() {
        ColumnValues::Fixed(v) => {
            proof {
                v.lemma_len();
                lemma_scaled(lo as int, hi as int, size as int);
            }
            let bytes = v.slice(lo * size, n * size);
            let part = ColumnSegment {
                values: ColumnValues::Fixed(bytes),
                validity,
                rows: n,
                width: size,
            };
            proof {
                assert forall|i: int| 0 <= i < n implies #[trigger] same_row(
                    Some((part, i)),
                    Some((*segment, lo + i)),
                    data_type.width(),
                ) by {
                    lemma_scaled(i, i + 1, size as int);
                    lemma_scaled(i + 1, n as int, size as int);
                    lemma_scaled(lo as int, lo + i, size as int);
                    lemma_scaled(lo as int, lo + i + 1, size as int);
                    assert(bytes@.subrange(i * size, (i + 1) * size) =~= v@.subrange(
                        (lo + i) * size,
                        (lo + i + 1) * size,
                    ));
                }
            }
            Ok(part)
        },
        ColumnValues::Dict { keys, dict_offsets, dict_strings } => {
            proof {
                keys.lemma_len();
            }
            let kept = keys.slice(lo * 4, n * 4);
            let part = ColumnSegment {
                values: ColumnValues::Dict {
                    keys: kept,
                    dict_offsets: *dict_offsets,
                    dict_strings: *dict_strings,
                },
                validity,
                rows: n,
                width: 4,
            };
            proof {
                assert forall|i: int| 0 <= i < n implies #[trigger] same_row(
                    Some((part, i)),
                    Some((*segment, lo + i)),
                    data_type.width(),
                ) by {
                    assert(kept@.subrange(4 * i, 4 * i + 4) =~= keys@.subrange(
                        4 * (lo + i),
                        4 * (lo + i) + 4,
                    ));
                }
            }
            Ok(part)
        },
        ColumnValues::RepeatDict { dict_offsets, dict_strings, dict_index } => {
            let part = ColumnSegment {
                values: ColumnValues::RepeatDict {
                    dict_offsets: *dict_offsets,
                    dict_strings: *dict_strings,
                    dict_index: *dict_index,
                },
                validity,
                rows: n,
                width: 4,
            };
            assert forall|i: int| 0 <= i < n implies #[trigger] same_row(
                Some((part, i)),
                Some((*segment, lo + i)),
                data_type.width(),
            ) by {}
            Ok(part)
        },
    }
}

proof fn lemma_scaled(lo: int, hi: int, size: int)
    by (nonlinear_arith)
    requires
        0 <= lo <= hi,
        0 <= size,
    ensures
        0 <= lo * size <= hi * size,
        (hi - lo) * size == hi * size - lo * size,
{
}

/// The text of row `i` of a segment.
fn text_of<'a>(segment: &ColumnSegment<'a>, i: usize) -> (r: Option<&'a str>)
    requires
        i < segment.spec_rows(),
        segment.spec_values().text_in_order(i as int),
    ensures
        match segment.spec_values().text_bytes(i as int) {
            Some(bytes) => if vstd::utf8::valid_utf8(bytes) {
                r matches Some(s) && s@ == vstd::utf8::decode_utf8(bytes)
            } else {
                r is None
            },
            None => r is None,
        },
{
    match segment.values() {
        ColumnValues::Fixed(_) => None,
        ColumnValues::Dict { keys, dict_offsets, dict_strings } => {
            let bytes = keys.as_slice();
            assert(bytes@.len() == bytes.len());
            let key: u32 = le::get_u32(bytes, 4 * i);
            dict_text(dict_offsets.as_slice(), dict_strings.as_slice(), key)
        },
        ColumnValues::RepeatDict { dict_offsets, dict_strings, dict_index } => dict_text(
            dict_offsets.as_slice(),
            dict_strings.as_slice(),
            *dict_index,
        ),
    }
}

/// The bytes of a dictionary entry.
pub fn dict_bytes<'a>(offsets: &[u8], strings: &'a [u8], key: u32) -> (r: Option<&'a [u8]>)
    ensures
        match dict_entry(offsets@, strings@, key as int) {
            Some(bytes) => r matches Some(b) && b@ == bytes,
            None => r is None,
        },
{
    if offsets.len() as u64 / 8 < key as u64 + 2 {
        return None;
    }
    let at: usize = key as usize * 8;
    let lo: u64 = le::get_u64(offsets, at);
    let hi: u64 = le::get_u64(offsets, at + 8);
    if lo > hi || hi > strings.len() as u64 {
        return None;
    }
    Some(slice_subrange(strings, lo as usize, hi as usize))
}

/// The text of a dictionary entry.
fn dict_text<'a>(offsets: &[u8], strings: &'a [u8], key: u32) -> (r: Option<&'a str>)
    requires
        dict_in_order(offsets@, strings@, key as int),
    ensures
        match dict_entry(offsets@, strings@, key as int) {
            Some(bytes) => if vstd::utf8::valid_utf8(bytes) {
                r matches Some(s) && s@ == vstd::utf8::decode_utf8(bytes)
            } else {
                r is None
            },
            None => r is None,
        },
{
    match dict_bytes(offsets, strings, key) {
        Some(bytes) => match text::from_utf8(bytes) {
            Ok(s) => Some(s),
            Err(_) => None,
        },
        None => None,
    }
}

proof fn lemma_missing_monotone(segments: Seq<ColumnSegment<'_>>, k: int)
    requires
        0 <= k <= segments.len(),
    ensures
        total_missing(segments.take(k)) <= total_missing(segments),
    decreases segments.len(),
{
    if k < segments.len() {
        assert(segments.drop_last().take(k) =~= segments.take(k));
        lemma_missing_monotone(segments.drop_last(), k);
    } else {
        assert(segments.take(k) =~= segments);
    }
}

/// Offsets and bytes of a dictionary, owned.
#[derive(Debug)]
pub struct DictBuffers {
    pub offsets: Buffer,
    pub strings: Buffer,
}

impl Clone for DictBuffers {
    fn clone(&self) -> (copy: Self)
        ensures
            copy.offsets@ == self.offsets@,
            copy.strings@ == self.strings@,
    {
        DictBuffers { offsets: self.offsets.clone(), strings: self.strings.clone() }
    }
}

/// One column, owned, in one run.  A column of text holds its dictionary keys in
/// `values` and its dictionary in `dict`.
#[derive(Debug)]
pub struct Column {
    pub data_type: DataType,
    pub values: Buffer,
    pub validity: Option<Bitmap>,
    pub dict: Option<DictBuffers>,
}

/// A column of the same type with the same values, bits and dictionary.
pub open spec fn copies(copy: Column, column: Column) -> bool {
    &&& copy.data_type == column.data_type
    &&& copy.values@ == column.values@
    &&& match column.validity {
        Some(v) => copy.validity matches Some(w) && w.bytes() == v.bytes() && w.offset()
            == v.offset() && w.spec_len() == v.spec_len() && w.wf() == v.wf(),
        None => copy.validity is None,
    }
    &&& match column.dict {
        Some(d) => copy.dict matches Some(e) && e.offsets@ == d.offsets@ && e.strings@
            == d.strings@,
        None => copy.dict is None,
    }
}

impl Clone for Column {
    fn clone(&self) -> (copy: Self)
        ensures
            copies(copy, *self),
    {
        let validity = match &self.validity {
            Some(v) => Some(v.clone()),
            None => None,
        };
        let dict = match &self.dict {
            Some(d) => Some(d.clone()),
            None => None,
        };
        Column { data_type: self.data_type, values: self.values.clone(), validity, dict }
    }
}

/// The little-endian bytes of `u32` numbers, one after the other.
pub open spec fn u32_table(values: Seq<u32>) -> Seq<u8> {
    crate::buffer::words_bytes(values)
}

/// The little-endian bytes of `u64` numbers, one after the other.
pub open spec fn u64_table(values: Seq<u64>) -> Seq<u8> {
    crate::buffer::words_bytes(values)
}

pub(crate) fn table_bytes<T: crate::buffer::FixedWidth>(values: &Vec<T>) -> (bytes: Vec<u8>)
    ensures
        bytes@ == crate::buffer::words_bytes(values@),
{
    let mut bytes: Vec<u8> = Vec::new();
    let mut k: usize = 0;
    while k < values.len()
        invariant
            k <= values@.len(),
            bytes@ == crate::buffer::words_bytes(values@.take(k as int)),
        decreases values.len() - k,
    {
        values[k].put(&mut bytes);
        assert(values@.take(k + 1).drop_last() =~= values@.take(k as int));
        k += 1;
    }
    assert(values@.take(k as int) =~= values@);
    bytes
}

impl Column {
    /// Bytes per row: those of a value, or of a dictionary key.
    pub open spec fn row_width(self) -> nat {
        if self.data_type is Utf8 {
            4
        } else {
            self.data_type.width()
        }
    }

    pub open spec fn spec_length(self) -> nat {
        self.values@.len() / self.row_width()
    }

    /// Values, bitmap and dictionary fit each other.
    pub open spec fn wf(self) -> bool {
        &&& match self.dict {
            Some(d) => self.values@.len() == self.spec_length() * 4 && offsets_ok(d.offsets@),
            None => self.values@.len() == self.spec_length() * self.data_type.width(),
        }
        &&& self.validity matches Some(v) ==> v.wf()
    }

    /// Missing rows.
    pub open spec fn missing(self) -> nat {
        match self.validity {
            Some(v) => (v@.len() - bitmap::ones(v@)) as nat,
            None => 0,
        }
    }

    /// Zeros of a fixed width, all missing or all there.
    pub fn zeroed(data_type: DataType, rows: usize, all_null: bool) -> (column: Self)
        requires
            data_type !is Utf8,
            rows * data_type.width() + 8 <= isize::MAX,
        ensures
            column.wf(),
            column.data_type == data_type,
            column.spec_length() == rows,
            column.values@ == Seq::new((rows * data_type.width()) as nat, |i: int| 0u8),
            column.values.spec_alignment() == 8,
            column.dict is None,
            if all_null {
                column.validity matches Some(v) && v@ == Seq::new(rows as nat, |i: int| false)
            } else {
                column.validity is None
            },
    {
        proof {
            reveal_with_fuel(vstd::arithmetic::power2::is_pow2, 4);
            assert(vstd::arithmetic::power2::is_pow2(8));
        }
        let size: usize = data_type.size_of();
        let values = Buffer::zeroed_aligned(rows * size, 8);
        let validity = if all_null {
            Some(Bitmap::zeros(rows))
        } else {
            None
        };
        proof {
            assert((rows * size) / (size as int) == rows) by (nonlinear_arith)
                requires
                    size > 0,
            ;
        }
        Column { data_type, values, validity, dict: None }
    }

    /// Text: one key per row, and the dictionary that the keys point into.
    pub fn from_dict(
        keys: Vec<u32>,
        offsets: Vec<u64>,
        strings: Vec<u8>,
        validity: Option<Bitmap>,
    ) -> (column: Self)
        requires
            offsets@.len() >= 2,
            offsets@[0] == 0,
        ensures
            column.data_type is Utf8,
            column.values@ == u32_table(keys@),
            column.spec_length() == keys@.len(),
            column.validity == validity,
            column.dict matches Some(d) && d.offsets@ == u64_table(offsets@) && d.strings@
                == strings@,
            (validity matches Some(v) ==> v.wf()) ==> column.wf(),
    {
        proof {
            crate::buffer::lemma_words_len(keys@);
            crate::buffer::lemma_words_len(offsets@);
        }
        Column {
            data_type: DataType::Utf8,
            values: Buffer::from_vec(table_bytes(&keys)),
            validity,
            dict: Some(
                DictBuffers {
                    offsets: Buffer::from_vec(table_bytes(&offsets)),
                    strings: Buffer::from_vec(strings),
                },
            ),
        }
    }

    pub fn length(&self) -> (length: usize)
        ensures
            length == self.spec_length(),
    {
        match self.data_type {
            DataType::Utf8 => self.values.len() / 4,
            _ => self.values.len() / self.data_type.size_of(),
        }
    }

    pub fn null_count(&self) -> (count: usize)
        requires
            self.validity matches Some(v) ==> v.wf(),
        ensures
            count == self.missing(),
    {
        match &self.validity {
            Some(v) => v.as_view().null_count(),
            None => 0,
        }
    }

    /// The column as a view of one segment.
    pub fn as_view(&self) -> (view: ColumnView<'_>)
        requires
            self.wf(),
        ensures
            view.spec_type() == self.data_type,
            view.spec_length() == self.spec_length(),
            view.spec_segments().len() == 1,
            view.spec_segments()[0].spec_rows() == self.spec_length(),
            match self.dict {
                Some(d) => view.spec_segments()[0].spec_values() matches ColumnValues::Dict {
                    keys,
                    dict_offsets,
                    dict_strings,
                } && keys@ == self.values@ && dict_offsets@ == d.offsets@ && dict_strings@
                    == d.strings@,
                None => view.spec_segments()[0].spec_values() matches ColumnValues::Fixed(v) && v@
                    == self.values@,
            },
            match self.validity {
                Some(v) => view.spec_segments()[0].spec_validity() matches Some(w) && w.bytes()
                    == v.bytes() && w.offset() == v.offset() && w.spec_len() == v.spec_len(),
                None => view.spec_segments()[0].spec_validity() is None,
            },
            total_missing(view.spec_segments()) == self.missing(),
    {
        let validity: Option<BitmapView<'_>> = match &self.validity {
            Some(v) => Some(v.as_view()),
            None => None,
        };
        let rows: usize = self.length();
        let values = match &self.dict {
            Some(d) => ColumnValues::Dict {
                keys: BufferView::from_buffer(&self.values),
                dict_offsets: BufferView::from_buffer(&d.offsets),
                dict_strings: BufferView::from_buffer(&d.strings),
            },
            None => ColumnValues::Fixed(BufferView::from_buffer(&self.values)),
        };
        let width: usize = match &self.dict {
            Some(_) => 4,
            None => self.data_type.size_of(),
        };
        let segment = ColumnSegment { values, validity, rows, width };
        let mut segments: Vec<ColumnSegment<'_>> = Vec::new();
        segments.push(segment);
        proof {
            lemma_rows_before_step(segments@, 0);
            reveal_with_fuel(total_missing, 2);
            assert(total_missing(segments@) == segment.missing());
        }
        ColumnView { data_type: self.data_type, segments, length: rows }
    }
}

/// A row is found in the segment whose rows it is among, at its place there; a row before the
/// first or behind the last is nowhere.
pub proof fn law_row_found(
    front: Seq<ColumnSegment<'_>>,
    segment: ColumnSegment<'_>,
    back: Seq<ColumnSegment<'_>>,
    i: int,
)
    requires
        0 <= i < segment.spec_rows(),
    ensures
        row_in(front + seq![segment] + back, total_rows(front) + i) == Some((segment, i)),
        total_rows(front + seq![segment] + back) == total_rows(front) + segment.spec_rows()
            + total_rows(back),
        row_in(back, -1) is None,
        row_in(back, total_rows(back) as int) is None,
    decreases back.len(),
{
    let all = front + seq![segment] + back;
    if back.len() == 0 {
        assert(all.drop_last() =~= front);
        assert(all.last() == segment);
    } else {
        law_row_found(front, segment, back.drop_last(), i);
        assert(all.drop_last() =~= front + seq![segment] + back.drop_last());
        assert(all.last() == back.last());
    }
}

/// Byte `b` of the value of row `i` is byte `i * width + b` of values of one width; a text is
/// found by its key, and a key that is not among the offsets finds none.
pub proof fn law_cell_by_row(values: ColumnValues<'_>, width: nat, i: int, b: int)
    requires
        0 <= i,
        0 <= b < width,
    ensures
        values matches ColumnValues::Fixed(v) ==> ((i + 1) * width <= v@.len() ==> (values.cell(
            width,
            i,
        ) matches Some(bytes) && bytes.len() == width && bytes[b] == v@[i * width + b])),
        values is Fixed ==> values.text_bytes(i) is None,
        values !is Fixed ==> values.text_bytes(i) == values.cell(width, i),
        values matches ColumnValues::RepeatDict { dict_offsets, dict_strings, dict_index }
            ==> values.cell(width, i) == dict_entry(
            dict_offsets@,
            dict_strings@,
            dict_index as int,
        ),
        values matches ColumnValues::Dict { keys, dict_offsets, dict_strings } ==> values.cell(
            width,
            i,
        ) == dict_entry(
            dict_offsets@,
            dict_strings@,
            le::le_value(keys@.subrange(4 * i, 4 * i + 4)) as int,
        ),
{
    if let ColumnValues::Fixed(v) = values {
        if (i + 1) * width <= v@.len() {
            assert(0 <= i * width && (i + 1) * width == i * width + width) by (nonlinear_arith)
                requires
                    0 <= i,
                    0 <= width,
            ;
        }
    }
}

/// A text of a dictionary starts where its offset says and ends where the next one does; there
/// is none for a key that has no next offset, or whose offsets are not in order or lead
/// beyond the texts.
pub proof fn law_dictionary_entry(offsets: Seq<u8>, strings: Seq<u8>, key: int, a: nat, b: nat)
    requires
        0 <= key,
        8 * key + 16 <= offsets.len(),
        a == le::le_value(offsets.subrange(8 * key, 8 * key + 8)),
        b == le::le_value(offsets.subrange(8 * key + 8, 8 * key + 16)),
    ensures
        a <= b <= strings.len() ==> dict_entry(offsets, strings, key) == Some(
            strings.subrange(a as int, b as int),
        ),
        !(a <= b <= strings.len()) ==> dict_entry(offsets, strings, key) is None,
        dict_entry(offsets, strings, offsets.len() as int / 8 - 1) is None,
        dict_entry(offsets, strings, -1) is None,
{
    assert(8 * (key + 1) == 8 * key + 8);
}

/// A row is valid where its bit is set, or where no row is marked; the rows that are missing
/// are those whose bit is not set.
pub proof fn law_validity_by_bit(segment: ColumnSegment<'_>, i: int)
    ensures
        segment.spec_validity() is None ==> segment.row_valid(i) && segment.missing() == 0,
        segment.spec_validity() matches Some(v) ==> (0 <= i < v@.len() ==> segment.row_valid(i)
            == v@[i]) && (!(0 <= i < v@.len()) ==> !segment.row_valid(i)) && segment.missing()
            == bitmap::ones(v@.map_values(|b: bool| !b)),
{
    if let Some(v) = segment.spec_validity() {
        bitmap::law_set_and_unset(v@);
    }
}

/// A cut of rows takes of each segment just the rows that are among those asked for.
pub proof fn law_cut_of_segment(segments: Seq<ColumnSegment<'_>>, k: int, lo: int, hi: int, i: int)
    requires
        0 <= k < segments.len(),
        0 <= i < segments[k].spec_rows(),
    ensures
        part_lo(segments, k, lo) <= i < part_hi(segments, k, hi) <==> lo <= total_rows(
            segments.take(k),
        ) + i < hi,
        lo <= total_rows(segments.take(k)) + i < hi ==> touches(segments, k, lo, hi),
{
    assert(segments.take(k + 1).drop_last() =~= segments.take(k));
}

/// A column has as many rows as its values have room for: four bytes for the key of a text,
/// and the width of its type for every other value.
pub proof fn law_column_length(column: Column, rows: nat)
    ensures
        column.data_type is Utf8 && column.values@.len() == 4 * rows ==> column.spec_length() == rows,
        column.data_type !is Utf8 && column.values@.len() == column.data_type.width() * rows
            ==> column.spec_length() == rows,
{
    if column.data_type !is Utf8 {
        let w = column.data_type.width();
        assert((w * rows) / w == rows) by (nonlinear_arith)
            requires
                w > 0,
        ;
    }
}

/// A copy of a column has the rows of the column: as many, with the same bytes, the same texts
/// and the same marks.
pub proof fn law_copy_is_same(copy: Column, column: Column, i: int)
    requires
        copies(copy, column),
    ensures
        copy.data_type == column.data_type,
        copy.spec_length() == column.spec_length(),
        crate::buffer::group(copy.values@, i, copy.data_type.width()) == crate::buffer::group(
            column.values@,
            i,
            column.data_type.width(),
        ),
        copy.missing() == column.missing(),
        copy.validity is Some <==> column.validity is Some,
        column.dict matches Some(d) ==> (copy.dict matches Some(e) && dict_entry(
            e.offsets@,
            e.strings@,
            i,
        ) == dict_entry(d.offsets@, d.strings@, i)),
        copy.dict is Some <==> column.dict is Some,
{
    if let Some(v) = column.validity {
        if let Some(w) = copy.validity {
            assert(w@ =~= v@);
        }
    }
}

} // verus!

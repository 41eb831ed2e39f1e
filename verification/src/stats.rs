//! Statistics of datasets and tables, and the questions that they answer without a scan.

use vstd::prelude::*;
use crate::filter::FilterValue;
use crate::le;
use crate::text;
use crate::types::{DataType, TimeType};

verus! {

/// The value that bytes of a type spell; text has none.
pub open spec fn value_of(t: DataType, bytes: Seq<u8>) -> Option<FilterValue> {
    match t {
        DataType::Bool => Some(FilterValue::Bool(bytes[0] != 0)),
        DataType::Int8 => Some(FilterValue::Int8(le::le_signed(bytes) as i8)),
        DataType::Int16 => Some(FilterValue::Int16(le::le_signed(bytes) as i16)),
        DataType::Int32 => Some(FilterValue::Int32(le::le_signed(bytes) as i32)),
        DataType::Int64 => Some(FilterValue::Int64(le::le_signed(bytes) as i64)),
        DataType::UInt8 => Some(FilterValue::UInt8(bytes[0])),
        DataType::UInt16 => Some(FilterValue::UInt16(le::le_value(bytes) as u16)),
        DataType::UInt32 => Some(FilterValue::UInt32(le::le_value(bytes) as u32)),
        DataType::UInt64 => Some(FilterValue::UInt64(le::le_value(bytes) as u64)),
        DataType::Float32 => Some(FilterValue::Float32(le::le_value(bytes) as u32)),
        DataType::Float64 => Some(FilterValue::Float64(le::le_value(bytes) as u64)),
        DataType::Date32 => Some(FilterValue::Date32(le::le_signed(bytes) as i32)),
        DataType::Date64 => Some(FilterValue::Date64(le::le_signed(bytes) as i64)),
        DataType::TimestampUs => Some(FilterValue::TimestampUs(le::le_signed(bytes) as i64)),
        DataType::Utf8 => None,
    }
}

/// Reads the value at byte `at`.
pub fn read_value(t: DataType, bytes: &[u8], at: usize) -> (r: Option<FilterValue>)
    requires
        at + t.width() <= bytes.len(),
    ensures
        r == value_of(t, bytes@.subrange(at as int, at + t.width())),
{
    match t {
        DataType::Bool => Some(FilterValue::Bool(bytes[at] != 0)),
        DataType::Int8 => Some(FilterValue::Int8(le::get_i8(bytes, at))),
        DataType::Int16 => Some(FilterValue::Int16(le::get_i16(bytes, at))),
        DataType::Int32 => Some(FilterValue::Int32(le::get_i32(bytes, at))),
        DataType::Int64 => Some(FilterValue::Int64(le::get_i64(bytes, at))),
        DataType::UInt8 => Some(FilterValue::UInt8(bytes[at])),
        DataType::UInt16 => Some(FilterValue::UInt16(le::get_u16(bytes, at))),
        DataType::UInt32 => Some(FilterValue::UInt32(le::get_u32(bytes, at))),
        DataType::UInt64 => Some(FilterValue::UInt64(le::get_u64(bytes, at))),
        DataType::Float32 => Some(FilterValue::Float32(le::get_u32(bytes, at))),
        DataType::Float64 => Some(FilterValue::Float64(le::get_u64(bytes, at))),
        DataType::Date32 => Some(FilterValue::Date32(le::get_i32(bytes, at))),
        DataType::Date64 => Some(FilterValue::Date64(le::get_i64(bytes, at))),
        DataType::TimestampUs => Some(FilterValue::TimestampUs(le::get_i64(bytes, at))),
        DataType::Utf8 => None,
    }
}

/// The least and the greatest value of a field, from the slots of its footer.
pub fn field_stats_scalars(t: DataType, min: &[u8; 8], max: &[u8; 8]) -> (r: Option<
    (FilterValue, FilterValue),
>)
    ensures
        match (
            value_of(t, min@.take(t.width() as int)),
            value_of(t, max@.take(t.width() as int)),
        ) {
            (Some(lo), Some(hi)) => r == Some((lo, hi)),
            _ => r is None,
        },
{
    assert(min@.subrange(0, t.width() as int) =~= min@.take(t.width() as int));
    assert(max@.subrange(0, t.width() as int) =~= max@.take(t.width() as int));
    match (read_value(t, min.as_slice(), 0), read_value(t, max.as_slice(), 0)) {
        (Some(lo), Some(hi)) => Some((lo, hi)),
        _ => None,
    }
}

/// A figure that is known exactly, or not at all.
#[derive(Debug, Clone)]
pub enum Precision<T> {
    Exact(T),
    Absent,
}

/// What is known of a column.
#[derive(Debug, Clone)]
pub struct ColumnStatistics {
    pub null_count: Precision<usize>,
    pub min_value: Precision<FilterValue>,
    pub max_value: Precision<FilterValue>,
    pub distinct_count: Precision<usize>,
    pub byte_size: Precision<usize>,
}

/// What is known of the rows that a query may scan.
#[derive(Debug, Clone)]
pub struct Statistics {
    pub num_rows: Precision<usize>,
    pub total_byte_size: Precision<usize>,
    pub column_statistics: Vec<ColumnStatistics>,
}

impl Statistics {
    /// Nothing is known.
    pub open spec fn unknown(self) -> bool {
        &&& self.num_rows is Absent
        &&& self.total_byte_size is Absent
        &&& self.column_statistics@.len() == 0
    }
}

impl Default for Statistics {
    fn default() -> (s: Self)
        ensures
            s.unknown(),
    {
        Statistics {
            num_rows: Precision::Absent,
            total_byte_size: Precision::Absent,
            column_statistics: Vec::new(),
        }
    }
}

/// What a dataset's meta file says about its rows.
#[derive(Debug)]
pub struct DatasetSummary {
    pub time_type: TimeType,
    pub time_axis: Vec<i64>,
    pub symbols: usize,
    pub total_rows: usize,
}

/// What a field file says about its values: the slots of its footer, where they hold
/// statistics.
#[derive(Debug)]
pub struct FieldStat {
    pub name: String,
    pub data_type: DataType,
    pub null_count: u32,
    pub size: u64,
    pub slots: Option<([u8; 8], [u8; 8])>,
}

/// A time as a value.
pub open spec fn time_value(tt: TimeType, t: i64) -> FilterValue {
    match tt {
        TimeType::Date32 => FilterValue::Date32(t as i32),
        TimeType::TimestampUs => FilterValue::TimestampUs(t),
    }
}

fn make_time(tt: TimeType, t: i64) -> (v: FilterValue)
    requires
        tt is Date32 ==> i32::MIN <= t <= i32::MAX,
    ensures
        v == time_value(tt, t),
{
    match tt {
        TimeType::Date32 => FilterValue::Date32(t as i32),
        TimeType::TimestampUs => FilterValue::TimestampUs(t),
    }
}

/// What is known of the time column.
pub open spec fn time_statistics(c: ColumnStatistics, meta: DatasetSummary) -> bool {
    let axis = meta.time_axis@;
    &&& c.null_count == Precision::Exact(0usize)
    &&& c.distinct_count == Precision::Exact(meta.time_axis.len())
    &&& c.byte_size == Precision::Exact((meta.total_rows * meta.time_type.width()) as usize)
    &&& if axis.len() == 0 {
        c.min_value is Absent && c.max_value is Absent
    } else {
        &&& c.min_value == Precision::Exact(time_value(meta.time_type, axis[0]))
        &&& c.max_value == Precision::Exact(time_value(meta.time_type, axis.last()))
    }
}

/// What is known of the symbol column.
pub open spec fn sym_statistics(c: ColumnStatistics, meta: DatasetSummary) -> bool {
    &&& c.null_count == Precision::Exact(0usize)
    &&& c.distinct_count == Precision::Exact(meta.symbols)
    &&& c.byte_size is Absent
    &&& c.min_value is Absent
    &&& c.max_value is Absent
}

/// A bound that a footer gives.
pub open spec fn slot_value(t: DataType, slot: [u8; 8]) -> Precision<FilterValue> {
    match value_of(t, slot@.take(t.width() as int)) {
        Some(v) => Precision::Exact(v),
        None => Precision::Absent,
    }
}

/// What is known of a field.
pub open spec fn field_statistics(c: ColumnStatistics, field: FieldStat, rows: usize) -> bool {
    let t = field.data_type;
    &&& c.null_count == Precision::Exact(field.null_count as usize)
    &&& c.distinct_count is Absent
    &&& c.byte_size == (if t is Utf8 {
        Precision::Absent
    } else {
        Precision::Exact((rows * t.width()) as usize)
    })
    &&& match field.slots {
        Some((min, max)) => c.min_value == slot_value(t, min) && c.max_value == slot_value(t, max),
        None => c.min_value is Absent && c.max_value is Absent,
    }
}

/// Bytes of all field files.
pub open spec fn bytes_in_all(fields: Seq<FieldStat>) -> nat
    decreases fields.len(),
{
    if fields.len() == 0 {
        0
    } else {
        bytes_in_all(fields.drop_last()) + fields.last().size as nat
    }
}

proof fn lemma_bytes_in_all(fields: Seq<FieldStat>, k: int)
    requires
        0 <= k <= fields.len(),
    ensures
        bytes_in_all(fields.take(k)) <= bytes_in_all(fields),
    decreases fields.len() - k,
{
    if k < fields.len() {
        assert(fields.take(k + 1).drop_last() =~= fields.take(k));
        lemma_bytes_in_all(fields, k + 1);
    } else {
        assert(fields.take(k) =~= fields);
    }
}

/// The bytes of a number, in the width of its type, are read as a value of that type that
/// holds the same number; a truth value is false for the byte 0 alone; text is none.
pub proof fn law_value_read_back(v: FilterValue, bytes: Seq<u8>)
    requires
        match v {
            FilterValue::Int8(x) => bytes == le::le_bytes((x as int % 0x100) as nat, 1),
            FilterValue::Int16(x) => bytes == le::le_bytes((x as int % 0x1_0000) as nat, 2),
            FilterValue::Int32(x) => bytes == le::le_bytes((x as int % 0x1_0000_0000) as nat, 4),
            FilterValue::Int64(x) => bytes == le::le_bytes((x as int % 0x1_0000_0000_0000_0000) as nat, 8),
            FilterValue::Date32(x) => bytes == le::le_bytes((x as int % 0x1_0000_0000) as nat, 4),
            FilterValue::Date64(x) => bytes == le::le_bytes((x as int % 0x1_0000_0000_0000_0000) as nat, 8),
            FilterValue::TimestampUs(x) => bytes == le::le_bytes((x as int % 0x1_0000_0000_0000_0000) as nat, 8),
            FilterValue::UInt8(x) => bytes == le::le_bytes(x as nat, 1),
            FilterValue::UInt16(x) => bytes == le::le_bytes(x as nat, 2),
            FilterValue::UInt32(x) => bytes == le::le_bytes(x as nat, 4),
            FilterValue::UInt64(x) => bytes == le::le_bytes(x as nat, 8),
            FilterValue::Float32(x) => bytes == le::le_bytes(x as nat, 4),
            FilterValue::Float64(x) => bytes == le::le_bytes(x as nat, 8),
            FilterValue::Bool(yes) => bytes.len() == 1 && (yes <==> bytes[0] != 0),
            FilterValue::String(_) => true,
        },
    ensures
        match v {
            FilterValue::Int8(_) => value_of(DataType::Int8, bytes) == Some(v),
            FilterValue::Int16(_) => value_of(DataType::Int16, bytes) == Some(v),
            FilterValue::Int32(_) => value_of(DataType::Int32, bytes) == Some(v),
            FilterValue::Int64(_) => value_of(DataType::Int64, bytes) == Some(v),
            FilterValue::Date32(_) => value_of(DataType::Date32, bytes) == Some(v),
            FilterValue::Date64(_) => value_of(DataType::Date64, bytes) == Some(v),
            FilterValue::TimestampUs(_) => value_of(DataType::TimestampUs, bytes) == Some(v),
            FilterValue::UInt8(_) => value_of(DataType::UInt8, bytes) == Some(v),
            FilterValue::UInt16(_) => value_of(DataType::UInt16, bytes) == Some(v),
            FilterValue::UInt32(_) => value_of(DataType::UInt32, bytes) == Some(v),
            FilterValue::UInt64(_) => value_of(DataType::UInt64, bytes) == Some(v),
            FilterValue::Float32(_) => value_of(DataType::Float32, bytes) == Some(v),
            FilterValue::Float64(_) => value_of(DataType::Float64, bytes) == Some(v),
            FilterValue::Bool(_) => value_of(DataType::Bool, bytes) == Some(v),
            FilterValue::String(_) => value_of(DataType::Utf8, bytes) is None,
        },
{
    broadcast use le::lemma_le_bytes_len;

    le::lemma_le_limits();
    match v {
        FilterValue::Int8(x) => {
            le::lemma_le_value_of_bytes((x as int % 0x100) as nat, 1);
        },
        FilterValue::Int16(x) => {
            le::lemma_le_value_of_bytes((x as int % 0x1_0000) as nat, 2);
        },
        FilterValue::Int32(x) => {
            le::lemma_le_value_of_bytes((x as int % 0x1_0000_0000) as nat, 4);
        },
        FilterValue::Int64(x) => {
            le::lemma_le_value_of_bytes((x as int % 0x1_0000_0000_0000_0000) as nat, 8);
        },
        FilterValue::Date32(x) => {
            le::lemma_le_value_of_bytes((x as int % 0x1_0000_0000) as nat, 4);
        },
        FilterValue::Date64(x) => {
            le::lemma_le_value_of_bytes((x as int % 0x1_0000_0000_0000_0000) as nat, 8);
        },
        FilterValue::TimestampUs(x) => {
            le::lemma_le_value_of_bytes((x as int % 0x1_0000_0000_0000_0000) as nat, 8);
        },
        FilterValue::UInt8(x) => {
            le::lemma_le_value_of_bytes(x as nat, 1);
            assert(bytes[0] == x);
        },
        FilterValue::UInt16(x) => {
            le::lemma_le_value_of_bytes(x as nat, 2);
        },
        FilterValue::UInt32(x) => {
            le::lemma_le_value_of_bytes(x as nat, 4);
        },
        FilterValue::UInt64(x) => {
            le::lemma_le_value_of_bytes(x as nat, 8);
        },
        FilterValue::Float32(x) => {
            le::lemma_le_value_of_bytes(x as nat, 4);
        },
        FilterValue::Float64(x) => {
            le::lemma_le_value_of_bytes(x as nat, 8);
        },
        _ => {},
    }
}

/// What is known of the times of a dataset whose time axis is in order: the least and the
/// greatest are times of the axis, no time of the axis lies outside them, none is missing,
/// each takes 4 or 8 bytes, and as many differ as the axis is long.
pub proof fn law_times_bounded(c: ColumnStatistics, meta: DatasetSummary, i: int)
    requires
        time_statistics(c, meta),
        0 <= i < meta.time_axis@.len(),
        forall|a: int, b: int|
            0 <= a < b < meta.time_axis@.len() ==> meta.time_axis@[a] < meta.time_axis@[b],
        meta.time_type is Date32 ==> forall|k: int|
            0 <= k < meta.time_axis@.len() ==> i32::MIN <= #[trigger] meta.time_axis@[k]
                <= i32::MAX,
        meta.total_rows * 8 <= usize::MAX,
    ensures
        meta.time_type is Date32 ==> {
            &&& c.min_value matches Precision::Exact(FilterValue::Date32(lo))
            &&& c.max_value matches Precision::Exact(FilterValue::Date32(hi))
            &&& lo <= meta.time_axis@[i] <= hi
            &&& exists|k: int| 0 <= k < meta.time_axis@.len() && #[trigger] meta.time_axis@[k] == lo
            &&& exists|k: int| 0 <= k < meta.time_axis@.len() && #[trigger] meta.time_axis@[k] == hi
            &&& c.byte_size matches Precision::Exact(n) && n == 4 * meta.total_rows
        },
        meta.time_type is TimestampUs ==> {
            &&& c.min_value matches Precision::Exact(FilterValue::TimestampUs(lo))
            &&& c.max_value matches Precision::Exact(FilterValue::TimestampUs(hi))
            &&& lo <= meta.time_axis@[i] <= hi
            &&& exists|k: int| 0 <= k < meta.time_axis@.len() && #[trigger] meta.time_axis@[k] == lo
            &&& exists|k: int| 0 <= k < meta.time_axis@.len() && #[trigger] meta.time_axis@[k] == hi
            &&& c.byte_size matches Precision::Exact(n) && n == 8 * meta.total_rows
        },
        c.null_count == Precision::Exact(0usize),
        c.distinct_count matches Precision::Exact(n) && n == meta.time_axis@.len(),
{
    let axis = meta.time_axis@;
    let last = axis.len() - 1;
    assert(axis[0] <= axis[i] <= axis[last]);
}

/// What is known of a field: as many values are missing as its file says, each value takes
/// the bytes of its type, and a bound is the number whose bytes its slot starts with.
pub proof fn law_field_bounds(
    c: ColumnStatistics,
    field: FieldStat,
    rows: usize,
    lo: FilterValue,
    hi: FilterValue,
)
    requires
        field_statistics(c, field, rows),
        rows * 8 <= usize::MAX,
    ensures
        c.null_count matches Precision::Exact(n) && n == field.null_count,
        c.distinct_count is Absent,
        field.slots is None ==> c.min_value is Absent && c.max_value is Absent,
        match field.data_type {
            DataType::Utf8 => c.byte_size is Absent && c.min_value is Absent && c.max_value
                is Absent,
            DataType::Bool | DataType::Int8 | DataType::UInt8 => c.byte_size == Precision::Exact(
                rows,
            ),
            DataType::Int16 | DataType::UInt16 => c.byte_size == Precision::Exact(
                (2 * rows) as usize,
            ),
            DataType::Int32 | DataType::UInt32 | DataType::Float32 | DataType::Date32 => {
                c.byte_size == Precision::Exact((4 * rows) as usize)
            },
            _ => c.byte_size == Precision::Exact((8 * rows) as usize),
        },
        match field.slots {
            Some((min, max)) => {
                &&& lo matches FilterValue::Int8(x) ==> field.data_type is Int8 && min@.take(1)
                    == le::le_bytes((x as int % 0x100) as nat, 1) ==> c.min_value == Precision::Exact(
                    lo,
                )
                &&& hi matches FilterValue::Int8(y) ==> field.data_type is Int8 && max@.take(1)
                    == le::le_bytes((y as int % 0x100) as nat, 1) ==> c.max_value == Precision::Exact(
                    hi,
                )
                &&& lo matches FilterValue::Int16(x) ==> field.data_type is Int16 && min@.take(2)
                    == le::le_bytes((x as int % 0x1_0000) as nat, 2) ==> c.min_value == Precision::Exact(
                    lo,
                )
                &&& hi matches FilterValue::Int16(y) ==> field.data_type is Int16 && max@.take(2)
                    == le::le_bytes((y as int % 0x1_0000) as nat, 2) ==> c.max_value == Precision::Exact(
                    hi,
                )
                &&& lo matches FilterValue::Int32(x) ==> field.data_type is Int32 && min@.take(4)
                    == le::le_bytes((x as int % 0x1_0000_0000) as nat, 4) ==> c.min_value == Precision::Exact(
                    lo,
                )
                &&& hi matches FilterValue::Int32(y) ==> field.data_type is Int32 && max@.take(4)
                    == le::le_bytes((y as int % 0x1_0000_0000) as nat, 4) ==> c.max_value == Precision::Exact(
                    hi,
                )
                &&& lo matches FilterValue::Int64(x) ==> field.data_type is Int64 && min@.take(8)
                    == le::le_bytes((x as int % 0x1_0000_0000_0000_0000) as nat, 8) ==> c.min_value == Precision::Exact(
                    lo,
                )
                &&& hi matches FilterValue::Int64(y) ==> field.data_type is Int64 && max@.take(8)
                    == le::le_bytes((y as int % 0x1_0000_0000_0000_0000) as nat, 8) ==> c.max_value == Precision::Exact(
                    hi,
                )
                &&& lo matches FilterValue::Date32(x) ==> field.data_type is Date32 && min@.take(4)
                    == le::le_bytes((x as int % 0x1_0000_0000) as nat, 4) ==> c.min_value == Precision::Exact(
                    lo,
                )
                &&& hi matches FilterValue::Date32(y) ==> field.data_type is Date32 && max@.take(4)
                    == le::le_bytes((y as int % 0x1_0000_0000) as nat, 4) ==> c.max_value == Precision::Exact(
                    hi,
                )
                &&& lo matches FilterValue::Date64(x) ==> field.data_type is Date64 && min@.take(8)
                    == le::le_bytes((x as int % 0x1_0000_0000_0000_0000) as nat, 8) ==> c.min_value == Precision::Exact(
                    lo,
                )
                &&& hi matches FilterValue::Date64(y) ==> field.data_type is Date64 && max@.take(8)
                    == le::le_bytes((y as int % 0x1_0000_0000_0000_0000) as nat, 8) ==> c.max_value == Precision::Exact(
                    hi,
                )
                &&& lo matches FilterValue::TimestampUs(x) ==> field.data_type is TimestampUs && min@.take(8)
                    == le::le_bytes((x as int % 0x1_0000_0000_0000_0000) as nat, 8) ==> c.min_value == Precision::Exact(
                    lo,
                )
                &&& hi matches FilterValue::TimestampUs(y) ==> field.data_type is TimestampUs && max@.take(8)
                    == le::le_bytes((y as int % 0x1_0000_0000_0000_0000) as nat, 8) ==> c.max_value == Precision::Exact(
                    hi,
                )
                &&& lo matches FilterValue::UInt8(x) ==> field.data_type is UInt8 && min@.take(1)
                    == le::le_bytes(x as nat, 1) ==> c.min_value == Precision::Exact(
                    lo,
                )
                &&& hi matches FilterValue::UInt8(y) ==> field.data_type is UInt8 && max@.take(1)
                    == le::le_bytes(y as nat, 1) ==> c.max_value == Precision::Exact(
                    hi,
                )
                &&& lo matches FilterValue::UInt16(x) ==> field.data_type is UInt16 && min@.take(2)
                    == le::le_bytes(x as nat, 2) ==> c.min_value == Precision::Exact(
                    lo,
                )
                &&& hi matches FilterValue::UInt16(y) ==> field.data_type is UInt16 && max@.take(2)
                    == le::le_bytes(y as nat, 2) ==> c.max_value == Precision::Exact(
                    hi,
                )
                &&& lo matches FilterValue::UInt32(x) ==> field.data_type is UInt32 && min@.take(4)
                    == le::le_bytes(x as nat, 4) ==> c.min_value == Precision::Exact(
                    lo,
                )
                &&& hi matches FilterValue::UInt32(y) ==> field.data_type is UInt32 && max@.take(4)
                    == le::le_bytes(y as nat, 4) ==> c.max_value == Precision::Exact(
                    hi,
                )
                &&& lo matches FilterValue::UInt64(x) ==> field.data_type is UInt64 && min@.take(8)
                    == le::le_bytes(x as nat, 8) ==> c.min_value == Precision::Exact(
                    lo,
                )
                &&& hi matches FilterValue::UInt64(y) ==> field.data_type is UInt64 && max@.take(8)
                    == le::le_bytes(y as nat, 8) ==> c.max_value == Precision::Exact(
                    hi,
                )
                &&& lo matches FilterValue::Float32(x) ==> field.data_type is Float32 && min@.take(4)
                    == le::le_bytes(x as nat, 4) ==> c.min_value == Precision::Exact(
                    lo,
                )
                &&& hi matches FilterValue::Float32(y) ==> field.data_type is Float32 && max@.take(4)
                    == le::le_bytes(y as nat, 4) ==> c.max_value == Precision::Exact(
                    hi,
                )
                &&& lo matches FilterValue::Float64(x) ==> field.data_type is Float64 && min@.take(8)
                    == le::le_bytes(x as nat, 8) ==> c.min_value == Precision::Exact(
                    lo,
                )
                &&& hi matches FilterValue::Float64(y) ==> field.data_type is Float64 && max@.take(8)
                    == le::le_bytes(y as nat, 8) ==> c.max_value == Precision::Exact(
                    hi,
                )
            },
            None => true,
        },
{
    le::lemma_le_limits();
    if let Some((min, max)) = field.slots {
        let w = field.data_type.width() as int;
        match lo {
            FilterValue::Int8(x) => if min@.take(w) == le::le_bytes((x as int % 0x100) as nat, 1) {
                law_value_read_back(lo, min@.take(w));
            },
            FilterValue::Int16(x) => if min@.take(w) == le::le_bytes((x as int % 0x1_0000) as nat, 2) {
                law_value_read_back(lo, min@.take(w));
            },
            FilterValue::Int32(x) => if min@.take(w) == le::le_bytes((x as int % 0x1_0000_0000) as nat, 4) {
                law_value_read_back(lo, min@.take(w));
            },
            FilterValue::Int64(x) => if min@.take(w) == le::le_bytes((x as int % 0x1_0000_0000_0000_0000) as nat, 8) {
                law_value_read_back(lo, min@.take(w));
            },
            FilterValue::Date32(x) => if min@.take(w) == le::le_bytes((x as int % 0x1_0000_0000) as nat, 4) {
                law_value_read_back(lo, min@.take(w));
            },
            FilterValue::Date64(x) => if min@.take(w) == le::le_bytes((x as int % 0x1_0000_0000_0000_0000) as nat, 8) {
                law_value_read_back(lo, min@.take(w));
            },
            FilterValue::TimestampUs(x) => if min@.take(w) == le::le_bytes((x as int % 0x1_0000_0000_0000_0000) as nat, 8) {
                law_value_read_back(lo, min@.take(w));
            },
            FilterValue::UInt8(x) => if min@.take(w) == le::le_bytes(x as nat, 1) {
                law_value_read_back(lo, min@.take(w));
            },
            FilterValue::UInt16(x) => if min@.take(w) == le::le_bytes(x as nat, 2) {
                law_value_read_back(lo, min@.take(w));
            },
            FilterValue::UInt32(x) => if min@.take(w) == le::le_bytes(x as nat, 4) {
                law_value_read_back(lo, min@.take(w));
            },
            FilterValue::UInt64(x) => if min@.take(w) == le::le_bytes(x as nat, 8) {
                law_value_read_back(lo, min@.take(w));
            },
            FilterValue::Float32(x) => if min@.take(w) == le::le_bytes(x as nat, 4) {
                law_value_read_back(lo, min@.take(w));
            },
            FilterValue::Float64(x) => if min@.take(w) == le::le_bytes(x as nat, 8) {
                law_value_read_back(lo, min@.take(w));
            },
            _ => {},
        }
        match hi {
            FilterValue::Int8(x) => if max@.take(w) == le::le_bytes((x as int % 0x100) as nat, 1) {
                law_value_read_back(hi, max@.take(w));
            },
            FilterValue::Int16(x) => if max@.take(w) == le::le_bytes((x as int % 0x1_0000) as nat, 2) {
                law_value_read_back(hi, max@.take(w));
            },
            FilterValue::Int32(x) => if max@.take(w) == le::le_bytes((x as int % 0x1_0000_0000) as nat, 4) {
                law_value_read_back(hi, max@.take(w));
            },
            FilterValue::Int64(x) => if max@.take(w) == le::le_bytes((x as int % 0x1_0000_0000_0000_0000) as nat, 8) {
                law_value_read_back(hi, max@.take(w));
            },
            FilterValue::Date32(x) => if max@.take(w) == le::le_bytes((x as int % 0x1_0000_0000) as nat, 4) {
                law_value_read_back(hi, max@.take(w));
            },
            FilterValue::Date64(x) => if max@.take(w) == le::le_bytes((x as int % 0x1_0000_0000_0000_0000) as nat, 8) {
                law_value_read_back(hi, max@.take(w));
            },
            FilterValue::TimestampUs(x) => if max@.take(w) == le::le_bytes((x as int % 0x1_0000_0000_0000_0000) as nat, 8) {
                law_value_read_back(hi, max@.take(w));
            },
            FilterValue::UInt8(x) => if max@.take(w) == le::le_bytes(x as nat, 1) {
                law_value_read_back(hi, max@.take(w));
            },
            FilterValue::UInt16(x) => if max@.take(w) == le::le_bytes(x as nat, 2) {
                law_value_read_back(hi, max@.take(w));
            },
            FilterValue::UInt32(x) => if max@.take(w) == le::le_bytes(x as nat, 4) {
                law_value_read_back(hi, max@.take(w));
            },
            FilterValue::UInt64(x) => if max@.take(w) == le::le_bytes(x as nat, 8) {
                law_value_read_back(hi, max@.take(w));
            },
            FilterValue::Float32(x) => if max@.take(w) == le::le_bytes(x as nat, 4) {
                law_value_read_back(hi, max@.take(w));
            },
            FilterValue::Float64(x) => if max@.take(w) == le::le_bytes(x as nat, 8) {
                law_value_read_back(hi, max@.take(w));
            },
            _ => {},
        }
    }
}

/// The bytes of all files are what their sizes add up to: with one file more, its size more.
pub proof fn law_bytes_add(fields: Seq<FieldStat>, other: Seq<FieldStat>, one: FieldStat)
    ensures
        bytes_in_all(Seq::empty()) == 0,
        bytes_in_all(seq![one]) == one.size,
        bytes_in_all(fields + other) == bytes_in_all(fields) + bytes_in_all(other),
    decreases other.len(),
{
    assert(seq![one].drop_last() =~= Seq::empty());
    if other.len() == 0 {
        assert(fields + other =~= fields);
    } else {
        law_bytes_add(fields, other.drop_last(), one);
        assert((fields + other).drop_last() =~= fields + other.drop_last());
    }
}

/// The statistics of a dataset: of time, of symbol, and of each field.
pub fn compute_statistics(meta: &DatasetSummary, fields: &[FieldStat]) -> (s: Statistics)
    requires
        meta.total_rows * meta.time_type.width() <= usize::MAX,
        meta.time_type is Date32 ==> forall|i: int|
            0 <= i < meta.time_axis@.len() ==> i32::MIN <= #[trigger] meta.time_axis@[i]
                <= i32::MAX,
        forall|i: int|
            0 <= i < fields@.len() ==> meta.total_rows * (#[trigger] fields@[i]).data_type.width()
                <= usize::MAX,
        bytes_in_all(fields@) <= usize::MAX,
    ensures
        s.num_rows == Precision::Exact(meta.total_rows),
        s.total_byte_size == Precision::Exact(bytes_in_all(fields@) as usize),
        s.column_statistics@.len() == fields@.len() + 2,
        time_statistics(s.column_statistics@[0], *meta),
        sym_statistics(s.column_statistics@[1], *meta),
        forall|i: int|
            0 <= i < fields@.len() ==> field_statistics(
                s.column_statistics@[i + 2],
                #[trigger] fields@[i],
                meta.total_rows,
            ),
{
    let rows: usize = meta.total_rows;
    let axis = &meta.time_axis;
    let mut columns: Vec<ColumnStatistics> = Vec::new();
    let (min_value, max_value) = if axis.len() == 0 {
        (Precision::Absent, Precision::Absent)
    } else {
        let last: i64 = axis[axis.len() - 1];
        (
            Precision::Exact(make_time(meta.time_type, axis[0])),
            Precision::Exact(make_time(meta.time_type, last)),
        )
    };
    columns.push(
        ColumnStatistics {
            null_count: Precision::Exact(0),
            min_value,
            max_value,
            distinct_count: Precision::Exact(axis.len()),
            byte_size: Precision::Exact(rows * meta.time_type.size_of()),
        },
    );
    columns.push(
        ColumnStatistics {
            null_count: Precision::Exact(0),
            min_value: Precision::Absent,
            max_value: Precision::Absent,
            distinct_count: Precision::Exact(meta.symbols),
            byte_size: Precision::Absent,
        },
    );
    let mut bytes: u64 = 0;
    let mut k: usize = 0;
    let ghost head = columns@;
    assert(fields@.take(0).len() == 0);
    while k < fields.len()
        invariant
            k <= fields@.len(),
            rows == meta.total_rows,
            forall|i: int|
                0 <= i < fields@.len() ==> rows * (#[trigger] fields@[i]).data_type.width()
                    <= usize::MAX,
            bytes_in_all(fields@) <= u64::MAX,
            bytes == bytes_in_all(fields@.take(k as int)),
            columns@.len() == k + 2,
            head.len() == 2,
            columns@[0] == head[0],
            columns@[1] == head[1],
            forall|i: int|
                0 <= i < k ==> field_statistics(columns@[i + 2], #[trigger] fields@[i], rows),
        decreases fields.len() - k,
    {
        let field = &fields[k];
        let t = field.data_type;
        proof {
            assert(rows * fields@[k as int].data_type.width() <= usize::MAX);
            assert(fields@.take(k + 1).drop_last() =~= fields@.take(k as int));
            lemma_bytes_in_all(fields@, k + 1);
        }
        let byte_size = match t {
            DataType::Utf8 => Precision::Absent,
            _ => Precision::Exact(rows * t.size_of()),
        };
        let (min_value, max_value) = match &field.slots {
            Some((min, max)) => match field_stats_scalars(t, min, max) {
                Some((lo, hi)) => (Precision::Exact(lo), Precision::Exact(hi)),
                None => (Precision::Absent, Precision::Absent),
            },
            None => (Precision::Absent, Precision::Absent),
        };
        let ghost before = columns@;
        columns.push(
            ColumnStatistics {
                null_count: Precision::Exact(field.null_count as usize),
                min_value,
                max_value,
                distinct_count: Precision::Absent,
                byte_size,
            },
        );
        bytes = bytes + field.size;
        proof {
            assert forall|i: int| 0 <= i < k + 1 implies field_statistics(
                columns@[i + 2],
                #[trigger] fields@[i],
                rows,
            ) by {
                if i < k {
                    assert(columns@[i + 2] == before[i + 2]);
                }
            }
        }
        k += 1;
    }
    assert(fields@.take(k as int) =~= fields@);
    Statistics {
        num_rows: Precision::Exact(rows),
        total_byte_size: Precision::Exact(bytes as usize),
        column_statistics: columns,
    }
}

/// The sum of two figures, if both are known; the greatest number where it is larger.
pub open spec fn summed(a: Precision<usize>, b: Precision<usize>) -> Precision<usize> {
    match (a, b) {
        (Precision::Exact(x), Precision::Exact(y)) => Precision::Exact(
            if x + y > usize::MAX {
                usize::MAX
            } else {
                (x + y) as usize
            },
        ),
        _ => Precision::Absent,
    }
}

fn sum_precision(a: &Precision<usize>, b: &Precision<usize>) -> (r: Precision<usize>)
    ensures
        r == summed(*a, *b),
{
    match (a, b) {
        (Precision::Exact(x), Precision::Exact(y)) => Precision::Exact(
            match x.checked_add(*y) {
                Some(sum) => sum,
                None => usize::MAX,
            },
        ),
        _ => Precision::Absent,
    }
}

/// The time in a value.
pub open spec fn time_in(v: FilterValue) -> Option<i64> {
    match v {
        FilterValue::Date32(t) => Some(t as i64),
        FilterValue::TimestampUs(t) => Some(t),
        _ => None,
    }
}

/// The earlier of two times, if both are known; the first where they are equal.
pub open spec fn earlier(a: Precision<FilterValue>, b: Precision<FilterValue>) -> Precision<
    FilterValue,
> {
    match (a, b) {
        (Precision::Exact(x), Precision::Exact(y)) => match (time_in(x), time_in(y)) {
            (Some(s), Some(t)) => if s <= t {
                a
            } else {
                b
            },
            _ => Precision::Absent,
        },
        _ => Precision::Absent,
    }
}

/// The later of two times, if both are known; the first where they are equal.
pub open spec fn later(a: Precision<FilterValue>, b: Precision<FilterValue>) -> Precision<
    FilterValue,
> {
    match (a, b) {
        (Precision::Exact(x), Precision::Exact(y)) => match (time_in(x), time_in(y)) {
            (Some(s), Some(t)) => if s >= t {
                a
            } else {
                b
            },
            _ => Precision::Absent,
        },
        _ => Precision::Absent,
    }
}

/// The time in a value, and the value.
fn copy_time(v: &FilterValue) -> (r: Option<(i64, FilterValue)>)
    ensures
        match time_in(*v) {
            Some(t) => r == Some((t, *v)),
            None => r is None,
        },
{
    match v {
        FilterValue::Date32(t) => Some((*t as i64, FilterValue::Date32(*t))),
        FilterValue::TimestampUs(t) => Some((*t, FilterValue::TimestampUs(*t))),
        _ => None,
    }
}

fn min_precision(a: &Precision<FilterValue>, b: &Precision<FilterValue>) -> (r: Precision<
    FilterValue,
>)
    ensures
        r == earlier(*a, *b),
{
    match (a, b) {
        (Precision::Exact(x), Precision::Exact(y)) => match (copy_time(x), copy_time(y)) {
            (Some((s, v)), Some((t, w))) => if s <= t {
                Precision::Exact(v)
            } else {
                Precision::Exact(w)
            },
            _ => Precision::Absent,
        },
        _ => Precision::Absent,
    }
}

fn max_precision(a: &Precision<FilterValue>, b: &Precision<FilterValue>) -> (r: Precision<
    FilterValue,
>)
    ensures
        r == later(*a, *b),
{
    match (a, b) {
        (Precision::Exact(x), Precision::Exact(y)) => match (copy_time(x), copy_time(y)) {
            (Some((s, v)), Some((t, w))) => if s >= t {
                Precision::Exact(v)
            } else {
                Precision::Exact(w)
            },
            _ => Precision::Absent,
        },
        _ => Precision::Absent,
    }
}

/// What is known of a column of two tables together.
pub open spec fn merged_column(a: ColumnStatistics, b: ColumnStatistics) -> ColumnStatistics {
    ColumnStatistics {
        null_count: summed(a.null_count, b.null_count),
        min_value: earlier(a.min_value, b.min_value),
        max_value: later(a.max_value, b.max_value),
        distinct_count: summed(a.distinct_count, b.distinct_count),
        byte_size: summed(a.byte_size, b.byte_size),
    }
}

/// What is known of two tables together.
pub open spec fn merges(out: Statistics, a: Statistics, b: Statistics) -> bool {
    &&& out.num_rows == summed(a.num_rows, b.num_rows)
    &&& out.total_byte_size == summed(a.total_byte_size, b.total_byte_size)
    &&& out.column_statistics@ == Seq::new(
        a.column_statistics@.len(),
        |i: int| merged_column(a.column_statistics@[i], b.column_statistics@[i]),
    )
}

fn merge_statistics(a: &Statistics, b: &Statistics) -> (r: Option<Statistics>)
    ensures
        match r {
            Some(out) => a.column_statistics@.len() == b.column_statistics@.len() && merges(
                out,
                *a,
                *b,
            ),
            None => a.column_statistics@.len() != b.column_statistics@.len(),
        },
{
    if a.column_statistics.len() != b.column_statistics.len() {
        return None;
    }
    let mut columns: Vec<ColumnStatistics> = Vec::new();
    let mut k: usize = 0;
    while k < a.column_statistics.len()
        invariant
            k <= a.column_statistics@.len(),
            a.column_statistics@.len() == b.column_statistics@.len(),
            columns@.len() == k,
            forall|i: int|
                0 <= i < k ==> columns@[i] == merged_column(
                    a.column_statistics@[i],
                    b.column_statistics@[i],
                ),
        decreases a.column_statistics.len() - k,
    {
        let x = &a.column_statistics[k];
        let y = &b.column_statistics[k];
        columns.push(
            ColumnStatistics {
                null_count: sum_precision(&x.null_count, &y.null_count),
                min_value: min_precision(&x.min_value, &y.min_value),
                max_value: max_precision(&x.max_value, &y.max_value),
                distinct_count: sum_precision(&x.distinct_count, &y.distinct_count),
                byte_size: sum_precision(&x.byte_size, &y.byte_size),
            },
        );
        k += 1;
    }
    let out = Statistics {
        num_rows: sum_precision(&a.num_rows, &b.num_rows),
        total_byte_size: sum_precision(&a.total_byte_size, &b.total_byte_size),
        column_statistics: columns,
    };
    assert(out.column_statistics@ =~= Seq::new(
        a.column_statistics@.len(),
        |i: int| merged_column(a.column_statistics@[i], b.column_statistics@[i]),
    ));
    Some(out)
}

/// The partitions have statistics of the same columns.
pub open spec fn same_columns(parts: Seq<Statistics>) -> bool {
    forall|i: int|
        0 <= i < parts.len() ==> (#[trigger] parts[i]).column_statistics@.len()
            == parts[0].column_statistics@.len()
}

/// The sum of a figure of several partitions, added up from the first on.
pub open spec fn summed_all(figures: Seq<Precision<usize>>) -> Precision<usize>
    decreases figures.len(),
{
    if figures.len() == 0 {
        Precision::Absent
    } else if figures.len() == 1 {
        figures[0]
    } else {
        summed(summed_all(figures.drop_last()), figures.last())
    }
}

/// What is known of a column of several partitions.
pub open spec fn merged_columns(columns: Seq<ColumnStatistics>) -> ColumnStatistics
    decreases columns.len(),
{
    if columns.len() <= 1 {
        columns[0]
    } else {
        merged_column(merged_columns(columns.drop_last()), columns.last())
    }
}

/// Rows of each partition.
pub open spec fn row_figures(parts: Seq<Statistics>) -> Seq<Precision<usize>> {
    Seq::new(parts.len(), |i: int| parts[i].num_rows)
}

/// Bytes of each partition.
pub open spec fn byte_figures(parts: Seq<Statistics>) -> Seq<Precision<usize>> {
    Seq::new(parts.len(), |i: int| parts[i].total_byte_size)
}

/// Column `j` of each partition.
pub open spec fn column_figures(parts: Seq<Statistics>, j: int) -> Seq<ColumnStatistics> {
    Seq::new(parts.len(), |i: int| parts[i].column_statistics@[j])
}

/// What is known of several partitions.
pub open spec fn merged_parts(out: Statistics, parts: Seq<Statistics>) -> bool {
    &&& out.num_rows == summed_all(row_figures(parts))
    &&& out.total_byte_size == summed_all(byte_figures(parts))
    &&& out.column_statistics@.len() == parts[0].column_statistics@.len()
    &&& forall|j: int|
        0 <= j < out.column_statistics@.len() ==> (#[trigger] out.column_statistics@[j])
            == merged_columns(column_figures(parts, j))
}

/// The statistics of a table from those of its partitions: nothing where there are none,
/// or where they are not of the same columns.
pub fn aggregate_statistics(parts: Vec<Statistics>) -> (out: Statistics)
    ensures
        if parts@.len() == 0 || !same_columns(parts@) {
            out.unknown()
        } else {
            merged_parts(out, parts@)
        },
{
    let ghost all = parts@;
    let mut rest = parts;
    if rest.len() == 0 {
        return Statistics::default();
    }
    let mut sum = rest.remove(0);
    let mut k: usize = 0;
    proof {
        assert(rest@ =~= all.skip(1));
        let one = all.take(1);
        assert(row_figures(one)[0] == all[0].num_rows);
        assert(byte_figures(one)[0] == all[0].total_byte_size);
        assert forall|j: int| 0 <= j < sum.column_statistics@.len() implies (
        #[trigger] sum.column_statistics@[j]) == merged_columns(column_figures(one, j)) by {
            assert(column_figures(one, j)[0] == all[0].column_statistics@[j]);
        }
    }
    while k < rest.len()
        invariant
            k <= rest@.len(),
            all == parts@,
            all.len() == rest@.len() + 1,
            rest@ == all.skip(1),
            same_columns(all.take(k + 1)),
            merged_parts(sum, all.take(k + 1)),
        decreases rest.len() - k,
    {
        let ghost before = all.take(k + 1);
        let ghost after = all.take(k + 2);
        proof {
            assert(rest@[k as int] == all[k + 1]);
            assert(after.drop_last() =~= before);
            assert(before[0] == all[0]);
        }
        match merge_statistics(&sum, &rest[k]) {
            Some(merged) => {
                proof {
                    assert(row_figures(after).drop_last() =~= row_figures(before));
                    assert(byte_figures(after).drop_last() =~= byte_figures(before));
                    assert forall|j: int| 0 <= j < merged.column_statistics@.len() implies (
                    #[trigger] merged.column_statistics@[j]) == merged_columns(
                        column_figures(after, j),
                    ) by {
                        assert(column_figures(after, j).drop_last() =~= column_figures(before, j));
                        assert(sum.column_statistics@[j] == merged_columns(
                            column_figures(before, j),
                        ));
                    }
                    assert forall|i: int| 0 <= i < after.len() implies (
                    #[trigger] after[i]).column_statistics@.len()
                        == after[0].column_statistics@.len() by {
                        if i < before.len() {
                            assert(after[i] == before[i]);
                        }
                    }
                }
                sum = merged;
            },
            None => {
                proof {
                    assert(all[k + 1].column_statistics@.len()
                        != all[0].column_statistics@.len());
                }
                return Statistics::default();
            },
        }
        k += 1;
    }
    assert(all.take(k + 1) =~= all);
    sum
}

/// The least time of one column of several partitions, over the times themselves.
proof fn lemma_least_time(columns: Seq<ColumnStatistics>, lo: Seq<i64>)
    requires
        columns.len() > 0,
        lo.len() == columns.len(),
        forall|k: int|
            0 <= k < columns.len() ==> match (#[trigger] columns[k]).min_value {
                Precision::Exact(FilterValue::Date32(t)) => t == lo[k],
                Precision::Exact(FilterValue::TimestampUs(t)) => t == lo[k],
                _ => false,
            },
    ensures
        exists|k: int|
            0 <= k < columns.len() && merged_columns(columns).min_value == (
            #[trigger] columns[k]).min_value && forall|i: int|
                0 <= i < columns.len() ==> lo[k] <= #[trigger] lo[i],
    decreases columns.len(),
{
    let n = columns.len() - 1;
    if n == 0 {
        assert(columns[0].min_value == merged_columns(columns).min_value);
    } else {
        let (front, times) = (columns.drop_last(), lo.drop_last());
        assert forall|k: int| 0 <= k < front.len() implies match (#[trigger] front[k]).min_value {
            Precision::Exact(FilterValue::Date32(t)) => t == times[k],
            Precision::Exact(FilterValue::TimestampUs(t)) => t == times[k],
            _ => false,
        } by {
            assert(front[k] == columns[k]);
        }
        lemma_least_time(front, times);
        let k = choose|k: int|
            0 <= k < front.len() && merged_columns(front).min_value == (
            #[trigger] front[k]).min_value && forall|i: int|
                0 <= i < front.len() ==> times[k] <= #[trigger] times[i];
        assert(front[k] == columns[k] && times[k] == lo[k]);
        let at = if lo[k] <= lo[n] {
            k
        } else {
            n
        };
        assert(merged_columns(columns).min_value == columns[at].min_value);
        assert forall|i: int| 0 <= i < columns.len() implies lo[at] <= #[trigger] lo[i] by {
            if i < n {
                assert(times[i] == lo[i]);
            }
        }
    }
}

/// The greatest time of one column of several partitions, over the times themselves.
proof fn lemma_greatest_time(columns: Seq<ColumnStatistics>, hi: Seq<i64>)
    requires
        columns.len() > 0,
        hi.len() == columns.len(),
        forall|k: int|
            0 <= k < columns.len() ==> match (#[trigger] columns[k]).max_value {
                Precision::Exact(FilterValue::Date32(t)) => t == hi[k],
                Precision::Exact(FilterValue::TimestampUs(t)) => t == hi[k],
                _ => false,
            },
    ensures
        exists|k: int|
            0 <= k < columns.len() && merged_columns(columns).max_value == (
            #[trigger] columns[k]).max_value && forall|i: int|
                0 <= i < columns.len() ==> hi[k] >= #[trigger] hi[i],
    decreases columns.len(),
{
    let n = columns.len() - 1;
    if n == 0 {
        assert(columns[0].max_value == merged_columns(columns).max_value);
    } else {
        let (front, times) = (columns.drop_last(), hi.drop_last());
        assert forall|k: int| 0 <= k < front.len() implies match (#[trigger] front[k]).max_value {
            Precision::Exact(FilterValue::Date32(t)) => t == times[k],
            Precision::Exact(FilterValue::TimestampUs(t)) => t == times[k],
            _ => false,
        } by {
            assert(front[k] == columns[k]);
        }
        lemma_greatest_time(front, times);
        let k = choose|k: int|
            0 <= k < front.len() && merged_columns(front).max_value == (
            #[trigger] front[k]).max_value && forall|i: int|
                0 <= i < front.len() ==> times[k] >= #[trigger] times[i];
        assert(front[k] == columns[k] && times[k] == hi[k]);
        let at = if hi[k] >= hi[n] {
            k
        } else {
            n
        };
        assert(merged_columns(columns).max_value == columns[at].max_value);
        assert forall|i: int| 0 <= i < columns.len() implies hi[at] >= #[trigger] hi[i] by {
            if i < n {
                assert(times[i] == hi[i]);
            }
        }
    }
}

/// The least time of a table is the least time of one of its partitions and no later than
/// that of any other; the greatest is the greatest of one of them and no earlier than that of
/// any other.
pub proof fn law_merged_times_bound(
    out: Statistics,
    parts: Seq<Statistics>,
    j: int,
    lo: Seq<i64>,
    hi: Seq<i64>,
)
    requires
        parts.len() > 0,
        merged_parts(out, parts),
        0 <= j < out.column_statistics@.len(),
        lo.len() == parts.len(),
        hi.len() == parts.len(),
        forall|k: int|
            0 <= k < parts.len() ==> {
                &&& match (#[trigger] parts[k]).column_statistics@[j].min_value {
                    Precision::Exact(FilterValue::Date32(t)) => t == lo[k],
                    Precision::Exact(FilterValue::TimestampUs(t)) => t == lo[k],
                    _ => false,
                }
                &&& match parts[k].column_statistics@[j].max_value {
                    Precision::Exact(FilterValue::Date32(t)) => t == hi[k],
                    Precision::Exact(FilterValue::TimestampUs(t)) => t == hi[k],
                    _ => false,
                }
            },
    ensures
        exists|k: int|
            0 <= k < parts.len() && out.column_statistics@[j].min_value == (
            #[trigger] parts[k]).column_statistics@[j].min_value && forall|i: int|
                0 <= i < parts.len() ==> lo[k] <= #[trigger] lo[i],
        exists|k: int|
            0 <= k < parts.len() && out.column_statistics@[j].max_value == (
            #[trigger] parts[k]).column_statistics@[j].max_value && forall|i: int|
                0 <= i < parts.len() ==> hi[k] >= #[trigger] hi[i],
{
    let columns = column_figures(parts, j);
    assert forall|k: int| 0 <= k < columns.len() implies #[trigger] columns[k]
        == parts[k].column_statistics@[j] by {}
    assert(out.column_statistics@[j] == merged_columns(columns));
    lemma_least_time(columns, lo);
    let k = choose|k: int|
        0 <= k < columns.len() && merged_columns(columns).min_value == (
        #[trigger] columns[k]).min_value && forall|i: int|
            0 <= i < columns.len() ==> lo[k] <= #[trigger] lo[i];
    assert(out.column_statistics@[j].min_value == parts[k].column_statistics@[j].min_value);
    lemma_greatest_time(columns, hi);
    let k = choose|k: int|
        0 <= k < columns.len() && merged_columns(columns).max_value == (
        #[trigger] columns[k]).max_value && forall|i: int|
            0 <= i < columns.len() ==> hi[k] >= #[trigger] hi[i];
    assert(out.column_statistics@[j].max_value == parts[k].column_statistics@[j].max_value);
}

/// The rows, the bytes and the missing values of two sets of partitions together are those of
/// the one and those of the other, up to the greatest number; a figure that the one or the
/// other lacks is lacking, and so is a bound that is not a time in both.
pub proof fn law_merged_figures_add(
    out: Statistics,
    first: Statistics,
    parts: Seq<Statistics>,
    j: int,
)
    requires
        parts.len() > 1,
        merged_parts(out, parts),
        merged_parts(first, parts.drop_last()),
        0 <= j < out.column_statistics@.len(),
        j < first.column_statistics@.len(),
    ensures
        ({
            let last = parts.last();
            let (c, a, b) = (
                out.column_statistics@[j],
                first.column_statistics@[j],
                last.column_statistics@[j],
            );
            &&& match (first.num_rows, last.num_rows) {
                (Precision::Exact(x), Precision::Exact(y)) => out.num_rows matches Precision::Exact(
                    z,
                ) && (x + y <= usize::MAX ==> z == x + y) && (x + y > usize::MAX ==> z
                    == usize::MAX),
                _ => out.num_rows is Absent,
            }
            &&& match (first.total_byte_size, last.total_byte_size) {
                (Precision::Exact(x), Precision::Exact(y)) => out.total_byte_size
                    matches Precision::Exact(z) && (x + y <= usize::MAX ==> z == x + y) && (x + y
                    > usize::MAX ==> z == usize::MAX),
                _ => out.total_byte_size is Absent,
            }
            &&& match (a.null_count, b.null_count) {
                (Precision::Exact(x), Precision::Exact(y)) => c.null_count
                    matches Precision::Exact(z) && (x + y <= usize::MAX ==> z == x + y) && (x + y
                    > usize::MAX ==> z == usize::MAX),
                _ => c.null_count is Absent,
            }
            &&& match (a.distinct_count, b.distinct_count) {
                (Precision::Exact(x), Precision::Exact(y)) => c.distinct_count
                    matches Precision::Exact(z) && (x + y <= usize::MAX ==> z == x + y) && (x + y
                    > usize::MAX ==> z == usize::MAX),
                _ => c.distinct_count is Absent,
            }
            &&& match (a.byte_size, b.byte_size) {
                (Precision::Exact(x), Precision::Exact(y)) => c.byte_size
                    matches Precision::Exact(z) && (x + y <= usize::MAX ==> z == x + y) && (x + y
                    > usize::MAX ==> z == usize::MAX),
                _ => c.byte_size is Absent,
            }
            &&& (b.min_value is Absent || (b.min_value matches Precision::Exact(v) && !(v is Date32
                || v is TimestampUs))) ==> c.min_value is Absent
            &&& (b.max_value is Absent || (b.max_value matches Precision::Exact(v) && !(v is Date32
                || v is TimestampUs))) ==> c.max_value is Absent
            &&& a.min_value is Absent ==> c.min_value is Absent
            &&& a.max_value is Absent ==> c.max_value is Absent
        }),
{
    let front = parts.drop_last();
    assert(row_figures(parts).drop_last() =~= row_figures(front));
    assert(byte_figures(parts).drop_last() =~= byte_figures(front));
    assert(column_figures(parts, j).drop_last() =~= column_figures(front, j));
    assert(out.column_statistics@[j] == merged_columns(column_figures(parts, j)));
    assert(first.column_statistics@[j] == merged_columns(column_figures(front, j)));
}

/// What is known of a table of one partition is what is known of the partition.
pub proof fn law_one_partition_kept(out: Statistics, part: Statistics)
    requires
        merged_parts(out, seq![part]),
    ensures
        out.num_rows == part.num_rows,
        out.total_byte_size == part.total_byte_size,
        out.column_statistics@ == part.column_statistics@,
{
    let parts = seq![part];
    assert(row_figures(parts)[0] == part.num_rows);
    assert(byte_figures(parts)[0] == part.total_byte_size);
    assert forall|j: int| 0 <= j < out.column_statistics@.len() implies (
    #[trigger] out.column_statistics@[j]) == part.column_statistics@[j] by {
        assert(column_figures(parts, j)[0] == part.column_statistics@[j]);
    }
    assert(out.column_statistics@ =~= part.column_statistics@);
}

/// A column of a table: its name and the number of its type.
#[derive(Debug)]
pub struct NamedType {
    pub name: String,
    pub type_id: u32,
}

/// Two tables have the same columns in the same order.
pub open spec fn same_layout(a: Seq<NamedType>, b: Seq<NamedType>) -> bool {
    &&& a.len() == b.len()
    &&& forall|i: int|
        0 <= i < a.len() ==> (#[trigger] a[i]).name@ == b[i].name@ && a[i].type_id == b[i].type_id
}

pub fn same_schema(a: &[NamedType], b: &[NamedType]) -> (yes: bool)
    ensures
        yes == same_layout(a@, b@),
{
    if a.len() != b.len() {
        return false;
    }
    let mut k: usize = 0;
    while k < a.len()
        invariant
            k <= a@.len(),
            a@.len() == b@.len(),
            forall|i: int|
                0 <= i < k ==> (#[trigger] a@[i]).name@ == b@[i].name@ && a@[i].type_id
                    == b@[i].type_id,
        decreases a.len() - k,
    {
        if !text::same(a[k].name.as_str(), b[k].name.as_str()) || a[k].type_id != b[k].type_id {
            assert(!(a@[k as int].name@ == b@[k as int].name@ && a@[k as int].type_id
                == b@[k as int].type_id));
            return false;
        }
        k += 1;
    }
    true
}

/// The first partition whose columns are not those of partition 0.
pub fn odd_partition(schemas: &[Vec<NamedType>]) -> (r: Option<usize>)
    requires
        schemas@.len() > 0,
    ensures
        match r {
            Some(i) => {
                &&& 0 < i < schemas@.len()
                &&& !same_layout(schemas@[0]@, schemas@[i as int]@)
                &&& forall|j: int|
                    0 <= j < i ==> same_layout(schemas@[0]@, (#[trigger] schemas@[j])@)
            },
            None => forall|j: int|
                0 <= j < schemas@.len() ==> same_layout(schemas@[0]@, (#[trigger] schemas@[j])@),
        },
{
    let mut k: usize = 1;
    while k < schemas.len()
        invariant
            1 <= k <= schemas@.len(),
            forall|j: int| 0 <= j < k ==> same_layout(schemas@[0]@, (#[trigger] schemas@[j])@),
        decreases schemas.len() - k,
    {
        if !same_schema(schemas[0].as_slice(), schemas[k].as_slice()) {
            return Some(k);
        }
        k += 1;
    }
    None
}

/// The name of an aggregate.
#[derive(Debug, Clone, Copy, PartialEq, Eq, Structural)]
pub enum AggregateName {
    Count,
    Min,
    Max,
    Other,
}

/// What an aggregate is taken of.
#[derive(Debug)]
pub enum AggregateArg {
    Wildcard,
    Column(String),
    Other,
}

/// An aggregate of a query.  `plain` is one that counts every row, in any order.
#[derive(Debug)]
pub struct Aggregate {
    pub name: AggregateName,
    pub args: Vec<AggregateArg>,
    pub plain: bool,
}

/// Which column has that name.
pub open spec fn is_column(columns: Seq<NamedType>, name: Seq<char>, i: int) -> bool {
    &&& 0 <= i < columns.len()
    &&& columns[i].name@ == name
    &&& forall|j: int| 0 <= j < i ==> (#[trigger] columns[j]).name@ != name
}

fn column_index(columns: &[NamedType], name: &str) -> (r: Option<usize>)
    ensures
        match r {
            Some(i) => is_column(columns@, name@, i as int),
            None => forall|j: int| 0 <= j < columns@.len() ==> (#[trigger] columns@[j]).name@ != name@,
        },
{
    let mut k: usize = 0;
    while k < columns.len()
        invariant
            k <= columns@.len(),
            forall|j: int| 0 <= j < k ==> (#[trigger] columns@[j]).name@ != name@,
        decreases columns.len() - k,
    {
        if text::same(columns[k].name.as_str(), name) {
            return Some(k);
        }
        k += 1;
    }
    None
}

/// The answer to an aggregate that statistics give.
#[derive(Debug)]
pub enum AggregateValue<'a> {
    Count(i64),
    Value(&'a FilterValue),
}

/// The rows in which a column is not missing.
pub open spec fn rows_present(rows: usize, missing: usize) -> int {
    if rows >= missing {
        rows - missing
    } else {
        0
    }
}

/// What statistics say of column `i`.
pub open spec fn column_answer(
    agg: Aggregate,
    s: Statistics,
    i: int,
    r: Option<AggregateValue<'_>>,
) -> bool {
    if i >= s.column_statistics@.len() {
        r is None
    } else {
        let c = s.column_statistics@[i];
        match agg.name {
            AggregateName::Count => match (s.num_rows, c.null_count) {
                (Precision::Exact(n), Precision::Exact(m)) => r matches Some(
                    AggregateValue::Count(v),
                ) && v == rows_present(n, m),
                _ => r is None,
            },
            AggregateName::Min => match c.min_value {
                Precision::Exact(v) => r matches Some(AggregateValue::Value(w)) && *w == v,
                Precision::Absent => r is None,
            },
            AggregateName::Max => match c.max_value {
                Precision::Exact(v) => r matches Some(AggregateValue::Value(w)) && *w == v,
                Precision::Absent => r is None,
            },
            AggregateName::Other => r is None,
        }
    }
}

/// What statistics say of an aggregate.
pub open spec fn answers(
    agg: Aggregate,
    columns: Seq<NamedType>,
    s: Statistics,
    r: Option<AggregateValue<'_>>,
) -> bool {
    let args = agg.args@;
    if !agg.plain || agg.name is Other {
        r is None
    } else if agg.name is Count && (args.len() == 0 || (args.len() == 1 && args[0] is Wildcard)) {
        match s.num_rows {
            Precision::Exact(n) => r matches Some(AggregateValue::Count(v)) && v == n,
            Precision::Absent => r is None,
        }
    } else if args.len() == 1 && args[0] is Column {
        let name = args[0]->Column_0@;
        &&& forall|i: int| #[trigger]
            is_column(columns, name, i) ==> column_answer(agg, s, i, r)
        &&& (forall|j: int| 0 <= j < columns.len() ==> (#[trigger] columns[j]).name@ != name) ==> r
            is None
    } else {
        r is None
    }
}

/// A count of rows is the number of rows; a count of a column is that number without the rows
/// in which the column is missing; a least or greatest value is the one known of the column
/// with the name asked for; and what is not known exactly, or counts only some rows, or is
/// another aggregate, is not answered.
pub proof fn law_aggregate_answered(
    agg: Aggregate,
    columns: Seq<NamedType>,
    s: Statistics,
    r: Option<AggregateValue<'_>>,
    i: int,
)
    requires
        answers(agg, columns, s, r),
    ensures
        !agg.plain || agg.name is Other || agg.args@.len() > 1 ==> r is None,
        agg.plain && agg.name is Count && agg.args@.len() == 0 ==> match s.num_rows {
            Precision::Exact(n) => r matches Some(AggregateValue::Count(v)) && v == n,
            Precision::Absent => r is None,
        },
        agg.plain && agg.name is Count && agg.args@.len() == 1 && agg.args@[0] is Wildcard ==> (
        match s.num_rows {
            Precision::Exact(n) => r matches Some(AggregateValue::Count(v)) && v == n,
            Precision::Absent => r is None,
        }),
        agg.args@.len() == 1 && agg.args@[0] is Other ==> r is None,
        (agg.name is Min || agg.name is Max) && (agg.args@.len() == 0 || agg.args@[0] is Wildcard)
            ==> r is None,
        (agg.args@.len() == 1 && (agg.args@[0] matches AggregateArg::Column(name) && forall|j: int|
            0 <= j < columns.len() ==> (#[trigger] columns[j]).name@ != name@)) ==> r is None,
        agg.plain && agg.args@.len() == 1 && 0 <= i < columns.len() && i
            < s.column_statistics@.len() && (agg.args@[0] matches AggregateArg::Column(name)
            && columns[i].name@ == name@ && forall|j: int|
            0 <= j < i ==> (#[trigger] columns[j]).name@ != name@) ==> {
            let c = s.column_statistics@[i];
            &&& agg.name is Min ==> match c.min_value {
                Precision::Exact(v) => r matches Some(AggregateValue::Value(w)) && *w == v,
                Precision::Absent => r is None,
            }
            &&& agg.name is Max ==> match c.max_value {
                Precision::Exact(v) => r matches Some(AggregateValue::Value(w)) && *w == v,
                Precision::Absent => r is None,
            }
            &&& agg.name is Count ==> match (s.num_rows, c.null_count) {
                (Precision::Exact(n), Precision::Exact(m)) => r matches Some(
                    AggregateValue::Count(v),
                ) && (m <= n ==> v + m == n) && (m > n ==> v == 0),
                _ => r is None,
            }
        },
{
    if agg.args@.len() == 1 {
        if let AggregateArg::Column(name) = agg.args@[0] {
            if 0 <= i < columns.len() && columns[i].name@ == name@ && forall|j: int|
                0 <= j < i ==> (#[trigger] columns[j]).name@ != name@ {
                assert(is_column(columns, name@, i));
            }
        }
    }
}

/// Answers an aggregate from statistics, where they are exact.
pub fn aggregate_scalar<'a>(agg: &Aggregate, columns: &[NamedType], s: &'a Statistics) -> (r: Option<
    AggregateValue<'a>,
>)
    requires
        s.num_rows matches Precision::Exact(n) ==> n <= i64::MAX,
    ensures
        answers(*agg, columns@, *s, r),
{
    if !agg.plain {
        return None;
    }
    if agg.name == AggregateName::Other {
        return None;
    }
    let whole = agg.name == AggregateName::Count && (agg.args.len() == 0 || (agg.args.len() == 1
        && is_wildcard(&agg.args[0])));
    if whole {
        return match &s.num_rows {
            Precision::Exact(n) => Some(AggregateValue::Count(*n as i64)),
            Precision::Absent => None,
        };
    }
    if agg.args.len() != 1 {
        return None;
    }
    let name = match &agg.args[0] {
        AggregateArg::Column(name) => name,
        _ => {
            return None;
        },
    };
    let i: usize = match column_index(columns, name.as_str()) {
        Some(i) => i,
        None => {
            proof {
                assert forall|i: int| !(#[trigger] is_column(columns@, name@, i)) by {
                    if is_column(columns@, name@, i) {
                        assert(columns@[i].name@ == name@);
                    }
                }
            }
            return None;
        },
    };
    proof {
        assert forall|j: int| #[trigger] is_column(columns@, name@, j) implies j == i by {
            if j < i {
                assert(columns@[j].name@ != name@);
            }
            if i < j {
                assert(columns@[i as int].name@ != name@);
            }
        }
    }
    if i >= s.column_statistics.len() {
        return None;
    }
    let c = &s.column_statistics[i];
    match agg.name {
        AggregateName::Count => match (&s.num_rows, &c.null_count) {
            (Precision::Exact(n), Precision::Exact(m)) => {
                let present: usize = if *n >= *m {
                    *n - *m
                } else {
                    0
                };
                Some(AggregateValue::Count(present as i64))
            },
            _ => None,
        },
        AggregateName::Min => match &c.min_value {
            Precision::Exact(v) => Some(AggregateValue::Value(v)),
            Precision::Absent => None,
        },
        AggregateName::Max => match &c.max_value {
            Precision::Exact(v) => Some(AggregateValue::Value(v)),
            Precision::Absent => None,
        },
        AggregateName::Other => None,
    }
}

fn is_wildcard(arg: &AggregateArg) -> (yes: bool)
    ensures
        yes == (*arg is Wildcard),
{
    match arg {
        AggregateArg::Wildcard => true,
        _ => false,
    }
}

/// The rule that answers aggregates from statistics.
#[derive(Debug)]
pub struct SplayedStatsAggRule;

impl Default for SplayedStatsAggRule {
    fn default() -> Self {
        SplayedStatsAggRule
    }
}

impl SplayedStatsAggRule {
    /// Answers all aggregates of a query from statistics; none where rows are grouped or
    /// filtered, or where one of the answers is not known.
    pub fn try_rewrite<'a>(
        &self,
        grouped: bool,
        filtered: bool,
        aggregates: &[Aggregate],
        columns: &[NamedType],
        s: &'a Statistics,
    ) -> (r: Option<Vec<AggregateValue<'a>>>)
        requires
            s.num_rows matches Precision::Exact(n) ==> n <= i64::MAX,
        ensures
            match r {
                Some(values) => {
                    &&& !grouped && !filtered
                    &&& values@.len() == aggregates@.len()
                    &&& forall|i: int|
                        0 <= i < aggregates@.len() ==> answers(
                            aggregates@[i],
                            columns@,
                            *s,
                            Some(#[trigger] values@[i]),
                        )
                },
                None => grouped || filtered || exists|i: int|
                    0 <= i < aggregates@.len() && answers(
                        #[trigger] aggregates@[i],
                        columns@,
                        *s,
                        None,
                    ),
            },
    {
        if grouped || filtered {
            return None;
        }
        let mut values: Vec<AggregateValue<'a>> = Vec::new();
        let mut k: usize = 0;
        while k < aggregates.len()
            invariant
                k <= aggregates@.len(),
                !grouped,
                !filtered,
                s.num_rows matches Precision::Exact(n) ==> n <= i64::MAX,
                values@.len() == k,
                forall|i: int|
                    0 <= i < k ==> answers(
                        aggregates@[i],
                        columns@,
                        *s,
                        Some(#[trigger] values@[i]),
                    ),
            decreases aggregates.len() - k,
        {
            match aggregate_scalar(&aggregates[k], columns, s) {
                Some(v) => {
                    values.push(v);
                },
                None => {
                    return None;
                },
            }
            k += 1;
        }
        Some(values)
    }
}

/// Tables have the same layout where each column of the one has the name and the type of the
/// column of the other at its place, and not where one column differs.
pub proof fn law_layouts_differ(a: Seq<NamedType>, b: Seq<NamedType>, i: int)
    ensures
        same_layout(a, a),
        same_layout(a, b) == same_layout(b, a),
        same_layout(a, b) ==> a.len() == b.len(),
        0 <= i < a.len() && i < b.len() && a[i].name@ != b[i].name@ ==> !same_layout(a, b),
        0 <= i < a.len() && i < b.len() && a[i].type_id != b[i].type_id ==> !same_layout(a, b),
{
    if same_layout(a, b) {
        assert forall|k: int| 0 <= k < b.len() implies (#[trigger] b[k]).name@ == a[k].name@
            && b[k].type_id == a[k].type_id by {
            assert(a[k].name@ == b[k].name@);
        }
    }
    if same_layout(b, a) {
        assert forall|k: int| 0 <= k < a.len() implies (#[trigger] a[k]).name@ == b[k].name@
            && a[k].type_id == b[k].type_id by {
            assert(b[k].name@ == a[k].name@);
        }
    }
}

/// What is known of the symbols of a dataset: none is missing, and as many differ as there
/// are symbols; nothing is known of the times of a dataset without times.
pub proof fn law_symbols_counted(c: ColumnStatistics, t: ColumnStatistics, meta: DatasetSummary)
    requires
        sym_statistics(c, meta),
        time_statistics(t, meta),
    ensures
        c.null_count == Precision::Exact(0usize),
        c.distinct_count == Precision::Exact(meta.symbols),
        c.min_value is Absent && c.max_value is Absent && c.byte_size is Absent,
        meta.time_axis@.len() == 0 ==> t.min_value is Absent && t.max_value is Absent,
{
}

/// Partitions have statistics of the same columns where any two of them have as many.
pub proof fn law_same_columns(parts: Seq<Statistics>, i: int, j: int)
    requires
        0 <= i < parts.len(),
        0 <= j < parts.len(),
    ensures
        same_columns(parts) ==> parts[i].column_statistics@.len() == parts[j].column_statistics@.len(),
        parts[i].column_statistics@.len() != parts[j].column_statistics@.len() ==> !same_columns(
            parts,
        ),
        (forall|k: int|
            0 <= k < parts.len() ==> (#[trigger] parts[k]).column_statistics@.len()
                == parts[i].column_statistics@.len()) ==> same_columns(parts),
{
    assert(parts[0].column_statistics@.len() == parts[0].column_statistics@.len());
}

} // verus!

//! Tables: how rows are spread over partitions, and what is known of a table from its
//! partitions.

use vstd::prelude::*;
use vstd::string::*;
use crate::column;
use crate::column::{ColumnValues, ColumnView};
use crate::error::FormatError;
use crate::le;
use crate::meta;
use crate::meta::MetaHeader;
use crate::partition;
use crate::partition::PartitionScheme;
use crate::text;
use crate::text::Relation;
use crate::types::{DataType, TimeType};

verus! {

/// What can go wrong with a table.
#[derive(Debug)]
pub enum TableError {
    /// What was asked for makes no sense.
    Invalid(String),
    /// What was found contradicts itself.
    InvalidState(String),
    /// Bytes or values do not follow the format.
    Format(FormatError),
}

impl TableError {
    /// The error is `Invalid`, with that message.
    pub open spec fn says(self, message: Seq<char>) -> bool {
        self matches TableError::Invalid(m) && m@ == message
    }
}

/// The time type of a column that can be the time axis.
pub open spec fn time_type_of(dt: DataType) -> Option<TimeType> {
    match dt {
        DataType::Date32 | DataType::Int32 => Some(TimeType::Date32),
        DataType::TimestampUs | DataType::Date64 | DataType::Int64 => Some(TimeType::TimestampUs),
        _ => None,
    }
}

pub fn infer_tt(dt: DataType) -> (r: Result<TimeType, TableError>)
    ensures
        match time_type_of(dt) {
            Some(tt) => r matches Ok(t) && t == tt,
            None => r matches Err(e) && e.says(
                "unsupported time column type "@ + dt.variant_name() + " for partitioning"@,
            ),
        },
{
    match dt {
        DataType::Date32 | DataType::Int32 => Ok(TimeType::Date32),
        DataType::TimestampUs | DataType::Date64 | DataType::Int64 => Ok(TimeType::TimestampUs),
        other => {
            let mut message = String::new();
            message.append("unsupported time column type ");
            message.append(other.variant_str());
            message.append(" for partitioning");
            Err(TableError::Invalid(message))
        },
    }
}

/// The time type found for a column is as wide as the column's values and counts in the
/// same unit: a column of days holds days, one of microseconds holds microseconds.
pub proof fn law_time_type_fits(dt: DataType)
    ensures
        time_type_of(dt) is Some <==> dt is Date32 || dt is Int32 || dt is TimestampUs || dt is Date64
            || dt is Int64,
        time_type_of(dt) matches Some(tt) ==> tt.width() == dt.width() && dt.signed_int(),
        time_type_of(DataType::Date32) == Some(TimeType::Date32),
        time_type_of(DataType::TimestampUs) == Some(TimeType::TimestampUs),
        forall|tt: TimeType| #[trigger] time_type_of(tt.column_type()) == Some(tt),
        dt.signed_int() && (dt.width() == 4 || dt.width() == 8) ==> time_type_of(dt) is Some,
{
}

/// A time column is read to the last bit: a value that was written as the bytes of a signed
/// number, in the width of the time type, is that number.
pub proof fn law_time_read(view: ColumnView<'_>, i: int, tt: TimeType, t: int)
    requires
        time_type_of(view.spec_type()) == Some(tt),
        if tt is Date32 {
            i32::MIN <= t <= i32::MAX
        } else {
            i64::MIN <= t <= i64::MAX
        },
        view.cell(i) == Some(
            le::le_bytes(
                if t >= 0 {
                    t as nat
                } else if tt is Date32 {
                    (t + 0x1_0000_0000) as nat
                } else {
                    (t + 0x1_0000_0000_0000_0000) as nat
                },
                view.spec_type().width(),
            ),
        ),
    ensures
        time_at(view, i) == t,
{
    broadcast use le::lemma_le_bytes_len;

    le::lemma_le_limits();
    let bits = if t >= 0 {
        t as nat
    } else if tt is Date32 {
        (t + 0x1_0000_0000) as nat
    } else {
        (t + 0x1_0000_0000_0000_0000) as nat
    };
    le::lemma_le_value_of_bytes(bits, view.spec_type().width());
}

/// The segment's bytes hold the time of row `i`.
pub open spec fn time_readable(view: ColumnView<'_>, i: int) -> bool {
    column::row_in(view.spec_segments(), i) matches Some((segment, j))
        ==> segment.spec_values() matches ColumnValues::Fixed(v) ==> time_type_of(
        view.spec_type(),
    ) is Some ==> (j + 1) * view.spec_type().width() <= v@.len()
}

/// The time in row `i`.
pub open spec fn time_at(view: ColumnView<'_>, i: int) -> int {
    le::le_signed(view.cell(i)->0)
}

/// Row `i` is there, in a segment of a fixed width, and its type can be a time.
pub open spec fn has_time(view: ColumnView<'_>, i: int) -> bool {
    column::row_in(view.spec_segments(), i) matches Some((segment, j))
        && segment.spec_values() is Fixed && time_type_of(view.spec_type()) is Some
}

/// Reads the time in row `i`.
pub fn time_value_at(time_col: &ColumnView<'_>, i: usize) -> (r: Result<i64, TableError>)
    requires
        time_readable(*time_col, i as int),
    ensures
        match column::row_in(time_col.spec_segments(), i as int) {
            Some((segment, j)) => if segment.spec_values() !is Fixed {
                r matches Err(e) && e.says("time column must be fixed-width"@)
            } else if time_type_of(time_col.spec_type()) is None {
                r matches Err(e) && e.says(
                    "unsupported time column type "@ + time_col.spec_type().variant_name(),
                )
            } else {
                r matches Ok(t) && t == time_at(*time_col, i as int)
            },
            None => r matches Err(e) && e.says("time row out of range"@),
        },
        r is Ok == has_time(*time_col, i as int),
{
    match time_col.locate(i) {
        Some((segment, j)) => {
            let bytes = match segment.fixed_bytes() {
                Some(bytes) => bytes,
                None => {
                    return Err(
                        TableError::Invalid("time column must be fixed-width".to_owned()),
                    );
                },
            };
            assert(bytes@.len() == bytes.len());
            match time_col.data_type() {
                DataType::Date32 | DataType::Int32 => Ok(le::get_i32(bytes, j * 4) as i64),
                DataType::TimestampUs | DataType::Date64 | DataType::Int64 => Ok(
                    le::get_i64(bytes, j * 8),
                ),
                other => {
                    let mut message = String::new();
                    message.append("unsupported time column type ");
                    message.append(other.variant_str());
                    Err(TableError::Invalid(message))
                },
            }
        },
        None => Err(TableError::Invalid("time row out of range".to_owned())),
    }
}

/// What is known of the rows of a partition.
#[derive(Debug, Clone, PartialEq, Eq)]
pub struct DatasetStatistics {
    pub row_count: u64,
    pub sym_min: Option<String>,
    pub sym_max: Option<String>,
    pub time_min: i64,
    pub time_max: i64,
}

/// What is known of the rows of a table.
#[derive(Debug, Clone, PartialEq, Eq)]
pub struct TableStatistics {
    pub row_count: u64,
    pub partition_count: u32,
    pub sym_min: Option<String>,
    pub sym_max: Option<String>,
    pub time_min: i64,
    pub time_max: i64,
}

impl Default for TableStatistics {
    fn default() -> (s: Self)
        ensures
            s.row_count == 0,
            s.partition_count == 0,
            s.sym_min is None,
            s.sym_max is None,
            s.time_min == 0,
            s.time_max == 0,
    {
        TableStatistics {
            row_count: 0,
            partition_count: 0,
            sym_min: None,
            sym_max: None,
            time_min: 0,
            time_max: 0,
        }
    }
}

/// Rows of all partitions together.
pub open spec fn rows_in_all(parts: Seq<DatasetStatistics>) -> nat
    decreases parts.len(),
{
    if parts.len() == 0 {
        0
    } else {
        rows_in_all(parts.drop_last()) + parts.last().row_count as nat
    }
}

/// The earliest time of all partitions; 0 where there is none.
pub open spec fn is_time_min(parts: Seq<DatasetStatistics>, t: i64) -> bool {
    if parts.len() == 0 {
        t == 0
    } else {
        &&& exists|i: int| 0 <= i < parts.len() && (#[trigger] parts[i]).time_min == t
        &&& forall|i: int| 0 <= i < parts.len() ==> t <= (#[trigger] parts[i]).time_min
    }
}

/// The latest time of all partitions; 0 where there is none.
pub open spec fn is_time_max(parts: Seq<DatasetStatistics>, t: i64) -> bool {
    if parts.len() == 0 {
        t == 0
    } else {
        &&& exists|i: int| 0 <= i < parts.len() && (#[trigger] parts[i]).time_max == t
        &&& forall|i: int| 0 <= i < parts.len() ==> (#[trigger] parts[i]).time_max <= t
    }
}

/// The first symbol of all partitions; none where no partition has one.
pub open spec fn is_sym_min(parts: Seq<DatasetStatistics>, found: Option<Seq<char>>) -> bool {
    match found {
        None => forall|i: int| 0 <= i < parts.len() ==> (#[trigger] parts[i]).sym_min is None,
        Some(m) => {
            &&& exists|i: int|
                0 <= i < parts.len() && text_in((#[trigger] parts[i]).sym_min) == Some(m)
            &&& forall|i: int|
                0 <= i < parts.len() ==> ((#[trigger] parts[i]).sym_min matches Some(x)
                    ==> !text::text_before(x@, m))
        },
    }
}

/// The last symbol of all partitions; none where no partition has one.
pub open spec fn is_sym_max(parts: Seq<DatasetStatistics>, found: Option<Seq<char>>) -> bool {
    match found {
        None => forall|i: int| 0 <= i < parts.len() ==> (#[trigger] parts[i]).sym_max is None,
        Some(m) => {
            &&& exists|i: int|
                0 <= i < parts.len() && text_in((#[trigger] parts[i]).sym_max) == Some(m)
            &&& forall|i: int|
                0 <= i < parts.len() ==> ((#[trigger] parts[i]).sym_max matches Some(x)
                    ==> !text::text_before(m, x@))
        },
    }
}

/// The text in an option.
pub open spec fn text_in(s: Option<String>) -> Option<Seq<char>> {
    match s {
        Some(s) => Some(s@),
        None => None,
    }
}

fn copy_text(s: Option<&String>) -> (out: Option<String>)
    ensures
        match s {
            Some(t) => out matches Some(u) && u@ == t@,
            None => out is None,
        },
{
    match s {
        Some(t) => Some(t.clone()),
        None => None,
    }
}

proof fn lemma_rows_in_all(parts: Seq<DatasetStatistics>, k: int)
    requires
        0 <= k <= parts.len(),
    ensures
        rows_in_all(parts.take(k)) <= rows_in_all(parts),
    decreases parts.len() - k,
{
    if k < parts.len() {
        assert(parts.take(k + 1).drop_last() =~= parts.take(k));
        lemma_rows_in_all(parts, k + 1);
    } else {
        assert(parts.take(k) =~= parts);
    }
}

/// The first symbol with one more partition.
fn sym_min_of<'a>(parts: &'a [DatasetStatistics]) -> (found: Option<&'a String>)
    ensures
        is_sym_min(
            parts@,
            match found {
                Some(s) => Some(s@),
                None => None,
            },
        ),
{
    let mut found: Option<&'a String> = None;
    let mut k: usize = 0;
    while k < parts.len()
        invariant
            k <= parts@.len(),
            match found {
                None => forall|i: int| 0 <= i < k ==> (#[trigger] parts@[i]).sym_min is None,
                Some(m) => {
                    &&& exists|i: int|
                        0 <= i < k && text_in((#[trigger] parts@[i]).sym_min) == Some(m@)
                    &&& forall|i: int|
                        0 <= i < k ==> ((#[trigger] parts@[i]).sym_min matches Some(x)
                            ==> !text::text_before(x@, m@))
                },
            },
        decreases parts.len() - k,
    {
        if let Some(x) = &parts[k].sym_min {
            match found {
                None => {
                    proof {
                        text::lemma_text_before_order(x@, x@);
                    }
                    found = Some(x);
                },
                Some(m) => match text::relate(x.as_str(), m.as_str()) {
                    Relation::Before => {
                        proof {
                            text::lemma_text_before_order(x@, x@);
                            assert forall|i: int| 0 <= i < k + 1 implies ((
                            #[trigger] parts@[i]).sym_min matches Some(y) ==> !text::text_before(
                                y@,
                                x@,
                            )) by {
                                if let Some(y) = parts@[i].sym_min {
                                    if text::text_before(y@, x@) {
                                        text::lemma_text_before_transitive(y@, x@, m@);
                                    }
                                }
                            }
                        }
                        found = Some(x);
                    },
                    _ => {},
                },
            }
        }
        k += 1;
    }
    found
}

/// The last symbol of all partitions.
fn sym_max_of<'a>(parts: &'a [DatasetStatistics]) -> (found: Option<&'a String>)
    ensures
        is_sym_max(
            parts@,
            match found {
                Some(s) => Some(s@),
                None => None,
            },
        ),
{
    let mut found: Option<&'a String> = None;
    let mut k: usize = 0;
    while k < parts.len()
        invariant
            k <= parts@.len(),
            match found {
                None => forall|i: int| 0 <= i < k ==> (#[trigger] parts@[i]).sym_max is None,
                Some(m) => {
                    &&& exists|i: int|
                        0 <= i < k && text_in((#[trigger] parts@[i]).sym_max) == Some(m@)
                    &&& forall|i: int|
                        0 <= i < k ==> ((#[trigger] parts@[i]).sym_max matches Some(x)
                            ==> !text::text_before(m@, x@))
                },
            },
        decreases parts.len() - k,
    {
        if let Some(x) = &parts[k].sym_max {
            match found {
                None => {
                    proof {
                        text::lemma_text_before_order(x@, x@);
                    }
                    found = Some(x);
                },
                Some(m) => match text::relate(m.as_str(), x.as_str()) {
                    Relation::Before => {
                        proof {
                            text::lemma_text_before_order(x@, x@);
                            assert forall|i: int| 0 <= i < k + 1 implies ((
                            #[trigger] parts@[i]).sym_max matches Some(y) ==> !text::text_before(
                                x@,
                                y@,
                            )) by {
                                if let Some(y) = parts@[i].sym_max {
                                    if text::text_before(x@, y@) {
                                        text::lemma_text_before_transitive(m@, x@, y@);
                                    }
                                }
                            }
                        }
                        found = Some(x);
                    },
                    _ => {},
                },
            }
        }
        k += 1;
    }
    found
}

/// What is known of a table, from what is known of its partitions.
pub fn aggregate_partitions(parts: &[DatasetStatistics]) -> (r: Result<
    TableStatistics,
    TableError,
>)
    ensures
        if rows_in_all(parts@) > u64::MAX {
            r matches Err(e) && e.says("row_count overflow in statistics"@)
        } else {
            r matches Ok(s) && {
                &&& s.row_count == rows_in_all(parts@)
                &&& s.partition_count == parts.len() as u32
                &&& is_sym_min(parts@, text_in(s.sym_min))
                &&& is_sym_max(parts@, text_in(s.sym_max))
                &&& is_time_min(parts@, s.time_min)
                &&& is_time_max(parts@, s.time_max)
            }
        },
{
    let mut row_count: u64 = 0;
    let mut time_min: i64 = 0;
    let mut time_max: i64 = 0;
    let mut k: usize = 0;
    assert(parts@.take(0).len() == 0);
    while k < parts.len()
        invariant
            k <= parts@.len(),
            row_count == rows_in_all(parts@.take(k as int)),
            is_time_min(parts@.take(k as int), time_min),
            is_time_max(parts@.take(k as int), time_max),
        decreases parts.len() - k,
    {
        let part = &parts[k];
        let ghost before = parts@.take(k as int);
        let ghost after = parts@.take(k + 1);
        let ghost (old_min, old_max) = (time_min, time_max);
        proof {
            assert(after.drop_last() =~= before);
            lemma_rows_in_all(parts@, k + 1);
        }
        row_count = match row_count.checked_add(part.row_count) {
            Some(sum) => sum,
            None => {
                return Err(TableError::Invalid("row_count overflow in statistics".to_owned()));
            },
        };
        if k == 0 || part.time_min < time_min {
            time_min = part.time_min;
        }
        if k == 0 || part.time_max > time_max {
            time_max = part.time_max;
        }
        proof {
            assert(after[k as int] == *part);
            assert forall|i: int| 0 <= i < after.len() implies time_min <= (
            #[trigger] after[i]).time_min && after[i].time_max <= time_max by {
                if i < k {
                    assert(after[i] == before[i]);
                }
            }
            if k > 0 {
                let i = choose|i: int|
                    0 <= i < before.len() && (#[trigger] before[i]).time_min == old_min;
                assert(after[i] == before[i]);
                let j = choose|j: int|
                    0 <= j < before.len() && (#[trigger] before[j]).time_max == old_max;
                assert(after[j] == before[j]);
            }
        }
        k += 1;
    }
    assert(parts@.take(k as int) =~= parts@);
    Ok(
        TableStatistics {
            row_count,
            partition_count: parts.len() as u32,
            sym_min: copy_text(sym_min_of(parts)),
            sym_max: copy_text(sym_max_of(parts)),
            time_min,
            time_max,
        },
    )
}

/// How a table is organised.
#[derive(Debug, Clone)]
pub struct TableMetadata {
    pub ordering: Vec<&'static str>,
    pub partitioning: Partitioning,
    pub capabilities: Capabilities,
    pub partitions: Vec<PartitionInfo>,
}

/// How a table is cut into partitions.
#[derive(Debug, Clone, PartialEq, Eq)]
pub struct Partitioning {
    pub kind: &'static str,
    pub scheme: String,
}

/// What can be left to the table when it is read.
#[derive(Debug, Clone, Copy, PartialEq, Eq, Structural)]
pub struct Capabilities {
    pub projection_pushdown: bool,
    pub predicate_pushdown: bool,
    pub limit_pushdown: bool,
}

/// A partition and the times that its name allows, both ends included.
#[derive(Debug, Clone, PartialEq, Eq)]
pub struct PartitionInfo {
    pub name: String,
    pub time_min: i64,
    pub time_max: i64,
}

/// The partition is described as its name says.
pub open spec fn describes(
    info: PartitionInfo,
    name: Seq<char>,
    scheme: PartitionScheme,
    tt: TimeType,
) -> bool {
    &&& info.name@ == name
    &&& partition::range_values(scheme, name, tt) matches Some((lo, hi)) && info.time_min == lo
        && info.time_max == hi - 1
}

/// The name gives no bounds, and all before it do.
pub open spec fn first_bad_name(
    names: Seq<String>,
    scheme: PartitionScheme,
    tt: TimeType,
    i: int,
) -> bool {
    &&& 0 <= i < names.len()
    &&& partition::range_values(scheme, names[i]@, tt) is None
    &&& forall|j: int|
        0 <= j < i ==> partition::range_values(scheme, (#[trigger] names[j])@, tt) is Some
}

/// Describes the partitions of a table by their names.
pub fn describe_partitions(names: &[String], scheme: PartitionScheme, tt: TimeType) -> (r: Result<
    Vec<PartitionInfo>,
    TableError,
>)
    ensures
        match r {
            Ok(infos) => {
                &&& infos@.len() == names@.len()
                &&& forall|i: int|
                    0 <= i < names@.len() ==> #[trigger] describes(
                        infos@[i],
                        names@[i]@,
                        scheme,
                        tt,
                    )
            },
            Err(e) => exists|i: int|
                #[trigger] first_bad_name(names@, scheme, tt, i) && e.says(
                    "bad partition name "@ + names@[i]@,
                ),
        },
{
    let mut infos: Vec<PartitionInfo> = Vec::new();
    let mut k: usize = 0;
    while k < names.len()
        invariant
            k <= names@.len(),
            infos@.len() == k,
            forall|i: int|
                0 <= i < k ==> #[trigger] describes(infos@[i], names@[i]@, scheme, tt),
        decreases names.len() - k,
    {
        match partition::partition_range(scheme, names[k].as_str(), tt) {
            Some((lo, hi)) => {
                proof {
                    partition::law_range_not_empty(scheme, names@[k as int]@, tt);
                }
                let ghost before = infos@;
                infos.push(
                    PartitionInfo { name: names[k].clone(), time_min: lo, time_max: hi - 1 },
                );
                proof {
                    assert forall|i: int| 0 <= i < k + 1 implies #[trigger] describes(
                        infos@[i],
                        names@[i]@,
                        scheme,
                        tt,
                    ) by {
                        if i < k {
                            assert(describes(before[i], names@[i]@, scheme, tt));
                        }
                    }
                }
            },
            None => {
                let mut message = String::new();
                message.append("bad partition name ");
                message.append(names[k].as_str());
                proof {
                    assert forall|j: int| 0 <= j < k implies partition::range_values(
                        scheme,
                        (#[trigger] names@[j])@,
                        tt,
                    ) is Some by {
                        assert(describes(infos@[j], names@[j]@, scheme, tt));
                    }
                    assert(first_bad_name(names@, scheme, tt, k as int));
                }
                return Err(TableError::Invalid(message));
            },
        }
        k += 1;
    }
    Ok(infos)
}

/// How a table with these partitions is organised.
pub fn table_metadata(scheme: PartitionScheme, partitions: Vec<PartitionInfo>) -> (m: TableMetadata)
    ensures
        m.ordering@.len() == 2,
        m.ordering@[0]@ == "sym"@,
        m.ordering@[1]@ == "time"@,
        m.partitioning.kind@ == "time"@,
        m.partitioning.scheme@ == scheme.variant_name(),
        m.capabilities.projection_pushdown,
        m.capabilities.predicate_pushdown,
        m.capabilities.limit_pushdown,
        m.partitions == partitions,
{
    let mut ordering: Vec<&'static str> = Vec::new();
    ordering.push("sym");
    ordering.push("time");
    TableMetadata {
        ordering,
        partitioning: Partitioning { kind: "time", scheme: scheme.variant_str().to_owned() },
        capabilities: Capabilities {
            projection_pushdown: true,
            predicate_pushdown: true,
            limit_pushdown: true,
        },
        partitions,
    }
}

/// The partition whose metadata tells the time type: the first; the table itself where it
/// is not partitioned.
pub fn meta_partition(scheme: PartitionScheme, partitions: &[String]) -> (r: Result<
    Option<&String>,
    TableError,
>)
    ensures
        if scheme is Unpartitioned {
            r matches Ok(None)
        } else if partitions@.len() > 0 {
            r matches Ok(Some(p)) && p@ == partitions@[0]@
        } else {
            r matches Err(e) && e.says("table has no partitions"@)
        },
{
    if !scheme.allows_partitions() {
        return Ok(None);
    }
    if partitions.len() == 0 {
        return Err(TableError::Invalid("table has no partitions".to_owned()));
    }
    Ok(Some(&partitions[0]))
}

/// The time type that the head of a metadata file tells.
pub fn peek_time_type(head: &[u8]) -> (r: Result<TimeType, TableError>)
    ensures
        head@.len() < 64 ==> r == Err::<TimeType, TableError>(
            TableError::Format(
                FormatError::SizeMismatch { expected: 64, found: head@.len() as usize },
            ),
        ),
        forall|h: MetaHeader|
            head@.len() >= 64 && #[trigger] h.wire() == head@.take(64) ==> r == match h.fault() {
                Some(e) => Err::<TimeType, TableError>(TableError::Format(e)),
                None => Ok(TimeType::with_id(h.time_type)->0),
            },
{
    proof {
        if head@.len() >= 64 {
            let h = meta::law_meta_header_of_bytes(head@.take(64));
            assert(h.wire() == head@.take(64));
        }
    }
    match MetaHeader::from_bytes(head) {
        Ok(header) => match header.time_type() {
            Ok(tt) => Ok(tt),
            Err(e) => Err(TableError::Format(e)),
        },
        Err(e) => Err(TableError::Format(e)),
    }
}

/// The rows of a table are those of all its partitions: of some of them and of the others.
pub proof fn law_rows_add(a: Seq<DatasetStatistics>, b: Seq<DatasetStatistics>)
    ensures
        rows_in_all(a + b) == rows_in_all(a) + rows_in_all(b),
        a.len() == 0 ==> rows_in_all(a) == 0,
        a.len() == 1 ==> rows_in_all(a) == a[0].row_count,
    decreases b.len(),
{
    reveal_with_fuel(rows_in_all, 2);
    if b.len() == 0 {
        assert(a + b =~= a);
    } else {
        law_rows_add(a, b.drop_last());
        assert((a + b).drop_last() =~= a + b.drop_last());
    }
}

/// The least time of a table is that of one of its partitions and no later than that of any,
/// and the greatest is that of one and no earlier than that of any; so a time that is within
/// the bounds of a partition is within those of the table.
pub proof fn law_table_times_bound(
    parts: Seq<DatasetStatistics>,
    lo: i64,
    hi: i64,
    i: int,
    t: i64,
)
    requires
        is_time_min(parts, lo),
        is_time_max(parts, hi),
        0 <= i < parts.len(),
    ensures
        lo <= parts[i].time_min,
        parts[i].time_max <= hi,
        exists|k: int| 0 <= k < parts.len() && (#[trigger] parts[k]).time_min == lo,
        exists|k: int| 0 <= k < parts.len() && (#[trigger] parts[k]).time_max == hi,
        parts[i].time_min <= t <= parts[i].time_max ==> lo <= t <= hi,
{
}

/// The first symbol of a table is that of one of its partitions, and that of no partition
/// stands before it in the order of bytes; the last is that of one, and that of no partition
/// stands behind it.  There is none only where no partition has one.
pub proof fn law_table_symbols_bound(
    parts: Seq<DatasetStatistics>,
    lo: Option<Seq<char>>,
    hi: Option<Seq<char>>,
    i: int,
)
    requires
        is_sym_min(parts, lo),
        is_sym_max(parts, hi),
        0 <= i < parts.len(),
    ensures
        parts[i].sym_min matches Some(s) ==> (lo matches Some(m) && (m == s@ || text::bytes_before(
            vstd::utf8::encode_utf8(m),
            vstd::utf8::encode_utf8(s@),
        ))),
        parts[i].sym_max matches Some(s) ==> (hi matches Some(m) && (m == s@ || text::bytes_before(
            vstd::utf8::encode_utf8(s@),
            vstd::utf8::encode_utf8(m),
        ))),
        lo matches Some(m) ==> exists|k: int|
            0 <= k < parts.len() && ((#[trigger] parts[k]).sym_min matches Some(s) && s@ == m),
        hi matches Some(m) ==> exists|k: int|
            0 <= k < parts.len() && ((#[trigger] parts[k]).sym_max matches Some(s) && s@ == m),
{
    if let Some(s) = parts[i].sym_min {
        if let Some(m) = lo {
            text::lemma_text_before_order(m, s@);
        }
    }
    if let Some(s) = parts[i].sym_max {
        if let Some(m) = hi {
            text::lemma_text_before_order(s@, m);
        }
    }
    if let Some(m) = lo {
        let k = choose|k: int|
            0 <= k < parts.len() && text_in((#[trigger] parts[k]).sym_min) == Some(m);
        assert(parts[k].sym_min is Some);
    }
    if let Some(m) = hi {
        let k = choose|k: int|
            0 <= k < parts.len() && text_in((#[trigger] parts[k]).sym_max) == Some(m);
        assert(parts[k].sym_max is Some);
    }
}

/// A partition is described by its name and by the first and the last of the times that its
/// name stands for.
pub proof fn law_partition_described(
    info: PartitionInfo,
    name: Seq<char>,
    scheme: PartitionScheme,
    tt: TimeType,
    t: int,
)
    requires
        describes(info, name, scheme, tt),
    ensures
        info.name@ == name,
        info.time_min <= info.time_max,
        partition::range_values(scheme, name, tt) matches Some((lo, hi)) && (info.time_min <= t
            <= info.time_max <==> lo <= t < hi),
        scheme !is Unpartitioned && partition::fits(t) && partition::names_value(
            scheme,
            name,
            t,
            tt,
        ) && (scheme !is Year ==> partition::civil_days(0, 1, 1) <= partition::day_of(t, tt))
            ==> info.time_min <= t <= info.time_max,
{
    partition::law_range_not_empty(scheme, name, tt);
    if scheme !is Unpartitioned && partition::fits(t) && partition::names_value(scheme, name, t, tt)
        && (scheme !is Year ==> partition::civil_days(0, 1, 1) <= partition::day_of(t, tt)) {
        partition::law_partition_holds_value(scheme, name, t, tt);
    }
}

/// A table without partitions has no rows, no symbols, and 0 for its times.
pub proof fn law_no_partitions(lo: i64, hi: i64, first: Option<Seq<char>>, last: Option<Seq<char>>)
    requires
        is_time_min(Seq::empty(), lo),
        is_time_max(Seq::empty(), hi),
        is_sym_min(Seq::empty(), first),
        is_sym_max(Seq::empty(), last),
    ensures
        lo == 0,
        hi == 0,
        first is None,
        last is None,
        rows_in_all(Seq::empty()) == 0,
{
}

} // verus!

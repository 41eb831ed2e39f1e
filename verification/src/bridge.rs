//! Batches and schemas as they are handed to a database engine.

use vstd::prelude::*;
use vstd::string::*;
use crate::types::{DataType, TimeType};

verus! {

/// What stops an export to a file; an I/O error by its text.
#[derive(Debug)]
pub enum ExportError {
    /// The dataset does not open.
    OpenDataset(String),
    /// The dataset does not scan.
    Scan(String),
    /// The batches cannot be written.
    Ipc(String),
    /// The file cannot be written.
    Io(String),
}

impl ExportError {
    pub open spec fn text(self) -> Seq<char> {
        match self {
            ExportError::OpenDataset(s) => "failed to open dataset: "@ + s@,
            ExportError::Scan(s) => "scan error: "@ + s@,
            ExportError::Ipc(s) => "arrow IPC error: "@ + s@,
            ExportError::Io(s) => "io error: "@ + s@,
        }
    }

    pub fn to_text(&self) -> (text: String)
        ensures
            text@ == self.text(),
    {
        let mut text = String::new();
        match self {
            ExportError::OpenDataset(s) => {
                text.append("failed to open dataset: ");
                text.append(s.as_str());
            },
            ExportError::Scan(s) => {
                text.append("scan error: ");
                text.append(s.as_str());
            },
            ExportError::Ipc(s) => {
                text.append("arrow IPC error: ");
                text.append(s.as_str());
            },
            ExportError::Io(s) => {
                text.append("io error: ");
                text.append(s.as_str());
            },
        }
        text
    }
}

/// What stops a scan.
#[derive(Debug)]
pub enum NativeError {
    Scan(String),
}

impl NativeError {
    pub open spec fn text(self) -> Seq<char> {
        match self {
            NativeError::Scan(s) => "scan failed: "@ + s@,
        }
    }

    pub fn to_text(&self) -> (text: String)
        ensures
            text@ == self.text(),
    {
        let mut text = String::new();
        match self {
            NativeError::Scan(s) => {
                text.append("scan failed: ");
                text.append(s.as_str());
            },
        }
        text
    }
}

/// The type number of a dictionary of texts.
pub const SPLAYED_TYPE_STRING_DICT: u8 = 200;

/// The type number of a column that cannot be shown.
pub const UNKNOWN_TYPE: u8 = 255;

/// The type number of a time column.
pub open spec fn time_id(tt: TimeType) -> u8 {
    match tt {
        TimeType::Date32 => DataType::Date32.spec_id(),
        TimeType::TimestampUs => DataType::TimestampUs.spec_id(),
    }
}

fn time_type_id(tt: TimeType) -> (id: u8)
    ensures
        id == time_id(tt),
{
    match tt {
        TimeType::Date32 => DataType::Date32.id(),
        TimeType::TimestampUs => DataType::TimestampUs.id(),
    }
}

/// A column as an engine is told of it.
#[derive(Debug)]
pub struct ColumnInfo {
    pub name: String,
    pub type_id: u8,
    pub nullable: bool,
}

/// A field of a dataset; its type is missing where the field does not open.
#[derive(Debug)]
pub struct ListedField {
    pub name: String,
    pub data_type: Option<DataType>,
}

/// The number of columns: time, symbol and the fields.
pub fn schema_count(fields: usize) -> (count: i32)
    requires
        fields + 2 <= i32::MAX,
    ensures
        count == fields + 2,
{
    (fields + 2) as i32
}

/// What an engine is told of column `index`: time, symbol, then the fields.
pub open spec fn column_info(index: int, tt: TimeType, fields: Seq<ListedField>) -> Option<
    (Seq<char>, u8, bool),
> {
    if index == 0 {
        Some(("time"@, time_id(tt), false))
    } else if index == 1 {
        Some(("sym"@, SPLAYED_TYPE_STRING_DICT, false))
    } else if 2 <= index < fields.len() + 2 {
        match fields[index - 2].data_type {
            Some(t) => Some((fields[index - 2].name@, t.spec_id(), true)),
            None => None,
        }
    } else {
        None
    }
}

pub fn schema_field(index: i32, tt: TimeType, fields: &[ListedField]) -> (r: Option<ColumnInfo>)
    ensures
        match column_info(index as int, tt, fields@) {
            Some((name, type_id, nullable)) => r matches Some(info) && info.name@ == name
                && info.type_id == type_id && info.nullable == nullable,
            None => r is None,
        },
{
    if index < 0 {
        return None;
    }
    if index == 0 {
        return Some(
            ColumnInfo { name: "time".to_owned(), type_id: time_type_id(tt), nullable: false },
        );
    }
    if index == 1 {
        return Some(
            ColumnInfo {
                name: "sym".to_owned(),
                type_id: SPLAYED_TYPE_STRING_DICT,
                nullable: false,
            },
        );
    }
    let at: usize = (index - 2) as usize;
    if at >= fields.len() {
        return None;
    }
    match fields[at].data_type {
        Some(t) => Some(
            ColumnInfo { name: fields[at].name.clone(), type_id: t.id(), nullable: true },
        ),
        None => None,
    }
}

/// The columns of an export, by name and type: time, symbol, then the fields that open.
pub open spec fn exported(fields: Seq<ListedField>) -> Seq<(Seq<char>, DataType)>
    decreases fields.len(),
{
    if fields.len() == 0 {
        Seq::empty()
    } else {
        let front = exported(fields.drop_last());
        match fields.last().data_type {
            Some(t) => front.push((fields.last().name@, t)),
            None => front,
        }
    }
}

/// A column of an export.
#[derive(Debug)]
pub struct ExportField {
    pub name: String,
    pub data_type: DataType,
    pub nullable: bool,
}

/// The fields of an export by name and type.
pub open spec fn named_types(fields: Seq<ExportField>) -> Seq<(Seq<char>, DataType)> {
    Seq::new(fields.len(), |i: int| (fields[i].name@, fields[i].data_type))
}

/// The schema of an export.
pub fn build_arrow_schema(tt: TimeType, fields: &[ListedField]) -> (out: Vec<ExportField>)
    ensures
        named_types(out@) == seq![
            (
                "time"@,
                match tt {
                    TimeType::Date32 => DataType::Date32,
                    TimeType::TimestampUs => DataType::TimestampUs,
                },
            ),
            ("sym"@, DataType::Utf8),
        ] + exported(fields@),
        forall|i: int| 0 <= i < out@.len() ==> (#[trigger] out@[i]).nullable == (i >= 2),
{
    let time = match tt {
        TimeType::Date32 => DataType::Date32,
        TimeType::TimestampUs => DataType::TimestampUs,
    };
    let mut out: Vec<ExportField> = Vec::new();
    out.push(ExportField { name: "time".to_owned(), data_type: time, nullable: false });
    out.push(ExportField { name: "sym".to_owned(), data_type: DataType::Utf8, nullable: false });
    let ghost system = seq![("time"@, time), ("sym"@, DataType::Utf8)];
    let mut k: usize = 0;
    assert(named_types(out@) =~= system + exported(fields@.take(0)));
    while k < fields.len()
        invariant
            k <= fields@.len(),
            system.len() == 2,
            out@.len() >= 2,
            named_types(out@) == system + exported(fields@.take(k as int)),
            forall|i: int| 0 <= i < out@.len() ==> (#[trigger] out@[i]).nullable == (i >= 2),
        decreases fields.len() - k,
    {
        let ghost before = out@;
        assert(fields@.take(k + 1).drop_last() =~= fields@.take(k as int));
        if let Some(t) = fields[k].data_type {
            out.push(ExportField { name: fields[k].name.clone(), data_type: t, nullable: true });
            assert(named_types(out@) =~= named_types(before).push((fields@[k as int].name@, t)));
            assert(named_types(out@) =~= system + exported(fields@.take(k + 1)));
        }
        k += 1;
    }
    assert(fields@.take(k as int) =~= fields@);
    out
}

/// A column of a batch.
#[derive(Debug)]
pub enum BatchColumn {
    /// Values of one width; the type is missing where it has no stored form.
    Primitive { data_type: Option<DataType>, data: Vec<u8>, nulls: Option<Vec<u8>> },
    /// Texts, given by four-byte keys.
    Dictionary { indices: Vec<u8>, values: Vec<String> },
    /// Values of varying width.
    Varlen,
}

/// A column as an engine sees it, for as long as its batch is kept.
#[derive(Debug, Clone, Copy)]
pub struct SplayedColumnFFI<'a> {
    /// 0 for values of one width, 1 for a dictionary.
    pub kind: u8,
    pub type_id: u8,
    /// Values, or the keys of a dictionary.
    pub data: &'a [u8],
    /// One bit per row that is set where a value is there; none where all are.
    pub validity: Option<&'a [u8]>,
    /// The texts of a dictionary.
    pub dict_count: i32,
}

/// A batch as an engine sees it.
#[derive(Debug, Clone)]
pub struct SplayedBatchFFI<'a> {
    pub row_count: i32,
    pub column_count: i32,
    /// How many of the columns are time and symbol.
    pub system_columns: i32,
    pub columns: Vec<SplayedColumnFFI<'a>>,
}

/// The sizes of a column fit the engine's counts.
pub open spec fn sized(c: BatchColumn) -> bool {
    match c {
        BatchColumn::Primitive { data, nulls, .. } => data@.len() <= u32::MAX && (nulls matches Some(
            n,
        ) ==> n@.len() <= u32::MAX),
        BatchColumn::Dictionary { indices, values } => indices@.len() <= u32::MAX && values@.len()
            <= i32::MAX,
        BatchColumn::Varlen => true,
    }
}

/// What an engine sees of a column.
pub open spec fn shows(view: SplayedColumnFFI<'_>, c: BatchColumn) -> bool {
    match c {
        BatchColumn::Primitive { data_type, data, nulls } => {
            &&& view.kind == 0
            &&& view.type_id == match data_type {
                Some(t) => t.spec_id(),
                None => UNKNOWN_TYPE,
            }
            &&& view.data@ == data@
            &&& match nulls {
                Some(n) => view.validity matches Some(v) && v@ == n@,
                None => view.validity is None,
            }
            &&& view.dict_count == 0
        },
        BatchColumn::Dictionary { indices, values } => {
            &&& view.kind == 1
            &&& view.type_id == SPLAYED_TYPE_STRING_DICT
            &&& view.data@ == indices@
            &&& view.validity is None
            &&& view.dict_count == values@.len()
        },
        BatchColumn::Varlen => {
            &&& view.kind == 0
            &&& view.type_id == UNKNOWN_TYPE
            &&& view.data@.len() == 0
            &&& view.validity is None
            &&& view.dict_count == 0
        },
    }
}

fn column_view(c: &BatchColumn) -> (view: SplayedColumnFFI<'_>)
    requires
        sized(*c),
    ensures
        shows(view, *c),
{
    match c {
        BatchColumn::Primitive { data_type, data, nulls } => SplayedColumnFFI {
            kind: 0,
            type_id: match data_type {
                Some(t) => t.id(),
                None => UNKNOWN_TYPE,
            },
            data: data.as_slice(),
            validity: match nulls {
                Some(n) => Some(n.as_slice()),
                None => None,
            },
            dict_count: 0,
        },
        BatchColumn::Dictionary { indices, values } => SplayedColumnFFI {
            kind: 1,
            type_id: SPLAYED_TYPE_STRING_DICT,
            data: indices.as_slice(),
            validity: None,
            dict_count: values.len() as i32,
        },
        BatchColumn::Varlen => SplayedColumnFFI {
            kind: 0,
            type_id: UNKNOWN_TYPE,
            data: &[],
            validity: None,
            dict_count: 0,
        },
    }
}

/// Shows a batch to an engine.
pub fn build_views(columns: &[BatchColumn], rows: usize) -> (batch: SplayedBatchFFI<'_>)
    requires
        rows <= i32::MAX,
        columns@.len() <= i32::MAX,
        forall|i: int| 0 <= i < columns@.len() ==> sized(#[trigger] columns@[i]),
    ensures
        batch.row_count == rows,
        batch.column_count == columns@.len(),
        batch.system_columns == if columns@.len() < 2 {
            columns@.len() as int
        } else {
            2
        },
        batch.columns@.len() == columns@.len(),
        forall|i: int|
            0 <= i < columns@.len() ==> shows(#[trigger] batch.columns@[i], columns@[i]),
{
    let mut views: Vec<SplayedColumnFFI<'_>> = Vec::new();
    let mut k: usize = 0;
    while k < columns.len()
        invariant
            k <= columns@.len(),
            forall|i: int| 0 <= i < columns@.len() ==> sized(#[trigger] columns@[i]),
            views@.len() == k,
            forall|i: int| 0 <= i < k ==> shows(#[trigger] views@[i], columns@[i]),
        decreases columns.len() - k,
    {
        views.push(column_view(&columns[k]));
        k += 1;
    }
    let count: i32 = columns.len() as i32;
    SplayedBatchFFI {
        row_count: rows as i32,
        column_count: count,
        system_columns: if count < 2 {
            count
        } else {
            2
        },
        columns: views,
    }
}

/// Text `idx` of the dictionary of a column.
pub open spec fn text_in(columns: Seq<BatchColumn>, column: int, idx: int) -> Option<Seq<char>> {
    if 0 <= column < columns.len() {
        match columns[column] {
            BatchColumn::Dictionary { values, .. } => if 0 <= idx < values@.len() {
                Some(values@[idx]@)
            } else {
                None
            },
            _ => None,
        }
    } else {
        None
    }
}

pub fn dict_value(columns: &[BatchColumn], column: i32, idx: i32) -> (r: Option<&str>)
    ensures
        match text_in(columns@, column as int, idx as int) {
            Some(t) => r matches Some(s) && s@ == t,
            None => r is None,
        },
{
    if column < 0 || idx < 0 || column as usize >= columns.len() {
        return None;
    }
    match &columns[column as usize] {
        BatchColumn::Dictionary { values, .. } => if (idx as usize) < values.len() {
            Some(values[idx as usize].as_str())
        } else {
            None
        },
        _ => None,
    }
}

/// The rows of a batch and the threads of a scan: at least one of each.
pub fn scan_sizes(batch_rows: u32, parallelism: i32) -> (sizes: (usize, usize))
    ensures
        sizes.0 == if batch_rows == 0 {
            1
        } else {
            batch_rows as int
        },
        sizes.1 == if parallelism < 1 {
            1
        } else {
            parallelism as int
        },
{
    (
        if batch_rows == 0 {
            1
        } else {
            batch_rows as usize
        },
        if parallelism < 1 {
            1
        } else {
            parallelism as usize
        },
    )
}

/// The columns that a caller sees: the time, under the number of its type, and the symbol,
/// of which neither can be missing; and each field at its place behind them, under the
/// number of its type, which can be; and no more.
pub proof fn law_columns_seen(index: int, tt: TimeType, fields: Seq<ListedField>, i: int)
    ensures
        column_info(0, tt, fields) matches Some((name, id, nullable)) && name == "time"@ && id
            == tt.column_type().spec_id() && !nullable,
        column_info(1, tt, fields) matches Some((name, id, nullable)) && name == "sym"@ && id == 200
            && !nullable,
        0 <= i < fields.len() ==> match fields[i].data_type {
            Some(t) => column_info(i + 2, tt, fields) matches Some((name, id, nullable)) && name
                == fields[i].name@ && id == t.spec_id() && nullable,
            None => column_info(i + 2, tt, fields) is None,
        },
        index < 0 || index >= fields.len() + 2 ==> column_info(index, tt, fields) is None,
{
}

/// The fields that are exported are those that have a type, in their order.
pub proof fn law_exported_in_order(a: Seq<ListedField>, b: Seq<ListedField>, one: ListedField)
    ensures
        exported(a + b) == exported(a) + exported(b),
        match one.data_type {
            Some(t) => exported(seq![one]) == seq![(one.name@, t)],
            None => exported(seq![one]).len() == 0,
        },
    decreases b.len(),
{
    reveal_with_fuel(exported, 2);
    assert(seq![one].drop_last() =~= Seq::<ListedField>::empty());
    if let Some(t) = one.data_type {
        assert(exported(seq![one]) =~= seq![(one.name@, t)]);
    }
    if b.len() == 0 {
        assert(a + b =~= a);
        assert(exported(a) + exported(b) =~= exported(a));
    } else {
        law_exported_in_order(a, b.drop_last(), one);
        assert((a + b).drop_last() =~= a + b.drop_last());
        assert(exported(a + b) =~= exported(a) + exported(b));
    }
}

/// A caller sees the bytes of a column as they are, with the number of its type; a dictionary
/// by its keys and the count of its texts, each of which is found by its number.
pub proof fn law_columns_shown(
    view: SplayedColumnFFI<'_>,
    columns: Seq<BatchColumn>,
    k: int,
    idx: int,
)
    requires
        0 <= k < columns.len(),
        shows(view, columns[k]),
        sized(columns[k]),
    ensures
        columns[k] matches BatchColumn::Primitive { data_type, data, nulls } ==> {
            &&& view.kind == 0 && view.dict_count == 0
            &&& view.data@ == data@
            &&& data_type matches Some(t) ==> view.type_id == t.spec_id()
            &&& data_type is None ==> view.type_id == 255
            &&& nulls is None <==> view.validity is None
            &&& nulls matches Some(n) ==> (view.validity matches Some(v) && v@ == n@)
        },
        columns[k] matches BatchColumn::Dictionary { indices, values } ==> {
            &&& view.kind == 1 && view.type_id == 200
            &&& view.data@ == indices@
            &&& view.validity is None
            &&& text_in(columns, k, idx) is Some <==> 0 <= idx < view.dict_count
            &&& 0 <= idx < values@.len() ==> text_in(columns, k, idx) == Some(values@[idx]@)
        },
        columns[k] is Varlen ==> view.kind == 0 && view.type_id == 255 && view.data@.len() == 0
            && view.validity is None && view.dict_count == 0,
        !(columns[k] is Dictionary) ==> text_in(columns, k, idx) is None,
        text_in(columns, columns.len() as int, idx) is None,
        text_in(columns, -1, idx) is None,
{
}

} // verus!

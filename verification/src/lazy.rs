//! Which columns a lazy query of a table reads and yields.

use vstd::prelude::*;
use vstd::string::*;
use crate::hint;
use crate::hint::{Hint, HintColumn, HintExpr, HintType};
use crate::provider::DEFAULT_BATCH;
use crate::query::TableScanRequest;
use crate::schema::FieldSchema;
use crate::text;
use crate::types::{DataType, TimeType};

verus! {

/// The type in which a query sees stored values.
pub open spec fn seen_as(t: DataType) -> HintType {
    match t {
        DataType::Bool => HintType::Boolean,
        DataType::Int8 => HintType::Int8,
        DataType::Int16 => HintType::Int16,
        DataType::Int32 => HintType::Int32,
        DataType::Int64 => HintType::Int64,
        DataType::UInt8 => HintType::UInt8,
        DataType::UInt16 => HintType::UInt16,
        DataType::UInt32 => HintType::UInt32,
        DataType::UInt64 => HintType::UInt64,
        DataType::Float32 => HintType::Float32,
        DataType::Float64 => HintType::Float64,
        DataType::Utf8 => HintType::Text,
        DataType::Date32 | DataType::Date64 => HintType::Date,
        DataType::TimestampUs => HintType::Datetime,
    }
}

pub fn query_type(t: DataType) -> (kind: HintType)
    ensures
        kind == seen_as(t),
{
    match t {
        DataType::Bool => HintType::Boolean,
        DataType::Int8 => HintType::Int8,
        DataType::Int16 => HintType::Int16,
        DataType::Int32 => HintType::Int32,
        DataType::Int64 => HintType::Int64,
        DataType::UInt8 => HintType::UInt8,
        DataType::UInt16 => HintType::UInt16,
        DataType::UInt32 => HintType::UInt32,
        DataType::UInt64 => HintType::UInt64,
        DataType::Float32 => HintType::Float32,
        DataType::Float64 => HintType::Float64,
        DataType::Utf8 => HintType::Text,
        DataType::Date32 | DataType::Date64 => HintType::Date,
        DataType::TimestampUs => HintType::Datetime,
    }
}

/// What the values of a column that names partitions are.
#[derive(Debug, Clone, Copy, PartialEq, Eq, Structural)]
pub enum PartitionColumnKind {
    Int64,
    String,
}

/// A column that names partitions.
#[derive(Debug)]
pub struct PartitionColumn {
    pub name: std::string::String,
    pub kind: PartitionColumnKind,
}

/// Columns by name and type.
pub open spec fn layout(columns: Seq<HintColumn>) -> Seq<(Seq<char>, HintType)> {
    Seq::new(columns.len(), |i: int| (columns[i].name@, columns[i].kind))
}

/// Fields by name and type.
pub open spec fn fields_seen(fields: Seq<FieldSchema>) -> Seq<(Seq<char>, HintType)> {
    Seq::new(fields.len(), |i: int| (fields[i].name@, seen_as(fields[i].data_type)))
}

/// Columns that name partitions, by name and type.
pub open spec fn partitions_seen(columns: Seq<PartitionColumn>) -> Seq<(Seq<char>, HintType)> {
    Seq::new(
        columns.len(),
        |i: int|
            (
                columns[i].name@,
                match columns[i].kind {
                    PartitionColumnKind::Int64 => HintType::Int64,
                    PartitionColumnKind::String => HintType::Text,
                },
            ),
    )
}

/// The columns of a table: time, symbol, the fields, and those that name partitions.
pub fn table_layout(tt: TimeType, fields: &[FieldSchema], partitions: &[PartitionColumn]) -> (out:
    Vec<HintColumn>)
    ensures
        layout(out@) == seq![
            (
                "time"@,
                match tt {
                    TimeType::Date32 => HintType::Date,
                    TimeType::TimestampUs => HintType::Datetime,
                },
            ),
            ("sym"@, HintType::Text),
        ] + fields_seen(fields@) + partitions_seen(partitions@),
{
    let time = match tt {
        TimeType::Date32 => HintType::Date,
        TimeType::TimestampUs => HintType::Datetime,
    };
    let mut out: Vec<HintColumn> = Vec::new();
    out.push(HintColumn { name: "time".to_owned(), kind: time });
    out.push(HintColumn { name: "sym".to_owned(), kind: HintType::Text });
    let ghost system = seq![("time"@, time), ("sym"@, HintType::Text)];
    let mut k: usize = 0;
    assert(layout(out@) =~= system + fields_seen(fields@).take(0));
    while k < fields.len()
        invariant
            k <= fields@.len(),
            layout(out@) == system + fields_seen(fields@).take(k as int),
        decreases fields.len() - k,
    {
        let ghost before = out@;
        let field = &fields[k];
        out.push(HintColumn { name: field.name.clone(), kind: query_type(field.data_type) });
        assert(layout(out@) =~= layout(before).push(fields_seen(fields@)[k as int]));
        assert(layout(out@) =~= system + fields_seen(fields@).take(k + 1));
        k += 1;
    }
    let ghost stored = system + fields_seen(fields@);
    assert(layout(out@) =~= stored);
    k = 0;
    assert(layout(out@) =~= stored + partitions_seen(partitions@).take(0));
    while k < partitions.len()
        invariant
            k <= partitions@.len(),
            layout(out@) == stored + partitions_seen(partitions@).take(k as int),
        decreases partitions.len() - k,
    {
        let ghost before = out@;
        let column = &partitions[k];
        let kind = match column.kind {
            PartitionColumnKind::Int64 => HintType::Int64,
            PartitionColumnKind::String => HintType::Text,
        };
        out.push(HintColumn { name: column.name.clone(), kind });
        assert(layout(out@) =~= layout(before).push(partitions_seen(partitions@)[k as int]));
        assert(layout(out@) =~= stored + partitions_seen(partitions@).take(k + 1));
        k += 1;
    }
    assert(layout(out@) =~= stored + partitions_seen(partitions@));
    out
}

/// The texts of a list that another list has, or has not, in order.
pub open spec fn kept(list: Seq<Seq<char>>, other: Seq<Seq<char>>, inside: bool) -> Seq<Seq<char>>
    decreases list.len(),
{
    if list.len() == 0 {
        Seq::empty()
    } else {
        let front = kept(list.drop_last(), other, inside);
        if other.contains(list.last()) == inside {
            front.push(list.last())
        } else {
            front
        }
    }
}

fn keep(list: &[String], other: &[String], inside: bool) -> (out: Vec<String>)
    ensures
        text::texts(out@) == kept(text::texts(list@), text::texts(other@), inside),
{
    let mut out: Vec<String> = Vec::new();
    let ghost all = text::texts(list@);
    let mut k: usize = 0;
    assert(text::texts(out@) =~= kept(all.take(0), text::texts(other@), inside));
    while k < list.len()
        invariant
            k <= list@.len(),
            all == text::texts(list@),
            text::texts(out@) == kept(all.take(k as int), text::texts(other@), inside),
        decreases list.len() - k,
    {
        let ghost before = out@;
        assert(all.take(k + 1).drop_last() =~= all.take(k as int));
        assert(all.take(k + 1).last() == list@[k as int]@);
        if text::is_listed(other, list[k].as_str()) == inside {
            out.push(list[k].clone());
            assert(text::texts(out@) =~= text::texts(before).push(list@[k as int]@));
        }
        k += 1;
    }
    assert(all.take(k as int) =~= all);
    out
}

/// The names of columns.
pub open spec fn column_names(columns: Seq<HintColumn>) -> Seq<Seq<char>> {
    Seq::new(columns.len(), |i: int| columns[i].name@)
}

fn names_of(columns: &[HintColumn]) -> (out: Vec<String>)
    ensures
        text::texts(out@) == column_names(columns@),
{
    let mut out: Vec<String> = Vec::new();
    let mut k: usize = 0;
    while k < columns.len()
        invariant
            k <= columns@.len(),
            out@.len() == k,
            forall|i: int| 0 <= i < k ==> out@[i]@ == columns@[i].name@,
        decreases columns.len() - k,
    {
        out.push(columns[k].name.clone());
        k += 1;
    }
    assert(text::texts(out@) =~= column_names(columns@));
    out
}

/// What a query of a dataset yields: the columns it asks for, as it asks, or all.
pub fn dataset_columns(columns: &[HintColumn], asked: Option<Vec<String>>) -> (out: Vec<String>)
    ensures
        text::texts(out@) == match asked {
            Some(list) => text::texts(list@),
            None => column_names(columns@),
        },
{
    match asked {
        Some(list) => list,
        None => names_of(columns),
    }
}

/// What a query of a table yields: its columns in their order, those that are asked for.
pub fn table_columns(columns: &[HintColumn], asked: Option<&[String]>) -> (out: Vec<String>)
    ensures
        text::texts(out@) == match asked {
            Some(list) => kept(column_names(columns@), text::texts(list@), true),
            None => column_names(columns@),
        },
{
    let names = names_of(columns);
    match asked {
        Some(list) => keep(names.as_slice(), list, true),
        None => names,
    }
}

/// Those of the columns that are stored, which leaves out those that name partitions.
pub fn stored_columns(names: &[String], partitions: &[String]) -> (out: Vec<String>)
    ensures
        text::texts(out@) == kept(text::texts(names@), text::texts(partitions@), false),
{
    keep(names, partitions, false)
}

/// Those of the columns that are fields, which leaves out time and symbol.
pub fn field_columns(names: &[String]) -> (out: Vec<String>)
    ensures
        text::texts(out@) == kept(text::texts(names@), seq!["time"@, "sym"@], false),
{
    let mut system: Vec<String> = Vec::new();
    system.push("time".to_owned());
    system.push("sym".to_owned());
    assert(text::texts(system@) =~= seq!["time"@, "sym"@]);
    keep(names, system.as_slice(), false)
}

/// A table that holds a column yields it where it is asked for, and yields nothing else.
pub proof fn law_columns_asked(columns: Seq<Seq<char>>, asked: Seq<Seq<char>>, name: Seq<char>)
    ensures
        kept(columns, asked, true).contains(name) <==> columns.contains(name) && asked.contains(
            name,
        ),
        kept(columns, asked, false).contains(name) <==> columns.contains(name) && !asked.contains(
            name,
        ),
    decreases columns.len(),
{
    if columns.len() > 0 {
        let front = columns.drop_last();
        law_columns_asked(front, asked, name);
        assert(front.push(columns.last()) =~= columns);
        lemma_push_contains(front, columns.last(), name);
        lemma_push_contains(kept(front, asked, true), columns.last(), name);
        lemma_push_contains(kept(front, asked, false), columns.last(), name);
    }
}

proof fn lemma_push_contains(list: Seq<Seq<char>>, last: Seq<char>, name: Seq<char>)
    ensures
        list.push(last).contains(name) <==> list.contains(name) || last == name,
{
    let longer = list.push(last);
    if list.contains(name) {
        let i = list.index_of(name);
        assert(longer[i] == name);
    }
    if last == name {
        assert(longer[list.len() as int] == name);
    }
    if longer.contains(name) {
        let i = longer.index_of(name);
        if i < list.len() {
            assert(list[i] == name);
        }
    }
}

/// The place of a name in a list.
pub open spec fn place(list: Seq<Seq<char>>, name: Seq<char>) -> Option<int>
    decreases list.len(),
{
    if list.len() == 0 {
        None
    } else if list[0] == name {
        Some(0)
    } else {
        match place(list.drop_first(), name) {
            Some(i) => Some(i + 1),
            None => None,
        }
    }
}

fn find_place(list: &[String], name: &str) -> (r: Option<usize>)
    ensures
        match place(text::texts(list@), name@) {
            Some(i) => r matches Some(p) && p == i && i < list@.len(),
            None => r is None,
        },
{
    let ghost all = text::texts(list@);
    let mut k: usize = 0;
    assert(all.skip(0) =~= all);
    while k < list.len()
        invariant
            k <= list@.len(),
            all == text::texts(list@),
            place(all, name@) == match place(all.skip(k as int), name@) {
                Some(i) => Some(i + k),
                None => None,
            },
        decreases list.len() - k,
    {
        assert(all.skip(k as int)[0] == list@[k as int]@);
        assert(all.skip(k as int).drop_first() =~= all.skip(k + 1));
        if text::same(list[k].as_str(), name) {
            return Some(k);
        }
        k += 1;
    }
    None
}

/// Pairs in order: by the first number, then by the second.
pub open spec fn pairs_in_order(pairs: Seq<(usize, usize)>) -> bool {
    forall|i: int, j: int|
        0 <= i < j < pairs.len() ==> (#[trigger] pairs[i]).0 < (#[trigger] pairs[j]).0 || pairs[i].0
            == pairs[j].0 && pairs[i].1 < pairs[j].1
}

/// Name `k` is the first that the batch lacks.
pub open spec fn first_absent(names: Seq<Seq<char>>, batch: Seq<Seq<char>>, k: int) -> bool {
    &&& 0 <= k < names.len()
    &&& place(batch, names[k]) is None
    &&& forall|j: int| 0 <= j < k ==> place(batch, #[trigger] names[j]) is Some
}

/// The pair of a name: its place in the batch, and its number.
pub open spec fn paired(
    pair: (usize, usize),
    names: Seq<Seq<char>>,
    batch: Seq<Seq<char>>,
) -> bool {
    pair.1 < names.len() && place(batch, names[pair.1 as int]) == Some(pair.0 as int)
}

/// The pairs hold that of name `k`.
pub open spec fn taken(pairs: Seq<(usize, usize)>, k: int) -> bool {
    exists|i: int| 0 <= i < pairs.len() && (#[trigger] pairs[i]).1 == k
}

/// The columns of a batch that a query takes, in the order of the batch, each with its
/// number in the query.  `source` is what the batch is called where a column lacks.
pub fn columns_in_batch(names: &[String], batch: &[String], source: &str) -> (r: Result<
    Vec<(usize, usize)>,
    String,
>)
    ensures
        match r {
            Ok(pairs) => {
                &&& pairs_in_order(pairs@)
                &&& forall|i: int|
                    0 <= i < pairs@.len() ==> paired(
                        #[trigger] pairs@[i],
                        text::texts(names@),
                        text::texts(batch@),
                    )
                &&& forall|k: int| 0 <= k < names@.len() ==> #[trigger] taken(pairs@, k)
            },
            Err(m) => exists|k: int| #[trigger]
                first_absent(text::texts(names@), text::texts(batch@), k) && m@ == "column "@
                    + names@[k]@ + " not in "@ + source@,
        },
{
    let ghost wanted = text::texts(names@);
    let ghost held = text::texts(batch@);
    let mut places: Vec<usize> = Vec::new();
    let mut k: usize = 0;
    while k < names.len()
        invariant
            k <= names@.len(),
            wanted == text::texts(names@),
            held == text::texts(batch@),
            places@.len() == k,
            forall|j: int|
                0 <= j < k ==> place(held, #[trigger] wanted[j]) == Some(places@[j] as int)
                    && places@[j] < batch@.len(),
        decreases names.len() - k,
    {
        match find_place(batch, names[k].as_str()) {
            Some(p) => {
                places.push(p);
            },
            None => {
                let mut message = String::new();
                message.append("column ");
                message.append(names[k].as_str());
                message.append(" not in ");
                message.append(source);
                assert(first_absent(wanted, held, k as int));
                return Err(message);
            },
        }
        k += 1;
    }
    let mut pairs: Vec<(usize, usize)> = Vec::new();
    let mut at: usize = 0;
    while at < batch.len()
        invariant
            at <= batch@.len(),
            wanted == text::texts(names@),
            held == text::texts(batch@),
            places@.len() == names@.len(),
            forall|j: int|
                0 <= j < names@.len() ==> place(held, #[trigger] wanted[j]) == Some(
                    places@[j] as int,
                ) && places@[j] < batch@.len(),
            pairs_in_order(pairs@),
            forall|i: int| 0 <= i < pairs@.len() ==> paired(#[trigger] pairs@[i], wanted, held),
            forall|i: int| 0 <= i < pairs@.len() ==> (#[trigger] pairs@[i]).0 < at,
            forall|j: int|
                0 <= j < names@.len() && (#[trigger] places@[j]) < at ==> taken(pairs@, j),
        decreases batch.len() - at,
    {
        let mut j: usize = 0;
        while j < names.len()
            invariant
                j <= names@.len(),
                at < batch@.len(),
                wanted == text::texts(names@),
                held == text::texts(batch@),
                places@.len() == names@.len(),
                forall|j: int|
                    0 <= j < names@.len() ==> place(held, #[trigger] wanted[j]) == Some(
                        places@[j] as int,
                    ) && places@[j] < batch@.len(),
                pairs_in_order(pairs@),
                forall|i: int| 0 <= i < pairs@.len() ==> paired(#[trigger] pairs@[i], wanted, held),
                forall|i: int|
                    0 <= i < pairs@.len() ==> (#[trigger] pairs@[i]).0 < at || pairs@[i].0 == at
                        && pairs@[i].1 < j,
                forall|m: int|
                    0 <= m < names@.len() && ((#[trigger] places@[m]) < at || places@[m] == at && m
                        < j) ==> taken(pairs@, m),
            decreases names.len() - j,
        {
            if places[j] == at {
                let ghost before = pairs@;
                pairs.push((at, j));
                proof {
                    assert(wanted[j as int] == names@[j as int]@);
                    assert(pairs@[before.len() as int].1 == j);
                    assert forall|m: int|
                        0 <= m < names@.len() && ((#[trigger] places@[m]) < at || places@[m] == at
                            && m < j + 1) implies taken(pairs@, m) by {
                        if m != j {
                            let i = choose|i: int|
                                0 <= i < before.len() && (#[trigger] before[i]).1 == m;
                            assert(pairs@[i] == before[i]);
                        }
                    }
                }
            }
            j += 1;
        }
        at += 1;
    }
    proof {
        assert forall|m: int| 0 <= m < names@.len() implies #[trigger] taken(pairs@, m) by {
            assert(place(held, wanted[m]) == Some(places@[m] as int));
        }
    }
    Ok(pairs)
}

/// A value that all rows of a partition have.
#[derive(Debug)]
pub enum PartitionConstant {
    Int64(i64),
    Text(std::string::String),
}

/// What a partition declares of a column, by name; the first counts, and nothing is the
/// empty text.
pub open spec fn declared_value(
    declared: Seq<(std::string::String, std::string::String)>,
    name: Seq<char>,
) -> Seq<char>
    decreases declared.len(),
{
    if declared.len() == 0 {
        Seq::empty()
    } else if declared[0].0@ == name {
        declared[0].1@
    } else {
        declared_value(declared.drop_first(), name)
    }
}

/// The constant of a column that names partitions: what is declared, as a number where the
/// column holds numbers, and zero where that spells none.
pub fn partition_constant(
    declared: &[(std::string::String, std::string::String)],
    column: &PartitionColumn,
) -> (value: PartitionConstant)
    ensures
        ({
            let said = declared_value(declared@, column.name@);
            match column.kind {
                PartitionColumnKind::Int64 => value matches PartitionConstant::Int64(n) && n
                    == match text::parse_int(said) {
                    Some(v) if i64::MIN <= v <= i64::MAX => v,
                    _ => 0,
                },
                PartitionColumnKind::String => value matches PartitionConstant::Text(s) && s@
                    == said,
            }
        }),
{
    let mut said = String::new();
    let mut k: usize = 0;
    assert(declared@.skip(0) =~= declared@);
    let ghost whole = declared_value(declared@, column.name@);
    let mut found: bool = false;
    while k < declared.len() && !found
        invariant
            k <= declared@.len(),
            whole == declared_value(declared@, column.name@),
            !found ==> said@.len() == 0 && whole == declared_value(
                declared@.skip(k as int),
                column.name@,
            ),
            found ==> said@ == whole,
        decreases declared.len() - k,
    {
        assert(declared@.skip(k as int)[0] == declared@[k as int]);
        assert(declared@.skip(k as int).drop_first() =~= declared@.skip(k + 1));
        if text::same(declared[k].0.as_str(), column.name.as_str()) {
            said = declared[k].1.clone();
            found = true;
        }
        k += 1;
    }
    assert(said@ =~= whole);
    match column.kind {
        PartitionColumnKind::Int64 => {
            let chars = text::chars_of(said.as_str());
            match text::read_i64(chars.as_slice()) {
                Some(n) => PartitionConstant::Int64(n),
                None => PartitionConstant::Int64(0),
            }
        },
        PartitionColumnKind::String => PartitionConstant::Text(said),
    }
}

/// The request of a query that asks for columns and a number of rows.
pub fn frame_request(asked: Option<Vec<String>>, rows: Option<usize>) -> (request: TableScanRequest)
    ensures
        request.sym is None,
        request.time is None,
        request.predicate is None,
        match asked {
            Some(list) => request.projection == list,
            None => request.projection@.len() == 0,
        },
        match rows {
            Some(n) => request.limit == Some(n as u64),
            None => request.limit is None,
        },
        request.max_parallelism is None,
{
    let mut request = TableScanRequest::default();
    if let Some(list) = asked {
        request.projection = list;
    }
    if let Some(n) = rows {
        request.limit = Some(n as u64);
    }
    request
}

/// What a lazy query does to a table.
#[derive(Debug)]
pub struct LazyScan {
    /// The stored columns that it yields, in order.
    pub stored: Vec<String>,
    /// Those of them that are fields, which the partitions are asked for.
    pub fields: Vec<String>,
    /// The columns that name partitions, which follow the stored ones.
    pub constants: Vec<String>,
    /// What the partitions can use to skip rows.
    pub hint: Hint,
    /// At most so many rows in a batch.
    pub batch_size: usize,
    /// At most so many rows in all.
    pub limit: Option<usize>,
}

/// Plans a lazy query of a table.  The rows are counted once they are read, so that the
/// partitions get no limit.
pub fn plan_table_scan(
    columns: &[HintColumn],
    partitions: &[String],
    asked: Option<&[String]>,
    predicate: Option<HintExpr>,
) -> (scan: LazyScan)
    ensures
        ({
            let out = match asked {
                Some(list) => kept(column_names(columns@), text::texts(list@), true),
                None => column_names(columns@),
            };
            let stored = kept(out, text::texts(partitions@), false);
            &&& text::texts(scan.stored@) == stored
            &&& text::texts(scan.fields@) == kept(stored, seq!["time"@, "sym"@], false)
            &&& text::texts(scan.constants@) == kept(out, text::texts(partitions@), true)
        }),
        scan.hint.wf(),
        scan.hint.says() == match predicate {
            Some(e) => hint::absorbed_all(
                hint::no_hint(),
                hint::comparisons(e),
                columns@,
                partitions@,
            ),
            None => hint::no_hint(),
        },
        scan.batch_size == DEFAULT_BATCH,
        scan.limit is None,
{
    let out = table_columns(columns, asked);
    let stored = stored_columns(out.as_slice(), partitions);
    let fields = field_columns(stored.as_slice());
    let constants = keep(out.as_slice(), partitions, true);
    let hint = hint::translate(predicate, columns, partitions);
    LazyScan { stored, fields, constants, hint, batch_size: DEFAULT_BATCH, limit: None }
}

/// Plans a lazy query of a dataset.
pub fn plan_dataset_scan(
    columns: &[HintColumn],
    asked: Option<Vec<String>>,
    predicate: Option<HintExpr>,
    rows: Option<usize>,
) -> (scan: LazyScan)
    ensures
        ({
            let out = match asked {
                Some(list) => text::texts(list@),
                None => column_names(columns@),
            };
            &&& text::texts(scan.stored@) == out
            &&& text::texts(scan.fields@) == kept(out, seq!["time"@, "sym"@], false)
        }),
        scan.constants@.len() == 0,
        scan.hint.wf(),
        scan.hint.says() == match predicate {
            Some(e) => hint::absorbed_all(
                hint::no_hint(),
                hint::comparisons(e),
                columns@,
                Seq::empty(),
            ),
            None => hint::no_hint(),
        },
        scan.batch_size == DEFAULT_BATCH,
        scan.limit == rows,
{
    let stored = dataset_columns(columns, asked);
    let fields = field_columns(stored.as_slice());
    let none: Vec<String> = Vec::new();
    let hint = hint::translate(predicate, columns, none.as_slice());
    assert(none@ =~= Seq::empty());
    LazyScan { stored, fields, constants: none, hint, batch_size: DEFAULT_BATCH, limit: rows }
}

/// A table scan yields each column that is asked for and that the table has, stored or as
/// a constant, and no other.
pub proof fn law_table_scan_columns(
    columns: Seq<Seq<char>>,
    partitions: Seq<Seq<char>>,
    asked: Seq<Seq<char>>,
    name: Seq<char>,
)
    ensures
        ({
            let out = kept(columns, asked, true);
            let stored = kept(out, partitions, false);
            let constants = kept(out, partitions, true);
            &&& (stored + constants).contains(name) <==> columns.contains(name) && asked.contains(
                name,
            )
            &&& !(stored.contains(name) && constants.contains(name))
        }),
{
    let out = kept(columns, asked, true);
    law_columns_asked(columns, asked, name);
    law_columns_asked(out, partitions, name);
    let stored = kept(out, partitions, false);
    let constants = kept(out, partitions, true);
    let both = stored + constants;
    if stored.contains(name) {
        let i = stored.index_of(name);
        assert(both[i] == name);
    }
    if constants.contains(name) {
        let i = constants.index_of(name);
        assert(both[stored.len() + i] == name);
    }
    if both.contains(name) {
        let i = both.index_of(name);
        if i < stored.len() {
            assert(stored[i] == name);
        } else {
            assert(constants[i - stored.len()] == name);
        }
    }
}

/// A column is seen in a query as what it is stored as: numbers as numbers of the same width
/// and sign, dates as dates, and texts as texts.
pub proof fn law_seen_as_stored(t: DataType)
    ensures
        t is Bool <==> seen_as(t) is Boolean,
        t is Int32 <==> seen_as(t) is Int32,
        t is Int64 <==> seen_as(t) is Int64,
        t is Float32 <==> seen_as(t) is Float32,
        t is Float64 <==> seen_as(t) is Float64,
        t is Int8 <==> seen_as(t) is Int8,
        t is Int16 <==> seen_as(t) is Int16,
        t is UInt8 <==> seen_as(t) is UInt8,
        t is UInt16 <==> seen_as(t) is UInt16,
        t is UInt32 <==> seen_as(t) is UInt32,
        t is UInt64 <==> seen_as(t) is UInt64,
        t is Utf8 <==> seen_as(t) is Text,
        t is Date32 || t is Date64 <==> seen_as(t) is Date,
        t is TimestampUs <==> seen_as(t) is Datetime,
{
}

/// The columns of two lists that are kept are those of the one and, after them, those of the
/// other; a column is kept where it is, or is not, in the list that it is held against.
pub proof fn law_kept_in_order(
    a: Seq<Seq<char>>,
    b: Seq<Seq<char>>,
    other: Seq<Seq<char>>,
    inside: bool,
    one: Seq<char>,
    k: int,
)
    ensures
        kept(a + b, other, inside) == kept(a, other, inside) + kept(b, other, inside),
        0 <= k < other.len() && other[k] == one ==> kept(seq![one], other, true) == seq![one]
            && kept(seq![one], other, false).len() == 0,
        (forall|i: int| 0 <= i < other.len() ==> other[i] != one) ==> kept(seq![one], other, true).len()
            == 0 && kept(seq![one], other, false) == seq![one],
    decreases b.len(),
{
    reveal_with_fuel(kept, 2);
    assert(seq![one].drop_last() =~= Seq::<Seq<char>>::empty());
    assert(Seq::<Seq<char>>::empty().push(one) =~= seq![one]);
    if b.len() == 0 {
        assert(a + b =~= a);
        assert(kept(a, other, inside) + kept(b, other, inside) =~= kept(a, other, inside));
    } else {
        law_kept_in_order(a, b.drop_last(), other, inside, one, k);
        assert((a + b).drop_last() =~= a + b.drop_last());
        assert(kept(a + b, other, inside) =~= kept(a, other, inside) + kept(b, other, inside));
    }
}

/// The place of a name in a list is the first at which it stands.
pub proof fn law_first_place(list: Seq<Seq<char>>, name: Seq<char>)
    ensures
        match place(list, name) {
            Some(i) => 0 <= i < list.len() && list[i] == name && forall|j: int|
                0 <= j < i ==> list[j] != name,
            None => forall|j: int| 0 <= j < list.len() ==> list[j] != name,
        },
    decreases list.len(),
{
    if list.len() > 0 && list[0] != name {
        let rest = list.drop_first();
        law_first_place(rest, name);
        assert forall|j: int| 1 <= j < list.len() implies #[trigger] list[j] == rest[j - 1] by {}
    }
}

/// The value that is declared for a name is that of the first declaration of it, and empty
/// where there is none.
pub proof fn law_first_declared(
    declared: Seq<(std::string::String, std::string::String)>,
    name: Seq<char>,
    i: int,
)
    requires
        0 <= i <= declared.len(),
        forall|j: int| 0 <= j < i ==> (#[trigger] declared[j]).0@ != name,
    ensures
        i < declared.len() && declared[i].0@ == name ==> declared_value(declared, name)
            == declared[i].1@,
        i == declared.len() ==> declared_value(declared, name).len() == 0,
    decreases declared.len(),
{
    if i > 0 {
        assert(declared[0].0@ != name);
        let rest = declared.drop_first();
        assert forall|j: int| 0 <= j < i - 1 implies (#[trigger] rest[j]).0@ != name by {
            assert(rest[j] == declared[j + 1]);
        }
        law_first_declared(rest, name, i - 1);
    }
}

/// The columns of a table as a query sees them: each field under its name and as what it is
/// stored as, and each column of the directories under its name, as a whole number or as text.
pub proof fn law_layout_seen(fields: Seq<FieldSchema>, columns: Seq<PartitionColumn>, i: int)
    ensures
        fields_seen(fields).len() == fields.len(),
        partitions_seen(columns).len() == columns.len(),
        0 <= i < fields.len() ==> fields_seen(fields)[i].0 == fields[i].name@
            && fields_seen(fields)[i].1 == seen_as(fields[i].data_type),
        0 <= i < columns.len() ==> partitions_seen(columns)[i].0 == columns[i].name@ && (columns[i].kind
            is Int64 <==> partitions_seen(columns)[i].1 is Int64) && (columns[i].kind is String
            <==> partitions_seen(columns)[i].1 is Text),
{
}

/// A pair says that a column of a batch is one that a query takes: they have the same name, no
/// column before it in the batch has it, and pairs come in the order of the batch.
pub proof fn law_columns_paired(
    pairs: Seq<(usize, usize)>,
    names: Seq<Seq<char>>,
    batch: Seq<Seq<char>>,
    i: int,
    j: int,
)
    requires
        pairs_in_order(pairs),
        0 <= i < pairs.len(),
        0 <= j < pairs.len(),
        paired(pairs[i], names, batch),
    ensures
        pairs[i].0 < batch.len(),
        pairs[i].1 < names.len(),
        batch[pairs[i].0 as int] == names[pairs[i].1 as int],
        forall|k: int| 0 <= k < pairs[i].0 ==> batch[k] != names[pairs[i].1 as int],
        i < j ==> pairs[i].0 <= pairs[j].0 && pairs[i] != pairs[j],
        pairs[i].0 < pairs[j].0 ==> i < j,
{
    law_first_place(batch, names[pairs[i].1 as int]);
    if j < i {
        assert(pairs[j].0 <= pairs[i].0);
    }
}

/// The column that is said to lack is not in the batch, and all before it are.
pub proof fn law_absent_column(names: Seq<Seq<char>>, batch: Seq<Seq<char>>, k: int, j: int)
    requires
        first_absent(names, batch, k),
    ensures
        0 <= k < names.len(),
        !batch.contains(names[k]),
        0 <= j < k ==> batch.contains(names[j]),
{
    law_first_place(batch, names[k]);
    if 0 <= j < k {
        law_first_place(batch, names[j]);
        let i = place(batch, names[j])->0;
        assert(batch[i] == names[j]);
    }
}

} // verus!

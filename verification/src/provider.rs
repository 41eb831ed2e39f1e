//! What a query engine's scan of a dataset reads and yields.

use vstd::prelude::*;
use vstd::string::*;
use crate::filter;
use crate::filter::{
    Expr, Filter, FilterField, Literal, PushdownPlan, SymbolSelection, TimeRange,
};
use crate::stats::NamedType;
use crate::text;
use crate::types::TimeType;

verus! {

/// Numbers as integers.
pub open spec fn as_ints(list: Seq<usize>) -> Seq<int> {
    Seq::new(list.len(), |i: int| list[i] as int)
}

/// The columns that a query reads, by number.
pub fn projected_indices(projection: Option<&Vec<usize>>, count: usize) -> (out: Vec<usize>)
    ensures
        match projection {
            Some(list) => out@ == list@,
            None => as_ints(out@) == Seq::new(count as nat, |i: int| i),
        },
{
    match projection {
        Some(list) => {
            let mut out: Vec<usize> = Vec::new();
            out.extend_from_slice(list.as_slice());
            assert(out@ =~= list@);
            out
        },
        None => {
            let mut out: Vec<usize> = Vec::new();
            let mut k: usize = 0;
            while k < count
                invariant
                    k <= count,
                    out@.len() == k,
                    forall|i: int| 0 <= i < k ==> out@[i] == i,
                decreases count - k,
            {
                out.push(k);
                k += 1;
            }
            assert(as_ints(out@) =~= Seq::new(count as nat, |i: int| i));
            out
        },
    }
}

/// The names of the fields among columns: those behind time and symbol.
pub open spec fn field_names_of(indices: Seq<usize>, columns: Seq<NamedType>) -> Seq<Seq<char>>
    decreases indices.len(),
{
    if indices.len() == 0 {
        Seq::empty()
    } else {
        let front = field_names_of(indices.drop_last(), columns);
        if indices.last() >= 2 {
            front.push(columns[indices.last() as int].name@)
        } else {
            front
        }
    }
}

/// The fields that a query reads.
pub fn projected_fields(indices: &[usize], columns: &[NamedType]) -> (out: Vec<String>)
    requires
        forall|i: int| 0 <= i < indices@.len() ==> (#[trigger] indices@[i]) < columns@.len(),
    ensures
        text::texts(out@) == field_names_of(indices@, columns@),
{
    let mut out: Vec<String> = Vec::new();
    let mut k: usize = 0;
    assert(text::texts(out@) =~= field_names_of(indices@.take(0), columns@));
    while k < indices.len()
        invariant
            k <= indices@.len(),
            forall|i: int| 0 <= i < indices@.len() ==> (#[trigger] indices@[i]) < columns@.len(),
            text::texts(out@) == field_names_of(indices@.take(k as int), columns@),
        decreases indices.len() - k,
    {
        let i: usize = indices[k];
        let ghost before = out@;
        assert(indices@.take(k + 1).drop_last() =~= indices@.take(k as int));
        assert(indices@[k as int] < columns@.len());
        if i >= 2 {
            out.push(columns[i].name.clone());
            assert(text::texts(out@) =~= text::texts(before).push(columns@[i as int].name@));
        }
        k += 1;
    }
    assert(indices@.take(k as int) =~= indices@);
    out
}

/// Fields to which those that filters test have been added, each once.
pub open spec fn with_tested(names: Seq<Seq<char>>, filters: Seq<Filter>) -> Seq<Seq<char>>
    decreases filters.len(),
{
    if filters.len() == 0 {
        names
    } else {
        let front = with_tested(names, filters.drop_last());
        let field = filters.last().test().0;
        if front.contains(field) {
            front
        } else {
            front.push(field)
        }
    }
}

/// The fields that a scan reads: those of the query, and those that filters test.
pub fn scan_columns(names: Vec<String>, filters: &[Filter]) -> (out: Vec<String>)
    ensures
        text::texts(out@) == with_tested(text::texts(names@), filters@),
{
    let ghost start = text::texts(names@);
    let mut out = names;
    let mut k: usize = 0;
    assert(filters@.take(0).len() == 0);
    while k < filters.len()
        invariant
            k <= filters@.len(),
            text::texts(out@) == with_tested(start, filters@.take(k as int)),
        decreases filters.len() - k,
    {
        let name = filters[k].field_name();
        let ghost before = out@;
        assert(filters@.take(k + 1).drop_last() =~= filters@.take(k as int));
        assert(filters@.take(k + 1).last() == filters@[k as int]);
        if !text::is_listed(out.as_slice(), name) {
            out.push(name.to_owned());
            assert(text::texts(out@) =~= text::texts(before).push(name@));
        }
        k += 1;
    }
    assert(filters@.take(k as int) =~= filters@);
    out
}

/// Rows of a batch where no limit asks for fewer.
pub const DEFAULT_BATCH: usize = 65_536;

/// Rows that are read at a time.
pub open spec fn rows_at_once(limit: Option<usize>) -> usize {
    match limit {
        Some(n) if n < DEFAULT_BATCH => n,
        _ => DEFAULT_BATCH,
    }
}

pub fn batch_size(limit: Option<usize>) -> (rows: usize)
    ensures
        rows == rows_at_once(limit),
{
    match limit {
        Some(n) => if n < DEFAULT_BATCH {
            n
        } else {
            DEFAULT_BATCH
        },
        None => DEFAULT_BATCH,
    }
}

/// Into how many parts a scan is split: no more than there are ranges of rows, and at
/// least one.
pub fn scan_parts(parallelism: usize, ranges: usize) -> (parts: usize)
    ensures
        parts >= 1,
        parts == if parallelism <= ranges && parallelism > 0 {
            parallelism
        } else if ranges > 0 && parallelism > 0 {
            ranges
        } else {
            1
        },
{
    let parts: usize = if parallelism < ranges {
        parallelism
    } else {
        ranges
    };
    if parts > 1 {
        parts
    } else {
        1
    }
}

/// How many columns at the head of a list are time or symbol.
pub open spec fn leading(indices: Seq<usize>) -> int
    decreases indices.len(),
{
    if indices.len() == 0 || indices[0] >= 2 {
        0
    } else {
        1 + leading(indices.drop_first())
    }
}

proof fn lemma_leading(indices: Seq<usize>)
    ensures
        0 <= leading(indices) <= indices.len(),
        forall|i: int| 0 <= i < leading(indices) ==> #[trigger] indices[i] < 2,
        leading(indices) < indices.len() ==> indices[leading(indices)] >= 2,
    decreases indices.len(),
{
    if indices.len() > 0 && indices[0] < 2 {
        let rest = indices.drop_first();
        lemma_leading(rest);
        assert forall|i: int| 0 <= i < leading(indices) implies #[trigger] indices[i] < 2 by {
            if i > 0 {
                assert(rest[i - 1] == indices[i]);
            }
        }
    }
}

/// Where the columns of a query stand in a batch that holds time, symbol and the fields
/// that were asked for.
pub fn batch_positions(indices: &[usize]) -> (out: Vec<usize>)
    requires
        indices@.len() + 2 <= usize::MAX,
    ensures
        out@.len() == indices@.len(),
        forall|i: int|
            0 <= i < indices@.len() ==> #[trigger] out@[i] == if indices@[i] < 2 {
                indices@[i] as int
            } else {
                2 + i - leading(indices@)
            },
{
    let mut head: usize = 0;
    proof {
        lemma_leading(indices@);
    }
    while head < indices.len() && indices[head] < 2
        invariant
            head <= indices@.len(),
            forall|i: int| 0 <= i < head ==> #[trigger] indices@[i] < 2,
        decreases indices.len() - head,
    {
        head += 1;
    }
    proof {
        let n = leading(indices@);
        if head < n {
            assert(indices@[head as int] < 2);
        }
        if n < head {
            assert(indices@[n] < 2);
        }
    }
    let mut out: Vec<usize> = Vec::new();
    let mut k: usize = 0;
    while k < indices.len()
        invariant
            k <= indices@.len(),
            indices@.len() + 2 <= usize::MAX,
            head == leading(indices@),
            forall|i: int| 0 <= i < head ==> #[trigger] indices@[i] < 2,
            out@.len() == k,
            forall|i: int|
                0 <= i < k ==> #[trigger] out@[i] == if indices@[i] < 2 {
                    indices@[i] as int
                } else {
                    2 + i - leading(indices@)
                },
        decreases indices.len() - k,
    {
        let i: usize = indices[k];
        if i < 2 {
            out.push(i);
        } else {
            out.push(2 + (k - head));
        }
        k += 1;
    }
    out
}

/// Fields before place `i`.
pub open spec fn fields_before(indices: Seq<usize>, i: int) -> int
    decreases i,
{
    if i <= 0 {
        0
    } else {
        fields_before(indices, i - 1) + if indices[i - 1] >= 2 {
            1int
        } else {
            0
        }
    }
}

/// Where columns are asked for in ascending order, a field's place behind time and symbol
/// is its rank among the fields asked for.
pub proof fn law_field_rank(indices: Seq<usize>, i: int)
    requires
        forall|a: int, b: int| 0 <= a < b < indices.len() ==> indices[a] < indices[b],
        0 <= i < indices.len(),
        indices[i] >= 2,
    ensures
        i - leading(indices) == fields_before(indices, i),
{
    lemma_leading(indices);
    lemma_fields_after_head(indices, i);
}

proof fn lemma_fields_after_head(indices: Seq<usize>, i: int)
    requires
        forall|a: int, b: int| 0 <= a < b < indices.len() ==> indices[a] < indices[b],
        0 <= i <= indices.len(),
    ensures
        fields_before(indices, i) == if i <= leading(indices) {
            0
        } else {
            i - leading(indices)
        },
    decreases i,
{
    lemma_leading(indices);
    if i > 0 {
        lemma_fields_after_head(indices, i - 1);
        let n = leading(indices);
        if i - 1 >= n {
            assert(indices[n] >= 2);
            if n < i - 1 {
                assert(indices[n] < indices[i - 1]);
            }
        } else {
            assert(indices[i - 1] < 2);
        }
    }
}

/// What becomes of a batch of rows under a limit.
#[derive(Debug, Clone, Copy, PartialEq, Eq, Structural)]
pub enum Emission {
    /// Send all of it and go on.
    All,
    /// Send so many rows of it and stop.
    Last(usize),
}

/// Counts the rows that were sent, up to a limit.
#[derive(Debug, Clone, Copy, PartialEq, Eq, Structural)]
pub struct RowCounter {
    pub limit: Option<usize>,
    pub emitted: usize,
}

impl RowCounter {
    /// No more rows have been sent than the limit allows.
    pub open spec fn wf(self) -> bool {
        self.limit matches Some(n) ==> self.emitted <= n
    }

    /// What becomes of a batch of so many rows, and the counter after it.
    pub open spec fn takes(self, rows: nat, what: Emission, after: Self) -> bool {
        &&& after.limit == self.limit
        &&& match self.limit {
            Some(n) => if self.emitted + rows > n {
                what == Emission::Last((n - self.emitted) as usize) && after.emitted == n
            } else {
                what == Emission::All && after.emitted == self.emitted + rows
            },
            None => what == Emission::All && after.emitted == self.emitted,
        }
    }

    pub fn new(limit: Option<usize>) -> (counter: Self)
        ensures
            counter.limit == limit,
            counter.emitted == 0,
            counter.wf(),
    {
        RowCounter { limit, emitted: 0 }
    }

    /// All rows that are asked for have been sent.
    pub fn done(&self) -> (yes: bool)
        ensures
            yes == (self.limit matches Some(n) && self.emitted >= n),
    {
        match self.limit {
            Some(n) => self.emitted >= n,
            None => false,
        }
    }

    /// Decides what becomes of a batch.
    pub fn take(&mut self, rows: usize) -> (what: Emission)
        requires
            old(self).wf(),
        ensures
            final(self).wf(),
            old(self).takes(rows as nat, what, *final(self)),
            final(self).limit == old(self).limit,
            match old(self).limit {
                Some(n) => if old(self).emitted + rows > n {
                    &&& what == Emission::Last((n - old(self).emitted) as usize)
                    &&& final(self).emitted == n
                } else {
                    &&& what == Emission::All
                    &&& final(self).emitted == old(self).emitted + rows
                },
                None => what == Emission::All && final(self).emitted == old(self).emitted,
            },
    {
        match self.limit {
            Some(n) => {
                let keep: usize = n - self.emitted;
                if rows > keep {
                    self.emitted = n;
                    Emission::Last(keep)
                } else {
                    self.emitted = self.emitted + rows;
                    Emission::All
                }
            },
            None => Emission::All,
        }
    }
}

/// Rows that are sent of batches that come one after the other.
pub open spec fn sent(batches: Seq<nat>, limit: Option<usize>) -> nat
    decreases batches.len(),
{
    if batches.len() == 0 {
        0
    } else {
        let before = sent(batches.drop_last(), limit);
        match limit {
            Some(n) => if before + batches.last() > n {
                n as nat
            } else {
                before + batches.last()
            },
            None => before + batches.last(),
        }
    }
}

/// Rows of all batches.
pub open spec fn rows_in(batches: Seq<nat>) -> nat
    decreases batches.len(),
{
    if batches.len() == 0 {
        0
    } else {
        rows_in(batches.drop_last()) + batches.last()
    }
}

/// All rows are sent, up to the limit.
pub proof fn law_sent_up_to_limit(batches: Seq<nat>, limit: Option<usize>)
    ensures
        sent(batches, limit) == match limit {
            Some(n) if n < rows_in(batches) => n as nat,
            _ => rows_in(batches),
        },
    decreases batches.len(),
{
    if batches.len() > 0 {
        law_sent_up_to_limit(batches.drop_last(), limit);
    }
}

/// A column with that name is among those that a scan yields.
pub open spec fn yields(columns: Seq<NamedType>, name: Seq<char>) -> bool {
    exists|i: int| 0 <= i < columns.len() && (#[trigger] columns[i]).name@ == name
}

fn has_column(columns: &[NamedType], name: &str) -> (yes: bool)
    ensures
        yes == yields(columns@, name@),
{
    let mut k: usize = 0;
    while k < columns.len()
        invariant
            k <= columns@.len(),
            forall|i: int| 0 <= i < k ==> (#[trigger] columns@[i]).name@ != name@,
        decreases columns.len() - k,
    {
        if text::same(columns[k].name.as_str(), name) {
            return true;
        }
        k += 1;
    }
    false
}

/// Whether rows come sorted by symbol and time: only where no symbols were picked and both
/// columns are there.
pub fn sorted_by_sym_time(all_symbols: bool, columns: &[NamedType]) -> (yes: bool)
    ensures
        yes == (all_symbols && yields(columns@, "sym"@) && yields(columns@, "time"@)),
{
    all_symbols && has_column(columns, "sym") && has_column(columns, "time")
}

/// Rows of a batch: times, symbols by number, and the names of the fields that were read.
#[derive(Debug)]
pub struct ScanBatch {
    pub row_count: usize,
    pub time_values: Vec<i64>,
    pub sym_indices: Vec<usize>,
    pub field_names: Vec<String>,
}

/// A column that a scan yields.
#[derive(Debug)]
pub enum OutputColumn {
    Dates(Vec<i32>),
    Timestamps(Vec<i64>),
    Symbols(Vec<String>),
    /// The field with that number among those that were read.
    Field(usize),
    /// Nothing but missing values.
    Missing(usize),
}

/// The field is the first that was read under that name.
pub open spec fn first_text(list: Seq<String>, name: Seq<char>, i: int) -> bool {
    &&& 0 <= i < list.len()
    &&& list[i]@ == name
    &&& forall|j: int| 0 <= j < i ==> (#[trigger] list[j])@ != name
}

/// The column that stands for column `index` of the table.
pub open spec fn output_for(
    out: OutputColumn,
    index: usize,
    name: Seq<char>,
    batch: ScanBatch,
    symbols: Seq<String>,
    tt: TimeType,
) -> bool {
    match index {
        0 => match tt {
            TimeType::Date32 => out matches OutputColumn::Dates(v) && v@ == Seq::new(
                batch.time_values@.len(),
                |i: int| batch.time_values@[i] as i32,
            ),
            TimeType::TimestampUs => out matches OutputColumn::Timestamps(v) && v@
                == batch.time_values@,
        },
        1 => out matches OutputColumn::Symbols(v) && text::texts(v@) == Seq::new(
            batch.sym_indices@.len(),
            |i: int| symbols[batch.sym_indices@[i] as int]@,
        ),
        _ => match out {
            OutputColumn::Field(k) => first_text(batch.field_names@, name, k as int),
            OutputColumn::Missing(n) => n == batch.row_count && !text::texts(
                batch.field_names@,
            ).contains(name),
            _ => false,
        },
    }
}

fn time_column(batch: &ScanBatch, tt: TimeType) -> (out: OutputColumn)
    requires
        tt is Date32 ==> forall|i: int|
            0 <= i < batch.time_values@.len() ==> i32::MIN <= #[trigger] batch.time_values@[i]
                <= i32::MAX,
    ensures
        output_for(out, 0, Seq::empty(), *batch, Seq::empty(), tt),
{
    let times = &batch.time_values;
    match tt {
        TimeType::Date32 => {
            let mut out: Vec<i32> = Vec::new();
            let mut k: usize = 0;
            while k < times.len()
                invariant
                    k <= times@.len(),
                    *times == batch.time_values,
                    forall|i: int|
                        0 <= i < batch.time_values@.len() ==> i32::MIN
                            <= #[trigger] batch.time_values@[i] <= i32::MAX,
                    out@.len() == k,
                    forall|i: int| 0 <= i < k ==> out@[i] == times@[i] as i32,
                decreases times.len() - k,
            {
                out.push(times[k] as i32);
                k += 1;
            }
            assert(out@ =~= Seq::new(
                batch.time_values@.len(),
                |i: int| batch.time_values@[i] as i32,
            ));
            OutputColumn::Dates(out)
        },
        TimeType::TimestampUs => {
            let mut out: Vec<i64> = Vec::new();
            out.extend_from_slice(times.as_slice());
            assert(out@ =~= batch.time_values@);
            OutputColumn::Timestamps(out)
        },
    }
}

fn symbol_column(batch: &ScanBatch, symbols: &[String]) -> (out: OutputColumn)
    requires
        forall|i: int|
            0 <= i < batch.sym_indices@.len() ==> (#[trigger] batch.sym_indices@[i])
                < symbols@.len(),
    ensures
        out matches OutputColumn::Symbols(v) && text::texts(v@) == Seq::new(
            batch.sym_indices@.len(),
            |i: int| symbols@[batch.sym_indices@[i] as int]@,
        ),
{
    let mut out: Vec<String> = Vec::new();
    let mut k: usize = 0;
    while k < batch.sym_indices.len()
        invariant
            k <= batch.sym_indices@.len(),
            forall|i: int|
                0 <= i < batch.sym_indices@.len() ==> (#[trigger] batch.sym_indices@[i])
                    < symbols@.len(),
            out@.len() == k,
            forall|i: int|
                0 <= i < k ==> (#[trigger] out@[i])@ == symbols@[batch.sym_indices@[i] as int]@,
        decreases batch.sym_indices.len() - k,
    {
        assert(batch.sym_indices@[k as int] < symbols@.len());
        out.push(symbols[batch.sym_indices[k]].clone());
        k += 1;
    }
    assert(text::texts(out@) =~= Seq::new(
        batch.sym_indices@.len(),
        |i: int| symbols@[batch.sym_indices@[i] as int]@,
    ));
    OutputColumn::Symbols(out)
}

fn field_column(batch: &ScanBatch, name: &str) -> (out: OutputColumn)
    ensures
        match out {
            OutputColumn::Field(k) => first_text(batch.field_names@, name@, k as int),
            OutputColumn::Missing(n) => n == batch.row_count && !text::texts(
                batch.field_names@,
            ).contains(name@),
            _ => false,
        },
{
    let mut k: usize = 0;
    while k < batch.field_names.len()
        invariant
            k <= batch.field_names@.len(),
            forall|j: int| 0 <= j < k ==> (#[trigger] batch.field_names@[j])@ != name@,
        decreases batch.field_names.len() - k,
    {
        if text::same(batch.field_names[k].as_str(), name) {
            return OutputColumn::Field(k);
        }
        k += 1;
    }
    proof {
        if text::texts(batch.field_names@).contains(name@) {
            let i = text::texts(batch.field_names@).index_of(name@);
            assert(batch.field_names@[i]@ == name@);
        }
    }
    OutputColumn::Missing(batch.row_count)
}

/// Lays out a batch as the columns that a query asked for.  A field that was not read is
/// missing in every row.
pub fn lay_out_batch(
    batch: &ScanBatch,
    indices: &[usize],
    names: &[String],
    symbols: &[String],
    tt: TimeType,
) -> (out: Vec<OutputColumn>)
    requires
        indices@.len() == names@.len(),
        forall|i: int|
            0 <= i < batch.sym_indices@.len() ==> (#[trigger] batch.sym_indices@[i])
                < symbols@.len(),
        tt is Date32 ==> forall|i: int|
            0 <= i < batch.time_values@.len() ==> i32::MIN <= #[trigger] batch.time_values@[i]
                <= i32::MAX,
    ensures
        out@.len() == indices@.len(),
        forall|i: int|
            0 <= i < indices@.len() ==> output_for(
                #[trigger] out@[i],
                indices@[i],
                names@[i]@,
                *batch,
                symbols@,
                tt,
            ),
{
    let mut out: Vec<OutputColumn> = Vec::new();
    let mut k: usize = 0;
    while k < indices.len()
        invariant
            k <= indices@.len(),
            indices@.len() == names@.len(),
            forall|i: int|
                0 <= i < batch.sym_indices@.len() ==> (#[trigger] batch.sym_indices@[i])
                    < symbols@.len(),
            tt is Date32 ==> forall|i: int|
                0 <= i < batch.time_values@.len() ==> i32::MIN <= #[trigger] batch.time_values@[i]
                    <= i32::MAX,
            out@.len() == k,
            forall|i: int|
                0 <= i < k ==> output_for(
                    #[trigger] out@[i],
                    indices@[i],
                    names@[i]@,
                    *batch,
                    symbols@,
                    tt,
                ),
        decreases indices.len() - k,
    {
        let column = if indices[k] == 0 {
            time_column(batch, tt)
        } else if indices[k] == 1 {
            symbol_column(batch, symbols)
        } else {
            field_column(batch, names[k].as_str())
        };
        out.push(column);
        k += 1;
    }
    out
}

/// What a dataset is asked for.
#[derive(Debug)]
pub struct ScanRequest {
    /// The fields to read.
    pub columns: Vec<String>,
    pub symbols: SymbolSelection,
    pub time_range: TimeRange,
    pub filters: Vec<Filter>,
    pub batch_size: usize,
    pub limit: Option<usize>,
}

/// The request that a plan makes for fields: those fields and those that filters test, the
/// symbols that were picked beforehand or those of the plan, and its times.
pub open spec fn requests(
    request: ScanRequest,
    plan: PushdownPlan,
    names: Seq<Seq<char>>,
    picked: Option<SymbolSelection>,
    limit: Option<usize>,
) -> bool {
    &&& text::texts(request.columns@) == with_tested(names, plan.value_filters@)
    &&& request.symbols == match picked {
        Some(symbols) => symbols,
        None => match plan.symbols {
            Some(symbols) => symbols,
            None => SymbolSelection::All,
        },
    }
    &&& request.time_range == match plan.time_range {
        Some(r) => r,
        None => TimeRange { start: i64::MIN, end: i64::MAX },
    }
    &&& request.filters == plan.value_filters
    &&& request.batch_size == rows_at_once(limit)
    &&& request.limit == limit
}

/// Plans the scan of a dataset: the columns that the query yields, by number, and what the
/// dataset is asked for.
pub fn plan_scan(
    columns: &[NamedType],
    fields: &[FilterField],
    known_symbols: &[String],
    projection: Option<&Vec<usize>>,
    filters: &[Expr],
    limit: Option<usize>,
    picked: Option<SymbolSelection>,
) -> (out: (Vec<usize>, ScanRequest))
    requires
        projection matches Some(list) ==> forall|i: int|
            0 <= i < list@.len() ==> (#[trigger] list@[i]) < columns@.len(),
    ensures
        match projection {
            Some(list) => out.0@ == list@,
            None => as_ints(out.0@) == Seq::new(columns@.len(), |i: int| i),
        },
        exists|plan: PushdownPlan| #[trigger]
            filter::plans(plan, filters@, fields@, known_symbols@) && requests(
                out.1,
                plan,
                field_names_of(out.0@, columns@),
                picked,
                limit,
            ),
{
    let indices = projected_indices(projection, columns.len());
    proof {
        if projection is None {
            let all = as_ints(indices@);
            assert(all.len() == indices@.len());
            assert(all =~= Seq::new(columns@.len(), |i: int| i));
            assert forall|i: int| 0 <= i < indices@.len() implies (#[trigger] indices@[i])
                < columns@.len() by {
                assert(all[i] == i);
            }
        }
    }
    let names = projected_fields(indices.as_slice(), columns);
    let plan = filter::parse_filters(filters, fields, known_symbols);
    let ghost plan0 = plan;
    let read = scan_columns(names, plan.value_filters.as_slice());
    let symbols = match picked {
        Some(symbols) => symbols,
        None => match plan.symbols {
            Some(symbols) => symbols,
            None => SymbolSelection::All,
        },
    };
    let time_range = match plan.time_range {
        Some(r) => r,
        None => TimeRange::new(i64::MIN, i64::MAX),
    };
    let request = ScanRequest {
        columns: read,
        symbols,
        time_range,
        filters: plan.value_filters,
        batch_size: batch_size(limit),
        limit,
    };
    proof {
        assert(requests(request, plan0, field_names_of(indices@, columns@), picked, limit));
    }
    (indices, request)
}

/// A scan reads every field that the query yields and every field that a filter tests.
pub proof fn law_needed_fields_read(
    request: ScanRequest,
    plan: PushdownPlan,
    names: Seq<Seq<char>>,
    picked: Option<SymbolSelection>,
    limit: Option<usize>,
)
    requires
        requests(request, plan, names, picked, limit),
    ensures
        forall|i: int| 0 <= i < names.len() ==> text::texts(request.columns@).contains(
            #[trigger] names[i],
        ),
        forall|k: int|
            0 <= k < request.filters@.len() ==> text::texts(request.columns@).contains(
                (#[trigger] request.filters@[k]).test().0,
            ),
{
    lemma_with_tested(names, plan.value_filters@);
}

proof fn lemma_with_tested(names: Seq<Seq<char>>, filters: Seq<Filter>)
    ensures
        forall|i: int| 0 <= i < names.len() ==> with_tested(names, filters).contains(
            #[trigger] names[i],
        ),
        forall|k: int|
            0 <= k < filters.len() ==> with_tested(names, filters).contains(
                (#[trigger] filters[k]).test().0,
            ),
    decreases filters.len(),
{
    if filters.len() > 0 {
        let fewer = filters.drop_last();
        lemma_with_tested(names, fewer);
        let front = with_tested(names, fewer);
        let all = with_tested(names, filters);
        assert forall|x: Seq<char>| front.contains(x) implies #[trigger] all.contains(x) by {
            let i = front.index_of(x);
            assert(all[i] == x);
        }
        let field = filters.last().test().0;
        if !front.contains(field) {
            assert(all[front.len() as int] == field);
        }
        assert forall|k: int| 0 <= k < filters.len() implies all.contains(
            (#[trigger] filters[k]).test().0,
        ) by {
            if k < fewer.len() {
                assert(fewer[k] == filters[k]);
            }
        }
        assert forall|i: int| 0 <= i < names.len() implies all.contains(#[trigger] names[i]) by {
            assert(front.contains(names[i]));
        }
    }
}

/// Makes tables of directories that a statement names.
#[derive(Debug)]
pub struct SplayedTableFactory;

impl Default for SplayedTableFactory {
    fn default() -> Self {
        SplayedTableFactory
    }
}

impl SplayedTableFactory {
    /// The directory of a table that a statement creates; why there is none, if so.
    pub fn location(&self, file_type: &str, locations: &[String]) -> (r: Result<String, String>)
        ensures
            if !text::same_but_case(file_type@, "SPLAYED"@) {
                r matches Err(m) && m@ == "SplayedTableFactory: expected STORED AS SPLAYED, got "@
                    + file_type@
            } else if locations@.len() == 0 {
                r matches Err(m) && m@ == "SplayedTableFactory: missing LOCATION"@
            } else {
                r matches Ok(path) && path@ == locations@[0]@
            },
    {
        if !text::equal_but_case(file_type, "SPLAYED") {
            let mut message = String::new();
            message.append("SplayedTableFactory: expected STORED AS SPLAYED, got ");
            message.append(file_type);
            return Err(message);
        }
        if locations.len() == 0 {
            return Err("SplayedTableFactory: missing LOCATION".to_owned());
        }
        Ok(locations[0].clone())
    }
}

/// The text of a constant argument.
pub open spec fn text_argument(expr: Expr) -> Option<Seq<char>> {
    match expr {
        Expr::Literal(Literal::Utf8(Some(s))) => Some(s@),
        _ => None,
    }
}

fn argument(expr: &Expr) -> (r: Option<String>)
    ensures
        match text_argument(*expr) {
            Some(t) => r matches Some(s) && s@ == t,
            None => r is None,
        },
{
    match expr {
        Expr::Literal(Literal::Utf8(Some(s))) => Some(s.clone()),
        _ => None,
    }
}

/// The table function for a directory.
#[derive(Debug)]
pub struct SplayedTableFunction;

impl Default for SplayedTableFunction {
    fn default() -> Self {
        SplayedTableFunction
    }
}

impl SplayedTableFunction {
    /// The directory that the function is called with.
    pub fn path(&self, args: &[Expr]) -> (r: Result<String, String>)
        ensures
            if args@.len() > 0 && text_argument(args@[0]) is Some {
                r matches Ok(path) && Some(path@) == text_argument(args@[0])
            } else {
                r matches Err(m) && m@
                    == "read_splayed requires a single string argument: read_splayed('/path/to/dir')"@
            },
    {
        if args.len() > 0 {
            if let Some(path) = argument(&args[0]) {
                return Ok(path);
            }
        }
        Err(
            "read_splayed requires a single string argument: read_splayed('/path/to/dir')".to_owned(),
        )
    }
}

/// The table function for a subset of a dataset.
#[derive(Debug)]
pub struct SplayedSubsetFunction;

impl Default for SplayedSubsetFunction {
    fn default() -> Self {
        SplayedSubsetFunction
    }
}

impl SplayedSubsetFunction {
    /// The directory and the subset that the function is called with.
    pub fn path_and_subset(&self, args: &[Expr]) -> (r: Result<(String, String), String>)
        ensures
            if args@.len() != 2 {
                r matches Err(m) && m@
                    == "read_splayed_subset requires two string arguments: read_splayed_subset('/dir', 'hs300')"@
            } else {
                match (text_argument(args@[0]), text_argument(args@[1])) {
                    (Some(path), Some(sub)) => r matches Ok((p, s)) && p@ == path && s@ == sub,
                    _ => r matches Err(m) && m@
                        == "read_splayed_subset args must be string literals"@,
                }
            },
    {
        if args.len() != 2 {
            return Err(
                "read_splayed_subset requires two string arguments: read_splayed_subset('/dir', 'hs300')".to_owned(),
            );
        }
        match (argument(&args[0]), argument(&args[1])) {
            (Some(path), Some(sub)) => Ok((path, sub)),
            _ => Err("read_splayed_subset args must be string literals".to_owned()),
        }
    }
}

/// The fields among columns are those behind time and symbol, in the order in which the
/// columns are asked for.
pub proof fn law_fields_behind_keys(
    a: Seq<usize>,
    b: Seq<usize>,
    i: usize,
    columns: Seq<NamedType>,
)
    ensures
        field_names_of(a + b, columns) == field_names_of(a, columns) + field_names_of(b, columns),
        i == 0 || i == 1 ==> field_names_of(seq![i], columns).len() == 0,
        2 <= i < columns.len() ==> field_names_of(seq![i], columns) == seq![columns[i as int].name@],
    decreases b.len(),
{
    reveal_with_fuel(field_names_of, 2);
    assert(seq![i].drop_last() =~= Seq::<usize>::empty());
    assert(Seq::<Seq<char>>::empty().push(columns[i as int].name@) =~= seq![
        columns[i as int].name@,
    ]);
    if b.len() == 0 {
        assert(a + b =~= a);
        assert(field_names_of(a, columns) + field_names_of(b, columns) =~= field_names_of(
            a,
            columns,
        ));
    } else {
        law_fields_behind_keys(a, b.drop_last(), i, columns);
        assert((a + b).drop_last() =~= a + b.drop_last());
        assert(field_names_of(a + b, columns) =~= field_names_of(a, columns) + field_names_of(
            b,
            columns,
        ));
    }
}

/// Tested fields are added behind the names that are read anyway, each of them once, and
/// nothing else is.
pub proof fn law_tested_added_once(names: Seq<Seq<char>>, filters: Seq<Filter>, i: int, j: int)
    ensures
        names.is_prefix_of(with_tested(names, filters)),
        names.len() <= i < with_tested(names, filters).len() ==> exists|k: int|
            0 <= k < filters.len() && (#[trigger] filters[k]).test().0 == with_tested(
                names,
                filters,
            )[i],
        0 <= j < i && names.len() <= i < with_tested(names, filters).len() ==> with_tested(
            names,
            filters,
        )[j] != with_tested(names, filters)[i],
    decreases filters.len(),
{
    if filters.len() > 0 {
        let front = filters.drop_last();
        law_tested_added_once(names, front, i, j);
        let (all, before) = (with_tested(names, filters), with_tested(names, front));
        if names.len() <= i < before.len() {
            let k = choose|k: int|
                0 <= k < front.len() && (#[trigger] front[k]).test().0 == before[i];
            assert(filters[k] == front[k]);
        } else if names.len() <= i < all.len() {
            assert(filters[filters.len() - 1].test().0 == all[i]);
            if 0 <= j < i {
                assert(before[j] == all[j]);
            }
        }
    }
}

/// A batch holds as many rows as are asked for, but no more than 65,536.
pub proof fn law_rows_at_once(limit: Option<usize>)
    ensures
        rows_at_once(limit) <= 65_536,
        limit matches Some(n) ==> rows_at_once(limit) <= n,
        rows_at_once(limit) == 65_536 || limit == Some(rows_at_once(limit)),
{
}

/// A scan is asked for what its conditions come to: their times, or all; the symbols of one
/// part, or theirs, or all; their tests; and the limit.
pub proof fn law_scan_asked_for(
    request: ScanRequest,
    plan: PushdownPlan,
    names: Seq<Seq<char>>,
    picked: Option<SymbolSelection>,
    limit: Option<usize>,
    t: i64,
)
    requires
        requests(request, plan, names, picked, limit),
        t < i64::MAX,
    ensures
        request.limit == limit,
        request.time_range.start <= t < request.time_range.end <==> (plan.time_range matches Some(r)
            ==> r.start <= t < r.end),
        picked matches Some(symbols) ==> request.symbols == symbols,
        picked is None && plan.symbols is None ==> request.symbols is All,
        picked is None ==> (plan.symbols matches Some(symbols) ==> request.symbols == symbols),
        filter::tests_in(request.filters@) == filter::tests_in(plan.value_filters@),
{
}

/// A column that a scan yields has a value for every row: the time, as a date or in
/// microseconds, and the symbol that stands at the row's number; and every other column is
/// that of the first field of its name, or missing where no field has it.
pub proof fn law_output_by_row(
    out: OutputColumn,
    index: usize,
    name: Seq<char>,
    batch: ScanBatch,
    symbols: Seq<String>,
    tt: TimeType,
    i: int,
)
    requires
        output_for(out, index, name, batch, symbols, tt),
    ensures
        index == 0 && tt is Date32 ==> (out matches OutputColumn::Dates(v) && v@.len()
            == batch.time_values@.len() && (0 <= i < v@.len() && i32::MIN <= batch.time_values@[i]
            <= i32::MAX ==> v@[i] == batch.time_values@[i])),
        index == 0 && tt is TimestampUs ==> (out matches OutputColumn::Timestamps(v) && v@.len()
            == batch.time_values@.len() && (0 <= i < v@.len() ==> v@[i] == batch.time_values@[i])),
        index == 1 ==> (out matches OutputColumn::Symbols(v) && v@.len() == batch.sym_indices@.len()
            && (0 <= i < v@.len() ==> v@[i]@ == symbols[batch.sym_indices@[i] as int]@)),
        index >= 2 && 0 <= i < batch.field_names@.len() && batch.field_names@[i]@ == name && (forall|
            j: int,
        |
            0 <= j < i ==> (#[trigger] batch.field_names@[j])@ != name) ==> (out
            matches OutputColumn::Field(k) && k == i),
        index >= 2 && (forall|j: int|
            0 <= j < batch.field_names@.len() ==> (#[trigger] batch.field_names@[j])@ != name) ==> (
        out matches OutputColumn::Missing(n) && n == batch.row_count),
{
    let texts = text::texts(batch.field_names@);
    if index == 1 {
        if let OutputColumn::Symbols(v) = out {
            assert(text::texts(v@).len() == v@.len());
            if 0 <= i < v@.len() {
                assert(text::texts(v@)[i] == v@[i]@);
            }
        }
    }
    if index >= 2 {
        if let OutputColumn::Field(k) = out {
            assert(batch.field_names@[k as int]@ == name);
        }
        if 0 <= i < batch.field_names@.len() && batch.field_names@[i]@ == name {
            assert(texts[i] == name);
            if let OutputColumn::Field(k) = out {
                if k < i {
                    assert(batch.field_names@[k as int]@ == name);
                }
                if i < k {
                    assert(batch.field_names@[i]@ == name);
                }
            }
        }
    }
}

/// Rows are counted as they are sent: a batch that is sent whole fits what is left of the
/// limit, one that is cut is cut to just what is left, and without a limit none is cut.
pub proof fn law_batch_cut_at_limit(
    before: RowCounter,
    rows: nat,
    what: Emission,
    after: RowCounter,
)
    requires
        before.wf(),
        before.takes(rows, what, after),
    ensures
        after.wf(),
        after.limit == before.limit,
        before.limit is None ==> what is All,
        before.limit matches Some(n) ==> match what {
            Emission::All => before.emitted + rows == after.emitted && after.emitted <= n,
            Emission::Last(k) => k < rows && before.emitted + k == n && after.emitted == n,
        },
{
}

/// After batches one after the other, as many rows were sent as they have, up to the limit.
pub proof fn law_counter_counts(counters: Seq<RowCounter>, batches: Seq<nat>, whats: Seq<Emission>)
    requires
        counters.len() == batches.len() + 1,
        whats.len() == batches.len(),
        counters[0].emitted == 0,
        counters[0].limit is Some,
        forall|i: int|
            0 <= i < batches.len() ==> counters[i].takes(
                #[trigger] batches[i],
                whats[i],
                counters[i + 1],
            ),
    ensures
        counters.last().emitted == sent(batches, counters[0].limit),
        counters.last().limit == counters[0].limit,
    decreases batches.len(),
{
    if batches.len() > 0 {
        let n = batches.len() - 1;
        assert(counters[n].takes(batches[n], whats[n], counters[n + 1]));
        let (c, b, w) = (counters.drop_last(), batches.drop_last(), whats.drop_last());
        assert forall|i: int| 0 <= i < b.len() implies c[i].takes(
            #[trigger] b[i],
            w[i],
            c[i + 1],
        ) by {
            assert(counters[i].takes(batches[i], whats[i], counters[i + 1]));
        }
        law_counter_counts(c, b, w);
        assert(c.last() == counters[n]);
    }
}

/// An argument is a text where it is a constant one that is there.
pub proof fn law_text_arguments(expr: Expr, s: String)
    ensures
        expr == Expr::Literal(Literal::Utf8(Some(s))) ==> text_argument(expr) == Some(s@),
        expr !is Literal ==> text_argument(expr) is None,
        expr matches Expr::Literal(v) ==> (v !is Utf8 || v == Literal::Utf8(None) ==> text_argument(
            expr,
        ) is None),
{
}

} // verus!

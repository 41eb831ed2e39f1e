//! Writing rows to a table: where in which partition each row goes.

use vstd::prelude::*;
use vstd::slice::slice_subrange;
use vstd::string::*;
use vstd::utf8;
use crate::bitmap::Bitmap;
use crate::buffer;
use crate::buffer::Buffer;
use crate::column;
use crate::column::{Column, ColumnView};
use crate::dataview;
use crate::dataview::DataView;
use crate::error::FormatError;
use crate::gather;
use crate::gather::RowSpan;
use crate::partition;
use crate::partition::PartitionScheme;
use crate::query::RowRange;
use crate::schema;
use crate::schema::{FieldSchema, Schema};
use crate::spans;
use crate::spans::Cutter;
use crate::table;
use crate::table::TableError;
use crate::text;
use crate::text::Relation;
use crate::types::{DataType, TimeType};

verus! {

/// What is said of rows without a symbol or a time.
pub open spec fn no_keys_message(operation: Seq<char>) -> Seq<char> {
    operation + " requires sym and time columns"@
}

/// Checks the columns of rows that are to be written, and says whether there are any rows.
pub fn check_input(data: &DataView<'_>, operation: &str) -> (r: Result<bool, TableError>)
    ensures
        if !schema::has_name(data.schema.fields@, "sym"@) || !schema::has_name(
            data.schema.fields@,
            "time"@,
        ) {
            r matches Err(e) && e.says(no_keys_message(operation@))
        } else {
            r matches Ok(some) && some == (data.spec_length() > 0)
        },
{
    if data.schema.position("sym").is_none() || data.schema.position("time").is_none() {
        let mut message = operation.to_owned();
        message.append(" requires sym and time columns");
        return Err(TableError::Invalid(message));
    }
    Ok(data.length() > 0)
}

/// The symbol in row `i`; none where the row holds no text.
pub open spec fn sym_at(view: ColumnView<'_>, i: int) -> Option<Seq<char>> {
    match view.text_bytes(i) {
        Some(bytes) => if utf8::valid_utf8(bytes) {
            Some(utf8::decode_utf8(bytes))
        } else {
            None
        },
        None => None,
    }
}

/// The symbol and the time of row `i` can be read.
pub open spec fn row_readable(sym: ColumnView<'_>, time: ColumnView<'_>, i: int) -> bool {
    &&& column::row_in(sym.spec_segments(), i) matches Some((segment, j))
        ==> segment.spec_values().text_in_order(j)
    &&& table::time_readable(time, i)
}

/// What is said of a row without a time; nothing where it has one.
pub open spec fn time_complaint(time: ColumnView<'_>, i: int) -> Option<Seq<char>> {
    match column::row_in(time.spec_segments(), i) {
        Some((segment, j)) => if segment.spec_values() !is Fixed {
            Some("time column must be fixed-width"@)
        } else if table::time_type_of(time.spec_type()) is None {
            Some("unsupported time column type "@ + time.spec_type().variant_name())
        } else {
            None
        },
        None => Some("time row out of range"@),
    }
}

/// Row `i` comes after row `i - 1`: by symbol, then by time.
pub open spec fn follows(sym: ColumnView<'_>, time: ColumnView<'_>, i: int) -> bool {
    let (a, b) = (sym_at(sym, i - 1)->0, sym_at(sym, i)->0);
    text::text_before(a, b) || (a == b && table::time_at(time, i - 1) < table::time_at(time, i))
}

/// What is said of a row that cannot be written; nothing where it can.
pub open spec fn row_complaint(sym: ColumnView<'_>, time: ColumnView<'_>, i: int) -> Option<
    Seq<char>,
> {
    if sym_at(sym, i) is None {
        Some("sym value at row "@ + text::dec(i as nat) + " is NULL"@)
    } else if time_complaint(time, i) is Some {
        time_complaint(time, i)
    } else if i > 0 && !follows(sym, time, i) {
        Some("input must be strictly sorted and unique by (sym ASC, time ASC)"@)
    } else {
        None
    }
}

/// The times in the first rows of a view.
pub open spec fn view_times(time: ColumnView<'_>, rows: nat) -> Seq<int> {
    Seq::new(rows, |i: int| table::time_at(time, i))
}

/// The columns named `sym` and `time`.
pub open spec fn keyed_by(data: DataView<'_>, s: int, t: int) -> bool {
    schema::first_named(data.schema.fields@, "sym"@, s) && schema::first_named(
        data.schema.fields@,
        "time"@,
        t,
    )
}

/// Rows can be read and their times have dates that can be counted.
pub open spec fn rows_usable(sym: ColumnView<'_>, time: ColumnView<'_>, rows: nat, tt: TimeType) -> bool {
    forall|i: int|
        0 <= i < rows ==> #[trigger] row_readable(sym, time, i) && (table::has_time(time, i)
            ==> partition::day_of(table::time_at(time, i), tt) + 719_468 <= i64::MAX)
}

/// Reads the symbol and the time of a row.
fn read_key<'a>(sym: &ColumnView<'a>, time: &ColumnView<'a>, i: usize) -> (r: Result<
    (&'a str, i64),
    TableError,
>)
    requires
        row_readable(*sym, *time, i as int),
    ensures
        match r {
            Ok((s, t)) => {
                &&& sym_at(*sym, i as int) == Some(s@)
                &&& time_complaint(*time, i as int) is None
                &&& t == table::time_at(*time, i as int)
                &&& table::has_time(*time, i as int)
            },
            Err(e) => if sym_at(*sym, i as int) is None {
                e.says("sym value at row "@ + text::dec(i as nat) + " is NULL"@)
            } else {
                time_complaint(*time, i as int) matches Some(m) && e.says(m)
            },
        },
{
    let s = match sym.string_at(i) {
        Some(s) => s,
        None => {
            let mut message = String::new();
            message.append("sym value at row ");
            text::push_dec(&mut message, i as u64);
            message.append(" is NULL");
            return Err(TableError::Invalid(message));
        },
    };
    match table::time_value_at(time, i) {
        Ok(t) => Ok((s, t)),
        Err(e) => Err(e),
    }
}

/// Checks that rows are in order and spreads them over partitions.
pub fn scan_partition_runs(data: &DataView<'_>, scheme: PartitionScheme, tt: TimeType) -> (r: Result<
    Vec<(String, Vec<RowSpan>)>,
    TableError,
>)
    requires
        data.wf(),
        schema::has_name(data.schema.fields@, "sym"@),
        schema::has_name(data.schema.fields@, "time"@),
        forall|s: int, t: int| #[trigger]
            keyed_by(*data, s, t) ==> rows_usable(
                data.columns@[s],
                data.columns@[t],
                data.spec_length(),
                tt,
            ),
    ensures
        forall|s: int, t: int| #[trigger]
            keyed_by(*data, s, t) ==> runs_scanned(r, *data, s, t, scheme, tt),
{
    let (s, t): (usize, usize) = match (data.schema.position("sym"), data.schema.position("time")) {
        (Some(s), Some(t)) => (s, t),
        _ => {
            return Ok(Vec::new());
        },
    };
    proof {
        assert(keyed_by(*data, s as int, t as int));
        assert forall|s1: int, t1: int| #[trigger] keyed_by(*data, s1, t1) implies s1 == s && t1
            == t by {
            gather::lemma_first_named_unique(data.schema.fields@, "sym"@, s1, s as int);
            gather::lemma_first_named_unique(data.schema.fields@, "time"@, t1, t as int);
        }
    }
    let sym = &data.columns[s];
    let time = &data.columns[t];
    let rows: usize = data.length();
    scan_runs(sym, time, rows, scheme, tt)
}

/// What the scan of rows yields: the first complaint, or the rows spread over partitions.
pub open spec fn runs_scanned(
    r: Result<Vec<(String, Vec<RowSpan>)>, TableError>,
    data: DataView<'_>,
    s: int,
    t: int,
    scheme: PartitionScheme,
    tt: TimeType,
) -> bool {
    scanned(r, data.columns@[s], data.columns@[t], data.spec_length(), scheme, tt)
}

/// Row `i` is the first with a complaint.
pub open spec fn first_complaint(sym: ColumnView<'_>, time: ColumnView<'_>, i: int) -> bool {
    &&& row_complaint(sym, time, i) is Some
    &&& forall|j: int| 0 <= j < i ==> #[trigger] row_complaint(sym, time, j) is None
}

pub open spec fn scanned(
    r: Result<Vec<(String, Vec<RowSpan>)>, TableError>,
    sym: ColumnView<'_>,
    time: ColumnView<'_>,
    rows: nat,
    scheme: PartitionScheme,
    tt: TimeType,
) -> bool {
    match r {
        Ok(buckets) => {
            let times = view_times(time, rows);
            &&& forall|i: int| 0 <= i < rows ==> #[trigger] row_complaint(sym, time, i) is None
            &&& spans::filed(
                buckets@,
                spans::spans_of(spans::keys_of_times(scheme, times, tt)),
                spans::names_of_times(scheme, times, tt),
            )
        },
        Err(e) => exists|i: int|
            {
                &&& 0 <= i < rows
                &&& #[trigger] first_complaint(sym, time, i)
                &&& e.says(row_complaint(sym, time, i)->0)
            },
    }
}

/// Rows that are accepted for writing are strictly sorted by symbol and time: of any two,
/// the earlier row has the lesser symbol, or the same symbol and the lesser time.  So no
/// two have the same key.
pub proof fn law_scanned_rows_sorted(
    r: Result<Vec<(String, Vec<RowSpan>)>, TableError>,
    sym: ColumnView<'_>,
    time: ColumnView<'_>,
    rows: nat,
    scheme: PartitionScheme,
    tt: TimeType,
    i: int,
    j: int,
)
    requires
        scanned(r, sym, time, rows, scheme, tt),
        r is Ok,
        0 <= i < j < rows,
    ensures
        ({
            let (a, b) = (sym_at(sym, i), sym_at(sym, j));
            let (s, t) = (table::time_at(time, i), table::time_at(time, j));
            &&& a is Some && b is Some
            &&& text::text_before(a->0, b->0) || (a->0 == b->0 && s < t)
            &&& !text::text_before(b->0, a->0)
            &&& !(a->0 == b->0 && s >= t)
        }),
    decreases j - i,
{
    assert(row_complaint(sym, time, i) is None);
    assert(row_complaint(sym, time, j) is None);
    let (a, c) = (sym_at(sym, i)->0, sym_at(sym, j)->0);
    if i < j - 1 {
        law_scanned_rows_sorted(r, sym, time, rows, scheme, tt, i, j - 1);
        let b = sym_at(sym, j - 1)->0;
        if text::text_before(a, b) && text::text_before(b, c) {
            text::lemma_text_before_transitive(a, b, c);
        }
    }
    text::lemma_text_before_order(a, c);
}

/// Rows that are refused are refused for a reason: the first of them without a symbol or a
/// time, or that does not come strictly after the row before it, whose keys are readable.
pub proof fn law_refused_rows_unsorted(
    r: Result<Vec<(String, Vec<RowSpan>)>, TableError>,
    sym: ColumnView<'_>,
    time: ColumnView<'_>,
    rows: nat,
    scheme: PartitionScheme,
    tt: TimeType,
)
    requires
        scanned(r, sym, time, rows, scheme, tt),
        forall|i: int|
            0 <= i < rows ==> sym_at(sym, i) is Some && #[trigger] table::has_time(time, i),
        forall|i: int, j: int|
            #![trigger table::time_at(time, i), table::time_at(time, j)]
            0 <= i < j < rows ==> text::text_before(sym_at(sym, i)->0, sym_at(sym, j)->0) || (
            sym_at(sym, i)->0 == sym_at(sym, j)->0 && table::time_at(time, i) < table::time_at(
                time,
                j,
            )),
    ensures
        r is Ok,
{
    if r is Err {
        let i = choose|i: int|
            {
                &&& 0 <= i < rows
                &&& #[trigger] first_complaint(sym, time, i)
                &&& r->Err_0.says(row_complaint(sym, time, i)->0)
            };
        assert(table::has_time(time, i));
        if i > 0 {
            let (s, t) = (table::time_at(time, i - 1), table::time_at(time, i));
        }
    }
}

fn scan_runs(
    sym: &ColumnView<'_>,
    time: &ColumnView<'_>,
    rows: usize,
    scheme: PartitionScheme,
    tt: TimeType,
) -> (r: Result<Vec<(String, Vec<RowSpan>)>, TableError>)
    requires
        rows_usable(*sym, *time, rows as nat, tt),
    ensures
        scanned(r, *sym, *time, rows as nat, scheme, tt),
{
    let ghost times = view_times(*time, rows as nat);
    let mut cutter = Cutter::new(scheme, tt, Ghost(times));
    let mut before: Option<(&str, i64)> = None;
    let mut i: usize = 0;
    while i < rows
        invariant
            i <= rows,
            rows_usable(*sym, *time, rows as nat, tt),
            times == view_times(*time, rows as nat),
            cutter.wf(),
            cutter.spec_rows() == i,
            cutter.spec_times() == times,
            cutter.spec_scheme() == scheme,
            cutter.spec_tt() == tt,
            forall|j: int| 0 <= j < i ==> #[trigger] row_complaint(*sym, *time, j) is None,
            match before {
                Some((s, t)) => i > 0 && sym_at(*sym, i - 1) == Some(s@) && t == table::time_at(
                    *time,
                    i - 1,
                ),
                None => i == 0,
            },
        decreases rows - i,
    {
        assert(row_readable(*sym, *time, i as int));
        let (s, t) = match read_key(sym, time, i) {
            Ok(key) => key,
            Err(e) => {
                proof {
                    assert(first_complaint(*sym, *time, i as int));
                }
                return Err(e);
            },
        };
        if let Some((s0, t0)) = before {
            let ordered = match text::relate(s0, s) {
                Relation::Before => true,
                Relation::Same => t0 < t,
                Relation::After => false,
            };
            proof {
                text::lemma_text_before_order(s0@, s@);
                assert(ordered == follows(*sym, *time, i as int));
            }
            if !ordered {
                proof {
                    assert(first_complaint(*sym, *time, i as int));
                }
                return Err(
                    TableError::Invalid(
                        "input must be strictly sorted and unique by (sym ASC, time ASC)".to_owned(),
                    ),
                );
            }
        }
        assert(row_complaint(*sym, *time, i as int) is None);
        cutter.push(t);
        before = Some((s, t));
        i += 1;
    }
    Ok(cutter.finish())
}

/// A partition that rows cannot be written to.
pub open spec fn unwritable(name: Seq<char>, scheme: PartitionScheme, existing: Seq<String>) -> bool {
    if scheme is Unpartitioned {
        name.len() > 0
    } else {
        !text::texts(existing).contains(name)
    }
}

/// What is said of such a partition.
pub open spec fn unwritable_message(name: Seq<char>, scheme: PartitionScheme) -> Seq<char> {
    if scheme is Unpartitioned {
        "table has 'none' partitioning; input time spans other partitions"@
    } else {
        "partition '"@ + name + "' does not exist; input spans a missing partition"@
    }
}

/// Bucket `i` is the first that cannot be written to.
pub open spec fn first_unwritable(
    buckets: Seq<(String, Vec<RowSpan>)>,
    scheme: PartitionScheme,
    existing: Seq<String>,
    i: int,
) -> bool {
    &&& 0 <= i < buckets.len()
    &&& unwritable(buckets[i].0@, scheme, existing)
    &&& forall|j: int| 0 <= j < i ==> !unwritable((#[trigger] buckets[j]).0@, scheme, existing)
}

/// Checks that all partitions that rows go to are there.
pub fn check_partitions(
    buckets: &[(String, Vec<RowSpan>)],
    scheme: PartitionScheme,
    existing: &[String],
) -> (r: Result<(), TableError>)
    ensures
        match r {
            Ok(_) => forall|i: int|
                0 <= i < buckets@.len() ==> !unwritable(
                    (#[trigger] buckets@[i]).0@,
                    scheme,
                    existing@,
                ),
            Err(e) => exists|i: int|
                #[trigger] first_unwritable(buckets@, scheme, existing@, i) && e.says(
                    unwritable_message(buckets@[i].0@, scheme),
                ),
        },
{
    let mut k: usize = 0;
    while k < buckets.len()
        invariant
            k <= buckets@.len(),
            forall|i: int|
                0 <= i < k ==> !unwritable((#[trigger] buckets@[i]).0@, scheme, existing@),
        decreases buckets.len() - k,
    {
        let name = buckets[k].0.as_str();
        if !scheme.allows_partitions() {
            if name.unicode_len() > 0 {
                assert(first_unwritable(buckets@, scheme, existing@, k as int));
                return Err(
                    TableError::Invalid(
                        "table has 'none' partitioning; input time spans other partitions".to_owned(),
                    ),
                );
            }
        } else if !text::is_listed(existing, name) {
            let mut message = String::new();
            message.append("partition '");
            message.append(name);
            message.append("' does not exist; input spans a missing partition");
            assert(first_unwritable(buckets@, scheme, existing@, k as int));
            return Err(TableError::Invalid(message));
        }
        k += 1;
    }
    Ok(())
}

/// The symbols and times of the rows of runs, in order.
pub fn partition_pairs<'a>(
    sym: &ColumnView<'a>,
    time: &ColumnView<'a>,
    runs: &[RowSpan],
) -> (r: Result<Vec<(&'a str, i64)>, TableError>)
    requires
        gather::runs_within(runs@, usize::MAX as int),
        forall|k: int|
            0 <= k < gather::picked(runs@).len() ==> row_readable(
                *sym,
                *time,
                #[trigger] gather::picked(runs@)[k],
            ),
    ensures
        match r {
            Ok(pairs) => {
                &&& pairs@.len() == gather::picked(runs@).len()
                &&& forall|k: int|
                    0 <= k < pairs@.len() ==> #[trigger] is_key(
                        pairs@[k],
                        *sym,
                        *time,
                        gather::picked(runs@)[k],
                    )
            },
            Err(e) => exists|k: int|
                {
                    &&& 0 <= k < gather::picked(runs@).len()
                    &&& #[trigger] unreadable(*sym, *time, gather::picked(runs@)[k], e)
                    &&& forall|j: int|
                        0 <= j < k ==> has_key(*sym, *time, #[trigger] gather::picked(runs@)[j])
                },
        },
{
    let mut pairs: Vec<(&'a str, i64)> = Vec::new();
    let ghost rows = gather::picked(runs@);
    let mut k: usize = 0;
    assert(gather::picked(runs@.take(0)).len() == 0);
    while k < runs.len()
        invariant
            k <= runs@.len(),
            rows == gather::picked(runs@),
            gather::runs_within(runs@, usize::MAX as int),
            forall|k: int|
                0 <= k < rows.len() ==> row_readable(*sym, *time, #[trigger] rows[k]),
            pairs@.len() == gather::picked(runs@.take(k as int)).len(),
            pairs@.len() <= rows.len(),
            forall|j: int|
                0 <= j < pairs@.len() ==> #[trigger] is_key(pairs@[j], *sym, *time, rows[j]),
        decreases runs.len() - k,
    {
        let (start, len) = runs[k];
        let mut i: usize = 0;
        let ghost base = pairs@.len();
        proof {
            gather::lemma_picked_step(runs@, k as int);
            gather::lemma_picked_agree(runs@, k + 1);
            assert(runs@[k as int].0 + runs@[k as int].1 <= usize::MAX);
        }
        while i < len
            invariant
                i <= len,
                k < runs@.len(),
                runs@[k as int] == (start, len),
                start + len <= usize::MAX,
                rows == gather::picked(runs@),
                base == gather::picked(runs@.take(k as int)).len(),
                base + len <= rows.len(),
                forall|k: int|
                    0 <= k < rows.len() ==> row_readable(*sym, *time, #[trigger] rows[k]),
                pairs@.len() == base + i,
                forall|j: int|
                    0 <= j < pairs@.len() ==> #[trigger] is_key(pairs@[j], *sym, *time, rows[j]),
            decreases len - i,
        {
            proof {
                gather::lemma_picked_at(runs@, k as int, i as int);
                assert(row_readable(*sym, *time, rows[base + i]));
            }
            match read_key(sym, time, start + i) {
                Ok(key) => {
                    let ghost before = pairs@;
                    pairs.push(key);
                    proof {
                        assert forall|j: int| 0 <= j < pairs@.len() implies #[trigger] is_key(
                            pairs@[j],
                            *sym,
                            *time,
                            rows[j],
                        ) by {
                            if j < before.len() {
                                assert(is_key(before[j], *sym, *time, rows[j]));
                            }
                        }
                    }
                },
                Err(e) => {
                    proof {
                        assert(unreadable(*sym, *time, rows[base + i], e));
                        assert forall|j: int| 0 <= j < base + i implies has_key(
                            *sym,
                            *time,
                            #[trigger] rows[j],
                        ) by {
                            assert(is_key(pairs@[j], *sym, *time, rows[j]));
                        }
                    }
                    return Err(e);
                },
            }
            i += 1;
        }
        k += 1;
    }
    assert(runs@.take(k as int) =~= runs@);
    Ok(pairs)
}

/// The pair is the symbol and the time of row `i`.
pub open spec fn is_key(pair: (&str, i64), sym: ColumnView<'_>, time: ColumnView<'_>, i: int) -> bool {
    &&& has_key(sym, time, i)
    &&& sym_at(sym, i) == Some(pair.0@)
    &&& pair.1 == table::time_at(time, i)
}

/// Row `i` has a symbol and a time.
pub open spec fn has_key(sym: ColumnView<'_>, time: ColumnView<'_>, i: int) -> bool {
    sym_at(sym, i) is Some && time_complaint(time, i) is None
}

/// What is said of row `i`, which lacks a symbol or a time.
pub open spec fn unreadable(
    sym: ColumnView<'_>,
    time: ColumnView<'_>,
    i: int,
    e: TableError,
) -> bool {
    if sym_at(sym, i) is None {
        e.says("sym value at row "@ + text::dec(i as nat) + " is NULL"@)
    } else {
        time_complaint(time, i) matches Some(m) && e.says(m)
    }
}

/// Rows to write: the first place in the partition, the first row of the input, and how
/// many.
pub type RowWrite = (u64, usize, usize);

/// The places that ranges cover, in order.
pub open spec fn places(ranges: Seq<RowRange>) -> Seq<int>
    decreases ranges.len(),
{
    if ranges.len() == 0 {
        Seq::empty()
    } else {
        places(ranges.drop_last()) + Seq::new(
            ranges.last().length as nat,
            |i: int| ranges.last().offset + i,
        )
    }
}

/// The places that writes fill, in order.
pub open spec fn places_filled(writes: Seq<RowWrite>) -> Seq<int>
    decreases writes.len(),
{
    if writes.len() == 0 {
        Seq::empty()
    } else {
        places_filled(writes.drop_last()) + Seq::new(
            writes.last().2 as nat,
            |i: int| writes.last().0 + i,
        )
    }
}

/// The rows of the input that writes take, in order.
pub open spec fn rows_taken(writes: Seq<RowWrite>) -> Seq<int>
    decreases writes.len(),
{
    if writes.len() == 0 {
        Seq::empty()
    } else {
        rows_taken(writes.drop_last()) + Seq::new(
            writes.last().2 as nat,
            |i: int| writes.last().1 + i,
        )
    }
}

/// Places in all.
pub open spec fn places_in(ranges: Seq<RowRange>) -> nat
    decreases ranges.len(),
{
    if ranges.len() == 0 {
        0
    } else {
        places_in(ranges.drop_last()) + ranges.last().length as nat
    }
}

proof fn lemma_places_len(ranges: Seq<RowRange>)
    ensures
        places(ranges).len() == places_in(ranges),
    decreases ranges.len(),
{
    if ranges.len() > 0 {
        lemma_places_len(ranges.drop_last());
    }
}

proof fn lemma_places_in_take(ranges: Seq<RowRange>, k: int)
    requires
        0 <= k <= ranges.len(),
    ensures
        places_in(ranges.take(k)) <= places_in(ranges),
    decreases ranges.len() - k,
{
    if k < ranges.len() {
        assert(ranges.take(k + 1).drop_last() =~= ranges.take(k));
        lemma_places_in_take(ranges, k + 1);
    } else {
        assert(ranges.take(k) =~= ranges);
    }
}

fn count_places(ranges: &[RowRange]) -> (total: u64)
    requires
        places_in(ranges@) <= u64::MAX,
    ensures
        total == places_in(ranges@),
{
    let mut total: u64 = 0;
    let mut k: usize = 0;
    assert(ranges@.take(0).len() == 0);
    while k < ranges.len()
        invariant
            k <= ranges@.len(),
            places_in(ranges@) <= u64::MAX,
            total == places_in(ranges@.take(k as int)),
        decreases ranges.len() - k,
    {
        proof {
            assert(ranges@.take(k + 1).drop_last() =~= ranges@.take(k as int));
            lemma_places_in_take(ranges@, k + 1);
        }
        total = total + ranges[k].length;
        k += 1;
    }
    assert(ranges@.take(k as int) =~= ranges@);
    total
}

/// One more piece of a range and of a run.
proof fn lemma_write_step(
    writes: Seq<RowWrite>,
    w: RowWrite,
    filled: Seq<int>,
    taken: Seq<int>,
)
    requires
        places_filled(writes) == filled,
        rows_taken(writes) == taken,
    ensures
        places_filled(writes.push(w)) == filled + Seq::new(w.2 as nat, |i: int| w.0 + i),
        rows_taken(writes.push(w)) == taken + Seq::new(w.2 as nat, |i: int| w.1 + i),
{
    assert(writes.push(w).drop_last() =~= writes);
}

/// Matches the places that were found for the rows of runs with those rows.  The places
/// come in the order of the rows.
pub fn match_places(located: &[RowRange], runs: &[RowSpan]) -> (r: Result<
    Vec<RowWrite>,
    TableError,
>)
    requires
        places_in(located@) <= u64::MAX,
        gather::picked(runs@).len() <= usize::MAX,
        gather::runs_within(runs@, usize::MAX as int),
        forall|k: int|
            0 <= k < located@.len() ==> (#[trigger] located@[k]).offset + located@[k].length
                <= u64::MAX,
    ensures
        if places_in(located@) != gather::picked(runs@).len() {
            r matches Err(TableError::InvalidState(m)) && m@ == "locate total "@ + text::dec(
                places_in(located@),
            ) + " != input rows "@ + text::dec(gather::picked(runs@).len())
        } else {
            r matches Ok(writes) && places_filled(writes@) == places(located@) && rows_taken(
                writes@,
            ) == gather::picked(runs@)
        },
{
    let total: u64 = count_places(located);
    let rows: usize = gather::count_rows(runs);
    if total != rows as u64 {
        let mut message = String::new();
        message.append("locate total ");
        text::push_dec(&mut message, total);
        message.append(" != input rows ");
        text::push_dec(&mut message, rows as u64);
        return Err(TableError::InvalidState(message));
    }
    let ghost all = gather::picked(runs@);
    let mut writes: Vec<RowWrite> = Vec::new();
    let mut ri: usize = 0;
    let mut pos: usize = 0;
    let mut k: usize = 0;
    proof {
        assert(located@.take(0).len() == 0);
        assert(all.take(0) =~= Seq::empty());
        gather::lemma_picked_zero(runs@);
    }
    while k < located.len()
        invariant
            k <= located@.len(),
            all == gather::picked(runs@),
            places_in(located@) == all.len(),
            all.len() <= usize::MAX,
            gather::runs_within(runs@, usize::MAX as int),
            forall|k: int|
                0 <= k < located@.len() ==> (#[trigger] located@[k]).offset + located@[k].length
                    <= u64::MAX,
            places_filled(writes@) == places(located@.take(k as int)),
            run_place(runs@, ri as int, pos as int, places_in(located@.take(k as int)) as int),
            rows_taken(writes@) == all.take(places_in(located@.take(k as int)) as int),
        decreases located.len() - k,
    {
        let range = located[k];
        let ghost done = places_in(located@.take(k as int)) as int;
        let ghost before = places(located@.take(k as int));
        proof {
            assert(located@.take(k + 1).drop_last() =~= located@.take(k as int));
            assert(located@.take(k + 1).last() == located@[k as int]);
            lemma_places_in_take(located@, k + 1);
            assert(located@[k as int].offset + located@[k as int].length <= u64::MAX);
            assert(before + Seq::new(0, |i: int| range.offset + i) =~= before);
        }
        let mut rest: usize = range.length as usize;
        let mut grid: u64 = range.offset;
        while rest > 0
            invariant
                rest <= range.length,
                range.offset + range.length <= u64::MAX,
                grid == range.offset + (range.length - rest),
                done + range.length <= all.len(),
                done >= 0,
                all == gather::picked(runs@),
                all.len() <= usize::MAX,
                gather::runs_within(runs@, usize::MAX as int),
                run_place(runs@, ri as int, pos as int, done + range.length - rest),
                places_filled(writes@) == before + Seq::new(
                    (range.length - rest) as nat,
                    |i: int| range.offset + i,
                ),
                rows_taken(writes@) == all.take(done + range.length - rest),
            decreases rest + (runs.len() - ri),
        {
            let ghost at = done + range.length - rest;
            proof {
                lemma_run_place(runs@, ri as int, pos as int, at);
                assert(runs@[ri as int].0 + runs@[ri as int].1 <= usize::MAX);
            }
            let (rs, rl) = runs[ri];
            let take: usize = if rest < rl - pos {
                rest
            } else {
                rl - pos
            };
            let ghost old_writes = writes@;
            writes.push((grid, rs + pos, take));
            proof {
                let w = (grid, (rs + pos) as usize, take);
                lemma_write_step(
                    old_writes,
                    w,
                    places_filled(old_writes),
                    rows_taken(old_writes),
                );
                let got = range.length - rest;
                assert(Seq::new(got as nat, |i: int| range.offset + i) + Seq::new(
                    take as nat,
                    |i: int| w.0 + i,
                ) =~= Seq::new((got + take) as nat, |i: int| range.offset + i));
                assert(places_filled(writes@) =~= before + Seq::new(
                    (got + take) as nat,
                    |i: int| range.offset + i,
                ));
                lemma_run_rows(runs@, ri as int, pos as int, at, take as int);
                assert(rows_taken(writes@) =~= all.take(at + take));
                lemma_run_advance(runs@, ri as int, pos as int, at, take as int);
            }
            grid = grid + take as u64;
            pos = pos + take;
            rest = rest - take;
            if pos == rl {
                ri = ri + 1;
                pos = 0;
            }
        }
        k += 1;
    }
    proof {
        assert(located@.take(k as int) =~= located@);
        assert(all.take(all.len() as int) =~= all);
    }
    Ok(writes)
}

/// Row `pos` of run `ri` is number `at` of the rows of all runs; at the end of a run that
/// is the first of the next.
pub open spec fn run_place(runs: Seq<RowSpan>, ri: int, pos: int, at: int) -> bool {
    &&& 0 <= ri <= runs.len()
    &&& at == gather::picked(runs.take(ri)).len() + pos
    &&& pos >= 0
    &&& ri == runs.len() ==> pos == 0
    &&& ri < runs.len() ==> pos <= runs[ri].1
    &&& ri < runs.len() && pos == runs[ri].1 ==> pos == 0
}

proof fn lemma_run_place(runs: Seq<RowSpan>, ri: int, pos: int, at: int)
    requires
        run_place(runs, ri, pos, at),
        at < gather::picked(runs).len(),
    ensures
        ri < runs.len(),
        gather::picked(runs.take(ri + 1)).len() == gather::picked(runs.take(ri)).len()
            + runs[ri].1,
{
    if ri == runs.len() {
        assert(runs.take(ri) =~= runs);
    } else {
        gather::lemma_picked_step(runs, ri);
    }
}

proof fn lemma_run_rows(runs: Seq<RowSpan>, ri: int, pos: int, at: int, take: int)
    requires
        run_place(runs, ri, pos, at),
        ri < runs.len(),
        0 <= take <= runs[ri].1 - pos,
    ensures
        at + take <= gather::picked(runs).len(),
        gather::picked(runs).take(at + take) == gather::picked(runs).take(at) + Seq::new(
            take as nat,
            |i: int| runs[ri].0 + pos + i,
        ),
{
    gather::lemma_picked_step(runs, ri);
    gather::lemma_picked_agree(runs, ri + 1);
    let all = gather::picked(runs);
    let next = gather::picked(runs.take(ri + 1));
    assert forall|i: int| 0 <= i < take implies #[trigger] all.take(at + take)[at + i]
        == runs[ri].0 + pos + i by {
        assert(all.take(next.len() as int)[at + i] == next[at + i]);
    }
    assert(all.take(at + take) =~= all.take(at) + Seq::new(
        take as nat,
        |i: int| runs[ri].0 + pos + i,
    ));
}

proof fn lemma_run_advance(runs: Seq<RowSpan>, ri: int, pos: int, at: int, take: int)
    requires
        run_place(runs, ri, pos, at),
        ri < runs.len(),
        0 <= take <= runs[ri].1 - pos,
    ensures
        pos + take == runs[ri].1 ==> run_place(runs, ri + 1, 0, at + take),
        pos + take < runs[ri].1 ==> run_place(runs, ri, pos + take, at + take),
{
    gather::lemma_picked_step(runs, ri);
}

/// A field that is written as one: not symbol, not time.
pub open spec fn plain(field: FieldSchema) -> bool {
    field.name@ != "sym"@ && field.name@ != "time"@
}

/// The plain fields among the first `n`.
pub open spec fn plain_upto(fields: Seq<FieldSchema>, n: int) -> Seq<FieldSchema>
    decreases n,
{
    if n <= 0 {
        Seq::empty()
    } else if plain(fields[n - 1]) {
        plain_upto(fields, n - 1).push(fields[n - 1])
    } else {
        plain_upto(fields, n - 1)
    }
}

/// For each field the first column with its name.
pub open spec fn columns_for(at: Seq<usize>, chosen: Seq<FieldSchema>, fields: Seq<FieldSchema>) -> bool {
    &&& at.len() == chosen.len()
    &&& forall|k: int|
        0 <= k < at.len() ==> schema::first_named(fields, chosen[k].name@, #[trigger] at[k] as int)
}

fn is_plain(field: &FieldSchema) -> (yes: bool)
    ensures
        yes == plain(*field),
{
    !text::same(field.name.as_str(), "sym") && !text::same(field.name.as_str(), "time")
}

/// The fields of the input that are written, and where their columns stand.
pub fn written_fields(schema: &Schema) -> (out: (Schema, Vec<usize>))
    ensures
        out.0.fields@ == plain_upto(schema.fields@, schema.fields@.len() as int),
        columns_for(out.1@, out.0.fields@, schema.fields@),
{
    let mut fields: Vec<FieldSchema> = Vec::new();
    let mut at: Vec<usize> = Vec::new();
    let mut k: usize = 0;
    while k < schema.fields.len()
        invariant
            k <= schema.fields@.len(),
            fields@ == plain_upto(schema.fields@, k as int),
            columns_for(at@, fields@, schema.fields@),
        decreases schema.fields.len() - k,
    {
        let field = &schema.fields[k];
        if is_plain(field) {
            match schema.position(field.name.as_str()) {
                Some(j) => {
                    let ghost (fields0, at0) = (fields@, at@);
                    fields.push(field.clone());
                    at.push(j);
                    proof {
                        assert(fields@ =~= fields0.push(*field));
                        assert forall|m: int| 0 <= m < at@.len() implies schema::first_named(
                            schema.fields@,
                            fields@[m].name@,
                            #[trigger] at@[m] as int,
                        ) by {
                            if m < at0.len() {
                                assert(at@[m] == at0[m] && fields@[m] == fields0[m]);
                            }
                        }
                    }
                },
                None => {
                    assert(schema.fields@[k as int].name@ == field.name@);
                },
            }
        }
        k += 1;
    }
    (Schema { fields }, at)
}

/// All values that the column counts are there.
pub open spec fn filled(view: ColumnView<'_>) -> bool {
    forall|k: int|
        0 <= k < view.spec_segments().len() ==> column::cuttable(
            #[trigger] view.spec_segments()[k],
            view.spec_type().width(),
            view.spec_segments()[k].spec_rows() as int,
        )
}

/// Rows of a filled column can be cut out.
proof fn lemma_filled_cuttable(view: ColumnView<'_>, lo: int, hi: int)
    requires
        filled(view),
        0 <= lo <= hi,
    ensures
        forall|k: int| #[trigger]
            column::touches(view.spec_segments(), k, lo, hi) ==> column::cuttable(
                view.spec_segments()[k],
                view.spec_type().width(),
                column::part_hi(view.spec_segments(), k, hi),
            ),
{
    let segments = view.spec_segments();
    let w = view.spec_type().width();
    assert forall|k: int| #[trigger] column::touches(segments, k, lo, hi) implies column::cuttable(
        segments[k],
        w,
        column::part_hi(segments, k, hi),
    ) by {
        column::lemma_rows_before_step(segments, k);
        let h = column::part_hi(segments, k, hi);
        let n = segments[k].spec_rows() as int;
        assert(column::cuttable(segments[k], w, n));
        assert(0 <= h <= n);
        assert(h * w <= n * w) by (nonlinear_arith)
            requires
                0 <= h <= n,
                w >= 0,
        ;
    }
}

/// The rows that one write takes from the input, as a view of the written fields.
pub open spec fn cut_for_write(
    out: DataView<'_>,
    data: DataView<'_>,
    fields: Seq<FieldSchema>,
    at: Seq<usize>,
    w: RowWrite,
) -> bool {
    &&& out.wf()
    &&& out.schema.fields@ == fields
    &&& forall|k: int|
        0 <= k < at.len() ==> column::rows_of(
            #[trigger] out.columns@[k],
            data.columns@[at[k] as int],
            w.1 as int,
            w.2 as nat,
        )
}

/// Cuts the rows of one write out of the input.
pub fn rows_to_write<'a>(data: &DataView<'a>, schema: &Schema, at: &[usize], w: RowWrite) -> (r:
    Result<DataView<'a>, FormatError>)
    requires
        data.wf(),
        at@.len() == schema.fields@.len(),
        w.1 + w.2 <= usize::MAX,
        forall|k: int|
            0 <= k < at@.len() ==> (#[trigger] at@[k]) < data.columns@.len() && filled(
                data.columns@[at@[k] as int],
            ),
    ensures
        match r {
            Ok(out) => {
                &&& cut_for_write(out, *data, schema.fields@, at@, w)
                &&& forall|k: int|
                    0 <= k < at@.len() ==> !uncut(data.columns@[(#[trigger] at@[k]) as int], w)
            },
            Err(FormatError::InvalidLayout(m)) => exists|k: int| #[trigger]
                stops_write(*data, schema.fields@, at@, w, k) && write_error(
                    data.columns@[at@[k] as int],
                    schema.fields@[k],
                    w,
                    m@,
                ),
            Err(_) => false,
        },
{
    let mut columns: Vec<ColumnView<'a>> = Vec::new();
    let mut k: usize = 0;
    while k < at.len()
        invariant
            k <= at@.len(),
            data.wf(),
            at@.len() == schema.fields@.len(),
            w.1 + w.2 <= usize::MAX,
            columns@.len() == k,
            k > 0 ==> w.1 + w.2 <= data.spec_length() && w.2 > 0,
            forall|k: int|
                0 <= k < at@.len() ==> (#[trigger] at@[k]) < data.columns@.len() && filled(
                    data.columns@[at@[k] as int],
                ),
            forall|j: int|
                0 <= j < k ==> column::rows_of(
                    #[trigger] columns@[j],
                    data.columns@[at@[j] as int],
                    w.1 as int,
                    w.2 as nat,
                ),
            forall|j: int| 0 <= j < k ==> !uncut(data.columns@[(#[trigger] at@[j]) as int], w),
        decreases at.len() - k,
    {
        assert(at@[k as int] < data.columns@.len());
        let source = &data.columns[at[k]];
        proof {
            assert(data.columns@[at@[k as int] as int].spec_length() == data.spec_length());
            lemma_filled_cuttable(*source, w.1 as int, w.1 + w.2);
        }
        match source.slice_rows(w.1, w.2) {
            Ok(part) => {
                proof {
                    lemma_not_short(*source, w);
                }
                columns.push(part);
            },
            Err(e) => {
                proof {
                    assert(uncut(data.columns@[at@[k as int] as int], w));
                    assert(stops_write(*data, schema.fields@, at@, w, k as int));
                }
                return Err(e);
            },
        }
        k += 1;
    }
    let copy = schema.clone();
    match DataView::new(copy, columns) {
        Ok(out) => Ok(out),
        Err(e) => {
            proof {
                let i = choose|i: int|
                    {
                        &&& 0 <= i < columns@.len()
                        &&& !(#[trigger] DataView::fits(copy, columns@, i))
                        &&& forall|j: int|
                            0 <= j < i ==> #[trigger] DataView::fits(copy, columns@, j)
                    };
                assert(column::rows_of(
                    columns@[0],
                    data.columns@[at@[0] as int],
                    w.1 as int,
                    w.2 as nat,
                ));
                assert(column::rows_of(
                    columns@[i],
                    data.columns@[at@[i] as int],
                    w.1 as int,
                    w.2 as nat,
                ));
                assert forall|j: int| 0 <= j < i implies data.columns@[(
                #[trigger] at@[j]) as int].spec_type() == schema.fields@[j].data_type by {
                    assert(DataView::fits(copy, columns@, j));
                    assert(column::rows_of(
                        columns@[j],
                        data.columns@[at@[j] as int],
                        w.1 as int,
                        w.2 as nat,
                    ));
                }
                assert(stops_write(*data, schema.fields@, at@, w, i));
            }
            Err(e)
        },
    }
}

/// Column `k` is the first whose rows cannot be cut out; or all can be, and it is the first
/// that does not have the type of its field.
pub open spec fn stops_write(
    data: DataView<'_>,
    fields: Seq<FieldSchema>,
    at: Seq<usize>,
    w: RowWrite,
    k: int,
) -> bool {
    let source = data.columns@[at[k] as int];
    &&& 0 <= k < at.len()
    &&& if uncut(source, w) {
        forall|j: int| 0 <= j < k ==> !uncut(data.columns@[(#[trigger] at[j]) as int], w)
    } else {
        &&& source.spec_type() != fields[k].data_type
        &&& forall|j: int|
            0 <= j < at.len() ==> !uncut(data.columns@[(#[trigger] at[j]) as int], w)
        &&& forall|j: int|
            0 <= j < k ==> data.columns@[(#[trigger] at[j]) as int].spec_type()
                == fields[j].data_type
    }
}

/// What is said of a column that stops a write.
pub open spec fn write_error(
    source: ColumnView<'_>,
    field: FieldSchema,
    w: RowWrite,
    message: Seq<char>,
) -> bool {
    if uncut(source, w) {
        column::cut_error(source, w.1 as int, w.2 as int, message)
    } else {
        message == dataview::type_message(
            field.name@,
            source.spec_type().variant_name(),
            field.data_type.variant_name(),
        )
    }
}

/// A column whose rows were cut out has bitmaps that cover them.
proof fn lemma_not_short(view: ColumnView<'_>, w: RowWrite)
    requires
        w.1 + w.2 <= view.spec_length(),
        w.2 > 0,
        forall|k: int|
            #[trigger] column::touches(view.spec_segments(), k, w.1 as int, w.1 + w.2)
                ==> !column::short(
                view.spec_segments()[k],
                column::part_hi(view.spec_segments(), k, w.1 + w.2),
            ),
    ensures
        !uncut(view, w),
{
}

/// A bitmap of the column ends before rows that it should cover.
pub open spec fn bitmap_short(view: ColumnView<'_>, lo: int, hi: int) -> bool {
    exists|k: int|
        {
            &&& #[trigger] column::touches(view.spec_segments(), k, lo, hi)
            &&& column::short(
                view.spec_segments()[k],
                column::part_hi(view.spec_segments(), k, hi),
            )
        }
}

/// The row of the input that ends up in place `g`: that of the last write that covers it.
pub open spec fn source_row(writes: Seq<RowWrite>, g: int) -> Option<int>
    decreases writes.len(),
{
    if writes.len() == 0 {
        None
    } else {
        let w = writes.last();
        if w.0 <= g < w.0 + w.2 {
            Some(w.1 + (g - w.0))
        } else {
            source_row(writes.drop_last(), g)
        }
    }
}

/// What place `g` of a new column holds: the value of the row that goes there, or zeros.
pub open spec fn place_value(src: ColumnView<'_>, writes: Seq<RowWrite>, g: int, width: nat) -> Seq<
    u8,
> {
    match source_row(writes, g) {
        Some(r) => src.cell(r)->0,
        None => Seq::new(width, |b: int| 0u8),
    }
}

/// A new column with a value in each place that a row goes to, and none elsewhere.
pub open spec fn aligned(
    out: Column,
    src: ColumnView<'_>,
    writes: Seq<RowWrite>,
    data_type: DataType,
    rows: nat,
) -> bool {
    let width = data_type.width();
    &&& out.data_type == data_type
    &&& out.dict is None
    &&& out.values@.len() == rows * width
    &&& forall|g: int|
        0 <= g < rows ==> #[trigger] buffer::group(out.values@, g, width) == place_value(
            src,
            writes,
            g,
            width,
        )
    &&& out.validity matches Some(v) && v.wf() && v@ == Seq::new(
        rows,
        |g: int| source_row(writes, g) is Some,
    )
}

/// The rows of a write cannot be cut out of a column.
pub open spec fn uncut(src: ColumnView<'_>, w: RowWrite) -> bool {
    w.2 == 0 || w.1 + w.2 > src.spec_length() || bitmap_short(src, w.1 as int, w.1 + w.2)
}

/// A row of a write is not of a fixed width.
pub open spec fn unfixed(src: ColumnView<'_>, w: RowWrite) -> bool {
    exists|i: int| 0 <= i < w.2 && #[trigger] row_unfixed(src, w.1 + i)
}

pub open spec fn row_unfixed(src: ColumnView<'_>, r: int) -> bool {
    column::row_in(src.spec_segments(), r) matches Some((segment, _)) && segment.spec_values()
        !is Fixed
}

proof fn lemma_groups_apart(g: int, h: int, width: int, rows: int)
    by (nonlinear_arith)
    requires
        0 <= g < rows,
        0 <= h < rows,
        0 <= width,
    ensures
        0 <= g * width,
        (g + 1) * width == g * width + width,
        (g + 1) * width <= rows * width,
        0 <= h * width,
        (h + 1) * width == h * width + width,
        (h + 1) * width <= rows * width,
        g < h ==> (g + 1) * width <= h * width,
        h < g ==> (h + 1) * width <= g * width,
{
}

/// Puts the bytes of one value in their place.
fn put_value(values: &mut Vec<u8>, g: usize, bytes: &[u8], Ghost(rows): Ghost<nat>)
    requires
        g < rows,
        old(values)@.len() == rows * bytes@.len(),
        old(values)@.len() <= usize::MAX,
    ensures
        final(values)@.len() == old(values)@.len(),
        buffer::group(final(values)@, g as int, bytes@.len()) == bytes@,
        forall|h: int|
            0 <= h < rows && h != g ==> #[trigger] buffer::group(final(values)@, h, bytes@.len())
                == buffer::group(old(values)@, h, bytes@.len()),
{
    let width: usize = bytes.len();
    let ghost before = values@;
    proof {
        lemma_groups_apart(g as int, g as int, width as int, rows as int);
    }
    let at: usize = g * width;
    let mut b: usize = 0;
    while b < width
        invariant
            b <= width,
            width == bytes@.len(),
            at == g * width,
            at + width <= values@.len(),
            values@.len() == before.len(),
            before.len() <= usize::MAX,
            forall|i: int|
                0 <= i < before.len() ==> #[trigger] values@[i] == if at <= i < at + b {
                    bytes@[i - at]
                } else {
                    before[i]
                },
        decreases width - b,
    {
        values.set(at + b, bytes[b]);
        b += 1;
    }
    proof {
        assert(buffer::group(values@, g as int, width as nat) =~= bytes@);
        assert forall|h: int| 0 <= h < rows && h != g implies #[trigger] buffer::group(
            values@,
            h,
            width as nat,
        ) == buffer::group(before, h, width as nat) by {
            lemma_groups_apart(g as int, h, width as int, rows as int);
            assert(buffer::group(values@, h, width as nat) =~= buffer::group(
                before,
                h,
                width as nat,
            ));
        }
    }
}

/// Write `k` is the first whose rows cannot be copied.
pub open spec fn stops_copy(src: ColumnView<'_>, writes: Seq<RowWrite>, k: int) -> bool {
    &&& 0 <= k < writes.len()
    &&& uncut(src, writes[k]) || unfixed(src, writes[k])
    &&& forall|j: int|
        0 <= j < k ==> !uncut(src, #[trigger] writes[j]) && !unfixed(src, writes[j])
}

/// What is said of rows that cannot be copied.
pub open spec fn copy_error(
    src: ColumnView<'_>,
    w: RowWrite,
    name: Seq<char>,
    e: TableError,
) -> bool {
    if uncut(src, w) {
        e matches TableError::Format(FormatError::InvalidLayout(m)) && column::cut_error(
            src,
            w.1 as int,
            w.2 as int,
            m@,
        )
    } else {
        e.says(fixed_only_message(name))
    }
}

/// What is said of a column that is not of a fixed width.
pub open spec fn fixed_only_message(name: Seq<char>) -> Seq<char> {
    "create_table_columns supports fixed-width columns only (column '"@ + name + "')"@
}

/// Builds a column for all places of a partition out of the rows that go to some of them.
pub fn build_aligned_column(
    data: &DataView<'_>,
    writes: &[RowWrite],
    name: &str,
    data_type: DataType,
    rows: usize,
) -> (r: Result<Column, TableError>)
    requires
        data.wf(),
        rows * data_type.width() <= usize::MAX,
        forall|k: int|
            0 <= k < writes@.len() ==> (#[trigger] writes@[k]).0 + writes@[k].2 <= rows
                && writes@[k].1 + writes@[k].2 <= usize::MAX,
        forall|j: int| #[trigger]
            schema::first_named(data.schema.fields@, name@, j) ==> filled(data.columns@[j])
                && data.columns@[j].spec_type() == data_type,
    ensures
        !schema::has_name(data.schema.fields@, name@) ==> (r matches Err(e) && e.says(
            "input column '"@ + name@ + "' missing"@,
        )),
        forall|j: int| #[trigger]
            schema::first_named(data.schema.fields@, name@, j) ==> match r {
                Ok(out) => {
                    &&& aligned(out, data.columns@[j], writes@, data_type, rows as nat)
                    &&& forall|k: int|
                        0 <= k < writes@.len() ==> !uncut(data.columns@[j], #[trigger] writes@[k])
                            && !unfixed(data.columns@[j], writes@[k])
                },
                Err(e) => exists|k: int| #[trigger]
                    stops_copy(data.columns@[j], writes@, k) && copy_error(
                        data.columns@[j],
                        writes@[k],
                        name@,
                        e,
                    ),
            },
{
    let at: usize = match data.schema.position(name) {
        Some(at) => at,
        None => {
            let mut message = String::new();
            message.append("input column '");
            message.append(name);
            message.append("' missing");
            return Err(TableError::Invalid(message));
        },
    };
    proof {
        assert forall|j: int| #[trigger] schema::first_named(
            data.schema.fields@,
            name@,
            j,
        ) implies j == at by {
            gather::lemma_first_named_unique(data.schema.fields@, name@, j, at as int);
        }
    }
    let src = &data.columns[at];
    match align(src, writes, data_type, rows) {
        Ok(Some(out)) => Ok(out),
        Ok(None) => {
            let mut message = String::new();
            message.append("create_table_columns supports fixed-width columns only (column '");
            message.append(name);
            message.append("')");
            Err(TableError::Invalid(message))
        },
        Err(e) => Err(TableError::Format(e)),
    }
}

/// Copies rows to their places; none where a row is not of a fixed width.
fn align(src: &ColumnView<'_>, writes: &[RowWrite], data_type: DataType, rows: usize) -> (r: Result<
    Option<Column>,
    FormatError,
>)
    requires
        filled(*src),
        src.spec_type() == data_type,
        rows * data_type.width() <= usize::MAX,
        forall|k: int|
            0 <= k < writes@.len() ==> (#[trigger] writes@[k]).0 + writes@[k].2 <= rows
                && writes@[k].1 + writes@[k].2 <= usize::MAX,
    ensures
        match r {
            Ok(Some(out)) => {
                &&& aligned(out, *src, writes@, data_type, rows as nat)
                &&& forall|k: int|
                    0 <= k < writes@.len() ==> !uncut(*src, #[trigger] writes@[k]) && !unfixed(
                        *src,
                        writes@[k],
                    )
            },
            Ok(None) => exists|k: int| #[trigger]
                stops_copy(*src, writes@, k) && !uncut(*src, writes@[k]),
            Err(FormatError::InvalidLayout(m)) => exists|k: int| #[trigger]
                stops_copy(*src, writes@, k) && uncut(*src, writes@[k]) && column::cut_error(
                    *src,
                    writes@[k].1 as int,
                    writes@[k].2 as int,
                    m@,
                ),
            Err(_) => false,
        },
{
    let size: usize = data_type.size_of();
    let ghost width = data_type.width();
    let mut values: Vec<u8> = vec![0u8; rows * size];
    let mut validity = Bitmap::zeros(rows);
    let mut k: usize = 0;
    proof {
        assert forall|g: int| 0 <= g < rows implies #[trigger] buffer::group(values@, g, width)
            == place_value(*src, writes@.take(0), g, width) by {
            lemma_groups_apart(g, g, width as int, rows as int);
            assert(buffer::group(values@, g, width) =~= Seq::new(width, |b: int| 0u8));
        }
        assert(validity@ =~= Seq::new(
            rows as nat,
            |g: int| source_row(writes@.take(0), g) is Some,
        ));
    }
    while k < writes.len()
        invariant
            k <= writes@.len(),
            size == width,
            width == data_type.width(),
            filled(*src),
            src.spec_type() == data_type,
            rows * width <= usize::MAX,
            forall|k: int|
                0 <= k < writes@.len() ==> (#[trigger] writes@[k]).0 + writes@[k].2 <= rows
                    && writes@[k].1 + writes@[k].2 <= usize::MAX,
            values@.len() == rows * width,
            validity.wf(),
            validity@ == Seq::new(
                rows as nat,
                |g: int| source_row(writes@.take(k as int), g) is Some,
            ),
            forall|g: int|
                0 <= g < rows ==> #[trigger] buffer::group(values@, g, width) == place_value(
                    *src,
                    writes@.take(k as int),
                    g,
                    width,
                ),
            forall|j: int|
                0 <= j < k ==> !uncut(*src, #[trigger] writes@[j]) && !unfixed(*src, writes@[j]),
        decreases writes.len() - k,
    {
        let w = writes[k];
        assert(writes@[k as int].0 + writes@[k as int].2 <= rows);
        let (grid, start, len): (u64, usize, usize) = w;
        proof {
            lemma_filled_cuttable(*src, start as int, start + len);
        }
        match src.slice_rows(start, len) {
            Ok(_) => {
                proof {
                    lemma_not_short(*src, w);
                }
            },
            Err(e) => {
                assert(uncut(*src, writes@[k as int]));
                assert(stops_copy(*src, writes@, k as int));
                return Err(e);
            },
        }
        let ghost done = writes@.take(k as int);
        let mut i: usize = 0;
        proof {
            lemma_empty_write(*src, done, grid, start, rows as nat, width);
        }
        while i < len
            invariant
                i <= len,
                k < writes@.len(),
                writes@[k as int] == w,
                w == (grid, start, len),
                grid + len <= rows,
                start + len <= usize::MAX,
                start + len <= src.spec_length(),
                size == width,
                width == data_type.width(),
                filled(*src),
                src.spec_type() == data_type,
                rows * width <= usize::MAX,
                values@.len() == rows * width,
                done == writes@.take(k as int),
                forall|g: int|
                    0 <= g < rows ==> #[trigger] buffer::group(values@, g, width) == place_value(
                        *src,
                        done.push((grid, start, i)),
                        g,
                        width,
                    ),
                forall|j: int| 0 <= j < i ==> !(#[trigger] row_unfixed(*src, start + j)),
                !uncut(*src, w),
                forall|j: int|
                    0 <= j < k ==> !uncut(*src, #[trigger] writes@[j]) && !unfixed(
                        *src,
                        writes@[j],
                    ),
            decreases len - i,
        {
            let (segment, j) = match src.locate(start + i) {
                Some(found) => found,
                None => {
                    return Ok(None);
                },
            };
            let bytes = match segment.fixed_bytes() {
                Some(bytes) => bytes,
                None => {
                    proof {
                        let n = i as int;
                        assert(row_unfixed(*src, w.1 + n));
                        assert(unfixed(*src, w));
                        assert(stops_copy(*src, writes@, k as int));
                    }
                    return Ok(None);
                },
            };
            proof {
                column::lemma_row_in_end(src.spec_segments(), start + i);
                let m = choose|m: int|
                    0 <= m < src.spec_segments().len() && src.spec_segments()[m] == segment;
                assert(column::cuttable(
                    src.spec_segments()[m],
                    width,
                    segment.spec_rows() as int,
                ));
                lemma_groups_apart(j as int, j as int, width as int, segment.spec_rows() as int);
            }
            assert(bytes@.len() == bytes.len());
            let cell = slice_subrange(bytes, j * size, j * size + size);
            let ghost before = values@;
            let g: usize = grid as usize + i;
            put_value(&mut values, g, cell, Ghost(rows as nat));
            proof {
                assert(src.cell(start + i) == Some(cell@));
                lemma_next_row(*src, done, grid, start, i, rows as nat, width, before, values@);
            }
            i += 1;
        }
        let ghost bits = validity@;
        let changed: u64 = validity.set_range(grid as usize, len, true);
        proof {
            assert(done.push(w) =~= writes@.take(k + 1));
            assert(done.push(w).drop_last() =~= done);
            assert(validity@ =~= Seq::new(
                rows as nat,
                |g: int| source_row(writes@.take(k + 1), g) is Some,
            ));
            assert(!unfixed(*src, w));
        }
        k += 1;
    }
    assert(writes@.take(k as int) =~= writes@);
    Ok(
        Some(
            Column {
                data_type,
                values: Buffer::from_vec(values),
                validity: Some(validity),
                dict: None,
            },
        ),
    )
}

/// A write of no rows changes nothing.
proof fn lemma_empty_write(
    src: ColumnView<'_>,
    done: Seq<RowWrite>,
    grid: u64,
    start: usize,
    rows: nat,
    width: nat,
)
    ensures
        forall|g: int|
            0 <= g < rows ==> #[trigger] place_value(src, done.push((grid, start, 0)), g, width)
                == place_value(src, done, g, width),
{
    assert(done.push((grid, start, 0)).drop_last() =~= done);
}

/// One more row of a write fills one more place.
proof fn lemma_next_row(
    src: ColumnView<'_>,
    done: Seq<RowWrite>,
    grid: u64,
    start: usize,
    i: usize,
    rows: nat,
    width: nat,
    before: Seq<u8>,
    after: Seq<u8>,
)
    requires
        grid + i < rows,
        i < usize::MAX,
        forall|g: int|
            0 <= g < rows ==> #[trigger] buffer::group(before, g, width) == place_value(
                src,
                done.push((grid, start, i)),
                g,
                width,
            ),
        forall|h: int|
            0 <= h < rows && h != grid + i ==> #[trigger] buffer::group(after, h, width)
                == buffer::group(before, h, width),
        src.cell(start + i) == Some(buffer::group(after, grid + i, width)),
    ensures
        forall|g: int|
            0 <= g < rows ==> #[trigger] buffer::group(after, g, width) == place_value(
                src,
                done.push((grid, start, (i + 1) as usize)),
                g,
                width,
            ),
{
    assert(done.push((grid, start, i)).drop_last() =~= done);
    assert(done.push((grid, start, (i + 1) as usize)).drop_last() =~= done);
    assert forall|g: int| 0 <= g < rows implies #[trigger] buffer::group(after, g, width)
        == place_value(src, done.push((grid, start, (i + 1) as usize)), g, width) by {
        if g != grid + i {
            assert(buffer::group(after, g, width) == buffer::group(before, g, width));
        }
    }
}

/// A partition that columns may be added to: its fields, its rows, and the rows of the
/// input that go to it.
#[derive(Debug)]
pub struct PartitionTarget {
    pub name: String,
    pub schema: Schema,
    pub row_count: usize,
    pub writes: Vec<RowWrite>,
}

/// A column to create: in which partition, for which field of the input, and what it
/// holds; nothing but missing values where no rows of the input go to the partition.
#[derive(Debug)]
pub struct NewColumn {
    pub partition: usize,
    pub field: usize,
    pub column: Option<Column>,
}

impl PartitionTarget {
    /// The partition does not have the field.
    pub open spec fn lacks(self, field: FieldSchema) -> bool {
        plain(field) && !schema::has_name(self.schema.fields@, field.name@)
    }

    /// The partition has the field with another type.
    pub open spec fn disagrees(self, field: FieldSchema) -> bool {
        plain(field) && exists|j: int| #[trigger]
            schema::first_named(self.schema.fields@, field.name@, j)
                && self.schema.fields@[j].data_type != field.data_type
    }
}

/// Of the first `n` fields, those that a partition lacks.
pub open spec fn lacking(fields: Seq<FieldSchema>, target: PartitionTarget, n: int) -> Seq<int>
    decreases n,
{
    if n <= 0 {
        Seq::empty()
    } else if target.lacks(fields[n - 1]) {
        lacking(fields, target, n - 1).push(n - 1)
    } else {
        lacking(fields, target, n - 1)
    }
}

/// Fields of one partition.
pub open spec fn in_partition(p: int, fields: Seq<int>) -> Seq<(int, int)> {
    Seq::new(fields.len(), |k: int| (p, fields[k]))
}

/// The columns that the first `n` partitions lack, partition by partition.
pub open spec fn lacking_in_all(
    fields: Seq<FieldSchema>,
    targets: Seq<PartitionTarget>,
    n: int,
) -> Seq<(int, int)>
    decreases n,
{
    if n <= 0 {
        Seq::empty()
    } else {
        lacking_in_all(fields, targets, n - 1) + in_partition(
            n - 1,
            lacking(fields, targets[n - 1], fields.len() as int),
        )
    }
}

/// Where the columns go.
pub open spec fn column_places(queue: Seq<NewColumn>) -> Seq<(int, int)> {
    Seq::new(queue.len(), |k: int| (queue[k].partition as int, queue[k].field as int))
}

/// The column of the input that a field names.
pub open spec fn input_column(data: DataView<'_>, f: int, j: int) -> bool {
    schema::first_named(data.schema.fields@, data.schema.fields@[f].name@, j)
}

/// The new column holds what it should.
pub open spec fn holds_input(
    new: NewColumn,
    data: DataView<'_>,
    targets: Seq<PartitionTarget>,
) -> bool {
    let target = targets[new.partition as int];
    let field = data.schema.fields@[new.field as int];
    match new.column {
        None => target.writes@.len() == 0,
        Some(column) => {
            &&& target.writes@.len() > 0
            &&& forall|j: int| #[trigger]
                input_column(data, new.field as int, j) ==> aligned(
                    column,
                    data.columns@[j],
                    target.writes@,
                    field.data_type,
                    target.row_count as nat,
                )
        },
    }
}

/// The rows that go to a partition cannot be copied to a new column of field `f`.
pub open spec fn uncopyable(data: DataView<'_>, f: int, target: PartitionTarget) -> bool {
    exists|j: int, k: int|
        {
            &&& #[trigger] input_column(data, f, j)
            &&& 0 <= k < target.writes@.len()
            &&& uncut(data.columns@[j], #[trigger] target.writes@[k]) || unfixed(
                data.columns@[j],
                target.writes@[k],
            )
        }
}

/// Field `f` cannot be brought to a partition: it is there with another type, or its rows
/// cannot be copied.
pub open spec fn blocked(data: DataView<'_>, f: int, target: PartitionTarget) -> bool {
    ||| target.disagrees(data.schema.fields@[f])
    ||| target.lacks(data.schema.fields@[f]) && target.writes@.len() > 0 && uncopyable(
        data,
        f,
        target,
    )
}

/// What is said of a field that is there with another type.
pub open spec fn disagrees_message(field: FieldSchema, found: DataType) -> Seq<char> {
    "field '"@ + field.name@ + "' exists with type "@ + found.variant_name()
        + ", but input has type "@ + field.data_type.variant_name()
}

/// The columns of the input can be copied, and its writes lie within the partition.
pub open spec fn target_ok(data: DataView<'_>, target: PartitionTarget) -> bool {
    &&& forall|f: int|
        0 <= f < data.schema.fields@.len() ==> target.row_count * (
        #[trigger] data.schema.fields@[f]).data_type.width() <= usize::MAX
    &&& forall|k: int|
        0 <= k < target.writes@.len() ==> (#[trigger] target.writes@[k]).0 + target.writes@[k].2
            <= target.row_count && target.writes@[k].1 + target.writes@[k].2 <= usize::MAX
}

/// Decides which columns are created where, and builds them.  A column that is there
/// already is left alone.
pub fn plan_columns(data: &DataView<'_>, targets: &[PartitionTarget]) -> (r: Result<
    Vec<NewColumn>,
    TableError,
>)
    requires
        data.wf(),
        forall|p: int| 0 <= p < targets@.len() ==> target_ok(*data, #[trigger] targets@[p]),
        forall|f: int, j: int|
            0 <= f < data.schema.fields@.len() && #[trigger] input_column(*data, f, j) ==> filled(
                data.columns@[j],
            ) && data.schema.fields@[j].data_type == data.schema.fields@[f].data_type,
    ensures
        match r {
            Ok(queue) => {
                let fields = data.schema.fields@;
                &&& column_places(queue@) == lacking_in_all(
                    fields,
                    targets@,
                    targets@.len() as int,
                )
                &&& forall|k: int|
                    0 <= k < queue@.len() ==> holds_input(#[trigger] queue@[k], *data, targets@)
                &&& forall|p: int, f: int|
                    0 <= p < targets@.len() && 0 <= f < fields.len() ==> !(#[trigger] blocked(
                        *data,
                        f,
                        targets@[p],
                    ))
            },
            Err(e) => exists|p: int, f: int|
                {
                    &&& 0 <= p < targets@.len()
                    &&& 0 <= f < data.schema.fields@.len()
                    &&& #[trigger] blocked(*data, f, targets@[p])
                    &&& forall|q: int, g: int|
                        0 <= q < targets@.len() && 0 <= g < data.schema.fields@.len() && (q < p || q
                            == p && g < f) ==> !(#[trigger] blocked(*data, g, targets@[q]))
                    &&& blocks_with(*data, f, targets@[p], e)
                },
        },
{
    let mut queue: Vec<NewColumn> = Vec::new();
    let ghost fields = data.schema.fields@;
    let mut p: usize = 0;
    assert(column_places(queue@) =~= Seq::empty());
    while p < targets.len()
        invariant
            p <= targets@.len(),
            fields == data.schema.fields@,
            data.wf(),
            forall|p: int| 0 <= p < targets@.len() ==> target_ok(*data, #[trigger] targets@[p]),
            forall|f: int, j: int|
                0 <= f < fields.len() && #[trigger] input_column(*data, f, j) ==> filled(
                    data.columns@[j],
                ) && fields[j].data_type == fields[f].data_type,
            column_places(queue@) == lacking_in_all(fields, targets@, p as int),
            forall|k: int|
                0 <= k < queue@.len() ==> holds_input(#[trigger] queue@[k], *data, targets@),
            forall|q: int, f: int|
                0 <= q < p && 0 <= f < fields.len() ==> !(#[trigger] blocked(
                    *data,
                    f,
                    targets@[q],
                )),
        decreases targets.len() - p,
    {
        let target = &targets[p];
        let ghost before = column_places(queue@);
        let mut f: usize = 0;
        proof {
            assert(target_ok(*data, targets@[p as int]));
            assert(before + in_partition(p as int, lacking(fields, *target, 0)) =~= before);
        }
        while f < data.schema.fields.len()
            invariant
                f <= fields.len(),
                p < targets@.len(),
                fields == data.schema.fields@,
                *target == targets@[p as int],
                data.wf(),
                target_ok(*data, *target),
                forall|f: int, j: int|
                    0 <= f < fields.len() && #[trigger] input_column(*data, f, j) ==> filled(
                        data.columns@[j],
                    ) && fields[j].data_type == fields[f].data_type,
                column_places(queue@) == before + in_partition(
                    p as int,
                    lacking(fields, *target, f as int),
                ),
                forall|k: int|
                    0 <= k < queue@.len() ==> holds_input(#[trigger] queue@[k], *data, targets@),
                forall|g: int| 0 <= g < f ==> !(#[trigger] blocked(*data, g, *target)),
                forall|q: int, g: int|
                    0 <= q < p && 0 <= g < fields.len() ==> !(#[trigger] blocked(
                        *data,
                        g,
                        targets@[q],
                    )),
            decreases data.schema.fields.len() - f,
        {
            let field = &data.schema.fields[f];
            let ghost done = lacking(fields, *target, f as int);
            if is_plain(field) {
                match target.schema.position(field.name.as_str()) {
                    Some(at) => {
                        let found = target.schema.fields[at].data_type;
                        proof {
                            assert forall|j: int| #[trigger]
                                schema::first_named(target.schema.fields@, field.name@, j) implies j
                                == at by {
                                gather::lemma_first_named_unique(
                                    target.schema.fields@,
                                    field.name@,
                                    j,
                                    at as int,
                                );
                            }
                            assert(target.schema.fields@[at as int].name@ == field.name@);
                        }
                        if found != field.data_type {
                            let mut message = String::new();
                            message.append("field '");
                            message.append(field.name.as_str());
                            message.append("' exists with type ");
                            message.append(found.variant_str());
                            message.append(", but input has type ");
                            message.append(field.data_type.variant_str());
                            let e = TableError::Invalid(message);
                            proof {
                                assert(blocked(*data, f as int, targets@[p as int]));
                                assert(blocks_with(*data, f as int, targets@[p as int], e));
                            }
                            return Err(e);
                        }
                    },
                    None => {
                        let column = if target.writes.len() == 0 {
                            None
                        } else {
                            match copy_field(data, f, target) {
                                Ok(column) => Some(column),
                                Err(e) => {
                                    assert(blocked(*data, f as int, targets@[p as int]));
                                    return Err(e);
                                },
                            }
                        };
                        let ghost old_queue = queue@;
                        let new = NewColumn { partition: p, field: f, column };
                        queue.push(new);
                        proof {
                            assert(column_places(queue@) =~= column_places(old_queue).push(
                                (p as int, f as int),
                            ));
                            assert(in_partition(p as int, done.push(f as int)) =~= in_partition(
                                p as int,
                                done,
                            ).push((p as int, f as int)));
                            assert(before + in_partition(p as int, done.push(f as int)) =~= (before
                                + in_partition(p as int, done)).push((p as int, f as int)));
                            assert(holds_input(new, *data, targets@));
                        }
                    },
                }
            }
            f += 1;
        }
        p += 1;
    }
    Ok(queue)
}

/// Why field `f` cannot be brought to a partition.
pub open spec fn blocks_with(data: DataView<'_>, f: int, target: PartitionTarget, e: TableError) -> bool {
    let field = data.schema.fields@[f];
    if target.disagrees(field) {
        exists|j: int| #[trigger]
            schema::first_named(target.schema.fields@, field.name@, j) && e.says(
                disagrees_message(field, target.schema.fields@[j].data_type),
            )
    } else {
        exists|j: int, k: int|
            {
                &&& #[trigger] input_column(data, f, j)
                &&& #[trigger] stops_copy(data.columns@[j], target.writes@, k)
                &&& copy_error(data.columns@[j], target.writes@[k], field.name@, e)
            }
    }
}

/// Builds the new column of field `f` for a partition.
fn copy_field(data: &DataView<'_>, f: usize, target: &PartitionTarget) -> (r: Result<
    Column,
    TableError,
>)
    requires
        data.wf(),
        f < data.schema.fields@.len(),
        target_ok(*data, *target),
        target.lacks(data.schema.fields@[f as int]),
        target.writes@.len() > 0,
        forall|f: int, j: int|
            0 <= f < data.schema.fields@.len() && #[trigger] input_column(*data, f, j) ==> filled(
                data.columns@[j],
            ) && data.schema.fields@[j].data_type == data.schema.fields@[f].data_type,
    ensures
        match r {
            Ok(column) => {
                &&& forall|j: int| #[trigger]
                    input_column(*data, f as int, j) ==> aligned(
                        column,
                        data.columns@[j],
                        target.writes@,
                        data.schema.fields@[f as int].data_type,
                        target.row_count as nat,
                    )
                &&& !blocked(*data, f as int, *target)
            },
            Err(e) => {
                &&& blocked(*data, f as int, *target)
                &&& blocks_with(*data, f as int, *target, e)
            },
        },
{
    let field = &data.schema.fields[f];
    proof {
        let fields = data.schema.fields@;
        lemma_name_is_first(fields, f as int);
        assert forall|j: int| #[trigger]
            schema::first_named(fields, field.name@, j) implies filled(data.columns@[j])
            && data.columns@[j].spec_type() == field.data_type by {
            assert(input_column(*data, f as int, j));
        }
        assert(!target.disagrees(*field));
    }
    let r = build_aligned_column(
        data,
        target.writes.as_slice(),
        field.name.as_str(),
        field.data_type,
        target.row_count,
    );
    proof {
        let fields = data.schema.fields@;
        let j = choose|j: int| schema::first_named(fields, field.name@, j);
        assert(schema::first_named(fields, field.name@, j));
        assert(input_column(*data, f as int, j));
        assert forall|m: int| #[trigger] input_column(*data, f as int, m) implies m == j by {
            gather::lemma_first_named_unique(fields, field.name@, m, j);
        }
        assert(uncopyable(*data, f as int, *target) == (r is Err));
    }
    r
}

/// Every field has a first column with its name.
proof fn lemma_name_is_first(fields: Seq<FieldSchema>, f: int)
    requires
        0 <= f < fields.len(),
    ensures
        exists|j: int| schema::first_named(fields, fields[f].name@, j),
        schema::has_name(fields, fields[f].name@),
{
    lemma_first_upto(fields, fields[f].name@, f);
}

proof fn lemma_first_upto(fields: Seq<FieldSchema>, name: Seq<char>, f: int)
    requires
        0 <= f < fields.len(),
        fields[f].name@ == name,
    ensures
        exists|j: int| schema::first_named(fields, name, j),
    decreases f,
{
    if exists|i: int| 0 <= i < f && (#[trigger] fields[i]).name@ == name {
        let i = choose|i: int| 0 <= i < f && (#[trigger] fields[i]).name@ == name;
        lemma_first_upto(fields, name, i);
    } else {
        assert(schema::first_named(fields, name, f));
    }
}

/// Places and rows of writes go in pairs.
proof fn lemma_pairs(writes: Seq<RowWrite>)
    ensures
        places_filled(writes).len() == rows_taken(writes).len(),
    decreases writes.len(),
{
    if writes.len() > 0 {
        lemma_pairs(writes.drop_last());
    }
}

/// Write `n` brings row `r` of the input to place `g`.
pub open spec fn brings(writes: Seq<RowWrite>, n: int, r: int, g: int) -> bool {
    &&& 0 <= n < writes.len()
    &&& writes[n].0 <= g < writes[n].0 + writes[n].2
    &&& r - writes[n].1 == g - writes[n].0
}

proof fn lemma_brings(writes: Seq<RowWrite>, k: int) -> (n: int)
    requires
        0 <= k < places_filled(writes).len(),
    ensures
        brings(writes, n, rows_taken(writes)[k], places_filled(writes)[k]),
    decreases writes.len(),
{
    lemma_pairs(writes);
    let front = writes.drop_last();
    lemma_pairs(front);
    if k < places_filled(front).len() {
        let n = lemma_brings(front, k);
        assert(writes[n] == front[n]);
        n
    } else {
        writes.len() - 1
    }
}

/// Every row of the input is brought to the place that was found for it.
pub proof fn law_rows_brought_to_their_places(
    located: Seq<RowRange>,
    runs: Seq<RowSpan>,
    writes: Seq<RowWrite>,
    k: int,
)
    requires
        places_filled(writes) == places(located),
        rows_taken(writes) == gather::picked(runs),
        0 <= k < gather::picked(runs).len(),
    ensures
        exists|n: int| #[trigger]
            brings(writes, n, gather::picked(runs)[k], places(located)[k]),
{
    lemma_pairs(writes);
    let n = lemma_brings(writes, k);
    assert(brings(writes, n, gather::picked(runs)[k], places(located)[k]));
}

proof fn lemma_source_row(writes: Seq<RowWrite>, k: int)
    requires
        places_filled(writes).no_duplicates(),
        0 <= k < places_filled(writes).len(),
    ensures
        source_row(writes, places_filled(writes)[k]) == Some(rows_taken(writes)[k]),
    decreases writes.len(),
{
    let all = places_filled(writes);
    let front = writes.drop_last();
    let before = places_filled(front);
    let w = writes.last();
    lemma_pairs(writes);
    lemma_pairs(front);
    if k < before.len() {
        assert(before.no_duplicates()) by {
            assert forall|i: int, j: int|
                0 <= i < before.len() && 0 <= j < before.len() && i != j implies before[i]
                != before[j] by {
                assert(all[i] == before[i] && all[j] == before[j]);
            }
        }
        lemma_source_row(front, k);
        if w.0 <= all[k] < w.0 + w.2 {
            let d = all[k] - w.0;
            assert(all[before.len() + d] == w.0 + d);
        }
    }
}

proof fn lemma_no_source(writes: Seq<RowWrite>, g: int)
    requires
        !places_filled(writes).contains(g),
    ensures
        source_row(writes, g) is None,
    decreases writes.len(),
{
    if writes.len() > 0 {
        let all = places_filled(writes);
        let before = places_filled(writes.drop_last());
        let w = writes.last();
        if before.contains(g) {
            let i = choose|i: int| 0 <= i < before.len() && before[i] == g;
            assert(all[i] == g);
        }
        lemma_no_source(writes.drop_last(), g);
        if w.0 <= g < w.0 + w.2 {
            assert(all[before.len() + (g - w.0)] == g);
        }
    }
}

/// A new column has in each place the value of the row that was brought there, where no two
/// rows go to one place, and no value where no row was brought.
pub proof fn law_new_column_holds_rows(
    out: Column,
    src: ColumnView<'_>,
    writes: Seq<RowWrite>,
    data_type: DataType,
    rows: nat,
    g: int,
)
    requires
        aligned(out, src, writes, data_type, rows),
        places_filled(writes).no_duplicates(),
        0 <= g < rows,
    ensures
        (out.validity->0)@[g] == places_filled(writes).contains(g),
        forall|k: int|
            0 <= k < places_filled(writes).len() && #[trigger] places_filled(writes)[k] == g
                ==> buffer::group(out.values@, g, data_type.width()) == src.cell(
                rows_taken(writes)[k],
            )->0,
{
    assert(buffer::group(out.values@, g, data_type.width()) == place_value(
        src,
        writes,
        g,
        data_type.width(),
    ));
    if places_filled(writes).contains(g) {
        assert forall|k: int|
            0 <= k < places_filled(writes).len() && #[trigger] places_filled(writes)[k]
                == g implies source_row(writes, g) == Some(rows_taken(writes)[k]) by {
            lemma_source_row(writes, k);
        }
        let k = choose|k: int|
            0 <= k < places_filled(writes).len() && places_filled(writes)[k] == g;
        assert(places_filled(writes)[k] == g);
    } else {
        lemma_no_source(writes, g);
    }
}

/// The symbol of a row is the text whose bytes in UTF-8 the row holds.
pub proof fn law_symbol_of_bytes(view: ColumnView<'_>, i: int, s: Seq<char>)
    ensures
        view.text_bytes(i) == Some(utf8::encode_utf8(s)) <==> sym_at(view, i) == Some(s),
        view.text_bytes(i) is None ==> sym_at(view, i) is None,
{
    broadcast use {
        utf8::encode_utf8_decode_utf8,
        utf8::decode_utf8_encode_utf8,
        utf8::encode_utf8_valid_utf8,
    };

    assert(utf8::valid_utf8(utf8::encode_utf8(s)));
    assert(utf8::decode_utf8(utf8::encode_utf8(s)) == s);
    if let Some(bytes) = view.text_bytes(i) {
        if utf8::valid_utf8(bytes) {
            assert(utf8::encode_utf8(utf8::decode_utf8(bytes)) == bytes);
        }
    }
}

/// A row can be used as a key exactly where it has a symbol and a time.
pub proof fn law_rows_with_keys(sym: ColumnView<'_>, time: ColumnView<'_>, i: int)
    ensures
        time_complaint(time, i) is None <==> table::has_time(time, i),
        has_key(sym, time, i) <==> sym_at(sym, i) is Some && table::has_time(time, i),
        table::has_time(time, i) <==> (column::row_in(time.spec_segments(), i) matches Some(
            (segment, _),
        ) && segment.spec_values() is Fixed) && (time.spec_type() is Date32 || time.spec_type()
            is Int32 || time.spec_type() is TimestampUs || time.spec_type() is Date64
            || time.spec_type() is Int64),
        i == 0 ==> (row_complaint(sym, time, i) is None <==> has_key(sym, time, i)),
{
}

/// Rows can be written to a partition that is there; to a table that is not split, only rows
/// without the name of a partition.
pub proof fn law_writable(name: Seq<char>, scheme: PartitionScheme, existing: Seq<String>, k: int)
    ensures
        scheme is Unpartitioned ==> (unwritable(name, scheme, existing) <==> name.len() != 0),
        scheme !is Unpartitioned && 0 <= k < existing.len() && existing[k]@ == name ==> !unwritable(
            name,
            scheme,
            existing,
        ),
        scheme !is Unpartitioned && (forall|i: int|
            0 <= i < existing.len() ==> (#[trigger] existing[i])@ != name) ==> unwritable(
            name,
            scheme,
            existing,
        ),
{
    let texts = text::texts(existing);
    if 0 <= k < existing.len() {
        assert(texts[k] == existing[k]@);
    }
    if texts.contains(name) {
        let i = choose|i: int| 0 <= i < texts.len() && texts[i] == name;
        assert(existing[i]@ == name);
    }
}

/// The places of ranges are those of the ranges one after the other, and those of one range
/// count up from where it starts.
pub proof fn law_places_in_order(a: Seq<RowRange>, b: Seq<RowRange>, i: int)
    ensures
        places(a + b) == places(a) + places(b),
        places_in(a + b) == places_in(a) + places_in(b),
        places_in(a) == places(a).len(),
        a.len() == 0 ==> places(a).len() == 0,
        a.len() == 1 ==> places(a).len() == a[0].length && (0 <= i < a[0].length ==> places(a)[i]
            == a[0].offset + i),
    decreases a.len() + b.len(),
{
    reveal_with_fuel(places, 2);
    reveal_with_fuel(places_in, 2);
    if a.len() > 0 {
        law_places_in_order(a.drop_last(), Seq::empty(), i);
    }
    if b.len() == 0 {
        assert(a + b =~= a);
        assert(places(a) + places(b) =~= places(a));
    } else {
        law_places_in_order(a, b.drop_last(), i);
        assert((a + b).drop_last() =~= a + b.drop_last());
        assert(places(a + b) =~= places(a) + places(b));
    }
}

/// The places that writes fill and the rows that they take are those of the writes one after
/// the other, and both count up from where a write starts; of writes to one place the last
/// counts, and a place that none fills gets no row.
pub proof fn law_writes_in_order(a: Seq<RowWrite>, b: Seq<RowWrite>, i: int, g: int)
    ensures
        places_filled(a + b) == places_filled(a) + places_filled(b),
        rows_taken(a + b) == rows_taken(a) + rows_taken(b),
        a.len() == 1 && 0 <= i < a[0].2 ==> places_filled(a)[i] == a[0].0 + i && rows_taken(a)[i]
            == a[0].1 + i && source_row(a, a[0].0 + i) == Some(a[0].1 + i),
        a.len() == 1 ==> places_filled(a).len() == a[0].2 && rows_taken(a).len() == a[0].2,
        a.len() == 1 && !(a[0].0 <= g < a[0].0 + a[0].2) ==> source_row(a, g) is None,
        a.len() == 0 ==> source_row(a, g) is None,
        source_row(b, g) is Some ==> source_row(a + b, g) == source_row(b, g),
        source_row(b, g) is None ==> source_row(a + b, g) == source_row(a, g),
    decreases b.len(),
{
    reveal_with_fuel(places_filled, 2);
    reveal_with_fuel(rows_taken, 2);
    reveal_with_fuel(source_row, 2);
    if b.len() == 0 {
        assert(a + b =~= a);
        assert(places_filled(a) + places_filled(b) =~= places_filled(a));
        assert(rows_taken(a) + rows_taken(b) =~= rows_taken(a));
    } else {
        law_writes_in_order(a, b.drop_last(), i, g);
        assert((a + b).drop_last() =~= a + b.drop_last());
        assert(places_filled(a + b) =~= places_filled(a) + places_filled(b));
        assert(rows_taken(a + b) =~= rows_taken(a) + rows_taken(b));
    }
}

/// A partition lacks a field that is neither symbol nor time and of whose name it has no
/// column; it disagrees with one that it has with another type.
pub proof fn law_lacking_fields(
    fields: Seq<FieldSchema>,
    target: PartitionTarget,
    n: int,
    f: int,
    j: int,
)
    requires
        0 <= n <= fields.len(),
        0 <= f < fields.len(),
    ensures
        lacking(fields, target, n).contains(f) <==> f < n && target.lacks(fields[f]),
        target.lacks(fields[f]) <==> fields[f].name@ != "sym"@ && fields[f].name@ != "time"@
            && forall|k: int|
            0 <= k < target.schema.fields@.len() ==> #[trigger] target.schema.fields@[k].name@
                != fields[f].name@,
        fields[f].name@ != "sym"@ && fields[f].name@ != "time"@ && schema::first_named(
            target.schema.fields@,
            fields[f].name@,
            j,
        ) ==> (target.disagrees(fields[f]) <==> target.schema.fields@[j].data_type
            != fields[f].data_type),
        fields[f].name@ == "sym"@ || fields[f].name@ == "time"@ ==> !target.disagrees(fields[f]),
        target.lacks(fields[f]) ==> !target.disagrees(fields[f]),
    decreases n,
{
    if n > 0 {
        law_lacking_fields(fields, target, n - 1, f, j);
        let (front, all) = (lacking(fields, target, n - 1), lacking(fields, target, n));
        if target.lacks(fields[n - 1]) {
            assert(all[front.len() as int] == n - 1);
            if front.contains(f) {
                let k = choose|k: int| 0 <= k < front.len() && front[k] == f;
                assert(all[k] == f);
            }
            if all.contains(f) && f != n - 1 {
                let k = choose|k: int| 0 <= k < all.len() && all[k] == f;
                assert(front[k] == f);
            }
        }
    }
    if target.disagrees(fields[f]) {
        let k = choose|k: int| #[trigger]
            schema::first_named(target.schema.fields@, fields[f].name@, k)
                && target.schema.fields@[k].data_type != fields[f].data_type;
        assert(target.schema.fields@[k].name@ == fields[f].name@);
        if schema::first_named(target.schema.fields@, fields[f].name@, j) {
            if k < j {
                assert(target.schema.fields@[k].name@ != fields[f].name@);
            }
            if j < k {
                assert(target.schema.fields@[j].name@ != fields[f].name@);
            }
        }
    }
}

/// The fields beside symbol and time are taken in their order, and only they.
pub proof fn law_plain_in_order(fields: Seq<FieldSchema>, n: int)
    requires
        0 < n <= fields.len(),
    ensures
        plain_upto(fields, 0).len() == 0,
        fields[n - 1].name@ == "sym"@ || fields[n - 1].name@ == "time"@ ==> plain_upto(fields, n)
            == plain_upto(fields, n - 1),
        fields[n - 1].name@ != "sym"@ && fields[n - 1].name@ != "time"@ ==> plain_upto(fields, n)
            == plain_upto(fields, n - 1) + seq![fields[n - 1]],
{
    assert(plain_upto(fields, n - 1).push(fields[n - 1]) =~= plain_upto(fields, n - 1) + seq![
        fields[n - 1],
    ]);
}

/// The fields that are lacking are listed by partition: a partition and a field are listed
/// exactly where the partition lacks the field, and partition by partition.
pub proof fn law_lacking_listed(
    fields: Seq<FieldSchema>,
    targets: Seq<PartitionTarget>,
    n: int,
    p: int,
    f: int,
)
    requires
        0 <= n <= targets.len(),
        0 <= f < fields.len(),
        0 <= p < targets.len(),
    ensures
        lacking_in_all(fields, targets, n).contains((p, f)) <==> p < n && targets[p].lacks(fields[f]),
    decreases n,
{
    if n > 0 {
        law_lacking_listed(fields, targets, n - 1, p, f);
        let front = lacking_in_all(fields, targets, n - 1);
        let own = lacking(fields, targets[n - 1], fields.len() as int);
        let all = lacking_in_all(fields, targets, n);
        law_lacking_fields(fields, targets[n - 1], fields.len() as int, f, 0);
        if all.contains((p, f)) {
            let k = choose|k: int| 0 <= k < all.len() && all[k] == (p, f);
            if k < front.len() {
                assert(front[k] == (p, f));
                assert(front.contains((p, f)));
            } else {
                assert(own[k - front.len()] == f);
                assert(own.contains(f));
            }
        }
        if p < n && targets[p].lacks(fields[f]) {
            if p < n - 1 {
                let k = choose|k: int| 0 <= k < front.len() && front[k] == (p, f);
                assert(all[k] == (p, f));
            } else {
                let k = choose|k: int| 0 <= k < own.len() && own[k] == f;
                assert(in_partition(n - 1, own)[k] == (p, f));
                assert(all[front.len() + k] == (p, f));
            }
        }
    }
}

/// A new column holds in the row that a write fills the bytes of the row of the input that the
/// write brings there, and in a row that none fills nothing; a partition without writes gets
/// no column.
pub proof fn law_new_column_from_input(
    new: NewColumn,
    data: DataView<'_>,
    targets: Seq<PartitionTarget>,
    j: int,
    g: int,
    n: int,
    i: int,
)
    requires
        holds_input(new, data, targets),
        input_column(data, new.field as int, j),
        places_filled(targets[new.partition as int].writes@).no_duplicates(),
        0 <= g < targets[new.partition as int].row_count,
    ensures
        new.column is Some <==> targets[new.partition as int].writes@.len() > 0,
        new.column matches Some(column) ==> {
            &&& column.data_type == data.schema.fields@[new.field as int].data_type
            &&& column.validity matches Some(v) && (v@[g] <==> places_filled(
                targets[new.partition as int].writes@,
            ).contains(g))
            &&& 0 <= i < places_filled(targets[new.partition as int].writes@).len()
                && places_filled(targets[new.partition as int].writes@)[i] == g ==> buffer::group(
                column.values@,
                g,
                data.schema.fields@[new.field as int].data_type.width(),
            ) == data.columns@[j].cell(rows_taken(targets[new.partition as int].writes@)[i])->0
        },
{
    if let Some(column) = new.column {
        let target = targets[new.partition as int];
        let t = data.schema.fields@[new.field as int].data_type;
        assert(aligned(column, data.columns@[j], target.writes@, t, target.row_count as nat));
        law_new_column_holds_rows(
            column,
            data.columns@[j],
            target.writes@,
            t,
            target.row_count as nat,
            g,
        );
    }
}

/// A write cannot be cut where it takes no rows, or rows behind the last; and what is said of
/// rows that cannot be written is said of the first of them.
pub proof fn law_rows_cut_for_write(src: ColumnView<'_>, writes: Seq<RowWrite>, k: int, j: int)
    ensures
        0 <= k < writes.len() && writes[k].2 == 0 ==> uncut(src, writes[k]),
        0 <= k < writes.len() && writes[k].1 + writes[k].2 > src.spec_length() ==> uncut(
            src,
            writes[k],
        ),
        0 <= k < writes.len() && 0 < writes[k].2 && writes[k].1 + writes[k].2 <= src.spec_length()
            && (forall|n: int|
            0 <= n < src.spec_segments().len() ==> (
            #[trigger] src.spec_segments()[n]).spec_validity() is None) ==> !uncut(src, writes[k]),
        stops_copy(src, writes, k) && stops_copy(src, writes, j) ==> k == j,
        0 <= j < writes.len() && (uncut(src, writes[j]) || unfixed(src, writes[j])) && stops_copy(
            src,
            writes,
            k,
        ) ==> k <= j,
{
    if 0 <= k < writes.len() && bitmap_short(src, writes[k].1 as int, writes[k].1 + writes[k].2) {
        let (lo, hi) = (writes[k].1 as int, writes[k].1 + writes[k].2);
        let n = choose|n: int|
            {
                &&& #[trigger] column::touches(src.spec_segments(), n, lo, hi)
                &&& column::short(
                    src.spec_segments()[n],
                    column::part_hi(src.spec_segments(), n, hi),
                )
            };
        assert(src.spec_segments()[n].spec_validity() is Some);
    }
    if stops_copy(src, writes, k) && 0 <= j < k {
        assert(!uncut(src, writes[j]) && !unfixed(src, writes[j]));
    }
    if stops_copy(src, writes, j) && 0 <= k < j {
        assert(!uncut(src, writes[k]) && !unfixed(src, writes[k]));
    }
}

/// A row has a key where it has a symbol and a time, and the key is the two; the keys of a
/// table are in its first columns named for them.
pub proof fn law_key_of_row(
    pair: (&str, i64),
    other: (&str, i64),
    sym: ColumnView<'_>,
    time: ColumnView<'_>,
    i: int,
)
    requires
        is_key(pair, sym, time, i),
        is_key(other, sym, time, i),
    ensures
        pair.0@ == other.0@,
        pair.1 == other.1,
        sym_at(sym, i) == Some(pair.0@),
        table::time_at(time, i) == pair.1,
        table::has_time(time, i),
{
}

/// The keys of rows are in the first column named for symbols and the first named for times.
pub proof fn law_keys_in_first_columns(data: DataView<'_>, s: int, t: int, j: int)
    requires
        keyed_by(data, s, t),
    ensures
        0 <= s < data.schema.fields@.len() && data.schema.fields@[s].name@ == "sym"@,
        0 <= t < data.schema.fields@.len() && data.schema.fields@[t].name@ == "time"@,
        0 <= j < s ==> data.schema.fields@[j].name@ != "sym"@,
        0 <= j < t ==> data.schema.fields@[j].name@ != "time"@,
{
}

/// The rows that are taken for a write are those of the input that it names, from its first
/// on, each with its values, under the names and types of the fields that are written.
pub proof fn law_rows_for_write(
    out: DataView<'_>,
    data: DataView<'_>,
    fields: Seq<FieldSchema>,
    at: Seq<usize>,
    w: RowWrite,
    k: int,
    i: int,
)
    requires
        cut_for_write(out, data, fields, at, w),
        columns_for(at, fields, data.schema.fields@),
        0 <= k < at.len(),
        0 <= i < w.2,
    ensures
        out.columns@[k].cell(i) == data.columns@[at[k] as int].cell(w.1 + i),
        out.columns@[k].spec_length() == w.2,
        out.schema.fields@[k].name@ == data.schema.fields@[at[k] as int].name@,
        data.columns@[at[k] as int].counted(w.1 + i) ==> out.columns@[k].row_valid(i)
            == data.columns@[at[k] as int].row_valid(w.1 + i),
{
    assert(column::rows_of(
        out.columns@[k],
        data.columns@[at[k] as int],
        w.1 as int,
        w.2 as nat,
    ));
    assert(schema::first_named(data.schema.fields@, fields[k].name@, at[k] as int));
}

/// Rows that cannot be cut are an error of the format; rows that can, but whose values are not
/// of one width, are an invalid request that names the column.
pub proof fn law_copy_errors_apart(src: ColumnView<'_>, w: RowWrite, name: Seq<char>, e: TableError)
    requires
        copy_error(src, w, name, e),
    ensures
        w.2 == 0 || w.1 + w.2 > src.spec_length() ==> e is Format,
        e is Format <==> uncut(src, w),
        e matches TableError::Invalid(m) ==> exists|a: Seq<char>, b: Seq<char>|
            m@ == #[trigger] (a + name + b),
{
    if !uncut(src, w) {
        assert(fixed_only_message(name)
            == "create_table_columns supports fixed-width columns only (column '"@ + name + "')"@);
    }
}

} // verus!

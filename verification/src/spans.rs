//! Spreading the rows of a table over partitions.

use vstd::prelude::*;
use crate::buffer;
use crate::column;
use crate::column::{Column, ColumnView};
use crate::dataview::Data;
use crate::gather;
use crate::gather::RowSpan;
use crate::le;
use crate::partition;
use crate::partition::PartitionScheme;
use crate::schema;
use crate::table;
use crate::table::TableError;
use crate::text;
use crate::text::Relation;
use crate::types::TimeType;

verus! {

/// The longest runs of rows with equal keys.
pub open spec fn spans_of(keys: Seq<int>) -> Seq<RowSpan>
    decreases keys.len(),
{
    if keys.len() == 0 {
        Seq::empty()
    } else {
        let front = spans_of(keys.drop_last());
        if keys.len() >= 2 && keys.last() == keys[keys.len() - 2] {
            front.drop_last().push((front.last().0, (front.last().1 + 1) as usize))
        } else {
            front.push(((keys.len() - 1) as usize, 1))
        }
    }
}

/// The runs whose first row has that name.
pub open spec fn spans_named(
    spans: Seq<RowSpan>,
    names: Seq<Seq<char>>,
    name: Seq<char>,
) -> Seq<RowSpan>
    decreases spans.len(),
{
    if spans.len() == 0 {
        Seq::empty()
    } else {
        let front = spans_named(spans.drop_last(), names, name);
        if names[spans.last().0 as int] == name {
            front.push(spans.last())
        } else {
            front
        }
    }
}

/// Runs sorted into partitions by name: each name that occurs once, in text order.
#[verifier::opaque]
pub open spec fn filed(
    buckets: Seq<(String, Vec<RowSpan>)>,
    spans: Seq<RowSpan>,
    names: Seq<Seq<char>>,
) -> bool {
    &&& forall|i: int, j: int|
        0 <= i < j < buckets.len() ==> text::text_before(
            (#[trigger] buckets[i]).0@,
            (#[trigger] buckets[j]).0@,
        )
    &&& forall|i: int|
        0 <= i < buckets.len() ==> (#[trigger] buckets[i]).1@ == spans_named(
            spans,
            names,
            buckets[i].0@,
        ) && buckets[i].1@.len() > 0
    &&& forall|k: int|
        0 <= k < spans.len() ==> has_bucket(buckets, names[(#[trigger] spans[k]).0 as int])
}

/// Some partition has that name.
pub open spec fn has_bucket(buckets: Seq<(String, Vec<RowSpan>)>, name: Seq<char>) -> bool {
    exists|i: int| 0 <= i < buckets.len() && (#[trigger] buckets[i]).0@ == name
}

/// Runs of other names do not change the runs of a name.
proof fn lemma_spans_named_push(
    spans: Seq<RowSpan>,
    names: Seq<Seq<char>>,
    name: Seq<char>,
    span: RowSpan,
)
    ensures
        spans_named(spans.push(span), names, name) == if names[span.0 as int] == name {
            spans_named(spans, names, name).push(span)
        } else {
            spans_named(spans, names, name)
        },
{
    assert(spans.push(span).drop_last() =~= spans);
}

/// A name that no partition has names no run.
proof fn lemma_unfiled(
    buckets: Seq<(String, Vec<RowSpan>)>,
    spans: Seq<RowSpan>,
    names: Seq<Seq<char>>,
    name: Seq<char>,
)
    requires
        forall|k: int|
            0 <= k < spans.len() ==> has_bucket(buckets, names[(#[trigger] spans[k]).0 as int]),
        !has_bucket(buckets, name),
    ensures
        spans_named(spans, names, name) == Seq::<RowSpan>::empty(),
    decreases spans.len(),
{
    if spans.len() > 0 {
        assert(has_bucket(buckets, names[spans[spans.len() - 1].0 as int]));
        assert forall|k: int| 0 <= k < spans.drop_last().len() implies has_bucket(
            buckets,
            names[(#[trigger] spans.drop_last()[k]).0 as int],
        ) by {
            assert(spans.drop_last()[k] == spans[k]);
        }
        lemma_unfiled(buckets, spans.drop_last(), names, name);
    }
}

/// Adds a run to the partition of its name.
fn file_span(
    buckets: &mut Vec<(String, Vec<RowSpan>)>,
    name: String,
    span: RowSpan,
    Ghost(spans): Ghost<Seq<RowSpan>>,
    Ghost(names): Ghost<Seq<Seq<char>>>,
)
    requires
        filed(old(buckets)@, spans, names),
        name@ == names[span.0 as int],
    ensures
        filed(final(buckets)@, spans.push(span), names),
{
    proof {
        reveal(filed);
    }
    let ghost before = buckets@;
    let ghost grown = spans.push(span);
    let mut k: usize = 0;
    while k < buckets.len()
        invariant
            k <= buckets@.len(),
            buckets@ == before,
            filed(before, spans, names),
            name@ == names[span.0 as int],
            grown == spans.push(span),
            forall|i: int|
                0 <= i < k ==> text::text_before((#[trigger] before[i]).0@, name@),
        ensures
            k <= buckets@.len(),
            buckets@ == before,
            forall|i: int|
                0 <= i < k ==> text::text_before((#[trigger] before[i]).0@, name@),
            forall|i: int|
                k <= i < before.len() ==> text::text_before(name@, (#[trigger] before[i]).0@),
        decreases buckets.len() - k,
    {
        proof {
            reveal(filed);
        }
        match text::relate(buckets[k].0.as_str(), name.as_str()) {
            Relation::Before => {},
            Relation::Same => {
                let mut bucket = buckets.remove(k);
                bucket.1.push(span);
                let ghost changed = bucket;
                buckets.insert(k, bucket);
                proof {
                    let k = k as int;
                    assert(buckets@ =~= before.update(k, changed));
                    assert forall|i: int| 0 <= i < buckets@.len() implies (
                    #[trigger] buckets@[i]).1@ == spans_named(grown, names, buckets@[i].0@)
                        && buckets@[i].1@.len() > 0 by {
                        lemma_spans_named_push(spans, names, buckets@[i].0@, span);
                        assert(before[i].0@ == buckets@[i].0@);
                        if i < k {
                            assert(text::text_before(before[i].0@, before[k].0@));
                            text::lemma_text_before_order(before[i].0@, before[k].0@);
                        }
                        if k < i {
                            assert(text::text_before(before[k].0@, before[i].0@));
                            text::lemma_text_before_order(before[k].0@, before[i].0@);
                        }
                    }
                    assert forall|j: int| 0 <= j < grown.len() implies has_bucket(
                        buckets@,
                        names[(#[trigger] grown[j]).0 as int],
                    ) by {
                        if j < spans.len() {
                            assert(grown[j] == spans[j]);
                            assert(has_bucket(before, names[spans[j].0 as int]));
                            let i = choose|i: int|
                                0 <= i < before.len() && (#[trigger] before[i]).0@
                                    == names[spans[j].0 as int];
                            assert(buckets@[i].0@ == before[i].0@);
                        } else {
                            assert(buckets@[k].0@ == name@);
                        }
                    }
                    assert forall|i: int, j: int| 0 <= i < j < buckets@.len() implies
                        text::text_before(
                        (#[trigger] buckets@[i]).0@,
                        (#[trigger] buckets@[j]).0@,
                    ) by {
                        assert(buckets@[i].0@ == before[i].0@);
                        assert(buckets@[j].0@ == before[j].0@);
                        assert(text::text_before(before[i].0@, before[j].0@));
                    }
                }
                return;
            },
            Relation::After => {
                proof {
                    assert forall|i: int| k <= i < before.len() implies text::text_before(
                        name@,
                        (#[trigger] before[i]).0@,
                    ) by {
                        if k < i {
                            assert(text::text_before(before[k as int].0@, before[i].0@));
                            text::lemma_text_before_transitive(
                                name@,
                                before[k as int].0@,
                                before[i].0@,
                            );
                        }
                    }
                }
                break;
            },
        }
        k += 1;
    }
    proof {
        if has_bucket(before, name@) {
            let i = choose|i: int| 0 <= i < before.len() && (#[trigger] before[i]).0@ == name@;
            text::lemma_text_before_order(before[i].0@, name@);
        }
        lemma_unfiled(before, spans, names, name@);
    }
    let ghost title = name@;
    let mut runs: Vec<RowSpan> = Vec::new();
    runs.push(span);
    let bucket = (name, runs);
    buckets.insert(k, bucket);
    proof {
        let k = k as int;
        assert(buckets@ =~= before.insert(k, bucket));
        assert forall|i: int| 0 <= i < buckets@.len() implies (#[trigger] buckets@[i]).1@
            == spans_named(grown, names, buckets@[i].0@) && buckets@[i].1@.len() > 0 by {
            lemma_spans_named_push(spans, names, buckets@[i].0@, span);
            if i < k {
                assert(buckets@[i] == before[i]);
                text::lemma_text_before_order(before[i].0@, title);
            } else if i > k {
                assert(buckets@[i] == before[i - 1]);
                text::lemma_text_before_order(title, before[i - 1].0@);
            } else {
                assert(buckets@[i] == bucket);
                assert(bucket.1@ =~= seq![span]);
                assert(spans_named(grown, names, title) =~= seq![span]);
            }
        }
        assert forall|j: int| 0 <= j < grown.len() implies has_bucket(
            buckets@,
            names[(#[trigger] grown[j]).0 as int],
        ) by {
            if j < spans.len() {
                assert(grown[j] == spans[j]);
                assert(has_bucket(before, names[spans[j].0 as int]));
                let i = choose|i: int|
                    0 <= i < before.len() && (#[trigger] before[i]).0@ == names[spans[j].0 as int];
                if i < k {
                    assert(buckets@[i] == before[i]);
                } else {
                    assert(buckets@[i + 1] == before[i]);
                }
            } else {
                assert(buckets@[k].0@ == title);
            }
        }
        assert forall|i: int, j: int| 0 <= i < j < buckets@.len() implies text::text_before(
            (#[trigger] buckets@[i]).0@,
            (#[trigger] buckets@[j]).0@,
        ) by {
            let a = if i < k {
                before[i]
            } else if i == k {
                bucket
            } else {
                before[i - 1]
            };
            let b = if j < k {
                before[j]
            } else if j == k {
                bucket
            } else {
                before[j - 1]
            };
            assert(buckets@[i] == a && buckets@[j] == b);
            if i != k && j != k {
                let i0 = if i < k {
                    i
                } else {
                    i - 1
                };
                let j0 = if j < k {
                    j
                } else {
                    j - 1
                };
                assert(text::text_before(before[i0].0@, before[j0].0@));
            }
        }
    }
}

/// The last run ends with the last row, and starts with the same key.
proof fn lemma_last_span(keys: Seq<int>)
    requires
        0 < keys.len() <= usize::MAX,
    ensures
        spans_of(keys).len() > 0,
        spans_of(keys).last().1 >= 1,
        spans_of(keys).last().0 + spans_of(keys).last().1 == keys.len(),
        keys[spans_of(keys).last().0 as int] == keys.last(),
    decreases keys.len(),
{
    reveal_with_fuel(spans_of, 2);
    if keys.len() >= 2 {
        lemma_last_span(keys.drop_last());
    }
}

/// The rows with that name, in order.
pub open spec fn rows_named(names: Seq<Seq<char>>, name: Seq<char>) -> Seq<int>
    decreases names.len(),
{
    if names.len() == 0 {
        Seq::empty()
    } else {
        let front = rows_named(names.drop_last(), name);
        if names.last() == name {
            front.push(names.len() - 1)
        } else {
            front
        }
    }
}

/// Rows with equal keys have equal names.
pub open spec fn keys_tell_names(keys: Seq<int>, names: Seq<Seq<char>>) -> bool {
    &&& keys.len() == names.len()
    &&& forall|i: int, j: int|
        0 <= i < keys.len() && 0 <= j < keys.len() && #[trigger] keys[i] == #[trigger] keys[j]
            ==> names[i] == names[j]
}

/// The runs of a partition hold the rows with its name, in order, and no others.
pub proof fn law_partition_rows(keys: Seq<int>, names: Seq<Seq<char>>, name: Seq<char>)
    requires
        keys_tell_names(keys, names),
        keys.len() <= usize::MAX,
    ensures
        gather::picked(spans_named(spans_of(keys), names, name)) == rows_named(names, name),
    decreases keys.len(),
{
    let spans = spans_of(keys);
    let mine = spans_named(spans, names, name);
    if keys.len() > 0 {
        let n = keys.len() - 1;
        let fewer = keys.drop_last();
        let front = spans_of(fewer);
        let fewer_names = names.drop_last();
        assert forall|i: int, j: int|
            0 <= i < fewer.len() && 0 <= j < fewer.len() && #[trigger] fewer[i]
                == #[trigger] fewer[j] implies fewer_names[i] == fewer_names[j] by {
            assert(keys[i] == fewer[i] && keys[j] == fewer[j]);
        }
        law_partition_rows(fewer, fewer_names, name);
        lemma_spans_in_range(fewer);
        lemma_named_agree(front, names, fewer_names, name);
        let before = spans_named(front, names, name);
        if keys.len() >= 2 && keys.last() == keys[n - 1] {
            lemma_last_span(fewer);
            let last = front.last();
            let longer = (last.0, (last.1 + 1) as usize);
            assert(names[last.0 as int] == names[n]) by {
                assert(keys[last.0 as int] == fewer[last.0 as int]);
                assert(keys[last.0 as int] == keys[n]);
            }
            let rest = front.drop_last();
            assert(front =~= rest.push(last));
            lemma_spans_named_push(rest, names, name, last);
            lemma_spans_named_push(rest, names, name, longer);
            if names[n] == name {
                let kept = spans_named(rest, names, name);
                assert(kept.push(last).drop_last() =~= kept);
                assert(kept.push(longer).drop_last() =~= kept);
                assert(gather::picked(kept.push(longer)) =~= gather::picked(kept.push(last)).push(
                    n,
                ));
            }
        } else {
            let single = (n as usize, 1usize);
            lemma_spans_named_push(front, names, name, single);
            if names[n] == name {
                assert(before.push(single).drop_last() =~= before);
                assert(gather::picked(before.push(single)) =~= gather::picked(before).push(n));
            }
        }
    } else {
        assert(mine.len() == 0);
    }
}

/// Runs start at rows.
proof fn lemma_spans_in_range(keys: Seq<int>)
    requires
        keys.len() <= usize::MAX,
    ensures
        forall|k: int| 0 <= k < spans_of(keys).len() ==> (#[trigger] spans_of(keys)[k]).0 < keys.len(),
    decreases keys.len(),
{
    if keys.len() > 0 {
        let fewer = keys.drop_last();
        lemma_spans_in_range(fewer);
        if fewer.len() > 0 {
            lemma_last_span(fewer);
        }
        assert forall|k: int| 0 <= k < spans_of(keys).len() implies (#[trigger] spans_of(keys)[k]).0
            < keys.len() by {
            if k < spans_of(fewer).len() {
                assert(spans_of(keys)[k].0 == spans_of(fewer)[k].0);
            }
        }
    }
}

/// Only the names of the rows that runs start with matter.
proof fn lemma_named_agree(
    spans: Seq<RowSpan>,
    names: Seq<Seq<char>>,
    fewer: Seq<Seq<char>>,
    name: Seq<char>,
)
    requires
        forall|k: int|
            0 <= k < spans.len() ==> names[(#[trigger] spans[k]).0 as int]
                == fewer[spans[k].0 as int],
    ensures
        spans_named(spans, names, name) == spans_named(spans, fewer, name),
    decreases spans.len(),
{
    if spans.len() > 0 {
        assert forall|k: int| 0 <= k < spans.drop_last().len() implies names[(
        #[trigger] spans.drop_last()[k]).0 as int] == fewer[spans.drop_last()[k].0 as int] by {
            assert(spans.drop_last()[k] == spans[k]);
        }
        lemma_named_agree(spans.drop_last(), names, fewer, name);
        assert(spans.last() == spans[spans.len() - 1]);
    }
}

/// A row is among those with its name.
pub proof fn lemma_rows_named(names: Seq<Seq<char>>, name: Seq<char>, i: int)
    ensures
        rows_named(names, name).contains(i) == (0 <= i < names.len() && names[i] == name),
    decreases names.len(),
{
    if names.len() > 0 {
        let front = names.drop_last();
        let rows = rows_named(names, name);
        let fewer = rows_named(front, name);
        lemma_rows_named(front, name, i);
        if rows.contains(i) {
            let k = rows.index_of(i);
            if k < fewer.len() {
                assert(fewer[k] == i);
            }
        }
        if 0 <= i < names.len() && names[i] == name {
            if i < names.len() - 1 {
                assert(front[i] == names[i]);
                let k = fewer.index_of(i);
                assert(rows[k] == i);
            } else {
                assert(rows[rows.len() - 1] == i);
            }
        }
    }
}

/// Every row is in one partition, the one with its name.
pub proof fn law_every_row_placed(
    buckets: Seq<(String, Vec<RowSpan>)>,
    keys: Seq<int>,
    names: Seq<Seq<char>>,
    i: int,
)
    requires
        keys_tell_names(keys, names),
        keys.len() <= usize::MAX,
        filed(buckets, spans_of(keys), names),
        0 <= i < keys.len(),
    ensures
        has_bucket(buckets, names[i]),
        forall|b: int|
            0 <= b < buckets.len() ==> gather::picked((#[trigger] buckets[b]).1@).contains(i) == (
            buckets[b].0@ == names[i]),
{
    reveal(filed);
    assert forall|b: int| 0 <= b < buckets.len() implies gather::picked(
        (#[trigger] buckets[b]).1@,
    ).contains(i) == (buckets[b].0@ == names[i]) by {
        law_partition_rows(keys, names, buckets[b].0@);
        lemma_rows_named(names, buckets[b].0@, i);
    }
    if !has_bucket(buckets, names[i]) {
        lemma_unfiled(buckets, spans_of(keys), names, names[i]);
        law_partition_rows(keys, names, names[i]);
        lemma_rows_named(names, names[i], i);
        assert(gather::picked(Seq::<RowSpan>::empty()).len() == 0);
    }
}

/// A run of a name starts with a row of that name.
proof fn lemma_named_span(spans: Seq<RowSpan>, names: Seq<Seq<char>>, name: Seq<char>, k: int)
    requires
        0 <= k < spans_named(spans, names, name).len(),
    ensures
        names[spans_named(spans, names, name)[k].0 as int] == name,
        spans.contains(spans_named(spans, names, name)[k]),
    decreases spans.len(),
{
    let mine = spans_named(spans, names, name);
    let fewer = spans.drop_last();
    let front = spans_named(fewer, names, name);
    if k < front.len() {
        lemma_named_span(fewer, names, name, k);
        let i = fewer.index_of(front[k]);
        assert(spans[i] == front[k]);
    } else {
        assert(mine[k] == spans[spans.len() - 1]);
    }
}

/// A partition is made only for rows with its name.
pub proof fn law_no_empty_partition(
    buckets: Seq<(String, Vec<RowSpan>)>,
    keys: Seq<int>,
    names: Seq<Seq<char>>,
    b: int,
) -> (row: int)
    requires
        keys_tell_names(keys, names),
        keys.len() <= usize::MAX,
        filed(buckets, spans_of(keys), names),
        0 <= b < buckets.len(),
    ensures
        0 <= row < names.len(),
        names[row] == buckets[b].0@,
{
    reveal(filed);
    let spans = spans_of(keys);
    assert(buckets[b].1@ == spans_named(spans, names, buckets[b].0@));
    lemma_named_span(spans, names, buckets[b].0@, 0);
    lemma_spans_in_range(keys);
    let span = spans_named(spans, names, buckets[b].0@)[0];
    let k = spans.index_of(span);
    assert(spans[k] == span);
    span.0 as int
}

/// The times in a column.
pub open spec fn times_of(column: Column) -> Seq<int> {
    Seq::new(
        column.spec_length(),
        |i: int| le::le_signed(buffer::group(column.values@, i, column.data_type.width())),
    )
}

/// For each time the key of its partition.
pub open spec fn keys_of_times(scheme: PartitionScheme, times: Seq<int>, tt: TimeType) -> Seq<int> {
    Seq::new(times.len(), |i: int| partition::key_for(scheme, times[i], tt))
}

/// For each time the name of its partition.
pub open spec fn names_of_times(
    scheme: PartitionScheme,
    times: Seq<int>,
    tt: TimeType,
) -> Seq<Seq<char>> {
    Seq::new(times.len(), |i: int| partition::name_for(scheme, times[i], tt))
}

/// The column named `time` of a table.
pub open spec fn is_time(data: Data, j: int) -> bool {
    schema::first_named(data.schema.fields@, "time"@, j)
}

/// Times can be read from a column, if it has any rows.
pub open spec fn holds_times(column: Column) -> bool {
    column.dict is None && table::time_type_of(column.data_type) is Some
}

/// Every time has a date that can be counted.
pub open spec fn times_countable(column: Column, tt: TimeType) -> bool {
    forall|i: int|
        0 <= i < times_of(column).len() ==> partition::day_of(#[trigger] times_of(column)[i], tt)
            + 719_468 <= i64::MAX
}

/// What the view of a column says of its times.
proof fn lemma_view_times(view: ColumnView<'_>, column: Column, i: int)
    requires
        column.wf(),
        crate::dataview::views(view, column),
        0 <= i < column.spec_length(),
    ensures
        table::time_readable(view, i),
        table::has_time(view, i) == holds_times(column),
        holds_times(column) ==> table::time_at(view, i) == times_of(column)[i],
        column::row_in(view.spec_segments(), i) == Some((view.spec_segments()[0], i)),
{
    let segments = view.spec_segments();
    column::lemma_rows_before_step(segments, 0);
    column::lemma_row_in(segments, 0, i);
    let w = column.data_type.width() as int;
    assert((i + 1) * w <= column.spec_length() * w) by (nonlinear_arith)
        requires
            i + 1 <= column.spec_length(),
            w >= 0,
    ;
}

/// Cuts rows into runs of one partition as their times come in.
pub struct Cutter {
    scheme: PartitionScheme,
    tt: TimeType,
    /// The times that come in.
    times: Ghost<Seq<int>>,
    buckets: Vec<(String, Vec<RowSpan>)>,
    /// Rows so far.
    rows: usize,
    /// Key and first time of the run that is open, and where it starts.
    key: i64,
    first: i64,
    start: usize,
}

impl Cutter {
    pub closed spec fn spec_rows(self) -> nat {
        self.rows as nat
    }

    pub closed spec fn spec_times(self) -> Seq<int> {
        self.times@
    }

    pub closed spec fn spec_scheme(self) -> PartitionScheme {
        self.scheme
    }

    pub closed spec fn spec_tt(self) -> TimeType {
        self.tt
    }

    spec fn keys(self) -> Seq<int> {
        keys_of_times(self.scheme, self.times@, self.tt)
    }

    spec fn names(self) -> Seq<Seq<char>> {
        names_of_times(self.scheme, self.times@, self.tt)
    }

    /// All runs but the open one are filed.
    pub closed spec fn wf(self) -> bool {
        let n = self.rows as int;
        let spans = spans_of(self.keys().take(n));
        &&& n <= self.times@.len()
        &&& if n == 0 {
            filed(self.buckets@, Seq::empty(), self.names())
        } else {
            &&& self.start < n
            &&& spans.len() > 0
            &&& spans.last() == (self.start, (n - self.start) as usize)
            &&& filed(self.buckets@, spans.drop_last(), self.names())
            &&& self.key == self.keys()[n - 1]
            &&& self.first == self.times@[self.start as int]
            &&& partition::day_of(self.first as int, self.tt) + 719_468 <= i64::MAX
        }
    }

    pub(crate) fn new(
        scheme: PartitionScheme,
        tt: TimeType,
        Ghost(times): Ghost<Seq<int>>,
    ) -> (c: Self)
        ensures
            c.wf(),
            c.spec_rows() == 0,
            c.spec_times() == times,
            c.spec_scheme() == scheme,
            c.spec_tt() == tt,
    {
        proof {
            reveal(filed);
        }
        Cutter {
            scheme,
            tt,
            times: Ghost(times),
            buckets: Vec::new(),
            rows: 0,
            key: 0,
            first: 0,
            start: 0,
        }
    }

    /// Takes the next time.
    pub(crate) fn push(&mut self, t: i64)
        requires
            old(self).wf(),
            old(self).spec_rows() < old(self).spec_times().len(),
            old(self).spec_rows() < usize::MAX,
            t == old(self).spec_times()[old(self).spec_rows() as int],
            partition::day_of(t as int, old(self).spec_tt()) + 719_468 <= i64::MAX,
        ensures
            final(self).wf(),
            final(self).spec_rows() == old(self).spec_rows() + 1,
            final(self).spec_times() == old(self).spec_times(),
            final(self).spec_scheme() == old(self).spec_scheme(),
            final(self).spec_tt() == old(self).spec_tt(),
    {
        let ghost n = self.rows as int;
        let ghost keys = self.keys();
        let ghost names = self.names();
        let ghost spans = spans_of(keys.take(n));
        let ghost grown = spans_of(keys.take(n + 1));
        let here: i64 = partition::partition_key(self.scheme, t, self.tt);
        proof {
            partition::law_one_partition(
                self.scheme,
                t as int,
                self.tt,
                Seq::empty(),
                here as int,
            );
            assert(keys.take(n + 1).drop_last() =~= keys.take(n));
            assert(keys.take(n + 1).last() == keys[n]);
            assert(keys[n] == here);
            if n > 0 {
                assert(keys.take(n + 1)[n - 1] == keys[n - 1]);
            } else {
                assert(spans.len() == 0);
            }
        }
        if self.rows > 0 && here == self.key {
            proof {
                assert(grown =~= spans.drop_last().push(
                    (self.start, (n + 1 - self.start) as usize),
                ));
                assert(grown.drop_last() =~= spans.drop_last());
            }
        } else {
            if self.rows > 0 {
                self.close_run();
            } else {
                assert(spans =~= Seq::empty());
            }
            self.key = here;
            self.first = t;
            self.start = self.rows;
            proof {
                assert(grown =~= spans.push((n as usize, 1)));
                assert(grown.drop_last() =~= spans);
            }
        }
        self.rows = self.rows + 1;
    }

    /// Files the open run.
    fn close_run(&mut self)
        requires
            old(self).wf(),
            old(self).rows > 0,
        ensures
            filed(
                final(self).buckets@,
                spans_of(old(self).keys().take(old(self).rows as int)),
                old(self).names(),
            ),
            final(self).scheme == old(self).scheme,
            final(self).tt == old(self).tt,
            final(self).times == old(self).times,
            final(self).rows == old(self).rows,
    {
        let ghost spans = spans_of(self.keys().take(self.rows as int));
        let ghost names = self.names();
        let name = partition::partition_name(self.scheme, self.first, self.tt);
        proof {
            partition::law_one_partition(self.scheme, self.first as int, self.tt, name@, 0);
            assert(spans.drop_last().push(spans.last()) =~= spans);
        }
        let span = (self.start, self.rows - self.start);
        file_span(&mut self.buckets, name, span, Ghost(spans.drop_last()), Ghost(names));
    }

    /// The rows that came in, by partition.
    pub(crate) fn finish(self) -> (buckets: Vec<(String, Vec<RowSpan>)>)
        requires
            self.wf(),
            self.spec_rows() == self.spec_times().len(),
        ensures
            filed(
                buckets@,
                spans_of(keys_of_times(self.spec_scheme(), self.spec_times(), self.spec_tt())),
                names_of_times(self.spec_scheme(), self.spec_times(), self.spec_tt()),
            ),
    {
        let mut cutter = self;
        assert(cutter.keys().take(cutter.rows as int) =~= cutter.keys());
        if cutter.rows > 0 {
            cutter.close_run();
        } else {
            assert(spans_of(cutter.keys()) =~= Seq::empty());
        }
        cutter.buckets
    }
}

/// Spreads the rows of a table over partitions by their times: one run for each
/// stretch of rows of one partition.
pub fn partition_spans(data: &Data, scheme: PartitionScheme, tt: TimeType) -> (r: Result<
    Vec<(String, Vec<RowSpan>)>,
    TableError,
>)
    requires
        data.wf(),
        schema::has_name(data.schema.fields@, "time"@),
        forall|j: int| #[trigger]
            is_time(*data, j) ==> data.columns@[j].wf() && (holds_times(data.columns@[j])
                ==> times_countable(data.columns@[j], tt)),
    ensures
        forall|j: int| #[trigger]
            is_time(*data, j) ==> match r {
                Ok(buckets) => {
                    let times = times_of(data.columns@[j]);
                    &&& times.len() > 0 ==> holds_times(data.columns@[j])
                    &&& filed(
                        buckets@,
                        spans_of(keys_of_times(scheme, times, tt)),
                        names_of_times(scheme, times, tt),
                    )
                },
                Err(e) => {
                    &&& data.spec_length() > 0
                    &&& if data.columns@[j].dict is Some {
                        e.says("time column must be fixed-width"@)
                    } else {
                        &&& table::time_type_of(data.columns@[j].data_type) is None
                        &&& e.says(
                            "unsupported time column type "@
                                + data.columns@[j].data_type.variant_name(),
                        )
                    }
                },
            },
{
    let at: usize = match data.schema.position("time") {
        Some(at) => at,
        None => {
            return Ok(Vec::new());
        },
    };
    let time_col = &data.columns[at];
    let length: usize = data.length();
    let ghost times = times_of(*time_col);
    proof {
        assert(is_time(*data, at as int));
        assert forall|j: int| #[trigger] is_time(*data, j) implies j == at by {
            gather::lemma_first_named_unique(data.schema.fields@, "time"@, j, at as int);
        }
        assert(Data::lengths(data.columns@)[at as int] == length);
    }
    let view = time_col.as_view();
    assert(crate::dataview::views(view, *time_col));
    let mut cutter = Cutter::new(scheme, tt, Ghost(times));
    let mut i: usize = 0;
    while i < length
        invariant
            i <= length,
            length == times.len(),
            times == times_of(*time_col),
            is_time(*data, at as int),
            at < data.columns@.len(),
            *time_col == data.columns@[at as int],
            length == data.spec_length(),
            forall|j: int| #[trigger] is_time(*data, j) ==> j == at,
            crate::dataview::views(view, *time_col),
            time_col.wf(),
            holds_times(*time_col) ==> times_countable(*time_col, tt),
            i > 0 ==> holds_times(*time_col),
            cutter.wf(),
            cutter.spec_rows() == i,
            cutter.spec_times() == times,
            cutter.spec_scheme() == scheme,
            cutter.spec_tt() == tt,
        decreases length - i,
    {
        proof {
            lemma_view_times(view, *time_col, i as int);
        }
        let t: i64 = match table::time_value_at(&view, i) {
            Ok(t) => t,
            Err(e) => {
                return Err(e);
            },
        };
        assert(partition::day_of(times[i as int], tt) + 719_468 <= i64::MAX);
        cutter.push(t);
        i += 1;
    }
    Ok(cutter.finish())
}

/// Each run starts where the one before it ends, with another key.
proof fn lemma_runs_meet(keys: Seq<int>, k: int)
    requires
        keys.len() <= usize::MAX,
        0 <= k,
        k + 1 < spans_of(keys).len(),
    ensures
        ({
            let (a, b) = (spans_of(keys)[k], spans_of(keys)[k + 1]);
            a.0 + a.1 == b.0 && b.0 < keys.len() && keys[a.0 as int] != keys[b.0 as int]
        }),
    decreases keys.len(),
{
    let front = keys.drop_last();
    let (before, spans) = (spans_of(front), spans_of(keys));
    lemma_spans_in_range(keys);
    if front.len() > 0 {
        lemma_spans_in_range(front);
        lemma_last_span(front);
        if k + 1 < before.len() {
            lemma_runs_meet(front, k);
            let (a, b) = (before[k], before[k + 1]);
            assert(spans[k].0 == a.0 && spans[k + 1].0 == b.0);
            assert(front[a.0 as int] == keys[a.0 as int]);
            assert(front[b.0 as int] == keys[b.0 as int]);
        } else {
            assert(before[k] == before.last());
        }
    }
}

/// The runs of a table are as long as can be: each starts where the one before it ends, in
/// a partition of another name.
pub proof fn law_runs_are_longest(scheme: PartitionScheme, times: Seq<int>, tt: TimeType, k: int)
    requires
        times.len() <= usize::MAX,
        0 <= k,
        k + 1 < spans_of(keys_of_times(scheme, times, tt)).len(),
    ensures
        ({
            let spans = spans_of(keys_of_times(scheme, times, tt));
            let names = names_of_times(scheme, times, tt);
            &&& spans[k].0 + spans[k].1 == spans[k + 1].0
            &&& names[spans[k].0 as int] != names[spans[k + 1].0 as int]
        }),
{
    let keys = keys_of_times(scheme, times, tt);
    let names = names_of_times(scheme, times, tt);
    lemma_runs_meet(keys, k);
    let (i, j) = (spans_of(keys)[k].0 as int, spans_of(keys)[k + 1].0 as int);
    partition::lemma_has_partition(scheme, times[i], tt);
    partition::lemma_has_partition(scheme, times[j], tt);
    if names[i] == names[j] {
        partition::law_same_name_same_key(
            scheme,
            tt,
            times[i],
            times[j],
            names[i],
            keys[i],
            keys[j],
        );
    }
}

/// Keys of times tell their names.
pub proof fn lemma_times_tell_names(scheme: PartitionScheme, times: Seq<int>, tt: TimeType)
    ensures
        keys_tell_names(keys_of_times(scheme, times, tt), names_of_times(scheme, times, tt)),
{
    let keys = keys_of_times(scheme, times, tt);
    let names = names_of_times(scheme, times, tt);
    assert forall|i: int, j: int|
        0 <= i < keys.len() && 0 <= j < keys.len() && #[trigger] keys[i] == #[trigger] keys[j]
            implies names[i] == names[j] by {
        partition::lemma_has_partition(scheme, times[i], tt);
        partition::lemma_has_partition(scheme, times[j], tt);
        partition::law_same_key_same_name(
            scheme,
            tt,
            times[i],
            times[j],
            keys[i],
            names[i],
            names[j],
        );
    }
}

/// A time is the number whose bytes stand at its row, and a row belongs to the partition that
/// its time names.
pub proof fn law_times_of_rows(
    column: Column,
    scheme: PartitionScheme,
    tt: TimeType,
    i: int,
    t: int,
)
    requires
        0 <= i < column.spec_length(),
        column.data_type is Date32 || column.data_type is Int32 ==> i32::MIN <= t <= i32::MAX
            && buffer::group(column.values@, i, 4) == le::le_bytes((t % 0x1_0000_0000) as nat, 4),
        column.data_type is TimestampUs || column.data_type is Int64 || column.data_type is Date64
            ==> i64::MIN <= t <= i64::MAX && buffer::group(column.values@, i, 8) == le::le_bytes(
            (t % 0x1_0000_0000_0000_0000) as nat,
            8,
        ),
        column.data_type is Date32 || column.data_type is Int32 || column.data_type is TimestampUs
            || column.data_type is Int64 || column.data_type is Date64,
    ensures
        times_of(column).len() == column.spec_length(),
        times_of(column)[i] == t,
        partition::names_value(scheme, names_of_times(scheme, times_of(column), tt)[i], t, tt),
        partition::keys_value(scheme, keys_of_times(scheme, times_of(column), tt)[i], t, tt),
{
    broadcast use le::lemma_le_bytes_len;

    le::lemma_le_limits();
    if column.data_type is Date32 || column.data_type is Int32 {
        le::lemma_le_value_of_bytes((t % 0x1_0000_0000) as nat, 4);
    } else {
        le::lemma_le_value_of_bytes((t % 0x1_0000_0000_0000_0000) as nat, 8);
    }
    assert(times_of(column)[i] == t);
    partition::lemma_has_partition(scheme, t, tt);
}

} // verus!

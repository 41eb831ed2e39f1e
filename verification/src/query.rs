//! Reading a table: which partitions are scanned, how many rows are taken from each, and
//! how rows are put together into batches.

use vstd::prelude::*;
use vstd::string::*;
use crate::column;
use crate::column::{ColumnSegment, ColumnView};
use crate::dataview::DataView;
use crate::error::FormatError;
use crate::gather;
use crate::gather::RowSpan;
use crate::partition;
use crate::partition::PartitionScheme;
use crate::schema::Schema;
use crate::spans;
use crate::table;
use crate::table::TableError;
use crate::text;
use crate::types::TimeType;

verus! {

/// Consecutive rows of a partition.
#[derive(Debug, Clone, Copy, PartialEq, Eq, Structural)]
pub struct RowRange {
    pub offset: u64,
    pub length: u64,
}

impl RowRange {
    pub fn new(offset: u64, length: u64) -> (range: Self)
        ensures
            range.offset == offset,
            range.length == length,
    {
        RowRange { offset, length }
    }
}

/// How values are compared.
#[derive(Debug, Clone, Copy, PartialEq, Eq, Structural)]
pub enum CmpOp {
    Eq,
    Ne,
    Lt,
    Le,
    Gt,
    Ge,
}

/// A value that a column is compared with; a floating-point number by its bits.
#[derive(Debug, Clone)]
pub enum Scalar {
    Int(i64),
    Float(u64),
    Str(String),
}

/// A condition on rows.
#[derive(Debug)]
pub enum Predicate {
    Cmp { column: String, op: CmpOp, value: Scalar },
    And(Vec<Predicate>),
}

/// Values that cannot be told apart.
pub open spec fn same_scalar(a: Scalar, b: Scalar) -> bool {
    match (a, b) {
        (Scalar::Str(s), Scalar::Str(t)) => s@ == t@,
        _ => a == b,
    }
}

/// Conditions that cannot be told apart.
pub open spec fn same_condition(a: Predicate, b: Predicate) -> bool
    decreases a,
{
    match (a, b) {
        (Predicate::Cmp { column, op, value }, Predicate::Cmp { column: c, op: o, value: v }) => {
            column@ == c@ && op == o && same_scalar(value, v)
        },
        (Predicate::And(x), Predicate::And(y)) => x@.len() == y@.len() && forall|i: int|
            0 <= i < x@.len() ==> same_condition(#[trigger] x@[i], y@[i]),
        _ => false,
    }
}

impl Clone for Predicate {
    fn clone(&self) -> (copy: Self)
        ensures
            same_condition(*self, copy),
        decreases self,
    {
        match self {
            Predicate::Cmp { column, op, value } => Predicate::Cmp {
                column: column.clone(),
                op: *op,
                value: match value {
                    Scalar::Int(n) => Scalar::Int(*n),
                    Scalar::Float(bits) => Scalar::Float(*bits),
                    Scalar::Str(s) => Scalar::Str(s.clone()),
                },
            },
            Predicate::And(parts) => {
                let mut copies: Vec<Predicate> = Vec::new();
                let mut k: usize = 0;
                while k < parts.len()
                    invariant
                        *self == Predicate::And(*parts),
                        k <= parts@.len(),
                        copies@.len() == k,
                        forall|i: int|
                            0 <= i < k ==> same_condition(#[trigger] parts@[i], copies@[i]),
                    decreases parts.len() - k,
                {
                    proof {
                        assert(decreases_to!(self => self->And_0));
                        assert(decreases_to!(parts => parts@));
                        assert(decreases_to!(parts@ => parts@[k as int]));
                    }
                    copies.push(parts[k].clone());
                    k += 1;
                }
                Predicate::And(copies)
            },
        }
    }
}

impl Predicate {
    /// The condition compares that column with an integer.
    pub open spec fn compares_int(self, name: Seq<char>, with: CmpOp, with_value: i64) -> bool {
        self matches Predicate::Cmp { column, op, value } && column@ == name && op == with
            && value == Scalar::Int(with_value)
    }

    /// The condition compares that column with a text.
    pub open spec fn compares_text(
        self,
        name: Seq<char>,
        with: CmpOp,
        with_value: Seq<char>,
    ) -> bool {
        self matches Predicate::Cmp { column, op, value } && column@ == name && op == with
            && (value matches Scalar::Str(s) && s@ == with_value)
    }

    pub fn cmp(column: &str, op: CmpOp, value: Scalar) -> (p: Self)
        ensures
            p matches Predicate::Cmp { column: c, op: o, value: v } && c@ == column@ && o == op && v
                == value,
    {
        Predicate::Cmp { column: column.to_owned(), op, value }
    }
}

/// What is asked of a table.
#[derive(Debug)]
pub struct TableScanRequest {
    /// Rows of this symbol only.
    pub sym: Option<String>,
    /// Rows from the first time up to, but without, the second.
    pub time: Option<(i64, i64)>,
    /// Rows that meet this condition.
    pub predicate: Option<Predicate>,
    /// The fields to read; all of them where none is named.
    pub projection: Vec<String>,
    /// At most so many rows.
    pub limit: Option<u64>,
    /// At most so many threads.
    pub max_parallelism: Option<usize>,
}

impl Clone for TableScanRequest {
    fn clone(&self) -> (copy: Self)
        ensures
            match self.sym {
                Some(s) => copy.sym matches Some(t) && t@ == s@,
                None => copy.sym is None,
            },
            copy.time == self.time,
            match self.predicate {
                Some(p) => copy.predicate matches Some(q) && same_condition(p, q),
                None => copy.predicate is None,
            },
            text::texts(copy.projection@) == text::texts(self.projection@),
            copy.limit == self.limit,
            copy.max_parallelism == self.max_parallelism,
    {
        let sym = match &self.sym {
            Some(s) => Some(s.clone()),
            None => None,
        };
        let predicate = match &self.predicate {
            Some(p) => Some(p.clone()),
            None => None,
        };
        let projection = text::copy_texts(self.projection.as_slice());
        TableScanRequest {
            sym,
            time: self.time,
            predicate,
            projection,
            limit: self.limit,
            max_parallelism: self.max_parallelism,
        }
    }
}

impl Default for TableScanRequest {
    fn default() -> (request: Self)
        ensures
            request.sym is None,
            request.time is None,
            request.predicate is None,
            request.projection@.len() == 0,
            request.limit is None,
            request.max_parallelism is None,
    {
        TableScanRequest {
            sym: None,
            time: None,
            predicate: None,
            projection: Vec::new(),
            limit: None,
            max_parallelism: None,
        }
    }
}

/// Conditions on symbol and time, and the one that was given, in this order.
pub open spec fn composed(
    parts: Seq<Predicate>,
    sym: Option<String>,
    time: Option<(i64, i64)>,
    predicate: Option<Predicate>,
) -> bool {
    let a: int = if sym is Some {
        1
    } else {
        0
    };
    let b: int = if time is Some {
        a + 2
    } else {
        a
    };
    let c: int = if predicate is Some {
        b + 1
    } else {
        b
    };
    &&& parts.len() == c
    &&& sym matches Some(s) ==> parts[0].compares_text("sym"@, CmpOp::Eq, s@)
    &&& time matches Some((lo, hi)) ==> parts[a].compares_int("time"@, CmpOp::Ge, lo) && parts[a
        + 1].compares_int("time"@, CmpOp::Lt, hi)
    &&& predicate matches Some(p) ==> parts[b] == p
}

/// Puts the conditions of a request together.
pub fn compose_predicate(
    sym: Option<String>,
    time: Option<(i64, i64)>,
    predicate: Option<Predicate>,
) -> (r: Option<Predicate>)
    ensures
        match r {
            None => sym is None && time is None && predicate is None,
            Some(Predicate::And(parts)) => parts@.len() > 0 && composed(
                parts@,
                sym,
                time,
                predicate,
            ),
            Some(_) => false,
        },
{
    let mut parts: Vec<Predicate> = Vec::new();
    if let Some(s) = sym {
        parts.push(Predicate::cmp("sym", CmpOp::Eq, Scalar::Str(s)));
    }
    if let Some((lo, hi)) = time {
        parts.push(Predicate::cmp("time", CmpOp::Ge, Scalar::Int(lo)));
        parts.push(Predicate::cmp("time", CmpOp::Lt, Scalar::Int(hi)));
    }
    if let Some(p) = predicate {
        parts.push(p);
    }
    if parts.len() == 0 {
        None
    } else {
        Some(Predicate::And(parts))
    }
}

/// A partition with the times that its name allows: from the first up to, but without,
/// the second.
pub type Bounds = (Seq<char>, int, int);

/// How many partitions at the head of a list start no later than `lo`.
pub open spec fn starts_by(list: Seq<Bounds>, lo: int) -> int
    decreases list.len(),
{
    if list.len() == 0 || list[0].1 > lo {
        0
    } else {
        1 + starts_by(list.drop_first(), lo)
    }
}

/// Partitions by their start; those with the same start in the order given.
pub open spec fn by_start(list: Seq<Bounds>) -> Seq<Bounds>
    decreases list.len(),
{
    if list.len() == 0 {
        Seq::empty()
    } else {
        let front = by_start(list.drop_last());
        front.insert(starts_by(front, list.last().1), list.last())
    }
}

/// How many partitions at the head of a list end no later than `lo`.
pub open spec fn ended_by(list: Seq<Bounds>, lo: int) -> int
    decreases list.len(),
{
    if list.len() == 0 || list[0].2 > lo {
        0
    } else {
        1 + ended_by(list.drop_first(), lo)
    }
}

/// How many partitions at the head of a list start before `hi`.
pub open spec fn started_before(list: Seq<Bounds>, hi: int) -> int
    decreases list.len(),
{
    if list.len() == 0 || list[0].1 >= hi {
        0
    } else {
        1 + started_before(list.drop_first(), hi)
    }
}

/// The partitions that may hold times of the range: by start, from the first that does
/// not end before the range to the last that starts within it.
pub open spec fn pruned(list: Seq<Bounds>, lo: int, hi: int) -> Seq<Bounds> {
    let sorted = by_start(list);
    let rest = sorted.skip(ended_by(sorted, lo));
    rest.take(started_before(rest, hi))
}

/// The bounds that names give.
pub open spec fn bounds_of(
    names: Seq<String>,
    scheme: PartitionScheme,
    tt: TimeType,
) -> Seq<Bounds> {
    Seq::new(
        names.len(),
        |i: int|
            {
                let r = partition::range_values(scheme, names[i]@, tt)->0;
                (names[i]@, r.0, r.1)
            },
    )
}

proof fn lemma_starts_by(list: Seq<Bounds>, lo: int)
    ensures
        0 <= starts_by(list, lo) <= list.len(),
        forall|i: int| 0 <= i < starts_by(list, lo) ==> (#[trigger] list[i]).1 <= lo,
        starts_by(list, lo) < list.len() ==> list[starts_by(list, lo)].1 > lo,
    decreases list.len(),
{
    if list.len() > 0 && list[0].1 <= lo {
        let rest = list.drop_first();
        lemma_starts_by(rest, lo);
        assert forall|i: int| 0 <= i < starts_by(list, lo) implies (#[trigger] list[i]).1 <= lo by {
            if i > 0 {
                assert(rest[i - 1] == list[i]);
            }
        }
    }
}

proof fn lemma_ended_by(list: Seq<Bounds>, lo: int)
    ensures
        0 <= ended_by(list, lo) <= list.len(),
        forall|i: int| 0 <= i < ended_by(list, lo) ==> (#[trigger] list[i]).2 <= lo,
        ended_by(list, lo) < list.len() ==> list[ended_by(list, lo)].2 > lo,
    decreases list.len(),
{
    if list.len() > 0 && list[0].2 <= lo {
        let rest = list.drop_first();
        lemma_ended_by(rest, lo);
        assert forall|i: int| 0 <= i < ended_by(list, lo) implies (#[trigger] list[i]).2 <= lo by {
            if i > 0 {
                assert(rest[i - 1] == list[i]);
            }
        }
    }
}

proof fn lemma_started_before(list: Seq<Bounds>, hi: int)
    ensures
        0 <= started_before(list, hi) <= list.len(),
        forall|i: int| 0 <= i < started_before(list, hi) ==> (#[trigger] list[i]).1 < hi,
        started_before(list, hi) < list.len() ==> list[started_before(list, hi)].1 >= hi,
    decreases list.len(),
{
    if list.len() > 0 && list[0].1 < hi {
        let rest = list.drop_first();
        lemma_started_before(rest, hi);
        assert forall|i: int| 0 <= i < started_before(list, hi) implies (#[trigger] list[i]).1
            < hi by {
            if i > 0 {
                assert(rest[i - 1] == list[i]);
            }
        }
    }
}

/// No two partitions share a time.
pub open spec fn apart(list: Seq<Bounds>) -> bool {
    forall|i: int, j: int|
        0 <= i < list.len() && 0 <= j < list.len() && i != j ==> (#[trigger] list[i]).2 <= (
        #[trigger] list[j]).1 || list[j].2 <= list[i].1
}

/// Every partition has room for a time.
pub open spec fn roomy(list: Seq<Bounds>) -> bool {
    forall|i: int| 0 <= i < list.len() ==> (#[trigger] list[i]).1 < list[i].2
}

/// Sorting keeps the partitions and puts them in order.
pub proof fn lemma_by_start(list: Seq<Bounds>)
    ensures
        by_start(list).to_multiset() == list.to_multiset(),
        by_start(list).len() == list.len(),
        forall|i: int, j: int|
            0 <= i < j < by_start(list).len() ==> (#[trigger] by_start(list)[i]).1 <= (
            #[trigger] by_start(list)[j]).1,
    decreases list.len(),
{
    broadcast use vstd::seq_lib::group_to_multiset_ensures;

    if list.len() > 0 {
        let rest = list.drop_last();
        lemma_by_start(rest);
        let front = by_start(rest);
        let x = list.last();
        let at = starts_by(front, x.1);
        lemma_starts_by(front, x.1);
        let sorted = by_start(list);
        assert(sorted.remove(at) =~= front);
        assert(sorted[at] == x);
        assert(sorted.contains(x));
        assert(list =~= rest.push(x));
        assert(sorted.to_multiset() =~= front.to_multiset().insert(x));
        assert forall|i: int, j: int| 0 <= i < j < sorted.len() implies (#[trigger] sorted[i]).1
            <= (#[trigger] sorted[j]).1 by {
            let i0 = if i < at {
                i
            } else {
                i - 1
            };
            let j0 = if j < at {
                j
            } else {
                j - 1
            };
            if i != at && j != at {
                assert(sorted[i] == front[i0] && sorted[j] == front[j0]);
            } else if i == at {
                assert(sorted[j] == front[j0]);
                if at < j0 {
                    assert(front[at].1 <= front[j0].1);
                }
            } else {
                assert(sorted[i] == front[i]);
            }
        }
    } else {
        assert(by_start(list) =~= list);
    }
}

/// Two places of a list that hold partitions that share a time are one.
proof fn lemma_apart_sorted(list: Seq<Bounds>)
    requires
        apart(list),
        roomy(list),
    ensures
        apart(by_start(list)),
        roomy(by_start(list)),
    decreases list.len(),
{
    if list.len() > 0 {
        let rest = list.drop_last();
        let x = list.last();
        assert forall|i: int, j: int|
            0 <= i < rest.len() && 0 <= j < rest.len() && i != j implies (#[trigger] rest[i]).2 <= (
        #[trigger] rest[j]).1 || rest[j].2 <= rest[i].1 by {
            assert(list[i] == rest[i] && list[j] == rest[j]);
        }
        assert forall|i: int| 0 <= i < rest.len() implies (#[trigger] rest[i]).1 < rest[i].2 by {
            assert(list[i] == rest[i]);
        }
        lemma_apart_sorted(rest);
        let front = by_start(rest);
        lemma_by_start(rest);
        lemma_starts_by(front, x.1);
        let at = starts_by(front, x.1);
        let sorted = by_start(list);
        assert forall|k: int| 0 <= k < front.len() implies (#[trigger] front[k]).2 <= x.1 || x.2
            <= front[k].1 by {
            broadcast use vstd::seq_lib::group_to_multiset_ensures;

            assert(front.contains(front[k]));
            assert(rest.to_multiset().count(front[k]) > 0);
            assert(rest.contains(front[k]));
            let i = choose|i: int| 0 <= i < rest.len() && rest[i] == front[k];
            assert(list[i] == front[k]);
            assert(list[list.len() - 1] == x);
        }
        assert(list[list.len() - 1] == x);
        assert forall|i: int, j: int|
            0 <= i < sorted.len() && 0 <= j < sorted.len() && i != j implies (#[trigger] sorted[i]).2
            <= (#[trigger] sorted[j]).1 || sorted[j].2 <= sorted[i].1 by {
            let i0 = if i < at {
                i
            } else {
                i - 1
            };
            let j0 = if j < at {
                j
            } else {
                j - 1
            };
            if i != at {
                assert(sorted[i] == front[i0]);
            }
            if j != at {
                assert(sorted[j] == front[j0]);
            }
        }
        assert forall|i: int| 0 <= i < sorted.len() implies (#[trigger] sorted[i]).1 < sorted[i].2 by {
            if i < at {
                assert(sorted[i] == front[i]);
            } else if i > at {
                assert(sorted[i] == front[i - 1]);
            }
        }
    }
}

/// Where partitions share no times, those that are scanned are those that share a time
/// with the range that is asked for.
pub proof fn law_pruning_exact(list: Seq<Bounds>, lo: int, hi: int, b: Bounds)
    requires
        apart(list),
        roomy(list),
        lo < hi,
    ensures
        pruned(list, lo, hi).contains(b) == (list.contains(b) && b.1 < hi && lo < b.2),
{
    broadcast use vstd::seq_lib::group_to_multiset_ensures;

    let sorted = by_start(list);
    lemma_by_start(list);
    lemma_apart_sorted(list);
    let skip = ended_by(sorted, lo);
    lemma_ended_by(sorted, lo);
    let rest = sorted.skip(skip);
    let count = started_before(rest, hi);
    lemma_started_before(rest, hi);
    let out = pruned(list, lo, hi);
    if out.contains(b) {
        let k = choose|k: int| 0 <= k < out.len() && out[k] == b;
        assert(rest[k] == b && sorted[k + skip] == b);
        assert(sorted.contains(b));
        assert(list.to_multiset().count(b) > 0);
        if skip < k + skip {
            assert(sorted[skip].1 <= sorted[k + skip].1);
            assert(sorted[skip].2 <= sorted[k + skip].1 || sorted[k + skip].2 <= sorted[skip].1);
        }
    }
    if list.contains(b) && b.1 < hi && lo < b.2 {
        assert(sorted.to_multiset().count(b) > 0);
        assert(sorted.contains(b));
        let i = choose|i: int| 0 <= i < sorted.len() && sorted[i] == b;
        assert(i >= skip);
        let k = i - skip;
        assert(rest[k] == b);
        if k >= count {
            assert(rest[count] == sorted[count + skip]);
            assert(sorted[count + skip].1 <= sorted[i].1);
        }
        assert(out[k] == b);
    }
}

/// The name is that of the partition of some time.  Names of months and days before year 0
/// cannot be read back and are left out.
pub open spec fn names_a_time(scheme: PartitionScheme, name: Seq<char>, tt: TimeType) -> bool {
    exists|t: int| #[trigger] names_time(scheme, name, t, tt)
}

pub open spec fn names_time(scheme: PartitionScheme, name: Seq<char>, t: int, tt: TimeType) -> bool {
    &&& partition::fits(t)
    &&& partition::names_value(scheme, name, t, tt)
    &&& scheme !is Year ==> partition::civil_days(0, 1, 1) <= partition::day_of(t, tt)
}

/// The names of a table's partitions: all different, each that of some time, with bounds
/// that can be counted.
pub open spec fn table_names(names: Seq<String>, scheme: PartitionScheme, tt: TimeType) -> bool {
    &&& scheme !is Unpartitioned
    &&& forall|k: int| 0 <= k < names.len() ==> names_a_time(scheme, (#[trigger] names[k])@, tt)
    &&& forall|k: int|
        0 <= k < names.len() ==> partition::range_values(scheme, (#[trigger] names[k])@, tt) is Some
    &&& forall|i: int, j: int|
        0 <= i < j < names.len() ==> (#[trigger] names[i])@ != (#[trigger] names[j])@
}

/// The partitions of a table share no time, and each has room for one.
pub proof fn law_table_partitions_apart(names: Seq<String>, scheme: PartitionScheme, tt: TimeType)
    requires
        table_names(names, scheme, tt),
    ensures
        apart(bounds_of(names, scheme, tt)),
        roomy(bounds_of(names, scheme, tt)),
{
    let list = bounds_of(names, scheme, tt);
    assert forall|k: int| 0 <= k < list.len() implies (#[trigger] list[k]).1 < list[k].2 by {
        assert(partition::range_values(scheme, names[k]@, tt) is Some);
        partition::law_range_not_empty(scheme, names[k]@, tt);
    }
    assert forall|i: int, j: int|
        0 <= i < list.len() && 0 <= j < list.len() && i != j implies (#[trigger] list[i]).2 <= (
    #[trigger] list[j]).1 || list[j].2 <= list[i].1 by {
        let (p, q) = (names[i]@, names[j]@);
        assert(partition::range_values(scheme, p, tt) is Some);
        assert(partition::range_values(scheme, q, tt) is Some);
        assert(names_a_time(scheme, names[i]@, tt) && names_a_time(scheme, names[j]@, tt));
        let a = choose|t: int| #[trigger] names_time(scheme, p, t, tt);
        let b = choose|t: int| #[trigger] names_time(scheme, q, t, tt);
        if i < j {
            assert(names[i]@ != names[j]@);
        } else {
            assert(names[j]@ != names[i]@);
        }
        partition::law_partitions_apart(scheme, tt, p, a, q, b);
    }
}

/// A time within the range lies in a partition that is scanned.
pub proof fn law_no_time_missed(
    names: Seq<String>,
    scheme: PartitionScheme,
    tt: TimeType,
    lo: int,
    hi: int,
    t: int,
    i: int,
)
    requires
        table_names(names, scheme, tt),
        0 <= i < names.len(),
        lo <= t < hi,
        names_time(scheme, names[i]@, t, tt),
    ensures
        exists|k: int|
            0 <= k < pruned(bounds_of(names, scheme, tt), lo, hi).len() && (#[trigger] pruned(
                bounds_of(names, scheme, tt),
                lo,
                hi,
            )[k]).0 == names[i]@,
{
    let list = bounds_of(names, scheme, tt);
    law_table_partitions_apart(names, scheme, tt);
    assert(partition::range_values(scheme, names[i]@, tt) is Some);
    partition::law_partition_holds_value(scheme, names[i]@, t, tt);
    let b = list[i];
    assert(list.contains(b));
    law_pruning_exact(list, lo, hi, b);
    let out = pruned(list, lo, hi);
    let k = choose|k: int| 0 <= k < out.len() && out[k] == b;
    assert(out[k].0 == names[i]@);
}

/// The names of partitions.
pub open spec fn bucket_names(buckets: Seq<(String, Vec<RowSpan>)>) -> Seq<String> {
    Seq::new(buckets.len(), |b: int| buckets[b].0)
}

/// Rows are spread over partitions so that a scan for a range of times finds them: every
/// row with a time within the range is in a partition that is scanned.
pub proof fn law_written_row_scanned(
    buckets: Seq<(String, Vec<RowSpan>)>,
    times: Seq<int>,
    scheme: PartitionScheme,
    tt: TimeType,
    lo: int,
    hi: int,
    i: int,
)
    requires
        scheme !is Unpartitioned,
        times.len() <= usize::MAX,
        spans::filed(
            buckets,
            spans::spans_of(spans::keys_of_times(scheme, times, tt)),
            spans::names_of_times(scheme, times, tt),
        ),
        forall|k: int|
            0 <= k < times.len() ==> partition::fits(#[trigger] times[k]) && (scheme !is Year
                ==> partition::civil_days(0, 1, 1) <= partition::day_of(times[k], tt)),
        forall|b: int|
            0 <= b < buckets.len() ==> partition::range_values(
                scheme,
                (#[trigger] buckets[b]).0@,
                tt,
            ) is Some,
        0 <= i < times.len(),
        lo <= times[i] < hi,
    ensures
        exists|b: int, k: int|
            {
                &&& 0 <= b < buckets.len()
                &&& 0 <= k < pruned(bounds_of(bucket_names(buckets), scheme, tt), lo, hi).len()
                &&& gather::picked((#[trigger] buckets[b]).1@).contains(i)
                &&& (#[trigger] pruned(bounds_of(bucket_names(buckets), scheme, tt), lo, hi)[k]).0
                    == buckets[b].0@
            },
{
    let names = bucket_names(buckets);
    let keys = spans::keys_of_times(scheme, times, tt);
    let row_names = spans::names_of_times(scheme, times, tt);
    spans::lemma_times_tell_names(scheme, times, tt);
    assert forall|k: int| 0 <= k < names.len() implies names_a_time(
        scheme,
        (#[trigger] names[k])@,
        tt,
    ) by {
        let row = spans::law_no_empty_partition(buckets, keys, row_names, k);
        partition::lemma_has_partition(scheme, times[row], tt);
        assert(names_time(scheme, names[k]@, times[row], tt));
    }
    assert forall|a: int, b: int| 0 <= a < b < names.len() implies (#[trigger] names[a])@ != (
    #[trigger] names[b])@ by {
        reveal(spans::filed);
        assert(text::text_before(buckets[a].0@, buckets[b].0@));
        text::lemma_text_before_order(buckets[a].0@, buckets[a].0@);
    }
    assert forall|k: int| 0 <= k < names.len() implies partition::range_values(
        scheme,
        (#[trigger] names[k])@,
        tt,
    ) is Some by {
        assert(buckets[k].0 == names[k]);
    }
    spans::law_every_row_placed(buckets, keys, row_names, i);
    let b = choose|b: int| 0 <= b < buckets.len() && (#[trigger] buckets[b]).0@ == row_names[i];
    partition::lemma_has_partition(scheme, times[i], tt);
    assert(names_time(scheme, names[b]@, times[i], tt));
    law_no_time_missed(names, scheme, tt, lo, hi, times[i], b);
    let out = pruned(bounds_of(names, scheme, tt), lo, hi);
    let k = choose|k: int| 0 <= k < out.len() && (#[trigger] out[k]).0 == names[b]@;
    assert(gather::picked(buckets[b].1@).contains(i));
    assert(out[k].0 == buckets[b].0@);
}

/// A partition and the times that its name allows.
struct Bounded {
    name: String,
    lo: i64,
    hi: i64,
}

spec fn bounds_in(list: Seq<Bounded>) -> Seq<Bounds> {
    Seq::new(list.len(), |i: int| (list[i].name@, list[i].lo as int, list[i].hi as int))
}

/// The partitions that may hold times from `lo` up to, but without, `hi`, by their start.
/// The one partition of a table that is not partitioned has no times in its name, and may
/// always hold some.
pub fn select_partitions(
    names: &[String],
    scheme: PartitionScheme,
    tt: TimeType,
    lo: i64,
    hi: i64,
) -> (r: Result<Vec<String>, TableError>)
    ensures
        scheme is Unpartitioned ==> (r matches Ok(out) && text::texts(out@) == text::texts(
            names@,
        )),
        scheme !is Unpartitioned ==> match r {
            Ok(out) => {
                &&& forall|i: int|
                    0 <= i < names@.len() ==> partition::range_values(
                        scheme,
                        (#[trigger] names@[i])@,
                        tt,
                    ) is Some
                &&& ({
                    let kept = pruned(bounds_of(names@, scheme, tt), lo as int, hi as int);
                    &&& out@.len() == kept.len()
                    &&& forall|i: int|
                        0 <= i < kept.len() ==> (#[trigger] out@[i])@ == kept[i].0
                })
            },
            Err(e) => exists|i: int|
                #[trigger] table::first_bad_name(names@, scheme, tt, i) && e.says(
                    "bad partition name "@ + names@[i]@,
                ),
        },
{
    if !scheme.allows_partitions() {
        return Ok(text::copy_texts(names));
    }
    let infos = match table::describe_partitions(names, scheme, tt) {
        Ok(infos) => infos,
        Err(e) => {
            return Err(e);
        },
    };
    let ghost list = bounds_of(names@, scheme, tt);
    let mut sorted: Vec<Bounded> = Vec::new();
    let mut k: usize = 0;
    proof {
        assert(bounds_in(sorted@) =~= by_start(list.take(0)));
        assert forall|i: int| 0 <= i < names@.len() implies partition::range_values(
            scheme,
            (#[trigger] names@[i])@,
            tt,
        ) is Some by {
            assert(table::describes(infos@[i], names@[i]@, scheme, tt));
        }
    }
    while k < infos.len()
        invariant
            k <= infos@.len(),
            infos@.len() == names@.len(),
            list == bounds_of(names@, scheme, tt),
            forall|i: int|
                0 <= i < names@.len() ==> #[trigger] table::describes(
                    infos@[i],
                    names@[i]@,
                    scheme,
                    tt,
                ),
            bounds_in(sorted@) == by_start(list.take(k as int)),
        decreases infos.len() - k,
    {
        let info = &infos[k];
        let ghost before = bounds_in(sorted@);
        proof {
            assert(table::describes(infos@[k as int], names@[k as int]@, scheme, tt));
            assert(list.take(k + 1).drop_last() =~= list.take(k as int));
            lemma_starts_by(before, info.time_min as int);
        }
        let mut at: usize = 0;
        while at < sorted.len() && sorted[at].lo <= info.time_min
            invariant
                at <= sorted@.len(),
                before == bounds_in(sorted@),
                forall|i: int| 0 <= i < at ==> (#[trigger] before[i]).1 <= info.time_min,
            decreases sorted.len() - at,
        {
            assert(before[at as int].1 == sorted@[at as int].lo);
            at += 1;
        }
        proof {
            let n = starts_by(before, info.time_min as int);
            if at < n {
                assert(before[at as int].1 == sorted@[at as int].lo);
            }
            if n < at {
                assert(before[n].1 <= info.time_min);
            }
        }
        sorted.insert(
            at,
            Bounded { name: info.name.clone(), lo: info.time_min, hi: info.time_max + 1 },
        );
        assert(bounds_in(sorted@) =~= before.insert(at as int, list[k as int]));
        k += 1;
    }
    let ghost all = bounds_in(sorted@);
    assert(list.take(k as int) =~= list);
    proof {
        lemma_ended_by(all, lo as int);
    }
    let mut start: usize = 0;
    while start < sorted.len() && sorted[start].hi <= lo
        invariant
            start <= sorted@.len(),
            all == bounds_in(sorted@),
            forall|i: int| 0 <= i < start ==> (#[trigger] all[i]).2 <= lo,
        decreases sorted.len() - start,
    {
        assert(all[start as int].2 == sorted@[start as int].hi);
        start += 1;
    }
    let ghost rest = all.skip(start as int);
    proof {
        let n = ended_by(all, lo as int);
        if start < n {
            assert(all[start as int].2 == sorted@[start as int].hi);
        }
        if n < start {
            assert(all[n].2 <= lo);
        }
        lemma_started_before(rest, hi as int);
    }
    let mut out: Vec<String> = Vec::new();
    let mut i: usize = start;
    while i < sorted.len() && sorted[i].lo < hi
        invariant
            start <= i <= sorted@.len(),
            all == bounds_in(sorted@),
            rest == all.skip(start as int),
            out@.len() == i - start,
            forall|j: int| 0 <= j < i - start ==> (#[trigger] out@[j])@ == rest[j].0,
            forall|j: int| 0 <= j < i - start ==> (#[trigger] rest[j]).1 < hi,
        decreases sorted.len() - i,
    {
        assert(rest[i - start] == all[i as int]);
        out.push(sorted[i].name.clone());
        i += 1;
    }
    proof {
        let n = started_before(rest, hi as int);
        if i - start < n {
            assert(rest[i - start] == all[i as int]);
        }
        if n < i - start {
            assert(rest[n].1 < hi);
        }
    }
    Ok(out)
}

/// Rows of a partition.
#[derive(Debug, Clone, PartialEq, Eq)]
pub struct PartitionRowRange {
    pub partition: String,
    pub row_range: RowRange,
}

/// What a scan does next.
#[derive(Debug, Clone, Copy, PartialEq, Eq, Structural)]
pub enum ScanStep {
    /// Nothing: no more rows are asked for or left.
    Finished,
    /// Start to scan the partition with that number, for at most so many rows.
    Open { index: usize, limit: Option<u64> },
    /// Ask the scan of the partition with that number for its next rows.
    Pull { index: usize },
}

/// A scan of a table, partition by partition.  It decides; the partitions are opened and
/// read by whoever drives it.
#[derive(Debug)]
pub struct TableScanner {
    /// The partitions to scan, in order.
    pub partitions: Vec<String>,
    /// The next partition to open.
    pub next_idx: usize,
    /// The partition that is being scanned.
    pub current: Option<usize>,
    /// The condition that each partition applies to its rows.
    pub predicate: Option<Predicate>,
    pub projection: Vec<String>,
    /// Rows that may still be delivered.
    pub remaining: Option<u64>,
    pub max_parallelism: Option<usize>,
}

/// A row range cut to the rows that may still be delivered.
pub open spec fn capped(range: RowRange, remaining: Option<u64>) -> RowRange {
    match remaining {
        Some(left) if left < range.length => RowRange { offset: range.offset, length: left },
        _ => range,
    }
}

/// Rows that may still be delivered after so many.
pub open spec fn left_after(remaining: Option<u64>, length: u64) -> Option<u64> {
    match remaining {
        Some(left) => Some((left - length) as u64),
        None => None,
    }
}

impl TableScanner {
    /// The partition that is being scanned is one of those to scan.
    pub open spec fn wf(self) -> bool {
        &&& self.next_idx <= self.partitions@.len()
        &&& self.current matches Some(k) ==> k < self.next_idx
    }

    /// A scan of these partitions that has not begun.
    pub fn new(
        partitions: Vec<String>,
        predicate: Option<Predicate>,
        projection: Vec<String>,
        limit: Option<u64>,
        max_parallelism: Option<usize>,
    ) -> (scanner: Self)
        ensures
            scanner.wf(),
            scanner.partitions == partitions,
            scanner.next_idx == 0,
            scanner.current is None,
            scanner.predicate == predicate,
            scanner.projection == projection,
            scanner.remaining == limit,
            scanner.max_parallelism == max_parallelism,
    {
        TableScanner {
            partitions,
            next_idx: 0,
            current: None,
            predicate,
            projection,
            remaining: limit,
            max_parallelism,
        }
    }

    /// Nothing but the place in the list of partitions and the rows left has changed.
    pub open spec fn same_request(self, other: Self) -> bool {
        &&& self.partitions == other.partitions
        &&& self.predicate == other.predicate
        &&& self.projection == other.projection
        &&& self.max_parallelism == other.max_parallelism
    }

    /// Decides what to do next.  No partition is opened once no more rows are asked for.
    pub fn step(&mut self) -> (step: ScanStep)
        requires
            old(self).wf(),
        ensures
            final(self).wf(),
            final(self).same_request(*old(self)),
            final(self).remaining == old(self).remaining,
            if old(self).remaining == Some(0u64) {
                &&& step is Finished
                &&& *final(self) == *old(self)
            } else {
                match old(self).current {
                    Some(k) => step == (ScanStep::Pull { index: k }) && *final(self) == *old(self),
                    None => if old(self).next_idx < old(self).partitions@.len() {
                        &&& step == (ScanStep::Open {
                            index: old(self).next_idx,
                            limit: old(self).remaining,
                        })
                        &&& final(self).current == Some(old(self).next_idx)
                        &&& final(self).next_idx == old(self).next_idx + 1
                    } else {
                        step is Finished && *final(self) == *old(self)
                    },
                }
            },
    {
        if let Some(left) = self.remaining {
            if left == 0 {
                return ScanStep::Finished;
            }
        }
        match self.current {
            Some(index) => ScanStep::Pull { index },
            None => {
                if self.next_idx < self.partitions.len() {
                    let index: usize = self.next_idx;
                    self.next_idx = index + 1;
                    self.current = Some(index);
                    ScanStep::Open { index, limit: self.remaining }
                } else {
                    ScanStep::Finished
                }
            },
        }
    }

    /// Takes what the scan of the current partition found: rows, which are delivered as far
    /// as they are asked for, or nothing, which ends the partition.
    pub fn deliver(&mut self, found: Option<RowRange>) -> (out: Option<PartitionRowRange>)
        requires
            old(self).wf(),
            old(self).current is Some,
        ensures
            final(self).wf(),
            final(self).same_request(*old(self)),
            final(self).next_idx == old(self).next_idx,
            match found {
                Some(range) => {
                    &&& out matches Some(rows) && rows.row_range == capped(
                        range,
                        old(self).remaining,
                    ) && rows.partition@ == old(self).partitions@[old(self).current->0 as int]@
                    &&& final(self).current == old(self).current
                    &&& final(self).remaining == left_after(
                        old(self).remaining,
                        capped(range, old(self).remaining).length,
                    )
                },
                None => {
                    &&& out is None
                    &&& final(self).current is None
                    &&& final(self).remaining == old(self).remaining
                },
            },
    {
        let mut range = match found {
            Some(range) => range,
            None => {
                self.current = None;
                return None;
            },
        };
        if let Some(left) = self.remaining {
            let take: u64 = if range.length < left {
                range.length
            } else {
                left
            };
            self.remaining = Some(left - take);
            if take < range.length {
                range = RowRange::new(range.offset, take);
            }
        }
        match self.current {
            Some(index) => Some(
                PartitionRowRange {
                    partition: self.partitions[index].clone(),
                    row_range: range,
                },
            ),
            None => None,
        }
    }
}

/// Rows that are delivered of ranges that are found one after the other, and the rows
/// that may then still be delivered.
pub open spec fn delivered(lengths: Seq<u64>, limit: Option<u64>) -> (nat, Option<u64>)
    decreases lengths.len(),
{
    if lengths.len() == 0 {
        (0, limit)
    } else {
        let (before, left) = delivered(lengths.drop_last(), limit);
        let range = capped(RowRange { offset: 0, length: lengths.last() }, left);
        (before + range.length as nat, left_after(left, range.length))
    }
}

/// Rows of ranges together.
pub open spec fn found_rows(lengths: Seq<u64>) -> nat
    decreases lengths.len(),
{
    if lengths.len() == 0 {
        0
    } else {
        found_rows(lengths.drop_last()) + lengths.last() as nat
    }
}

/// All rows that are found are delivered, up to the limit.
pub proof fn law_limit_exact(lengths: Seq<u64>, limit: Option<u64>)
    ensures
        delivered(lengths, limit).0 == match limit {
            Some(n) if n < found_rows(lengths) => n as nat,
            _ => found_rows(lengths),
        },
        limit matches Some(n) ==> delivered(lengths, limit).1 == Some(
            (n - delivered(lengths, limit).0) as u64,
        ),
        limit is None ==> delivered(lengths, limit).1 is None,
    decreases lengths.len(),
{
    if lengths.len() > 0 {
        law_limit_exact(lengths.drop_last(), limit);
    }
}

/// What a reader does next.
#[derive(Debug, Clone, Copy, PartialEq, Eq, Structural)]
pub enum ReadMode {
    /// Nothing: the rows are used up.
    Finished,
    /// Read one range as it comes.
    OneRange,
    /// Read ranges until so many rows are together.
    Batch(usize),
}

/// A reader of the ranges that a scan finds.
#[derive(Debug)]
pub struct TableReader {
    pub batch_size: Option<usize>,
    /// What is left of a range that did not fit a batch.
    pub pending: Option<PartitionRowRange>,
    pub exhausted: bool,
}

impl TableReader {
    pub fn new(batch_size: Option<usize>) -> (reader: Self)
        ensures
            reader.batch_size == batch_size,
            reader.pending is None,
            !reader.exhausted,
    {
        TableReader { batch_size, pending: None, exhausted: false }
    }

    /// Decides how the next rows are read.
    pub fn mode(&self) -> (r: Result<ReadMode, TableError>)
        ensures
            if self.exhausted {
                r == Ok::<ReadMode, TableError>(ReadMode::Finished)
            } else {
                match self.batch_size {
                    None => r == Ok::<ReadMode, TableError>(ReadMode::OneRange),
                    Some(0) => r matches Err(e) && e.says("batch_size must be non-zero"@),
                    Some(n) => r == Ok::<ReadMode, TableError>(ReadMode::Batch(n)),
                }
            },
    {
        if self.exhausted {
            return Ok(ReadMode::Finished);
        }
        match self.batch_size {
            None => Ok(ReadMode::OneRange),
            Some(n) => {
                if n == 0 {
                    Err(TableError::Invalid("batch_size must be non-zero".to_owned()))
                } else {
                    Ok(ReadMode::Batch(n))
                }
            },
        }
    }

    /// The range that was left over, if there is one: it comes before what the scan finds.
    pub fn take_pending(&mut self) -> (range: Option<PartitionRowRange>)
        ensures
            range == old(self).pending,
            final(self).pending is None,
            final(self).batch_size == old(self).batch_size,
            final(self).exhausted == old(self).exhausted,
    {
        self.pending.take()
    }

    /// The scan has found its last rows.
    pub fn finish(&mut self)
        ensures
            final(self).exhausted,
            final(self).pending == old(self).pending,
            final(self).batch_size == old(self).batch_size,
    {
        self.exhausted = true;
    }

    /// Adds a range to a batch: as much of it as fits.  What does not fit is kept for the
    /// next batch.
    pub fn fill(&mut self, batch: &mut BatchPlan, range: PartitionRowRange)
        requires
            old(batch).wf(),
            old(batch).unfinished(),
            range.row_range.offset + range.row_range.length <= u64::MAX,
        ensures
            fills(*old(self), *old(batch), range, *final(self), *final(batch)),
    {
        let length: u64 = range.row_range.length;
        let offset: u64 = range.row_range.offset;
        let ghost heads = batch.heads@;
        let mut take: u64 = length;
        match batch.size {
            Some(n) => {
                let room: usize = n - batch.rows;
                if length > room as u64 {
                    take = room as u64;
                    self.pending = Some(
                        PartitionRowRange {
                            partition: range.partition.clone(),
                            row_range: RowRange::new(offset + take, length - take),
                        },
                    );
                }
                batch.rows = batch.rows + take as usize;
            },
            None => {},
        }
        batch.heads.push(
            PartitionRowRange { partition: range.partition, row_range: RowRange::new(offset, take) },
        );
        proof {
            assert(batch.heads@.drop_last() =~= heads);
            assert(pieces_of(batch.heads@) =~= pieces_of(heads).push(piece(batch.heads@.last())));
            lemma_rows_in_push(pieces_of(heads), piece(batch.heads@.last()));
        }
    }
}

/// A range is added to a batch: as much of it as there is room for, behind what the batch
/// has; the rest waits.
pub open spec fn fills(
    reader: TableReader,
    batch: BatchPlan,
    range: PartitionRowRange,
    reader_after: TableReader,
    batch_after: BatchPlan,
) -> bool {
    &&& reader_after.batch_size == reader.batch_size
    &&& reader_after.exhausted == reader.exhausted
    &&& batch_after.wf()
    &&& batch_after.size == batch.size
    &&& pieces_of(batch_after.heads@) == pieces_of(batch.heads@).push(
        match batch.size {
            Some(n) => head_of(piece(range), n - batch.rows),
            None => piece(range),
        },
    )
    &&& match batch.size {
        Some(n) if n - batch.rows < range.row_range.length => {
            reader_after.pending matches Some(rest) && piece(rest) == rest_of(
                piece(range),
                n - batch.rows,
            )
        },
        _ => reader_after.pending == reader.pending,
    }
}

/// Rows of a partition: its name, the first row, and how many.
pub type Piece = (Seq<char>, int, int);

pub open spec fn piece(range: PartitionRowRange) -> Piece {
    (range.partition@, range.row_range.offset as int, range.row_range.length as int)
}

pub open spec fn pieces_of(ranges: Seq<PartitionRowRange>) -> Seq<Piece> {
    Seq::new(ranges.len(), |i: int| piece(ranges[i]))
}

/// The first rows of a piece, so many as there is room for.
pub open spec fn head_of(p: Piece, room: int) -> Piece {
    (
        p.0,
        p.1,
        if p.2 <= room {
            p.2
        } else {
            room
        },
    )
}

/// The rows of a piece after the first ones.
pub open spec fn rest_of(p: Piece, room: int) -> Piece {
    (p.0, p.1 + room, p.2 - room)
}

/// The rows of a piece, one by one.
pub open spec fn rows_at(p: Piece) -> Seq<(Seq<char>, int)> {
    Seq::new(p.2 as nat, |i: int| (p.0, p.1 + i))
}

/// The rows of pieces, one by one.
pub open spec fn rows_in(pieces: Seq<Piece>) -> Seq<(Seq<char>, int)>
    decreases pieces.len(),
{
    if pieces.len() == 0 {
        Seq::empty()
    } else {
        rows_at(pieces[0]) + rows_in(pieces.drop_first())
    }
}

proof fn lemma_rows_in_push(pieces: Seq<Piece>, p: Piece)
    ensures
        rows_in(pieces.push(p)) == rows_in(pieces) + rows_at(p),
    decreases pieces.len(),
{
    let all = pieces.push(p);
    if pieces.len() == 0 {
        assert(all.drop_first() =~= Seq::empty());
        assert(rows_in(all.drop_first()) =~= Seq::empty());
        assert(rows_in(all) =~= rows_at(p));
    } else {
        lemma_rows_in_push(pieces.drop_first(), p);
        assert(all.drop_first() =~= pieces.drop_first().push(p));
        assert(rows_in(all) =~= rows_in(pieces) + rows_at(p));
    }
}

/// A batch that is being put together.
#[derive(Debug)]
pub struct BatchPlan {
    /// How many rows it shall have; it is one range, however long, where this is not said.
    pub size: Option<usize>,
    /// The rows to read for it.
    pub heads: Vec<PartitionRowRange>,
    /// How many they are, where that is counted.
    pub rows: usize,
}

impl BatchPlan {
    /// The rows are counted, and are not too many.
    pub open spec fn wf(self) -> bool {
        self.size matches Some(n) ==> self.rows == rows_in(pieces_of(self.heads@)).len() && self.rows
            <= n
    }

    /// The batch lacks rows.
    pub open spec fn unfinished(self) -> bool {
        match self.size {
            Some(n) => self.rows < n,
            None => self.heads@.len() == 0,
        }
    }

    pub fn new(size: Option<usize>) -> (batch: Self)
        ensures
            batch.wf(),
            batch.size == size,
            batch.heads@.len() == 0,
            batch.rows == 0,
    {
        BatchPlan { size, heads: Vec::new(), rows: 0 }
    }

    pub fn wants_more(&self) -> (yes: bool)
        ensures
            yes == self.unfinished(),
    {
        match self.size {
            Some(n) => self.rows < n,
            None => self.heads.len() == 0,
        }
    }
}

/// The pieces that make a batch of so many rows, and those that are left.
pub open spec fn batch_of(pieces: Seq<Piece>, room: int) -> (Seq<Piece>, Seq<Piece>)
    decreases pieces.len(),
{
    if pieces.len() == 0 || room <= 0 {
        (Seq::empty(), pieces)
    } else if pieces[0].2 <= room {
        let (heads, left) = batch_of(pieces.drop_first(), room - pieces[0].2);
        (seq![pieces[0]] + heads, left)
    } else {
        (
            seq![head_of(pieces[0], room)],
            seq![rest_of(pieces[0], room)] + pieces.drop_first(),
        )
    }
}

/// No piece has fewer than no rows.
pub open spec fn counted(pieces: Seq<Piece>) -> bool {
    forall|i: int| 0 <= i < pieces.len() ==> 0 <= (#[trigger] pieces[i]).2
}

/// A batch has the first rows in their order, as many as it shall have or as there are,
/// and what is left has the others.
pub proof fn law_batch_keeps_rows(pieces: Seq<Piece>, room: int)
    requires
        counted(pieces),
        0 <= room,
    ensures
        ({
            let rows = rows_in(pieces);
            let n = if rows.len() <= room {
                rows.len() as int
            } else {
                room
            };
            let (heads, left) = batch_of(pieces, room);
            &&& rows_in(heads) == rows.take(n)
            &&& rows_in(left) == rows.skip(n)
            &&& counted(left)
        }),
    decreases pieces.len(),
{
    let rows = rows_in(pieces);
    let (heads, left) = batch_of(pieces, room);
    if pieces.len() == 0 || room <= 0 {
        assert(rows_in(heads) =~= rows.take(0));
        assert(rows_in(left) =~= rows.skip(0));
    } else {
        let p = pieces[0];
        let tail = pieces.drop_first();
        assert(counted(tail)) by {
            assert forall|i: int| 0 <= i < tail.len() implies 0 <= (#[trigger] tail[i]).2 by {
                assert(tail[i] == pieces[i + 1]);
            }
        }
        if p.2 <= room {
            law_batch_keeps_rows(tail, room - p.2);
            let (more, _) = batch_of(tail, room - p.2);
            let n = if rows.len() <= room {
                rows.len() as int
            } else {
                room
            };
            assert(heads.drop_first() =~= more);
            assert(rows.len() == p.2 + rows_in(tail).len());
            assert(rows_in(heads) =~= rows_at(p) + rows_in(more));
            assert(rows_in(heads) =~= rows.take(n));
            assert(rows_in(left) =~= rows.skip(n));
        } else {
            assert(heads.drop_first() =~= Seq::empty());
            assert(rows_in(heads.drop_first()) =~= Seq::empty());
            assert(left.drop_first() =~= tail);
            assert(rows_in(heads) =~= rows_at(head_of(p, room)));
            assert(rows_in(left) =~= rows_at(rest_of(p, room)) + rows_in(tail));
            assert(rows_in(heads) =~= rows.take(room));
            assert(rows_in(left) =~= rows.skip(room));
            assert forall|i: int| 0 <= i < left.len() implies 0 <= (#[trigger] left[i]).2 by {
                if i > 0 {
                    assert(left[i] == pieces[i]);
                }
            }
        }
    }
}

/// What waits for the next batch.
pub open spec fn waiting(reader: TableReader) -> Seq<Piece> {
    match reader.pending {
        Some(rest) => seq![piece(rest)],
        None => Seq::empty(),
    }
}

/// A reader that has nothing waiting adds ranges in turn to a batch that has none, for as
/// long as the batch lacks rows.
pub open spec fn filling(
    readers: Seq<TableReader>,
    batches: Seq<BatchPlan>,
    ranges: Seq<PartitionRowRange>,
    size: usize,
) -> bool {
    &&& readers.len() == ranges.len() + 1
    &&& batches.len() == ranges.len() + 1
    &&& readers[0].pending is None
    &&& batches[0].wf()
    &&& batches[0].size == Some(size)
    &&& batches[0].heads@.len() == 0
    &&& forall|i: int|
        0 <= i < ranges.len() ==> batches[i].unfinished() && fills(
            readers[i],
            batches[i],
            #[trigger] ranges[i],
            readers[i + 1],
            batches[i + 1],
        )
}

/// After `i` ranges a batch has what a batch has of the pieces up to there.
proof fn lemma_filling(
    readers: Seq<TableReader>,
    batches: Seq<BatchPlan>,
    ranges: Seq<PartitionRowRange>,
    size: usize,
    i: int,
    more: Seq<Piece>,
)
    requires
        filling(readers, batches, ranges, size),
        0 <= i <= ranges.len(),
    ensures
        batches[i].wf(),
        batches[i].size == Some(size),
        ({
            let heads = pieces_of(batches[i].heads@);
            let all = batch_of(pieces_of(ranges.take(i)) + more, size as int);
            let rest = batch_of(more, size - batches[i].rows);
            match readers[i].pending {
                None => all == (heads + rest.0, rest.1),
                Some(r) => batches[i].rows == size && all == (heads, seq![piece(r)] + more),
            }
        }),
    decreases i,
{
    let pieces = pieces_of(ranges.take(i)) + more;
    let heads = pieces_of(batches[i].heads@);
    if i == 0 {
        assert(pieces =~= more);
        assert(heads =~= Seq::empty());
        assert(rows_in(heads) =~= Seq::empty());
        assert(heads + batch_of(more, size as int).0 =~= batch_of(more, size as int).0);
    } else {
        let j = i - 1;
        let p = piece(ranges[j]);
        let tail = seq![p] + more;
        let heads0 = pieces_of(batches[j].heads@);
        let room = size - batches[j].rows;
        assert(batches[j].unfinished() && fills(
            readers[j],
            batches[j],
            ranges[j],
            readers[j + 1],
            batches[j + 1],
        ));
        lemma_filling(readers, batches, ranges, size, j, tail);
        assert(pieces_of(ranges.take(j)) + tail =~= pieces);
        assert(tail.drop_first() =~= more);
        lemma_rows_in_push(heads0, head_of(p, room));
        assert(heads == heads0.push(head_of(p, room)));
        assert(rows_in(heads).len() == rows_in(heads0).len() + rows_at(head_of(p, room)).len());
        if p.2 <= room {
            let (h, l) = batch_of(more, room - p.2);
            assert(batch_of(tail, room) == (seq![p] + h, l));
            assert(heads0 + (seq![p] + h) =~= heads + h);
        } else {
            assert(batch_of(tail, room) == (
                seq![head_of(p, room)],
                seq![rest_of(p, room)] + more,
            ));
            assert(heads0 + seq![head_of(p, room)] =~= heads);
        }
    }
}

/// Filling a batch range by range, until it has its rows or there are no more ranges, makes
/// the batch of those ranges; and what waits comes first in what is left of them.
pub proof fn law_filling_makes_batch(
    readers: Seq<TableReader>,
    batches: Seq<BatchPlan>,
    ranges: Seq<PartitionRowRange>,
    size: usize,
    more: Seq<Piece>,
)
    requires
        filling(readers, batches, ranges, size),
        !batches.last().unfinished() || more.len() == 0,
    ensures
        batch_of(pieces_of(ranges) + more, size as int) == (
            pieces_of(batches.last().heads@),
            waiting(readers.last()) + more,
        ),
{
    let i = ranges.len() as int;
    lemma_filling(readers, batches, ranges, size, i, more);
    assert(ranges.take(i) =~= ranges);
    assert(pieces_of(batches[i].heads@) + Seq::empty() =~= pieces_of(batches[i].heads@));
    assert(Seq::<Piece>::empty() + more =~= more);
}

/// What is left of pieces after `k` batches.
pub open spec fn left_after_batches(pieces: Seq<Piece>, size: int, k: nat) -> Seq<Piece>
    decreases k,
{
    if k == 0 {
        pieces
    } else {
        batch_of(left_after_batches(pieces, size, (k - 1) as nat), size).1
    }
}

/// A number that is not beyond `limit`.
pub open spec fn up_to(n: int, limit: int) -> int {
    if n <= limit {
        n
    } else {
        limit
    }
}

/// Batches of `size` rows cut the rows of a table in order: batch `k` has rows `k * size`
/// up to, but without, `(k + 1) * size`, as far as there are any.
pub proof fn law_batches_in_order(pieces: Seq<Piece>, size: int, k: nat)
    requires
        counted(pieces),
        0 < size,
    ensures
        ({
            let rows = rows_in(pieces);
            let left = left_after_batches(pieces, size, k);
            let from = up_to(k * size, rows.len() as int);
            &&& counted(left)
            &&& rows_in(left) == rows.skip(from)
            &&& rows_in(batch_of(left, size).0) == rows.subrange(
                from,
                up_to((k + 1) * size, rows.len() as int),
            )
        }),
    decreases k,
{
    let rows = rows_in(pieces);
    let left = left_after_batches(pieces, size, k);
    let from = up_to(k * size, rows.len() as int);
    assert(0 <= k * size) by (nonlinear_arith)
        requires
            0 < size,
            0 <= k,
    ;
    assert((k + 1) * size == k * size + size) by (nonlinear_arith);
    if k == 0 {
        assert(k * size == 0) by (nonlinear_arith)
            requires
                k == 0,
        ;
        assert(rows.skip(0) =~= rows);
    } else {
        let j = (k - 1) as nat;
        law_batches_in_order(pieces, size, j);
        let before = left_after_batches(pieces, size, j);
        assert(0 <= j * size) by (nonlinear_arith)
            requires
                0 < size,
                0 <= j,
        ;
        assert((j + 1) * size == j * size + size) by (nonlinear_arith);
        law_batch_keeps_rows(before, size);
        assert(rows_in(left) =~= rows.skip(from));
    }
    law_batch_keeps_rows(left, size);
    let to = up_to((k + 1) * size, rows.len() as int);
    assert(rows.skip(from).take(to - from) =~= rows.subrange(from, to));
}

/// The fields that are read where none are named: all but symbol and time, which are
/// always read.
pub open spec fn plain_fields(schema: Schema) -> Seq<Seq<char>> {
    names_but(schema.fields@.len() as int, schema)
}

/// The names of the first `n` fields without symbol and time.
pub open spec fn names_but(n: int, schema: Schema) -> Seq<Seq<char>>
    decreases n,
{
    if n <= 0 {
        Seq::empty()
    } else {
        let front = names_but(n - 1, schema);
        let name = schema.fields@[n - 1].name@;
        if name == "sym"@ || name == "time"@ {
            front
        } else {
            front.push(name)
        }
    }
}

/// The fields to read.
pub fn resolve_projection(projection: Vec<String>, schema: &Schema) -> (out: Vec<String>)
    ensures
        if projection@.len() > 0 {
            out == projection
        } else {
            text::texts(out@) == plain_fields(*schema)
        },
{
    if projection.len() > 0 {
        return projection;
    }
    let mut out: Vec<String> = Vec::new();
    let mut k: usize = 0;
    assert(text::texts(out@) =~= Seq::empty());
    while k < schema.fields.len()
        invariant
            k <= schema.fields@.len(),
            text::texts(out@) == names_but(k as int, *schema),
        decreases schema.fields.len() - k,
    {
        let name = schema.fields[k].name.as_str();
        let ghost before = out@;
        if !text::same(name, "sym") && !text::same(name, "time") {
            out.push(name.to_owned());
            assert(text::texts(out@) =~= text::texts(before).push(name@));
        }
        k += 1;
    }
    out
}

/// The segments of column `j` of all views, one view after the other.
pub open spec fn joined<'a>(views: Seq<DataView<'a>>, j: int) -> Seq<ColumnSegment<'a>>
    decreases views.len(),
{
    if views.len() == 0 {
        Seq::empty()
    } else {
        joined(views.drop_last(), j) + views.last().columns@[j].spec_segments()
    }
}

/// Rows of all views together.
pub open spec fn joined_rows(views: Seq<DataView<'_>>) -> nat
    decreases views.len(),
{
    if views.len() == 0 {
        0
    } else {
        joined_rows(views.drop_last()) + views.last().spec_length()
    }
}

/// The rows of two lists of segments follow each other.
pub proof fn lemma_total_rows_add(a: Seq<ColumnSegment<'_>>, b: Seq<ColumnSegment<'_>>)
    ensures
        column::total_rows(a + b) == column::total_rows(a) + column::total_rows(b),
    decreases b.len(),
{
    if b.len() > 0 {
        assert((a + b).drop_last() =~= a + b.drop_last());
        lemma_total_rows_add(a, b.drop_last());
    } else {
        assert(a + b =~= a);
    }
}

/// A row of two lists of segments is a row of the first or one of the second.
pub proof fn lemma_row_in_add(a: Seq<ColumnSegment<'_>>, b: Seq<ColumnSegment<'_>>, row: int)
    requires
        0 <= row,
    ensures
        column::row_in(a + b, row) == if row < column::total_rows(a) {
            column::row_in(a, row)
        } else {
            column::row_in(b, row - column::total_rows(a))
        },
    decreases b.len(),
{
    if b.len() > 0 {
        assert((a + b).drop_last() =~= a + b.drop_last());
        lemma_total_rows_add(a, b.drop_last());
        lemma_row_in_add(a, b.drop_last(), row);
    } else {
        assert(a + b =~= a);
        column::lemma_row_in_end(a, row);
    }
}

/// Row `i` of view `k` follows the rows of the views before.
pub proof fn law_joined_row(views: Seq<DataView<'_>>, j: int, k: int, i: int)
    requires
        0 <= k < views.len(),
        0 <= i < views[k].spec_length(),
        forall|m: int|
            0 <= m < views.len() ==> column::total_rows(
                (#[trigger] views[m]).columns@[j].spec_segments(),
            ) == views[m].spec_length(),
    ensures
        column::row_in(joined(views, j), joined_rows(views.take(k)) + i) == column::row_in(
            views[k].columns@[j].spec_segments(),
            i,
        ),
        column::total_rows(joined(views, j)) == joined_rows(views),
    decreases views.len(),
{
    let front = views.drop_last();
    let last = views.last();
    assert(last == views[views.len() - 1]);
    lemma_joined_len(front, j);
    lemma_joined_len(views, j);
    let at = joined_rows(views.take(k)) + i;
    lemma_row_in_add(joined(front, j), last.columns@[j].spec_segments(), at);
    if k < front.len() {
        assert(front.take(k) =~= views.take(k));
        assert(front[k] == views[k]);
        law_joined_row(front, j, k, i);
        lemma_joined_rows_below(front, k);
    } else {
        assert(views.take(k) =~= front);
    }
}

proof fn lemma_joined_len(views: Seq<DataView<'_>>, j: int)
    requires
        forall|m: int|
            0 <= m < views.len() ==> column::total_rows(
                (#[trigger] views[m]).columns@[j].spec_segments(),
            ) == views[m].spec_length(),
    ensures
        column::total_rows(joined(views, j)) == joined_rows(views),
    decreases views.len(),
{
    if views.len() > 0 {
        assert(views.last() == views[views.len() - 1]);
        lemma_joined_len(views.drop_last(), j);
        lemma_total_rows_add(
            joined(views.drop_last(), j),
            views.last().columns@[j].spec_segments(),
        );
    }
}

proof fn lemma_joined_rows_below(views: Seq<DataView<'_>>, k: int)
    requires
        0 <= k < views.len(),
    ensures
        joined_rows(views.take(k)) + views[k].spec_length() <= joined_rows(views),
    decreases views.len(),
{
    if k < views.len() - 1 {
        assert(views.drop_last().take(k) =~= views.take(k));
        lemma_joined_rows_below(views.drop_last(), k);
    } else {
        assert(views.take(k) =~= views.drop_last());
    }
}

/// Views put together: the fields of the first, and in each column the segments of all.
pub open spec fn assembles<'a>(out: DataView<'a>, views: Seq<DataView<'a>>) -> bool {
    &&& out.wf()
    &&& out.schema.fields@ == views[0].schema.fields@
    &&& forall|j: int|
        0 <= j < out.columns@.len() ==> (#[trigger] out.columns@[j]).spec_segments() == joined(
            views,
            j,
        )
    &&& out.columns@.len() > 0 ==> out.spec_length() == joined_rows(views)
}

/// Puts the rows of views together without copying them.
pub fn assemble_batch<'a>(views: &[DataView<'a>]) -> (r: Result<Option<DataView<'a>>, FormatError>)
    requires
        forall|k: int|
            0 <= k < views@.len() ==> (#[trigger] views@[k]).wf() && views@[k].columns@.len()
                >= views@[0].columns@.len(),
        joined_rows(views@) <= usize::MAX,
    ensures
        match r {
            Ok(None) => views@.len() == 0,
            Ok(Some(out)) => views@.len() > 0 && assembles(out, views@),
            Err(_) => false,
        },
{
    if views.len() == 0 {
        return Ok(None);
    }
    let schema = views[0].schema.clone();
    let count: usize = schema.fields.len();
    let mut columns: Vec<ColumnView<'a>> = Vec::new();
    let mut j: usize = 0;
    while j < count
        invariant
            j <= count,
            count == views@[0].columns@.len(),
            views@.len() > 0,
            schema.fields@ == views@[0].schema.fields@,
            count == schema.fields@.len(),
            forall|k: int|
                0 <= k < views@.len() ==> (#[trigger] views@[k]).wf() && views@[k].columns@.len()
                    >= count,
            joined_rows(views@) <= usize::MAX,
            columns@.len() == j,
            forall|i: int|
                0 <= i < j ==> {
                    &&& (#[trigger] columns@[i]).spec_segments() == joined(views@, i)
                    &&& columns@[i].spec_length() == joined_rows(views@)
                    &&& columns@[i].spec_type() == schema.fields@[i].data_type
                },
        decreases count - j,
    {
        let mut segments: Vec<ColumnSegment<'a>> = Vec::new();
        let mut k: usize = 0;
        assert(joined(views@.take(0), j as int) =~= Seq::empty());
        while k < views.len()
            invariant
                k <= views@.len(),
                j < count,
                forall|k: int|
                    0 <= k < views@.len() ==> (#[trigger] views@[k]).wf()
                        && views@[k].columns@.len() >= count,
                segments@ == joined(views@.take(k as int), j as int),
                k > 0 ==> segments@.len() > 0,
                forall|m: int|
                    0 <= m < k ==> column::total_rows(
                        (#[trigger] views@[m]).columns@[j as int].spec_segments(),
                    ) == views@[m].spec_length(),
            decreases views.len() - k,
        {
            let view = &views[k];
            assert(views@[k as int].wf());
            let more = view.columns[j].segments();
            let ghost before = segments@;
            let mut m: usize = 0;
            while m < more.len()
                invariant
                    m <= more@.len(),
                    segments@ == before + more@.take(m as int),
                decreases more.len() - m,
            {
                segments.push(more[m]);
                assert(segments@ =~= before + more@.take(m + 1));
                m += 1;
            }
            proof {
                assert(more@.take(m as int) =~= more@);
                assert(views@.take(k + 1).drop_last() =~= views@.take(k as int));
                assert(views@.take(k + 1).last() == views@[k as int]);
            }
            k += 1;
        }
        assert(views@.take(k as int) =~= views@);
        proof {
            lemma_joined_len(views@, j as int);
        }
        let column = match ColumnView::new(schema.fields[j].data_type, segments) {
            Ok(column) => column,
            Err(e) => {
                return Err(e);
            },
        };
        columns.push(column);
        j += 1;
    }
    match DataView::new(schema, columns) {
        Ok(out) => {
            proof {
                if out.columns@.len() > 0 {
                    assert(out.columns@[0].spec_length() == joined_rows(views@));
                }
            }
            Ok(Some(out))
        },
        Err(e) => {
            proof {
                assert forall|i: int| 0 <= i < columns@.len() implies #[trigger] DataView::fits(
                    schema,
                    columns@,
                    i,
                ) by {
                    assert(columns@[i].spec_length() == joined_rows(views@));
                    assert(columns@[0].spec_length() == joined_rows(views@));
                }
            }
            Err(e)
        },
    }
}

/// Starts a scan of a table with these partitions.  The time type counts only where the
/// request asks for a range of times.  A table that is not partitioned is scanned whole:
/// there a range of times only picks rows.
pub fn scan_table(
    names: Vec<String>,
    scheme: PartitionScheme,
    tt: TimeType,
    request: TableScanRequest,
) -> (r: Result<TableScanner, TableError>)
    ensures
        match r {
            Ok(scanner) => {
                &&& scanner.wf()
                &&& scanner.next_idx == 0
                &&& scanner.current is None
                &&& scanner.projection == request.projection
                &&& scanner.remaining == request.limit
                &&& scanner.max_parallelism == request.max_parallelism
                &&& match scanner.predicate {
                    None => request.sym is None && request.time is None && request.predicate
                        is None,
                    Some(Predicate::And(parts)) => parts@.len() > 0 && composed(
                        parts@,
                        request.sym,
                        request.time,
                        request.predicate,
                    ),
                    Some(_) => false,
                }
                &&& match request.time {
                    Some((lo, hi)) if scheme !is Unpartitioned => text::texts(scanner.partitions@)
                        == Seq::new(
                        pruned(bounds_of(names@, scheme, tt), lo as int, hi as int).len(),
                        |i: int| pruned(bounds_of(names@, scheme, tt), lo as int, hi as int)[i].0,
                    ),
                    _ => scanner.partitions == names,
                }
            },
            Err(e) => request.time is Some && scheme !is Unpartitioned && exists|i: int|
                #[trigger] table::first_bad_name(names@, scheme, tt, i) && e.says(
                    "bad partition name "@ + names@[i]@,
                ),
        },
        request.time is Some && scheme !is Unpartitioned ==> r is Ok == (forall|i: int|
            0 <= i < names@.len() ==> partition::range_values(scheme, (#[trigger] names@[i])@, tt)
                is Some),
{
    let time = if scheme.allows_partitions() {
        request.time
    } else {
        None
    };
    let predicate = compose_predicate(request.sym, request.time, request.predicate);
    let partitions = match time {
        None => names,
        Some((lo, hi)) => match select_partitions(names.as_slice(), scheme, tt, lo, hi) {
            Ok(selected) => {
                proof {
                    let kept = pruned(bounds_of(names@, scheme, tt), lo as int, hi as int);
                    assert(text::texts(selected@) =~= Seq::new(
                        kept.len(),
                        |i: int| kept[i].0,
                    ));
                }
                selected
            },
            Err(e) => {
                return Err(e);
            },
        },
    };
    Ok(
        TableScanner::new(
            partitions,
            predicate,
            request.projection,
            request.limit,
            request.max_parallelism,
        ),
    )
}

/// The partitions that are left are in the order in which they start.
pub proof fn law_pruned_in_order(list: Seq<Bounds>, lo: int, hi: int, i: int, j: int)
    requires
        0 <= i < j < pruned(list, lo, hi).len(),
    ensures
        pruned(list, lo, hi)[i].1 <= pruned(list, lo, hi)[j].1,
{
    let sorted = by_start(list);
    lemma_by_start(list);
    lemma_ended_by(sorted, lo);
    let from = ended_by(sorted, lo);
    let rest = sorted.skip(from);
    lemma_started_before(rest, hi);
    assert(pruned(list, lo, hi)[i] == sorted[from + i]);
    assert(pruned(list, lo, hi)[j] == sorted[from + j]);
}

/// The bounds of a partition are its name and the times that its name stands for.
pub proof fn law_bounds_by_name(
    names: Seq<String>,
    scheme: PartitionScheme,
    tt: TimeType,
    i: int,
    lo: int,
    hi: int,
)
    requires
        0 <= i < names.len(),
        partition::range_values(scheme, names[i]@, tt) == Some((lo, hi)),
    ensures
        bounds_of(names, scheme, tt).len() == names.len(),
        bounds_of(names, scheme, tt)[i] == (names[i]@, lo, hi),
{
}

/// The conditions that a request for a symbol, for times and for a condition comes to hold of
/// a row exactly where its symbol is the one asked for, its time is no earlier than the first
/// and before the last, and, behind them, the condition stands as it was given.
pub proof fn law_request_means(
    parts: Seq<Predicate>,
    sym: Option<String>,
    time: Option<(i64, i64)>,
    predicate: Option<Predicate>,
    s: Seq<char>,
    t: int,
)
    requires
        composed(parts, sym, time, predicate),
    ensures
        predicate matches Some(p) ==> parts.len() > 0 && parts.last() == p,
        predicate is None ==> forall|i: int|
            0 <= i < parts.len() ==> ((#[trigger] parts[i]) matches Predicate::Cmp {
                column,
                op: _,
                value: _,
            } && (column@ == "sym"@ || column@ == "time"@)),
        predicate is None ==> ((forall|i: int|
            0 <= i < parts.len() ==> match (#[trigger] parts[i]) {
                Predicate::Cmp { column, op: CmpOp::Eq, value: Scalar::Str(v) } => column@ == "sym"@
                    && v@ == s,
                Predicate::Cmp { column, op: CmpOp::Ge, value: Scalar::Int(v) } => column@
                    == "time"@ && t >= v,
                Predicate::Cmp { column, op: CmpOp::Lt, value: Scalar::Int(v) } => column@
                    == "time"@ && t < v,
                _ => false,
            }) <==> (sym matches Some(x) ==> x@ == s) && (time matches Some((lo, hi)) ==> lo <= t
            < hi)),
{
    let a: int = if sym is Some {
        1
    } else {
        0
    };
    if sym is Some {
        assert(parts[0] is Cmp);
    }
    if time is Some {
        assert(parts[a] is Cmp);
        assert(parts[a + 1] is Cmp);
    }
}

/// Rows are cut at their end, and only to what is left of a limit.
pub proof fn law_rows_cut_at_end(range: RowRange, remaining: Option<u64>)
    ensures
        capped(range, remaining).offset == range.offset,
        capped(range, remaining).length <= range.length,
        remaining is None ==> capped(range, remaining).length == range.length,
        remaining matches Some(left) ==> capped(range, remaining).length <= left && (capped(
            range,
            remaining,
        ).length == left || capped(range, remaining).length == range.length),
        remaining matches Some(left) ==> (left_after(remaining, capped(range, remaining).length)
            matches Some(n) && n + capped(range, remaining).length == left),
        remaining is None ==> left_after(remaining, range.length) is None,
{
}

/// A batch without a size takes the rows as they come, and leaves none of them waiting.
pub proof fn law_batch_without_size(
    reader: TableReader,
    batch: BatchPlan,
    range: PartitionRowRange,
    reader_after: TableReader,
    batch_after: BatchPlan,
)
    requires
        batch.size is None,
        batch.heads@.len() == 0,
        fills(reader, batch, range, reader_after, batch_after),
    ensures
        batch.unfinished(),
        !batch_after.unfinished(),
        batch_after.heads@.len() == 1,
        batch_after.heads@[0].partition@ == range.partition@,
        batch_after.heads@[0].row_range.offset == range.row_range.offset,
        batch_after.heads@[0].row_range.length == range.row_range.length,
        reader_after.pending == reader.pending,
{
    let after = pieces_of(batch_after.heads@);
    assert(after.len() == 1);
    assert(after[0] == piece(range));
    assert(after[0] == piece(batch_after.heads@[0]));
}

/// The fields beside symbol and time are the columns of a schema that have neither name, in
/// their order.
pub proof fn law_plain_fields(schema: Schema, n: int, name: Seq<char>)
    requires
        0 <= n <= schema.fields@.len(),
    ensures
        names_but(n, schema).contains(name) <==> name != "sym"@ && name != "time"@ && exists|i: int|
            0 <= i < n && (#[trigger] schema.fields@[i]).name@ == name,
        names_but(0, schema).len() == 0,
        n > 0 && (schema.fields@[n - 1].name@ == "sym"@ || schema.fields@[n - 1].name@ == "time"@)
            ==> names_but(n, schema) == names_but(n - 1, schema),
        n > 0 && schema.fields@[n - 1].name@ != "sym"@ && schema.fields@[n - 1].name@ != "time"@
            ==> names_but(n, schema) == names_but(n - 1, schema) + seq![schema.fields@[n - 1].name@],
    decreases n,
{
    if n > 0 {
        law_plain_fields(schema, n - 1, name);
        let front = names_but(n - 1, schema);
        let last = schema.fields@[n - 1].name@;
        assert(front.push(last) =~= front + seq![last]);
        if last != "sym"@ && last != "time"@ {
            assert(front.push(last)[front.len() as int] == last);
            if front.contains(name) {
                let k = choose|k: int| 0 <= k < front.len() && front[k] == name;
                assert(front.push(last)[k] == name);
            }
            if front.push(last).contains(name) && !front.contains(name) {
                let k = choose|k: int|
                    0 <= k < front.push(last).len() && front.push(last)[k] == name;
                if k < front.len() {
                    assert(front[k] == name);
                }
            }
        }
    }
}

/// Values cannot be told apart where they are the same number, the same bits or the same text,
/// and conditions where they compare the same columns with such values by the same operators.
pub proof fn law_same_conditions(a: Predicate, b: Predicate, x: Scalar, y: Scalar)
    ensures
        x matches Scalar::Int(n) ==> (same_scalar(x, y) <==> y == Scalar::Int(n)),
        x matches Scalar::Float(n) ==> (same_scalar(x, y) <==> y == Scalar::Float(n)),
        x matches Scalar::Str(s) ==> (same_scalar(x, y) <==> (y matches Scalar::Str(t) && s@ == t@)),
        same_condition(a, b) ==> (a is Cmp <==> b is Cmp),
        a matches Predicate::Cmp { column, op, value } ==> (b matches Predicate::Cmp {
            column: c,
            op: o,
            value: v,
        } ==> (same_condition(a, b) <==> column@ == c@ && op == o && same_scalar(value, v))),
        a matches Predicate::And(p) ==> (b matches Predicate::And(q) ==> (same_condition(a, b)
            ==> p@.len() == q@.len() && forall|i: int|
            0 <= i < p@.len() ==> same_condition(#[trigger] p@[i], q@[i]))),
{
}

/// Rows that were put together from several scans are the rows of the scans, one scan after
/// the other, each with the values that it has there.
pub proof fn law_assembled_row<'a>(
    out: DataView<'a>,
    views: Seq<DataView<'a>>,
    j: int,
    k: int,
    i: int,
)
    requires
        assembles(out, views),
        0 <= j < out.columns@.len(),
        0 <= k < views.len(),
        0 <= i < views[k].spec_length(),
        forall|m: int|
            0 <= m < views.len() ==> column::total_rows(
                (#[trigger] views[m]).columns@[j].spec_segments(),
            ) == views[m].spec_length(),
        out.columns@[j].spec_type() == views[k].columns@[j].spec_type(),
    ensures
        out.columns@[j].cell(joined_rows(views.take(k)) + i) == views[k].columns@[j].cell(i),
        out.columns@[j].row_valid(joined_rows(views.take(k)) + i) == views[k].columns@[j].row_valid(
            i,
        ),
        out.spec_length() == joined_rows(views),
{
    law_joined_row(views, j, k, i);
}

/// The rows of scans are those of some of them and of the others.
pub proof fn law_joined_rows_add<'a>(a: Seq<DataView<'a>>, b: Seq<DataView<'a>>)
    ensures
        joined_rows(a + b) == joined_rows(a) + joined_rows(b),
        a.len() == 0 ==> joined_rows(a) == 0,
        a.len() == 1 ==> joined_rows(a) == a[0].spec_length(),
    decreases b.len(),
{
    reveal_with_fuel(joined_rows, 2);
    if b.len() == 0 {
        assert(a + b =~= a);
    } else {
        law_joined_rows_add(a, b.drop_last());
        assert((a + b).drop_last() =~= a + b.drop_last());
    }
}

} // verus!

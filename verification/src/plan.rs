//! How the work of creating and changing a table is shared out.

use vstd::prelude::*;
use vstd::string::*;
use crate::dataview::Data;
use crate::gather;
use crate::gather::RowSpan;
use crate::partition::PartitionScheme;
use crate::schema;
use crate::spans;
use crate::table;
use crate::table::TableError;
use crate::types::{Compression, TimeType};

verus! {

/// How a table is worked on.
#[derive(Debug, Clone)]
pub struct TableOptions {
    /// How many threads may be used, all in all; as many as the machine offers where
    /// nothing is said.
    pub max_parallelism: Option<usize>,
    /// How new fields are compressed; not at all where nothing is said.
    pub compression: Option<Compression>,
    /// About how many rows the chunks of new fields hold.
    pub chunk_target_rows: Option<usize>,
}

/// The rows of a chunk where nothing is said.
pub const CHUNK_ROWS: usize = 8192;

impl Default for TableOptions {
    fn default() -> (options: Self)
        ensures
            options.max_parallelism is None,
            options.compression is None,
            options.chunk_target_rows is None,
    {
        TableOptions { max_parallelism: None, compression: None, chunk_target_rows: None }
    }
}

impl TableOptions {
    /// The threads that may be used: at least one.
    pub open spec fn threads(self, available: usize) -> nat {
        let n = match self.max_parallelism {
            Some(n) => n,
            None => available,
        };
        if n == 0 {
            1
        } else {
            n as nat
        }
    }

    pub fn budget(&self, available: usize) -> (n: usize)
        ensures
            n == self.threads(available),
    {
        let n: usize = match self.max_parallelism {
            Some(n) => n,
            None => available,
        };
        if n == 0 {
            1
        } else {
            n
        }
    }

    /// How new fields are packed: their compression and the rows of a chunk.
    pub fn packing(&self) -> (p: (Compression, usize))
        ensures
            p.0 == match self.compression {
                Some(c) => c,
                None => Compression::Uncompressed,
            },
            p.1 == match self.chunk_target_rows {
                Some(n) => n,
                None => CHUNK_ROWS,
            },
    {
        (
            match self.compression {
                Some(c) => c,
                None => Compression::Uncompressed,
            },
            match self.chunk_target_rows {
                Some(n) => n,
                None => CHUNK_ROWS,
            },
        )
    }
}

/// Items dealt out in turn: item `i` is number `i / parts` of group `i % parts`.
pub open spec fn dealt(groups: Seq<Vec<usize>>, count: nat, parts: nat) -> bool {
    &&& groups.len() == parts
    &&& forall|g: int| 0 <= g < parts ==> dealt_to((#[trigger] groups[g])@, g, count, parts)
}

/// The items of one group.
pub open spec fn dealt_to(group: Seq<usize>, g: int, count: nat, parts: nat) -> bool {
    &&& group.len() == (count + parts - 1 - g) / (parts as int)
    &&& forall|k: int| 0 <= k < group.len() ==> #[trigger] group[k] == g + k * parts
}

/// Each item is in one group, and groups hold nothing else.
pub proof fn law_dealt_once(groups: Seq<Vec<usize>>, count: nat, parts: nat, g: int, i: usize)
    requires
        parts > 0,
        dealt(groups, count, parts),
        0 <= g < parts,
    ensures
        groups[g]@.contains(i) == (i < count && g == i as int % parts as int),
{
    let group = groups[g]@;
    let p = parts as int;
    assert(dealt_to(group, g, count, parts));
    if group.contains(i) {
        let k = choose|k: int| 0 <= k < group.len() && group[k] == i;
        assert(group[k] == g + k * p);
        assert(i == g + k * p);
        assert((g + k * p) % p == g && g + k * p < count) by (nonlinear_arith)
            requires
                p > 0,
                0 <= g < p,
                0 <= k < (count + p - 1 - g) / p,
        {
            vstd::arithmetic::div_mod::lemma_fundamental_div_mod(count + p - 1 - g, p);
            vstd::arithmetic::div_mod::lemma_fundamental_div_mod_converse(g + k * p, p, k, g);
            assert((k + 1) * p <= p * ((count + p - 1 - g) / p));
        }
    }
    if i < count && g == i as int % p {
        let k = i as int / p;
        assert(0 <= k < (count + p - 1 - g) / p && g + k * p == i) by (nonlinear_arith)
            requires
                p > 0,
                0 <= i < count,
                g == i as int % p,
                k == i as int / p,
        {
            vstd::arithmetic::div_mod::lemma_fundamental_div_mod(i as int, p);
            vstd::arithmetic::div_mod::lemma_fundamental_div_mod(count + p - 1 - g, p);
            assert(p * (k + 1) <= count + p - 1 - g);
            assert(p * (k + 1) < p * ((count + p - 1 - g) / p + 1));
        }
        assert(group[k] == g + k * p);
    }
}

/// Deals `count` items out to `parts` groups in turn.
pub fn round_robin(count: usize, parts: usize) -> (groups: Vec<Vec<usize>>)
    requires
        parts > 0,
    ensures
        dealt(groups@, count as nat, parts as nat),
{
    let mut groups: Vec<Vec<usize>> = Vec::new();
    let mut g: usize = 0;
    while g < parts
        invariant
            g <= parts,
            parts > 0,
            groups@.len() == g,
            forall|h: int|
                0 <= h < g ==> dealt_to(
                    (#[trigger] groups@[h])@,
                    h,
                    count as nat,
                    parts as nat,
                ),
        decreases parts - g,
    {
        let mut group: Vec<usize> = Vec::new();
        let mut i: usize = g;
        let ghost p = parts as int;
        let ghost total = (count + p - 1 - g) / p;
        let mut more: bool = i < count;
        proof {
            vstd::arithmetic::div_mod::lemma_fundamental_div_mod(count + p - 1 - g, p);
            assert(0 <= total) by (nonlinear_arith)
                requires
                    p > 0,
                    total == (count + p - 1 - g) / p,
                    count + p - 1 - g >= 0,
            ;
            lemma_more(count as int, p, g as int, 0);
        }
        while more
            invariant
                g < parts,
                p == parts,
                total == (count + p - 1 - g) / p,
                group@.len() <= total,
                more == (group@.len() < total),
                more ==> i == g + group@.len() * p && i < count,
                forall|k: int| 0 <= k < group@.len() ==> #[trigger] group@[k] == g + k * p,
            decreases total - group@.len(),
        {
            group.push(i);
            proof {
                lemma_more(count as int, p, g as int, group@.len() as int);
                assert((group@.len() - 1) * p + p == group@.len() * p) by (nonlinear_arith);
            }
            if count - i > parts {
                i = i + parts;
            } else {
                more = false;
            }
        }
        let ghost before = groups@;
        groups.push(group);
        proof {
            assert forall|h: int| 0 <= h < g + 1 implies dealt_to(
                (#[trigger] groups@[h])@,
                h,
                count as nat,
                parts as nat,
            ) by {
                if h < g {
                    assert(groups@[h] == before[h]);
                }
            }
        }
        g += 1;
    }
    groups
}

/// There is an item `k` of group `g` as long as its number is below the count.
proof fn lemma_more(count: int, p: int, g: int, k: int)
    requires
        p > 0,
        0 <= g < p,
        0 <= k,
        0 <= count,
    ensures
        (k < (count + p - 1 - g) / p) == (g + k * p < count),
{
    vstd::arithmetic::div_mod::lemma_fundamental_div_mod(count + p - 1 - g, p);
    let q = (count + p - 1 - g) / p;
    let r = (count + p - 1 - g) % p;
    assert(count + p - 1 - g == p * q + r && 0 <= r < p);
    if k < q {
        assert(k * p + p <= p * q) by (nonlinear_arith)
            requires
                k + 1 <= q,
                p > 0,
        ;
    } else {
        assert(p * q <= k * p) by (nonlinear_arith)
            requires
                q <= k,
                p > 0,
        ;
    }
}

/// What is to be done to create a table.
#[derive(Debug)]
pub enum TablePlan {
    /// Create the directory and nothing in it.
    Empty,
    /// Write all rows to the directory itself.
    Single { max_parallelism: usize },
    /// Write each partition to its own directory.  Groups of partitions are worked on at
    /// the same time, those of a group one after the other, each with
    /// `max_parallelism` threads.
    Partitions {
        buckets: Vec<(String, Vec<RowSpan>)>,
        groups: Vec<Vec<usize>>,
        max_parallelism: usize,
    },
}

/// How many partitions are worked on at the same time.
pub open spec fn partitions_at_once(threads: nat, partitions: nat) -> nat {
    if threads <= partitions {
        threads
    } else {
        partitions
    }
}

/// Threads for each partition.
pub open spec fn threads_each(threads: nat, partitions: nat) -> nat {
    let at_once = partitions_at_once(threads, partitions);
    if at_once <= 1 {
        threads
    } else {
        threads / at_once
    }
}

/// Work on partitions and on their fields together stays within the threads that may
/// be used.
pub proof fn law_parallelism_bounded(threads: nat, partitions: nat)
    requires
        threads > 0,
    ensures
        partitions_at_once(threads, partitions) * threads_each(threads, partitions) <= threads,
        threads_each(threads, partitions) >= 1,
{
    let at_once = partitions_at_once(threads, partitions);
    if at_once > 1 {
        assert(at_once * (threads / at_once) <= threads && threads / at_once >= 1)
            by (nonlinear_arith)
            requires
                1 < at_once <= threads,
        ;
    } else {
        assert(at_once * threads <= threads) by (nonlinear_arith)
            requires
                at_once <= 1,
        ;
    }
}

/// Shares partitions out to threads: the groups to be worked on at the same time, and
/// the threads for each partition.
pub fn share_out(threads: usize, partitions: usize) -> (shares: (Vec<Vec<usize>>, usize))
    requires
        threads > 0,
    ensures
        dealt(
            shares.0@,
            partitions as nat,
            if partitions == 0 {
                1
            } else {
                partitions_at_once(threads as nat, partitions as nat)
            },
        ),
        shares.1 == threads_each(threads as nat, partitions as nat),
{
    let at_once: usize = if threads <= partitions {
        threads
    } else {
        partitions
    };
    if at_once <= 1 {
        return (round_robin(partitions, 1), threads);
    }
    (round_robin(partitions, at_once), threads / at_once)
}

/// The table can be cut by its times.
pub open spec fn cuttable(data: Data, scheme: PartitionScheme) -> bool {
    forall|j: int| #[trigger]
        spans::is_time(data, j) ==> data.columns@[j].wf() && (data.columns@[j].dict is None ==> (
        table::time_type_of(data.columns@[j].data_type) matches Some(tt)
            ==> spans::times_countable(data.columns@[j], tt)))
}

/// The partitions of a table: rows sorted into them by time.
pub open spec fn partitions_of(
    buckets: Seq<(String, Vec<RowSpan>)>,
    data: Data,
    j: int,
    scheme: PartitionScheme,
    tt: TimeType,
) -> bool {
    let times = spans::times_of(data.columns@[j]);
    spans::filed(
        buckets,
        spans::spans_of(spans::keys_of_times(scheme, times, tt)),
        spans::names_of_times(scheme, times, tt),
    )
}

/// Checks the columns of a table that is to be created, and says how its times are stored.
pub fn check_table_input(data: &Data) -> (r: Result<TimeType, TableError>)
    requires
        data.columns@.len() == data.schema.fields@.len(),
    ensures
        ({
            let fields = data.schema.fields@;
            if !schema::has_name(fields, "sym"@) || !schema::has_name(fields, "time"@) {
                r matches Err(e) && e.says("table input requires sym and time columns"@)
            } else {
                forall|j: int| #[trigger]
                    spans::is_time(*data, j) ==> match table::time_type_of(
                        data.columns@[j].data_type,
                    ) {
                        None => r matches Err(e) && e.says(
                            "unsupported time column type "@
                                + data.columns@[j].data_type.variant_name() + " for partitioning"@,
                        ),
                        Some(tt) => r matches Ok(found) && found == tt,
                    }
            }
        }),
        r is Ok ==> exists|j: int| #[trigger] spans::is_time(*data, j),
{
    if data.schema.position("sym").is_none() {
        return Err(TableError::Invalid("table input requires sym and time columns".to_owned()));
    }
    let at: usize = match data.schema.position("time") {
        Some(at) => at,
        None => {
            return Err(
                TableError::Invalid("table input requires sym and time columns".to_owned()),
            );
        },
    };
    proof {
        assert(spans::is_time(*data, at as int));
        assert forall|j: int| #[trigger] spans::is_time(*data, j) implies j == at by {
            gather::lemma_first_named_unique(data.schema.fields@, "time"@, j, at as int);
        }
    }
    table::infer_tt(data.columns[at].data_type)
}

/// Decides how a table is created from its rows.
pub fn plan_table(
    data: &Data,
    scheme: PartitionScheme,
    options: &TableOptions,
    available: usize,
) -> (r: Result<TablePlan, TableError>)
    requires
        data.wf(),
        cuttable(*data, scheme),
    ensures
        ({
            let fields = data.schema.fields@;
            let threads = options.threads(available);
            if !schema::has_name(fields, "sym"@) || !schema::has_name(fields, "time"@) {
                r matches Err(e) && e.says("table input requires sym and time columns"@)
            } else {
                forall|j: int| #[trigger]
                    spans::is_time(*data, j) ==> match table::time_type_of(
                        data.columns@[j].data_type,
                    ) {
                        None => r matches Err(e) && e.says(
                            "unsupported time column type "@
                                + data.columns@[j].data_type.variant_name() + " for partitioning"@,
                        ),
                        Some(tt) => if data.spec_length() == 0 {
                            r matches Ok(TablePlan::Empty)
                        } else if scheme is Unpartitioned {
                            r matches Ok(TablePlan::Single { max_parallelism }) && max_parallelism
                                == threads
                        } else if data.columns@[j].dict is Some {
                            r matches Err(e) && e.says("time column must be fixed-width"@)
                        } else {
                            r matches Ok(
                                TablePlan::Partitions { buckets, groups, max_parallelism },
                            ) && {
                                &&& partitions_of(buckets@, *data, j, scheme, tt)
                                &&& dealt(
                                    groups@,
                                    buckets@.len(),
                                    if buckets@.len() == 0 {
                                        1
                                    } else {
                                        partitions_at_once(threads, buckets@.len())
                                    },
                                )
                                &&& max_parallelism == threads_each(threads, buckets@.len())
                            }
                        },
                    }
            }
        }),
{
    let tt = match check_table_input(data) {
        Ok(tt) => tt,
        Err(e) => {
            return Err(e);
        },
    };
    proof {
        let at = choose|j: int| #[trigger] spans::is_time(*data, j);
        assert forall|j: int| #[trigger] spans::is_time(*data, j) implies j == at by {
            gather::lemma_first_named_unique(data.schema.fields@, "time"@, j, at);
        }
        assert(Data::lengths(data.columns@)[at] == data.spec_length());
    }
    let threads: usize = options.budget(available);
    if data.length() == 0 {
        return Ok(TablePlan::Empty);
    }
    if !scheme.allows_partitions() {
        return Ok(TablePlan::Single { max_parallelism: threads });
    }
    let buckets = match spans::partition_spans(data, scheme, tt) {
        Ok(buckets) => buckets,
        Err(e) => {
            return Err(e);
        },
    };
    let (groups, max_parallelism) = share_out(threads, buckets.len());
    Ok(TablePlan::Partitions { buckets, groups, max_parallelism })
}

/// As many threads are used as are asked for, or as there are where none are asked for, but
/// at least one.
pub proof fn law_threads_asked_for(options: TableOptions, available: usize)
    ensures
        options.threads(available) >= 1,
        options.max_parallelism matches Some(n) ==> (n > 0 ==> options.threads(available) == n),
        options.max_parallelism is None && available > 0 ==> options.threads(available)
            == available,
{
}

/// As many partitions are written at once as there are threads, unless there are fewer
/// partitions; and each gets so many threads that there are not enough for one more each.
pub proof fn law_threads_used(threads: nat, partitions: nat)
    requires
        threads > 0,
        partitions > 0,
    ensures
        partitions_at_once(threads, partitions) == threads || partitions_at_once(
            threads,
            partitions,
        ) == partitions,
        partitions_at_once(threads, partitions) <= threads,
        partitions_at_once(threads, partitions) <= partitions,
        threads < partitions_at_once(threads, partitions) * (threads_each(threads, partitions) + 1),
{
    let n = partitions_at_once(threads, partitions);
    let each = threads_each(threads, partitions);
    assert(threads < n * (each + 1)) by (nonlinear_arith)
        requires
            n > 0,
            each == threads || each == threads / n,
    ;
}

} // verus!

//! What the entries of a table's directory say about the table.

use vstd::prelude::*;
use vstd::slice::slice_subrange;
use vstd::string::*;
use crate::dataview::Data;
use crate::partition::PartitionScheme;
use crate::schema;
use crate::table::TableError;
use crate::text;

verus! {

/// An entry of a directory.
#[derive(Debug)]
pub struct DirEntry {
    pub name: String,
    pub is_dir: bool,
}

/// The text ends with that.
pub open spec fn ends_with(s: Seq<char>, tail: Seq<char>) -> bool {
    tail.len() <= s.len() && s.skip(s.len() - tail.len()) == tail
}

/// A directory that is a partition of the scheme: not hidden, not unfinished, and named
/// by the scheme.
pub open spec fn is_partition(entry: DirEntry, scheme: PartitionScheme) -> bool {
    let name = entry.name@;
    &&& entry.is_dir
    &&& !(name.len() > 0 && name[0] == '.')
    &&& !ends_with(name, ".tmp"@)
    &&& PartitionScheme::named(name) == Some(scheme)
}

/// The names of the partitions of the scheme, as listed.
pub open spec fn partitions_listed(entries: Seq<DirEntry>, scheme: PartitionScheme) -> Seq<
    Seq<char>,
>
    decreases entries.len(),
{
    if entries.len() == 0 {
        Seq::empty()
    } else {
        let front = partitions_listed(entries.drop_last(), scheme);
        if is_partition(entries.last(), scheme) {
            front.push(entries.last().name@)
        } else {
            front
        }
    }
}

/// No two entries share a name.
pub open spec fn distinct(entries: Seq<DirEntry>) -> bool {
    forall|i: int, j: int|
        0 <= i < j < entries.len() ==> (#[trigger] entries[i]).name@ != (
        #[trigger] entries[j]).name@
}

/// A name is listed as that of a partition if one of the entries is that partition; and
/// once, where no two entries share a name.
proof fn lemma_listed(entries: Seq<DirEntry>, scheme: PartitionScheme)
    ensures
        forall|name: Seq<char>| #[trigger]
            partitions_listed(entries, scheme).contains(name) == exists|i: int|
                0 <= i < entries.len() && (#[trigger] entries[i]).name@ == name && is_partition(
                    entries[i],
                    scheme,
                ),
        distinct(entries) ==> partitions_listed(entries, scheme).no_duplicates(),
    decreases entries.len(),
{
    if entries.len() > 0 {
        let front = entries.drop_last();
        lemma_listed(front, scheme);
        let last = entries.last();
        let before = partitions_listed(front, scheme);
        let all = partitions_listed(entries, scheme);
        assert forall|name: Seq<char>| #[trigger] all.contains(name) == exists|i: int|
            0 <= i < entries.len() && (#[trigger] entries[i]).name@ == name && is_partition(
                entries[i],
                scheme,
            ) by {
            if all.contains(name) {
                let at = choose|at: int| 0 <= at < all.len() && all[at] == name;
                if at < before.len() {
                    assert(before[at] == name);
                    assert(before.contains(name));
                    let i = choose|i: int|
                        0 <= i < front.len() && (#[trigger] front[i]).name@ == name && is_partition(
                            front[i],
                            scheme,
                        );
                    assert(entries[i] == front[i]);
                } else {
                    assert(entries[entries.len() - 1] == last);
                }
            }
            if exists|i: int|
                0 <= i < entries.len() && (#[trigger] entries[i]).name@ == name && is_partition(
                    entries[i],
                    scheme,
                ) {
                let i = choose|i: int|
                    0 <= i < entries.len() && (#[trigger] entries[i]).name@ == name && is_partition(
                        entries[i],
                        scheme,
                    );
                if i < front.len() {
                    assert(front[i] == entries[i]);
                    assert(before.contains(name));
                    let at = choose|at: int| 0 <= at < before.len() && before[at] == name;
                    assert(all[at] == name);
                } else {
                    assert(all[all.len() - 1] == name);
                }
            }
        }
        if distinct(entries) {
            assert(distinct(front)) by {
                assert forall|i: int, j: int| 0 <= i < j < front.len() implies (
                #[trigger] front[i]).name@ != (#[trigger] front[j]).name@ by {
                    assert(entries[i] == front[i]);
                    assert(entries[j] == front[j]);
                }
            }
            if is_partition(last, scheme) {
                assert(!before.contains(last.name@)) by {
                    if before.contains(last.name@) {
                        let i = choose|i: int|
                            0 <= i < front.len() && (#[trigger] front[i]).name@ == last.name@
                                && is_partition(front[i], scheme);
                        assert(entries[i] == front[i]);
                        assert(entries[entries.len() - 1] == last);
                    }
                }
                assert forall|a: int, b: int| 0 <= a < b < all.len() implies all[a] != all[b] by {
                    assert(all[a] == before[a]);
                    if b == before.len() {
                        assert(before.contains(before[a]));
                    }
                }
            }
        }
    }
}

/// What holds of the names listed holds of them in any order.
proof fn lemma_same_names(a: Seq<Seq<char>>, b: Seq<Seq<char>>)
    requires
        a.to_multiset() == b.to_multiset(),
    ensures
        forall|name: Seq<char>| #[trigger] a.contains(name) == b.contains(name),
        b.no_duplicates() ==> a.no_duplicates(),
{
    assert forall|name: Seq<char>| #[trigger] a.contains(name) == b.contains(name) by {
        vstd::seq_lib::to_multiset_contains(a, name);
        vstd::seq_lib::to_multiset_contains(b, name);
    }
    if b.no_duplicates() {
        b.lemma_multiset_has_no_duplicates();
        a.lemma_multiset_has_no_duplicates_conv();
    }
}

fn is_partition_entry(entry: &DirEntry, scheme: PartitionScheme) -> (yes: bool)
    ensures
        yes == is_partition(*entry, scheme),
{
    let chars = text::chars_of(entry.name.as_str());
    if chars.len() > 0 && chars[0] == '.' {
        return false;
    }
    proof {
        reveal_strlit(".tmp");
    }
    if chars.len() >= 4 {
        let tail = slice_subrange(chars.as_slice(), chars.len() - 4, chars.len());
        assert(tail@ =~= entry.name@.skip(entry.name@.len() - 4));
        if text::spells(tail, ".tmp") {
            return false;
        }
    }
    if !entry.is_dir {
        return false;
    }
    match PartitionScheme::from_partition_name(entry.name.as_str()) {
        Some(named) => named == scheme,
        None => false,
    }
}

/// The partitions of a table, by name: the directories that follow its scheme.  A table
/// that is not partitioned counts as one partition without a name.
pub fn discover_partitions(entries: &[DirEntry], scheme: PartitionScheme) -> (out: Vec<String>)
    ensures
        scheme is Unpartitioned ==> text::texts(out@) == seq![Seq::<char>::empty()],
        scheme !is Unpartitioned ==> text::in_order(text::texts(out@)) && text::texts(
            out@,
        ).to_multiset() == partitions_listed(entries@, scheme).to_multiset(),
        scheme !is Unpartitioned ==> forall|name: Seq<char>| #[trigger]
            text::texts(out@).contains(name) == exists|i: int|
                0 <= i < entries@.len() && (#[trigger] entries@[i]).name@ == name && is_partition(
                    entries@[i],
                    scheme,
                ),
        scheme !is Unpartitioned && distinct(entries@) ==> text::texts(out@).no_duplicates(),
{
    let mut out: Vec<String> = Vec::new();
    if !scheme.allows_partitions() {
        out.push(String::new());
        assert(text::texts(out@) =~= seq![Seq::<char>::empty()]);
        return out;
    }
    let mut k: usize = 0;
    assert(text::texts(out@) =~= partitions_listed(entries@.take(0), scheme));
    while k < entries.len()
        invariant
            k <= entries@.len(),
            text::texts(out@) == partitions_listed(entries@.take(k as int), scheme),
        decreases entries.len() - k,
    {
        let entry = &entries[k];
        let ghost before = out@;
        assert(entries@.take(k + 1).drop_last() =~= entries@.take(k as int));
        if is_partition_entry(entry, scheme) {
            out.push(entry.name.clone());
            assert(text::texts(out@) =~= text::texts(before).push(entry.name@));
        }
        k += 1;
    }
    assert(entries@.take(k as int) =~= entries@);
    let sorted = text::sort_texts(out);
    proof {
        lemma_listed(entries@, scheme);
        lemma_same_names(text::texts(sorted@), partitions_listed(entries@, scheme));
    }
    sorted
}

/// The schemes of those names that follow one, in order.
pub open spec fn schemes_of(names: Seq<String>) -> Seq<PartitionScheme>
    decreases names.len(),
{
    if names.len() == 0 {
        Seq::empty()
    } else {
        let front = schemes_of(names.drop_last());
        match PartitionScheme::named(names.last()@) {
            Some(s) => front.push(s),
            None => front,
        }
    }
}

/// All partitions follow one scheme.
pub open spec fn one_scheme(schemes: Seq<PartitionScheme>) -> bool {
    forall|i: int, j: int|
        0 <= i < j < schemes.len() ==> #[trigger] schemes[i] == #[trigger] schemes[j]
}

proof fn lemma_schemes_prefix(names: Seq<String>, k: int)
    requires
        0 <= k <= names.len(),
    ensures
        schemes_of(names.take(k)).len() <= schemes_of(names).len(),
        schemes_of(names).take(schemes_of(names.take(k)).len() as int) == schemes_of(names.take(k)),
    decreases names.len() - k,
{
    if k < names.len() {
        lemma_schemes_prefix(names, k + 1);
        assert(names.take(k + 1).drop_last() =~= names.take(k));
        let a = schemes_of(names.take(k));
        let b = schemes_of(names.take(k + 1));
        assert(b.take(a.len() as int) =~= a);
        assert(schemes_of(names).take(a.len() as int) =~= schemes_of(names).take(
            b.len() as int,
        ).take(a.len() as int));
    } else {
        assert(names.take(k) =~= names);
        assert(schemes_of(names).take(schemes_of(names).len() as int) =~= schemes_of(names));
    }
}

/// The scheme that the partitions in a directory follow, if there are any.
pub fn existing_scheme(has_meta: bool, names: &[String]) -> (r: Result<
    Option<PartitionScheme>,
    TableError,
>)
    ensures
        ({
            let schemes = schemes_of(names@);
            if has_meta {
                r matches Err(e) && e.says(
                    "table uses 'none' partitioning (root is a Dataset); partitions are not allowed"@,
                )
            } else if !one_scheme(schemes) {
                r matches Err(e) && e.says(
                    "existing partitions use a different partition scheme"@,
                )
            } else if schemes.len() == 0 {
                r matches Ok(found) && found is None
            } else {
                r matches Ok(found) && found == Some(schemes[0])
            }
        }),
{
    if has_meta {
        return Err(
            TableError::Invalid(
                "table uses 'none' partitioning (root is a Dataset); partitions are not allowed".to_owned(),
            ),
        );
    }
    let mut found: Option<PartitionScheme> = None;
    let mut k: usize = 0;
    assert(schemes_of(names@.take(0)).len() == 0);
    while k < names.len()
        invariant
            k <= names@.len(),
            !has_meta,
            one_scheme(schemes_of(names@.take(k as int))),
            match found {
                Some(s) => schemes_of(names@.take(k as int)).len() > 0 && schemes_of(
                    names@.take(k as int),
                )[0] == s,
                None => schemes_of(names@.take(k as int)).len() == 0,
            },
        decreases names.len() - k,
    {
        let ghost before = schemes_of(names@.take(k as int));
        let ghost after = schemes_of(names@.take(k + 1));
        assert(names@.take(k + 1).drop_last() =~= names@.take(k as int));
        if let Some(s) = PartitionScheme::from_partition_name(names[k].as_str()) {
            assert(after == before.push(s));
            match found {
                None => {
                    found = Some(s);
                },
                Some(prev) => {
                    if prev != s {
                        proof {
                            lemma_schemes_prefix(names@, k + 1);
                            let all = schemes_of(names@);
                            let n = before.len() as int;
                            assert(all.take(n + 1)[0] == prev);
                            assert(all.take(n + 1)[n] == s);
                            assert(all[0] != all[n]);
                        }
                        return Err(
                            TableError::Invalid(
                                "existing partitions use a different partition scheme".to_owned(),
                            ),
                        );
                    }
                    proof {
                        assert forall|i: int, j: int| 0 <= i < j < after.len() implies
                            #[trigger] after[i] == #[trigger] after[j] by {
                            assert(before[0] == s);
                            if 0 < i {
                                assert(before[0] == before[i]);
                            }
                            if j < before.len() {
                                assert(before[i] == before[j]);
                            }
                        }
                    }
                },
            }
        }
        k += 1;
    }
    assert(names@.take(k as int) =~= names@);
    Ok(found)
}

/// The scheme of a table that is opened: that of the first partition listed.
pub fn infer_scheme(has_meta: bool, names: &[String]) -> (r: Result<PartitionScheme, TableError>)
    ensures
        if has_meta {
            r matches Ok(s) && s is Unpartitioned
        } else if schemes_of(names@).len() == 0 {
            r matches Err(e) && e.says("cannot infer partition scheme: table is empty"@)
        } else {
            r matches Ok(s) && s == schemes_of(names@)[0]
        },
{
    if has_meta {
        return Ok(PartitionScheme::Unpartitioned);
    }
    let mut k: usize = 0;
    assert(schemes_of(names@.take(0)).len() == 0);
    while k < names.len()
        invariant
            k <= names@.len(),
            !has_meta,
            schemes_of(names@.take(k as int)).len() == 0,
        decreases names.len() - k,
    {
        assert(names@.take(k + 1).drop_last() =~= names@.take(k as int));
        if let Some(s) = PartitionScheme::from_partition_name(names[k].as_str()) {
            proof {
                lemma_schemes_prefix(names@, k + 1);
                let one = schemes_of(names@.take(k + 1));
                assert(one.len() == 1 && one[0] == s);
                assert(schemes_of(names@).take(1)[0] == s);
            }
            return Ok(s);
        }
        k += 1;
    }
    assert(names@.take(k as int) =~= names@);
    Err(TableError::Invalid("cannot infer partition scheme: table is empty".to_owned()))
}

/// A name that a table can have.
pub open spec fn table_name_ok(name: Seq<char>) -> bool {
    &&& name.len() > 0
    &&& name[0] != '.'
    &&& forall|i: int|
        0 <= i < name.len() ==> (#[trigger] name[i]) != '/' && name[i] != '\\' && name[i] != '='
}

/// Checks the new name of a table.
pub fn check_table_name(new_name: &str) -> (r: Result<(), TableError>)
    ensures
        if table_name_ok(new_name@) {
            r is Ok
        } else {
            r matches Err(e) && e.says("invalid table name '"@ + new_name@ + "'"@)
        },
{
    let chars = text::chars_of(new_name);
    let mut ok: bool = chars.len() > 0 && chars[0] != '.';
    let mut k: usize = 0;
    while k < chars.len()
        invariant
            k <= chars@.len(),
            chars@ == new_name@,
            ok == (chars@.len() > 0 && chars@[0] != '.' && forall|i: int|
                0 <= i < k ==> (#[trigger] chars@[i]) != '/' && chars@[i] != '\\' && chars@[i]
                    != '='),
        decreases chars.len() - k,
    {
        let c = chars[k];
        if c == '/' || c == '\\' || c == '=' {
            ok = false;
        }
        k += 1;
    }
    if ok {
        return Ok(());
    }
    let mut message = String::new();
    message.append("invalid table name '");
    message.append(new_name);
    message.append("'");
    Err(TableError::Invalid(message))
}

/// What is said of a name that follows no scheme.
pub open spec fn no_scheme_message(name: Seq<char>) -> Seq<char> {
    "partition name '"@ + name + "' does not match any scheme"@
}

/// Checks the name of a partition.
pub fn check_partition_name(name: &str) -> (r: Result<PartitionScheme, TableError>)
    ensures
        match PartitionScheme::named(name@) {
            Some(s) => r matches Ok(t) && t == s,
            None => r matches Err(e) && e.says(no_scheme_message(name@)),
        },
{
    match PartitionScheme::from_partition_name(name) {
        Some(s) => Ok(s),
        None => {
            let mut message = String::new();
            message.append("partition name '");
            message.append(name);
            message.append("' does not match any scheme");
            Err(TableError::Invalid(message))
        },
    }
}

/// Checks the name of a partition that is to join those that are there.
pub fn check_new_partition(name: &str, has_meta: bool, names: &[String]) -> (r: Result<
    PartitionScheme,
    TableError,
>)
    ensures
        ({
            let schemes = schemes_of(names@);
            match PartitionScheme::named(name@) {
                None => r matches Err(e) && e.says(no_scheme_message(name@)),
                Some(s) => if has_meta {
                    r matches Err(e) && e.says(
                        "table uses 'none' partitioning (root is a Dataset); partitions are not allowed"@,
                    )
                } else if !one_scheme(schemes) || (schemes.len() > 0 && schemes[0] != s) {
                    r matches Err(e) && e.says(
                        "existing partitions use a different partition scheme"@,
                    )
                } else {
                    r matches Ok(t) && t == s
                },
            }
        }),
{
    let scheme = match check_partition_name(name) {
        Ok(scheme) => scheme,
        Err(e) => {
            return Err(e);
        },
    };
    match existing_scheme(has_meta, names) {
        Ok(Some(prev)) => {
            if prev != scheme {
                return Err(
                    TableError::Invalid(
                        "existing partitions use a different partition scheme".to_owned(),
                    ),
                );
            }
            Ok(scheme)
        },
        Ok(None) => Ok(scheme),
        Err(e) => Err(e),
    }
}

/// Checks the rows of a partition that is to be created.
pub fn check_partition_data(data: &Data) -> (r: Result<(), TableError>)
    requires
        data.columns@.len() == data.schema.fields@.len(),
    ensures
        if !schema::has_name(data.schema.fields@, "sym"@) || !schema::has_name(
            data.schema.fields@,
            "time"@,
        ) {
            r matches Err(e) && e.says("partition data requires sym and time columns"@)
        } else if data.spec_length() == 0 {
            r matches Err(e) && e.says("partition data must not be empty"@)
        } else {
            r is Ok
        },
{
    if data.schema.position("sym").is_none() || data.schema.position("time").is_none() {
        return Err(
            TableError::Invalid("partition data requires sym and time columns".to_owned()),
        );
    }
    if data.length() == 0 {
        return Err(TableError::Invalid("partition data must not be empty".to_owned()));
    }
    Ok(())
}

/// A directory holds a table: it has metadata itself, or one of its entries has.
pub fn holds_table(present: bool, has_meta: bool, entries_with_meta: &[bool]) -> (yes: bool)
    ensures
        yes == (present && (has_meta || exists|i: int|
            0 <= i < entries_with_meta@.len() && entries_with_meta@[i])),
{
    if !present {
        return false;
    }
    if has_meta {
        return true;
    }
    let mut k: usize = 0;
    while k < entries_with_meta.len()
        invariant
            present,
            !has_meta,
            k <= entries_with_meta@.len(),
            forall|i: int| 0 <= i < k ==> !entries_with_meta@[i],
        decreases entries_with_meta.len() - k,
    {
        if entries_with_meta[k] {
            assert(entries_with_meta@[k as int]);
            return true;
        }
        k += 1;
    }
    false
}

/// A directory is a partition of a scheme where its name starts with the scheme's word and
/// is neither hidden nor that of unfinished work; a file never is.
pub proof fn law_partition_directories(
    entry: DirEntry,
    scheme: PartitionScheme,
    head: Seq<char>,
    tail: Seq<char>,
)
    requires
        scheme is Year ==> head == "year="@,
        scheme is Month ==> head == "month="@,
        scheme is Date ==> head == "date="@,
        scheme !is Unpartitioned,
    ensures
        !entry.is_dir ==> !is_partition(entry, scheme),
        entry.name@ == head + tail + ".tmp"@ ==> !is_partition(entry, scheme),
        entry.name@ == seq!['.'] + tail ==> !is_partition(entry, scheme),
        is_partition(entry, scheme) ==> head.is_prefix_of(entry.name@) || entry.name@
            == head.drop_last(),
        entry.is_dir && entry.name@ == head + tail && !ends_with(head + tail, ".tmp"@)
            ==> is_partition(entry, scheme),
{
    reveal_strlit("year=");
    reveal_strlit("month=");
    reveal_strlit("date=");
    reveal_strlit("year");
    reveal_strlit("month");
    reveal_strlit("date");
    reveal_strlit(".tmp");
    let name = entry.name@;
    let word = head.drop_last();
    assert("year="@ =~= "year"@.push('=') && "month="@ =~= "month"@.push('=') && "date="@
        =~= "date"@.push('='));
    assert("year="@.drop_last() =~= "year"@ && "month="@.drop_last() =~= "month"@
        && "date="@.drop_last() =~= "date"@);
    assert("year"@.len() == 4 && "month"@.len() == 5 && "date"@.len() == 4);
    assert("year"@[0] != "date"@[0]);
    if entry.name@ == head + tail + ".tmp"@ {
        assert(name.skip(name.len() - 4) =~= ".tmp"@);
    }
    if name == head + tail {
        text::lemma_find_is(name, '=', word.len() as int);
        assert(name.take(word.len() as int) =~= word);
    }
    text::lemma_find(name, '=');
    let i = text::find(name, '=');
    if is_partition(entry, scheme) {
        assert(name.take(i) == word);
        assert(name.take(i).len() == i);
        if i == name.len() {
            assert(name.take(i) =~= name);
        } else {
            assert(head =~= name.take(i + 1));
            assert(head.is_prefix_of(name));
        }
    }
}

/// A text ends with another exactly where it is something with the other behind it.
pub proof fn law_ends_with(s: Seq<char>, tail: Seq<char>)
    ensures
        ends_with(s + tail, tail),
        ends_with(s, tail) ==> s == s.take(s.len() - tail.len()) + tail,
{
    assert((s + tail).skip((s + tail).len() - tail.len()) =~= tail);
    if ends_with(s, tail) {
        assert(s =~= s.take(s.len() - tail.len()) + s.skip(s.len() - tail.len()));
    }
}

/// A name with a separator of paths or an equals sign, a hidden one and an empty one are no
/// names of tables; every other is.
pub proof fn law_table_names(name: Seq<char>, i: int)
    ensures
        !table_name_ok(Seq::empty()),
        !table_name_ok(seq!['.'] + name),
        0 <= i < name.len() && (name[i] == '/' || name[i] == '\\' || name[i] == '=')
            ==> !table_name_ok(name),
        name.len() > 0 && name[0] != '.' && !name.contains('/') && !name.contains('\\')
            && !name.contains('=') ==> table_name_ok(name),
{
    assert((seq!['.'] + name)[0] == '.');
}

/// The schemes of names are those of the ones that have one, in their order.
pub proof fn law_schemes_in_order(a: Seq<String>, b: Seq<String>)
    ensures
        schemes_of(a + b) == schemes_of(a) + schemes_of(b),
        a.len() == 1 ==> match PartitionScheme::named(a[0]@) {
            Some(s) => schemes_of(a) == seq![s],
            None => schemes_of(a).len() == 0,
        },
    decreases b.len(),
{
    reveal_with_fuel(schemes_of, 2);
    if a.len() == 1 {
        assert(a.drop_last() =~= Seq::<String>::empty());
        if let Some(s) = PartitionScheme::named(a[0]@) {
            assert(schemes_of(a) =~= seq![s]);
        }
    }
    if b.len() == 0 {
        assert(a + b =~= a);
        assert(schemes_of(a) + schemes_of(b) =~= schemes_of(a));
    } else {
        law_schemes_in_order(a, b.drop_last());
        assert((a + b).drop_last() =~= a + b.drop_last());
        assert(schemes_of(a + b) =~= schemes_of(a) + schemes_of(b));
    }
}

/// Names are of one scheme where any two that have a scheme have the same.
pub proof fn law_one_scheme(schemes: Seq<PartitionScheme>, i: int, j: int)
    requires
        0 <= i < schemes.len(),
        0 <= j < schemes.len(),
    ensures
        one_scheme(schemes) ==> schemes[i] == schemes[j],
        schemes[i] != schemes[j] ==> !one_scheme(schemes),
        (forall|k: int| 0 <= k < schemes.len() ==> #[trigger] schemes[k] == schemes[i])
            ==> one_scheme(schemes),
{
    if one_scheme(schemes) {
        if i < j {
            assert(schemes[i] == schemes[j]);
        }
        if j < i {
            assert(schemes[j] == schemes[i]);
        }
    }
}

} // verus!

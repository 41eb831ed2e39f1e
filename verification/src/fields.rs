//! What must hold of every partition before a field is changed in all of them.

use vstd::prelude::*;
use vstd::string::*;
use crate::gather;
use crate::schema;
use crate::schema::{FieldSchema, Schema};
use crate::table::TableError;
use crate::text;
use crate::types::DataType;

verus! {

/// A partition and its fields.
#[derive(Debug)]
pub struct PartitionFields {
    pub name: String,
    pub schema: Schema,
}

impl PartitionFields {
    pub open spec fn has(self, field: Seq<char>) -> bool {
        schema::has_name(self.schema.fields@, field)
    }
}

/// Partitions are judged in order: the first complaint is the result.
pub open spec fn judged(
    r: Result<(), TableError>,
    count: nat,
    complaint: spec_fn(int) -> Option<Seq<char>>,
) -> bool {
    match r {
        Ok(_) => forall|i: int| 0 <= i < count ==> #[trigger] complaint(i) is None,
        Err(e) => exists|i: int|
            {
                &&& 0 <= i < count
                &&& #[trigger] complaint(i) matches Some(message)
                &&& e.says(message)
                &&& forall|j: int| 0 <= j < i ==> #[trigger] complaint(j) is None
            },
    }
}

/// A column that is not a field of its own.
pub open spec fn managed(field: Seq<char>) -> bool {
    field == "sym"@ || field == "time"@
}

pub open spec fn managed_message(field: Seq<char>) -> Seq<char> {
    "'"@ + field + "' is managed by META"@
}

pub open spec fn missing_message(field: Seq<char>, partition: Seq<char>) -> Seq<char> {
    "field '"@ + field + "' missing in partition '"@ + partition + "'"@
}

pub open spec fn exists_message(field: Seq<char>, partition: Seq<char>) -> Seq<char> {
    "field '"@ + field + "' already exists in partition '"@ + partition + "'"@
}

pub open spec fn state_message(
    field: Seq<char>,
    partition: Seq<char>,
    state: Seq<char>,
) -> Seq<char> {
    "field '"@ + field + "' in partition '"@ + partition + "' is "@ + state
}

pub open spec fn types_message(field: Seq<char>, first: DataType, other: DataType) -> Seq<char> {
    "field '"@ + field + "' has inconsistent types across partitions ("@ + first.variant_name()
        + " vs "@ + other.variant_name() + ")"@
}

fn is_managed(field: &str) -> (yes: bool)
    ensures
        yes == managed(field@),
{
    text::same(field, "sym") || text::same(field, "time")
}

fn managed_error(field: &str) -> (e: TableError)
    ensures
        e.says(managed_message(field@)),
{
    let mut message = String::new();
    message.append("'");
    message.append(field);
    message.append("' is managed by META");
    TableError::Invalid(message)
}

fn missing_error(field: &str, partition: &str) -> (e: TableError)
    ensures
        e.says(missing_message(field@, partition@)),
{
    let mut message = String::new();
    message.append("field '");
    message.append(field);
    message.append("' missing in partition '");
    message.append(partition);
    message.append("'");
    TableError::Invalid(message)
}

fn exists_error(field: &str, partition: &str) -> (e: TableError)
    ensures
        e.says(exists_message(field@, partition@)),
{
    let mut message = String::new();
    message.append("field '");
    message.append(field);
    message.append("' already exists in partition '");
    message.append(partition);
    message.append("'");
    TableError::Invalid(message)
}

fn state_error(field: &str, partition: &str, state: &str) -> (e: TableError)
    ensures
        e.says(state_message(field@, partition@, state@)),
{
    let mut message = String::new();
    message.append("field '");
    message.append(field);
    message.append("' in partition '");
    message.append(partition);
    message.append("' is ");
    message.append(state);
    TableError::Invalid(message)
}

/// Why a field cannot be added to a partition.
pub open spec fn create_complaint(part: PartitionFields, field: Seq<char>) -> Option<Seq<char>> {
    if part.has(field) {
        Some(exists_message(field, part.name@))
    } else {
        None
    }
}

/// Why a field of a partition cannot be changed.
pub open spec fn change_complaint(part: PartitionFields, field: Seq<char>) -> Option<Seq<char>> {
    if part.has(field) {
        None
    } else {
        Some(missing_message(field, part.name@))
    }
}

/// Why a field of a partition cannot be renamed.
pub open spec fn rename_complaint(
    part: PartitionFields,
    field: Seq<char>,
    new_name: Seq<char>,
) -> Option<Seq<char>> {
    if !part.has(field) {
        Some(missing_message(field, part.name@))
    } else if part.has(new_name) {
        Some(exists_message(new_name, part.name@))
    } else {
        None
    }
}

/// Why a field of a partition cannot be packed or unpacked.
pub open spec fn packing_complaint(
    part: PartitionFields,
    field: Seq<char>,
    chunked: bool,
    pack: bool,
) -> Option<Seq<char>> {
    if !part.has(field) {
        Some(missing_message(field, part.name@))
    } else if chunked == pack {
        Some(
            state_message(
                field,
                part.name@,
                if pack {
                    "already compressed"@
                } else {
                    "not compressed"@
                },
            ),
        )
    } else {
        None
    }
}

/// The type of a field of a partition that has it.
pub open spec fn type_in(part: PartitionFields, field: Seq<char>) -> DataType {
    let i = choose|i: int| schema::first_named(part.schema.fields@, field, i);
    part.schema.fields@[i].data_type
}

/// Why the type of a field cannot be changed: a partition does not have it, or has it
/// with another type than the first.
pub open spec fn cast_complaint(
    parts: Seq<PartitionFields>,
    field: Seq<char>,
    i: int,
) -> Option<Seq<char>> {
    if !parts[i].has(field) {
        Some(missing_message(field, parts[i].name@))
    } else if type_in(parts[i], field) != type_in(parts[0], field) {
        Some(types_message(field, type_in(parts[0], field), type_in(parts[i], field)))
    } else {
        None
    }
}

/// Checks that a field can be added to every partition.
pub fn check_create_field(field: &str, parts: &[PartitionFields]) -> (r: Result<(), TableError>)
    ensures
        if managed(field@) {
            r matches Err(e) && e.says(managed_message(field@))
        } else {
            judged(r, parts@.len(), |i: int| create_complaint(parts@[i], field@))
        },
{
    if is_managed(field) {
        return Err(managed_error(field));
    }
    let ghost complaint = |i: int| create_complaint(parts@[i], field@);
    let mut k: usize = 0;
    while k < parts.len()
        invariant
            k <= parts@.len(),
            !managed(field@),
            complaint == (|i: int| create_complaint(parts@[i], field@)),
            forall|i: int| 0 <= i < k ==> #[trigger] complaint(i) is None,
        decreases parts.len() - k,
    {
        assert(complaint(k as int) == create_complaint(parts@[k as int], field@));
        if parts[k].schema.position(field).is_some() {
            return Err(exists_error(field, parts[k].name.as_str()));
        }
        k += 1;
    }
    Ok(())
}

/// Checks that a field can be removed from every partition.
pub fn check_delete_field(field: &str, parts: &[PartitionFields]) -> (r: Result<(), TableError>)
    ensures
        if managed(field@) {
            r matches Err(e) && e.says(managed_message(field@))
        } else {
            judged(r, parts@.len(), |i: int| change_complaint(parts@[i], field@))
        },
{
    if is_managed(field) {
        return Err(managed_error(field));
    }
    let ghost complaint = |i: int| change_complaint(parts@[i], field@);
    let mut k: usize = 0;
    while k < parts.len()
        invariant
            k <= parts@.len(),
            !managed(field@),
            complaint == (|i: int| change_complaint(parts@[i], field@)),
            forall|i: int| 0 <= i < k ==> #[trigger] complaint(i) is None,
        decreases parts.len() - k,
    {
        assert(complaint(k as int) == change_complaint(parts@[k as int], field@));
        if parts[k].schema.position(field).is_none() {
            return Err(missing_error(field, parts[k].name.as_str()));
        }
        k += 1;
    }
    Ok(())
}

/// Checks that every partition has a field.
pub fn check_update_field(field: &str, parts: &[PartitionFields]) -> (r: Result<(), TableError>)
    ensures
        judged(r, parts@.len(), |i: int| change_complaint(parts@[i], field@)),
{
    let ghost complaint = |i: int| change_complaint(parts@[i], field@);
    let mut k: usize = 0;
    while k < parts.len()
        invariant
            k <= parts@.len(),
            complaint == (|i: int| change_complaint(parts@[i], field@)),
            forall|i: int| 0 <= i < k ==> #[trigger] complaint(i) is None,
        decreases parts.len() - k,
    {
        assert(complaint(k as int) == change_complaint(parts@[k as int], field@));
        if parts[k].schema.position(field).is_none() {
            return Err(missing_error(field, parts[k].name.as_str()));
        }
        k += 1;
    }
    Ok(())
}

/// Checks that a field can be renamed in every partition.
pub fn check_rename_field(field: &str, new_name: &str, parts: &[PartitionFields]) -> (r: Result<(), TableError>)
    ensures
        judged(r, parts@.len(), |i: int| rename_complaint(parts@[i], field@, new_name@)),
{
    let ghost complaint = |i: int| rename_complaint(parts@[i], field@, new_name@);
    let mut k: usize = 0;
    while k < parts.len()
        invariant
            k <= parts@.len(),
            complaint == (|i: int| rename_complaint(parts@[i], field@, new_name@)),
            forall|i: int| 0 <= i < k ==> #[trigger] complaint(i) is None,
        decreases parts.len() - k,
    {
        assert(complaint(k as int) == rename_complaint(parts@[k as int], field@, new_name@));
        if parts[k].schema.position(field).is_none() {
            return Err(missing_error(field, parts[k].name.as_str()));
        }
        if parts[k].schema.position(new_name).is_some() {
            return Err(exists_error(new_name, parts[k].name.as_str()));
        }
        k += 1;
    }
    Ok(())
}

/// Checks that a field can be packed, or unpacked, in every partition.
pub fn check_packing(
    field: &str,
    parts: &[PartitionFields],
    chunked: &[bool],
    pack: bool,
) -> (r: Result<(), TableError>)
    requires
        chunked@.len() == parts@.len(),
    ensures
        judged(r, parts@.len(), |i: int| packing_complaint(parts@[i], field@, chunked@[i], pack)),
{
    let ghost complaint = |i: int| packing_complaint(parts@[i], field@, chunked@[i], pack);
    let mut k: usize = 0;
    while k < parts.len()
        invariant
            k <= parts@.len(),
            chunked@.len() == parts@.len(),
            complaint == (|i: int| packing_complaint(parts@[i], field@, chunked@[i], pack)),
            forall|i: int| 0 <= i < k ==> #[trigger] complaint(i) is None,
        decreases parts.len() - k,
    {
        assert(complaint(k as int) == packing_complaint(parts@[k as int], field@, chunked@[k as int], pack));
        if parts[k].schema.position(field).is_none() {
            return Err(missing_error(field, parts[k].name.as_str()));
        }
        if chunked[k] == pack {
            let state = if pack {
                "already compressed"
            } else {
                "not compressed"
            };
            return Err(state_error(field, parts[k].name.as_str(), state));
        }
        k += 1;
    }
    Ok(())
}

/// Checks that every partition has a field, all with one type.
pub fn check_cast_field(field: &str, parts: &[PartitionFields]) -> (r: Result<(), TableError>)
    ensures
        judged(r, parts@.len(), |i: int| cast_complaint(parts@, field@, i)),
{
    let ghost complaint = |i: int| cast_complaint(parts@, field@, i);
    let mut first: Option<DataType> = None;
    let mut k: usize = 0;
    while k < parts.len()
        invariant
            k <= parts@.len(),
            match first {
                Some(t) => k > 0 && t == type_in(parts@[0], field@),
                None => k == 0,
            },
            complaint == (|i: int| cast_complaint(parts@, field@, i)),
            forall|i: int| 0 <= i < k ==> #[trigger] complaint(i) is None,
        decreases parts.len() - k,
    {
        assert(complaint(k as int) == cast_complaint(parts@, field@, k as int));
        let t = match parts[k].schema.position(field) {
            Some(at) => {
                proof {
                    let part = parts@[k as int];
                    let i = choose|i: int| schema::first_named(part.schema.fields@, field@, i);
                    gather::lemma_first_named_unique(
                        part.schema.fields@,
                        field@,
                        i,
                        at as int,
                    );
                }
                parts[k].schema.fields[at].data_type
            },
            None => {
                return Err(missing_error(field, parts[k].name.as_str()));
            },
        };
        match first {
            None => {
                first = Some(t);
            },
            Some(prev) => {
                if prev != t {
                    let mut message = String::new();
                    message.append("field '");
                    message.append(field);
                    message.append("' has inconsistent types across partitions (");
                    message.append(prev.variant_str());
                    message.append(" vs ");
                    message.append(t.variant_str());
                    message.append(")");
                    return Err(TableError::Invalid(message));
                }
            },
        }
        k += 1;
    }
    Ok(())
}

/// A check that fails does so for a complaint, and then for one of some partition.
proof fn lemma_judged(
    r: Result<(), TableError>,
    count: nat,
    complaint: spec_fn(int) -> Option<Seq<char>>,
) -> (i: int)
    requires
        judged(r, count, complaint),
    ensures
        r is Ok ==> forall|k: int| 0 <= k < count ==> #[trigger] complaint(k) is None,
        r is Err ==> 0 <= i < count && complaint(i) is Some,
{
    choose|i: int| 0 <= i < count && #[trigger] complaint(i) is Some
}

/// A field can be created exactly where no partition has a column of its name.
pub proof fn law_created_where_new(
    r: Result<(), TableError>,
    parts: Seq<PartitionFields>,
    field: Seq<char>,
)
    requires
        judged(r, parts.len(), |i: int| create_complaint(parts[i], field)),
    ensures
        r is Ok <==> forall|i: int, j: int|
            0 <= i < parts.len() && 0 <= j < parts[i].schema.fields@.len()
                ==> #[trigger] parts[i].schema.fields@[j].name@ != field,
{
    let complaint = |i: int| create_complaint(parts[i], field);
    if r is Ok {
        assert forall|i: int, j: int|
            0 <= i < parts.len() && 0 <= j
                < parts[i].schema.fields@.len() implies #[trigger] parts[i].schema.fields@[j].name@
            != field by {
            assert(complaint(i) is None);
        }
    } else {
        let i = lemma_judged(r, parts.len(), complaint);
        let j = choose|j: int|
            0 <= j < parts[i].schema.fields@.len() && #[trigger] parts[i].schema.fields@[j].name@
                == field;
        assert(parts[i].schema.fields@[j].name@ == field);
    }
}

/// A field can be changed exactly where every partition has a column of its name.
pub proof fn law_changed_where_present(
    r: Result<(), TableError>,
    parts: Seq<PartitionFields>,
    field: Seq<char>,
)
    requires
        judged(r, parts.len(), |i: int| change_complaint(parts[i], field)),
    ensures
        r is Ok ==> forall|i: int|
            0 <= i < parts.len() ==> named_in((#[trigger] parts[i]).schema.fields@, field),
        r is Err ==> exists|i: int|
            0 <= i < parts.len() && !named_in((#[trigger] parts[i]).schema.fields@, field),
{
    let change = |i: int| change_complaint(parts[i], field);
    let at = lemma_judged(r, parts.len(), change);
    if r is Ok {
        assert forall|i: int| 0 <= i < parts.len() implies named_in(
            (#[trigger] parts[i]).schema.fields@,
            field,
        ) by {
            assert(change(i) is None);
            lemma_named_in(parts[i], field);
        }
    } else {
        lemma_named_in(parts[at], field);
    }
}

/// A field can be renamed exactly where every partition has a column of its name and none has
/// one of the new name.
pub proof fn law_renamed_where_free(
    r: Result<(), TableError>,
    parts: Seq<PartitionFields>,
    field: Seq<char>,
    new_name: Seq<char>,
)
    requires
        judged(r, parts.len(), |i: int| rename_complaint(parts[i], field, new_name)),
    ensures
        r is Ok ==> forall|i: int|
            0 <= i < parts.len() ==> named_in((#[trigger] parts[i]).schema.fields@, field)
                && !named_in(parts[i].schema.fields@, new_name),
        r is Err ==> exists|i: int|
            0 <= i < parts.len() && !(named_in((#[trigger] parts[i]).schema.fields@, field)
                && !named_in(parts[i].schema.fields@, new_name)),
{
    let rename = |i: int| rename_complaint(parts[i], field, new_name);
    let at = lemma_judged(r, parts.len(), rename);
    if r is Ok {
        assert forall|i: int| 0 <= i < parts.len() implies named_in(
            (#[trigger] parts[i]).schema.fields@,
            field,
        ) && !named_in(parts[i].schema.fields@, new_name) by {
            assert(rename(i) is None);
            lemma_named_in(parts[i], field);
            lemma_named_in(parts[i], new_name);
        }
    } else {
        lemma_named_in(parts[at], field);
        lemma_named_in(parts[at], new_name);
    }
}

/// One of the columns has that name.
pub open spec fn named_in(fields: Seq<FieldSchema>, name: Seq<char>) -> bool {
    exists|j: int| 0 <= j < fields.len() && (#[trigger] fields[j]).name@ == name
}

proof fn lemma_named_in(part: PartitionFields, field: Seq<char>)
    ensures
        part.has(field) == named_in(part.schema.fields@, field),
{
    let fields = part.schema.fields@;
    if part.has(field) {
        let j = choose|j: int| 0 <= j < fields.len() && #[trigger] fields[j].name@ == field;
        assert(fields[j].name@ == field);
    }
    if named_in(fields, field) {
        let j = choose|j: int| 0 <= j < fields.len() && (#[trigger] fields[j]).name@ == field;
        assert(fields[j].name@ == field);
    }
}

/// A field can be compressed exactly where every partition has it uncompressed, and the other
/// way round.
pub proof fn law_packed_where_unpacked(
    r: Result<(), TableError>,
    parts: Seq<PartitionFields>,
    field: Seq<char>,
    chunked: Seq<bool>,
    pack: bool,
    i: int,
)
    requires
        judged(r, parts.len(), |i: int| packing_complaint(parts[i], field, chunked[i], pack)),
    ensures
        r is Ok && 0 <= i < parts.len() ==> named_in(parts[i].schema.fields@, field) && chunked[i]
            == !pack,
        r is Err ==> exists|k: int|
            0 <= k < parts.len() && !(named_in((#[trigger] parts[k]).schema.fields@, field)
                && chunked[k] == !pack),
{
    let packing = |i: int| packing_complaint(parts[i], field, chunked[i], pack);
    let at = lemma_judged(r, parts.len(), packing);
    if r is Ok && 0 <= i < parts.len() {
        assert(packing(i) is None);
        lemma_named_in(parts[i], field);
    }
    if r is Err {
        lemma_named_in(parts[at], field);
    }
}

/// A field can be given another type exactly where every partition has it, and all have it
/// with the same type: that of the first of its columns of that name.
pub proof fn law_cast_where_one_type(
    r: Result<(), TableError>,
    parts: Seq<PartitionFields>,
    field: Seq<char>,
    places: Seq<int>,
)
    requires
        judged(r, parts.len(), |i: int| cast_complaint(parts, field, i)),
        places.len() == parts.len(),
        forall|i: int|
            0 <= i < parts.len() ==> {
                &&& 0 <= #[trigger] places[i] < parts[i].schema.fields@.len()
                &&& parts[i].schema.fields@[places[i]].name@ == field
                &&& forall|j: int|
                    0 <= j < places[i] ==> #[trigger] parts[i].schema.fields@[j].name@ != field
            },
    ensures
        r is Ok ==> forall|i: int|
            0 <= i < parts.len() ==> parts[i].schema.fields@[#[trigger] places[i]].data_type
                == parts[0].schema.fields@[places[0]].data_type,
        r is Err ==> exists|i: int|
            0 <= i < parts.len() && parts[i].schema.fields@[#[trigger] places[i]].data_type
                != parts[0].schema.fields@[places[0]].data_type,
{
    let cast = |i: int| cast_complaint(parts, field, i);
    let at = lemma_judged(r, parts.len(), cast);
    assert forall|i: int| 0 <= i < parts.len() implies parts[i].has(field) && type_in(
        parts[i],
        field,
    ) == parts[i].schema.fields@[#[trigger] places[i]].data_type by {
        let fields = parts[i].schema.fields@;
        assert(schema::first_named(fields, field, places[i]));
        let k = choose|k: int| schema::first_named(fields, field, k);
        if k < places[i] {
            assert(fields[k].name@ != field);
        }
        if places[i] < k {
            assert(fields[places[i]].name@ != field);
        }
    }
    if r is Ok {
        assert forall|i: int|
            0 <= i < parts.len() implies parts[i].schema.fields@[#[trigger] places[i]].data_type
            == parts[0].schema.fields@[places[0]].data_type by {
            assert(cast(i) is None);
            assert(places[0] == places[0]);
        }
    } else {
        assert(parts[at].schema.fields@[places[at]].data_type
            != parts[0].schema.fields@[places[0]].data_type);
    }
}

/// What is said of a field that cannot be changed names the field and the partition.
pub proof fn law_complaints_name_field(field: Seq<char>, partition: Seq<char>, state: Seq<char>)
    ensures
        managed(field) <==> field == "sym"@ || field == "time"@,
        exists|a: Seq<char>, b: Seq<char>, c: Seq<char>|
            missing_message(field, partition) == #[trigger] (a + field + b + partition + c),
        exists|a: Seq<char>, b: Seq<char>, c: Seq<char>|
            exists_message(field, partition) == #[trigger] (a + field + b + partition + c),
        exists|a: Seq<char>, b: Seq<char>, c: Seq<char>|
            state_message(field, partition, state) == #[trigger] (a + field + b + partition + c
                + state),
{
    let q = "'"@;
    assert(missing_message(field, partition) == "field '"@ + field + "' missing in partition '"@
        + partition + q);
    assert(exists_message(field, partition) == "field '"@ + field
        + "' already exists in partition '"@ + partition + q);
    assert(state_message(field, partition, state) == "field '"@ + field + "' in partition '"@
        + partition + "' is "@ + state);
}

} // verus!

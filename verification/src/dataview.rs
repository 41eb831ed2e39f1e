//! Tables: columns of one length under a schema.

use vstd::prelude::*;
use vstd::string::*;
use crate::column::{Column, ColumnView};
use crate::error::FormatError;
use crate::schema;
use crate::schema::Schema;
use crate::text;

verus! {

/// What is said of a column count that is not the schema's.
pub open spec fn count_message(columns: nat, fields: nat) -> Seq<char> {
    "column count "@ + text::dec(columns) + " does not match schema field count "@ + text::dec(
        fields,
    )
}

/// What is said of a column whose length is not that of the first.
pub open spec fn length_message(name: Seq<char>, length: nat, expected: nat) -> Seq<char> {
    "column '"@ + name + "' length "@ + text::dec(length) + " != "@ + text::dec(expected)
}

/// What is said of a column whose type is not the schema's.
pub open spec fn type_message(name: Seq<char>, found: Seq<char>, expected: Seq<char>) -> Seq<char> {
    "column '"@ + name + "' data type "@ + found + " does not match schema "@ + expected
}

fn count_error(columns: usize, fields: usize) -> (e: FormatError)
    ensures
        e matches FormatError::InvalidLayout(m) && m@ == count_message(
            columns as nat,
            fields as nat,
        ),
{
    let mut message = String::new();
    message.append("column count ");
    text::push_dec(&mut message, columns as u64);
    message.append(" does not match schema field count ");
    text::push_dec(&mut message, fields as u64);
    FormatError::InvalidLayout(message)
}

fn length_error(name: &str, length: usize, expected: usize) -> (e: FormatError)
    ensures
        e matches FormatError::InvalidLayout(m) && m@ == length_message(
            name@,
            length as nat,
            expected as nat,
        ),
{
    let mut message = String::new();
    message.append("column '");
    message.append(name);
    message.append("' length ");
    text::push_dec(&mut message, length as u64);
    message.append(" != ");
    text::push_dec(&mut message, expected as u64);
    FormatError::InvalidLayout(message)
}

/// A table that owns its columns.
#[derive(Debug)]
pub struct Data {
    pub schema: Schema,
    pub columns: Vec<Column>,
}

impl Clone for Data {
    fn clone(&self) -> (copy: Self)
        ensures
            copy.schema.fields@ == self.schema.fields@,
            copy.columns@.len() == self.columns@.len(),
            forall|i: int|
                0 <= i < self.columns@.len() ==> crate::column::copies(
                    #[trigger] copy.columns@[i],
                    self.columns@[i],
                ),
            copy.wf() == self.wf(),
    {
        let mut columns: Vec<Column> = Vec::new();
        let mut k: usize = 0;
        while k < self.columns.len()
            invariant
                k <= self.columns@.len(),
                columns@.len() == k,
                forall|i: int|
                    0 <= i < k ==> crate::column::copies(
                        #[trigger] columns@[i],
                        self.columns@[i],
                    ),
            decreases self.columns.len() - k,
        {
            columns.push(self.columns[k].clone());
            k += 1;
        }
        assert(Data::lengths(columns@) =~= Data::lengths(self.columns@)) by {
            assert forall|i: int| 0 <= i < columns@.len() implies Data::lengths(columns@)[i]
                == Data::lengths(self.columns@)[i] by {
                assert(crate::column::copies(columns@[i], self.columns@[i]));
            }
        }
        Data { schema: self.schema.clone(), columns }
    }
}

/// The length that all columns should have: that of the first.
pub open spec fn lengths_first(lengths: Seq<nat>) -> nat {
    if lengths.len() == 0 {
        0
    } else {
        lengths[0]
    }
}

/// All columns have one length.
pub open spec fn uniform(lengths: Seq<nat>) -> bool {
    forall|i: int| 0 <= i < lengths.len() ==> #[trigger] lengths[i] == lengths_first(lengths)
}

/// Column `i` is the first whose length is not that of the first.
pub open spec fn first_odd(lengths: Seq<nat>, i: int) -> bool {
    &&& 0 <= i < lengths.len()
    &&& lengths[i] != lengths_first(lengths)
    &&& forall|j: int| 0 <= j < i ==> #[trigger] lengths[j] == lengths_first(lengths)
}

impl Data {
    pub open spec fn lengths(columns: Seq<Column>) -> Seq<nat> {
        Seq::new(columns.len(), |i: int| columns[i].spec_length())
    }

    /// One column per field, all of one length.
    pub open spec fn wf(self) -> bool {
        &&& self.columns@.len() == self.schema.fields@.len()
        &&& uniform(Data::lengths(self.columns@))
    }

    pub open spec fn spec_length(self) -> nat {
        lengths_first(Data::lengths(self.columns@))
    }

    pub fn new(schema: Schema, columns: Vec<Column>) -> (r: Result<Self, FormatError>)
        ensures
            match r {
                Ok(data) => {
                    &&& data.wf()
                    &&& data.schema == schema
                    &&& data.columns == columns
                },
                Err(FormatError::InvalidLayout(m)) => {
                    if columns@.len() != schema.fields@.len() {
                        m@ == count_message(columns@.len(), schema.fields@.len())
                    } else {
                        exists|i: int|
                            #[trigger] first_odd(Data::lengths(columns@), i) && m@
                                == length_message(
                                schema.fields@[i].name@,
                                Data::lengths(columns@)[i],
                                lengths_first(Data::lengths(columns@)),
                            )
                    }
                },
                Err(_) => false,
            },
    {
        if columns.len() != schema.fields.len() {
            return Err(count_error(columns.len(), schema.fields.len()));
        }
        let ghost lengths = Data::lengths(columns@);
        if columns.len() > 0 {
            let length: usize = columns[0].length();
            let mut k: usize = 0;
            while k < columns.len()
                invariant
                    k <= columns@.len(),
                    columns@.len() == schema.fields@.len(),
                    columns@.len() > 0,
                    lengths == Data::lengths(columns@),
                    length == lengths_first(lengths),
                    forall|i: int| 0 <= i < k ==> #[trigger] lengths[i] == length,
                decreases columns.len() - k,
            {
                let found: usize = columns[k].length();
                assert(found == lengths[k as int]);
                if found != length {
                    assert(first_odd(lengths, k as int));
                    return Err(length_error(schema.fields[k].name.as_str(), found, length));
                }
                k += 1;
            }
        }
        Ok(Data { schema, columns })
    }

    pub fn length(&self) -> (length: usize)
        ensures
            length == self.spec_length(),
    {
        if self.columns.len() == 0 {
            0
        } else {
            self.columns[0].length()
        }
    }

    /// The first column with that name.
    pub fn column(&self, name: &str) -> (r: Option<&Column>)
        requires
            self.columns@.len() == self.schema.fields@.len(),
        ensures
            match r {
                Some(c) => exists|i: int|
                    #[trigger] schema::first_named(self.schema.fields@, name@, i)
                        && self.columns@[i] == *c,
                None => !schema::has_name(self.schema.fields@, name@),
            },
    {
        match self.schema.position(name) {
            Some(i) => Some(&self.columns[i]),
            None => None,
        }
    }

    /// The table as a view of its columns.
    pub fn as_view(&self) -> (view: DataView<'_>)
        requires
            self.wf(),
            forall|i: int|
                0 <= i < self.columns@.len() ==> (#[trigger] self.columns@[i]).wf()
                    && self.columns@[i].data_type == self.schema.fields@[i].data_type,
        ensures
            view.wf(),
            view.schema.fields@ == self.schema.fields@,
            view.columns@.len() == self.columns@.len(),
            view.spec_length() == self.spec_length(),
            forall|i: int|
                0 <= i < self.columns@.len() ==> #[trigger] views(
                    view.columns@[i],
                    self.columns@[i],
                ),
    {
        let mut columns: Vec<ColumnView<'_>> = Vec::new();
        let mut k: usize = 0;
        while k < self.columns.len()
            invariant
                k <= self.columns@.len(),
                columns@.len() == k,
                forall|i: int|
                    0 <= i < self.columns@.len() ==> (#[trigger] self.columns@[i]).wf()
                        && self.columns@[i].data_type == self.schema.fields@[i].data_type,
                forall|i: int| 0 <= i < k ==> #[trigger] views(columns@[i], self.columns@[i]),
            decreases self.columns.len() - k,
        {
            columns.push(self.columns[k].as_view());
            k += 1;
        }
        let length: usize = self.length();
        proof {
            let ghost_lengths = Data::lengths(self.columns@);
            assert forall|i: int| 0 <= i < columns@.len() implies (
            #[trigger] columns@[i]).spec_length() == length by {
                assert(views(columns@[i], self.columns@[i]));
                assert(ghost_lengths[i] == lengths_first(ghost_lengths));
            }
            assert forall|i: int| 0 <= i < columns@.len() implies (#[trigger] columns@[i]).spec_type()
                == self.schema.fields@[i].data_type by {
                assert(views(columns@[i], self.columns@[i]));
            }
        }
        DataView { schema: self.schema.clone(), columns, length }
    }
}

/// A column view that shows an owned column.
pub open spec fn views(view: ColumnView<'_>, column: Column) -> bool {
    &&& view.spec_type() == column.data_type
    &&& view.spec_length() == column.spec_length()
    &&& view.spec_segments().len() == 1
    &&& view.spec_segments()[0].spec_rows() == column.spec_length()
    &&& crate::column::total_missing(view.spec_segments()) == column.missing()
    &&& match column.dict {
        Some(d) => view.spec_segments()[0].spec_values() matches crate::column::ColumnValues::Dict {
            keys,
            dict_offsets,
            dict_strings,
        } && keys@ == column.values@ && dict_offsets@ == d.offsets@ && dict_strings@ == d.strings@,
        None => view.spec_segments()[0].spec_values() matches crate::column::ColumnValues::Fixed(v)
            && v@ == column.values@,
    }
    &&& match column.validity {
        Some(v) => view.spec_segments()[0].spec_validity() matches Some(w) && w@ == v@,
        None => view.spec_segments()[0].spec_validity() is None,
    }
}

/// A table of borrowed columns.
#[derive(Debug)]
pub struct DataView<'a> {
    pub schema: Schema,
    pub columns: Vec<ColumnView<'a>>,
    pub length: usize,
}

impl<'a> Clone for DataView<'a> {
    fn clone(&self) -> (copy: Self)
        ensures
            copy.schema.fields@ == self.schema.fields@,
            copy.length == self.length,
            copy.columns@.len() == self.columns@.len(),
            forall|i: int|
                0 <= i < self.columns@.len() ==> same_view(
                    #[trigger] copy.columns@[i],
                    self.columns@[i],
                ),
            self.wf() ==> copy.wf(),
    {
        let mut columns: Vec<ColumnView<'a>> = Vec::new();
        let mut k: usize = 0;
        while k < self.columns.len()
            invariant
                k <= self.columns@.len(),
                columns@.len() == k,
                forall|i: int|
                    0 <= i < k ==> same_view(#[trigger] columns@[i], self.columns@[i]),
            decreases self.columns.len() - k,
        {
            columns.push(self.columns[k].clone());
            k += 1;
        }
        DataView { schema: self.schema.clone(), columns, length: self.length }
    }
}

/// A view of the same column.
pub open spec fn same_view(a: ColumnView<'_>, b: ColumnView<'_>) -> bool {
    &&& a.spec_type() == b.spec_type()
    &&& a.spec_segments() == b.spec_segments()
    &&& a.spec_length() == b.spec_length()
}

impl<'a> DataView<'a> {
    pub open spec fn spec_length(self) -> nat {
        self.length as nat
    }

    /// One column per field, of its type, all of the table's length.
    pub open spec fn wf(self) -> bool {
        &&& self.columns@.len() == self.schema.fields@.len()
        &&& forall|i: int|
            0 <= i < self.columns@.len() ==> (#[trigger] self.columns@[i]).spec_length()
                == self.spec_length()
        &&& forall|i: int|
            0 <= i < self.columns@.len() ==> (#[trigger] self.columns@[i]).spec_type()
                == self.schema.fields@[i].data_type
        &&& self.columns@.len() == 0 ==> self.spec_length() == 0
    }

    /// The length that all columns should have: that of the first.
    pub open spec fn length_of(columns: Seq<ColumnView<'a>>) -> nat {
        if columns.len() == 0 {
            0
        } else {
            columns[0].spec_length()
        }
    }

    /// Column `i` has the length of the first and the type of its field.
    pub open spec fn fits(schema: Schema, columns: Seq<ColumnView<'a>>, i: int) -> bool {
        &&& columns[i].spec_length() == Self::length_of(columns)
        &&& columns[i].spec_type() == schema.fields@[i].data_type
    }

    pub fn new(schema: Schema, columns: Vec<ColumnView<'a>>) -> (r: Result<Self, FormatError>)
        ensures
            match r {
                Ok(view) => {
                    &&& view.wf()
                    &&& view.schema == schema
                    &&& view.columns == columns
                },
                Err(FormatError::InvalidLayout(m)) => {
                    if columns@.len() != schema.fields@.len() {
                        m@ == count_message(columns@.len(), schema.fields@.len())
                    } else {
                        exists|i: int|
                            {
                                &&& 0 <= i < columns@.len()
                                &&& !(#[trigger] Self::fits(schema, columns@, i))
                                &&& forall|j: int|
                                    0 <= j < i ==> #[trigger] Self::fits(schema, columns@, j)
                                &&& m@ == if columns@[i].spec_length() != Self::length_of(
                                    columns@,
                                ) {
                                    length_message(
                                        schema.fields@[i].name@,
                                        columns@[i].spec_length(),
                                        Self::length_of(columns@),
                                    )
                                } else {
                                    type_message(
                                        schema.fields@[i].name@,
                                        columns@[i].spec_type().variant_name(),
                                        schema.fields@[i].data_type.variant_name(),
                                    )
                                }
                            }
                    }
                },
                Err(_) => false,
            },
    {
        if columns.len() != schema.fields.len() {
            return Err(count_error(columns.len(), schema.fields.len()));
        }
        let length: usize = if columns.len() == 0 {
            0
        } else {
            columns[0].length()
        };
        let mut k: usize = 0;
        while k < columns.len()
            invariant
                k <= columns@.len(),
                columns@.len() == schema.fields@.len(),
                length == Self::length_of(columns@),
                forall|j: int| 0 <= j < k ==> #[trigger] Self::fits(schema, columns@, j),
            decreases columns.len() - k,
        {
            let found: usize = columns[k].length();
            if found != length {
                assert(!Self::fits(schema, columns@, k as int));
                return Err(length_error(schema.fields[k].name.as_str(), found, length));
            }
            if columns[k].data_type() != schema.fields[k].data_type {
                assert(!Self::fits(schema, columns@, k as int));
                let mut message = String::new();
                message.append("column '");
                message.append(schema.fields[k].name.as_str());
                message.append("' data type ");
                message.append(columns[k].data_type().variant_str());
                message.append(" does not match schema ");
                message.append(schema.fields[k].data_type.variant_str());
                return Err(FormatError::InvalidLayout(message));
            }
            k += 1;
        }
        proof {
            assert forall|i: int| 0 <= i < columns@.len() implies (
            #[trigger] columns@[i]).spec_length() == length && columns@[i].spec_type()
                == schema.fields@[i].data_type by {
                assert(Self::fits(schema, columns@, i));
            }
        }
        Ok(DataView { schema, columns, length })
    }

    pub fn length(&self) -> (length: usize)
        ensures
            length == self.spec_length(),
    {
        self.length
    }

    pub fn is_empty(&self) -> (empty: bool)
        ensures
            empty == (self.spec_length() == 0),
    {
        self.length == 0
    }

    /// The first column with that name.
    pub fn column(&self, name: &str) -> (r: Option<&ColumnView<'a>>)
        requires
            self.columns@.len() == self.schema.fields@.len(),
        ensures
            match r {
                Some(c) => exists|i: int|
                    #[trigger] schema::first_named(self.schema.fields@, name@, i)
                        && self.columns@[i] == *c,
                None => !schema::has_name(self.schema.fields@, name@),
            },
    {
        match self.schema.position(name) {
            Some(i) => Some(&self.columns[i]),
            None => None,
        }
    }
}

/// Columns are of one length where any two have the same.
pub proof fn law_one_length(lengths: Seq<nat>)
    ensures
        uniform(lengths) <==> forall|i: int, j: int|
            0 <= i < lengths.len() && 0 <= j < lengths.len() ==> #[trigger] lengths[i]
                == #[trigger] lengths[j],
        forall|i: int| #[trigger] first_odd(lengths, i) ==> 0 < i < lengths.len() && lengths[i]
            != lengths[0],
{
    if uniform(lengths) {
        assert forall|i: int, j: int|
            0 <= i < lengths.len() && 0 <= j < lengths.len() implies #[trigger] lengths[i]
            == #[trigger] lengths[j] by {}
    }
}

/// A view of a column shows in each row the bytes of the column's value, or the text of its
/// key, and that the row is there where the column's mark for it says so.
pub proof fn law_view_shows_column(view: ColumnView<'_>, column: Column, i: int)
    requires
        views(view, column),
        0 <= i < column.spec_length(),
    ensures
        column.dict is None ==> view.cell(i) == Some(
            crate::buffer::group(column.values@, i, column.data_type.width()),
        ),
        column.dict matches Some(d) ==> view.cell(i) == crate::column::dict_entry(
            d.offsets@,
            d.strings@,
            crate::column::key_at(column.values@, i) as int,
        ),
        column.validity is None ==> view.row_valid(i),
        column.validity matches Some(v) ==> (i < v@.len() ==> view.row_valid(i) == v@[i]),
{
    let segments = view.spec_segments();
    assert(segments.drop_last().len() == 0);
    assert(crate::column::row_in(segments, i) == Some((segments[0], i)));
}

/// Data and a view of it have a column for every field, and all their columns as many rows as
/// they have; in a view every column has the type of its field.
pub proof fn law_columns_fit_fields(data: Data, view: DataView<'_>, i: int)
    ensures
        data.wf() ==> data.columns@.len() == data.schema.fields@.len(),
        data.wf() && 0 <= i < data.columns@.len() ==> data.columns@[i].spec_length()
            == data.spec_length(),
        view.wf() ==> view.columns@.len() == view.schema.fields@.len(),
        view.wf() && 0 <= i < view.columns@.len() ==> view.columns@[i].spec_length()
            == view.spec_length() && view.columns@[i].spec_type()
            == view.schema.fields@[i].data_type,
        view.wf() && view.columns@.len() == 0 ==> view.spec_length() == 0,
        data.columns@.len() == 0 ==> data.spec_length() == 0,
{
    if data.wf() && 0 <= i < data.columns@.len() {
        assert(Data::lengths(data.columns@)[i] == data.columns@[i].spec_length());
    }
}

} // verus!

//! Names and types of columns.

use vstd::prelude::*;
use crate::text;
use crate::types::DataType;

verus! {

/// Name and type of one column.
#[derive(Debug, PartialEq, Eq)]
pub struct FieldSchema {
    pub name: String,
    pub data_type: DataType,
}

impl Clone for FieldSchema {
    fn clone(&self) -> (copy: Self)
        ensures
            copy == *self,
    {
        FieldSchema { name: self.name.clone(), data_type: self.data_type }
    }
}

impl FieldSchema {
    pub fn new(name: &str, data_type: DataType) -> (field: Self)
        ensures
            field.name@ == name@,
            field.data_type == data_type,
    {
        FieldSchema { name: name.to_owned(), data_type }
    }
}

/// The columns of a table, in order.
#[derive(Debug, PartialEq, Eq)]
pub struct Schema {
    pub fields: Vec<FieldSchema>,
}

impl Default for Schema {
    fn default() -> (schema: Self)
        ensures
            schema.fields@.len() == 0,
    {
        Schema { fields: Vec::new() }
    }
}

impl Clone for Schema {
    fn clone(&self) -> (copy: Self)
        ensures
            copy.fields@ == self.fields@,
    {
        let mut fields: Vec<FieldSchema> = Vec::new();
        let mut k: usize = 0;
        while k < self.fields.len()
            invariant
                k <= self.fields@.len(),
                fields@ == self.fields@.take(k as int),
            decreases self.fields.len() - k,
        {
            fields.push(self.fields[k].clone());
            assert(self.fields@.take(k + 1) =~= self.fields@.take(k as int).push(
                self.fields@[k as int],
            ));
            k += 1;
        }
        assert(self.fields@.take(k as int) =~= self.fields@);
        Schema { fields }
    }
}

/// Column `i` is the first with that name.
pub open spec fn first_named(fields: Seq<FieldSchema>, name: Seq<char>, i: int) -> bool {
    &&& 0 <= i < fields.len()
    &&& fields[i].name@ == name
    &&& forall|j: int| 0 <= j < i ==> #[trigger] fields[j].name@ != name
}

/// Some column has that name.
pub open spec fn has_name(fields: Seq<FieldSchema>, name: Seq<char>) -> bool {
    exists|j: int| 0 <= j < fields.len() && #[trigger] fields[j].name@ == name
}

impl Schema {
    pub fn new(fields: Vec<FieldSchema>) -> (schema: Self)
        ensures
            schema.fields == fields,
    {
        Schema { fields }
    }

    pub fn len(&self) -> (len: usize)
        ensures
            len == self.fields@.len(),
    {
        self.fields.len()
    }

    pub fn is_empty(&self) -> (empty: bool)
        ensures
            empty == (self.fields@.len() == 0),
    {
        self.fields.len() == 0
    }

    /// Where the first column with that name stands.
    pub fn position(&self, name: &str) -> (r: Option<usize>)
        ensures
            match r {
                Some(i) => first_named(self.fields@, name@, i as int),
                None => !has_name(self.fields@, name@),
            },
    {
        let mut k: usize = 0;
        while k < self.fields.len()
            invariant
                k <= self.fields@.len(),
                forall|j: int| 0 <= j < k ==> #[trigger] self.fields@[j].name@ != name@,
            decreases self.fields.len() - k,
        {
            if text::same(self.fields[k].name.as_str(), name) {
                return Some(k);
            }
            k += 1;
        }
        None
    }

    /// The type of the first column with that name.
    pub fn data_type_of(&self, name: &str) -> (r: Option<DataType>)
        ensures
            match r {
                Some(t) => exists|i: int|
                    #[trigger] first_named(self.fields@, name@, i) && self.fields@[i].data_type
                        == t,
                None => !has_name(self.fields@, name@),
            },
    {
        match self.position(name) {
            Some(i) => Some(self.fields[i].data_type),
            None => None,
        }
    }
}

} // verus!

use vstd::prelude::*;
use crate::error::FormatError;

verus! {

/// Type of a column's values.  Missing values are marked by a validity bitmap,
/// never by a value of the type.
#[derive(Debug, Clone, Copy, PartialEq, Eq, Structural, Hash)]
pub enum DataType {
    Bool,
    Int32,
    Int64,
    Float32,
    Float64,
    Date32,
    TimestampUs,
    Int8,
    Int16,
    UInt8,
    UInt16,
    UInt32,
    UInt64,
    Date64,
    /// Variable-width text, held as dictionary keys, offsets and bytes.
    Utf8,
}

impl DataType {
    /// On-disk id of the type.
    pub open spec fn spec_id(self) -> u8 {
        match self {
            DataType::Bool => 0u8,
            DataType::Int32 => 1u8,
            DataType::Int64 => 2u8,
            DataType::Float32 => 3u8,
            DataType::Float64 => 4u8,
            DataType::Date32 => 5u8,
            DataType::TimestampUs => 6u8,
            DataType::Int8 => 7u8,
            DataType::Int16 => 8u8,
            DataType::UInt8 => 9u8,
            DataType::UInt16 => 10u8,
            DataType::UInt32 => 11u8,
            DataType::UInt64 => 12u8,
            DataType::Date64 => 13u8,
            DataType::Utf8 => 14u8,
        }
    }

    pub fn id(self) -> (id: u8)
        ensures
            id == self.spec_id(),
    {
        match self {
            DataType::Bool => 0,
            DataType::Int32 => 1,
            DataType::Int64 => 2,
            DataType::Float32 => 3,
            DataType::Float64 => 4,
            DataType::Date32 => 5,
            DataType::TimestampUs => 6,
            DataType::Int8 => 7,
            DataType::Int16 => 8,
            DataType::UInt8 => 9,
            DataType::UInt16 => 10,
            DataType::UInt32 => 11,
            DataType::UInt64 => 12,
            DataType::Date64 => 13,
            DataType::Utf8 => 14,
        }
    }

    /// Bytes per value; 0 for text, which has no fixed width.
    pub open spec fn width(self) -> nat {
        match self {
            DataType::Bool | DataType::Int8 | DataType::UInt8 => 1,
            DataType::Int16 | DataType::UInt16 => 2,
            DataType::Int32 | DataType::UInt32 | DataType::Float32 | DataType::Date32 => 4,
            DataType::Int64 | DataType::UInt64 | DataType::Float64 | DataType::TimestampUs
            | DataType::Date64 => 8,
            DataType::Utf8 => 0,
        }
    }

    pub fn size_of(self) -> (size: usize)
        ensures
            size == self.width(),
    {
        match self {
            DataType::Bool | DataType::Int8 | DataType::UInt8 => 1,
            DataType::Int16 | DataType::UInt16 => 2,
            DataType::Int32 | DataType::UInt32 | DataType::Float32 | DataType::Date32 => 4,
            DataType::Int64 | DataType::UInt64 | DataType::Float64 | DataType::TimestampUs
            | DataType::Date64 => 8,
            DataType::Utf8 => 0,
        }
    }

    /// Upper-case name of the type.
    pub open spec fn name(self) -> Seq<char> {
        match self {
            DataType::Bool => "BOOL"@,
            DataType::Int32 => "INT32"@,
            DataType::Int64 => "INT64"@,
            DataType::Float32 => "FLOAT32"@,
            DataType::Float64 => "FLOAT64"@,
            DataType::Date32 => "DATE32"@,
            DataType::TimestampUs => "TIMESTAMP_US"@,
            DataType::Int8 => "INT8"@,
            DataType::Int16 => "INT16"@,
            DataType::UInt8 => "UINT8"@,
            DataType::UInt16 => "UINT16"@,
            DataType::UInt32 => "UINT32"@,
            DataType::UInt64 => "UINT64"@,
            DataType::Date64 => "DATE64"@,
            DataType::Utf8 => "UTF8"@,
        }
    }

    pub fn as_str(self) -> (name: &'static str)
        ensures
            name@ == self.name(),
    {
        match self {
            DataType::Bool => "BOOL",
            DataType::Int32 => "INT32",
            DataType::Int64 => "INT64",
            DataType::Float32 => "FLOAT32",
            DataType::Float64 => "FLOAT64",
            DataType::Date32 => "DATE32",
            DataType::TimestampUs => "TIMESTAMP_US",
            DataType::Int8 => "INT8",
            DataType::Int16 => "INT16",
            DataType::UInt8 => "UINT8",
            DataType::UInt16 => "UINT16",
            DataType::UInt32 => "UINT32",
            DataType::UInt64 => "UINT64",
            DataType::Date64 => "DATE64",
            DataType::Utf8 => "UTF8",
        }
    }

    /// Name of the variant as it is written in code.
    pub open spec fn variant_name(self) -> Seq<char> {
        match self {
            DataType::Bool => "Bool"@,
            DataType::Int32 => "Int32"@,
            DataType::Int64 => "Int64"@,
            DataType::Float32 => "Float32"@,
            DataType::Float64 => "Float64"@,
            DataType::Date32 => "Date32"@,
            DataType::TimestampUs => "TimestampUs"@,
            DataType::Int8 => "Int8"@,
            DataType::Int16 => "Int16"@,
            DataType::UInt8 => "UInt8"@,
            DataType::UInt16 => "UInt16"@,
            DataType::UInt32 => "UInt32"@,
            DataType::UInt64 => "UInt64"@,
            DataType::Date64 => "Date64"@,
            DataType::Utf8 => "Utf8"@,
        }
    }

    pub fn variant_str(self) -> (name: &'static str)
        ensures
            name@ == self.variant_name(),
    {
        match self {
            DataType::Bool => "Bool",
            DataType::Int32 => "Int32",
            DataType::Int64 => "Int64",
            DataType::Float32 => "Float32",
            DataType::Float64 => "Float64",
            DataType::Date32 => "Date32",
            DataType::TimestampUs => "TimestampUs",
            DataType::Int8 => "Int8",
            DataType::Int16 => "Int16",
            DataType::UInt8 => "UInt8",
            DataType::UInt16 => "UInt16",
            DataType::UInt32 => "UInt32",
            DataType::UInt64 => "UInt64",
            DataType::Date64 => "Date64",
            DataType::Utf8 => "Utf8",
        }
    }

    /// Integers that carry a sign, dates and timestamps among them.
    pub open spec fn signed_int(self) -> bool {
        self is Int8 || self is Int16 || self is Int32 || self is Int64 || self is Date32
            || self is TimestampUs || self is Date64
    }

    pub fn is_signed_int(self) -> (yes: bool)
        ensures
            yes == self.signed_int(),
    {
        matches!(
            self,
            DataType::Int8 | DataType::Int16 | DataType::Int32 | DataType::Int64 | DataType::Date32
            | DataType::TimestampUs | DataType::Date64
        )
    }

    /// Everything that is stored as an integer: all but the floats and text.
    pub fn is_integer(self) -> (yes: bool)
        ensures
            yes == !(self is Float32 || self is Float64 || self is Utf8),
    {
        !matches!(self, DataType::Float32 | DataType::Float64 | DataType::Utf8)
    }

    /// The type with the given id.
    pub open spec fn with_id(id: u8) -> Option<DataType> {
        match id {
            0u8 => Some(DataType::Bool),
            1u8 => Some(DataType::Int32),
            2u8 => Some(DataType::Int64),
            3u8 => Some(DataType::Float32),
            4u8 => Some(DataType::Float64),
            5u8 => Some(DataType::Date32),
            6u8 => Some(DataType::TimestampUs),
            7u8 => Some(DataType::Int8),
            8u8 => Some(DataType::Int16),
            9u8 => Some(DataType::UInt8),
            10u8 => Some(DataType::UInt16),
            11u8 => Some(DataType::UInt32),
            12u8 => Some(DataType::UInt64),
            13u8 => Some(DataType::Date64),
            14u8 => Some(DataType::Utf8),
            _ => None,
        }
    }

    pub fn from_id(id: u8) -> (r: Result<Self, FormatError>)
        ensures
            r == match DataType::with_id(id) {
                Some(t) => Ok::<DataType, FormatError>(t),
                None => Err(FormatError::UnknownDataType(id)),
            },
    {
        DataType::try_from(id)
    }
}

impl vstd::std_specs::convert::TryFromSpecImpl<u8> for DataType {
    open spec fn obeys_try_from_spec() -> bool {
        true
    }

    open spec fn try_from_spec(id: u8) -> Result<Self, FormatError> {
        match DataType::with_id(id) {
            Some(t) => Ok(t),
            None => Err(FormatError::UnknownDataType(id)),
        }
    }
}

impl TryFrom<u8> for DataType {
    type Error = FormatError;

    fn try_from(id: u8) -> (r: Result<Self, FormatError>) {
        match id {
            0 => Ok(DataType::Bool),
            1 => Ok(DataType::Int32),
            2 => Ok(DataType::Int64),
            3 => Ok(DataType::Float32),
            4 => Ok(DataType::Float64),
            5 => Ok(DataType::Date32),
            6 => Ok(DataType::TimestampUs),
            7 => Ok(DataType::Int8),
            8 => Ok(DataType::Int16),
            9 => Ok(DataType::UInt8),
            10 => Ok(DataType::UInt16),
            11 => Ok(DataType::UInt32),
            12 => Ok(DataType::UInt64),
            13 => Ok(DataType::Date64),
            14 => Ok(DataType::Utf8),
            other => Err(FormatError::UnknownDataType(other)),
        }
    }
}

/// Ids and data types stand one for one.
pub proof fn law_data_type_ids(t: DataType, id: u8)
    ensures
        DataType::with_id(t.spec_id()) == Some(t),
        DataType::with_id(id) matches Some(u) ==> u.spec_id() == id,
{
}

/// Type of the values on the time axis.
#[derive(Debug, Clone, Copy, PartialEq, Eq, Structural)]
pub enum TimeType {
    Date32,
    TimestampUs,
}

impl TimeType {
    /// On-disk id.
    pub open spec fn spec_id(self) -> u8 {
        match self {
            TimeType::Date32 => 0u8,
            TimeType::TimestampUs => 1u8,
        }
    }

    pub fn id(self) -> (id: u8)
        ensures
            id == self.spec_id(),
    {
        match self {
            TimeType::Date32 => 0,
            TimeType::TimestampUs => 1,
        }
    }

    /// The value with the given id.
    pub open spec fn with_id(id: u8) -> Option<TimeType> {
        match id {
            0u8 => Some(TimeType::Date32),
            1u8 => Some(TimeType::TimestampUs),
            _ => None,
        }
    }

    pub fn from_id(id: u8) -> (r: Result<Self, FormatError>)
        ensures
            r == match TimeType::with_id(id) {
                Some(t) => Ok::<TimeType, FormatError>(t),
                None => Err(FormatError::UnknownTimeType(id)),
            },
    {
        match id {
            0 => Ok(TimeType::Date32),
            1 => Ok(TimeType::TimestampUs),
            other => Err(FormatError::UnknownTimeType(other)),
        }
    }

    /// Bytes per time value.
    pub open spec fn width(self) -> nat {
        match self {
            TimeType::Date32 => 4,
            TimeType::TimestampUs => 8,
        }
    }

    pub fn size_of(self) -> (size: usize)
        ensures
            size == self.width(),
    {
        match self {
            TimeType::Date32 => 4,
            TimeType::TimestampUs => 8,
        }
    }

    /// The column type that holds such times.
    pub open spec fn column_type(self) -> DataType {
        match self {
            TimeType::Date32 => DataType::Date32,
            TimeType::TimestampUs => DataType::TimestampUs,
        }
    }

    pub fn data_type(self) -> (t: DataType)
        ensures
            t == self.column_type(),
    {
        match self {
            TimeType::Date32 => DataType::Date32,
            TimeType::TimestampUs => DataType::TimestampUs,
        }
    }
}

/// How the values of a chunk are encoded.
#[derive(Debug, Clone, Copy, PartialEq, Eq, Structural)]
pub enum Encoding {
    Plain,
    Delta,
    Rle,
    Bitpack,
}

impl Encoding {
    /// On-disk id.
    pub open spec fn spec_id(self) -> u8 {
        match self {
            Encoding::Plain => 0u8,
            Encoding::Delta => 1u8,
            Encoding::Rle => 2u8,
            Encoding::Bitpack => 3u8,
        }
    }

    pub fn id(self) -> (id: u8)
        ensures
            id == self.spec_id(),
    {
        match self {
            Encoding::Plain => 0,
            Encoding::Delta => 1,
            Encoding::Rle => 2,
            Encoding::Bitpack => 3,
        }
    }

    /// The value with the given id.
    pub open spec fn with_id(id: u8) -> Option<Encoding> {
        match id {
            0u8 => Some(Encoding::Plain),
            1u8 => Some(Encoding::Delta),
            2u8 => Some(Encoding::Rle),
            3u8 => Some(Encoding::Bitpack),
            _ => None,
        }
    }

    pub fn from_id(id: u8) -> (r: Result<Self, FormatError>)
        ensures
            r == match Encoding::with_id(id) {
                Some(t) => Ok::<Encoding, FormatError>(t),
                None => Err(FormatError::UnknownEncoding(id)),
            },
    {
        match id {
            0 => Ok(Encoding::Plain),
            1 => Ok(Encoding::Delta),
            2 => Ok(Encoding::Rle),
            3 => Ok(Encoding::Bitpack),
            other => Err(FormatError::UnknownEncoding(other)),
        }
    }
}

/// How an encoded chunk is compressed.
#[derive(Debug, Clone, Copy, PartialEq, Eq, Structural)]
pub enum Compression {
    Uncompressed,
    Zstd,
    Lz4,
}

impl Compression {
    /// On-disk id.
    pub open spec fn spec_id(self) -> u8 {
        match self {
            Compression::Uncompressed => 0u8,
            Compression::Zstd => 1u8,
            Compression::Lz4 => 2u8,
        }
    }

    pub fn id(self) -> (id: u8)
        ensures
            id == self.spec_id(),
    {
        match self {
            Compression::Uncompressed => 0,
            Compression::Zstd => 1,
            Compression::Lz4 => 2,
        }
    }

    /// The value with the given id.
    pub open spec fn with_id(id: u8) -> Option<Compression> {
        match id {
            0u8 => Some(Compression::Uncompressed),
            1u8 => Some(Compression::Zstd),
            2u8 => Some(Compression::Lz4),
            _ => None,
        }
    }

    pub fn from_id(id: u8) -> (r: Result<Self, FormatError>)
        ensures
            r == match Compression::with_id(id) {
                Some(t) => Ok::<Compression, FormatError>(t),
                None => Err(FormatError::UnknownCompression(id)),
            },
    {
        match id {
            0 => Ok(Compression::Uncompressed),
            1 => Ok(Compression::Zstd),
            2 => Ok(Compression::Lz4),
            other => Err(FormatError::UnknownCompression(other)),
        }
    }
}

/// Ids of time types, encodings and compressions stand one for one with their values.
pub proof fn law_ids(t: TimeType, e: Encoding, c: Compression, id: u8)
    ensures
        TimeType::with_id(t.spec_id()) == Some(t),
        Encoding::with_id(e.spec_id()) == Some(e),
        Compression::with_id(c.spec_id()) == Some(c),
        TimeType::with_id(id) matches Some(u) ==> u.spec_id() == id,
        Encoding::with_id(id) matches Some(u) ==> u.spec_id() == id,
        Compression::with_id(id) matches Some(u) ==> u.spec_id() == id,
{
}

/// A time axis and the column type that holds its values have the same width.
pub proof fn law_time_type_width(t: TimeType)
    ensures
        t.column_type().width() == t.width(),
{
}

/// The widths of the types are those that their names give in bits; text has none.
pub proof fn law_widths(t: DataType)
    ensures
        t is Bool || t is Int8 || t is UInt8 ==> 8 * t.width() == 8,
        t is Int16 || t is UInt16 ==> 8 * t.width() == 16,
        t is Int32 || t is UInt32 || t is Float32 || t is Date32 ==> 8 * t.width() == 32,
        t is Int64 || t is UInt64 || t is Float64 || t is Date64 || t is TimestampUs ==> 8 * t.width()
            == 64,
        t is Utf8 ==> t.width() == 0,
        t.signed_int() <==> t is Int8 || t is Int16 || t is Int32 || t is Int64 || t is Date32 || t
            is Date64 || t is TimestampUs,
{
}

/// The numbers that stand for types in files, in the order in which the types were given
/// one.
pub proof fn law_numbers_of_types(t: DataType, tt: TimeType, e: Encoding, c: Compression)
    ensures
        t is Bool <==> t.spec_id() == 0,
        t is Int32 <==> t.spec_id() == 1,
        t is Int64 <==> t.spec_id() == 2,
        t is Float32 <==> t.spec_id() == 3,
        t is Float64 <==> t.spec_id() == 4,
        t is Date32 <==> t.spec_id() == 5,
        t is TimestampUs <==> t.spec_id() == 6,
        t is Int8 <==> t.spec_id() == 7,
        t is Int16 <==> t.spec_id() == 8,
        t is UInt8 <==> t.spec_id() == 9,
        t is UInt16 <==> t.spec_id() == 10,
        t is UInt32 <==> t.spec_id() == 11,
        t is UInt64 <==> t.spec_id() == 12,
        t is Date64 <==> t.spec_id() == 13,
        t is Utf8 <==> t.spec_id() == 14,
        tt is Date32 <==> tt.spec_id() == 0,
        tt is TimestampUs <==> tt.spec_id() == 1,
        tt is Date32 <==> tt.column_type() is Date32,
        tt is TimestampUs <==> tt.column_type() is TimestampUs,
        e is Plain <==> e.spec_id() == 0,
        e is Delta <==> e.spec_id() == 1,
        e is Rle <==> e.spec_id() == 2,
        e is Bitpack <==> e.spec_id() == 3,
        c is Uncompressed <==> c.spec_id() == 0,
        c is Zstd <==> c.spec_id() == 1,
        c is Lz4 <==> c.spec_id() == 2,
{
}

/// A number is turned into the type that it stands for, and refused where it stands for none.
pub proof fn law_type_of_number(id: u8)
    ensures
        <DataType as vstd::std_specs::convert::TryFromSpec<u8>>::try_from_spec(id) is Ok <==> id < 15,
{
}

} // verus!

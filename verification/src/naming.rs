//! Schemes, compressions and types by the words that users write, and requests built
//! from optional parts.

use vstd::prelude::*;
use vstd::string::*;
use crate::partition::PartitionScheme;
use crate::query::TableScanRequest;
use crate::text;
use crate::types::{Compression, DataType};

verus! {

/// What `str::to_lowercase` makes of a text.
pub uninterp spec fn lowercased(s: Seq<char>) -> Seq<char>;

/// `str::to_lowercase`: the text in lower case, which depends on nothing but the text.
#[verifier::external_body]
fn to_lowercase(s: &str) -> (out: String)
    ensures
        out@ == lowercased(s@),
{
    s.to_lowercase()
}

/// The scheme for a word.
pub open spec fn scheme_for(word: Seq<char>) -> Option<PartitionScheme> {
    if word == "none"@ {
        Some(PartitionScheme::Unpartitioned)
    } else if word == "year"@ {
        Some(PartitionScheme::Year)
    } else if word == "month"@ {
        Some(PartitionScheme::Month)
    } else if word == "date"@ || word == "day"@ {
        Some(PartitionScheme::Date)
    } else {
        None
    }
}

/// What is said of a word that names no scheme.
pub open spec fn no_scheme(word: Seq<char>) -> Seq<char> {
    "invalid partition scheme: '"@ + word
        + "'. Expected 'none', 'year', 'month', or 'date'"@
}

/// The scheme that a word in lower case names.
pub fn scheme_named(word: &str) -> (r: Result<PartitionScheme, String>)
    ensures
        match scheme_for(word@) {
            Some(scheme) => r == Ok::<PartitionScheme, String>(scheme),
            None => r matches Err(m) && m@ == no_scheme(word@),
        },
{
    if text::same(word, "none") {
        Ok(PartitionScheme::Unpartitioned)
    } else if text::same(word, "year") {
        Ok(PartitionScheme::Year)
    } else if text::same(word, "month") {
        Ok(PartitionScheme::Month)
    } else if text::same(word, "date") || text::same(word, "day") {
        Ok(PartitionScheme::Date)
    } else {
        let mut message = String::new();
        message.append("invalid partition scheme: '");
        message.append(word);
        message.append("'. Expected 'none', 'year', 'month', or 'date'");
        Err(message)
    }
}

/// The scheme that a word names, in whatever case.
pub fn parse_scheme(s: &str) -> (r: Result<PartitionScheme, String>)
    ensures
        match scheme_for(lowercased(s@)) {
            Some(scheme) => r == Ok::<PartitionScheme, String>(scheme),
            None => r matches Err(m) && m@ == no_scheme(lowercased(s@)),
        },
{
    let word = to_lowercase(s);
    scheme_named(word.as_str())
}

/// The compression for a word.
pub open spec fn compression_for(word: Seq<char>) -> Option<Compression> {
    if word == "none"@ || word == "uncompressed"@ {
        Some(Compression::Uncompressed)
    } else if word == "zstd"@ {
        Some(Compression::Zstd)
    } else if word == "lz4"@ {
        Some(Compression::Lz4)
    } else {
        None
    }
}

/// What is said of a word that names no compression.
pub open spec fn no_compression(word: Seq<char>) -> Seq<char> {
    "invalid compression: '"@ + word + "'. Expected 'zstd', 'lz4', or 'none'"@
}

/// The compression that a word names, in whatever case; zstd where there is none.
pub fn parse_compression(s: Option<&str>) -> (r: Result<Compression, String>)
    ensures
        ({
            let word = match s {
                Some(s) => text::lower_text(s@),
                None => "zstd"@,
            };
            match compression_for(word) {
                Some(c) => r == Ok::<Compression, String>(c),
                None => r matches Err(m) && m@ == no_compression(word),
            }
        }),
{
    let word = match s {
        Some(s) => text::to_lower_text(s),
        None => "zstd".to_owned(),
    };
    let word = word.as_str();
    if text::same(word, "none") || text::same(word, "uncompressed") {
        Ok(Compression::Uncompressed)
    } else if text::same(word, "zstd") {
        Ok(Compression::Zstd)
    } else if text::same(word, "lz4") {
        Ok(Compression::Lz4)
    } else {
        let mut message = String::new();
        message.append("invalid compression: '");
        message.append(word);
        message.append("'. Expected 'zstd', 'lz4', or 'none'");
        Err(message)
    }
}

/// The type for a word.
pub open spec fn type_for(word: Seq<char>) -> Option<DataType> {
    if word == "bool"@ || word == "boolean"@ {
        Some(DataType::Bool)
    } else if word == "int8"@ {
        Some(DataType::Int8)
    } else if word == "int16"@ {
        Some(DataType::Int16)
    } else if word == "int32"@ {
        Some(DataType::Int32)
    } else if word == "int64"@ {
        Some(DataType::Int64)
    } else if word == "uint8"@ {
        Some(DataType::UInt8)
    } else if word == "uint16"@ {
        Some(DataType::UInt16)
    } else if word == "uint32"@ {
        Some(DataType::UInt32)
    } else if word == "uint64"@ {
        Some(DataType::UInt64)
    } else if word == "float32"@ || word == "float"@ {
        Some(DataType::Float32)
    } else if word == "float64"@ || word == "double"@ {
        Some(DataType::Float64)
    } else if word == "date32"@ {
        Some(DataType::Date32)
    } else if word == "date64"@ {
        Some(DataType::Date64)
    } else if word == "timestamp"@ || word == "timestamp_us"@ {
        Some(DataType::TimestampUs)
    } else if word == "utf8"@ || word == "string"@ {
        Some(DataType::Utf8)
    } else {
        None
    }
}

/// What is said of a word that names no type.
pub open spec fn no_type(word: Seq<char>) -> Seq<char> {
    "unsupported data type '"@ + word + "'"@
}

/// The type that a word in lower case names.
pub fn type_named(word: &str) -> (r: Result<DataType, String>)
    ensures
        match type_for(word@) {
            Some(t) => r == Ok::<DataType, String>(t),
            None => r matches Err(m) && m@ == no_type(word@),
        },
{
    if text::same(word, "bool") || text::same(word, "boolean") {
        Ok(DataType::Bool)
    } else if text::same(word, "int8") {
        Ok(DataType::Int8)
    } else if text::same(word, "int16") {
        Ok(DataType::Int16)
    } else if text::same(word, "int32") {
        Ok(DataType::Int32)
    } else if text::same(word, "int64") {
        Ok(DataType::Int64)
    } else if text::same(word, "uint8") {
        Ok(DataType::UInt8)
    } else if text::same(word, "uint16") {
        Ok(DataType::UInt16)
    } else if text::same(word, "uint32") {
        Ok(DataType::UInt32)
    } else if text::same(word, "uint64") {
        Ok(DataType::UInt64)
    } else if text::same(word, "float32") || text::same(word, "float") {
        Ok(DataType::Float32)
    } else if text::same(word, "float64") || text::same(word, "double") {
        Ok(DataType::Float64)
    } else if text::same(word, "date32") {
        Ok(DataType::Date32)
    } else if text::same(word, "date64") {
        Ok(DataType::Date64)
    } else if text::same(word, "timestamp") || text::same(word, "timestamp_us") {
        Ok(DataType::TimestampUs)
    } else if text::same(word, "utf8") || text::same(word, "string") {
        Ok(DataType::Utf8)
    } else {
        let mut message = String::new();
        message.append("unsupported data type '");
        message.append(word);
        message.append("'");
        Err(message)
    }
}

/// The type that a word names, in whatever case.
pub fn parse_data_type(s: &str) -> (r: Result<DataType, String>)
    ensures
        match type_for(lowercased(s@)) {
            Some(t) => r == Ok::<DataType, String>(t),
            None => r matches Err(m) && m@ == no_type(lowercased(s@)),
        },
{
    let word = to_lowercase(s);
    type_named(word.as_str())
}

/// What a scheme is called, in lower case.
pub open spec fn scheme_word(scheme: PartitionScheme) -> Seq<char> {
    match scheme {
        PartitionScheme::Unpartitioned => "none"@,
        PartitionScheme::Year => "year"@,
        PartitionScheme::Month => "month"@,
        PartitionScheme::Date => "date"@,
    }
}

pub fn scheme_name(scheme: PartitionScheme) -> (word: &'static str)
    ensures
        word@ == scheme_word(scheme),
{
    match scheme {
        PartitionScheme::Unpartitioned => "none",
        PartitionScheme::Year => "year",
        PartitionScheme::Month => "month",
        PartitionScheme::Date => "date",
    }
}

/// What a scheme is called names it.
pub proof fn law_scheme_named_back(scheme: PartitionScheme)
    ensures
        scheme_for(scheme_word(scheme)) == Some(scheme),
{
    reveal_strlit("none");
    reveal_strlit("year");
    reveal_strlit("month");
    reveal_strlit("date");
    assert("none"@[0] != "year"@[0] && "none"@[0] != "month"@[0] && "none"@[0] != "date"@[0]);
    assert("year"@[0] != "month"@[0] && "year"@[0] != "date"@[0] && "month"@[0] != "date"@[0]);
}

/// Builds a request from optional parts: the first of the symbols, the times where both
/// ends are given, the columns and the limits.
pub fn table_request(
    symbols: Option<Vec<String>>,
    start_time: Option<i64>,
    end_time: Option<i64>,
    columns: Option<Vec<String>>,
    limit: Option<u64>,
    max_parallelism: Option<usize>,
) -> (request: TableScanRequest)
    ensures
        match symbols {
            Some(list) => if list@.len() > 0 {
                request.sym matches Some(s) && s@ == list@[0]@
            } else {
                request.sym is None
            },
            None => request.sym is None,
        },
        request.time == match (start_time, end_time) {
            (Some(s), Some(e)) => Some((s, e)),
            _ => None,
        },
        request.predicate is None,
        match columns {
            Some(list) => request.projection == list,
            None => request.projection@.len() == 0,
        },
        request.limit == limit,
        request.max_parallelism == max_parallelism,
{
    let mut request = TableScanRequest::default();
    if let Some(list) = symbols {
        if list.len() > 0 {
            request.sym = Some(list[0].clone());
        }
    }
    if let (Some(s), Some(e)) = (start_time, end_time) {
        request.time = Some((s, e));
    }
    if let Some(list) = columns {
        request.projection = list;
    }
    request.limit = limit;
    request.max_parallelism = max_parallelism;
    request
}

/// A type is found by its own name in small letters.
pub proof fn law_type_named_back(t: DataType)
    ensures
        type_for(text::lower_text(t.name())) == Some(t),
{
    lemma_type_words();
    reveal_strlit("BOOL");
    reveal_strlit("INT8");
    reveal_strlit("INT16");
    reveal_strlit("INT32");
    reveal_strlit("INT64");
    reveal_strlit("UINT8");
    reveal_strlit("UINT16");
    reveal_strlit("UINT32");
    reveal_strlit("UINT64");
    reveal_strlit("FLOAT32");
    reveal_strlit("FLOAT64");
    reveal_strlit("DATE32");
    reveal_strlit("DATE64");
    reveal_strlit("TIMESTAMP_US");
    reveal_strlit("UTF8");
    reveal_strlit("bool");
    reveal_strlit("int8");
    reveal_strlit("int16");
    reveal_strlit("int32");
    reveal_strlit("int64");
    reveal_strlit("uint8");
    reveal_strlit("uint16");
    reveal_strlit("uint32");
    reveal_strlit("uint64");
    reveal_strlit("float32");
    reveal_strlit("float64");
    reveal_strlit("date32");
    reveal_strlit("date64");
    reveal_strlit("timestamp_us");
    reveal_strlit("utf8");
    match t {
        DataType::Bool => {
            assert(text::lower_text("BOOL"@) =~= "bool"@);
        },
        DataType::Int8 => {
            assert(text::lower_text("INT8"@) =~= "int8"@);
        },
        DataType::Int16 => {
            assert(text::lower_text("INT16"@) =~= "int16"@);
        },
        DataType::Int32 => {
            assert(text::lower_text("INT32"@) =~= "int32"@);
        },
        DataType::Int64 => {
            assert(text::lower_text("INT64"@) =~= "int64"@);
        },
        DataType::UInt8 => {
            assert(text::lower_text("UINT8"@) =~= "uint8"@);
        },
        DataType::UInt16 => {
            assert(text::lower_text("UINT16"@) =~= "uint16"@);
        },
        DataType::UInt32 => {
            assert(text::lower_text("UINT32"@) =~= "uint32"@);
        },
        DataType::UInt64 => {
            assert(text::lower_text("UINT64"@) =~= "uint64"@);
        },
        DataType::Float32 => {
            assert(text::lower_text("FLOAT32"@) =~= "float32"@);
        },
        DataType::Float64 => {
            assert(text::lower_text("FLOAT64"@) =~= "float64"@);
        },
        DataType::Date32 => {
            assert(text::lower_text("DATE32"@) =~= "date32"@);
        },
        DataType::Date64 => {
            assert(text::lower_text("DATE64"@) =~= "date64"@);
        },
        DataType::TimestampUs => {
            assert(text::lower_text("TIMESTAMP_US"@) =~= "timestamp_us"@);
        },
        DataType::Utf8 => {
            assert(text::lower_text("UTF8"@) =~= "utf8"@);
        },
    }
}

/// What the words for types stand for; some types have two.
proof fn lemma_type_words()
    ensures
        type_for("bool"@) == Some(DataType::Bool),
        type_for("boolean"@) == Some(DataType::Bool),
        type_for("int8"@) == Some(DataType::Int8),
        type_for("int16"@) == Some(DataType::Int16),
        type_for("int32"@) == Some(DataType::Int32),
        type_for("int64"@) == Some(DataType::Int64),
        type_for("uint8"@) == Some(DataType::UInt8),
        type_for("uint16"@) == Some(DataType::UInt16),
        type_for("uint32"@) == Some(DataType::UInt32),
        type_for("uint64"@) == Some(DataType::UInt64),
        type_for("float32"@) == Some(DataType::Float32),
        type_for("float"@) == Some(DataType::Float32),
        type_for("float64"@) == Some(DataType::Float64),
        type_for("double"@) == Some(DataType::Float64),
        type_for("date32"@) == Some(DataType::Date32),
        type_for("date64"@) == Some(DataType::Date64),
        type_for("timestamp"@) == Some(DataType::TimestampUs),
        type_for("timestamp_us"@) == Some(DataType::TimestampUs),
        type_for("utf8"@) == Some(DataType::Utf8),
        type_for("string"@) == Some(DataType::Utf8),
{
    reveal_strlit("bool");
    reveal_strlit("boolean");
    reveal_strlit("int8");
    reveal_strlit("int16");
    reveal_strlit("int32");
    reveal_strlit("int64");
    reveal_strlit("uint8");
    reveal_strlit("uint16");
    reveal_strlit("uint32");
    reveal_strlit("uint64");
    reveal_strlit("float32");
    reveal_strlit("float");
    reveal_strlit("float64");
    reveal_strlit("double");
    reveal_strlit("date32");
    reveal_strlit("date64");
    reveal_strlit("timestamp");
    reveal_strlit("timestamp_us");
    reveal_strlit("utf8");
    reveal_strlit("string");
    assert("bool"@.len() == 4);
    assert("boolean"@.len() == 7);
    assert("int8"@.len() == 4);
    assert("int16"@.len() == 5);
    assert("int32"@.len() == 5);
    assert("int64"@.len() == 5);
    assert("uint8"@.len() == 5);
    assert("uint16"@.len() == 6);
    assert("uint32"@.len() == 6);
    assert("uint64"@.len() == 6);
    assert("float32"@.len() == 7);
    assert("float"@.len() == 5);
    assert("float64"@.len() == 7);
    assert("double"@.len() == 6);
    assert("date32"@.len() == 6);
    assert("date64"@.len() == 6);
    assert("timestamp"@.len() == 9);
    assert("timestamp_us"@.len() == 12);
    assert("utf8"@.len() == 4);
    assert("string"@.len() == 6);
    assert("int8"@[0] != "bool"@[0]);
    assert("int32"@[3] != "int16"@[3]);
    assert("int64"@[3] != "int16"@[3]);
    assert("int64"@[3] != "int32"@[3]);
    assert("uint8"@[0] != "int16"@[0]);
    assert("uint8"@[0] != "int32"@[0]);
    assert("uint8"@[0] != "int64"@[0]);
    assert("uint32"@[4] != "uint16"@[4]);
    assert("uint64"@[4] != "uint16"@[4]);
    assert("uint64"@[4] != "uint32"@[4]);
    assert("float32"@[0] != "boolean"@[0]);
    assert("float"@[0] != "int16"@[0]);
    assert("float"@[0] != "int32"@[0]);
    assert("float"@[0] != "int64"@[0]);
    assert("float"@[0] != "uint8"@[0]);
    assert("float64"@[0] != "boolean"@[0]);
    assert("float64"@[5] != "float32"@[5]);
    assert("double"@[0] != "uint16"@[0]);
    assert("double"@[0] != "uint32"@[0]);
    assert("double"@[0] != "uint64"@[0]);
    assert("date32"@[0] != "uint16"@[0]);
    assert("date32"@[0] != "uint32"@[0]);
    assert("date32"@[0] != "uint64"@[0]);
    assert("date32"@[1] != "double"@[1]);
    assert("date64"@[0] != "uint16"@[0]);
    assert("date64"@[0] != "uint32"@[0]);
    assert("date64"@[0] != "uint64"@[0]);
    assert("date64"@[1] != "double"@[1]);
    assert("date64"@[4] != "date32"@[4]);
    assert("utf8"@[0] != "bool"@[0]);
    assert("utf8"@[0] != "int8"@[0]);
    assert("string"@[0] != "uint16"@[0]);
    assert("string"@[0] != "uint32"@[0]);
    assert("string"@[0] != "uint64"@[0]);
    assert("string"@[0] != "double"@[0]);
    assert("string"@[0] != "date32"@[0]);
    assert("string"@[0] != "date64"@[0]);
}

/// A word that is another name of a type, of a scheme or of no compression finds the same as
/// the name itself.
pub proof fn law_other_names()
    ensures
        type_for("boolean"@) == type_for("bool"@),
        type_for("float"@) == type_for("float32"@),
        type_for("double"@) == type_for("float64"@),
        type_for("timestamp"@) == type_for("timestamp_us"@),
        type_for("string"@) == type_for("utf8"@),
        scheme_for("day"@) == scheme_for("date"@),
        compression_for("uncompressed"@) == compression_for("none"@),
{
    lemma_type_words();
    reveal_strlit("day");
    reveal_strlit("date");
    reveal_strlit("none");
    reveal_strlit("year");
    reveal_strlit("month");
    assert("day"@.len() == 3 && "date"@.len() == 4 && "month"@.len() == 5);
    assert("date"@[0] != "none"@[0] && "date"@[0] != "year"@[0]);
}

/// A kind of compression is found by its name, and every other word finds none.
pub proof fn law_words_known(word: Seq<char>)
    ensures
        compression_for("none"@) == Some(Compression::Uncompressed),
        compression_for("zstd"@) == Some(Compression::Zstd),
        compression_for("lz4"@) == Some(Compression::Lz4),
        compression_for(word) is Some ==> word == "none"@ || word == "uncompressed"@ || word
            == "zstd"@ || word == "lz4"@,
        scheme_for(word) is Some ==> word == "none"@ || word == "year"@ || word == "month"@ || word
            == "date"@ || word == "day"@,
{
    reveal_strlit("none");
    reveal_strlit("uncompressed");
    reveal_strlit("zstd");
    reveal_strlit("lz4");
    assert("none"@.len() != "lz4"@.len() && "uncompressed"@.len() == 12);
    assert("none"@[0] != "zstd"@[0]);
}

/// The word for a scheme is its name in small letters, and so is that for a type, but for the
/// underscore in the name of microseconds.
pub proof fn law_words_are_names(scheme: PartitionScheme, t: DataType)
    ensures
        text::lower_text(scheme.variant_name()) == scheme_word(scheme),
        t !is TimestampUs ==> text::lower_text(t.variant_name()) == text::lower_text(t.name()),
{
    reveal_strlit("None");
    reveal_strlit("none");
    reveal_strlit("Year");
    reveal_strlit("year");
    reveal_strlit("Month");
    reveal_strlit("month");
    reveal_strlit("Date");
    reveal_strlit("date");
    match scheme {
        PartitionScheme::Unpartitioned => {
            assert(text::lower_text("None"@) =~= "none"@);
        },
        PartitionScheme::Year => {
            assert(text::lower_text("Year"@) =~= "year"@);
        },
        PartitionScheme::Month => {
            assert(text::lower_text("Month"@) =~= "month"@);
        },
        PartitionScheme::Date => {
            assert(text::lower_text("Date"@) =~= "date"@);
        },
    }
    reveal_strlit("Bool");
    reveal_strlit("BOOL");
    reveal_strlit("Int8");
    reveal_strlit("INT8");
    reveal_strlit("Int16");
    reveal_strlit("INT16");
    reveal_strlit("Int32");
    reveal_strlit("INT32");
    reveal_strlit("Int64");
    reveal_strlit("INT64");
    reveal_strlit("UInt8");
    reveal_strlit("UINT8");
    reveal_strlit("UInt16");
    reveal_strlit("UINT16");
    reveal_strlit("UInt32");
    reveal_strlit("UINT32");
    reveal_strlit("UInt64");
    reveal_strlit("UINT64");
    reveal_strlit("Float32");
    reveal_strlit("FLOAT32");
    reveal_strlit("Float64");
    reveal_strlit("FLOAT64");
    reveal_strlit("Date32");
    reveal_strlit("DATE32");
    reveal_strlit("Date64");
    reveal_strlit("DATE64");
    reveal_strlit("Utf8");
    reveal_strlit("UTF8");
    match t {
        DataType::Bool => {
            assert(text::lower_text("Bool"@) =~= text::lower_text("BOOL"@));
        },
        DataType::Int8 => {
            assert(text::lower_text("Int8"@) =~= text::lower_text("INT8"@));
        },
        DataType::Int16 => {
            assert(text::lower_text("Int16"@) =~= text::lower_text("INT16"@));
        },
        DataType::Int32 => {
            assert(text::lower_text("Int32"@) =~= text::lower_text("INT32"@));
        },
        DataType::Int64 => {
            assert(text::lower_text("Int64"@) =~= text::lower_text("INT64"@));
        },
        DataType::UInt8 => {
            assert(text::lower_text("UInt8"@) =~= text::lower_text("UINT8"@));
        },
        DataType::UInt16 => {
            assert(text::lower_text("UInt16"@) =~= text::lower_text("UINT16"@));
        },
        DataType::UInt32 => {
            assert(text::lower_text("UInt32"@) =~= text::lower_text("UINT32"@));
        },
        DataType::UInt64 => {
            assert(text::lower_text("UInt64"@) =~= text::lower_text("UINT64"@));
        },
        DataType::Float32 => {
            assert(text::lower_text("Float32"@) =~= text::lower_text("FLOAT32"@));
        },
        DataType::Float64 => {
            assert(text::lower_text("Float64"@) =~= text::lower_text("FLOAT64"@));
        },
        DataType::Date32 => {
            assert(text::lower_text("Date32"@) =~= text::lower_text("DATE32"@));
        },
        DataType::Date64 => {
            assert(text::lower_text("Date64"@) =~= text::lower_text("DATE64"@));
        },
        DataType::Utf8 => {
            assert(text::lower_text("Utf8"@) =~= text::lower_text("UTF8"@));
        },
        DataType::TimestampUs => {},
    }
}

} // verus!

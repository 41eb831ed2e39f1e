//! A columnar store for time series: its files, its data in memory, the tables it is cut
//! into, and what a query may leave to it.

use vstd::prelude::*;

pub mod bitmap;
pub mod bridge;
pub mod buffer;
pub mod column;
pub mod dataview;
pub mod error;
pub mod field;
pub mod field_footer;
pub mod fields;
pub mod filter;
pub mod frame;
pub mod gather;
pub mod header;
pub mod hint;
pub mod lazy;
pub mod le;
pub mod listing;
pub mod meta;
pub mod naming;
pub mod partition;
pub mod plan;
pub mod provider;
pub mod query;
pub mod schema;
pub mod spans;
pub mod stats;
pub mod subset;
pub mod table;
pub mod text;
pub mod types;
pub mod writing;

pub use bitmap::{bitmap_count_ones, bitmap_fill_bits, Bitmap, BitmapView};
pub use buffer::{Buffer, BufferView};
pub use column::{Column, ColumnSegment, ColumnValues, ColumnView, DictBuffers};
pub use dataview::{Data, DataView};
pub use error::FormatError;
pub use field::{FieldHeader, FIELD_FLAGS_HAS_VALIDITY, FIELD_HEADER_SIZE};
pub use meta::{MetaHeader, SymIndexRecord, META_HEADER_SIZE, SYM_INDEX_RECORD_SIZE};
pub use schema::{FieldSchema, Schema};
pub use types::{Compression, DataType, Encoding, TimeType};

verus! {

/// First eight bytes of a meta file: `SPLAYMTA`.
pub const META_MAGIC: u64 = 0x4154_4D59_414C_5053;

/// First eight bytes of a field file: `SPLAYFLD`.
pub const FIELD_MAGIC: u64 = 0x444C_4659_414C_5053;

/// Bytes of a header.
pub const HEADER_SIZE: usize = 64;

/// Where the data start.
pub const DATA_OFFSET: u64 = 64;

/// Version of the format.
pub const FORMAT_VERSION: u16 = 2;

/// Bytes of a validity region: one bit per row.
pub fn validity_size(row_count: u32) -> (size: usize)
    ensures
        size == bitmap::bytes_for(row_count as int),
{
    bitmap::byte_count(row_count as usize)
}

} // verus!

//! Headers of the first version of the format.

use vstd::prelude::*;
use crate::le;
use crate::types::DataType;

verus! {

/// First eight bytes of a meta file: `SPLAYMTA`.
pub const META_MAGIC: u64 = 0x4154_4D59_414C_5053;

/// First eight bytes of a field file: `SPLAYFLD`.
pub const FIELD_MAGIC: u64 = 0x444C_4659_414C_5053;

/// Version of both headers.
pub const FORMAT_VERSION: u16 = 1;

/// Name of the meta file in a dataset's directory.
pub const META_FILE_NAME: &'static str = ".meta";

/// Bytes of a header.
pub const HEADER_SIZE: usize = 64;

/// Where the data start.
pub const DATA_OFFSET: u64 = 64;

/// How the values of a field are encoded.
#[derive(Debug, Clone, Copy, PartialEq, Eq, Structural)]
pub enum Encoding {
    Plain,
    Delta,
    Rle,
    Bitpack,
}

impl Encoding {
    pub open spec fn spec_id(self) -> u8 {
        match self {
            Encoding::Plain => 0u8,
            Encoding::Delta => 1u8,
            Encoding::Rle => 2u8,
            Encoding::Bitpack => 3u8,
        }
    }

    fn id(self) -> (id: u8)
        ensures
            id == self.spec_id(),
    {
        match self {
            Encoding::Plain => 0,
            Encoding::Delta => 1,
            Encoding::Rle => 2,
            Encoding::Bitpack => 3,
        }
    }

    /// The value with the given id.
    pub open spec fn with_id(id: u8) -> Option<Encoding> {
        match id {
            0u8 => Some(Encoding::Plain),
            1u8 => Some(Encoding::Delta),
            2u8 => Some(Encoding::Rle),
            3u8 => Some(Encoding::Bitpack),
            _ => None,
        }
    }

    pub fn from_id(id: u8) -> (r: Option<Self>)
        ensures
            r == Encoding::with_id(id),
    {
        match id {
            0 => Some(Encoding::Plain),
            1 => Some(Encoding::Delta),
            2 => Some(Encoding::Rle),
            3 => Some(Encoding::Bitpack),
            _ => None,
        }
    }
}

/// How a field is compressed.
#[derive(Debug, Clone, Copy, PartialEq, Eq, Structural)]
pub enum Compression {
    Uncompressed,
    Zstd,
    Lz4,
}

impl Compression {
    pub open spec fn spec_id(self) -> u8 {
        match self {
            Compression::Uncompressed => 0u8,
            Compression::Zstd => 1u8,
            Compression::Lz4 => 2u8,
        }
    }

    fn id(self) -> (id: u8)
        ensures
            id == self.spec_id(),
    {
        match self {
            Compression::Uncompressed => 0,
            Compression::Zstd => 1,
            Compression::Lz4 => 2,
        }
    }

    /// The value with the given id.
    pub open spec fn with_id(id: u8) -> Option<Compression> {
        match id {
            0u8 => Some(Compression::Uncompressed),
            1u8 => Some(Compression::Zstd),
            2u8 => Some(Compression::Lz4),
            _ => None,
        }
    }

    pub fn from_id(id: u8) -> (r: Option<Self>)
        ensures
            r == Compression::with_id(id),
    {
        match id {
            0 => Some(Compression::Uncompressed),
            1 => Some(Compression::Zstd),
            2 => Some(Compression::Lz4),
            _ => None,
        }
    }

    /// Only uncompressed data can be updated in place.
    pub fn is_writable(self) -> (yes: bool)
        ensures
            yes == (self is Uncompressed),
    {
        matches!(self, Compression::Uncompressed)
    }
}

/// Type of the values on the time axis.
#[derive(Debug, Clone, Copy, PartialEq, Eq, Structural)]
pub enum TimeType {
    Date32,
    TimestampUs,
}

impl TimeType {
    pub open spec fn spec_id(self) -> u8 {
        match self {
            TimeType::Date32 => 0u8,
            TimeType::TimestampUs => 1u8,
        }
    }

    pub fn id(self) -> (id: u8)
        ensures
            id == self.spec_id(),
    {
        match self {
            TimeType::Date32 => 0,
            TimeType::TimestampUs => 1,
        }
    }

    /// The value with the given id.
    pub open spec fn with_id(id: u8) -> Option<TimeType> {
        match id {
            0u8 => Some(TimeType::Date32),
            1u8 => Some(TimeType::TimestampUs),
            _ => None,
        }
    }

    pub fn from_id(id: u8) -> (r: Option<Self>)
        ensures
            r == TimeType::with_id(id),
    {
        match id {
            0 => Some(TimeType::Date32),
            1 => Some(TimeType::TimestampUs),
            _ => None,
        }
    }

    /// Bytes per time value.
    pub open spec fn width(self) -> nat {
        match self {
            TimeType::Date32 => 4,
            TimeType::TimestampUs => 8,
        }
    }

    pub fn size_of(self) -> (size: usize)
        ensures
            size == self.width(),
    {
        match self {
            TimeType::Date32 => 4,
            TimeType::TimestampUs => 8,
        }
    }

    pub fn as_data_type(self) -> (t: DataType)
        ensures
            t == match self {
                TimeType::Date32 => DataType::Date32,
                TimeType::TimestampUs => DataType::TimestampUs,
            },
            t.width() == self.width(),
    {
        match self {
            TimeType::Date32 => DataType::Date32,
            TimeType::TimestampUs => DataType::TimestampUs,
        }
    }
}

/// The fixed 64 bytes at the start of a meta file.
#[derive(Debug, Clone, Copy)]
pub struct MetaHeader {
    pub magic: u64,
    pub version: u16,
    pub flags: u16,
    pub time_type: u8,
    pub reserved: [u8; 3],
    pub generation: u64,
    pub time_count: u32,
    pub sym_count: u32,
    pub sym_dict_offset: u64,
    pub sym_index_offset: u64,
    pub file_size: u64,
    pub _pad: [u8; 8],
}

impl MetaHeader {
    /// The 64 bytes on disk.
    pub open spec fn wire(self) -> Seq<u8> {
        le::le_bytes(self.magic as nat, 8) + le::le_bytes(self.version as nat, 2)
            + le::le_bytes(self.flags as nat, 2) + seq![self.time_type] + self.reserved@
            + le::le_bytes(self.generation as nat, 8) + le::le_bytes(self.time_count as nat, 4)
            + le::le_bytes(self.sym_count as nat, 4)
            + le::le_bytes(self.sym_dict_offset as nat, 8)
            + le::le_bytes(self.sym_index_offset as nat, 8)
            + le::le_bytes(self.file_size as nat, 8) + self._pad@
    }

    /// The header takes 64 bytes, and each field has its place in them.
    pub proof fn lemma_wire_parts(self)
        ensures
            self.wire().len() == 64,
            self.wire().subrange(0, 8) == le::le_bytes(self.magic as nat, 8),
            self.wire().subrange(8, 10) == le::le_bytes(self.version as nat, 2),
            self.wire().subrange(10, 12) == le::le_bytes(self.flags as nat, 2),
            self.wire().subrange(12, 13) == seq![self.time_type],
            self.wire().subrange(13, 16) == self.reserved@,
            self.wire().subrange(16, 24) == le::le_bytes(self.generation as nat, 8),
            self.wire().subrange(24, 28) == le::le_bytes(self.time_count as nat, 4),
            self.wire().subrange(28, 32) == le::le_bytes(self.sym_count as nat, 4),
            self.wire().subrange(32, 40) == le::le_bytes(self.sym_dict_offset as nat, 8),
            self.wire().subrange(40, 48) == le::le_bytes(self.sym_index_offset as nat, 8),
            self.wire().subrange(48, 56) == le::le_bytes(self.file_size as nat, 8),
            self.wire().subrange(56, 64) == self._pad@,
    {
        broadcast use le::lemma_le_bytes_len;

        let wire = self.wire();
        assert(wire.subrange(0, 8) =~= le::le_bytes(self.magic as nat, 8));
        assert(wire.subrange(8, 10) =~= le::le_bytes(self.version as nat, 2));
        assert(wire.subrange(10, 12) =~= le::le_bytes(self.flags as nat, 2));
        assert(wire.subrange(12, 13) =~= seq![self.time_type]);
        assert(wire.subrange(13, 16) =~= self.reserved@);
        assert(wire.subrange(16, 24) =~= le::le_bytes(self.generation as nat, 8));
        assert(wire.subrange(24, 28) =~= le::le_bytes(self.time_count as nat, 4));
        assert(wire.subrange(28, 32) =~= le::le_bytes(self.sym_count as nat, 4));
        assert(wire.subrange(32, 40) =~= le::le_bytes(self.sym_dict_offset as nat, 8));
        assert(wire.subrange(40, 48) =~= le::le_bytes(self.sym_index_offset as nat, 8));
        assert(wire.subrange(48, 56) =~= le::le_bytes(self.file_size as nat, 8));
        assert(wire.subrange(56, 64) =~= self._pad@);
    }

    fn encode(&self) -> (out: Vec<u8>)
        ensures
            out@ == self.wire(),
    {
        let mut out: Vec<u8> = Vec::new();
        le::put_u64(&mut out, self.magic);
        le::put_u16(&mut out, self.version);
        le::put_u16(&mut out, self.flags);
        out.push(self.time_type);
        out.extend_from_slice(self.reserved.as_slice());
        le::put_u64(&mut out, self.generation);
        le::put_u32(&mut out, self.time_count);
        le::put_u32(&mut out, self.sym_count);
        le::put_u64(&mut out, self.sym_dict_offset);
        le::put_u64(&mut out, self.sym_index_offset);
        le::put_u64(&mut out, self.file_size);
        out.extend_from_slice(self._pad.as_slice());
        assert(out@ =~= self.wire());
        out
    }

    fn decode(bytes: &[u8]) -> (h: Self)
        requires
            bytes@.len() >= 64,
        ensures
            h.wire() == bytes@.take(64),
    {
        assert(bytes@.len() == bytes.len());
        let h = MetaHeader {
            magic: le::get_u64(bytes, 0),
            version: le::get_u16(bytes, 8),
            flags: le::get_u16(bytes, 10),
            time_type: bytes[12],
            reserved: [bytes[13], bytes[14], bytes[15]],
            generation: le::get_u64(bytes, 16),
            time_count: le::get_u32(bytes, 24),
            sym_count: le::get_u32(bytes, 28),
            sym_dict_offset: le::get_u64(bytes, 32),
            sym_index_offset: le::get_u64(bytes, 40),
            file_size: le::get_u64(bytes, 48),
            _pad: [bytes[56], bytes[57], bytes[58], bytes[59], bytes[60], bytes[61], bytes[62], bytes[63]],
        };
        proof {
            h.lemma_wire_parts();
            assert(h.wire().take(0) =~= bytes@.take(0));
            le::lemma_le_bytes_of_value(bytes@.subrange(0, 8));
            le::lemma_extend_equal(h.wire(), bytes@, 0, 8);
            le::lemma_le_bytes_of_value(bytes@.subrange(8, 10));
            le::lemma_extend_equal(h.wire(), bytes@, 8, 10);
            le::lemma_le_bytes_of_value(bytes@.subrange(10, 12));
            le::lemma_extend_equal(h.wire(), bytes@, 10, 12);
            assert(bytes@.subrange(12, 13) =~= seq![h.time_type]);
            le::lemma_extend_equal(h.wire(), bytes@, 12, 13);
            assert(bytes@.subrange(13, 16) =~= h.reserved@);
            le::lemma_extend_equal(h.wire(), bytes@, 13, 16);
            le::lemma_le_bytes_of_value(bytes@.subrange(16, 24));
            le::lemma_extend_equal(h.wire(), bytes@, 16, 24);
            le::lemma_le_bytes_of_value(bytes@.subrange(24, 28));
            le::lemma_extend_equal(h.wire(), bytes@, 24, 28);
            le::lemma_le_bytes_of_value(bytes@.subrange(28, 32));
            le::lemma_extend_equal(h.wire(), bytes@, 28, 32);
            le::lemma_le_bytes_of_value(bytes@.subrange(32, 40));
            le::lemma_extend_equal(h.wire(), bytes@, 32, 40);
            le::lemma_le_bytes_of_value(bytes@.subrange(40, 48));
            le::lemma_extend_equal(h.wire(), bytes@, 40, 48);
            le::lemma_le_bytes_of_value(bytes@.subrange(48, 56));
            le::lemma_extend_equal(h.wire(), bytes@, 48, 56);
            assert(bytes@.subrange(56, 64) =~= h._pad@);
            le::lemma_extend_equal(h.wire(), bytes@, 56, 64);
            assert(h.wire().take(64) =~= h.wire());
        }
        h
    }

    /// A header whose offsets and size are still to be filled in.
    pub fn new(time_type: TimeType, generation: u64, time_count: u32, sym_count: u32) -> (h: Self)
        ensures
            h == (MetaHeader {
                magic: META_MAGIC,
                version: FORMAT_VERSION,
                flags: 0,
                time_type: time_type.spec_id(),
                reserved: h.reserved,
                generation,
                time_count,
                sym_count,
                sym_dict_offset: 0,
                sym_index_offset: 0,
                file_size: 0,
                _pad: h._pad,
            }),
            forall|i: int| 0 <= i < 3 ==> h.reserved@[i] == 0,
            forall|i: int| 0 <= i < 8 ==> h._pad@[i] == 0,
            h.fault() is None,
    {
        MetaHeader {
            magic: META_MAGIC,
            version: FORMAT_VERSION,
            flags: 0,
            time_type: time_type.id(),
            reserved: [0; 3],
            generation,
            time_count,
            sym_count,
            sym_dict_offset: 0,
            sym_index_offset: 0,
            file_size: 0,
            _pad: [0; 8],
        }
    }

    pub fn to_bytes(&self) -> (bytes: [u8; 64])
        ensures
            bytes@ == self.wire(),
    {
        let out = self.encode();
        proof {
            self.lemma_wire_parts();
        }
        le::array_64(&out)
    }

    /// The header that 64 bytes spell, whatever they say.
    pub fn from_bytes(bytes: &[u8; 64]) -> (h: Self)
        ensures
            h.wire() == bytes@,
    {
        let h = MetaHeader::decode(bytes.as_slice());
        assert(bytes@.take(64) =~= bytes@);
        h
    }

    /// Magic and version, the first that is wrong.
    pub open spec fn fault(self) -> Option<Seq<char>> {
        if self.magic != META_MAGIC {
            Some("invalid META magic"@)
        } else if self.version != FORMAT_VERSION {
            Some("unsupported META version"@)
        } else {
            None
        }
    }

    pub fn validate(&self) -> (r: Result<(), &'static str>)
        ensures
            match self.fault() {
                Some(m) => r matches Err(e) && e@ == m,
                None => r is Ok,
            },
    {
        if self.magic != META_MAGIC {
            return Err("invalid META magic");
        }
        if self.version != FORMAT_VERSION {
            return Err("unsupported META version");
        }
        Ok(())
    }

    pub fn time_type(&self) -> (r: Result<TimeType, &'static str>)
        ensures
            match TimeType::with_id(self.time_type) {
                Some(t) => r matches Ok(u) && u == t,
                None => r matches Err(e) && e@ == "invalid time_type"@,
            },
    {
        match TimeType::from_id(self.time_type) {
            Some(t) => Ok(t),
            None => Err("invalid time_type"),
        }
    }
}

/// Two meta headers of the first version with the same bytes are the same.
pub proof fn law_v1_meta_header_bytes(a: MetaHeader, b: MetaHeader)
    requires
        a.wire() == b.wire(),
    ensures
        a == b,
{
    a.lemma_wire_parts();
    b.lemma_wire_parts();
    le::lemma_le_limits();
    le::lemma_le_bytes_injective(a.magic as nat, b.magic as nat, 8);
    le::lemma_le_bytes_injective(a.version as nat, b.version as nat, 2);
    le::lemma_le_bytes_injective(a.flags as nat, b.flags as nat, 2);
    assert(seq![a.time_type][0] == seq![b.time_type][0]);
    assert(a.reserved =~= b.reserved) by {
        assert forall|i: int| 0 <= i < 3 implies a.reserved[i] == b.reserved[i] by {
            assert(a.reserved@[i] == b.reserved@[i]);
        }
    }
    le::lemma_le_bytes_injective(a.generation as nat, b.generation as nat, 8);
    le::lemma_le_bytes_injective(a.time_count as nat, b.time_count as nat, 4);
    le::lemma_le_bytes_injective(a.sym_count as nat, b.sym_count as nat, 4);
    le::lemma_le_bytes_injective(a.sym_dict_offset as nat, b.sym_dict_offset as nat, 8);
    le::lemma_le_bytes_injective(a.sym_index_offset as nat, b.sym_index_offset as nat, 8);
    le::lemma_le_bytes_injective(a.file_size as nat, b.file_size as nat, 8);
    assert(a._pad =~= b._pad) by {
        assert forall|i: int| 0 <= i < 8 implies a._pad[i] == b._pad[i] by {
            assert(a._pad@[i] == b._pad@[i]);
        }
    }
}

/// Any 64 bytes spell a meta header of the first version.
pub proof fn law_v1_meta_header_of_bytes(bytes: Seq<u8>) -> (h: MetaHeader)
    requires
        bytes.len() == 64,
    ensures
        h.wire() == bytes,
{
    let h = MetaHeader {
        magic: le::le_value(bytes.subrange(0, 8)) as u64,
        version: le::le_value(bytes.subrange(8, 10)) as u16,
        flags: le::le_value(bytes.subrange(10, 12)) as u16,
        time_type: bytes[12],
        reserved: [bytes[13], bytes[14], bytes[15]],
        generation: le::le_value(bytes.subrange(16, 24)) as u64,
        time_count: le::le_value(bytes.subrange(24, 28)) as u32,
        sym_count: le::le_value(bytes.subrange(28, 32)) as u32,
        sym_dict_offset: le::le_value(bytes.subrange(32, 40)) as u64,
        sym_index_offset: le::le_value(bytes.subrange(40, 48)) as u64,
        file_size: le::le_value(bytes.subrange(48, 56)) as u64,
        _pad: [bytes[56], bytes[57], bytes[58], bytes[59], bytes[60], bytes[61], bytes[62], bytes[63]],
    };
    h.lemma_wire_parts();
    le::lemma_le_limits();
    assert(h.wire().take(0) =~= bytes.take(0));
    le::lemma_le_bytes_of_value(bytes.subrange(0, 8));
    le::lemma_extend_equal(h.wire(), bytes, 0, 8);
    le::lemma_le_bytes_of_value(bytes.subrange(8, 10));
    le::lemma_extend_equal(h.wire(), bytes, 8, 10);
    le::lemma_le_bytes_of_value(bytes.subrange(10, 12));
    le::lemma_extend_equal(h.wire(), bytes, 10, 12);
    assert(bytes.subrange(12, 13) =~= seq![h.time_type]);
    le::lemma_extend_equal(h.wire(), bytes, 12, 13);
    assert(bytes.subrange(13, 16) =~= h.reserved@);
    le::lemma_extend_equal(h.wire(), bytes, 13, 16);
    le::lemma_le_bytes_of_value(bytes.subrange(16, 24));
    le::lemma_extend_equal(h.wire(), bytes, 16, 24);
    le::lemma_le_bytes_of_value(bytes.subrange(24, 28));
    le::lemma_extend_equal(h.wire(), bytes, 24, 28);
    le::lemma_le_bytes_of_value(bytes.subrange(28, 32));
    le::lemma_extend_equal(h.wire(), bytes, 28, 32);
    le::lemma_le_bytes_of_value(bytes.subrange(32, 40));
    le::lemma_extend_equal(h.wire(), bytes, 32, 40);
    le::lemma_le_bytes_of_value(bytes.subrange(40, 48));
    le::lemma_extend_equal(h.wire(), bytes, 40, 48);
    le::lemma_le_bytes_of_value(bytes.subrange(48, 56));
    le::lemma_extend_equal(h.wire(), bytes, 48, 56);
    assert(bytes.subrange(56, 64) =~= h._pad@);
    le::lemma_extend_equal(h.wire(), bytes, 56, 64);
    assert(h.wire().take(64) =~= h.wire());
    assert(bytes.take(64) =~= bytes);
    h
}

/// The fixed 64 bytes at the start of a field file.
#[derive(Debug, Clone, Copy)]
pub struct FieldHeader {
    pub magic: u64,
    pub version: u16,
    pub flags: u16,
    pub data_type: u8,
    pub encoding: u8,
    pub compression: u8,
    pub reserved: u8,
    pub generation: u64,
    pub row_count: u32,
    pub null_count: u32,
    pub reserved2: u32,
    pub reserved3: u32,
    pub data_length: u64,
    pub reserved4: [u8; 16],
}

impl FieldHeader {
    /// The 64 bytes on disk.
    pub open spec fn wire(self) -> Seq<u8> {
        le::le_bytes(self.magic as nat, 8) + le::le_bytes(self.version as nat, 2)
            + le::le_bytes(self.flags as nat, 2) + seq![self.data_type] + seq![self.encoding]
            + seq![self.compression] + seq![self.reserved]
            + le::le_bytes(self.generation as nat, 8) + le::le_bytes(self.row_count as nat, 4)
            + le::le_bytes(self.null_count as nat, 4) + le::le_bytes(self.reserved2 as nat, 4)
            + le::le_bytes(self.reserved3 as nat, 4) + le::le_bytes(self.data_length as nat, 8)
            + self.reserved4@
    }

    /// The header takes 64 bytes, and each field has its place in them.
    pub proof fn lemma_wire_parts(self)
        ensures
            self.wire().len() == 64,
            self.wire().subrange(0, 8) == le::le_bytes(self.magic as nat, 8),
            self.wire().subrange(8, 10) == le::le_bytes(self.version as nat, 2),
            self.wire().subrange(10, 12) == le::le_bytes(self.flags as nat, 2),
            self.wire().subrange(12, 13) == seq![self.data_type],
            self.wire().subrange(13, 14) == seq![self.encoding],
            self.wire().subrange(14, 15) == seq![self.compression],
            self.wire().subrange(15, 16) == seq![self.reserved],
            self.wire().subrange(16, 24) == le::le_bytes(self.generation as nat, 8),
            self.wire().subrange(24, 28) == le::le_bytes(self.row_count as nat, 4),
            self.wire().subrange(28, 32) == le::le_bytes(self.null_count as nat, 4),
            self.wire().subrange(32, 36) == le::le_bytes(self.reserved2 as nat, 4),
            self.wire().subrange(36, 40) == le::le_bytes(self.reserved3 as nat, 4),
            self.wire().subrange(40, 48) == le::le_bytes(self.data_length as nat, 8),
            self.wire().subrange(48, 64) == self.reserved4@,
    {
        broadcast use le::lemma_le_bytes_len;

        let wire = self.wire();
        assert(wire.subrange(0, 8) =~= le::le_bytes(self.magic as nat, 8));
        assert(wire.subrange(8, 10) =~= le::le_bytes(self.version as nat, 2));
        assert(wire.subrange(10, 12) =~= le::le_bytes(self.flags as nat, 2));
        assert(wire.subrange(12, 13) =~= seq![self.data_type]);
        assert(wire.subrange(13, 14) =~= seq![self.encoding]);
        assert(wire.subrange(14, 15) =~= seq![self.compression]);
        assert(wire.subrange(15, 16) =~= seq![self.reserved]);
        assert(wire.subrange(16, 24) =~= le::le_bytes(self.generation as nat, 8));
        assert(wire.subrange(24, 28) =~= le::le_bytes(self.row_count as nat, 4));
        assert(wire.subrange(28, 32) =~= le::le_bytes(self.null_count as nat, 4));
        assert(wire.subrange(32, 36) =~= le::le_bytes(self.reserved2 as nat, 4));
        assert(wire.subrange(36, 40) =~= le::le_bytes(self.reserved3 as nat, 4));
        assert(wire.subrange(40, 48) =~= le::le_bytes(self.data_length as nat, 8));
        assert(wire.subrange(48, 64) =~= self.reserved4@);
    }

    fn encode(&self) -> (out: Vec<u8>)
        ensures
            out@ == self.wire(),
    {
        let mut out: Vec<u8> = Vec::new();
        le::put_u64(&mut out, self.magic);
        le::put_u16(&mut out, self.version);
        le::put_u16(&mut out, self.flags);
        out.push(self.data_type);
        out.push(self.encoding);
        out.push(self.compression);
        out.push(self.reserved);
        le::put_u64(&mut out, self.generation);
        le::put_u32(&mut out, self.row_count);
        le::put_u32(&mut out, self.null_count);
        le::put_u32(&mut out, self.reserved2);
        le::put_u32(&mut out, self.reserved3);
        le::put_u64(&mut out, self.data_length);
        out.extend_from_slice(self.reserved4.as_slice());
        assert(out@ =~= self.wire());
        out
    }

    fn decode(bytes: &[u8]) -> (h: Self)
        requires
            bytes@.len() >= 64,
        ensures
            h.wire() == bytes@.take(64),
    {
        assert(bytes@.len() == bytes.len());
        let h = FieldHeader {
            magic: le::get_u64(bytes, 0),
            version: le::get_u16(bytes, 8),
            flags: le::get_u16(bytes, 10),
            data_type: bytes[12],
            encoding: bytes[13],
            compression: bytes[14],
            reserved: bytes[15],
            generation: le::get_u64(bytes, 16),
            row_count: le::get_u32(bytes, 24),
            null_count: le::get_u32(bytes, 28),
            reserved2: le::get_u32(bytes, 32),
            reserved3: le::get_u32(bytes, 36),
            data_length: le::get_u64(bytes, 40),
            reserved4: [
                bytes[48],
                bytes[49],
                bytes[50],
                bytes[51],
                bytes[52],
                bytes[53],
                bytes[54],
                bytes[55],
                bytes[56],
                bytes[57],
                bytes[58],
                bytes[59],
                bytes[60],
                bytes[61],
                bytes[62],
                bytes[63],
            ],
        };
        proof {
            h.lemma_wire_parts();
            assert(h.wire().take(0) =~= bytes@.take(0));
            le::lemma_le_bytes_of_value(bytes@.subrange(0, 8));
            le::lemma_extend_equal(h.wire(), bytes@, 0, 8);
            le::lemma_le_bytes_of_value(bytes@.subrange(8, 10));
            le::lemma_extend_equal(h.wire(), bytes@, 8, 10);
            le::lemma_le_bytes_of_value(bytes@.subrange(10, 12));
            le::lemma_extend_equal(h.wire(), bytes@, 10, 12);
            assert(bytes@.subrange(12, 13) =~= seq![h.data_type]);
            le::lemma_extend_equal(h.wire(), bytes@, 12, 13);
            assert(bytes@.subrange(13, 14) =~= seq![h.encoding]);
            le::lemma_extend_equal(h.wire(), bytes@, 13, 14);
            assert(bytes@.subrange(14, 15) =~= seq![h.compression]);
            le::lemma_extend_equal(h.wire(), bytes@, 14, 15);
            assert(bytes@.subrange(15, 16) =~= seq![h.reserved]);
            le::lemma_extend_equal(h.wire(), bytes@, 15, 16);
            le::lemma_le_bytes_of_value(bytes@.subrange(16, 24));
            le::lemma_extend_equal(h.wire(), bytes@, 16, 24);
            le::lemma_le_bytes_of_value(bytes@.subrange(24, 28));
            le::lemma_extend_equal(h.wire(), bytes@, 24, 28);
            le::lemma_le_bytes_of_value(bytes@.subrange(28, 32));
            le::lemma_extend_equal(h.wire(), bytes@, 28, 32);
            le::lemma_le_bytes_of_value(bytes@.subrange(32, 36));
            le::lemma_extend_equal(h.wire(), bytes@, 32, 36);
            le::lemma_le_bytes_of_value(bytes@.subrange(36, 40));
            le::lemma_extend_equal(h.wire(), bytes@, 36, 40);
            le::lemma_le_bytes_of_value(bytes@.subrange(40, 48));
            le::lemma_extend_equal(h.wire(), bytes@, 40, 48);
            assert(bytes@.subrange(48, 64) =~= h.reserved4@);
            le::lemma_extend_equal(h.wire(), bytes@, 48, 64);
            assert(h.wire().take(64) =~= h.wire());
        }
        h
    }

    /// The header of a new field: every row is missing.
    pub fn new(
        data_type: DataType,
        encoding: Encoding,
        compression: Compression,
        generation: u64,
        row_count: u32,
        data_length: u64,
    ) -> (h: Self)
        ensures
            h == (FieldHeader {
                magic: FIELD_MAGIC,
                version: FORMAT_VERSION,
                flags: 0,
                data_type: data_type.spec_id(),
                encoding: encoding.spec_id(),
                compression: compression.spec_id(),
                reserved: 0,
                generation,
                row_count,
                null_count: row_count,
                reserved2: 0,
                reserved3: 0,
                data_length,
                reserved4: h.reserved4,
            }),
            forall|i: int| 0 <= i < 16 ==> h.reserved4@[i] == 0,
            h.fault() is None,
    {
        FieldHeader {
            magic: FIELD_MAGIC,
            version: FORMAT_VERSION,
            flags: 0,
            data_type: data_type.id(),
            encoding: encoding.id(),
            compression: compression.id(),
            reserved: 0,
            generation,
            row_count,
            null_count: row_count,
            reserved2: 0,
            reserved3: 0,
            data_length,
            reserved4: [0; 16],
        }
    }

    pub fn to_bytes(&self) -> (bytes: [u8; 64])
        ensures
            bytes@ == self.wire(),
    {
        let out = self.encode();
        proof {
            self.lemma_wire_parts();
        }
        le::array_64(&out)
    }

    /// The header that 64 bytes spell, whatever they say.
    pub fn from_bytes(bytes: &[u8; 64]) -> (h: Self)
        ensures
            h.wire() == bytes@,
    {
        let h = FieldHeader::decode(bytes.as_slice());
        assert(bytes@.take(64) =~= bytes@);
        h
    }

    /// Magic and version, the first that is wrong.
    pub open spec fn fault(self) -> Option<Seq<char>> {
        if self.magic != FIELD_MAGIC {
            Some("invalid FIELD magic"@)
        } else if self.version != FORMAT_VERSION {
            Some("unsupported FIELD version"@)
        } else {
            None
        }
    }

    pub fn validate(&self) -> (r: Result<(), &'static str>)
        ensures
            match self.fault() {
                Some(m) => r matches Err(e) && e@ == m,
                None => r is Ok,
            },
    {
        if self.magic != FIELD_MAGIC {
            return Err("invalid FIELD magic");
        }
        if self.version != FORMAT_VERSION {
            return Err("unsupported FIELD version");
        }
        Ok(())
    }

    pub fn data_type(&self) -> (r: Result<DataType, &'static str>)
        ensures
            match DataType::with_id(self.data_type) {
                Some(t) => r matches Ok(u) && u == t,
                None => r matches Err(e) && e@ == "invalid data_type"@,
            },
    {
        match DataType::from_id(self.data_type) {
            Ok(t) => Ok(t),
            Err(_) => Err("invalid data_type"),
        }
    }

    pub fn encoding(&self) -> (r: Result<Encoding, &'static str>)
        ensures
            match Encoding::with_id(self.encoding) {
                Some(t) => r matches Ok(u) && u == t,
                None => r matches Err(e) && e@ == "invalid encoding"@,
            },
    {
        match Encoding::from_id(self.encoding) {
            Some(t) => Ok(t),
            None => Err("invalid encoding"),
        }
    }

    pub fn compression(&self) -> (r: Result<Compression, &'static str>)
        ensures
            match Compression::with_id(self.compression) {
                Some(t) => r matches Ok(u) && u == t,
                None => r matches Err(e) && e@ == "invalid compression"@,
            },
    {
        match Compression::from_id(self.compression) {
            Some(t) => Ok(t),
            None => Err("invalid compression"),
        }
    }
}

/// Two field headers of the first version with the same bytes are the same.
pub proof fn law_v1_field_header_bytes(a: FieldHeader, b: FieldHeader)
    requires
        a.wire() == b.wire(),
    ensures
        a == b,
{
    a.lemma_wire_parts();
    b.lemma_wire_parts();
    le::lemma_le_limits();
    le::lemma_le_bytes_injective(a.magic as nat, b.magic as nat, 8);
    le::lemma_le_bytes_injective(a.version as nat, b.version as nat, 2);
    le::lemma_le_bytes_injective(a.flags as nat, b.flags as nat, 2);
    assert(seq![a.data_type][0] == seq![b.data_type][0]);
    assert(seq![a.encoding][0] == seq![b.encoding][0]);
    assert(seq![a.compression][0] == seq![b.compression][0]);
    assert(seq![a.reserved][0] == seq![b.reserved][0]);
    le::lemma_le_bytes_injective(a.generation as nat, b.generation as nat, 8);
    le::lemma_le_bytes_injective(a.row_count as nat, b.row_count as nat, 4);
    le::lemma_le_bytes_injective(a.null_count as nat, b.null_count as nat, 4);
    le::lemma_le_bytes_injective(a.reserved2 as nat, b.reserved2 as nat, 4);
    le::lemma_le_bytes_injective(a.reserved3 as nat, b.reserved3 as nat, 4);
    le::lemma_le_bytes_injective(a.data_length as nat, b.data_length as nat, 8);
    assert(a.reserved4 =~= b.reserved4) by {
        assert forall|i: int| 0 <= i < 16 implies a.reserved4[i] == b.reserved4[i] by {
            assert(a.reserved4@[i] == b.reserved4@[i]);
        }
    }
}

/// Any 64 bytes spell a field header of the first version.
pub proof fn law_v1_field_header_of_bytes(bytes: Seq<u8>) -> (h: FieldHeader)
    requires
        bytes.len() == 64,
    ensures
        h.wire() == bytes,
{
    let h = FieldHeader {
        magic: le::le_value(bytes.subrange(0, 8)) as u64,
        version: le::le_value(bytes.subrange(8, 10)) as u16,
        flags: le::le_value(bytes.subrange(10, 12)) as u16,
        data_type: bytes[12],
        encoding: bytes[13],
        compression: bytes[14],
        reserved: bytes[15],
        generation: le::le_value(bytes.subrange(16, 24)) as u64,
        row_count: le::le_value(bytes.subrange(24, 28)) as u32,
        null_count: le::le_value(bytes.subrange(28, 32)) as u32,
        reserved2: le::le_value(bytes.subrange(32, 36)) as u32,
        reserved3: le::le_value(bytes.subrange(36, 40)) as u32,
        data_length: le::le_value(bytes.subrange(40, 48)) as u64,
        reserved4: [
            bytes[48],
            bytes[49],
            bytes[50],
            bytes[51],
            bytes[52],
            bytes[53],
            bytes[54],
            bytes[55],
            bytes[56],
            bytes[57],
            bytes[58],
            bytes[59],
            bytes[60],
            bytes[61],
            bytes[62],
            bytes[63],
        ],
    };
    h.lemma_wire_parts();
    le::lemma_le_limits();
    assert(h.wire().take(0) =~= bytes.take(0));
    le::lemma_le_bytes_of_value(bytes.subrange(0, 8));
    le::lemma_extend_equal(h.wire(), bytes, 0, 8);
    le::lemma_le_bytes_of_value(bytes.subrange(8, 10));
    le::lemma_extend_equal(h.wire(), bytes, 8, 10);
    le::lemma_le_bytes_of_value(bytes.subrange(10, 12));
    le::lemma_extend_equal(h.wire(), bytes, 10, 12);
    assert(bytes.subrange(12, 13) =~= seq![h.data_type]);
    le::lemma_extend_equal(h.wire(), bytes, 12, 13);
    assert(bytes.subrange(13, 14) =~= seq![h.encoding]);
    le::lemma_extend_equal(h.wire(), bytes, 13, 14);
    assert(bytes.subrange(14, 15) =~= seq![h.compression]);
    le::lemma_extend_equal(h.wire(), bytes, 14, 15);
    assert(bytes.subrange(15, 16) =~= seq![h.reserved]);
    le::lemma_extend_equal(h.wire(), bytes, 15, 16);
    le::lemma_le_bytes_of_value(bytes.subrange(16, 24));
    le::lemma_extend_equal(h.wire(), bytes, 16, 24);
    le::lemma_le_bytes_of_value(bytes.subrange(24, 28));
    le::lemma_extend_equal(h.wire(), bytes, 24, 28);
    le::lemma_le_bytes_of_value(bytes.subrange(28, 32));
    le::lemma_extend_equal(h.wire(), bytes, 28, 32);
    le::lemma_le_bytes_of_value(bytes.subrange(32, 36));
    le::lemma_extend_equal(h.wire(), bytes, 32, 36);
    le::lemma_le_bytes_of_value(bytes.subrange(36, 40));
    le::lemma_extend_equal(h.wire(), bytes, 36, 40);
    le::lemma_le_bytes_of_value(bytes.subrange(40, 48));
    le::lemma_extend_equal(h.wire(), bytes, 40, 48);
    assert(bytes.subrange(48, 64) =~= h.reserved4@);
    le::lemma_extend_equal(h.wire(), bytes, 48, 64);
    assert(h.wire().take(64) =~= h.wire());
    assert(bytes.take(64) =~= bytes);
    h
}

/// Where the numbers of a header stand in its 64 bytes, each from its least byte on.
pub proof fn law_v1_meta_header_places(h: MetaHeader)
    ensures
        le::le_value(h.wire().subrange(0, 8)) == h.magic,
        le::le_value(h.wire().subrange(8, 10)) == h.version,
        le::le_value(h.wire().subrange(10, 12)) == h.flags,
        h.wire()[12] == h.time_type,
        h.wire().subrange(13, 16) == h.reserved@,
        le::le_value(h.wire().subrange(16, 24)) == h.generation,
        le::le_value(h.wire().subrange(24, 28)) == h.time_count,
        le::le_value(h.wire().subrange(28, 32)) == h.sym_count,
        le::le_value(h.wire().subrange(32, 40)) == h.sym_dict_offset,
        le::le_value(h.wire().subrange(40, 48)) == h.sym_index_offset,
        le::le_value(h.wire().subrange(48, 56)) == h.file_size,
        h.wire().subrange(56, 64) == h._pad@,
        h.wire().len() == 64,
{
    h.lemma_wire_parts();
    le::lemma_le_limits();
    le::lemma_le_value_of_bytes(h.magic as nat, 8);
    le::lemma_le_value_of_bytes(h.version as nat, 2);
    le::lemma_le_value_of_bytes(h.flags as nat, 2);
    assert(h.wire().subrange(12, 13)[0] == h.time_type);
    le::lemma_le_value_of_bytes(h.generation as nat, 8);
    le::lemma_le_value_of_bytes(h.time_count as nat, 4);
    le::lemma_le_value_of_bytes(h.sym_count as nat, 4);
    le::lemma_le_value_of_bytes(h.sym_dict_offset as nat, 8);
    le::lemma_le_value_of_bytes(h.sym_index_offset as nat, 8);
    le::lemma_le_value_of_bytes(h.file_size as nat, 8);
}

/// Where the numbers of a header stand in its 64 bytes, each from its least byte on.
pub proof fn law_v1_field_header_places(h: FieldHeader)
    ensures
        le::le_value(h.wire().subrange(0, 8)) == h.magic,
        le::le_value(h.wire().subrange(8, 10)) == h.version,
        le::le_value(h.wire().subrange(10, 12)) == h.flags,
        h.wire()[12] == h.data_type,
        h.wire()[13] == h.encoding,
        h.wire()[14] == h.compression,
        h.wire()[15] == h.reserved,
        le::le_value(h.wire().subrange(16, 24)) == h.generation,
        le::le_value(h.wire().subrange(24, 28)) == h.row_count,
        le::le_value(h.wire().subrange(28, 32)) == h.null_count,
        le::le_value(h.wire().subrange(32, 36)) == h.reserved2,
        le::le_value(h.wire().subrange(36, 40)) == h.reserved3,
        le::le_value(h.wire().subrange(40, 48)) == h.data_length,
        h.wire().subrange(48, 64) == h.reserved4@,
        h.wire().len() == 64,
{
    h.lemma_wire_parts();
    le::lemma_le_limits();
    le::lemma_le_value_of_bytes(h.magic as nat, 8);
    le::lemma_le_value_of_bytes(h.version as nat, 2);
    le::lemma_le_value_of_bytes(h.flags as nat, 2);
    assert(h.wire().subrange(12, 13)[0] == h.data_type);
    assert(h.wire().subrange(13, 14)[0] == h.encoding);
    assert(h.wire().subrange(14, 15)[0] == h.compression);
    assert(h.wire().subrange(15, 16)[0] == h.reserved);
    le::lemma_le_value_of_bytes(h.generation as nat, 8);
    le::lemma_le_value_of_bytes(h.row_count as nat, 4);
    le::lemma_le_value_of_bytes(h.null_count as nat, 4);
    le::lemma_le_value_of_bytes(h.reserved2 as nat, 4);
    le::lemma_le_value_of_bytes(h.reserved3 as nat, 4);
    le::lemma_le_value_of_bytes(h.data_length as nat, 8);
}

/// A header is sound exactly where it starts with the format's name and has its version.
pub proof fn law_v1_headers_sound(m: MetaHeader, f: FieldHeader)
    ensures
        m.fault() is None <==> m.magic == META_MAGIC && m.version == FORMAT_VERSION,
        f.fault() is None <==> f.magic == FIELD_MAGIC && f.version == FORMAT_VERSION,
        m.magic != META_MAGIC ==> m.fault() == Some("invalid META magic"@),
        f.magic != FIELD_MAGIC ==> f.fault() == Some("invalid FIELD magic"@),
{
}

/// The numbers that stand for encodings, compressions and time types; every number stands for
/// at most one.
pub proof fn law_v1_numbers(e: Encoding, c: Compression, t: TimeType, id: u8)
    ensures
        e is Plain <==> e.spec_id() == 0,
        e is Delta <==> e.spec_id() == 1,
        e is Rle <==> e.spec_id() == 2,
        e is Bitpack <==> e.spec_id() == 3,
        c is Uncompressed <==> c.spec_id() == 0,
        c is Zstd <==> c.spec_id() == 1,
        c is Lz4 <==> c.spec_id() == 2,
        t is Date32 <==> t.spec_id() == 0 && t.width() == 4,
        t is TimestampUs <==> t.spec_id() == 1 && t.width() == 8,
        Encoding::with_id(e.spec_id()) == Some(e),
        Compression::with_id(c.spec_id()) == Some(c),
        TimeType::with_id(t.spec_id()) == Some(t),
        Encoding::with_id(id) matches Some(x) ==> x.spec_id() == id,
        Compression::with_id(id) matches Some(x) ==> x.spec_id() == id,
        TimeType::with_id(id) matches Some(x) ==> x.spec_id() == id,
{
}

} // verus!

//! Header of a field file.

use vstd::prelude::*;
use crate::bitmap;
use crate::error::FormatError;
use crate::le;
use crate::types::{Compression, DataType, Encoding};
use crate::{FIELD_MAGIC, FORMAT_VERSION, HEADER_SIZE, validity_size};

verus! {

pub const FIELD_HEADER_SIZE: usize = HEADER_SIZE;

/// Bit of `flags`: the file has a validity region.
pub const FIELD_FLAGS_HAS_VALIDITY: u16 = 1;

/// The fixed 64 bytes at the start of a field file.
#[derive(Debug, Clone, Copy, PartialEq, Eq, Structural)]
pub struct FieldHeader {
    pub magic: u64,
    pub version: u16,
    pub flags: u16,
    pub data_type: u8,
    pub encoding: u8,
    pub compression: u8,
    pub reserved0: u8,
    pub generation: u64,
    pub row_count: u32,
    pub null_count: u32,
    pub reserved1: u32,
    pub reserved2: u32,
    pub data_length: u64,
    pub validity_offset: u64,
    pub reserved3: u64,
}

impl FieldHeader {
    /// The 64 bytes on disk.
    pub open spec fn wire(self) -> Seq<u8> {
        le::le_bytes(self.magic as nat, 8) + le::le_bytes(self.version as nat, 2)
            + le::le_bytes(self.flags as nat, 2) + seq![self.data_type] + seq![self.encoding]
            + seq![self.compression] + seq![self.reserved0]
            + le::le_bytes(self.generation as nat, 8) + le::le_bytes(self.row_count as nat, 4)
            + le::le_bytes(self.null_count as nat, 4) + le::le_bytes(self.reserved1 as nat, 4)
            + le::le_bytes(self.reserved2 as nat, 4) + le::le_bytes(self.data_length as nat, 8)
            + le::le_bytes(self.validity_offset as nat, 8)
            + le::le_bytes(self.reserved3 as nat, 8)
    }

    /// The header takes 64 bytes, and each field has its place in them.
    pub proof fn lemma_wire_parts(self)
        ensures
            self.wire().len() == 64,
            self.wire().subrange(0, 8) == le::le_bytes(self.magic as nat, 8),
            self.wire().subrange(8, 10) == le::le_bytes(self.version as nat, 2),
            self.wire().subrange(10, 12) == le::le_bytes(self.flags as nat, 2),
            self.wire().subrange(12, 13) == seq![self.data_type],
            self.wire().subrange(13, 14) == seq![self.encoding],
            self.wire().subrange(14, 15) == seq![self.compression],
            self.wire().subrange(15, 16) == seq![self.reserved0],
            self.wire().subrange(16, 24) == le::le_bytes(self.generation as nat, 8),
            self.wire().subrange(24, 28) == le::le_bytes(self.row_count as nat, 4),
            self.wire().subrange(28, 32) == le::le_bytes(self.null_count as nat, 4),
            self.wire().subrange(32, 36) == le::le_bytes(self.reserved1 as nat, 4),
            self.wire().subrange(36, 40) == le::le_bytes(self.reserved2 as nat, 4),
            self.wire().subrange(40, 48) == le::le_bytes(self.data_length as nat, 8),
            self.wire().subrange(48, 56) == le::le_bytes(self.validity_offset as nat, 8),
            self.wire().subrange(56, 64) == le::le_bytes(self.reserved3 as nat, 8),
    {
        broadcast use le::lemma_le_bytes_len;

        let wire = self.wire();
        assert(wire.subrange(0, 8) =~= le::le_bytes(self.magic as nat, 8));
        assert(wire.subrange(8, 10) =~= le::le_bytes(self.version as nat, 2));
        assert(wire.subrange(10, 12) =~= le::le_bytes(self.flags as nat, 2));
        assert(wire.subrange(12, 13) =~= seq![self.data_type]);
        assert(wire.subrange(13, 14) =~= seq![self.encoding]);
        assert(wire.subrange(14, 15) =~= seq![self.compression]);
        assert(wire.subrange(15, 16) =~= seq![self.reserved0]);
        assert(wire.subrange(16, 24) =~= le::le_bytes(self.generation as nat, 8));
        assert(wire.subrange(24, 28) =~= le::le_bytes(self.row_count as nat, 4));
        assert(wire.subrange(28, 32) =~= le::le_bytes(self.null_count as nat, 4));
        assert(wire.subrange(32, 36) =~= le::le_bytes(self.reserved1 as nat, 4));
        assert(wire.subrange(36, 40) =~= le::le_bytes(self.reserved2 as nat, 4));
        assert(wire.subrange(40, 48) =~= le::le_bytes(self.data_length as nat, 8));
        assert(wire.subrange(48, 56) =~= le::le_bytes(self.validity_offset as nat, 8));
        assert(wire.subrange(56, 64) =~= le::le_bytes(self.reserved3 as nat, 8));
    }

    fn encode(&self) -> (out: Vec<u8>)
        ensures
            out@ == self.wire(),
    {
        let mut out: Vec<u8> = Vec::new();
        le::put_u64(&mut out, self.magic);
        le::put_u16(&mut out, self.version);
        le::put_u16(&mut out, self.flags);
        out.push(self.data_type);
        out.push(self.encoding);
        out.push(self.compression);
        out.push(self.reserved0);
        le::put_u64(&mut out, self.generation);
        le::put_u32(&mut out, self.row_count);
        le::put_u32(&mut out, self.null_count);
        le::put_u32(&mut out, self.reserved1);
        le::put_u32(&mut out, self.reserved2);
        le::put_u64(&mut out, self.data_length);
        le::put_u64(&mut out, self.validity_offset);
        le::put_u64(&mut out, self.reserved3);
        assert(out@ =~= self.wire());
        out
    }

    fn decode(bytes: &[u8]) -> (h: Self)
        requires
            bytes@.len() >= 64,
        ensures
            h.wire() == bytes@.take(64),
    {
        assert(bytes@.len() == bytes.len());
        let h = FieldHeader {
            magic: le::get_u64(bytes, 0),
            version: le::get_u16(bytes, 8),
            flags: le::get_u16(bytes, 10),
            data_type: bytes[12],
            encoding: bytes[13],
            compression: bytes[14],
            reserved0: bytes[15],
            generation: le::get_u64(bytes, 16),
            row_count: le::get_u32(bytes, 24),
            null_count: le::get_u32(bytes, 28),
            reserved1: le::get_u32(bytes, 32),
            reserved2: le::get_u32(bytes, 36),
            data_length: le::get_u64(bytes, 40),
            validity_offset: le::get_u64(bytes, 48),
            reserved3: le::get_u64(bytes, 56),
        };
        proof {
            h.lemma_wire_parts();
            assert(h.wire().take(0) =~= bytes@.take(0));
            le::lemma_le_bytes_of_value(bytes@.subrange(0, 8));
            le::lemma_extend_equal(h.wire(), bytes@, 0, 8);
            le::lemma_le_bytes_of_value(bytes@.subrange(8, 10));
            le::lemma_extend_equal(h.wire(), bytes@, 8, 10);
            le::lemma_le_bytes_of_value(bytes@.subrange(10, 12));
            le::lemma_extend_equal(h.wire(), bytes@, 10, 12);
            assert(bytes@.subrange(12, 13) =~= seq![h.data_type]);
            le::lemma_extend_equal(h.wire(), bytes@, 12, 13);
            assert(bytes@.subrange(13, 14) =~= seq![h.encoding]);
            le::lemma_extend_equal(h.wire(), bytes@, 13, 14);
            assert(bytes@.subrange(14, 15) =~= seq![h.compression]);
            le::lemma_extend_equal(h.wire(), bytes@, 14, 15);
            assert(bytes@.subrange(15, 16) =~= seq![h.reserved0]);
            le::lemma_extend_equal(h.wire(), bytes@, 15, 16);
            le::lemma_le_bytes_of_value(bytes@.subrange(16, 24));
            le::lemma_extend_equal(h.wire(), bytes@, 16, 24);
            le::lemma_le_bytes_of_value(bytes@.subrange(24, 28));
            le::lemma_extend_equal(h.wire(), bytes@, 24, 28);
            le::lemma_le_bytes_of_value(bytes@.subrange(28, 32));
            le::lemma_extend_equal(h.wire(), bytes@, 28, 32);
            le::lemma_le_bytes_of_value(bytes@.subrange(32, 36));
            le::lemma_extend_equal(h.wire(), bytes@, 32, 36);
            le::lemma_le_bytes_of_value(bytes@.subrange(36, 40));
            le::lemma_extend_equal(h.wire(), bytes@, 36, 40);
            le::lemma_le_bytes_of_value(bytes@.subrange(40, 48));
            le::lemma_extend_equal(h.wire(), bytes@, 40, 48);
            le::lemma_le_bytes_of_value(bytes@.subrange(48, 56));
            le::lemma_extend_equal(h.wire(), bytes@, 48, 56);
            le::lemma_le_bytes_of_value(bytes@.subrange(56, 64));
            le::lemma_extend_equal(h.wire(), bytes@, 56, 64);
            assert(h.wire().take(64) =~= h.wire());
        }
        h
    }

    /// The header of a file of plain, uncompressed values.  The validity region, if
    /// there is one, follows the values.
    pub open spec fn uncompressed(
        data_type: DataType,
        generation: u64,
        row_count: u32,
        null_count: u32,
        has_validity: bool,
    ) -> FieldHeader {
        FieldHeader {
            magic: FIELD_MAGIC,
            version: FORMAT_VERSION,
            flags: if has_validity {
                FIELD_FLAGS_HAS_VALIDITY
            } else {
                0
            },
            data_type: data_type.spec_id(),
            encoding: Encoding::Plain.spec_id(),
            compression: Compression::Uncompressed.spec_id(),
            reserved0: 0,
            generation,
            row_count,
            null_count,
            reserved1: 0,
            reserved2: 0,
            data_length: (row_count * data_type.width()) as u64,
            validity_offset: if has_validity {
                (64 + row_count * data_type.width()) as u64
            } else {
                0
            },
            reserved3: 0,
        }
    }

    pub fn new_uncompressed(
        data_type: DataType,
        generation: u64,
        row_count: u32,
        null_count: u32,
        has_validity: bool,
    ) -> (h: Self)
        ensures
            h == FieldHeader::uncompressed(
                data_type,
                generation,
                row_count,
                null_count,
                has_validity,
            ),
            h.data_length == row_count * data_type.width(),
            h.validity_offset == if has_validity {
                64 + row_count * data_type.width()
            } else {
                0
            },
    {
        let size: u64 = data_type.size_of() as u64;
        assert(row_count * size <= 0xffff_ffff * 8) by (nonlinear_arith)
            requires
                row_count <= 0xffff_ffff,
                size <= 8,
        ;
        let data_length: u64 = row_count as u64 * size;
        FieldHeader {
            magic: FIELD_MAGIC,
            version: FORMAT_VERSION,
            flags: if has_validity {
                FIELD_FLAGS_HAS_VALIDITY
            } else {
                0
            },
            data_type: data_type.id(),
            encoding: Encoding::Plain.id(),
            compression: Compression::Uncompressed.id(),
            reserved0: 0,
            generation,
            row_count,
            null_count,
            reserved1: 0,
            reserved2: 0,
            data_length,
            validity_offset: if has_validity {
                64 + data_length
            } else {
                0
            },
            reserved3: 0,
        }
    }

    pub fn to_bytes(&self) -> (bytes: [u8; 64])
        ensures
            bytes@ == self.wire(),
    {
        let out = self.encode();
        proof {
            self.lemma_wire_parts();
        }
        le::array_64(&out)
    }

    /// What is wrong with the header, if anything: the first of its magic, its
    /// version and its ids.
    pub open spec fn fault(self) -> Option<FormatError> {
        if self.magic != FIELD_MAGIC {
            Some(FormatError::BadMagic { expected: FIELD_MAGIC, found: self.magic })
        } else if self.version != FORMAT_VERSION {
            Some(FormatError::BadVersion { expected: FORMAT_VERSION, found: self.version })
        } else if DataType::with_id(self.data_type) is None {
            Some(FormatError::UnknownDataType(self.data_type))
        } else if Encoding::with_id(self.encoding) is None {
            Some(FormatError::UnknownEncoding(self.encoding))
        } else if Compression::with_id(self.compression) is None {
            Some(FormatError::UnknownCompression(self.compression))
        } else {
            None
        }
    }

    /// The header that the first 64 bytes spell, if nothing is wrong with it.
    pub fn from_bytes(bytes: &[u8]) -> (r: Result<Self, FormatError>)
        ensures
            bytes@.len() < 64 ==> r == Err::<FieldHeader, FormatError>(
                FormatError::SizeMismatch { expected: 64, found: bytes@.len() as usize },
            ),
            forall|h: FieldHeader|
                bytes@.len() >= 64 && #[trigger] h.wire() == bytes@.take(64) ==> r
                    == match h.fault() {
                    Some(e) => Err::<FieldHeader, FormatError>(e),
                    None => Ok(h),
                },
    {
        if bytes.len() < FIELD_HEADER_SIZE {
            return Err(
                FormatError::SizeMismatch { expected: FIELD_HEADER_SIZE, found: bytes.len() },
            );
        }
        let header = FieldHeader::decode(bytes);
        proof {
            assert forall|h: FieldHeader| #[trigger] h.wire() == bytes@.take(64) implies h
                == header by {
                law_field_header_bytes(h, header);
            }
        }
        match header.validate() {
            Ok(_) => Ok(header),
            Err(e) => Err(e),
        }
    }

    pub fn validate(&self) -> (r: Result<(), FormatError>)
        ensures
            r == match self.fault() {
                Some(e) => Err::<(), FormatError>(e),
                None => Ok(()),
            },
    {
        if self.magic != FIELD_MAGIC {
            return Err(FormatError::BadMagic { expected: FIELD_MAGIC, found: self.magic });
        }
        if self.version != FORMAT_VERSION {
            return Err(FormatError::BadVersion { expected: FORMAT_VERSION, found: self.version });
        }
        if let Err(e) = DataType::from_id(self.data_type) {
            return Err(e);
        }
        if let Err(e) = Encoding::from_id(self.encoding) {
            return Err(e);
        }
        if let Err(e) = Compression::from_id(self.compression) {
            return Err(e);
        }
        Ok(())
    }

    pub fn data_type(&self) -> (r: Result<DataType, FormatError>)
        ensures
            r == match DataType::with_id(self.data_type) {
                Some(t) => Ok::<DataType, FormatError>(t),
                None => Err(FormatError::UnknownDataType(self.data_type)),
            },
    {
        DataType::from_id(self.data_type)
    }

    pub fn encoding(&self) -> (r: Result<Encoding, FormatError>)
        ensures
            r == match Encoding::with_id(self.encoding) {
                Some(t) => Ok::<Encoding, FormatError>(t),
                None => Err(FormatError::UnknownEncoding(self.encoding)),
            },
    {
        Encoding::from_id(self.encoding)
    }

    pub fn compression(&self) -> (r: Result<Compression, FormatError>)
        ensures
            r == match Compression::with_id(self.compression) {
                Some(t) => Ok::<Compression, FormatError>(t),
                None => Err(FormatError::UnknownCompression(self.compression)),
            },
    {
        Compression::from_id(self.compression)
    }

    /// The validity flag is set.
    pub open spec fn spec_has_validity(self) -> bool {
        self.flags & FIELD_FLAGS_HAS_VALIDITY != 0
    }

    pub fn has_validity(&self) -> (yes: bool)
        ensures
            yes == self.spec_has_validity(),
    {
        self.flags & FIELD_FLAGS_HAS_VALIDITY != 0
    }

    /// Sets or clears the validity flag and leaves everything else alone.
    pub fn set_has_validity(&mut self, has_validity: bool)
        ensures
            final(self).spec_has_validity() == has_validity,
            final(self).flags | FIELD_FLAGS_HAS_VALIDITY == old(self).flags
                | FIELD_FLAGS_HAS_VALIDITY,
            *final(self) == (FieldHeader { flags: final(self).flags, ..*old(self) }),
    {
        let flags: u16 = self.flags;
        if has_validity {
            self.flags = flags | FIELD_FLAGS_HAS_VALIDITY;
            assert((flags | 1u16) & 1u16 != 0u16 && (flags | 1u16) | 1u16 == flags | 1u16)
                by (bit_vector);
        } else {
            self.flags = flags & !FIELD_FLAGS_HAS_VALIDITY;
            assert((flags & !1u16) & 1u16 == 0u16 && (flags & !1u16) | 1u16 == flags | 1u16)
                by (bit_vector);
        }
    }

    /// The values start right behind the header.
    pub fn data_offset(&self) -> (offset: u64)
        ensures
            offset == 64,
    {
        64
    }

    /// Bytes of the validity region.
    pub fn validity_size(&self) -> (size: usize)
        ensures
            size == if self.spec_has_validity() {
                bitmap::bytes_for(self.row_count as int)
            } else {
                0
            },
    {
        if self.has_validity() {
            validity_size(self.row_count)
        } else {
            0
        }
    }

    /// The values are stored in encoded or compressed chunks.
    pub fn is_chunked(&self) -> (yes: bool)
        ensures
            yes == (self.encoding != Encoding::Plain.spec_id() || self.compression
                != Compression::Uncompressed.spec_id()),
    {
        self.encoding != Encoding::Plain.id() || self.compression != Compression::Uncompressed.id()
    }

    /// There are rows, and all are missing.
    pub fn is_all_null(&self) -> (yes: bool)
        ensures
            yes == (self.row_count > 0 && self.null_count == self.row_count),
    {
        self.row_count > 0 && self.null_count == self.row_count
    }
}

/// Two field headers with the same bytes are the same.
pub proof fn law_field_header_bytes(a: FieldHeader, b: FieldHeader)
    requires
        a.wire() == b.wire(),
    ensures
        a == b,
{
    a.lemma_wire_parts();
    b.lemma_wire_parts();
    le::lemma_le_limits();
    le::lemma_le_bytes_injective(a.magic as nat, b.magic as nat, 8);
    le::lemma_le_bytes_injective(a.version as nat, b.version as nat, 2);
    le::lemma_le_bytes_injective(a.flags as nat, b.flags as nat, 2);
    assert(seq![a.data_type][0] == seq![b.data_type][0]);
    assert(seq![a.encoding][0] == seq![b.encoding][0]);
    assert(seq![a.compression][0] == seq![b.compression][0]);
    assert(seq![a.reserved0][0] == seq![b.reserved0][0]);
    le::lemma_le_bytes_injective(a.generation as nat, b.generation as nat, 8);
    le::lemma_le_bytes_injective(a.row_count as nat, b.row_count as nat, 4);
    le::lemma_le_bytes_injective(a.null_count as nat, b.null_count as nat, 4);
    le::lemma_le_bytes_injective(a.reserved1 as nat, b.reserved1 as nat, 4);
    le::lemma_le_bytes_injective(a.reserved2 as nat, b.reserved2 as nat, 4);
    le::lemma_le_bytes_injective(a.data_length as nat, b.data_length as nat, 8);
    le::lemma_le_bytes_injective(a.validity_offset as nat, b.validity_offset as nat, 8);
    le::lemma_le_bytes_injective(a.reserved3 as nat, b.reserved3 as nat, 8);
}

/// Any 64 bytes spell a field header.
pub proof fn law_field_header_of_bytes(bytes: Seq<u8>) -> (h: FieldHeader)
    requires
        bytes.len() == 64,
    ensures
        h.wire() == bytes,
{
    let h = FieldHeader {
        magic: le::le_value(bytes.subrange(0, 8)) as u64,
        version: le::le_value(bytes.subrange(8, 10)) as u16,
        flags: le::le_value(bytes.subrange(10, 12)) as u16,
        data_type: bytes[12],
        encoding: bytes[13],
        compression: bytes[14],
        reserved0: bytes[15],
        generation: le::le_value(bytes.subrange(16, 24)) as u64,
        row_count: le::le_value(bytes.subrange(24, 28)) as u32,
        null_count: le::le_value(bytes.subrange(28, 32)) as u32,
        reserved1: le::le_value(bytes.subrange(32, 36)) as u32,
        reserved2: le::le_value(bytes.subrange(36, 40)) as u32,
        data_length: le::le_value(bytes.subrange(40, 48)) as u64,
        validity_offset: le::le_value(bytes.subrange(48, 56)) as u64,
        reserved3: le::le_value(bytes.subrange(56, 64)) as u64,
    };
    h.lemma_wire_parts();
    le::lemma_le_limits();
    assert(h.wire().take(0) =~= bytes.take(0));
    le::lemma_le_bytes_of_value(bytes.subrange(0, 8));
    le::lemma_extend_equal(h.wire(), bytes, 0, 8);
    le::lemma_le_bytes_of_value(bytes.subrange(8, 10));
    le::lemma_extend_equal(h.wire(), bytes, 8, 10);
    le::lemma_le_bytes_of_value(bytes.subrange(10, 12));
    le::lemma_extend_equal(h.wire(), bytes, 10, 12);
    assert(bytes.subrange(12, 13) =~= seq![h.data_type]);
    le::lemma_extend_equal(h.wire(), bytes, 12, 13);
    assert(bytes.subrange(13, 14) =~= seq![h.encoding]);
    le::lemma_extend_equal(h.wire(), bytes, 13, 14);
    assert(bytes.subrange(14, 15) =~= seq![h.compression]);
    le::lemma_extend_equal(h.wire(), bytes, 14, 15);
    assert(bytes.subrange(15, 16) =~= seq![h.reserved0]);
    le::lemma_extend_equal(h.wire(), bytes, 15, 16);
    le::lemma_le_bytes_of_value(bytes.subrange(16, 24));
    le::lemma_extend_equal(h.wire(), bytes, 16, 24);
    le::lemma_le_bytes_of_value(bytes.subrange(24, 28));
    le::lemma_extend_equal(h.wire(), bytes, 24, 28);
    le::lemma_le_bytes_of_value(bytes.subrange(28, 32));
    le::lemma_extend_equal(h.wire(), bytes, 28, 32);
    le::lemma_le_bytes_of_value(bytes.subrange(32, 36));
    le::lemma_extend_equal(h.wire(), bytes, 32, 36);
    le::lemma_le_bytes_of_value(bytes.subrange(36, 40));
    le::lemma_extend_equal(h.wire(), bytes, 36, 40);
    le::lemma_le_bytes_of_value(bytes.subrange(40, 48));
    le::lemma_extend_equal(h.wire(), bytes, 40, 48);
    le::lemma_le_bytes_of_value(bytes.subrange(48, 56));
    le::lemma_extend_equal(h.wire(), bytes, 48, 56);
    le::lemma_le_bytes_of_value(bytes.subrange(56, 64));
    le::lemma_extend_equal(h.wire(), bytes, 56, 64);
    assert(h.wire().take(64) =~= h.wire());
    assert(bytes.take(64) =~= bytes);
    h
}

/// Reading back the bytes of a header that nothing is wrong with gives it again;
/// and a header made for plain values is such a one.
pub proof fn law_field_header_roundtrip(h: FieldHeader)
    ensures
        h.wire().take(64) == h.wire(),
        forall|t: DataType, g: u64, rows: u32, nulls: u32, v: bool|
            (#[trigger] FieldHeader::uncompressed(t, g, rows, nulls, v)).fault() is None,
{
    h.lemma_wire_parts();
    assert(h.wire().take(64) =~= h.wire());
}

/// Where the numbers of a header stand in its 64 bytes, each from its least byte on.
pub proof fn law_field_header_places(h: FieldHeader)
    ensures
        le::le_value(h.wire().subrange(0, 8)) == h.magic,
        le::le_value(h.wire().subrange(8, 10)) == h.version,
        le::le_value(h.wire().subrange(10, 12)) == h.flags,
        h.wire()[12] == h.data_type,
        h.wire()[13] == h.encoding,
        h.wire()[14] == h.compression,
        h.wire()[15] == h.reserved0,
        le::le_value(h.wire().subrange(16, 24)) == h.generation,
        le::le_value(h.wire().subrange(24, 28)) == h.row_count,
        le::le_value(h.wire().subrange(28, 32)) == h.null_count,
        le::le_value(h.wire().subrange(32, 36)) == h.reserved1,
        le::le_value(h.wire().subrange(36, 40)) == h.reserved2,
        le::le_value(h.wire().subrange(40, 48)) == h.data_length,
        le::le_value(h.wire().subrange(48, 56)) == h.validity_offset,
        le::le_value(h.wire().subrange(56, 64)) == h.reserved3,
        h.wire().len() == 64,
{
    h.lemma_wire_parts();
    le::lemma_le_limits();
    le::lemma_le_value_of_bytes(h.magic as nat, 8);
    le::lemma_le_value_of_bytes(h.version as nat, 2);
    le::lemma_le_value_of_bytes(h.flags as nat, 2);
    assert(h.wire().subrange(12, 13)[0] == h.data_type);
    assert(h.wire().subrange(13, 14)[0] == h.encoding);
    assert(h.wire().subrange(14, 15)[0] == h.compression);
    assert(h.wire().subrange(15, 16)[0] == h.reserved0);
    le::lemma_le_value_of_bytes(h.generation as nat, 8);
    le::lemma_le_value_of_bytes(h.row_count as nat, 4);
    le::lemma_le_value_of_bytes(h.null_count as nat, 4);
    le::lemma_le_value_of_bytes(h.reserved1 as nat, 4);
    le::lemma_le_value_of_bytes(h.reserved2 as nat, 4);
    le::lemma_le_value_of_bytes(h.data_length as nat, 8);
    le::lemma_le_value_of_bytes(h.validity_offset as nat, 8);
    le::lemma_le_value_of_bytes(h.reserved3 as nat, 8);
}

/// A header is sound exactly where it starts with the format's name, has its version, and
/// has a type, an encoding and a compression that are known; of several faults the first is
/// named.
pub proof fn law_field_header_sound(h: FieldHeader)
    ensures
        h.fault() is None <==> h.magic == FIELD_MAGIC && h.version == FORMAT_VERSION && h.data_type
            < 15 && h.encoding < 4 && h.compression < 3,
        h.magic != FIELD_MAGIC ==> (h.fault() matches Some(FormatError::BadMagic { expected, found })
            && expected == FIELD_MAGIC && found == h.magic),
        h.magic == FIELD_MAGIC && h.version != FORMAT_VERSION ==> (h.fault() matches Some(
            FormatError::BadVersion { expected, found },
        ) && expected == FORMAT_VERSION && found == h.version),
        h.magic == FIELD_MAGIC && h.version == FORMAT_VERSION && h.data_type >= 15 ==> h.fault()
            == Some(FormatError::UnknownDataType(h.data_type)),
        h.magic == FIELD_MAGIC && h.version == FORMAT_VERSION && h.data_type < 15 && h.encoding >= 4
            ==> h.fault() == Some(FormatError::UnknownEncoding(h.encoding)),
        h.magic == FIELD_MAGIC && h.version == FORMAT_VERSION && h.data_type < 15 && h.encoding < 4
            && h.compression >= 3 ==> h.fault() == Some(
            FormatError::UnknownCompression(h.compression),
        ),
{
}

/// A new field that is not compressed has as many bytes of values as its rows take, and the
/// marks of missing values, where it has any, stand right behind them.
pub proof fn law_field_layout(t: DataType, generation: u64, rows: u32, nulls: u32, marked: bool)
    ensures
        ({
            let h = FieldHeader::uncompressed(t, generation, rows, nulls, marked);
            &&& h.data_length == rows * t.width()
            &&& h.spec_has_validity() == marked
            &&& marked ==> h.validity_offset == 64 + h.data_length
            &&& !marked ==> h.validity_offset == 0
            &&& h.row_count == rows && h.null_count == nulls && h.generation == generation
            &&& DataType::with_id(h.data_type) == Some(t)
            &&& Encoding::with_id(h.encoding) == Some(Encoding::Plain)
            &&& Compression::with_id(h.compression) == Some(Compression::Uncompressed)
            &&& h.magic == FIELD_MAGIC && h.version == FORMAT_VERSION
            &&& h.reserved0 == 0 && h.reserved1 == 0 && h.reserved2 == 0 && h.reserved3 == 0
        }),
{
    assert(1u16 & 1u16 != 0 && 0u16 & 1u16 == 0) by (bit_vector);
    let w = t.width();
    assert(0 <= rows * w <= 0xFFFF_FFFF * 8) by (nonlinear_arith)
        requires
            0 <= rows <= 0xFFFF_FFFF,
            0 <= w <= 8,
    ;
}

} // verus!

//! Header and index of a meta file.

use vstd::prelude::*;
use crate::error::FormatError;
use crate::le;
use crate::types::TimeType;
use crate::{FORMAT_VERSION, HEADER_SIZE, META_MAGIC};

verus! {

pub const META_HEADER_SIZE: usize = HEADER_SIZE;

pub const SYM_INDEX_RECORD_SIZE: usize = 12;

/// The fixed 64 bytes at the start of a meta file.
#[derive(Debug, Clone, Copy, PartialEq, Eq)]
pub struct MetaHeader {
    pub magic: u64,
    pub version: u16,
    pub flags: u16,
    pub time_type: u8,
    pub reserved0: [u8; 3],
    pub generation: u64,
    pub time_count: u32,
    pub sym_count: u32,
    pub row_count: u32,
    pub reserved1: u32,
    pub sym_dict_offset: u64,
    pub sym_index_offset: u64,
    pub file_size: u64,
}

impl MetaHeader {
    /// The 64 bytes on disk.
    pub open spec fn wire(self) -> Seq<u8> {
        le::le_bytes(self.magic as nat, 8) + le::le_bytes(self.version as nat, 2)
            + le::le_bytes(self.flags as nat, 2) + seq![self.time_type] + self.reserved0@
            + le::le_bytes(self.generation as nat, 8) + le::le_bytes(self.time_count as nat, 4)
            + le::le_bytes(self.sym_count as nat, 4) + le::le_bytes(self.row_count as nat, 4)
            + le::le_bytes(self.reserved1 as nat, 4)
            + le::le_bytes(self.sym_dict_offset as nat, 8)
            + le::le_bytes(self.sym_index_offset as nat, 8)
            + le::le_bytes(self.file_size as nat, 8)
    }

    /// The header takes 64 bytes, and each field has its place in them.
    pub proof fn lemma_wire_parts(self)
        ensures
            self.wire().len() == 64,
            self.wire().subrange(0, 8) == le::le_bytes(self.magic as nat, 8),
            self.wire().subrange(8, 10) == le::le_bytes(self.version as nat, 2),
            self.wire().subrange(10, 12) == le::le_bytes(self.flags as nat, 2),
            self.wire().subrange(12, 13) == seq![self.time_type],
            self.wire().subrange(13, 16) == self.reserved0@,
            self.wire().subrange(16, 24) == le::le_bytes(self.generation as nat, 8),
            self.wire().subrange(24, 28) == le::le_bytes(self.time_count as nat, 4),
            self.wire().subrange(28, 32) == le::le_bytes(self.sym_count as nat, 4),
            self.wire().subrange(32, 36) == le::le_bytes(self.row_count as nat, 4),
            self.wire().subrange(36, 40) == le::le_bytes(self.reserved1 as nat, 4),
            self.wire().subrange(40, 48) == le::le_bytes(self.sym_dict_offset as nat, 8),
            self.wire().subrange(48, 56) == le::le_bytes(self.sym_index_offset as nat, 8),
            self.wire().subrange(56, 64) == le::le_bytes(self.file_size as nat, 8),
    {
        broadcast use le::lemma_le_bytes_len;

        let wire = self.wire();
        assert(wire.subrange(0, 8) =~= le::le_bytes(self.magic as nat, 8));
        assert(wire.subrange(8, 10) =~= le::le_bytes(self.version as nat, 2));
        assert(wire.subrange(10, 12) =~= le::le_bytes(self.flags as nat, 2));
        assert(wire.subrange(12, 13) =~= seq![self.time_type]);
        assert(wire.subrange(13, 16) =~= self.reserved0@);
        assert(wire.subrange(16, 24) =~= le::le_bytes(self.generation as nat, 8));
        assert(wire.subrange(24, 28) =~= le::le_bytes(self.time_count as nat, 4));
        assert(wire.subrange(28, 32) =~= le::le_bytes(self.sym_count as nat, 4));
        assert(wire.subrange(32, 36) =~= le::le_bytes(self.row_count as nat, 4));
        assert(wire.subrange(36, 40) =~= le::le_bytes(self.reserved1 as nat, 4));
        assert(wire.subrange(40, 48) =~= le::le_bytes(self.sym_dict_offset as nat, 8));
        assert(wire.subrange(48, 56) =~= le::le_bytes(self.sym_index_offset as nat, 8));
        assert(wire.subrange(56, 64) =~= le::le_bytes(self.file_size as nat, 8));
    }

    fn encode(&self) -> (out: Vec<u8>)
        ensures
            out@ == self.wire(),
    {
        let mut out: Vec<u8> = Vec::new();
        le::put_u64(&mut out, self.magic);
        le::put_u16(&mut out, self.version);
        le::put_u16(&mut out, self.flags);
        out.push(self.time_type);
        out.extend_from_slice(self.reserved0.as_slice());
        le::put_u64(&mut out, self.generation);
        le::put_u32(&mut out, self.time_count);
        le::put_u32(&mut out, self.sym_count);
        le::put_u32(&mut out, self.row_count);
        le::put_u32(&mut out, self.reserved1);
        le::put_u64(&mut out, self.sym_dict_offset);
        le::put_u64(&mut out, self.sym_index_offset);
        le::put_u64(&mut out, self.file_size);
        assert(out@ =~= self.wire());
        out
    }

    fn decode(bytes: &[u8]) -> (h: Self)
        requires
            bytes@.len() >= 64,
        ensures
            h.wire() == bytes@.take(64),
    {
        assert(bytes@.len() == bytes.len());
        let h = MetaHeader {
            magic: le::get_u64(bytes, 0),
            version: le::get_u16(bytes, 8),
            flags: le::get_u16(bytes, 10),
            time_type: bytes[12],
            reserved0: [bytes[13], bytes[14], bytes[15]],
            generation: le::get_u64(bytes, 16),
            time_count: le::get_u32(bytes, 24),
            sym_count: le::get_u32(bytes, 28),
            row_count: le::get_u32(bytes, 32),
            reserved1: le::get_u32(bytes, 36),
            sym_dict_offset: le::get_u64(bytes, 40),
            sym_index_offset: le::get_u64(bytes, 48),
            file_size: le::get_u64(bytes, 56),
        };
        proof {
            h.lemma_wire_parts();
            assert(h.wire().take(0) =~= bytes@.take(0));
            le::lemma_le_bytes_of_value(bytes@.subrange(0, 8));
            le::lemma_extend_equal(h.wire(), bytes@, 0, 8);
            le::lemma_le_bytes_of_value(bytes@.subrange(8, 10));
            le::lemma_extend_equal(h.wire(), bytes@, 8, 10);
            le::lemma_le_bytes_of_value(bytes@.subrange(10, 12));
            le::lemma_extend_equal(h.wire(), bytes@, 10, 12);
            assert(bytes@.subrange(12, 13) =~= seq![h.time_type]);
            le::lemma_extend_equal(h.wire(), bytes@, 12, 13);
            assert(bytes@.subrange(13, 16) =~= h.reserved0@);
            le::lemma_extend_equal(h.wire(), bytes@, 13, 16);
            le::lemma_le_bytes_of_value(bytes@.subrange(16, 24));
            le::lemma_extend_equal(h.wire(), bytes@, 16, 24);
            le::lemma_le_bytes_of_value(bytes@.subrange(24, 28));
            le::lemma_extend_equal(h.wire(), bytes@, 24, 28);
            le::lemma_le_bytes_of_value(bytes@.subrange(28, 32));
            le::lemma_extend_equal(h.wire(), bytes@, 28, 32);
            le::lemma_le_bytes_of_value(bytes@.subrange(32, 36));
            le::lemma_extend_equal(h.wire(), bytes@, 32, 36);
            le::lemma_le_bytes_of_value(bytes@.subrange(36, 40));
            le::lemma_extend_equal(h.wire(), bytes@, 36, 40);
            le::lemma_le_bytes_of_value(bytes@.subrange(40, 48));
            le::lemma_extend_equal(h.wire(), bytes@, 40, 48);
            le::lemma_le_bytes_of_value(bytes@.subrange(48, 56));
            le::lemma_extend_equal(h.wire(), bytes@, 48, 56);
            le::lemma_le_bytes_of_value(bytes@.subrange(56, 64));
            le::lemma_extend_equal(h.wire(), bytes@, 56, 64);
            assert(h.wire().take(64) =~= h.wire());
        }
        h
    }

    /// The header of a new file.
    #[allow(clippy::too_many_arguments)]
    pub fn new(
        time_type: TimeType,
        generation: u64,
        time_count: u32,
        sym_count: u32,
        row_count: u32,
        sym_dict_offset: u64,
        sym_index_offset: u64,
        file_size: u64,
    ) -> (h: Self)
        ensures
            h == (MetaHeader {
                magic: META_MAGIC,
                version: FORMAT_VERSION,
                flags: 0,
                time_type: time_type.spec_id(),
                reserved0: h.reserved0,
                generation,
                time_count,
                sym_count,
                row_count,
                reserved1: 0,
                sym_dict_offset,
                sym_index_offset,
                file_size,
            }),
            h.reserved0@ == seq![0u8, 0u8, 0u8],
    {
        let reserved0: [u8; 3] = [0, 0, 0];
        assert(reserved0@ =~= seq![0u8, 0u8, 0u8]);
        MetaHeader {
            magic: META_MAGIC,
            version: FORMAT_VERSION,
            flags: 0,
            time_type: time_type.id(),
            reserved0,
            generation,
            time_count,
            sym_count,
            row_count,
            reserved1: 0,
            sym_dict_offset,
            sym_index_offset,
            file_size,
        }
    }

    pub fn to_bytes(&self) -> (bytes: [u8; 64])
        ensures
            bytes@ == self.wire(),
    {
        let out = self.encode();
        proof {
            self.lemma_wire_parts();
        }
        le::array_64(&out)
    }

    /// What is wrong with the header, if anything: the first of its magic, its
    /// version and its time type.
    pub open spec fn fault(self) -> Option<FormatError> {
        if self.magic != META_MAGIC {
            Some(FormatError::BadMagic { expected: META_MAGIC, found: self.magic })
        } else if self.version != FORMAT_VERSION {
            Some(FormatError::BadVersion { expected: FORMAT_VERSION, found: self.version })
        } else if TimeType::with_id(self.time_type) is None {
            Some(FormatError::UnknownTimeType(self.time_type))
        } else {
            None
        }
    }

    /// The header that the first 64 bytes spell, if nothing is wrong with it.
    pub fn from_bytes(bytes: &[u8]) -> (r: Result<Self, FormatError>)
        ensures
            bytes@.len() < 64 ==> r == Err::<MetaHeader, FormatError>(
                FormatError::SizeMismatch { expected: 64, found: bytes@.len() as usize },
            ),
            forall|h: MetaHeader|
                bytes@.len() >= 64 && #[trigger] h.wire() == bytes@.take(64) ==> r
                    == match h.fault() {
                    Some(e) => Err::<MetaHeader, FormatError>(e),
                    None => Ok(h),
                },
    {
        if bytes.len() < META_HEADER_SIZE {
            return Err(
                FormatError::SizeMismatch { expected: META_HEADER_SIZE, found: bytes.len() },
            );
        }
        let header = MetaHeader::decode(bytes);
        proof {
            assert forall|h: MetaHeader| #[trigger] h.wire() == bytes@.take(64) implies h
                == header by {
                law_meta_header_bytes(h, header);
            }
        }
        match header.validate() {
            Ok(_) => Ok(header),
            Err(e) => Err(e),
        }
    }

    pub fn validate(&self) -> (r: Result<(), FormatError>)
        ensures
            r == match self.fault() {
                Some(e) => Err::<(), FormatError>(e),
                None => Ok(()),
            },
    {
        if self.magic != META_MAGIC {
            return Err(FormatError::BadMagic { expected: META_MAGIC, found: self.magic });
        }
        if self.version != FORMAT_VERSION {
            return Err(FormatError::BadVersion { expected: FORMAT_VERSION, found: self.version });
        }
        if let Err(e) = TimeType::from_id(self.time_type) {
            return Err(e);
        }
        Ok(())
    }

    pub fn time_type(&self) -> (r: Result<TimeType, FormatError>)
        ensures
            r == match TimeType::with_id(self.time_type) {
                Some(t) => Ok::<TimeType, FormatError>(t),
                None => Err(FormatError::UnknownTimeType(self.time_type)),
            },
    {
        TimeType::from_id(self.time_type)
    }

    /// Bytes per time value; 0 where the time type is not known.
    pub fn time_type_size(&self) -> (size: usize)
        ensures
            size == match TimeType::with_id(self.time_type) {
                Some(t) => t.width(),
                None => 0,
            },
    {
        match self.time_type() {
            Ok(t) => t.size_of(),
            Err(_) => 0,
        }
    }
}

/// Two meta headers with the same bytes are the same.
pub proof fn law_meta_header_bytes(a: MetaHeader, b: MetaHeader)
    requires
        a.wire() == b.wire(),
    ensures
        a == b,
{
    a.lemma_wire_parts();
    b.lemma_wire_parts();
    le::lemma_le_limits();
    le::lemma_le_bytes_injective(a.magic as nat, b.magic as nat, 8);
    le::lemma_le_bytes_injective(a.version as nat, b.version as nat, 2);
    le::lemma_le_bytes_injective(a.flags as nat, b.flags as nat, 2);
    assert(seq![a.time_type][0] == seq![b.time_type][0]);
    assert(a.reserved0 =~= b.reserved0) by {
        assert forall|i: int| 0 <= i < 3 implies a.reserved0[i] == b.reserved0[i] by {
            assert(a.reserved0@[i] == b.reserved0@[i]);
        }
    }
    le::lemma_le_bytes_injective(a.generation as nat, b.generation as nat, 8);
    le::lemma_le_bytes_injective(a.time_count as nat, b.time_count as nat, 4);
    le::lemma_le_bytes_injective(a.sym_count as nat, b.sym_count as nat, 4);
    le::lemma_le_bytes_injective(a.row_count as nat, b.row_count as nat, 4);
    le::lemma_le_bytes_injective(a.reserved1 as nat, b.reserved1 as nat, 4);
    le::lemma_le_bytes_injective(a.sym_dict_offset as nat, b.sym_dict_offset as nat, 8);
    le::lemma_le_bytes_injective(a.sym_index_offset as nat, b.sym_index_offset as nat, 8);
    le::lemma_le_bytes_injective(a.file_size as nat, b.file_size as nat, 8);
}

/// Any 64 bytes spell a meta header.
pub proof fn law_meta_header_of_bytes(bytes: Seq<u8>) -> (h: MetaHeader)
    requires
        bytes.len() == 64,
    ensures
        h.wire() == bytes,
{
    let h = MetaHeader {
        magic: le::le_value(bytes.subrange(0, 8)) as u64,
        version: le::le_value(bytes.subrange(8, 10)) as u16,
        flags: le::le_value(bytes.subrange(10, 12)) as u16,
        time_type: bytes[12],
        reserved0: [bytes[13], bytes[14], bytes[15]],
        generation: le::le_value(bytes.subrange(16, 24)) as u64,
        time_count: le::le_value(bytes.subrange(24, 28)) as u32,
        sym_count: le::le_value(bytes.subrange(28, 32)) as u32,
        row_count: le::le_value(bytes.subrange(32, 36)) as u32,
        reserved1: le::le_value(bytes.subrange(36, 40)) as u32,
        sym_dict_offset: le::le_value(bytes.subrange(40, 48)) as u64,
        sym_index_offset: le::le_value(bytes.subrange(48, 56)) as u64,
        file_size: le::le_value(bytes.subrange(56, 64)) as u64,
    };
    h.lemma_wire_parts();
    le::lemma_le_limits();
    assert(h.wire().take(0) =~= bytes.take(0));
    le::lemma_le_bytes_of_value(bytes.subrange(0, 8));
    le::lemma_extend_equal(h.wire(), bytes, 0, 8);
    le::lemma_le_bytes_of_value(bytes.subrange(8, 10));
    le::lemma_extend_equal(h.wire(), bytes, 8, 10);
    le::lemma_le_bytes_of_value(bytes.subrange(10, 12));
    le::lemma_extend_equal(h.wire(), bytes, 10, 12);
    assert(bytes.subrange(12, 13) =~= seq![h.time_type]);
    le::lemma_extend_equal(h.wire(), bytes, 12, 13);
    assert(bytes.subrange(13, 16) =~= h.reserved0@);
    le::lemma_extend_equal(h.wire(), bytes, 13, 16);
    le::lemma_le_bytes_of_value(bytes.subrange(16, 24));
    le::lemma_extend_equal(h.wire(), bytes, 16, 24);
    le::lemma_le_bytes_of_value(bytes.subrange(24, 28));
    le::lemma_extend_equal(h.wire(), bytes, 24, 28);
    le::lemma_le_bytes_of_value(bytes.subrange(28, 32));
    le::lemma_extend_equal(h.wire(), bytes, 28, 32);
    le::lemma_le_bytes_of_value(bytes.subrange(32, 36));
    le::lemma_extend_equal(h.wire(), bytes, 32, 36);
    le::lemma_le_bytes_of_value(bytes.subrange(36, 40));
    le::lemma_extend_equal(h.wire(), bytes, 36, 40);
    le::lemma_le_bytes_of_value(bytes.subrange(40, 48));
    le::lemma_extend_equal(h.wire(), bytes, 40, 48);
    le::lemma_le_bytes_of_value(bytes.subrange(48, 56));
    le::lemma_extend_equal(h.wire(), bytes, 48, 56);
    le::lemma_le_bytes_of_value(bytes.subrange(56, 64));
    le::lemma_extend_equal(h.wire(), bytes, 56, 64);
    assert(h.wire().take(64) =~= h.wire());
    assert(bytes.take(64) =~= bytes);
    h
}

/// Where a symbol's rows lie: the run of the time axis that it covers, and the row
/// that the first of those times has.
#[derive(Debug, Clone, Copy, PartialEq, Eq, Structural)]
pub struct SymIndexRecord {
    pub time_start: u32,
    pub time_count: u32,
    pub row_start: u32,
}

impl SymIndexRecord {
    pub const SIZE: usize = SYM_INDEX_RECORD_SIZE;

    /// The 12 bytes on disk.
    pub open spec fn wire(self) -> Seq<u8> {
        le::le_bytes(self.time_start as nat, 4) + le::le_bytes(self.time_count as nat, 4)
            + le::le_bytes(self.row_start as nat, 4)
    }

    /// The record takes 12 bytes, and each field has its place in them.
    pub proof fn lemma_wire_parts(self)
        ensures
            self.wire().len() == 12,
            self.wire().subrange(0, 4) == le::le_bytes(self.time_start as nat, 4),
            self.wire().subrange(4, 8) == le::le_bytes(self.time_count as nat, 4),
            self.wire().subrange(8, 12) == le::le_bytes(self.row_start as nat, 4),
    {
        broadcast use le::lemma_le_bytes_len;

        let wire = self.wire();
        assert(wire.subrange(0, 4) =~= le::le_bytes(self.time_start as nat, 4));
        assert(wire.subrange(4, 8) =~= le::le_bytes(self.time_count as nat, 4));
        assert(wire.subrange(8, 12) =~= le::le_bytes(self.row_start as nat, 4));
    }

    fn encode(&self) -> (out: Vec<u8>)
        ensures
            out@ == self.wire(),
    {
        let mut out: Vec<u8> = Vec::new();
        le::put_u32(&mut out, self.time_start);
        le::put_u32(&mut out, self.time_count);
        le::put_u32(&mut out, self.row_start);
        assert(out@ =~= self.wire());
        out
    }

    fn decode(bytes: &[u8]) -> (h: Self)
        requires
            bytes@.len() >= 12,
        ensures
            h.wire() == bytes@.take(12),
    {
        assert(bytes@.len() == bytes.len());
        let h = SymIndexRecord {
            time_start: le::get_u32(bytes, 0),
            time_count: le::get_u32(bytes, 4),
            row_start: le::get_u32(bytes, 8),
        };
        proof {
            h.lemma_wire_parts();
            assert(h.wire().take(0) =~= bytes@.take(0));
            le::lemma_le_bytes_of_value(bytes@.subrange(0, 4));
            le::lemma_extend_equal(h.wire(), bytes@, 0, 4);
            le::lemma_le_bytes_of_value(bytes@.subrange(4, 8));
            le::lemma_extend_equal(h.wire(), bytes@, 4, 8);
            le::lemma_le_bytes_of_value(bytes@.subrange(8, 12));
            le::lemma_extend_equal(h.wire(), bytes@, 8, 12);
            assert(h.wire().take(12) =~= h.wire());
        }
        h
    }

    pub fn to_bytes(&self) -> (bytes: [u8; 12])
        ensures
            bytes@ == self.wire(),
    {
        let out = self.encode();
        proof {
            self.lemma_wire_parts();
        }
        let bytes: [u8; 12] = [
            out[0],
            out[1],
            out[2],
            out[3],
            out[4],
            out[5],
            out[6],
            out[7],
            out[8],
            out[9],
            out[10],
            out[11],
        ];
        assert(bytes@ =~= out@);
        bytes
    }

    /// The record that 12 bytes spell.
    pub fn from_bytes(bytes: &[u8]) -> (r: Result<Self, FormatError>)
        requires
            bytes@.len() <= 12,
        ensures
            bytes@.len() < 12 ==> r == Err::<SymIndexRecord, FormatError>(
                FormatError::SizeMismatch { expected: 12, found: bytes@.len() as usize },
            ),
            bytes@.len() == 12 ==> (r matches Ok(record) && record.wire() == bytes@),
    {
        if bytes.len() < SYM_INDEX_RECORD_SIZE {
            return Err(
                FormatError::SizeMismatch { expected: SYM_INDEX_RECORD_SIZE, found: bytes.len() },
            );
        }
        let record = SymIndexRecord::decode(bytes);
        assert(bytes@.take(12) =~= bytes@);
        Ok(record)
    }

    /// The record at byte `at`.
    pub fn read_at(bytes: &[u8], at: usize) -> (record: Self)
        requires
            at + 12 <= bytes@.len(),
        ensures
            record.wire() == bytes@.subrange(at as int, at + 12),
    {
        assert(bytes@.len() == bytes.len());
        let part = vstd::slice::slice_subrange(bytes, at, at + 12);
        let record = SymIndexRecord::decode(part);
        assert(part@.take(12) =~= bytes@.subrange(at as int, at + 12));
        record
    }

    /// The symbol's rows: the first, and the one behind the last.
    pub fn row_range(&self) -> (range: (u32, u32))
        requires
            self.row_start + self.time_count <= u32::MAX,
        ensures
            range.0 == self.row_start,
            range.1 == self.row_start + self.time_count,
    {
        (self.row_start, self.row_start + self.time_count)
    }

    /// The run of the time axis holds that index.
    pub open spec fn covers(self, time_index: int) -> bool {
        self.time_start <= time_index < self.time_start + self.time_count
    }

    pub fn contains_time(&self, time_index: u32) -> (yes: bool)
        requires
            self.time_start + self.time_count <= u32::MAX,
        ensures
            yes == self.covers(time_index as int),
    {
        time_index >= self.time_start && time_index < self.time_start + self.time_count
    }

    /// The row of a time, where the symbol covers it.
    pub fn global_row(&self, time_index: u32) -> (r: Option<u32>)
        requires
            self.time_start + self.time_count <= u32::MAX,
            self.covers(time_index as int) ==> self.row_start + (time_index - self.time_start)
                <= u32::MAX,
        ensures
            r == if self.covers(time_index as int) {
                Some((self.row_start + (time_index - self.time_start)) as u32)
            } else {
                None
            },
    {
        if self.contains_time(time_index) {
            Some(self.row_start + (time_index - self.time_start))
        } else {
            None
        }
    }
}

/// A symbol's times and rows stand one for one, in order: each covered time has a row
/// of the symbol's range, and later times have later rows.
pub proof fn law_rows_follow_times(record: SymIndexRecord, t: int, u: int)
    requires
        record.covers(t),
        record.covers(u),
    ensures
        record.row_start <= record.row_start + (t - record.time_start) < record.row_start
            + record.time_count,
        t < u <==> record.row_start + (t - record.time_start) < record.row_start + (u
            - record.time_start),
{
}

/// Two index records with the same bytes are the same.
pub proof fn law_index_record_bytes(a: SymIndexRecord, b: SymIndexRecord)
    requires
        a.wire() == b.wire(),
    ensures
        a == b,
{
    a.lemma_wire_parts();
    b.lemma_wire_parts();
    le::lemma_le_limits();
    le::lemma_le_bytes_injective(a.time_start as nat, b.time_start as nat, 4);
    le::lemma_le_bytes_injective(a.time_count as nat, b.time_count as nat, 4);
    le::lemma_le_bytes_injective(a.row_start as nat, b.row_start as nat, 4);
}

/// Any 12 bytes spell a index record.
pub proof fn law_index_record_of_bytes(bytes: Seq<u8>) -> (h: SymIndexRecord)
    requires
        bytes.len() == 12,
    ensures
        h.wire() == bytes,
{
    let h = SymIndexRecord {
        time_start: le::le_value(bytes.subrange(0, 4)) as u32,
        time_count: le::le_value(bytes.subrange(4, 8)) as u32,
        row_start: le::le_value(bytes.subrange(8, 12)) as u32,
    };
    h.lemma_wire_parts();
    le::lemma_le_limits();
    assert(h.wire().take(0) =~= bytes.take(0));
    le::lemma_le_bytes_of_value(bytes.subrange(0, 4));
    le::lemma_extend_equal(h.wire(), bytes, 0, 4);
    le::lemma_le_bytes_of_value(bytes.subrange(4, 8));
    le::lemma_extend_equal(h.wire(), bytes, 4, 8);
    le::lemma_le_bytes_of_value(bytes.subrange(8, 12));
    le::lemma_extend_equal(h.wire(), bytes, 8, 12);
    assert(h.wire().take(12) =~= h.wire());
    assert(bytes.take(12) =~= bytes);
    h
}

/// Reading back the bytes of a header gives it again.
pub proof fn law_meta_header_roundtrip(h: MetaHeader)
    ensures
        h.wire().take(64) == h.wire(),
{
    h.lemma_wire_parts();
    assert(h.wire().take(64) =~= h.wire());
}

/// Where the numbers of a header stand in its 64 bytes, each from its least byte on.
pub proof fn law_meta_header_places(h: MetaHeader)
    ensures
        le::le_value(h.wire().subrange(0, 8)) == h.magic,
        le::le_value(h.wire().subrange(8, 10)) == h.version,
        le::le_value(h.wire().subrange(10, 12)) == h.flags,
        h.wire()[12] == h.time_type,
        h.wire().subrange(13, 16) == h.reserved0@,
        le::le_value(h.wire().subrange(16, 24)) == h.generation,
        le::le_value(h.wire().subrange(24, 28)) == h.time_count,
        le::le_value(h.wire().subrange(28, 32)) == h.sym_count,
        le::le_value(h.wire().subrange(32, 36)) == h.row_count,
        le::le_value(h.wire().subrange(36, 40)) == h.reserved1,
        le::le_value(h.wire().subrange(40, 48)) == h.sym_dict_offset,
        le::le_value(h.wire().subrange(48, 56)) == h.sym_index_offset,
        le::le_value(h.wire().subrange(56, 64)) == h.file_size,
        h.wire().len() == 64,
{
    h.lemma_wire_parts();
    le::lemma_le_limits();
    le::lemma_le_value_of_bytes(h.magic as nat, 8);
    le::lemma_le_value_of_bytes(h.version as nat, 2);
    le::lemma_le_value_of_bytes(h.flags as nat, 2);
    assert(h.wire().subrange(12, 13)[0] == h.time_type);
    le::lemma_le_value_of_bytes(h.generation as nat, 8);
    le::lemma_le_value_of_bytes(h.time_count as nat, 4);
    le::lemma_le_value_of_bytes(h.sym_count as nat, 4);
    le::lemma_le_value_of_bytes(h.row_count as nat, 4);
    le::lemma_le_value_of_bytes(h.reserved1 as nat, 4);
    le::lemma_le_value_of_bytes(h.sym_dict_offset as nat, 8);
    le::lemma_le_value_of_bytes(h.sym_index_offset as nat, 8);
    le::lemma_le_value_of_bytes(h.file_size as nat, 8);
}

/// A header is sound exactly where it starts with the format's name, has its version, and
/// has a time type that is known; of several faults the first is named.
pub proof fn law_meta_header_sound(h: MetaHeader)
    ensures
        h.fault() is None <==> h.magic == META_MAGIC && h.version == FORMAT_VERSION && (h.time_type
            == 0 || h.time_type == 1),
        h.magic != META_MAGIC ==> (h.fault() matches Some(FormatError::BadMagic { expected, found })
            && expected == META_MAGIC && found == h.magic),
        h.magic == META_MAGIC && h.version != FORMAT_VERSION ==> (h.fault() matches Some(
            FormatError::BadVersion { expected, found },
        ) && expected == FORMAT_VERSION && found == h.version),
{
}

/// A record covers as many times as it counts, from its first on, and its bytes are its three
/// numbers of four bytes each.
pub proof fn law_record_covers(r: SymIndexRecord, i: int)
    ensures
        r.covers(r.time_start + i) <==> 0 <= i < r.time_count,
        le::le_value(r.wire().subrange(0, 4)) == r.time_start,
        le::le_value(r.wire().subrange(4, 8)) == r.time_count,
        le::le_value(r.wire().subrange(8, 12)) == r.row_start,
        r.wire().len() == 12,
{
    broadcast use le::lemma_le_bytes_len;

    le::lemma_le_limits();
    le::lemma_le_value_of_bytes(r.time_start as nat, 4);
    le::lemma_le_value_of_bytes(r.time_count as nat, 4);
    le::lemma_le_value_of_bytes(r.row_start as nat, 4);
    assert(r.wire().subrange(0, 4) =~= le::le_bytes(r.time_start as nat, 4));
    assert(r.wire().subrange(4, 8) =~= le::le_bytes(r.time_count as nat, 4));
    assert(r.wire().subrange(8, 12) =~= le::le_bytes(r.row_start as nat, 4));
}

} // verus!

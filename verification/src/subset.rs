//! Subset files: for some symbols of a dataset, the runs of its time axis that
//! belong to the subset.
//!
//! A file holds a header, the symbols as a table of offsets and their bytes, and for
//! each symbol the count of its runs and the runs.

use vstd::prelude::*;
use vstd::slice::slice_subrange;
use vstd::string::*;
use vstd::utf8;
use crate::buffer;
use crate::frame;
use crate::header::{TimeType, HEADER_SIZE};
use crate::le;
use crate::meta::SymIndexRecord;
use crate::text;

verus! {

/// First eight bytes of a subset file: `SPLAYSUB`.
pub const SUBSET_MAGIC: u64 = 0x4255_5359_414C_5053;

/// How the names of subset files begin.
pub const SUBSET_PREFIX: &'static str = ".sub.";

/// Version of the header.
pub const SUBSET_VERSION: u16 = 1;

/// The fixed 64 bytes at the start of a subset file.
#[derive(Debug, Clone, Copy)]
pub struct SubsetHeader {
    pub magic: u64,
    pub version: u16,
    pub flags: u16,
    pub time_type: u8,
    pub reserved: [u8; 3],
    pub generation: u64,
    pub parent_generation: u64,
    pub sym_count: u32,
    pub range_count: u32,
    pub total_rows: u32,
    pub _pad: [u8; 20],
}

impl SubsetHeader {
    /// The 64 bytes on disk.
    pub open spec fn wire(self) -> Seq<u8> {
        le::le_bytes(self.magic as nat, 8) + le::le_bytes(self.version as nat, 2)
            + le::le_bytes(self.flags as nat, 2) + seq![self.time_type] + self.reserved@
            + le::le_bytes(self.generation as nat, 8)
            + le::le_bytes(self.parent_generation as nat, 8)
            + le::le_bytes(self.sym_count as nat, 4) + le::le_bytes(self.range_count as nat, 4)
            + le::le_bytes(self.total_rows as nat, 4) + self._pad@
    }

    /// The header takes 64 bytes, and each field has its place in them.
    pub proof fn lemma_wire_parts(self)
        ensures
            self.wire().len() == 64,
            self.wire().subrange(0, 8) == le::le_bytes(self.magic as nat, 8),
            self.wire().subrange(8, 10) == le::le_bytes(self.version as nat, 2),
            self.wire().subrange(10, 12) == le::le_bytes(self.flags as nat, 2),
            self.wire().subrange(12, 13) == seq![self.time_type],
            self.wire().subrange(13, 16) == self.reserved@,
            self.wire().subrange(16, 24) == le::le_bytes(self.generation as nat, 8),
            self.wire().subrange(24, 32) == le::le_bytes(self.parent_generation as nat, 8),
            self.wire().subrange(32, 36) == le::le_bytes(self.sym_count as nat, 4),
            self.wire().subrange(36, 40) == le::le_bytes(self.range_count as nat, 4),
            self.wire().subrange(40, 44) == le::le_bytes(self.total_rows as nat, 4),
            self.wire().subrange(44, 64) == self._pad@,
    {
        broadcast use le::lemma_le_bytes_len;

        let wire = self.wire();
        assert(wire.subrange(0, 8) =~= le::le_bytes(self.magic as nat, 8));
        assert(wire.subrange(8, 10) =~= le::le_bytes(self.version as nat, 2));
        assert(wire.subrange(10, 12) =~= le::le_bytes(self.flags as nat, 2));
        assert(wire.subrange(12, 13) =~= seq![self.time_type]);
        assert(wire.subrange(13, 16) =~= self.reserved@);
        assert(wire.subrange(16, 24) =~= le::le_bytes(self.generation as nat, 8));
        assert(wire.subrange(24, 32) =~= le::le_bytes(self.parent_generation as nat, 8));
        assert(wire.subrange(32, 36) =~= le::le_bytes(self.sym_count as nat, 4));
        assert(wire.subrange(36, 40) =~= le::le_bytes(self.range_count as nat, 4));
        assert(wire.subrange(40, 44) =~= le::le_bytes(self.total_rows as nat, 4));
        assert(wire.subrange(44, 64) =~= self._pad@);
    }

    fn encode(&self) -> (out: Vec<u8>)
        ensures
            out@ == self.wire(),
    {
        let mut out: Vec<u8> = Vec::new();
        le::put_u64(&mut out, self.magic);
        le::put_u16(&mut out, self.version);
        le::put_u16(&mut out, self.flags);
        out.push(self.time_type);
        out.extend_from_slice(self.reserved.as_slice());
        le::put_u64(&mut out, self.generation);
        le::put_u64(&mut out, self.parent_generation);
        le::put_u32(&mut out, self.sym_count);
        le::put_u32(&mut out, self.range_count);
        le::put_u32(&mut out, self.total_rows);
        out.extend_from_slice(self._pad.as_slice());
        assert(out@ =~= self.wire());
        out
    }

    fn decode(bytes: &[u8]) -> (h: Self)
        requires
            bytes@.len() >= 64,
        ensures
            h.wire() == bytes@.take(64),
    {
        assert(bytes@.len() == bytes.len());
        let h = SubsetHeader {
            magic: le::get_u64(bytes, 0),
            version: le::get_u16(bytes, 8),
            flags: le::get_u16(bytes, 10),
            time_type: bytes[12],
            reserved: [bytes[13], bytes[14], bytes[15]],
            generation: le::get_u64(bytes, 16),
            parent_generation: le::get_u64(bytes, 24),
            sym_count: le::get_u32(bytes, 32),
            range_count: le::get_u32(bytes, 36),
            total_rows: le::get_u32(bytes, 40),
            _pad: [
                bytes[44],
                bytes[45],
                bytes[46],
                bytes[47],
                bytes[48],
                bytes[49],
                bytes[50],
                bytes[51],
                bytes[52],
                bytes[53],
                bytes[54],
                bytes[55],
                bytes[56],
                bytes[57],
                bytes[58],
                bytes[59],
                bytes[60],
                bytes[61],
                bytes[62],
                bytes[63],
            ],
        };
        proof {
            h.lemma_wire_parts();
            assert(h.wire().take(0) =~= bytes@.take(0));
            le::lemma_le_bytes_of_value(bytes@.subrange(0, 8));
            le::lemma_extend_equal(h.wire(), bytes@, 0, 8);
            le::lemma_le_bytes_of_value(bytes@.subrange(8, 10));
            le::lemma_extend_equal(h.wire(), bytes@, 8, 10);
            le::lemma_le_bytes_of_value(bytes@.subrange(10, 12));
            le::lemma_extend_equal(h.wire(), bytes@, 10, 12);
            assert(bytes@.subrange(12, 13) =~= seq![h.time_type]);
            le::lemma_extend_equal(h.wire(), bytes@, 12, 13);
            assert(bytes@.subrange(13, 16) =~= h.reserved@);
            le::lemma_extend_equal(h.wire(), bytes@, 13, 16);
            le::lemma_le_bytes_of_value(bytes@.subrange(16, 24));
            le::lemma_extend_equal(h.wire(), bytes@, 16, 24);
            le::lemma_le_bytes_of_value(bytes@.subrange(24, 32));
            le::lemma_extend_equal(h.wire(), bytes@, 24, 32);
            le::lemma_le_bytes_of_value(bytes@.subrange(32, 36));
            le::lemma_extend_equal(h.wire(), bytes@, 32, 36);
            le::lemma_le_bytes_of_value(bytes@.subrange(36, 40));
            le::lemma_extend_equal(h.wire(), bytes@, 36, 40);
            le::lemma_le_bytes_of_value(bytes@.subrange(40, 44));
            le::lemma_extend_equal(h.wire(), bytes@, 40, 44);
            assert(bytes@.subrange(44, 64) =~= h._pad@);
            le::lemma_extend_equal(h.wire(), bytes@, 44, 64);
            assert(h.wire().take(64) =~= h.wire());
        }
        h
    }

    pub fn new(
        time_type: TimeType,
        generation: u64,
        parent_generation: u64,
        sym_count: u32,
        range_count: u32,
        total_rows: u32,
    ) -> (h: Self)
        ensures
            h == (SubsetHeader {
                magic: SUBSET_MAGIC,
                version: SUBSET_VERSION,
                flags: 0,
                time_type: time_type.spec_id(),
                reserved: h.reserved,
                generation,
                parent_generation,
                sym_count,
                range_count,
                total_rows,
                _pad: h._pad,
            }),
            forall|i: int| 0 <= i < 3 ==> h.reserved@[i] == 0,
            forall|i: int| 0 <= i < 20 ==> h._pad@[i] == 0,
            h.fault() is None,
    {
        SubsetHeader {
            magic: SUBSET_MAGIC,
            version: SUBSET_VERSION,
            flags: 0,
            time_type: time_type.id(),
            reserved: [0; 3],
            generation,
            parent_generation,
            sym_count,
            range_count,
            total_rows,
            _pad: [0; 20],
        }
    }

    /// What is wrong with magic, version or time type: the first of them.
    pub open spec fn fault(self) -> Option<SubsetFault> {
        if self.magic != SUBSET_MAGIC {
            Some(SubsetFault::Magic)
        } else if self.version != SUBSET_VERSION {
            Some(SubsetFault::Version)
        } else if TimeType::with_id(self.time_type) is None {
            Some(SubsetFault::TimeType)
        } else {
            None
        }
    }

    /// Checks magic and version.
    pub fn validate(&self) -> (r: Result<(), &'static str>)
        ensures
            match self.fault() {
                Some(SubsetFault::Magic) => r matches Err(e) && e@ == "invalid SUBSET magic"@,
                Some(SubsetFault::Version) => r matches Err(e) && e@
                    == "unsupported SUBSET version"@,
                _ => r is Ok,
            },
    {
        if self.magic != SUBSET_MAGIC {
            return Err("invalid SUBSET magic");
        }
        if self.version != SUBSET_VERSION {
            return Err("unsupported SUBSET version");
        }
        Ok(())
    }

    pub fn time_type(&self) -> (r: Result<TimeType, &'static str>)
        ensures
            match TimeType::with_id(self.time_type) {
                Some(t) => r matches Ok(u) && u == t,
                None => r matches Err(e) && e@ == "invalid SUBSET time_type"@,
            },
    {
        match TimeType::from_id(self.time_type) {
            Some(t) => Ok(t),
            None => Err("invalid SUBSET time_type"),
        }
    }
}

/// Two subset headers with the same bytes are the same.
pub proof fn law_subset_header_bytes(a: SubsetHeader, b: SubsetHeader)
    requires
        a.wire() == b.wire(),
    ensures
        a == b,
{
    a.lemma_wire_parts();
    b.lemma_wire_parts();
    le::lemma_le_limits();
    le::lemma_le_bytes_injective(a.magic as nat, b.magic as nat, 8);
    le::lemma_le_bytes_injective(a.version as nat, b.version as nat, 2);
    le::lemma_le_bytes_injective(a.flags as nat, b.flags as nat, 2);
    assert(seq![a.time_type][0] == seq![b.time_type][0]);
    assert(a.reserved =~= b.reserved) by {
        assert forall|i: int| 0 <= i < 3 implies a.reserved[i] == b.reserved[i] by {
            assert(a.reserved@[i] == b.reserved@[i]);
        }
    }
    le::lemma_le_bytes_injective(a.generation as nat, b.generation as nat, 8);
    le::lemma_le_bytes_injective(a.parent_generation as nat, b.parent_generation as nat, 8);
    le::lemma_le_bytes_injective(a.sym_count as nat, b.sym_count as nat, 4);
    le::lemma_le_bytes_injective(a.range_count as nat, b.range_count as nat, 4);
    le::lemma_le_bytes_injective(a.total_rows as nat, b.total_rows as nat, 4);
    assert(a._pad =~= b._pad) by {
        assert forall|i: int| 0 <= i < 20 implies a._pad[i] == b._pad[i] by {
            assert(a._pad@[i] == b._pad@[i]);
        }
    }
}

/// Any 64 bytes spell a subset header.
pub proof fn law_subset_header_of_bytes(bytes: Seq<u8>) -> (h: SubsetHeader)
    requires
        bytes.len() == 64,
    ensures
        h.wire() == bytes,
{
    let h = SubsetHeader {
        magic: le::le_value(bytes.subrange(0, 8)) as u64,
        version: le::le_value(bytes.subrange(8, 10)) as u16,
        flags: le::le_value(bytes.subrange(10, 12)) as u16,
        time_type: bytes[12],
        reserved: [bytes[13], bytes[14], bytes[15]],
        generation: le::le_value(bytes.subrange(16, 24)) as u64,
        parent_generation: le::le_value(bytes.subrange(24, 32)) as u64,
        sym_count: le::le_value(bytes.subrange(32, 36)) as u32,
        range_count: le::le_value(bytes.subrange(36, 40)) as u32,
        total_rows: le::le_value(bytes.subrange(40, 44)) as u32,
        _pad: [
            bytes[44],
            bytes[45],
            bytes[46],
            bytes[47],
            bytes[48],
            bytes[49],
            bytes[50],
            bytes[51],
            bytes[52],
            bytes[53],
            bytes[54],
            bytes[55],
            bytes[56],
            bytes[57],
            bytes[58],
            bytes[59],
            bytes[60],
            bytes[61],
            bytes[62],
            bytes[63],
        ],
    };
    h.lemma_wire_parts();
    le::lemma_le_limits();
    assert(h.wire().take(0) =~= bytes.take(0));
    le::lemma_le_bytes_of_value(bytes.subrange(0, 8));
    le::lemma_extend_equal(h.wire(), bytes, 0, 8);
    le::lemma_le_bytes_of_value(bytes.subrange(8, 10));
    le::lemma_extend_equal(h.wire(), bytes, 8, 10);
    le::lemma_le_bytes_of_value(bytes.subrange(10, 12));
    le::lemma_extend_equal(h.wire(), bytes, 10, 12);
    assert(bytes.subrange(12, 13) =~= seq![h.time_type]);
    le::lemma_extend_equal(h.wire(), bytes, 12, 13);
    assert(bytes.subrange(13, 16) =~= h.reserved@);
    le::lemma_extend_equal(h.wire(), bytes, 13, 16);
    le::lemma_le_bytes_of_value(bytes.subrange(16, 24));
    le::lemma_extend_equal(h.wire(), bytes, 16, 24);
    le::lemma_le_bytes_of_value(bytes.subrange(24, 32));
    le::lemma_extend_equal(h.wire(), bytes, 24, 32);
    le::lemma_le_bytes_of_value(bytes.subrange(32, 36));
    le::lemma_extend_equal(h.wire(), bytes, 32, 36);
    le::lemma_le_bytes_of_value(bytes.subrange(36, 40));
    le::lemma_extend_equal(h.wire(), bytes, 36, 40);
    le::lemma_le_bytes_of_value(bytes.subrange(40, 44));
    le::lemma_extend_equal(h.wire(), bytes, 40, 44);
    assert(bytes.subrange(44, 64) =~= h._pad@);
    le::lemma_extend_equal(h.wire(), bytes, 44, 64);
    assert(h.wire().take(64) =~= h.wire());
    assert(bytes.take(64) =~= bytes);
    h
}

/// What can be wrong with the bytes of a subset file.
#[derive(Debug, Clone, Copy, PartialEq, Eq, Structural)]
pub enum SubsetFault {
    TooShort,
    Magic,
    Version,
    TimeType,
    Truncated,
    Utf8,
    RangeCount,
    TotalRows,
}

/// What can be wrong with a subset.
#[derive(Debug)]
pub enum SubsetError {
    TooShort,
    Truncated,
    Header(&'static str),
    Utf8(std::str::Utf8Error),
    /// It has no runs.
    Empty,
    /// One of its runs has no rows.
    EmptyRange,
}

impl SubsetError {
    /// The error that reports a fault.
    pub open spec fn reports(self, fault: SubsetFault) -> bool {
        match fault {
            SubsetFault::TooShort => self is TooShort,
            SubsetFault::Truncated => self is Truncated,
            SubsetFault::Utf8 => self is Utf8,
            SubsetFault::Magic => self matches SubsetError::Header(m) && m@
                == "invalid SUBSET magic"@,
            SubsetFault::Version => self matches SubsetError::Header(m) && m@
                == "unsupported SUBSET version"@,
            SubsetFault::TimeType => self matches SubsetError::Header(m) && m@
                == "invalid SUBSET time_type"@,
            SubsetFault::RangeCount => self matches SubsetError::Header(m) && m@
                == "range_count mismatch"@,
            SubsetFault::TotalRows => self matches SubsetError::Header(m) && m@
                == "total_rows mismatch"@,
        }
    }

    /// What is said of the error.  Of bytes that are no text, only how it begins.
    pub fn to_text(&self) -> (text: String)
        ensures
            match *self {
                SubsetError::TooShort => text@ == "subset file too short for header"@,
                SubsetError::Truncated => text@ == "subset file truncated"@,
                SubsetError::Header(m) => text@ == "subset header invalid: "@ + m@,
                SubsetError::Utf8(_) => "subset symbol utf8 error: "@.is_prefix_of(text@),
                SubsetError::Empty => text@ == "subset has no ranges"@,
                SubsetError::EmptyRange => text@ == "subset contains an empty range"@,
            },
    {
        let mut text = String::new();
        match self {
            SubsetError::TooShort => text.append("subset file too short for header"),
            SubsetError::Truncated => text.append("subset file truncated"),
            SubsetError::Header(m) => {
                text.append("subset header invalid: ");
                text.append(m);
            },
            SubsetError::Utf8(e) => {
                text.append("subset symbol utf8 error: ");
                let reason = text::utf8_reason(e);
                text.append(reason.as_str());
            },
            SubsetError::Empty => text.append("subset has no ranges"),
            SubsetError::EmptyRange => text.append("subset contains an empty range"),
        }
        text
    }
}

/// A subset: its header, its symbols in order, and the runs of each.
#[derive(Debug)]
pub struct SubsetFile {
    pub header: SubsetHeader,
    pub symbols: Vec<String>,
    pub sym_ranges: Vec<Vec<SymIndexRecord>>,
}

impl Clone for SubsetFile {
    fn clone(&self) -> (copy: Self)
        ensures
            copy.header == self.header,
            text::texts(copy.symbols@) == text::texts(self.symbols@),
            copy.sym_ranges@.len() == self.sym_ranges@.len(),
            forall|k: int|
                0 <= k < self.sym_ranges@.len() ==> (#[trigger] copy.sym_ranges@[k])@
                    == self.sym_ranges@[k]@,
    {
        let symbols = text::copy_texts(self.symbols.as_slice());
        let mut sym_ranges: Vec<Vec<SymIndexRecord>> = Vec::new();
        let mut g: usize = 0;
        while g < self.sym_ranges.len()
            invariant
                g <= self.sym_ranges@.len(),
                sym_ranges@.len() == g,
                forall|i: int|
                    0 <= i < g ==> (#[trigger] sym_ranges@[i])@ == self.sym_ranges@[i]@,
            decreases self.sym_ranges.len() - g,
        {
            let runs: Vec<SymIndexRecord> = self.sym_ranges[g].clone();
            assert(runs@ =~= self.sym_ranges@[g as int]@);
            sym_ranges.push(runs);
            g += 1;
        }
        SubsetFile { header: self.header, symbols, sym_ranges }
    }
}

/// The bytes of symbols.
pub open spec fn symbol_bytes(symbols: Seq<String>) -> Seq<Seq<u8>> {
    Seq::new(symbols.len(), |i: int| utf8::encode_utf8(symbols[i]@))
}

/// Records one after the other.
pub open spec fn records(runs: Seq<SymIndexRecord>) -> Seq<u8>
    decreases runs.len(),
{
    if runs.len() == 0 {
        Seq::empty()
    } else {
        records(runs.drop_last()) + runs.last().wire()
    }
}

/// The runs of one symbol: their count, and they themselves.
pub open spec fn run_block(runs: Seq<SymIndexRecord>) -> Seq<u8> {
    le::le_bytes((runs.len() as u32) as nat, 4) + records(runs)
}

/// The runs of all symbols.
pub open spec fn run_index(runs: Seq<Vec<SymIndexRecord>>) -> Seq<u8>
    decreases runs.len(),
{
    if runs.len() == 0 {
        Seq::empty()
    } else {
        run_index(runs.drop_last()) + run_block(runs.last()@)
    }
}

/// Rows of runs.
pub open spec fn run_rows(runs: Seq<SymIndexRecord>) -> nat
    decreases runs.len(),
{
    if runs.len() == 0 {
        0
    } else {
        run_rows(runs.drop_last()) + runs.last().time_count as nat
    }
}

/// Runs of all symbols.
pub open spec fn all_runs(runs: Seq<Vec<SymIndexRecord>>) -> nat
    decreases runs.len(),
{
    if runs.len() == 0 {
        0
    } else {
        all_runs(runs.drop_last()) + runs.last()@.len()
    }
}

/// Rows of all symbols.
pub open spec fn all_rows(runs: Seq<Vec<SymIndexRecord>>) -> nat
    decreases runs.len(),
{
    if runs.len() == 0 {
        0
    } else {
        all_rows(runs.drop_last()) + run_rows(runs.last()@)
    }
}

proof fn lemma_records_len(runs: Seq<SymIndexRecord>)
    ensures
        records(runs).len() == 12 * runs.len(),
    decreases runs.len(),
{
    if runs.len() > 0 {
        lemma_records_len(runs.drop_last());
        runs.last().lemma_wire_parts();
    }
}

/// Record `j` is found at its place.
proof fn lemma_record_at(runs: Seq<SymIndexRecord>, j: int)
    requires
        0 <= j < runs.len(),
    ensures
        records(runs).subrange(12 * j, 12 * j + 12) == runs[j].wire(),
        records(runs).len() == 12 * runs.len(),
    decreases runs.len(),
{
    let front = runs.drop_last();
    lemma_records_len(front);
    lemma_records_len(runs);
    runs.last().lemma_wire_parts();
    if j < front.len() {
        lemma_record_at(front, j);
        assert(records(runs).subrange(12 * j, 12 * j + 12) =~= records(front).subrange(
            12 * j,
            12 * j + 12,
        ));
    } else {
        assert(records(runs).subrange(12 * j, 12 * j + 12) =~= runs[j].wire());
    }
}

/// The block of symbol `k` is found behind those before it.
proof fn lemma_block_at(runs: Seq<Vec<SymIndexRecord>>, k: int)
    requires
        0 <= k < runs.len(),
    ensures
        run_index(runs.take(k + 1)).len() == run_index(runs.take(k)).len() + run_block(
            runs[k]@,
        ).len(),
        run_index(runs.take(k + 1)).len() <= run_index(runs).len(),
        run_index(runs).subrange(
            run_index(runs.take(k)).len() as int,
            run_index(runs.take(k + 1)).len() as int,
        ) == run_block(runs[k]@),
    decreases runs.len(),
{
    let front = runs.drop_last();
    assert(runs.take(runs.len() - 1) =~= front);
    assert(runs.take(runs.len() as int) =~= runs);
    if k < front.len() {
        lemma_block_at(front, k);
        assert(front.take(k) =~= runs.take(k));
        assert(front.take(k + 1) =~= runs.take(k + 1));
        let (a, b) = (
            run_index(runs.take(k)).len() as int,
            run_index(runs.take(k + 1)).len() as int,
        );
        assert(run_index(runs).subrange(a, b) =~= run_index(front).subrange(a, b));
    } else {
        let (a, b) = (run_index(front).len() as int, run_index(runs).len() as int);
        assert(run_index(runs).subrange(a, b) =~= run_block(runs[k]@));
    }
}

/// Where the offset table ends: right behind its `n + 1` entries.
pub open spec fn table_end(n: int) -> int {
    72 + 8 * n
}

/// Entry `k` of the offset table.
pub open spec fn start_at(buf: Seq<u8>, k: int) -> nat {
    le::le_value(buf.subrange(64 + 8 * k, 72 + 8 * k))
}

/// The bytes of symbol `k` lie in the file.
pub open spec fn symbol_fits(buf: Seq<u8>, n: int, k: int) -> bool {
    start_at(buf, k) <= start_at(buf, k + 1) && table_end(n) + start_at(buf, k + 1) <= buf.len()
}

/// The bytes of symbol `k`.
pub open spec fn symbol_at(buf: Seq<u8>, n: int, k: int) -> Seq<u8> {
    buf.subrange(table_end(n) + start_at(buf, k), table_end(n) + start_at(buf, k + 1))
}

/// How many runs the block at `p` announces.
pub open spec fn block_count(buf: Seq<u8>, p: int) -> nat {
    le::le_value(buf.subrange(p, p + 4))
}

/// Where the block at `p` ends.
pub open spec fn block_end(buf: Seq<u8>, p: int) -> int {
    p + 4 + 12 * block_count(buf, p)
}

/// Where the block of symbol `k` begins.
pub open spec fn block_at(buf: Seq<u8>, n: int, k: int) -> int
    decreases k,
{
    if k <= 0 {
        table_end(n) + start_at(buf, n)
    } else {
        block_end(buf, block_at(buf, n, k - 1))
    }
}

/// The block at `p` lies in the file.
pub open spec fn block_fits(buf: Seq<u8>, p: int) -> bool {
    p + 4 <= buf.len() && block_end(buf, p) <= buf.len()
}

/// Rows of the first `j` runs of the block at `p`.
pub open spec fn block_rows(buf: Seq<u8>, p: int, j: int) -> nat
    decreases j,
{
    if j <= 0 {
        0
    } else {
        block_rows(buf, p, j - 1) + le::le_value(
            buf.subrange(p + 4 + 12 * (j - 1) + 4, p + 4 + 12 * (j - 1) + 8),
        )
    }
}

/// Runs of the first `k` blocks.
pub open spec fn runs_up_to(buf: Seq<u8>, n: int, k: int) -> nat
    decreases k,
{
    if k <= 0 {
        0
    } else {
        runs_up_to(buf, n, k - 1) + block_count(buf, block_at(buf, n, k - 1))
    }
}

/// Rows of the first `k` blocks.
pub open spec fn rows_up_to(buf: Seq<u8>, n: int, k: int) -> nat
    decreases k,
{
    if k <= 0 {
        0
    } else {
        rows_up_to(buf, n, k - 1) + block_rows(
            buf,
            block_at(buf, n, k - 1),
            block_count(buf, block_at(buf, n, k - 1)) as int,
        )
    }
}

/// What is wrong with the symbols from `k` on: with the first that is.
pub open spec fn symbols_fault(buf: Seq<u8>, n: int, k: int) -> Option<SubsetFault>
    decreases n - k,
{
    if k >= n {
        None
    } else if !symbol_fits(buf, n, k) {
        Some(SubsetFault::Truncated)
    } else if !utf8::valid_utf8(symbol_at(buf, n, k)) {
        Some(SubsetFault::Utf8)
    } else {
        symbols_fault(buf, n, k + 1)
    }
}

/// Some block from `k` on does not lie in the file.
pub open spec fn blocks_fault(buf: Seq<u8>, n: int, k: int) -> Option<SubsetFault>
    decreases n - k,
{
    if k >= n {
        None
    } else if !block_fits(buf, block_at(buf, n, k)) {
        Some(SubsetFault::Truncated)
    } else {
        blocks_fault(buf, n, k + 1)
    }
}

/// What is wrong with the bytes of a subset file, given the header that they spell:
/// the first thing, in reading order.
pub open spec fn file_fault(buf: Seq<u8>, h: SubsetHeader) -> Option<SubsetFault> {
    let n = h.sym_count as int;
    if h.fault() is Some {
        h.fault()
    } else if buf.len() < table_end(n) {
        Some(SubsetFault::Truncated)
    } else if symbols_fault(buf, n, 0) is Some {
        symbols_fault(buf, n, 0)
    } else if blocks_fault(buf, n, 0) is Some {
        Some(SubsetFault::Truncated)
    } else if h.range_count != runs_up_to(buf, n, n) {
        Some(SubsetFault::RangeCount)
    } else if h.total_rows != rows_up_to(buf, n, n) {
        Some(SubsetFault::TotalRows)
    } else {
        None
    }
}

impl SubsetFile {
    /// The bytes of the file.
    pub open spec fn wire(self) -> Seq<u8> {
        self.header.wire() + buffer::words_bytes(buffer::starts(symbol_bytes(self.symbols@))) + buffer::concat(
            symbol_bytes(self.symbols@),
        ) + run_index(self.sym_ranges@)
    }

    /// The bytes spell the file.
    pub open spec fn spelled_by(self, buf: Seq<u8>) -> bool {
        let n = self.header.sym_count as int;
        &&& self.header.wire() == buf.take(64)
        &&& self.symbols@.len() == n
        &&& self.sym_ranges@.len() == n
        &&& forall|k: int|
            0 <= k < n ==> utf8::encode_utf8((#[trigger] self.symbols@[k])@) == symbol_at(buf, n, k)
        &&& forall|k: int|
            0 <= k < n ==> (#[trigger] self.sym_ranges@[k])@.len() == block_count(
                buf,
                block_at(buf, n, k),
            )
        &&& forall|k: int, j: int|
            0 <= k < n && 0 <= j < self.sym_ranges@[k]@.len() ==> (
            #[trigger] self.sym_ranges@[k]@[j]).wire() == buf.subrange(
                block_at(buf, n, k) + 4 + 12 * j,
                block_at(buf, n, k) + 16 + 12 * j,
            )
    }

    /// The header says of the file what it holds, and its counts fit their fields.
    pub open spec fn consistent(self) -> bool {
        &&& self.header.fault() is None
        &&& self.header.sym_count == self.symbols@.len()
        &&& self.symbols@.len() == self.sym_ranges@.len()
        &&& buffer::concat(symbol_bytes(self.symbols@)).len() <= u64::MAX
        &&& forall|k: int|
            0 <= k < self.sym_ranges@.len() ==> (#[trigger] self.sym_ranges@[k])@.len() <= u32::MAX
        &&& self.header.range_count == all_runs(self.sym_ranges@)
        &&& self.header.total_rows == all_rows(self.sym_ranges@)
    }

    pub fn time_type(&self) -> (t: TimeType)
        requires
            TimeType::with_id(self.header.time_type) is Some,
        ensures
            TimeType::with_id(self.header.time_type) == Some(t),
    {
        match self.header.time_type() {
            Ok(t) => t,
            Err(_) => TimeType::Date32,
        }
    }

    /// Rows of the subset.
    pub fn total_rows(&self) -> (rows: u32)
        ensures
            rows == self.header.total_rows,
    {
        self.header.total_rows
    }

    pub fn sym_count(&self) -> (count: usize)
        ensures
            count == self.symbols@.len(),
    {
        self.symbols.len()
    }

    /// The symbols stand in order, none twice.
    pub open spec fn sorted(symbols: Seq<String>) -> bool {
        forall|i: int, j: int|
            0 <= i < j < symbols.len() ==> text::text_before(
                (#[trigger] symbols[i])@,
                (#[trigger] symbols[j])@,
            )
    }

    /// Tells whether the symbols stand in order, none twice, so that they can be searched.
    pub fn is_sorted(&self) -> (yes: bool)
        ensures
            yes == SubsetFile::sorted(self.symbols@),
    {
        let mut k: usize = 1;
        while k < self.symbols.len()
            invariant
                1 <= k,
                k <= self.symbols@.len() || self.symbols@.len() == 0,
                forall|i: int, j: int|
                    0 <= i < j < k && j < self.symbols@.len() ==> text::text_before(
                        (#[trigger] self.symbols@[i])@,
                        (#[trigger] self.symbols@[j])@,
                    ),
            decreases self.symbols.len() - k,
        {
            match text::relate(self.symbols[k - 1].as_str(), self.symbols[k].as_str()) {
                text::Relation::Before => {},
                _ => {
                    proof {
                        text::lemma_text_before_order(
                            self.symbols@[k - 1]@,
                            self.symbols@[k as int]@,
                        );
                    }
                    return false;
                },
            }
            proof {
                assert forall|i: int, j: int| 0 <= i < j < k + 1 implies text::text_before(
                    (#[trigger] self.symbols@[i])@,
                    (#[trigger] self.symbols@[j])@,
                ) by {
                    if j == k && i < k - 1 {
                        text::lemma_text_before_transitive(
                            self.symbols@[i]@,
                            self.symbols@[k - 1]@,
                            self.symbols@[k as int]@,
                        );
                    }
                }
            }
            k += 1;
        }
        true
    }

    /// Where a symbol stands, by halving.
    pub fn find_symbol(&self, sym: &str) -> (r: Option<usize>)
        requires
            SubsetFile::sorted(self.symbols@),
        ensures
            match r {
                Some(i) => i < self.symbols@.len() && self.symbols@[i as int]@ == sym@,
                None => forall|i: int|
                    0 <= i < self.symbols@.len() ==> (#[trigger] self.symbols@[i])@ != sym@,
            },
    {
        let mut lo: usize = 0;
        let mut hi: usize = self.symbols.len();
        while lo < hi
            invariant
                lo <= hi <= self.symbols@.len(),
                SubsetFile::sorted(self.symbols@),
                forall|i: int|
                    0 <= i < lo ==> text::text_before((#[trigger] self.symbols@[i])@, sym@),
                forall|i: int|
                    hi <= i < self.symbols@.len() ==> text::text_before(
                        sym@,
                        (#[trigger] self.symbols@[i])@,
                    ),
            decreases hi - lo,
        {
            let mid: usize = lo + (hi - lo) / 2;
            match text::relate(self.symbols[mid].as_str(), sym) {
                text::Relation::Same => {
                    return Some(mid);
                },
                text::Relation::Before => {
                    proof {
                        assert forall|i: int| 0 <= i < mid + 1 implies text::text_before(
                            (#[trigger] self.symbols@[i])@,
                            sym@,
                        ) by {
                            if i < mid {
                                text::lemma_text_before_transitive(
                                    self.symbols@[i]@,
                                    self.symbols@[mid as int]@,
                                    sym@,
                                );
                            }
                        }
                    }
                    lo = mid + 1;
                },
                text::Relation::After => {
                    proof {
                        assert forall|i: int| mid <= i < self.symbols@.len() implies text::text_before(
                            sym@,
                            (#[trigger] self.symbols@[i])@,
                        ) by {
                            if i > mid {
                                text::lemma_text_before_transitive(
                                    sym@,
                                    self.symbols@[mid as int]@,
                                    self.symbols@[i]@,
                                );
                            }
                        }
                    }
                    hi = mid;
                },
            }
        }
        proof {
            assert forall|i: int| 0 <= i < self.symbols@.len() implies (
            #[trigger] self.symbols@[i])@ != sym@ by {
                text::lemma_text_before_order(self.symbols@[i]@, sym@);
            }
        }
        None
    }

    /// The runs of a symbol.
    pub fn ranges(&self, sym: &str) -> (r: Option<&[SymIndexRecord]>)
        requires
            SubsetFile::sorted(self.symbols@),
            self.sym_ranges@.len() == self.symbols@.len(),
        ensures
            match r {
                Some(runs) => exists|i: int|
                    0 <= i < self.symbols@.len() && (#[trigger] self.symbols@[i])@ == sym@ && runs@
                        == self.sym_ranges@[i]@,
                None => forall|i: int|
                    0 <= i < self.symbols@.len() ==> (#[trigger] self.symbols@[i])@ != sym@,
            },
    {
        match self.find_symbol(sym) {
            Some(i) => Some(self.sym_ranges[i].as_slice()),
            None => None,
        }
    }

    /// The bytes of the file.
    pub fn serialize(&self) -> (buf: Vec<u8>)
        requires
            self.wire().len() <= usize::MAX,
        ensures
            buf@ == self.wire(),
    {
        let ghost parts = symbol_bytes(self.symbols@);
        let ghost table = buffer::starts(parts);
        let mut buf = self.header.encode();
        let mut start: u64 = 0;
        let mut k: usize = 0;
        proof {
            assert(table.take(0).len() == 0);
            assert(parts.take(0).len() == 0);
            assert(buf@ + buffer::words_bytes(table.take(0)) =~= buf@);
        }
        while k < self.symbols.len()
            invariant
                k <= self.symbols@.len(),
                parts == symbol_bytes(self.symbols@),
                table == buffer::starts(parts),
                self.wire().len() <= usize::MAX,
                start == buffer::concat(parts.take(k as int)).len(),
                buf@ == self.header.wire() + buffer::words_bytes(table.take(k as int)),
            decreases self.symbols.len() - k,
        {
            proof {
                buffer::lemma_concat_part(parts, k as int);
                assert(table.take(k + 1).drop_last() =~= table.take(k as int));
                assert(table[k as int] == start);
            }
            le::put_u64(&mut buf, start);
            let bytes = self.symbols[k].as_str().as_bytes();
            start = start + bytes.len() as u64;
            assert(buf@ =~= self.header.wire() + buffer::words_bytes(table.take(k + 1)));
            k += 1;
        }
        proof {
            assert(table.take(k + 1).drop_last() =~= table.take(k as int));
            assert(table.take(k + 1) =~= table);
            assert(table[k as int] == start);
        }
        le::put_u64(&mut buf, start);
        let ghost head = self.header.wire() + buffer::words_bytes(table);
        assert(buf@ =~= head);
        let mut k: usize = 0;
        assert(parts.take(0).len() == 0);
        while k < self.symbols.len()
            invariant
                k <= self.symbols@.len(),
                parts == symbol_bytes(self.symbols@),
                buf@ == head + buffer::concat(parts.take(k as int)),
            decreases self.symbols.len() - k,
        {
            proof {
                assert(parts.take(k + 1).drop_last() =~= parts.take(k as int));
            }
            buf.extend_from_slice(self.symbols[k].as_str().as_bytes());
            assert(buf@ =~= head + buffer::concat(parts.take(k + 1)));
            k += 1;
        }
        assert(parts.take(k as int) =~= parts);
        let ghost head = head + buffer::concat(parts);
        let mut k: usize = 0;
        assert(self.sym_ranges@.take(0).len() == 0);
        while k < self.sym_ranges.len()
            invariant
                k <= self.sym_ranges@.len(),
                buf@ == head + run_index(self.sym_ranges@.take(k as int)),
            decreases self.sym_ranges.len() - k,
        {
            let ghost before = buf@;
            put_block(&mut buf, &self.sym_ranges[k]);
            proof {
                assert(self.sym_ranges@.take(k + 1).drop_last() =~= self.sym_ranges@.take(
                    k as int,
                ));
                assert(buf@ =~= head + run_index(self.sym_ranges@.take(k + 1)));
            }
            k += 1;
        }
        assert(self.sym_ranges@.take(k as int) =~= self.sym_ranges@);
        buf
    }
}

/// Appends the runs of one symbol.
fn put_block(buf: &mut Vec<u8>, runs: &Vec<SymIndexRecord>)
    ensures
        final(buf)@ == old(buf)@ + run_block(runs@),
{
    let ghost before = buf@;
    le::put_u32(buf, #[verifier::truncate] (runs.len() as u32));
    let ghost head = buf@;
    let mut j: usize = 0;
    assert(runs@.take(0).len() == 0);
    while j < runs.len()
        invariant
            j <= runs@.len(),
            buf@ == head + records(runs@.take(j as int)),
        decreases runs.len() - j,
    {
        let bytes = runs[j].to_bytes();
        buf.extend_from_slice(bytes.as_slice());
        proof {
            assert(runs@.take(j + 1).drop_last() =~= runs@.take(j as int));
            assert(buf@ =~= head + records(runs@.take(j + 1)));
        }
        j += 1;
    }
    assert(runs@.take(j as int) =~= runs@);
    assert(buf@ =~= before + run_block(runs@));
}

impl SubsetFile {
    /// Reads a file: gives what the bytes spell, or the first thing that is wrong
    /// with them.
    pub fn deserialize(buf: &[u8]) -> (r: Result<Self, SubsetError>)
        ensures
            buf@.len() < 64 ==> (r matches Err(e) && e.reports(SubsetFault::TooShort)),
            forall|h: SubsetHeader|
                buf@.len() >= 64 && #[trigger] h.wire() == buf@.take(64) ==> match file_fault(
                    buf@,
                    h,
                ) {
                    Some(fault) => r matches Err(e) && e.reports(fault),
                    None => r matches Ok(file) && file.header == h && file.spelled_by(buf@),
                },
    {
        if buf.len() < HEADER_SIZE {
            return Err(SubsetError::TooShort);
        }
        let header = SubsetHeader::decode(buf);
        proof {
            assert forall|h: SubsetHeader| #[trigger] h.wire() == buf@.take(64) implies h
                == header by {
                law_subset_header_bytes(h, header);
            }
        }
        if let Err(m) = header.validate() {
            return Err(SubsetError::Header(m));
        }
        if let Err(m) = header.time_type() {
            return Err(SubsetError::Header(m));
        }
        let count: u32 = header.sym_count;
        if buf.len() as u64 - 64 < 8 * (count as u64 + 1) {
            return Err(SubsetError::Truncated);
        }
        let symbols: Vec<String> = match read_symbols(buf, count as usize) {
            Ok(symbols) => symbols,
            Err(e) => {
                return Err(e);
            },
        };
        match read_runs(buf, count as usize) {
            Some((sym_ranges, total_ranges, total_rows)) => {
                if header.range_count as u128 != total_ranges {
                    return Err(SubsetError::Header("range_count mismatch"));
                }
                if header.total_rows as u128 != total_rows {
                    return Err(SubsetError::Header("total_rows mismatch"));
                }
                let file = SubsetFile { header, symbols, sym_ranges };
                proof {
                    let n = count as int;
                    assert forall|k: int| 0 <= k < n implies (#[trigger] file.sym_ranges@[k])@.len()
                        == block_count(buf@, block_at(buf@, n, k)) by {
                        assert(block_read(buf@, block_at(buf@, n, k), sym_ranges@[k]@));
                    }
                    assert forall|k: int, j: int|
                        0 <= k < n && 0 <= j < file.sym_ranges@[k]@.len() implies (
                    #[trigger] file.sym_ranges@[k]@[j]).wire() == buf@.subrange(
                        block_at(buf@, n, k) + 4 + 12 * j,
                        block_at(buf@, n, k) + 16 + 12 * j,
                    ) by {
                        assert(block_read(buf@, block_at(buf@, n, k), sym_ranges@[k]@));
                    }
                }
                Ok(file)
            },
            None => Err(SubsetError::Truncated),
        }
    }
}

/// Entry `k` of the offset table.
fn get_start(buf: &[u8], k: usize) -> (start: u64)
    requires
        72 + 8 * k <= buf@.len(),
    ensures
        start == start_at(buf@, k as int),
{
    assert(buf@.len() == buf.len());
    le::get_u64(buf, 64 + 8 * k)
}

/// Reads the symbols.
fn read_symbols(buf: &[u8], n: usize) -> (r: Result<Vec<String>, SubsetError>)
    requires
        table_end(n as int) <= buf@.len(),
    ensures
        match symbols_fault(buf@, n as int, 0) {
            Some(fault) => r matches Err(e) && e.reports(fault),
            None => r matches Ok(symbols) && symbols@.len() == n && forall|k: int|
                0 <= k < n ==> utf8::encode_utf8((#[trigger] symbols@[k])@) == symbol_at(
                    buf@,
                    n as int,
                    k,
                ),
        },
{
    let total: usize = buf.len();
    let end: usize = 72 + 8 * n;
    let mut symbols: Vec<String> = Vec::new();
    let mut k: usize = 0;
    while k < n
        invariant
            k <= n,
            total == buf@.len(),
            end == table_end(n as int),
            end <= total,
            symbols@.len() == k,
            symbols_fault(buf@, n as int, 0) == symbols_fault(buf@, n as int, k as int),
            forall|i: int|
                0 <= i < k ==> utf8::encode_utf8((#[trigger] symbols@[i])@) == symbol_at(
                    buf@,
                    n as int,
                    i,
                ),
        decreases n - k,
    {
        let lo: u64 = get_start(buf, k);
        let hi: u64 = get_start(buf, k + 1);
        if lo > hi || hi > (total - end) as u64 {
            assert(!symbol_fits(buf@, n as int, k as int));
            return Err(SubsetError::Truncated);
        }
        let bytes = slice_subrange(buf, end + lo as usize, end + hi as usize);
        assert(bytes@ == symbol_at(buf@, n as int, k as int));
        match text::from_utf8(bytes) {
            Ok(s) => {
                proof {
                    broadcast use utf8::decode_utf8_encode_utf8;

                    assert(utf8::encode_utf8(utf8::decode_utf8(bytes@)) == bytes@);
                }
                symbols.push(s.to_owned());
            },
            Err(e) => {
                return Err(SubsetError::Utf8(e));
            },
        }
        k += 1;
    }
    Ok(symbols)
}

/// Reads the runs of all symbols, and counts them and their rows.
fn read_runs(buf: &[u8], n: usize) -> (r: Option<(Vec<Vec<SymIndexRecord>>, u128, u128)>)
    requires
        table_end(n as int) <= buf@.len(),
    ensures
        match r {
            Some((runs, total_ranges, total_rows)) => {
                &&& blocks_fault(buf@, n as int, 0) is None
                &&& runs@.len() == n
                &&& forall|k: int|
                    0 <= k < n ==> #[trigger] block_read(
                        buf@,
                        block_at(buf@, n as int, k),
                        runs@[k]@,
                    )
                &&& total_ranges == runs_up_to(buf@, n as int, n as int)
                &&& total_rows == rows_up_to(buf@, n as int, n as int)
            },
            None => blocks_fault(buf@, n as int, 0) is Some,
        },
{
    let total: usize = buf.len();
    let end: usize = 72 + 8 * n;
    let mut runs: Vec<Vec<SymIndexRecord>> = Vec::new();
    let mut total_ranges: u128 = 0;
    let mut total_rows: u128 = 0;
    let last: u64 = get_start(buf, n);
    if last > (total - end) as u64 {
        if n == 0 {
            return Some((runs, total_ranges, total_rows));
        }
        assert(!block_fits(buf@, block_at(buf@, n as int, 0)));
        return None;
    }
    let mut off: usize = end + last as usize;
    let mut k: usize = 0;
    while k < n
        invariant
            k <= n,
            total == buf@.len(),
            off == block_at(buf@, n as int, k as int),
            off <= total,
            runs@.len() == k,
            blocks_fault(buf@, n as int, 0) == blocks_fault(buf@, n as int, k as int),
            forall|i: int|
                0 <= i < k ==> #[trigger] block_read(
                    buf@,
                    block_at(buf@, n as int, i),
                    runs@[i]@,
                ),
            total_ranges == runs_up_to(buf@, n as int, k as int),
            total_rows == rows_up_to(buf@, n as int, k as int),
            total_ranges <= k * 0xffff_ffff,
            total_rows <= off * 0xffff_ffff,
        decreases n - k,
    {
        if total - off < 4 {
            return None;
        }
        let count: u32 = le::get_u32(buf, off);
        assert(count == block_count(buf@, off as int));
        if (total - off - 4) as u64 / 12 < count as u64 {
            return None;
        }
        assert(block_fits(buf@, off as int));
        let (block, rows) = read_block(buf, off, count as usize);
        assert(block_read(buf@, off as int, block@));
        runs.push(block);
        let next: usize = off + 4 + 12 * count as usize;
        proof {
            let (k0, o0, o1, c) = (k as int, off as int, next as int, count as int);
            assert(k0 * 0xffff_ffff + c <= (k0 + 1) * 0xffff_ffff && (k0 + 1) * 0xffff_ffff
                <= 0xffff_ffff_ffff_ffff * 0xffff_ffff + 0xffff_ffff) by (nonlinear_arith)
                requires
                    0 <= k0 <= 0xffff_ffff_ffff_ffff,
                    c <= 0xffff_ffff,
            ;
            assert(o0 * 0xffff_ffff + c * 0xffff_ffff <= o1 * 0xffff_ffff && o1 * 0xffff_ffff
                <= 0xffff_ffff_ffff_ffff * 0xffff_ffff) by (nonlinear_arith)
                requires
                    o1 == o0 + 4 + 12 * c,
                    0 <= c,
                    o1 <= 0xffff_ffff_ffff_ffff,
            ;
        }
        total_ranges = total_ranges + count as u128;
        total_rows = total_rows + rows;
        off = next;
        k += 1;
    }
    Some((runs, total_ranges, total_rows))
}

/// The runs are those of the block at `p`.
pub open spec fn block_read(buf: Seq<u8>, p: int, runs: Seq<SymIndexRecord>) -> bool {
    &&& runs.len() == block_count(buf, p)
    &&& forall|j: int|
        0 <= j < runs.len() ==> (#[trigger] runs[j]).wire() == buf.subrange(
            p + 4 + 12 * j,
            p + 16 + 12 * j,
        )
}

/// Reads the `count` runs of the block at `p`, and counts their rows.
fn read_block(buf: &[u8], p: usize, count: usize) -> (r: (Vec<SymIndexRecord>, u128))
    requires
        block_fits(buf@, p as int),
        count == block_count(buf@, p as int),
        count <= u32::MAX,
    ensures
        block_read(buf@, p as int, r.0@),
        r.1 == block_rows(buf@, p as int, count as int),
        r.1 <= count * 0xffff_ffff,
{
    let ghost total: usize = buf.len();
    let mut runs: Vec<SymIndexRecord> = Vec::new();
    let mut rows: u128 = 0;
    let mut j: usize = 0;
    while j < count
        invariant
            j <= count,
            count <= u32::MAX,
            total == buf@.len(),
            p + 4 + 12 * count <= total,
            runs@.len() == j,
            forall|i: int|
                0 <= i < j ==> (#[trigger] runs@[i]).wire() == buf@.subrange(
                    p + 4 + 12 * i,
                    p + 16 + 12 * i,
                ),
            rows == block_rows(buf@, p as int, j as int),
            rows <= j * 0xffff_ffff,
        decreases count - j,
    {
        let at: usize = p + 4 + 12 * j;
        let record = SymIndexRecord::read_at(buf, at);
        proof {
            record.lemma_wire_parts();
            le::lemma_le_limits();
            le::lemma_le_value_of_bytes(record.time_count as nat, 4);
            assert(buf@.subrange(at as int, at + 12).subrange(4, 8) =~= buf@.subrange(
                at + 4,
                at + 8,
            ));
            assert(record.time_count == le::le_value(buf@.subrange(at + 4, at + 8)));
        }
        rows = rows + record.time_count as u128;
        runs.push(record);
        j += 1;
    }
    (runs, rows)
}

/// Where the parts of a written file lie.
proof fn lemma_wire_layout(f: SubsetFile)
    requires
        f.symbols@.len() == f.sym_ranges@.len(),
    ensures
        f.wire().len() == table_end(f.symbols@.len() as int) + buffer::concat(
            symbol_bytes(f.symbols@),
        ).len() + run_index(f.sym_ranges@).len(),
        f.wire().take(64) == f.header.wire(),
        f.wire().subrange(64, table_end(f.symbols@.len() as int)) == buffer::words_bytes(
            buffer::starts(symbol_bytes(f.symbols@)),
        ),
        f.wire().subrange(
            table_end(f.symbols@.len() as int),
            table_end(f.symbols@.len() as int) + buffer::concat(symbol_bytes(f.symbols@)).len(),
        ) == buffer::concat(symbol_bytes(f.symbols@)),
        f.wire().skip(
            table_end(f.symbols@.len() as int) + buffer::concat(symbol_bytes(f.symbols@)).len(),
        ) == run_index(f.sym_ranges@),
{
    let parts = symbol_bytes(f.symbols@);
    let n = f.symbols@.len() as int;
    let t = buffer::words_bytes(buffer::starts(parts));
    f.header.lemma_wire_parts();
    buffer::lemma_words_len(buffer::starts(parts));
    assert(t.len() == 8 * (n + 1));
    let buf = f.wire();
    assert(buf.take(64) =~= f.header.wire());
    assert(buf.subrange(64, table_end(n)) =~= t);
    assert(buf.subrange(table_end(n), table_end(n) + buffer::concat(parts).len()) =~= buffer::concat(parts));
    assert(buf.skip(table_end(n) + buffer::concat(parts).len()) =~= run_index(f.sym_ranges@));
}

/// The offset table of a written file holds where the symbols start.
proof fn lemma_wire_start(f: SubsetFile, k: int)
    requires
        f.symbols@.len() == f.sym_ranges@.len(),
        buffer::concat(symbol_bytes(f.symbols@)).len() <= u64::MAX,
        0 <= k <= f.symbols@.len(),
    ensures
        start_at(f.wire(), k) == buffer::concat(symbol_bytes(f.symbols@).take(k)).len(),
{
    let parts = symbol_bytes(f.symbols@);
    let n = f.symbols@.len() as int;
    let table = buffer::starts(parts);
    lemma_wire_layout(f);
    buffer::lemma_concat_prefix(parts, k);
    buffer::law_words_group(table, k);
    buffer::lemma_words_len(table);
    let t = buffer::words_bytes(table);
    assert(f.wire().subrange(64 + 8 * k, 72 + 8 * k) =~= f.wire().subrange(
        64,
        table_end(n),
    ).subrange(8 * k, 8 * k + 8));
    assert(buffer::group(t, k, 8) =~= t.subrange(8 * k, 8 * k + 8));
}

/// The symbols of a written file are found again.
proof fn lemma_wire_symbol(f: SubsetFile, k: int)
    requires
        f.symbols@.len() == f.sym_ranges@.len(),
        buffer::concat(symbol_bytes(f.symbols@)).len() <= u64::MAX,
        0 <= k < f.symbols@.len(),
    ensures
        symbol_fits(f.wire(), f.symbols@.len() as int, k),
        symbol_at(f.wire(), f.symbols@.len() as int, k) == utf8::encode_utf8(f.symbols@[k]@),
        utf8::valid_utf8(symbol_at(f.wire(), f.symbols@.len() as int, k)),
{
    let parts = symbol_bytes(f.symbols@);
    let n = f.symbols@.len() as int;
    lemma_wire_layout(f);
    lemma_wire_start(f, k);
    lemma_wire_start(f, k + 1);
    buffer::lemma_concat_part(parts, k);
    let (a, b) = (
        buffer::concat(parts.take(k)).len() as int,
        buffer::concat(parts.take(k + 1)).len() as int,
    );
    assert(f.wire().subrange(table_end(n) + a, table_end(n) + b) =~= f.wire().subrange(
        table_end(n),
        table_end(n) + buffer::concat(parts).len(),
    ).subrange(a, b));
    utf8::encode_utf8_valid_utf8(f.symbols@[k]@);
}

proof fn lemma_no_symbols_fault(f: SubsetFile, k: int)
    requires
        f.symbols@.len() == f.sym_ranges@.len(),
        buffer::concat(symbol_bytes(f.symbols@)).len() <= u64::MAX,
        0 <= k <= f.symbols@.len(),
    ensures
        symbols_fault(f.wire(), f.symbols@.len() as int, k) is None,
    decreases f.symbols@.len() - k,
{
    if k < f.symbols@.len() {
        lemma_wire_symbol(f, k);
        lemma_no_symbols_fault(f, k + 1);
    }
}

/// The block of symbol `k` of a written file.
proof fn lemma_wire_block(f: SubsetFile, k: int)
    requires
        f.consistent(),
        0 <= k < f.symbols@.len(),
    ensures
        block_at(f.wire(), f.symbols@.len() as int, k) == table_end(f.symbols@.len() as int)
            + buffer::concat(symbol_bytes(f.symbols@)).len() + run_index(f.sym_ranges@.take(k)).len(),
        block_fits(f.wire(), block_at(f.wire(), f.symbols@.len() as int, k)),
        block_read(
            f.wire(),
            block_at(f.wire(), f.symbols@.len() as int, k),
            f.sym_ranges@[k]@,
        ),
        block_end(f.wire(), block_at(f.wire(), f.symbols@.len() as int, k)) == table_end(
            f.symbols@.len() as int,
        ) + buffer::concat(symbol_bytes(f.symbols@)).len() + run_index(f.sym_ranges@.take(k + 1)).len(),
    decreases k,
{
    let buf = f.wire();
    let n = f.symbols@.len() as int;
    let parts = symbol_bytes(f.symbols@);
    let base = table_end(n) + buffer::concat(parts).len();
    let runs = f.sym_ranges@[k]@;
    lemma_wire_layout(f);
    if k == 0 {
        lemma_wire_start(f, n);
        assert(parts.take(n) =~= parts);
        assert(f.sym_ranges@.take(0).len() == 0);
    } else {
        lemma_wire_block(f, k - 1);
    }
    let p = block_at(buf, n, k);
    lemma_block_at(f.sym_ranges@, k);
    lemma_records_len(runs);
    le::lemma_le_bytes_len((runs.len() as u32) as nat, 4);
    le::lemma_le_limits();
    le::lemma_le_value_of_bytes(runs.len(), 4);
    let (a, b) = (
        run_index(f.sym_ranges@.take(k)).len() as int,
        run_index(f.sym_ranges@.take(k + 1)).len() as int,
    );
    assert(p == base + a);
    let block = run_block(runs);
    assert(buf.subrange(p, base + b) =~= buf.skip(base).subrange(a, b));
    assert(buf.subrange(p, base + b) == block);
    assert(buf.subrange(p, p + 4) =~= block.subrange(0, 4));
    assert(block.subrange(0, 4) =~= le::le_bytes((runs.len() as u32) as nat, 4));
    assert forall|j: int| 0 <= j < runs.len() implies (#[trigger] runs[j]).wire() == buf.subrange(
        p + 4 + 12 * j,
        p + 16 + 12 * j,
    ) by {
        lemma_record_at(runs, j);
        assert(buf.subrange(p + 4 + 12 * j, p + 16 + 12 * j) =~= block.subrange(
            4 + 12 * j,
            16 + 12 * j,
        ));
        assert(block.subrange(4 + 12 * j, 16 + 12 * j) =~= records(runs).subrange(
            12 * j,
            12 * j + 12,
        ));
    }
}

proof fn lemma_no_blocks_fault(f: SubsetFile, k: int)
    requires
        f.consistent(),
        0 <= k <= f.symbols@.len(),
    ensures
        blocks_fault(f.wire(), f.symbols@.len() as int, k) is None,
    decreases f.symbols@.len() - k,
{
    if k < f.symbols@.len() {
        lemma_wire_block(f, k);
        lemma_no_blocks_fault(f, k + 1);
    }
}

/// Rows are counted from the bytes as from the runs.
proof fn lemma_block_rows(buf: Seq<u8>, p: int, runs: Seq<SymIndexRecord>, j: int)
    requires
        block_read(buf, p, runs),
        0 <= j <= runs.len(),
        0 <= p,
        p + 4 + 12 * runs.len() <= buf.len(),
    ensures
        block_rows(buf, p, j) == run_rows(runs.take(j)),
    decreases j,
{
    if j > 0 {
        let r = runs[j - 1];
        lemma_block_rows(buf, p, runs, j - 1);
        assert(runs.take(j).drop_last() =~= runs.take(j - 1));
        r.lemma_wire_parts();
        le::lemma_le_limits();
        le::lemma_le_value_of_bytes(r.time_count as nat, 4);
        let at = p + 4 + 12 * (j - 1);
        assert(buf.subrange(at, at + 12).subrange(4, 8) =~= buf.subrange(at + 4, at + 8));
    }
}

proof fn lemma_wire_counts(f: SubsetFile, k: int)
    requires
        f.consistent(),
        0 <= k <= f.symbols@.len(),
    ensures
        runs_up_to(f.wire(), f.symbols@.len() as int, k) == all_runs(f.sym_ranges@.take(k)),
        rows_up_to(f.wire(), f.symbols@.len() as int, k) == all_rows(f.sym_ranges@.take(k)),
    decreases k,
{
    if k > 0 {
        lemma_wire_counts(f, k - 1);
        lemma_wire_block(f, k - 1);
        let runs = f.sym_ranges@[k - 1]@;
        let p = block_at(f.wire(), f.symbols@.len() as int, k - 1);
        lemma_wire_layout(f);
        lemma_block_rows(f.wire(), p, runs, runs.len() as int);
        assert(runs.take(runs.len() as int) =~= runs);
        assert(f.sym_ranges@.take(k).drop_last() =~= f.sym_ranges@.take(k - 1));
    }
}

/// A file whose header says what it holds is read back from its bytes: nothing is
/// wrong with them, and they spell it.
pub proof fn law_subset_roundtrip(f: SubsetFile)
    requires
        f.consistent(),
    ensures
        f.wire().len() >= 64,
        f.header.wire() == f.wire().take(64),
        file_fault(f.wire(), f.header) is None,
        f.spelled_by(f.wire()),
{
    let n = f.symbols@.len() as int;
    lemma_wire_layout(f);
    lemma_no_symbols_fault(f, 0);
    lemma_no_blocks_fault(f, 0);
    lemma_wire_counts(f, n);
    assert(f.sym_ranges@.take(n) =~= f.sym_ranges@);
    assert forall|k: int| 0 <= k < n implies utf8::encode_utf8((#[trigger] f.symbols@[k])@)
        == symbol_at(f.wire(), n, k) by {
        lemma_wire_symbol(f, k);
    }
    assert forall|k: int| 0 <= k < n implies (#[trigger] f.sym_ranges@[k])@.len() == block_count(
        f.wire(),
        block_at(f.wire(), n, k),
    ) by {
        lemma_wire_block(f, k);
    }
    assert forall|k: int, j: int| 0 <= k < n && 0 <= j < f.sym_ranges@[k]@.len() implies (
    #[trigger] f.sym_ranges@[k]@[j]).wire() == f.wire().subrange(
        block_at(f.wire(), n, k) + 4 + 12 * j,
        block_at(f.wire(), n, k) + 16 + 12 * j,
    ) by {
        lemma_wire_block(f, k);
    }
}

/// Bytes spell at most one file.
pub proof fn law_subset_unique(f: SubsetFile, g: SubsetFile, buf: Seq<u8>)
    requires
        f.spelled_by(buf),
        g.spelled_by(buf),
    ensures
        f.header == g.header,
        f.symbols@.len() == g.symbols@.len(),
        f.sym_ranges@.len() == g.sym_ranges@.len(),
        forall|k: int|
            0 <= k < f.symbols@.len() ==> (#[trigger] f.symbols@[k])@ == g.symbols@[k]@,
        forall|k: int|
            0 <= k < f.sym_ranges@.len() ==> (#[trigger] f.sym_ranges@[k])@ == g.sym_ranges@[k]@,
{
    law_subset_header_bytes(f.header, g.header);
    let n = f.header.sym_count as int;
    assert forall|k: int| 0 <= k < n implies (#[trigger] f.symbols@[k])@ == g.symbols@[k]@ by {
        assert(utf8::encode_utf8(g.symbols@[k]@) == symbol_at(buf, n, k));
        text::lemma_utf8_injective(f.symbols@[k]@, g.symbols@[k]@);
    }
    assert forall|k: int| 0 <= k < n implies (#[trigger] f.sym_ranges@[k])@
        == g.sym_ranges@[k]@ by {
        let (a, b) = (f.sym_ranges@[k]@, g.sym_ranges@[k]@);
        assert(g.sym_ranges@[k]@.len() == block_count(buf, block_at(buf, n, k)));
        assert forall|j: int| 0 <= j < a.len() implies a[j] == b[j] by {
            assert(f.sym_ranges@[k]@[j].wire() == g.sym_ranges@[k]@[j].wire());
            crate::meta::law_index_record_bytes(a[j], b[j]);
        }
        assert(a =~= b);
    }
}

proof fn lemma_runs_counted(runs: Seq<Vec<SymIndexRecord>>, k: int)
    requires
        0 <= k < runs.len(),
    ensures
        runs[k]@.len() <= all_runs(runs),
    decreases runs.len(),
{
    if k < runs.len() - 1 {
        lemma_runs_counted(runs.drop_last(), k);
    }
}

/// A subset made from runs is read back from its bytes, with its symbols in order.
pub proof fn law_built_subset_read_back(
    entries: Seq<(Seq<char>, SymIndexRecord)>,
    f: SubsetFile,
)
    requires
        grouped(entries, f.symbols@, f.sym_ranges@),
        f.header.fault() is None,
        f.header.sym_count == f.symbols@.len(),
        f.header.range_count == all_runs(f.sym_ranges@),
        f.header.total_rows == all_rows(f.sym_ranges@),
        buffer::concat(symbol_bytes(f.symbols@)).len() <= u64::MAX,
    ensures
        f.consistent(),
        file_fault(f.wire(), f.header) is None,
        f.spelled_by(f.wire()),
        SubsetFile::sorted(f.symbols@),
{
    assert forall|k: int| 0 <= k < f.sym_ranges@.len() implies (
    #[trigger] f.sym_ranges@[k])@.len() <= u32::MAX by {
        lemma_runs_counted(f.sym_ranges@, k);
    }
    law_subset_roundtrip(f);
}

/// Some run holds that time.
pub open spec fn covered(runs: Seq<SymIndexRecord>, t: int) -> bool {
    exists|p: int| 0 <= p < runs.len() && (#[trigger] runs[p]).covers(t)
}

/// Some run offered for the symbol holds that time.
pub open spec fn offered(entries: Seq<(Seq<char>, SymIndexRecord)>, sym: Seq<char>, t: int) -> bool {
    exists|i: int|
        0 <= i < entries.len() && (#[trigger] entries[i]).0 == sym && entries[i].1.covers(t)
}

/// Entry `i` is the first of the symbol that starts at its time.
pub open spec fn first_start(
    entries: Seq<(Seq<char>, SymIndexRecord)>,
    sym: Seq<char>,
    i: int,
) -> bool {
    &&& 0 <= i < entries.len()
    &&& entries[i].0 == sym
    &&& forall|k: int|
        0 <= k < i && (#[trigger] entries[k]).0 == sym ==> entries[k].1.time_start
            != entries[i].1.time_start
}

/// Runs in order, none empty, with a gap between any two.
pub open spec fn apart(runs: Seq<SymIndexRecord>) -> bool {
    &&& forall|i: int| 0 <= i < runs.len() ==> (#[trigger] runs[i]).time_count > 0
    &&& forall|i: int, j: int|
        0 <= i < j < runs.len() ==> (#[trigger] runs[i]).time_start + runs[i].time_count < (
        #[trigger] runs[j]).time_start
}

/// The runs of a symbol: they lie apart, hold exactly the times that were offered
/// for it, and each starts with the row of the first entry that starts there.
pub open spec fn merged(
    entries: Seq<(Seq<char>, SymIndexRecord)>,
    sym: Seq<char>,
    runs: Seq<SymIndexRecord>,
) -> bool {
    &&& apart(runs)
    &&& forall|t: int| #[trigger] covered(runs, t) == offered(entries, sym, t)
    &&& forall|p: int| 0 <= p < runs.len() ==> starts_like(entries, sym, #[trigger] runs[p])
}

/// The run starts at the time and with the row of the first entry that starts there.
pub open spec fn starts_like(
    entries: Seq<(Seq<char>, SymIndexRecord)>,
    sym: Seq<char>,
    run: SymIndexRecord,
) -> bool {
    exists|i: int|
        #[trigger] first_start(entries, sym, i) && entries[i].1.time_start == run.time_start
            && entries[i].1.row_start == run.row_start
}

/// Some entry is for the symbol.
pub open spec fn names(entries: Seq<(Seq<char>, SymIndexRecord)>, sym: Seq<char>) -> bool {
    exists|i: int| 0 <= i < entries.len() && (#[trigger] entries[i]).0 == sym
}

/// Symbols in order and the runs of each, as made from the entries.
pub open spec fn grouped(
    entries: Seq<(Seq<char>, SymIndexRecord)>,
    symbols: Seq<String>,
    runs: Seq<Vec<SymIndexRecord>>,
) -> bool {
    &&& SubsetFile::sorted(symbols)
    &&& symbols.len() == runs.len()
    &&& forall|s: Seq<char>|
        #[trigger] names(entries, s) <==> exists|k: int|
            0 <= k < symbols.len() && (#[trigger] symbols[k])@ == s
    &&& forall|k: int|
        0 <= k < symbols.len() ==> merged(
            entries,
            (#[trigger] symbols[k])@,
            runs[k]@,
        )
}

/// The runs offered for a symbol, by the time at which they start and, where those
/// are equal, in the order in which they were offered.
spec fn gathered(
    entries: Seq<(Seq<char>, SymIndexRecord)>,
    sym: Seq<char>,
    runs: Seq<SymIndexRecord>,
) -> bool {
    &&& forall|p: int, q: int|
        0 <= p < q < runs.len() ==> (#[trigger] runs[p]).time_start <= (
        #[trigger] runs[q]).time_start
    &&& forall|p: int| 0 <= p < runs.len() ==> comes_from(entries, sym, #[trigger] runs[p])
    &&& forall|i: int|
        0 <= i < entries.len() && (#[trigger] entries[i]).0 == sym ==> runs.contains(entries[i].1)
    &&& forall|p: int| #[trigger] leads(runs, p) ==> is_first(entries, sym, runs[p])
    &&& runs.len() >= 2 ==> twice(entries, sym)
}

/// Some entry offers the run for the symbol.
spec fn comes_from(
    entries: Seq<(Seq<char>, SymIndexRecord)>,
    sym: Seq<char>,
    run: SymIndexRecord,
) -> bool {
    exists|i: int|
        0 <= i < entries.len() && (#[trigger] entries[i]).0 == sym && entries[i].1 == run
}

/// The first entry of the symbol that starts at its time offers the run.
spec fn is_first(
    entries: Seq<(Seq<char>, SymIndexRecord)>,
    sym: Seq<char>,
    run: SymIndexRecord,
) -> bool {
    exists|i: int| #[trigger] first_start(entries, sym, i) && entries[i].1 == run
}

/// Two entries are for the symbol.
spec fn twice(entries: Seq<(Seq<char>, SymIndexRecord)>, sym: Seq<char>) -> bool {
    exists|i: int, j: int|
        0 <= i < j < entries.len() && (#[trigger] entries[i]).0 == sym && (
        #[trigger] entries[j]).0 == sym
}

/// Some run starts like this one, and no earlier one starts at that time.
spec fn led_in(runs: Seq<SymIndexRecord>, run: SymIndexRecord) -> bool {
    exists|q: int|
        #[trigger] leads(runs, q) && runs[q].time_start == run.time_start && runs[q].row_start
            == run.row_start
}

/// No earlier run starts at the same time.
spec fn leads(runs: Seq<SymIndexRecord>, p: int) -> bool {
    0 <= p < runs.len() && (p == 0 || runs[p - 1].time_start < runs[p].time_start)
}

/// Adds a run behind those that start no later.
fn insert_run(runs: &mut Vec<SymIndexRecord>, run: SymIndexRecord) -> (at: usize)
    requires
        forall|p: int, q: int|
            0 <= p < q < old(runs)@.len() ==> (#[trigger] old(runs)@[p]).time_start <= (
            #[trigger] old(runs)@[q]).time_start,
    ensures
        at <= old(runs)@.len(),
        final(runs)@ == old(runs)@.insert(at as int, run),
        forall|p: int| 0 <= p < at ==> (#[trigger] old(runs)@[p]).time_start <= run.time_start,
        forall|p: int|
            at <= p < old(runs)@.len() ==> (#[trigger] old(runs)@[p]).time_start > run.time_start,
{
    let mut at: usize = 0;
    while at < runs.len() && runs[at].time_start <= run.time_start
        invariant
            at <= runs@.len(),
            runs@ == old(runs)@,
            forall|p: int| 0 <= p < at ==> (#[trigger] runs@[p]).time_start <= run.time_start,
        decreases runs.len() - at,
    {
        at += 1;
    }
    proof {
        assert forall|p: int| at <= p < runs@.len() implies (#[trigger] runs@[p]).time_start
            > run.time_start by {
            assert(runs@[at as int].time_start > run.time_start);
        }
    }
    runs.insert(at, run);
    at
}

/// A run added in its place keeps the runs of a symbol in order.
#[verifier::rlimit(40)]
proof fn lemma_gathered_insert(
    entries: Seq<(Seq<char>, SymIndexRecord)>,
    sym: Seq<char>,
    run: SymIndexRecord,
    runs: Seq<SymIndexRecord>,
    at: int,
)
    requires
        gathered(entries, sym, runs),
        0 <= at <= runs.len(),
        forall|p: int| 0 <= p < at ==> (#[trigger] runs[p]).time_start <= run.time_start,
        forall|p: int| at <= p < runs.len() ==> (#[trigger] runs[p]).time_start > run.time_start,
    ensures
        gathered(entries.push((sym, run)), sym, runs.insert(at, run)),
{
    let more = entries.push((sym, run));
    let out = runs.insert(at, run);
    let n = entries.len() as int;
    assert(more[n] == (sym, run));
    assert(out[at] == run);
    assert forall|p: int| 0 <= p < out.len() implies comes_from(more, sym, #[trigger] out[p]) by {
        if p == at {
            assert(more[n].0 == sym && more[n].1 == out[p]);
        } else {
            let q = if p < at {
                p
            } else {
                p - 1
            };
            assert(out[p] == runs[q]);
            assert(comes_from(entries, sym, runs[q]));
            let i = choose|i: int|
                0 <= i < entries.len() && (#[trigger] entries[i]).0 == sym && entries[i].1
                    == runs[q];
            assert(more[i] == entries[i]);
        }
    }
    assert forall|i: int| 0 <= i < more.len() && (#[trigger] more[i]).0 == sym implies out.contains(
        more[i].1,
    ) by {
        if i < n {
            assert(entries[i] == more[i]);
            assert(runs.contains(entries[i].1));
            let q = choose|q: int| 0 <= q < runs.len() && runs[q] == entries[i].1;
            if q < at {
                assert(out[q] == runs[q]);
            } else {
                assert(out[q + 1] == runs[q]);
            }
        } else {
            assert(out[at] == more[i].1);
        }
    }
    if out.len() >= 2 {
        assert(comes_from(entries, sym, runs[0]));
        let i = choose|i: int|
            0 <= i < entries.len() && (#[trigger] entries[i]).0 == sym && entries[i].1 == runs[0];
        assert(more[i].0 == sym && more[n].0 == sym);
    }
    assert forall|p: int| #[trigger] leads(out, p) implies is_first(more, sym, out[p]) by {
        if p == at {
            assert(first_start(more, sym, n)) by {
                assert forall|k: int| 0 <= k < n && (#[trigger] more[k]).0 == sym implies more[k].1.time_start
                    != run.time_start by {
                    assert(entries[k] == more[k]);
                    assert(runs.contains(entries[k].1));
                    let q = choose|q: int| 0 <= q < runs.len() && runs[q] == entries[k].1;
                    if q < at {
                        assert(out[at - 1] == runs[at - 1]);
                        assert(runs[q].time_start <= runs[at - 1].time_start);
                    }
                }
            }
        } else {
            let q = if p < at {
                p
            } else {
                p - 1
            };
            assert(out[p] == runs[q]);
            assert(leads(runs, q)) by {
                if q > 0 {
                    if p < at {
                        assert(out[p - 1] == runs[q - 1]);
                    } else {
                        assert(runs[q].time_start > run.time_start);
                        if q - 1 < at {
                            assert(runs[q - 1].time_start <= run.time_start);
                        } else {
                            assert(out[p - 1] == runs[q - 1]);
                        }
                    }
                }
            }
            assert(is_first(entries, sym, runs[q]));
            let i = choose|i: int| #[trigger]
                first_start(entries, sym, i) && entries[i].1 == runs[q];
            assert(more[i] == entries[i]);
            assert(first_start(more, sym, i)) by {
                assert forall|k: int| 0 <= k < i && (#[trigger] more[k]).0 == sym implies more[k].1.time_start
                    != more[i].1.time_start by {
                    assert(more[k] == entries[k]);
                }
            }
        }
    }
    assert forall|p: int, q: int| 0 <= p < q < out.len() implies (#[trigger] out[p]).time_start <= (
    #[trigger] out[q]).time_start by {
        let p0 = if p < at {
            p
        } else {
            p - 1
        };
        let q0 = if q < at {
            q
        } else {
            q - 1
        };
        if p != at {
            assert(out[p] == runs[p0]);
        }
        if q != at {
            assert(out[q] == runs[q0]);
        }
    }
}

/// An entry for one symbol changes nothing for another.
proof fn lemma_gathered_other(
    entries: Seq<(Seq<char>, SymIndexRecord)>,
    sym: Seq<char>,
    entry: (Seq<char>, SymIndexRecord),
    runs: Seq<SymIndexRecord>,
)
    requires
        gathered(entries, sym, runs),
        entry.0 != sym,
    ensures
        gathered(entries.push(entry), sym, runs),
{
    let more = entries.push(entry);
    if runs.len() >= 2 {
        let (i, j) = choose|i: int, j: int|
            0 <= i < j < entries.len() && (#[trigger] entries[i]).0 == sym && (
            #[trigger] entries[j]).0 == sym;
        assert(more[i].0 == sym && more[j].0 == sym);
    }
    assert forall|p: int| 0 <= p < runs.len() implies comes_from(more, sym, #[trigger] runs[p]) by {
        assert(comes_from(entries, sym, runs[p]));
        let i = choose|i: int|
            0 <= i < entries.len() && (#[trigger] entries[i]).0 == sym && entries[i].1 == runs[p];
        assert(more[i] == entries[i]);
    }
    assert forall|i: int| 0 <= i < more.len() && (#[trigger] more[i]).0 == sym implies runs.contains(
        more[i].1,
    ) by {
        assert(i < entries.len());
        assert(entries[i] == more[i]);
    }
    assert forall|p: int| #[trigger] leads(runs, p) implies is_first(more, sym, runs[p]) by {
        assert(is_first(entries, sym, runs[p]));
        let i = choose|i: int| #[trigger] first_start(entries, sym, i) && entries[i].1 == runs[p];
        assert(more[i] == entries[i]);
        assert(first_start(more, sym, i)) by {
            assert forall|k: int| 0 <= k < i && (#[trigger] more[k]).0 == sym implies more[k].1.time_start
                != more[i].1.time_start by {
                assert(more[k] == entries[k]);
            }
        }
    }
}

/// Joins runs that touch or overlap.
fn merge_runs(runs: &Vec<SymIndexRecord>) -> (out: Vec<SymIndexRecord>)
    requires
        forall|p: int, q: int|
            0 <= p < q < runs@.len() ==> (#[trigger] runs@[p]).time_start <= (
            #[trigger] runs@[q]).time_start,
        forall|p: int| 0 <= p < runs@.len() ==> (#[trigger] runs@[p]).time_count > 0,
        runs@.len() >= 2 ==> forall|p: int|
            0 <= p < runs@.len() ==> (#[trigger] runs@[p]).time_start + runs@[p].time_count
                <= u32::MAX,
    ensures
        apart(out@),
        forall|t: int| #[trigger] covered(out@, t) == covered(runs@, t),
        forall|p: int| 0 <= p < out@.len() ==> led_in(runs@, #[trigger] out@[p]),
        out@.len() <= runs@.len(),
{
    let mut out: Vec<SymIndexRecord> = Vec::new();
    let mut k: usize = 0;
    proof {
        assert forall|t: int| #[trigger] covered(out@, t) == covered(runs@.take(0), t) by {}
    }
    while k < runs.len()
        invariant
            k <= runs@.len(),
            k > 0 ==> out@.len() > 0,
            out@.len() <= k,
            forall|p: int, q: int|
                0 <= p < q < runs@.len() ==> (#[trigger] runs@[p]).time_start <= (
                #[trigger] runs@[q]).time_start,
            forall|p: int| 0 <= p < runs@.len() ==> (#[trigger] runs@[p]).time_count > 0,
            runs@.len() >= 2 ==> forall|p: int|
                0 <= p < runs@.len() ==> (#[trigger] runs@[p]).time_start + runs@[p].time_count
                    <= u32::MAX,
            apart(out@),
            forall|t: int| #[trigger] covered(out@, t) == covered(runs@.take(k as int), t),
            forall|p: int| 0 <= p < out@.len() ==> led_in(runs@, #[trigger] out@[p]),
            k > 0 ==> forall|p: int|
                0 <= p < k ==> (#[trigger] runs@[p]).time_start + runs@[p].time_count
                    <= out@.last().time_start + out@.last().time_count,
            k > 0 ==> out@.last().time_start <= runs@[k - 1].time_start,
            k > 0 && runs@.len() >= 2 ==> out@.last().time_start + out@.last().time_count
                <= u32::MAX,
        decreases runs.len() - k,
    {
        let r = runs[k];
        let ghost before = out@;
        let ghost seen = runs@.take(k as int);
        let ghost next = runs@.take(k + 1);
        assert(next =~= seen.push(r));
        if k > 0 {
            let last: usize = out.len() - 1;
            let prev = out[last];
            if r.time_start <= prev.time_start + prev.time_count {
                let end: u32 = r.time_start + r.time_count;
                if end > prev.time_start + prev.time_count {
                    let joined = SymIndexRecord {
                        time_start: prev.time_start,
                        time_count: end - prev.time_start,
                        row_start: prev.row_start,
                    };
                    out[last] = joined;
                }
                proof {
                    assert(out@.drop_last() =~= before.drop_last());
                    assert forall|t: int| #[trigger] covered(out@, t) == covered(next, t) by {
                        lemma_covered_join(before, out@, seen, r, t);
                    }
                }
                assert(apart(out@));
                assert forall|p: int| 0 <= p < out@.len() implies led_in(
                    runs@,
                    #[trigger] out@[p],
                ) by {
                    assert(led_in(runs@, before[p]));
                }
            } else {
                out.push(r);
                proof {
                    assert(leads(runs@, k as int)) by {
                        assert(runs@[k - 1].time_start + runs@[k - 1].time_count
                            <= prev.time_start + prev.time_count);
                    }
                    assert forall|t: int| #[trigger] covered(out@, t) == covered(next, t) by {
                        lemma_covered_push(before, r, t);
                        lemma_covered_push(seen, r, t);
                        assert(covered(before, t) == covered(seen, t));
                    }
                    assert forall|p: int| 0 <= p < out@.len() implies led_in(
                        runs@,
                        #[trigger] out@[p],
                    ) by {
                        if p < before.len() {
                            assert(led_in(runs@, before[p]));
                        }
                    }
                }
            }
        } else {
            out.push(r);
            proof {
                assert(leads(runs@, 0));
                assert forall|t: int| #[trigger] covered(out@, t) == covered(next, t) by {
                    lemma_covered_push(before, r, t);
                    lemma_covered_push(seen, r, t);
                    assert(covered(before, t) == covered(seen, t));
                }
            }
        }
        k += 1;
    }
    assert(runs@.take(k as int) =~= runs@);
    out
}

proof fn lemma_covered_push(runs: Seq<SymIndexRecord>, r: SymIndexRecord, t: int)
    ensures
        covered(runs.push(r), t) == (covered(runs, t) || r.covers(t)),
{
    let more = runs.push(r);
    if covered(runs, t) {
        let p = choose|p: int| 0 <= p < runs.len() && (#[trigger] runs[p]).covers(t);
        assert(more[p].covers(t));
    }
    if r.covers(t) {
        assert(more[runs.len() as int].covers(t));
    }
    if covered(more, t) {
        let p = choose|p: int| 0 <= p < more.len() && (#[trigger] more[p]).covers(t);
        if p < runs.len() {
            assert(runs[p].covers(t));
        }
    }
}

/// Joining a run to the last one covers what both covered.
proof fn lemma_covered_join(
    before: Seq<SymIndexRecord>,
    after: Seq<SymIndexRecord>,
    seen: Seq<SymIndexRecord>,
    r: SymIndexRecord,
    t: int,
)
    requires
        before.len() > 0,
        after.len() == before.len(),
        after.drop_last() == before.drop_last(),
        after.last().time_start == before.last().time_start,
        before.last().time_start <= r.time_start <= before.last().time_start
            + before.last().time_count,
        after.last().time_start + after.last().time_count == if r.time_start + r.time_count
            > before.last().time_start + before.last().time_count {
            r.time_start + r.time_count
        } else {
            before.last().time_start + before.last().time_count
        },
        covered(before, t) == covered(seen, t),
    ensures
        covered(after, t) == covered(seen.push(r), t),
{
    lemma_covered_push(seen, r, t);
    lemma_covered_push(before.drop_last(), before.last(), t);
    lemma_covered_push(after.drop_last(), after.last(), t);
    assert(before.drop_last().push(before.last()) =~= before);
    assert(after.drop_last().push(after.last()) =~= after);
}

/// A run ends within the numbers that a file can hold.
pub open spec fn ends_in_range(run: SymIndexRecord) -> bool {
    run.time_start + run.time_count <= u32::MAX
}

/// Where a symbol has more than one run, they end within the numbers that a file can hold.
pub open spec fn joinable(entries: Seq<(Seq<char>, SymIndexRecord)>) -> bool {
    forall|i: int, j: int|
        0 <= i < entries.len() && 0 <= j < entries.len() && i != j && (#[trigger] entries[i]).0 == (
        #[trigger] entries[j]).0 ==> ends_in_range(entries[i].1)
}

/// Symbols, runs and rows can be counted.
pub open spec fn countable(entries: Seq<(Seq<char>, SymIndexRecord)>) -> bool {
    forall|symbols: Seq<String>, runs: Seq<Vec<SymIndexRecord>>| #[trigger]
        grouped(entries, symbols, runs) ==> symbols.len() <= u32::MAX && all_runs(runs) <= u32::MAX
            && all_rows(runs) <= u32::MAX
}

/// Runs that lie apart and hold the same times start and end at the same times.
proof fn lemma_apart_same(a: Seq<SymIndexRecord>, b: Seq<SymIndexRecord>)
    requires
        apart(a),
        apart(b),
        forall|t: int| #[trigger] covered(a, t) == covered(b, t),
    ensures
        a.len() == b.len(),
        forall|p: int|
            0 <= p < a.len() ==> (#[trigger] a[p]).time_start == b[p].time_start && a[p].time_count
                == b[p].time_count,
    decreases a.len(),
{
    if a.len() == 0 {
        if b.len() > 0 {
            let t = b[0].time_start as int;
            assert(b[0].covers(t));
            assert(covered(b, t));
            assert(covered(a, t));
        }
    } else if b.len() == 0 {
        let t = a[0].time_start as int;
        assert(a[0].covers(t));
        assert(covered(a, t));
        assert(covered(b, t));
    } else {
        lemma_last_reaches(a, b);
        lemma_last_reaches(b, a);
        lemma_last_starts(a, b);
        lemma_last_starts(b, a);
        let (a0, b0) = (a.drop_last(), b.drop_last());
        assert(apart(a0)) by {
            assert forall|i: int, j: int| 0 <= i < j < a0.len() implies (
            #[trigger] a0[i]).time_start + a0[i].time_count < (#[trigger] a0[j]).time_start by {
                assert(a0[i] == a[i] && a0[j] == a[j]);
            }
        }
        assert(apart(b0)) by {
            assert forall|i: int, j: int| 0 <= i < j < b0.len() implies (
            #[trigger] b0[i]).time_start + b0[i].time_count < (#[trigger] b0[j]).time_start by {
                assert(b0[i] == b[i] && b0[j] == b[j]);
            }
        }
        assert forall|t: int| #[trigger] covered(a0, t) == covered(b0, t) by {
            lemma_covered_but_last(a, t);
            lemma_covered_but_last(b, t);
            assert(covered(a, t) == covered(b, t));
        }
        lemma_apart_same(a0, b0);
        assert forall|p: int| 0 <= p < a.len() implies (#[trigger] a[p]).time_start
            == b[p].time_start && a[p].time_count == b[p].time_count by {
            if p < a0.len() {
                assert(a0[p] == a[p] && b0[p] == b[p]);
            }
        }
    }
}

/// The last run of one ends no later than that of the other.
proof fn lemma_last_reaches(a: Seq<SymIndexRecord>, b: Seq<SymIndexRecord>)
    requires
        a.len() > 0,
        b.len() > 0,
        apart(a),
        apart(b),
        forall|t: int| #[trigger] covered(a, t) == covered(b, t),
    ensures
        a.last().time_start + a.last().time_count <= b.last().time_start + b.last().time_count,
{
    let t = a.last().time_start + a.last().time_count - 1;
    assert(a[a.len() - 1].covers(t));
    assert(covered(a, t));
    assert(covered(b, t));
    let p = choose|p: int| 0 <= p < b.len() && (#[trigger] b[p]).covers(t);
    if p < b.len() - 1 {
        assert(b[p].time_start + b[p].time_count < b[b.len() - 1].time_start);
    }
}

/// Where the last runs end together, that of one starts no later than that of the other.
proof fn lemma_last_starts(a: Seq<SymIndexRecord>, b: Seq<SymIndexRecord>)
    requires
        a.len() > 0,
        b.len() > 0,
        apart(a),
        apart(b),
        forall|t: int| #[trigger] covered(a, t) == covered(b, t),
        a.last().time_start + a.last().time_count == b.last().time_start + b.last().time_count,
    ensures
        a.last().time_start <= b.last().time_start,
{
    if b.last().time_start < a.last().time_start {
        let t = a.last().time_start - 1;
        assert(b[b.len() - 1].covers(t));
        assert(covered(b, t));
        assert(covered(a, t));
        let p = choose|p: int| 0 <= p < a.len() && (#[trigger] a[p]).covers(t);
        if p < a.len() - 1 {
            assert(a[p].time_start + a[p].time_count < a[a.len() - 1].time_start);
        }
    }
}

/// Without the last run its times are not held.
proof fn lemma_covered_but_last(a: Seq<SymIndexRecord>, t: int)
    requires
        a.len() > 0,
        apart(a),
    ensures
        covered(a.drop_last(), t) == (covered(a, t) && !a.last().covers(t)),
{
    let a0 = a.drop_last();
    lemma_covered_push(a0, a.last(), t);
    assert(a0.push(a.last()) =~= a);
    if covered(a0, t) {
        let p = choose|p: int| 0 <= p < a0.len() && (#[trigger] a0[p]).covers(t);
        assert(a0[p] == a[p]);
        assert(a[p].time_start + a[p].time_count < a[a.len() - 1].time_start);
    }
}

/// What was added makes one list of symbols and runs.
pub proof fn law_one_grouping(
    entries: Seq<(Seq<char>, SymIndexRecord)>,
    symbols: Seq<String>,
    runs: Seq<Vec<SymIndexRecord>>,
    others: Seq<String>,
    other_runs: Seq<Vec<SymIndexRecord>>,
)
    requires
        grouped(entries, symbols, runs),
        grouped(entries, others, other_runs),
    ensures
        text::texts(symbols) == text::texts(others),
        runs.len() == other_runs.len(),
        forall|k: int| 0 <= k < runs.len() ==> (#[trigger] runs[k])@ == other_runs[k]@,
{
    let (a, b) = (text::texts(symbols), text::texts(others));
    assert forall|t: Seq<char>| #[trigger] a.contains(t) == b.contains(t) by {
        lemma_listed_symbol(entries, symbols, runs, t);
        lemma_listed_symbol(entries, others, other_runs, t);
    }
    assert(frame::ascending(a));
    assert(frame::ascending(b));
    frame::lemma_same_members(a, b);
    assert(a.len() == symbols.len() && b.len() == others.len());
    assert forall|k: int| 0 <= k < runs.len() implies (#[trigger] runs[k])@
        == other_runs[k]@ by {
        let sym = symbols[k]@;
        assert(a[k] == sym && b[k] == others[k]@);
        let (x, y) = (runs[k]@, other_runs[k]@);
        assert(merged(entries, symbols[k]@, x));
        assert(merged(entries, others[k]@, y));
        assert forall|t: int| #[trigger] covered(x, t) == covered(y, t) by {
            assert(covered(x, t) == offered(entries, sym, t));
            assert(covered(y, t) == offered(entries, sym, t));
        }
        lemma_apart_same(x, y);
        assert forall|p: int| 0 <= p < x.len() implies x[p] == y[p] by {
            assert(starts_like(entries, sym, x[p]));
            assert(starts_like(entries, sym, y[p]));
            let i = choose|i: int| #[trigger]
                first_start(entries, sym, i) && entries[i].1.time_start == x[p].time_start
                    && entries[i].1.row_start == x[p].row_start;
            let j = choose|j: int| #[trigger]
                first_start(entries, sym, j) && entries[j].1.time_start == y[p].time_start
                    && entries[j].1.row_start == y[p].row_start;
            assert(entries[i].0 == sym && entries[j].0 == sym);
        }
        assert(x =~= y);
    }
}

/// A text is among the symbols where an entry names it.
proof fn lemma_listed_symbol(
    entries: Seq<(Seq<char>, SymIndexRecord)>,
    symbols: Seq<String>,
    runs: Seq<Vec<SymIndexRecord>>,
    t: Seq<char>,
)
    requires
        grouped(entries, symbols, runs),
    ensures
        text::texts(symbols).contains(t) == names(entries, t),
{
    let a = text::texts(symbols);
    if a.contains(t) {
        let k = choose|k: int| 0 <= k < a.len() && a[k] == t;
        assert(symbols[k]@ == t);
    }
    if names(entries, t) {
        let k = choose|k: int| 0 <= k < symbols.len() && (#[trigger] symbols[k])@ == t;
        assert(a[k] == t);
    }
}

/// Equal runs are as many and have as many rows.
proof fn lemma_same_counts(a: Seq<Vec<SymIndexRecord>>, b: Seq<Vec<SymIndexRecord>>)
    requires
        a.len() == b.len(),
        forall|k: int| 0 <= k < a.len() ==> (#[trigger] a[k])@ == b[k]@,
    ensures
        all_runs(a) == all_runs(b),
        all_rows(a) == all_rows(b),
    decreases a.len(),
{
    if a.len() > 0 {
        let (a0, b0) = (a.drop_last(), b.drop_last());
        assert forall|k: int| 0 <= k < a0.len() implies (#[trigger] a0[k])@ == b0[k]@ by {
            assert(a0[k] == a[k] && b0[k] == b[k]);
        }
        assert(a[a.len() - 1]@ == b[b.len() - 1]@);
        lemma_same_counts(a0, b0);
    }
}

/// Collects runs for symbols and makes a subset of them.
pub struct SubsetBuilder {
    time_type: TimeType,
    generation: u64,
    parent_generation: u64,
    entries: Vec<(String, SymIndexRecord)>,
}

impl SubsetBuilder {
    pub closed spec fn spec_time_type(self) -> TimeType {
        self.time_type
    }

    pub closed spec fn spec_generation(self) -> u64 {
        self.generation
    }

    pub closed spec fn spec_parent_generation(self) -> u64 {
        self.parent_generation
    }

    /// What was added, in order.
    pub closed spec fn spec_entries(self) -> Seq<(Seq<char>, SymIndexRecord)> {
        Seq::new(self.entries@.len(), |i: int| (self.entries@[i].0@, self.entries@[i].1))
    }

    pub fn new(time_type: TimeType, generation: u64, parent_generation: u64) -> (b: Self)
        ensures
            b.spec_time_type() == time_type,
            b.spec_generation() == generation,
            b.spec_parent_generation() == parent_generation,
            b.spec_entries().len() == 0,
    {
        SubsetBuilder { time_type, generation, parent_generation, entries: Vec::new() }
    }

    /// Adds one run of the time axis to a symbol.
    pub fn add(&mut self, sym: &str, range: SymIndexRecord)
        ensures
            final(self).spec_entries() == old(self).spec_entries().push((sym@, range)),
            final(self).spec_time_type() == old(self).spec_time_type(),
            final(self).spec_generation() == old(self).spec_generation(),
            final(self).spec_parent_generation() == old(self).spec_parent_generation(),
    {
        self.entries.push((sym.to_owned(), range));
        assert(self.spec_entries() =~= old(self).spec_entries().push((sym@, range)));
    }

    /// No run is empty.
    pub open spec fn all_filled(self) -> bool {
        forall|i: int|
            0 <= i < self.spec_entries().len() ==> (#[trigger] self.spec_entries()[i]).1.time_count
                > 0
    }

    /// What was added makes a subset whose numbers fit a file; an empty run makes none.
    pub open spec fn fits(self) -> bool {
        self.all_filled() ==> joinable(self.spec_entries()) && countable(self.spec_entries())
    }

    /// Some run is empty.
    fn has_empty(&self) -> (yes: bool)
        ensures
            yes == !self.all_filled(),
    {
        let ghost entries = self.spec_entries();
        let mut k: usize = 0;
        while k < self.entries.len()
            invariant
                entries == self.spec_entries(),
                k <= entries.len(),
                entries.len() == self.entries@.len(),
                forall|i: int| 0 <= i < k ==> (#[trigger] entries[i]).1.time_count > 0,
            decreases self.entries.len() - k,
        {
            assert(entries[k as int].1 == self.entries@[k as int].1);
            if self.entries[k].1.time_count == 0 {
                return true;
            }
            k += 1;
        }
        false
    }

    /// Runs of one symbol can be joined.
    fn can_join(&self) -> (yes: bool)
        ensures
            yes == joinable(self.spec_entries()),
    {
        let ghost entries = self.spec_entries();
        let mut i: usize = 0;
        while i < self.entries.len()
            invariant
                entries == self.spec_entries(),
                i <= entries.len(),
                entries.len() == self.entries@.len(),
                forall|p: int, j: int|
                    0 <= p < i && 0 <= j < entries.len() && p != j && (#[trigger] entries[p]).0 == (
                    #[trigger] entries[j]).0 ==> ends_in_range(entries[p].1),
            decreases self.entries.len() - i,
        {
            let run = self.entries[i].1;
            assert(entries[i as int] == (self.entries@[i as int].0@, run));
            if run.time_count > u32::MAX - run.time_start {
                let mut j: usize = 0;
                while j < self.entries.len()
                    invariant
                        entries == self.spec_entries(),
                        i < entries.len(),
                        j <= entries.len(),
                        entries.len() == self.entries@.len(),
                        entries[i as int] == (self.entries@[i as int].0@, run),
                        !ends_in_range(run),
                        forall|q: int|
                            0 <= q < j && q != i ==> (#[trigger] entries[q]).0
                                != entries[i as int].0,
                    decreases self.entries.len() - j,
                {
                    assert(entries[j as int].0 == self.entries@[j as int].0@);
                    if j != i && text::same(self.entries[j].0.as_str(), self.entries[i].0.as_str()) {
                        return false;
                    }
                    j += 1;
                }
            }
            i += 1;
        }
        true
    }

    /// Tells whether `build` can be called.
    pub fn can_build(&self) -> (yes: bool)
        ensures
            yes == self.fits(),
    {
        if self.has_empty() {
            return true;
        }
        if !self.can_join() {
            return false;
        }
        let (symbols, sym_ranges) = self.groups();
        let counts = count_runs(&sym_ranges);
        proof {
            assert forall|s: Seq<String>, r: Seq<Vec<SymIndexRecord>>| #[trigger]
                grouped(self.spec_entries(), s, r) implies s.len() == symbols@.len() && all_runs(r)
                == all_runs(sym_ranges@) && all_rows(r) == all_rows(sym_ranges@) by {
                law_one_grouping(self.spec_entries(), s, r, symbols@, sym_ranges@);
                lemma_same_counts(r, sym_ranges@);
            }
        }
        symbols.len() as u64 <= u32::MAX as u64 && counts.is_some()
    }

    /// Symbols in order, and for each the runs that were added to it, joined where they
    /// touch or overlap.
    fn groups(&self) -> (r: (Vec<String>, Vec<Vec<SymIndexRecord>>))
        requires
            self.all_filled(),
            joinable(self.spec_entries()),
        ensures
            grouped(self.spec_entries(), r.0@, r.1@),
    {
        let ghost entries = self.spec_entries();
        let mut symbols: Vec<String> = Vec::new();
        let mut raw: Vec<Vec<SymIndexRecord>> = Vec::new();
        let mut k: usize = 0;
        while k < self.entries.len()
            invariant
                entries == self.spec_entries(),
                k <= entries.len(),
                entries.len() == self.entries@.len(),
                collected(entries.take(k as int), symbols@, raw@),
            decreases self.entries.len() - k,
        {
            let run = self.entries[k].1;
            let sym = self.entries[k].0.as_str();
            assert(entries[k as int] == (sym@, run));
            let ghost seen = entries.take(k as int);
            let ghost next = entries.take(k + 1);
            assert(next =~= seen.push((sym@, run)));
            let (at, found) = place_of(&symbols, sym);
            let ghost (symbols0, raw0) = (symbols@, raw@);
            if found {
                let mut group: Vec<SymIndexRecord> = Vec::new();
                std::mem::swap(&mut raw[at], &mut group);
                assert(gathered(seen, symbols0[at as int]@, group@));
                let place: usize = insert_run(&mut group, run);
                raw[at] = group;
                proof {
                    assert(raw@ =~= raw0.update(at as int, raw@[at as int]));
                    lemma_collected_found(
                        seen,
                        symbols0,
                        raw0,
                        at as int,
                        run,
                        place as int,
                        raw@[at as int],
                    );
                }
            } else {
                let mut group: Vec<SymIndexRecord> = Vec::new();
                group.push(run);
                assert(group@ =~= seq![run]);
                symbols.insert(at, sym.to_owned());
                raw.insert(at, group);
                proof {
                    lemma_collected_new(
                        seen,
                        symbols0,
                        raw0,
                        at as int,
                        run,
                        symbols@[at as int],
                        raw@[at as int],
                    );
                }
            }
            k += 1;
        }
        assert(entries.take(k as int) =~= entries);
        let mut sym_ranges: Vec<Vec<SymIndexRecord>> = Vec::new();
        let mut g: usize = 0;
        while g < raw.len()
            invariant
                entries == self.spec_entries(),
                g <= raw@.len(),
                symbols@.len() == raw@.len(),
                sym_ranges@.len() == g,
                forall|i: int| 0 <= i < entries.len() ==> (#[trigger] entries[i]).1.time_count > 0,
                joinable(entries),
                collected(entries, symbols@, raw@),
                forall|q: int|
                    0 <= q < g ==> merged(
                        entries,
                        (#[trigger] symbols@[q])@,
                        sym_ranges@[q]@,
                    ),
            decreases raw.len() - g,
        {
            let ghost sym = symbols@[g as int]@;
            let ghost runs = raw@[g as int]@;
            proof {
                assert(gathered(entries, symbols@[g as int]@, raw@[g as int]@));
                lemma_gathered_bounds(entries, sym, runs);
            }
            let out = merge_runs(&raw[g]);
            proof {
                lemma_merged(entries, sym, runs, out@);
            }
            sym_ranges.push(out);
            g += 1;
        }
        proof {
            assert forall|s: Seq<char>|
                #[trigger] names(entries, s) <==> exists|q: int|
                    0 <= q < symbols@.len() && (#[trigger] symbols@[q])@ == s by {
                if names(entries, s) {
                    let i = choose|i: int| 0 <= i < entries.len() && (#[trigger] entries[i]).0 == s;
                    assert(has_symbol(symbols@, entries[i].0));
                }
                if exists|q: int| 0 <= q < symbols@.len() && (#[trigger] symbols@[q])@ == s {
                    let q = choose|q: int|
                        0 <= q < symbols@.len() && (#[trigger] symbols@[q])@ == s;
                    assert(names(entries, symbols@[q]@));
                }
            }
            assert(grouped(entries, symbols@, sym_ranges@));
        }
        (symbols, sym_ranges)
    }

    /// The subset: symbols in order, and for each the runs that were added to it,
    /// joined where they touch or overlap.
    pub fn build(self) -> (r: Result<SubsetFile, SubsetError>)
        requires
            self.fits(),
        ensures
            match r {
                Ok(file) => {
                    &&& self.spec_entries().len() > 0
                    &&& self.all_filled()
                    &&& grouped(self.spec_entries(), file.symbols@, file.sym_ranges@)
                    &&& file.header.fault() is None
                    &&& file.header.flags == 0
                    &&& file.header.time_type == self.spec_time_type().spec_id()
                    &&& file.header.generation == self.spec_generation()
                    &&& file.header.parent_generation == self.spec_parent_generation()
                    &&& file.header.sym_count == file.symbols@.len()
                    &&& file.header.range_count == all_runs(file.sym_ranges@)
                    &&& file.header.total_rows == all_rows(file.sym_ranges@)
                },
                Err(SubsetError::Empty) => self.spec_entries().len() == 0,
                Err(SubsetError::EmptyRange) => self.spec_entries().len() > 0
                    && !self.all_filled(),
                Err(_) => false,
            },
    {
        if self.entries.len() == 0 {
            return Err(SubsetError::Empty);
        }
        if self.has_empty() {
            return Err(SubsetError::EmptyRange);
        }
        let (symbols, sym_ranges) = self.groups();
        let (range_count, total_rows): (u32, u32) = match count_runs(&sym_ranges) {
            Some(counts) => counts,
            None => (0, 0),
        };
        let header = SubsetHeader::new(
            self.time_type,
            self.generation,
            self.parent_generation,
            symbols.len() as u32,
            range_count,
            total_rows,
        );
        Ok(SubsetFile { header, symbols, sym_ranges })
    }
}

/// Symbols in order, and the runs offered for each.
spec fn collected(
    entries: Seq<(Seq<char>, SymIndexRecord)>,
    symbols: Seq<String>,
    raw: Seq<Vec<SymIndexRecord>>,
) -> bool {
    &&& SubsetFile::sorted(symbols)
    &&& symbols.len() == raw.len()
    &&& forall|g: int|
        0 <= g < symbols.len() ==> gathered(entries, (#[trigger] symbols[g])@, raw[g]@)
    &&& forall|g: int| 0 <= g < symbols.len() ==> names(entries, (#[trigger] symbols[g])@)
    &&& forall|i: int| 0 <= i < entries.len() ==> has_symbol(symbols, (#[trigger] entries[i]).0)
}

proof fn lemma_names_push(
    entries: Seq<(Seq<char>, SymIndexRecord)>,
    entry: (Seq<char>, SymIndexRecord),
    sym: Seq<char>,
)
    requires
        names(entries, sym) || entry.0 == sym,
    ensures
        names(entries.push(entry), sym),
{
    let more = entries.push(entry);
    if names(entries, sym) {
        let i = choose|i: int| 0 <= i < entries.len() && (#[trigger] entries[i]).0 == sym;
        assert(more[i].0 == sym);
    } else {
        assert(more[entries.len() as int].0 == sym);
    }
}

/// A run for a symbol that is known already.
proof fn lemma_collected_found(
    entries: Seq<(Seq<char>, SymIndexRecord)>,
    symbols: Seq<String>,
    raw: Seq<Vec<SymIndexRecord>>,
    at: int,
    run: SymIndexRecord,
    place: int,
    group: Vec<SymIndexRecord>,
)
    requires
        collected(entries, symbols, raw),
        0 <= at < symbols.len(),
        0 <= place <= raw[at]@.len(),
        group@ == raw[at]@.insert(place, run),
        forall|p: int| 0 <= p < place ==> (#[trigger] raw[at]@[p]).time_start <= run.time_start,
        forall|p: int|
            place <= p < raw[at]@.len() ==> (#[trigger] raw[at]@[p]).time_start > run.time_start,
    ensures
        collected(entries.push((symbols[at]@, run)), symbols, raw.update(at, group)),
{
    let sym = symbols[at]@;
    let entry = (sym, run);
    let more = entries.push(entry);
    let out = raw.update(at, group);
    assert forall|g: int| 0 <= g < symbols.len() implies gathered(
        more,
        (#[trigger] symbols[g])@,
        out[g]@,
    ) && names(more, symbols[g]@) by {
        assert(gathered(entries, symbols[g]@, raw[g]@));
        assert(names(entries, symbols[g]@));
        lemma_names_push(entries, entry, symbols[g]@);
        if g == at {
            lemma_gathered_insert(entries, sym, run, raw[at]@, place);
        } else {
            lemma_other_symbol(symbols, g, at);
            lemma_gathered_other(entries, symbols[g]@, entry, raw[g]@);
        }
    }
    assert forall|i: int| 0 <= i < more.len() implies has_symbol(symbols, (#[trigger] more[i]).0) by {
        if i < entries.len() {
            assert(has_symbol(symbols, entries[i].0));
        } else {
            assert(symbols[at]@ == more[i].0);
        }
    }
}

/// A run for a symbol that is new.
proof fn lemma_collected_new(
    entries: Seq<(Seq<char>, SymIndexRecord)>,
    symbols: Seq<String>,
    raw: Seq<Vec<SymIndexRecord>>,
    at: int,
    run: SymIndexRecord,
    s: String,
    group: Vec<SymIndexRecord>,
)
    requires
        collected(entries, symbols, raw),
        0 <= at <= symbols.len(),
        group@ == seq![run],
        forall|g: int| 0 <= g < at ==> text::text_before((#[trigger] symbols[g])@, s@),
        forall|g: int| at <= g < symbols.len() ==> text::text_before(s@, (#[trigger] symbols[g])@),
        forall|g: int| 0 <= g < symbols.len() ==> (#[trigger] symbols[g])@ != s@,
    ensures
        collected(entries.push((s@, run)), symbols.insert(at, s), raw.insert(at, group)),
{
    let entry = (s@, run);
    let more = entries.push(entry);
    let symbols1 = symbols.insert(at, s);
    let raw1 = raw.insert(at, group);
    let none = Seq::<SymIndexRecord>::empty();
    assert forall|i: int| 0 <= i < entries.len() implies (#[trigger] entries[i]).0 != s@ by {
        assert(has_symbol(symbols, entries[i].0));
    }
    assert(gathered(entries, s@, none));
    lemma_gathered_insert(entries, s@, run, none, 0);
    assert(none.insert(0, run) =~= group@);
    lemma_sorted_insert(symbols, at, s);
    assert forall|g: int| 0 <= g < symbols1.len() implies gathered(
        more,
        (#[trigger] symbols1[g])@,
        raw1[g]@,
    ) && names(more, symbols1[g]@) by {
        if g == at {
            lemma_names_push(entries, entry, s@);
        } else {
            let h = if g < at {
                g
            } else {
                g - 1
            };
            assert(symbols1[g] == symbols[h] && raw1[g] == raw[h]);
            assert(gathered(entries, symbols[h]@, raw[h]@));
            assert(names(entries, symbols[h]@));
            lemma_names_push(entries, entry, symbols[h]@);
            lemma_gathered_other(entries, symbols[h]@, entry, raw[h]@);
        }
    }
    assert forall|i: int| 0 <= i < more.len() implies has_symbol(symbols1, (#[trigger] more[i]).0) by {
        if i < entries.len() {
            assert(has_symbol(symbols, entries[i].0));
            let g = choose|g: int|
                0 <= g < symbols.len() && (#[trigger] symbols[g])@ == entries[i].0;
            if g < at {
                assert(symbols1[g]@ == more[i].0);
            } else {
                assert(symbols1[g + 1]@ == more[i].0);
            }
        } else {
            assert(symbols1[at]@ == more[i].0);
        }
    }
}

/// The symbol is among them.
spec fn has_symbol(symbols: Seq<String>, sym: Seq<char>) -> bool {
    exists|g: int| 0 <= g < symbols.len() && (#[trigger] symbols[g])@ == sym
}

/// Two places of sorted symbols hold different ones.
proof fn lemma_other_symbol(symbols: Seq<String>, g: int, h: int)
    requires
        SubsetFile::sorted(symbols),
        0 <= g < symbols.len(),
        0 <= h < symbols.len(),
        g != h,
    ensures
        symbols[g]@ != symbols[h]@,
{
    text::lemma_text_before_order(symbols[g]@, symbols[h]@);
    text::lemma_text_before_order(symbols[h]@, symbols[g]@);
    if g < h {
        assert(text::text_before(symbols[g]@, symbols[h]@));
    } else {
        assert(text::text_before(symbols[h]@, symbols[g]@));
    }
}

/// Where a symbol stands, or would stand.
fn place_of(symbols: &Vec<String>, sym: &str) -> (r: (usize, bool))
    requires
        SubsetFile::sorted(symbols@),
    ensures
        r.0 <= symbols@.len(),
        r.1 ==> r.0 < symbols@.len() && symbols@[r.0 as int]@ == sym@,
        !r.1 ==> forall|g: int| 0 <= g < symbols@.len() ==> (#[trigger] symbols@[g])@ != sym@,
        forall|g: int| 0 <= g < r.0 ==> text::text_before((#[trigger] symbols@[g])@, sym@),
        !r.1 ==> forall|g: int|
            r.0 <= g < symbols@.len() ==> text::text_before(sym@, (#[trigger] symbols@[g])@),
{
    let mut at: usize = 0;
    while at < symbols.len()
        invariant
            at <= symbols@.len(),
            SubsetFile::sorted(symbols@),
            forall|g: int| 0 <= g < at ==> text::text_before((#[trigger] symbols@[g])@, sym@),
        decreases symbols.len() - at,
    {
        match text::relate(symbols[at].as_str(), sym) {
            text::Relation::Before => {},
            text::Relation::Same => {
                return (at, true);
            },
            text::Relation::After => {
                proof {
                    assert forall|g: int| at <= g < symbols@.len() implies text::text_before(
                        sym@,
                        (#[trigger] symbols@[g])@,
                    ) by {
                        if g > at {
                            text::lemma_text_before_transitive(
                                sym@,
                                symbols@[at as int]@,
                                symbols@[g]@,
                            );
                        }
                    }
                    assert forall|g: int| 0 <= g < symbols@.len() implies (
                    #[trigger] symbols@[g])@ != sym@ by {
                        text::lemma_text_before_order(symbols@[g]@, sym@);
                    }
                }
                return (at, false);
            },
        }
        at += 1;
    }
    proof {
        assert forall|g: int| 0 <= g < symbols@.len() implies (#[trigger] symbols@[g])@
            != sym@ by {
            text::lemma_text_before_order(symbols@[g]@, sym@);
        }
    }
    (at, false)
}

/// A symbol put in its place keeps the order.
proof fn lemma_sorted_insert(symbols: Seq<String>, at: int, s: String)
    requires
        SubsetFile::sorted(symbols),
        0 <= at <= symbols.len(),
        forall|g: int| 0 <= g < at ==> text::text_before((#[trigger] symbols[g])@, s@),
        forall|g: int| at <= g < symbols.len() ==> text::text_before(s@, (#[trigger] symbols[g])@),
    ensures
        SubsetFile::sorted(symbols.insert(at, s)),
{
    let out = symbols.insert(at, s);
    assert forall|i: int, j: int| 0 <= i < j < out.len() implies text::text_before(
        (#[trigger] out[i])@,
        (#[trigger] out[j])@,
    ) by {
        let i0 = if i < at {
            i
        } else {
            i - 1
        };
        let j0 = if j < at {
            j
        } else {
            j - 1
        };
        if i != at {
            assert(out[i] == symbols[i0]);
        }
        if j != at {
            assert(out[j] == symbols[j0]);
        }
    }
}

/// Runs of a symbol that has two or more end where they can be counted.
proof fn lemma_gathered_bounds(
    entries: Seq<(Seq<char>, SymIndexRecord)>,
    sym: Seq<char>,
    runs: Seq<SymIndexRecord>,
)
    requires
        gathered(entries, sym, runs),
        forall|i: int| 0 <= i < entries.len() ==> (#[trigger] entries[i]).1.time_count > 0,
        joinable(entries),
    ensures
        forall|p: int| 0 <= p < runs.len() ==> (#[trigger] runs[p]).time_count > 0,
        runs.len() >= 2 ==> forall|p: int|
            0 <= p < runs.len() ==> (#[trigger] runs[p]).time_start + runs[p].time_count
                <= u32::MAX,
{
    assert forall|p: int| 0 <= p < runs.len() implies (#[trigger] runs[p]).time_count > 0 && (
    runs.len() >= 2 ==> runs[p].time_start + runs[p].time_count <= u32::MAX) by {
        assert(comes_from(entries, sym, runs[p]));
        let i = choose|i: int|
            0 <= i < entries.len() && (#[trigger] entries[i]).0 == sym && entries[i].1 == runs[p];
        assert(entries[i].1.time_count > 0);
        if runs.len() >= 2 {
            let (a, b) = choose|a: int, b: int|
                0 <= a < b < entries.len() && (#[trigger] entries[a]).0 == sym && (
                #[trigger] entries[b]).0 == sym;
            let other = if i == a {
                b
            } else {
                a
            };
            assert(entries[other].0 == entries[i].0);
        }
    }
}

/// The joined runs are those of the entries.
proof fn lemma_merged(
    entries: Seq<(Seq<char>, SymIndexRecord)>,
    sym: Seq<char>,
    runs: Seq<SymIndexRecord>,
    out: Seq<SymIndexRecord>,
)
    requires
        gathered(entries, sym, runs),
        apart(out),
        forall|t: int| #[trigger] covered(out, t) == covered(runs, t),
        forall|p: int| 0 <= p < out.len() ==> led_in(runs, #[trigger] out[p]),
    ensures
        merged(entries, sym, out),
{
    assert forall|t: int| #[trigger] covered(out, t) == offered(entries, sym, t) by {
        assert(covered(out, t) == covered(runs, t));
        if covered(runs, t) {
            let p = choose|p: int| 0 <= p < runs.len() && (#[trigger] runs[p]).covers(t);
            assert(comes_from(entries, sym, runs[p]));
            let i = choose|i: int|
                0 <= i < entries.len() && (#[trigger] entries[i]).0 == sym && entries[i].1
                    == runs[p];
            assert(entries[i].1.covers(t));
        }
        if offered(entries, sym, t) {
            let i = choose|i: int|
                0 <= i < entries.len() && (#[trigger] entries[i]).0 == sym && entries[i].1.covers(
                    t,
                );
            assert(runs.contains(entries[i].1));
            let p = choose|p: int| 0 <= p < runs.len() && runs[p] == entries[i].1;
            assert(runs[p].covers(t));
        }
    }
    assert forall|p: int| 0 <= p < out.len() implies starts_like(
        entries,
        sym,
        #[trigger] out[p],
    ) by {
        assert(led_in(runs, out[p]));
        let q = choose|q: int| #[trigger] leads(runs, q) && runs[q].time_start == out[p].time_start
            && runs[q].row_start == out[p].row_start;
        assert(is_first(entries, sym, runs[q]));
        let i = choose|i: int| #[trigger] first_start(entries, sym, i) && entries[i].1 == runs[q];
        assert(first_start(entries, sym, i));
    }
}

/// Counts runs and their rows, as far as the numbers of a file reach.
fn count_runs(runs: &Vec<Vec<SymIndexRecord>>) -> (counts: Option<(u32, u32)>)
    ensures
        match counts {
            Some(counts) => counts.0 == all_runs(runs@) && counts.1 == all_rows(runs@),
            None => all_runs(runs@) > u32::MAX || all_rows(runs@) > u32::MAX,
        },
{
    let mut range_count: u32 = 0;
    let mut total_rows: u32 = 0;
    let mut k: usize = 0;
    assert(runs@.take(0).len() == 0);
    while k < runs.len()
        invariant
            k <= runs@.len(),
            range_count == all_runs(runs@.take(k as int)),
            total_rows == all_rows(runs@.take(k as int)),
        decreases runs.len() - k,
    {
        let own = &runs[k];
        proof {
            assert(runs@.take(k + 1).drop_last() =~= runs@.take(k as int));
            lemma_counts_monotone(runs@, k + 1);
        }
        if own.len() as u64 > (u32::MAX - range_count) as u64 {
            return None;
        }
        let before: u32 = total_rows;
        let mut j: usize = 0;
        assert(own@.take(0).len() == 0);
        while j < own.len()
            invariant
                k < runs@.len(),
                own@ == runs@[k as int]@,
                j <= own@.len(),
                before == all_rows(runs@.take(k as int)),
                total_rows == before + run_rows(own@.take(j as int)),
                all_rows(runs@) >= before + run_rows(own@),
            decreases own.len() - j,
        {
            proof {
                assert(own@.take(j + 1).drop_last() =~= own@.take(j as int));
                lemma_rows_monotone(own@, j + 1);
            }
            if own[j].time_count > u32::MAX - total_rows {
                return None;
            }
            total_rows = total_rows + own[j].time_count;
            j += 1;
        }
        assert(own@.take(j as int) =~= own@);
        range_count = range_count + own.len() as u32;
        k += 1;
    }
    assert(runs@.take(k as int) =~= runs@);
    Some((range_count, total_rows))
}

proof fn lemma_rows_monotone(runs: Seq<SymIndexRecord>, k: int)
    requires
        0 <= k <= runs.len(),
    ensures
        run_rows(runs.take(k)) <= run_rows(runs),
    decreases runs.len(),
{
    if k < runs.len() {
        assert(runs.drop_last().take(k) =~= runs.take(k));
        lemma_rows_monotone(runs.drop_last(), k);
    } else {
        assert(runs.take(k) =~= runs);
    }
}

proof fn lemma_counts_monotone(runs: Seq<Vec<SymIndexRecord>>, k: int)
    requires
        0 <= k <= runs.len(),
    ensures
        all_runs(runs.take(k)) <= all_runs(runs),
        all_rows(runs.take(k)) <= all_rows(runs),
    decreases runs.len(),
{
    if k < runs.len() {
        assert(runs.drop_last().take(k) =~= runs.take(k));
        lemma_counts_monotone(runs.drop_last(), k);
    } else {
        assert(runs.take(k) =~= runs);
    }
}

/// Where the numbers of a header stand in its 64 bytes, each from its least byte on.
pub proof fn law_subset_header_places(h: SubsetHeader)
    ensures
        le::le_value(h.wire().subrange(0, 8)) == h.magic,
        le::le_value(h.wire().subrange(8, 10)) == h.version,
        le::le_value(h.wire().subrange(10, 12)) == h.flags,
        h.wire()[12] == h.time_type,
        h.wire().subrange(13, 16) == h.reserved@,
        le::le_value(h.wire().subrange(16, 24)) == h.generation,
        le::le_value(h.wire().subrange(24, 32)) == h.parent_generation,
        le::le_value(h.wire().subrange(32, 36)) == h.sym_count,
        le::le_value(h.wire().subrange(36, 40)) == h.range_count,
        le::le_value(h.wire().subrange(40, 44)) == h.total_rows,
        h.wire().subrange(44, 64) == h._pad@,
        h.wire().len() == 64,
{
    h.lemma_wire_parts();
    le::lemma_le_limits();
    le::lemma_le_value_of_bytes(h.magic as nat, 8);
    le::lemma_le_value_of_bytes(h.version as nat, 2);
    le::lemma_le_value_of_bytes(h.flags as nat, 2);
    assert(h.wire().subrange(12, 13)[0] == h.time_type);
    le::lemma_le_value_of_bytes(h.generation as nat, 8);
    le::lemma_le_value_of_bytes(h.parent_generation as nat, 8);
    le::lemma_le_value_of_bytes(h.sym_count as nat, 4);
    le::lemma_le_value_of_bytes(h.range_count as nat, 4);
    le::lemma_le_value_of_bytes(h.total_rows as nat, 4);
}

/// A header is sound exactly where it starts with the format's name, has its version, and has
/// a time type that is known.
pub proof fn law_subset_header_sound(h: SubsetHeader)
    ensures
        h.fault() is None <==> h.magic == SUBSET_MAGIC && h.version == SUBSET_VERSION && (
        h.time_type == 0 || h.time_type == 1),
        h.magic != SUBSET_MAGIC ==> h.fault() == Some(SubsetFault::Magic),
        h.magic == SUBSET_MAGIC && h.version != SUBSET_VERSION ==> h.fault() == Some(
            SubsetFault::Version,
        ),
{
}

/// The runs and the rows of symbols are those of some of them and of the others; a run counts
/// the rows that it covers.
pub proof fn law_runs_add(
    a: Seq<Vec<SymIndexRecord>>,
    b: Seq<Vec<SymIndexRecord>>,
    x: Seq<SymIndexRecord>,
    y: Seq<SymIndexRecord>,
)
    ensures
        all_runs(a + b) == all_runs(a) + all_runs(b),
        all_rows(a + b) == all_rows(a) + all_rows(b),
        run_rows(x + y) == run_rows(x) + run_rows(y),
        a.len() == 1 ==> all_runs(a) == a[0]@.len() && all_rows(a) == run_rows(a[0]@),
        x.len() == 1 ==> run_rows(x) == x[0].time_count,
        x.len() == 0 ==> run_rows(x) == 0,
    decreases b.len() + y.len(),
{
    reveal_with_fuel(all_runs, 2);
    reveal_with_fuel(all_rows, 2);
    reveal_with_fuel(run_rows, 2);
    if b.len() > 0 {
        law_runs_add(a, b.drop_last(), x, y);
        assert((a + b).drop_last() =~= a + b.drop_last());
    } else if y.len() > 0 {
        law_runs_add(a, b, x, y.drop_last());
    }
    if b.len() == 0 {
        assert(a + b =~= a);
    }
    if y.len() == 0 {
        assert(x + y =~= x);
    } else {
        if b.len() > 0 {
            lemma_run_rows_add(x, y);
        }
        assert((x + y).drop_last() =~= x + y.drop_last());
    }
}

proof fn lemma_run_rows_add(x: Seq<SymIndexRecord>, y: Seq<SymIndexRecord>)
    ensures
        run_rows(x + y) == run_rows(x) + run_rows(y),
    decreases y.len(),
{
    if y.len() == 0 {
        assert(x + y =~= x);
    } else {
        lemma_run_rows_add(x, y.drop_last());
        assert((x + y).drop_last() =~= x + y.drop_last());
    }
}

/// The runs of a symbol cover exactly the times that were given for it, from its first to
/// its last, with no time twice and a gap between any two runs; and its symbols are in the
/// order of their bytes.
pub proof fn law_runs_cover_times(
    entries: Seq<(Seq<char>, SymIndexRecord)>,
    symbols: Seq<String>,
    runs: Seq<Vec<SymIndexRecord>>,
    k: int,
    i: int,
    t: int,
    p: int,
    q: int,
)
    requires
        grouped(entries, symbols, runs),
        0 <= k < symbols.len(),
        0 <= i < entries.len(),
    ensures
        entries[i].0 == symbols[k]@ && entries[i].1.time_start <= t < entries[i].1.time_start
            + entries[i].1.time_count ==> exists|n: int|
            0 <= n < runs[k]@.len() && (#[trigger] runs[k]@[n]).time_start <= t
                < runs[k]@[n].time_start + runs[k]@[n].time_count,
        0 <= p < runs[k]@.len() && runs[k]@[p].time_start <= t < runs[k]@[p].time_start
            + runs[k]@[p].time_count ==> exists|n: int|
            0 <= n < entries.len() && (#[trigger] entries[n]).0 == symbols[k]@
                && entries[n].1.time_start <= t < entries[n].1.time_start + entries[n].1.time_count,
        0 <= p < q < runs[k]@.len() ==> runs[k]@[p].time_start + runs[k]@[p].time_count
            < runs[k]@[q].time_start,
        0 <= p < k ==> text::bytes_before(
            utf8::encode_utf8(symbols[p]@),
            utf8::encode_utf8(symbols[k]@),
        ),
        exists|n: int| 0 <= n < symbols.len() && (#[trigger] symbols[n])@ == entries[i].0,
{
    let own = runs[k]@;
    assert(merged(entries, symbols[k]@, own));
    assert(names(entries, entries[i].0));
    if entries[i].0 == symbols[k]@ && entries[i].1.covers(t) {
        assert(offered(entries, symbols[k]@, t));
        assert(covered(own, t));
        let n = choose|n: int| 0 <= n < own.len() && (#[trigger] own[n]).covers(t);
        assert(own[n].time_start <= t);
    }
    if 0 <= p < own.len() && own[p].covers(t) {
        assert(covered(own, t));
        assert(offered(entries, symbols[k]@, t));
        let n = choose|n: int|
            0 <= n < entries.len() && (#[trigger] entries[n]).0 == symbols[k]@
                && entries[n].1.covers(t);
        assert(entries[n].0 == symbols[k]@);
    }
}

/// A file is read only where its header is sound, its symbols are text within it, and its runs
/// and rows are as many as its header says; a fault of the header is named before any other.
pub proof fn law_file_faults(buf: Seq<u8>, h: SubsetHeader, k: int)
    requires
        0 <= k < h.sym_count,
    ensures
        h.fault() is Some ==> file_fault(buf, h) == h.fault(),
        h.fault() is None && buf.len() < 64 + 8 * (h.sym_count + 1) ==> file_fault(buf, h) == Some(
            SubsetFault::Truncated,
        ),
        file_fault(buf, h) is None ==> {
            &&& h.range_count == runs_up_to(buf, h.sym_count as int, h.sym_count as int)
            &&& h.total_rows == rows_up_to(buf, h.sym_count as int, h.sym_count as int)
            &&& utf8::valid_utf8(symbol_at(buf, h.sym_count as int, k))
            &&& symbol_fits(buf, h.sym_count as int, k)
            &&& block_fits(buf, block_at(buf, h.sym_count as int, k))
        },
{
    let n = h.sym_count as int;
    if file_fault(buf, h) is None {
        lemma_no_fault_up_to(buf, n, 0, k);
    }
}

proof fn lemma_no_fault_up_to(buf: Seq<u8>, n: int, from: int, k: int)
    requires
        0 <= from <= k < n,
        symbols_fault(buf, n, from) is None,
        blocks_fault(buf, n, from) is None,
    ensures
        symbol_fits(buf, n, k),
        utf8::valid_utf8(symbol_at(buf, n, k)),
        block_fits(buf, block_at(buf, n, k)),
    decreases k - from,
{
    if from < k {
        lemma_no_fault_up_to(buf, n, from + 1, k);
    }
}

} // verus!

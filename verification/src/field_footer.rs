//! Footer of a field file: the least and the greatest value.

use vstd::prelude::*;
use vstd::slice::slice_subrange;
use crate::buffer;
use crate::le;
use crate::types::DataType;

verus! {

/// Bytes of a footer.
pub const FOOTER_SIZE: usize = 28;

/// First four bytes of a footer: `SFTF`.
pub const FOOTER_MAGIC: u32 = 0x4654_4653;

/// Bit of the flags byte: the footer holds statistics.
pub const FOOTER_FLAG_STATS_VALID: u8 = 1;

impl DataType {
    /// The bytes that stand for a missing value: the least signed integer, all ones
    /// for unsigned integers and booleans, the canonical NaN for floats.
    pub open spec fn sentinel(self) -> Seq<u8> {
        match self {
            DataType::Int8 => seq![0x80u8],
            DataType::Int16 => seq![0u8, 0x80],
            DataType::Int32 | DataType::Date32 => seq![0u8, 0, 0, 0x80],
            DataType::Int64 | DataType::Date64 | DataType::TimestampUs => seq![
                0u8,
                0,
                0,
                0,
                0,
                0,
                0,
                0x80,
            ],
            DataType::Bool | DataType::UInt8 => seq![0xFFu8],
            DataType::UInt16 => seq![0xFFu8, 0xFF],
            DataType::UInt32 => seq![0xFFu8, 0xFF, 0xFF, 0xFF],
            DataType::UInt64 => seq![0xFFu8, 0xFF, 0xFF, 0xFF, 0xFF, 0xFF, 0xFF, 0xFF],
            DataType::Float32 => seq![0u8, 0, 0xC0, 0x7F],
            DataType::Float64 => seq![0u8, 0, 0, 0, 0, 0, 0xF8, 0x7F],
            DataType::Utf8 => Seq::empty(),
        }
    }

    pub fn null_bytes(self) -> (bytes: &'static [u8])
        ensures
            bytes@ == self.sentinel(),
            bytes@.len() == self.width(),
    {
        let bytes: &'static [u8] = match self {
            DataType::Int8 => &[0x80u8],
            DataType::Int16 => &[0u8, 0x80],
            DataType::Int32 | DataType::Date32 => &[0u8, 0, 0, 0x80],
            DataType::Int64 | DataType::Date64 | DataType::TimestampUs => &[
                0u8,
                0,
                0,
                0,
                0,
                0,
                0,
                0x80,
            ],
            DataType::Bool | DataType::UInt8 => &[0xFFu8],
            DataType::UInt16 => &[0xFFu8, 0xFF],
            DataType::UInt32 => &[0xFFu8, 0xFF, 0xFF, 0xFF],
            DataType::UInt64 => &[0xFFu8, 0xFF, 0xFF, 0xFF, 0xFF, 0xFF, 0xFF, 0xFF],
            DataType::Float32 => &[0u8, 0, 0xC0, 0x7F],
            DataType::Float64 => &[0u8, 0, 0, 0, 0, 0, 0xF8, 0x7F],
            DataType::Utf8 => &[],
        };
        assert(bytes@ =~= self.sentinel());
        bytes
    }
}

/// How many numbers fit the type's width.
pub open spec fn span(t: DataType) -> nat {
    le::le_limit(t.width())
}

/// The size of a float without its sign.
pub open spec fn magnitude(t: DataType, bits: nat) -> nat {
    bits % (span(t) / 2)
}

/// The bits are those of a float that is no number.
pub open spec fn is_nan(t: DataType, bits: nat) -> bool {
    match t {
        DataType::Float32 => magnitude(t, bits) > 0x7F80_0000,
        DataType::Float64 => magnitude(t, bits) > 0x7FF0_0000_0000_0000,
        _ => false,
    }
}

/// A number by which the values of a type are ordered: the value itself, or for a
/// float its size with its sign.
pub open spec fn rank(t: DataType, bits: nat) -> int {
    if t is Float32 || t is Float64 {
        if bits < span(t) / 2 {
            magnitude(t, bits) as int
        } else {
            -magnitude(t, bits)
        }
    } else if t.signed_int() && bits >= span(t) / 2 {
        bits - span(t)
    } else {
        bits as int
    }
}

/// The eight bytes in which a footer keeps a value: its own, behind them the sign of a
/// signed integer and else zeros.
pub open spec fn slot(t: DataType, bits: nat) -> Seq<u8> {
    le::le_bytes(
        if t.signed_int() && bits >= span(t) / 2 {
            (bits + 0x1_0000_0000_0000_0000 - span(t)) as nat
        } else {
            bits
        },
        8,
    )
}

/// The bits of row `r`.
pub open spec fn row_bits(t: DataType, data: Seq<u8>, r: int) -> nat {
    le::le_value(buffer::group(data, r, t.width()))
}

/// Row `r` is there and holds no missing value.
pub open spec fn present(t: DataType, data: Seq<u8>, r: int) -> bool {
    0 <= r < data.len() / t.width() && buffer::group(data, r, t.width()) != t.sentinel()
}

/// Row `r` is there and holds a number.
pub open spec fn numeric(t: DataType, data: Seq<u8>, r: int) -> bool {
    present(t, data, r) && !is_nan(t, row_bits(t, data, r))
}

/// Row `r` has the least value; it is no number only if none is.
pub open spec fn least(t: DataType, data: Seq<u8>, r: int) -> bool {
    &&& present(t, data, r)
    &&& forall|k: int|
        #[trigger] numeric(t, data, k) ==> numeric(t, data, r) && rank(t, row_bits(t, data, r))
            <= rank(t, row_bits(t, data, k))
}

/// Row `r` has the greatest value; it is no number only if none is.
pub open spec fn greatest(t: DataType, data: Seq<u8>, r: int) -> bool {
    &&& present(t, data, r)
    &&& forall|k: int|
        #[trigger] numeric(t, data, k) ==> numeric(t, data, r) && rank(t, row_bits(t, data, k))
            <= rank(t, row_bits(t, data, r))
}

/// The bits of one value.
fn read_bits(chunk: &[u8]) -> (bits: u64)
    requires
        chunk@.len() == 1 || chunk@.len() == 2 || chunk@.len() == 4 || chunk@.len() == 8,
    ensures
        bits == le::le_value(chunk@),
{
    let n: usize = chunk.len();
    assert(chunk@.subrange(0, n as int) =~= chunk@);
    if n == 1 {
        proof {
            reveal_with_fuel(le::le_value, 2);
        }
        chunk[0] as u64
    } else if n == 2 {
        le::get_u16(chunk, 0) as u64
    } else if n == 4 {
        le::get_u32(chunk, 0) as u64
    } else {
        le::get_u64(chunk, 0)
    }
}

/// Half of what fits the type's width: the weight of its highest bit.
fn half_span(t: DataType) -> (half: u64)
    requires
        t !is Utf8,
    ensures
        half == span(t) / 2,
        2 * half == span(t),
        half > 0,
{
    proof {
        le::lemma_le_limits();
    }
    match t.size_of() {
        1 => 0x80,
        2 => 0x8000,
        4 => 0x8000_0000,
        _ => 0x8000_0000_0000_0000,
    }
}

fn is_nan_bits(t: DataType, bits: u64) -> (yes: bool)
    requires
        t !is Utf8,
    ensures
        yes == is_nan(t, bits as nat),
{
    let size: u64 = bits % half_span(t);
    match t {
        DataType::Float32 => size > 0x7F80_0000,
        DataType::Float64 => size > 0x7FF0_0000_0000_0000,
        _ => false,
    }
}

fn rank_bits(t: DataType, bits: u64) -> (r: i128)
    requires
        t !is Utf8,
        bits < span(t),
    ensures
        r == rank(t, bits as nat),
{
    let half: u64 = half_span(t);
    proof {
        le::lemma_le_limits();
    }
    match t {
        DataType::Float32 | DataType::Float64 => {
            let size: u64 = bits % half;
            if bits < half {
                size as i128
            } else {
                -(size as i128)
            }
        },
        _ => {
            if t.is_signed_int() && bits >= half {
                bits as i128 - half as i128 - half as i128
            } else {
                bits as i128
            }
        },
    }
}

/// The eight bytes of a `u64`, as an array.
fn array_8(value: u64) -> (array: [u8; 8])
    ensures
        array@ == le::le_bytes(value as nat, 8),
{
    broadcast use le::lemma_le_bytes_len;

    let mut out: Vec<u8> = Vec::new();
    le::put_u64(&mut out, value);
    let array: [u8; 8] = [out[0], out[1], out[2], out[3], out[4], out[5], out[6], out[7]];
    assert(array@ =~= out@);
    array
}

fn slot_bytes(t: DataType, bits: u64) -> (array: [u8; 8])
    requires
        t !is Utf8,
        bits < span(t),
    ensures
        array@ == slot(t, bits as nat),
{
    let half: u64 = half_span(t);
    proof {
        le::lemma_le_limits();
    }
    if t.is_signed_int() && bits >= half {
        let above: u64 = 0xFFFF_FFFF_FFFF_FFFF - half - (half - 1);
        array_8(bits + above)
    } else {
        array_8(bits)
    }
}

/// Compares byte strings.
fn same_bytes(a: &[u8], b: &[u8]) -> (yes: bool)
    ensures
        yes == (a@ == b@),
{
    match crate::text::relate_bytes(a, b) {
        crate::text::Relation::Same => true,
        _ => {
            proof {
                crate::text::lemma_bytes_before_order(a@, b@);
                crate::text::lemma_bytes_before_order(b@, a@);
            }
            false
        },
    }
}

/// The least and the greatest value among the rows that hold one; nothing where none
/// does.  A float that is no number counts only where no row holds a number.
pub fn compute_stats(data_type: DataType, data: &[u8]) -> (r: Option<([u8; 8], [u8; 8])>)
    ensures
        match r {
            Some((min, max)) => {
                &&& data_type !is Utf8
                &&& exists|i: int|
                    #[trigger] least(data_type, data@, i) && min@ == slot(
                        data_type,
                        row_bits(data_type, data@, i),
                    )
                &&& exists|i: int|
                    #[trigger] greatest(data_type, data@, i) && max@ == slot(
                        data_type,
                        row_bits(data_type, data@, i),
                    )
            },
            None => data_type is Utf8 || forall|i: int| !(#[trigger] present(data_type, data@, i)),
        },
{
    let w: usize = data_type.size_of();
    if w == 0 {
        return None;
    }
    let nulls = data_type.null_bytes();
    let rows: usize = data.len() / w;
    let mut min: Option<u64> = None;
    let mut max: Option<u64> = None;
    let ghost mut at: (int, int) = (0, 0);
    let mut k: usize = 0;
    while k < rows
        invariant
            k <= rows,
            data_type !is Utf8,
            w == data_type.width(),
            w == 1 || w == 2 || w == 4 || w == 8,
            rows == data@.len() / (w as nat),
            nulls@ == data_type.sentinel(),
            min is None == max is None,
            min is None ==> forall|i: int| 0 <= i < k ==> !(#[trigger] present(data_type, data@, i)),
            min matches Some(bits) ==> {
                &&& bits == row_bits(data_type, data@, at.0)
                &&& bits < span(data_type)
                &&& at.0 < k
                &&& present(data_type, data@, at.0)
                &&& forall|i: int|
                    0 <= i < k && #[trigger] numeric(data_type, data@, i) ==> numeric(
                        data_type,
                        data@,
                        at.0,
                    ) && rank(data_type, bits as nat) <= rank(
                        data_type,
                        row_bits(data_type, data@, i),
                    )
            },
            max matches Some(bits) ==> {
                &&& bits == row_bits(data_type, data@, at.1)
                &&& bits < span(data_type)
                &&& at.1 < k
                &&& present(data_type, data@, at.1)
                &&& forall|i: int|
                    0 <= i < k && #[trigger] numeric(data_type, data@, i) ==> numeric(
                        data_type,
                        data@,
                        at.1,
                    ) && rank(data_type, row_bits(data_type, data@, i)) <= rank(
                        data_type,
                        bits as nat,
                    )
            },
        decreases rows - k,
    {
        proof {
            assert(0 <= k * w && (k + 1) * w == k * w + w && (k + 1) * w <= data@.len())
                by (nonlinear_arith)
                requires
                    0 <= k < rows,
                    rows == data@.len() / (w as nat),
                    w > 0,
            ;
        }
        assert(data@.len() == data.len());
        let chunk = slice_subrange(data, k * w, k * w + w);
        assert(chunk@ == buffer::group(data@, k as int, w as nat));
        if !same_bytes(chunk, nulls) {
            let bits: u64 = read_bits(chunk);
            proof {
                le::lemma_le_bytes_of_value(chunk@);
                assert(present(data_type, data@, k as int));
                assert(bits == row_bits(data_type, data@, k as int));
            }
            let nan: bool = is_nan_bits(data_type, bits);
            let lower: bool = match min {
                Some(m) => !nan && (is_nan_bits(data_type, m) || rank_bits(data_type, bits)
                    < rank_bits(data_type, m)),
                None => true,
            };
            let higher: bool = match max {
                Some(m) => !nan && (is_nan_bits(data_type, m) || rank_bits(data_type, bits)
                    > rank_bits(data_type, m)),
                None => true,
            };
            if lower {
                min = Some(bits);
                proof {
                    at = (k as int, at.1);
                }
            }
            if higher {
                max = Some(bits);
                proof {
                    at = (at.0, k as int);
                }
            }
        }
        k += 1;
    }
    match (min, max) {
        (Some(lo), Some(hi)) => {
            assert(least(data_type, data@, at.0));
            assert(greatest(data_type, data@, at.1));
            Some((slot_bytes(data_type, lo), slot_bytes(data_type, hi)))
        },
        _ => None,
    }
}

/// The 28 bytes of a footer.
pub open spec fn footer_wire(stats: Option<(Seq<u8>, Seq<u8>)>) -> Seq<u8> {
    le::le_bytes(FOOTER_MAGIC as nat, 4) + seq![
        1u8,
        if stats is Some {
            FOOTER_FLAG_STATS_VALID
        } else {
            0u8
        },
        0u8,
        0u8,
    ] + match stats {
        Some((min, max)) => min + max,
        None => Seq::new(16, |i: int| 0u8),
    } + le::le_bytes(28, 4)
}

/// The slots of statistics.
pub open spec fn slots_of(stats: Option<([u8; 8], [u8; 8])>) -> Option<(Seq<u8>, Seq<u8>)> {
    match stats {
        Some((min, max)) => Some((min@, max@)),
        None => None,
    }
}

/// Writes a footer.
pub fn encode_footer(stats: Option<([u8; 8], [u8; 8])>) -> (f: [u8; 28])
    ensures
        f@ == footer_wire(slots_of(stats)),
{
    broadcast use le::lemma_le_bytes_len;

    let mut out: Vec<u8> = Vec::new();
    le::put_u32(&mut out, FOOTER_MAGIC);
    out.push(1);
    match stats {
        Some(_) => {
            out.push(FOOTER_FLAG_STATS_VALID);
        },
        None => {
            out.push(0);
        },
    }
    out.push(0);
    out.push(0);
    match stats {
        Some((min, max)) => {
            out.extend_from_slice(min.as_slice());
            out.extend_from_slice(max.as_slice());
        },
        None => {
            let zeros: [u8; 16] = [0; 16];
            out.extend_from_slice(zeros.as_slice());
        },
    }
    le::put_u32(&mut out, 28);
    assert(out@ =~= footer_wire(slots_of(stats)));
    let mut f: [u8; 28] = [0; 28];
    let mut k: usize = 0;
    while k < 28
        invariant
            k <= 28,
            out@.len() == 28,
            forall|i: int| 0 <= i < k ==> f@[i] == out@[i],
        decreases 28 - k,
    {
        f[k] = out[k];
        k += 1;
    }
    assert(f@ =~= out@);
    f
}

/// The bytes are those of a footer.
pub open spec fn is_footer(bytes: Seq<u8>) -> bool {
    &&& bytes.len() == 28
    &&& le::le_value(bytes.subrange(0, 4)) == FOOTER_MAGIC
    &&& le::le_value(bytes.subrange(24, 28)) == 28
}

/// Reads a footer: whether it holds statistics, and its two slots.
pub fn parse_footer(bytes: &[u8]) -> (r: Option<(bool, [u8; 8], [u8; 8])>)
    ensures
        match r {
            Some((valid, min, max)) => {
                &&& is_footer(bytes@)
                &&& valid == (bytes@[5] & FOOTER_FLAG_STATS_VALID != 0)
                &&& min@ == bytes@.subrange(8, 16)
                &&& max@ == bytes@.subrange(16, 24)
            },
            None => !is_footer(bytes@),
        },
{
    if bytes.len() != FOOTER_SIZE {
        return None;
    }
    if le::get_u32(bytes, 0) != FOOTER_MAGIC {
        return None;
    }
    if le::get_u32(bytes, 24) != 28 {
        return None;
    }
    let valid: bool = bytes[5] & FOOTER_FLAG_STATS_VALID != 0;
    let min: [u8; 8] = [
        bytes[8],
        bytes[9],
        bytes[10],
        bytes[11],
        bytes[12],
        bytes[13],
        bytes[14],
        bytes[15],
    ];
    let max: [u8; 8] = [
        bytes[16],
        bytes[17],
        bytes[18],
        bytes[19],
        bytes[20],
        bytes[21],
        bytes[22],
        bytes[23],
    ];
    assert(min@ =~= bytes@.subrange(8, 16));
    assert(max@ =~= bytes@.subrange(16, 24));
    Some((valid, min, max))
}

/// Integers are ordered as the numbers that their bytes spell.
pub proof fn law_integers_in_order(t: DataType, bytes: Seq<u8>)
    requires
        bytes.len() == t.width(),
    ensures
        t is Int8 || t is Int16 || t is Int32 || t is Int64 || t is Date32 || t is Date64
            || t is TimestampUs ==> rank(t, le::le_value(bytes)) == le::le_signed(bytes),
        t is Bool || t is UInt8 || t is UInt16 || t is UInt32 || t is UInt64 ==> rank(
            t,
            le::le_value(bytes),
        ) == le::le_value(bytes),
{
    le::lemma_le_limits();
    le::lemma_le_bytes_of_value(bytes);
}

/// The bytes that mark a missing value are those of the least signed integer, of the
/// greatest unsigned one, or of a float that is no number.
pub proof fn law_missing_values(t: DataType)
    ensures
        t.sentinel().len() == t.width(),
        t is Int8 || t is Int16 || t is Int32 || t is Int64 || t is Date32 || t is Date64
            || t is TimestampUs ==> 2 * le::le_signed(t.sentinel()) == -le::le_limit(t.width()),
        t is Bool || t is UInt8 || t is UInt16 || t is UInt32 || t is UInt64 ==> le::le_value(
            t.sentinel(),
        ) + 1 == le::le_limit(t.width()),
        t is Float32 || t is Float64 ==> is_nan(t, le::le_value(t.sentinel())),
{
    let s = t.sentinel();
    le::lemma_le_limits();
    reveal_with_fuel(le::le_value, 9);
    let n = s.len();
    if n >= 2 {
        assert(s.drop_first() =~= s.skip(1));
        assert(s.skip(1).drop_first() =~= s.skip(2));
    }
    if n >= 4 {
        assert(s.skip(2).drop_first() =~= s.skip(3));
        assert(s.skip(3).drop_first() =~= s.skip(4));
    }
    if n >= 8 {
        assert(s.skip(4).drop_first() =~= s.skip(5));
        assert(s.skip(5).drop_first() =~= s.skip(6));
        assert(s.skip(6).drop_first() =~= s.skip(7));
        assert(s.skip(7).drop_first() =~= s.skip(8));
    }
    if t is Float32 || t is Float64 {
        law_no_numbers(le::le_value(s));
    }
}

/// The bounds of a field of integers: no row that holds a value lies outside them.
pub proof fn law_integers_bounded(t: DataType, data: Seq<u8>, i: int, j: int, k: int)
    requires
        t !is Utf8 && t !is Float32 && t !is Float64,
        least(t, data, i),
        greatest(t, data, j),
        present(t, data, k),
    ensures
        ({
            let w = t.width();
            let (lo, v, hi) = (
                buffer::group(data, i, w),
                buffer::group(data, k, w),
                buffer::group(data, j, w),
            );
            if t is Int8 || t is Int16 || t is Int32 || t is Int64 || t is Date32 || t is Date64
                || t is TimestampUs {
                le::le_signed(lo) <= le::le_signed(v) <= le::le_signed(hi)
            } else {
                le::le_value(lo) <= le::le_value(v) <= le::le_value(hi)
            }
        }),
{
    assert(numeric(t, data, k));
    lemma_group_len(t, data, i);
    lemma_group_len(t, data, j);
    lemma_group_len(t, data, k);
    law_integers_in_order(t, buffer::group(data, i, t.width()));
    law_integers_in_order(t, buffer::group(data, j, t.width()));
    law_integers_in_order(t, buffer::group(data, k, t.width()));
}

/// The bytes of a row that is there are as many as its type takes.
proof fn lemma_group_len(t: DataType, data: Seq<u8>, r: int)
    requires
        t !is Utf8,
        present(t, data, r),
    ensures
        buffer::group(data, r, t.width()).len() == t.width(),
{
    let w = t.width() as int;
    assert(0 <= r * w && (r + 1) * w <= data.len() && (r + 1) * w == r * w + w) by (nonlinear_arith)
        requires
            0 <= r < data.len() / (w as nat),
            w > 0,
    ;
}

/// A slot begins with the bytes of its value, and read as a whole it is the same number.
pub proof fn law_slot_keeps_value(t: DataType, bytes: Seq<u8>)
    requires
        t !is Utf8,
        bytes.len() == t.width(),
    ensures
        slot(t, le::le_value(bytes)).len() == 8,
        slot(t, le::le_value(bytes)).take(t.width() as int) == bytes,
        t is Int8 || t is Int16 || t is Int32 || t is Int64 || t is Date32 || t is Date64
            || t is TimestampUs ==> le::le_signed(slot(t, le::le_value(bytes))) == le::le_signed(
            bytes,
        ),
        t is Bool || t is UInt8 || t is UInt16 || t is UInt32 || t is UInt64 || t is Float32
            || t is Float64 ==> le::le_value(slot(t, le::le_value(bytes))) == le::le_value(bytes),
{
    broadcast use le::lemma_le_bytes_len;

    le::lemma_le_limits();
    le::lemma_le_bytes_of_value(bytes);
    let v = le::le_value(bytes);
    let whole = if t.signed_int() && v >= span(t) / 2 {
        (v + 0x1_0000_0000_0000_0000 - span(t)) as nat
    } else {
        v
    };
    le::lemma_le_value_of_bytes(whole, 8);
    assert(whole % span(t) == v) by {
        let big = 0x1_0000_0000_0000_0000nat;
        if whole != v {
            assert((v + (big - span(t))) % (span(t) as int) == v) by {
                vstd::arithmetic::div_mod::lemma_small_mod(v, span(t));
                if t.width() == 1 {
                    assert((v + (big - 0x100)) % 0x100 == v);
                } else if t.width() == 2 {
                    assert((v + (big - 0x1_0000)) % 0x1_0000 == v);
                } else if t.width() == 4 {
                    assert((v + (big - 0x1_0000_0000)) % 0x1_0000_0000 == v);
                }
            }
        } else {
            vstd::arithmetic::div_mod::lemma_small_mod(v, span(t));
        }
    }
    lemma_low_bytes(whole, v, 8, t.width());
}

/// The first bytes of a number are those of its remainder.
proof fn lemma_low_bytes(whole: nat, v: nat, n: nat, width: nat)
    requires
        width <= n,
        v == whole % le::le_limit(width),
    ensures
        le::le_bytes(whole, n).take(width as int) == le::le_bytes(v, width),
    decreases width,
{
    broadcast use le::lemma_le_bytes_len;

    if width == 0 {
        assert(le::le_bytes(whole, n).take(0) =~= le::le_bytes(v, 0));
    } else {
        let part = le::le_limit((width - 1) as nat);
        lemma_limit_positive((width - 1) as nat);
        vstd::arithmetic::div_mod::lemma_mod_breakdown(whole as int, 256, part as int);
        let rest = (whole / 256) % part;
        assert(v == 256 * rest + whole % 256);
        lemma_low_bytes(whole / 256, rest, (n - 1) as nat, (width - 1) as nat);
        let (all, tail) = (le::le_bytes(whole, n), le::le_bytes(whole / 256, (n - 1) as nat));
        assert(all.take(width as int) =~= seq![(whole % 256) as u8] + tail.take(width - 1));
        assert(v / 256 == rest && v % 256 == whole % 256);
    }
}

proof fn lemma_limit_positive(width: nat)
    ensures
        le::le_limit(width) > 0,
    decreases width,
{
    if width > 0 {
        lemma_limit_positive((width - 1) as nat);
    }
}

/// The weight of the sign bit of a float.
pub open spec fn sign_weight(t: DataType) -> nat {
    if t is Float32 {
        0x8000_0000
    } else {
        0x8000_0000_0000_0000
    }
}

/// Floats are ordered by value: those without a sign by their bits; a change of sign turns
/// the order round, so of two negative floats the one of larger size is the lesser; every
/// float with a sign is at most zero; and the two zeros are equal.
pub proof fn law_floats_in_order(t: DataType, a: nat, b: nat)
    requires
        t is Float32 || t is Float64,
        a < sign_weight(t),
        b < sign_weight(t),
    ensures
        a < b ==> rank(t, a) < rank(t, b),
        rank(t, a + sign_weight(t)) == -rank(t, a),
        a < b ==> rank(t, b + sign_weight(t)) < rank(t, a + sign_weight(t)),
        rank(t, a + sign_weight(t)) <= rank(t, b),
        rank(t, 0) == rank(t, sign_weight(t)),
{
    le::lemma_le_limits();
    let half = sign_weight(t);
    assert(span(t) / 2 == half);
    assert(a % half == a && b % half == b) by (nonlinear_arith)
        requires
            a < half,
            b < half,
    ;
    assert((a + half) % half == a && (b + half) % half == b)
        by (nonlinear_arith)
        requires
            a < half,
            b < half,
    ;
    assert(half % half == 0 && 0nat % half == 0) by (nonlinear_arith)
        requires
            half > 0,
    ;
}

/// A float is no number where all bits of its exponent are set and its fraction is not
/// zero, whatever its sign.
pub proof fn law_no_numbers(bits: nat)
    ensures
        bits < 0x1_0000_0000 ==> is_nan(DataType::Float32, bits) == ((bits / 0x80_0000) % 0x100
            == 0xFF && bits % 0x80_0000 != 0),
        bits < 0x1_0000_0000_0000_0000 ==> is_nan(DataType::Float64, bits) == ((bits
            / 0x10_0000_0000_0000) % 0x800 == 0x7FF && bits % 0x10_0000_0000_0000 != 0),
{
    lemma_single_parts(bits);
    lemma_double_parts(bits);
}

/// The size of a float of 4 bytes: 8 bits of exponent above 23 of fraction.
proof fn lemma_single_parts(bits: nat)
    ensures
        is_nan(DataType::Float32, bits) == ((bits / 0x80_0000) % 0x100 == 0xFF && bits % 0x80_0000
            != 0),
{
    le::lemma_le_limits();
    vstd::arithmetic::div_mod::lemma_mod_breakdown(bits as int, 0x80_0000, 0x100);
    let (exponent, fraction) = ((bits / 0x80_0000) % 0x100, bits % 0x80_0000);
    let size = magnitude(DataType::Float32, bits);
    assert(size == 0x80_0000 * exponent + fraction);
    lemma_top_exponent(size as int, exponent as int, fraction as int, 0x80_0000, 0x100);
}

/// The size of a float of 8 bytes: 11 bits of exponent above 52 of fraction.
proof fn lemma_double_parts(bits: nat)
    ensures
        is_nan(DataType::Float64, bits) == ((bits / 0x10_0000_0000_0000) % 0x800 == 0x7FF && bits
            % 0x10_0000_0000_0000 != 0),
{
    le::lemma_le_limits();
    vstd::arithmetic::div_mod::lemma_mod_breakdown(bits as int, 0x10_0000_0000_0000, 0x800);
    let (exponent, fraction) = ((bits / 0x10_0000_0000_0000) % 0x800, bits % 0x10_0000_0000_0000);
    let size = magnitude(DataType::Float64, bits);
    assert(size == 0x10_0000_0000_0000 * exponent + fraction);
    lemma_top_exponent(size as int, exponent as int, fraction as int, 0x10_0000_0000_0000, 0x800);
}

/// A size lies above that of the greatest exponent alone just where it has that exponent and
/// a fraction.
proof fn lemma_top_exponent(size: int, exponent: int, fraction: int, unit: int, count: int)
    requires
        size == unit * exponent + fraction,
        0 <= fraction < unit,
        0 <= exponent < count,
    ensures
        size > unit * (count - 1) <==> exponent == count - 1 && fraction != 0,
{
    assert(size > unit * (count - 1) <==> exponent == count - 1 && fraction != 0)
        by (nonlinear_arith)
        requires
            size == unit * exponent + fraction,
            0 <= fraction < unit,
            0 <= exponent < count,
    ;
}

/// What was written into a footer is read back from it.
pub proof fn law_footer_roundtrip(stats: Option<(Seq<u8>, Seq<u8>)>)
    requires
        stats matches Some((min, max)) ==> min.len() == 8 && max.len() == 8,
    ensures
        is_footer(footer_wire(stats)),
        (footer_wire(stats)[5] & FOOTER_FLAG_STATS_VALID != 0) == (stats is Some),
        stats matches Some((min, max)) ==> footer_wire(stats).subrange(8, 16) == min && footer_wire(
            stats,
        ).subrange(16, 24) == max,
{
    broadcast use le::lemma_le_bytes_len;

    let f = footer_wire(stats);
    le::lemma_le_limits();
    le::lemma_le_value_of_bytes(FOOTER_MAGIC as nat, 4);
    le::lemma_le_value_of_bytes(28, 4);
    assert(f.subrange(0, 4) =~= le::le_bytes(FOOTER_MAGIC as nat, 4));
    assert(f.subrange(24, 28) =~= le::le_bytes(28, 4));
    assert(1u8 & 1u8 != 0u8 && 0u8 & 1u8 == 0u8) by (bit_vector);
    if let Some((min, max)) = stats {
        assert(f.subrange(8, 16) =~= min);
        assert(f.subrange(16, 24) =~= max);
    }
}

/// A footer whose magic is overwritten with zeros is no footer any more.
pub proof fn law_footer_invalidated(g: Seq<u8>)
    requires
        g.len() == 28,
        forall|i: int| 0 <= i < 4 ==> g[i] == 0,
    ensures
        !is_footer(g),
{
    let m = g.subrange(0, 4);
    reveal_with_fuel(le::le_value, 5);
    assert(m.drop_first()[0] == 0);
    assert(m.drop_first().drop_first()[0] == 0);
    assert(m.drop_first().drop_first().drop_first()[0] == 0);
}

/// The bounds of floats: as soon as one value is there that is a number, both bounds are
/// numbers, and no value that is one lies outside them; a value is there where its bytes are
/// not those that stand for a missing one.
pub proof fn law_floats_bounded(t: DataType, data: Seq<u8>, i: int, j: int, k: int)
    requires
        t is Float32 || t is Float64,
        least(t, data, i),
        greatest(t, data, j),
        0 <= k < data.len() / t.width(),
        buffer::group(data, k, t.width()) != t.sentinel(),
        !is_nan(t, le::le_value(buffer::group(data, k, t.width()))),
    ensures
        !is_nan(t, le::le_value(buffer::group(data, i, t.width()))),
        !is_nan(t, le::le_value(buffer::group(data, j, t.width()))),
        rank(t, le::le_value(buffer::group(data, i, t.width()))) <= rank(
            t,
            le::le_value(buffer::group(data, k, t.width())),
        ),
        rank(t, le::le_value(buffer::group(data, k, t.width()))) <= rank(
            t,
            le::le_value(buffer::group(data, j, t.width())),
        ),
        0 <= i < data.len() / t.width() && buffer::group(data, i, t.width()) != t.sentinel(),
        0 <= j < data.len() / t.width() && buffer::group(data, j, t.width()) != t.sentinel(),
{
    assert(numeric(t, data, k));
}

} // verus!

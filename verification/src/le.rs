//! Little-endian integers.

use vstd::prelude::*;
use vstd::slice::slice_subrange;

verus! {

/// The number that `bytes` spells, least significant byte first.
pub open spec fn le_value(bytes: Seq<u8>) -> nat
    decreases bytes.len(),
{
    if bytes.len() == 0 {
        0
    } else {
        bytes[0] as nat + 256 * le_value(bytes.drop_first())
    }
}

/// The `width` low bytes of `value`, least significant byte first.
pub open spec fn le_bytes(value: nat, width: nat) -> Seq<u8>
    decreases width,
{
    if width == 0 {
        Seq::empty()
    } else {
        seq![(value % 256) as u8] + le_bytes(value / 256, (width - 1) as nat)
    }
}

/// 256 to the power `width`: the count of numbers that fit `width` bytes.
pub open spec fn le_limit(width: nat) -> nat
    decreases width,
{
    if width == 0 {
        1
    } else {
        256 * le_limit((width - 1) as nat)
    }
}

/// The number that `bytes` spell when their highest bit is a sign.
pub open spec fn le_signed(bytes: Seq<u8>) -> int {
    if le_value(bytes) >= le_limit(bytes.len()) / 2 {
        le_value(bytes) - le_limit(bytes.len())
    } else {
        le_value(bytes) as int
    }
}

/// `le_bytes` yields exactly `width` bytes.
pub broadcast proof fn lemma_le_bytes_len(value: nat, width: nat)
    ensures
        #[trigger] le_bytes(value, width).len() == width,
    decreases width,
{
    if width > 0 {
        lemma_le_bytes_len(value / 256, (width - 1) as nat);
    }
}

/// Reading back what was written gives the number again.
pub proof fn lemma_le_value_of_bytes(value: nat, width: nat)
    requires
        value < le_limit(width),
    ensures
        le_value(le_bytes(value, width)) == value,
    decreases width,
{
    if width > 0 {
        let rest = le_bytes(value / 256, (width - 1) as nat);
        let all = le_bytes(value, width);
        assert(value / 256 < le_limit((width - 1) as nat));
        lemma_le_value_of_bytes(value / 256, (width - 1) as nat);
        assert(all.drop_first() =~= rest);
    }
}

/// Writing what was read gives the bytes again.
pub proof fn lemma_le_bytes_of_value(bytes: Seq<u8>)
    ensures
        le_bytes(le_value(bytes), bytes.len()) == bytes,
        le_value(bytes) < le_limit(bytes.len()),
    decreases bytes.len(),
{
    if bytes.len() > 0 {
        let rest = bytes.drop_first();
        lemma_le_bytes_of_value(rest);
        let v = le_value(rest);
        assert((bytes[0] as nat + 256 * v) % 256 == bytes[0] as nat);
        assert((bytes[0] as nat + 256 * v) / 256 == v);
        assert(seq![bytes[0]] + rest =~= bytes);
    }
}

/// Two numbers that fit `width` bytes and are written alike are equal.
pub proof fn lemma_le_bytes_injective(a: nat, b: nat, width: nat)
    requires
        a < le_limit(width),
        b < le_limit(width),
        le_bytes(a, width) == le_bytes(b, width),
    ensures
        a == b,
{
    lemma_le_value_of_bytes(a, width);
    lemma_le_value_of_bytes(b, width);
}

/// How many numbers fit the widths that the formats use.
pub proof fn lemma_le_limits()
    ensures
        le_limit(1) == 0x100,
        le_limit(2) == 0x1_0000,
        le_limit(4) == 0x1_0000_0000,
        le_limit(8) == 0x1_0000_0000_0000_0000,
{
    reveal_with_fuel(le_limit, 9);
}

/// Sequences that agree up to `mid` and from there to `hi` agree up to `hi`.
pub proof fn lemma_extend_equal(a: Seq<u8>, b: Seq<u8>, mid: int, hi: int)
    requires
        0 <= mid <= hi <= a.len(),
        hi <= b.len(),
        a.take(mid) == b.take(mid),
        a.subrange(mid, hi) == b.subrange(mid, hi),
    ensures
        a.take(hi) == b.take(hi),
{
    assert(a.take(hi) =~= a.take(mid) + a.subrange(mid, hi));
    assert(b.take(hi) =~= b.take(mid) + b.subrange(mid, hi));
}

/// `bytemuck::bytes_of` on a `u64` put in little-endian order: its eight bytes
/// in memory, which `u64::to_le` makes the little-endian ones on every target.
#[verifier::external_body]
fn bytes_of_u64(value: u64) -> (bytes: Vec<u8>)
    ensures
        bytes@ == le_bytes(value as nat, 8),
{
    bytemuck::bytes_of(&value.to_le()).to_vec()
}

/// `bytemuck::bytes_of` on a `u32` put in little-endian order.
#[verifier::external_body]
fn bytes_of_u32(value: u32) -> (bytes: Vec<u8>)
    ensures
        bytes@ == le_bytes(value as nat, 4),
{
    bytemuck::bytes_of(&value.to_le()).to_vec()
}

/// `bytemuck::bytes_of` on a `u16` put in little-endian order.
#[verifier::external_body]
fn bytes_of_u16(value: u16) -> (bytes: Vec<u8>)
    ensures
        bytes@ == le_bytes(value as nat, 2),
{
    bytemuck::bytes_of(&value.to_le()).to_vec()
}

/// `bytemuck::pod_read_unaligned` of eight bytes as a `u64` held in
/// little-endian order; it panics on any other length.
#[verifier::external_body]
fn pod_read_u64(bytes: &[u8]) -> (value: u64)
    requires
        bytes@.len() == 8,
    ensures
        value == le_value(bytes@),
{
    u64::from_le(bytemuck::pod_read_unaligned(bytes))
}

/// `bytemuck::pod_read_unaligned` of four bytes as a `u32` held in
/// little-endian order; it panics on any other length.
#[verifier::external_body]
fn pod_read_u32(bytes: &[u8]) -> (value: u32)
    requires
        bytes@.len() == 4,
    ensures
        value == le_value(bytes@),
{
    u32::from_le(bytemuck::pod_read_unaligned(bytes))
}

/// `bytemuck::pod_read_unaligned` of two bytes as a `u16` held in
/// little-endian order; it panics on any other length.
#[verifier::external_body]
fn pod_read_u16(bytes: &[u8]) -> (value: u16)
    requires
        bytes@.len() == 2,
    ensures
        value == le_value(bytes@),
{
    u16::from_le(bytemuck::pod_read_unaligned(bytes))
}

/// Appends the eight bytes of `value`.
pub fn put_u64(out: &mut Vec<u8>, value: u64)
    ensures
        final(out)@ == old(out)@ + le_bytes(value as nat, 8),
{
    let mut bytes = bytes_of_u64(value);
    out.append(&mut bytes);
}

/// Appends the four bytes of `value`.
pub fn put_u32(out: &mut Vec<u8>, value: u32)
    ensures
        final(out)@ == old(out)@ + le_bytes(value as nat, 4),
{
    let mut bytes = bytes_of_u32(value);
    out.append(&mut bytes);
}

/// Appends the two bytes of `value`.
pub fn put_u16(out: &mut Vec<u8>, value: u16)
    ensures
        final(out)@ == old(out)@ + le_bytes(value as nat, 2),
{
    let mut bytes = bytes_of_u16(value);
    out.append(&mut bytes);
}

/// The `u64` at byte `at`.
pub fn get_u64(bytes: &[u8], at: usize) -> (value: u64)
    requires
        at + 8 <= bytes.len(),
    ensures
        value == le_value(bytes@.subrange(at as int, at + 8)),
{
    pod_read_u64(slice_subrange(bytes, at, at + 8))
}

/// The `u32` at byte `at`.
pub fn get_u32(bytes: &[u8], at: usize) -> (value: u32)
    requires
        at + 4 <= bytes.len(),
    ensures
        value == le_value(bytes@.subrange(at as int, at + 4)),
{
    pod_read_u32(slice_subrange(bytes, at, at + 4))
}

/// The `u16` at byte `at`.
pub fn get_u16(bytes: &[u8], at: usize) -> (value: u16)
    requires
        at + 2 <= bytes.len(),
    ensures
        value == le_value(bytes@.subrange(at as int, at + 2)),
{
    pod_read_u16(slice_subrange(bytes, at, at + 2))
}

/// The bytes of a header as an array.
pub fn array_64(bytes: &Vec<u8>) -> (array: [u8; 64])
    requires
        bytes@.len() == 64,
    ensures
        array@ == bytes@,
{
    let mut array: [u8; 64] = [0u8; 64];
    let mut k: usize = 0;
    while k < 64
        invariant
            k <= 64,
            bytes@.len() == 64,
            forall|i: int| 0 <= i < k ==> array@[i] == bytes@[i],
        decreases 64 - k,
    {
        array[k] = bytes[k];
        k += 1;
    }
    assert(array@ =~= bytes@);
    array
}

/// The `i64` at byte `at`.
pub fn get_i64(bytes: &[u8], at: usize) -> (value: i64)
    requires
        at + 8 <= bytes.len(),
    ensures
        value == le_signed(bytes@.subrange(at as int, at + 8)),
{
    let bits: u64 = get_u64(bytes, at);
    proof {
        lemma_le_limits();
    }
    if bits >= 0x8000_0000_0000_0000 {
        (bits - 0x8000_0000_0000_0000) as i64 + i64::MIN
    } else {
        bits as i64
    }
}

/// The `i32` at byte `at`.
pub fn get_i32(bytes: &[u8], at: usize) -> (value: i32)
    requires
        at + 4 <= bytes.len(),
    ensures
        value == le_signed(bytes@.subrange(at as int, at + 4)),
{
    let bits: u32 = get_u32(bytes, at);
    proof {
        lemma_le_limits();
    }
    if bits >= 0x8000_0000 {
        (bits - 0x8000_0000) as i32 + i32::MIN
    } else {
        bits as i32
    }
}

/// The `i16` at byte `at`.
pub fn get_i16(bytes: &[u8], at: usize) -> (value: i16)
    requires
        at + 2 <= bytes.len(),
    ensures
        value == le_signed(bytes@.subrange(at as int, at + 2)),
{
    let bits: u16 = get_u16(bytes, at);
    proof {
        lemma_le_limits();
    }
    if bits >= 0x8000 {
        (bits - 0x8000) as i16 + i16::MIN
    } else {
        bits as i16
    }
}

/// The `i8` at byte `at`.
pub fn get_i8(bytes: &[u8], at: usize) -> (value: i8)
    requires
        at < bytes.len(),
    ensures
        value == le_signed(bytes@.subrange(at as int, at + 1)),
{
    let bits: u8 = bytes[at];
    proof {
        lemma_le_limits();
        lemma_le_one(bytes@.subrange(at as int, at + 1));
    }
    if bits >= 0x80 {
        (bits - 0x80) as i8 + i8::MIN
    } else {
        bits as i8
    }
}

/// One byte spells itself.
pub proof fn lemma_le_one(bytes: Seq<u8>)
    requires
        bytes.len() == 1,
    ensures
        le_value(bytes) == bytes[0],
{
    reveal_with_fuel(le_value, 2);
}

/// Byte `i` of a number weighs 256 to the power `i`; a signed number of that width is the
/// number itself below half of its range, and the number less the range from there on.
pub proof fn law_le_weights(bytes: Seq<u8>)
    ensures
        bytes.len() == 1 ==> le_value(bytes) == bytes[0],
        bytes.len() == 2 ==> le_value(bytes) == bytes[0] + 0x100 * bytes[1],
        bytes.len() == 4 ==> le_value(bytes) == bytes[0] + 0x100 * bytes[1] + 0x1_0000 * bytes[2]
            + 0x100_0000 * bytes[3],
        bytes.len() == 8 ==> le_value(bytes) == bytes[0] + 0x100 * bytes[1] + 0x1_0000 * bytes[2]
            + 0x100_0000 * bytes[3] + 0x1_0000_0000 * (bytes[4] + 0x100 * bytes[5] + 0x1_0000
            * bytes[6] + 0x100_0000 * bytes[7]),
        bytes.len() == 1 ==> -0x80 <= le_signed(bytes) < 0x80,
        bytes.len() == 2 ==> -0x8000 <= le_signed(bytes) < 0x8000,
        bytes.len() == 4 ==> -0x8000_0000 <= le_signed(bytes) < 0x8000_0000,
        bytes.len() == 8 ==> -0x8000_0000_0000_0000 <= le_signed(bytes) < 0x8000_0000_0000_0000,
        le_signed(bytes) == le_value(bytes) || le_signed(bytes) == le_value(bytes) - le_limit(
            bytes.len(),
        ),
{
    reveal_with_fuel(le_value, 9);
    lemma_le_limits();
    lemma_le_bytes_of_value(bytes);
}

} // verus!

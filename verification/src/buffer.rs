//! Owned and borrowed bytes.

use vstd::arithmetic::power2;
use vstd::prelude::*;
use vstd::slice::slice_subrange;
use vstd::string::*;
use crate::error::FormatError;
use crate::le;
use crate::text;

verus! {

/// `<[u8]>::as_ptr`, as a number: where the bytes lie in memory.  That is up to
/// the allocator, so nothing is said of it.
#[verifier::external_body]
fn address(bytes: &[u8]) -> (address: usize) {
    bytes.as_ptr() as usize
}

/// How far an address lies past the last multiple of `alignment`.
pub fn misalignment(address: usize, alignment: usize) -> (past: usize)
    requires
        alignment > 0,
    ensures
        past == address % alignment,
{
    address % alignment
}

/// The bytes to skip at an address to come to a multiple of `alignment`.
pub fn padding(address: usize, alignment: usize) -> (pad: usize)
    requires
        alignment > 0,
    ensures
        pad < alignment,
        (address + pad) % (alignment as int) == 0,
{
    let past: usize = misalignment(address, alignment);
    proof {
        let (a, d) = (address as int, alignment as int);
        vstd::arithmetic::div_mod::lemma_fundamental_div_mod(a, d);
        if past == 0 {
            assert((a + 0) % d == 0);
        } else {
            assert(a + (d - past) == d * (a / d + 1)) by (nonlinear_arith)
                requires
                    a == d * (a / d) + past,
            ;
            vstd::arithmetic::div_mod::lemma_mod_multiples_basic(a / d + 1, d);
            vstd::arithmetic::mul::lemma_mul_is_commutative(a / d + 1, d);
        }
    }
    if past == 0 {
        0
    } else {
        alignment - past
    }
}

/// Bytes of its own, whose first byte lies at a chosen alignment: the
/// allocation holds some padding, then the data.
#[derive(Debug)]
pub struct Buffer {
    raw: Vec<u8>,
    /// Where the allocation was found when the buffer was made.
    base: usize,
    pad: usize,
    alignment: usize,
}

impl View for Buffer {
    type V = Seq<u8>;

    closed spec fn view(&self) -> Seq<u8> {
        self.raw@.skip(self.start())
    }
}

impl Buffer {
    spec fn start(self) -> int {
        if self.pad <= self.raw.len() {
            self.pad as int
        } else {
            self.raw.len() as int
        }
    }

    fn data_start(&self) -> (start: usize)
        ensures
            start == self.start(),
    {
        if self.pad <= self.raw.len() {
            self.pad
        } else {
            self.raw.len()
        }
    }

    /// The alignment that the buffer was made with.
    pub closed spec fn spec_alignment(self) -> nat {
        self.alignment as nat
    }

    /// The bytes that the allocation holds before the data.
    pub closed spec fn spec_padding(self) -> nat {
        self.start() as nat
    }

    /// The address at which the allocation was found.
    pub closed spec fn spec_base(self) -> nat {
        self.base as nat
    }

    /// The data start at a multiple of the alignment, the next one behind the start of the
    /// allocation.
    pub open spec fn aligned(self) -> bool {
        self.spec_alignment() > 0 ==> {
            &&& self.spec_padding() < self.spec_alignment()
            &&& (self.spec_base() + self.spec_padding()) % self.spec_alignment() == 0
        }
    }

    /// Copies bytes into an empty allocation that begins at `address`, behind as many
    /// bytes as bring them to a multiple of `alignment`.
    fn placed_at(address: usize, room: Vec<u8>, bytes: &[u8], alignment: usize) -> (buffer: Self)
        requires
            room@.len() == 0,
        ensures
            buffer@ == bytes@,
            buffer.spec_alignment() == alignment,
            buffer.spec_base() == address,
            buffer.aligned(),
    {
        let mut raw = room;
        let pad: usize = if alignment == 0 {
            0
        } else {
            padding(address, alignment)
        };
        raw.resize(pad, 0);
        raw.extend_from_slice(bytes);
        let buffer = Buffer { raw, base: address, pad, alignment };
        assert(buffer@ =~= bytes@);
        buffer
    }

    /// Copies bytes into an allocation of their own, whose data start at a
    /// multiple of `alignment`.  It has room for the padding, so that filling it
    /// does not move it.
    fn placed(bytes: &[u8], alignment: usize) -> (buffer: Self)
        ensures
            buffer@ == bytes@,
            buffer.spec_alignment() == alignment,
            buffer.aligned(),
    {
        let room: Vec<u8> = Vec::with_capacity(bytes.len().saturating_add(alignment));
        let start: usize = address(room.as_slice());
        Buffer::placed_at(start, room, bytes, alignment)
    }

    /// Takes over the bytes of a vector, at alignment 1.
    pub fn from_vec(v: Vec<u8>) -> (buffer: Self)
        ensures
            buffer@ == v@,
            buffer.spec_alignment() == 1,
            buffer.spec_padding() == 0,
            buffer.aligned(),
    {
        let base: usize = address(v.as_slice());
        let buffer = Buffer { raw: v, base, pad: 0, alignment: 1 };
        assert(buffer@ =~= v@);
        buffer
    }

    /// `len` zero bytes, the first at a multiple of `alignment`.
    pub fn zeroed_aligned(len: usize, alignment: usize) -> (buffer: Self)
        requires
            power2::is_pow2(alignment as int),
            len + alignment <= isize::MAX,
        ensures
            buffer@ == Seq::new(len as nat, |i: int| 0u8),
            buffer.spec_alignment() == alignment,
            buffer.aligned(),
    {
        let zeros: Vec<u8> = vec![0u8; len];
        let buffer = Buffer::placed(zeros.as_slice(), alignment);
        assert(buffer@ =~= Seq::new(len as nat, |i: int| 0u8));
        buffer
    }

    /// The given bytes, the first at a multiple of `alignment`.
    pub fn zeroed_aligned_bytes(bytes: Vec<u8>, alignment: usize) -> (buffer: Self)
        requires
            power2::is_pow2(alignment as int),
            bytes@.len() + alignment <= isize::MAX,
        ensures
            buffer@ == bytes@,
            buffer.spec_alignment() == alignment,
            buffer.aligned(),
    {
        Buffer::placed(bytes.as_slice(), alignment)
    }

    /// The bytes of the values in memory, in the byte order of the machine, at the
    /// alignment of their type.
    pub fn from_slice_copy<T: FixedWidth>(values: &[T]) -> (buffer: Self)
        ensures
            native_words(
                Seq::new(values@.len(), |k: int| values@[k].bits()),
                T::width(),
                buffer@,
            ),
            buffer.spec_alignment() == vstd::layout::align_of::<T>(),
            buffer.aligned(),
    {
        Buffer::placed(T::bytes_of_words(values), core::mem::align_of::<T>())
    }

    /// The address at which the allocation was found.
    pub fn base(&self) -> (base: usize)
        ensures
            base == self.spec_base(),
    {
        self.base
    }

    /// The bytes that the allocation holds before the data.
    pub fn skipped(&self) -> (skipped: usize)
        ensures
            skipped == self.spec_padding(),
    {
        self.data_start()
    }

    pub fn alignment(&self) -> (alignment: usize)
        ensures
            alignment == self.spec_alignment(),
    {
        self.alignment
    }

    pub fn len(&self) -> (len: usize)
        ensures
            len == self@.len(),
    {
        self.raw.len() - self.data_start()
    }

    pub fn is_empty(&self) -> (empty: bool)
        ensures
            empty == (self@.len() == 0),
    {
        self.len() == 0
    }

    pub fn as_slice(&self) -> (bytes: &[u8])
        ensures
            bytes@ == self@,
    {
        let bytes = slice_subrange(self.raw.as_slice(), self.data_start(), self.raw.len());
        assert(bytes@ =~= self@);
        bytes
    }

    /// The bytes, for writing: what they hold when the borrow ends is what the
    /// buffer holds then.
    pub fn as_mut_slice(&mut self) -> (bytes: &mut [u8])
        ensures
            bytes@ == old(self)@,
            final(bytes)@.len() == bytes@.len() ==> final(self)@ == final(bytes)@,
            final(self).spec_alignment() == old(self).spec_alignment(),
            final(self).spec_base() == old(self).spec_base(),
            final(bytes)@.len() == bytes@.len() ==> final(self).spec_padding() == old(
                self,
            ).spec_padding(),
    {
        let start: usize = self.data_start();
        let raw: &mut [u8] = self.raw.as_mut_slice();
        let (_, bytes) = raw.split_at_mut(start);
        bytes
    }

    /// A short description.
    pub fn to_text(&self) -> (text: String)
        ensures
            text@ == "Buffer(len="@ + text::dec(self@.len()) + ", alignment="@ + text::dec(
                self.spec_alignment(),
            ) + ")"@,
    {
        let mut text = String::new();
        text.append("Buffer(len=");
        text::push_dec(&mut text, self.len() as u64);
        text.append(", alignment=");
        text::push_dec(&mut text, self.alignment as u64);
        text.append(")");
        text
    }
}

impl vstd::std_specs::convert::FromSpecImpl<Vec<u8>> for Buffer {
    open spec fn obeys_from_spec() -> bool {
        false
    }

    open spec fn from_spec(v: Vec<u8>) -> Self {
        arbitrary()
    }
}

impl From<Vec<u8>> for Buffer {
    fn from(v: Vec<u8>) -> (buffer: Self)
        ensures
            buffer@ == v@,
            buffer.spec_alignment() == 1,
            buffer.spec_padding() == 0,
            buffer.aligned(),
    {
        Buffer::from_vec(v)
    }
}

impl Clone for Buffer {
    fn clone(&self) -> (copy: Self)
        ensures
            copy@ == self@,
            copy.spec_alignment() == self.spec_alignment(),
            copy.aligned(),
    {
        Buffer::placed(self.as_slice(), self.alignment)
    }
}

/// The `k`-th group of `width` bytes.
pub open spec fn group(bytes: Seq<u8>, k: int, width: nat) -> Seq<u8> {
    bytes.subrange(k * width, (k + 1) * width)
}

/// The little-endian bytes of the values, one after the other.
pub open spec fn words_bytes<T: FixedWidth>(values: Seq<T>) -> Seq<u8>
    decreases values.len(),
{
    if values.len() == 0 {
        Seq::empty()
    } else {
        words_bytes(values.drop_last()) + le::le_bytes(values.last().bits(), T::width())
    }
}

/// Byte strings one after the other.
pub open spec fn concat(parts: Seq<Seq<u8>>) -> Seq<u8>
    decreases parts.len(),
{
    if parts.len() == 0 {
        Seq::empty()
    } else {
        concat(parts.drop_last()) + parts.last()
    }
}

/// Where each byte string begins among those before it, and where the last ends.
pub open spec fn starts(parts: Seq<Seq<u8>>) -> Seq<u64> {
    Seq::new(parts.len() + 1, |k: int| concat(parts.take(k)).len() as u64)
}

/// The first byte strings lie where they would lie alone.
pub proof fn lemma_concat_prefix(parts: Seq<Seq<u8>>, k: int)
    requires
        0 <= k <= parts.len(),
    ensures
        concat(parts.take(k)).len() <= concat(parts).len(),
        concat(parts).take(concat(parts.take(k)).len() as int) == concat(parts.take(k)),
    decreases parts.len() - k,
{
    if k < parts.len() {
        lemma_concat_prefix(parts, k + 1);
        let next = parts.take(k + 1);
        assert(next.drop_last() =~= parts.take(k));
        let a = concat(parts.take(k));
        let b = concat(next);
        assert(b =~= a + parts[k]);
        assert(concat(parts).take(a.len() as int) =~= concat(parts).take(b.len() as int).take(
            a.len() as int,
        ));
        assert(b.take(a.len() as int) =~= a);
    } else {
        assert(parts.take(k) =~= parts);
        assert(concat(parts).take(concat(parts).len() as int) =~= concat(parts));
    }
}

/// Each byte string is found between its start and the next.
pub proof fn lemma_concat_part(parts: Seq<Seq<u8>>, k: int)
    requires
        0 <= k < parts.len(),
    ensures
        concat(parts.take(k + 1)).len() == concat(parts.take(k)).len() + parts[k].len(),
        concat(parts.take(k + 1)).len() <= concat(parts).len(),
        concat(parts).subrange(
            concat(parts.take(k)).len() as int,
            concat(parts.take(k + 1)).len() as int,
        ) == parts[k],
{
    lemma_concat_prefix(parts, k + 1);
    let next = parts.take(k + 1);
    assert(next.drop_last() =~= parts.take(k));
    let a = concat(parts.take(k));
    let b = concat(next);
    assert(b =~= a + parts[k]);
    assert(concat(parts).subrange(a.len() as int, b.len() as int) =~= concat(parts).take(
        b.len() as int,
    ).subrange(a.len() as int, b.len() as int));
    assert(b.subrange(a.len() as int, b.len() as int) =~= parts[k]);
}

/// So many values take so many bytes.
pub proof fn lemma_words_len<T: FixedWidth>(values: Seq<T>)
    ensures
        words_bytes(values).len() == values.len() * T::width(),
    decreases values.len(),
{
    broadcast use le::lemma_le_bytes_len;

    if values.len() > 0 {
        lemma_words_len(values.drop_last());
        assert((values.len() - 1) * T::width() + T::width() == values.len() * T::width())
            by (nonlinear_arith);
    }
}

/// The bytes of value `k` are group `k`, and spell it.
pub proof fn law_words_group<T: FixedWidth>(values: Seq<T>, k: int)
    requires
        0 <= k < values.len(),
    ensures
        group(words_bytes(values), k, T::width()) == le::le_bytes(values[k].bits(), T::width()),
        le::le_value(group(words_bytes(values), k, T::width())) == values[k].bits(),
    decreases values.len(),
{
    broadcast use le::lemma_le_bytes_len;

    let front = values.drop_last();
    let width = T::width();
    let n = values.len() - 1;
    lemma_words_len(front);
    lemma_words_len(values);
    values[k].lemma_bits_fit();
    le::lemma_le_value_of_bytes(values[k].bits(), width);
    assert(0 <= k * width && (k + 1) * width == k * width + width) by (nonlinear_arith)
        requires
            0 <= k,
    ;
    if k < n {
        law_words_group(front, k);
        assert((k + 1) * width <= n * width) by (nonlinear_arith)
            requires
                k + 1 <= n,
        ;
        assert(group(words_bytes(values), k, width) =~= group(words_bytes(front), k, width));
    } else {
        assert(group(words_bytes(values), k, width) =~= le::le_bytes(values[k].bits(), width));
    }
}

/// Numbers that fill `bytes`, each spelled by its `width` bytes in the byte order
/// of the machine: the same order for all of them.
pub open spec fn native_words(words: Seq<nat>, width: nat, bytes: Seq<u8>) -> bool {
    &&& words.len() * width == bytes.len()
    &&& {
        ||| forall|k: int|
            0 <= k < words.len() ==> #[trigger] words[k] == le::le_value(group(bytes, k, width))
        ||| forall|k: int|
            0 <= k < words.len() ==> #[trigger] words[k] == le::le_value(
                group(bytes, k, width).reverse(),
            )
    }
}

/// An integer type whose values are stored in a fixed number of bytes.
pub trait FixedWidth: Sized + Copy {
    /// Bytes per value.
    spec fn width() -> nat;

    /// The value's bits, read as an unsigned number.
    spec fn bits(self) -> nat;

    /// The bits fit the bytes.
    proof fn lemma_bits_fit(self)
        ensures
            self.bits() < le::le_limit(Self::width()),
    ;

    fn size() -> (size: usize)
        ensures
            size == Self::width(),
            size > 0,
    ;

    /// Appends the little-endian bytes of the value.
    fn put(self, out: &mut Vec<u8>)
        ensures
            final(out)@ == old(out)@ + le::le_bytes(self.bits(), Self::width()),
    ;

    /// The bytes of values, in place, in the byte order of the machine.
    fn bytes_of_words(values: &[Self]) -> (bytes: &[u8])
        ensures
            native_words(
                Seq::new(values@.len(), |k: int| values@[k].bits()),
                Self::width(),
                bytes@,
            ),
    ;

    /// The bytes as values, in place, where their count and their address allow it.
    fn cast_words(bytes: &[u8]) -> (words: Option<&[Self]>)
        ensures
            words matches Some(w) ==> native_words(
                Seq::new(w@.len(), |k: int| w@[k].bits()),
                Self::width(),
                bytes@,
            ),
            Self::width() == 1 ==> words is Some,
    ;
}

impl FixedWidth for u8 {
    open spec fn width() -> nat {
        1
    }

    open spec fn bits(self) -> nat {
        self as nat
    }

    proof fn lemma_bits_fit(self) {
        le::lemma_le_limits();
    }

    fn size() -> (size: usize) {
        1
    }

    fn put(self, out: &mut Vec<u8>) {
        let byte: u8 = self;
        out.push(byte);
        proof {
            reveal_with_fuel(le::le_bytes, 2);
            assert(le::le_bytes(byte as nat, 1) =~= seq![byte]);
        }
    }

    fn bytes_of_words(values: &[Self]) -> (bytes: &[u8]) {
        cast_u8(values)
    }

    fn cast_words(bytes: &[u8]) -> (words: Option<&[Self]>) {
        try_cast_u8(bytes)
    }
}

/// `bytemuck::cast_slice` from `u8` to bytes: the same memory, byte by byte.  Bytes
/// have no alignment to miss and fill any length, so it does not panic.
#[verifier::external_body]
fn cast_u8(values: &[u8]) -> (bytes: &[u8])
    ensures
        native_words(Seq::new(values@.len(), |k: int| values@[k].bits()), 1, bytes@),
{
    bytemuck::cast_slice(values)
}

/// `bytemuck::try_cast_slice` to `u8`: the same memory as values of that type.
/// Any bytes make whole values of one byte, and lie at their alignment.
#[verifier::external_body]
fn try_cast_u8(bytes: &[u8]) -> (words: Option<&[u8]>)
    ensures
        words is Some,
        words matches Some(w) ==> native_words(
            Seq::new(w@.len(), |k: int| w@[k].bits()),
            1,
            bytes@,
        ),
{
    bytemuck::try_cast_slice(bytes).ok()
}

impl FixedWidth for i8 {
    open spec fn width() -> nat {
        1
    }

    open spec fn bits(self) -> nat {
        (self as u8) as nat
    }

    proof fn lemma_bits_fit(self) {
        le::lemma_le_limits();
    }

    fn size() -> (size: usize) {
        1
    }

    fn put(self, out: &mut Vec<u8>) {
        let byte: u8 = self as u8;
        out.push(byte);
        proof {
            reveal_with_fuel(le::le_bytes, 2);
            assert(le::le_bytes(byte as nat, 1) =~= seq![byte]);
        }
    }

    fn bytes_of_words(values: &[Self]) -> (bytes: &[u8]) {
        cast_i8(values)
    }

    fn cast_words(bytes: &[u8]) -> (words: Option<&[Self]>) {
        try_cast_i8(bytes)
    }
}

/// `bytemuck::cast_slice` from `i8` to bytes: the same memory, byte by byte.  Bytes
/// have no alignment to miss and fill any length, so it does not panic.
#[verifier::external_body]
fn cast_i8(values: &[i8]) -> (bytes: &[u8])
    ensures
        native_words(Seq::new(values@.len(), |k: int| values@[k].bits()), 1, bytes@),
{
    bytemuck::cast_slice(values)
}

/// `bytemuck::try_cast_slice` to `i8`: the same memory as values of that type.
/// Any bytes make whole values of one byte, and lie at their alignment.
#[verifier::external_body]
fn try_cast_i8(bytes: &[u8]) -> (words: Option<&[i8]>)
    ensures
        words is Some,
        words matches Some(w) ==> native_words(
            Seq::new(w@.len(), |k: int| w@[k].bits()),
            1,
            bytes@,
        ),
{
    bytemuck::try_cast_slice(bytes).ok()
}

impl FixedWidth for u16 {
    open spec fn width() -> nat {
        2
    }

    open spec fn bits(self) -> nat {
        self as nat
    }

    proof fn lemma_bits_fit(self) {
        le::lemma_le_limits();
    }

    fn size() -> (size: usize) {
        2
    }

    fn put(self, out: &mut Vec<u8>) {
        le::put_u16(out, self);
    }

    fn bytes_of_words(values: &[Self]) -> (bytes: &[u8]) {
        cast_u16(values)
    }

    fn cast_words(bytes: &[u8]) -> (words: Option<&[Self]>) {
        try_cast_u16(bytes)
    }
}

/// `bytemuck::cast_slice` from `u16` to bytes: the same memory, byte by byte.  Bytes
/// have no alignment to miss and fill any length, so it does not panic.
#[verifier::external_body]
fn cast_u16(values: &[u16]) -> (bytes: &[u8])
    ensures
        native_words(Seq::new(values@.len(), |k: int| values@[k].bits()), 2, bytes@),
{
    bytemuck::cast_slice(values)
}

/// `bytemuck::try_cast_slice` to `u16`: the same memory as values of that type.
/// It fails where the bytes do not make whole values or do not lie at the type's
/// alignment; the contract leaves open when it does.
#[verifier::external_body]
fn try_cast_u16(bytes: &[u8]) -> (words: Option<&[u16]>)
    ensures
        words matches Some(w) ==> native_words(
            Seq::new(w@.len(), |k: int| w@[k].bits()),
            2,
            bytes@,
        ),
{
    bytemuck::try_cast_slice(bytes).ok()
}

impl FixedWidth for i16 {
    open spec fn width() -> nat {
        2
    }

    open spec fn bits(self) -> nat {
        (self as u16) as nat
    }

    proof fn lemma_bits_fit(self) {
        le::lemma_le_limits();
    }

    fn size() -> (size: usize) {
        2
    }

    fn put(self, out: &mut Vec<u8>) {
        le::put_u16(out, self as u16);
    }

    fn bytes_of_words(values: &[Self]) -> (bytes: &[u8]) {
        cast_i16(values)
    }

    fn cast_words(bytes: &[u8]) -> (words: Option<&[Self]>) {
        try_cast_i16(bytes)
    }
}

/// `bytemuck::cast_slice` from `i16` to bytes: the same memory, byte by byte.  Bytes
/// have no alignment to miss and fill any length, so it does not panic.
#[verifier::external_body]
fn cast_i16(values: &[i16]) -> (bytes: &[u8])
    ensures
        native_words(Seq::new(values@.len(), |k: int| values@[k].bits()), 2, bytes@),
{
    bytemuck::cast_slice(values)
}

/// `bytemuck::try_cast_slice` to `i16`: the same memory as values of that type.
/// It fails where the bytes do not make whole values or do not lie at the type's
/// alignment; the contract leaves open when it does.
#[verifier::external_body]
fn try_cast_i16(bytes: &[u8]) -> (words: Option<&[i16]>)
    ensures
        words matches Some(w) ==> native_words(
            Seq::new(w@.len(), |k: int| w@[k].bits()),
            2,
            bytes@,
        ),
{
    bytemuck::try_cast_slice(bytes).ok()
}

impl FixedWidth for u32 {
    open spec fn width() -> nat {
        4
    }

    open spec fn bits(self) -> nat {
        self as nat
    }

    proof fn lemma_bits_fit(self) {
        le::lemma_le_limits();
    }

    fn size() -> (size: usize) {
        4
    }

    fn put(self, out: &mut Vec<u8>) {
        le::put_u32(out, self);
    }

    fn bytes_of_words(values: &[Self]) -> (bytes: &[u8]) {
        cast_u32(values)
    }

    fn cast_words(bytes: &[u8]) -> (words: Option<&[Self]>) {
        try_cast_u32(bytes)
    }
}

/// `bytemuck::cast_slice` from `u32` to bytes: the same memory, byte by byte.  Bytes
/// have no alignment to miss and fill any length, so it does not panic.
#[verifier::external_body]
fn cast_u32(values: &[u32]) -> (bytes: &[u8])
    ensures
        native_words(Seq::new(values@.len(), |k: int| values@[k].bits()), 4, bytes@),
{
    bytemuck::cast_slice(values)
}

/// `bytemuck::try_cast_slice` to `u32`: the same memory as values of that type.
/// It fails where the bytes do not make whole values or do not lie at the type's
/// alignment; the contract leaves open when it does.
#[verifier::external_body]
fn try_cast_u32(bytes: &[u8]) -> (words: Option<&[u32]>)
    ensures
        words matches Some(w) ==> native_words(
            Seq::new(w@.len(), |k: int| w@[k].bits()),
            4,
            bytes@,
        ),
{
    bytemuck::try_cast_slice(bytes).ok()
}

impl FixedWidth for i32 {
    open spec fn width() -> nat {
        4
    }

    open spec fn bits(self) -> nat {
        (self as u32) as nat
    }

    proof fn lemma_bits_fit(self) {
        le::lemma_le_limits();
    }

    fn size() -> (size: usize) {
        4
    }

    fn put(self, out: &mut Vec<u8>) {
        le::put_u32(out, self as u32);
    }

    fn bytes_of_words(values: &[Self]) -> (bytes: &[u8]) {
        cast_i32(values)
    }

    fn cast_words(bytes: &[u8]) -> (words: Option<&[Self]>) {
        try_cast_i32(bytes)
    }
}

/// `bytemuck::cast_slice` from `i32` to bytes: the same memory, byte by byte.  Bytes
/// have no alignment to miss and fill any length, so it does not panic.
#[verifier::external_body]
fn cast_i32(values: &[i32]) -> (bytes: &[u8])
    ensures
        native_words(Seq::new(values@.len(), |k: int| values@[k].bits()), 4, bytes@),
{
    bytemuck::cast_slice(values)
}

/// `bytemuck::try_cast_slice` to `i32`: the same memory as values of that type.
/// It fails where the bytes do not make whole values or do not lie at the type's
/// alignment; the contract leaves open when it does.
#[verifier::external_body]
fn try_cast_i32(bytes: &[u8]) -> (words: Option<&[i32]>)
    ensures
        words matches Some(w) ==> native_words(
            Seq::new(w@.len(), |k: int| w@[k].bits()),
            4,
            bytes@,
        ),
{
    bytemuck::try_cast_slice(bytes).ok()
}

impl FixedWidth for u64 {
    open spec fn width() -> nat {
        8
    }

    open spec fn bits(self) -> nat {
        self as nat
    }

    proof fn lemma_bits_fit(self) {
        le::lemma_le_limits();
    }

    fn size() -> (size: usize) {
        8
    }

    fn put(self, out: &mut Vec<u8>) {
        le::put_u64(out, self);
    }

    fn bytes_of_words(values: &[Self]) -> (bytes: &[u8]) {
        cast_u64(values)
    }

    fn cast_words(bytes: &[u8]) -> (words: Option<&[Self]>) {
        try_cast_u64(bytes)
    }
}

/// `bytemuck::cast_slice` from `u64` to bytes: the same memory, byte by byte.  Bytes
/// have no alignment to miss and fill any length, so it does not panic.
#[verifier::external_body]
fn cast_u64(values: &[u64]) -> (bytes: &[u8])
    ensures
        native_words(Seq::new(values@.len(), |k: int| values@[k].bits()), 8, bytes@),
{
    bytemuck::cast_slice(values)
}

/// `bytemuck::try_cast_slice` to `u64`: the same memory as values of that type.
/// It fails where the bytes do not make whole values or do not lie at the type's
/// alignment; the contract leaves open when it does.
#[verifier::external_body]
fn try_cast_u64(bytes: &[u8]) -> (words: Option<&[u64]>)
    ensures
        words matches Some(w) ==> native_words(
            Seq::new(w@.len(), |k: int| w@[k].bits()),
            8,
            bytes@,
        ),
{
    bytemuck::try_cast_slice(bytes).ok()
}

impl FixedWidth for i64 {
    open spec fn width() -> nat {
        8
    }

    open spec fn bits(self) -> nat {
        (self as u64) as nat
    }

    proof fn lemma_bits_fit(self) {
        le::lemma_le_limits();
    }

    fn size() -> (size: usize) {
        8
    }

    fn put(self, out: &mut Vec<u8>) {
        le::put_u64(out, self as u64);
    }

    fn bytes_of_words(values: &[Self]) -> (bytes: &[u8]) {
        cast_i64(values)
    }

    fn cast_words(bytes: &[u8]) -> (words: Option<&[Self]>) {
        try_cast_i64(bytes)
    }
}

/// `bytemuck::cast_slice` from `i64` to bytes: the same memory, byte by byte.  Bytes
/// have no alignment to miss and fill any length, so it does not panic.
#[verifier::external_body]
fn cast_i64(values: &[i64]) -> (bytes: &[u8])
    ensures
        native_words(Seq::new(values@.len(), |k: int| values@[k].bits()), 8, bytes@),
{
    bytemuck::cast_slice(values)
}

/// `bytemuck::try_cast_slice` to `i64`: the same memory as values of that type.
/// It fails where the bytes do not make whole values or do not lie at the type's
/// alignment; the contract leaves open when it does.
#[verifier::external_body]
fn try_cast_i64(bytes: &[u8]) -> (words: Option<&[i64]>)
    ensures
        words matches Some(w) ==> native_words(
            Seq::new(w@.len(), |k: int| w@[k].bits()),
            8,
            bytes@,
        ),
{
    bytemuck::try_cast_slice(bytes).ok()
}

/// Bytes that belong to someone else.
#[derive(Debug, Clone, Copy, PartialEq, Eq)]
pub struct BufferView<'a> {
    data: &'a [u8],
}

impl<'a> View for BufferView<'a> {
    type V = Seq<u8>;

    closed spec fn view(&self) -> Seq<u8> {
        self.data@
    }
}

impl<'a> BufferView<'a> {
    /// A view is no longer than memory can be.
    pub proof fn lemma_len(self)
        ensures
            self@.len() <= usize::MAX,
    {
        assert(self.data@.len() == self.data.len());
    }

    pub fn new(data: &'a [u8]) -> (view: Self)
        ensures
            view@ == data@,
    {
        BufferView { data }
    }

    pub fn from_buffer(buffer: &'a Buffer) -> (view: Self)
        ensures
            view@ == buffer@,
    {
        BufferView { data: buffer.as_slice() }
    }

    /// The `len` bytes from `offset` on, without copying.
    pub fn slice(&self, offset: usize, len: usize) -> (view: BufferView<'a>)
        requires
            offset + len <= self@.len(),
        ensures
            view@ == self@.subrange(offset as int, offset + len),
    {
        assert(self.data@.len() == self.data.len());
        BufferView { data: slice_subrange(self.data, offset, offset + len) }
    }

    pub fn as_slice(&self) -> (bytes: &'a [u8])
        ensures
            bytes@ == self@,
    {
        self.data
    }

    pub fn len(&self) -> (len: usize)
        ensures
            len == self@.len(),
    {
        self.data.len()
    }

    pub fn is_empty(&self) -> (empty: bool)
        ensures
            empty == (self@.len() == 0),
    {
        self.data.len() == 0
    }

    /// The bytes as values of `T`, without copying, in the machine's byte order.
    /// They must make whole values; and whether they lie at the type's alignment
    /// is up to where they are in memory.
    pub fn cast<T: FixedWidth>(&self) -> (r: Result<&'a [T], FormatError>)
        ensures
            match r {
                Ok(words) => native_words(
                    Seq::new(words@.len(), |k: int| words@[k].bits()),
                    T::width(),
                    self@,
                ),
                Err(FormatError::SizeMismatch { expected, found }) => {
                    &&& expected == T::width()
                    &&& found == self@.len() % T::width()
                    &&& found != 0
                },
                Err(FormatError::Alignment { required, found }) => {
                    &&& required == vstd::layout::align_of::<T>()
                    &&& found < required
                    &&& self@.len() % T::width() == 0
                },
                Err(_) => false,
            },
            self@.len() % T::width() != 0 ==> r is Err,
            T::width() == 1 ==> r is Ok,
    {
        let required: usize = T::size();
        let past: usize = self.data.len() % required;
        if past != 0 {
            return Err(FormatError::SizeMismatch { expected: required, found: past });
        }
        match T::cast_words(self.data) {
            Some(words) => Ok(words),
            None => {
                let alignment: usize = core::mem::align_of::<T>();
                proof {
                    broadcast use vstd::layout::align_nonzero;
                }
                Err(
                    FormatError::Alignment {
                        required: alignment,
                        found: misalignment(address(self.data), alignment),
                    },
                )
            },
        }
    }
}

/// Pieces one after the other start where the pieces before them end.
pub proof fn law_pieces_follow(parts: Seq<Seq<u8>>, k: int)
    requires
        0 <= k < parts.len(),
        concat(parts).len() <= u64::MAX,
    ensures
        starts(parts).len() == parts.len() + 1,
        starts(parts)[0] == 0,
        starts(parts)[k + 1] == starts(parts)[k] + parts[k].len(),
        starts(parts)[parts.len() as int] == concat(parts).len(),
        concat(parts).subrange(starts(parts)[k] as int, starts(parts)[k + 1] as int) == parts[k],
{
    lemma_concat_part(parts, k);
    lemma_concat_prefix(parts, k);
    assert(parts.take(0).len() == 0);
    assert(parts.take(parts.len() as int) =~= parts);
}

/// Byte `b` of value `k` is byte `k * width + b` of the bytes.
pub proof fn law_group_by_byte(bytes: Seq<u8>, k: int, width: nat, b: int)
    requires
        0 <= k,
        (k + 1) * width <= bytes.len(),
        0 <= b < width,
    ensures
        group(bytes, k, width).len() == width,
        group(bytes, k, width)[b] == bytes[k * width + b],
{
    assert(0 <= k * width && (k + 1) * width == k * width + width) by (nonlinear_arith)
        requires
            0 <= k,
            0 <= width,
    ;
}

/// A buffer with an alignment starts at an address that is a multiple of it, and skips fewer
/// bytes for that than the alignment has.
pub proof fn law_buffer_aligned(buffer: Buffer)
    requires
        buffer.aligned(),
        buffer.spec_alignment() > 0,
    ensures
        (buffer.spec_base() + buffer.spec_padding()) % buffer.spec_alignment() == 0,
        buffer.spec_padding() < buffer.spec_alignment(),
{
}

} // verus!

//! Validity bitmaps: one bit per row, least significant bit first, set where the
//! row holds a value.

use vstd::prelude::*;
use vstd::string::*;
use crate::buffer::{Buffer, BufferView};
use crate::error::FormatError;
use crate::le;
use crate::text;

verus! {

/// `u8::count_ones`: how many bits are set.
pub assume_specification[ u8::count_ones ](x: u8) -> (count: u32)
    ensures
        count == ones(byte_bits(x)),
;

/// `u64::count_ones`: how many bits are set.
pub assume_specification[ u64::count_ones ](x: u64) -> (count: u32)
    ensures
        count == ones(word_bits(x)),
;

/// Bit `i` of a byte.
pub open spec fn byte_bit(b: u8, i: u8) -> bool {
    (b >> i) & 1u8 == 1u8
}

/// Bit `i` of a word.
pub open spec fn word_bit(w: u64, i: u64) -> bool {
    (w >> i) & 1u64 == 1u64
}

pub open spec fn byte_bits(b: u8) -> Seq<bool> {
    Seq::new(8, |i: int| byte_bit(b, i as u8))
}

pub open spec fn word_bits(w: u64) -> Seq<bool> {
    Seq::new(64, |i: int| word_bit(w, i as u64))
}

/// Bit `k` of a run of bytes.
pub open spec fn bit_at(bytes: Seq<u8>, k: int) -> bool {
    byte_bit(bytes[k / 8], (k % 8) as u8)
}

/// The `len` bits from bit `from` on.
pub open spec fn bits(bytes: Seq<u8>, from: int, len: nat) -> Seq<bool> {
    Seq::new(len, |i: int| bit_at(bytes, from + i))
}

/// How many of the bits are set.
pub open spec fn ones(s: Seq<bool>) -> nat
    decreases s.len(),
{
    if s.len() == 0 {
        0
    } else {
        ones(s.drop_last()) + if s.last() {
            1nat
        } else {
            0nat
        }
    }
}

/// Bytes that hold `len` bits.
pub open spec fn bytes_for(len: int) -> int {
    (len + 7) / 8
}

/// Bytes that hold `len` bits.
pub fn byte_count(len: usize) -> (count: usize)
    ensures
        count == bytes_for(len as int),
{
    len / 8 + if len % 8 == 0 {
        0
    } else {
        1
    }
}

/// The set bits of two runs add up.
pub proof fn lemma_ones_add(a: Seq<bool>, b: Seq<bool>)
    ensures
        ones(a + b) == ones(a) + ones(b),
    decreases b.len(),
{
    if b.len() == 0 {
        assert(a + b =~= a);
    } else {
        lemma_ones_add(a, b.drop_last());
        assert((a + b).drop_last() =~= a + b.drop_last());
    }
}

/// No more bits are set than there are.
pub proof fn lemma_ones_bound(s: Seq<bool>)
    ensures
        ones(s) <= s.len(),
    decreases s.len(),
{
    if s.len() > 0 {
        lemma_ones_bound(s.drop_last());
    }
}

/// A run of equal bits.
pub proof fn lemma_ones_const(s: Seq<bool>, b: bool)
    requires
        forall|i: int| 0 <= i < s.len() ==> s[i] == b,
    ensures
        ones(s) == if b {
            s.len()
        } else {
            0
        },
    decreases s.len(),
{
    if s.len() > 0 {
        lemma_ones_const(s.drop_last(), b);
    }
}

/// All bits are set exactly where their count says so.
pub proof fn lemma_ones_full(s: Seq<bool>)
    ensures
        (ones(s) == s.len()) == (forall|i: int| 0 <= i < s.len() ==> s[i]),
    decreases s.len(),
{
    if s.len() > 0 {
        lemma_ones_full(s.drop_last());
        lemma_ones_bound(s.drop_last());
        let front = s.drop_last();
        if ones(s) == s.len() {
            assert forall|i: int| 0 <= i < s.len() implies s[i] by {
                if i < front.len() {
                    assert(front[i]);
                }
            }
        }
        if forall|i: int| 0 <= i < s.len() ==> s[i] {
            assert forall|i: int| 0 <= i < front.len() implies front[i] by {
                assert(s[i]);
            }
        }
    }
}

/// The bits of a word read from eight little-endian bytes are theirs, in order.
proof fn lemma_word_bits(bytes: Seq<u8>, w: u64)
    requires
        bytes.len() == 8,
        w == le::le_value(bytes),
    ensures
        word_bits(w) == bits(bytes, 0, 64),
{
    let (b0, b1, b2, b3) = (bytes[0], bytes[1], bytes[2], bytes[3]);
    let (b4, b5, b6, b7) = (bytes[4], bytes[5], bytes[6], bytes[7]);
    reveal_with_fuel(le::le_value, 9);
    assert(w == b0 + 0x100 * b1 + 0x1_0000 * b2 + 0x100_0000 * b3 + 0x1_0000_0000 * b4
        + 0x100_0000_0000 * b5 + 0x1_0000_0000_0000 * b6 + 0x100_0000_0000_0000 * b7) by {
        let s = bytes;
        assert(s.drop_first()[0] == s[1]);
        assert(s.drop_first().drop_first()[0] == s[2]);
        assert(s.drop_first().drop_first().drop_first()[0] == s[3]);
        assert(s.drop_first().drop_first().drop_first().drop_first()[0] == s[4]);
        let t = s.drop_first().drop_first().drop_first().drop_first();
        assert(t.drop_first()[0] == s[5]);
        assert(t.drop_first().drop_first()[0] == s[6]);
        assert(t.drop_first().drop_first().drop_first()[0] == s[7]);
    }
    assert forall|i: int| 0 <= i < 64 implies #[trigger] word_bits(w)[i] == bits(bytes, 0, 64)[i] by {
        let k = i as u64;
        let b: u8 = bytes[i / 8];
        let j = (i / 8) as u64;
        assert(b == (w >> (8 * j) as u64) as u8) by {
            assert(j < 8);
            assert(j == 0 || j == 1 || j == 2 || j == 3 || j == 4 || j == 5 || j == 6 || j == 7);
            assert(w as u8 == b0 && (w >> 8u64) as u8 == b1 && (w >> 16u64) as u8 == b2 && (w
                >> 24u64) as u8 == b3 && (w >> 32u64) as u8 == b4 && (w >> 40u64) as u8 == b5 && (w
                >> 48u64) as u8 == b6 && (w >> 56u64) as u8 == b7 && w >> 0u64 == w)
                by (bit_vector)
                requires
                    w == b0 + 0x100 * b1 + 0x1_0000 * b2 + 0x100_0000 * b3 + 0x1_0000_0000 * b4
                        + 0x100_0000_0000 * b5 + 0x1_0000_0000_0000 * b6 + 0x100_0000_0000_0000
                        * b7,
            ;
        }
        let sh = (8 * j) as u64;
        let r = (i % 8) as u8;
        assert(k == sh + r);
        assert(((w >> k) & 1u64 == 1u64) == ((((w >> sh) as u8) >> r) & 1u8 == 1u8)) by (bit_vector)
            requires
                r < 8,
                sh <= 56,
                k == sh + r,
        ;
    }
    assert(word_bits(w) =~= bits(bytes, 0, 64));
}

/// The byte whose bits `p .. p + n` are set.
fn mask(p: u8, n: u8) -> (m: u8)
    requires
        p + n <= 8,
    ensures
        forall|i: u8| i < 8 ==> #[trigger] byte_bit(m, i) == (p <= i < p + n),
{
    let one: u16 = 1;
    assert((1u16 << n) >= 1u16) by (bit_vector)
        requires
            n <= 8,
    ;
    let low: u16 = (one << n) - 1;
    let m: u8 = #[verifier::truncate] ((low << p) as u8);
    assert forall|i: u8| i < 8 implies #[trigger] byte_bit(m, i) == (p <= i < p + n) by {
        assert(((m >> i) & 1u8 == 1u8) == (p <= i && i < p + n)) by (bit_vector)
            requires
                i < 8,
                p + n <= 8,
                low == (1u16 << n) - 1,
                m == (low << p) as u8,
        ;
    }
    m
}

/// `d` with bits `p .. p + n` taken from `s`.
fn merge_byte(d: u8, s: u8, p: u8, n: u8) -> (r: u8)
    requires
        p + n <= 8,
    ensures
        forall|i: u8|
            i < 8 ==> #[trigger] byte_bit(r, i) == if p <= i < p + n {
                byte_bit(s, i)
            } else {
                byte_bit(d, i)
            },
{
    let m: u8 = mask(p, n);
    let r: u8 = (d & !m) | (s & m);
    assert forall|i: u8| i < 8 implies #[trigger] byte_bit(r, i) == if p <= i < p + n {
        byte_bit(s, i)
    } else {
        byte_bit(d, i)
    } by {
        assert(byte_bit(m, i) == (p <= i < p + n));
        assert(((r >> i) & 1u8 == 1u8) == if (m >> i) & 1u8 == 1u8 {
            (s >> i) & 1u8 == 1u8
        } else {
            (d >> i) & 1u8 == 1u8
        }) by (bit_vector)
            requires
                r == (d & !m) | (s & m),
                i < 8,
        ;
    }
    r
}

/// How many of the bits `p .. p + n` of a byte are set.
fn count_in_byte(b: u8, p: u8, n: u8) -> (count: u32)
    requires
        p + n <= 8,
    ensures
        count == ones(Seq::new(n as nat, |i: int| byte_bit(b, (p + i) as u8))),
{
    let m: u8 = merge_byte(0, b, p, n);
    proof {
        let before = Seq::new(p as nat, |i: int| false);
        let within = Seq::new(n as nat, |i: int| byte_bit(b, (p + i) as u8));
        let after = Seq::new((8 - p - n) as nat, |i: int| false);
        assert forall|i: int| 0 <= i < 8 implies #[trigger] byte_bits(m)[i] == (before + within
            + after)[i] by {
            let j = i as u8;
            assert(byte_bit(m, j) == if p <= j < p + n {
                byte_bit(b, j)
            } else {
                byte_bit(0u8, j)
            });
            assert((0u8 >> j) & 1u8 == 0u8) by (bit_vector);
        }
        assert(byte_bits(m) =~= before + within + after);
        lemma_ones_add(before, within);
        lemma_ones_add(before + within, after);
        lemma_ones_const(before, false);
        lemma_ones_const(after, false);
    }
    m.count_ones()
}

/// Counts the set bits among the `len` from `bit_off` on: byte by byte at the
/// edges, in words of eight bytes between them.
pub fn bitmap_count_ones(bits: &[u8], bit_off: usize, len: usize) -> (count: u64)
    requires
        len == 0 || bit_off + len <= 8 * bits@.len(),
    ensures
        count == ones(self::bits(bits@, bit_off as int, len as nat)),
{
    let mut count: u64 = 0;
    let mut done: usize = 0;
    while done < len
        invariant
            len == 0 || bit_off + len <= 8 * bits@.len(),
            done <= len,
            count <= done,
            count == ones(self::bits(bits@, bit_off as int, done as nat)),
        decreases len - done,
    {
        let ghost pos = bit_off + done;
        let rest: usize = len - done;
        let edge: usize = bit_off % 8 + done % 8;
        let p: usize = edge % 8;
        assert(bits@.len() == bits.len());
        assert(bit_off / 8 + done / 8 + edge / 8 == pos / 8 && p == pos % 8);
        let at: usize = bit_off / 8 + done / 8 + edge / 8;
        let ghost before = self::bits(bits@, bit_off as int, done as nat);
        if p == 0 && rest >= 64 {
            assert(at + 8 <= bits@.len());
            let word: u64 = le::get_u64(bits, at);
            let ghost chunk = bits@.subrange(at as int, at + 8);
            proof {
                lemma_word_bits(chunk, word);
                assert forall|i: int| 0 <= i < 64 implies #[trigger] self::bits(chunk, 0, 64)[i]
                    == self::bits(bits@, pos, 64)[i] by {
                    assert((pos + i) / 8 == at + i / 8);
                    assert((pos + i) % 8 == i % 8);
                }
                assert(self::bits(chunk, 0, 64) =~= self::bits(bits@, pos, 64));
                lemma_ones_add(before, self::bits(bits@, pos, 64));
                assert(before + self::bits(bits@, pos, 64) =~= self::bits(
                    bits@,
                    bit_off as int,
                    (done + 64) as nat,
                ));
                lemma_ones_bound(self::bits(bits@, pos, 64));
            }
            count = count + word.count_ones() as u64;
            done = done + 64;
        } else {
            let n: usize = if rest < 8 - p {
                rest
            } else {
                8 - p
            };
            assert(at < bits@.len());
            let b: u8 = bits[at];
            let ghost within = Seq::new(n as nat, |i: int| byte_bit(b, (p + i) as u8));
            proof {
                assert forall|i: int| 0 <= i < n implies #[trigger] within[i] == self::bits(
                    bits@,
                    pos,
                    n as nat,
                )[i] by {
                    assert((pos + i) / 8 == pos / 8);
                    assert((pos + i) % 8 == p + i);
                }
                assert(within =~= self::bits(bits@, pos, n as nat));
                lemma_ones_add(before, within);
                assert(before + within =~= self::bits(bits@, bit_off as int, (done + n) as nat));
                lemma_ones_bound(within);
            }
            let more: u32 = count_in_byte(b, p as u8, n as u8);
            count = count + more as u64;
            done = done + n;
        }
    }
    count
}

/// Sets the `len` bits from `bit_off` on to `valid` and leaves the others alone;
/// gives how many of them were set before.
pub fn bitmap_fill_bits(dst: &mut [u8], bit_off: usize, len: usize, valid: bool) -> (old_ones: u64)
    requires
        len == 0 || bit_off + len <= 8 * old(dst)@.len(),
        bit_off + len <= usize::MAX,
    ensures
        old_ones == ones(bits(old(dst)@, bit_off as int, len as nat)),
        final(dst)@.len() == old(dst)@.len(),
        forall|k: int|
            0 <= k < 8 * old(dst)@.len() ==> #[trigger] bit_at(final(dst)@, k) == if bit_off <= k
                < bit_off + len {
                valid
            } else {
                bit_at(old(dst)@, k)
            },
{
    let old_ones: u64 = bitmap_count_ones(dst, bit_off, len);
    let ghost before = dst@;
    let fill: u8 = if valid {
        0xFF
    } else {
        0
    };
    assert forall|i: u8| i < 8 implies #[trigger] byte_bit(fill, i) == valid by {
        assert((0xFFu8 >> i) & 1u8 == 1u8 && (0u8 >> i) & 1u8 == 0u8) by (bit_vector)
            requires
                i < 8,
        ;
    }
    let mut done: usize = 0;
    while done < len
        invariant
            len == 0 || bit_off + len <= 8 * before.len(),
            bit_off + len <= usize::MAX,
            done <= len,
            dst@.len() == before.len(),
            forall|i: u8| i < 8 ==> #[trigger] byte_bit(fill, i) == valid,
            forall|k: int|
                0 <= k < 8 * before.len() ==> #[trigger] bit_at(dst@, k) == if bit_off <= k
                    < bit_off + done {
                    valid
                } else {
                    bit_at(before, k)
                },
        decreases len - done,
    {
        let pos: usize = bit_off + done;
        let p: usize = pos % 8;
        let n: usize = if len - done < 8 - p {
            len - done
        } else {
            8 - p
        };
        let at: usize = pos / 8;
        assert(at < dst@.len());
        let ghost current = dst@;
        let b: u8 = merge_byte(dst[at], fill, p as u8, n as u8);
        dst[at] = b;
        assert forall|k: int| 0 <= k < 8 * before.len() implies #[trigger] bit_at(dst@, k)
            == if bit_off <= k < bit_off + done + n {
            valid
        } else {
            bit_at(before, k)
        } by {
            assert(bit_at(current, k) == if bit_off <= k < bit_off + done {
                valid
            } else {
                bit_at(before, k)
            });
            let i = (k % 8) as u8;
            if k / 8 == at {
                assert(k == 8 * at + i && pos == 8 * at + p);
                assert(byte_bit(b, i) == if p <= i < p + n {
                    byte_bit(fill, i)
                } else {
                    byte_bit(current[at as int], i)
                });
            } else {
                assert(dst@[k / 8] == current[k / 8]);
                assert(k < 8 * at || k >= 8 * at + 8);
            }
        }
        done = done + n;
    }
    old_ones
}

/// The `n` bits from bit `bit` on, moved down to bit 0; what stands above them is
/// left open.
fn read_shifted_byte(src: &[u8], bit: usize, n: usize) -> (r: u8)
    requires
        0 < n <= 8,
        bit + n <= 8 * src@.len(),
    ensures
        forall|i: u8| i < n ==> #[trigger] byte_bit(r, i) == bit_at(src@, bit + i),
{
    let p: usize = bit % 8;
    let at: usize = bit / 8;
    let sh: u8 = p as u8;
    let first: u8 = src[at];
    let low: u8 = first >> sh;
    if p + n <= 8 {
        assert forall|i: u8| i < n implies #[trigger] byte_bit(low, i) == bit_at(src@, bit + i) by {
            assert((bit + i) / 8 == at && (bit + i) % 8 == p + i);
            let j = (sh + i) as u8;
            assert((((first >> sh) >> i) & 1u8 == 1u8) == ((first >> j) & 1u8 == 1u8))
                by (bit_vector)
                requires
                    j == sh + i,
                    j < 8,
            ;
        }
        low
    } else {
        assert(src@.len() == src.len());
        assert(at + 1 < src@.len());
        let next: u8 = src[at + 1];
        let up: u8 = 8 - sh;
        let r: u8 = low | (next << up);
        assert forall|i: u8| i < n implies #[trigger] byte_bit(r, i) == bit_at(src@, bit + i) by {
            if i < 8 - p {
                assert((bit + i) / 8 == at && (bit + i) % 8 == p + i);
                let j = (sh + i) as u8;
                assert(((((first >> sh) | (next << up)) >> i) & 1u8 == 1u8) == ((first >> j) & 1u8
                    == 1u8)) by (bit_vector)
                    requires
                        j == sh + i,
                        j < 8,
                        up == 8 - sh,
                ;
            } else {
                assert((bit + i) / 8 == at + 1 && (bit + i) % 8 == p + i - 8);
                let j = (sh + i - 8) as u8;
                assert(((((first >> sh) | (next << up)) >> i) & 1u8 == 1u8) == ((next >> j) & 1u8
                    == 1u8)) by (bit_vector)
                    requires
                        i < 8,
                        sh < 8,
                        i + sh >= 8,
                        j == sh + i - 8,
                        up == 8 - sh,
                ;
            }
        }
        r
    }
}

/// Copies the `len` bits of `src` from `src_off` on over those of `dst` from
/// `dst_off` on, a byte at a time, and leaves the other bits of `dst` alone; gives
/// how many bits of that part of `dst` were set before and are set after.
fn bitmap_copy_bits(
    dst: &mut [u8],
    dst_off: usize,
    src: &[u8],
    src_off: usize,
    len: usize,
) -> (counts: (u64, u64))
    requires
        len == 0 || dst_off + len <= 8 * old(dst)@.len(),
        len == 0 || src_off + len <= 8 * src@.len(),
        dst_off + len <= usize::MAX,
        src_off + len <= usize::MAX,
    ensures
        counts.0 == ones(bits(old(dst)@, dst_off as int, len as nat)),
        counts.1 == ones(bits(src@, src_off as int, len as nat)),
        final(dst)@.len() == old(dst)@.len(),
        forall|k: int|
            0 <= k < 8 * old(dst)@.len() ==> #[trigger] bit_at(final(dst)@, k) == if dst_off <= k
                < dst_off + len {
                bit_at(src@, src_off + k - dst_off)
            } else {
                bit_at(old(dst)@, k)
            },
{
    let old_ones: u64 = bitmap_count_ones(dst, dst_off, len);
    let ghost before = dst@;
    let mut done: usize = 0;
    while done < len
        invariant
            len == 0 || dst_off + len <= 8 * before.len(),
            len == 0 || src_off + len <= 8 * src@.len(),
            dst_off + len <= usize::MAX,
            src_off + len <= usize::MAX,
            done <= len,
            dst@.len() == before.len(),
            forall|k: int|
                0 <= k < 8 * before.len() ==> #[trigger] bit_at(dst@, k) == if dst_off <= k
                    < dst_off + done {
                    bit_at(src@, src_off + k - dst_off)
                } else {
                    bit_at(before, k)
                },
        decreases len - done,
    {
        let pos: usize = dst_off + done;
        let p: usize = pos % 8;
        let n: usize = if len - done < 8 - p {
            len - done
        } else {
            8 - p
        };
        let at: usize = pos / 8;
        assert(at < dst@.len());
        let ghost current = dst@;
        let low: u8 = read_shifted_byte(src, src_off + done, n);
        let sh: u8 = p as u8;
        let moved: u8 = low << sh;
        let b: u8 = merge_byte(dst[at], moved, sh, n as u8);
        dst[at] = b;
        assert forall|k: int| 0 <= k < 8 * before.len() implies #[trigger] bit_at(dst@, k)
            == if dst_off <= k < dst_off + done + n {
            bit_at(src@, src_off + k - dst_off)
        } else {
            bit_at(before, k)
        } by {
            assert(bit_at(current, k) == if dst_off <= k < dst_off + done {
                bit_at(src@, src_off + k - dst_off)
            } else {
                bit_at(before, k)
            });
            let i = (k % 8) as u8;
            if k / 8 == at {
                assert(k == 8 * at + i && pos == 8 * at + p);
                assert(byte_bit(b, i) == if p <= i < p + n {
                    byte_bit(moved, i)
                } else {
                    byte_bit(current[at as int], i)
                });
                if p <= i < p + n {
                    let j = (i - p) as u8;
                    assert(byte_bit(low, j) == bit_at(src@, src_off + done + j));
                    assert((((low << sh) >> i) & 1u8 == 1u8) == ((low >> j) & 1u8 == 1u8))
                        by (bit_vector)
                        requires
                            j + sh == i,
                            i < 8,
                    ;
                    assert(src_off + done + j == src_off + k - dst_off);
                }
            } else {
                assert(dst@[k / 8] == current[k / 8]);
                assert(k < 8 * at || k >= 8 * at + 8);
            }
        }
        done = done + n;
    }
    let new_ones: u64 = bitmap_count_ones(dst, dst_off, len);
    proof {
        assert forall|i: int| 0 <= i < len implies #[trigger] bits(dst@, dst_off as int, len as nat)[i]
            == bits(src@, src_off as int, len as nat)[i] by {
            assert(bit_at(dst@, dst_off + i) == bit_at(src@, src_off + i));
        }
        assert(bits(dst@, dst_off as int, len as nat) =~= bits(src@, src_off as int, len as nat));
    }
    (old_ones, new_ones)
}

/// Bits that belong to someone else, from any bit on.
#[derive(Debug, Clone, Copy)]
pub struct BitmapView<'a> {
    data: BufferView<'a>,
    bit_offset: usize,
    len: usize,
}

impl<'a> View for BitmapView<'a> {
    type V = Seq<bool>;

    open spec fn view(&self) -> Seq<bool> {
        bits(self.bytes(), self.offset(), self.spec_len())
    }
}

/// What is said of bits that lie beyond the end of a bitmap.
pub open spec fn slice_message(bits: nat, offset: int, count: int) -> Seq<char> {
    "bitmap slice ["@ + text::dec(offset as nat) + ", "@ + text::dec((offset + count) as nat)
        + ") out of range (len="@ + text::dec(bits) + ")"@
}

impl<'a> BitmapView<'a> {
    #[verifier::type_invariant]
    spec fn inv(self) -> bool {
        &&& self.bit_offset + self.len <= 8 * self.data@.len()
        &&& self.bit_offset + self.len <= usize::MAX
    }

    /// The bytes under the view.
    pub closed spec fn bytes(self) -> Seq<u8> {
        self.data@
    }

    /// The bit of `bytes` that is bit 0 of the view.
    pub closed spec fn offset(self) -> int {
        self.bit_offset as int
    }

    pub closed spec fn spec_len(self) -> nat {
        self.len as nat
    }

    /// The view of `len` bits from `bit_offset` on.  `data` must hold all of them.
    pub fn new(data: BufferView<'a>, bit_offset: usize, len: usize) -> (r: Result<
        Self,
        FormatError,
    >)
        requires
            bit_offset + len <= usize::MAX,
        ensures
            match r {
                Ok(view) => {
                    &&& data@.len() >= bytes_for(bit_offset + len)
                    &&& view.bytes() == data@
                    &&& view.offset() == bit_offset
                    &&& view.spec_len() == len
                },
                Err(FormatError::InvalidLayout(message)) => {
                    &&& data@.len() < bytes_for(bit_offset + len)
                    &&& message@ == "validity buffer too small: need "@ + text::dec(
                        bytes_for(bit_offset + len) as nat,
                    ) + " bytes for bits ["@ + text::dec(bit_offset as nat) + ", "@ + text::dec(
                        (bit_offset + len) as nat,
                    ) + "), got "@ + text::dec(data@.len())
                },
                Err(_) => false,
            },
    {
        let needed: usize = byte_count(bit_offset + len);
        if data.len() < needed {
            let mut message = String::new();
            message.append("validity buffer too small: need ");
            text::push_dec(&mut message, needed as u64);
            message.append(" bytes for bits [");
            text::push_dec(&mut message, bit_offset as u64);
            message.append(", ");
            text::push_dec(&mut message, (bit_offset + len) as u64);
            message.append("), got ");
            text::push_dec(&mut message, data.len() as u64);
            return Err(FormatError::InvalidLayout(message));
        }
        Ok(BitmapView { data, bit_offset, len })
    }

    pub fn len(&self) -> (len: usize)
        ensures
            len == self@.len(),
            len == self.spec_len(),
    {
        self.len
    }

    pub fn is_empty(&self) -> (empty: bool)
        ensures
            empty == (self@.len() == 0),
    {
        self.len == 0
    }

    pub fn is_valid(&self, i: usize) -> (valid: bool)
        requires
            i < self@.len(),
        ensures
            valid == self@[i as int],
    {
        proof {
            use_type_invariant(self);
        }
        let bit: usize = self.bit_offset + i;
        let b: u8 = self.data.as_slice()[bit / 8];
        let sh: u8 = (bit % 8) as u8;
        (b >> sh) & 1 == 1
    }

    /// The bytes under the view, from the one that holds its first bit on.
    pub fn as_raw(&self) -> (bytes: &'a [u8])
        ensures
            bytes@ == self.bytes().skip(self.offset() / 8),
            bits(bytes@, self.offset() % 8, self.spec_len()) == self@,
    {
        proof {
            use_type_invariant(self);
        }
        let all = self.data.as_slice();
        let bytes = vstd::slice::slice_subrange(all, self.bit_offset / 8, all.len());
        proof {
            let from = self.offset() % 8;
            assert(bytes@ =~= self.bytes().skip(self.offset() / 8));
            assert forall|i: int| 0 <= i < self.spec_len() implies #[trigger] bits(
                bytes@,
                from,
                self.spec_len(),
            )[i] == self@[i] by {
                let k = self.offset() + i;
                assert((from + i) / 8 + self.offset() / 8 == k / 8);
                assert((from + i) % 8 == k % 8);
            }
            assert(bits(bytes@, from, self.spec_len()) =~= self@);
        }
        bytes
    }

    pub fn all_valid(&self) -> (all: bool)
        ensures
            all == (forall|i: int| 0 <= i < self@.len() ==> self@[i]),
    {
        proof {
            lemma_ones_full(self@);
        }
        self.count_ones() == self.len
    }

    pub fn count_ones(&self) -> (count: usize)
        ensures
            count == ones(self@),
            count <= self@.len(),
    {
        proof {
            use_type_invariant(self);
            lemma_ones_bound(self@);
        }
        bitmap_count_ones(self.data.as_slice(), self.bit_offset, self.len) as usize
    }

    pub fn null_count(&self) -> (count: usize)
        ensures
            count + ones(self@) == self@.len(),
    {
        self.len - self.count_ones()
    }

    /// Copies the first `len` bits over those of `dst` from `dst_off` on; gives how
    /// many bits of that part of `dst` were set before and are set after.
    pub fn copy_bits_into(&self, dst: &mut [u8], dst_off: usize, len: usize) -> (counts: (u64, u64))
        requires
            len == 0 || dst_off + len <= 8 * old(dst)@.len(),
            len == 0 || self.offset() + len <= 8 * self.bytes().len(),
            dst_off + len <= usize::MAX,
            self.offset() + len <= usize::MAX,
        ensures
            counts.0 == ones(bits(old(dst)@, dst_off as int, len as nat)),
            counts.1 == ones(bits(self.bytes(), self.offset(), len as nat)),
            final(dst)@.len() == old(dst)@.len(),
            forall|k: int|
                0 <= k < 8 * old(dst)@.len() ==> #[trigger] bit_at(final(dst)@, k) == if dst_off
                    <= k < dst_off + len {
                    bit_at(self.bytes(), self.offset() + k - dst_off)
                } else {
                    bit_at(old(dst)@, k)
                },
    {
        bitmap_copy_bits(dst, dst_off, self.data.as_slice(), self.bit_offset, len)
    }

    /// The bits in bytes of their own, from bit 0 on, with zero bits behind them.
    pub fn to_packed_bytes(&self) -> (out: Vec<u8>)
        ensures
            packed(out@, self@),
    {
        proof {
            use_type_invariant(self);
        }
        packed_copy(self.data.as_slice(), self.bit_offset, self.len)
    }

    /// The `len` bits from `offset` on, as far as the bytes under the view hold them.
    pub fn shifted(&self, offset: usize, len: usize) -> (r: Result<Self, FormatError>)
        requires
            offset + len <= self@.len() || self.offset() + offset + len <= usize::MAX,
        ensures
            offset + len <= self@.len() ==> r is Ok,
            match r {
                Ok(view) => {
                    &&& self.bytes().len() >= bytes_for(self.offset() + offset + len)
                    &&& view.bytes() == self.bytes()
                    &&& view.offset() == self.offset() + offset
                    &&& view.spec_len() == len
                },
                Err(FormatError::InvalidLayout(message)) => {
                    &&& self.bytes().len() < bytes_for(self.offset() + offset + len)
                    &&& message@ == "validity buffer too small: need "@ + text::dec(
                        bytes_for(self.offset() + offset + len) as nat,
                    ) + " bytes for bits ["@ + text::dec((self.offset() + offset) as nat) + ", "@
                        + text::dec((self.offset() + offset + len) as nat) + "), got "@
                        + text::dec(self.bytes().len())
                },
                Err(_) => false,
            },
    {
        proof {
            use_type_invariant(self);
        }
        BitmapView::new(self.data, self.bit_offset + offset, len)
    }

    /// The `len` bits from `offset` on, without copying.
    pub fn slice(&self, offset: usize, len: usize) -> (r: Result<Self, FormatError>)
        requires
            offset + len <= usize::MAX,
        ensures
            match r {
                Ok(view) => {
                    &&& offset + len <= self@.len()
                    &&& view@ == self@.subrange(offset as int, offset + len)
                    &&& view.bytes() == self.bytes()
                    &&& view.offset() == self.offset() + offset
                    &&& view.offset() + len <= 8 * view.bytes().len()
                    &&& view.offset() + len <= usize::MAX
                },
                Err(FormatError::InvalidLayout(message)) => {
                    &&& offset + len > self@.len()
                    &&& message@ == slice_message(self@.len(), offset as int, len as int)
                },
                Err(_) => false,
            },
    {
        if offset + len > self.len {
            let mut message = String::new();
            message.append("bitmap slice [");
            text::push_dec(&mut message, offset as u64);
            message.append(", ");
            text::push_dec(&mut message, (offset + len) as u64);
            message.append(") out of range (len=");
            text::push_dec(&mut message, self.len as u64);
            message.append(")");
            return Err(FormatError::InvalidLayout(message));
        }
        proof {
            use_type_invariant(self);
        }
        let view = BitmapView { data: self.data, bit_offset: self.bit_offset + offset, len };
        assert(view@ =~= self@.subrange(offset as int, offset + len));
        Ok(view)
    }
}

/// Bytes that hold exactly the given bits, from bit 0 on, and zero bits behind them.
pub open spec fn packed(bytes: Seq<u8>, rows: Seq<bool>) -> bool {
    &&& bytes.len() == bytes_for(rows.len() as int)
    &&& bits(bytes, 0, rows.len()) == rows
    &&& forall|k: int| rows.len() <= k < 8 * bytes.len() ==> !#[trigger] bit_at(bytes, k)
}

/// Packed bits are read back from their bytes, which are no more than they need and clear
/// behind them.
pub proof fn law_packed_read_back(bytes: Seq<u8>, rows: Seq<bool>)
    requires
        packed(bytes, rows),
    ensures
        bytes.len() == (rows.len() + 7) / 8,
        bits(bytes, 0, rows.len()) == rows,
        forall|i: int| 0 <= i < rows.len() ==> #[trigger] bits(bytes, 0, rows.len())[i] == rows[i],
        forall|k: int| rows.len() <= k < 8 * bytes.len() ==> !#[trigger] bit_at(bytes, k),
{
}

/// The set bits of two stretches that follow each other are those of both together.
pub proof fn law_counts_add(bytes: Seq<u8>, from: int, a: nat, b: nat)
    ensures
        ones(bits(bytes, from, a)) + ones(bits(bytes, from + a, b)) == ones(
            bits(bytes, from, a + b),
        ),
{
    lemma_ones_add(bits(bytes, from, a), bits(bytes, from + a, b));
    assert(bits(bytes, from, a) + bits(bytes, from + a, b) =~= bits(bytes, from, a + b));
}

/// A count goes up by one for each set bit and by none for a clear one.
pub proof fn law_count_by_bit(bytes: Seq<u8>, from: int, len: nat)
    ensures
        ones(bits(bytes, from, 0)) == 0,
        ones(bits(bytes, from, len + 1)) == ones(bits(bytes, from, len)) + if bit_at(
            bytes,
            from + len,
        ) {
            1nat
        } else {
            0nat
        },
{
    assert(bits(bytes, from, len + 1).drop_last() =~= bits(bytes, from, len));
}

/// The bytes that hold given bits are determined by them.
pub proof fn law_packed_unique(a: Seq<u8>, b: Seq<u8>, rows: Seq<bool>)
    requires
        packed(a, rows),
        packed(b, rows),
    ensures
        a == b,
{
    assert forall|j: int| 0 <= j < a.len() implies a[j] == b[j] by {
        assert forall|i: u8| i < 8 implies #[trigger] byte_bit(a[j], i) == byte_bit(b[j], i) by {
            let k = 8 * j + i;
            assert(k / 8 == j && k % 8 == i);
            if k < rows.len() {
                assert(bits(a, 0, rows.len())[k] == bits(b, 0, rows.len())[k]);
            } else {
                assert(!bit_at(a, k) && !bit_at(b, k));
            }
        }
        let (x, y) = (a[j], b[j]);
        assert(byte_bit(x, 0) == byte_bit(y, 0) && byte_bit(x, 1) == byte_bit(y, 1)
            && byte_bit(x, 2) == byte_bit(y, 2) && byte_bit(x, 3) == byte_bit(y, 3)
            && byte_bit(x, 4) == byte_bit(y, 4) && byte_bit(x, 5) == byte_bit(y, 5)
            && byte_bit(x, 6) == byte_bit(y, 6) && byte_bit(x, 7) == byte_bit(y, 7));
        assert(x == y) by (bit_vector)
            requires
                byte_bit(x, 0) == byte_bit(y, 0),
                byte_bit(x, 1) == byte_bit(y, 1),
                byte_bit(x, 2) == byte_bit(y, 2),
                byte_bit(x, 3) == byte_bit(y, 3),
                byte_bit(x, 4) == byte_bit(y, 4),
                byte_bit(x, 5) == byte_bit(y, 5),
                byte_bit(x, 6) == byte_bit(y, 6),
                byte_bit(x, 7) == byte_bit(y, 7),
        ;
    }
    assert(a =~= b);
}

/// Zero bytes hold zero bits.
proof fn lemma_zero_bytes(bytes: Seq<u8>)
    requires
        forall|j: int| 0 <= j < bytes.len() ==> bytes[j] == 0,
    ensures
        forall|k: int| 0 <= k < 8 * bytes.len() ==> !#[trigger] bit_at(bytes, k),
{
    assert forall|k: int| 0 <= k < 8 * bytes.len() implies !#[trigger] bit_at(bytes, k) by {
        let i = (k % 8) as u8;
        assert(bytes[k / 8] == 0);
        assert((0u8 >> i) & 1u8 == 0u8) by (bit_vector);
    }
}

/// Copies bits into bytes of their own, from bit 0 on.
fn packed_copy(src: &[u8], src_off: usize, len: usize) -> (out: Vec<u8>)
    requires
        src_off + len <= 8 * src@.len(),
        src_off + len <= usize::MAX,
    ensures
        packed(out@, bits(src@, src_off as int, len as nat)),
{
    let mut out: Vec<u8> = vec![0u8; byte_count(len)];
    proof {
        lemma_zero_bytes(out@);
    }
    let counts = bitmap_copy_bits(out.as_mut_slice(), 0, src, src_off, len);
    proof {
        let rows = bits(src@, src_off as int, len as nat);
        assert forall|i: int| 0 <= i < len implies #[trigger] bits(out@, 0, len as nat)[i]
            == rows[i] by {
            assert(bit_at(out@, i) == bit_at(src@, src_off + i - 0));
        }
        assert(bits(out@, 0, len as nat) =~= rows);
    }
    out
}

/// Bits of its own.
#[derive(Debug)]
pub struct Bitmap {
    data: Buffer,
    bit_offset: usize,
    len: usize,
}

impl View for Bitmap {
    type V = Seq<bool>;

    open spec fn view(&self) -> Seq<bool> {
        bits(self.bytes(), self.offset(), self.spec_len())
    }
}

impl Clone for Bitmap {
    fn clone(&self) -> (copy: Self)
        ensures
            copy.bytes() == self.bytes(),
            copy.offset() == self.offset(),
            copy.spec_len() == self.spec_len(),
            copy.wf() == self.wf(),
    {
        Bitmap { data: self.data.clone(), bit_offset: self.bit_offset, len: self.len }
    }
}

impl Bitmap {
    /// The bytes hold all bits.
    pub closed spec fn wf(self) -> bool {
        &&& self.bit_offset + self.len <= 8 * self.data@.len()
        &&& self.bit_offset + self.len <= usize::MAX
    }

    /// The bytes that hold the bits.
    pub closed spec fn bytes(self) -> Seq<u8> {
        self.data@
    }

    /// The bit of `bytes` that is bit 0 of the bitmap.
    pub closed spec fn offset(self) -> int {
        self.bit_offset as int
    }

    pub closed spec fn spec_len(self) -> nat {
        self.len as nat
    }

    /// `len` clear bits: every row missing.
    pub fn zeros(len: usize) -> (bitmap: Self)
        ensures
            bitmap.wf(),
            bitmap.offset() == 0,
            bitmap@ == Seq::new(len as nat, |i: int| false),
            packed(bitmap.bytes(), bitmap@),
    {
        assert(vstd::arithmetic::power2::is_pow2(1)) by {
            reveal(vstd::arithmetic::power2::is_pow2);
        }
        let bitmap = Bitmap {
            data: Buffer::zeroed_aligned(byte_count(len), 1),
            bit_offset: 0,
            len,
        };
        proof {
            lemma_zero_bytes(bitmap.bytes());
            assert(bitmap@ =~= Seq::new(len as nat, |i: int| false));
        }
        bitmap
    }

    /// `len` set bits: no row missing.  The bits of the last byte behind them are clear.
    pub fn ones(len: usize) -> (bitmap: Self)
        ensures
            bitmap.wf(),
            bitmap.offset() == 0,
            bitmap@ == Seq::new(len as nat, |i: int| true),
            packed(bitmap.bytes(), bitmap@),
    {
        let mut bitmap = Bitmap::zeros(len);
        let cleared: u64 = bitmap.set_range(0, len, true);
        assert(bitmap@ =~= Seq::new(len as nat, |i: int| true));
        bitmap
    }

    /// Takes over bytes that hold `len` bits.
    pub fn from_bytes(bytes: Vec<u8>, len: usize) -> (bitmap: Self)
        requires
            bytes@.len() == bytes_for(len as int),
        ensures
            bitmap.wf(),
            bitmap.bytes() == bytes@,
            bitmap.offset() == 0,
            bitmap@ == bits(bytes@, 0, len as nat),
    {
        Bitmap { data: Buffer::from_vec(bytes), bit_offset: 0, len }
    }

    pub fn len(&self) -> (len: usize)
        ensures
            len == self@.len(),
    {
        self.len
    }

    pub fn is_empty(&self) -> (empty: bool)
        ensures
            empty == (self@.len() == 0),
    {
        self.len == 0
    }

    pub fn is_valid(&self, i: usize) -> (valid: bool)
        requires
            self.wf(),
            i < self@.len(),
        ensures
            valid == self@[i as int],
    {
        self.as_view().is_valid(i)
    }

    pub fn set(&mut self, i: usize, valid: bool)
        requires
            old(self).wf(),
            i < old(self)@.len(),
        ensures
            final(self).wf(),
            final(self)@ == old(self)@.update(i as int, valid),
            final(self).offset() == old(self).offset(),
            forall|k: int|
                0 <= k < 8 * old(self).bytes().len() && k != old(self).offset() + i
                    ==> #[trigger] bit_at(final(self).bytes(), k) == bit_at(old(self).bytes(), k),
            final(self).bytes().len() == old(self).bytes().len(),
    {
        let was: u64 = self.set_range(i, 1, valid);
        assert(self@ =~= old(self)@.update(i as int, valid));
    }

    pub fn as_view(&self) -> (view: BitmapView<'_>)
        requires
            self.wf(),
        ensures
            view@ == self@,
            view.bytes() == self.bytes(),
            view.offset() == self.offset(),
            view.spec_len() == self.spec_len(),
    {
        BitmapView {
            data: BufferView::from_buffer(&self.data),
            bit_offset: self.bit_offset,
            len: self.len,
        }
    }

    /// The bits `offset .. offset + len` in bytes of their own.  Where they lie beyond the
    /// end, the message gives the first twice, and then where they would end.
    pub fn extract_bits(&self, offset: usize, len: usize) -> (r: Result<Vec<u8>, FormatError>)
        requires
            self.wf(),
            offset + len <= usize::MAX,
        ensures
            match r {
                Ok(out) => {
                    &&& offset + len <= self@.len()
                    &&& packed(out@, self@.subrange(offset as int, offset + len))
                },
                Err(FormatError::InvalidLayout(message)) => {
                    &&& offset + len > self@.len()
                    &&& message@ == "bitmap extract ["@ + text::dec(offset as nat) + ", "@
                        + text::dec(offset as nat) + ") out of range (len="@ + text::dec(
                        (offset + len) as nat,
                    ) + ")"@
                },
                Err(_) => false,
            },
    {
        if offset + len > self.len {
            let mut message = String::new();
            message.append("bitmap extract [");
            text::push_dec(&mut message, offset as u64);
            message.append(", ");
            text::push_dec(&mut message, offset as u64);
            message.append(") out of range (len=");
            text::push_dec(&mut message, (offset + len) as u64);
            message.append(")");
            return Err(FormatError::InvalidLayout(message));
        }
        assert(bits(self.bytes(), self.offset() + offset, len as nat) =~= self@.subrange(
            offset as int,
            offset + len,
        ));
        Ok(packed_copy(self.data.as_slice(), self.bit_offset + offset, len))
    }

    pub fn count_ones(&self) -> (count: usize)
        requires
            self.wf(),
        ensures
            count == ones(self@),
            count <= self@.len(),
    {
        self.as_view().count_ones()
    }

    pub fn null_count(&self) -> (count: usize)
        requires
            self.wf(),
        ensures
            count + ones(self@) == self@.len(),
    {
        self.len - self.count_ones()
    }

    /// Copies the first `len` bits of `src` over those from `offset` on; gives how
    /// many bits of that part were set before and are set after.
    pub fn copy_bits_from(
        &mut self,
        offset: usize,
        src: &BitmapView<'_>,
        len: usize,
    ) -> (counts: (u64, u64))
        requires
            old(self).wf(),
            offset + len <= old(self)@.len(),
            len == 0 || src.offset() + len <= 8 * src.bytes().len(),
            src.offset() + len <= usize::MAX,
        ensures
            final(self).wf(),
            final(self)@.len() == old(self)@.len(),
            counts.0 == ones(old(self)@.subrange(offset as int, offset + len)),
            counts.1 == ones(final(self)@.subrange(offset as int, offset + len)),
            forall|i: int|
                0 <= i < old(self)@.len() ==> #[trigger] final(self)@[i] == if offset <= i < offset
                    + len {
                    bit_at(src.bytes(), src.offset() + i - offset)
                } else {
                    old(self)@[i]
                },
            len <= src@.len() ==> final(self)@.subrange(offset as int, offset + len)
                == src@.subrange(0, len as int),
    {
        let ghost before = self.bytes();
        let ghost rows = self@;
        let ghost from = self.offset();
        let start: usize = self.bit_offset + offset;
        let counts = bitmap_copy_bits(
            self.data.as_mut_slice(),
            start,
            src.data.as_slice(),
            src.bit_offset,
            len,
        );
        proof {
            assert forall|i: int| 0 <= i < rows.len() implies #[trigger] self@[i] == if offset <= i
                < offset + len {
                bit_at(src.bytes(), src.offset() + i - offset)
            } else {
                rows[i]
            } by {
                assert(self@[i] == bit_at(self.bytes(), from + i));
            }
            assert(bits(before, start as int, len as nat) =~= rows.subrange(
                offset as int,
                offset + len,
            ));
            assert(bits(src.bytes(), src.offset(), len as nat) =~= self@.subrange(
                offset as int,
                offset + len,
            ));
            if len <= src@.len() {
                assert(self@.subrange(offset as int, offset + len) =~= src@.subrange(
                    0,
                    len as int,
                ));
            }
        }
        counts
    }

    /// Sets the `len` bits from `offset` on to `valid`; gives how many of them were
    /// set before.
    pub fn set_range(&mut self, offset: usize, len: usize, valid: bool) -> (old_ones: u64)
        requires
            old(self).wf(),
            offset + len <= old(self)@.len(),
        ensures
            final(self).wf(),
            final(self)@.len() == old(self)@.len(),
            final(self).offset() == old(self).offset(),
            final(self).bytes().len() == old(self).bytes().len(),
            old_ones == ones(old(self)@.subrange(offset as int, offset + len)),
            forall|i: int|
                0 <= i < old(self)@.len() ==> #[trigger] final(self)@[i] == if offset <= i < offset
                    + len {
                    valid
                } else {
                    old(self)@[i]
                },
            forall|k: int|
                0 <= k < 8 * old(self).bytes().len() && !(old(self).offset() + offset <= k
                    < old(self).offset() + offset + len) ==> #[trigger] bit_at(
                    final(self).bytes(),
                    k,
                ) == bit_at(old(self).bytes(), k),
    {
        let ghost before = self.bytes();
        let ghost rows = self@;
        let ghost from = self.offset();
        let start: usize = self.bit_offset + offset;
        let old_ones: u64 = bitmap_fill_bits(self.data.as_mut_slice(), start, len, valid);
        proof {
            assert forall|i: int| 0 <= i < rows.len() implies #[trigger] self@[i] == if offset <= i
                < offset + len {
                valid
            } else {
                rows[i]
            } by {
                assert(self@[i] == bit_at(self.bytes(), from + i));
            }
            assert(bits(before, start as int, len as nat) =~= rows.subrange(
                offset as int,
                offset + len,
            ));
        }
        old_ones
    }
}

/// The bits of a byte are its digits in base two, the least first.
pub proof fn law_bits_of_byte(b: u8)
    ensures
        b == (if byte_bit(b, 0) {
            1int
        } else {
            0
        }) + (if byte_bit(b, 1) {
            2int
        } else {
            0
        }) + (if byte_bit(b, 2) {
            4int
        } else {
            0
        }) + (if byte_bit(b, 3) {
            8int
        } else {
            0
        }) + (if byte_bit(b, 4) {
            16int
        } else {
            0
        }) + (if byte_bit(b, 5) {
            32int
        } else {
            0
        }) + (if byte_bit(b, 6) {
            64int
        } else {
            0
        }) + (if byte_bit(b, 7) {
            128int
        } else {
            0
        }),
{
    assert(((b >> 0) & 1u8) + 2 * ((b >> 1) & 1u8) + 4 * ((b >> 2) & 1u8) + 8 * ((b >> 3) & 1u8) + 16
        * ((b >> 4) & 1u8) + 32 * ((b >> 5) & 1u8) + 64 * ((b >> 6) & 1u8) + 128 * ((b >> 7) & 1u8)
        == b && ((b >> 0) & 1u8) <= 1 && ((b >> 1) & 1u8) <= 1 && ((b >> 2) & 1u8) <= 1 && ((b >> 3)
        & 1u8) <= 1 && ((b >> 4) & 1u8) <= 1 && ((b >> 5) & 1u8) <= 1 && ((b >> 6) & 1u8) <= 1 && ((
    b >> 7) & 1u8) <= 1) by (bit_vector);
}

/// Eight bits to a byte: bit 8 i + j of bytes is bit j of byte i; and rows take as many bytes
/// as hold them, and no more.
pub proof fn law_eight_to_a_byte(bytes: Seq<u8>, i: int, j: int, len: int)
    requires
        0 <= j < 8,
        0 <= len,
    ensures
        bit_at(bytes, 8 * i + j) == byte_bit(bytes[i], j as u8),
        len <= 8 * bytes_for(len) < len + 8,
{
    assert((8 * i + j) / 8 == i && (8 * i + j) % 8 == j);
}

/// The bits that are set and those that are not are all of them.
pub proof fn law_set_and_unset(s: Seq<bool>)
    ensures
        ones(s) + ones(s.map_values(|b: bool| !b)) == s.len(),
        ones(Seq::empty()) == 0,
        ones(seq![true]) == 1,
        ones(seq![false]) == 0,
    decreases s.len(),
{
    reveal_with_fuel(ones, 2);
    assert(seq![true].drop_last() =~= Seq::<bool>::empty());
    assert(seq![false].drop_last() =~= Seq::<bool>::empty());
    if s.len() > 0 {
        let t = s.map_values(|b: bool| !b);
        law_set_and_unset(s.drop_last());
        assert(t.drop_last() =~= s.drop_last().map_values(|b: bool| !b));
    }
}

} // verus!

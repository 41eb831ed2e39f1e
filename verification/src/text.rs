//! Numbers and names as text.

use vstd::prelude::*;
use vstd::string::*;

verus! {

/// `String::push` appends one character.
pub assume_specification[ std::string::String::push ](s: &mut std::string::String, c: char)
    ensures
        final(s)@ == old(s)@.push(c),
;

/// Where and why bytes are no text.
#[verifier::external_type_specification]
#[verifier::external_body]
pub struct ExUtf8Error(std::str::Utf8Error);

/// `std::str::from_utf8`: the bytes as text, without copying, exactly where they are
/// valid UTF-8.
#[verifier::external_body]
pub(crate) fn from_utf8(bytes: &[u8]) -> (r: Result<&str, std::str::Utf8Error>)
    ensures
        r is Ok == vstd::utf8::valid_utf8(bytes@),
        r matches Ok(s) ==> s@ == vstd::utf8::decode_utf8(bytes@),
{
    std::str::from_utf8(bytes)
}

/// `Utf8Error`'s `Display`: why bytes are no text, in words of which nothing is said here.
#[verifier::external_body]
pub(crate) fn utf8_reason(e: &std::str::Utf8Error) -> (reason: std::string::String) {
    format!("{e}")
}

/// The character of a decimal or hexadecimal digit.
pub open spec fn digit(d: nat) -> char {
    if d < 10 {
        (48 + d) as char
    } else {
        (87 + d) as char
    }
}

pub proof fn lemma_quotient_below(n: nat, base: nat)
    by (nonlinear_arith)
    requires
        base >= 2,
        n >= base,
    ensures
        n / base < n,
{
}

/// `n` in the given base, without leading zeros.
pub open spec fn in_base(n: nat, base: nat) -> Seq<char>
    decreases n,
{
    if n < base || base < 2 {
        seq![digit(n)]
    } else {
        proof {
            lemma_quotient_below(n, base);
        }
        in_base(n / base, base).push(digit(n % base))
    }
}

/// `n` in decimal.
pub open spec fn dec(n: nat) -> Seq<char> {
    in_base(n, 10)
}

/// `n` in decimal, with a minus sign where it is negative.
pub open spec fn dec_int(n: int) -> Seq<char> {
    if n < 0 {
        seq!['-'] + dec((-n) as nat)
    } else {
        dec(n as nat)
    }
}

/// `n` zeros.
pub open spec fn zeros(n: int) -> Seq<char> {
    Seq::new(if n < 0 { 0 } else { n as nat }, |i: int| '0')
}

/// `n` in decimal, filled with zeros behind the sign up to `width` characters.
pub open spec fn dec_padded(n: int, width: int) -> Seq<char> {
    if n < 0 {
        seq!['-'] + zeros(width - 1 - dec((-n) as nat).len()) + dec((-n) as nat)
    } else {
        zeros(width - dec(n as nat).len()) + dec(n as nat)
    }
}

fn digit_char(d: u8) -> (c: char)
    requires
        d < 16,
    ensures
        c == digit(d as nat),
{
    if d < 10 {
        (48 + d) as char
    } else {
        (87 + d) as char
    }
}

fn push_in_base(text: &mut String, n: u64, base: u64)
    requires
        2 <= base <= 16,
    ensures
        final(text)@ == old(text)@ + in_base(n as nat, base as nat),
    decreases n,
{
    if n >= base {
        proof {
            lemma_quotient_below(n as nat, base as nat);
        }
        push_in_base(text, n / base, base);
    }
    let low: u64 = n % base;
    assert(n < base ==> low == n) by (nonlinear_arith)
        requires
            low == n % base,
            base >= 2,
    ;
    text.push(digit_char(low as u8));
}

/// Appends `n` in decimal.
pub fn push_dec(text: &mut String, n: u64)
    ensures
        final(text)@ == old(text)@ + dec(n as nat),
{
    push_in_base(text, n, 10)
}

/// Appends `n` in hexadecimal.
pub fn push_hex(text: &mut String, n: u64)
    ensures
        final(text)@ == old(text)@ + in_base(n as nat, 16),
{
    push_in_base(text, n, 16)
}

/// The magnitude of `n`.
fn magnitude(n: i64) -> (m: u64)
    ensures
        m == if n < 0 { -n } else { n as int },
{
    if n == i64::MIN {
        0x8000_0000_0000_0000
    } else if n < 0 {
        (-n) as u64
    } else {
        n as u64
    }
}

/// Appends `n` in decimal, with its sign.
pub fn push_dec_int(text: &mut String, n: i64)
    ensures
        final(text)@ == old(text)@ + dec_int(n as int),
{
    if n < 0 {
        text.push('-');
    }
    push_dec(text, magnitude(n));
}

/// Appends `n` in decimal, filled with zeros up to `width` characters.
pub fn push_dec_padded(text: &mut String, n: i64, width: usize)
    ensures
        final(text)@ == old(text)@ + dec_padded(n as int, width as int),
{
    let mut room: usize = width;
    if n < 0 {
        text.push('-');
        if room > 0 {
            room = room - 1;
        }
    }
    let m: u64 = magnitude(n);
    let mut digits = String::new();
    push_dec(&mut digits, m);
    let have: usize = digits.as_str().unicode_len();
    let ghost start = text@;
    let fill: usize = if have < room { room - have } else { 0 };
    let mut k: usize = 0;
    while k < fill
        invariant
            k <= fill,
            text@ == start + zeros(k as int),
        decreases fill - k,
    {
        text.push('0');
        k += 1;
    }
    assert(zeros(fill as int) =~= zeros(room - have));
    assert(zeros(width - 1 - have) =~= zeros(room - have) || n >= 0);
    text.append(digits.as_str());
}

/// `a` stands before `b` in the order of bytes.
pub open spec fn bytes_before(a: Seq<u8>, b: Seq<u8>) -> bool
    decreases a.len(),
{
    if b.len() == 0 {
        false
    } else if a.len() == 0 {
        true
    } else {
        a[0] < b[0] || (a[0] == b[0] && bytes_before(a.drop_first(), b.drop_first()))
    }
}

/// `a` stands before `b` in the order of text, which is that of its UTF-8 bytes.
pub open spec fn text_before(a: Seq<char>, b: Seq<char>) -> bool {
    bytes_before(vstd::utf8::encode_utf8(a), vstd::utf8::encode_utf8(b))
}

pub proof fn lemma_bytes_before_order(a: Seq<u8>, b: Seq<u8>)
    ensures
        !(bytes_before(a, b) && bytes_before(b, a)),
        bytes_before(a, b) || bytes_before(b, a) || a == b,
        !bytes_before(a, a),
    decreases a.len(),
{
    if a.len() > 0 && b.len() > 0 {
        lemma_bytes_before_order(a.drop_first(), b.drop_first());
        lemma_bytes_before_order(a.drop_first(), a.drop_first());
        if a[0] == b[0] && a.drop_first() == b.drop_first() {
            assert(a =~= seq![a[0]] + a.drop_first());
            assert(b =~= seq![b[0]] + b.drop_first());
        }
    } else {
        if a.len() == 0 && b.len() == 0 {
            assert(a =~= b);
        }
        if a.len() > 0 {
            lemma_bytes_before_order(a.drop_first(), a.drop_first());
        }
    }
}

pub proof fn lemma_bytes_before_transitive(a: Seq<u8>, b: Seq<u8>, c: Seq<u8>)
    requires
        bytes_before(a, b),
        bytes_before(b, c),
    ensures
        bytes_before(a, c),
    decreases a.len(),
{
    if a.len() > 0 && a[0] == b[0] && b[0] == c[0] {
        lemma_bytes_before_transitive(a.drop_first(), b.drop_first(), c.drop_first());
    }
}

/// Text with the same bytes is the same text.
pub proof fn lemma_utf8_injective(a: Seq<char>, b: Seq<char>)
    requires
        vstd::utf8::encode_utf8(a) == vstd::utf8::encode_utf8(b),
    ensures
        a == b,
{
    broadcast use vstd::utf8::encode_utf8_decode_utf8;

    assert(vstd::utf8::decode_utf8(vstd::utf8::encode_utf8(a)) == a);
    assert(vstd::utf8::decode_utf8(vstd::utf8::encode_utf8(b)) == b);
}

/// Of two texts one stands before the other, or they are equal.
pub proof fn lemma_text_before_order(a: Seq<char>, b: Seq<char>)
    ensures
        !(text_before(a, b) && text_before(b, a)),
        text_before(a, b) || text_before(b, a) || a == b,
        !text_before(a, a),
{
    let (x, y) = (vstd::utf8::encode_utf8(a), vstd::utf8::encode_utf8(b));
    lemma_bytes_before_order(x, y);
    lemma_bytes_before_order(x, x);
    if x == y {
        lemma_utf8_injective(a, b);
    }
}

pub proof fn lemma_text_before_transitive(a: Seq<char>, b: Seq<char>, c: Seq<char>)
    requires
        text_before(a, b),
        text_before(b, c),
    ensures
        text_before(a, c),
{
    lemma_bytes_before_transitive(
        vstd::utf8::encode_utf8(a),
        vstd::utf8::encode_utf8(b),
        vstd::utf8::encode_utf8(c),
    );
}

/// How two byte strings stand to each other.
#[derive(Debug, Clone, Copy, PartialEq, Eq, Structural)]
pub enum Relation {
    Before,
    Same,
    After,
}

/// Compares byte strings.
pub fn relate_bytes(a: &[u8], b: &[u8]) -> (r: Relation)
    ensures
        r == if bytes_before(a@, b@) {
            Relation::Before
        } else if a@ == b@ {
            Relation::Same
        } else {
            Relation::After
        },
        r is After ==> bytes_before(b@, a@),
{
    let mut k: usize = 0;
    let n: usize = a.len();
    let m: usize = b.len();
    proof {
        lemma_bytes_before_order(a@, b@);
        assert(a@.skip(0) =~= a@);
        assert(b@.skip(0) =~= b@);
    }
    while k < n && k < m
        invariant
            k <= n,
            k <= m,
            n == a@.len(),
            m == b@.len(),
            a@.take(k as int) == b@.take(k as int),
            bytes_before(a@, b@) == bytes_before(a@.skip(k as int), b@.skip(k as int)),
            bytes_before(b@, a@) == bytes_before(b@.skip(k as int), a@.skip(k as int)),
        decreases n - k,
    {
        proof {
            let (x, y) = (a@.skip(k as int), b@.skip(k as int));
            assert(x[0] == a@[k as int] && y[0] == b@[k as int]);
            assert(x.drop_first() =~= a@.skip(k + 1));
            assert(y.drop_first() =~= b@.skip(k + 1));
            lemma_bytes_before_order(a@, b@);
        }
        if a[k] < b[k] {
            return Relation::Before;
        }
        if a[k] > b[k] {
            return Relation::After;
        }
        proof {
            assert(a@.take(k + 1) =~= a@.take(k as int).push(a@[k as int]));
            assert(b@.take(k + 1) =~= b@.take(k as int).push(b@[k as int]));
        }
        k += 1;
    }
    proof {
        lemma_bytes_before_order(a@, b@);
    }
    if n < m {
        Relation::Before
    } else if n > m {
        Relation::After
    } else {
        proof {
            assert(a@.take(k as int) =~= a@);
            assert(b@.take(k as int) =~= b@);
        }
        Relation::Same
    }
}

/// Compares texts.
pub fn relate(a: &str, b: &str) -> (r: Relation)
    ensures
        r == if text_before(a@, b@) {
            Relation::Before
        } else if a@ == b@ {
            Relation::Same
        } else {
            Relation::After
        },
        r is After ==> text_before(b@, a@),
{
    proof {
        if vstd::utf8::encode_utf8(a@) == vstd::utf8::encode_utf8(b@) {
            lemma_utf8_injective(a@, b@);
        }
        lemma_text_before_order(a@, b@);
    }
    relate_bytes(a.as_bytes(), b.as_bytes())
}

/// Whether two texts are equal.
pub fn same(a: &str, b: &str) -> (yes: bool)
    ensures
        yes == (a@ == b@),
{
    proof {
        lemma_text_before_order(a@, b@);
    }
    match relate(a, b) {
        Relation::Same => true,
        _ => false,
    }
}

/// The characters of a text.
pub fn chars_of(s: &str) -> (chars: Vec<char>)
    ensures
        chars@ == s@,
{
    let mut chars: Vec<char> = Vec::new();
    for c in it: s.chars()
        invariant
            it.seq() == s@,
            chars@ == s@.take(it.index() as int),
    {
        chars.push(c);
        assert(s@.take(it.index() + 1) =~= s@.take(it.index() as int).push(c));
    }
    assert(s@.take(s@.len() as int) =~= s@);
    chars
}

/// The text of characters.
pub fn text_of(chars: &[char]) -> (s: String)
    ensures
        s@ == chars@,
{
    let mut s = String::new();
    let mut k: usize = 0;
    while k < chars.len()
        invariant
            k <= chars@.len(),
            s@ == chars@.take(k as int),
        decreases chars.len() - k,
    {
        s.push(chars[k]);
        assert(chars@.take(k + 1) =~= chars@.take(k as int).push(chars@[k as int]));
        k += 1;
    }
    assert(chars@.take(k as int) =~= chars@);
    s
}

/// Where a character first stands; the length where it does not.
pub open spec fn find(s: Seq<char>, c: char) -> int
    decreases s.len(),
{
    if s.len() == 0 || s[0] == c {
        0
    } else {
        1 + find(s.drop_first(), c)
    }
}

pub proof fn lemma_find(s: Seq<char>, c: char)
    ensures
        0 <= find(s, c) <= s.len(),
        find(s, c) < s.len() ==> s[find(s, c)] == c,
        forall|i: int| 0 <= i < find(s, c) ==> s[i] != c,
    decreases s.len(),
{
    if s.len() > 0 && s[0] != c {
        let rest = s.drop_first();
        lemma_find(rest, c);
        assert forall|i: int| 0 <= i < find(s, c) implies s[i] != c by {
            if i > 0 {
                assert(rest[i - 1] == s[i]);
            }
        }
    }
}

/// The first place is the one that has the character and none before it.
pub proof fn lemma_find_is(s: Seq<char>, c: char, k: int)
    requires
        0 <= k <= s.len(),
        k < s.len() ==> s[k] == c,
        forall|i: int| 0 <= i < k ==> s[i] != c,
    ensures
        find(s, c) == k,
{
    lemma_find(s, c);
    let f = find(s, c);
    if f < k {
        assert(s[f] != c);
    }
    if k < f {
        assert(s[k] != c);
    }
}

pub fn find_char(s: &[char], c: char) -> (at: usize)
    ensures
        at == find(s@, c),
        at <= s@.len(),
{
    let mut at: usize = 0;
    while at < s.len() && s[at] != c
        invariant
            at <= s@.len(),
            forall|i: int| 0 <= i < at ==> s@[i] != c,
        decreases s.len() - at,
    {
        at += 1;
    }
    proof {
        lemma_find_is(s@, c, at as int);
    }
    at
}

/// Whether characters are those of a text.
pub fn spells(s: &[char], word: &str) -> (yes: bool)
    ensures
        yes == (s@ == word@),
{
    let w = chars_of(word);
    if s.len() != w.len() {
        return false;
    }
    let mut k: usize = 0;
    while k < s.len()
        invariant
            k <= s@.len(),
            s@.len() == w@.len(),
            w@ == word@,
            forall|i: int| 0 <= i < k ==> s@[i] == w@[i],
        decreases s.len() - k,
    {
        if s[k] != w[k] {
            return false;
        }
        k += 1;
    }
    assert(s@ =~= w@);
    true
}

/// A decimal digit.
pub open spec fn is_digit(c: char) -> bool {
    48 <= c as u32 <= 57
}

/// The number that decimal digits spell; no digits spell 0.
pub open spec fn digits_value(s: Seq<char>) -> Option<nat>
    decreases s.len(),
{
    if s.len() == 0 {
        Some(0)
    } else if !is_digit(s.last()) {
        None
    } else {
        match digits_value(s.drop_last()) {
            Some(v) => Some(10 * v + (s.last() as u32 - 48) as nat),
            None => None,
        }
    }
}

/// The integer that a text spells: at least one digit, behind at most one sign.
pub open spec fn parse_int(s: Seq<char>) -> Option<int> {
    if s.len() > 0 && s[0] == '-' {
        match digits_value(s.drop_first()) {
            Some(v) if s.len() > 1 => Some(-v),
            _ => None,
        }
    } else {
        match parse_nat(s) {
            Some(v) => Some(v as int),
            None => None,
        }
    }
}

/// The natural number that a text spells: at least one digit, behind at most a plus.
pub open spec fn parse_nat(s: Seq<char>) -> Option<nat> {
    if s.len() > 0 && s[0] == '+' {
        if s.len() > 1 {
            digits_value(s.drop_first())
        } else {
            None
        }
    } else if s.len() > 0 {
        digits_value(s)
    } else {
        None
    }
}

proof fn lemma_digits_prefix(s: Seq<char>, k: int)
    requires
        0 <= k <= s.len(),
    ensures
        digits_value(s) is Some ==> digits_value(s.take(k)) is Some && digits_value(s.take(k))->0
            <= digits_value(s)->0,
    decreases s.len() - k,
{
    if k < s.len() {
        lemma_digits_prefix(s, k + 1);
        assert(s.take(k + 1).drop_last() =~= s.take(k));
    } else {
        assert(s.take(k) =~= s);
    }
}

/// Reads digits: nothing where some character is none; else their number, or nothing
/// inside where it exceeds a `u64`.
fn read_digits(s: &[char]) -> (r: Option<Option<u64>>)
    ensures
        match digits_value(s@) {
            Some(v) => r == Some(
                if v <= u64::MAX {
                    Some(v as u64)
                } else {
                    None
                },
            ),
            None => r is None,
        },
{
    let mut value: Option<u64> = Some(0);
    let mut k: usize = 0;
    while k < s.len()
        invariant
            k <= s@.len(),
            match digits_value(s@.take(k as int)) {
                Some(v) => value == if v <= u64::MAX {
                    Some(v as u64)
                } else {
                    None
                },
                None => false,
            },
        decreases s.len() - k,
    {
        let c: u32 = s[k] as u32;
        proof {
            assert(s@.take(k + 1).drop_last() =~= s@.take(k as int));
            lemma_digits_prefix(s@, k + 1);
        }
        if c < 48 || c > 57 {
            return None;
        }
        let d: u64 = (c - 48) as u64;
        value = match value {
            Some(v) => {
                if v > 1_844_674_407_370_955_161 || (v == 1_844_674_407_370_955_161 && d > 5) {
                    None
                } else {
                    Some(10 * v + d)
                }
            },
            None => None,
        };
        k += 1;
    }
    assert(s@.take(k as int) =~= s@);
    Some(value)
}

/// Reads an `i64`: what `parse_int` says, where it fits.
pub fn read_i64(s: &[char]) -> (r: Option<i64>)
    ensures
        r == match parse_int(s@) {
            Some(v) if i64::MIN <= v <= i64::MAX => Some(v as i64),
            _ => None,
        },
{
    if s.len() == 0 {
        return None;
    }
    let n: usize = s.len();
    let signed: bool = s[0] == '-' || s[0] == '+';
    if signed && n == 1 {
        return None;
    }
    let rest = if signed {
        vstd::slice::slice_subrange(s, 1, n)
    } else {
        s
    };
    assert(signed ==> rest@ =~= s@.drop_first());
    match read_digits(rest) {
        Some(Some(v)) => {
            if s[0] == '-' {
                if v <= 0x7FFF_FFFF_FFFF_FFFF {
                    Some(-(v as i64))
                } else if v == 0x8000_0000_0000_0000 {
                    Some(i64::MIN)
                } else {
                    None
                }
            } else if v <= 0x7FFF_FFFF_FFFF_FFFF {
                Some(v as i64)
            } else {
                None
            }
        },
        _ => None,
    }
}

/// Reads a `u32`: what `parse_nat` says, where it fits.
pub fn read_u32(s: &[char]) -> (r: Option<u32>)
    ensures
        r == match parse_nat(s@) {
            Some(v) if v <= u32::MAX => Some(v as u32),
            _ => None,
        },
{
    if s.len() == 0 {
        return None;
    }
    let n: usize = s.len();
    let signed: bool = s[0] == '+';
    if signed && n == 1 {
        return None;
    }
    let rest = if signed {
        vstd::slice::slice_subrange(s, 1, n)
    } else {
        s
    };
    assert(signed ==> rest@ =~= s@.drop_first());
    match read_digits(rest) {
        Some(Some(v)) => {
            if v <= 0xFFFF_FFFF {
                Some(v as u32)
            } else {
                None
            }
        },
        _ => None,
    }
}

/// A decimal number is read back, whatever zeros stand before it.
pub proof fn law_dec_read_back(n: nat, pad: int)
    ensures
        digits_value(dec(n)) == Some(n),
        digits_value(zeros(pad) + dec(n)) == Some(n),
        dec(n).len() > 0,
        forall|i: int| 0 <= i < dec(n).len() ==> is_digit(#[trigger] dec(n)[i]),
    decreases n,
{
    let z = zeros(pad);
    lemma_zeros_value(z.len() as int);
    if n < 10 {
        assert(dec(n) =~= seq![digit(n)]);
        reveal_with_fuel(digits_value, 2);
        assert((z + dec(n)).drop_last() =~= z);
        assert(z =~= zeros(z.len() as int));
    } else {
        law_dec_read_back(n / 10, pad);
        assert(dec(n) == dec(n / 10).push(digit(n % 10)));
        assert(dec(n).drop_last() =~= dec(n / 10));
        assert((z + dec(n)).drop_last() =~= z + dec(n / 10));
        assert forall|i: int| 0 <= i < dec(n).len() implies is_digit(#[trigger] dec(n)[i]) by {
            if i < dec(n / 10).len() {
                assert(dec(n)[i] == dec(n / 10)[i]);
            }
        }
    }
}

proof fn lemma_zeros_value(k: int)
    requires
        k >= 0,
    ensures
        digits_value(zeros(k)) == Some(0nat),
    decreases k,
{
    if k > 0 {
        lemma_zeros_value(k - 1);
        assert(zeros(k).drop_last() =~= zeros(k - 1));
    }
}

/// The texts of strings.
pub open spec fn texts(strings: Seq<String>) -> Seq<Seq<char>> {
    Seq::new(strings.len(), |i: int| strings[i]@)
}

/// Texts in order; equal ones may follow each other.
pub open spec fn in_order(list: Seq<Seq<char>>) -> bool {
    forall|i: int, j: int|
        0 <= i < j < list.len() ==> !text_before(#[trigger] list[j], #[trigger] list[i])
}

/// Copies texts.
pub fn copy_texts(strings: &[String]) -> (out: Vec<String>)
    ensures
        texts(out@) == texts(strings@),
{
    let mut out: Vec<String> = Vec::new();
    let mut k: usize = 0;
    while k < strings.len()
        invariant
            k <= strings@.len(),
            out@.len() == k,
            forall|i: int| 0 <= i < k ==> (#[trigger] out@[i])@ == strings@[i]@,
        decreases strings.len() - k,
    {
        out.push(strings[k].clone());
        k += 1;
    }
    assert(texts(out@) =~= texts(strings@));
    out
}

/// Sorts texts.
pub fn sort_texts(strings: Vec<String>) -> (out: Vec<String>)
    ensures
        in_order(texts(out@)),
        texts(out@).to_multiset() == texts(strings@).to_multiset(),
{
    let mut out: Vec<String> = Vec::new();
    let mut k: usize = 0;
    proof {
        assert(texts(strings@).take(0) =~= texts(out@));
    }
    while k < strings.len()
        invariant
            k <= strings@.len(),
            in_order(texts(out@)),
            texts(out@).to_multiset() == texts(strings@).take(k as int).to_multiset(),
        decreases strings.len() - k,
    {
        let ghost before = texts(out@);
        let ghost next = strings@[k as int]@;
        let mut at: usize = 0;
        let mut found: bool = false;
        while at < out.len() && !found
            invariant
                at <= out@.len(),
                before == texts(out@),
                k < strings@.len(),
                next == strings@[k as int]@,
                in_order(before),
                forall|i: int| 0 <= i < at ==> !text_before(next, #[trigger] before[i]),
                found ==> at < before.len() && text_before(next, before[at as int]),
            decreases out.len() - at, if found {
                0int
            } else {
                1
            },
        {
            match relate(out[at].as_str(), strings[k].as_str()) {
                Relation::After => {
                    found = true;
                },
                _ => {
                    proof {
                        lemma_text_before_order(before[at as int], next);
                    }
                    at += 1;
                },
            }
        }
        out.insert(at, strings[k].clone());
        proof {
            let after = texts(out@);
            assert(after =~= before.insert(at as int, next));
            assert(after.remove(at as int) =~= before);
            broadcast use vstd::seq_lib::group_to_multiset_ensures;

            let all = texts(strings@);
            assert(all.take(k + 1) =~= all.take(k as int).push(next));
            assert(after.contains(next)) by {
                assert(after[at as int] == next);
            }
            assert(after.to_multiset() =~= before.to_multiset().insert(next));
            assert forall|i: int, j: int| 0 <= i < j < after.len() implies !text_before(
                #[trigger] after[j],
                #[trigger] after[i],
            ) by {
                let at = at as int;
                if j == at {
                    assert(after[i] == before[i]);
                } else if i == at {
                    assert(after[j] == before[j - 1]);
                    lemma_text_before_order(next, before[at]);
                    if text_before(before[j - 1], next) {
                        lemma_text_before_transitive(before[j - 1], next, before[at]);
                        lemma_text_before_order(before[j - 1], before[at]);
                        if at < j - 1 {
                            assert(!text_before(before[j - 1], before[at]));
                        }
                    }
                } else {
                    let i0 = if i < at {
                        i
                    } else {
                        i - 1
                    };
                    let j0 = if j < at {
                        j
                    } else {
                        j - 1
                    };
                    assert(after[i] == before[i0] && after[j] == before[j0]);
                }
            }
        }
        k += 1;
    }
    assert(texts(strings@).take(k as int) =~= texts(strings@));
    out
}

/// The lower-case letter for an upper-case one.
pub open spec fn ascii_lower(c: char) -> u32 {
    if 65 <= c as u32 <= 90 {
        (c as u32 + 32) as u32
    } else {
        c as u32
    }
}

/// Two texts differ at most in the case of ASCII letters.
pub open spec fn same_but_case(a: Seq<char>, b: Seq<char>) -> bool {
    &&& a.len() == b.len()
    &&& forall|i: int| 0 <= i < a.len() ==> ascii_lower(#[trigger] a[i]) == ascii_lower(b[i])
}

fn lower(c: char) -> (r: u32)
    ensures
        r == ascii_lower(c),
{
    let n: u32 = c as u32;
    if 65 <= n && n <= 90 {
        n + 32
    } else {
        n
    }
}

pub fn equal_but_case(a: &str, b: &str) -> (yes: bool)
    ensures
        yes == same_but_case(a@, b@),
{
    let x = chars_of(a);
    let y = chars_of(b);
    if x.len() != y.len() {
        return false;
    }
    let mut k: usize = 0;
    while k < x.len()
        invariant
            k <= x@.len(),
            x@ == a@,
            y@ == b@,
            x@.len() == y@.len(),
            forall|i: int| 0 <= i < k ==> ascii_lower(#[trigger] a@[i]) == ascii_lower(b@[i]),
        decreases x.len() - k,
    {
        if lower(x[k]) != lower(y[k]) {
            assert(ascii_lower(a@[k as int]) != ascii_lower(b@[k as int]));
            return false;
        }
        k += 1;
    }
    true
}

/// A text with its ASCII letters in lower case.
pub open spec fn lower_text(s: Seq<char>) -> Seq<char> {
    Seq::new(s.len(), |i: int| lower_char(s[i]))
}

/// The lower-case letter for an ASCII letter; any other character stays.
pub open spec fn lower_char(c: char) -> char {
    if 65 <= c as u32 <= 90 {
        (c as u32 + 32) as char
    } else {
        c
    }
}

pub fn to_lower_text(s: &str) -> (out: String)
    ensures
        out@ == lower_text(s@),
{
    let chars = chars_of(s);
    let mut out: Vec<char> = Vec::new();
    let mut k: usize = 0;
    while k < chars.len()
        invariant
            k <= chars@.len(),
            chars@ == s@,
            out@.len() == k,
            forall|i: int| 0 <= i < k ==> out@[i] == lower_char(s@[i]),
        decreases chars.len() - k,
    {
        let c: char = chars[k];
        let n: u32 = c as u32;
        if 65 <= n && n <= 90 {
            let m: u8 = n as u8 + 32;
            out.push(m as char);
        } else {
            out.push(c);
        }
        k += 1;
    }
    assert(out@ =~= lower_text(s@));
    text_of(out.as_slice())
}

/// The list has that text.
pub fn is_listed(list: &[String], name: &str) -> (yes: bool)
    ensures
        yes == texts(list@).contains(name@),
{
    let mut k: usize = 0;
    while k < list.len()
        invariant
            k <= list@.len(),
            forall|i: int| 0 <= i < k ==> texts(list@)[i] != name@,
        decreases list.len() - k,
    {
        if same(list[k].as_str(), name) {
            assert(texts(list@)[k as int] == name@);
            return true;
        }
        k += 1;
    }
    false
}

/// Bytes stand before others where they are the shorter beginning of them, or where the
/// first byte in which they differ is the lesser.
pub proof fn law_bytes_order(a: Seq<u8>, b: Seq<u8>, k: int)
    requires
        0 <= k <= a.len(),
        k <= b.len(),
        a.take(k) == b.take(k),
    ensures
        k == a.len() && k < b.len() ==> bytes_before(a, b) && !bytes_before(b, a),
        k == a.len() && k == b.len() ==> !bytes_before(a, b) && !bytes_before(b, a),
        k < a.len() && k < b.len() && a[k] < b[k] ==> bytes_before(a, b) && !bytes_before(b, a),
    decreases k,
{
    lemma_bytes_before_order(a, b);
    if k > 0 {
        assert(a.take(k)[0] == a[0] && b.take(k)[0] == b[0]);
        let (s, t) = (a.drop_first(), b.drop_first());
        assert(s.take(k - 1) =~= a.take(k).drop_first());
        assert(t.take(k - 1) =~= b.take(k).drop_first());
        law_bytes_order(s, t, k - 1);
        lemma_bytes_before_order(s, t);
    } else if k == a.len() && k == b.len() {
        assert(a =~= b);
    }
}

/// Texts stand in the order of their bytes in UTF-8; of two texts in order the one is the
/// other, or stands before it.
pub proof fn law_texts_in_order(list: Seq<Seq<char>>, i: int, j: int)
    requires
        in_order(list),
        0 <= i < j < list.len(),
    ensures
        list[i] == list[j] || bytes_before(
            vstd::utf8::encode_utf8(list[i]),
            vstd::utf8::encode_utf8(list[j]),
        ),
{
    lemma_text_before_order(list[i], list[j]);
}

/// A number is read as it is spelled, with its sign and whatever zeros stand before it; a
/// text with anything but digits behind its sign, or with none, is no number.
pub proof fn law_number_read(n: nat, pad: int, s: Seq<char>, k: int)
    ensures
        parse_nat(dec(n)) == Some(n),
        parse_nat(zeros(pad) + dec(n)) == Some(n),
        parse_nat(seq!['+'] + dec(n)) == Some(n),
        parse_int(dec_int(n as int)) == Some(n as int),
        parse_int(dec_int(-n)) == Some(-n),
        parse_int(seq!['+'] + dec(n)) == Some(n as int),
        parse_int(seq!['-'] + dec(n)) == Some(-n),
        parse_nat(Seq::empty()) is None,
        parse_nat(seq!['+']) is None,
        parse_nat(seq!['-']) is None,
        parse_int(Seq::empty()) is None,
        parse_int(seq!['+']) is None,
        parse_int(seq!['-']) is None,
        s.len() > 0 && s[0] == '-' ==> parse_nat(s) is None,
        0 < k < s.len() && !('0' as u32 <= s[k] as u32 <= '9' as u32) ==> parse_nat(s) is None
            && parse_int(s) is None,
        s.len() > 0 && !('0' as u32 <= s[0] as u32 <= '9' as u32 || s[0] == '+') ==> parse_nat(s) is None,
        s.len() > 0 && !('0' as u32 <= s[0] as u32 <= '9' as u32 || s[0] == '+' || s[0] == '-') ==> parse_int(s) is None,
{
    law_dec_read_back(n, pad);
    assert(is_digit(dec(n)[0]));
    let (plus, minus) = (seq!['+'] + dec(n), seq!['-'] + dec(n));
    assert(plus.drop_first() =~= dec(n));
    assert(minus.drop_first() =~= dec(n));
    if pad > 0 {
        assert((zeros(pad) + dec(n))[0] == '0');
    } else {
        assert(zeros(pad) + dec(n) =~= dec(n));
    }
    if s.len() > 0 {
        if !is_digit(s[0]) {
            lemma_no_number(s, 0);
        }
        if 0 < k < s.len() && !is_digit(s[k]) {
            lemma_no_number(s, k);
            assert(s.drop_first()[k - 1] == s[k]);
            lemma_no_number(s.drop_first(), k - 1);
        }
    }
}

proof fn lemma_no_number(s: Seq<char>, k: int)
    requires
        0 <= k < s.len(),
        !is_digit(s[k]),
    ensures
        digits_value(s) is None,
    decreases s.len(),
{
    if k < s.len() - 1 {
        assert(s.drop_last()[k] == s[k]);
        lemma_no_number(s.drop_last(), k);
    }
}

/// One digit more makes a number ten times as large and adds the digit.
pub proof fn law_digits_positional(s: Seq<char>, d: nat, v: nat)
    requires
        digits_value(s) == Some(v),
        d < 10,
    ensures
        digits_value(s.push("0123456789"@[d as int])) == Some(10 * v + d),
{
    reveal_strlit("0123456789");
    let t = s.push("0123456789"@[d as int]);
    assert(t.drop_last() =~= s);
    assert("0123456789"@[d as int] as u32 == 48 + d);
}

/// The digits of a number are those of a tenth or a sixteenth of it and the digit of what is
/// left over.
pub proof fn law_digits_written(n: nat, d: nat, base: nat)
    requires
        base == 10 || base == 16,
        d < base,
    ensures
        in_base(d, base) == seq!["0123456789abcdef"@[d as int]],
        n > 0 ==> in_base(base * n + d, base) == in_base(n, base).push(
            "0123456789abcdef"@[d as int],
        ),
{
    reveal_strlit("0123456789abcdef");
    assert("0123456789abcdef"@[d as int] == digit(d));
    assert((base * n + d) / base == n && (base * n + d) % base == d) by (nonlinear_arith)
        requires
            0 <= d < base,
    ;
    if n > 0 {
        assert(base * n >= base) by (nonlinear_arith)
            requires
                n > 0,
        ;
    }
}

/// A padded number is as wide as asked, unless its digits are more; what stands before its
/// digits are zeros, behind the sign.
pub proof fn law_padded_width(n: nat, width: int)
    ensures
        dec_padded(n as int, width).len() == (if dec(n).len() <= width {
            width
        } else {
            dec(n).len() as int
        }),
        digits_value(dec_padded(n as int, width)) == Some(n),
        n > 0 ==> dec_padded(-n, width).len() == (if 1 + dec(n).len() <= width {
            width
        } else {
            1 + dec(n).len() as int
        }),
        n > 0 ==> parse_int(dec_padded(-n, width)) == Some(-n),
{
    law_dec_read_back(n, width - dec(n).len());
    law_dec_read_back(n, width - 1 - dec(n).len());
    if n > 0 {
        let s = dec_padded(-n, width);
        assert(s.drop_first() =~= zeros(width - 1 - dec(n).len()) + dec(n));
    }
}

/// What is searched for stands where it is found, and nowhere before; where it is nowhere,
/// the end is found.
pub proof fn law_first_found(s: Seq<char>, c: char)
    ensures
        0 <= find(s, c) <= s.len(),
        find(s, c) < s.len() ==> s[find(s, c)] == c,
        forall|i: int| 0 <= i < find(s, c) ==> s[i] != c,
{
    lemma_find(s, c);
}

/// A capital letter of the English alphabet becomes the small letter at the same place of
/// it, and nothing else changes; texts are the same but for capitals where they become the
/// same.
pub proof fn law_small_letters(c: char, a: Seq<char>, b: Seq<char>)
    ensures
        'A' <= c <= 'Z' ==> 'a' <= lower_char(c) <= 'z' && lower_char(c) as int - 'a' as int == c
            as int - 'A' as int,
        !('A' <= c <= 'Z') ==> lower_char(c) == c,
        same_but_case(a, b) <==> lower_text(a) == lower_text(b),
        lower_text(a).len() == a.len(),
        forall|i: int| 0 <= i < a.len() ==> #[trigger] lower_text(a)[i] == lower_char(a[i]),
{
    if same_but_case(a, b) {
        assert(lower_text(a) =~= lower_text(b)) by {
            assert forall|i: int| 0 <= i < a.len() implies lower_char(a[i]) == lower_char(b[i]) by {
                assert(ascii_lower(a[i]) == ascii_lower(b[i]));
            }
        }
    }
    if lower_text(a) == lower_text(b) {
        assert(a.len() == lower_text(a).len() == b.len());
        assert forall|i: int| 0 <= i < a.len() implies ascii_lower(#[trigger] a[i])
            == ascii_lower(b[i]) by {
            assert(lower_text(a)[i] == lower_text(b)[i]);
        }
    }
}

} // verus!

//! Small facts about text that the configuration's parsers need.
use vstd::prelude::*;
use vstd::utf8::*;

use crate::trusted::{percent_decode, url_decoded};

verus! {

/// A decimal digit as `u8::from_str_radix(_, 10)` reads one.
pub open spec fn is_ascii_digit(c: char) -> bool {
    '0' <= c && c <= '9'
}

/// The value of a run of decimal digits.
pub open spec fn digits_value(s: Seq<char>) -> nat
    decreases s.len(),
{
    if s.len() == 0 {
        0
    } else {
        digits_value(s.drop_last()) * 10 + (s.last() as nat - '0' as nat) as nat
    }
}

/// The text after an optional leading `+`.
pub open spec fn unsigned_part(s: Seq<char>) -> Seq<char> {
    if s.len() > 0 && s[0] == '+' {
        s.drop_first()
    } else {
        s
    }
}

/// What `u8::from_str_radix(s, 10)` gives, as an `Option`: an optional `+`, then one or more
/// decimal digits whose value fits in a `u8`.
pub open spec fn decimal_u8(s: Seq<char>) -> Option<u8> {
    let d = unsigned_part(s);
    if d.len() > 0 && (forall|i: int| 0 <= i < d.len() ==> is_ascii_digit(#[trigger] d[i]))
        && digits_value(d) <= 255 {
        Some(digits_value(d) as u8)
    } else {
        None
    }
}

/// A single decimal digit reads as its value.
pub proof fn lemma_digit_reads_as_its_value(c: char)
    requires
        '0' <= c <= '9',
    ensures
        decimal_u8(seq![c]) == Some((c as int - '0' as int) as u8),
{
    let s = seq![c];
    assert(s[0] == c);
    assert(unsigned_part(s) == s);
    assert(s.drop_last() =~= Seq::<char>::empty());
    assert(digits_value(Seq::<char>::empty()) == 0);
    assert(s.last() == c);
    assert(digits_value(s) == (c as nat - '0' as nat) as nat);
    assert(forall|i: int| 0 <= i < s.len() ==> is_ascii_digit(#[trigger] s[i]));
}

/// Writing one more digit after decimal text multiplies its value by ten and adds the digit,
/// while the result fits in a `u8`.
pub proof fn lemma_next_digit(s: Seq<char>, c: char, v: u8)
    requires
        decimal_u8(s) == Some(v),
        '0' <= c <= '9',
        v * 10 + (c as int - '0' as int) <= 255,
    ensures
        decimal_u8(s.push(c)) == Some((v * 10 + (c as int - '0' as int)) as u8),
{
    let d = unsigned_part(s);
    let e = unsigned_part(s.push(c));
    assert(d.len() > 0);
    if s[0] == '+' {
        assert(e =~= d.push(c));
    } else {
        assert(e =~= d.push(c));
    }
    assert(e.drop_last() =~= d);
    assert forall|i: int| 0 <= i < e.len() implies is_ascii_digit(#[trigger] e[i]) by {
        if i < d.len() {
            assert(e[i] == d[i]);
        }
    }
}

proof fn lemma_digits_value_grows(d: Seq<char>, i: int, j: int)
    requires
        0 <= i <= j <= d.len(),
        forall|k: int| 0 <= k < d.len() ==> is_ascii_digit(#[trigger] d[k]),
    ensures
        digits_value(d.take(i)) <= digits_value(d.take(j)),
    decreases j - i,
{
    if i < j {
        lemma_digits_value_grows(d, i, j - 1);
        assert(d.take(j).drop_last() == d.take(j - 1));
        assert(is_ascii_digit(d[j - 1]));
    }
}

/// Reads `s` as `u8::from_str_radix(s, 10)` does; `None` where that gives an error.
pub fn parse_decimal_u8(s: &str) -> (r: Option<u8>)
    ensures
        r == decimal_u8(s@),
{
    let n = s.unicode_len();
    let start: usize = if n > 0 && s.get_char(0) == '+' { 1 } else { 0 };
    let ghost d = unsigned_part(s@);
    assert(d == s@.subrange(start as int, n as int));
    if start == n {
        return None;
    }
    let mut acc: u16 = 0;
    let mut i: usize = start;
    while i < n
        invariant
            start <= i <= n,
            n == s@.len(),
            d == s@.subrange(start as int, n as int),
            d == unsigned_part(s@),
            acc <= 255,
            acc == digits_value(d.take(i - start)),
            forall|k: int| 0 <= k < i - start ==> is_ascii_digit(#[trigger] d[k]),
        decreases n - i,
    {
        let c = s.get_char(i);
        if !('0' <= c && c <= '9') {
            assert(d[i - start] == c);
            assert(!is_ascii_digit(d[i - start]));
            assert(decimal_u8(s@) is None);
            return None;
        }
        let digit = (c as u32 - '0' as u32) as u16;
        assert(d.take(i - start + 1).drop_last() == d.take(i - start));
        assert(d.take(i - start + 1).last() == c);
        acc = acc * 10 + digit;
        i = i + 1;
        if acc > 255 {
            proof {
                if forall|m: int| 0 <= m < d.len() ==> is_ascii_digit(#[trigger] d[m]) {
                    lemma_digits_value_grows(d, i - start, d.len() as int);
                    assert(d.take(d.len() as int) == d);
                    assert(digits_value(d) > 255);
                }
            }
            assert(decimal_u8(s@) is None);
            return None;
        }
    }
    assert(d.take(n - start) == d);
    Some(acc as u8)
}

proof fn lemma_scalar_has_no_percent(c: u32)
    requires
        is_scalar(c),
        c != 0x25,
    ensures
        forall|j: int| 0 <= j < encode_scalar(c).len() ==> #[trigger] encode_scalar(c)[j] != 0x25u8,
{
    if has_width_1_encoding(c) {
        assert((c & 0x7F) as u8 != 0x25u8) by (bit_vector)
            requires
                c <= 0x7F,
                c != 0x25,
        ;
    } else if has_width_2_encoding(c) {
        assert((0xC0 | ((c >> 6) & 0x1F) as u8) as u8 != 0x25u8) by (bit_vector);
        assert((0x80 | (c & 0x3F) as u8) as u8 != 0x25u8) by (bit_vector);
    } else if has_width_3_encoding(c) {
        assert((0xE0 | ((c >> 12) & 0x0F) as u8) as u8 != 0x25u8) by (bit_vector);
        assert((0x80 | ((c >> 6) & 0x3F) as u8) as u8 != 0x25u8) by (bit_vector);
        assert((0x80 | (c & 0x3F) as u8) as u8 != 0x25u8) by (bit_vector);
    } else {
        assert((0xF0 | ((c >> 18) & 0x7) as u8) as u8 != 0x25u8) by (bit_vector);
        assert((0x80 | ((c >> 12) & 0x3F) as u8) as u8 != 0x25u8) by (bit_vector);
        assert((0x80 | ((c >> 6) & 0x3F) as u8) as u8 != 0x25u8) by (bit_vector);
        assert((0x80 | (c & 0x3F) as u8) as u8 != 0x25u8) by (bit_vector);
    }
}

proof fn lemma_encoding_has_no_percent(s: Seq<char>)
    requires
        !s.contains('%'),
    ensures
        !encode_utf8(s).contains(0x25u8),
    decreases s.len(),
{
    if s.len() > 0 {
        assert(s[0] != '%');
        let c = s[0] as u32;
        char_is_scalar(s[0]);
        assert(c != 0x25) by {
            char_u32_cast(s[0], c);
            char_u32_cast('%', 0x25u32);
        }
        lemma_scalar_has_no_percent(c);
        assert(!s.drop_first().contains('%')) by {
            if s.drop_first().contains('%') {
                let k = choose|k: int| 0 <= k < s.drop_first().len() && s.drop_first()[k] == '%';
                assert(s[k + 1] == '%');
            }
        }
        lemma_encoding_has_no_percent(s.drop_first());
        let e = encode_utf8(s);
        let head = encode_scalar(c);
        let tail = encode_utf8(s.drop_first());
        assert(e == head + tail);
        if e.contains(0x25u8) {
            let k = choose|k: int| 0 <= k < e.len() && e[k] == 0x25u8;
            if k < head.len() {
                assert(head[k] == 0x25u8);
            } else {
                assert(tail[k - head.len()] == 0x25u8);
            }
        }
    }
}

proof fn lemma_percent_decode_identity(b: Seq<u8>)
    requires
        !b.contains(0x25u8),
    ensures
        percent_decode(b) == b,
    decreases b.len(),
{
    if b.len() > 0 {
        assert(b[0] != 0x25u8);
        assert(!b.drop_first().contains(0x25u8)) by {
            if b.drop_first().contains(0x25u8) {
                let k = choose|k: int| 0 <= k < b.drop_first().len() && b.drop_first()[k] == 0x25u8;
                assert(b[k + 1] == 0x25u8);
            }
        }
        lemma_percent_decode_identity(b.drop_first());
        assert(seq![b[0]] + b.drop_first() == b);
    }
}

/// A text without `%` decodes to itself.
pub proof fn lemma_plain_text_decodes_to_itself(s: Seq<char>)
    requires
        !s.contains('%'),
    ensures
        url_decoded(s) == Some(s),
{
    broadcast use encode_utf8_valid_utf8, encode_utf8_decode_utf8;

    lemma_encoding_has_no_percent(s);
    lemma_percent_decode_identity(encode_utf8(s));
}

/// The characters of `s`, in order.
pub fn chars_of(s: &str) -> (r: Vec<char>)
    ensures
        r@ == s@,
{
    let n = s.unicode_len();
    let mut v: Vec<char> = Vec::new();
    let mut i: usize = 0;
    while i < n
        invariant
            n == s@.len(),
            i <= n,
            v@ == s@.take(i as int),
        decreases n - i,
    {
        v.push(s.get_char(i));
        i = i + 1;
    }
    assert(s@.take(n as int) == s@);
    v
}

/// Whether two texts are the same.
pub fn same_text(a: &str, b: &str) -> (r: bool)
    ensures
        r == (a@ == b@),
{
    let a = String::from_str(a);
    let b = String::from_str(b);
    a == b
}

} // verus!

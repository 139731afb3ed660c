use vstd::prelude::*;
use crate::text::{chars_of, push_char};

verus! {

/// The character of a 6-bit value: `A-Z`, `a-z`, `0-9`, `+`, `/`.
pub open spec fn b64_char(v: u8) -> char {
    if v < 26 {
        ((65 + v) as u8) as char
    } else if v < 52 {
        ((97 + (v - 26)) as u8) as char
    } else if v < 62 {
        ((48 + (v - 52)) as u8) as char
    } else if v == 62 {
        '+'
    } else {
        '/'
    }
}

/// The 6-bit value of a character between `+` and `z`; characters of that
/// range outside the alphabet read as 0.
pub open spec fn b64_value(c: char) -> u8 {
    if 'A' <= c && c <= 'Z' {
        (c as u32 - 65) as u8
    } else if 'a' <= c && c <= 'z' {
        (c as u32 - 97 + 26) as u8
    } else if '0' <= c && c <= '9' {
        (c as u32 - 48 + 52) as u8
    } else if c == '+' {
        62
    } else if c == '/' {
        63
    } else {
        0
    }
}

pub open spec fn b64_quad(a: u8, b: u8, c: u8) -> Seq<char> {
    seq![
        b64_char((a & 0xFC) >> 2),
        b64_char(((a & 0x03) << 4) | ((b & 0xF0) >> 4)),
        b64_char(((b & 0x0F) << 2) | ((c & 0xC0) >> 6)),
        b64_char(c & 0x3F),
    ]
}

/// Base64 text of bytes: four characters for each three bytes, the last
/// group padded with `=`.
pub open spec fn b64_encode(b: Seq<u8>) -> Seq<char>
    decreases b.len(),
{
    if b.len() >= 3 {
        b64_quad(b[0], b[1], b[2]) + b64_encode(b.subrange(3, b.len() as int))
    } else if b.len() == 2 {
        seq![
            b64_char((b[0] & 0xFC) >> 2),
            b64_char(((b[0] & 0x03) << 4) | ((b[1] & 0xF0) >> 4)),
            b64_char((b[1] & 0x0F) << 2),
            '=',
        ]
    } else if b.len() == 1 {
        seq![b64_char((b[0] & 0xFC) >> 2), b64_char((b[0] & 0x03) << 4), '=', '=']
    } else {
        Seq::empty()
    }
}

fn char_of(v: u8) -> (r: char)
    requires
        v < 64,
    ensures
        r == b64_char(v),
{
    if v < 26 {
        (65 + v) as char
    } else if v < 52 {
        (97 + (v - 26)) as char
    } else if v < 62 {
        (48 + (v - 52)) as char
    } else if v == 62 {
        '+'
    } else {
        '/'
    }
}

/// Base64 text of the bytes, padded with `=`.
pub fn encode(bytes: &[u8]) -> (r: String)
    ensures
        r@ == b64_encode(bytes@),
{
    let mut result = String::new();
    let n = bytes.len();
    let mut i: usize = 0;
    assert(bytes@.subrange(0, n as int) =~= bytes@);
    while n - i >= 3
        invariant
            i <= n == bytes@.len(),
            b64_encode(bytes@) == result@ + b64_encode(bytes@.subrange(i as int, n as int)),
        decreases n - i,
    {
        let a = bytes[i];
        let b = bytes[i + 1];
        let c = bytes[i + 2];
        let ghost rest = bytes@.subrange(i as int, n as int);
        assert(rest[0] == a && rest[1] == b && rest[2] == c);
        assert(rest.subrange(3, rest.len() as int) =~= bytes@.subrange(i + 3, n as int));
        assert((a & 0xFC) >> 2 < 64 && ((a & 0x03) << 4) | ((b & 0xF0) >> 4) < 64 && ((b & 0x0F) << 2)
            | ((c & 0xC0) >> 6) < 64 && c & 0x3F < 64) by (bit_vector);
        push_char(&mut result, char_of((a & 0xFC) >> 2));
        push_char(&mut result, char_of(((a & 0x03) << 4) | ((b & 0xF0) >> 4)));
        push_char(&mut result, char_of(((b & 0x0F) << 2) | ((c & 0xC0) >> 6)));
        push_char(&mut result, char_of(c & 0x3F));
        assert(b64_encode(bytes@) =~= result@ + b64_encode(bytes@.subrange(i + 3, n as int)));
        i = i + 3;
    }
    let ghost rest = bytes@.subrange(i as int, n as int);
    if n - i == 2 {
        let a = bytes[i];
        let b = bytes[i + 1];
        assert(rest[0] == a && rest[1] == b);
        assert((a & 0xFC) >> 2 < 64 && ((a & 0x03) << 4) | ((b & 0xF0) >> 4) < 64 && (b & 0x0F) << 2
            < 64) by (bit_vector);
        push_char(&mut result, char_of((a & 0xFC) >> 2));
        push_char(&mut result, char_of(((a & 0x03) << 4) | ((b & 0xF0) >> 4)));
        push_char(&mut result, char_of((b & 0x0F) << 2));
        push_char(&mut result, '=');
    } else if n - i == 1 {
        let a = bytes[i];
        assert(rest[0] == a);
        assert((a & 0xFC) >> 2 < 64 && (a & 0x03) << 4 < 64) by (bit_vector);
        push_char(&mut result, char_of((a & 0xFC) >> 2));
        push_char(&mut result, char_of((a & 0x03) << 4));
        push_char(&mut result, '=');
        push_char(&mut result, '=');
    }
    assert(result@ =~= b64_encode(bytes@));
    result
}

/// The 6-bit values of the characters other than `=`, in order.
pub open spec fn sextets(t: Seq<char>) -> Seq<u8>
    decreases t.len(),
{
    if t.len() == 0 {
        Seq::empty()
    } else if t.last() == '=' {
        sextets(t.drop_last())
    } else {
        sextets(t.drop_last()).push(b64_value(t.last()))
    }
}

/// Bytes of 6-bit values: three for each four, two for a last three, one for
/// a last two or one.
pub open spec fn b64_bytes(v: Seq<u8>) -> Seq<u8>
    decreases v.len(),
{
    if v.len() >= 4 {
        seq![
            (v[0] << 2) | (v[1] >> 4),
            (v[1] << 4) | (v[2] >> 2),
            (v[2] << 6) | v[3],
        ] + b64_bytes(v.subrange(4, v.len() as int))
    } else if v.len() == 3 {
        seq![(v[0] << 2) | (v[1] >> 4), (v[1] << 4) | (v[2] >> 2)]
    } else if v.len() == 2 {
        seq![(v[0] << 2) | (v[1] >> 4)]
    } else if v.len() == 1 {
        seq![v[0] << 2]
    } else {
        Seq::empty()
    }
}

/// The characters that `decode` reads: `=`, and those from `+` to `z`.
pub open spec fn b64_readable(t: Seq<char>) -> bool {
    forall|i: int| 0 <= i < t.len() ==> (#[trigger] t[i] == '=' || ('+' <= t[i] && t[i] <= 'z'))
}

fn value_of(c: char) -> (r: u8)
    ensures
        r == b64_value(c),
{
    if 'A' <= c && c <= 'Z' {
        (c as u32 - 65) as u8
    } else if 'a' <= c && c <= 'z' {
        (c as u32 - 97 + 26) as u8
    } else if '0' <= c && c <= '9' {
        (c as u32 - 48 + 52) as u8
    } else if c == '+' {
        62
    } else if c == '/' {
        63
    } else {
        0
    }
}

/// The bytes of Base64 text; `=` is skipped wherever it stands.
pub fn decode(bytes: &str) -> (r: Vec<u8>)
    requires
        b64_readable(bytes@),
    ensures
        r@ == b64_bytes(sextets(bytes@)),
{
    let t = chars_of(bytes);
    let mut v: Vec<u8> = Vec::new();
    let mut i: usize = 0;
    while i < t.len()
        invariant
            i <= t@.len(),
            v@ == sextets(t@.subrange(0, i as int)),
        decreases t@.len() - i,
    {
        assert(t@.subrange(0, i + 1).drop_last() =~= t@.subrange(0, i as int));
        if t[i] != '=' {
            v.push(value_of(t[i]));
        }
        i = i + 1;
    }
    assert(t@.subrange(0, i as int) =~= bytes@);
    let mut result: Vec<u8> = Vec::new();
    let n = v.len();
    let mut k: usize = 0;
    assert(v@.subrange(0, n as int) =~= v@);
    while n - k >= 4
        invariant
            k <= n == v@.len(),
            b64_bytes(v@) == result@ + b64_bytes(v@.subrange(k as int, n as int)),
        decreases n - k,
    {
        let ghost rest = v@.subrange(k as int, n as int);
        assert(rest.subrange(4, rest.len() as int) =~= v@.subrange(k + 4, n as int));
        result.push((v[k] << 2) | (v[k + 1] >> 4));
        result.push((v[k + 1] << 4) | (v[k + 2] >> 2));
        result.push((v[k + 2] << 6) | v[k + 3]);
        assert(b64_bytes(v@) =~= result@ + b64_bytes(v@.subrange(k + 4, n as int)));
        k = k + 4;
    }
    if n - k == 3 {
        result.push((v[k] << 2) | (v[k + 1] >> 4));
        result.push((v[k + 1] << 4) | (v[k + 2] >> 2));
    } else if n - k == 2 {
        result.push((v[k] << 2) | (v[k + 1] >> 4));
    } else if n - k == 1 {
        result.push(v[k] << 2);
    }
    assert(result@ =~= b64_bytes(v@));
    result
}

} // verus!

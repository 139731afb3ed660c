use vstd::prelude::*;
use crate::json::{Json, Value, entries_view, items_view, lemma_entries_view, lemma_items_view};
use crate::text::{all_digits, chars_of, digits_value, is_digit, parse_decimal, string_from};

verus! {

/// Why a document text was refused.
#[derive(Clone, Copy, Debug, PartialEq, Eq, Structural)]
pub enum ParseError {
    /// The text at a value's place starts no value.
    InvalidValue,
    /// A literal, a number or a separator is malformed.
    InvalidToken,
    /// The text ended before the value did.
    InvalidData,
    /// An object member does not start with a string key.
    InvalidKey,
}

pub open spec fn is_ws(c: char) -> bool {
    c == ' ' || c == '\t' || c == '\n' || c == '\r'
}

/// First position at or after `p` that holds no whitespace.
pub open spec fn skip_ws(s: Seq<char>, p: int) -> int
    decreases s.len() - p,
{
    if 0 <= p < s.len() && is_ws(s[p]) {
        skip_ws(s, p + 1)
    } else {
        p
    }
}

/// Position of the quote that closes a string whose contents start at `q`;
/// a backslash makes the character after it part of the contents.
pub open spec fn string_end(s: Seq<char>, q: int) -> Option<int>
    decreases s.len() - q,
{
    if q < 0 || q >= s.len() {
        None
    } else if s[q] == '\\' {
        if q + 1 >= s.len() {
            None
        } else {
            string_end(s, q + 2)
        }
    } else if s[q] == '"' {
        Some(q)
    } else {
        string_end(s, q + 1)
    }
}

/// Scans the characters of a number from `q`; `None` for a repeated `.`,
/// a repeated exponent marker, or a sign before any exponent marker.
pub open spec fn num_scan(s: Seq<char>, q: int, dec: bool, exp: bool) -> Option<(int, bool, bool)>
    decreases s.len() - q,
{
    if q < 0 || q >= s.len() {
        Some((q, dec, exp))
    } else if is_digit(s[q]) {
        num_scan(s, q + 1, dec, exp)
    } else if s[q] == '.' {
        if dec {
            None
        } else {
            num_scan(s, q + 1, true, exp)
        }
    } else if s[q] == 'e' || s[q] == 'E' {
        if exp {
            None
        } else {
            num_scan(s, q + 1, dec, true)
        }
    } else if s[q] == '-' || s[q] == '+' {
        if !exp {
            None
        } else {
            num_scan(s, q + 1, dec, exp)
        }
    } else {
        Some((q, dec, exp))
    }
}

/// End of the run of digits that starts at `i`.
pub open spec fn digits_run(t: Seq<char>, i: int) -> int
    decreases t.len() - i,
{
    if 0 <= i < t.len() && is_digit(t[i]) {
        digits_run(t, i + 1)
    } else {
        i
    }
}

pub open spec fn is_sign(c: char) -> bool {
    c == '-' || c == '+'
}

/// Decimal floating-point syntax: a sign, digits with at most one `.` and
/// at least one digit, then an optional exponent `e` / `E` with an optional
/// sign and at least one digit.
pub open spec fn float_syntax(t: Seq<char>) -> bool {
    let a = if t.len() > 0 && is_sign(t[0]) { 1int } else { 0int };
    let i = digits_run(t, a);
    let dot = i < t.len() && t[i] == '.';
    let j = if dot { digits_run(t, i + 1) } else { i };
    let n = (i - a) + if dot { j - (i + 1) } else { 0 };
    let k = if j + 1 < t.len() && is_sign(t[j + 1]) { j + 2 } else { j + 1 };
    &&& n > 0
    &&& (j == t.len() || ((t[j] == 'e' || t[j] == 'E') && digits_run(t, k) > k && digits_run(t, k)
        == t.len()))
}

/// Value of an integer token: an optional `-` and at least one digit, in the
/// range of `i64`.
pub open spec fn int_of(t: Seq<char>) -> Option<int> {
    let neg = t.len() > 0 && t[0] == '-';
    let d = if neg { t.drop_first() } else { t };
    let v = if neg { -digits_value(d) } else { digits_value(d) as int };
    if d.len() > 0 && all_digits(d) && i64::MIN <= v <= i64::MAX {
        Some(v)
    } else {
        None
    }
}

/// Index of the first entry with key `k` from `i` on, or -1.
pub open spec fn find_key(o: Seq<(Seq<char>, Json)>, k: Seq<char>, i: int) -> int
    decreases o.len() - i,
{
    if i < 0 || i >= o.len() {
        -1
    } else if o[i].0 == k {
        i
    } else {
        find_key(o, k, i + 1)
    }
}

/// The entries with `k` bound to `v`: the entry of `k` is replaced where there
/// is one, else the pair is appended.
pub open spec fn obj_insert(o: Seq<(Seq<char>, Json)>, k: Seq<char>, v: Json) -> Seq<(Seq<char>, Json)> {
    let i = find_key(o, k, 0);
    if i >= 0 {
        o.update(i, (k, v))
    } else {
        o.push((k, v))
    }
}

/// No two entries have the same key.
pub open spec fn unique_keys(o: Seq<(Seq<char>, Json)>) -> bool {
    forall|a: int, b: int| 0 <= a < o.len() && 0 <= b < o.len() && #[trigger] o[a].0 == #[trigger] o[b].0 ==> a == b
}

/// Binding a key keeps the keys unique.
pub proof fn lemma_insert_unique(o: Seq<(Seq<char>, Json)>, k: Seq<char>, v: Json)
    requires
        unique_keys(o),
    ensures
        unique_keys(obj_insert(o, k, v)),
{
    lemma_find_key_first(o, k, 0);
    let r = obj_insert(o, k, v);
    assert forall|a: int, b: int| 0 <= a < r.len() && 0 <= b < r.len() && #[trigger] r[a].0 == #[trigger] r[b].0 implies a == b by {
        if a < o.len() {
            assert(r[a].0 == o[a].0);
        }
        if b < o.len() {
            assert(r[b].0 == o[b].0);
        }
    }
}

/// `find_key` gives an entry with the key, or -1 when no entry from `s` on has it.
pub proof fn lemma_find_key_first(o: Seq<(Seq<char>, Json)>, k: Seq<char>, s: int)
    requires
        0 <= s,
    ensures
        find_key(o, k, s) == -1 || (s <= find_key(o, k, s) < o.len() && o[find_key(o, k, s)].0 == k),
        find_key(o, k, s) == -1 <==> (forall|m: int| s <= m < o.len() ==> #[trigger] o[m].0 != k),
    decreases o.len() - s,
{
    if s < o.len() {
        lemma_find_key_first(o, k, s + 1);
    }
}

pub type Parsed = Result<(Json, int), ParseError>;

pub open spec fn parse_str_at(s: Seq<char>, p: int) -> Parsed {
    match string_end(s, p + 1) {
        None => Err(ParseError::InvalidData),
        Some(q) => Ok((Json::Str(s.subrange(p + 1, q)), q + 1)),
    }
}

pub open spec fn lit_true() -> Seq<char> {
    seq!['t', 'r', 'u', 'e']
}

pub open spec fn lit_fals() -> Seq<char> {
    seq!['f', 'a', 'l', 's']
}

pub open spec fn lit_null() -> Seq<char> {
    seq!['n', 'u', 'l', 'l']
}

pub open spec fn parse_bool_at(s: Seq<char>, p: int) -> Parsed {
    if p + 4 > s.len() {
        Err(ParseError::InvalidData)
    } else if s.subrange(p, p + 4) == lit_true() {
        Ok((Json::Bool(true), p + 4))
    } else if s.subrange(p, p + 4) == lit_fals() {
        if p + 5 > s.len() {
            Err(ParseError::InvalidData)
        } else if s[p + 4] == 'e' {
            Ok((Json::Bool(false), p + 5))
        } else {
            Err(ParseError::InvalidToken)
        }
    } else {
        Err(ParseError::InvalidToken)
    }
}

pub open spec fn parse_null_at(s: Seq<char>, p: int) -> Parsed {
    if p + 4 > s.len() {
        Err(ParseError::InvalidData)
    } else if s.subrange(p, p + 4) == lit_null() {
        Ok((Json::Null, p + 4))
    } else {
        Err(ParseError::InvalidToken)
    }
}

pub open spec fn parse_number_at(s: Seq<char>, p: int) -> Parsed {
    let q = if s[p] == '-' { p + 1 } else { p };
    match num_scan(s, q, false, false) {
        None => Err(ParseError::InvalidToken),
        Some((e, dec, exp)) => {
            let t = s.subrange(p, e);
            if dec || exp {
                if float_syntax(t) {
                    Ok((Json::Float(t), e))
                } else {
                    Err(ParseError::InvalidToken)
                }
            } else {
                match int_of(t) {
                    Some(n) => Ok((Json::Int(n), e)),
                    None => Err(ParseError::InvalidToken),
                }
            }
        },
    }
}

/// The value that starts at `p`, and the position after it.
pub open spec fn parse_value_at(s: Seq<char>, p: int) -> Parsed
    decreases s.len() - p, 1int,
{
    if p < 0 || p >= s.len() {
        Err(ParseError::InvalidData)
    } else {
        let c = s[p];
        if c == '{' {
            parse_object_at(s, p)
        } else if c == '[' {
            parse_array_at(s, p)
        } else if c == '"' {
            parse_str_at(s, p)
        } else if c == 't' || c == 'f' {
            parse_bool_at(s, p)
        } else if c == 'n' {
            parse_null_at(s, p)
        } else if c == '-' || is_digit(c) {
            parse_number_at(s, p)
        } else {
            Err(ParseError::InvalidValue)
        }
    }
}

pub open spec fn parse_object_at(s: Seq<char>, p: int) -> Parsed
    decreases s.len() - p, 0int,
{
    if p < 0 || p >= s.len() {
        Err(ParseError::InvalidData)
    } else {
        let q = skip_ws(s, p + 1);
        if q <= p || q >= s.len() {
            Err(ParseError::InvalidData)
        } else if s[q] == '}' {
            Ok((Json::Object(Seq::empty()), q + 1))
        } else {
            parse_members_at(s, q, Seq::empty())
        }
    }
}

/// Members of an object from `q` on, after the members `acc` already read.
pub open spec fn parse_members_at(s: Seq<char>, q: int, acc: Seq<(Seq<char>, Json)>) -> Parsed
    decreases s.len() - q, 2int,
{
    if q < 0 || q >= s.len() || s[q] != '"' {
        Err(ParseError::InvalidKey)
    } else {
        match parse_str_at(s, q) {
            Err(_) => Err(ParseError::InvalidKey),
            Ok((key, q1)) => {
                let q2 = skip_ws(s, q1);
                if q2 >= s.len() {
                    Err(ParseError::InvalidData)
                } else if s[q2] != ':' {
                    Err(ParseError::InvalidToken)
                } else {
                    let q3 = skip_ws(s, q2 + 1);
                    if q3 <= q || q3 >= s.len() {
                        Err(ParseError::InvalidData)
                    } else {
                        match parse_value_at(s, q3) {
                            Err(e) => Err(e),
                            Ok((v, q4)) => {
                                let acc2 = obj_insert(acc, key->Str_0, v);
                                let q5 = skip_ws(s, q4);
                                if q4 <= q || q5 >= s.len() {
                                    Err(ParseError::InvalidData)
                                } else if s[q5] == '}' {
                                    Ok((Json::Object(acc2), q5 + 1))
                                } else if s[q5] != ',' {
                                    Err(ParseError::InvalidToken)
                                } else {
                                    let q6 = skip_ws(s, q5 + 1);
                                    if q6 <= q || q6 >= s.len() {
                                        Err(ParseError::InvalidData)
                                    } else {
                                        parse_members_at(s, q6, acc2)
                                    }
                                }
                            },
                        }
                    }
                }
            },
        }
    }
}

pub open spec fn parse_array_at(s: Seq<char>, p: int) -> Parsed
    decreases s.len() - p, 0int,
{
    if p < 0 || p >= s.len() {
        Err(ParseError::InvalidData)
    } else {
        let q = skip_ws(s, p + 1);
        if q <= p || q >= s.len() {
            Err(ParseError::InvalidData)
        } else if s[q] == ']' {
            Ok((Json::Array(Seq::empty()), q + 1))
        } else {
            parse_items_at(s, q, Seq::empty())
        }
    }
}

/// Items of an array from `q` on, after the items `acc` already read.
pub open spec fn parse_items_at(s: Seq<char>, q: int, acc: Seq<Json>) -> Parsed
    decreases s.len() - q, 2int,
{
    if q < 0 || q >= s.len() {
        Err(ParseError::InvalidData)
    } else {
        match parse_value_at(s, q) {
            Err(e) => Err(e),
            Ok((v, q1)) => {
                let acc2 = acc.push(v);
                let q2 = skip_ws(s, q1);
                if q1 <= q || q2 >= s.len() {
                    Err(ParseError::InvalidData)
                } else if s[q2] == ']' {
                    Ok((Json::Array(acc2), q2 + 1))
                } else if s[q2] != ',' {
                    Err(ParseError::InvalidToken)
                } else {
                    let q3 = skip_ws(s, q2 + 1);
                    if q3 <= q || q3 >= s.len() {
                        Err(ParseError::InvalidData)
                    } else {
                        parse_items_at(s, q3, acc2)
                    }
                }
            },
        }
    }
}

/// The document that a text holds: `null` for the empty text, else the value
/// that starts at its first non-whitespace character (what follows it is not read).
pub open spec fn parse_doc(s: Seq<char>) -> Result<Json, ParseError> {
    if s.len() == 0 {
        Ok(Json::Null)
    } else {
        match parse_value_at(s, skip_ws(s, 0)) {
            Ok((v, _)) => Ok(v),
            Err(e) => Err(e),
        }
    }
}

/// `r` is what `expect` describes: the same value with `end` the position
/// after it, or the same error.
pub open spec fn parsed_as(r: Result<Value, ParseError>, expect: Parsed, start: int, end: int) -> bool {
    match expect {
        Ok((j, q)) => r is Ok && r->Ok_0@ == j && end == q && q > start,
        Err(e) => r == Err::<Value, ParseError>(e),
    }
}

fn is_space(c: char) -> (r: bool)
    ensures
        r == is_ws(c),
{
    c == ' ' || c == '\t' || c == '\n' || c == '\r'
}

fn skip_whitespace(s: &Vec<char>, pos: &mut usize)
    requires
        *old(pos) <= s.len(),
    ensures
        *final(pos) as int == skip_ws(s@, *old(pos) as int),
        *old(pos) <= *final(pos) <= s@.len(),
{
    while *pos < s.len() && is_space(s[*pos])
        invariant
            *old(pos) <= *pos <= s@.len(),
            skip_ws(s@, *old(pos) as int) == skip_ws(s@, *pos as int),
        decreases s@.len() - *pos,
    {
        *pos = *pos + 1;
    }
}

fn parse_string(s: &Vec<char>, pos: &mut usize) -> (r: Result<Value, ParseError>)
    requires
        *old(pos) < s.len(),
    ensures
        parsed_as(r, parse_str_at(s@, *old(pos) as int), *old(pos) as int, *final(pos) as int),
        r is Ok ==> *final(pos) <= s@.len(),
{
    let p = *pos;
    let mut q: usize = p + 1;
    loop
        invariant
            p == *old(pos),
            p < q <= s@.len(),
            string_end(s@, p + 1) == string_end(s@, q as int),
        ensures
            p < q < s@.len(),
            string_end(s@, p + 1) == Some(q as int),
        decreases s@.len() - q,
    {
        if q >= s.len() {
            return Err(ParseError::InvalidData);
        }
        let c = s[q];
        if c == '\\' {
            if q + 1 >= s.len() {
                return Err(ParseError::InvalidData);
            }
            q = q + 2;
        } else if c == '"' {
            break;
        } else {
            q = q + 1;
        }
    }
    let text = string_from(s, p + 1, q);
    *pos = q + 1;
    Ok(Value::String(text))
}

fn parse_boolean(s: &Vec<char>, pos: &mut usize) -> (r: Result<Value, ParseError>)
    requires
        *old(pos) < s.len(),
    ensures
        parsed_as(r, parse_bool_at(s@, *old(pos) as int), *old(pos) as int, *final(pos) as int),
        r is Ok ==> *final(pos) <= s@.len(),
{
    let p = *pos;
    if s.len() - p < 4 {
        return Err(ParseError::InvalidData);
    }
    let ghost w = s@.subrange(p as int, p + 4);
    let t = s[p] == 't' && s[p + 1] == 'r' && s[p + 2] == 'u' && s[p + 3] == 'e';
    let f = s[p] == 'f' && s[p + 1] == 'a' && s[p + 2] == 'l' && s[p + 3] == 's';
    assert(t <==> w == lit_true()) by {
        if w == lit_true() {
            assert(w[0] == s@[p as int] && w[1] == s@[p + 1] && w[2] == s@[p + 2] && w[3] == s@[p + 3]);
        }
        if t {
            assert(w =~= lit_true());
        }
    }
    assert(f <==> w == lit_fals()) by {
        if w == lit_fals() {
            assert(w[0] == s@[p as int] && w[1] == s@[p + 1] && w[2] == s@[p + 2] && w[3] == s@[p + 3]);
        }
        if f {
            assert(w =~= lit_fals());
        }
    }
    if t {
        *pos = p + 4;
        Ok(Value::Boolean(true))
    } else if f {
        if s.len() - p < 5 {
            return Err(ParseError::InvalidData);
        }
        if s[p + 4] == 'e' {
            *pos = p + 5;
            Ok(Value::Boolean(false))
        } else {
            Err(ParseError::InvalidToken)
        }
    } else {
        Err(ParseError::InvalidToken)
    }
}

fn parse_null(s: &Vec<char>, pos: &mut usize) -> (r: Result<Value, ParseError>)
    requires
        *old(pos) < s.len(),
    ensures
        parsed_as(r, parse_null_at(s@, *old(pos) as int), *old(pos) as int, *final(pos) as int),
        r is Ok ==> *final(pos) <= s@.len(),
{
    let p = *pos;
    if s.len() - p < 4 {
        return Err(ParseError::InvalidData);
    }
    let ghost w = s@.subrange(p as int, p + 4);
    let n = s[p] == 'n' && s[p + 1] == 'u' && s[p + 2] == 'l' && s[p + 3] == 'l';
    assert(n <==> w == lit_null()) by {
        if w == lit_null() {
            assert(w[0] == s@[p as int] && w[1] == s@[p + 1] && w[2] == s@[p + 2] && w[3] == s@[p + 3]);
        }
        if n {
            assert(w =~= lit_null());
        }
    }
    if n {
        *pos = p + 4;
        Ok(Value::Null)
    } else {
        Err(ParseError::InvalidToken)
    }
}

fn is_digit_char(c: char) -> (r: bool)
    ensures
        r == is_digit(c),
{
    '0' <= c && c <= '9'
}

/// End of the run of digits of `s` that starts at `i`, not past `e`.
fn run_digits(s: &Vec<char>, b: usize, i: usize, e: usize) -> (r: usize)
    requires
        b <= i <= e <= s.len(),
    ensures
        r as int - b == digits_run(s@.subrange(b as int, e as int), i - b),
        i <= r <= e,
{
    let ghost t = s@.subrange(b as int, e as int);
    let mut j: usize = i;
    while j < e && is_digit_char(s[j])
        invariant
            b <= i <= j <= e <= s@.len(),
            t == s@.subrange(b as int, e as int),
            digits_run(t, i - b) == digits_run(t, j - b),
        decreases e - j,
    {
        assert(t[j - b] == s@[j as int]);
        j = j + 1;
    }
    proof {
        if j < e {
            assert(t[j - b] == s@[j as int]);
        }
    }
    j
}

/// Whether `s[b..e]` is in decimal floating-point syntax.
fn is_float_syntax(s: &Vec<char>, b: usize, e: usize) -> (r: bool)
    requires
        b <= e <= s.len(),
    ensures
        r == float_syntax(s@.subrange(b as int, e as int)),
{
    let ghost t = s@.subrange(b as int, e as int);
    let a: usize = if b < e && (s[b] == '-' || s[b] == '+') { b + 1 } else { b };
    proof {
        if b < e {
            assert(t[0] == s@[b as int]);
        }
    }
    let i = run_digits(s, b, a, e);
    let dot = i < e && s[i] == '.';
    proof {
        if i < e {
            assert(t[i - b] == s@[i as int]);
        }
    }
    let j = if dot { run_digits(s, b, i + 1, e) } else { i };
    let n: usize = (i - a) + if dot { j - (i + 1) } else { 0 };
    if n == 0 {
        return false;
    }
    if j == e {
        return true;
    }
    assert(t[j - b] == s@[j as int]);
    if !(s[j] == 'e' || s[j] == 'E') {
        return false;
    }
    let k: usize = if j + 1 < e && (s[j + 1] == '-' || s[j + 1] == '+') { j + 2 } else { j + 1 };
    proof {
        if j + 1 < e {
            assert(t[j + 1 - b] == s@[j + 1]);
        }
    }
    let m = run_digits(s, b, k, e);
    m > k && m == e
}

proof fn lemma_num_scan_bounds(s: Seq<char>, q: int, dec: bool, exp: bool)
    requires
        0 <= q <= s.len(),
    ensures
        num_scan(s, q, dec, exp) matches Some((e, _, _)) ==> q <= e <= s.len(),
    decreases s.len() - q,
{
    if q < s.len() {
        lemma_num_scan_bounds(s, q + 1, dec, exp);
        lemma_num_scan_bounds(s, q + 1, true, exp);
        lemma_num_scan_bounds(s, q + 1, dec, true);
    }
}

fn parse_number(s: &Vec<char>, pos: &mut usize) -> (r: Result<Value, ParseError>)
    requires
        *old(pos) < s.len(),
        s@[*old(pos) as int] == '-' || is_digit(s@[*old(pos) as int]),
    ensures
        parsed_as(r, parse_number_at(s@, *old(pos) as int), *old(pos) as int, *final(pos) as int),
        r is Ok ==> *final(pos) <= s@.len(),
{
    let p = *pos;
    let q0: usize = if s[p] == '-' { p + 1 } else { p };
    let mut q: usize = q0;
    let mut dec = false;
    let mut exp = false;
    proof {
        lemma_num_scan_bounds(s@, q0 as int, false, false);
    }
    loop
        invariant
            p == *old(pos),
            p < s@.len(),
            q0 == if s@[p as int] == '-' { p + 1 } else { p as int },
            q0 <= q <= s@.len(),
            num_scan(s@, q0 as int, false, false) == num_scan(s@, q as int, dec, exp),
        ensures
            q0 <= q <= s@.len(),
            num_scan(s@, q0 as int, false, false) == Some((q as int, dec, exp)),
        decreases s@.len() - q,
    {
        if q >= s.len() {
            break;
        }
        let c = s[q];
        if is_digit_char(c) {
            q = q + 1;
        } else if c == '.' {
            if dec {
                return Err(ParseError::InvalidToken);
            }
            dec = true;
            q = q + 1;
        } else if c == 'e' || c == 'E' {
            if exp {
                return Err(ParseError::InvalidToken);
            }
            exp = true;
            q = q + 1;
        } else if c == '-' || c == '+' {
            if !exp {
                return Err(ParseError::InvalidToken);
            }
            q = q + 1;
        } else {
            break;
        }
    }
    let e = q;
    assert(e > p) by {
        if s@[p as int] != '-' {
            assert(is_digit(s@[p as int]));
            lemma_num_scan_bounds(s@, p + 1, false, false);
            assert(num_scan(s@, p as int, false, false) == num_scan(s@, p + 1, false, false));
        }
    }
    if dec || exp {
        if is_float_syntax(s, p, e) {
            *pos = e;
            Ok(Value::Float(string_from(s, p, e)))
        } else {
            Err(ParseError::InvalidToken)
        }
    } else {
        let ghost t = s@.subrange(p as int, e as int);
        let neg = s[p] == '-';
        assert(t[0] == s@[p as int]);
        let start: usize = if neg { p + 1 } else { p };
        assert(s@.subrange(start as int, e as int) =~= if neg { t.drop_first() } else { t });
        match parse_decimal(s, start, e) {
            None => Err(ParseError::InvalidToken),
            Some(v) => {
                if neg {
                    if v > 9223372036854775808u64 {
                        Err(ParseError::InvalidToken)
                    } else {
                        *pos = e;
                        let n: i64 = if v == 9223372036854775808u64 {
                            i64::MIN
                        } else {
                            -(v as i64)
                        };
                        Ok(Value::Integer(n))
                    }
                } else {
                    if v > 9223372036854775807u64 {
                        Err(ParseError::InvalidToken)
                    } else {
                        *pos = e;
                        Ok(Value::Integer(v as i64))
                    }
                }
            },
        }
    }
}

/// Binds `k` to `v` in the entries of an object.
pub fn insert_entry(o: &mut Vec<(String, Value)>, k: String, v: Value)
    ensures
        entries_view(*final(o), final(o)@.len() as int) == obj_insert(
            entries_view(*old(o), old(o)@.len() as int),
            k@,
            v@,
        ),
{
    let ghost before = entries_view(*o, o@.len() as int);
    proof {
        lemma_entries_view(*o, o@.len() as int);
    }
    let mut i: usize = 0;
    while i < o.len()
        invariant
            o@ == old(o)@,
            *o == *old(o),
            before == entries_view(*o, o@.len() as int),
            before.len() == o@.len(),
            forall|j: int| 0 <= j < o@.len() ==> #[trigger] before[j] == (o@[j].0@, o@[j].1@),
            i <= o@.len(),
            find_key(before, k@, 0) == find_key(before, k@, i as int),
        decreases o@.len() - i,
    {
        if o[i].0 == k {
            assert(find_key(before, k@, i as int) == i);
            o[i] = (k, v);
            proof {
                lemma_entries_view(*o, o@.len() as int);
                assert(entries_view(*o, o@.len() as int) =~= obj_insert(before, k@, v@));
            }
            return;
        }
        i = i + 1;
    }
    o.push((k, v));
    proof {
        lemma_entries_view(*o, o@.len() as int);
        assert(entries_view(*o, o@.len() as int) =~= obj_insert(before, k@, v@));
    }
}

fn parse_value(s: &Vec<char>, pos: &mut usize) -> (r: Result<Value, ParseError>)
    requires
        *old(pos) <= s.len(),
    ensures
        parsed_as(r, parse_value_at(s@, *old(pos) as int), *old(pos) as int, *final(pos) as int),
        r is Ok ==> *final(pos) <= s@.len(),
    decreases s@.len() - *old(pos), 1int,
{
    let p = *pos;
    if p >= s.len() {
        return Err(ParseError::InvalidData);
    }
    let c = s[p];
    if c == '{' {
        parse_object(s, pos)
    } else if c == '[' {
        parse_array(s, pos)
    } else if c == '"' {
        parse_string(s, pos)
    } else if c == 't' || c == 'f' {
        parse_boolean(s, pos)
    } else if c == 'n' {
        parse_null(s, pos)
    } else if c == '-' || is_digit_char(c) {
        parse_number(s, pos)
    } else {
        Err(ParseError::InvalidValue)
    }
}

fn parse_object(s: &Vec<char>, pos: &mut usize) -> (r: Result<Value, ParseError>)
    requires
        *old(pos) < s.len(),
    ensures
        parsed_as(r, parse_object_at(s@, *old(pos) as int), *old(pos) as int, *final(pos) as int),
        r is Ok ==> *final(pos) <= s@.len(),
    decreases s@.len() - *old(pos), 0int,
{
    let p = *pos;
    *pos = p + 1;
    skip_whitespace(s, pos);
    if *pos >= s.len() {
        return Err(ParseError::InvalidData);
    }
    if s[*pos] == '}' {
        *pos = *pos + 1;
        return Ok(Value::Object(Vec::new()));
    }
    let mut map: Vec<(String, Value)> = Vec::new();
    loop
        invariant
            p == *old(pos),
            p < *pos < s@.len(),
            parse_object_at(s@, p as int) == parse_members_at(s@, *pos as int, entries_view(map, map@.len() as int)),
        decreases s@.len() - *pos,
    {
        let q = *pos;
        if s[q] != '"' {
            return Err(ParseError::InvalidKey);
        }
        let key = match parse_string(s, pos) {
            Ok(Value::String(k)) => k,
            _ => {
                return Err(ParseError::InvalidKey);
            },
        };
        skip_whitespace(s, pos);
        if *pos >= s.len() {
            return Err(ParseError::InvalidData);
        }
        if s[*pos] != ':' {
            return Err(ParseError::InvalidToken);
        }
        *pos = *pos + 1;
        skip_whitespace(s, pos);
        if *pos >= s.len() {
            return Err(ParseError::InvalidData);
        }
        let q3 = *pos;
        let value = match parse_value(s, pos) {
            Ok(v) => v,
            Err(e) => {
                return Err(e);
            },
        };
        let ghost q4 = *pos;
        insert_entry(&mut map, key, value);
        skip_whitespace(s, pos);
        if *pos >= s.len() {
            return Err(ParseError::InvalidData);
        }
        if s[*pos] == '}' {
            *pos = *pos + 1;
            return Ok(Value::Object(map));
        }
        if s[*pos] != ',' {
            return Err(ParseError::InvalidToken);
        }
        *pos = *pos + 1;
        skip_whitespace(s, pos);
        if *pos >= s.len() {
            return Err(ParseError::InvalidData);
        }
    }
}

fn parse_array(s: &Vec<char>, pos: &mut usize) -> (r: Result<Value, ParseError>)
    requires
        *old(pos) < s.len(),
    ensures
        parsed_as(r, parse_array_at(s@, *old(pos) as int), *old(pos) as int, *final(pos) as int),
        r is Ok ==> *final(pos) <= s@.len(),
    decreases s@.len() - *old(pos), 0int,
{
    let p = *pos;
    *pos = p + 1;
    skip_whitespace(s, pos);
    if *pos >= s.len() {
        return Err(ParseError::InvalidData);
    }
    if s[*pos] == ']' {
        *pos = *pos + 1;
        return Ok(Value::Array(Vec::new()));
    }
    let mut items: Vec<Value> = Vec::new();
    loop
        invariant
            p == *old(pos),
            p < *pos < s@.len(),
            parse_array_at(s@, p as int) == parse_items_at(s@, *pos as int, items_view(items, items@.len() as int)),
        decreases s@.len() - *pos,
    {
        let q = *pos;
        let value = match parse_value(s, pos) {
            Ok(v) => v,
            Err(e) => {
                return Err(e);
            },
        };
        let ghost before = items;
        items.push(value);
        proof {
            lemma_items_view(before, before@.len() as int);
            lemma_items_view(items, items@.len() as int);
            assert(items_view(items, items@.len() as int) =~= items_view(before, before@.len() as int).push(value@));
        }
        skip_whitespace(s, pos);
        if *pos >= s.len() {
            return Err(ParseError::InvalidData);
        }
        if s[*pos] == ']' {
            *pos = *pos + 1;
            return Ok(Value::Array(items));
        }
        if s[*pos] != ',' {
            return Err(ParseError::InvalidToken);
        }
        *pos = *pos + 1;
        skip_whitespace(s, pos);
        if *pos >= s.len() {
            return Err(ParseError::InvalidData);
        }
    }
}

pub open spec fn parse_error_text(e: ParseError) -> Seq<char> {
    match e {
        ParseError::InvalidValue => "Invalid value"@,
        ParseError::InvalidToken => "Invalid token"@,
        ParseError::InvalidData => "Invalid data"@,
        ParseError::InvalidKey => "Invalid key"@,
    }
}

impl ParseError {
    /// The text of the error.
    pub fn as_str(&self) -> (r: &'static str)
        ensures
            r@ == parse_error_text(*self),
    {
        match self {
            ParseError::InvalidValue => "Invalid value",
            ParseError::InvalidToken => "Invalid token",
            ParseError::InvalidData => "Invalid data",
            ParseError::InvalidKey => "Invalid key",
        }
    }
}

impl Value {
    /// Reads a document from its text: `null` for the empty text, else the
    /// value that starts at the first non-whitespace character.
    pub fn deserialize(value: &str) -> (r: Result<Value, ParseError>)
        ensures
            match parse_doc(value@) {
                Ok(j) => r is Ok && r->Ok_0@ == j,
                Err(e) => r == Err::<Value, ParseError>(e),
            },
    {
        let s = chars_of(value);
        deserialize_chars(&s)
    }
}

/// Reads a document from its characters, as `deserialize` does.
pub fn deserialize_chars(s: &Vec<char>) -> (r: Result<Value, ParseError>)
    ensures
        match parse_doc(s@) {
            Ok(j) => r is Ok && r->Ok_0@ == j,
            Err(e) => r == Err::<Value, ParseError>(e),
        },
{
    if s.len() == 0 {
        return Ok(Value::Null);
    }
    let mut pos: usize = 0;
    skip_whitespace(s, &mut pos);
    parse_value(s, &mut pos)
}

} // verus!

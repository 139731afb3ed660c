use vstd::prelude::*;
use crate::json::{Json, quoted, ser, ser_items, ser_members};
use crate::parser::{
    float_syntax, int_of, num_scan, obj_insert, find_key, parse_doc, parse_value_at, parse_object_at, parse_array_at,
    parse_members_at, parse_items_at, parse_str_at, parse_number_at, skip_ws, string_end,
    lit_true, lit_fals, lit_null, is_ws, ParseError, unique_keys, lemma_find_key_first,
};
use crate::text::{all_digits, digits_value, int_text, is_digit, nat_text, digit_char};

verus! {

pub open spec fn is_num_char(c: char) -> bool {
    is_digit(c) || c == '.' || c == 'e' || c == 'E' || c == '-' || c == '+'
}

/// Position `e` ends a number: the text ends there or holds no number character.
pub open spec fn stops_number(s: Seq<char>, e: int) -> bool {
    e >= s.len() || !is_num_char(s[e])
}

/// From `i` on, `c` holds no unescaped quote and no backslash at its end:
/// the contents of a string that reads back as it is.
pub open spec fn esc_ok(c: Seq<char>, i: int) -> bool
    decreases c.len() - i,
{
    if i < 0 || i >= c.len() {
        i == c.len()
    } else if c[i] == '\\' {
        i + 1 < c.len() && esc_ok(c, i + 2)
    } else {
        c[i] != '"' && esc_ok(c, i + 1)
    }
}

pub open spec fn num_start(t: Seq<char>) -> int {
    if t.len() > 0 && t[0] == '-' { 1 } else { 0 }
}

/// A float literal that the number grammar reads whole.
pub open spec fn float_ok(t: Seq<char>) -> bool {
    &&& t.len() > 0
    &&& (t[0] == '-' || is_digit(t[0]))
    &&& num_scan(t, num_start(t), false, false) matches Some((e, d, x))
    &&& e == t.len()
    &&& (d || x)
    &&& float_syntax(t)
}

/// The values that the parser gives: string contents and keys read back as
/// they are, integers fit in `i64`, float literals are whole, keys are unique.
pub open spec fn wf(j: Json) -> bool
    decreases j,
{
    match j {
        Json::Object(o) => unique_keys(o) && forall|i: int| 0 <= i < o.len() ==> esc_ok(#[trigger] o[i].0, 0) && wf(o[i].1),
        Json::Array(a) => forall|i: int| 0 <= i < a.len() ==> wf(#[trigger] a[i]),
        Json::Str(c) => esc_ok(c, 0),
        Json::Int(n) => i64::MIN <= n <= i64::MAX,
        Json::Float(t) => float_ok(t),
        _ => true,
    }
}

proof fn lemma_string_end_bounds(s: Seq<char>, q: int)
    requires
        0 <= q,
    ensures
        string_end(s, q) matches Some(e) ==> q <= e < s.len() && s[e] == '"',
    decreases s.len() - q,
{
    if 0 <= q < s.len() {
        if s[q] == '\\' {
            if q + 1 < s.len() {
                lemma_string_end_bounds(s, q + 2);
            }
        } else if s[q] != '"' {
            lemma_string_end_bounds(s, q + 1);
        }
    }
}

/// Contents that `esc_ok` accepts, then a quote, are read up to that quote.
proof fn lemma_string_scan(s: Seq<char>, b: int, c: Seq<char>, i: int)
    requires
        0 <= b,
        0 <= i <= c.len(),
        b + c.len() < s.len(),
        s.subrange(b, b + c.len()) == c,
        s[b + c.len()] == '"',
        esc_ok(c, i),
    ensures
        string_end(s, b + i) == Some(b + c.len()),
    decreases c.len() - i,
{
    if i < c.len() {
        assert(s[b + i] == c[i]);
        if c[i] == '\\' {
            lemma_string_scan(s, b, c, i + 2);
        } else {
            lemma_string_scan(s, b, c, i + 1);
        }
    }
}

/// The contents of a string that was read back satisfy `esc_ok`.
proof fn lemma_string_parsed(s: Seq<char>, b: int, q: int)
    requires
        0 <= b <= q,
        string_end(s, q) is Some,
    ensures
        esc_ok(s.subrange(b, string_end(s, q)->Some_0), q - b),
    decreases s.len() - q,
{
    let e = string_end(s, q)->Some_0;
    let c = s.subrange(b, e);
    lemma_string_end_bounds(s, q);
    if s[q] == '\\' {
        lemma_string_parsed(s, b, q + 2);
        lemma_string_end_bounds(s, q + 2);
        assert(c[q - b] == s[q]);
    } else if s[q] != '"' {
        lemma_string_parsed(s, b, q + 1);
        assert(c[q - b] == s[q]);
    }
}

pub open spec fn shifted(o: Option<(int, bool, bool)>, b: int) -> Option<(int, bool, bool)> {
    match o {
        Some((e, d, x)) => Some((e + b, d, x)),
        None => None,
    }
}

/// A number scan inside a text goes as on the number's own characters,
/// when what follows them ends the number.
proof fn lemma_num_scan_shift(s: Seq<char>, b: int, t: Seq<char>, i: int, d: bool, x: bool)
    requires
        0 <= b,
        0 <= i <= t.len(),
        b + t.len() <= s.len(),
        s.subrange(b, b + t.len()) == t,
        stops_number(s, b + t.len()),
    ensures
        num_scan(s, b + i, d, x) == shifted(num_scan(t, i, d, x), b),
    decreases t.len() - i,
{
    if i < t.len() {
        assert(s[b + i] == t[i]);
        lemma_num_scan_shift(s, b, t, i + 1, d, x);
        lemma_num_scan_shift(s, b, t, i + 1, true, x);
        lemma_num_scan_shift(s, b, t, i + 1, d, true);
    }
}

proof fn lemma_digits_scan(t: Seq<char>, i: int, d: bool, x: bool)
    requires
        0 <= i <= t.len(),
        forall|k: int| i <= k < t.len() ==> is_digit(#[trigger] t[k]),
    ensures
        num_scan(t, i, d, x) == Some((t.len() as int, d, x)),
    decreases t.len() - i,
{
    if i < t.len() {
        assert(is_digit(t[i]));
        lemma_digits_scan(t, i + 1, d, x);
    }
}

proof fn lemma_nat_text(m: nat)
    ensures
        nat_text(m).len() >= 1,
        all_digits(nat_text(m)),
        digits_value(nat_text(m)) == m,
    decreases m,
{
    let c = digit_char(m % 10);
    assert(c as u32 == 48 + m % 10);
    if m >= 10 {
        lemma_nat_text(m / 10);
        let t = nat_text(m);
        assert(t.drop_last() == nat_text(m / 10));
        assert(t.last() == c);
        assert((m / 10) * 10 + m % 10 == m) by (nonlinear_arith);
        assert(digits_value(t) == digits_value(t.drop_last()) * 10 + ((t.last() as u32 - 48) as nat));
    } else {
        let t = nat_text(m);
        assert(t.drop_last() =~= Seq::<char>::empty());
        assert(digits_value(t.drop_last()) == 0);
        assert(t.last() == c);
        assert(m % 10 == m);
        assert(digits_value(t) == digits_value(t.drop_last()) * 10 + ((t.last() as u32 - 48) as nat));
    }
}

proof fn lemma_int_text(n: int)
    requires
        i64::MIN <= n <= i64::MAX,
    ensures
        int_text(n).len() >= 1,
        int_text(n)[0] == '-' || is_digit(int_text(n)[0]),
        int_of(int_text(n)) == Some(n),
        num_scan(int_text(n), num_start(int_text(n)), false, false) == Some((int_text(n).len() as int, false, false)),
{
    let t = int_text(n);
    if n < 0 {
        lemma_nat_text((-n) as nat);
        assert(t.drop_first() =~= nat_text((-n) as nat));
        lemma_digits_scan(t, 1, false, false);
    } else {
        lemma_nat_text(n as nat);
        assert(is_digit(t[0]));
        lemma_digits_scan(t, 0, false, false);
    }
}

/// The items of an array from index `k` on, as `ser_items` writes them.
pub open spec fn items_tail(a: Seq<Json>, k: int) -> Seq<char>
    decreases a.len() - k,
{
    if k < 0 || k >= a.len() {
        Seq::empty()
    } else if k + 1 == a.len() {
        ser(a[k])
    } else {
        ser(a[k]) + seq![',', ' '] + items_tail(a, k + 1)
    }
}

pub open spec fn member_text(e: (Seq<char>, Json)) -> Seq<char> {
    quoted(e.0) + seq![':', ' '] + ser(e.1)
}

/// The members of an object from index `k` on, as `ser_members` writes them.
pub open spec fn members_tail(o: Seq<(Seq<char>, Json)>, k: int) -> Seq<char>
    decreases o.len() - k,
{
    if k < 0 || k >= o.len() {
        Seq::empty()
    } else if k + 1 == o.len() {
        member_text(o[k])
    } else {
        member_text(o[k]) + seq![',', ' '] + members_tail(o, k + 1)
    }
}

proof fn lemma_items_tail_push(b: Seq<Json>, x: Json, k: int)
    requires
        0 <= k < b.len(),
    ensures
        items_tail(b.push(x), k) == items_tail(b, k) + seq![',', ' '] + ser(x),
    decreases b.len() - k,
{
    let a = b.push(x);
    assert(a[k] == b[k]);
    if k + 1 < b.len() {
        lemma_items_tail_push(b, x, k + 1);
    } else {
        assert(a[k + 1] == x);
        assert(items_tail(a, k + 1) == ser(x));
    }
    assert(items_tail(a, k) =~= items_tail(b, k) + seq![',', ' '] + ser(x));
}

proof fn lemma_items_tail(a: Seq<Json>)
    requires
        a.len() >= 1,
    ensures
        ser_items(a) == items_tail(a, 0),
    decreases a.len(),
{
    if a.len() > 1 {
        let b = a.drop_last();
        lemma_items_tail(b);
        lemma_items_tail_push(b, a.last(), 0);
        assert(b.push(a.last()) =~= a);
    }
}

proof fn lemma_members_tail_push(b: Seq<(Seq<char>, Json)>, x: (Seq<char>, Json), k: int)
    requires
        0 <= k < b.len(),
    ensures
        members_tail(b.push(x), k) == members_tail(b, k) + seq![',', ' '] + member_text(x),
    decreases b.len() - k,
{
    let a = b.push(x);
    assert(a[k] == b[k]);
    if k + 1 < b.len() {
        lemma_members_tail_push(b, x, k + 1);
    } else {
        assert(a[k + 1] == x);
        assert(members_tail(a, k + 1) == member_text(x));
    }
    assert(members_tail(a, k) =~= members_tail(b, k) + seq![',', ' '] + member_text(x));
}

proof fn lemma_members_tail(o: Seq<(Seq<char>, Json)>)
    requires
        o.len() >= 1,
    ensures
        ser_members(o) == members_tail(o, 0),
    decreases o.len(),
{
    if o.len() > 1 {
        let b = o.drop_last();
        lemma_members_tail(b);
        lemma_members_tail_push(b, o.last(), 0);
        assert(b.push(o.last()) =~= o);
    }
}

/// The first character of a value's text, which tells the parser its kind.
proof fn lemma_ser_start(j: Json)
    requires
        wf(j),
    ensures
        ser(j).len() >= 1,
        !is_ws(ser(j)[0]),
        ser(j)[0] != ']' && ser(j)[0] != '}',
        !is_num_char(ser(j)[0]) <==> !(j is Int || j is Float),
        j is Object ==> ser(j)[0] == '{',
        j is Array ==> ser(j)[0] == '[',
        j is Str ==> ser(j)[0] == '"',
        j is Bool ==> (ser(j)[0] == 't' || ser(j)[0] == 'f'),
        j is Null ==> ser(j)[0] == 'n',
        (j is Int || j is Float) ==> (ser(j)[0] == '-' || is_digit(ser(j)[0])),
{
    match j {
        Json::Int(n) => {
            lemma_int_text(n);
        },
        _ => {},
    }
}

/// Where `t` stands at `b` in `s`, so does each part of it.
proof fn lemma_sub(s: Seq<char>, b: int, t: Seq<char>, i: int, n: int)
    requires
        0 <= b,
        b + t.len() <= s.len(),
        s.subrange(b, b + t.len()) == t,
        0 <= i,
        0 <= n,
        i + n <= t.len(),
    ensures
        s.subrange(b + i, b + i + n) == t.subrange(i, i + n),
        forall|k: int| 0 <= k < t.len() ==> s[b + k] == #[trigger] t[k],
{
    assert forall|k: int| 0 <= k < t.len() implies s[b + k] == #[trigger] t[k] by {
        assert(s.subrange(b, b + t.len())[k] == s[b + k]);
    }
    assert(s.subrange(b + i, b + i + n) =~= t.subrange(i, i + n));
}

proof fn lemma_skip_one(s: Seq<char>, q: int)
    requires
        0 <= q < s.len(),
        !is_ws(s[q]),
    ensures
        skip_ws(s, q) == q,
{
}

/// A value's text inside a longer text reads back as that value.
proof fn lemma_parse_ser(s: Seq<char>, b: int, j: Json)
    requires
        wf(j),
        0 <= b,
        b + ser(j).len() <= s.len(),
        s.subrange(b, b + ser(j).len()) == ser(j),
        stops_number(s, b + ser(j).len()),
    ensures
        parse_value_at(s, b) == Ok::<(Json, int), ParseError>((j, b + ser(j).len())),
    decreases j, 0int,
{
    let t = ser(j);
    lemma_ser_start(j);
    assert(s[b] == t[0]);
    match j {
        Json::Object(o) => {
            assert(decreases_to!(j => j->Object_0));
            lemma_parse_ser_object(s, b, o);
        },
        Json::Array(a) => {
            assert(decreases_to!(j => j->Array_0));
            lemma_parse_ser_array(s, b, a);
        },
        Json::Str(c) => {
            assert(t =~= seq!['"'] + c + seq!['"']);
            lemma_sub(s, b, t, 1, c.len() as int);
            assert(t.subrange(1, 1 + c.len() as int) =~= c);
            assert(s[b + 1 + c.len()] == t[c.len() + 1int]);
            lemma_string_scan(s, b + 1, c, 0);
            assert(parse_value_at(s, b) == Ok::<(Json, int), ParseError>((j, b + t.len())));
        },
        Json::Int(n) => {
            lemma_int_text(n);
            lemma_num_scan_shift(s, b, t, num_start(t), false, false);
            assert(s.subrange(b, b + t.len()) == t);
            assert(parse_value_at(s, b) == Ok::<(Json, int), ParseError>((j, b + ser(j).len())));
        },
        Json::Float(f) => {
            lemma_num_scan_shift(s, b, t, num_start(t), false, false);
            assert(parse_value_at(s, b) == Ok::<(Json, int), ParseError>((j, b + t.len())));
        },
        Json::Bool(v) => {
            assert(s.subrange(b, b + 4) =~= t.subrange(0, 4));
            if v {
                assert(t.subrange(0, 4) =~= lit_true());
            } else {
                assert(t.subrange(0, 4) =~= lit_fals());
                assert(s[b + 4] == t[4]);
                assert(lit_fals() != lit_true()) by {
                    assert(lit_fals()[1] != lit_true()[1]);
                }
            }
            assert(parse_value_at(s, b) == Ok::<(Json, int), ParseError>((j, b + ser(j).len())));
        },
        Json::Null => {
            assert(s.subrange(b, b + 4) =~= lit_null());
            assert(parse_value_at(s, b) == Ok::<(Json, int), ParseError>((j, b + t.len())));
        },
    }
}

proof fn lemma_parse_ser_object(s: Seq<char>, b: int, o: Seq<(Seq<char>, Json)>)
    requires
        wf(Json::Object(o)),
        0 <= b,
        b + ser(Json::Object(o)).len() <= s.len(),
        s.subrange(b, b + ser(Json::Object(o)).len()) == ser(Json::Object(o)),
        stops_number(s, b + ser(Json::Object(o)).len()),
    ensures
        parse_value_at(s, b) == Ok::<(Json, int), ParseError>((Json::Object(o), b + ser(Json::Object(o)).len())),
    decreases o, o.len() + 1,
{
    let j = Json::Object(o);
    let t = ser(j);
    lemma_ser_start(j);
    assert(s[b] == t[0]);
    assert(s[b] == '{');
    assert(parse_value_at(s, b) == parse_object_at(s, b));
    if o.len() == 0 {
        assert(s[b + 1] == t[1]);
        lemma_skip_one(s, b + 1);
        assert(o =~= Seq::<(Seq<char>, Json)>::empty());
        assert(t.len() == 2);
        assert(parse_object_at(s, b) == Ok::<(Json, int), ParseError>((j, b + 2)));
        assert(parse_value_at(s, b) == Ok::<(Json, int), ParseError>((j, b + ser(j).len())));
    } else {
        lemma_members_tail(o);
        let m = members_tail(o, 0);
        assert(t =~= seq!['{'] + m + seq!['}']);
        lemma_sub(s, b, t, 1, m.len() as int);
        assert(t.subrange(1, 1 + m.len() as int) =~= m);
        assert(s[b + 1 + m.len()] == t[m.len() + 1int]);
        lemma_member_start(o, 0);
        assert(s[b + 1] == m[0]);
        lemma_skip_one(s, b + 1);
        assert(wf(Json::Object(o)));
        assert(unique_keys(o));
        assert forall|i: int| 0 <= i < o.len() implies esc_ok(#[trigger] o[i].0, 0) && wf(o[i].1) by {
            assert(decreases_to!(j => j->Object_0));
            assert(decreases_to!(o => o[i]));
            assert(decreases_to!(o[i] => o[i].1));
        }
        lemma_parse_members(s, o, 0, b + 1);
        assert(o.subrange(0, 0) =~= Seq::<(Seq<char>, Json)>::empty());
        assert(s[b + 1] != '}');
        assert(parse_object_at(s, b) == parse_members_at(s, b + 1, Seq::empty()));
        assert(parse_object_at(s, b) == Ok::<(Json, int), ParseError>((j, b + t.len())));
        assert(parse_value_at(s, b) == Ok::<(Json, int), ParseError>((j, b + ser(j).len())));
    }
}

proof fn lemma_parse_ser_array(s: Seq<char>, b: int, a: Seq<Json>)
    requires
        wf(Json::Array(a)),
        0 <= b,
        b + ser(Json::Array(a)).len() <= s.len(),
        s.subrange(b, b + ser(Json::Array(a)).len()) == ser(Json::Array(a)),
        stops_number(s, b + ser(Json::Array(a)).len()),
    ensures
        parse_value_at(s, b) == Ok::<(Json, int), ParseError>((Json::Array(a), b + ser(Json::Array(a)).len())),
    decreases a, a.len() + 1,
{
    let j = Json::Array(a);
    let t = ser(j);
    lemma_ser_start(j);
    assert(s[b] == t[0]);
    if a.len() == 0 {
        assert(s[b + 1] == t[1]);
        lemma_skip_one(s, b + 1);
        assert(a =~= Seq::<Json>::empty());
        assert(parse_value_at(s, b) == Ok::<(Json, int), ParseError>((j, b + ser(j).len())));
    } else {
        lemma_items_tail(a);
        let m = items_tail(a, 0);
        assert(t =~= seq!['['] + m + seq![']']);
        lemma_sub(s, b, t, 1, m.len() as int);
        assert(t.subrange(1, 1 + m.len() as int) =~= m);
        assert(s[b + 1 + m.len()] == t[m.len() + 1int]);
        lemma_item_start(a, 0);
        assert(s[b + 1] == m[0]);
        lemma_skip_one(s, b + 1);
        lemma_parse_items(s, a, 0, b + 1);
        assert(a.subrange(0, 0) =~= Seq::<Json>::empty());
        assert(s[b] == '[');
        assert(parse_value_at(s, b) == parse_array_at(s, b));
        assert(s[b + 1] != ']');
        assert(parse_array_at(s, b) == parse_items_at(s, b + 1, Seq::empty()));
        assert(t.len() == m.len() + 2);
        assert(parse_value_at(s, b) == Ok::<(Json, int), ParseError>((j, b + ser(j).len())));
    }
}

proof fn lemma_item_start(a: Seq<Json>, k: int)
    requires
        0 <= k < a.len(),
        wf(a[k]),
    ensures
        items_tail(a, k).len() >= ser(a[k]).len() >= 1,
        items_tail(a, k).subrange(0, ser(a[k]).len() as int) == ser(a[k]),
        items_tail(a, k)[0] == ser(a[k])[0],
        !is_ws(items_tail(a, k)[0]),
        k + 1 < a.len() ==> items_tail(a, k) == ser(a[k]) + seq![',', ' '] + items_tail(a, k + 1),
        k + 1 == a.len() ==> items_tail(a, k) == ser(a[k]),
{
    lemma_ser_start(a[k]);
    assert(items_tail(a, k).subrange(0, ser(a[k]).len() as int) =~= ser(a[k]));
}

proof fn lemma_member_start(o: Seq<(Seq<char>, Json)>, k: int)
    requires
        0 <= k < o.len(),
    ensures
        members_tail(o, k).len() >= member_text(o[k]).len() >= 1,
        members_tail(o, k).subrange(0, member_text(o[k]).len() as int) == member_text(o[k]),
        members_tail(o, k)[0] == '"',
        k + 1 < o.len() ==> members_tail(o, k) == member_text(o[k]) + seq![',', ' '] + members_tail(o, k + 1),
        k + 1 == o.len() ==> members_tail(o, k) == member_text(o[k]),
{
    assert(members_tail(o, k).subrange(0, member_text(o[k]).len() as int) =~= member_text(o[k]));
}

proof fn lemma_parse_items(s: Seq<char>, a: Seq<Json>, k: int, q: int)
    requires
        forall|i: int| 0 <= i < a.len() ==> wf(#[trigger] a[i]),
        0 <= k < a.len(),
        0 <= q,
        q + items_tail(a, k).len() < s.len(),
        s.subrange(q, q + items_tail(a, k).len()) == items_tail(a, k),
        s[q + items_tail(a, k).len()] == ']',
    ensures
        parse_items_at(s, q, a.subrange(0, k)) == Ok::<(Json, int), ParseError>(
            (Json::Array(a), q + items_tail(a, k).len() + 1),
        ),
    decreases a, a.len() - k,
{
    let m = items_tail(a, k);
    let v = a[k];
    let n = ser(v).len() as int;
    lemma_item_start(a, k);
    lemma_sub(s, q, m, 0, n);
    let q1 = q + n;
    if k + 1 < a.len() {
        let rest = items_tail(a, k + 1);
        assert(m =~= ser(v) + seq![',', ' '] + rest);
        assert(s[q1] == m[n]);
        assert(s[q1 + 1] == m[n + 1]);
        lemma_item_start(a, k + 1);
        assert(s[q1 + 2] == m[n + 2]);
        lemma_sub(s, q, m, n + 2, rest.len() as int);
        assert(m.subrange(n + 2, n + 2 + rest.len()) =~= rest);
        assert(rest[0] == m[n + 2]);
        assert(decreases_to!(a => a[k]));
        lemma_parse_ser(s, q, v);
        lemma_skip_one(s, q1);
        lemma_skip_one(s, q1 + 2);
        lemma_parse_items(s, a, k + 1, q1 + 2);
        assert(a.subrange(0, k).push(v) =~= a.subrange(0, k + 1));
    } else {
        assert(s[q1] == ']');
        assert(decreases_to!(a => a[k]));
        lemma_parse_ser(s, q, v);
        lemma_skip_one(s, q1);
        assert(a.subrange(0, k).push(v) =~= a);
    }
}

/// The text of one member, standing at `q`: its key reads back, then `: `,
/// then the value's text.
proof fn lemma_member_layout(s: Seq<char>, q: int, e: (Seq<char>, Json))
    requires
        esc_ok(e.0, 0),
        wf(e.1),
        0 <= q,
        q + member_text(e).len() <= s.len(),
        s.subrange(q, q + member_text(e).len()) == member_text(e),
    ensures
        s[q] == '"',
        string_end(s, q + 1) == Some(q + 1 + e.0.len()),
        parse_str_at(s, q) == Ok::<(Json, int), ParseError>((Json::Str(e.0), q + e.0.len() + 2)),
        s[q + e.0.len() + 2] == ':',
        s[q + e.0.len() + 3] == ' ',
        !is_ws(s[q + e.0.len() + 4]),
        s.subrange(q + e.0.len() + 4, q + e.0.len() + 4 + ser(e.1).len()) == ser(e.1),
        member_text(e).len() == e.0.len() + 4 + ser(e.1).len(),
{
    let mt = member_text(e);
    let key = e.0;
    let kl = key.len() as int;
    let vn = ser(e.1).len() as int;
    assert(mt =~= seq!['"'] + key + seq!['"'] + seq![':', ' '] + ser(e.1));
    lemma_sub(s, q, mt, 1, kl);
    assert(mt.subrange(1, 1 + kl) =~= key);
    assert(mt[kl + 1] == '"');
    assert(mt[0] == '"');
    assert(mt[kl + 2] == ':');
    assert(mt[kl + 3] == ' ');
    lemma_string_scan(s, q + 1, key, 0);
    lemma_ser_start(e.1);
    lemma_sub(s, q, mt, kl + 4, vn);
    assert(mt.subrange(kl + 4, kl + 4 + vn) =~= ser(e.1));
    assert(mt[kl + 4] == ser(e.1)[0]);
    assert(s.subrange(q + 1, q + 1 + kl) =~= key);
}

#[verifier::rlimit(50)]
proof fn lemma_parse_members(s: Seq<char>, o: Seq<(Seq<char>, Json)>, k: int, q: int)
    requires
        unique_keys(o),
        forall|i: int| 0 <= i < o.len() ==> esc_ok(#[trigger] o[i].0, 0) && wf(o[i].1),
        0 <= k < o.len(),
        0 <= q,
        q + members_tail(o, k).len() < s.len(),
        s.subrange(q, q + members_tail(o, k).len()) == members_tail(o, k),
        s[q + members_tail(o, k).len()] == '}',
    ensures
        parse_members_at(s, q, o.subrange(0, k)) == Ok::<(Json, int), ParseError>(
            (Json::Object(o), q + members_tail(o, k).len() + 1),
        ),
    decreases o, o.len() - k,
{
    let m = members_tail(o, k);
    let key = o[k].0;
    let v = o[k].1;
    let mt = member_text(o[k]);
    let n = mt.len() as int;
    lemma_member_start(o, k);
    lemma_sub(s, q, m, 0, n);
    lemma_member_layout(s, q, o[k]);
    let kl = key.len() as int;
    let q1 = q + kl + 2;
    lemma_skip_one(s, q1);
    lemma_skip_one(s, q1 + 2);
    let q3 = q1 + 2;
    let acc = o.subrange(0, k);
    lemma_find_key_first(acc, key, 0);
    assert(find_key(acc, key, 0) == -1);
    assert(obj_insert(acc, key, v) =~= o.subrange(0, k + 1));
    let q4 = q + n;
    assert(decreases_to!(o => o[k]));
    assert(decreases_to!(o[k] => o[k].1));
    if k + 1 < o.len() {
        let rest = members_tail(o, k + 1);
        assert(m =~= mt + seq![',', ' '] + rest);
        assert(s[q4] == m[n]);
        assert(s[q4 + 1] == m[n + 1]);
        lemma_member_start(o, k + 1);
        lemma_sub(s, q, m, n + 2, rest.len() as int);
        assert(m.subrange(n + 2, n + 2 + rest.len()) =~= rest);
        assert(s[q4 + 2] == rest[0]);
        lemma_parse_ser(s, q3, v);
        lemma_skip_one(s, q4);
        lemma_skip_one(s, q4 + 2);
        lemma_parse_members(s, o, k + 1, q4 + 2);
    } else {
        assert(s[q4] == '}');
        lemma_parse_ser(s, q3, v);
        lemma_skip_one(s, q4);
        assert(o.subrange(0, k + 1) =~= o);
    }
}

proof fn lemma_skip_ws_ge(s: Seq<char>, p: int)
    ensures
        skip_ws(s, p) >= p,
    decreases s.len() - p,
{
    if 0 <= p < s.len() && is_ws(s[p]) {
        lemma_skip_ws_ge(s, p + 1);
    }
}

proof fn lemma_num_scan_stop(s: Seq<char>, q: int, d: bool, x: bool)
    requires
        0 <= q,
    ensures
        num_scan(s, q, d, x) matches Some((e, _, _)) ==> q <= e && stops_number(s, e) && (q <= s.len() ==> e <= s.len()),
    decreases s.len() - q,
{
    if q < s.len() {
        lemma_num_scan_stop(s, q + 1, d, x);
        lemma_num_scan_stop(s, q + 1, true, x);
        lemma_num_scan_stop(s, q + 1, d, true);
    }
}

proof fn lemma_number_wf(s: Seq<char>, p: int)
    requires
        0 <= p < s.len(),
        s[p] == '-' || is_digit(s[p]),
    ensures
        parse_number_at(s, p) matches Ok((j, _)) ==> wf(j),
{
    let q0 = if s[p] == '-' { p + 1 } else { p };
    lemma_num_scan_stop(s, q0, false, false);
    if let Some((e, d, x)) = num_scan(s, q0, false, false) {
        if s[p] != '-' {
            lemma_num_scan_stop(s, p + 1, false, false);
            assert(num_scan(s, p, false, false) == num_scan(s, p + 1, false, false));
        }
        assert(e > p);
        let t = s.subrange(p, e);
        if e <= s.len() {
            assert(t[0] == s[p]);
            assert(num_start(t) == q0 - p);
            lemma_num_scan_shift(s, p, t, q0 - p, false, false);
            assert(num_scan(t, num_start(t), false, false) == Some((t.len() as int, d, x)));
        }
    }
}

pub open spec fn entries_ok(o: Seq<(Seq<char>, Json)>) -> bool {
    unique_keys(o) && forall|i: int| 0 <= i < o.len() ==> esc_ok(#[trigger] o[i].0, 0) && wf(o[i].1)
}

proof fn lemma_wf_object(o: Seq<(Seq<char>, Json)>)
    requires
        entries_ok(o),
    ensures
        wf(Json::Object(o)),
{
    let j = Json::Object(o);
    assert forall|i: int| 0 <= i < o.len() implies esc_ok(#[trigger] o[i].0, 0) && wf(o[i].1) by {
        assert(esc_ok(o[i].0, 0));
        assert(wf(o[i].1));
        assert(decreases_to!(j => j->Object_0));
        assert(decreases_to!(o => o[i]));
        assert(decreases_to!(o[i] => o[i].1));
    }
}

proof fn lemma_wf_array(a: Seq<Json>)
    requires
        forall|i: int| 0 <= i < a.len() ==> wf(#[trigger] a[i]),
    ensures
        wf(Json::Array(a)),
{
}

proof fn lemma_obj_insert_ok(acc: Seq<(Seq<char>, Json)>, k: Seq<char>, v: Json)
    requires
        entries_ok(acc),
        esc_ok(k, 0),
        wf(v),
    ensures
        entries_ok(obj_insert(acc, k, v)),
{
    lemma_find_key_first(acc, k, 0);
    let i = find_key(acc, k, 0);
    let r = obj_insert(acc, k, v);
    if i >= 0 {
        assert forall|a: int, b: int| 0 <= a < r.len() && 0 <= b < r.len() && #[trigger] r[a].0 == #[trigger] r[b].0 implies a == b by {
            assert(r[a].0 == acc[a].0);
            assert(r[b].0 == acc[b].0);
        }
    } else {
        assert forall|a: int, b: int| 0 <= a < r.len() && 0 <= b < r.len() && #[trigger] r[a].0 == #[trigger] r[b].0 implies a == b by {
            if a < acc.len() && b < acc.len() {
                assert(r[a].0 == acc[a].0);
                assert(r[b].0 == acc[b].0);
            } else if a < acc.len() {
                assert(r[a].0 == acc[a].0);
            } else if b < acc.len() {
                assert(r[b].0 == acc[b].0);
            }
        }
    }
}

proof fn lemma_string_wf(s: Seq<char>, p: int)
    requires
        0 <= p,
    ensures
        parse_str_at(s, p) matches Ok((j, _)) ==> j is Str && esc_ok(j->Str_0, 0),
{
    if string_end(s, p + 1) is Some {
        lemma_string_parsed(s, p + 1, p + 1);
    }
}

/// What the parser gives satisfies `wf`.
proof fn lemma_value_wf(s: Seq<char>, p: int)
    requires
        0 <= p,
    ensures
        parse_value_at(s, p) matches Ok((j, _)) ==> wf(j),
    decreases s.len() - p, 1int,
{
    if p < s.len() {
        let c = s[p];
        if c == '{' {
            lemma_object_wf(s, p);
        } else if c == '[' {
            lemma_array_wf(s, p);
        } else if c == '"' {
            lemma_string_wf(s, p);
        } else if c == '-' || is_digit(c) {
            lemma_number_wf(s, p);
        }
    }
}

proof fn lemma_object_wf(s: Seq<char>, p: int)
    requires
        0 <= p,
    ensures
        parse_object_at(s, p) matches Ok((j, _)) ==> wf(j),
    decreases s.len() - p, 0int,
{
    if p < s.len() {
        let q = skip_ws(s, p + 1);
        if q > p && q < s.len() {
            if s[q] == '}' {
                lemma_wf_object(Seq::empty());
            } else {
                lemma_members_wf(s, q, Seq::empty());
            }
        }
    }
}

proof fn lemma_members_wf(s: Seq<char>, q: int, acc: Seq<(Seq<char>, Json)>)
    requires
        0 <= q,
        entries_ok(acc),
    ensures
        parse_members_at(s, q, acc) matches Ok((j, _)) ==> wf(j),
    decreases s.len() - q, 2int,
{
    if q < s.len() && s[q] == '"' {
        lemma_string_wf(s, q);
        if let Ok((key, q1)) = parse_str_at(s, q) {
            let q2 = skip_ws(s, q1);
            if q2 < s.len() && s[q2] == ':' {
                let q3 = skip_ws(s, q2 + 1);
                if q3 > q && q3 < s.len() {
                    lemma_value_wf(s, q3);
                    if let Ok((v, q4)) = parse_value_at(s, q3) {
                        lemma_obj_insert_ok(acc, key->Str_0, v);
                        let acc2 = obj_insert(acc, key->Str_0, v);
                        lemma_wf_object(acc2);
                        let q5 = skip_ws(s, q4);
                        if q4 > q && q5 < s.len() && s[q5] == ',' {
                            let q6 = skip_ws(s, q5 + 1);
                            if q6 > q && q6 < s.len() {
                                lemma_members_wf(s, q6, acc2);
                            }
                        }
                    }
                }
            }
        }
    }
}

proof fn lemma_array_wf(s: Seq<char>, p: int)
    requires
        0 <= p,
    ensures
        parse_array_at(s, p) matches Ok((j, _)) ==> wf(j),
    decreases s.len() - p, 0int,
{
    if p < s.len() {
        let q = skip_ws(s, p + 1);
        if q > p && q < s.len() {
            if s[q] == ']' {
                lemma_wf_array(Seq::empty());
            } else {
                lemma_items_wf(s, q, Seq::empty());
            }
        }
    }
}

proof fn lemma_items_wf(s: Seq<char>, q: int, acc: Seq<Json>)
    requires
        0 <= q,
        forall|i: int| 0 <= i < acc.len() ==> wf(#[trigger] acc[i]),
    ensures
        parse_items_at(s, q, acc) matches Ok((j, _)) ==> wf(j),
    decreases s.len() - q, 2int,
{
    if q < s.len() {
        lemma_value_wf(s, q);
        if let Ok((v, q1)) = parse_value_at(s, q) {
            let acc2 = acc.push(v);
            assert forall|i: int| 0 <= i < acc2.len() implies wf(#[trigger] acc2[i]) by {
                if i < acc.len() {
                    assert(acc2[i] == acc[i]);
                }
            }
            lemma_wf_array(acc2);
            let q2 = skip_ws(s, q1);
            if q1 > q && q2 < s.len() && s[q2] == ',' {
                let q3 = skip_ws(s, q2 + 1);
                if q3 > q && q3 < s.len() {
                    lemma_items_wf(s, q3, acc2);
                }
            }
        }
    }
}

/// Every document read from a text satisfies `wf`: in particular, the keys of
/// each object in it are unique.
pub proof fn lemma_parsed_wf(text: Seq<char>)
    requires
        parse_doc(text) is Ok,
    ensures
        wf(parse_doc(text)->Ok_0),
{
    if text.len() > 0 {
        lemma_skip_ws_ge(text, 0);
        lemma_value_wf(text, skip_ws(text, 0));
    }
}

/// Reading the text form of a document that was read from a text gives the
/// same document back; so its text form is the same the second time.
pub proof fn lemma_reparse(text: Seq<char>)
    requires
        parse_doc(text) is Ok,
    ensures
        parse_doc(ser(parse_doc(text)->Ok_0)) == parse_doc(text),
        ser(parse_doc(ser(parse_doc(text)->Ok_0))->Ok_0) == ser(parse_doc(text)->Ok_0),
{
    let v = parse_doc(text)->Ok_0;
    lemma_parsed_wf(text);
    let s2 = ser(v);
    lemma_ser_start(v);
    lemma_skip_one(s2, 0);
    assert(s2.subrange(0, s2.len() as int) =~= s2);
    lemma_parse_ser(s2, 0, v);
}

} // verus!
use vstd::prelude::*;
use vstd::string::StringExecFns;
use vstd::std_specs::iter::IteratorSpec;

verus! {

broadcast use vstd::string::group_string_axioms;

/// Relies on `String::push`: the character is appended at the end.
#[verifier::external_body]
pub(crate) fn push_char(s: &mut String, c: char)
    ensures
        final(s)@ == old(s)@.push(c),
{
    s.push(c);
}

/// Appends a string slice.
pub(crate) fn push_text(s: &mut String, t: &str)
    ensures
        final(s)@ == old(s)@ + t@,
{
    s.append(t);
}

/// The characters of a string slice, in order.
pub fn chars_of(s: &str) -> (r: Vec<char>)
    ensures
        r@ == s@,
{
    let mut it = s.chars();
    let mut out: Vec<char> = Vec::new();
    loop
        invariant
            it.obeys_prophetic_iter_laws(),
            it.remaining() == s@.subrange(out@.len() as int, s@.len() as int),
            out@ == s@.subrange(0, out@.len() as int),
            out@.len() <= s@.len(),
        ensures
            out@ == s@,
        decreases s@.len() - out@.len(),
    {
        match it.next() {
            Some(c) => {
                out.push(c);
            },
            None => {
                assert(out@ =~= s@);
                break;
            },
        }
    }
    out
}

/// The characters `c[from..to]` as a string.
pub fn string_from(c: &Vec<char>, from: usize, to: usize) -> (r: String)
    requires
        from <= to <= c@.len(),
    ensures
        r@ == c@.subrange(from as int, to as int),
{
    let mut out = String::new();
    let mut i: usize = from;
    while i < to
        invariant
            from <= i <= to <= c@.len(),
            out@ == c@.subrange(from as int, i as int),
        decreases to - i,
    {
        push_char(&mut out, c[i]);
        assert(out@ =~= c@.subrange(from as int, i + 1));
        i = i + 1;
    }
    out
}

/// Copies the characters `c[from..to]`.
pub fn slice_chars(c: &Vec<char>, from: usize, to: usize) -> (r: Vec<char>)
    requires
        from <= to <= c@.len(),
    ensures
        r@ == c@.subrange(from as int, to as int),
{
    let mut out: Vec<char> = Vec::new();
    let mut i: usize = from;
    while i < to
        invariant
            from <= i <= to <= c@.len(),
            out@ == c@.subrange(from as int, i as int),
        decreases to - i,
    {
        out.push(c[i]);
        assert(out@ =~= c@.subrange(from as int, i + 1));
        i = i + 1;
    }
    out
}

/// Position of the first `ch` in `c[from..]`, or -1.
pub open spec fn find_char(c: Seq<char>, ch: char, from: int) -> int
    decreases c.len() - from,
{
    if from < 0 || from >= c.len() {
        -1
    } else if c[from] == ch {
        from
    } else {
        find_char(c, ch, from + 1)
    }
}

/// Position of the last `ch` in `c[..to]`, or -1.
pub open spec fn rfind_char(c: Seq<char>, ch: char, to: int) -> int
    decreases to,
{
    if to <= 0 || to > c.len() {
        -1
    } else if c[to - 1] == ch {
        to - 1
    } else {
        rfind_char(c, ch, to - 1)
    }
}

/// Position of the first `ch` in `c[from..to]`, or `to` when there is none.
pub fn find_in(c: &Vec<char>, ch: char, from: usize, to: usize) -> (r: usize)
    requires
        from <= to <= c@.len(),
    ensures
        from <= r <= to,
        r < to ==> r as int - from == find_char(c@.subrange(from as int, to as int), ch, 0),
        r == to ==> find_char(c@.subrange(from as int, to as int), ch, 0) == -1,
{
    let ghost t = c@.subrange(from as int, to as int);
    let mut i: usize = from;
    while i < to
        invariant
            from <= i <= to <= c@.len(),
            t == c@.subrange(from as int, to as int),
            find_char(t, ch, 0) == find_char(t, ch, i - from),
        decreases to - i,
    {
        assert(t[i - from] == c@[i as int]);
        if c[i] == ch {
            return i;
        }
        i = i + 1;
    }
    i
}

/// Position of the last `ch` in `c[from..to]`, or `to` when there is none.
pub fn rfind_in(c: &Vec<char>, ch: char, from: usize, to: usize) -> (r: usize)
    requires
        from <= to <= c@.len(),
    ensures
        from <= r <= to,
        r < to ==> r as int - from == rfind_char(c@.subrange(from as int, to as int), ch, to - from),
        r == to ==> rfind_char(c@.subrange(from as int, to as int), ch, to - from) == -1,
{
    let ghost t = c@.subrange(from as int, to as int);
    let mut i: usize = to;
    while i > from
        invariant
            from <= i <= to <= c@.len(),
            t == c@.subrange(from as int, to as int),
            rfind_char(t, ch, to - from) == rfind_char(t, ch, i - from),
        decreases i,
    {
        assert(t[i - 1 - from] == c@[i - 1]);
        if c[i - 1] == ch {
            return i - 1;
        }
        i = i - 1;
    }
    to
}

/// The character of a decimal digit.
pub open spec fn digit_char(d: nat) -> char {
    ((48 + d % 10) as u8) as char
}

pub open spec fn is_digit(c: char) -> bool {
    '0' <= c && c <= '9'
}

/// Decimal text of a natural number, without leading zeros.
pub open spec fn nat_text(n: nat) -> Seq<char>
    decreases n,
{
    if n < 10 {
        seq![digit_char(n)]
    } else {
        nat_text(n / 10).push(digit_char(n % 10))
    }
}

/// Decimal text of an integer, with a leading `-` when negative.
pub open spec fn int_text(n: int) -> Seq<char> {
    if n < 0 {
        seq!['-'] + nat_text((-n) as nat)
    } else {
        nat_text(n as nat)
    }
}

/// Value of a run of decimal digits, read left to right.
pub open spec fn digits_value(d: Seq<char>) -> nat
    decreases d.len(),
{
    if d.len() == 0 {
        0
    } else {
        digits_value(d.drop_last()) * 10 + ((d.last() as u32 - 48) as nat)
    }
}

pub open spec fn all_digits(d: Seq<char>) -> bool {
    forall|i: int| 0 <= i < d.len() ==> is_digit(#[trigger] d[i])
}

/// Appends the decimal text of `n`.
pub fn push_nat(out: &mut String, n: u64)
    ensures
        final(out)@ == old(out)@ + nat_text(n as nat),
    decreases n,
{
    if n >= 10 {
        push_nat(out, n / 10);
    }
    let d: u8 = (n % 10) as u8;
    push_char(out, (48u8 + d) as char);
    assert(old(out)@ + nat_text(n as nat) =~= if n >= 10 {
        old(out)@ + nat_text((n / 10) as nat) + seq![digit_char((n % 10) as nat)]
    } else {
        old(out)@ + seq![digit_char(n as nat)]
    });
}

/// Appends the decimal text of `n`, with a leading `-` when negative.
pub fn push_int(out: &mut String, n: i64)
    ensures
        final(out)@ == old(out)@ + int_text(n as int),
{
    if n < 0 {
        push_char(out, '-');
        let m: u64 = if n == i64::MIN {
            9223372036854775808u64
        } else {
            (-n) as u64
        };
        push_nat(out, m);
        assert(final(out)@ =~= old(out)@ + int_text(n as int));
    } else {
        push_nat(out, n as u64);
    }
}

proof fn lemma_digits_prefix_le(d: Seq<char>, k: int)
    requires
        0 <= k <= d.len(),
    ensures
        digits_value(d.subrange(0, k)) <= digits_value(d),
    decreases d.len() - k,
{
    if k < d.len() {
        lemma_digits_prefix_le(d, k + 1);
        assert(d.subrange(0, k + 1).drop_last() =~= d.subrange(0, k));
    } else {
        assert(d.subrange(0, k) =~= d);
    }
}

/// Reads the digits `c[from..to]` as a decimal number: `None` when the run is
/// empty, holds a non-digit, or exceeds `u64::MAX`.
pub fn parse_decimal(c: &Vec<char>, from: usize, to: usize) -> (r: Option<u64>)
    requires
        from <= to <= c@.len(),
    ensures
        ({
            let d = c@.subrange(from as int, to as int);
            match r {
                Some(v) => d.len() > 0 && all_digits(d) && v as nat == digits_value(d),
                None => d.len() == 0 || !all_digits(d) || digits_value(d) > u64::MAX,
            }
        }),
{
    if from == to {
        return None;
    }
    let ghost d = c@.subrange(from as int, to as int);
    let mut acc: u64 = 0;
    let mut i: usize = from;
    while i < to
        invariant
            from <= i <= to <= c@.len(),
            d == c@.subrange(from as int, to as int),
            all_digits(c@.subrange(from as int, i as int)),
            acc as nat == digits_value(c@.subrange(from as int, i as int)),
        decreases to - i,
    {
        let ch = c[i];
        if !('0' <= ch && ch <= '9') {
            assert(!is_digit(d[i - from]));
            return None;
        }
        let dv: u64 = (ch as u32 - 48) as u64;
        assert(c@.subrange(from as int, i + 1).drop_last() =~= c@.subrange(from as int, i as int));
        let next = match acc.checked_mul(10) {
            Some(m) => m.checked_add(dv),
            None => None,
        };
        match next {
            Some(v) => {
                acc = v;
            },
            None => {
                proof {
                    if all_digits(d) {
                        lemma_digits_prefix_le(d, i + 1 - from);
                        assert(d.subrange(0, i + 1 - from) =~= c@.subrange(from as int, i + 1));
                    }
                }
                return None;
            },
        }
        i = i + 1;
    }
    assert(c@.subrange(from as int, i as int) =~= d);
    Some(acc)
}

} // verus!

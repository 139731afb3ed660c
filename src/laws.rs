use vstd::prelude::*;
use vstd::utf8::valid_utf8;
use crate::frame::{Opcode, WireFrame, apply_mask, be_bytes, be_value, p256, parse_wire};
use crate::json::{Json, ser};
use crate::parser::{find_key, lemma_find_key_first, lemma_insert_unique, obj_insert, parse_doc, unique_keys};
use crate::path::{child, child_at, first_segment, get_path, rest_segments, set_path, with_child};
use crate::response::frame_bytes;
use crate::store::{
    Entries, after_char, before_char, del_result, dump_result, get_result, load_result, lookup, merge, run_command,
    set_result,
};
use crate::text::find_char;

verus! {

proof fn lemma_find_key_same_keys(o: Entries, o2: Entries, k: Seq<char>, s: int)
    requires
        o.len() == o2.len(),
        forall|m: int| 0 <= m < o.len() ==> #[trigger] o[m].0 == o2[m].0,
        0 <= s,
    ensures
        find_key(o, k, s) == find_key(o2, k, s),
    decreases o.len() - s,
{
    if s < o.len() {
        lemma_find_key_same_keys(o, o2, k, s + 1);
    }
}

/// Reading a path after writing a value there gives that value: wherever
/// `set_path(j, p, v)` succeeds, `get_path` on its result and `p` is `v`.
pub proof fn lemma_get_after_set(j: Json, p: Seq<char>, v: Json)
    requires
        set_path(j, p, v) is Ok,
    ensures
        get_path(set_path(j, p, v)->Ok_0, p) == Ok::<Json, Seq<char>>(v),
    decreases p.len(),
{
    if p.len() > 0 {
        let k = first_segment(p);
        let rest = rest_segments(p);
        let i = child_at(j, k)->Ok_0;
        let c2 = set_path(child(j, i), rest, v)->Ok_0;
        lemma_get_after_set(child(j, i), rest, v);
        let j2 = with_child(j, i, c2);
        assert(set_path(j, p, v)->Ok_0 == j2);
        match j {
            Json::Object(o) => {
                lemma_find_key_first(o, k, 0);
                let o2 = o.update(i, (o[i].0, c2));
                lemma_find_key_same_keys(o, o2, k, 0);
                assert(child_at(j2, k) == Ok::<int, Seq<char>>(i));
                assert(child(j2, i) == c2);
            },
            Json::Array(a) => {
                assert(child_at(j2, k) == Ok::<int, Seq<char>>(i));
                assert(child(j2, i) == c2);
            },
            _ => {},
        }
    }
}

/// After `DEL k` on a top-level key that occurs once, `GET k` replies
/// `Key not found`.
pub proof fn lemma_get_after_del(st: Entries, k: Seq<char>)
    requires
        find_char(k, '.', 0) == -1,
        forall|a: int, b: int| 0 <= a < st.len() && 0 <= b < st.len() && #[trigger] st[a].0 == k && #[trigger] st[b].0 == k ==> a == b,
    ensures
        get_result(del_result(st, k).0, k) == "Key not found"@,
{
    assert(before_char(k, '.') == k);
    assert(after_char(k, '.') is None);
    let st2 = del_result(st, k).0;
    lemma_find_key_first(st, k, 0);
    lemma_find_key_first(st2, k, 0);
    let i = find_key(st, k, 0);
    if i >= 0 {
        assert forall|m: int| 0 <= m < st2.len() implies #[trigger] st2[m].0 != k by {
            if m < i {
                assert(st2[m] == st[m]);
            } else {
                assert(st2[m] == st[m + 1]);
            }
        }
    }
}

/// After `SET k text` on a top-level key, with a text that parses, the key
/// holds the parsed value, every other key holds what it held, and `DUMP`
/// gives the text form of the new entries as one object.
pub proof fn lemma_set_overwrites(st: Entries, k: Seq<char>, text: Seq<char>)
    requires
        find_char(k, ' ', 0) == -1,
        find_char(k, '.', 0) == -1,
        parse_doc(text) is Ok,
    ensures
        ({
            let st2 = set_result(st, k + seq![' '] + text).0;
            &&& lookup(st2, k) == Some(parse_doc(text)->Ok_0)
            &&& forall|k2: Seq<char>| k2 != k ==> #[trigger] lookup(st2, k2) == lookup(st, k2)
            &&& dump_result(st2) == ser(Json::Object(st2))
        }),
{
    let args = k + seq![' '] + text;
    lemma_find_char_prefix(k, seq![' '] + text, ' ', 0);
    assert(args =~= k + (seq![' '] + text));
    assert(find_char(args, ' ', 0) == k.len());
    assert(before_char(args, ' ') =~= k);
    assert(after_char(args, ' ') == Some(args.subrange(k.len() + 1int, args.len() as int)));
    assert(args.subrange(k.len() + 1int, args.len() as int) =~= text);
    assert(after_char(k, '.') is None);
    let v = parse_doc(text)->Ok_0;
    let st2 = obj_insert(st, k, v);
    assert(set_result(st, args).0 == st2);
    lemma_find_key_first(st, k, 0);
    let i = find_key(st, k, 0);
    if i >= 0 {
        lemma_find_key_same_keys(st, st2, k, 0);
        assert forall|k2: Seq<char>| k2 != k implies #[trigger] lookup(st2, k2) == lookup(st, k2) by {
            lemma_find_key_same_keys(st, st2, k2, 0);
            lemma_find_key_first(st, k2, 0);
        }
    } else {
        lemma_find_key_first(st2, k, 0);
        assert(st2[st.len() as int].0 == k);
        lemma_find_key_first_push(st, k, v, 0);
        assert forall|k2: Seq<char>| k2 != k implies #[trigger] lookup(st2, k2) == lookup(st, k2) by {
            lemma_find_key_push_other(st, k, v, k2, 0);
            lemma_find_key_first(st, k2, 0);
        }
    }
}

proof fn lemma_find_char_prefix(a: Seq<char>, b: Seq<char>, ch: char, s: int)
    requires
        0 <= s <= a.len(),
        find_char(a, ch, s) == -1,
        b.len() > 0,
        b[0] == ch,
    ensures
        find_char(a + b, ch, s) == a.len(),
    decreases a.len() - s,
{
    if s < a.len() {
        lemma_find_char_prefix(a, b, ch, s + 1);
    }
}

proof fn lemma_find_key_first_push(o: Entries, k: Seq<char>, v: Json, s: int)
    requires
        0 <= s <= o.len(),
        find_key(o, k, s) == -1,
    ensures
        find_key(o.push((k, v)), k, s) == o.len(),
    decreases o.len() - s,
{
    if s < o.len() {
        lemma_find_key_first_push(o, k, v, s + 1);
    }
}

proof fn lemma_find_key_push_other(o: Entries, k: Seq<char>, v: Json, k2: Seq<char>, s: int)
    requires
        0 <= s <= o.len(),
        k2 != k,
    ensures
        find_key(o.push((k, v)), k2, s) == find_key(o, k2, s),
    decreases o.len() - s,
{
    if s < o.len() {
        lemma_find_key_push_other(o, k, v, k2, s + 1);
    } else {
        let o2 = o.push((k, v));
        assert(o2[s] == (k, v));
        assert(find_key(o2, k2, s + 1) == -1);
    }
}

proof fn lemma_be_round_trip(n: nat, k: nat)
    requires
        n < p256(k),
    ensures
        be_value(be_bytes(n, k)) == n,
        be_bytes(n, k).len() == k,
    decreases k,
{
    if k > 0 {
        assert(n / 256 < p256((k - 1) as nat)) by (nonlinear_arith)
            requires
                n < p256(k),
                p256(k) == 256 * p256((k - 1) as nat),
        ;
        lemma_be_round_trip(n / 256, (k - 1) as nat);
        let s = be_bytes(n / 256, (k - 1) as nat);
        assert(be_bytes(n, k).drop_last() =~= s);
    } else {
        assert(n == 0);
    }
}

/// A frame built with a mask reads back as it was built: the kind, the
/// length, the mask, and the payload, unmasked again. Lengths from 126 to
/// 65535 take the 16-bit extended form.
pub proof fn lemma_frame_round_trip(op: Opcode, payload: Seq<u8>, m: Seq<u8>)
    requires
        m.len() == 4,
        payload.len() < 0x1_0000_0000_0000_0000,
        op == Opcode::Text ==> valid_utf8(payload),
    ensures
        parse_wire(frame_bytes(0x80u8 | op.code(), payload.len(), Some(m), payload)) == Ok::<WireFrame, crate::errors::SocketError>(
            WireFrame { flags: 0x80, opcode: op, length: payload.len(), mask: Some(m), payload },
        ),
        126 <= payload.len() <= 65535 ==> frame_bytes(0x80u8 | op.code(), payload.len(), Some(m), payload)[1] & 0x7f == 126,
{
    let n = payload.len();
    let code = op.code();
    let first: u8 = 0x80u8 | code;
    let d = frame_bytes(first, n, Some(m), payload);
    assert(code <= 10);
    assert(first & 0x0f == code && first & 0xf0 == 0x80) by (bit_vector)
        requires
            first == 0x80u8 | code,
            code <= 10,
    ;
    assert(Opcode::of_code(code) == Some(op));
    let masked = apply_mask(payload, m);
    assert(apply_mask(masked, m) =~= payload) by {
        assert forall|i: int| 0 <= i < n implies #[trigger] apply_mask(masked, m)[i] == payload[i] by {
            let x = payload[i];
            let y = m[i % 4];
            assert((x ^ y) ^ y == x) by (bit_vector);
        }
    }
    reveal_with_fuel(p256, 9);
    if n <= 125 {
        let b1: u8 = (n as u8) | 0x80u8;
        let l: u8 = n as u8;
        assert(b1 & 0x7f == l && b1 & 0x80 != 0) by (bit_vector)
            requires
                b1 == l | 0x80u8,
                l <= 125,
        ;
        assert(d =~= seq![first, b1] + m + masked);
        assert(d.subrange(2, 6) =~= m);
        assert(d.subrange(6, d.len() as int) =~= masked);
    } else if n <= 65535 {
        let b1: u8 = 126u8 | 0x80u8;
        assert(b1 & 0x7f == 126 && b1 & 0x80 != 0) by (bit_vector)
            requires
                b1 == 126u8 | 0x80u8,
        ;
        lemma_be_round_trip(n, 2);
        assert(d =~= seq![first, b1] + be_bytes(n, 2) + m + masked);
        assert(d.subrange(2, 4) =~= be_bytes(n, 2));
        assert(d.subrange(4, 8) =~= m);
        assert(d.subrange(8, d.len() as int) =~= masked);
    } else {
        let b1: u8 = 127u8 | 0x80u8;
        assert(b1 & 0x7f == 127 && b1 & 0x80 != 0) by (bit_vector)
            requires
                b1 == 127u8 | 0x80u8,
        ;
        lemma_be_round_trip(n, 8);
        assert(d =~= seq![first, b1] + be_bytes(n, 8) + m + masked);
        assert(d.subrange(2, 10) =~= be_bytes(n, 8));
        assert(d.subrange(10, 14) =~= m);
        assert(d.subrange(14, d.len() as int) =~= masked);
    }
}

proof fn lemma_same_keys_unique(o: Entries, o2: Entries)
    requires
        unique_keys(o),
        o.len() == o2.len(),
        forall|m: int| 0 <= m < o.len() ==> #[trigger] o[m].0 == o2[m].0,
    ensures
        unique_keys(o2),
{
    assert forall|a: int, b: int| 0 <= a < o2.len() && 0 <= b < o2.len() && #[trigger] o2[a].0 == #[trigger] o2[b].0 implies a == b by {
        assert(o[a].0 == o2[a].0);
        assert(o[b].0 == o2[b].0);
    }
}

proof fn lemma_remove_unique(o: Entries, i: int)
    requires
        unique_keys(o),
        0 <= i < o.len(),
    ensures
        unique_keys(o.remove(i)),
{
    let r = o.remove(i);
    assert forall|a: int, b: int| 0 <= a < r.len() && 0 <= b < r.len() && #[trigger] r[a].0 == #[trigger] r[b].0 implies a == b by {
        let a2 = if a < i { a } else { a + 1 };
        let b2 = if b < i { b } else { b + 1 };
        assert(r[a] == o[a2]);
        assert(r[b] == o[b2]);
    }
}

proof fn lemma_merge_unique(st: Entries, o: Entries)
    requires
        unique_keys(st),
    ensures
        unique_keys(merge(st, o)),
    decreases o.len(),
{
    if o.len() > 0 {
        lemma_insert_unique(st, o[0].0, o[0].1);
        lemma_merge_unique(obj_insert(st, o[0].0, o[0].1), o.drop_first());
    }
}

/// The entries after `SET ks[i] ts[i]` for each `i < n` in turn, from `st`.
pub open spec fn after_sets(st: Entries, ks: Seq<Seq<char>>, ts: Seq<Seq<char>>, n: nat) -> Entries
    decreases n,
{
    if n == 0 {
        st
    } else {
        set_result(after_sets(st, ks, ts, (n - 1) as nat), ks[n - 1] + seq![' '] + ts[n - 1]).0
    }
}

/// The value that the last of the first `n` of those `SET`s gave to `k`, if any.
pub open spec fn last_set(ks: Seq<Seq<char>>, ts: Seq<Seq<char>>, k: Seq<char>, n: nat) -> Option<Json>
    decreases n,
{
    if n == 0 {
        None
    } else if ks[n - 1] == k {
        Some(parse_doc(ts[n - 1])->Ok_0)
    } else {
        last_set(ks, ts, k, (n - 1) as nat)
    }
}

/// `DUMP` after a run of `SET`s on top-level keys, from an empty store, gives
/// an object that binds exactly the keys that were set, each once, to the
/// value of the last `SET` on it.
pub proof fn lemma_dump_after_sets(ks: Seq<Seq<char>>, ts: Seq<Seq<char>>, n: nat)
    requires
        n <= ks.len(),
        ks.len() == ts.len(),
        forall|i: int| 0 <= i < n ==> find_char(#[trigger] ks[i], ' ', 0) == -1 && find_char(ks[i], '.', 0) == -1,
        forall|i: int| 0 <= i < n ==> parse_doc(#[trigger] ts[i]) is Ok,
    ensures
        ({
            let st = after_sets(Seq::empty(), ks, ts, n);
            &&& forall|k: Seq<char>| #[trigger] lookup(st, k) == last_set(ks, ts, k, n)
            &&& unique_keys(st)
            &&& dump_result(st) == ser(Json::Object(st))
        }),
    decreases n,
{
    let st = after_sets(Seq::empty(), ks, ts, n);
    if n == 0 {
        assert forall|k: Seq<char>| #[trigger] lookup(st, k) == last_set(ks, ts, k, n) by {
            assert(find_key(st, k, 0) == -1);
        }
    } else {
        let m = (n - 1) as nat;
        lemma_dump_after_sets(ks, ts, m);
        let prev = after_sets(Seq::empty(), ks, ts, m);
        let k = ks[m as int];
        lemma_set_overwrites(prev, k, ts[m as int]);
        lemma_set_keeps_unique(prev, k + seq![' '] + ts[m as int]);
        assert forall|k2: Seq<char>| #[trigger] lookup(st, k2) == last_set(ks, ts, k2, n) by {
            if k2 != k {
                assert(lookup(st, k2) == lookup(prev, k2));
            }
        }
    }
}

/// `SET` keeps the keys of the store unique.
pub proof fn lemma_set_keeps_unique(st: Entries, args: Seq<char>)
    requires
        unique_keys(st),
    ensures
        unique_keys(set_result(st, args).0),
{
    if let Some(text) = after_char(args, ' ') {
        let target = before_char(args, ' ');
        if let Ok(v) = parse_doc(text) {
            lemma_insert_unique(st, target, v);
            let i = find_key(st, before_char(target, '.'), 0);
            if 0 <= i < st.len() {
                if let Ok(c) = crate::path::set_path(st[i].1, after_char(target, '.')->Some_0, v) {
                    lemma_same_keys_unique(st, st.update(i, (st[i].0, c)));
                }
            }
        }
    }
}

/// `DEL` keeps the keys of the store unique.
pub proof fn lemma_del_keeps_unique(st: Entries, args: Seq<char>)
    requires
        unique_keys(st),
    ensures
        unique_keys(del_result(st, args).0),
{
    let key = before_char(args, '.');
    lemma_find_key_first(st, key, 0);
    let i = find_key(st, key, 0);
    if 0 <= i < st.len() {
        lemma_remove_unique(st, i);
        if let Some(path) = after_char(args, '.') {
            if let Ok(c) = crate::path::remove_path(st[i].1, path) {
                lemma_same_keys_unique(st, st.update(i, (st[i].0, c)));
            }
        }
    }
}

/// `LOAD` keeps the keys of the store unique.
pub proof fn lemma_load_keeps_unique(st: Entries, args: Seq<char>)
    requires
        unique_keys(st),
    ensures
        unique_keys(load_result(st, args).0),
{
    if let Ok(Json::Object(o)) = parse_doc(args) {
        lemma_merge_unique(st, o);
    }
}

/// Every command keeps the keys of the store unique.
pub proof fn lemma_commands_keep_keys_unique(st: Entries, msg: Seq<char>)
    requires
        unique_keys(st),
    ensures
        unique_keys(run_command(st, msg).0),
{
    let args = match after_char(msg, ' ') {
        Some(a) => a,
        None => Seq::empty(),
    };
    lemma_set_keeps_unique(st, args);
    lemma_del_keeps_unique(st, args);
    lemma_load_keeps_unique(st, args);
}

} // verus!

use vstd::prelude::*;
use vstd::string::StringExecFns;
use crate::json::{Json, Value, entries_view, lemma_entries_view, ser};
use crate::parser::{
    ParseError, deserialize_chars, find_key, insert_entry, obj_insert, parse_doc, parse_error_text, unique_keys,
};
use crate::path::{PathEdit, find_entry, get_path, remove_path, set_path};
use crate::laws::{
    lemma_commands_keep_keys_unique, lemma_del_keeps_unique, lemma_load_keeps_unique, lemma_set_keeps_unique,
};
use crate::text::{chars_of, find_char, find_in, push_char, push_text, slice_chars, string_from};

verus! {

/// The part of `t` before the first `ch` (all of `t` when it has none).
pub open spec fn before_char(t: Seq<char>, ch: char) -> Seq<char> {
    let d = find_char(t, ch, 0);
    if d < 0 || d >= t.len() {
        t
    } else {
        t.subrange(0, d)
    }
}

/// The part of `t` after the first `ch`, if it has one.
pub open spec fn after_char(t: Seq<char>, ch: char) -> Option<Seq<char>> {
    let d = find_char(t, ch, 0);
    if d < 0 || d >= t.len() {
        None
    } else {
        Some(t.subrange(d + 1, t.len() as int))
    }
}

pub type Entries = Seq<(Seq<char>, Json)>;

/// The value bound to `k`, if any.
pub open spec fn lookup(st: Entries, k: Seq<char>) -> Option<Json> {
    let i = find_key(st, k, 0);
    if i < 0 || i >= st.len() {
        None
    } else {
        Some(st[i].1)
    }
}

/// The entries without the entry of `k`.
pub open spec fn remove_key(st: Entries, k: Seq<char>) -> Entries {
    let i = find_key(st, k, 0);
    if i < 0 || i >= st.len() {
        st
    } else {
        st.remove(i)
    }
}

/// The entries after binding each entry of `o`, in order.
pub open spec fn merge(st: Entries, o: Entries) -> Entries
    decreases o.len(),
{
    if o.len() == 0 {
        st
    } else {
        merge(obj_insert(st, o[0].0, o[0].1), o.drop_first())
    }
}

pub open spec fn invalid_value_msg(e: ParseError) -> Seq<char> {
    "Invalid value: "@ + seq!['"'] + parse_error_text(e) + seq!['"']
}

/// `SET key value` / `SET key.path value`: the new entries and the reply.
pub open spec fn set_result(st: Entries, args: Seq<char>) -> (Entries, Seq<char>) {
    match after_char(args, ' ') {
        None => (st, "Invalid arguments"@),
        Some(text) => {
            let target = before_char(args, ' ');
            match parse_doc(text) {
                Err(e) => (st, invalid_value_msg(e)),
                Ok(v) => match after_char(target, '.') {
                    None => (obj_insert(st, target, v), "OK"@),
                    Some(path) => {
                        let i = find_key(st, before_char(target, '.'), 0);
                        if i < 0 || i >= st.len() {
                            (st, "Key not found"@)
                        } else {
                            match set_path(st[i].1, path, v) {
                                Ok(c) => (st.update(i, (st[i].0, c)), "OK"@),
                                Err(m) => (st, m),
                            }
                        }
                    },
                },
            }
        },
    }
}

/// `GET key` / `GET key.path`: the reply.
pub open spec fn get_result(st: Entries, args: Seq<char>) -> Seq<char> {
    match lookup(st, before_char(args, '.')) {
        None => "Key not found"@,
        Some(v) => match after_char(args, '.') {
            None => ser(v),
            Some(path) => match get_path(v, path) {
                Ok(x) => ser(x),
                Err(m) => m,
            },
        },
    }
}

/// `DEL key` / `DEL key.path`: the new entries and the reply.
pub open spec fn del_result(st: Entries, args: Seq<char>) -> (Entries, Seq<char>) {
    let key = before_char(args, '.');
    match after_char(args, '.') {
        None => (remove_key(st, key), "OK"@),
        Some(path) => {
            let i = find_key(st, key, 0);
            if i < 0 || i >= st.len() {
                (st, "Key not found"@)
            } else {
                match remove_path(st[i].1, path) {
                    Ok(c) => (st.update(i, (st[i].0, c)), "OK"@),
                    Err(m) => (st, m),
                }
            }
        },
    }
}

/// `DUMP`: the whole store as one object.
pub open spec fn dump_result(st: Entries) -> Seq<char> {
    ser(Json::Object(st))
}

/// `LOAD object`: the new entries and the reply.
pub open spec fn load_result(st: Entries, args: Seq<char>) -> (Entries, Seq<char>) {
    match parse_doc(args) {
        Err(e) => (st, invalid_value_msg(e)),
        Ok(Json::Object(o)) => (merge(st, o), "OK"@),
        Ok(_) => (st, "Invalid type"@),
    }
}

pub open spec fn lower_char(c: char) -> char {
    if 'A' <= c && c <= 'Z' {
        ((c as u32 + 32) as u8) as char
    } else {
        c
    }
}

/// `t` and `w` are equal but for the case of ASCII letters in `t`; `w` is in
/// lower case.
pub open spec fn is_word(t: Seq<char>, w: Seq<char>) -> bool {
    t.len() == w.len() && forall|i: int| 0 <= i < t.len() ==> lower_char(#[trigger] t[i]) == w[i]
}

/// A text command run on the store: the new entries and the reply. The
/// command word is matched without regard to ASCII case.
pub open spec fn run_command(st: Entries, msg: Seq<char>) -> (Entries, Seq<char>) {
    let word = before_char(msg, ' ');
    let args = match after_char(msg, ' ') {
        Some(a) => a,
        None => Seq::empty(),
    };
    if is_word(word, "set"@) {
        set_result(st, args)
    } else if is_word(word, "get"@) {
        (st, get_result(st, args))
    } else if is_word(word, "del"@) {
        del_result(st, args)
    } else if is_word(word, "dump"@) {
        (st, dump_result(st))
    } else if is_word(word, "load"@) {
        load_result(st, args)
    } else if is_word(word, "ping"@) {
        (st, "PONG"@)
    } else {
        (st, "Unknown command"@)
    }
}

/// Entries of the store, with the operations of the commands.
struct Table {
    entries: Vec<(String, Value)>,
}

impl View for Table {
    type V = Entries;

    closed spec fn view(&self) -> Entries {
        entries_view(self.entries, self.entries@.len() as int)
    }
}

fn invalid_value(e: ParseError) -> (r: String)
    ensures
        r@ == invalid_value_msg(e),
{
    let mut m = String::new();
    push_text(&mut m, "Invalid value: ");
    push_char(&mut m, '"');
    push_text(&mut m, e.as_str());
    push_char(&mut m, '"');
    assert(m@ =~= invalid_value_msg(e));
    m
}

fn lower(c: char) -> (r: char)
    ensures
        r == lower_char(c),
{
    if 'A' <= c && c <= 'Z' {
        ((c as u32 + 32) as u8) as char
    } else {
        c
    }
}

/// Whether `c[0..n]` is the word `w` (lower case) in any ASCII case.
pub(crate) fn word_is(c: &Vec<char>, n: usize, w: &str) -> (r: bool)
    requires
        n <= c@.len(),
    ensures
        r == is_word(c@.subrange(0, n as int), w@),
{
    let wc = chars_of(w);
    let ghost t = c@.subrange(0, n as int);
    if wc.len() != n {
        return false;
    }
    let mut i: usize = 0;
    while i < n
        invariant
            i <= n <= c@.len(),
            wc@ == w@,
            wc@.len() == n,
            t == c@.subrange(0, n as int),
            forall|j: int| 0 <= j < i ==> lower_char(#[trigger] t[j]) == wc@[j],
        decreases n - i,
    {
        assert(t[i as int] == c@[i as int]);
        if lower(c[i]) != wc[i] {
            return false;
        }
        i = i + 1;
    }
    true
}

impl Table {
    /// An empty store.
    fn new() -> (r: Table)
        ensures
            r@ == Seq::<(Seq<char>, Json)>::empty(),
    {
        let r = Table { entries: Vec::new() };
        proof {
            lemma_entries_view(r.entries, 0);
        }
        assert(r@ =~= Seq::<(Seq<char>, Json)>::empty());
        r
    }

    /// The value bound to a top-level key.
    fn get(&self, key: &String) -> (r: Option<&Value>)
        ensures
            match lookup(self@, key@) {
                Some(j) => r is Some && r->Some_0@ == j,
                None => r is None,
            },
    {
        proof {
            lemma_entries_view(self.entries, self.entries@.len() as int);
        }
        match find_entry(&self.entries, key) {
            Some(i) => Some(&self.entries[i].1),
            None => None,
        }
    }

    /// Runs `SET` on its arguments and gives the reply.
    fn set_text(&mut self, args: &Vec<char>) -> (r: String)
        ensures
            (final(self)@, r@) == set_result(old(self)@, args@),
    {
        let n = args.len();
        let sp = find_in(args, ' ', 0, n);
        assert(args@.subrange(0, n as int) =~= args@);
        if sp == n {
            return String::from_str("Invalid arguments");
        }
        let text = slice_chars(args, sp + 1, n);
        let ghost target = args@.subrange(0, sp as int);
        match deserialize_chars(&text) {
            Err(e) => invalid_value(e),
            Ok(v) => {
                let dot = find_in(args, '.', 0, sp);
                assert(args@.subrange(0, sp as int).subrange(0, dot as int) =~= args@.subrange(0, dot as int));
                if dot == sp {
                    let key = string_from(args, 0, sp);
                    insert_entry(&mut self.entries, key, v);
                    String::from_str("OK")
                } else {
                    let key = string_from(args, 0, dot);
                    assert(target.subrange(dot + 1, target.len() as int) =~= args@.subrange(dot + 1, sp as int));
                    proof {
                        lemma_entries_view(self.entries, self.entries@.len() as int);
                    }
                    match find_entry(&self.entries, &key) {
                        None => String::from_str("Key not found"),
                        Some(i) => {
                            let ghost before = self.entries;
                            let r = self.entries[i].1.edit_at(args, dot + 1, sp, PathEdit::Put(v));
                            proof {
                                lemma_entries_view(self.entries, self.entries@.len() as int);
                                assert(self.entries@[i as int].0 == before@[i as int].0);
                                if r is Err {
                                    assert(self@ =~= entries_view(before, before@.len() as int));
                                } else {
                                    assert(self@ =~= entries_view(before, before@.len() as int).update(
                                        i as int,
                                        (before@[i as int].0@, self.entries@[i as int].1@),
                                    ));
                                }
                            }
                            match r {
                                Ok(()) => String::from_str("OK"),
                                Err(m) => m,
                            }
                        },
                    }
                }
            },
        }
    }

    /// Runs `GET` on its arguments and gives the reply.
    fn get_text(&self, args: &Vec<char>) -> (r: String)
        ensures
            r@ == get_result(self@, args@),
    {
        let n = args.len();
        let dot = find_in(args, '.', 0, n);
        assert(args@.subrange(0, n as int) =~= args@);
        let key = string_from(args, 0, dot);
        proof {
            lemma_entries_view(self.entries, self.entries@.len() as int);
        }
        match find_entry(&self.entries, &key) {
            None => String::from_str("Key not found"),
            Some(i) => {
                if dot == n {
                    self.entries[i].1.serialize()
                } else {
                    match self.entries[i].1.get_at(args, dot + 1, n) {
                        Ok(x) => x.serialize(),
                        Err(m) => m,
                    }
                }
            },
        }
    }

    /// Runs `DEL` on its arguments and gives the reply.
    fn del_text(&mut self, args: &Vec<char>) -> (r: String)
        ensures
            (final(self)@, r@) == del_result(old(self)@, args@),
    {
        let n = args.len();
        let dot = find_in(args, '.', 0, n);
        assert(args@.subrange(0, n as int) =~= args@);
        let key = string_from(args, 0, dot);
        proof {
            lemma_entries_view(self.entries, self.entries@.len() as int);
        }
        let ghost before = self.entries;
        match find_entry(&self.entries, &key) {
            None => {
                if dot == n {
                    String::from_str("OK")
                } else {
                    String::from_str("Key not found")
                }
            },
            Some(i) => {
                if dot == n {
                    self.entries.remove(i);
                    proof {
                        lemma_entries_view(self.entries, self.entries@.len() as int);
                        assert(self@ =~= entries_view(before, before@.len() as int).remove(i as int));
                    }
                    String::from_str("OK")
                } else {
                    let r = self.entries[i].1.remove_at(args, dot + 1, n);
                    proof {
                        lemma_entries_view(self.entries, self.entries@.len() as int);
                        assert(self.entries@[i as int].0 == before@[i as int].0);
                        if r is Err {
                            assert(self@ =~= entries_view(before, before@.len() as int));
                        } else {
                            assert(self@ =~= entries_view(before, before@.len() as int).update(
                                i as int,
                                (before@[i as int].0@, self.entries@[i as int].1@),
                            ));
                        }
                    }
                    match r {
                        Ok(()) => String::from_str("OK"),
                        Err(m) => m,
                    }
                }
            },
        }
    }

    /// Runs `DUMP` and gives the reply.
    fn dump_text(&self) -> (r: String)
        ensures
            r@ == dump_result(self@),
    {
        let mut out = String::new();
        crate::json::write_entries(&self.entries, &mut out);
        assert(out@ =~= dump_result(self@));
        out
    }

    /// Runs `LOAD` on its arguments and gives the reply.
    fn load_text(&mut self, args: &Vec<char>) -> (r: String)
        ensures
            (final(self)@, r@) == load_result(old(self)@, args@),
    {
        match deserialize_chars(args) {
            Err(e) => invalid_value(e),
            Ok(Value::Object(o)) => {
                let mut o = o;
                let ghost all = entries_view(o, o@.len() as int);
                let ghost st0 = self@;
                while o.len() > 0
                    invariant
                        merge(st0, all) == merge(self@, entries_view(o, o@.len() as int)),
                    decreases o@.len(),
                {
                    let ghost prev = o;
                    let (k, v) = o.remove(0);
                    proof {
                        lemma_entries_view(prev, prev@.len() as int);
                        lemma_entries_view(o, o@.len() as int);
                        assert(entries_view(o, o@.len() as int) =~= entries_view(prev, prev@.len() as int).drop_first());
                    }
                    insert_entry(&mut self.entries, k, v);
                }
                proof {
                    lemma_entries_view(o, o@.len() as int);
                }
                String::from_str("OK")
            },
            Ok(_) => String::from_str("Invalid type"),
        }
    }

    /// Runs one text command on the store and gives the reply.
    fn handle(&mut self, msg: &str) -> (r: String)
        ensures
            (final(self)@, r@) == run_command(old(self)@, msg@),
    {
        let mc = chars_of(msg);
        let n = mc.len();
        let sp = find_in(&mc, ' ', 0, n);
        assert(mc@.subrange(0, n as int) =~= msg@);
        let args = if sp < n {
            slice_chars(&mc, sp + 1, n)
        } else {
            Vec::new()
        };
        assert(args@ =~= match after_char(msg@, ' ') {
            Some(a) => a,
            None => Seq::empty(),
        });
        if word_is(&mc, sp, "set") {
            self.set_text(&args)
        } else if word_is(&mc, sp, "get") {
            self.get_text(&args)
        } else if word_is(&mc, sp, "del") {
            self.del_text(&args)
        } else if word_is(&mc, sp, "dump") {
            self.dump_text()
        } else if word_is(&mc, sp, "load") {
            self.load_text(&args)
        } else if word_is(&mc, sp, "ping") {
            String::from_str("PONG")
        } else {
            String::from_str("Unknown command")
        }
    }
}

/// The document store: top-level keys bound to values, each key once.
pub struct Store {
    table: Table,
}

impl View for Store {
    type V = Entries;

    closed spec fn view(&self) -> Entries {
        self.table@
    }
}

impl Store {
    #[verifier::type_invariant]
    spec fn keys_unique(self) -> bool {
        unique_keys(self.table@)
    }

    /// An empty store.
    pub fn new() -> (r: Store)
        ensures
            r@ == Seq::<(Seq<char>, Json)>::empty(),
            unique_keys(r@),
    {
        Store { table: Table::new() }
    }

    /// The value bound to a top-level key.
    pub fn get(&self, key: &String) -> (r: Option<&Value>)
        ensures
            match lookup(self@, key@) {
                Some(j) => r is Some && r->Some_0@ == j,
                None => r is None,
            },
            unique_keys(self@),
    {
        proof {
            use_type_invariant(self);
        }
        self.table.get(key)
    }

    /// Runs `SET` on its arguments and gives the reply.
    pub fn set_text(&mut self, args: &Vec<char>) -> (r: String)
        ensures
            (final(self)@, r@) == set_result(old(self)@, args@),
            unique_keys(old(self)@),
            unique_keys(final(self)@),
    {
        proof {
            use_type_invariant(&*self);
        }
        let ghost before = self@;
        let mut t = Table::new();
        std::mem::swap(&mut t, &mut self.table);
        let r = t.set_text(args);
        proof {
            lemma_set_keeps_unique(before, args@);
        }
        self.table = t;
        r
    }

    /// Runs `GET` on its arguments and gives the reply.
    pub fn get_text(&self, args: &Vec<char>) -> (r: String)
        ensures
            r@ == get_result(self@, args@),
            unique_keys(self@),
    {
        proof {
            use_type_invariant(self);
        }
        self.table.get_text(args)
    }

    /// Runs `DEL` on its arguments and gives the reply.
    pub fn del_text(&mut self, args: &Vec<char>) -> (r: String)
        ensures
            (final(self)@, r@) == del_result(old(self)@, args@),
            unique_keys(old(self)@),
            unique_keys(final(self)@),
    {
        proof {
            use_type_invariant(&*self);
        }
        let ghost before = self@;
        let mut t = Table::new();
        std::mem::swap(&mut t, &mut self.table);
        let r = t.del_text(args);
        proof {
            lemma_del_keeps_unique(before, args@);
        }
        self.table = t;
        r
    }

    /// Runs `DUMP` and gives the reply.
    pub fn dump_text(&self) -> (r: String)
        ensures
            r@ == dump_result(self@),
            unique_keys(self@),
    {
        proof {
            use_type_invariant(self);
        }
        self.table.dump_text()
    }

    /// Runs `LOAD` on its arguments and gives the reply.
    pub fn load_text(&mut self, args: &Vec<char>) -> (r: String)
        ensures
            (final(self)@, r@) == load_result(old(self)@, args@),
            unique_keys(old(self)@),
            unique_keys(final(self)@),
    {
        proof {
            use_type_invariant(&*self);
        }
        let ghost before = self@;
        let mut t = Table::new();
        std::mem::swap(&mut t, &mut self.table);
        let r = t.load_text(args);
        proof {
            lemma_load_keeps_unique(before, args@);
        }
        self.table = t;
        r
    }

    /// Runs one text command on the store and gives the reply.
    pub fn handle(&mut self, msg: &str) -> (r: String)
        ensures
            (final(self)@, r@) == run_command(old(self)@, msg@),
            unique_keys(old(self)@),
            unique_keys(final(self)@),
    {
        proof {
            use_type_invariant(&*self);
        }
        let ghost before = self@;
        let mut t = Table::new();
        std::mem::swap(&mut t, &mut self.table);
        let r = t.handle(msg);
        proof {
            lemma_commands_keep_keys_unique(before, msg@);
        }
        self.table = t;
        r
    }
}

} // verus!

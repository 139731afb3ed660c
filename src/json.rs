use vstd::prelude::*;
use crate::text::{int_text, push_char, push_int, push_text};

verus! {

broadcast use vstd::std_specs::vec::group_vec_axioms;

/// Mathematical model of a document value.
pub enum Json {
    Object(Seq<(Seq<char>, Json)>),
    Array(Seq<Json>),
    Str(Seq<char>),
    Int(int),
    Float(Seq<char>),
    Bool(bool),
    Null,
}

/// A document value: a tree of objects, arrays and scalars.
pub enum Value {
    Object(Vec<(String, Value)>),
    Array(Vec<Value>),
    String(String),
    Integer(i64),
    Float(String),
    Boolean(bool),
    Null,
}

/// Models of the first `n` entries of an object.
pub open spec fn entries_view(o: Vec<(String, Value)>, n: int) -> Seq<(Seq<char>, Json)>
    decreases o, n,
{
    if n <= 0 || n > o@.len() {
        Seq::empty()
    } else {
        entries_view(o, n - 1).push((o@[n - 1].0@, o@[n - 1].1.view()))
    }
}

/// Models of the first `n` items of an array.
pub open spec fn items_view(a: Vec<Value>, n: int) -> Seq<Json>
    decreases a, n,
{
    if n <= 0 || n > a@.len() {
        Seq::empty()
    } else {
        items_view(a, n - 1).push(a@[n - 1].view())
    }
}

impl View for Value {
    type V = Json;

    open spec fn view(&self) -> Json
        decreases self, 0int,
    {
        match self {
            Value::Object(o) => Json::Object(entries_view(*o, o@.len() as int)),
            Value::Array(a) => Json::Array(items_view(*a, a@.len() as int)),
            Value::String(s) => Json::Str(s@),
            Value::Integer(n) => Json::Int(*n as int),
            Value::Float(s) => Json::Float(s@),
            Value::Boolean(b) => Json::Bool(*b),
            Value::Null => Json::Null,
        }
    }
}

pub proof fn lemma_entries_view(o: Vec<(String, Value)>, n: int)
    requires
        0 <= n <= o@.len(),
    ensures
        entries_view(o, n).len() == n,
        forall|k: int| 0 <= k < n ==> #[trigger] entries_view(o, n)[k] == (o@[k].0@, o@[k].1@),
    decreases n,
{
    if n > 0 {
        lemma_entries_view(o, n - 1);
        assert(entries_view(o, n) == entries_view(o, n - 1).push((o@[n - 1].0@, o@[n - 1].1@)));
    }
}

pub proof fn lemma_items_view(a: Vec<Value>, n: int)
    requires
        0 <= n <= a@.len(),
    ensures
        items_view(a, n).len() == n,
        forall|k: int| 0 <= k < n ==> #[trigger] items_view(a, n)[k] == a@[k]@,
    decreases n,
{
    if n > 0 {
        lemma_items_view(a, n - 1);
        assert(items_view(a, n) == items_view(a, n - 1).push(a@[n - 1]@));
    }
}

pub open spec fn quoted(s: Seq<char>) -> Seq<char> {
    seq!['"'] + s + seq!['"']
}

/// Text form of a value: strings quoted as they are, integers in decimal,
/// floats as their literal, `true` / `false` / `null`, arrays as
/// `[v, v]` and objects as `{"k": v, "k": v}` in entry order.
pub open spec fn ser(j: Json) -> Seq<char>
    decreases j,
{
    match j {
        Json::Object(o) => seq!['{'] + ser_members(o) + seq!['}'],
        Json::Array(a) => seq!['['] + ser_items(a) + seq![']'],
        Json::Str(s) => quoted(s),
        Json::Int(n) => int_text(n),
        Json::Float(s) => s,
        Json::Bool(b) => if b {
            seq!['t', 'r', 'u', 'e']
        } else {
            seq!['f', 'a', 'l', 's', 'e']
        },
        Json::Null => seq!['n', 'u', 'l', 'l'],
    }
}

pub open spec fn ser_items(a: Seq<Json>) -> Seq<char>
    decreases a,
{
    if a.len() == 0 {
        Seq::empty()
    } else if a.len() == 1 {
        ser(a[0])
    } else {
        ser_items(a.drop_last()) + seq![',', ' '] + ser(a.last())
    }
}

pub open spec fn ser_members(o: Seq<(Seq<char>, Json)>) -> Seq<char>
    decreases o,
{
    if o.len() == 0 {
        Seq::empty()
    } else if o.len() == 1 {
        quoted(o[0].0) + seq![':', ' '] + ser(o[0].1)
    } else {
        ser_members(o.drop_last()) + seq![',', ' '] + quoted(o.last().0) + seq![':', ' '] + ser(o.last().1)
    }
}

/// Writes the text form of an object with these entries at the end of `out`.
pub fn write_entries(o: &Vec<(String, Value)>, out: &mut String)
    ensures
        final(out)@ == old(out)@ + ser(Json::Object(entries_view(*o, o@.len() as int))),
    decreases o,
{
    push_char(out, '{');
    let ghost start = out@;
    let ghost items = entries_view(*o, o@.len() as int);
    proof {
        lemma_entries_view(*o, o@.len() as int);
    }
    let mut i: usize = 0;
    while i < o.len()
        invariant
            i <= o@.len(),
            items.len() == o@.len(),
            forall|k: int| 0 <= k < o@.len() ==> #[trigger] items[k] == (o@[k].0@, o@[k].1@),
            out@ == start + ser_members(items.subrange(0, i as int)),
        decreases o@.len() - i,
    {
        assert(items.subrange(0, i + 1).drop_last() =~= items.subrange(0, i as int));
        if i > 0 {
            push_text(out, ", ");
        }
        push_char(out, '"');
        push_text(out, o[i].0.as_str());
        push_char(out, '"');
        push_text(out, ": ");
        proof {
            assert(decreases_to!(*o => o[i as int]));
            assert(decreases_to!(o[i as int] => o[i as int].1));
        }
        o[i].1.write_to(out);
        proof {
            reveal_strlit(", ");
            reveal_strlit(": ");
        }
        assert(out@ =~= start + ser_members(items.subrange(0, i + 1)));
        i = i + 1;
    }
    push_char(out, '}');
    assert(items.subrange(0, i as int) =~= items);
    assert(final(out)@ =~= old(out)@ + ser(Json::Object(items)));
}

impl Value {
    /// Writes the text form of this value at the end of `out`.
    pub fn write_to(&self, out: &mut String)
        ensures
            final(out)@ == old(out)@ + ser(self@),
        decreases self,
    {
        match self {
            Value::Object(o) => {
                proof {
                    assert(decreases_to!(*self => (*self)->Object_0));
                }
                write_entries(o, out);
            },
            Value::Array(a) => {
                push_char(out, '[');
                let ghost start = out@;
                let ghost items = self@->Array_0;
                proof {
                    lemma_items_view(*a, a@.len() as int);
                }
                let mut i: usize = 0;
                while i < a.len()
                    invariant
                        i <= a@.len(),
                        *self == Value::Array(*a),
                        items.len() == a@.len(),
                        forall|k: int| 0 <= k < a@.len() ==> #[trigger] items[k] == a@[k]@,
                        out@ == start + ser_items(items.subrange(0, i as int)),
                    decreases a@.len() - i,
                {
                    assert(items.subrange(0, i + 1).drop_last() =~= items.subrange(0, i as int));
                    if i > 0 {
                        push_text(out, ", ");
                    }
                    proof {
                        assert(decreases_to!(*self => (*self)->Array_0));
                        assert(decreases_to!(*a => a[i as int]));
                        assert(decreases_to!(*self => a[i as int]));
                    }
                    a[i].write_to(out);
                    proof {
                        reveal_strlit(", ");
                    }
                    assert(out@ =~= start + ser_items(items.subrange(0, i + 1)));
                    i = i + 1;
                }
                push_char(out, ']');
                assert(items.subrange(0, i as int) =~= items);
            },
            Value::String(s) => {
                push_char(out, '"');
                push_text(out, s.as_str());
                push_char(out, '"');
            },
            Value::Integer(n) => {
                push_int(out, *n);
            },
            Value::Float(s) => {
                push_text(out, s.as_str());
            },
            Value::Boolean(b) => {
                if *b {
                    push_text(out, "true");
                    proof { reveal_strlit("true"); }
                } else {
                    push_text(out, "false");
                    proof { reveal_strlit("false"); }
                }
            },
            Value::Null => {
                push_text(out, "null");
                proof { reveal_strlit("null"); }
            },
        }
        assert(final(out)@ =~= old(out)@ + ser(self@));
    }

    /// The text of a string value.
    pub fn string(&self) -> (r: Result<&String, &'static str>)
        ensures
            match self {
                Value::String(s) => r == Ok::<&String, &'static str>(s),
                _ => r is Err && r->Err_0@ == "Invalid type"@,
            },
    {
        match self {
            Value::String(s) => Ok(s),
            _ => Err("Invalid type"),
        }
    }

    /// The items of an array value.
    pub fn array(&self) -> (r: Result<&Vec<Value>, &'static str>)
        ensures
            match self {
                Value::Array(a) => r == Ok::<&Vec<Value>, &'static str>(a),
                _ => r is Err && r->Err_0@ == "Invalid type"@,
            },
    {
        match self {
            Value::Array(a) => Ok(a),
            _ => Err("Invalid type"),
        }
    }

    /// The entries of an object value.
    pub fn object(&self) -> (r: Result<&Vec<(String, Value)>, &'static str>)
        ensures
            match self {
                Value::Object(o) => r == Ok::<&Vec<(String, Value)>, &'static str>(o),
                _ => r is Err && r->Err_0@ == "Invalid type"@,
            },
    {
        match self {
            Value::Object(o) => Ok(o),
            _ => Err("Invalid type"),
        }
    }

    /// The literal of a float value.
    pub fn float(&self) -> (r: Result<&String, &'static str>)
        ensures
            match self {
                Value::Float(f) => r == Ok::<&String, &'static str>(f),
                _ => r is Err && r->Err_0@ == "Invalid type"@,
            },
    {
        match self {
            Value::Float(f) => Ok(f),
            _ => Err("Invalid type"),
        }
    }

    /// The number of an integer value.
    pub fn integer(&self) -> (r: Result<i64, &'static str>)
        ensures
            match self {
                Value::Integer(i) => r == Ok::<i64, &'static str>(*i),
                _ => r is Err && r->Err_0@ == "Invalid type"@,
            },
    {
        match self {
            Value::Integer(i) => Ok(*i),
            _ => Err("Invalid type"),
        }
    }

    /// The text form of this value.
    pub fn serialize(&self) -> (r: String)
        ensures
            r@ == ser(self@),
    {
        let mut out = String::new();
        self.write_to(&mut out);
        assert(out@ =~= ser(self@));
        out
    }
}

} // verus!

use vstd::prelude::*;
use vstd::string::StringExecFns;
use crate::json::{Json, Value, entries_view, items_view, lemma_entries_view, lemma_items_view};
use crate::parser::find_key;
use crate::text::{
    all_digits, digits_value, find_char, find_in, nat_text, parse_decimal,
    push_nat, push_text, string_from,
};

verus! {

/// The segment before the first `.` of a path (the whole path when it has none).
pub open spec fn first_segment(p: Seq<char>) -> Seq<char> {
    let d = find_char(p, '.', 0);
    if d < 0 || d >= p.len() {
        p
    } else {
        p.subrange(0, d)
    }
}

/// What follows the first `.` of a path (empty when it has none).
pub open spec fn rest_segments(p: Seq<char>) -> Seq<char> {
    let d = find_char(p, '.', 0);
    if d < 0 || d >= p.len() {
        Seq::empty()
    } else {
        p.subrange(d + 1, p.len() as int)
    }
}

/// The array index that a segment names: an optional `+` and decimal digits,
/// at most `usize::MAX`.
pub open spec fn index_of(k: Seq<char>) -> Option<nat> {
    let d = if k.len() > 0 && k[0] == '+' { k.drop_first() } else { k };
    if d.len() > 0 && all_digits(d) && digits_value(d) <= usize::MAX {
        Some(digits_value(d))
    } else {
        None
    }
}

pub open spec fn kind_name(j: Json) -> Seq<char> {
    match j {
        Json::Object(_) => "Object"@,
        Json::Array(_) => "Array"@,
        Json::Str(_) => "String"@,
        Json::Int(_) => "Integer"@,
        Json::Float(_) => "Float"@,
        Json::Bool(_) => "Boolean"@,
        Json::Null => "Null"@,
    }
}

pub open spec fn key_missing_msg(k: Seq<char>) -> Seq<char> {
    "Key "@ + k + " not found"@
}

pub open spec fn out_of_range_msg(i: nat) -> Seq<char> {
    "Index "@ + nat_text(i) + " out of range"@
}

pub open spec fn not_index_msg(k: Seq<char>) -> Seq<char> {
    k + " is not a valid index for array"@
}

pub open spec fn wrong_type_msg(j: Json) -> Seq<char> {
    "Invalid type: expected Object, got "@ + kind_name(j)
}

/// What one path step from `j` reaches: the entry of key `k` of an object,
/// or the item at index `k` of an array.
pub open spec fn child_at(j: Json, k: Seq<char>) -> Result<int, Seq<char>> {
    match j {
        Json::Object(o) => {
            let i = find_key(o, k, 0);
            if i < 0 {
                Err(key_missing_msg(k))
            } else {
                Ok(i)
            }
        },
        Json::Array(a) => match index_of(k) {
            None => Err(not_index_msg(k)),
            Some(i) => if i < a.len() {
                Ok(i as int)
            } else {
                Err(out_of_range_msg(i))
            },
        },
        _ => Err(wrong_type_msg(j)),
    }
}

pub open spec fn child(j: Json, i: int) -> Json {
    match j {
        Json::Object(o) => o[i].1,
        Json::Array(a) => a[i],
        _ => Json::Null,
    }
}

pub open spec fn with_child(j: Json, i: int, c: Json) -> Json {
    match j {
        Json::Object(o) => Json::Object(o.update(i, (o[i].0, c))),
        Json::Array(a) => Json::Array(a.update(i, c)),
        _ => j,
    }
}

/// The node that a dotted path reaches from `j`, or the message of the first
/// step that fails.
pub open spec fn get_path(j: Json, p: Seq<char>) -> Result<Json, Seq<char>>
    decreases p.len(),
{
    if p.len() == 0 {
        Ok(j)
    } else {
        match child_at(j, first_segment(p)) {
            Err(m) => Err(m),
            Ok(i) => get_path(child(j, i), rest_segments(p)),
        }
    }
}

/// A change made at the end of a path.
pub enum Edit {
    /// The node is replaced by a value.
    Put(Json),
    /// The entry or item named by a segment is removed from the node.
    Remove(Seq<char>),
}

/// `j` without the entry of key `k` (an object) or the item at index `k`
/// (an array).
pub open spec fn remove_child(j: Json, k: Seq<char>) -> Result<Json, Seq<char>> {
    match j {
        Json::Object(o) => {
            let i = find_key(o, k, 0);
            if i < 0 {
                Err("Key not found"@)
            } else {
                Ok(Json::Object(o.remove(i)))
            }
        },
        Json::Array(a) => match index_of(k) {
            None => Err("Invalid index"@),
            Some(i) => if i >= a.len() {
                Err("Index out of range"@)
            } else {
                Ok(Json::Array(a.remove(i as int)))
            },
        },
        _ => Err("Invalid type"@),
    }
}

pub open spec fn apply_edit(j: Json, e: Edit) -> Result<Json, Seq<char>> {
    match e {
        Edit::Put(v) => Ok(v),
        Edit::Remove(k) => remove_child(j, k),
    }
}

/// `j` with the edit made at the node that the path reaches; only that node
/// changes.
pub open spec fn edit_path(j: Json, p: Seq<char>, e: Edit) -> Result<Json, Seq<char>>
    decreases p.len(),
{
    if p.len() == 0 {
        apply_edit(j, e)
    } else {
        match child_at(j, first_segment(p)) {
            Err(m) => Err(m),
            Ok(i) => match edit_path(child(j, i), rest_segments(p), e) {
                Err(m) => Err(m),
                Ok(c) => Ok(with_child(j, i, c)),
            },
        }
    }
}

pub open spec fn set_path(j: Json, p: Seq<char>, v: Json) -> Result<Json, Seq<char>> {
    edit_path(j, p, Edit::Put(v))
}

/// The path up to its last `.` (empty when it has none).
pub open spec fn parent_path(p: Seq<char>) -> Seq<char> {
    let d = crate::text::rfind_char(p, '.', p.len() as int);
    if d < 0 {
        Seq::empty()
    } else {
        p.subrange(0, d)
    }
}

/// The segment after the last `.` of a path.
pub open spec fn last_segment(p: Seq<char>) -> Seq<char> {
    let d = crate::text::rfind_char(p, '.', p.len() as int);
    if d < 0 {
        p
    } else {
        p.subrange(d + 1, p.len() as int)
    }
}

/// `j` without the node that the path names: its parent is reached, and the
/// last segment removed from it.
pub open spec fn remove_path(j: Json, p: Seq<char>) -> Result<Json, Seq<char>> {
    edit_path(j, parent_path(p), Edit::Remove(last_segment(p)))
}

/// The index of the entry with key `k`, if any.
pub fn find_entry(o: &Vec<(String, Value)>, k: &String) -> (r: Option<usize>)
    ensures
        match r {
            Some(i) => i < o@.len() && i as int == find_key(entries_view(*o, o@.len() as int), k@, 0),
            None => find_key(entries_view(*o, o@.len() as int), k@, 0) == -1,
        },
{
    let ghost e = entries_view(*o, o@.len() as int);
    proof {
        lemma_entries_view(*o, o@.len() as int);
    }
    let mut i: usize = 0;
    while i < o.len()
        invariant
            e == entries_view(*o, o@.len() as int),
            e.len() == o@.len(),
            forall|j: int| 0 <= j < o@.len() ==> #[trigger] e[j] == (o@[j].0@, o@[j].1@),
            i <= o@.len(),
            find_key(e, k@, 0) == find_key(e, k@, i as int),
        decreases o@.len() - i,
    {
        if o[i].0 == *k {
            return Some(i);
        }
        i = i + 1;
    }
    None
}

/// Reads `c[from..to]` as an array index.
pub fn parse_index(c: &Vec<char>, from: usize, to: usize) -> (r: Option<usize>)
    requires
        from <= to <= c@.len(),
    ensures
        match index_of(c@.subrange(from as int, to as int)) {
            Some(i) => r == Some(i as usize),
            None => r is None,
        },
{
    let ghost k = c@.subrange(from as int, to as int);
    let start: usize = if from < to && c[from] == '+' { from + 1 } else { from };
    proof {
        if from < to {
            assert(k[0] == c@[from as int]);
        }
        assert(c@.subrange(start as int, to as int) =~= if k.len() > 0 && k[0] == '+' { k.drop_first() } else { k });
    }
    match parse_decimal(c, start, to) {
        None => None,
        Some(v) => {
            if v <= usize::MAX as u64 {
                Some(v as usize)
            } else {
                None
            }
        },
    }
}

fn kind_name_of(v: &Value) -> (r: &'static str)
    ensures
        r@ == kind_name(v@),
{
    match v {
        Value::Object(_) => "Object",
        Value::Array(_) => "Array",
        Value::String(_) => "String",
        Value::Integer(_) => "Integer",
        Value::Float(_) => "Float",
        Value::Boolean(_) => "Boolean",
        Value::Null => "Null",
    }
}

fn key_missing(k: &String) -> (r: String)
    ensures
        r@ == key_missing_msg(k@),
{
    let mut m = String::new();
    push_text(&mut m, "Key ");
    push_text(&mut m, k.as_str());
    push_text(&mut m, " not found");
    assert(m@ =~= key_missing_msg(k@));
    m
}

fn out_of_range(i: usize) -> (r: String)
    ensures
        r@ == out_of_range_msg(i as nat),
{
    let mut m = String::new();
    push_text(&mut m, "Index ");
    push_nat(&mut m, i as u64);
    push_text(&mut m, " out of range");
    assert(m@ =~= out_of_range_msg(i as nat));
    m
}

fn not_index(c: &Vec<char>, from: usize, to: usize) -> (r: String)
    requires
        from <= to <= c@.len(),
    ensures
        r@ == not_index_msg(c@.subrange(from as int, to as int)),
{
    let mut m = string_from(c, from, to);
    push_text(&mut m, " is not a valid index for array");
    m
}

fn wrong_type(v: &Value) -> (r: String)
    ensures
        r@ == wrong_type_msg(v@),
{
    let mut m = String::new();
    push_text(&mut m, "Invalid type: expected Object, got ");
    push_text(&mut m, kind_name_of(v));
    assert(m@ =~= wrong_type_msg(v@));
    m
}

pub open spec fn container_len(j: Json) -> int {
    match j {
        Json::Object(o) => o.len() as int,
        Json::Array(a) => a.len() as int,
        _ => 0,
    }
}

proof fn lemma_child_view(v: Value, i: int)
    requires
        0 <= i < container_len(v@),
    ensures
        v is Object ==> i < v->Object_0@.len() && child(v@, i) == v->Object_0@[i].1@,
        v is Array ==> i < v->Array_0@.len() && child(v@, i) == v->Array_0@[i]@,
        container_len(v@) == match v {
            Value::Object(o) => o@.len() as int,
            Value::Array(a) => a@.len() as int,
            _ => 0,
        },
{
    match v {
        Value::Object(o) => lemma_entries_view(o, o@.len() as int),
        Value::Array(a) => lemma_items_view(a, a@.len() as int),
        _ => {},
    }
}

impl Value {
    /// Which entry or item the segment `pc[from..to]` names.
    fn child_index(&self, pc: &Vec<char>, from: usize, to: usize) -> (r: Result<usize, String>)
        requires
            from <= to <= pc@.len(),
        ensures
            match child_at(self@, pc@.subrange(from as int, to as int)) {
                Ok(i) => r is Ok && r->Ok_0 as int == i && 0 <= i < container_len(self@),
                Err(m) => r is Err && r->Err_0@ == m,
            },
    {
        match self {
            Value::Object(o) => {
                let key = string_from(pc, from, to);
                proof {
                    lemma_entries_view(*o, o@.len() as int);
                    if find_key(entries_view(*o, o@.len() as int), key@, 0) >= 0 {
                        crate::parser::lemma_find_key_first(entries_view(*o, o@.len() as int), key@, 0);
                    }
                }
                match find_entry(o, &key) {
                    Some(i) => Ok(i),
                    None => Err(key_missing(&key)),
                }
            },
            Value::Array(a) => {
                proof {
                    lemma_items_view(*a, a@.len() as int);
                }
                match parse_index(pc, from, to) {
                    None => Err(not_index(pc, from, to)),
                    Some(i) => {
                        if i < a.len() {
                            Ok(i)
                        } else {
                            Err(out_of_range(i))
                        }
                    },
                }
            },
            _ => Err(wrong_type(self)),
        }
    }

    /// The node that the path `pc[from..to]` reaches from this one.
    pub(crate) fn get_at(&self, pc: &Vec<char>, from: usize, to: usize) -> (r: Result<&Value, String>)
        requires
            from <= to <= pc@.len(),
        ensures
            match get_path(self@, pc@.subrange(from as int, to as int)) {
                Ok(j) => r is Ok && r->Ok_0@ == j,
                Err(m) => r is Err && r->Err_0@ == m,
            },
        decreases to - from,
    {
        if from == to {
            return Ok(self);
        }
        let ghost p = pc@.subrange(from as int, to as int);
        let d = find_in(pc, '.', from, to);
        let next: usize = if d < to { d + 1 } else { to };
        proof {
            assert(first_segment(p) =~= pc@.subrange(from as int, d as int));
            assert(rest_segments(p) =~= pc@.subrange(next as int, to as int));
            assert(p.len() > 0);
            assert(get_path(self@, p) == match child_at(self@, first_segment(p)) {
                Err(m) => Err(m),
                Ok(i) => get_path(child(self@, i), rest_segments(p)),
            });
        }
        match self.child_index(pc, from, d) {
            Err(m) => Err(m),
            Ok(i) => {
                proof {
                    lemma_child_view(*self, i as int);
                }
                match self {
                    Value::Object(o) => {
                        o[i].1.get_at(pc, next, to)
                    },
                    Value::Array(a) => a[i].get_at(pc, next, to),
                    _ => Err(String::new()),
                }
            },
        }
    }

    /// The node that a dotted path reaches from this one: each segment names
    /// an object key or an array index.
    pub fn get_element(&self, path: &str) -> (r: Result<&Value, String>)
        ensures
            match get_path(self@, path@) {
                Ok(j) => r is Ok && r->Ok_0@ == j,
                Err(m) => r is Err && r->Err_0@ == m,
            },
    {
        let pc = crate::text::chars_of(path);
        assert(pc@.subrange(0, pc@.len() as int) =~= path@);
        self.get_at(&pc, 0, pc.len())
    }
}

/// A change to make at the end of a path.
pub enum PathEdit {
    /// Replace the node by this value.
    Put(Value),
    /// Remove the entry or item that this segment names from the node.
    Remove(Vec<char>),
}

impl View for PathEdit {
    type V = Edit;

    open spec fn view(&self) -> Edit {
        match self {
            PathEdit::Put(v) => Edit::Put(v@),
            PathEdit::Remove(k) => Edit::Remove(k@),
        }
    }
}

impl Value {
    /// Removes the entry of key `k` (an object) or the item at index `k`
    /// (an array).
    pub fn remove_child(&mut self, k: &Vec<char>) -> (r: Result<(), String>)
        ensures
            match remove_child(old(self)@, k@) {
                Ok(j) => r is Ok && final(self)@ == j,
                Err(m) => r is Err && r->Err_0@ == m && final(self)@ == old(self)@,
            },
    {
        match self {
            Value::Object(o) => {
                let key = string_from(k, 0, k.len());
                assert(k@.subrange(0, k@.len() as int) =~= k@);
                let ghost before = *o;
                proof {
                    lemma_entries_view(*o, o@.len() as int);
                }
                match find_entry(o, &key) {
                    None => Err(String::from_str("Key not found")),
                    Some(i) => {
                        o.remove(i);
                        proof {
                            lemma_entries_view(*o, o@.len() as int);
                            assert(entries_view(*o, o@.len() as int) =~= entries_view(before, before@.len() as int).remove(i as int));
                        }
                        Ok(())
                    },
                }
            },
            Value::Array(a) => {
                assert(k@.subrange(0, k@.len() as int) =~= k@);
                let ghost before = *a;
                proof {
                    lemma_items_view(*a, a@.len() as int);
                }
                match parse_index(k, 0, k.len()) {
                    None => Err(String::from_str("Invalid index")),
                    Some(i) => {
                        if i >= a.len() {
                            Err(String::from_str("Index out of range"))
                        } else {
                            a.remove(i);
                            proof {
                                lemma_items_view(*a, a@.len() as int);
                                assert(items_view(*a, a@.len() as int) =~= items_view(before, before@.len() as int).remove(i as int));
                            }
                            Ok(())
                        }
                    },
                }
            },
            _ => Err(String::from_str("Invalid type")),
        }
    }

    fn apply(&mut self, op: PathEdit) -> (r: Result<(), String>)
        ensures
            match apply_edit(old(self)@, op@) {
                Ok(j) => r is Ok && final(self)@ == j,
                Err(m) => r is Err && r->Err_0@ == m && final(self)@ == old(self)@,
            },
    {
        match op {
            PathEdit::Put(v) => {
                *self = v;
                Ok(())
            },
            PathEdit::Remove(k) => self.remove_child(&k),
        }
    }

    /// Makes the change at the node that the path `pc[from..to]` reaches.
    pub(crate) fn edit_at(&mut self, pc: &Vec<char>, from: usize, to: usize, op: PathEdit) -> (r: Result<(), String>)
        requires
            from <= to <= pc@.len(),
        ensures
            match edit_path(old(self)@, pc@.subrange(from as int, to as int), op@) {
                Ok(j) => r is Ok && final(self)@ == j,
                Err(m) => r is Err && r->Err_0@ == m && final(self)@ == old(self)@,
            },
        decreases to - from,
    {
        if from == to {
            return self.apply(op);
        }
        let ghost p = pc@.subrange(from as int, to as int);
        let d = find_in(pc, '.', from, to);
        let next: usize = if d < to { d + 1 } else { to };
        proof {
            assert(first_segment(p) =~= pc@.subrange(from as int, d as int));
            assert(rest_segments(p) =~= pc@.subrange(next as int, to as int));
        }
        let ghost start = *self;
        proof {
            assert(p.len() > 0);
            assert(edit_path(start@, p, op@) == match child_at(start@, first_segment(p)) {
                Err(m) => Err(m),
                Ok(i) => match edit_path(child(start@, i), rest_segments(p), op@) {
                    Err(m) => Err(m),
                    Ok(c) => Ok(with_child(start@, i, c)),
                },
            });
        }
        match self.child_index(pc, from, d) {
            Err(m) => Err(m),
            Ok(i) => {
                proof {
                    lemma_child_view(*self, i as int);
                }
                match self {
                    Value::Object(o) => {
                        let ghost before = *o;
                        let r = o[i].1.edit_at(pc, next, to, op);
                        proof {
                            lemma_entries_view(before, before@.len() as int);
                            lemma_entries_view(*o, o@.len() as int);
                            assert(entries_view(*o, o@.len() as int) =~= entries_view(before, before@.len() as int).update(
                                i as int,
                                (before@[i as int].0@, o@[i as int].1@),
                            ));
                            assert(o@[i as int].0 == before@[i as int].0);
                            if r is Err {
                                assert(entries_view(*o, o@.len() as int) =~= entries_view(before, before@.len() as int));
                            }
                        }
                        r
                    },
                    Value::Array(a) => {
                        let ghost before = *a;
                        let r = a[i].edit_at(pc, next, to, op);
                        proof {
                            lemma_items_view(before, before@.len() as int);
                            lemma_items_view(*a, a@.len() as int);
                            assert(items_view(*a, a@.len() as int) =~= items_view(before, before@.len() as int).update(
                                i as int,
                                a@[i as int]@,
                            ));
                            if r is Err {
                                assert(items_view(*a, a@.len() as int) =~= items_view(before, before@.len() as int));
                            }
                        }
                        r
                    },
                    _ => Err(String::new()),
                }
            },
        }
    }

    /// Replaces the node that a dotted path reaches by `v`. The path must
    /// lead through existing entries and items; on failure nothing changes.
    pub fn set_element(&mut self, path: &str, v: Value) -> (r: Result<(), String>)
        ensures
            match set_path(old(self)@, path@, v@) {
                Ok(j) => r is Ok && final(self)@ == j,
                Err(m) => r is Err && r->Err_0@ == m && final(self)@ == old(self)@,
            },
    {
        let pc = crate::text::chars_of(path);
        assert(pc@.subrange(0, pc@.len() as int) =~= path@);
        self.edit_at(&pc, 0, pc.len(), PathEdit::Put(v))
    }

    /// Removes the node that the path `pc[from..to]` names.
    pub(crate) fn remove_at(&mut self, pc: &Vec<char>, from: usize, to: usize) -> (r: Result<(), String>)
        requires
            from <= to <= pc@.len(),
        ensures
            match remove_path(old(self)@, pc@.subrange(from as int, to as int)) {
                Ok(j) => r is Ok && final(self)@ == j,
                Err(m) => r is Err && r->Err_0@ == m && final(self)@ == old(self)@,
            },
    {
        let ghost p = pc@.subrange(from as int, to as int);
        let d = crate::text::rfind_in(pc, '.', from, to);
        let last = if d < to {
            crate::text::slice_chars(pc, d + 1, to)
        } else {
            crate::text::slice_chars(pc, from, to)
        };
        let end: usize = if d < to { d } else { from };
        assert(parent_path(p) =~= pc@.subrange(from as int, end as int));
        assert(last_segment(p) =~= last@);
        self.edit_at(pc, from, end, PathEdit::Remove(last))
    }

    /// Removes the node that a dotted path names: the path up to its last `.`
    /// is followed, and the last segment removed from the node reached.
    pub fn remove_element(&mut self, path: &str) -> (r: Result<(), String>)
        ensures
            match remove_path(old(self)@, path@) {
                Ok(j) => r is Ok && final(self)@ == j,
                Err(m) => r is Err && r->Err_0@ == m && final(self)@ == old(self)@,
            },
    {
        let pc = crate::text::chars_of(path);
        assert(pc@.subrange(0, pc@.len() as int) =~= path@);
        self.remove_at(&pc, 0, pc.len())
    }
}

} // verus!

//! JSON values as plain data: what a project file holds.
use vstd::prelude::*;

use crate::text::{str_eq, to_chars};

verus! {

/// A JSON number: its text, and its value where it is an integer that fits in
/// an `i64`.
#[derive(Debug)]
pub struct JsonNumber {
    pub text: String,
    pub int: Option<i64>,
}

/// A JSON value. An object's fields are held in the order given them: the
/// order `serde_json` reads them in, or, for a field that a setter adds, the
/// place described at that setter.
#[derive(Debug)]
pub enum JsonValue {
    Null,
    Bool(bool),
    Number(JsonNumber),
    String(String),
    Array(Vec<JsonValue>),
    Object(Vec<(String, JsonValue)>),
}

/// Two values that hold the same data.
pub open spec fn json_eq(a: JsonValue, b: JsonValue) -> bool
    decreases a,
{
    match (a, b) {
        (JsonValue::Null, JsonValue::Null) => true,
        (JsonValue::Bool(x), JsonValue::Bool(y)) => x == y,
        (JsonValue::Number(x), JsonValue::Number(y)) => x.text@ == y.text@ && x.int == y.int,
        (JsonValue::String(x), JsonValue::String(y)) => x@ == y@,
        (JsonValue::Array(x), JsonValue::Array(y)) => {
            &&& x@.len() == y@.len()
            &&& forall|i: int| 0 <= i < x@.len() ==> json_eq(#[trigger] x@[i], y@[i])
        },
        (JsonValue::Object(x), JsonValue::Object(y)) => {
            &&& x@.len() == y@.len()
            &&& forall|i: int| 0 <= i < x@.len() ==> (#[trigger] x@[i]).0@ == y@[i].0@ && json_eq(x@[i].1, y@[i].1)
        },
        _ => false,
    }
}

proof fn lemma_array_decrease(a: JsonValue)
    requires
        a is Array,
    ensures
        forall|j: int| 0 <= j < a->Array_0@.len() ==> decreases_to!(a => a->Array_0@[j]),
{
    assert forall|j: int| 0 <= j < a->Array_0@.len() implies decreases_to!(a => a->Array_0@[j]) by {
        assert(decreases_to!(a => a->Array_0));
        assert(decreases_to!(a->Array_0 => a->Array_0@));
        assert(decreases_to!(a->Array_0@ => a->Array_0@[j]));
    }
}

proof fn lemma_object_decrease(a: JsonValue)
    requires
        a is Object,
    ensures
        forall|j: int| 0 <= j < a->Object_0@.len() ==> decreases_to!(a => a->Object_0@[j].1),
{
    assert forall|j: int| 0 <= j < a->Object_0@.len() implies decreases_to!(a => a->Object_0@[j].1) by {
        assert(decreases_to!(a => a->Object_0));
        assert(decreases_to!(a->Object_0 => a->Object_0@));
        assert(decreases_to!(a->Object_0@ => a->Object_0@[j]));
        assert(decreases_to!(a->Object_0@[j] => a->Object_0@[j].1));
    }
}

/// A copy of a value that holds the same data.
pub fn copy_json(v: &JsonValue) -> (r: JsonValue)
    ensures
        json_eq(r, *v),
    decreases v,
{
    match v {
        JsonValue::Null => JsonValue::Null,
        JsonValue::Bool(b) => JsonValue::Bool(*b),
        JsonValue::Number(n) => JsonValue::Number(JsonNumber { text: n.text.clone(), int: n.int }),
        JsonValue::String(s) => JsonValue::String(s.clone()),
        JsonValue::Array(items) => {
            proof {
                lemma_array_decrease(*v);
            }
            let mut out: Vec<JsonValue> = Vec::new();
            let mut i: usize = 0;
            while i < items.len()
                invariant
                    i <= items.len(),
                    *v is Array,
                    *items == v->Array_0,
                    forall|j: int| 0 <= j < items.len() ==> decreases_to!(*v => items@[j]),
                    out@.len() == i,
                    forall|j: int| 0 <= j < i ==> json_eq(#[trigger] out@[j], items@[j]),
                decreases items.len() - i,
            {
                let c = copy_json(&items[i]);
                out.push(c);
                i = i + 1;
            }
            let r = JsonValue::Array(out);
            assert forall|j: int| 0 <= j < out@.len() implies json_eq(#[trigger] out@[j], items@[j]) by {
            }
            r
        },
        JsonValue::Object(fields) => {
            proof {
                lemma_object_decrease(*v);
            }
            let mut out: Vec<(String, JsonValue)> = Vec::new();
            let mut i: usize = 0;
            while i < fields.len()
                invariant
                    i <= fields.len(),
                    *v is Object,
                    *fields == v->Object_0,
                    forall|j: int| 0 <= j < fields.len() ==> decreases_to!(*v => fields@[j].1),
                    out@.len() == i,
                    forall|j: int|
                        0 <= j < i ==> (#[trigger] out@[j]).0@ == fields@[j].0@ && json_eq(out@[j].1, fields@[j].1),
                decreases fields.len() - i,
            {
                let c = copy_json(&fields[i].1);
                out.push((fields[i].0.clone(), c));
                i = i + 1;
            }
            JsonValue::Object(out)
        },
    }
}

/// The index of the first field named `key`.
pub open spec fn first_key(fs: Seq<(String, JsonValue)>, key: Seq<char>) -> Option<int>
    decreases fs.len(),
{
    if fs.len() == 0 {
        None
    } else {
        match first_key(fs.drop_last(), key) {
            Some(i) => Some(i),
            None => if fs.last().0@ == key {
                Some(fs.len() - 1)
            } else {
                None
            },
        }
    }
}

/// The value of the first field named `key`.
pub open spec fn field_value(fs: Seq<(String, JsonValue)>, key: Seq<char>) -> Option<JsonValue> {
    match first_key(fs, key) {
        Some(i) => Some(fs[i].1),
        None => None,
    }
}

/// The field `key` of an object (`None` for any other value).
pub open spec fn json_get(v: JsonValue, key: Seq<char>) -> Option<JsonValue> {
    match v {
        JsonValue::Object(fs) => field_value(fs@, key),
        _ => None,
    }
}

/// `first_key` finds the first field of that name.
pub proof fn lemma_first_key(fs: Seq<(String, JsonValue)>, key: Seq<char>)
    ensures
        match first_key(fs, key) {
            Some(i) => 0 <= i < fs.len() && fs[i].0@ == key && forall|j: int| 0 <= j < i ==> fs[j].0@ != key,
            None => forall|j: int| 0 <= j < fs.len() ==> fs[j].0@ != key,
        },
    decreases fs.len(),
{
    if fs.len() > 0 {
        lemma_first_key(fs.drop_last(), key);
        assert forall|j: int| 0 <= j < fs.len() - 1 implies fs[j] == fs.drop_last()[j] by {
        }
    }
}

/// Fields with the same names, one for one, have the same first field of a
/// name.
pub proof fn lemma_first_key_same_names(fs: Seq<(String, JsonValue)>, gs: Seq<(String, JsonValue)>, key: Seq<char>)
    requires
        fs.len() == gs.len(),
        forall|j: int| 0 <= j < fs.len() ==> fs[j].0@ == gs[j].0@,
    ensures
        first_key(fs, key) == first_key(gs, key),
    decreases fs.len(),
{
    if fs.len() > 0 {
        assert forall|j: int| 0 <= j < fs.len() - 1 implies fs.drop_last()[j].0@ == gs.drop_last()[j].0@ by {
            assert(fs.drop_last()[j] == fs[j]);
            assert(gs.drop_last()[j] == gs[j]);
        }
        lemma_first_key_same_names(fs.drop_last(), gs.drop_last(), key);
        assert(fs.last().0@ == gs.last().0@) by {
            assert(fs.last() == fs[fs.len() - 1]);
        }
    }
}

proof fn lemma_first_key_extend(fs: Seq<(String, JsonValue)>, j: int, key: Seq<char>)
    requires
        0 <= j <= fs.len(),
        first_key(fs.subrange(0, j), key) is Some,
    ensures
        first_key(fs, key) == first_key(fs.subrange(0, j), key),
    decreases fs.len() - j,
{
    if j == fs.len() {
        assert(fs.subrange(0, j) =~= fs);
    } else {
        assert(fs.subrange(0, j + 1).drop_last() =~= fs.subrange(0, j));
        lemma_first_key_extend(fs, j + 1, key);
    }
}

/// The index of the first field named `key`.
pub fn field_index(fs: &Vec<(String, JsonValue)>, key: &str) -> (r: Option<usize>)
    ensures
        match r {
            Some(i) => i < fs.len() && first_key(fs@, key@) == Some(i as int),
            None => first_key(fs@, key@) is None,
        },
{
    let mut i: usize = 0;
    while i < fs.len()
        invariant
            i <= fs.len(),
            first_key(fs@.subrange(0, i as int), key@) is None,
        decreases fs.len() - i,
    {
        let ghost sub = fs@.subrange(0, i + 1);
        assert(sub.drop_last() =~= fs@.subrange(0, i as int));
        if str_eq(fs[i].0.as_str(), key) {
            proof {
                lemma_first_key_extend(fs@, i + 1, key@);
            }
            return Some(i);
        }
        i = i + 1;
    }
    assert(fs@.subrange(0, fs.len() as int) =~= fs@);
    None
}

/// The field `key` of an object.
pub fn get<'a>(v: &'a JsonValue, key: &str) -> (r: Option<&'a JsonValue>)
    ensures
        match r {
            Some(x) => json_get(*v, key@) == Some(*x),
            None => json_get(*v, key@) is None,
        },
{
    match v {
        JsonValue::Object(fs) => match field_index(fs, key) {
            Some(i) => Some(&fs[i].1),
            None => None,
        },
        _ => None,
    }
}

/// Whether `a` comes before `b` in the order of their characters.
pub open spec fn text_lt(a: Seq<char>, b: Seq<char>) -> bool
    decreases a.len(),
{
    if a.len() == 0 {
        b.len() > 0
    } else if b.len() == 0 {
        false
    } else if a[0] != b[0] {
        (a[0] as u32) < (b[0] as u32)
    } else {
        text_lt(a.drop_first(), b.drop_first())
    }
}

/// Whether `a` comes before `b` (see `text_lt`).
pub fn text_less(a: &str, b: &str) -> (r: bool)
    ensures
        r == text_lt(a@, b@),
{
    let x = to_chars(a);
    let y = to_chars(b);
    let mut i: usize = 0;
    assert(x@.subrange(0, x@.len() as int) =~= x@);
    assert(y@.subrange(0, y@.len() as int) =~= y@);
    while i < x.len() && i < y.len() && x[i] == y[i]
        invariant
            i <= x.len(),
            i <= y.len(),
            text_lt(a@, b@) == text_lt(x@.subrange(i as int, x@.len() as int), y@.subrange(i as int, y@.len() as int)),
        decreases x.len() - i,
    {
        let ghost xs = x@.subrange(i as int, x@.len() as int);
        let ghost ys = y@.subrange(i as int, y@.len() as int);
        assert(xs.drop_first() =~= x@.subrange(i + 1, x@.len() as int));
        assert(ys.drop_first() =~= y@.subrange(i + 1, y@.len() as int));
        i = i + 1;
    }
    let ghost xs = x@.subrange(i as int, x@.len() as int);
    let ghost ys = y@.subrange(i as int, y@.len() as int);
    if i == x.len() {
        i < y.len()
    } else if i == y.len() {
        false
    } else {
        assert(xs[0] == x@[i as int]);
        assert(ys[0] == y@[i as int]);
        (x[i] as u32) < (y[i] as u32)
    }
}

/// The position at which a new field named `key` goes: before the first field
/// whose name comes after `key`.
pub open spec fn insert_position(fs: Seq<(String, JsonValue)>, key: Seq<char>) -> int
    decreases fs.len(),
{
    if fs.len() == 0 {
        0
    } else if text_lt(key, fs.last().0@) {
        insert_position(fs.drop_last(), key)
    } else {
        fs.len() as int
    }
}

pub proof fn lemma_insert_position_bound(fs: Seq<(String, JsonValue)>, key: Seq<char>)
    ensures
        0 <= insert_position(fs, key) <= fs.len(),
    decreases fs.len(),
{
    if fs.len() > 0 {
        lemma_insert_position_bound(fs.drop_last(), key);
    }
}

pub fn find_insert_position(fs: &Vec<(String, JsonValue)>, key: &str) -> (r: usize)
    ensures
        r == insert_position(fs@, key@),
        r <= fs.len(),
{
    let mut i = fs.len();
    assert(fs@.subrange(0, i as int) =~= fs@);
    while i > 0 && text_less(key, fs[i - 1].0.as_str())
        invariant
            i <= fs.len(),
            insert_position(fs@, key@) == insert_position(fs@.subrange(0, i as int), key@),
        decreases i,
    {
        let ghost sub = fs@.subrange(0, i as int);
        assert(sub.drop_last() =~= fs@.subrange(0, i - 1));
        i = i - 1;
    }
    i
}

/// `new` is `old` with the field `key` set to a value that `p` accepts: the
/// first field of that name is given it, or a new field is put in key order.
pub open spec fn field_set(
    old: Seq<(String, JsonValue)>,
    new: Seq<(String, JsonValue)>,
    key: Seq<char>,
    p: spec_fn(JsonValue) -> bool,
) -> bool {
    match first_key(old, key) {
        Some(i) => {
            &&& new.len() == old.len()
            &&& new[i].0@ == key
            &&& p(new[i].1)
            &&& forall|j: int| 0 <= j < old.len() && j != i ==> new[j] == old[j]
        },
        None => {
            let k = insert_position(old, key);
            &&& new.len() == old.len() + 1
            &&& new[k].0@ == key
            &&& p(new[k].1)
            &&& forall|j: int| 0 <= j < k ==> new[j] == old[j]
            &&& forall|j: int| k < j < new.len() ==> new[j] == old[j - 1]
        },
    }
}

/// Sets the field `key` of `fs` to `v` (see `field_set`).
pub fn set_field(fs: Vec<(String, JsonValue)>, key: &str, v: JsonValue) -> (r: Vec<(String, JsonValue)>)
    ensures
        field_set(fs@, r@, key@, |x: JsonValue| x == v),
{
    let mut fs = fs;
    let ghost before = fs@;
    match field_index(&fs, key) {
        Some(i) => {
            proof {
                lemma_first_key(fs@, key@);
            }
            let k = fs[i].0.clone();
            fs.remove(i);
            fs.insert(i, (k, v));
            assert(fs@ =~= before.update(i as int, fs@[i as int]));
            assert(fs@[i as int].0@ == key@);
            fs
        },
        None => {
            let pos = find_insert_position(&fs, key);
            fs.insert(pos, (key.to_owned(), v));
            fs
        },
    }
}

/// After `field_set`, the field reads as the value that `p` accepts.
pub proof fn lemma_field_set_get(
    old: Seq<(String, JsonValue)>,
    new: Seq<(String, JsonValue)>,
    key: Seq<char>,
    p: spec_fn(JsonValue) -> bool,
)
    requires
        field_set(old, new, key, p),
    ensures
        field_value(new, key) matches Some(v) && p(v),
{
    lemma_first_key(old, key);
    match first_key(old, key) {
        Some(i) => {
            lemma_first_key_same_names(old, new, key);
        },
        None => {
            let k = insert_position(old, key);
            lemma_insert_position_bound(old, key);
            let t = new.subrange(0, k + 1);
            assert(t.drop_last() =~= new.subrange(0, k));
            assert(t.last() == new[k]);
            lemma_first_key(t.drop_last(), key);
            if first_key(t.drop_last(), key) is Some {
                let m = first_key(t.drop_last(), key)->0;
                assert(t.drop_last()[m] == new[m]);
                assert(new[m] == old[m]);
            }
            assert(first_key(t, key) == Some(k));
            lemma_first_key_extend(new, k + 1, key);
        },
    }
}

/// `field_set` with a stronger condition on the value gives it with a weaker
/// one.
pub proof fn lemma_field_set_weaken(
    old: Seq<(String, JsonValue)>,
    new: Seq<(String, JsonValue)>,
    key: Seq<char>,
    p: spec_fn(JsonValue) -> bool,
    q: spec_fn(JsonValue) -> bool,
)
    requires
        field_set(old, new, key, p),
        forall|x: JsonValue| #[trigger] p(x) ==> q(x),
    ensures
        field_set(old, new, key, q),
{
    match first_key(old, key) {
        Some(i) => {
            assert(q(new[i].1));
        },
        None => {
            assert(q(new[insert_position(old, key)].1));
        },
    }
}

/// The first field named `key` is the one index that holds that name with
/// no earlier field of that name.
proof fn lemma_first_key_at(fs: Seq<(String, JsonValue)>, key: Seq<char>, i: int)
    requires
        0 <= i < fs.len(),
        fs[i].0@ == key,
        forall|j: int| 0 <= j < i ==> fs[j].0@ != key,
    ensures
        first_key(fs, key) == Some(i),
{
    lemma_first_key(fs, key);
    match first_key(fs, key) {
        Some(g) => {
            if g < i {
                assert(fs[g].0@ != key);
            } else if g > i {
                assert(fs[i].0@ != key);
            }
        },
        None => {
            assert(fs[i].0@ != key);
        },
    }
}

/// `field_set` on `key` leaves the value of every other name as it was.
pub proof fn lemma_field_set_other(
    old: Seq<(String, JsonValue)>,
    new: Seq<(String, JsonValue)>,
    key: Seq<char>,
    p: spec_fn(JsonValue) -> bool,
    other: Seq<char>,
)
    requires
        field_set(old, new, key, p),
        other != key,
    ensures
        field_value(new, other) == field_value(old, other),
{
    lemma_first_key(old, key);
    lemma_first_key(old, other);
    lemma_first_key(new, other);
    match first_key(old, key) {
        Some(i) => {
            assert forall|j: int| 0 <= j < old.len() implies old[j].0@ == new[j].0@ by {
                if j == i {
                    assert(old[i].0@ == key);
                }
            }
            lemma_first_key_same_names(old, new, other);
            match first_key(old, other) {
                Some(f) => {
                    assert(f != i);
                },
                None => {},
            }
        },
        None => {
            let k = insert_position(old, key);
            lemma_insert_position_bound(old, key);
            match first_key(old, other) {
                Some(f) => {
                    let g = if f < k { f } else { f + 1 };
                    assert(new[g] == old[f]);
                    assert forall|j: int| 0 <= j < g implies new[j].0@ != other by {
                        if j < k {
                            assert(new[j] == old[j]);
                        } else if j > k {
                            assert(new[j] == old[j - 1]);
                        }
                    }
                    lemma_first_key_at(new, other, g);
                },
                None => {
                    match first_key(new, other) {
                        Some(g) => {
                            if g < k {
                                assert(new[g] == old[g]);
                            } else if g > k {
                                assert(new[g] == old[g - 1]);
                            }
                        },
                        None => {},
                    }
                },
            }
        },
    }
}

} // verus!

//! JSON documents as plain values, and the reading and writing of their
//! object fields: a field is read as `null` where it is missing, and writing
//! one into `null` makes an object.

use vstd::prelude::*;

verus! {

/// A JSON value. Numbers are kept as the integer they are (`UInt` for those
/// above `i64::MAX`) or as the bit pattern of their `f64` value.
#[derive(Debug, PartialEq)]
pub enum JsonValue {
    Null,
    Bool(bool),
    Int(i64),
    UInt(u64),
    Float(u64),
    Str(String),
    Array(Vec<JsonValue>),
    Object(Vec<(String, JsonValue)>),
}

/// The mathematical form of a JSON value.
pub enum Json {
    Null,
    Bool(bool),
    Int(i64),
    UInt(u64),
    Float(u64),
    Str(Seq<char>),
    Array(Seq<Json>),
    Object(Seq<(Seq<char>, Json)>),
}

/// The mathematical form of `v`.
pub open spec fn json(v: JsonValue) -> Json
    decreases v,
{
    match v {
        JsonValue::Null => Json::Null,
        JsonValue::Bool(b) => Json::Bool(b),
        JsonValue::Int(i) => Json::Int(i),
        JsonValue::UInt(u) => Json::UInt(u),
        JsonValue::Float(f) => Json::Float(f),
        JsonValue::Str(s) => Json::Str(s@),
        JsonValue::Array(items) => Json::Array(
            Seq::new(items@.len(), |i: int| if 0 <= i < items@.len() { json(items@[i]) } else { Json::Null }),
        ),
        JsonValue::Object(fields) => Json::Object(
            Seq::new(
                fields@.len(),
                |i: int| if 0 <= i < fields@.len() { (fields@[i].0@, json(fields@[i].1)) } else { (Seq::empty(), Json::Null) },
            ),
        ),
    }
}

/// The mathematical form of the fields of an object.
pub open spec fn jfields(fields: Seq<(String, JsonValue)>) -> Seq<(Seq<char>, Json)> {
    Seq::new(
        fields.len(),
        |i: int| if 0 <= i < fields.len() { (fields[i].0@, json(fields[i].1)) } else { (Seq::empty(), Json::Null) },
    )
}

/// The position of the first field named `k`.
pub open spec fn key_pos(fs: Seq<(Seq<char>, Json)>, k: Seq<char>) -> Option<int>
    decreases fs.len(),
{
    if fs.len() == 0 {
        None
    } else {
        match key_pos(fs.drop_last(), k) {
            Some(i) => Some(i),
            None => if fs.last().0 == k {
                Some(fs.len() - 1)
            } else {
                None
            },
        }
    }
}

/// Whether a field can be read and written through `v`: `v` is an object or `null`.
pub open spec fn indexable(v: Json) -> bool {
    v is Object || v is Null
}

/// The field `k` of `v`; `null` where `v` is no object or has no such field.
pub open spec fn jget(v: Json, k: Seq<char>) -> Json {
    match v {
        Json::Object(fs) => match key_pos(fs, k) {
            Some(i) => fs[i].1,
            None => Json::Null,
        },
        _ => Json::Null,
    }
}

/// `v` with its field `k` set to `x`, added at the end where it is missing;
/// `null` becomes the object of that one field.
pub open spec fn jput(v: Json, k: Seq<char>, x: Json) -> Json {
    match v {
        Json::Object(fs) => match key_pos(fs, k) {
            Some(i) => Json::Object(fs.update(i, (k, x))),
            None => Json::Object(fs.push((k, x))),
        },
        Json::Null => Json::Object(seq![(k, x)]),
        _ => v,
    }
}

/// `v` without its field `k`.
pub open spec fn jremove(v: Json, k: Seq<char>) -> Json {
    match v {
        Json::Object(fs) => match key_pos(fs, k) {
            Some(i) => Json::Object(fs.remove(i)),
            None => v,
        },
        _ => v,
    }
}

/// The number as a 64-bit signed integer, where it is one.
pub open spec fn as_i64(v: Json) -> Option<i64> {
    match v {
        Json::Int(i) => Some(i),
        Json::UInt(u) => if u <= i64::MAX as u64 {
            Some(u as i64)
        } else {
            None
        },
        _ => None,
    }
}

/// `key_pos` finds the first field of the name.
pub proof fn lemma_key_pos(fs: Seq<(Seq<char>, Json)>, k: Seq<char>)
    ensures
        key_pos(fs, k) matches Some(i) ==> 0 <= i < fs.len() && fs[i].0 == k && forall|j: int| 0 <= j < i ==> #[trigger] fs[j].0 != k,
        key_pos(fs, k) is None ==> forall|j: int| 0 <= j < fs.len() ==> #[trigger] fs[j].0 != k,
    decreases fs.len(),
{
    if fs.len() > 0 {
        lemma_key_pos(fs.drop_last(), k);
        assert forall|j: int| 0 <= j < fs.len() - 1 implies #[trigger] fs[j] == fs.drop_last()[j] by {}
    }
}

/// Two fields of one name: the first one counts.
pub proof fn lemma_key_pos_at(fs: Seq<(Seq<char>, Json)>, k: Seq<char>, i: int)
    requires
        0 <= i < fs.len(),
        fs[i].0 == k,
        forall|j: int| 0 <= j < i ==> #[trigger] fs[j].0 != k,
    ensures
        key_pos(fs, k) == Some(i),
{
    lemma_key_pos(fs, k);
}

/// No field of the name.
pub proof fn lemma_key_pos_none(fs: Seq<(Seq<char>, Json)>, k: Seq<char>)
    requires
        forall|j: int| 0 <= j < fs.len() ==> #[trigger] fs[j].0 != k,
    ensures
        key_pos(fs, k) is None,
{
    lemma_key_pos(fs, k);
}

/// Setting a field twice keeps the second value.
pub proof fn lemma_put_put(v: Json, k: Seq<char>, a: Json, b: Json)
    requires
        indexable(v),
    ensures
        jput(jput(v, k, a), k, b) == jput(v, k, b),
{
    match v {
        Json::Object(fs) => {
            lemma_key_pos(fs, k);
            match key_pos(fs, k) {
                Some(i) => {
                    let f1 = fs.update(i, (k, a));
                    lemma_key_pos_at(f1, k, i);
                    assert(f1.update(i, (k, b)) =~= fs.update(i, (k, b)));
                },
                None => {
                    let f1 = fs.push((k, a));
                    assert forall|j: int| 0 <= j < fs.len() implies #[trigger] f1[j].0 != k by {
                        assert(f1[j] == fs[j]);
                    }
                    lemma_key_pos_at(f1, k, fs.len() as int);
                    assert(f1.update(fs.len() as int, (k, b)) =~= fs.push((k, b)));
                },
            }
        },
        _ => {
            let f1 = seq![(k, a)];
            lemma_key_pos_at(f1, k, 0);
            assert(f1.update(0, (k, b)) =~= seq![(k, b)]);
        },
    }
}

/// Setting one field leaves the others as they were.
pub proof fn lemma_get_put_other(v: Json, k: Seq<char>, x: Json, other: Seq<char>)
    requires
        indexable(v),
        k != other,
    ensures
        jget(jput(v, k, x), other) == jget(v, other),
{
    match v {
        Json::Object(fs) => {
            lemma_key_pos(fs, k);
            lemma_key_pos(fs, other);
            let f1 = jput(v, k, x)->Object_0;
            match key_pos(fs, other) {
                Some(i) => {
                    assert forall|j: int| 0 <= j < i implies #[trigger] f1[j].0 != other by {
                        assert(f1[j].0 == fs[j].0 || f1[j].0 == k);
                    }
                    assert(f1[i] == fs[i]);
                    lemma_key_pos_at(f1, other, i);
                },
                None => {
                    assert forall|j: int| 0 <= j < f1.len() implies #[trigger] f1[j].0 != other by {
                        if j < fs.len() {
                            assert(f1[j].0 == fs[j].0 || f1[j].0 == k);
                        }
                    }
                    lemma_key_pos_none(f1, other);
                },
            }
        },
        _ => {
            let f1 = seq![(k, x)];
            assert forall|j: int| 0 <= j < f1.len() implies #[trigger] f1[j].0 != other by {}
            lemma_key_pos_none(f1, other);
        },
    }
}

/// Reading the field just set.
pub proof fn lemma_get_put_same(v: Json, k: Seq<char>, x: Json)
    requires
        indexable(v),
    ensures
        jget(jput(v, k, x), k) == x,
{
    match v {
        Json::Object(fs) => {
            lemma_key_pos(fs, k);
            match key_pos(fs, k) {
                Some(i) => {
                    lemma_key_pos_at(fs.update(i, (k, x)), k, i);
                },
                None => {
                    let f1 = fs.push((k, x));
                    assert forall|j: int| 0 <= j < fs.len() implies #[trigger] f1[j].0 != k by {
                        assert(f1[j] == fs[j]);
                    }
                    lemma_key_pos_at(f1, k, fs.len() as int);
                },
            }
        },
        _ => {
            lemma_key_pos_at(seq![(k, x)], k, 0);
        },
    }
}

/// The field list of an object, read through its mathematical form.
proof fn lemma_object_fields(fields: Vec<(String, JsonValue)>)
    ensures
        json(JsonValue::Object(fields)) == Json::Object(jfields(fields@)),
{
    assert(json(JsonValue::Object(fields))->Object_0 =~= jfields(fields@));
}

/// The position of the first field named `key`.
fn field_index(fields: &Vec<(String, JsonValue)>, key: &String) -> (r: Option<usize>)
    ensures
        r matches Some(i) ==> i < fields@.len() && key_pos(jfields(fields@), key@) == Some(i as int),
        r is None ==> key_pos(jfields(fields@), key@) is None,
{
    let ghost fs = jfields(fields@);
    let mut i: usize = 0;
    while i < fields.len()
        invariant
            i <= fields@.len(),
            fs == jfields(fields@),
            forall|j: int| 0 <= j < i ==> #[trigger] fs[j].0 != key@,
        decreases fields.len() - i,
    {
        if fields[i].0 == *key {
            proof {
                lemma_key_pos_at(fs, key@, i as int);
            }
            return Some(i);
        }
        i += 1;
    }
    proof {
        lemma_key_pos_none(fs, key@);
    }
    None
}

impl JsonValue {
    /// The field `key`, where `self` is an object that has it.
    pub fn field(&self, key: &String) -> (r: Option<&JsonValue>)
        ensures
            r matches Some(x) ==> json(*x) == jget(json(*self), key@),
            r is None ==> jget(json(*self), key@) == Json::Null,
    {
        match self {
            JsonValue::Object(fields) => {
                proof {
                    lemma_object_fields(*fields);
                }
                match field_index(fields, key) {
                    Some(i) => Some(&fields[i].1),
                    None => None,
                }
            },
            _ => None,
        }
    }

    /// The field `key` as a 64-bit signed integer, where it is one.
    pub fn field_i64(&self, key: &String) -> (r: Option<i64>)
        ensures
            r == as_i64(jget(json(*self), key@)),
    {
        match self.field(key) {
            Some(JsonValue::Int(i)) => Some(*i),
            Some(JsonValue::UInt(u)) => if *u <= 0x7fff_ffff_ffff_ffffu64 {
                Some(*u as i64)
            } else {
                None
            },
            _ => None,
        }
    }

    /// Whether the field `key` reads as `null`.
    pub fn field_is_null(&self, key: &String) -> (r: bool)
        ensures
            r == (jget(json(*self), key@) is Null),
    {
        match self.field(key) {
            Some(JsonValue::Null) => true,
            Some(_) => false,
            None => true,
        }
    }

    /// Whether `self` is an object or `null`.
    pub fn is_indexable(&self) -> (r: bool)
        ensures
            r == indexable(json(*self)),
    {
        match self {
            JsonValue::Object(_) => true,
            JsonValue::Null => true,
            _ => false,
        }
    }

    /// Whether `self` is an object.
    pub fn is_object(&self) -> (r: bool)
        ensures
            r == (json(*self) is Object),
    {
        match self {
            JsonValue::Object(_) => true,
            _ => false,
        }
    }
}

/// Set the field `key` of `v` to `x`.
pub fn put_field(v: JsonValue, key: &String, x: JsonValue) -> (r: JsonValue)
    requires
        indexable(json(v)),
    ensures
        json(r) == jput(json(v), key@, json(x)),
{
    let ghost jx = json(x);
    match v {
        JsonValue::Object(fields) => {
            proof {
                lemma_object_fields(fields);
            }
            let mut fields = fields;
            let ghost before = fields@;
            match field_index(&fields, key) {
                Some(i) => {
                    let _ = fields.remove(i);
                    fields.insert(i, (key.clone(), x));
                    proof {
                        assert(fields@ =~= before.update(i as int, fields@[i as int]));
                        assert(jfields(fields@) =~= jfields(before).update(i as int, (key@, jx)));
                        lemma_object_fields(fields);
                    }
                    JsonValue::Object(fields)
                },
                None => {
                    fields.push((key.clone(), x));
                    proof {
                        assert(jfields(fields@) =~= jfields(before).push((key@, jx)));
                        lemma_object_fields(fields);
                    }
                    JsonValue::Object(fields)
                },
            }
        },
        _ => {
            let fields = vec![(key.clone(), x)];
            proof {
                assert(jfields(fields@) =~= seq![(key@, jx)]);
                lemma_object_fields(fields);
            }
            JsonValue::Object(fields)
        },
    }
}

/// Take the field `key` out of `v`, leaving `null` in its place.
pub fn take_field(v: JsonValue, key: &String) -> (r: (JsonValue, JsonValue))
    requires
        indexable(json(v)),
    ensures
        json(r.0) == jput(json(v), key@, Json::Null),
        json(r.1) == jget(json(v), key@),
{
    match v {
        JsonValue::Object(fields) => {
            proof {
                lemma_object_fields(fields);
            }
            let mut fields = fields;
            let ghost before = fields@;
            match field_index(&fields, key) {
                Some(i) => {
                    let (_, x) = fields.remove(i);
                    fields.insert(i, (key.clone(), JsonValue::Null));
                    proof {
                        assert(x == before[i as int].1);
                        assert(fields@ =~= before.update(i as int, fields@[i as int]));
                        assert(jfields(fields@) =~= jfields(before).update(i as int, (key@, Json::Null)));
                        lemma_object_fields(fields);
                    }
                    (JsonValue::Object(fields), x)
                },
                None => {
                    fields.push((key.clone(), JsonValue::Null));
                    proof {
                        assert(jfields(fields@) =~= jfields(before).push((key@, Json::Null)));
                        lemma_object_fields(fields);
                    }
                    (JsonValue::Object(fields), JsonValue::Null)
                },
            }
        },
        _ => {
            let fields = vec![(key.clone(), JsonValue::Null)];
            proof {
                assert(jfields(fields@) =~= seq![(key@, Json::Null)]);
                lemma_object_fields(fields);
            }
            (JsonValue::Object(fields), JsonValue::Null)
        },
    }
}

/// `v` without its field `key`.
pub fn remove_field(v: JsonValue, key: &String) -> (r: JsonValue)
    ensures
        json(r) == jremove(json(v), key@),
{
    match v {
        JsonValue::Object(fields) => {
            proof {
                lemma_object_fields(fields);
            }
            let mut fields = fields;
            let ghost before = fields@;
            match field_index(&fields, key) {
                Some(i) => {
                    let _ = fields.remove(i);
                    proof {
                        assert(jfields(fields@) =~= jfields(before).remove(i as int));
                        lemma_object_fields(fields);
                    }
                    JsonValue::Object(fields)
                },
                None => JsonValue::Object(fields),
            }
        },
        _ => v,
    }
}

} // verus!

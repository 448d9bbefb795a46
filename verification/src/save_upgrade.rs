//! Bringing a save, as a JSON document, up to a newer format version, one
//! version at a time.

use vstd::prelude::*;
use crate::json::{
    lemma_get_put_same, as_i64, indexable, jget, jput, jremove, json, key_pos, lemma_get_put_other, lemma_key_pos, lemma_put_put, put_field, remove_field,
    take_field, Json, JsonValue,
};

verus! {

/// The mathematical form of a list of values.
pub open spec fn jitems(items: Seq<JsonValue>) -> Seq<Json> {
    Seq::new(items.len(), |i: int| if 0 <= i < items.len() { json(items[i]) } else { Json::Null })
}

/// The array field `k` of the object `n` with each item `x` replaced by `f(x)`.
pub open spec fn map_items(v: Json, f: spec_fn(Json) -> Json) -> Json {
    match v {
        Json::Array(items) => Json::Array(items.map_values(f)),
        _ => v,
    }
}

/// Each item of the array `v` (if it is one) satisfies `p`.
pub open spec fn all_items(v: Json, p: spec_fn(Json) -> bool) -> bool {
    match v {
        Json::Array(items) => forall|i: int| 0 <= i < items.len() ==> p(#[trigger] items[i]),
        _ => true,
    }
}

/// A crafting node (kind 0) gets `"built": false`.
pub open spec fn built_set(n: Json) -> Json {
    if as_i64(jget(n, "kind"@)) == Some(0i64) {
        jput(n, "built"@, Json::Bool(false))
    } else {
        n
    }
}

/// The items of the array field `k` of `n`, read through the field list.
pub open spec fn children(n: Json, k: Seq<char>) -> Option<Seq<Json>> {
    match n {
        Json::Object(fs) => match key_pos(fs, k) {
            Some(p) => if 0 <= p < fs.len() {
                match fs[p].1 {
                    Json::Array(cs) => Some(cs),
                    _ => None,
                }
            } else {
                None
            },
            None => None,
        },
        _ => None,
    }
}

/// `built_set` on a node and, through its `"nodes"` field, on the nodes it
/// holds, at any depth; each of these gets a `"nodes"` field (`null` where
/// it had none).
pub open spec fn built_deep(n: Json) -> Json
    decreases n,
{
    jput(
        built_set(n),
        "nodes"@,
        match children(n, "nodes"@) {
            Some(cs) => Json::Array(built_all(cs)),
            None => jget(n, "nodes"@),
        },
    )
}

/// `built_deep` on each node of a list.
pub open spec fn built_all(cs: Seq<Json>) -> Seq<Json>
    decreases cs,
{
    Seq::new(cs.len(), |i: int| if 0 <= i < cs.len() { built_deep(cs[i]) } else { Json::Null })
}

/// `built_deep` can run on `n`: it and the nodes it holds are objects or `null`.
pub open spec fn built_ok(n: Json) -> bool
    decreases n,
{
    &&& indexable(n)
    &&& match children(n, "nodes"@) {
        Some(cs) => forall|i: int| 0 <= i < cs.len() ==> built_ok(#[trigger] cs[i]),
        None => true,
    }
}

/// The kinds of splitters, mergers and sinks, as the unlocking step reads them.
pub open spec fn pin_kind(k: Option<i64>) -> bool {
    k == Some(1i64) || k == Some(2i64) || k == Some(4i64) || k == Some(5i64)
}

/// A pin gets `"locked": false`.
pub open spec fn pin_unlocked(p: Json) -> Json {
    jput(p, "locked"@, Json::Bool(false))
}

/// The pins in the `"ins"` and `"outs"` arrays get `"locked": false`.
pub open spec fn pins_unlocked(n: Json) -> Json {
    let n1 = jput(n, "ins"@, map_items(jget(n, "ins"@), |p: Json| pin_unlocked(p)));
    jput(n1, "outs"@, map_items(jget(n1, "outs"@), |p: Json| pin_unlocked(p)))
}

/// `pins_unlocked` can run on `n`: its pins are objects or `null`.
pub open spec fn pins_ok(n: Json) -> bool {
    let n1 = jput(n, "ins"@, map_items(jget(n, "ins"@), |p: Json| pin_unlocked(p)));
    &&& all_items(jget(n, "ins"@), |p: Json| indexable(p))
    &&& all_items(jget(n1, "outs"@), |p: Json| indexable(p))
}

/// Unlocking inside a group: the pins of splitters, mergers and sinks, and
/// through a group (kind 3), the nodes it holds.
pub open spec fn unlocked_deep(n: Json) -> Json
    decreases n,
{
    let kind = as_i64(jget(n, "kind"@));
    if pin_kind(kind) {
        pins_unlocked(n)
    } else if kind == Some(3i64) {
        jput(
            n,
            "nodes"@,
            match children(n, "nodes"@) {
                Some(cs) => Json::Array(unlocked_all(cs)),
                None => jget(n, "nodes"@),
            },
        )
    } else {
        n
    }
}

/// `unlocked_deep` on each node of a list.
pub open spec fn unlocked_all(cs: Seq<Json>) -> Seq<Json>
    decreases cs,
{
    Seq::new(cs.len(), |i: int| if 0 <= i < cs.len() { unlocked_deep(cs[i]) } else { Json::Null })
}

/// `unlocked_deep` can run on `n`.
pub open spec fn unlock_ok(n: Json) -> bool
    decreases n,
{
    let kind = as_i64(jget(n, "kind"@));
    if pin_kind(kind) {
        pins_ok(n)
    } else if kind == Some(3i64) {
        match children(n, "nodes"@) {
            Some(cs) => forall|i: int| 0 <= i < cs.len() ==> unlock_ok(#[trigger] cs[i]),
            None => true,
        }
    } else {
        true
    }
}

/// Unlocking a top-level node: crafting nodes (kind 0) and groups (kind 3)
/// get `"locked": false`, and the latter have the nodes they hold unlocked;
/// splitters, mergers and sinks get their pins unlocked.
pub open spec fn top_unlocked(n: Json) -> Json {
    let kind = as_i64(jget(n, "kind"@));
    if kind == Some(0i64) {
        jput(n, "locked"@, Json::Bool(false))
    } else if kind == Some(3i64) {
        let n1 = jput(n, "locked"@, Json::Bool(false));
        jput(n1, "nodes"@, map_items(jget(n1, "nodes"@), |c: Json| unlocked_deep(c)))
    } else if pin_kind(kind) {
        pins_unlocked(n)
    } else {
        n
    }
}

/// `top_unlocked` can run on `n`.
pub open spec fn top_unlock_ok(n: Json) -> bool {
    let kind = as_i64(jget(n, "kind"@));
    if kind == Some(3i64) {
        all_items(jget(jput(n, "locked"@, Json::Bool(false)), "nodes"@), |c: Json| unlock_ok(c))
    } else if pin_kind(kind) {
        pins_ok(n)
    } else {
        true
    }
}

/// An object (or `null`) without `"is_out"`.
pub open spec fn without_is_out(v: Json) -> Json {
    if v is Object {
        jremove(v, "is_out"@)
    } else {
        v
    }
}

/// A link whose ends no longer say whether they are outputs.
pub open spec fn link_fixed(l: Json) -> Json {
    let l1 = jput(l, "start"@, without_is_out(jget(l, "start"@)));
    jput(l1, "end"@, without_is_out(jget(l1, "end"@)))
}

/// A node without a somersloop count gets a count of zero.
pub open spec fn somersloop_added(n: Json) -> Json {
    if jget(n, "num_somersloop"@) is Null {
        jput(n, "num_somersloop"@, Json::Int(0))
    } else {
        n
    }
}

/// The field that an upgrade step edits.
pub open spec fn step_field(step: int) -> Seq<char> {
    if step == 1 {
        "links"@
    } else {
        "nodes"@
    }
}

/// What an upgrade step does to each item of its field.
pub open spec fn step_item(step: int, x: Json) -> Json {
    if step == 1 {
        link_fixed(x)
    } else if step == 2 {
        somersloop_added(x)
    } else if step == 3 {
        built_deep(x)
    } else {
        top_unlocked(x)
    }
}

/// The step can edit the item.
pub open spec fn step_item_ok(step: int, x: Json) -> bool {
    if step == 1 {
        indexable(x)
    } else if step == 2 {
        jget(x, "num_somersloop"@) is Null ==> indexable(x)
    } else if step == 3 {
        built_ok(x)
    } else {
        top_unlock_ok(x)
    }
}

/// The save after the upgrade step from version `step` to `step + 1`: the
/// items of its field are edited, and `"save_version"` becomes `step + 1`.
/// Version 1 to 2 takes `"is_out"` from the ends of the links; 2 to 3 gives
/// nodes a somersloop count; 3 to 4 marks crafting nodes as not built; 4 to
/// 5 unlocks nodes and pins.
pub open spec fn step_result(step: int, save: Json) -> Json {
    let k = step_field(step);
    let s1 = jput(save, k, map_items(jget(save, k), |x: Json| step_item(step, x)));
    jput(s1, "save_version"@, Json::Int((step + 1) as i64))
}

/// The step can run on the save.
pub open spec fn step_ok(step: int, save: Json) -> bool {
    &&& indexable(save)
    &&& all_items(jget(save, step_field(step)), |x: Json| step_item_ok(step, x))
}

/// The version a save says it has; 1 where it says none.
pub open spec fn start_version(save: Json) -> int {
    match as_i64(jget(save, "save_version"@)) {
        Some(v) => v as int,
        None => 1,
    }
}

/// The save brought from version `cur` to `to`, and whether `to` was
/// reached: there is no going back, and no step from a version outside 1 to 4.
pub open spec fn upgraded(save: Json, cur: int, to: int) -> (Json, bool)
    decreases to - cur,
{
    if cur == to {
        (save, true)
    } else if cur > to {
        (save, false)
    } else if 1 <= cur <= 4 {
        upgraded(step_result(cur, save), cur + 1, to)
    } else {
        (save, false)
    }
}

/// Each step of the upgrade can run.
pub open spec fn upgrade_ok(save: Json, cur: int, to: int) -> bool
    decreases to - cur,
{
    if cur < to && 1 <= cur <= 4 {
        step_ok(cur, save) && upgrade_ok(step_result(cur, save), cur + 1, to)
    } else {
        true
    }
}

/// The edits that the upgrade steps make to the items of an array.
#[derive(Clone, Copy)]
enum Edit {
    Link,
    Somersloop,
    Built,
    TopUnlock,
    Unlock,
    PinUnlock,
}

spec fn edited(e: Edit, x: Json) -> Json {
    match e {
        Edit::Link => link_fixed(x),
        Edit::Somersloop => somersloop_added(x),
        Edit::Built => built_deep(x),
        Edit::TopUnlock => top_unlocked(x),
        Edit::Unlock => unlocked_deep(x),
        Edit::PinUnlock => pin_unlocked(x),
    }
}

spec fn edit_ok(e: Edit, x: Json) -> bool {
    match e {
        Edit::Link => indexable(x),
        Edit::Somersloop => jget(x, "num_somersloop"@) is Null ==> indexable(x),
        Edit::Built => built_ok(x),
        Edit::TopUnlock => top_unlock_ok(x),
        Edit::Unlock => unlock_ok(x),
        Edit::PinUnlock => indexable(x),
    }
}

proof fn lemma_array_items(list: Vec<JsonValue>)
    ensures
        json(JsonValue::Array(list)) == Json::Array(jitems(list@)),
{
    assert(json(JsonValue::Array(list))->Array_0 =~= jitems(list@));
}

/// Where the field `k` of `n` is an array, it is `children(n, k)`, which `n`
/// decreases to.
proof fn lemma_children(n: Json, k: Seq<char>)
    ensures
        children(n, k) matches Some(cs) ==> jget(n, k) == Json::Array(cs) && decreases_to!(n => Json::Array(cs)),
        children(n, k) is None ==> !(jget(n, k) is Array),
{
    match n {
        Json::Object(fs) => {
            lemma_key_pos(fs, k);
            match key_pos(fs, k) {
                Some(p) => {
                    assert(decreases_to!(n => fs));
                    assert(decreases_to!(fs => fs[p]));
                    assert(decreases_to!(fs[p] => fs[p].1));
                },
                None => {},
            }
        },
        _ => {},
    }
}

proof fn lemma_keys_differ()
    ensures
        "built"@ != "nodes"@,
        "locked"@ != "nodes"@,
        "ins"@ != "outs"@,
        "start"@ != "end"@,
{
    reveal_strlit("built");
    reveal_strlit("nodes");
    reveal_strlit("locked");
    reveal_strlit("ins");
    reveal_strlit("outs");
    reveal_strlit("start");
    reveal_strlit("end");
    assert("built"@[0] != "nodes"@[0]);
    assert("locked"@.len() != "nodes"@.len());
    assert("ins"@.len() != "outs"@.len());
    assert("start"@.len() != "end"@.len());
}

/// The edit of each item of the list; `None` where an item cannot take it.
fn edit_all(e: Edit, list: Vec<JsonValue>, Ghost(whole): Ghost<Seq<Json>>) -> (r: Option<Vec<JsonValue>>)
    requires
        whole == jitems(list@),
    ensures
        r is Some <==> forall|i: int| 0 <= i < list@.len() ==> edit_ok(e, #[trigger] jitems(list@)[i]),
        r matches Some(out) ==> jitems(out@) == jitems(list@).map_values(|x: Json| edited(e, x)),
    decreases Json::Array(whole), 2int,
{
    let ghost orig = list@;
    let ghost js = jitems(orig);
    let mut rest = list;
    let mut out: Vec<JsonValue> = Vec::new();
    while rest.len() > 0
        invariant
            out@.len() + rest@.len() == orig.len(),
            rest@ == orig.subrange(out@.len() as int, orig.len() as int),
            js == jitems(orig),
            js == whole,
            whole == jitems(list@),
            orig == list@,
            forall|i: int| 0 <= i < out@.len() ==> edit_ok(e, #[trigger] js[i]) && json(out@[i]) == edited(e, js[i]),
        decreases rest.len(),
    {
        let ghost k = out@.len() as int;
        let x = rest.remove(0);
        proof {
            assert(x == orig[k]);
            assert(js[k] == json(x));
            let a = Json::Array(js);
            assert(decreases_to!(a => a->Array_0));
            assert(decreases_to!(js => js[k]));
        }
        match edit(e, x) {
            Some(y) => {
                out.push(y);
            },
            None => {
                proof {
                    assert(!edit_ok(e, jitems(list@)[k]));
                }
                return None;
            },
        }
    }
    proof {
        assert(jitems(out@) =~= js.map_values(|x: Json| edited(e, x)));
    }
    Some(out)
}

/// The array `list` edited, as the new value of a field.
proof fn lemma_field_edited(e: Edit, list: Vec<JsonValue>, out: Vec<JsonValue>)
    requires
        jitems(out@) == jitems(list@).map_values(|x: Json| edited(e, x)),
    ensures
        json(JsonValue::Array(out)) == map_items(json(JsonValue::Array(list)), |x: Json| edited(e, x)),
{
    lemma_array_items(list);
    lemma_array_items(out);
}

/// The pins of a splitter, merger or sink unlocked; `None` where a pin is
/// neither an object nor `null`.
fn unlock_pins(v: JsonValue) -> (r: Option<JsonValue>)
    requires
        json(v) is Object,
    ensures
        r is Some <==> pins_ok(json(v)),
        r matches Some(x) ==> json(x) == pins_unlocked(json(v)),
    decreases json(v), 0int,
{
    let ghost jv = json(v);
    proof {
        lemma_keys_differ();
        lemma_children(jv, "ins"@);
        lemma_children(jv, "outs"@);
    }
    let ins = "ins".to_owned();
    let outs = "outs".to_owned();
    let (v1, pins) = take_field(v, &ins);
    let pins2 = match pins {
        JsonValue::Array(list) => {
            proof {
                lemma_array_items(list);
            }
            match edit_all(Edit::PinUnlock, list, Ghost(jitems(list@))) {
                Some(out) => {
                    proof {
                        lemma_field_edited(Edit::PinUnlock, list, out);
                        assert(jitems(out@) =~= jitems(list@).map_values(|p: Json| pin_unlocked(p)));
                        lemma_array_items(out);
                    }
                    JsonValue::Array(out)
                },
                None => {
                    return None;
                },
            }
        },
        other => other,
    };
    let v2 = put_field(v1, &ins, pins2);
    let ghost j2 = json(v2);
    proof {
        lemma_put_put(jv, "ins"@, Json::Null, json(pins2));
        lemma_get_put_other(jv, "ins"@, json(pins2), "outs"@);
    }
    let (v3, pins3) = take_field(v2, &outs);
    let pins4 = match pins3 {
        JsonValue::Array(list) => {
            proof {
                lemma_array_items(list);
            }
            match edit_all(Edit::PinUnlock, list, Ghost(jitems(list@))) {
                Some(out) => {
                    proof {
                        assert(jitems(out@) =~= jitems(list@).map_values(|p: Json| pin_unlocked(p)));
                        lemma_array_items(out);
                    }
                    JsonValue::Array(out)
                },
                None => {
                    return None;
                },
            }
        },
        other => other,
    };
    let r = put_field(v3, &outs, pins4);
    proof {
        lemma_put_put(j2, "outs"@, Json::Null, json(pins4));
    }
    Some(r)
}

/// Whether a kind is one of splitters, mergers and sinks, a group, a crafting node.
fn kind_class(kind: Option<i64>) -> (r: (bool, bool, bool))
    ensures
        r.0 == pin_kind(kind),
        r.1 == (kind == Some(3i64)),
        r.2 == (kind == Some(0i64)),
{
    match kind {
        Some(k) => (k == 1 || k == 2 || k == 4 || k == 5, k == 3, k == 0),
        None => (false, false, false),
    }
}

/// The edit of one value; `None` where it cannot take it.
fn edit(e: Edit, v: JsonValue) -> (r: Option<JsonValue>)
    ensures
        r is Some <==> edit_ok(e, json(v)),
        r matches Some(x) ==> json(x) == edited(e, json(v)),
    decreases json(v), 1int,
{
    let ghost jv = json(v);
    proof {
        lemma_keys_differ();
    }
    match e {
        Edit::Link => {
            if !v.is_indexable() {
                return None;
            }
            let start = "start".to_owned();
            let end = "end".to_owned();
            let is_out = "is_out".to_owned();
            let (v1, s) = take_field(v, &start);
            let s2 = if s.is_object() { remove_field(s, &is_out) } else { s };
            let v2 = put_field(v1, &start, s2);
            proof {
                lemma_put_put(jv, "start"@, Json::Null, json(s2));
            }
            let ghost j2 = json(v2);
            let (v3, t) = take_field(v2, &end);
            let t2 = if t.is_object() { remove_field(t, &is_out) } else { t };
            let v4 = put_field(v3, &end, t2);
            proof {
                lemma_put_put(j2, "end"@, Json::Null, json(t2));
                assert(json(v4) == link_fixed(jv));
            }
            Some(v4)
        },
        Edit::Somersloop => {
            let key = "num_somersloop".to_owned();
            if v.field_is_null(&key) {
                if !v.is_indexable() {
                    return None;
                }
                Some(put_field(v, &key, JsonValue::Int(0)))
            } else {
                Some(v)
            }
        },
        Edit::PinUnlock => {
            if !v.is_indexable() {
                return None;
            }
            Some(put_field(v, &"locked".to_owned(), JsonValue::Bool(false)))
        },
        Edit::Built => {
            if !v.is_indexable() {
                return None;
            }
            let nodes = "nodes".to_owned();
            let v1 = match v.field_i64(&"kind".to_owned()) {
                Some(0) => put_field(v, &"built".to_owned(), JsonValue::Bool(false)),
                _ => v,
            };
            let ghost j1 = json(v1);
            assert(j1 == built_set(jv));
            proof {
                lemma_children(jv, "nodes"@);
                if j1 != jv {
                    lemma_get_put_other(jv, "built"@, Json::Bool(false), "nodes"@);
                }
            }
            let (v2, kids) = take_field(v1, &nodes);
            match kids {
                JsonValue::Array(list) => {
                    proof {
                        lemma_array_items(list);
                    }
                    match edit_all(Edit::Built, list, Ghost(jitems(list@))) {
                        Some(out) => {
                            let r = put_field(v2, &nodes, JsonValue::Array(out));
                            proof {
                                lemma_array_items(out);
                                lemma_put_put(j1, "nodes"@, Json::Null, json(JsonValue::Array(out)));
                                let cs = jitems(list@);
                                assert(jitems(out@) =~= built_all(cs));
                            }
                            Some(r)
                        },
                        None => None,
                    }
                },
                other => {
                    let r = put_field(v2, &nodes, other);
                    proof {
                        lemma_put_put(j1, "nodes"@, Json::Null, json(other));
                    }
                    Some(r)
                },
            }
        },
        Edit::Unlock => {
            let (is_pin, is_group, _) = kind_class(v.field_i64(&"kind".to_owned()));
            if is_pin {
                unlock_pins(v)
            } else if is_group {
                let nodes = "nodes".to_owned();
                proof {
                    lemma_children(jv, "nodes"@);
                }
                let (v2, kids) = take_field(v, &nodes);
                match kids {
                    JsonValue::Array(list) => {
                        proof {
                            lemma_array_items(list);
                        }
                        match edit_all(Edit::Unlock, list, Ghost(jitems(list@))) {
                            Some(out) => {
                                let r = put_field(v2, &nodes, JsonValue::Array(out));
                                proof {
                                    lemma_array_items(out);
                                    lemma_put_put(jv, "nodes"@, Json::Null, json(JsonValue::Array(out)));
                                    let cs = jitems(list@);
                                    assert(jitems(out@) =~= unlocked_all(cs));
                                }
                                Some(r)
                            },
                            None => None,
                        }
                    },
                    other => {
                        let r = put_field(v2, &nodes, other);
                        proof {
                            lemma_put_put(jv, "nodes"@, Json::Null, json(other));
                        }
                        Some(r)
                    },
                }
            } else {
                Some(v)
            }
        },
        Edit::TopUnlock => {
            let (is_pin, is_group, is_craft) = kind_class(v.field_i64(&"kind".to_owned()));
            if is_craft {
                Some(put_field(v, &"locked".to_owned(), JsonValue::Bool(false)))
            } else if is_group {
                let nodes = "nodes".to_owned();
                let v1 = put_field(v, &"locked".to_owned(), JsonValue::Bool(false));
                let ghost j1 = json(v1);
                proof {
                    lemma_children(jv, "nodes"@);
                    lemma_get_put_other(jv, "locked"@, Json::Bool(false), "nodes"@);
                }
                let (v2, kids) = take_field(v1, &nodes);
                match kids {
                    JsonValue::Array(list) => {
                        proof {
                            lemma_array_items(list);
                        }
                        match edit_all(Edit::Unlock, list, Ghost(jitems(list@))) {
                            Some(out) => {
                                let r = put_field(v2, &nodes, JsonValue::Array(out));
                                proof {
                                    lemma_array_items(out);
                                    lemma_put_put(j1, "nodes"@, Json::Null, json(JsonValue::Array(out)));
                                    assert(jitems(out@) =~= jitems(list@).map_values(|c: Json| unlocked_deep(c)));
                                }
                                Some(r)
                            },
                            None => None,
                        }
                    },
                    other => {
                        let r = put_field(v2, &nodes, other);
                        proof {
                            lemma_put_put(j1, "nodes"@, Json::Null, json(other));
                        }
                        Some(r)
                    },
                }
            } else if is_pin {
                unlock_pins(v)
            } else {
                Some(v)
            }
        },
    }
}

/// The edit that a step makes to each item of its field.
fn step_edit(step: i64) -> (e: Edit)
    requires
        1 <= step <= 4,
    ensures
        forall|x: Json| #[trigger] edited(e, x) == step_item(step as int, x),
        forall|x: Json| #[trigger] edit_ok(e, x) == step_item_ok(step as int, x),
{
    if step == 1 {
        Edit::Link
    } else if step == 2 {
        Edit::Somersloop
    } else if step == 3 {
        Edit::Built
    } else {
        Edit::TopUnlock
    }
}

/// The upgrade step from version `step`; `None` where the save cannot take it.
fn run_step(step: i64, save: JsonValue) -> (r: Option<JsonValue>)
    requires
        1 <= step <= 4,
    ensures
        r is Some <==> step_ok(step as int, json(save)),
        r matches Some(x) ==> json(x) == step_result(step as int, json(save)),
{
    let ghost js = json(save);
    if !save.is_indexable() {
        return None;
    }
    let key = if step == 1 { "links".to_owned() } else { "nodes".to_owned() };
    let e = step_edit(step);
    let (s1, field) = take_field(save, &key);
    let field2 = match field {
        JsonValue::Array(list) => {
            proof {
                lemma_array_items(list);
            }
            match edit_all(e, list, Ghost(jitems(list@))) {
                Some(out) => {
                    proof {
                        lemma_array_items(out);
                        assert(jitems(out@) =~= jitems(list@).map_values(|x: Json| step_item(step as int, x)));
                        assert(forall|i: int| 0 <= i < list@.len() ==> #[trigger] step_item_ok(step as int, jitems(list@)[i]));
                    }
                    JsonValue::Array(out)
                },
                None => {
                    proof {
                        let k = choose|i: int| 0 <= i < list@.len() && !edit_ok(e, #[trigger] jitems(list@)[i]);
                        assert(!step_item_ok(step as int, jitems(list@)[k]));
                    }
                    return None;
                },
            }
        },
        other => other,
    };
    let s2 = put_field(s1, &key, field2);
    proof {
        lemma_put_put(js, key@, Json::Null, json(field2));
    }
    Some(put_field(s2, &"save_version".to_owned(), JsonValue::Int(step + 1)))
}

/// The save brought up to version `to_version`, and whether that version was
/// reached; `None` where a step meets a node, link or pin that is neither an
/// object nor `null`.
pub fn try_update_save(save: JsonValue, to_version: i64) -> (r: Option<(JsonValue, bool)>)
    ensures
        r is Some <==> upgrade_ok(json(save), start_version(json(save)), to_version as int),
        r matches Some((x, ok)) ==> (json(x), ok) == upgraded(json(save), start_version(json(save)), to_version as int),
{
    let ghost js = json(save);
    let ghost start = start_version(js);
    let mut cur: i64 = match save.field_i64(&"save_version".to_owned()) {
        Some(v) => v,
        None => 1,
    };
    let mut doc = save;
    while cur != to_version && cur < to_version && 1 <= cur && cur <= 4
        invariant
            js == json(save),
            start == start_version(js),
            upgrade_ok(js, start, to_version as int) == upgrade_ok(json(doc), cur as int, to_version as int),
            upgraded(js, start, to_version as int) == upgraded(json(doc), cur as int, to_version as int),
        decreases to_version - cur,
    {
        let ghost before = json(doc);
        match run_step(cur, doc) {
            Some(next) => {
                doc = next;
            },
            None => {
                assert(!upgrade_ok(before, cur as int, to_version as int));
                return None;
            },
        }
        cur = cur + 1;
    }
    Some((doc, cur == to_version))
}

/// Update a save to the version `to_version`, one version at a time, and
/// say whether that version was reached (a save is never brought back).
pub fn update_save(save: &mut JsonValue, to_version: i64) -> (r: bool)
    requires
        upgrade_ok(json(*old(save)), start_version(json(*old(save))), to_version as int),
    ensures
        (json(*final(save)), r) == upgraded(json(*old(save)), start_version(json(*old(save))), to_version as int),
{
    let mut v = JsonValue::Null;
    std::mem::swap(&mut v, save);
    match try_update_save(v, to_version) {
        Some((x, ok)) => {
            *save = x;
            ok
        },
        None => false,
    }
}

/// A save at the target version is left as it is, a save past it is not
/// brought back, and a save that reaches the target says so in
/// `"save_version"`.
pub proof fn law_update_save_versions(save: Json, to: int)
    requires
        upgrade_ok(save, start_version(save), to),
    ensures
        start_version(save) == to ==> upgraded(save, start_version(save), to) == (save, true),
        start_version(save) > to ==> upgraded(save, start_version(save), to) == (save, false),
        start_version(save) < to && upgraded(save, start_version(save), to).1 ==> jget(upgraded(save, start_version(save), to).0, "save_version"@)
            == Json::Int(to as i64),
{
    lemma_reached_version(save, start_version(save), to);
}

proof fn lemma_reached_version(save: Json, cur: int, to: int)
    requires
        upgrade_ok(save, cur, to),
    ensures
        cur < to && upgraded(save, cur, to).1 ==> jget(upgraded(save, cur, to).0, "save_version"@) == Json::Int(to as i64),
    decreases to - cur,
{
    if cur < to && 1 <= cur <= 4 {
        let k = step_field(cur);
        let s1 = jput(save, k, map_items(jget(save, k), |x: Json| step_item(cur, x)));
        lemma_get_put_same(s1, "save_version"@, Json::Int((cur + 1) as i64));
        lemma_reached_version(step_result(cur, save), cur + 1, to);
    }
}

} // verus!
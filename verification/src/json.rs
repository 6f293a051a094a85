//! JSON documents and how they become runtime values.
use vstd::prelude::*;
use crate::keys::{find_key, first_index, keys_of, lemma_first_index, upsert};
use crate::value::{
    Value, ValueModel, entries_model, entry_keys, keys_unique, value_model, values_model,
};

verus! {

/// A JSON number as a JSON reader hands it over: a non-negative integer, a
/// negative integer, or a floating-point number given by its IEEE-754 bit pattern.
#[derive(Debug, Clone, Copy, PartialEq, Eq, Structural)]
pub enum JsonNumber {
    PosInt(u64),
    NegInt(i64),
    Float(u64),
}

/// A JSON document; an object is the list of its members in document order.
#[derive(Debug)]
pub enum JsonValue {
    Null,
    Bool(bool),
    Number(JsonNumber),
    String(String),
    Array(Vec<JsonValue>),
    Object(Vec<(String, JsonValue)>),
}

/// A number becomes a long when it fits in an `i64`, a double when it is a
/// floating-point number; a non-negative integer above `i64::MAX` is neither.
pub open spec fn number_converts(n: JsonNumber) -> bool {
    match n {
        JsonNumber::PosInt(u) => u <= i64::MAX,
        _ => true,
    }
}

/// Every number in the document converts.
pub open spec fn json_converts(j: JsonValue) -> bool
    decreases j,
{
    match j {
        JsonValue::Number(n) => number_converts(n),
        JsonValue::Array(x) => jsons_convert(x@),
        JsonValue::Object(x) => members_convert(x@),
        _ => true,
    }
}

pub open spec fn jsons_convert(x: Seq<JsonValue>) -> bool
    decreases x,
{
    x.len() == 0 || (jsons_convert(x.subrange(0, x.len() - 1)) && json_converts(x[x.len() - 1]))
}

pub open spec fn members_convert(x: Seq<(String, JsonValue)>) -> bool
    decreases x,
{
    x.len() == 0 || (members_convert(x.subrange(0, x.len() - 1)) && json_converts(
        x[x.len() - 1].1,
    ))
}

/// The value a JSON document stands for: null, booleans and strings as they
/// are, integers as longs, floating-point numbers as doubles, arrays element
/// by element, and objects as maps in which a later member replaces an
/// earlier one with the same key.
pub open spec fn json_model(j: JsonValue) -> ValueModel
    decreases j,
{
    match j {
        JsonValue::Null => ValueModel::Null,
        JsonValue::Bool(b) => ValueModel::Boolean(b),
        JsonValue::String(s) => ValueModel::String(s@),
        JsonValue::Number(n) => match n {
            JsonNumber::PosInt(u) => ValueModel::Long(u as i64),
            JsonNumber::NegInt(i) => ValueModel::Long(i),
            JsonNumber::Float(b) => ValueModel::Double(b),
        },
        JsonValue::Array(x) => ValueModel::Array(jsons_model(x@)),
        JsonValue::Object(x) => ValueModel::Object(members_model(x@)),
    }
}

pub open spec fn jsons_model(x: Seq<JsonValue>) -> Seq<ValueModel>
    decreases x,
{
    if x.len() == 0 {
        Seq::empty()
    } else {
        jsons_model(x.subrange(0, x.len() - 1)).push(json_model(x[x.len() - 1]))
    }
}

pub open spec fn members_model(x: Seq<(String, JsonValue)>) -> Seq<(Seq<char>, ValueModel)>
    decreases x,
{
    if x.len() == 0 {
        Seq::empty()
    } else {
        upsert(
            members_model(x.subrange(0, x.len() - 1)),
            x[x.len() - 1].0@,
            json_model(x[x.len() - 1].1),
        )
    }
}

proof fn lemma_jsons_convert(x: Seq<JsonValue>, k: int)
    requires
        jsons_convert(x),
        0 <= k < x.len(),
    ensures
        json_converts(x[k]),
    decreases x.len(),
{
    if k < x.len() - 1 {
        let p = x.subrange(0, x.len() - 1);
        lemma_jsons_convert(p, k);
        assert(p[k] == x[k]);
    }
}

proof fn lemma_members_convert(x: Seq<(String, JsonValue)>, k: int)
    requires
        members_convert(x),
        0 <= k < x.len(),
    ensures
        json_converts(x[k].1),
    decreases x.len(),
{
    if k < x.len() - 1 {
        let p = x.subrange(0, x.len() - 1);
        lemma_members_convert(p, k);
        assert(p[k] == x[k]);
    }
}

/// The model of a list of entries, entry by entry.
proof fn lemma_entries_model_at(s: Seq<(String, Value)>)
    ensures
        entries_model(s).len() == s.len(),
        forall|k: int|
            0 <= k < s.len() ==> #[trigger] entries_model(s)[k] == (s[k].0@, value_model(s[k].1)),
    decreases s.len(),
{
    if s.len() > 0 {
        let p = s.subrange(0, s.len() - 1);
        lemma_entries_model_at(p);
        assert forall|k: int| 0 <= k < s.len() implies #[trigger] entries_model(s)[k] == (
        s[k].0@, value_model(s[k].1)) by {
            if k < s.len() - 1 {
                assert(p[k] == s[k]);
            }
        }
    }
}

/// Replacing one entry replaces its model.
proof fn lemma_entries_model_update(s: Seq<(String, Value)>, j: int, e: (String, Value))
    requires
        0 <= j < s.len(),
    ensures
        entries_model(s.update(j, e)) == entries_model(s).update(j, (e.0@, value_model(e.1))),
{
    lemma_entries_model_at(s);
    lemma_entries_model_at(s.update(j, e));
    assert(entries_model(s.update(j, e)) =~= entries_model(s).update(j, (e.0@, value_model(e.1))));
}

/// The keys of the model are the keys of the entries.
proof fn lemma_entries_model_keys(s: Seq<(String, Value)>)
    ensures
        keys_of(entries_model(s)) == entry_keys(s),
{
    lemma_entries_model_at(s);
    assert(keys_of(entries_model(s)) =~= entry_keys(s));
}

/// An object read from JSON holds each key once, whatever keys the document repeats.
pub proof fn lemma_json_object_keys_unique(x: Seq<(String, JsonValue)>)
    ensures
        keys_unique(keys_of(members_model(x))),
    decreases x.len(),
{
    if x.len() > 0 {
        let p = x.subrange(0, x.len() - 1);
        lemma_json_object_keys_unique(p);
        let s = members_model(p);
        let k = x[x.len() - 1].0@;
        let v = json_model(x[x.len() - 1].1);
        lemma_first_index(k, keys_of(s));
        match first_index(k, keys_of(s)) {
            Some(j) => {
                assert(keys_of(s.update(j, (k, v))) =~= keys_of(s));
            },
            None => {
                assert(keys_of(s.push((k, v))) =~= keys_of(s).push(k));
            },
        }
    }
}

/// Whether every number in the document converts (see `number_converts`).
pub fn converts(doc: &JsonValue) -> (r: bool)
    ensures
        r == json_converts(*doc),
    decreases doc,
{
    match doc {
        JsonValue::Number(JsonNumber::PosInt(u)) => *u <= 0x7fff_ffff_ffff_ffffu64,
        JsonValue::Number(_) => true,
        JsonValue::Array(items) => {
            let mut i: usize = 0;
            while i < items.len()
                invariant
                    i <= items.len(),
                    jsons_convert(items@.take(i as int)),
                    *doc == JsonValue::Array(*items),
                decreases items.len() - i,
            {
                proof {
                    assert(decreases_to!(*doc => doc->Array_0));
                    assert(decreases_to!(*items => items[i as int]));
                }
                assert(items@.take(i + 1).subrange(0, i as int) =~= items@.take(i as int));
                if !converts(&items[i]) {
                    proof {
                        if jsons_convert(items@) {
                            lemma_jsons_convert(items@, i as int);
                        }
                    }
                    return false;
                }
                i = i + 1;
            }
            assert(items@.take(items.len() as int) =~= items@);
            true
        },
        JsonValue::Object(members) => {
            let mut i: usize = 0;
            while i < members.len()
                invariant
                    i <= members.len(),
                    members_convert(members@.take(i as int)),
                    *doc == JsonValue::Object(*members),
                decreases members.len() - i,
            {
                proof {
                    assert(decreases_to!(*doc => doc->Object_0));
                    assert(decreases_to!(*members => members[i as int]));
                    let m = members@[i as int];
                    assert(decreases_to!(m => m.1));
                }
                assert(members@.take(i + 1).subrange(0, i as int) =~= members@.take(i as int));
                if !converts(&members[i].1) {
                    proof {
                        if members_convert(members@) {
                            lemma_members_convert(members@, i as int);
                        }
                    }
                    return false;
                }
                i = i + 1;
            }
            assert(members@.take(members.len() as int) =~= members@);
            true
        },
        _ => true,
    }
}

impl Value {
    /// The value that a JSON document stands for. A non-negative integer
    /// above `i64::MAX` has no value here, so it is left out by `requires`.
    pub fn from(value: &JsonValue) -> (r: Value)
        requires
            json_converts(*value),
        ensures
            r@ == json_model(*value),
        decreases value,
    {
        match value {
            JsonValue::Null => Value::Null,
            JsonValue::Bool(b) => Value::Boolean(*b),
            JsonValue::String(s) => Value::String(s.clone()),
            JsonValue::Number(n) => match n {
                JsonNumber::PosInt(u) => Value::Long(*u as i64),
                JsonNumber::NegInt(i) => Value::Long(*i),
                JsonNumber::Float(bits) => Value::Double(*bits),
            },
            JsonValue::Array(items) => {
                let mut out: Vec<Value> = Vec::new();
                let mut i: usize = 0;
                while i < items.len()
                    invariant
                        i <= items.len(),
                        out.len() == i,
                        jsons_convert(items@),
                        values_model(out@) == jsons_model(items@.take(i as int)),
                        *value == JsonValue::Array(*items),
                    decreases items.len() - i,
                {
                    proof {
                        lemma_jsons_convert(items@, i as int);
                        assert(decreases_to!(*value => value->Array_0));
                        assert(decreases_to!(*items => items[i as int]));
                    }
                    let v = Value::from(&items[i]);
                    let ghost before = out@;
                    out.push(v);
                    assert(out@.subrange(0, i as int) =~= before);
                    assert(items@.take(i + 1).subrange(0, i as int) =~= items@.take(i as int));
                    i = i + 1;
                }
                assert(items@.take(items.len() as int) =~= items@);
                Value::Array(out)
            },
            JsonValue::Object(members) => {
                let mut out: Vec<(String, Value)> = Vec::new();
                let mut i: usize = 0;
                while i < members.len()
                    invariant
                        i <= members.len(),
                        members_convert(members@),
                        entries_model(out@) == members_model(members@.take(i as int)),
                        *value == JsonValue::Object(*members),
                    decreases members.len() - i,
                {
                    proof {
                        lemma_members_convert(members@, i as int);
                        assert(decreases_to!(*value => value->Object_0));
                        assert(decreases_to!(*members => members[i as int]));
                        let m = members@[i as int];
                        assert(decreases_to!(m => m.1));
                    }
                    let v = Value::from(&members[i].1);
                    let key = members[i].0.clone();
                    let ghost before = out@;
                    let ghost e = (key, v);
                    proof {
                        lemma_entries_model_keys(before);
                        assert(members@.take(i + 1).subrange(0, i as int) =~= members@.take(
                            i as int,
                        ));
                    }
                    match find_key(&key, &out) {
                        Some(j) => {
                            out.set(j, (key, v));
                            proof {
                                lemma_entries_model_update(before, j as int, e);
                            }
                        },
                        None => {
                            out.push((key, v));
                            assert(out@.subrange(0, out@.len() - 1) =~= before);
                        },
                    }
                    i = i + 1;
                }
                assert(members@.take(members.len() as int) =~= members@);
                Value::Object(out)
            },
        }
    }
}

} // verus!

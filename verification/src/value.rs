//! Runtime values, variable types and the raw values that users type in.
use vstd::prelude::*;
use crate::keys::{find_key, first_index, lemma_first_index, lemma_first_index_unique};
use crate::text::{
    all_digits, digits_value, is_digit, is_float_literal, is_float_text, parse_bool,
    parse_bool_spec, parse_i64, parse_i64_spec, unsigned_part,
};

verus! {

/// The declared type of a variable.
#[derive(Clone, Copy, Debug, PartialEq, Eq, Structural)]
pub enum VarType {
    String,
    Long,
    Boolean,
    Double,
    Object,
    List,
    Reference,
}

/// Name of a type as the front ends show it.
pub fn var_type_name(t: VarType) -> (r: &'static str)
    ensures
        r@ == spec_var_type_name(t),
{
    match t {
        VarType::String => "String",
        VarType::Long => "Long",
        VarType::Boolean => "Boolean",
        VarType::Double => "Double",
        VarType::Object => "Object",
        VarType::List => "List",
        VarType::Reference => "Reference",
    }
}

pub open spec fn spec_var_type_name(t: VarType) -> Seq<char> {
    match t {
        VarType::String => "String"@,
        VarType::Long => "Long"@,
        VarType::Boolean => "Boolean"@,
        VarType::Double => "Double"@,
        VarType::Object => "Object"@,
        VarType::List => "List"@,
        VarType::Reference => "Reference"@,
    }
}


/// A runtime value. A double is held as its IEEE-754 bit pattern; an object
/// is a list of (key, value) entries looked up by the first entry with a key;
/// a reference is an opaque handle chosen by the host.
#[derive(Debug)]
pub enum Value {
    String(String),
    Long(i64),
    Boolean(bool),
    Double(u64),
    Object(Vec<(String, Value)>),
    Array(Vec<Value>),
    Null,
    Reference(u64),
}

/// Bit pattern of a double that is a NaN (all exponent bits set, nonzero fraction).
pub open spec fn double_is_nan(bits: u64) -> bool {
    (bits / 0x10_0000_0000_0000) % 0x800 == 0x7ff && bits % 0x10_0000_0000_0000 != 0
}

/// Bit pattern of +0.0 or -0.0.
pub open spec fn double_is_zero(bits: u64) -> bool {
    bits % 0x8000_0000_0000_0000 == 0
}

/// IEEE-754 equality of two doubles given by their bit patterns:
/// NaN equals nothing, the two zeros are equal, otherwise the patterns must agree.
pub open spec fn double_eq(a: u64, b: u64) -> bool {
    &&& !double_is_nan(a)
    &&& !double_is_nan(b)
    &&& (a == b || (double_is_zero(a) && double_is_zero(b)))
}

/// The keys of object entries, as character sequences.
pub open spec fn entry_keys(entries: Seq<(String, Value)>) -> Seq<Seq<char>> {
    entries.map_values(|e: (String, Value)| e.0@)
}

/// Equality of values: variants must agree, doubles compare as IEEE doubles,
/// objects compare as maps (same size, every key of either found in the other
/// with an equal value), arrays element by element, and all references are equal.
pub open spec fn value_eq(a: Value, b: Value) -> bool
    decreases a, 0nat,
{
    match a {
        Value::Null => b is Null,
        Value::Double(x) => match b {
            Value::Double(y) => double_eq(x, y),
            _ => false,
        },
        Value::String(x) => match b {
            Value::String(y) => x@ == y@,
            _ => false,
        },
        Value::Long(x) => match b {
            Value::Long(y) => x == y,
            _ => false,
        },
        Value::Boolean(x) => match b {
            Value::Boolean(y) => x == y,
            _ => false,
        },
        Value::Object(x) => match b {
            Value::Object(y) => x@.len() == y@.len() && entries_found(x@, y@) && entries_back(
                y@,
                x@,
            ),
            _ => false,
        },
        Value::Array(x) => match b {
            Value::Array(y) => elems_eq(x@, y@),
            _ => false,
        },
        Value::Reference(_) => b is Reference,
    }
}

/// Every entry of `x` has its key in `y`, and the first such entry of `y` holds an equal value.
pub open spec fn entries_found(x: Seq<(String, Value)>, y: Seq<(String, Value)>) -> bool
    decreases x, 0nat,
{
    if x.len() == 0 {
        true
    } else {
        &&& entries_found(x.subrange(0, x.len() - 1), y)
        &&& match first_index(x[x.len() - 1].0@, entry_keys(y)) {
            Some(j) => value_eq(x[x.len() - 1].1, y[j].1),
            None => false,
        }
    }
}

/// Every entry of `y` has its key in `x`, and the first such entry of `x` holds a
/// value equal to it.
pub open spec fn entries_back(y: Seq<(String, Value)>, x: Seq<(String, Value)>) -> bool
    decreases x, y.len(),
{
    if y.len() == 0 {
        true
    } else {
        &&& entries_back(y.subrange(0, y.len() - 1), x)
        &&& match first_index(y[y.len() - 1].0@, entry_keys(x)) {
            Some(j) => {
                proof {
                    lemma_first_index(y[y.len() - 1].0@, entry_keys(x));
                    assert(decreases_to!(x => x[j]));
                    assert(decreases_to!(x[j] => x[j].1));
                }
                value_eq(x[j].1, y[y.len() - 1].1)
            },
            None => false,
        }
    }
}

/// Two sequences of values of equal length, equal element by element.
pub open spec fn elems_eq(x: Seq<Value>, y: Seq<Value>) -> bool
    decreases x, 0nat,
{
    &&& x.len() == y.len()
    &&& (x.len() == 0 || (elems_eq(x.subrange(0, x.len() - 1), y.subrange(0, y.len() - 1))
        && value_eq(x[x.len() - 1], y[y.len() - 1])))
}


/// IEEE-754 equality of two doubles given by their bit patterns.
pub fn doubles_equal(a: u64, b: u64) -> (r: bool)
    ensures
        r == double_eq(a, b),
{
    let a_nan = (a / 0x10_0000_0000_0000) % 0x800 == 0x7ff && a % 0x10_0000_0000_0000 != 0;
    let b_nan = (b / 0x10_0000_0000_0000) % 0x800 == 0x7ff && b % 0x10_0000_0000_0000 != 0;
    let both_zero = a % 0x8000_0000_0000_0000 == 0 && b % 0x8000_0000_0000_0000 == 0;
    !a_nan && !b_nan && (a == b || both_zero)
}

impl Value {
    /// Equality of values as `value_eq` defines it.
    pub fn equals(&self, other: &Value) -> (r: bool)
        ensures
            r == value_eq(*self, *other),
        decreases self,
    {
        match self {
            Value::Null => match other {
                Value::Null => true,
                _ => false,
            },
            Value::Double(x) => match other {
                Value::Double(y) => doubles_equal(*x, *y),
                _ => false,
            },
            Value::String(x) => match other {
                Value::String(y) => *x == *y,
                _ => false,
            },
            Value::Long(x) => match other {
                Value::Long(y) => *x == *y,
                _ => false,
            },
            Value::Boolean(x) => match other {
                Value::Boolean(y) => *x == *y,
                _ => false,
            },
            Value::Reference(_) => match other {
                Value::Reference(_) => true,
                _ => false,
            },
            Value::Object(x) => match other {
                Value::Object(y) => {
                    if x.len() != y.len() {
                        return false;
                    }
                    let mut ok = true;
                    let mut i: usize = 0;
                    while i < x.len()
                        invariant
                            i <= x.len(),
                            ok == entries_found(x@.take(i as int), y@),
                            *self == Value::Object(*x),
                        decreases x.len() - i,
                    {
                        assert(x@.take(i + 1).subrange(0, i as int) =~= x@.take(i as int));
                        assert(entry_keys(y@) =~= y@.map_values(|e: (String, Value)| e.0@));
                        let found = find_key(&x[i].0, y);
                        let here = match found {
                            Some(j) => {
                                proof {
                                    let e = x@[i as int];
                                    assert(*x == self->Object_0);
                                    assert(decreases_to!(*self => self->Object_0));
                                    assert(decreases_to!(*x => x[i as int]));
                                    assert(decreases_to!(e => e.1));
                                    assert(decreases_to!(*self => x@[i as int].1));
                                }
                                x[i].1.equals(&y[j].1)
                            },
                            None => false,
                        };
                        ok = ok && here;
                        i = i + 1;
                    }
                    assert(x@.take(x.len() as int) =~= x@);
                    let mut back = true;
                    let mut k: usize = 0;
                    while k < y.len()
                        invariant
                            k <= y.len(),
                            back == entries_back(y@.take(k as int), x@),
                            *self == Value::Object(*x),
                        decreases y.len() - k,
                    {
                        assert(y@.take(k + 1).subrange(0, k as int) =~= y@.take(k as int));
                        assert(entry_keys(x@) =~= x@.map_values(|e: (String, Value)| e.0@));
                        let found = find_key(&y[k].0, x);
                        let here = match found {
                            Some(j) => {
                                proof {
                                    let e = x@[j as int];
                                    assert(*x == self->Object_0);
                                    assert(decreases_to!(*self => self->Object_0));
                                    assert(decreases_to!(*x => x[j as int]));
                                    assert(decreases_to!(e => e.1));
                                    assert(decreases_to!(*self => x@[j as int].1));
                                }
                                x[j].1.equals(&y[k].1)
                            },
                            None => false,
                        };
                        back = back && here;
                        k = k + 1;
                    }
                    assert(y@.take(y.len() as int) =~= y@);
                    ok && back
                },
                _ => false,
            },
            Value::Array(x) => match other {
                Value::Array(y) => {
                    if x.len() != y.len() {
                        return false;
                    }
                    let mut ok = true;
                    let mut i: usize = 0;
                    while i < x.len()
                        invariant
                            i <= x.len(),
                            x.len() == y.len(),
                            ok == elems_eq(x@.take(i as int), y@.take(i as int)),
                            *self == Value::Array(*x),
                        decreases x.len() - i,
                    {
                        assert(x@.take(i + 1).subrange(0, i as int) =~= x@.take(i as int));
                        assert(y@.take(i + 1).subrange(0, i as int) =~= y@.take(i as int));
                        assert(*x == self->Array_0);
                        assert(decreases_to!(*self => self->Array_0));
                        assert(decreases_to!(*x => x[i as int]));
                        assert(decreases_to!(*self => x@[i as int]));
                        let here = x[i].equals(&y[i]);
                        ok = ok && here;
                        i = i + 1;
                    }
                    assert(x@.take(x.len() as int) =~= x@);
                    assert(y@.take(y.len() as int) =~= y@);
                    ok
                },
                _ => false,
            },
        }
    }
}


/// No two keys are the same.
pub open spec fn keys_unique(keys: Seq<Seq<char>>) -> bool {
    forall|i: int, j: int| 0 <= i < j < keys.len() ==> #[trigger] keys[i] != #[trigger] keys[j]
}

/// A value with no NaN in it and no object with a key twice.
pub open spec fn well_formed_value(v: Value) -> bool
    decreases v,
{
    match v {
        Value::Double(b) => !double_is_nan(b),
        Value::Object(x) => keys_unique(entry_keys(x@)) && entries_well_formed(x@),
        Value::Array(x) => values_well_formed(x@),
        _ => true,
    }
}

pub open spec fn entries_well_formed(x: Seq<(String, Value)>) -> bool
    decreases x,
{
    x.len() == 0 || (entries_well_formed(x.subrange(0, x.len() - 1)) && well_formed_value(
        x[x.len() - 1].1,
    ))
}

pub open spec fn values_well_formed(x: Seq<Value>) -> bool
    decreases x,
{
    x.len() == 0 || (values_well_formed(x.subrange(0, x.len() - 1)) && well_formed_value(
        x[x.len() - 1],
    ))
}

proof fn lemma_entries_well_formed(x: Seq<(String, Value)>, k: int)
    requires
        entries_well_formed(x),
        0 <= k < x.len(),
    ensures
        well_formed_value(x[k].1),
    decreases x.len(),
{
    if k < x.len() - 1 {
        let p = x.subrange(0, x.len() - 1);
        lemma_entries_well_formed(p, k);
        assert(p[k] == x[k]);
    }
}

proof fn lemma_values_well_formed(x: Seq<Value>, k: int)
    requires
        values_well_formed(x),
        0 <= k < x.len(),
    ensures
        well_formed_value(x[k]),
    decreases x.len(),
{
    if k < x.len() - 1 {
        let p = x.subrange(0, x.len() - 1);
        lemma_values_well_formed(p, k);
        assert(p[k] == x[k]);
    }
}

proof fn lemma_entries_found_self(y: Seq<(String, Value)>, n: int)
    requires
        0 <= n <= y.len(),
        keys_unique(entry_keys(y)),
        forall|k: int| 0 <= k < y.len() ==> value_eq(#[trigger] y[k].1, y[k].1),
    ensures
        entries_found(y.subrange(0, n), y),
    decreases n,
{
    if n > 0 {
        let p = y.subrange(0, n);
        assert(p.subrange(0, n - 1) =~= y.subrange(0, n - 1));
        lemma_entries_found_self(y, n - 1);
        let keys = entry_keys(y);
        assert(keys[n - 1] == y[n - 1].0@);
        lemma_first_index_unique(y[n - 1].0@, keys, n - 1);
    }
}

proof fn lemma_elems_eq_self(y: Seq<Value>)
    requires
        forall|k: int| 0 <= k < y.len() ==> value_eq(#[trigger] y[k], y[k]),
    ensures
        elems_eq(y, y),
    decreases y.len(),
{
    if y.len() > 0 {
        let p = y.subrange(0, y.len() - 1);
        assert forall|k: int| 0 <= k < p.len() implies value_eq(#[trigger] p[k], p[k]) by {
            assert(p[k] == y[k]);
        }
        lemma_elems_eq_self(p);
    }
}

/// A value with no NaN in it and no repeated object key equals itself.
pub proof fn lemma_value_eq_reflexive(v: Value)
    requires
        well_formed_value(v),
    ensures
        value_eq(v, v),
    decreases v,
{
    match v {
        Value::Object(x) => {
            assert forall|k: int| 0 <= k < x@.len() implies value_eq(#[trigger] x@[k].1, x@[k].1) by {
                lemma_entries_well_formed(x@, k);
                assert(decreases_to!(v => x));
                assert(decreases_to!(x => x@[k]));
                lemma_value_eq_reflexive(x@[k].1);
            }
            lemma_entries_found_self(x@, x@.len() as int);
            assert forall|k: int| 0 <= k < x@.len() implies match first_index(
                #[trigger] x@[k].0@,
                entry_keys(x@),
            ) {
                Some(j) => value_eq(x@[j].1, x@[k].1),
                None => false,
            } by {
                let keys = entry_keys(x@);
                assert(keys[k] == x@[k].0@);
                lemma_first_index_unique(x@[k].0@, keys, k);
            }
            lemma_entries_back_from(x@, x@, x@.len() as int);
            assert(x@.subrange(0, x@.len() as int) =~= x@);
        },
        Value::Array(x) => {
            assert forall|k: int| 0 <= k < x@.len() implies value_eq(#[trigger] x@[k], x@[k]) by {
                lemma_values_well_formed(x@, k);
                assert(decreases_to!(v => x));
                assert(decreases_to!(x => x@[k]));
                lemma_value_eq_reflexive(x@[k]);
            }
            lemma_elems_eq_self(x@);
        },
        _ => {},
    }
}

proof fn lemma_elems_eq_at(x: Seq<Value>, y: Seq<Value>, k: int)
    requires
        elems_eq(x, y),
        0 <= k < x.len(),
    ensures
        x.len() == y.len(),
        value_eq(x[k], y[k]),
    decreases x.len(),
{
    if k < x.len() - 1 {
        let p = x.subrange(0, x.len() - 1);
        let q = y.subrange(0, y.len() - 1);
        lemma_elems_eq_at(p, q, k);
        assert(p[k] == x[k]);
        assert(q[k] == y[k]);
    }
}

proof fn lemma_elems_eq_from(x: Seq<Value>, y: Seq<Value>)
    requires
        x.len() == y.len(),
        forall|k: int| 0 <= k < x.len() ==> value_eq(#[trigger] x[k], y[k]),
    ensures
        elems_eq(x, y),
    decreases x.len(),
{
    if x.len() > 0 {
        let p = x.subrange(0, x.len() - 1);
        let q = y.subrange(0, y.len() - 1);
        assert forall|k: int| 0 <= k < p.len() implies value_eq(#[trigger] p[k], q[k]) by {
            assert(p[k] == x[k]);
            assert(q[k] == y[k]);
        }
        lemma_elems_eq_from(p, q);
    }
}

proof fn lemma_entries_found_at(x: Seq<(String, Value)>, y: Seq<(String, Value)>, i: int)
    requires
        entries_found(x, y),
        0 <= i < x.len(),
    ensures
        match first_index(x[i].0@, entry_keys(y)) {
            Some(j) => value_eq(x[i].1, y[j].1),
            None => false,
        },
    decreases x.len(),
{
    if i < x.len() - 1 {
        let p = x.subrange(0, x.len() - 1);
        lemma_entries_found_at(p, y, i);
        assert(p[i] == x[i]);
    }
}

proof fn lemma_entries_back_at(y: Seq<(String, Value)>, x: Seq<(String, Value)>, k: int)
    requires
        entries_back(y, x),
        0 <= k < y.len(),
    ensures
        match first_index(y[k].0@, entry_keys(x)) {
            Some(j) => value_eq(x[j].1, y[k].1),
            None => false,
        },
    decreases y.len(),
{
    if k < y.len() - 1 {
        let p = y.subrange(0, y.len() - 1);
        lemma_entries_back_at(p, x, k);
        assert(p[k] == y[k]);
    }
}

proof fn lemma_entries_found_from(x: Seq<(String, Value)>, y: Seq<(String, Value)>, n: int)
    requires
        0 <= n <= x.len(),
        forall|k: int|
            0 <= k < x.len() ==> match first_index(#[trigger] x[k].0@, entry_keys(y)) {
                Some(j) => value_eq(x[k].1, y[j].1),
                None => false,
            },
    ensures
        entries_found(x.subrange(0, n), y),
    decreases n,
{
    if n > 0 {
        let p = x.subrange(0, n);
        assert(p.subrange(0, n - 1) =~= x.subrange(0, n - 1));
        lemma_entries_found_from(x, y, n - 1);
        assert(p[n - 1] == x[n - 1]);
    }
}

proof fn lemma_entries_back_from(y: Seq<(String, Value)>, x: Seq<(String, Value)>, n: int)
    requires
        0 <= n <= y.len(),
        forall|k: int|
            0 <= k < y.len() ==> match first_index(#[trigger] y[k].0@, entry_keys(x)) {
                Some(j) => value_eq(x[j].1, y[k].1),
                None => false,
            },
    ensures
        entries_back(y.subrange(0, n), x),
    decreases n,
{
    if n > 0 {
        let p = y.subrange(0, n);
        assert(p.subrange(0, n - 1) =~= y.subrange(0, n - 1));
        lemma_entries_back_from(y, x, n - 1);
        assert(p[n - 1] == y[n - 1]);
    }
}

/// Equality of values is symmetric.
pub proof fn lemma_value_eq_symmetric(a: Value, b: Value)
    requires
        value_eq(a, b),
    ensures
        value_eq(b, a),
    decreases a,
{
    match a {
        Value::Object(x) => {
            let y = b->Object_0;
            assert forall|k: int| 0 <= k < y@.len() implies match first_index(
                #[trigger] y@[k].0@,
                entry_keys(x@),
            ) {
                Some(j) => value_eq(y@[k].1, x@[j].1),
                None => false,
            } by {
                lemma_entries_back_at(y@, x@, k);
                lemma_first_index(y@[k].0@, entry_keys(x@));
                if let Some(j) = first_index(y@[k].0@, entry_keys(x@)) {
                    assert(decreases_to!(a => x));
                    assert(decreases_to!(x => x@[j]));
                    lemma_value_eq_symmetric(x@[j].1, y@[k].1);
                }
            }
            assert forall|i: int| 0 <= i < x@.len() implies match first_index(
                #[trigger] x@[i].0@,
                entry_keys(y@),
            ) {
                Some(j) => value_eq(y@[j].1, x@[i].1),
                None => false,
            } by {
                lemma_entries_found_at(x@, y@, i);
                if let Some(j) = first_index(x@[i].0@, entry_keys(y@)) {
                    assert(decreases_to!(a => x));
                    assert(decreases_to!(x => x@[i]));
                    lemma_value_eq_symmetric(x@[i].1, y@[j].1);
                }
            }
            lemma_entries_found_from(y@, x@, y@.len() as int);
            lemma_entries_back_from(x@, y@, x@.len() as int);
            assert(y@.subrange(0, y@.len() as int) =~= y@);
            assert(x@.subrange(0, x@.len() as int) =~= x@);
        },
        Value::Array(x) => {
            let y = b->Array_0;
            assert forall|k: int| 0 <= k < y@.len() implies value_eq(#[trigger] y@[k], x@[k]) by {
                lemma_elems_eq_at(x@, y@, k);
                assert(decreases_to!(a => x));
                assert(decreases_to!(x => x@[k]));
                lemma_value_eq_symmetric(x@[k], y@[k]);
            }
            if x@.len() > 0 {
                lemma_elems_eq_at(x@, y@, 0);
            }
            lemma_elems_eq_from(y@, x@);
        },
        _ => {},
    }
}

/// Scalars are equal exactly when their contents are: two booleans when they are
/// the same boolean, two longs when they are the same number, two strings when
/// they hold the same text; null equals null, and values of different kinds are
/// never equal.
pub proof fn lemma_scalar_values_equal(a: bool, b: bool, x: i64, y: i64, s: String, t: String)
    ensures
        value_eq(Value::Boolean(a), Value::Boolean(b)) <==> a == b,
        value_eq(Value::Long(x), Value::Long(y)) <==> x == y,
        value_eq(Value::String(s), Value::String(t)) <==> s@ == t@,
        value_eq(Value::Null, Value::Null),
        !value_eq(Value::Boolean(a), Value::Long(x)),
        !value_eq(Value::Long(x), Value::Boolean(a)),
        !value_eq(Value::String(s), Value::Long(x)),
        !value_eq(Value::Long(x), Value::String(s)),
        !value_eq(Value::Boolean(a), Value::String(s)),
        !value_eq(Value::String(s), Value::Boolean(a)),
        !value_eq(Value::Null, Value::Long(x)),
        !value_eq(Value::Long(x), Value::Null),
{
}

/// Two doubles are equal only when their bit patterns are the same or both are
/// zeros; a double that is no NaN equals itself.
pub proof fn lemma_doubles_equal(x: u64, y: u64)
    ensures
        value_eq(Value::Double(x), Value::Double(y)) ==> x == y || (x % 0x8000_0000_0000_0000 == 0
            && y % 0x8000_0000_0000_0000 == 0),
        !double_is_nan(x) ==> value_eq(Value::Double(x), Value::Double(x)),
{
}

/// Equal values have the same type.
pub proof fn lemma_equal_values_share_type(a: Value, b: Value)
    requires
        value_eq(a, b),
    ensures
        model_var_type(a@) == model_var_type(b@),
{
}

impl PartialEq for Value {
    fn eq(&self, other: &Self) -> (r: bool) {
        self.equals(other)
    }
}

impl vstd::std_specs::cmp::PartialEqSpecImpl for Value {
    open spec fn obeys_eq_spec() -> bool {
        true
    }

    open spec fn eq_spec(&self, other: &Self) -> bool {
        value_eq(*self, *other)
    }
}


/// Mathematical model of a value: strings as character sequences, vectors as sequences.
pub enum ValueModel {
    String(Seq<char>),
    Long(i64),
    Boolean(bool),
    Double(u64),
    Object(Seq<(Seq<char>, ValueModel)>),
    Array(Seq<ValueModel>),
    Null,
    Reference(u64),
}

pub open spec fn value_model(v: Value) -> ValueModel
    decreases v,
{
    match v {
        Value::String(s) => ValueModel::String(s@),
        Value::Long(x) => ValueModel::Long(x),
        Value::Boolean(x) => ValueModel::Boolean(x),
        Value::Double(x) => ValueModel::Double(x),
        Value::Object(x) => ValueModel::Object(entries_model(x@)),
        Value::Array(x) => ValueModel::Array(values_model(x@)),
        Value::Null => ValueModel::Null,
        Value::Reference(x) => ValueModel::Reference(x),
    }
}

pub open spec fn entries_model(x: Seq<(String, Value)>) -> Seq<(Seq<char>, ValueModel)>
    decreases x,
{
    if x.len() == 0 {
        Seq::empty()
    } else {
        entries_model(x.subrange(0, x.len() - 1)).push(
            (x[x.len() - 1].0@, value_model(x[x.len() - 1].1)),
        )
    }
}

pub open spec fn values_model(x: Seq<Value>) -> Seq<ValueModel>
    decreases x,
{
    if x.len() == 0 {
        Seq::empty()
    } else {
        values_model(x.subrange(0, x.len() - 1)).push(value_model(x[x.len() - 1]))
    }
}

impl View for Value {
    type V = ValueModel;

    open spec fn view(&self) -> ValueModel {
        value_model(*self)
    }
}

impl Clone for Value {
    fn clone(&self) -> (r: Self)
        ensures
            r@ == self@,
        decreases self,
    {
        match self {
            Value::String(x) => Value::String(x.clone()),
            Value::Long(x) => Value::Long(*x),
            Value::Boolean(x) => Value::Boolean(*x),
            Value::Double(x) => Value::Double(*x),
            Value::Null => Value::Null,
            Value::Reference(x) => Value::Reference(*x),
            Value::Object(x) => {
                let mut entries: Vec<(String, Value)> = Vec::new();
                let mut i: usize = 0;
                while i < x.len()
                    invariant
                        i <= x.len(),
                        entries.len() == i,
                        entries_model(entries@) == entries_model(x@.take(i as int)),
                        *self == Value::Object(*x),
                    decreases x.len() - i,
                {
                    proof {
                        assert(decreases_to!(*self => self->Object_0));
                        assert(decreases_to!(*x => x[i as int]));
                        let e = x@[i as int];
                        assert(decreases_to!(e => e.1));
                    }
                    let key = x[i].0.clone();
                    let val = x[i].1.clone();
                    let ghost before = entries@;
                    entries.push((key, val));
                    assert(entries@.subrange(0, i as int) =~= before);
                    assert(x@.take(i + 1).subrange(0, i as int) =~= x@.take(i as int));
                    i = i + 1;
                }
                assert(x@.take(x.len() as int) =~= x@);
                Value::Object(entries)
            },
            Value::Array(x) => {
                let mut items: Vec<Value> = Vec::new();
                let mut i: usize = 0;
                while i < x.len()
                    invariant
                        i <= x.len(),
                        items.len() == i,
                        values_model(items@) == values_model(x@.take(i as int)),
                        *self == Value::Array(*x),
                    decreases x.len() - i,
                {
                    proof {
                        assert(decreases_to!(*self => self->Array_0));
                        assert(decreases_to!(*x => x[i as int]));
                    }
                    let val = x[i].clone();
                    let ghost before = items@;
                    items.push(val);
                    assert(items@.subrange(0, i as int) =~= before);
                    assert(x@.take(i + 1).subrange(0, i as int) =~= x@.take(i as int));
                    i = i + 1;
                }
                assert(x@.take(x.len() as int) =~= x@);
                Value::Array(items)
            },
        }
    }
}


/// The type that a value of the given shape has; `None` for null.
pub open spec fn model_var_type(v: ValueModel) -> Option<VarType> {
    match v {
        ValueModel::String(_) => Some(VarType::String),
        ValueModel::Boolean(_) => Some(VarType::Boolean),
        ValueModel::Object(_) => Some(VarType::Object),
        ValueModel::Long(_) => Some(VarType::Long),
        ValueModel::Array(_) => Some(VarType::List),
        ValueModel::Double(_) => Some(VarType::Double),
        ValueModel::Null => None,
        ValueModel::Reference(_) => Some(VarType::Reference),
    }
}

impl Value {
    /// The type of this value; `None` for null.
    pub fn get_associated_var_type(&self) -> (r: Option<VarType>)
        ensures
            r == model_var_type(self@),
    {
        match self {
            Value::String(_) => Some(VarType::String),
            Value::Boolean(_) => Some(VarType::Boolean),
            Value::Object(_) => Some(VarType::Object),
            Value::Long(_) => Some(VarType::Long),
            Value::Array(_) => Some(VarType::List),
            Value::Double(_) => Some(VarType::Double),
            Value::Null => None,
            Value::Reference(_) => Some(VarType::Reference),
        }
    }
}

/// A variable that a user is asked for: its name and declared type.
#[derive(Debug, Clone)]
pub struct VariableDesciption {
    pub name: String,
    pub data_type: VarType,
}

/// A variable as journeys refer to it: a dotted name and an optional type.
#[derive(Debug, Clone)]
pub struct Variable {
    pub name: String,
    pub data_type: Option<VarType>,
}

/// A value as a user typed it in, with the variable it is for.
#[derive(Debug, Clone)]
pub struct RawVariableValue {
    pub value: Option<String>,
    pub name: String,
    pub data_type: VarType,
}

/// A raw value is valid when there is no text, or when its text reads as its
/// declared type; only strings, longs, booleans and doubles can be typed in.
pub open spec fn raw_is_valid(r: RawVariableValue) -> bool {
    match r.value {
        None => true,
        Some(s) => match r.data_type {
            VarType::String => true,
            VarType::Long => parse_i64_spec(s@) is Some,
            VarType::Boolean => parse_bool_spec(s@) is Some,
            VarType::Double => is_float_text(s@),
            _ => false,
        },
    }
}

/// The value a raw value denotes, or null when it has no text or the text does not
/// read as its type. `parsed_double` is the bit pattern of the double that the text
/// denotes; it is used only when the text is a float literal.
pub open spec fn raw_to_value(r: RawVariableValue, parsed_double: Option<u64>) -> ValueModel {
    match r.value {
        None => ValueModel::Null,
        Some(s) => match r.data_type {
            VarType::String => ValueModel::String(s@),
            VarType::Long => match parse_i64_spec(s@) {
                Some(v) => ValueModel::Long(v),
                None => ValueModel::Null,
            },
            VarType::Boolean => match parse_bool_spec(s@) {
                Some(b) => ValueModel::Boolean(b),
                None => ValueModel::Null,
            },
            VarType::Double => if is_float_text(s@) {
                match parsed_double {
                    Some(bits) => ValueModel::Double(bits),
                    None => ValueModel::Null,
                }
            } else {
                ValueModel::Null
            },
            _ => ValueModel::Null,
        },
    }
}

/// An answer converts to what its text reads as: a string to its text; a boolean
/// to true exactly for the text "true" and to false exactly for "false"; a long
/// written as decimal digits, with or without a minus sign in front, to that
/// number; a float literal to the double given for it.
pub proof fn lemma_answers_read_as_their_text(r: RawVariableValue, parsed_double: Option<u64>)
    requires
        r.value is Some,
    ensures
        r.data_type == VarType::String ==> raw_to_value(r, parsed_double) == ValueModel::String(
            r.value->Some_0@,
        ),
        r.data_type == VarType::Boolean ==> (raw_to_value(r, parsed_double) == ValueModel::Boolean(
            true,
        ) <==> r.value->Some_0@ == seq!['t', 'r', 'u', 'e']),
        r.data_type == VarType::Boolean ==> (raw_to_value(r, parsed_double) == ValueModel::Boolean(
            false,
        ) <==> r.value->Some_0@ == seq!['f', 'a', 'l', 's', 'e']),
        r.data_type == VarType::Long && r.value->Some_0@.len() > 0 && all_digits(r.value->Some_0@)
            && digits_value(r.value->Some_0@) <= i64::MAX ==> raw_to_value(r, parsed_double)
            == ValueModel::Long(digits_value(r.value->Some_0@) as i64),
        r.data_type == VarType::Long && r.value->Some_0@.len() > 1 && r.value->Some_0@[0] == '-'
            && all_digits(r.value->Some_0@.drop_first()) && digits_value(r.value->Some_0@.drop_first())
            <= 0x8000_0000_0000_0000 ==> raw_to_value(r, parsed_double) == ValueModel::Long(
            (0 - digits_value(r.value->Some_0@.drop_first())) as i64,
        ),
        r.data_type == VarType::Double && is_float_text(r.value->Some_0@) && parsed_double is Some
            ==> raw_to_value(r, parsed_double) == ValueModel::Double(parsed_double->Some_0),
{
    let text = r.value->Some_0@;
    if r.data_type == VarType::Long && text.len() > 0 && all_digits(text) {
        assert(is_digit(text[0]));
        assert(unsigned_part(text) == text);
    }
}

impl RawVariableValue {
    /// Whether the text reads as the declared type.
    pub fn is_valid(&self) -> (r: bool)
        ensures
            r == raw_is_valid(*self),
    {
        match &self.value {
            None => true,
            Some(s) => match self.data_type {
                VarType::String => true,
                VarType::Long => parse_i64(s.as_str()).is_some(),
                VarType::Boolean => parse_bool(s.as_str()).is_some(),
                VarType::Double => is_float_literal(s.as_str()),
                _ => false,
            },
        }
    }

    /// The value the text denotes; see `raw_to_value`.
    pub fn to_value(&self, parsed_double: Option<u64>) -> (r: Value)
        ensures
            r@ == raw_to_value(*self, parsed_double),
    {
        match &self.value {
            None => Value::Null,
            Some(s) => match self.data_type {
                VarType::String => Value::String(s.clone()),
                VarType::Long => match parse_i64(s.as_str()) {
                    Some(v) => Value::Long(v),
                    None => Value::Null,
                },
                VarType::Boolean => match parse_bool(s.as_str()) {
                    Some(b) => Value::Boolean(b),
                    None => Value::Null,
                },
                VarType::Double => if is_float_literal(s.as_str()) {
                    match parsed_double {
                        Some(bits) => Value::Double(bits),
                        None => Value::Null,
                    }
                } else {
                    Value::Null
                },
                _ => Value::Null,
            },
        }
    }
}

/// A raw value with text, of a type that can be typed in, is valid exactly when it
/// converts to a non-null value, and then the value has the declared type (for
/// doubles, given the parsed number whenever the text is a float literal).
pub proof fn lemma_valid_iff_converts(r: RawVariableValue, parsed_double: Option<u64>)
    requires
        r.value is Some,
        r.data_type == VarType::String || r.data_type == VarType::Long || r.data_type
            == VarType::Boolean || r.data_type == VarType::Double,
        r.data_type == VarType::Double && is_float_text(r.value->0@) ==> parsed_double is Some,
    ensures
        raw_is_valid(r) <==> raw_to_value(r, parsed_double) != ValueModel::Null,
        raw_is_valid(r) ==> model_var_type(raw_to_value(r, parsed_double)) == Some(r.data_type),
{
}

/// A raw value without text is valid and converts to null; one declared as an
/// object, a list or a reference is invalid and converts to null.
pub proof fn lemma_untyped_raw_values(r: RawVariableValue, parsed_double: Option<u64>)
    ensures
        r.value is None ==> raw_is_valid(r) && raw_to_value(r, parsed_double) == ValueModel::Null,
        (r.data_type == VarType::Object || r.data_type == VarType::List || r.data_type
            == VarType::Reference) && r.value is Some ==> !raw_is_valid(r) && raw_to_value(
            r,
            parsed_double,
        ) == ValueModel::Null,
{
}


impl PartialEq for VariableDesciption {
    fn eq(&self, other: &Self) -> (r: bool) {
        self.name == other.name && self.data_type == other.data_type
    }
}

impl vstd::std_specs::cmp::PartialEqSpecImpl for VariableDesciption {
    open spec fn obeys_eq_spec() -> bool {
        true
    }

    open spec fn eq_spec(&self, other: &Self) -> bool {
        self.name@ == other.name@ && self.data_type == other.data_type
    }
}

impl PartialEq for Variable {
    fn eq(&self, other: &Self) -> (r: bool) {
        self.name == other.name && self.data_type == other.data_type
    }
}

impl vstd::std_specs::cmp::PartialEqSpecImpl for Variable {
    open spec fn obeys_eq_spec() -> bool {
        true
    }

    open spec fn eq_spec(&self, other: &Self) -> bool {
        self.name@ == other.name@ && self.data_type == other.data_type
    }
}

pub open spec fn same_text(a: Option<String>, b: Option<String>) -> bool {
    match (a, b) {
        (Some(x), Some(y)) => x@ == y@,
        (None, None) => true,
        _ => false,
    }
}

impl PartialEq for RawVariableValue {
    fn eq(&self, other: &Self) -> (r: bool) {
        let same_value = match (&self.value, &other.value) {
            (Some(x), Some(y)) => *x == *y,
            (None, None) => true,
            _ => false,
        };
        same_value && self.name == other.name && self.data_type == other.data_type
    }
}

impl vstd::std_specs::cmp::PartialEqSpecImpl for RawVariableValue {
    open spec fn obeys_eq_spec() -> bool {
        true
    }

    open spec fn eq_spec(&self, other: &Self) -> bool {
        &&& same_text(self.value, other.value)
        &&& self.name@ == other.name@
        &&& self.data_type == other.data_type
    }
}

} // verus!

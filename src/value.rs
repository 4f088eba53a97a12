use vstd::arithmetic::power2::{lemma2_to64, lemma2_to64_rest, pow2};
use vstd::bits::{lemma_u64_shl_is_mul, lemma_u64_shr_is_div};
use vstd::prelude::*;

use crate::error::AgentError;
use crate::text::{owned, str_eq};

verus! {

/// A value carried between agents. A number is held as the bit pattern of an
/// IEEE-754 double. An object keeps its entries in order; a lookup finds the
/// first entry under a key, and `set` replaces that entry or appends one.
#[derive(Debug, PartialEq)]
pub enum AgentValue {
    Unit,
    Boolean(bool),
    Integer(i64),
    Number(u64),
    String(String),
    Array(Vec<AgentValue>),
    Object(Vec<(String, AgentValue)>),
}

/// A JSON document tree. Integral numbers that fit an `i64` are `Int`; every
/// other number is `Float`, held as the bit pattern of an IEEE-754 double.
#[derive(Debug, PartialEq)]
pub enum JsonValue {
    Null,
    Bool(bool),
    Int(i64),
    Float(u64),
    Str(String),
    Array(Vec<JsonValue>),
    Object(Vec<(String, JsonValue)>),
}

/// A double is finite when its exponent bits are not all set.
pub open spec fn finite_bits(b: u64) -> bool {
    (b >> 52u64) & 0x7ffu64 != 0x7ffu64
}

/// The mathematical form of a value.
pub enum Value {
    Unit,
    Boolean(bool),
    Integer(i64),
    Number(u64),
    Str(Seq<char>),
    Array(Seq<Value>),
    Object(Seq<(Seq<char>, Value)>),
}

/// The mathematical form of a JSON tree.
pub enum Json {
    Null,
    Bool(bool),
    Int(i64),
    Float(u64),
    Str(Seq<char>),
    Array(Seq<Json>),
    Object(Seq<(Seq<char>, Json)>),
}

pub open spec fn value_of(v: AgentValue) -> Value
    decreases v,
{
    match v {
        AgentValue::Unit => Value::Unit,
        AgentValue::Boolean(b) => Value::Boolean(b),
        AgentValue::Integer(i) => Value::Integer(i),
        AgentValue::Number(n) => Value::Number(n),
        AgentValue::String(s) => Value::Str(s@),
        AgentValue::Array(a) => Value::Array(
            Seq::new(a@.len(), |i: int| if 0 <= i < a.len() { value_of(a[i]) } else { Value::Unit }),
        ),
        AgentValue::Object(o) => Value::Object(
            Seq::new(
                o@.len(),
                |i: int|
                    if 0 <= i < o.len() {
                        (o[i].0@, value_of(o[i].1))
                    } else {
                        (Seq::empty(), Value::Unit)
                    },
            ),
        ),
    }
}

pub open spec fn json_of(j: JsonValue) -> Json
    decreases j,
{
    match j {
        JsonValue::Null => Json::Null,
        JsonValue::Bool(b) => Json::Bool(b),
        JsonValue::Int(i) => Json::Int(i),
        JsonValue::Float(n) => Json::Float(n),
        JsonValue::Str(s) => Json::Str(s@),
        JsonValue::Array(a) => Json::Array(
            Seq::new(a@.len(), |i: int| if 0 <= i < a.len() { json_of(a[i]) } else { Json::Null }),
        ),
        JsonValue::Object(o) => Json::Object(
            Seq::new(
                o@.len(),
                |i: int|
                    if 0 <= i < o.len() {
                        (o[i].0@, json_of(o[i].1))
                    } else {
                        (Seq::empty(), Json::Null)
                    },
            ),
        ),
    }
}

impl View for AgentValue {
    type V = Value;

    open spec fn view(&self) -> Value {
        value_of(*self)
    }
}

impl View for JsonValue {
    type V = Json;

    open spec fn view(&self) -> Json {
        json_of(*self)
    }
}

/// The JSON form of a value. JSON has no infinities or NaN: such a number
/// becomes `null`.
pub open spec fn json_form(v: Value) -> Json
    decreases v,
{
    match v {
        Value::Unit => Json::Null,
        Value::Boolean(b) => Json::Bool(b),
        Value::Integer(i) => Json::Int(i),
        Value::Number(n) => if finite_bits(n) { Json::Float(n) } else { Json::Null },
        Value::Str(s) => Json::Str(s),
        Value::Array(a) => Json::Array(
            Seq::new(a.len(), |i: int| if 0 <= i < a.len() { json_form(a[i]) } else { Json::Null }),
        ),
        Value::Object(o) => Json::Object(
            Seq::new(
                o.len(),
                |i: int|
                    if 0 <= i < o.len() {
                        (o[i].0, json_form(o[i].1))
                    } else {
                        (Seq::empty(), Json::Null)
                    },
            ),
        ),
    }
}

/// A JSON tree can be read as a value when every float in it is finite.
pub open spec fn decodable(j: Json) -> bool
    decreases j,
{
    match j {
        Json::Float(n) => finite_bits(n),
        Json::Array(a) => forall|i: int| 0 <= i < a.len() ==> decodable(#[trigger] a[i]),
        Json::Object(o) => forall|i: int| 0 <= i < o.len() ==> decodable(#[trigger] o[i].1),
        _ => true,
    }
}

/// The value that a decodable JSON tree stands for.
pub open spec fn value_form(j: Json) -> Value
    decreases j,
{
    match j {
        Json::Null => Value::Unit,
        Json::Bool(b) => Value::Boolean(b),
        Json::Int(i) => Value::Integer(i),
        Json::Float(n) => Value::Number(n),
        Json::Str(s) => Value::Str(s),
        Json::Array(a) => Value::Array(
            Seq::new(a.len(), |i: int| if 0 <= i < a.len() { value_form(a[i]) } else { Value::Unit }),
        ),
        Json::Object(o) => Value::Object(
            Seq::new(
                o.len(),
                |i: int|
                    if 0 <= i < o.len() {
                        (o[i].0, value_form(o[i].1))
                    } else {
                        (Seq::empty(), Value::Unit)
                    },
            ),
        ),
    }
}

/// Every number in the value is finite.
pub open spec fn finite_numbers(v: Value) -> bool
    decreases v,
{
    match v {
        Value::Number(n) => finite_bits(n),
        Value::Array(a) => forall|i: int| 0 <= i < a.len() ==> finite_numbers(#[trigger] a[i]),
        Value::Object(o) => forall|i: int| 0 <= i < o.len() ==> finite_numbers(#[trigger] o[i].1),
        _ => true,
    }
}

/// The first entry under `k`, if any.
pub open spec fn lookup(o: Seq<(Seq<char>, Value)>, k: Seq<char>) -> Option<Value>
    decreases o.len(),
{
    if o.len() == 0 {
        None
    } else if o[0].0 == k {
        Some(o[0].1)
    } else {
        lookup(o.drop_first(), k)
    }
}

/// The entries with `v` stored under `k`: the first entry under `k` is
/// replaced, or the pair is appended when there is none.
pub open spec fn put(o: Seq<(Seq<char>, Value)>, k: Seq<char>, v: Value) -> Seq<(Seq<char>, Value)>
    decreases o.len(),
{
    if o.len() == 0 {
        seq![(k, v)]
    } else if o[0].0 == k {
        o.update(0, (k, v))
    } else {
        seq![o[0]] + put(o.drop_first(), k, v)
    }
}

pub open spec fn get_spec(v: Value, k: Seq<char>) -> Option<Value> {
    match v {
        Value::Object(o) => lookup(o, k),
        _ => None,
    }
}

/// Tests the exponent bits of a double.
pub fn is_finite_bits(b: u64) -> (r: bool)
    ensures
        r == finite_bits(b),
{
    (b >> 52u64) & 0x7ffu64 != 0x7ffu64
}

impl AgentValue {
    /// A copy of this value that shares nothing with it.
    pub fn deep_copy(&self) -> (r: Self)
        ensures
            r@ == self@,
    {
        Self::copy_of(self)
    }

    fn copy_of(v: &AgentValue) -> (r: Self)
        ensures
            r@ == v@,
        decreases v,
    {
        match v {
            AgentValue::Unit => AgentValue::Unit,
            AgentValue::Boolean(b) => AgentValue::Boolean(*b),
            AgentValue::Integer(i) => AgentValue::Integer(*i),
            AgentValue::Number(n) => AgentValue::Number(*n),
            AgentValue::String(s) => AgentValue::String(s.clone()),
            AgentValue::Array(a) => {
                let mut out: Vec<AgentValue> = Vec::new();
                let mut i: usize = 0;
                while i < a.len()
                    invariant
                        *v == AgentValue::Array(*a),
                        i <= a.len(),
                        out.len() == i,
                        forall|k: int| 0 <= k < i ==> (#[trigger] out[k])@ == a[k]@,
                    decreases a.len() - i,
                {
                    assert(v@->Array_0[i as int] == a[i as int]@);
                    out.push(Self::copy_of(&a[i]));
                    i = i + 1;
                }
                let r = AgentValue::Array(out);
                assert(r@->Array_0 =~= v@->Array_0);
                r
            },
            AgentValue::Object(o) => {
                let mut out: Vec<(String, AgentValue)> = Vec::new();
                let mut i: usize = 0;
                while i < o.len()
                    invariant
                        *v == AgentValue::Object(*o),
                        i <= o.len(),
                        out.len() == i,
                        forall|k: int|
                            0 <= k < i ==> (#[trigger] out[k]).0@ == o[k].0@ && out[k].1@ == o[k].1@,
                    decreases o.len() - i,
                {
                    assert(v@->Object_0[i as int].1 == o[i as int].1@);
                    out.push((o[i].0.clone(), Self::copy_of(&o[i].1)));
                    i = i + 1;
                }
                let r = AgentValue::Object(out);
                assert(r@->Object_0 =~= v@->Object_0);
                r
            },
        }
    }

    /// The JSON form of this value.
    pub fn to_json(&self) -> (r: JsonValue)
        ensures
            r@ == json_form(self@),
    {
        Self::json_of_value(self)
    }

    fn json_of_value(v: &AgentValue) -> (r: JsonValue)
        ensures
            r@ == json_form(v@),
        decreases v,
    {
        match v {
            AgentValue::Unit => JsonValue::Null,
            AgentValue::Boolean(b) => JsonValue::Bool(*b),
            AgentValue::Integer(i) => JsonValue::Int(*i),
            AgentValue::Number(n) => if is_finite_bits(*n) {
                JsonValue::Float(*n)
            } else {
                JsonValue::Null
            },
            AgentValue::String(s) => JsonValue::Str(s.clone()),
            AgentValue::Array(a) => {
                let mut out: Vec<JsonValue> = Vec::new();
                let mut i: usize = 0;
                while i < a.len()
                    invariant
                        *v == AgentValue::Array(*a),
                        i <= a.len(),
                        out.len() == i,
                        forall|k: int| 0 <= k < i ==> (#[trigger] out[k])@ == json_form(a[k]@),
                    decreases a.len() - i,
                {
                    assert(v@->Array_0[i as int] == a[i as int]@);
                    out.push(Self::json_of_value(&a[i]));
                    i = i + 1;
                }
                let r = JsonValue::Array(out);
                assert(r@->Array_0 =~= json_form(v@)->Array_0);
                r
            },
            AgentValue::Object(o) => {
                let mut out: Vec<(String, JsonValue)> = Vec::new();
                let mut i: usize = 0;
                while i < o.len()
                    invariant
                        *v == AgentValue::Object(*o),
                        i <= o.len(),
                        out.len() == i,
                        forall|k: int|
                            0 <= k < i ==> (#[trigger] out[k]).0@ == o[k].0@ && out[k].1@ == json_form(
                                o[k].1@,
                            ),
                    decreases o.len() - i,
                {
                    assert(v@->Object_0[i as int].1 == o[i as int].1@);
                    out.push((o[i].0.clone(), Self::json_of_value(&o[i].1)));
                    i = i + 1;
                }
                let r = JsonValue::Object(out);
                assert(r@->Object_0 =~= json_form(v@)->Object_0);
                r
            },
        }
    }

    /// Reads a JSON tree. Fails with `InvalidValue` when a float in it is not
    /// finite.
    pub fn from_json(value: JsonValue) -> (r: Result<Self, AgentError>)
        ensures
            r is Ok <==> decodable(value@),
            r is Ok ==> r->Ok_0@ == value_form(value@),
            r is Err ==> r->Err_0 is InvalidValue,
    {
        Self::read_json(&value)
    }

    fn read_json(value: &JsonValue) -> (r: Result<Self, AgentError>)
        ensures
            r is Ok <==> decodable(value@),
            r is Ok ==> r->Ok_0@ == value_form(value@),
            r is Err ==> r->Err_0 is InvalidValue,
        decreases value,
    {
        match value {
            JsonValue::Null => Ok(AgentValue::Unit),
            JsonValue::Bool(b) => Ok(AgentValue::Boolean(*b)),
            JsonValue::Int(i) => Ok(AgentValue::Integer(*i)),
            JsonValue::Float(n) => if is_finite_bits(*n) {
                Ok(AgentValue::Number(*n))
            } else {
                Err(AgentError::InvalidValue(owned("Invalid numeric value for AgentValue")))
            },
            JsonValue::Str(s) => Ok(AgentValue::String(s.clone())),
            JsonValue::Array(a) => {
                let mut out: Vec<AgentValue> = Vec::new();
                let mut i: usize = 0;
                while i < a.len()
                    invariant
                        *value == JsonValue::Array(*a),
                        i <= a.len(),
                        out.len() == i,
                        forall|k: int| 0 <= k < i ==> decodable(#[trigger] a[k]@),
                        forall|k: int| 0 <= k < i ==> (#[trigger] out[k])@ == value_form(a[k]@),
                    decreases a.len() - i,
                {
                    match Self::read_json(&a[i]) {
                        Ok(v) => out.push(v),
                        Err(e) => {
                            assert(!decodable(value@->Array_0[i as int]));
                            return Err(e);
                        },
                    }
                    i = i + 1;
                }
                let r = AgentValue::Array(out);
                assert(r@->Array_0 =~= value_form(value@)->Array_0);
                assert forall|k: int| 0 <= k < value@->Array_0.len() implies decodable(
                    #[trigger] value@->Array_0[k],
                ) by {
                    assert(value@->Array_0[k] == a[k]@);
                }
                Ok(r)
            },
            JsonValue::Object(o) => {
                let mut out: Vec<(String, AgentValue)> = Vec::new();
                let mut i: usize = 0;
                while i < o.len()
                    invariant
                        *value == JsonValue::Object(*o),
                        i <= o.len(),
                        out.len() == i,
                        forall|k: int| 0 <= k < i ==> decodable(#[trigger] o[k].1@),
                        forall|k: int|
                            0 <= k < i ==> (#[trigger] out[k]).0@ == o[k].0@ && out[k].1@ == value_form(
                                o[k].1@,
                            ),
                    decreases o.len() - i,
                {
                    match Self::read_json(&o[i].1) {
                        Ok(v) => out.push((o[i].0.clone(), v)),
                        Err(e) => {
                            assert(!decodable(value@->Object_0[i as int].1));
                            return Err(e);
                        },
                    }
                    i = i + 1;
                }
                let r = AgentValue::Object(out);
                assert(r@->Object_0 =~= value_form(value@)->Object_0);
                assert forall|k: int| 0 <= k < value@->Object_0.len() implies decodable(
                    #[trigger] value@->Object_0[k].1,
                ) by {
                    assert(value@->Object_0[k].1 == o[k].1@);
                }
                Ok(r)
            },
        }
    }
}

impl AgentValue {
    pub fn unit() -> (r: Self)
        ensures
            r@ == Value::Unit,
    {
        AgentValue::Unit
    }

    pub fn boolean(value: bool) -> (r: Self)
        ensures
            r@ == Value::Boolean(value),
    {
        AgentValue::Boolean(value)
    }

    pub fn integer(value: i64) -> (r: Self)
        ensures
            r@ == Value::Integer(value),
    {
        AgentValue::Integer(value)
    }

    /// A number, given as the bit pattern of an IEEE-754 double.
    pub fn number(bits: u64) -> (r: Self)
        ensures
            r@ == Value::Number(bits),
    {
        AgentValue::Number(bits)
    }

    pub fn string(value: &str) -> (r: Self)
        ensures
            r@ == Value::Str(value@),
    {
        AgentValue::String(owned(value))
    }

    /// An object holding the given entries, one per key: an entry whose key
    /// came earlier replaces the earlier value in its place.
    pub fn object(entries: Vec<(String, AgentValue)>) -> (r: Self)
        ensures
            r@ == Value::Object(put_all(pairs_model(entries))),
            unique_keys(r@->Object_0),
    {
        let ghost all = pairs_model(entries);
        let mut r = AgentValue::object_default();
        let mut i: usize = 0;
        assert(all.subrange(0, 0) =~= Seq::<(Seq<char>, Value)>::empty());
        while i < entries.len()
            invariant
                i <= entries.len(),
                all == pairs_model(entries),
                r@ == Value::Object(put_all(all.subrange(0, i as int))),
                unique_keys(r@->Object_0),
            decreases entries.len() - i,
        {
            let ghost sub = all.subrange(0, i as int + 1);
            assert(sub.drop_last() =~= all.subrange(0, i as int));
            assert(sub.last() == (entries[i as int].0@, entries[i as int].1@));
            proof {
                law_put_keeps_keys_unique(r@->Object_0, entries[i as int].0@, entries[i as int].1@);
            }
            let _ = r.set(entries[i].0.clone(), entries[i].1.deep_copy());
            i = i + 1;
        }
        assert(all.subrange(0, all.len() as int) =~= all);
        r
    }

    pub fn array(items: Vec<AgentValue>) -> (r: Self)
        ensures
            r == AgentValue::Array(items),
    {
        AgentValue::Array(items)
    }

    pub fn boolean_default() -> (r: Self)
        ensures
            r@ == Value::Boolean(false),
    {
        AgentValue::Boolean(false)
    }

    pub fn integer_default() -> (r: Self)
        ensures
            r@ == Value::Integer(0),
    {
        AgentValue::Integer(0)
    }

    /// The number zero.
    pub fn number_default() -> (r: Self)
        ensures
            r@ == Value::Number(0),
    {
        AgentValue::Number(0)
    }

    pub fn string_default() -> (r: Self)
        ensures
            r@ == Value::Str(Seq::empty()),
    {
        AgentValue::String(String::new())
    }

    pub fn array_default() -> (r: Self)
        ensures
            r@ == Value::Array(Seq::empty()),
    {
        let r = AgentValue::Array(Vec::new());
        assert(r@->Array_0 =~= Seq::empty());
        r
    }

    pub fn object_default() -> (r: Self)
        ensures
            r@ == Value::Object(Seq::empty()),
    {
        let r = AgentValue::Object(Vec::new());
        assert(r@->Object_0 =~= Seq::empty());
        r
    }

    pub fn is_unit(&self) -> (r: bool)
        ensures
            r == (self@ is Unit),
    {
        match self {
            AgentValue::Unit => true,
            _ => false,
        }
    }

    pub fn is_boolean(&self) -> (r: bool)
        ensures
            r == (self@ is Boolean),
    {
        match self {
            AgentValue::Boolean(_) => true,
            _ => false,
        }
    }

    pub fn is_integer(&self) -> (r: bool)
        ensures
            r == (self@ is Integer),
    {
        match self {
            AgentValue::Integer(_) => true,
            _ => false,
        }
    }

    pub fn is_number(&self) -> (r: bool)
        ensures
            r == (self@ is Number),
    {
        match self {
            AgentValue::Number(_) => true,
            _ => false,
        }
    }

    pub fn is_string(&self) -> (r: bool)
        ensures
            r == (self@ is Str),
    {
        match self {
            AgentValue::String(_) => true,
            _ => false,
        }
    }

    pub fn is_array(&self) -> (r: bool)
        ensures
            r == (self@ is Array),
    {
        match self {
            AgentValue::Array(_) => true,
            _ => false,
        }
    }

    pub fn is_object(&self) -> (r: bool)
        ensures
            r == (self@ is Object),
    {
        match self {
            AgentValue::Object(_) => true,
            _ => false,
        }
    }

    pub fn as_bool(&self) -> (r: Option<bool>)
        ensures
            r == (match self@ {
                Value::Boolean(b) => Some(b),
                _ => None::<bool>,
            }),
    {
        match self {
            AgentValue::Boolean(b) => Some(*b),
            _ => None,
        }
    }

    pub fn as_str(&self) -> (r: Option<&str>)
        ensures
            r is Some <==> self@ is Str,
            r is Some ==> r->0@ == self@->Str_0,
    {
        match self {
            AgentValue::String(s) => Some(s.as_str()),
            _ => None,
        }
    }

    pub fn as_object(&self) -> (r: Option<&Vec<(String, AgentValue)>>)
        ensures
            r is Some <==> self@ is Object,
            r is Some ==> *self == AgentValue::Object(*r->0),
    {
        match self {
            AgentValue::Object(o) => Some(o),
            _ => None,
        }
    }

    pub fn as_array(&self) -> (r: Option<&Vec<AgentValue>>)
        ensures
            r is Some <==> self@ is Array,
            r is Some ==> *self == AgentValue::Array(*r->0),
    {
        match self {
            AgentValue::Array(a) => Some(a),
            _ => None,
        }
    }

    /// The first entry under `key` of an object.
    pub fn get(&self, key: &str) -> (r: Option<&AgentValue>)
        ensures
            r is Some <==> get_spec(self@, key@) is Some,
            r is Some ==> get_spec(self@, key@) == Some(r->0@),
    {
        match self {
            AgentValue::Object(o) => {
                let ghost m = self@->Object_0;
                assert(m.subrange(0, m.len() as int) =~= m);
                let mut i: usize = 0;
                while i < o.len()
                    invariant
                        *self == AgentValue::Object(*o),
                        m == self@->Object_0,
                        i <= o.len(),
                        lookup(m, key@) == lookup(m.subrange(i as int, m.len() as int), key@),
                    decreases o.len() - i,
                {
                    let ghost rest = m.subrange(i as int, m.len() as int);
                    assert(rest[0] == m[i as int]);
                    if str_eq(o[i].0.as_str(), key) {
                        return Some(&o[i].1);
                    }
                    assert(rest.drop_first() =~= m.subrange(i + 1, m.len() as int));
                    i = i + 1;
                }
                None
            },
            _ => None,
        }
    }

    pub fn get_bool(&self, key: &str) -> (r: Option<bool>)
        ensures
            r == (match get_spec(self@, key@) {
                Some(Value::Boolean(b)) => Some(b),
                _ => None::<bool>,
            }),
    {
        match self.get(key) {
            Some(v) => v.as_bool(),
            None => None,
        }
    }

    pub fn get_str(&self, key: &str) -> (r: Option<&str>)
        ensures
            r is Some <==> get_spec(self@, key@) matches Some(Value::Str(_)),
            r is Some ==> get_spec(self@, key@) == Some(Value::Str(r->0@)),
    {
        match self.get(key) {
            Some(v) => v.as_str(),
            None => None,
        }
    }

    pub fn get_object(&self, key: &str) -> (r: Option<&Vec<(String, AgentValue)>>)
        ensures
            r is Some <==> get_spec(self@, key@) matches Some(Value::Object(_)),
            r is Some ==> get_spec(self@, key@) == Some(AgentValue::Object(*r->0)@),
    {
        match self.get(key) {
            Some(v) => v.as_object(),
            None => None,
        }
    }

    pub fn get_array(&self, key: &str) -> (r: Option<&Vec<AgentValue>>)
        ensures
            r is Some <==> get_spec(self@, key@) matches Some(Value::Array(_)),
            r is Some ==> get_spec(self@, key@) == Some(AgentValue::Array(*r->0)@),
    {
        match self.get(key) {
            Some(v) => v.as_array(),
            None => None,
        }
    }
}

proof fn lemma_put_at(m: Seq<(Seq<char>, Value)>, k: Seq<char>, v: Value, i: int)
    requires
        0 <= i < m.len(),
        m[i].0 == k,
        forall|j: int| 0 <= j < i ==> (#[trigger] m[j]).0 != k,
    ensures
        put(m, k, v) == m.update(i, (k, v)),
    decreases m.len(),
{
    if i > 0 {
        assert(m[0].0 != k);
        let t = m.drop_first();
        assert forall|j: int| 0 <= j < i - 1 implies (#[trigger] t[j]).0 != k by {
            assert(t[j] == m[j + 1]);
        }
        lemma_put_at(t, k, v, i - 1);
        assert(put(m, k, v) =~= m.update(i, (k, v)));
    }
}

proof fn lemma_put_absent(m: Seq<(Seq<char>, Value)>, k: Seq<char>, v: Value)
    requires
        forall|j: int| 0 <= j < m.len() ==> (#[trigger] m[j]).0 != k,
    ensures
        put(m, k, v) == m.push((k, v)),
    decreases m.len(),
{
    if m.len() > 0 {
        assert(m[0].0 != k);
        let t = m.drop_first();
        assert forall|j: int| 0 <= j < t.len() implies (#[trigger] t[j]).0 != k by {
            assert(t[j] == m[j + 1]);
        }
        lemma_put_absent(t, k, v);
        assert(put(m, k, v) =~= m.push((k, v)));
    }
}

impl AgentValue {
    /// Stores `value` under `key` in an object, replacing the first entry
    /// under that key or appending one. Anything but an object is left as it
    /// is and `InvalidValue` comes back.
    pub fn set(&mut self, key: String, value: AgentValue) -> (r: Result<(), AgentError>)
        ensures
            old(self)@ is Object ==> r is Ok && final(self)@ == Value::Object(
                put(old(self)@->Object_0, key@, value@),
            ),
            !(old(self)@ is Object) ==> r is Err && r->Err_0 is InvalidValue && final(self)@ == old(
                self,
            )@,
    {
        let mut taken = AgentValue::Unit;
        std::mem::swap(self, &mut taken);
        match taken {
            AgentValue::Object(mut o) => {
                let ghost m = AgentValue::Object(o)@->Object_0;
                let mut i: usize = 0;
                while i < o.len()
                    invariant
                        m == AgentValue::Object(o)@->Object_0,
                        i <= o.len(),
                        forall|j: int| 0 <= j < i ==> (#[trigger] m[j]).0 != key@,
                    ensures
                        i <= o.len(),
                        forall|j: int| 0 <= j < i ==> (#[trigger] m[j]).0 != key@,
                        i < o.len() ==> m[i as int].0 == key@,
                    decreases o.len() - i,
                {
                    assert(m[i as int].0 == o[i as int].0@);
                    if o[i].0 == key {
                        break;
                    }
                    i = i + 1;
                }
                let ghost vm = value@;
                let ghost km = key@;
                if i < o.len() {
                    proof {
                        lemma_put_at(m, km, vm, i as int);
                    }
                    o.remove(i);
                    o.insert(i, (key, value));
                    let r = AgentValue::Object(o);
                    assert(r@->Object_0 =~= m.update(i as int, (km, vm)));
                    *self = r;
                } else {
                    proof {
                        lemma_put_absent(m, km, vm);
                    }
                    o.push((key, value));
                    let r = AgentValue::Object(o);
                    assert(r@->Object_0 =~= m.push((km, vm)));
                    *self = r;
                }
                Ok(())
            },
            other => {
                *self = other;
                Err(AgentError::InvalidValue(owned("set can only be called on Object AgentValue")))
            },
        }
    }
}

/// The integer part of a double, as Rust's `as i64` gives it: truncated
/// toward zero, saturating at the bounds of `i64`, and zero for NaN.
pub open spec fn trunc_bits(b: u64) -> i64 {
    let exp = ((b >> 52u64) & 0x7ffu64) as int;
    let frac = (b & 0xf_ffff_ffff_ffffu64) as int;
    let neg = (b >> 63u64) == 1;
    if exp == 0x7ff && frac != 0 {
        0
    } else if exp < 1023 {
        0
    } else if exp >= 1086 {
        if neg { i64::MIN } else { i64::MAX }
    } else {
        let m = frac + pow2(52);
        let e = exp - 1023;
        let mag = if e >= 52 { m * pow2((e - 52) as nat) } else { m / (pow2((52 - e) as nat) as int) };
        (if neg { -mag } else { mag }) as i64
    }
}

/// Truncates a double, given by its bits, to an `i64`.
pub fn trunc_to_i64(b: u64) -> (r: i64)
    ensures
        r == trunc_bits(b),
{
    let exp = (b >> 52u64) & 0x7ffu64;
    let frac = b & 0xf_ffff_ffff_ffffu64;
    let neg = (b >> 63u64) == 1;
    if exp == 0x7ff && frac != 0 {
        return 0;
    }
    if exp < 1023 {
        return 0;
    }
    if exp >= 1086 {
        return if neg { i64::MIN } else { i64::MAX };
    }
    assert(frac <= 0xf_ffff_ffff_ffffu64) by (bit_vector)
        requires frac == b & 0xf_ffff_ffff_ffffu64;
    assert((frac | 0x10_0000_0000_0000u64) == frac + 0x10_0000_0000_0000u64) by (bit_vector)
        requires frac <= 0xf_ffff_ffff_ffffu64;
    let m: u64 = frac | 0x10_0000_0000_0000u64;
    proof {
        lemma2_to64();
        lemma2_to64_rest();
    }
    let e: u64 = exp - 1023;
    let mag: u64 = if e >= 52 {
        let sh: u64 = e - 52;
        assert(pow2(sh as nat) <= 1024) by {
            lemma2_to64();
        }
        proof {
            vstd::arithmetic::power2::lemma_pow2_pos(sh as nat);
        }
        assert(m * pow2(sh as nat) < 0x20_0000_0000_0000 * 1024) by (nonlinear_arith)
            requires m < 0x20_0000_0000_0000, 1 <= pow2(sh as nat) <= 1024;
        proof {
            lemma_u64_shl_is_mul(m, sh);
        }
        let x = m << sh;
        assert(x < 0x8000_0000_0000_0000u64);
        x
    } else {
        let sh: u64 = 52 - e;
        proof {
            lemma_u64_shr_is_div(m, sh);
            vstd::arithmetic::power2::lemma_pow2_pos(sh as nat);
            vstd::arithmetic::div_mod::lemma_div_is_ordered_by_denominator(m as int, 1, pow2(sh as nat) as int);
        }
        let x = m >> sh;
        assert(x < 0x8000_0000_0000_0000u64);
        x
    };
    assert(pow2(52) == 0x10_0000_0000_0000);
    if neg {
        -(mag as i64)
    } else {
        mag as i64
    }
}

/// What `as_i64` gives for a value.
pub open spec fn as_i64_spec(v: Value) -> Option<i64> {
    match v {
        Value::Integer(i) => Some(i),
        Value::Number(n) => Some(trunc_bits(n)),
        _ => None,
    }
}

impl AgentValue {
    /// The value as an integer; a number is truncated toward zero.
    pub fn as_i64(&self) -> (r: Option<i64>)
        ensures
            r == as_i64_spec(self@),
    {
        match self {
            AgentValue::Integer(i) => Some(*i),
            AgentValue::Number(n) => Some(trunc_to_i64(*n)),
            _ => None,
        }
    }

    pub fn get_i64(&self, key: &str) -> (r: Option<i64>)
        ensures
            r == (match get_spec(self@, key@) {
                Some(v) => as_i64_spec(v),
                None => None::<i64>,
            }),
    {
        match self.get(key) {
            Some(v) => v.as_i64(),
            None => None,
        }
    }
}

impl JsonValue {
    /// A copy of this tree that shares nothing with it.
    pub fn deep_copy(&self) -> (r: Self)
        ensures
            r@ == self@,
    {
        Self::copy_of(self)
    }

    fn copy_of(v: &JsonValue) -> (r: Self)
        ensures
            r@ == v@,
        decreases v,
    {
        match v {
            JsonValue::Null => JsonValue::Null,
            JsonValue::Bool(b) => JsonValue::Bool(*b),
            JsonValue::Int(i) => JsonValue::Int(*i),
            JsonValue::Float(n) => JsonValue::Float(*n),
            JsonValue::Str(s) => JsonValue::Str(s.clone()),
            JsonValue::Array(a) => {
                let mut out: Vec<JsonValue> = Vec::new();
                let mut i: usize = 0;
                while i < a.len()
                    invariant
                        *v == JsonValue::Array(*a),
                        i <= a.len(),
                        out.len() == i,
                        forall|k: int| 0 <= k < i ==> (#[trigger] out[k])@ == a[k]@,
                    decreases a.len() - i,
                {
                    assert(v@->Array_0[i as int] == a[i as int]@);
                    out.push(Self::copy_of(&a[i]));
                    i = i + 1;
                }
                let r = JsonValue::Array(out);
                assert(r@->Array_0 =~= v@->Array_0);
                r
            },
            JsonValue::Object(o) => {
                let mut out: Vec<(String, JsonValue)> = Vec::new();
                let mut i: usize = 0;
                while i < o.len()
                    invariant
                        *v == JsonValue::Object(*o),
                        i <= o.len(),
                        out.len() == i,
                        forall|k: int|
                            0 <= k < i ==> (#[trigger] out[k]).0@ == o[k].0@ && out[k].1@ == o[k].1@,
                    decreases o.len() - i,
                {
                    assert(v@->Object_0[i as int].1 == o[i as int].1@);
                    out.push((o[i].0.clone(), Self::copy_of(&o[i].1)));
                    i = i + 1;
                }
                let r = JsonValue::Object(out);
                assert(r@->Object_0 =~= v@->Object_0);
                r
            },
        }
    }
}

impl Clone for JsonValue {
    fn clone(&self) -> Self {
        self.deep_copy()
    }
}

impl AgentValue {
    /// The items of an array, to change in place.
    pub fn as_array_mut(&mut self) -> (r: Option<&mut Vec<AgentValue>>)
        ensures
            r is Some <==> old(self)@ is Array,
            r is Some ==> *old(self) == AgentValue::Array(*r->0) && *final(self) == AgentValue::Array(
                *final(r->0),
            ),
            r is None ==> *final(self) == *old(self),
    {
        match self {
            AgentValue::Array(a) => Some(a),
            _ => None,
        }
    }
}

impl AgentValue {
    /// The entries of an object, to change in place.
    pub fn as_object_mut(&mut self) -> (r: Option<&mut Vec<(String, AgentValue)>>)
        ensures
            r is Some <==> old(self)@ is Object,
            r is Some ==> *old(self) == AgentValue::Object(*r->0) && *final(self) == AgentValue::Object(
                *final(r->0),
            ),
            r is None ==> *final(self) == *old(self),
    {
        match self {
            AgentValue::Object(o) => Some(o),
            _ => None,
        }
    }

    fn key_index(&self, key: &str) -> (r: Option<usize>)
        ensures
            r is Some ==> self@ is Object && r->0 < self->Object_0@.len() && self->Object_0[r->0 as int].0@ == key@
                && (forall|j: int| 0 <= j < r->0 ==> (#[trigger] self->Object_0[j]).0@ != key@)
                && get_spec(self@, key@) == Some(self->Object_0[r->0 as int].1@),
            r is None ==> get_spec(self@, key@) is None,
    {
        match self {
            AgentValue::Object(o) => {
                let ghost m = self@->Object_0;
                assert(m.subrange(0, m.len() as int) =~= m);
                let mut i: usize = 0;
                while i < o.len()
                    invariant
                        *self == AgentValue::Object(*o),
                        m == self@->Object_0,
                        i <= o.len(),
                        forall|j: int| 0 <= j < i ==> (#[trigger] o[j]).0@ != key@,
                        lookup(m, key@) == lookup(m.subrange(i as int, m.len() as int), key@),
                    decreases o.len() - i,
                {
                    let ghost rest = m.subrange(i as int, m.len() as int);
                    assert(rest[0] == m[i as int]);
                    if str_eq(o[i].0.as_str(), key) {
                        return Some(i);
                    }
                    assert(rest.drop_first() =~= m.subrange(i + 1, m.len() as int));
                    i = i + 1;
                }
                None
            },
            _ => None,
        }
    }

    /// The first entry under `key` of an object, to change in place.
    pub fn get_mut(&mut self, key: &str) -> (r: Option<&mut AgentValue>)
        ensures
            r is Some <==> get_spec(old(self)@, key@) is Some,
            r is Some ==> get_spec(old(self)@, key@) == Some((*r->0)@) && exists|i: int|
                0 <= i < old(self)->Object_0@.len() && old(self)->Object_0[i].0@ == key@
                    && (forall|j: int| 0 <= j < i ==> (#[trigger] old(self)->Object_0[j]).0@ != key@)
                    && final(self)->Object_0@ == old(self)->Object_0@.update(
                    i,
                    (old(self)->Object_0[i].0, *final(r->0)),
                ),
            r is Some ==> final(self)@ is Object,
            r is None ==> *final(self) == *old(self),
    {
        let k = match self.key_index(key) {
            Some(k) => k,
            None => {
                return None;
            },
        };
        match self {
            AgentValue::Object(o) => Some(&mut o[k].1),
            _ => None,
        }
    }
}

impl AgentValue {
    /// The array under `key` of an object, to change in place.
    pub fn get_array_mut(&mut self, key: &str) -> (r: Option<&mut Vec<AgentValue>>)
        ensures
            r is Some <==> get_spec(old(self)@, key@) matches Some(Value::Array(_)),
            r is Some ==> get_spec(old(self)@, key@) == Some(AgentValue::Array(*r->0)@),
    {
        match self.get_mut(key) {
            Some(v) => v.as_array_mut(),
            None => None,
        }
    }

    /// The object under `key` of an object, to change in place.
    pub fn get_object_mut(&mut self, key: &str) -> (r: Option<&mut Vec<(String, AgentValue)>>)
        ensures
            r is Some <==> get_spec(old(self)@, key@) matches Some(Value::Object(_)),
            r is Some ==> get_spec(old(self)@, key@) == Some(AgentValue::Object(*r->0)@),
    {
        match self.get_mut(key) {
            Some(v) => v.as_object_mut(),
            None => None,
        }
    }
}

impl Default for AgentValue {
    fn default() -> (r: Self)
        ensures
            r == AgentValue::Unit,
    {
        AgentValue::Unit
    }
}

impl From<()> for AgentValue {
    fn from(_v: ()) -> Self {
        AgentValue::Unit
    }
}

impl vstd::std_specs::convert::FromSpecImpl<()> for AgentValue {
    open spec fn obeys_from_spec() -> bool {
        true
    }

    open spec fn from_spec(v: ()) -> AgentValue {
        AgentValue::Unit
    }
}

impl From<bool> for AgentValue {
    fn from(v: bool) -> Self {
        AgentValue::Boolean(v)
    }
}

impl vstd::std_specs::convert::FromSpecImpl<bool> for AgentValue {
    open spec fn obeys_from_spec() -> bool {
        true
    }

    open spec fn from_spec(v: bool) -> AgentValue {
        AgentValue::Boolean(v)
    }
}

impl From<i32> for AgentValue {
    fn from(v: i32) -> Self {
        AgentValue::Integer(v as i64)
    }
}

impl vstd::std_specs::convert::FromSpecImpl<i32> for AgentValue {
    open spec fn obeys_from_spec() -> bool {
        true
    }

    open spec fn from_spec(v: i32) -> AgentValue {
        AgentValue::Integer(v as i64)
    }
}

impl From<i64> for AgentValue {
    fn from(v: i64) -> Self {
        AgentValue::Integer(v)
    }
}

impl vstd::std_specs::convert::FromSpecImpl<i64> for AgentValue {
    open spec fn obeys_from_spec() -> bool {
        true
    }

    open spec fn from_spec(v: i64) -> AgentValue {
        AgentValue::Integer(v)
    }
}

impl From<String> for AgentValue {
    fn from(v: String) -> Self {
        AgentValue::String(v)
    }
}

impl vstd::std_specs::convert::FromSpecImpl<String> for AgentValue {
    open spec fn obeys_from_spec() -> bool {
        true
    }

    open spec fn from_spec(v: String) -> AgentValue {
        AgentValue::String(v)
    }
}

impl Clone for AgentValue {
    fn clone(&self) -> Self {
        self.deep_copy()
    }
}

/// Reading back the JSON form of a value whose numbers are all finite gives
/// the same value.
pub proof fn law_value_json_round_trip(v: AgentValue)
    requires
        finite_numbers(v@),
    ensures
        decodable(json_form(v@)),
        value_form(json_form(v@)) == v@,
{
    lemma_value_json_round_trip(v@);
}

/// Writing out the value that a decodable JSON tree stands for gives the same
/// tree.
pub proof fn law_json_value_round_trip(j: JsonValue)
    requires
        decodable(j@),
    ensures
        json_form(value_form(j@)) == j@,
{
    lemma_json_value_round_trip(j@);
}

proof fn lemma_value_json_round_trip(v: Value)
    requires
        finite_numbers(v),
    ensures
        decodable(json_form(v)),
        value_form(json_form(v)) == v,
    decreases v,
{
    match v {
        Value::Array(a) => {
            assert forall|i: int| 0 <= i < a.len() implies decodable(json_form(a[i]))
                && value_form(json_form(a[i])) == a[i] by {
                lemma_value_json_round_trip(a[i]);
            }
            let j = json_form(v);
            assert forall|i: int| 0 <= i < j->Array_0.len() implies decodable(
                #[trigger] j->Array_0[i],
            ) by {
                assert(j->Array_0[i] == json_form(a[i]));
            }
            assert(value_form(j)->Array_0 =~= a);
        },
        Value::Object(o) => {
            assert forall|i: int| 0 <= i < o.len() implies decodable(json_form(o[i].1))
                && value_form(json_form(o[i].1)) == o[i].1 by {
                lemma_value_json_round_trip(o[i].1);
            }
            let j = json_form(v);
            assert forall|i: int| 0 <= i < j->Object_0.len() implies decodable(
                #[trigger] j->Object_0[i].1,
            ) by {
                assert(j->Object_0[i].1 == json_form(o[i].1));
            }
            assert(value_form(j)->Object_0 =~= o);
        },
        _ => {},
    }
}

pub proof fn lemma_json_value_round_trip(j: Json)
    requires
        decodable(j),
    ensures
        json_form(value_form(j)) == j,
    decreases j,
{
    match j {
        Json::Array(a) => {
            assert forall|i: int| 0 <= i < a.len() implies json_form(value_form(a[i])) == a[i] by {
                lemma_json_value_round_trip(a[i]);
            }
            assert(json_form(value_form(j))->Array_0 =~= a);
        },
        Json::Object(o) => {
            assert forall|i: int| 0 <= i < o.len() implies json_form(value_form(o[i].1))
                == o[i].1 by {
                lemma_json_value_round_trip(o[i].1);
            }
            assert(json_form(value_form(j))->Object_0 =~= o);
        },
        _ => {},
    }
}

pub open spec fn pairs_model(v: Vec<(String, AgentValue)>) -> Seq<(Seq<char>, Value)> {
    Seq::new(v@.len(), |i: int| (v[i].0@, v[i].1@))
}

/// The entries after storing each pair in turn with `put`.
pub open spec fn put_all(es: Seq<(Seq<char>, Value)>) -> Seq<(Seq<char>, Value)>
    decreases es.len(),
{
    if es.len() == 0 {
        Seq::empty()
    } else {
        put(put_all(es.drop_last()), es.last().0, es.last().1)
    }
}

/// No two entries share a key.
pub open spec fn unique_keys(o: Seq<(Seq<char>, Value)>) -> bool {
    forall|i: int, j: int| 0 <= i < j < o.len() ==> (#[trigger] o[i]).0 != (#[trigger] o[j]).0
}

proof fn lemma_put_keys(o: Seq<(Seq<char>, Value)>, k: Seq<char>, v: Value, x: Seq<char>)
    ensures
        (exists|i: int| 0 <= i < put(o, k, v).len() && (#[trigger] put(o, k, v)[i]).0 == x) ==> (x == k || exists|i: int|
            0 <= i < o.len() && (#[trigger] o[i]).0 == x),
    decreases o.len(),
{
    let p = put(o, k, v);
    if o.len() > 0 && o[0].0 != k {
        lemma_put_keys(o.drop_first(), k, v, x);
        if exists|i: int| 0 <= i < p.len() && (#[trigger] p[i]).0 == x {
            let i = choose|i: int| 0 <= i < p.len() && (#[trigger] p[i]).0 == x;
            if i == 0 {
                assert(o[0].0 == x);
            } else {
                let q = put(o.drop_first(), k, v);
                assert(p[i] == q[i - 1]);
                if x != k {
                    let m = choose|m: int| 0 <= m < o.drop_first().len() && (#[trigger] o.drop_first()[m]).0 == x;
                    assert(o[m + 1].0 == x);
                }
            }
        }
    } else if o.len() > 0 {
        if exists|i: int| 0 <= i < p.len() && (#[trigger] p[i]).0 == x {
            let i = choose|i: int| 0 <= i < p.len() && (#[trigger] p[i]).0 == x;
            if i != 0 {
                assert(o[i].0 == x);
            }
        }
    }
}

/// Storing a value with `put` keeps the keys of an object unique.
pub proof fn law_put_keeps_keys_unique(o: Seq<(Seq<char>, Value)>, k: Seq<char>, v: Value)
    requires
        unique_keys(o),
    ensures
        unique_keys(put(o, k, v)),
    decreases o.len(),
{
    let p = put(o, k, v);
    if o.len() == 0 {
    } else if o[0].0 == k {
        assert forall|i: int, j: int| 0 <= i < j < p.len() implies (#[trigger] p[i]).0 != (#[trigger] p[j]).0 by {
            assert(o[i].0 != o[j].0);
        }
    } else {
        let d = o.drop_first();
        assert forall|i: int, j: int| 0 <= i < j < d.len() implies (#[trigger] d[i]).0 != (#[trigger] d[j]).0 by {
            assert(d[i] == o[i + 1] && d[j] == o[j + 1]);
        }
        law_put_keeps_keys_unique(d, k, v);
        let q = put(d, k, v);
        assert forall|i: int, j: int| 0 <= i < j < p.len() implies (#[trigger] p[i]).0 != (#[trigger] p[j]).0 by {
            if i == 0 {
                assert(p[j] == q[j - 1]);
                lemma_put_keys(d, k, v, o[0].0);
                if q[j - 1].0 == o[0].0 {
                    assert(exists|m: int| 0 <= m < q.len() && (#[trigger] q[m]).0 == o[0].0);
                    let m = choose|m: int| 0 <= m < d.len() && (#[trigger] d[m]).0 == o[0].0;
                    assert(o[m + 1].0 == o[0].0);
                }
            } else {
                assert(p[i] == q[i - 1] && p[j] == q[j - 1]);
            }
        }
    }
}

} // verus!

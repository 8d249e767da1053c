//! Building JSON values and reading them back.
use vstd::prelude::*;
use crate::bytes::copy_bytes;
use crate::grammar::literal_bytes;
use crate::number::{number_from_i32, number_to_i32, represents_int, saturating_i32};
use crate::value::{
    Json,
    JsonObject,
    JsonValue,
    Type,
    find_key,
    lemma_array_model,
    lemma_find_key_range,
    models,
    object_from_pairs,
    type_of,
};

verus! {

/// The shared `null` that lookups give for a missing element.
pub const NULL_JSON: Json = Json::Null;

/// The model of a list of `(key, value)` pairs, keys taken as UTF-8 bytes.
pub open spec fn pairs_model(items: Seq<(String, Json)>) -> Seq<(Seq<u8>, JsonValue)> {
    Seq::new(items.len(), |i: int| (literal_bytes(items[i].0@), items[i].1@))
}

/// `v` is the number `n` (`0` as `+0`).
pub open spec fn is_int_number(v: JsonValue, n: int) -> bool {
    &&& v is Number
    &&& represents_int(v->Number_0, n)
    &&& n == 0 ==> v->Number_0 == 0
}

/// `v` is the number `n`.
pub open spec fn is_i32_number(v: JsonValue, n: i32) -> bool {
    is_int_number(v, n as int)
}

/// The element of a model array at `i`, or `null`.
pub open spec fn element_at(v: JsonValue, i: int) -> JsonValue {
    match v {
        JsonValue::Array(a) => if 0 <= i < a.len() {
            a[i]
        } else {
            JsonValue::Null
        },
        _ => JsonValue::Null,
    }
}

/// The value of a model object under `key`, or `null`.
pub open spec fn member_at(v: JsonValue, key: Seq<u8>) -> JsonValue {
    match v {
        JsonValue::Object(o) => if find_key(o, key) >= 0 {
            o[find_key(o, key)].1
        } else {
            JsonValue::Null
        },
        _ => JsonValue::Null,
    }
}

impl Json {
    /// Build a JSON array from a list of values.
    pub fn array(items: Vec<Json>) -> (r: Json)
        ensures
            r@ == JsonValue::Array(models(items@)),
    {
        proof {
            lemma_array_model(items);
        }
        Json::Array(items)
    }

    /// Build a JSON object from `(key, value)` pairs; for a key given twice
    /// the later value is kept.
    pub fn object(items: Vec<(String, Json)>) -> (r: Json)
        ensures
            r@ == JsonValue::Object(object_from_pairs(pairs_model(items@))),
    {
        let ghost all = pairs_model(items@);
        let mut items = items;
        let mut data = JsonObject::new();
        let mut done: usize = 0;
        let total = items.len();
        assert(all.subrange(0, 0) =~= Seq::<(Seq<u8>, JsonValue)>::empty());
        assert(all.subrange(0, all.len() as int) =~= all);
        while items.len() > 0
            invariant
                all.len() == total,
                done + items@.len() == all.len(),
                pairs_model(items@) == all.subrange(done as int, all.len() as int),
                data.model() == object_from_pairs(all.subrange(0, done as int)),
            decreases items@.len(),
        {
            let ghost rest = items@;
            let (key, value) = items.remove(0);
            let k = copy_bytes(key.as_str().as_bytes());
            proof {
                assert(pairs_model(rest)[0] == (k@, value@));
                assert(all[done as int] == (k@, value@));
                assert(items@ =~= rest.subrange(1, rest.len() as int));
                assert(pairs_model(items@) =~= pairs_model(rest).subrange(1, rest.len() as int));
                assert(pairs_model(items@) =~= all.subrange(done + 1, all.len() as int));
                let p = all.subrange(0, done + 1);
                assert(p.drop_last() =~= all.subrange(0, done as int));
            }
            data.insert(k, value);
            done = done + 1;
        }
        assert(all.subrange(0, done as int) =~= all);
        Json::Object(data)
    }

    /// The type tag of this value.
    pub fn json_type(&self) -> (r: Type)
        ensures
            r == type_of(self@),
    {
        match self {
            Json::Null => Type::Null,
            Json::Number(_) => Type::Number,
            Json::Bool(_) => Type::Bool,
            Json::Str(_) => Type::Str,
            Json::Array(_) => Type::Array,
            Json::Object(_) => Type::Object,
        }
    }

    pub fn is_null(&self) -> (r: bool)
        ensures
            r == (type_of(self@) == Type::Null),
    {
        self.json_type() == Type::Null
    }

    pub fn is_number(&self) -> (r: bool)
        ensures
            r == (type_of(self@) == Type::Number),
    {
        self.json_type() == Type::Number
    }

    pub fn is_bool(&self) -> (r: bool)
        ensures
            r == (type_of(self@) == Type::Bool),
    {
        self.json_type() == Type::Bool
    }

    pub fn is_string(&self) -> (r: bool)
        ensures
            r == (type_of(self@) == Type::Str),
    {
        self.json_type() == Type::Str
    }

    pub fn is_array(&self) -> (r: bool)
        ensures
            r == (type_of(self@) == Type::Array),
    {
        self.json_type() == Type::Array
    }

    pub fn is_object(&self) -> (r: bool)
        ensures
            r == (type_of(self@) == Type::Object),
    {
        self.json_type() == Type::Object
    }

    /// The bit pattern of the number if this is a number, that of `0.0` otherwise.
    pub fn number_bits(&self) -> (r: u64)
        ensures
            r == (match self@ {
                JsonValue::Number(b) => b,
                _ => 0,
            }),
    {
        match self {
            Json::Number(b) => *b,
            _ => 0,
        }
    }

    /// The number truncated to `i32` (saturating; NaN gives 0) if this is a
    /// number, `0` otherwise.
    pub fn int_value(&self) -> (r: i32)
        ensures
            r == (match self@ {
                JsonValue::Number(b) => saturating_i32(b),
                _ => 0,
            }),
    {
        match self {
            Json::Number(b) => number_to_i32(*b),
            _ => 0,
        }
    }

    /// The boolean if this is a boolean, `false` otherwise.
    pub fn bool_value(&self) -> (r: bool)
        ensures
            r == (match self@ {
                JsonValue::Bool(b) => b,
                _ => false,
            }),
    {
        match self {
            Json::Bool(b) => *b,
            _ => false,
        }
    }

    /// The bytes of the string if this is a string, empty otherwise.
    pub fn string_value(&self) -> (r: &[u8])
        ensures
            r@ == (match self@ {
                JsonValue::Str(s) => s,
                _ => Seq::empty(),
            }),
    {
        match self {
            Json::Str(s) => s.as_slice(),
            _ => {
                let e: &[u8] = &[];
                assert(e@ =~= Seq::<u8>::empty());
                e
            },
        }
    }

    /// The elements if this is an array, empty otherwise.
    pub fn array_items(&self) -> (r: &[Json])
        ensures
            models(r@) == (match self@ {
                JsonValue::Array(a) => a,
                _ => Seq::empty(),
            }),
    {
        match self {
            Json::Array(a) => {
                proof {
                    lemma_array_model(*a);
                }
                a.as_slice()
            },
            _ => {
                let e: &[Json] = &[];
                assert(models(e@) =~= Seq::<JsonValue>::empty());
                e
            },
        }
    }

    /// The entries, in key order, if this is an object, empty otherwise.
    pub fn object_items(&self) -> (r: &[(Vec<u8>, Json)])
        ensures
            r@.len() == (match self@ {
                JsonValue::Object(o) => o.len(),
                _ => 0,
            }),
            forall|i: int|
                0 <= i < r@.len() ==> (#[trigger] r@[i]).0@ == self@->Object_0[i].0 && r@[i].1@
                    == self@->Object_0[i].1,
    {
        match self {
            Json::Object(o) => o.entries(),
            _ => {
                let e: &[(Vec<u8>, Json)] = &[];
                e
            },
        }
    }

    /// The element at `i` if this is an array that long, `null` otherwise.
    pub fn get(&self, i: usize) -> (r: &Json)
        ensures
            r@ == element_at(self@, i as int),
    {
        match self {
            Json::Array(a) => {
                proof {
                    lemma_array_model(*a);
                }
                if i < a.len() {
                    &a[i]
                } else {
                    &NULL_JSON
                }
            },
            _ => &NULL_JSON,
        }
    }

    /// The value under `key` if this is an object that has it, `null` otherwise.
    pub fn get_key(&self, key: &str) -> (r: &Json)
        ensures
            r@ == member_at(self@, literal_bytes(key@)),
    {
        match self {
            Json::Object(o) => {
                proof {
                    lemma_find_key_range(o.model(), literal_bytes(key@));
                }
                match o.get(key.as_bytes()) {
                    Some(v) => v,
                    None => &NULL_JSON,
                }
            },
            _ => &NULL_JSON,
        }
    }

    /// The number `n` (exactly representable as a double).
    pub fn from_i32(n: i32) -> (r: Json)
        ensures
            is_int_number(r@, n as int),
    {
        Json::Number(number_from_i32(n))
    }

    /// The number with the given binary64 bit pattern.
    pub fn from_bits(bits: u64) -> (r: Json)
        ensures
            r@ == JsonValue::Number(bits),
    {
        Json::Number(bits)
    }

    /// The string with the given bytes.
    pub fn from_bytes(bytes: &[u8]) -> (r: Json)
        ensures
            r@ == JsonValue::Str(bytes@),
    {
        Json::Str(copy_bytes(bytes))
    }
}

/// Conversion into a JSON value; types of the library's users implement it
/// to take part in building JSON values.
pub trait ToJson {
    /// This value as JSON.
    fn to_json(&self) -> Json;
}

impl ToJson for Json {
    fn to_json(&self) -> (r: Json)
        ensures
            r@ == self@,
    {
        self.clone()
    }
}

impl ToJson for i32 {
    fn to_json(&self) -> (r: Json)
        ensures
            is_int_number(r@, *self as int),
    {
        Json::from_i32(*self)
    }
}

impl ToJson for bool {
    fn to_json(&self) -> (r: Json)
        ensures
            r@ == JsonValue::Bool(*self),
    {
        Json::Bool(*self)
    }
}

impl core::ops::Index<usize> for Json {
    type Output = Json;

    /// The element at `i` if this is an array that long, `null` otherwise.
    fn index(&self, i: usize) -> (r: &Json)
        ensures
            r@ == element_at(self@, i as int),
    {
        self.get(i)
    }
}

impl vstd::std_specs::core::IndexSpecImpl<usize> for Json {
    open spec fn index_req(&self, index: &usize) -> bool {
        true
    }
}

impl<'k> core::ops::Index<&'k str> for Json {
    type Output = Json;

    /// The value under `key` if this is an object that has it, `null` otherwise.
    fn index(&self, key: &'k str) -> (r: &Json)
        ensures
            r@ == member_at(self@, literal_bytes(key@)),
    {
        self.get_key(key)
    }
}

impl<'k> vstd::std_specs::core::IndexSpecImpl<&'k str> for Json {
    open spec fn index_req(&self, index: &&'k str) -> bool {
        true
    }
}

impl Default for Json {
    fn default() -> (r: Json)
        ensures
            r@ == JsonValue::Null,
    {
        Json::Null
    }
}

impl From<i32> for Json {
    fn from(value: i32) -> (r: Json)
        ensures
            is_int_number(r@, value as int),
    {
        Json::from_i32(value)
    }
}

impl vstd::std_specs::convert::FromSpecImpl<i32> for Json {
    open spec fn obeys_from_spec() -> bool {
        false
    }

    open spec fn from_spec(v: i32) -> Json {
        arbitrary()
    }
}

impl From<bool> for Json {
    fn from(value: bool) -> (r: Json)
        ensures
            r@ == JsonValue::Bool(value),
    {
        Json::Bool(value)
    }
}

impl vstd::std_specs::convert::FromSpecImpl<bool> for Json {
    open spec fn obeys_from_spec() -> bool {
        true
    }

    open spec fn from_spec(v: bool) -> Json {
        Json::Bool(v)
    }
}

impl<'s> From<&'s str> for Json {
    fn from(value: &'s str) -> (r: Json)
        ensures
            r@ == JsonValue::Str(literal_bytes(value@)),
    {
        Json::from_bytes(value.as_bytes())
    }
}

impl<'s> vstd::std_specs::convert::FromSpecImpl<&'s str> for Json {
    open spec fn obeys_from_spec() -> bool {
        false
    }

    open spec fn from_spec(v: &'s str) -> Json {
        arbitrary()
    }
}

impl From<String> for Json {
    fn from(value: String) -> (r: Json)
        ensures
            r@ == JsonValue::Str(literal_bytes(value@)),
    {
        Json::from_bytes(value.as_str().as_bytes())
    }
}

impl vstd::std_specs::convert::FromSpecImpl<String> for Json {
    open spec fn obeys_from_spec() -> bool {
        false
    }

    open spec fn from_spec(v: String) -> Json {
        arbitrary()
    }
}

impl<'s> From<&'s String> for Json {
    fn from(value: &'s String) -> (r: Json)
        ensures
            r@ == JsonValue::Str(literal_bytes(value@)),
    {
        Json::from_bytes(value.as_str().as_bytes())
    }
}

impl<'s> vstd::std_specs::convert::FromSpecImpl<&'s String> for Json {
    open spec fn obeys_from_spec() -> bool {
        false
    }

    open spec fn from_spec(v: &'s String) -> Json {
        arbitrary()
    }
}

impl From<Vec<Json>> for Json {
    fn from(values: Vec<Json>) -> (r: Json)
        ensures
            r@ == JsonValue::Array(models(values@)),
    {
        proof {
            lemma_array_model(values);
        }
        Json::Array(values)
    }
}

impl vstd::std_specs::convert::FromSpecImpl<Vec<Json>> for Json {
    open spec fn obeys_from_spec() -> bool {
        true
    }

    open spec fn from_spec(v: Vec<Json>) -> Json {
        Json::Array(v)
    }
}

impl From<Vec<i32>> for Json {
    fn from(values: Vec<i32>) -> (r: Json)
        ensures
            r@ is Array,
            r@->Array_0.len() == values@.len(),
            forall|i: int|
                0 <= i < values@.len() ==> is_int_number(#[trigger] r@->Array_0[i], values@[i] as int),
    {
        let mut items: Vec<Json> = Vec::new();
        let mut i: usize = 0;
        while i < values.len()
            invariant
                i <= values@.len(),
                items@.len() == i,
                forall|j: int| 0 <= j < i ==> is_int_number((#[trigger] items@[j])@, values@[j] as int),
            decreases values@.len() - i,
        {
            items.push(Json::from_i32(values[i]));
            i = i + 1;
        }
        let r = Json::array(items);
        assert forall|i: int| 0 <= i < values@.len() implies is_int_number(
            #[trigger] r@->Array_0[i],
            values@[i] as int,
        ) by {
            assert(r@->Array_0[i] == items@[i]@);
        }
        r
    }
}

impl vstd::std_specs::convert::FromSpecImpl<Vec<i32>> for Json {
    open spec fn obeys_from_spec() -> bool {
        false
    }

    open spec fn from_spec(v: Vec<i32>) -> Json {
        arbitrary()
    }
}

impl<'a, T: ToJson> From<&'a [T]> for Json {
    /// An array of the values' conversions, in order.
    fn from(values: &'a [T]) -> (r: Json)
        ensures
            r@ is Array,
            r@->Array_0.len() == values@.len(),
            exists|items: Seq<Json>|
                {
                    &&& items.len() == values@.len()
                    &&& forall|i: int| 0 <= i < items.len() ==> (#[trigger] items[i])@ == r@->Array_0[i]
                    &&& forall|i: int|
                        0 <= i < items.len() ==> call_ensures(T::to_json, (&values@[i],), #[trigger] items[i])
                },
    {
        let mut items: Vec<Json> = Vec::new();
        let mut i: usize = 0;
        while i < values.len()
            invariant
                i <= values@.len(),
                items@.len() == i,
                forall|j: int| 0 <= j < i ==> call_ensures(T::to_json, (&values@[j],), #[trigger] items@[j]),
            decreases values@.len() - i,
        {
            let item = values[i].to_json();
            items.push(item);
            i = i + 1;
        }
        let ghost all = items@;
        let r = Json::array(items);
        proof {
            assert forall|k: int| 0 <= k < all.len() implies (#[trigger] all[k])@ == r@->Array_0[k] by {}
        }
        r
    }
}

impl<'a, T: ToJson> vstd::std_specs::convert::FromSpecImpl<&'a [T]> for Json {
    open spec fn obeys_from_spec() -> bool {
        false
    }

    open spec fn from_spec(v: &'a [T]) -> Json {
        arbitrary()
    }
}

} // verus!

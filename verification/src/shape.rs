//! Checking that a value is an object with fields of given types.
use vstd::prelude::*;
use crate::dump::{dump_value, formatter, formatter_ready};
use crate::grammar::literal_bytes;
use crate::text::{lossy_string, utf8_lossy};
use crate::value::{Json, JsonValue, Type, find_key, keys_increasing, lemma_find_key_range, type_of};

verus! {

/// The object `o` has a field `key` whose value has type `t`.
pub open spec fn field_has_type(o: Seq<(Seq<u8>, JsonValue)>, key: Seq<u8>, t: Type) -> bool {
    find_key(o, key) >= 0 && type_of(o[find_key(o, key)].1) == t
}

/// The index of the first requirement, from `i` on, that `o` does not meet
/// (`types.len()` when it meets them all).
pub open spec fn first_unmet(o: Seq<(Seq<u8>, JsonValue)>, types: Seq<(String, Type)>, i: int) -> int
    decreases types.len() - i,
{
    if i < 0 || i >= types.len() {
        types.len() as int
    } else if field_has_type(o, literal_bytes(types[i].0@), types[i].1) {
        first_unmet(o, types, i + 1)
    } else {
        i
    }
}

/// What `has_shape` gives: `Ok` for an object meeting every requirement,
/// otherwise the message for the first problem.
pub open spec fn shape_check(v: JsonValue, types: Seq<(String, Type)>, fmt: spec_fn(u64) -> Seq<u8>) -> Result<
    (),
    Seq<char>,
> {
    match v {
        JsonValue::Object(o) => {
            let k = first_unmet(o, types, 0);
            if k < types.len() {
                Err("bad type for "@ + types[k].0@ + " in "@ + utf8_lossy(dump_value(v, fmt)))
            } else {
                Ok(())
            }
        },
        _ => Err("expected JSON object, got "@ + utf8_lossy(dump_value(v, fmt))),
    }
}

/// The entries `o` have one with key `key` whose value has type `t`.
pub open spec fn has_typed_field(o: Seq<(Seq<u8>, JsonValue)>, key: Seq<u8>, t: Type) -> bool {
    exists|p: int| 0 <= p < o.len() && o[p].0 == key && type_of(o[p].1) == t
}

proof fn lemma_field_typed(o: Seq<(Seq<u8>, JsonValue)>, key: Seq<u8>, t: Type)
    requires
        keys_increasing(o),
    ensures
        field_has_type(o, key, t) <==> has_typed_field(o, key, t),
{
    lemma_find_key_range(o, key);
    let f = find_key(o, key);
    if has_typed_field(o, key, t) {
        let p = choose|p: int| 0 <= p < o.len() && o[p].0 == key && type_of(o[p].1) == t;
        crate::bytes::lemma_lex_order_antisymmetric(key, key);
        if f != p {
            if f < p {
                assert(crate::bytes::bytes_lt(o[f].0, o[p].0));
            } else {
                assert(crate::bytes::bytes_lt(o[p].0, o[f].0));
            }
        }
    }
}

proof fn lemma_first_unmet(o: Seq<(Seq<u8>, JsonValue)>, types: Seq<(String, Type)>, i: int)
    requires
        0 <= i <= types.len(),
    ensures
        i <= first_unmet(o, types, i) <= types.len(),
        forall|j: int|
            i <= j < first_unmet(o, types, i) ==> field_has_type(
                o,
                literal_bytes(types[j].0@),
                #[trigger] types[j].1,
            ),
        first_unmet(o, types, i) < types.len() ==> !field_has_type(
            o,
            literal_bytes(types[first_unmet(o, types, i)].0@),
            types[first_unmet(o, types, i)].1,
        ),
    decreases types.len() - i,
{
    if i < types.len() && field_has_type(o, literal_bytes(types[i].0@), types[i].1) {
        lemma_first_unmet(o, types, i + 1);
    }
}

/// `has_shape` succeeds exactly on an object that has, for every listed
/// requirement, a field with that key and a value of that type. A
/// non-object is refused as such; otherwise the message names the first
/// requirement in the list that is not met.
pub proof fn law_shape_check(v: JsonValue, types: Seq<(String, Type)>, fmt: spec_fn(u64) -> Seq<u8>)
    requires
        v is Object ==> keys_increasing(v->Object_0),
    ensures
        shape_check(v, types, fmt) is Ok <==> (v is Object && forall|i: int|
            0 <= i < types.len() ==> has_typed_field(
                v->Object_0,
                literal_bytes(types[i].0@),
                #[trigger] types[i].1,
            )),
        !(v is Object) ==> shape_check(v, types, fmt) == Err::<(), Seq<char>>(
            "expected JSON object, got "@ + utf8_lossy(dump_value(v, fmt)),
        ),
        v is Object && shape_check(v, types, fmt) is Err ==> exists|k: int|
            0 <= k < types.len() && !has_typed_field(
                v->Object_0,
                literal_bytes(types[k].0@),
                types[k].1,
            ) && (forall|j: int|
                0 <= j < k ==> has_typed_field(
                    v->Object_0,
                    literal_bytes(types[j].0@),
                    #[trigger] types[j].1,
                )) && shape_check(v, types, fmt) == Err::<(), Seq<char>>(
                "bad type for "@ + types[k].0@ + " in "@ + utf8_lossy(dump_value(v, fmt)),
            ),
{
    if let JsonValue::Object(o) = v {
        lemma_first_unmet(o, types, 0);
        let k = first_unmet(o, types, 0);
        assert forall|j: int| 0 <= j < types.len() implies (field_has_type(
            o,
            literal_bytes(types[j].0@),
            types[j].1,
        ) <==> has_typed_field(o, literal_bytes(types[j].0@), #[trigger] types[j].1)) by {
            lemma_field_typed(o, literal_bytes(types[j].0@), types[j].1);
        }
        if k < types.len() {
            assert(!has_typed_field(o, literal_bytes(types[k].0@), types[k].1));
        }
    }
}


impl Json {
    /// `Ok(())` if this is a JSON object and, for each `(key, type)` in
    /// `types`, has a field of the given type; otherwise a message naming
    /// the first problem. The value is shown in the message as `dump` writes
    /// it, numbers written by `format`.
    pub fn has_shape<F: Fn(u64) -> Vec<u8>>(&self, types: &[(String, Type)], format: &F) -> (r:
        Result<(), String>)
        requires
            formatter_ready(*format),
        ensures
            match shape_check(self@, types@, formatter(*format)) {
                Ok(()) => r is Ok,
                Err(e) => r matches Err(m) && m@ == e,
            },
    {
        match self {
            Json::Object(o) => {
                let ghost m = o.model();
                assert(self@ == JsonValue::Object(m));
                let mut i: usize = 0;
                while i < types.len()
                    invariant
                        i <= types@.len(),
                        self@ == JsonValue::Object(m),
                        m == o.model(),
                        formatter_ready(*format),
                        first_unmet(m, types@, 0) == first_unmet(m, types@, i as int),
                    decreases types@.len() - i,
                {
                    let (key, ty) = &types[i];
                    let k = key.as_str().as_bytes();
                    proof {
                        lemma_find_key_range(m, k@);
                    }
                    let found = o.get(k);
                    let ok = match found {
                        Some(v) => v.json_type() == *ty,
                        None => false,
                    };
                    if !ok {
                        let mut msg = String::from_str("bad type for ");
                        msg.append(key.as_str());
                        msg.append(" in ");
                        let text = self.dump(format);
                        let shown = lossy_string(text.as_slice());
                        msg.append(shown.as_str());
                        return Err(msg);
                    }
                    i = i + 1;
                }
                Ok(())
            },
            _ => {
                let mut msg = String::from_str("expected JSON object, got ");
                let text = self.dump(format);
                let shown = lossy_string(text.as_slice());
                msg.append(shown.as_str());
                Err(msg)
            },
        }
    }
}

} // verus!

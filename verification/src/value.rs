//! The JSON value type, its mathematical model, and the sorted object map.
use vstd::prelude::*;
use crate::bytes::{copy_bytes, bytes_equal, bytes_lt, compare_bytes, lemma_lex_order_antisymmetric, lemma_bytes_lt_transitive};

verus! {

/// Parsing strategy: whether to allow C-style comments in the input.
#[derive(Clone, Copy, PartialEq, Eq, Debug, Structural)]
pub enum JsonParse {
    Standard,
    Comments,
}

/// The type tag of a [`Json`] value.
///
/// The order of the variants (`Null < Number < Bool < Str < Array < Object`)
/// is the order in which values of different types compare.
#[derive(Clone, Copy, PartialEq, Eq, PartialOrd, Ord, Debug, Hash, Structural)]
pub enum Type {
    Null,
    Number,
    Bool,
    Str,
    Array,
    Object,
}

/// The mathematical model of a JSON value.
///
/// Numbers are binary64 bit patterns (see [`crate::number`]); strings and
/// object keys are byte strings (a parsed string may hold the WTF-8 encoding
/// of a lone UTF-16 surrogate); object entries are listed in key order.
#[verifier::ext_equal]
pub enum JsonValue {
    Null,
    Number(u64),
    Bool(bool),
    Str(Seq<u8>),
    Array(Seq<JsonValue>),
    Object(Seq<(Seq<u8>, JsonValue)>),
}

/// A JSON value.
///
/// Numbers are stored as the bit pattern of an `f64`: all numbers are
/// doubles, as in JavaScript.
#[derive(Debug)]
pub enum Json {
    Null,
    Number(u64),
    Bool(bool),
    Str(Vec<u8>),
    Array(Vec<Json>),
    Object(JsonObject),
}

/// A JSON object: entries with distinct keys, kept in increasing key order.
#[derive(Debug)]
pub struct JsonObject {
    entries: Vec<(Vec<u8>, Json)>,
}

/// The keys of `entries` are strictly increasing.
pub open spec fn keys_increasing(entries: Seq<(Seq<u8>, JsonValue)>) -> bool {
    forall|i: int, j: int|
        0 <= i < j < entries.len() ==> bytes_lt(#[trigger] entries[i].0, #[trigger] entries[j].0)
}

/// The type tag of a model value.
pub open spec fn type_of(v: JsonValue) -> Type {
    match v {
        JsonValue::Null => Type::Null,
        JsonValue::Number(_) => Type::Number,
        JsonValue::Bool(_) => Type::Bool,
        JsonValue::Str(_) => Type::Str,
        JsonValue::Array(_) => Type::Array,
        JsonValue::Object(_) => Type::Object,
    }
}

/// The index of the first entry with key `k`, or -1.
pub open spec fn find_key(entries: Seq<(Seq<u8>, JsonValue)>, k: Seq<u8>) -> int
    decreases entries.len(),
{
    if entries.len() == 0 {
        -1
    } else if entries.last().0 == k && find_key(entries.drop_last(), k) == -1 {
        entries.len() - 1
    } else {
        find_key(entries.drop_last(), k)
    }
}

/// The number of entries whose key sorts before `k`, scanning from the front
/// while keys are smaller: where `k` belongs in a sorted entry list.
pub open spec fn key_position(entries: Seq<(Seq<u8>, JsonValue)>, k: Seq<u8>) -> int
    decreases entries.len(),
{
    if entries.len() == 0 {
        0
    } else if bytes_lt(entries[0].0, k) {
        1 + key_position(entries.drop_first(), k)
    } else {
        0
    }
}

/// Inserting `k ↦ v` into a sorted entry list: an existing entry for `k`
/// gets the new value, otherwise the entry goes where `k` belongs.
pub open spec fn object_insert(entries: Seq<(Seq<u8>, JsonValue)>, k: Seq<u8>, v: JsonValue) -> Seq<
    (Seq<u8>, JsonValue),
> {
    let p = key_position(entries, k);
    if p < entries.len() && entries[p].0 == k {
        entries.update(p, (k, v))
    } else {
        entries.insert(p, (k, v))
    }
}

/// The entry list obtained by inserting `pairs` one after another into an
/// empty object (a later pair for the same key wins).
pub open spec fn object_from_pairs(pairs: Seq<(Seq<u8>, JsonValue)>) -> Seq<(Seq<u8>, JsonValue)>
    decreases pairs.len(),
{
    if pairs.len() == 0 {
        Seq::empty()
    } else {
        object_insert(object_from_pairs(pairs.drop_last()), pairs.last().0, pairs.last().1)
    }
}

pub proof fn lemma_find_key_range(entries: Seq<(Seq<u8>, JsonValue)>, k: Seq<u8>)
    ensures
        -1 <= find_key(entries, k) < entries.len(),
        find_key(entries, k) >= 0 ==> entries[find_key(entries, k)].0 == k,
        find_key(entries, k) == -1 ==> forall|i: int| 0 <= i < entries.len() ==> entries[i].0 != k,
        forall|i: int| 0 <= i < find_key(entries, k) ==> entries[i].0 != k,
    decreases entries.len(),
{
    if entries.len() > 0 {
        lemma_find_key_range(entries.drop_last(), k);
        assert forall|i: int| 0 <= i < entries.len() - 1 implies entries.drop_last()[i]
            == entries[i] by {}
    }
}

pub proof fn lemma_key_position(entries: Seq<(Seq<u8>, JsonValue)>, k: Seq<u8>)
    ensures
        0 <= key_position(entries, k) <= entries.len(),
        forall|i: int| 0 <= i < key_position(entries, k) ==> bytes_lt(#[trigger] entries[i].0, k),
        key_position(entries, k) < entries.len() ==> !bytes_lt(
            entries[key_position(entries, k)].0,
            k,
        ),
    decreases entries.len(),
{
    if entries.len() > 0 && bytes_lt(entries[0].0, k) {
        lemma_key_position(entries.drop_first(), k);
        assert forall|i: int| 0 <= i < key_position(entries, k) implies bytes_lt(
            #[trigger] entries[i].0,
            k,
        ) by {
            if i > 0 {
                assert(entries[i] == entries.drop_first()[i - 1]);
            }
        }
    }
}

/// Inserting keeps the keys strictly increasing.
pub proof fn lemma_object_insert_sorted(entries: Seq<(Seq<u8>, JsonValue)>, k: Seq<u8>, v: JsonValue)
    requires
        keys_increasing(entries),
    ensures
        keys_increasing(object_insert(entries, k, v)),
{
    lemma_key_position(entries, k);
    let p = key_position(entries, k);
    let r = object_insert(entries, k, v);
    if p < entries.len() && entries[p].0 == k {
        assert forall|i: int, j: int| 0 <= i < j < r.len() implies bytes_lt(
            #[trigger] r[i].0,
            #[trigger] r[j].0,
        ) by {
            assert(r[i].0 == entries[i].0);
            assert(r[j].0 == entries[j].0);
        }
    } else {
        if p < entries.len() {
            lemma_lex_order_antisymmetric(entries[p].0, k);
        }
        assert forall|i: int, j: int| 0 <= i < j < r.len() implies bytes_lt(
            #[trigger] r[i].0,
            #[trigger] r[j].0,
        ) by {
            if j < p {
                assert(r[i] == entries[i] && r[j] == entries[j]);
            } else if j == p {
                assert(r[i] == entries[i]);
            } else if i < p {
                assert(r[i] == entries[i] && r[j] == entries[j - 1]);
                if j - 1 > p {
                    assert(bytes_lt(entries[p].0, entries[j - 1].0));
                    lemma_bytes_lt_transitive(k, entries[p].0, entries[j - 1].0);
                }
                lemma_bytes_lt_transitive(entries[i].0, k, entries[j - 1].0);
            } else if i == p {
                assert(r[j] == entries[j - 1]);
                if j - 1 > p {
                    assert(bytes_lt(entries[p].0, entries[j - 1].0));
                    lemma_bytes_lt_transitive(k, entries[p].0, entries[j - 1].0);
                }
            } else {
                assert(r[i] == entries[i - 1] && r[j] == entries[j - 1]);
            }
        }
    }
}

impl Json {
    /// The model of this value.
    pub open spec fn model(self) -> JsonValue
        decreases self,
    {
        match self {
            Json::Null => JsonValue::Null,
            Json::Number(b) => JsonValue::Number(b),
            Json::Bool(b) => JsonValue::Bool(b),
            Json::Str(s) => JsonValue::Str(s@),
            Json::Array(a) => JsonValue::Array(
                Seq::new(
                    a.len() as nat,
                    |i: int|
                        if 0 <= i < a.len() {
                            a@[i].model()
                        } else {
                            JsonValue::Null
                        },
                ),
            ),
            Json::Object(o) => JsonValue::Object(o.model()),
        }
    }
}

/// The models of a list of values.
pub open spec fn models(a: Seq<Json>) -> Seq<JsonValue> {
    Seq::new(a.len(), |i: int| a[i]@)
}

/// The model of an array is the list of its elements' models.
pub proof fn lemma_array_model(a: Vec<Json>)
    ensures
        Json::Array(a)@ == JsonValue::Array(models(a@)),
{
    assert(Json::Array(a)@ == JsonValue::Array(models(a@))) by {
        if let JsonValue::Array(x) = Json::Array(a)@ {
            assert(x =~= models(a@));
        }
    }
}

/// The model of a list of object entries.
pub closed spec fn entries_model(entries: Vec<(Vec<u8>, Json)>) -> Seq<(Seq<u8>, JsonValue)>
    decreases entries,
{
    Seq::new(
        entries.len() as nat,
        |i: int|
            if 0 <= i < entries.len() {
                (entries@[i].0@, entries@[i].1.model())
            } else {
                (Seq::empty(), JsonValue::Null)
            },
    )
}

impl View for Json {
    type V = JsonValue;

    open spec fn view(&self) -> JsonValue {
        self.model()
    }
}

impl JsonObject {
    #[verifier::type_invariant]
    spec fn sorted(self) -> bool {
        keys_increasing(self.model())
    }

    /// The entries of this object, in key order.
    pub closed spec fn model(self) -> Seq<(Seq<u8>, JsonValue)>
        decreases self,
    {
        entries_model(self.entries)
    }

    /// An empty object.
    pub fn new() -> (r: JsonObject)
        ensures
            r.model() == Seq::<(Seq<u8>, JsonValue)>::empty(),
    {
        let r = JsonObject { entries: Vec::new() };
        assert(r.model() =~= Seq::<(Seq<u8>, JsonValue)>::empty());
        r
    }

    /// The number of entries.
    pub fn len(&self) -> (r: usize)
        ensures
            r == self.model().len(),
    {
        self.entries.len()
    }

    /// The entries, in key order.
    pub fn entries(&self) -> (r: &[(Vec<u8>, Json)])
        ensures
            keys_increasing(self.model()),
            r@.len() == self.model().len(),
            forall|i: int|
                0 <= i < r@.len() ==> (#[trigger] r@[i]).0@ == self.model()[i].0 && r@[i].1@
                    == self.model()[i].1,
    {
        proof {
            use_type_invariant(self);
        }
        self.entries.as_slice()
    }

    /// The value stored under `key`, if any.
    pub fn get(&self, key: &[u8]) -> (r: Option<&Json>)
        ensures
            find_key(self.model(), key@) == -1 ==> r is None,
            find_key(self.model(), key@) >= 0 ==> (r matches Some(v) && v@ == self.model()[find_key(
                self.model(),
                key@,
            )].1),
    {
        let ghost m = self.model();
        let mut i: usize = 0;
        while i < self.entries.len()
            invariant
                i <= self.entries.len(),
                m == self.model(),
                m.len() == self.entries.len(),
                forall|j: int| 0 <= j < i ==> m[j].0 != key@,
            decreases self.entries.len() - i,
        {
            assert(m[i as int].0 == self.entries@[i as int].0@);
            if bytes_equal(self.entries[i].0.as_slice(), key) {
                proof {
                    lemma_find_key_range(m, key@);
                    lemma_find_key_first(m, key@, i as int);
                }
                return Some(&self.entries[i].1);
            }
            i = i + 1;
        }
        proof {
            lemma_find_key_range(m, key@);
            if find_key(m, key@) >= 0 {
                assert(m[find_key(m, key@)].0 == key@);
            }
        }
        None
    }

    /// Inserts `key ↦ value`, replacing the value of an existing entry for `key`.
    pub fn insert(&mut self, key: Vec<u8>, value: Json)
        ensures
            final(self).model() == object_insert(old(self).model(), key@, value@),
    {
        proof {
            use_type_invariant(&*self);
        }
        let ghost m = self.model();
        let ghost k = key@;
        let mut i: usize = 0;
        while i < self.entries.len()
            invariant_except_break
                i <= self.entries.len(),
                m == self.model(),
                m.len() == self.entries.len(),
                keys_increasing(m),
                k == key@,
                forall|j: int| 0 <= j < i ==> bytes_lt(#[trigger] m[j].0, k),
            ensures
                i <= self.entries.len(),
                m == self.model(),
                m.len() == self.entries.len(),
                keys_increasing(m),
                forall|j: int| 0 <= j < i ==> bytes_lt(#[trigger] m[j].0, k),
                i < self.entries.len() ==> !bytes_lt(m[i as int].0, k),
            decreases self.entries.len() - i,
        {
            assert(m[i as int].0 == self.entries@[i as int].0@);
            let c = compare_bytes(self.entries[i].0.as_slice(), key.as_slice());
            if c >= 0 {
                break;
            }
            assert(bytes_lt(m[i as int].0, k));
            i = i + 1;
        }
        proof {
            lemma_key_position_is(m, k, i as int);
        }
        let ghost r = object_insert(m, k, value@);
        proof {
            lemma_object_insert_sorted(m, k, value@);
        }
        if i < self.entries.len() && bytes_equal(self.entries[i].0.as_slice(), key.as_slice()) {
            let mut entries = Vec::new();
            std::mem::swap(&mut entries, &mut self.entries);
            entries.set(i, (key, value));
            assert(entries_model(entries) =~= r);
            self.entries = entries;
        } else {
            let mut entries = Vec::new();
            std::mem::swap(&mut entries, &mut self.entries);
            entries.insert(i, (key, value));
            assert(entries_model(entries) =~= r);
            self.entries = entries;
        }
    }
}

/// A copy of `j`.
pub fn copy_json(j: &Json) -> (r: Json)
    ensures
        r@ == j@,
    decreases j@,
{
    match j {
        Json::Null => Json::Null,
        Json::Number(b) => Json::Number(*b),
        Json::Bool(b) => Json::Bool(*b),
        Json::Str(s) => Json::Str(copy_bytes(s.as_slice())),
        Json::Array(a) => {
            proof {
                lemma_array_model(*a);
            }
            let mut items: Vec<Json> = Vec::new();
            let mut i: usize = 0;
            while i < a.len()
                invariant
                    i <= a@.len(),
                    items@.len() == i,
                    j@ == JsonValue::Array(models(a@)),
                    forall|k: int| 0 <= k < i ==> (#[trigger] items@[k])@ == a@[k]@,
                decreases a@.len() - i,
            {
                proof {
                    let jv = j@;
                    assert(decreases_to!(jv => jv->Array_0));
                    assert(decreases_to!(jv->Array_0 => jv->Array_0[i as int]));
                }
                items.push(copy_json(&a[i]));
                i = i + 1;
            }
            proof {
                lemma_array_model(items);
                assert(models(items@) =~= models(a@));
            }
            Json::Array(items)
        },
        Json::Object(o) => {
            proof {
                use_type_invariant(o);
            }
            let ghost m = o.model();
            let mut entries: Vec<(Vec<u8>, Json)> = Vec::new();
            let mut i: usize = 0;
            while i < o.entries.len()
                invariant
                    i <= o.entries@.len(),
                    entries@.len() == i,
                    m == o.model(),
                    j@ == JsonValue::Object(m),
                    forall|k: int|
                        0 <= k < i ==> (#[trigger] entries@[k]).0@ == m[k].0 && entries@[k].1@
                            == m[k].1,
                decreases o.entries@.len() - i,
            {
                proof {
                    let jv = j@;
                    assert(decreases_to!(jv => jv->Object_0));
                    assert(decreases_to!(jv->Object_0 => jv->Object_0[i as int]));
                    assert(decreases_to!(jv->Object_0[i as int] => jv->Object_0[i as int].1));
                }
                let e = &o.entries[i];
                let k = copy_bytes(e.0.as_slice());
                let v = copy_json(&e.1);
                entries.push((k, v));
                i = i + 1;
            }
            assert(entries_model(entries) =~= m);
            Json::Object(JsonObject { entries })
        },
    }
}

impl Clone for Json {
    fn clone(&self) -> (r: Json)
        ensures
            r@ == self@,
    {
        copy_json(self)
    }
}

pub proof fn lemma_find_key_first(entries: Seq<(Seq<u8>, JsonValue)>, k: Seq<u8>, i: int)
    requires
        0 <= i < entries.len(),
        entries[i].0 == k,
        forall|j: int| 0 <= j < i ==> entries[j].0 != k,
    ensures
        find_key(entries, k) == i,
    decreases entries.len(),
{
    lemma_find_key_range(entries, k);
    if i < entries.len() - 1 {
        lemma_find_key_first(entries.drop_last(), k, i);
    } else {
        lemma_find_key_range(entries.drop_last(), k);
    }
}

pub proof fn lemma_key_position_is(entries: Seq<(Seq<u8>, JsonValue)>, k: Seq<u8>, i: int)
    requires
        0 <= i <= entries.len(),
        forall|j: int| 0 <= j < i ==> bytes_lt(#[trigger] entries[j].0, k),
        i < entries.len() ==> !bytes_lt(entries[i].0, k),
    ensures
        key_position(entries, k) == i,
    decreases i,
{
    if i > 0 {
        assert(bytes_lt(entries[0].0, k));
        assert forall|j: int| 0 <= j < i - 1 implies bytes_lt(
            #[trigger] entries.drop_first()[j].0,
            k,
        ) by {
            assert(entries.drop_first()[j] == entries[j + 1]);
        }
        if i < entries.len() {
            assert(entries.drop_first()[i - 1] == entries[i]);
        }
        lemma_key_position_is(entries.drop_first(), k, i - 1);
    }
}

/// Keys kept in increasing order are in the usual lexicographic order of
/// byte strings: each key sorts before every later one.
pub proof fn law_keys_in_byte_order(entries: Seq<(Seq<u8>, JsonValue)>)
    requires
        keys_increasing(entries),
    ensures
        forall|i: int, j: int|
            0 <= i < j < entries.len() ==> crate::bytes::lex_before(
                #[trigger] entries[i].0,
                #[trigger] entries[j].0,
            ),
{
    assert forall|i: int, j: int| 0 <= i < j < entries.len() implies crate::bytes::lex_before(
        #[trigger] entries[i].0,
        #[trigger] entries[j].0,
    ) by {
        crate::bytes::law_lex_order_standard(entries[i].0, entries[j].0);
    }
}

/// `pairs[i]` is the last pair with key `k`.
pub open spec fn last_with_key(pairs: Seq<(Seq<u8>, JsonValue)>, k: Seq<u8>, i: int) -> bool {
    &&& 0 <= i < pairs.len()
    &&& pairs[i].0 == k
    &&& forall|j: int| i < j < pairs.len() ==> pairs[j].0 != k
}

proof fn lemma_insert_contents(entries: Seq<(Seq<u8>, JsonValue)>, k: Seq<u8>, v: JsonValue)
    requires
        keys_increasing(entries),
    ensures
        ({
            let r = object_insert(entries, k, v);
            &&& exists|p: int| 0 <= p < r.len() && r[p] == (k, v)
            &&& forall|q: int|
                0 <= q < entries.len() && entries[q].0 != k ==> exists|p: int|
                    0 <= p < r.len() && r[p] == entries[q]
            &&& forall|p: int|
                0 <= p < r.len() ==> r[p] == (k, v) || (r[p].0 != k && exists|q: int|
                    0 <= q < entries.len() && entries[q] == r[p])
        }),
{
    lemma_key_position(entries, k);
    let p = key_position(entries, k);
    let r = object_insert(entries, k, v);
    if p < entries.len() && entries[p].0 == k {
        assert(r[p] == (k, v));
        assert forall|q: int| 0 <= q < entries.len() && entries[q].0 != k implies exists|p2: int|
            0 <= p2 < r.len() && r[p2] == entries[q] by {
            assert(r[q] == entries[q]);
        }
        assert forall|p2: int| 0 <= p2 < r.len() implies r[p2] == (k, v) || (r[p2].0 != k
            && exists|q: int| 0 <= q < entries.len() && entries[q] == r[p2]) by {
            if p2 != p {
                assert(r[p2] == entries[p2]);
                if entries[p2].0 == k {
                    if p2 < p {
                        assert(crate::bytes::bytes_lt(entries[p2].0, k));
                    } else {
                        assert(crate::bytes::bytes_lt(entries[p].0, entries[p2].0));
                    }
                    crate::bytes::lemma_lex_order_antisymmetric(k, k);
                }
            }
        }
    } else {
        assert(r[p] == (k, v));
        assert forall|q: int| 0 <= q < entries.len() && entries[q].0 != k implies exists|p2: int|
            0 <= p2 < r.len() && r[p2] == entries[q] by {
            if q < p {
                assert(r[q] == entries[q]);
            } else {
                assert(r[q + 1] == entries[q]);
            }
        }
        assert forall|p2: int| 0 <= p2 < r.len() implies r[p2] == (k, v) || (r[p2].0 != k
            && exists|q: int| 0 <= q < entries.len() && entries[q] == r[p2]) by {
            if p2 < p {
                assert(r[p2] == entries[p2]);
                assert(crate::bytes::bytes_lt(entries[p2].0, k));
                crate::bytes::lemma_lex_order_antisymmetric(k, k);
            } else if p2 > p {
                assert(r[p2] == entries[p2 - 1]);
                if entries[p2 - 1].0 == k {
                    if p2 - 1 > p {
                        assert(crate::bytes::bytes_lt(entries[p].0, entries[p2 - 1].0));
                    }
                    crate::bytes::lemma_lex_order_antisymmetric(entries[p].0, k);
                }
            }
        }
    }
}

proof fn lemma_sorted_pairs(pairs: Seq<(Seq<u8>, JsonValue)>)
    ensures
        keys_increasing(object_from_pairs(pairs)),
    decreases pairs.len(),
{
    if pairs.len() > 0 {
        lemma_sorted_pairs(pairs.drop_last());
        lemma_object_insert_sorted(object_from_pairs(pairs.drop_last()), pairs.last().0, pairs.last().1);
    }
}

/// Every key given in `pairs` is in `o` with the value of the last pair
/// with that key.
#[verifier::opaque]
pub open spec fn keeps_last_values(pairs: Seq<(Seq<u8>, JsonValue)>, o: Seq<(Seq<u8>, JsonValue)>) -> bool {
    forall|k: Seq<u8>, i: int|
        #[trigger] last_with_key(pairs, k, i) ==> exists|p: int|
            0 <= p < o.len() && o[p] == (k, pairs[i].1)
}

/// The entry `e` is the last pair given in `pairs` for its key.
pub open spec fn given_last(pairs: Seq<(Seq<u8>, JsonValue)>, e: (Seq<u8>, JsonValue)) -> bool {
    exists|i: int| #[trigger] last_with_key(pairs, e.0, i) && e.1 == pairs[i].1
}

/// Every entry of `o` is a key given in `pairs`, with the value of the last
/// pair with that key.
#[verifier::opaque]
pub open spec fn only_given_keys(pairs: Seq<(Seq<u8>, JsonValue)>, o: Seq<(Seq<u8>, JsonValue)>) -> bool {
    forall|p: int| 0 <= p < o.len() ==> given_last(pairs, #[trigger] o[p])
}

proof fn lemma_keeps_last_step(pairs: Seq<(Seq<u8>, JsonValue)>)
    requires
        pairs.len() > 0,
        keys_increasing(object_from_pairs(pairs.drop_last())),
        keeps_last_values(pairs.drop_last(), object_from_pairs(pairs.drop_last())),
    ensures
        keeps_last_values(pairs, object_from_pairs(pairs)),
{
    let init = pairs.drop_last();
    let prev = object_from_pairs(init);
    let (k, v) = pairs.last();
    let n = pairs.len() - 1;
    lemma_insert_contents(prev, k, v);
    let o = object_from_pairs(pairs);
    reveal(keeps_last_values);
    assert forall|k2: Seq<u8>, i: int| #[trigger] last_with_key(pairs, k2, i) implies exists|p: int|
        0 <= p < o.len() && o[p] == (k2, pairs[i].1) by {
        if i == n {
            assert(pairs[i] == (k, v));
        } else {
            assert(k2 != k);
            assert(last_with_key(init, k2, i));
            let q = choose|q: int| 0 <= q < prev.len() && prev[q] == (k2, init[i].1);
            assert(prev[q].0 != k);
        }
    }
}

proof fn lemma_last_extends(pairs: Seq<(Seq<u8>, JsonValue)>, key: Seq<u8>, i: int)
    requires
        pairs.len() > 0,
        pairs.last().0 != key,
        last_with_key(pairs.drop_last(), key, i),
    ensures
        last_with_key(pairs, key, i),
        pairs[i] == pairs.drop_last()[i],
{
    assert forall|j: int| i < j < pairs.len() implies pairs[j].0 != key by {
        if j < pairs.len() - 1 {
            assert(pairs[j] == pairs.drop_last()[j]);
        }
    }
}

proof fn lemma_entry_given(
    pairs: Seq<(Seq<u8>, JsonValue)>,
    prev: Seq<(Seq<u8>, JsonValue)>,
    e: (Seq<u8>, JsonValue),
)
    requires
        pairs.len() > 0,
        only_given_keys(pairs.drop_last(), prev),
        exists|q: int| 0 <= q < prev.len() && prev[q] == e,
        e.0 != pairs.last().0,
    ensures
        given_last(pairs, e),
{
    reveal(only_given_keys);
    let init = pairs.drop_last();
    let q = choose|q: int| 0 <= q < prev.len() && prev[q] == e;
    assert(given_last(init, prev[q]));
    let i = choose|i: int| #[trigger] last_with_key(init, prev[q].0, i) && prev[q].1 == init[i].1;
    lemma_last_extends(pairs, e.0, i);
}

#[verifier::spinoff_prover]
proof fn lemma_insert_entry(entries: Seq<(Seq<u8>, JsonValue)>, k: Seq<u8>, v: JsonValue, p: int)
    requires
        keys_increasing(entries),
        0 <= p < object_insert(entries, k, v).len(),
    ensures
        object_insert(entries, k, v)[p] == (k, v) || (object_insert(entries, k, v)[p].0 != k
            && exists|q: int| 0 <= q < entries.len() && entries[q] == object_insert(entries, k, v)[p]),
{
    lemma_insert_contents(entries, k, v);
}

proof fn lemma_step_entry(pairs: Seq<(Seq<u8>, JsonValue)>, p: int)
    requires
        pairs.len() > 0,
        keys_increasing(object_from_pairs(pairs.drop_last())),
        only_given_keys(pairs.drop_last(), object_from_pairs(pairs.drop_last())),
        0 <= p < object_from_pairs(pairs).len(),
    ensures
        given_last(pairs, object_from_pairs(pairs)[p]),
{
    let init = pairs.drop_last();
    let prev = object_from_pairs(init);
    let k = pairs.last().0;
    let v = pairs.last().1;
    let n = pairs.len() - 1;
    let o = object_from_pairs(pairs);
    assert(o == object_insert(prev, k, v));
    lemma_insert_entry(prev, k, v, p);
    let e = o[p];
    if e == (k, v) {
        assert(last_with_key(pairs, k, n));
        assert(given_last(pairs, e));
    } else {
        lemma_entry_given(pairs, prev, e);
    }
}

proof fn lemma_only_given_step(pairs: Seq<(Seq<u8>, JsonValue)>)
    requires
        pairs.len() > 0,
        keys_increasing(object_from_pairs(pairs.drop_last())),
        only_given_keys(pairs.drop_last(), object_from_pairs(pairs.drop_last())),
    ensures
        only_given_keys(pairs, object_from_pairs(pairs)),
{
    let o = object_from_pairs(pairs);
    assert forall|p: int| 0 <= p < o.len() implies given_last(pairs, #[trigger] o[p]) by {
        lemma_step_entry(pairs, p);
    }
    reveal(only_given_keys);
}

/// Building an object from pairs keeps, for each key given, the value of
/// the last pair with that key; it holds no other key; and its keys are
/// strictly increasing, each once.
pub proof fn law_object_from_pairs(pairs: Seq<(Seq<u8>, JsonValue)>)
    ensures
        keys_increasing(object_from_pairs(pairs)),
        keeps_last_values(pairs, object_from_pairs(pairs)),
        only_given_keys(pairs, object_from_pairs(pairs)),
    decreases pairs.len(),
{
    lemma_sorted_pairs(pairs);
    if pairs.len() > 0 {
        law_object_from_pairs(pairs.drop_last());
        lemma_keeps_last_step(pairs);
        lemma_only_given_step(pairs);
    } else {
        reveal(keeps_last_values);
        reveal(only_given_keys);
    }
}

} // verus!

//! Arrays from sets of numbers.
use vstd::prelude::*;
use crate::access::is_i32_number;
use crate::value::Json;
use vstd::std_specs::cmp::OrdSpec;
use vstd::std_specs::iter::IteratorSpec;

verus! {

impl From<std::collections::BTreeSet<i32>> for Json {
    /// The set's numbers, in increasing order, as an array.
    fn from(values: std::collections::BTreeSet<i32>) -> (r: Json)
        ensures
            r@ is Array,
            exists|xs: Seq<i32>|
                {
                    &&& xs.len() == r@->Array_0.len()
                    &&& xs.to_set() == values@
                    &&& forall|i: int, j: int| 0 <= i < j < xs.len() ==> xs[i] < xs[j]
                    &&& forall|i: int|
                        0 <= i < xs.len() ==> is_i32_number(#[trigger] r@->Array_0[i], xs[i])
                },
    {
        broadcast use vstd::laws_cmp::group_laws_cmp;
        let ghost keys = vstd::std_specs::btree::spec_btree_keys_iter(&values).remaining();
        let mut items: Vec<Json> = Vec::new();
        for x in it: values.iter()
            invariant
                it.seq() == keys,
                items@.len() == it.index(),
                forall|j: int|
                    0 <= j < it.index() ==> is_i32_number(
                        (#[trigger] items@[j])@,
                        *it.seq()[j],
                    ),
        {
            items.push(Json::from_i32(*x));
        }
        let r = Json::array(items);
        proof {
            let xs = keys.unref();
            assert(xs.len() == r@->Array_0.len());
            assert(xs.to_set() == values@);
            assert(vstd::std_specs::btree::increasing_seq(keys));
            assert(vstd::laws_cmp::obeys_cmp::<&i32>());
            assert forall|i: int, j: int| 0 <= i < j < xs.len() implies xs[i] < xs[j] by {
                assert(OrdSpec::cmp_spec(&keys[i], &keys[j]) is Less);
            }
            assert forall|i: int| 0 <= i < xs.len() implies is_i32_number(
                #[trigger] r@->Array_0[i],
                xs[i],
            ) by {
                assert(r@->Array_0[i] == items@[i]@);
            }
        }
        r
    }
}

impl vstd::std_specs::convert::FromSpecImpl<std::collections::BTreeSet<i32>> for Json {
    open spec fn obeys_from_spec() -> bool {
        false
    }

    open spec fn from_spec(v: std::collections::BTreeSet<i32>) -> Json {
        arbitrary()
    }
}

} // verus!

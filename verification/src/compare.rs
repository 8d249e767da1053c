//! Equality and order of JSON values.
//!
//! Values of different types order by type (`Null < Number < Bool < Str <
//! Array < Object`); numbers compare as doubles (a NaN equals nothing and
//! orders as equal to everything); strings, arrays and objects compare
//! lexicographically, objects entry by entry in key order.
use vstd::prelude::*;
use core::cmp::Ordering;
use crate::bytes::{bytes_equal, compare_bytes, lex_order, lemma_lex_order_antisymmetric};
use crate::number::{is_nan, number_eq, number_equals, number_is_nan, order_key};
use crate::value::{Json, JsonValue, lemma_array_model, models};

verus! {

/// The position of a value's type in the order of types.
pub open spec fn type_rank(v: JsonValue) -> int {
    match v {
        JsonValue::Null => 0,
        JsonValue::Number(_) => 1,
        JsonValue::Bool(_) => 2,
        JsonValue::Str(_) => 3,
        JsonValue::Array(_) => 4,
        JsonValue::Object(_) => 5,
    }
}

/// -1, 0 or 1 as `a` is below, equal to or above `b`.
pub open spec fn int_order(a: int, b: int) -> int {
    if a < b {
        -1
    } else if a > b {
        1
    } else {
        0
    }
}

/// Equality of values: numbers as doubles, everything else structurally.
pub open spec fn json_equal(a: JsonValue, b: JsonValue) -> bool
    decreases a, 0int,
{
    match (a, b) {
        (JsonValue::Null, JsonValue::Null) => true,
        (JsonValue::Number(x), JsonValue::Number(y)) => number_eq(x, y),
        (JsonValue::Bool(x), JsonValue::Bool(y)) => x == y,
        (JsonValue::Str(x), JsonValue::Str(y)) => x == y,
        (JsonValue::Array(x), JsonValue::Array(y)) => x.len() == y.len() && items_equal(
            x,
            y,
            x.len() as int,
        ),
        (JsonValue::Object(x), JsonValue::Object(y)) => x.len() == y.len() && entries_equal(
            x,
            y,
            x.len() as int,
        ),
        _ => false,
    }
}

/// The first `n` items of `x` and `y` are pairwise equal.
pub open spec fn items_equal(x: Seq<JsonValue>, y: Seq<JsonValue>, n: int) -> bool
    decreases x, n,
{
    if n <= 0 || n > x.len() || n > y.len() {
        true
    } else {
        items_equal(x, y, n - 1) && json_equal(x[n - 1], y[n - 1])
    }
}

/// The first `n` entries of `x` and `y` have equal keys and equal values.
pub open spec fn entries_equal(x: Seq<(Seq<u8>, JsonValue)>, y: Seq<(Seq<u8>, JsonValue)>, n: int) -> bool
    decreases x, n,
{
    if n <= 0 || n > x.len() || n > y.len() {
        true
    } else {
        entries_equal(x, y, n - 1) && x[n - 1].0 == y[n - 1].0 && json_equal(x[n - 1].1, y[n - 1].1)
    }
}

pub proof fn lemma_items_equal_prefix(x: Seq<JsonValue>, y: Seq<JsonValue>, n: int, i: int)
    requires
        items_equal(x, y, n),
        0 <= i < n <= x.len(),
        n <= y.len(),
    ensures
        json_equal(x[i], y[i]),
    decreases n,
{
    if i < n - 1 {
        lemma_items_equal_prefix(x, y, n - 1, i);
    }
}

pub proof fn lemma_entries_equal_prefix(
    x: Seq<(Seq<u8>, JsonValue)>,
    y: Seq<(Seq<u8>, JsonValue)>,
    n: int,
    i: int,
)
    requires
        entries_equal(x, y, n),
        0 <= i < n <= x.len(),
        n <= y.len(),
    ensures
        x[i].0 == y[i].0 && json_equal(x[i].1, y[i].1),
    decreases n,
{
    if i < n - 1 {
        lemma_entries_equal_prefix(x, y, n - 1, i);
    }
}

/// Three-way order of values: -1, 0 or 1.
pub open spec fn json_order(a: JsonValue, b: JsonValue) -> int
    decreases a, 0int,
{
    match (a, b) {
        (JsonValue::Number(x), JsonValue::Number(y)) => if is_nan(x) || is_nan(y) {
            0
        } else {
            int_order(order_key(x), order_key(y))
        },
        (JsonValue::Bool(x), JsonValue::Bool(y)) => int_order(
            if x {
                1
            } else {
                0
            },
            if y {
                1
            } else {
                0
            },
        ),
        (JsonValue::Str(x), JsonValue::Str(y)) => lex_order(x, y),
        (JsonValue::Array(x), JsonValue::Array(y)) => items_order(x, y, 0),
        (JsonValue::Object(x), JsonValue::Object(y)) => entries_order(x, y, 0),
        _ => int_order(type_rank(a), type_rank(b)),
    }
}

/// Lexicographic order of the items of `x` and `y` from index `i` on.
pub open spec fn items_order(x: Seq<JsonValue>, y: Seq<JsonValue>, i: int) -> int
    decreases x, x.len() - i,
{
    if i < 0 || i >= x.len() || i >= y.len() {
        int_order(x.len() - i, y.len() - i)
    } else if json_order(x[i], y[i]) != 0 {
        json_order(x[i], y[i])
    } else {
        items_order(x, y, i + 1)
    }
}

/// Lexicographic order of the entries of `x` and `y` from index `i` on; an
/// entry orders by its key, then by its value.
pub open spec fn entries_order(x: Seq<(Seq<u8>, JsonValue)>, y: Seq<(Seq<u8>, JsonValue)>, i: int) -> int
    decreases x, x.len() - i,
{
    if i < 0 || i >= x.len() || i >= y.len() {
        int_order(x.len() - i, y.len() - i)
    } else if lex_order(x[i].0, y[i].0) != 0 {
        lex_order(x[i].0, y[i].0)
    } else if json_order(x[i].1, y[i].1) != 0 {
        json_order(x[i].1, y[i].1)
    } else {
        entries_order(x, y, i + 1)
    }
}

/// The `Ordering` for -1, 0 and 1.
pub open spec fn ordering_for(c: int) -> Ordering {
    if c < 0 {
        Ordering::Less
    } else if c > 0 {
        Ordering::Greater
    } else {
        Ordering::Equal
    }
}

fn usize_order(a: usize, b: usize) -> (r: i8)
    ensures
        r == int_order(a as int, b as int),
{
    if a < b {
        -1
    } else if a > b {
        1
    } else {
        0
    }
}

/// Whether two values are equal (numbers compare as doubles).
pub fn json_eq(a: &Json, b: &Json) -> (r: bool)
    ensures
        r == json_equal(a@, b@),
    decreases a@,
{
    match (a, b) {
        (Json::Null, Json::Null) => true,
        (Json::Number(x), Json::Number(y)) => number_equals(*x, *y),
        (Json::Bool(x), Json::Bool(y)) => *x == *y,
        (Json::Str(x), Json::Str(y)) => bytes_equal(x.as_slice(), y.as_slice()),
        (Json::Array(x), Json::Array(y)) => {
            proof {
                lemma_array_model(*x);
                lemma_array_model(*y);
            }
            let ghost mx = models(x@);
            let ghost my = models(y@);
            if x.len() != y.len() {
                return false;
            }
            let mut i: usize = 0;
            while i < x.len()
                invariant
                    i <= x@.len(),
                    x@.len() == y@.len(),
                    mx == models(x@),
                    my == models(y@),
                    a@ == JsonValue::Array(mx),
                    b@ == JsonValue::Array(my),
                    items_equal(mx, my, i as int),
                decreases x@.len() - i,
            {
                proof {
                    let av = a@;
                    assert(decreases_to!(av => av->Array_0));
                    assert(decreases_to!(av->Array_0 => av->Array_0[i as int]));
                }
                if !json_eq(&x[i], &y[i]) {
                    proof {
                        if items_equal(mx, my, mx.len() as int) {
                            lemma_items_equal_prefix(mx, my, mx.len() as int, i as int);
                        }
                    }
                    return false;
                }
                i = i + 1;
            }
            true
        },
        (Json::Object(x), Json::Object(y)) => {
            let ex = x.entries();
            let ey = y.entries();
            let ghost mx = x.model();
            let ghost my = y.model();
            if ex.len() != ey.len() {
                return false;
            }
            let mut i: usize = 0;
            while i < ex.len()
                invariant
                    i <= ex@.len(),
                    ex@.len() == ey@.len(),
                    ex@.len() == mx.len(),
                    ey@.len() == my.len(),
                    forall|k: int|
                        0 <= k < ex@.len() ==> (#[trigger] ex@[k]).0@ == mx[k].0 && ex@[k].1@
                            == mx[k].1,
                    forall|k: int|
                        0 <= k < ey@.len() ==> (#[trigger] ey@[k]).0@ == my[k].0 && ey@[k].1@
                            == my[k].1,
                    a@ == JsonValue::Object(mx),
                    b@ == JsonValue::Object(my),
                    entries_equal(mx, my, i as int),
                decreases ex@.len() - i,
            {
                let xe = &ex[i];
                let ye = &ey[i];
                assert(xe.0@ == mx[i as int].0 && xe.1@ == mx[i as int].1);
                assert(ye.0@ == my[i as int].0 && ye.1@ == my[i as int].1);
                if !bytes_equal(xe.0.as_slice(), ye.0.as_slice()) {
                    proof {
                        if entries_equal(mx, my, mx.len() as int) {
                            lemma_entries_equal_prefix(mx, my, mx.len() as int, i as int);
                        }
                    }
                    return false;
                }
                proof {
                    let av = a@;
                    assert(decreases_to!(av => av->Object_0));
                    assert(decreases_to!(av->Object_0 => av->Object_0[i as int]));
                    assert(decreases_to!(av->Object_0[i as int] => av->Object_0[i as int].1));
                }
                if !json_eq(&xe.1, &ye.1) {
                    proof {
                        if entries_equal(mx, my, mx.len() as int) {
                            lemma_entries_equal_prefix(mx, my, mx.len() as int, i as int);
                        }
                    }
                    return false;
                }
                i = i + 1;
            }
            true
        },
        _ => false,
    }
}

/// Three-way order of two values: -1, 0 or 1.
pub fn json_compare(a: &Json, b: &Json) -> (r: i8)
    ensures
        r == json_order(a@, b@),
    decreases a@,
{
    match (a, b) {
        (Json::Number(x), Json::Number(y)) => {
            if number_is_nan(*x) || number_is_nan(*y) {
                return 0;
            }
            let xn = *x >= 0x8000_0000_0000_0000;
            let yn = *y >= 0x8000_0000_0000_0000;
            let xm = *x % 0x8000_0000_0000_0000;
            let ym = *y % 0x8000_0000_0000_0000;
            if xn && xm > 0 {
                if yn && ym > 0 {
                    if xm > ym {
                        -1
                    } else if xm < ym {
                        1
                    } else {
                        0
                    }
                } else {
                    -1
                }
            } else if yn && ym > 0 {
                1
            } else if xm < ym {
                -1
            } else if xm > ym {
                1
            } else {
                0
            }
        },
        (Json::Bool(x), Json::Bool(y)) => {
            if !*x && *y {
                -1
            } else if *x && !*y {
                1
            } else {
                0
            }
        },
        (Json::Str(x), Json::Str(y)) => compare_bytes(x.as_slice(), y.as_slice()),
        (Json::Array(x), Json::Array(y)) => {
            proof {
                lemma_array_model(*x);
                lemma_array_model(*y);
            }
            let ghost mx = models(x@);
            let ghost my = models(y@);
            let mut i: usize = 0;
            while i < x.len() && i < y.len()
                invariant
                    i <= x@.len(),
                    i <= y@.len(),
                    mx == models(x@),
                    my == models(y@),
                    a@ == JsonValue::Array(mx),
                    b@ == JsonValue::Array(my),
                    json_order(a@, b@) == items_order(mx, my, i as int),
                decreases x@.len() - i,
            {
                proof {
                    let av = a@;
                    assert(decreases_to!(av => av->Array_0));
                    assert(decreases_to!(av->Array_0 => av->Array_0[i as int]));
                }
                let c = json_compare(&x[i], &y[i]);
                if c != 0 {
                    return c;
                }
                i = i + 1;
            }
            usize_order(x.len() - i, y.len() - i)
        },
        (Json::Object(x), Json::Object(y)) => {
            let ex = x.entries();
            let ey = y.entries();
            let ghost mx = x.model();
            let ghost my = y.model();
            let mut i: usize = 0;
            while i < ex.len() && i < ey.len()
                invariant
                    i <= ex@.len(),
                    i <= ey@.len(),
                    ex@.len() == mx.len(),
                    ey@.len() == my.len(),
                    forall|k: int|
                        0 <= k < ex@.len() ==> (#[trigger] ex@[k]).0@ == mx[k].0 && ex@[k].1@
                            == mx[k].1,
                    forall|k: int|
                        0 <= k < ey@.len() ==> (#[trigger] ey@[k]).0@ == my[k].0 && ey@[k].1@
                            == my[k].1,
                    a@ == JsonValue::Object(mx),
                    b@ == JsonValue::Object(my),
                    json_order(a@, b@) == entries_order(mx, my, i as int),
                decreases ex@.len() - i,
            {
                let xe = &ex[i];
                let ye = &ey[i];
                assert(xe.0@ == mx[i as int].0 && xe.1@ == mx[i as int].1);
                assert(ye.0@ == my[i as int].0 && ye.1@ == my[i as int].1);
                let kc = compare_bytes(xe.0.as_slice(), ye.0.as_slice());
                if kc != 0 {
                    return kc;
                }
                proof {
                    let av = a@;
                    assert(decreases_to!(av => av->Object_0));
                    assert(decreases_to!(av->Object_0 => av->Object_0[i as int]));
                    assert(decreases_to!(av->Object_0[i as int] => av->Object_0[i as int].1));
                }
                let vc = json_compare(&xe.1, &ye.1);
                if vc != 0 {
                    return vc;
                }
                i = i + 1;
            }
            usize_order(ex.len() - i, ey.len() - i)
        },
        _ => {
            let ra = rank(a);
            let rb = rank(b);
            if ra < rb {
                -1
            } else if ra > rb {
                1
            } else {
                0
            }
        },
    }
}

fn rank(a: &Json) -> (r: u8)
    ensures
        r == type_rank(a@),
{
    match a {
        Json::Null => 0,
        Json::Number(_) => 1,
        Json::Bool(_) => 2,
        Json::Str(_) => 3,
        Json::Array(_) => 4,
        Json::Object(_) => 5,
    }
}

impl Json {
    /// The order of two values.
    pub fn cmp(&self, other: &Json) -> (r: Ordering)
        ensures
            r == ordering_for(json_order(self@, other@)),
    {
        let c = json_compare(self, other);
        if c < 0 {
            Ordering::Less
        } else if c > 0 {
            Ordering::Greater
        } else {
            Ordering::Equal
        }
    }
}

impl PartialEq for Json {
    fn eq(&self, other: &Json) -> (r: bool) {
        json_eq(self, other)
    }
}

impl vstd::std_specs::cmp::PartialEqSpecImpl for Json {
    open spec fn obeys_eq_spec() -> bool {
        true
    }

    open spec fn eq_spec(&self, other: &Json) -> bool {
        json_equal(self@, other@)
    }
}

impl Eq for Json {

}

impl PartialOrd for Json {
    fn partial_cmp(&self, other: &Json) -> (r: Option<Ordering>) {
        Some(self.cmp(other))
    }
}

impl vstd::std_specs::cmp::PartialOrdSpecImpl for Json {
    open spec fn obeys_partial_cmp_spec() -> bool {
        true
    }

    open spec fn partial_cmp_spec(&self, other: &Json) -> Option<Ordering> {
        Some(ordering_for(json_order(self@, other@)))
    }
}

} // verus!

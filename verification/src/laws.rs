//! Properties of equality and order that hold for all values.
use vstd::prelude::*;
use crate::bytes::{lemma_bytes_lt_transitive, lemma_lex_order_antisymmetric, lex_order};
use crate::compare::{
    entries_equal,
    entries_order,
    int_order,
    items_equal,
    items_order,
    lemma_entries_equal_prefix,
    lemma_items_equal_prefix,
    json_equal,
    json_order,
};
use crate::number::{
    is_finite,
    is_nan,
    lemma_magnitude_value_monotone,
    lemma_scaled_value,
    magnitude,
    magnitude_value,
    scaled_value,
    sign_set,
};
use crate::value::JsonValue;

verus! {

/// No number inside `v` is a NaN.
pub open spec fn nan_free(v: JsonValue) -> bool
    decreases v, 0int,
{
    match v {
        JsonValue::Number(b) => !is_nan(b),
        JsonValue::Array(a) => items_nan_free(a, a.len() as int),
        JsonValue::Object(o) => entries_nan_free(o, o.len() as int),
        _ => true,
    }
}

/// No number inside the first `n` items is a NaN.
pub open spec fn items_nan_free(a: Seq<JsonValue>, n: int) -> bool
    decreases a, n,
{
    if n <= 0 || n > a.len() {
        true
    } else {
        items_nan_free(a, n - 1) && nan_free(a[n - 1])
    }
}

/// No number inside the values of the first `n` entries is a NaN.
pub open spec fn entries_nan_free(o: Seq<(Seq<u8>, JsonValue)>, n: int) -> bool
    decreases o, n,
{
    if n <= 0 || n > o.len() {
        true
    } else {
        entries_nan_free(o, n - 1) && nan_free(o[n - 1].1)
    }
}

/// Equality of values is symmetric.
pub proof fn law_equal_symmetric(a: JsonValue, b: JsonValue)
    ensures
        json_equal(a, b) == json_equal(b, a),
    decreases a, 0int,
{
    match (a, b) {
        (JsonValue::Array(x), JsonValue::Array(y)) => {
            if x.len() == y.len() {
                lemma_items_equal_symmetric(x, y, x.len() as int);
            }
        },
        (JsonValue::Object(x), JsonValue::Object(y)) => {
            if x.len() == y.len() {
                lemma_entries_equal_symmetric(x, y, x.len() as int);
            }
        },
        _ => {},
    }
}

proof fn lemma_items_equal_symmetric(x: Seq<JsonValue>, y: Seq<JsonValue>, n: int)
    requires
        x.len() == y.len(),
    ensures
        items_equal(x, y, n) == items_equal(y, x, n),
    decreases x, n,
{
    if 0 < n <= x.len() {
        lemma_items_equal_symmetric(x, y, n - 1);
        law_equal_symmetric(x[n - 1], y[n - 1]);
    }
}

proof fn lemma_entries_equal_symmetric(
    x: Seq<(Seq<u8>, JsonValue)>,
    y: Seq<(Seq<u8>, JsonValue)>,
    n: int,
)
    requires
        x.len() == y.len(),
    ensures
        entries_equal(x, y, n) == entries_equal(y, x, n),
    decreases x, n,
{
    if 0 < n <= x.len() {
        lemma_entries_equal_symmetric(x, y, n - 1);
        law_equal_symmetric(x[n - 1].1, y[n - 1].1);
    }
}

/// A value without NaNs equals itself.
pub proof fn law_equal_reflexive(a: JsonValue)
    requires
        nan_free(a),
    ensures
        json_equal(a, a),
    decreases a, 0int,
{
    match a {
        JsonValue::Array(x) => lemma_items_equal_reflexive(x, x.len() as int),
        JsonValue::Object(x) => lemma_entries_equal_reflexive(x, x.len() as int),
        _ => {},
    }
}

proof fn lemma_items_equal_reflexive(x: Seq<JsonValue>, n: int)
    requires
        items_nan_free(x, n),
    ensures
        items_equal(x, x, n),
    decreases x, n,
{
    if 0 < n <= x.len() {
        lemma_items_equal_reflexive(x, n - 1);
        law_equal_reflexive(x[n - 1]);
    }
}

proof fn lemma_entries_equal_reflexive(x: Seq<(Seq<u8>, JsonValue)>, n: int)
    requires
        entries_nan_free(x, n),
    ensures
        entries_equal(x, x, n),
    decreases x, n,
{
    if 0 < n <= x.len() {
        lemma_entries_equal_reflexive(x, n - 1);
        law_equal_reflexive(x[n - 1].1);
    }
}

/// Swapping the operands of the order reverses it.
pub proof fn law_order_antisymmetric(a: JsonValue, b: JsonValue)
    ensures
        json_order(a, b) == -json_order(b, a),
    decreases a, 0int,
{
    match (a, b) {
        (JsonValue::Str(x), JsonValue::Str(y)) => {
            lemma_lex_order_antisymmetric(x, y);
        },
        (JsonValue::Array(x), JsonValue::Array(y)) => {
            lemma_items_order_antisymmetric(x, y, 0);
        },
        (JsonValue::Object(x), JsonValue::Object(y)) => {
            lemma_entries_order_antisymmetric(x, y, 0);
        },
        _ => {},
    }
}

proof fn lemma_items_order_antisymmetric(x: Seq<JsonValue>, y: Seq<JsonValue>, i: int)
    ensures
        items_order(x, y, i) == -items_order(y, x, i),
    decreases x, x.len() - i,
{
    if 0 <= i < x.len() && i < y.len() {
        law_order_antisymmetric(x[i], y[i]);
        lemma_items_order_antisymmetric(x, y, i + 1);
    }
}

proof fn lemma_entries_order_antisymmetric(
    x: Seq<(Seq<u8>, JsonValue)>,
    y: Seq<(Seq<u8>, JsonValue)>,
    i: int,
)
    ensures
        entries_order(x, y, i) == -entries_order(y, x, i),
    decreases x, x.len() - i,
{
    if 0 <= i < x.len() && i < y.len() {
        lemma_lex_order_antisymmetric(x[i].0, y[i].0);
        law_order_antisymmetric(x[i].1, y[i].1);
        lemma_entries_order_antisymmetric(x, y, i + 1);
    }
}

/// Equal values are in the same place of the order.
pub proof fn law_equal_implies_order_equal(a: JsonValue, b: JsonValue)
    requires
        json_equal(a, b),
    ensures
        json_order(a, b) == 0,
    decreases a, 0int,
{
    match (a, b) {
        (JsonValue::Str(x), JsonValue::Str(y)) => {
            lemma_lex_order_antisymmetric(x, y);
        },
        (JsonValue::Array(x), JsonValue::Array(y)) => {
            lemma_items_equal_order(x, y, 0);
        },
        (JsonValue::Object(x), JsonValue::Object(y)) => {
            lemma_entries_equal_order(x, y, 0);
        },
        _ => {},
    }
}

proof fn lemma_items_equal_order(x: Seq<JsonValue>, y: Seq<JsonValue>, i: int)
    requires
        x.len() == y.len(),
        items_equal(x, y, x.len() as int),
        0 <= i <= x.len(),
    ensures
        items_order(x, y, i) == 0,
    decreases x, x.len() - i,
{
    if i < x.len() {
        lemma_items_equal_prefix(x, y, x.len() as int, i);
        law_equal_implies_order_equal(x[i], y[i]);
        lemma_items_equal_order(x, y, i + 1);
    }
}

proof fn lemma_entries_equal_order(x: Seq<(Seq<u8>, JsonValue)>, y: Seq<(Seq<u8>, JsonValue)>, i: int)
    requires
        x.len() == y.len(),
        entries_equal(x, y, x.len() as int),
        0 <= i <= x.len(),
    ensures
        entries_order(x, y, i) == 0,
    decreases x, x.len() - i,
{
    if i < x.len() {
        lemma_entries_equal_prefix(x, y, x.len() as int, i);
        lemma_lex_order_antisymmetric(x[i].0, y[i].0);
        law_equal_implies_order_equal(x[i].1, y[i].1);
        lemma_entries_equal_order(x, y, i + 1);
    }
}

proof fn lemma_items_nan_free_at(x: Seq<JsonValue>, n: int, i: int)
    requires
        items_nan_free(x, n),
        0 <= i < n <= x.len(),
    ensures
        nan_free(x[i]),
    decreases n,
{
    if i < n - 1 {
        lemma_items_nan_free_at(x, n - 1, i);
    }
}

proof fn lemma_entries_nan_free_at(x: Seq<(Seq<u8>, JsonValue)>, n: int, i: int)
    requires
        entries_nan_free(x, n),
        0 <= i < n <= x.len(),
    ensures
        nan_free(x[i].1),
    decreases n,
{
    if i < n - 1 {
        lemma_entries_nan_free_at(x, n - 1, i);
    }
}

proof fn lemma_lex_order_transitive(a: Seq<u8>, b: Seq<u8>, c: Seq<u8>)
    requires
        lex_order(a, b) <= 0,
        lex_order(b, c) <= 0,
    ensures
        lex_order(a, c) <= 0,
        lex_order(a, c) == 0 <==> (lex_order(a, b) == 0 && lex_order(b, c) == 0),
{
    lemma_lex_order_antisymmetric(a, b);
    lemma_lex_order_antisymmetric(b, c);
    lemma_lex_order_antisymmetric(a, c);
    if lex_order(a, b) < 0 && lex_order(b, c) < 0 {
        lemma_bytes_lt_transitive(a, b, c);
    }
}

/// The order is transitive on values without NaNs: from `a ≤ b` and
/// `b ≤ c` follows `a ≤ c`, and `a` and `c` order as equal exactly when
/// both steps do.
pub proof fn law_order_transitive(a: JsonValue, b: JsonValue, c: JsonValue)
    requires
        nan_free(a),
        nan_free(b),
        nan_free(c),
        json_order(a, b) <= 0,
        json_order(b, c) <= 0,
    ensures
        json_order(a, c) <= 0,
        json_order(a, c) == 0 <==> (json_order(a, b) == 0 && json_order(b, c) == 0),
    decreases a, 0int,
{
    match (a, b, c) {
        (JsonValue::Str(x), JsonValue::Str(y), JsonValue::Str(z)) => {
            lemma_lex_order_transitive(x, y, z);
        },
        (JsonValue::Array(x), JsonValue::Array(y), JsonValue::Array(z)) => {
            lemma_items_order_transitive(x, y, z, 0);
        },
        (JsonValue::Object(x), JsonValue::Object(y), JsonValue::Object(z)) => {
            lemma_entries_order_transitive(x, y, z, 0);
        },
        _ => {},
    }
}

proof fn lemma_items_order_transitive(x: Seq<JsonValue>, y: Seq<JsonValue>, z: Seq<JsonValue>, i: int)
    requires
        items_nan_free(x, x.len() as int),
        items_nan_free(y, y.len() as int),
        items_nan_free(z, z.len() as int),
        0 <= i <= x.len(),
        i <= y.len(),
        i <= z.len(),
        items_order(x, y, i) <= 0,
        items_order(y, z, i) <= 0,
    ensures
        items_order(x, z, i) <= 0,
        items_order(x, z, i) == 0 <==> (items_order(x, y, i) == 0 && items_order(y, z, i) == 0),
    decreases x, x.len() - i,
{
    if i < x.len() && i < y.len() && i < z.len() {
        lemma_items_nan_free_at(x, x.len() as int, i);
        lemma_items_nan_free_at(y, y.len() as int, i);
        lemma_items_nan_free_at(z, z.len() as int, i);
        law_order_transitive(x[i], y[i], z[i]);
        if json_order(x[i], y[i]) == 0 && json_order(y[i], z[i]) == 0 {
            lemma_items_order_transitive(x, y, z, i + 1);
        }
    }
}

proof fn lemma_entries_order_transitive(
    x: Seq<(Seq<u8>, JsonValue)>,
    y: Seq<(Seq<u8>, JsonValue)>,
    z: Seq<(Seq<u8>, JsonValue)>,
    i: int,
)
    requires
        entries_nan_free(x, x.len() as int),
        entries_nan_free(y, y.len() as int),
        entries_nan_free(z, z.len() as int),
        0 <= i <= x.len(),
        i <= y.len(),
        i <= z.len(),
        entries_order(x, y, i) <= 0,
        entries_order(y, z, i) <= 0,
    ensures
        entries_order(x, z, i) <= 0,
        entries_order(x, z, i) == 0 <==> (entries_order(x, y, i) == 0 && entries_order(y, z, i)
            == 0),
    decreases x, x.len() - i,
{
    if i < x.len() && i < y.len() && i < z.len() {
        lemma_lex_order_transitive(x[i].0, y[i].0, z[i].0);
        lemma_lex_order_antisymmetric(x[i].0, y[i].0);
        lemma_lex_order_antisymmetric(y[i].0, z[i].0);
        lemma_lex_order_antisymmetric(x[i].0, z[i].0);
        if lex_order(x[i].0, y[i].0) == 0 && lex_order(y[i].0, z[i].0) == 0 {
            lemma_entries_nan_free_at(x, x.len() as int, i);
            lemma_entries_nan_free_at(y, y.len() as int, i);
            lemma_entries_nan_free_at(z, z.len() as int, i);
            law_order_transitive(x[i].1, y[i].1, z[i].1);
            if json_order(x[i].1, y[i].1) == 0 && json_order(y[i].1, z[i].1) == 0 {
                lemma_entries_order_transitive(x, y, z, i + 1);
            }
        }
    }
}

/// Equality of values is transitive.
pub proof fn law_equal_transitive(a: JsonValue, b: JsonValue, c: JsonValue)
    requires
        json_equal(a, b),
        json_equal(b, c),
    ensures
        json_equal(a, c),
    decreases a, 0int,
{
    match (a, b, c) {
        (JsonValue::Array(x), JsonValue::Array(y), JsonValue::Array(z)) => {
            lemma_items_equal_transitive(x, y, z, x.len() as int);
        },
        (JsonValue::Object(x), JsonValue::Object(y), JsonValue::Object(z)) => {
            lemma_entries_equal_transitive(x, y, z, x.len() as int);
        },
        _ => {},
    }
}

proof fn lemma_items_equal_transitive(x: Seq<JsonValue>, y: Seq<JsonValue>, z: Seq<JsonValue>, n: int)
    requires
        items_equal(x, y, n),
        items_equal(y, z, n),
        n <= x.len(),
        n <= y.len(),
        n <= z.len(),
    ensures
        items_equal(x, z, n),
    decreases x, n,
{
    if n > 0 {
        lemma_items_equal_transitive(x, y, z, n - 1);
        law_equal_transitive(x[n - 1], y[n - 1], z[n - 1]);
    }
}

proof fn lemma_entries_equal_transitive(
    x: Seq<(Seq<u8>, JsonValue)>,
    y: Seq<(Seq<u8>, JsonValue)>,
    z: Seq<(Seq<u8>, JsonValue)>,
    n: int,
)
    requires
        entries_equal(x, y, n),
        entries_equal(y, z, n),
        n <= x.len(),
        n <= y.len(),
        n <= z.len(),
    ensures
        entries_equal(x, z, n),
    decreases x, n,
{
    if n > 0 {
        lemma_entries_equal_transitive(x, y, z, n - 1);
        law_equal_transitive(x[n - 1].1, y[n - 1].1, z[n - 1].1);
    }
}

/// On values without NaNs, values that order as equal are equal: the
/// order agrees with `==`.
pub proof fn law_order_equal_implies_equal(a: JsonValue, b: JsonValue)
    requires
        nan_free(a),
        nan_free(b),
        json_order(a, b) == 0,
    ensures
        json_equal(a, b),
    decreases a, 0int,
{
    match (a, b) {
        (JsonValue::Str(x), JsonValue::Str(y)) => {
            lemma_lex_order_antisymmetric(x, y);
        },
        (JsonValue::Array(x), JsonValue::Array(y)) => {
            lemma_items_order_zero(x, y, 0);
        },
        (JsonValue::Object(x), JsonValue::Object(y)) => {
            lemma_entries_order_zero(x, y, 0);
        },
        _ => {},
    }
}

proof fn lemma_items_order_zero(x: Seq<JsonValue>, y: Seq<JsonValue>, i: int)
    requires
        items_nan_free(x, x.len() as int),
        items_nan_free(y, y.len() as int),
        0 <= i <= x.len(),
        i <= y.len(),
        items_order(x, y, i) == 0,
        items_equal(x, y, i),
    ensures
        x.len() == y.len(),
        items_equal(x, y, x.len() as int),
    decreases x, x.len() - i,
{
    if i < x.len() && i < y.len() {
        lemma_items_nan_free_at(x, x.len() as int, i);
        lemma_items_nan_free_at(y, y.len() as int, i);
        law_order_equal_implies_equal(x[i], y[i]);
        lemma_items_order_zero(x, y, i + 1);
    }
}

proof fn lemma_entries_order_zero(x: Seq<(Seq<u8>, JsonValue)>, y: Seq<(Seq<u8>, JsonValue)>, i: int)
    requires
        entries_nan_free(x, x.len() as int),
        entries_nan_free(y, y.len() as int),
        0 <= i <= x.len(),
        i <= y.len(),
        entries_order(x, y, i) == 0,
        entries_equal(x, y, i),
    ensures
        x.len() == y.len(),
        entries_equal(x, y, x.len() as int),
    decreases x, x.len() - i,
{
    if i < x.len() && i < y.len() {
        lemma_lex_order_antisymmetric(x[i].0, y[i].0);
        lemma_entries_nan_free_at(x, x.len() as int, i);
        lemma_entries_nan_free_at(y, y.len() as int, i);
        law_order_equal_implies_equal(x[i].1, y[i].1);
        lemma_entries_order_zero(x, y, i + 1);
    }
}

/// Finite numbers are ordered as their values are (negative numbers below
/// zero, and the further below the larger their size; `-0` and `+0` alike).
pub proof fn law_number_order(x: u64, y: u64)
    requires
        is_finite(x),
        is_finite(y),
    ensures
        json_order(JsonValue::Number(x), JsonValue::Number(y)) == int_order(
            scaled_value(x),
            scaled_value(y),
        ),
{
    lemma_scaled_value(x);
    lemma_scaled_value(y);
    let mx = magnitude(x);
    let my = magnitude(y);
    assert(magnitude_value(0) == 0);
    if mx < my {
        lemma_magnitude_value_monotone(mx, my);
    } else if my < mx {
        lemma_magnitude_value_monotone(my, mx);
    }
    if mx > 0 {
        lemma_magnitude_value_monotone(0, mx);
    }
    if my > 0 {
        lemma_magnitude_value_monotone(0, my);
    }
}

/// An infinity orders beyond every finite number: `+inf` above, `-inf` below.
pub proof fn law_infinity_order(x: u64, y: u64)
    requires
        !is_nan(x),
        !is_finite(x),
        is_finite(y),
    ensures
        json_order(JsonValue::Number(x), JsonValue::Number(y)) == if sign_set(x) {
            -1int
        } else {
            1int
        },
{
}

/// Finite numbers are equal exactly when their values are (so `-0 == +0`).
pub proof fn law_number_equality(x: u64, y: u64)
    requires
        is_finite(x),
        is_finite(y),
    ensures
        json_equal(JsonValue::Number(x), JsonValue::Number(y)) <==> scaled_value(x) == scaled_value(y),
{
    law_number_order(x, y);
}

} // verus!

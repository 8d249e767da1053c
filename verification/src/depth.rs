//! The nesting limit: whatever the parser accepts is nested no deeper than
//! [`MAX_DEPTH`] levels.
use vstd::prelude::*;
use crate::grammar::{
    MAX_DEPTH,
    array_after_bracket,
    array_items,
    lemma_next_token,
    lemma_string_body,
    next_token,
    object_after_brace,
    object_members,
    parse_document,
    parse_string,
    parse_value,
};
use crate::value::{JsonParse, JsonValue, key_position, lemma_key_position, object_insert};

verus! {

/// `v`, sitting `depth` levels deep, holds no value (itself included) deeper
/// than [`MAX_DEPTH`] levels.
pub open spec fn within_depth(v: JsonValue, depth: int) -> bool
    decreases v,
{
    depth <= MAX_DEPTH && match v {
        JsonValue::Array(a) => forall|i: int|
            0 <= i < a.len() ==> within_depth(#[trigger] a[i], depth + 1),
        JsonValue::Object(o) => forall|i: int|
            0 <= i < o.len() ==> within_depth(#[trigger] o[i].1, depth + 1),
        _ => true,
    }
}

proof fn lemma_insert_within(
    acc: Seq<(Seq<u8>, JsonValue)>,
    key: Seq<u8>,
    v: JsonValue,
    depth: int,
)
    requires
        forall|i: int| 0 <= i < acc.len() ==> within_depth(#[trigger] acc[i].1, depth),
        within_depth(v, depth),
    ensures
        forall|i: int|
            0 <= i < object_insert(acc, key, v).len() ==> within_depth(
                #[trigger] object_insert(acc, key, v)[i].1,
                depth,
            ),
{
    lemma_key_position(acc, key);
    let p = key_position(acc, key);
    let r = object_insert(acc, key, v);
    assert forall|i: int| 0 <= i < r.len() implies within_depth(#[trigger] r[i].1, depth) by {
        if p < acc.len() && acc[p].0 == key {
            if i != p {
                assert(r[i] == acc[i]);
            }
        } else if i < p {
            assert(r[i] == acc[i]);
        } else if i > p {
            assert(r[i] == acc[i - 1]);
        }
    }
}

proof fn lemma_value_within(
    s: Seq<u8>,
    i: int,
    depth: int,
    strategy: JsonParse,
    dec: spec_fn(Seq<u8>) -> u64,
)
    ensures
        parse_value(s, i, depth, strategy, dec) matches Ok((v, _)) ==> within_depth(v, depth),
    decreases s.len() - i, 0int,
{
    if depth <= MAX_DEPTH && 0 <= i <= s.len() {
        lemma_next_token(s, i, strategy);
        if let Ok((ch, j)) = next_token(s, i, strategy) {
            if ch == 0x7b {
                lemma_object_within(s, j, depth, strategy, dec);
            } else if ch == 0x5b {
                lemma_array_within(s, j, depth, strategy, dec);
            }
        }
    }
}

proof fn lemma_object_within(
    s: Seq<u8>,
    j: int,
    depth: int,
    strategy: JsonParse,
    dec: spec_fn(Seq<u8>) -> u64,
)
    requires
        depth <= MAX_DEPTH,
    ensures
        object_after_brace(s, j, depth, strategy, dec) matches Ok((v, _)) ==> within_depth(v, depth),
    decreases s.len() - j, 0int,
{
    if 0 <= j <= s.len() {
        lemma_next_token(s, j, strategy);
        if let Ok((c, k)) = next_token(s, j, strategy) {
            if c != 0x7d {
                lemma_members_within(s, c, k, depth, strategy, dec, Seq::empty());
            }
        }
    }
}

proof fn lemma_array_within(
    s: Seq<u8>,
    j: int,
    depth: int,
    strategy: JsonParse,
    dec: spec_fn(Seq<u8>) -> u64,
)
    requires
        depth <= MAX_DEPTH,
    ensures
        array_after_bracket(s, j, depth, strategy, dec) matches Ok((v, _)) ==> within_depth(v, depth),
    decreases s.len() - j, 2int,
{
    if 0 <= j <= s.len() {
        lemma_next_token(s, j, strategy);
        if let Ok((c, k)) = next_token(s, j, strategy) {
            if c != 0x5d {
                lemma_items_within(s, k - 1, depth, strategy, dec, Seq::empty());
            }
        }
    }
}

proof fn lemma_items_within(
    s: Seq<u8>,
    p: int,
    depth: int,
    strategy: JsonParse,
    dec: spec_fn(Seq<u8>) -> u64,
    acc: Seq<JsonValue>,
)
    requires
        depth <= MAX_DEPTH,
        forall|i: int| 0 <= i < acc.len() ==> within_depth(#[trigger] acc[i], depth + 1),
    ensures
        array_items(s, p, depth, strategy, dec, acc) matches Ok((v, _)) ==> within_depth(v, depth),
    decreases s.len() - p, 1int,
{
    if 0 <= p <= s.len() {
        lemma_value_within(s, p, depth + 1, strategy, dec);
        if let Ok((v, q)) = parse_value(s, p, depth + 1, strategy, dec) {
            let items = acc.push(v);
            assert forall|i: int| 0 <= i < items.len() implies within_depth(
                #[trigger] items[i],
                depth + 1,
            ) by {
                if i < acc.len() {
                    assert(items[i] == acc[i]);
                }
            }
            if 0 <= q <= s.len() {
                lemma_next_token(s, q, strategy);
                if let Ok((c, r)) = next_token(s, q, strategy) {
                    if c == 0x2c {
                        lemma_next_token(s, r, strategy);
                        if let Ok((c2, r2)) = next_token(s, r, strategy) {
                            if r2 - 1 > p {
                                lemma_items_within(s, r2 - 1, depth, strategy, dec, items);
                            }
                        }
                    }
                }
            }
        }
    }
}

proof fn lemma_members_within(
    s: Seq<u8>,
    c: u8,
    k: int,
    depth: int,
    strategy: JsonParse,
    dec: spec_fn(Seq<u8>) -> u64,
    acc: Seq<(Seq<u8>, JsonValue)>,
)
    requires
        depth <= MAX_DEPTH,
        forall|i: int| 0 <= i < acc.len() ==> within_depth(#[trigger] acc[i].1, depth + 1),
    ensures
        object_members(s, c, k, depth, strategy, dec, acc) matches Ok((v, _)) ==> within_depth(
            v,
            depth,
        ),
    decreases s.len() - k, 0int,
{
    if c == 0x22 && 0 <= k <= s.len() {
        lemma_string_body(s, k, Seq::empty(), -1);
        if let Ok((key, e1)) = parse_string(s, k) {
            lemma_next_token(s, e1, strategy);
            if let Ok((c1, e2)) = next_token(s, e1, strategy) {
                if c1 == 0x3a {
                    lemma_value_within(s, e2, depth + 1, strategy, dec);
                    if let Ok((v, q)) = parse_value(s, e2, depth + 1, strategy, dec) {
                        lemma_insert_within(acc, key, v, depth + 1);
                        let entries = object_insert(acc, key, v);
                        if 0 <= q <= s.len() {
                            lemma_next_token(s, q, strategy);
                            if let Ok((c3, r)) = next_token(s, q, strategy) {
                                if c3 == 0x2c {
                                    lemma_next_token(s, r, strategy);
                                    if let Ok((c4, r2)) = next_token(s, r, strategy) {
                                        if r2 > k {
                                            lemma_members_within(
                                                s,
                                                c4,
                                                r2,
                                                depth,
                                                strategy,
                                                dec,
                                                entries,
                                            );
                                        }
                                    }
                                }
                            }
                        }
                    }
                }
            }
        }
    }
}

/// Whatever a document parses to is nested no deeper than [`MAX_DEPTH`]
/// levels; deeper input is refused.
pub proof fn law_parse_depth_limit(s: Seq<u8>, strategy: JsonParse, dec: spec_fn(Seq<u8>) -> u64)
    ensures
        parse_document(s, strategy, dec) matches Ok(v) ==> within_depth(v, 0),
{
    lemma_value_within(s, 0, 0, strategy, dec);
}

} // verus!

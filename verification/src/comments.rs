//! Allowing comments only adds to what the parser accepts: a document that
//! parses without them parses to the same value with them.
use vstd::prelude::*;
use crate::grammar::{
    array_after_bracket,
    array_items,
    byte_at,
    is_ws,
    lemma_next_token,
    lemma_skip_ws,
    lemma_string_body,
    next_token,
    object_after_brace,
    object_members,
    parse_document,
    parse_string,
    parse_value,
    skip_garbage,
    skip_ws,
};
use crate::value::{JsonParse, JsonValue};

verus! {

/// Skipping from `i` ends the same way in both modes when it stops at a
/// byte that does not open a comment.
proof fn lemma_garbage_same(s: Seq<u8>, i: int)
    requires
        byte_at(s, skip_ws(s, i)) != 0x2f,
    ensures
        skip_garbage(s, i, JsonParse::Comments) == skip_garbage(s, i, JsonParse::Standard),
{
    if 0 <= i <= s.len() {
        lemma_skip_ws(s, i);
        let j = skip_ws(s, i);
        lemma_skip_ws(s, j);
    }
}

/// A token read without comments, other than `/`, is read the same with them.
proof fn lemma_token_same(s: Seq<u8>, i: int)
    requires
        0 <= i <= s.len(),
        next_token(s, i, JsonParse::Standard) matches Ok((c, _)) && c != 0x2f,
    ensures
        next_token(s, i, JsonParse::Comments) == next_token(s, i, JsonParse::Standard),
{
    lemma_skip_ws(s, i);
    lemma_garbage_same(s, i);
}

proof fn lemma_value_same(s: Seq<u8>, i: int, depth: int, dec: spec_fn(Seq<u8>) -> u64)
    ensures
        parse_value(s, i, depth, JsonParse::Standard, dec) is Ok ==> {
            &&& parse_value(s, i, depth, JsonParse::Comments, dec) == parse_value(
                s,
                i,
                depth,
                JsonParse::Standard,
                dec,
            )
            &&& byte_at(s, skip_ws(s, i)) != 0x2f
        },
    decreases s.len() - i, 0int,
{
    if parse_value(s, i, depth, JsonParse::Standard, dec) is Ok {
        lemma_next_token(s, i, JsonParse::Standard);
        lemma_skip_ws(s, i);
        let (ch, j) = next_token(s, i, JsonParse::Standard)->Ok_0;
        lemma_token_same(s, i);
        if ch == 0x7b {
            lemma_object_same(s, j, depth, dec);
        } else if ch == 0x5b {
            lemma_array_same(s, j, depth, dec);
        }
    }
}

proof fn lemma_object_same(s: Seq<u8>, j: int, depth: int, dec: spec_fn(Seq<u8>) -> u64)
    ensures
        object_after_brace(s, j, depth, JsonParse::Standard, dec) is Ok ==> object_after_brace(
            s,
            j,
            depth,
            JsonParse::Comments,
            dec,
        ) == object_after_brace(s, j, depth, JsonParse::Standard, dec),
    decreases s.len() - j, 0int,
{
    if object_after_brace(s, j, depth, JsonParse::Standard, dec) is Ok {
        lemma_next_token(s, j, JsonParse::Standard);
        let (c, k) = next_token(s, j, JsonParse::Standard)->Ok_0;
        lemma_token_same(s, j);
        if c != 0x7d {
            lemma_members_same(s, c, k, depth, dec, Seq::empty());
        }
    }
}

proof fn lemma_array_same(s: Seq<u8>, j: int, depth: int, dec: spec_fn(Seq<u8>) -> u64)
    ensures
        array_after_bracket(s, j, depth, JsonParse::Standard, dec) is Ok ==> array_after_bracket(
            s,
            j,
            depth,
            JsonParse::Comments,
            dec,
        ) == array_after_bracket(s, j, depth, JsonParse::Standard, dec),
    decreases s.len() - j, 2int,
{
    if array_after_bracket(s, j, depth, JsonParse::Standard, dec) is Ok {
        lemma_next_token(s, j, JsonParse::Standard);
        lemma_skip_ws(s, j);
        let (c, k) = next_token(s, j, JsonParse::Standard)->Ok_0;
        if c != 0x5d {
            lemma_items_same(s, k - 1, depth, dec, Seq::empty());
            lemma_skip_ws(s, k - 1);
        }
        lemma_token_same(s, j);
    }
}

proof fn lemma_items_same(
    s: Seq<u8>,
    p: int,
    depth: int,
    dec: spec_fn(Seq<u8>) -> u64,
    acc: Seq<JsonValue>,
)
    ensures
        array_items(s, p, depth, JsonParse::Standard, dec, acc) is Ok ==> {
            &&& array_items(s, p, depth, JsonParse::Comments, dec, acc) == array_items(
                s,
                p,
                depth,
                JsonParse::Standard,
                dec,
                acc,
            )
            &&& byte_at(s, skip_ws(s, p)) != 0x2f
        },
    decreases s.len() - p, 1int,
{
    if array_items(s, p, depth, JsonParse::Standard, dec, acc) is Ok {
        lemma_value_same(s, p, depth + 1, dec);
        let (v, q) = parse_value(s, p, depth + 1, JsonParse::Standard, dec)->Ok_0;
        let items = acc.push(v);
        lemma_next_token(s, q, JsonParse::Standard);
        let (c, r) = next_token(s, q, JsonParse::Standard)->Ok_0;
        lemma_token_same(s, q);
        if c == 0x2c {
            lemma_next_token(s, r, JsonParse::Standard);
            lemma_skip_ws(s, r);
            let (c2, r2) = next_token(s, r, JsonParse::Standard)->Ok_0;
            lemma_items_same(s, r2 - 1, depth, dec, items);
            lemma_skip_ws(s, r2 - 1);
            lemma_token_same(s, r);
        }
    }
}

proof fn lemma_members_same(
    s: Seq<u8>,
    c: u8,
    k: int,
    depth: int,
    dec: spec_fn(Seq<u8>) -> u64,
    acc: Seq<(Seq<u8>, JsonValue)>,
)
    ensures
        object_members(s, c, k, depth, JsonParse::Standard, dec, acc) is Ok ==> object_members(
            s,
            c,
            k,
            depth,
            JsonParse::Comments,
            dec,
            acc,
        ) == object_members(s, c, k, depth, JsonParse::Standard, dec, acc),
    decreases s.len() - k, 0int,
{
    if object_members(s, c, k, depth, JsonParse::Standard, dec, acc) is Ok {
        lemma_string_body(s, k, Seq::empty(), -1);
        let (key, e1) = parse_string(s, k)->Ok_0;
        lemma_next_token(s, e1, JsonParse::Standard);
        let (c1, e2) = next_token(s, e1, JsonParse::Standard)->Ok_0;
        lemma_token_same(s, e1);
        lemma_value_same(s, e2, depth + 1, dec);
        let (v, q) = parse_value(s, e2, depth + 1, JsonParse::Standard, dec)->Ok_0;
        let entries = crate::value::object_insert(acc, key, v);
        lemma_next_token(s, q, JsonParse::Standard);
        let (c3, r) = next_token(s, q, JsonParse::Standard)->Ok_0;
        lemma_token_same(s, q);
        if c3 == 0x2c {
            lemma_next_token(s, r, JsonParse::Standard);
            let (c4, r2) = next_token(s, r, JsonParse::Standard)->Ok_0;
            assert(object_members(s, c4, r2, depth, JsonParse::Standard, dec, entries) is Ok);
            assert(c4 == 0x22);
            lemma_token_same(s, r);
            lemma_members_same(s, c4, r2, depth, dec, entries);
        }
    }
}

/// A document that parses without comments parses to the same value when
/// comments are allowed.
pub proof fn law_comments_accept_standard(s: Seq<u8>, dec: spec_fn(Seq<u8>) -> u64)
    ensures
        parse_document(s, JsonParse::Standard, dec) is Ok ==> parse_document(
            s,
            JsonParse::Comments,
            dec,
        ) == parse_document(s, JsonParse::Standard, dec),
{
    if parse_document(s, JsonParse::Standard, dec) is Ok {
        lemma_value_same(s, 0, 0, dec);
        let (v, q) = parse_value(s, 0, 0, JsonParse::Standard, dec)->Ok_0;
        lemma_garbage_same(s, q);
    }
}

proof fn lemma_comment_loop_stops(s: Seq<u8>, i: int)
    requires
        0 <= i <= s.len(),
        i < s.len() ==> !is_ws(s[i]),
    ensures
        crate::grammar::comment_loop(s, i) matches Ok(j) ==> j == s.len() || (0 <= j < s.len()
            && !is_ws(s[j]) && s[j] != 0x2f),
    decreases s.len() - i,
{
    crate::grammar::lemma_skip_comment(s, i);
    if let Ok((found, k)) = crate::grammar::skip_comment(s, i) {
        lemma_skip_ws(s, k);
        if found {
            lemma_skip_ws(s, skip_ws(s, k));
            lemma_comment_loop_stops(s, skip_ws(s, k));
        } else {
            if i + 4 <= s.len() {
                crate::grammar::lemma_block_end(s, i + 2);
            }
        }
    }
}

/// Skipping whitespace (and comments, when allowed) stops at the end of the
/// input or at a byte that is not whitespace, nor, when comments are
/// allowed, a `/`; without comments it stops at the first byte from `i` on
/// that is not whitespace.
pub proof fn law_skip_garbage_stops(s: Seq<u8>, i: int, strategy: JsonParse)
    requires
        0 <= i <= s.len(),
    ensures
        strategy == JsonParse::Standard ==> skip_garbage(s, i, strategy) == Ok::<int, Seq<char>>(
            skip_ws(s, i),
        ),
        i <= skip_ws(s, i) <= s.len(),
        forall|k: int| i <= k < skip_ws(s, i) ==> is_ws(#[trigger] s[k]),
        skip_garbage(s, i, strategy) matches Ok(j) ==> i <= j <= s.len() && (j == s.len() || (
        !is_ws(s[j]) && (strategy == JsonParse::Comments ==> s[j] != 0x2f))),
{
    lemma_skip_ws(s, i);
    crate::grammar::lemma_skip_garbage(s, i, strategy);
    lemma_comment_loop_stops(s, skip_ws(s, i));
}

} // verus!

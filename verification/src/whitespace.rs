//! Whitespace before a document does not change what it parses to.
//!
//! Reading `w + s` from position `i + |w|` does what reading `s` from `i`
//! does, with every position moved by `|w|`; when `w` is whitespace, the
//! document `w + s` therefore parses as `s` does.
use vstd::prelude::*;
use crate::grammar::{
    Parsed,
    array_after_bracket,
    array_items,
    block_end,
    byte_at,
    comment_loop,
    digits_end,
    expect_literal,
    is_ws,
    lemma_comment_loop,
    lemma_next_token,
    lemma_skip_comment,
    lemma_skip_ws,
    lemma_string_body,
    line_end,
    next_token,
    number_exponent,
    number_fraction,
    object_after_brace,
    object_members,
    parse_document,
    parse_number,
    parse_string,
    parse_value,
    skip_comment,
    skip_garbage,
    skip_ws,
    string_body,
};
use crate::value::{JsonParse, JsonValue};

verus! {

/// `r` with its position moved by `n`.
pub open spec fn shifted<T>(r: Parsed<T>, n: int) -> Parsed<T> {
    match r {
        Ok((v, k)) => Ok((v, k + n)),
        Err(e) => Err(e),
    }
}

/// `r` with its position moved by `n`.
pub open spec fn shifted_pos(r: Result<int, Seq<char>>, n: int) -> Result<int, Seq<char>> {
    match r {
        Ok(k) => Ok(k + n),
        Err(e) => Err(e),
    }
}

/// Every byte is whitespace.
pub open spec fn all_ws(w: Seq<u8>) -> bool {
    forall|k: int| 0 <= k < w.len() ==> is_ws(#[trigger] w[k])
}

proof fn lemma_byte(w: Seq<u8>, s: Seq<u8>, i: int)
    requires
        0 <= i,
    ensures
        byte_at(w + s, i + w.len()) == byte_at(s, i),
{
    if i < s.len() {
        assert((w + s)[i + w.len()] == s[i]);
    }
}

proof fn lemma_sub(w: Seq<u8>, s: Seq<u8>, a: int, b: int)
    requires
        0 <= a <= b <= s.len(),
    ensures
        (w + s).subrange(a + w.len(), b + w.len()) == s.subrange(a, b),
{
    assert((w + s).subrange(a + w.len(), b + w.len()) =~= s.subrange(a, b));
}

proof fn lemma_skip_ws_shift(w: Seq<u8>, s: Seq<u8>, i: int)
    requires
        0 <= i,
    ensures
        skip_ws(w + s, i + w.len()) == skip_ws(s, i) + w.len(),
    decreases s.len() - i,
{
    lemma_byte(w, s, i);
    if i < s.len() && is_ws(s[i]) {
        lemma_skip_ws_shift(w, s, i + 1);
    }
}

proof fn lemma_line_end_shift(w: Seq<u8>, s: Seq<u8>, i: int)
    requires
        0 <= i,
    ensures
        line_end(w + s, i + w.len()) == line_end(s, i) + w.len(),
    decreases s.len() - i,
{
    lemma_byte(w, s, i);
    if i < s.len() && s[i] != 0x0a {
        lemma_line_end_shift(w, s, i + 1);
    }
}

proof fn lemma_block_end_shift(w: Seq<u8>, s: Seq<u8>, i: int)
    requires
        0 <= i,
    ensures
        block_end(w + s, i + w.len()) == shifted(block_end(s, i), w.len() as int),
    decreases s.len() - i,
{
    lemma_byte(w, s, i);
    lemma_byte(w, s, i + 1);
    if !(byte_at(s, i) == 0x2a && byte_at(s, i + 1) == 0x2f) && i + 3 <= s.len() {
        lemma_block_end_shift(w, s, i + 1);
    }
}

proof fn lemma_skip_comment_shift(w: Seq<u8>, s: Seq<u8>, i: int)
    requires
        0 <= i,
    ensures
        skip_comment(w + s, i + w.len()) == shifted(skip_comment(s, i), w.len() as int),
{
    lemma_byte(w, s, i);
    lemma_byte(w, s, i + 1);
    lemma_line_end_shift(w, s, i + 2);
    lemma_block_end_shift(w, s, i + 2);
}

proof fn lemma_comment_loop_shift(w: Seq<u8>, s: Seq<u8>, i: int)
    requires
        0 <= i,
    ensures
        comment_loop(w + s, i + w.len()) == shifted_pos(comment_loop(s, i), w.len() as int),
    decreases s.len() - i,
{
    let t = w + s;
    let n = w.len() as int;
    lemma_skip_comment_shift(w, s, i);
    if i <= s.len() {
        lemma_skip_comment(s, i);
        if let Ok((found, k)) = skip_comment(s, i) {
            lemma_skip_ws(s, k);
            lemma_skip_ws_shift(w, s, k);
            if found {
                lemma_comment_loop_shift(w, s, skip_ws(s, k));
            }
        }
    }
}

proof fn lemma_garbage_shift(w: Seq<u8>, s: Seq<u8>, i: int, strategy: JsonParse)
    requires
        0 <= i,
    ensures
        skip_garbage(w + s, i + w.len(), strategy) == shifted_pos(
            skip_garbage(s, i, strategy),
            w.len() as int,
        ),
{
    lemma_skip_ws_shift(w, s, i);
    if i <= s.len() {
        lemma_skip_ws(s, i);
        lemma_comment_loop_shift(w, s, skip_ws(s, i));
    }
}

proof fn lemma_token_shift(w: Seq<u8>, s: Seq<u8>, i: int, strategy: JsonParse)
    requires
        0 <= i,
    ensures
        next_token(w + s, i + w.len(), strategy) == shifted(
            next_token(s, i, strategy),
            w.len() as int,
        ),
{
    lemma_garbage_shift(w, s, i, strategy);
    if i <= s.len() {
        crate::grammar::lemma_skip_garbage(s, i, strategy);
        if let Ok(j) = skip_garbage(s, i, strategy) {
            lemma_byte(w, s, j);
        }
    }
}

proof fn lemma_string_shift(w: Seq<u8>, s: Seq<u8>, i: int, out: Seq<u8>, last: int)
    requires
        0 <= i,
    ensures
        string_body(w + s, i + w.len(), out, last) == shifted(
            string_body(s, i, out, last),
            w.len() as int,
        ),
    decreases s.len() - i,
{
    let t = w + s;
    let n = w.len() as int;
    if i < s.len() {
        lemma_byte(w, s, i);
        lemma_byte(w, s, i + 1);
        assert(t[i + n] == s[i]);
        let ch = s[i];
        let j = i + 2;
        let pending = crate::text::utf8_encoding(last as i64);
        if ch != 0x22 && ch > 0x1f {
            if ch != 0x5c {
                lemma_string_shift(w, s, i + 1, out + pending + seq![ch], -1);
            } else if i + 1 != s.len() {
                assert(t[i + 1 + n] == s[i + 1]);
                let e = s[i + 1];
                if e == 0x75 {
                    if j + 4 > s.len() {
                        lemma_sub(w, s, j, s.len() as int);
                    } else {
                        lemma_sub(w, s, j, j + 4);
                        if crate::grammar::all_hex(s.subrange(j, j + 4)) {
                            let cp = crate::text::hex4_value(s.subrange(j, j + 4));
                            lemma_string_shift(
                                w,
                                s,
                                j + 4,
                                out + crate::text::utf8_encoding(
                                    (((last - 0xD800) * 1024 + (cp - 0xDC00)) + 0x10000) as i64,
                                ),
                                -1,
                            );
                            lemma_string_shift(w, s, j + 4, out + pending, cp);
                        }
                    }
                } else {
                    lemma_string_shift(w, s, j, out + pending + seq![0x08u8], -1);
                    lemma_string_shift(w, s, j, out + pending + seq![0x0cu8], -1);
                    lemma_string_shift(w, s, j, out + pending + seq![0x0au8], -1);
                    lemma_string_shift(w, s, j, out + pending + seq![0x0du8], -1);
                    lemma_string_shift(w, s, j, out + pending + seq![0x09u8], -1);
                    lemma_string_shift(w, s, j, out + pending + seq![e], -1);
                }
            }
        }
    }
}

proof fn lemma_digits_shift(w: Seq<u8>, s: Seq<u8>, i: int)
    requires
        0 <= i,
    ensures
        digits_end(w + s, i + w.len()) == digits_end(s, i) + w.len(),
    decreases s.len() - i,
{
    lemma_byte(w, s, i);
    if i < s.len() && crate::text::is_digit(s[i]) {
        lemma_digits_shift(w, s, i + 1);
    }
}

proof fn lemma_exponent_shift(
    w: Seq<u8>,
    s: Seq<u8>,
    start: int,
    i: int,
    dec: spec_fn(Seq<u8>) -> u64,
)
    requires
        0 <= start <= i <= s.len(),
    ensures
        number_exponent(w + s, start + w.len(), i + w.len(), dec) == shifted(
            number_exponent(s, start, i, dec),
            w.len() as int,
        ),
{
    let n = w.len() as int;
    lemma_byte(w, s, i);
    lemma_byte(w, s, i + 1);
    lemma_byte(w, s, i + 2);
    let j = if byte_at(s, i + 1) == 0x2b || byte_at(s, i + 1) == 0x2d {
        i + 2
    } else {
        i + 1
    };
    lemma_digits_shift(w, s, j);
    crate::grammar::lemma_digits_end(s, j);
    lemma_sub(w, s, start, i);
    if byte_at(s, i) == 0x65 || byte_at(s, i) == 0x45 {
        if crate::text::is_digit(byte_at(s, j)) {
            lemma_sub(w, s, start, digits_end(s, j));
        }
    }
}

proof fn lemma_fraction_shift(
    w: Seq<u8>,
    s: Seq<u8>,
    start: int,
    i: int,
    dec: spec_fn(Seq<u8>) -> u64,
)
    requires
        0 <= start <= i <= s.len(),
    ensures
        number_fraction(w + s, start + w.len(), i + w.len(), dec) == shifted(
            number_fraction(s, start, i, dec),
            w.len() as int,
        ),
{
    lemma_byte(w, s, i);
    lemma_byte(w, s, i + 1);
    lemma_exponent_shift(w, s, start, i, dec);
    if byte_at(s, i) == 0x2e && crate::text::is_digit(byte_at(s, i + 1)) {
        lemma_digits_shift(w, s, i + 1);
        crate::grammar::lemma_digits_end(s, i + 1);
        lemma_exponent_shift(w, s, start, digits_end(s, i + 1), dec);
    }
}

proof fn lemma_number_shift(w: Seq<u8>, s: Seq<u8>, start: int, dec: spec_fn(Seq<u8>) -> u64)
    requires
        0 <= start <= s.len(),
    ensures
        parse_number(w + s, start + w.len(), dec) == shifted(
            parse_number(s, start, dec),
            w.len() as int,
        ),
{
    lemma_byte(w, s, start);
    let i = if byte_at(s, start) == 0x2d {
        start + 1
    } else {
        start
    };
    lemma_byte(w, s, i);
    lemma_byte(w, s, i + 1);
    if byte_at(s, i) == 0x30 {
        if !crate::text::is_digit(byte_at(s, i + 1)) {
            lemma_fraction_shift(w, s, start, i + 1, dec);
        }
    } else if 0x31 <= byte_at(s, i) <= 0x39 {
        lemma_digits_shift(w, s, i + 1);
        crate::grammar::lemma_digits_end(s, i + 1);
        lemma_fraction_shift(w, s, start, digits_end(s, i + 1), dec);
    }
}

proof fn lemma_literal_shift(
    w: Seq<u8>,
    s: Seq<u8>,
    i: int,
    lit: Seq<u8>,
    name: Seq<char>,
    v: JsonValue,
)
    requires
        1 <= i <= s.len(),
    ensures
        expect_literal(w + s, i + w.len(), lit, name, v) == shifted(
            expect_literal(s, i, lit, name, v),
            w.len() as int,
        ),
{
    let start = i - 1;
    let end = start + lit.len();
    if end <= s.len() {
        lemma_sub(w, s, start, end);
    } else {
        lemma_sub(w, s, start, s.len() as int);
    }
}

pub(crate) proof fn lemma_value_bounds(
    s: Seq<u8>,
    i: int,
    depth: int,
    strategy: JsonParse,
    dec: spec_fn(Seq<u8>) -> u64,
)
    ensures
        parse_value(s, i, depth, strategy, dec) matches Ok((_, q)) ==> i <= q <= s.len(),
    decreases s.len() - i, 0int,
{
    if 0 <= i <= s.len() {
        lemma_next_token(s, i, strategy);
        if let Ok((ch, j)) = next_token(s, i, strategy) {
            crate::grammar::lemma_parse_number(s, j - 1, dec);
            lemma_string_body(s, j, Seq::empty(), -1);
            if ch == 0x7b {
                lemma_object_bounds(s, j, depth, strategy, dec);
            } else if ch == 0x5b {
                lemma_array_bounds(s, j, depth, strategy, dec);
            }
        }
    }
}

proof fn lemma_object_bounds(
    s: Seq<u8>,
    j: int,
    depth: int,
    strategy: JsonParse,
    dec: spec_fn(Seq<u8>) -> u64,
)
    ensures
        object_after_brace(s, j, depth, strategy, dec) matches Ok((_, q)) ==> j <= q <= s.len(),
    decreases s.len() - j, 0int,
{
    if 0 <= j <= s.len() {
        lemma_next_token(s, j, strategy);
        if let Ok((c, k)) = next_token(s, j, strategy) {
            if c != 0x7d {
                lemma_members_bounds(s, c, k, depth, strategy, dec, Seq::empty());
            }
        }
    }
}

proof fn lemma_array_bounds(
    s: Seq<u8>,
    j: int,
    depth: int,
    strategy: JsonParse,
    dec: spec_fn(Seq<u8>) -> u64,
)
    ensures
        array_after_bracket(s, j, depth, strategy, dec) matches Ok((_, q)) ==> j <= q <= s.len(),
    decreases s.len() - j, 2int,
{
    if 0 <= j <= s.len() {
        lemma_next_token(s, j, strategy);
        if let Ok((c, k)) = next_token(s, j, strategy) {
            if c != 0x5d {
                lemma_items_bounds(s, k - 1, depth, strategy, dec, Seq::empty());
            }
        }
    }
}

proof fn lemma_items_bounds(
    s: Seq<u8>,
    p: int,
    depth: int,
    strategy: JsonParse,
    dec: spec_fn(Seq<u8>) -> u64,
    acc: Seq<JsonValue>,
)
    ensures
        array_items(s, p, depth, strategy, dec, acc) matches Ok((_, q)) ==> p <= q <= s.len(),
    decreases s.len() - p, 1int,
{
    if 0 <= p <= s.len() {
        lemma_value_bounds(s, p, depth + 1, strategy, dec);
        if let Ok((v, q)) = parse_value(s, p, depth + 1, strategy, dec) {
            if 0 <= q <= s.len() {
                lemma_next_token(s, q, strategy);
                if let Ok((c, r)) = next_token(s, q, strategy) {
                    lemma_next_token(s, r, strategy);
                    if let Ok((c2, r2)) = next_token(s, r, strategy) {
                        if r2 - 1 > p {
                            lemma_items_bounds(s, r2 - 1, depth, strategy, dec, acc.push(v));
                        }
                    }
                }
            }
        }
    }
}

proof fn lemma_members_bounds(
    s: Seq<u8>,
    c: u8,
    k: int,
    depth: int,
    strategy: JsonParse,
    dec: spec_fn(Seq<u8>) -> u64,
    acc: Seq<(Seq<u8>, JsonValue)>,
)
    ensures
        object_members(s, c, k, depth, strategy, dec, acc) matches Ok((_, q)) ==> k <= q <= s.len(),
    decreases s.len() - k, 0int,
{
    if c == 0x22 && 0 <= k <= s.len() {
        lemma_string_body(s, k, Seq::empty(), -1);
        if let Ok((key, e1)) = parse_string(s, k) {
            lemma_next_token(s, e1, strategy);
            if let Ok((c1, e2)) = next_token(s, e1, strategy) {
                lemma_value_bounds(s, e2, depth + 1, strategy, dec);
                if let Ok((v, q)) = parse_value(s, e2, depth + 1, strategy, dec) {
                    let entries = crate::value::object_insert(acc, key, v);
                    if 0 <= q <= s.len() {
                        lemma_next_token(s, q, strategy);
                        if let Ok((c3, r)) = next_token(s, q, strategy) {
                            lemma_next_token(s, r, strategy);
                            if let Ok((c4, r2)) = next_token(s, r, strategy) {
                                if r2 > k {
                                    lemma_members_bounds(s, c4, r2, depth, strategy, dec, entries);
                                }
                            }
                        }
                    }
                }
            }
        }
    }
}

#[verifier::spinoff_prover]
#[verifier::rlimit(80)]
proof fn lemma_value_shift(
    w: Seq<u8>,
    s: Seq<u8>,
    i: int,
    depth: int,
    strategy: JsonParse,
    dec: spec_fn(Seq<u8>) -> u64,
)
    requires
        0 <= i,
    ensures
        parse_value(w + s, i + w.len(), depth, strategy, dec) == shifted(
            parse_value(s, i, depth, strategy, dec),
            w.len() as int,
        ),
    decreases s.len() - i, 0int,
{
    if i <= s.len() {
        lemma_token_shift(w, s, i, strategy);
        lemma_next_token(s, i, strategy);
        if let Ok((ch, j)) = next_token(s, i, strategy) {
            lemma_number_shift(w, s, j - 1, dec);
            lemma_literal_shift(w, s, j, crate::grammar::literal_bytes("true"@), "true"@, JsonValue::Bool(true));
            lemma_literal_shift(w, s, j, crate::grammar::literal_bytes("false"@), "false"@, JsonValue::Bool(false));
            lemma_literal_shift(w, s, j, crate::grammar::literal_bytes("null"@), "null"@, JsonValue::Null);
            lemma_string_shift(w, s, j, Seq::empty(), -1);
            if ch == 0x7b {
                lemma_object_shift(w, s, j, depth, strategy, dec);
            } else if ch == 0x5b {
                lemma_array_shift(w, s, j, depth, strategy, dec);
            }
        }
    }
}

proof fn lemma_object_shift(
    w: Seq<u8>,
    s: Seq<u8>,
    j: int,
    depth: int,
    strategy: JsonParse,
    dec: spec_fn(Seq<u8>) -> u64,
)
    requires
        0 <= j,
    ensures
        object_after_brace(w + s, j + w.len(), depth, strategy, dec) == shifted(
            object_after_brace(s, j, depth, strategy, dec),
            w.len() as int,
        ),
    decreases s.len() - j, 0int,
{
    if j <= s.len() {
        lemma_token_shift(w, s, j, strategy);
        lemma_next_token(s, j, strategy);
        if let Ok((c, k)) = next_token(s, j, strategy) {
            if c != 0x7d {
                lemma_members_shift(w, s, c, k, depth, strategy, dec, Seq::empty());
            }
        }
    }
}

proof fn lemma_array_shift(
    w: Seq<u8>,
    s: Seq<u8>,
    j: int,
    depth: int,
    strategy: JsonParse,
    dec: spec_fn(Seq<u8>) -> u64,
)
    requires
        0 <= j,
    ensures
        array_after_bracket(w + s, j + w.len(), depth, strategy, dec) == shifted(
            array_after_bracket(s, j, depth, strategy, dec),
            w.len() as int,
        ),
    decreases s.len() - j, 2int,
{
    if j <= s.len() {
        lemma_token_shift(w, s, j, strategy);
        lemma_next_token(s, j, strategy);
        if let Ok((c, k)) = next_token(s, j, strategy) {
            if c != 0x5d {
                lemma_items_shift(w, s, k - 1, depth, strategy, dec, Seq::empty());
            }
        }
    }
}

#[verifier::spinoff_prover]
#[verifier::rlimit(80)]
proof fn lemma_items_shift(
    w: Seq<u8>,
    s: Seq<u8>,
    p: int,
    depth: int,
    strategy: JsonParse,
    dec: spec_fn(Seq<u8>) -> u64,
    acc: Seq<JsonValue>,
)
    requires
        0 <= p,
    ensures
        array_items(w + s, p + w.len(), depth, strategy, dec, acc) == shifted(
            array_items(s, p, depth, strategy, dec, acc),
            w.len() as int,
        ),
    decreases s.len() - p, 1int,
{
    if p <= s.len() {
        lemma_value_shift(w, s, p, depth + 1, strategy, dec);
        lemma_value_bounds(s, p, depth + 1, strategy, dec);
        if let Ok((v, q)) = parse_value(s, p, depth + 1, strategy, dec) {
            if 0 <= q <= s.len() {
                lemma_token_shift(w, s, q, strategy);
                lemma_next_token(s, q, strategy);
                if let Ok((c, r)) = next_token(s, q, strategy) {
                    lemma_token_shift(w, s, r, strategy);
                    lemma_next_token(s, r, strategy);
                    if let Ok((c2, r2)) = next_token(s, r, strategy) {
                        if r2 - 1 > p {
                            lemma_items_shift(w, s, r2 - 1, depth, strategy, dec, acc.push(v));
                        }
                    }
                }
            }
        }
    }
}

#[verifier::spinoff_prover]
#[verifier::rlimit(80)]
proof fn lemma_members_shift(
    w: Seq<u8>,
    s: Seq<u8>,
    c: u8,
    k: int,
    depth: int,
    strategy: JsonParse,
    dec: spec_fn(Seq<u8>) -> u64,
    acc: Seq<(Seq<u8>, JsonValue)>,
)
    requires
        0 <= k,
    ensures
        object_members(w + s, c, k + w.len(), depth, strategy, dec, acc) == shifted(
            object_members(s, c, k, depth, strategy, dec, acc),
            w.len() as int,
        ),
    decreases s.len() - k, 0int,
{
    if c == 0x22 && k <= s.len() {
        lemma_string_shift(w, s, k, Seq::empty(), -1);
        lemma_string_body(s, k, Seq::empty(), -1);
        if let Ok((key, e1)) = parse_string(s, k) {
            lemma_token_shift(w, s, e1, strategy);
            lemma_next_token(s, e1, strategy);
            if let Ok((c1, e2)) = next_token(s, e1, strategy) {
                lemma_value_shift(w, s, e2, depth + 1, strategy, dec);
                lemma_value_bounds(s, e2, depth + 1, strategy, dec);
                if let Ok((v, q)) = parse_value(s, e2, depth + 1, strategy, dec) {
                    let entries = crate::value::object_insert(acc, key, v);
                    if 0 <= q <= s.len() {
                        lemma_token_shift(w, s, q, strategy);
                        lemma_next_token(s, q, strategy);
                        if let Ok((c3, r)) = next_token(s, q, strategy) {
                            lemma_token_shift(w, s, r, strategy);
                            lemma_next_token(s, r, strategy);
                            if let Ok((c4, r2)) = next_token(s, r, strategy) {
                                if r2 > k {
                                    lemma_members_shift(w, s, c4, r2, depth, strategy, dec, entries);
                                }
                            }
                        }
                    }
                }
            }
        }
    }
}

proof fn lemma_skip_ws_over(t: Seq<u8>, a: int, b: int)
    requires
        0 <= a <= b <= t.len(),
        forall|k: int| a <= k < b ==> is_ws(#[trigger] t[k]),
    ensures
        skip_ws(t, a) == skip_ws(t, b),
    decreases b - a,
{
    if a < b {
        lemma_skip_ws_over(t, a + 1, b);
    }
}

/// Whitespace before a document does not change what it parses to.
pub proof fn law_leading_whitespace(
    w: Seq<u8>,
    s: Seq<u8>,
    strategy: JsonParse,
    dec: spec_fn(Seq<u8>) -> u64,
)
    requires
        all_ws(w),
    ensures
        parse_document(w + s, strategy, dec) == parse_document(s, strategy, dec),
{
    let t = w + s;
    let n = w.len() as int;
    assert forall|k: int| 0 <= k < n implies is_ws(#[trigger] t[k]) by {
        assert(t[k] == w[k]);
    }
    lemma_skip_ws_over(t, 0, n);
    assert(next_token(t, 0, strategy) == next_token(t, n, strategy));
    assert(parse_value(t, 0, 0, strategy, dec) == parse_value(t, n, 0, strategy, dec));
    lemma_value_shift(w, s, 0, 0, strategy, dec);
    lemma_value_bounds(s, 0, 0, strategy, dec);
    if let Ok((v, q)) = parse_value(s, 0, 0, strategy, dec) {
        lemma_garbage_shift(w, s, q, strategy);
        crate::grammar::lemma_skip_garbage(s, q, strategy);
        if let Ok(j) = skip_garbage(s, q, strategy) {
            lemma_byte(w, s, j);
        }
    }
}

} // verus!

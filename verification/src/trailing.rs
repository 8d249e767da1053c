//! Whitespace after a document does not change whether, or to what, it
//! parses.
//!
//! Past the end of `s` the parser sees the byte 0; in `s + w` it sees the
//! whitespace of `w`. Neither can continue a token, so a reading that
//! succeeds in one input succeeds in the other with the same result.
use vstd::prelude::*;
use crate::grammar::{
    all_hex,
    array_after_bracket,
    array_items,
    block_end,
    byte_at,
    comment_loop,
    digits_end,
    expect_literal,
    is_ws,
    lemma_block_end,
    lemma_comment_loop,
    lemma_digits_end,
    lemma_line_end,
    lemma_next_token,
    lemma_skip_comment,
    lemma_skip_ws,
    lemma_string_body,
    line_end,
    next_token,
    number_exponent,
    number_fraction,
    object_after_brace,
    object_members,
    parse_document,
    parse_number,
    parse_string,
    parse_value,
    skip_comment,
    skip_garbage,
    skip_ws,
    string_body,
};
use crate::text::{is_digit, spec_is_hex};
use crate::value::{JsonParse, JsonValue};
use crate::whitespace::all_ws;

verus! {

/// Whitespace or the byte 0 that the parser sees past the end.
pub open spec fn blank(c: u8) -> bool {
    is_ws(c) || c == 0
}

proof fn lemma_inside(s: Seq<u8>, w: Seq<u8>, x: int)
    requires
        0 <= x < s.len(),
    ensures
        byte_at(s + w, x) == byte_at(s, x),
{
    assert((s + w)[x] == s[x]);
}

proof fn lemma_outside(s: Seq<u8>, w: Seq<u8>, x: int)
    requires
        all_ws(w),
        x >= s.len(),
    ensures
        byte_at(s, x) == 0,
        blank(byte_at(s + w, x)),
{
    if x < s.len() + w.len() {
        assert((s + w)[x] == w[x - s.len()]);
    }
}

proof fn lemma_sub_inside(s: Seq<u8>, w: Seq<u8>, a: int, b: int)
    requires
        0 <= a <= b <= s.len(),
    ensures
        (s + w).subrange(a, b) == s.subrange(a, b),
{
    assert((s + w).subrange(a, b) =~= s.subrange(a, b));
}

/// Past the end of `s`, whitespace skipping in `s + w` runs to its end.
proof fn lemma_ws_tail(s: Seq<u8>, w: Seq<u8>, y: int)
    requires
        all_ws(w),
        s.len() <= y <= s.len() + w.len(),
    ensures
        skip_ws(s + w, y) == s.len() + w.len(),
    decreases s.len() + w.len() - y,
{
    if y < s.len() + w.len() {
        assert((s + w)[y] == w[y - s.len()]);
        lemma_ws_tail(s, w, y + 1);
    }
}

proof fn lemma_ws(s: Seq<u8>, w: Seq<u8>, i: int)
    requires
        all_ws(w),
        0 <= i <= s.len(),
    ensures
        skip_ws(s + w, i) == if skip_ws(s, i) < s.len() {
            skip_ws(s, i)
        } else {
            (s.len() + w.len()) as int
        },
    decreases s.len() - i,
{
    if i == s.len() {
        lemma_ws_tail(s, w, i);
    } else {
        lemma_inside(s, w, i);
        if is_ws(s[i]) {
            lemma_ws(s, w, i + 1);
        }
    }
}

proof fn lemma_line(s: Seq<u8>, w: Seq<u8>, i: int)
    requires
        all_ws(w),
        0 <= i <= s.len(),
    ensures
        line_end(s, i) < s.len() ==> line_end(s + w, i) == line_end(s, i),
        line_end(s, i) >= s.len() ==> s.len() <= line_end(s + w, i) <= s.len() + w.len(),
    decreases s.len() - i,
{
    if i == s.len() {
        lemma_line_end(s + w, i);
    } else {
        lemma_inside(s, w, i);
        if s[i] != 0x0a {
            lemma_line(s, w, i + 1);
        }
    }
}

proof fn lemma_block_grow(s: Seq<u8>, w: Seq<u8>, i: int)
    requires
        all_ws(w),
        0 <= i,
        block_end(s, i) is Ok,
    ensures
        block_end(s + w, i) == block_end(s, i),
    decreases s.len() - i,
{
    if i < s.len() {
        lemma_inside(s, w, i);
    } else {
        lemma_outside(s, w, i);
    }
    if i + 1 < s.len() {
        lemma_inside(s, w, i + 1);
    } else {
        lemma_outside(s, w, i + 1);
    }
    if !(byte_at(s, i) == 0x2a && byte_at(s, i + 1) == 0x2f) {
        lemma_block_grow(s, w, i + 1);
    }
}

proof fn lemma_block_shrink(s: Seq<u8>, w: Seq<u8>, i: int)
    requires
        all_ws(w),
        0 <= i,
        block_end(s + w, i) is Ok,
    ensures
        block_end(s, i) == block_end(s + w, i),
        block_end(s, i) matches Ok((_, k)) && i + 2 <= k <= s.len(),
    decreases s.len() + w.len() - i,
{
    let u = s + w;
    if i < s.len() {
        lemma_inside(s, w, i);
    } else {
        lemma_outside(s, w, i);
    }
    if i + 1 < s.len() {
        lemma_inside(s, w, i + 1);
    } else {
        lemma_outside(s, w, i + 1);
    }
    if !(byte_at(u, i) == 0x2a && byte_at(u, i + 1) == 0x2f) {
        lemma_block_shrink(s, w, i + 1);
    }
}

/// A run of comments and whitespace that ends inside `s` ends there in `s + w` too.
proof fn lemma_comments_grow(s: Seq<u8>, w: Seq<u8>, i: int)
    requires
        all_ws(w),
        0 <= i <= s.len(),
        comment_loop(s, i) matches Ok(j) && j < s.len(),
    ensures
        comment_loop(s + w, i) == comment_loop(s, i),
    decreases s.len() - i,
{
    let u = s + w;
    lemma_skip_comment(s, i);
    lemma_comment_loop(s, i);
    lemma_inside(s, w, i);
    if i + 1 < s.len() {
        lemma_inside(s, w, i + 1);
    }
    if let Ok((found, k)) = skip_comment(s, i) {
        lemma_skip_ws(s, k);
        if found {
            lemma_comment_loop(s, skip_ws(s, k));
            if byte_at(s, i + 1) == 0x2f {
                lemma_line(s, w, i + 2);
            } else {
                lemma_block_grow(s, w, i + 2);
            }
            assert(skip_comment(u, i) == skip_comment(s, i));
            lemma_ws(s, w, k);
            assert(skip_ws(u, k) == skip_ws(s, k));
            lemma_comments_grow(s, w, skip_ws(s, k));
        } else {
            if i + 4 <= s.len() {
                lemma_block_end(s, i + 2);
            }
            assert(skip_comment(u, i) == skip_comment(s, i));
            lemma_ws(s, w, k);
        }
    }
}

/// Where a comment loop stops: at the end or at a byte that is not whitespace.
proof fn lemma_comments_stop(s: Seq<u8>, i: int)
    requires
        0 <= i <= s.len(),
    ensures
        comment_loop(s, i) matches Ok(j) ==> j == s.len() || (0 <= j < s.len() && !is_ws(s[j])),
    decreases s.len() - i,
{
    lemma_skip_comment(s, i);
    if let Ok((found, k)) = skip_comment(s, i) {
        lemma_skip_ws(s, k);
        if found {
            lemma_comments_stop(s, skip_ws(s, k));
        }
    }
}

/// A run of comments and whitespace in `s + w` that ends inside `s` ends
/// there in `s` too.
proof fn lemma_comments_shrink(s: Seq<u8>, w: Seq<u8>, i: int)
    requires
        all_ws(w),
        0 <= i <= s.len(),
        comment_loop(s + w, i) matches Ok(j) && j < s.len(),
    ensures
        comment_loop(s, i) == comment_loop(s + w, i),
    decreases s.len() - i,
{
    let u = s + w;
    lemma_skip_comment(u, i);
    lemma_comment_loop(u, i);
    if i < s.len() {
        lemma_inside(s, w, i);
    }
    if i + 1 < s.len() {
        lemma_inside(s, w, i + 1);
    } else {
        lemma_outside(s, w, i + 1);
    }
    if let Ok((found, k)) = skip_comment(u, i) {
        lemma_skip_ws(u, k);
        if found {
            lemma_comment_loop(u, skip_ws(u, k));
            if byte_at(u, i + 1) == 0x2f {
                lemma_line(s, w, i + 2);
            } else {
                lemma_block_shrink(s, w, i + 2);
            }
            assert(skip_comment(u, i) == skip_comment(s, i));
            lemma_ws(s, w, k);
            assert(skip_ws(u, k) == skip_ws(s, k));
            lemma_comments_shrink(s, w, skip_ws(u, k));
        } else {
            if i + 4 <= u.len() {
                lemma_block_end(u, i + 2);
            }
            lemma_inside(s, w, i);
            assert(skip_comment(u, i) == skip_comment(s, i));
            lemma_ws(s, w, k);
        }
    }
}

proof fn lemma_token_grow(s: Seq<u8>, w: Seq<u8>, i: int, strategy: JsonParse)
    requires
        all_ws(w),
        0 <= i <= s.len(),
        next_token(s, i, strategy) is Ok,
    ensures
        next_token(s + w, i, strategy) == next_token(s, i, strategy),
{
    lemma_skip_ws(s, i);
    lemma_ws(s, w, i);
    let p = skip_ws(s, i);
    if strategy == JsonParse::Comments {
        lemma_comment_loop(s, p);
        lemma_comments_grow(s, w, p);
    }
    let j = skip_garbage(s, i, strategy)->Ok_0;
    lemma_inside(s, w, j);
}

proof fn lemma_token_shrink(s: Seq<u8>, w: Seq<u8>, i: int, strategy: JsonParse)
    requires
        all_ws(w),
        0 <= i <= s.len(),
        next_token(s + w, i, strategy) is Ok,
    ensures
        next_token(s, i, strategy) == next_token(s + w, i, strategy),
{
    let u = s + w;
    lemma_skip_ws(u, i);
    lemma_ws(s, w, i);
    let p = skip_ws(u, i);
    if strategy == JsonParse::Comments {
        lemma_comment_loop(u, p);
        lemma_comments_stop(u, p);
    }
    let j = skip_garbage(u, i, strategy)->Ok_0;
    if j >= s.len() {
        lemma_outside(s, w, j);
    }
    if strategy == JsonParse::Comments {
        lemma_comments_shrink(s, w, p);
    }
    lemma_inside(s, w, j);
}

proof fn lemma_string_grow(s: Seq<u8>, w: Seq<u8>, i: int, out: Seq<u8>, last: int)
    requires
        all_ws(w),
        0 <= i,
    ensures
        string_body(s, i, out, last) is Ok ==> string_body(s + w, i, out, last) == string_body(
            s,
            i,
            out,
            last,
        ),
    decreases s.len() - i,
{
    if string_body(s, i, out, last) is Ok {
        lemma_inside(s, w, i);
        let ch = s[i];
        let j = i + 2;
        let pending = crate::text::utf8_encoding(last as i64);
        if ch != 0x22 && ch > 0x1f {
            if ch != 0x5c {
                lemma_string_grow(s, w, i + 1, out + pending + seq![ch], -1);
            } else {
                lemma_inside(s, w, i + 1);
                let e = s[i + 1];
                if e == 0x75 {
                    lemma_sub_inside(s, w, j, j + 4);
                    let cp = crate::text::hex4_value(s.subrange(j, j + 4));
                    lemma_string_grow(
                        s,
                        w,
                        j + 4,
                        out + crate::text::utf8_encoding(
                            (((last - 0xD800) * 1024 + (cp - 0xDC00)) + 0x10000) as i64,
                        ),
                        -1,
                    );
                    lemma_string_grow(s, w, j + 4, out + pending, cp);
                } else {
                    lemma_string_grow(s, w, j, out + pending + seq![0x08u8], -1);
                    lemma_string_grow(s, w, j, out + pending + seq![0x0cu8], -1);
                    lemma_string_grow(s, w, j, out + pending + seq![0x0au8], -1);
                    lemma_string_grow(s, w, j, out + pending + seq![0x0du8], -1);
                    lemma_string_grow(s, w, j, out + pending + seq![0x09u8], -1);
                    lemma_string_grow(s, w, j, out + pending + seq![e], -1);
                }
            }
        }
    }
}

proof fn lemma_string_shrink(s: Seq<u8>, w: Seq<u8>, i: int, out: Seq<u8>, last: int)
    requires
        all_ws(w),
        0 <= i,
    ensures
        string_body(s + w, i, out, last) matches Ok((_, k)) ==> k <= s.len() && string_body(
            s,
            i,
            out,
            last,
        ) == string_body(s + w, i, out, last),
    decreases s.len() + w.len() - i,
{
    let u = s + w;
    if string_body(u, i, out, last) is Ok {
        let ch = u[i];
        let j = i + 2;
        let pending = crate::text::utf8_encoding(last as i64);
        if i >= s.len() {
            lemma_outside(s, w, i);
            lemma_string_shrink(s, w, i + 1, out + pending + seq![ch], -1);
            lemma_string_body(u, i + 1, out + pending + seq![ch], -1);
        } else {
            lemma_inside(s, w, i);
            if ch != 0x22 && ch > 0x1f {
                if ch != 0x5c {
                    lemma_string_shrink(s, w, i + 1, out + pending + seq![ch], -1);
                } else {
                    if i + 1 >= s.len() {
                        lemma_outside(s, w, i + 1);
                    } else {
                        lemma_inside(s, w, i + 1);
                    }
                    let e = u[i + 1];
                    if e == 0x75 {
                        assert(u.subrange(j, j + 4)[3] == u[j + 3]);
                        if j + 3 >= s.len() {
                            lemma_outside(s, w, j + 3);
                        }
                        lemma_sub_inside(s, w, j, j + 4);
                        let cp = crate::text::hex4_value(s.subrange(j, j + 4));
                        lemma_string_shrink(
                            s,
                            w,
                            j + 4,
                            out + crate::text::utf8_encoding(
                                (((last - 0xD800) * 1024 + (cp - 0xDC00)) + 0x10000) as i64,
                            ),
                            -1,
                        );
                        lemma_string_shrink(s, w, j + 4, out + pending, cp);
                    } else {
                        lemma_string_shrink(s, w, j, out + pending + seq![0x08u8], -1);
                        lemma_string_shrink(s, w, j, out + pending + seq![0x0cu8], -1);
                        lemma_string_shrink(s, w, j, out + pending + seq![0x0au8], -1);
                        lemma_string_shrink(s, w, j, out + pending + seq![0x0du8], -1);
                        lemma_string_shrink(s, w, j, out + pending + seq![0x09u8], -1);
                        lemma_string_shrink(s, w, j, out + pending + seq![e], -1);
                    }
                }
            }
        }
    }
}

/// Past the end of `s`, `s + w` holds a blank byte where `s` reads 0.
proof fn lemma_similar(s: Seq<u8>, w: Seq<u8>, x: int)
    requires
        all_ws(w),
        0 <= x,
    ensures
        byte_at(s + w, x) == byte_at(s, x) || (blank(byte_at(s + w, x)) && byte_at(s, x) == 0),
{
    if x < s.len() {
        lemma_inside(s, w, x);
    } else {
        lemma_outside(s, w, x);
    }
}

proof fn lemma_digits_same(s: Seq<u8>, w: Seq<u8>, i: int)
    requires
        all_ws(w),
        0 <= i <= s.len(),
    ensures
        digits_end(s + w, i) == digits_end(s, i),
    decreases s.len() - i,
{
    lemma_similar(s, w, i);
    if i < s.len() && is_digit(s[i]) {
        lemma_digits_same(s, w, i + 1);
    }
}

proof fn lemma_exponent_same(s: Seq<u8>, w: Seq<u8>, start: int, i: int, dec: spec_fn(Seq<u8>) -> u64)
    requires
        all_ws(w),
        0 <= start <= i <= s.len(),
    ensures
        number_exponent(s + w, start, i, dec) is Ok || number_exponent(s, start, i, dec) is Ok
            ==> number_exponent(s + w, start, i, dec) == number_exponent(s, start, i, dec),
{
    lemma_similar(s, w, i);
    lemma_similar(s, w, i + 1);
    lemma_similar(s, w, i + 2);
    lemma_sub_inside(s, w, start, i);
    if byte_at(s, i) == 0x65 || byte_at(s, i) == 0x45 {
        let j = if byte_at(s, i + 1) == 0x2b || byte_at(s, i + 1) == 0x2d {
            i + 2
        } else {
            i + 1
        };
        lemma_similar(s, w, j);
        if is_digit(byte_at(s, j)) {
            lemma_digits_same(s, w, j);
            lemma_digits_end(s, j);
            lemma_sub_inside(s, w, start, digits_end(s, j));
        }
    }
}

proof fn lemma_fraction_same(s: Seq<u8>, w: Seq<u8>, start: int, i: int, dec: spec_fn(Seq<u8>) -> u64)
    requires
        all_ws(w),
        0 <= start <= i <= s.len(),
    ensures
        number_fraction(s + w, start, i, dec) is Ok || number_fraction(s, start, i, dec) is Ok
            ==> number_fraction(s + w, start, i, dec) == number_fraction(s, start, i, dec),
{
    lemma_similar(s, w, i);
    lemma_similar(s, w, i + 1);
    lemma_exponent_same(s, w, start, i, dec);
    if byte_at(s, i) == 0x2e && is_digit(byte_at(s, i + 1)) {
        lemma_digits_same(s, w, i + 1);
        lemma_digits_end(s, i + 1);
        lemma_exponent_same(s, w, start, digits_end(s, i + 1), dec);
    }
}

proof fn lemma_number_same(s: Seq<u8>, w: Seq<u8>, start: int, dec: spec_fn(Seq<u8>) -> u64)
    requires
        all_ws(w),
        0 <= start <= s.len(),
    ensures
        parse_number(s + w, start, dec) is Ok || parse_number(s, start, dec) is Ok ==> parse_number(
            s + w,
            start,
            dec,
        ) == parse_number(s, start, dec),
{
    lemma_similar(s, w, start);
    let i = if byte_at(s, start) == 0x2d {
        start + 1
    } else {
        start
    };
    lemma_similar(s, w, i);
    lemma_similar(s, w, i + 1);
    if byte_at(s, i) == 0x30 {
        if !is_digit(byte_at(s, i + 1)) {
            lemma_fraction_same(s, w, start, i + 1, dec);
        }
    } else if 0x31 <= byte_at(s, i) <= 0x39 {
        lemma_digits_same(s, w, i + 1);
        lemma_digits_end(s, i + 1);
        lemma_fraction_same(s, w, start, digits_end(s, i + 1), dec);
    }
}

proof fn lemma_literal_same(
    s: Seq<u8>,
    w: Seq<u8>,
    i: int,
    lit: Seq<u8>,
    name: Seq<char>,
    v: JsonValue,
)
    requires
        all_ws(w),
        1 <= i <= s.len(),
        lit.len() > 0,
        !blank(lit[lit.len() - 1]),
    ensures
        expect_literal(s + w, i, lit, name, v) is Ok || expect_literal(s, i, lit, name, v) is Ok
            ==> expect_literal(s + w, i, lit, name, v) == expect_literal(s, i, lit, name, v),
{
    let u = s + w;
    let start = i - 1;
    let end = start + lit.len();
    if end <= s.len() {
        lemma_sub_inside(s, w, start, end);
    } else if end <= u.len() {
        lemma_outside(s, w, end - 1);
        assert(u.subrange(start, end)[lit.len() - 1] == u[end - 1]);
    }
}

proof fn lemma_literals_blank_free()
    ensures
        crate::grammar::literal_bytes("true"@).len() > 0,
        !blank(crate::grammar::literal_bytes("true"@).last()),
        crate::grammar::literal_bytes("false"@).len() > 0,
        !blank(crate::grammar::literal_bytes("false"@).last()),
        crate::grammar::literal_bytes("null"@).len() > 0,
        !blank(crate::grammar::literal_bytes("null"@).last()),
{
    crate::roundtrip::lemma_literal_texts();
}

proof fn lemma_value_grow(
    s: Seq<u8>,
    w: Seq<u8>,
    i: int,
    depth: int,
    strategy: JsonParse,
    dec: spec_fn(Seq<u8>) -> u64,
)
    requires
        all_ws(w),
        0 <= i <= s.len(),
    ensures
        parse_value(s, i, depth, strategy, dec) is Ok ==> parse_value(s + w, i, depth, strategy, dec)
            == parse_value(s, i, depth, strategy, dec),
    decreases s.len() - i, 0int,
{
    if parse_value(s, i, depth, strategy, dec) is Ok {
        lemma_token_grow(s, w, i, strategy);
        lemma_next_token(s, i, strategy);
        let (ch, j) = next_token(s, i, strategy)->Ok_0;
        lemma_number_same(s, w, j - 1, dec);
        lemma_literals_blank_free();
        lemma_literal_same(s, w, j, crate::grammar::literal_bytes("true"@), "true"@, JsonValue::Bool(true));
        lemma_literal_same(s, w, j, crate::grammar::literal_bytes("false"@), "false"@, JsonValue::Bool(false));
        lemma_literal_same(s, w, j, crate::grammar::literal_bytes("null"@), "null"@, JsonValue::Null);
        lemma_string_grow(s, w, j, Seq::empty(), -1);
        if ch == 0x7b {
            lemma_object_grow(s, w, j, depth, strategy, dec);
        } else if ch == 0x5b {
            lemma_array_grow(s, w, j, depth, strategy, dec);
        }
    }
}

proof fn lemma_object_grow(
    s: Seq<u8>,
    w: Seq<u8>,
    j: int,
    depth: int,
    strategy: JsonParse,
    dec: spec_fn(Seq<u8>) -> u64,
)
    requires
        all_ws(w),
        0 <= j <= s.len(),
    ensures
        object_after_brace(s, j, depth, strategy, dec) is Ok ==> object_after_brace(
            s + w,
            j,
            depth,
            strategy,
            dec,
        ) == object_after_brace(s, j, depth, strategy, dec),
    decreases s.len() - j, 0int,
{
    if object_after_brace(s, j, depth, strategy, dec) is Ok {
        lemma_token_grow(s, w, j, strategy);
        lemma_next_token(s, j, strategy);
        let (c, k) = next_token(s, j, strategy)->Ok_0;
        if c != 0x7d {
            lemma_members_grow(s, w, c, k, depth, strategy, dec, Seq::empty());
        }
    }
}

proof fn lemma_array_grow(
    s: Seq<u8>,
    w: Seq<u8>,
    j: int,
    depth: int,
    strategy: JsonParse,
    dec: spec_fn(Seq<u8>) -> u64,
)
    requires
        all_ws(w),
        0 <= j <= s.len(),
    ensures
        array_after_bracket(s, j, depth, strategy, dec) is Ok ==> array_after_bracket(
            s + w,
            j,
            depth,
            strategy,
            dec,
        ) == array_after_bracket(s, j, depth, strategy, dec),
    decreases s.len() - j, 2int,
{
    if array_after_bracket(s, j, depth, strategy, dec) is Ok {
        lemma_token_grow(s, w, j, strategy);
        lemma_next_token(s, j, strategy);
        let (c, k) = next_token(s, j, strategy)->Ok_0;
        if c != 0x5d {
            lemma_items_grow(s, w, k - 1, depth, strategy, dec, Seq::empty());
        }
    }
}

#[verifier::spinoff_prover]
#[verifier::rlimit(80)]
proof fn lemma_items_grow(
    s: Seq<u8>,
    w: Seq<u8>,
    p: int,
    depth: int,
    strategy: JsonParse,
    dec: spec_fn(Seq<u8>) -> u64,
    acc: Seq<JsonValue>,
)
    requires
        all_ws(w),
        0 <= p <= s.len(),
    ensures
        array_items(s, p, depth, strategy, dec, acc) is Ok ==> array_items(
            s + w,
            p,
            depth,
            strategy,
            dec,
            acc,
        ) == array_items(s, p, depth, strategy, dec, acc),
    decreases s.len() - p, 1int,
{
    if array_items(s, p, depth, strategy, dec, acc) is Ok {
        lemma_value_grow(s, w, p, depth + 1, strategy, dec);
        crate::whitespace::lemma_value_bounds(s, p, depth + 1, strategy, dec);
        let (v, q) = parse_value(s, p, depth + 1, strategy, dec)->Ok_0;
        lemma_token_grow(s, w, q, strategy);
        lemma_next_token(s, q, strategy);
        let (c, r) = next_token(s, q, strategy)->Ok_0;
        if c == 0x2c {
            lemma_token_grow(s, w, r, strategy);
            lemma_next_token(s, r, strategy);
            let (c2, r2) = next_token(s, r, strategy)->Ok_0;
            lemma_items_grow(s, w, r2 - 1, depth, strategy, dec, acc.push(v));
        }
    }
}

#[verifier::spinoff_prover]
#[verifier::rlimit(80)]
proof fn lemma_members_grow(
    s: Seq<u8>,
    w: Seq<u8>,
    c: u8,
    k: int,
    depth: int,
    strategy: JsonParse,
    dec: spec_fn(Seq<u8>) -> u64,
    acc: Seq<(Seq<u8>, JsonValue)>,
)
    requires
        all_ws(w),
        0 <= k <= s.len(),
    ensures
        object_members(s, c, k, depth, strategy, dec, acc) is Ok ==> object_members(
            s + w,
            c,
            k,
            depth,
            strategy,
            dec,
            acc,
        ) == object_members(s, c, k, depth, strategy, dec, acc),
    decreases s.len() - k, 0int,
{
    if object_members(s, c, k, depth, strategy, dec, acc) is Ok {
        lemma_string_grow(s, w, k, Seq::empty(), -1);
        lemma_string_body(s, k, Seq::empty(), -1);
        let (key, e1) = parse_string(s, k)->Ok_0;
        lemma_token_grow(s, w, e1, strategy);
        lemma_next_token(s, e1, strategy);
        let (c1, e2) = next_token(s, e1, strategy)->Ok_0;
        lemma_value_grow(s, w, e2, depth + 1, strategy, dec);
        crate::whitespace::lemma_value_bounds(s, e2, depth + 1, strategy, dec);
        let (v, q) = parse_value(s, e2, depth + 1, strategy, dec)->Ok_0;
        let entries = crate::value::object_insert(acc, key, v);
        lemma_token_grow(s, w, q, strategy);
        lemma_next_token(s, q, strategy);
        let (c3, r) = next_token(s, q, strategy)->Ok_0;
        if c3 == 0x2c {
            lemma_token_grow(s, w, r, strategy);
            lemma_next_token(s, r, strategy);
            let (c4, r2) = next_token(s, r, strategy)->Ok_0;
            lemma_members_grow(s, w, c4, r2, depth, strategy, dec, entries);
        }
    }
}

proof fn lemma_value_shrink(
    s: Seq<u8>,
    w: Seq<u8>,
    i: int,
    depth: int,
    strategy: JsonParse,
    dec: spec_fn(Seq<u8>) -> u64,
)
    requires
        all_ws(w),
        0 <= i <= s.len(),
    ensures
        parse_value(s + w, i, depth, strategy, dec) matches Ok((_, q)) ==> q <= s.len() && parse_value(
            s,
            i,
            depth,
            strategy,
            dec,
        ) == parse_value(s + w, i, depth, strategy, dec),
    decreases s.len() - i, 0int,
{
    let u = s + w;
    if parse_value(u, i, depth, strategy, dec) is Ok {
        lemma_token_shrink(s, w, i, strategy);
        lemma_next_token(s, i, strategy);
        let (ch, j) = next_token(s, i, strategy)->Ok_0;
        lemma_number_same(s, w, j - 1, dec);
        crate::grammar::lemma_parse_number(s, j - 1, dec);
        lemma_literals_blank_free();
        lemma_literal_same(s, w, j, crate::grammar::literal_bytes("true"@), "true"@, JsonValue::Bool(true));
        lemma_literal_same(s, w, j, crate::grammar::literal_bytes("false"@), "false"@, JsonValue::Bool(false));
        lemma_literal_same(s, w, j, crate::grammar::literal_bytes("null"@), "null"@, JsonValue::Null);
        lemma_string_shrink(s, w, j, Seq::empty(), -1);
        if ch == 0x7b {
            lemma_object_shrink(s, w, j, depth, strategy, dec);
        } else if ch == 0x5b {
            lemma_array_shrink(s, w, j, depth, strategy, dec);
        }
    }
}

proof fn lemma_object_shrink(
    s: Seq<u8>,
    w: Seq<u8>,
    j: int,
    depth: int,
    strategy: JsonParse,
    dec: spec_fn(Seq<u8>) -> u64,
)
    requires
        all_ws(w),
        0 <= j <= s.len(),
    ensures
        object_after_brace(s + w, j, depth, strategy, dec) matches Ok((_, q)) ==> q <= s.len()
            && object_after_brace(s, j, depth, strategy, dec) == object_after_brace(
            s + w,
            j,
            depth,
            strategy,
            dec,
        ),
    decreases s.len() - j, 0int,
{
    if object_after_brace(s + w, j, depth, strategy, dec) is Ok {
        lemma_token_shrink(s, w, j, strategy);
        lemma_next_token(s, j, strategy);
        let (c, k) = next_token(s, j, strategy)->Ok_0;
        if c != 0x7d {
            lemma_members_shrink(s, w, c, k, depth, strategy, dec, Seq::empty());
        }
    }
}

proof fn lemma_array_shrink(
    s: Seq<u8>,
    w: Seq<u8>,
    j: int,
    depth: int,
    strategy: JsonParse,
    dec: spec_fn(Seq<u8>) -> u64,
)
    requires
        all_ws(w),
        0 <= j <= s.len(),
    ensures
        array_after_bracket(s + w, j, depth, strategy, dec) matches Ok((_, q)) ==> q <= s.len()
            && array_after_bracket(s, j, depth, strategy, dec) == array_after_bracket(
            s + w,
            j,
            depth,
            strategy,
            dec,
        ),
    decreases s.len() - j, 2int,
{
    if array_after_bracket(s + w, j, depth, strategy, dec) is Ok {
        lemma_token_shrink(s, w, j, strategy);
        lemma_next_token(s, j, strategy);
        let (c, k) = next_token(s, j, strategy)->Ok_0;
        if c != 0x5d {
            lemma_items_shrink(s, w, k - 1, depth, strategy, dec, Seq::empty());
        }
    }
}

#[verifier::spinoff_prover]
#[verifier::rlimit(80)]
proof fn lemma_items_shrink(
    s: Seq<u8>,
    w: Seq<u8>,
    p: int,
    depth: int,
    strategy: JsonParse,
    dec: spec_fn(Seq<u8>) -> u64,
    acc: Seq<JsonValue>,
)
    requires
        all_ws(w),
        0 <= p <= s.len(),
    ensures
        array_items(s + w, p, depth, strategy, dec, acc) matches Ok((_, q)) ==> q <= s.len()
            && array_items(s, p, depth, strategy, dec, acc) == array_items(
            s + w,
            p,
            depth,
            strategy,
            dec,
            acc,
        ),
    decreases s.len() - p, 1int,
{
    let u = s + w;
    if array_items(u, p, depth, strategy, dec, acc) is Ok {
        lemma_value_shrink(s, w, p, depth + 1, strategy, dec);
        let (v, q) = parse_value(u, p, depth + 1, strategy, dec)->Ok_0;
        crate::whitespace::lemma_value_bounds(s, p, depth + 1, strategy, dec);
        lemma_token_shrink(s, w, q, strategy);
        lemma_next_token(s, q, strategy);
        let (c, r) = next_token(s, q, strategy)->Ok_0;
        if c == 0x2c {
            lemma_token_shrink(s, w, r, strategy);
            lemma_next_token(s, r, strategy);
            let (c2, r2) = next_token(s, r, strategy)->Ok_0;
            lemma_items_shrink(s, w, r2 - 1, depth, strategy, dec, acc.push(v));
        }
    }
}

#[verifier::spinoff_prover]
#[verifier::rlimit(80)]
proof fn lemma_members_shrink(
    s: Seq<u8>,
    w: Seq<u8>,
    c: u8,
    k: int,
    depth: int,
    strategy: JsonParse,
    dec: spec_fn(Seq<u8>) -> u64,
    acc: Seq<(Seq<u8>, JsonValue)>,
)
    requires
        all_ws(w),
        0 <= k <= s.len(),
    ensures
        object_members(s + w, c, k, depth, strategy, dec, acc) matches Ok((_, q)) ==> q <= s.len()
            && object_members(s, c, k, depth, strategy, dec, acc) == object_members(
            s + w,
            c,
            k,
            depth,
            strategy,
            dec,
            acc,
        ),
    decreases s.len() - k, 0int,
{
    let u = s + w;
    if object_members(u, c, k, depth, strategy, dec, acc) is Ok {
        lemma_string_shrink(s, w, k, Seq::empty(), -1);
        let (key, e1) = parse_string(u, k)->Ok_0;
        lemma_string_body(s, k, Seq::empty(), -1);
        lemma_token_shrink(s, w, e1, strategy);
        lemma_next_token(s, e1, strategy);
        let (c1, e2) = next_token(s, e1, strategy)->Ok_0;
        lemma_value_shrink(s, w, e2, depth + 1, strategy, dec);
        let (v, q) = parse_value(u, e2, depth + 1, strategy, dec)->Ok_0;
        crate::whitespace::lemma_value_bounds(s, e2, depth + 1, strategy, dec);
        let entries = crate::value::object_insert(acc, key, v);
        lemma_token_shrink(s, w, q, strategy);
        lemma_next_token(s, q, strategy);
        let (c3, r) = next_token(s, q, strategy)->Ok_0;
        if c3 == 0x2c {
            lemma_token_shrink(s, w, r, strategy);
            lemma_next_token(s, r, strategy);
            let (c4, r2) = next_token(s, r, strategy)->Ok_0;
            lemma_members_shrink(s, w, c4, r2, depth, strategy, dec, entries);
        }
    }
}

proof fn lemma_comments_at_end(s: Seq<u8>)
    ensures
        comment_loop(s, s.len() as int) == Ok::<int, Seq<char>>(s.len() as int),
{
    assert(skip_comment(s, s.len() as int) == Ok::<(bool, int), Seq<char>>((false, s.len() as int)));
    assert(skip_ws(s, s.len() as int) == s.len());
}

proof fn lemma_comments_tail_grow(s: Seq<u8>, w: Seq<u8>, p: int)
    requires
        all_ws(w),
        0 <= p <= s.len(),
        comment_loop(s, p) == Ok::<int, Seq<char>>(s.len() as int),
    ensures
        comment_loop(s + w, p) == Ok::<int, Seq<char>>((s.len() + w.len()) as int),
    decreases s.len() - p,
{
    let u = s + w;
    let n = (s.len() + w.len()) as int;
    lemma_comments_at_end(u);
    if p == s.len() {
        lemma_ws_tail(s, w, p);
        lemma_outside(s, w, p);
        assert(skip_comment(u, p) == Ok::<(bool, int), Seq<char>>((false, p)));
        return;
    }
    lemma_skip_comment(s, p);
    lemma_inside(s, w, p);
    if p + 1 < s.len() {
        lemma_inside(s, w, p + 1);
    }
    let (found, k) = skip_comment(s, p)->Ok_0;
    lemma_skip_ws(s, k);
    if found {
        assert(comment_loop(s, p) == comment_loop(s, skip_ws(s, k)));
        if byte_at(s, p + 1) == 0x2f {
            lemma_line(s, w, p + 2);
            lemma_line_end(s, p + 2);
            let k1 = line_end(u, p + 2);
            assert(skip_comment(u, p) == Ok::<(bool, int), Seq<char>>((true, k1)));
            if k >= s.len() {
                lemma_ws_tail(s, w, k1);
                assert(comment_loop(u, p) == comment_loop(u, skip_ws(u, k1)));
            } else {
                lemma_ws(s, w, k);
                assert(comment_loop(u, p) == comment_loop(u, skip_ws(u, k)));
                if skip_ws(s, k) < s.len() {
                    lemma_comments_tail_grow(s, w, skip_ws(s, k));
                }
            }
        } else {
            lemma_block_end(s, p + 2);
            lemma_block_grow(s, w, p + 2);
            assert(skip_comment(u, p) == skip_comment(s, p));
            lemma_ws(s, w, k);
            assert(comment_loop(u, p) == comment_loop(u, skip_ws(u, k)));
            if skip_ws(s, k) < s.len() {
                lemma_comments_tail_grow(s, w, skip_ws(s, k));
            }
        }
    } else {
        if p + 4 <= s.len() {
            lemma_block_end(s, p + 2);
        }
        assert(skip_comment(u, p) == skip_comment(s, p));
        lemma_ws(s, w, k);
    }
}

proof fn lemma_comments_tail_shrink(s: Seq<u8>, w: Seq<u8>, p: int)
    requires
        all_ws(w),
        0 <= p <= s.len(),
        comment_loop(s + w, p) == Ok::<int, Seq<char>>((s.len() + w.len()) as int),
    ensures
        comment_loop(s, p) == Ok::<int, Seq<char>>(s.len() as int),
    decreases s.len() - p,
{
    let u = s + w;
    let n = (s.len() + w.len()) as int;
    lemma_comments_at_end(s);
    if p == s.len() {
        return;
    }
    lemma_skip_comment(u, p);
    lemma_inside(s, w, p);
    if p + 1 < s.len() {
        lemma_inside(s, w, p + 1);
    } else {
        lemma_outside(s, w, p + 1);
    }
    let (found, k) = skip_comment(u, p)->Ok_0;
    lemma_skip_ws(u, k);
    if found {
        assert(comment_loop(u, p) == comment_loop(u, skip_ws(u, k)));
        if byte_at(u, p + 1) == 0x2f {
            lemma_line(s, w, p + 2);
            lemma_line_end(s, p + 2);
            let k0 = line_end(s, p + 2);
            assert(skip_comment(s, p) == Ok::<(bool, int), Seq<char>>((true, k0)));
            lemma_skip_ws(s, k0);
            assert(comment_loop(s, p) == comment_loop(s, skip_ws(s, k0)));
            if k0 < s.len() {
                lemma_ws(s, w, k0);
                if skip_ws(s, k0) < s.len() {
                    lemma_comments_tail_shrink(s, w, skip_ws(s, k0));
                }
            }
        } else {
            lemma_block_end(u, p + 2);
            lemma_block_shrink(s, w, p + 2);
            assert(skip_comment(s, p) == skip_comment(u, p));
            lemma_skip_ws(s, k);
            lemma_ws(s, w, k);
            assert(comment_loop(s, p) == comment_loop(s, skip_ws(s, k)));
            if skip_ws(s, k) < s.len() {
                lemma_comments_tail_shrink(s, w, skip_ws(s, k));
            }
        }
    } else {
        if p + 4 <= u.len() {
            lemma_block_end(u, p + 2);
        }
        assert(skip_comment(s, p) == skip_comment(u, p));
        lemma_skip_ws(s, k);
        lemma_ws(s, w, k);
    }
}

proof fn lemma_tail_grow(s: Seq<u8>, w: Seq<u8>, q: int, strategy: JsonParse)
    requires
        all_ws(w),
        0 <= q <= s.len(),
        skip_garbage(s, q, strategy) == Ok::<int, Seq<char>>(s.len() as int),
    ensures
        skip_garbage(s + w, q, strategy) == Ok::<int, Seq<char>>((s.len() + w.len()) as int),
{
    lemma_skip_ws(s, q);
    lemma_ws(s, w, q);
    let p = skip_ws(s, q);
    if strategy == JsonParse::Comments {
        if p < s.len() {
            lemma_comments_tail_grow(s, w, p);
        } else {
            lemma_comments_at_end(s + w);
        }
    }
}

proof fn lemma_tail_shrink(s: Seq<u8>, w: Seq<u8>, q: int, strategy: JsonParse)
    requires
        all_ws(w),
        0 <= q <= s.len(),
        skip_garbage(s + w, q, strategy) == Ok::<int, Seq<char>>((s.len() + w.len()) as int),
    ensures
        skip_garbage(s, q, strategy) == Ok::<int, Seq<char>>(s.len() as int),
{
    lemma_skip_ws(s, q);
    lemma_ws(s, w, q);
    let p = skip_ws(s, q);
    if strategy == JsonParse::Comments {
        if p < s.len() {
            lemma_comments_tail_shrink(s, w, p);
        } else {
            lemma_comments_at_end(s);
        }
    }
}

/// Whitespace after a document does not change whether it parses, nor
/// what it parses to.
pub proof fn law_trailing_whitespace(
    s: Seq<u8>,
    w: Seq<u8>,
    strategy: JsonParse,
    dec: spec_fn(Seq<u8>) -> u64,
)
    requires
        all_ws(w),
    ensures
        parse_document(s + w, strategy, dec) is Ok <==> parse_document(s, strategy, dec) is Ok,
        parse_document(s, strategy, dec) is Ok ==> parse_document(s + w, strategy, dec)
            == parse_document(s, strategy, dec),
{
    let u = s + w;
    lemma_value_grow(s, w, 0, 0, strategy, dec);
    lemma_value_shrink(s, w, 0, 0, strategy, dec);
    crate::whitespace::lemma_value_bounds(s, 0, 0, strategy, dec);
    if parse_document(s, strategy, dec) is Ok {
        let (v, q) = parse_value(s, 0, 0, strategy, dec)->Ok_0;
        lemma_tail_grow(s, w, q, strategy);
    }
    if parse_document(u, strategy, dec) is Ok {
        let (v, q) = parse_value(u, 0, 0, strategy, dec)->Ok_0;
        lemma_tail_shrink(s, w, q, strategy);
    }
}

/// Whitespace around a document does not change whether it parses, nor
/// what it parses to.
pub proof fn law_surrounding_whitespace(
    w1: Seq<u8>,
    s: Seq<u8>,
    w2: Seq<u8>,
    strategy: JsonParse,
    dec: spec_fn(Seq<u8>) -> u64,
)
    requires
        all_ws(w1),
        all_ws(w2),
    ensures
        parse_document(w1 + s + w2, strategy, dec) is Ok <==> parse_document(s, strategy, dec) is Ok,
        parse_document(s, strategy, dec) is Ok ==> parse_document(w1 + s + w2, strategy, dec)
            == parse_document(s, strategy, dec),
{
    assert(w1 + s + w2 =~= w1 + (s + w2));
    crate::whitespace::law_leading_whitespace(w1, s + w2, strategy, dec);
    law_trailing_whitespace(s, w2, strategy, dec);
}

} // verus!

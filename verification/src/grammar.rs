//! What the parser does, stated as functions on the input bytes.
//!
//! Each function takes the input `s` and a position, and gives either what
//! was read and the position after it, or the message of the first error.
//! Reading past the end of the input sees the byte 0.
use vstd::prelude::*;
use crate::text::{spec_esc, spec_is_hex, hex4_value, is_digit, utf8_encoding, utf8_lossy};
use crate::value::{JsonParse, JsonValue, object_insert};

verus! {

/// The deepest nesting the parser accepts.
pub const MAX_DEPTH: i32 = 200;

/// What a step of the parser gives: a result and the position after it, or an error message.
pub type Parsed<T> = Result<(T, int), Seq<char>>;

pub open spec fn byte_at(s: Seq<u8>, i: int) -> u8 {
    if 0 <= i < s.len() {
        s[i]
    } else {
        0
    }
}

/// Space, carriage return, line feed or tab.
pub open spec fn is_ws(c: u8) -> bool {
    c == 0x20 || c == 0x0d || c == 0x0a || c == 0x09
}

pub open spec fn msg_comment_start() -> Seq<char> {
    "unexpected end of input after start of comment"@
}

pub open spec fn msg_comment_unterminated() -> Seq<char> {
    "unexpected end of input inside multi-line comment"@
}

pub open spec fn msg_comment_malformed() -> Seq<char> {
    "malformed comment"@
}

pub open spec fn msg_end_of_input() -> Seq<char> {
    "unexpected end of input"@
}

pub open spec fn msg_string_end() -> Seq<char> {
    "unexpected end of input in string"@
}

pub open spec fn msg_unescaped(c: u8) -> Seq<char> {
    "unescaped "@ + spec_esc(c) + " in string"@
}

pub open spec fn msg_bad_unicode_escape(b: Seq<u8>) -> Seq<char> {
    "bad \\u escape: "@ + utf8_lossy(b)
}

pub open spec fn msg_invalid_escape(c: u8) -> Seq<char> {
    "invalid escape character "@ + spec_esc(c)
}

pub open spec fn msg_leading_zero() -> Seq<char> {
    "leading 0s not permitted in numbers"@
}

pub open spec fn msg_invalid_number(c: u8) -> Seq<char> {
    "invalid "@ + spec_esc(c) + " in number"@
}

pub open spec fn msg_fraction_digit() -> Seq<char> {
    "at least one digit required in fractional part"@
}

pub open spec fn msg_exponent_digit() -> Seq<char> {
    "at least one digit required in exponent"@
}

pub open spec fn msg_expected_literal(expected: Seq<char>, got: Seq<u8>) -> Seq<char> {
    "parse error: expected "@ + expected + ", got "@ + utf8_lossy(got)
}

pub open spec fn msg_too_deep() -> Seq<char> {
    "exceeded maximum nesting depth"@
}

pub open spec fn msg_object_quote(c: u8) -> Seq<char> {
    "expected '\"' in object, got "@ + spec_esc(c)
}

pub open spec fn msg_object_colon(c: u8) -> Seq<char> {
    "expected ':' in object, got "@ + spec_esc(c)
}

pub open spec fn msg_object_comma(c: u8) -> Seq<char> {
    "expected ',' in object, got "@ + spec_esc(c)
}

pub open spec fn msg_list_comma(c: u8) -> Seq<char> {
    "expected ',' in list, got "@ + spec_esc(c)
}

pub open spec fn msg_expected_value(c: u8) -> Seq<char> {
    "expected value, got "@ + spec_esc(c)
}

pub open spec fn msg_trailing(c: u8) -> Seq<char> {
    "unexpected trailing "@ + spec_esc(c)
}

/// The first position at or after `i` that does not hold whitespace.
pub open spec fn skip_ws(s: Seq<u8>, i: int) -> int
    decreases s.len() - i,
{
    if 0 <= i < s.len() && is_ws(s[i]) {
        skip_ws(s, i + 1)
    } else {
        i
    }
}

/// The end of a `//` comment whose text starts at `i`: the next line feed, or the end.
pub open spec fn line_end(s: Seq<u8>, i: int) -> int
    decreases s.len() - i,
{
    if 0 <= i < s.len() && s[i] != 0x0a {
        line_end(s, i + 1)
    } else {
        i
    }
}

/// The position after the `*/` that closes a block comment, searching from `i`.
pub open spec fn block_end(s: Seq<u8>, i: int) -> Parsed<bool>
    decreases s.len() - i,
{
    if byte_at(s, i) == 0x2a && byte_at(s, i + 1) == 0x2f {
        Ok((true, i + 2))
    } else if i + 3 > s.len() {
        Err(msg_comment_unterminated())
    } else {
        block_end(s, i + 1)
    }
}

/// Reads one comment at `i`, if one starts there: whether one was found.
pub open spec fn skip_comment(s: Seq<u8>, i: int) -> Parsed<bool> {
    if byte_at(s, i) != 0x2f {
        Ok((false, i))
    } else if i + 1 == s.len() {
        Err(msg_comment_start())
    } else if byte_at(s, i + 1) == 0x2f {
        Ok((true, line_end(s, i + 2)))
    } else if byte_at(s, i + 1) == 0x2a {
        if i + 4 > s.len() {
            Err(msg_comment_unterminated())
        } else {
            block_end(s, i + 2)
        }
    } else {
        Err(msg_comment_malformed())
    }
}

pub proof fn lemma_skip_ws(s: Seq<u8>, i: int)
    requires
        0 <= i <= s.len(),
    ensures
        i <= skip_ws(s, i) <= s.len(),
        skip_ws(s, i) < s.len() ==> !is_ws(s[skip_ws(s, i)]),
        forall|k: int| i <= k < skip_ws(s, i) ==> is_ws(#[trigger] s[k]),
    decreases s.len() - i,
{
    if i < s.len() && is_ws(s[i]) {
        lemma_skip_ws(s, i + 1);
    }
}

pub proof fn lemma_line_end(s: Seq<u8>, i: int)
    requires
        0 <= i,
    ensures
        i <= s.len() ==> i <= line_end(s, i) <= s.len(),
        i > s.len() ==> line_end(s, i) == i,
    decreases s.len() - i,
{
    if 0 <= i < s.len() && s[i] != 0x0a {
        lemma_line_end(s, i + 1);
    }
}

pub proof fn lemma_block_end(s: Seq<u8>, i: int)
    requires
        0 <= i,
        i + 2 <= s.len(),
    ensures
        block_end(s, i) matches Ok((f, k)) ==> f && i + 2 <= k <= s.len(),
    decreases s.len() - i,
{
    if !(byte_at(s, i) == 0x2a && byte_at(s, i + 1) == 0x2f) && i + 3 <= s.len() {
        lemma_block_end(s, i + 1);
    }
}

pub proof fn lemma_skip_comment(s: Seq<u8>, i: int)
    requires
        0 <= i <= s.len(),
    ensures
        skip_comment(s, i) matches Ok((f, k)) ==> (i <= k <= s.len() && (f ==> k >= i + 2) && (
        !f ==> k == i)),
{
    if byte_at(s, i) == 0x2f && i + 1 != s.len() {
        if byte_at(s, i + 1) == 0x2f {
            lemma_line_end(s, i + 2);
        } else if byte_at(s, i + 1) == 0x2a && i + 4 <= s.len() {
            lemma_block_end(s, i + 2);
        }
    }
}

/// Skips comments and the whitespace after each, starting at a non-space position.
pub open spec fn comment_loop(s: Seq<u8>, i: int) -> Result<int, Seq<char>>
    decreases s.len() - i,
{
    if 0 <= i <= s.len() {
        match skip_comment(s, i) {
            Err(e) => Err(e),
            Ok((found, k)) => {
                proof {
                    lemma_skip_comment(s, i);
                    lemma_skip_ws(s, k);
                }
                if !found {
                    Ok(skip_ws(s, k))
                } else {
                    comment_loop(s, skip_ws(s, k))
                }
            },
        }
    } else {
        Ok(i)
    }
}

/// The first position at or after `i` that holds neither whitespace nor,
/// when comments are allowed, a comment.
pub open spec fn skip_garbage(s: Seq<u8>, i: int, strategy: JsonParse) -> Result<int, Seq<char>> {
    let j = skip_ws(s, i);
    if strategy == JsonParse::Comments {
        comment_loop(s, j)
    } else {
        Ok(j)
    }
}

/// The next token: its byte and the position after it.
pub open spec fn next_token(s: Seq<u8>, i: int, strategy: JsonParse) -> Parsed<u8> {
    match skip_garbage(s, i, strategy) {
        Err(e) => Err(e),
        Ok(j) => if j == s.len() {
            Err(msg_end_of_input())
        } else {
            Ok((byte_at(s, j), j + 1))
        },
    }
}

pub proof fn lemma_comment_loop(s: Seq<u8>, i: int)
    requires
        0 <= i <= s.len(),
    ensures
        comment_loop(s, i) matches Ok(j) ==> i <= j <= s.len(),
    decreases s.len() - i,
{
    lemma_skip_comment(s, i);
    if let Ok((found, k)) = skip_comment(s, i) {
        lemma_skip_ws(s, k);
        if found {
            lemma_comment_loop(s, skip_ws(s, k));
        }
    }
}

pub proof fn lemma_skip_garbage(s: Seq<u8>, i: int, strategy: JsonParse)
    requires
        0 <= i <= s.len(),
    ensures
        skip_garbage(s, i, strategy) matches Ok(j) ==> i <= j <= s.len(),
{
    lemma_skip_ws(s, i);
    lemma_comment_loop(s, skip_ws(s, i));
}

pub proof fn lemma_next_token(s: Seq<u8>, i: int, strategy: JsonParse)
    requires
        0 <= i <= s.len(),
    ensures
        next_token(s, i, strategy) matches Ok((c, j)) ==> (i < j <= s.len() && c == s[j - 1]),
{
    lemma_skip_garbage(s, i, strategy);
}

/// Where reading the body of a block comment from `i` stops: after the
/// closing `*/`, or where the input was found to end first.
pub open spec fn block_stop(s: Seq<u8>, i: int) -> int
    decreases s.len() - i,
{
    if byte_at(s, i) == 0x2a && byte_at(s, i + 1) == 0x2f {
        i + 2
    } else if i + 3 > s.len() {
        i + 1
    } else {
        block_stop(s, i + 1)
    }
}

/// Where reading one comment at `i` stops, whether it succeeds or not.
pub open spec fn comment_stop(s: Seq<u8>, i: int) -> int {
    if byte_at(s, i) != 0x2f {
        i
    } else if i + 1 == s.len() {
        i + 1
    } else if byte_at(s, i + 1) == 0x2f {
        line_end(s, i + 2)
    } else if byte_at(s, i + 1) == 0x2a {
        if i + 4 > s.len() {
            i + 2
        } else {
            block_stop(s, i + 2)
        }
    } else {
        i + 1
    }
}

/// Where skipping comments and whitespace from `i` stops, whether it
/// succeeds or not.
pub open spec fn comment_loop_stop(s: Seq<u8>, i: int) -> int
    decreases s.len() - i,
{
    if 0 <= i <= s.len() {
        match skip_comment(s, i) {
            Err(_) => comment_stop(s, i),
            Ok((found, k)) => {
                proof {
                    lemma_skip_comment(s, i);
                    lemma_skip_ws(s, k);
                }
                if !found {
                    skip_ws(s, k)
                } else {
                    comment_loop_stop(s, skip_ws(s, k))
                }
            },
        }
    } else {
        i
    }
}

/// Where skipping whitespace (and comments, when allowed) from `i` stops,
/// whether it succeeds or not.
pub open spec fn garbage_stop(s: Seq<u8>, i: int, strategy: JsonParse) -> int {
    let j = skip_ws(s, i);
    if strategy == JsonParse::Comments {
        comment_loop_stop(s, j)
    } else {
        j
    }
}

/// Where skipping stops on a parser that has already failed: past the
/// whitespace and, when comments are allowed, one attempt at a comment.
pub open spec fn garbage_stop_after_failure(s: Seq<u8>, i: int, strategy: JsonParse) -> int {
    let j = skip_ws(s, i);
    if strategy == JsonParse::Comments {
        comment_stop(s, j)
    } else {
        j
    }
}

/// The four bytes are hexadecimal digits.
pub open spec fn all_hex(h: Seq<u8>) -> bool {
    forall|k: int| 0 <= k < h.len() ==> spec_is_hex(#[trigger] h[k])
}

/// The rest of a string literal from `i` (just past the opening quote, or
/// further in): the decoded bytes are `out`, followed by the encoding of the
/// pending escaped code point `last` (-1 for none), then what follows.
pub open spec fn string_body(s: Seq<u8>, i: int, out: Seq<u8>, last: int) -> Parsed<Seq<u8>>
    decreases s.len() - i,
{
    if i < 0 || i >= s.len() {
        Err(msg_string_end())
    } else {
        let ch = s[i];
        let pending = utf8_encoding(last as i64);
        if ch == 0x22 {
            Ok((out + pending, i + 1))
        } else if ch <= 0x1f {
            Err(msg_unescaped(ch))
        } else if ch != 0x5c {
            string_body(s, i + 1, out + pending + seq![ch], -1)
        } else if i + 1 == s.len() {
            Err(msg_string_end())
        } else {
            let e = s[i + 1];
            let j = i + 2;
            if e == 0x75 {
                if j + 4 > s.len() {
                    Err(msg_bad_unicode_escape(s.subrange(j, s.len() as int)))
                } else if !all_hex(s.subrange(j, j + 4)) {
                    Err(msg_bad_unicode_escape(s.subrange(j, j + 4)))
                } else {
                    let cp = hex4_value(s.subrange(j, j + 4));
                    if 0xD800 <= last <= 0xDBFF && 0xDC00 <= cp <= 0xDFFF {
                        string_body(
                            s,
                            j + 4,
                            out + utf8_encoding(
                                (((last - 0xD800) * 1024 + (cp - 0xDC00)) + 0x10000) as i64,
                            ),
                            -1,
                        )
                    } else {
                        string_body(s, j + 4, out + pending, cp)
                    }
                }
            } else if e == 0x62 {
                string_body(s, j, out + pending + seq![0x08u8], -1)
            } else if e == 0x66 {
                string_body(s, j, out + pending + seq![0x0cu8], -1)
            } else if e == 0x6e {
                string_body(s, j, out + pending + seq![0x0au8], -1)
            } else if e == 0x72 {
                string_body(s, j, out + pending + seq![0x0du8], -1)
            } else if e == 0x74 {
                string_body(s, j, out + pending + seq![0x09u8], -1)
            } else if e == 0x22 || e == 0x5c || e == 0x2f {
                string_body(s, j, out + pending + seq![e], -1)
            } else {
                Err(msg_invalid_escape(e))
            }
        }
    }
}

/// A string literal whose opening quote was just read: its bytes and the
/// position after the closing quote.
pub open spec fn parse_string(s: Seq<u8>, i: int) -> Parsed<Seq<u8>> {
    string_body(s, i, Seq::empty(), -1)
}

pub proof fn lemma_string_body(s: Seq<u8>, i: int, out: Seq<u8>, last: int)
    ensures
        string_body(s, i, out, last) matches Ok((_, k)) ==> i < k <= s.len(),
    decreases s.len() - i,
{
    if 0 <= i < s.len() {
        let ch = s[i];
        let j = i + 2;
        let pending = utf8_encoding(last as i64);
        if ch != 0x22 && ch > 0x1f {
            if ch != 0x5c {
                lemma_string_body(s, i + 1, out + pending + seq![ch], -1);
            } else if i + 1 != s.len() {
                let e = s[i + 1];
                if e == 0x75 {
                    if j + 4 <= s.len() && all_hex(s.subrange(j, j + 4)) {
                        let cp = hex4_value(s.subrange(j, j + 4));
                        lemma_string_body(
                            s,
                            j + 4,
                            out + utf8_encoding(
                                (((last - 0xD800) * 1024 + (cp - 0xDC00)) + 0x10000) as i64,
                            ),
                            -1,
                        );
                        lemma_string_body(s, j + 4, out + pending, cp);
                    }
                } else {
                    lemma_string_body(s, j, out + pending + seq![0x08u8], -1);
                    lemma_string_body(s, j, out + pending + seq![0x0cu8], -1);
                    lemma_string_body(s, j, out + pending + seq![0x0au8], -1);
                    lemma_string_body(s, j, out + pending + seq![0x0du8], -1);
                    lemma_string_body(s, j, out + pending + seq![0x09u8], -1);
                    lemma_string_body(s, j, out + pending + seq![e], -1);
                }
            }
        }
    }
}

/// The first position at or after `i` that does not hold a decimal digit.
pub open spec fn digits_end(s: Seq<u8>, i: int) -> int
    decreases s.len() - i,
{
    if 0 <= i < s.len() && is_digit(s[i]) {
        digits_end(s, i + 1)
    } else {
        i
    }
}

pub proof fn lemma_digits_end(s: Seq<u8>, i: int)
    requires
        0 <= i,
    ensures
        i <= digits_end(s, i),
        i <= s.len() ==> digits_end(s, i) <= s.len(),
        !is_digit(byte_at(s, digits_end(s, i))),
        forall|k: int| i <= k < digits_end(s, i) ==> is_digit(#[trigger] s[k]),
    decreases s.len() - i,
{
    if 0 <= i < s.len() && is_digit(s[i]) {
        lemma_digits_end(s, i + 1);
    }
}

/// The number whose text runs from `start` to `end`.
pub open spec fn number_at(s: Seq<u8>, start: int, end: int, dec: spec_fn(Seq<u8>) -> u64) -> Parsed<
    JsonValue,
> {
    Ok((JsonValue::Number(dec(s.subrange(start, end))), end))
}

/// The optional exponent of a number whose text starts at `start`, from `i`.
pub open spec fn number_exponent(s: Seq<u8>, start: int, i: int, dec: spec_fn(Seq<u8>) -> u64) -> Parsed<
    JsonValue,
> {
    if byte_at(s, i) == 0x65 || byte_at(s, i) == 0x45 {
        let j = if byte_at(s, i + 1) == 0x2b || byte_at(s, i + 1) == 0x2d {
            i + 2
        } else {
            i + 1
        };
        if !is_digit(byte_at(s, j)) {
            Err(msg_exponent_digit())
        } else {
            number_at(s, start, digits_end(s, j), dec)
        }
    } else {
        number_at(s, start, i, dec)
    }
}

/// The optional fraction of a number whose text starts at `start`, from `i`.
pub open spec fn number_fraction(s: Seq<u8>, start: int, i: int, dec: spec_fn(Seq<u8>) -> u64) -> Parsed<
    JsonValue,
> {
    if byte_at(s, i) == 0x2e {
        if !is_digit(byte_at(s, i + 1)) {
            Err(msg_fraction_digit())
        } else {
            number_exponent(s, start, digits_end(s, i + 1), dec)
        }
    } else {
        number_exponent(s, start, i, dec)
    }
}

/// A number starting at `start`; its text is handed to `dec` for its value.
pub open spec fn parse_number(s: Seq<u8>, start: int, dec: spec_fn(Seq<u8>) -> u64) -> Parsed<
    JsonValue,
> {
    let i = if byte_at(s, start) == 0x2d {
        start + 1
    } else {
        start
    };
    if byte_at(s, i) == 0x30 {
        if is_digit(byte_at(s, i + 1)) {
            Err(msg_leading_zero())
        } else {
            number_fraction(s, start, i + 1, dec)
        }
    } else if 0x31 <= byte_at(s, i) <= 0x39 {
        number_fraction(s, start, digits_end(s, i + 1), dec)
    } else {
        Err(msg_invalid_number(byte_at(s, i)))
    }
}

pub proof fn lemma_parse_number(s: Seq<u8>, start: int, dec: spec_fn(Seq<u8>) -> u64)
    requires
        0 <= start <= s.len(),
    ensures
        parse_number(s, start, dec) matches Ok((_, k)) ==> start < k <= s.len(),
{
    let i = if byte_at(s, start) == 0x2d {
        start + 1
    } else {
        start
    };
    lemma_digits_end(s, i + 1);
    let f = if byte_at(s, i) == 0x30 {
        i + 1
    } else {
        digits_end(s, i + 1)
    };
    lemma_digits_end(s, f + 1);
    let g = if byte_at(s, f) == 0x2e {
        digits_end(s, f + 1)
    } else {
        f
    };
    lemma_digits_end(s, g + 1);
    lemma_digits_end(s, g + 2);
}

/// The literal `lit` (spelled `name`) starting at the byte just read, at `i - 1`.
pub open spec fn expect_literal(s: Seq<u8>, i: int, lit: Seq<u8>, name: Seq<char>, v: JsonValue) -> Parsed<
    JsonValue,
> {
    let start = i - 1;
    let end = start + lit.len();
    if end <= s.len() && s.subrange(start, end) == lit {
        Ok((v, end))
    } else {
        Err(
            msg_expected_literal(
                name,
                s.subrange(
                    start,
                    if end <= s.len() {
                        end
                    } else {
                        s.len() as int
                    },
                ),
            ),
        )
    }
}

/// The bytes of a literal name: its UTF-8 encoding.
pub open spec fn literal_bytes(name: Seq<char>) -> Seq<u8> {
    vstd::utf8::encode_utf8(name)
}

pub proof fn lemma_literal_bytes_nonempty(name: Seq<char>)
    requires
        name.len() > 0,
    ensures
        literal_bytes(name).len() > 0,
{
}

/// A JSON value starting at `i`, nested `depth` levels deep.
pub open spec fn parse_value(
    s: Seq<u8>,
    i: int,
    depth: int,
    strategy: JsonParse,
    dec: spec_fn(Seq<u8>) -> u64,
) -> Parsed<JsonValue>
    decreases s.len() - i, 0int,
{
    if depth > MAX_DEPTH {
        Err(msg_too_deep())
    } else if !(0 <= i <= s.len()) {
        Err(msg_end_of_input())
    } else {
        match next_token(s, i, strategy) {
            Err(e) => Err(e),
            Ok((ch, j)) => {
                proof {
                    lemma_next_token(s, i, strategy);
                }
                if ch == 0x2d || is_digit(ch) {
                    parse_number(s, j - 1, dec)
                } else if ch == 0x74 {
                    expect_literal(s, j, literal_bytes("true"@), "true"@, JsonValue::Bool(true))
                } else if ch == 0x66 {
                    expect_literal(s, j, literal_bytes("false"@), "false"@, JsonValue::Bool(false))
                } else if ch == 0x6e {
                    expect_literal(s, j, literal_bytes("null"@), "null"@, JsonValue::Null)
                } else if ch == 0x22 {
                    match parse_string(s, j) {
                        Err(e) => Err(e),
                        Ok((b, k)) => Ok((JsonValue::Str(b), k)),
                    }
                } else if ch == 0x7b {
                    object_after_brace(s, j, depth, strategy, dec)
                } else if ch == 0x5b {
                    array_after_bracket(s, j, depth, strategy, dec)
                } else {
                    Err(msg_expected_value(ch))
                }
            },
        }
    }
}

/// An object whose `{` was just read, ending at `j`.
pub open spec fn object_after_brace(
    s: Seq<u8>,
    j: int,
    depth: int,
    strategy: JsonParse,
    dec: spec_fn(Seq<u8>) -> u64,
) -> Parsed<JsonValue>
    decreases s.len() - j, 0int,
{
    if !(0 <= j <= s.len()) {
        Err(msg_end_of_input())
    } else {
        match next_token(s, j, strategy) {
            Err(e) => Err(e),
            Ok((c, k)) => {
                proof {
                    lemma_next_token(s, j, strategy);
                }
                if c == 0x7d {
                    Ok((JsonValue::Object(Seq::empty()), k))
                } else {
                    object_members(s, c, k, depth, strategy, dec, Seq::empty())
                }
            },
        }
    }
}

/// An array whose `[` was just read, ending at `j`.
pub open spec fn array_after_bracket(
    s: Seq<u8>,
    j: int,
    depth: int,
    strategy: JsonParse,
    dec: spec_fn(Seq<u8>) -> u64,
) -> Parsed<JsonValue>
    decreases s.len() - j, 2int,
{
    if !(0 <= j <= s.len()) {
        Err(msg_end_of_input())
    } else {
        match next_token(s, j, strategy) {
            Err(e) => Err(e),
            Ok((c, k)) => {
                proof {
                    lemma_next_token(s, j, strategy);
                }
                if c == 0x5d {
                    Ok((JsonValue::Array(Seq::empty()), k))
                } else {
                    array_items(s, k - 1, depth, strategy, dec, Seq::empty())
                }
            },
        }
    }
}

/// The elements of an array from the element starting at `p` on, after the
/// elements `acc`; the array is at nesting level `depth`.
pub open spec fn array_items(
    s: Seq<u8>,
    p: int,
    depth: int,
    strategy: JsonParse,
    dec: spec_fn(Seq<u8>) -> u64,
    acc: Seq<JsonValue>,
) -> Parsed<JsonValue>
    decreases s.len() - p, 1int,
{
    if !(0 <= p <= s.len()) {
        Err(msg_end_of_input())
    } else {
        match parse_value(s, p, depth + 1, strategy, dec) {
            Err(e) => Err(e),
            Ok((v, q)) => {
                let items = acc.push(v);
                if !(0 <= q <= s.len()) {
                    Err(msg_end_of_input())
                } else {
                    match next_token(s, q, strategy) {
                        Err(e) => Err(e),
                        Ok((c, r)) => {
                            proof {
                                lemma_next_token(s, q, strategy);
                            }
                            if c == 0x5d {
                                Ok((JsonValue::Array(items), r))
                            } else if c != 0x2c {
                                Err(msg_list_comma(c))
                            } else {
                                match next_token(s, r, strategy) {
                                    Err(e) => Err(e),
                                    Ok((c2, r2)) => {
                                        proof {
                                            lemma_next_token(s, r, strategy);
                                        }
                                        if r2 - 1 > p {
                                            array_items(s, r2 - 1, depth, strategy, dec, items)
                                        } else {
                                            Err(msg_end_of_input())
                                        }
                                    },
                                }
                            }
                        },
                    }
                }
            },
        }
    }
}

/// The members of an object from the token `c` (read just before `k`) on,
/// after the entries `acc`; the object is at nesting level `depth`.
pub open spec fn object_members(
    s: Seq<u8>,
    c: u8,
    k: int,
    depth: int,
    strategy: JsonParse,
    dec: spec_fn(Seq<u8>) -> u64,
    acc: Seq<(Seq<u8>, JsonValue)>,
) -> Parsed<JsonValue>
    decreases s.len() - k, 0int,
{
    if c != 0x22 {
        Err(msg_object_quote(c))
    } else if !(0 <= k <= s.len()) {
        Err(msg_end_of_input())
    } else {
        match parse_string(s, k) {
            Err(e) => Err(e),
            Ok((key, e1)) => {
                proof {
                    lemma_string_body(s, k, Seq::empty(), -1);
                }
                match next_token(s, e1, strategy) {
                    Err(e) => Err(e),
                    Ok((c1, e2)) => {
                        proof {
                            lemma_next_token(s, e1, strategy);
                        }
                        if c1 != 0x3a {
                            Err(msg_object_colon(c1))
                        } else {
                            match parse_value(s, e2, depth + 1, strategy, dec) {
                                Err(e) => Err(e),
                                Ok((v, q)) => {
                                    let entries = object_insert(acc, key, v);
                                    if !(0 <= q <= s.len()) {
                                        Err(msg_end_of_input())
                                    } else {
                                        match next_token(s, q, strategy) {
                                            Err(e) => Err(e),
                                            Ok((c3, r)) => {
                                                proof {
                                                    lemma_next_token(s, q, strategy);
                                                }
                                                if c3 == 0x7d {
                                                    Ok((JsonValue::Object(entries), r))
                                                } else if c3 != 0x2c {
                                                    Err(msg_object_comma(c3))
                                                } else {
                                                    match next_token(s, r, strategy) {
                                                        Err(e) => Err(e),
                                                        Ok((c4, r2)) => {
                                                            proof {
                                                                lemma_next_token(s, r, strategy);
                                                            }
                                                            if r2 > k {
                                                                object_members(
                                                                    s,
                                                                    c4,
                                                                    r2,
                                                                    depth,
                                                                    strategy,
                                                                    dec,
                                                                    entries,
                                                                )
                                                            } else {
                                                                Err(msg_end_of_input())
                                                            }
                                                        },
                                                    }
                                                }
                                            },
                                        }
                                    }
                                },
                            }
                        }
                    },
                }
            },
        }
    }
}

/// A whole document: one value, then only whitespace (and comments, when allowed).
pub open spec fn parse_document(s: Seq<u8>, strategy: JsonParse, dec: spec_fn(Seq<u8>) -> u64) -> Result<
    JsonValue,
    Seq<char>,
> {
    match parse_value(s, 0, 0, strategy, dec) {
        Err(e) => Err(e),
        Ok((v, q)) => match skip_garbage(s, q, strategy) {
            Err(e) => Err(e),
            Ok(t) => if t != s.len() {
                Err(msg_trailing(byte_at(s, t)))
            } else {
                Ok(v)
            },
        },
    }
}

/// Values read one after another from `i`, after the values `out`; `stop`
/// is the position after the last value read whole (and the garbage after it).
/// Gives the values, the stop position, and the first error if any; a value
/// whose reading failed is counted as `null`.
pub open spec fn parse_values_from(
    s: Seq<u8>,
    i: int,
    strategy: JsonParse,
    dec: spec_fn(Seq<u8>) -> u64,
    out: Seq<JsonValue>,
    stop: int,
) -> (Seq<JsonValue>, int, Result<(), Seq<char>>)
    decreases s.len() - i,
{
    if i == s.len() || !(0 <= i <= s.len()) {
        (out, stop, Ok(()))
    } else {
        match parse_value(s, i, 0, strategy, dec) {
            Err(e) => (out.push(JsonValue::Null), stop, Err(e)),
            Ok((v, q)) => match skip_garbage(s, q, strategy) {
                Err(e) => (out.push(v), stop, Err(e)),
                Ok(t) => if i < t <= s.len() {
                    parse_values_from(s, t, strategy, dec, out.push(v), t)
                } else {
                    (out.push(v), stop, Err(msg_end_of_input()))
                },
            },
        }
    }
}

/// All values of a document holding several, concatenated or separated by whitespace.
pub open spec fn parse_values(s: Seq<u8>, strategy: JsonParse, dec: spec_fn(Seq<u8>) -> u64) -> (
    Seq<JsonValue>,
    int,
    Result<(), Seq<char>>,
) {
    parse_values_from(s, 0, strategy, dec, Seq::empty(), 0)
}

} // verus!

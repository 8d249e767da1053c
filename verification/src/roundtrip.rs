//! Reading back what was written: parsing the serialization of a value
//! gives the value again.
use vstd::prelude::*;
use crate::dump::{
    dump_entries,
    dump_items,
    dump_value,
    escape_bytes,
    false_text,
    hex_digit_lower,
    item_separator,
    key_separator,
    null_text,
    quoted,
    true_text,
};
use crate::grammar::{
    MAX_DEPTH,
    all_hex,
    array_after_bracket,
    array_items,
    byte_at,
    digits_end,
    is_ws,
    lemma_digits_end,
    literal_bytes,
    next_token,
    object_members,
    parse_document,
    parse_number,
    parse_string,
    parse_value,
    skip_ws,
    string_body,
};
use crate::number::is_finite;
use crate::text::{hex4_value, hex_value, is_digit, utf8_encoding};
use crate::value::{JsonParse, JsonValue, keys_increasing, lemma_key_position_is, object_insert};

verus! {

/// A pending escaped code point that the string reader can hold while
/// reading back escaped text: none, an ASCII control character, or one of
/// the two separators.
pub open spec fn harmless_pending(last: int) -> bool {
    last == -1 || (0 <= last < 0x80) || last == 0x2028 || last == 0x2029
}

proof fn lemma_separator_encoding()
    ensures
        utf8_encoding(0x2028i64) == seq![0xe2u8, 0x80, 0xa8],
        utf8_encoding(0x2029i64) == seq![0xe2u8, 0x80, 0xa9],
{
    assert(((0x2028i64 >> 12) as u8) | 0xE0 == 0xe2u8) by (bit_vector);
    assert((((0x2028i64 >> 6) & 0x3F) as u8) | 0x80 == 0x80u8) by (bit_vector);
    assert(((0x2028i64 & 0x3F) as u8) | 0x80 == 0xa8u8) by (bit_vector);
    assert(((0x2029i64 >> 12) as u8) | 0xE0 == 0xe2u8) by (bit_vector);
    assert((((0x2029i64 >> 6) & 0x3F) as u8) | 0x80 == 0x80u8) by (bit_vector);
    assert(((0x2029i64 & 0x3F) as u8) | 0x80 == 0xa9u8) by (bit_vector);
    assert(utf8_encoding(0x2028i64) =~= seq![0xe2u8, 0x80, 0xa8]);
    assert(utf8_encoding(0x2029i64) =~= seq![0xe2u8, 0x80, 0xa9]);
}

/// Reading the escaped form of `x`, followed by a closing quote, gives `x`.
pub proof fn lemma_string_reads_back(x: Seq<u8>, s: Seq<u8>, q: int, out: Seq<u8>, last: int)
    requires
        0 <= q,
        q + escape_bytes(x).len() < s.len(),
        s.subrange(q, q + escape_bytes(x).len()) == escape_bytes(x),
        s[q + escape_bytes(x).len()] == 0x22,
        harmless_pending(last),
    ensures
        string_body(s, q, out, last) == Ok::<(Seq<u8>, int), Seq<char>>(
            (out + utf8_encoding(last as i64) + x, q + escape_bytes(x).len() + 1),
        ),
    decreases x.len(),
{
    let e = escape_bytes(x);
    let pending = utf8_encoding(last as i64);
    if x.len() == 0 {
        assert(out + pending + x =~= out + pending);
    } else {
        let c = x[0];
        let rest = x.drop_first();
        assert(s[q] == e[0]);
        if c == 0x5c || c == 0x22 || c == 0x08 || c == 0x0c || c == 0x0a || c == 0x0d || c == 0x09 {
            let named: u8 = if c == 0x5c {
                0x5c
            } else if c == 0x22 {
                0x22
            } else if c == 0x08 {
                0x62
            } else if c == 0x0c {
                0x66
            } else if c == 0x0a {
                0x6e
            } else if c == 0x0d {
                0x72
            } else {
                0x74
            };
            assert(e == seq![0x5cu8, named] + escape_bytes(rest));
            assert(s[q + 1] == e[1]);
            assert(s.subrange(q + 2, q + 2 + escape_bytes(rest).len()) =~= escape_bytes(rest)) by {
                assert forall|k: int| 0 <= k < escape_bytes(rest).len() implies s.subrange(
                    q + 2,
                    q + 2 + escape_bytes(rest).len(),
                )[k] == escape_bytes(rest)[k] by {
                    assert(s[q + 2 + k] == s.subrange(q, q + e.len())[2 + k]);
                }
            }
            lemma_string_reads_back(rest, s, q + 2, out + pending + seq![c], -1);
            assert(utf8_encoding(-1i64) =~= Seq::<u8>::empty());
            assert(out + pending + seq![c] + utf8_encoding(-1i64) + rest =~= out + pending + x);
        } else if c <= 0x1f {
            let h1 = hex_digit_lower((c / 16) as int);
            let h2 = hex_digit_lower((c % 16) as int);
            assert(e == seq![0x5cu8, 0x75, 0x30, 0x30, h1, h2] + escape_bytes(rest));
            assert(s[q + 1] == e[1]);
            let h = s.subrange(q + 2, q + 6);
            assert(h =~= seq![0x30u8, 0x30, h1, h2]) by {
                assert(s[q + 2] == e[2]);
                assert(s[q + 3] == e[3]);
                assert(s[q + 4] == e[4]);
                assert(s[q + 5] == e[5]);
            }
            assert(all_hex(h));
            assert(hex_value(h1) == c / 16);
            assert(hex_value(h2) == c % 16);
            assert(hex4_value(h) == c);
            assert(s.subrange(q + 6, q + 6 + escape_bytes(rest).len()) =~= escape_bytes(rest)) by {
                assert forall|k: int| 0 <= k < escape_bytes(rest).len() implies s.subrange(
                    q + 6,
                    q + 6 + escape_bytes(rest).len(),
                )[k] == escape_bytes(rest)[k] by {
                    assert(s[q + 6 + k] == s.subrange(q, q + e.len())[6 + k]);
                }
            }
            lemma_string_reads_back(rest, s, q + 6, out + pending, c as int);
            assert(utf8_encoding(c as i64) =~= seq![c]);
            assert(out + pending + utf8_encoding(c as i64) + rest =~= out + pending + x);
        } else if c == 0xe2 && x.len() > 2 && x[1] == 0x80 && (x[2] == 0xa8 || x[2] == 0xa9) {
            let last_digit: u8 = if x[2] == 0xa8 {
                0x38
            } else {
                0x39
            };
            let rest3 = x.skip(3);
            assert(e == seq![0x5cu8, 0x75, 0x32, 0x30, 0x32, last_digit] + escape_bytes(rest3));
            assert(s[q + 1] == e[1]);
            let h = s.subrange(q + 2, q + 6);
            assert(h =~= seq![0x32u8, 0x30, 0x32, last_digit]) by {
                assert(s[q + 2] == e[2]);
                assert(s[q + 3] == e[3]);
                assert(s[q + 4] == e[4]);
                assert(s[q + 5] == e[5]);
            }
            assert(all_hex(h));
            let cp: int = if x[2] == 0xa8 {
                0x2028
            } else {
                0x2029
            };
            assert(hex4_value(h) == cp);
            assert(s.subrange(q + 6, q + 6 + escape_bytes(rest3).len()) =~= escape_bytes(rest3)) by {
                assert forall|k: int| 0 <= k < escape_bytes(rest3).len() implies s.subrange(
                    q + 6,
                    q + 6 + escape_bytes(rest3).len(),
                )[k] == escape_bytes(rest3)[k] by {
                    assert(s[q + 6 + k] == s.subrange(q, q + e.len())[6 + k]);
                }
            }
            lemma_string_reads_back(rest3, s, q + 6, out + pending, cp);
            lemma_separator_encoding();
            assert(x =~= seq![0xe2u8, 0x80, x[2]] + rest3);
            assert(out + pending + utf8_encoding(cp as i64) + rest3 =~= out + pending + x);
        } else {
            assert(e == seq![c] + escape_bytes(rest));
            assert(s.subrange(q + 1, q + 1 + escape_bytes(rest).len()) =~= escape_bytes(rest)) by {
                assert forall|k: int| 0 <= k < escape_bytes(rest).len() implies s.subrange(
                    q + 1,
                    q + 1 + escape_bytes(rest).len(),
                )[k] == escape_bytes(rest)[k] by {
                    assert(s[q + 1 + k] == s.subrange(q, q + e.len())[1 + k]);
                }
            }
            lemma_string_reads_back(rest, s, q + 1, out + pending + seq![c], -1);
            assert(utf8_encoding(-1i64) =~= Seq::<u8>::empty());
            assert(out + pending + seq![c] + utf8_encoding(-1i64) + rest =~= out + pending + x);
        }
    }
}

/// A byte that would make a number's text go on: a digit, `.`, `e` or `E`.
pub open spec fn continues_number(c: u8) -> bool {
    is_digit(c) || c == 0x2e || c == 0x65 || c == 0x45
}

proof fn lemma_digits_end_local(t: Seq<u8>, s: Seq<u8>, p: int, k: int)
    requires
        0 <= k <= t.len(),
        0 <= p,
        p + t.len() <= s.len(),
        s.subrange(p, p + t.len()) == t,
        !is_digit(byte_at(s, p + t.len())),
    ensures
        digits_end(s, p + k) == p + digits_end(t, k),
    decreases t.len() - k,
{
    if k < t.len() {
        assert(s[p + k] == t[k]);
        if is_digit(t[k]) {
            lemma_digits_end_local(t, s, p, k + 1);
        }
    }
}

/// A number text read alone is read the same way inside a larger input,
/// when what follows it there cannot continue a number.
pub proof fn lemma_parse_number_local(t: Seq<u8>, s: Seq<u8>, p: int, dec: spec_fn(Seq<u8>) -> u64)
    requires
        parse_number(t, 0, dec) matches Ok((_, n)) && n == t.len(),
        0 <= p,
        p + t.len() <= s.len(),
        s.subrange(p, p + t.len()) == t,
        !continues_number(byte_at(s, p + t.len())),
    ensures
        parse_number(s, p, dec) == Ok::<(JsonValue, int), Seq<char>>(
            (parse_number(t, 0, dec)->Ok_0.0, p + t.len()),
        ),
{
    let n = t.len() as int;
    assert forall|k: int| 0 <= k < n implies byte_at(s, p + k) == byte_at(t, k) by {
        assert(s[p + k] == s.subrange(p, p + n)[k]);
    }
    assert(byte_at(t, n) == 0);
    let i = if byte_at(t, 0) == 0x2d {
        1int
    } else {
        0int
    };
    lemma_digits_end(t, i + 1);
    if i + 1 <= n {
        lemma_digits_end_local(t, s, p, i + 1);
    }
    let f = if byte_at(t, i) == 0x30 {
        i + 1
    } else {
        digits_end(t, i + 1)
    };
    lemma_digits_end(t, f + 1);
    if f + 1 <= n {
        lemma_digits_end_local(t, s, p, f + 1);
    }
    let g = if byte_at(t, f) == 0x2e {
        digits_end(t, f + 1)
    } else {
        f
    };
    lemma_digits_end(t, g + 1);
    lemma_digits_end(t, g + 2);
    if g + 1 <= n {
        lemma_digits_end_local(t, s, p, g + 1);
    }
    if g + 2 <= n {
        lemma_digits_end_local(t, s, p, g + 2);
    }
    assert(s.subrange(p, p + n) =~= t.subrange(0, n));
}

pub proof fn lemma_literal_texts()
    ensures
        literal_bytes("null"@) == null_text(),
        literal_bytes("true"@) == true_text(),
        literal_bytes("false"@) == false_text(),
{
    reveal_strlit("null");
    reveal_strlit("true");
    reveal_strlit("false");
    let n = "null"@;
    let t = "true"@;
    let f = "false"@;
    assert(vstd::utf8::is_ascii_chars(n));
    assert(vstd::utf8::is_ascii_chars(t));
    assert(vstd::utf8::is_ascii_chars(f));
    vstd::utf8::is_ascii_chars_encode_utf8(n);
    vstd::utf8::is_ascii_chars_encode_utf8(t);
    vstd::utf8::is_ascii_chars_encode_utf8(f);
    assert(literal_bytes(n) =~= null_text()) by {
        assert(n[0] as u8 == 0x6e && n[1] as u8 == 0x75 && n[2] as u8 == 0x6c && n[3] as u8 == 0x6c);
    }
    assert(literal_bytes(t) =~= true_text()) by {
        assert(t[0] as u8 == 0x74 && t[1] as u8 == 0x72 && t[2] as u8 == 0x75 && t[3] as u8 == 0x65);
    }
    assert(literal_bytes(f) =~= false_text()) by {
        assert(f[0] as u8 == 0x66 && f[1] as u8 == 0x61 && f[2] as u8 == 0x6c && f[3] as u8 == 0x73
            && f[4] as u8 == 0x65);
    }
}

/// `s` holds the bytes `t` from position `p` on.
pub open spec fn holds_at(s: Seq<u8>, p: int, t: Seq<u8>) -> bool {
    0 <= p && p + t.len() <= s.len() && s.subrange(p, p + t.len()) == t
}

proof fn lemma_holds_at_index(s: Seq<u8>, p: int, t: Seq<u8>, k: int)
    requires
        holds_at(s, p, t),
        0 <= k < t.len(),
    ensures
        s[p + k] == t[k],
{
    assert(s.subrange(p, p + t.len())[k] == s[p + k]);
}

proof fn lemma_holds_at_split(s: Seq<u8>, p: int, t1: Seq<u8>, t2: Seq<u8>)
    requires
        holds_at(s, p, t1 + t2),
    ensures
        holds_at(s, p, t1),
        holds_at(s, p + t1.len(), t2),
{
    assert forall|k: int| 0 <= k < t1.len() implies s.subrange(p, p + t1.len())[k] == t1[k] by {
        lemma_holds_at_index(s, p, t1 + t2, k);
    }
    assert(s.subrange(p, p + t1.len()) =~= t1);
    assert forall|k: int| 0 <= k < t2.len() implies s.subrange(
        p + t1.len(),
        p + t1.len() + t2.len(),
    )[k] == t2[k] by {
        lemma_holds_at_index(s, p, t1 + t2, t1.len() + k);
    }
    assert(s.subrange(p + t1.len(), p + t1.len() + t2.len()) =~= t2);
}

proof fn lemma_skip_ws_to(s: Seq<u8>, p0: int, p: int)
    requires
        0 <= p0 <= p < s.len(),
        forall|k: int| p0 <= k < p ==> is_ws(#[trigger] s[k]),
        !is_ws(s[p]),
    ensures
        skip_ws(s, p0) == p,
    decreases p - p0,
{
    if p0 < p {
        lemma_skip_ws_to(s, p0 + 1, p);
    }
}

/// The next token after whitespace from `p0` is the byte at `p`, when that
/// byte is neither whitespace nor the start of a comment.
proof fn lemma_token_at(s: Seq<u8>, p0: int, p: int, strategy: JsonParse)
    requires
        0 <= p0 <= p < s.len(),
        forall|k: int| p0 <= k < p ==> is_ws(#[trigger] s[k]),
        !is_ws(s[p]),
        s[p] != 0x2f,
    ensures
        next_token(s, p0, strategy) == Ok::<(u8, int), Seq<char>>((s[p], p + 1)),
{
    lemma_skip_ws_to(s, p0, p);
    lemma_skip_ws_to(s, p, p);
}

/// A byte that can open the text of a value.
pub open spec fn opens_value(c: u8) -> bool {
    c == 0x6e || c == 0x74 || c == 0x66 || c == 0x22 || c == 0x5b || c == 0x7b || c == 0x2d
        || is_digit(c)
}

/// `v` is read back from its serialization when it sits `depth` levels deep:
/// the nesting stays within the parser's limit, every number is finite and
/// `fmt` writes it as a number text that `dec` reads back to the same number,
/// and object keys are strictly increasing (as in every [`crate::Json`] object).
pub open spec fn reads_back(
    v: JsonValue,
    fmt: spec_fn(u64) -> Seq<u8>,
    dec: spec_fn(Seq<u8>) -> u64,
    depth: int,
) -> bool
    decreases v,
{
    depth <= MAX_DEPTH && match v {
        JsonValue::Number(b) => is_finite(b) && parse_number(fmt(b), 0, dec) == Ok::<
            (JsonValue, int),
            Seq<char>,
        >((JsonValue::Number(b), fmt(b).len() as int)),
        JsonValue::Array(a) => forall|i: int|
            0 <= i < a.len() ==> reads_back(#[trigger] a[i], fmt, dec, depth + 1),
        JsonValue::Object(o) => keys_increasing(o) && forall|i: int|
            0 <= i < o.len() ==> reads_back(#[trigger] o[i].1, fmt, dec, depth + 1),
        _ => true,
    }
}

proof fn lemma_dump_opens(v: JsonValue, fmt: spec_fn(u64) -> Seq<u8>, dec: spec_fn(Seq<u8>) -> u64, depth: int)
    requires
        reads_back(v, fmt, dec, depth),
    ensures
        dump_value(v, fmt).len() > 0,
        opens_value(dump_value(v, fmt)[0]),
{
    let d = dump_value(v, fmt);
    match v {
        JsonValue::Null => {},
        JsonValue::Bool(b) => {},
        JsonValue::Number(b) => {
            let t = fmt(b);
            assert(byte_at(t, 0) == 0x2d || is_digit(byte_at(t, 0)));
        },
        JsonValue::Str(x) => {
            assert(d[0] == 0x22);
        },
        JsonValue::Array(a) => {
            assert(d[0] == 0x5b);
        },
        JsonValue::Object(o) => {
            assert(d[0] == 0x7b);
        },
    }
}

proof fn lemma_items_prefix(a: Seq<JsonValue>, fmt: spec_fn(u64) -> Seq<u8>, m: int, n: int, s: Seq<u8>, p: int)
    requires
        0 <= m <= n <= a.len(),
        holds_at(s, p, dump_items(a, fmt, n)),
    ensures
        holds_at(s, p, dump_items(a, fmt, m)),
    decreases n - m,
{
    if m < n {
        if n == 1 {
            assert(s.subrange(p, p) =~= dump_items(a, fmt, 0));
        } else {
            lemma_holds_at_split(s, p, dump_items(a, fmt, n - 1) + item_separator(), dump_value(a[n - 1], fmt));
            lemma_holds_at_split(s, p, dump_items(a, fmt, n - 1), item_separator());
            lemma_items_prefix(a, fmt, m, n - 1, s, p);
        }
    }
}

proof fn lemma_entries_prefix(
    o: Seq<(Seq<u8>, JsonValue)>,
    fmt: spec_fn(u64) -> Seq<u8>,
    m: int,
    n: int,
    s: Seq<u8>,
    p: int,
)
    requires
        0 <= m <= n <= o.len(),
        holds_at(s, p, dump_entries(o, fmt, n)),
    ensures
        holds_at(s, p, dump_entries(o, fmt, m)),
    decreases n - m,
{
    if m < n {
        if n == 1 {
            assert(s.subrange(p, p) =~= dump_entries(o, fmt, 0));
        } else {
            let head = dump_entries(o, fmt, n - 1) + item_separator() + quoted(o[n - 1].0) + key_separator();
            lemma_holds_at_split(s, p, head, dump_value(o[n - 1].1, fmt));
            lemma_holds_at_split(s, p, dump_entries(o, fmt, n - 1) + item_separator() + quoted(o[n - 1].0), key_separator());
            lemma_holds_at_split(s, p, dump_entries(o, fmt, n - 1) + item_separator(), quoted(o[n - 1].0));
            lemma_holds_at_split(s, p, dump_entries(o, fmt, n - 1), item_separator());
            lemma_entries_prefix(o, fmt, m, n - 1, s, p);
        }
    }
}

/// Where the serialization of item `i` of an array starts, when the array's
/// text starts at `p`.
pub open spec fn item_start(a: Seq<JsonValue>, fmt: spec_fn(u64) -> Seq<u8>, p: int, i: int) -> int {
    p + 1 + dump_items(a, fmt, i).len() + if i > 0 {
        2int
    } else {
        0int
    }
}

/// Where the serialization of entry `i` of an object starts, when the
/// object's text starts at `p`.
pub open spec fn entry_start(o: Seq<(Seq<u8>, JsonValue)>, fmt: spec_fn(u64) -> Seq<u8>, p: int, i: int) -> int {
    p + 1 + dump_entries(o, fmt, i).len() + if i > 0 {
        2int
    } else {
        0int
    }
}

proof fn lemma_insert_in_order(o: Seq<(Seq<u8>, JsonValue)>, i: int)
    requires
        keys_increasing(o),
        0 <= i < o.len(),
    ensures
        object_insert(o.take(i), o[i].0, o[i].1) == o.take(i + 1),
{
    let t = o.take(i);
    assert forall|j: int| 0 <= j < i implies crate::bytes::bytes_lt(#[trigger] t[j].0, o[i].0) by {
        assert(t[j] == o[j]);
    }
    lemma_key_position_is(t, o[i].0, i);
    assert(object_insert(t, o[i].0, o[i].1) =~= o.take(i + 1));
}

/// Where the pieces around item `i` of an array's text sit in `s`.
proof fn lemma_items_layout(a: Seq<JsonValue>, fmt: spec_fn(u64) -> Seq<u8>, s: Seq<u8>, p: int, i: int)
    requires
        0 <= i < a.len(),
        holds_at(s, p, dump_value(JsonValue::Array(a), fmt)),
    ensures
        ({
            let q = item_start(a, fmt, p, i);
            let qe = q + dump_value(a[i], fmt).len();
            &&& holds_at(s, q, dump_value(a[i], fmt))
            &&& qe < s.len()
            &&& i + 1 < a.len() ==> qe + 1 < s.len()
            &&& i + 1 < a.len() ==> s[qe] == 0x2c && s[qe + 1] == 0x20 && holds_at(
                s,
                qe + 2,
                dump_value(a[i + 1], fmt),
            ) && qe + 2 == item_start(a, fmt, p, i + 1)
            &&& i + 1 == a.len() ==> s[qe] == 0x5d && qe + 1 == p + dump_value(
                JsonValue::Array(a),
                fmt,
            ).len()
        }),
{
    let n = a.len() as int;
    let items = dump_items(a, fmt, n);
    lemma_holds_at_split(s, p, seq![0x5bu8] + items, seq![0x5du8]);
    lemma_holds_at_split(s, p, seq![0x5bu8], items);
    let q = item_start(a, fmt, p, i);
    let dv = dump_value(a[i], fmt);
    lemma_items_prefix(a, fmt, i + 1, n, s, p + 1);
    if i == 0 {
        assert(dump_items(a, fmt, 1) == dv);
        assert(dump_items(a, fmt, 0).len() == 0);
    } else {
        lemma_holds_at_split(s, p + 1, dump_items(a, fmt, i) + item_separator(), dv);
    }
    let qe = q + dv.len();
    assert(qe == p + 1 + dump_items(a, fmt, i + 1).len());
    if i + 1 < n {
        lemma_items_prefix(a, fmt, i + 2, n, s, p + 1);
        let next = dump_value(a[i + 1], fmt);
        lemma_holds_at_split(s, p + 1, dump_items(a, fmt, i + 1) + item_separator(), next);
        lemma_holds_at_split(s, p + 1, dump_items(a, fmt, i + 1), item_separator());
        lemma_holds_at_index(s, qe, item_separator(), 0);
        lemma_holds_at_index(s, qe, item_separator(), 1);
    } else {
        lemma_holds_at_index(s, p + 1 + items.len(), seq![0x5du8], 0);
    }
}

/// Where the pieces around entry `i` of an object's text sit in `s`.
proof fn lemma_entries_layout(
    o: Seq<(Seq<u8>, JsonValue)>,
    fmt: spec_fn(u64) -> Seq<u8>,
    s: Seq<u8>,
    p: int,
    i: int,
)
    requires
        0 <= i < o.len(),
        holds_at(s, p, dump_value(JsonValue::Object(o), fmt)),
    ensures
        ({
            let q = entry_start(o, fmt, p, i);
            let e = escape_bytes(o[i].0);
            let e1 = q + 1 + e.len() + 1;
            let ve = e1 + 2 + dump_value(o[i].1, fmt).len();
            &&& holds_at(s, q + 1, e)
            &&& ve < s.len()
            &&& i + 1 < o.len() ==> ve + 2 < s.len()
            &&& s[q + 1 + e.len()] == 0x22
            &&& s[e1] == 0x3a
            &&& s[e1 + 1] == 0x20
            &&& holds_at(s, e1 + 2, dump_value(o[i].1, fmt))
            &&& i + 1 < o.len() ==> s[ve] == 0x2c && s[ve + 1] == 0x20 && s[ve + 2] == 0x22 && ve
                + 2 == entry_start(o, fmt, p, i + 1)
            &&& i + 1 == o.len() ==> s[ve] == 0x7d && ve + 1 == p + dump_value(
                JsonValue::Object(o),
                fmt,
            ).len()
        }),
{
    let n = o.len() as int;
    let entries = dump_entries(o, fmt, n);
    lemma_holds_at_split(s, p, seq![0x7bu8] + entries, seq![0x7du8]);
    lemma_holds_at_split(s, p, seq![0x7bu8], entries);
    let q = entry_start(o, fmt, p, i);
    let key = o[i].0;
    let e = escape_bytes(key);
    let dv = dump_value(o[i].1, fmt);
    lemma_entries_prefix(o, fmt, i + 1, n, s, p + 1);
    if i == 0 {
        assert(dump_entries(o, fmt, 1) == quoted(key) + key_separator() + dv);
        assert(dump_entries(o, fmt, 0).len() == 0);
        lemma_holds_at_split(s, p + 1, quoted(key) + key_separator(), dv);
        lemma_holds_at_split(s, p + 1, quoted(key), key_separator());
    } else {
        let before = dump_entries(o, fmt, i) + item_separator();
        lemma_holds_at_split(s, p + 1, before + quoted(key) + key_separator(), dv);
        lemma_holds_at_split(s, p + 1, before + quoted(key), key_separator());
        lemma_holds_at_split(s, p + 1, before, quoted(key));
    }
    lemma_holds_at_split(s, q, seq![0x22u8] + e, seq![0x22u8]);
    lemma_holds_at_split(s, q, seq![0x22u8], e);
    lemma_holds_at_index(s, q + 1 + e.len(), seq![0x22u8], 0);
    let e1 = q + 1 + e.len() + 1;
    lemma_holds_at_index(s, e1, key_separator(), 0);
    lemma_holds_at_index(s, e1, key_separator(), 1);
    let ve = e1 + 2 + dv.len();
    assert(ve == p + 1 + dump_entries(o, fmt, i + 1).len());
    if i + 1 < n {
        lemma_entries_prefix(o, fmt, i + 2, n, s, p + 1);
        let next_key = quoted(o[i + 1].0);
        let after = dump_entries(o, fmt, i + 1) + item_separator();
        lemma_holds_at_split(s, p + 1, after + next_key + key_separator(), dump_value(o[i + 1].1, fmt));
        lemma_holds_at_split(s, p + 1, after + next_key, key_separator());
        lemma_holds_at_split(s, p + 1, after, next_key);
        lemma_holds_at_split(s, p + 1, dump_entries(o, fmt, i + 1), item_separator());
        lemma_holds_at_index(s, ve, item_separator(), 0);
        lemma_holds_at_index(s, ve, item_separator(), 1);
        lemma_holds_at_index(s, ve + 2, next_key, 0);
    } else {
        lemma_holds_at_index(s, p + 1 + entries.len(), seq![0x7du8], 0);
    }
}

/// A quoted string at `p` reads back as the string, and the reading stops
/// after the closing quote.
proof fn lemma_key_reads_back(x: Seq<u8>, s: Seq<u8>, k: int)
    requires
        0 <= k,
        holds_at(s, k, escape_bytes(x)),
        k + escape_bytes(x).len() < s.len(),
        s[k + escape_bytes(x).len()] == 0x22,
    ensures
        parse_string(s, k) == Ok::<(Seq<u8>, int), Seq<char>>((x, k + escape_bytes(x).len() + 1)),
{
    lemma_string_reads_back(x, s, k, Seq::empty(), -1);
    assert(utf8_encoding(-1i64) =~= Seq::<u8>::empty());
    assert(Seq::<u8>::empty() + utf8_encoding(-1i64) + x =~= x);
}

/// Parsing from `p0`, where only whitespace comes before the serialization
/// of `v` at `p`, reads `v` and stops right after its text.
#[verifier::spinoff_prover]
#[verifier::rlimit(40)]
proof fn lemma_value_reads_back(
    v: JsonValue,
    fmt: spec_fn(u64) -> Seq<u8>,
    dec: spec_fn(Seq<u8>) -> u64,
    strategy: JsonParse,
    s: Seq<u8>,
    p0: int,
    p: int,
    depth: int,
)
    requires
        reads_back(v, fmt, dec, depth),
        0 <= p0 <= p,
        forall|k: int| p0 <= k < p ==> is_ws(#[trigger] s[k]),
        holds_at(s, p, dump_value(v, fmt)),
        !continues_number(byte_at(s, p + dump_value(v, fmt).len())),
    ensures
        parse_value(s, p0, depth, strategy, dec) == Ok::<(JsonValue, int), Seq<char>>(
            (v, p + dump_value(v, fmt).len()),
        ),
    decreases v, 0int,
{
    let d = dump_value(v, fmt);
    lemma_dump_opens(v, fmt, dec, depth);
    lemma_holds_at_index(s, p, d, 0);
    lemma_token_at(s, p0, p, strategy);
    match v {
        JsonValue::Null => {
            lemma_literal_texts();
        },
        JsonValue::Bool(b) => {
            lemma_literal_texts();
        },
        JsonValue::Number(b) => {
            lemma_parse_number_local(fmt(b), s, p, dec);
        },
        JsonValue::Str(x) => {
            let e = escape_bytes(x);
            lemma_holds_at_split(s, p, seq![0x22u8] + e, seq![0x22u8]);
            lemma_holds_at_split(s, p, seq![0x22u8], e);
            lemma_holds_at_index(s, p + 1 + e.len(), seq![0x22u8], 0);
            lemma_key_reads_back(x, s, p + 1);
        },
        JsonValue::Array(a) => {
            lemma_array_reads_back(a, fmt, dec, strategy, s, p, depth);
        },
        JsonValue::Object(o) => {
            lemma_object_reads_back(o, fmt, dec, strategy, s, p, depth);
        },
    }
}

/// An array's text read from just after its `[`.
#[verifier::spinoff_prover]
proof fn lemma_array_reads_back(
    a: Seq<JsonValue>,
    fmt: spec_fn(u64) -> Seq<u8>,
    dec: spec_fn(Seq<u8>) -> u64,
    strategy: JsonParse,
    s: Seq<u8>,
    p: int,
    depth: int,
)
    requires
        reads_back(JsonValue::Array(a), fmt, dec, depth),
        holds_at(s, p, dump_value(JsonValue::Array(a), fmt)),
    ensures
        array_after_bracket(s, p + 1, depth, strategy, dec) == Ok::<(JsonValue, int), Seq<char>>(
            (JsonValue::Array(a), p + dump_value(JsonValue::Array(a), fmt).len()),
        ),
    decreases a, a.len() + 1,
{
    let items = dump_items(a, fmt, a.len() as int);
    lemma_holds_at_split(s, p, seq![0x5bu8] + items, seq![0x5du8]);
    lemma_holds_at_split(s, p, seq![0x5bu8], items);
    if a.len() == 0 {
        lemma_holds_at_index(s, p + 1, seq![0x5du8], 0);
        lemma_token_at(s, p + 1, p + 1, strategy);
        assert(a =~= Seq::<JsonValue>::empty());
    } else {
        lemma_items_layout(a, fmt, s, p, 0);
        assert(reads_back(a[0], fmt, dec, depth + 1));
        lemma_dump_opens(a[0], fmt, dec, depth + 1);
        lemma_holds_at_index(s, p + 1, dump_value(a[0], fmt), 0);
        lemma_token_at(s, p + 1, p + 1, strategy);
        lemma_items_read_back(a, 0, fmt, dec, strategy, s, p, depth);
        assert(a.take(0) =~= Seq::<JsonValue>::empty());
    }
}

/// An object's text read from just after its `{`.
#[verifier::spinoff_prover]
proof fn lemma_object_reads_back(
    o: Seq<(Seq<u8>, JsonValue)>,
    fmt: spec_fn(u64) -> Seq<u8>,
    dec: spec_fn(Seq<u8>) -> u64,
    strategy: JsonParse,
    s: Seq<u8>,
    p: int,
    depth: int,
)
    requires
        reads_back(JsonValue::Object(o), fmt, dec, depth),
        holds_at(s, p, dump_value(JsonValue::Object(o), fmt)),
    ensures
        crate::grammar::object_after_brace(s, p + 1, depth, strategy, dec) == Ok::<
            (JsonValue, int),
            Seq<char>,
        >((JsonValue::Object(o), p + dump_value(JsonValue::Object(o), fmt).len())),
    decreases o, o.len() + 1,
{
    let entries = dump_entries(o, fmt, o.len() as int);
    lemma_holds_at_split(s, p, seq![0x7bu8] + entries, seq![0x7du8]);
    lemma_holds_at_split(s, p, seq![0x7bu8], entries);
    if o.len() == 0 {
        lemma_holds_at_index(s, p + 1, seq![0x7du8], 0);
        lemma_token_at(s, p + 1, p + 1, strategy);
        assert(o =~= Seq::<(Seq<u8>, JsonValue)>::empty());
    } else {
        lemma_entries_prefix(o, fmt, 1, o.len() as int, s, p + 1);
        let first = quoted(o[0].0) + key_separator() + dump_value(o[0].1, fmt);
        assert(dump_entries(o, fmt, 1) == first);
        assert(first[0] == 0x22);
        lemma_holds_at_index(s, p + 1, first, 0);
        lemma_token_at(s, p + 1, p + 1, strategy);
        lemma_entries_read_back(o, 0, fmt, dec, strategy, s, p, depth);
        assert(o.take(0) =~= Seq::<(Seq<u8>, JsonValue)>::empty());
    }
}

proof fn lemma_items_last(
    s: Seq<u8>,
    q: int,
    depth: int,
    strategy: JsonParse,
    dec: spec_fn(Seq<u8>) -> u64,
    acc: Seq<JsonValue>,
    v: JsonValue,
    qe: int,
)
    requires
        0 <= q <= s.len(),
        0 <= qe <= s.len(),
        parse_value(s, q, depth + 1, strategy, dec) == Ok::<(JsonValue, int), Seq<char>>((v, qe)),
        next_token(s, qe, strategy) == Ok::<(u8, int), Seq<char>>((0x5du8, qe + 1)),
    ensures
        array_items(s, q, depth, strategy, dec, acc) == Ok::<(JsonValue, int), Seq<char>>(
            (JsonValue::Array(acc.push(v)), qe + 1),
        ),
{
}

proof fn lemma_items_next(
    s: Seq<u8>,
    q: int,
    depth: int,
    strategy: JsonParse,
    dec: spec_fn(Seq<u8>) -> u64,
    acc: Seq<JsonValue>,
    v: JsonValue,
    qe: int,
    c2: u8,
    r2: int,
)
    requires
        0 <= q <= s.len(),
        0 <= qe <= s.len(),
        parse_value(s, q, depth + 1, strategy, dec) == Ok::<(JsonValue, int), Seq<char>>((v, qe)),
        next_token(s, qe, strategy) == Ok::<(u8, int), Seq<char>>((0x2cu8, qe + 1)),
        next_token(s, qe + 1, strategy) == Ok::<(u8, int), Seq<char>>((c2, r2)),
        r2 - 1 > q,
    ensures
        array_items(s, q, depth, strategy, dec, acc) == array_items(
            s,
            r2 - 1,
            depth,
            strategy,
            dec,
            acc.push(v),
        ),
{
}

/// Reading the items of an array from item `i` on gives the whole array.
#[verifier::spinoff_prover]
#[verifier::rlimit(80)]
proof fn lemma_items_read_back(
    a: Seq<JsonValue>,
    i: int,
    fmt: spec_fn(u64) -> Seq<u8>,
    dec: spec_fn(Seq<u8>) -> u64,
    strategy: JsonParse,
    s: Seq<u8>,
    p: int,
    depth: int,
)
    requires
        reads_back(JsonValue::Array(a), fmt, dec, depth),
        0 <= i < a.len(),
        holds_at(s, p, dump_value(JsonValue::Array(a), fmt)),
    ensures
        array_items(s, item_start(a, fmt, p, i), depth, strategy, dec, a.take(i)) == Ok::<
            (JsonValue, int),
            Seq<char>,
        >((JsonValue::Array(a), p + dump_value(JsonValue::Array(a), fmt).len())),
    decreases a, a.len() - i,
{
    let n = a.len() as int;
    lemma_items_layout(a, fmt, s, p, i);
    let q = item_start(a, fmt, p, i);
    let qe = q + dump_value(a[i], fmt).len();
    assert(reads_back(a[i], fmt, dec, depth + 1));
    lemma_value_reads_back(a[i], fmt, dec, strategy, s, q, q, depth + 1);
    lemma_token_at(s, qe, qe, strategy);
    if i + 1 < n {
        assert(reads_back(a[i + 1], fmt, dec, depth + 1));
        lemma_dump_opens(a[i + 1], fmt, dec, depth + 1);
        lemma_holds_at_index(s, qe + 2, dump_value(a[i + 1], fmt), 0);
        lemma_token_at(s, qe + 1, qe + 2, strategy);
        lemma_items_next(s, q, depth, strategy, dec, a.take(i), a[i], qe, s[qe + 2], qe + 3);
        assert(a.take(i).push(a[i]) =~= a.take(i + 1));
        lemma_items_read_back(a, i + 1, fmt, dec, strategy, s, p, depth);
    } else {
        lemma_items_last(s, q, depth, strategy, dec, a.take(i), a[i], qe);
        assert(a.take(i).push(a[i]) =~= a);
    }
}

proof fn lemma_members_last(
    s: Seq<u8>,
    k: int,
    depth: int,
    strategy: JsonParse,
    dec: spec_fn(Seq<u8>) -> u64,
    acc: Seq<(Seq<u8>, JsonValue)>,
    key: Seq<u8>,
    e1: int,
    v: JsonValue,
    ve: int,
)
    requires
        0 <= k <= s.len(),
        0 <= ve <= s.len(),
        parse_string(s, k) == Ok::<(Seq<u8>, int), Seq<char>>((key, e1)),
        next_token(s, e1, strategy) == Ok::<(u8, int), Seq<char>>((0x3au8, e1 + 1)),
        parse_value(s, e1 + 1, depth + 1, strategy, dec) == Ok::<(JsonValue, int), Seq<char>>((v, ve)),
        next_token(s, ve, strategy) == Ok::<(u8, int), Seq<char>>((0x7du8, ve + 1)),
    ensures
        object_members(s, 0x22, k, depth, strategy, dec, acc) == Ok::<(JsonValue, int), Seq<char>>(
            (JsonValue::Object(object_insert(acc, key, v)), ve + 1),
        ),
{
}

proof fn lemma_members_next(
    s: Seq<u8>,
    k: int,
    depth: int,
    strategy: JsonParse,
    dec: spec_fn(Seq<u8>) -> u64,
    acc: Seq<(Seq<u8>, JsonValue)>,
    key: Seq<u8>,
    e1: int,
    v: JsonValue,
    ve: int,
    r2: int,
)
    requires
        0 <= k <= s.len(),
        0 <= ve <= s.len(),
        parse_string(s, k) == Ok::<(Seq<u8>, int), Seq<char>>((key, e1)),
        next_token(s, e1, strategy) == Ok::<(u8, int), Seq<char>>((0x3au8, e1 + 1)),
        parse_value(s, e1 + 1, depth + 1, strategy, dec) == Ok::<(JsonValue, int), Seq<char>>((v, ve)),
        next_token(s, ve, strategy) == Ok::<(u8, int), Seq<char>>((0x2cu8, ve + 1)),
        next_token(s, ve + 1, strategy) == Ok::<(u8, int), Seq<char>>((0x22u8, r2)),
        r2 > k,
    ensures
        object_members(s, 0x22, k, depth, strategy, dec, acc) == object_members(
            s,
            0x22,
            r2,
            depth,
            strategy,
            dec,
            object_insert(acc, key, v),
        ),
{
}

/// Reading the members of an object from entry `i` on (just past the
/// opening quote of its key) gives the whole object.
#[verifier::spinoff_prover]
#[verifier::rlimit(80)]
proof fn lemma_entries_read_back(
    o: Seq<(Seq<u8>, JsonValue)>,
    i: int,
    fmt: spec_fn(u64) -> Seq<u8>,
    dec: spec_fn(Seq<u8>) -> u64,
    strategy: JsonParse,
    s: Seq<u8>,
    p: int,
    depth: int,
)
    requires
        reads_back(JsonValue::Object(o), fmt, dec, depth),
        0 <= i < o.len(),
        holds_at(s, p, dump_value(JsonValue::Object(o), fmt)),
    ensures
        object_members(s, 0x22, entry_start(o, fmt, p, i) + 1, depth, strategy, dec, o.take(i))
            == Ok::<(JsonValue, int), Seq<char>>(
            (JsonValue::Object(o), p + dump_value(JsonValue::Object(o), fmt).len()),
        ),
    decreases o, o.len() - i,
{
    let n = o.len() as int;
    lemma_entries_layout(o, fmt, s, p, i);
    let q = entry_start(o, fmt, p, i);
    let key = o[i].0;
    let e = escape_bytes(key);
    let k = q + 1;
    let e1 = k + e.len() + 1;
    let vs = e1 + 2;
    let ve = vs + dump_value(o[i].1, fmt).len();
    lemma_key_reads_back(key, s, k);
    lemma_token_at(s, e1, e1, strategy);
    assert(reads_back(o[i].1, fmt, dec, depth + 1));
    lemma_value_reads_back(o[i].1, fmt, dec, strategy, s, e1 + 1, vs, depth + 1);
    lemma_insert_in_order(o, i);
    lemma_token_at(s, ve, ve, strategy);
    if i + 1 < n {
        lemma_token_at(s, ve + 1, ve + 2, strategy);
        lemma_members_next(s, k, depth, strategy, dec, o.take(i), key, e1, o[i].1, ve, ve + 3);
        lemma_entries_read_back(o, i + 1, fmt, dec, strategy, s, p, depth);
    } else {
        lemma_members_last(s, k, depth, strategy, dec, o.take(i), key, e1, o[i].1, ve);
        assert(o.take(i + 1) =~= o);
    }
}

/// Serializing a value and parsing the text gives the value back, under
/// either parsing strategy, for every value that [`reads_back`] at the top
/// level: numbers finite and written as text the decoder reads back to the
/// same number, nesting within the parser's limit.
pub proof fn law_parse_dump_roundtrip(
    v: JsonValue,
    fmt: spec_fn(u64) -> Seq<u8>,
    dec: spec_fn(Seq<u8>) -> u64,
    strategy: JsonParse,
)
    requires
        reads_back(v, fmt, dec, 0),
    ensures
        parse_document(dump_value(v, fmt), strategy, dec) == Ok::<JsonValue, Seq<char>>(v),
{
    let s = dump_value(v, fmt);
    assert(s.subrange(0, s.len() as int) =~= s);
    lemma_value_reads_back(v, fmt, dec, strategy, s, 0, 0, 0);
    assert(skip_ws(s, s.len() as int) == s.len());
}

/// Reading the string literal that the serializer writes for `x`, from just
/// past its opening quote, gives `x` and stops right after the closing quote.
pub proof fn law_string_reads_back(x: Seq<u8>)
    ensures
        crate::grammar::parse_string(quoted(x), 1) == Ok::<(Seq<u8>, int), Seq<char>>(
            (x, quoted(x).len() as int),
        ),
{
    let s = quoted(x);
    let e = escape_bytes(x);
    let n = e.len() as int;
    assert(s.subrange(1, 1 + n) =~= e);
    assert(s[1 + n] == 0x22);
    lemma_string_reads_back(x, s, 1, Seq::empty(), -1);
    assert(utf8_encoding(-1i64) =~= Seq::<u8>::empty());
    assert(Seq::<u8>::empty() + utf8_encoding(-1i64) + x =~= x);
}

} // verus!

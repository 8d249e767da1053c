//! Serialization of JSON values to bytes.
//!
//! Finite numbers are written by a formatter that the caller provides (the
//! usual choice renders the double as C's `%.17g` does); the rest of the
//! output is fixed here.
use vstd::prelude::*;
use crate::bytes::push_bytes;
use crate::number::{is_finite, number_is_finite};
use crate::value::{Json, JsonValue, lemma_array_model, models};

verus! {

/// `f` may write the text `t` for the number `b`.
pub open spec fn formats_to<F: Fn(u64) -> Vec<u8>>(f: F, b: u64, t: Seq<u8>) -> bool {
    exists|v: Vec<u8>| v@ == t && #[trigger] call_ensures(f, (b,), v)
}

/// The text `f` writes for `b`.
pub open spec fn formatted<F: Fn(u64) -> Vec<u8>>(f: F, b: u64) -> Seq<u8> {
    choose|t: Seq<u8>| formats_to(f, b, t)
}

/// `f` writes the same text for the same number.
pub open spec fn deterministic_formatter<F: Fn(u64) -> Vec<u8>>(f: F) -> bool {
    forall|b: u64, v1: Vec<u8>, v2: Vec<u8>|
        #[trigger] call_ensures(f, (b,), v1) && #[trigger] call_ensures(f, (b,), v2) ==> v1@
            == v2@
}

/// `f` as a function from numbers to texts.
pub open spec fn formatter<F: Fn(u64) -> Vec<u8>>(f: F) -> spec_fn(u64) -> Seq<u8> {
    |b: u64| formatted(f, b)
}

/// `f` can be called on any number and writes the same text for the same number.
pub open spec fn formatter_ready<F: Fn(u64) -> Vec<u8>>(f: F) -> bool {
    &&& forall|b: u64| #[trigger] call_requires(f, (b,))
    &&& deterministic_formatter(f)
}

proof fn lemma_formatted<F: Fn(u64) -> Vec<u8>>(f: F, b: u64, v: Vec<u8>)
    requires
        deterministic_formatter(f),
        call_ensures(f, (b,), v),
    ensures
        formatted(f, b) == v@,
{
    assert(formats_to(f, b, v@));
    let t = formatted(f, b);
    let w = choose|w: Vec<u8>| w@ == t && #[trigger] call_ensures(f, (b,), w);
}

pub open spec fn null_text() -> Seq<u8> {
    seq![0x6eu8, 0x75, 0x6c, 0x6c]
}

pub open spec fn true_text() -> Seq<u8> {
    seq![0x74u8, 0x72, 0x75, 0x65]
}

pub open spec fn false_text() -> Seq<u8> {
    seq![0x66u8, 0x61, 0x6c, 0x73, 0x65]
}

/// `, ` between items.
pub open spec fn item_separator() -> Seq<u8> {
    seq![0x2cu8, 0x20]
}

/// `: ` between a key and its value.
pub open spec fn key_separator() -> Seq<u8> {
    seq![0x3au8, 0x20]
}

/// A lowercase hexadecimal digit.
pub open spec fn hex_digit_lower(d: int) -> u8 {
    if d < 10 {
        (48 + d) as u8
    } else {
        (87 + d) as u8
    }
}

/// The bytes of a string escaped for a JSON string literal: `\` and `"`,
/// the control characters (by name where JSON has one, else as `\u00XX`),
/// and the line and paragraph separators U+2028 and U+2029 are escaped;
/// every other byte is copied as it is.
pub open spec fn escape_bytes(s: Seq<u8>) -> Seq<u8>
    decreases s.len(),
{
    if s.len() == 0 {
        Seq::empty()
    } else {
        let c = s[0];
        let rest = s.drop_first();
        if c == 0x5c {
            seq![0x5cu8, 0x5c] + escape_bytes(rest)
        } else if c == 0x22 {
            seq![0x5cu8, 0x22] + escape_bytes(rest)
        } else if c == 0x08 {
            seq![0x5cu8, 0x62] + escape_bytes(rest)
        } else if c == 0x0c {
            seq![0x5cu8, 0x66] + escape_bytes(rest)
        } else if c == 0x0a {
            seq![0x5cu8, 0x6e] + escape_bytes(rest)
        } else if c == 0x0d {
            seq![0x5cu8, 0x72] + escape_bytes(rest)
        } else if c == 0x09 {
            seq![0x5cu8, 0x74] + escape_bytes(rest)
        } else if c <= 0x1f {
            seq![0x5cu8, 0x75, 0x30, 0x30, hex_digit_lower((c / 16) as int), hex_digit_lower((c % 16) as int)]
                + escape_bytes(rest)
        } else if c == 0xe2 && s.len() > 2 && s[1] == 0x80 && s[2] == 0xa8 {
            seq![0x5cu8, 0x75, 0x32, 0x30, 0x32, 0x38] + escape_bytes(s.skip(3))
        } else if c == 0xe2 && s.len() > 2 && s[1] == 0x80 && s[2] == 0xa9 {
            seq![0x5cu8, 0x75, 0x32, 0x30, 0x32, 0x39] + escape_bytes(s.skip(3))
        } else {
            seq![c] + escape_bytes(rest)
        }
    }
}

/// A byte that a JSON string literal may hold as it is: not `"`, not `\`,
/// not a control character.
pub open spec fn plain_byte(c: u8) -> bool {
    c != 0x22 && c != 0x5c && c > 0x1f
}

/// Text of plain bytes in which neither line nor paragraph separator
/// (U+2028, U+2029) is encoded is written unchanged inside the quotes.
pub proof fn law_escape_keeps_plain_text(x: Seq<u8>)
    requires
        forall|k: int| 0 <= k < x.len() ==> plain_byte(#[trigger] x[k]),
        forall|k: int|
            0 <= k < x.len() - 2 ==> !(#[trigger] x[k] == 0xe2 && x[k + 1] == 0x80 && (x[k + 2]
                == 0xa8 || x[k + 2] == 0xa9)),
    ensures
        escape_bytes(x) == x,
    decreases x.len(),
{
    if x.len() > 0 {
        let r = x.drop_first();
        assert forall|k: int| 0 <= k < r.len() implies plain_byte(#[trigger] r[k]) by {
            assert(r[k] == x[k + 1]);
        }
        assert forall|k: int|
            0 <= k < r.len() - 2 implies !(#[trigger] r[k] == 0xe2 && r[k + 1] == 0x80 && (r[k + 2]
            == 0xa8 || r[k + 2] == 0xa9)) by {
            assert(r[k] == x[k + 1] && r[k + 1] == x[k + 2] && r[k + 2] == x[k + 3]);
        }
        law_escape_keeps_plain_text(r);
        if x[0] == 0xe2 && x.len() > 2 {
            assert(!(x[0] == 0xe2 && x[1] == 0x80 && (x[2] == 0xa8 || x[2] == 0xa9)));
        }
        assert(x =~= seq![x[0]] + r);
    }
}

/// A string literal: the escaped bytes between double quotes.
pub open spec fn quoted(s: Seq<u8>) -> Seq<u8> {
    seq![0x22u8] + escape_bytes(s) + seq![0x22u8]
}

/// The text of a number: what the formatter writes when it is finite, `null` otherwise.
pub open spec fn number_text(b: u64, fmt: spec_fn(u64) -> Seq<u8>) -> Seq<u8> {
    if is_finite(b) {
        fmt(b)
    } else {
        null_text()
    }
}

/// The serialization of a value.
pub open spec fn dump_value(v: JsonValue, fmt: spec_fn(u64) -> Seq<u8>) -> Seq<u8>
    decreases v, 0int,
{
    match v {
        JsonValue::Null => null_text(),
        JsonValue::Number(b) => number_text(b, fmt),
        JsonValue::Bool(b) => if b {
            true_text()
        } else {
            false_text()
        },
        JsonValue::Str(s) => quoted(s),
        JsonValue::Array(a) => seq![0x5bu8] + dump_items(a, fmt, a.len() as int) + seq![0x5du8],
        JsonValue::Object(o) => seq![0x7bu8] + dump_entries(o, fmt, o.len() as int) + seq![0x7du8],
    }
}

/// The first `n` items of an array, serialized and separated by `, `.
pub open spec fn dump_items(a: Seq<JsonValue>, fmt: spec_fn(u64) -> Seq<u8>, n: int) -> Seq<u8>
    decreases a, n,
{
    if n <= 0 || n > a.len() {
        Seq::empty()
    } else if n == 1 {
        dump_value(a[0], fmt)
    } else {
        dump_items(a, fmt, n - 1) + item_separator() + dump_value(a[n - 1], fmt)
    }
}

/// The first `n` entries of an object, each as `"key": value`, separated by `, `.
pub open spec fn dump_entries(o: Seq<(Seq<u8>, JsonValue)>, fmt: spec_fn(u64) -> Seq<u8>, n: int) -> Seq<
    u8,
>
    decreases o, n,
{
    if n <= 0 || n > o.len() {
        Seq::empty()
    } else if n == 1 {
        quoted(o[0].0) + key_separator() + dump_value(o[0].1, fmt)
    } else {
        dump_entries(o, fmt, n - 1) + item_separator() + quoted(o[n - 1].0) + key_separator()
            + dump_value(o[n - 1].1, fmt)
    }
}

fn push_text_null(out: &mut Vec<u8>)
    ensures
        final(out)@ == old(out)@ + null_text(),
{
    out.push(0x6e);
    out.push(0x75);
    out.push(0x6c);
    out.push(0x6c);
    assert(final(out)@ =~= old(out)@ + null_text());
}

fn push_two(out: &mut Vec<u8>, a: u8, b: u8)
    ensures
        final(out)@ == old(out)@ + seq![a, b],
{
    out.push(a);
    out.push(b);
    assert(final(out)@ =~= old(out)@ + seq![a, b]);
}

fn hex_lower(d: u8) -> (r: u8)
    requires
        d < 16,
    ensures
        r == hex_digit_lower(d as int),
{
    if d < 10 {
        48 + d
    } else {
        87 + d
    }
}

/// Write `value` as a JSON string literal.
pub fn dump_string(value: &[u8], out: &mut Vec<u8>)
    ensures
        final(out)@ == old(out)@ + quoted(value@),
{
    let ghost v = value@;
    out.push(0x22);
    let ghost start = out@;
    assert(v.skip(0) =~= v);
    let mut i: usize = 0;
    while i < value.len()
        invariant
            i <= v.len(),
            v == value@,
            start == old(out)@ + seq![0x22u8],
            out@ + escape_bytes(v.skip(i as int)) == start + escape_bytes(v),
        decreases v.len() - i,
    {
        let ghost rest = v.skip(i as int);
        let ghost before = out@;
        let ch = value[i];
        assert(rest[0] == ch);
        assert(rest.drop_first() =~= v.skip(i + 1));
        let mut step: usize = 1;
        if ch == 0x5c {
            push_two(out, 0x5c, 0x5c);
        } else if ch == 0x22 {
            push_two(out, 0x5c, 0x22);
        } else if ch == 0x08 {
            push_two(out, 0x5c, 0x62);
        } else if ch == 0x0c {
            push_two(out, 0x5c, 0x66);
        } else if ch == 0x0a {
            push_two(out, 0x5c, 0x6e);
        } else if ch == 0x0d {
            push_two(out, 0x5c, 0x72);
        } else if ch == 0x09 {
            push_two(out, 0x5c, 0x74);
        } else if ch <= 0x1f {
            push_two(out, 0x5c, 0x75);
            push_two(out, 0x30, 0x30);
            push_two(out, hex_lower(ch / 16), hex_lower(ch % 16));
            assert(out@ =~= before + seq![
                0x5cu8,
                0x75,
                0x30,
                0x30,
                hex_digit_lower((ch / 16) as int),
                hex_digit_lower((ch % 16) as int),
            ]);
        } else if ch == 0xe2 && value.len() - i > 2 && value[i + 1] == 0x80 && value[i + 2] == 0xa8 {
            push_two(out, 0x5c, 0x75);
            push_two(out, 0x32, 0x30);
            push_two(out, 0x32, 0x38);
            assert(out@ =~= before + seq![0x5cu8, 0x75, 0x32, 0x30, 0x32, 0x38]);
            assert(rest.skip(3) =~= v.skip(i + 3));
            step = 3;
        } else if ch == 0xe2 && value.len() - i > 2 && value[i + 1] == 0x80 && value[i + 2] == 0xa9 {
            push_two(out, 0x5c, 0x75);
            push_two(out, 0x32, 0x30);
            push_two(out, 0x32, 0x39);
            assert(out@ =~= before + seq![0x5cu8, 0x75, 0x32, 0x30, 0x32, 0x39]);
            assert(rest.skip(3) =~= v.skip(i + 3));
            step = 3;
        } else {
            out.push(ch);
        }
        assert(out@ + escape_bytes(v.skip(i + step)) =~= before + escape_bytes(rest));
        i = i + step;
    }
    assert(v.skip(v.len() as int) =~= Seq::<u8>::empty());
    out.push(0x22);
    assert(final(out)@ =~= old(out)@ + quoted(v));
}

/// Write a number: the formatter's text when it is finite, `null` otherwise.
pub fn dump_number<F: Fn(u64) -> Vec<u8>>(value: u64, out: &mut Vec<u8>, format: &F)
    requires
        formatter_ready(*format),
    ensures
        final(out)@ == old(out)@ + number_text(value, formatter(*format)),
{
    if !number_is_finite(value) {
        push_text_null(out);
        return ;
    }
    let text = format(value);
    proof {
        lemma_formatted(*format, value, text);
    }
    push_bytes(out, text.as_slice());
}

impl Json {
    /// Serialize this value to JSON text; finite numbers are written by `format`.
    pub fn dump<F: Fn(u64) -> Vec<u8>>(&self, format: &F) -> (r: Vec<u8>)
        requires
            formatter_ready(*format),
        ensures
            r@ == dump_value(self@, formatter(*format)),
    {
        let mut out: Vec<u8> = Vec::new();
        self.dump_bytes(&mut out, format);
        assert(out@ =~= dump_value(self@, formatter(*format)));
        out
    }

    /// Append the serialization of this value to `out`.
    pub fn dump_bytes<F: Fn(u64) -> Vec<u8>>(&self, out: &mut Vec<u8>, format: &F)
        requires
            formatter_ready(*format),
        ensures
            final(out)@ == old(out)@ + dump_value(self@, formatter(*format)),
        decreases self@,
    {
        let ghost fmt = formatter(*format);
        match self {
            Json::Null => push_text_null(out),
            Json::Number(value) => dump_number(*value, out, format),
            Json::Bool(value) => {
                if *value {
                    out.push(0x74);
                    out.push(0x72);
                    out.push(0x75);
                    out.push(0x65);
                    assert(final(out)@ =~= old(out)@ + true_text());
                } else {
                    out.push(0x66);
                    out.push(0x61);
                    out.push(0x6c);
                    out.push(0x73);
                    out.push(0x65);
                    assert(final(out)@ =~= old(out)@ + false_text());
                }
            },
            Json::Str(value) => dump_string(value.as_slice(), out),
            Json::Array(values) => {
                proof {
                    lemma_array_model(*values);
                }
                let ghost items = models(values@);
                out.push(0x5b);
                let ghost start = out@;
                let mut i: usize = 0;
                while i < values.len()
                    invariant
                        i <= values.len(),
                        items == models(values@),
                        self@ == JsonValue::Array(items),
                        fmt == formatter(*format),
                        formatter_ready(*format),
                        start == old(out)@ + seq![0x5bu8],
                        out@ == start + dump_items(items, fmt, i as int),
                    decreases values.len() - i,
                {
                    if i > 0 {
                        push_two(out, 0x2c, 0x20);
                    }
                    assert(items[i as int] == values@[i as int]@);
                    proof {
                        let sv = self@;
                        assert(decreases_to!(sv => sv->Array_0));
                        assert(decreases_to!(sv->Array_0 => sv->Array_0[i as int]));
                    }
                    values[i].dump_bytes(out, format);
                    assert(out@ =~= start + dump_items(items, fmt, i + 1));
                    i = i + 1;
                }
                out.push(0x5d);
                assert(final(out)@ =~= old(out)@ + dump_value(self@, fmt));
            },
            Json::Object(object) => {
                let entries = object.entries();
                let ghost o = object.model();
                assert(self@ == JsonValue::Object(o));
                out.push(0x7b);
                let ghost start = out@;
                let mut i: usize = 0;
                while i < entries.len()
                    invariant
                        i <= entries@.len(),
                        entries@.len() == o.len(),
                        forall|k: int|
                            0 <= k < entries@.len() ==> (#[trigger] entries@[k]).0@ == o[k].0
                                && entries@[k].1@ == o[k].1,
                        self@ == JsonValue::Object(o),
                        fmt == formatter(*format),
                        formatter_ready(*format),
                        start == old(out)@ + seq![0x7bu8],
                        out@ == start + dump_entries(o, fmt, i as int),
                    decreases entries@.len() - i,
                {
                    if i > 0 {
                        push_two(out, 0x2c, 0x20);
                    }
                    let entry = &entries[i];
                    assert(entry.0@ == o[i as int].0 && entry.1@ == o[i as int].1);
                    dump_string(entry.0.as_slice(), out);
                    push_two(out, 0x3a, 0x20);
                    proof {
                        let sv = self@;
                        assert(decreases_to!(sv => sv->Object_0));
                        assert(decreases_to!(sv->Object_0 => sv->Object_0[i as int]));
                        assert(decreases_to!(sv->Object_0[i as int] => sv->Object_0[i as int].1));
                    }
                    entry.1.dump_bytes(out, format);
                    assert(out@ =~= start + dump_entries(o, fmt, i + 1));
                    i = i + 1;
                }
                out.push(0x7d);
                assert(final(out)@ =~= old(out)@ + dump_value(self@, fmt));
            },
        }
    }
}

} // verus!

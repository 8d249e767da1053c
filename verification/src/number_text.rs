//! The text of a JSON number, as RFC 8259 gives it, and what the parser
//! makes of it.
use vstd::prelude::*;
use crate::grammar::{
    byte_at,
    digits_end,
    next_token,
    parse_document,
    parse_number,
    parse_value,
    skip_garbage,
    skip_ws,
};
use crate::text::is_digit;
use crate::value::{JsonParse, JsonValue};

verus! {

/// Every byte is a decimal digit.
pub open spec fn all_digits(d: Seq<u8>) -> bool {
    forall|k: int| 0 <= k < d.len() ==> is_digit(#[trigger] d[k])
}

/// An optional minus sign.
pub open spec fn number_sign(m: Seq<u8>) -> bool {
    m.len() == 0 || m == seq![0x2du8]
}

/// The integer part: `0`, or a digit from 1 to 9 followed by digits.
pub open spec fn number_int(ip: Seq<u8>) -> bool {
    ip == seq![0x30u8] || (ip.len() > 0 && 0x31 <= ip[0] <= 0x39 && all_digits(ip))
}

/// An optional fraction: `.` and at least one digit.
pub open spec fn number_frac(fr: Seq<u8>) -> bool {
    fr.len() == 0 || (fr.len() >= 2 && fr[0] == 0x2e && all_digits(fr.drop_first()))
}

/// An optional exponent: `e` or `E`, an optional sign, and at least one digit.
pub open spec fn number_exp(ex: Seq<u8>) -> bool {
    ex.len() == 0 || (ex.len() >= 2 && (ex[0] == 0x65 || ex[0] == 0x45) && ({
        let r = ex.drop_first();
        all_digits(r) || (r.len() >= 2 && (r[0] == 0x2b || r[0] == 0x2d) && all_digits(
            r.drop_first(),
        ))
    }))
}

proof fn lemma_digits_run(t: Seq<u8>, x: int, y: int)
    requires
        0 <= x <= y <= t.len(),
        forall|k: int| x <= k < y ==> is_digit(#[trigger] t[k]),
        !is_digit(byte_at(t, y)),
    ensures
        digits_end(t, x) == y,
    decreases y - x,
{
    if x < y {
        lemma_digits_run(t, x + 1, y);
    }
}

/// A text made of the parts of the JSON number grammar is read whole as a
/// number, whose value is what the decoder makes of the whole text; the
/// exponent may be marked by `e` or `E`.
pub proof fn law_number_text(m: Seq<u8>, ip: Seq<u8>, fr: Seq<u8>, ex: Seq<u8>, dec: spec_fn(Seq<u8>) -> u64)
    requires
        number_sign(m),
        number_int(ip),
        number_frac(fr),
        number_exp(ex),
    ensures
        parse_number(m + ip + fr + ex, 0, dec) == Ok::<(JsonValue, int), Seq<char>>(
            (JsonValue::Number(dec(m + ip + fr + ex)), (m + ip + fr + ex).len() as int),
        ),
{
    let t = m + ip + fr + ex;
    let a = m.len() as int;
    let b = a + ip.len();
    let c = b + fr.len();
    let l = c + ex.len();
    assert(t.len() == l);
    assert forall|k: int| 0 <= k < ip.len() implies t[a + k] == ip[k] by {}
    assert forall|k: int| 0 <= k < fr.len() implies t[b + k] == fr[k] by {}
    assert forall|k: int| 0 <= k < ex.len() implies t[c + k] == ex[k] by {}
    if a == 1 {
        assert(t[0] == 0x2d);
    }
    assert(byte_at(t, a) == ip[0]);
    // what follows the integer part
    if fr.len() > 0 {
        assert(byte_at(t, b) == 0x2e);
    } else if ex.len() > 0 {
        assert(byte_at(t, b) == ex[0]);
    }
    assert(!is_digit(byte_at(t, b)));
    if ip != seq![0x30u8] {
        assert forall|k: int| a + 1 <= k < b implies is_digit(#[trigger] t[k]) by {
            assert(t[k] == ip[k - a]);
        }
        lemma_digits_run(t, a + 1, b);
    }
    // the fraction
    if ex.len() > 0 {
        assert(byte_at(t, c) == ex[0]);
    }
    assert(!is_digit(byte_at(t, c)));
    if fr.len() > 0 {
        assert(byte_at(t, b + 1) == fr[1]);
        assert(fr.drop_first()[0] == fr[1]);
        assert forall|k: int| b + 1 <= k < c implies is_digit(#[trigger] t[k]) by {
            assert(t[k] == fr[k - b]);
            assert(fr[k - b] == fr.drop_first()[k - b - 1]);
        }
        lemma_digits_run(t, b + 1, c);
    }
    // the exponent
    if ex.len() > 0 {
        let r = ex.drop_first();
        assert(byte_at(t, c + 1) == ex[1]);
        assert(r[0] == ex[1]);
        let j = if ex[1] == 0x2b || ex[1] == 0x2d {
            c + 2
        } else {
            c + 1
        };
        if j == c + 2 {
            assert(r.drop_first()[0] == ex[2]);
            assert(byte_at(t, c + 2) == ex[2]);
            assert forall|k: int| c + 2 <= k < l implies is_digit(#[trigger] t[k]) by {
                assert(t[k] == ex[k - c]);
                assert(ex[k - c] == r.drop_first()[k - c - 2]);
            }
        } else {
            assert forall|k: int| c + 1 <= k < l implies is_digit(#[trigger] t[k]) by {
                assert(t[k] == ex[k - c]);
                assert(ex[k - c] == r[k - c - 1]);
            }
        }
        lemma_digits_run(t, j, l);
    }
    assert(t.subrange(0, l) =~= t);
}

/// A whole document that is a JSON number text parses, in either mode, to
/// the number that the decoder makes of the text.
pub proof fn law_number_document(
    m: Seq<u8>,
    ip: Seq<u8>,
    fr: Seq<u8>,
    ex: Seq<u8>,
    strategy: JsonParse,
    dec: spec_fn(Seq<u8>) -> u64,
)
    requires
        number_sign(m),
        number_int(ip),
        number_frac(fr),
        number_exp(ex),
    ensures
        parse_document(m + ip + fr + ex, strategy, dec) == Ok::<JsonValue, Seq<char>>(
            JsonValue::Number(dec(m + ip + fr + ex)),
        ),
{
    let t = m + ip + fr + ex;
    law_number_text(m, ip, fr, ex, dec);
    if m.len() == 1 {
        assert(t[0] == 0x2d);
    } else {
        assert(t[0] == ip[0]);
    }
    assert(skip_ws(t, 0) == 0);
    assert(skip_ws(t, t.len() as int) == t.len());
    assert(next_token(t, 0, strategy) == Ok::<(u8, int), Seq<char>>((t[0], 1)));
    assert(skip_garbage(t, t.len() as int, strategy) == Ok::<int, Seq<char>>(t.len() as int));
}

} // verus!

//! Character-level helpers: UTF-8 encoding of code points, hexadecimal
//! digits, decimal rendering, and the pieces of error messages.
use vstd::prelude::*;

verus! {

/// The name of what `String::from_utf8_lossy` makes of `bytes`: the decoded
/// text, with each invalid sequence replaced by U+FFFD.
pub uninterp spec fn utf8_lossy(bytes: Seq<u8>) -> Seq<char>;

/// Calls `String::from_utf8_lossy`. Claimed of it: its result is
/// `utf8_lossy(bytes)`, and for valid UTF-8 input it is the decoded text.
#[verifier::external_body]
pub(crate) fn lossy_string(bytes: &[u8]) -> (r: String)
    ensures
        r@ == utf8_lossy(bytes@),
        vstd::utf8::valid_utf8(bytes@) ==> r@ == vstd::utf8::decode_utf8(bytes@),
{
    String::from_utf8_lossy(bytes).into_owned()
}

/// Calls `String::push`. Claimed of it: the character is appended.
#[verifier::external_body]
pub(crate) fn push_char(s: &mut String, c: char)
    ensures
        final(s)@ == old(s)@.push(c),
{
    s.push(c)
}

/// Whether `lower <= x <= upper`.
pub fn in_range(x: i64, lower: i64, upper: i64) -> (r: bool)
    ensures
        r == (lower <= x && x <= upper),
{
    x >= lower && x <= upper
}

/// An ASCII decimal digit.
pub open spec fn is_digit(c: u8) -> bool {
    0x30 <= c <= 0x39
}

/// Whether `c` is an ASCII decimal digit.
pub fn is_ascii_digit(c: u8) -> (r: bool)
    ensures
        r == is_digit(c),
{
    0x30 <= c && c <= 0x39
}

/// An ASCII hexadecimal digit.
pub open spec fn spec_is_hex(c: u8) -> bool {
    is_digit(c) || (0x61 <= c <= 0x66) || (0x41 <= c <= 0x46)
}

/// Whether `c` is an ASCII hexadecimal digit.
pub fn is_hex(c: u8) -> (r: bool)
    ensures
        r == spec_is_hex(c),
{
    (0x30 <= c && c <= 0x39) || (0x61 <= c && c <= 0x66) || (0x41 <= c && c <= 0x46)
}

/// The value of a hexadecimal digit.
pub open spec fn hex_value(c: u8) -> int {
    if is_digit(c) {
        c - 0x30
    } else if 0x61 <= c <= 0x66 {
        c - 0x61 + 10
    } else {
        c - 0x41 + 10
    }
}

/// The value of four hexadecimal digits, most significant first.
pub open spec fn hex4_value(s: Seq<u8>) -> int {
    hex_value(s[0]) * 4096 + hex_value(s[1]) * 256 + hex_value(s[2]) * 16 + hex_value(s[3])
}

pub fn hex_digit_value(c: u8) -> (r: i64)
    requires
        spec_is_hex(c),
    ensures
        r == hex_value(c),
        0 <= r < 16,
{
    if 0x30 <= c && c <= 0x39 {
        (c - 0x30) as i64
    } else if 0x61 <= c && c <= 0x66 {
        (c - 0x61 + 10) as i64
    } else {
        (c - 0x41 + 10) as i64
    }
}

/// The UTF-8 style encoding of a code point; nothing for a negative one.
/// Surrogate code points are encoded like any other (WTF-8).
pub open spec fn utf8_encoding(pt: i64) -> Seq<u8> {
    if pt < 0 {
        Seq::empty()
    } else if pt < 0x80 {
        seq![pt as u8]
    } else if pt < 0x800 {
        seq![((pt >> 6) as u8) | 0xC0, ((pt & 0x3F) as u8) | 0x80]
    } else if pt < 0x10000 {
        seq![
            ((pt >> 12) as u8) | 0xE0,
            (((pt >> 6) & 0x3F) as u8) | 0x80,
            ((pt & 0x3F) as u8) | 0x80,
        ]
    } else {
        seq![
            ((pt >> 18) as u8) | 0xF0,
            (((pt >> 12) & 0x3F) as u8) | 0x80,
            (((pt >> 6) & 0x3F) as u8) | 0x80,
            ((pt & 0x3F) as u8) | 0x80,
        ]
    }
}

/// On a Unicode scalar value, the encoding above is standard UTF-8: the
/// bytes of `c` are those of the one-character string `c`.
pub proof fn law_utf8_encoding_standard(c: char)
    ensures
        utf8_encoding(c as i64) == vstd::utf8::encode_utf8(seq![c]),
{
    let v = c as u32;
    let pt = c as i64;
    assert(pt == v as i64);
    let one = seq![c];
    assert(one.drop_first() =~= Seq::<char>::empty());
    assert(vstd::utf8::encode_utf8(one) == vstd::utf8::encode_scalar(v) + vstd::utf8::encode_utf8(
        one.drop_first(),
    ));
    assert(vstd::utf8::encode_utf8(Seq::<char>::empty()) == Seq::<u8>::empty());
    let e = vstd::utf8::encode_scalar(v);
    assert(vstd::utf8::encode_utf8(one) =~= e);
    if v <= 0x7f {
        assert((pt as u8) == (v & 0x7F) as u8) by (bit_vector)
            requires
                pt == v as i64,
                v <= 0x7f,
        ;
    } else if v <= 0x7ff {
        assert(((pt >> 6) as u8) | 0xC0 == 0xC0 | ((v >> 6) & 0x1F) as u8 && ((pt & 0x3F) as u8)
            | 0x80 == 0x80 | (v & 0x3F) as u8) by (bit_vector)
            requires
                pt == v as i64,
                0x80 <= v <= 0x7ff,
        ;
    } else if v <= 0xffff {
        assert(((pt >> 12) as u8) | 0xE0 == 0xE0 | ((v >> 12) & 0x0F) as u8 && (((pt >> 6) & 0x3F)
            as u8) | 0x80 == 0x80 | ((v >> 6) & 0x3F) as u8 && ((pt & 0x3F) as u8) | 0x80 == 0x80
            | (v & 0x3F) as u8) by (bit_vector)
            requires
                pt == v as i64,
                0x800 <= v <= 0xffff,
        ;
    } else {
        assert(((pt >> 18) as u8) | 0xF0 == 0xF0 | ((v >> 18) & 0x7) as u8 && (((pt >> 12) & 0x3F)
            as u8) | 0x80 == 0x80 | ((v >> 12) & 0x3F) as u8 && (((pt >> 6) & 0x3F) as u8) | 0x80
            == 0x80 | ((v >> 6) & 0x3F) as u8 && ((pt & 0x3F) as u8) | 0x80 == 0x80 | (v & 0x3F)
            as u8) by (bit_vector)
            requires
                pt == v as i64,
                0x10000 <= v <= 0x10ffff,
        ;
    }
    assert(utf8_encoding(pt) =~= e);
}

/// Appends the UTF-8 encoding of `pt` to `out` (nothing when `pt < 0`).
pub fn encode_utf8(pt: i64, out: &mut Vec<u8>)
    ensures
        final(out)@ == old(out)@ + utf8_encoding(pt),
{
    if pt < 0 {
        assert(old(out)@ + utf8_encoding(pt) =~= old(out)@);
        return ;
    }
    if pt < 0x80 {
        out.push(pt as u8);
    } else if pt < 0x800 {
        out.push(((pt >> 6) as u8) | 0xC0);
        out.push(((pt & 0x3F) as u8) | 0x80);
    } else if pt < 0x10000 {
        out.push(((pt >> 12) as u8) | 0xE0);
        out.push((((pt >> 6) & 0x3F) as u8) | 0x80);
        out.push(((pt & 0x3F) as u8) | 0x80);
    } else {
        out.push(((pt >> 18) as u8) | 0xF0);
        out.push((((pt >> 12) & 0x3F) as u8) | 0x80);
        out.push((((pt >> 6) & 0x3F) as u8) | 0x80);
        out.push(((pt & 0x3F) as u8) | 0x80);
    }
    assert(final(out)@ =~= old(out)@ + utf8_encoding(pt));
}

/// The decimal digit character for `d` in `0..10`.
pub open spec fn digit_char(d: int) -> char {
    (d + 48) as char
}

/// The decimal digits of `n`.
pub open spec fn nat_decimal(n: nat) -> Seq<char>
    decreases n,
{
    if n < 10 {
        seq![digit_char(n as int)]
    } else {
        nat_decimal(n / 10).push(digit_char((n % 10) as int))
    }
}

/// The decimal rendering of `n`, with a leading `-` when negative.
pub open spec fn int_decimal(n: int) -> Seq<char> {
    if n < 0 {
        seq!['-'] + nat_decimal((-n) as nat)
    } else {
        nat_decimal(n as nat)
    }
}

fn push_nat_decimal(s: &mut String, n: u32)
    ensures
        final(s)@ == old(s)@ + nat_decimal(n as nat),
    decreases n,
{
    if n >= 10 {
        push_nat_decimal(s, n / 10);
    }
    let d = (n % 10) as u8;
    let c = (d + 48) as char;
    push_char(s, c);
    assert(final(s)@ =~= old(s)@ + nat_decimal(n as nat));
}

/// Appends the decimal rendering of `n` to `s`.
pub fn push_decimal(s: &mut String, n: i32)
    ensures
        final(s)@ == old(s)@ + int_decimal(n as int),
{
    if n < 0 {
        push_char(s, '-');
        let m: u32 = (-(n as i64)) as u32;
        push_nat_decimal(s, m);
        assert(final(s)@ =~= old(s)@ + int_decimal(n as int));
    } else {
        push_nat_decimal(s, n as u32);
    }
}

/// How a byte is shown in an error message: `'c' (99)` for printable ASCII,
/// otherwise its value as a signed byte in parentheses, e.g. `(-30)`.
pub open spec fn spec_esc(c: u8) -> Seq<char> {
    if 0x20 <= c <= 0x7f {
        seq!['\'', c as char, '\'', ' ', '('] + int_decimal(c as int) + seq![')']
    } else {
        seq!['('] + int_decimal(
            if c >= 128 {
                c - 256
            } else {
                c as int
            },
        ) + seq![')']
    }
}

/// Format a byte suitable for printing in an error message.
pub fn esc(c: u8) -> (r: String)
    ensures
        r@ == spec_esc(c),
{
    let mut s = String::new();
    if 0x20 <= c && c <= 0x7f {
        push_char(&mut s, '\'');
        push_char(&mut s, c as char);
        push_char(&mut s, '\'');
        push_char(&mut s, ' ');
        push_char(&mut s, '(');
        push_decimal(&mut s, c as i32);
        push_char(&mut s, ')');
    } else {
        push_char(&mut s, '(');
        let v: i32 = if c >= 128 {
            c as i32 - 256
        } else {
            c as i32
        };
        push_decimal(&mut s, v);
        push_char(&mut s, ')');
    }
    assert(s@ =~= spec_esc(c));
    s
}

/// `s` with every trailing `c` removed.
pub open spec fn trim_end(s: Seq<char>, c: char) -> Seq<char>
    decreases s.len(),
{
    if s.len() > 0 && s.last() == c {
        trim_end(s.drop_last(), c)
    } else {
        s
    }
}

/// Without a decimal point the text is unchanged; with one, trailing `0`s
/// and then trailing `.`s are removed.
pub open spec fn spec_strip_trailing_zeros(s: Seq<char>) -> Seq<char> {
    if s.contains('.') {
        trim_end(trim_end(s, '0'), '.')
    } else {
        s
    }
}

proof fn lemma_trim_end_prefix(s: Seq<char>, c: char, n: int)
    requires
        0 <= n <= s.len(),
        forall|i: int| n <= i < s.len() ==> s[i] == c,
        n == 0 || s[n - 1] != c,
    ensures
        trim_end(s, c) == s.subrange(0, n),
    decreases s.len(),
{
    if s.len() > n {
        lemma_trim_end_prefix(s.drop_last(), c, n);
        assert(s.drop_last().subrange(0, n) =~= s.subrange(0, n));
    } else {
        assert(s.subrange(0, n) =~= s);
    }
}

/// Length of `s[..n]` once the trailing `c`s are dropped.
fn trimmed_len(s: &str, n: usize, c: char) -> (r: usize)
    requires
        n <= s@.len(),
    ensures
        r <= n,
        trim_end(s@.subrange(0, n as int), c) == s@.subrange(0, r as int),
{
    let mut k = n;
    while k > 0 && s.get_char(k - 1) == c
        invariant
            k <= n <= s@.len(),
            forall|i: int| k <= i < n ==> s@[i] == c,
        decreases k,
    {
        k = k - 1;
    }
    proof {
        let t = s@.subrange(0, n as int);
        lemma_trim_end_prefix(t, c, k as int);
        assert(t.subrange(0, k as int) =~= s@.subrange(0, k as int));
    }
    k
}

/// Remove the trailing zeros of a decimal fraction, and the point if
/// nothing follows it; text without a `.` is returned as it is.
pub fn strip_trailing_zeros(s: &str) -> (r: String)
    ensures
        r@ == spec_strip_trailing_zeros(s@),
{
    let len = s.unicode_len();
    let mut has_dot = false;
    let mut i: usize = 0;
    while i < len
        invariant
            len == s@.len(),
            i <= len,
            has_dot <==> exists|j: int| 0 <= j < i && s@[j] == '.',
        decreases len - i,
    {
        let ch = s.get_char(i);
        if ch == '.' {
            has_dot = true;
        }
        i = i + 1;
    }
    assert(has_dot <==> s@.contains('.'));
    assert(s@.subrange(0, len as int) =~= s@);
    if !has_dot {
        return String::from_str(s);
    }
    let k1 = trimmed_len(s, len, '0');
    let k2 = trimmed_len(s, k1, '.');
    proof {
        assert(s@.subrange(0, k1 as int).subrange(0, k2 as int) =~= s@.subrange(0, k2 as int));
    }
    let mut out = String::new();
    let mut j: usize = 0;
    while j < k2
        invariant
            k2 <= len == s@.len(),
            j <= k2,
            out@ == s@.subrange(0, j as int),
        decreases k2 - j,
    {
        push_char(&mut out, s.get_char(j));
        assert(s@.subrange(0, j + 1) =~= s@.subrange(0, j as int).push(s@[j as int]));
        j = j + 1;
    }
    out
}

/// In the style of C's `%.17g` for a number with decimal exponent `exp`:
/// `Some` of the number of digits after the point where it is written in
/// fixed style (`-4 <= exp < 17`), `None` where it is written in exponent
/// style.
pub fn fixed_precision(exp: i32) -> (r: Option<usize>)
    ensures
        match r {
            Some(p) => -4 <= exp < 17 && p == 16 - exp,
            None => exp < -4 || exp >= 17,
        },
{
    if exp < -4 || exp >= 17 {
        None
    } else {
        Some((16 - exp) as usize)
    }
}

/// `n` in decimal, with at least two digits.
pub open spec fn two_digit_decimal(n: nat) -> Seq<char> {
    if n < 10 {
        seq!['0'] + nat_decimal(n)
    } else {
        nat_decimal(n)
    }
}

/// The exponent-style text of C's `%g`: the mantissa without its trailing
/// zeros, `e`, the exponent's sign, and at least two digits of its size.
pub fn exponent_text(mantissa: &str, exp: i32) -> (r: String)
    requires
        exp > i32::MIN,
    ensures
        r@ == spec_strip_trailing_zeros(mantissa@) + seq!['e'] + (if exp < 0 {
            seq!['-']
        } else {
            seq!['+']
        }) + two_digit_decimal(
            (if exp < 0 {
                -exp
            } else {
                exp as int
            }) as nat,
        ),
{
    let mut out = strip_trailing_zeros(mantissa);
    let ghost m = out@;
    push_char(&mut out, 'e');
    if exp < 0 {
        push_char(&mut out, '-');
    } else {
        push_char(&mut out, '+');
    }
    let a: i32 = if exp < 0 {
        -exp
    } else {
        exp
    };
    let ghost before = out@;
    if a < 10 {
        push_char(&mut out, '0');
    }
    push_decimal(&mut out, a);
    proof {
        let sign = if exp < 0 {
            seq!['-']
        } else {
            seq!['+']
        };
        assert(before =~= m + seq!['e'] + sign);
        assert(out@ =~= m + seq!['e'] + sign + two_digit_decimal(a as nat));
    }
    out
}

} // verus!

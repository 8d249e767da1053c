//! The parser: a cursor over the input bytes that remembers the first error.
use vstd::prelude::*;
use vstd::slice::slice_subrange;
use crate::bytes::bytes_equal;
use crate::grammar::{MAX_DEPTH, block_stop, comment_loop_stop, comment_stop, garbage_stop, garbage_stop_after_failure, literal_bytes, array_after_bracket, object_after_brace, array_items, block_end, byte_at, comment_loop, digits_end, expect_literal, lemma_digits_end, lemma_next_token, lemma_parse_number, lemma_skip_comment, lemma_skip_garbage, lemma_skip_ws, lemma_string_body, line_end, next_token, object_members, parse_document, parse_number, parse_string, parse_value, parse_values, parse_values_from, skip_comment, skip_garbage, skip_ws, string_body};
use crate::text::{esc, hex_digit_value, in_range, is_ascii_digit, is_hex, lossy_string, spec_esc, spec_is_hex, hex4_value, is_digit, utf8_encoding};
use crate::value::{Json, JsonObject, JsonParse, JsonValue, lemma_array_model, models, object_insert};

verus! {

/// `f` gives the same number for the same text.
pub open spec fn deterministic_decoder<F: Fn(&[u8]) -> u64>(f: F) -> bool {
    forall|a: &[u8], b: &[u8], x: u64, y: u64|
        a@ == b@ && #[trigger] call_ensures(f, (a,), x) && #[trigger] call_ensures(f, (b,), y)
            ==> x == y
}

/// `f` may give `x` for the text `t`.
pub open spec fn decodes_to<F: Fn(&[u8]) -> u64>(f: F, t: Seq<u8>, x: u64) -> bool {
    exists|a: &[u8]| a@ == t && #[trigger] call_ensures(f, (a,), x)
}

/// What `f` gives for the text `t`.
pub open spec fn decoded<F: Fn(&[u8]) -> u64>(f: F, t: Seq<u8>) -> u64 {
    choose|x: u64| decodes_to(f, t, x)
}

/// `f` as a function from number texts to bit patterns.
pub open spec fn decoder<F: Fn(&[u8]) -> u64>(f: F) -> spec_fn(Seq<u8>) -> u64 {
    |t: Seq<u8>| decoded(f, t)
}

/// `f` can be called on any text and gives the same number for the same text.
pub open spec fn decoder_ready<F: Fn(&[u8]) -> u64>(f: F) -> bool {
    &&& forall|a: &[u8]| #[trigger] call_requires(f, (a,))
    &&& deterministic_decoder(f)
}

proof fn lemma_decoded<F: Fn(&[u8]) -> u64>(f: F, a: &[u8], x: u64)
    requires
        deterministic_decoder(f),
        call_ensures(f, (a,), x),
    ensures
        decoded(f, a@) == x,
{
    assert(decodes_to(f, a@, x));
    let y = decoded(f, a@);
    let b = choose|b: &[u8]| b@ == a@ && #[trigger] call_ensures(f, (b,), y);
}

/// `prefix`, the byte `c` as shown in messages, then `suffix`.
fn message_with_byte(prefix: &str, c: u8, suffix: &str) -> (r: String)
    ensures
        r@ == prefix@ + spec_esc(c) + suffix@,
{
    let mut m = String::from_str(prefix);
    let e = esc(c);
    m.append(e.as_str());
    m.append(suffix);
    m
}

/// `prefix` followed by the byte `c` as shown in messages.
fn message_ending_with_byte(prefix: &str, c: u8) -> (r: String)
    ensures
        r@ == prefix@ + spec_esc(c),
{
    let mut m = String::from_str(prefix);
    let e = esc(c);
    m.append(e.as_str());
    m
}

/// Tracks all state of an in-progress parse.
pub struct JsonParser<'a> {
    pub bytes: &'a [u8],
    pub i: usize,
    pub err: String,
    pub failed: bool,
    pub strategy: JsonParse,
}

impl<'a> JsonParser<'a> {
    /// The position is within the input.
    pub open spec fn wf(&self) -> bool {
        self.i <= self.bytes@.len()
    }

    /// Same input and strategy.
    pub open spec fn same_input(&self, other: &JsonParser) -> bool {
        &&& self.bytes@ == other.bytes@
        &&& self.strategy == other.strategy
    }

    /// `new` is `old` moved to `pos`, with no new error.
    pub open spec fn moved(old: &JsonParser, new: &JsonParser, pos: int) -> bool {
        &&& new.same_input(old)
        &&& new.i == pos
        &&& new.failed == old.failed
        &&& new.err@ == old.err@
    }

    /// `new` is `old` after the error `e`; only the first error is kept.
    pub open spec fn failed_with(old: &JsonParser, new: &JsonParser, e: Seq<char>) -> bool {
        &&& new.same_input(old)
        &&& new.wf()
        &&& new.failed
        &&& new.err@ == (if old.failed {
            old.err@
        } else {
            e
        })
    }

    /// `old` had already failed and `new` keeps its error.
    pub open spec fn still_failed(old: &JsonParser, new: &JsonParser) -> bool {
        &&& new.same_input(old)
        &&& new.wf()
        &&& new.failed
        &&& new.err@ == old.err@
    }

    /// A parser at the start of `bytes`.
    pub fn new(bytes: &'a [u8], strategy: JsonParse) -> (r: JsonParser<'a>)
        ensures
            r.bytes@ == bytes@,
            r.i == 0,
            !r.failed,
            r.err@ == Seq::<char>::empty(),
            r.strategy == strategy,
    {
        JsonParser { bytes, i: 0, err: String::new(), failed: false, strategy }
    }

    /// Whether an error has been recorded.
    pub fn failed(&self) -> (r: bool)
        ensures
            r == self.failed,
    {
        self.failed
    }

    /// The byte at `idx`, or 0 past the end.
    pub fn at(&self, idx: usize) -> (r: u8)
        ensures
            r == byte_at(self.bytes@, idx as int),
    {
        if idx < self.bytes.len() {
            self.bytes[idx]
        } else {
            0
        }
    }

    /// The current byte, or 0 at the end.
    pub fn cur(&self) -> (r: u8)
        ensures
            r == byte_at(self.bytes@, self.i as int),
    {
        self.at(self.i)
    }

    /// Mark this parse as failed with the given message (only the first message is kept).
    pub fn fail_str(&mut self, msg: String)
        requires
            old(self).wf(),
        ensures
            JsonParser::failed_with(old(self), final(self), msg@),
            final(self).i == old(self).i,
    {
        if !self.failed {
            self.err = msg;
        }
        self.failed = true;
    }

    /// Mark this parse as failed with the given message (only the first message is kept).
    pub fn fail(&mut self, msg: String)
        requires
            old(self).wf(),
        ensures
            JsonParser::failed_with(old(self), final(self), msg@),
            final(self).i == old(self).i,
    {
        self.fail_str(msg)
    }

    /// Fail with `msg`, giving `null` as the value read.
    pub fn fail_json(&mut self, msg: String) -> (r: Json)
        requires
            old(self).wf(),
        ensures
            JsonParser::failed_with(old(self), final(self), msg@),
            final(self).i == old(self).i,
            r@ == JsonValue::Null,
    {
        self.fail_str(msg);
        Json::Null
    }

    fn fail_literal(&mut self, msg: &str)
        requires
            old(self).wf(),
        ensures
            JsonParser::failed_with(old(self), final(self), msg@),
            final(self).i == old(self).i,
    {
        self.fail_str(String::from_str(msg))
    }

    /// Advance until the current character is non-whitespace.
    pub fn consume_whitespace(&mut self)
        requires
            old(self).wf(),
        ensures
            JsonParser::moved(old(self), final(self), skip_ws(old(self).bytes@, old(self).i as int)),
            final(self).wf(),
    {
        let ghost s = self.bytes@;
        let ghost i0 = self.i as int;
        while self.i < self.bytes.len() && (self.bytes[self.i] == 0x20 || self.bytes[self.i] == 0x0d
            || self.bytes[self.i] == 0x0a || self.bytes[self.i] == 0x09)
            invariant
                JsonParser::moved(old(self), self, self.i as int),
                s == self.bytes@,
                self.wf(),
                skip_ws(s, self.i as int) == skip_ws(s, i0),
            decreases self.bytes@.len() - self.i,
        {
            self.i = self.i + 1;
        }
    }

    /// Advance past a single comment (C-style inline or multiline). Returns whether a
    /// comment was found.
    pub fn consume_comment(&mut self) -> (r: bool)
        requires
            old(self).wf(),
        ensures
            match skip_comment(old(self).bytes@, old(self).i as int) {
                Ok((found, k)) => r == found && JsonParser::moved(old(self), final(self), k)
                    && final(self).wf(),
                Err(e) => !r && JsonParser::failed_with(old(self), final(self), e),
            },
            final(self).i == comment_stop(old(self).bytes@, old(self).i as int),
    {
        let ghost s = self.bytes@;
        let ghost i0 = self.i as int;
        let n = self.bytes.len();
        let mut comment_found = false;
        if self.cur() == 0x2f {
            self.i = self.i + 1;
            if self.i == self.bytes.len() {
                self.fail_literal("unexpected end of input after start of comment");
                return false;
            }
            if self.cur() == 0x2f {
                // inline comment
                self.i = self.i + 1;
                while self.i < self.bytes.len() && self.bytes[self.i] != 0x0a
                    invariant
                        JsonParser::moved(old(self), self, self.i as int),
                        s == self.bytes@,
                        n == s.len(),
                        self.wf(),
                        i0 + 2 <= self.i,
                        line_end(s, self.i as int) == line_end(s, i0 + 2),
                    decreases self.bytes@.len() - self.i,
                {
                    self.i = self.i + 1;
                }
                comment_found = true;
            } else if self.cur() == 0x2a {
                // multiline comment
                self.i = self.i + 1;
                if self.bytes.len() - self.i < 2 {
                    self.fail_literal("unexpected end of input inside multi-line comment");
                    return false;
                }
                let mut closed = false;
                loop
                    invariant_except_break
                        !closed,
                        JsonParser::moved(old(self), self, self.i as int),
                        s == self.bytes@,
                        n == s.len(),
                        self.i + 2 <= self.bytes@.len(),
                        block_end(s, self.i as int) == block_end(s, i0 + 2),
                        block_stop(s, self.i as int) == block_stop(s, i0 + 2),
                    ensures
                        closed ==> block_stop(s, i0 + 2) == self.i + 2,
                        !closed ==> block_stop(s, i0 + 2) == self.i,
                        closed ==> JsonParser::moved(old(self), self, self.i as int)
                            && self.i + 2 <= self.bytes@.len() && block_end(s, i0 + 2) == Ok::<
                            (bool, int),
                            Seq<char>,
                        >((true, self.i + 2)),
                        !closed ==> JsonParser::failed_with(
                            old(self),
                            self,
                            crate::grammar::msg_comment_unterminated(),
                        ) && block_end(s, i0 + 2) == Err::<(bool, int), Seq<char>>(
                            crate::grammar::msg_comment_unterminated(),
                        ),
                    decreases self.bytes@.len() - self.i,
                {
                    if self.cur() == 0x2a && self.at(self.i + 1) == 0x2f {
                        closed = true;
                        break;
                    }
                    self.i = self.i + 1;
                    if self.bytes.len() - self.i < 2 {
                        self.fail_literal("unexpected end of input inside multi-line comment");
                        break;
                    }
                }
                if !closed {
                    return false;
                }
                self.i = self.i + 2;
                comment_found = true;
            } else {
                self.fail_literal("malformed comment");
                return false;
            }
        }
        comment_found
    }

    /// Advance until the current character is non-whitespace and non-comment.
    pub fn consume_garbage(&mut self)
        requires
            old(self).wf(),
        ensures
            final(self).wf(),
            !old(self).failed ==> match skip_garbage(
                old(self).bytes@,
                old(self).i as int,
                old(self).strategy,
            ) {
                Ok(j) => JsonParser::moved(old(self), final(self), j),
                Err(e) => JsonParser::failed_with(old(self), final(self), e),
            },
            old(self).failed ==> JsonParser::still_failed(old(self), final(self)),
            !old(self).failed ==> final(self).i == garbage_stop(
                old(self).bytes@,
                old(self).i as int,
                old(self).strategy,
            ),
            old(self).failed ==> final(self).i == garbage_stop_after_failure(
                old(self).bytes@,
                old(self).i as int,
                old(self).strategy,
            ),
    {
        let ghost s = self.bytes@;
        self.consume_whitespace();
        proof {
            lemma_skip_ws(s, old(self).i as int);
        }
        if self.strategy == JsonParse::Comments {
            let ghost j0 = self.i as int;
            loop
                invariant
                    JsonParser::moved(old(self), self, self.i as int),
                    s == self.bytes@,
                    self.wf(),
                    self.strategy == JsonParse::Comments,
                    j0 == skip_ws(s, old(self).i as int),
                    comment_loop(s, self.i as int) == comment_loop(s, j0),
                    comment_loop_stop(s, self.i as int) == comment_loop_stop(s, j0),
                    old(self).failed ==> self.i == j0,
                decreases self.bytes@.len() - self.i,
            {
                let ghost p = self.i as int;
                proof {
                    lemma_skip_comment(s, p);
                }
                let comment_found = self.consume_comment();
                if self.failed {
                    return ;
                }
                let ghost k = self.i as int;
                self.consume_whitespace();
                proof {
                    lemma_skip_ws(s, k);
                }
                if !comment_found {
                    return ;
                }
            }
        }
    }

    /// Return the next non-whitespace character. If the end of the input is reached, flag
    /// an error and return 0.
    pub fn get_next_token(&mut self) -> (r: u8)
        requires
            old(self).wf(),
        ensures
            final(self).wf(),
            !old(self).failed ==> match next_token(
                old(self).bytes@,
                old(self).i as int,
                old(self).strategy,
            ) {
                Ok((c, j)) => r == c && JsonParser::moved(old(self), final(self), j),
                Err(e) => r == 0 && JsonParser::failed_with(old(self), final(self), e),
            },
            old(self).failed ==> r == 0 && JsonParser::still_failed(old(self), final(self)),
            !old(self).failed && next_token(
                old(self).bytes@,
                old(self).i as int,
                old(self).strategy,
            ) is Err ==> final(self).i == garbage_stop(
                old(self).bytes@,
                old(self).i as int,
                old(self).strategy,
            ),
            old(self).failed ==> final(self).i == garbage_stop_after_failure(
                old(self).bytes@,
                old(self).i as int,
                old(self).strategy,
            ),
    {
        proof {
            lemma_skip_garbage(old(self).bytes@, old(self).i as int, old(self).strategy);
        }
        self.consume_garbage();
        if self.failed {
            return 0;
        }
        if self.i == self.bytes.len() {
            self.fail_literal("unexpected end of input");
            return 0;
        }
        let c = self.bytes[self.i];
        self.i = self.i + 1;
        c
    }

    /// Appends the UTF-8 encoding of `pt` to `out` (nothing when `pt < 0`).
    pub fn encode_utf8(pt: i64, out: &mut Vec<u8>)
        ensures
            final(out)@ == old(out)@ + utf8_encoding(pt),
    {
        crate::text::encode_utf8(pt, out)
    }

    /// Parse a string, starting just past its opening quote, returning its raw bytes.
    #[verifier::rlimit(60)]
    pub fn parse_string(&mut self) -> (r: Vec<u8>)
        requires
            old(self).wf(),
        ensures
            match parse_string(old(self).bytes@, old(self).i as int) {
                Ok((b, k)) => r@ == b && JsonParser::moved(old(self), final(self), k)
                    && final(self).wf(),
                Err(e) => JsonParser::failed_with(old(self), final(self), e),
            },
    {
        let ghost s = self.bytes@;
        let ghost target = parse_string(s, old(self).i as int);
        let n = self.bytes.len();
        let mut out: Vec<u8> = Vec::new();
        let mut last: i64 = -1;
        loop
            invariant_except_break
                JsonParser::moved(old(self), self, self.i as int),
                s == self.bytes@,
                n == s.len(),
                self.wf(),
                last == -1 || 0 <= last <= 0xFFFF,
                string_body(s, self.i as int, out@, last as int) == target,
            ensures
                match target {
                    Ok((b, k)) => out@ == b && JsonParser::moved(old(self), self, k) && self.wf(),
                    Err(e) => JsonParser::failed_with(old(self), self, e),
                },
            decreases self.bytes@.len() - self.i,
        {
            if self.i == self.bytes.len() {
                self.fail_str(String::from_str("unexpected end of input in string"));
                break;
            }
            let ch = self.bytes[self.i];
            let ghost old_last = last;
            self.i = self.i + 1;
            if ch == 0x22 {
                crate::text::encode_utf8(last, &mut out);
                break;
            }
            if ch <= 0x1f {
                let m = message_with_byte("unescaped ", ch, " in string");
                self.fail_str(m);
                break;
            }
            // The usual case: non-escaped characters.
            if ch != 0x5c {
                let ghost before = out@;
                crate::text::encode_utf8(last, &mut out);
                last = -1;
                out.push(ch);
                assert(out@ =~= before + utf8_encoding(old_last) + seq![ch]);
                continue ;
            }
            // Handle escapes.
            if self.i == self.bytes.len() {
                self.fail_literal("unexpected end of input in string");
                break;
            }
            let e = self.bytes[self.i];
            self.i = self.i + 1;
            if e == 0x75 {
                // Extract 4-hex-digit escape sequence.
                if self.bytes.len() - self.i < 4 {
                    let rest = slice_subrange(self.bytes, self.i, self.bytes.len());
                    let mut m = String::from_str("bad \\u escape: ");
                    let shown = lossy_string(rest);
                    m.append(shown.as_str());
                    self.fail_str(m);
                    break;
                }
                let h = slice_subrange(self.bytes, self.i, self.i + 4);
                let hex = is_hex(h[0]) && is_hex(h[1]) && is_hex(h[2]) && is_hex(h[3]);
                if !hex {
                    let mut m = String::from_str("bad \\u escape: ");
                    let shown = lossy_string(h);
                    m.append(shown.as_str());
                    self.fail_str(m);
                    break;
                }
                assert(crate::grammar::all_hex(h@)) by {
                    assert forall|t: int| 0 <= t < h@.len() implies spec_is_hex(#[trigger] h@[t]) by {
                        if t == 0 {} else if t == 1 {} else if t == 2 {} else {}
                    }
                }
                let codepoint = hex_digit_value(h[0]) * 4096 + hex_digit_value(h[1]) * 256
                    + hex_digit_value(h[2]) * 16 + hex_digit_value(h[3]);
                assert(codepoint == hex4_value(h@));
                // Reassemble UTF-16 surrogate pairs into a single astral-plane character.
                let ghost before = out@;
                if in_range(last, 0xD800, 0xDBFF) && in_range(codepoint, 0xDC00, 0xDFFF) {
                    crate::text::encode_utf8(
                        ((last - 0xD800) * 1024 + (codepoint - 0xDC00)) + 0x10000,
                        &mut out,
                    );
                    last = -1;
                } else {
                    crate::text::encode_utf8(last, &mut out);
                    last = codepoint;
                }
                self.i = self.i + 4;
                continue ;
            }
            let ghost before = out@;
            crate::text::encode_utf8(last, &mut out);
            last = -1;
            let mut pushed: u8 = e;
            if e == 0x62 {
                pushed = 0x08;
            } else if e == 0x66 {
                pushed = 0x0c;
            } else if e == 0x6e {
                pushed = 0x0a;
            } else if e == 0x72 {
                pushed = 0x0d;
            } else if e == 0x74 {
                pushed = 0x09;
            } else if e == 0x22 || e == 0x5c || e == 0x2f {
            } else {
                let m = message_ending_with_byte("invalid escape character ", e);
                self.fail_str(m);
                break;
            }
            out.push(pushed);
            assert(out@ =~= before + utf8_encoding(old_last) + seq![pushed]);
        }
        out
    }

    /// Advance past the decimal digits at the current position.
    fn skip_digits(&mut self)
        requires
            old(self).wf(),
        ensures
            JsonParser::moved(old(self), final(self), digits_end(old(self).bytes@, old(self).i as int)),
            final(self).wf(),
    {
        let ghost s = self.bytes@;
        let ghost i0 = self.i as int;
        while self.i < self.bytes.len() && is_ascii_digit(self.bytes[self.i])
            invariant
                JsonParser::moved(old(self), self, self.i as int),
                s == self.bytes@,
                self.wf(),
                digits_end(s, self.i as int) == digits_end(s, i0),
            decreases self.bytes@.len() - self.i,
        {
            self.i = self.i + 1;
        }
    }

    /// Parse a number; its text is handed to `decode` for its value.
    #[verifier::rlimit(60)]
    pub fn parse_number<F: Fn(&[u8]) -> u64>(&mut self, decode: &F) -> (r: Json)
        requires
            old(self).wf(),
            decoder_ready(*decode),
        ensures
            match parse_number(old(self).bytes@, old(self).i as int, decoder(*decode)) {
                Ok((v, k)) => r@ == v && JsonParser::moved(old(self), final(self), k) 
                    && final(self).wf(),
                Err(e) => r@ == JsonValue::Null && JsonParser::failed_with(old(self), final(self), e),
            },
    {
        let ghost s = self.bytes@;
        let n = self.bytes.len();
        let start = self.i;
        if self.cur() == 0x2d {
            self.i = self.i + 1;
        }
        // Integer part.
        if self.cur() == 0x30 {
            self.i = self.i + 1;
            if is_ascii_digit(self.cur()) {
                return self.fail_json(String::from_str("leading 0s not permitted in numbers"));
            }
        } else if 0x31 <= self.cur() && self.cur() <= 0x39 {
            self.i = self.i + 1;
            proof {
                lemma_digits_end(s, self.i as int);
            }
            self.skip_digits();
        } else {
            let c = self.cur();
            let m = message_with_byte("invalid ", c, " in number");
            return self.fail_json(m);
        }
        // Decimal part.
        if self.cur() == 0x2e {
            self.i = self.i + 1;
            if !is_ascii_digit(self.cur()) {
                return self.fail_json(
                    String::from_str("at least one digit required in fractional part"),
                );
            }
            proof {
                lemma_digits_end(s, self.i as int);
            }
            self.skip_digits();
        }
        // Exponent part.
        if self.cur() == 0x65 || self.cur() == 0x45 {
            self.i = self.i + 1;
            if self.cur() == 0x2b || self.cur() == 0x2d {
                self.i = self.i + 1;
            }
            if !is_ascii_digit(self.cur()) {
                return self.fail_json(String::from_str("at least one digit required in exponent"));
            }
            proof {
                lemma_digits_end(s, self.i as int);
            }
            self.skip_digits();
        }
        let text = slice_subrange(self.bytes, start, self.i);
        let bits = decode(text);
        proof {
            lemma_decoded(*decode, text, bits);
        }
        Json::Number(bits)
    }

    /// Expect that `expected` starts at the character that was just read. If it does,
    /// advance the input and return `res`. If not, flag an error.
    pub fn expect(&mut self, expected: &str, res: Json) -> (r: Json)
        requires
            old(self).wf(),
            old(self).i >= 1,
        ensures
            match expect_literal(
                old(self).bytes@,
                old(self).i as int,
                crate::grammar::literal_bytes(expected@),
                expected@,
                res@,
            ) {
                Ok((v, k)) => r@ == v && JsonParser::moved(old(self), final(self), k) 
                    && final(self).wf(),
                Err(e) => r@ == JsonValue::Null && JsonParser::failed_with(old(self), final(self), e)
                    && final(self).i == old(self).i - 1,
            },
    {
        self.i = self.i - 1;
        let lit = expected.as_bytes();
        let n = self.bytes.len();
        let avail = n - self.i;
        if avail >= lit.len() && bytes_equal(slice_subrange(self.bytes, self.i, self.i + lit.len()), lit) {
            self.i = self.i + lit.len();
            res
        } else {
            let end = if avail >= lit.len() {
                self.i + lit.len()
            } else {
                n
            };
            let got = lossy_string(slice_subrange(self.bytes, self.i, end));
            let mut m = String::from_str("parse error: expected ");
            m.append(expected);
            m.append(", got ");
            m.append(got.as_str());
            self.fail_json(m)
        }
    }

    /// Parse a JSON value nested `depth` levels deep; numbers get their value from `decode`.
    #[verifier::rlimit(60)]
    pub fn parse_json<F: Fn(&[u8]) -> u64>(&mut self, depth: i32, decode: &F) -> (r: Json)
        requires
            old(self).wf(),
            decoder_ready(*decode),
        ensures
            final(self).wf(),
            final(self).same_input(old(self)),
            !old(self).failed ==> match parse_value(
                old(self).bytes@,
                old(self).i as int,
                depth as int,
                old(self).strategy,
                decoder(*decode),
            ) {
                Ok((v, q)) => r@ == v && JsonParser::moved(old(self), final(self), q) && q > old(self).i,
                Err(e) => r@ == JsonValue::Null && JsonParser::failed_with(old(self), final(self), e),
            },
            old(self).failed ==> r@ == JsonValue::Null && JsonParser::still_failed(old(self), final(self)),
        decreases old(self).bytes@.len() - old(self).i, 1int,
    {
        let ghost s = self.bytes@;
        let ghost i0 = self.i as int;
        let ghost st = self.strategy;
        let ghost dec = decoder(*decode);
        if depth > MAX_DEPTH {
            return self.fail_json(String::from_str("exceeded maximum nesting depth"));
        }
        proof {
            lemma_next_token(s, i0, st);
        }
        let ch = self.get_next_token();
        if self.failed {
            return Json::Null;
        }
        let ghost j = self.i as int;
        if ch == 0x2d || is_ascii_digit(ch) {
            self.i = self.i - 1;
            proof {
                lemma_parse_number(s, j - 1, dec);
            }
            return self.parse_number(decode);
        }
        if ch == 0x74 {
            proof {
                reveal_strlit("true");
                crate::grammar::lemma_literal_bytes_nonempty("true"@);
            }
            return self.expect("true", Json::Bool(true));
        }
        if ch == 0x66 {
            proof {
                reveal_strlit("false");
                crate::grammar::lemma_literal_bytes_nonempty("false"@);
            }
            return self.expect("false", Json::Bool(false));
        }
        if ch == 0x6e {
            proof {
                reveal_strlit("null");
                crate::grammar::lemma_literal_bytes_nonempty("null"@);
            }
            return self.expect("null", Json::Null);
        }
        if ch == 0x22 {
            proof {
                lemma_string_body(s, j, Seq::empty(), -1);
            }
            let b = self.parse_string();
            if self.failed {
                return Json::Null;
            }
            return Json::Str(b);
        }
        if ch == 0x7b {
            return self.parse_object_rest(depth, decode);
        }
        if ch == 0x5b {
            return self.parse_array_rest(depth, decode);
        }
        let m = message_ending_with_byte("expected value, got ", ch);
        self.fail_json(m)
    }

    /// The rest of an object whose `{` was just read.
    #[verifier::rlimit(60)]
    fn parse_object_rest<F: Fn(&[u8]) -> u64>(&mut self, depth: i32, decode: &F) -> (r: Json)
        requires
            old(self).wf(),
            !old(self).failed,
            decoder_ready(*decode),
            depth <= MAX_DEPTH,
        ensures
            final(self).wf(),
            final(self).same_input(old(self)),
            match object_after_brace(
                old(self).bytes@,
                old(self).i as int,
                depth as int,
                old(self).strategy,
                decoder(*decode),
            ) {
                Ok((v, q)) => r@ == v && JsonParser::moved(old(self), final(self), q) && q > old(self).i,
                Err(e) => r@ == JsonValue::Null && JsonParser::failed_with(old(self), final(self), e),
            },
        decreases old(self).bytes@.len() - old(self).i, 0int,
    {
        let ghost s = self.bytes@;
        let ghost j0 = self.i as int;
        let ghost st = self.strategy;
        let ghost dec = decoder(*decode);
        let ghost target = object_after_brace(s, j0, depth as int, st, dec);
        let mut data = JsonObject::new();
        proof {
            lemma_next_token(s, j0, st);
        }
        let mut c = self.get_next_token();
        if c == 0x7d {
            return Json::Object(data);
        }
        if self.failed {
            return Json::Null;
        }
        loop
            invariant_except_break
                !self.failed,
                j0 == old(self).i,
                s == old(self).bytes@,
                JsonParser::moved(old(self), self, self.i as int),
                s == self.bytes@,
                st == self.strategy,
                dec == decoder(*decode),
                self.wf(),
                decoder_ready(*decode),
                depth <= MAX_DEPTH,
                self.i > j0,
                object_members(s, c, self.i as int, depth as int, st, dec, data.model()) == target,
            ensures
                self.wf(),
                self.same_input(old(self)),
                match target {
                    Ok((v, q)) => !self.failed && v == JsonValue::Object(data.model())
                        && JsonParser::moved(old(self), self, q) && q > j0,
                    Err(e) => JsonParser::failed_with(old(self), self, e),
                },
            decreases self.bytes@.len() - self.i,
        {
            let ghost k = self.i as int;
            if c != 0x22 {
                let m = message_ending_with_byte("expected '\"' in object, got ", c);
                self.fail_str(m);
                break;
            }
            proof {
                lemma_string_body(s, k, Seq::empty(), -1);
            }
            let key = self.parse_string();
            if self.failed {
                break;
            }
            let ghost e1 = self.i as int;
            proof {
                lemma_next_token(s, e1, st);
            }
            c = self.get_next_token();
            if c != 0x3a {
                let m = message_ending_with_byte("expected ':' in object, got ", c);
                self.fail_str(m);
                break;
            }
            let ghost e2 = self.i as int;
            let value = self.parse_json(depth + 1, decode);
            if self.failed {
                break;
            }
            let ghost q = self.i as int;
            data.insert(key, value);
            proof {
                lemma_next_token(s, q, st);
            }
            c = self.get_next_token();
            if c == 0x7d {
                break;
            }
            if c != 0x2c {
                let m = message_ending_with_byte("expected ',' in object, got ", c);
                self.fail_str(m);
                break;
            }
            let ghost r = self.i as int;
            proof {
                lemma_next_token(s, r, st);
            }
            c = self.get_next_token();
            if self.failed {
                break;
            }
        }
        if self.failed {
            return Json::Null;
        }
        Json::Object(data)
    }

    /// The rest of an array whose `[` was just read.
    #[verifier::rlimit(60)]
    fn parse_array_rest<F: Fn(&[u8]) -> u64>(&mut self, depth: i32, decode: &F) -> (r: Json)
        requires
            old(self).wf(),
            !old(self).failed,
            decoder_ready(*decode),
            depth <= MAX_DEPTH,
        ensures
            final(self).wf(),
            final(self).same_input(old(self)),
            match array_after_bracket(
                old(self).bytes@,
                old(self).i as int,
                depth as int,
                old(self).strategy,
                decoder(*decode),
            ) {
                Ok((v, q)) => r@ == v && JsonParser::moved(old(self), final(self), q) && q > old(self).i,
                Err(e) => r@ == JsonValue::Null && JsonParser::failed_with(old(self), final(self), e),
            },
        decreases old(self).bytes@.len() - old(self).i, 2int,
    {
        let ghost s = self.bytes@;
        let ghost j0 = self.i as int;
        let ghost st = self.strategy;
        let ghost dec = decoder(*decode);
        let ghost target = array_after_bracket(s, j0, depth as int, st, dec);
        let mut data: Vec<Json> = Vec::new();
        proof {
            lemma_next_token(s, j0, st);
        }
        let c = self.get_next_token();
        assert(models(data@) =~= Seq::<JsonValue>::empty());
        if c == 0x5d {
            proof {
                lemma_array_model(data);
                assert(models(data@) =~= Seq::<JsonValue>::empty());
            }
            return Json::Array(data);
        }
        if self.failed {
            return Json::Null;
        }
        loop
            invariant_except_break
                !self.failed,
                j0 == old(self).i,
                s == old(self).bytes@,
                JsonParser::moved(old(self), self, self.i as int),
                s == self.bytes@,
                st == self.strategy,
                dec == decoder(*decode),
                self.wf(),
                decoder_ready(*decode),
                depth <= MAX_DEPTH,
                self.i > j0,
                array_items(s, self.i - 1, depth as int, st, dec, models(data@)) == target,
            ensures
                self.wf(),
                self.same_input(old(self)),
                match target {
                    Ok((v, q)) => !self.failed && v == JsonValue::Array(models(data@))
                        && JsonParser::moved(old(self), self, q) && q > j0,
                    Err(e) => JsonParser::failed_with(old(self), self, e),
                },
            decreases self.bytes@.len() - self.i,
        {
            self.i = self.i - 1;
            let ghost p = self.i as int;
            assert(p >= j0);
            let value = self.parse_json(depth + 1, decode);
            if self.failed {
                break;
            }
            let ghost q = self.i as int;
            let ghost before = data@;
            data.push(value);
            assert(models(data@) =~= models(before).push(value@));
            proof {
                lemma_next_token(s, q, st);
            }
            let c = self.get_next_token();
            if c == 0x5d {
                break;
            }
            if c != 0x2c {
                let m = message_ending_with_byte("expected ',' in list, got ", c);
                self.fail_str(m);
                break;
            }
            let ghost r = self.i as int;
            proof {
                lemma_next_token(s, r, st);
            }
            let _ = self.get_next_token();
            if self.failed {
                break;
            }
        }
        if self.failed {
            return Json::Null;
        }
        proof {
            lemma_array_model(data);
        }
        Json::Array(data)
    }
}


impl Json {
    /// Parse `input` as a single JSON value; `decode` gives the value of each
    /// number from its text.
    pub fn parse<F: Fn(&[u8]) -> u64>(input: &str, strategy: JsonParse, decode: &F) -> (r: Result<
        Json,
        String,
    >)
        requires
            decoder_ready(*decode),
        ensures
            match parse_document(literal_bytes(input@), strategy, decoder(*decode)) {
                Ok(v) => r matches Ok(j) && j@ == v,
                Err(e) => r matches Err(m) && m@ == e,
            },
    {
        let mut parser = JsonParser::new(input.as_bytes(), strategy);
        let result = parser.parse_json(0, decode);
        // Check for any trailing garbage.
        let ghost q = parser.i as int;
        parser.consume_garbage();
        if parser.failed {
            return Err(parser.err);
        }
        if parser.i != parser.bytes.len() {
            let c = parser.at(parser.i);
            let msg = message_ending_with_byte("unexpected trailing ", c);
            parser.fail_str(msg);
            return Err(parser.err);
        }
        Ok(result)
    }

    /// Parse several JSON values, concatenated or separated by whitespace.
    ///
    /// Returns the values read, the position at which parsing stopped (after
    /// the last value read whole), and either `Ok(())` or the first error; a
    /// value whose reading failed is returned as `null`.
    pub fn parse_multi<F: Fn(&[u8]) -> u64>(input: &str, strategy: JsonParse, decode: &F) -> (r: (
        Vec<Json>,
        usize,
        Result<(), String>,
    ))
        requires
            decoder_ready(*decode),
        ensures
            ({
                let (values, stop, res) = parse_values(literal_bytes(input@), strategy, decoder(*decode));
                &&& models(r.0@) == values
                &&& r.1 == stop
                &&& match res {
                    Ok(()) => r.2 is Ok,
                    Err(e) => r.2 matches Err(m) && m@ == e,
                }
            }),
    {
        let mut parser = JsonParser::new(input.as_bytes(), strategy);
        let ghost s = parser.bytes@;
        let ghost dec = decoder(*decode);
        let ghost target = parse_values(s, strategy, dec);
        let mut stop_pos: usize = 0;
        let mut json_vec: Vec<Json> = Vec::new();
        assert(models(json_vec@) =~= Seq::<JsonValue>::empty());
        while parser.i != parser.bytes.len() && !parser.failed
            invariant_except_break
                !parser.failed,
                parser.wf(),
                parser.bytes@ == s,
                parser.strategy == strategy,
                dec == decoder(*decode),
                decoder_ready(*decode),
                stop_pos <= s.len(),
                parse_values_from(s, parser.i as int, strategy, dec, models(json_vec@), stop_pos as int)
                    == target,
            ensures
                parser.wf(),
                models(json_vec@) == target.0,
                stop_pos == target.1,
                parser.failed <==> target.2 is Err,
                target.2 matches Err(e) ==> parser.err@ == e,
            decreases s.len() - parser.i,
        {
            let ghost i = parser.i as int;
            let value = parser.parse_json(0, decode);
            let ghost before = json_vec@;
            json_vec.push(value);
            assert(models(json_vec@) =~= models(before).push(value@));
            if parser.failed {
                break;
            }
            let ghost q = parser.i as int;
            proof {
                lemma_skip_garbage(s, q, strategy);
            }
            // Check for another value.
            parser.consume_garbage();
            if parser.failed {
                break;
            }
            stop_pos = parser.i;
        }
        let res = if parser.failed {
            Err(parser.err)
        } else {
            Ok(())
        };
        (json_vec, stop_pos, res)
    }
}

} // verus!

use std::cmp::Ordering;

use lib::text::{esc, exponent_text, fixed_precision, strip_trailing_zeros};
use lib::{Json, JsonObject, JsonParse, JsonParser, Type};

/// The value of a number's text, as a binary64 bit pattern.
fn decode(text: &[u8]) -> u64 {
    std::str::from_utf8(text).unwrap().parse::<f64>().unwrap().to_bits()
}

/// `printf("%.17g", value)` for a finite `value`.
fn format_g17(value: f64) -> String {
    let p: i32 = 17;
    let sci = format!("{:.*e}", (p - 1) as usize, value);
    let (mantissa, exp_str) = sci.split_once('e').unwrap();
    let exp: i32 = exp_str.parse().unwrap();
    if !(-4..p).contains(&exp) {
        let mantissa = strip_trailing_zeros(mantissa);
        let sign = if exp < 0 { '-' } else { '+' };
        format!("{}e{}{:02}", mantissa, sign, exp.abs())
    } else {
        let prec = (p - 1 - exp).max(0) as usize;
        strip_trailing_zeros(&format!("{:.*}", prec, value))
    }
}

fn format17(bits: u64) -> Vec<u8> {
    format_g17(f64::from_bits(bits)).into_bytes()
}

fn dump(j: &Json) -> String {
    String::from_utf8(j.dump(&format17)).unwrap()
}

fn num(v: f64) -> Json {
    Json::from_bits(v.to_bits())
}

fn parse_std(input: &str) -> Result<Json, String> {
    Json::parse(input, JsonParse::Standard, &decode)
}

fn parse_comments(input: &str) -> Result<Json, String> {
    Json::parse(input, JsonParse::Comments, &decode)
}

fn parse_error(input: &str) -> String {
    parse_std(input).expect_err("input should be rejected")
}

fn object(items: Vec<(&str, Json)>) -> Json {
    Json::object(items.into_iter().map(|(k, v)| (k.to_string(), v)).collect())
}

#[test]
fn empty_input_is_an_error() {
    assert_eq!(parse_error(""), "unexpected end of input");
    assert_eq!(parse_error(" \t\r\n"), "unexpected end of input");
    assert_eq!(parse_error("[1,"), "unexpected end of input");
    assert_eq!(parse_error("{\"a\":1,"), "unexpected end of input");
}

#[test]
fn structural_errors() {
    assert_eq!(parse_error("[1,]"), "expected value, got ']' (93)");
    assert_eq!(parse_error("{\"a\" 1}"), "expected ':' in object, got '1' (49)");
    assert_eq!(parse_error("{1:2}"), "expected '\"' in object, got '1' (49)");
    assert_eq!(
        parse_error("{\"a\":1 \"b\":2}"),
        "expected ',' in object, got '\"' (34)"
    );
    assert_eq!(parse_error("[1 2]"), "expected ',' in list, got '2' (50)");
    assert_eq!(parse_error("[1] x"), "unexpected trailing 'x' (120)");
    assert_eq!(parse_error("\u{e9}"), "expected value, got (-61)");
}

#[test]
fn number_errors() {
    assert_eq!(parse_error("01"), "leading 0s not permitted in numbers");
    assert_eq!(parse_error("-"), "invalid (0) in number");
    assert_eq!(parse_error("-a"), "invalid 'a' (97) in number");
    assert_eq!(parse_error("1."), "at least one digit required in fractional part");
    assert_eq!(parse_error("1e"), "at least one digit required in exponent");
    assert_eq!(parse_error("1e+"), "at least one digit required in exponent");
}

#[test]
fn literal_errors() {
    assert_eq!(parse_error("tru"), "parse error: expected true, got tru");
    assert_eq!(parse_error("nul!"), "parse error: expected null, got nul!");
    assert_eq!(parse_error("fals"), "parse error: expected false, got fals");
}

#[test]
fn string_errors() {
    assert_eq!(parse_error("\"abc"), "unexpected end of input in string");
    assert_eq!(parse_error("\"abc\\"), "unexpected end of input in string");
    assert_eq!(parse_error("\"a\nb\""), "unescaped (10) in string");
    assert_eq!(parse_error("\"\\x\""), "invalid escape character 'x' (120)");
    assert_eq!(parse_error("\"\\u12\""), "bad \\u escape: 12\"");
    assert_eq!(parse_error("\"\\u12G4\""), "bad \\u escape: 12G4");
    // The escape's bytes are shown with invalid UTF-8 replaced.
    assert_eq!(parse_error("\"\\u12\u{20ac}"), "bad \\u escape: 12\u{fffd}");
}

#[test]
fn comment_errors() {
    assert_eq!(
        parse_comments("/").unwrap_err(),
        "unexpected end of input after start of comment"
    );
    assert_eq!(parse_comments("1 /x").unwrap_err(), "malformed comment");
    assert_eq!(
        parse_comments("/* abc").unwrap_err(),
        "unexpected end of input inside multi-line comment"
    );
    assert_eq!(parse_comments("// c\n 5").unwrap(), Json::from(5));
    assert_eq!(parse_error("// c\n 5"), "expected value, got '/' (47)");
}

#[test]
fn escapes_decode() {
    let s = parse_std(r#""a\"\\\/\b\f\n\r\t""#).unwrap();
    assert_eq!(s.string_value(), b"a\"\\/\x08\x0c\n\r\t");
    let pair = parse_std(r#""\ud83d\ude00""#).unwrap();
    assert_eq!(pair.string_value(), &[0xf0, 0x9f, 0x98, 0x80]);
    let lone = parse_std(r#""\ud800""#).unwrap();
    assert_eq!(lone.string_value(), &[0xed, 0xa0, 0x80]);
    let two_byte = parse_std(r#""\u00e9""#).unwrap();
    assert_eq!(two_byte.string_value(), "\u{e9}".as_bytes());
}

#[test]
fn dump_escapes_strings() {
    let s = Json::from_bytes(b"a\"\\\x08\x0c\n\r\t\x01\x1f/");
    assert_eq!(dump(&s), r#""a\"\\\b\f\n\r\t\u0001\u001f/""#);
    let seps = Json::from("x\u{2028}y\u{2029}z");
    assert_eq!(dump(&seps), r#""x\u2028y\u2029z""#);
    assert_eq!(dump(&Json::from("\u{e9}")), "\"\u{e9}\"");
}

#[test]
fn dump_numbers() {
    assert_eq!(dump(&num(0.5)), "0.5");
    assert_eq!(dump(&num(-2.0)), "-2");
    assert_eq!(dump(&num(1e20)), "1e+20");
    assert_eq!(dump(&num(f64::NAN)), "null");
    assert_eq!(dump(&num(f64::INFINITY)), "null");
    assert_eq!(dump(&num(f64::NEG_INFINITY)), "null");
}

#[test]
fn dump_then_parse_gives_the_value_back() {
    let value = object(vec![
        ("z", Json::array(vec![Json::Null, Json::from(true), num(-1.25), num(3e-7)])),
        ("a", Json::from_bytes(b"tab\there \"quoted\" \x01 \xe2\x80\xa8")),
        ("m", object(vec![("inner", Json::array(Vec::new())), ("e", object(Vec::new()))])),
    ]);
    let text = dump(&value);
    assert_eq!(parse_std(&text).unwrap(), value);
    assert_eq!(parse_comments(&text).unwrap(), value);
}

#[test]
fn parse_keeps_last_duplicate_key_and_sorts_keys() {
    let json = parse_std(r#"{"b": 1, "a": 2, "b": 3}"#).unwrap();
    assert_eq!(dump(&json), r#"{"a": 2, "b": 3}"#);
    assert_eq!(json.object_items().len(), 2);
}

#[test]
fn int_value_truncates_and_saturates() {
    assert_eq!(num(3.99).int_value(), 3);
    assert_eq!(num(-3.99).int_value(), -3);
    assert_eq!(num(1e20).int_value(), i32::MAX);
    assert_eq!(num(-1e20).int_value(), i32::MIN);
    assert_eq!(num(f64::NAN).int_value(), 0);
    assert_eq!(Json::from(true).int_value(), 0);
    assert_eq!(Json::from(-7).int_value(), -7);
}

#[test]
fn accessor_fallbacks() {
    assert!(!Json::Null.bool_value());
    assert!(Json::from(true).bool_value());
    assert_eq!(Json::from(1).string_value(), b"");
    assert!(Json::from(1).array_items().is_empty());
    assert!(Json::from(1).object_items().is_empty());
    assert!(Json::from(1).get(0).is_null());
    assert!(Json::from(1).get_key("a").is_null());
    let arr = Json::from(vec![5, 6]);
    assert_eq!(arr.get(1).int_value(), 6);
    assert!(arr.get(2).is_null());
}

#[test]
fn type_tags() {
    assert_eq!(Json::Null.json_type(), Type::Null);
    assert_eq!(num(1.0).json_type(), Type::Number);
    assert_eq!(Json::from(false).json_type(), Type::Bool);
    assert_eq!(Json::from("s").json_type(), Type::Str);
    assert_eq!(Json::array(Vec::new()).json_type(), Type::Array);
    assert_eq!(Json::object(Vec::new()).json_type(), Type::Object);
    assert!(Json::Null.is_null() && num(1.0).is_number() && Json::from(true).is_bool());
    assert!(Json::from("s").is_string());
    assert!(Json::array(Vec::new()).is_array() && Json::object(Vec::new()).is_object());
}

#[test]
fn equality_of_numbers() {
    assert_ne!(num(f64::NAN), num(f64::NAN));
    assert_eq!(num(0.0), num(-0.0));
    assert_ne!(num(1.0), Json::from(true));
    assert_ne!(Json::Null, Json::from(false));
    assert_eq!(Json::from(vec![1, 2]), Json::array(vec![num(1.0), num(2.0)]));
}

#[test]
fn ordering_across_and_within_types() {
    let ordered = [
        Json::Null,
        num(-1.0),
        Json::from(false),
        Json::from(true),
        Json::from("a"),
        Json::from("b"),
        Json::from(vec![1]),
        Json::from(vec![1, 0]),
        Json::from(vec![2]),
        object(vec![("a", Json::from(1))]),
        object(vec![("a", Json::from(2))]),
        object(vec![("b", Json::from(0))]),
    ];
    for i in 0..ordered.len() {
        for j in 0..ordered.len() {
            let expected = i.cmp(&j);
            assert_eq!(ordered[i].cmp(&ordered[j]), expected, "{} vs {}", i, j);
        }
    }
    assert!(Json::Null < num(0.0));
    // A NaN compares as equal in the ordering, though not under `==`.
    assert_eq!(num(f64::NAN).cmp(&num(1.0)), Ordering::Equal);
    assert_eq!(num(0.0).partial_cmp(&num(-0.0)), Some(Ordering::Equal));
}

#[test]
fn has_shape_messages() {
    let obj = object(vec![("n", Json::from(1)), ("s", Json::from("x"))]);
    assert_eq!(
        obj.has_shape(&[("n".to_string(), Type::Number), ("s".to_string(), Type::Str)], &format17),
        Ok(())
    );
    assert_eq!(
        obj.has_shape(&[("s".to_string(), Type::Number)], &format17),
        Err(r#"bad type for s in {"n": 1, "s": "x"}"#.to_string())
    );
    assert_eq!(
        obj.has_shape(&[("q".to_string(), Type::Null)], &format17),
        Err(r#"bad type for q in {"n": 1, "s": "x"}"#.to_string())
    );
    assert_eq!(
        Json::from(vec![1]).has_shape(&[], &format17),
        Err("expected JSON object, got [1]".to_string())
    );
    assert_eq!(obj.has_shape(&[], &format17), Ok(()));
}

#[test]
fn parse_multi_reports_values_and_stop() {
    let (values, stop, res) = Json::parse_multi("1 [2] {\"a\":3}  ", JsonParse::Standard, &decode);
    assert_eq!(values.len(), 3);
    assert_eq!(values[0], Json::from(1));
    assert_eq!(values[1], Json::from(vec![2]));
    assert_eq!(values[2], object(vec![("a", Json::from(3))]));
    assert_eq!(stop, 15);
    assert!(res.is_ok());

    let (values, stop, res) = Json::parse_multi("1 2 x", JsonParse::Standard, &decode);
    assert_eq!(values.len(), 3);
    assert!(values[2].is_null());
    assert_eq!(stop, 4);
    assert_eq!(res, Err("expected value, got 'x' (120)".to_string()));

    let (values, stop, res) = Json::parse_multi("", JsonParse::Standard, &decode);
    assert!(values.is_empty());
    assert_eq!(stop, 0);
    assert!(res.is_ok());
}

#[test]
fn depth_limit_is_two_hundred_levels() {
    let ok = format!("{}{}", "[".repeat(201), "]".repeat(201));
    assert!(parse_std(&ok).is_ok());
    let too_deep = format!("{}{}", "[".repeat(202), "]".repeat(202));
    assert_eq!(parse_error(&too_deep), "exceeded maximum nesting depth");
}

#[test]
fn object_map_operations() {
    let mut o = JsonObject::new();
    assert_eq!(o.len(), 0);
    o.insert(b"b".to_vec(), Json::from(1));
    o.insert(b"a".to_vec(), Json::from(2));
    o.insert(b"b".to_vec(), Json::from(3));
    assert_eq!(o.len(), 2);
    assert_eq!(o.entries()[0].0, b"a".to_vec());
    assert_eq!(o.entries()[1].1, Json::from(3));
    assert_eq!(o.get(b"a"), Some(&Json::from(2)));
    assert_eq!(o.get(b"c"), None);
}

#[test]
fn text_helpers() {
    assert_eq!(esc(b'a'), "'a' (97)");
    assert_eq!(esc(0x7f), "'\u{7f}' (127)");
    assert_eq!(esc(0x0a), "(10)");
    assert_eq!(esc(0xc3), "(-61)");
    assert_eq!(strip_trailing_zeros("1.500"), "1.5");
    assert_eq!(strip_trailing_zeros("2.000"), "2");
    assert_eq!(strip_trailing_zeros("100"), "100");
}

#[test]
fn clone_and_default() {
    let value = object(vec![("k", Json::from(vec![1, 2]))]);
    assert_eq!(value.clone(), value);
    assert_eq!(Json::default(), Json::Null);
}

#[test]
fn conversions_from_strings() {
    let owned = String::from("v\u{e9}");
    assert_eq!(Json::from(&owned), Json::from("v\u{e9}"));
    assert_eq!(Json::from(owned.clone()).string_value(), owned.as_bytes());
}

#[test]
fn parser_positions_after_tokens_and_failures() {
    let mut p = JsonParser::new(b" \t\r\n[", JsonParse::Standard);
    assert_eq!(p.get_next_token(), b'[');
    assert_eq!(p.i, 5);
    assert!(!p.failed());

    let mut p = JsonParser::new(b"/* c */ 7", JsonParse::Comments);
    assert_eq!(p.get_next_token(), b'7');
    assert_eq!(p.i, 9);
    assert!(!p.failed());

    let mut p = JsonParser::new(b" \n ", JsonParse::Standard);
    assert_eq!(p.get_next_token(), 0);
    assert_eq!(p.i, 3);
    assert!(p.failed());
    assert_eq!(p.err, "unexpected end of input");

    let cases: [(&[u8], &str, Json); 3] = [
        (b"falsey", "false", Json::Bool(false)),
        (b"tru", "true", Json::Bool(true)),
        (b"nul]", "null", Json::Null),
    ];
    let mut p = JsonParser::new(cases[0].0, JsonParse::Standard);
    p.get_next_token();
    assert_eq!(p.expect(cases[0].1, cases[0].2.clone()), Json::Bool(false));
    assert_eq!(p.i, 5);
    assert!(!p.failed());
    let mut p = JsonParser::new(cases[1].0, JsonParse::Standard);
    p.get_next_token();
    assert_eq!(p.expect(cases[1].1, cases[1].2.clone()), Json::Null);
    assert_eq!(p.i, 0);
    assert_eq!(p.err, "parse error: expected true, got tru");
    let mut p = JsonParser::new(cases[2].0, JsonParse::Standard);
    p.get_next_token();
    assert_eq!(p.expect(cases[2].1, cases[2].2.clone()), Json::Null);
    assert_eq!(p.i, 0);
    assert_eq!(p.err, "parse error: expected null, got nul]");

    // A failed parser still skips whitespace, and one comment when allowed.
    let mut p = JsonParser::new(b"  /* a */ x", JsonParse::Comments);
    p.fail_str("earlier".to_string());
    p.consume_garbage();
    assert_eq!(p.i, 9);
    assert_eq!(p.err, "earlier");
    let mut p = JsonParser::new(b"   x", JsonParse::Standard);
    p.fail_str("earlier".to_string());
    p.consume_garbage();
    assert_eq!(p.i, 3);

    // A comment error leaves the position where the error was found.
    let mut p = JsonParser::new(b" /x", JsonParse::Comments);
    p.consume_garbage();
    assert_eq!(p.i, 2);
    assert_eq!(p.err, "malformed comment");
    let mut p = JsonParser::new(b"/* abc", JsonParse::Comments);
    p.consume_garbage();
    assert_eq!(p.i, 5);
    assert_eq!(p.err, "unexpected end of input inside multi-line comment");
}

#[test]
fn comments_allowed_read_standard_documents_the_same() {
    for text in ["[1, {\"a\": \"/\"}]", " 3 ", "{\"k\": [true, null]}"] {
        assert_eq!(parse_std(text).unwrap(), parse_comments(text).unwrap());
    }
}

#[test]
fn g17_style_helpers() {
    assert_eq!(fixed_precision(0), Some(16));
    assert_eq!(fixed_precision(16), Some(0));
    assert_eq!(fixed_precision(-4), Some(20));
    assert_eq!(fixed_precision(-5), None);
    assert_eq!(fixed_precision(17), None);
    assert_eq!(exponent_text("1.0000000000000000", 20), "1e+20");
    assert_eq!(exponent_text("2.5000", -7), "2.5e-07");
    assert_eq!(exponent_text("1.5", 123), "1.5e+123");
    assert_eq!(exponent_text("3", 0), "3e+00");
}

#[test]
fn surrounding_whitespace_changes_nothing() {
    for text in ["[1, 2]", "\"s\"", "{\"a\": null}", "12", "tru", "[1,", "01"] {
        let padded = format!(" \n\t{}\r\n  ", text);
        match parse_std(text) {
            Ok(v) => assert_eq!(parse_std(&padded).unwrap(), v),
            Err(_) => assert!(parse_std(&padded).is_err()),
        }
        match parse_comments(text) {
            Ok(v) => assert_eq!(parse_comments(&padded).unwrap(), v),
            Err(_) => assert!(parse_comments(&padded).is_err()),
        }
    }
    assert_eq!(parse_comments("1 // note").unwrap(), Json::from(1));
    assert_eq!(parse_comments("1 // note\n  ").unwrap(), Json::from(1));
}

#[test]
fn conversions_from_sets_and_slices() {
    let set: std::collections::BTreeSet<i32> = [3, -1, 2].into_iter().collect();
    assert_eq!(dump(&Json::from(set)), "[-1, 2, 3]");
    let empty: std::collections::BTreeSet<i32> = std::collections::BTreeSet::new();
    assert_eq!(Json::from(empty), Json::array(Vec::new()));
    let flags = [true, false];
    assert_eq!(dump(&Json::from(&flags[..])), "[true, false]");
    let nums: Vec<i32> = vec![7, 8];
    assert_eq!(Json::from(nums.as_slice()), Json::from(vec![7, 8]));
}

#[test]
fn parse_multi_agrees_with_parse() {
    for text in ["[1, {\"a\": 2}]", " 3 ", "\"x\""] {
        let one = parse_std(text).unwrap();
        let (values, stop, res) = Json::parse_multi(text, JsonParse::Standard, &decode);
        assert_eq!(values, vec![one]);
        assert_eq!(stop, text.len());
        assert!(res.is_ok());
    }
    for text in ["", "1 2", "1 x", "[1"] {
        let (values, stop, res) = Json::parse_multi(text, JsonParse::Standard, &decode);
        assert!(stop <= text.len());
        assert_eq!(res.is_ok(), stop == text.len());
        assert_eq!(values.is_empty(), text.is_empty());
    }
}

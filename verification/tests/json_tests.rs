use std::collections::{BTreeMap, BTreeSet, HashMap};

use lib::text::strip_trailing_zeros;
use lib::{Json, JsonParse, ToJson, Type};

/// The value of a number's text, as a binary64 bit pattern.
fn decode(text: &[u8]) -> u64 {
    std::str::from_utf8(text).unwrap().parse::<f64>().unwrap().to_bits()
}

/// `printf("%.17g", value)` for a finite `value`.
fn format_g17(value: f64) -> String {
    let p: i32 = 17;
    let sci = format!("{:.*e}", (p - 1) as usize, value);
    let (mantissa, exp_str) = sci.split_once('e').unwrap();
    let exp: i32 = exp_str.parse().unwrap();
    if !(-4..p).contains(&exp) {
        let mantissa = strip_trailing_zeros(mantissa);
        let sign = if exp < 0 { '-' } else { '+' };
        format!("{}e{}{:02}", mantissa, sign, exp.abs())
    } else {
        let prec = (p - 1 - exp).max(0) as usize;
        strip_trailing_zeros(&format!("{:.*}", prec, value))
    }
}

fn format17(bits: u64) -> Vec<u8> {
    format_g17(f64::from_bits(bits)).into_bytes()
}

fn dump(j: &Json) -> String {
    String::from_utf8(j.dump(&format17)).unwrap()
}

fn num(v: f64) -> Json {
    Json::from_bits(v.to_bits())
}

fn parse_std(input: &str) -> Result<Json, String> {
    Json::parse(input, JsonParse::Standard, &decode)
}

fn parse_comments(input: &str) -> Result<Json, String> {
    Json::parse(input, JsonParse::Comments, &decode)
}

fn object(items: Vec<(&str, Json)>) -> Json {
    Json::object(items.into_iter().map(|(k, v)| (k.to_string(), v)).collect())
}

#[test]
fn simple_parse_and_accessors() {
    let simple_test = r#"{"k1":"v1", "k2":42, "k3":["a",123,true,false,null]}"#;
    let json = parse_std(simple_test).expect("valid json");

    assert_eq!(json["k1"].string_value(), b"v1");
    assert_eq!(dump(&json["k3"]), r#"["a", 123, true, false, null]"#);

    let items = json["k3"].array_items();
    assert_eq!(items.len(), 5);
    assert_eq!(dump(&items[0]), r#""a""#);
    assert_eq!(items[4], Json::Null);

    // Missing keys / out-of-range indices fall back to Null.
    assert!(json["missing"].is_null());
    assert!(json["k3"][99].is_null());
}

#[test]
fn comment_parsing_success() {
    let comment_test = r#"{
      // comment /* with nested comment */
      "a": 1,
      // comment
      // continued
      "b": "text",
      /* multi
         line
         comment
        // line-comment-inside-multiline-comment
      */
      // and single-line comment
      // and single-line comment /* multiline inside single line */
      "c": [1, 2, 3]
      // and single-line comment at end of object
    }"#;
    let json = parse_comments(comment_test).expect("comments should parse");
    assert!(!json.is_null());

    let json = parse_comments("{\"a\": 1}//trailing line comment").expect("ok");
    assert!(!json.is_null());

    let json = parse_comments("{\"a\": 1}/*trailing multi-line comment*/").expect("ok");
    assert!(!json.is_null());
}

#[test]
fn comment_parsing_failures() {
    let cases = [
        "{\n/* unterminated comment\n\"a\": 1,\n}",
        "{\n/* unterminated trailing comment }",
        "{\n/ / bad comment }",
        "{// bad comment }",
        "{\n\"a\": 1\n}/",
        "{/* bad\ncomment *}",
    ];
    for case in cases {
        let res = parse_comments(case);
        assert!(res.is_err(), "expected failure for {:?}", case);
    }
}

#[test]
fn container_conversions_are_equal() {
    let l1: Vec<i32> = vec![1, 2, 3];
    let l2: Vec<i32> = vec![1, 2, 3];
    let l3: BTreeSet<i32> = [1, 2, 3].into_iter().collect();

    assert_eq!(Json::from(l1), Json::from(l2.clone()));
    assert_eq!(
        Json::from(l2),
        Json::from(l3)
    );

    let m1: BTreeMap<String, String> = [("k1", "v1"), ("k2", "v2")]
        .into_iter()
        .map(|(k, v)| (k.to_string(), v.to_string()))
        .collect();
    let m2: HashMap<String, String> = [("k1", "v1"), ("k2", "v2")]
        .into_iter()
        .map(|(k, v)| (k.to_string(), v.to_string()))
        .collect();
    assert_eq!(
        Json::object(m1.into_iter().map(|(k, v)| (k, Json::from(v))).collect()),
        Json::object(m2.into_iter().map(|(k, v)| (k, Json::from(v))).collect())
    );
}

fn make_obj() -> Json {
    object(vec![
        ("k1", Json::from("v1")),
        ("k2", num(42.0)),
        (
            "k3",
            Json::array(vec![
                Json::from("a"),
                num(123.0),
                Json::from(true),
                Json::from(false),
                Json::Null,
            ]),
        ),
    ])
}

#[test]
fn object_literal_dump() {
    let obj = make_obj();
    assert_eq!(
        dump(&obj),
        r#"{"k1": "v1", "k2": 42, "k3": ["a", 123, true, false, null]}"#
    );
}

#[test]
fn fallback_accessors() {
    assert_eq!(f64::from_bits(Json::from("a").number_bits()), 0.0);
    assert_eq!(Json::from("a").string_value(), b"a");
    assert_eq!(f64::from_bits(Json::Null.number_bits()), 0.0);
}

#[test]
fn equality_and_number_unification() {
    let simple_test = r#"{"k1":"v1", "k2":42, "k3":["a",123,true,false,null]}"#;
    let json = parse_std(simple_test).expect("valid json");

    assert_eq!(make_obj(), json);
    assert_eq!(Json::from(42), num(42.0));
    assert_ne!(Json::from(42), num(42.1));
}

#[test]
fn unicode_escape_roundtrip() {
    let unicode_escape_test = r#"[ "blah\ud83d\udca9blah\ud83dblah\udca9blah\u0000blah\u1234" ]"#;

    let mut expected: Vec<u8> = Vec::new();
    expected.extend_from_slice(b"blah");
    expected.extend_from_slice(&[0xf0, 0x9f, 0x92, 0xa9]);
    expected.extend_from_slice(b"blah");
    expected.extend_from_slice(&[0xed, 0xa0, 0xbd]);
    expected.extend_from_slice(b"blah");
    expected.extend_from_slice(&[0xed, 0xb2, 0xa9]);
    expected.extend_from_slice(b"blah");
    expected.push(0x00);
    expected.extend_from_slice(b"blah");
    expected.extend_from_slice(&[0xe1, 0x88, 0xb4]);

    let uni = parse_std(unicode_escape_test).expect("valid json");
    let s = uni[0].string_value();
    assert_eq!(s.len(), expected.len());
    assert_eq!(s, expected.as_slice());
}

#[test]
fn parse_multi_cases() {
    let good_json = r#" {"k1" : "v1"}"#;
    let bad_json1 = format!("{} {{", good_json);
    let bad_json2 = format!("{}{}", good_json, r#"{"k2":"v2", "k3":["#);

    let expect_kv = object(vec![("k1", Json::from("v1"))]);

    struct Case {
        input: String,
        stop_pos: usize,
        not_empty: usize,
        res: Json,
    }

    let cases = [
        Case {
            input: " {".to_string(),
            stop_pos: 0,
            not_empty: 0,
            res: Json::Null,
        },
        Case {
            input: good_json.to_string(),
            stop_pos: good_json.len(),
            not_empty: 1,
            res: expect_kv.clone(),
        },
        Case {
            input: bad_json1,
            stop_pos: good_json.len() + 1,
            not_empty: 1,
            res: expect_kv.clone(),
        },
        Case {
            input: bad_json2,
            stop_pos: good_json.len(),
            not_empty: 1,
            res: expect_kv.clone(),
        },
        Case {
            input: "{}".to_string(),
            stop_pos: 2,
            not_empty: 1,
            res: Json::object(Vec::new()),
        },
    ];

    for case in cases {
        let (res, stop_pos, _res) = Json::parse_multi(&case.input, JsonParse::Standard, &decode);
        assert_eq!(stop_pos, case.stop_pos, "stop_pos for {:?}", case.input);
        let not_empty = res.iter().filter(|j| !j.is_null()).count();
        assert_eq!(not_empty, case.not_empty, "count for {:?}", case.input);
        if !res.is_empty() {
            assert_eq!(res[0], case.res, "res[0] for {:?}", case.input);
        }
    }
}

#[test]
fn nested_object_dump() {
    let my_json = object(vec![
        ("key1", Json::from("value1")),
        ("key2", Json::from(false)),
        ("key3", Json::from(vec![1, 2, 3])),
    ]);
    assert_eq!(
        dump(&my_json),
        r#"{"key1": "value1", "key2": false, "key3": [1, 2, 3]}"#
    );
}

#[derive(Clone)]
struct Point {
    x: i32,
    y: i32,
}

impl ToJson for Point {
    fn to_json(&self) -> Json {
        Json::from(vec![self.x, self.y])
    }
}

#[test]
fn user_defined_to_json() {
    assert_eq!(dump(&Point { x: 1, y: 2 }.to_json()), "[1, 2]");

    let points = vec![
        Point { x: 1, y: 2 },
        Point { x: 10, y: 20 },
        Point { x: 100, y: 200 },
    ];
    let all = Json::from(points.as_slice());
    assert_eq!(dump(&all), "[[1, 2], [10, 20], [100, 200]]");
}

#[test]
fn has_shape_cases() {
    let with_null = object(vec![("foo", Json::Null)]);
    assert!(with_null.has_shape(&[("foo".to_string(), Type::Null)], &format17).is_ok());

    let with_num = object(vec![("foo", Json::from(1234567))]);
    assert!(with_num.has_shape(&[("foo".to_string(), Type::Null)], &format17).is_err());

    let wrong_key = object(vec![("bar", Json::from(1234567))]);
    assert!(wrong_key.has_shape(&[("foo".to_string(), Type::Null)], &format17).is_err());

    // Non-objects are rejected.
    assert!(Json::from(1).has_shape(&[("foo".to_string(), Type::Null)], &format17).is_err());
}

#[test]
fn max_depth_limit() {
    let deep = "[".repeat(500);
    assert!(parse_std(&deep).is_err());
}

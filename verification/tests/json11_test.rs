use std::collections::{BTreeMap, BTreeSet, HashMap};

use lib::text::strip_trailing_zeros;
use lib::{Json, JsonParse, ToJson, Type};

/// The value of a number's text, as a binary64 bit pattern.
fn decode(text: &[u8]) -> u64 {
    std::str::from_utf8(text).unwrap().parse::<f64>().unwrap().to_bits()
}

/// `printf("%.17g", value)` for a finite `value`.
fn format_g17(value: f64) -> String {
    let p: i32 = 17;
    let sci = format!("{:.*e}", (p - 1) as usize, value);
    let (mantissa, exp_str) = sci.split_once('e').unwrap();
    let exp: i32 = exp_str.parse().unwrap();
    if !(-4..p).contains(&exp) {
        let mantissa = strip_trailing_zeros(mantissa);
        let sign = if exp < 0 { '-' } else { '+' };
        format!("{}e{}{:02}", mantissa, sign, exp.abs())
    } else {
        let prec = (p - 1 - exp).max(0) as usize;
        strip_trailing_zeros(&format!("{:.*}", prec, value))
    }
}

fn format17(bits: u64) -> Vec<u8> {
    format_g17(f64::from_bits(bits)).into_bytes()
}

fn dump(j: &Json) -> String {
    String::from_utf8(j.dump(&format17)).unwrap()
}

fn num(v: f64) -> Json {
    Json::from_bits(v.to_bits())
}

/// Helper to build an object literal from `(&str, Json)` pairs.
fn object(items: Vec<(&'static str, Json)>) -> Json {
    Json::object(items.into_iter().map(|(k, v)| (k.to_string(), v)).collect())
}

#[test]
fn json11_test() {
    let simple_test = r#"{"k1":"v1", "k2":42, "k3":["a",123,true,false,null]}"#;

    let json = Json::parse(simple_test, JsonParse::Standard, &decode).expect("parse simple_test");

    assert_eq!(json["k1"].string_value(), b"v1");
    assert_eq!(dump(&json["k3"]), r#"["a", 123, true, false, null]"#);

    // --- Comment-mode parsing (valid) ---
    let comment_test = r#"{
      // comment /* with nested comment */
      "a": 1,
      // comment
      // continued
      "b": "text",
      /* multi
         line
         comment
        // line-comment-inside-multiline-comment
      */
      // and single-line comment
      // and single-line comment /* multiline inside single line */
      "c": [1, 2, 3]
      // and single-line comment at end of object
    }"#;
    let json_comment = Json::parse(comment_test, JsonParse::Comments, &decode);
    assert!(json_comment.is_ok());
    assert!(!json_comment.unwrap().is_null());

    let json_comment = Json::parse("{\"a\": 1}//trailing line comment", JsonParse::Comments, &decode);
    assert!(json_comment.is_ok());
    assert!(!json_comment.unwrap().is_null());

    let json_comment = Json::parse(
        "{\"a\": 1}/*trailing multi-line comment*/",
        JsonParse::Comments,
        &decode,
    );
    assert!(json_comment.is_ok());
    assert!(!json_comment.unwrap().is_null());

    // --- Comment-mode parsing (failing) ---
    let failing_cases = [
        "{\n/* unterminated comment\n\"a\": 1,\n}",
        "{\n/* unterminated trailing comment }",
        "{\n/ / bad comment }",
        "{// bad comment }",
        "{\n\"a\": 1\n}/",
        "{/* bad\ncomment *}",
    ];
    for case in failing_cases {
        let res = Json::parse(case, JsonParse::Comments, &decode);
        assert!(res.is_err(), "expected failure for {case:?}");
    }

    // --- list/vec/set equality conversions ---
    let l1: Vec<i32> = vec![1, 2, 3];
    let l2: Vec<i32> = vec![1, 2, 3];
    let l3: BTreeSet<i32> = [1, 2, 3].into_iter().collect();
    assert!(Json::from(l1) == Json::from(l2.clone()));
    assert!(Json::from(l2) == Json::from(l3));

    // --- map/unordered_map equality conversions ---
    let m1: BTreeMap<String, String> = [("k1", "v1"), ("k2", "v2")]
        .into_iter()
        .map(|(k, v)| (k.to_string(), v.to_string()))
        .collect();
    let m2: HashMap<String, String> = [("k1", "v1"), ("k2", "v2")]
        .into_iter()
        .map(|(k, v)| (k.to_string(), v.to_string()))
        .collect();
    let j1 = Json::object(m1.into_iter().map(|(k, v)| (k, Json::from(v))).collect());
    let j2 = Json::object(m2.into_iter().map(|(k, v)| (k, Json::from(v))).collect());
    assert!(j1 == j2);

    // --- Json literals ---
    let obj = object(vec![
        ("k1", Json::from("v1")),
        ("k2", num(42.0)),
        (
            "k3",
            Json::array(vec![
                Json::from("a"),
                num(123.0),
                Json::from(true),
                Json::from(false),
                Json::Null,
            ]),
        ),
    ]);

    assert_eq!(
        dump(&obj),
        r#"{"k1": "v1", "k2": 42, "k3": ["a", 123, true, false, null]}"#
    );

    assert_eq!(f64::from_bits(Json::from("a").number_bits()), 0.0);
    assert_eq!(Json::from("a").string_value(), b"a");
    assert_eq!(f64::from_bits(Json::Null.number_bits()), 0.0);

    assert!(obj == json);
    assert!(Json::from(42) == num(42.0));
    assert!(Json::from(42) != num(42.1));

    // --- Unicode escapes and UTF-16 surrogate-pair reassembly ---
    let unicode_escape_test = r#"[ "blah\ud83d\udca9blah\ud83dblah\udca9blah\u0000blah\u1234" ]"#;
    let utf8: &[u8] =
        b"blah\xf0\x9f\x92\xa9blah\xed\xa0\xbdblah\xed\xb2\xa9blah\x00blah\xe1\x88\xb4";

    let uni = Json::parse(unicode_escape_test, JsonParse::Standard, &decode).expect("parse unicode test");
    assert_eq!(uni[0].string_value().len(), utf8.len());
    assert_eq!(uni[0].string_value(), utf8);

    // --- parse_multi table-driven tests ---
    {
        let good_json = r#" {"k1" : "v1"}"#;
        let bad_json1 = format!("{good_json} {{");
        let bad_json2 = format!("{good_json}{{\"k2\":\"v2\", \"k3\":[");

        let k1v1 = object(vec![("k1", Json::from("v1"))]);

        struct TestMultiParse {
            input: String,
            expect_parser_stop_pos: usize,
            expect_not_empty_elms_count: usize,
            expect_parse_res: Json,
        }
        let tests = [
            TestMultiParse {
                input: " {".to_string(),
                expect_parser_stop_pos: 0,
                expect_not_empty_elms_count: 0,
                expect_parse_res: Json::Null,
            },
            TestMultiParse {
                input: good_json.to_string(),
                expect_parser_stop_pos: good_json.len(),
                expect_not_empty_elms_count: 1,
                expect_parse_res: k1v1.clone(),
            },
            TestMultiParse {
                input: bad_json1.clone(),
                expect_parser_stop_pos: good_json.len() + 1,
                expect_not_empty_elms_count: 1,
                expect_parse_res: k1v1.clone(),
            },
            TestMultiParse {
                input: bad_json2.clone(),
                expect_parser_stop_pos: good_json.len(),
                expect_not_empty_elms_count: 1,
                expect_parse_res: k1v1.clone(),
            },
            TestMultiParse {
                input: "{}".to_string(),
                expect_parser_stop_pos: 2,
                expect_not_empty_elms_count: 1,
                expect_parse_res: Json::object(Vec::new()),
            },
        ];

        for tst in &tests {
            let (res, parser_stop_pos, _err) =
                Json::parse_multi(&tst.input, JsonParse::Standard, &decode);
            assert_eq!(parser_stop_pos, tst.expect_parser_stop_pos);
            let non_null = res.iter().filter(|j| !j.is_null()).count();
            assert_eq!(non_null, tst.expect_not_empty_elms_count);
            if !res.is_empty() {
                assert!(tst.expect_parse_res == res[0]);
            }
        }
    }

    // --- object dump ---
    let my_json = object(vec![
        ("key1", Json::from("value1")),
        ("key2", Json::from(false)),
        (
            "key3",
            Json::array(vec![Json::from(1), Json::from(2), Json::from(3)]),
        ),
    ]);
    assert_eq!(
        dump(&my_json),
        r#"{"key1": "value1", "key2": false, "key3": [1, 2, 3]}"#
    );

    // --- custom type with a to_json equivalent (From impl) ---
    struct Point {
        x: i32,
        y: i32,
    }
    impl ToJson for Point {
        fn to_json(&self) -> Json {
            Json::array(vec![Json::from(self.x), Json::from(self.y)])
        }
    }

    let points = vec![
        Point { x: 1, y: 2 },
        Point { x: 10, y: 20 },
        Point { x: 100, y: 200 },
    ];
    assert_eq!(dump(&Json::from(points.as_slice())), "[[1, 2], [10, 20], [100, 200]]");

    // --- has_shape ---
    assert!(object(vec![("foo", Json::Null)])
        .has_shape(&[("foo".to_string(), Type::Null)], &format17)
        .is_ok());
    assert!(object(vec![("foo", Json::from(1234567))])
        .has_shape(&[("foo".to_string(), Type::Null)], &format17)
        .is_err());
    assert!(object(vec![("bar", Json::from(1234567))])
        .has_shape(&[("foo".to_string(), Type::Null)], &format17)
        .is_err());
}

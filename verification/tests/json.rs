use hilmon::double::Double;
use hilmon::json::{parse, Value, Writer};

fn d(x: f64) -> Double {
    Double { bits: x.to_bits() }
}

#[test]
fn parses_nested_and_unicode() {
    let v = parse(r#"{"a":[1,2.5,-3],"b":{"c":"Room A 207"},"d":true,"e":null}"#).unwrap();
    assert_eq!(v.get("a").unwrap().as_arr().unwrap().len(), 3);
    assert_eq!(v.get("a").unwrap().as_arr().unwrap()[1].as_f64(), Some(d(2.5)));
    assert_eq!(v.get("b").unwrap().get("c").unwrap().as_str(), Some("Room A 207"));
    assert_eq!(v.get("d").unwrap().as_bool(), Some(true));
    assert_eq!(v.get("e"), Some(&Value::Null));
}

#[test]
fn rejects_trailing_junk() {
    assert!(parse(r#"{"a":1} x"#).is_err());
}

#[test]
fn writes_escapes_and_numbers() {
    let mut w = Writer::new();
    w.raw("{");
    w.key("s");
    w.str("a\"b\\c\nd");
    w.raw(",");
    w.key("i");
    w.num(d(42.0));
    w.raw(",");
    w.key("f");
    w.num(d(1.25));
    w.raw(",");
    w.key("n");
    w.opt_num(None);
    w.raw("}");
    assert_eq!(w.buf, r#"{"s":"a\"b\\c\nd","i":42,"f":1.25,"n":null}"#);
}

#[test]
fn whole_numbers_lose_the_decimal_point() {
    let mut w = Writer::new();
    w.num(d(250.0));
    w.raw(" ");
    w.num(d(249.46));
    assert_eq!(w.buf, "250 249.46");
}

#[test]
fn round_trips_korean() {
    let src = r#"{"room":"132동 B09 무향실"}"#;
    let v = parse(src).unwrap();
    let mut w = Writer::new();
    w.raw("{");
    w.key("room");
    w.str(v.get("room").unwrap().as_str().unwrap());
    w.raw("}");
    assert_eq!(w.buf, src);
}

#[test]
fn any_string_reads_back() {
    for s in ["", "a", "\"", "\\", "\n\r\t", "\u{1}\u{1f}\u{7f}", "무향실", "\u{1f600}", "/", "\u{feff}"] {
        let mut w = Writer::new();
        w.str(s);
        let v = parse(&w.buf).unwrap();
        assert_eq!(v.as_str(), Some(s), "{}", w.buf);
    }
    let mut w = Writer::new();
    w.str("\u{1}\u{1f}");
    assert_eq!(w.buf, "\"\\u0001\\u001f\"");
}

#[test]
fn any_integer_reads_back() {
    for x in [0.0, 1.0, -1.0, 42.0, 1_789_000_000.0, -999_999_999_999_999.0, 9e14] {
        let mut w = Writer::new();
        w.num(d(x));
        assert_eq!(parse(&w.buf).unwrap().as_f64(), Some(d(x)), "{}", w.buf);
    }
}

#[test]
fn what_is_no_number_is_written_as_null() {
    let mut w = Writer::new();
    w.num(d(f64::NAN));
    w.raw(" ");
    w.num(d(f64::INFINITY));
    w.raw(" ");
    w.bool(true);
    w.raw(" ");
    w.bool(false);
    w.raw(" ");
    w.opt_num(Some(d(0.5)));
    assert_eq!(w.buf, "null null true false 0.5");
}

#[test]
fn escapes_are_read() {
    let v = parse(r#""a\"\\\/\b\f\n\r\t\u0041\uac00\ud83d\ude00""#).unwrap();
    assert_eq!(v.as_str(), Some("a\"\\/\u{8}\u{c}\n\r\tA가\u{1f600}"));
}

#[test]
fn members_have_defaults() {
    let v = parse(r#"{"s":"x","n":2.5,"b":true,"neg":-1,"k":7}"#).unwrap();
    assert_eq!(v.str_or("s", "d"), "x");
    assert_eq!(v.str_or("n", "d"), "d");
    assert_eq!(v.num_or("n", d(9.0)), d(2.5));
    assert_eq!(v.num_or("s", d(9.0)), d(9.0));
    assert_eq!(v.bool_or("b", false), true);
    assert_eq!(v.bool_or("s", false), false);
    assert_eq!(v.get("k").unwrap().as_u64(), Some(7));
    assert_eq!(v.get("s").unwrap().as_u64(), None);
    assert!(v.get("none").is_none());
    assert!(v.get("s").unwrap().get("x").is_none());
    assert!(v.get("s").unwrap().as_arr().is_none());
}

#[test]
fn the_last_of_equal_keys_counts() {
    let v = parse(r#"{"a":1,"a":2}"#).unwrap();
    assert_eq!(v.num_or("a", d(0.0)), d(2.0));
}

#[test]
fn what_is_no_json_is_refused() {
    for s in [
        "", " ", "{", "[", "[1,", "[1 2]", "{\"a\"}", "{\"a\":}", "{a:1}", "\"abc", "\"\\x\"",
        "\"\\u12\"", "tru", "nul", "+", "-", "1 1", "{\"a\":1,}",
    ] {
        assert!(parse(s).is_err(), "{:?}", s);
    }
}

#[test]
fn a_refusal_names_what_stood_there() {
    for (src, want) in [
        ("", "unexpected None at char 0"),
        ("x", "unexpected Some('x') at char 0"),
        ("[1 x]", "expected , or ] got Some('x')"),
        ("{\"a\":1 \n", "expected , or } got None"),
        ("{\"a\" 1}", "expected ':' at char 5"),
        ("{1:2}", "expected '\"' at char 1"),
        ("nulL", "expected 'l' at char 3"),
        ("1 1", "trailing input at char 2"),
        ("[-]", "bad number \"-\""),
        ("\"abc", "unterminated string"),
        ("\"\\", "unterminated escape"),
        ("\"\\x\"", "bad escape \\x"),
        ("\"\\u12G4\"", "bad \\u escape \"12G4\""),
        ("\"\\ud83d\"", "expected '\\\\' at char 7"),
        ("\"\\ud83d\\uzzzz\"", "bad low surrogate"),
        ("\"\\udc00\"", "bad code point"),
        ("\"\\u가나다라\"", "bad \\u escape \"가나다라\""),
    ] {
        assert_eq!(parse(src).unwrap_err(), want, "{}", src);
    }
}

#[test]
fn numbers_read_back_in_thousandths() {
    for (x, text, back) in [
        (249.46, "249.46", Some(249.46)),
        (0.12345, "0.123", Some(0.123)),
        (-0.0004, "-0", Some(-0.0)),
        (-0.0, "0", Some(0.0)),
        (999.9996, "1000", Some(1000.0)),
        (1e15, "1000000000000000", Some(1e15)),
        (1.5e300, &format!("15{}", "0".repeat(299)), Some(1.5e300)),
        (f64::NAN, "null", None),
        (f64::NEG_INFINITY, "null", None),
    ] {
        let mut w = Writer::new();
        w.num(d(x));
        assert_eq!(w.buf, text);
        assert_eq!(parse(&w.buf).unwrap().as_f64(), back.map(d), "{}", text);
    }
    // A thousand times this is more than a number can be.
    let mut w = Writer::new();
    w.num(d(1.7e308));
    assert_eq!(w.buf, "inf");
}

#[test]
fn nested_values_read_back() {
    let mut w = Writer::new();
    w.raw("{");
    w.key("b");
    w.raw("[");
    w.num(d(1.5));
    w.raw(",");
    w.str("x\n");
    w.raw(",[],{}");
    w.raw("],");
    w.key("a");
    w.bool(false);
    w.raw(",");
    w.key("b");
    w.opt_num(None);
    w.raw("}");
    assert_eq!(w.buf, "{\"b\":[1.5,\"x\\n\",[],{}],\"a\":false,\"b\":null}");
    let v = parse(&w.buf).unwrap();
    assert_eq!(
        v,
        Value::Obj(vec![
            ("a".to_string(), Value::Bool(false)),
            ("b".to_string(), Value::Null),
        ])
    );
}

#[test]
fn a_copy_is_the_same_value() {
    let v = parse(r#"{"a":[1,"x",[]],"b":{"c":null,"d":false}}"#).unwrap();
    assert_eq!(v.clone(), v);
}

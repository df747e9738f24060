use toml_parser::{
    encode, finish, render_float, ConversionError, Date, Datetime, Defect, EncodeError, Offset,
    ParseError, Time, TomlValue, MAX_DEPTH,
};

fn table(entries: Vec<(&str, TomlValue)>) -> TomlValue {
    TomlValue::Table(entries.into_iter().map(|(k, v)| (k.to_string(), v)).collect())
}

fn nested_arrays(depth: usize) -> TomlValue {
    let mut value = TomlValue::Array(vec![]);
    for _ in 1..depth {
        value = TomlValue::Array(vec![value]);
    }
    value
}

#[test]
fn scalars_are_written_by_type() {
    assert_eq!(encode(&TomlValue::String("text".to_string())).unwrap(), "\"text\"");
    assert_eq!(encode(&TomlValue::Integer(42)).unwrap(), "42");
    assert_eq!(encode(&TomlValue::Integer(-7)).unwrap(), "-7");
    assert_eq!(encode(&TomlValue::Integer(0)).unwrap(), "0");
    assert_eq!(encode(&TomlValue::Integer(i64::MAX)).unwrap(), "9223372036854775807");
    assert_eq!(encode(&TomlValue::Integer(i64::MIN)).unwrap(), "-9223372036854775808");
    assert_eq!(encode(&TomlValue::Float("1.0".to_string())).unwrap(), "1.0");
    assert_eq!(encode(&TomlValue::Boolean(true)).unwrap(), "true");
    assert_eq!(encode(&TomlValue::Boolean(false)).unwrap(), "false");
}

#[test]
fn strings_are_escaped() {
    let text = "quote \" backslash \\ slash / newline \n return \r tab \t bell \u{7} \
                backspace \u{8} formfeed \u{c} escape \u{1b} unit \u{1f} delete \u{7f} é 日本 🦀";
    let expected = "\"quote \\\" backslash \\\\ slash / newline \\n return \\r tab \\t bell \\u0007 \
                    backspace \\b formfeed \\f escape \\u001b unit \\u001f delete \u{7f} é 日本 🦀\"";
    assert_eq!(encode(&TomlValue::String(text.to_string())).unwrap(), expected);
    let back: String = serde_json::from_str(expected).unwrap();
    assert_eq!(back, text);
}

#[test]
fn keys_are_escaped_like_strings() {
    let value = table(vec![("a\"b", TomlValue::Integer(1)), ("", TomlValue::Integer(2))]);
    assert_eq!(encode(&value).unwrap(), r#"{"a\"b":1,"":2}"#);
}

#[test]
fn arrays_and_tables_keep_their_order() {
    let value = table(vec![
        ("z", TomlValue::Array(vec![
            TomlValue::Integer(3),
            TomlValue::String("x".to_string()),
            TomlValue::Boolean(false),
            TomlValue::Array(vec![]),
            table(vec![]),
        ])),
        ("a", TomlValue::Integer(1)),
        ("m", table(vec![("k", TomlValue::Float("2.5".to_string()))])),
    ]);
    assert_eq!(encode(&value).unwrap(), r#"{"z":[3,"x",false,[],{}],"a":1,"m":{"k":2.5}}"#);
}

#[test]
fn float_tokens() {
    assert_eq!(render_float("1.0"), "1.0");
    assert_eq!(render_float("-2.5e-7"), "-2.5e-7");
    assert_eq!(render_float("1e5"), "1e5");
    assert_eq!(render_float("1E+5"), "1E+5");
    assert_eq!(render_float("0.0"), "0.0");
    assert_eq!(render_float("1"), "1.0");
    assert_eq!(render_float("-0"), "-0.0");
    assert_eq!(render_float("120"), "120.0");
    for text in [
        "", "-", "01", "1.", ".5", "1e", "1e+", "+1", "1.5x", "1 ", "nan", "inf", "null", "0x10",
        "1_0", "١", "1.5.2", "--1", "1e5.0",
    ] {
        assert_eq!(render_float(text), "null", "{:?}", text);
    }
}

#[test]
fn a_float_never_looks_like_an_integer() {
    let float = encode(&TomlValue::Float("1".to_string())).unwrap();
    let integer = encode(&TomlValue::Integer(1)).unwrap();
    assert_eq!(float, "1.0");
    assert_eq!(integer, "1");
    let back: serde_json::Value = serde_json::from_str(&float).unwrap();
    assert!(back.is_f64());
    let back: serde_json::Value = serde_json::from_str(&integer).unwrap();
    assert!(back.is_i64());
}

fn full_datetime() -> Datetime {
    Datetime {
        date: Some(Date { year: 1979, month: 5, day: 27 }),
        time: Some(Time { hour: 7, minute: 32, second: 0, nanosecond: 500_000_000 }),
        offset: Some(Offset::Custom { minutes: -450 }),
    }
}

#[test]
fn datetimes_are_written_as_strings() {
    assert_eq!(
        encode(&TomlValue::Datetime(full_datetime())).unwrap(),
        "\"1979-05-27T07:32:00.5-07:30\""
    );
    let date = Datetime { date: Some(Date { year: 33, month: 1, day: 2 }), time: None, offset: None };
    assert_eq!(encode(&TomlValue::Datetime(date)).unwrap(), "\"0033-01-02\"");
    let time = Datetime {
        date: None,
        time: Some(Time { hour: 23, minute: 59, second: 60, nanosecond: 0 }),
        offset: None,
    };
    assert_eq!(encode(&TomlValue::Datetime(time)).unwrap(), "\"23:59:60\"");
    let utc = Datetime { offset: Some(Offset::Z), ..full_datetime() };
    assert_eq!(encode(&TomlValue::Datetime(utc)).unwrap(), "\"1979-05-27T07:32:00.5Z\"");
}

#[test]
fn datetime_validity() {
    assert!(full_datetime().is_valid());
    assert!(Date { year: 2024, month: 2, day: 29 }.is_valid());
    assert!(!Date { year: 2023, month: 2, day: 29 }.is_valid());
    assert!(!Date { year: 1900, month: 2, day: 29 }.is_valid());
    assert!(Date { year: 2000, month: 2, day: 29 }.is_valid());
    assert!(!Date { year: 2024, month: 4, day: 31 }.is_valid());
    assert!(Date { year: 2024, month: 12, day: 31 }.is_valid());
    assert!(!Date { year: 2024, month: 0, day: 1 }.is_valid());
    assert!(!Date { year: 2024, month: 13, day: 1 }.is_valid());
    assert!(!Date { year: 2024, month: 1, day: 0 }.is_valid());
    assert!(!Date { year: 10_000, month: 1, day: 1 }.is_valid());
    assert!(!Time { hour: 24, minute: 0, second: 0, nanosecond: 0 }.is_valid());
    assert!(!Time { hour: 0, minute: 60, second: 0, nanosecond: 0 }.is_valid());
    assert!(!Time { hour: 0, minute: 0, second: 61, nanosecond: 0 }.is_valid());
    assert!(!Time { hour: 0, minute: 0, second: 0, nanosecond: 1_000_000_000 }.is_valid());
    assert!(Offset::Custom { minutes: 1439 }.is_valid());
    assert!(!Offset::Custom { minutes: 1440 }.is_valid());
    assert!(!Offset::Custom { minutes: i16::MIN }.is_valid());
    assert!(!Datetime { date: None, time: None, offset: None }.is_valid());
    assert!(!Datetime { date: None, ..full_datetime() }.is_valid());
    assert!(!Datetime { time: None, ..full_datetime() }.is_valid());
}

#[test]
fn an_invalid_datetime_cannot_be_written() {
    let bad = Datetime { date: Some(Date { year: 2023, month: 2, day: 30 }), time: None, offset: None };
    assert_eq!(
        encode(&TomlValue::Array(vec![TomlValue::Integer(1), TomlValue::Datetime(bad)])),
        Err(EncodeError { defect: Defect::InvalidDatetime })
    );
}

#[test]
fn a_repeated_key_cannot_be_written() {
    let value = table(vec![
        ("a", TomlValue::Integer(1)),
        ("b", TomlValue::Integer(2)),
        ("a", TomlValue::Integer(3)),
    ]);
    assert_eq!(encode(&value), Err(EncodeError { defect: Defect::DuplicateKey }));
    let inner = table(vec![("ok", TomlValue::Integer(0)), ("t", value)]);
    assert_eq!(encode(&inner), Err(EncodeError { defect: Defect::DuplicateKey }));
}

#[test]
fn nesting_is_bounded() {
    assert_eq!(MAX_DEPTH, 127);
    let deepest = encode(&nested_arrays(MAX_DEPTH)).unwrap();
    assert_eq!(deepest.len(), 2 * MAX_DEPTH);
    assert!(serde_json::from_str::<serde_json::Value>(&deepest).is_ok());
    assert_eq!(
        encode(&nested_arrays(MAX_DEPTH + 1)),
        Err(EncodeError { defect: Defect::TooDeep })
    );
    let too_deep = format!("{}{}", "[".repeat(MAX_DEPTH + 1), "]".repeat(MAX_DEPTH + 1));
    assert!(serde_json::from_str::<serde_json::Value>(&too_deep).is_err());
}

#[test]
fn the_first_defect_is_reported() {
    let bad = Datetime { date: None, time: None, offset: None };
    let value = table(vec![
        ("first", TomlValue::Array(vec![TomlValue::Datetime(bad)])),
        ("second", table(vec![("k", TomlValue::Integer(1)), ("k", TomlValue::Integer(2))])),
    ]);
    assert_eq!(encode(&value), Err(EncodeError { defect: Defect::InvalidDatetime }));
    let value = table(vec![
        ("k", nested_arrays(MAX_DEPTH)),
        ("k", TomlValue::Datetime(bad)),
    ]);
    assert_eq!(encode(&value), Err(EncodeError { defect: Defect::DuplicateKey }));
}

#[test]
fn failures_are_tagged_by_stage() {
    let unencodable = table(vec![("k", TomlValue::Integer(1)), ("k", TomlValue::Integer(2))]);
    assert_eq!(
        finish(Ok(unencodable)),
        Err(ConversionError::Encode(EncodeError { defect: Defect::DuplicateKey }))
    );
    let rejected = ParseError::Syntax { message: "no".to_string(), span: None };
    assert_eq!(
        finish(Err(ParseError::Syntax { message: "no".to_string(), span: None })),
        Err(ConversionError::Parse(rejected))
    );
    assert_eq!(finish(Ok(table(vec![]))), Ok("{}".to_string()));
}

#[test]
fn messages() {
    assert_eq!(Defect::DuplicateKey.message(), "a table holds the same key twice");
    assert_eq!(
        EncodeError { defect: Defect::InvalidDatetime }.message(),
        "a date or time is out of range or incomplete"
    );
    assert_eq!(
        ConversionError::Parse(ParseError::Malformed(Defect::TooDeep)).message(),
        "arrays and tables are nested more than 127 levels deep"
    );
    let syntax = ParseError::Syntax { message: "line 3".to_string(), span: Some((1, 2)) };
    assert_eq!(syntax.message(), "line 3");
}

#[test]
fn output_reads_back_with_the_same_types() {
    let value = table(vec![
        ("s", TomlValue::String("1".to_string())),
        ("i", TomlValue::Integer(1)),
        ("f", TomlValue::Float("1.0".to_string())),
        ("b", TomlValue::Boolean(true)),
        ("d", TomlValue::Datetime(full_datetime())),
        ("a", TomlValue::Array(vec![TomlValue::Integer(2), TomlValue::Integer(1)])),
        ("t", table(vec![("z", TomlValue::Integer(0)), ("y", TomlValue::Integer(0))])),
    ]);
    let json = encode(&value).unwrap();
    let back: serde_json::Value = serde_json::from_str(&json).unwrap();
    let object = back.as_object().unwrap();
    let keys: Vec<&str> = object.keys().map(|k| k.as_str()).collect();
    assert_eq!(keys, ["s", "i", "f", "b", "d", "a", "t"]);
    assert!(back["s"].is_string());
    assert!(back["i"].is_i64());
    assert!(back["f"].is_f64());
    assert!(back["b"].is_boolean());
    assert!(back["d"].is_string());
    assert_eq!(back["a"].as_array().unwrap().len(), 2);
    assert_eq!(back["a"][0].as_i64(), Some(2));
    assert_eq!(back["a"][1].as_i64(), Some(1));
    let inner: Vec<&str> = back["t"].as_object().unwrap().keys().map(|k| k.as_str()).collect();
    assert_eq!(inner, ["z", "y"]);
}

#[test]
fn a_copy_is_equal_to_its_source() {
    let value = table(vec![
        ("s", TomlValue::String("text".to_string())),
        ("d", TomlValue::Datetime(full_datetime())),
        ("a", TomlValue::Array(vec![TomlValue::Float("0.5".to_string()), table(vec![])])),
    ]);
    let copy = value.clone();
    assert_eq!(copy, value);
    assert_eq!(encode(&copy), encode(&value));
}

#[test]
fn fractions_of_a_second_lose_their_last_zeros() {
    let at = |nanosecond: u32| {
        TomlValue::Datetime(Datetime {
            date: None,
            time: Some(Time { hour: 1, minute: 2, second: 3, nanosecond }),
            offset: None,
        })
    };
    assert_eq!(encode(&at(0)).unwrap(), "\"01:02:03\"");
    assert_eq!(encode(&at(1_000)).unwrap(), "\"01:02:03.000001\"");
    assert_eq!(encode(&at(999_999_999)).unwrap(), "\"01:02:03.999999999\"");
    assert_eq!(encode(&at(120_000_000)).unwrap(), "\"01:02:03.12\"");
}

#[test]
fn offsets_are_written_with_their_sign() {
    let with = |offset: Offset| {
        TomlValue::Datetime(Datetime { offset: Some(offset), ..full_datetime() })
    };
    assert_eq!(
        encode(&with(Offset::Custom { minutes: 0 })).unwrap(),
        "\"1979-05-27T07:32:00.5+00:00\""
    );
    assert_eq!(
        encode(&with(Offset::Custom { minutes: 1439 })).unwrap(),
        "\"1979-05-27T07:32:00.5+23:59\""
    );
    assert_eq!(
        encode(&with(Offset::Custom { minutes: -1 })).unwrap(),
        "\"1979-05-27T07:32:00.5-00:01\""
    );
    assert_eq!(
        encode(&with(Offset::Custom { minutes: 1440 })),
        Err(EncodeError { defect: Defect::InvalidDatetime })
    );
}

#[test]
fn defects_are_found_without_writing() {
    assert_eq!(table(vec![]).find_defect(), None);
    assert_eq!(nested_arrays(MAX_DEPTH).find_defect(), None);
    assert_eq!(nested_arrays(MAX_DEPTH + 1).find_defect(), Some(Defect::TooDeep));
    let twice = table(vec![("k", TomlValue::Integer(1)), ("k", TomlValue::Integer(1))]);
    assert_eq!(twice.find_defect(), Some(Defect::DuplicateKey));
    let nowhere = Datetime { date: None, time: None, offset: Some(Offset::Z) };
    assert_eq!(
        TomlValue::Array(vec![TomlValue::Datetime(nowhere)]).find_defect(),
        Some(Defect::InvalidDatetime)
    );
}

use toml_parser::{
    convert, encode, finish, parse, parse_toml, ConversionError, Defect, ParseError, TomlValue,
};

#[test]
fn can_parse_toml() {
    let toml_str = r#"
            [testcli]
            test_key = "test"

            [testcli.test_nested]
            test_arr = [1, 2, 3]
        "#
    .to_string();
    let result = parse_toml(&toml_str);
    assert_eq!(result.is_ok(), true);
    assert_eq!(
        result.unwrap(),
        r#"{"testcli":{"test_key":"test","test_nested":{"test_arr":[1,2,3]}}}"#
    );
}

#[test]
fn single_string_key() {
    assert_eq!(convert("key = \"value\"").unwrap(), r#"{"key":"value"}"#);
}

#[test]
fn section_with_integer() {
    assert_eq!(convert("[section]\nnum = 42\n").unwrap(), r#"{"section":{"num":42}}"#);
}

#[test]
fn section_with_array() {
    assert_eq!(
        convert("[section]\narr = [1, 2, 3]\n").unwrap(),
        r#"{"section":{"arr":[1,2,3]}}"#
    );
}

#[test]
fn integral_float_keeps_its_point() {
    assert_eq!(convert("x = 1.0").unwrap(), r#"{"x":1.0}"#);
    assert_ne!(convert("x = 1.0").unwrap(), convert("x = 1").unwrap());
}

#[test]
fn table_declared_twice_is_rejected() {
    let result = convert("[a]\nk = 1\n[a]\nk = 2\n");
    assert!(matches!(result, Err(ConversionError::Parse(ParseError::Syntax { .. }))));
}

#[test]
fn key_declared_twice_is_rejected() {
    assert!(matches!(parse("k = 1\nk = 2\n"), Err(ParseError::Syntax { .. })));
    assert!(matches!(parse("t = { k = 1, k = 2 }"), Err(ParseError::Syntax { .. })));
}

#[test]
fn unterminated_array_is_rejected() {
    let result = convert("bad = [1, 2,");
    assert!(matches!(result, Err(ConversionError::Parse(ParseError::Syntax { .. }))));
}

#[test]
fn malformed_input_is_a_parse_failure_with_a_place() {
    match convert("a = ") {
        Err(ConversionError::Parse(ParseError::Syntax { message, span })) => {
            assert!(message.contains("line 1"));
            assert!(span.is_some());
        }
        other => panic!("unexpected {:?}", other),
    }
}

#[test]
fn invalid_literals_are_rejected() {
    for text in [
        "n = 1__0",
        "n = 0x",
        "d = 1979-13-01",
        "d = 1979-02-30",
        "s = \"\\q\"",
        "s = \"open",
        "t = { a = 1",
        "[t\nk = 1",
    ] {
        assert!(matches!(parse(text), Err(ParseError::Syntax { .. })), "{}", text);
    }
}

#[test]
fn the_root_is_a_table() {
    assert_eq!(parse("").unwrap(), TomlValue::Table(vec![]));
    assert!(matches!(parse("a = 1").unwrap(), TomlValue::Table(_)));
}

#[test]
fn parse_builds_the_tree_in_document_order() {
    let text = "z = 1\na = \"s\"\n[m]\nflag = true\nlist = [1, \"two\", [3]]\n";
    let expected = TomlValue::Table(vec![
        ("z".to_string(), TomlValue::Integer(1)),
        ("a".to_string(), TomlValue::String("s".to_string())),
        (
            "m".to_string(),
            TomlValue::Table(vec![
                ("flag".to_string(), TomlValue::Boolean(true)),
                (
                    "list".to_string(),
                    TomlValue::Array(vec![
                        TomlValue::Integer(1),
                        TomlValue::String("two".to_string()),
                        TomlValue::Array(vec![TomlValue::Integer(3)]),
                    ]),
                ),
            ]),
        ),
    ]);
    assert_eq!(parse(text).unwrap(), expected);
    assert_eq!(
        convert(text).unwrap(),
        r#"{"z":1,"a":"s","m":{"flag":true,"list":[1,"two",[3]]}}"#
    );
}

#[test]
fn accepted_forms_of_the_grammar() {
    let text = "n = 1_000\nh = 0xff\ninline = { a = 1, b = { c = 2 } }\nmulti = \"\"\"\nline one\nline two\"\"\"\nlit = 'C:\\path'\n[[rows]]\nid = 1\n[[rows]]\nid = 2\n";
    assert_eq!(
        convert(text).unwrap(),
        r#"{"n":1000,"h":255,"inline":{"a":1,"b":{"c":2}},"multi":"line one\nline two","lit":"C:\\path","rows":[{"id":1},{"id":2}]}"#
    );
}

#[test]
fn conversion_is_deterministic() {
    let text = "b = 2\na = 1\n[t]\ny = [1.5, 2.5]\nx = 1979-05-27\n";
    let first = convert(text).unwrap();
    let second = convert(text).unwrap();
    assert_eq!(first, second);
    assert_eq!(first, r#"{"b":2,"a":1,"t":{"y":[1.5,2.5],"x":"1979-05-27"}}"#);
}

#[test]
fn ten_thousand_nested_arrays_fail_in_a_controlled_way() {
    let mut text = String::from("x = ");
    for _ in 0..10_000 {
        text.push('[');
    }
    for _ in 0..10_000 {
        text.push(']');
    }
    assert!(matches!(convert(&text), Err(ConversionError::Parse(_))));
}

fn dotted(segments: usize) -> String {
    let mut path = String::new();
    for i in 0..segments {
        if i > 0 {
            path.push('.');
        }
        path.push('k');
    }
    path
}

#[test]
fn tables_nested_beyond_the_limit_are_a_defect() {
    // 1 (root) + 70 + 70 tables
    let text = format!("[{}]\n{} = 1\n", dotted(70), dotted(71));
    assert_eq!(parse(&text), Err(ParseError::Malformed(Defect::TooDeep)));
    assert_eq!(
        convert(&text),
        Err(ConversionError::Parse(ParseError::Malformed(Defect::TooDeep)))
    );
    assert_eq!(
        parse_toml(&text),
        Err("Error parsing TOML: arrays and tables are nested more than 127 levels deep"
            .to_string())
    );
}

#[test]
fn tables_nested_up_to_the_limit_are_read() {
    // 1 (root) + 70 + 56 tables: depth 127
    let text = format!("[{}]\n{} = 1\n", dotted(70), dotted(57));
    let json = convert(&text).unwrap();
    assert_eq!(json.matches('{').count(), 127);
    assert!(serde_json::from_str::<serde_json::Value>(&json).is_ok());
}

#[test]
fn parse_toml_prefixes_the_message() {
    let message = parse_toml("bad = [1, 2,").unwrap_err();
    assert!(message.starts_with("Error parsing TOML: "));
    assert!(message.len() > "Error parsing TOML: ".len());
    let plain = match convert("bad = [1, 2,") {
        Err(e) => e.message(),
        Ok(_) => panic!("accepted"),
    };
    assert_eq!(message, format!("Error parsing TOML: {}", plain));
}

#[test]
fn datetimes_become_strings() {
    assert_eq!(
        convert("d = 1979-05-27T07:32:00Z").unwrap(),
        r#"{"d":"1979-05-27T07:32:00Z"}"#
    );
    assert_eq!(
        convert("d = 1979-05-27T00:32:00.999999-07:00").unwrap(),
        r#"{"d":"1979-05-27T00:32:00.999999-07:00"}"#
    );
    assert_eq!(convert("d = 1979-05-27 07:32:00").unwrap(), r#"{"d":"1979-05-27T07:32:00"}"#);
    assert_eq!(convert("d = 1979-05-27").unwrap(), r#"{"d":"1979-05-27"}"#);
    assert_eq!(convert("d = 07:32:00.5").unwrap(), r#"{"d":"07:32:00.5"}"#);
    assert_eq!(convert("d = 2024-02-29").unwrap(), r#"{"d":"2024-02-29"}"#);
}

#[test]
fn floats_that_json_cannot_write_become_null() {
    assert_eq!(convert("x = nan").unwrap(), r#"{"x":null}"#);
    assert_eq!(convert("x = inf").unwrap(), r#"{"x":null}"#);
    assert_eq!(convert("x = -inf").unwrap(), r#"{"x":null}"#);
}

#[test]
fn floats_are_read_as_their_shortest_text() {
    assert_eq!(
        parse("x = 1.0\ny = -0.5\nz = 1e3").unwrap(),
        TomlValue::Table(vec![
            ("x".to_string(), TomlValue::Float("1.0".to_string())),
            ("y".to_string(), TomlValue::Float("-0.5".to_string())),
            ("z".to_string(), TomlValue::Float("1000.0".to_string())),
        ])
    );
    let json = convert("big = 1e300\nsmall = 2.5e-9\n").unwrap();
    let back: serde_json::Value = serde_json::from_str(&json).unwrap();
    assert_eq!(back["big"].as_f64(), Some(1e300));
    assert_eq!(back["small"].as_f64(), Some(2.5e-9));
    assert!(back["big"].is_f64());
}

#[test]
fn convert_is_parse_then_encode() {
    for text in [
        "",
        "a = 1",
        "[t]\nx = [1, 2.5, \"s\", true, 1979-05-27]\n[[r]]\nk = { a.b = 1 }\n",
        "bad = [1, 2,",
        "k = 1\nk = 2",
    ] {
        assert_eq!(convert(text), finish(parse(text)), "{:?}", text);
        if let Ok(value) = parse(text) {
            assert_eq!(value.find_defect(), None);
            assert_eq!(encode(&value).unwrap(), convert(text).unwrap());
        }
    }
}

#[test]
fn dotted_keys_and_headers_nest_tables() {
    assert_eq!(
        convert("a.b.c = 1\n[x.y]\nz.w = 2\n").unwrap(),
        r#"{"a":{"b":{"c":1}},"x":{"y":{"z":{"w":2}}}}"#
    );
}

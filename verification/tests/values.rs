use tool_call_parsers::arguments::{ArgumentValue, Arguments};
use tool_call_parsers::dsml::parameter_value;
use tool_call_parsers::number::{finite_pattern, parse_i64, whole_number};
use tool_call_parsers::schema::{
    Json, ParamKind, ToolDefinition, declared_parameters, declared_type, get_arguments_config,
    kind_of,
};
use tool_call_parsers::values::{
    convert_param_value, html_unescape, literal_value, number_value, python_to_json,
    safe_parse_value, strip_quotes, try_literal_eval,
};

/// The JSON value that `text` writes.
fn parsed(text: &str) -> serde_json::Value {
    serde_json::from_str(text).unwrap()
}

/// An argument value as it stands in the arguments of a call.
fn written(value: ArgumentValue) -> serde_json::Value {
    let mut arguments = Arguments::new();
    arguments.insert("value".to_string(), value);
    parsed(&arguments.to_json())["value"].clone()
}

/// The text of a document.
fn text(value: &str) -> Json {
    Json::Text(value.to_string())
}

/// A document with these members.
fn object(members: Vec<(&str, Json)>) -> Json {
    Json::Object(
        members
            .into_iter()
            .map(|(name, value)| (name.to_string(), value))
            .collect(),
    )
}

/// The value that `raw` gives to a parameter of this type.
fn converted(raw: &str, kind: &str) -> serde_json::Value {
    let declared = vec![("p".to_string(), object(vec![("type", text(kind))]))];
    written(convert_param_value(raw, "p", Some(&declared)))
}

#[test]
fn test_safe_parse_value() {
    let cases = [
        (r#"{"key": "value"}"#, r#"{"key": "value"}"#),
        (r#"[1, 2, 3]"#, r#"[1, 2, 3]"#),
        ("42", "42"),
        ("3.15", "3.15"),
        ("true", "true"),
        ("false", "false"),
        ("null", "null"),
        ("hello", r#""hello""#),
        ("  text  ", r#""text""#),
    ];
    for (input, expected) in cases {
        assert_eq!(written(safe_parse_value(input)), parsed(expected));
    }
}

#[test]
fn safe_parse_value_beyond_json() {
    assert_eq!(safe_parse_value("+42"), ArgumentValue::Int(42));
    assert_eq!(safe_parse_value("007"), ArgumentValue::Int(7));
    assert_eq!(safe_parse_value(".5"), ArgumentValue::Float(".5".to_string()));
    assert_eq!(written(safe_parse_value(".5")), 0.5);
    assert_eq!(safe_parse_value("True"), ArgumentValue::Bool(true));
    assert_eq!(safe_parse_value("FALSE"), ArgumentValue::Bool(false));
    assert_eq!(safe_parse_value("None"), ArgumentValue::Null);
    assert_eq!(safe_parse_value("NULL"), ArgumentValue::Null);
    assert_eq!(safe_parse_value("inf"), ArgumentValue::Text("inf".to_string()));
    assert_eq!(safe_parse_value("NaN"), ArgumentValue::Text("NaN".to_string()));
    assert_eq!(
        safe_parse_value("99999999999999999999x"),
        ArgumentValue::Text("99999999999999999999x".to_string())
    );
    assert_eq!(safe_parse_value("&lt;b&gt;"), ArgumentValue::Text("<b>".to_string()));
    assert_eq!(written(safe_parse_value("{\"a\": [1, 2.5]}")), parsed("{\"a\": [1, 2.5]}"));
}

#[test]
fn test_html_unescape() {
    assert_eq!(html_unescape("&lt;div&gt;"), "<div>");
    assert_eq!(html_unescape("a &amp; b"), "a & b");
    assert_eq!(html_unescape("&quot;quoted&quot;"), "\"quoted\"");
}

#[test]
fn entities_are_replaced_one_after_the_other() {
    assert_eq!(html_unescape("&#x27;a&#39;"), "'a'");
    assert_eq!(html_unescape("&amp;lt;"), "&lt;");
    assert_eq!(html_unescape("&amp;quot;"), "\"");
    assert_eq!(html_unescape("&amp;amp;"), "&amp;");
    assert_eq!(html_unescape("&amp;#39;"), "'");
    assert_eq!(html_unescape("&l&lt;t;"), "&l<t;");
    assert_eq!(html_unescape("&nbsp; & &lt"), "&nbsp; & &lt");
    assert_eq!(html_unescape(""), "");
}

#[test]
fn unescaping_undoes_escaping() {
    for plain in ["", "a", "<b>&</b>", "&&lt;&gt;", "x < y && y > z", "äöü <｜>"] {
        let escaped = plain.replace('&', "&amp;").replace('<', "&lt;").replace('>', "&gt;");
        assert_eq!(html_unescape(&escaped), plain);
    }
}

#[test]
fn quotes_around_names_are_taken_off() {
    assert_eq!(strip_quotes("name"), "name");
    assert_eq!(strip_quotes("  name\n"), "name");
    assert_eq!(strip_quotes("\"name\""), "name");
    assert_eq!(strip_quotes(" 'name' "), "name");
    assert_eq!(strip_quotes("\"\""), "");
    assert_eq!(strip_quotes("\"'name'\""), "'name'");
    assert_eq!(strip_quotes("\"name'"), "\"name'");
    assert_eq!(strip_quotes("\" name \""), " name ");
    assert_eq!(strip_quotes(""), "");
    assert_eq!(strip_quotes("\""), "\"");
    assert_eq!(strip_quotes(" ' "), "'");
    assert_eq!(strip_quotes("\"name"), "\"name");
    assert_eq!(strip_quotes("name'"), "name'");
    assert_eq!(strip_quotes("\u{3000}名\u{a0}"), "名");
}

#[test]
fn strings_stay_as_they_are() {
    assert_eq!(converted("hello world", "string"), "hello world");
    assert_eq!(converted("42", "string"), "42");
    assert_eq!(converted("\n  spaced out \n", "string"), "spaced out");
    assert_eq!(converted("&lt;tag&gt;", "string"), "<tag>");
    for kind in ["string", "str", "text", "varchar", "char", "enum", "String", "ENUM"] {
        assert_eq!(converted("{\"a\": 1}", kind), "{\"a\": 1}");
    }
}

#[test]
fn integers_are_read_or_stay_text() {
    assert_eq!(converted("42", "integer"), 42);
    assert_eq!(converted("-7", "int"), -7);
    assert_eq!(converted("+7", "int"), 7);
    assert_eq!(converted("not_a_number", "int"), "not_a_number");
    assert_eq!(converted("4.0", "int"), "4.0");
    assert_eq!(converted("", "int"), "");
    assert_eq!(converted("-", "int"), "-");
    assert_eq!(converted("9223372036854775807", "int64"), 9223372036854775807i64);
    assert_eq!(converted("-9223372036854775808", "int64"), -9223372036854775808i64);
    assert_eq!(converted("9223372036854775808", "int64"), "9223372036854775808");
    assert_eq!(converted("٣", "int"), "٣");
    for kind in ["int", "integer", "int32", "int64", "uint", "long", "short", "unsigned", "INTEGER"] {
        assert_eq!(converted("5", kind), 5);
    }
}

#[test]
fn numbers_are_whole_or_have_a_fraction() {
    assert_eq!(converted("3.14", "number"), 3.14);
    assert_eq!(converted("41.9", "float"), 41.9);
    assert_eq!(written(ArgumentValue::Int(42)).to_string(), "42");
    assert_eq!(converted("42.0", "float").to_string(), "42");
    assert_eq!(converted("42", "number").to_string(), "42");
    assert_eq!(converted("-0.0", "number").to_string(), "0");
    assert_eq!(converted("1e3", "number").to_string(), "1000");
    assert_eq!(converted("1e-3", "number"), 0.001);
    assert_eq!(converted("5e-324", "number"), 5e-324);
    assert_eq!(converted("1e300", "number").to_string(), "9223372036854775807");
    assert_eq!(converted("-1e300", "number").to_string(), "-9223372036854775808");
    assert_eq!(converted("9007199254740993", "number").to_string(), "9007199254740992");
    for kind in ["number", "num", "float", "float32", "float64", "double", "Double"] {
        assert_eq!(converted("2.50", kind), 2.5);
    }
}

#[test]
fn what_is_no_finite_number_stays_text() {
    for raw in ["inf", "-inf", "infinity", "NaN", "1e400", "not_a_float", "1_000", "0x10", ""] {
        assert_eq!(converted(raw, "number"), raw);
    }
}

#[test]
fn booleans_are_true_or_false() {
    assert_eq!(converted("true", "boolean"), true);
    assert_eq!(converted("TRUE", "bool"), true);
    assert_eq!(converted("False", "binary"), false);
    assert_eq!(converted("yes", "bool"), false);
    assert_eq!(converted("ｔｒｕｅ", "bool"), false);
}

#[test]
fn structured_values_are_json_or_in_the_manner_of_python() {
    assert_eq!(converted("{\"key\": \"value\"}", "object"), parsed("{\"key\": \"value\"}"));
    assert_eq!(converted("[1, 2, 3]", "array"), parsed("[1, 2, 3]"));
    assert_eq!(converted("{'key': 'value'}", "dict"), parsed("{\"key\": \"value\"}"));
    assert_eq!(
        converted("[True, False, None]", "list"),
        parsed("[true, false, null]")
    );
    assert_eq!(converted("{broken", "object"), "{broken");
    for kind in ["object", "dict", "dictionary", "array", "arr", "list", "other_type", "null"] {
        assert_eq!(converted("['a']", kind), parsed("[\"a\"]"));
    }
    assert_eq!(converted("plain words", "other_type"), "plain words");
}

#[test]
fn null_comes_before_the_type() {
    for kind in ["string", "integer", "number", "boolean", "object", "other_type"] {
        for raw in ["null", "NULL", " Null\n"] {
            assert!(converted(raw, kind).is_null());
        }
    }
    assert!(written(convert_param_value("null", "p", None)).is_null());
}

#[test]
fn undeclared_parameters_stay_text() {
    assert_eq!(written(convert_param_value("123", "p", None)), "123");
    let declared = vec![("q".to_string(), object(vec![("type", text("integer"))]))];
    assert_eq!(written(convert_param_value("123", "p", Some(&declared))), "123");
    assert_eq!(written(convert_param_value("123", "q", Some(&declared))), 123);
}

#[test]
fn decisions_given_the_outside_result() {
    let json = "{\"a\": 1}".to_string();
    assert_eq!(literal_value(json.clone(), true, false), ArgumentValue::Json(json.clone()));
    assert_eq!(
        literal_value("{'a': None}".to_string(), false, true),
        ArgumentValue::Json("{\"a\": null}".to_string())
    );
    assert_eq!(literal_value("x".to_string(), false, false), ArgumentValue::Text("x".to_string()));
    assert_eq!(
        number_value("2.5".to_string(), Some(2.5f64.to_bits())),
        ArgumentValue::Float("2.5".to_string())
    );
    assert_eq!(number_value("2".to_string(), Some(2f64.to_bits())), ArgumentValue::Int(2));
    assert_eq!(number_value("x".to_string(), None), ArgumentValue::Text("x".to_string()));
    assert_eq!(
        number_value("inf".to_string(), Some(f64::INFINITY.to_bits())),
        ArgumentValue::Text("inf".to_string())
    );
    assert_eq!(parameter_value("1", false, true), ArgumentValue::Json("1".to_string()));
    assert_eq!(parameter_value("1", true, true), ArgumentValue::Text("1".to_string()));
    assert_eq!(parameter_value("x", false, false), ArgumentValue::Text("x".to_string()));
}

#[test]
fn literals_are_read_or_refused() {
    assert_eq!(python_to_json("{'a': True, 'b': None}"), "{\"a\": true, \"b\": null}");
    assert_eq!(python_to_json("False"), "false");
    assert_eq!(try_literal_eval("[1]"), Ok(ArgumentValue::Json("[1]".to_string())));
    assert_eq!(try_literal_eval("['a']"), Ok(ArgumentValue::Json("[\"a\"]".to_string())));
    assert_eq!(try_literal_eval("nothing"), Err(()));
}

#[test]
fn schemas_declare_parameters() {
    let schema = object(vec![
        ("type", text("object")),
        ("properties", object(vec![("a", object(vec![("type", text("integer"))]))])),
    ]);
    let declared = declared_parameters(&schema).unwrap();
    assert_eq!(declared.len(), 1);
    assert_eq!(declared[0].0, "a");
    let flat = object(vec![("a", object(vec![("type", text("integer"))]))]);
    assert_eq!(declared_parameters(&flat).unwrap()[0].0, "a");
    assert!(declared_parameters(&object(vec![("properties", text("none"))])).is_none());
    assert!(declared_parameters(&Json::Array(vec![])).is_none());
    assert!(declared_parameters(&Json::Null).is_none());
}

#[test]
fn the_first_tool_of_a_name_counts() {
    let tools = vec![
        ToolDefinition {
            name: "none".to_string(),
            parameters: None,
        },
        ToolDefinition {
            name: "f".to_string(),
            parameters: Some(object(vec![("a", text("first"))])),
        },
        ToolDefinition {
            name: "f".to_string(),
            parameters: Some(object(vec![("a", text("second"))])),
        },
    ];
    assert_eq!(get_arguments_config("f", Some(&tools)).unwrap()[0].1, text("first"));
    assert!(get_arguments_config("none", Some(&tools)).is_none());
    assert!(get_arguments_config("g", Some(&tools)).is_none());
    assert!(get_arguments_config("f", None).is_none());
}

#[test]
fn types_have_names() {
    assert_eq!(declared_type(&object(vec![("type", text("INTEGER"))])), "integer");
    assert_eq!(declared_type(&object(vec![("type", text("ÉNUM"))])), "énum");
    assert_eq!(declared_type(&object(vec![("anyOf", Json::Array(vec![]))])), "object");
    assert_eq!(declared_type(&object(vec![("oneOf", Json::Null)])), "object");
    assert_eq!(declared_type(&object(vec![])), "string");
    assert_eq!(declared_type(&Json::Bool(true)), "string");
    let list = object(vec![("type", Json::Array(vec![text("string")]))]);
    assert_eq!(declared_type(&list), "string");
    assert_eq!(kind_of("string"), ParamKind::Text);
    assert_eq!(kind_of("strings"), ParamKind::Other);
    assert_eq!(kind_of("interval"), ParamKind::Integer);
    assert_eq!(kind_of("numeric"), ParamKind::Number);
    assert_eq!(kind_of("double"), ParamKind::Number);
    assert_eq!(kind_of("boolean"), ParamKind::Boolean);
    assert_eq!(kind_of("listing"), ParamKind::Structured);
    assert_eq!(kind_of(""), ParamKind::Other);
}

#[test]
fn arguments_are_written_as_an_object() {
    let mut arguments = Arguments::new();
    assert_eq!(arguments.to_json(), "{}");
    arguments.insert("b".to_string(), ArgumentValue::Text("a \"quote\"\n".to_string()));
    arguments.insert("a".to_string(), ArgumentValue::Bool(true));
    arguments.insert("c".to_string(), ArgumentValue::Json("{ \"x\" : [ 1 , null ] }".to_string()));
    arguments.insert("d".to_string(), ArgumentValue::Float("2.50".to_string()));
    arguments.insert("e".to_string(), ArgumentValue::Int(-3));
    arguments.insert("f".to_string(), ArgumentValue::Null);
    assert_eq!(
        arguments.to_json(),
        r#"{"a":true,"b":"a \"quote\"\n","c":{"x":[1,null]},"d":2.5,"e":-3,"f":null}"#
    );
    arguments.insert("b".to_string(), ArgumentValue::Int(1));
    assert_eq!(
        arguments.to_json(),
        r#"{"a":true,"b":1,"c":{"x":[1,null]},"d":2.5,"e":-3,"f":null}"#
    );
}

#[test]
fn whole_numbers_are_those_of_the_machine() {
    let mut bits: u64 = 0x9e37_79b9_7f4a_7c15;
    let mut patterns: Vec<u64> = Vec::new();
    for exponent in 0..0x7ffu64 {
        patterns.push(exponent << 52);
        patterns.push((exponent << 52) | 0x000f_ffff_ffff_ffff);
        patterns.push((exponent << 52) | 0x8008_0000_0000_0000);
    }
    for _ in 0..20000 {
        bits = bits.wrapping_mul(6364136223846793005).wrapping_add(1442695040888963407);
        patterns.push(bits);
    }
    for value in -100i64..100 {
        patterns.push((value as f64).to_bits());
        patterns.push((value as f64 + 0.5).to_bits());
        patterns.push((value as f64 * 1e17).to_bits());
    }
    for bits in patterns {
        let value = f64::from_bits(bits);
        assert_eq!(finite_pattern(bits), value.is_finite());
        if value.is_finite() {
            let expected = if value.fract() == 0.0 {
                Some(value as i64)
            } else {
                None
            };
            assert_eq!(whole_number(bits), expected, "{value:e}");
        }
    }
}

#[test]
fn integers_are_those_of_the_standard_parser() {
    let pieces = ["", "0", "7", "-", "+", "9223372036854775807", " ", "x", "٣", "00"];
    for first in pieces {
        for second in pieces {
            for third in pieces {
                let text = format!("{first}{second}{third}");
                assert_eq!(parse_i64(&text), text.parse::<i64>().ok(), "{text:?}");
            }
        }
    }
    for text in ["-9223372036854775808", "-9223372036854775809", "9223372036854775808"] {
        assert_eq!(parse_i64(text), text.parse::<i64>().ok());
    }
}

#[test]
fn strings_are_escaped() {
    let mut arguments = Arguments::new();
    arguments.insert(
        "\"\\\n".to_string(),
        ArgumentValue::Text("\u{0}\u{7}\u{8}\t\n\u{b}\u{c}\r\u{e}\u{1f} /\u{7f}é\u{2028}𝄞'\"\\".to_string()),
    );
    assert_eq!(
        arguments.to_json(),
        "{\"\\\"\\\\\\n\":\"\\u0000\\u0007\\b\\t\\n\\u000b\\f\\r\\u000e\\u001f /\u{7f}é\u{2028}𝄞'\\\"\\\\\"}"
    );
}

#[test]
fn members_stand_in_the_order_of_their_names() {
    let mut arguments = Arguments::new();
    for name in ["b", "𝄞", "", "ab", "\u{ffff}", "a", "é", "B", "a b"] {
        arguments.insert(name.to_string(), ArgumentValue::Int(1));
    }
    assert_eq!(
        arguments.to_json(),
        "{\"\":1,\"B\":1,\"a\":1,\"a b\":1,\"ab\":1,\"b\":1,\"é\":1,\"\u{ffff}\":1,\"𝄞\":1}"
    );
}

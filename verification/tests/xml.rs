use tool_call_parsers::config::XmlParserConfig;
use tool_call_parsers::schema::{Json, ToolDefinition};
use tool_call_parsers::xml::{
    detect_tool_call_start_xml, find_tool_call_end_position_xml, try_tool_call_parse_xml,
};

/// The JSON value that `text` writes.
fn parsed(text: &str) -> serde_json::Value {
    serde_json::from_str(text).unwrap()
}

/// The document that `text` writes.
fn schema(text: &str) -> Json {
    document(&parsed(text))
}

/// A JSON value as a document.
fn document(value: &serde_json::Value) -> Json {
    match value {
        serde_json::Value::Null => Json::Null,
        serde_json::Value::Bool(value) => Json::Bool(*value),
        serde_json::Value::Number(number) => Json::Number(number.to_string()),
        serde_json::Value::String(text) => Json::Text(text.clone()),
        serde_json::Value::Array(items) => Json::Array(items.iter().map(document).collect()),
        serde_json::Value::Object(members) => Json::Object(
            members
                .iter()
                .map(|(name, value)| (name.clone(), document(value)))
                .collect(),
        ),
    }
}

#[test]
fn test_detect_tool_call_start() {
    let config = XmlParserConfig::default();
    assert!(detect_tool_call_start_xml("<tool_call>", &config));
    assert!(detect_tool_call_start_xml("text <tool_call>", &config));
    assert!(detect_tool_call_start_xml("<tool_c", &config));
    assert!(detect_tool_call_start_xml("<", &config));
    assert!(!detect_tool_call_start_xml("no tool call here", &config));
    assert!(!detect_tool_call_start_xml("toolcall", &config));
}

#[test]
fn test_find_tool_call_end_position() {
    let config = XmlParserConfig::default();
    let text = "<tool_call><function=test></function></tool_call>more text";
    let pos = find_tool_call_end_position_xml(text, &config);
    assert_eq!(pos, 49);
    assert_eq!(&text[pos..], "more text");

    let text_no_end = "<tool_call><function=test>";
    let pos = find_tool_call_end_position_xml(text_no_end, &config);
    assert_eq!(pos, text_no_end.len());
}

#[test]
fn test_find_tool_call_end_position_parallel_calls() {
    let config = XmlParserConfig::default();

    let two_calls = "<tool_call><function=foo><parameter=x>1</parameter></function></tool_call>\
                     <tool_call><function=bar><parameter=y>2</parameter></function></tool_call>\
                     trailing";
    let pos = find_tool_call_end_position_xml(two_calls, &config);
    assert!(
        &two_calls[..pos].ends_with("</tool_call>"),
        "should end at last </tool_call>, got: {:?}",
        &two_calls[..pos]
    );
    assert_eq!(&two_calls[pos..], "trailing");

    let three_calls = "<tool_call><function=a></function></tool_call>\n\
                       <tool_call><function=b></function></tool_call>\n\
                       <tool_call><function=c></function></tool_call> done";
    let pos3 = find_tool_call_end_position_xml(three_calls, &config);
    assert!(
        &three_calls[..pos3].ends_with("</tool_call>"),
        "should end at last </tool_call>, got: {:?}",
        &three_calls[..pos3]
    );
    assert_eq!(three_calls[pos3..].trim(), "done");

    let incomplete = "<tool_call><function=a></function></tool_call>\
                      <tool_call><function=b>";
    let pos_inc = find_tool_call_end_position_xml(incomplete, &config);
    let first_end = "<tool_call><function=a></function></tool_call>".len();
    assert_eq!(
        pos_inc, first_end,
        "should stop at end of first complete call when second is incomplete"
    );
}

#[test]
fn test_parse_multiple_parameters() {
    let input = r#"<tool_call>
<function=get_weather>
<parameter=city>
San Francisco
</parameter>
<parameter=state>
CA
</parameter>
<parameter=unit>
fahrenheit
</parameter>
</function>
</tool_call>"#;

    let (calls, _) = try_tool_call_parse_xml(input, &XmlParserConfig::default(), None).unwrap();
    assert_eq!(calls.len(), 1);
    assert_eq!(calls[0].function.name, "get_weather");

    let args: serde_json::Value = serde_json::from_str(&calls[0].function.arguments).unwrap();
    assert_eq!(args["city"], "San Francisco");
    assert_eq!(args["state"], "CA");
    assert_eq!(args["unit"], "fahrenheit");
}

#[test]
fn test_parse_with_normal_text() {
    let input = r#"I'll help you with that. <tool_call>
<function=get_weather>
<parameter=city>
Dallas
</parameter>
</function>
</tool_call> Let me check that for you."#;

    let (calls, normal) =
        try_tool_call_parse_xml(input, &XmlParserConfig::default(), None).unwrap();
    assert_eq!(calls.len(), 1);
    assert_eq!(calls[0].function.name, "get_weather");
    assert_eq!(
        normal,
        Some("I'll help you with that.  Let me check that for you.".to_string())
    );
}

#[test]
fn test_parse_multiple_tool_calls() {
    let input = r#"<tool_call>
<function=get_weather>
<parameter=city>
Dallas
</parameter>
</function>
</tool_call>
<tool_call>
<function=get_weather>
<parameter=city>
Orlando
</parameter>
</function>
</tool_call>"#;

    let (calls, _) = try_tool_call_parse_xml(input, &XmlParserConfig::default(), None).unwrap();
    assert_eq!(calls.len(), 2);
    assert_eq!(calls[0].function.name, "get_weather");
    assert_eq!(calls[1].function.name, "get_weather");

    let args0: serde_json::Value = serde_json::from_str(&calls[0].function.arguments).unwrap();
    let args1: serde_json::Value = serde_json::from_str(&calls[1].function.arguments).unwrap();
    assert_eq!(args0["city"], "Dallas");
    assert_eq!(args1["city"], "Orlando");
}

#[test]
fn test_parse_json_parameter_value() {
    let tools = vec![ToolDefinition {
        name: "process_data".to_string(),
        parameters: Some(schema(r#"{
            "type": "object",
            "properties": {
                "config": {"type": "object"}
            }
        }"#)),
    }];

    let input = r#"<tool_call>
<function=process_data>
<parameter=config>
{"setting": "value", "count": 42}
</parameter>
</function>
</tool_call>"#;

    let (calls, _) =
        try_tool_call_parse_xml(input, &XmlParserConfig::default(), Some(&tools)).unwrap();
    assert_eq!(calls.len(), 1);

    let args: serde_json::Value = serde_json::from_str(&calls[0].function.arguments).unwrap();
    assert!(args["config"].is_object());
    assert_eq!(args["config"]["setting"], "value");
    assert_eq!(args["config"]["count"], 42);
}

#[test]
fn test_parse_no_tool_calls() {
    let input = "This is just normal text without any tool calls.";
    let (calls, normal) =
        try_tool_call_parse_xml(input, &XmlParserConfig::default(), None).unwrap();
    assert_eq!(calls.len(), 0);
    assert_eq!(normal, Some(input.to_string()));
}

#[test]
fn test_parse_malformed_tool_call() {
    let input = r#"<tool_call>
<function=incomplete>
<parameter=test>
value
</tool_call>"#;

    let result = try_tool_call_parse_xml(input, &XmlParserConfig::default(), None);
    assert!(result.is_ok());
}

#[test]
fn test_parse_missing_parameter_closing_tag() {
    let input = r#"<tool_call>
<function=execute_bash>
<parameter=command>
ls -la
</function>
</tool_call>"#;

    let (calls, _) = try_tool_call_parse_xml(input, &XmlParserConfig::default(), None).unwrap();
    assert_eq!(calls.len(), 1);
    assert_eq!(calls[0].function.name, "execute_bash");

    let args: serde_json::Value = serde_json::from_str(&calls[0].function.arguments).unwrap();
    assert_eq!(args["command"], "ls -la");
}

#[test]
fn test_parse_missing_function_closing_tag() {
    let input = r#"<tool_call>
<function=get_weather>
<parameter=city>
Boston
</parameter>
</tool_call>"#;

    let (calls, _) = try_tool_call_parse_xml(input, &XmlParserConfig::default(), None).unwrap();
    assert_eq!(calls.len(), 1);
    assert_eq!(calls[0].function.name, "get_weather");

    let args: serde_json::Value = serde_json::from_str(&calls[0].function.arguments).unwrap();
    assert_eq!(args["city"], "Boston");
}

#[test]
fn test_parse_missing_both_closing_tags() {
    let input = r#"<tool_call>
<function=run_query>
<parameter=sql>
SELECT * FROM users
</tool_call>"#;

    let (calls, _) = try_tool_call_parse_xml(input, &XmlParserConfig::default(), None).unwrap();
    assert_eq!(calls.len(), 1);
    assert_eq!(calls[0].function.name, "run_query");

    let args: serde_json::Value = serde_json::from_str(&calls[0].function.arguments).unwrap();
    assert_eq!(args["sql"], "SELECT * FROM users\n</tool_call>");
}

#[test]
fn test_parse_multiple_parameters_missing_closing_tags() {
    let input = r#"<tool_call>
<function=search>
<parameter=query>
rust programming
<parameter=limit>
10
</function>
</tool_call>"#;

    let (calls, _) = try_tool_call_parse_xml(input, &XmlParserConfig::default(), None).unwrap();
    assert_eq!(calls.len(), 1);
    assert_eq!(calls[0].function.name, "search");

    let args: serde_json::Value = serde_json::from_str(&calls[0].function.arguments).unwrap();
    assert_eq!(args["query"], "rust programming\n<parameter=limit>\n10");
}

#[test]
fn test_schema_aware_type_conversion() {
    let tools = vec![ToolDefinition {
        name: "multi_param_func".to_string(),
        parameters: Some(schema(r#"{
            "type": "object",
            "properties": {
                "param1": {"type": "string"},
                "param2": {"type": "float"},
                "param3": {"type": "integer"},
                "param4": {"type": "boolean"},
                "param5": {"type": "object"},
                "param6": {"type": "array"},
                "param7": {"type": "null"},
                "param8": {"type": "other_type"}
            },
            "required": ["param1", "param2", "param3", "param4", "param5", "param6", "param7", "param8"]
        }"#)),
    }];

    let input = r#"<tool_call>
<function=multi_param_func>
<parameter=param1>42</parameter>
<parameter=param2>41.9</parameter>
<parameter=param3>42</parameter>
<parameter=param4>true</parameter>
<parameter=param5>{"key": "value"}</parameter>
<parameter=param6>[1, 2, 3]</parameter>
<parameter=param7>null</parameter>
<parameter=param8>{'arg1': 3, 'arg2': [1, 2]}</parameter>
</function>
</tool_call>"#;

    let (calls, _) =
        try_tool_call_parse_xml(input, &XmlParserConfig::default(), Some(&tools)).unwrap();
    assert_eq!(calls.len(), 1);
    assert_eq!(calls[0].function.name, "multi_param_func");

    let args: serde_json::Value = serde_json::from_str(&calls[0].function.arguments).unwrap();

    assert_eq!(args["param1"], "42");

    assert_eq!(args["param2"], 41.9);

    assert_eq!(args["param3"], 42);

    assert_eq!(args["param4"], true);

    assert_eq!(args["param5"], parsed(r#"{"key": "value"}"#));

    assert_eq!(args["param6"], parsed(r#"[1, 2, 3]"#));

    assert_eq!(args["param7"], serde_json::Value::Null);

    assert_eq!(
        args["param8"],
        parsed(r#"{"arg1": 3, "arg2": [1, 2]}"#)
    );
}

#[test]
fn test_schema_aware_type_conversion_fallback() {
    let tools = vec![ToolDefinition {
        name: "test_func".to_string(),
        parameters: Some(schema(r#"{
            "type": "object",
            "properties": {
                "int_param": {"type": "integer"},
                "float_param": {"type": "float"},
                "bool_param": {"type": "boolean"}
            }
        }"#)),
    }];

    let input = r#"<tool_call>
<function=test_func>
<parameter=int_param>not_an_int</parameter>
<parameter=float_param>not_a_float</parameter>
<parameter=bool_param>not_a_bool</parameter>
</function>
</tool_call>"#;

    let (calls, _) =
        try_tool_call_parse_xml(input, &XmlParserConfig::default(), Some(&tools)).unwrap();
    assert_eq!(calls.len(), 1);

    let args: serde_json::Value = serde_json::from_str(&calls[0].function.arguments).unwrap();

    assert_eq!(args["int_param"], "not_an_int");
    assert_eq!(args["float_param"], "not_a_float");
    assert_eq!(args["bool_param"], false);
}

#[test]
fn test_anyof_param_parsed_as_object_not_string() {
    let tools = vec![ToolDefinition {
        name: "get_weather".to_string(),
        parameters: Some(schema(r#"{
            "type": "object",
            "required": ["location"],
            "properties": {
                "location": {
                    "anyOf": [
                        {
                            "type": "object",
                            "properties": {"city": {"type": "string"}},
                            "required": ["city"]
                        },
                        {
                            "type": "object",
                            "properties": {
                                "lat": {"type": "number"},
                                "lon": {"type": "number"}
                            },
                            "required": ["lat", "lon"]
                        }
                    ]
                }
            }
        }"#)),
    }];

    let input = r#"<tool_call>
<function=get_weather>
<parameter=location>
{"city": "Paris"}
</parameter>
</function>
</tool_call>"#;

    let (calls, _) =
        try_tool_call_parse_xml(input, &XmlParserConfig::default(), Some(&tools)).unwrap();
    assert_eq!(calls.len(), 1);

    let args: serde_json::Value = serde_json::from_str(&calls[0].function.arguments).unwrap();
    assert!(
        args["location"].is_object(),
        "Expected location to be an object, got: {}",
        args["location"]
    );
    assert_eq!(args["location"]["city"], "Paris");
}

#[test]
fn test_no_schema_fallback_behavior() {
    let input = r#"<tool_call>
<function=unknown_func>
<parameter=param1>42</parameter>
<parameter=param2>true</parameter>
<parameter=param3>hello</parameter>
</function>
</tool_call>"#;

    let (calls, _) = try_tool_call_parse_xml(input, &XmlParserConfig::default(), None).unwrap();
    assert_eq!(calls.len(), 1);

    let args: serde_json::Value = serde_json::from_str(&calls[0].function.arguments).unwrap();

    assert_eq!(args["param1"], "42");
    assert_eq!(args["param2"], "true");
    assert_eq!(args["param3"], "hello");
}

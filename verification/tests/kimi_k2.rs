use tool_call_parsers::config::KimiK2ParserConfig;
use tool_call_parsers::kimi_k2::{
    detect_tool_call_start_kimi_k2, find_tool_call_end_position_kimi_k2,
    try_tool_call_parse_kimi_k2,
};
use tool_call_parsers::schema::{Json, ToolDefinition};

/// The JSON value that `text` writes.
fn parsed(text: &str) -> serde_json::Value {
    serde_json::from_str(text).unwrap()
}

/// The document that `text` writes.
fn schema(text: &str) -> Json {
    document(&parsed(text))
}

/// A JSON value as a document.
fn document(value: &serde_json::Value) -> Json {
    match value {
        serde_json::Value::Null => Json::Null,
        serde_json::Value::Bool(value) => Json::Bool(*value),
        serde_json::Value::Number(number) => Json::Number(number.to_string()),
        serde_json::Value::String(text) => Json::Text(text.clone()),
        serde_json::Value::Array(items) => Json::Array(items.iter().map(document).collect()),
        serde_json::Value::Object(members) => Json::Object(
            members
                .iter()
                .map(|(name, value)| (name.clone(), document(value)))
                .collect(),
        ),
    }
}

fn default_config() -> KimiK2ParserConfig {
    KimiK2ParserConfig::default()
}

#[test]
fn kimi_k2_parser_test_detect_tool_call_start() {
    let config = default_config();
    assert!(detect_tool_call_start_kimi_k2(
        "<|tool_calls_section_begin|>",
        &config
    ));
    assert!(detect_tool_call_start_kimi_k2(
        "text <|tool_calls_section_begin|>",
        &config
    ));
    assert!(detect_tool_call_start_kimi_k2("<|tool_calls_sec", &config));
    assert!(detect_tool_call_start_kimi_k2("<|", &config));
    assert!(!detect_tool_call_start_kimi_k2(
        "no tool call here",
        &config
    ));
    assert!(!detect_tool_call_start_kimi_k2("toolcall", &config));
}

#[test]
fn kimi_k2_parser_test_find_tool_call_end_position() {
    let config = default_config();
    let text = "<|tool_calls_section_begin|><|tool_call_begin|>functions.test:0<|tool_call_argument_begin|>{}<|tool_call_end|><|tool_calls_section_end|>more text";
    let pos = find_tool_call_end_position_kimi_k2(text, &config);
    assert_eq!(pos, Some(text.len() - "more text".len()));
    assert_eq!(&text[pos.unwrap()..], "more text");

    let text_no_end = "<|tool_calls_section_begin|><|tool_call_begin|>functions.test:0";
    let pos = find_tool_call_end_position_kimi_k2(text_no_end, &config);
    assert_eq!(pos, None, "should return None when section_end is missing");
}

#[test]
fn test_parse_multiple_args() {
    let config = default_config();
    let input = r#"<|tool_calls_section_begin|><|tool_call_begin|>functions.get_weather:0<|tool_call_argument_begin|>{"location":"San Francisco, CA","unit":"fahrenheit"}<|tool_call_end|><|tool_calls_section_end|>"#;

    let (calls, _) = try_tool_call_parse_kimi_k2(input, &config, None).unwrap();
    assert_eq!(calls.len(), 1);
    assert_eq!(calls[0].function.name, "get_weather");

    let args: serde_json::Value = serde_json::from_str(&calls[0].function.arguments).unwrap();
    assert_eq!(args["location"], "San Francisco, CA");
    assert_eq!(args["unit"], "fahrenheit");
}

#[test]
fn kimi_k2_parser_test_parse_multiple_tool_calls() {
    let config = default_config();
    let input = r#"<|tool_calls_section_begin|><|tool_call_begin|>functions.get_weather:0<|tool_call_argument_begin|>{"location":"NYC"}<|tool_call_end|><|tool_call_begin|>functions.get_time:1<|tool_call_argument_begin|>{"timezone":"EST"}<|tool_call_end|><|tool_calls_section_end|>"#;

    let (calls, normal) = try_tool_call_parse_kimi_k2(input, &config, None).unwrap();
    assert_eq!(calls.len(), 2);
    assert_eq!(calls[0].function.name, "get_weather");
    assert_eq!(calls[1].function.name, "get_time");
    assert_eq!(normal, Some("".to_string()));

    let args0: serde_json::Value = serde_json::from_str(&calls[0].function.arguments).unwrap();
    let args1: serde_json::Value = serde_json::from_str(&calls[1].function.arguments).unwrap();
    assert_eq!(args0["location"], "NYC");
    assert_eq!(args1["timezone"], "EST");
}

#[test]
fn kimi_k2_parser_test_parse_with_normal_text() {
    let config = default_config();
    let input = r#"I'll help you with that. <|tool_calls_section_begin|><|tool_call_begin|>functions.get_weather:0<|tool_call_argument_begin|>{"location":"Dallas"}<|tool_call_end|><|tool_calls_section_end|> Let me check."#;

    let (calls, normal) = try_tool_call_parse_kimi_k2(input, &config, None).unwrap();
    assert_eq!(calls.len(), 1);
    assert_eq!(calls[0].function.name, "get_weather");
    assert_eq!(
        normal,
        Some("I'll help you with that.  Let me check.".to_string())
    );
}

#[test]
fn test_parse_no_arg_call() {
    let config = default_config();
    let input = r#"<|tool_calls_section_begin|><|tool_call_begin|>functions.get_current_time:0<|tool_call_argument_begin|>{}<|tool_call_end|><|tool_calls_section_end|>"#;

    let (calls, _) = try_tool_call_parse_kimi_k2(input, &config, None).unwrap();
    assert_eq!(calls.len(), 1);
    assert_eq!(calls[0].function.name, "get_current_time");

    let args: serde_json::Value = serde_json::from_str(&calls[0].function.arguments).unwrap();
    assert!(args.as_object().unwrap().is_empty());
}

#[test]
fn kimi_k2_parser_test_parse_no_tool_calls() {
    let config = default_config();
    let input = "This is just normal text without any tool calls.";

    let (calls, normal) = try_tool_call_parse_kimi_k2(input, &config, None).unwrap();
    assert_eq!(calls.len(), 0);
    assert_eq!(normal, Some(input.to_string()));
}

#[test]
fn test_parse_without_functions_prefix() {
    let config = default_config();
    let input = r#"<|tool_calls_section_begin|><|tool_call_begin|>get_weather:0<|tool_call_argument_begin|>{"location":"NYC"}<|tool_call_end|><|tool_calls_section_end|>"#;

    let (calls, _) = try_tool_call_parse_kimi_k2(input, &config, None).unwrap();
    assert_eq!(calls.len(), 1);
    assert_eq!(calls[0].function.name, "get_weather");
}

#[test]
fn test_parse_with_tool_validation() {
    let config = default_config();
    let tools = vec![ToolDefinition {
        name: "get_weather".to_string(),
        parameters: Some(schema(r#"{
            "type": "object",
            "properties": {
                "location": {"type": "string"}
            }
        }"#)),
    }];

    let input = r#"<|tool_calls_section_begin|><|tool_call_begin|>functions.get_weather:0<|tool_call_argument_begin|>{"location":"NYC"}<|tool_call_end|><|tool_calls_section_end|>"#;

    let (calls, _) = try_tool_call_parse_kimi_k2(input, &config, Some(&tools)).unwrap();
    assert_eq!(calls.len(), 1);
    assert_eq!(calls[0].function.name, "get_weather");
}

#[test]
fn test_parse_malformed_no_section_end() {
    let config = default_config();
    let input = r#"<|tool_calls_section_begin|><|tool_call_begin|>functions.get_weather:0<|tool_call_argument_begin|>{"location":"NYC"}<|tool_call_end|>"#;

    let (calls, _normal) = try_tool_call_parse_kimi_k2(input, &config, None).unwrap();
    assert_eq!(
        calls.len(),
        1,
        "Should parse complete tool calls even without section_end (max_tokens truncation)"
    );
    assert_eq!(calls[0].function.name, "get_weather");
}

#[test]
fn test_parse_truncated_mid_argument_no_section_end() {
    let config = default_config();
    let input = r#"<|tool_calls_section_begin|><|tool_call_begin|>functions.get_weather:0<|tool_call_argument_begin|>{"location":"NY"#;

    let (calls, normal) = try_tool_call_parse_kimi_k2(input, &config, None).unwrap();
    assert_eq!(
        calls.len(),
        0,
        "Truly truncated call (no call_end) should return 0 tool calls"
    );
    assert_eq!(normal, Some("".to_string()));
}

#[test]
fn test_parse_multiple_calls_no_section_end() {
    let config = default_config();
    let input = r#"<|tool_calls_section_begin|><|tool_call_begin|>functions.get_weather:0<|tool_call_argument_begin|>{"location":"NYC"}<|tool_call_end|><|tool_call_begin|>functions.get_time:1<|tool_call_argument_begin|>{"timezone":"EST"}<|tool_call_end|>"#;

    let (calls, _) = try_tool_call_parse_kimi_k2(input, &config, None).unwrap();
    assert_eq!(
        calls.len(),
        2,
        "Should parse both complete tool calls even without section_end"
    );
    assert_eq!(calls[0].function.name, "get_weather");
    assert_eq!(calls[1].function.name, "get_time");
}

#[test]
fn test_parse_complete_plus_truncated_no_section_end() {
    let config = default_config();
    let input = r#"<|tool_calls_section_begin|><|tool_call_begin|>functions.get_weather:0<|tool_call_argument_begin|>{"location":"NYC"}<|tool_call_end|><|tool_call_begin|>functions.get_time:1<|tool_call_argument_begin|>{"tz"#;

    let (calls, _) = try_tool_call_parse_kimi_k2(input, &config, None).unwrap();
    assert_eq!(
        calls.len(),
        1,
        "Should parse the one complete tool call, ignoring the truncated second"
    );
    assert_eq!(calls[0].function.name, "get_weather");
}

#[test]
fn test_parse_with_whitespace() {
    let config = default_config();
    let input = "<|tool_calls_section_begin|>\n<|tool_call_begin|> functions.search:0 <|tool_call_argument_begin|> {\"query\":\"rust programming\"} <|tool_call_end|>\n<|tool_calls_section_end|>";

    let (calls, _) = try_tool_call_parse_kimi_k2(input, &config, None).unwrap();
    assert_eq!(calls.len(), 1);
    assert_eq!(calls[0].function.name, "search");

    let args: serde_json::Value = serde_json::from_str(&calls[0].function.arguments).unwrap();
    assert_eq!(args["query"], "rust programming");
}

#[test]
fn test_parse_complex_json_arguments() {
    let config = default_config();
    let input = r#"<|tool_calls_section_begin|><|tool_call_begin|>functions.process_data:0<|tool_call_argument_begin|>{"items":[1,2,3],"config":{"nested":true}}<|tool_call_end|><|tool_calls_section_end|>"#;

    let (calls, _) = try_tool_call_parse_kimi_k2(input, &config, None).unwrap();
    assert_eq!(calls.len(), 1);
    assert_eq!(calls[0].function.name, "process_data");

    let args: serde_json::Value = serde_json::from_str(&calls[0].function.arguments).unwrap();
    assert_eq!(args["items"], parsed(r#"[1, 2, 3]"#));
    assert_eq!(args["config"]["nested"], true);
}

#[test]
fn test_parse_deeply_nested_json_multiple_calls() {
    let config = default_config();
    let input = r#"<|tool_calls_section_begin|><|tool_call_begin|>functions.create_config:0<|tool_call_argument_begin|>{"database":{"primary":{"host":"db1.example.com","port":5432,"options":{"ssl":true,"pool":{"min":5,"max":20}}},"replica":{"host":"db2.example.com","port":5432}},"features":["auth","logging"]}<|tool_call_end|><|tool_call_begin|>functions.deploy:1<|tool_call_argument_begin|>{"env":"production","services":[{"name":"api","replicas":3,"config":{"memory":"2Gi","cpu":"1000m"}},{"name":"worker","replicas":2,"config":{"memory":"4Gi","cpu":"2000m"}}]}<|tool_call_end|><|tool_call_begin|>functions.notify:2<|tool_call_argument_begin|>{"channels":["slack","email"],"message":"Deployment started"}<|tool_call_end|><|tool_calls_section_end|>"#;

    let (calls, normal) = try_tool_call_parse_kimi_k2(input, &config, None).unwrap();
    assert_eq!(calls.len(), 3);

    assert_eq!(calls[0].function.name, "create_config");
    assert_eq!(calls[0].id, "functions.create_config:0");
    let args0: serde_json::Value = serde_json::from_str(&calls[0].function.arguments).unwrap();
    assert_eq!(args0["database"]["primary"]["options"]["pool"]["max"], 20);

    assert_eq!(calls[1].function.name, "deploy");
    assert_eq!(calls[1].id, "functions.deploy:1");
    let args1: serde_json::Value = serde_json::from_str(&calls[1].function.arguments).unwrap();
    assert_eq!(args1["services"][0]["config"]["memory"], "2Gi");

    assert_eq!(calls[2].function.name, "notify");
    assert_eq!(calls[2].id, "functions.notify:2");
    let args2: serde_json::Value = serde_json::from_str(&calls[2].function.arguments).unwrap();
    assert_eq!(args2["channels"], parsed(r#"["slack", "email"]"#));

    assert_eq!(normal, Some("".to_string()));
}

#[test]
fn test_detect_singular_section_start() {
    let config = default_config();
    assert!(detect_tool_call_start_kimi_k2(
        "<|tool_call_section_begin|>",
        &config
    ));
    assert!(detect_tool_call_start_kimi_k2(
        "text <|tool_call_section_b",
        &config
    ));
}

#[test]
fn test_parse_with_singular_section_tokens() {
    let config = default_config();
    let input = r#"<|tool_call_section_begin|><|tool_call_begin|>functions.get_weather:0<|tool_call_argument_begin|>{"location":"NYC"}<|tool_call_end|><|tool_call_section_end|>"#;

    let (calls, normal) = try_tool_call_parse_kimi_k2(input, &config, None).unwrap();
    assert_eq!(calls.len(), 1);
    assert_eq!(calls[0].function.name, "get_weather");
    assert_eq!(normal, Some("".to_string()));
}

#[test]
fn test_find_end_position_singular_variant() {
    let config = default_config();
    let text = "<|tool_call_section_begin|><|tool_call_begin|>functions.test:0<|tool_call_argument_begin|>{}<|tool_call_end|><|tool_call_section_end|>more text";
    let pos = find_tool_call_end_position_kimi_k2(text, &config);
    assert_eq!(&text[pos.unwrap()..], "more text");
}

#[test]
fn test_parse_invalid_json_falls_back_to_raw_string() {
    let config = default_config();
    let input = r#"<|tool_calls_section_begin|><|tool_call_begin|>functions.get_weather:0<|tool_call_argument_begin|>{invalid json here}<|tool_call_end|><|tool_calls_section_end|>"#;

    let (calls, _) = try_tool_call_parse_kimi_k2(input, &config, None).unwrap();
    assert_eq!(calls.len(), 1);
    assert_eq!(calls[0].function.name, "get_weather");
    assert_eq!(calls[0].function.arguments, "{invalid json here}");
}

#[test]
fn test_parse_invalid_function_id_rejected_by_regex() {
    let config = default_config();

    let input1 = r#"<|tool_calls_section_begin|><|tool_call_begin|>just_a_name<|tool_call_argument_begin|>{"key":"val"}<|tool_call_end|><|tool_calls_section_end|>"#;
    let (calls, _) = try_tool_call_parse_kimi_k2(input1, &config, None).unwrap();
    assert_eq!(calls.len(), 0, "ID without :digit should be rejected");

    let input2 = r#"<|tool_calls_section_begin|><|tool_call_begin|>functions.get_weather:abc<|tool_call_argument_begin|>{"key":"val"}<|tool_call_end|><|tool_calls_section_end|>"#;
    let (calls, _) = try_tool_call_parse_kimi_k2(input2, &config, None).unwrap();
    assert_eq!(calls.len(), 0, "ID with :non-digit should be rejected");

    let input3 = r#"<|tool_calls_section_begin|><|tool_call_begin|>:::0<|tool_call_argument_begin|>{"key":"val"}<|tool_call_end|><|tool_calls_section_end|>"#;
    let (calls, _) = try_tool_call_parse_kimi_k2(input3, &config, None).unwrap();
    assert_eq!(calls.len(), 0, "Garbage ID should be rejected");

    let input4 = r#"<|tool_calls_section_begin|><|tool_call_begin|>no_colon<|tool_call_argument_begin|>{"a":"b"}<|tool_call_end|><|tool_call_begin|>functions.valid:0<|tool_call_argument_begin|>{"x":"y"}<|tool_call_end|><|tool_calls_section_end|>"#;
    let (calls, _) = try_tool_call_parse_kimi_k2(input4, &config, None).unwrap();
    assert_eq!(calls.len(), 1, "Only valid call should be extracted");
    assert_eq!(calls[0].function.name, "valid");
}

#[test]
fn test_parse_angle_brackets_in_json_arguments() {
    let config = default_config();
    let input = r#"<|tool_calls_section_begin|><|tool_call_begin|>functions.render_html:0<|tool_call_argument_begin|>{"template":"<div class=\"main\"><h1>Title</h1><p>Content</p></div>","format":"html"}<|tool_call_end|><|tool_calls_section_end|>"#;

    let (calls, _) = try_tool_call_parse_kimi_k2(input, &config, None).unwrap();
    assert_eq!(calls.len(), 1);
    assert_eq!(calls[0].function.name, "render_html");

    let args: serde_json::Value = serde_json::from_str(&calls[0].function.arguments).unwrap();
    assert!(args["template"].as_str().unwrap().contains("<div"));
    assert!(args["template"].as_str().unwrap().contains("</div>"));
    assert_eq!(args["format"], "html");
}

#[test]
fn test_parse_three_concatenated_calls_no_spacing() {
    let config = default_config();
    let input = "<|tool_calls_section_begin|>\
        <|tool_call_begin|>functions.search:0<|tool_call_argument_begin|>{\"q\":\"rust\"}<|tool_call_end|>\
        <|tool_call_begin|>functions.search:1<|tool_call_argument_begin|>{\"q\":\"python\"}<|tool_call_end|>\
        <|tool_call_begin|>functions.search:2<|tool_call_argument_begin|>{\"q\":\"go\"}<|tool_call_end|>\
        <|tool_calls_section_end|>";

    let (calls, normal) = try_tool_call_parse_kimi_k2(input, &config, None).unwrap();
    assert_eq!(calls.len(), 3);
    assert_eq!(calls[0].function.name, "search");
    assert_eq!(calls[0].id, "functions.search:0");
    assert_eq!(calls[1].function.name, "search");
    assert_eq!(calls[1].id, "functions.search:1");
    assert_eq!(calls[2].function.name, "search");
    assert_eq!(calls[2].id, "functions.search:2");

    let a0: serde_json::Value = serde_json::from_str(&calls[0].function.arguments).unwrap();
    let a1: serde_json::Value = serde_json::from_str(&calls[1].function.arguments).unwrap();
    let a2: serde_json::Value = serde_json::from_str(&calls[2].function.arguments).unwrap();
    assert_eq!(a0["q"], "rust");
    assert_eq!(a1["q"], "python");
    assert_eq!(a2["q"], "go");
    assert_eq!(normal, Some("".to_string()));
}

#[test]
fn test_parse_newlines_in_json_arguments() {
    let config = default_config();
    let input = "<|tool_calls_section_begin|><|tool_call_begin|>functions.create_user:0<|tool_call_argument_begin|>{\n  \"name\": \"John Doe\",\n  \"address\": {\n    \"street\": \"123 Main St\",\n    \"city\": \"Springfield\"\n  },\n  \"tags\": [\n    \"admin\",\n    \"active\"\n  ]\n}<|tool_call_end|><|tool_calls_section_end|>";

    let (calls, _) = try_tool_call_parse_kimi_k2(input, &config, None).unwrap();
    assert_eq!(calls.len(), 1);
    assert_eq!(calls[0].function.name, "create_user");

    let args: serde_json::Value = serde_json::from_str(&calls[0].function.arguments).unwrap();
    assert_eq!(args["name"], "John Doe");
    assert_eq!(args["address"]["city"], "Springfield");
    assert_eq!(args["tags"], parsed(r#"["admin", "active"]"#));
}

#[test]
fn test_parse_empty_tool_section() {
    let config = default_config();
    let input = "Here is my answer. <|tool_calls_section_begin|><|tool_calls_section_end|> And more text.";

    let (calls, normal) = try_tool_call_parse_kimi_k2(input, &config, None).unwrap();
    assert_eq!(calls.len(), 0, "Empty section should produce no tool calls");
    assert_eq!(
        normal,
        Some("Here is my answer.  And more text.".to_string()),
        "Text around empty section should be preserved"
    );
}

#[test]
fn test_parse_names_with_hyphens() {
    let cases = [
        (
            r#"<|tool_calls_section_begin|><|tool_call_begin|>functions.list-tasklists:0<|tool_call_argument_begin|>{}<|tool_call_end|><|tool_calls_section_end|>"#,
            "list-tasklists",
            "functions.list-tasklists:0",
        ),
        (
            r#"<|tool_calls_section_begin|><|tool_call_begin|>functions.mcp__portal__search-documents:3<|tool_call_argument_begin|>{}<|tool_call_end|><|tool_calls_section_end|>"#,
            "mcp__portal__search-documents",
            "functions.mcp__portal__search-documents:3",
        ),
        (
            r#"<|tool_calls_section_begin|><|tool_call_begin|>functions.gtasks_list-tasklists:0<|tool_call_argument_begin|>{}<|tool_call_end|><|tool_calls_section_end|>"#,
            "gtasks_list-tasklists",
            "functions.gtasks_list-tasklists:0",
        ),
    ];
    for (input, name, id) in cases {
        let config = default_config();
        let (calls, _normal) = try_tool_call_parse_kimi_k2(input, &config, None).unwrap();
        assert_eq!(calls.len(), 1);
        assert_eq!(calls[0].function.name, name);
        assert_eq!(calls[0].id, id);
    }
}

use tool_call_parsers::config::DsmlParserConfig;
use tool_call_parsers::dsml::{
    detect_tool_call_start_dsml, find_tool_call_end_position_dsml, try_tool_call_parse_dsml,
};
use tool_call_parsers::response::ToolCallResponse;

/// The JSON value that `text` writes.
fn parsed(text: &str) -> serde_json::Value {
    serde_json::from_str(text).unwrap()
}

fn extract_name_and_args(call: ToolCallResponse) -> (String, serde_json::Value) {
    let args: serde_json::Value = serde_json::from_str(&call.function.arguments).unwrap();
    (call.function.name, args)
}

fn get_test_config() -> DsmlParserConfig {
    DsmlParserConfig::default()
}

fn get_v4_test_config() -> DsmlParserConfig {
    DsmlParserConfig {
        function_calls_start: "<｜DSML｜tool_calls>".to_string(),
        function_calls_end: "</｜DSML｜tool_calls>".to_string(),
        ..Default::default()
    }
}

#[test]
fn parser_test_detect_tool_call_start() {
    let config = get_test_config();
    assert!(detect_tool_call_start_dsml(
        "<｜DSML｜function_calls>",
        &config
    ));
    assert!(detect_tool_call_start_dsml(
        "text <｜DSML｜function_calls>",
        &config
    ));
    assert!(detect_tool_call_start_dsml("<｜DSML｜function_c", &config));
    assert!(!detect_tool_call_start_dsml("no tool call here", &config));
}

#[test]
fn test_detect_tool_call_start_v4() {
    let config = get_v4_test_config();
    assert!(detect_tool_call_start_dsml("<｜DSML｜tool_calls>", &config));
    assert!(detect_tool_call_start_dsml(
        "text <｜DSML｜tool_calls>",
        &config
    ));
    assert!(detect_tool_call_start_dsml("<｜DSML｜tool_c", &config));
    assert!(!detect_tool_call_start_dsml(
        "<｜DSML｜function_calls>",
        &config
    ));
    assert!(!detect_tool_call_start_dsml("no tool call here", &config));
}

#[test]
fn parser_test_find_tool_call_end_position() {
    let config = get_test_config();
    let text = "<｜DSML｜function_calls><｜DSML｜invoke name=\"test\"></｜DSML｜invoke></｜DSML｜function_calls>more";
    let pos = find_tool_call_end_position_dsml(text, &config);
    assert_eq!(&text[pos..], "more");
}

#[test]
fn test_find_tool_call_end_position_v4() {
    let config = get_v4_test_config();
    let text = "<｜DSML｜tool_calls><｜DSML｜invoke name=\"test\"></｜DSML｜invoke></｜DSML｜tool_calls>more";
    let pos = find_tool_call_end_position_dsml(text, &config);
    assert_eq!(&text[pos..], "more");
}

#[test]
fn test_parse_single_tool_call_mixed_params() {
    let input = r#"<｜DSML｜function_calls>
<｜DSML｜invoke name="search">
<｜DSML｜parameter name="query" string="true">test query</｜DSML｜parameter>
<｜DSML｜parameter name="topn" string="false">10</｜DSML｜parameter>
</｜DSML｜invoke>
</｜DSML｜function_calls>"#;

    let config = get_test_config();
    let (calls, _) = try_tool_call_parse_dsml(input, &config).unwrap();
    assert_eq!(calls.len(), 1);

    let (name, args) = extract_name_and_args(calls[0].clone());
    assert_eq!(name, "search");
    assert_eq!(args["query"], "test query");
    assert_eq!(args["topn"], 10);
}

#[test]
fn parser_test_parse_multiple_tool_calls() {
    let input = r#"<｜DSML｜function_calls>
<｜DSML｜invoke name="get_weather">
<｜DSML｜parameter name="location" string="true">Beijing</｜DSML｜parameter>
<｜DSML｜parameter name="date" string="true">2024-01-16</｜DSML｜parameter>
</｜DSML｜invoke>
<｜DSML｜invoke name="get_weather">
<｜DSML｜parameter name="location" string="true">Hangzhou</｜DSML｜parameter>
<｜DSML｜parameter name="date" string="true">2024-01-16</｜DSML｜parameter>
</｜DSML｜invoke>
</｜DSML｜function_calls>"#;

    let config = get_test_config();
    let (calls, _) = try_tool_call_parse_dsml(input, &config).unwrap();
    assert_eq!(calls.len(), 2);

    let (name1, args1) = extract_name_and_args(calls[0].clone());
    assert_eq!(name1, "get_weather");
    assert_eq!(args1["location"], "Beijing");

    let (name2, args2) = extract_name_and_args(calls[1].clone());
    assert_eq!(name2, "get_weather");
    assert_eq!(args2["location"], "Hangzhou");
}

#[test]
fn test_parse_deepseek_v4_multiple_tool_calls() {
    let input = r#"Let's check this. <｜DSML｜tool_calls>
<｜DSML｜invoke name="get_favorite_tourist_spot">
<｜DSML｜parameter name="city" string="true">Beijing</｜DSML｜parameter>
</｜DSML｜invoke>
<｜DSML｜invoke name="search">
<｜DSML｜parameter name="query" string="true">search agent benchmark 2024</｜DSML｜parameter>
<｜DSML｜parameter name="topn" string="false">10</｜DSML｜parameter>
<｜DSML｜parameter name="source" string="true">web</｜DSML｜parameter>
</｜DSML｜invoke>
</｜DSML｜tool_calls>"#;

    let config = get_v4_test_config();
    let (calls, normal) = try_tool_call_parse_dsml(input, &config).unwrap();
    assert_eq!(calls.len(), 2);
    assert_eq!(normal, Some("Let's check this.".to_string()));

    let (name1, args1) = extract_name_and_args(calls[0].clone());
    assert_eq!(name1, "get_favorite_tourist_spot");
    assert_eq!(args1["city"], "Beijing");

    let (name2, args2) = extract_name_and_args(calls[1].clone());
    assert_eq!(name2, "search");
    assert_eq!(args2["query"], "search agent benchmark 2024");
    assert_eq!(args2["topn"], 10);
    assert_eq!(args2["source"], "web");
}

#[test]
fn test_parse_deepseek_v4_no_parameters() {
    let input = r#"<｜DSML｜tool_calls>
<｜DSML｜invoke name="get_current_time">
</｜DSML｜invoke>
</｜DSML｜tool_calls>"#;

    let config = get_v4_test_config();
    let (calls, normal) = try_tool_call_parse_dsml(input, &config).unwrap();
    assert_eq!(calls.len(), 1);
    assert_eq!(normal, Some("".to_string()));

    let (name, args) = extract_name_and_args(calls[0].clone());
    assert_eq!(name, "get_current_time");
    assert_eq!(args, parsed(r#"{}"#));
}

#[test]
fn parser_test_parse_with_normal_text() {
    let input = r#"Here's the result: <｜DSML｜function_calls>
<｜DSML｜invoke name="test">
<｜DSML｜parameter name="value" string="true">test</｜DSML｜parameter>
</｜DSML｜invoke>
</｜DSML｜function_calls>"#;

    let config = get_test_config();
    let (calls, normal) = try_tool_call_parse_dsml(input, &config).unwrap();
    assert_eq!(calls.len(), 1);
    assert_eq!(normal, Some("Here's the result:".to_string()));
}

#[test]
fn parser_test_parse_no_tool_calls() {
    let input = "This is just normal text without any tool calls.";
    let config = get_test_config();
    let (calls, normal) = try_tool_call_parse_dsml(input, &config).unwrap();
    assert_eq!(calls.len(), 0);
    assert_eq!(normal, Some(input.to_string()));
}

#[test]
fn parser_test_parse_json_parameter_value() {
    let input = r#"<｜DSML｜function_calls>
<｜DSML｜invoke name="process">
<｜DSML｜parameter name="config" string="false">{"key": "value", "count": 42}</｜DSML｜parameter>
</｜DSML｜invoke>
</｜DSML｜function_calls>"#;

    let config = get_test_config();
    let (calls, _) = try_tool_call_parse_dsml(input, &config).unwrap();
    assert_eq!(calls.len(), 1);

    let (_, args) = extract_name_and_args(calls[0].clone());
    assert!(args["config"].is_object());
    assert_eq!(args["config"]["key"], "value");
    assert_eq!(args["config"]["count"], 42);
}

#[test]
fn test_parse_array_parameter_value() {
    let input = r#"<｜DSML｜function_calls>
<｜DSML｜invoke name="process">
<｜DSML｜parameter name="items" string="false">[1, 2, 3]</｜DSML｜parameter>
</｜DSML｜invoke>
</｜DSML｜function_calls>"#;

    let config = get_test_config();
    let (calls, _) = try_tool_call_parse_dsml(input, &config).unwrap();
    assert_eq!(calls.len(), 1);

    let (_, args) = extract_name_and_args(calls[0].clone());
    assert!(args["items"].is_array());
    assert_eq!(args["items"][0], 1);
    assert_eq!(args["items"][2], 3);
}

#[test]
fn test_parse_boolean_parameters() {
    let input = r#"<｜DSML｜function_calls>
<｜DSML｜invoke name="config">
<｜DSML｜parameter name="enabled" string="false">true</｜DSML｜parameter>
<｜DSML｜parameter name="disabled" string="false">false</｜DSML｜parameter>
</｜DSML｜invoke>
</｜DSML｜function_calls>"#;

    let config = get_test_config();
    let (calls, _) = try_tool_call_parse_dsml(input, &config).unwrap();
    assert_eq!(calls.len(), 1);

    let (_, args) = extract_name_and_args(calls[0].clone());
    assert_eq!(args["enabled"], true);
    assert_eq!(args["disabled"], false);
}

#[test]
fn test_parse_number_parameters() {
    let input = r#"<｜DSML｜function_calls>
<｜DSML｜invoke name="calculate">
<｜DSML｜parameter name="integer" string="false">42</｜DSML｜parameter>
<｜DSML｜parameter name="float" string="false">2.7</｜DSML｜parameter>
<｜DSML｜parameter name="negative" string="false">-100</｜DSML｜parameter>
</｜DSML｜invoke>
</｜DSML｜function_calls>"#;

    let config = get_test_config();
    let (calls, _) = try_tool_call_parse_dsml(input, &config).unwrap();
    assert_eq!(calls.len(), 1);

    let (_, args) = extract_name_and_args(calls[0].clone());
    assert_eq!(args["integer"], 42);
    assert_eq!(args["float"], 2.7);
    assert_eq!(args["negative"], -100);
}

#[test]
fn test_parse_mixed_types_realistic() {
    let input = r#"<｜DSML｜function_calls>
<｜DSML｜invoke name="search">
<｜DSML｜parameter name="query" string="true">search agent benchmark 2024</｜DSML｜parameter>
<｜DSML｜parameter name="topn" string="false">10</｜DSML｜parameter>
<｜DSML｜parameter name="source" string="true">web</｜DSML｜parameter>
</｜DSML｜invoke>
</｜DSML｜function_calls>"#;

    let config = get_test_config();
    let (calls, _) = try_tool_call_parse_dsml(input, &config).unwrap();
    assert_eq!(calls.len(), 1);

    let (name, args) = extract_name_and_args(calls[0].clone());
    assert_eq!(name, "search");
    assert_eq!(args["query"], "search agent benchmark 2024");
    assert_eq!(args["topn"], 10);
    assert_eq!(args["source"], "web");
}

#[test]
fn test_parse_nested_object_parameter() {
    let input = r#"<｜DSML｜function_calls>
<｜DSML｜invoke name="configure">
<｜DSML｜parameter name="settings" string="false">{"timeout": 30, "retry": true, "endpoints": ["a", "b"]}</｜DSML｜parameter>
</｜DSML｜invoke>
</｜DSML｜function_calls>"#;

    let config = get_test_config();
    let (calls, _) = try_tool_call_parse_dsml(input, &config).unwrap();
    assert_eq!(calls.len(), 1);

    let (_, args) = extract_name_and_args(calls[0].clone());
    assert!(args["settings"].is_object());
    assert_eq!(args["settings"]["timeout"], 30);
    assert_eq!(args["settings"]["retry"], true);
    assert!(args["settings"]["endpoints"].is_array());
    assert_eq!(args["settings"]["endpoints"][0], "a");
}

#[test]
fn test_parse_empty_string_parameter() {
    let input = r#"<｜DSML｜function_calls>
<｜DSML｜invoke name="test">
<｜DSML｜parameter name="empty" string="true"></｜DSML｜parameter>
</｜DSML｜invoke>
</｜DSML｜function_calls>"#;

    let config = get_test_config();
    let (calls, _) = try_tool_call_parse_dsml(input, &config).unwrap();
    assert_eq!(calls.len(), 1);

    let (_, args) = extract_name_and_args(calls[0].clone());
    assert_eq!(args["empty"], "");
}

#[test]
fn test_parse_null_parameter() {
    let input = r#"<｜DSML｜function_calls>
<｜DSML｜invoke name="test">
<｜DSML｜parameter name="value" string="false">null</｜DSML｜parameter>
</｜DSML｜invoke>
</｜DSML｜function_calls>"#;

    let config = get_test_config();
    let (calls, _) = try_tool_call_parse_dsml(input, &config).unwrap();
    assert_eq!(calls.len(), 1);

    let (_, args) = extract_name_and_args(calls[0].clone());
    assert!(args["value"].is_null());
}

#[test]
fn test_parse_deepseek_v4_missing_end_token() {
    let input = "<｜DSML｜tool_calls>\n\
<｜DSML｜invoke name=\"get_weather\">\n\
<｜DSML｜parameter name=\"city\" string=\"true\">NYC</｜DSML｜parameter>\n\
</｜DSML｜invoke>";

    let config = get_v4_test_config();
    let (calls, normal_text) = try_tool_call_parse_dsml(input, &config).unwrap();

    assert!(
        calls.is_empty(),
        "A block without </｜DSML｜tool_calls> has no calls."
    );
    assert_eq!(
        normal_text.as_deref(),
        Some(input),
        "Unrecovered payload should fall through to normal_text verbatim."
    );
}

#[test]
fn test_parse_deepseek_v4_missing_end_token_multiple_calls() {
    let input = "<｜DSML｜tool_calls>\n\
<｜DSML｜invoke name=\"a\">\n\
<｜DSML｜parameter name=\"x\" string=\"true\">1</｜DSML｜parameter>\n\
</｜DSML｜invoke>\n\
<｜DSML｜invoke name=\"b\">\n\
<｜DSML｜parameter name=\"y\" string=\"true\">2</｜DSML｜parameter>\n\
</｜DSML｜invoke>";

    let config = get_v4_test_config();
    let (calls, _) = try_tool_call_parse_dsml(input, &config).unwrap();

    assert!(
        calls.is_empty(),
        "Even two fully-formed invokes are dropped when the outer \
         </｜DSML｜tool_calls> is missing."
    );
}

#[test]
fn test_parse_deepseek_v4_malformed_json_value_falls_back_to_string() {
    let input = "<｜DSML｜tool_calls>\n\
<｜DSML｜invoke name=\"test\">\n\
<｜DSML｜parameter name=\"payload\" string=\"false\">{this is not valid json</｜DSML｜parameter>\n\
</｜DSML｜invoke>\n\
</｜DSML｜tool_calls>";

    let config = get_v4_test_config();
    let (calls, _) = try_tool_call_parse_dsml(input, &config).unwrap();
    assert_eq!(calls.len(), 1);

    let (name, args) = extract_name_and_args(calls[0].clone());
    assert_eq!(name, "test");
    assert_eq!(
        args["payload"], "{this is not valid json",
        "Malformed JSON should fall back to the raw string, not drop \
         the parameter or the call."
    );
}

#[test]
fn test_parse_deepseek_v4_missing_invoke_close_drops_call() {
    let input = "<｜DSML｜tool_calls>\n\
<｜DSML｜invoke name=\"test\">\n\
<｜DSML｜parameter name=\"x\" string=\"true\">value</｜DSML｜parameter>\n\
</｜DSML｜tool_calls>";

    let config = get_v4_test_config();
    let (calls, _) = try_tool_call_parse_dsml(input, &config).unwrap();
    assert!(
        calls.is_empty(),
        "An invoke without </｜DSML｜invoke> makes no call."
    );
}

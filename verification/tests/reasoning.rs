use tool_call_parsers::reasoning::{MiniMaxAppendThinkParser, ReasoningParser};

#[test]
fn test_detect_and_parse_prepends_think_all_as_normal_text() {
    let mut parser = MiniMaxAppendThinkParser::new();
    let result = parser.detect_and_parse_reasoning("reasoning content here", &[]);
    assert_eq!(result.normal_text, "<think>reasoning content here");
    assert_eq!(result.reasoning_text, "");
}

#[test]
fn test_detect_and_parse_with_end_token_is_still_normal_text() {
    let mut parser = MiniMaxAppendThinkParser::new();
    let result =
        parser.detect_and_parse_reasoning("reasoning content</think>normal response", &[]);
    assert_eq!(
        result.normal_text,
        "<think>reasoning content</think>normal response"
    );
    assert_eq!(result.reasoning_text, "");
}

#[test]
fn test_streaming_first_chunk_gets_prefix_rest_pass_through() {
    let mut parser = MiniMaxAppendThinkParser::new();

    let r1 = parser.parse_reasoning_streaming_incremental("I need to ", &[]);
    assert_eq!(r1.normal_text, "<think>I need to ");
    assert_eq!(r1.reasoning_text, "");

    let r2 = parser.parse_reasoning_streaming_incremental("check the weather", &[]);
    assert_eq!(r2.normal_text, "check the weather");
    assert_eq!(r2.reasoning_text, "");

    let r3 = parser.parse_reasoning_streaming_incremental("</think>The weather is sunny.", &[]);
    assert_eq!(r3.normal_text, "</think>The weather is sunny.");
    assert_eq!(r3.reasoning_text, "");
}

#[test]
fn test_streaming_bare_json_tool_call_is_normal_text() {
    let mut parser = MiniMaxAppendThinkParser::new();
    let r = parser.parse_reasoning_streaming_incremental(
        r#"[{"name":"get_weather","parameters":{"location":"San Francisco"}}]"#,
        &[],
    );
    assert_eq!(
        r.normal_text,
        r#"<think>[{"name":"get_weather","parameters":{"location":"San Francisco"}}]"#
    );
    assert_eq!(r.reasoning_text, "");
}

#[test]
fn test_streaming_tool_call_after_reasoning_is_all_normal_text() {
    let mut parser = MiniMaxAppendThinkParser::new();

    let r1 = parser.parse_reasoning_streaming_incremental("let me call a tool", &[]);
    assert_eq!(r1.normal_text, "<think>let me call a tool");

    let r2 = parser.parse_reasoning_streaming_incremental(
        "</think><minimax:tool_call><invoke name=\"get_weather\">",
        &[],
    );
    assert_eq!(
        r2.normal_text,
        "</think><minimax:tool_call><invoke name=\"get_weather\">"
    );
    assert_eq!(r2.reasoning_text, "");
}

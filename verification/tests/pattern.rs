use tool_call_parsers::config::{DsmlParserConfig, KimiK2ParserConfig, XmlParserConfig};
use tool_call_parsers::dsml::{self, try_tool_call_parse_dsml};
use tool_call_parsers::kimi_k2::{self, can_compile_kimi_k2};
use tool_call_parsers::pattern::{Part, call_pattern, part_pattern};
use tool_call_parsers::response::{ParseError, ToolCallResponse};
use tool_call_parsers::xml::{self, try_tool_call_parse_xml};

/// Many characters: more than a pattern can have.
fn long() -> String {
    "x".repeat(1_000_000)
}

/// The names and arguments of calls.
fn said(calls: &[ToolCallResponse]) -> Vec<(&str, &str)> {
    calls
        .iter()
        .map(|call| (call.function.name.as_str(), call.function.arguments.as_str()))
        .collect()
}

#[test]
fn tokens_of_functions_and_parameters_may_be_too_long() {
    let block = "<tool_call><function=f><parameter=a>1</parameter></function></tool_call>";
    let message = format!(" text {block}");
    let configs = [
        XmlParserConfig { function_start_token: long(), ..Default::default() },
        XmlParserConfig { function_end_token: long(), ..Default::default() },
        XmlParserConfig { parameter_start_token: long(), ..Default::default() },
        XmlParserConfig { parameter_end_token: long(), ..Default::default() },
    ];
    for config in &configs {
        assert_eq!(xml::parse_tool_call_block(block, config, None).unwrap_err(), ParseError);
        let (text, calls) = xml::extract_tool_calls(&message, config, None);
        assert_eq!((text.as_str(), calls.len()), ("text", 0));
        let (calls, normal) = try_tool_call_parse_xml(&message, config, None).unwrap();
        assert_eq!((calls.len(), normal.as_deref()), (0, Some("text")));
    }
    let config = XmlParserConfig::default();
    assert_eq!(xml::block_calls(block, &config, None, false).unwrap_err(), ParseError);
    let calls = xml::block_calls(block, &config, None, true).unwrap();
    assert_eq!(said(&calls), vec![("f", "{\"a\":\"1\"}")]);
    let (text, calls) = xml::text_and_calls(&message, &config, None, false);
    assert_eq!((text.as_str(), calls.len()), ("text", 0));
    let (text, calls) = xml::text_and_calls(&message, &config, None, true);
    assert_eq!((text.as_str(), said(&calls)), ("text", vec![("f", "{\"a\":\"1\"}")]));
}

#[test]
fn tokens_of_blocks_in_xml_style_may_be_long() {
    let config = XmlParserConfig {
        tool_call_start_token: long(),
        ..Default::default()
    };
    let message = format!("text {}<function=f></function></tool_call>", long());
    let (calls, normal) = try_tool_call_parse_xml(&message, &config, None).unwrap();
    assert_eq!((said(&calls), normal.as_deref()), (vec![("f", "{}")], Some("text")));
}

#[test]
fn tokens_of_dsml_may_be_too_long() {
    let block = "<｜DSML｜function_calls><｜DSML｜invoke name=\"f\"></｜DSML｜invoke></｜DSML｜function_calls>";
    let configs = [
        DsmlParserConfig { function_calls_end: long(), ..Default::default() },
        DsmlParserConfig { invoke_start_prefix: long(), ..Default::default() },
        DsmlParserConfig { invoke_end: long(), ..Default::default() },
        DsmlParserConfig { parameter_prefix: long(), ..Default::default() },
        DsmlParserConfig { parameter_end: long(), ..Default::default() },
    ];
    for config in &configs {
        assert_eq!(try_tool_call_parse_dsml(block, config).unwrap_err(), ParseError);
        assert_eq!(dsml::extract_tool_calls(block, config).unwrap_err(), ParseError);
        let (calls, normal) = try_tool_call_parse_dsml(" plain ", config).unwrap();
        assert_eq!((calls.len(), normal.as_deref()), (0, Some("plain")));
        let (calls, normal) = try_tool_call_parse_dsml(" ", config).unwrap();
        assert_eq!((calls.len(), normal.as_deref()), (0, Some("")));
    }
    let config = DsmlParserConfig { function_calls_start: long(), ..Default::default() };
    assert!(try_tool_call_parse_dsml(block, &config).is_ok());
    assert_eq!(try_tool_call_parse_dsml(&long(), &config).unwrap_err(), ParseError);
    let config = DsmlParserConfig::default();
    assert_eq!(dsml::parse_message(block, &config, false).unwrap_err(), ParseError);
    assert!(dsml::parse_message("plain", &config, false).is_ok());
    let (calls, _) = dsml::parse_message(block, &config, true).unwrap();
    assert_eq!(said(&calls), vec![("f", "{}")]);
}

#[test]
fn tokens_of_calls_may_be_too_long_for_a_pattern() {
    assert!(can_compile_kimi_k2(&KimiK2ParserConfig::default()));
    for config in [
        KimiK2ParserConfig { call_start: long(), ..Default::default() },
        KimiK2ParserConfig { argument_begin: long(), ..Default::default() },
        KimiK2ParserConfig { call_end: long(), ..Default::default() },
    ] {
        assert!(!can_compile_kimi_k2(&config));
    }
}

#[test]
fn moderate_tokens_of_any_characters_are_read() {
    for c in ["𝄞", "é", "(", "\\", "#", "-", "\n", "\0", "{", "x"] {
        let token = c.repeat(2048);
        let config = XmlParserConfig {
            function_start_token: token.clone(),
            function_end_token: token.clone(),
            parameter_start_token: format!("<{}", c.repeat(2047)),
            parameter_end_token: token.clone(),
            ..Default::default()
        };
        let message = format!("<tool_call>{token}f>body{token}</tool_call>");
        let (calls, _) = try_tool_call_parse_xml(&message, &config, None).unwrap();
        assert_eq!(said(&calls), vec![("f", "{}")]);
        let config = DsmlParserConfig {
            function_calls_start: token.clone(),
            function_calls_end: token.clone(),
            invoke_start_prefix: format!("<{}", c.repeat(2047)),
            invoke_end: token.clone(),
            parameter_prefix: token.clone(),
            parameter_end: token.clone(),
        };
        assert!(dsml::extract_tool_calls(&token, &config).is_ok());
        let config = KimiK2ParserConfig {
            call_start: c.repeat(1000),
            argument_begin: c.repeat(1000),
            call_end: c.repeat(2096),
            ..Default::default()
        };
        assert!(can_compile_kimi_k2(&config));
    }
}

#[test]
fn the_patterns_of_the_default_tokens() {
    let patterns = xml::patterns_for(&XmlParserConfig::default());
    assert_eq!(patterns.function, r"(?s)<function=([^>]+)>(.*?)(?:</function>|$)");
    assert_eq!(patterns.parameter, r"(?s)<parameter=([^>]+)>(.*?)(?:</parameter>|$)");
    let patterns = dsml::patterns_for(&DsmlParserConfig::default());
    assert_eq!(
        patterns.block,
        r"(?s)<｜DSML｜function_calls>\s*(.*?)\s*</｜DSML｜function_calls>"
    );
    assert_eq!(
        patterns.invoke,
        r#"(?s)<｜DSML｜invoke name=\"([^"]+)\"\s*>(.*?)</｜DSML｜invoke>"#
    );
    assert_eq!(
        patterns.parameter,
        r#"(?s)<｜DSML｜parameter name=\"([^"]+)\"\s+string=\"(true|false)\"\s*>(.*?)</｜DSML｜parameter>"#
    );
    assert_eq!(
        kimi_k2::pattern_for(&KimiK2ParserConfig::default()),
        r"(?s)<\|tool_call_begin\|>\s*(?P<function_id>[\w.\-]+:\d+)\s*<\|tool_call_argument_begin\|>\s*(?P<arguments>\{.*?\})\s*<\|tool_call_end\|>"
    );
}

#[test]
fn tokens_are_escaped_in_patterns() {
    let plain = "aZ0 é\"'<>/:;,=@%!`_\n";
    let meta = r"\.+*?()|[]{}^$#&-~";
    let escaped = r"\\\.\+\*\?\(\)\|\[\]\{\}\^\$\#\&\-\~";
    assert_eq!(
        part_pattern(Part::DsmlBlock, plain, meta),
        format!(r"(?s){plain}\s*(.*?)\s*{escaped}")
    );
    assert_eq!(
        part_pattern(Part::XmlElement, meta, ""),
        format!("(?s){escaped}([^>]+)>(.*?)(?:|$)")
    );
    assert_eq!(
        call_pattern("(", "b", "."),
        r"(?s)\(\s*(?P<function_id>[\w.\-]+:\d+)\s*b\s*(?P<arguments>\{.*?\})\s*\."
    );
}

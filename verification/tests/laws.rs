use tool_call_parsers::config::{DsmlParserConfig, KimiK2ParserConfig, XmlParserConfig};
use tool_call_parsers::dsml::{
    self, detect_tool_call_start_dsml, find_tool_call_end_position_dsml, try_tool_call_parse_dsml,
};
use tool_call_parsers::kimi_k2::{
    self, can_detect_kimi_k2, can_parse_kimi_k2, detect_tool_call_start_kimi_k2,
    find_section_end, find_section_start, find_tool_call_end_position_kimi_k2,
    try_tool_call_parse_kimi_k2,
};
use tool_call_parsers::reasoning::{MiniMaxAppendThinkParser, ReasoningParser};
use tool_call_parsers::response::{ToolCallResponse, ToolCallType, call_with_uuid};
use tool_call_parsers::stream::detects;
use tool_call_parsers::text::to_chars;
use tool_call_parsers::xml::{
    self, can_detect_xml, can_parse_xml, detect_tool_call_start_xml,
    find_tool_call_end_position_xml, try_tool_call_parse_xml,
};

const XML_CALL: &str =
    "<tool_call><function=f><parameter=a>1</parameter></function></tool_call>";
const XML_OTHER: &str =
    "<tool_call><function=g><parameter=b>x</parameter></function></tool_call>";
const DSML_CALL: &str = "<｜DSML｜function_calls>\n<｜DSML｜invoke name=\"f\">\n<｜DSML｜parameter name=\"a\" string=\"false\">1</｜DSML｜parameter>\n</｜DSML｜invoke>\n</｜DSML｜function_calls>";
const KIMI_CALL: &str = "<|tool_calls_section_begin|><|tool_call_begin|>functions.f:0<|tool_call_argument_begin|>{\"a\": 1}<|tool_call_end|><|tool_calls_section_end|>";
const KIMI_OTHER: &str = "<|tool_call_section_begin|><|tool_call_begin|>g:1<|tool_call_argument_begin|>{}<|tool_call_end|><|tool_call_section_end|>";

/// The names and arguments of calls.
fn said(calls: &[ToolCallResponse]) -> Vec<(String, String)> {
    calls
        .iter()
        .map(|call| (call.function.name.clone(), call.function.arguments.clone()))
        .collect()
}

/// The calls of a message in XML style, and its text.
fn read_xml(message: &str) -> (Vec<(String, String)>, String) {
    let config = XmlParserConfig::default();
    assert!(can_parse_xml(message, &config));
    let (calls, normal) = try_tool_call_parse_xml(message, &config, None).unwrap();
    (said(&calls), normal.unwrap())
}

/// The calls of a message in DSML, and its text.
fn read_dsml(message: &str) -> (Vec<(String, String)>, String) {
    let (calls, normal) =
        try_tool_call_parse_dsml(message, &DsmlParserConfig::default()).unwrap();
    (said(&calls), normal.unwrap())
}

/// The calls of a message in the Kimi K2 format, and its text.
fn read_kimi(message: &str) -> (Vec<(String, String)>, String) {
    let config = KimiK2ParserConfig::default();
    assert!(can_parse_kimi_k2(message, &config));
    let (calls, normal) = try_tool_call_parse_kimi_k2(message, &config, None).unwrap();
    (said(&calls), normal.unwrap())
}

/// One call, as it is read.
fn call(name: &str, arguments: &str) -> (String, String) {
    (name.to_string(), arguments.to_string())
}

#[test]
fn a_token_is_detected_wherever_the_stream_is_cut() {
    for token in ["<tool_call>", "<｜DSML｜function_calls>", "aab", "é"] {
        let stream = format!("text {token} more");
        let start = stream.find(token).unwrap();
        for cut in 0..=stream.len() {
            if stream.is_char_boundary(cut) {
                assert_eq!(detects(&stream[..cut], token), cut > start, "{token} {cut}");
            }
        }
    }
    assert!(detects("", ""));
    assert!(!detects("", "a"));
    assert!(detects("aaa", "aab"));
}

#[test]
fn an_undetected_chunk_is_text() {
    let chunk = "No call < here. ";
    let (xml, dsml, kimi) = (
        XmlParserConfig::default(),
        DsmlParserConfig::default(),
        KimiK2ParserConfig::default(),
    );
    assert!(!detect_tool_call_start_xml(chunk, &xml));
    assert!(!detect_tool_call_start_dsml(chunk, &dsml));
    assert!(!detect_tool_call_start_kimi_k2(chunk, &kimi));
    assert_eq!(
        read_xml(&format!("{chunk}{XML_CALL}")),
        (vec![call("f", "{\"a\":\"1\"}")], chunk.trim().to_string())
    );
    assert_eq!(
        read_dsml(&format!("{chunk}{DSML_CALL}")),
        (vec![call("f", "{\"a\":1}")], chunk.trim().to_string())
    );
    assert_eq!(
        read_kimi(&format!("{chunk}{KIMI_CALL}")),
        (vec![call("f", "{\"a\":1}")], chunk.trim().to_string())
    );
}

#[test]
fn the_end_position_cuts_between_blocks() {
    let config = XmlParserConfig::default();
    for chunk in [
        format!("{XML_CALL} \n{XML_OTHER}text{XML_CALL}"),
        format!("lead {XML_CALL}{XML_OTHER}"),
        format!("</tool_call> {XML_CALL}x{XML_OTHER}"),
        format!("{XML_CALL}<tool_call><function=h>"),
    ] {
        let end = find_tool_call_end_position_xml(&chunk, &config);
        assert!(chunk[..end].ends_with("</tool_call>"));
        let (mut front, before) = read_xml(&chunk[..end]);
        let (rest, behind) = read_xml(&chunk[end..]);
        front.extend(rest);
        let (whole, text) = read_xml(&chunk);
        assert_eq!(front, whole);
        assert_eq!(format!("{before}{behind}").replace(' ', ""), text.replace(' ', ""));
    }
    let chunk = format!("{XML_CALL} \n{XML_OTHER}text");
    assert_eq!(&chunk[find_tool_call_end_position_xml(&chunk, &config)..], "text");
}

#[test]
fn the_end_position_of_dsml_cuts_between_blocks() {
    let config = DsmlParserConfig::default();
    let chunk = format!("é {DSML_CALL} between {DSML_CALL}");
    let end = find_tool_call_end_position_dsml(&chunk, &config);
    assert!(chunk[..end].ends_with("</｜DSML｜function_calls>"));
    let mut front = read_dsml(&chunk[..end]).0;
    front.extend(read_dsml(&chunk[end..]).0);
    assert_eq!(front, read_dsml(&chunk).0);
    assert_eq!(front.len(), 2);
    assert_eq!(find_tool_call_end_position_dsml("é", &config), 2);
}

#[test]
fn the_end_position_of_kimi_cuts_between_sections() {
    let config = KimiK2ParserConfig::default();
    let chunk = format!("é {KIMI_OTHER} between {KIMI_CALL}");
    let end = find_tool_call_end_position_kimi_k2(&chunk, &config).unwrap();
    assert!(chunk[..end].ends_with("<|tool_call_section_end|>"));
    let mut front = read_kimi(&chunk[..end]).0;
    front.extend(read_kimi(&chunk[end..]).0);
    assert_eq!(front, read_kimi(&chunk).0);
    assert_eq!(front, vec![call("g", "{}"), call("f", "{\"a\":1}")]);
}

#[test]
fn without_a_start_there_are_no_calls() {
    for message in ["", "  ", " plain text\n", "</tool_call><function=f>"] {
        assert_eq!(read_xml(message), (vec![], message.trim().to_string()));
        assert_eq!(read_dsml(message), (vec![], message.trim().to_string()));
        assert_eq!(read_kimi(message), (vec![], message.trim().to_string()));
    }
}

#[test]
fn a_written_xml_message_is_read() {
    let message = "before <tool_call>\n<function=f>\n<parameter=a>\n1 < 2\n</parameter> \
                   <parameter='b c'>&lt;x&gt;</parameter>\n</function>, <function=\"g\"></function>\
                   </tool_call> between <tool_call><function=f></function></tool_call> behind";
    assert_eq!(
        read_xml(message),
        (
            vec![
                call("f", "{\"a\":\"1 < 2\",\"b c\":\"<x>\"}"),
                call("g", "{}"),
                call("f", "{}"),
            ],
            "before  between  behind".to_string()
        )
    );
}

#[test]
fn a_written_dsml_message_is_read() {
    let message = "before <｜DSML｜function_calls>\n<｜DSML｜invoke name=\"f\" >\
                   <｜DSML｜parameter name=\"a\"  string=\"true\" > 1 </｜DSML｜parameter>\
                   <｜DSML｜parameter name=\" b \" string=\"false\">[1, 2]</｜DSML｜parameter>\
                   </｜DSML｜invoke><｜DSML｜invoke name=\"g\"></｜DSML｜invoke>\n\
                   </｜DSML｜function_calls> dropped <｜DSML｜function_calls>\
                   <｜DSML｜invoke name=\"h\"></｜DSML｜invoke></｜DSML｜function_calls> dropped";
    assert_eq!(
        read_dsml(message),
        (
            vec![call("f", "{\"a\":\"1\",\"b\":[1,2]}"), call("g", "{}"), call("h", "{}")],
            "before".to_string()
        )
    );
}

#[test]
fn a_written_kimi_message_is_read() {
    let message = format!("before {KIMI_CALL} between {KIMI_OTHER} behind");
    assert_eq!(
        read_kimi(&message),
        (
            vec![call("f", "{\"a\":1}"), call("g", "{}")],
            "before  between  behind".to_string()
        )
    );
    let (calls, _) =
        try_tool_call_parse_kimi_k2(&message, &KimiK2ParserConfig::default(), None).unwrap();
    assert_eq!(calls[0].id, "functions.f:0");
    assert_eq!(calls[1].id, "g:1");
}

#[test]
fn a_later_parameter_takes_the_place_of_an_earlier_one() {
    let message = "<tool_call><function=f><parameter=a>1</parameter><parameter=a>2</parameter>\
                   </function></tool_call>";
    assert_eq!(read_xml(message).0, vec![call("f", "{\"a\":\"2\"}")]);
    let message = "<｜DSML｜function_calls><｜DSML｜invoke name=\"f\">\
                   <｜DSML｜parameter name=\"a\" string=\"true\">1</｜DSML｜parameter>\
                   <｜DSML｜parameter name=\"a\" string=\"false\">2</｜DSML｜parameter>\
                   </｜DSML｜invoke></｜DSML｜function_calls>";
    assert_eq!(read_dsml(message).0, vec![call("f", "{\"a\":2}")]);
}

#[test]
fn elements_without_names_are_passed_over() {
    let message = "<tool_call><function= ><parameter=a>1</parameter></function>\
                   <function=f><parameter=''>1</parameter><parameter=>2</parameter></function>\
                   </tool_call>";
    assert_eq!(read_xml(message).0, vec![call("f", "{}")]);
}

#[test]
fn a_block_without_an_end_is_text() {
    let message = format!("a {XML_CALL} b <tool_call><function=f>");
    assert_eq!(
        read_xml(&message),
        (vec![call("f", "{\"a\":\"1\"}")], "a  b <tool_call><function=f>".to_string())
    );
    let message = DSML_CALL.replace("</｜DSML｜function_calls>", "");
    assert_eq!(read_dsml(&message), (vec![], message.trim().to_string()));
}

#[test]
fn a_broken_off_section_keeps_its_complete_calls() {
    let cut = KIMI_CALL.find("<|tool_calls_section_end|>").unwrap();
    let message = format!(
        "before {}<|tool_call_begin|>functions.g:1<|tool_call_argument_begin|>{{\"b\": {{}}",
        &KIMI_CALL[..cut]
    );
    assert_eq!(read_kimi(&message), (vec![call("f", "{\"a\":1}")], "before".to_string()));
}

#[test]
fn texts_that_cannot_be_parsed_are_told() {
    let endless = XmlParserConfig {
        tool_call_end_token: String::new(),
        ..Default::default()
    };
    assert!(!can_parse_xml("<tool_call>", &endless));
    assert!(can_parse_xml("plain", &endless));
    assert!(can_parse_xml("", &endless));
    let mut standing = KimiK2ParserConfig::default();
    standing.section_end_variants.push(String::new());
    assert!(!can_parse_kimi_k2(KIMI_CALL, &standing));
    assert!(!can_parse_kimi_k2(&format!("a{KIMI_CALL}"), &standing));
    assert!(can_parse_kimi_k2("plain", &standing));
}

#[test]
fn a_lone_quote_is_a_name() {
    let message = "<tool_call><function=\">\
        <parameter= ' >1</parameter><parameter=''>2</parameter></function>\
        <function=''><parameter=a>3</parameter></function></tool_call>";
    assert_eq!(read_xml(message), (vec![call("\"", "{\"'\":\"1\"}")], String::new()));
}

#[test]
fn an_unclosed_section_is_read_as_closed() {
    let complete = "<|tool_call_begin|>f:0<|tool_call_argument_begin|>{\"a\": 1}<|tool_call_end|>";
    let bodies = [
        String::new(),
        complete.to_string(),
        format!(" {complete} \n{complete}\n "),
        format!("{complete}<|tool_call_begin|>"),
        format!("{complete}<|tool_call_begin|>g"),
        format!("{complete}<|tool_call_begin|>g:1"),
        format!("{complete}<|tool_call_begin|>g:1<|tool_call_argument_begin|>"),
        format!("{complete}<|tool_call_begin|>g:1<|tool_call_argument_begin|>{{}} "),
        format!("{complete}<|tool_calls_section_"),
        format!("{complete}<|tool_calls_section_begin|>{complete}"),
    ];
    for start in ["<|tool_calls_section_begin|>", "<|tool_call_section_begin|>"] {
        for body in &bodies {
            let message = format!(" head {start}{body}");
            let read = read_kimi(&message);
            assert_eq!(read.1, "head");
            assert_eq!(read.0.len(), body.matches(complete).count());
            for end in ["<|tool_calls_section_end|>", "<|tool_call_section_end|>"] {
                assert_eq!(read_kimi(&format!("{message}{end}")), read);
            }
        }
    }
}

#[test]
fn tokens_that_cannot_be_cut_are_told() {
    let config = XmlParserConfig {
        tool_call_start_token: "<é>".to_string(),
        ..Default::default()
    };
    assert!(!can_detect_xml("plain", &config));
    assert!(can_detect_xml("ends with <", &config));
    assert!(detect_tool_call_start_xml("ends with <", &config));
    assert!(can_detect_xml("an <é> in the middle", &config));
    assert!(detect_tool_call_start_xml("an <é> in the middle", &config));
    let mut config = KimiK2ParserConfig::default();
    config.section_start_variants.push("<é>".to_string());
    assert!(!can_detect_kimi_k2("plain", &config));
    assert!(can_detect_kimi_k2("ends with <|", &config));
    assert!(detect_tool_call_start_kimi_k2("ends with <|", &config));
}

#[test]
fn empty_end_tokens_of_blocks() {
    let config = XmlParserConfig {
        tool_call_end_token: String::new(),
        ..Default::default()
    };
    assert_eq!(find_tool_call_end_position_xml("ab", &config), 0);
    assert_eq!(find_tool_call_end_position_xml("<tool_call> <tool_call>x", &config), 23);
    let config = DsmlParserConfig {
        function_calls_end: String::new(),
        ..Default::default()
    };
    assert_eq!(find_tool_call_end_position_dsml("ab", &config), 0);
}

#[test]
fn the_first_section_token_counts() {
    let config = KimiK2ParserConfig {
        section_start_variants: vec!["bb".to_string(), "a".to_string(), "b".to_string()],
        section_end_variants: vec!["long_end".to_string(), "end".to_string()],
        ..Default::default()
    };
    let text = to_chars("x bb a long_end");
    assert_eq!(find_section_start(text.as_slice(), 0, &config), Some((2, 2)));
    assert_eq!(find_section_start(text.as_slice(), 3, &config), Some((0, 1)));
    assert_eq!(find_section_start(text.as_slice(), 4, &config), Some((1, 1)));
    assert_eq!(find_section_start(text.as_slice(), 6, &config), None);
    assert_eq!(find_section_end(text.as_slice(), 0, &config), Some((7, 8)));
    assert_eq!(find_section_end(text.as_slice(), 8, &config), Some((4, 3)));
    assert_eq!(find_tool_call_end_position_kimi_k2("x long_end", &config), Some(10));
    assert_eq!(find_tool_call_end_position_kimi_k2("x", &config), None);
}

#[test]
fn arguments_that_are_json_are_written_anew() {
    let message = KIMI_CALL.replace("{\"a\": 1}", "{ \"b\" : 1.50 , \"a\" : [ ] }");
    assert_eq!(read_kimi(&message).0, vec![call("f", "{\"a\":[],\"b\":1.5}")]);
    let message = KIMI_CALL.replace("{\"a\": 1}", "{ not json }");
    assert_eq!(read_kimi(&message).0, vec![call("f", "{ not json }")]);
}

#[test]
fn generated_ids_are_random_uuids() {
    let config = DsmlParserConfig::default();
    let mut ids = Vec::new();
    for _ in 0..50 {
        let calls = dsml::extract_tool_calls(DSML_CALL, &config).unwrap();
        assert_eq!(calls[0].tp, ToolCallType::Function);
        ids.push(calls[0].id.clone());
    }
    for id in &ids {
        let uuid = id.strip_prefix("call-").unwrap();
        assert_eq!(uuid.len(), 36);
        for (at, c) in uuid.chars().enumerate() {
            match at {
                8 | 13 | 18 | 23 => assert_eq!(c, '-'),
                14 => assert_eq!(c, '4'),
                19 => assert!("89ab".contains(c)),
                _ => assert!("0123456789abcdef".contains(c)),
            }
        }
    }
    ids.sort();
    ids.dedup();
    assert_eq!(ids.len(), 50);
    let named = call_with_uuid("u", "f".to_string(), "{}".to_string());
    assert_eq!(named.id, "call-u");
    assert_eq!(said(&[named]), vec![call("f", "{}")]);
}

#[test]
fn blocks_and_sections_are_read_on_their_own() {
    let config = XmlParserConfig::default();
    assert_eq!(
        said(&xml::parse_tool_call_block(XML_CALL, &config, None).unwrap()),
        vec![call("f", "{\"a\":\"1\"}")]
    );
    let (text, calls) = xml::extract_tool_calls(&format!(" x {XML_OTHER}"), &config, None);
    assert_eq!((text.as_str(), said(&calls)), ("x", vec![call("g", "{\"b\":\"x\"}")]));
    let config = KimiK2ParserConfig::default();
    assert_eq!(said(&kimi_k2::parse_section_block(KIMI_OTHER, &config)), vec![call("g", "{}")]);
    let (text, calls) = kimi_k2::extract_tool_calls(&format!("x {KIMI_OTHER}"), &config);
    assert_eq!((text.as_str(), said(&calls)), ("x", vec![call("g", "{}")]));
    let config = DsmlParserConfig::default();
    let block = dsml::blocks(DSML_CALL, &config);
    assert_eq!(block.len(), 1);
    assert!(block[0].starts_with("<｜DSML｜invoke"));
    assert_eq!(said(&dsml::extract_invokes(&block[0], &config)), vec![call("f", "{\"a\":1}")]);
    let arguments = dsml::parse_parameters(&block[0], &config);
    assert_eq!(arguments.to_json(), "{\"a\":1}");
}

#[test]
fn a_stream_passes_on_what_the_whole_text_gives() {
    let text = "reasoning</think> and an answer";
    let whole = MiniMaxAppendThinkParser::new().detect_and_parse_reasoning(text, &[1, 2]);
    for cut in 0..=text.len() {
        let mut parser = MiniMaxAppendThinkParser::default();
        let first = parser.parse_reasoning_streaming_incremental(&text[..cut], &[]);
        let second = parser.parse_reasoning_streaming_incremental(&text[cut..], &[]);
        assert_eq!(format!("{}{}", first.normal_text, second.normal_text), whole.normal_text);
        assert_eq!(first.reasoning_text, "");
        assert_eq!(second.reasoning_text, "");
    }
    assert_eq!(whole.reasoning_text, "");
}

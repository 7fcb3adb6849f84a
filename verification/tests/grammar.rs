use regex::Regex;
use tool_call_parsers::config::{DsmlParserConfig, KimiK2ParserConfig};
use tool_call_parsers::dsml::{self, ElementKind};
use tool_call_parsers::grammar::find_closed_at;
use tool_call_parsers::kimi_k2::{choose_arguments, function_name, raw_calls};
use tool_call_parsers::text::{
    bytes_in, find_token, has_prefix, has_token, replaced, same_text, to_chars, trimmed,
    trimmed_line_feeds, white_space,
};
use tool_call_parsers::xml;

/// All texts of up to `most` pieces.
fn texts(pieces: &[&str], most: usize) -> Vec<String> {
    let mut all = vec![String::new()];
    let mut last = vec![String::new()];
    for _ in 0..most {
        let mut longer = Vec::new();
        for text in &last {
            for piece in pieces {
                longer.push(format!("{text}{piece}"));
            }
        }
        all.extend(longer.iter().cloned());
        last = longer;
    }
    all
}

/// Texts of many pieces, picked without a pattern.
fn long_texts(pieces: &[&str], count: usize, length: usize) -> Vec<String> {
    let mut state: u64 = 0x2545_f491_4f6c_dd1d;
    let mut all = Vec::new();
    for _ in 0..count {
        let mut text = String::new();
        for _ in 0..length {
            state = state.wrapping_mul(6364136223846793005).wrapping_add(1442695040888963407);
            text.push_str(pieces[(state >> 33) as usize % pieces.len()]);
        }
        all.push(text);
    }
    all
}

/// What a pattern captures, match by match.
fn captured(regex: &Regex, text: &str) -> Vec<Vec<String>> {
    regex
        .captures_iter(text)
        .map(|captures| {
            (1..captures.len())
                .map(|group| captures.get(group).unwrap().as_str().to_string())
                .collect()
        })
        .collect()
}

#[test]
fn xml_elements_are_those_of_the_pattern() {
    for (open, close) in [("<f=", "</f>"), ("<", "<"), ("f", ">"), ("<f", ""), ("", "f")] {
        let regex = Regex::new(&format!(
            r"(?s){}([^>]+)>(.*?)(?:{}|$)",
            regex::escape(open),
            regex::escape(close)
        ))
        .unwrap();
        let pieces = ["<f=", "</f>", ">", "f", "\n", "<", "é"];
        let mut inputs = texts(&pieces, 4);
        inputs.extend(long_texts(&pieces, 300, 20));
        for text in inputs {
            let expected: Vec<(String, String)> = captured(&regex, &text)
                .into_iter()
                .map(|groups| (groups[0].clone(), groups[1].clone()))
                .collect();
            assert_eq!(xml::elements(&text, open, close), expected, "{open:?} {close:?} {text:?}");
        }
    }
}

#[test]
fn dsml_blocks_are_those_of_the_pattern() {
    for (start, end) in [("<s>", "</s>"), (" s", " e"), ("s ", "e "), ("s", " "), ("a", "a"), ("s", "")] {
        let config = DsmlParserConfig {
            function_calls_start: start.to_string(),
            function_calls_end: end.to_string(),
            ..Default::default()
        };
        let regex = Regex::new(&format!(
            r"(?s){}\s*(.*?)\s*{}",
            regex::escape(start),
            regex::escape(end)
        ))
        .unwrap();
        let pieces = ["<s>", "</s>", " ", "\n", "s", "e", "a"];
        let mut inputs = texts(&pieces, 4);
        inputs.extend(long_texts(&pieces, 300, 20));
        for text in inputs {
            let expected: Vec<String> =
                captured(&regex, &text).into_iter().map(|groups| groups[0].clone()).collect();
            assert_eq!(dsml::blocks(&text, &config), expected, "{start:?} {end:?} {text:?}");
        }
    }
}

#[test]
fn dsml_calls_are_those_of_the_pattern() {
    for (prefix, end) in [("<i=", "</i>"), ("\"", ">"), ("", "</i>"), ("<i=", "")] {
        let config = DsmlParserConfig {
            invoke_start_prefix: prefix.to_string(),
            invoke_end: end.to_string(),
            ..Default::default()
        };
        let regex = Regex::new(&format!(
            r#"(?s){}\"([^"]+)\"\s*>(.*?){}"#,
            regex::escape(prefix),
            regex::escape(end)
        ))
        .unwrap();
        let pieces = ["<i=", "</i>", "\"", " ", ">", "n"];
        let mut inputs = texts(&pieces, 5);
        inputs.extend(long_texts(&pieces, 300, 24));
        for text in inputs {
            let expected: Vec<(String, String)> = captured(&regex, &text)
                .into_iter()
                .map(|groups| (groups[0].clone(), groups[1].clone()))
                .collect();
            let found: Vec<(String, String)> = dsml::elements(&text, ElementKind::Invoke, &config)
                .into_iter()
                .map(|element| (element.name, element.body))
                .collect();
            assert_eq!(found, expected, "{prefix:?} {end:?} {text:?}");
        }
    }
}

#[test]
fn dsml_parameters_are_those_of_the_pattern() {
    for (prefix, end) in [("<p=", "</p>"), ("", "</p>"), ("<p=", "string=")] {
        let config = DsmlParserConfig {
            parameter_prefix: prefix.to_string(),
            parameter_end: end.to_string(),
            ..Default::default()
        };
        let regex = Regex::new(&format!(
            r#"(?s){}\"([^"]+)\"\s+string=\"(true|false)\"\s*>(.*?){}"#,
            regex::escape(prefix),
            regex::escape(end)
        ))
        .unwrap();
        let pieces = [
            "<p=",
            "</p>",
            "\"",
            "\"n\"",
            " ",
            "\u{a0}\n",
            "string=",
            "string=\"true\"",
            "string=\"false\"",
            ">",
        ];
        let mut inputs = texts(&pieces, 3);
        inputs.extend(long_texts(&pieces, 2000, 12));
        for tail in texts(&pieces, 3) {
            inputs.push(format!("<p=\"n\" string=\"false\"{tail}</p>"));
            inputs.push(format!("<p=\"n\"{tail}>v</p><p=\"m\"  string=\"true\" >w</p>"));
        }
        for text in inputs {
            let expected: Vec<(String, bool, String)> = captured(&regex, &text)
                .into_iter()
                .map(|groups| (groups[0].clone(), groups[1] == "true", groups[2].clone()))
                .collect();
            let found: Vec<(String, bool, String)> =
                dsml::elements(&text, ElementKind::Parameter, &config)
                    .into_iter()
                    .map(|element| (element.name, element.is_string, element.body))
                    .collect();
            assert_eq!(found, expected, "{prefix:?} {end:?} {text:?}");
        }
    }
}

#[test]
fn kimi_calls_are_those_of_the_pattern() {
    for (start, begin, end) in
        [("<c>", "<a>", "<e>"), ("<c>", "1", "<e>"), ("c", " ", "}"), ("", "", "<e>"), ("<c>", "{", " ")]
    {
        let config = KimiK2ParserConfig {
            call_start: start.to_string(),
            argument_begin: begin.to_string(),
            call_end: end.to_string(),
            ..Default::default()
        };
        let regex = Regex::new(&format!(
            r"(?s){}\s*([\w.\-]+:\d+)\s*{}\s*(\{{.*?\}})\s*{}",
            regex::escape(start),
            regex::escape(begin),
            regex::escape(end)
        ))
        .unwrap();
        let pieces = ["<c>", "<a>", "<e>", "c:1", "1", " ", "{", "}", "-.", ":"];
        let mut inputs = texts(&pieces, 3);
        inputs.extend(long_texts(&pieces, 1000, 14));
        for tail in texts(&pieces, 3) {
            inputs.push(format!("<c> c:1{tail}}} <e>"));
            inputs.push(format!("<c>c:1<a>{{{tail}<e>"));
        }
        for text in inputs {
            let expected: Vec<(String, String)> = captured(&regex, &text)
                .into_iter()
                .map(|groups| (groups[0].clone(), groups[1].clone()))
                .collect();
            assert_eq!(raw_calls(&text, &config), expected, "{start:?} {begin:?} {end:?} {text:?}");
        }
    }
}

#[test]
fn kimi_ids_may_hold_letters_and_digits_of_any_script() {
    let config = KimiK2ParserConfig::default();
    let pattern = r"^[\w.\-]+:\d+$";
    let regex = Regex::new(pattern).unwrap();
    for id in ["naïve:٣", "名前:1", "a\u{301}:2", "a b:1", "x:Ⅷ", "π_σ.τ-υ:०१", "a\u{200b}:1", "€:1"] {
        let text = format!("<|tool_call_begin|>{id}<|tool_call_argument_begin|>{{}}<|tool_call_end|>");
        let expected = if regex.is_match(id) {
            vec![(id.to_string(), "{}".to_string())]
        } else {
            vec![]
        };
        assert_eq!(raw_calls(&text, &config), expected, "{id:?}");
    }
}

#[test]
fn kimi_ascii_names_are_those_of_the_pattern() {
    let config = KimiK2ParserConfig::default();
    let regex = Regex::new(r"^[\w.\-]+$").unwrap();
    let digits = Regex::new(r"^\d+$").unwrap();
    for code in 1u8..128 {
        let c = (code as char).to_string();
        let named = format!("<|tool_call_begin|>a{c}a:1<|tool_call_argument_begin|>{{}}<|tool_call_end|>");
        if c != ":" {
            assert_eq!(raw_calls(&named, &config).len() == 1, regex.is_match(&c), "{c:?}");
        }
        let numbered = format!("<|tool_call_begin|>a:1{c}1<|tool_call_argument_begin|>{{}}<|tool_call_end|>");
        assert_eq!(raw_calls(&numbered, &config).len() == 1, digits.is_match(&c), "{c:?}");
    }
}

#[test]
fn kimi_names_are_those_of_the_pattern() {
    let regex = Regex::new(r"^(?:functions\.)?(?P<name>[\w.\-]+):(?P<index>\d+)$").unwrap();
    let pieces = ["functions.", "functions", "f", ".", ":", "1", "-", " ", "٣"];
    for id in texts(&pieces, 4) {
        let expected = match regex.captures(&id) {
            Some(captures) => captures["name"].to_string(),
            None => id.clone(),
        };
        assert_eq!(function_name(&id), expected, "{id:?}");
    }
}

#[test]
fn arguments_stay_raw_where_they_are_not_json() {
    assert_eq!(choose_arguments("{ raw }", None), "{ raw }");
    assert_eq!(choose_arguments("{ raw }", Some("{}".to_string())), "{}");
}

#[test]
fn tokens_close_places_behind_white_space() {
    let closed = |text: &str, at: usize, token: &str| {
        find_closed_at(to_chars(text).as_slice(), at, to_chars(token).as_slice())
    };
    assert_eq!(closed("a  </a>", 1, "</a>"), Some(7));
    assert_eq!(closed("a</a>", 1, "</a>"), Some(5));
    assert_eq!(closed("a x</a>", 1, "</a>"), None);
    assert_eq!(closed("a   ", 1, " "), Some(4));
    assert_eq!(closed("a   ", 1, ""), Some(4));
    assert_eq!(closed("a", 1, ""), Some(1));
}

#[test]
fn white_space_is_that_of_the_standard_library() {
    for code in 0..=0x10ffffu32 {
        if let Some(c) = char::from_u32(code) {
            assert_eq!(white_space(c), c.is_whitespace(), "{code:x}");
        }
    }
}

#[test]
fn white_space_is_that_of_the_pattern() {
    let regex = Regex::new(r"^\s$").unwrap();
    for code in 0..=0xffffu32 {
        if let Some(c) = char::from_u32(code) {
            assert_eq!(white_space(c), regex.is_match(&c.to_string()), "{code:x}");
        }
    }
}

#[test]
fn texts_are_searched_and_changed_as_by_the_standard_library() {
    let pieces = ["a", "b", "aa", " ", "\n", "é", "｜", "\u{3000}"];
    for text in texts(&pieces, 4) {
        assert_eq!(trimmed(&text), text.trim());
        assert_eq!(trimmed_line_feeds(&text), text.trim_matches('\n'));
        assert_eq!(bytes_in(&text), text.len());
        for token in ["a", "aa", "ab", "é｜", " \n", ""] {
            assert_eq!(has_token(&text, token), text.contains(token));
            assert_eq!(has_prefix(&text, token), text.starts_with(token));
            assert_eq!(same_text(&text, token), text == token);
            let found = find_token(to_chars(&text).as_slice(), to_chars(token).as_slice(), 0);
            let expected = text.find(token).map(|at| text[..at].chars().count());
            assert_eq!(found, expected);
            if !token.is_empty() {
                assert_eq!(replaced(&text, token, "<>"), text.replace(token, "<>"));
            }
        }
    }
}

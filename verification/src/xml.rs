//! Tool calls in XML style:
//! `<tool_call><function=name><parameter=key>value</parameter></function></tool_call>`.
use vstd::prelude::*;

use crate::arguments::{Arguments, json_text, no_members, object_text};
use crate::config::XmlParserConfig;
use crate::pattern::{Part, are_moderate, compiles, part_pattern, pattern_of};
use crate::response::{CallModel, ParseError, ToolCallResponse, all_reported, new_call};
use crate::schema::{Json, ToolDefinition, declared, get_arguments_config};
use crate::stream::{can_detect, detection_cuts_cleanly, detects, token_begins_in};
use crate::text::{
    byte_len, bytes_in, contains, find_from, find_token, has_token, has_token_at, lemma_find_from,
    skip_white, to_chars, token_at, trim, trimmed, white_end,
};
use crate::values::{convert_param_value, param_model, strip_quotes, unquoted};

verus! {

/// Where an element stands in a text: its name, its body, and the position behind it.
pub struct Span {
    pub name_start: int,
    pub name_end: int,
    pub body_end: int,
    pub end: int,
}

/// The element that begins at `at`: `open`, a name of at least one character up to the next `>`,
/// and a body up to the next `close`, or up to the end of the text where there is no `close`.
pub open spec fn element_at(
    text: Seq<char>,
    at: int,
    open: Seq<char>,
    close: Seq<char>,
) -> Option<Span> {
    let name_start = at + open.len();
    if !token_at(text, at, open) {
        None
    } else {
        match find_from(text, seq!['>'], name_start) {
            Some(name_end) => if name_end == name_start {
                None
            } else {
                match find_from(text, close, name_end + 1) {
                    Some(body_end) => Some(
                        Span { name_start, name_end, body_end, end: body_end + close.len() },
                    ),
                    None => Some(
                        Span {
                            name_start,
                            name_end,
                            body_end: text.len() as int,
                            end: text.len() as int,
                        },
                    ),
                }
            },
            None => None,
        }
    }
}

/// The first element that begins at `from` or behind it.
pub open spec fn next_element(
    text: Seq<char>,
    from: int,
    open: Seq<char>,
    close: Seq<char>,
) -> Option<Span>
    decreases text.len() + 1 - from,
{
    if from > text.len() {
        None
    } else {
        match element_at(text, from, open, close) {
            Some(span) => Some(span),
            None => next_element(text, from + 1, open, close),
        }
    }
}

/// The names and bodies of the elements from `from` on, each searched behind the one before.
pub open spec fn elements_from(
    text: Seq<char>,
    from: int,
    open: Seq<char>,
    close: Seq<char>,
) -> Seq<(Seq<char>, Seq<char>)>
    decreases text.len() - from,
{
    match next_element(text, from, open, close) {
        Some(span) => if from < span.end <= text.len() {
            seq![
                (
                    text.subrange(span.name_start, span.name_end),
                    text.subrange(span.name_end + 1, span.body_end),
                ),
            ] + elements_from(text, span.end, open, close)
        } else {
            Seq::empty()
        },
        None => Seq::empty(),
    }
}

/// The names and bodies of the elements of a text, in their order.
pub open spec fn elements_of(text: Seq<char>, open: Seq<char>, close: Seq<char>) -> Seq<
    (Seq<char>, Seq<char>),
> {
    elements_from(text, 0, open, close)
}

/// The views of names and bodies.
pub open spec fn element_views(elements: Seq<(String, String)>) -> Seq<(Seq<char>, Seq<char>)> {
    elements.map_values(|element: (String, String)| (element.0@, element.1@))
}

/// An element lies inside the text and behind the place where it was searched.
pub proof fn lemma_next_element(text: Seq<char>, from: int, open: Seq<char>, close: Seq<char>)
    requires
        0 <= from,
    ensures
        next_element(text, from, open, close) matches Some(span) ==> {
            &&& from <= span.name_start < span.name_end < span.body_end <= span.end
            &&& span.end <= text.len()
        },
    decreases text.len() + 1 - from,
{
    if from <= text.len() {
        match element_at(text, from, open, close) {
            Some(span) => {
                lemma_find_from(text, seq!['>'], from + open.len());
                lemma_find_from(text, close, span.name_end + 1);
            },
            None => {
                lemma_next_element(text, from + 1, open, close);
            },
        }
    }
}

/// Where an element stands in a text, found by executable code.
struct FoundSpan {
    name_start: usize,
    name_end: usize,
    body_end: usize,
    end: usize,
}

/// A found span, in integers.
spec fn span_view(found: Option<FoundSpan>) -> Option<Span> {
    match found {
        Some(span) => Some(
            Span {
                name_start: span.name_start as int,
                name_end: span.name_end as int,
                body_end: span.body_end as int,
                end: span.end as int,
            },
        ),
        None => None,
    }
}

/// The element that begins at `at`.
fn find_element_at(text: &[char], at: usize, open: &[char], close: &[char]) -> (found: Option<
    FoundSpan,
>)
    requires
        at <= text@.len(),
    ensures
        span_view(found) == element_at(text@, at as int, open@, close@),
{
    let count = text.len();
    if !has_token_at(text, at, open) {
        return None;
    }
    let name_start = at + open.len();
    let bracket: [char; 1] = ['>'];
    assert(bracket@ == seq!['>']);
    proof {
        lemma_find_from(text@, seq!['>'], name_start as int);
    }
    let name_end = match find_token(text, bracket.as_slice(), name_start) {
        Some(name_end) => name_end,
        None => {
            return None;
        },
    };
    if name_end == name_start {
        return None;
    }
    match find_token(text, close, name_end + 1) {
        Some(body_end) => Some(
            FoundSpan { name_start, name_end, body_end, end: body_end + close.len() },
        ),
        None => Some(FoundSpan { name_start, name_end, body_end: count, end: count }),
    }
}

/// The first element that begins at `from` or behind it.
fn find_element(text: &[char], from: usize, open: &[char], close: &[char]) -> (found: Option<
    FoundSpan,
>)
    requires
        from <= text@.len(),
    ensures
        span_view(found) == next_element(text@, from as int, open@, close@),
{
    let count = text.len();
    let mut at: usize = from;
    loop
        invariant
            count == text@.len(),
            from <= at <= count,
            next_element(text@, from as int, open@, close@) == next_element(
                text@,
                at as int,
                open@,
                close@,
            ),
        decreases count - at,
    {
        let found = find_element_at(text, at, open, close);
        if found.is_some() {
            return found;
        }
        if at == count {
            assert(next_element(text@, count + 1, open@, close@) is None);
            return None;
        }
        at += 1;
    }
}

/// The names and bodies of the elements of a text, in their order.
pub fn elements(text: &str, open: &str, close: &str) -> (found: Vec<(String, String)>)
    ensures
        element_views(found@) == elements_of(text@, open@, close@),
{
    let chars = to_chars(text);
    let opening = to_chars(open);
    let closing = to_chars(close);
    let mut found: Vec<(String, String)> = Vec::new();
    let mut done: usize = 0;
    loop
        invariant
            chars@ == text@,
            opening@ == open@,
            closing@ == close@,
            done <= text@.len(),
            elements_of(text@, open@, close@) == element_views(found@) + elements_from(
                text@,
                done as int,
                open@,
                close@,
            ),
        decreases text@.len() - done,
    {
        proof {
            lemma_next_element(text@, done as int, open@, close@);
        }
        match find_element(chars.as_slice(), done, opening.as_slice(), closing.as_slice()) {
            Some(span) => {
                let name = text.substring_char(span.name_start, span.name_end).to_owned();
                let body = text.substring_char(span.name_end + 1, span.body_end).to_owned();
                let ghost before = found@;
                found.push((name, body));
                assert(element_views(found@) == element_views(before).push((name@, body@)));
                done = span.end;
            },
            None => {
                assert(elements_from(text@, done as int, open@, close@) == Seq::<
                    (Seq<char>, Seq<char>),
                >::empty());
                return found;
            },
        }
    }
}

/// What a message is made of: the text outside of the blocks, and the blocks.
pub struct Scan {
    pub normal: Seq<char>,
    pub blocks: Seq<Seq<char>>,
}

/// The text and the blocks from `cursor` on. A block goes from a start token to the next end
/// token, both included; without an end token the rest is text.
pub open spec fn scan_from(text: Seq<char>, cursor: int, start: Seq<char>, end: Seq<char>) -> Scan
    decreases text.len() - cursor,
{
    if cursor >= text.len() {
        Scan { normal: Seq::empty(), blocks: Seq::empty() }
    } else {
        match find_from(text, start, cursor) {
            Some(block_start) => match find_from(text, end, block_start) {
                Some(end_start) => if cursor < end_start + end.len() <= text.len() {
                    let rest = scan_from(text, end_start + end.len(), start, end);
                    Scan {
                        normal: text.subrange(cursor, block_start) + rest.normal,
                        blocks: seq![text.subrange(block_start, end_start + end.len())]
                            + rest.blocks,
                    }
                } else {
                    Scan { normal: text.skip(cursor), blocks: Seq::empty() }
                },
                None => Scan { normal: text.skip(cursor), blocks: Seq::empty() },
            },
            None => Scan { normal: text.skip(cursor), blocks: Seq::empty() },
        }
    }
}

/// The text and the blocks of a message.
pub open spec fn scan_of(text: Seq<char>, config: XmlParserConfig) -> Scan {
    scan_from(text, 0, config.tool_call_start_token@, config.tool_call_end_token@)
}

/// The scan of `text` ends: with an empty end token it would stand still at a start token.
pub open spec fn scan_ends(text: Seq<char>, config: XmlParserConfig) -> bool {
    ||| text.len() == 0
    ||| 0 < config.tool_call_end_token@.len()
    ||| !contains(text, config.tool_call_start_token@)
}

/// The arguments that parameter elements give: each that has a name gives its value to that name,
/// a later one in place of an earlier one.
pub open spec fn arguments_of(
    elements: Seq<(Seq<char>, Seq<char>)>,
    declared: Seq<(String, Json)>,
) -> Map<Seq<char>, Seq<char>>
    decreases elements.len(),
{
    if elements.len() == 0 {
        no_members()
    } else {
        let before = arguments_of(elements.drop_last(), declared);
        let name = unquoted(elements.last().0);
        if name.len() == 0 {
            before
        } else {
            before.insert(name, json_text(param_model(elements.last().1, name, declared)))
        }
    }
}

/// The call of a function element.
pub open spec fn call_of(
    element: (Seq<char>, Seq<char>),
    config: XmlParserConfig,
    tools: Option<&[ToolDefinition]>,
) -> CallModel {
    let name = unquoted(element.0);
    let parameters = elements_of(
        element.1,
        config.parameter_start_token@,
        config.parameter_end_token@,
    );
    CallModel {
        name,
        arguments: object_text(arguments_of(parameters, declared(tools, name))),
    }
}

/// The calls of function elements; one without a name makes no call.
pub open spec fn calls_of(
    elements: Seq<(Seq<char>, Seq<char>)>,
    config: XmlParserConfig,
    tools: Option<&[ToolDefinition]>,
) -> Seq<CallModel>
    decreases elements.len(),
{
    if elements.len() == 0 {
        Seq::empty()
    } else {
        let before = calls_of(elements.drop_last(), config, tools);
        if unquoted(elements.last().0).len() == 0 {
            before
        } else {
            before.push(call_of(elements.last(), config, tools))
        }
    }
}

/// The function elements of a block.
pub open spec fn functions_of(block: Seq<char>, config: XmlParserConfig) -> Seq<
    (Seq<char>, Seq<char>),
> {
    elements_of(block, config.function_start_token@, config.function_end_token@)
}

/// The calls of blocks, block by block.
pub open spec fn calls_in(
    blocks: Seq<Seq<char>>,
    config: XmlParserConfig,
    tools: Option<&[ToolDefinition]>,
) -> Seq<CallModel>
    decreases blocks.len(),
{
    if blocks.len() == 0 {
        Seq::empty()
    } else {
        calls_in(blocks.drop_last(), config, tools) + calls_of(
            functions_of(blocks.last(), config),
            config,
            tools,
        )
    }
}

/// The arguments that the parameter elements of `body` give.
fn parse_parameters(
    body: &str,
    config: &XmlParserConfig,
    declared: Option<&Vec<(String, Json)>>,
) -> (arguments: Arguments)
    ensures
        arguments@ == arguments_of(
            elements_of(body@, config.parameter_start_token@, config.parameter_end_token@),
            match declared {
                Some(members) => members@,
                None => Seq::empty(),
            },
        ),
{
    let found = elements(
        body,
        config.parameter_start_token.as_str(),
        config.parameter_end_token.as_str(),
    );
    let ghost views = element_views(found@);
    let ghost members = match declared {
        Some(members) => members@,
        None => Seq::empty(),
    };
    let count = found.len();
    let mut arguments = Arguments::new();
    let mut i: usize = 0;
    while i < count
        invariant
            count == found@.len(),
            i <= count,
            views == element_views(found@),
            members == (match declared {
                Some(members) => members@,
                None => Seq::empty(),
            }),
            arguments@ == arguments_of(views.take(i as int), members),
        decreases count - i,
    {
        assert(views.take(i + 1).drop_last() == views.take(i as int));
        assert(views[i as int] == (found@[i as int].0@, found@[i as int].1@));
        let name = strip_quotes(found[i].0.as_str());
        if !name.is_empty() {
            let value = convert_param_value(found[i].1.as_str(), name, declared);
            arguments.insert(name.to_owned(), value);
        }
        i += 1;
    }
    assert(views.take(count as int) == views);
    arguments
}

/// The calls of the functions in one block.
fn function_calls(
    block: &str,
    config: &XmlParserConfig,
    tools: Option<&[ToolDefinition]>,
) -> (calls: Vec<ToolCallResponse>)
    ensures
        all_reported(calls@, calls_of(functions_of(block@, *config), *config, tools)),
{
    let found = elements(
        block,
        config.function_start_token.as_str(),
        config.function_end_token.as_str(),
    );
    let ghost views = element_views(found@);
    let count = found.len();
    let mut calls: Vec<ToolCallResponse> = Vec::new();
    let mut i: usize = 0;
    while i < count
        invariant
            count == found@.len(),
            i <= count,
            views == element_views(found@),
            views == functions_of(block@, *config),
            all_reported(calls@, calls_of(views.take(i as int), *config, tools)),
        decreases count - i,
    {
        assert(views.take(i + 1).drop_last() == views.take(i as int));
        assert(views[i as int] == (found@[i as int].0@, found@[i as int].1@));
        let name = strip_quotes(found[i].0.as_str());
        if !name.is_empty() {
            let declared = get_arguments_config(name, tools);
            let arguments = parse_parameters(found[i].1.as_str(), config, declared);
            calls.push(new_call(name.to_owned(), arguments.to_json()));
        }
        i += 1;
    }
    assert(views.take(count as int) == views);
    calls
}

/// The tokens of functions are moderate, and those of parameters.
pub open spec fn tokens_moderate(config: XmlParserConfig) -> bool {
    &&& are_moderate(config.function_start_token@, config.function_end_token@)
    &&& are_moderate(config.parameter_start_token@, config.parameter_end_token@)
}

/// The patterns of a configuration.
pub struct XmlPatterns {
    pub function: String,
    pub parameter: String,
}

/// The patterns of functions and parameters.
pub fn patterns_for(config: &XmlParserConfig) -> (patterns: XmlPatterns)
    ensures
        patterns.function@ == pattern_of(
            Part::XmlElement,
            config.function_start_token@,
            config.function_end_token@,
        ),
        patterns.parameter@ == pattern_of(
            Part::XmlElement,
            config.parameter_start_token@,
            config.parameter_end_token@,
        ),
{
    XmlPatterns {
        function: part_pattern(
            Part::XmlElement,
            config.function_start_token.as_str(),
            config.function_end_token.as_str(),
        ),
        parameter: part_pattern(
            Part::XmlElement,
            config.parameter_start_token.as_str(),
            config.parameter_end_token.as_str(),
        ),
    }
}

/// Whether `regex` compiles the patterns of functions and parameters.
fn patterns_compile(config: &XmlParserConfig) -> (compiled: bool)
    ensures
        tokens_moderate(*config) ==> compiled,
{
    let patterns = patterns_for(config);
    compiles(patterns.function.as_str()) && compiles(patterns.parameter.as_str())
}

/// The calls in one block, given whether the patterns of functions and parameters compile.
pub fn block_calls(
    block: &str,
    config: &XmlParserConfig,
    tools: Option<&[ToolDefinition]>,
    compiled: bool,
) -> (parsed: Result<Vec<ToolCallResponse>, ParseError>)
    ensures
        match parsed {
            Ok(calls) => compiled && all_reported(
                calls@,
                calls_of(functions_of(block@, *config), *config, tools),
            ),
            Err(_) => !compiled,
        },
{
    if compiled {
        Ok(function_calls(block, config, tools))
    } else {
        Err(ParseError)
    }
}

/// The calls in one block.
///
/// An error comes only with tokens that are too long for `regex`.
pub fn parse_tool_call_block(
    block: &str,
    config: &XmlParserConfig,
    tools: Option<&[ToolDefinition]>,
) -> (parsed: Result<Vec<ToolCallResponse>, ParseError>)
    ensures
        match parsed {
            Ok(calls) => all_reported(
                calls@,
                calls_of(functions_of(block@, *config), *config, tools),
            ),
            Err(_) => !tokens_moderate(*config),
        },
{
    block_calls(block, config, tools, patterns_compile(config))
}

/// The views of blocks.
pub open spec fn block_views(blocks: Seq<String>) -> Seq<Seq<char>> {
    blocks.map_values(|block: String| block@)
}

/// The text and the blocks of a message.
fn scan_message(text: &str, config: &XmlParserConfig) -> (scan: (String, Vec<String>))
    requires
        scan_ends(text@, *config),
    ensures
        scan.0@ == scan_of(text@, *config).normal,
        block_views(scan.1@) == scan_of(text@, *config).blocks,
{
    let chars = to_chars(text);
    let start = to_chars(config.tool_call_start_token.as_str());
    let end = to_chars(config.tool_call_end_token.as_str());
    let count = chars.len();
    let ghost whole = scan_of(text@, *config);
    let mut normal = String::new();
    let mut blocks: Vec<String> = Vec::new();
    let mut cursor: usize = 0;
    assert(block_views(blocks@) == Seq::<Seq<char>>::empty());
    while cursor < count
        invariant_except_break
            chars@ == text@,
            start@ == config.tool_call_start_token@,
            end@ == config.tool_call_end_token@,
            count == text@.len(),
            cursor <= count,
            scan_ends(text@, *config),
            whole.normal == normal@ + scan_from(text@, cursor as int, start@, end@).normal,
            whole.blocks == block_views(blocks@) + scan_from(
                text@,
                cursor as int,
                start@,
                end@,
            ).blocks,
        ensures
            normal@ == whole.normal,
            block_views(blocks@) == whole.blocks,
        decreases count - cursor,
    {
        proof {
            lemma_find_from(text@, start@, cursor as int);
        }
        let block_start = match find_token(chars.as_slice(), start.as_slice(), cursor) {
            Some(block_start) => block_start,
            None => {
                normal.append(text.substring_char(cursor, count));
                assert(text@.skip(cursor as int) == text@.subrange(cursor as int, count as int));
                break;
            },
        };
        match find_token(chars.as_slice(), end.as_slice(), block_start) {
            Some(end_start) => {
                let next = end_start + end.len();
                assert(cursor < next);
                normal.append(text.substring_char(cursor, block_start));
                let ghost before = blocks@;
                let block = text.substring_char(block_start, next).to_owned();
                blocks.push(block);
                assert(block_views(blocks@) == block_views(before).push(block@));
                cursor = next;
            },
            None => {
                normal.append(text.substring_char(cursor, count));
                assert(text@.skip(cursor as int) == text@.subrange(cursor as int, count as int));
                break;
            },
        }
    }
    (normal, blocks)
}

/// The calls that are read from blocks, given whether the patterns of functions and parameters
/// compile: without them no block is read.
pub open spec fn calls_read(
    blocks: Seq<Seq<char>>,
    config: XmlParserConfig,
    tools: Option<&[ToolDefinition]>,
    compiled: bool,
) -> Seq<CallModel> {
    if compiled {
        calls_in(blocks, config, tools)
    } else {
        Seq::empty()
    }
}

/// The text outside of the blocks of a message, trimmed, and the calls in its blocks, given whether
/// the patterns of functions and parameters compile.
pub fn text_and_calls(
    text: &str,
    config: &XmlParserConfig,
    tools: Option<&[ToolDefinition]>,
    compiled: bool,
) -> (extracted: (String, Vec<ToolCallResponse>))
    requires
        scan_ends(text@, *config),
    ensures
        extracted.0@ == trim(scan_of(text@, *config).normal),
        all_reported(
            extracted.1@,
            calls_read(scan_of(text@, *config).blocks, *config, tools, compiled),
        ),
{
    let (normal, blocks) = scan_message(text, config);
    let ghost views = block_views(blocks@);
    let count = blocks.len();
    let mut calls: Vec<ToolCallResponse> = Vec::new();
    let mut i: usize = 0;
    while i < count
        invariant
            count == blocks@.len(),
            i <= count,
            views == block_views(blocks@),
            all_reported(calls@, calls_read(views.take(i as int), *config, tools, compiled)),
        decreases count - i,
    {
        assert(views.take(i + 1).drop_last() == views.take(i as int));
        assert(views[i as int] == blocks@[i as int]@);
        let ghost before = calls@;
        if let Ok(mut parsed) = block_calls(blocks[i].as_str(), config, tools, compiled) {
            let ghost added = parsed@;
            calls.append(&mut parsed);
            assert(calls@ == before + added);
        }
        i += 1;
    }
    assert(views.take(count as int) == views);
    (trimmed(normal.as_str()).to_owned(), calls)
}

/// The text outside of the blocks of a message, trimmed, and the calls in its blocks; no calls
/// where the tokens are too long for `regex`.
pub fn extract_tool_calls(
    text: &str,
    config: &XmlParserConfig,
    tools: Option<&[ToolDefinition]>,
) -> (extracted: (String, Vec<ToolCallResponse>))
    requires
        scan_ends(text@, *config),
    ensures
        extracted.0@ == trim(scan_of(text@, *config).normal),
        exists|compiled: bool|
            (tokens_moderate(*config) ==> compiled) && all_reported(
                extracted.1@,
                #[trigger] calls_read(scan_of(text@, *config).blocks, *config, tools, compiled),
            ),
{
    text_and_calls(text, config, tools, patterns_compile(config))
}

/// Parses the tool calls of a message.
///
/// Returns the calls in their order and the text outside of the blocks of calls, trimmed. A block
/// whose end token is missing counts as text. Where the tokens of functions or parameters are too
/// long for `regex`, no calls are returned.
pub fn try_tool_call_parse_xml(
    message: &str,
    config: &XmlParserConfig,
    tools: Option<&[ToolDefinition]>,
) -> (parsed: Result<(Vec<ToolCallResponse>, Option<String>), ParseError>)
    requires
        scan_ends(message@, *config),
    ensures
        parsed matches Ok((calls, normal)) && {
            &&& exists|compiled: bool|
                (tokens_moderate(*config) ==> compiled) && all_reported(
                    calls@,
                    #[trigger] calls_read(
                        scan_of(message@, *config).blocks,
                        *config,
                        tools,
                        compiled,
                    ),
                )
            &&& normal matches Some(text) && text@ == trim(scan_of(message@, *config).normal)
        },
{
    let (normal, calls) = extract_tool_calls(message, config, tools);
    Ok((calls, Some(normal)))
}

/// Whether the message can be parsed: its scan ends.
pub fn can_parse_xml(message: &str, config: &XmlParserConfig) -> (usable: bool)
    ensures
        usable == scan_ends(message@, *config),
{
    message.is_empty() || !config.tool_call_end_token.as_str().is_empty() || !has_token(
        message,
        config.tool_call_start_token.as_str(),
    )
}

/// Whether a block of calls begins in the chunk: it holds the start token, or it ends inside of a
/// start token that the next chunk may complete.
pub fn detect_tool_call_start_xml(chunk: &str, config: &XmlParserConfig) -> (found: bool)
    requires
        detection_cuts_cleanly(chunk@, config.tool_call_start_token@),
    ensures
        found == token_begins_in(chunk@, config.tool_call_start_token@),
{
    detects(chunk, config.tool_call_start_token.as_str())
}

/// Whether the start of a block of calls can be detected in the chunk.
pub fn can_detect_xml(chunk: &str, config: &XmlParserConfig) -> (usable: bool)
    ensures
        usable == detection_cuts_cleanly(chunk@, config.tool_call_start_token@),
{
    can_detect(chunk, config.tool_call_start_token.as_str())
}

/// The end of the blocks that follow each other from `cursor` on, with nothing but white space
/// between them; a block without an end token is not one of them.
pub open spec fn group_end(text: Seq<char>, cursor: int, start: Seq<char>, end: Seq<char>) -> int
    decreases text.len() - cursor,
{
    let block_start = white_end(text, cursor);
    if !token_at(text, block_start, start) {
        cursor
    } else {
        match find_from(text, end, block_start + start.len()) {
            Some(end_start) => if cursor < end_start + end.len() <= text.len() {
                group_end(text, end_start + end.len(), start, end)
            } else {
                cursor
            },
            None => cursor,
        }
    }
}

/// The end of the first group of blocks: behind the first end token and behind the blocks that
/// follow it; the end of the text where there is no end token.
pub open spec fn calls_end(text: Seq<char>, start: Seq<char>, end: Seq<char>) -> int {
    match find_from(text, end, 0) {
        Some(end_start) => group_end(text, end_start + end.len(), start, end),
        None => text.len() as int,
    }
}

/// The position, in bytes, behind the first group of consecutive blocks of calls; the length of
/// the chunk where no block is complete.
pub fn find_tool_call_end_position_xml(chunk: &str, config: &XmlParserConfig) -> (position: usize)
    requires
        0 < config.tool_call_start_token@.len() || 0 < config.tool_call_end_token@.len(),
    ensures
        position == byte_len(
            chunk@.take(
                calls_end(chunk@, config.tool_call_start_token@, config.tool_call_end_token@),
            ),
        ),
{
    let chars = to_chars(chunk);
    let start = to_chars(config.tool_call_start_token.as_str());
    let end = to_chars(config.tool_call_end_token.as_str());
    let count = chars.len();
    proof {
        lemma_find_from(chunk@, end@, 0);
    }
    let mut cursor = match find_token(chars.as_slice(), end.as_slice(), 0) {
        Some(end_start) => end_start + end.len(),
        None => {
            assert(chunk@.take(count as int) == chunk@);
            return bytes_in(chunk);
        },
    };
    loop
        invariant_except_break
            chars@ == chunk@,
            count == chunk@.len(),
            start@ == config.tool_call_start_token@,
            end@ == config.tool_call_end_token@,
            0 < start@.len() || 0 < end@.len(),
            cursor <= count,
            calls_end(chunk@, start@, end@) == group_end(chunk@, cursor as int, start@, end@),
        ensures
            cursor <= count,
            cursor == calls_end(chunk@, start@, end@),
            chars@ == chunk@,
            count == chunk@.len(),
            start@ == config.tool_call_start_token@,
            end@ == config.tool_call_end_token@,
        decreases count - cursor,
    {
        let block_start = skip_white(chars.as_slice(), cursor);
        if !has_token_at(chars.as_slice(), block_start, start.as_slice()) {
            break;
        }
        match find_token(chars.as_slice(), end.as_slice(), block_start + start.len()) {
            Some(end_start) => {
                cursor = end_start + end.len();
            },
            None => {
                break;
            },
        }
    }
    assert(chunk@.take(cursor as int) == chunk@.subrange(0, cursor as int));
    bytes_in(chunk.substring_char(0, cursor))
}

} // verus!

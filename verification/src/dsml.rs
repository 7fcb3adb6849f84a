//! Tool calls in DSML, the markup language of DeepSeek:
//!
//! ```text
//! <｜DSML｜function_calls>
//! <｜DSML｜invoke name="function_name">
//! <｜DSML｜parameter name="param_name" string="true|false">value</｜DSML｜parameter>
//! ...
//! </｜DSML｜invoke>
//! </｜DSML｜function_calls>
//! ```
use vstd::prelude::*;

use crate::arguments::{
    ArgumentModel, ArgumentValue, Arguments, json_normal_form, json_text, no_members,
    normalize_json, object_text,
};
use crate::config::DsmlParserConfig;
use crate::grammar::{closed_at, find_closed_at};
use crate::pattern::{Part, are_moderate, compiles, part_pattern, pattern_of};
use crate::response::{CallModel, ParseError, ToolCallResponse, all_reported, new_call};
use crate::stream::{detects, token_begins_in};
use crate::text::{
    byte_len, bytes_in, contains, find_from, find_token, has_token, has_token_at, lemma_find_from,
    skip_white, to_chars, token_at, trim, trimmed, white_end,
};

verus! {

/// Where a block stands: its start token, its content, and the position behind it.
pub struct BlockSpan {
    pub at: int,
    pub content_start: int,
    pub content_end: int,
    pub end: int,
}

/// The end of the content that goes on at `at`, and the position behind its block: the content
/// ends at the first place that nothing but white space parts from the end token.
pub open spec fn content_end(text: Seq<char>, at: int, token: Seq<char>) -> Option<(int, int)>
    decreases text.len() + 1 - at,
{
    if at > text.len() {
        None
    } else {
        match closed_at(text, at, token) {
            Some(end) => Some((at, end)),
            None => content_end(text, at + 1, token),
        }
    }
}

/// The block that begins at `at` and whose start token ends at `opened`, with `white` or less
/// characters of white space in front of its content; the longest white space counts.
pub open spec fn block_behind(
    text: Seq<char>,
    at: int,
    opened: int,
    white: int,
    token: Seq<char>,
) -> Option<BlockSpan>
    decreases white + 1,
{
    if white < 0 {
        None
    } else {
        match content_end(text, opened + white, token) {
            Some((content_end, end)) => Some(
                BlockSpan { at, content_start: opened + white, content_end, end },
            ),
            None => block_behind(text, at, opened, white - 1, token),
        }
    }
}

/// The block that begins at `at`: a start token, and an end token behind it, with a content between
/// them from which the white space around it is taken off.
pub open spec fn block_at(text: Seq<char>, at: int, config: DsmlParserConfig) -> Option<BlockSpan> {
    let opened = at + config.function_calls_start@.len();
    if token_at(text, at, config.function_calls_start@) {
        block_behind(
            text,
            at,
            opened,
            white_end(text, opened) - opened,
            config.function_calls_end@,
        )
    } else {
        None
    }
}

/// The first block that begins at `from` or behind it.
pub open spec fn next_block(text: Seq<char>, from: int, config: DsmlParserConfig) -> Option<
    BlockSpan,
>
    decreases text.len() + 1 - from,
{
    if from > text.len() {
        None
    } else {
        match block_at(text, from, config) {
            Some(span) => Some(span),
            None => next_block(text, from + 1, config),
        }
    }
}

/// The place from which the next block is searched: behind a block, or, behind an empty one, one
/// character further.
pub open spec fn behind_block(span: BlockSpan) -> int {
    if span.at < span.end {
        span.end
    } else {
        span.at + 1
    }
}

/// The contents of the blocks from `from` on, each searched behind the one before.
pub open spec fn blocks_from(text: Seq<char>, from: int, config: DsmlParserConfig) -> Seq<Seq<char>>
    decreases text.len() + 1 - from,
{
    match next_block(text, from, config) {
        Some(span) => if from < behind_block(span) <= text.len() + 1 {
            seq![text.subrange(span.content_start, span.content_end)] + blocks_from(
                text,
                behind_block(span),
                config,
            )
        } else {
            Seq::empty()
        },
        None => Seq::empty(),
    }
}

/// Where a quoted name stands that begins at `at`: a quote, at least one character, and the next
/// quote.
pub open spec fn quoted_at(text: Seq<char>, at: int) -> Option<(int, int)> {
    if 0 <= at < text.len() && text[at] == '"' {
        match find_from(text, seq!['"'], at + 1) {
            Some(end) => if at + 1 < end {
                Some((at + 1, end))
            } else {
                None
            },
            None => None,
        }
    } else {
        None
    }
}

/// The position behind a tag whose last attribute ends at `at`: white space, and `>`.
pub open spec fn tag_end(text: Seq<char>, at: int) -> Option<int> {
    let bracket = white_end(text, at);
    if 0 <= bracket < text.len() && text[bracket] == '>' {
        Some(bracket + 1)
    } else {
        None
    }
}

/// Where an element stands: its name, its body, and the position behind it.
pub struct ElementSpan {
    pub name_start: int,
    pub name_end: int,
    pub is_string: bool,
    pub body_start: int,
    pub body_end: int,
    pub end: int,
}

/// The call that begins at `at`: the prefix, a quoted name, the end of the tag, and a body up to
/// the next end token.
pub open spec fn invoke_at(text: Seq<char>, at: int, config: DsmlParserConfig) -> Option<
    ElementSpan,
> {
    if !token_at(text, at, config.invoke_start_prefix@) {
        None
    } else {
        match quoted_at(text, at + config.invoke_start_prefix@.len()) {
            Some((name_start, name_end)) => match tag_end(text, name_end + 1) {
                Some(body_start) => match find_from(text, config.invoke_end@, body_start) {
                    Some(body_end) => Some(
                        ElementSpan {
                            name_start,
                            name_end,
                            is_string: true,
                            body_start,
                            body_end,
                            end: body_end + config.invoke_end@.len(),
                        },
                    ),
                    None => None,
                },
                None => None,
            },
            None => None,
        }
    }
}

/// The attribute `string="true"` or `string="false"` at `at`: what it says, and the position behind
/// it.
pub open spec fn string_attribute_at(text: Seq<char>, at: int) -> Option<(bool, int)> {
    if token_at(text, at, "string=\"true\""@) {
        Some((true, at + "string=\"true\""@.len()))
    } else if token_at(text, at, "string=\"false\""@) {
        Some((false, at + "string=\"false\""@.len()))
    } else {
        None
    }
}

/// The parameter that begins at `at`: the prefix, a quoted name, white space, the attribute that
/// says whether it is a string, the end of the tag, and a body up to the next end token.
pub open spec fn parameter_at(text: Seq<char>, at: int, config: DsmlParserConfig) -> Option<
    ElementSpan,
> {
    if !token_at(text, at, config.parameter_prefix@) {
        None
    } else {
        match quoted_at(text, at + config.parameter_prefix@.len()) {
            Some((name_start, name_end)) => {
                let attribute = white_end(text, name_end + 1);
                match string_attribute_at(text, attribute) {
                    Some((is_string, behind)) => if name_end + 1 < attribute {
                        match tag_end(text, behind) {
                            Some(body_start) => match find_from(
                                text,
                                config.parameter_end@,
                                body_start,
                            ) {
                                Some(body_end) => Some(
                                    ElementSpan {
                                        name_start,
                                        name_end,
                                        is_string,
                                        body_start,
                                        body_end,
                                        end: body_end + config.parameter_end@.len(),
                                    },
                                ),
                                None => None,
                            },
                            None => None,
                        }
                    } else {
                        None
                    },
                    None => None,
                }
            },
            None => None,
        }
    }
}

/// The two kinds of elements inside of a block.
#[derive(Debug, Clone, Copy, PartialEq, Eq, Structural)]
pub enum ElementKind {
    Invoke,
    Parameter,
}

/// The element of this kind that begins at `at`.
pub open spec fn element_at(
    text: Seq<char>,
    at: int,
    kind: ElementKind,
    config: DsmlParserConfig,
) -> Option<ElementSpan> {
    match kind {
        ElementKind::Invoke => invoke_at(text, at, config),
        ElementKind::Parameter => parameter_at(text, at, config),
    }
}

/// The first element of this kind that begins at `from` or behind it.
pub open spec fn next_element(
    text: Seq<char>,
    from: int,
    kind: ElementKind,
    config: DsmlParserConfig,
) -> Option<ElementSpan>
    decreases text.len() + 1 - from,
{
    if from > text.len() {
        None
    } else {
        match element_at(text, from, kind, config) {
            Some(span) => Some(span),
            None => next_element(text, from + 1, kind, config),
        }
    }
}

/// What an element says.
pub struct Element {
    pub name: Seq<char>,
    pub is_string: bool,
    pub body: Seq<char>,
}

/// The elements of this kind from `from` on, each searched behind the one before.
pub open spec fn elements_from(
    text: Seq<char>,
    from: int,
    kind: ElementKind,
    config: DsmlParserConfig,
) -> Seq<Element>
    decreases text.len() - from,
{
    match next_element(text, from, kind, config) {
        Some(span) => if from < span.end <= text.len() {
            seq![
                Element {
                    name: text.subrange(span.name_start, span.name_end),
                    is_string: span.is_string,
                    body: text.subrange(span.body_start, span.body_end),
                },
            ] + elements_from(text, span.end, kind, config)
        } else {
            Seq::empty()
        },
        None => Seq::empty(),
    }
}

/// The elements of this kind in a text, in their order.
pub open spec fn elements_of(text: Seq<char>, kind: ElementKind, config: DsmlParserConfig) -> Seq<
    Element,
> {
    elements_from(text, 0, kind, config)
}

/// The value of a parameter, given whether its text is JSON: a string as it stands, anything else
/// as the JSON that it is, or as a string where it is none.
pub open spec fn value_model(text: Seq<char>, is_string: bool, is_json: bool) -> ArgumentModel {
    if !is_string && is_json {
        ArgumentModel::Json(text)
    } else {
        ArgumentModel::Text(text)
    }
}

/// The arguments that parameters give; a later one of the same name takes the place of an earlier
/// one.
pub open spec fn arguments_of(parameters: Seq<Element>) -> Map<Seq<char>, Seq<char>>
    decreases parameters.len(),
{
    if parameters.len() == 0 {
        no_members()
    } else {
        let last = parameters.last();
        let text = trim(last.body);
        arguments_of(parameters.drop_last()).insert(
            trim(last.name),
            json_text(value_model(text, last.is_string, json_normal_form(text) is Some)),
        )
    }
}

/// The call of an element.
pub open spec fn call_of(invoke: Element, config: DsmlParserConfig) -> CallModel {
    CallModel {
        name: trim(invoke.name),
        arguments: object_text(
            arguments_of(elements_of(invoke.body, ElementKind::Parameter, config)),
        ),
    }
}

/// The calls in the content of a block.
pub open spec fn calls_of(block: Seq<char>, config: DsmlParserConfig) -> Seq<CallModel> {
    elements_of(block, ElementKind::Invoke, config).map_values(
        |invoke: Element| call_of(invoke, config),
    )
}

/// The calls of blocks, block by block.
pub open spec fn calls_in(blocks: Seq<Seq<char>>, config: DsmlParserConfig) -> Seq<CallModel>
    decreases blocks.len(),
{
    if blocks.len() == 0 {
        Seq::empty()
    } else {
        calls_in(blocks.drop_last(), config) + calls_of(blocks.last(), config)
    }
}

/// The calls in a text.
pub open spec fn calls_in_text(text: Seq<char>, config: DsmlParserConfig) -> Seq<CallModel> {
    calls_in(blocks_from(text, 0, config), config)
}

/// The text that a message has beside its calls: what stands in front of the first start token,
/// or the whole message where it has no calls; trimmed.
pub open spec fn normal_text(message: Seq<char>, config: DsmlParserConfig) -> Seq<char> {
    let text = trim(message);
    if calls_in_text(text, config).len() == 0 {
        text
    } else {
        match find_from(text, config.function_calls_start@, 0) {
            Some(start) => trim(text.take(start)),
            None => text,
        }
    }
}

/// The tokens of a configuration, as characters.
struct Tokens {
    calls_start: Vec<char>,
    calls_end: Vec<char>,
    invoke_prefix: Vec<char>,
    invoke_end: Vec<char>,
    parameter_prefix: Vec<char>,
    parameter_end: Vec<char>,
    string_true: Vec<char>,
    string_false: Vec<char>,
}

impl Tokens {
    /// These are the tokens of `config`.
    spec fn of(&self, config: DsmlParserConfig) -> bool {
        &&& self.calls_start@ == config.function_calls_start@
        &&& self.calls_end@ == config.function_calls_end@
        &&& self.invoke_prefix@ == config.invoke_start_prefix@
        &&& self.invoke_end@ == config.invoke_end@
        &&& self.parameter_prefix@ == config.parameter_prefix@
        &&& self.parameter_end@ == config.parameter_end@
        &&& self.string_true@ == "string=\"true\""@
        &&& self.string_false@ == "string=\"false\""@
    }

    /// The tokens of `config`.
    fn new(config: &DsmlParserConfig) -> (tokens: Tokens)
        ensures
            tokens.of(*config),
    {
        Tokens {
            calls_start: to_chars(config.function_calls_start.as_str()),
            calls_end: to_chars(config.function_calls_end.as_str()),
            invoke_prefix: to_chars(config.invoke_start_prefix.as_str()),
            invoke_end: to_chars(config.invoke_end.as_str()),
            parameter_prefix: to_chars(config.parameter_prefix.as_str()),
            parameter_end: to_chars(config.parameter_end.as_str()),
            string_true: to_chars("string=\"true\""),
            string_false: to_chars("string=\"false\""),
        }
    }
}

/// The end of the content that goes on at `from`, and the position behind its block.
fn find_content_end(text: &[char], from: usize, token: &[char]) -> (found: Option<(usize, usize)>)
    requires
        from <= text@.len(),
    ensures
        match found {
            Some((at, end)) => {
                &&& content_end(text@, from as int, token@) == Some((at as int, end as int))
                &&& from <= at <= end <= text@.len()
            },
            None => content_end(text@, from as int, token@) is None,
        },
{
    let count = text.len();
    let mut at: usize = from;
    loop
        invariant
            count == text@.len(),
            from <= at <= count,
            content_end(text@, from as int, token@) == content_end(text@, at as int, token@),
        decreases count - at,
    {
        if let Some(end) = find_closed_at(text, at, token) {
            return Some((at, end));
        }
        if at == count {
            assert(content_end(text@, count + 1, token@) is None);
            return None;
        }
        at += 1;
    }
}

/// Where a block stands, found by executable code.
struct FoundBlock {
    at: usize,
    content_start: usize,
    content_end: usize,
    end: usize,
}

/// A found block, in integers.
spec fn block_view(found: Option<FoundBlock>) -> Option<BlockSpan> {
    match found {
        Some(span) => Some(
            BlockSpan {
                at: span.at as int,
                content_start: span.content_start as int,
                content_end: span.content_end as int,
                end: span.end as int,
            },
        ),
        None => None,
    }
}

/// A found block lies in the text, at `from` or behind it.
spec fn block_lies_behind(found: Option<FoundBlock>, from: int, text: Seq<char>) -> bool {
    found matches Some(span) ==> {
        &&& from <= span.at <= span.content_start <= span.content_end <= span.end
        &&& span.end <= text.len()
    }
}

/// The block that begins at `at`.
fn find_block_at(text: &[char], at: usize, tokens: &Tokens, config: &DsmlParserConfig) -> (found:
    Option<FoundBlock>)
    requires
        at <= text@.len(),
        tokens.of(*config),
    ensures
        block_view(found) == block_at(text@, at as int, *config),
        block_lies_behind(found, at as int, text@),
{
    let count = text.len();
    if !has_token_at(text, at, tokens.calls_start.as_slice()) {
        return None;
    }
    let opened = at + tokens.calls_start.len();
    let mut start = skip_white(text, opened);
    loop
        invariant
            count == text@.len(),
            at <= opened <= start <= count,
            tokens.of(*config),
            block_at(text@, at as int, *config) == block_behind(
                text@,
                at as int,
                opened as int,
                start - opened,
                config.function_calls_end@,
            ),
        decreases start,
    {
        if let Some((content_end, end)) = find_content_end(
            text,
            start,
            tokens.calls_end.as_slice(),
        ) {
            return Some(FoundBlock { at, content_start: start, content_end, end });
        }
        if start == opened {
            assert(block_behind(
                text@,
                at as int,
                opened as int,
                -1,
                config.function_calls_end@,
            ) is None);
            return None;
        }
        start -= 1;
    }
}

/// The first block that begins at `from` or behind it.
fn find_block(text: &[char], from: usize, tokens: &Tokens, config: &DsmlParserConfig) -> (found:
    Option<FoundBlock>)
    requires
        from <= text@.len(),
        tokens.of(*config),
    ensures
        block_view(found) == next_block(text@, from as int, *config),
        block_lies_behind(found, from as int, text@),
{
    let count = text.len();
    let mut at: usize = from;
    loop
        invariant
            count == text@.len(),
            from <= at <= count,
            tokens.of(*config),
            next_block(text@, from as int, *config) == next_block(text@, at as int, *config),
        decreases count - at,
    {
        let found = find_block_at(text, at, tokens, config);
        if found.is_some() {
            return found;
        }
        if at == count {
            assert(next_block(text@, count + 1, *config) is None);
            return None;
        }
        at += 1;
    }
}

/// The views of contents.
pub open spec fn content_views(blocks: Seq<String>) -> Seq<Seq<char>> {
    blocks.map_values(|block: String| block@)
}

/// The contents of the blocks of a text, in their order.
pub fn blocks(text: &str, config: &DsmlParserConfig) -> (found: Vec<String>)
    ensures
        content_views(found@) == blocks_from(text@, 0, *config),
{
    let chars = to_chars(text);
    let tokens = Tokens::new(config);
    let count = chars.len();
    let mut found: Vec<String> = Vec::new();
    let mut done: usize = 0;
    loop
        invariant
            chars@ == text@,
            count == text@.len(),
            tokens.of(*config),
            done <= count,
            blocks_from(text@, 0, *config) == content_views(found@) + blocks_from(
                text@,
                done as int,
                *config,
            ),
        decreases count + 1 - done,
    {
        match find_block(chars.as_slice(), done, &tokens, config) {
            Some(span) => {
                let content = text.substring_char(span.content_start, span.content_end).to_owned();
                let ghost before = found@;
                found.push(content);
                assert(content_views(found@) == content_views(before).push(content@));
                if span.at < span.end {
                    done = span.end;
                } else if span.at < count {
                    done = span.at + 1;
                } else {
                    assert(next_block(text@, count + 1, *config) is None);
                    assert(blocks_from(text@, count + 1, *config) == Seq::<Seq<char>>::empty());
                    return found;
                }
            },
            None => {
                assert(blocks_from(text@, done as int, *config) == Seq::<Seq<char>>::empty());
                return found;
            },
        }
    }
}

/// Where a quoted name stands that begins at `at`.
fn find_quoted_at(text: &[char], at: usize) -> (found: Option<(usize, usize)>)
    requires
        at <= text@.len(),
    ensures
        match found {
            Some((start, end)) => {
                &&& quoted_at(text@, at as int) == Some((start as int, end as int))
                &&& at < start < end < text@.len() <= usize::MAX
            },
            None => quoted_at(text@, at as int) is None,
        },
{
    let count = text.len();
    if at == count || text[at] != '"' {
        return None;
    }
    let quote: [char; 1] = ['"'];
    assert(quote@ == seq!['"']);
    match find_token(text, quote.as_slice(), at + 1) {
        Some(end) => if at + 1 < end {
            Some((at + 1, end))
        } else {
            None
        },
        None => None,
    }
}

/// The position behind a tag whose last attribute ends at `at`.
fn find_tag_end(text: &[char], at: usize) -> (found: Option<usize>)
    requires
        at <= text@.len(),
    ensures
        match found {
            Some(end) => tag_end(text@, at as int) == Some(end as int) && at < end <= text@.len(),
            None => tag_end(text@, at as int) is None,
        },
{
    let bracket = skip_white(text, at);
    if bracket < text.len() && text[bracket] == '>' {
        Some(bracket + 1)
    } else {
        None
    }
}

/// Where an element stands, found by executable code.
struct FoundElement {
    name_start: usize,
    name_end: usize,
    is_string: bool,
    body_start: usize,
    body_end: usize,
    end: usize,
}

/// A found element, in integers.
spec fn element_view(found: Option<FoundElement>) -> Option<ElementSpan> {
    match found {
        Some(span) => Some(
            ElementSpan {
                name_start: span.name_start as int,
                name_end: span.name_end as int,
                is_string: span.is_string,
                body_start: span.body_start as int,
                body_end: span.body_end as int,
                end: span.end as int,
            },
        ),
        None => None,
    }
}

/// A found element lies in the text, behind `from`.
spec fn element_lies_behind(found: Option<FoundElement>, from: int, text: Seq<char>) -> bool {
    found matches Some(span) ==> {
        &&& from < span.name_start < span.name_end < span.body_start <= span.body_end <= span.end
        &&& span.end <= text.len()
    }
}

/// The call that begins at `at`.
fn find_invoke_at(text: &[char], at: usize, tokens: &Tokens, config: &DsmlParserConfig) -> (found:
    Option<FoundElement>)
    requires
        at <= text@.len(),
        tokens.of(*config),
    ensures
        element_view(found) == invoke_at(text@, at as int, *config),
        element_lies_behind(found, at as int, text@),
{
    if !has_token_at(text, at, tokens.invoke_prefix.as_slice()) {
        return None;
    }
    let (name_start, name_end) = match find_quoted_at(text, at + tokens.invoke_prefix.len()) {
        Some(name) => name,
        None => {
            return None;
        },
    };
    let body_start = match find_tag_end(text, name_end + 1) {
        Some(body_start) => body_start,
        None => {
            return None;
        },
    };
    match find_token(text, tokens.invoke_end.as_slice(), body_start) {
        Some(body_end) => Some(
            FoundElement {
                name_start,
                name_end,
                is_string: true,
                body_start,
                body_end,
                end: body_end + tokens.invoke_end.len(),
            },
        ),
        None => None,
    }
}

/// The attribute that says whether a parameter is a string, at `at`.
fn find_string_attribute_at(text: &[char], at: usize, tokens: &Tokens, config: &DsmlParserConfig) -> (
found: Option<(bool, usize)>)
    requires
        at <= text@.len(),
        tokens.of(*config),
    ensures
        match found {
            Some((is_string, end)) => {
                &&& string_attribute_at(text@, at as int) == Some((is_string, end as int))
                &&& at <= end <= text@.len()
            },
            None => string_attribute_at(text@, at as int) is None,
        },
{
    if has_token_at(text, at, tokens.string_true.as_slice()) {
        Some((true, at + tokens.string_true.len()))
    } else if has_token_at(text, at, tokens.string_false.as_slice()) {
        Some((false, at + tokens.string_false.len()))
    } else {
        None
    }
}

/// The parameter that begins at `at`.
fn find_parameter_at(text: &[char], at: usize, tokens: &Tokens, config: &DsmlParserConfig) -> (found:
    Option<FoundElement>)
    requires
        at <= text@.len(),
        tokens.of(*config),
    ensures
        element_view(found) == parameter_at(text@, at as int, *config),
        element_lies_behind(found, at as int, text@),
{
    if !has_token_at(text, at, tokens.parameter_prefix.as_slice()) {
        return None;
    }
    let (name_start, name_end) = match find_quoted_at(text, at + tokens.parameter_prefix.len()) {
        Some(name) => name,
        None => {
            return None;
        },
    };
    let attribute = skip_white(text, name_end + 1);
    if attribute == name_end + 1 {
        return None;
    }
    let (is_string, behind) = match find_string_attribute_at(text, attribute, tokens, config) {
        Some(found) => found,
        None => {
            return None;
        },
    };
    let body_start = match find_tag_end(text, behind) {
        Some(body_start) => body_start,
        None => {
            return None;
        },
    };
    match find_token(text, tokens.parameter_end.as_slice(), body_start) {
        Some(body_end) => Some(
            FoundElement {
                name_start,
                name_end,
                is_string,
                body_start,
                body_end,
                end: body_end + tokens.parameter_end.len(),
            },
        ),
        None => None,
    }
}

/// The first element of this kind that begins at `from` or behind it.
fn find_element(
    text: &[char],
    from: usize,
    kind: ElementKind,
    tokens: &Tokens,
    config: &DsmlParserConfig,
) -> (found: Option<FoundElement>)
    requires
        from <= text@.len(),
        tokens.of(*config),
    ensures
        element_view(found) == next_element(text@, from as int, kind, *config),
        element_lies_behind(found, from as int, text@),
{
    let count = text.len();
    let mut at: usize = from;
    loop
        invariant
            count == text@.len(),
            from <= at <= count,
            tokens.of(*config),
            next_element(text@, from as int, kind, *config) == next_element(
                text@,
                at as int,
                kind,
                *config,
            ),
        decreases count - at,
    {
        let found = match kind {
            ElementKind::Invoke => find_invoke_at(text, at, tokens, config),
            ElementKind::Parameter => find_parameter_at(text, at, tokens, config),
        };
        if found.is_some() {
            return found;
        }
        if at == count {
            assert(next_element(text@, count + 1, kind, *config) is None);
            return None;
        }
        at += 1;
    }
}

/// What an element says, as executable code holds it.
#[derive(Debug, Clone, PartialEq, Eq)]
pub struct ParsedElement {
    pub name: String,
    /// The attribute `string`; `true` for a call, which has none.
    pub is_string: bool,
    pub body: String,
}

impl View for ParsedElement {
    type V = Element;

    open spec fn view(&self) -> Element {
        Element { name: self.name@, is_string: self.is_string, body: self.body@ }
    }
}

/// The views of elements.
pub open spec fn element_views(elements: Seq<ParsedElement>) -> Seq<Element> {
    elements.map_values(|element: ParsedElement| element@)
}

/// The elements of this kind in a text, in their order.
pub fn elements(text: &str, kind: ElementKind, config: &DsmlParserConfig) -> (found: Vec<
    ParsedElement,
>)
    ensures
        element_views(found@) == elements_of(text@, kind, *config),
{
    let chars = to_chars(text);
    let tokens = Tokens::new(config);
    let mut found: Vec<ParsedElement> = Vec::new();
    let mut done: usize = 0;
    loop
        invariant
            chars@ == text@,
            tokens.of(*config),
            done <= text@.len(),
            elements_of(text@, kind, *config) == element_views(found@) + elements_from(
                text@,
                done as int,
                kind,
                *config,
            ),
        decreases text@.len() - done,
    {
        match find_element(chars.as_slice(), done, kind, &tokens, config) {
            Some(span) => {
                let element = ParsedElement {
                    name: text.substring_char(span.name_start, span.name_end).to_owned(),
                    is_string: span.is_string,
                    body: text.substring_char(span.body_start, span.body_end).to_owned(),
                };
                let ghost before = found@;
                found.push(element);
                assert(element_views(found@) == element_views(before).push(element@));
                done = span.end;
            },
            None => {
                assert(elements_from(text@, done as int, kind, *config) == Seq::<
                    Element,
                >::empty());
                return found;
            },
        }
    }
}

/// The value of a parameter, given whether its text is JSON.
pub fn parameter_value(text: &str, is_string: bool, is_json: bool) -> (value: ArgumentValue)
    ensures
        value@ == value_model(text@, is_string, is_json),
{
    if !is_string && is_json {
        ArgumentValue::Json(text.to_owned())
    } else {
        ArgumentValue::Text(text.to_owned())
    }
}

/// The arguments that the parameters of a call give.
pub fn parse_parameters(content: &str, config: &DsmlParserConfig) -> (arguments: Arguments)
    ensures
        arguments@ == arguments_of(elements_of(content@, ElementKind::Parameter, *config)),
{
    let found = elements(content, ElementKind::Parameter, config);
    let ghost views = element_views(found@);
    let count = found.len();
    let mut arguments = Arguments::new();
    let mut i: usize = 0;
    while i < count
        invariant
            count == found@.len(),
            i <= count,
            views == element_views(found@),
            arguments@ == arguments_of(views.take(i as int)),
        decreases count - i,
    {
        assert(views.take(i + 1).drop_last() == views.take(i as int));
        assert(views[i as int] == found@[i as int]@);
        let name = trimmed(found[i].name.as_str());
        let text = trimmed(found[i].body.as_str());
        let is_json = normalize_json(text).is_some();
        arguments.insert(name.to_owned(), parameter_value(text, found[i].is_string, is_json));
        i += 1;
    }
    assert(views.take(count as int) == views);
    arguments
}

/// The calls in the content of a block.
pub fn extract_invokes(block: &str, config: &DsmlParserConfig) -> (calls: Vec<ToolCallResponse>)
    ensures
        all_reported(calls@, calls_of(block@, *config)),
{
    let found = elements(block, ElementKind::Invoke, config);
    let ghost views = element_views(found@);
    let count = found.len();
    let mut calls: Vec<ToolCallResponse> = Vec::new();
    let mut i: usize = 0;
    while i < count
        invariant
            count == found@.len(),
            i <= count,
            views == element_views(found@),
            views == elements_of(block@, ElementKind::Invoke, *config),
            all_reported(calls@, calls_of(block@, *config).take(i as int)),
        decreases count - i,
    {
        assert(views[i as int] == found@[i as int]@);
        let name = trimmed(found[i].name.as_str());
        let arguments = parse_parameters(found[i].body.as_str(), config);
        calls.push(new_call(name.to_owned(), arguments.to_json()));
        i += 1;
    }
    assert(calls_of(block@, *config).take(count as int) == calls_of(block@, *config));
    calls
}

/// The calls of the blocks of a text, block by block.
fn calls_of_blocks(text: &str, config: &DsmlParserConfig) -> (calls: Vec<ToolCallResponse>)
    ensures
        all_reported(calls@, calls_in_text(text@, *config)),
{
    let found = blocks(text, config);
    let ghost views = content_views(found@);
    let count = found.len();
    let mut calls: Vec<ToolCallResponse> = Vec::new();
    let mut i: usize = 0;
    while i < count
        invariant
            count == found@.len(),
            i <= count,
            views == content_views(found@),
            all_reported(calls@, calls_in(views.take(i as int), *config)),
        decreases count - i,
    {
        assert(views.take(i + 1).drop_last() == views.take(i as int));
        assert(views[i as int] == found@[i as int]@);
        let ghost before = calls@;
        let mut parsed = extract_invokes(found[i].as_str(), config);
        let ghost added = parsed@;
        calls.append(&mut parsed);
        assert(calls@ == before + added);
        i += 1;
    }
    assert(views.take(count as int) == views);
    calls
}

/// The tokens of blocks are moderate, those of calls, and those of parameters.
pub open spec fn tokens_moderate(config: DsmlParserConfig) -> bool {
    &&& are_moderate(config.function_calls_start@, config.function_calls_end@)
    &&& are_moderate(config.invoke_start_prefix@, config.invoke_end@)
    &&& are_moderate(config.parameter_prefix@, config.parameter_end@)
}

/// The patterns of a configuration.
pub struct DsmlPatterns {
    pub block: String,
    pub invoke: String,
    pub parameter: String,
}

/// The patterns of blocks, calls and parameters.
pub fn patterns_for(config: &DsmlParserConfig) -> (patterns: DsmlPatterns)
    ensures
        patterns.block@ == pattern_of(
            Part::DsmlBlock,
            config.function_calls_start@,
            config.function_calls_end@,
        ),
        patterns.invoke@ == pattern_of(
            Part::DsmlInvoke,
            config.invoke_start_prefix@,
            config.invoke_end@,
        ),
        patterns.parameter@ == pattern_of(
            Part::DsmlParameter,
            config.parameter_prefix@,
            config.parameter_end@,
        ),
{
    DsmlPatterns {
        block: part_pattern(
            Part::DsmlBlock,
            config.function_calls_start.as_str(),
            config.function_calls_end.as_str(),
        ),
        invoke: part_pattern(
            Part::DsmlInvoke,
            config.invoke_start_prefix.as_str(),
            config.invoke_end.as_str(),
        ),
        parameter: part_pattern(
            Part::DsmlParameter,
            config.parameter_prefix.as_str(),
            config.parameter_end.as_str(),
        ),
    }
}

/// Whether `regex` compiles the patterns of blocks, calls and parameters.
fn patterns_compile(config: &DsmlParserConfig) -> (compiled: bool)
    ensures
        tokens_moderate(*config) ==> compiled,
{
    let patterns = patterns_for(config);
    compiles(patterns.block.as_str()) && compiles(patterns.invoke.as_str()) && compiles(
        patterns.parameter.as_str(),
    )
}

/// The calls in a text, block by block.
///
/// An error comes only with tokens that are too long for `regex`.
pub fn extract_tool_calls(text: &str, config: &DsmlParserConfig) -> (extracted: Result<
    Vec<ToolCallResponse>,
    ParseError,
>)
    ensures
        match extracted {
            Ok(calls) => all_reported(calls@, calls_in_text(text@, *config)),
            Err(_) => !tokens_moderate(*config),
        },
{
    if patterns_compile(config) {
        Ok(calls_of_blocks(text, config))
    } else {
        Err(ParseError)
    }
}

/// The patterns of the format are needed to parse the message: it holds the start token.
pub open spec fn needs_patterns(message: Seq<char>, config: DsmlParserConfig) -> bool {
    0 < trim(message).len() && contains(trim(message), config.function_calls_start@)
}

/// The calls of a message and its text, given whether the patterns of the format compile: without
/// them, a message that holds the start token is refused.
pub fn parse_message(message: &str, config: &DsmlParserConfig, compiled: bool) -> (parsed: Result<
    (Vec<ToolCallResponse>, Option<String>),
    ParseError,
>)
    ensures
        match parsed {
            Ok((calls, normal)) => {
                &&& needs_patterns(message@, *config) ==> compiled
                &&& all_reported(calls@, calls_in_text(trim(message@), *config))
                &&& normal matches Some(text) && text@ == normal_text(message@, *config)
            },
            Err(_) => needs_patterns(message@, *config) && !compiled,
        },
{
    let text = trimmed(message);
    let chars = to_chars(text);
    let start = to_chars(config.function_calls_start.as_str());
    let found = find_token(chars.as_slice(), start.as_slice(), 0);
    proof {
        lemma_find_from(text@, start@, 0);
    }
    if found.is_some() && !text.is_empty() && !compiled {
        return Err(ParseError);
    }
    let calls = calls_of_blocks(text, config);
    if calls.len() == 0 {
        return Ok((calls, Some(text.to_owned())));
    }
    let normal = match found {
        Some(at) => {
            assert(text@.take(at as int) == text@.subrange(0, at as int));
            trimmed(text.substring_char(0, at))
        },
        None => text,
    };
    Ok((calls, Some(normal.to_owned())))
}

/// Parses the tool calls of a message.
///
/// Returns the calls in their order and the text in front of the first block, trimmed. Of a
/// message that has no complete call nothing is taken away but the white space around it. A message
/// that holds the start token is refused where the tokens are too long for `regex`.
pub fn try_tool_call_parse_dsml(message: &str, config: &DsmlParserConfig) -> (parsed: Result<
    (Vec<ToolCallResponse>, Option<String>),
    ParseError,
>)
    ensures
        match parsed {
            Ok((calls, normal)) => {
                &&& all_reported(calls@, calls_in_text(trim(message@), *config))
                &&& normal matches Some(text) && text@ == normal_text(message@, *config)
            },
            Err(_) => needs_patterns(message@, *config) && !tokens_moderate(*config),
        },
{
    let compiled = !has_token(trimmed(message), config.function_calls_start.as_str())
        || patterns_compile(config);
    parse_message(message, config, compiled)
}

/// Whether a block of calls begins in the chunk: it holds the start token, or it ends inside of a
/// start token that the next chunk may complete.
pub fn detect_tool_call_start_dsml(chunk: &str, config: &DsmlParserConfig) -> (found: bool)
    ensures
        found == token_begins_in(chunk@, config.function_calls_start@),
{
    detects(chunk, config.function_calls_start.as_str())
}

/// The end of the first block: behind the first end token, or the end of the text where there is
/// none.
pub open spec fn block_end(text: Seq<char>, token: Seq<char>) -> int {
    match find_from(text, token, 0) {
        Some(at) => at + token.len(),
        None => text.len() as int,
    }
}

/// The position, in bytes, behind the first block of calls; the length of the chunk where the
/// block is not complete.
pub fn find_tool_call_end_position_dsml(chunk: &str, config: &DsmlParserConfig) -> (position: usize)
    ensures
        position == byte_len(chunk@.take(block_end(chunk@, config.function_calls_end@))),
{
    let chars = to_chars(chunk);
    let token = to_chars(config.function_calls_end.as_str());
    match find_token(chars.as_slice(), token.as_slice(), 0) {
        Some(at) => {
            let end = at + token.len();
            assert(chunk@.take(end as int) == chunk@.subrange(0, end as int));
            bytes_in(chunk.substring_char(0, end))
        },
        None => {
            assert(chunk@.take(chunk@.len() as int) == chunk@);
            bytes_in(chunk)
        },
    }
}

} // verus!

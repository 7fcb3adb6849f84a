//! Tool calls in the format of Kimi K2: sections of calls, each with an id such as
//! `functions.get_weather:0` and a JSON object of arguments.
use vstd::prelude::*;
use vstd::utf8::is_ascii_chars;

use crate::arguments::{json_normal_form, normalize_json};
use crate::config::KimiK2ParserConfig;
use crate::grammar::{closed_at, find_closed_at};
use crate::pattern::{are_moderate, call_pattern, call_pattern_of, compiles};
use crate::response::{CalledFunction, ParseError, ToolCallResponse, ToolCallType};
use crate::schema::ToolDefinition;
use crate::stream::{detects, token_begins_in};
use crate::text::{
    byte_len, bytes_in, find_from, find_token, has_token_at, skip_white, to_chars, token_at, trim,
    trimmed, white_end,
};

verus! {

/// `regex` finds a match of `pattern`, one of `\w` and `\d`, in the text that is `c` alone.
pub uninterp spec fn regex_matches_char(pattern: Seq<char>, c: char) -> bool;

/// Compiles `pattern` with `regex::Regex::new` and looks with `Regex::is_match` for a match in the
/// text that is `c` alone. The pattern is `\w` or `\d`; both compile on every machine, and which
/// characters they match is fixed by tables of `regex`, so that the result is a function of both
/// arguments.
#[verifier::external_body]
fn matches_char(pattern: &str, c: char) -> (found: bool)
    requires
        pattern@ == "\\w"@ || pattern@ == "\\d"@,
    ensures
        found == regex_matches_char(pattern@, c),
{
    let text = String::from(c);
    regex::Regex::new(pattern).is_ok_and(|regex| regex.is_match(&text))
}

/// `c` is a word character: an ASCII letter or digit, `_`, or beyond ASCII a character of the
/// class `\w` of `regex`.
pub open spec fn is_word(c: char) -> bool {
    if (c as u32) < 0x80 {
        ('a' <= c && c <= 'z') || ('A' <= c && c <= 'Z') || ('0' <= c && c <= '9') || c == '_'
    } else {
        regex_matches_char("\\w"@, c)
    }
}

/// `c` is a decimal digit: an ASCII digit, or beyond ASCII a character of the class `\d` of
/// `regex`.
pub open spec fn is_digit(c: char) -> bool {
    if (c as u32) < 0x80 {
        '0' <= c && c <= '9'
    } else {
        regex_matches_char("\\d"@, c)
    }
}

/// `c` may stand in the name of a function: a word character, `.` or `-`.
pub open spec fn is_name_char(c: char) -> bool {
    is_word(c) || c == '.' || c == '-'
}

/// The position behind the name characters that stand in `text` from `from` on.
pub open spec fn name_end(text: Seq<char>, from: int) -> int
    decreases text.len() - from,
{
    if 0 <= from < text.len() && is_name_char(text[from]) {
        name_end(text, from + 1)
    } else {
        from
    }
}

/// The position behind the digits that stand in `text` from `from` on.
pub open spec fn digits_end(text: Seq<char>, from: int) -> int
    decreases text.len() - from,
{
    if 0 <= from < text.len() && is_digit(text[from]) {
        digits_end(text, from + 1)
    } else {
        from
    }
}

/// The end of an object of arguments and the position behind its call, when the object's closing
/// brace stands at `at` or behind it: at the first `}` that the call's end token closes.
pub open spec fn object_end(text: Seq<char>, at: int, call_end: Seq<char>) -> Option<(int, int)>
    decreases text.len() - at,
{
    if at >= text.len() {
        None
    } else if text[at] == '}' && closed_at(text, at + 1, call_end) is Some {
        Some((at + 1, closed_at(text, at + 1, call_end)->0))
    } else {
        object_end(text, at + 1, call_end)
    }
}

/// Where the arguments of a call stand, and the position behind the call.
pub struct ArgumentSpan {
    pub start: int,
    pub end: int,
    pub call_end: int,
}

/// The arguments that stand at `at`, behind white space: an object in braces, and then the token
/// that ends the call.
pub open spec fn arguments_at(text: Seq<char>, at: int, call_end: Seq<char>) -> Option<
    ArgumentSpan,
> {
    let start = white_end(text, at);
    if 0 <= start < text.len() && text[start] == '{' {
        match object_end(text, start + 1, call_end) {
            Some((end, behind)) => Some(ArgumentSpan { start, end, call_end: behind }),
            None => None,
        }
    } else {
        None
    }
}

/// The arguments behind an id that ends at `at`: `white` or less characters of white space, the
/// token that begins the arguments, and the arguments; the longest white space counts.
pub open spec fn arguments_behind(
    text: Seq<char>,
    at: int,
    white: int,
    config: KimiK2ParserConfig,
) -> Option<ArgumentSpan>
    decreases white + 1,
{
    if white < 0 {
        None
    } else {
        let begun = at + white;
        let found = arguments_at(text, begun + config.argument_begin@.len(), config.call_end@);
        if token_at(text, begun, config.argument_begin@) && found is Some {
            found
        } else {
            arguments_behind(text, at, white - 1, config)
        }
    }
}

/// Where a call stands: its id, its arguments, and the position behind it.
pub struct CallSpan {
    pub id_start: int,
    pub id_end: int,
    pub arguments_start: int,
    pub arguments_end: int,
    pub end: int,
}

/// The call whose id begins at `id_start` and ends at `id_end` or, down to `least`, before it; the
/// longest id counts.
pub open spec fn call_with_id(
    text: Seq<char>,
    id_start: int,
    least: int,
    id_end: int,
    config: KimiK2ParserConfig,
) -> Option<CallSpan>
    decreases id_end - least + 1,
{
    if id_end < least {
        None
    } else {
        match arguments_behind(text, id_end, white_end(text, id_end) - id_end, config) {
            Some(span) => Some(
                CallSpan {
                    id_start,
                    id_end,
                    arguments_start: span.start,
                    arguments_end: span.end,
                    end: span.call_end,
                },
            ),
            None => call_with_id(text, id_start, least, id_end - 1, config),
        }
    }
}

/// The call that begins at `at`: the token that opens it, an id made of a name, `:` and digits, the
/// token that begins the arguments, an object in braces, and the token that ends the call. White
/// space may stand between these.
pub open spec fn call_at(text: Seq<char>, at: int, config: KimiK2ParserConfig) -> Option<CallSpan> {
    let id_start = white_end(text, at + config.call_start@.len());
    let colon = name_end(text, id_start);
    if token_at(text, at, config.call_start@) && id_start < colon < text.len() && text[colon]
        == ':' {
        call_with_id(text, id_start, colon + 2, digits_end(text, colon + 1), config)
    } else {
        None
    }
}

/// The first call that begins at `from` or behind it.
pub open spec fn next_call(text: Seq<char>, from: int, config: KimiK2ParserConfig) -> Option<
    CallSpan,
>
    decreases text.len() + 1 - from,
{
    if from > text.len() {
        None
    } else {
        match call_at(text, from, config) {
            Some(span) => Some(span),
            None => next_call(text, from + 1, config),
        }
    }
}

/// The ids and arguments of the calls from `from` on, each searched behind the one before.
pub open spec fn raw_calls_from(text: Seq<char>, from: int, config: KimiK2ParserConfig) -> Seq<
    (Seq<char>, Seq<char>),
>
    decreases text.len() - from,
{
    match next_call(text, from, config) {
        Some(span) => if from < span.end <= text.len() {
            seq![
                (
                    text.subrange(span.id_start, span.id_end),
                    text.subrange(span.arguments_start, span.arguments_end),
                ),
            ] + raw_calls_from(text, span.end, config)
        } else {
            Seq::empty()
        },
        None => Seq::empty(),
    }
}

/// The ids and arguments of the calls of a section, in their order.
pub open spec fn raw_calls_of(section: Seq<char>, config: KimiK2ParserConfig) -> Seq<
    (Seq<char>, Seq<char>),
> {
    raw_calls_from(section, 0, config)
}

/// Whether `c` is a word character.
fn word(c: char) -> (found: bool)
    ensures
        found == is_word(c),
{
    if (c as u32) < 0x80 {
        ('a' <= c && c <= 'z') || ('A' <= c && c <= 'Z') || ('0' <= c && c <= '9') || c == '_'
    } else {
        matches_char("\\w", c)
    }
}

/// Whether `c` is a decimal digit.
fn digit(c: char) -> (found: bool)
    ensures
        found == is_digit(c),
{
    if (c as u32) < 0x80 {
        '0' <= c && c <= '9'
    } else {
        matches_char("\\d", c)
    }
}

/// The position behind the name characters that stand in `text` from `from` on.
fn skip_name(text: &[char], from: usize) -> (end: usize)
    requires
        from <= text@.len(),
    ensures
        end == name_end(text@, from as int),
        from <= end <= text@.len(),
{
    let mut end: usize = from;
    while end < text.len() && (text[end] == '.' || text[end] == '-' || word(text[end]))
        invariant
            from <= end <= text@.len(),
            name_end(text@, from as int) == name_end(text@, end as int),
        decreases text@.len() - end,
    {
        end += 1;
    }
    end
}

/// The position behind the digits that stand in `text` from `from` on.
fn skip_digits(text: &[char], from: usize) -> (end: usize)
    requires
        from <= text@.len(),
    ensures
        end == digits_end(text@, from as int),
        from <= end <= text@.len(),
{
    let mut end: usize = from;
    while end < text.len() && digit(text[end])
        invariant
            from <= end <= text@.len(),
            digits_end(text@, from as int) == digits_end(text@, end as int),
        decreases text@.len() - end,
    {
        end += 1;
    }
    end
}

/// The end of an object of arguments whose closing brace stands at `from` or behind it, and the
/// position behind its call.
fn find_object_end(text: &[char], from: usize, call_end: &[char]) -> (found: Option<(usize, usize)>)
    requires
        from <= text@.len(),
    ensures
        match found {
            Some((end, behind)) => {
                &&& object_end(text@, from as int, call_end@) == Some((end as int, behind as int))
                &&& from < end <= behind <= text@.len()
            },
            None => object_end(text@, from as int, call_end@) is None,
        },
{
    let count = text.len();
    let mut at: usize = from;
    while at < count
        invariant
            count == text@.len(),
            from <= at <= count,
            object_end(text@, from as int, call_end@) == object_end(text@, at as int, call_end@),
        decreases count - at,
    {
        if text[at] == '}' {
            if let Some(behind) = find_closed_at(text, at + 1, call_end) {
                return Some((at + 1, behind));
            }
        }
        at += 1;
    }
    None
}

/// Where the arguments of a call stand, found by executable code.
struct FoundArguments {
    start: usize,
    end: usize,
    call_end: usize,
}

/// Found arguments, in integers.
spec fn arguments_view(found: Option<FoundArguments>) -> Option<ArgumentSpan> {
    match found {
        Some(span) => Some(
            ArgumentSpan {
                start: span.start as int,
                end: span.end as int,
                call_end: span.call_end as int,
            },
        ),
        None => None,
    }
}

/// The arguments that stand at `at`, behind white space.
fn find_arguments_at(text: &[char], at: usize, call_end: &[char]) -> (found: Option<FoundArguments>)
    requires
        at <= text@.len(),
    ensures
        arguments_view(found) == arguments_at(text@, at as int, call_end@),
        found matches Some(span) ==> at <= span.start < span.end <= span.call_end <= text@.len(),
{
    let start = skip_white(text, at);
    if start < text.len() && text[start] == '{' {
        match find_object_end(text, start + 1, call_end) {
            Some((end, behind)) => Some(FoundArguments { start, end, call_end: behind }),
            None => None,
        }
    } else {
        None
    }
}

/// The tokens of a call, as characters.
struct CallTokens {
    call_start: Vec<char>,
    argument_begin: Vec<char>,
    call_end: Vec<char>,
}

impl CallTokens {
    /// These are the tokens of `config`.
    spec fn of(&self, config: KimiK2ParserConfig) -> bool {
        &&& self.call_start@ == config.call_start@
        &&& self.argument_begin@ == config.argument_begin@
        &&& self.call_end@ == config.call_end@
    }
}

/// The arguments behind an id that ends at `at`.
fn find_arguments_behind(
    text: &[char],
    at: usize,
    tokens: &CallTokens,
    config: &KimiK2ParserConfig,
) -> (found: Option<FoundArguments>)
    requires
        at <= text@.len(),
        tokens.of(*config),
    ensures
        arguments_view(found) == arguments_behind(
            text@,
            at as int,
            white_end(text@, at as int) - at,
            *config,
        ),
        found matches Some(span) ==> at <= span.start < span.end <= span.call_end <= text@.len(),
{
    let count = text.len();
    let ghost white = white_end(text@, at as int) - at;
    let mut begun = skip_white(text, at);
    loop
        invariant
            count == text@.len(),
            at <= begun <= count,
            tokens.of(*config),
            arguments_behind(text@, at as int, white, *config) == arguments_behind(
                text@,
                at as int,
                begun - at,
                *config,
            ),
            white == white_end(text@, at as int) - at,
        decreases begun,
    {
        if has_token_at(text, begun, tokens.argument_begin.as_slice()) {
            let found = find_arguments_at(
                text,
                begun + tokens.argument_begin.len(),
                tokens.call_end.as_slice(),
            );
            if found.is_some() {
                return found;
            }
        }
        if begun == at {
            assert(arguments_behind(text@, at as int, -1, *config) is None);
            return None;
        }
        begun -= 1;
    }
}

/// Where a call stands, found by executable code.
struct FoundCall {
    id_start: usize,
    id_end: usize,
    arguments: FoundArguments,
}

/// A found call, in integers.
spec fn call_view(found: Option<FoundCall>) -> Option<CallSpan> {
    match found {
        Some(call) => Some(
            CallSpan {
                id_start: call.id_start as int,
                id_end: call.id_end as int,
                arguments_start: call.arguments.start as int,
                arguments_end: call.arguments.end as int,
                end: call.arguments.call_end as int,
            },
        ),
        None => None,
    }
}

/// A found call lies in the text, at `from` or behind it.
spec fn lies_behind(found: Option<FoundCall>, from: int, text: Seq<char>) -> bool {
    found matches Some(call) ==> {
        &&& from <= call.id_start < call.id_end <= call.arguments.start < call.arguments.end
        &&& call.arguments.end <= call.arguments.call_end <= text.len()
    }
}

/// The call that begins at `at`.
fn find_call_at(text: &[char], at: usize, tokens: &CallTokens, config: &KimiK2ParserConfig) -> (found:
    Option<FoundCall>)
    requires
        at <= text@.len(),
        tokens.of(*config),
    ensures
        call_view(found) == call_at(text@, at as int, *config),
        lies_behind(found, at as int, text@),
{
    let count = text.len();
    if !has_token_at(text, at, tokens.call_start.as_slice()) {
        return None;
    }
    let id_start = skip_white(text, at + tokens.call_start.len());
    let colon = skip_name(text, id_start);
    if colon == id_start || colon == count || text[colon] != ':' {
        return None;
    }
    let mut id_end = skip_digits(text, colon + 1);
    while colon + 1 < id_end
        invariant
            count == text@.len(),
            at <= id_start < colon < id_end <= count,
            tokens.of(*config),
            call_at(text@, at as int, *config) == call_with_id(
                text@,
                id_start as int,
                colon + 2,
                id_end as int,
                *config,
            ),
        decreases id_end,
    {
        if let Some(arguments) = find_arguments_behind(text, id_end, tokens, config) {
            return Some(FoundCall { id_start, id_end, arguments });
        }
        id_end -= 1;
    }
    None
}

/// The first call that begins at `from` or behind it.
fn find_call(text: &[char], from: usize, tokens: &CallTokens, config: &KimiK2ParserConfig) -> (found:
    Option<FoundCall>)
    requires
        from <= text@.len(),
        tokens.of(*config),
    ensures
        call_view(found) == next_call(text@, from as int, *config),
        lies_behind(found, from as int, text@),
{
    let count = text.len();
    let mut at: usize = from;
    loop
        invariant
            count == text@.len(),
            from <= at <= count,
            tokens.of(*config),
            next_call(text@, from as int, *config) == next_call(text@, at as int, *config),
        decreases count - at,
    {
        let found = find_call_at(text, at, tokens, config);
        if found.is_some() {
            return found;
        }
        if at == count {
            assert(next_call(text@, count + 1, *config) is None);
            return None;
        }
        at += 1;
    }
}

/// The views of ids and arguments.
pub open spec fn raw_call_views(calls: Seq<(String, String)>) -> Seq<(Seq<char>, Seq<char>)> {
    calls.map_values(|call: (String, String)| (call.0@, call.1@))
}

/// The ids and arguments of the calls of a section, in their order.
pub fn raw_calls(section: &str, config: &KimiK2ParserConfig) -> (calls: Vec<(String, String)>)
    ensures
        raw_call_views(calls@) == raw_calls_of(section@, *config),
{
    let chars = to_chars(section);
    let tokens = CallTokens {
        call_start: to_chars(config.call_start.as_str()),
        argument_begin: to_chars(config.argument_begin.as_str()),
        call_end: to_chars(config.call_end.as_str()),
    };
    let mut calls: Vec<(String, String)> = Vec::new();
    let mut done: usize = 0;
    loop
        invariant
            chars@ == section@,
            tokens.of(*config),
            done <= section@.len(),
            raw_calls_of(section@, *config) == raw_call_views(calls@) + raw_calls_from(
                section@,
                done as int,
                *config,
            ),
        decreases section@.len() - done,
    {
        match find_call(chars.as_slice(), done, &tokens, config) {
            Some(call) => {
                let id = section.substring_char(call.id_start, call.id_end).to_owned();
                let arguments = section.substring_char(
                    call.arguments.start,
                    call.arguments.end,
                ).to_owned();
                let ghost before = calls@;
                calls.push((id, arguments));
                assert(raw_call_views(calls@) == raw_call_views(before).push(
                    (id@, arguments@),
                ));
                done = call.arguments.call_end;
            },
            None => {
                assert(raw_calls_from(section@, done as int, *config) == Seq::<
                    (Seq<char>, Seq<char>),
                >::empty());
                return calls;
            },
        }
    }
}

/// What a message says of one call, its id included.
pub struct IdentifiedCall {
    pub id: Seq<char>,
    pub name: Seq<char>,
    pub arguments: Seq<char>,
}

/// The name in an id of the form `name:digits`, without a leading `functions.`, unless nothing else
/// is left of the name.
pub open spec fn name_in_id(id: Seq<char>) -> Option<Seq<char>> {
    let colon = name_end(id, 0);
    if 0 < colon < id.len() && id[colon] == ':' && colon + 1 < id.len() && digits_end(id, colon + 1)
        == id.len() {
        if token_at(id, 0, "functions."@) && "functions."@.len() < colon {
            Some(id.subrange("functions."@.len() as int, colon))
        } else {
            Some(id.take(colon))
        }
    } else {
        None
    }
}

/// The name of the function that an id calls; the id itself where it has another form.
pub open spec fn called_name(id: Seq<char>) -> Seq<char> {
    match name_in_id(id) {
        Some(name) => name,
        None => id,
    }
}

/// The arguments of a call: as `serde_json` writes them, or as they stand where they are not JSON.
pub open spec fn normal_arguments(raw: Seq<char>, normal: Option<Seq<char>>) -> Seq<char> {
    match normal {
        Some(text) => text,
        None => raw,
    }
}

/// The call that an id and its arguments make.
pub open spec fn identified(raw: (Seq<char>, Seq<char>)) -> IdentifiedCall {
    IdentifiedCall {
        id: trim(raw.0),
        name: called_name(trim(raw.0)),
        arguments: normal_arguments(trim(raw.1), json_normal_form(trim(raw.1))),
    }
}

/// The calls that ids and arguments make; one without a name makes none.
pub open spec fn calls_of(raw: Seq<(Seq<char>, Seq<char>)>) -> Seq<IdentifiedCall>
    decreases raw.len(),
{
    if raw.len() == 0 {
        Seq::empty()
    } else {
        let before = calls_of(raw.drop_last());
        if identified(raw.last()).name.len() == 0 {
            before
        } else {
            before.push(identified(raw.last()))
        }
    }
}

/// `call` is the call of `model`.
pub open spec fn reports_identified(call: ToolCallResponse, model: IdentifiedCall) -> bool {
    &&& call.id@ == model.id
    &&& call.tp == ToolCallType::Function
    &&& call.function.name@ == model.name
    &&& call.function.arguments@ == model.arguments
}

/// `calls` are the calls of `models`, in their order.
pub open spec fn all_identified(calls: Seq<ToolCallResponse>, models: Seq<IdentifiedCall>) -> bool {
    &&& calls.len() == models.len()
    &&& forall|i: int| 0 <= i < calls.len() ==> reports_identified(#[trigger] calls[i], models[i])
}

/// The name of the function that an id calls; the id itself where it has another form.
pub fn function_name(id: &str) -> (name: String)
    ensures
        name@ == called_name(id@),
{
    proof {
        reveal_strlit("functions.");
    }
    let chars = to_chars(id);
    let prefix = to_chars("functions.");
    let count = chars.len();
    let colon = skip_name(chars.as_slice(), 0);
    if 0 < colon && colon < count && chars[colon] == ':' && colon + 1 < count && skip_digits(
        chars.as_slice(),
        colon + 1,
    ) == count {
        if has_token_at(chars.as_slice(), 0, prefix.as_slice()) && prefix.len() < colon {
            id.substring_char(prefix.len(), colon).to_owned()
        } else {
            assert(id@.take(colon as int) == id@.subrange(0, colon as int));
            id.substring_char(0, colon).to_owned()
        }
    } else {
        id.to_owned()
    }
}

/// The arguments of a call, given what `serde_json` makes of them.
pub fn choose_arguments(raw: &str, normal: Option<String>) -> (arguments: String)
    ensures
        arguments@ == normal_arguments(
            raw@,
            match normal {
                Some(text) => Some(text@),
                None => None,
            },
        ),
{
    match normal {
        Some(text) => text,
        None => raw.to_owned(),
    }
}

/// The calls of one section.
pub fn parse_section_block(section: &str, config: &KimiK2ParserConfig) -> (calls: Vec<
    ToolCallResponse,
>)
    ensures
        all_identified(calls@, calls_of(raw_calls_of(section@, *config))),
{
    let raw = raw_calls(section, config);
    let ghost views = raw_call_views(raw@);
    let count = raw.len();
    let mut calls: Vec<ToolCallResponse> = Vec::new();
    let mut i: usize = 0;
    while i < count
        invariant
            count == raw@.len(),
            i <= count,
            views == raw_call_views(raw@),
            all_identified(calls@, calls_of(views.take(i as int))),
        decreases count - i,
    {
        assert(views.take(i + 1).drop_last() == views.take(i as int));
        assert(views[i as int] == (raw@[i as int].0@, raw@[i as int].1@));
        let id = trimmed(raw[i].0.as_str());
        let arguments_raw = trimmed(raw[i].1.as_str());
        let name = function_name(id);
        if !name.as_str().is_empty() {
            let arguments = choose_arguments(arguments_raw, normalize_json(arguments_raw));
            calls.push(
                ToolCallResponse {
                    id: id.to_owned(),
                    tp: ToolCallType::Function,
                    function: CalledFunction { name, arguments },
                },
            );
        }
        i += 1;
    }
    assert(views.take(count as int) == views);
    calls
}

/// The first place, from `from` on, at which one of the tokens stands, and the length of that
/// token; the earlier one in the list where several stand at that place.
pub open spec fn first_of(text: Seq<char>, from: int, tokens: Seq<String>) -> Option<(int, int)>
    decreases tokens.len(),
{
    if tokens.len() == 0 {
        None
    } else {
        let before = first_of(text, from, tokens.drop_last());
        match find_from(text, tokens.last()@, from) {
            Some(at) => if before is None || at < (before->0).0 {
                Some((at, tokens.last()@.len() as int))
            } else {
                before
            },
            None => before,
        }
    }
}

/// What a message is made of: the text outside of the sections, and the sections.
pub struct Scan {
    pub normal: Seq<char>,
    pub sections: Seq<Seq<char>>,
}

/// The end of the section that begins at `start`: behind the first token that closes a section,
/// or the end of the text where there is none.
pub open spec fn section_end(text: Seq<char>, start: int, config: KimiK2ParserConfig) -> int {
    match first_of(text, start, config.section_end_variants@) {
        Some((at, len)) => at + len,
        None => text.len() as int,
    }
}

/// The text and the sections from `cursor` on.
pub open spec fn scan_from(text: Seq<char>, cursor: int, config: KimiK2ParserConfig) -> Scan
    decreases text.len() - cursor,
{
    if cursor >= text.len() {
        Scan { normal: Seq::empty(), sections: Seq::empty() }
    } else {
        match first_of(text, cursor, config.section_start_variants@) {
            Some((start, _)) => {
                let end = section_end(text, start, config);
                if cursor < end <= text.len() {
                    let rest = scan_from(text, end, config);
                    Scan {
                        normal: text.subrange(cursor, start) + rest.normal,
                        sections: seq![text.subrange(start, end)] + rest.sections,
                    }
                } else {
                    Scan { normal: text.skip(cursor), sections: Seq::empty() }
                }
            },
            None => Scan { normal: text.skip(cursor), sections: Seq::empty() },
        }
    }
}

/// The text and the sections of a message.
pub open spec fn scan_of(text: Seq<char>, config: KimiK2ParserConfig) -> Scan {
    scan_from(text, 0, config)
}

/// The scan from `cursor` on ends: every section moves it forward. An empty token that closes
/// sections may make it stand still.
pub open spec fn scan_ends_from(text: Seq<char>, cursor: int, config: KimiK2ParserConfig) -> bool
    decreases text.len() - cursor,
{
    if cursor >= text.len() {
        true
    } else {
        match first_of(text, cursor, config.section_start_variants@) {
            Some((start, _)) => {
                let end = section_end(text, start, config);
                cursor < end <= text.len() && scan_ends_from(text, end, config)
            },
            None => true,
        }
    }
}

/// The calls of sections, section by section.
pub open spec fn calls_in(sections: Seq<Seq<char>>, config: KimiK2ParserConfig) -> Seq<
    IdentifiedCall,
>
    decreases sections.len(),
{
    if sections.len() == 0 {
        Seq::empty()
    } else {
        calls_in(sections.drop_last(), config) + calls_of(raw_calls_of(sections.last(), config))
    }
}

/// The first place, from `from` on, at which one of the tokens stands, and the length of that
/// token.
fn find_first_of(text: &[char], from: usize, tokens: &Vec<String>) -> (found: Option<(usize, usize)>)
    requires
        from <= text@.len(),
    ensures
        match found {
            Some((at, len)) => {
                &&& first_of(text@, from as int, tokens@) == Some((at as int, len as int))
                &&& from <= at
                &&& at + len <= text@.len()
            },
            None => first_of(text@, from as int, tokens@) is None,
        },
{
    let count = tokens.len();
    let mut best: Option<(usize, usize)> = None;
    let mut i: usize = 0;
    while i < count
        invariant
            count == tokens@.len(),
            i <= count,
            from <= text@.len(),
            match best {
                Some((at, len)) => {
                    &&& first_of(text@, from as int, tokens@.take(i as int)) == Some(
                        (at as int, len as int),
                    )
                    &&& from <= at
                    &&& at + len <= text@.len()
                },
                None => first_of(text@, from as int, tokens@.take(i as int)) is None,
            },
        decreases count - i,
    {
        assert(tokens@.take(i + 1).drop_last() == tokens@.take(i as int));
        let token = to_chars(tokens[i].as_str());
        if let Some(at) = find_token(text, token.as_slice(), from) {
            let earlier = match best {
                Some((before, _)) => at < before,
                None => true,
            };
            if earlier {
                best = Some((at, token.len()));
            }
        }
        i += 1;
    }
    assert(tokens@.take(count as int) == tokens@);
    best
}

/// The first place, from `cursor` on, of a token that opens a section, and that token's length. The
/// place is relative to the cursor, both in characters.
pub fn find_section_start(text: &[char], cursor: usize, config: &KimiK2ParserConfig) -> (found:
    Option<(usize, usize)>)
    requires
        cursor <= text@.len(),
    ensures
        match found {
            Some((at, len)) => {
                &&& first_of(text@, cursor as int, config.section_start_variants@) == Some(
                    (cursor + at, len as int),
                )
                &&& cursor + at + len <= text@.len()
            },
            None => first_of(text@, cursor as int, config.section_start_variants@) is None,
        },
{
    match find_first_of(text, cursor, &config.section_start_variants) {
        Some((at, len)) => Some((at - cursor, len)),
        None => None,
    }
}

/// The first place, from `from` on, of a token that closes a section, and that token's length. The
/// place is relative to `from`, both in characters.
pub fn find_section_end(text: &[char], from: usize, config: &KimiK2ParserConfig) -> (found: Option<
    (usize, usize),
>)
    requires
        from <= text@.len(),
    ensures
        match found {
            Some((at, len)) => {
                &&& first_of(text@, from as int, config.section_end_variants@) == Some(
                    (from + at, len as int),
                )
                &&& from + at + len <= text@.len()
            },
            None => first_of(text@, from as int, config.section_end_variants@) is None,
        },
{
    match find_first_of(text, from, &config.section_end_variants) {
        Some((at, len)) => Some((at - from, len)),
        None => None,
    }
}

/// The text outside of the sections of a message, trimmed, and the calls of its sections.
///
/// A section that no token closes goes on to the end of the message, so that the calls in it that
/// are complete are not lost when the message breaks off.
pub fn extract_tool_calls(text: &str, config: &KimiK2ParserConfig) -> (extracted: (
    String,
    Vec<ToolCallResponse>,
))
    requires
        scan_ends_from(text@, 0, *config),
    ensures
        extracted.0@ == trim(scan_of(text@, *config).normal),
        all_identified(extracted.1@, calls_in(scan_of(text@, *config).sections, *config)),
{
    let chars = to_chars(text);
    let count = chars.len();
    let ghost whole = scan_of(text@, *config);
    let ghost mut seen: Seq<Seq<char>> = Seq::empty();
    let mut normal = String::new();
    let mut calls: Vec<ToolCallResponse> = Vec::new();
    let mut cursor: usize = 0;
    while cursor < count
        invariant_except_break
            chars@ == text@,
            count == text@.len(),
            cursor <= count,
            scan_ends_from(text@, cursor as int, *config),
            whole.normal == normal@ + scan_from(text@, cursor as int, *config).normal,
            whole.sections == seen + scan_from(text@, cursor as int, *config).sections,
            all_identified(calls@, calls_in(seen, *config)),
        ensures
            normal@ == whole.normal,
            seen == whole.sections,
            all_identified(calls@, calls_in(seen, *config)),
        decreases count - cursor,
    {
        match find_section_start(chars.as_slice(), cursor, config) {
            Some((distance, _)) => {
                let start = cursor + distance;
                normal.append(text.substring_char(cursor, start));
                let end = match find_section_end(chars.as_slice(), start, config) {
                    Some((at, len)) => start + at + len,
                    None => count,
                };
                let section = text.substring_char(start, end);
                let mut parsed = parse_section_block(section, config);
                let ghost before = calls@;
                let ghost added = parsed@;
                calls.append(&mut parsed);
                proof {
                    assert(calls@ == before + added);
                    assert(seen.push(section@).drop_last() == seen);
                    seen = seen.push(section@);
                }
                cursor = end;
            },
            None => {
                normal.append(text.substring_char(cursor, count));
                assert(text@.skip(cursor as int) == text@.subrange(cursor as int, count as int));
                break;
            },
        }
    }
    (trimmed(normal.as_str()).to_owned(), calls)
}

/// Parses the tool calls of a message.
///
/// Returns the calls in their order, each under the id that the message gives it, and the text
/// outside of the sections of calls, trimmed. The tools that are defined change nothing of this.
pub fn try_tool_call_parse_kimi_k2(
    message: &str,
    config: &KimiK2ParserConfig,
    _tools: Option<&[ToolDefinition]>,
) -> (parsed: Result<(Vec<ToolCallResponse>, Option<String>), ParseError>)
    requires
        scan_ends_from(message@, 0, *config),
    ensures
        parsed matches Ok((calls, normal)) && {
            &&& all_identified(calls@, calls_in(scan_of(message@, *config).sections, *config))
            &&& normal matches Some(text) && text@ == trim(scan_of(message@, *config).normal)
        },
{
    let (normal, calls) = extract_tool_calls(message, config);
    Ok((calls, Some(normal)))
}

/// The pattern of a call.
pub fn pattern_for(config: &KimiK2ParserConfig) -> (pattern: String)
    ensures
        pattern@ == call_pattern_of(config.call_start@, config.argument_begin@, config.call_end@),
{
    call_pattern(
        config.call_start.as_str(),
        config.argument_begin.as_str(),
        config.call_end.as_str(),
    )
}

/// Whether `regex` compiles the pattern of a call. The calls are read without it.
pub fn can_compile_kimi_k2(config: &KimiK2ParserConfig) -> (compiled: bool)
    ensures
        are_moderate(config.call_start@ + config.argument_begin@, config.call_end@) ==> compiled,
{
    compiles(pattern_for(config).as_str())
}

/// Whether the message can be parsed: its scan ends.
pub fn can_parse_kimi_k2(message: &str, config: &KimiK2ParserConfig) -> (usable: bool)
    ensures
        usable == scan_ends_from(message@, 0, *config),
{
    let chars = to_chars(message);
    let count = chars.len();
    let mut cursor: usize = 0;
    while cursor < count
        invariant
            chars@ == message@,
            count == message@.len(),
            cursor <= count,
            scan_ends_from(message@, 0, *config) == scan_ends_from(
                message@,
                cursor as int,
                *config,
            ),
        decreases count - cursor,
    {
        match find_section_start(chars.as_slice(), cursor, config) {
            Some((distance, _)) => {
                let start = cursor + distance;
                let end = match find_section_end(chars.as_slice(), start, config) {
                    Some((at, len)) => start + at + len,
                    None => count,
                };
                if end <= cursor {
                    return false;
                }
                cursor = end;
            },
            None => {
                return true;
            },
        }
    }
    true
}

/// One of the first `count` tokens begins in the chunk.
pub open spec fn one_begins_in(chunk: Seq<char>, tokens: Seq<String>, count: int) -> bool {
    exists|i: int| 0 <= i < count && token_begins_in(chunk, (#[trigger] tokens[i])@)
}

/// Whether a section of calls begins in the chunk: it holds a token that opens sections, or it ends
/// inside of one that the next chunk may complete.
///
/// The tokens are of ASCII characters; one behind a token that begins in the chunk need not be.
pub fn detect_tool_call_start_kimi_k2(chunk: &str, config: &KimiK2ParserConfig) -> (found: bool)
    requires
        forall|i: int|
            0 <= i < config.section_start_variants@.len() ==> is_ascii_chars(
                (#[trigger] config.section_start_variants@[i])@,
            ) || one_begins_in(chunk@, config.section_start_variants@, i),
    ensures
        found == one_begins_in(
            chunk@,
            config.section_start_variants@,
            config.section_start_variants@.len() as int,
        ),
{
    let count = config.section_start_variants.len();
    let mut i: usize = 0;
    while i < count
        invariant
            count == config.section_start_variants@.len(),
            i <= count,
            !one_begins_in(chunk@, config.section_start_variants@, i as int),
        decreases count - i,
    {
        if detects(chunk, config.section_start_variants[i].as_str()) {
            assert(token_begins_in(chunk@, config.section_start_variants@[i as int]@));
            return true;
        }
        i += 1;
    }
    false
}

/// Whether the start of a section can be detected in the chunk: every token that opens sections is of
/// ASCII characters, up to one that begins in the chunk.
pub fn can_detect_kimi_k2(chunk: &str, config: &KimiK2ParserConfig) -> (usable: bool)
    ensures
        usable == forall|i: int|
            0 <= i < config.section_start_variants@.len() ==> is_ascii_chars(
                (#[trigger] config.section_start_variants@[i])@,
            ) || one_begins_in(chunk@, config.section_start_variants@, i),
{
    let count = config.section_start_variants.len();
    let mut i: usize = 0;
    while i < count
        invariant
            count == config.section_start_variants@.len(),
            i <= count,
            !one_begins_in(chunk@, config.section_start_variants@, i as int),
            forall|j: int|
                0 <= j < i ==> is_ascii_chars((#[trigger] config.section_start_variants@[j])@),
        decreases count - i,
    {
        let token = config.section_start_variants[i].as_str();
        if !token.is_ascii() {
            assert(!is_ascii_chars(config.section_start_variants@[i as int]@));
            return false;
        }
        if detects(chunk, token) {
            assert(token_begins_in(chunk@, config.section_start_variants@[i as int]@));
            return true;
        }
        i += 1;
    }
    true
}

/// The least position behind the first place of one of the tokens.
pub open spec fn earliest_end(text: Seq<char>, tokens: Seq<String>) -> Option<int>
    decreases tokens.len(),
{
    if tokens.len() == 0 {
        None
    } else {
        let before = earliest_end(text, tokens.drop_last());
        match find_from(text, tokens.last()@, 0) {
            Some(at) => if before is None || at + tokens.last()@.len() < before->0 {
                Some(at + tokens.last()@.len())
            } else {
                before
            },
            None => before,
        }
    }
}

/// The position, in bytes, behind the first token that closes a section; `None` where there is
/// none, so that the section is still open.
pub fn find_tool_call_end_position_kimi_k2(chunk: &str, config: &KimiK2ParserConfig) -> (position:
    Option<usize>)
    ensures
        match position {
            Some(bytes) => earliest_end(chunk@, config.section_end_variants@) matches Some(end)
                && bytes == byte_len(chunk@.take(end)),
            None => earliest_end(chunk@, config.section_end_variants@) is None,
        },
{
    let chars = to_chars(chunk);
    let count = config.section_end_variants.len();
    let ghost tokens = config.section_end_variants@;
    let total = chars.len();
    let mut earliest: Option<usize> = None;
    let mut i: usize = 0;
    while i < count
        invariant
            chars@ == chunk@,
            total == chunk@.len(),
            tokens == config.section_end_variants@,
            count == tokens.len(),
            i <= count,
            match earliest {
                Some(end) => earliest_end(chunk@, tokens.take(i as int)) == Some(end as int) && end
                    <= total,
                None => earliest_end(chunk@, tokens.take(i as int)) is None,
            },
        decreases count - i,
    {
        assert(tokens.take(i + 1).drop_last() == tokens.take(i as int));
        let token = to_chars(config.section_end_variants[i].as_str());
        if let Some(at) = find_token(chars.as_slice(), token.as_slice(), 0) {
            let end = at + token.len();
            earliest = match earliest {
                Some(before) => Some(
                    if end < before {
                        end
                    } else {
                        before
                    },
                ),
                None => Some(end),
            };
        }
        i += 1;
    }
    assert(tokens.take(count as int) == tokens);
    match earliest {
        Some(end) => {
            assert(chunk@.take(end as int) == chunk@.subrange(0, end as int));
            Some(bytes_in(chunk.substring_char(0, end)))
        },
        None => None,
    }
}

} // verus!

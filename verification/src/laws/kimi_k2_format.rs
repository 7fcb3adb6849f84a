//! What is written in the Kimi K2 format is read back.
use vstd::prelude::*;

use crate::arguments::json_normal_form;
use crate::config::KimiK2ParserConfig;
use crate::grammar::{closed_at, lemma_behind_token};
use crate::kimi_k2::{
    ArgumentSpan, CallSpan, IdentifiedCall, arguments_behind, call_at, call_with_id, called_name,
    calls_in, calls_of, digits_end, first_of, identified, is_digit, is_name_char, name_end,
    next_call, normal_arguments, object_end, raw_calls_from, raw_calls_of, scan_of, section_end,
};
use crate::laws::kimi_k2::{
    lemma_calls_in_both, lemma_first_of, lemma_no_start_no_sections, lemma_scan_skip,
    lemma_unclosed_section, one_at, sections_distinguishable,
};
use crate::laws::tokens::{
    begins_not_inside, lemma_begins_not_inside, lemma_behind, lemma_behind_token_skip,
    lemma_closed_at, lemma_differs, lemma_first_behind, lemma_not_closed, lemma_same_or_apart,
    lemma_unbordered, lemma_white_end_is, lemma_white_end_skip, same_or_apart, unbordered,
};
use crate::laws::values::{is_white, lemma_trim};
use crate::text::{
    contains, is_white_space, lemma_find_from, lemma_token_at_skip, lemma_white_end, token_at,
    white_end,
};

verus! {

/// Name characters in the rest of a text are name characters of the text.
proof fn lemma_name_end_skip(text: Seq<char>, skipped: int, from: int)
    requires
        0 <= skipped <= text.len(),
        0 <= from,
    ensures
        name_end(text, skipped + from) == skipped + name_end(text.skip(skipped), from),
        name_end(text.skip(skipped), from) >= from,
    decreases text.len() - from,
{
    if skipped + from < text.len() {
        lemma_name_end_skip(text, skipped, from + 1);
    }
}

/// Digits in the rest of a text are digits of the text.
proof fn lemma_digits_end_skip(text: Seq<char>, skipped: int, from: int)
    requires
        0 <= skipped <= text.len(),
        0 <= from,
    ensures
        digits_end(text, skipped + from) == skipped + digits_end(text.skip(skipped), from),
        digits_end(text.skip(skipped), from) >= from,
    decreases text.len() - from,
{
    if skipped + from < text.len() {
        lemma_digits_end_skip(text, skipped, from + 1);
    }
}

/// An object that ends in the rest of a text ends in the text.
proof fn lemma_object_end_skip(text: Seq<char>, skipped: int, at: int, call_end: Seq<char>)
    requires
        0 <= skipped <= text.len(),
        0 <= at,
    ensures
        object_end(text, skipped + at, call_end) == match object_end(
            text.skip(skipped),
            at,
            call_end,
        ) {
            Some((end, behind)) => Some((skipped + end, skipped + behind)),
            None => None,
        },
    decreases text.len() - at,
{
    let rest = text.skip(skipped);
    if at < rest.len() {
        lemma_white_end_skip(text, skipped, at + 1);
        lemma_behind_token_skip(
            text,
            skipped,
            at + 1,
            white_end(rest, at + 1) - (at + 1),
            call_end,
        );
        lemma_object_end_skip(text, skipped, at + 1, call_end);
    }
}

/// Arguments, with so many characters in front of the text.
spec fn moved_arguments(span: Option<ArgumentSpan>, by: int) -> Option<ArgumentSpan> {
    match span {
        Some(span) => Some(
            ArgumentSpan {
                start: by + span.start,
                end: by + span.end,
                call_end: by + span.call_end,
            },
        ),
        None => None,
    }
}

/// A call, with so many characters in front of the text.
spec fn moved_call(span: Option<CallSpan>, by: int) -> Option<CallSpan> {
    match span {
        Some(span) => Some(
            CallSpan {
                id_start: by + span.id_start,
                id_end: by + span.id_end,
                arguments_start: by + span.arguments_start,
                arguments_end: by + span.arguments_end,
                end: by + span.end,
            },
        ),
        None => None,
    }
}

/// Arguments in the rest of a text are arguments in the text.
proof fn lemma_arguments_behind_skip(
    text: Seq<char>,
    skipped: int,
    at: int,
    white: int,
    config: KimiK2ParserConfig,
)
    requires
        0 <= skipped <= text.len(),
        0 <= at,
    ensures
        arguments_behind(text, skipped + at, white, config) == moved_arguments(
            arguments_behind(text.skip(skipped), at, white, config),
            skipped,
        ),
    decreases white + 1,
{
    let rest = text.skip(skipped);
    if 0 <= white {
        let begun = at + white;
        let behind = begun + config.argument_begin@.len();
        lemma_token_at_skip(text, config.argument_begin@, skipped, begun);
        lemma_white_end_skip(text, skipped, behind);
        lemma_white_end_from(rest, behind);
        lemma_object_end_skip(text, skipped, white_end(rest, behind) + 1, config.call_end@);
        lemma_arguments_behind_skip(text, skipped, at, white - 1, config);
    }
}

/// White space does not end in front of the place where it begins.
proof fn lemma_white_end_from(text: Seq<char>, from: int)
    ensures
        from <= white_end(text, from),
    decreases text.len() - from,
{
    if 0 <= from < text.len() && is_white_space(text[from]) {
        lemma_white_end_from(text, from + 1);
    }
}

/// A call with its id in the rest of a text is a call in the text.
proof fn lemma_call_with_id_skip(
    text: Seq<char>,
    skipped: int,
    id_start: int,
    least: int,
    id_end: int,
    config: KimiK2ParserConfig,
)
    requires
        0 <= skipped <= text.len(),
        0 <= least,
    ensures
        call_with_id(text, skipped + id_start, skipped + least, skipped + id_end, config)
            == moved_call(
            call_with_id(text.skip(skipped), id_start, least, id_end, config),
            skipped,
        ),
    decreases id_end - least + 1,
{
    let rest = text.skip(skipped);
    if least <= id_end {
        lemma_white_end_skip(text, skipped, id_end);
        lemma_arguments_behind_skip(
            text,
            skipped,
            id_end,
            white_end(rest, id_end) - id_end,
            config,
        );
        lemma_call_with_id_skip(text, skipped, id_start, least, id_end - 1, config);
    }
}

/// The next call of the rest of a text is the next one of the text.
proof fn lemma_next_call_skip(
    text: Seq<char>,
    skipped: int,
    from: int,
    config: KimiK2ParserConfig,
)
    requires
        0 <= skipped <= text.len(),
        0 <= from,
    ensures
        next_call(text, skipped + from, config) == moved_call(
            next_call(text.skip(skipped), from, config),
            skipped,
        ),
    decreases text.len() + 1 - from,
{
    let rest = text.skip(skipped);
    if from <= rest.len() {
        let behind = from + config.call_start@.len();
        let id_start = white_end(rest, behind);
        let colon = name_end(rest, id_start);
        lemma_token_at_skip(text, config.call_start@, skipped, from);
        lemma_white_end_skip(text, skipped, behind);
        lemma_white_end_from(rest, behind);
        lemma_name_end_skip(text, skipped, id_start);
        lemma_digits_end_skip(text, skipped, colon + 1);
        lemma_call_with_id_skip(
            text,
            skipped,
            id_start,
            colon + 2,
            digits_end(rest, colon + 1),
            config,
        );
        lemma_next_call_skip(text, skipped, from + 1, config);
    }
}

/// An object and its call end inside of the text.
proof fn lemma_object_end_inside(text: Seq<char>, at: int, call_end: Seq<char>)
    requires
        0 <= at,
    ensures
        object_end(text, at, call_end) matches Some((end, behind)) ==> at < end <= behind
            <= text.len(),
    decreases text.len() - at,
{
    if at < text.len() {
        lemma_behind_token(text, at + 1, white_end(text, at + 1) - (at + 1), call_end);
        lemma_object_end_inside(text, at + 1, call_end);
    }
}

/// Arguments lie inside of the text.
proof fn lemma_arguments_inside(text: Seq<char>, at: int, white: int, config: KimiK2ParserConfig)
    requires
        0 <= at,
    ensures
        arguments_behind(text, at, white, config) matches Some(span) ==> at <= span.start
            < span.end <= span.call_end <= text.len(),
    decreases white + 1,
{
    if 0 <= white {
        let behind = at + white + config.argument_begin@.len();
        lemma_white_end_from(text, behind);
        lemma_object_end_inside(text, white_end(text, behind) + 1, config.call_end@);
        lemma_arguments_inside(text, at, white - 1, config);
    }
}

/// A call with its id lies inside of the text.
proof fn lemma_call_inside(
    text: Seq<char>,
    id_start: int,
    least: int,
    id_end: int,
    config: KimiK2ParserConfig,
)
    requires
        0 <= least,
    ensures
        call_with_id(text, id_start, least, id_end, config) matches Some(span) ==> {
            &&& span.id_start == id_start
            &&& least <= span.id_end <= span.arguments_start < span.arguments_end <= span.end
            &&& span.end <= text.len()
        },
    decreases id_end - least + 1,
{
    if least <= id_end {
        lemma_arguments_inside(text, id_end, white_end(text, id_end) - id_end, config);
        lemma_call_inside(text, id_start, least, id_end - 1, config);
    }
}

/// A call lies inside of the text, behind the place where it was searched.
pub proof fn lemma_next_call_inside(text: Seq<char>, from: int, config: KimiK2ParserConfig)
    requires
        0 <= from,
    ensures
        next_call(text, from, config) matches Some(span) ==> {
            &&& from <= span.id_start < span.id_end <= span.arguments_start
            &&& span.arguments_start < span.arguments_end <= span.end <= text.len()
        },
    decreases text.len() + 1 - from,
{
    if from <= text.len() {
        let behind = from + config.call_start@.len();
        let id_start = white_end(text, behind);
        let colon = name_end(text, id_start);
        lemma_white_end_from(text, behind);
        if id_start < colon {
            lemma_call_inside(text, id_start, colon + 2, digits_end(text, colon + 1), config);
        }
        lemma_next_call_inside(text, from + 1, config);
    }
}

/// The calls of the rest of a text are the calls of the text from there on.
proof fn lemma_raw_calls_skip(
    text: Seq<char>,
    skipped: int,
    from: int,
    config: KimiK2ParserConfig,
)
    requires
        0 <= skipped <= text.len(),
        0 <= from,
    ensures
        raw_calls_from(text, skipped + from, config) == raw_calls_from(
            text.skip(skipped),
            from,
            config,
        ),
    decreases text.len() - from,
{
    let rest = text.skip(skipped);
    lemma_next_call_skip(text, skipped, from, config);
    lemma_next_call_inside(rest, from, config);
    if let Some(span) = next_call(rest, from, config) {
        if from < span.end <= rest.len() {
            lemma_raw_calls_skip(text, skipped, span.end, config);
            assert(text.subrange(skipped + span.id_start, skipped + span.id_end) == rest.subrange(
                span.id_start,
                span.id_end,
            ));
            assert(text.subrange(skipped + span.arguments_start, skipped + span.arguments_end)
                == rest.subrange(span.arguments_start, span.arguments_end));
        }
    }
}

/// Name characters end in front of a character that is none.
pub proof fn lemma_name_end_is(text: Seq<char>, from: int, to: int)
    requires
        0 <= from <= to < text.len(),
        forall|i: int| from <= i < to ==> is_name_char(#[trigger] text[i]),
        !is_name_char(text[to]),
    ensures
        name_end(text, from) == to,
    decreases to - from,
{
    if from < to {
        lemma_name_end_is(text, from + 1, to);
    }
}

/// Digits end in front of a character that is none, or at the end of the text.
pub proof fn lemma_digits_end_is(text: Seq<char>, from: int, to: int)
    requires
        0 <= from <= to <= text.len(),
        forall|i: int| from <= i < to ==> is_digit(#[trigger] text[i]),
        to < text.len() ==> !is_digit(text[to]),
    ensures
        digits_end(text, from) == to,
    decreases to - from,
{
    if from < to {
        lemma_digits_end_is(text, from + 1, to);
    }
}

/// Where no brace in front of a place is closed, an object ends as it does from there on.
proof fn lemma_object_end_later(text: Seq<char>, from: int, later: int, call_end: Seq<char>)
    requires
        0 <= from <= later <= text.len(),
        forall|at: int|
            from <= at < later && #[trigger] text[at] == '}' ==> closed_at(text, at + 1, call_end)
                is None,
    ensures
        object_end(text, from, call_end) == object_end(text, later, call_end),
    decreases later - from,
{
    if from < later {
        lemma_object_end_later(text, from + 1, later, call_end);
    }
}

/// What stands behind the opening brace of an object, character by character.
proof fn lemma_object_parts(
    text: Seq<char>,
    at: int,
    inner: Seq<char>,
    gap: Seq<char>,
    call_end: Seq<char>,
    rest: Seq<char>,
)
    requires
        0 <= at <= text.len(),
        text.skip(at) == (inner + seq!['}'] + gap) + call_end + rest,
        0 < call_end.len(),
        is_white(gap),
    ensures
        ({
            let brace = at + inner.len();
            let close = brace + 1 + gap.len();
            &&& close + call_end.len() <= text.len()
            &&& text[brace] == '}'
            &&& forall|i: int| brace + 1 <= i < close ==> is_white_space(#[trigger] text[i])
            &&& text[close] == call_end[0]
            &&& token_at(text, close, call_end)
            &&& text.skip(close + call_end.len()) == rest
        }),
{
    let front = inner + seq!['}'] + gap;
    let brace = at + inner.len();
    let close = at + front.len();
    assert(front + (call_end + rest) == front + call_end + rest);
    lemma_behind(text, at, front, call_end + rest);
    lemma_behind(text, close, call_end, rest);
    assert(text.subrange(at, close)[brace - at] == text[brace]);
    assert forall|i: int| brace + 1 <= i < close implies is_white_space(#[trigger] text[i]) by {
        assert(text.subrange(at, close)[i - at] == text[i]);
        assert(front[i - at] == gap[i - brace - 1]);
    }
    assert(text.subrange(close, close + call_end.len())[0] == text[close]);
}

/// An object is read up to the brace behind which the call ends.
proof fn lemma_object_read(
    text: Seq<char>,
    at: int,
    inner: Seq<char>,
    gap: Seq<char>,
    call_end: Seq<char>,
    rest: Seq<char>,
)
    requires
        0 <= at <= text.len(),
        text.skip(at) == (inner + seq!['}'] + gap) + call_end + rest,
        0 < call_end.len(),
        !is_white_space(call_end[0]),
        unbordered(call_end),
        is_white(gap),
        !contains(inner + seq!['}'] + gap, call_end),
    ensures
        ({
            let end = at + inner.len() + 1;
            let behind = end + gap.len() + call_end.len();
            &&& object_end(text, at, call_end) == Some((end, behind))
            &&& behind <= text.len()
            &&& text.skip(behind) == rest
        }),
{
    let front = inner + seq!['}'] + gap;
    let brace = at + inner.len();
    let close = brace + 1 + gap.len();
    lemma_object_parts(text, at, inner, gap, call_end, rest);
    assert forall|i: int| at <= i < close implies !token_at(text, i, call_end) by {
        lemma_first_behind(front, call_end, rest);
        lemma_token_at_skip(text, call_end, at, i - at);
    }
    assert forall|i: int| at <= i < brace && #[trigger] text[i] == '}' implies closed_at(
        text,
        i + 1,
        call_end,
    ) is None by {
        lemma_closed_at(text, i + 1, call_end);
        lemma_white_end(text, i + 1);
        assert(white_end(text, i + 1) <= brace);
    }
    lemma_object_end_later(text, at, brace, call_end);
    lemma_white_end_is(text, brace + 1, close);
    lemma_closed_at(text, brace + 1, call_end);
}

/// A call as it is written in a section: behind some other text, an id made of a name and digits,
/// and an object, with white space between the parts.
pub struct WrittenCall {
    pub before: Seq<char>,
    pub gap: Seq<char>,
    pub name: Seq<char>,
    pub digits: Seq<char>,
    pub id_gap: Seq<char>,
    pub begin_gap: Seq<char>,
    /// What stands between the braces of the object.
    pub inner: Seq<char>,
    pub end_gap: Seq<char>,
}

/// The id of a call.
pub open spec fn written_id(call: WrittenCall) -> Seq<char> {
    call.name + seq![':'] + call.digits
}

/// The arguments of a call.
pub open spec fn written_object(call: WrittenCall) -> Seq<char> {
    seq!['{'] + (call.inner + seq!['}'])
}

/// What stands behind the token that opens a call.
#[verifier::opaque]
pub open spec fn behind_call_start(call: WrittenCall, config: KimiK2ParserConfig, rest: Seq<
    char,
>) -> Seq<char> {
    call.gap + (written_id(call) + (call.id_gap + (config.argument_begin@ + (call.begin_gap + (seq![
        '{',
    ] + ((call.inner + seq!['}'] + call.end_gap) + config.call_end@ + rest))))))
}

/// The text of calls, one behind the other, and of what follows them.
pub open spec fn written_calls(
    calls: Seq<WrittenCall>,
    tail: Seq<char>,
    config: KimiK2ParserConfig,
) -> Seq<char>
    decreases calls.len(),
{
    if calls.len() == 0 {
        tail
    } else {
        calls[0].before + config.call_start@ + behind_call_start(
            calls[0],
            config,
            written_calls(calls.drop_first(), tail, config),
        )
    }
}

/// The call is written in the format, and does not hold what would end its parts too early: no call
/// begins in front of it, and its object does not hold what ends a call.
pub open spec fn is_readable(call: WrittenCall, config: KimiK2ParserConfig) -> bool {
    &&& !contains(call.before, config.call_start@)
    &&& is_white(call.gap)
    &&& is_white(call.id_gap)
    &&& is_white(call.begin_gap)
    &&& is_white(call.end_gap)
    &&& 0 < call.name.len()
    &&& !is_white_space(call.name[0])
    &&& forall|i: int| 0 <= i < call.name.len() ==> is_name_char(#[trigger] call.name[i])
    &&& 0 < call.digits.len()
    &&& !is_white_space(call.digits.last())
    &&& forall|i: int| 0 <= i < call.digits.len() ==> is_digit(#[trigger] call.digits[i])
    &&& 0 < call.id_gap.len() ==> !is_digit(call.id_gap[0])
    &&& !contains(call.inner + seq!['}'] + call.end_gap, config.call_end@)
}

/// All of the calls are readable.
pub open spec fn are_readable(calls: Seq<WrittenCall>, config: KimiK2ParserConfig) -> bool {
    forall|i: int| 0 <= i < calls.len() ==> is_readable(#[trigger] calls[i], config)
}

/// The tokens of calls can be told from what stands around them.
pub open spec fn calls_distinguishable(config: KimiK2ParserConfig) -> bool {
    &&& unbordered(config.call_start@)
    &&& unbordered(config.call_end@)
    &&& 0 < config.call_end@.len()
    &&& !is_white_space(config.call_end@[0])
    &&& 0 < config.argument_begin@.len()
    &&& !is_white_space(config.argument_begin@[0])
    &&& !is_digit(config.argument_begin@[0])
}

/// The ids and objects of calls.
pub open spec fn written_pairs(calls: Seq<WrittenCall>) -> Seq<(Seq<char>, Seq<char>)> {
    calls.map_values(|call: WrittenCall| (written_id(call), written_object(call)))
}

/// White space that is written between two parts ends where the second part begins.
proof fn lemma_gap_read(text: Seq<char>, at: int, gap: Seq<char>, rest: Seq<char>)
    requires
        0 <= at <= text.len(),
        text.skip(at) == gap + rest,
        is_white(gap),
        0 < rest.len(),
        !is_white_space(rest[0]),
    ensures
        white_end(text, at) == at + gap.len(),
        at + gap.len() < text.len(),
        text.skip(at + gap.len()) == rest,
        text[at + gap.len()] == rest[0],
{
    let to = at + gap.len();
    lemma_behind(text, at, gap, rest);
    assert(text.skip(to)[0] == text[to]);
    assert forall|i: int| at <= i < to implies is_white_space(#[trigger] text[i]) by {
        assert(text.subrange(at, to)[i - at] == text[i]);
        assert(gap[i - at] == text[i]);
    }
    lemma_white_end_is(text, at, to);
}

/// An id is read.
proof fn lemma_id_read(text: Seq<char>, at: int, call: WrittenCall, rest: Seq<char>)
    requires
        0 <= at <= text.len(),
        text.skip(at) == written_id(call) + rest,
        0 < rest.len(),
        !is_digit(rest[0]),
        forall|i: int| 0 <= i < call.name.len() ==> is_name_char(#[trigger] call.name[i]),
        forall|i: int| 0 <= i < call.digits.len() ==> is_digit(#[trigger] call.digits[i]),
    ensures
        ({
            let colon = at + call.name.len();
            let end = at + written_id(call).len();
            &&& name_end(text, at) == colon
            &&& colon < text.len()
            &&& text[colon] == ':'
            &&& digits_end(text, colon + 1) == end
            &&& end <= text.len()
            &&& text.subrange(at, end) == written_id(call)
            &&& text.skip(end) == rest
        }),
{
    let id = written_id(call);
    let colon = at + call.name.len();
    let end = at + id.len();
    lemma_behind(text, at, id, rest);
    assert forall|i: int| at <= i < end implies text[i] == #[trigger] id[i - at] by {
        assert(text.subrange(at, end)[i - at] == text[i]);
    }
    assert(text[colon] == id[colon - at]);
    assert(id[colon - at] == ':');
    assert forall|i: int| at <= i < colon implies is_name_char(#[trigger] text[i]) by {
        assert(text[i] == id[i - at]);
        assert(id[i - at] == call.name[i - at]);
    }
    lemma_name_end_is(text, at, colon);
    assert forall|i: int| colon + 1 <= i < end implies is_digit(#[trigger] text[i]) by {
        assert(text[i] == id[i - at]);
        assert(id[i - at] == call.digits[i - colon - 1]);
    }
    assert(text.skip(end)[0] == text[end]);
    lemma_digits_end_is(text, colon + 1, end);
}

/// Where a call stands that begins at `at`.
pub open spec fn written_span(call: WrittenCall, at: int, config: KimiK2ParserConfig) -> CallSpan {
    let id_start = at + config.call_start@.len() + call.gap.len();
    let id_end = id_start + written_id(call).len();
    let arguments_start = id_end + call.id_gap.len() + config.argument_begin@.len()
        + call.begin_gap.len();
    let arguments_end = arguments_start + written_object(call).len();
    CallSpan {
        id_start,
        id_end,
        arguments_start,
        arguments_end,
        end: arguments_end + call.end_gap.len() + config.call_end@.len(),
    }
}

/// The arguments of a call are read behind its id.
proof fn lemma_arguments_read(
    text: Seq<char>,
    at: int,
    call: WrittenCall,
    rest: Seq<char>,
    config: KimiK2ParserConfig,
)
    requires
        calls_distinguishable(config),
        is_readable(call, config),
        0 <= at <= text.len(),
        text.skip(at) == call.id_gap + (config.argument_begin@ + (call.begin_gap + (seq!['{'] + ((
        call.inner + seq!['}'] + call.end_gap) + config.call_end@ + rest)))),
    ensures
        ({
            let start = at + call.id_gap.len() + config.argument_begin@.len()
                + call.begin_gap.len();
            let end = start + written_object(call).len();
            let behind = end + call.end_gap.len() + config.call_end@.len();
            &&& arguments_behind(text, at, white_end(text, at) - at, config) == Some(
                ArgumentSpan { start, end, call_end: behind },
            )
            &&& behind <= text.len()
            &&& text.subrange(start, end) == written_object(call)
            &&& text.skip(behind) == rest
        }),
{
    let close = (call.inner + seq!['}'] + call.end_gap) + config.call_end@ + rest;
    let object = seq!['{'] + close;
    let begun = at + call.id_gap.len();
    let behind = begun + config.argument_begin@.len();
    let start = behind + call.begin_gap.len();
    lemma_gap_read(text, at, call.id_gap, config.argument_begin@ + (call.begin_gap + object));
    lemma_behind(text, begun, config.argument_begin@, call.begin_gap + object);
    lemma_gap_read(text, behind, call.begin_gap, object);
    lemma_behind(text, start, seq!['{'], close);
    lemma_object_read(
        text,
        start + 1,
        call.inner,
        call.end_gap,
        config.call_end@,
        rest,
    );
    let tail = call.end_gap + config.call_end@ + rest;
    assert(object == written_object(call) + tail);
    lemma_behind(text, start, written_object(call), tail);
}

/// A call is read where it stands.
pub proof fn lemma_call_read(
    text: Seq<char>,
    at: int,
    call: WrittenCall,
    rest: Seq<char>,
    config: KimiK2ParserConfig,
)
    requires
        calls_distinguishable(config),
        is_readable(call, config),
        0 <= at,
        token_at(text, at, config.call_start@),
        text.skip(at + config.call_start@.len()) == behind_call_start(call, config, rest),
    ensures
        ({
            let span = written_span(call, at, config);
            &&& call_at(text, at, config) == Some(span)
            &&& text.subrange(span.id_start, span.id_end) == written_id(call)
            &&& text.subrange(span.arguments_start, span.arguments_end) == written_object(call)
            &&& at < span.end <= text.len()
            &&& text.skip(span.end) == rest
        }),
{
    reveal(behind_call_start);
    let span = written_span(call, at, config);
    let id = written_id(call);
    let behind_id = call.id_gap + (config.argument_begin@ + (call.begin_gap + (seq!['{'] + ((
    call.inner + seq!['}'] + call.end_gap) + config.call_end@ + rest))));
    let behind = at + config.call_start@.len();
    assert((id + behind_id)[0] == call.name[0]);
    lemma_gap_read(text, behind, call.gap, id + behind_id);
    assert(behind_id[0] == if 0 < call.id_gap.len() {
        call.id_gap[0]
    } else {
        config.argument_begin@[0]
    });
    lemma_id_read(text, span.id_start, call, behind_id);
    lemma_arguments_read(text, span.id_end, call, rest, config);
}

/// Where no call begins in front of a place, the next call is the next one from there on.
proof fn lemma_next_call_later(
    text: Seq<char>,
    from: int,
    later: int,
    config: KimiK2ParserConfig,
)
    requires
        0 <= from <= later <= text.len(),
        forall|at: int| from <= at < later ==> !token_at(text, at, config.call_start@),
    ensures
        next_call(text, from, config) == next_call(text, later, config),
    decreases later - from,
{
    if from < later {
        assert(!token_at(text, from, config.call_start@));
        lemma_next_call_later(text, from + 1, later, config);
    }
}

/// A section without a token that opens a call has no calls.
pub proof fn lemma_no_start_no_raw_calls(section: Seq<char>, config: KimiK2ParserConfig)
    requires
        !contains(section, config.call_start@),
    ensures
        raw_calls_of(section, config) == Seq::<(Seq<char>, Seq<char>)>::empty(),
{
    let count = section.len() as int;
    assert forall|at: int| !token_at(section, at, config.call_start@) by {}
    lemma_next_call_later(section, 0, count, config);
    assert(!token_at(section, count, config.call_start@));
    assert(next_call(section, count + 1, config) is None);
}

/// The calls of a text are its first call and those of what stands behind it.
proof fn lemma_first_raw_call(text: Seq<char>, span: CallSpan, config: KimiK2ParserConfig)
    requires
        next_call(text, 0, config) == Some(span),
        0 < span.end <= text.len(),
    ensures
        raw_calls_of(text, config) == seq![
            (
                text.subrange(span.id_start, span.id_end),
                text.subrange(span.arguments_start, span.arguments_end),
            ),
        ] + raw_calls_of(text.skip(span.end), config),
{
    lemma_raw_calls_skip(text, span.end, 0, config);
}

/// The first of the written calls is read, and then those that follow.
proof fn lemma_written_call(call: WrittenCall, rest: Seq<char>, config: KimiK2ParserConfig)
    requires
        calls_distinguishable(config),
        is_readable(call, config),
    ensures
        raw_calls_of(
            call.before + config.call_start@ + behind_call_start(call, config, rest),
            config,
        ) == seq![(written_id(call), written_object(call))] + raw_calls_of(rest, config),
{
    let start = config.call_start@;
    let behind = behind_call_start(call, config, rest);
    let text = call.before + start + behind;
    let at = call.before.len() as int;
    let span = written_span(call, at, config);
    assert(token_at(text, at, start) && next_call(text, 0, config) == next_call(
        text,
        at,
        config,
    )) by {
        lemma_first_behind(call.before, start, behind);
        lemma_find_from(text, start, 0);
        lemma_next_call_later(text, 0, at, config);
    }
    assert(text.skip(at + start.len()) == behind);
    lemma_call_read(text, at, call, rest, config);
    lemma_first_raw_call(text, span, config);
}

/// Putting a pair in front of two lists is putting it in front of the first.
proof fn lemma_in_front(
    pair: (Seq<char>, Seq<char>),
    first: Seq<(Seq<char>, Seq<char>)>,
    second: Seq<(Seq<char>, Seq<char>)>,
)
    ensures
        seq![pair] + (first + second) == seq![pair] + first + second,
{
}

/// Calls that are written one behind the other are read back, in their order, and then those of what
/// follows.
pub proof fn lemma_written_calls(
    calls: Seq<WrittenCall>,
    tail: Seq<char>,
    config: KimiK2ParserConfig,
)
    requires
        calls_distinguishable(config),
        are_readable(calls, config),
    ensures
        raw_calls_of(written_calls(calls, tail, config), config) == written_pairs(calls)
            + raw_calls_of(tail, config),
    decreases calls.len(),
{
    let behind = raw_calls_of(tail, config);
    if calls.len() == 0 {
        assert(written_pairs(calls) + behind == behind);
    } else {
        let others = calls.drop_first();
        let rest = written_calls(others, tail, config);
        let first = (written_id(calls[0]), written_object(calls[0]));
        assert forall|i: int| 0 <= i < others.len() implies is_readable(
            #[trigger] others[i],
            config,
        ) by {
            assert(others[i] == calls[i + 1]);
        }
        lemma_written_calls(others, tail, config);
        assert(raw_calls_of(written_calls(calls, tail, config), config) == seq![first]
            + raw_calls_of(rest, config)) by {
            lemma_written_call(calls[0], rest, config);
        }
        lemma_pairs_in_front(calls);
        lemma_in_front(first, written_pairs(others), behind);
    }
}

/// The ids and objects of calls are those of the first call and then those of the others.
proof fn lemma_pairs_in_front(calls: Seq<WrittenCall>)
    requires
        0 < calls.len(),
    ensures
        written_pairs(calls) == seq![(written_id(calls[0]), written_object(calls[0]))]
            + written_pairs(calls.drop_first()),
{
}

/// Without a token that ends calls, no object ends.
proof fn lemma_no_end_no_object(text: Seq<char>, at: int, call_end: Seq<char>)
    requires
        !contains(text, call_end),
    ensures
        object_end(text, at, call_end) is None,
    decreases text.len() - at,
{
    if at < text.len() {
        lemma_not_closed(text, at + 1, white_end(text, at + 1) - (at + 1), call_end);
        lemma_no_end_no_object(text, at + 1, call_end);
    }
}

/// Without a token that ends calls, there are no arguments.
proof fn lemma_no_end_no_arguments(
    text: Seq<char>,
    at: int,
    white: int,
    config: KimiK2ParserConfig,
)
    requires
        !contains(text, config.call_end@),
    ensures
        arguments_behind(text, at, white, config) is None,
    decreases white + 1,
{
    if 0 <= white {
        let behind = at + white + config.argument_begin@.len();
        lemma_no_end_no_object(text, white_end(text, behind) + 1, config.call_end@);
        lemma_no_end_no_arguments(text, at, white - 1, config);
    }
}

/// Without a token that ends calls, there is no call with an id.
proof fn lemma_no_end_no_call_with_id(
    text: Seq<char>,
    id_start: int,
    least: int,
    id_end: int,
    config: KimiK2ParserConfig,
)
    requires
        !contains(text, config.call_end@),
    ensures
        call_with_id(text, id_start, least, id_end, config) is None,
    decreases id_end - least + 1,
{
    if least <= id_end {
        lemma_no_end_no_arguments(text, id_end, white_end(text, id_end) - id_end, config);
        lemma_no_end_no_call_with_id(text, id_start, least, id_end - 1, config);
    }
}

/// Without a token that ends calls, there is no call.
proof fn lemma_no_end_no_call(text: Seq<char>, from: int, config: KimiK2ParserConfig)
    requires
        !contains(text, config.call_end@),
    ensures
        next_call(text, from, config) is None,
    decreases text.len() + 1 - from,
{
    if from <= text.len() {
        let id_start = white_end(text, from + config.call_start@.len());
        let colon = name_end(text, id_start);
        lemma_no_end_no_call_with_id(
            text,
            id_start,
            colon + 2,
            digits_end(text, colon + 1),
            config,
        );
        lemma_no_end_no_call(text, from + 1, config);
    }
}

/// A call that breaks off is ignored, and the calls in front of it are kept: of calls and a rest in
/// which no call ends, the calls are read.
pub proof fn lemma_broken_off_call_is_ignored(
    calls: Seq<WrittenCall>,
    rest: Seq<char>,
    config: KimiK2ParserConfig,
)
    requires
        calls_distinguishable(config),
        are_readable(calls, config),
        !contains(rest, config.call_end@),
    ensures
        raw_calls_of(written_calls(calls, rest, config), config) == written_pairs(calls),
{
    lemma_written_calls(calls, rest, config);
    lemma_no_end_no_call(rest, 0, config);
    let none = Seq::<(Seq<char>, Seq<char>)>::empty();
    assert(raw_calls_of(rest, config) == none);
    assert(written_pairs(calls) + none == written_pairs(calls));
}

/// The name of the function in the name part of an id: without a leading `functions.`, unless
/// nothing else is left.
pub open spec fn function_in(name: Seq<char>) -> Seq<char> {
    if token_at(name, 0, "functions."@) && "functions."@.len() < name.len() {
        name.skip("functions."@.len() as int)
    } else {
        name
    }
}

/// What a written call says.
pub open spec fn said(call: WrittenCall) -> IdentifiedCall {
    IdentifiedCall {
        id: written_id(call),
        name: function_in(call.name),
        arguments: normal_arguments(written_object(call), json_normal_form(written_object(call))),
    }
}

/// What calls say.
pub open spec fn said_by(calls: Seq<WrittenCall>) -> Seq<IdentifiedCall> {
    calls.map_values(|call: WrittenCall| said(call))
}

/// A name and a number, with `:` between them, call the function of that name; the prefix
/// `functions.` is not part of the name.
pub proof fn lemma_called_name(call: WrittenCall)
    requires
        0 < call.name.len(),
        forall|i: int| 0 <= i < call.name.len() ==> is_name_char(#[trigger] call.name[i]),
        0 < call.digits.len(),
        forall|i: int| 0 <= i < call.digits.len() ==> is_digit(#[trigger] call.digits[i]),
    ensures
        called_name(written_id(call)) == function_in(call.name),
        0 < function_in(call.name).len(),
{
    let id = written_id(call);
    let colon = call.name.len() as int;
    let prefix = "functions."@;
    assert forall|i: int| 0 <= i < colon implies is_name_char(#[trigger] id[i]) by {
        assert(id[i] == call.name[i]);
    }
    assert(id[colon] == ':');
    lemma_name_end_is(id, 0, colon);
    assert forall|i: int| colon + 1 <= i < id.len() implies is_digit(#[trigger] id[i]) by {
        assert(id[i] == call.digits[i - colon - 1]);
    }
    lemma_digits_end_is(id, colon + 1, id.len() as int);
    assert(id.take(colon) == call.name);
    if prefix.len() < colon {
        assert(id.subrange(0, prefix.len() as int) == call.name.subrange(0, prefix.len() as int));
        assert(id.subrange(prefix.len() as int, colon) == call.name.skip(prefix.len() as int));
    }
}

/// A call that was read says what was written.
proof fn lemma_identified(call: WrittenCall, config: KimiK2ParserConfig)
    requires
        is_readable(call, config),
    ensures
        identified((written_id(call), written_object(call))) == said(call),
        0 < said(call).name.len(),
{
    let none = Seq::<char>::empty();
    let id = written_id(call);
    let object = written_object(call);
    assert(id[0] == call.name[0]);
    assert(id.last() == call.digits.last());
    assert(none + id + none == id);
    lemma_trim(none, id, none);
    assert(object[0] == '{' && object.last() == '}');
    assert(none + object + none == object);
    lemma_trim(none, object, none);
    lemma_called_name(call);
}

/// The calls of a section say what was written.
proof fn lemma_said(calls: Seq<WrittenCall>, config: KimiK2ParserConfig)
    requires
        are_readable(calls, config),
    ensures
        calls_of(written_pairs(calls)) == said_by(calls),
    decreases calls.len(),
{
    if 0 < calls.len() {
        let shorter = calls.drop_last();
        let last = calls.last();
        assert(calls[calls.len() - 1] == last);
        assert forall|i: int| 0 <= i < shorter.len() implies is_readable(
            #[trigger] shorter[i],
            config,
        ) by {
            assert(shorter[i] == calls[i]);
        }
        lemma_said(shorter, config);
        lemma_identified(last, config);
        assert(written_pairs(calls).drop_last() == written_pairs(shorter));
        assert(written_pairs(calls).last() == (written_id(last), written_object(last)));
        assert(said_by(calls) == said_by(shorter).push(said(last)));
    } else {
        assert(calls_of(written_pairs(calls)) == said_by(calls));
    }
}

/// A section as it is written in a message: behind some other text, a token that opens it, calls,
/// what stands behind the calls, and a token that closes it. The tokens are given by their places
/// in the configuration.
pub struct WrittenSection {
    pub before: Seq<char>,
    pub start: int,
    pub calls: Seq<WrittenCall>,
    pub tail: Seq<char>,
    pub end: int,
}

/// The token that opens a section.
pub open spec fn start_of(section: WrittenSection, config: KimiK2ParserConfig) -> Seq<char> {
    config.section_start_variants@[section.start]@
}

/// The token that closes a section.
pub open spec fn end_of(section: WrittenSection, config: KimiK2ParserConfig) -> Seq<char> {
    config.section_end_variants@[section.end]@
}

/// What stands in front of the token that closes a section.
pub open spec fn open_section(section: WrittenSection, config: KimiK2ParserConfig) -> Seq<char> {
    start_of(section, config) + written_calls(section.calls, section.tail, config)
}

/// The text of a section.
pub open spec fn section_text(section: WrittenSection, config: KimiK2ParserConfig) -> Seq<char> {
    open_section(section, config) + end_of(section, config)
}

/// The text of a message that is made of sections and of what follows them.
pub open spec fn written_message(
    sections: Seq<WrittenSection>,
    tail: Seq<char>,
    config: KimiK2ParserConfig,
) -> Seq<char>
    decreases sections.len(),
{
    if sections.len() == 0 {
        tail
    } else {
        sections[0].before + section_text(sections[0], config) + written_message(
            sections.drop_first(),
            tail,
            config,
        )
    }
}

/// None of the tokens stands in the text.
pub open spec fn holds_none(text: Seq<char>, tokens: Seq<String>) -> bool {
    forall|i: int| 0 <= i < tokens.len() ==> !contains(text, (#[trigger] tokens[i])@)
}

/// The section is readable: its calls are, no section begins in front of it and none ends in it, and
/// no other call stands behind its calls.
pub open spec fn is_readable_section(section: WrittenSection, config: KimiK2ParserConfig) -> bool {
    &&& 0 <= section.start < config.section_start_variants@.len()
    &&& 0 <= section.end < config.section_end_variants@.len()
    &&& are_readable(section.calls, config)
    &&& holds_none(section.before, config.section_start_variants@)
    &&& holds_none(open_section(section, config), config.section_end_variants@)
    &&& !contains(section.tail + end_of(section, config), config.call_start@)
}

/// The tokens can be told from each other: those of calls from what stands around them, two that
/// open sections or two that close them are the same or overlap in no text, and no call begins
/// inside of a token that opens a section.
pub open spec fn tokens_distinguishable(config: KimiK2ParserConfig) -> bool {
    let starts = config.section_start_variants@;
    let ends = config.section_end_variants@;
    &&& calls_distinguishable(config)
    &&& forall|i: int|
        0 <= i < starts.len() ==> 0 < (#[trigger] starts[i])@.len() && begins_not_inside(
            config.call_start@,
            starts[i]@,
        )
    &&& forall|i: int| 0 <= i < ends.len() ==> 0 < (#[trigger] ends[i])@.len()
    &&& forall|i: int, j: int|
        0 <= i < starts.len() && 0 <= j < starts.len() ==> same_or_apart(
            (#[trigger] starts[i])@,
            (#[trigger] starts[j])@,
        )
    &&& forall|i: int, j: int|
        0 <= i < ends.len() && 0 <= j < ends.len() ==> same_or_apart(
            (#[trigger] ends[i])@,
            (#[trigger] ends[j])@,
        )
}

/// The first of the tokens stands behind a text that holds none of them.
pub proof fn lemma_first_of_behind(
    before: Seq<char>,
    rest: Seq<char>,
    from: int,
    index: int,
    tokens: Seq<String>,
)
    requires
        0 <= from <= before.len(),
        0 <= index < tokens.len(),
        holds_none(before.skip(from), tokens),
        forall|i: int| 0 <= i < tokens.len() ==> 0 < (#[trigger] tokens[i])@.len(),
        forall|i: int, j: int|
            0 <= i < tokens.len() && 0 <= j < tokens.len() ==> same_or_apart(
                (#[trigger] tokens[i])@,
                (#[trigger] tokens[j])@,
            ),
    ensures
        first_of(before + tokens[index]@ + rest, from, tokens) == Some(
            (before.len() as int, tokens[index]@.len() as int),
        ),
{
    let token = tokens[index]@;
    let text = before + token + rest;
    let behind = before.len() as int;
    assert(text.subrange(behind, behind + token.len()) == token);
    assert(token_at(text, behind, tokens[index]@));
    assert(one_at(text, behind, tokens));
    lemma_first_of(text, from, tokens);
    let (at, len) = first_of(text, from, tokens)->0;
    let i = choose|i: int|
        0 <= i < tokens.len() && token_at(text, at, (#[trigger] tokens[i])@) && tokens[i]@.len()
            == len;
    lemma_same_or_apart(text, tokens[i]@, at, token, behind);
    if at < behind {
        let within = before.skip(from);
        assert(text.subrange(at, at + len) == within.subrange(at - from, at - from + len));
        assert(token_at(within, at - from, tokens[i]@));
        assert(contains(within, tokens[i]@));
    }
}

/// The first section of a message is found, and then those of what follows.
proof fn lemma_first_section(
    section: WrittenSection,
    rest: Seq<char>,
    config: KimiK2ParserConfig,
)
    requires
        tokens_distinguishable(config),
        is_readable_section(section, config),
    ensures
        ({
            let whole = scan_of(section.before + section_text(section, config) + rest, config);
            &&& whole.normal == section.before + scan_of(rest, config).normal
            &&& whole.sections == seq![section_text(section, config)] + scan_of(
                rest,
                config,
            ).sections
        }),
{
    let starts = config.section_start_variants@;
    let ends = config.section_end_variants@;
    let opened = open_section(section, config);
    let content = written_calls(section.calls, section.tail, config);
    let whole = section_text(section, config);
    let text = section.before + whole + rest;
    let at = section.before.len() as int;
    let next = at + whole.len();
    let behind_start = content + end_of(section, config) + rest;
    assert(section.before + (start_of(section, config) + content + end_of(section, config)) + rest
        == section.before + start_of(section, config) + behind_start);
    assert(section.before.skip(0) == section.before);
    lemma_first_of_behind(section.before, behind_start, 0, section.start, starts);
    assert(section.before + (opened + end_of(section, config)) + rest == section.before + opened
        + end_of(section, config) + rest);
    assert((section.before + opened).skip(at) == opened);
    lemma_first_of_behind(section.before + opened, rest, at, section.end, ends);
    assert(section_end(text, at, config) == next);
    assert(0 < end_of(section, config).len());
    assert(text.subrange(0, at) == section.before);
    assert(text.subrange(at, next) == whole);
    assert(text.skip(next) == rest);
    lemma_scan_skip(text, next, 0, config);
}

/// What stands behind the last of some calls may be put behind all of them.
proof fn lemma_written_calls_tail(
    calls: Seq<WrittenCall>,
    tail: Seq<char>,
    more: Seq<char>,
    config: KimiK2ParserConfig,
)
    ensures
        written_calls(calls, tail, config) + more == written_calls(calls, tail + more, config),
    decreases calls.len(),
{
    if 0 < calls.len() {
        let rest = written_calls(calls.drop_first(), tail, config);
        lemma_written_calls_tail(calls.drop_first(), tail, more, config);
        lemma_behind_call_start(calls[0], config, rest, more);
        let front = calls[0].before + config.call_start@;
        let behind = behind_call_start(calls[0], config, rest);
        assert(front + behind + more == front + (behind + more));
    }
}

/// What follows a call may be put behind it.
proof fn lemma_behind_call_start(
    call: WrittenCall,
    config: KimiK2ParserConfig,
    rest: Seq<char>,
    more: Seq<char>,
)
    ensures
        behind_call_start(call, config, rest) + more == behind_call_start(
            call,
            config,
            rest + more,
        ),
{
    reveal(behind_call_start);
    let close = (call.inner + seq!['}'] + call.end_gap) + config.call_end@;
    let object = seq!['{'] + (close + rest);
    let begun = call.begin_gap + object;
    let begin = config.argument_begin@ + begun;
    let gap = call.id_gap + begin;
    let id = written_id(call) + gap;
    assert((close + rest) + more == close + (rest + more));
    assert(object + more == seq!['{'] + ((close + rest) + more));
    assert(begun + more == call.begin_gap + (object + more));
    assert(begin + more == config.argument_begin@ + (begun + more));
    assert(gap + more == call.id_gap + (begin + more));
    assert(id + more == written_id(call) + (gap + more));
    assert((call.gap + id) + more == call.gap + (id + more));
}

/// No call begins inside of the token that opens a section.
proof fn lemma_section_start_skipped(start: int, content: Seq<char>, config: KimiK2ParserConfig)
    requires
        tokens_distinguishable(config),
        0 <= start < config.section_start_variants@.len(),
    ensures
        raw_calls_of(config.section_start_variants@[start]@ + content, config) == raw_calls_of(
            content,
            config,
        ),
{
    let token = config.section_start_variants@[start]@;
    let text = token + content;
    let behind = token.len() as int;
    assert(text.subrange(0, behind) == token);
    assert forall|at: int| 0 <= at < behind implies !token_at(text, at, config.call_start@) by {
        if token_at(text, at, config.call_start@) {
            lemma_begins_not_inside(text, token, 0, config.call_start@, at);
        }
    }
    lemma_next_call_later(text, 0, behind, config);
    lemma_next_call_inside(text, behind, config);
    assert(raw_calls_from(text, 0, config) == raw_calls_from(text, behind, config));
    assert(text.skip(behind) == content);
    lemma_raw_calls_skip(text, behind, 0, config);
}

/// The calls of a section are read back.
proof fn lemma_written_section(section: WrittenSection, config: KimiK2ParserConfig)
    requires
        tokens_distinguishable(config),
        is_readable_section(section, config),
    ensures
        calls_of(raw_calls_of(section_text(section, config), config)) == said_by(section.calls),
{
    let start = start_of(section, config);
    let end = end_of(section, config);
    let tail = section.tail + end;
    lemma_written_calls_tail(section.calls, section.tail, end, config);
    let inner = written_calls(section.calls, section.tail, config);
    assert(start + inner + end == start + (inner + end));
    lemma_section_start_skipped(
        section.start,
        written_calls(section.calls, tail, config),
        config,
    );
    lemma_written_calls(section.calls, tail, config);
    lemma_no_start_no_raw_calls(tail, config);
    let none = Seq::<(Seq<char>, Seq<char>)>::empty();
    assert(written_pairs(section.calls) + none == written_pairs(section.calls));
    lemma_said(section.calls, config);
}

/// What the calls of sections say, section by section.
pub open spec fn all_said(sections: Seq<WrittenSection>) -> Seq<IdentifiedCall>
    decreases sections.len(),
{
    if sections.len() == 0 {
        Seq::empty()
    } else {
        said_by(sections[0].calls) + all_said(sections.drop_first())
    }
}

/// The texts in front of sections, one behind the other.
pub open spec fn all_before(sections: Seq<WrittenSection>) -> Seq<char>
    decreases sections.len(),
{
    if sections.len() == 0 {
        Seq::empty()
    } else {
        sections[0].before + all_before(sections.drop_first())
    }
}

/// A message that is written in the format is read back: its calls are those that were written, in
/// their order, each with the id, the name and the arguments that it was written with, and its text
/// is what was written around the sections.
pub proof fn lemma_written_message_is_read(
    sections: Seq<WrittenSection>,
    tail: Seq<char>,
    config: KimiK2ParserConfig,
)
    requires
        tokens_distinguishable(config),
        forall|i: int|
            0 <= i < sections.len() ==> is_readable_section(#[trigger] sections[i], config),
        holds_none(tail, config.section_start_variants@),
    ensures
        ({
            let scan = scan_of(written_message(sections, tail, config), config);
            &&& calls_in(scan.sections, config) == all_said(sections)
            &&& scan.normal == all_before(sections) + tail
        }),
    decreases sections.len(),
{
    if sections.len() == 0 {
        lemma_no_start_no_sections(tail, config);
        assert(all_before(sections) + tail == tail);
    } else {
        let others = sections.drop_first();
        let first = sections[0];
        assert forall|i: int| 0 <= i < others.len() implies is_readable_section(
            #[trigger] others[i],
            config,
        ) by {
            assert(others[i] == sections[i + 1]);
        }
        let rest = written_message(others, tail, config);
        lemma_written_message_is_read(others, tail, config);
        lemma_first_section(first, rest, config);
        lemma_written_section(first, config);
        let one = seq![section_text(first, config)];
        lemma_calls_in_both(one, scan_of(rest, config).sections, config);
        assert(one.drop_last() == Seq::<Seq<char>>::empty());
        assert(calls_in(one.drop_last(), config) == Seq::<IdentifiedCall>::empty());
        assert(calls_in(one, config) == said_by(first.calls));
        assert(first.before + (all_before(others) + tail) == all_before(sections) + tail);
    }
}

/// A message that breaks off in a section is read as far as it goes: the calls that are complete are
/// kept, the one that breaks off is ignored, and the text is what stands in front of the section.
pub proof fn lemma_broken_off_message_is_read(
    section: WrittenSection,
    config: KimiK2ParserConfig,
)
    requires
        tokens_distinguishable(config),
        0 <= section.start < config.section_start_variants@.len(),
        are_readable(section.calls, config),
        holds_none(section.before, config.section_start_variants@),
        holds_none(open_section(section, config), config.section_end_variants@),
        !contains(section.tail, config.call_end@),
    ensures
        ({
            let scan = scan_of(section.before + open_section(section, config), config);
            &&& calls_in(scan.sections, config) == said_by(section.calls)
            &&& scan.normal == section.before
        }),
{
    let starts = config.section_start_variants@;
    let ends = config.section_end_variants@;
    let start = start_of(section, config);
    let content = written_calls(section.calls, section.tail, config);
    let opened = open_section(section, config);
    let message = section.before + opened;
    let at = section.before.len() as int;
    assert(section.before + (start + content) == section.before + start + content);
    assert(section.before.skip(0) == section.before);
    lemma_first_of_behind(section.before, content, 0, section.start, starts);
    assert(0 < starts[section.start]@.len());
    assert(message.skip(at) == opened);
    assert forall|from: int| at <= from implies !one_at(message, from, ends) by {
        if one_at(message, from, ends) {
            let i = choose|i: int|
                0 <= i < ends.len() && token_at(message, from, (#[trigger] ends[i])@);
            lemma_token_at_skip(message, ends[i]@, at, from - at);
            assert(contains(opened, ends[i]@));
        }
    }
    lemma_unclosed_section(message, at, config);
    assert(message.take(at) == section.before);
    lemma_section_start_skipped(section.start, content, config);
    lemma_broken_off_call_is_ignored(section.calls, section.tail, config);
    lemma_said(section.calls, config);
    let one = seq![opened];
    assert(one.drop_last() == Seq::<Seq<char>>::empty());
    assert(calls_in(one.drop_last(), config) == Seq::<IdentifiedCall>::empty());
    assert(calls_in(one, config) == said_by(section.calls));
}

/// The default tokens can be told from each other.
pub proof fn lemma_default_tokens_distinguishable(config: KimiK2ParserConfig)
    requires
        config.section_start_variants@.len() == 2,
        config.section_start_variants@[0]@ == "<|tool_calls_section_begin|>"@,
        config.section_start_variants@[1]@ == "<|tool_call_section_begin|>"@,
        config.section_end_variants@.len() == 2,
        config.section_end_variants@[0]@ == "<|tool_calls_section_end|>"@,
        config.section_end_variants@[1]@ == "<|tool_call_section_end|>"@,
        config.call_start@ == "<|tool_call_begin|>"@,
        config.call_end@ == "<|tool_call_end|>"@,
        config.argument_begin@ == "<|tool_call_argument_begin|>"@,
    ensures
        tokens_distinguishable(config),
        sections_distinguishable(config),
{
    reveal_strlit("<|tool_calls_section_begin|>");
    reveal_strlit("<|tool_call_section_begin|>");
    reveal_strlit("<|tool_calls_section_end|>");
    reveal_strlit("<|tool_call_section_end|>");
    reveal_strlit("<|tool_call_begin|>");
    reveal_strlit("<|tool_call_end|>");
    reveal_strlit("<|tool_call_argument_begin|>");
    let starts = "<|tool_calls_section_begin|>"@;
    let start = "<|tool_call_section_begin|>"@;
    let ends = "<|tool_calls_section_end|>"@;
    let end = "<|tool_call_section_end|>"@;
    let call_start = "<|tool_call_begin|>"@;
    lemma_unbordered(starts);
    lemma_unbordered(start);
    lemma_unbordered(ends);
    lemma_unbordered(end);
    lemma_unbordered(call_start);
    lemma_unbordered("<|tool_call_end|>"@);
    lemma_differs(call_start, starts, 11);
    lemma_differs(call_start, start, 12);
    lemma_differs(start, starts, 11);
    lemma_differs(starts, start, 11);
    lemma_differs(end, ends, 11);
    lemma_differs(ends, end, 11);
    lemma_differs(ends, starts, 21);
    lemma_differs(starts, ends, 21);
    lemma_differs(end, start, 20);
    lemma_differs(start, end, 20);
    lemma_differs(end, starts, 11);
    lemma_differs(starts, end, 11);
    lemma_differs(ends, start, 11);
    lemma_differs(start, ends, 11);
}

} // verus!

//! A section of the Kimi K2 format that breaks off is read as the same section closed.
use vstd::prelude::*;

use crate::config::KimiK2ParserConfig;
use crate::grammar::{behind_token, lemma_behind_token};
use crate::kimi_k2::{
    IdentifiedCall, arguments_at, arguments_behind, call_at, call_with_id, calls_in, calls_of,
    digits_end, is_digit, is_name_char, name_end, next_call, object_end, raw_calls_from,
    raw_calls_of, scan_ends_from, scan_from, scan_of, section_end,
};
use crate::laws::kimi_k2::{
    lemma_scan_ends, lemma_unclosed_section, one_at, sections_distinguishable,
};
use crate::laws::kimi_k2_format::{
    holds_none, lemma_default_tokens_distinguishable, lemma_first_of_behind, lemma_next_call_inside,
    tokens_distinguishable,
};
use crate::laws::tokens::{lemma_begins_not_inside, lemma_differs, stand_apart};
use crate::text::{contains, is_white_space, token_at, white_end};

verus! {

/// `end` takes part in no call that stands in front of it: it overlaps with no token of a call in any
/// text, and no other part of a call goes on with its first character.
pub open spec fn closes_cleanly(end: Seq<char>, config: KimiK2ParserConfig) -> bool {
    &&& 0 < end.len()
    &&& 0 < config.call_start@.len()
    &&& 0 < config.argument_begin@.len()
    &&& 0 < config.call_end@.len()
    &&& stand_apart(end, config.call_start@)
    &&& stand_apart(end, config.argument_begin@)
    &&& stand_apart(end, config.call_end@)
    &&& !is_white_space(end[0])
    &&& !is_name_char(end[0])
    &&& !is_digit(end[0])
    &&& end[0] != ':'
    &&& end[0] != '{'
}

/// A token that overlaps with another in no text stands where it stood before the other was put
/// behind the text.
proof fn lemma_token_at_closed(text: Seq<char>, end: Seq<char>, at: int, token: Seq<char>)
    requires
        0 < end.len(),
        0 < token.len(),
        stand_apart(end, token),
    ensures
        token_at(text + end, at, token) == token_at(text, at, token),
{
    let closed = text + end;
    let behind = text.len() as int;
    assert(closed.subrange(behind, behind + end.len()) == end);
    assert(token_at(closed, behind, end));
    if token_at(closed, at, token) {
        lemma_begins_not_inside(closed, token, at, end, behind);
        lemma_begins_not_inside(closed, end, behind, token, at);
    }
    if 0 <= at && at + token.len() <= behind {
        assert(closed.subrange(at, at + token.len()) == text.subrange(at, at + token.len()));
    }
}

/// White space ends where it ended before.
proof fn lemma_white_end_closed(text: Seq<char>, end: Seq<char>, from: int)
    requires
        0 < end.len(),
        !is_white_space(end[0]),
        0 <= from <= text.len(),
    ensures
        white_end(text + end, from) == white_end(text, from),
        from <= white_end(text, from) <= text.len(),
    decreases text.len() - from,
{
    if from < text.len() {
        assert((text + end)[from] == text[from]);
        lemma_white_end_closed(text, end, from + 1);
    } else {
        assert((text + end)[from] == end[0]);
    }
}

/// A name ends where it ended before.
proof fn lemma_name_end_closed(text: Seq<char>, end: Seq<char>, from: int)
    requires
        0 < end.len(),
        !is_name_char(end[0]),
        0 <= from <= text.len(),
    ensures
        name_end(text + end, from) == name_end(text, from),
        from <= name_end(text, from) <= text.len(),
    decreases text.len() - from,
{
    if from < text.len() {
        assert((text + end)[from] == text[from]);
        lemma_name_end_closed(text, end, from + 1);
    } else {
        assert((text + end)[from] == end[0]);
    }
}

/// Digits end where they ended before.
proof fn lemma_digits_end_closed(text: Seq<char>, end: Seq<char>, from: int)
    requires
        0 < end.len(),
        !is_digit(end[0]),
        0 <= from <= text.len(),
    ensures
        digits_end(text + end, from) == digits_end(text, from),
        from <= digits_end(text, from) <= text.len(),
    decreases text.len() - from,
{
    if from < text.len() {
        assert((text + end)[from] == text[from]);
        lemma_digits_end_closed(text, end, from + 1);
    } else {
        assert((text + end)[from] == end[0]);
    }
}

/// A token closes the places that it closed before.
proof fn lemma_behind_token_closed(
    text: Seq<char>,
    end: Seq<char>,
    at: int,
    white: int,
    token: Seq<char>,
)
    requires
        0 < end.len(),
        0 < token.len(),
        stand_apart(end, token),
    ensures
        behind_token(text + end, at, white, token) == behind_token(text, at, white, token),
    decreases white + 1,
{
    if 0 <= white {
        lemma_token_at_closed(text, end, at + white, token);
        lemma_behind_token_closed(text, end, at, white - 1, token);
    }
}

/// An object ends where it ended before.
proof fn lemma_object_end_closed(text: Seq<char>, end: Seq<char>, at: int, call_end: Seq<char>)
    requires
        0 < end.len(),
        0 < call_end.len(),
        stand_apart(end, call_end),
        !is_white_space(end[0]),
        0 <= at,
    ensures
        object_end(text + end, at, call_end) == object_end(text, at, call_end),
    decreases text.len() + end.len() - at,
{
    let closed = text + end;
    if at < closed.len() {
        let white = white_end(closed, at + 1) - (at + 1);
        lemma_object_end_closed(text, end, at + 1, call_end);
        lemma_behind_token_closed(text, end, at + 1, white, call_end);
        if at < text.len() {
            assert(closed[at] == text[at]);
            lemma_white_end_closed(text, end, at + 1);
        } else {
            lemma_behind_token(text, at + 1, white, call_end);
        }
    }
}

/// Arguments stand where they stood before.
proof fn lemma_arguments_closed(
    text: Seq<char>,
    end: Seq<char>,
    at: int,
    white: int,
    config: KimiK2ParserConfig,
)
    requires
        closes_cleanly(end, config),
        0 <= at,
    ensures
        arguments_behind(text + end, at, white, config) == arguments_behind(
            text,
            at,
            white,
            config,
        ),
    decreases white + 1,
{
    if 0 <= white {
        let begun = at + white;
        let behind = begun + config.argument_begin@.len();
        lemma_token_at_closed(text, end, begun, config.argument_begin@);
        lemma_arguments_closed(text, end, at, white - 1, config);
        if token_at(text, begun, config.argument_begin@) {
            lemma_white_end_closed(text, end, behind);
            let start = white_end(text, behind);
            lemma_object_end_closed(text, end, start + 1, config.call_end@);
            if start < text.len() {
                assert((text + end)[start] == text[start]);
            } else {
                assert((text + end)[start] == end[0]);
            }
            assert(arguments_at(text + end, behind, config.call_end@) == arguments_at(
                text,
                behind,
                config.call_end@,
            ));
        }
    }
}

/// A call with its id stands where it stood before.
proof fn lemma_call_with_id_closed(
    text: Seq<char>,
    end: Seq<char>,
    id_start: int,
    least: int,
    id_end: int,
    config: KimiK2ParserConfig,
)
    requires
        closes_cleanly(end, config),
        0 <= least,
        id_end <= text.len(),
    ensures
        call_with_id(text + end, id_start, least, id_end, config) == call_with_id(
            text,
            id_start,
            least,
            id_end,
            config,
        ),
    decreases id_end - least + 1,
{
    if least <= id_end {
        lemma_white_end_closed(text, end, id_end);
        lemma_arguments_closed(text, end, id_end, white_end(text, id_end) - id_end, config);
        lemma_call_with_id_closed(text, end, id_start, least, id_end - 1, config);
    }
}

/// A call stands where it stood before.
proof fn lemma_call_at_closed(
    text: Seq<char>,
    end: Seq<char>,
    at: int,
    config: KimiK2ParserConfig,
)
    requires
        closes_cleanly(end, config),
    ensures
        call_at(text + end, at, config) == call_at(text, at, config),
{
    lemma_token_at_closed(text, end, at, config.call_start@);
    if token_at(text, at, config.call_start@) {
        let behind = at + config.call_start@.len();
        lemma_white_end_closed(text, end, behind);
        let id_start = white_end(text, behind);
        lemma_name_end_closed(text, end, id_start);
        let colon = name_end(text, id_start);
        if colon < text.len() {
            assert((text + end)[colon] == text[colon]);
            lemma_digits_end_closed(text, end, colon + 1);
            lemma_call_with_id_closed(
                text,
                end,
                id_start,
                colon + 2,
                digits_end(text, colon + 1),
                config,
            );
        } else {
            assert((text + end)[colon] == end[0]);
        }
    }
}

/// The next call stands where it stood before.
proof fn lemma_next_call_closed(
    text: Seq<char>,
    end: Seq<char>,
    from: int,
    config: KimiK2ParserConfig,
)
    requires
        closes_cleanly(end, config),
    ensures
        next_call(text + end, from, config) == next_call(text, from, config),
    decreases text.len() + end.len() + 1 - from,
{
    if from <= text.len() + end.len() {
        lemma_call_at_closed(text, end, from, config);
        lemma_next_call_closed(text, end, from + 1, config);
    }
}

/// The calls from a place on are those that stood there before.
proof fn lemma_raw_calls_closed(
    text: Seq<char>,
    end: Seq<char>,
    from: int,
    config: KimiK2ParserConfig,
)
    requires
        closes_cleanly(end, config),
        0 <= from,
    ensures
        raw_calls_from(text + end, from, config) == raw_calls_from(text, from, config),
    decreases text.len() - from,
{
    let closed = text + end;
    lemma_next_call_closed(text, end, from, config);
    lemma_next_call_inside(text, from, config);
    if let Some(span) = next_call(text, from, config) {
        lemma_raw_calls_closed(text, end, span.end, config);
        assert(closed.subrange(span.id_start, span.id_end) == text.subrange(
            span.id_start,
            span.id_end,
        ));
        assert(closed.subrange(span.arguments_start, span.arguments_end) == text.subrange(
            span.arguments_start,
            span.arguments_end,
        ));
    }
}

/// A token that closes a section, put behind the section, changes none of its calls.
pub proof fn lemma_closing_changes_no_call(
    section: Seq<char>,
    end: Seq<char>,
    config: KimiK2ParserConfig,
)
    requires
        closes_cleanly(end, config),
    ensures
        raw_calls_of(section + end, config) == raw_calls_of(section, config),
{
    lemma_raw_calls_closed(section, end, 0, config);
}

/// Where no token that closes a section stands in the body of a section, none stands in the section.
proof fn lemma_none_in_section(start: int, body: Seq<char>, config: KimiK2ParserConfig)
    requires
        sections_distinguishable(config),
        0 <= start < config.section_start_variants@.len(),
        holds_none(body, config.section_end_variants@),
    ensures
        holds_none(config.section_start_variants@[start]@ + body, config.section_end_variants@),
{
    let token = config.section_start_variants@[start]@;
    let ends = config.section_end_variants@;
    let section = token + body;
    let behind = token.len() as int;
    assert(section.subrange(0, behind) == token);
    assert forall|i: int| 0 <= i < ends.len() implies !contains(section, (#[trigger] ends[i])@) by {
        if contains(section, ends[i]@) {
            let at = choose|at: int| token_at(section, at, ends[i]@);
            assert(stand_apart(config.section_start_variants@[start]@, ends[i]@));
            lemma_begins_not_inside(section, token, 0, ends[i]@, at);
            assert(section.subrange(at, at + ends[i]@.len()) == body.subrange(
                at - behind,
                at - behind + ends[i]@.len(),
            ));
            assert(token_at(body, at - behind, ends[i]@));
        }
    }
}

/// The calls of one section.
proof fn lemma_calls_in_one(section: Seq<char>, config: KimiK2ParserConfig)
    ensures
        calls_in(seq![section], config) == calls_of(raw_calls_of(section, config)),
{
    let one = seq![section];
    assert(one.drop_last() == Seq::<Seq<char>>::empty());
    assert(calls_in(one.drop_last(), config) == Seq::<IdentifiedCall>::empty());
    assert(one.last() == section);
}

/// A message that breaks off in a section, with or without the token that closes it: there is one
/// section, and what stands in front of it is the text.
proof fn lemma_last_section(
    head: Seq<char>,
    start: int,
    body: Seq<char>,
    end: int,
    config: KimiK2ParserConfig,
)
    requires
        tokens_distinguishable(config),
        sections_distinguishable(config),
        0 <= start < config.section_start_variants@.len(),
        0 <= end < config.section_end_variants@.len(),
        holds_none(head, config.section_start_variants@),
        holds_none(body, config.section_end_variants@),
    ensures
        ({
            let section = config.section_start_variants@[start]@ + body;
            let closed = section + config.section_end_variants@[end]@;
            &&& scan_of(head + section, config).normal == head
            &&& scan_of(head + section, config).sections == seq![section]
            &&& scan_of(head + closed, config).normal == head
            &&& scan_of(head + closed, config).sections == seq![closed]
        }),
{
    let starts = config.section_start_variants@;
    let ends = config.section_end_variants@;
    let section = starts[start]@ + body;
    let token = ends[end]@;
    let closed = section + token;
    let at = head.len() as int;
    let open = head + section;
    let whole = head + closed;
    let none = Seq::<char>::empty();
    assert(0 < starts[start]@.len());
    assert(head.skip(0) == head);
    assert(head + starts[start]@ + body == open);
    lemma_first_of_behind(head, body, 0, start, starts);
    lemma_none_in_section(start, body, config);
    assert(open.skip(at) == section);
    assert forall|from: int| at <= from implies !one_at(open, from, ends) by {
        if one_at(open, from, ends) {
            let i = choose|i: int| 0 <= i < ends.len() && token_at(open, from, (#[trigger] ends[i])@);
            assert(open.subrange(from, from + ends[i]@.len()) == section.subrange(
                from - at,
                from - at + ends[i]@.len(),
            ));
            assert(token_at(section, from - at, ends[i]@));
            assert(contains(section, ends[i]@));
        }
    }
    lemma_unclosed_section(open, at, config);
    assert(open.take(at) == head);
    assert(head + starts[start]@ + (body + token) == whole);
    lemma_first_of_behind(head, body + token, 0, start, starts);
    assert(open + token + none == whole);
    lemma_first_of_behind(open, none, at, end, ends);
    let count = whole.len() as int;
    assert(section_end(whole, at, config) == count);
    let rest = scan_from(whole, count, config);
    assert(rest.sections == Seq::<Seq<char>>::empty());
    assert(rest.normal == none);
    assert(whole.subrange(0, at) == head);
    assert(whole.subrange(at, count) == closed);
    assert(head + none == head);
    assert(seq![closed] + rest.sections == seq![closed]);
}

/// A message that breaks off in a section is read as the same message with the section closed: it has
/// the same calls and the same text, which is what stands in front of the section.
pub proof fn lemma_unclosed_section_is_read_as_closed(
    head: Seq<char>,
    start: int,
    body: Seq<char>,
    end: int,
    config: KimiK2ParserConfig,
)
    requires
        tokens_distinguishable(config),
        sections_distinguishable(config),
        0 <= start < config.section_start_variants@.len(),
        0 <= end < config.section_end_variants@.len(),
        closes_cleanly(config.section_end_variants@[end]@, config),
        holds_none(head, config.section_start_variants@),
        holds_none(body, config.section_end_variants@),
    ensures
        ({
            let message = head + (config.section_start_variants@[start]@ + body);
            let closed = message + config.section_end_variants@[end]@;
            &&& scan_ends_from(message, 0, config)
            &&& scan_ends_from(closed, 0, config)
            &&& calls_in(scan_of(message, config).sections, config) == calls_in(
                scan_of(closed, config).sections,
                config,
            )
            &&& scan_of(message, config).normal == head
            &&& scan_of(closed, config).normal == head
        }),
{
    let section = config.section_start_variants@[start]@ + body;
    let token = config.section_end_variants@[end]@;
    lemma_last_section(head, start, body, end, config);
    assert((head + section) + token == head + (section + token));
    lemma_closing_changes_no_call(section, token, config);
    lemma_calls_in_one(section, config);
    lemma_calls_in_one(section + token, config);
    lemma_scan_ends(head + section, 0, config);
    lemma_scan_ends(head + section + token, 0, config);
}

/// The tokens are the default ones.
pub open spec fn has_default_tokens(config: KimiK2ParserConfig) -> bool {
    &&& config.section_start_variants@.len() == 2
    &&& config.section_start_variants@[0]@ == "<|tool_calls_section_begin|>"@
    &&& config.section_start_variants@[1]@ == "<|tool_call_section_begin|>"@
    &&& config.section_end_variants@.len() == 2
    &&& config.section_end_variants@[0]@ == "<|tool_calls_section_end|>"@
    &&& config.section_end_variants@[1]@ == "<|tool_call_section_end|>"@
    &&& config.call_start@ == "<|tool_call_begin|>"@
    &&& config.call_end@ == "<|tool_call_end|>"@
    &&& config.argument_begin@ == "<|tool_call_argument_begin|>"@
}

/// The default tokens that close sections take part in no call.
pub proof fn lemma_default_tokens_close_cleanly(config: KimiK2ParserConfig)
    requires
        has_default_tokens(config),
    ensures
        closes_cleanly(config.section_end_variants@[0]@, config),
        closes_cleanly(config.section_end_variants@[1]@, config),
{
    reveal_strlit("<|tool_calls_section_end|>");
    reveal_strlit("<|tool_call_section_end|>");
    reveal_strlit("<|tool_call_begin|>");
    reveal_strlit("<|tool_call_end|>");
    reveal_strlit("<|tool_call_argument_begin|>");
    let ends = "<|tool_calls_section_end|>"@;
    let end = "<|tool_call_section_end|>"@;
    let call_start = "<|tool_call_begin|>"@;
    let call_end = "<|tool_call_end|>"@;
    let argument_begin = "<|tool_call_argument_begin|>"@;
    lemma_differs(ends, call_start, 11);
    lemma_differs(call_start, ends, 11);
    lemma_differs(ends, call_end, 11);
    lemma_differs(call_end, ends, 11);
    lemma_differs(ends, argument_begin, 11);
    lemma_differs(argument_begin, ends, 11);
    lemma_differs(end, call_start, 12);
    lemma_differs(call_start, end, 12);
    lemma_differs(end, call_end, 12);
    lemma_differs(call_end, end, 12);
    lemma_differs(end, argument_begin, 12);
    lemma_differs(argument_begin, end, 12);
}

/// With the default tokens, a message that breaks off in a section is read as the same message with
/// `<|tool_calls_section_end|>` behind it.
pub proof fn lemma_default_unclosed_section_is_read_as_closed(
    head: Seq<char>,
    start: int,
    body: Seq<char>,
    config: KimiK2ParserConfig,
)
    requires
        has_default_tokens(config),
        0 <= start < 2,
        holds_none(head, config.section_start_variants@),
        holds_none(body, config.section_end_variants@),
    ensures
        ({
            let message = head + (config.section_start_variants@[start]@ + body);
            let closed = message + "<|tool_calls_section_end|>"@;
            &&& scan_ends_from(message, 0, config)
            &&& scan_ends_from(closed, 0, config)
            &&& calls_in(scan_of(message, config).sections, config) == calls_in(
                scan_of(closed, config).sections,
                config,
            )
            &&& scan_of(message, config).normal == head
            &&& scan_of(closed, config).normal == head
        }),
{
    lemma_default_tokens_distinguishable(config);
    lemma_default_tokens_close_cleanly(config);
    lemma_unclosed_section_is_read_as_closed(head, start, body, 0, config);
}

} // verus!

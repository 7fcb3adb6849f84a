//! Laws of reading any message in the Kimi K2 format, also one that is not written as the format wants
//! it.
use vstd::prelude::*;

use crate::config::KimiK2ParserConfig;
use crate::grammar::{behind_token, closed_at};
use crate::kimi_k2::{
    ArgumentSpan, CallSpan, IdentifiedCall, arguments_at, arguments_behind, call_at, call_with_id,
    called_name, calls_in, calls_of, digits_end, first_of, identified, is_digit, is_name_char,
    name_end, name_in_id, next_call, object_end, one_begins_in, raw_calls_from, raw_calls_of,
    scan_from, scan_of, section_end,
};
use crate::laws::kimi_k2::{lemma_first_of, one_at};
use crate::laws::kimi_k2_format::{
    calls_distinguishable, lemma_digits_end_is, lemma_name_end_is, lemma_next_call_inside,
};
use crate::laws::rewriting::begins_with;
use crate::laws::tokens::lemma_white_end_is;
use crate::laws::xml_scanning::{inside, is_white_between, outside};
use crate::stream::token_begins_in;
use crate::text::{is_white_space, lemma_find_from, lemma_white_end, token_at, white_end};

verus! {

/// The token at `index` is the first of the list that stands at `at`.
pub open spec fn is_listed_first(text: Seq<char>, at: int, tokens: Seq<String>, index: int) -> bool {
    &&& 0 <= index < tokens.len()
    &&& token_at(text, at, tokens[index]@)
    &&& forall|j: int| 0 <= j < index ==> !token_at(text, at, (#[trigger] tokens[j])@)
}

/// Of the tokens that stand at the first place, the first of the list is found.
pub proof fn lemma_first_of_the_list(text: Seq<char>, from: int, tokens: Seq<String>)
    requires
        0 <= from,
    ensures
        first_of(text, from, tokens) matches Some((at, len)) ==> exists|i: int| #[trigger]
            is_listed_first(text, at, tokens, i) && tokens[i]@.len() == len,
    decreases tokens.len(),
{
    if 0 < tokens.len() {
        let shorter = tokens.drop_last();
        let last = tokens.last()@;
        let count = shorter.len() as int;
        lemma_first_of_the_list(text, from, shorter);
        lemma_first_of(text, from, shorter);
        lemma_find_from(text, last, from);
        assert(tokens[count] == tokens.last());
        assert forall|i: int| 0 <= i < count implies shorter[i] == tokens[i] by {}
        if let Some((at, len)) = first_of(text, from, tokens) {
            if first_of(text, from, shorter) == Some((at, len)) {
                let i = choose|i: int| #[trigger]
                    is_listed_first(text, at, shorter, i) && shorter[i]@.len() == len;
                assert forall|j: int| 0 <= j < i implies !token_at(
                    text,
                    at,
                    (#[trigger] tokens[j])@,
                ) by {
                    assert(!token_at(text, at, shorter[j]@));
                }
                assert(is_listed_first(text, at, tokens, i));
            } else {
                assert(!one_at(text, at, shorter));
                assert forall|j: int| 0 <= j < count implies !token_at(
                    text,
                    at,
                    (#[trigger] tokens[j])@,
                ) by {
                    assert(token_at(text, at, shorter[j]@) ==> one_at(text, at, shorter));
                }
                assert(is_listed_first(text, at, tokens, count));
            }
        }
    }
}

/// One of the tokens first stands at `at` in the text from `from` on.
pub open spec fn one_stands_first(text: Seq<char>, from: int, at: int, tokens: Seq<String>) -> bool {
    &&& from <= at
    &&& one_at(text, at, tokens)
    &&& forall|before: int| from <= before < at ==> !one_at(text, before, tokens)
}

/// None of the tokens stands in the text from `from` on.
pub open spec fn none_stands(text: Seq<char>, from: int, tokens: Seq<String>) -> bool {
    forall|at: int| from <= at ==> !one_at(text, at, tokens)
}

/// A section goes from `cut.0` to `cut.1`, and is the first from `from` on: it begins at the first
/// token that opens sections, and ends behind the first token that closes sections from there on, or
/// at the end of the text where there is none.
pub open spec fn is_first_section(
    text: Seq<char>,
    from: int,
    cut: (int, int),
    config: KimiK2ParserConfig,
) -> bool {
    let ends = config.section_end_variants@;
    &&& one_stands_first(text, from, cut.0, config.section_start_variants@)
    &&& if none_stands(text, cut.0, ends) {
        cut.1 == text.len()
    } else {
        exists|at: int, i: int|
            {
                &&& one_stands_first(text, cut.0, at, ends)
                &&& #[trigger] is_listed_first(text, at, ends, i)
                &&& cut.1 == at + ends[i]@.len()
            }
    }
}

/// The cuts are those around the sections of the text from `from` on, each the first behind the one
/// before.
pub open spec fn are_cuts(
    text: Seq<char>,
    from: int,
    cuts: Seq<(int, int)>,
    config: KimiK2ParserConfig,
) -> bool
    decreases cuts.len(),
{
    if cuts.len() == 0 {
        text.len() <= from || none_stands(text, from, config.section_start_variants@)
    } else {
        &&& is_first_section(text, from, cuts[0], config)
        &&& are_cuts(text, cuts[0].1, cuts.drop_first(), config)
    }
}

/// The section that begins at a place ends where it should.
proof fn lemma_section(text: Seq<char>, from: int, start: int, config: KimiK2ParserConfig)
    requires
        0 <= from,
        first_of(text, from, config.section_start_variants@) matches Some((at, _)) && at == start,
    ensures
        is_first_section(text, from, (start, section_end(text, start, config)), config),
        start <= section_end(text, start, config) <= text.len(),
{
    let starts = config.section_start_variants@;
    let ends = config.section_end_variants@;
    lemma_first_of(text, from, starts);
    lemma_first_of_the_list(text, from, starts);
    let i = choose|i: int| #[trigger] is_listed_first(text, start, starts, i);
    assert(token_at(text, start, starts[i]@));
    assert(one_at(text, start, starts));
    lemma_first_of(text, start, ends);
    lemma_first_of_the_list(text, start, ends);
    if let Some((at, len)) = first_of(text, start, ends) {
        let j = choose|j: int| #[trigger]
            is_listed_first(text, at, ends, j) && ends[j]@.len() == len;
        assert(token_at(text, at, ends[j]@));
        assert(one_at(text, at, ends));
        assert(one_stands_first(text, start, at, ends));
    }
}

/// The scan of a text cuts it around its sections.
proof fn lemma_scan_cuts(text: Seq<char>, from: int, config: KimiK2ParserConfig) -> (cuts: Seq<
    (int, int),
>)
    requires
        0 <= from <= text.len(),
        forall|i: int|
            0 <= i < config.section_end_variants@.len() ==> 0 < (
            #[trigger] config.section_end_variants@[i])@.len(),
    ensures
        are_cuts(text, from, cuts, config),
        scan_from(text, from, config).sections == inside(text, cuts),
        scan_from(text, from, config).normal == outside(text, from, cuts),
    decreases text.len() - from,
{
    let none = Seq::<(int, int)>::empty();
    assert(inside(text, none) =~= Seq::<Seq<char>>::empty());
    if from < text.len() {
        lemma_first_of(text, from, config.section_start_variants@);
        match first_of(text, from, config.section_start_variants@) {
            Some((start, _)) => {
                let end = section_end(text, start, config);
                lemma_section(text, from, start, config);
                lemma_first_of(text, start, config.section_end_variants@);
                let others = lemma_scan_cuts(text, end, config);
                let cut = (start, end);
                let cuts = seq![cut] + others;
                assert(cuts.drop_first() == others);
                assert(cuts[0] == cut);
                assert(inside(text, cuts) =~= seq![text.subrange(start, end)] + inside(
                    text,
                    others,
                ));
                cuts
            },
            None => none,
        }
    } else {
        assert(text.skip(from) == Seq::<char>::empty());
        none
    }
}

/// Every message is cut around its sections: a section begins at the first token that opens sections
/// behind the section before it, and ends behind the first token that closes sections from there on,
/// or at the end of the message. The text of the message is what lies outside of the sections.
pub proof fn lemma_message_is_cut_around_sections(message: Seq<char>, config: KimiK2ParserConfig) -> (
    cuts: Seq<(int, int)>)
    requires
        forall|i: int|
            0 <= i < config.section_end_variants@.len() ==> 0 < (
            #[trigger] config.section_end_variants@[i])@.len(),
    ensures
        are_cuts(message, 0, cuts, config),
        scan_of(message, config).sections == inside(message, cuts),
        scan_of(message, config).normal == outside(message, 0, cuts),
{
    lemma_scan_cuts(message, 0, config)
}

/// Nothing but white space parts `at` from `token`, behind which `end` lies.
pub open spec fn is_closed(text: Seq<char>, at: int, token: Seq<char>, end: int) -> bool {
    is_white_between(text, at, end - token.len()) && token_at(text, end - token.len(), token)
}

/// A token that closes a place is found behind white space.
proof fn lemma_behind_token_is_closed(text: Seq<char>, at: int, white: int, token: Seq<char>)
    requires
        0 <= at <= text.len(),
        white <= white_end(text, at) - at,
    ensures
        behind_token(text, at, white, token) matches Some(end) ==> is_closed(text, at, token, end),
        behind_token(text, at, white, token) is None ==> forall|end: int|
            end - token.len() <= at + white ==> !#[trigger] is_closed(text, at, token, end),
    decreases white + 1,
{
    lemma_white_end(text, at);
    if 0 <= white {
        if token_at(text, at + white, token) {
            assert(is_closed(text, at, token, at + white + token.len()));
        } else {
            lemma_behind_token_is_closed(text, at, white - 1, token);
            if behind_token(text, at, white, token) is None {
                assert forall|end: int| end - token.len() <= at + white implies !#[trigger] is_closed(
                    text,
                    at,
                    token,
                    end,
                ) by {}
            }
        }
    }
}

/// A place is closed if and only if nothing but white space parts it from the token.
pub proof fn lemma_closed_at_is_closed(text: Seq<char>, at: int, token: Seq<char>)
    requires
        0 <= at <= text.len(),
    ensures
        match closed_at(text, at, token) {
            Some(end) => is_closed(text, at, token, end),
            None => forall|end: int| !#[trigger] is_closed(text, at, token, end),
        },
{
    lemma_white_end(text, at);
    lemma_behind_token_is_closed(text, at, white_end(text, at) - at, token);
    if closed_at(text, at, token) is None {
        assert forall|end: int| !#[trigger] is_closed(text, at, token, end) by {
            if is_closed(text, at, token, end) {
                let start = end - token.len();
                if white_end(text, at) < start {
                    assert(is_white_space(text[white_end(text, at)]));
                }
            }
        }
    }
}

/// An object goes from `start` to `end`, and its call to `behind`: it begins with `{` and ends with the
/// first `}` that the token that ends a call closes.
pub open spec fn is_object(
    text: Seq<char>,
    start: int,
    end: int,
    behind: int,
    call_end: Seq<char>,
) -> bool {
    &&& 0 <= start
    &&& start + 1 < end <= text.len()
    &&& text[start] == '{'
    &&& text[end - 1] == '}'
    &&& is_closed(text, end, call_end, behind)
    &&& forall|i: int, other: int|
        start < i < end - 1 && text[i] == '}' ==> !#[trigger] is_closed(
            text,
            i + 1,
            call_end,
            other,
        )
}

/// An object ends at the first closed brace.
proof fn lemma_object_end(text: Seq<char>, at: int, call_end: Seq<char>)
    requires
        0 <= at,
    ensures
        match object_end(text, at, call_end) {
            Some((end, behind)) => {
                &&& at < end <= text.len()
                &&& text[end - 1] == '}'
                &&& is_closed(text, end, call_end, behind)
                &&& forall|i: int, other: int|
                    at <= i < end - 1 && text[i] == '}' ==> !#[trigger] is_closed(
                        text,
                        i + 1,
                        call_end,
                        other,
                    )
            },
            None => forall|i: int, other: int|
                at <= i < text.len() && text[i] == '}' ==> !#[trigger] is_closed(
                    text,
                    i + 1,
                    call_end,
                    other,
                ),
        },
    decreases text.len() - at,
{
    if at < text.len() {
        lemma_closed_at_is_closed(text, at + 1, call_end);
        lemma_object_end(text, at + 1, call_end);
    }
}

/// The parts of a call stand in the text: the token that opens it at `at`, its id, the token in front
/// of its arguments at `begun`, and its object, with nothing but white space between them; the id is
/// a name, a `:` at `colon`, and digits.
pub open spec fn has_parts(
    text: Seq<char>,
    at: int,
    span: CallSpan,
    colon: int,
    begun: int,
    config: KimiK2ParserConfig,
) -> bool {
    &&& token_at(text, at, config.call_start@)
    &&& is_white_between(text, at + config.call_start@.len(), span.id_start)
    &&& span.id_start < colon
    &&& colon + 1 < span.id_end
    &&& forall|i: int| span.id_start <= i < colon ==> is_name_char(#[trigger] text[i])
    &&& text[colon] == ':'
    &&& forall|i: int| colon < i < span.id_end ==> is_digit(#[trigger] text[i])
    &&& is_white_between(text, span.id_end, begun)
    &&& token_at(text, begun, config.argument_begin@)
    &&& is_white_between(text, begun + config.argument_begin@.len(), span.arguments_start)
    &&& is_object(text, span.arguments_start, span.arguments_end, span.end, config.call_end@)
}

/// `span` is a call that begins at `at`.
pub open spec fn is_call(
    text: Seq<char>,
    at: int,
    span: CallSpan,
    config: KimiK2ParserConfig,
) -> bool {
    exists|colon: int, begun: int| #[trigger] has_parts(text, at, span, colon, begun, config)
}

/// Arguments that were found stand where they were found.
proof fn lemma_arguments(text: Seq<char>, at: int, white: int, config: KimiK2ParserConfig) -> (begun:
    int)
    requires
        0 <= at <= text.len(),
        white <= white_end(text, at) - at,
    ensures
        arguments_behind(text, at, white, config) matches Some(span) ==> {
            &&& is_white_between(text, at, begun)
            &&& token_at(text, begun, config.argument_begin@)
            &&& is_white_between(text, begun + config.argument_begin@.len(), span.start)
            &&& is_object(text, span.start, span.end, span.call_end, config.call_end@)
        },
    decreases white + 1,
{
    lemma_white_end(text, at);
    if white < 0 {
        0
    } else {
        let begun = at + white;
        let behind = begun + config.argument_begin@.len();
        if token_at(text, begun, config.argument_begin@) && arguments_at(
            text,
            behind,
            config.call_end@,
        ) is Some {
            lemma_white_end(text, behind);
            lemma_object_end(text, white_end(text, behind) + 1, config.call_end@);
            begun
        } else {
            lemma_arguments(text, at, white - 1, config)
        }
    }
}

/// A call that was found with its id stands where it was found.
proof fn lemma_call_with_id(
    text: Seq<char>,
    id_start: int,
    least: int,
    id_end: int,
    config: KimiK2ParserConfig,
) -> (begun: int)
    requires
        0 <= least,
        id_end <= text.len(),
    ensures
        call_with_id(text, id_start, least, id_end, config) matches Some(span) ==> {
            &&& span.id_start == id_start
            &&& least <= span.id_end <= id_end
            &&& is_white_between(text, span.id_end, begun)
            &&& token_at(text, begun, config.argument_begin@)
            &&& is_white_between(text, begun + config.argument_begin@.len(), span.arguments_start)
            &&& is_object(
                text,
                span.arguments_start,
                span.arguments_end,
                span.end,
                config.call_end@,
            )
        },
    decreases id_end - least + 1,
{
    if id_end < least {
        0
    } else {
        let begun = lemma_arguments(text, id_end, white_end(text, id_end) - id_end, config);
        if arguments_behind(text, id_end, white_end(text, id_end) - id_end, config) is Some {
            begun
        } else {
            lemma_call_with_id(text, id_start, least, id_end - 1, config)
        }
    }
}

/// Name characters end inside the text.
proof fn lemma_name_end(text: Seq<char>, from: int)
    requires
        0 <= from <= text.len(),
    ensures
        from <= name_end(text, from) <= text.len(),
        forall|i: int| from <= i < name_end(text, from) ==> is_name_char(#[trigger] text[i]),
        name_end(text, from) < text.len() ==> !is_name_char(text[name_end(text, from)]),
    decreases text.len() - from,
{
    if from < text.len() && is_name_char(text[from]) {
        lemma_name_end(text, from + 1);
    }
}

/// Digits end inside the text.
proof fn lemma_digits_end(text: Seq<char>, from: int)
    requires
        0 <= from <= text.len(),
    ensures
        from <= digits_end(text, from) <= text.len(),
        forall|i: int| from <= i < digits_end(text, from) ==> is_digit(#[trigger] text[i]),
    decreases text.len() - from,
{
    if from < text.len() && is_digit(text[from]) {
        lemma_digits_end(text, from + 1);
    }
}

/// Every call that is read stands in the text, whatever the text is: all of its parts, in their order,
/// with nothing but white space between them, and its object up to the first closed brace.
pub proof fn lemma_call_stands_in_the_text(text: Seq<char>, at: int, config: KimiK2ParserConfig)
    ensures
        call_at(text, at, config) matches Some(span) ==> is_call(text, at, span, config),
{
    if let Some(span) = call_at(text, at, config) {
        let behind = at + config.call_start@.len();
        lemma_white_end(text, behind);
        let id_start = white_end(text, behind);
        lemma_name_end(text, id_start);
        let colon = name_end(text, id_start);
        lemma_digits_end(text, colon + 1);
        let begun = lemma_call_with_id(
            text,
            id_start,
            colon + 2,
            digits_end(text, colon + 1),
            config,
        );
        assert(has_parts(text, at, span, colon, begun, config));
    }
}

/// A token that does not begin with white space closes a place at one place only.
proof fn lemma_closed_once(text: Seq<char>, at: int, token: Seq<char>, end: int)
    requires
        is_closed(text, at, token, end),
        0 < token.len(),
        !is_white_space(token[0]),
    ensures
        end - token.len() == white_end(text, at),
{
    let start = end - token.len();
    assert(text.subrange(start, end)[0] == text[start]);
    lemma_white_end_is(text, at, start);
}

/// The object that stands behind white space is found.
proof fn lemma_object_is_found(
    text: Seq<char>,
    behind: int,
    start: int,
    end: int,
    call_behind: int,
    call_end: Seq<char>,
)
    requires
        is_white_between(text, behind, start),
        is_object(text, start, end, call_behind, call_end),
        0 < call_end.len(),
        !is_white_space(call_end[0]),
    ensures
        arguments_at(text, behind, call_end) == Some(
            ArgumentSpan { start, end, call_end: call_behind },
        ),
{
    assert(!is_white_space('{'));
    lemma_white_end_is(text, behind, start);
    lemma_object_end(text, start + 1, call_end);
    assert(is_closed(text, (end - 1) + 1, call_end, call_behind));
    let (found, found_behind) = object_end(text, start + 1, call_end)->0;
    if found < end {
        assert(is_closed(text, (found - 1) + 1, call_end, found_behind));
    }
    assert(found == end);
    lemma_closed_once(text, end, call_end, call_behind);
    lemma_closed_once(text, end, call_end, found_behind);
}

/// Every call whose parts stand in a text is read where it stands, whatever stands around it: its
/// name is no white space, and its digits go as far as they can.
pub proof fn lemma_call_that_stands_is_read(
    text: Seq<char>,
    at: int,
    span: CallSpan,
    colon: int,
    begun: int,
    config: KimiK2ParserConfig,
)
    requires
        calls_distinguishable(config),
        has_parts(text, at, span, colon, begun, config),
        !is_white_space(text[span.id_start]),
        !is_digit(text[span.id_end]),
    ensures
        call_at(text, at, config) == Some(span),
{
    let behind = at + config.call_start@.len();
    assert(text.subrange(begun, begun + config.argument_begin@.len())[0] == text[begun]);
    lemma_white_end_is(text, behind, span.id_start);
    assert(!is_name_char(':'));
    lemma_name_end_is(text, span.id_start, colon);
    lemma_digits_end_is(text, colon + 1, span.id_end);
    lemma_white_end_is(text, span.id_end, begun);
    lemma_object_is_found(
        text,
        begun + config.argument_begin@.len(),
        span.arguments_start,
        span.arguments_end,
        span.end,
        config.call_end@,
    );
}

/// The next call is the first place at which one is read, and none is read in front of it.
pub proof fn lemma_next_call_is_the_first(text: Seq<char>, from: int, config: KimiK2ParserConfig) -> (
    at: int)
    requires
        0 <= from,
    ensures
        match next_call(text, from, config) {
            Some(span) => {
                &&& from <= at
                &&& call_at(text, at, config) == Some(span)
                &&& is_call(text, at, span, config)
                &&& forall|before: int|
                    from <= before < at ==> #[trigger] call_at(text, before, config) is None
            },
            None => forall|at: int|
                from <= at <= text.len() ==> #[trigger] call_at(text, at, config) is None,
        },
    decreases text.len() + 1 - from,
{
    if from > text.len() {
        0
    } else {
        lemma_call_stands_in_the_text(text, from, config);
        if call_at(text, from, config) is Some {
            from
        } else {
            lemma_next_call_is_the_first(text, from + 1, config)
        }
    }
}

/// The places are those at which the calls of the text from `from` on begin, each the first behind the
/// call before.
pub open spec fn are_calls(
    text: Seq<char>,
    from: int,
    places: Seq<int>,
    config: KimiK2ParserConfig,
) -> bool
    decreases places.len(),
{
    if places.len() == 0 {
        forall|at: int| from <= at <= text.len() ==> #[trigger] call_at(text, at, config) is None
    } else {
        &&& from <= places[0]
        &&& forall|before: int|
            from <= before < places[0] ==> #[trigger] call_at(text, before, config) is None
        &&& call_at(text, places[0], config) matches Some(span) && {
            &&& is_call(text, places[0], span, config)
            &&& are_calls(text, span.end, places.drop_first(), config)
        }
    }
}

/// The ids and objects of the calls at these places.
pub open spec fn at_places(text: Seq<char>, places: Seq<int>, config: KimiK2ParserConfig) -> Seq<
    (Seq<char>, Seq<char>),
> {
    places.map_values(
        |at: int|
            {
                let span = call_at(text, at, config)->0;
                (
                    text.subrange(span.id_start, span.id_end),
                    text.subrange(span.arguments_start, span.arguments_end),
                )
            },
    )
}

/// The calls from a place on.
proof fn lemma_calls_from(text: Seq<char>, from: int, config: KimiK2ParserConfig) -> (places: Seq<int>)
    requires
        0 <= from <= text.len(),
    ensures
        are_calls(text, from, places, config),
        raw_calls_from(text, from, config) == at_places(text, places, config),
    decreases text.len() - from,
{
    let at = lemma_next_call_is_the_first(text, from, config);
    lemma_next_call_inside(text, from, config);
    match next_call(text, from, config) {
        Some(span) => {
            let others = lemma_calls_from(text, span.end, config);
            let places = seq![at] + others;
            assert(places.drop_first() == others);
            assert(places[0] == at);
            assert(at_places(text, places, config) =~= seq![
                (
                    text.subrange(span.id_start, span.id_end),
                    text.subrange(span.arguments_start, span.arguments_end),
                ),
            ] + at_places(text, others, config));
            places
        },
        None => {
            let none = Seq::<int>::empty();
            assert(at_places(text, none, config) =~= Seq::<(Seq<char>, Seq<char>)>::empty());
            none
        },
    }
}

/// In every section, the calls that are read stand in it, each the first behind the one before, with
/// the ids and objects that stand there; no place at which a call can be read is passed over.
pub proof fn lemma_calls_stand_in_the_section(section: Seq<char>, config: KimiK2ParserConfig) -> (
    places: Seq<int>)
    ensures
        are_calls(section, 0, places, config),
        raw_calls_of(section, config) == at_places(section, places, config),
{
    lemma_calls_from(section, 0, config)
}

/// The calls that have a name.
pub open spec fn named(raw: Seq<(Seq<char>, Seq<char>)>) -> Seq<(Seq<char>, Seq<char>)> {
    raw.filter(|one: (Seq<char>, Seq<char>)| 0 < identified(one).name.len())
}

/// Every call that has a name is reported, in the order of the calls, and no other.
pub proof fn lemma_every_named_call_is_reported(raw: Seq<(Seq<char>, Seq<char>)>)
    ensures
        calls_of(raw) == named(raw).map_values(|one: (Seq<char>, Seq<char>)| identified(one)),
    decreases raw.len(),
{
    reveal(Seq::filter);
    let call = |one: (Seq<char>, Seq<char>)| identified(one);
    if 0 < raw.len() {
        let others = raw.drop_last();
        lemma_every_named_call_is_reported(others);
        if 0 < identified(raw.last()).name.len() {
            assert(named(raw) =~= named(others).push(raw.last()));
            assert(named(raw).map_values(call) =~= named(others).map_values(call).push(
                call(raw.last()),
            ));
        } else {
            assert(named(raw) =~= named(others));
        }
    } else {
        assert(named(raw) =~= Seq::<(Seq<char>, Seq<char>)>::empty());
        assert(named(raw).map_values(call) =~= Seq::<IdentifiedCall>::empty());
    }
}

/// The calls of a message are those of its sections, one section behind the other.
pub proof fn lemma_calls_section_by_section(sections: Seq<Seq<char>>, config: KimiK2ParserConfig)
    ensures
        calls_in(sections, config) == sections.map_values(
            |section: Seq<char>| calls_of(raw_calls_of(section, config)),
        ).flatten(),
    decreases sections.len(),
{
    let calls = |section: Seq<char>| calls_of(raw_calls_of(section, config));
    if 0 < sections.len() {
        let others = sections.drop_last();
        lemma_calls_section_by_section(others, config);
        assert(sections.map_values(calls) =~= others.map_values(calls).push(
            calls(sections.last()),
        ));
        others.map_values(calls).lemma_flatten_push(calls(sections.last()));
    } else {
        assert(sections.map_values(calls) =~= Seq::<Seq<IdentifiedCall>>::empty());
        reveal(Seq::flatten);
    }
}

/// `id` is a name, a `:` and digits.
pub open spec fn is_id(id: Seq<char>, name: Seq<char>, digits: Seq<char>) -> bool {
    &&& id == name + seq![':'] + digits
    &&& 0 < name.len()
    &&& 0 < digits.len()
    &&& forall|i: int| 0 <= i < name.len() ==> is_name_char(#[trigger] name[i])
    &&& forall|i: int| 0 <= i < digits.len() ==> is_digit(#[trigger] digits[i])
}

/// An id calls the function of its name, without the prefix `functions.`; what is no name, `:` and
/// digits calls the function of that whole text.
pub proof fn lemma_functions_of_ids(id: Seq<char>)
    ensures
        called_name(id) == id || exists|name: Seq<char>, digits: Seq<char>|
            {
                &&& #[trigger] is_id(id, name, digits)
                &&& called_name(id) == (if begins_with(name, "functions."@) && 10 < name.len() {
                    name.skip(10)
                } else {
                    name
                })
            },
        name_in_id(id) is None ==> called_name(id) == id,
{
    reveal_strlit("functions.");
    if name_in_id(id) is Some {
        let colon = name_end(id, 0);
        lemma_name_end(id, 0);
        lemma_digits_end(id, colon + 1);
        let name = id.take(colon);
        let digits = id.skip(colon + 1);
        assert(id == name + seq![':'] + digits);
        assert forall|i: int| 0 <= i < digits.len() implies is_digit(#[trigger] digits[i]) by {
            assert(digits[i] == id[colon + 1 + i]);
        }
        assert(is_id(id, name, digits));
        if 10 < colon {
            assert(name.take(10) == id.subrange(0, 10));
            assert(name.skip(10) == id.subrange(10, colon));
        }
        assert("functions."@.len() == 10);
    }
}

/// A section is detected in a chunk if and only if one of the tokens that open sections is.
pub proof fn lemma_one_token_is_detected(chunk: Seq<char>, tokens: Seq<String>)
    ensures
        one_begins_in(chunk, tokens, tokens.len() as int) <==> exists|i: int|
            0 <= i < tokens.len() && token_begins_in(chunk, (#[trigger] tokens[i])@),
{
}

} // verus!

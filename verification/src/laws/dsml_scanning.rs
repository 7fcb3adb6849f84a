//! Laws of reading any message in DSML, also one that is not written as the format wants it.
use vstd::prelude::*;

use crate::arguments::object_text;
use crate::config::DsmlParserConfig;
use crate::dsml::{
    BlockSpan, block_behind, content_end, next_block, Element, ElementKind, ElementSpan,
    arguments_of, behind_block, block_at, block_end, blocks_from, call_of, calls_in, calls_in_text,
    calls_of, element_at, elements_from, elements_of, needs_patterns, next_element, normal_text,
    quoted_at, string_attribute_at, tag_end,
};
use crate::laws::arguments::lemma_dsml_arguments_are_finite;
use crate::laws::dsml::{lemma_block_content, lemma_next_block};
use crate::laws::dsml_format::{close_of, prefix_of};
use crate::laws::kimi_k2_scanning::{is_closed, lemma_closed_at_is_closed};
use crate::laws::parameters::{
    are_members, dsml_names, dsml_values, lemma_dsml_arguments_are_the_parameters,
};
use crate::laws::xml_scanning::{is_white_between, lemma_found_first, stands_first, stands_nowhere};
use crate::response::CallModel;
use crate::text::{
    contains, find_from, is_white_space, lemma_find_from, lemma_find_from_is_first, lemma_white_end,
    token_at, trim, white_end,
};

verus! {

/// A block begins at `cut.0`, where the first start token stands, its end token first stands behind
/// that at `cut.1`, and the block ends at `cut.2`.
pub open spec fn is_first_block(
    text: Seq<char>,
    from: int,
    cut: (int, int, int),
    config: DsmlParserConfig,
) -> bool {
    let start = config.function_calls_start@;
    let end = config.function_calls_end@;
    &&& stands_first(text, from, cut.0, start)
    &&& stands_first(text, cut.0 + start.len(), cut.1, end)
    &&& cut.2 == cut.1 + end.len()
}

/// No block begins in the text from `from` on: no start token stands there, or no end token behind
/// the first one.
pub open spec fn has_no_block(text: Seq<char>, from: int, config: DsmlParserConfig) -> bool {
    let start = config.function_calls_start@;
    ||| stands_nowhere(text, from, start)
    ||| exists|at: int| #[trigger]
        stands_first(text, from, at, start) && stands_nowhere(
            text,
            at + start.len(),
            config.function_calls_end@,
        )
}

/// The cuts are those of the blocks of the text from `from` on, each the first behind the one before.
pub open spec fn are_cuts(
    text: Seq<char>,
    from: int,
    cuts: Seq<(int, int, int)>,
    config: DsmlParserConfig,
) -> bool
    decreases cuts.len(),
{
    if cuts.len() == 0 {
        has_no_block(text, from, config)
    } else {
        is_first_block(text, from, cuts[0], config) && are_cuts(
            text,
            cuts[0].2,
            cuts.drop_first(),
            config,
        )
    }
}

/// What lies between the tokens of the blocks, without the white space around it.
pub open spec fn between_tokens(
    text: Seq<char>,
    cuts: Seq<(int, int, int)>,
    config: DsmlParserConfig,
) -> Seq<Seq<char>> {
    cuts.map_values(
        |cut: (int, int, int)|
            trim(text.subrange(cut.0 + config.function_calls_start@.len(), cut.1)),
    )
}

/// The contents of the blocks lie between their tokens.
proof fn lemma_cuts(text: Seq<char>, from: int, config: DsmlParserConfig) -> (cuts: Seq<
    (int, int, int),
>)
    requires
        0 <= from <= text.len(),
        0 < config.function_calls_start@.len(),
        0 < config.function_calls_end@.len(),
        !is_white_space(config.function_calls_end@[0]),
    ensures
        are_cuts(text, from, cuts, config),
        blocks_from(text, from, config) == between_tokens(text, cuts, config),
    decreases text.len() - from,
{
    let start = config.function_calls_start@;
    let end = config.function_calls_end@;
    let none = Seq::<(int, int, int)>::empty();
    lemma_next_block(text, from, config);
    lemma_found_first(text, start, from);
    assert(between_tokens(text, none, config) =~= Seq::<Seq<char>>::empty());
    match find_from(text, start, from) {
        Some(at) => {
            let opened = at + start.len();
            lemma_block_content(text, at, config);
            lemma_found_first(text, end, opened);
            match find_from(text, end, opened) {
                Some(end_start) => {
                    let cut = (at, end_start, end_start + end.len());
                    let span = block_at(text, at, config)->0;
                    assert(behind_block(span) == cut.2);
                    let others = lemma_cuts(text, cut.2, config);
                    let cuts = seq![cut] + others;
                    assert(cuts.drop_first() == others);
                    assert(cuts[0] == cut);
                    assert(between_tokens(text, cuts, config) =~= seq![
                        trim(text.subrange(opened, end_start)),
                    ] + between_tokens(text, others, config));
                    cuts
                },
                None => {
                    assert(stands_first(text, from, at, start));
                    none
                },
            }
        },
        None => none,
    }
}

/// In every text, a block begins at the first start token behind the block before it and ends behind
/// the first end token that follows; a start token that no end token follows begins none. The
/// contents of the blocks are what lies between the tokens, without the white space around it.
pub proof fn lemma_blocks_lie_between_tokens(text: Seq<char>, config: DsmlParserConfig) -> (cuts: Seq<
    (int, int, int),
>)
    requires
        0 < config.function_calls_start@.len(),
        0 < config.function_calls_end@.len(),
        !is_white_space(config.function_calls_end@[0]),
    ensures
        are_cuts(text, 0, cuts, config),
        calls_in_text(text, config) == calls_in(between_tokens(text, cuts, config), config),
{
    lemma_cuts(text, 0, config)
}

/// `span` is the block that begins at `at`, whatever the tokens are: behind the start token stands white
/// space, as much as can be, and then the content, up to the first place that nothing but white
/// space parts from the end token.
pub open spec fn is_block(
    text: Seq<char>,
    at: int,
    span: BlockSpan,
    config: DsmlParserConfig,
) -> bool {
    let opened = at + config.function_calls_start@.len();
    let end = config.function_calls_end@;
    &&& token_at(text, at, config.function_calls_start@)
    &&& span.at == at
    &&& is_white_between(text, opened, span.content_start)
    &&& span.content_start <= span.content_end
    &&& is_closed(text, span.content_end, end, span.end)
    &&& forall|place: int, behind: int|
        span.content_start <= place < span.content_end ==> !#[trigger] is_closed(
            text,
            place,
            end,
            behind,
        )
    &&& span.content_start < text.len() && is_white_space(text[span.content_start])
        ==> forall|place: int, behind: int|
        span.content_start < place ==> !#[trigger] is_closed(text, place, end, behind)
}

/// Content ends at the first closed place.
proof fn lemma_content_end(text: Seq<char>, at: int, token: Seq<char>)
    requires
        0 <= at,
    ensures
        match content_end(text, at, token) {
            Some((end, behind)) => {
                &&& at <= end <= text.len()
                &&& is_closed(text, end, token, behind)
                &&& forall|place: int, other: int|
                    at <= place < end ==> !#[trigger] is_closed(text, place, token, other)
            },
            None => forall|place: int, other: int|
                at <= place ==> !#[trigger] is_closed(text, place, token, other),
        },
    decreases text.len() + 1 - at,
{
    if at <= text.len() {
        lemma_closed_at_is_closed(text, at, token);
        lemma_content_end(text, at + 1, token);
    }
}

/// A block that was found behind white space stands where it was found.
proof fn lemma_block_behind(
    text: Seq<char>,
    at: int,
    opened: int,
    white: int,
    token: Seq<char>,
)
    requires
        0 <= opened <= text.len(),
        white <= white_end(text, opened) - opened,
    ensures
        match block_behind(text, at, opened, white, token) {
            Some(span) => {
                &&& span.at == at
                &&& is_white_between(text, opened, span.content_start)
                &&& span.content_start <= opened + white
                &&& span.content_start <= span.content_end
                &&& is_closed(text, span.content_end, token, span.end)
                &&& forall|place: int, behind: int|
                    span.content_start <= place < span.content_end ==> !#[trigger] is_closed(
                        text,
                        place,
                        token,
                        behind,
                    )
                &&& span.content_start < opened + white ==> forall|place: int, behind: int|
                    span.content_start < place ==> !#[trigger] is_closed(
                        text,
                        place,
                        token,
                        behind,
                    )
            },
            None => forall|place: int, behind: int|
                opened <= place && 0 <= white ==> !#[trigger] is_closed(text, place, token, behind),
        },
    decreases white + 1,
{
    lemma_white_end(text, opened);
    if 0 <= white {
        lemma_content_end(text, opened + white, token);
        if content_end(text, opened + white, token) is None {
            lemma_block_behind(text, at, opened, white - 1, token);
        }
    }
}

/// A block is found where one stands, and where none is found, no end token follows the start token.
pub proof fn lemma_block_at(text: Seq<char>, at: int, config: DsmlParserConfig)
    ensures
        match block_at(text, at, config) {
            Some(span) => is_block(text, at, span, config),
            None => token_at(text, at, config.function_calls_start@) ==> stands_nowhere(
                text,
                at + config.function_calls_start@.len(),
                config.function_calls_end@,
            ),
        },
{
    let opened = at + config.function_calls_start@.len();
    let end = config.function_calls_end@;
    if token_at(text, at, config.function_calls_start@) {
        lemma_white_end(text, opened);
        let white = white_end(text, opened) - opened;
        lemma_block_behind(text, at, opened, white, end);
        if block_at(text, at, config) is None {
            assert forall|place: int| opened <= place implies !token_at(text, place, end) by {
                if token_at(text, place, end) {
                    assert(is_closed(text, place, end, place + end.len()));
                }
            }
        }
    }
}

/// The next block is the first that is found, whatever the tokens are.
pub proof fn lemma_next_block_is_the_first(text: Seq<char>, from: int, config: DsmlParserConfig)
    requires
        0 <= from,
    ensures
        match next_block(text, from, config) {
            Some(span) => {
                &&& from <= span.at
                &&& is_block(text, span.at, span, config)
                &&& forall|before: int|
                    from <= before < span.at ==> #[trigger] block_at(text, before, config) is None
            },
            None => forall|at: int|
                from <= at <= text.len() ==> #[trigger] block_at(text, at, config) is None,
        },
    decreases text.len() + 1 - from,
{
    if from <= text.len() {
        lemma_block_at(text, from, config);
        if block_at(text, from, config) is None {
            lemma_next_block_is_the_first(text, from + 1, config);
        }
    }
}

/// The calls of a text are those of its blocks, one block behind the other, and the calls of a block
/// are those of its elements, one for one.
pub proof fn lemma_calls_block_by_block(blocks: Seq<Seq<char>>, config: DsmlParserConfig)
    ensures
        calls_in(blocks, config) == blocks.map_values(
            |block: Seq<char>| calls_of(block, config),
        ).flatten(),
        forall|block: Seq<char>, i: int|
            0 <= i < elements_of(block, ElementKind::Invoke, config).len()
                ==> #[trigger] calls_of(block, config)[i] == call_of(
                elements_of(block, ElementKind::Invoke, config)[i],
                config,
            ),
        forall|block: Seq<char>| #[trigger]
            calls_of(block, config).len() == elements_of(block, ElementKind::Invoke, config).len(),
    decreases blocks.len(),
{
    let calls = |block: Seq<char>| calls_of(block, config);
    if 0 < blocks.len() {
        let others = blocks.drop_last();
        lemma_calls_block_by_block(others, config);
        assert(blocks.map_values(calls) =~= others.map_values(calls).push(calls(blocks.last())));
        others.map_values(calls).lemma_flatten_push(calls(blocks.last()));
    } else {
        assert(blocks.map_values(calls) =~= Seq::<Seq<CallModel>>::empty());
        reveal(Seq::flatten);
    }
}

/// A function is called by its name, without the white space around it, with the parameters in its
/// body for arguments.
pub proof fn lemma_call_of_a_function(invoke: Element, config: DsmlParserConfig) -> (members: Map<
    Seq<char>,
    Seq<char>,
>)
    ensures
        call_of(invoke, config).name == trim(invoke.name),
        call_of(invoke, config).arguments == object_text(members),
        members.dom().finite(),
        ({
            let parameters = elements_of(invoke.body, ElementKind::Parameter, config);
            are_members(members, dsml_names(parameters), dsml_values(parameters), true)
        }),
{
    let parameters = elements_of(invoke.body, ElementKind::Parameter, config);
    lemma_dsml_arguments_are_the_parameters(parameters);
    lemma_dsml_arguments_are_finite(parameters);
    arguments_of(parameters)
}

/// A quoted name stands at `at`: a quote, at least one character that is none, and a quote.
pub open spec fn is_quoted_name(text: Seq<char>, at: int, name_start: int, name_end: int) -> bool {
    &&& 0 <= at
    &&& name_start == at + 1
    &&& name_start < name_end < text.len()
    &&& text[at] == '"'
    &&& forall|i: int| name_start <= i < name_end ==> #[trigger] text[i] != '"'
    &&& text[name_end] == '"'
}

/// Nothing but white space parts `from` from a `>`, behind which `to` lies.
pub open spec fn is_tag_end(text: Seq<char>, from: int, to: int) -> bool {
    &&& is_white_between(text, from, to - 1)
    &&& to <= text.len()
    &&& text[to - 1] == '>'
}

/// An attribute stands at `at` and ends at `to`: `string="true"` or `string="false"`.
pub open spec fn is_string_attribute(text: Seq<char>, at: int, to: int, is_string: bool) -> bool {
    let attribute = if is_string {
        "string=\"true\""@
    } else {
        "string=\"false\""@
    };
    token_at(text, at, attribute) && to == at + attribute.len()
}

/// `span` is the element of this kind that begins at `at`: the prefix, a quoted name, for a parameter
/// white space and the attribute that says whether it is a string, the end of the tag, and a body up
/// to the first closing token.
pub open spec fn is_element(
    text: Seq<char>,
    at: int,
    span: ElementSpan,
    kind: ElementKind,
    config: DsmlParserConfig,
) -> bool {
    let close = close_of(kind, config);
    &&& token_at(text, at, prefix_of(kind, config))
    &&& is_quoted_name(
        text,
        at + prefix_of(kind, config).len(),
        span.name_start,
        span.name_end,
    )
    &&& match kind {
        ElementKind::Invoke => {
            &&& span.is_string
            &&& is_tag_end(text, span.name_end + 1, span.body_start)
        },
        ElementKind::Parameter => exists|attribute: int, behind: int|
            {
                &&& span.name_end + 1 < attribute
                &&& is_white_between(text, span.name_end + 1, attribute)
                &&& #[trigger] is_string_attribute(text, attribute, behind, span.is_string)
                &&& is_tag_end(text, behind, span.body_start)
            },
    }
    &&& stands_first(text, span.body_start, span.body_end, close)
    &&& span.end == span.body_end + close.len()
}

/// A quoted name is found where one stands.
proof fn lemma_quoted_at(text: Seq<char>, at: int)
    requires
        0 <= at,
    ensures
        match quoted_at(text, at) {
            Some((name_start, name_end)) => is_quoted_name(text, at, name_start, name_end),
            None => forall|name_start: int, name_end: int|
                !#[trigger] is_quoted_name(text, at, name_start, name_end),
        },
        forall|name_start: int, name_end: int| #[trigger]
            is_quoted_name(text, at, name_start, name_end) ==> quoted_at(text, at) == Some(
                (name_start, name_end),
            ),
{
    let quote = seq!['"'];
    lemma_find_from(text, quote, at + 1);
    assert forall|i: int| token_at(text, i, quote) == (0 <= i < text.len() && text[i] == '"') by {
        if 0 <= i < text.len() {
            let one = text.subrange(i, i + 1);
            assert(one[0] == text[i]);
            if text[i] == '"' {
                assert(one == quote);
            } else {
                assert(one[0] != quote[0]);
            }
        }
    }
    if let Some(end) = find_from(text, quote, at + 1) {
        assert(token_at(text, end, quote));
        assert forall|i: int| at + 1 <= i < end implies #[trigger] text[i] != '"' by {
            assert(!token_at(text, i, quote));
        }
    }
    assert forall|name_start: int, name_end: int| #[trigger]
        is_quoted_name(text, at, name_start, name_end) implies quoted_at(text, at) == Some(
        (name_start, name_end),
    ) by {
        assert(token_at(text, name_end, quote));
        assert forall|before: int| at + 1 <= before < name_end implies !token_at(
            text,
            before,
            quote,
        ) by {
            assert(text[before] != '"');
        }
        lemma_find_from_is_first(text, quote, at + 1, name_end);
    }
}

/// The end of a tag is found where it stands.
proof fn lemma_tag_end(text: Seq<char>, from: int)
    requires
        0 <= from <= text.len(),
    ensures
        tag_end(text, from) matches Some(to) ==> is_tag_end(text, from, to),
        forall|to: int| #[trigger] is_tag_end(text, from, to) ==> tag_end(text, from) == Some(to),
{
    lemma_white_end(text, from);
    assert forall|to: int| #[trigger] is_tag_end(text, from, to) implies tag_end(text, from) == Some(
        to,
    ) by {
        assert(!is_white_space('>'));
        assert(white_end(text, from) == to - 1);
    }
}

/// The attribute of a parameter is found where it stands.
proof fn lemma_string_attribute(text: Seq<char>, from: int)
    requires
        0 <= from <= text.len(),
    ensures
        ({
            let at = white_end(text, from);
            &&& is_white_between(text, from, at)
            &&& string_attribute_at(text, at) matches Some((is_string, behind))
                ==> is_string_attribute(text, at, behind, is_string) && at <= behind <= text.len()
        }),
        forall|at: int, behind: int, is_string: bool|
            is_white_between(text, from, at) && #[trigger] is_string_attribute(
                text,
                at,
                behind,
                is_string,
            ) ==> at == white_end(text, from) && string_attribute_at(text, at) == Some(
                (is_string, behind),
            ) && at <= behind <= text.len(),
{
    reveal_strlit("string=\"true\"");
    reveal_strlit("string=\"false\"");
    lemma_white_end(text, from);
    assert forall|at: int, behind: int, is_string: bool|
        is_white_between(text, from, at) && #[trigger] is_string_attribute(
            text,
            at,
            behind,
            is_string,
        ) implies at == white_end(text, from) && string_attribute_at(text, at) == Some(
        (is_string, behind),
    ) && at <= behind <= text.len() by {
        let attribute = if is_string {
            "string=\"true\""@
        } else {
            "string=\"false\""@
        };
        assert(text.subrange(at, at + attribute.len())[0] == text[at]);
        assert(!is_white_space('s'));
        if !is_string && token_at(text, at, "string=\"true\""@) {
            assert(text.subrange(at, at + 13)[8] == text[at + 8]);
            assert(text.subrange(at, at + 14)[8] == text[at + 8]);
        }
    }
}

/// An element is found at a place if and only if one stands there, and it is the one that stands
/// there.
pub proof fn lemma_element_at(
    text: Seq<char>,
    at: int,
    span: ElementSpan,
    kind: ElementKind,
    config: DsmlParserConfig,
)
    requires
        0 <= at,
    ensures
        element_at(text, at, kind, config) == Some(span) <==> is_element(
            text,
            at,
            span,
            kind,
            config,
        ),
{
    let prefix = prefix_of(kind, config);
    let close = close_of(kind, config);
    let named = at + prefix.len();
    lemma_quoted_at(text, named);
    if element_at(text, at, kind, config) == Some(span) {
        lemma_found_first(text, close, span.body_start);
        lemma_found_parts(text, at, span, kind, config);
    }
    if is_element(text, at, span, kind, config) {
        assert(is_quoted_name(text, named, span.name_start, span.name_end));
        assert(quoted_at(text, named) == Some((span.name_start, span.name_end)));
        lemma_find_from_is_first(text, close, span.body_start, span.body_end);
        match kind {
            ElementKind::Invoke => {
                lemma_tag_end(text, span.name_end + 1);
            },
            ElementKind::Parameter => {
                let (attribute, behind) = choose|attribute: int, behind: int|
                    {
                        &&& span.name_end + 1 < attribute
                        &&& is_white_between(text, span.name_end + 1, attribute)
                        &&& #[trigger] is_string_attribute(
                            text,
                            attribute,
                            behind,
                            span.is_string,
                        )
                        &&& is_tag_end(text, behind, span.body_start)
                    };
                lemma_string_attribute(text, span.name_end + 1);
                assert(is_string_attribute(text, attribute, behind, span.is_string));
                lemma_tag_end(text, behind);
            },
        }
    }
}

/// The parts of an element that was found stand where they were found.
proof fn lemma_found_parts(
    text: Seq<char>,
    at: int,
    span: ElementSpan,
    kind: ElementKind,
    config: DsmlParserConfig,
)
    requires
        0 <= at,
        element_at(text, at, kind, config) == Some(span),
        stands_first(text, span.body_start, span.body_end, close_of(kind, config)),
    ensures
        is_element(text, at, span, kind, config),
{
    let named = at + prefix_of(kind, config).len();
    lemma_quoted_at(text, named);
    let (name_start, name_end) = quoted_at(text, named)->0;
    assert(is_quoted_name(text, named, name_start, name_end));
    match kind {
        ElementKind::Invoke => {
            lemma_tag_end(text, name_end + 1);
        },
        ElementKind::Parameter => {
            lemma_string_attribute(text, name_end + 1);
            let attribute = white_end(text, name_end + 1);
            let (is_string, behind) = string_attribute_at(text, attribute)->0;
            assert(is_string_attribute(text, attribute, behind, span.is_string));
            lemma_tag_end(text, behind);
        },
    }
}

/// An element of this kind begins at `at`.
pub open spec fn element_begins(
    text: Seq<char>,
    at: int,
    kind: ElementKind,
    config: DsmlParserConfig,
) -> bool {
    exists|span: ElementSpan| #[trigger] is_element(text, at, span, kind, config)
}

/// The next element is the first that begins: none begins in front of it, and where there is no next
/// element, none begins at all.
pub proof fn lemma_next_element_is_the_first(
    text: Seq<char>,
    from: int,
    kind: ElementKind,
    config: DsmlParserConfig,
)
    requires
        0 <= from,
    ensures
        match next_element(text, from, kind, config) {
            Some(span) => {
                let at = span.name_start - 1 - prefix_of(kind, config).len();
                &&& from <= at
                &&& is_element(text, at, span, kind, config)
                &&& forall|before: int|
                    from <= before < at ==> !element_begins(text, before, kind, config)
            },
            None => forall|at: int| from <= at ==> !element_begins(text, at, kind, config),
        },
    decreases text.len() + 1 - from,
{
    if from <= text.len() {
        match element_at(text, from, kind, config) {
            Some(span) => {
                lemma_element_at(text, from, span, kind, config);
            },
            None => {
                if element_begins(text, from, kind, config) {
                    let span = choose|span: ElementSpan| #[trigger]
                        is_element(text, from, span, kind, config);
                    lemma_element_at(text, from, span, kind, config);
                }
                lemma_next_element_is_the_first(text, from + 1, kind, config);
            },
        }
    }
}

/// The spans are those of the elements of the text from `from` on, each the first behind the one
/// before.
pub open spec fn are_spans(
    text: Seq<char>,
    from: int,
    spans: Seq<ElementSpan>,
    kind: ElementKind,
    config: DsmlParserConfig,
) -> bool
    decreases spans.len(),
{
    if spans.len() == 0 {
        forall|at: int| from <= at ==> !element_begins(text, at, kind, config)
    } else {
        let at = spans[0].name_start - 1 - prefix_of(kind, config).len();
        &&& from <= at
        &&& is_element(text, at, spans[0], kind, config)
        &&& forall|before: int| from <= before < at ==> !element_begins(text, before, kind, config)
        &&& are_spans(text, spans[0].end, spans.drop_first(), kind, config)
    }
}

/// The elements in the spans.
pub open spec fn in_spans(text: Seq<char>, spans: Seq<ElementSpan>) -> Seq<Element> {
    spans.map_values(
        |span: ElementSpan|
            Element {
                name: text.subrange(span.name_start, span.name_end),
                is_string: span.is_string,
                body: text.subrange(span.body_start, span.body_end),
            },
    )
}

/// The elements from a place on are those that begin there.
proof fn lemma_spans(text: Seq<char>, from: int, kind: ElementKind, config: DsmlParserConfig) -> (
    spans: Seq<ElementSpan>)
    requires
        0 <= from <= text.len(),
    ensures
        are_spans(text, from, spans, kind, config),
        elements_from(text, from, kind, config) == in_spans(text, spans),
    decreases text.len() - from,
{
    lemma_next_element_is_the_first(text, from, kind, config);
    match next_element(text, from, kind, config) {
        Some(span) => {
            assert(from < span.end <= text.len());
            let others = lemma_spans(text, span.end, kind, config);
            let spans = seq![span] + others;
            assert(spans.drop_first() == others);
            assert(spans[0] == span);
            assert(in_spans(text, spans) =~= seq![
                Element {
                    name: text.subrange(span.name_start, span.name_end),
                    is_string: span.is_string,
                    body: text.subrange(span.body_start, span.body_end),
                },
            ] + in_spans(text, others));
            spans
        },
        None => {
            let none = Seq::<ElementSpan>::empty();
            assert(in_spans(text, none) =~= Seq::<Element>::empty());
            none
        },
    }
}

/// In every text, the elements that are read are those that begin in it, each searched behind the one
/// before, with the names, marks and bodies that stand there.
pub proof fn lemma_elements_are_those_that_begin(
    text: Seq<char>,
    kind: ElementKind,
    config: DsmlParserConfig,
) -> (spans: Seq<ElementSpan>)
    ensures
        are_spans(text, 0, spans, kind, config),
        elements_of(text, kind, config) == in_spans(text, spans),
{
    lemma_spans(text, 0, kind, config)
}

/// The text beside the calls is what stands in front of the first start token, trimmed; a message
/// without calls keeps everything but the white space around it.
pub proof fn lemma_text_in_front_of_the_calls(message: Seq<char>, config: DsmlParserConfig)
    ensures
        ({
            let text = trim(message);
            let start = config.function_calls_start@;
            &&& calls_in_text(text, config).len() == 0 ==> normal_text(message, config) == text
            &&& forall|at: int|
                0 < calls_in_text(text, config).len() && #[trigger] stands_first(
                    text,
                    0,
                    at,
                    start,
                ) ==> normal_text(message, config) == trim(text.take(at))
        }),
{
    let text = trim(message);
    let start = config.function_calls_start@;
    assert forall|at: int| #[trigger] stands_first(text, 0, at, start) implies find_from(
        text,
        start,
        0,
    ) == Some(at) by {
        lemma_find_from_is_first(text, start, 0, at);
    }
}

/// The patterns of the format are needed wherever a start token stands in the message, without the
/// white space around it, and nowhere else.
pub proof fn lemma_start_tokens_need_patterns(message: Seq<char>, config: DsmlParserConfig)
    ensures
        needs_patterns(message, config) <==> 0 < trim(message).len() && exists|at: int|
            token_at(trim(message), at, config.function_calls_start@),
{
}

/// The end position is behind the first end token, and without an end token the end of the chunk.
pub proof fn lemma_end_position_is_behind_the_first_end(chunk: Seq<char>, token: Seq<char>, at: int)
    ensures
        stands_first(chunk, 0, at, token) ==> block_end(chunk, token) == at + token.len(),
        !contains(chunk, token) ==> block_end(chunk, token) == chunk.len(),
{
    if stands_first(chunk, 0, at, token) {
        lemma_find_from_is_first(chunk, token, 0, at);
    }
    if !contains(chunk, token) {
        lemma_find_from(chunk, token, 0);
    }
}

} // verus!

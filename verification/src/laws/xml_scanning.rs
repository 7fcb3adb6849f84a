//! Laws of reading any message in XML style, also one that is not written as the format wants it.
use vstd::prelude::*;

use crate::arguments::object_text;
use crate::config::XmlParserConfig;
use crate::laws::arguments::lemma_xml_arguments_are_finite;
use crate::laws::parameters::{
    are_members, lemma_xml_arguments_are_the_parameters, xml_names, xml_values,
};
use crate::response::CallModel;
use crate::schema::{ToolDefinition, declared};
use crate::text::{contains, find_from, is_white_space, lemma_find_from, lemma_white_end, token_at};
use crate::values::unquoted;
use crate::xml::{
    Span, call_of, calls_end, calls_in, calls_of, calls_read, element_at, elements_from,
    elements_of, functions_of, group_end, lemma_next_element, next_element, scan_from, scan_of,
};

verus! {

/// `token` first stands at `at` in the text from `from` on.
pub open spec fn stands_first(text: Seq<char>, from: int, at: int, token: Seq<char>) -> bool {
    &&& from <= at
    &&& token_at(text, at, token)
    &&& forall|before: int| from <= before < at ==> !token_at(text, before, token)
}

/// `token` stands nowhere in the text from `from` on.
pub open spec fn stands_nowhere(text: Seq<char>, from: int, token: Seq<char>) -> bool {
    forall|at: int| from <= at ==> !token_at(text, at, token)
}

/// Where a token is found, it first stands; where none is found, it stands nowhere.
pub proof fn lemma_found_first(text: Seq<char>, token: Seq<char>, from: int)
    requires
        0 <= from,
    ensures
        match find_from(text, token, from) {
            Some(at) => stands_first(text, from, at, token),
            None => stands_nowhere(text, from, token),
        },
{
    lemma_find_from(text, token, from);
}

/// A block goes from `cut.0` to `cut.1`, and is the first from `from` on: it begins at the first start
/// token, and ends behind the first end token from there on.
pub open spec fn is_first_block(
    text: Seq<char>,
    from: int,
    cut: (int, int),
    start: Seq<char>,
    end: Seq<char>,
) -> bool {
    stands_first(text, from, cut.0, start) && stands_first(text, cut.0, cut.1 - end.len(), end)
}

/// No block begins in the text from `from` on: no start token stands there, or no end token from the
/// first one on.
pub open spec fn has_no_block(
    text: Seq<char>,
    from: int,
    start: Seq<char>,
    end: Seq<char>,
) -> bool {
    ||| stands_nowhere(text, from, start)
    ||| exists|at: int| #[trigger]
        stands_first(text, from, at, start) && stands_nowhere(text, at, end)
}

/// The cuts are those around the blocks of the text from `from` on, each the first behind the one
/// before.
pub open spec fn are_cuts(
    text: Seq<char>,
    from: int,
    cuts: Seq<(int, int)>,
    start: Seq<char>,
    end: Seq<char>,
) -> bool
    decreases cuts.len(),
{
    if cuts.len() == 0 {
        text.len() <= from || has_no_block(text, from, start, end)
    } else {
        &&& is_first_block(text, from, cuts[0], start, end)
        &&& are_cuts(text, cuts[0].1, cuts.drop_first(), start, end)
    }
}

/// What lies outside of the cuts, from `from` on.
pub open spec fn outside(text: Seq<char>, from: int, cuts: Seq<(int, int)>) -> Seq<char>
    decreases cuts.len(),
{
    if cuts.len() == 0 {
        text.skip(from)
    } else {
        text.subrange(from, cuts[0].0) + outside(text, cuts[0].1, cuts.drop_first())
    }
}

/// What lies inside of the cuts.
pub open spec fn inside(text: Seq<char>, cuts: Seq<(int, int)>) -> Seq<Seq<char>> {
    cuts.map_values(|cut: (int, int)| text.subrange(cut.0, cut.1))
}

/// The scan of a text cuts it around its blocks.
proof fn lemma_scan_cuts(text: Seq<char>, from: int, start: Seq<char>, end: Seq<char>) -> (cuts: Seq<
    (int, int),
>)
    requires
        0 <= from <= text.len(),
        0 < end.len(),
    ensures
        are_cuts(text, from, cuts, start, end),
        scan_from(text, from, start, end).blocks == inside(text, cuts),
        scan_from(text, from, start, end).normal == outside(text, from, cuts),
    decreases text.len() - from,
{
    let none = Seq::<(int, int)>::empty();
    let scan = scan_from(text, from, start, end);
    assert(inside(text, none) =~= Seq::<Seq<char>>::empty());
    if from < text.len() {
        lemma_found_first(text, start, from);
        match find_from(text, start, from) {
            Some(block_start) => {
                lemma_found_first(text, end, block_start);
                match find_from(text, end, block_start) {
                    Some(end_start) => {
                        let next = end_start + end.len();
                        let cut = (block_start, next);
                        let others = lemma_scan_cuts(text, next, start, end);
                        let cuts = seq![cut] + others;
                        assert(cuts.drop_first() == others);
                        assert(cuts[0] == cut);
                        assert(inside(text, cuts) =~= seq![text.subrange(block_start, next)]
                            + inside(text, others));
                        cuts
                    },
                    None => {
                        assert(stands_first(text, from, block_start, start));
                        none
                    },
                }
            },
            None => none,
        }
    } else {
        assert(text.skip(from) == Seq::<char>::empty());
        none
    }
}

/// Every message is cut around its blocks: a block begins at the first start token behind the block
/// before it, and ends behind the first end token that follows; a start token that no end token
/// follows begins none. The text of the message is what lies outside of the blocks.
pub proof fn lemma_message_is_cut_around_blocks(message: Seq<char>, config: XmlParserConfig) -> (cuts:
    Seq<(int, int)>)
    requires
        0 < config.tool_call_end_token@.len(),
    ensures
        are_cuts(
            message,
            0,
            cuts,
            config.tool_call_start_token@,
            config.tool_call_end_token@,
        ),
        scan_of(message, config).blocks == inside(message, cuts),
        scan_of(message, config).normal == outside(message, 0, cuts),
{
    lemma_scan_cuts(message, 0, config.tool_call_start_token@, config.tool_call_end_token@)
}

/// An element begins at `at`: the opening token stands there, and behind it another character than
/// `>`, and then a `>`.
pub open spec fn element_begins(text: Seq<char>, at: int, open: Seq<char>) -> bool {
    &&& token_at(text, at, open)
    &&& exists|bracket: int|
        at + open.len() < bracket < text.len() && #[trigger] text[bracket] == '>' && text[at
            + open.len()] != '>'
}

/// `span` is the element that begins at `at`: its name goes to the first `>`, and its body to the
/// first closing token, or to the end of the text where there is none.
pub open spec fn is_element(
    text: Seq<char>,
    at: int,
    span: Span,
    open: Seq<char>,
    close: Seq<char>,
) -> bool {
    &&& token_at(text, at, open)
    &&& span.name_start == at + open.len()
    &&& span.name_start < span.name_end < text.len()
    &&& forall|i: int| span.name_start <= i < span.name_end ==> #[trigger] text[i] != '>'
    &&& text[span.name_end] == '>'
    &&& if stands_nowhere(text, span.name_end + 1, close) {
        span.body_end == text.len() && span.end == text.len()
    } else {
        &&& stands_first(text, span.name_end + 1, span.body_end, close)
        &&& span.end == span.body_end + close.len()
    }
}

/// An element stands where one begins, and is the element that stands there.
pub proof fn lemma_element_at(text: Seq<char>, at: int, open: Seq<char>, close: Seq<char>)
    requires
        0 <= at,
    ensures
        match element_at(text, at, open, close) {
            Some(span) => element_begins(text, at, open) && is_element(
                text,
                at,
                span,
                open,
                close,
            ),
            None => !element_begins(text, at, open),
        },
{
    let bracket = seq!['>'];
    let name_start = at + open.len();
    lemma_found_first(text, bracket, name_start);
    assert forall|i: int| token_at(text, i, bracket) == (0 <= i < text.len() && text[i] == '>') by {
        if 0 <= i < text.len() {
            let one = text.subrange(i, i + 1);
            assert(one[0] == text[i]);
            if text[i] == '>' {
                assert(one == bracket);
            } else {
                assert(one != bracket) by {
                    assert(one[0] != bracket[0]);
                }
            }
        }
    }
    if token_at(text, at, open) {
        match find_from(text, bracket, name_start) {
            Some(name_end) => {
                assert(token_at(text, name_end, bracket));
                assert(text[name_end] == '>');
                assert forall|i: int| name_start <= i < name_end implies #[trigger] text[i]
                    != '>' by {
                    assert(!token_at(text, i, bracket));
                }
                lemma_found_first(text, close, name_end + 1);
                if let Some(body_end) = find_from(text, close, name_end + 1) {
                    assert(token_at(text, body_end, close));
                }
            },
            None => {
                assert forall|i: int| name_start < i < text.len() implies #[trigger] text[i]
                    != '>' by {
                    assert(!token_at(text, i, bracket));
                }
            },
        }
    }
}

/// The next element is the first that begins: none begins in front of it, and where there is no next
/// element, none begins at all.
pub proof fn lemma_next_element_is_the_first(
    text: Seq<char>,
    from: int,
    open: Seq<char>,
    close: Seq<char>,
)
    requires
        0 <= from,
    ensures
        match next_element(text, from, open, close) {
            Some(span) => {
                let at = span.name_start - open.len();
                &&& from <= at
                &&& is_element(text, at, span, open, close)
                &&& forall|before: int| from <= before < at ==> !element_begins(text, before, open)
            },
            None => forall|at: int| from <= at ==> !element_begins(text, at, open),
        },
    decreases text.len() + 1 - from,
{
    if from <= text.len() {
        lemma_element_at(text, from, open, close);
        if element_at(text, from, open, close) is None {
            lemma_next_element_is_the_first(text, from + 1, open, close);
        }
    }
}

/// The spans are those of the elements of the text from `from` on, each the first behind the one
/// before.
pub open spec fn are_spans(
    text: Seq<char>,
    from: int,
    spans: Seq<Span>,
    open: Seq<char>,
    close: Seq<char>,
) -> bool
    decreases spans.len(),
{
    if spans.len() == 0 {
        forall|at: int| from <= at ==> !element_begins(text, at, open)
    } else {
        let at = spans[0].name_start - open.len();
        &&& from <= at
        &&& is_element(text, at, spans[0], open, close)
        &&& forall|before: int| from <= before < at ==> !element_begins(text, before, open)
        &&& are_spans(text, spans[0].end, spans.drop_first(), open, close)
    }
}

/// The names and bodies in the spans.
pub open spec fn in_spans(text: Seq<char>, spans: Seq<Span>) -> Seq<(Seq<char>, Seq<char>)> {
    spans.map_values(
        |span: Span|
            (
                text.subrange(span.name_start, span.name_end),
                text.subrange(span.name_end + 1, span.body_end),
            ),
    )
}

/// The elements of a text are those that begin in it, each searched behind the one before, with the
/// names and bodies that stand in the text.
proof fn lemma_spans(text: Seq<char>, from: int, open: Seq<char>, close: Seq<char>) -> (spans: Seq<
    Span,
>)
    requires
        0 <= from <= text.len(),
    ensures
        are_spans(text, from, spans, open, close),
        elements_from(text, from, open, close) == in_spans(text, spans),
    decreases text.len() - from,
{
    lemma_next_element_is_the_first(text, from, open, close);
    lemma_next_element(text, from, open, close);
    match next_element(text, from, open, close) {
        Some(span) => {
            let others = lemma_spans(text, span.end, open, close);
            let spans = seq![span] + others;
            assert(spans.drop_first() == others);
            assert(spans[0] == span);
            assert(in_spans(text, spans) =~= seq![
                (
                    text.subrange(span.name_start, span.name_end),
                    text.subrange(span.name_end + 1, span.body_end),
                ),
            ] + in_spans(text, others));
            spans
        },
        None => {
            let none = Seq::<Span>::empty();
            assert(in_spans(text, none) =~= Seq::<(Seq<char>, Seq<char>)>::empty());
            none
        },
    }
}

/// In every text, the elements that are read are those that begin in it, each searched behind the one
/// before, with the names and bodies that stand there.
pub proof fn lemma_elements_are_those_that_begin(text: Seq<char>, open: Seq<char>, close: Seq<char>) -> (
    spans: Seq<Span>)
    ensures
        are_spans(text, 0, spans, open, close),
        elements_of(text, open, close) == in_spans(text, spans),
{
    lemma_spans(text, 0, open, close)
}

/// A function is called by its name, without quotes, with the parameters in its body for arguments.
pub proof fn lemma_call_of_a_function(
    element: (Seq<char>, Seq<char>),
    config: XmlParserConfig,
    tools: Option<&[ToolDefinition]>,
) -> (members: Map<Seq<char>, Seq<char>>)
    ensures
        call_of(element, config, tools).name == unquoted(element.0),
        call_of(element, config, tools).arguments == object_text(members),
        members.dom().finite(),
        ({
            let parameters = elements_of(
                element.1,
                config.parameter_start_token@,
                config.parameter_end_token@,
            );
            let known = declared(tools, unquoted(element.0));
            are_members(members, xml_names(parameters), xml_values(parameters, known), false)
        }),
{
    let parameters = elements_of(
        element.1,
        config.parameter_start_token@,
        config.parameter_end_token@,
    );
    let known = declared(tools, unquoted(element.0));
    lemma_xml_arguments_are_the_parameters(parameters, known);
    lemma_xml_arguments_are_finite(parameters, known);
    crate::xml::arguments_of(parameters, known)
}

/// The functions that have a name.
pub open spec fn named(elements: Seq<(Seq<char>, Seq<char>)>) -> Seq<(Seq<char>, Seq<char>)> {
    elements.filter(|element: (Seq<char>, Seq<char>)| 0 < unquoted(element.0).len())
}

/// Every function that has a name is called, in the order of the functions, and no other.
pub proof fn lemma_every_named_function_is_called(
    elements: Seq<(Seq<char>, Seq<char>)>,
    config: XmlParserConfig,
    tools: Option<&[ToolDefinition]>,
)
    ensures
        calls_of(elements, config, tools) == named(elements).map_values(
            |element: (Seq<char>, Seq<char>)| call_of(element, config, tools),
        ),
    decreases elements.len(),
{
    reveal(Seq::filter);
    let call = |element: (Seq<char>, Seq<char>)| call_of(element, config, tools);
    if 0 < elements.len() {
        let others = elements.drop_last();
        lemma_every_named_function_is_called(others, config, tools);
        if 0 < unquoted(elements.last().0).len() {
            assert(named(elements) =~= named(others).push(elements.last()));
            assert(named(elements).map_values(call) =~= named(others).map_values(call).push(
                call(elements.last()),
            ));
        } else {
            assert(named(elements) =~= named(others));
        }
    } else {
        assert(named(elements) =~= Seq::<(Seq<char>, Seq<char>)>::empty());
        assert(named(elements).map_values(call) =~= Seq::<CallModel>::empty());
    }
}

/// The calls of a message are those of its blocks, one block behind the other.
pub proof fn lemma_calls_block_by_block(
    blocks: Seq<Seq<char>>,
    config: XmlParserConfig,
    tools: Option<&[ToolDefinition]>,
)
    ensures
        calls_in(blocks, config, tools) == blocks.map_values(
            |block: Seq<char>| calls_of(functions_of(block, config), config, tools),
        ).flatten(),
        forall|block: Seq<char>|
            #[trigger] functions_of(block, config) == elements_of(
                block,
                config.function_start_token@,
                config.function_end_token@,
            ),
    decreases blocks.len(),
{
    let calls = |block: Seq<char>| calls_of(functions_of(block, config), config, tools);
    if 0 < blocks.len() {
        let others = blocks.drop_last();
        lemma_calls_block_by_block(others, config, tools);
        assert(blocks.map_values(calls) =~= others.map_values(calls).push(calls(blocks.last())));
        others.map_values(calls).lemma_flatten_push(calls(blocks.last()));
    } else {
        assert(blocks.map_values(calls) =~= Seq::<Seq<CallModel>>::empty());
        reveal(Seq::flatten);
    }
}

/// Blocks are read where the patterns of the format compile, and then all of them.
pub proof fn lemma_all_blocks_are_read(
    blocks: Seq<Seq<char>>,
    config: XmlParserConfig,
    tools: Option<&[ToolDefinition]>,
)
    ensures
        calls_read(blocks, config, tools, true) == calls_in(blocks, config, tools),
        calls_read(blocks, config, tools, false).len() == 0,
{
}

/// From `from` on, white space and nothing else stands in front of `to`.
pub open spec fn is_white_between(text: Seq<char>, from: int, to: int) -> bool {
    &&& 0 <= from <= to <= text.len()
    &&& forall|i: int| from <= i < to ==> is_white_space(#[trigger] text[i])
}

/// A complete block follows at `from`: behind nothing but white space stands a start token, and the
/// first end token behind it ends at `next`.
pub open spec fn block_follows(
    text: Seq<char>,
    from: int,
    at: int,
    next: int,
    start: Seq<char>,
    end: Seq<char>,
) -> bool {
    &&& is_white_between(text, from, at)
    &&& at < text.len() ==> !is_white_space(text[at])
    &&& token_at(text, at, start)
    &&& stands_first(text, at + start.len(), next - end.len(), end)
}

/// The group of blocks that goes on at `from` ends at `cut`: block follows block, with nothing but
/// white space between them, and at the cut none follows.
pub open spec fn is_group(
    text: Seq<char>,
    from: int,
    cut: int,
    blocks: Seq<(int, int)>,
    start: Seq<char>,
    end: Seq<char>,
) -> bool
    decreases blocks.len(),
{
    if blocks.len() == 0 {
        &&& from == cut
        &&& forall|at: int, next: int| !#[trigger] block_follows(text, cut, at, next, start, end)
    } else {
        &&& block_follows(text, from, blocks[0].0, blocks[0].1, start, end)
        &&& is_group(text, blocks[0].1, cut, blocks.drop_first(), start, end)
    }
}

/// White space ends at one place.
proof fn lemma_white_ends_once(text: Seq<char>, from: int, at: int)
    requires
        is_white_between(text, from, at),
        at < text.len() ==> !is_white_space(text[at]),
    ensures
        at == crate::text::white_end(text, from),
{
    lemma_white_end(text, from);
}

/// The group of blocks that goes on at a place.
proof fn lemma_group(text: Seq<char>, from: int, start: Seq<char>, end: Seq<char>) -> (blocks: Seq<
    (int, int),
>)
    requires
        0 <= from <= text.len(),
        0 < start.len() || 0 < end.len(),
    ensures
        is_group(text, from, group_end(text, from, start, end), blocks, start, end),
    decreases text.len() - from,
{
    let none = Seq::<(int, int)>::empty();
    let at = crate::text::white_end(text, from);
    lemma_white_end(text, from);
    lemma_found_first(text, end, at + start.len());
    assert forall|other: int, next: int| #[trigger]
        block_follows(text, from, other, next, start, end) implies other == at by {
        lemma_white_ends_once(text, from, other);
    }
    if token_at(text, at, start) {
        match find_from(text, end, at + start.len()) {
            Some(end_start) => {
                let next = end_start + end.len();
                let others = lemma_group(text, next, start, end);
                let blocks = seq![(at, next)] + others;
                assert(blocks.drop_first() == others);
                assert(blocks[0] == (at, next));
                blocks
            },
            None => none,
        }
    } else {
        none
    }
}

/// The end position is behind the first group of blocks: behind the first end token, and behind every
/// complete block that follows with nothing but white space in front of it, and at that place no
/// such block follows. Without an end token it is the end of the chunk.
pub proof fn lemma_end_position_is_the_end_of_the_group(chunk: Seq<char>, config: XmlParserConfig) -> (
    group: (int, Seq<(int, int)>))
    requires
        0 < config.tool_call_start_token@.len() || 0 < config.tool_call_end_token@.len(),
    ensures
        ({
            let start = config.tool_call_start_token@;
            let end = config.tool_call_end_token@;
            let cut = calls_end(chunk, start, end);
            if contains(chunk, end) {
                &&& stands_first(chunk, 0, group.0, end)
                &&& is_group(chunk, group.0 + end.len(), cut, group.1, start, end)
            } else {
                cut == chunk.len()
            }
        }),
{
    let start = config.tool_call_start_token@;
    let end = config.tool_call_end_token@;
    lemma_found_first(chunk, end, 0);
    match find_from(chunk, end, 0) {
        Some(at) => {
            let blocks = lemma_group(chunk, at + end.len(), start, end);
            (at, blocks)
        },
        None => {
            if contains(chunk, end) {
                let at = choose|at: int| token_at(chunk, at, end);
                assert(0 <= at);
            }
            (0, Seq::empty())
        },
    }
}

/// Where the first end token is followed, behind white space, by anything else than a start token, or
/// by nothing, the end position is behind that end token.
pub proof fn lemma_other_text_ends_the_group(chunk: Seq<char>, config: XmlParserConfig, at: int, next: int)
    requires
        stands_first(chunk, 0, at, config.tool_call_end_token@),
        is_white_between(chunk, at + config.tool_call_end_token@.len(), next),
        next < chunk.len() ==> !is_white_space(chunk[next]),
        !token_at(chunk, next, config.tool_call_start_token@),
    ensures
        calls_end(chunk, config.tool_call_start_token@, config.tool_call_end_token@) == at
            + config.tool_call_end_token@.len(),
{
    let end = config.tool_call_end_token@;
    lemma_found_first(chunk, end, 0);
    assert(find_from(chunk, end, 0) == Some(at)) by {
        crate::text::lemma_find_from_is_first(chunk, end, 0, at);
    }
    lemma_white_ends_once(chunk, at + end.len(), next);
}

} // verus!

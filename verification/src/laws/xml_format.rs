//! What is written in the XML style is read back.
use vstd::prelude::*;

use crate::arguments::object_text;
use crate::config::XmlParserConfig;
use crate::laws::arguments::lemma_no_members;
use crate::laws::tokens::{
    begins_not_inside, lemma_begins_not_inside, lemma_char_behind, lemma_differs,
    lemma_first_behind, lemma_unbordered, unbordered,
};
use crate::laws::xml::{lemma_calls_in_both, lemma_scan_skip};
use crate::response::CallModel;
use crate::schema::{ToolDefinition, declared};
use crate::text::{
    contains, find_from, lemma_find_from, lemma_find_from_skip, lemma_token_at_skip, token_at,
};
use crate::values::unquoted;
use crate::xml::{
    Span, arguments_of, call_of, calls_in, calls_of, element_at, elements_from, elements_of,
    functions_of, lemma_next_element, next_element, scan_ends, scan_of, tokens_moderate,
};

verus! {

/// An element as it is written: behind some other text, a name and a body.
pub struct WrittenElement {
    pub before: Seq<char>,
    pub name: Seq<char>,
    pub body: Seq<char>,
}

/// The text of an element.
pub open spec fn written_element(
    element: WrittenElement,
    open: Seq<char>,
    close: Seq<char>,
) -> Seq<char> {
    element.before + open + element.name + seq!['>'] + element.body + close
}

/// The text of elements, one behind the other, and of what follows them.
pub open spec fn written_elements(
    elements: Seq<WrittenElement>,
    tail: Seq<char>,
    open: Seq<char>,
    close: Seq<char>,
) -> Seq<char>
    decreases elements.len(),
{
    if elements.len() == 0 {
        tail
    } else {
        written_element(elements[0], open, close) + written_elements(
            elements.drop_first(),
            tail,
            open,
            close,
        )
    }
}

/// The element does not hold what would end its parts too early: its name has a character and no
/// `>`, its body has no `close`, and no `open` stands in front of it.
pub open spec fn is_readable(element: WrittenElement, open: Seq<char>, close: Seq<char>) -> bool {
    &&& 0 < element.name.len()
    &&& !element.name.contains('>')
    &&& !contains(element.before, open)
    &&& !contains(element.body, close)
}

/// All of the elements are readable.
pub open spec fn are_readable(
    elements: Seq<WrittenElement>,
    open: Seq<char>,
    close: Seq<char>,
) -> bool {
    forall|i: int| 0 <= i < elements.len() ==> is_readable(#[trigger] elements[i], open, close)
}

/// The names and bodies of elements.
pub open spec fn named_bodies(elements: Seq<WrittenElement>) -> Seq<(Seq<char>, Seq<char>)> {
    elements.map_values(|element: WrittenElement| (element.name, element.body))
}

/// An element in the rest of a text is an element of the text.
proof fn lemma_element_at_skip(
    text: Seq<char>,
    skipped: int,
    at: int,
    open: Seq<char>,
    close: Seq<char>,
)
    requires
        0 <= skipped <= text.len(),
        0 <= at,
    ensures
        element_at(text, skipped + at, open, close) == match element_at(
            text.skip(skipped),
            at,
            open,
            close,
        ) {
            Some(span) => Some(
                Span {
                    name_start: skipped + span.name_start,
                    name_end: skipped + span.name_end,
                    body_end: skipped + span.body_end,
                    end: skipped + span.end,
                },
            ),
            None => None,
        },
{
    let rest = text.skip(skipped);
    lemma_token_at_skip(text, open, skipped, at);
    if token_at(rest, at, open) {
        let name_start = at + open.len();
        lemma_find_from_skip(text, seq!['>'], skipped, name_start);
        lemma_find_from(rest, seq!['>'], name_start);
        if let Some(name_end) = find_from(rest, seq!['>'], name_start) {
            lemma_find_from_skip(text, close, skipped, name_end + 1);
        }
    }
}

/// The elements of the rest of a text are the elements of the text from there on.
proof fn lemma_elements_skip(
    text: Seq<char>,
    skipped: int,
    from: int,
    open: Seq<char>,
    close: Seq<char>,
)
    requires
        0 <= skipped <= text.len(),
        0 <= from,
    ensures
        elements_from(text, skipped + from, open, close) == elements_from(
            text.skip(skipped),
            from,
            open,
            close,
        ),
    decreases text.len() + 1 - from,
{
    let rest = text.skip(skipped);
    lemma_next_element_skip(text, skipped, from, open, close);
    if let Some(span) = next_element(rest, from, open, close) {
        if from < span.end <= rest.len() {
            lemma_next_element(rest, from, open, close);
            lemma_elements_skip(text, skipped, span.end, open, close);
            assert(text.subrange(skipped + span.name_start, skipped + span.name_end)
                == rest.subrange(span.name_start, span.name_end));
            assert(text.subrange(skipped + span.name_end + 1, skipped + span.body_end)
                == rest.subrange(span.name_end + 1, span.body_end));
        }
    }
}

/// The next element of the rest of a text is the next one of the text.
proof fn lemma_next_element_skip(
    text: Seq<char>,
    skipped: int,
    from: int,
    open: Seq<char>,
    close: Seq<char>,
)
    requires
        0 <= skipped <= text.len(),
        0 <= from,
    ensures
        next_element(text, skipped + from, open, close) == match next_element(
            text.skip(skipped),
            from,
            open,
            close,
        ) {
            Some(span) => Some(
                Span {
                    name_start: skipped + span.name_start,
                    name_end: skipped + span.name_end,
                    body_end: skipped + span.body_end,
                    end: skipped + span.end,
                },
            ),
            None => None,
        },
    decreases text.len() + 1 - from,
{
    let rest = text.skip(skipped);
    lemma_element_at_skip(text, skipped, from, open, close);
    if from <= rest.len() {
        lemma_next_element_skip(text, skipped, from + 1, open, close);
    }
}

/// Where no element begins in front of a place, the next element is the next one from there on.
proof fn lemma_next_element_later(
    text: Seq<char>,
    from: int,
    later: int,
    open: Seq<char>,
    close: Seq<char>,
)
    requires
        0 <= from <= later <= text.len(),
        forall|at: int| from <= at < later ==> !token_at(text, at, open),
    ensures
        next_element(text, from, open, close) == next_element(text, later, open, close),
    decreases later - from,
{
    if from < later {
        assert(!token_at(text, from, open));
        lemma_next_element_later(text, from + 1, later, open, close);
    }
}

/// The first of the written elements is read, and then those that follow.
proof fn lemma_written_element(
    element: WrittenElement,
    rest: Seq<char>,
    open: Seq<char>,
    close: Seq<char>,
)
    requires
        unbordered(open),
        unbordered(close),
        is_readable(element, open, close),
    ensures
        elements_of(written_element(element, open, close) + rest, open, close) == seq![
            (element.name, element.body),
        ] + elements_of(rest, open, close),
{
    let written = written_element(element, open, close);
    let text = written + rest;
    let at = element.before.len() as int;
    let name_start = at + open.len();
    let name_end = name_start + element.name.len();
    let body_end = name_end + 1 + element.body.len();
    let end = body_end + close.len();
    let behind_open = element.name + seq!['>'] + element.body + close + rest;
    let behind_name = element.body + close + rest;
    assert(text == element.before + open + behind_open);
    lemma_first_behind(element.before, open, behind_open);
    lemma_next_element_later(text, 0, at, open, close);
    assert(text.skip(name_start) == behind_open);
    assert(behind_open == element.name + seq!['>'] + behind_name);
    lemma_char_behind(element.name, '>', behind_name);
    lemma_find_from_skip(text, seq!['>'], name_start, 0);
    assert(text.skip(name_end + 1) == behind_name);
    lemma_first_behind(element.body, close, rest);
    lemma_find_from_skip(text, close, name_end + 1, 0);
    lemma_find_from(text, open, 0);
    assert(element_at(text, at, open, close) == Some(Span { name_start, name_end, body_end, end }));
    assert(text.subrange(name_start, name_end) == element.name);
    assert(text.subrange(name_end + 1, body_end) == element.body);
    assert(text.skip(end) == rest);
    lemma_elements_skip(text, end, 0, open, close);
}

/// Elements that are written one behind the other are read back, in their order, and then those of
/// what follows.
pub proof fn lemma_written_elements(
    elements: Seq<WrittenElement>,
    tail: Seq<char>,
    open: Seq<char>,
    close: Seq<char>,
)
    requires
        unbordered(open),
        unbordered(close),
        are_readable(elements, open, close),
    ensures
        elements_of(written_elements(elements, tail, open, close), open, close) == named_bodies(
            elements,
        ) + elements_of(tail, open, close),
    decreases elements.len(),
{
    if elements.len() == 0 {
        assert(named_bodies(elements) + elements_of(tail, open, close) == elements_of(
            tail,
            open,
            close,
        ));
    } else {
        let others = elements.drop_first();
        assert forall|i: int| 0 <= i < others.len() implies is_readable(
            #[trigger] others[i],
            open,
            close,
        ) by {
            assert(others[i] == elements[i + 1]);
        }
        lemma_written_elements(others, tail, open, close);
        lemma_written_element(
            elements[0],
            written_elements(others, tail, open, close),
            open,
            close,
        );
        assert(named_bodies(elements) == seq![(elements[0].name, elements[0].body)]
            + named_bodies(others));
    }
}

/// An element that is not closed goes on to the end of the text.
pub proof fn lemma_unclosed_element(element: WrittenElement, open: Seq<char>, close: Seq<char>)
    requires
        unbordered(open),
        is_readable(element, open, close),
    ensures
        elements_of(
            element.before + open + element.name + seq!['>'] + element.body,
            open,
            close,
        ) == seq![(element.name, element.body)],
{
    let text = element.before + open + element.name + seq!['>'] + element.body;
    let at = element.before.len() as int;
    let name_start = at + open.len();
    let name_end = name_start + element.name.len();
    let end = text.len() as int;
    let behind_open = element.name + seq!['>'] + element.body;
    assert(text == element.before + open + behind_open);
    lemma_first_behind(element.before, open, behind_open);
    lemma_next_element_later(text, 0, at, open, close);
    assert(text.skip(name_start) == behind_open);
    lemma_char_behind(element.name, '>', element.body);
    lemma_find_from_skip(text, seq!['>'], name_start, 0);
    assert(text.skip(name_end + 1) == element.body);
    lemma_find_from(element.body, close, 0);
    lemma_find_from_skip(text, close, name_end + 1, 0);
    lemma_find_from(text, open, 0);
    assert(element_at(text, at, open, close) == Some(
        Span { name_start, name_end, body_end: end, end },
    ));
    assert(text.subrange(name_start, name_end) == element.name);
    assert(text.subrange(name_end + 1, end) == element.body);
    assert(text.skip(end) == Seq::<char>::empty());
    lemma_elements_skip(text, end, 0, open, close);
    let none = Seq::<char>::empty();
    lemma_no_element_at_end(open, close);
    assert(elements_from(none, 0, open, close) == Seq::<(Seq<char>, Seq<char>)>::empty());
}

/// The empty text has no elements.
proof fn lemma_no_element_at_end(open: Seq<char>, close: Seq<char>)
    ensures
        next_element(Seq::<char>::empty(), 0, open, close) is None,
{
    let none = Seq::<char>::empty();
    lemma_find_from(none, seq!['>'], open.len() as int);
    assert(element_at(none, 0, open, close) is None);
    assert(next_element(none, 1, open, close) is None);
}

/// A text without an opening token has no elements.
pub proof fn lemma_no_elements(text: Seq<char>, open: Seq<char>, close: Seq<char>)
    requires
        !contains(text, open),
    ensures
        elements_of(text, open, close) == Seq::<(Seq<char>, Seq<char>)>::empty(),
{
    assert forall|at: int| !token_at(text, at, open) by {}
    lemma_next_element_later(text, 0, text.len() as int, open, close);
    assert(!token_at(text, text.len() as int, open));
    assert(next_element(text, text.len() + 1int, open, close) is None);
}

/// A function without parameters is called with the arguments `{}`.
pub proof fn lemma_no_parameters_no_arguments(
    name: Seq<char>,
    body: Seq<char>,
    config: XmlParserConfig,
    tools: Option<&[ToolDefinition]>,
)
    requires
        !contains(body, config.parameter_start_token@),
    ensures
        call_of((name, body), config, tools).arguments == "{}"@,
{
    lemma_no_elements(body, config.parameter_start_token@, config.parameter_end_token@);
    lemma_no_members();
}

/// A call as it is written in a block: behind some other text, a name, parameters, and what stands
/// behind the parameters.
pub struct WrittenCall {
    pub before: Seq<char>,
    pub name: Seq<char>,
    pub parameters: Seq<WrittenElement>,
    pub tail: Seq<char>,
}

/// The function element of a call.
pub open spec fn function_element(call: WrittenCall, config: XmlParserConfig) -> WrittenElement {
    WrittenElement {
        before: call.before,
        name: call.name,
        body: written_elements(
            call.parameters,
            call.tail,
            config.parameter_start_token@,
            config.parameter_end_token@,
        ),
    }
}

/// The function elements of calls.
pub open spec fn function_elements(calls: Seq<WrittenCall>, config: XmlParserConfig) -> Seq<
    WrittenElement,
> {
    calls.map_values(|call: WrittenCall| function_element(call, config))
}

/// The call is readable: it has a name, its element and the elements of its parameters are readable,
/// and no other parameter stands behind them.
pub open spec fn is_readable_call(call: WrittenCall, config: XmlParserConfig) -> bool {
    &&& 0 < unquoted(call.name).len()
    &&& is_readable(
        function_element(call, config),
        config.function_start_token@,
        config.function_end_token@,
    )
    &&& are_readable(call.parameters, config.parameter_start_token@, config.parameter_end_token@)
    &&& !contains(call.tail, config.parameter_start_token@)
}

/// What a written call says.
pub open spec fn said(call: WrittenCall, tools: Option<&[ToolDefinition]>) -> CallModel {
    CallModel {
        name: unquoted(call.name),
        arguments: object_text(
            arguments_of(named_bodies(call.parameters), declared(tools, unquoted(call.name))),
        ),
    }
}

/// A block as it is written in a message: behind some other text, calls, and what stands behind the
/// calls.
pub struct WrittenBlock {
    pub before: Seq<char>,
    pub calls: Seq<WrittenCall>,
    pub tail: Seq<char>,
}

/// What stands between the tokens of a block.
pub open spec fn block_content(block: WrittenBlock, config: XmlParserConfig) -> Seq<char> {
    written_elements(
        function_elements(block.calls, config),
        block.tail,
        config.function_start_token@,
        config.function_end_token@,
    )
}

/// The text of a block with its tokens.
pub open spec fn block_text(block: WrittenBlock, config: XmlParserConfig) -> Seq<char> {
    config.tool_call_start_token@ + block_content(block, config) + config.tool_call_end_token@
}

/// The text of a message that is made of blocks and of what follows them.
pub open spec fn written_message(
    blocks: Seq<WrittenBlock>,
    tail: Seq<char>,
    config: XmlParserConfig,
) -> Seq<char>
    decreases blocks.len(),
{
    if blocks.len() == 0 {
        tail
    } else {
        blocks[0].before + block_text(blocks[0], config) + written_message(
            blocks.drop_first(),
            tail,
            config,
        )
    }
}

/// The block is readable: its calls are, no start token stands in front of it and no end token in
/// it, and no other call stands behind its calls.
pub open spec fn is_readable_block(block: WrittenBlock, config: XmlParserConfig) -> bool {
    &&& forall|i: int|
        0 <= i < block.calls.len() ==> is_readable_call(#[trigger] block.calls[i], config)
    &&& !contains(block.before, config.tool_call_start_token@)
    &&& !contains(
        config.tool_call_start_token@ + block_content(block, config),
        config.tool_call_end_token@,
    )
    &&& !contains(block.tail + config.tool_call_end_token@, config.function_start_token@)
}

/// The tokens can be told from each other: none overlaps with itself, the end token has a
/// character, and no function begins inside of a start token.
pub open spec fn tokens_distinguishable(config: XmlParserConfig) -> bool {
    &&& unbordered(config.tool_call_start_token@)
    &&& unbordered(config.tool_call_end_token@)
    &&& unbordered(config.function_start_token@)
    &&& unbordered(config.function_end_token@)
    &&& unbordered(config.parameter_start_token@)
    &&& unbordered(config.parameter_end_token@)
    &&& 0 < config.tool_call_end_token@.len()
    &&& begins_not_inside(config.function_start_token@, config.tool_call_start_token@)
}

/// What the calls of blocks say, block by block.
pub open spec fn all_said(blocks: Seq<WrittenBlock>, tools: Option<&[ToolDefinition]>) -> Seq<
    CallModel,
>
    decreases blocks.len(),
{
    if blocks.len() == 0 {
        Seq::empty()
    } else {
        blocks[0].calls.map_values(|call: WrittenCall| said(call, tools)) + all_said(
            blocks.drop_first(),
            tools,
        )
    }
}

/// The texts of blocks.
pub open spec fn block_texts(blocks: Seq<WrittenBlock>, config: XmlParserConfig) -> Seq<Seq<char>> {
    blocks.map_values(|block: WrittenBlock| block_text(block, config))
}

/// The texts in front of blocks, one behind the other.
pub open spec fn all_before(blocks: Seq<WrittenBlock>) -> Seq<char>
    decreases blocks.len(),
{
    if blocks.len() == 0 {
        Seq::empty()
    } else {
        blocks[0].before + all_before(blocks.drop_first())
    }
}

/// The element of a call makes the call that was written.
proof fn lemma_call_of(
    call: WrittenCall,
    config: XmlParserConfig,
    tools: Option<&[ToolDefinition]>,
)
    requires
        tokens_distinguishable(config),
        is_readable_call(call, config),
    ensures
        call_of((call.name, function_element(call, config).body), config, tools) == said(
            call,
            tools,
        ),
{
    let open = config.parameter_start_token@;
    let close = config.parameter_end_token@;
    lemma_written_elements(call.parameters, call.tail, open, close);
    lemma_no_elements(call.tail, open, close);
    assert(named_bodies(call.parameters) + Seq::<(Seq<char>, Seq<char>)>::empty() == named_bodies(
        call.parameters,
    ));
}

/// Elements with names make their calls, one each.
proof fn lemma_calls_of_named(
    calls: Seq<WrittenCall>,
    config: XmlParserConfig,
    tools: Option<&[ToolDefinition]>,
)
    requires
        tokens_distinguishable(config),
        forall|i: int| 0 <= i < calls.len() ==> is_readable_call(#[trigger] calls[i], config),
    ensures
        calls_of(named_bodies(function_elements(calls, config)), config, tools)
            == calls.map_values(|call: WrittenCall| said(call, tools)),
    decreases calls.len(),
{
    let elements = named_bodies(function_elements(calls, config));
    let expected = calls.map_values(|call: WrittenCall| said(call, tools));
    if 0 < calls.len() {
        let shorter = calls.drop_last();
        let last = calls.last();
        assert(calls[calls.len() - 1] == last);
        assert forall|i: int| 0 <= i < shorter.len() implies is_readable_call(
            #[trigger] shorter[i],
            config,
        ) by {
            assert(shorter[i] == calls[i]);
        }
        lemma_calls_of_named(shorter, config, tools);
        lemma_call_of(last, config, tools);
        assert(elements.drop_last() == named_bodies(function_elements(shorter, config)));
        assert(elements.last() == (last.name, function_element(last, config).body));
        assert(expected == shorter.map_values(|call: WrittenCall| said(call, tools)).push(
            said(last, tools),
        ));
    } else {
        assert(calls_of(elements, config, tools) == expected);
    }
}

/// The text behind the last of some elements may be put behind all of them.
proof fn lemma_written_elements_tail(
    elements: Seq<WrittenElement>,
    tail: Seq<char>,
    more: Seq<char>,
    open: Seq<char>,
    close: Seq<char>,
)
    ensures
        written_elements(elements, tail, open, close) + more == written_elements(
            elements,
            tail + more,
            open,
            close,
        ),
    decreases elements.len(),
{
    if 0 < elements.len() {
        lemma_written_elements_tail(elements.drop_first(), tail, more, open, close);
        assert(written_elements(elements, tail, open, close) + more == written_elements(
            elements,
            tail + more,
            open,
            close,
        ));
    }
}

/// The calls of a block are read back.
proof fn lemma_written_block(
    block: WrittenBlock,
    config: XmlParserConfig,
    tools: Option<&[ToolDefinition]>,
)
    requires
        tokens_distinguishable(config),
        is_readable_block(block, config),
    ensures
        functions_of(block_text(block, config), config) == named_bodies(
            function_elements(block.calls, config),
        ),
        calls_of(functions_of(block_text(block, config), config), config, tools)
            == block.calls.map_values(|call: WrittenCall| said(call, tools)),
{
    let start = config.tool_call_start_token@;
    let end = config.tool_call_end_token@;
    let open = config.function_start_token@;
    let close = config.function_end_token@;
    let elements = function_elements(block.calls, config);
    let text = block_text(block, config);
    let content = written_elements(elements, block.tail + end, open, close);
    lemma_written_elements_tail(elements, block.tail, end, open, close);
    assert(text == start + content);
    assert(text.subrange(0, start.len() as int) == start);
    assert forall|at: int| 0 <= at < start.len() implies !token_at(text, at, open) by {
        if token_at(text, at, open) {
            lemma_begins_not_inside(text, start, 0, open, at);
        }
    }
    lemma_next_element_later(text, 0, start.len() as int, open, close);
    assert(text.skip(start.len() as int) == content);
    lemma_elements_skip(text, start.len() as int, 0, open, close);
    lemma_next_element(text, start.len() as int, open, close);
    assert(elements_of(text, open, close) == elements_of(content, open, close));
    assert forall|i: int| 0 <= i < elements.len() implies is_readable(
        #[trigger] elements[i],
        open,
        close,
    ) by {
        assert(is_readable_call(block.calls[i], config));
    }
    lemma_written_elements(elements, block.tail + end, open, close);
    lemma_no_elements(block.tail + end, open, close);
    assert(named_bodies(elements) + Seq::<(Seq<char>, Seq<char>)>::empty() == named_bodies(
        elements,
    ));
    lemma_calls_of_named(block.calls, config, tools);
}

/// The first block of a message is found, and then those of what follows.
proof fn lemma_scan_block(block: WrittenBlock, rest: Seq<char>, config: XmlParserConfig)
    requires
        tokens_distinguishable(config),
        is_readable_block(block, config),
    ensures
        ({
            let whole = scan_of(block.before + block_text(block, config) + rest, config);
            &&& whole.normal == block.before + scan_of(rest, config).normal
            &&& whole.blocks == seq![block_text(block, config)] + scan_of(rest, config).blocks
        }),
{
    let start = config.tool_call_start_token@;
    let end = config.tool_call_end_token@;
    let content = block_content(block, config);
    let text = block.before + block_text(block, config) + rest;
    let at = block.before.len() as int;
    let next = at + block_text(block, config).len();
    assert(text == block.before + start + (content + end + rest));
    lemma_first_behind(block.before, start, content + end + rest);
    assert(text.skip(at) == (start + content) + end + rest);
    lemma_first_behind(start + content, end, rest);
    lemma_find_from_skip(text, end, at, 0);
    assert(text.subrange(0, at) == block.before);
    assert(text.subrange(at, next) == block_text(block, config));
    assert(text.skip(next) == rest);
    lemma_scan_skip(text, next, 0, start, end);
}

/// The calls of one block.
proof fn lemma_calls_in_one(
    block: Seq<char>,
    config: XmlParserConfig,
    tools: Option<&[ToolDefinition]>,
)
    ensures
        calls_in(seq![block], config, tools) == calls_of(
            functions_of(block, config),
            config,
            tools,
        ),
{
    let one = seq![block];
    assert(one.drop_last() == Seq::<Seq<char>>::empty());
    assert(calls_in(one.drop_last(), config, tools) == Seq::<CallModel>::empty());
    assert(one.last() == block);
}

/// The blocks of a message that is written in the format are found, and the text around them.
proof fn lemma_written_message_is_scanned(
    blocks: Seq<WrittenBlock>,
    tail: Seq<char>,
    config: XmlParserConfig,
)
    requires
        tokens_distinguishable(config),
        forall|i: int| 0 <= i < blocks.len() ==> is_readable_block(#[trigger] blocks[i], config),
        !contains(tail, config.tool_call_start_token@),
    ensures
        ({
            let scan = scan_of(written_message(blocks, tail, config), config);
            &&& scan.blocks == block_texts(blocks, config)
            &&& scan.normal == all_before(blocks) + tail
        }),
    decreases blocks.len(),
{
    if blocks.len() == 0 {
        lemma_find_from(tail, config.tool_call_start_token@, 0);
        assert(tail.skip(0) == tail);
        let scan = scan_of(tail, config);
        assert(scan.normal == all_before(blocks) + tail);
        assert(scan.blocks == block_texts(blocks, config));
    } else {
        let others = blocks.drop_first();
        let first = blocks[0];
        assert forall|i: int| 0 <= i < others.len() implies is_readable_block(
            #[trigger] others[i],
            config,
        ) by {
            assert(others[i] == blocks[i + 1]);
        }
        lemma_written_message_is_scanned(others, tail, config);
        lemma_scan_block(first, written_message(others, tail, config), config);
        let one = seq![block_text(first, config)];
        assert(block_texts(blocks, config) == one + block_texts(others, config));
        assert(first.before + (all_before(others) + tail) == all_before(blocks) + tail);
    }
}

/// The calls of written blocks are read back, block by block.
proof fn lemma_written_blocks(
    blocks: Seq<WrittenBlock>,
    config: XmlParserConfig,
    tools: Option<&[ToolDefinition]>,
)
    requires
        tokens_distinguishable(config),
        forall|i: int| 0 <= i < blocks.len() ==> is_readable_block(#[trigger] blocks[i], config),
    ensures
        calls_in(block_texts(blocks, config), config, tools) == all_said(blocks, tools),
    decreases blocks.len(),
{
    if 0 < blocks.len() {
        let others = blocks.drop_first();
        let first = blocks[0];
        assert forall|i: int| 0 <= i < others.len() implies is_readable_block(
            #[trigger] others[i],
            config,
        ) by {
            assert(others[i] == blocks[i + 1]);
        }
        let one = seq![block_text(first, config)];
        assert(block_texts(blocks, config) == one + block_texts(others, config));
        lemma_written_blocks(others, config, tools);
        lemma_written_block(first, config, tools);
        lemma_calls_in_both(one, block_texts(others, config), config, tools);
        lemma_calls_in_one(block_text(first, config), config, tools);
    }
}

/// A message that is written in the format is read back: its calls are those that were written, in
/// their order, each with the name and the parameters that it was written with, and its text is
/// what was written around the blocks.
pub proof fn lemma_written_message_is_read(
    blocks: Seq<WrittenBlock>,
    tail: Seq<char>,
    config: XmlParserConfig,
    tools: Option<&[ToolDefinition]>,
)
    requires
        tokens_distinguishable(config),
        forall|i: int| 0 <= i < blocks.len() ==> is_readable_block(#[trigger] blocks[i], config),
        !contains(tail, config.tool_call_start_token@),
    ensures
        ({
            let scan = scan_of(written_message(blocks, tail, config), config);
            &&& calls_in(scan.blocks, config, tools) == all_said(blocks, tools)
            &&& scan.normal == all_before(blocks) + tail
        }),
        scan_ends(written_message(blocks, tail, config), config),
{
    lemma_written_message_is_scanned(blocks, tail, config);
    lemma_written_blocks(blocks, config, tools);
}

/// The default tokens can be told from each other, and are not too long for `regex`.
pub proof fn lemma_default_tokens_distinguishable(config: XmlParserConfig)
    requires
        config.tool_call_start_token@ == "<tool_call>"@,
        config.tool_call_end_token@ == "</tool_call>"@,
        config.function_start_token@ == "<function="@,
        config.function_end_token@ == "</function>"@,
        config.parameter_start_token@ == "<parameter="@,
        config.parameter_end_token@ == "</parameter>"@,
    ensures
        tokens_distinguishable(config),
        tokens_moderate(config),
{
    reveal_strlit("<tool_call>");
    reveal_strlit("</tool_call>");
    reveal_strlit("<function=");
    reveal_strlit("</function>");
    reveal_strlit("<parameter=");
    reveal_strlit("</parameter>");
    lemma_unbordered("<tool_call>"@);
    lemma_unbordered("</tool_call>"@);
    lemma_unbordered("<function="@);
    lemma_unbordered("</function>"@);
    lemma_unbordered("<parameter="@);
    lemma_unbordered("</parameter>"@);
    lemma_differs("<function="@, "<tool_call>"@, 1);
}

} // verus!

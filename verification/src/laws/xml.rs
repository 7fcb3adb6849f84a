//! Laws of the XML style.
use vstd::prelude::*;

use crate::config::XmlParserConfig;
use crate::laws::streaming::lemma_undetected;
use crate::laws::tokens::{
    begins_not_inside, lemma_begins_not_inside, lemma_differs, lemma_find_from_later,
    lemma_find_from_take, lemma_token_at_take, stand_apart,
};
use crate::response::CallModel;
use crate::schema::ToolDefinition;
use crate::stream::token_begins_in;
use crate::text::{
    contains, ends_with, find_from, lemma_find_from, lemma_find_from_is_first, lemma_find_from_skip,
    lemma_white_end, token_at, trim, white_end,
};
use crate::xml::{
    Scan, calls_end, calls_in, calls_of, functions_of, group_end, scan_ends, scan_from, scan_of,
};

verus! {

/// Scanning the rest of a text is scanning the text from there on.
pub proof fn lemma_scan_skip(
    text: Seq<char>,
    skipped: int,
    cursor: int,
    start: Seq<char>,
    end: Seq<char>,
)
    requires
        0 <= skipped <= text.len(),
        0 <= cursor,
    ensures
        scan_from(text, skipped + cursor, start, end) == scan_from(
            text.skip(skipped),
            cursor,
            start,
            end,
        ),
    decreases text.len() - cursor,
{
    let rest = text.skip(skipped);
    if skipped + cursor < text.len() {
        lemma_find_from_skip(text, start, skipped, cursor);
        lemma_find_from(rest, start, cursor);
        assert(text.skip(skipped + cursor) == rest.skip(cursor));
        if let Some(block_start) = find_from(rest, start, cursor) {
            lemma_find_from_skip(text, end, skipped, block_start);
            lemma_find_from(rest, end, block_start);
            if let Some(end_start) = find_from(rest, end, block_start) {
                let next = end_start + end.len();
                if cursor < next <= rest.len() {
                    lemma_scan_skip(text, skipped, next, start, end);
                    assert(text.subrange(skipped + cursor, skipped + block_start) == rest.subrange(
                        cursor,
                        block_start,
                    ));
                    assert(text.subrange(skipped + block_start, skipped + next) == rest.subrange(
                        block_start,
                        next,
                    ));
                }
            }
        }
    }
}

/// A message without a start token has no calls, and nothing but the white space around it is taken
/// from it.
pub proof fn lemma_no_start_no_calls(
    message: Seq<char>,
    config: XmlParserConfig,
    tools: Option<&[ToolDefinition]>,
)
    requires
        !contains(message, config.tool_call_start_token@),
    ensures
        calls_in(scan_of(message, config).blocks, config, tools).len() == 0,
        trim(scan_of(message, config).normal) == trim(message),
{
    lemma_find_from(message, config.tool_call_start_token@, 0);
    assert(message.skip(0) == message);
    if message.len() == 0 {
        assert(message == Seq::<char>::empty());
    }
}

/// A chunk in which no start is detected is plain text, whatever follows: the message that begins
/// with it has the calls of what follows, and its text is the chunk and the text of what follows.
pub proof fn lemma_undetected_chunk_is_text(
    chunk: Seq<char>,
    rest: Seq<char>,
    config: XmlParserConfig,
)
    requires
        !token_begins_in(chunk, config.tool_call_start_token@),
        scan_ends(chunk + rest, config),
    ensures
        scan_of(chunk + rest, config).blocks == scan_of(rest, config).blocks,
        scan_of(chunk + rest, config).normal == chunk + scan_of(rest, config).normal,
{
    let text = chunk + rest;
    let start = config.tool_call_start_token@;
    let end = config.tool_call_end_token@;
    let cut = chunk.len() as int;
    lemma_undetected(chunk, rest, start);
    lemma_find_from_later(text, start, 0, cut);
    lemma_find_from(text, start, cut);
    assert(text.skip(cut) == rest);
    lemma_scan_skip(text, cut, 0, start, end);
    assert(text.skip(0) == text);
    match find_from(text, start, cut) {
        Some(block_start) => {
            assert(token_at(text, block_start, start));
            lemma_find_from(text, end, block_start);
            assert(text.subrange(0, block_start) == chunk + text.subrange(cut, block_start));
            if cut == text.len() {
                assert(rest == Seq::<char>::empty());
                assert(token_at(text, cut, start));
                assert(start == Seq::<char>::empty());
                assert(chunk.subrange(0, 0) == start);
                assert(token_at(chunk, 0, start));
            }
        },
        None => {
            if cut == text.len() {
                assert(rest == Seq::<char>::empty());
            }
        },
    }
}

/// The scan that goes on at `cursor` comes to `cut`, or has it in the text between two blocks.
spec fn comes_to(text: Seq<char>, cursor: int, cut: int, start: Seq<char>, end: Seq<char>) -> bool
    decreases cut - cursor,
{
    cursor == cut || (cursor < cut && match find_from(text, start, cursor) {
        Some(block_start) => block_start >= cut || match find_from(text, end, block_start) {
            Some(end_start) => cursor < end_start + end.len() <= cut && comes_to(
                text,
                end_start + end.len(),
                cut,
                start,
                end,
            ),
            None => false,
        },
        None => true,
    })
}

/// Where the scan comes to a place, it is the scan of the text in front of that place, and then the
/// scan from there on.
proof fn lemma_scan_cut(text: Seq<char>, cursor: int, cut: int, start: Seq<char>, end: Seq<char>)
    requires
        0 <= cursor <= cut <= text.len(),
        0 < start.len(),
        0 < end.len(),
        begins_not_inside(end, start),
        comes_to(text, cursor, cut, start, end),
    ensures
        scan_from(text, cursor, start, end).normal == scan_from(
            text.take(cut),
            cursor,
            start,
            end,
        ).normal + scan_from(text, cut, start, end).normal,
        scan_from(text, cursor, start, end).blocks == scan_from(
            text.take(cut),
            cursor,
            start,
            end,
        ).blocks + scan_from(text, cut, start, end).blocks,
    decreases text.len() - cursor,
{
    let front = text.take(cut);
    if cursor < cut {
        lemma_find_from(text, start, cursor);
        lemma_find_from_take(text, cut, start, cursor);
        match find_from(text, start, cursor) {
            Some(block_start) => {
                lemma_find_from(text, end, block_start);
                if block_start >= cut {
                    assert(find_from(front, start, cursor) is None);
                    lemma_find_from_later(text, start, cursor, cut);
                    assert(text.subrange(cursor, block_start) == front.skip(cursor) + text.subrange(
                        cut,
                        block_start,
                    ));
                    assert(text.skip(cursor) == front.skip(cursor) + text.skip(cut));
                } else {
                    let end_start = find_from(text, end, block_start)->0;
                    lemma_begins_not_inside(text, start, block_start, end, end_start);
                    lemma_find_from_take(text, cut, end, block_start);
                    let next = end_start + end.len();
                    lemma_scan_cut(text, next, cut, start, end);
                    assert(front.subrange(cursor, block_start) == text.subrange(
                        cursor,
                        block_start,
                    ));
                    assert(front.subrange(block_start, next) == text.subrange(block_start, next));
                }
            },
            None => {
                lemma_find_from_later(text, start, cursor, cut);
                assert(text.skip(cursor) == front.skip(cursor) + text.skip(cut));
            },
        }
    } else {
        assert(scan_from(front, cursor, start, end) == (Scan {
            normal: Seq::empty(),
            blocks: Seq::empty(),
        }));
    }
}

/// The scan that goes on at the start of a group of blocks comes to the end of the group.
proof fn lemma_comes_to_group_end(text: Seq<char>, cursor: int, start: Seq<char>, end: Seq<char>)
    requires
        0 <= cursor <= text.len(),
        0 < start.len(),
        0 < end.len(),
        begins_not_inside(end, start),
    ensures
        cursor <= group_end(text, cursor, start, end) <= text.len(),
        comes_to(text, cursor, group_end(text, cursor, start, end), start, end),
    decreases text.len() - cursor,
{
    let block_start = white_end(text, cursor);
    lemma_white_end(text, cursor);
    if token_at(text, block_start, start) {
        lemma_find_from(text, end, block_start + start.len());
        if let Some(end_start) = find_from(text, end, block_start + start.len()) {
            let next = end_start + end.len();
            lemma_comes_to_group_end(text, next, start, end);
            assert(text.subrange(block_start, block_start + start.len())[0] == text[block_start]);
            assert forall|at: int| cursor <= at < block_start implies !token_at(text, at, start) by {
                if token_at(text, at, start) {
                    assert(text.subrange(at, at + start.len())[0] == text[at]);
                }
            }
            lemma_find_from_is_first(text, start, cursor, block_start);
            assert forall|at: int| block_start <= at < block_start + start.len() implies !token_at(
                text,
                at,
                end,
            ) by {
                if token_at(text, at, end) {
                    lemma_begins_not_inside(text, start, block_start, end, at);
                }
            }
            lemma_find_from_later(text, end, block_start, block_start + start.len());
        }
    }
}

/// The end of the first group of blocks is a place that the scan comes to.
proof fn lemma_comes_to_calls_end(text: Seq<char>, start: Seq<char>, end: Seq<char>)
    requires
        0 < start.len(),
        0 < end.len(),
        stand_apart(start, end),
    ensures
        0 <= calls_end(text, start, end) <= text.len(),
        contains(text, end) ==> comes_to(text, 0, calls_end(text, start, end), start, end),
{
    let cut = calls_end(text, start, end);
    lemma_find_from(text, end, 0);
    lemma_find_from(text, start, 0);
    if let Some(end_start) = find_from(text, end, 0) {
        let next = end_start + end.len();
        lemma_comes_to_group_end(text, next, start, end);
        if let Some(block_start) = find_from(text, start, 0) {
            if block_start < next {
                lemma_begins_not_inside(text, end, end_start, start, block_start);
                lemma_find_from_later(text, end, 0, block_start);
            } else {
                lemma_find_from_later(text, start, 0, next);
            }
        }
    }
}

/// The calls of some blocks and then of others are the calls of all of them.
pub proof fn lemma_calls_in_both(
    first: Seq<Seq<char>>,
    second: Seq<Seq<char>>,
    config: XmlParserConfig,
    tools: Option<&[ToolDefinition]>,
)
    ensures
        calls_in(first + second, config, tools) == calls_in(first, config, tools) + calls_in(
            second,
            config,
            tools,
        ),
    decreases second.len(),
{
    let ahead = calls_in(first, config, tools);
    if second.len() == 0 {
        assert(first + second == first);
        assert(ahead + Seq::<CallModel>::empty() == ahead);
    } else {
        let last = calls_of(functions_of(second.last(), config), config, tools);
        let before = calls_in(second.drop_last(), config, tools);
        assert((first + second).drop_last() == first + second.drop_last());
        assert((first + second).last() == second.last());
        lemma_calls_in_both(first, second.drop_last(), config, tools);
        assert((ahead + before) + last == ahead + (before + last));
    }
}

/// The end position cuts a stream between blocks: the calls of the whole are those of what stands in
/// front of the position and those of what follows, and so is the text.
pub proof fn lemma_end_position_cuts_between_blocks(
    chunk: Seq<char>,
    config: XmlParserConfig,
    tools: Option<&[ToolDefinition]>,
)
    requires
        0 < config.tool_call_start_token@.len(),
        0 < config.tool_call_end_token@.len(),
        stand_apart(config.tool_call_start_token@, config.tool_call_end_token@),
        contains(chunk, config.tool_call_end_token@),
    ensures
        ({
            let cut = calls_end(chunk, config.tool_call_start_token@, config.tool_call_end_token@);
            let whole = scan_of(chunk, config);
            let front = scan_of(chunk.take(cut), config);
            let rest = scan_of(chunk.skip(cut), config);
            &&& 0 <= cut <= chunk.len()
            &&& whole.normal == front.normal + rest.normal
            &&& whole.blocks == front.blocks + rest.blocks
            &&& calls_in(whole.blocks, config, tools) == calls_in(front.blocks, config, tools)
                + calls_in(rest.blocks, config, tools)
        }),
{
    let start = config.tool_call_start_token@;
    let end = config.tool_call_end_token@;
    let cut = calls_end(chunk, start, end);
    lemma_comes_to_calls_end(chunk, start, end);
    lemma_scan_cut(chunk, 0, cut, start, end);
    lemma_scan_skip(chunk, cut, 0, start, end);
    lemma_calls_in_both(
        scan_of(chunk.take(cut), config).blocks,
        scan_of(chunk.skip(cut), config).blocks,
        config,
        tools,
    );
}

/// A group of blocks ends where no complete block follows behind white space.
proof fn lemma_group_end(text: Seq<char>, cursor: int, start: Seq<char>, end: Seq<char>)
    requires
        0 <= cursor <= text.len(),
        0 < end.len(),
        cursor >= end.len(),
        token_at(text, cursor - end.len(), end),
    ensures
        ({
            let cut = group_end(text, cursor, start, end);
            let next = white_end(text, cut);
            &&& cursor <= cut <= text.len()
            &&& token_at(text, cut - end.len(), end)
            &&& token_at(text, next, start) ==> find_from(text, end, next + start.len()) is None
        }),
    decreases text.len() - cursor,
{
    let block_start = white_end(text, cursor);
    lemma_white_end(text, cursor);
    if token_at(text, block_start, start) {
        lemma_find_from(text, end, block_start + start.len());
        if let Some(end_start) = find_from(text, end, block_start + start.len()) {
            lemma_group_end(text, end_start + end.len(), start, end);
        }
    }
}

/// What stands in front of the end position ends with an end token, and what follows does not
/// begin, behind white space, with another complete block: consecutive blocks stay together, and a
/// block whose end token is missing is left to what follows.
pub proof fn lemma_end_position_is_behind_the_group(chunk: Seq<char>, config: XmlParserConfig)
    requires
        0 < config.tool_call_end_token@.len(),
        contains(chunk, config.tool_call_end_token@),
    ensures
        ({
            let start = config.tool_call_start_token@;
            let end = config.tool_call_end_token@;
            let cut = calls_end(chunk, start, end);
            let next = white_end(chunk, cut);
            &&& 0 <= cut <= chunk.len()
            &&& ends_with(chunk.take(cut), end)
            &&& token_at(chunk, next, start) ==> !contains(chunk.skip(next + start.len()), end)
        }),
{
    let start = config.tool_call_start_token@;
    let end = config.tool_call_end_token@;
    let cut = calls_end(chunk, start, end);
    let next = white_end(chunk, cut);
    lemma_find_from(chunk, end, 0);
    let end_start = find_from(chunk, end, 0)->0;
    lemma_group_end(chunk, end_start + end.len(), start, end);
    lemma_token_at_take(chunk, cut, end, cut - end.len());
    lemma_white_end(chunk, cut);
    if token_at(chunk, next, start) {
        lemma_find_from_skip(chunk, end, next + start.len(), 0);
        lemma_find_from(chunk.skip(next + start.len()), end, 0);
    }
}

/// The default tokens overlap in no text.
pub proof fn lemma_default_tokens_stand_apart()
    ensures
        stand_apart("<tool_call>"@, "</tool_call>"@),
{
    let start = "<tool_call>"@;
    let end = "</tool_call>"@;
    reveal_strlit("<tool_call>");
    reveal_strlit("</tool_call>");
    lemma_differs(end, start, 1);
    lemma_differs(start, end, 1);
}

} // verus!

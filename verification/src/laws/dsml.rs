//! Laws of DSML.
use vstd::prelude::*;

use crate::config::DsmlParserConfig;
use crate::dsml::{
    BlockSpan, behind_block, block_at, block_behind, block_end, blocks_from, calls_in,
    calls_in_text, content_end, next_block, normal_text,
};
use crate::grammar::lemma_behind_token;
use crate::laws::streaming::lemma_undetected;
use crate::laws::tokens::{
    lemma_begins_not_inside, lemma_behind_token_skip, lemma_closed_at, lemma_find_from_later,
    lemma_find_from_take, lemma_not_closed, lemma_token_at_take, lemma_white_end_skip, stand_apart,
};
use crate::laws::values::lemma_trim;
use crate::response::CallModel;
use crate::stream::token_begins_in;
use crate::text::{
    contains, ends_with, find_from, is_white_space, lemma_find_from, lemma_token_at_skip,
    lemma_white_end, lemma_white_start, token_at, trim, white_end, white_start,
};

verus! {

/// The content that goes on in the rest of a text ends where it ends in the text.
proof fn lemma_content_end_skip(text: Seq<char>, skipped: int, at: int, token: Seq<char>)
    requires
        0 <= skipped <= text.len(),
        0 <= at,
    ensures
        content_end(text, skipped + at, token) == match content_end(
            text.skip(skipped),
            at,
            token,
        ) {
            Some((content_end, end)) => Some((skipped + content_end, skipped + end)),
            None => None,
        },
    decreases text.len() + 1 - at,
{
    let rest = text.skip(skipped);
    if at <= rest.len() {
        lemma_white_end_skip(text, skipped, at);
        lemma_behind_token_skip(text, skipped, at, white_end(rest, at) - at, token);
        lemma_content_end_skip(text, skipped, at + 1, token);
    }
}

/// A span, with so many characters in front of the text.
spec fn moved(span: Option<BlockSpan>, by: int) -> Option<BlockSpan> {
    match span {
        Some(span) => Some(
            BlockSpan {
                at: by + span.at,
                content_start: by + span.content_start,
                content_end: by + span.content_end,
                end: by + span.end,
            },
        ),
        None => None,
    }
}

/// The block that goes on in the rest of a text is a block of the text.
proof fn lemma_block_behind_skip(
    text: Seq<char>,
    skipped: int,
    at: int,
    opened: int,
    white: int,
    token: Seq<char>,
)
    requires
        0 <= skipped <= text.len(),
        0 <= opened,
    ensures
        block_behind(text, skipped + at, skipped + opened, white, token) == moved(
            block_behind(text.skip(skipped), at, opened, white, token),
            skipped,
        ),
    decreases white + 1,
{
    if 0 <= white {
        lemma_content_end_skip(text, skipped, opened + white, token);
        lemma_block_behind_skip(text, skipped, at, opened, white - 1, token);
    }
}

/// The next block of the rest of a text is the next one of the text.
proof fn lemma_next_block_skip(text: Seq<char>, skipped: int, from: int, config: DsmlParserConfig)
    requires
        0 <= skipped <= text.len(),
        0 <= from,
    ensures
        next_block(text, skipped + from, config) == moved(
            next_block(text.skip(skipped), from, config),
            skipped,
        ),
    decreases text.len() + 1 - from,
{
    let rest = text.skip(skipped);
    if from <= rest.len() {
        let start = config.function_calls_start@;
        let opened = from + start.len();
        lemma_token_at_skip(text, start, skipped, from);
        lemma_white_end_skip(text, skipped, opened);
        lemma_block_behind_skip(
            text,
            skipped,
            from,
            opened,
            white_end(rest, opened) - opened,
            config.function_calls_end@,
        );
        lemma_next_block_skip(text, skipped, from + 1, config);
    }
}

/// Content ends inside of the text, and its block behind it.
proof fn lemma_content_end_inside(text: Seq<char>, at: int, token: Seq<char>)
    requires
        0 <= at,
    ensures
        content_end(text, at, token) matches Some((content_end, end)) ==> at <= content_end
            && content_end + token.len() <= end <= text.len(),
    decreases text.len() + 1 - at,
{
    if at <= text.len() {
        lemma_behind_token(text, at, white_end(text, at) - at, token);
        lemma_content_end_inside(text, at + 1, token);
    }
}

/// A block that goes on lies inside of the text.
proof fn lemma_block_behind_inside(
    text: Seq<char>,
    at: int,
    opened: int,
    white: int,
    token: Seq<char>,
)
    requires
        0 <= opened,
    ensures
        block_behind(text, at, opened, white, token) matches Some(span) ==> {
            &&& span.at == at
            &&& opened <= span.content_start <= span.content_end
            &&& span.content_end + token.len() <= span.end <= text.len()
        },
    decreases white + 1,
{
    if 0 <= white {
        lemma_content_end_inside(text, opened + white, token);
        lemma_block_behind_inside(text, at, opened, white - 1, token);
    }
}

/// A block lies inside of the text, behind the place where it was searched.
proof fn lemma_next_block_inside(text: Seq<char>, from: int, config: DsmlParserConfig)
    requires
        0 <= from,
    ensures
        next_block(text, from, config) matches Some(span) ==> {
            &&& from <= span.at
            &&& span.at + config.function_calls_start@.len() <= span.content_start
            &&& span.content_start <= span.content_end
            &&& span.content_end + config.function_calls_end@.len() <= span.end <= text.len()
            &&& from < behind_block(span) <= text.len() + 1
            &&& token_at(text, span.at, config.function_calls_start@)
        },
    decreases text.len() + 1 - from,
{
    if from <= text.len() {
        let opened = from + config.function_calls_start@.len();
        lemma_block_behind_inside(
            text,
            from,
            opened,
            white_end(text, opened) - opened,
            config.function_calls_end@,
        );
        lemma_next_block_inside(text, from + 1, config);
    }
}

/// The blocks of the rest of a text are the blocks of the text from there on.
pub proof fn lemma_blocks_skip(text: Seq<char>, skipped: int, from: int, config: DsmlParserConfig)
    requires
        0 <= skipped <= text.len(),
        0 <= from,
    ensures
        blocks_from(text, skipped + from, config) == blocks_from(text.skip(skipped), from, config),
    decreases text.len() + 1 - from,
{
    let rest = text.skip(skipped);
    lemma_next_block_skip(text, skipped, from, config);
    lemma_next_block_inside(rest, from, config);
    if let Some(span) = next_block(rest, from, config) {
        lemma_blocks_skip(text, skipped, behind_block(span), config);
        assert(text.subrange(skipped + span.content_start, skipped + span.content_end)
            == rest.subrange(span.content_start, span.content_end));
    }
}

/// Where no start token stands in front of a place, the next block is the next one from there on.
proof fn lemma_next_block_later(text: Seq<char>, from: int, later: int, config: DsmlParserConfig)
    requires
        0 <= from <= later <= text.len(),
        forall|at: int|
            from <= at < later ==> !token_at(text, at, config.function_calls_start@),
    ensures
        next_block(text, from, config) == next_block(text, later, config),
    decreases later - from,
{
    if from < later {
        assert(!token_at(text, from, config.function_calls_start@));
        lemma_next_block_later(text, from + 1, later, config);
    }
}

/// A text without a start token has no blocks.
pub proof fn lemma_no_start_no_blocks(text: Seq<char>, config: DsmlParserConfig)
    requires
        !contains(text, config.function_calls_start@),
    ensures
        blocks_from(text, 0, config) == Seq::<Seq<char>>::empty(),
{
    let count = text.len() as int;
    assert forall|at: int| !token_at(text, at, config.function_calls_start@) by {}
    lemma_next_block_later(text, 0, count, config);
    assert(!token_at(text, count, config.function_calls_start@));
    assert(next_block(text, count + 1, config) is None);
}

/// A message without a start token has no calls, and nothing but the white space around it is taken
/// from it.
pub proof fn lemma_no_start_no_calls(message: Seq<char>, config: DsmlParserConfig)
    requires
        !contains(trim(message), config.function_calls_start@),
    ensures
        calls_in_text(trim(message), config).len() == 0,
        normal_text(message, config) == trim(message),
{
    lemma_no_start_no_blocks(trim(message), config);
}

/// Without an end token, no content ends.
proof fn lemma_no_end_no_content(text: Seq<char>, at: int, token: Seq<char>)
    requires
        0 <= at,
        !contains(text, token),
    ensures
        content_end(text, at, token) is None,
    decreases text.len() + 1 - at,
{
    if at <= text.len() {
        lemma_not_closed(text, at, white_end(text, at) - at, token);
        lemma_no_end_no_content(text, at + 1, token);
    }
}

/// Without an end token, there is no block that goes on.
proof fn lemma_no_end_no_block_behind(
    text: Seq<char>,
    at: int,
    opened: int,
    white: int,
    token: Seq<char>,
)
    requires
        0 <= opened,
        !contains(text, token),
    ensures
        block_behind(text, at, opened, white, token) is None,
    decreases white + 1,
{
    if 0 <= white {
        lemma_no_end_no_content(text, opened + white, token);
        lemma_no_end_no_block_behind(text, at, opened, white - 1, token);
    }
}

/// Without an end token, there is no block.
proof fn lemma_no_end_no_block(text: Seq<char>, from: int, config: DsmlParserConfig)
    requires
        0 <= from,
        !contains(text, config.function_calls_end@),
    ensures
        next_block(text, from, config) is None,
    decreases text.len() + 1 - from,
{
    if from <= text.len() {
        let opened = from + config.function_calls_start@.len();
        lemma_no_end_no_block_behind(
            text,
            from,
            opened,
            white_end(text, opened) - opened,
            config.function_calls_end@,
        );
        lemma_no_end_no_block(text, from + 1, config);
    }
}

/// A message without an end token has no calls, however many complete calls stand behind its start
/// token, and nothing but the white space around it is taken from it.
pub proof fn lemma_no_end_no_calls(message: Seq<char>, config: DsmlParserConfig)
    requires
        !contains(trim(message), config.function_calls_end@),
    ensures
        calls_in_text(trim(message), config).len() == 0,
        normal_text(message, config) == trim(message),
{
    lemma_no_end_no_block(trim(message), 0, config);
}

/// A chunk in which no start is detected holds nothing of a call, whatever follows: the calls of the
/// text that begins with it are those of what follows.
pub proof fn lemma_undetected_chunk_has_no_call(
    chunk: Seq<char>,
    rest: Seq<char>,
    config: DsmlParserConfig,
)
    requires
        !token_begins_in(chunk, config.function_calls_start@),
    ensures
        calls_in_text(chunk + rest, config) == calls_in_text(rest, config),
{
    let text = chunk + rest;
    let cut = chunk.len() as int;
    lemma_undetected(chunk, rest, config.function_calls_start@);
    lemma_next_block_later(text, 0, cut, config);
    lemma_next_block_inside(text, 0, config);
    lemma_next_block_inside(text, cut, config);
    assert(text.skip(cut) == rest);
    lemma_blocks_skip(text, cut, 0, config);
    assert(blocks_from(text, 0, config) == blocks_from(text, cut, config));
}

/// The calls of some blocks and then of others are the calls of all of them.
pub proof fn lemma_calls_in_both(
    first: Seq<Seq<char>>,
    second: Seq<Seq<char>>,
    config: DsmlParserConfig,
)
    ensures
        calls_in(first + second, config) == calls_in(first, config) + calls_in(second, config),
    decreases second.len(),
{
    if second.len() == 0 {
        assert(first + second == first);
        assert(calls_in(first, config) + Seq::<CallModel>::empty() == calls_in(first, config));
    } else {
        assert((first + second).drop_last() == first + second.drop_last());
        lemma_calls_in_both(first, second.drop_last(), config);
    }
}

/// Content ends where the white space in front of the next end token begins.
proof fn lemma_content_end(text: Seq<char>, at: int, token: Seq<char>)
    requires
        0 <= at <= text.len(),
        0 < token.len(),
        !is_white_space(token[0]),
    ensures
        content_end(text, at, token) == match find_from(text, token, at) {
            Some(end_start) => Some(
                (
                    if white_start(text, end_start) < at {
                        at
                    } else {
                        white_start(text, end_start)
                    },
                    end_start + token.len(),
                ),
            ),
            None => None,
        },
    decreases text.len() + 1 - at,
{
    let behind = white_end(text, at);
    lemma_white_end(text, at);
    lemma_closed_at(text, at, token);
    lemma_find_from(text, token, at);
    match find_from(text, token, at) {
        Some(end_start) => {
            lemma_white_start(text, end_start);
            assert(text.subrange(end_start, end_start + token.len())[0] == text[end_start]);
            if at < end_start {
                lemma_content_end(text, at + 1, token);
                lemma_find_from_later(text, token, at, at + 1);
            }
        },
        None => {
            if at < text.len() {
                lemma_content_end(text, at + 1, token);
                lemma_find_from(text, token, at + 1);
            } else {
                assert(content_end(text, at + 1, token) is None);
            }
        },
    }
}

/// Without an end token behind the start token, there is no block.
proof fn lemma_block_not_closed(
    text: Seq<char>,
    at: int,
    opened: int,
    white: int,
    token: Seq<char>,
)
    requires
        0 <= opened,
        opened + white <= text.len(),
        0 < token.len(),
        !is_white_space(token[0]),
        find_from(text, token, opened) is None,
    ensures
        block_behind(text, at, opened, white, token) is None,
    decreases white + 1,
{
    if 0 <= white {
        lemma_find_from(text, token, opened);
        lemma_find_from(text, token, opened + white);
        lemma_content_end(text, opened + white, token);
        lemma_block_not_closed(text, at, opened, white - 1, token);
    }
}

/// A block goes from its start token to the next end token, and its content is what stands between
/// the tokens, trimmed; without an end token there is no block.
pub proof fn lemma_block_content(text: Seq<char>, at: int, config: DsmlParserConfig)
    requires
        0 < config.function_calls_end@.len(),
        !is_white_space(config.function_calls_end@[0]),
        token_at(text, at, config.function_calls_start@),
    ensures
        ({
            let opened = at + config.function_calls_start@.len();
            match find_from(text, config.function_calls_end@, opened) {
                Some(end_start) => block_at(text, at, config) matches Some(span) && {
                    &&& span.at == at
                    &&& span.end == end_start + config.function_calls_end@.len()
                    &&& opened <= span.content_start <= span.content_end <= end_start
                    &&& text.subrange(span.content_start, span.content_end) == trim(
                        text.subrange(opened, end_start),
                    )
                },
                None => block_at(text, at, config) is None,
            }
        }),
{
    let end = config.function_calls_end@;
    let opened = at + config.function_calls_start@.len();
    let start = white_end(text, opened);
    lemma_white_end(text, opened);
    lemma_find_from(text, end, opened);
    match find_from(text, end, opened) {
        Some(end_start) => {
            assert(text.subrange(end_start, end_start + end.len())[0] == text[end_start]);
            assert(start <= end_start);
            lemma_find_from_later(text, end, opened, start);
            lemma_content_end(text, start, end);
            lemma_white_start(text, end_start);
            let stop = if white_start(text, end_start) < start {
                start
            } else {
                white_start(text, end_start)
            };
            let before = text.subrange(opened, start);
            let content = text.subrange(start, stop);
            let behind = text.subrange(stop, end_start);
            assert(text.subrange(opened, end_start) == before + content + behind);
            if start < stop {
                assert(content[0] == text[start]);
                assert(content.last() == text[stop - 1]);
            }
            lemma_trim(before, content, behind);
        },
        None => {
            lemma_block_not_closed(text, at, opened, start - opened, end);
        },
    }
}

/// The next block begins at the next start token, if an end token follows.
pub proof fn lemma_next_block(text: Seq<char>, from: int, config: DsmlParserConfig)
    requires
        0 <= from,
        0 < config.function_calls_start@.len(),
        0 < config.function_calls_end@.len(),
        !is_white_space(config.function_calls_end@[0]),
    ensures
        next_block(text, from, config) == match find_from(
            text,
            config.function_calls_start@,
            from,
        ) {
            Some(at) => block_at(text, at, config),
            None => None,
        },
    decreases text.len() + 1 - from,
{
    let start = config.function_calls_start@;
    let end = config.function_calls_end@;
    if from <= text.len() {
        lemma_next_block(text, from + 1, config);
        lemma_find_from(text, start, from);
        if token_at(text, from, start) {
            lemma_block_content(text, from, config);
            if block_at(text, from, config) is None {
                // No end token follows, so no later start token begins a block either.
                let opened = from + start.len();
                lemma_find_from(text, end, opened);
                lemma_find_from(text, start, from + 1);
                if let Some(later) = find_from(text, start, from + 1) {
                    lemma_block_content(text, later, config);
                    lemma_find_from(text, end, later + start.len());
                }
            }
        }
    }
}

/// The end position cuts a stream between blocks: the calls of the whole are those of what stands in
/// front of the position, which ends with the end token, and those of what follows.
pub proof fn lemma_end_position_cuts_between_blocks(chunk: Seq<char>, config: DsmlParserConfig)
    requires
        0 < config.function_calls_start@.len(),
        0 < config.function_calls_end@.len(),
        !is_white_space(config.function_calls_end@[0]),
        stand_apart(config.function_calls_start@, config.function_calls_end@),
        contains(chunk, config.function_calls_end@),
    ensures
        ({
            let cut = block_end(chunk, config.function_calls_end@);
            &&& 0 <= cut <= chunk.len()
            &&& ends_with(chunk.take(cut), config.function_calls_end@)
            &&& calls_in_text(chunk, config) == calls_in_text(chunk.take(cut), config)
                + calls_in_text(chunk.skip(cut), config)
        }),
{
    let start = config.function_calls_start@;
    let end = config.function_calls_end@;
    let cut = block_end(chunk, end);
    let front = chunk.take(cut);
    let none = Seq::<Seq<char>>::empty();
    lemma_find_from(chunk, end, 0);
    let end_start = find_from(chunk, end, 0)->0;
    lemma_token_at_take(chunk, cut, end, end_start);
    lemma_blocks_skip(chunk, cut, 0, config);
    lemma_find_from(chunk, start, 0);
    lemma_find_from_take(chunk, cut, start, 0);
    lemma_next_block(chunk, 0, config);
    lemma_next_block(front, 0, config);
    let found = find_from(chunk, start, 0);
    if found is Some && found->0 < cut {
        let at = found->0;
        let opened = at + start.len();
        lemma_begins_not_inside(chunk, end, end_start, start, at);
        lemma_begins_not_inside(chunk, start, at, end, end_start);
        lemma_find_from_later(chunk, end, 0, opened);
        lemma_find_from_take(chunk, cut, end, opened);
        lemma_block_content(chunk, at, config);
        lemma_token_at_take(chunk, cut, start, at);
        lemma_block_content(front, at, config);
        assert(front.subrange(opened, end_start) == chunk.subrange(opened, end_start));
        lemma_next_block(front, cut, config);
        lemma_find_from(front, start, cut);
        assert(blocks_from(front, cut, config) == none);
        let content = trim(chunk.subrange(opened, end_start));
        assert(blocks_from(front, 0, config) == seq![content]);
        assert(blocks_from(chunk, 0, config) == seq![content] + blocks_from(chunk, cut, config));
    } else {
        assert(blocks_from(front, 0, config) == none);
        lemma_next_block_later(chunk, 0, cut, config);
        lemma_next_block_inside(chunk, 0, config);
        lemma_next_block_inside(chunk, cut, config);
        assert(blocks_from(chunk, 0, config) == none + blocks_from(chunk, cut, config));
    }
    lemma_calls_in_both(
        blocks_from(front, 0, config),
        blocks_from(chunk.skip(cut), 0, config),
        config,
    );
}

} // verus!

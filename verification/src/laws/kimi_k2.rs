//! Laws of the Kimi K2 format.
use vstd::prelude::*;

use crate::config::KimiK2ParserConfig;
use crate::kimi_k2::{
    IdentifiedCall, Scan, calls_in, earliest_end, first_of, one_begins_in, scan_ends_from,
    scan_from, scan_of, section_end,
};
use crate::laws::streaming::lemma_undetected;
use crate::laws::tokens::{
    lemma_begins_not_inside, lemma_find_from_later, lemma_token_at_take, stand_apart,
};
use crate::text::{
    contains, ends_with, find_from, lemma_find_from, lemma_find_from_skip, token_at, trim,
};

verus! {

/// One of the tokens stands in `text` at `at`.
pub open spec fn one_at(text: Seq<char>, at: int, tokens: Seq<String>) -> bool {
    exists|i: int| 0 <= i < tokens.len() && token_at(text, at, (#[trigger] tokens[i])@)
}

/// One of the tokens that have this length stands in `text` at `at`.
pub open spec fn one_of_length_at(text: Seq<char>, at: int, len: int, tokens: Seq<String>) -> bool {
    exists|i: int|
        0 <= i < tokens.len() && token_at(text, at, (#[trigger] tokens[i])@) && tokens[i]@.len()
            == len
}

/// The first of the tokens stands where it was found, and none of them in front of it; where none is
/// found, none stands there.
pub proof fn lemma_first_of(text: Seq<char>, from: int, tokens: Seq<String>)
    requires
        0 <= from,
    ensures
        match first_of(text, from, tokens) {
            Some((at, len)) => {
                &&& from <= at
                &&& 0 <= len
                &&& at + len <= text.len()
                &&& one_of_length_at(text, at, len, tokens)
                &&& forall|before: int| from <= before < at ==> !one_at(text, before, tokens)
            },
            None => forall|at: int| from <= at ==> !one_at(text, at, tokens),
        },
    decreases tokens.len(),
{
    if 0 < tokens.len() {
        let shorter = tokens.drop_last();
        let last = tokens.last()@;
        let found = first_of(text, from, tokens);
        lemma_first_of(text, from, shorter);
        lemma_find_from(text, last, from);
        assert(tokens[tokens.len() - 1] == tokens.last());
        assert forall|i: int| 0 <= i < shorter.len() implies shorter[i] == tokens[i] by {}
        assert forall|at: int| one_at(text, at, tokens) == (one_at(text, at, shorter) || token_at(
            text,
            at,
            last,
        )) by {
            if one_at(text, at, shorter) {
                let i = choose|i: int|
                    0 <= i < shorter.len() && token_at(text, at, (#[trigger] shorter[i])@);
                assert(token_at(text, at, tokens[i]@));
            }
            if one_at(text, at, tokens) {
                let i = choose|i: int|
                    0 <= i < tokens.len() && token_at(text, at, (#[trigger] tokens[i])@);
                if i < shorter.len() {
                    assert(token_at(text, at, shorter[i]@));
                }
            }
            if token_at(text, at, last) {
                assert(token_at(text, at, tokens[tokens.len() - 1]@));
            }
        }
        if let Some((at, len)) = found {
            if one_of_length_at(text, at, len, shorter) {
                let i = choose|i: int|
                    0 <= i < shorter.len() && token_at(text, at, (#[trigger] shorter[i])@)
                        && shorter[i]@.len() == len;
                assert(token_at(text, at, tokens[i]@));
            }
            assert(one_of_length_at(text, at, len, tokens));
        }
    }
}

/// The place of the first of the tokens is the same from every place on that none of them stands in
/// front of.
proof fn lemma_first_of_later(text: Seq<char>, from: int, later: int, tokens: Seq<String>)
    requires
        0 <= from <= later,
        forall|at: int| from <= at < later ==> !one_at(text, at, tokens),
    ensures
        first_of(text, from, tokens) == first_of(text, later, tokens),
    decreases tokens.len(),
{
    if 0 < tokens.len() {
        let shorter = tokens.drop_last();
        let last = tokens.last()@;
        assert forall|at: int| from <= at < later implies !one_at(text, at, shorter) && !token_at(
            text,
            at,
            last,
        ) by {
            assert(!one_at(text, at, tokens));
            if one_at(text, at, shorter) {
                let i = choose|i: int|
                    0 <= i < shorter.len() && token_at(text, at, (#[trigger] shorter[i])@);
                assert(token_at(text, at, tokens[i]@));
            }
            if token_at(text, at, last) {
                assert(token_at(text, at, tokens[tokens.len() - 1]@));
            }
        }
        lemma_first_of_later(text, from, later, shorter);
        lemma_find_from_later(text, last, from, later);
    }
}

/// The first of the tokens in the rest of a text is the first in the text from there on.
proof fn lemma_first_of_skip(text: Seq<char>, skipped: int, from: int, tokens: Seq<String>)
    requires
        0 <= skipped <= text.len(),
        0 <= from,
    ensures
        first_of(text, skipped + from, tokens) == match first_of(
            text.skip(skipped),
            from,
            tokens,
        ) {
            Some((at, len)) => Some((skipped + at, len)),
            None => None,
        },
    decreases tokens.len(),
{
    if 0 < tokens.len() {
        lemma_first_of_skip(text, skipped, from, tokens.drop_last());
        lemma_find_from_skip(text, tokens.last()@, skipped, from);
    }
}

/// Scanning the rest of a text is scanning the text from there on.
pub proof fn lemma_scan_skip(
    text: Seq<char>,
    skipped: int,
    cursor: int,
    config: KimiK2ParserConfig,
)
    requires
        0 <= skipped <= text.len(),
        0 <= cursor,
    ensures
        scan_from(text, skipped + cursor, config) == scan_from(text.skip(skipped), cursor, config),
        scan_ends_from(text, skipped + cursor, config) == scan_ends_from(
            text.skip(skipped),
            cursor,
            config,
        ),
    decreases text.len() - cursor,
{
    let rest = text.skip(skipped);
    if skipped + cursor < text.len() {
        lemma_first_of_skip(text, skipped, cursor, config.section_start_variants@);
        lemma_first_of(rest, cursor, config.section_start_variants@);
        assert(text.skip(skipped + cursor) == rest.skip(cursor));
        if let Some((start, _)) = first_of(rest, cursor, config.section_start_variants@) {
            lemma_first_of_skip(text, skipped, start, config.section_end_variants@);
            lemma_first_of(rest, start, config.section_end_variants@);
            let end = section_end(rest, start, config);
            if cursor < end <= rest.len() {
                lemma_scan_skip(text, skipped, end, config);
                assert(text.subrange(skipped + cursor, skipped + start) == rest.subrange(
                    cursor,
                    start,
                ));
                assert(text.subrange(skipped + start, skipped + end) == rest.subrange(start, end));
            }
        }
    }
}

/// A message without a token that opens a section has no section.
pub proof fn lemma_no_start_no_sections(message: Seq<char>, config: KimiK2ParserConfig)
    requires
        forall|i: int|
            0 <= i < config.section_start_variants@.len() ==> !contains(
                message,
                (#[trigger] config.section_start_variants@[i])@,
            ),
    ensures
        scan_of(message, config).sections == Seq::<Seq<char>>::empty(),
        scan_of(message, config).normal == message,
{
    let tokens = config.section_start_variants@;
    lemma_first_of(message, 0, tokens);
    if let Some((at, len)) = first_of(message, 0, tokens) {
        let i = choose|i: int|
            0 <= i < tokens.len() && token_at(message, at, (#[trigger] tokens[i])@)
                && tokens[i]@.len() == len;
        assert(contains(message, tokens[i]@));
    }
    assert(message.skip(0) == message);
    if message.len() == 0 {
        assert(message == Seq::<char>::empty());
    }
}

/// A message without a token that opens a section has no calls, and nothing but the white space
/// around it is taken from it.
pub proof fn lemma_no_start_no_calls(message: Seq<char>, config: KimiK2ParserConfig)
    requires
        forall|i: int|
            0 <= i < config.section_start_variants@.len() ==> !contains(
                message,
                (#[trigger] config.section_start_variants@[i])@,
            ),
    ensures
        calls_in(scan_of(message, config).sections, config).len() == 0,
        trim(scan_of(message, config).normal) == trim(message),
{
    lemma_no_start_no_sections(message, config);
}

/// A chunk in which no start is detected is plain text, whatever follows: the message that begins
/// with it has the calls of what follows, and its text is the chunk and the text of what follows.
pub proof fn lemma_undetected_chunk_is_text(
    chunk: Seq<char>,
    rest: Seq<char>,
    config: KimiK2ParserConfig,
)
    requires
        !one_begins_in(
            chunk,
            config.section_start_variants@,
            config.section_start_variants@.len() as int,
        ),
        scan_ends_from(chunk + rest, 0, config),
    ensures
        scan_of(chunk + rest, config).sections == scan_of(rest, config).sections,
        scan_of(chunk + rest, config).normal == chunk + scan_of(rest, config).normal,
{
    let text = chunk + rest;
    let cut = chunk.len() as int;
    let tokens = config.section_start_variants@;
    assert forall|at: int| 0 <= at < cut implies !one_at(text, at, tokens) by {
        if one_at(text, at, tokens) {
            let i = choose|i: int|
                0 <= i < tokens.len() && token_at(text, at, (#[trigger] tokens[i])@);
            lemma_undetected(chunk, rest, tokens[i]@);
        }
    }
    lemma_first_of_later(text, 0, cut, tokens);
    lemma_first_of(text, cut, tokens);
    assert(text.skip(cut) == rest);
    assert(text.skip(0) == text);
    lemma_scan_skip(text, cut, 0, config);
    match first_of(text, cut, tokens) {
        Some((start, len)) => {
            lemma_first_of(text, start, config.section_end_variants@);
            assert(text.subrange(0, start) == chunk + text.subrange(cut, start));
            let i = choose|i: int|
                0 <= i < tokens.len() && token_at(text, start, (#[trigger] tokens[i])@)
                    && tokens[i]@.len() == len;
            if len == 0 {
                // An empty token is detected everywhere.
                assert(chunk.subrange(0, 0) == tokens[i]@);
                assert(token_at(chunk, 0, tokens[i]@));
                assert(contains(chunk, tokens[i]@));
            }
            lemma_section_moves_on(text, cut, start, config);
        },
        None => {
            if cut == text.len() {
                assert(rest == Seq::<char>::empty());
            }
        },
    }
}

/// Where the scan of the whole ends, the section that is found from a place on moves the scan behind
/// that place, unless both its tokens are empty.
proof fn lemma_section_moves_on(text: Seq<char>, cut: int, start: int, config: KimiK2ParserConfig)
    requires
        0 <= cut <= start < text.len(),
        scan_ends_from(text, 0, config),
        first_of(text, 0, config.section_start_variants@) matches Some((at, _)) && at == start,
        first_of(text, cut, config.section_start_variants@) matches Some((at, _)) && at == start,
    ensures
        cut < section_end(text, start, config) <= text.len(),
{
    let end = section_end(text, start, config);
    lemma_first_of(text, start, config.section_end_variants@);
    if end <= cut {
        // An empty end token at the start of the section: the scan would stand still there.
        assert(end == start && start == cut);
        assert(scan_ends_from(text, end, config));
    }
}

/// Where every token that closes a section has a character, the scan of every message ends.
pub proof fn lemma_scan_ends(text: Seq<char>, cursor: int, config: KimiK2ParserConfig)
    requires
        0 <= cursor,
        forall|i: int|
            0 <= i < config.section_end_variants@.len() ==> 0 < (
            #[trigger] config.section_end_variants@[i])@.len(),
    ensures
        scan_ends_from(text, cursor, config),
    decreases text.len() - cursor,
{
    if cursor < text.len() {
        lemma_first_of(text, cursor, config.section_start_variants@);
        if let Some((start, len)) = first_of(text, cursor, config.section_start_variants@) {
            lemma_first_of(text, start, config.section_end_variants@);
            lemma_scan_ends(text, section_end(text, start, config), config);
        }
    }
}

/// A section that nothing closes goes on to the end of the message, and what stands in front of it
/// is the text.
pub proof fn lemma_unclosed_section(message: Seq<char>, start: int, config: KimiK2ParserConfig)
    requires
        start < message.len(),
        first_of(message, 0, config.section_start_variants@) matches Some((at, _)) && at == start,
        forall|at: int| start <= at ==> !one_at(message, at, config.section_end_variants@),
    ensures
        scan_of(message, config).sections == seq![message.skip(start)],
        scan_of(message, config).normal == message.take(start),
{
    lemma_first_of(message, 0, config.section_start_variants@);
    lemma_first_of(message, start, config.section_end_variants@);
    if let Some((at, len)) = first_of(message, start, config.section_end_variants@) {
        let tokens = config.section_end_variants@;
        let i = choose|i: int|
            0 <= i < tokens.len() && token_at(message, at, (#[trigger] tokens[i])@)
                && tokens[i]@.len() == len;
        assert(one_at(message, at, tokens));
    }
    assert(message.subrange(start, message.len() as int) == message.skip(start));
    assert(message.subrange(0, start) == message.take(start));
    let rest = scan_from(message, message.len() as int, config);
    assert(rest.sections == Seq::<Seq<char>>::empty());
    assert(rest.normal == Seq::<char>::empty());
    assert(seq![message.skip(start)] + rest.sections == seq![message.skip(start)]);
    assert(message.take(start) + rest.normal == message.take(start));
}

/// The tokens of sections can be told from each other: each has a character, those that open and
/// those that close sections overlap in no text, and neither do two different ones that close.
pub open spec fn sections_distinguishable(config: KimiK2ParserConfig) -> bool {
    let starts = config.section_start_variants@;
    let ends = config.section_end_variants@;
    &&& forall|i: int| 0 <= i < starts.len() ==> 0 < (#[trigger] starts[i])@.len()
    &&& forall|i: int| 0 <= i < ends.len() ==> 0 < (#[trigger] ends[i])@.len()
    &&& forall|i: int, j: int|
        0 <= i < starts.len() && 0 <= j < ends.len() ==> stand_apart(
            (#[trigger] starts[i])@,
            (#[trigger] ends[j])@,
        )
    &&& forall|i: int, j: int|
        0 <= i < ends.len() && 0 <= j < ends.len() ==> (#[trigger] ends[i])@ == (
        #[trigger] ends[j])@ || stand_apart(ends[i]@, ends[j]@)
}

/// The least end of the tokens is the end of one of them, and none of them ends, where it first
/// stands, in front of it.
pub proof fn lemma_earliest_end(text: Seq<char>, tokens: Seq<String>)
    ensures
        match earliest_end(text, tokens) {
            Some(end) => {
                &&& exists|i: int|
                    0 <= i < tokens.len() && find_from(text, (#[trigger] tokens[i])@, 0) is Some
                        && find_from(text, tokens[i]@, 0)->0 + tokens[i]@.len() == end
                &&& forall|i: int|
                    0 <= i < tokens.len() && find_from(text, (#[trigger] tokens[i])@, 0) is Some
                        ==> end <= find_from(text, tokens[i]@, 0)->0 + tokens[i]@.len()
            },
            None => forall|i: int|
                0 <= i < tokens.len() ==> find_from(text, (#[trigger] tokens[i])@, 0) is None,
        },
    decreases tokens.len(),
{
    if 0 < tokens.len() {
        let shorter = tokens.drop_last();
        lemma_earliest_end(text, shorter);
        assert(tokens[tokens.len() - 1] == tokens.last());
        assert forall|i: int| 0 <= i < shorter.len() implies shorter[i] == tokens[i] by {}
        if let Some(end) = earliest_end(text, shorter) {
            let i = choose|i: int|
                0 <= i < shorter.len() && find_from(text, (#[trigger] shorter[i])@, 0) is Some
                    && find_from(text, shorter[i]@, 0)->0 + shorter[i]@.len() == end;
            assert(tokens[i] == shorter[i]);
        }
    }
}

/// Where tokens can be told from each other, the first of them ends first.
proof fn lemma_first_ends_first(text: Seq<char>, config: KimiK2ParserConfig)
    requires
        sections_distinguishable(config),
    ensures
        earliest_end(text, config.section_end_variants@) == match first_of(
            text,
            0,
            config.section_end_variants@,
        ) {
            Some((at, len)) => Some(at + len),
            None => None,
        },
{
    let tokens = config.section_end_variants@;
    lemma_earliest_end(text, tokens);
    lemma_first_of(text, 0, tokens);
    match first_of(text, 0, tokens) {
        Some((at, len)) => {
            let j = choose|j: int|
                0 <= j < tokens.len() && token_at(text, at, (#[trigger] tokens[j])@)
                    && tokens[j]@.len() == len;
            lemma_find_from(text, tokens[j]@, 0);
            let found = find_from(text, tokens[j]@, 0)->0;
            if found < at {
                assert(token_at(text, found, tokens[j]@));
                assert(one_at(text, found, tokens));
            }
            let end = earliest_end(text, tokens)->0;
            let i = choose|i: int|
                0 <= i < tokens.len() && find_from(text, (#[trigger] tokens[i])@, 0) is Some
                    && find_from(text, tokens[i]@, 0)->0 + tokens[i]@.len() == end;
            lemma_find_from(text, tokens[i]@, 0);
            let other = find_from(text, tokens[i]@, 0)->0;
            if other < at {
                assert(token_at(text, other, tokens[i]@));
                assert(one_at(text, other, tokens));
            }
            if tokens[i]@ != tokens[j]@ {
                assert(stand_apart(tokens[i]@, tokens[j]@));
                lemma_begins_not_inside(text, tokens[j]@, at, tokens[i]@, other);
            }
        },
        None => {
            if earliest_end(text, tokens) is Some {
                let end = earliest_end(text, tokens)->0;
                let i = choose|i: int|
                    0 <= i < tokens.len() && find_from(text, (#[trigger] tokens[i])@, 0) is Some
                        && find_from(text, tokens[i]@, 0)->0 + tokens[i]@.len() == end;
                lemma_find_from(text, tokens[i]@, 0);
                let other = find_from(text, tokens[i]@, 0)->0;
                assert(token_at(text, other, tokens[i]@));
                assert(one_at(text, other, tokens));
            }
        },
    }
}

/// The calls of some sections and then of others are the calls of all of them.
pub proof fn lemma_calls_in_both(
    first: Seq<Seq<char>>,
    second: Seq<Seq<char>>,
    config: KimiK2ParserConfig,
)
    ensures
        calls_in(first + second, config) == calls_in(first, config) + calls_in(second, config),
    decreases second.len(),
{
    if second.len() == 0 {
        assert(first + second == first);
        assert(calls_in(first, config) + Seq::<IdentifiedCall>::empty() == calls_in(first, config));
    } else {
        assert((first + second).drop_last() == first + second.drop_last());
        lemma_calls_in_both(first, second.drop_last(), config);
    }
}

/// A token that closes a section ends in the front of a text that is cut behind it.
proof fn lemma_first_end_in_front(
    text: Seq<char>,
    cut: int,
    from: int,
    config: KimiK2ParserConfig,
)
    requires
        sections_distinguishable(config),
        0 <= from,
        0 <= cut <= text.len(),
        first_of(text, from, config.section_end_variants@) matches Some((at, len)) && at + len
            == cut,
    ensures
        first_of(text.take(cut), from, config.section_end_variants@) == first_of(
            text,
            from,
            config.section_end_variants@,
        ),
{
    let tokens = config.section_end_variants@;
    let front = text.take(cut);
    let (at, len) = first_of(text, from, tokens)->0;
    lemma_first_of(text, from, tokens);
    lemma_first_of(front, from, tokens);
    let j = choose|j: int|
        0 <= j < tokens.len() && token_at(text, at, (#[trigger] tokens[j])@) && tokens[j]@.len()
            == len;
    lemma_token_at_take(text, cut, tokens[j]@, at);
    assert(one_at(front, at, tokens));
    let (other, other_len) = first_of(front, from, tokens)->0;
    let i = choose|i: int|
        0 <= i < tokens.len() && token_at(front, other, (#[trigger] tokens[i])@)
            && tokens[i]@.len() == other_len;
    lemma_token_at_take(text, cut, tokens[i]@, other);
    assert(one_at(text, other, tokens));
    assert(other == at);
    if tokens[i]@ != tokens[j]@ {
        assert(stand_apart(tokens[i]@, tokens[j]@));
        lemma_begins_not_inside(text, tokens[j]@, at, tokens[i]@, other);
    }
}

/// The end position cuts a stream between sections: what stands in front of it ends with a token
/// that closes a section, and the calls of the whole are those of what stands in front of the
/// position and those of what follows, and so is the text.
pub proof fn lemma_end_position_cuts_between_sections(
    chunk: Seq<char>,
    cut: int,
    config: KimiK2ParserConfig,
)
    requires
        sections_distinguishable(config),
        earliest_end(chunk, config.section_end_variants@) == Some(cut),
    ensures
        0 <= cut <= chunk.len(),
        exists|i: int|
            0 <= i < config.section_end_variants@.len() && ends_with(
                chunk.take(cut),
                (#[trigger] config.section_end_variants@[i])@,
            ),
        ({
            let whole = scan_of(chunk, config);
            let front = scan_of(chunk.take(cut), config);
            let rest = scan_of(chunk.skip(cut), config);
            &&& whole.normal == front.normal + rest.normal
            &&& whole.sections == front.sections + rest.sections
            &&& calls_in(whole.sections, config) == calls_in(front.sections, config) + calls_in(
                rest.sections,
                config,
            )
        }),
{
    let starts = config.section_start_variants@;
    let ends = config.section_end_variants@;
    let front = chunk.take(cut);
    lemma_first_ends_first(chunk, config);
    lemma_first_of(chunk, 0, ends);
    let (end_start, end_len) = first_of(chunk, 0, ends)->0;
    let j = choose|j: int|
        0 <= j < ends.len() && token_at(chunk, end_start, (#[trigger] ends[j])@) && ends[j]@.len()
            == end_len;
    lemma_token_at_take(chunk, cut, ends[j]@, end_start);
    assert(ends_with(front, ends[j]@));
    lemma_scan_skip(chunk, cut, 0, config);
    assert(chunk.skip(0) == chunk);
    assert(front.skip(0) == front);
    lemma_first_of(chunk, 0, starts);
    lemma_first_of(front, 0, starts);
    let found = first_of(chunk, 0, starts);
    if found is Some && (found->0).0 < cut {
        let (start, start_len) = found->0;
        let i = choose|i: int|
            0 <= i < starts.len() && token_at(chunk, start, (#[trigger] starts[i])@)
                && starts[i]@.len() == start_len;
        assert(stand_apart(starts[i]@, ends[j]@));
        lemma_begins_not_inside(chunk, ends[j]@, end_start, starts[i]@, start);
        lemma_begins_not_inside(chunk, starts[i]@, start, ends[j]@, end_start);
        lemma_first_of_later(chunk, 0, start, ends);
        lemma_first_end_in_front(chunk, cut, start, config);
        lemma_token_at_take(chunk, cut, starts[i]@, start);
        assert(one_at(front, start, starts));
        let (other, other_len) = first_of(front, 0, starts)->0;
        let k = choose|k: int|
            0 <= k < starts.len() && token_at(front, other, (#[trigger] starts[k])@)
                && starts[k]@.len() == other_len;
        lemma_token_at_take(chunk, cut, starts[k]@, other);
        assert(one_at(chunk, other, starts));
        assert(other == start);
        assert(front.subrange(0, start) == chunk.subrange(0, start));
        assert(front.subrange(start, cut) == chunk.subrange(start, cut));
        assert(scan_from(front, cut, config) == (Scan {
            normal: Seq::empty(),
            sections: Seq::empty(),
        }));
        let section = chunk.subrange(start, cut);
        assert(scan_of(front, config).sections == seq![section]);
        assert(scan_of(front, config).normal == chunk.subrange(0, start));
        assert(scan_of(chunk, config).sections == seq![section] + scan_from(
            chunk,
            cut,
            config,
        ).sections);
    } else {
        if first_of(front, 0, starts) is Some {
            let (other, other_len) = first_of(front, 0, starts)->0;
            let k = choose|k: int|
                0 <= k < starts.len() && token_at(front, other, (#[trigger] starts[k])@)
                    && starts[k]@.len() == other_len;
            lemma_token_at_take(chunk, cut, starts[k]@, other);
            assert(one_at(chunk, other, starts));
        }
        assert(scan_of(front, config).normal == front);
        assert(scan_of(front, config).sections == Seq::<Seq<char>>::empty());
        lemma_first_of_later(chunk, 0, cut, starts);
        if found is Some {
            let (start, start_len) = found->0;
            lemma_first_of(chunk, start, ends);
            let i = choose|i: int|
                0 <= i < starts.len() && token_at(chunk, start, (#[trigger] starts[i])@)
                    && starts[i]@.len() == start_len;
            assert(0 < starts[i]@.len());
            if let Some((at, len)) = first_of(chunk, start, ends) {
                let m = choose|m: int|
                    0 <= m < ends.len() && token_at(chunk, at, (#[trigger] ends[m])@)
                        && ends[m]@.len() == len;
                assert(0 < ends[m]@.len());
            }
            assert(chunk.subrange(0, start) == front + chunk.subrange(cut, start));
            assert(scan_of(chunk, config).normal == front + scan_from(chunk, cut, config).normal);
        } else {
            assert(chunk == front + chunk.skip(cut));
            if cut == chunk.len() {
                assert(chunk.skip(cut) == Seq::<char>::empty());
            }
        }
        assert(Seq::<Seq<char>>::empty() + scan_from(chunk, cut, config).sections == scan_from(
            chunk,
            cut,
            config,
        ).sections);
    }
    lemma_calls_in_both(
        scan_of(front, config).sections,
        scan_of(chunk.skip(cut), config).sections,
        config,
    );
}

} // verus!

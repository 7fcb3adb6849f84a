//! Laws of results as they are handed out: names and bodies, positions, patterns, and what can be
//! parsed and detected.
use vstd::prelude::*;
use vstd::utf8::is_ascii_chars;

use crate::config::XmlParserConfig;
use crate::dsml::{self, ParsedElement};
use crate::kimi_k2::raw_call_views;
use crate::pattern::{Part, call_pattern_of, escaped, pattern_of};
use crate::stream::{detection_cuts_cleanly, token_begins_in};
use crate::text::{contains, position, token_at};
use crate::xml::{self, scan_ends};

verus! {

/// Names and bodies in XML style are handed out as they are.
pub proof fn lemma_xml_elements_are_handed_out(elements: Seq<(String, String)>)
    ensures
        xml::element_views(elements).len() == elements.len(),
        forall|i: int|
            0 <= i < elements.len() ==> {
                &&& (#[trigger] xml::element_views(elements)[i]).0 == elements[i].0@
                &&& xml::element_views(elements)[i].1 == elements[i].1@
            },
{
}

/// Names, marks and bodies in DSML are handed out as they are.
pub proof fn lemma_dsml_elements_are_handed_out(elements: Seq<ParsedElement>)
    ensures
        dsml::element_views(elements).len() == elements.len(),
        forall|i: int|
            0 <= i < elements.len() ==> {
                &&& (#[trigger] dsml::element_views(elements)[i]).name == elements[i].name@
                &&& dsml::element_views(elements)[i].is_string == elements[i].is_string
                &&& dsml::element_views(elements)[i].body == elements[i].body@
            },
{
}

/// The contents of blocks are handed out as they are.
pub proof fn lemma_blocks_are_handed_out(blocks: Seq<String>)
    ensures
        dsml::content_views(blocks).len() == blocks.len(),
        forall|i: int|
            0 <= i < blocks.len() ==> #[trigger] dsml::content_views(blocks)[i] == blocks[i]@,
        xml::block_views(blocks).len() == blocks.len(),
        forall|i: int|
            0 <= i < blocks.len() ==> #[trigger] xml::block_views(blocks)[i] == blocks[i]@,
{
}

/// The ids and objects of calls are handed out as they are.
pub proof fn lemma_raw_calls_are_handed_out(calls: Seq<(String, String)>)
    ensures
        raw_call_views(calls).len() == calls.len(),
        forall|i: int|
            0 <= i < calls.len() ==> {
                &&& (#[trigger] raw_call_views(calls)[i]).0 == calls[i].0@
                &&& raw_call_views(calls)[i].1 == calls[i].1@
            },
{
}

/// A position is handed out as it is.
pub proof fn lemma_positions_are_handed_out(at: usize)
    ensures
        position(Some(at)) == Some(at as int),
        position(None) is None,
{
}

/// The tokens of a part stand in its pattern in their order, escaped and otherwise as they are, and
/// nothing else in the pattern depends on them.
pub proof fn lemma_patterns_hold_their_tokens(part: Part, open: Seq<char>, close: Seq<char>)
    ensures
        pattern_of(part, open, close) == "(?s)"@ + escaped(open) + (match part {
            Part::XmlElement => "([^>]+)>(.*?)(?:"@,
            Part::DsmlBlock => "\\s*(.*?)\\s*"@,
            Part::DsmlInvoke => "\\\"([^\"]+)\\\"\\s*>(.*?)"@,
            Part::DsmlParameter => {
                "\\\"([^\"]+)\\\"\\s+string=\\\"(true|false)\\\"\\s*>(.*?)"@
            },
        }) + escaped(close) + (if part == Part::XmlElement {
            "|$)"@
        } else {
            ""@
        }),
{
}

/// The tokens of a call stand in its pattern in their order, escaped and otherwise as they are, and
/// nothing else in the pattern depends on them.
pub proof fn lemma_call_pattern_holds_its_tokens(
    start: Seq<char>,
    begin: Seq<char>,
    end: Seq<char>,
)
    ensures
        call_pattern_of(start, begin, end) == "(?s)"@ + escaped(start)
            + "\\s*(?P<function_id>[\\w.\\-]+:\\d+)\\s*"@ + escaped(begin)
            + "\\s*(?P<arguments>\\{.*?\\})\\s*"@ + escaped(end),
{
}

/// Escaping goes character by character: each is kept, and some get a backslash in front.
pub proof fn lemma_escaped_piece_by_piece(first: Seq<char>, second: Seq<char>, c: char)
    ensures
        escaped(first + second) == escaped(first) + escaped(second),
        escaped(seq![c]) == seq![c] || escaped(seq![c]) == seq!['\\', c],
    decreases second.len(),
{
    let one = seq![c];
    assert(one.drop_last() == Seq::<char>::empty());
    assert(escaped(one.drop_last()) == Seq::<char>::empty());
    assert(escaped(one) =~= seq![c] || escaped(one) =~= seq!['\\', c]);
    if second.len() == 0 {
        assert(first + second == first);
        assert(escaped(first) + escaped(second) == escaped(first));
    } else {
        lemma_escaped_piece_by_piece(first, second.drop_last(), c);
        assert((first + second).drop_last() == first + second.drop_last());
        assert((first + second).last() == second.last());
        assert(escaped(first + second) =~= escaped(first) + escaped(second));
    }
}

/// Every message can be parsed with an end token that has a character; with an empty one, exactly the
/// messages that are empty or hold no start token.
pub proof fn lemma_what_can_be_parsed(message: Seq<char>, config: XmlParserConfig)
    ensures
        0 < config.tool_call_end_token@.len() ==> scan_ends(message, config),
        config.tool_call_end_token@.len() == 0 ==> (scan_ends(message, config) <==> message.len()
            == 0 || !contains(message, config.tool_call_start_token@)),
{
}

/// A token of ASCII characters can be detected in every chunk, and any token in a chunk that holds it;
/// what can be detected in no other way is begun, at the end of the chunk, by ASCII characters.
pub proof fn lemma_what_can_be_detected(chunk: Seq<char>, token: Seq<char>)
    ensures
        is_ascii_chars(token) ==> detection_cuts_cleanly(chunk, token),
        contains(chunk, token) ==> detection_cuts_cleanly(chunk, token),
        detection_cuts_cleanly(chunk, token) && !is_ascii_chars(token) ==> token_begins_in(
            chunk,
            token,
        ),
        forall|n: int|
            1 <= n < token.len() && n <= chunk.len() && is_ascii_chars(#[trigger] token.take(n))
                && token_at(chunk, chunk.len() - n, token.take(n)) ==> detection_cuts_cleanly(
                chunk,
                token,
            ),
{
    assert forall|n: int|
        1 <= n < token.len() && n <= chunk.len() && is_ascii_chars(#[trigger] token.take(n))
            && token_at(chunk, chunk.len() - n, token.take(n)) implies detection_cuts_cleanly(
        chunk,
        token,
    ) by {
        assert(crate::text::ends_with(chunk, token.take(n)));
    }
}

} // verus!

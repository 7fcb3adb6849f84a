//! Reasoning parsers, which part the reasoning of a model from its answer.
use vstd::prelude::*;

verus! {

/// What a reasoning parser makes of a text.
#[derive(Debug, Clone, PartialEq, Eq)]
pub struct ParserResult {
    /// The text that belongs to the answer.
    pub normal_text: String,
    /// The text that belongs to the reasoning.
    pub reasoning_text: String,
}

/// A parser that parts reasoning from the answer, in a whole text or chunk by chunk.
pub trait ReasoningParser {
    /// Parts a whole text.
    fn detect_and_parse_reasoning(&mut self, text: &str, _token_ids: &[u32]) -> (result:
        ParserResult);

    /// Parts the next chunk of a stream.
    fn parse_reasoning_streaming_incremental(&mut self, text: &str, _token_ids: &[u32]) -> (result:
        ParserResult);
}

/// The parser of the MiniMax models.
///
/// These models begin to reason without an opening `<think>`. The parser puts it in front of the
/// text, once for a stream, and passes everything on as the answer; it never reports reasoning.
#[derive(Debug)]
pub struct MiniMaxAppendThinkParser {
    /// Whether a chunk of the stream has been given the `<think>`.
    prefix_emitted: bool,
}

impl MiniMaxAppendThinkParser {
    /// A chunk of the stream has been given the `<think>`.
    pub closed spec fn has_started(&self) -> bool {
        self.prefix_emitted
    }

    /// A parser at the start of a stream.
    pub fn new() -> (parser: MiniMaxAppendThinkParser)
        ensures
            !parser.has_started(),
    {
        MiniMaxAppendThinkParser::default()
    }
}

impl Default for MiniMaxAppendThinkParser {
    fn default() -> (parser: MiniMaxAppendThinkParser)
        ensures
            !parser.has_started(),
    {
        MiniMaxAppendThinkParser { prefix_emitted: false }
    }
}

/// `text` behind `<think>`.
fn with_think(text: &str) -> (prefixed: String)
    ensures
        prefixed@ == "<think>"@ + text@,
{
    let mut prefixed = "<think>".to_owned();
    prefixed.append(text);
    prefixed
}

/// What a stream passes on for a chunk: the chunk, behind `<think>` if it is the first.
pub open spec fn passed_on(chunk: Seq<char>, started: bool) -> Seq<char> {
    if started {
        chunk
    } else {
        "<think>"@ + chunk
    }
}

impl ReasoningParser for MiniMaxAppendThinkParser {
    fn detect_and_parse_reasoning(&mut self, text: &str, _token_ids: &[u32]) -> (result:
        ParserResult)
        ensures
            *final(self) == *old(self),
            result.normal_text@ == "<think>"@ + text@,
            result.reasoning_text@ == ""@,
    {
        ParserResult { normal_text: with_think(text), reasoning_text: "".to_owned() }
    }

    fn parse_reasoning_streaming_incremental(&mut self, text: &str, _token_ids: &[u32]) -> (result:
        ParserResult)
        ensures
            final(self).has_started(),
            result.normal_text@ == passed_on(text@, old(self).has_started()),
            result.reasoning_text@ == ""@,
    {
        let normal_text = if self.prefix_emitted {
            text.to_owned()
        } else {
            self.prefix_emitted = true;
            with_think(text)
        };
        ParserResult { normal_text, reasoning_text: "".to_owned() }
    }
}

/// What a stream of chunks passes on, from its start or from a later chunk on.
pub open spec fn stream_passed_on(chunks: Seq<Seq<char>>, started: bool) -> Seq<char>
    decreases chunks.len(),
{
    if chunks.len() == 0 {
        Seq::empty()
    } else {
        passed_on(chunks[0], started) + stream_passed_on(chunks.drop_first(), true)
    }
}

/// The chunks of a stream, one behind the other.
pub open spec fn stream_text(chunks: Seq<Seq<char>>) -> Seq<char>
    decreases chunks.len(),
{
    if chunks.len() == 0 {
        Seq::empty()
    } else {
        chunks[0] + stream_text(chunks.drop_first())
    }
}

/// However a text is cut into chunks, the stream passes on what the whole text gives: the text
/// behind one `<think>`. Once it has started, it passes its chunks on unchanged.
pub proof fn lemma_stream_is_whole_text(chunks: Seq<Seq<char>>)
    ensures
        0 < chunks.len() ==> stream_passed_on(chunks, false) == "<think>"@ + stream_text(chunks),
        stream_passed_on(chunks, true) == stream_text(chunks),
    decreases chunks.len(),
{
    if 0 < chunks.len() {
        lemma_stream_is_whole_text(chunks.drop_first());
        assert(stream_passed_on(chunks, false) == "<think>"@ + stream_text(chunks));
    }
}

} // verus!

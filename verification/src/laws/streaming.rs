//! Laws of the detection of tokens in a stream.
use vstd::prelude::*;

use crate::stream::token_begins_in;
use crate::text::{contains, ends_with, token_at};

verus! {

/// A token that begins in a chunk of a stream is detected in that chunk, wherever the stream was
/// cut behind the token's first character.
pub proof fn lemma_token_is_detected(chunk: Seq<char>, rest: Seq<char>, token: Seq<char>, at: int)
    requires
        at < chunk.len(),
        token_at(chunk + rest, at, token),
    ensures
        token_begins_in(chunk, token),
{
    let stream = chunk + rest;
    if at + token.len() <= chunk.len() {
        assert(stream.subrange(at, at + token.len()) == chunk.subrange(at, at + token.len()));
        assert(token_at(chunk, at, token));
    } else {
        let n = chunk.len() - at;
        let begun = token.take(n);
        assert(stream.subrange(at, at + token.len()).take(n) == chunk.subrange(at, at + n));
        assert(ends_with(chunk, begun));
    }
}

/// Where no token is detected in a chunk, none begins in it, whatever follows.
pub proof fn lemma_undetected(chunk: Seq<char>, rest: Seq<char>, token: Seq<char>)
    requires
        !token_begins_in(chunk, token),
    ensures
        forall|at: int| at < chunk.len() ==> !token_at(chunk + rest, at, token),
{
    assert forall|at: int| at < chunk.len() implies !token_at(chunk + rest, at, token) by {
        if token_at(chunk + rest, at, token) {
            lemma_token_is_detected(chunk, rest, token, at);
        }
    }
}

/// What is detected begins in the chunk: some stream that goes on from the chunk holds the token at
/// a place that lies in the chunk or, for an empty token, at its end.
pub proof fn lemma_detected(chunk: Seq<char>, token: Seq<char>) -> (found: (Seq<char>, int))
    requires
        token_begins_in(chunk, token),
    ensures
        token_at(chunk + found.0, found.1, token),
        found.1 <= chunk.len(),
        0 < token.len() ==> found.1 < chunk.len(),
{
    if contains(chunk, token) {
        let at = choose|at: int| token_at(chunk, at, token);
        assert(chunk + Seq::<char>::empty() == chunk);
        (Seq::empty(), at)
    } else {
        let n = choose|n: int|
            1 <= n < token.len() && ends_with(chunk, #[trigger] token.take(n));
        let rest = token.skip(n);
        let at = chunk.len() - n;
        assert(chunk.subrange(at, at + n) == token.take(n));
        assert((chunk + rest).subrange(at, at + token.len()) == token.take(n) + rest);
        assert(token.take(n) + rest == token);
        (rest, at)
    }
}

} // verus!

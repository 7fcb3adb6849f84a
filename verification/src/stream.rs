//! Detection of a token in a stream that arrives chunk by chunk.
use vstd::prelude::*;
use vstd::utf8::is_ascii_chars;

use crate::text::{contains, ends_with, find_token, has_token_at, lemma_find_from, to_chars};

verus! {

/// `token` stands in `chunk`, or `chunk` ends inside of a token that the next chunk may complete.
pub open spec fn token_begins_in(chunk: Seq<char>, token: Seq<char>) -> bool {
    ||| contains(chunk, token)
    ||| exists|n: int| 1 <= n < token.len() && ends_with(chunk, #[trigger] token.take(n))
}

/// `token` can be cut at every byte at which its detection looks at it: it is of ASCII characters, or
/// it is detected before its first other character.
pub open spec fn detection_cuts_cleanly(chunk: Seq<char>, token: Seq<char>) -> bool {
    ||| is_ascii_chars(token)
    ||| contains(chunk, token)
    ||| exists|n: int|
        1 <= n < token.len() && is_ascii_chars(#[trigger] token.take(n)) && ends_with(
            chunk,
            token.take(n),
        )
}

/// Whether `token` stands in `chunk` or `chunk` ends inside of it.
pub fn detects(chunk: &str, token: &str) -> (found: bool)
    ensures
        found == token_begins_in(chunk@, token@),
{
    let text = to_chars(chunk);
    let sought = to_chars(token);
    proof {
        lemma_find_from(chunk@, token@, 0);
    }
    if find_token(text.as_slice(), sought.as_slice(), 0).is_some() {
        return true;
    }
    let count = text.len();
    let mut prefix: Vec<char> = Vec::new();
    let mut n: usize = 1;
    while n < sought.len()
        invariant
            text@ == chunk@,
            count == text@.len(),
            sought@ == token@,
            prefix@ == token@.take(n - 1),
            1 <= n,
            n <= token@.len() || token@.len() == 0,
            !contains(chunk@, token@),
            forall|m: int| 1 <= m < n ==> !ends_with(chunk@, #[trigger] token@.take(m)),
        decreases token@.len() - n,
    {
        prefix.push(sought[n - 1]);
        assert(prefix@ == token@.take(n as int));
        if n <= count && has_token_at(text.as_slice(), count - n, prefix.as_slice()) {
            return true;
        }
        n += 1;
    }
    false
}

/// Whether `c` is an ASCII character.
fn is_ascii(c: char) -> (ascii: bool)
    ensures
        ascii == ('\0' <= c <= '\u{7f}'),
{
    c <= '\u{7f}'
}

/// Whether `token` can be cut at every byte at which its detection in `chunk` looks at it.
pub fn can_detect(chunk: &str, token: &str) -> (usable: bool)
    ensures
        usable == detection_cuts_cleanly(chunk@, token@),
{
    let text = to_chars(chunk);
    let sought = to_chars(token);
    proof {
        lemma_find_from(chunk@, token@, 0);
    }
    if token.is_ascii() || find_token(text.as_slice(), sought.as_slice(), 0).is_some() {
        return true;
    }
    let count = text.len();
    let mut prefix: Vec<char> = Vec::new();
    let mut n: usize = 1;
    while n < sought.len()
        invariant
            text@ == chunk@,
            count == text@.len(),
            sought@ == token@,
            prefix@ == token@.take(n - 1),
            is_ascii_chars(prefix@),
            1 <= n,
            n <= token@.len() || token@.len() == 0,
            !is_ascii_chars(token@),
            !contains(chunk@, token@),
            forall|m: int| 1 <= m < n ==> !ends_with(chunk@, #[trigger] token@.take(m)),
        decreases token@.len() - n,
    {
        let c = sought[n - 1];
        if !is_ascii(c) {
            assert forall|m: int| n <= m < token@.len() implies !is_ascii_chars(
                #[trigger] token@.take(m),
            ) by {
                assert(token@.take(m)[n - 1] == c);
            }
            return false;
        }
        let ghost before = prefix@;
        prefix.push(c);
        assert(prefix@ == token@.take(n as int));
        assert forall|i: int| 0 <= i < prefix@.len() implies '\0' <= #[trigger] prefix@[i]
            <= '\u{7f}' by {
            if i < before.len() {
                assert(prefix@[i] == before[i]);
            } else {
                assert(prefix@[i] == c);
            }
        }
        if n <= count && has_token_at(text.as_slice(), count - n, prefix.as_slice()) {
            return true;
        }
        n += 1;
    }
    false
}

} // verus!

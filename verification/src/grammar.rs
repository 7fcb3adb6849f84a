//! Pieces of the call formats that the formats share.
use vstd::prelude::*;

use crate::text::{has_token_at, skip_white, token_at, white_end};

verus! {

/// The position behind `token`, where it stands behind `white` or less characters of the white
/// space at `at`; the longest white space counts.
pub open spec fn behind_token(text: Seq<char>, at: int, white: int, token: Seq<char>) -> Option<int>
    decreases white + 1,
{
    if white < 0 {
        None
    } else if token_at(text, at + white, token) {
        Some(at + white + token.len())
    } else {
        behind_token(text, at, white - 1, token)
    }
}

/// The position behind `token`, where nothing but white space stands between it and `at`.
pub open spec fn closed_at(text: Seq<char>, at: int, token: Seq<char>) -> Option<int> {
    behind_token(text, at, white_end(text, at) - at, token)
}

/// A position behind a token lies in the text.
pub proof fn lemma_behind_token(text: Seq<char>, at: int, white: int, token: Seq<char>)
    requires
        0 <= at,
    ensures
        behind_token(text, at, white, token) matches Some(end) ==> at + token.len() <= end
            <= text.len(),
    decreases white + 1,
{
    if 0 <= white && !token_at(text, at + white, token) {
        lemma_behind_token(text, at, white - 1, token);
    }
}

/// The position behind `token`, where nothing but white space stands between it and `at`.
pub fn find_closed_at(text: &[char], at: usize, token: &[char]) -> (found: Option<usize>)
    requires
        at <= text@.len(),
    ensures
        match found {
            Some(end) => closed_at(text@, at as int, token@) == Some(end as int) && at + token@.len()
                <= end <= text@.len(),
            None => closed_at(text@, at as int, token@) is None,
        },
{
    let count = text.len();
    let mut place = skip_white(text, at);
    loop
        invariant
            count == text@.len(),
            at <= place <= count,
            closed_at(text@, at as int, token@) == behind_token(
                text@,
                at as int,
                place - at,
                token@,
            ),
        decreases place,
    {
        if has_token_at(text, place, token) {
            return Some(place + token.len());
        }
        if place == at {
            assert(behind_token(text@, at as int, -1, token@) is None);
            return None;
        }
        place -= 1;
    }
}

} // verus!

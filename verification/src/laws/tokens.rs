//! Tokens in texts that are put together of parts, or cut into parts.
use vstd::prelude::*;

use crate::grammar::{behind_token, closed_at};
use crate::text::{
    contains, find_from, is_white_space, lemma_find_from, lemma_find_from_is_first,
    lemma_token_at_skip, lemma_white_end, token_at, white_end,
};

verus! {

/// The first place of a token is the same from every place on that no token stands in front of.
pub proof fn lemma_find_from_later(text: Seq<char>, token: Seq<char>, from: int, later: int)
    requires
        0 <= from <= later,
        forall|at: int| from <= at < later ==> !token_at(text, at, token),
    ensures
        find_from(text, token, from) == find_from(text, token, later),
{
    lemma_find_from(text, token, from);
    lemma_find_from(text, token, later);
}

/// A token that stands in the front of a text stands in the text.
pub proof fn lemma_token_at_take(text: Seq<char>, cut: int, token: Seq<char>, at: int)
    requires
        0 <= cut <= text.len(),
    ensures
        token_at(text.take(cut), at, token) == (token_at(text, at, token) && at + token.len()
            <= cut),
{
    if 0 <= at && at + token.len() <= cut {
        assert(text.take(cut).subrange(at, at + token.len()) == text.subrange(
            at,
            at + token.len(),
        ));
    }
}

/// The first place of a token in the front of a text is its first place in the text, if the token
/// ends in that front.
pub proof fn lemma_find_from_take(text: Seq<char>, cut: int, token: Seq<char>, from: int)
    requires
        0 <= cut <= text.len(),
        0 <= from,
    ensures
        find_from(text.take(cut), token, from) == match find_from(text, token, from) {
            Some(at) => if at + token.len() <= cut {
                Some(at)
            } else {
                None
            },
            None => None,
        },
{
    let front = text.take(cut);
    lemma_find_from(text, token, from);
    lemma_find_from(front, token, from);
    assert forall|at: int| #[trigger]
        token_at(front, at, token) == (token_at(text, at, token) && at + token.len() <= cut) by {
        lemma_token_at_take(text, cut, token, at);
    }
    if let Some(at) = find_from(text, token, from) {
        lemma_token_at_take(text, cut, token, at);
        if at + token.len() <= cut {
            lemma_find_from_is_first(front, token, from, at);
        }
    }
}

/// Two tokens that overlap from the `k`-th character of `first` on differ in the `j`-th character
/// of `second`.
pub open spec fn differ_at(first: Seq<char>, second: Seq<char>, k: int, j: int) -> bool {
    &&& 0 <= j < second.len()
    &&& k + j < first.len()
    &&& first[k + j] != second[j]
}

/// `second` cannot begin at the `k`-th character of `first`.
pub open spec fn clash(first: Seq<char>, second: Seq<char>, k: int) -> bool {
    exists|j: int| differ_at(first, second, k, j)
}

/// In no text does `second` begin inside of `first`.
pub open spec fn begins_not_inside(second: Seq<char>, first: Seq<char>) -> bool {
    forall|k: int| 0 <= k < first.len() ==> #[trigger] clash(first, second, k)
}

/// In no text do two tokens overlap.
pub open spec fn stand_apart(first: Seq<char>, second: Seq<char>) -> bool {
    begins_not_inside(first, second) && begins_not_inside(second, first)
}

/// A token that begins nowhere inside of another stands in front of it or behind it.
pub proof fn lemma_begins_not_inside(
    text: Seq<char>,
    first: Seq<char>,
    first_at: int,
    second: Seq<char>,
    second_at: int,
)
    requires
        begins_not_inside(second, first),
        token_at(text, first_at, first),
        token_at(text, second_at, second),
    ensures
        second_at < first_at || first_at + first.len() <= second_at,
{
    let k = second_at - first_at;
    if 0 <= k < first.len() {
        assert(clash(first, second, k));
        let j = choose|j: int| differ_at(first, second, k, j);
        assert(text.subrange(first_at, first_at + first.len())[k + j] == text[second_at + j]);
        assert(text.subrange(second_at, second_at + second.len())[j] == text[second_at + j]);
    }
}

/// In no text do two places of `token` overlap.
pub open spec fn unbordered(token: Seq<char>) -> bool {
    forall|k: int| 1 <= k < token.len() ==> #[trigger] clash(token, token, k)
}

/// Behind a text that does not hold it, a token stands for the first time.
pub proof fn lemma_first_behind(before: Seq<char>, token: Seq<char>, rest: Seq<char>)
    requires
        unbordered(token),
        !contains(before, token),
    ensures
        find_from(before + token + rest, token, 0) == Some(before.len() as int),
        forall|at: int| at < before.len() ==> !token_at(before + token + rest, at, token),
{
    let text = before + token + rest;
    let behind = before.len() as int;
    assert(text.subrange(behind, behind + token.len()) == token);
    assert forall|at: int| at < behind implies !token_at(text, at, token) by {
        if token_at(text, at, token) {
            if at + token.len() <= behind {
                assert(text.subrange(at, at + token.len()) == before.subrange(
                    at,
                    at + token.len(),
                ));
                assert(token_at(before, at, token));
            } else {
                let k = behind - at;
                assert(clash(token, token, k));
                let j = choose|j: int| differ_at(token, token, k, j);
                assert(text.subrange(at, at + token.len())[k + j] == text[behind + j]);
                assert(text.subrange(behind, behind + token.len())[j] == text[behind + j]);
            }
        }
    }
    lemma_find_from_is_first(text, token, 0, behind);
}

/// A token that is one character stands for the first time behind a text without that character.
pub proof fn lemma_char_behind(before: Seq<char>, c: char, rest: Seq<char>)
    requires
        !before.contains(c),
    ensures
        find_from(before + seq![c] + rest, seq![c], 0) == Some(before.len() as int),
{
    assert forall|k: int| 1 <= k < seq![c].len() implies #[trigger] clash(seq![c], seq![c], k) by {}
    assert forall|at: int| !token_at(before, at, seq![c]) by {
        if token_at(before, at, seq![c]) {
            assert(before.subrange(at, at + 1)[0] == before[at]);
        }
    }
    lemma_first_behind(before, seq![c], rest);
}

/// A token whose first character does not come again overlaps with itself in no text.
pub proof fn lemma_unbordered(token: Seq<char>)
    requires
        forall|k: int| 1 <= k < token.len() ==> #[trigger] token[k] != token[0],
    ensures
        unbordered(token),
{
    assert forall|k: int| 1 <= k < token.len() implies #[trigger] clash(token, token, k) by {
        assert(differ_at(token, token, k, 0));
    }
}

/// White space in the rest of a text is white space of the text.
pub proof fn lemma_white_end_skip(text: Seq<char>, skipped: int, from: int)
    requires
        0 <= skipped <= text.len(),
        0 <= from,
    ensures
        white_end(text, skipped + from) == skipped + white_end(text.skip(skipped), from),
    decreases text.len() - from,
{
    if skipped + from < text.len() {
        lemma_white_end_skip(text, skipped, from + 1);
    }
}

/// A token that closes a place in the rest of a text closes it in the text.
pub proof fn lemma_behind_token_skip(
    text: Seq<char>,
    skipped: int,
    at: int,
    white: int,
    token: Seq<char>,
)
    requires
        0 <= skipped <= text.len(),
        0 <= at,
    ensures
        behind_token(text, skipped + at, white, token) == match behind_token(
            text.skip(skipped),
            at,
            white,
            token,
        ) {
            Some(end) => Some(skipped + end),
            None => None,
        },
    decreases white + 1,
{
    if 0 <= white {
        lemma_token_at_skip(text, token, skipped, at + white);
        lemma_behind_token_skip(text, skipped, at, white - 1, token);
    }
}

/// Behind white space, a token that does not begin with white space stands where the white space
/// ends or nowhere.
pub proof fn lemma_closed_at(text: Seq<char>, at: int, token: Seq<char>)
    requires
        0 <= at <= text.len(),
        0 < token.len(),
        !is_white_space(token[0]),
    ensures
        closed_at(text, at, token) == (if token_at(text, white_end(text, at), token) {
            Some(white_end(text, at) + token.len())
        } else {
            None
        }),
{
    let white = white_end(text, at) - at;
    lemma_white_end(text, at);
    lemma_not_in_white(text, at, white - 1, token);
}

/// A token that does not begin with white space does not begin in white space.
proof fn lemma_not_in_white(text: Seq<char>, at: int, white: int, token: Seq<char>)
    requires
        0 <= at <= text.len(),
        white < white_end(text, at) - at,
        0 < token.len(),
        !is_white_space(token[0]),
    ensures
        behind_token(text, at, white, token) is None,
    decreases white + 1,
{
    lemma_white_end(text, at);
    if 0 <= white {
        if token_at(text, at + white, token) {
            assert(text.subrange(at + white, at + white + token.len())[0] == text[at + white]);
        }
        lemma_not_in_white(text, at, white - 1, token);
    }
}

/// White space ends in front of a character that is none.
pub proof fn lemma_white_end_is(text: Seq<char>, from: int, to: int)
    requires
        0 <= from <= to < text.len(),
        forall|i: int| from <= i < to ==> is_white_space(#[trigger] text[i]),
        !is_white_space(text[to]),
    ensures
        white_end(text, from) == to,
{
    lemma_white_end(text, from);
}

/// What stands behind a place stands there in the text.
pub proof fn lemma_behind(text: Seq<char>, at: int, part: Seq<char>, rest: Seq<char>)
    requires
        0 <= at <= text.len(),
        text.skip(at) == part + rest,
    ensures
        at + part.len() <= text.len(),
        text.subrange(at, at + part.len()) == part,
        text.skip(at + part.len()) == rest,
{
    let here = text.skip(at);
    assert(here.len() == part.len() + rest.len());
    assert(text.subrange(at, at + part.len()) == here.subrange(0, part.len() as int));
    assert(here.subrange(0, part.len() as int) == part);
    assert(text.skip(at + part.len()) == here.skip(part.len() as int));
    assert(here.skip(part.len() as int) == rest);
}

/// Two tokens are the same and do not overlap with each other, or are different and overlap in no
/// text.
pub open spec fn same_or_apart(first: Seq<char>, second: Seq<char>) -> bool {
    (first == second && unbordered(first)) || stand_apart(first, second)
}

/// Of two such tokens, one that stands in front of the other ends in front of it, and two that stand
/// in one place are the same.
pub proof fn lemma_same_or_apart(
    text: Seq<char>,
    first: Seq<char>,
    first_at: int,
    second: Seq<char>,
    second_at: int,
)
    requires
        same_or_apart(first, second),
        0 < first.len(),
        token_at(text, first_at, first),
        token_at(text, second_at, second),
        first_at <= second_at,
    ensures
        first_at < second_at ==> first_at + first.len() <= second_at,
        first_at == second_at ==> first == second,
{
    if stand_apart(first, second) {
        lemma_begins_not_inside(text, first, first_at, second, second_at);
    } else {
        let k = second_at - first_at;
        if 1 <= k < first.len() {
            assert(clash(first, first, k));
            let j = choose|j: int| differ_at(first, first, k, j);
            assert(text.subrange(first_at, first_at + first.len())[k + j] == text[second_at + j]);
            assert(text.subrange(second_at, second_at + first.len())[j] == text[second_at + j]);
        }
    }
}

/// A token that a text does not hold closes no place in it.
pub proof fn lemma_not_closed(text: Seq<char>, at: int, white: int, token: Seq<char>)
    requires
        !contains(text, token),
    ensures
        behind_token(text, at, white, token) is None,
    decreases white + 1,
{
    if 0 <= white {
        assert(!token_at(text, at + white, token));
        lemma_not_closed(text, at, white - 1, token);
    }
}

/// A token that differs from another in one place, and whose first character does not come again in
/// the other, begins nowhere inside of it.
pub proof fn lemma_differs(second: Seq<char>, first: Seq<char>, j: int)
    requires
        0 <= j < second.len(),
        j < first.len(),
        first[j] != second[j],
        forall|k: int| 1 <= k < first.len() ==> #[trigger] first[k] != second[0],
    ensures
        begins_not_inside(second, first),
{
    assert forall|k: int| 0 <= k < first.len() implies #[trigger] clash(first, second, k) by {
        assert(differ_at(first, second, k, if k == 0 { j } else { 0 }));
    }
}

} // verus!

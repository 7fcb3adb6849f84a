//! Text as a sequence of characters.
//!
//! A `&str` is modelled by its view, the sequence of its characters, and a position in a text is
//! the number of characters in front of it. Only what leaves the library as a position in a
//! string is counted in bytes, by [`byte_len`].
use vstd::prelude::*;
use vstd::utf8::{encode_utf8, is_ascii_chars};

verus! {

/// `token` stands in `text` at position `at`.
pub open spec fn token_at(text: Seq<char>, at: int, token: Seq<char>) -> bool {
    0 <= at <= text.len() - token.len() && text.subrange(at, at + token.len()) == token
}

/// `token` stands somewhere in `text`.
pub open spec fn contains(text: Seq<char>, token: Seq<char>) -> bool {
    exists|at: int| token_at(text, at, token)
}

/// `text` ends with `token`.
pub open spec fn ends_with(text: Seq<char>, token: Seq<char>) -> bool {
    token_at(text, text.len() - token.len(), token)
}

/// The first position from `from` on at which `token` stands in `text`.
pub open spec fn find_from(text: Seq<char>, token: Seq<char>, from: int) -> Option<int>
    decreases text.len() + 1 - from,
{
    if from + token.len() > text.len() {
        None
    } else if token_at(text, from, token) {
        Some(from)
    } else {
        find_from(text, token, from + 1)
    }
}

/// A position found by executable code, as an integer.
pub open spec fn position(found: Option<usize>) -> Option<int> {
    match found {
        Some(at) => Some(at as int),
        None => None,
    }
}

/// The number of bytes that `text` takes in UTF-8.
pub open spec fn byte_len(text: Seq<char>) -> nat {
    encode_utf8(text).len()
}

/// `c` has the Unicode property White_Space.
pub open spec fn is_white_space(c: char) -> bool {
    let code = c as u32;
    ||| 0x09 <= code <= 0x0d
    ||| code == 0x20
    ||| code == 0x85
    ||| code == 0xa0
    ||| code == 0x1680
    ||| 0x2000 <= code <= 0x200a
    ||| code == 0x2028
    ||| code == 0x2029
    ||| code == 0x202f
    ||| code == 0x205f
    ||| code == 0x3000
}

/// The position behind the white space that stands in `text` from `from` on.
pub open spec fn white_end(text: Seq<char>, from: int) -> int
    decreases text.len() - from,
{
    if 0 <= from < text.len() && is_white_space(text[from]) {
        white_end(text, from + 1)
    } else {
        from
    }
}

/// The position at which the white space in front of `to` begins.
pub open spec fn white_start(text: Seq<char>, to: int) -> int
    decreases to,
{
    if 0 < to <= text.len() && is_white_space(text[to - 1]) {
        white_start(text, to - 1)
    } else {
        to
    }
}

/// `text` without the white space at its start.
pub open spec fn trim_start(text: Seq<char>) -> Seq<char> {
    text.skip(white_end(text, 0))
}

/// `text` without the white space at its end.
pub open spec fn trim_end(text: Seq<char>) -> Seq<char> {
    text.take(white_start(text, text.len() as int))
}

/// `text` without the white space at its start and end.
pub open spec fn trim(text: Seq<char>) -> Seq<char> {
    trim_end(trim_start(text))
}

/// The position behind the line feeds at the start of `text`, looking from `from` on.
pub open spec fn line_feeds_end(text: Seq<char>, from: int) -> int
    decreases text.len() - from,
{
    if 0 <= from < text.len() && text[from] == '\n' {
        line_feeds_end(text, from + 1)
    } else {
        from
    }
}

/// The position at which the line feeds in front of `to` begin.
pub open spec fn line_feeds_start(text: Seq<char>, to: int) -> int
    decreases to,
{
    if 0 < to <= text.len() && text[to - 1] == '\n' {
        line_feeds_start(text, to - 1)
    } else {
        to
    }
}

/// `text` without the line feeds at its start and end.
pub open spec fn trim_line_feeds(text: Seq<char>) -> Seq<char> {
    let rest = text.skip(line_feeds_end(text, 0));
    rest.take(line_feeds_start(rest, rest.len() as int))
}

/// `text` with every `from` replaced by `to`, from left to right.
pub open spec fn replace_all(text: Seq<char>, from: Seq<char>, to: Seq<char>) -> Seq<char>
    decreases text.len(),
{
    match find_from(text, from, 0) {
        Some(at) => if 0 <= at && 0 < from.len() && at + from.len() <= text.len() {
            text.take(at) + to + replace_all(text.skip(at + from.len()), from, to)
        } else {
            text
        },
        None => text,
    }
}

/// `text`, which holds a character beyond ASCII, in lower case.
pub uninterp spec fn unicode_lowercase(text: Seq<char>) -> Seq<char>;

/// `c` with an ASCII capital letter in lower case.
pub open spec fn ascii_lowercase_char(c: char) -> char {
    if 'A' <= c && c <= 'Z' {
        (c as u8 + 32) as char
    } else {
        c
    }
}

/// `text` with its ASCII capital letters in lower case.
pub open spec fn ascii_lowercase(text: Seq<char>) -> Seq<char> {
    text.map_values(|c: char| ascii_lowercase_char(c))
}

/// `text` in lower case.
pub open spec fn lowercase(text: Seq<char>) -> Seq<char> {
    if is_ascii_chars(text) {
        ascii_lowercase(text)
    } else {
        unicode_lowercase(text)
    }
}

/// What [`find_from`] finds is the first place of the token, and it finds one if there is one.
pub proof fn lemma_find_from(text: Seq<char>, token: Seq<char>, from: int)
    requires
        0 <= from,
    ensures
        match find_from(text, token, from) {
            Some(at) => {
                &&& from <= at
                &&& token_at(text, at, token)
                &&& forall|before: int| from <= before < at ==> !token_at(text, before, token)
            },
            None => forall|at: int| from <= at ==> !token_at(text, at, token),
        },
    decreases text.len() + 1 - from,
{
    if from + token.len() <= text.len() && !token_at(text, from, token) {
        lemma_find_from(text, token, from + 1);
    }
}

/// The first place of a token is where [`find_from`] finds it.
pub proof fn lemma_find_from_is_first(text: Seq<char>, token: Seq<char>, from: int, at: int)
    requires
        0 <= from <= at,
        token_at(text, at, token),
        forall|before: int| from <= before < at ==> !token_at(text, before, token),
    ensures
        find_from(text, token, from) == Some(at),
{
    lemma_find_from(text, token, from);
}

/// White space ends inside the text and behind its start.
pub proof fn lemma_white_end(text: Seq<char>, from: int)
    requires
        0 <= from <= text.len(),
    ensures
        from <= white_end(text, from) <= text.len(),
        forall|at: int| from <= at < white_end(text, from) ==> is_white_space(#[trigger] text[at]),
        white_end(text, from) < text.len() ==> !is_white_space(text[white_end(text, from)]),
    decreases text.len() - from,
{
    if from < text.len() && is_white_space(text[from]) {
        lemma_white_end(text, from + 1);
    }
}

/// White space at the end of a text begins inside the text.
pub proof fn lemma_white_start(text: Seq<char>, to: int)
    requires
        0 <= to <= text.len(),
    ensures
        0 <= white_start(text, to) <= to,
        forall|at: int| white_start(text, to) <= at < to ==> is_white_space(#[trigger] text[at]),
        0 < white_start(text, to) ==> !is_white_space(text[white_start(text, to) - 1]),
    decreases to,
{
    if 0 < to && is_white_space(text[to - 1]) {
        lemma_white_start(text, to - 1);
    }
}

/// The characters of `text`, in order.
pub fn to_chars(text: &str) -> (chars: Vec<char>)
    ensures
        chars@ == text@,
{
    let mut chars: Vec<char> = Vec::new();
    for c in it: text.chars()
        invariant
            it.seq() == text@,
            chars@ == text@.take(it.index()),
    {
        chars.push(c);
        assert(text@.take(it.index() + 1) == text@.take(it.index()).push(c));
    }
    assert(text@.take(text@.len() as int) == text@);
    chars
}

/// Whether `token` stands in `text` at position `at`.
pub fn has_token_at(text: &[char], at: usize, token: &[char]) -> (found: bool)
    requires
        at <= text@.len(),
    ensures
        found == token_at(text@, at as int, token@),
        found ==> at + token@.len() <= text@.len() <= usize::MAX,
{
    if text.len() - at < token.len() {
        return false;
    }
    let mut i: usize = 0;
    while i < token.len()
        invariant
            i <= token@.len(),
            at + token@.len() <= text@.len() <= usize::MAX,
            forall|j: int| 0 <= j < i ==> text@[at + j] == token@[j],
        decreases token@.len() - i,
    {
        if text[at + i] != token[i] {
            assert(text@.subrange(at as int, at + token@.len())[i as int] != token@[i as int]);
            return false;
        }
        i += 1;
    }
    assert(text@.subrange(at as int, at + token@.len()) == token@);
    true
}

/// The first position from `from` on at which `token` stands in `text`.
pub fn find_token(text: &[char], token: &[char], from: usize) -> (found: Option<usize>)
    requires
        from <= text@.len(),
    ensures
        position(found) == find_from(text@, token@, from as int),
        found matches Some(at) ==> from <= at && at + token@.len() <= text@.len() <= usize::MAX,
{
    let count = text.len();
    let mut at: usize = from;
    while token.len() <= count - at
        invariant
            count == text@.len(),
            from <= at <= count,
            find_from(text@, token@, from as int) == find_from(text@, token@, at as int),
        decreases count - at,
    {
        if has_token_at(text, at, token) {
            return Some(at);
        }
        assert(0 < token@.len()) by {
            if token@.len() == 0 {
                assert(text@.subrange(at as int, at + token@.len()) == token@);
            }
        }
        at += 1;
    }
    None
}

/// Whether `text` and `other` hold the same characters.
pub fn same_text(text: &str, other: &str) -> (same: bool)
    ensures
        same == (text@ == other@),
{
    let left = to_chars(text);
    let right = to_chars(other);
    if left.len() != right.len() {
        return false;
    }
    assert(left@.subrange(0, left@.len() as int) == left@);
    has_token_at(left.as_slice(), 0, right.as_slice())
}

/// Whether `token` stands somewhere in `text`.
pub fn has_token(text: &str, token: &str) -> (found: bool)
    ensures
        found == contains(text@, token@),
{
    let chars = to_chars(text);
    let sought = to_chars(token);
    proof {
        lemma_find_from(text@, token@, 0);
    }
    find_token(chars.as_slice(), sought.as_slice(), 0).is_some()
}

/// Whether `text` begins with `token`.
pub fn has_prefix(text: &str, token: &str) -> (found: bool)
    ensures
        found == token_at(text@, 0, token@),
{
    let chars = to_chars(text);
    let sought = to_chars(token);
    has_token_at(chars.as_slice(), 0, sought.as_slice())
}

/// Whether `c` has the Unicode property White_Space.
pub fn white_space(c: char) -> (white: bool)
    ensures
        white == is_white_space(c),
{
    let code: u32 = c as u32;
    (0x09 <= code && code <= 0x0d) || code == 0x20 || code == 0x85 || code == 0xa0 || code == 0x1680
        || (0x2000 <= code && code <= 0x200a) || code == 0x2028 || code == 0x2029 || code == 0x202f
        || code == 0x205f || code == 0x3000
}

/// The position behind the white space that stands in `text` from `from` on.
pub fn skip_white(text: &[char], from: usize) -> (end: usize)
    requires
        from <= text@.len(),
    ensures
        end == white_end(text@, from as int),
        from <= end <= text@.len(),
{
    let mut end: usize = from;
    while end < text.len() && white_space(text[end])
        invariant
            from <= end <= text@.len(),
            white_end(text@, from as int) == white_end(text@, end as int),
        decreases text@.len() - end,
    {
        end += 1;
    }
    end
}

/// `text` without the white space at its start.
pub fn trimmed_start(text: &str) -> (trimmed: &str)
    ensures
        trimmed@ == trim_start(text@),
{
    let chars = to_chars(text);
    let start = skip_white(chars.as_slice(), 0);
    text.substring_char(start, chars.len())
}

/// `text` without the white space at its end.
pub fn trimmed_end(text: &str) -> (trimmed: &str)
    ensures
        trimmed@ == trim_end(text@),
{
    let chars = to_chars(text);
    let mut end: usize = chars.len();
    while 0 < end && white_space(chars[end - 1])
        invariant
            chars@ == text@,
            end <= chars@.len(),
            white_start(text@, text@.len() as int) == white_start(text@, end as int),
        decreases end,
    {
        end -= 1;
    }
    text.substring_char(0, end)
}

/// `text` without the white space at its start and end.
pub fn trimmed(text: &str) -> (trimmed: &str)
    ensures
        trimmed@ == trim(text@),
{
    trimmed_end(trimmed_start(text))
}

/// `text` without the line feeds at its start and end.
pub fn trimmed_line_feeds(text: &str) -> (trimmed: &str)
    ensures
        trimmed@ == trim_line_feeds(text@),
{
    let chars = to_chars(text);
    let count = chars.len();
    let mut start: usize = 0;
    while start < count && chars[start] == '\n'
        invariant
            chars@ == text@,
            count == chars@.len(),
            start <= count,
            line_feeds_end(text@, 0) == line_feeds_end(text@, start as int),
        decreases count - start,
    {
        start += 1;
    }
    let ghost rest = text@.skip(start as int);
    let mut end: usize = count;
    while start < end && chars[end - 1] == '\n'
        invariant
            chars@ == text@,
            count == chars@.len(),
            start <= end <= count,
            rest == text@.skip(start as int),
            line_feeds_start(rest, rest.len() as int) == line_feeds_start(rest, end - start),
        decreases end,
    {
        end -= 1;
    }
    assert(rest.take(end - start) == text@.subrange(start as int, end as int));
    text.substring_char(start, end)
}

/// The number of bytes that `text` takes in UTF-8.
pub fn bytes_in(text: &str) -> (count: usize)
    ensures
        count == byte_len(text@),
{
    text.as_bytes().len()
}

/// `text` with every `from` replaced by `to`, from left to right.
pub fn replaced(text: &str, from: &str, to: &str) -> (result: String)
    requires
        0 < from@.len(),
    ensures
        result@ == replace_all(text@, from@, to@),
{
    let chars = to_chars(text);
    let sought = to_chars(from);
    let count = chars.len();
    let mut result = String::new();
    let mut done: usize = 0;
    assert(text@.skip(0) == text@);
    loop
        invariant_except_break
            chars@ == text@,
            sought@ == from@,
            0 < from@.len(),
            count == text@.len(),
            done <= count,
            replace_all(text@, from@, to@) == result@ + replace_all(
                text@.skip(done as int),
                from@,
                to@,
            ),
        ensures
            result@ == replace_all(text@, from@, to@),
        decreases text@.len() - done,
    {
        let ghost rest = text@.skip(done as int);
        proof {
            lemma_find_from_skip(text@, from@, done as int, 0);
            lemma_find_from(text@, from@, done as int);
        }
        match find_token(chars.as_slice(), sought.as_slice(), done) {
            Some(at) => {
                result.append(text.substring_char(done, at));
                result.append(to);
                proof {
                    assert(rest.take(at - done) == text@.subrange(done as int, at as int));
                    assert(rest.skip(at - done + from@.len()) == text@.skip(at + from@.len()));
                }
                done = at + sought.len();
            },
            None => {
                result.append(text.substring_char(done, count));
                assert(rest == text@.subrange(done as int, text@.len() as int));
                break;
            },
        }
    }
    result
}

/// `text` in lower case, by `str::to_lowercase`. Of a text of ASCII characters it is that text with
/// the letters `A` to `Z` turned into `a` to `z`; of any other it is a function of the text.
#[verifier::external_body]
pub(crate) fn lowered(text: &str) -> (lower: String)
    ensures
        is_ascii_chars(text@) ==> lower@ == ascii_lowercase(text@),
        !is_ascii_chars(text@) ==> lower@ == unicode_lowercase(text@),
{
    text.to_lowercase()
}

/// A place of a token in the rest of a text is a place in the text.
pub proof fn lemma_token_at_skip(text: Seq<char>, token: Seq<char>, skipped: int, at: int)
    requires
        0 <= skipped <= text.len(),
        0 <= at,
    ensures
        token_at(text.skip(skipped), at, token) == token_at(text, skipped + at, token),
{
    if skipped + at + token.len() <= text.len() {
        assert(text.skip(skipped).subrange(at, at + token.len()) == text.subrange(
            skipped + at,
            skipped + at + token.len(),
        ));
    }
}

/// Searching the rest of a text is searching the text from there on.
pub proof fn lemma_find_from_skip(text: Seq<char>, token: Seq<char>, skipped: int, from: int)
    requires
        0 <= skipped <= text.len(),
        0 <= from,
    ensures
        find_from(text, token, skipped + from) == match find_from(
            text.skip(skipped),
            token,
            from,
        ) {
            Some(at) => Some(skipped + at),
            None => None,
        },
    decreases text.len() + 1 - from,
{
    lemma_token_at_skip(text, token, skipped, from);
    if skipped + from + token.len() <= text.len() {
        lemma_find_from_skip(text, token, skipped, from + 1);
    }
}

} // verus!

//! Laws of texts: tokens, white space, letter case, replacement, and bytes.
use vstd::prelude::*;
use vstd::utf8::{encode_utf8, is_ascii_chars};

use crate::laws::values::{is_trimmed, is_white, lemma_trim_is_trimmed};
use crate::text::{
    byte_len, contains, ends_with, is_white_space, lemma_find_from, lemma_find_from_is_first,
    lemma_white_end, lemma_white_start, line_feeds_end, line_feeds_start, lowercase, replace_all,
    token_at, trim, trim_line_feeds, unicode_lowercase, white_end, white_start,
};

verus! {

/// A token stands at a place if and only if each of its characters stands there in its turn.
pub proof fn lemma_token_is_its_characters(text: Seq<char>, at: int, token: Seq<char>)
    ensures
        token_at(text, at, token) <==> {
            &&& 0 <= at
            &&& at + token.len() <= text.len()
            &&& forall|i: int| 0 <= i < token.len() ==> #[trigger] token[i] == text[at + i]
        },
{
    if 0 <= at && at + token.len() <= text.len() {
        let there = text.subrange(at, at + token.len());
        if forall|i: int| 0 <= i < token.len() ==> #[trigger] token[i] == text[at + i] {
            assert(there == token);
        }
        if there == token {
            assert forall|i: int| 0 <= i < token.len() implies #[trigger] token[i] == text[at
                + i] by {
                assert(there[i] == text[at + i]);
            }
        }
    }
}

/// A text holds exactly the tokens that it can be cut around.
pub proof fn lemma_contains_is_a_cut(text: Seq<char>, token: Seq<char>)
    ensures
        contains(text, token) <==> exists|before: Seq<char>, behind: Seq<char>|
            text == #[trigger] (before + token + behind),
        ends_with(text, token) <==> exists|before: Seq<char>| text == #[trigger] (before + token),
{
    if contains(text, token) {
        let at = choose|at: int| token_at(text, at, token);
        let before = text.take(at);
        let behind = text.skip(at + token.len());
        assert(text == before + token + behind);
    }
    if exists|before: Seq<char>, behind: Seq<char>| text == #[trigger] (before + token + behind) {
        let (before, behind) = choose|before: Seq<char>, behind: Seq<char>|
            text == #[trigger] (before + token + behind);
        let at = before.len() as int;
        assert(text.subrange(at, at + token.len()) == token);
        assert(token_at(text, at, token));
    }
    if ends_with(text, token) {
        let before = text.take(text.len() - token.len());
        assert(text == before + token);
    }
    if exists|before: Seq<char>| text == #[trigger] (before + token) {
        let before = choose|before: Seq<char>| text == #[trigger] (before + token);
        assert(text.subrange(before.len() as int, text.len() as int) == token);
    }
}

/// White space is the 25 characters that Unicode lists as such.
pub proof fn lemma_white_space_characters(c: char)
    ensures
        is_white_space(c) <==> seq![
            '\u{9}', '\u{a}', '\u{b}', '\u{c}', '\u{d}', '\u{20}', '\u{85}', '\u{a0}', '\u{1680}',
            '\u{2000}', '\u{2001}', '\u{2002}', '\u{2003}', '\u{2004}', '\u{2005}', '\u{2006}',
            '\u{2007}', '\u{2008}', '\u{2009}', '\u{200a}', '\u{2028}', '\u{2029}', '\u{202f}',
            '\u{205f}', '\u{3000}',
        ].contains(c),
{
    let listed = seq![
        '\u{9}', '\u{a}', '\u{b}', '\u{c}', '\u{d}', '\u{20}', '\u{85}', '\u{a0}', '\u{1680}',
        '\u{2000}', '\u{2001}', '\u{2002}', '\u{2003}', '\u{2004}', '\u{2005}', '\u{2006}',
        '\u{2007}', '\u{2008}', '\u{2009}', '\u{200a}', '\u{2028}', '\u{2029}', '\u{202f}',
        '\u{205f}', '\u{3000}',
    ];
    let code = c as int;
    if is_white_space(c) {
        let i: int = if code <= 0xd {
            code - 9
        } else if code == 0x20 {
            5
        } else if code == 0x85 {
            6
        } else if code == 0xa0 {
            7
        } else if code == 0x1680 {
            8
        } else if code <= 0x200a {
            code - 0x2000 + 9
        } else if code == 0x2028 {
            20
        } else if code == 0x2029 {
            21
        } else if code == 0x202f {
            22
        } else if code == 0x205f {
            23
        } else {
            24
        };
        assert(listed[i] == c);
    }
}

/// Every text is what trimming leaves of it, with white space on both sides; what it leaves neither
/// begins nor ends with white space.
pub proof fn lemma_trim_cuts(text: Seq<char>)
    ensures
        is_trimmed(trim(text)),
        exists|before: Seq<char>, behind: Seq<char>|
            is_white(before) && is_white(behind) && text == #[trigger] (before + trim(text)
                + behind),
{
    lemma_trim_is_trimmed(text);
    let start = white_end(text, 0);
    lemma_white_end(text, 0);
    let rest = text.skip(start);
    let end = white_start(rest, rest.len() as int);
    lemma_white_start(rest, rest.len() as int);
    let before = text.take(start);
    let behind = rest.skip(end);
    assert forall|i: int| 0 <= i < behind.len() implies is_white_space(#[trigger] behind[i]) by {
        assert(behind[i] == rest[end + i]);
    }
    assert(trim(text) == rest.take(end));
    assert(text == before + trim(text) + behind);
}

/// Line feeds end inside the text and behind its start.
proof fn lemma_line_feeds_end(text: Seq<char>, from: int)
    requires
        0 <= from <= text.len(),
    ensures
        from <= line_feeds_end(text, from) <= text.len(),
        forall|at: int| from <= at < line_feeds_end(text, from) ==> #[trigger] text[at] == '\n',
        line_feeds_end(text, from) < text.len() ==> text[line_feeds_end(text, from)] != '\n',
    decreases text.len() - from,
{
    if from < text.len() && text[from] == '\n' {
        lemma_line_feeds_end(text, from + 1);
    }
}

/// Line feeds at the end of a text begin inside the text.
proof fn lemma_line_feeds_start(text: Seq<char>, to: int)
    requires
        0 <= to <= text.len(),
    ensures
        0 <= line_feeds_start(text, to) <= to,
        forall|at: int| line_feeds_start(text, to) <= at < to ==> #[trigger] text[at] == '\n',
        0 < line_feeds_start(text, to) ==> text[line_feeds_start(text, to) - 1] != '\n',
    decreases to,
{
    if 0 < to && text[to - 1] == '\n' {
        lemma_line_feeds_start(text, to - 1);
    }
}

/// Taking line feeds off takes nothing else off: every text is what is left of it, with line feeds on
/// both sides; what is left neither begins nor ends with one.
pub proof fn lemma_trim_line_feeds_cuts(text: Seq<char>)
    ensures
        ({
            let bare = trim_line_feeds(text);
            &&& bare.len() == 0 || (bare[0] != '\n' && bare.last() != '\n')
            &&& exists|before: Seq<char>, behind: Seq<char>|
                {
                    &&& text == #[trigger] (before + bare + behind)
                    &&& forall|i: int| 0 <= i < before.len() ==> #[trigger] before[i] == '\n'
                    &&& forall|i: int| 0 <= i < behind.len() ==> #[trigger] behind[i] == '\n'
                }
        }),
{
    let bare = trim_line_feeds(text);
    let start = line_feeds_end(text, 0);
    lemma_line_feeds_end(text, 0);
    let rest = text.skip(start);
    let end = line_feeds_start(rest, rest.len() as int);
    lemma_line_feeds_start(rest, rest.len() as int);
    let before = text.take(start);
    let behind = rest.skip(end);
    assert(text == before + bare + behind);
    assert forall|i: int| 0 <= i < behind.len() implies #[trigger] behind[i] == '\n' by {
        assert(behind[i] == rest[end + i]);
    }
    if 0 < end {
        assert(bare[0] == rest[0]);
        assert(rest[0] == text[start]);
        assert(bare.last() == rest[end - 1]);
    }
}

/// Lower case changes the ASCII capital letters of an ASCII text to the small letters of the same
/// name, and no other character of it.
pub proof fn lemma_lowercase_of_ascii(text: Seq<char>)
    requires
        is_ascii_chars(text),
    ensures
        lowercase(text).len() == text.len(),
        forall|i: int|
            0 <= i < text.len() ==> if 0x41 <= text[i] as int <= 0x5a {
                #[trigger] lowercase(text)[i] as int == text[i] as int + 0x20
            } else {
                lowercase(text)[i] == text[i]
            },
        lowercase(lowercase(text)) == lowercase(text),
{
    let lower = lowercase(text);
    assert forall|i: int| 0 <= i < text.len() implies if 0x41 <= text[i] as int <= 0x5a {
        #[trigger] lower[i] as int == text[i] as int + 0x20
    } else {
        lower[i] == text[i]
    } by {
        let c = text[i];
        if 0x41 <= c as int <= 0x5a {
            assert((c as u8 + 32) as u8 == c as int + 32);
        }
    }
    assert forall|i: int| 0 <= i < lower.len() implies '\0' <= #[trigger] lower[i] <= '\u{7f}' by {
        assert('\0' <= text[i] <= '\u{7f}');
    }
    assert(is_ascii_chars(lower));
    assert(lowercase(lower) == lower);
}

/// The bytes of a text are the bytes of its parts; an ASCII text has a byte for each character.
pub proof fn lemma_byte_len(first: Seq<char>, second: Seq<char>)
    ensures
        byte_len(first + second) == byte_len(first) + byte_len(second),
        is_ascii_chars(first) ==> byte_len(first) == first.len(),
    decreases first.len(),
{
    if first.len() == 0 {
        assert(first + second == second);
        assert(encode_utf8(first).len() == 0);
    } else {
        let others = first.drop_first();
        lemma_byte_len(others, second);
        assert((first + second).drop_first() == others + second);
        if is_ascii_chars(first) {
            assert forall|i: int| 0 <= i < others.len() implies '\0' <= #[trigger] others[i]
                <= '\u{7f}' by {
                assert(others[i] == first[i + 1]);
            }
            assert('\0' <= first[0] <= '\u{7f}');
        }
    }
}

/// A character has one, two, three or four bytes, by its number.
pub proof fn lemma_bytes_of_a_character(c: char)
    ensures
        byte_len(seq![c]) == (if (c as int) < 0x80 {
            1nat
        } else if (c as int) < 0x800 {
            2
        } else if (c as int) < 0x1_0000 {
            3
        } else {
            4
        }),
{
    let one = seq![c];
    assert(one.drop_first() == Seq::<char>::empty());
    assert(encode_utf8(one.drop_first()).len() == 0);
    assert(one[0] == c);
}

/// Lower case beyond ASCII is that of Unicode.
pub proof fn lemma_lowercase_beyond_ascii(text: Seq<char>)
    requires
        !is_ascii_chars(text),
    ensures
        lowercase(text) == unicode_lowercase(text),
{
}

/// A text is replaced place by place: in front of the first place nothing changes, the place becomes
/// `to`, and what follows it is replaced on its own; a text without a place stays.
pub proof fn lemma_replaced_place_by_place(
    before: Seq<char>,
    rest: Seq<char>,
    from: Seq<char>,
    to: Seq<char>,
)
    requires
        0 < from.len(),
        forall|at: int| 0 <= at < before.len() ==> !token_at(before + from + rest, at, from),
    ensures
        replace_all(before + from + rest, from, to) == before + to + replace_all(rest, from, to),
        !contains(rest, from) ==> replace_all(rest, from, to) == rest,
{
    let text = before + from + rest;
    let at = before.len() as int;
    assert(text.subrange(at, at + from.len()) == from);
    lemma_find_from_is_first(text, from, 0, at);
    lemma_find_from(rest, from, 0);
    assert(text.take(at) == before);
    assert(text.skip(at + from.len()) == rest);
}

} // verus!

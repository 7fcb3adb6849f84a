//! Laws of names and parameter values.
use vstd::prelude::*;
use vstd::utf8::is_ascii_chars;

use crate::arguments::{ArgumentModel, json_text};
use crate::laws::tokens::lemma_find_from_later;
use crate::number::{digits_value, i64_value, integer_text, is_ascii_digit, natural_text};
use crate::schema::{Json, ParamKind, kind_named, member, named_type};
use crate::text::{
    ascii_lowercase, contains, find_from, is_white_space, lemma_find_from, lemma_find_from_skip,
    lemma_white_end, lemma_white_start, lowercase, replace_all, token_at, trim, white_end,
    white_start,
};
use crate::values::{param_model, typed_model, unescaped, unquoted};

verus! {

/// `text` is white space and nothing else.
pub open spec fn is_white(text: Seq<char>) -> bool {
    forall|i: int| 0 <= i < text.len() ==> is_white_space(#[trigger] text[i])
}

/// `text` neither begins nor ends with white space.
pub open spec fn is_trimmed(text: Seq<char>) -> bool {
    text.len() == 0 || (!is_white_space(text[0]) && !is_white_space(text.last()))
}

/// Trimming takes away the white space around a text and nothing else.
pub proof fn lemma_trim(before: Seq<char>, text: Seq<char>, behind: Seq<char>)
    requires
        is_white(before),
        is_white(behind),
        is_trimmed(text),
    ensures
        trim(before + text + behind) == text,
{
    let whole = before + text + behind;
    let start = white_end(whole, 0);
    lemma_white_end(whole, 0);
    if text.len() == 0 {
        assert(start == whole.len()) by {
            if start < whole.len() {
                assert(whole[start] == if start < before.len() {
                    before[start]
                } else {
                    behind[start - before.len()]
                });
            }
        }
        assert(whole.skip(start) == Seq::<char>::empty());
        assert(trim(whole) == text);
    } else {
        assert(whole[before.len() as int] == text[0]);
        if start < before.len() {
            assert(whole[start] == before[start]);
        }
        assert(start == before.len());
        let rest = whole.skip(start);
        assert(rest == text + behind);
        let end = white_start(rest, rest.len() as int);
        lemma_white_start(rest, rest.len() as int);
        assert(rest[text.len() - 1] == text.last());
        if text.len() < end {
            assert(rest[end - 1] == behind[end - 1 - text.len()]);
        }
        assert(end == text.len());
        assert(rest.take(end) == text);
    }
}

/// What trimming leaves is trimmed.
pub proof fn lemma_trim_is_trimmed(text: Seq<char>)
    ensures
        is_trimmed(trim(text)),
        trim(trim(text)) == trim(text),
{
    let start = white_end(text, 0);
    lemma_white_end(text, 0);
    let rest = text.skip(start);
    let end = white_start(rest, rest.len() as int);
    lemma_white_start(rest, rest.len() as int);
    let bare = trim(text);
    assert(bare == rest.take(end));
    if 0 < end {
        assert(rest[0] == text[start]);
        assert(bare[0] == rest[0]);
        assert(bare.last() == rest[end - 1]);
    }
    let none = Seq::<char>::empty();
    assert(none + bare + none == bare);
    lemma_trim(none, bare, none);
}

/// Taking the quotes off undoes putting them on, whatever is quoted and whatever white space
/// stands around it.
pub proof fn lemma_unquoted_undoes_quoting(
    before: Seq<char>,
    quote: char,
    text: Seq<char>,
    behind: Seq<char>,
)
    requires
        quote == '"' || quote == '\'',
        is_white(before),
        is_white(behind),
    ensures
        unquoted(before + (seq![quote] + text + seq![quote]) + behind) == text,
{
    let quoted = seq![quote] + text + seq![quote];
    lemma_trim(before, quoted, behind);
    assert(quoted.last() == quote);
    assert(quoted.subrange(1, quoted.len() - 1) == text);
}

/// A name that does not stand between two quotes of one kind stays as it is but for the white space
/// around it: one without quotes, with a quote on one side only, with different quotes, or that is a
/// quote and nothing else.
pub proof fn lemma_unquoted_keeps_bare_names(text: Seq<char>)
    requires
        ({
            let bare = trim(text);
            ||| bare.len() < 2
            ||| bare[0] != bare.last()
            ||| bare[0] != '"' && bare[0] != '\''
        }),
    ensures
        unquoted(text) == trim(text),
{
}

/// Replacing what a text does not hold changes nothing.
pub proof fn lemma_replace_none(text: Seq<char>, from: Seq<char>, to: Seq<char>)
    requires
        !contains(text, from),
    ensures
        replace_all(text, from, to) == text,
{
    lemma_find_from(text, from, 0);
}

/// Characters at which no place of `from` begins stay.
pub proof fn lemma_replace_behind(
    front: Seq<char>,
    rest: Seq<char>,
    from: Seq<char>,
    to: Seq<char>,
)
    requires
        0 < from.len(),
        forall|at: int| 0 <= at < front.len() ==> !token_at(front + rest, at, from),
    ensures
        replace_all(front + rest, from, to) == front + replace_all(rest, from, to),
{
    let text = front + rest;
    let n = front.len() as int;
    assert(text.skip(n) == rest);
    lemma_find_from_later(text, from, 0, n);
    lemma_find_from_skip(text, from, n, 0);
    lemma_find_from(rest, from, 0);
    if let Some(at) = find_from(rest, from, 0) {
        assert(text.take(n + at) == front + rest.take(at));
        assert(text.skip(n + at + from.len()) == rest.skip(at + from.len()));
        assert(replace_all(text, from, to) == front + replace_all(rest, from, to));
    }
}

/// What stands at the start of a text is replaced, and then what follows.
pub proof fn lemma_replace_first(rest: Seq<char>, from: Seq<char>, to: Seq<char>)
    requires
        0 < from.len(),
    ensures
        replace_all(from + rest, from, to) == to + replace_all(rest, from, to),
{
    let text = from + rest;
    assert(text.subrange(0, from.len() as int) == from);
    assert(find_from(text, from, 0) == Some(0int));
    assert(text.take(0) == Seq::<char>::empty());
    assert(text.skip(from.len() as int) == rest);
    assert(Seq::<char>::empty() + to == to);
}

/// `c` as it stands in a text in which `&` is written as an entity, and so are, where it is said,
/// `<` and `>`.
pub open spec fn escaped_char(c: char, less: bool, greater: bool) -> Seq<char> {
    if c == '&' {
        "&amp;"@
    } else if c == '<' && less {
        "&lt;"@
    } else if c == '>' && greater {
        "&gt;"@
    } else {
        seq![c]
    }
}

/// `text` with `&` written as an entity, and, where it is said, `<` and `>`.
pub open spec fn escaped_partly(text: Seq<char>, less: bool, greater: bool) -> Seq<char>
    decreases text.len(),
{
    if text.len() == 0 {
        text
    } else {
        escaped_char(text[0], less, greater) + escaped_partly(text.skip(1), less, greater)
    }
}

/// `text` with `&`, `<` and `>` written as entities.
pub open spec fn escaped(text: Seq<char>) -> Seq<char> {
    escaped_partly(text, true, true)
}

/// The entities, character by character.
proof fn lemma_entities()
    ensures
        "&amp;"@ == seq!['&', 'a', 'm', 'p', ';'],
        "&lt;"@ == seq!['&', 'l', 't', ';'],
        "&gt;"@ == seq!['&', 'g', 't', ';'],
        "<"@ == seq!['<'],
        ">"@ == seq!['>'],
        "&"@ == seq!['&'],
{
    reveal_strlit("&amp;");
    reveal_strlit("&lt;");
    reveal_strlit("&gt;");
    reveal_strlit("<");
    reveal_strlit(">");
    reveal_strlit("&");
    assert("&amp;"@ =~= seq!['&', 'a', 'm', 'p', ';']);
    assert("&lt;"@ =~= seq!['&', 'l', 't', ';']);
    assert("&gt;"@ =~= seq!['&', 'g', 't', ';']);
    assert("<"@ =~= seq!['<']);
    assert(">"@ =~= seq!['>']);
    assert("&"@ =~= seq!['&']);
}

/// No other entity begins at a character of `front`, when `front` has no `&` but at its start.
proof fn lemma_no_entity_begins(front: Seq<char>, rest: Seq<char>, from: Seq<char>)
    requires
        2 <= from.len(),
        from[0] == '&',
        forall|i: int| 1 <= i < front.len() ==> #[trigger] front[i] != '&',
        0 < front.len(),
        front[0] == '&' ==> 1 < front.len() && front[1] != from[1],
    ensures
        forall|at: int| 0 <= at < front.len() ==> !token_at(front + rest, at, from),
{
    let text = front + rest;
    assert forall|at: int| 0 <= at < front.len() implies !token_at(text, at, from) by {
        if token_at(text, at, from) {
            let found = text.subrange(at, at + from.len());
            assert(found[0] == text[at] && found[1] == text[at + 1]);
            assert(text[at] == front[at]);
        }
    }
}

/// One entity is undone.
proof fn lemma_one_entity_undone(text: Seq<char>, greater: bool)
    ensures
        replace_all(escaped_partly(text, true, greater), "&lt;"@, "<"@) == escaped_partly(
            text,
            false,
            greater,
        ),
        replace_all(escaped_partly(text, false, true), "&gt;"@, ">"@) == escaped_partly(
            text,
            false,
            false,
        ),
        replace_all(escaped_partly(text, false, false), "&amp;"@, "&"@) == text,
    decreases text.len(),
{
    lemma_entities();
    if text.len() == 0 {
        lemma_find_from(text, "&lt;"@, 0);
        lemma_find_from(text, "&gt;"@, 0);
        lemma_find_from(text, "&amp;"@, 0);
    } else {
        let c = text[0];
        let others = text.skip(1);
        lemma_one_entity_undone(others, greater);
        assert(seq![c] + others == text);

        let first = escaped_char(c, true, greater);
        let rest = escaped_partly(others, true, greater);
        if c == '<' {
            lemma_replace_first(rest, "&lt;"@, "<"@);
        } else {
            lemma_no_entity_begins(first, rest, "&lt;"@);
            lemma_replace_behind(first, rest, "&lt;"@, "<"@);
        }

        let first = escaped_char(c, false, true);
        let rest = escaped_partly(others, false, true);
        if c == '>' {
            lemma_replace_first(rest, "&gt;"@, ">"@);
        } else {
            lemma_no_entity_begins(first, rest, "&gt;"@);
            lemma_replace_behind(first, rest, "&gt;"@, ">"@);
        }

        let first = escaped_char(c, false, false);
        let rest = escaped_partly(others, false, false);
        if c == '&' {
            lemma_replace_first(rest, "&amp;"@, "&"@);
        } else {
            lemma_no_entity_begins(first, rest, "&amp;"@);
            lemma_replace_behind(first, rest, "&amp;"@, "&"@);
        }
    }
}

/// Replacing entities undoes writing `&`, `<` and `>` as entities, but for a text that holds one of
/// the entities of quotes: the ampersand of such an entity is restored before that entity is
/// replaced.
pub proof fn lemma_unescaped_undoes_escaping(text: Seq<char>)
    requires
        !contains(text, "&quot;"@),
        !contains(text, "&#x27;"@),
        !contains(text, "&#39;"@),
    ensures
        unescaped(escaped(text)) == text,
{
    lemma_one_entity_undone(text, true);
    lemma_replace_none(text, "&quot;"@, "\""@);
    lemma_replace_none(text, "&#x27;"@, "'"@);
    lemma_replace_none(text, "&#39;"@, "'"@);
}

/// A text without `&` holds no entity, and replacing entities changes nothing.
pub proof fn lemma_unescaped_keeps_plain_text(text: Seq<char>)
    requires
        !text.contains('&'),
    ensures
        unescaped(text) == text,
{
    reveal_strlit("&lt;");
    reveal_strlit("&gt;");
    reveal_strlit("&amp;");
    reveal_strlit("&quot;");
    reveal_strlit("&#x27;");
    reveal_strlit("&#39;");
    assert forall|at: int, from: Seq<char>| 0 < from.len() && from[0] == '&' implies !token_at(
        text,
        at,
        from,
    ) by {
        if token_at(text, at, from) {
            assert(text.subrange(at, at + from.len())[0] == text[at]);
            assert(text[at] == '&');
        }
    }
    lemma_replace_none(text, "&lt;"@, "<"@);
    lemma_replace_none(text, "&gt;"@, ">"@);
    lemma_replace_none(text, "&amp;"@, "&"@);
    lemma_replace_none(text, "&quot;"@, "\""@);
    lemma_replace_none(text, "&#x27;"@, "'"@);
    lemma_replace_none(text, "&#39;"@, "'"@);
}

/// `null`, in any letter case, is the null value, whatever is declared of the parameter.
pub proof fn lemma_null_comes_before_types(
    raw: Seq<char>,
    name: Seq<char>,
    declared: Seq<(String, Json)>,
)
    requires
        is_ascii_chars(unescaped(trim(raw))),
        ascii_lowercase(unescaped(trim(raw))) == "null"@,
    ensures
        param_model(raw, name, declared) == ArgumentModel::Null,
{
}

/// A parameter that is not declared, or that is declared as a string, keeps its text, without the
/// white space around it and with its entities replaced, unless that text is `null`.
pub proof fn lemma_strings_keep_their_text(
    raw: Seq<char>,
    name: Seq<char>,
    declared: Seq<(String, Json)>,
)
    requires
        member(declared, name) matches Some(schema) ==> kind_named(named_type(schema))
            == ParamKind::Text,
    ensures
        lowercase(unescaped(trim(raw))) != "null"@ ==> param_model(raw, name, declared)
            == ArgumentModel::Text(unescaped(trim(raw))),
{
}

/// The digits of a natural number are digits and have its value.
pub proof fn lemma_natural_text(value: nat)
    ensures
        0 < natural_text(value).len(),
        forall|i: int|
            0 <= i < natural_text(value).len() ==> is_ascii_digit(#[trigger] natural_text(value)[i]),
        digits_value(natural_text(value)) == value,
    decreases value,
{
    let text = natural_text(value);
    if value < 10 {
        assert(text.drop_last() == Seq::<char>::empty());
        assert(digits_value(text.drop_last()) == 0);
    } else {
        let front = natural_text(value / 10);
        lemma_natural_text(value / 10);
        assert(text.drop_last() == front);
        assert forall|i: int| 0 <= i < text.len() implies is_ascii_digit(#[trigger] text[i]) by {
            if i < front.len() {
                assert(text[i] == front[i]);
            }
        }
    }
}

/// The decimal form of an integer is read as that integer.
pub proof fn lemma_integers_are_read_back(value: i64)
    ensures
        i64_value(integer_text(value as int)) == Some(value),
{
    let text = integer_text(value as int);
    if value < 0 {
        let digits = natural_text((-value) as nat);
        lemma_natural_text((-value) as nat);
        assert(text.skip(1) == digits);
    } else {
        lemma_natural_text(value as nat);
        assert(is_ascii_digit(text[0]));
    }
}

/// The decimal form of an integer, given to a parameter that is declared as an integer, is written
/// into the arguments as it stands.
pub proof fn lemma_integers_are_written_back(value: i64)
    ensures
        json_text(typed_model(integer_text(value as int), ParamKind::Integer)) == integer_text(
            value as int,
        ),
{
    lemma_integers_are_read_back(value);
}

} // verus!

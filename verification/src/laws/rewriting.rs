//! Laws of the rewriting of values: HTML entities, and the literals of Python.
//!
//! Both are read off a text from its start, piece by piece, which says what becomes of every text.
use vstd::prelude::*;

use crate::laws::values::{lemma_replace_behind, lemma_replace_first, lemma_replace_none};
use crate::text::{find_from, lemma_find_from, replace_all, token_at};
use crate::values::{unescaped, with_json_literals};

verus! {

/// `text` begins with `front`.
pub open spec fn begins_with(text: Seq<char>, front: Seq<char>) -> bool {
    front.len() <= text.len() && text.take(front.len() as int) == front
}

/// `text` begins with one of the entities that are replaced.
pub open spec fn begins_with_entity(text: Seq<char>) -> bool {
    ||| begins_with(text, "&lt;"@)
    ||| begins_with(text, "&gt;"@)
    ||| begins_with(text, "&amp;"@)
    ||| begins_with(text, "&quot;"@)
    ||| begins_with(text, "&#x27;"@)
    ||| begins_with(text, "&#39;"@)
}

/// `text` goes on, behind an ampersand, as an entity of a quote.
pub open spec fn goes_on_as_quote(text: Seq<char>) -> bool {
    ||| begins_with(text, "quot;"@)
    ||| begins_with(text, "#x27;"@)
    ||| begins_with(text, "#39;"@)
}

/// A front in which no place of `from` begins stays.
proof fn lemma_kept(front: Seq<char>, rest: Seq<char>, from: Seq<char>, to: Seq<char>)
    requires
        0 < from.len(),
        forall|i: int| 1 <= i < front.len() ==> #[trigger] front[i] != from[0],
        0 < front.len() && front[0] == from[0] ==> !begins_with(front + rest, from),
    ensures
        replace_all(front + rest, from, to) == front + replace_all(rest, from, to),
{
    let text = front + rest;
    assert forall|at: int| 0 <= at < front.len() implies !token_at(text, at, from) by {
        if token_at(text, at, from) {
            assert(text.subrange(at, at + from.len())[0] == text[at]);
            assert(text[at] == front[at]);
            if at == 0 {
                assert(text.subrange(0, from.len() as int) == text.take(from.len() as int));
            }
        }
    }
    lemma_replace_behind(front, rest, from, to);
}

/// Whether a text begins with `front` is not changed by replacing what does not meet in `front`.
proof fn lemma_front_kept(text: Seq<char>, from: Seq<char>, to: Seq<char>, front: Seq<char>)
    requires
        0 < from.len(),
        0 < to.len(),
        !front.contains(from[0]),
        !front.contains(to[0]),
    ensures
        begins_with(replace_all(text, from, to), front) == begins_with(text, front),
{
    let count = front.len() as int;
    let result = replace_all(text, from, to);
    lemma_find_from(text, from, 0);
    if let Some(at) = find_from(text, from, 0) {
        assert(text.subrange(at, at + from.len())[0] == text[at]);
        assert(result[at] == to[0]);
        if begins_with(text, front) && at < count {
            assert(text.take(count)[at] == text[at]);
            assert(front[at] == from[0]);
        }
        if begins_with(result, front) && at < count {
            assert(result.take(count)[at] == result[at]);
            assert(front[at] == to[0]);
        }
        if count <= at {
            assert(result.take(count) == text.take(count));
        }
    }
}

/// A text that begins with a character begins with a token if the character is the token's first and
/// the rest goes on as the token does.
proof fn lemma_begins_behind(c: char, rest: Seq<char>, token: Seq<char>)
    requires
        0 < token.len(),
        c == token[0],
    ensures
        begins_with(seq![c] + rest, token) == begins_with(rest, token.skip(1)),
{
    let text = seq![c] + rest;
    let count = token.len() as int;
    if count <= text.len() {
        assert(text.take(count).skip(1) == rest.take(count - 1));
        assert(text.take(count) == seq![c] + text.take(count).skip(1));
        assert(token == seq![c] + token.skip(1));
    }
}

/// The entities, and what they stand for, character by character.
proof fn lemma_entity_characters()
    ensures
        "&lt;"@ == seq!['&', 'l', 't', ';'],
        "&gt;"@ == seq!['&', 'g', 't', ';'],
        "&amp;"@ == seq!['&', 'a', 'm', 'p', ';'],
        "&quot;"@ == seq!['&', 'q', 'u', 'o', 't', ';'],
        "&#x27;"@ == seq!['&', '#', 'x', '2', '7', ';'],
        "&#39;"@ == seq!['&', '#', '3', '9', ';'],
        "quot;"@ == seq!['q', 'u', 'o', 't', ';'],
        "#x27;"@ == seq!['#', 'x', '2', '7', ';'],
        "#39;"@ == seq!['#', '3', '9', ';'],
        "<"@ == seq!['<'],
        ">"@ == seq!['>'],
        "&"@ == seq!['&'],
        "\""@ == seq!['"'],
        "'"@ == seq!['\''],
{
    reveal_strlit("&lt;");
    reveal_strlit("&gt;");
    reveal_strlit("&amp;");
    reveal_strlit("&quot;");
    reveal_strlit("&#x27;");
    reveal_strlit("&#39;");
    reveal_strlit("quot;");
    reveal_strlit("#x27;");
    reveal_strlit("#39;");
    reveal_strlit("<");
    reveal_strlit(">");
    reveal_strlit("&");
    reveal_strlit("\"");
    reveal_strlit("'");
    assert("&lt;"@ =~= seq!['&', 'l', 't', ';']);
    assert("&gt;"@ =~= seq!['&', 'g', 't', ';']);
    assert("&amp;"@ =~= seq!['&', 'a', 'm', 'p', ';']);
    assert("&quot;"@ =~= seq!['&', 'q', 'u', 'o', 't', ';']);
    assert("&#x27;"@ =~= seq!['&', '#', 'x', '2', '7', ';']);
    assert("&#39;"@ =~= seq!['&', '#', '3', '9', ';']);
    assert("quot;"@ =~= seq!['q', 'u', 'o', 't', ';']);
    assert("#x27;"@ =~= seq!['#', 'x', '2', '7', ';']);
    assert("#39;"@ =~= seq!['#', '3', '9', ';']);
    assert("<"@ =~= seq!['<']);
    assert(">"@ =~= seq!['>']);
    assert("&"@ =~= seq!['&']);
    assert("\""@ =~= seq!['"']);
    assert("'"@ =~= seq!['\'']);
}

/// One step of the replacement of entities, behind a character that begins no entity.
proof fn lemma_entity_step(c: char, rest: Seq<char>, step: Seq<char>, from: Seq<char>, to: Seq<char>)
    requires
        0 < from.len(),
        0 < to.len(),
        from[0] == '&',
        c == '&' ==> begins_with(step, from.skip(1)) == begins_with(rest, from.skip(1)),
        !begins_with(seq![c] + rest, from),
    ensures
        replace_all(seq![c] + step, from, to) == seq![c] + replace_all(step, from, to),
{
    if c == '&' {
        lemma_begins_behind(c, rest, from);
        lemma_begins_behind(c, step, from);
    }
    lemma_kept(seq![c], step, from, to);
}

/// What the steps of the replacement make of a text.
spec fn entity_steps(text: Seq<char>) -> Seq<Seq<char>> {
    let less = replace_all(text, "&lt;"@, "<"@);
    let greater = replace_all(less, "&gt;"@, ">"@);
    let ampersand = replace_all(greater, "&amp;"@, "&"@);
    let quote = replace_all(ampersand, "&quot;"@, "\""@);
    let hexadecimal = replace_all(quote, "&#x27;"@, "'"@);
    seq![text, less, greater, ampersand, quote, hexadecimal]
}

/// No step changes whether a text begins with letters, digits and the like.
proof fn lemma_steps_keep_fronts(text: Seq<char>, front: Seq<char>)
    requires
        !front.contains('&'),
        !front.contains('<'),
        !front.contains('>'),
        !front.contains('"'),
        !front.contains('\''),
    ensures
        forall|k: int|
            0 <= k < 6 ==> begins_with(#[trigger] entity_steps(text)[k], front) == begins_with(
                text,
                front,
            ),
{
    lemma_entity_characters();
    let steps = entity_steps(text);
    lemma_front_kept(steps[0], "&lt;"@, "<"@, front);
    lemma_front_kept(steps[1], "&gt;"@, ">"@, front);
    lemma_front_kept(steps[2], "&amp;"@, "&"@, front);
    lemma_front_kept(steps[3], "&quot;"@, "\""@, front);
    lemma_front_kept(steps[4], "&#x27;"@, "'"@, front);
    assert forall|k: int| 0 <= k < 6 implies begins_with(#[trigger] entity_steps(text)[k], front)
        == begins_with(text, front) by {
        assert(k == 0 || k == 1 || k == 2 || k == 3 || k == 4 || k == 5);
    }
}

/// A character at which no entity begins stays as it is: it is no `&`, or what it begins with the
/// characters behind it is none of the six entities.
pub proof fn lemma_unescaped_keeps_a_character(c: char, rest: Seq<char>)
    requires
        !begins_with_entity(seq![c] + rest),
    ensures
        unescaped(seq![c] + rest) == seq![c] + unescaped(rest),
{
    lemma_entity_characters();
    let steps = entity_steps(rest);
    let less = "&lt;"@.skip(1);
    let greater = "&gt;"@.skip(1);
    let ampersand = "&amp;"@.skip(1);
    let quote = "&quot;"@.skip(1);
    let hexadecimal = "&#x27;"@.skip(1);
    let decimal = "&#39;"@.skip(1);
    assert(less =~= seq!['l', 't', ';']);
    assert(greater =~= seq!['g', 't', ';']);
    assert(ampersand =~= seq!['a', 'm', 'p', ';']);
    assert(quote =~= seq!['q', 'u', 'o', 't', ';']);
    assert(hexadecimal =~= seq!['#', 'x', '2', '7', ';']);
    assert(decimal =~= seq!['#', '3', '9', ';']);
    lemma_steps_keep_fronts(rest, less);
    lemma_steps_keep_fronts(rest, greater);
    lemma_steps_keep_fronts(rest, ampersand);
    lemma_steps_keep_fronts(rest, quote);
    lemma_steps_keep_fronts(rest, hexadecimal);
    lemma_steps_keep_fronts(rest, decimal);
    lemma_entity_step(c, rest, steps[0], "&lt;"@, "<"@);
    lemma_entity_step(c, rest, steps[1], "&gt;"@, ">"@);
    lemma_entity_step(c, rest, steps[2], "&amp;"@, "&"@);
    lemma_entity_step(c, rest, steps[3], "&quot;"@, "\""@);
    lemma_entity_step(c, rest, steps[4], "&#x27;"@, "'"@);
    lemma_entity_step(c, rest, steps[5], "&#39;"@, "'"@);
}

/// A step leaves another entity at the start of a text.
proof fn lemma_other_entity_stays(entity: Seq<char>, step: Seq<char>, from: Seq<char>, to: Seq<char>)
    requires
        3 <= from.len(),
        3 <= entity.len(),
        from[0] == '&',
        entity[1] != from[1] || entity[2] != from[2],
        forall|i: int| 1 <= i < entity.len() ==> #[trigger] entity[i] != '&',
    ensures
        replace_all(entity + step, from, to) == entity + replace_all(step, from, to),
{
    let text = entity + step;
    if begins_with(text, from) {
        assert(text.take(from.len() as int)[1] == entity[1]);
        assert(text.take(from.len() as int)[2] == entity[2]);
    }
    lemma_kept(entity, step, from, to);
}

/// An entity at the start of a text becomes what it stands for, and the rest is read on its own.
pub proof fn lemma_unescaped_replaces_an_entity(rest: Seq<char>)
    ensures
        unescaped("&lt;"@ + rest) == seq!['<'] + unescaped(rest),
        unescaped("&gt;"@ + rest) == seq!['>'] + unescaped(rest),
        unescaped("&quot;"@ + rest) == seq!['"'] + unescaped(rest),
        unescaped("&#x27;"@ + rest) == seq!['\''] + unescaped(rest),
        unescaped("&#39;"@ + rest) == seq!['\''] + unescaped(rest),
{
    lemma_entity_characters();
    let steps = entity_steps(rest);
    // `<`
    lemma_replace_first(steps[0], "&lt;"@, "<"@);
    lemma_kept("<"@, steps[1], "&gt;"@, ">"@);
    lemma_kept("<"@, steps[2], "&amp;"@, "&"@);
    lemma_kept("<"@, steps[3], "&quot;"@, "\""@);
    lemma_kept("<"@, steps[4], "&#x27;"@, "'"@);
    lemma_kept("<"@, steps[5], "&#39;"@, "'"@);
    // `>`
    lemma_other_entity_stays("&gt;"@, steps[0], "&lt;"@, "<"@);
    lemma_replace_first(steps[1], "&gt;"@, ">"@);
    lemma_kept(">"@, steps[2], "&amp;"@, "&"@);
    lemma_kept(">"@, steps[3], "&quot;"@, "\""@);
    lemma_kept(">"@, steps[4], "&#x27;"@, "'"@);
    lemma_kept(">"@, steps[5], "&#39;"@, "'"@);
    // `"`
    lemma_other_entity_stays("&quot;"@, steps[0], "&lt;"@, "<"@);
    lemma_other_entity_stays("&quot;"@, steps[1], "&gt;"@, ">"@);
    lemma_other_entity_stays("&quot;"@, steps[2], "&amp;"@, "&"@);
    lemma_replace_first(steps[3], "&quot;"@, "\""@);
    lemma_kept("\""@, steps[4], "&#x27;"@, "'"@);
    lemma_kept("\""@, steps[5], "&#39;"@, "'"@);
    // `'`, by its hexadecimal number
    lemma_other_entity_stays("&#x27;"@, steps[0], "&lt;"@, "<"@);
    lemma_other_entity_stays("&#x27;"@, steps[1], "&gt;"@, ">"@);
    lemma_other_entity_stays("&#x27;"@, steps[2], "&amp;"@, "&"@);
    lemma_other_entity_stays("&#x27;"@, steps[3], "&quot;"@, "\""@);
    lemma_replace_first(steps[4], "&#x27;"@, "'"@);
    lemma_kept("'"@, steps[5], "&#39;"@, "'"@);
    // `'`, by its decimal number
    lemma_other_entity_stays("&#39;"@, steps[0], "&lt;"@, "<"@);
    lemma_other_entity_stays("&#39;"@, steps[1], "&gt;"@, ">"@);
    lemma_other_entity_stays("&#39;"@, steps[2], "&amp;"@, "&"@);
    lemma_other_entity_stays("&#39;"@, steps[3], "&quot;"@, "\""@);
    lemma_other_entity_stays("&#39;"@, steps[4], "&#x27;"@, "'"@);
    lemma_replace_first(steps[5], "&#39;"@, "'"@);
}

/// The entity of an ampersand at the start of a text becomes the ampersand, and the rest is read on
/// its own, unless the ampersand then begins the entity of a quote.
pub proof fn lemma_unescaped_replaces_an_ampersand(rest: Seq<char>)
    requires
        !goes_on_as_quote(rest),
    ensures
        unescaped("&amp;"@ + rest) == seq!['&'] + unescaped(rest),
{
    lemma_entity_characters();
    let steps = entity_steps(rest);
    let quote = "&quot;"@.skip(1);
    let hexadecimal = "&#x27;"@.skip(1);
    let decimal = "&#39;"@.skip(1);
    assert(quote =~= "quot;"@);
    assert(hexadecimal =~= "#x27;"@);
    assert(decimal =~= "#39;"@);
    lemma_steps_keep_fronts(rest, quote);
    lemma_steps_keep_fronts(rest, hexadecimal);
    lemma_steps_keep_fronts(rest, decimal);
    lemma_other_entity_stays("&amp;"@, steps[0], "&lt;"@, "<"@);
    lemma_other_entity_stays("&amp;"@, steps[1], "&gt;"@, ">"@);
    lemma_replace_first(steps[2], "&amp;"@, "&"@);
    lemma_begins_behind('&', rest, "&quot;"@);
    lemma_begins_behind('&', rest, "&#x27;"@);
    lemma_begins_behind('&', rest, "&#39;"@);
    lemma_entity_step('&', rest, steps[3], "&quot;"@, "\""@);
    lemma_entity_step('&', rest, steps[4], "&#x27;"@, "'"@);
    lemma_entity_step('&', rest, steps[5], "&#39;"@, "'"@);
}

/// The ampersand of an escaped entity of a quote is replaced first, and then the entity.
proof fn lemma_unescaped_twice(behind: Seq<char>, rest: Seq<char>, entity: Seq<char>)
    requires
        0 < behind.len(),
        entity == seq!['&'] + behind,
        !behind.contains('&'),
    ensures
        ({
            let steps = entity_steps(rest);
            entity_steps("&amp;"@ + (behind + rest))[3] == entity + steps[3]
        }),
{
    lemma_entity_characters();
    let steps = entity_steps(rest);
    let text = behind + rest;
    assert forall|i: int| 0 <= i < behind.len() implies #[trigger] behind[i] != '&' by {
        assert(behind.contains(behind[i]));
    }
    lemma_kept(behind, steps[0], "&lt;"@, "<"@);
    lemma_kept(behind, steps[1], "&gt;"@, ">"@);
    lemma_kept(behind, steps[2], "&amp;"@, "&"@);
    lemma_other_entity_stays("&amp;"@, text, "&lt;"@, "<"@);
    lemma_other_entity_stays("&amp;"@, behind + steps[1], "&gt;"@, ">"@);
    lemma_replace_first(behind + steps[2], "&amp;"@, "&"@);
    assert(seq!['&'] + (behind + steps[3]) == entity + steps[3]);
}

/// An entity of a quote whose ampersand is escaped becomes the quote.
pub proof fn lemma_unescaped_replaces_an_escaped_quote(rest: Seq<char>)
    ensures
        unescaped("&amp;"@ + ("quot;"@ + rest)) == seq!['"'] + unescaped(rest),
        unescaped("&amp;"@ + ("#x27;"@ + rest)) == seq!['\''] + unescaped(rest),
        unescaped("&amp;"@ + ("#39;"@ + rest)) == seq!['\''] + unescaped(rest),
{
    lemma_entity_characters();
    let steps = entity_steps(rest);
    assert("&quot;"@ =~= seq!['&'] + "quot;"@);
    assert("&#x27;"@ =~= seq!['&'] + "#x27;"@);
    assert("&#39;"@ =~= seq!['&'] + "#39;"@);
    lemma_unescaped_twice("quot;"@, rest, "&quot;"@);
    lemma_replace_first(steps[3], "&quot;"@, "\""@);
    lemma_kept("\""@, steps[4], "&#x27;"@, "'"@);
    lemma_kept("\""@, steps[5], "&#39;"@, "'"@);
    lemma_unescaped_twice("#x27;"@, rest, "&#x27;"@);
    lemma_other_entity_stays("&#x27;"@, steps[3], "&quot;"@, "\""@);
    lemma_replace_first(steps[4], "&#x27;"@, "'"@);
    lemma_kept("'"@, steps[5], "&#39;"@, "'"@);
    lemma_unescaped_twice("#39;"@, rest, "&#39;"@);
    lemma_other_entity_stays("&#39;"@, steps[3], "&quot;"@, "\""@);
    lemma_other_entity_stays("&#39;"@, steps[4], "&#x27;"@, "'"@);
    lemma_replace_first(steps[5], "&#39;"@, "'"@);
}

/// An empty text has no entity.
pub proof fn lemma_unescaped_of_nothing()
    ensures
        unescaped(Seq::<char>::empty()) == Seq::<char>::empty(),
{
    lemma_entity_characters();
    let none = Seq::<char>::empty();
    lemma_replace_none(none, "&lt;"@, "<"@);
    lemma_replace_none(none, "&gt;"@, ">"@);
    lemma_replace_none(none, "&amp;"@, "&"@);
    lemma_replace_none(none, "&quot;"@, "\""@);
    lemma_replace_none(none, "&#x27;"@, "'"@);
    lemma_replace_none(none, "&#39;"@, "'"@);
}

/// The literals of Python and of JSON, character by character.
proof fn lemma_literal_characters()
    ensures
        "'"@ == seq!['\''],
        "\""@ == seq!['"'],
        "True"@ == seq!['T', 'r', 'u', 'e'],
        "False"@ == seq!['F', 'a', 'l', 's', 'e'],
        "None"@ == seq!['N', 'o', 'n', 'e'],
        "true"@ == seq!['t', 'r', 'u', 'e'],
        "false"@ == seq!['f', 'a', 'l', 's', 'e'],
        "null"@ == seq!['n', 'u', 'l', 'l'],
{
    reveal_strlit("'");
    reveal_strlit("\"");
    reveal_strlit("True");
    reveal_strlit("False");
    reveal_strlit("None");
    reveal_strlit("true");
    reveal_strlit("false");
    reveal_strlit("null");
    assert("'"@ =~= seq!['\'']);
    assert("\""@ =~= seq!['"']);
    assert("True"@ =~= seq!['T', 'r', 'u', 'e']);
    assert("False"@ =~= seq!['F', 'a', 'l', 's', 'e']);
    assert("None"@ =~= seq!['N', 'o', 'n', 'e']);
    assert("true"@ =~= seq!['t', 'r', 'u', 'e']);
    assert("false"@ =~= seq!['f', 'a', 'l', 's', 'e']);
    assert("null"@ =~= seq!['n', 'u', 'l', 'l']);
}

/// A single quote becomes a double quote, and each of the words `True`, `False` and `None` the word
/// of JSON for it, wherever it stands; the rest is read on its own.
pub proof fn lemma_python_literals_become_json(rest: Seq<char>)
    ensures
        with_json_literals("'"@ + rest) == seq!['"'] + with_json_literals(rest),
        with_json_literals("True"@ + rest) == "true"@ + with_json_literals(rest),
        with_json_literals("False"@ + rest) == "false"@ + with_json_literals(rest),
        with_json_literals("None"@ + rest) == "null"@ + with_json_literals(rest),
        with_json_literals(Seq::<char>::empty()) == Seq::<char>::empty(),
{
    lemma_literal_characters();
    let quotes = replace_all(rest, "'"@, "\""@);
    let yes = replace_all(quotes, "True"@, "true"@);
    let no = replace_all(yes, "False"@, "false"@);
    lemma_replace_first(rest, "'"@, "\""@);
    lemma_kept("\""@, quotes, "True"@, "true"@);
    lemma_kept("\""@, yes, "False"@, "false"@);
    lemma_kept("\""@, no, "None"@, "null"@);
    lemma_kept("True"@, rest, "'"@, "\""@);
    lemma_replace_first(quotes, "True"@, "true"@);
    lemma_kept("true"@, yes, "False"@, "false"@);
    lemma_kept("true"@, no, "None"@, "null"@);
    lemma_kept("False"@, rest, "'"@, "\""@);
    lemma_kept("False"@, quotes, "True"@, "true"@);
    lemma_replace_first(yes, "False"@, "false"@);
    lemma_kept("false"@, no, "None"@, "null"@);
    lemma_kept("None"@, rest, "'"@, "\""@);
    lemma_kept("None"@, quotes, "True"@, "true"@);
    lemma_kept("None"@, yes, "False"@, "false"@);
    lemma_replace_first(no, "None"@, "null"@);
    let none = Seq::<char>::empty();
    lemma_replace_none(none, "'"@, "\""@);
    lemma_replace_none(none, "True"@, "true"@);
    lemma_replace_none(none, "False"@, "false"@);
    lemma_replace_none(none, "None"@, "null"@);
}

/// Any other character stays as it is.
pub proof fn lemma_other_characters_stay(c: char, rest: Seq<char>)
    requires
        c != '\'',
        !begins_with(seq![c] + rest, "True"@),
        !begins_with(seq![c] + rest, "False"@),
        !begins_with(seq![c] + rest, "None"@),
    ensures
        with_json_literals(seq![c] + rest) == seq![c] + with_json_literals(rest),
{
    lemma_literal_characters();
    let quotes = replace_all(rest, "'"@, "\""@);
    let yes = replace_all(quotes, "True"@, "true"@);
    let no = replace_all(yes, "False"@, "false"@);
    let behind_true = "True"@.skip(1);
    let behind_false = "False"@.skip(1);
    let behind_none = "None"@.skip(1);
    assert(behind_true =~= seq!['r', 'u', 'e']);
    assert(behind_false =~= seq!['a', 'l', 's', 'e']);
    assert(behind_none =~= seq!['o', 'n', 'e']);
    lemma_kept(seq![c], rest, "'"@, "\""@);
    lemma_front_kept(rest, "'"@, "\""@, behind_true);
    if c == 'T' {
        lemma_begins_behind(c, rest, "True"@);
        lemma_begins_behind(c, quotes, "True"@);
    }
    lemma_kept(seq![c], quotes, "True"@, "true"@);
    lemma_front_kept(rest, "'"@, "\""@, behind_false);
    lemma_front_kept(quotes, "True"@, "true"@, behind_false);
    if c == 'F' {
        lemma_begins_behind(c, rest, "False"@);
        lemma_begins_behind(c, yes, "False"@);
    }
    lemma_kept(seq![c], yes, "False"@, "false"@);
    lemma_front_kept(rest, "'"@, "\""@, behind_none);
    lemma_front_kept(quotes, "True"@, "true"@, behind_none);
    lemma_front_kept(yes, "False"@, "false"@, behind_none);
    if c == 'N' {
        lemma_begins_behind(c, rest, "None"@);
        lemma_begins_behind(c, no, "None"@);
    }
    lemma_kept(seq![c], no, "None"@, "null"@);
}

} // verus!

//! Laws of parameters: which JSON stands in the arguments for the text of a parameter.
use vstd::prelude::*;

use crate::arguments::{
    ArgumentModel, finite_float_bits, json_float_text, json_normal_form, json_text, string_text,
};
use crate::dsml::{self, Element};
use crate::number::{clamped, i64_value, integer_text, is_finite_pattern, whole_value};
use crate::schema::{Json, ParamKind, kind_named, member, named_type};
use crate::text::{lowercase, trim, trim_line_feeds};
use crate::values::{
    guessed_model, literal_model, number_model, param_model, unescaped, unquoted,
    with_json_literals,
};
use crate::xml;

verus! {

/// The JSON text of a value, by what the value is: the words of JSON, the decimal form of an integer,
/// the number that a text writes, a string, or the normal form of a JSON text.
pub proof fn lemma_json_of_values(truth: bool, number: i64, text: Seq<char>)
    ensures
        json_text(ArgumentModel::Null) == "null"@,
        json_text(ArgumentModel::Bool(truth)) == (if truth {
            "true"@
        } else {
            "false"@
        }),
        json_text(ArgumentModel::Int(number)) == integer_text(number as int),
        json_text(ArgumentModel::Text(text)) == string_text(text),
        finite_float_bits(text) matches Some(bits) ==> json_text(ArgumentModel::Float(text))
            == json_float_text(bits),
        json_normal_form(text) matches Some(normal) ==> json_text(ArgumentModel::Json(text))
            == normal,
{
}

/// The text that is converted: what the parameter holds, without white space around it, and with its
/// entities replaced.
pub open spec fn converted(raw: Seq<char>) -> Seq<char> {
    unescaped(trim(raw))
}

/// The parameter is declared with a type of this kind.
pub open spec fn is_declared_as(
    declared: Seq<(String, Json)>,
    name: Seq<char>,
    kind: ParamKind,
) -> bool {
    member(declared, name) matches Some(schema) && kind_named(named_type(schema)) == kind
}

/// The JSON that stands in the arguments for a parameter.
pub open spec fn json_of_parameter(
    raw: Seq<char>,
    name: Seq<char>,
    declared: Seq<(String, Json)>,
) -> Seq<char> {
    json_text(param_model(raw, name, declared))
}

/// A parameter is null if and only if its text is `null`, in any letter case, whatever is declared of
/// it.
pub proof fn lemma_null_and_nothing_else_is_null(
    raw: Seq<char>,
    name: Seq<char>,
    declared: Seq<(String, Json)>,
)
    ensures
        lowercase(converted(raw)) == "null"@ ==> json_of_parameter(raw, name, declared) == "null"@,
        param_model(raw, name, declared) is Null <==> lowercase(converted(raw)) == "null"@,
{
}

/// A parameter that is not declared, or that is declared as a string, is the JSON string of its text,
/// whatever that text looks like.
pub proof fn lemma_strings_are_json_strings(
    raw: Seq<char>,
    name: Seq<char>,
    declared: Seq<(String, Json)>,
)
    requires
        member(declared, name) is None || is_declared_as(declared, name, ParamKind::Text),
        lowercase(converted(raw)) != "null"@,
    ensures
        json_of_parameter(raw, name, declared) == string_text(converted(raw)),
{
}

/// An integer parameter is the JSON number that its text writes, where that is an integer of 64 bits,
/// and else the JSON string of its text.
pub proof fn lemma_integers_are_json_numbers(
    raw: Seq<char>,
    name: Seq<char>,
    declared: Seq<(String, Json)>,
)
    requires
        is_declared_as(declared, name, ParamKind::Integer),
        lowercase(converted(raw)) != "null"@,
    ensures
        match i64_value(converted(raw)) {
            Some(value) => json_of_parameter(raw, name, declared) == integer_text(value as int),
            None => json_of_parameter(raw, name, declared) == string_text(converted(raw)),
        },
{
}

/// A number parameter is a JSON number whenever its text writes a finite number, of either sign: the
/// integer where the number is whole, and else the number with exactly these bits. It is a string
/// only where its text writes no finite number.
pub proof fn lemma_numbers_are_json_numbers(
    raw: Seq<char>,
    name: Seq<char>,
    declared: Seq<(String, Json)>,
)
    requires
        is_declared_as(declared, name, ParamKind::Number),
        lowercase(converted(raw)) != "null"@,
    ensures
        match finite_float_bits(converted(raw)) {
            Some(bits) => is_finite_pattern(bits) ==> {
                &&& param_model(raw, name, declared) !is Text
                &&& match whole_value(bits) {
                    Some(value) => json_of_parameter(raw, name, declared) == integer_text(
                        clamped(value) as int,
                    ),
                    None => json_of_parameter(raw, name, declared) == json_float_text(bits),
                }
            },
            None => json_of_parameter(raw, name, declared) == string_text(converted(raw)),
        },
{
}

/// The same of a number parameter, given the bits of the number: whether it becomes a number depends
/// on the bits alone, and never on how the text looks.
pub proof fn lemma_number_of_bits(text: Seq<char>, other: Seq<char>, bits: u64)
    requires
        is_finite_pattern(bits),
    ensures
        match whole_value(bits) {
            Some(value) => number_model(text, Some(bits)) == ArgumentModel::Int(clamped(value)),
            None => number_model(text, Some(bits)) == ArgumentModel::Float(text),
        },
        number_model(text, Some(bits)) is Int <==> number_model(other, Some(bits)) is Int,
        number_model(text, Some(bits)) is Float <==> number_model(other, Some(bits)) is Float,
        number_model(text, None) == ArgumentModel::Text(text),
{
}

/// A boolean parameter is `true` if its text is, in any letter case, and else `false`.
pub proof fn lemma_booleans_are_json_booleans(
    raw: Seq<char>,
    name: Seq<char>,
    declared: Seq<(String, Json)>,
)
    requires
        is_declared_as(declared, name, ParamKind::Boolean),
        lowercase(converted(raw)) != "null"@,
    ensures
        lowercase(converted(raw)) == "true"@ ==> json_of_parameter(raw, name, declared) == "true"@,
        lowercase(converted(raw)) != "true"@ ==> json_of_parameter(raw, name, declared) == "false"@,
{
}

/// An object, an array, or a parameter of an unknown type is the JSON that its text is; where it is
/// none, the JSON that it becomes with the literals of JSON in place of those of Python; and where
/// that is none either, the JSON string of its text.
pub proof fn lemma_structures_are_json(
    raw: Seq<char>,
    name: Seq<char>,
    declared: Seq<(String, Json)>,
)
    requires
        is_declared_as(declared, name, ParamKind::Structured) || is_declared_as(
            declared,
            name,
            ParamKind::Other,
        ),
        lowercase(converted(raw)) != "null"@,
    ensures
        match json_normal_form(converted(raw)) {
            Some(normal) => json_of_parameter(raw, name, declared) == normal,
            None => match json_normal_form(with_json_literals(converted(raw))) {
                Some(normal) => json_of_parameter(raw, name, declared) == normal,
                None => json_of_parameter(raw, name, declared) == string_text(converted(raw)),
            },
        },
{
}

/// Whether a text that may be structured is read as it stands depends on whether it is JSON alone; a
/// text that is JSON is never rewritten.
pub proof fn lemma_literals(text: Seq<char>, rewritten_is_json: bool)
    ensures
        literal_model(text, true, rewritten_is_json) == ArgumentModel::Json(text),
        literal_model(text, false, true) == ArgumentModel::Json(with_json_literals(text)),
        literal_model(text, false, false) == ArgumentModel::Text(text),
{
}

/// A value of which nothing is known is the JSON that its text is; and where it is none, the integer
/// or the number that it writes, a boolean or null by its word, and else the JSON string of its text
/// without the line feeds around it.
pub proof fn lemma_guessed_values(raw: Seq<char>)
    ensures
        ({
            let text = converted(raw);
            let json = json_text(guessed_model(raw));
            match json_normal_form(text) {
                Some(normal) => json == normal,
                None => match i64_value(text) {
                    Some(value) => json == integer_text(value as int),
                    None => match finite_float_bits(text) {
                        Some(bits) => json == json_float_text(bits),
                        None => {
                            let lower = lowercase(text);
                            &&& lower == "true"@ ==> json == "true"@
                            &&& lower == "false"@ ==> json == "false"@
                            &&& lower == "null"@ || lower == "none"@ ==> json == "null"@
                            &&& lower != "true"@ && lower != "false"@ && lower != "null"@ && lower
                                != "none"@ ==> json == string_text(trim_line_feeds(text))
                        },
                    },
                },
            }
        }),
{
    reveal_strlit("true");
    reveal_strlit("false");
    reveal_strlit("null");
    reveal_strlit("none");
    assert("true"@[0] == 't' && "false"@[0] == 'f' && "null"@[1] == 'u' && "none"@[1] == 'o'
        && "null"@[0] == 'n' && "none"@[0] == 'n');
}

/// The name of a parameter is one of these names.
pub open spec fn is_one_of(name: Seq<char>, names: Seq<Seq<char>>) -> bool {
    exists|i: int| 0 <= i < names.len() && #[trigger] names[i] == name
}

/// `members` are the arguments that parameters with these names and JSON texts give: exactly the names
/// that have a character, each exactly as it is, and under each name the text of the last parameter
/// of that name.
pub open spec fn are_members(
    members: Map<Seq<char>, Seq<char>>,
    names: Seq<Seq<char>>,
    values: Seq<Seq<char>>,
    keeps_empty: bool,
) -> bool {
    &&& forall|name: Seq<char>| #[trigger]
        members.contains_key(name) <==> is_one_of(name, names) && (keeps_empty || 0 < name.len())
    &&& forall|i: int|
        0 <= i < names.len() && members.contains_key(#[trigger] names[i]) && (forall|j: int|
            i < j < names.len() ==> names[j] != names[i]) ==> members[names[i]] == values[i]
}

/// Where the names are different and each has a character, the arguments have exactly these names, and
/// under each name the text of its parameter.
pub proof fn lemma_different_names(
    members: Map<Seq<char>, Seq<char>>,
    names: Seq<Seq<char>>,
    values: Seq<Seq<char>>,
    keeps_empty: bool,
)
    requires
        are_members(members, names, values, keeps_empty),
        forall|i: int| 0 <= i < names.len() ==> 0 < (#[trigger] names[i]).len(),
        forall|i: int, j: int| 0 <= i < j < names.len() ==> #[trigger] names[i] != #[trigger] names[j],
    ensures
        members.dom() == names.to_set(),
        forall|i: int| 0 <= i < names.len() ==> members[#[trigger] names[i]] == values[i],
{
    assert forall|name: Seq<char>| members.dom().contains(name) == names.to_set().contains(name) by {
        assert(members.contains_key(name) <==> is_one_of(name, names) && (keeps_empty || 0
            < name.len()));
        if is_one_of(name, names) {
            let i = choose|i: int| 0 <= i < names.len() && #[trigger] names[i] == name;
            assert(names.contains(name));
        }
        if names.contains(name) {
            let i = choose|i: int| 0 <= i < names.len() && names[i] == name;
            assert(names[i] == name);
        }
    }
    assert(members.dom() =~= names.to_set());
    assert forall|i: int| 0 <= i < names.len() implies members[#[trigger] names[i]] == values[i] by {
        assert(is_one_of(names[i], names));
        assert(members.contains_key(names[i]));
    }
}

/// One more parameter gives its value to its name, and changes nothing else.
proof fn lemma_one_more_member(
    members: Map<Seq<char>, Seq<char>>,
    names: Seq<Seq<char>>,
    values: Seq<Seq<char>>,
    keeps_empty: bool,
    name: Seq<char>,
    value: Seq<char>,
)
    requires
        names.len() == values.len(),
        are_members(members, names, values, keeps_empty),
    ensures
        are_members(
            if keeps_empty || 0 < name.len() {
                members.insert(name, value)
            } else {
                members
            },
            names.push(name),
            values.push(value),
            keeps_empty,
        ),
{
    let kept = keeps_empty || 0 < name.len();
    let more = if kept {
        members.insert(name, value)
    } else {
        members
    };
    let longer = names.push(name);
    let count = names.len() as int;
    assert(longer[count] == name);
    assert forall|other: Seq<char>| #[trigger]
        more.contains_key(other) <==> is_one_of(other, longer) && (keeps_empty || 0
            < other.len()) by {
        assert(members.contains_key(other) <==> is_one_of(other, names) && (keeps_empty || 0
            < other.len()));
        if is_one_of(other, names) {
            let i = choose|i: int| 0 <= i < names.len() && #[trigger] names[i] == other;
            assert(longer[i] == other);
        }
        if is_one_of(other, longer) {
            let i = choose|i: int| 0 <= i < longer.len() && #[trigger] longer[i] == other;
            if i < count {
                assert(names[i] == other);
            }
        }
    }
    assert forall|i: int|
        0 <= i < longer.len() && more.contains_key(#[trigger] longer[i]) && (forall|j: int|
            i < j < longer.len() ==> longer[j] != longer[i]) implies more[longer[i]]
        == values.push(value)[i] by {
        if i < count {
            assert(longer[count] != longer[i]);
            assert(longer[i] == names[i]);
            assert(members.contains_key(names[i]));
            assert forall|j: int| i < j < names.len() implies names[j] != names[i] by {
                assert(longer[j] == names[j]);
            }
        }
    }
}

/// The names of XML parameters, without quotes.
pub open spec fn xml_names(elements: Seq<(Seq<char>, Seq<char>)>) -> Seq<Seq<char>> {
    elements.map_values(|element: (Seq<char>, Seq<char>)| unquoted(element.0))
}

/// The JSON texts of XML parameters.
pub open spec fn xml_values(
    elements: Seq<(Seq<char>, Seq<char>)>,
    declared: Seq<(String, Json)>,
) -> Seq<Seq<char>> {
    elements.map_values(
        |element: (Seq<char>, Seq<char>)|
            json_of_parameter(element.1, unquoted(element.0), declared),
    )
}

/// The arguments of a function in XML style are its parameters: their names, character by character
/// as they are written but for quotes and white space around them, and under each name the JSON of
/// the last parameter of that name. A parameter without a name gives nothing.
pub proof fn lemma_xml_arguments_are_the_parameters(
    elements: Seq<(Seq<char>, Seq<char>)>,
    declared: Seq<(String, Json)>,
)
    ensures
        are_members(
            xml::arguments_of(elements, declared),
            xml_names(elements),
            xml_values(elements, declared),
            false,
        ),
    decreases elements.len(),
{
    let names = xml_names(elements);
    let values = xml_values(elements, declared);
    if 0 < elements.len() {
        let others = elements.drop_last();
        let last = elements.last();
        let name = unquoted(last.0);
        lemma_xml_arguments_are_the_parameters(others, declared);
        assert(names =~= xml_names(others).push(name));
        assert(values =~= xml_values(others, declared).push(
            json_of_parameter(last.1, name, declared),
        ));
        lemma_one_more_member(
            xml::arguments_of(others, declared),
            xml_names(others),
            xml_values(others, declared),
            false,
            name,
            json_of_parameter(last.1, name, declared),
        );
    }
}

/// The JSON that stands for a DSML parameter: a string where it is marked as one, whatever it looks
/// like; else the JSON that its text is, or the JSON string of its text where it is none.
pub open spec fn dsml_json(element: Element) -> Seq<char> {
    let text = trim(element.body);
    if element.is_string {
        string_text(text)
    } else {
        match json_normal_form(text) {
            Some(normal) => normal,
            None => string_text(text),
        }
    }
}

/// The names of DSML parameters.
pub open spec fn dsml_names(elements: Seq<Element>) -> Seq<Seq<char>> {
    elements.map_values(|element: Element| trim(element.name))
}

/// The JSON texts of DSML parameters.
pub open spec fn dsml_values(elements: Seq<Element>) -> Seq<Seq<char>> {
    elements.map_values(|element: Element| dsml_json(element))
}

/// The arguments of a call in DSML are its parameters: their names, character by character as they
/// are written but for white space around them, and under each name the JSON of the last parameter
/// of that name. A parameter that is marked as a string is the JSON string of its text, whether or
/// not that text is JSON.
pub proof fn lemma_dsml_arguments_are_the_parameters(elements: Seq<Element>)
    ensures
        are_members(
            dsml::arguments_of(elements),
            dsml_names(elements),
            dsml_values(elements),
            true,
        ),
    decreases elements.len(),
{
    if 0 < elements.len() {
        let others = elements.drop_last();
        let last = elements.last();
        lemma_dsml_arguments_are_the_parameters(others);
        assert(dsml_names(elements) =~= dsml_names(others).push(trim(last.name)));
        assert(dsml_values(elements) =~= dsml_values(others).push(dsml_json(last)));
        lemma_one_more_member(
            dsml::arguments_of(others),
            dsml_names(others),
            dsml_values(others),
            true,
            trim(last.name),
            dsml_json(last),
        );
    }
}

/// A DSML parameter that is marked as a string keeps its text, whether or not it is JSON.
pub proof fn lemma_marked_strings_stay_strings(text: Seq<char>, is_json: bool)
    ensures
        dsml::value_model(text, true, is_json) == ArgumentModel::Text(text),
        dsml::value_model(text, false, true) == ArgumentModel::Json(text),
        dsml::value_model(text, false, false) == ArgumentModel::Text(text),
{
}

} // verus!

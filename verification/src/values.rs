//! Parameter values, read from the text that stands between the tags.
use vstd::prelude::*;

use crate::arguments::{
    ArgumentModel, ArgumentValue, finite_float_bits, float_bits, is_writable, json_normal_form,
    normalize_json,
};
use crate::number::{
    clamped, finite_pattern, i64_value, is_finite_pattern, parse_i64, whole_number, whole_value,
};
use crate::schema::{
    Json, ParamKind, declared_type, find_member, kind_named, kind_of, member, named_type,
};
use crate::text::{
    lowercase, lowered, replace_all, replaced, same_text, to_chars, trim, trim_line_feeds, trimmed,
    trimmed_line_feeds,
};

verus! {

/// `text` begins with a quote and ends with another of the same kind.
pub open spec fn is_quoted(text: Seq<char>) -> bool {
    2 <= text.len() && text[0] == text.last() && (text[0] == '"' || text[0] == '\'')
}

/// `text` without the white space around it and then without the quotes around it.
pub open spec fn unquoted(text: Seq<char>) -> Seq<char> {
    let bare = trim(text);
    if is_quoted(bare) {
        bare.subrange(1, bare.len() - 1)
    } else {
        bare
    }
}

/// `text` with the common HTML entities replaced, one after the other, by what they stand for.
pub open spec fn unescaped(text: Seq<char>) -> Seq<char> {
    let less = replace_all(text, "&lt;"@, "<"@);
    let greater = replace_all(less, "&gt;"@, ">"@);
    let ampersand = replace_all(greater, "&amp;"@, "&"@);
    let quote = replace_all(ampersand, "&quot;"@, "\""@);
    let hexadecimal = replace_all(quote, "&#x27;"@, "'"@);
    replace_all(hexadecimal, "&#39;"@, "'"@)
}

/// `text` with the literals of Python replaced, one after the other, by those of JSON.
pub open spec fn with_json_literals(text: Seq<char>) -> Seq<char> {
    let quotes = replace_all(text, "'"@, "\""@);
    let yes = replace_all(quotes, "True"@, "true"@);
    let no = replace_all(yes, "False"@, "false"@);
    replace_all(no, "None"@, "null"@)
}

/// The value of a number parameter, given the bit pattern of the number that `text` writes: a
/// whole number is held as an integer, and what is no finite number stays text.
pub open spec fn number_model(text: Seq<char>, bits: Option<u64>) -> ArgumentModel {
    match bits {
        Some(pattern) => if !is_finite_pattern(pattern) {
            ArgumentModel::Text(text)
        } else {
            match whole_value(pattern) {
                Some(value) => ArgumentModel::Int(clamped(value)),
                None => ArgumentModel::Float(text),
            }
        },
        None => ArgumentModel::Text(text),
    }
}

/// The value of a parameter that may be structured, given whether `text`, and `text` with the
/// literals of JSON, are JSON; what is neither stays text.
pub open spec fn literal_model(
    text: Seq<char>,
    is_json: bool,
    rewritten_is_json: bool,
) -> ArgumentModel {
    if is_json {
        ArgumentModel::Json(text)
    } else if rewritten_is_json {
        ArgumentModel::Json(with_json_literals(text))
    } else {
        ArgumentModel::Text(text)
    }
}

/// The value that `text` gives to a parameter of this kind.
pub open spec fn typed_model(text: Seq<char>, kind: ParamKind) -> ArgumentModel {
    match kind {
        ParamKind::Text => ArgumentModel::Text(text),
        ParamKind::Integer => match i64_value(text) {
            Some(value) => ArgumentModel::Int(value),
            None => ArgumentModel::Text(text),
        },
        ParamKind::Number => number_model(text, finite_float_bits(text)),
        ParamKind::Boolean => ArgumentModel::Bool(lowercase(text) == "true"@),
        ParamKind::Structured | ParamKind::Other => literal_model(
            text,
            json_normal_form(text) is Some,
            json_normal_form(with_json_literals(text)) is Some,
        ),
    }
}

/// The value that the text between a parameter's tags gives to the parameter, by what the tool
/// declares of it.
pub open spec fn param_model(
    raw: Seq<char>,
    name: Seq<char>,
    declared: Seq<(String, Json)>,
) -> ArgumentModel {
    let text = unescaped(trim(raw));
    if lowercase(text) == "null"@ {
        ArgumentModel::Null
    } else {
        match member(declared, name) {
            Some(schema) => typed_model(text, kind_named(named_type(schema))),
            None => ArgumentModel::Text(text),
        }
    }
}

/// The value that `raw` writes when nothing is known of its type.
pub open spec fn guessed_model(raw: Seq<char>) -> ArgumentModel {
    let text = unescaped(trim(raw));
    if json_normal_form(text) is Some {
        ArgumentModel::Json(text)
    } else if i64_value(text) is Some {
        ArgumentModel::Int(i64_value(text)->0)
    } else if finite_float_bits(text) is Some {
        ArgumentModel::Float(text)
    } else if lowercase(text) == "true"@ {
        ArgumentModel::Bool(true)
    } else if lowercase(text) == "false"@ {
        ArgumentModel::Bool(false)
    } else if lowercase(text) == "null"@ || lowercase(text) == "none"@ {
        ArgumentModel::Null
    } else {
        ArgumentModel::Text(trim_line_feeds(text))
    }
}

/// `text` without the white space around it and then without the quotes around it: one layer of
/// them, and a quote that stands alone, or on one side only, stays.
pub fn strip_quotes(text: &str) -> (bare: &str)
    ensures
        bare@ == unquoted(text@),
{
    let bare = trimmed(text);
    let chars = to_chars(bare);
    let count = chars.len();
    if 2 <= count && chars[0] == chars[count - 1] && (chars[0] == '"' || chars[0] == '\'') {
        bare.substring_char(1, count - 1)
    } else {
        bare
    }
}

/// `text` with the common HTML entities replaced, one after the other, by what they stand for.
pub fn html_unescape(text: &str) -> (plain: String)
    ensures
        plain@ == unescaped(text@),
{
    proof {
        reveal_strlit("&lt;");
        reveal_strlit("&gt;");
        reveal_strlit("&amp;");
        reveal_strlit("&quot;");
        reveal_strlit("&#x27;");
        reveal_strlit("&#39;");
    }
    let less = replaced(text, "&lt;", "<");
    let greater = replaced(less.as_str(), "&gt;", ">");
    let ampersand = replaced(greater.as_str(), "&amp;", "&");
    let quote = replaced(ampersand.as_str(), "&quot;", "\"");
    let hexadecimal = replaced(quote.as_str(), "&#x27;", "'");
    replaced(hexadecimal.as_str(), "&#39;", "'")
}

/// `text` with the literals of Python replaced, one after the other, by those of JSON.
pub fn python_to_json(text: &str) -> (json: String)
    ensures
        json@ == with_json_literals(text@),
{
    proof {
        reveal_strlit("'");
        reveal_strlit("True");
        reveal_strlit("False");
        reveal_strlit("None");
    }
    let quotes = replaced(text, "'", "\"");
    let yes = replaced(quotes.as_str(), "True", "true");
    let no = replaced(yes.as_str(), "False", "false");
    replaced(no.as_str(), "None", "null")
}

/// The value of a number parameter, given the bit pattern of the number that `text` writes.
pub fn number_value(text: String, bits: Option<u64>) -> (value: ArgumentValue)
    ensures
        value@ == number_model(text@, bits),
{
    match bits {
        Some(pattern) => {
            if !finite_pattern(pattern) {
                return ArgumentValue::Text(text);
            }
            match whole_number(pattern) {
                Some(whole) => ArgumentValue::Int(whole),
                None => ArgumentValue::Float(text),
            }
        },
        None => ArgumentValue::Text(text),
    }
}

/// The value of a parameter that may be structured, given whether `text`, and `text` with the
/// literals of JSON, are JSON.
pub fn literal_value(text: String, is_json: bool, rewritten_is_json: bool) -> (value: ArgumentValue)
    ensures
        value@ == literal_model(text@, is_json, rewritten_is_json),
{
    if is_json {
        ArgumentValue::Json(text)
    } else if rewritten_is_json {
        ArgumentValue::Json(python_to_json(text.as_str()))
    } else {
        ArgumentValue::Text(text)
    }
}

/// Reads `text` as JSON or as a literal in the manner of Python.
pub fn try_literal_eval(text: &str) -> (value: Result<ArgumentValue, ()>)
    ensures
        match value {
            Ok(value) => value@ == literal_model(
                text@,
                json_normal_form(text@) is Some,
                json_normal_form(with_json_literals(text@)) is Some,
            ) && value@ is Json && is_writable(value@),
            Err(_) => json_normal_form(text@) is None && json_normal_form(
                with_json_literals(text@),
            ) is None,
        },
{
    let is_json = normalize_json(text).is_some();
    let rewritten = python_to_json(text);
    let rewritten_is_json = normalize_json(rewritten.as_str()).is_some();
    if is_json || rewritten_is_json {
        Ok(literal_value(text.to_owned(), is_json, rewritten_is_json))
    } else {
        Err(())
    }
}

/// The value that `text` gives to a parameter of this kind.
pub fn typed_value(text: String, kind: ParamKind) -> (value: ArgumentValue)
    ensures
        value@ == typed_model(text@, kind),
        is_writable(value@),
{
    match kind {
        ParamKind::Text => ArgumentValue::Text(text),
        ParamKind::Integer => match parse_i64(text.as_str()) {
            Some(value) => ArgumentValue::Int(value),
            None => ArgumentValue::Text(text),
        },
        ParamKind::Number => {
            let bits = float_bits(text.as_str());
            number_value(text, bits)
        },
        ParamKind::Boolean => {
            let lower = lowered(text.as_str());
            ArgumentValue::Bool(same_text(lower.as_str(), "true"))
        },
        ParamKind::Structured | ParamKind::Other => match try_literal_eval(text.as_str()) {
            Ok(value) => value,
            Err(_) => ArgumentValue::Text(text),
        },
    }
}

/// The value that the text between a parameter's tags gives to the parameter, by what the tool
/// declares of its parameters.
///
/// The text is trimmed and its HTML entities are replaced. `null`, in any letter case, is the
/// null value whatever the parameter's type is, and the value of a parameter that is not declared
/// stays text.
pub fn convert_param_value(
    param_value: &str,
    param_name: &str,
    param_config: Option<&Vec<(String, Json)>>,
) -> (value: ArgumentValue)
    ensures
        value@ == param_model(
            param_value@,
            param_name@,
            match param_config {
                Some(members) => members@,
                None => Seq::empty(),
            },
        ),
        is_writable(value@),
{
    let text = html_unescape(trimmed(param_value));
    let lower = lowered(text.as_str());
    if same_text(lower.as_str(), "null") {
        return ArgumentValue::Null;
    }
    let schema = match param_config {
        Some(members) => find_member(members, param_name),
        None => None,
    };
    match schema {
        Some(schema) => {
            let declared = declared_type(schema);
            typed_value(text, kind_of(declared.as_str()))
        },
        None => ArgumentValue::Text(text),
    }
}

/// The value that `raw` writes when nothing is known of its type.
pub fn safe_parse_value(raw: &str) -> (value: ArgumentValue)
    ensures
        value@ == guessed_model(raw@),
        is_writable(value@),
{
    let text = html_unescape(trimmed(raw));
    if normalize_json(text.as_str()).is_some() {
        return ArgumentValue::Json(text);
    }
    if let Some(value) = parse_i64(text.as_str()) {
        return ArgumentValue::Int(value);
    }
    if float_bits(text.as_str()).is_some() {
        return ArgumentValue::Float(text);
    }
    let lower = lowered(text.as_str());
    if same_text(lower.as_str(), "true") {
        ArgumentValue::Bool(true)
    } else if same_text(lower.as_str(), "false") {
        ArgumentValue::Bool(false)
    } else if same_text(lower.as_str(), "null") || same_text(lower.as_str(), "none") {
        ArgumentValue::Null
    } else {
        ArgumentValue::Text(trimmed_line_feeds(text.as_str()).to_owned())
    }
}

} // verus!

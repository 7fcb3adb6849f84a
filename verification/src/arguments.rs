//! The arguments of a tool call and their JSON text.
use vstd::prelude::*;

use crate::number::integer_text;

verus! {

/// The value of one argument.
#[derive(Debug, Clone, PartialEq, Eq)]
pub enum ArgumentValue {
    /// The JSON value `null`.
    Null,
    /// A JSON boolean.
    Bool(bool),
    /// A JSON number without a fraction.
    Int(i64),
    /// A finite JSON number with a fraction, as the decimal text that it was read from.
    Float(String),
    /// A JSON string with these characters.
    Text(String),
    /// Any JSON value, as the JSON text that it was read from.
    Json(String),
}

/// What an [`ArgumentValue`] stands for.
pub enum ArgumentModel {
    Null,
    Bool(bool),
    Int(i64),
    Float(Seq<char>),
    Text(Seq<char>),
    Json(Seq<char>),
}

impl View for ArgumentValue {
    type V = ArgumentModel;

    open spec fn view(&self) -> ArgumentModel {
        match self {
            ArgumentValue::Null => ArgumentModel::Null,
            ArgumentValue::Bool(value) => ArgumentModel::Bool(*value),
            ArgumentValue::Int(value) => ArgumentModel::Int(*value),
            ArgumentValue::Float(text) => ArgumentModel::Float(text@),
            ArgumentValue::Text(text) => ArgumentModel::Text(text@),
            ArgumentValue::Json(text) => ArgumentModel::Json(text@),
        }
    }
}

/// The text that `serde_json` writes for the JSON value that it reads from `text`; `None` where it
/// does not read `text` as one JSON value.
pub uninterp spec fn json_normal_form(text: Seq<char>) -> Option<Seq<char>>;

/// The binary64 bit pattern of the finite number that `text` writes as a decimal, in the notation
/// of Rust's `FromStr`; `None` where it writes none.
pub uninterp spec fn finite_float_bits(text: Seq<char>) -> Option<u64>;

/// The text that `serde_json` writes for the finite number with this binary64 bit pattern.
pub uninterp spec fn json_float_text(bits: u64) -> Seq<char>;

/// The members that a map of `serde_json` holds: under each name, the JSON text of the value.
pub uninterp spec fn map_members(map: serde_json::Map<String, serde_json::Value>) -> Map<
    Seq<char>,
    Seq<char>,
>;

/// The members of the empty JSON object.
pub open spec fn no_members() -> Map<Seq<char>, Seq<char>> {
    Map::empty()
}

/// What stands for a character in a JSON string: two characters for a quote, a backslash and the
/// control characters that have a letter, six for the other control characters, and the character
/// itself for every other one.
pub open spec fn escaped_char(c: char) -> Seq<char> {
    if c == '"' {
        seq!['\\', '"']
    } else if c == '\\' {
        seq!['\\', '\\']
    } else if c == '\u{8}' {
        seq!['\\', 'b']
    } else if c == '\t' {
        seq!['\\', 't']
    } else if c == '\n' {
        seq!['\\', 'n']
    } else if c == '\u{c}' {
        seq!['\\', 'f']
    } else if c == '\r' {
        seq!['\\', 'r']
    } else if (c as int) < 0x20 {
        let digits = "0123456789abcdef"@;
        seq!['\\', 'u', '0', '0', digits[c as int / 16], digits[c as int % 16]]
    } else {
        seq![c]
    }
}

/// What stands for characters in a JSON string.
pub open spec fn escaped_chars(text: Seq<char>) -> Seq<char>
    decreases text.len(),
{
    if text.len() == 0 {
        text
    } else {
        escaped_chars(text.drop_last()) + escaped_char(text.last())
    }
}

/// The JSON text of the string with these characters.
pub open spec fn string_text(text: Seq<char>) -> Seq<char> {
    seq!['"'] + escaped_chars(text) + seq!['"']
}

/// `first` comes before `second` in the order of texts: in the first place in which they differ, its
/// character is the lesser one, or it ends there.
pub open spec fn comes_before(first: Seq<char>, second: Seq<char>) -> bool
    decreases first.len(),
{
    if second.len() == 0 {
        false
    } else if first.len() == 0 {
        true
    } else if first[0] == second[0] {
        comes_before(first.drop_first(), second.drop_first())
    } else {
        first[0] < second[0]
    }
}

/// `names` are the names of the members, in the order of texts.
pub open spec fn is_listing(names: Seq<Seq<char>>, members: Map<Seq<char>, Seq<char>>) -> bool {
    &&& forall|i: int, j: int|
        0 <= i < j < names.len() ==> comes_before(#[trigger] names[i], #[trigger] names[j])
    &&& forall|name: Seq<char>| #[trigger] names.contains(name) <==> members.contains_key(name)
}

/// The names of the members, in the order of texts.
pub open spec fn listing(members: Map<Seq<char>, Seq<char>>) -> Seq<Seq<char>> {
    choose|names: Seq<Seq<char>>| is_listing(names, members)
}

/// The JSON texts of the members with these names, with commas between them.
pub open spec fn members_text(names: Seq<Seq<char>>, members: Map<Seq<char>, Seq<char>>) -> Seq<
    char,
>
    decreases names.len(),
{
    if names.len() == 0 {
        Seq::empty()
    } else {
        let member = string_text(names.last()) + seq![':'] + members[names.last()];
        if names.len() == 1 {
            member
        } else {
            members_text(names.drop_last(), members) + seq![','] + member
        }
    }
}

/// The JSON text of the object with these members, given by their names and the JSON texts of their
/// values. The members stand in it in the order of their names.
pub open spec fn object_text(members: Map<Seq<char>, Seq<char>>) -> Seq<char> {
    seq!['{'] + members_text(listing(members), members) + seq!['}']
}

/// The JSON text of a boolean.
pub open spec fn bool_text(value: bool) -> Seq<char> {
    if value {
        "true"@
    } else {
        "false"@
    }
}

/// The JSON text of a value.
pub open spec fn json_text(value: ArgumentModel) -> Seq<char> {
    match value {
        ArgumentModel::Null => "null"@,
        ArgumentModel::Bool(value) => bool_text(value),
        ArgumentModel::Int(value) => integer_text(value as int),
        ArgumentModel::Float(text) => json_float_text(finite_float_bits(text)->0),
        ArgumentModel::Text(text) => string_text(text),
        ArgumentModel::Json(text) => json_normal_form(text)->0,
    }
}

/// The value has a JSON text: where it is held as text, that text was read as what it is held for.
pub open spec fn is_writable(value: ArgumentModel) -> bool {
    match value {
        ArgumentModel::Float(text) => finite_float_bits(text) is Some,
        ArgumentModel::Json(text) => json_normal_form(text) is Some,
        _ => true,
    }
}

/// Reads `text` with `serde_json::from_str` as one JSON value and writes that value with the
/// `Display` of `serde_json::Value`, its compact text. What both give together is a function of
/// `text`, and nothing more is claimed of it.
#[verifier::external_body]
pub(crate) fn normalize_json(text: &str) -> (normal: Option<String>)
    ensures
        match normal {
            Some(written) => json_normal_form(text@) == Some(written@),
            None => json_normal_form(text@) is None,
        },
{
    let value: serde_json::Value = serde_json::from_str(text).ok()?;
    Some(value.to_string())
}

/// Reads `text` with `str::parse` as a binary64 number and takes it through
/// `serde_json::Number::from_f64`, which refuses what is not finite, and `Number::as_f64`, which
/// gives the number back. The result is the bit pattern of the number, a function of `text`.
#[verifier::external_body]
pub(crate) fn float_bits(text: &str) -> (bits: Option<u64>)
    ensures
        bits == finite_float_bits(text@),
{
    let number = serde_json::Number::from_f64(text.parse().ok()?)?;
    number.as_f64().map(|value| value.to_bits())
}

/// A JSON value of `serde_json`.
#[verifier::external_type_specification]
#[verifier::external_body]
pub struct ExValue(serde_json::Value);

/// A map of `serde_json`.
#[verifier::external_type_specification]
#[verifier::external_body]
#[verifier::reject_recursive_types(K)]
#[verifier::reject_recursive_types(V)]
pub struct ExMap<K, V>(serde_json::Map<K, V>);

/// `serde_json::Map::new`: a map without members.
#[verifier::external_body]
fn empty_map() -> (map: serde_json::Map<String, serde_json::Value>)
    ensures
        map_members(map) == no_members(),
{
    serde_json::Map::new()
}

/// `serde_json::Map::insert` of `Value::Null`, whose text is `null`. A value that the name had is
/// replaced, and the other members stay.
#[verifier::external_body]
fn put_null(map: &mut serde_json::Map<String, serde_json::Value>, name: String)
    ensures
        map_members(*final(map)) == map_members(*old(map)).insert(name@, "null"@),
{
    map.insert(name, serde_json::Value::Null);
}

/// `serde_json::Map::insert` of a boolean, made a value by `From`, whose text is `true` or `false`. A
/// value that the name had is replaced, and the other members stay.
#[verifier::external_body]
fn put_bool(map: &mut serde_json::Map<String, serde_json::Value>, name: String, value: bool)
    ensures
        map_members(*final(map)) == map_members(*old(map)).insert(name@, bool_text(value)),
{
    map.insert(name, value.into());
}

/// `serde_json::Map::insert` of an integer, made a value by `From`, whose text is its decimal form.
/// A value that the name had is replaced, and the other members stay.
#[verifier::external_body]
fn put_int(map: &mut serde_json::Map<String, serde_json::Value>, name: String, value: i64)
    ensures
        map_members(*final(map)) == map_members(*old(map)).insert(
            name@,
            integer_text(value as int),
        ),
{
    map.insert(name, value.into());
}

/// `serde_json::Map::insert` of the number that `text` writes, read with `str::parse` and made a
/// value by `serde_json::Number::from_f64` and `From`; its text is a function of its bit pattern.
/// The text writes a finite number, so that reading it succeeds. A value that the name had is
/// replaced, and the other members stay.
#[verifier::external_body]
fn put_float(map: &mut serde_json::Map<String, serde_json::Value>, name: String, text: &str)
    requires
        finite_float_bits(text@) is Some,
    ensures
        map_members(*final(map)) == map_members(*old(map)).insert(
            name@,
            json_float_text(finite_float_bits(text@)->0),
        ),
{
    map.insert(name, serde_json::Number::from_f64(text.parse().unwrap()).into());
}

/// `serde_json::Map::insert` of a string, made a value by `From`. Its text is the characters between
/// quotes, with escapes for quotes, backslashes and control characters. A value that the name had is
/// replaced, and the other members stay.
#[verifier::external_body]
fn put_text(map: &mut serde_json::Map<String, serde_json::Value>, name: String, text: &str)
    ensures
        map_members(*final(map)) == map_members(*old(map)).insert(name@, string_text(text@)),
{
    map.insert(name, text.into());
}

/// `serde_json::Map::insert` of the value that `serde_json::from_str` reads from `text`, whose text
/// is the normal form of `text`. The text is JSON, so that reading it succeeds. A value that the
/// name had is replaced, and the other members stay.
#[verifier::external_body]
fn put_json(map: &mut serde_json::Map<String, serde_json::Value>, name: String, text: &str)
    requires
        json_normal_form(text@) is Some,
    ensures
        map_members(*final(map)) == map_members(*old(map)).insert(
            name@,
            json_normal_form(text@)->0,
        ),
{
    map.insert(name, serde_json::from_str(text).unwrap());
}

/// `serde_json::to_string` of a map: its compact text. Between braces stand the members, with commas
/// between them, each as the text of its name, a colon and the text of its value. They stand in the
/// order of their names: without the feature `preserve_order` the map is a `BTreeMap`, and strings
/// are ordered as their characters are.
#[verifier::external_body]
fn map_text(map: &serde_json::Map<String, serde_json::Value>) -> (text: String)
    ensures
        text@ == object_text(map_members(*map)),
{
    serde_json::to_string(map).unwrap()
}

/// The arguments of one call: values under names, no name twice.
pub struct Arguments {
    members: serde_json::Map<String, serde_json::Value>,
}

impl View for Arguments {
    type V = Map<Seq<char>, Seq<char>>;

    /// The names, and under each the JSON text of its value.
    closed spec fn view(&self) -> Map<Seq<char>, Seq<char>> {
        map_members(self.members)
    }
}

impl Arguments {
    /// No arguments.
    pub fn new() -> (arguments: Arguments)
        ensures
            arguments@ == no_members(),
    {
        Arguments { members: empty_map() }
    }

    /// Puts `value` under `name`, in place of the value that `name` had.
    pub fn insert(&mut self, name: String, value: ArgumentValue)
        requires
            is_writable(value@),
        ensures
            final(self)@ == old(self)@.insert(name@, json_text(value@)),
    {
        match value {
            ArgumentValue::Null => put_null(&mut self.members, name),
            ArgumentValue::Bool(value) => put_bool(&mut self.members, name, value),
            ArgumentValue::Int(value) => put_int(&mut self.members, name, value),
            ArgumentValue::Float(text) => put_float(&mut self.members, name, text.as_str()),
            ArgumentValue::Text(text) => put_text(&mut self.members, name, text.as_str()),
            ArgumentValue::Json(text) => put_json(&mut self.members, name, text.as_str()),
        }
    }

    /// The compact JSON text of the object with these members.
    pub fn to_json(&self) -> (text: String)
        ensures
            text@ == object_text(self@),
    {
        map_text(&self.members)
    }
}

} // verus!

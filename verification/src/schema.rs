//! Tool definitions and what they declare of their parameters.
use vstd::prelude::*;

use crate::text::{has_prefix, lowercase, lowered, same_text, token_at};

verus! {

/// A JSON document, such as the schema of a tool's parameters.
///
/// The members of an object stand under different names.
#[derive(Debug, PartialEq, Eq)]
pub enum Json {
    Null,
    Bool(bool),
    /// A number, as its JSON text.
    Number(String),
    Text(String),
    Array(Vec<Json>),
    Object(Vec<(String, Json)>),
}

/// A tool that the model may call.
#[derive(Debug)]
pub struct ToolDefinition {
    pub name: String,
    pub parameters: Option<Json>,
}

/// What kind of value a parameter takes, by the name of its type.
#[derive(Debug, Clone, Copy, PartialEq, Eq, Structural)]
pub enum ParamKind {
    /// A string.
    Text,
    /// A whole number.
    Integer,
    /// Any number.
    Number,
    /// `true` or `false`.
    Boolean,
    /// An object or an array.
    Structured,
    /// A type that is not known.
    Other,
}

/// The value of the first member with this name.
pub open spec fn member(members: Seq<(String, Json)>, name: Seq<char>) -> Option<Json>
    decreases members.len(),
{
    if members.len() == 0 {
        None
    } else if members[0].0@ == name {
        Some(members[0].1)
    } else {
        member(members.drop_first(), name)
    }
}

/// The member of an object with this name; a document of another kind has none.
pub open spec fn json_get(json: Json, name: Seq<char>) -> Option<Json> {
    match json {
        Json::Object(members) => member(members@, name),
        _ => None,
    }
}

/// The parameters that a schema declares: the members of `properties`, or, where it has no
/// `properties`, its own members.
pub open spec fn declared_by(schema: Json) -> Seq<(String, Json)> {
    match json_get(schema, "properties"@) {
        Some(Json::Object(members)) => members@,
        Some(_) => Seq::empty(),
        None => match schema {
            Json::Object(members) => members@,
            _ => Seq::empty(),
        },
    }
}

/// The parameters that the first tool with this name declares.
pub open spec fn declared_in(tools: Seq<ToolDefinition>, name: Seq<char>) -> Seq<(String, Json)>
    decreases tools.len(),
{
    if tools.len() == 0 {
        Seq::empty()
    } else if tools[0].name@ == name {
        match tools[0].parameters {
            Some(schema) => declared_by(schema),
            None => Seq::empty(),
        }
    } else {
        declared_in(tools.drop_first(), name)
    }
}

/// The parameters that the tool with this name declares, where there are tool definitions.
pub open spec fn declared(tools: Option<&[ToolDefinition]>, name: Seq<char>) -> Seq<
    (String, Json),
> {
    match tools {
        Some(tools) => declared_in(tools@, name),
        None => Seq::empty(),
    }
}

/// The name of the type that a parameter's schema gives, in lower case: that of `type`, else
/// `object` where the schema lists alternatives, else `string`.
pub open spec fn named_type(schema: Json) -> Seq<char> {
    match json_get(schema, "type"@) {
        Some(Json::Text(name)) => lowercase(name@),
        _ => if json_get(schema, "anyOf"@) is Some || json_get(schema, "oneOf"@) is Some {
            "object"@
        } else {
            "string"@
        },
    }
}

/// The kind of value that a type name stands for.
pub open spec fn kind_named(name: Seq<char>) -> ParamKind {
    if name == "string"@ || name == "str"@ || name == "text"@ || name == "varchar"@ || name
        == "char"@ || name == "enum"@ {
        ParamKind::Text
    } else if token_at(name, 0, "int"@) || token_at(name, 0, "uint"@) || token_at(name, 0, "long"@)
        || token_at(name, 0, "short"@) || token_at(name, 0, "unsigned"@) {
        ParamKind::Integer
    } else if token_at(name, 0, "num"@) || token_at(name, 0, "float"@) || name == "double"@ {
        ParamKind::Number
    } else if name == "boolean"@ || name == "bool"@ || name == "binary"@ {
        ParamKind::Boolean
    } else if name == "object"@ || name == "array"@ || name == "arr"@ || token_at(name, 0, "dict"@)
        || token_at(name, 0, "list"@) {
        ParamKind::Structured
    } else {
        ParamKind::Other
    }
}

/// The value of the first member with this name.
pub fn find_member<'a>(members: &'a Vec<(String, Json)>, name: &str) -> (found: Option<&'a Json>)
    ensures
        match found {
            Some(value) => member(members@, name@) == Some(*value),
            None => member(members@, name@) is None,
        },
{
    let count = members.len();
    let mut i: usize = 0;
    assert(members@.skip(0) == members@);
    while i < count
        invariant
            count == members@.len(),
            i <= count,
            member(members@, name@) == member(members@.skip(i as int), name@),
        decreases count - i,
    {
        assert(members@.skip(i as int).drop_first() == members@.skip(i + 1));
        if same_text(members[i].0.as_str(), name) {
            return Some(&members[i].1);
        }
        i += 1;
    }
    None
}

impl Json {
    /// The member of an object with this name; a document of another kind has none.
    pub fn get(&self, name: &str) -> (found: Option<&Json>)
        ensures
            match found {
                Some(value) => json_get(*self, name@) == Some(*value),
                None => json_get(*self, name@) is None,
            },
    {
        match self {
            Json::Object(members) => find_member(members, name),
            _ => None,
        }
    }
}

/// The parameters that a schema declares; `None` where it declares none.
pub fn declared_parameters<'a>(schema: &'a Json) -> (found: Option<&'a Vec<(String, Json)>>)
    ensures
        declared_by(*schema) == match found {
            Some(members) => members@,
            None => Seq::empty(),
        },
{
    match schema.get("properties") {
        Some(properties) => match properties {
            Json::Object(members) => Some(members),
            _ => None,
        },
        None => match schema {
            Json::Object(members) => Some(members),
            _ => None,
        },
    }
}

/// The parameters that the tool with this name declares; `None` where it declares none or no such
/// tool is defined.
pub fn get_arguments_config<'a>(func_name: &str, tools: Option<&'a [ToolDefinition]>) -> (found:
    Option<&'a Vec<(String, Json)>>)
    ensures
        declared(tools, func_name@) == match found {
            Some(members) => members@,
            None => Seq::empty(),
        },
{
    match tools {
        Some(defined) => {
            let count = defined.len();
            let mut i: usize = 0;
            assert(defined@.skip(0) == defined@);
            while i < count
                invariant
                    tools == Some(defined),
                    count == defined@.len(),
                    i <= count,
                    declared_in(defined@, func_name@) == declared_in(
                        defined@.skip(i as int),
                        func_name@,
                    ),
                decreases count - i,
            {
                assert(defined@.skip(i as int).drop_first() == defined@.skip(i + 1));
                if same_text(defined[i].name.as_str(), func_name) {
                    return match &defined[i].parameters {
                        Some(schema) => declared_parameters(schema),
                        None => None,
                    };
                }
                i += 1;
            }
            None
        },
        None => None,
    }
}

/// The name of the type that a parameter's schema gives, in lower case.
pub fn declared_type(schema: &Json) -> (name: String)
    ensures
        name@ == named_type(*schema),
{
    if let Some(declared) = schema.get("type") {
        if let Json::Text(name) = declared {
            return lowered(name.as_str());
        }
    }
    if schema.get("anyOf").is_some() || schema.get("oneOf").is_some() {
        "object".to_owned()
    } else {
        "string".to_owned()
    }
}

/// The kind of value that a type name stands for.
pub fn kind_of(name: &str) -> (kind: ParamKind)
    ensures
        kind == kind_named(name@),
{
    if same_text(name, "string") || same_text(name, "str") || same_text(name, "text") || same_text(
        name,
        "varchar",
    ) || same_text(name, "char") || same_text(name, "enum") {
        ParamKind::Text
    } else if has_prefix(name, "int") || has_prefix(name, "uint") || has_prefix(name, "long")
        || has_prefix(name, "short") || has_prefix(name, "unsigned") {
        ParamKind::Integer
    } else if has_prefix(name, "num") || has_prefix(name, "float") || same_text(name, "double") {
        ParamKind::Number
    } else if same_text(name, "boolean") || same_text(name, "bool") || same_text(name, "binary") {
        ParamKind::Boolean
    } else if same_text(name, "object") || same_text(name, "array") || same_text(name, "arr")
        || has_prefix(name, "dict") || has_prefix(name, "list") {
        ParamKind::Structured
    } else {
        ParamKind::Other
    }
}

} // verus!

//! Laws of tool definitions: what is declared of a parameter, and what kind its type is.
use vstd::prelude::*;

use crate::laws::rewriting::begins_with;
use crate::schema::{
    Json, ParamKind, ToolDefinition, declared, declared_by, declared_in, json_get, kind_named,
    member, named_type,
};
use crate::text::{lowercase, token_at};

verus! {

/// The member that is found is the first one with exactly this name; none is found only where no
/// member has the name.
pub proof fn lemma_member_is_the_first(members: Seq<(String, Json)>, name: Seq<char>)
    ensures
        match member(members, name) {
            Some(value) => exists|i: int|
                {
                    &&& 0 <= i < members.len()
                    &&& (#[trigger] members[i]).0@ == name
                    &&& members[i].1 == value
                    &&& forall|j: int| 0 <= j < i ==> (#[trigger] members[j]).0@ != name
                },
            None => forall|i: int| 0 <= i < members.len() ==> (#[trigger] members[i]).0@ != name,
        },
    decreases members.len(),
{
    if 0 < members.len() {
        if members[0].0@ != name {
            let others = members.drop_first();
            lemma_member_is_the_first(others, name);
            if member(others, name) is Some {
                let i = choose|i: int|
                    {
                        &&& 0 <= i < others.len()
                        &&& (#[trigger] others[i]).0@ == name
                        &&& others[i].1 == member(others, name)->0
                        &&& forall|j: int| 0 <= j < i ==> (#[trigger] others[j]).0@ != name
                    };
                assert(members[i + 1] == others[i]);
                assert forall|j: int| 0 <= j < i + 1 implies (#[trigger] members[j]).0@ != name by {
                    if 0 < j {
                        assert(members[j] == others[j - 1]);
                    }
                }
            } else {
                assert forall|i: int| 0 <= i < members.len() implies (#[trigger] members[i]).0@
                    != name by {
                    if 0 < i {
                        assert(members[i] == others[i - 1]);
                    }
                }
            }
        } else {
            assert(members[0].0@ == name);
        }
    }
}

/// Only an object has members, and its members are its own.
pub proof fn lemma_only_objects_have_members(json: Json, name: Seq<char>)
    ensures
        json_get(json, name) == match json {
            Json::Object(members) => member(members@, name),
            _ => None,
        },
{
}

/// The parameters of a schema are the members of its `properties`; where it has none of that name,
/// its own members; and where `properties` or the schema is no object, there are none.
pub proof fn lemma_declared_parameters(schema: Json)
    ensures
        schema matches Json::Object(members) ==> match member(members@, "properties"@) {
            Some(properties) => match properties {
                Json::Object(inner) => declared_by(schema) == inner@,
                _ => declared_by(schema).len() == 0,
            },
            None => declared_by(schema) == members@,
        },
        schema !is Object ==> declared_by(schema).len() == 0,
{
}

/// The parameters of a function are those that the schema of the first tool with exactly its name
/// declares; a function without such a tool, or whose tool has no schema, has none.
pub proof fn lemma_declared_of_the_first_tool(tools: Seq<ToolDefinition>, name: Seq<char>, i: int)
    ensures
        (forall|j: int| 0 <= j < tools.len() ==> (#[trigger] tools[j]).name@ != name)
            ==> declared_in(tools, name).len() == 0,
        0 <= i < tools.len() && tools[i].name@ == name && (forall|j: int|
            0 <= j < i ==> (#[trigger] tools[j]).name@ != name) ==> match tools[i].parameters {
            Some(schema) => declared_in(tools, name) == declared_by(schema),
            None => declared_in(tools, name).len() == 0,
        },
    decreases tools.len(),
{
    if 0 < tools.len() && tools[0].name@ != name {
        let others = tools.drop_first();
        lemma_declared_of_the_first_tool(others, name, i - 1);
        assert forall|j: int| 0 <= j < others.len() implies #[trigger] others[j] == tools[j
            + 1] by {}
    } else if 0 < tools.len() {
        assert(tools[0].name@ == name);
    }
}

/// Without tool definitions nothing is declared, and with them what they declare.
pub proof fn lemma_declared_needs_tools(tools: &[ToolDefinition], name: Seq<char>)
    ensures
        declared(None, name).len() == 0,
        declared(Some(tools), name) == declared_in(tools@, name),
{
}

/// The type of a parameter is the text under `type`, in lower case; where there is no such text, it
/// is `object` for a schema with alternatives, under `anyOf` or `oneOf`, and `string` for any other.
pub proof fn lemma_type_of_a_schema(schema: Json)
    ensures
        json_get(schema, "type"@) matches Some(Json::Text(name)) ==> named_type(schema)
            == lowercase(name@),
        !(json_get(schema, "type"@) matches Some(Json::Text(_))) ==> {
            &&& json_get(schema, "anyOf"@) is Some ==> named_type(schema) == "object"@
            &&& json_get(schema, "oneOf"@) is Some ==> named_type(schema) == "object"@
            &&& json_get(schema, "anyOf"@) is None && json_get(schema, "oneOf"@) is None
                ==> named_type(schema) == "string"@
        },
{
}

/// A text begins with a token if the token stands at its start.
proof fn lemma_begins_at_the_start(text: Seq<char>, token: Seq<char>)
    ensures
        begins_with(text, token) == token_at(text, 0, token),
{
    if token.len() <= text.len() {
        assert(text.subrange(0, token.len() as int) == text.take(token.len() as int));
    }
}

/// `name` is a word for strings.
pub open spec fn names_strings(name: Seq<char>) -> bool {
    ||| name == "string"@
    ||| name == "str"@
    ||| name == "text"@
    ||| name == "varchar"@
    ||| name == "char"@
    ||| name == "enum"@
}

/// `name` is a word for booleans.
pub open spec fn names_booleans(name: Seq<char>) -> bool {
    ||| name == "boolean"@
    ||| name == "bool"@
    ||| name == "binary"@
}

/// `name` begins with a word for integers.
pub open spec fn names_integers(name: Seq<char>) -> bool {
    ||| begins_with(name, "int"@)
    ||| begins_with(name, "uint"@)
    ||| begins_with(name, "long"@)
    ||| begins_with(name, "short"@)
    ||| begins_with(name, "unsigned"@)
}

/// `name` is a word for numbers, or begins with one.
pub open spec fn names_numbers(name: Seq<char>) -> bool {
    ||| begins_with(name, "num"@)
    ||| begins_with(name, "float"@)
    ||| name == "double"@
}

/// `name` is a word for objects or arrays, or begins with one.
pub open spec fn names_structures(name: Seq<char>) -> bool {
    ||| name == "object"@
    ||| name == "array"@
    ||| name == "arr"@
    ||| begins_with(name, "dict"@)
    ||| begins_with(name, "list"@)
}

/// The words for strings, integers, numbers, booleans, and objects and arrays stand for values of
/// these kinds, and no other word does.
pub proof fn lemma_kinds_of_types(name: Seq<char>)
    ensures
        kind_named(name) == ParamKind::Text <==> names_strings(name),
        kind_named(name) == ParamKind::Integer <==> names_integers(name),
        kind_named(name) == ParamKind::Number <==> names_numbers(name),
        kind_named(name) == ParamKind::Boolean <==> names_booleans(name),
        kind_named(name) == ParamKind::Structured <==> names_structures(name),
{
    lemma_begins_at_the_start(name, "int"@);
    lemma_begins_at_the_start(name, "uint"@);
    lemma_begins_at_the_start(name, "long"@);
    lemma_begins_at_the_start(name, "short"@);
    lemma_begins_at_the_start(name, "unsigned"@);
    lemma_begins_at_the_start(name, "num"@);
    lemma_begins_at_the_start(name, "float"@);
    lemma_begins_at_the_start(name, "dict"@);
    lemma_begins_at_the_start(name, "list"@);
    lemma_words_differ(name);
}

/// The words for different kinds begin differently.
proof fn lemma_words_differ(name: Seq<char>)
    ensures
        names_strings(name)
            ==> !names_integers(name) && !names_numbers(name) && !names_structures(name),
        names_booleans(name) ==> !names_integers(name)
            && !names_numbers(name) && !names_structures(name),
        names_booleans(name) ==> !names_strings(name),
        names_integers(name) ==> !names_numbers(name) && !names_structures(name),
        names_numbers(name) ==> !names_structures(name),
{
    reveal_strlit("string");
    reveal_strlit("str");
    reveal_strlit("text");
    reveal_strlit("varchar");
    reveal_strlit("char");
    reveal_strlit("enum");
    reveal_strlit("int");
    reveal_strlit("uint");
    reveal_strlit("long");
    reveal_strlit("short");
    reveal_strlit("unsigned");
    reveal_strlit("num");
    reveal_strlit("float");
    reveal_strlit("double");
    reveal_strlit("boolean");
    reveal_strlit("bool");
    reveal_strlit("binary");
    reveal_strlit("object");
    reveal_strlit("array");
    reveal_strlit("arr");
    reveal_strlit("dict");
    reveal_strlit("list");
    lemma_first_of(name, "int"@);
    lemma_first_of(name, "uint"@);
    lemma_first_of(name, "long"@);
    lemma_first_of(name, "short"@);
    lemma_first_of(name, "unsigned"@);
    lemma_first_of(name, "num"@);
    lemma_first_of(name, "float"@);
    lemma_first_of(name, "dict"@);
    lemma_first_of(name, "list"@);
    let first = name[0];
    let second = name[1];
    if names_strings(name) {
        assert(first == 's' && second == 't' || first == 't' || first == 'v' || first == 'c'
            || first == 'e');
    }
    if names_booleans(name) {
        assert(first == 'b');
    }
    if names_integers(name) {
        assert(first == 'i' || first == 'u' || first == 'l' && second == 'o' || first == 's'
            && second == 'h');
    }
    if names_numbers(name) {
        assert(first == 'n' || first == 'f' || first == 'd' && second == 'o');
    }
    if names_structures(name) {
        assert(first == 'o' || first == 'a' || first == 'd' && second == 'i' || first == 'l'
            && second == 'i');
    }
}

/// A text has the first two characters of what it begins with.
proof fn lemma_first_of(name: Seq<char>, front: Seq<char>)
    requires
        2 <= front.len(),
    ensures
        begins_with(name, front) ==> 2 <= name.len() && name[0] == front[0] && name[1] == front[1],
{
    if begins_with(name, front) {
        assert(name.take(front.len() as int)[0] == name[0]);
        assert(name.take(front.len() as int)[1] == name[1]);
    }
}

} // verus!

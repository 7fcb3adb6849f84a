//! Tool calls as the parsers report them.
use vstd::prelude::*;

verus! {

/// The type of a tool call; there are only function calls.
#[derive(Debug, Clone, Copy, PartialEq, Eq, Structural)]
pub enum ToolCallType {
    Function,
}

/// The function that is called, and its arguments as JSON text.
#[derive(Debug, Clone)]
pub struct CalledFunction {
    pub name: String,
    pub arguments: String,
}

/// One tool call.
#[derive(Debug, Clone)]
pub struct ToolCallResponse {
    pub id: String,
    pub tp: ToolCallType,
    pub function: CalledFunction,
}

/// The error of a parser: the tokens of the format are too long for `regex`.
#[derive(Debug, Clone, Copy, PartialEq, Eq)]
pub struct ParseError;

/// What a message says of one call.
pub struct CallModel {
    pub name: Seq<char>,
    pub arguments: Seq<char>,
}

/// A hexadecimal digit, its letters in lower case.
pub open spec fn is_lower_hex(c: char) -> bool {
    ('0' <= c && c <= '9') || ('a' <= c && c <= 'f')
}

/// The hyphenated text of a version 4 UUID.
pub open spec fn is_uuid_v4(text: Seq<char>) -> bool {
    &&& text.len() == 36
    &&& forall|i: int|
        0 <= i < 36 ==> if i == 8 || i == 13 || i == 18 || i == 23 {
            #[trigger] text[i] == '-'
        } else {
            is_lower_hex(text[i])
        }
    &&& text[14] == '4'
    &&& (text[19] == '8' || text[19] == '9' || text[19] == 'a' || text[19] == 'b')
}

/// The id of a call to which the message gives none: `call-` and a version 4 UUID.
pub open spec fn is_generated_id(id: Seq<char>) -> bool {
    exists|uuid: Seq<char>| #[trigger] is_uuid_v4(uuid) && id == "call-"@ + uuid
}

/// `call` is the call of `model`, under a generated id.
pub open spec fn reports(call: ToolCallResponse, model: CallModel) -> bool {
    &&& is_generated_id(call.id@)
    &&& call.tp == ToolCallType::Function
    &&& call.function.name@ == model.name
    &&& call.function.arguments@ == model.arguments
}

/// `calls` are the calls of `models`, in their order, each under a generated id.
pub open spec fn all_reported(calls: Seq<ToolCallResponse>, models: Seq<CallModel>) -> bool {
    &&& calls.len() == models.len()
    &&& forall|i: int| 0 <= i < calls.len() ==> reports(#[trigger] calls[i], models[i])
}

/// A new random UUID, by `uuid::Uuid::new_v4` and its `Display`: 36 characters, hexadecimal digits
/// in lower case in five groups, with the version 4 and the variant of RFC 9562. Which one it is
/// is left to chance.
#[verifier::external_body]
fn random_uuid() -> (text: String)
    ensures
        is_uuid_v4(text@),
{
    uuid::Uuid::new_v4().to_string()
}

/// The call of `name` with these arguments, under the id `call-` and `uuid`.
pub fn call_with_uuid(uuid: &str, name: String, arguments: String) -> (call: ToolCallResponse)
    ensures
        call.id@ == "call-"@ + uuid@,
        call.tp == ToolCallType::Function,
        call.function.name@ == name@,
        call.function.arguments@ == arguments@,
{
    let mut id = "call-".to_owned();
    id.append(uuid);
    ToolCallResponse { id, tp: ToolCallType::Function, function: CalledFunction { name, arguments } }
}

/// The call of `name` with these arguments, under a new id.
pub fn new_call(name: String, arguments: String) -> (call: ToolCallResponse)
    ensures
        reports(call, (CallModel { name: name@, arguments: arguments@ })),
{
    let uuid = random_uuid();
    call_with_uuid(uuid.as_str(), name, arguments)
}

} // verus!

//! The patterns that say what the parts of the formats look like, as `regex` takes them.
//!
//! The parts are found by scanners, so nothing is matched with a pattern here. A pattern is compiled to
//! learn whether its tokens are too long for `regex`.
use vstd::prelude::*;

verus! {

/// A part of a format that stands between two tokens.
#[derive(Debug, Clone, Copy, PartialEq, Eq, Structural)]
pub enum Part {
    /// A function or a parameter in XML style.
    XmlElement,
    /// A block of calls in DSML.
    DsmlBlock,
    /// A call in DSML.
    DsmlInvoke,
    /// A parameter in DSML.
    DsmlParameter,
}

/// `c` means something else than itself in a pattern.
pub open spec fn is_meta(c: char) -> bool {
    "\\.+*?()|[]{}^$#&-~"@.contains(c)
}

/// `text` with a backslash in front of each character that would mean something else than itself.
pub open spec fn escaped(text: Seq<char>) -> Seq<char>
    decreases text.len(),
{
    if text.len() == 0 {
        text
    } else {
        let before = escaped(text.drop_last());
        if is_meta(text.last()) {
            before.push('\\').push(text.last())
        } else {
            before.push(text.last())
        }
    }
}

/// What a pattern says between the two tokens.
pub open spec fn middle(part: Part) -> Seq<char> {
    match part {
        Part::XmlElement => "([^>]+)>(.*?)(?:"@,
        Part::DsmlBlock => "\\s*(.*?)\\s*"@,
        Part::DsmlInvoke => "\\\"([^\"]+)\\\"\\s*>(.*?)"@,
        Part::DsmlParameter => {
            "\\\"([^\"]+)\\\"\\s+string=\\\"(true|false)\\\"\\s*>(.*?)"@
        },
    }
}

/// What a pattern says behind the second token.
pub open spec fn ending(part: Part) -> Seq<char> {
    match part {
        Part::XmlElement => "|$)"@,
        _ => ""@,
    }
}

/// The pattern of a part between the tokens `open` and `close`.
pub open spec fn pattern_of(part: Part, open: Seq<char>, close: Seq<char>) -> Seq<char> {
    "(?s)"@ + escaped(open) + middle(part) + escaped(close) + ending(part)
}

/// The pattern of a call in the format of Kimi K2: the token that opens it, its id, the token in front
/// of its arguments, the arguments, and the token that closes it.
pub open spec fn call_pattern_of(start: Seq<char>, begin: Seq<char>, end: Seq<char>) -> Seq<char> {
    "(?s)"@ + escaped(start) + "\\s*(?P<function_id>[\\w.\\-]+:\\d+)\\s*"@ + escaped(begin)
        + "\\s*(?P<arguments>\\{.*?\\})\\s*"@ + escaped(end)
}

/// The two tokens have no more than 4096 characters together.
pub open spec fn are_moderate(open: Seq<char>, close: Seq<char>) -> bool {
    open.len() + close.len() <= 4096
}

/// `pattern` is the pattern of a part between moderate tokens, or that of a call in the format of
/// Kimi K2 with moderate tokens.
pub open spec fn is_moderate_pattern(pattern: Seq<char>) -> bool {
    ||| exists|part: Part, open: Seq<char>, close: Seq<char>|
        are_moderate(open, close) && pattern == #[trigger] pattern_of(part, open, close)
    ||| exists|start: Seq<char>, begin: Seq<char>, end: Seq<char>|
        are_moderate(start + begin, end) && pattern == #[trigger] call_pattern_of(start, begin, end)
}

/// `text` as a pattern that matches it and nothing else.
///
/// Calls `regex::escape`. Believed of it: it puts a backslash in front of each of the characters
/// `\ . + * ? ( ) | [ ] { } ^ $ # & - ~` and changes nothing else.
#[verifier::external_body]
fn escape(text: &str) -> (pattern: String)
    ensures
        pattern@ == escaped(text@),
{
    regex::escape(text)
}

/// Whether the pattern can be compiled.
///
/// Calls `regex::Regex::new`. Believed of it: it compiles the pattern of each part between tokens of
/// no more than 4096 characters together, and that of a call in the format of Kimi K2 with such
/// tokens. These patterns are well formed, and they need less than one of the ten megabytes that
/// `regex` allows. Of larger patterns nothing is said: what a pattern needs is counted in the sizes
/// of structures, which depend on the machine and the compiler.
#[verifier::external_body]
pub(crate) fn compiles(pattern: &str) -> (compiled: bool)
    ensures
        is_moderate_pattern(pattern@) ==> compiled,
{
    regex::Regex::new(pattern).is_ok()
}

/// The pattern of a part between the tokens `open` and `close`.
pub fn part_pattern(part: Part, open: &str, close: &str) -> (pattern: String)
    ensures
        pattern@ == pattern_of(part, open@, close@),
{
    let mut pattern = "(?s)".to_owned();
    pattern.append(escape(open).as_str());
    pattern.append(
        match part {
            Part::XmlElement => "([^>]+)>(.*?)(?:",
            Part::DsmlBlock => "\\s*(.*?)\\s*",
            Part::DsmlInvoke => "\\\"([^\"]+)\\\"\\s*>(.*?)",
            Part::DsmlParameter => "\\\"([^\"]+)\\\"\\s+string=\\\"(true|false)\\\"\\s*>(.*?)",
        },
    );
    pattern.append(escape(close).as_str());
    pattern.append(
        match part {
            Part::XmlElement => "|$)",
            _ => "",
        },
    );
    pattern
}

/// The pattern of a call in the format of Kimi K2.
pub fn call_pattern(start: &str, begin: &str, end: &str) -> (pattern: String)
    ensures
        pattern@ == call_pattern_of(start@, begin@, end@),
{
    let mut pattern = "(?s)".to_owned();
    pattern.append(escape(start).as_str());
    pattern.append("\\s*(?P<function_id>[\\w.\\-]+:\\d+)\\s*");
    pattern.append(escape(begin).as_str());
    pattern.append("\\s*(?P<arguments>\\{.*?\\})\\s*");
    pattern.append(escape(end).as_str());
    pattern
}

} // verus!

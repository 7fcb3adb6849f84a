//! What is written in DSML is read back.
use vstd::prelude::*;

use crate::arguments::object_text;
use crate::config::DsmlParserConfig;
use crate::dsml::{
    Element, ElementKind, ElementSpan, arguments_of, blocks_from, call_of, calls_in, calls_in_text,
    calls_of, element_at, elements_from, elements_of, next_element, normal_text, quoted_at,
    string_attribute_at, tag_end, tokens_moderate,
};
use crate::laws::arguments::lemma_no_members;
use crate::laws::dsml::{
    lemma_block_content, lemma_blocks_skip, lemma_calls_in_both, lemma_next_block,
    lemma_no_start_no_blocks,
};
use crate::laws::tokens::{
    lemma_behind, lemma_char_behind, lemma_differs, lemma_first_behind, lemma_unbordered,
    lemma_white_end_is, lemma_white_end_skip, stand_apart, unbordered,
};
use crate::laws::values::{is_trimmed, is_white, lemma_trim};
use crate::response::CallModel;
use crate::text::{
    contains, find_from, is_white_space, lemma_find_from, lemma_find_from_skip, lemma_token_at_skip,
    lemma_white_end, token_at, trim, white_end,
};

verus! {

/// A call or a parameter as it is written: behind some other text, a name, what stands in the tag
/// behind the name, and a body.
pub struct WrittenElement {
    pub before: Seq<char>,
    pub name: Seq<char>,
    /// The white space behind the name.
    pub gap: Seq<char>,
    /// Whether a parameter is a string.
    pub is_string: bool,
    /// The white space behind the attribute of a parameter.
    pub end_gap: Seq<char>,
    pub body: Seq<char>,
}

/// What stands in front of the name of an element.
pub open spec fn prefix_of(kind: ElementKind, config: DsmlParserConfig) -> Seq<char> {
    match kind {
        ElementKind::Invoke => config.invoke_start_prefix@,
        ElementKind::Parameter => config.parameter_prefix@,
    }
}

/// What closes an element.
pub open spec fn close_of(kind: ElementKind, config: DsmlParserConfig) -> Seq<char> {
    match kind {
        ElementKind::Invoke => config.invoke_end@,
        ElementKind::Parameter => config.parameter_end@,
    }
}

/// The attribute that says whether a parameter is a string.
pub open spec fn string_attribute(is_string: bool) -> Seq<char> {
    if is_string {
        "string=\"true\""@
    } else {
        "string=\"false\""@
    }
}

/// What stands in the tag between the name and `>`.
pub open spec fn attributes(element: WrittenElement, kind: ElementKind) -> Seq<char> {
    match kind {
        ElementKind::Invoke => element.gap,
        ElementKind::Parameter => element.gap + string_attribute(element.is_string)
            + element.end_gap,
    }
}

/// The text of an element.
#[verifier::opaque]
pub open spec fn written_element(
    element: WrittenElement,
    kind: ElementKind,
    config: DsmlParserConfig,
) -> Seq<char> {
    element.before + prefix_of(kind, config) + seq!['"'] + element.name + seq!['"'] + attributes(
        element,
        kind,
    ) + seq!['>'] + element.body + close_of(kind, config)
}

/// The text of elements, one behind the other, and of what follows them.
pub open spec fn written_elements(
    elements: Seq<WrittenElement>,
    tail: Seq<char>,
    kind: ElementKind,
    config: DsmlParserConfig,
) -> Seq<char>
    decreases elements.len(),
{
    if elements.len() == 0 {
        tail
    } else {
        written_element(elements[0], kind, config) + written_elements(
            elements.drop_first(),
            tail,
            kind,
            config,
        )
    }
}

/// The element is written in the format, and does not hold what would end its parts too early: its
/// name has a character and no `"`, its body does not hold what closes it, and no element begins in
/// front of it.
pub open spec fn is_readable(
    element: WrittenElement,
    kind: ElementKind,
    config: DsmlParserConfig,
) -> bool {
    &&& 0 < element.name.len()
    &&& !element.name.contains('"')
    &&& is_white(element.gap)
    &&& is_white(element.end_gap)
    &&& kind == ElementKind::Parameter ==> 0 < element.gap.len()
    &&& kind == ElementKind::Invoke ==> element.is_string
    &&& !contains(element.before, prefix_of(kind, config))
    &&& !contains(element.body, close_of(kind, config))
}

/// All of the elements are readable.
pub open spec fn are_readable(
    elements: Seq<WrittenElement>,
    kind: ElementKind,
    config: DsmlParserConfig,
) -> bool {
    forall|i: int| 0 <= i < elements.len() ==> is_readable(#[trigger] elements[i], kind, config)
}

/// What elements say.
pub open spec fn contents(elements: Seq<WrittenElement>) -> Seq<Element> {
    elements.map_values(
        |element: WrittenElement|
            Element { name: element.name, is_string: element.is_string, body: element.body },
    )
}

/// An element span, with so many characters in front of the text.
spec fn moved(span: Option<ElementSpan>, by: int) -> Option<ElementSpan> {
    match span {
        Some(span) => Some(
            ElementSpan {
                name_start: by + span.name_start,
                name_end: by + span.name_end,
                is_string: span.is_string,
                body_start: by + span.body_start,
                body_end: by + span.body_end,
                end: by + span.end,
            },
        ),
        None => None,
    }
}

/// A quoted name in the rest of a text is one of the text.
proof fn lemma_quoted_at_skip(text: Seq<char>, skipped: int, at: int)
    requires
        0 <= skipped <= text.len(),
        0 <= at,
    ensures
        quoted_at(text, skipped + at) == match quoted_at(text.skip(skipped), at) {
            Some((start, end)) => Some((skipped + start, skipped + end)),
            None => None,
        },
        quoted_at(text, skipped + at) matches Some((start, end)) ==> skipped + at < start < end
            < text.len(),
{
    lemma_find_from_skip(text, seq!['"'], skipped, at + 1);
    lemma_find_from(text.skip(skipped), seq!['"'], at + 1);
}

/// A tag that ends in the rest of a text ends in the text.
proof fn lemma_tag_end_skip(text: Seq<char>, skipped: int, at: int)
    requires
        0 <= skipped <= text.len(),
        0 <= at <= text.len() - skipped,
    ensures
        tag_end(text, skipped + at) == match tag_end(text.skip(skipped), at) {
            Some(end) => Some(skipped + end),
            None => None,
        },
        tag_end(text, skipped + at) matches Some(end) ==> skipped + at < end <= text.len(),
{
    lemma_white_end_skip(text, skipped, at);
    lemma_white_end(text.skip(skipped), at);
}

/// An element in the rest of a text is an element of the text, and lies inside of it.
proof fn lemma_element_at_skip(
    text: Seq<char>,
    skipped: int,
    at: int,
    kind: ElementKind,
    config: DsmlParserConfig,
)
    requires
        0 <= skipped <= text.len(),
        0 <= at,
    ensures
        element_at(text, skipped + at, kind, config) == moved(
            element_at(text.skip(skipped), at, kind, config),
            skipped,
        ),
        element_at(text, skipped + at, kind, config) matches Some(span) ==> {
            &&& skipped + at < span.name_start < span.name_end < span.body_start <= span.body_end
            &&& span.body_end <= span.end <= text.len()
        },
{
    let rest = text.skip(skipped);
    let prefix = prefix_of(kind, config);
    let close = close_of(kind, config);
    lemma_token_at_skip(text, prefix, skipped, at);
    if token_at(rest, at, prefix) {
        lemma_quoted_at_skip(text, skipped, at + prefix.len());
        if let Some((_, name_end)) = quoted_at(rest, at + prefix.len()) {
            let tag = match kind {
                ElementKind::Invoke => Some(name_end + 1),
                ElementKind::Parameter => {
                    let attribute = white_end(rest, name_end + 1);
                    lemma_white_end(rest, name_end + 1);
                    lemma_white_end_skip(text, skipped, name_end + 1);
                    lemma_token_at_skip(text, "string=\"true\""@, skipped, attribute);
                    lemma_token_at_skip(text, "string=\"false\""@, skipped, attribute);
                    match string_attribute_at(rest, attribute) {
                        Some((_, behind)) => Some(behind),
                        None => None,
                    }
                },
            };
            if let Some(tag) = tag {
                lemma_tag_end_skip(text, skipped, tag);
                if let Some(body_start) = tag_end(rest, tag) {
                    lemma_find_from_skip(text, close, skipped, body_start);
                    lemma_find_from(rest, close, body_start);
                }
            }
        }
    }
}

/// The next element of the rest of a text is the next one of the text.
proof fn lemma_next_element_skip(
    text: Seq<char>,
    skipped: int,
    from: int,
    kind: ElementKind,
    config: DsmlParserConfig,
)
    requires
        0 <= skipped <= text.len(),
        0 <= from,
    ensures
        next_element(text, skipped + from, kind, config) == moved(
            next_element(text.skip(skipped), from, kind, config),
            skipped,
        ),
        next_element(text, skipped + from, kind, config) matches Some(span) ==> {
            &&& skipped + from < span.name_start < span.name_end < span.body_start
            &&& span.body_start <= span.body_end <= span.end <= text.len()
        },
    decreases text.len() + 1 - from,
{
    lemma_element_at_skip(text, skipped, from, kind, config);
    if from <= text.len() - skipped {
        lemma_next_element_skip(text, skipped, from + 1, kind, config);
    }
}

/// The elements of the rest of a text are the elements of the text from there on.
proof fn lemma_elements_skip(
    text: Seq<char>,
    skipped: int,
    from: int,
    kind: ElementKind,
    config: DsmlParserConfig,
)
    requires
        0 <= skipped <= text.len(),
        0 <= from,
    ensures
        elements_from(text, skipped + from, kind, config) == elements_from(
            text.skip(skipped),
            from,
            kind,
            config,
        ),
    decreases text.len() + 1 - from,
{
    let rest = text.skip(skipped);
    lemma_next_element_skip(text, skipped, from, kind, config);
    if let Some(span) = next_element(rest, from, kind, config) {
        lemma_elements_skip(text, skipped, span.end, kind, config);
        assert(text.subrange(skipped + span.name_start, skipped + span.name_end) == rest.subrange(
            span.name_start,
            span.name_end,
        ));
        assert(text.subrange(skipped + span.body_start, skipped + span.body_end) == rest.subrange(
            span.body_start,
            span.body_end,
        ));
    }
}

/// Where no prefix stands in front of a place, the next element is the next one from there on.
proof fn lemma_next_element_later(
    text: Seq<char>,
    from: int,
    later: int,
    kind: ElementKind,
    config: DsmlParserConfig,
)
    requires
        0 <= from <= later <= text.len(),
        forall|at: int| from <= at < later ==> !token_at(text, at, prefix_of(kind, config)),
    ensures
        next_element(text, from, kind, config) == next_element(text, later, kind, config),
    decreases later - from,
{
    if from < later {
        assert(!token_at(text, from, prefix_of(kind, config)));
        lemma_next_element_later(text, from + 1, later, kind, config);
    }
}

/// A text without the prefix has no elements.
proof fn lemma_no_elements(text: Seq<char>, kind: ElementKind, config: DsmlParserConfig)
    requires
        !contains(text, prefix_of(kind, config)),
    ensures
        elements_of(text, kind, config) == Seq::<Element>::empty(),
{
    let count = text.len() as int;
    assert forall|at: int| !token_at(text, at, prefix_of(kind, config)) by {}
    lemma_next_element_later(text, 0, count, kind, config);
    assert(!token_at(text, count, prefix_of(kind, config)));
    assert(next_element(text, count + 1, kind, config) is None);
}

/// The tag of an element ends behind its `>`.
proof fn lemma_written_tag(
    text: Seq<char>,
    at: int,
    element: WrittenElement,
    kind: ElementKind,
    rest: Seq<char>,
)
    requires
        0 <= at <= text.len(),
        text.skip(at) == attributes(element, kind) + seq!['>'] + rest,
        is_white(element.gap),
        is_white(element.end_gap),
    ensures
        ({
            let end = at + attributes(element, kind).len() + 1;
            match kind {
                ElementKind::Invoke => tag_end(text, at) == Some(end),
                ElementKind::Parameter => {
                    let attribute = white_end(text, at);
                    &&& attribute == at + element.gap.len()
                    &&& string_attribute_at(text, attribute) matches Some((is_string, behind))
                        && is_string == element.is_string && tag_end(text, behind) == Some(end)
                },
            }
        }),
{
    reveal_strlit("string=\"true\"");
    reveal_strlit("string=\"false\"");
    let inner = attributes(element, kind);
    let here = inner + seq!['>'] + rest;
    assert(here.len() == inner.len() + 1 + rest.len());
    assert(text.len() == at + here.len()) by {
        assert(text.skip(at).len() == text.len() - at);
    }
    assert forall|i: int| 0 <= i < here.len() implies text[at + i] == #[trigger] here[i] by {
        assert(text.skip(at)[i] == text[at + i]);
    }
    match kind {
        ElementKind::Invoke => {
            let to = at + element.gap.len();
            assert(text[to] == here[element.gap.len() as int]);
            assert forall|i: int| at <= i < to implies is_white_space(#[trigger] text[i]) by {
                assert(text[i] == here[i - at]);
                assert(here[i - at] == element.gap[i - at]);
            }
            lemma_white_end_is(text, at, to);
        },
        ElementKind::Parameter => {
            let value = string_attribute(element.is_string);
            let to = at + element.gap.len();
            let behind = to + value.len();
            let bracket = behind + element.end_gap.len();
            assert(text[to] == here[to - at]);
            assert(here[to - at] == value[0]);
            assert forall|i: int| at <= i < to implies is_white_space(#[trigger] text[i]) by {
                assert(text[i] == here[i - at]);
                assert(here[i - at] == element.gap[i - at]);
            }
            lemma_white_end_is(text, at, to);
            assert(text.subrange(to, behind) == value) by {
                assert(here.subrange(to - at, behind - at) == value);
                assert(text.subrange(to, behind) == here.subrange(to - at, behind - at));
            }
            if !element.is_string {
                let other = "string=\"true\""@;
                if token_at(text, to, other) {
                    assert(text.subrange(to, to + other.len())[8] == text[to + 8]);
                    assert(text.subrange(to, behind)[8] == text[to + 8]);
                }
            }
            assert(text[bracket] == here[bracket - at]);
            assert forall|i: int| behind <= i < bracket implies is_white_space(
                #[trigger] text[i],
            ) by {
                assert(text[i] == here[i - at]);
                assert(here[i - at] == element.end_gap[i - behind]);
            }
            lemma_white_end_is(text, behind, bracket);
        },
    }
}

/// A quoted name is read.
proof fn lemma_quoted_read(text: Seq<char>, at: int, name: Seq<char>, rest: Seq<char>)
    requires
        0 <= at <= text.len(),
        text.skip(at) == seq!['"'] + (name + seq!['"'] + rest),
        0 < name.len(),
        !name.contains('"'),
    ensures
        quoted_at(text, at) == Some((at + 1, at + 1 + name.len())),
        text.subrange(at + 1, at + 1 + name.len()) == name,
        text.skip(at + 1 + name.len() + 1) == rest,
        at + 1 + name.len() + 1 <= text.len(),
{
    lemma_behind(text, at, seq!['"'], name + seq!['"'] + rest);
    assert(text.subrange(at, at + 1)[0] == text[at]);
    lemma_char_behind(name, '"', rest);
    lemma_find_from_skip(text, seq!['"'], at + 1, 0);
    lemma_behind(text, at + 1, name + seq!['"'], rest);
    assert(name + (seq!['"'] + rest) == name + seq!['"'] + rest);
    lemma_behind(text, at + 1, name, seq!['"'] + rest);
}

/// A body is read.
proof fn lemma_body_read(
    text: Seq<char>,
    at: int,
    body: Seq<char>,
    close: Seq<char>,
    rest: Seq<char>,
)
    requires
        0 <= at <= text.len(),
        text.skip(at) == body + close + rest,
        unbordered(close),
        !contains(body, close),
    ensures
        find_from(text, close, at) == Some(at + body.len()),
        text.subrange(at, at + body.len()) == body,
        text.skip(at + body.len() + close.len()) == rest,
        at + body.len() + close.len() <= text.len(),
{
    lemma_first_behind(body, close, rest);
    lemma_find_from_skip(text, close, at, 0);
    lemma_behind(text, at, body + close, rest);
    assert(body + (close + rest) == body + close + rest);
    lemma_behind(text, at, body, close + rest);
}

/// What stands behind the prefix of an element.
#[verifier::opaque]
spec fn behind_prefix(
    element: WrittenElement,
    rest: Seq<char>,
    kind: ElementKind,
    config: DsmlParserConfig,
) -> Seq<char> {
    seq!['"'] + (element.name + seq!['"'] + (attributes(element, kind) + seq!['>'] + (element.body
        + close_of(kind, config) + rest)))
}

/// The text of an element and what follows, part by part.
proof fn lemma_written_parts(
    element: WrittenElement,
    rest: Seq<char>,
    kind: ElementKind,
    config: DsmlParserConfig,
)
    ensures
        written_element(element, kind, config) + rest == element.before + prefix_of(kind, config)
            + behind_prefix(element, rest, kind, config),
{
    reveal(written_element);
    reveal(behind_prefix);
    let behind_tag = element.body + close_of(kind, config) + rest;
    let behind_name = attributes(element, kind) + seq!['>'] + behind_tag;
    let behind_quote = element.name + seq!['"'] + behind_name;
    let front = element.before + prefix_of(kind, config);
    let named = front + seq!['"'] + element.name + seq!['"'];
    let tagged = named + attributes(element, kind) + seq!['>'];
    assert(tagged + element.body + close_of(kind, config) + rest == tagged + behind_tag);
    assert(tagged + behind_tag == named + behind_name);
    assert(named + behind_name == front + (seq!['"'] + behind_quote));
}

/// Where an element stands that begins at `at`.
spec fn written_span(
    element: WrittenElement,
    at: int,
    kind: ElementKind,
    config: DsmlParserConfig,
) -> ElementSpan {
    let quote = at + prefix_of(kind, config).len();
    let name_end = quote + 1 + element.name.len();
    let body_start = name_end + 1 + attributes(element, kind).len() + 1;
    let body_end = body_start + element.body.len();
    ElementSpan {
        name_start: quote + 1,
        name_end,
        is_string: element.is_string,
        body_start,
        body_end,
        end: body_end + close_of(kind, config).len(),
    }
}

/// An element is read where it stands.
proof fn lemma_element_read(
    text: Seq<char>,
    at: int,
    element: WrittenElement,
    rest: Seq<char>,
    kind: ElementKind,
    config: DsmlParserConfig,
)
    requires
        0 <= at,
        unbordered(close_of(kind, config)),
        is_readable(element, kind, config),
        token_at(text, at, prefix_of(kind, config)),
        text.skip(at + prefix_of(kind, config).len()) == behind_prefix(
            element,
            rest,
            kind,
            config,
        ),
    ensures
        ({
            let span = written_span(element, at, kind, config);
            &&& element_at(text, at, kind, config) == Some(span)
            &&& text.subrange(span.name_start, span.name_end) == element.name
            &&& text.subrange(span.body_start, span.body_end) == element.body
            &&& 0 <= span.end <= text.len()
            &&& text.skip(span.end) == rest
        }),
{
    reveal(behind_prefix);
    let span = written_span(element, at, kind, config);
    let behind_tag = element.body + close_of(kind, config) + rest;
    let behind_name = attributes(element, kind) + seq!['>'] + behind_tag;
    lemma_quoted_read(text, span.name_start - 1, element.name, behind_name);
    lemma_written_tag(text, span.name_end + 1, element, kind, behind_tag);
    lemma_behind(text, span.name_end + 1, attributes(element, kind) + seq!['>'], behind_tag);
    lemma_body_read(text, span.body_start, element.body, close_of(kind, config), rest);
}

/// The element that is found first is read, and then those behind it.
proof fn lemma_found_element(
    text: Seq<char>,
    at: int,
    span: ElementSpan,
    kind: ElementKind,
    config: DsmlParserConfig,
)
    requires
        0 <= at <= text.len(),
        forall|before: int| 0 <= before < at ==> !token_at(text, before, prefix_of(kind, config)),
        element_at(text, at, kind, config) == Some(span),
        0 < span.end <= text.len(),
    ensures
        elements_of(text, kind, config) == seq![
            Element {
                name: text.subrange(span.name_start, span.name_end),
                is_string: span.is_string,
                body: text.subrange(span.body_start, span.body_end),
            },
        ] + elements_of(text.skip(span.end), kind, config),
{
    lemma_next_element_later(text, 0, at, kind, config);
    lemma_elements_skip(text, span.end, 0, kind, config);
}

/// The first of the written elements is read, and then those that follow.
proof fn lemma_written_element(
    element: WrittenElement,
    rest: Seq<char>,
    kind: ElementKind,
    config: DsmlParserConfig,
)
    requires
        unbordered(prefix_of(kind, config)),
        unbordered(close_of(kind, config)),
        is_readable(element, kind, config),
    ensures
        elements_of(written_element(element, kind, config) + rest, kind, config) == contents(
            seq![element],
        ) + elements_of(rest, kind, config),
{
    let prefix = prefix_of(kind, config);
    let behind = behind_prefix(element, rest, kind, config);
    let at = element.before.len() as int;
    let text = element.before + prefix + behind;
    let span = written_span(element, at, kind, config);
    let read = Element { name: element.name, is_string: element.is_string, body: element.body };
    lemma_written_parts(element, rest, kind, config);
    lemma_first_behind(element.before, prefix, behind);
    assert(token_at(text, at, prefix)) by {
        lemma_find_from(text, prefix, 0);
    }
    assert(text.skip(at + prefix.len()) == behind);
    lemma_element_read(text, at, element, rest, kind, config);
    lemma_found_element(text, at, span, kind, config);
    assert(contents(seq![element]) == seq![read]);
}

/// Of readable elements, the first is readable, and so are the others.
proof fn lemma_others_readable(
    elements: Seq<WrittenElement>,
    kind: ElementKind,
    config: DsmlParserConfig,
)
    requires
        are_readable(elements, kind, config),
        0 < elements.len(),
    ensures
        is_readable(elements[0], kind, config),
        are_readable(elements.drop_first(), kind, config),
{
    let others = elements.drop_first();
    assert forall|i: int| 0 <= i < others.len() implies is_readable(
        #[trigger] others[i],
        kind,
        config,
    ) by {
        assert(others[i] == elements[i + 1]);
    }
}

/// What the first of some elements says may be put in front of what the others say.
proof fn lemma_contents_in_front(elements: Seq<WrittenElement>, behind: Seq<Element>)
    requires
        0 < elements.len(),
    ensures
        contents(seq![elements[0]]) + (contents(elements.drop_first()) + behind) == contents(
            elements,
        ) + behind,
{
    assert(contents(elements) =~= contents(seq![elements[0]]) + contents(elements.drop_first()));
    assert(contents(seq![elements[0]]) + (contents(elements.drop_first()) + behind) =~= contents(
        elements,
    ) + behind);
}

/// Elements that are written one behind the other are read back, in their order, and then those of
/// what follows.
pub proof fn lemma_written_elements(
    elements: Seq<WrittenElement>,
    tail: Seq<char>,
    kind: ElementKind,
    config: DsmlParserConfig,
)
    requires
        unbordered(prefix_of(kind, config)),
        unbordered(close_of(kind, config)),
        are_readable(elements, kind, config),
    ensures
        elements_of(written_elements(elements, tail, kind, config), kind, config) == contents(
            elements,
        ) + elements_of(tail, kind, config),
    decreases elements.len(),
{
    let behind = elements_of(tail, kind, config);
    if elements.len() == 0 {
        assert(contents(elements) + behind == behind);
    } else {
        let first = elements[0];
        let others = elements.drop_first();
        lemma_others_readable(elements, kind, config);
        lemma_written_elements(others, tail, kind, config);
        lemma_written_element(first, written_elements(others, tail, kind, config), kind, config);
        lemma_contents_in_front(elements, behind);
    }
}

/// A function without parameters is called with the arguments `{}`.
pub proof fn lemma_no_parameters_no_arguments(invoke: Element, config: DsmlParserConfig)
    requires
        !contains(invoke.body, config.parameter_prefix@),
    ensures
        call_of(invoke, config).arguments == "{}"@,
{
    lemma_no_elements(invoke.body, ElementKind::Parameter, config);
    lemma_no_members();
}

/// A call as it is written in a block: behind some other text, a name, parameters, and what stands
/// behind the parameters.
pub struct WrittenCall {
    pub before: Seq<char>,
    pub name: Seq<char>,
    /// The white space behind the name.
    pub gap: Seq<char>,
    pub parameters: Seq<WrittenElement>,
    pub tail: Seq<char>,
}

/// The element of a call.
pub open spec fn invoke_element(call: WrittenCall, config: DsmlParserConfig) -> WrittenElement {
    WrittenElement {
        before: call.before,
        name: call.name,
        gap: call.gap,
        is_string: true,
        end_gap: Seq::empty(),
        body: written_elements(call.parameters, call.tail, ElementKind::Parameter, config),
    }
}

/// The elements of calls.
pub open spec fn invoke_elements(calls: Seq<WrittenCall>, config: DsmlParserConfig) -> Seq<
    WrittenElement,
> {
    calls.map_values(|call: WrittenCall| invoke_element(call, config))
}

/// The call is readable: its element and the elements of its parameters are, and no other parameter
/// stands behind them.
pub open spec fn is_readable_call(call: WrittenCall, config: DsmlParserConfig) -> bool {
    &&& is_readable(invoke_element(call, config), ElementKind::Invoke, config)
    &&& are_readable(call.parameters, ElementKind::Parameter, config)
    &&& !contains(call.tail, config.parameter_prefix@)
}

/// What a written call says.
pub open spec fn said(call: WrittenCall) -> CallModel {
    CallModel {
        name: trim(call.name),
        arguments: object_text(arguments_of(contents(call.parameters))),
    }
}

/// A block as it is written in a message: behind some other text, calls, what stands behind the
/// calls, and the white space around all of this.
pub struct WrittenBlock {
    pub before: Seq<char>,
    pub lead: Seq<char>,
    pub calls: Seq<WrittenCall>,
    pub tail: Seq<char>,
    pub trail: Seq<char>,
}

/// What stands between the tokens of a block, without the white space around it.
pub open spec fn block_content(block: WrittenBlock, config: DsmlParserConfig) -> Seq<char> {
    written_elements(
        invoke_elements(block.calls, config),
        block.tail,
        ElementKind::Invoke,
        config,
    )
}

/// The text of a block, with its tokens.
pub open spec fn block_text(block: WrittenBlock, config: DsmlParserConfig) -> Seq<char> {
    config.function_calls_start@ + (block.lead + block_content(block, config) + block.trail)
        + config.function_calls_end@
}

/// The text of a message that is made of blocks and of what follows them.
pub open spec fn written_message(
    blocks: Seq<WrittenBlock>,
    tail: Seq<char>,
    config: DsmlParserConfig,
) -> Seq<char>
    decreases blocks.len(),
{
    if blocks.len() == 0 {
        tail
    } else {
        blocks[0].before + block_text(blocks[0], config) + written_message(
            blocks.drop_first(),
            tail,
            config,
        )
    }
}

/// The block is readable: its calls are, no start token stands in front of it and no end token in
/// it, and no other call stands behind its calls.
pub open spec fn is_readable_block(block: WrittenBlock, config: DsmlParserConfig) -> bool {
    &&& forall|i: int|
        0 <= i < block.calls.len() ==> is_readable_call(#[trigger] block.calls[i], config)
    &&& is_white(block.lead)
    &&& is_white(block.trail)
    &&& is_trimmed(block_content(block, config))
    &&& !contains(block.before, config.function_calls_start@)
    &&& !contains(
        block.lead + block_content(block, config) + block.trail,
        config.function_calls_end@,
    )
    &&& !contains(block.tail, config.invoke_start_prefix@)
}

/// The tokens can be told from each other: none overlaps with itself, those of a block have a
/// character, and the one that ends it does not begin with white space.
pub open spec fn tokens_distinguishable(config: DsmlParserConfig) -> bool {
    &&& unbordered(config.function_calls_start@)
    &&& unbordered(config.function_calls_end@)
    &&& unbordered(config.invoke_start_prefix@)
    &&& unbordered(config.invoke_end@)
    &&& unbordered(config.parameter_prefix@)
    &&& unbordered(config.parameter_end@)
    &&& 0 < config.function_calls_start@.len()
    &&& 0 < config.function_calls_end@.len()
    &&& !is_white_space(config.function_calls_end@[0])
}

/// What the calls of blocks say, block by block.
pub open spec fn all_said(blocks: Seq<WrittenBlock>) -> Seq<CallModel>
    decreases blocks.len(),
{
    if blocks.len() == 0 {
        Seq::empty()
    } else {
        blocks[0].calls.map_values(|call: WrittenCall| said(call)) + all_said(blocks.drop_first())
    }
}

/// The calls of a block are read back.
proof fn lemma_written_calls(block: WrittenBlock, config: DsmlParserConfig)
    requires
        tokens_distinguishable(config),
        is_readable_block(block, config),
    ensures
        calls_of(block_content(block, config), config) == block.calls.map_values(
            |call: WrittenCall| said(call),
        ),
{
    let elements = invoke_elements(block.calls, config);
    let none = Seq::<Element>::empty();
    assert forall|i: int| 0 <= i < elements.len() implies is_readable(
        #[trigger] elements[i],
        ElementKind::Invoke,
        config,
    ) by {
        assert(is_readable_call(block.calls[i], config));
    }
    lemma_written_elements(elements, block.tail, ElementKind::Invoke, config);
    lemma_no_elements(block.tail, ElementKind::Invoke, config);
    assert(contents(elements) + none == contents(elements));
    let calls = calls_of(block_content(block, config), config);
    let expected = block.calls.map_values(|call: WrittenCall| said(call));
    assert forall|i: int| 0 <= i < expected.len() implies calls[i] == expected[i] by {
        let call = block.calls[i];
        assert(is_readable_call(call, config));
        lemma_written_elements(call.parameters, call.tail, ElementKind::Parameter, config);
        lemma_no_elements(call.tail, ElementKind::Parameter, config);
        assert(contents(call.parameters) + none == contents(call.parameters));
        assert(contents(elements)[i] == (Element {
            name: call.name,
            is_string: true,
            body: elements[i].body,
        }));
    }
    assert(calls == expected);
}

/// The first block of a message is found, and then those of what follows.
proof fn lemma_first_block(block: WrittenBlock, rest: Seq<char>, config: DsmlParserConfig)
    requires
        tokens_distinguishable(config),
        is_readable_block(block, config),
    ensures
        ({
            let text = block.before + block_text(block, config) + rest;
            &&& blocks_from(text, 0, config) == seq![block_content(block, config)] + blocks_from(
                rest,
                0,
                config,
            )
            &&& find_from(text, config.function_calls_start@, 0) == Some(block.before.len() as int)
        }),
{
    let start = config.function_calls_start@;
    let end = config.function_calls_end@;
    let content = block_content(block, config);
    let inner = block.lead + content + block.trail;
    let text = block.before + block_text(block, config) + rest;
    let at = block.before.len() as int;
    let opened = at + start.len();
    let end_start = opened + inner.len();
    let behind = inner + end + rest;
    assert(block.before + (start + inner + end) + rest == block.before + start + behind);
    assert(find_from(text, start, 0) == Some(at)) by {
        lemma_first_behind(block.before, start, behind);
    }
    assert(text.skip(opened) == behind);
    lemma_body_read(text, opened, inner, end, rest);
    lemma_trim(block.lead, content, block.trail);
    assert(token_at(text, at, start)) by {
        lemma_find_from(text, start, 0);
    }
    lemma_next_block(text, 0, config);
    lemma_block_content(text, at, config);
    lemma_blocks_skip(text, end_start + end.len(), 0, config);
}

/// The blocks of a written message are read back.
proof fn lemma_written_blocks(
    blocks: Seq<WrittenBlock>,
    tail: Seq<char>,
    config: DsmlParserConfig,
)
    requires
        tokens_distinguishable(config),
        forall|i: int| 0 <= i < blocks.len() ==> is_readable_block(#[trigger] blocks[i], config),
        !contains(tail, config.function_calls_start@),
    ensures
        calls_in_text(written_message(blocks, tail, config), config) == all_said(blocks),
    decreases blocks.len(),
{
    if blocks.len() == 0 {
        lemma_no_start_no_blocks(tail, config);
    } else {
        let others = blocks.drop_first();
        let first = blocks[0];
        assert forall|i: int| 0 <= i < others.len() implies is_readable_block(
            #[trigger] others[i],
            config,
        ) by {
            assert(others[i] == blocks[i + 1]);
        }
        let rest = written_message(others, tail, config);
        lemma_written_blocks(others, tail, config);
        lemma_first_block(first, rest, config);
        lemma_written_calls(first, config);
        let one = seq![block_content(first, config)];
        lemma_calls_in_both(one, blocks_from(rest, 0, config), config);
        assert(one.drop_last() == Seq::<Seq<char>>::empty());
        assert(calls_in(one.drop_last(), config) == Seq::<CallModel>::empty());
        assert(calls_in(one, config) == first.calls.map_values(|call: WrittenCall| said(call)));
    }
}

/// A message that is written in the format is read back: its calls are those that were written, in
/// their order, each with the name and the parameters that it was written with, and its text is
/// what was written in front of the first block.
pub proof fn lemma_written_message_is_read(
    message: Seq<char>,
    blocks: Seq<WrittenBlock>,
    tail: Seq<char>,
    config: DsmlParserConfig,
)
    requires
        tokens_distinguishable(config),
        forall|i: int| 0 <= i < blocks.len() ==> is_readable_block(#[trigger] blocks[i], config),
        !contains(tail, config.function_calls_start@),
        trim(message) == written_message(blocks, tail, config),
    ensures
        calls_in_text(trim(message), config) == all_said(blocks),
        0 < all_said(blocks).len() ==> normal_text(message, config) == trim(blocks[0].before),
        all_said(blocks).len() == 0 ==> normal_text(message, config) == trim(message),
{
    lemma_written_blocks(blocks, tail, config);
    if 0 < blocks.len() {
        let rest = written_message(blocks.drop_first(), tail, config);
        lemma_first_block(blocks[0], rest, config);
        assert(trim(message).take(blocks[0].before.len() as int) == blocks[0].before);
    }
}

/// The default tokens can be told from each other, those of a block overlap in no text, and none is
/// too long for `regex`.
pub proof fn lemma_default_tokens_distinguishable(config: DsmlParserConfig)
    requires
        config.function_calls_start@ == "<｜DSML｜function_calls>"@,
        config.function_calls_end@ == "</｜DSML｜function_calls>"@,
        config.invoke_start_prefix@ == "<｜DSML｜invoke name="@,
        config.invoke_end@ == "</｜DSML｜invoke>"@,
        config.parameter_prefix@ == "<｜DSML｜parameter name="@,
        config.parameter_end@ == "</｜DSML｜parameter>"@,
    ensures
        tokens_distinguishable(config),
        tokens_moderate(config),
        stand_apart(config.function_calls_start@, config.function_calls_end@),
{
    reveal_strlit("<｜DSML｜function_calls>");
    reveal_strlit("</｜DSML｜function_calls>");
    reveal_strlit("<｜DSML｜invoke name=");
    reveal_strlit("</｜DSML｜invoke>");
    reveal_strlit("<｜DSML｜parameter name=");
    reveal_strlit("</｜DSML｜parameter>");
    lemma_unbordered("<｜DSML｜function_calls>"@);
    lemma_unbordered("</｜DSML｜function_calls>"@);
    lemma_unbordered("<｜DSML｜invoke name="@);
    lemma_unbordered("</｜DSML｜invoke>"@);
    lemma_unbordered("<｜DSML｜parameter name="@);
    lemma_unbordered("</｜DSML｜parameter>"@);
    let start = "<｜DSML｜function_calls>"@;
    let end = "</｜DSML｜function_calls>"@;
    lemma_differs(end, start, 1);
    lemma_differs(start, end, 1);
}

} // verus!

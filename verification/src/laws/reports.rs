//! Laws of the calls that are reported for a message that is written in one of the formats.
use vstd::prelude::*;

use crate::arguments::{json_normal_form, object_text};
use crate::config::{DsmlParserConfig, KimiK2ParserConfig, XmlParserConfig};
use crate::dsml;
use crate::kimi_k2::{
    self, IdentifiedCall, all_identified, called_name, identified, is_digit, is_name_char, is_word,
    normal_arguments, regex_matches_char, reports_identified,
};
use crate::laws::arguments::{lemma_dsml_arguments_are_finite, lemma_xml_arguments_are_finite};
use crate::laws::dsml_format;
use crate::laws::kimi_k2_format;
use crate::laws::parameters::{
    are_members, dsml_names, dsml_values, lemma_dsml_arguments_are_the_parameters,
    lemma_xml_arguments_are_the_parameters, xml_names, xml_values,
};
use crate::laws::rewriting::begins_with;
use crate::laws::xml_format;
use crate::response::{
    CallModel, ToolCallResponse, ToolCallType, all_reported, is_generated_id, is_uuid_v4, reports,
};
use crate::schema::{ToolDefinition, declared};
use crate::text::trim;
use crate::values::unquoted;
use crate::xml;

verus! {

/// The calls that are reported are the calls that were read, one for one and in their order: each has
/// the name and the arguments that were read, character by character, and a generated id.
pub proof fn lemma_reported_calls(calls: Seq<ToolCallResponse>, models: Seq<CallModel>)
    ensures
        all_reported(calls, models) <==> {
            &&& calls.len() == models.len()
            &&& forall|i: int|
                0 <= i < calls.len() ==> {
                    &&& (#[trigger] calls[i]).function.name@ == models[i].name
                    &&& calls[i].function.arguments@ == models[i].arguments
                    &&& calls[i].tp == ToolCallType::Function
                    &&& is_generated_id(calls[i].id@)
                }
        },
{
    if all_reported(calls, models) {
        assert forall|i: int| 0 <= i < calls.len() implies reports(#[trigger] calls[i], models[i]) by {
        }
    }
}

/// A generated id is `call-` and 36 characters, hexadecimal digits but for four hyphens.
pub proof fn lemma_generated_ids(id: Seq<char>)
    requires
        is_generated_id(id),
    ensures
        id.len() == 41,
        begins_with(id, "call-"@),
        forall|i: int|
            5 <= i < 41 ==> if i == 13 || i == 18 || i == 23 || i == 28 {
                #[trigger] id[i] == '-'
            } else {
                '0' <= id[i] <= '9' || 'a' <= id[i] <= 'f'
            },
{
    reveal_strlit("call-");
    let uuid = choose|uuid: Seq<char>| #[trigger] is_uuid_v4(uuid) && id == "call-"@ + uuid;
    assert(id.take(5) == "call-"@);
    assert forall|i: int| 5 <= i < 41 implies if i == 13 || i == 18 || i == 23 || i == 28 {
        #[trigger] id[i] == '-'
    } else {
        '0' <= id[i] <= '9' || 'a' <= id[i] <= 'f'
    } by {
        assert(id[i] == uuid[i - 5]);
    }
}

/// The calls that are reported with the ids of the message are the calls that were read, one for one
/// and in their order, each with its id, its name and its arguments, character by character.
pub proof fn lemma_identified_calls(calls: Seq<ToolCallResponse>, models: Seq<IdentifiedCall>)
    ensures
        all_identified(calls, models) <==> {
            &&& calls.len() == models.len()
            &&& forall|i: int|
                0 <= i < calls.len() ==> {
                    &&& (#[trigger] calls[i]).id@ == models[i].id
                    &&& calls[i].function.name@ == models[i].name
                    &&& calls[i].function.arguments@ == models[i].arguments
                    &&& calls[i].tp == ToolCallType::Function
                }
        },
{
    if all_identified(calls, models) {
        assert forall|i: int| 0 <= i < calls.len() implies reports_identified(
            #[trigger] calls[i],
            models[i],
        ) by {}
    }
}

/// The calls of written blocks, block by block.
pub open spec fn xml_calls(blocks: Seq<xml_format::WrittenBlock>) -> Seq<xml_format::WrittenCall>
    decreases blocks.len(),
{
    if blocks.len() == 0 {
        Seq::empty()
    } else {
        blocks[0].calls + xml_calls(blocks.drop_first())
    }
}

/// The call calls the function of the written call, with its parameters for arguments.
pub open spec fn says_xml(
    call: ToolCallResponse,
    written: xml_format::WrittenCall,
    tools: Option<&[ToolDefinition]>,
) -> bool {
    let elements = xml_format::named_bodies(written.parameters);
    let known = declared(tools, unquoted(written.name));
    &&& call.function.name@ == unquoted(written.name)
    &&& exists|members: Map<Seq<char>, Seq<char>>|
        {
            &&& call.function.arguments@ == #[trigger] object_text(members)
            &&& members.dom().finite()
            &&& are_members(members, xml_names(elements), xml_values(elements, known), false)
        }
}

/// What written blocks say is what their calls say.
proof fn lemma_xml_said(blocks: Seq<xml_format::WrittenBlock>, tools: Option<&[ToolDefinition]>)
    ensures
        xml_format::all_said(blocks, tools) == xml_calls(blocks).map_values(
            |call: xml_format::WrittenCall| xml_format::said(call, tools),
        ),
    decreases blocks.len(),
{
    if 0 < blocks.len() {
        lemma_xml_said(blocks.drop_first(), tools);
        let first = blocks[0].calls;
        let others = xml_calls(blocks.drop_first());
        let say = |call: xml_format::WrittenCall| xml_format::said(call, tools);
        assert((first + others).map_values(say) =~= first.map_values(say) + others.map_values(say));
    }
}

/// For a message that is written in XML style, the calls that were written are reported, in their
/// order: each with its name, and with arguments that are its parameters, name by name and value by
/// value. The text is what was written around the blocks.
pub proof fn lemma_written_xml_message_is_reported(
    blocks: Seq<xml_format::WrittenBlock>,
    tail: Seq<char>,
    config: XmlParserConfig,
    tools: Option<&[ToolDefinition]>,
    calls: Seq<ToolCallResponse>,
)
    requires
        xml_format::tokens_distinguishable(config),
        forall|i: int|
            0 <= i < blocks.len() ==> xml_format::is_readable_block(#[trigger] blocks[i], config),
        !crate::text::contains(tail, config.tool_call_start_token@),
        all_reported(
            calls,
            xml::calls_read(
                xml::scan_of(xml_format::written_message(blocks, tail, config), config).blocks,
                config,
                tools,
                true,
            ),
        ),
    ensures
        calls.len() == xml_calls(blocks).len(),
        forall|i: int|
            0 <= i < calls.len() ==> says_xml(#[trigger] calls[i], xml_calls(blocks)[i], tools),
        xml::scan_of(xml_format::written_message(blocks, tail, config), config).normal
            == xml_format::all_before(blocks) + tail,
{
    xml_format::lemma_written_message_is_read(blocks, tail, config, tools);
    lemma_xml_said(blocks, tools);
    assert forall|i: int| 0 <= i < calls.len() implies says_xml(
        #[trigger] calls[i],
        xml_calls(blocks)[i],
        tools,
    ) by {
        let written = xml_calls(blocks)[i];
        let elements = xml_format::named_bodies(written.parameters);
        let known = declared(tools, unquoted(written.name));
        let members = xml::arguments_of(elements, known);
        assert(reports(calls[i], xml_format::said(written, tools)));
        assert(calls[i].function.arguments@ == object_text(members));
        lemma_xml_arguments_are_the_parameters(elements, known);
        lemma_xml_arguments_are_finite(elements, known);
    }
}

/// The calls of written blocks, block by block.
pub open spec fn dsml_calls(blocks: Seq<dsml_format::WrittenBlock>) -> Seq<dsml_format::WrittenCall>
    decreases blocks.len(),
{
    if blocks.len() == 0 {
        Seq::empty()
    } else {
        blocks[0].calls + dsml_calls(blocks.drop_first())
    }
}

/// The call calls the function of the written call, with its parameters for arguments.
pub open spec fn says_dsml(call: ToolCallResponse, written: dsml_format::WrittenCall) -> bool {
    let elements = dsml_format::contents(written.parameters);
    &&& call.function.name@ == trim(written.name)
    &&& exists|members: Map<Seq<char>, Seq<char>>|
        {
            &&& call.function.arguments@ == #[trigger] object_text(members)
            &&& members.dom().finite()
            &&& are_members(members, dsml_names(elements), dsml_values(elements), true)
        }
}

/// What written blocks say is what their calls say.
proof fn lemma_dsml_said(blocks: Seq<dsml_format::WrittenBlock>)
    ensures
        dsml_format::all_said(blocks) == dsml_calls(blocks).map_values(
            |call: dsml_format::WrittenCall| dsml_format::said(call),
        ),
    decreases blocks.len(),
{
    if 0 < blocks.len() {
        lemma_dsml_said(blocks.drop_first());
        let first = blocks[0].calls;
        let others = dsml_calls(blocks.drop_first());
        let say = |call: dsml_format::WrittenCall| dsml_format::said(call);
        assert((first + others).map_values(say) =~= first.map_values(say) + others.map_values(say));
    }
}

/// For a message that is written in DSML, the calls that were written are reported, in their order:
/// each with its name, and with arguments that are its parameters, name by name and value by value,
/// those that are marked as strings as strings.
pub proof fn lemma_written_dsml_message_is_reported(
    message: Seq<char>,
    blocks: Seq<dsml_format::WrittenBlock>,
    tail: Seq<char>,
    config: DsmlParserConfig,
    calls: Seq<ToolCallResponse>,
)
    requires
        dsml_format::tokens_distinguishable(config),
        forall|i: int|
            0 <= i < blocks.len() ==> dsml_format::is_readable_block(#[trigger] blocks[i], config),
        !crate::text::contains(tail, config.function_calls_start@),
        trim(message) == dsml_format::written_message(blocks, tail, config),
        all_reported(calls, dsml::calls_in_text(trim(message), config)),
    ensures
        calls.len() == dsml_calls(blocks).len(),
        forall|i: int|
            0 <= i < calls.len() ==> says_dsml(#[trigger] calls[i], dsml_calls(blocks)[i]),
        0 < calls.len() ==> dsml::normal_text(message, config) == trim(blocks[0].before),
        calls.len() == 0 ==> dsml::normal_text(message, config) == trim(message),
{
    dsml_format::lemma_written_message_is_read(message, blocks, tail, config);
    lemma_dsml_said(blocks);
    assert forall|i: int| 0 <= i < calls.len() implies says_dsml(
        #[trigger] calls[i],
        dsml_calls(blocks)[i],
    ) by {
        let written = dsml_calls(blocks)[i];
        let elements = dsml_format::contents(written.parameters);
        let members = dsml::arguments_of(elements);
        assert(reports(calls[i], dsml_format::said(written)));
        assert(calls[i].function.arguments@ == object_text(members));
        lemma_dsml_arguments_are_the_parameters(elements);
        lemma_dsml_arguments_are_finite(elements);
    }
}

/// The calls of written sections, section by section.
pub open spec fn kimi_calls(sections: Seq<kimi_k2_format::WrittenSection>) -> Seq<
    kimi_k2_format::WrittenCall,
>
    decreases sections.len(),
{
    if sections.len() == 0 {
        Seq::empty()
    } else {
        sections[0].calls + kimi_calls(sections.drop_first())
    }
}

/// The call has the id of the written call, calls the function that the id names, without the prefix
/// `functions.`, and has for arguments the normal form of the object, where that is JSON, and else
/// the object as it stands.
pub open spec fn says_kimi(call: ToolCallResponse, written: kimi_k2_format::WrittenCall) -> bool {
    let object = seq!['{'] + (written.inner + seq!['}']);
    &&& call.id@ == written.name + seq![':'] + written.digits
    &&& if begins_with(written.name, "functions."@) && 10 < written.name.len() {
        call.function.name@ == written.name.skip(10)
    } else {
        call.function.name@ == written.name
    }
    &&& json_normal_form(object) matches Some(normal) ==> call.function.arguments@ == normal
    &&& json_normal_form(object) is None ==> call.function.arguments@ == object
}

/// A call that reports what a written call says has its id, its name and its arguments.
proof fn lemma_says_kimi(call: ToolCallResponse, written: kimi_k2_format::WrittenCall)
    requires
        reports_identified(call, kimi_k2_format::said(written)),
    ensures
        says_kimi(call, written),
{
    reveal_strlit("functions.");
    let name = written.name;
    if 10 < name.len() {
        assert(name.take(10) == name.subrange(0, 10));
    }
    assert("functions."@.len() == 10);
    lemma_normal_arguments(seq!['{'] + (written.inner + seq!['}']));
}

/// The arguments are the normal form where there is one, whatever it looks like, and else the text as
/// it stands.
pub proof fn lemma_normal_arguments(raw: Seq<char>)
    ensures
        forall|normal: Seq<char>| #[trigger] normal_arguments(raw, Some(normal)) == normal,
        normal_arguments(raw, None) == raw,
        json_normal_form(raw) matches Some(normal) ==> normal_arguments(raw, json_normal_form(raw))
            == normal,
{
}

/// What written sections say is what their calls say.
proof fn lemma_kimi_said(sections: Seq<kimi_k2_format::WrittenSection>)
    ensures
        kimi_k2_format::all_said(sections) == kimi_k2_format::said_by(kimi_calls(sections)),
    decreases sections.len(),
{
    if 0 < sections.len() {
        lemma_kimi_said(sections.drop_first());
        let first = sections[0].calls;
        let others = kimi_calls(sections.drop_first());
        assert(kimi_k2_format::said_by(first + others) =~= kimi_k2_format::said_by(first)
            + kimi_k2_format::said_by(others));
    } else {
        assert(kimi_k2_format::said_by(kimi_calls(sections)) =~= Seq::<IdentifiedCall>::empty());
    }
}

/// For a message that is written in the Kimi K2 format, the calls that were written are reported, in
/// their order, each under its own id.
pub proof fn lemma_written_kimi_message_is_reported(
    sections: Seq<kimi_k2_format::WrittenSection>,
    tail: Seq<char>,
    config: KimiK2ParserConfig,
    calls: Seq<ToolCallResponse>,
)
    requires
        kimi_k2_format::tokens_distinguishable(config),
        forall|i: int|
            0 <= i < sections.len() ==> kimi_k2_format::is_readable_section(
                #[trigger] sections[i],
                config,
            ),
        kimi_k2_format::holds_none(tail, config.section_start_variants@),
        all_identified(
            calls,
            kimi_k2::calls_in(
                kimi_k2::scan_of(
                    kimi_k2_format::written_message(sections, tail, config),
                    config,
                ).sections,
                config,
            ),
        ),
    ensures
        calls.len() == kimi_calls(sections).len(),
        forall|i: int|
            0 <= i < calls.len() ==> says_kimi(#[trigger] calls[i], kimi_calls(sections)[i]),
        kimi_k2::scan_of(kimi_k2_format::written_message(sections, tail, config), config).normal
            == kimi_k2_format::all_before(sections) + tail,
{
    kimi_k2_format::lemma_written_message_is_read(sections, tail, config);
    lemma_kimi_said(sections);
    assert forall|i: int| 0 <= i < calls.len() implies says_kimi(
        #[trigger] calls[i],
        kimi_calls(sections)[i],
    ) by {
        let written = kimi_calls(sections)[i];
        assert(reports_identified(calls[i], kimi_k2_format::said(written)));
        lemma_says_kimi(calls[i], written);
    }
}

/// For a message that breaks off in a section, the calls that are complete are reported, in their
/// order, each under its own id.
pub proof fn lemma_broken_off_kimi_message_is_reported(
    section: kimi_k2_format::WrittenSection,
    config: KimiK2ParserConfig,
    calls: Seq<ToolCallResponse>,
)
    requires
        kimi_k2_format::tokens_distinguishable(config),
        0 <= section.start < config.section_start_variants@.len(),
        kimi_k2_format::are_readable(section.calls, config),
        kimi_k2_format::holds_none(section.before, config.section_start_variants@),
        kimi_k2_format::holds_none(
            kimi_k2_format::open_section(section, config),
            config.section_end_variants@,
        ),
        !crate::text::contains(section.tail, config.call_end@),
        all_identified(
            calls,
            kimi_k2::calls_in(
                kimi_k2::scan_of(
                    section.before + kimi_k2_format::open_section(section, config),
                    config,
                ).sections,
                config,
            ),
        ),
    ensures
        calls.len() == section.calls.len(),
        forall|i: int| 0 <= i < calls.len() ==> says_kimi(#[trigger] calls[i], section.calls[i]),
{
    kimi_k2_format::lemma_broken_off_message_is_read(section, config);
    assert forall|i: int| 0 <= i < calls.len() implies says_kimi(
        #[trigger] calls[i],
        section.calls[i],
    ) by {
        assert(reports_identified(calls[i], kimi_k2_format::said(section.calls[i])));
        lemma_says_kimi(calls[i], section.calls[i]);
    }
}

/// Whatever stands as the id and the object of a call: the call has that id, and the normal form of
/// that object or, where it is not JSON, the object as it stands, without the white space around
/// them.
pub proof fn lemma_identified_call(raw: (Seq<char>, Seq<char>))
    ensures
        identified(raw).id == trim(raw.0),
        identified(raw).name == called_name(trim(raw.0)),
        json_normal_form(trim(raw.1)) matches Some(normal) ==> identified(raw).arguments == normal,
        json_normal_form(trim(raw.1)) is None ==> identified(raw).arguments == trim(raw.1),
{
    lemma_normal_arguments(trim(raw.1));
}

/// The characters of names: the ASCII letters and digits, `_`, `.`, `-`, and the word characters that
/// `regex` has beyond ASCII. Digits are the ASCII digits and those that `regex` has beyond ASCII.
pub proof fn lemma_characters_of_ids(c: char)
    ensures
        (c as int) < 0x80 ==> (is_name_char(c) <==> 0x30 <= c as int <= 0x39 || 0x41 <= c as int
            <= 0x5a || 0x61 <= c as int <= 0x7a || c == '_' || c == '.' || c == '-'),
        (c as int) < 0x80 ==> (is_digit(c) <==> 0x30 <= c as int <= 0x39),
        0x80 <= c as int ==> (is_name_char(c) <==> regex_matches_char("\\w"@, c)),
        0x80 <= c as int ==> (is_digit(c) <==> regex_matches_char("\\d"@, c)),
{
    if 0x80 <= c as int {
        assert(is_word(c) == regex_matches_char("\\w"@, c));
    }
}

} // verus!

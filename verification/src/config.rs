//! The tokens that mark tool calls in the formats of the different models.
use vstd::prelude::*;

verus! {

/// The tokens of the XML format.
#[derive(Debug, Clone)]
pub struct XmlParserConfig {
    /// Opens a block of calls, e.g. `<tool_call>`.
    pub tool_call_start_token: String,
    /// Closes a block of calls, e.g. `</tool_call>`.
    pub tool_call_end_token: String,
    /// Stands in front of a function's name, e.g. `<function=`.
    pub function_start_token: String,
    /// Closes a function, e.g. `</function>`.
    pub function_end_token: String,
    /// Stands in front of a parameter's name, e.g. `<parameter=`.
    pub parameter_start_token: String,
    /// Closes a parameter, e.g. `</parameter>`.
    pub parameter_end_token: String,
}

impl Default for XmlParserConfig {
    fn default() -> (config: Self)
        ensures
            config.tool_call_start_token@ == "<tool_call>"@,
            config.tool_call_end_token@ == "</tool_call>"@,
            config.function_start_token@ == "<function="@,
            config.function_end_token@ == "</function>"@,
            config.parameter_start_token@ == "<parameter="@,
            config.parameter_end_token@ == "</parameter>"@,
    {
        XmlParserConfig {
            tool_call_start_token: "<tool_call>".to_owned(),
            tool_call_end_token: "</tool_call>".to_owned(),
            function_start_token: "<function=".to_owned(),
            function_end_token: "</function>".to_owned(),
            parameter_start_token: "<parameter=".to_owned(),
            parameter_end_token: "</parameter>".to_owned(),
        }
    }
}

/// The tokens of the Kimi K2 format.
#[derive(Debug, Clone)]
pub struct KimiK2ParserConfig {
    /// The tokens of which any one opens a section of calls.
    pub section_start_variants: Vec<String>,
    /// The tokens of which any one closes a section of calls.
    pub section_end_variants: Vec<String>,
    /// Opens a call.
    pub call_start: String,
    /// Closes a call.
    pub call_end: String,
    /// Stands between a call's id and its arguments.
    pub argument_begin: String,
}

impl Default for KimiK2ParserConfig {
    fn default() -> (config: Self)
        ensures
            config.section_start_variants@.len() == 2,
            config.section_start_variants@[0]@ == "<|tool_calls_section_begin|>"@,
            config.section_start_variants@[1]@ == "<|tool_call_section_begin|>"@,
            config.section_end_variants@.len() == 2,
            config.section_end_variants@[0]@ == "<|tool_calls_section_end|>"@,
            config.section_end_variants@[1]@ == "<|tool_call_section_end|>"@,
            config.call_start@ == "<|tool_call_begin|>"@,
            config.call_end@ == "<|tool_call_end|>"@,
            config.argument_begin@ == "<|tool_call_argument_begin|>"@,
    {
        let mut section_start_variants: Vec<String> = Vec::new();
        section_start_variants.push("<|tool_calls_section_begin|>".to_owned());
        section_start_variants.push("<|tool_call_section_begin|>".to_owned());
        let mut section_end_variants: Vec<String> = Vec::new();
        section_end_variants.push("<|tool_calls_section_end|>".to_owned());
        section_end_variants.push("<|tool_call_section_end|>".to_owned());
        KimiK2ParserConfig {
            section_start_variants,
            section_end_variants,
            call_start: "<|tool_call_begin|>".to_owned(),
            call_end: "<|tool_call_end|>".to_owned(),
            argument_begin: "<|tool_call_argument_begin|>".to_owned(),
        }
    }
}

/// The tokens of DSML, the format of DeepSeek.
#[derive(Debug, Clone)]
pub struct DsmlParserConfig {
    /// Opens a block of calls.
    pub function_calls_start: String,
    /// Closes a block of calls.
    pub function_calls_end: String,
    /// Stands in front of the quoted name of a function.
    pub invoke_start_prefix: String,
    /// Closes a call.
    pub invoke_end: String,
    /// Stands in front of the quoted name of a parameter.
    pub parameter_prefix: String,
    /// Closes a parameter.
    pub parameter_end: String,
}

impl Default for DsmlParserConfig {
    fn default() -> (config: Self)
        ensures
            config.function_calls_start@ == "<｜DSML｜function_calls>"@,
            config.function_calls_end@ == "</｜DSML｜function_calls>"@,
            config.invoke_start_prefix@ == "<｜DSML｜invoke name="@,
            config.invoke_end@ == "</｜DSML｜invoke>"@,
            config.parameter_prefix@ == "<｜DSML｜parameter name="@,
            config.parameter_end@ == "</｜DSML｜parameter>"@,
    {
        DsmlParserConfig {
            function_calls_start: "<｜DSML｜function_calls>".to_owned(),
            function_calls_end: "</｜DSML｜function_calls>".to_owned(),
            invoke_start_prefix: "<｜DSML｜invoke name=".to_owned(),
            invoke_end: "</｜DSML｜invoke>".to_owned(),
            parameter_prefix: "<｜DSML｜parameter name=".to_owned(),
            parameter_end: "</｜DSML｜parameter>".to_owned(),
        }
    }
}

} // verus!

# tool_call_parsers

Language models write their tool calls into their output, each family in a format of its own. This
library reads them back: it finds the calls in a message, converts their arguments to JSON, and
tells which text is left. For streams it detects where calls may begin and where they end. Every
executable function is verified with Verus against a contract over texts as sequences of
characters.

| Module | Contents |
| --- | --- |
| `xml` | `<tool_call><function=name><parameter=key>value</parameter></function></tool_call>` |
| `kimi_k2` | the sections and ids of Kimi K2 |
| `dsml` | the markup of DeepSeek |
| `reasoning` | the parser of the MiniMax models, which puts `<think>` in front of their output |
| `values`, `number`, `schema` | parameter values, converted by the schema of the tool |
| `arguments`, `response` | the arguments of a call as JSON, and the calls that are reported |
| `stream`, `grammar`, `text`, `config` | detection in streams, shared pieces of the formats, texts, tokens |
| `pattern` | the patterns of the formats, and whether `regex` compiles them |
| `laws` | what holds of several operations together |

The laws say, for each format, that a message without a start token has no calls, that a chunk of a
stream in which no start is detected is plain text whatever follows, that the end position cuts a
stream between blocks, and that what is written in the format is read back. A section of Kimi K2
that breaks off is read as the same section closed.

What `serde_json`, `regex`, `uuid` and `str::to_lowercase` compute is called through small functions
marked `external_body`, in `arguments`, `kimi_k2`, `pattern`, `response` and `text`. Their contracts are
believed, not proved; each says what it claims.

`app/` wraps the library for callers that use `serde_json::Value` schemas, `anyhow` errors and
`tracing`. `tests/` runs the library, and compares its scanners with the regular expressions of the
formats.

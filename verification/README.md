# tool_stream_parsers

Streaming parsers for the tool calls that a language model writes into its output,
verified with Verus. The parser for MiniMax-M2 takes the output chunk by chunk, gives
out text as soon as it is sure to be text, and a call as soon as its markup is whole.

- `src/text.rs`: searching, cutting and trimming text.
- `src/json.rs`: JSON string literals and object members, on top of `serde_json`.
- `src/xml.rs`: the reader of the call markup, on top of `dynamo-parsers`, and which
  names it can read.
- `src/tool_calling/traits.rs`: tools, results and errors.
- `src/tool_calling/arguments.rs`: arguments in the order in which the model wrote them.
- `src/tool_calling/minimax_markup.rs`: the scanner that finds what comes next.
- `src/tool_calling/minimax_m2.rs`: the parser and its model.
- `src/tool_calling/minimax_laws.rs`: what holds of every stream: however the output is
  cut into chunks, the same text and calls come out; calls are numbered from zero; no
  stretch that is given out as text holds a start marker.
- `app/`: the parsers behind one trait, with `anyhow` errors and a log of what a stream
  lost.

The claims that are made of `serde_json` and `dynamo-parsers` without proof stand in the
doc comments of `json::write_string`, `json::read_object`, the `clone` of a JSON value in
`src/json.rs`, and `xml::read_calls`.

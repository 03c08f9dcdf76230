use dynamo_parsers::tool_calling::{try_tool_call_parse_xml, XmlParserConfig};
use tool_stream_parsers::json::Member;
use tool_stream_parsers::tool_calling::arguments::{
    reorder_arguments, reorder_members, source_parameter_order,
};
use tool_stream_parsers::tool_calling::minimax_m2::{
    delta_from_calls, minimax_config, MiniMaxM2ToolStreamParser, Notice,
};
use tool_stream_parsers::tool_calling::minimax_markup::{marker_prefix_suffix_len, scan, Scanned};
use tool_stream_parsers::tool_calling::traits::{Tool, ToolCallDelta, ToolParseError, ToolParseResult};
use tool_stream_parsers::xml::{is_readable, XmlCall};

fn tool(name: &str, parameters: &str) -> Tool {
    Tool {
        name: name.to_string(),
        description: None,
        parameters: serde_json::from_str(parameters).unwrap(),
        strict: None,
    }
}

fn weather_tools() -> Vec<Tool> {
    vec![tool(
        "get_weather",
        r#"{"type":"object","properties":{"location":{"type":"string"}}}"#,
    )]
}

fn parse_chunks(tools: &[Tool], chunks: &[&str]) -> ToolParseResult {
    let mut parser = MiniMaxM2ToolStreamParser::new(tools);
    let mut out = ToolParseResult::default();
    for chunk in chunks {
        out.append(parser.push(chunk).expect("push"));
    }
    out.append(parser.finish().expect("finish"));
    out
}

#[test]
fn emits_complete_call_on_close() {
    let out = parse_chunks(
        &weather_tools(),
        &[
            "<minimax:tool_call>\n<invoke name=\"get_weather\">",
            "\n<parameter name=\"location\">",
            "NYC</parameter>\n</invoke>",
            "\n</minimax:tool_call>",
        ],
    );
    assert_eq!(out.normal_text, "");
    let merged = out.coalesce_calls();
    assert_eq!(merged.calls.len(), 1);
    assert_eq!(merged.calls[0].tool_index, 0);
    assert_eq!(merged.calls[0].name.as_deref(), Some("get_weather"));
    assert_eq!(merged.calls[0].arguments, r#"{"location":"NYC"}"#);
}

#[test]
fn preserves_prefix_text_before_block() {
    let out = parse_chunks(
        &weather_tools(),
        &[
            "I will",
            " check the weather. <minimax:tool_call>",
            "\n<invoke name=\"get_weather\">",
            "\n<parameter name=\"location\">NYC</parameter>\n</invoke>\n</minimax:tool_call>",
        ],
    );
    assert_eq!(out.normal_text, "I will check the weather. ");
    assert_eq!(out.coalesce_calls().calls.len(), 1);
}

#[test]
fn emits_two_calls_in_one_block() {
    let out = parse_chunks(
        &weather_tools(),
        &[
            "<minimax:tool_call>\n<invoke name=\"get_weather\">\n<parameter name=\"location\">NYC</parameter>\n</invoke>",
            "\n<invoke name=\"get_weather\">\n<parameter name=\"location\">LA</parameter>\n</invoke>\n</minimax:tool_call>",
        ],
    );
    let merged = out.coalesce_calls();
    assert_eq!(merged.calls.len(), 2);
    assert_eq!(merged.calls[0].arguments, r#"{"location":"NYC"}"#);
    assert_eq!(merged.calls[1].arguments, r#"{"location":"LA"}"#);
}

#[test]
fn preserves_trailing_text_after_block() {
    // Trailing narration after a complete block flows into normal_text.
    let out = parse_chunks(
        &weather_tools(),
        &[
            "<minimax:tool_call>\n<invoke name=\"get_weather\">\n<parameter name=\"location\">NYC</parameter>\n</invoke>\n</minimax:tool_call>",
            " Let me know if you need more.",
        ],
    );
    assert_eq!(out.normal_text, " Let me know if you need more.");
    assert_eq!(out.coalesce_calls().calls.len(), 1);
}

#[test]
fn preserves_inter_call_and_trailing_text() {
    // Narration between two complete blocks flows into normal_text; both calls are
    // emitted with distinct indices.
    let out = parse_chunks(
        &weather_tools(),
        &[
            "I will check the weather. <minimax:tool_call>\n<invoke name=\"get_weather\">\n<parameter name=\"location\">NYC</parameter>\n</invoke>\n</minimax:tool_call>",
            " Then check LA weather. <minimax:tool_call>\n<invoke name=\"get_weather\">\n<parameter name=\"location\">LA</parameter>\n</invoke>\n</minimax:tool_call>",
        ],
    );
    assert_eq!(
        out.normal_text,
        "I will check the weather.  Then check LA weather. "
    );
    let merged = out.coalesce_calls();
    assert_eq!(merged.calls.len(), 2);
    assert_eq!(merged.calls[0].arguments, r#"{"location":"NYC"}"#);
    assert_eq!(merged.calls[1].arguments, r#"{"location":"LA"}"#);
}

#[test]
fn suppresses_incomplete_invoke_at_eof() {
    let out = parse_chunks(
        &weather_tools(),
        &[
            "<minimax:tool_call>\n<invoke name=\"get_weather\">",
            "\n<parameter name=\"location\">NY",
        ],
    );
    assert_eq!(out.normal_text, "");
    assert!(out.calls.is_empty());
}

#[test]
fn preserves_source_parameter_order() {
    let tools = vec![tool(
        "file_editor",
        r#"{
            "type": "object",
            "properties": {
                "path": { "type": "string" },
                "old_str": { "type": "string" },
                "new_str": { "type": "string" },
                "command": { "type": "string" }
            }
        }"#,
    )];
    let out = parse_chunks(
        &tools,
        &[
            "<minimax:tool_call>\n<invoke name=\"file_editor\">",
            "\n<parameter name=\"path\">/app/x.go</parameter>",
            "\n<parameter name=\"old_str\">foo</parameter>",
            "\n<parameter name=\"new_str\">bar</parameter>",
            "\n<parameter name=\"command\">str_replace</parameter>",
            "\n</invoke>\n</minimax:tool_call>",
        ],
    );
    let merged = out.coalesce_calls();
    assert_eq!(merged.calls.len(), 1);
    assert_eq!(
        merged.calls[0].arguments,
        r#"{"path":"/app/x.go","old_str":"foo","new_str":"bar","command":"str_replace"}"#
    );
}

const STORY: &str = "Say <b>hi</b>. <minimax:tool_call> skip <invoke name=\"get_weather\">\
<parameter name=\"location\">Zürich</parameter></invoke> skip </minimax:tool_call> and \
<invoke name=\"get_weather\"></invoke> dropped <minimax:tool_call></minimax:tool_call> end <inv";

#[test]
fn every_cut_gives_the_same_stream() {
    let tools = weather_tools();
    let whole = parse_chunks(&tools, &[STORY]);
    assert_eq!(whole.normal_text, "Say <b>hi</b>.  and  end <inv");
    assert_eq!(whole.calls.len(), 2);
    assert_eq!(whole.calls[0].arguments, r#"{"location":"Zürich"}"#);
    assert_eq!(whole.calls[1].arguments, "{}");
    for (cut, _) in STORY.char_indices() {
        let parts = parse_chunks(&tools, &[&STORY[..cut], &STORY[cut..]]);
        assert_eq!(parts.normal_text, whole.normal_text);
        assert_eq!(parts.calls, whole.calls);
    }
    let letters: Vec<String> = STORY.chars().map(|c| c.to_string()).collect();
    let chunks: Vec<&str> = letters.iter().map(|c| c.as_str()).collect();
    let parts = parse_chunks(&tools, &chunks);
    assert_eq!(parts.normal_text, whole.normal_text);
    assert_eq!(parts.calls, whole.calls);
}

#[test]
fn two_chunks_are_one_chunk() {
    let tools = weather_tools();
    let mut one = MiniMaxM2ToolStreamParser::new(&tools);
    let mut two = MiniMaxM2ToolStreamParser::new(&tools);
    let whole = one.push("text <minimax:tool").unwrap();
    let mut parts = two.push("text <mini").unwrap();
    assert_eq!(parts.normal_text, "text ");
    parts.append(two.push("max:tool").unwrap());
    assert_eq!(whole.normal_text, parts.normal_text);
    let after_one = one.push("s> on").unwrap();
    let after_two = two.push("s> on").unwrap();
    assert_eq!(after_one.normal_text, "<minimax:tools> on");
    assert_eq!(after_one.normal_text, after_two.normal_text);
}

#[test]
fn an_empty_chunk_brings_nothing() {
    let mut parser = MiniMaxM2ToolStreamParser::new(&weather_tools());
    for chunk in ["a<", "minimax:tool_call>x", "<invoke name=\"get_weather\"> y"] {
        parser.push(chunk).unwrap();
        let again = parser.push("").unwrap();
        assert_eq!(again.normal_text, "");
        assert!(again.calls.is_empty());
    }
}

#[test]
fn calls_are_numbered_and_whole() {
    let invoke = "<invoke name=\"get_weather\"></invoke>";
    let text = format!("<minimax:tool_call>{invoke}{invoke}</minimax:tool_call>{invoke}");
    let out = parse_chunks(&weather_tools(), &[&text]);
    let indices: Vec<usize> = out.calls.iter().map(|c| c.tool_index).collect();
    assert_eq!(indices, vec![0, 1, 2]);
    assert!(out.calls.iter().all(|c| c.name.as_deref() == Some("get_weather")));
    assert_eq!(out.coalesce_calls().calls.len(), 3);
}

#[test]
fn finish_clears_what_waits() {
    for text in ["a <inv", "<minimax:tool_call>x", "<invoke name=\"a\">", "b<minimax:tool_call><invoke name=\"a\">"] {
        let mut parser = MiniMaxM2ToolStreamParser::new(&weather_tools());
        parser.push(text).unwrap();
        assert!(parser.can_finish());
        parser.finish().unwrap();
        let again = parser.finish().unwrap();
        assert_eq!(again.normal_text, "");
        assert!(again.calls.is_empty());
    }
}

#[test]
fn plain_text_passes() {
    let out = parse_chunks(&[], &["a <b> ", "</invoke> ", "<invoke ", "", "<minimax:tool_call"]);
    assert_eq!(out.normal_text, "a <b> </invoke> <invoke <minimax:tool_call");
    assert!(out.calls.is_empty());
}

#[test]
fn partial_marker_is_held_back_until_it_is_decided() {
    let mut parser = MiniMaxM2ToolStreamParser::new(&[]);
    assert_eq!(parser.push("one <invo").unwrap().normal_text, "one ");
    assert_eq!(parser.push("ice").unwrap().normal_text, "<invoice");
    assert_eq!(parser.push(" <").unwrap().normal_text, " ");
    assert_eq!(parser.finish().unwrap().normal_text, "<");
}

#[test]
fn text_behind_a_bare_invoke_is_dropped() {
    let out = parse_chunks(
        &weather_tools(),
        &["before <invoke name=\"get_weather\"><parameter name=\"location\">NYC</parameter></invoke> after"],
    );
    assert_eq!(out.normal_text, "before ");
    assert_eq!(out.calls.len(), 1);
    assert_eq!(out.calls[0].arguments, r#"{"location":"NYC"}"#);
}

#[test]
fn an_invoke_without_a_call_leaves_the_text() {
    let out = parse_chunks(&weather_tools(), &["before <invoke name=></invoke> after"]);
    assert_eq!(out.normal_text, "before  after");
    assert!(out.calls.is_empty());
}

#[test]
fn incomplete_bare_invoke_is_dropped() {
    let out = parse_chunks(&weather_tools(), &["before <invoke name=\"get_weather\"> x"]);
    assert_eq!(out.normal_text, "before ");
    assert!(out.calls.is_empty());
}

#[test]
fn text_stays_suppressed_after_a_block_that_never_ends() {
    let mut parser = MiniMaxM2ToolStreamParser::new(&weather_tools());
    parser.push("<minimax:tool_call> x").unwrap();
    parser.finish().unwrap();
    assert_eq!(parser.push("lost").unwrap().normal_text, "");
}

#[test]
fn block_end_inside_an_invoke_does_not_close_the_block() {
    let out = parse_chunks(
        &weather_tools(),
        &["<minimax:tool_call><invoke name=\"get_weather\">x</minimax:tool_call>y</invoke>z</minimax:tool_call>t"],
    );
    assert_eq!(out.normal_text, "t");
    assert!(out.calls.is_empty());
}

#[test]
fn values_are_typed_by_the_schema() {
    let tools = vec![tool(
        "set",
        r#"{"type":"object","properties":{"n":{"type":"integer"},"on":{"type":"boolean"},"s":{"type":"string"}}}"#,
    )];
    let text = "<invoke name=\"set\"><parameter name=\"s\">42</parameter>\
<parameter name=\"on\">true</parameter><parameter name=\"n\">42</parameter>\
<parameter name=\"other\">7</parameter></invoke>";
    let out = parse_chunks(&tools, &[text]);
    assert_eq!(out.calls[0].arguments, r#"{"s":"42","on":true,"n":42,"other":"7"}"#);
    let untyped = parse_chunks(&[tool("set", "null")], &[text]);
    assert_eq!(untyped.calls[0].arguments, r#"{"s":"42","on":"true","n":"42","other":"7"}"#);
}

#[test]
fn a_repeated_parameter_is_written_once() {
    let out = parse_chunks(
        &weather_tools(),
        &["<invoke name=\"f\"><parameter name=\"a\">1</parameter><parameter name=\"b\">2</parameter><parameter name=\"a\">3</parameter></invoke>"],
    );
    assert_eq!(out.calls[0].arguments, r#"{"a":"3","b":"2"}"#);
    let function = r#"<invoke name="f"><parameter name="a">1</parameter><parameter name="a">2</parameter></invoke>"#;
    assert_eq!(reorder_arguments(r#"{"a":2}"#, function), r#"{"a":2}"#);
}

#[test]
fn a_lone_quotation_mark_is_no_name() {
    let mut parser = MiniMaxM2ToolStreamParser::new(&weather_tools());
    assert!(!parser.can_push("<invoke name=\"></invoke>"));
    assert!(!parser.can_push("<invoke name= ' >x</invoke>"));
    assert!(!parser.can_push("<invoke name=\"f\"><parameter name='>v</parameter></invoke>"));
    // Not read as a name: no closing marker, a call without a name, inside a value.
    assert!(parser.can_push("<invoke name=\">"));
    assert!(parser.can_push("<invoke name=\"\"><parameter name='>v</parameter></invoke>"));
    assert!(parser.can_push("<invoke name=\"f\"><parameter name='></invoke>"));
    let value = "<invoke name=\"f\"><parameter name=\"p\"><invoke name=\"></parameter></invoke>";
    assert!(parser.can_push(value));
    let out = parser.push(value).unwrap();
    assert_eq!(out.calls[0].arguments, r#"{"p":"<invoke name=\">"}"#);
    assert!(parser.can_finish());
}

#[test]
fn lone_quotation_marks_in_nested_blocks() {
    let config = minimax_config();
    let wrap = |function: &str| format!("<minimax:tool_call>{function}</minimax:tool_call>");
    // A block that ends inside the invocation leaves what follows to be read.
    assert!(is_readable(&wrap("<invoke name=\"></minimax:tool_call></invoke>"), &config));
    assert!(!is_readable(
        &wrap("<invoke name=\"f\"></minimax:tool_call><invoke name=\"></invoke>"),
        &config
    ));
    assert!(!is_readable(
        &wrap("<invoke name=\"f\"></minimax:tool_call><minimax:tool_call><invoke name='>x</invoke>"),
        &config
    ));
}

#[test]
fn special_tokens_are_preserved() {
    let parser = MiniMaxM2ToolStreamParser::create(&weather_tools()).unwrap();
    assert!(parser.preserve_special_tokens());
}

#[test]
fn a_call_from_what_was_read() {
    let calls = vec![
        XmlCall { name: "first".to_string(), arguments: r#"{"b":1,"a":2}"#.to_string() },
        XmlCall { name: "second".to_string(), arguments: "{}".to_string() },
    ];
    let function = "<invoke name=\"first\"><parameter name=\"a\">2</parameter><parameter name=\"b\">1</parameter></invoke>";
    let call = delta_from_calls(Ok(calls), function, 5).unwrap().unwrap();
    assert_eq!(
        call,
        ToolCallDelta {
            tool_index: 5,
            name: Some("first".to_string()),
            arguments: r#"{"a":2,"b":1}"#.to_string(),
        }
    );
    assert!(delta_from_calls(Ok(Vec::new()), function, 5).unwrap().is_none());
    match delta_from_calls(Err("bad markup".to_string()), function, 5) {
        Err(ToolParseError::Markup(message)) => assert_eq!(message, "bad markup"),
        other => panic!("{:?}", other),
    }
}

#[test]
fn parameter_names_in_source_order() {
    let function = "<parameter name=\" b \">x</parameter><parameter name=c><parameter name=\"\u{a0}\">\
<parameter name=\"a\">y</parameter><parameter name=\"b\"><parameter name=\"open";
    assert_eq!(source_parameter_order(function), vec!["b", "a", "b"]);
    assert!(source_parameter_order("").is_empty());
    assert!(source_parameter_order("<parameter name=").is_empty());
}

#[test]
fn members_in_source_order() {
    let member = |key: &str, value: &str| Member { key: key.to_string(), value: value.to_string() };
    let members = vec![member("z", "1"), member("a\n\"\\\u{1f}\u{7f}é", "[2]"), member("m", "null")];
    let function = "<parameter name=\"m\"><parameter name=\"unknown\"><parameter name=\"z\">";
    assert_eq!(
        reorder_members(&members, function),
        "{\"m\":null,\"z\":1,\"a\\n\\\"\\\\\\u001f\u{7f}é\":[2]}"
    );
    assert_eq!(reorder_members(&Vec::new(), function), "{}");
}

#[test]
fn every_control_character_is_escaped() {
    let key: String = (0u8..0x20).map(|b| b as char).collect();
    let members = vec![Member { key, value: "0".to_string() }];
    assert_eq!(
        reorder_members(&members, ""),
        "{\"\\u0000\\u0001\\u0002\\u0003\\u0004\\u0005\\u0006\\u0007\\b\\t\\n\\u000b\\f\\r\\u000e\\u000f\
\\u0010\\u0011\\u0012\\u0013\\u0014\\u0015\\u0016\\u0017\\u0018\\u0019\\u001a\\u001b\\u001c\\u001d\\u001e\\u001f\":0}"
    );
}

#[test]
fn arguments_in_source_order() {
    let function = "<parameter name=\"y\"><parameter name=\"x\">";
    assert_eq!(
        reorder_arguments(r#"{ "x" : [1, 2.50], "y" : {"k": null} }"#, function),
        r#"{"y":{"k":null},"x":[1,2.5]}"#
    );
    assert_eq!(reorder_arguments("[1, 2]", function), "[1, 2]");
    assert_eq!(reorder_arguments("not json", function), "not json");
    assert_eq!(reorder_arguments("", function), "");
}

#[test]
fn longest_marker_prefix_at_the_end() {
    assert_eq!(marker_prefix_suffix_len(""), 0);
    assert_eq!(marker_prefix_suffix_len("abc"), 0);
    assert_eq!(marker_prefix_suffix_len("é<"), 1);
    assert_eq!(marker_prefix_suffix_len("<<minimax:tool_call"), 18);
    assert_eq!(marker_prefix_suffix_len("x<invoke name"), 12);
    assert_eq!(marker_prefix_suffix_len("<invoke name="), 0);
    assert_eq!(marker_prefix_suffix_len("<minimax:tool_call>"), 0);
}

#[test]
fn scanner_finds_what_comes_next() {
    match scan("text <minimax:tool_call>rest", false, false) {
        Scanned::Open { text, rest } => {
            assert_eq!(text, "text ");
            assert_eq!(rest, "rest");
            assert_eq!(marker_prefix_suffix_len(&text), 0);
        }
        _ => panic!(),
    }
    match scan("gap</minimax:tool_call>rest", true, false) {
        Scanned::Close { rest } => assert_eq!(rest, "rest"),
        _ => panic!(),
    }
    match scan("gap<invoke name=\"a\"></invoke>rest", true, false) {
        Scanned::Invoke { text, invoke, rest } => {
            assert_eq!(text, "");
            assert_eq!(invoke, "<invoke name=\"a\"></invoke>");
            assert_eq!(rest, "rest");
        }
        _ => panic!(),
    }
    match scan("gap<invoke name=\"a\"> </invo", true, false) {
        Scanned::Wait { text, rest, in_block } => {
            assert_eq!(text, "");
            assert_eq!(rest, "<invoke name=\"a\"> </invo");
            assert!(in_block);
        }
        _ => panic!(),
    }
    match scan("text <inv", false, false) {
        Scanned::Wait { text, rest, in_block } => {
            assert_eq!(text, "text ");
            assert_eq!(rest, "<inv");
            assert!(!in_block);
        }
        _ => panic!(),
    }
}

/// The first call that reading the whole text at once gives.
fn call_read_at_once(text: &str) -> Option<(String, String)> {
    let config = minimax_config();
    let config = XmlParserConfig {
        tool_call_start_token: config.tool_call_start_token,
        tool_call_end_token: config.tool_call_end_token,
        function_start_token: config.function_start_token,
        function_end_token: config.function_end_token,
        parameter_start_token: config.parameter_start_token,
        parameter_end_token: config.parameter_end_token,
        allow_eof_recovery: config.allow_eof_recovery,
        strict_match: config.strict_match,
        passthrough_when_no_function: config.passthrough_when_no_function,
        backoff_when_no_wrapper: config.backoff_when_no_wrapper,
    };
    let (calls, _) = try_tool_call_parse_xml(text, &config, None).unwrap();
    calls.into_iter().next().map(|call| (call.function.name, call.function.arguments))
}

#[test]
fn a_streamed_call_is_the_call_read_at_once() {
    let invokes = [
        "<invoke name=\"f\"></invoke>",
        "<invoke name=\"f\"><parameter name=\"b\">1</parameter><parameter name=\"a\">x y</parameter></invoke>",
        "<invoke name='g'><parameter name='q'>[1, 2]</parameter></invoke>",
        "<invoke name=\"\"></invoke>",
        "<invoke name=\"f\" </invoke>",
        "<invoke name=\"f\"></minimax:tool_call></invoke>",
    ];
    for invoke in invokes {
        let text = format!("<minimax:tool_call>{invoke}</minimax:tool_call>");
        let half = text.len() / 2;
        let out = parse_chunks(&[], &[&text[..half], &text[half..]]);
        let streamed: Vec<(String, String)> =
            out.calls.into_iter().map(|call| (call.name.unwrap(), call.arguments)).collect();
        let read: Vec<(String, String)> = call_read_at_once(&text)
            .into_iter()
            .map(|(name, arguments)| (name, reorder_arguments(&arguments, invoke)))
            .collect();
        assert_eq!(streamed, read, "{invoke}");
        assert_eq!(out.normal_text, "");
    }
}

#[test]
fn blocks_follow_one_another() {
    let block = |inner: &str| format!("<minimax:tool_call> {inner} </minimax:tool_call>");
    let f = "<invoke name=\"f\"></invoke>";
    let g = "<invoke name=\"g\"></invoke>";
    let text = format!("one {}two {}three", block(&format!("{f} and {g}")), block(f));
    let out = parse_chunks(&[], &[&text]);
    assert_eq!(out.normal_text, "one two three");
    let names: Vec<&str> = out.calls.iter().map(|call| call.name.as_deref().unwrap()).collect();
    assert_eq!(names, ["f", "g", "f"]);
    let indices: Vec<usize> = out.calls.iter().map(|call| call.tool_index).collect();
    assert_eq!(indices, [0, 1, 2]);
}

#[test]
fn what_can_be_pushed_is_taken() {
    let parts = [
        "<invoke name=", "</invoke>", "<parameter name=", "</parameter>", "\"", "'", ">", " ",
        "</minimax:tool_call>", "<minimax:tool_call>", "x",
    ];
    let mut refused: usize = 0;
    for a in parts {
        for b in parts {
            for c in parts {
                for start in ["<invoke name=", "<invoke name=f><parameter name="] {
                    let text = format!("{start}{a}{b}{c}</parameter></invoke>");
                    let mut parser = MiniMaxM2ToolStreamParser::new(&[]);
                    if parser.can_push(&text) {
                        assert!(parser.push(&text).is_ok());
                        assert!(parser.can_finish());
                        assert!(parser.finish().is_ok());
                    } else {
                        refused += 1;
                    }
                }
            }
        }
    }
    assert!(refused > 0);
}

#[test]
fn reordering_keeps_the_members() {
    let function = "<parameter name=\"c\"><parameter name=\"none\"><parameter name=\"a\"><parameter name=\"c\">";
    let texts = [
        r#"{}"#,
        r#"{"a":1,"b":-9223372036854775808,"c":18446744073709551615}"#,
        r#"{"b":"x\ny\"\\","a":[{"z":true,"y":null}, "1.5e3"],"c":{"k":{}}}"#,
        r#"{"é":"\u00e9\u0000","$serde_json::private::RawValue":"1","c":"e"}"#,
        r#"[1,2]"#,
        r#"no object"#,
    ];
    for text in texts {
        let once = reorder_arguments(text, function);
        assert_eq!(reorder_arguments(&once, function), once);
        assert_eq!(
            serde_json::from_str::<serde_json::Value>(&once).ok(),
            serde_json::from_str::<serde_json::Value>(text).ok()
        );
    }
}

#[test]
fn deep_values_are_read_as_they_were_written() {
    let function = "<parameter name=\"b\">";
    let nested = |depth: usize| {
        format!("{{\"a\":{}{},\"b\":1}}", "[".repeat(depth), "]".repeat(depth))
    };
    let once = reorder_arguments(&nested(126), function);
    assert!(once.starts_with("{\"b\":1,"));
    assert_eq!(reorder_arguments(&once, function), once);
    // Too deep to be read: left as it is.
    assert_eq!(reorder_arguments(&nested(127), function), nested(127));
}

#[test]
fn the_order_of_the_keys_read_does_not_matter() {
    let function = "<parameter name=\"b\"><parameter name=\"a\"><parameter name=\"missing\">";
    assert_eq!(reorder_arguments(r#"{"a":1,"b":2}"#, function), r#"{"b":2,"a":1}"#);
    assert_eq!(reorder_arguments(r#"{"b":2,"a":1}"#, function), r#"{"b":2,"a":1}"#);
}

#[test]
fn a_schema_is_handed_on_as_it_is() {
    let mut deep = serde_json::Value::Null;
    for _ in 0..200 {
        deep = serde_json::Value::Array(vec![deep]);
    }
    let mut integer = serde_json::Map::new();
    integer.insert("$serde_json::private::RawValue".to_string(), deep);
    integer.insert("type".to_string(), serde_json::Value::from("integer"));
    let mut properties = serde_json::Map::new();
    properties.insert("n".to_string(), serde_json::Value::Object(integer));
    let mut schema = serde_json::Map::new();
    schema.insert("properties".to_string(), serde_json::Value::Object(properties));
    let tools = vec![Tool {
        name: "f".to_string(),
        description: None,
        parameters: serde_json::Value::Object(schema),
        strict: None,
    }];
    let text = "<invoke name=\"f\"><parameter name=\"n\">7</parameter></invoke>";
    assert_eq!(parse_chunks(&tools, &[text]).calls[0].arguments, r#"{"n":7}"#);
}

#[test]
fn what_cannot_be_read_again_is_left_as_it_is() {
    // The reserved key comes first: the object is refused.
    let reserved = r#"{"a":1,"$serde_json::private::RawValue":"{}"}"#;
    let function = "<parameter name=\"$serde_json::private::RawValue\">";
    let once = reorder_arguments(reserved, function);
    assert_eq!(once, r#"{"$serde_json::private::RawValue":"{}","a":1}"#);
    assert!(serde_json::from_str::<serde_json::Value>(&once).is_err());
    assert_eq!(reorder_arguments(&once, function), once);
    // A raw value is nested deeper than the text that it is written into may be.
    for (depth, readable) in [(126, true), (127, false)] {
        let raw = format!("{}{}", "[".repeat(depth), "]".repeat(depth));
        let text = format!(
            "{{\"a\":{{\"$serde_json::private::RawValue\":\"{raw}\"}},\"b\":1}}"
        );
        let once = reorder_arguments(&text, "<parameter name=\"b\">");
        assert_eq!(once, format!("{{\"b\":1,\"a\":{raw}}}"));
        assert_eq!(serde_json::from_str::<serde_json::Value>(&once).is_ok(), readable);
        assert_eq!(reorder_arguments(&once, "<parameter name=\"b\">"), once);
    }
}

/// The notices of a stream.
fn notices_of(chunks: &[&str]) -> Vec<Notice> {
    let mut parser = MiniMaxM2ToolStreamParser::new(&[]);
    let mut notices = Vec::new();
    for chunk in chunks {
        parser.push_with_notices(chunk, &mut notices).unwrap();
    }
    parser.finish_with_notices(&mut notices).unwrap();
    notices
}

#[test]
fn what_is_lost_or_recovered_is_noticed() {
    let f = "<invoke name=\"f\"></invoke>";
    assert_eq!(notices_of(&["text", "<invo"]), vec![]);
    assert_eq!(notices_of(&[&format!("<minimax:tool_call>{f}</minimax:tool_call>")]), vec![]);
    assert_eq!(notices_of(&["<minimax:tool_call> x"]), vec![Notice::BlockWithoutInvoke]);
    assert_eq!(
        notices_of(&[&format!("<minimax:tool_call>{f}<invoke name=")]),
        vec![Notice::IncompleteInvoke]
    );
    assert_eq!(notices_of(&["a<invoke name=\"f\">"]), vec![Notice::IncompleteBareInvoke]);
    assert_eq!(
        notices_of(&[&format!("{f}<invoke name=\"\"></invoke>{f}<minimax:tool_call>")]),
        vec![
            Notice::BareInvokeRecovered { tool_index: 0 },
            Notice::BareInvokeRecovered { tool_index: 1 },
            Notice::BlockWithoutInvoke,
        ]
    );
}

#[test]
fn every_cut_is_noticed_the_same() {
    let text = "a<invoke name=\"f\"></invoke><minimax:tool_call><invoke name=\"g\">";
    let whole = notices_of(&[text]);
    assert_eq!(
        whole,
        vec![Notice::BareInvokeRecovered { tool_index: 0 }, Notice::IncompleteInvoke]
    );
    for cut in 0..text.len() {
        assert_eq!(notices_of(&[&text[..cut], &text[cut..]]), whole);
    }
}

#[test]
fn the_stream_may_end_behind_any_chunk() {
    let text = "a<invoke name=\"f\"></invoke><minimax:tool_call><invoke name=\"g\"></invoke></minimax";
    for cut in 0..text.len() {
        let mut parser = MiniMaxM2ToolStreamParser::new(&[]);
        parser.push(&text[..cut]).unwrap();
        assert!(parser.can_finish());
        parser.finish().unwrap();
        assert!(parser.can_finish());
    }
}

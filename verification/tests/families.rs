use tool_stream_parsers::text::is_white_space;
use tool_stream_parsers::tool_calling::traits::{ToolCallDelta, ToolParseError, ToolParseResult};
use tool_stream_parsers::tool_calling::{
    create_tool_parser_for_family, tool_family, FamilyParser, ToolFamily,
};

#[test]
fn families_go_by_their_names() {
    assert_eq!(tool_family("harmony"), Some(ToolFamily::Harmony));
    assert_eq!(tool_family("harmony_text"), Some(ToolFamily::Harmony));
    assert_eq!(tool_family("deepseek_v4"), Some(ToolFamily::DeepSeekV4));
    assert_eq!(tool_family("qwen3_coder"), Some(ToolFamily::Qwen3Coder));
    assert_eq!(tool_family("minimax_m2"), Some(ToolFamily::MiniMaxM2));
    assert_eq!(tool_family("gemma4"), Some(ToolFamily::Gemma4));
    assert_eq!(tool_family("glm47"), Some(ToolFamily::Glm47));
    assert_eq!(tool_family("kimi_k2"), Some(ToolFamily::KimiK2));
    assert_eq!(tool_family("MiniMax_M2"), None);
    assert_eq!(tool_family(""), None);
}

#[test]
fn a_parser_for_its_family() {
    match create_tool_parser_for_family("minimax_m2", &[]) {
        Ok(FamilyParser::MiniMaxM2(mut parser)) => {
            assert_eq!(parser.push("hello").unwrap().normal_text, "hello");
        }
        _ => panic!("no parser"),
    }
    match create_tool_parser_for_family("harmony_text", &[]) {
        Ok(FamilyParser::Other(family)) => assert_eq!(family, ToolFamily::Harmony),
        _ => panic!("another family"),
    }
}

#[test]
fn an_unknown_family_is_refused() {
    match create_tool_parser_for_family("gpt", &[]) {
        Err(error) => assert_eq!(error.message(), "no Dynamo parser v2 for family 'gpt'"),
        Ok(_) => panic!("a parser"),
    }
    assert_eq!(ToolParseError::Markup("m".to_string()).message(), "m");
}

#[test]
fn white_space_is_that_of_unicode() {
    for n in 0..=0x10ffffu32 {
        if let Some(c) = char::from_u32(n) {
            assert_eq!(is_white_space(c), c.is_whitespace());
        }
    }
}

fn piece(tool_index: usize, name: Option<&str>, arguments: &str) -> ToolCallDelta {
    ToolCallDelta {
        tool_index,
        name: name.map(|n| n.to_string()),
        arguments: arguments.to_string(),
    }
}

#[test]
fn pieces_of_a_call_are_joined() {
    let mut result = ToolParseResult::default();
    assert_eq!(result.normal_text, "");
    assert!(result.calls.is_empty());
    result.append(ToolParseResult {
        normal_text: "a".to_string(),
        calls: vec![piece(1, None, "{\"x\""), piece(0, Some("f"), "{}")],
    });
    result.append(ToolParseResult {
        normal_text: "b".to_string(),
        calls: vec![piece(1, Some("g"), ":1}"), piece(0, Some("h"), "")],
    });
    let merged = result.coalesce_calls();
    assert_eq!(merged.normal_text, "ab");
    assert_eq!(merged.calls, vec![piece(1, Some("g"), "{\"x\":1}"), piece(0, Some("f"), "{}")]);
}

#[test]
fn whole_calls_are_left_as_they_are() {
    let calls = || vec![piece(2, Some("a"), "{}"), piece(0, None, "x"), piece(1, Some("c"), "")];
    let result = ToolParseResult { normal_text: String::new(), calls: calls() };
    assert_eq!(result.coalesce_calls().calls, calls());
}

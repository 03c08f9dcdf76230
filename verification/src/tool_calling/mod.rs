//! Tool-call parsers, one for each family of models.

pub mod arguments;
pub mod minimax_laws;
pub mod minimax_m2;
pub mod minimax_markup;
pub mod traits;

use crate::text;
use crate::tool_calling::minimax_m2::MiniMaxM2ToolStreamParser;
use crate::tool_calling::traits::{Tool, ToolParseError};
use vstd::prelude::*;
use vstd::string::*;

verus! {

/// A family of models that write tool calls in one way.
#[derive(Debug, Clone, Copy, PartialEq, Eq, Structural)]
pub enum ToolFamily {
    Harmony,
    DeepSeekV4,
    Qwen3Coder,
    MiniMaxM2,
    Gemma4,
    Glm47,
    KimiK2,
}

/// The family that goes by a name. Harmony goes by two.
pub open spec fn family_named(name: Seq<char>) -> Option<ToolFamily> {
    if name == "harmony"@ || name == "harmony_text"@ {
        Some(ToolFamily::Harmony)
    } else if name == "deepseek_v4"@ {
        Some(ToolFamily::DeepSeekV4)
    } else if name == "qwen3_coder"@ {
        Some(ToolFamily::Qwen3Coder)
    } else if name == "minimax_m2"@ {
        Some(ToolFamily::MiniMaxM2)
    } else if name == "gemma4"@ {
        Some(ToolFamily::Gemma4)
    } else if name == "glm47"@ {
        Some(ToolFamily::Glm47)
    } else if name == "kimi_k2"@ {
        Some(ToolFamily::KimiK2)
    } else {
        None
    }
}

/// Each family goes by its names and by no others.
pub proof fn law_families_by_name(name: Seq<char>)
    ensures
        name == "harmony"@ || name == "harmony_text"@ <==> family_named(name) == Some(ToolFamily::Harmony),
        name == "deepseek_v4"@ <==> family_named(name) == Some(ToolFamily::DeepSeekV4),
        name == "qwen3_coder"@ <==> family_named(name) == Some(ToolFamily::Qwen3Coder),
        name == "minimax_m2"@ <==> family_named(name) == Some(ToolFamily::MiniMaxM2),
        name == "gemma4"@ <==> family_named(name) == Some(ToolFamily::Gemma4),
        name == "glm47"@ <==> family_named(name) == Some(ToolFamily::Glm47),
        name == "kimi_k2"@ <==> family_named(name) == Some(ToolFamily::KimiK2),
{
    reveal_strlit("harmony");
    reveal_strlit("harmony_text");
    reveal_strlit("deepseek_v4");
    reveal_strlit("qwen3_coder");
    reveal_strlit("minimax_m2");
    reveal_strlit("gemma4");
    reveal_strlit("glm47");
    reveal_strlit("kimi_k2");
    assert("harmony"@.len() == 7 && "harmony"@[0] == 'h');
    assert("kimi_k2"@.len() == 7 && "kimi_k2"@[0] == 'k');
    assert("deepseek_v4"@.len() == 11 && "deepseek_v4"@[0] == 'd');
    assert("qwen3_coder"@.len() == 11 && "qwen3_coder"@[0] == 'q');
    assert("harmony_text"@.len() == 12);
    assert("minimax_m2"@.len() == 10);
    assert("gemma4"@.len() == 6);
    assert("glm47"@.len() == 5);
}

/// The family that goes by a name.
pub fn tool_family(name: &str) -> (family: Option<ToolFamily>)
    ensures
        family == family_named(name@),
        name@ == "harmony"@ || name@ == "harmony_text"@ <==> family == Some(ToolFamily::Harmony),
        name@ == "deepseek_v4"@ <==> family == Some(ToolFamily::DeepSeekV4),
        name@ == "qwen3_coder"@ <==> family == Some(ToolFamily::Qwen3Coder),
        name@ == "minimax_m2"@ <==> family == Some(ToolFamily::MiniMaxM2),
        name@ == "gemma4"@ <==> family == Some(ToolFamily::Gemma4),
        name@ == "glm47"@ <==> family == Some(ToolFamily::Glm47),
        name@ == "kimi_k2"@ <==> family == Some(ToolFamily::KimiK2),
{
    proof {
        law_families_by_name(name@);
    }
    if text::same_text(name, "harmony") || text::same_text(name, "harmony_text") {
        Some(ToolFamily::Harmony)
    } else if text::same_text(name, "deepseek_v4") {
        Some(ToolFamily::DeepSeekV4)
    } else if text::same_text(name, "qwen3_coder") {
        Some(ToolFamily::Qwen3Coder)
    } else if text::same_text(name, "minimax_m2") {
        Some(ToolFamily::MiniMaxM2)
    } else if text::same_text(name, "gemma4") {
        Some(ToolFamily::Gemma4)
    } else if text::same_text(name, "glm47") {
        Some(ToolFamily::Glm47)
    } else if text::same_text(name, "kimi_k2") {
        Some(ToolFamily::KimiK2)
    } else {
        None
    }
}

/// A parser at the beginning of a stream.
pub enum FamilyParser {
    /// The parser for MiniMax-M2.
    MiniMaxM2(MiniMaxM2ToolStreamParser),
    /// The family whose own parser takes the stream.
    Other(ToolFamily),
}

/// Creates the tool parser for the family that goes by a name.
pub fn create_tool_parser_for_family(family: &str, tools: &[Tool]) -> (parser: Result<
    FamilyParser,
    ToolParseError,
>)
    ensures
        match family_named(family@) {
            Some(ToolFamily::MiniMaxM2) => parser matches Ok(FamilyParser::MiniMaxM2(p)) && p@
                == minimax_m2::fresh(minimax_m2::schemas(tools@)),
            Some(other) => parser matches Ok(FamilyParser::Other(f)) && f == other,
            None => parser matches Err(ToolParseError::UnknownFamily(name)) && name@ == family@,
        },
        family@ == "minimax_m2"@ <==> parser matches Ok(FamilyParser::MiniMaxM2(_)),
        parser matches Ok(FamilyParser::MiniMaxM2(p)) ==> {
            &&& p@.buffer.len() == 0
            &&& !p@.in_block
            &&& !p@.suppress_normal_text
            &&& p@.next_index == 0
            &&& p@.tools.len() == tools@.len()
            &&& forall|i: int|
                0 <= i < tools@.len() ==> {
                    &&& (#[trigger] p@.tools[i]).name == tools@[i].name@
                    &&& p@.tools[i].parameters == Some(tools@[i].parameters)
                    &&& p@.tools[i].strict == tools@[i].strict
                }
        },
        family@ == "harmony"@ || family@ == "harmony_text"@ <==> parser matches Ok(
            FamilyParser::Other(ToolFamily::Harmony),
        ),
        family@ == "deepseek_v4"@ <==> parser matches Ok(
            FamilyParser::Other(ToolFamily::DeepSeekV4),
        ),
        family@ == "qwen3_coder"@ <==> parser matches Ok(
            FamilyParser::Other(ToolFamily::Qwen3Coder),
        ),
        family@ == "gemma4"@ <==> parser matches Ok(FamilyParser::Other(ToolFamily::Gemma4)),
        family@ == "glm47"@ <==> parser matches Ok(FamilyParser::Other(ToolFamily::Glm47)),
        family@ == "kimi_k2"@ <==> parser matches Ok(FamilyParser::Other(ToolFamily::KimiK2)),
{
    proof {
        law_families_by_name(family@);
        minimax_m2::law_every_tool_is_known(tools@);
    }
    match tool_family(family) {
        Some(ToolFamily::MiniMaxM2) => match MiniMaxM2ToolStreamParser::create(tools) {
            Ok(parser) => Ok(FamilyParser::MiniMaxM2(parser)),
            Err(error) => Err(error),
        },
        Some(other) => Ok(FamilyParser::Other(other)),
        None => Err(ToolParseError::UnknownFamily(family.to_owned())),
    }
}

} // verus!

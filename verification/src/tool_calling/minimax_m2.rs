//! Streaming tool-call parser for MiniMax-M2.
//!
//! Chunks of the model's output go in as they come. Text comes out as soon as it is
//! sure to be text, a call as soon as its invocation is whole. What stands in a block
//! or in a bare invocation is never given out as text.

use crate::json;
use crate::text;
use crate::tool_calling::arguments;
use crate::tool_calling::arguments::{reorder_arguments, PARAMETER_START};
use crate::tool_calling::minimax_laws;
use crate::tool_calling::minimax_markup;
use crate::tool_calling::minimax_markup::{
    scan, Found, Scanned, BLOCK_END, BLOCK_START, FUNCTION_END, FUNCTION_START,
};
use crate::tool_calling::traits;
use crate::tool_calling::traits::{
    CallPiece, Failure, Output, Tool, ToolCallDelta, ToolParseError, ToolParseResult,
};
use crate::xml;
use crate::xml::{is_readable, read_calls, ToolDefinition, ToolSchema, XmlCall, XmlParserConfig, XmlSyntax};
use vstd::prelude::*;
use vstd::string::*;

verus! {

/// Closes a parameter.
pub const PARAMETER_END: &'static str = "</parameter>";

/// The syntax of the markup: nothing may be missing, and calls outside a block count.
pub open spec fn minimax_syntax() -> XmlSyntax {
    XmlSyntax {
        tool_call_start_token: BLOCK_START@,
        tool_call_end_token: BLOCK_END@,
        function_start_token: FUNCTION_START@,
        function_end_token: FUNCTION_END@,
        parameter_start_token: PARAMETER_START@,
        parameter_end_token: PARAMETER_END@,
        allow_eof_recovery: false,
        strict_match: true,
        passthrough_when_no_function: false,
        backoff_when_no_wrapper: true,
    }
}

/// The syntax of the markup, for its reader.
pub fn minimax_config() -> (config: XmlParserConfig)
    ensures
        config@ == minimax_syntax(),
        config.tool_call_start_token@ == "<minimax:tool_call>"@,
        config.tool_call_end_token@ == "</minimax:tool_call>"@,
        config.function_start_token@ == "<invoke name="@,
        config.function_end_token@ == "</invoke>"@,
        config.parameter_start_token@ == "<parameter name="@,
        config.parameter_end_token@ == "</parameter>"@,
        !config.allow_eof_recovery,
        config.strict_match,
        !config.passthrough_when_no_function,
        config.backoff_when_no_wrapper,
{
    XmlParserConfig {
        tool_call_start_token: BLOCK_START.to_owned(),
        tool_call_end_token: BLOCK_END.to_owned(),
        function_start_token: FUNCTION_START.to_owned(),
        function_end_token: FUNCTION_END.to_owned(),
        parameter_start_token: PARAMETER_START.to_owned(),
        parameter_end_token: PARAMETER_END.to_owned(),
        allow_eof_recovery: false,
        strict_match: true,
        passthrough_when_no_function: false,
        backoff_when_no_wrapper: true,
    }
}

/// An invocation in a block of its own.
pub open spec fn wrapped(function: Seq<char>) -> Seq<char> {
    BLOCK_START@ + function + BLOCK_END@
}

/// The names in an invocation can be read.
pub open spec fn readable_invoke(function: Seq<char>) -> bool {
    xml::readable(wrapped(function), minimax_syntax())
}

/// The call that an invocation makes, given what was read from it: the first that
/// was read, its arguments in the order in which the invocation has them.
pub open spec fn call_read(
    read: Result<Seq<(Seq<char>, Seq<char>)>, Seq<char>>,
    function: Seq<char>,
    index: int,
) -> Result<Option<CallPiece>, Failure> {
    match read {
        Err(message) => Err(Failure::Markup(message)),
        Ok(calls) => if calls.len() == 0 {
            Ok(None)
        } else {
            Ok(
                Some(
                    CallPiece {
                        tool_index: index,
                        name: Some(calls[0].0),
                        arguments: arguments::reordered(calls[0].1, function),
                    },
                ),
            )
        },
    }
}

/// The call that an invocation makes.
pub open spec fn call_made(function: Seq<char>, index: int, tools: Seq<ToolSchema>) -> Result<
    Option<CallPiece>,
    Failure,
> {
    call_read(xml::xml_calls(wrapped(function), minimax_syntax(), tools), function, index)
}

/// A call or an error, their texts as characters.
pub open spec fn call_view(call: Result<Option<ToolCallDelta>, ToolParseError>) -> Result<
    Option<CallPiece>,
    Failure,
> {
    match call {
        Ok(Some(delta)) => Ok(Some(delta@)),
        Ok(None) => Ok(None),
        Err(error) => Err(error@),
    }
}

/// The call that an invocation makes, given what was read from it.
pub fn delta_from_calls(
    read: Result<Vec<XmlCall>, String>,
    function: &str,
    next_index: usize,
) -> (call: Result<Option<ToolCallDelta>, ToolParseError>)
    ensures
        call_view(call) == call_read(xml::read_view(read), function@, next_index as int),
        read matches Err(message) ==> (call matches Err(ToolParseError::Markup(text)) && text@
            == message@),
        call is Err ==> read is Err,
        read matches Ok(calls) ==> (call matches Ok(None) <==> calls@.len() == 0),
        call matches Ok(Some(delta)) ==> {
            &&& read matches Ok(calls)
            &&& calls@.len() > 0
            &&& delta.tool_index == next_index
            &&& delta.name matches Some(name)
            &&& name@ == calls@[0].name@
            &&& json::object_members(calls@[0].arguments@) is None ==> delta.arguments@
                == calls@[0].arguments@
            &&& json::object_members(calls@[0].arguments@) matches Some(members)
                ==> delta.arguments@ == json::object_of(
                arguments::ordered(members, arguments::source_names(function@)),
            )
        },
{
    match read {
        Err(message) => Err(ToolParseError::Markup(message)),
        Ok(calls) => {
            if calls.len() == 0 {
                return Ok(None);
            }
            assert(xml::calls_view(calls@)[0] == calls@[0]@);
            let arguments = reorder_arguments(calls[0].arguments.as_str(), function);
            Ok(
                Some(
                    ToolCallDelta {
                        tool_index: next_index,
                        name: Some(calls[0].name.clone()),
                        arguments,
                    },
                ),
            )
        },
    }
}

/// The state of a parser between two chunks.
#[verifier::ext_equal]
pub struct ParserState {
    /// The text that waits for what follows.
    pub buffer: Seq<char>,
    /// A block is open.
    pub in_block: bool,
    /// Text is dropped.
    pub suppress_normal_text: bool,
    /// The index of the next call.
    pub next_index: int,
    /// The tools that the model may call.
    pub tools: Seq<ToolSchema>,
}

/// The state at the beginning of a stream.
pub open spec fn fresh(tools: Seq<ToolSchema>) -> ParserState {
    ParserState {
        buffer: Seq::empty(),
        in_block: false,
        suppress_normal_text: false,
        next_index: 0,
        tools,
    }
}

/// The state with a chunk added to what waits.
pub open spec fn fed(state: ParserState, chunk: Seq<char>) -> ParserState {
    ParserState { buffer: state.buffer + chunk, ..state }
}

/// The tools as the reader of the markup takes them.
pub open spec fn schemas(tools: Seq<Tool>) -> Seq<ToolSchema> {
    tools.map_values(
        |tool: Tool|
            ToolSchema {
                name: tool.name@,
                parameters: Some(tool.parameters),
                strict: tool.strict,
            },
    )
}

/// Every tool that is offered is known, in its place, with its name, its schema and
/// whether it is strict.
pub proof fn law_every_tool_is_known(tools: Seq<Tool>)
    ensures
        schemas(tools).len() == tools.len(),
        forall|i: int|
            0 <= i < tools.len() ==> {
                &&& (#[trigger] schemas(tools)[i]).name == tools[i].name@
                &&& schemas(tools)[i].parameters == Some(tools[i].parameters)
                &&& schemas(tools)[i].strict == tools[i].strict
            },
{
}

/// Text that is given out in this state.
pub open spec fn shown(state: ParserState, text: Seq<char>) -> Output {
    Output {
        normal_text: if state.suppress_normal_text {
            Seq::empty()
        } else {
            text
        },
        calls: Seq::empty(),
    }
}

/// An output put before what came after it.
pub open spec fn preceded(
    output: Output,
    later: (ParserState, Result<Output, Failure>),
) -> (ParserState, Result<Output, Failure>) {
    (
        later.0,
        match later.1 {
            Ok(more) => Ok(traits::followed_by(output, more)),
            Err(failure) => Err(failure),
        },
    )
}

/// What becomes of the text that waits: the state behind it, and what is given out.
/// Text is given out unless it is suppressed. It is suppressed from the beginning of
/// a block or a call on, until a block ends. An invocation whose markup cannot be read
/// stops the run there.
pub open spec fn drained(state: ParserState, flush: bool) -> (
    ParserState,
    Result<Output, Failure>,
)
    decreases state.buffer.len(),
{
    proof {
        minimax_markup::lemma_found_shrinks(state.buffer, state.in_block, flush);
    }
    match minimax_markup::next_found(state.buffer, state.in_block, flush) {
        Found::Wait { text, rest, in_block } => (
            ParserState { buffer: rest, in_block, ..state },
            Ok(shown(state, text)),
        ),
        Found::Open { text, rest } => preceded(
            shown(state, text),
            drained(
                ParserState { buffer: rest, in_block: true, suppress_normal_text: true, ..state },
                flush,
            ),
        ),
        Found::Close { rest } => drained(
            ParserState { buffer: rest, in_block: false, suppress_normal_text: false, ..state },
            flush,
        ),
        Found::Invoke { text, invoke, rest } => match call_made(
            invoke,
            state.next_index,
            state.tools,
        ) {
            Err(failure) => (ParserState { buffer: rest, ..state }, Err(failure)),
            Ok(None) => preceded(
                shown(state, text),
                drained(ParserState { buffer: rest, ..state }, flush),
            ),
            Ok(Some(call)) => preceded(
                Output { calls: seq![call], ..shown(state, text) },
                drained(
                    ParserState {
                        buffer: rest,
                        suppress_normal_text: true,
                        next_index: state.next_index + 1,
                        ..state
                    },
                    flush,
                ),
            ),
        },
    }
}

/// What a chunk brings: the state behind it, and what is given out.
pub open spec fn pushed(state: ParserState, chunk: Seq<char>) -> (
    ParserState,
    Result<Output, Failure>,
) {
    drained(fed(state, chunk), false)
}

/// What the end of the stream brings.
pub open spec fn finished(state: ParserState) -> (ParserState, Result<Output, Failure>) {
    drained(state, true)
}

/// The names in every invocation that waits can be read, and there are indices for
/// their calls.
pub open spec fn drainable(state: ParserState, flush: bool) -> bool {
    let list = minimax_markup::invokes(state.buffer, state.in_block, flush);
    &&& forall|i: int| 0 <= i < list.len() ==> readable_invoke(#[trigger] list[i])
    &&& state.next_index + list.len() <= usize::MAX
}

/// Something that was lost from a stream, or that was taken though it stood in the
/// wrong place.
#[derive(Debug, Clone, Copy, PartialEq, Eq, Structural)]
pub enum Notice {
    /// The stream ended in a block, and no further invocation had begun in it.
    BlockWithoutInvoke,
    /// The stream ended in an invocation in a block.
    IncompleteInvoke,
    /// The stream ended in an invocation outside any block.
    IncompleteBareInvoke,
    /// A call was taken from an invocation outside any block.
    BareInvokeRecovered {
        /// The index of the call.
        tool_index: usize,
    },
}

/// What is lost where the stream ends and no whole invocation is left.
pub open spec fn dropped(buffer: Seq<char>, in_block: bool) -> Seq<Notice> {
    if in_block {
        if text::find(buffer, FUNCTION_START@) is None {
            seq![Notice::BlockWithoutInvoke]
        } else {
            seq![Notice::IncompleteInvoke]
        }
    } else if minimax_markup::next_marker(buffer) is None {
        Seq::empty()
    } else {
        seq![Notice::IncompleteBareInvoke]
    }
}

/// What is noticed on the way that `drained` tells of.
pub open spec fn noticed(state: ParserState, flush: bool) -> Seq<Notice>
    decreases state.buffer.len(),
{
    proof {
        minimax_markup::lemma_found_shrinks(state.buffer, state.in_block, flush);
    }
    match minimax_markup::next_found(state.buffer, state.in_block, flush) {
        Found::Wait { .. } => if flush {
            dropped(state.buffer, state.in_block)
        } else {
            Seq::empty()
        },
        Found::Open { text, rest } => noticed(
            ParserState { buffer: rest, in_block: true, suppress_normal_text: true, ..state },
            flush,
        ),
        Found::Close { rest } => noticed(
            ParserState { buffer: rest, in_block: false, suppress_normal_text: false, ..state },
            flush,
        ),
        Found::Invoke { text, invoke, rest } => match call_made(
            invoke,
            state.next_index,
            state.tools,
        ) {
            Err(_) => Seq::empty(),
            Ok(None) => noticed(ParserState { buffer: rest, ..state }, flush),
            Ok(Some(_)) => {
                let later = noticed(
                    ParserState {
                        buffer: rest,
                        suppress_normal_text: true,
                        next_index: state.next_index + 1,
                        ..state
                    },
                    flush,
                );
                if state.in_block {
                    later
                } else {
                    seq![Notice::BareInvokeRecovered { tool_index: state.next_index as usize }]
                        + later
                }
            },
        },
    }
}

/// Stream parser for MiniMax-M2 XML tool calls.
pub struct MiniMaxM2ToolStreamParser {
    buffer: String,
    in_block: bool,
    suppress_normal_text: bool,
    next_index: usize,
    tools: Vec<ToolDefinition>,
}

impl View for MiniMaxM2ToolStreamParser {
    type V = ParserState;

    closed spec fn view(&self) -> ParserState {
        ParserState {
            buffer: self.buffer@,
            in_block: self.in_block,
            suppress_normal_text: self.suppress_normal_text,
            next_index: self.next_index as int,
            tools: xml::tools_view(self.tools@),
        }
    }
}

/// The tools as the reader of the markup takes them.
fn definitions(tools: &[Tool]) -> (list: Vec<ToolDefinition>)
    ensures
        xml::tools_view(list@) == schemas(tools@),
{
    let mut list: Vec<ToolDefinition> = Vec::new();
    let mut i: usize = 0;
    while i < tools.len()
        invariant
            i <= tools@.len(),
            xml::tools_view(list@) =~= schemas(tools@).take(i as int),
        decreases tools@.len() - i,
    {
        let ghost before = list@;
        let tool = &tools[i];
        list.push(
            ToolDefinition {
                name: tool.name.clone(),
                parameters: Some(tool.parameters.clone()),
                strict: tool.strict,
            },
        );
        assert(xml::tools_view(list@) =~= xml::tools_view(before).push(list@[i as int]@));
        i += 1;
    }
    assert(schemas(tools@).take(i as int) =~= schemas(tools@));
    list
}

/// One output behind two others.
pub proof fn lemma_preceded_twice(
    first: Output,
    second: Output,
    later: (ParserState, Result<Output, Failure>),
)
    ensures
        preceded(first, preceded(second, later)) == preceded(
            traits::followed_by(first, second),
            later,
        ),
{
    if let Ok(more) = later.1 {
        assert(traits::followed_by(first, traits::followed_by(second, more))
            =~= traits::followed_by(traits::followed_by(first, second), more));
    }
}

/// Nothing put before an outcome leaves it as it is.
pub proof fn lemma_preceded_by_nothing(later: (ParserState, Result<Output, Failure>))
    ensures
        preceded(traits::no_output(), later) == later,
{
    if let Ok(more) = later.1 {
        assert(traits::followed_by(traits::no_output(), more) =~= more);
    }
}

/// An invocation in a block of its own is what the reader of the markup takes.
proof fn lemma_wrapped(function: Seq<char>)
    ensures
        xml::strict_syntax(minimax_syntax()),
        text::find(wrapped(function), BLOCK_START@) is Some,
{
    minimax_markup::lemma_markers();
    arguments::lemma_parameter_start();
    reveal_strlit("</parameter>");
    let message = wrapped(function);
    assert(message.subrange(0, BLOCK_START@.len() as int) =~= BLOCK_START@);
    assert(text::occurs_at(message, BLOCK_START@, 0));
    text::lemma_find_from(message, BLOCK_START@, 0);
}

/// What is drainable stays so behind what was found.
proof fn lemma_drainable(state: ParserState, flush: bool)
    requires
        drainable(state, flush),
    ensures
        match minimax_markup::next_found(state.buffer, state.in_block, flush) {
            Found::Wait { .. } => true,
            Found::Open { text, rest } => drainable(
                ParserState { buffer: rest, in_block: true, suppress_normal_text: true, ..state },
                flush,
            ),
            Found::Close { rest } => drainable(
                ParserState { buffer: rest, in_block: false, suppress_normal_text: false, ..state },
                flush,
            ),
            Found::Invoke { text, invoke, rest } => {
                &&& readable_invoke(invoke)
                &&& state.next_index < usize::MAX
                &&& drainable(ParserState { buffer: rest, ..state }, flush)
                &&& drainable(
                    ParserState {
                        buffer: rest,
                        suppress_normal_text: true,
                        next_index: state.next_index + 1,
                        ..state
                    },
                    flush,
                )
            },
        },
{
    let list = minimax_markup::invokes(state.buffer, state.in_block, flush);
    if let Found::Invoke { text, invoke, rest } = minimax_markup::next_found(
        state.buffer,
        state.in_block,
        flush,
    ) {
        let more = minimax_markup::invokes(rest, state.in_block, flush);
        assert(list == seq![invoke] + more);
        assert(list[0] == invoke);
        assert(forall|i: int| 0 <= i < more.len() ==> #[trigger] more[i] == list[i + 1]);
    }
}

/// What is lost where the stream ends and no whole invocation is left.
fn notice_dropped(buffer: &str, in_block: bool) -> (notice: Option<Notice>)
    ensures
        dropped(buffer@, in_block) == match notice {
            Some(n) => seq![n],
            None => Seq::empty(),
        },
{
    let chars = text::chars_of(buffer);
    let invoke = text::position(&chars, FUNCTION_START);
    if in_block {
        if invoke.is_none() {
            Some(Notice::BlockWithoutInvoke)
        } else {
            Some(Notice::IncompleteInvoke)
        }
    } else if invoke.is_none() && text::position(&chars, BLOCK_START).is_none() {
        None
    } else {
        Some(Notice::IncompleteBareInvoke)
    }
}

impl MiniMaxM2ToolStreamParser {
    /// A parser at the beginning of a stream.
    pub fn new(tools: &[Tool]) -> (parser: Self)
        ensures
            parser@ == fresh(schemas(tools@)),
            parser@.buffer.len() == 0,
            !parser@.in_block,
            !parser@.suppress_normal_text,
            parser@.next_index == 0,
            parser@.tools.len() == tools@.len(),
            forall|i: int|
                0 <= i < tools@.len() ==> {
                    &&& (#[trigger] parser@.tools[i]).name == tools@[i].name@
                    &&& parser@.tools[i].parameters == Some(tools@[i].parameters)
                    &&& parser@.tools[i].strict == tools@[i].strict
                },
    {
        proof {
            law_every_tool_is_known(tools@);
        }
        MiniMaxM2ToolStreamParser {
            buffer: String::new(),
            in_block: false,
            suppress_normal_text: false,
            next_index: 0,
            tools: definitions(tools),
        }
    }

    fn drain(&mut self, flush: bool, notices: &mut Vec<Notice>) -> (result: Result<
        ToolParseResult,
        ToolParseError,
    >)
        requires
            drainable(old(self)@, flush),
        ensures
            (final(self)@, traits::outcome(result)) == drained(old(self)@, flush),
            final(notices)@ == old(notices)@ + noticed(old(self)@, flush),
    {
        let mut out = ToolParseResult::default();
        let ghost start = self@;
        proof {
            lemma_preceded_by_nothing(drained(start, flush));
        }
        loop
            invariant
                start == old(self)@,
                drainable(self@, flush),
                drained(start, flush) == preceded(out@, drained(self@, flush)),
                notices@ + noticed(self@, flush) == old(notices)@ + noticed(start, flush),
            decreases self@.buffer.len(),
        {
            let ghost state = self@;
            let ghost before = out@;
            proof {
                lemma_drainable(state, flush);
                minimax_markup::lemma_found_shrinks(state.buffer, state.in_block, flush);
            }
            match scan(self.buffer.as_str(), self.in_block, flush) {
                Scanned::Wait { text, rest, in_block } => {
                    if flush {
                        if let Some(notice) = notice_dropped(self.buffer.as_str(), self.in_block) {
                            notices.push(notice);
                        }
                    }
                    assert(notices@ =~= old(notices)@ + noticed(start, flush));
                    if !self.suppress_normal_text {
                        out.normal_text.append(text.as_str());
                    }
                    self.buffer = rest;
                    self.in_block = in_block;
                    assert(out@ =~= traits::followed_by(before, shown(state, text@)));
                    return Ok(out);
                },
                Scanned::Open { text, rest } => {
                    if !self.suppress_normal_text {
                        out.normal_text.append(text.as_str());
                    }
                    self.buffer = rest;
                    self.in_block = true;
                    self.suppress_normal_text = true;
                    proof {
                        assert(out@ =~= traits::followed_by(before, shown(state, text@)));
                        lemma_preceded_twice(before, shown(state, text@), drained(self@, flush));
                    }
                },
                Scanned::Close { rest } => {
                    // The block is whole: text counts again until the next one.
                    self.buffer = rest;
                    self.in_block = false;
                    self.suppress_normal_text = false;
                },
                Scanned::Invoke { text, invoke, rest } => {
                    if !self.suppress_normal_text {
                        out.normal_text.append(text.as_str());
                    }
                    self.buffer = rest;
                    let ghost with_text = out@;
                    assert(with_text =~= traits::followed_by(before, shown(state, text@)));
                    match self.parse_function_delta(invoke.as_str()) {
                        Err(error) => {
                            assert(notices@ =~= old(notices)@ + noticed(start, flush));
                            return Err(error);
                        },
                        Ok(None) => {
                            proof {
                                lemma_preceded_twice(
                                    before,
                                    shown(state, text@),
                                    drained(self@, flush),
                                );
                            }
                        },
                        Ok(Some(delta)) => {
                            let ghost given = Output { calls: seq![delta@], ..shown(state, text@) };
                            let ghost noted = notices@;
                            if !self.in_block {
                                notices.push(
                                    Notice::BareInvokeRecovered { tool_index: delta.tool_index },
                                );
                            }
                            out.calls.push(delta);
                            self.next_index = self.next_index + 1;
                            self.suppress_normal_text = true;
                            proof {
                                assert(out@ =~= traits::followed_by(before, given));
                                lemma_preceded_twice(before, given, drained(self@, flush));
                                assert(notices@ + noticed(self@, flush) =~= noted + noticed(
                                    state,
                                    flush,
                                ));
                            }
                        },
                    }
                },
            }
        }
    }

    /// Parses one whole invocation into a call. Wraps it in a block of its own, so
    /// that it is read the same way wherever it stood.
    fn parse_function_delta(&self, function: &str) -> (call: Result<
        Option<ToolCallDelta>,
        ToolParseError,
    >)
        requires
            readable_invoke(function@),
        ensures
            call_view(call) == call_made(function@, self@.next_index, self@.tools),
    {
        let message = BLOCK_START.to_owned().concat(function).concat(BLOCK_END);
        proof {
            lemma_wrapped(function@);
            assert(message@ == wrapped(function@));
        }
        let read = read_calls(message.as_str(), minimax_config(), &self.tools);
        delta_from_calls(read, function, self.next_index)
    }

    /// A parser at the beginning of a stream. Never fails.
    pub fn create(tools: &[Tool]) -> (parser: Result<Self, ToolParseError>)
        ensures
            parser matches Ok(p) && p@ == fresh(schemas(tools@)),
            parser matches Ok(p) ==> {
                &&& p@.buffer.len() == 0
                &&& !p@.in_block
                &&& !p@.suppress_normal_text
                &&& p@.next_index == 0
                &&& p@.tools.len() == tools@.len()
                &&& forall|i: int|
                    0 <= i < tools@.len() ==> {
                        &&& (#[trigger] p@.tools[i]).name == tools@[i].name@
                        &&& p@.tools[i].parameters == Some(tools@[i].parameters)
                        &&& p@.tools[i].strict == tools@[i].strict
                    }
            },
    {
        proof {
            law_every_tool_is_known(tools@);
        }
        Ok(MiniMaxM2ToolStreamParser::new(tools))
    }

    /// The markers must reach the parser: they are not to be stripped from the text.
    pub fn preserve_special_tokens(&self) -> (keep: bool)
        ensures
            keep,
    {
        true
    }

    /// Takes the next chunk of the stream. Where that succeeds, the stream may end.
    pub fn push(&mut self, chunk: &str) -> (result: Result<ToolParseResult, ToolParseError>)
        requires
            drainable(fed(old(self)@, chunk@), false),
        ensures
            (final(self)@, traits::outcome(result)) == pushed(old(self)@, chunk@),
            (final(self)@, traits::outcome(result)) == drained(
                ParserState { buffer: old(self)@.buffer + chunk@, ..old(self)@ },
                false,
            ),
            final(self)@.tools == old(self)@.tools,
            result is Ok ==> drainable(final(self)@, true),
    {
        let mut notices: Vec<Notice> = Vec::new();
        self.push_with_notices(chunk, &mut notices)
    }

    /// Takes the next chunk of the stream, and adds what was noticed to `notices`.
    pub fn push_with_notices(&mut self, chunk: &str, notices: &mut Vec<Notice>) -> (result: Result<
        ToolParseResult,
        ToolParseError,
    >)
        requires
            drainable(fed(old(self)@, chunk@), false),
        ensures
            (final(self)@, traits::outcome(result)) == pushed(old(self)@, chunk@),
            (final(self)@, traits::outcome(result)) == drained(
                ParserState { buffer: old(self)@.buffer + chunk@, ..old(self)@ },
                false,
            ),
            final(self)@.tools == old(self)@.tools,
            final(notices)@ == old(notices)@ + noticed(fed(old(self)@, chunk@), false),
            final(notices)@ == old(notices)@ + noticed(
                ParserState { buffer: old(self)@.buffer + chunk@, ..old(self)@ },
                false,
            ),
            result is Ok ==> drainable(final(self)@, true),
    {
        self.buffer.append(chunk);
        assert(self@ =~= fed(old(self)@, chunk@));
        let ghost start = self@;
        let result = self.drain(false, notices);
        proof {
            minimax_laws::law_nothing_whole_is_left(start, false);
            minimax_laws::law_tools_are_kept(start, false);
            self.lemma_index_fits();
        }
        result
    }

    /// Takes the end of the stream. Where that succeeds, it may end again.
    pub fn finish(&mut self) -> (result: Result<ToolParseResult, ToolParseError>)
        requires
            drainable(old(self)@, true),
        ensures
            (final(self)@, traits::outcome(result)) == finished(old(self)@),
            (final(self)@, traits::outcome(result)) == drained(old(self)@, true),
            final(self)@.tools == old(self)@.tools,
            result is Ok ==> drainable(final(self)@, true),
    {
        let mut notices: Vec<Notice> = Vec::new();
        self.finish_with_notices(&mut notices)
    }

    /// Takes the end of the stream, and adds what was noticed to `notices`.
    pub fn finish_with_notices(&mut self, notices: &mut Vec<Notice>) -> (result: Result<
        ToolParseResult,
        ToolParseError,
    >)
        requires
            drainable(old(self)@, true),
        ensures
            (final(self)@, traits::outcome(result)) == finished(old(self)@),
            (final(self)@, traits::outcome(result)) == drained(old(self)@, true),
            final(self)@.tools == old(self)@.tools,
            final(notices)@ == old(notices)@ + noticed(old(self)@, true),
            result is Ok ==> drainable(final(self)@, true),
    {
        let ghost start = self@;
        let result = self.drain(true, notices);
        proof {
            minimax_laws::law_nothing_whole_is_left(start, true);
            minimax_laws::law_tools_are_kept(start, true);
            self.lemma_index_fits();
        }
        result
    }

    /// The index of the next call is a machine integer.
    pub proof fn lemma_index_fits(&self)
        ensures
            0 <= self@.next_index <= usize::MAX,
    {
    }

    /// Whether `push` can take this chunk: no name in an invocation that it makes
    /// whole is a lone quotation mark, and the indices do not run out.
    pub fn can_push(&self, chunk: &str) -> (can: bool)
        ensures
            can == drainable(fed(self@, chunk@), false),
    {
        let buffer = self.buffer.clone().concat(chunk);
        is_drainable(buffer, self.in_block, self.next_index, false)
    }

    /// Whether `finish` can take what waits.
    pub fn can_finish(&self) -> (can: bool)
        ensures
            can == drainable(self@, true),
    {
        is_drainable(self.buffer.clone(), self.in_block, self.next_index, true)
    }
}

/// Whether the names in every invocation that waits can be read, and there are
/// indices for their calls.
fn is_drainable(buffer: String, in_block: bool, next_index: usize, flush: bool) -> (can: bool)
    ensures
        forall|state: ParserState|
            state.buffer == buffer@ && state.in_block == in_block && state.next_index == next_index
                ==> can == #[trigger] drainable(state, flush),
{
    let config = minimax_config();
    let mut waiting = buffer;
    let mut inside = in_block;
    let mut index: usize = next_index;
    let ghost list = minimax_markup::invokes(buffer@, in_block, flush);
    loop
        invariant
            config@ == minimax_syntax(),
            list == minimax_markup::invokes(buffer@, in_block, flush),
            next_index <= index,
            index - next_index <= list.len(),
            list.skip(index - next_index) == minimax_markup::invokes(waiting@, inside, flush),
            forall|i: int|
                0 <= i < index - next_index ==> readable_invoke(#[trigger] list[i]),
        decreases waiting@.len(),
    {
        proof {
            minimax_markup::lemma_found_shrinks(waiting@, inside, flush);
        }
        let ghost more = minimax_markup::invokes(waiting@, inside, flush);
        match scan(waiting.as_str(), inside, flush) {
            Scanned::Wait { .. } => {
                assert(more.len() == list.len() - (index - next_index));
                return true;
            },
            Scanned::Open { rest, .. } => {
                waiting = rest;
                inside = true;
            },
            Scanned::Close { rest } => {
                waiting = rest;
                inside = false;
            },
            Scanned::Invoke { invoke, rest, .. } => {
                let ghost left = minimax_markup::invokes(rest@, inside, flush);
                proof {
                    assert(more == seq![invoke@] + left);
                    assert(list[index - next_index] == more[0]);
                }
                let message = BLOCK_START.to_owned().concat(invoke.as_str()).concat(BLOCK_END);
                if index == usize::MAX || !is_readable(message.as_str(), &config) {
                    assert(message@ == wrapped(invoke@));
                    return false;
                }
                proof {
                    assert(message@ == wrapped(invoke@));
                    assert(more.skip(1) =~= left);
                    assert(list.skip(index + 1 - next_index) =~= list.skip(index - next_index).skip(1));
                }
                waiting = rest;
                index += 1;
            },
        }
    }
}

} // verus!

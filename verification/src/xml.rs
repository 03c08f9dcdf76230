//! Tool calls in an XML-like markup, read out by the `dynamo-parsers` crate.

use crate::text;
use dynamo_parsers::tool_calling::{
    try_tool_call_parse_xml, ToolDefinition as ReaderTool, XmlParserConfig as ReaderConfig,
};
use vstd::prelude::*;

verus! {

/// The markers of an XML-like tool-call syntax, and how lenient its reader is.
pub struct XmlParserConfig {
    /// Opens a block of calls.
    pub tool_call_start_token: String,
    /// Closes a block of calls.
    pub tool_call_end_token: String,
    /// Opens one call; its name follows.
    pub function_start_token: String,
    /// Closes one call.
    pub function_end_token: String,
    /// Opens one parameter; its name follows.
    pub parameter_start_token: String,
    /// Closes one parameter.
    pub parameter_end_token: String,
    /// A block that the end of the text cuts off is still read.
    pub allow_eof_recovery: bool,
    /// A call or a parameter without its closing marker is passed over.
    pub strict_match: bool,
    /// A text without any call is handed back as it is.
    pub passthrough_when_no_function: bool,
    /// Calls that stand outside a block are read too.
    pub backoff_when_no_wrapper: bool,
}

/// An `XmlParserConfig`, its markers as characters.
pub struct XmlSyntax {
    pub tool_call_start_token: Seq<char>,
    pub tool_call_end_token: Seq<char>,
    pub function_start_token: Seq<char>,
    pub function_end_token: Seq<char>,
    pub parameter_start_token: Seq<char>,
    pub parameter_end_token: Seq<char>,
    pub allow_eof_recovery: bool,
    pub strict_match: bool,
    pub passthrough_when_no_function: bool,
    pub backoff_when_no_wrapper: bool,
}

impl View for XmlParserConfig {
    type V = XmlSyntax;

    open spec fn view(&self) -> XmlSyntax {
        XmlSyntax {
            tool_call_start_token: self.tool_call_start_token@,
            tool_call_end_token: self.tool_call_end_token@,
            function_start_token: self.function_start_token@,
            function_end_token: self.function_end_token@,
            parameter_start_token: self.parameter_start_token@,
            parameter_end_token: self.parameter_end_token@,
            allow_eof_recovery: self.allow_eof_recovery,
            strict_match: self.strict_match,
            passthrough_when_no_function: self.passthrough_when_no_function,
            backoff_when_no_wrapper: self.backoff_when_no_wrapper,
        }
    }
}

/// A tool that the model may call, as the reader of the markup needs it.
pub struct ToolDefinition {
    /// The tool's name.
    pub name: String,
    /// The JSON Schema of its arguments.
    pub parameters: Option<serde_json::Value>,
    /// Whether the arguments must follow the schema.
    pub strict: Option<bool>,
}

/// A `ToolDefinition`, its name as characters.
pub struct ToolSchema {
    pub name: Seq<char>,
    pub parameters: Option<serde_json::Value>,
    pub strict: Option<bool>,
}

impl View for ToolDefinition {
    type V = ToolSchema;

    open spec fn view(&self) -> ToolSchema {
        ToolSchema {
            name: self.name@,
            parameters: self.parameters,
            strict: self.strict,
        }
    }
}

/// The tools of a list, their names as characters.
pub open spec fn tools_view(tools: Seq<ToolDefinition>) -> Seq<ToolSchema> {
    tools.map_values(|t: ToolDefinition| t@)
}

/// One call that was read from the markup.
pub struct XmlCall {
    /// The name of the called tool.
    pub name: String,
    /// Its arguments, a JSON object as text.
    pub arguments: String,
}

impl View for XmlCall {
    type V = (Seq<char>, Seq<char>);

    open spec fn view(&self) -> (Seq<char>, Seq<char>) {
        (self.name@, self.arguments@)
    }
}

/// The names and argument texts of a list of calls.
pub open spec fn calls_view(calls: Seq<XmlCall>) -> Seq<(Seq<char>, Seq<char>)> {
    calls.map_values(|c: XmlCall| c@)
}

/// The calls that stand in `message`, each with its name and its arguments, or the
/// text of the error. This is what `dynamo_parsers`' `try_tool_call_parse_xml`
/// reads from `message`.
pub uninterp spec fn xml_calls(
    message: Seq<char>,
    syntax: XmlSyntax,
    tools: Seq<ToolSchema>,
) -> Result<Seq<(Seq<char>, Seq<char>)>, Seq<char>>;

/// What a reading gave, its texts as characters.
pub open spec fn read_view(read: Result<Vec<XmlCall>, String>) -> Result<
    Seq<(Seq<char>, Seq<char>)>,
    Seq<char>,
> {
    match read {
        Ok(calls) => Ok(calls_view(calls@)),
        Err(error) => Err(error@),
    }
}

/// The view of a list of tools shows each of them, with its name, its schema and
/// whether it is strict.
pub proof fn law_tools_view(tools: Seq<ToolDefinition>)
    ensures
        tools_view(tools).len() == tools.len(),
        forall|i: int|
            0 <= i < tools.len() ==> {
                &&& (#[trigger] tools_view(tools)[i]).name == tools[i].name@
                &&& tools_view(tools)[i].parameters == tools[i].parameters
                &&& tools_view(tools)[i].strict == tools[i].strict
            },
{
}

/// The view of a reading shows every call, with its name and its arguments, or the
/// text of the error.
pub proof fn law_read_view(read: Result<Vec<XmlCall>, String>)
    ensures
        read matches Err(text) ==> read_view(read) == Err::<
            Seq<(Seq<char>, Seq<char>)>,
            Seq<char>,
        >(text@),
        read matches Ok(list) ==> {
            &&& read_view(read) matches Ok(calls)
            &&& calls.len() == list@.len()
            &&& forall|i: int|
                0 <= i < list@.len() ==> #[trigger] calls[i] == (
                    list@[i].name@,
                    list@[i].arguments@,
                )
        },
{
}

/// The view of a configuration shows all its markers and all its switches.
pub proof fn law_config_view(config: XmlParserConfig)
    ensures
        config@.tool_call_start_token == config.tool_call_start_token@,
        config@.tool_call_end_token == config.tool_call_end_token@,
        config@.function_start_token == config.function_start_token@,
        config@.function_end_token == config.function_end_token@,
        config@.parameter_start_token == config.parameter_start_token@,
        config@.parameter_end_token == config.parameter_end_token@,
        config@.allow_eof_recovery == config.allow_eof_recovery,
        config@.strict_match == config.strict_match,
        config@.passthrough_when_no_function == config.passthrough_when_no_function,
        config@.backoff_when_no_wrapper == config.backoff_when_no_wrapper,
{
}

/// A name and a body between an opening marker and a closing one.
pub struct Tag {
    pub name: Seq<char>,
    pub body: Seq<char>,
}

/// Where the tag that opens at `at` has its `>` and its closing marker: a non-empty
/// name stands between the opening marker and the first `>` after it, and the
/// closing marker follows.
pub open spec fn tag_at(text: Seq<char>, open: Seq<char>, close: Seq<char>, at: int) -> Option<
    (int, int),
> {
    if !text::occurs_at(text, open, at) {
        None
    } else {
        match text::find_from(text, seq!['>'], at + open.len()) {
            None => None,
            Some(angle) => if angle == at + open.len() {
                None
            } else {
                match text::find_from(text, close, angle + 1) {
                    None => None,
                    Some(end) => Some((angle, end)),
                }
            },
        }
    }
}

/// The tags of `text` from position `from` on, leftmost first, none inside another.
pub open spec fn tags(text: Seq<char>, open: Seq<char>, close: Seq<char>, from: int) -> Seq<Tag>
    decreases text.len() - from,
{
    if from < 0 || from >= text.len() {
        Seq::empty()
    } else {
        match tag_at(text, open, close, from) {
            None => tags(text, open, close, from + 1),
            Some((angle, end)) => {
                proof {
                    lemma_tag_at(text, open, close, from);
                }
                seq![
                    Tag {
                        name: text.subrange(from + open.len(), angle),
                        body: text.subrange(angle + 1, end),
                    },
                ] + tags(text, open, close, end + close.len())
            },
        }
    }
}

/// A tag's parts stand in order and inside the text.
pub proof fn lemma_tag_at(text: Seq<char>, open: Seq<char>, close: Seq<char>, at: int)
    requires
        0 <= at,
    ensures
        tag_at(text, open, close, at) matches Some((angle, end)) ==> {
            &&& at + open.len() < angle < end
            &&& end + close.len() <= text.len()
        },
{
    text::lemma_find_from(text, seq!['>'], at + open.len());
    if let Some(angle) = text::find_from(text, seq!['>'], at + open.len()) {
        text::lemma_find_from(text, close, angle + 1);
    }
}

/// The name is nothing but one quotation mark, which the reader of the markup takes
/// for the opening and the closing mark at once and fails on.
pub open spec fn lone_quote(name: Seq<char>) -> bool {
    text::trimmed(name) == seq!['"'] || text::trimmed(name) == seq!['\'']
}

/// The name is empty, or an empty pair of quotation marks.
pub open spec fn nameless(name: Seq<char>) -> bool {
    text::trimmed(name) == Seq::<char>::empty() || text::trimmed(name) == seq!['"', '"'] || text::trimmed(name)
        == seq!['\'', '\'']
}

/// No tag of the list has a lone quotation mark for a name.
pub open spec fn names_readable(list: Seq<Tag>) -> bool {
    forall|i: int| 0 <= i < list.len() ==> !lone_quote(#[trigger] list[i].name)
}

/// The call's name can be read, and so can its parameters' names if it has a name.
pub open spec fn call_readable(call: Tag, syntax: XmlSyntax) -> bool {
    &&& !lone_quote(call.name)
    &&& nameless(call.name) || names_readable(
        tags(call.body, syntax.parameter_start_token, syntax.parameter_end_token, 0),
    )
}

/// Every call of the list can be read.
pub open spec fn calls_readable(list: Seq<Tag>, syntax: XmlSyntax) -> bool {
    forall|i: int| 0 <= i < list.len() ==> call_readable(#[trigger] list[i], syntax)
}

/// Every call of one block can be read.
pub open spec fn block_readable(block: Seq<char>, syntax: XmlSyntax) -> bool {
    calls_readable(tags(block, syntax.function_start_token, syntax.function_end_token, 0), syntax)
}

/// The part of a stretch between blocks that is read as if it were a block: from
/// its first call on, where a call and a block are closed after that.
pub open spec fn stray_calls(gap: Seq<char>, syntax: XmlSyntax) -> Option<Seq<char>> {
    match text::find(gap, syntax.function_start_token) {
        Some(at) => {
            let tail = gap.skip(at);
            if syntax.backoff_when_no_wrapper && text::find(tail, syntax.function_end_token) is Some
                && text::find(tail, syntax.tool_call_end_token) is Some {
                Some(tail)
            } else {
                None
            }
        },
        None => None,
    }
}

/// The calls in a stretch between blocks can be read.
pub open spec fn gap_readable(gap: Seq<char>, syntax: XmlSyntax) -> bool {
    stray_calls(gap, syntax) matches Some(tail) ==> block_readable(tail, syntax)
}

/// From position `from` on, every call in a block or between blocks can be read.
pub open spec fn readable_from(message: Seq<char>, syntax: XmlSyntax, from: int) -> bool
    decreases message.len() - from,
{
    if from < 0 || from >= message.len() || syntax.tool_call_end_token.len() == 0 {
        true
    } else {
        match text::find_from(message, syntax.tool_call_start_token, from) {
            None => gap_readable(message.skip(from), syntax),
            Some(start) => {
                &&& gap_readable(message.subrange(from, start), syntax)
                &&& match text::find_from(message, syntax.tool_call_end_token, start) {
                    None => true,
                    Some(end) => {
                        proof {
                            text::lemma_find_from(message, syntax.tool_call_start_token, from);
                            text::lemma_find_from(message, syntax.tool_call_end_token, start);
                        }
                        let after = end + syntax.tool_call_end_token.len();
                        &&& block_readable(message.subrange(start, after), syntax)
                        &&& readable_from(message, syntax, after)
                    },
                }
            },
        }
    }
}

/// No name in the calls of `message` is a lone quotation mark.
pub open spec fn readable(message: Seq<char>, syntax: XmlSyntax) -> bool {
    readable_from(message, syntax, 0)
}

/// Behind `marker`, which stands in `message` at `at`, and up to the `>` at `angle`,
/// stands one quotation mark and nothing else but white space.
pub open spec fn lone_quote_behind(
    message: Seq<char>,
    marker: Seq<char>,
    at: int,
    angle: int,
) -> bool {
    &&& text::occurs_at(message, marker, at)
    &&& at + marker.len() <= angle < message.len()
    &&& message[angle] == '>'
    &&& ({
        let name = text::trimmed(message.subrange(at + marker.len(), angle));
        name.len() == 1 && (name[0] == '"' || name[0] == '\'')
    })
}

/// Behind no `marker` in `message` stands a lone quotation mark.
pub open spec fn quiet(message: Seq<char>, marker: Seq<char>) -> bool {
    forall|at: int, angle: int| !#[trigger] lone_quote_behind(message, marker, at, angle)
}

/// Where in a text the tag stands that comes at `i` in the list of its tags.
proof fn lemma_tag_place(
    text: Seq<char>,
    open: Seq<char>,
    close: Seq<char>,
    from: int,
    i: int,
) -> (place: (int, int, int))
    requires
        0 <= from,
        0 <= i < tags(text, open, close, from).len(),
    ensures
        0 <= place.0,
        tag_at(text, open, close, place.0) == Some((place.1, place.2)),
        tags(text, open, close, from)[i].name == text.subrange(place.0 + open.len(), place.1),
        tags(text, open, close, from)[i].body == text.subrange(place.1 + 1, place.2),
    decreases text.len() - from,
{
    match tag_at(text, open, close, from) {
        None => lemma_tag_place(text, open, close, from + 1, i),
        Some((angle, end)) => {
            lemma_tag_at(text, open, close, from);
            if i == 0 {
                (from, angle, end)
            } else {
                lemma_tag_place(text, open, close, end + close.len(), i - 1)
            }
        },
    }
}

/// A tag of a quiet text has no lone quotation mark for a name.
proof fn lemma_quiet_name(text: Seq<char>, open: Seq<char>, close: Seq<char>, i: int)
    requires
        quiet(text, open),
        0 <= i < tags(text, open, close, 0).len(),
    ensures
        !lone_quote(tags(text, open, close, 0)[i].name),
{
    let (at, angle, end) = lemma_tag_place(text, open, close, 0, i);
    lemma_tag_at(text, open, close, at);
    text::lemma_find_from(text, seq!['>'], at + open.len());
    assert(text.subrange(angle, angle + 1)[0] == text[angle]);
    assert(text[angle] == '>');
    assert(!lone_quote_behind(text, open, at, angle));
}

/// A part of a quiet text is quiet.
pub proof fn lemma_quiet_part(message: Seq<char>, marker: Seq<char>, a: int, b: int)
    requires
        quiet(message, marker),
        0 <= a <= b <= message.len(),
    ensures
        quiet(message.subrange(a, b), marker),
{
    let part = message.subrange(a, b);
    assert forall|at: int, angle: int| !#[trigger] lone_quote_behind(part, marker, at, angle) by {
        if lone_quote_behind(part, marker, at, angle) {
            assert(message.subrange(a + at, a + at + marker.len()) =~= part.subrange(
                at,
                at + marker.len(),
            ));
            assert(message.subrange(a + at + marker.len(), a + angle) =~= part.subrange(
                at + marker.len(),
                angle,
            ));
            assert(lone_quote_behind(message, marker, a + at, a + angle));
        }
    }
}

/// The calls of a quiet block can be read.
proof fn lemma_quiet_block(block: Seq<char>, syntax: XmlSyntax)
    requires
        quiet(block, syntax.function_start_token),
        quiet(block, syntax.parameter_start_token),
    ensures
        block_readable(block, syntax),
{
    let open = syntax.function_start_token;
    let close = syntax.function_end_token;
    let list = tags(block, open, close, 0);
    assert forall|i: int| 0 <= i < list.len() implies call_readable(#[trigger] list[i], syntax) by {
        lemma_quiet_name(block, open, close, i);
        let (at, angle, end) = lemma_tag_place(block, open, close, 0, i);
        lemma_tag_at(block, open, close, at);
        lemma_quiet_part(block, syntax.parameter_start_token, angle + 1, end);
        let body = list[i].body;
        let inner = tags(body, syntax.parameter_start_token, syntax.parameter_end_token, 0);
        assert forall|k: int| 0 <= k < inner.len() implies !lone_quote(
            #[trigger] inner[k].name,
        ) by {
            lemma_quiet_name(
                body,
                syntax.parameter_start_token,
                syntax.parameter_end_token,
                k,
            );
        }
    }
}

/// The calls in a quiet stretch between blocks can be read.
proof fn lemma_quiet_gap(gap: Seq<char>, syntax: XmlSyntax)
    requires
        quiet(gap, syntax.function_start_token),
        quiet(gap, syntax.parameter_start_token),
    ensures
        gap_readable(gap, syntax),
{
    text::lemma_find_from(gap, syntax.function_start_token, 0);
    if let Some(tail) = stray_calls(gap, syntax) {
        let at = text::find(gap, syntax.function_start_token)->0;
        assert(tail =~= gap.subrange(at, gap.len() as int));
        lemma_quiet_part(gap, syntax.function_start_token, at, gap.len() as int);
        lemma_quiet_part(gap, syntax.parameter_start_token, at, gap.len() as int);
        lemma_quiet_block(tail, syntax);
    }
}

/// From any position on, a quiet message can be read.
proof fn lemma_quiet_from(message: Seq<char>, syntax: XmlSyntax, from: int)
    requires
        quiet(message, syntax.function_start_token),
        quiet(message, syntax.parameter_start_token),
    ensures
        readable_from(message, syntax, from),
    decreases message.len() - from,
{
    if 0 <= from < message.len() && syntax.tool_call_end_token.len() > 0 {
        let total = message.len() as int;
        text::lemma_find_from(message, syntax.tool_call_start_token, from);
        match text::find_from(message, syntax.tool_call_start_token, from) {
            None => {
                assert(message.skip(from) =~= message.subrange(from, total));
                lemma_quiet_part(message, syntax.function_start_token, from, total);
                lemma_quiet_part(message, syntax.parameter_start_token, from, total);
                lemma_quiet_gap(message.skip(from), syntax);
            },
            Some(start) => {
                lemma_quiet_part(message, syntax.function_start_token, from, start);
                lemma_quiet_part(message, syntax.parameter_start_token, from, start);
                lemma_quiet_gap(message.subrange(from, start), syntax);
                text::lemma_find_from(message, syntax.tool_call_end_token, start);
                if let Some(end) = text::find_from(message, syntax.tool_call_end_token, start) {
                    let after = end + syntax.tool_call_end_token.len();
                    lemma_quiet_part(message, syntax.function_start_token, start, after);
                    lemma_quiet_part(message, syntax.parameter_start_token, start, after);
                    lemma_quiet_block(message.subrange(start, after), syntax);
                    lemma_quiet_from(message, syntax, after);
                }
            },
        }
    }
}

/// A message in which no call and no parameter has a lone quotation mark for a name
/// can be read.
pub proof fn law_quiet_message_is_readable(message: Seq<char>, syntax: XmlSyntax)
    requires
        quiet(message, syntax.function_start_token),
        quiet(message, syntax.parameter_start_token),
    ensures
        readable(message, syntax),
{
    lemma_quiet_from(message, syntax, 0);
}

/// Where no tag opens, looking for tags goes on behind.
proof fn lemma_tags_behind(
    text: Seq<char>,
    open: Seq<char>,
    close: Seq<char>,
    from: int,
    to: int,
)
    requires
        0 <= from <= to < text.len(),
        forall|p: int| from <= p < to ==> !#[trigger] text::occurs_at(text, open, p),
    ensures
        tags(text, open, close, from) == tags(text, open, close, to),
    decreases to - from,
{
    if from < to {
        assert(!text::occurs_at(text, open, from));
        lemma_tags_behind(text, open, close, from + 1, to);
    }
}

/// A block whose first call has a lone quotation mark for a name, and ends, cannot be
/// read.
pub proof fn law_lone_quote_is_not_read(
    message: Seq<char>,
    syntax: XmlSyntax,
    at: int,
    angle: int,
    end: int,
)
    requires
        syntax.tool_call_end_token.len() > 0,
        text::occurs_at(message, syntax.tool_call_start_token, 0),
        text::find(message, syntax.tool_call_end_token) == Some(
            message.len() - syntax.tool_call_end_token.len(),
        ),
        text::find(message, syntax.function_start_token) == Some(at),
        lone_quote_behind(message, syntax.function_start_token, at, angle),
        angle < end,
        text::occurs_at(message, syntax.function_end_token, end),
    ensures
        !readable(message, syntax),
{
    let open = syntax.function_start_token;
    let close = syntax.function_end_token;
    let total = message.len() as int;
    text::lemma_find_from(message, syntax.tool_call_start_token, 0);
    text::lemma_find_from(message, syntax.tool_call_end_token, 0);
    text::lemma_find_from(message, open, 0);
    assert(message.subrange(0, total) =~= message);
    let name = message.subrange(at + open.len(), angle);
    assert(message.subrange(angle, angle + 1) =~= seq!['>']);
    assert forall|j: int| at + open.len() <= j < angle implies !#[trigger] text::occurs_at(
        message,
        seq!['>'],
        j,
    ) by {
        if text::occurs_at(message, seq!['>'], j) {
            assert(message.subrange(j, j + 1)[0] == message[j]);
            assert(name[j - at - open.len()] == '>');
            text::lemma_trimmed_away(name, j - at - open.len());
            let k = text::trimmed(name).index_of('>');
            assert(text::trimmed(name)[k] == '>');
        }
    }
    text::lemma_found_at(message, seq!['>'], at + open.len(), angle);
    if angle == at + open.len() {
        assert(name.len() == 0);
    }
    text::lemma_find_from(message, close, angle + 1);
    lemma_tags_behind(message, open, close, 0, at);
    let list = tags(message, open, close, 0);
    let found = text::find_from(message, close, angle + 1)->0;
    assert(list[0].name == name);
    let mark = text::trimmed(name);
    assert(mark =~= seq![mark[0]]);
    assert(lone_quote(list[0].name));
    assert(!call_readable(list[0], syntax));
    assert(!block_readable(message, syntax));
}

/// A strict syntax: its markers are not empty and none may be missing.
pub open spec fn strict_syntax(syntax: XmlSyntax) -> bool {
    &&& syntax.tool_call_start_token.len() > 0
    &&& syntax.tool_call_end_token.len() > 0
    &&& syntax.function_start_token.len() > 0
    &&& syntax.function_end_token.len() > 0
    &&& syntax.parameter_start_token.len() > 0
    &&& syntax.parameter_end_token.len() > 0
    &&& syntax.strict_match
    &&& !syntax.allow_eof_recovery
}

/// Calls `try_tool_call_parse_xml` of `dynamo_parsers`. Claimed of it: which calls
/// it reads, their names and their arguments are a function of the message, the
/// syntax and the tools, and so is the text of its error; `xml_calls` names that
/// function. The identifiers that it draws at random for the calls are left out.
/// On a name that is a lone quotation mark it panics, so the message holds none
/// where it looks for one.
#[verifier::external_body]
pub(crate) fn read_calls(message: &str, config: XmlParserConfig, tools: &Vec<ToolDefinition>) -> (r:
    Result<Vec<XmlCall>, String>)
    requires
        strict_syntax(config@),
        text::find(message@, config@.tool_call_start_token) is Some,
        readable(message@, config@),
    ensures
        read_view(r) == xml_calls(message@, config@, tools_view(tools@)),
{
    let XmlParserConfig {
        tool_call_start_token, tool_call_end_token, function_start_token, function_end_token,
        parameter_start_token, parameter_end_token, allow_eof_recovery, strict_match,
        passthrough_when_no_function, backoff_when_no_wrapper,
    } = config;
    let config = ReaderConfig {
        tool_call_start_token, tool_call_end_token, function_start_token, function_end_token,
        parameter_start_token, parameter_end_token, allow_eof_recovery, strict_match,
        passthrough_when_no_function, backoff_when_no_wrapper,
    };
    let tools: Vec<ReaderTool> = tools.iter().map(|t| ReaderTool { name: t.name.clone(), strict: t.strict,
        parameters: t.parameters.clone() }).collect();
    let (calls, _) = try_tool_call_parse_xml(message, &config, Some(&tools)).map_err(|e| e.to_string())?;
    Ok(calls.into_iter().map(|c| XmlCall { name: c.function.name, arguments: c.function.arguments }).collect())
}

/// Where a tag stands: its opening marker, its `>` and its closing marker.
struct TagPlace {
    at: usize,
    angle: usize,
    end: usize,
}

/// The first tag of `text` at or after position `from`.
fn next_tag(text: &Vec<char>, open: &Vec<char>, close: &Vec<char>, from: usize) -> (place: Option<
    TagPlace,
>)
    ensures
        place matches Some(p) ==> {
            &&& from <= p.at < text@.len()
            &&& p.at + open@.len() < p.angle < p.end
            &&& p.end + close@.len() <= text.len()
            &&& tag_at(text@, open@, close@, p.at as int) == Some((p.angle as int, p.end as int))
            &&& tags(text@, open@, close@, from as int) == tags(text@, open@, close@, p.at as int)
        },
        place is None ==> tags(text@, open@, close@, from as int) == Seq::<Tag>::empty(),
{
    let mut angle_mark: Vec<char> = Vec::new();
    angle_mark.push('>');
    assert(angle_mark@ =~= seq!['>']);
    let mut at: usize = from;
    while at < text.len()
        invariant
            from <= at,
            angle_mark@ == seq!['>'],
            tags(text@, open@, close@, from as int) == tags(text@, open@, close@, at as int),
        decreases text.len() - at,
    {
        proof {
            lemma_tag_at(text@, open@, close@, at as int);
            text::lemma_find_from(text@, seq!['>'], at + open@.len());
        }
        if text::stands_at(text, open, at) {
            if let Some(angle) = text::position_from(text, &angle_mark, at + open.len()) {
                if angle > at + open.len() {
                    if let Some(end) = text::position_from(text, close, angle + 1) {
                        return Some(TagPlace { at, angle, end });
                    }
                }
            }
        }
        at += 1;
    }
    None
}

/// Whether the name from position `from` up to `to` is a lone quotation mark.
fn is_lone_quote(text: &Vec<char>, from: usize, to: usize) -> (lone: bool)
    requires
        from <= to <= text@.len(),
    ensures
        lone == lone_quote(text@.subrange(from as int, to as int)),
{
    let (a, b) = text::trim_range(text, from, to);
    let lone = b - a == 1 && (text[a] == '"' || text[a] == '\'');
    proof {
        let name = text@.subrange(a as int, b as int);
        if lone {
            assert(name =~= seq![text@[a as int]]);
        } else if name == seq!['"'] || name == seq!['\''] {
            assert(name.len() == 1);
            assert(name[0] == text@[a as int]);
        }
    }
    lone
}

/// Whether the name from position `from` up to `to` is empty or an empty pair of
/// quotation marks.
fn is_nameless(text: &Vec<char>, from: usize, to: usize) -> (none: bool)
    requires
        from <= to <= text@.len(),
    ensures
        none == nameless(text@.subrange(from as int, to as int)),
{
    let (a, b) = text::trim_range(text, from, to);
    let none = a == b || (b - a == 2 && text[a] == text[a + 1] && (text[a] == '"' || text[a]
        == '\''));
    proof {
        let name = text@.subrange(a as int, b as int);
        if a == b {
            assert(name =~= Seq::<char>::empty());
        } else if none {
            assert(name =~= seq![text@[a as int], text@[a as int]]);
        } else {
            assert(name.len() == b - a);
            if name == seq!['"', '"'] || name == seq!['\'', '\''] {
                assert(name.len() == 2);
                assert(name[0] == text@[a as int]);
                assert(name[1] == text@[a + 1]);
            }
        }
    }
    none
}

/// Whether no tag of `text` has a lone quotation mark for a name.
fn has_readable_names(text: &Vec<char>, open: &Vec<char>, close: &Vec<char>) -> (readable: bool)
    ensures
        readable == names_readable(tags(text@, open@, close@, 0)),
{
    let mut from: usize = 0;
    let ghost all = tags(text@, open@, close@, 0);
    loop
        invariant
            from <= text@.len(),
            names_readable(all) == names_readable(tags(text@, open@, close@, from as int)),
            all == tags(text@, open@, close@, 0),
        decreases text@.len() - from,
    {
        match next_tag(text, open, close, from) {
            None => {
                return true;
            },
            Some(place) => {
                let after: usize = place.end + close.len();
                let ghost list = tags(text@, open@, close@, from as int);
                let ghost rest = tags(text@, open@, close@, after as int);
                proof {
                    assert(list =~= seq![list[0]] + rest);
                    assert(forall|i: int| 0 <= i < rest.len() ==> list[i + 1] == #[trigger] rest[i]);
                    assert(forall|i: int|
                        0 < i < list.len() ==> #[trigger] list[i] == rest[i - 1]);
                }
                if is_lone_quote(text, place.at + open.len(), place.angle) {
                    assert(lone_quote(list[0].name));
                    return false;
                }
                from = after;
            },
        }
    }
}

/// Whether every call of the block `text` can be read.
fn is_readable_block(text: &Vec<char>, config: &XmlParserConfig) -> (readable: bool)
    ensures
        readable == block_readable(text@, config@),
{
    let open = text::chars_of(config.function_start_token.as_str());
    let close = text::chars_of(config.function_end_token.as_str());
    let inner_open = text::chars_of(config.parameter_start_token.as_str());
    let inner_close = text::chars_of(config.parameter_end_token.as_str());
    let mut from: usize = 0;
    loop
        invariant
            from <= text@.len(),
            open@ == config@.function_start_token,
            close@ == config@.function_end_token,
            inner_open@ == config@.parameter_start_token,
            inner_close@ == config@.parameter_end_token,
            block_readable(text@, config@) == calls_readable(
                tags(text@, open@, close@, from as int),
                config@,
            ),
        decreases text@.len() - from,
    {
        match next_tag(text, &open, &close, from) {
            None => {
                return true;
            },
            Some(place) => {
                let after: usize = place.end + close.len();
                let ghost list = tags(text@, open@, close@, from as int);
                let ghost rest = tags(text@, open@, close@, after as int);
                proof {
                    assert(list =~= seq![list[0]] + rest);
                    assert(forall|i: int| 0 <= i < rest.len() ==> list[i + 1] == #[trigger] rest[i]);
                    assert(forall|i: int|
                        0 < i < list.len() ==> #[trigger] list[i] == rest[i - 1]);
                }
                if is_lone_quote(text, place.at + open.len(), place.angle) {
                    assert(!call_readable(list[0], config@));
                    return false;
                }
                if !is_nameless(text, place.at + open.len(), place.angle) {
                    let body = text::part_of(text, place.angle + 1, place.end);
                    if !has_readable_names(&body, &inner_open, &inner_close) {
                        assert(!call_readable(list[0], config@));
                        return false;
                    }
                }
                assert(call_readable(list[0], config@));
                from = after;
            },
        }
    }
}

/// Whether the calls in a stretch between blocks can be read.
fn is_readable_gap(gap: &Vec<char>, config: &XmlParserConfig) -> (readable: bool)
    ensures
        readable == gap_readable(gap@, config@),
{
    proof {
        text::lemma_find_from(gap@, config@.function_start_token, 0);
    }
    match text::position(gap, config.function_start_token.as_str()) {
        None => true,
        Some(at) => {
            let tail = text::part_of(gap, at, gap.len());
            assert(tail@ =~= gap@.skip(at as int));
            let closed = text::position(&tail, config.function_end_token.as_str()).is_some()
                && text::position(&tail, config.tool_call_end_token.as_str()).is_some();
            !config.backoff_when_no_wrapper || !closed || is_readable_block(&tail, config)
        },
    }
}

/// Whether no name in the calls of `message` is a lone quotation mark.
pub fn is_readable(message: &str, config: &XmlParserConfig) -> (yes: bool)
    ensures
        yes == readable(message@, config@),
{
    let chars = text::chars_of(message);
    let start_mark = text::chars_of(config.tool_call_start_token.as_str());
    let end_mark = text::chars_of(config.tool_call_end_token.as_str());
    let mut from: usize = 0;
    while from < chars.len() && end_mark.len() > 0
        invariant
            from <= chars@.len(),
            chars@ == message@,
            start_mark@ == config@.tool_call_start_token,
            end_mark@ == config@.tool_call_end_token,
            readable(message@, config@) == readable_from(message@, config@, from as int),
        decreases chars@.len() - from,
    {
        proof {
            text::lemma_find_from(message@, start_mark@, from as int);
        }
        match text::position_from(&chars, &start_mark, from) {
            None => {
                let gap = text::part_of(&chars, from, chars.len());
                assert(gap@ =~= message@.skip(from as int));
                return is_readable_gap(&gap, config);
            },
            Some(start) => {
                if !is_readable_gap(&text::part_of(&chars, from, start), config) {
                    return false;
                }
                proof {
                    text::lemma_find_from(message@, end_mark@, start as int);
                }
                match text::position_from(&chars, &end_mark, start) {
                    None => {
                        return true;
                    },
                    Some(end) => {
                        let after: usize = end + end_mark.len();
                        if !is_readable_block(&text::part_of(&chars, start, after), config) {
                            return false;
                        }
                        from = after;
                    },
                }
            },
        }
    }
    true
}

} // verus!

//! What every streaming tool parser takes and gives.

use vstd::prelude::*;
use vstd::string::*;

verus! {

/// A tool that is offered to the model.
#[derive(Debug)]
pub struct Tool {
    /// The tool's name.
    pub name: String,
    /// What the tool is for.
    pub description: Option<String>,
    /// The JSON Schema of its arguments.
    pub parameters: serde_json::Value,
    /// Whether the arguments must follow the schema.
    pub strict: Option<bool>,
}

/// A piece of one tool call. The pieces of one call share their `tool_index`.
#[derive(Debug, PartialEq, Eq)]
pub struct ToolCallDelta {
    /// Which call of the stream this is, counted from zero.
    pub tool_index: usize,
    /// The tool's name, if this piece brings it.
    pub name: Option<String>,
    /// The next part of the arguments, as JSON text.
    pub arguments: String,
}

/// A `ToolCallDelta`, its texts as characters.
#[verifier::ext_equal]
pub struct CallPiece {
    pub tool_index: int,
    pub name: Option<Seq<char>>,
    pub arguments: Seq<char>,
}

impl View for ToolCallDelta {
    type V = CallPiece;

    open spec fn view(&self) -> CallPiece {
        CallPiece {
            tool_index: self.tool_index as int,
            name: match self.name {
                Some(name) => Some(name@),
                None => None,
            },
            arguments: self.arguments@,
        }
    }
}

/// The pieces of a list, their texts as characters.
pub open spec fn pieces(calls: Seq<ToolCallDelta>) -> Seq<CallPiece> {
    calls.map_values(|call: ToolCallDelta| call@)
}

/// What a parser gives for a stretch of the stream.
#[derive(Debug)]
pub struct ToolParseResult {
    /// Text that belongs to no tool call.
    pub normal_text: String,
    /// Pieces of tool calls, in the order of the stream.
    pub calls: Vec<ToolCallDelta>,
}

/// A `ToolParseResult`, its texts as characters.
#[verifier::ext_equal]
pub struct Output {
    pub normal_text: Seq<char>,
    pub calls: Seq<CallPiece>,
}

/// The output that holds nothing.
pub open spec fn no_output() -> Output {
    Output { normal_text: Seq::empty(), calls: Seq::empty() }
}

/// One output and then another.
pub open spec fn followed_by(first: Output, second: Output) -> Output {
    Output {
        normal_text: first.normal_text + second.normal_text,
        calls: first.calls + second.calls,
    }
}

impl View for ToolParseResult {
    type V = Output;

    open spec fn view(&self) -> Output {
        Output { normal_text: self.normal_text@, calls: pieces(self.calls@) }
    }
}

/// The first piece of a list that belongs to call `tool_index`.
pub open spec fn piece_of(calls: Seq<CallPiece>, tool_index: int) -> Option<int>
    decreases calls.len(),
{
    if calls.len() == 0 {
        None
    } else {
        match piece_of(calls.drop_last(), tool_index) {
            Some(i) => Some(i),
            None => if calls.last().tool_index == tool_index {
                Some(calls.len() - 1)
            } else {
                None
            },
        }
    }
}

/// Two pieces of one call as one: the name that came first, and the arguments one
/// after the other.
pub open spec fn joined(first: CallPiece, second: CallPiece) -> CallPiece {
    CallPiece {
        tool_index: first.tool_index,
        name: if first.name is Some {
            first.name
        } else {
            second.name
        },
        arguments: first.arguments + second.arguments,
    }
}

/// The calls of a list, one piece for each, in the order in which they begin.
pub open spec fn coalesced(calls: Seq<CallPiece>) -> Seq<CallPiece>
    decreases calls.len(),
{
    if calls.len() == 0 {
        calls
    } else {
        let before = coalesced(calls.drop_last());
        match piece_of(before, calls.last().tool_index) {
            Some(i) => before.update(i, joined(before[i], calls.last())),
            None => before.push(calls.last()),
        }
    }
}

/// The place that `piece_of` gives holds the call's first piece, and nothing is
/// given only where no piece belongs to the call.
pub proof fn lemma_piece_of(calls: Seq<CallPiece>, tool_index: int)
    ensures
        piece_of(calls, tool_index) matches Some(i) ==> 0 <= i < calls.len()
            && calls[i].tool_index == tool_index && forall|j: int|
            0 <= j < i ==> (#[trigger] calls[j]).tool_index != tool_index,
        piece_of(calls, tool_index) is None ==> forall|j: int|
            0 <= j < calls.len() ==> (#[trigger] calls[j]).tool_index != tool_index,
    decreases calls.len(),
{
    if calls.len() > 0 {
        let before = calls.drop_last();
        lemma_piece_of(before, tool_index);
        assert(forall|j: int| 0 <= j < before.len() ==> calls[j] == #[trigger] before[j]);
        assert(forall|j: int|
            0 <= j < before.len() ==> before[j] == #[trigger] calls[j]);
    }
}

impl Default for ToolParseResult {
    fn default() -> (result: ToolParseResult)
        ensures
            result@ == no_output(),
            result.normal_text@.len() == 0,
            result.calls@.len() == 0,
    {
        let result = ToolParseResult { normal_text: String::new(), calls: Vec::new() };
        assert(result@ =~= no_output());
        result
    }
}

impl ToolParseResult {
    /// Adds what the stream gave next.
    pub fn append(&mut self, next: ToolParseResult)
        ensures
            final(self)@ == followed_by(old(self)@, next@),
            final(self).normal_text@ == old(self).normal_text@ + next.normal_text@,
            final(self).calls@ == old(self).calls@ + next.calls@,
    {
        let mut calls = next.calls;
        self.normal_text.append(next.normal_text.as_str());
        self.calls.append(&mut calls);
        assert(self@ =~= followed_by(old(self)@, next@));
    }

    /// Joins the pieces of each call.
    pub fn coalesce_calls(self) -> (result: ToolParseResult)
        ensures
            result@ == (Output {
                normal_text: self@.normal_text,
                calls: coalesced(self@.calls),
            }),
            result.normal_text@ == self.normal_text@,
    {
        let mut merged: Vec<ToolCallDelta> = Vec::new();
        let rest = self.calls;
        let mut i: usize = 0;
        let ghost all = pieces(self.calls@);
        assert(pieces(merged@) =~= coalesced(all.take(0)));
        while i < rest.len()
            invariant
                i <= rest@.len(),
                pieces(rest@) == all,
                pieces(merged@) == coalesced(all.take(i as int)),
            decreases rest@.len() - i,
        {
            let call = &rest[i];
            let ghost before = merged@;
            let ghost piece = call@;
            proof {
                assert(all.take(i + 1).drop_last() =~= all.take(i as int));
                assert(all.take(i + 1).last() == piece);
                lemma_piece_of(pieces(before), piece.tool_index);
            }
            let mut k: usize = 0;
            while k < merged.len() && merged[k].tool_index != call.tool_index
                invariant
                    k <= merged@.len(),
                    forall|j: int|
                        0 <= j < k ==> (#[trigger] merged@[j]).tool_index != call.tool_index,
                decreases merged@.len() - k,
            {
                k += 1;
            }
            if k < merged.len() {
                let mut old_call = merged.remove(k);
                if old_call.name.is_none() {
                    old_call.name = match &call.name {
                        Some(name) => Some(name.clone()),
                        None => None,
                    };
                }
                old_call.arguments.append(call.arguments.as_str());
                merged.insert(k, old_call);
                proof {
                    assert(pieces(before)[k as int] == before[k as int]@);
                    assert(piece_of(pieces(before), piece.tool_index) == Some(k as int)) by {
                        assert(forall|j: int|
                            0 <= j < k ==> (#[trigger] pieces(before)[j]).tool_index
                                != piece.tool_index);
                    }
                    assert(pieces(merged@) =~= pieces(before).update(
                        k as int,
                        joined(pieces(before)[k as int], piece),
                    ));
                }
            } else {
                let fresh = ToolCallDelta {
                    tool_index: call.tool_index,
                    name: match &call.name {
                        Some(name) => Some(name.clone()),
                        None => None,
                    },
                    arguments: call.arguments.clone(),
                };
                merged.push(fresh);
                proof {
                    assert(piece_of(pieces(before), piece.tool_index) is None) by {
                        assert(forall|j: int|
                            0 <= j < before.len() ==> (#[trigger] pieces(before)[j]).tool_index
                                != piece.tool_index);
                    }
                    assert(pieces(merged@) =~= pieces(before).push(piece));
                }
            }
            i += 1;
        }
        proof {
            assert(all.take(i as int) =~= all);
        }
        ToolParseResult { normal_text: self.normal_text, calls: merged }
    }
}

/// Why a tool parser gave no result.
#[derive(Debug)]
pub enum ToolParseError {
    /// The markup of a call could not be read; holds the reader's message.
    Markup(String),
    /// There is no parser for this family.
    UnknownFamily(String),
}

/// A `ToolParseError`, its text as characters.
pub enum Failure {
    Markup(Seq<char>),
    UnknownFamily(Seq<char>),
}

impl View for ToolParseError {
    type V = Failure;

    open spec fn view(&self) -> Failure {
        match self {
            ToolParseError::Markup(message) => Failure::Markup(message@),
            ToolParseError::UnknownFamily(family) => Failure::UnknownFamily(family@),
        }
    }
}

/// A failure in words.
pub open spec fn failure_message(failure: Failure) -> Seq<char> {
    match failure {
        Failure::Markup(message) => message,
        Failure::UnknownFamily(family) => "no Dynamo parser v2 for family '"@ + family + "'"@,
    }
}

impl ToolParseError {
    /// The error in words.
    pub fn message(&self) -> (message: String)
        ensures
            message@ == failure_message(self@),
            self matches ToolParseError::Markup(text) ==> message@ == text@,
            self matches ToolParseError::UnknownFamily(family) ==> message@
                == "no Dynamo parser v2 for family '"@ + family@ + "'"@,
    {
        match self {
            ToolParseError::Markup(message) => message.clone(),
            ToolParseError::UnknownFamily(family) => {
                "no Dynamo parser v2 for family '".to_owned().concat(family.as_str()).concat("'")
            },
        }
    }
}

/// What a call of a parser gave, its texts as characters.
pub open spec fn outcome(result: Result<ToolParseResult, ToolParseError>) -> Result<
    Output,
    Failure,
> {
    match result {
        Ok(output) => Ok(output@),
        Err(error) => Err(error@),
    }
}

/// The view of a result shows all of its text and all of its pieces, each with its
/// index, its name and its arguments.
pub proof fn law_result_view(result: ToolParseResult)
    ensures
        result@.normal_text == result.normal_text@,
        result@.calls.len() == result.calls@.len(),
        forall|i: int|
            0 <= i < result.calls@.len() ==> {
                let piece = #[trigger] result@.calls[i];
                &&& piece.tool_index == result.calls@[i].tool_index
                &&& piece.name is Some == result.calls@[i].name is Some
                &&& result.calls@[i].name matches Some(name) ==> piece.name == Some(name@)
                &&& piece.arguments == result.calls@[i].arguments@
            },
{
}

/// The view of an outcome shows which of the two it is, and what it holds.
pub proof fn law_outcome_view(result: Result<ToolParseResult, ToolParseError>)
    ensures
        result matches Ok(output) ==> outcome(result) == Ok::<Output, Failure>(output@),
        result matches Err(ToolParseError::Markup(text)) ==> outcome(result) == Err::<
            Output,
            Failure,
        >(Failure::Markup(text@)),
        result matches Err(ToolParseError::UnknownFamily(family)) ==> outcome(result) == Err::<
            Output,
            Failure,
        >(Failure::UnknownFamily(family@)),
{
}

/// Some piece of the list belongs to call `tool_index`.
pub open spec fn has_piece(calls: Seq<CallPiece>, tool_index: int) -> bool {
    exists|j: int| 0 <= j < calls.len() && (#[trigger] calls[j]).tool_index == tool_index
}

/// A piece of a call that has not begun begins it: it is added as it is.
pub proof fn law_first_piece_is_added(calls: Seq<CallPiece>, piece: CallPiece)
    requires
        !has_piece(calls, piece.tool_index),
    ensures
        coalesced(calls.push(piece)) == coalesced(calls).push(piece),
{
    assert(calls.push(piece).drop_last() =~= calls);
    law_joining_keeps_the_indices(calls);
    let before = coalesced(calls);
    lemma_piece_of(before, piece.tool_index);
    assert(!has_piece(before, piece.tool_index));
}

/// A further piece of a call is joined to it where it stands: its arguments are added
/// behind those that came before, its name counts if none came before, and every other
/// call stays as it is.
pub proof fn law_further_piece_is_joined(calls: Seq<CallPiece>, piece: CallPiece, at: int)
    requires
        0 <= at < coalesced(calls).len(),
        coalesced(calls)[at].tool_index == piece.tool_index,
    ensures
        ({
            let before = coalesced(calls);
            let after = coalesced(calls.push(piece));
            &&& after.len() == before.len()
            &&& after[at].tool_index == piece.tool_index
            &&& after[at].arguments == before[at].arguments + piece.arguments
            &&& before[at].name is Some ==> after[at].name == before[at].name
            &&& before[at].name is None ==> after[at].name == piece.name
            &&& forall|j: int|
                0 <= j < before.len() && j != at ==> #[trigger] after[j] == before[j]
        }),
{
    assert(calls.push(piece).drop_last() =~= calls);
    law_joining_keeps_the_indices(calls);
    let before = coalesced(calls);
    lemma_piece_of(before, piece.tool_index);
    let i = piece_of(before, piece.tool_index)->0;
    if i < at {
        assert(before[i].tool_index != before[at].tool_index);
    }
}

/// Joining leaves one piece for each call: no index comes twice, and none is lost or
/// added.
pub proof fn law_joining_keeps_the_indices(calls: Seq<CallPiece>)
    ensures
        forall|i: int, j: int|
            0 <= i < j < coalesced(calls).len() ==> (#[trigger] coalesced(calls)[i]).tool_index
                != (#[trigger] coalesced(calls)[j]).tool_index,
        forall|k: int| #[trigger] has_piece(coalesced(calls), k) == has_piece(calls, k),
        calls.len() == 0 ==> coalesced(calls).len() == 0,
    decreases calls.len(),
{
    if calls.len() > 0 {
        let fewer = calls.drop_last();
        let piece = calls.last();
        let before = coalesced(fewer);
        let after = coalesced(calls);
        law_joining_keeps_the_indices(fewer);
        lemma_piece_of(before, piece.tool_index);
        assert(forall|i: int|
            0 <= i < before.len() ==> (#[trigger] after[i]).tool_index == before[i].tool_index);
        assert forall|k: int| #[trigger] has_piece(after, k) == has_piece(calls, k) by {
            lemma_has_piece(calls, k);
            assert(has_piece(before, k) == has_piece(fewer, k));
            match piece_of(before, piece.tool_index) {
                Some(i) => {
                    lemma_same_indices(before, after, k);
                    assert(before[i].tool_index == piece.tool_index);
                },
                None => {
                    lemma_has_piece(after, k);
                    assert(after.drop_last() =~= before);
                },
            }
        }
    }
}

/// Whether a piece belongs to a call, told from the last piece and those before it.
proof fn lemma_has_piece(calls: Seq<CallPiece>, k: int)
    requires
        calls.len() > 0,
    ensures
        has_piece(calls, k) == (has_piece(calls.drop_last(), k) || calls.last().tool_index == k),
{
    let fewer = calls.drop_last();
    if has_piece(fewer, k) {
        let j = choose|j: int| 0 <= j < fewer.len() && (#[trigger] fewer[j]).tool_index == k;
        assert(calls[j].tool_index == k);
    }
    if has_piece(calls, k) {
        let j = choose|j: int| 0 <= j < calls.len() && (#[trigger] calls[j]).tool_index == k;
        if j < fewer.len() {
            assert(fewer[j].tool_index == k);
        }
    }
    assert(calls[calls.len() - 1] == calls.last());
}

/// Lists with the same indices have pieces of the same calls.
proof fn lemma_same_indices(a: Seq<CallPiece>, b: Seq<CallPiece>, k: int)
    requires
        a.len() == b.len(),
        forall|i: int| 0 <= i < a.len() ==> (#[trigger] b[i]).tool_index == a[i].tool_index,
    ensures
        has_piece(a, k) == has_piece(b, k),
{
    if has_piece(a, k) {
        let j = choose|j: int| 0 <= j < a.len() && (#[trigger] a[j]).tool_index == k;
        assert(b[j].tool_index == k);
    }
}

/// Calls whose pieces have indices of their own are left as they are by joining.
pub proof fn law_coalescing_keeps_whole_calls(calls: Seq<CallPiece>)
    requires
        forall|i: int, j: int|
            0 <= i < j < calls.len() ==> (#[trigger] calls[i]).tool_index != (
            #[trigger] calls[j]).tool_index,
    ensures
        coalesced(calls) == calls,
    decreases calls.len(),
{
    if calls.len() > 0 {
        let before = calls.drop_last();
        assert(forall|i: int| 0 <= i < before.len() ==> before[i] == #[trigger] calls[i]);
        law_coalescing_keeps_whole_calls(before);
        lemma_piece_of(before, calls.last().tool_index);
        assert(calls.last() == calls[calls.len() - 1]);
        assert(before.push(calls.last()) =~= calls);
    }
}

} // verus!

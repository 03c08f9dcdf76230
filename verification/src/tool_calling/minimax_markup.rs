//! The markup of MiniMax-M2: where text ends and a block or an invocation begins.
//!
//! Calls stand in blocks,
//! `<minimax:tool_call> <invoke name="NAME"> <parameter name="KEY">value</parameter> ... </invoke> </minimax:tool_call>`,
//! or, bare, outside any block.

use crate::text;
use vstd::prelude::*;
use vstd::string::*;

verus! {

/// Opens a block.
pub const BLOCK_START: &'static str = "<minimax:tool_call>";

/// Closes a block.
pub const BLOCK_END: &'static str = "</minimax:tool_call>";

/// Opens an invocation; the tool's name follows.
pub const FUNCTION_START: &'static str = "<invoke name=";

/// Closes an invocation.
pub const FUNCTION_END: &'static str = "</invoke>";

/// `text` ends with the first `k` characters of `marker`, which has more than `k`.
pub open spec fn ends_with_part(text: Seq<char>, marker: Seq<char>, k: int) -> bool {
    &&& 0 < k < marker.len()
    &&& k <= text.len()
    &&& text.skip(text.len() - k) == marker.take(k)
}

/// The last `k` characters of `text` may be the beginning of a start marker.
pub open spec fn may_begin_marker(text: Seq<char>, k: int) -> bool {
    ends_with_part(text, BLOCK_START@, k) || ends_with_part(text, FUNCTION_START@, k)
}

/// The greatest number up to `k` of characters at the end of `text` that may be the
/// beginning of a start marker.
pub open spec fn held_back_up_to(text: Seq<char>, k: int) -> int
    decreases k,
{
    if k <= 0 {
        0
    } else if may_begin_marker(text, k) {
        k
    } else {
        held_back_up_to(text, k - 1)
    }
}

/// How many characters at the end of `text` may be the beginning of a start marker,
/// at most.
pub open spec fn held_back(text: Seq<char>) -> int {
    held_back_up_to(text, BLOCK_START@.len() - 1)
}

/// Which start marker comes next.
#[derive(Clone, Copy)]
pub enum Marker {
    /// A block begins.
    Block,
    /// An invocation begins outside any block.
    BareInvoke,
}

/// The first start marker in `text`, and where it stands.
pub open spec fn next_marker(text: Seq<char>) -> Option<(int, Marker)> {
    match (text::find(text, BLOCK_START@), text::find(text, FUNCTION_START@)) {
        (Some(block), Some(invoke)) => if block <= invoke {
            Some((block, Marker::Block))
        } else {
            Some((invoke, Marker::BareInvoke))
        },
        (Some(block), None) => Some((block, Marker::Block)),
        (None, Some(invoke)) => Some((invoke, Marker::BareInvoke)),
        (None, None) => None,
    }
}

/// What the scanner finds next in the text that is waiting.
#[verifier::ext_equal]
pub enum Found {
    /// Nothing more can be told yet, or at the end of the stream nothing more comes:
    /// `text` is text, `rest` waits for what follows.
    Wait { text: Seq<char>, rest: Seq<char>, in_block: bool },
    /// A block begins behind `text`.
    Open { text: Seq<char>, rest: Seq<char> },
    /// The block ends.
    Close { rest: Seq<char> },
    /// A whole invocation stands behind `text`.
    Invoke { text: Seq<char>, invoke: Seq<char>, rest: Seq<char> },
}

/// What comes next inside a block. Text in it that belongs to no invocation is
/// passed over. At the end of the stream what is not whole is dropped.
pub open spec fn next_in_block(buffer: Seq<char>, flush: bool) -> Found {
    let start = text::find(buffer, FUNCTION_START@);
    let end = text::find(buffer, BLOCK_END@);
    if end is Some && !(start is Some && start->0 < end->0) {
        Found::Close { rest: buffer.skip(end->0 + BLOCK_END@.len()) }
    } else {
        let waiting = match start {
            None => buffer,
            Some(s) => buffer.skip(s),
        };
        match (start, text::find(waiting, FUNCTION_END@)) {
            (Some(_), Some(e)) => Found::Invoke {
                text: Seq::empty(),
                invoke: waiting.take(e + FUNCTION_END@.len()),
                rest: waiting.skip(e + FUNCTION_END@.len()),
            },
            _ => Found::Wait {
                text: Seq::empty(),
                rest: if flush {
                    Seq::empty()
                } else {
                    waiting
                },
                in_block: !flush,
            },
        }
    }
}

/// What comes next outside any block. Text goes up to the next start marker; where
/// there is none, up to what may be the beginning of one, or at the end of the
/// stream up to the end. A bare invocation that is not whole waits, and is dropped
/// at the end of the stream.
pub open spec fn next_outside(buffer: Seq<char>, flush: bool) -> Found {
    match next_marker(buffer) {
        None => {
            let cut = if flush {
                buffer.len() as int
            } else {
                buffer.len() - held_back(buffer)
            };
            Found::Wait { text: buffer.take(cut), rest: buffer.skip(cut), in_block: false }
        },
        Some((at, Marker::Block)) => Found::Open {
            text: buffer.take(at),
            rest: buffer.skip(at + BLOCK_START@.len()),
        },
        Some((at, Marker::BareInvoke)) => {
            let waiting = buffer.skip(at);
            match text::find(waiting, FUNCTION_END@) {
                Some(e) => Found::Invoke {
                    text: buffer.take(at),
                    invoke: waiting.take(e + FUNCTION_END@.len()),
                    rest: waiting.skip(e + FUNCTION_END@.len()),
                },
                None => Found::Wait {
                    text: buffer.take(at),
                    rest: if flush {
                        Seq::empty()
                    } else {
                        waiting
                    },
                    in_block: false,
                },
            }
        },
    }
}

/// What comes next in the text that is waiting.
pub open spec fn next_found(buffer: Seq<char>, in_block: bool, flush: bool) -> Found {
    if in_block {
        next_in_block(buffer, flush)
    } else {
        next_outside(buffer, flush)
    }
}

/// The lengths of the markers, and that each holds one `<`, its first character, and
/// that their second characters tell them apart where that is needed.
pub proof fn lemma_markers()
    ensures
        BLOCK_START@.len() == 19,
        BLOCK_END@.len() == 20,
        FUNCTION_START@.len() == 13,
        FUNCTION_END@.len() == 9,
        BLOCK_START@[0] == '<' && BLOCK_START@[1] == 'm',
        BLOCK_END@[0] == '<' && BLOCK_END@[1] == '/',
        FUNCTION_START@[0] == '<' && FUNCTION_START@[1] == 'i',
        FUNCTION_END@[0] == '<' && FUNCTION_END@[1] == '/',
        forall|i: int| 0 < i < 19 ==> #[trigger] BLOCK_START@[i] != '<',
        forall|i: int| 0 < i < 20 ==> #[trigger] BLOCK_END@[i] != '<',
        forall|i: int| 0 < i < 13 ==> #[trigger] FUNCTION_START@[i] != '<',
{
    reveal_strlit("<minimax:tool_call>");
    reveal_strlit("</minimax:tool_call>");
    reveal_strlit("<invoke name=");
    reveal_strlit("</invoke>");
}

/// What is held back may be the beginning of a marker, and nothing longer may.
pub proof fn lemma_held_back(text: Seq<char>)
    ensures
        0 <= held_back(text) <= text.len(),
        held_back(text) < 19,
        held_back(text) > 0 ==> may_begin_marker(text, held_back(text)),
        forall|k: int| held_back(text) < k ==> !#[trigger] may_begin_marker(text, k),
{
    lemma_markers();
    lemma_held_back_up_to(text, 18);
}

/// What is held back is the longest end of the text that is the beginning of a start
/// marker, but not all of it.
pub proof fn law_held_back(text: Seq<char>)
    ensures
        0 <= held_back(text) <= text.len(),
        held_back(text) > 0 ==> {
            let end = text.skip(text.len() - held_back(text));
            ||| held_back(text) < BLOCK_START@.len() && end == BLOCK_START@.take(held_back(text))
            ||| held_back(text) < FUNCTION_START@.len() && end == FUNCTION_START@.take(
                held_back(text),
            )
        },
        forall|k: int|
            held_back(text) < k <= text.len() && k < BLOCK_START@.len() ==> text.skip(
                text.len() - k,
            ) != #[trigger] BLOCK_START@.take(k),
        forall|k: int|
            held_back(text) < k <= text.len() && k < FUNCTION_START@.len() ==> text.skip(
                text.len() - k,
            ) != #[trigger] FUNCTION_START@.take(k),
{
    lemma_held_back(text);
    assert forall|k: int|
        held_back(text) < k <= text.len() && k < BLOCK_START@.len() implies text.skip(
        text.len() - k,
    ) != #[trigger] BLOCK_START@.take(k) by {
        assert(!may_begin_marker(text, k));
    }
    assert forall|k: int|
        held_back(text) < k <= text.len() && k < FUNCTION_START@.len() implies text.skip(
        text.len() - k,
    ) != #[trigger] FUNCTION_START@.take(k) by {
        assert(!may_begin_marker(text, k));
    }
}

proof fn lemma_held_back_up_to(text: Seq<char>, k: int)
    requires
        0 <= k,
    ensures
        0 <= held_back_up_to(text, k) <= k,
        held_back_up_to(text, k) > 0 ==> may_begin_marker(text, held_back_up_to(text, k)),
        forall|j: int|
            held_back_up_to(text, k) < j <= k ==> !#[trigger] may_begin_marker(text, j),
    decreases k,
{
    if k > 0 {
        lemma_held_back_up_to(text, k - 1);
    }
}

/// Whatever is found, the rest is part of the buffer, and shorter unless it waits.
pub proof fn lemma_found_shrinks(buffer: Seq<char>, in_block: bool, flush: bool)
    ensures
        match next_found(buffer, in_block, flush) {
            Found::Wait { text, rest, .. } => rest.len() <= buffer.len(),
            Found::Open { text, rest } => rest.len() < buffer.len(),
            Found::Close { rest } => rest.len() < buffer.len(),
            Found::Invoke { text, invoke, rest } => rest.len() < buffer.len(),
        },
{
    lemma_markers();
    lemma_held_back(buffer);
    text::lemma_find_from(buffer, BLOCK_START@, 0);
    text::lemma_find_from(buffer, BLOCK_END@, 0);
    text::lemma_find_from(buffer, FUNCTION_START@, 0);
    if let Some(s) = text::find(buffer, FUNCTION_START@) {
        text::lemma_find_from(buffer.skip(s), FUNCTION_END@, 0);
    }
}

/// The invocations that stand whole in the text that is waiting, in order.
pub open spec fn invokes(buffer: Seq<char>, in_block: bool, flush: bool) -> Seq<Seq<char>>
    decreases buffer.len(),
{
    proof {
        lemma_found_shrinks(buffer, in_block, flush);
    }
    match next_found(buffer, in_block, flush) {
        Found::Wait { .. } => Seq::empty(),
        Found::Open { text, rest } => invokes(rest, true, flush),
        Found::Close { rest } => invokes(rest, false, flush),
        Found::Invoke { text, invoke, rest } => seq![invoke] + invokes(rest, in_block, flush),
    }
}

/// What the scanner found next, as `Found` says it.
pub enum Scanned {
    /// See `Found::Wait`.
    Wait { text: String, rest: String, in_block: bool },
    /// See `Found::Open`.
    Open { text: String, rest: String },
    /// See `Found::Close`.
    Close { rest: String },
    /// See `Found::Invoke`.
    Invoke { text: String, invoke: String, rest: String },
}

impl View for Scanned {
    type V = Found;

    open spec fn view(&self) -> Found {
        match self {
            Scanned::Wait { text, rest, in_block } => Found::Wait {
                text: text@,
                rest: rest@,
                in_block: *in_block,
            },
            Scanned::Open { text, rest } => Found::Open { text: text@, rest: rest@ },
            Scanned::Close { rest } => Found::Close { rest: rest@ },
            Scanned::Invoke { text, invoke, rest } => Found::Invoke {
                text: text@,
                invoke: invoke@,
                rest: rest@,
            },
        }
    }
}

/// The view of what was found shows which of the four it is, and all its texts.
pub proof fn law_scanned_view(found: Scanned)
    ensures
        match found {
            Scanned::Wait { text, rest, in_block } => found@ == (Found::Wait {
                text: text@,
                rest: rest@,
                in_block,
            }),
            Scanned::Open { text, rest } => found@ == (Found::Open { text: text@, rest: rest@ }),
            Scanned::Close { rest } => found@ == (Found::Close { rest: rest@ }),
            Scanned::Invoke { text, invoke, rest } => found@ == (Found::Invoke {
                text: text@,
                invoke: invoke@,
                rest: rest@,
            }),
        },
{
}

/// Whether `text` ends with the first `k` characters of `marker`.
fn ends_with_first(text: &Vec<char>, marker: &Vec<char>, k: usize) -> (ends: bool)
    ensures
        ends == ends_with_part(text@, marker@, k as int),
{
    if k == 0 || k >= marker.len() || k > text.len() {
        return false;
    }
    let part = text::part_of(marker, 0, k);
    let at: usize = text.len() - k;
    let ends = text::stands_at(text, &part, at);
    proof {
        assert(part@ == marker@.take(k as int));
        assert(text@.subrange(at as int, at + k) == text@.skip(at as int));
    }
    ends
}

/// Longest non-empty proper prefix of a start marker that `text` ends with, so a
/// marker split across chunk boundaries is held back instead of leaked as text.
pub fn marker_prefix_suffix_len(text: &str) -> (len: usize)
    ensures
        len == held_back(text@),
        len <= text@.len(),
        len > 0 ==> may_begin_marker(text@, len as int),
        forall|k: int| len < k ==> !#[trigger] may_begin_marker(text@, k),
        len > 0 ==> {
            let end = text@.skip(text@.len() - len);
            ||| len < BLOCK_START@.len() && end == BLOCK_START@.take(len as int)
            ||| len < FUNCTION_START@.len() && end == FUNCTION_START@.take(len as int)
        },
        forall|k: int|
            len < k <= text@.len() && k < BLOCK_START@.len() ==> text@.skip(text@.len() - k)
                != #[trigger] BLOCK_START@.take(k),
        forall|k: int|
            len < k <= text@.len() && k < FUNCTION_START@.len() ==> text@.skip(text@.len() - k)
                != #[trigger] FUNCTION_START@.take(k),
{
    let chars = text::chars_of(text);
    let block = text::chars_of(BLOCK_START);
    let invoke = text::chars_of(FUNCTION_START);
    proof {
        lemma_markers();
        law_held_back(text@);
    }
    let mut k: usize = block.len() - 1;
    while k > 0
        invariant
            chars@ == text@,
            block@ == BLOCK_START@,
            invoke@ == FUNCTION_START@,
            held_back(text@) == held_back_up_to(text@, k as int),
        decreases k,
    {
        if ends_with_first(&chars, &block, k) || ends_with_first(&chars, &invoke, k) {
            proof {
                lemma_held_back(text@);
                law_held_back(text@);
            }
            return k;
        }
        k -= 1;
    }
    0
}

/// The first start marker in `text`, and where it stands.
fn find_marker(text: &Vec<char>) -> (found: Option<(usize, Marker)>)
    ensures
        found matches Some(f) ==> next_marker(text@) == Some((f.0 as int, f.1)),
        found is None ==> next_marker(text@) is None,
{
    let block_start = text::position(text, BLOCK_START);
    let bare_invoke_start = text::position(text, FUNCTION_START);
    match (block_start, bare_invoke_start) {
        (Some(b), Some(f)) => if b <= f {
            Some((b, Marker::Block))
        } else {
            Some((f, Marker::BareInvoke))
        },
        (Some(b), None) => Some((b, Marker::Block)),
        (None, Some(f)) => Some((f, Marker::BareInvoke)),
        (None, None) => None,
    }
}

/// Finds what comes next inside a block.
fn scan_block(buffer: &str, flush: bool) -> (found: Scanned)
    ensures
        found@ == next_in_block(buffer@, flush),
{
    let chars = text::chars_of(buffer);
    proof {
        lemma_markers();
        text::lemma_find_from(buffer@, BLOCK_END@, 0);
        text::lemma_find_from(buffer@, FUNCTION_START@, 0);
    }
    let total: usize = chars.len();
    let start = text::position(&chars, FUNCTION_START);
    if let Some(end) = text::position(&chars, BLOCK_END) {
        let invoke_before_end = match start {
            Some(s) => s < end,
            None => false,
        };
        if !invoke_before_end {
            return Scanned::Close {
                rest: text::cut(buffer, end + text::chars_of(BLOCK_END).len(), total),
            };
        }
    }
    let from: usize = match start {
        None => {
            return waiting_block(buffer, flush);
        },
        Some(s) => s,
    };
    let waiting = text::part_of(&chars, from, total);
    assert(waiting@ == buffer@.skip(from as int));
    proof {
        text::lemma_find_from(waiting@, FUNCTION_END@, 0);
    }
    let tail = text::cut(buffer, from, total);
    match text::position(&waiting, FUNCTION_END) {
        None => waiting_block(tail.as_str(), flush),
        Some(end) => {
            let cut: usize = end + text::chars_of(FUNCTION_END).len();
            Scanned::Invoke {
                text: String::new(),
                invoke: text::cut(tail.as_str(), 0, cut),
                rest: text::cut(tail.as_str(), cut, waiting.len()),
            }
        },
    }
}

/// An unfinished block that waits, or is dropped at the end of the stream.
fn waiting_block(waiting: &str, flush: bool) -> (found: Scanned)
    ensures
        found@ == (Found::Wait {
            text: Seq::empty(),
            rest: if flush {
                Seq::empty()
            } else {
                waiting@
            },
            in_block: !flush,
        }),
{
    let rest = if flush {
        String::new()
    } else {
        waiting.to_owned()
    };
    Scanned::Wait { text: String::new(), rest, in_block: !flush }
}

/// Finds what comes next outside any block.
fn scan_outside(buffer: &str, flush: bool) -> (found: Scanned)
    ensures
        found@ == next_outside(buffer@, flush),
{
    let chars = text::chars_of(buffer);
    proof {
        lemma_markers();
        text::lemma_find_from(buffer@, BLOCK_START@, 0);
        text::lemma_find_from(buffer@, FUNCTION_START@, 0);
    }
    let total: usize = chars.len();
    match find_marker(&chars) {
        None => {
            let keep: usize = if flush {
                0
            } else {
                marker_prefix_suffix_len(buffer)
            };
            let cut: usize = total - keep;
            Scanned::Wait {
                text: text::cut(buffer, 0, cut),
                rest: text::cut(buffer, cut, total),
                in_block: false,
            }
        },
        Some((at, Marker::Block)) => Scanned::Open {
            text: text::cut(buffer, 0, at),
            rest: text::cut(buffer, at + text::chars_of(BLOCK_START).len(), total),
        },
        Some((at, Marker::BareInvoke)) => {
            let before = text::cut(buffer, 0, at);
            let tail = text::cut(buffer, at, total);
            let waiting = text::chars_of(tail.as_str());
            proof {
                text::lemma_find_from(waiting@, FUNCTION_END@, 0);
            }
            match text::position(&waiting, FUNCTION_END) {
                None => {
                    let rest = if flush {
                        String::new()
                    } else {
                        tail
                    };
                    Scanned::Wait { text: before, rest, in_block: false }
                },
                Some(end) => {
                    let cut: usize = end + text::chars_of(FUNCTION_END).len();
                    Scanned::Invoke {
                        text: before,
                        invoke: text::cut(tail.as_str(), 0, cut),
                        rest: text::cut(tail.as_str(), cut, waiting.len()),
                    }
                },
            }
        },
    }
}

/// Finds what comes next in the text that is waiting; at the end of the stream
/// `flush` is set.
pub fn scan(buffer: &str, in_block: bool, flush: bool) -> (found: Scanned)
    ensures
        found@ == next_found(buffer@, in_block, flush),
{
    if in_block {
        scan_block(buffer, flush)
    } else {
        scan_outside(buffer, flush)
    }
}

} // verus!

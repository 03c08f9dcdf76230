//! Laws of the MiniMax-M2 parser.

use crate::json;
use crate::text;
use crate::tool_calling::arguments;
use crate::tool_calling::minimax_m2;
use crate::tool_calling::minimax_m2::{Notice, ParserState};
use crate::tool_calling::minimax_markup;
use crate::tool_calling::minimax_markup::{
    Found, Marker, BLOCK_END, BLOCK_START, FUNCTION_END, FUNCTION_START,
};
use crate::tool_calling::traits;
use crate::tool_calling::traits::{CallPiece, Failure, Output, ToolCallDelta, ToolParseError};
use crate::xml;
use crate::xml::{ToolSchema, XmlSyntax};
use vstd::prelude::*;

verus! {

/// What stands in the front part of a text stands in that part alone.
proof fn lemma_occurs_in_front(front: Seq<char>, back: Seq<char>, needle: Seq<char>, i: int)
    requires
        i + needle.len() <= front.len(),
    ensures
        text::occurs_at(front + back, needle, i) == text::occurs_at(front, needle, i),
{
    if 0 <= i {
        assert((front + back).subrange(i, i + needle.len()) =~= front.subrange(
            i,
            i + needle.len(),
        ));
    }
}

/// What stands behind a position stands in the rest from that position on.
proof fn lemma_occurs_behind(text: Seq<char>, needle: Seq<char>, k: int, i: int)
    requires
        0 <= k <= text.len(),
        0 <= i,
    ensures
        text::occurs_at(text, needle, k + i) == text::occurs_at(text.skip(k), needle, i),
{
    if k + i + needle.len() <= text.len() {
        assert(text.subrange(k + i, k + i + needle.len()) =~= text.skip(k).subrange(
            i,
            i + needle.len(),
        ));
    }
}

/// What is found is still found when more text follows.
proof fn lemma_found_in_front(front: Seq<char>, back: Seq<char>, needle: Seq<char>)
    requires
        text::find(front, needle) is Some,
    ensures
        text::find(front + back, needle) == text::find(front, needle),
{
    let i = text::find(front, needle)->0;
    text::lemma_find_from(front, needle, 0);
    lemma_occurs_in_front(front, back, needle, i);
    assert forall|j: int| 0 <= j < i implies !#[trigger] text::occurs_at(
        front + back,
        needle,
        j,
    ) by {
        lemma_occurs_in_front(front, back, needle, j);
    }
    text::lemma_found_at(front + back, needle, 0, i);
}

/// Where nothing is found before a position, the search may begin there.
proof fn lemma_found_behind(text: Seq<char>, needle: Seq<char>, k: int)
    requires
        0 <= k <= text.len(),
        forall|j: int| 0 <= j < k ==> !#[trigger] text::occurs_at(text, needle, j),
    ensures
        text::find(text, needle) == match text::find(text.skip(k), needle) {
            Some(i) => Some(i + k),
            None => None::<int>,
        },
{
    text::lemma_find_from(text.skip(k), needle, 0);
    match text::find(text.skip(k), needle) {
        Some(i) => {
            lemma_occurs_behind(text, needle, k, i);
            assert forall|j: int| 0 <= j < i + k implies !#[trigger] text::occurs_at(
                text,
                needle,
                j,
            ) by {
                if j >= k {
                    lemma_occurs_behind(text, needle, k, j - k);
                }
            }
            text::lemma_found_at(text, needle, 0, i + k);
        },
        None => {
            assert forall|j: int| 0 <= j implies !#[trigger] text::occurs_at(text, needle, j) by {
                if j >= k {
                    lemma_occurs_behind(text, needle, k, j - k);
                }
            }
            text::lemma_not_found(text, needle, 0);
        },
    }
}

/// Markers do not overlap: each has its only `<` at its beginning.
proof fn lemma_no_overlap(text: Seq<char>, first: Seq<char>, second: Seq<char>, i: int, j: int)
    requires
        text::occurs_at(text, first, i),
        text::occurs_at(text, second, j),
        i < j,
        second.len() > 0,
        second[0] == '<',
        forall|k: int| 0 < k < first.len() ==> #[trigger] first[k] != '<',
    ensures
        i + first.len() <= j,
{
    if j < i + first.len() {
        assert(text.subrange(i, i + first.len())[j - i] == text[j]);
        assert(text.subrange(j, j + second.len())[0] == text[j]);
        assert(first[j - i] != '<');
    }
}

/// Markers whose second characters differ do not stand at the same place.
proof fn lemma_not_both(text: Seq<char>, first: Seq<char>, second: Seq<char>, i: int)
    requires
        text::occurs_at(text, first, i),
        text::occurs_at(text, second, i),
        first.len() > 1,
        second.len() > 1,
    ensures
        first[1] == second[1],
{
    assert(text.subrange(i, i + first.len())[1] == text[i + 1]);
    assert(text.subrange(i, i + second.len())[1] == text[i + 1]);
}

/// A marker that stands whole in the front part is not preceded by another one that
/// reaches into the back part.
proof fn lemma_none_before(
    front: Seq<char>,
    back: Seq<char>,
    other: Seq<char>,
    marker: Seq<char>,
    at: int,
)
    requires
        text::occurs_at(front, marker, at),
        marker.len() > 1,
        other.len() > 1,
        marker[0] == '<',
        other[1] != marker[1],
        forall|k: int| 0 < k < other.len() ==> #[trigger] other[k] != '<',
        text::find(front, other) matches Some(i) ==> at < i,
    ensures
        text::find(front + back, other) matches Some(i) ==> at < i,
{
    let whole = front + back;
    text::lemma_find_from(whole, other, 0);
    text::lemma_find_from(front, other, 0);
    lemma_occurs_in_front(front, back, marker, at);
    if let Some(i) = text::find(whole, other) {
        if i == at {
            lemma_not_both(whole, other, marker, i);
        } else if i < at {
            lemma_no_overlap(whole, other, marker, i, at);
            lemma_occurs_in_front(front, back, other, i);
        }
    }
}

/// What was found, with more text waiting behind it.
spec fn with_rest(found: Found, more: Seq<char>) -> Found {
    match found {
        Found::Wait { text, rest, in_block } => Found::Wait { text, rest: rest + more, in_block },
        Found::Open { text, rest } => Found::Open { text, rest: rest + more },
        Found::Close { rest } => Found::Close { rest: rest + more },
        Found::Invoke { text, invoke, rest } => Found::Invoke { text, invoke, rest: rest + more },
    }
}

/// What was found, with more text before it.
spec fn with_text(before: Seq<char>, found: Found) -> Found {
    match found {
        Found::Wait { text, rest, in_block } => Found::Wait { text: before + text, rest, in_block },
        Found::Open { text, rest } => Found::Open { text: before + text, rest },
        Found::Close { rest } => Found::Close { rest },
        Found::Invoke { text, invoke, rest } => Found::Invoke { text: before + text, invoke, rest },
    }
}

/// What is found in a block does not change when more text follows.
proof fn lemma_block_stable(front: Seq<char>, back: Seq<char>)
    requires
        !(minimax_markup::next_in_block(front, false) is Wait),
    ensures
        minimax_markup::next_in_block(front + back, false) == with_rest(
            minimax_markup::next_in_block(front, false),
            back,
        ),
{
    minimax_markup::lemma_markers();
    let whole = front + back;
    let start = text::find(front, FUNCTION_START@);
    let end = text::find(front, BLOCK_END@);
    text::lemma_find_from(front, FUNCTION_START@, 0);
    text::lemma_find_from(front, BLOCK_END@, 0);
    if end is Some && !(start is Some && start->0 < end->0) {
        lemma_found_in_front(front, back, BLOCK_END@);
        if start is Some && start->0 == end->0 {
            lemma_not_both(front, FUNCTION_START@, BLOCK_END@, end->0);
        }
        lemma_none_before(front, back, FUNCTION_START@, BLOCK_END@, end->0);
        let cut = end->0 + BLOCK_END@.len();
        assert(whole.skip(cut) =~= front.skip(cut) + back);
    } else {
        lemma_found_in_front(front, back, FUNCTION_START@);
        lemma_none_before(front, back, BLOCK_END@, FUNCTION_START@, start->0);
        let waiting = front.skip(start->0);
        assert(whole.skip(start->0) =~= waiting + back);
        lemma_found_in_front(waiting, back, FUNCTION_END@);
        text::lemma_find_from(waiting, FUNCTION_END@, 0);
        let cut = text::find(waiting, FUNCTION_END@)->0 + FUNCTION_END@.len();
        assert((waiting + back).take(cut) =~= waiting.take(cut));
        assert((waiting + back).skip(cut) =~= waiting.skip(cut) + back);
    }
}

/// What waits in a block can stand for the whole buffer.
proof fn lemma_block_waits(front: Seq<char>, back: Seq<char>)
    requires
        minimax_markup::next_in_block(front, false) is Wait,
    ensures
        match minimax_markup::next_in_block(front, false) {
            Found::Wait { text, rest, in_block } => {
                &&& text == Seq::<char>::empty()
                &&& in_block
                &&& minimax_markup::next_in_block(front + back, false)
                    == minimax_markup::next_in_block(rest + back, false)
            },
            _ => false,
        },
{
    minimax_markup::lemma_markers();
    let whole = front + back;
    let start = text::find(front, FUNCTION_START@);
    text::lemma_find_from(front, FUNCTION_START@, 0);
    text::lemma_find_from(front, BLOCK_END@, 0);
    if let Some(s) = start {
        let waiting = front.skip(s);
        let after = waiting + back;
        assert(whole.skip(s) =~= after);
        lemma_found_in_front(front, back, FUNCTION_START@);
        lemma_none_before(front, back, BLOCK_END@, FUNCTION_START@, s);
        // In the rest the invocation begins at once.
        lemma_occurs_behind(front, FUNCTION_START@, s, 0);
        lemma_occurs_in_front(waiting, back, FUNCTION_START@, 0);
        text::lemma_found_at(after, FUNCTION_START@, 0, 0);
        text::lemma_find_from(after, BLOCK_END@, 0);
        if let Some(e) = text::find(after, BLOCK_END@) {
            if e == 0 {
                lemma_not_both(after, FUNCTION_START@, BLOCK_END@, 0);
            }
        }
        assert(after.skip(0) =~= after);
    }
}

/// What is found outside a block does not change when more text follows.
proof fn lemma_outside_stable(front: Seq<char>, back: Seq<char>)
    requires
        !(minimax_markup::next_outside(front, false) is Wait),
    ensures
        minimax_markup::next_outside(front + back, false) == with_rest(
            minimax_markup::next_outside(front, false),
            back,
        ),
{
    minimax_markup::lemma_markers();
    let whole = front + back;
    let block = text::find(front, BLOCK_START@);
    let invoke = text::find(front, FUNCTION_START@);
    text::lemma_find_from(front, BLOCK_START@, 0);
    text::lemma_find_from(front, FUNCTION_START@, 0);
    let (at, marker) = minimax_markup::next_marker(front)->0;
    assert(whole.take(at) =~= front.take(at));
    match marker {
        Marker::Block => {
            lemma_found_in_front(front, back, BLOCK_START@);
            if invoke is Some && invoke->0 == at {
                lemma_not_both(front, FUNCTION_START@, BLOCK_START@, at);
            }
            lemma_none_before(front, back, FUNCTION_START@, BLOCK_START@, at);
            let cut = at + BLOCK_START@.len();
            assert(whole.skip(cut) =~= front.skip(cut) + back);
        },
        Marker::BareInvoke => {
            lemma_found_in_front(front, back, FUNCTION_START@);
            lemma_none_before(front, back, BLOCK_START@, FUNCTION_START@, at);
            let waiting = front.skip(at);
            assert(whole.skip(at) =~= waiting + back);
            lemma_found_in_front(waiting, back, FUNCTION_END@);
            text::lemma_find_from(waiting, FUNCTION_END@, 0);
            let cut = text::find(waiting, FUNCTION_END@)->0 + FUNCTION_END@.len();
            assert((waiting + back).take(cut) =~= waiting.take(cut));
            assert((waiting + back).skip(cut) =~= waiting.skip(cut) + back);
        },
    }
}

/// A start marker that begins before what is held back stands whole in the front.
proof fn lemma_none_in_text(front: Seq<char>, back: Seq<char>, marker: Seq<char>, i: int)
    requires
        marker == BLOCK_START@ || marker == FUNCTION_START@,
        text::find(front, marker) is None,
        0 <= i < front.len() - minimax_markup::held_back(front),
    ensures
        !text::occurs_at(front + back, marker, i),
{
    minimax_markup::lemma_markers();
    minimax_markup::lemma_held_back(front);
    let whole = front + back;
    text::lemma_find_from(front, marker, 0);
    if text::occurs_at(whole, marker, i) {
        if i + marker.len() <= front.len() {
            lemma_occurs_in_front(front, back, marker, i);
        } else {
            let k = front.len() - i;
            assert forall|j: int| 0 <= j < k implies front.skip(i)[j] == marker.take(k)[j] by {
                assert(whole.subrange(i, i + marker.len())[j] == whole[i + j]);
            }
            assert(front.skip(i) =~= marker.take(k));
            assert(minimax_markup::ends_with_part(front, marker, k));
            assert(minimax_markup::may_begin_marker(front, k));
        }
    }
}

/// What may begin a marker at the end of the whole text begins in what was held back
/// or later.
proof fn lemma_held_back_splits(front: Seq<char>, back: Seq<char>)
    ensures
        minimax_markup::held_back(front + back) == minimax_markup::held_back(
            front.skip(front.len() - minimax_markup::held_back(front)) + back,
        ),
{
    minimax_markup::lemma_markers();
    minimax_markup::lemma_held_back(front);
    let whole = front + back;
    let rest = front.skip(front.len() - minimax_markup::held_back(front)) + back;
    minimax_markup::lemma_held_back(whole);
    minimax_markup::lemma_held_back(rest);
    assert forall|k: int| minimax_markup::may_begin_marker(whole, k) implies #[trigger]
        minimax_markup::may_begin_marker(rest, k) by {
        lemma_part_splits(front, back, BLOCK_START@, k);
        lemma_part_splits(front, back, FUNCTION_START@, k);
    }
    assert forall|k: int| minimax_markup::may_begin_marker(rest, k) implies #[trigger]
        minimax_markup::may_begin_marker(whole, k) by {
        if k <= rest.len() {
            assert(whole.skip(whole.len() - k) =~= rest.skip(rest.len() - k));
        }
    }
    let a = minimax_markup::held_back(whole);
    let b = minimax_markup::held_back(rest);
    if a < b {
        assert(minimax_markup::may_begin_marker(whole, b));
    } else if b < a {
        assert(minimax_markup::may_begin_marker(rest, a));
    }
}

/// The same for one marker.
proof fn lemma_part_splits(front: Seq<char>, back: Seq<char>, marker: Seq<char>, k: int)
    requires
        marker == BLOCK_START@ || marker == FUNCTION_START@,
    ensures
        minimax_markup::ends_with_part(front + back, marker, k)
            ==> minimax_markup::ends_with_part(
            front.skip(front.len() - minimax_markup::held_back(front)) + back,
            marker,
            k,
        ),
{
    minimax_markup::lemma_held_back(front);
    let whole = front + back;
    let kept = minimax_markup::held_back(front);
    let rest = front.skip(front.len() - kept) + back;
    if minimax_markup::ends_with_part(whole, marker, k) {
        if k <= rest.len() {
            assert(whole.skip(whole.len() - k) =~= rest.skip(rest.len() - k));
        } else {
            let n = k - back.len();
            assert forall|j: int| 0 <= j < n implies front.skip(front.len() - n)[j] == marker.take(
                n,
            )[j] by {
                assert(whole.skip(whole.len() - k)[j] == whole[whole.len() - k + j]);
                assert(marker.take(k)[j] == marker[j]);
            }
            assert(front.skip(front.len() - n) =~= marker.take(n));
            assert(minimax_markup::ends_with_part(front, marker, n));
            assert(minimax_markup::may_begin_marker(front, n));
        }
    }
}

/// No start marker begins before what is held back, so that the search for one may
/// begin there.
proof fn lemma_marker_behind(front: Seq<char>, back: Seq<char>, marker: Seq<char>)
    requires
        marker == BLOCK_START@ || marker == FUNCTION_START@,
        text::find(front, marker) is None,
    ensures
        ({
            let cut = front.len() - minimax_markup::held_back(front);
            text::find(front + back, marker) == match text::find(front.skip(cut) + back, marker) {
                Some(i) => Some(i + cut),
                None => None::<int>,
            }
        }),
{
    minimax_markup::lemma_held_back(front);
    let whole = front + back;
    let cut = front.len() - minimax_markup::held_back(front);
    assert(whole.skip(cut) =~= front.skip(cut) + back);
    assert forall|j: int| 0 <= j < cut implies !#[trigger] text::occurs_at(whole, marker, j) by {
        lemma_none_in_text(front, back, marker, j);
    }
    lemma_found_behind(whole, marker, cut);
}

/// Where there is no start marker, what is held back can stand for the whole buffer.
proof fn lemma_text_waits(front: Seq<char>, back: Seq<char>)
    requires
        minimax_markup::next_marker(front) is None,
    ensures
        ({
            let cut = front.len() - minimax_markup::held_back(front);
            minimax_markup::next_outside(front + back, false) == with_text(
                front.take(cut),
                minimax_markup::next_outside(front.skip(cut) + back, false),
            )
        }),
{
    minimax_markup::lemma_held_back(front);
    let whole = front + back;
    let cut = front.len() - minimax_markup::held_back(front);
    let before = front.take(cut);
    let after = front.skip(cut) + back;
    lemma_marker_behind(front, back, BLOCK_START@);
    lemma_marker_behind(front, back, FUNCTION_START@);
    match minimax_markup::next_marker(after) {
        None => {
            assert(minimax_markup::next_marker(whole) is None);
            lemma_held_back_splits(front, back);
            minimax_markup::lemma_held_back(after);
            let kept = minimax_markup::held_back(after);
            assert(whole.take(whole.len() - kept) =~= before + after.take(after.len() - kept));
            assert(whole.skip(whole.len() - kept) =~= after.skip(after.len() - kept));
        },
        Some((at, marker)) => {
            text::lemma_find_from(after, BLOCK_START@, 0);
            text::lemma_find_from(after, FUNCTION_START@, 0);
            assert(minimax_markup::next_marker(whole) == Some((at + cut, marker)));
            assert(whole.take(at + cut) =~= before + after.take(at));
            assert(whole.skip(at + cut) =~= after.skip(at));
            if marker is Block {
                assert(whole.skip(at + cut + BLOCK_START@.len()) =~= after.skip(
                    at + BLOCK_START@.len(),
                ));
            }
        },
    }
}

/// A bare invocation that waits can stand for the whole buffer.
proof fn lemma_bare_invoke_waits(front: Seq<char>, back: Seq<char>, at: int)
    requires
        minimax_markup::next_marker(front) == Some((at, Marker::BareInvoke)),
    ensures
        minimax_markup::next_outside(front + back, false) == with_text(
            front.take(at),
            minimax_markup::next_outside(front.skip(at) + back, false),
        ),
{
    minimax_markup::lemma_markers();
    text::lemma_find_from(front, BLOCK_START@, 0);
    text::lemma_find_from(front, FUNCTION_START@, 0);
    let whole = front + back;
    let before = front.take(at);
    let waiting = front.skip(at);
    let after = waiting + back;
    assert(whole.take(at) =~= before);
    assert(whole.skip(at) =~= after);
    lemma_found_in_front(front, back, FUNCTION_START@);
    lemma_none_before(front, back, BLOCK_START@, FUNCTION_START@, at);
    assert(minimax_markup::next_marker(whole) == Some((at, Marker::BareInvoke)));
    // In the rest the invocation begins at once.
    lemma_occurs_behind(front, FUNCTION_START@, at, 0);
    lemma_occurs_in_front(waiting, back, FUNCTION_START@, 0);
    text::lemma_found_at(after, FUNCTION_START@, 0, 0);
    text::lemma_find_from(after, BLOCK_START@, 0);
    if text::find(after, BLOCK_START@) == Some(0int) {
        lemma_not_both(after, FUNCTION_START@, BLOCK_START@, 0);
    }
    assert(minimax_markup::next_marker(after) == Some((0int, Marker::BareInvoke)));
    assert(after.skip(0) =~= after);
    assert(before + after.take(0) =~= before);
}

/// Where text was given out, what waits behind it can stand for the whole buffer.
proof fn lemma_outside_waits(front: Seq<char>, back: Seq<char>)
    requires
        minimax_markup::next_outside(front, false) is Wait,
    ensures
        match minimax_markup::next_outside(front, false) {
            Found::Wait { text, rest, in_block } => {
                &&& !in_block
                &&& minimax_markup::next_outside(front + back, false) == with_text(
                    text,
                    minimax_markup::next_outside(rest + back, false),
                )
            },
            _ => false,
        },
{
    match minimax_markup::next_marker(front) {
        None => {
            lemma_text_waits(front, back);
        },
        Some((at, marker)) => {
            lemma_bare_invoke_waits(front, back, at);
        },
    }
}

/// What is found does not change when more text follows.
proof fn lemma_stable(front: Seq<char>, back: Seq<char>, in_block: bool)
    requires
        !(minimax_markup::next_found(front, in_block, false) is Wait),
    ensures
        minimax_markup::next_found(front + back, in_block, false) == with_rest(
            minimax_markup::next_found(front, in_block, false),
            back,
        ),
{
    if in_block {
        lemma_block_stable(front, back);
    } else {
        lemma_outside_stable(front, back);
    }
}

/// What waits can stand for the whole buffer, but for the text already given out.
proof fn lemma_waits(front: Seq<char>, back: Seq<char>, in_block: bool)
    requires
        minimax_markup::next_found(front, in_block, false) is Wait,
    ensures
        match minimax_markup::next_found(front, in_block, false) {
            Found::Wait { text, rest, in_block: inside } => {
                &&& inside == in_block
                &&& in_block ==> text.len() == 0
                &&& minimax_markup::next_found(front + back, in_block, false) == with_text(
                    text,
                    minimax_markup::next_found(rest + back, in_block, false),
                )
            },
            _ => false,
        },
{
    if in_block {
        lemma_block_waits(front, back);
        match minimax_markup::next_in_block(front, false) {
            Found::Wait { text, rest, .. } => {
                let found = minimax_markup::next_in_block(rest + back, false);
                assert(with_text(text, found) =~= found);
            },
            _ => {},
        }
    } else {
        lemma_outside_waits(front, back);
    }
}

/// Draining what waits and then more is draining both at once.
proof fn lemma_drained_in_parts(state: ParserState, back: Seq<char>)
    ensures
        ({
            let whole = minimax_m2::drained(minimax_m2::fed(state, back), false);
            match minimax_m2::drained(state, false) {
                (mid, Ok(out)) => whole == minimax_m2::preceded(
                    out,
                    minimax_m2::drained(minimax_m2::fed(mid, back), false),
                ),
                (mid, Err(failure)) => whole.1 == Err::<Output, Failure>(failure),
            }
        }),
    decreases state.buffer.len(),
{
    let found = minimax_markup::next_found(state.buffer, state.in_block, false);
    minimax_markup::lemma_found_shrinks(state.buffer, state.in_block, false);
    match found {
        Found::Wait { text, rest, in_block } => {
            lemma_waits(state.buffer, back, state.in_block);
            lemma_drained_behind_text(state, text, rest, back);
        },
        Found::Open { text, rest } => {
            lemma_stable(state.buffer, back, state.in_block);
            let next = ParserState {
                buffer: rest,
                in_block: true,
                suppress_normal_text: true,
                ..state
            };
            lemma_drained_in_parts(next, back);
            lemma_join_parts(minimax_m2::shown(state, text), next, back);
        },
        Found::Close { rest } => {
            lemma_stable(state.buffer, back, state.in_block);
            let next = ParserState {
                buffer: rest,
                in_block: false,
                suppress_normal_text: false,
                ..state
            };
            lemma_drained_in_parts(next, back);
        },
        Found::Invoke { text, invoke, rest } => {
            lemma_stable(state.buffer, back, state.in_block);
            match minimax_m2::call_made(invoke, state.next_index, state.tools) {
                Err(failure) => {},
                Ok(None) => {
                    let next = ParserState { buffer: rest, ..state };
                    lemma_drained_in_parts(next, back);
                    lemma_join_parts(minimax_m2::shown(state, text), next, back);
                },
                Ok(Some(call)) => {
                    let next = ParserState {
                        buffer: rest,
                        suppress_normal_text: true,
                        next_index: state.next_index + 1,
                        ..state
                    };
                    lemma_drained_in_parts(next, back);
                    lemma_join_parts(
                        Output { calls: seq![call], ..minimax_m2::shown(state, text) },
                        next,
                        back,
                    );
                },
            }
        },
    }
}

/// An output before two parts is an output before the first of them.
proof fn lemma_join_parts(output: Output, next: ParserState, back: Seq<char>)
    ensures
        minimax_m2::drained(next, false) matches (mid, Ok(out)) ==> ({
            let later = minimax_m2::drained(minimax_m2::fed(mid, back), false);
            minimax_m2::preceded(output, minimax_m2::preceded(out, later)) == minimax_m2::preceded(
                traits::followed_by(output, out),
                later,
            )
        }),
{
    if let (mid, Ok(out)) = minimax_m2::drained(next, false) {
        minimax_m2::lemma_preceded_twice(
            output,
            out,
            minimax_m2::drained(minimax_m2::fed(mid, back), false),
        );
    }
}

/// Text already given out comes before whatever comes behind it.
proof fn lemma_drained_behind_text(
    state: ParserState,
    text: Seq<char>,
    rest: Seq<char>,
    back: Seq<char>,
)
    requires
        state.in_block ==> text.len() == 0,
        minimax_markup::next_found(state.buffer + back, state.in_block, false) == with_text(
            text,
            minimax_markup::next_found(rest + back, state.in_block, false),
        ),
    ensures
        minimax_m2::drained(minimax_m2::fed(state, back), false) == minimax_m2::preceded(
            minimax_m2::shown(state, text),
            minimax_m2::drained(
                minimax_m2::fed(ParserState { buffer: rest, ..state }, back),
                false,
            ),
        ),
{
    let before = minimax_m2::shown(state, text);
    match minimax_markup::next_found(rest + back, state.in_block, false) {
        Found::Wait { text: t, rest: r, in_block } => {
            assert(minimax_m2::shown(state, text + t) =~= traits::followed_by(
                before,
                minimax_m2::shown(state, t),
            ));
        },
        Found::Open { text: t, rest: r } => {
            let next = ParserState {
                buffer: r,
                in_block: true,
                suppress_normal_text: true,
                ..state
            };
            assert(minimax_m2::shown(state, text + t) =~= traits::followed_by(
                before,
                minimax_m2::shown(state, t),
            ));
            minimax_m2::lemma_preceded_twice(
                before,
                minimax_m2::shown(state, t),
                minimax_m2::drained(next, false),
            );
        },
        Found::Close { rest: r } => {
            // A block that ends was open, and nothing in it is text.
            let next = ParserState {
                buffer: r,
                in_block: false,
                suppress_normal_text: false,
                ..state
            };
            assert(before =~= traits::no_output());
            minimax_m2::lemma_preceded_by_nothing(minimax_m2::drained(next, false));
        },
        Found::Invoke { text: t, invoke, rest: r } => {
            let shown = minimax_m2::shown(state, t);
            let more = minimax_m2::shown(state, text + t);
            assert(more =~= traits::followed_by(before, shown));
            match minimax_m2::call_made(invoke, state.next_index, state.tools) {
                Err(_) => {},
                Ok(None) => {
                    let next = ParserState { buffer: r, ..state };
                    minimax_m2::lemma_preceded_twice(
                        before,
                        shown,
                        minimax_m2::drained(next, false),
                    );
                },
                Ok(Some(call)) => {
                    let next = ParserState {
                        buffer: r,
                        suppress_normal_text: true,
                        next_index: state.next_index + 1,
                        ..state
                    };
                    let with_call = Output { calls: seq![call], ..shown };
                    assert(Output { calls: seq![call], ..more } =~= traits::followed_by(
                        before,
                        with_call,
                    ));
                    minimax_m2::lemma_preceded_twice(
                        before,
                        with_call,
                        minimax_m2::drained(next, false),
                    );
                },
            }
        },
    }
}

/// Text and calls, and then what comes later: the text before its text, the calls
/// before its calls. Where what comes later fails, so does the whole.
pub open spec fn led_by(
    text: Seq<char>,
    calls: Seq<CallPiece>,
    later: (ParserState, Result<Output, Failure>),
) -> (ParserState, Result<Output, Failure>) {
    match later {
        (end, Ok(more)) => (
            end,
            Ok(Output { normal_text: text + more.normal_text, calls: calls + more.calls }),
        ),
        (end, Err(failure)) => (end, Err(failure)),
    }
}

/// Two chunks one after the other bring what both bring as one chunk: the same state
/// and, taken together, the same output. If the first one fails, the one chunk fails
/// the same way.
pub proof fn law_two_chunks(state: ParserState, first: Seq<char>, second: Seq<char>)
    ensures
        match minimax_m2::drained(
            ParserState { buffer: state.buffer + first, ..state },
            false,
        ) {
            (mid, Ok(out)) => minimax_m2::drained(
                ParserState { buffer: state.buffer + first + second, ..state },
                false,
            ) == led_by(
                out.normal_text,
                out.calls,
                minimax_m2::drained(ParserState { buffer: mid.buffer + second, ..mid }, false),
            ),
            (mid, Err(failure)) => minimax_m2::drained(
                ParserState { buffer: state.buffer + first + second, ..state },
                false,
            ).1 == Err::<Output, Failure>(failure),
        },
        match minimax_m2::pushed(state, first) {
            (mid, Ok(out)) => minimax_m2::pushed(state, first + second) == minimax_m2::preceded(
                out,
                minimax_m2::pushed(mid, second),
            ),
            (mid, Err(failure)) => minimax_m2::pushed(state, first + second).1 == Err::<
                Output,
                Failure,
            >(failure),
        },
{
    lemma_drained_in_parts(minimax_m2::fed(state, first), second);
    assert(minimax_m2::fed(minimax_m2::fed(state, first), second) =~= minimax_m2::fed(
        state,
        first + second,
    ));
}

/// What chunks bring, one after the other, up to the first that fails.
pub open spec fn pushed_all(state: ParserState, chunks: Seq<Seq<char>>) -> (
    ParserState,
    Result<Output, Failure>,
)
    decreases chunks.len(),
{
    if chunks.len() == 0 {
        (state, Ok(Output { normal_text: Seq::empty(), calls: Seq::empty() }))
    } else {
        match minimax_m2::drained(
            ParserState { buffer: state.buffer + chunks.first(), ..state },
            false,
        ) {
            (mid, Ok(out)) => led_by(
                out.normal_text,
                out.calls,
                pushed_all(mid, chunks.drop_first()),
            ),
            (mid, Err(failure)) => (mid, Err(failure)),
        }
    }
}

/// What a whole stream brings: its chunks, and its end.
pub open spec fn streamed(tools: Seq<ToolSchema>, chunks: Seq<Seq<char>>) -> Result<
    Output,
    Failure,
> {
    let start = ParserState {
        buffer: Seq::empty(),
        in_block: false,
        suppress_normal_text: false,
        next_index: 0,
        tools,
    };
    match pushed_all(start, chunks) {
        (mid, Ok(out)) => led_by(out.normal_text, out.calls, minimax_m2::drained(mid, true)).1,
        (mid, Err(failure)) => Err(failure),
    }
}

/// Chunks bring what their text brings as one chunk.
proof fn lemma_chunks_as_one(state: ParserState, chunks: Seq<Seq<char>>)
    requires
        chunks.len() > 0,
    ensures
        ({
            let parts = pushed_all(state, chunks);
            let whole = minimax_m2::pushed(state, chunks.flatten());
            &&& parts.1 == whole.1
            &&& parts.1 is Ok ==> parts.0 == whole.0
        }),
    decreases chunks.len(),
{
    let first = chunks.first();
    let rest = chunks.drop_first();
    assert(chunks.flatten() == first + rest.flatten());
    law_two_chunks(state, first, rest.flatten());
    if let (mid, Ok(out)) = minimax_m2::pushed(state, first) {
        if rest.len() == 0 {
            assert(rest.flatten() =~= Seq::<char>::empty());
            assert(first + rest.flatten() =~= first);
            assert(traits::followed_by(out, traits::no_output()) =~= out);
        } else {
            lemma_chunks_as_one(mid, rest);
        }
    }
}

/// An empty chunk at the beginning of a stream brings nothing.
proof fn lemma_fresh_waits(tools: Seq<ToolSchema>)
    ensures
        minimax_m2::pushed(minimax_m2::fresh(tools), Seq::empty()) == (
            minimax_m2::fresh(tools),
            Ok::<Output, Failure>(traits::no_output()),
        ),
{
    let state = minimax_m2::fresh(tools);
    minimax_markup::lemma_markers();
    minimax_markup::lemma_held_back(state.buffer);
    assert(minimax_m2::fed(state, Seq::empty()) =~= state);
    text::lemma_find_from(state.buffer, BLOCK_START@, 0);
    text::lemma_find_from(state.buffer, FUNCTION_START@, 0);
    let empty = Seq::<char>::empty();
    assert(empty.take(0) =~= empty);
    assert(empty.skip(0) =~= empty);
    assert(minimax_m2::shown(state, empty) =~= traits::no_output());
}

/// What a stream brings depends on its text alone, not on where the text was cut into
/// chunks: markers that a cut goes through are recognised all the same.
pub proof fn law_chunking_is_irrelevant(
    tools: Seq<ToolSchema>,
    chunks: Seq<Seq<char>>,
    others: Seq<Seq<char>>,
)
    requires
        chunks.flatten() == others.flatten(),
    ensures
        streamed(tools, chunks) == streamed(tools, others),
{
    lemma_stream_as_one(tools, chunks);
    lemma_stream_as_one(tools, others);
}

/// A stream brings what it brings as one chunk.
proof fn lemma_stream_as_one(tools: Seq<ToolSchema>, chunks: Seq<Seq<char>>)
    ensures
        streamed(tools, chunks) == match minimax_m2::pushed(
            minimax_m2::fresh(tools),
            chunks.flatten(),
        ) {
            (mid, Ok(out)) => minimax_m2::preceded(out, minimax_m2::finished(mid)).1,
            (mid, Err(failure)) => Err(failure),
        },
{
    if chunks.len() == 0 {
        assert(chunks.flatten() =~= Seq::<char>::empty());
        lemma_fresh_waits(tools);
    } else {
        lemma_chunks_as_one(minimax_m2::fresh(tools), chunks);
    }
}

/// Behind a chunk nothing is left that could have been told already: an empty chunk
/// brings nothing and changes nothing.
pub proof fn law_nothing_is_overdue(state: ParserState, chunk: Seq<char>)
    ensures
        minimax_m2::pushed(state, chunk) matches (mid, Ok(out)) ==> minimax_m2::pushed(
            mid,
            Seq::empty(),
        ) == (mid, Ok::<Output, Failure>(traits::no_output())),
{
    let none = Seq::<char>::empty();
    law_two_chunks(state, chunk, none);
    assert(chunk + none =~= chunk);
    if let (mid, Ok(out)) = minimax_m2::pushed(state, chunk) {
        let again = minimax_m2::pushed(mid, none);
        assert(again.0 == mid);
        let more = again.1->Ok_0;
        let both = traits::followed_by(out, more);
        assert(both == out);
        assert(both.normal_text.len() == out.normal_text.len() + more.normal_text.len());
        assert(both.calls.len() == out.calls.len() + more.calls.len());
        assert(more =~= traits::no_output());
    }
}

/// Calls are numbered one after the other, and each comes whole, with its name.
pub proof fn law_calls_are_numbered(state: ParserState, flush: bool)
    ensures
        minimax_m2::drained(state, flush) matches (mid, Ok(out)) ==> {
            &&& mid.next_index == state.next_index + out.calls.len()
            &&& forall|i: int|
                0 <= i < out.calls.len() ==> (#[trigger] out.calls[i]).tool_index
                    == state.next_index + i && out.calls[i].name is Some
        },
    decreases state.buffer.len(),
{
    minimax_markup::lemma_found_shrinks(state.buffer, state.in_block, flush);
    match minimax_markup::next_found(state.buffer, state.in_block, flush) {
        Found::Wait { .. } => {},
        Found::Open { text, rest } => {
            law_calls_are_numbered(
                ParserState { buffer: rest, in_block: true, suppress_normal_text: true, ..state },
                flush,
            );
        },
        Found::Close { rest } => {
            law_calls_are_numbered(
                ParserState { buffer: rest, in_block: false, suppress_normal_text: false, ..state },
                flush,
            );
        },
        Found::Invoke { text, invoke, rest } => match minimax_m2::call_made(
            invoke,
            state.next_index,
            state.tools,
        ) {
            Err(_) => {},
            Ok(None) => {
                law_calls_are_numbered(ParserState { buffer: rest, ..state }, flush);
            },
            Ok(Some(call)) => {
                law_calls_are_numbered(
                    ParserState {
                        buffer: rest,
                        suppress_normal_text: true,
                        next_index: state.next_index + 1,
                        ..state
                    },
                    flush,
                );
            },
        },
    }
}

/// The calls that one push or finish gives are whole: joining their pieces changes
/// nothing.
pub proof fn law_calls_come_whole(state: ParserState, flush: bool)
    ensures
        minimax_m2::drained(state, flush) matches (mid, Ok(out)) ==> traits::coalesced(out.calls)
            == out.calls,
{
    law_calls_are_numbered(state, flush);
    if let (mid, Ok(out)) = minimax_m2::drained(state, flush) {
        traits::law_coalescing_keeps_whole_calls(out.calls);
    }
}

/// The tools that were offered stay known, whatever is drained and whether it fails.
pub proof fn law_tools_are_kept(state: ParserState, flush: bool)
    ensures
        minimax_m2::drained(state, flush).0.tools == state.tools,
    decreases state.buffer.len(),
{
    minimax_markup::lemma_found_shrinks(state.buffer, state.in_block, flush);
    match minimax_markup::next_found(state.buffer, state.in_block, flush) {
        Found::Wait { .. } => {},
        Found::Open { text, rest } => {
            law_tools_are_kept(
                ParserState { buffer: rest, in_block: true, suppress_normal_text: true, ..state },
                flush,
            );
        },
        Found::Close { rest } => {
            law_tools_are_kept(
                ParserState { buffer: rest, in_block: false, suppress_normal_text: false, ..state },
                flush,
            );
        },
        Found::Invoke { text, invoke, rest } => match minimax_m2::call_made(
            invoke,
            state.next_index,
            state.tools,
        ) {
            Err(_) => {},
            Ok(None) => {
                law_tools_are_kept(ParserState { buffer: rest, ..state }, flush);
            },
            Ok(Some(call)) => {
                law_tools_are_kept(
                    ParserState {
                        buffer: rest,
                        suppress_normal_text: true,
                        next_index: state.next_index + 1,
                        ..state
                    },
                    flush,
                );
            },
        },
    }
}

/// The end of the stream leaves nothing waiting and no block open, and a second end
/// brings nothing more.
pub proof fn law_finish_clears(state: ParserState)
    ensures
        minimax_m2::finished(state) matches (end, Ok(out)) ==> {
            &&& end.buffer == Seq::<char>::empty()
            &&& !end.in_block
            &&& minimax_m2::finished(end) == (end, Ok::<Output, Failure>(traits::no_output()))
        },
    decreases state.buffer.len(),
{
    minimax_markup::lemma_found_shrinks(state.buffer, state.in_block, true);
    match minimax_markup::next_found(state.buffer, state.in_block, true) {
        Found::Wait { text, rest, in_block } => {
            let empty = Seq::<char>::empty();
            assert(rest =~= empty);
            let end = ParserState { buffer: rest, in_block, ..state };
            minimax_markup::lemma_markers();
            text::lemma_find_from(empty, BLOCK_START@, 0);
            text::lemma_find_from(empty, FUNCTION_START@, 0);
            assert(empty.take(0) =~= empty);
            assert(empty.skip(0) =~= empty);
            assert(minimax_m2::shown(end, empty) =~= traits::no_output());
        },
        Found::Open { text, rest } => {
            law_finish_clears(
                ParserState { buffer: rest, in_block: true, suppress_normal_text: true, ..state },
            );
        },
        Found::Close { rest } => {
            law_finish_clears(
                ParserState { buffer: rest, in_block: false, suppress_normal_text: false, ..state },
            );
        },
        Found::Invoke { text, invoke, rest } => match minimax_m2::call_made(
            invoke,
            state.next_index,
            state.tools,
        ) {
            Err(_) => {},
            Ok(None) => {
                law_finish_clears(ParserState { buffer: rest, ..state });
            },
            Ok(Some(call)) => {
                law_finish_clears(
                    ParserState {
                        buffer: rest,
                        suppress_normal_text: true,
                        next_index: state.next_index + 1,
                        ..state
                    },
                );
            },
        },
    }
}

/// What is found is found at the end of the stream too.
proof fn lemma_found_at_end(buffer: Seq<char>, in_block: bool)
    ensures
        !(minimax_markup::next_found(buffer, in_block, false) is Wait)
            ==> minimax_markup::next_found(buffer, in_block, true) == minimax_markup::next_found(
            buffer,
            in_block,
            false,
        ),
{
}

/// What is not in a text is not in its rest.
proof fn lemma_not_in_rest(text: Seq<char>, needle: Seq<char>, k: int)
    requires
        0 <= k <= text.len(),
        text::find(text, needle) is None,
    ensures
        text::find(text.skip(k), needle) is None,
{
    text::lemma_find_from(text, needle, 0);
    assert forall|j: int| 0 <= j implies !#[trigger] text::occurs_at(text.skip(k), needle, j) by {
        lemma_occurs_behind(text, needle, k, j);
    }
    text::lemma_not_found(text.skip(k), needle, 0);
}

/// At the end of the stream, too, what waits can stand for the whole buffer.
proof fn lemma_waits_at_end(buffer: Seq<char>, in_block: bool)
    requires
        minimax_markup::next_found(buffer, in_block, false) is Wait,
    ensures
        match minimax_markup::next_found(buffer, in_block, false) {
            Found::Wait { text, rest, .. } => match minimax_markup::next_found(
                rest,
                in_block,
                true,
            ) {
                Found::Wait { text: t, rest: r, in_block: inside } => minimax_markup::next_found(
                    buffer,
                    in_block,
                    true,
                ) == (Found::Wait { text: text + t, rest: r, in_block: inside }),
                _ => false,
            },
            _ => false,
        },
{
    minimax_markup::lemma_markers();
    minimax_markup::lemma_held_back(buffer);
    text::lemma_find_from(buffer, BLOCK_START@, 0);
    text::lemma_find_from(buffer, BLOCK_END@, 0);
    text::lemma_find_from(buffer, FUNCTION_START@, 0);
    let none = Seq::<char>::empty();
    if let Some(s) = text::find(buffer, FUNCTION_START@) {
        // The invocation that waits begins the rest.
        let waiting = buffer.skip(s);
        lemma_occurs_behind(buffer, FUNCTION_START@, s, 0);
        text::lemma_found_at(waiting, FUNCTION_START@, 0, 0);
        text::lemma_find_from(waiting, BLOCK_START@, 0);
        text::lemma_find_from(waiting, BLOCK_END@, 0);
        if text::find(waiting, BLOCK_START@) == Some(0int) {
            lemma_not_both(waiting, FUNCTION_START@, BLOCK_START@, 0);
        }
        if text::find(waiting, BLOCK_END@) == Some(0int) {
            lemma_not_both(waiting, FUNCTION_START@, BLOCK_END@, 0);
        }
        assert(waiting.skip(0) =~= waiting);
        assert(waiting.take(0) =~= none);
        assert(none + none =~= none);
        assert(buffer.take(s) + none =~= buffer.take(s));
    } else if in_block {
        assert(none + none =~= none);
    } else {
        let cut = buffer.len() - minimax_markup::held_back(buffer);
        let rest = buffer.skip(cut);
        lemma_not_in_rest(buffer, BLOCK_START@, cut);
        lemma_not_in_rest(buffer, FUNCTION_START@, cut);
        assert(buffer.take(cut) + rest.take(rest.len() as int) =~= buffer.take(
            buffer.len() as int,
        ));
        assert(buffer.skip(buffer.len() as int) =~= rest.skip(rest.len() as int));
    }
}

/// Draining what can be told already and then, at the end of the stream, the rest is
/// draining everything at the end.
proof fn lemma_drained_before_end(state: ParserState)
    ensures
        match minimax_m2::drained(state, false) {
            (mid, Ok(out)) => minimax_m2::drained(state, true) == minimax_m2::preceded(
                out,
                minimax_m2::drained(mid, true),
            ),
            (mid, Err(failure)) => minimax_m2::drained(state, true) == (
                mid,
                Err::<Output, Failure>(failure),
            ),
        },
    decreases state.buffer.len(),
{
    minimax_markup::lemma_found_shrinks(state.buffer, state.in_block, false);
    lemma_found_at_end(state.buffer, state.in_block);
    match minimax_markup::next_found(state.buffer, state.in_block, false) {
        Found::Wait { text, rest, in_block } => {
            lemma_waits_at_end(state.buffer, state.in_block);
            lemma_waits(state.buffer, Seq::empty(), state.in_block);
            let mid = ParserState { buffer: rest, in_block, ..state };
            assert(in_block == state.in_block);
            if let Found::Wait { text: t, rest: r, in_block: inside } =
                minimax_markup::next_found(rest, in_block, true) {
                assert(minimax_m2::shown(state, text + t) =~= traits::followed_by(
                    minimax_m2::shown(state, text),
                    minimax_m2::shown(mid, t),
                ));
            }
        },
        Found::Open { text, rest } => {
            let next = ParserState {
                buffer: rest,
                in_block: true,
                suppress_normal_text: true,
                ..state
            };
            lemma_drained_before_end(next);
            lemma_join_end(minimax_m2::shown(state, text), next);
        },
        Found::Close { rest } => {
            lemma_drained_before_end(
                ParserState { buffer: rest, in_block: false, suppress_normal_text: false, ..state },
            );
        },
        Found::Invoke { text, invoke, rest } => match minimax_m2::call_made(
            invoke,
            state.next_index,
            state.tools,
        ) {
            Err(_) => {},
            Ok(None) => {
                let next = ParserState { buffer: rest, ..state };
                lemma_drained_before_end(next);
                lemma_join_end(minimax_m2::shown(state, text), next);
            },
            Ok(Some(call)) => {
                let next = ParserState {
                    buffer: rest,
                    suppress_normal_text: true,
                    next_index: state.next_index + 1,
                    ..state
                };
                lemma_drained_before_end(next);
                lemma_join_end(
                    Output { calls: seq![call], ..minimax_m2::shown(state, text) },
                    next,
                );
            },
        },
    }
}

/// Behind a push or finish that succeeds no whole invocation is left: the stream may
/// end there.
pub proof fn law_nothing_whole_is_left(state: ParserState, flush: bool)
    ensures
        minimax_m2::drained(state, flush) matches (mid, Ok(_)) ==> {
            &&& minimax_markup::invokes(mid.buffer, mid.in_block, true).len() == 0
            &&& mid.next_index <= usize::MAX ==> minimax_m2::drainable(mid, true)
        },
    decreases state.buffer.len(),
{
    minimax_markup::lemma_found_shrinks(state.buffer, state.in_block, flush);
    match minimax_markup::next_found(state.buffer, state.in_block, flush) {
        Found::Wait { rest, in_block, .. } => {
            if flush {
                minimax_markup::lemma_markers();
                assert(rest =~= Seq::<char>::empty());
                text::lemma_find_from(rest, BLOCK_START@, 0);
                text::lemma_find_from(rest, FUNCTION_START@, 0);
            } else {
                lemma_waits(state.buffer, Seq::empty(), state.in_block);
                lemma_waits_at_end(state.buffer, state.in_block);
            }
        },
        Found::Open { text, rest } => {
            law_nothing_whole_is_left(
                ParserState { buffer: rest, in_block: true, suppress_normal_text: true, ..state },
                flush,
            );
        },
        Found::Close { rest } => {
            law_nothing_whole_is_left(
                ParserState { buffer: rest, in_block: false, suppress_normal_text: false, ..state },
                flush,
            );
        },
        Found::Invoke { text, invoke, rest } => match minimax_m2::call_made(
            invoke,
            state.next_index,
            state.tools,
        ) {
            Err(_) => {},
            Ok(None) => {
                law_nothing_whole_is_left(ParserState { buffer: rest, ..state }, flush);
            },
            Ok(Some(call)) => {
                law_nothing_whole_is_left(
                    ParserState {
                        buffer: rest,
                        suppress_normal_text: true,
                        next_index: state.next_index + 1,
                        ..state
                    },
                    flush,
                );
            },
        },
    }
}

/// An output before what comes up to the end is an output before its first part.
proof fn lemma_join_end(output: Output, next: ParserState)
    ensures
        minimax_m2::drained(next, false) matches (mid, Ok(out)) ==> ({
            let later = minimax_m2::drained(mid, true);
            minimax_m2::preceded(output, minimax_m2::preceded(out, later)) == minimax_m2::preceded(
                traits::followed_by(output, out),
                later,
            )
        }),
{
    if let (mid, Ok(out)) = minimax_m2::drained(next, false) {
        minimax_m2::lemma_preceded_twice(output, out, minimax_m2::drained(mid, true));
    }
}

/// What is noticed in what waits and then in more is what is noticed in both at once.
proof fn lemma_noticed_in_parts(state: ParserState, back: Seq<char>)
    ensures
        minimax_m2::noticed(minimax_m2::fed(state, back), false) == match minimax_m2::drained(
            state,
            false,
        ) {
            (mid, Ok(_)) => minimax_m2::noticed(state, false) + minimax_m2::noticed(
                minimax_m2::fed(mid, back),
                false,
            ),
            (mid, Err(_)) => minimax_m2::noticed(state, false),
        },
    decreases state.buffer.len(),
{
    minimax_markup::lemma_found_shrinks(state.buffer, state.in_block, false);
    match minimax_markup::next_found(state.buffer, state.in_block, false) {
        Found::Wait { text, rest, in_block } => {
            lemma_waits(state.buffer, back, state.in_block);
            let mid = ParserState { buffer: rest, in_block, ..state };
            let later = minimax_m2::noticed(minimax_m2::fed(mid, back), false);
            assert(minimax_m2::noticed(minimax_m2::fed(state, back), false) == later);
            assert(minimax_m2::noticed(state, false) + later =~= later);
        },
        Found::Open { text, rest } => {
            lemma_stable(state.buffer, back, state.in_block);
            lemma_noticed_in_parts(
                ParserState { buffer: rest, in_block: true, suppress_normal_text: true, ..state },
                back,
            );
        },
        Found::Close { rest } => {
            lemma_stable(state.buffer, back, state.in_block);
            lemma_noticed_in_parts(
                ParserState { buffer: rest, in_block: false, suppress_normal_text: false, ..state },
                back,
            );
        },
        Found::Invoke { text, invoke, rest } => {
            lemma_stable(state.buffer, back, state.in_block);
            match minimax_m2::call_made(invoke, state.next_index, state.tools) {
                Err(_) => {},
                Ok(None) => {
                    lemma_noticed_in_parts(ParserState { buffer: rest, ..state }, back);
                },
                Ok(Some(call)) => {
                    let next = ParserState {
                        buffer: rest,
                        suppress_normal_text: true,
                        next_index: state.next_index + 1,
                        ..state
                    };
                    lemma_noticed_in_parts(next, back);
                    if let (mid, Ok(_)) = minimax_m2::drained(next, false) {
                        let later = minimax_m2::noticed(minimax_m2::fed(mid, back), false);
                        assert(minimax_m2::noticed(minimax_m2::fed(state, back), false)
                            =~= minimax_m2::noticed(state, false) + later);
                    }
                },
            }
        },
    }
}

/// Two chunks one after the other make noticed what both make noticed as one chunk. If
/// the first one fails, nothing in the second one is noticed.
pub proof fn law_notices_of_two_chunks(state: ParserState, first: Seq<char>, second: Seq<char>)
    ensures
        ({
            let before = minimax_m2::noticed(minimax_m2::fed(state, first), false);
            minimax_m2::noticed(minimax_m2::fed(state, first + second), false)
                == match minimax_m2::pushed(state, first) {
                (mid, Ok(_)) => before + minimax_m2::noticed(
                    minimax_m2::fed(mid, second),
                    false,
                ),
                (mid, Err(_)) => before,
            }
        }),
{
    lemma_noticed_in_parts(minimax_m2::fed(state, first), second);
    assert(minimax_m2::fed(minimax_m2::fed(state, first), second) =~= minimax_m2::fed(
        state,
        first + second,
    ));
}

/// What is lost at the end of the stream is the same whether what can be told already
/// was taken before or not.
pub proof fn law_notices_before_end(state: ParserState)
    ensures
        minimax_m2::noticed(state, true) == match minimax_m2::drained(state, false) {
            (mid, Ok(_)) => minimax_m2::noticed(state, false) + minimax_m2::noticed(mid, true),
            (mid, Err(_)) => minimax_m2::noticed(state, false),
        },
    decreases state.buffer.len(),
{
    minimax_markup::lemma_found_shrinks(state.buffer, state.in_block, false);
    lemma_found_at_end(state.buffer, state.in_block);
    match minimax_markup::next_found(state.buffer, state.in_block, false) {
        Found::Wait { text, rest, in_block } => {
            lemma_waits(state.buffer, Seq::empty(), state.in_block);
            lemma_waits_at_end(state.buffer, state.in_block);
            lemma_dropped_from_rest(state.buffer, state.in_block);
            let mid = ParserState { buffer: rest, in_block, ..state };
            let later = minimax_m2::noticed(mid, true);
            assert(minimax_m2::noticed(state, false) + later =~= later);
        },
        Found::Open { text, rest } => {
            law_notices_before_end(
                ParserState { buffer: rest, in_block: true, suppress_normal_text: true, ..state },
            );
        },
        Found::Close { rest } => {
            law_notices_before_end(
                ParserState { buffer: rest, in_block: false, suppress_normal_text: false, ..state },
            );
        },
        Found::Invoke { text, invoke, rest } => match minimax_m2::call_made(
            invoke,
            state.next_index,
            state.tools,
        ) {
            Err(_) => {},
            Ok(None) => {
                law_notices_before_end(ParserState { buffer: rest, ..state });
            },
            Ok(Some(call)) => {
                let next = ParserState {
                    buffer: rest,
                    suppress_normal_text: true,
                    next_index: state.next_index + 1,
                    ..state
                };
                law_notices_before_end(next);
                if let (mid, Ok(_)) = minimax_m2::drained(next, false) {
                    assert(minimax_m2::noticed(state, true) =~= minimax_m2::noticed(state, false)
                        + minimax_m2::noticed(mid, true));
                }
            },
        },
    }
}

/// What would be lost from a buffer would be lost from the part of it that waits.
proof fn lemma_dropped_from_rest(buffer: Seq<char>, in_block: bool)
    ensures
        minimax_markup::next_found(buffer, in_block, false) matches Found::Wait { rest, .. }
            ==> minimax_m2::dropped(rest, in_block) == minimax_m2::dropped(buffer, in_block),
{
    minimax_markup::lemma_markers();
    minimax_markup::lemma_held_back(buffer);
    text::lemma_find_from(buffer, FUNCTION_START@, 0);
    if let Some(s) = text::find(buffer, FUNCTION_START@) {
        lemma_occurs_behind(buffer, FUNCTION_START@, s, 0);
        text::lemma_found_at(buffer.skip(s), FUNCTION_START@, 0, 0);
    } else if !in_block && text::find(buffer, BLOCK_START@) is None {
        let cut = buffer.len() - minimax_markup::held_back(buffer);
        lemma_not_in_rest(buffer, BLOCK_START@, cut);
        lemma_not_in_rest(buffer, FUNCTION_START@, cut);
    }
}

/// The whole text at once: what a stream brings is what draining its complete text
/// brings.
pub proof fn law_stream_is_whole_text(tools: Seq<ToolSchema>, chunks: Seq<Seq<char>>)
    ensures
        streamed(tools, chunks) == minimax_m2::drained(
            ParserState {
                buffer: chunks.flatten(),
                in_block: false,
                suppress_normal_text: false,
                next_index: 0,
                tools,
            },
            true,
        ).1,
{
    assert(minimax_m2::fed(minimax_m2::fresh(tools), chunks.flatten()).buffer =~= chunks.flatten());
    lemma_stream_as_one(tools, chunks);
    lemma_drained_before_end(minimax_m2::fed(minimax_m2::fresh(tools), chunks.flatten()));
}

/// The calls of a stream are numbered from zero, and joining their pieces changes
/// nothing.
pub proof fn law_stream_calls_are_numbered(tools: Seq<ToolSchema>, chunks: Seq<Seq<char>>)
    ensures
        streamed(tools, chunks) matches Ok(out) ==> {
            &&& forall|i: int|
                0 <= i < out.calls.len() ==> (#[trigger] out.calls[i]).tool_index == i
            &&& traits::coalesced(out.calls) == out.calls
        },
{
    law_stream_is_whole_text(tools, chunks);
    let state = minimax_m2::fed(minimax_m2::fresh(tools), chunks.flatten());
    law_calls_are_numbered(state, true);
    law_calls_come_whole(state, true);
}

/// Text that holds no start marker.
pub open spec fn plain(text: Seq<char>) -> bool {
    text::find(text, BLOCK_START@) is None && text::find(text, FUNCTION_START@) is None
}

/// At the end of the stream, outside a block, plain text is given out whole, however
/// many calls came before, unless text is suppressed; nothing waits behind it.
pub proof fn law_text_is_given_out(state: ParserState)
    requires
        plain(state.buffer),
        !state.in_block,
    ensures
        minimax_m2::drained(state, true).0 == (ParserState { buffer: Seq::empty(), ..state }),
        !state.suppress_normal_text ==> minimax_m2::drained(state, true).1 == Ok::<
            Output,
            Failure,
        >(Output { normal_text: state.buffer, calls: Seq::empty() }),
        state.suppress_normal_text ==> minimax_m2::drained(state, true).1 == Ok::<Output, Failure>(
            Output { normal_text: Seq::empty(), calls: Seq::empty() },
        ),
        minimax_m2::noticed(state, true) == Seq::<Notice>::empty(),
{
    assert(state.buffer.take(state.buffer.len() as int) =~= state.buffer);
    assert(state.buffer.skip(state.buffer.len() as int) =~= Seq::empty());
}

/// At the end of the stream, outside a block, plain text is given out as it is.
proof fn lemma_plain(state: ParserState)
    requires
        plain(state.buffer),
        !state.in_block,
    ensures
        minimax_m2::drained(state, true).1 == Ok::<Output, Failure>(
            minimax_m2::shown(state, state.buffer),
        ),
{
    law_text_is_given_out(state);
}

/// A stream of plain text brings that text and no calls.
pub proof fn law_plain_text_passes(tools: Seq<ToolSchema>, chunks: Seq<Seq<char>>)
    requires
        plain(chunks.flatten()),
    ensures
        streamed(tools, chunks) == Ok::<Output, Failure>(
            Output { normal_text: chunks.flatten(), calls: Seq::empty() },
        ),
{
    law_stream_is_whole_text(tools, chunks);
    let state = minimax_m2::fed(minimax_m2::fresh(tools), chunks.flatten());
    assert(state.buffer =~= chunks.flatten());
    lemma_plain(state);
}

/// A marker that is not in the front part does not begin there, if what follows begins
/// with a marker too.
proof fn lemma_clear(front: Seq<char>, back: Seq<char>, marker: Seq<char>, next: Seq<char>)
    requires
        text::find(front, marker) is None,
        text::occurs_at(back, next, 0),
        next.len() > 0,
        next[0] == '<',
        forall|k: int| 0 < k < marker.len() ==> #[trigger] marker[k] != '<',
    ensures
        forall|j: int| 0 <= j < front.len() ==> !#[trigger] text::occurs_at(front + back, marker, j),
{
    let whole = front + back;
    text::lemma_find_from(front, marker, 0);
    assert(whole.skip(front.len() as int) =~= back);
    lemma_occurs_behind(whole, next, front.len() as int, 0);
    assert forall|j: int| 0 <= j < front.len() implies !#[trigger] text::occurs_at(
        whole,
        marker,
        j,
    ) by {
        if text::occurs_at(whole, marker, j) {
            lemma_no_overlap(whole, marker, next, j, front.len() as int);
            lemma_occurs_in_front(front, back, marker, j);
        }
    }
}

/// A marker behind a part that does not hold it is found there.
pub proof fn lemma_found_next(front: Seq<char>, marker: Seq<char>, back: Seq<char>)
    requires
        text::find(front, marker) is None,
        marker.len() > 0,
        marker[0] == '<',
        forall|k: int| 0 < k < marker.len() ==> #[trigger] marker[k] != '<',
    ensures
        text::find(front + (marker + back), marker) == Some(front.len() as int),
{
    let rest = marker + back;
    assert(rest.subrange(0, marker.len() as int) =~= marker);
    lemma_clear(front, rest, marker, marker);
    let whole = front + rest;
    assert(whole.skip(front.len() as int) =~= rest);
    lemma_occurs_behind(whole, marker, front.len() as int, 0);
    text::lemma_found_at(whole, marker, 0, front.len() as int);
}

/// A marker that is not in the front part is not found before another one behind it.
proof fn lemma_not_found_before(
    front: Seq<char>,
    other: Seq<char>,
    marker: Seq<char>,
    back: Seq<char>,
)
    requires
        text::find(front, other) is None,
        marker.len() > 1,
        other.len() > 1,
        marker[0] == '<',
        marker[1] != other[1],
        forall|k: int| 0 < k < other.len() ==> #[trigger] other[k] != '<',
    ensures
        text::find(front + (marker + back), other) matches Some(i) ==> front.len() < i,
{
    let rest = marker + back;
    let whole = front + rest;
    assert(rest.subrange(0, marker.len() as int) =~= marker);
    lemma_clear(front, rest, other, marker);
    assert(whole.skip(front.len() as int) =~= rest);
    lemma_occurs_behind(whole, marker, front.len() as int, 0);
    text::lemma_find_from(whole, other, 0);
    if text::find(whole, other) == Some(front.len() as int) {
        lemma_not_both(whole, other, marker, front.len() as int);
    }
}

/// A block opens behind plain text.
proof fn lemma_opens(before: Seq<char>, back: Seq<char>, flush: bool)
    requires
        plain(before),
    ensures
        minimax_markup::next_found(before + (BLOCK_START@ + back), false, flush) == (Found::Open {
            text: before,
            rest: back,
        }),
{
    minimax_markup::lemma_markers();
    let whole = before + (BLOCK_START@ + back);
    lemma_found_next(before, BLOCK_START@, back);
    lemma_not_found_before(before, FUNCTION_START@, BLOCK_START@, back);
    assert(whole.take(before.len() as int) =~= before);
    assert(whole.skip(before.len() as int + BLOCK_START@.len()) =~= back);
}

/// A block closes behind what holds no invocation.
proof fn lemma_closes(gap: Seq<char>, back: Seq<char>, flush: bool)
    requires
        text::find(gap, FUNCTION_START@) is None,
        text::find(gap, BLOCK_END@) is None,
    ensures
        minimax_markup::next_found(gap + (BLOCK_END@ + back), true, flush) == (Found::Close {
            rest: back,
        }),
{
    minimax_markup::lemma_markers();
    let whole = gap + (BLOCK_END@ + back);
    lemma_found_next(gap, BLOCK_END@, back);
    lemma_not_found_before(gap, FUNCTION_START@, BLOCK_END@, back);
    assert(whole.skip(gap.len() as int + BLOCK_END@.len()) =~= back);
}

/// A whole invocation: it begins with its opening marker, and its closing marker
/// stands at its end and nowhere before.
pub open spec fn whole_invoke(invoke: Seq<char>) -> bool {
    &&& text::occurs_at(invoke, FUNCTION_START@, 0)
    &&& text::find(invoke, FUNCTION_END@) == Some(invoke.len() - FUNCTION_END@.len())
}

/// An invocation is found behind what holds no other marker.
proof fn lemma_invoke_found(gap: Seq<char>, invoke: Seq<char>, back: Seq<char>, in_block: bool)
    requires
        whole_invoke(invoke),
        text::find(gap, FUNCTION_START@) is None,
        in_block ==> text::find(gap, BLOCK_END@) is None,
        !in_block ==> text::find(gap, BLOCK_START@) is None,
    ensures
        minimax_markup::next_found(gap + (invoke + back), in_block, true) == (Found::Invoke {
            text: if in_block {
                Seq::empty()
            } else {
                gap
            },
            invoke,
            rest: back,
        }),
{
    minimax_markup::lemma_markers();
    let whole = gap + (invoke + back);
    let tail = invoke.skip(FUNCTION_START@.len() as int) + back;
    assert(invoke =~= FUNCTION_START@ + invoke.skip(FUNCTION_START@.len() as int)) by {
        assert(invoke.subrange(0, FUNCTION_START@.len() as int) == FUNCTION_START@);
    }
    assert(invoke + back =~= FUNCTION_START@ + tail);
    lemma_found_next(gap, FUNCTION_START@, tail);
    if in_block {
        lemma_not_found_before(gap, BLOCK_END@, FUNCTION_START@, tail);
    } else {
        lemma_not_found_before(gap, BLOCK_START@, FUNCTION_START@, tail);
    }
    let waiting = invoke + back;
    assert(whole.skip(gap.len() as int) =~= waiting);
    assert(whole.take(gap.len() as int) =~= gap);
    lemma_found_in_front(invoke, back, FUNCTION_END@);
    text::lemma_find_from(invoke, FUNCTION_END@, 0);
    assert(waiting.take(invoke.len() as int) =~= invoke);
    assert(waiting.skip(invoke.len() as int) =~= back);
}

/// A block begins: the plain text before it is given out whole, however many calls came
/// before, unless text is suppressed, and nothing is text from there on.
pub proof fn law_block_begins(state: ParserState, before: Seq<char>, rest: Seq<char>)
    requires
        !state.in_block,
        state.buffer == before + (BLOCK_START@ + rest),
        plain(before),
    ensures
        minimax_m2::drained(state, true) == led_by(
            if state.suppress_normal_text {
                Seq::empty()
            } else {
                before
            },
            Seq::empty(),
            minimax_m2::drained(
                ParserState { buffer: rest, in_block: true, suppress_normal_text: true, ..state },
                true,
            ),
        ),
        minimax_m2::noticed(state, true) == minimax_m2::noticed(
            ParserState { buffer: rest, in_block: true, suppress_normal_text: true, ..state },
            true,
        ),
{
    lemma_opens(before, rest, true);
}

/// An invocation in a block, behind what holds no invocation and no end of the block,
/// brings the call that it makes and nothing else; what follows is taken as if the
/// block began there. One whose markup cannot be read stops the run.
pub proof fn law_invoke_in_block(
    state: ParserState,
    gap: Seq<char>,
    invoke: Seq<char>,
    rest: Seq<char>,
)
    requires
        state.in_block,
        state.buffer == gap + (invoke + rest),
        whole_invoke(invoke),
        text::find(gap, FUNCTION_START@) is None,
        text::find(gap, BLOCK_END@) is None,
    ensures
        ({
            let next = ParserState { buffer: rest, ..state };
            minimax_m2::drained(state, true) == match minimax_m2::call_made(
                invoke,
                state.next_index,
                state.tools,
            ) {
                Err(failure) => (next, Err(failure)),
                Ok(None) => minimax_m2::drained(next, true),
                Ok(Some(call)) => led_by(
                    Seq::empty(),
                    seq![call],
                    minimax_m2::drained(
                        ParserState {
                            next_index: state.next_index + 1,
                            suppress_normal_text: true,
                            ..next
                        },
                        true,
                    ),
                ),
            }
        }),
        minimax_m2::noticed(state, true) == match minimax_m2::call_made(
            invoke,
            state.next_index,
            state.tools,
        ) {
            Err(_) => Seq::<Notice>::empty(),
            Ok(None) => minimax_m2::noticed(ParserState { buffer: rest, ..state }, true),
            Ok(Some(_)) => minimax_m2::noticed(
                ParserState {
                    buffer: rest,
                    suppress_normal_text: true,
                    next_index: state.next_index + 1,
                    ..state
                },
                true,
            ),
        },
{
    lemma_invoke_found(gap, invoke, rest, true);
    assert(minimax_m2::shown(state, Seq::empty()) =~= traits::no_output());
    minimax_m2::lemma_preceded_by_nothing(
        minimax_m2::drained(ParserState { buffer: rest, ..state }, true),
    );
}

/// A block ends: what stands before its end is dropped, and text is given out again.
pub proof fn law_block_ends(state: ParserState, gap: Seq<char>, rest: Seq<char>)
    requires
        state.in_block,
        state.buffer == gap + (BLOCK_END@ + rest),
        text::find(gap, FUNCTION_START@) is None,
        text::find(gap, BLOCK_END@) is None,
    ensures
        minimax_m2::drained(state, true) == minimax_m2::drained(
            ParserState { buffer: rest, in_block: false, suppress_normal_text: false, ..state },
            true,
        ),
        minimax_m2::noticed(state, true) == minimax_m2::noticed(
            ParserState { buffer: rest, in_block: false, suppress_normal_text: false, ..state },
            true,
        ),
{
    lemma_closes(gap, rest, true);
}

/// A block behind plain text brings the text, unless that is suppressed, and the call
/// that its invocation makes. Nothing else in the block is text, and behind it text is
/// given out again. An invocation whose markup cannot be read stops the run.
pub proof fn law_block_then_rest(
    state: ParserState,
    before: Seq<char>,
    gap: Seq<char>,
    invoke: Seq<char>,
    gap_after: Seq<char>,
    after: Seq<char>,
)
    requires
        !state.in_block,
        state.buffer == before + (BLOCK_START@ + (gap + (invoke + (gap_after + (BLOCK_END@
            + after))))),
        plain(before),
        whole_invoke(invoke),
        text::find(gap, FUNCTION_START@) is None,
        text::find(gap, BLOCK_END@) is None,
        text::find(gap_after, FUNCTION_START@) is None,
        text::find(gap_after, BLOCK_END@) is None,
    ensures
        ({
            let rest = ParserState { buffer: after, suppress_normal_text: false, ..state };
            let text = if state.suppress_normal_text {
                Seq::empty()
            } else {
                before
            };
            minimax_m2::drained(state, true) == match minimax_m2::call_made(
                invoke,
                state.next_index,
                state.tools,
            ) {
                Err(failure) => (
                    ParserState {
                        buffer: gap_after + (BLOCK_END@ + after),
                        in_block: true,
                        suppress_normal_text: true,
                        ..state
                    },
                    Err(failure),
                ),
                Ok(None) => led_by(text, Seq::empty(), minimax_m2::drained(rest, true)),
                Ok(Some(call)) => led_by(
                    text,
                    seq![call],
                    minimax_m2::drained(
                        ParserState { next_index: state.next_index + 1, ..rest },
                        true,
                    ),
                ),
            }
        }),
{
    let close = gap_after + (BLOCK_END@ + after);
    let block = gap + (invoke + close);
    let opened = ParserState {
        buffer: block,
        in_block: true,
        suppress_normal_text: true,
        ..state
    };
    let called = ParserState { buffer: close, ..opened };
    let counted = ParserState { next_index: state.next_index + 1, ..called };
    let rest = ParserState { buffer: after, suppress_normal_text: false, ..state };
    let numbered = ParserState { next_index: state.next_index + 1, ..rest };
    law_block_begins(state, before, block);
    law_invoke_in_block(opened, gap, invoke, close);
    law_block_ends(called, gap_after, after);
    law_block_ends(counted, gap_after, after);
    let text = if state.suppress_normal_text {
        Seq::empty()
    } else {
        before
    };
    if let Ok(Some(call)) = minimax_m2::call_made(invoke, state.next_index, state.tools) {
        lemma_led_twice(
            text,
            Seq::empty(),
            Seq::empty(),
            seq![call],
            minimax_m2::drained(numbered, true),
        );
        assert(text + Seq::empty() =~= text);
        assert(Seq::empty() + seq![call] =~= seq![call]);
    }
}

/// Text and calls before text and calls are both together before what comes later.
proof fn lemma_led_twice(
    text: Seq<char>,
    calls: Seq<CallPiece>,
    more_text: Seq<char>,
    more_calls: Seq<CallPiece>,
    later: (ParserState, Result<Output, Failure>),
)
    ensures
        led_by(text, calls, led_by(more_text, more_calls, later)) == led_by(
            text + more_text,
            calls + more_calls,
            later,
        ),
{
    if let (end, Ok(more)) = later {
        assert(text + (more_text + more.normal_text) =~= text + more_text + more.normal_text);
        assert(calls + (more_calls + more.calls) =~= calls + more_calls + more.calls);
    }
}

/// A bare invocation behind plain text: the text is given out whole, unless text is
/// suppressed, and then the call that the invocation makes. From there on nothing is
/// text until a block ends. One that makes no call changes nothing, and one whose
/// markup cannot be read stops the run.
pub proof fn law_bare_invoke_then_rest(
    state: ParserState,
    before: Seq<char>,
    invoke: Seq<char>,
    rest: Seq<char>,
)
    requires
        !state.in_block,
        state.buffer == before + (invoke + rest),
        plain(before),
        whole_invoke(invoke),
    ensures
        ({
            let next = ParserState { buffer: rest, ..state };
            let text = if state.suppress_normal_text {
                Seq::empty()
            } else {
                before
            };
            minimax_m2::drained(state, true) == match minimax_m2::call_made(
                invoke,
                state.next_index,
                state.tools,
            ) {
                Err(failure) => (next, Err(failure)),
                Ok(None) => led_by(text, Seq::empty(), minimax_m2::drained(next, true)),
                Ok(Some(call)) => led_by(
                    text,
                    seq![call],
                    minimax_m2::drained(
                        ParserState {
                            next_index: state.next_index + 1,
                            suppress_normal_text: true,
                            ..next
                        },
                        true,
                    ),
                ),
            }
        }),
        minimax_m2::noticed(state, true) == match minimax_m2::call_made(
            invoke,
            state.next_index,
            state.tools,
        ) {
            Err(_) => Seq::<Notice>::empty(),
            Ok(None) => minimax_m2::noticed(ParserState { buffer: rest, ..state }, true),
            Ok(Some(_)) => seq![
                Notice::BareInvokeRecovered { tool_index: state.next_index as usize },
            ] + minimax_m2::noticed(
                ParserState {
                    buffer: rest,
                    suppress_normal_text: true,
                    next_index: state.next_index + 1,
                    ..state
                },
                true,
            ),
        },
{
    lemma_invoke_found(before, invoke, rest, false);
}

/// A block that the end of the stream cuts off brings nothing more: in it stands no
/// further invocation and no end of the block, or an invocation that does not end.
pub proof fn law_unfinished_block(state: ParserState, gap: Seq<char>, begun: Seq<char>)
    requires
        state.in_block,
        state.buffer == gap + begun,
        text::find(gap, FUNCTION_START@) is None,
        text::find(gap, BLOCK_END@) is None,
        begun.len() > 0 ==> text::occurs_at(begun, FUNCTION_START@, 0),
        text::find(begun, FUNCTION_END@) is None,
    ensures
        minimax_m2::drained(state, true) == (
            ParserState { buffer: Seq::empty(), in_block: false, ..state },
            Ok::<Output, Failure>(Output { normal_text: Seq::empty(), calls: Seq::empty() }),
        ),
        minimax_m2::noticed(state, true) == if begun.len() == 0 {
            seq![Notice::BlockWithoutInvoke]
        } else {
            seq![Notice::IncompleteInvoke]
        },
{
    minimax_markup::lemma_markers();
    if begun.len() == 0 {
        assert(state.buffer =~= gap);
    } else {
        let tail = begun.skip(FUNCTION_START@.len() as int);
        assert(begun =~= FUNCTION_START@ + tail) by {
            assert(begun.subrange(0, FUNCTION_START@.len() as int) == FUNCTION_START@);
        }
        lemma_found_next(gap, FUNCTION_START@, tail);
        lemma_not_found_before(gap, BLOCK_END@, FUNCTION_START@, tail);
        assert(state.buffer.skip(gap.len() as int) =~= begun);
    }
    assert(minimax_m2::shown(state, Seq::empty()) =~= traits::no_output());
}

/// A bare invocation that the end of the stream cuts off is dropped; the plain text
/// before it is given out whole, unless text is suppressed.
pub proof fn law_unfinished_bare_invoke(state: ParserState, before: Seq<char>, begun: Seq<char>)
    requires
        !state.in_block,
        state.buffer == before + begun,
        plain(before),
        text::occurs_at(begun, FUNCTION_START@, 0),
        text::find(begun, FUNCTION_END@) is None,
    ensures
        minimax_m2::drained(state, true) == (
            ParserState { buffer: Seq::empty(), ..state },
            Ok::<Output, Failure>(
                Output {
                    normal_text: if state.suppress_normal_text {
                        Seq::empty()
                    } else {
                        before
                    },
                    calls: Seq::empty(),
                },
            ),
        ),
        minimax_m2::noticed(state, true) == seq![Notice::IncompleteBareInvoke],
{
    minimax_markup::lemma_markers();
    let tail = begun.skip(FUNCTION_START@.len() as int);
    assert(begun =~= FUNCTION_START@ + tail) by {
        assert(begun.subrange(0, FUNCTION_START@.len() as int) == FUNCTION_START@);
    }
    lemma_found_next(before, FUNCTION_START@, tail);
    lemma_not_found_before(before, BLOCK_START@, FUNCTION_START@, tail);
    assert(state.buffer.skip(before.len() as int) =~= begun);
    assert(state.buffer.take(before.len() as int) =~= before);
}

/// What can be told already and, at the end of the stream, the rest is everything at
/// the end. A failure comes at once, and leaves the same behind.
pub proof fn law_before_the_end(state: ParserState)
    ensures
        match minimax_m2::drained(state, false) {
            (mid, Ok(out)) => minimax_m2::drained(state, true) == led_by(
                out.normal_text,
                out.calls,
                minimax_m2::drained(mid, true),
            ),
            (mid, Err(failure)) => minimax_m2::drained(state, true) == (
                mid,
                Err::<Output, Failure>(failure),
            ),
        },
{
    lemma_drained_before_end(state);
}

/// What waits behind a push that succeeds has to wait. Outside a block it is the
/// beginning of a start marker, but not all of it, or an invocation that does not end
/// yet; in a block it is an invocation that does not end yet, or it holds neither an
/// invocation nor the end of the block.
pub proof fn law_what_waits(state: ParserState)
    ensures
        minimax_m2::drained(state, false) matches (mid, Ok(_)) ==> {
            ||| text::occurs_at(mid.buffer, FUNCTION_START@, 0) && text::find(
                mid.buffer,
                FUNCTION_END@,
            ) is None
            ||| mid.in_block && text::find(mid.buffer, FUNCTION_START@) is None && text::find(
                mid.buffer,
                BLOCK_END@,
            ) is None
            ||| !mid.in_block && mid.buffer.len() < BLOCK_START@.len() && mid.buffer
                == BLOCK_START@.take(mid.buffer.len() as int)
            ||| !mid.in_block && mid.buffer.len() < FUNCTION_START@.len() && mid.buffer
                == FUNCTION_START@.take(mid.buffer.len() as int)
        },
    decreases state.buffer.len(),
{
    minimax_markup::lemma_markers();
    minimax_markup::lemma_found_shrinks(state.buffer, state.in_block, false);
    match minimax_markup::next_found(state.buffer, state.in_block, false) {
        Found::Wait { text, rest, in_block } => {
            let buffer = state.buffer;
            minimax_markup::law_held_back(buffer);
            text::lemma_find_from(buffer, FUNCTION_START@, 0);
            if let Some(s) = text::find(buffer, FUNCTION_START@) {
                lemma_occurs_behind(buffer, FUNCTION_START@, s, 0);
            } else if !state.in_block {
                let k = minimax_markup::held_back(buffer);
                if k == 0 {
                    assert(rest =~= BLOCK_START@.take(0));
                }
            }
        },
        Found::Open { text, rest } => {
            law_what_waits(
                ParserState { buffer: rest, in_block: true, suppress_normal_text: true, ..state },
            );
        },
        Found::Close { rest } => {
            law_what_waits(
                ParserState { buffer: rest, in_block: false, suppress_normal_text: false, ..state },
            );
        },
        Found::Invoke { text, invoke, rest } => match minimax_m2::call_made(
            invoke,
            state.next_index,
            state.tools,
        ) {
            Err(_) => {},
            Ok(None) => {
                law_what_waits(ParserState { buffer: rest, ..state });
            },
            Ok(Some(call)) => {
                law_what_waits(
                    ParserState {
                        buffer: rest,
                        suppress_normal_text: true,
                        next_index: state.next_index + 1,
                        ..state
                    },
                );
            },
        },
    }
}

/// What an invocation makes, whatever its index: it is read, with all the tools, in a
/// block of its own; of the calls that are read the first is given out, with its whole
/// name, and its arguments in the order in which the invocation names them. Nothing is
/// made where nothing is read, and an error is handed on with its text.
pub proof fn law_call_is_the_first_read(function: Seq<char>, index: int, tools: Seq<ToolSchema>)
    ensures
        ({
            let message = "<minimax:tool_call>"@ + function + "</minimax:tool_call>"@;
            let syntax = XmlSyntax {
                tool_call_start_token: "<minimax:tool_call>"@,
                tool_call_end_token: "</minimax:tool_call>"@,
                function_start_token: "<invoke name="@,
                function_end_token: "</invoke>"@,
                parameter_start_token: "<parameter name="@,
                parameter_end_token: "</parameter>"@,
                allow_eof_recovery: false,
                strict_match: true,
                passthrough_when_no_function: false,
                backoff_when_no_wrapper: true,
            };
            let made = minimax_m2::call_made(function, index, tools);
            match xml::xml_calls(message, syntax, tools) {
                Err(text) => made == Err::<Option<CallPiece>, Failure>(Failure::Markup(text)),
                Ok(calls) => {
                    &&& calls.len() == 0 ==> made == Ok::<Option<CallPiece>, Failure>(None)
                    &&& calls.len() > 0 ==> {
                        &&& made matches Ok(Some(call))
                        &&& call.tool_index == index
                        &&& call.name == Some(calls[0].0)
                        &&& json::object_members(calls[0].1) is None ==> call.arguments
                            == calls[0].1
                        &&& json::object_members(calls[0].1) matches Some(members)
                            ==> call.arguments == json::object_of(
                            arguments::ordered(members, arguments::source_names(function)),
                        )
                    }
                },
            }
        }),
{
}

/// What an invocation makes does not depend on how many calls came before: with another
/// index it makes the same call, which differs in the index alone, or none either, or
/// fails in the same way.
pub proof fn law_index_is_all_that_differs(
    function: Seq<char>,
    i: int,
    j: int,
    tools: Seq<ToolSchema>,
)
    ensures
        match minimax_m2::call_made(function, i, tools) {
            Err(failure) => minimax_m2::call_made(function, j, tools) == Err::<
                Option<CallPiece>,
                Failure,
            >(failure),
            Ok(None) => minimax_m2::call_made(function, j, tools) == Ok::<
                Option<CallPiece>,
                Failure,
            >(None),
            Ok(Some(call)) => minimax_m2::call_made(function, j, tools) == Ok::<
                Option<CallPiece>,
                Failure,
            >(Some(CallPiece { tool_index: j, ..call })),
        },
{
}

/// The view of what an invocation makes shows which of the three it is, and all of it.
pub proof fn law_call_view(call: Result<Option<ToolCallDelta>, ToolParseError>)
    ensures
        call matches Err(ToolParseError::Markup(text)) ==> minimax_m2::call_view(call) == Err::<
            Option<CallPiece>,
            Failure,
        >(Failure::Markup(text@)),
        call is Err ==> minimax_m2::call_view(call) is Err,
        call matches Ok(None) ==> minimax_m2::call_view(call) == Ok::<Option<CallPiece>, Failure>(
            None,
        ),
        call matches Ok(Some(delta)) ==> {
            &&& minimax_m2::call_view(call) matches Ok(Some(piece))
            &&& piece.tool_index == delta.tool_index
            &&& piece.name is Some == delta.name is Some
            &&& delta.name matches Some(name) ==> piece.name == Some(name@)
            &&& piece.arguments == delta.arguments@
        },
{
}

/// A block as it is written, and the plain text behind it.
pub struct BlockText {
    /// What stands in the block: each invocation, with what stands before it.
    pub invokes: Seq<(Seq<char>, Seq<char>)>,
    /// What stands behind the last invocation.
    pub tail: Seq<char>,
    /// The text behind the block.
    pub after: Seq<char>,
}

/// No invocation begins in what stands between the invocations of a block, and the
/// block does not end there; the invocations are whole; the text behind is plain.
pub open spec fn well_written(block: BlockText) -> bool {
    &&& forall|i: int|
        0 <= i < block.invokes.len() ==> between((#[trigger] block.invokes[i]).0) && whole_invoke(
            block.invokes[i].1,
        )
    &&& between(block.tail)
    &&& plain(block.after)
}

/// Neither an invocation nor the end of the block stands in this part of a block.
pub open spec fn between(gap: Seq<char>) -> bool {
    text::find(gap, FUNCTION_START@) is None && text::find(gap, BLOCK_END@) is None
}

/// Invocations in a block, with what stands before each, and then more.
pub open spec fn invokes_text(invokes: Seq<(Seq<char>, Seq<char>)>, more: Seq<char>) -> Seq<char>
    decreases invokes.len(),
{
    if invokes.len() == 0 {
        more
    } else {
        invokes.first().0 + (invokes.first().1 + invokes_text(invokes.drop_first(), more))
    }
}

/// Blocks, each with the text behind it.
pub open spec fn blocks_text(blocks: Seq<BlockText>) -> Seq<char>
    decreases blocks.len(),
{
    if blocks.len() == 0 {
        Seq::empty()
    } else {
        let block = blocks.first();
        BLOCK_START@ + invokes_text(
            block.invokes,
            block.tail + (BLOCK_END@ + (block.after + blocks_text(blocks.drop_first()))),
        )
    }
}

/// The text behind the blocks, one stretch after the other.
pub open spec fn stretches(blocks: Seq<BlockText>) -> Seq<char>
    decreases blocks.len(),
{
    if blocks.len() == 0 {
        Seq::empty()
    } else {
        blocks.first().after + stretches(blocks.drop_first())
    }
}

/// The calls that invocations make one after the other, numbered from `index` on, or
/// the error of the first whose markup cannot be read.
pub open spec fn calls_of(
    invokes: Seq<(Seq<char>, Seq<char>)>,
    index: int,
    tools: Seq<ToolSchema>,
) -> Result<Seq<CallPiece>, Failure>
    decreases invokes.len(),
{
    if invokes.len() == 0 {
        Ok(Seq::empty())
    } else {
        match minimax_m2::call_made(invokes.first().1, index, tools) {
            Err(failure) => Err(failure),
            Ok(None) => calls_of(invokes.drop_first(), index, tools),
            Ok(Some(call)) => match calls_of(invokes.drop_first(), index + 1, tools) {
                Err(failure) => Err(failure),
                Ok(more) => Ok(seq![call] + more),
            },
        }
    }
}

/// The calls that the invocations of blocks make one after the other.
pub open spec fn calls_of_blocks(
    blocks: Seq<BlockText>,
    index: int,
    tools: Seq<ToolSchema>,
) -> Result<Seq<CallPiece>, Failure>
    decreases blocks.len(),
{
    if blocks.len() == 0 {
        Ok(Seq::empty())
    } else {
        match calls_of(blocks.first().invokes, index, tools) {
            Err(failure) => Err(failure),
            Ok(calls) => match calls_of_blocks(blocks.drop_first(), index + calls.len(), tools) {
                Err(failure) => Err(failure),
                Ok(more) => Ok(calls + more),
            },
        }
    }
}

/// In a block any number of invocations bring their calls and no text.
pub proof fn law_invokes_in_block(
    state: ParserState,
    invokes: Seq<(Seq<char>, Seq<char>)>,
    more: Seq<char>,
)
    requires
        state.in_block,
        state.suppress_normal_text,
        state.buffer == invokes_text(invokes, more),
        forall|i: int|
            0 <= i < invokes.len() ==> between((#[trigger] invokes[i]).0) && whole_invoke(
                invokes[i].1,
            ),
    ensures
        match calls_of(invokes, state.next_index, state.tools) {
            Err(failure) => minimax_m2::drained(state, true).1 == Err::<Output, Failure>(failure),
            Ok(calls) => minimax_m2::drained(state, true) == led_by(
                Seq::empty(),
                calls,
                minimax_m2::drained(
                    ParserState {
                        buffer: more,
                        next_index: state.next_index + calls.len(),
                        ..state
                    },
                    true,
                ),
            ),
        },
    decreases invokes.len(),
{
    let none = Seq::<char>::empty();
    if invokes.len() == 0 {
        let later = minimax_m2::drained(state, true);
        assert((ParserState { buffer: more, next_index: state.next_index + 0, ..state }) == state);
        if let (end, Ok(out)) = later {
            assert(none + out.normal_text =~= out.normal_text);
            assert(Seq::<CallPiece>::empty() + out.calls =~= out.calls);
        }
    } else {
        let (gap, invoke) = invokes[0];
        let rest = invokes.drop_first();
        let back = invokes_text(rest, more);
        assert(forall|i: int| 0 <= i < rest.len() ==> #[trigger] rest[i] == invokes[i + 1]);
        law_invoke_in_block(state, gap, invoke, back);
        match minimax_m2::call_made(invoke, state.next_index, state.tools) {
            Err(_) => {},
            Ok(None) => {
                law_invokes_in_block(ParserState { buffer: back, ..state }, rest, more);
            },
            Ok(Some(call)) => {
                let next = ParserState {
                    buffer: back,
                    next_index: state.next_index + 1,
                    ..state
                };
                law_invokes_in_block(next, rest, more);
                if let Ok(calls) = calls_of(rest, next.next_index, state.tools) {
                    let end = ParserState {
                        buffer: more,
                        next_index: next.next_index + calls.len(),
                        ..state
                    };
                    lemma_led_twice(
                        none,
                        seq![call],
                        none,
                        calls,
                        minimax_m2::drained(end, true),
                    );
                    assert(none + none =~= none);
                    assert((seq![call] + calls).len() == 1 + calls.len());
                }
            },
        }
    }
}

/// Any number of blocks, each with any number of invocations, between plain stretches:
/// all the stretches are given out, one after the other, and all the calls, numbered
/// one after the other. Nothing of the blocks is text.
pub proof fn law_all_stretches_and_all_calls(
    state: ParserState,
    before: Seq<char>,
    blocks: Seq<BlockText>,
)
    requires
        !state.in_block,
        !state.suppress_normal_text,
        state.buffer == before + blocks_text(blocks),
        plain(before),
        forall|i: int| 0 <= i < blocks.len() ==> well_written(#[trigger] blocks[i]),
    ensures
        minimax_m2::drained(state, true).1 == match calls_of_blocks(
            blocks,
            state.next_index,
            state.tools,
        ) {
            Err(failure) => Err::<Output, Failure>(failure),
            Ok(calls) => Ok(Output { normal_text: before + stretches(blocks), calls }),
        },
    decreases blocks.len(),
{
    let none = Seq::<char>::empty();
    if blocks.len() == 0 {
        assert(state.buffer =~= before);
        law_text_is_given_out(state);
        assert(before + none =~= before);
    } else {
        let block = blocks[0];
        let rest = blocks.drop_first();
        assert(well_written(block));
        assert(forall|i: int| 0 <= i < rest.len() ==> #[trigger] rest[i] == blocks[i + 1]);
        let behind = block.after + blocks_text(rest);
        let close = block.tail + (BLOCK_END@ + behind);
        let inside = invokes_text(block.invokes, close);
        law_block_begins(state, before, inside);
        let opened = ParserState {
            buffer: inside,
            in_block: true,
            suppress_normal_text: true,
            ..state
        };
        law_invokes_in_block(opened, block.invokes, close);
        if let Ok(calls) = calls_of(block.invokes, state.next_index, state.tools) {
            let index = state.next_index + calls.len();
            let closing = ParserState { buffer: close, next_index: index, ..opened };
            law_block_ends(closing, block.tail, behind);
            let next = ParserState {
                buffer: behind,
                in_block: false,
                suppress_normal_text: false,
                next_index: index,
                ..state
            };
            law_all_stretches_and_all_calls(next, block.after, rest);
            let later = minimax_m2::drained(next, true);
            lemma_led_twice(before, Seq::empty(), none, calls, later);
            assert(before + none =~= before);
            assert(Seq::<CallPiece>::empty() + calls =~= calls);
            assert(before + (block.after + stretches(rest)) =~= before + stretches(blocks));
        }
    }
}

/// A stream of any number of blocks between plain stretches, wherever it is cut, brings
/// all the stretches and all the calls, numbered from zero.
pub proof fn law_stream_of_blocks(
    tools: Seq<ToolSchema>,
    chunks: Seq<Seq<char>>,
    before: Seq<char>,
    blocks: Seq<BlockText>,
)
    requires
        chunks.flatten() == before + blocks_text(blocks),
        plain(before),
        forall|i: int| 0 <= i < blocks.len() ==> well_written(#[trigger] blocks[i]),
    ensures
        streamed(tools, chunks) == match calls_of_blocks(blocks, 0, tools) {
            Err(failure) => Err::<Output, Failure>(failure),
            Ok(calls) => Ok(Output { normal_text: before + stretches(blocks), calls }),
        },
{
    law_stream_is_whole_text(tools, chunks);
    law_all_stretches_and_all_calls(
        ParserState {
            buffer: chunks.flatten(),
            in_block: false,
            suppress_normal_text: false,
            next_index: 0,
            tools,
        },
        before,
        blocks,
    );
}

/// A stream with one block between two stretches of plain text brings both stretches
/// and the call that the invocation in the block makes, or no call where it makes none;
/// where its markup cannot be read, the stream fails with that error.
pub proof fn law_block_between_text(
    tools: Seq<ToolSchema>,
    chunks: Seq<Seq<char>>,
    before: Seq<char>,
    gap: Seq<char>,
    invoke: Seq<char>,
    gap_after: Seq<char>,
    after: Seq<char>,
)
    requires
        chunks.flatten() == before + (BLOCK_START@ + (gap + (invoke + (gap_after + (BLOCK_END@
            + after))))),
        plain(before),
        plain(after),
        whole_invoke(invoke),
        text::find(gap, FUNCTION_START@) is None,
        text::find(gap, BLOCK_END@) is None,
        text::find(gap_after, FUNCTION_START@) is None,
        text::find(gap_after, BLOCK_END@) is None,
    ensures
        streamed(tools, chunks) == match minimax_m2::call_made(invoke, 0, tools) {
            Err(failure) => Err(failure),
            Ok(None) => Ok(Output { normal_text: before + after, calls: Seq::empty() }),
            Ok(Some(call)) => Ok(Output { normal_text: before + after, calls: seq![call] }),
        },
{
    law_stream_is_whole_text(tools, chunks);
    let start = minimax_m2::fed(minimax_m2::fresh(tools), chunks.flatten());
    assert(start.buffer =~= chunks.flatten());
    law_block_then_rest(start, before, gap, invoke, gap_after, after);
    let rest = ParserState { buffer: after, suppress_normal_text: false, ..start };
    law_text_is_given_out(rest);
    law_text_is_given_out(ParserState { next_index: 1, ..rest });
    match minimax_m2::call_made(invoke, 0, tools) {
        Err(failure) => {},
        Ok(None) => {
            assert(minimax_m2::drained(start, true).1->Ok_0 =~= Output {
                normal_text: before + after,
                calls: Seq::empty(),
            });
        },
        Ok(Some(call)) => {
            assert(minimax_m2::drained(start, true).1->Ok_0 =~= Output {
                normal_text: before + after,
                calls: seq![call],
            });
        },
    }
}

/// A stream that is one invocation in its block brings what reading its complete text
/// at once brings: the first call, its arguments in the order of the text.
pub proof fn law_streamed_call_is_the_call_read(
    tools: Seq<ToolSchema>,
    chunks: Seq<Seq<char>>,
    invoke: Seq<char>,
)
    requires
        chunks.flatten() == minimax_m2::wrapped(invoke),
        whole_invoke(invoke),
    ensures
        streamed(tools, chunks) == match minimax_m2::call_read(
            xml::xml_calls(chunks.flatten(), minimax_m2::minimax_syntax(), tools),
            invoke,
            0,
        ) {
            Err(failure) => Err(failure),
            Ok(None) => Ok(traits::no_output()),
            Ok(Some(call)) => Ok(Output { normal_text: Seq::empty(), calls: seq![call] }),
        },
{
    minimax_markup::lemma_markers();
    let none = Seq::<char>::empty();
    assert(chunks.flatten() =~= none + (BLOCK_START@ + (none + (invoke + (none + (BLOCK_END@
        + none))))));
    assert(none + none =~= none);
    law_block_between_text(tools, chunks, none, none, invoke, none, none);
}

/// A block that the end of the stream cuts off, with nothing whole in it, brings
/// nothing: neither a call nor text.
pub proof fn law_unfinished_block_is_dropped(
    tools: Seq<ToolSchema>,
    chunks: Seq<Seq<char>>,
    before: Seq<char>,
    inside: Seq<char>,
)
    requires
        chunks.flatten() == before + (BLOCK_START@ + inside),
        plain(before),
        text::find(inside, BLOCK_END@) is None,
        text::find(inside, FUNCTION_END@) is None,
    ensures
        streamed(tools, chunks) == Ok::<Output, Failure>(
            Output { normal_text: before, calls: Seq::empty() },
        ),
{
    law_stream_is_whole_text(tools, chunks);
    let start = minimax_m2::fed(minimax_m2::fresh(tools), chunks.flatten());
    assert(start.buffer =~= chunks.flatten());
    lemma_opens(before, inside, true);
    text::lemma_find_from(inside, FUNCTION_START@, 0);
    if let Some(s) = text::find(inside, FUNCTION_START@) {
        lemma_not_in_rest(inside, FUNCTION_END@, s);
    }
    let opened = ParserState {
        buffer: inside,
        in_block: true,
        suppress_normal_text: true,
        ..start
    };
    assert(minimax_m2::drained(opened, true).1 == Ok::<Output, Failure>(
        minimax_m2::shown(opened, Seq::empty()),
    ));
    assert(minimax_m2::drained(start, true).1->Ok_0 =~= Output {
        normal_text: before,
        calls: Seq::empty(),
    });
}

/// A bare invocation in a stream of plain text brings the text before it and the call
/// that it makes; the text behind it is dropped, unless it makes no call.
pub proof fn law_bare_invoke(
    tools: Seq<ToolSchema>,
    chunks: Seq<Seq<char>>,
    before: Seq<char>,
    invoke: Seq<char>,
    after: Seq<char>,
)
    requires
        chunks.flatten() == before + (invoke + after),
        plain(before),
        plain(after),
        whole_invoke(invoke),
    ensures
        streamed(tools, chunks) == match minimax_m2::call_made(invoke, 0, tools) {
            Err(failure) => Err(failure),
            Ok(None) => Ok(Output { normal_text: before + after, calls: Seq::empty() }),
            Ok(Some(call)) => Ok(Output { normal_text: before, calls: seq![call] }),
        },
{
    law_stream_is_whole_text(tools, chunks);
    let start = minimax_m2::fed(minimax_m2::fresh(tools), chunks.flatten());
    assert(start.buffer =~= chunks.flatten());
    lemma_invoke_found(before, invoke, after, false);
    let next = ParserState { buffer: after, ..start };
    let called = ParserState { suppress_normal_text: true, next_index: 1, ..next };
    law_text_is_given_out(next);
    law_text_is_given_out(called);
    match minimax_m2::call_made(invoke, 0, tools) {
        Err(failure) => {},
        Ok(None) => {
            assert(minimax_m2::drained(start, true).1->Ok_0 =~= Output {
                normal_text: before + after,
                calls: Seq::empty(),
            });
        },
        Ok(Some(call)) => {
            assert(minimax_m2::drained(start, true).1->Ok_0 =~= Output {
                normal_text: before,
                calls: seq![call],
            });
        },
    }
}

/// Where in a buffer the invocation stands that comes at `i` in the list of those that
/// are whole.
proof fn lemma_invoke_place(buffer: Seq<char>, in_block: bool, flush: bool, i: int) -> (place: (
    int,
    int,
))
    requires
        0 <= i < minimax_markup::invokes(buffer, in_block, flush).len(),
    ensures
        0 <= place.0 <= place.1 <= buffer.len(),
        minimax_markup::invokes(buffer, in_block, flush)[i] == buffer.subrange(place.0, place.1),
    decreases buffer.len(),
{
    minimax_markup::lemma_markers();
    minimax_markup::lemma_found_shrinks(buffer, in_block, flush);
    text::lemma_find_from(buffer, BLOCK_START@, 0);
    text::lemma_find_from(buffer, BLOCK_END@, 0);
    text::lemma_find_from(buffer, FUNCTION_START@, 0);
    if let Some(s) = text::find(buffer, FUNCTION_START@) {
        text::lemma_find_from(buffer.skip(s), FUNCTION_END@, 0);
    }
    match minimax_markup::next_found(buffer, in_block, flush) {
        Found::Wait { .. } => (0, 0),
        Found::Open { text, rest } => {
            let k = buffer.len() - rest.len();
            assert(rest =~= buffer.skip(k));
            let (a, b) = lemma_invoke_place(rest, true, flush, i);
            assert(rest.subrange(a, b) =~= buffer.subrange(k + a, k + b));
            (k + a, k + b)
        },
        Found::Close { rest } => {
            let k = buffer.len() - rest.len();
            assert(rest =~= buffer.skip(k));
            let (a, b) = lemma_invoke_place(rest, false, flush, i);
            assert(rest.subrange(a, b) =~= buffer.subrange(k + a, k + b));
            (k + a, k + b)
        },
        Found::Invoke { text, invoke, rest } => {
            let s = text::find(buffer, FUNCTION_START@)->0;
            let k = buffer.len() - rest.len();
            assert(rest =~= buffer.skip(k));
            if i == 0 {
                assert(invoke =~= buffer.subrange(s, k));
                (s, k)
            } else {
                let (a, b) = lemma_invoke_place(rest, in_block, flush, i - 1);
                assert(rest.subrange(a, b) =~= buffer.subrange(k + a, k + b));
                (k + a, k + b)
            }
        },
    }
}

/// There are no more whole invocations than characters.
proof fn lemma_few_invokes(buffer: Seq<char>, in_block: bool, flush: bool)
    ensures
        minimax_markup::invokes(buffer, in_block, flush).len() <= buffer.len(),
    decreases buffer.len(),
{
    minimax_markup::lemma_found_shrinks(buffer, in_block, flush);
    match minimax_markup::next_found(buffer, in_block, flush) {
        Found::Wait { .. } => {},
        Found::Open { text, rest } => {
            lemma_few_invokes(rest, true, flush);
        },
        Found::Close { rest } => {
            lemma_few_invokes(rest, false, flush);
        },
        Found::Invoke { text, invoke, rest } => {
            lemma_few_invokes(rest, in_block, flush);
        },
    }
}

/// Behind a marker in a wrapped invocation no lone quotation mark stands, if behind none
/// in the invocation itself does.
proof fn lemma_quiet_wrapped(function: Seq<char>, marker: Seq<char>)
    requires
        xml::quiet(function, marker),
        marker.len() > 1,
        marker[0] == '<',
        marker[1] != 'm' && marker[1] != '/',
        forall|k: int| 0 < k < marker.len() ==> #[trigger] marker[k] != '<',
    ensures
        xml::quiet(minimax_m2::wrapped(function), marker),
{
    minimax_markup::lemma_markers();
    let message = minimax_m2::wrapped(function);
    let k = BLOCK_START@.len() as int;
    let e = k + function.len();
    assert forall|at: int, angle: int| !#[trigger]
        xml::lone_quote_behind(message, marker, at, angle) by {
        if xml::lone_quote_behind(message, marker, at, angle) {
            let name = message.subrange(at + marker.len(), angle);
            text::law_occurs_at(message, marker, at);
            assert(message[at + 0] == marker[0]);
            assert(message[at + 1] == marker[1]);
            assert(message[e] == BLOCK_END@[0]);
            if at < k {
                assert(message[at] == BLOCK_START@[at]);
                assert(at == 0);
                assert(message[1] == BLOCK_START@[1]);
            } else if at >= e {
                assert(message[at] == BLOCK_END@[at - e]);
                assert(at == e);
                assert(message[e + 1] == BLOCK_END@[1]);
            } else if at + marker.len() > e {
                assert(message[at + (e - at)] == marker[e - at]);
            } else if angle >= e {
                assert(angle != e);
                assert(name[e - at - marker.len()] == '<');
                text::lemma_trimmed_away(name, e - at - marker.len());
                let i = text::trimmed(name).index_of('<');
                assert(text::trimmed(name)[i] == '<');
            } else {
                assert(message.subrange(at, at + marker.len()) =~= function.subrange(
                    at - k,
                    at - k + marker.len(),
                ));
                assert(name =~= function.subrange(at - k + marker.len(), angle - k));
                assert(function[angle - k] == message[angle]);
                assert(xml::lone_quote_behind(function, marker, at - k, angle - k));
            }
        }
    }
}

/// Whatever waits can be taken, however much it is and whatever came before, as long as
/// no call and no parameter in it has a lone quotation mark for a name and the indices
/// do not run out.
pub proof fn law_what_has_names_can_be_taken(state: ParserState, flush: bool)
    requires
        xml::quiet(state.buffer, FUNCTION_START@),
        xml::quiet(state.buffer, "<parameter name="@),
        state.next_index + state.buffer.len() <= usize::MAX,
    ensures
        minimax_m2::drainable(state, flush),
{
    minimax_markup::lemma_markers();
    reveal_strlit("<parameter name=");
    let list = minimax_markup::invokes(state.buffer, state.in_block, flush);
    lemma_few_invokes(state.buffer, state.in_block, flush);
    assert forall|i: int| 0 <= i < list.len() implies minimax_m2::readable_invoke(
        #[trigger] list[i],
    ) by {
        let (a, b) = lemma_invoke_place(state.buffer, state.in_block, flush, i);
        xml::lemma_quiet_part(state.buffer, FUNCTION_START@, a, b);
        xml::lemma_quiet_part(state.buffer, "<parameter name="@, a, b);
        lemma_quiet_wrapped(list[i], FUNCTION_START@);
        lemma_quiet_wrapped(list[i], "<parameter name="@);
        xml::law_quiet_message_is_readable(
            minimax_m2::wrapped(list[i]),
            minimax_m2::minimax_syntax(),
        );
    }
}

/// An invocation whose name is a lone quotation mark cannot be taken.
pub proof fn law_lone_quote_cannot_be_taken(
    state: ParserState,
    flush: bool,
    before: Seq<char>,
    name: Seq<char>,
    body: Seq<char>,
    rest: Seq<char>,
)
    requires
        !state.in_block,
        plain(before),
        text::trimmed(name) == seq!['"'] || text::trimmed(name) == seq!['\''],
        whole_invoke(FUNCTION_START@ + name + seq!['>'] + body),
        text::find(FUNCTION_START@ + name + seq!['>'] + body, BLOCK_END@) is None,
        body.len() >= FUNCTION_END@.len(),
        state.buffer == before + ((FUNCTION_START@ + name + seq!['>'] + body) + rest),
    ensures
        !minimax_m2::drainable(state, flush),
{
    minimax_markup::lemma_markers();
    let invoke = FUNCTION_START@ + name + seq!['>'] + body;
    lemma_invoke_found_early(before, invoke, rest, flush);
    let list = minimax_markup::invokes(state.buffer, false, flush);
    assert(list[0] == invoke);
    let message = minimax_m2::wrapped(invoke);
    let k = BLOCK_START@.len() as int;
    let at = k;
    let angle = k + FUNCTION_START@.len() + name.len();
    let end = message.len() - BLOCK_END@.len() - FUNCTION_END@.len();
    let front = BLOCK_START@ + invoke;
    assert(message.subrange(0, k) =~= BLOCK_START@);
    // The block ends at the end of the message.
    text::lemma_find_from(front, BLOCK_END@, 0);
    text::lemma_find_from(invoke, BLOCK_END@, 0);
    if let Some(p) = text::find(front, BLOCK_END@) {
        text::law_occurs_at(front, BLOCK_END@, p);
        assert(front[p + 0] == BLOCK_END@[0] && front[p + 1] == BLOCK_END@[1]);
        if p < k {
            assert(front[p] == BLOCK_START@[p]);
            assert(p == 0);
            assert(front[1] == BLOCK_START@[1]);
        } else {
            assert(front.skip(k) =~= invoke);
            lemma_occurs_behind(front, BLOCK_END@, k, p - k);
        }
    }
    lemma_found_next(front, BLOCK_END@, Seq::empty());
    assert(message =~= front + (BLOCK_END@ + Seq::empty()));
    // The invocation begins behind the beginning of the block.
    let tail = name + seq!['>'] + body + BLOCK_END@;
    text::lemma_find_from(BLOCK_START@, FUNCTION_START@, 0);
    if let Some(p) = text::find(BLOCK_START@, FUNCTION_START@) {
        text::law_occurs_at(BLOCK_START@, FUNCTION_START@, p);
        assert(BLOCK_START@[p + 0] == '<' && BLOCK_START@[p + 1] == 'i');
    }
    lemma_found_next(BLOCK_START@, FUNCTION_START@, tail);
    assert(message =~= BLOCK_START@ + (FUNCTION_START@ + tail));
    assert(message.subrange(at + FUNCTION_START@.len(), angle) =~= name);
    assert(message[angle] == '>');
    text::lemma_find_from(message, FUNCTION_START@, 0);
    assert(xml::lone_quote_behind(message, FUNCTION_START@, at, angle));
    text::lemma_find_from(invoke, FUNCTION_END@, 0);
    assert(message.subrange(end, end + FUNCTION_END@.len()) =~= invoke.subrange(
        invoke.len() - FUNCTION_END@.len(),
        invoke.len() as int,
    ));
    xml::law_lone_quote_is_not_read(message, minimax_m2::minimax_syntax(), at, angle, end);
    assert(!minimax_m2::readable_invoke(list[0]));
}

/// A whole invocation is found before the end of the stream as well.
proof fn lemma_invoke_found_early(
    before: Seq<char>,
    invoke: Seq<char>,
    rest: Seq<char>,
    flush: bool,
)
    requires
        plain(before),
        whole_invoke(invoke),
    ensures
        minimax_markup::next_found(before + (invoke + rest), false, flush) == (Found::Invoke {
            text: before,
            invoke,
            rest,
        }),
{
    lemma_invoke_found(before, invoke, rest, false);
}

/// A stretch that is given out as text holds no start marker.
pub proof fn law_text_holds_no_marker(buffer: Seq<char>, in_block: bool, flush: bool)
    ensures
        match minimax_markup::next_found(buffer, in_block, flush) {
            Found::Wait { text, .. } => plain(text),
            Found::Open { text, .. } => plain(text),
            Found::Close { .. } => true,
            Found::Invoke { text, .. } => plain(text),
        },
{
    minimax_markup::lemma_markers();
    minimax_markup::lemma_held_back(buffer);
    text::lemma_find_from(buffer, BLOCK_START@, 0);
    text::lemma_find_from(buffer, FUNCTION_START@, 0);
    lemma_plain_up_to(buffer, 0);
    match minimax_markup::next_marker(buffer) {
        Some((at, marker)) => {
            lemma_plain_up_to(buffer, at);
        },
        None => {
            lemma_plain_up_to(buffer, buffer.len() as int);
            lemma_plain_up_to(buffer, buffer.len() - minimax_markup::held_back(buffer));
        },
    }
    assert(buffer.take(0) =~= Seq::<char>::empty());
}

/// A text up to its first start marker, or less of it, is plain.
proof fn lemma_plain_up_to(text: Seq<char>, k: int)
    requires
        0 <= k <= text.len(),
        minimax_markup::next_marker(text) matches Some((at, marker)) ==> k <= at,
    ensures
        plain(text.take(k)),
{
    minimax_markup::lemma_markers();
    let front = text.take(k);
    let back = text.skip(k);
    assert(front + back =~= text);
    text::lemma_find_from(text, BLOCK_START@, 0);
    text::lemma_find_from(text, FUNCTION_START@, 0);
    text::lemma_find_from(front, BLOCK_START@, 0);
    text::lemma_find_from(front, FUNCTION_START@, 0);
    if let Some(i) = text::find(front, BLOCK_START@) {
        lemma_occurs_in_front(front, back, BLOCK_START@, i);
    }
    if let Some(i) = text::find(front, FUNCTION_START@) {
        lemma_occurs_in_front(front, back, FUNCTION_START@, i);
    }
}

} // verus!

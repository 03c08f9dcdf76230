//! Searching, cutting and trimming text, with positions counted in characters.

use vstd::prelude::*;
use vstd::string::*;

verus! {

/// `needle` stands in `text` at position `i`.
pub open spec fn occurs_at(text: Seq<char>, needle: Seq<char>, i: int) -> bool {
    &&& 0 <= i
    &&& i + needle.len() <= text.len()
    &&& text.subrange(i, i + needle.len()) == needle
}

/// The first position at or after `from` where `needle` stands in `text`.
pub open spec fn find_from(text: Seq<char>, needle: Seq<char>, from: int) -> Option<int>
    decreases text.len() + 1 - from,
{
    if from + needle.len() > text.len() {
        None
    } else if occurs_at(text, needle, from) {
        Some(from)
    } else {
        find_from(text, needle, from + 1)
    }
}

/// The first position where `needle` stands in `text`.
pub open spec fn find(text: Seq<char>, needle: Seq<char>) -> Option<int> {
    find_from(text, needle, 0)
}

/// The characters with the Unicode property `White_Space`.
pub open spec fn white_space(c: char) -> bool {
    ||| '\u{9}' <= c <= '\u{d}'
    ||| c == '\u{20}'
    ||| c == '\u{85}'
    ||| c == '\u{a0}'
    ||| c == '\u{1680}'
    ||| '\u{2000}' <= c <= '\u{200a}'
    ||| c == '\u{2028}'
    ||| c == '\u{2029}'
    ||| c == '\u{202f}'
    ||| c == '\u{205f}'
    ||| c == '\u{3000}'
}

/// `text` without the white space at its two ends.
pub open spec fn trimmed(text: Seq<char>) -> Seq<char>
    decreases text.len(),
{
    if text.len() == 0 {
        text
    } else if white_space(text.first()) {
        trimmed(text.drop_first())
    } else if white_space(text.last()) {
        trimmed(text.drop_last())
    } else {
        text
    }
}

/// What `find_from` says: the position found holds the needle and none before it
/// does, and nothing is found only where there is nothing to find.
pub proof fn lemma_find_from(text: Seq<char>, needle: Seq<char>, from: int)
    requires
        0 <= from,
    ensures
        find_from(text, needle, from) matches Some(i) ==> from <= i && occurs_at(text, needle, i),
        forall|j: int|
            from <= j && #[trigger] occurs_at(text, needle, j) ==> (find_from(
                text,
                needle,
                from,
            ) matches Some(i) && i <= j),
    decreases text.len() + 1 - from,
{
    if from + needle.len() > text.len() {
    } else if occurs_at(text, needle, from) {
    } else {
        lemma_find_from(text, needle, from + 1);
    }
}

/// A position with the needle and no earlier one is what `find_from` gives.
pub proof fn lemma_found_at(text: Seq<char>, needle: Seq<char>, from: int, i: int)
    requires
        0 <= from <= i,
        occurs_at(text, needle, i),
        forall|j: int| from <= j < i ==> !#[trigger] occurs_at(text, needle, j),
    ensures
        find_from(text, needle, from) == Some(i),
{
    lemma_find_from(text, needle, from);
}

/// Where the needle stands nowhere from a position on, `find_from` gives nothing.
pub proof fn lemma_not_found(text: Seq<char>, needle: Seq<char>, from: int)
    requires
        0 <= from,
        forall|j: int| from <= j ==> !#[trigger] occurs_at(text, needle, j),
    ensures
        find_from(text, needle, from) is None,
{
    lemma_find_from(text, needle, from);
}

/// Looking behind a position is looking in the rest from that position on.
pub proof fn lemma_find_behind(text: Seq<char>, needle: Seq<char>, k: int, from: int)
    requires
        0 <= k <= text.len(),
        0 <= from,
    ensures
        find_from(text, needle, k + from) == match find_from(text.skip(k), needle, from) {
            Some(i) => Some(k + i),
            None => None,
        },
    decreases text.len() + 1 - k - from,
{
    if k + from + needle.len() <= text.len() {
        assert(text.subrange(k + from, k + from + needle.len()) =~= text.skip(k).subrange(
            from,
            from + needle.len(),
        ));
        if !occurs_at(text, needle, k + from) {
            lemma_find_behind(text, needle, k, from + 1);
        }
    }
}

/// What is found is the first place that holds the needle, and it is found wherever
/// there is one.
pub proof fn law_find(text: Seq<char>, needle: Seq<char>, from: int)
    requires
        0 <= from,
    ensures
        find_from(text, needle, from) matches Some(i) ==> from <= i && i + needle.len()
            <= text.len() && text.subrange(i, i + needle.len()) == needle,
        forall|j: int|
            from <= j && j + needle.len() <= text.len() && #[trigger] text.subrange(
                j,
                j + needle.len(),
            ) == needle ==> (find_from(text, needle, from) matches Some(i) && i <= j),
        find(text, needle) == find_from(text, needle, 0),
{
    lemma_find_from(text, needle, from);
    assert forall|j: int|
        from <= j && j + needle.len() <= text.len() && #[trigger] text.subrange(
            j,
            j + needle.len(),
        ) == needle implies (find_from(text, needle, from) matches Some(i) && i <= j) by {
        assert(occurs_at(text, needle, j));
    }
}

/// A text that stands at a position is what the text holds there.
pub proof fn law_occurs_at(text: Seq<char>, needle: Seq<char>, i: int)
    ensures
        occurs_at(text, needle, i) == (0 <= i && i + needle.len() <= text.len() && forall|k: int|
            0 <= k < needle.len() ==> text[i + k] == #[trigger] needle[k]),
{
    if 0 <= i && i + needle.len() <= text.len() {
        let part = text.subrange(i, i + needle.len());
        if occurs_at(text, needle, i) {
            assert(forall|k: int| 0 <= k < needle.len() ==> text[i + k] == #[trigger] part[k]);
        }
        if forall|k: int| 0 <= k < needle.len() ==> text[i + k] == #[trigger] needle[k] {
            assert(part =~= needle);
        }
    }
}

/// Trimming takes away the white space at both ends, and nothing else.
pub proof fn law_trimmed(lead: Seq<char>, core: Seq<char>, trail: Seq<char>)
    requires
        forall|i: int| 0 <= i < lead.len() ==> white_space(#[trigger] lead[i]),
        forall|i: int| 0 <= i < trail.len() ==> white_space(#[trigger] trail[i]),
        core.len() > 0 ==> !white_space(core.first()) && !white_space(core.last()),
    ensures
        trimmed(lead + core + trail) == core,
    decreases lead.len() + trail.len(),
{
    let text = lead + core + trail;
    if lead.len() > 0 {
        let rest = lead.drop_first();
        assert(text.first() == lead[0]);
        assert(text.drop_first() =~= rest + core + trail);
        assert(forall|i: int| 0 <= i < rest.len() ==> #[trigger] rest[i] == lead[i + 1]);
        law_trimmed(rest, core, trail);
    } else if trail.len() > 0 {
        let rest = trail.drop_last();
        assert(text.last() == trail[trail.len() - 1]);
        if core.len() > 0 {
            assert(text.first() == core.first());
            assert(text.drop_last() =~= lead + core + rest);
            assert(forall|i: int| 0 <= i < rest.len() ==> #[trigger] rest[i] == trail[i]);
            law_trimmed(lead, core, rest);
        } else {
            assert(text.first() == trail[0]);
            let tail = trail.drop_first();
            assert(text.drop_first() =~= lead + core + tail);
            assert(forall|i: int| 0 <= i < tail.len() ==> #[trigger] tail[i] == trail[i + 1]);
            law_trimmed(lead, core, tail);
        }
    } else {
        assert(text =~= core);
    }
}

/// Whatever trimming takes away is white space.
pub proof fn lemma_trimmed_away(text: Seq<char>, i: int)
    requires
        0 <= i < text.len(),
        !white_space(text[i]),
    ensures
        trimmed(text).contains(text[i]),
    decreases text.len(),
{
    if white_space(text.first()) {
        assert(text.drop_first()[i - 1] == text[i]);
        lemma_trimmed_away(text.drop_first(), i - 1);
    } else if white_space(text.last()) {
        assert(text.drop_last()[i] == text[i]);
        lemma_trimmed_away(text.drop_last(), i);
    }
}

/// White space: the tabs and line ends, the spaces, and the two separators.
pub proof fn law_white_space(c: char)
    ensures
        white_space(c) == ({
            let n = c as u32;
            ||| 0x9 <= n <= 0xd
            ||| 0x2000 <= n <= 0x200a
            ||| seq![
                0x20u32,
                0x85u32,
                0xa0u32,
                0x1680u32,
                0x2028u32,
                0x2029u32,
                0x202fu32,
                0x205fu32,
                0x3000u32,
            ].contains(n)
        }),
{
    let list = seq![
        0x20u32,
        0x85u32,
        0xa0u32,
        0x1680u32,
        0x2028u32,
        0x2029u32,
        0x202fu32,
        0x205fu32,
        0x3000u32,
    ];
    let n = c as u32;
    assert(list[0] == 0x20 && list[1] == 0x85 && list[2] == 0xa0 && list[3] == 0x1680 && list[4]
        == 0x2028 && list[5] == 0x2029 && list[6] == 0x202f && list[7] == 0x205f && list[8]
        == 0x3000);
    if list.contains(n) {
        let i = list.index_of(n);
        assert(0 <= i < 9);
    }
}

/// The characters of `text`.
pub fn chars_of(text: &str) -> (chars: Vec<char>)
    ensures
        chars@ == text@,
{
    let mut chars: Vec<char> = Vec::new();
    for c in it: text.chars()
        invariant
            chars@ =~= it.seq().take(it.index()),
    {
        chars.push(c);
    }
    assert(chars@ == text@);
    chars
}

/// Whether two texts hold the same characters.
pub fn same_text(a: &str, b: &str) -> (same: bool)
    ensures
        same == (a@ == b@),
{
    let x = chars_of(a);
    let y = chars_of(b);
    if x.len() != y.len() {
        return false;
    }
    let stands = stands_at(&x, &y, 0);
    proof {
        assert(a@.subrange(0, b@.len() as int) =~= a@);
    }
    stands
}

/// Whether `needle` stands in `text` at position `i`.
pub fn stands_at(text: &Vec<char>, needle: &Vec<char>, i: usize) -> (stands: bool)
    ensures
        stands == occurs_at(text@, needle@, i as int),
        stands == (i + needle@.len() <= text@.len() && text@.subrange(i as int, i + needle@.len())
            == needle@),
{
    if i > text.len() || needle.len() > text.len() - i {
        return false;
    }
    let mut k: usize = 0;
    while k < needle.len()
        invariant
            k <= needle.len(),
            i + needle.len() <= text.len(),
            forall|j: int| 0 <= j < k ==> text@[i + j] == #[trigger] needle@[j],
        decreases needle.len() - k,
    {
        if text[i + k] != needle[k] {
            proof {
                assert(text@.subrange(i as int, i + needle@.len())[k as int] == text@[i + k]);
            }
            return false;
        }
        k += 1;
    }
    proof {
        assert(text@.subrange(i as int, i + needle@.len()) =~= needle@);
    }
    true
}

/// The first position at or after `from` where `needle` stands in `text`.
pub fn position_from(text: &Vec<char>, needle: &Vec<char>, from: usize) -> (found: Option<usize>)
    ensures
        found matches Some(i) ==> find_from(text@, needle@, from as int) == Some(i as int),
        found is None ==> find_from(text@, needle@, from as int) is None,
        found matches Some(i) ==> from <= i && i + needle@.len() <= text@.len() && text@.subrange(
            i as int,
            i + needle@.len(),
        ) == needle@,
        forall|j: int|
            from <= j && j + needle@.len() <= text@.len() && #[trigger] text@.subrange(
                j,
                j + needle@.len(),
            ) == needle@ ==> (found matches Some(i) && i <= j),
{
    proof {
        law_find(text@, needle@, from as int);
    }
    let mut i: usize = from;
    while i <= text.len() && needle.len() <= text.len() - i
        invariant
            from <= i,
            find_from(text@, needle@, from as int) == find_from(text@, needle@, i as int),
        decreases text.len() + 1 - i,
    {
        proof {
            law_find(text@, needle@, from as int);
        }
        if stands_at(text, needle, i) {
            return Some(i);
        }
        if i == text.len() {
            assert(find_from(text@, needle@, i + 1) is None);
            return None;
        }
        i += 1;
    }
    None
}

/// The first position where `needle` stands in `text`.
pub fn position(text: &Vec<char>, needle: &str) -> (found: Option<usize>)
    ensures
        found matches Some(i) ==> find(text@, needle@) == Some(i as int),
        found is None ==> find(text@, needle@) is None,
        found matches Some(i) ==> i + needle@.len() <= text@.len() && text@.subrange(
            i as int,
            i + needle@.len(),
        ) == needle@,
        forall|j: int|
            0 <= j && j + needle@.len() <= text@.len() && #[trigger] text@.subrange(
                j,
                j + needle@.len(),
            ) == needle@ ==> (found matches Some(i) && i <= j),
{
    position_from(text, &chars_of(needle), 0)
}

/// Whether `c` has the Unicode property `White_Space`.
pub fn is_white_space(c: char) -> (white: bool)
    ensures
        white == white_space(c),
{
    ('\u{9}' <= c && c <= '\u{d}') || c == '\u{20}' || c == '\u{85}' || c == '\u{a0}' || c
        == '\u{1680}' || ('\u{2000}' <= c && c <= '\u{200a}') || c == '\u{2028}' || c == '\u{2029}'
        || c == '\u{202f}' || c == '\u{205f}' || c == '\u{3000}'
}

/// The characters of `text` from position `from` up to `to`, white space at both
/// ends left out.
pub fn trim_range(text: &Vec<char>, from: usize, to: usize) -> (range: (usize, usize))
    requires
        from <= to <= text@.len(),
    ensures
        from <= range.0 <= range.1 <= to,
        text@.subrange(range.0 as int, range.1 as int) == trimmed(
            text@.subrange(from as int, to as int),
        ),
        forall|i: int| from <= i < range.0 ==> white_space(#[trigger] text@[i]),
        forall|i: int| range.1 <= i < to ==> white_space(#[trigger] text@[i]),
        range.0 < range.1 ==> !white_space(text@[range.0 as int]) && !white_space(
            text@[range.1 - 1],
        ),
{
    let mut a: usize = from;
    let mut b: usize = to;
    let ghost goal = trimmed(text@.subrange(from as int, to as int));
    while a < b && is_white_space(text[a])
        invariant
            from <= a <= b <= text@.len(),
            b == to,
            forall|i: int| from <= i < a ==> white_space(#[trigger] text@[i]),
            trimmed(text@.subrange(a as int, b as int)) == goal,
        decreases b - a,
    {
        proof {
            let part = text@.subrange(a as int, b as int);
            assert(part.drop_first() =~= text@.subrange(a + 1, b as int));
        }
        a += 1;
    }
    while a < b && is_white_space(text[b - 1])
        invariant
            from <= a <= b <= to <= text@.len(),
            a < b ==> !white_space(text@[a as int]),
            forall|i: int| from <= i < a ==> white_space(#[trigger] text@[i]),
            forall|i: int| b <= i < to ==> white_space(#[trigger] text@[i]),
            trimmed(text@.subrange(a as int, b as int)) == goal,
        decreases b - a,
    {
        proof {
            let part = text@.subrange(a as int, b as int);
            assert(part.drop_last() =~= text@.subrange(a as int, b - 1));
        }
        b -= 1;
    }
    (a, b)
}

/// The characters from position `from` up to `to`.
pub fn part_of(text: &Vec<char>, from: usize, to: usize) -> (part: Vec<char>)
    requires
        from <= to <= text@.len(),
    ensures
        part@ == text@.subrange(from as int, to as int),
{
    let mut part: Vec<char> = Vec::new();
    let mut i: usize = from;
    while i < to
        invariant
            from <= i <= to <= text@.len(),
            part@ =~= text@.subrange(from as int, i as int),
        decreases to - i,
    {
        part.push(text[i]);
        i += 1;
    }
    part
}

/// The text from position `from` up to `to`.
pub fn cut(text: &str, from: usize, to: usize) -> (part: String)
    requires
        from <= to <= text@.len(),
    ensures
        part@ == text@.subrange(from as int, to as int),
{
    text.substring_char(from, to).to_owned()
}

} // verus!

//! Arguments of a call in the order in which the model wrote them.

use crate::json;
use crate::json::Member;
use crate::text;
use crate::tool_calling::minimax_laws;
use vstd::prelude::*;
use vstd::string::*;

verus! {

/// Opens a parameter; its name follows in quotation marks.
pub const PARAMETER_START: &'static str = "<parameter name=";

/// The parameter names that stand in `function` from position `from` on, in order:
/// what follows the opening marker between two quotation marks, trimmed. A marker
/// that no quotation mark follows names nothing, nor does a blank name; behind a
/// quotation mark that stays open nothing is looked for.
pub open spec fn names_from(function: Seq<char>, from: int) -> Seq<Seq<char>>
    decreases function.len() - from,
{
    if from < 0 {
        Seq::empty()
    } else {
        match text::find_from(function, PARAMETER_START@, from) {
            None => Seq::empty(),
            Some(at) => {
                let start = at + PARAMETER_START@.len();
                proof {
                    text::lemma_find_from(function, PARAMETER_START@, from);
                    lemma_parameter_start();
                }
                if start < function.len() && function[start] == '"' {
                    match text::find_from(function, seq!['"'], start + 1) {
                        None => Seq::empty(),
                        Some(end) => {
                            proof {
                                text::lemma_find_from(function, seq!['"'], start + 1);
                            }
                            let name = text::trimmed(function.subrange(start + 1, end));
                            if name.len() == 0 {
                                names_from(function, end + 1)
                            } else {
                                seq![name] + names_from(function, end + 1)
                            }
                        },
                    }
                } else {
                    names_from(function, start)
                }
            },
        }
    }
}

/// The opening marker of a parameter has sixteen characters.
pub proof fn lemma_parameter_start()
    ensures
        PARAMETER_START@.len() == 16,
{
    reveal_strlit("<parameter name=");
}

/// The parameter names of an invocation, in order.
pub open spec fn source_names(function: Seq<char>) -> Seq<Seq<char>> {
    names_from(function, 0)
}

/// The texts of a list of strings.
pub open spec fn texts(list: Seq<String>) -> Seq<Seq<char>> {
    list.map_values(|s: String| s@)
}

/// Parameter names in the order they appear in an invoke block.
pub fn source_parameter_order(function: &str) -> (names: Vec<String>)
    ensures
        texts(names@) == source_names(function@),
        names@.len() == source_names(function@).len(),
        forall|i: int|
            0 <= i < names@.len() ==> (#[trigger] names@[i])@ == source_names(function@)[i],
{
    proof {
        law_texts_view();
    }

    let chars = text::chars_of(function);
    let marker = text::chars_of(PARAMETER_START);
    let mut quote: Vec<char> = Vec::new();
    quote.push('"');
    let mut names: Vec<String> = Vec::new();
    let mut cursor: usize = 0;
    proof {
        lemma_parameter_start();
        assert(quote@ =~= seq!['"']);
        assert(texts(names@) + names_from(function@, 0) =~= source_names(function@));
    }
    loop
        invariant
            chars@ == function@,
            marker@ == PARAMETER_START@,
            marker@.len() == 16,
            quote@ == seq!['"'],
            cursor <= chars.len(),
            texts(names@) + names_from(function@, cursor as int) == source_names(function@),
        decreases function@.len() - cursor,
    {
        proof {
            text::lemma_find_from(function@, PARAMETER_START@, cursor as int);
        }
        let start: usize = match text::position_from(&chars, &marker, cursor) {
            None => {
                assert(texts(names@) =~= source_names(function@));
                return names;
            },
            Some(at) => at + marker.len(),
        };
        if start >= chars.len() || chars[start] != '"' {
            cursor = start;
            continue;
        }
        let end: usize = match text::position_from(&chars, &quote, start + 1) {
            None => {
                assert(texts(names@) =~= source_names(function@));
                return names;
            },
            Some(end) => end,
        };
        proof {
            text::lemma_find_from(function@, seq!['"'], start + 1);
        }
        let (a, b) = text::trim_range(&chars, start + 1, end);
        let ghost before = texts(names@);
        let ghost name = function@.subrange(a as int, b as int);
        assert(name.len() == b - a);
        if a < b {
            names.push(text::cut(function, a, b));
            proof {
                assert(texts(names@) =~= before.push(name));
                assert(before.push(name) + names_from(function@, end + 1) =~= before + (seq![name]
                    + names_from(function@, end + 1)));
            }
        }
        cursor = end + 1;
    }
}

/// The value of the member with this key.
pub open spec fn member_value(members: Seq<(Seq<char>, Seq<char>)>, key: Seq<char>) -> Option<
    Seq<char>,
>
    decreases members.len(),
{
    if members.len() == 0 {
        None
    } else if members.first().0 == key {
        Some(members.first().1)
    } else {
        member_value(members.drop_first(), key)
    }
}

/// The members that `names` names, in the order in which it first names them.
pub open spec fn named_members(
    members: Seq<(Seq<char>, Seq<char>)>,
    names: Seq<Seq<char>>,
) -> Seq<(Seq<char>, Seq<char>)>
    decreases names.len(),
{
    if names.len() == 0 {
        Seq::empty()
    } else {
        let before = named_members(members, names.drop_last());
        if names.drop_last().contains(names.last()) {
            before
        } else {
            match member_value(members, names.last()) {
                Some(value) => before.push((names.last(), value)),
                None => before,
            }
        }
    }
}

/// The members that `names` does not name, in their own order.
pub open spec fn other_members(
    members: Seq<(Seq<char>, Seq<char>)>,
    names: Seq<Seq<char>>,
) -> Seq<(Seq<char>, Seq<char>)>
    decreases members.len(),
{
    if members.len() == 0 {
        Seq::empty()
    } else {
        let before = other_members(members.drop_last(), names);
        if names.contains(members.last().0) {
            before
        } else {
            before.push(members.last())
        }
    }
}

/// The members, those that `names` names first and in the order of `names`.
pub open spec fn ordered(
    members: Seq<(Seq<char>, Seq<char>)>,
    names: Seq<Seq<char>>,
) -> Seq<(Seq<char>, Seq<char>)> {
    named_members(members, names) + other_members(members, names)
}

/// The JSON object with these members, those that `names` names first and in the
/// order of `names`.
pub open spec fn object_text(
    members: Seq<(Seq<char>, Seq<char>)>,
    names: Seq<Seq<char>>,
) -> Seq<char> {
    json::object_of(ordered(members, names))
}

/// Arguments in the order of the parameters of `function`; what is not a JSON
/// object stays as it is.
pub open spec fn reordered(arguments: Seq<char>, function: Seq<char>) -> Seq<char> {
    match json::object_members(arguments) {
        None => arguments,
        Some(members) => object_text(members, source_names(function)),
    }
}

/// The place of the member with this key.
fn find_member(members: &Vec<Member>, key: &String) -> (found: Option<usize>)
    ensures
        found matches Some(i) ==> i < members@.len() && members@[i as int].key@ == key@
            && member_value(json::members_view(members@), key@) == Some(
            members@[i as int].value@,
        ),
        found is None ==> member_value(json::members_view(members@), key@) is None,
{
    let ghost all = json::members_view(members@);
    let mut i: usize = 0;
    assert(all.skip(0) =~= all);
    while i < members.len()
        invariant
            i <= members@.len(),
            all == json::members_view(members@),
            member_value(all, key@) == member_value(all.skip(i as int), key@),
        decreases members@.len() - i,
    {
        proof {
            assert(all.skip(i as int).first() == members@[i as int]@);
            assert(all.skip(i as int).drop_first() =~= all.skip(i + 1));
        }
        if members[i].key == *key {
            return Some(i);
        }
        i += 1;
    }
    None
}

/// Whether the first `n` of `names` hold `name`.
fn holds_name(names: &Vec<String>, n: usize, name: &String) -> (holds: bool)
    requires
        n <= names@.len(),
    ensures
        holds == texts(names@).take(n as int).contains(name@),
{
    let ghost first = texts(names@).take(n as int);
    let mut i: usize = 0;
    while i < n
        invariant
            i <= n <= names@.len(),
            first == texts(names@).take(n as int),
            forall|j: int| 0 <= j < i ==> #[trigger] first[j] != name@,
        decreases n - i,
    {
        assert(first[i as int] == names@[i as int]@);
        if names[i] == *name {
            return true;
        }
        i += 1;
    }
    false
}

/// A member as it is written in JSON.
fn write_member(key: &String, value: &String) -> (text: String)
    ensures
        text@ == json::member_text((key@, value@)),
{
    let mut text = json::write_string(key.as_str());
    text.append(":");
    text.append(value.as_str());
    proof {
        reveal_strlit(":");
        assert(":"@ =~= seq![':']);
    }
    text
}

/// The parts with a comma between each two.
fn join_parts(parts: &Vec<String>) -> (text: String)
    ensures
        text@ == json::comma_joined(texts(parts@)),
{
    let mut text = String::new();
    let ghost all = texts(parts@);
    let mut i: usize = 0;
    proof {
        reveal_strlit(",");
        assert(","@ =~= seq![',']);
        assert(text@ =~= json::comma_joined(all.take(0)));
    }
    while i < parts.len()
        invariant
            i <= parts@.len(),
            all == texts(parts@),
            ","@ == seq![','],
            text@ == json::comma_joined(all.take(i as int)),
        decreases parts@.len() - i,
    {
        let ghost before = text@;
        if i > 0 {
            text.append(",");
        }
        text.append(parts[i].as_str());
        proof {
            assert(all.take(i + 1).drop_last() =~= all.take(i as int));
            assert(all.take(i + 1).last() == parts@[i as int]@);
            if i == 0 {
                assert(all.take(1)[0] == parts@[0]@);
                assert(text@ =~= parts@[0]@);
            }
        }
        i += 1;
    }
    assert(all.take(i as int) =~= all);
    text
}

/// The JSON object with these members, in the order of the parameters of
/// `function`; members that `function` does not name come last.
pub fn reorder_members(members: &Vec<Member>, function: &str) -> (text: String)
    ensures
        text@ == object_text(json::members_view(members@), source_names(function@)),
        text@ == json::object_of(
            ordered(
                Seq::new(members@.len(), |i: int| (members@[i].key@, members@[i].value@)),
                source_names(function@),
            ),
        ),
{
    assert(json::members_view(members@) =~= Seq::new(
        members@.len(),
        |i: int| (members@[i].key@, members@[i].value@),
    ));

    let names = source_parameter_order(function);
    let ghost all = json::members_view(members@);
    let ghost sources = source_names(function@);
    let mut parts: Vec<String> = Vec::new();
    let mut i: usize = 0;
    proof {
        assert(texts(parts@) =~= json::member_texts(named_members(all, sources.take(0))));
    }
    while i < names.len()
        invariant
            i <= names@.len(),
            all == json::members_view(members@),
            sources == texts(names@),
            texts(parts@) == json::member_texts(named_members(all, sources.take(i as int))),
        decreases names@.len() - i,
    {
        let ghost before = texts(parts@);
        let ghost listed = named_members(all, sources.take(i as int));
        proof {
            assert(sources.take(i + 1).drop_last() =~= sources.take(i as int));
            assert(sources.take(i + 1).last() == names@[i as int]@);
        }
        if !holds_name(&names, i, &names[i]) {
            if let Some(k) = find_member(members, &names[i]) {
                let part = write_member(&names[i], &members[k].value);
                parts.push(part);
                proof {
                    let member = (names@[i as int]@, members@[k as int].value@);
                    assert(texts(parts@) =~= before.push(part@));
                    assert(json::member_texts(listed.push(member)) =~= before.push(part@));
                }
            }
        }
        i += 1;
    }
    let ghost named = named_members(all, sources);
    let mut k: usize = 0;
    proof {
        assert(sources.take(i as int) =~= sources);
        assert(named + other_members(all.take(0), sources) =~= named);
    }
    while k < members.len()
        invariant
            k <= members@.len(),
            all == json::members_view(members@),
            sources == texts(names@),
            texts(parts@) == json::member_texts(
                named + other_members(all.take(k as int), sources),
            ),
        decreases members@.len() - k,
    {
        let ghost before = texts(parts@);
        let ghost others = other_members(all.take(k as int), sources);
        proof {
            assert(all.take(k + 1).drop_last() =~= all.take(k as int));
            assert(all.take(k + 1).last() == members@[k as int]@);
            assert(sources.take(names@.len() as int) =~= sources);
        }
        if !holds_name(&names, names.len(), &members[k].key) {
            let part = write_member(&members[k].key, &members[k].value);
            parts.push(part);
            proof {
                let member = members@[k as int]@;
                assert(texts(parts@) =~= before.push(part@));
                assert(named + others.push(member) =~= (named + others).push(member));
                assert(json::member_texts((named + others).push(member)) =~= before.push(part@));
            }
        }
        k += 1;
    }
    proof {
        assert(all.take(k as int) =~= all);
        reveal_strlit("{");
        reveal_strlit("}");
        assert("{"@ =~= seq!['{']);
        assert("}"@ =~= seq!['}']);
    }
    "{".to_owned().concat(join_parts(&parts).as_str()).concat("}")
}

/// Writes a call's arguments anew in the order of the parameters of `function`. What
/// is written holds the members that were read, each once. Where it can be read and its
/// numbers have neither fraction nor exponent, it is read as these members; and where
/// they have neither, doing it again changes nothing.
pub fn reorder_arguments(arguments: &str, function: &str) -> (text: String)
    ensures
        text@ == reordered(arguments@, function@),
        json::object_members(arguments@) is None ==> text@ == arguments@,
        json::object_members(arguments@) matches Some(members) ==> text@ == json::object_of(
            ordered(members, source_names(function@)),
        ),
        json::object_members(arguments@) is None ==> reordered(text@, function@) == text@,
        json::object_members(arguments@) matches Some(members) ==> ({
            let kept = ordered(members, source_names(function@));
            &&& json::same_members(kept, members)
            &&& json::legible(kept) && json::all_whole_numbers(members) ==> json::object_members(
                text@,
            ) == Some(kept)
            &&& !json::legible(kept) ==> json::object_members(text@) is None
            &&& json::all_whole_numbers(members) ==> reordered(text@, function@) == text@
        }),
{
    match json::read_object(arguments) {
        None => arguments.to_owned(),
        Some(members) => {
            proof {
                let list = json::members_view(members@);
                law_members_are_kept(list, source_names(function@));
                law_ordering_twice_is_ordering_once(list, source_names(function@));
                if json::all_whole_numbers(list) {
                    lemma_whole_numbers_kept(ordered(list, source_names(function@)), list);
                }
            }
            reorder_members(&members, function)
        },
    }
}

/// Whether numbers have a fraction or an exponent does not depend on the order of the
/// members.
proof fn lemma_whole_numbers_kept(
    other: Seq<(Seq<char>, Seq<char>)>,
    members: Seq<(Seq<char>, Seq<char>)>,
)
    requires
        json::same_members(other, members),
        json::all_whole_numbers(members),
    ensures
        json::all_whole_numbers(other),
{
    assert forall|i: int| 0 <= i < other.len() implies json::whole_numbers(
        (#[trigger] other[i]).1,
    ) by {
        assert(other.contains(other[i]));
        let k = members.index_of(other[i]);
        assert(members[k] == other[i]);
    }
}

/// A key has a value where a member lists both, and only there.
proof fn lemma_member_value(members: Seq<(Seq<char>, Seq<char>)>, m: (Seq<char>, Seq<char>))
    requires
        json::distinct_keys(members),
    ensures
        members.contains(m) == (member_value(members, m.0) == Some(m.1)),
    decreases members.len(),
{
    if members.len() > 0 {
        let rest = members.drop_first();
        assert(forall|i: int| 0 <= i < rest.len() ==> #[trigger] rest[i] == members[i + 1]);
        lemma_member_value(rest, m);
        if members.contains(m) {
            let i = members.index_of(m);
            if i > 0 {
                assert(rest[i - 1] == m);
                assert(members[0].0 != members[i].0);
            }
        }
        if rest.contains(m) {
            let i = rest.index_of(m);
            assert(members[i + 1] == m);
            assert(members[0].0 != members[i + 1].0);
        }
        if members.first().0 == m.0 && members.first().1 == m.1 {
            assert(members[0] == m);
        }
    }
}

/// What is named: the members whose keys are among the names, each once.
proof fn lemma_named(members: Seq<(Seq<char>, Seq<char>)>, names: Seq<Seq<char>>)
    ensures
        json::distinct_keys(named_members(members, names)),
        forall|m: (Seq<char>, Seq<char>)| #[trigger]
            named_members(members, names).contains(m) == (names.contains(m.0) && member_value(
                members,
                m.0,
            ) == Some(m.1)),
    decreases names.len(),
{
    let named = named_members(members, names);
    if names.len() > 0 {
        let fewer = names.drop_last();
        let before = named_members(members, fewer);
        lemma_named(members, fewer);
        assert forall|k: Seq<char>| #[trigger] names.contains(k) == (fewer.contains(k) || k
            == names.last()) by {
            lemma_contains_last(names, k);
        }
        if !fewer.contains(names.last()) && member_value(members, names.last()) is Some {
            let last = (names.last(), member_value(members, names.last())->0);
            assert(named == before.push(last));
            assert forall|m: (Seq<char>, Seq<char>)| #[trigger] named.contains(m) == (
            before.contains(m) || m == last) by {
                lemma_contains_last(named, m);
                assert(named.drop_last() =~= before);
            }
            assert forall|i: int, j: int| 0 <= i < j < named.len() implies (
            #[trigger] named[i]).0 != (#[trigger] named[j]).0 by {
                if j == before.len() {
                    assert(before.contains(before[i]));
                }
            }
        }
    }
}

/// What is in a list is in front of its last item or is that item.
proof fn lemma_contains_last<A>(list: Seq<A>, item: A)
    requires
        list.len() > 0,
    ensures
        list.contains(item) == (list.drop_last().contains(item) || item == list.last()),
{
    let front = list.drop_last();
    if list.contains(item) {
        let i = list.index_of(item);
        if i < front.len() {
            assert(front[i] == item);
        }
    }
    if front.contains(item) {
        let i = front.index_of(item);
        assert(list[i] == item);
    }
    assert(list[list.len() - 1] == list.last());
}

/// What is not named: the members whose keys are not among the names, each once.
proof fn lemma_others(members: Seq<(Seq<char>, Seq<char>)>, names: Seq<Seq<char>>)
    requires
        json::distinct_keys(members),
    ensures
        json::distinct_keys(other_members(members, names)),
        forall|m: (Seq<char>, Seq<char>)| #[trigger]
            other_members(members, names).contains(m) == (members.contains(m) && !names.contains(
                m.0,
            )),
    decreases members.len(),
{
    let others = other_members(members, names);
    if members.len() > 0 {
        let fewer = members.drop_last();
        let last = members.last();
        let before = other_members(fewer, names);
        assert(forall|i: int| 0 <= i < fewer.len() ==> #[trigger] fewer[i] == members[i]);
        lemma_others(fewer, names);
        assert forall|m: (Seq<char>, Seq<char>)| #[trigger] members.contains(m) == (fewer.contains(
            m,
        ) || m == last) by {
            lemma_contains_last(members, m);
        }
        if !names.contains(last.0) {
            assert(others == before.push(last));
            assert forall|m: (Seq<char>, Seq<char>)| #[trigger] others.contains(m) == (
            before.contains(m) || m == last) by {
                lemma_contains_last(others, m);
                assert(others.drop_last() =~= before);
            }
            assert forall|i: int, j: int| 0 <= i < j < others.len() implies (
            #[trigger] others[i]).0 != (#[trigger] others[j]).0 by {
                if j == before.len() {
                    assert(before.contains(before[i]));
                    let k = fewer.index_of(before[i]);
                    assert(members[k].0 != members[members.len() - 1].0);
                }
            }
        }
    }
}

/// Ordering keeps the members: the object that is written lists every member that was
/// read, each once, and nothing else.
pub proof fn law_members_are_kept(members: Seq<(Seq<char>, Seq<char>)>, names: Seq<Seq<char>>)
    requires
        json::distinct_keys(members),
    ensures
        json::same_members(ordered(members, names), members),
        ordered(members, names).len() == members.len(),
        forall|m: (Seq<char>, Seq<char>)| #[trigger]
            ordered(members, names).contains(m) == members.contains(m),
        forall|i: int, j: int|
            0 <= i < j < members.len() ==> (#[trigger] ordered(members, names)[i]).0 != (
            #[trigger] ordered(members, names)[j]).0,
        object_text(members, names) == json::object_of(ordered(members, names)),
{
    let named = named_members(members, names);
    let others = other_members(members, names);
    let all = ordered(members, names);
    lemma_named(members, names);
    lemma_others(members, names);
    assert forall|m: (Seq<char>, Seq<char>)| #[trigger] all.contains(m) == members.contains(m) by {
        lemma_member_value(members, m);
        lemma_contains_either(named, others, m);
    }
    assert forall|i: int, j: int| 0 <= i < j < all.len() implies (#[trigger] all[i]).0 != (
    #[trigger] all[j]).0 by {
        if i < named.len() && named.len() <= j {
            assert(named.contains(named[i]));
            assert(others.contains(others[j - named.len()]));
        }
    }
    lemma_same_length(all, members);
}

/// What is in two lists joined is in one of them.
proof fn lemma_contains_either<A>(first: Seq<A>, second: Seq<A>, item: A)
    ensures
        (first + second).contains(item) == (first.contains(item) || second.contains(item)),
{
    let both = first + second;
    if both.contains(item) {
        let i = both.index_of(item);
        if i < first.len() {
            assert(first[i] == item);
        } else {
            assert(second[i - first.len()] == item);
        }
    }
    if first.contains(item) {
        assert(both[first.index_of(item)] == item);
    }
    if second.contains(item) {
        assert(both[first.len() + second.index_of(item)] == item);
    }
}

/// Two lists of the same members have the same length.
proof fn lemma_same_length(
    other: Seq<(Seq<char>, Seq<char>)>,
    members: Seq<(Seq<char>, Seq<char>)>,
)
    requires
        json::distinct_keys(members),
        json::same_members(other, members),
    ensures
        other.len() == members.len(),
{
    other.unique_seq_to_set();
    members.unique_seq_to_set();
    assert(other.to_set() =~= members.to_set());
}

/// The members that are named depend on the values of the keys alone.
proof fn lemma_named_by_values(
    a: Seq<(Seq<char>, Seq<char>)>,
    b: Seq<(Seq<char>, Seq<char>)>,
    names: Seq<Seq<char>>,
)
    requires
        forall|k: Seq<char>| #[trigger] member_value(a, k) == member_value(b, k),
    ensures
        named_members(a, names) == named_members(b, names),
    decreases names.len(),
{
    if names.len() > 0 {
        lemma_named_by_values(a, b, names.drop_last());
    }
}

/// The members of two lists joined that are not named are those of the one and then
/// those of the other.
proof fn lemma_others_joined(
    a: Seq<(Seq<char>, Seq<char>)>,
    b: Seq<(Seq<char>, Seq<char>)>,
    names: Seq<Seq<char>>,
)
    ensures
        other_members(a + b, names) == other_members(a, names) + other_members(b, names),
    decreases b.len(),
{
    if b.len() == 0 {
        assert(a + b =~= a);
        assert(other_members(a, names) + other_members(b, names) =~= other_members(a, names));
    } else {
        lemma_others_joined(a, b.drop_last(), names);
        assert((a + b).drop_last() =~= a + b.drop_last());
        assert((a + b).last() == b.last());
        assert(other_members(a + b, names) =~= other_members(a, names) + other_members(b, names));
    }
}

/// Where nothing is named all members are left.
proof fn lemma_all_others(members: Seq<(Seq<char>, Seq<char>)>, names: Seq<Seq<char>>)
    requires
        forall|j: int| 0 <= j < members.len() ==> !names.contains((#[trigger] members[j]).0),
    ensures
        other_members(members, names) == members,
    decreases members.len(),
{
    if members.len() > 0 {
        let before = members.drop_last();
        assert(forall|j: int| 0 <= j < before.len() ==> members[j] == #[trigger] before[j]);
        lemma_all_others(before, names);
        assert(members.last() == members[members.len() - 1]);
        assert(other_members(members, names) =~= members);
    }
}

/// Ordering members that are in order already changes nothing.
pub proof fn law_ordering_twice_is_ordering_once(
    members: Seq<(Seq<char>, Seq<char>)>,
    names: Seq<Seq<char>>,
)
    requires
        json::distinct_keys(members),
    ensures
        ordered(ordered(members, names), names) == ordered(members, names),
        object_text(ordered(members, names), names) == object_text(members, names),
{
    let named = named_members(members, names);
    let others = other_members(members, names);
    let all = ordered(members, names);
    law_members_are_kept(members, names);
    lemma_named(members, names);
    lemma_others(members, names);
    assert forall|k: Seq<char>| #[trigger] member_value(all, k) == member_value(members, k) by {
        if let Some(value) = member_value(all, k) {
            lemma_member_value(all, (k, value));
            lemma_member_value(members, (k, value));
        }
        if let Some(value) = member_value(members, k) {
            lemma_member_value(all, (k, value));
            lemma_member_value(members, (k, value));
        }
    }
    lemma_named_by_values(all, members, names);
    lemma_others_joined(named, others, names);
    assert forall|j: int| 0 <= j < named.len() implies names.contains((#[trigger] named[j]).0) by {
        assert(named.contains(named[j]));
    }
    assert forall|j: int| 0 <= j < others.len() implies !names.contains(
        (#[trigger] others[j]).0,
    ) by {
        assert(others.contains(others[j]));
    }
    lemma_no_others(named, names);
    lemma_all_others(others, names);
    assert(ordered(all, names) =~= all);
}

/// Where every key is named, the object that is written does not depend on the order
/// in which the members were read, only on the value of each key.
pub proof fn law_key_order_is_irrelevant(
    a: Seq<(Seq<char>, Seq<char>)>,
    b: Seq<(Seq<char>, Seq<char>)>,
    names: Seq<Seq<char>>,
)
    requires
        forall|k: Seq<char>| #[trigger] member_value(a, k) == member_value(b, k),
        forall|j: int| 0 <= j < a.len() ==> names.contains((#[trigger] a[j]).0),
        forall|j: int| 0 <= j < b.len() ==> names.contains((#[trigger] b[j]).0),
    ensures
        object_text(a, names) == object_text(b, names),
{
    lemma_named_by_values(a, b, names);
    lemma_no_others(a, names);
    lemma_no_others(b, names);
}

/// The value of a key is that of the first member that has the key.
pub proof fn law_first_member_counts(members: Seq<(Seq<char>, Seq<char>)>, key: Seq<char>)
    ensures
        forall|i: int|
            0 <= i < members.len() && (#[trigger] members[i]).0 == key && (forall|j: int|
                0 <= j < i ==> (#[trigger] members[j]).0 != key) ==> member_value(members, key)
                == Some(members[i].1),
        (forall|j: int| 0 <= j < members.len() ==> (#[trigger] members[j]).0 != key)
            ==> member_value(members, key) is None,
    decreases members.len(),
{
    if members.len() > 0 {
        let rest = members.drop_first();
        law_first_member_counts(rest, key);
        assert(forall|i: int| 0 <= i < rest.len() ==> #[trigger] rest[i] == members[i + 1]);
        assert(members.first() == members[0]);
        assert forall|i: int|
            0 <= i < members.len() && (#[trigger] members[i]).0 == key && (forall|j: int|
                0 <= j < i ==> (#[trigger] members[j]).0 != key) implies member_value(members, key)
            == Some(members[i].1) by {
            if i > 0 {
                assert(members[0].0 != key);
                assert(rest[i - 1].0 == key);
            }
        }
    }
}

/// The key `a` is named before `b` is.
pub open spec fn named_before(names: Seq<Seq<char>>, a: Seq<char>, b: Seq<char>) -> bool {
    exists|p: int|
        0 <= p < names.len() && #[trigger] names[p] == a && forall|q: int|
            0 <= q <= p ==> #[trigger] names[q] != b
}

/// The member `a` is listed before `b`.
pub open spec fn listed_before(
    members: Seq<(Seq<char>, Seq<char>)>,
    a: (Seq<char>, Seq<char>),
    b: (Seq<char>, Seq<char>),
) -> bool {
    exists|p: int, q: int|
        0 <= p < q < members.len() && #[trigger] members[p] == a && #[trigger] members[q] == b
}

/// Of two members, a named one comes before one that is not; of two that are named, the
/// one that was named first; of two that are not, the one that was listed first.
pub proof fn law_order_of_members(
    members: Seq<(Seq<char>, Seq<char>)>,
    names: Seq<Seq<char>>,
    i: int,
    j: int,
)
    requires
        json::distinct_keys(members),
        0 <= i < j < ordered(members, names).len(),
    ensures
        ({
            let a = ordered(members, names)[i];
            let b = ordered(members, names)[j];
            &&& names.contains(b.0) ==> names.contains(a.0) && named_before(names, a.0, b.0)
            &&& !names.contains(a.0) ==> !names.contains(b.0) && listed_before(members, a, b)
        }),
{
    let named = named_members(members, names);
    let others = other_members(members, names);
    lemma_named(members, names);
    lemma_others(members, names);
    let k = named.len() as int;
    if j < k {
        assert(named.contains(named[i]) && named.contains(named[j]));
        lemma_named_in_turn(members, names, i, j);
    } else if i < k {
        assert(named.contains(named[i]) && others.contains(others[j - k]));
    } else {
        assert(others.contains(others[i - k]) && others.contains(others[j - k]));
        lemma_others_in_turn(members, names, i - k, j - k);
    }
}

/// The members that are named come in the order in which they are named.
proof fn lemma_named_in_turn(
    members: Seq<(Seq<char>, Seq<char>)>,
    names: Seq<Seq<char>>,
    i: int,
    j: int,
)
    requires
        0 <= i < j < named_members(members, names).len(),
    ensures
        named_before(
            names,
            named_members(members, names)[i].0,
            named_members(members, names)[j].0,
        ),
    decreases names.len(),
{
    if names.len() > 0 {
        let fewer = names.drop_last();
        let before = named_members(members, fewer);
        let named = named_members(members, names);
        lemma_named(members, fewer);
        assert(forall|p: int| 0 <= p < fewer.len() ==> #[trigger] fewer[p] == names[p]);
        if j < before.len() {
            lemma_named_in_turn(members, fewer, i, j);
            let (a, b) = (before[i].0, before[j].0);
            let p = choose|p: int|
                0 <= p < fewer.len() && #[trigger] fewer[p] == a && forall|q: int|
                    0 <= q <= p ==> #[trigger] fewer[q] != b;
            assert(names[p] == a);
            assert forall|q: int| 0 <= q <= p implies #[trigger] names[q] != b by {
                assert(fewer[q] != b);
            }
        } else {
            let a = before[i].0;
            assert(before.contains(before[i]));
            let p = fewer.index_of(a);
            assert(names[p] == a);
            assert forall|q: int| 0 <= q <= p implies #[trigger] names[q] != named[j].0 by {
                assert(fewer.contains(fewer[q]));
            }
        }
    }
}

/// The members that are not named come in the order in which they are listed.
proof fn lemma_others_in_turn(
    members: Seq<(Seq<char>, Seq<char>)>,
    names: Seq<Seq<char>>,
    i: int,
    j: int,
)
    requires
        json::distinct_keys(members),
        0 <= i < j < other_members(members, names).len(),
    ensures
        listed_before(
            members,
            other_members(members, names)[i],
            other_members(members, names)[j],
        ),
    decreases members.len(),
{
    if members.len() > 0 {
        let fewer = members.drop_last();
        let before = other_members(fewer, names);
        assert(forall|p: int| 0 <= p < fewer.len() ==> #[trigger] fewer[p] == members[p]);
        lemma_others(fewer, names);
        if j < before.len() {
            lemma_others_in_turn(fewer, names, i, j);
            let (p, q) = choose|p: int, q: int|
                0 <= p < q < fewer.len() && #[trigger] fewer[p] == before[i] && #[trigger] fewer[q]
                    == before[j];
            assert(members[p] == before[i] && members[q] == before[j]);
        } else {
            assert(before.contains(before[i]));
            let p = fewer.index_of(before[i]);
            assert(members[p] == before[i]);
            assert(members[members.len() - 1] == members.last());
        }
    }
}

/// The view of a list of strings shows each of them.
pub proof fn law_texts_view()
    ensures
        forall|list: Seq<String>| #[trigger] texts(list).len() == list.len(),
        forall|list: Seq<String>, i: int|
            0 <= i < list.len() ==> #[trigger] texts(list)[i] == list[i]@,
{
}

/// The opening marker of a parameter has one `<`, its first character.
proof fn lemma_parameter_marker()
    ensures
        PARAMETER_START@.len() == 16,
        PARAMETER_START@[0] == '<',
        forall|k: int| 0 < k < 16 ==> #[trigger] PARAMETER_START@[k] != '<',
{
    reveal_strlit("<parameter name=");
}

/// The names behind a position are the names of the rest from that position on.
proof fn lemma_names_behind(function: Seq<char>, k: int, from: int)
    requires
        0 <= k <= function.len(),
        0 <= from,
    ensures
        names_from(function, k + from) == names_from(function.skip(k), from),
    decreases function.len() - k - from,
{
    let rest = function.skip(k);
    lemma_parameter_marker();
    text::lemma_find_behind(function, PARAMETER_START@, k, from);
    text::lemma_find_from(rest, PARAMETER_START@, from);
    if let Some(at) = text::find_from(rest, PARAMETER_START@, from) {
        let start = at + PARAMETER_START@.len();
        if start < rest.len() && rest[start] == '"' {
            text::lemma_find_behind(function, seq!['"'], k, start + 1);
            text::lemma_find_from(rest, seq!['"'], start + 1);
            if let Some(end) = text::find_from(rest, seq!['"'], start + 1) {
                assert(function.subrange(k + start + 1, k + end) =~= rest.subrange(start + 1, end));
                lemma_names_behind(function, k, end + 1);
            }
        } else {
            lemma_names_behind(function, k, start);
        }
    }
}

/// Where no parameter opens there is no name.
pub proof fn law_no_parameter_no_name(function: Seq<char>)
    requires
        text::find(function, PARAMETER_START@) is None,
    ensures
        source_names(function) == Seq::<Seq<char>>::empty(),
{
}

/// The name of a parameter is what stands between the two quotation marks behind its
/// opening marker, trimmed. It comes before the names behind it; a blank one is left
/// out.
pub proof fn law_quoted_name_is_taken(gap: Seq<char>, name: Seq<char>, rest: Seq<char>)
    requires
        text::find(gap, PARAMETER_START@) is None,
        forall|i: int| 0 <= i < name.len() ==> #[trigger] name[i] != '"',
    ensures
        source_names(gap + (PARAMETER_START@ + (seq!['"'] + name + seq!['"'] + rest))) == if (
        text::trimmed(name)).len() == 0 {
            source_names(rest)
        } else {
            seq![text::trimmed(name)] + source_names(rest)
        },
{
    let quoted = seq!['"'] + name + seq!['"'] + rest;
    let function = gap + (PARAMETER_START@ + quoted);
    lemma_parameter_marker();
    minimax_laws::lemma_found_next(gap, PARAMETER_START@, quoted);
    let start = gap.len() as int + PARAMETER_START@.len();
    let end = start + 1 + name.len();
    assert(function[start] == '"');
    assert(function[end] == '"');
    assert(function.subrange(end, end + 1) =~= seq!['"']);
    assert forall|j: int| start + 1 <= j < end implies !#[trigger] text::occurs_at(
        function,
        seq!['"'],
        j,
    ) by {
        assert(function[j] == name[j - start - 1]);
        assert(function.subrange(j, j + 1)[0] == function[j]);
    }
    text::lemma_found_at(function, seq!['"'], start + 1, end);
    assert(function.subrange(start + 1, end) =~= name);
    assert(function.skip(end + 1) =~= rest);
    lemma_names_behind(function, end + 1, 0);
}

/// An opening marker that no quotation mark follows names nothing.
pub proof fn law_unquoted_name_is_passed_over(gap: Seq<char>, rest: Seq<char>)
    requires
        text::find(gap, PARAMETER_START@) is None,
        rest.len() > 0 ==> rest[0] != '"',
    ensures
        source_names(gap + (PARAMETER_START@ + rest)) == source_names(rest),
{
    let function = gap + (PARAMETER_START@ + rest);
    lemma_parameter_marker();
    minimax_laws::lemma_found_next(gap, PARAMETER_START@, rest);
    let start = gap.len() as int + PARAMETER_START@.len();
    assert(function.skip(start) =~= rest);
    if rest.len() > 0 {
        assert(function[start] == rest[0]);
    }
    lemma_names_behind(function, start, 0);
}

/// Behind a quotation mark that stays open there are no names.
pub proof fn law_open_quotation_ends_the_names(gap: Seq<char>, rest: Seq<char>)
    requires
        text::find(gap, PARAMETER_START@) is None,
        forall|i: int| 0 <= i < rest.len() ==> #[trigger] rest[i] != '"',
    ensures
        source_names(gap + (PARAMETER_START@ + (seq!['"'] + rest))) == Seq::<Seq<char>>::empty(),
{
    let quoted = seq!['"'] + rest;
    let function = gap + (PARAMETER_START@ + quoted);
    lemma_parameter_marker();
    minimax_laws::lemma_found_next(gap, PARAMETER_START@, quoted);
    let start = gap.len() as int + PARAMETER_START@.len();
    assert(function[start] == '"');
    assert forall|j: int| start + 1 <= j implies !#[trigger] text::occurs_at(
        function,
        seq!['"'],
        j,
    ) by {
        if j < function.len() {
            assert(function[j] == rest[j - start - 1]);
            assert(function.subrange(j, j + 1)[0] == function[j]);
        }
    }
    text::lemma_not_found(function, seq!['"'], start + 1);
}

/// The members in the order of their names, where every name has one.
pub open spec fn in_order(members: Seq<(Seq<char>, Seq<char>)>, names: Seq<Seq<char>>) -> Seq<
    (Seq<char>, Seq<char>),
> {
    names.map_values(|name: Seq<char>| (name, member_value(members, name)->0))
}

/// Where the invocation names every member once and nothing else, the object lists its
/// members in the order in which the invocation names them, and nothing else.
pub proof fn law_source_order(members: Seq<(Seq<char>, Seq<char>)>, names: Seq<Seq<char>>)
    requires
        names.no_duplicates(),
        forall|i: int| 0 <= i < names.len() ==> member_value(members, #[trigger] names[i]) is Some,
        forall|j: int| 0 <= j < members.len() ==> names.contains((#[trigger] members[j]).0),
    ensures
        object_text(members, names) == json::object_of(in_order(members, names)),
{
    lemma_named_in_order(members, names);
    lemma_no_others(members, names);
    assert(ordered(members, names) =~= in_order(members, names));
}

/// Names that each have a member and come once name their members in order.
proof fn lemma_named_in_order(members: Seq<(Seq<char>, Seq<char>)>, names: Seq<Seq<char>>)
    requires
        names.no_duplicates(),
        forall|i: int| 0 <= i < names.len() ==> member_value(members, #[trigger] names[i]) is Some,
    ensures
        named_members(members, names) == in_order(members, names),
    decreases names.len(),
{
    if names.len() > 0 {
        let before = names.drop_last();
        assert(forall|i: int| 0 <= i < before.len() ==> names[i] == #[trigger] before[i]);
        lemma_named_in_order(members, before);
        assert(names.last() == names[names.len() - 1]);
        if before.contains(names.last()) {
            let i = before.index_of(names.last());
            assert(names[i] == names[names.len() - 1]);
        }
    }
    assert(named_members(members, names) =~= in_order(members, names));
}

/// Where every key is named no member is left.
proof fn lemma_no_others(members: Seq<(Seq<char>, Seq<char>)>, names: Seq<Seq<char>>)
    requires
        forall|j: int| 0 <= j < members.len() ==> names.contains((#[trigger] members[j]).0),
    ensures
        other_members(members, names) == Seq::<(Seq<char>, Seq<char>)>::empty(),
    decreases members.len(),
{
    if members.len() > 0 {
        let before = members.drop_last();
        assert(forall|j: int| 0 <= j < before.len() ==> members[j] == #[trigger] before[j]);
        lemma_no_others(before, names);
        assert(members.last() == members[members.len() - 1]);
    }
}

} // verus!

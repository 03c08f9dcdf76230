//! JSON text: string literals, and the members of an object.

use vstd::prelude::*;

verus! {

/// The lower-case hexadecimal digit of `n`.
pub open spec fn hex_digit(n: u32) -> char {
    if n < 10 {
        (('0' as u32) + n) as char
    } else {
        (('a' as u32) + (n - 10)) as char
    }
}

/// How one character is written inside a JSON string literal.
pub open spec fn escaped(c: char) -> Seq<char> {
    if c == '"' {
        seq!['\\', '"']
    } else if c == '\\' {
        seq!['\\', '\\']
    } else if c == '\u{8}' {
        seq!['\\', 'b']
    } else if c == '\u{9}' {
        seq!['\\', 't']
    } else if c == '\u{a}' {
        seq!['\\', 'n']
    } else if c == '\u{c}' {
        seq!['\\', 'f']
    } else if c == '\u{d}' {
        seq!['\\', 'r']
    } else if (c as u32) < 0x20 {
        seq!['\\', 'u', '0', '0', hex_digit(c as u32 / 16), hex_digit(c as u32 % 16)]
    } else {
        seq![c]
    }
}

/// How the characters of `text` are written inside a JSON string literal.
pub open spec fn all_escaped(text: Seq<char>) -> Seq<char>
    decreases text.len(),
{
    if text.len() == 0 {
        Seq::empty()
    } else {
        all_escaped(text.drop_last()) + escaped(text.last())
    }
}

/// The JSON string literal that stands for `text`.
pub open spec fn string_literal(text: Seq<char>) -> Seq<char> {
    seq!['"'] + all_escaped(text) + seq!['"']
}

/// The members of the JSON object that `text` holds, each a key and the compact
/// JSON text of its value, in the order in which the object lists them; nothing
/// where `text` is not JSON or holds another kind of value. This is what
/// `serde_json::from_str` reads from `text`, with its feature `preserve_order`.
pub uninterp spec fn object_members(text: Seq<char>) -> Option<Seq<(Seq<char>, Seq<char>)>>;

/// One member of a JSON object.
pub struct Member {
    /// The key.
    pub key: String,
    /// The value, as compact JSON text.
    pub value: String,
}

impl View for Member {
    type V = (Seq<char>, Seq<char>);

    open spec fn view(&self) -> (Seq<char>, Seq<char>) {
        (self.key@, self.value@)
    }
}

/// The keys and value texts of a list of members.
pub open spec fn members_view(members: Seq<Member>) -> Seq<(Seq<char>, Seq<char>)> {
    members.map_values(|m: Member| m@)
}

/// No two members have the same key.
pub open spec fn distinct_keys(members: Seq<(Seq<char>, Seq<char>)>) -> bool {
    forall|i: int, j: int|
        0 <= i < j < members.len() ==> (#[trigger] members[i]).0 != (#[trigger] members[j]).0
}

/// `other` lists the members of `members`, each once, in any order.
pub open spec fn same_members(
    other: Seq<(Seq<char>, Seq<char>)>,
    members: Seq<(Seq<char>, Seq<char>)>,
) -> bool {
    &&& distinct_keys(other)
    &&& forall|m: (Seq<char>, Seq<char>)| #[trigger] other.contains(m) == members.contains(m)
}

/// A member as it is written in JSON.
pub open spec fn member_text(member: (Seq<char>, Seq<char>)) -> Seq<char> {
    string_literal(member.0) + seq![':'] + member.1
}

/// The members of a list as they are written in JSON.
pub open spec fn member_texts(members: Seq<(Seq<char>, Seq<char>)>) -> Seq<Seq<char>> {
    members.map_values(|m: (Seq<char>, Seq<char>)| member_text(m))
}

/// The parts with a comma between each two.
pub open spec fn comma_joined(parts: Seq<Seq<char>>) -> Seq<char>
    decreases parts.len(),
{
    if parts.len() == 0 {
        Seq::empty()
    } else if parts.len() == 1 {
        parts[0]
    } else {
        comma_joined(parts.drop_last()) + seq![','] + parts.last()
    }
}

/// The JSON object that lists these members, as compact text.
pub open spec fn object_of(members: Seq<(Seq<char>, Seq<char>)>) -> Seq<char> {
    seq!['{'] + comma_joined(member_texts(members)) + seq!['}']
}

/// The view of a list of members shows each of them, with its key and its value.
pub proof fn law_members_view(members: Seq<Member>)
    ensures
        members_view(members).len() == members.len(),
        forall|i: int|
            0 <= i < members.len() ==> #[trigger] members_view(members)[i] == (
                members[i].key@,
                members[i].value@,
            ),
{
}

/// An object without members is a pair of brackets; the first member goes between
/// them, a further one behind the others and a comma. A member is its key as a string
/// literal, a colon and its value.
pub proof fn law_object_of(members: Seq<(Seq<char>, Seq<char>)>, member: (Seq<char>, Seq<char>))
    ensures
        members.len() == 0 ==> object_of(members) == seq!['{', '}'],
        members.len() == 0 ==> object_of(members.push(member)) == seq!['{'] + string_literal(
            member.0,
        ) + seq![':'] + member.1 + seq!['}'],
        members.len() > 0 ==> object_of(members.push(member)) == object_of(members).drop_last()
            + seq![','] + string_literal(member.0) + seq![':'] + member.1 + seq!['}'],
{
    let more = members.push(member);
    assert(member_texts(more).drop_last() =~= member_texts(members));
    assert(member_texts(more).last() == member_text(member));
    if members.len() == 0 {
        assert(object_of(members) =~= seq!['{', '}']);
        assert(member_texts(more)[0] == member_text(member));
        assert(object_of(more) =~= seq!['{'] + string_literal(member.0) + seq![':'] + member.1
            + seq!['}']);
    } else {
        assert(object_of(members).drop_last() =~= seq!['{'] + comma_joined(member_texts(members)));
        assert(object_of(more) =~= object_of(members).drop_last() + seq![','] + string_literal(
            member.0,
        ) + seq![':'] + member.1 + seq!['}']);
    }
}

/// A string literal: quotation marks around the characters, each written by itself.
pub proof fn law_string_literal(text: Seq<char>, c: char)
    ensures
        string_literal(Seq::empty()) == seq!['"', '"'],
        string_literal(text.push(c)) == string_literal(text).drop_last() + escaped(c) + seq!['"'],
        c != '"' && c != '\\' && c as u32 >= 0x20 ==> escaped(c) == seq![c],
        c == '"' || c == '\\' ==> escaped(c) == seq!['\\', c],
{
    assert(string_literal(Seq::empty()) =~= seq!['"', '"']);
    assert(text.push(c).drop_last() =~= text);
    assert(string_literal(text).drop_last() =~= seq!['"'] + all_escaped(text));
    assert(string_literal(text.push(c)) =~= string_literal(text).drop_last() + escaped(c)
        + seq!['"']);
}

/// Where the beginning of a JSON text leads.
pub struct Lexed {
    /// Into a string literal.
    pub quoted: bool,
    /// Behind a backslash in a string literal.
    pub escaped: bool,
    /// Behind this many brackets that are open.
    pub open: int,
}

/// Where the first `n` characters of the JSON text `text` lead.
pub open spec fn lexed(text: Seq<char>, n: int) -> Lexed
    decreases n,
{
    if n <= 0 {
        Lexed { quoted: false, escaped: false, open: 0 }
    } else {
        let before = lexed(text, n - 1);
        let c = text[n - 1];
        if before.quoted {
            Lexed {
                quoted: before.escaped || c != '"',
                escaped: !before.escaped && c == '\\',
                ..before
            }
        } else if c == '[' || c == '{' {
            Lexed { open: before.open + 1, ..before }
        } else if c == ']' || c == '}' {
            Lexed { open: before.open - 1, ..before }
        } else {
            Lexed { quoted: c == '"', ..before }
        }
    }
}

/// No number in the JSON text `text` has a fraction or an exponent.
pub open spec fn whole_numbers(text: Seq<char>) -> bool {
    forall|i: int|
        0 <= i < text.len() && !lexed(text, i).quoted ==> #[trigger] text[i] != '.' && !(text[i]
            == 'e' && i > 0 && '0' <= text[i - 1] <= '9')
}

/// No number in the values of these members has a fraction or an exponent.
pub open spec fn all_whole_numbers(members: Seq<(Seq<char>, Seq<char>)>) -> bool {
    forall|i: int| 0 <= i < members.len() ==> whole_numbers((#[trigger] members[i]).1)
}

/// Never more than 126 brackets of the JSON text `text` are open at once.
pub open spec fn shallow(text: Seq<char>) -> bool {
    forall|i: int| 0 <= i <= text.len() ==> (#[trigger] lexed(text, i)).open <= 126
}

/// The object that lists these members can be read: its first key is not the one that
/// `serde_json` reserves for raw values, and with its own bracket no more than 127,
/// which is as deep as `serde_json` reads, are open at once.
pub open spec fn legible(members: Seq<(Seq<char>, Seq<char>)>) -> bool {
    &&& members.len() > 0 ==> members[0].0 != "$serde_json::private::RawValue"@
    &&& forall|i: int| 0 <= i < members.len() ==> shallow((#[trigger] members[i]).1)
}

/// A JSON value, opaque here: a tool's schema is handed on as it is.
#[verifier::external_type_specification]
#[verifier::external_body]
pub struct ExValue(serde_json::Value);

/// `clone` of `serde_json::Value`. Claimed of it: the copy is the same value.
pub assume_specification[ <serde_json::Value as Clone>::clone ](
    value: &serde_json::Value,
) -> (copy: serde_json::Value)
    ensures
        copy == *value,
;

/// Calls `serde_json::to_string` on a string. Claimed of it: the result is the
/// JSON string literal of `text`, with the quotation mark, the backslash and the
/// characters below U+0020 escaped, the latter by a short escape where JSON has
/// one and else by four lower-case hexadecimal digits, and every other character
/// as it is.
#[verifier::external_body]
pub(crate) fn write_string(text: &str) -> (literal: String)
    ensures
        literal@ == string_literal(text@),
{
    serde_json::to_string(text).unwrap_or_default()
}

/// Calls `serde_json::from_str` and hands out the members of the object it read,
/// each value by the text that `serde_json::to_string` gives of it. Claimed of it:
/// what it reads is a function of `text` alone, which `object_members` names; no key
/// comes twice. Of an object that lists the members it handed out, in any order:
/// where it is `legible` and its numbers have neither fraction nor exponent, which may
/// come back with other last digits, it is read as just these members in that order;
/// where it is not `legible`, it is refused. One whose first key is reserved has other
/// members too, since no object that was read begins with that key, and they are what
/// `serde_json` stumbles over.
#[verifier::external_body]
pub(crate) fn read_object(text: &str) -> (members: Option<Vec<Member>>)
    ensures
        members is Some == object_members(text@) is Some,
        members matches Some(list) ==> object_members(text@) == Some(members_view(list@)),
        members matches Some(list) ==> distinct_keys(members_view(list@)),
        members matches Some(list) ==> forall|other: Seq<(Seq<char>, Seq<char>)>|
            same_members(other, members_view(list@)) && legible(other) && all_whole_numbers(other)
                ==> #[trigger] object_members(object_of(other)) == Some(other),
        members matches Some(list) ==> forall|other: Seq<(Seq<char>, Seq<char>)>|
            same_members(other, members_view(list@)) && !legible(other)
                ==> #[trigger] object_members(object_of(other)) is None,
{
    match serde_json::from_str::<serde_json::Value>(text) {
        Ok(serde_json::Value::Object(map)) => Some(
            map.iter().map(
                |(key, value)| Member {
                    key: key.clone(),
                    value: serde_json::to_string(value).unwrap_or_default(),
                },
            ).collect(),
        ),
        Ok(_) => None,
        Err(_) => None,
    }
}

} // verus!

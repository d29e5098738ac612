//! JSON metadata files.
//!
//! [`nojson`] parses the text; looking up members and converting values is done here.

use crate::decimal::{parse_u64_text, same_chars, text_chars};
use crate::error::StorageError;
use vstd::prelude::*;

verus! {

use crate::decimal::{is_decimal, parsed_u64};
use crate::json_text::{indented, object_text, quoted, Members};

#[verifier::external_type_specification]
#[verifier::external_body]
pub struct ExRawJsonOwned(nojson::RawJsonOwned);

#[verifier::external_type_specification]
#[verifier::external_body]
pub struct ExJsonParseError(nojson::JsonParseError);

/// The kind of a JSON value.
#[derive(Debug, Clone, Copy, PartialEq, Eq, Structural)]
pub enum JsonKind {
    /// `null`.
    Null,
    /// `true` or `false`.
    Boolean,
    /// A number without fraction and exponent.
    Integer,
    /// Any other number.
    Float,
    /// A string.
    String,
    /// An array.
    Array,
    /// An object.
    Object,
}

/// The text that a [`nojson::RawJsonOwned`] holds.
pub uninterp spec fn json_text(json: nojson::RawJsonOwned) -> Seq<char>;

/// Whether [`nojson::RawJsonOwned::parse`] accepts a text.
pub uninterp spec fn json_valid(text: Seq<char>) -> bool;

/// What [`nojson::RawJsonValue::kind`] says of the value in a text.
pub uninterp spec fn json_kind_of(text: Seq<char>) -> JsonKind;

/// What [`nojson::RawJsonValue::to_object`] gives for the object in a text: the names, and
/// the texts of the values.
pub uninterp spec fn json_members_of(text: Seq<char>) -> Seq<(Seq<char>, Seq<char>)>;

/// What [`nojson::RawJsonValue::to_unquoted_string_str`] gives for the string in a text.
pub uninterp spec fn json_unquoted_of(text: Seq<char>) -> Seq<char>;

// ---------------------------------------------------------------------------------------
// Texts that read back as they were written
// ---------------------------------------------------------------------------------------

/// Printable ASCII without quotes, backslashes and number signs: such a string stands for
/// itself. A number sign does too, but `nojson` refuses it before a closing quote on machines
/// that store the most significant byte first.
pub open spec fn is_plain(s: Seq<char>) -> bool {
    forall|i: int|
        0 <= i < s.len() ==> ' ' <= #[trigger] s[i] && s[i] <= '~' && s[i] != '"' && s[i] != '\\'
            && s[i] != '#'
}

/// JSON whitespace.
pub open spec fn is_json_space(c: char) -> bool {
    c == ' ' || c == '\n' || c == '\r' || c == '\t'
}

/// No whitespace at either end.
pub open spec fn is_trimmed(s: Seq<char>) -> bool {
    s.len() > 0 && !is_json_space(s[0]) && !is_json_space(s.last())
}

/// Whether the text is one JSON value without whitespace around it: a natural number, a
/// truth value, a plain string, any valid JSON, or an indented object of such values that
/// is nested at most `depth` deep.
pub open spec fn is_value_text(s: Seq<char>, depth: nat) -> bool
    decreases depth,
{
    ||| is_decimal(s)
    ||| s == "true"@ || s == "false"@
    ||| exists|t: Seq<char>| s == #[trigger] quoted(t) && is_plain(t)
    ||| json_valid(s) && is_trimmed(s)
    ||| depth > 0 && exists|level: nat, members: Members|
        s == #[trigger] object_text(indented(level), members) && forall|i: int|
            0 <= i < members.len() ==> is_plain((#[trigger] members[i]).0) && is_value_text(
                members[i].1,
                (depth - 1) as nat,
            )
}

/// Like [`is_value_text`], of natural numbers, truth values and plain strings only.
pub open spec fn is_simple_text(s: Seq<char>, depth: nat) -> bool
    decreases depth,
{
    ||| is_decimal(s)
    ||| s == "true"@ || s == "false"@
    ||| exists|t: Seq<char>| s == #[trigger] quoted(t) && is_plain(t)
    ||| depth > 0 && exists|level: nat, members: Members|
        s == #[trigger] object_text(indented(level), members) && forall|i: int|
            0 <= i < members.len() ==> is_plain((#[trigger] members[i]).0) && is_simple_text(
                members[i].1,
                (depth - 1) as nat,
            )
}

/// Simple texts are value texts.
pub proof fn simple_is_value(s: Seq<char>, depth: nat)
    requires
        is_simple_text(s, depth),
    ensures
        is_value_text(s, depth),
    decreases depth,
{
    if depth > 0 && exists|level: nat, members: Members|
        s == #[trigger] object_text(indented(level), members) && forall|i: int|
            0 <= i < members.len() ==> is_plain((#[trigger] members[i]).0) && is_simple_text(
                members[i].1,
                (depth - 1) as nat,
            ) {
        let (level, members) = choose|level: nat, members: Members|
            s == #[trigger] object_text(indented(level), members) && forall|i: int|
                0 <= i < members.len() ==> is_plain((#[trigger] members[i]).0) && is_simple_text(
                    members[i].1,
                    (depth - 1) as nat,
                );
        assert forall|i: int| 0 <= i < members.len() implies is_plain((#[trigger] members[i]).0)
            && is_value_text(members[i].1, (depth - 1) as nat) by {
            simple_is_value(members[i].1, (depth - 1) as nat);
        }
    }
}

/// Whether the text is an indented object with the given members, up to a line break at the
/// end.
pub open spec fn is_object_text(s: Seq<char>, members: Members) -> bool {
    exists|level: nat|
        s == #[trigger] object_text(indented(level), members) || s == object_text(
            indented(level),
            members,
        ) + "\n"@
}

/// Whether the members read back as they were written.
pub open spec fn are_plain_members(members: Members) -> bool {
    forall|i: int|
        0 <= i < members.len() ==> is_plain((#[trigger] members[i]).0) && is_value_text(members[i].1, 2)
}

/// Like [`are_plain_members`], of simple texts only.
pub open spec fn are_simple_members(members: Members) -> bool {
    forall|i: int|
        0 <= i < members.len() ==> is_plain((#[trigger] members[i]).0) && is_simple_text(
            members[i].1,
            2,
        )
}

// ---------------------------------------------------------------------------------------
// Calls into nojson
// ---------------------------------------------------------------------------------------

/// The contents of members as they come from [`nojson`].
pub open spec fn members_view(members: Seq<(String, nojson::RawJsonOwned)>) -> Members {
    members.map_values(|member: (String, nojson::RawJsonOwned)| (member.0@, json_text(member.1)))
}

/// [`nojson::RawJsonOwned::clone`]: the copy holds the same text.
pub assume_specification[ <nojson::RawJsonOwned as Clone>::clone ](
    json: &nojson::RawJsonOwned,
) -> (copy: nojson::RawJsonOwned)
    ensures
        json_text(copy) == json_text(*json),
;

/// [`nojson::RawJsonOwned::parse`]: the text is kept as it is. Objects of simple values are
/// valid, and so is the empty object.
#[verifier::external_body]
pub(crate) fn json_parse(text: &str) -> (json: Result<nojson::RawJsonOwned, nojson::JsonParseError>)
    ensures
        json is Ok <==> json_valid(text@),
        json is Ok ==> json_text(json->Ok_0) == text@,
        text@ == "{}"@ ==> json is Ok,
        forall|written: Members| #[trigger]
            is_object_text(text@, written) && are_simple_members(written) ==> json is Ok,
{
    nojson::RawJsonOwned::parse(text)
}

/// [`nojson::RawJsonOwned::text`]: the text that was parsed.
#[verifier::external_body]
pub(crate) fn json_as_text(json: &nojson::RawJsonOwned) -> (text: &str)
    ensures
        text@ == json_text(*json),
{
    json.text()
}

/// [`nojson::RawJsonValue::kind`] of the whole text. A natural number is an integer, `true`
/// and `false` are truth values, and what is in quotes is a string.
#[verifier::external_body]
pub(crate) fn json_kind(json: &nojson::RawJsonOwned) -> (kind: JsonKind)
    ensures
        kind == json_kind_of(json_text(*json)),
        is_decimal(json_text(*json)) ==> kind == JsonKind::Integer,
        json_text(*json) == "true"@ || json_text(*json) == "false"@ ==> kind == JsonKind::Boolean,
        (exists|t: Seq<char>| json_text(*json) == #[trigger] quoted(t) && is_plain(t)) ==> kind
            == JsonKind::String,
{
    match json.value().kind() {
        nojson::JsonValueKind::Null => JsonKind::Null,
        nojson::JsonValueKind::Boolean => JsonKind::Boolean,
        nojson::JsonValueKind::Integer => JsonKind::Integer,
        nojson::JsonValueKind::Float => JsonKind::Float,
        nojson::JsonValueKind::String => JsonKind::String,
        nojson::JsonValueKind::Array => JsonKind::Array,
        nojson::JsonValueKind::Object => JsonKind::Object,
    }
}

/// [`nojson::RawJsonValue::to_object`] of the whole text: the unquoted names and the values
/// in the order of the text, or nothing where it is no object. An object of plain members
/// gives those members.
#[verifier::external_body]
pub(crate) fn json_members(
    json: &nojson::RawJsonOwned,
) -> (members: Option<Vec<(String, nojson::RawJsonOwned)>>)
    ensures
        members is Some <==> json_kind_of(json_text(*json)) == JsonKind::Object,
        members is Some ==> members_view(members->0@) == json_members_of(json_text(*json)),
        forall|written: Members| #[trigger]
            is_object_text(json_text(*json), written) && are_plain_members(written) ==> members is Some
                && members_view(members->0@) == written,
{
    let members = json.value().to_object().ok()?;
    Some(
        members.map(|(name, value)| {
            let name = name.to_unquoted_string_str().expect("names are strings");
            (name.into_owned(), value.extract().into_owned())
        }).collect(),
    )
}

/// [`nojson::RawJsonValue::to_unquoted_string_str`] of the whole text, or nothing where it
/// is no string. A plain string stands for itself.
#[verifier::external_body]
pub(crate) fn json_unquoted(json: &nojson::RawJsonOwned) -> (text: Option<String>)
    ensures
        text is Some <==> json_kind_of(json_text(*json)) == JsonKind::String,
        text is Some ==> text->0@ == json_unquoted_of(json_text(*json)),
        forall|plain: Seq<char>|
            json_text(*json) == #[trigger] quoted(plain) && is_plain(plain) ==> text is Some
                && text->0@ == plain,
{
    Some(json.value().to_unquoted_string_str().ok()?.into_owned())
}

// ---------------------------------------------------------------------------------------
// Members and conversions
// ---------------------------------------------------------------------------------------

/// The value of the first member with the given name.
pub open spec fn find_member(members: Members, name: Seq<char>) -> Option<Seq<char>>
    decreases members.len(),
{
    if members.len() == 0 {
        None
    } else if members[0].0 == name {
        Some(members[0].1)
    } else {
        find_member(members.skip(1), name)
    }
}

/// The value of a member that must be there.
pub open spec fn required_member(text: Seq<char>, name: Seq<char>) -> Result<Seq<char>, StorageError> {
    if json_kind_of(text) != JsonKind::Object {
        Err(StorageError::JsonUnexpectedKind)
    } else {
        match find_member(json_members_of(text), name) {
            None => Err(StorageError::JsonMissingMember),
            Some(value) => Ok(value),
        }
    }
}

/// The value as an unsigned integer.
pub open spec fn u64_value(text: Seq<char>) -> Result<u64, StorageError> {
    if json_kind_of(text) != JsonKind::Integer {
        Err(StorageError::JsonUnexpectedKind)
    } else {
        match parsed_u64(text) {
            None => Err(StorageError::JsonInvalidInteger),
            Some(value) => Ok(value),
        }
    }
}

/// The value as a truth value.
pub open spec fn bool_value(text: Seq<char>) -> Result<bool, StorageError> {
    if json_kind_of(text) != JsonKind::Boolean {
        Err(StorageError::JsonUnexpectedKind)
    } else {
        Ok(text == "true"@)
    }
}

/// The value as a string.
pub open spec fn string_value(text: Seq<char>) -> Result<Seq<char>, StorageError> {
    if json_kind_of(text) != JsonKind::String {
        Err(StorageError::JsonUnexpectedKind)
    } else {
        Ok(json_unquoted_of(text))
    }
}

/// Whether two texts are the same.
pub(crate) fn same_text(left: &str, right: &str) -> (same: bool)
    ensures
        same == (left@ == right@),
{
    let chars = text_chars(left);
    same_chars(chars.as_slice(), right)
}

/// Returns the value of the first member with the given name, which must be there.
pub(crate) fn json_member(
    json: &nojson::RawJsonOwned,
    name: &str,
) -> (value: Result<nojson::RawJsonOwned, StorageError>)
    ensures
        match required_member(json_text(*json), name@) {
            Ok(text) => value is Ok && json_text(value->Ok_0) == text,
            Err(error) => value is Err && value->Err_0 == error,
        },
        forall|written: Members| #[trigger]
            is_object_text(json_text(*json), written) && are_plain_members(written) ==> json_kind_of(
                json_text(*json),
            ) == JsonKind::Object && json_members_of(json_text(*json)) == written,
{
    let mut members = match json_members(json) {
        None => {
            return Err(StorageError::JsonUnexpectedKind);
        },
        Some(members) => members,
    };
    let ghost view = members_view(members@);
    assert(view.skip(0) =~= view);
    let mut i: usize = 0;
    while i < members.len()
        invariant
            i <= members@.len(),
            view == members_view(members@),
            view == json_members_of(json_text(*json)),
            json_kind_of(json_text(*json)) == JsonKind::Object,
            find_member(view.skip(i as int), name@) == find_member(view, name@),
            forall|written: Members| #[trigger]
                is_object_text(json_text(*json), written) && are_plain_members(written)
                    ==> json_kind_of(json_text(*json)) == JsonKind::Object && json_members_of(
                    json_text(*json),
                ) == written,
        decreases members@.len() - i,
    {
        assert(view.skip(i as int).skip(1) =~= view.skip(i + 1));
        assert(view[i as int] == (members@[i as int].0@, json_text(members@[i as int].1)));
        if same_text(members[i].0.as_str(), name) {
            let member = members.remove(i);
            return Ok(member.1);
        }
        i = i + 1;
    }
    Err(StorageError::JsonMissingMember)
}

/// Converts a value to an unsigned integer.
pub(crate) fn json_to_u64(json: &nojson::RawJsonOwned) -> (value: Result<u64, StorageError>)
    ensures
        value == u64_value(json_text(*json)),
        is_decimal(json_text(*json)) ==> json_kind_of(json_text(*json)) == JsonKind::Integer,
{
    if json_kind(json) != JsonKind::Integer {
        return Err(StorageError::JsonUnexpectedKind);
    }
    match parse_u64_text(json_as_text(json)) {
        None => Err(StorageError::JsonInvalidInteger),
        Some(value) => Ok(value),
    }
}

/// Converts a value to a truth value.
pub(crate) fn json_to_bool(json: &nojson::RawJsonOwned) -> (value: Result<bool, StorageError>)
    ensures
        value == bool_value(json_text(*json)),
        json_text(*json) == "true"@ || json_text(*json) == "false"@ ==> json_kind_of(json_text(*json))
            == JsonKind::Boolean,
{
    if json_kind(json) != JsonKind::Boolean {
        return Err(StorageError::JsonUnexpectedKind);
    }
    Ok(same_text(json_as_text(json), "true"))
}

/// Converts a value to a string.
pub(crate) fn json_to_string(json: &nojson::RawJsonOwned) -> (value: Result<String, StorageError>)
    ensures
        match string_value(json_text(*json)) {
            Ok(text) => value is Ok && value->Ok_0@ == text,
            Err(error) => value is Err && value->Err_0 == error,
        },
        forall|plain: Seq<char>|
            json_text(*json) == #[trigger] quoted(plain) && is_plain(plain) ==> value is Ok
                && value->Ok_0@ == plain,
{
    match json_unquoted(json) {
        None => Err(StorageError::JsonUnexpectedKind),
        Some(text) => Ok(text),
    }
}

} // verus!

//! Values inside JSON documents.

use vstd::prelude::*;

verus! {

/// What stands at a place of a JSON document.
pub enum JsonLookup {
    /// The document is no JSON.
    Malformed,
    /// The document has no such place.
    Absent,
    /// A string.
    Text(String),
    /// A number, and its value where it is a `u64`.
    Number(Option<u64>),
    /// A truth value.
    Bool(bool),
    /// A null, an array or an object.
    Other,
}

/// What stands at a place of a JSON document.
pub enum JsonView {
    Malformed,
    Absent,
    Text(Seq<char>),
    Number(Option<u64>),
    Bool(bool),
    Other,
}

impl DeepView for JsonLookup {
    type V = JsonView;

    open spec fn deep_view(&self) -> JsonView {
        match self {
            JsonLookup::Malformed => JsonView::Malformed,
            JsonLookup::Absent => JsonView::Absent,
            JsonLookup::Text(text) => JsonView::Text(text@),
            JsonLookup::Number(value) => JsonView::Number(*value),
            JsonLookup::Bool(value) => JsonView::Bool(*value),
            JsonLookup::Other => JsonView::Other,
        }
    }
}

/// What `serde_json::Value::pointer` finds at `pointer` in the value that `serde_json::from_str`
/// reads out of `document`.
pub uninterp spec fn json_lookup(document: Seq<char>, pointer: Seq<char>) -> JsonView;

/// Calls `serde_json::from_str` and `serde_json::Value::pointer`. The contract names the result,
/// which depends on the document and the pointer alone; the grammar of JSON is not stated.
#[verifier::external_body]
pub(crate) fn json_at(document: &str, pointer: &str) -> (found: JsonLookup)
    ensures
        found.deep_view() == json_lookup(document@, pointer@),
{
    match serde_json::from_str::<serde_json::Value>(document) {
        Err(_) => JsonLookup::Malformed,
        Ok(value) => match value.pointer(pointer) {
            None => JsonLookup::Absent,
            Some(serde_json::Value::String(text)) => JsonLookup::Text(text.clone()),
            Some(serde_json::Value::Number(number)) => JsonLookup::Number(number.as_u64()),
            Some(serde_json::Value::Bool(value)) => JsonLookup::Bool(*value),
            Some(_) => JsonLookup::Other,
        },
    }
}

/// The text that was found; an empty one where something else was.
pub open spec fn text_or_empty(found: JsonView) -> Seq<char> {
    match found {
        JsonView::Text(text) => text,
        _ => ""@,
    }
}

/// The number that was found; zero where something else was, or a number that is no `u64`.
pub open spec fn number_or_zero(found: JsonView) -> u64 {
    match found {
        JsonView::Number(Some(n)) => n,
        _ => 0,
    }
}

impl JsonLookup {
    /// The text that was found; an empty one where something else was.
    pub fn text(&self) -> (text: &str)
        ensures
            text@ == text_or_empty(self.deep_view()),
    {
        match self {
            JsonLookup::Text(text) => text.as_str(),
            _ => "",
        }
    }

    /// The number that was found; zero where something else was, or a number that is no `u64`.
    pub fn number(&self) -> (n: u64)
        ensures
            n == number_or_zero(self.deep_view()),
    {
        match self {
            JsonLookup::Number(Some(n)) => *n,
            _ => 0,
        }
    }

    /// Whether the truth value `true` was found.
    pub fn is_true(&self) -> (answer: bool)
        ensures
            answer == (self.deep_view() == JsonView::Bool(true)),
    {
        match self {
            JsonLookup::Bool(value) => *value,
            _ => false,
        }
    }

    /// Whether the document is no JSON.
    pub fn is_malformed(&self) -> (answer: bool)
        ensures
            answer == (self.deep_view() == JsonView::Malformed),
    {
        match self {
            JsonLookup::Malformed => true,
            _ => false,
        }
    }
}

/// The view of what was found tells the same as it does.
pub proof fn lookups_show_what_they_hold(found: JsonLookup)
    ensures
        found is Malformed <==> found.deep_view() is Malformed,
        found is Absent <==> found.deep_view() is Absent,
        found is Other <==> found.deep_view() is Other,
        found matches JsonLookup::Text(text) ==> found.deep_view() == JsonView::Text(text@),
        found matches JsonLookup::Number(n) ==> found.deep_view() == JsonView::Number(n),
        found matches JsonLookup::Bool(b) ==> found.deep_view() == JsonView::Bool(b),
{
}

/// A text is read as it stands and a number as it stands; whatever else was found is an empty text and
/// the number zero.
pub proof fn lookups_are_read(text: Seq<char>, n: u64, found: JsonView)
    ensures
        text_or_empty(JsonView::Text(text)) == text,
        number_or_zero(JsonView::Number(Some(n))) == n,
        found !is Text ==> text_or_empty(found).len() == 0,
        !(found is Number && found->Number_0 is Some) ==> number_or_zero(found) == 0,
{
    reveal_strlit("");
}

} // verus!

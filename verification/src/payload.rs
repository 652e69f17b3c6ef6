use vstd::prelude::*;

verus! {

/// The ghost model of one JSON value of a parsed payload, reduced to what
/// the env-file rendering reads: its JSON type, and for numbers and compound
/// values the canonical text the JSON library renders them to.
pub enum JsonValModel {
    Null,
    Bool(bool),
    Number(Seq<char>),
    Text(Seq<char>),
    Compound(Option<Seq<char>>),
}

/// The ghost model of a classified payload.
pub enum PayloadModel {
    /// The payload is not JSON at all.
    NotJson,
    /// The payload is JSON, but its top level is not an object.
    NonObject,
    /// The payload is a JSON object, with these entries in the JSON
    /// library's iteration order.
    Object(Seq<(Seq<char>, JsonValModel)>),
}

/// One JSON value of a parsed secret payload.
pub enum JsonValue {
    Null,
    Bool(bool),
    /// A JSON number, carrying its canonical decimal text.
    Number(String),
    /// A JSON string, carrying its literal contents.
    Text(String),
    /// A JSON array or nested object, carrying its single-line
    /// re-serialization, or `None` where re-serialization failed.
    Compound(Option<String>),
}

impl View for JsonValue {
    type V = JsonValModel;

    open spec fn view(&self) -> JsonValModel {
        match self {
            JsonValue::Null => JsonValModel::Null,
            JsonValue::Bool(b) => JsonValModel::Bool(*b),
            JsonValue::Number(t) => JsonValModel::Number(t@),
            JsonValue::Text(t) => JsonValModel::Text(t@),
            JsonValue::Compound(o) => match o {
                Some(t) => JsonValModel::Compound(Some(t@)),
                None => JsonValModel::Compound(None),
            },
        }
    }
}

/// The models of a sequence of object entries.
pub open spec fn entry_models(entries: Seq<(String, JsonValue)>) -> Seq<(Seq<char>, JsonValModel)> {
    entries.map_values(|e: (String, JsonValue)| (e.0@, e.1@))
}

/// A secret payload as classified by the JSON parser.
pub enum ParsedPayload {
    NotJson,
    NonObject,
    Object(Vec<(String, JsonValue)>),
}

impl View for ParsedPayload {
    type V = PayloadModel;

    open spec fn view(&self) -> PayloadModel {
        match self {
            ParsedPayload::NotJson => PayloadModel::NotJson,
            ParsedPayload::NonObject => PayloadModel::NonObject,
            ParsedPayload::Object(entries) => PayloadModel::Object(entry_models(entries@)),
        }
    }
}

/// What the JSON library finds in a payload string: whether it parses,
/// whether its top level is an object, and for an object its entries, with
/// number and compound values already rendered to text. A function of the
/// payload characters alone.
pub uninterp spec fn payload_model(s: Seq<char>) -> PayloadModel;

/// Relies on serde_json::from_str for the classification, and on
/// serde_json::Number's Display rendering and serde_json::to_string for the
/// texts that number and compound values carry; all three are deterministic
/// in the payload characters.
#[verifier::external_body]
pub(crate) fn classify_payload(s: &str) -> (r: ParsedPayload)
    ensures
        r@ == payload_model(s@),
{
    match serde_json::from_str::<serde_json::Value>(s) {
        Err(_) => ParsedPayload::NotJson,
        Ok(serde_json::Value::Object(map)) => {
            let entries = map.into_iter().map(|(k, v)| (k, match v {
                serde_json::Value::Null => JsonValue::Null,
                serde_json::Value::Bool(b) => JsonValue::Bool(b),
                serde_json::Value::Number(n) => JsonValue::Number(n.to_string()),
                serde_json::Value::String(t) => JsonValue::Text(t),
                other => JsonValue::Compound(serde_json::to_string(&other).ok()),
            }));
            ParsedPayload::Object(entries.collect())
        },
        Ok(_) => ParsedPayload::NonObject,
    }
}

/// The full Unicode uppercase mapping of a character sequence: a function of
/// the characters alone.
pub uninterp spec fn upper_of(s: Seq<char>) -> Seq<char>;

/// Relies on str::to_uppercase: the Unicode uppercase equivalent of the
/// string, depending on its characters alone.
#[verifier::external_body]
pub(crate) fn to_upper(s: &str) -> (r: String)
    ensures
        r@ == upper_of(s@),
{
    s.to_uppercase()
}

} // verus!

//! The value tree produced by a parse, and the abstract model it is
//! specified against.

use vstd::prelude::*;

verus! {

/// The ways a parse can fail. The first failure anywhere in the recursion
/// aborts the whole parse; no partial tree is ever returned.
#[derive(Clone, Copy, Debug, PartialEq, Eq, Structural)]
pub enum ErrorKind {
    /// The input at the current position fits no grammar rule that is
    /// expected there (for an object key: anything but `"`).
    UnexpectedToken,
    /// An opened string never finds its closing quote.
    UnterminatedString,
    /// A consumed numeric run is not a well-formed number.
    InvalidNumber,
    /// Object or array syntax expects `:`, `,`, `}` or `]` and finds
    /// something else.
    MissingSeparator,
}

impl ErrorKind {
    /// A short description of the failure, for the caller to display.
    pub fn message(&self) -> (r: &'static str)
        ensures
            r@ == match self {
                ErrorKind::UnexpectedToken => "unexpected token"@,
                ErrorKind::UnterminatedString => "unterminated string"@,
                ErrorKind::InvalidNumber => "invalid number"@,
                ErrorKind::MissingSeparator => "missing separator"@,
            },
    {
        match self {
            ErrorKind::UnexpectedToken => "unexpected token",
            ErrorKind::UnterminatedString => "unterminated string",
            ErrorKind::InvalidNumber => "invalid number",
            ErrorKind::MissingSeparator => "missing separator",
        }
    }
}

/// The abstract, purely mathematical shape of a parsed JSON document:
/// text becomes sequences of characters, vectors become sequences.
/// Contracts throughout the crate speak of this model.
pub enum JsonModel {
    Str(Seq<char>),
    Number(Seq<char>),
    Boolean(bool),
    Null,
    Array(Seq<JsonModel>),
    Object(Seq<(Seq<char>, JsonModel)>),
}

/// One parsed JSON document.
///
/// `Str` payloads, object keys and the `Number` payload are owned copies of
/// the exact substrings of the input they were read from; a `Number` keeps
/// the numeric run as written (no escape decoding, no numeric
/// normalisation). Array and object order always matches textual order, and
/// duplicate object keys are kept in source order.
#[derive(Debug, PartialEq)]
pub enum JsonValue {
    Str(String),
    Number(String),
    Boolean(bool),
    Null,
    Array(Vec<JsonValue>),
    Object(Vec<(String, JsonValue)>),
}

impl JsonValue {
    /// The abstract model of this value: the same tree over `Seq<char>`.
    pub open spec fn model(self) -> JsonModel
        decreases self,
    {
        match self {
            JsonValue::Str(s) => JsonModel::Str(s@),
            JsonValue::Number(t) => JsonModel::Number(t@),
            JsonValue::Boolean(b) => JsonModel::Boolean(b),
            JsonValue::Null => JsonModel::Null,
            JsonValue::Array(els) => JsonModel::Array(elems_model(els@)),
            JsonValue::Object(ps) => JsonModel::Object(pairs_model(ps@)),
        }
    }
}

/// The models of a sequence of array elements.
pub open spec fn elems_model(els: Seq<JsonValue>) -> Seq<JsonModel>
    decreases els,
{
    Seq::new(
        els.len(),
        |i: int|
            if 0 <= i < els.len() {
                els[i].model()
            } else {
                JsonModel::Null
            },
    )
}

/// The models of a sequence of object members.
pub open spec fn pairs_model(ps: Seq<(String, JsonValue)>) -> Seq<(Seq<char>, JsonModel)>
    decreases ps,
{
    Seq::new(
        ps.len(),
        |i: int|
            if 0 <= i < ps.len() {
                (ps[i].0@, ps[i].1.model())
            } else {
                (Seq::empty(), JsonModel::Null)
            },
    )
}

/// Appending an element appends its model.
pub proof fn lemma_elems_model_push(els: Seq<JsonValue>, v: JsonValue)
    ensures
        elems_model(els.push(v)) == elems_model(els).push(v.model()),
{
    assert(elems_model(els.push(v)) =~= elems_model(els).push(v.model()));
}

/// Appending a member appends its model.
pub proof fn lemma_pairs_model_push(ps: Seq<(String, JsonValue)>, p: (String, JsonValue))
    ensures
        pairs_model(ps.push(p)) == pairs_model(ps).push((p.0@, p.1.model())),
{
    assert(pairs_model(ps.push(p)) =~= pairs_model(ps).push((p.0@, p.1.model())));
}

} // verus!

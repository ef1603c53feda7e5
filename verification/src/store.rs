//! What is exchanged with the parameter store: stored parameters, write requests
//! and page requests, as plain values.
use vstd::prelude::*;
use vstd::string::*;
use vstd::utf8::{decode_utf8, valid_utf8};

verus! {

/// How the store classifies a value.
#[derive(Clone, Debug, PartialEq, Eq)]
pub enum ParameterKind {
    /// A plain text value.
    Plain,
    /// A comma-separated list of plain text values.
    List,
    /// A secret, kept encrypted.
    Secure,
    /// A classification that this library does not know, by its name.
    Other(String),
}

/// One stored parameter, as a listing returns it.
#[derive(Clone, Debug, PartialEq, Eq)]
pub struct Parameter {
    pub name: String,
    pub value: String,
    pub kind: ParameterKind,
}

/// A request to write one parameter.
#[derive(Clone, Debug, PartialEq, Eq)]
pub struct PutRequest {
    pub name: String,
    pub value: String,
    pub overwrite: bool,
    pub kind: ParameterKind,
}

/// A request for one page of the parameters under a path.
#[derive(Clone, Debug, PartialEq, Eq)]
pub struct PageRequest {
    pub path: String,
    pub recursive: bool,
    pub with_decryption: bool,
    pub next_token: Option<String>,
}

/// The text of an optional string.
pub open spec fn text_of(token: Option<String>) -> Option<Seq<char>> {
    match token {
        Some(text) => Some(text@),
        None => None,
    }
}

/// The text that stands for `bytes` in the store, as `String::from_utf8_lossy`
/// computes it: the text that the bytes encode where they are valid UTF-8, and
/// otherwise that text with a replacement character for each invalid part.
pub uninterp spec fn lossy_text(bytes: Seq<u8>) -> Seq<char>;

/// The text that stands for `bytes` in the store. Wraps `String::from_utf8_lossy`.
/// The contract names its result and states the one case that the documentation
/// spells out in full: bytes that are valid UTF-8 give the text that they encode.
#[verifier::external_body]
pub(crate) fn text_from_bytes(bytes: &[u8]) -> (text: String)
    ensures
        text@ == lossy_text(bytes@),
        valid_utf8(bytes@) ==> text@ == decode_utf8(bytes@),
{
    String::from_utf8_lossy(bytes).into_owned()
}

/// A copy of `kind`.
pub fn copy_kind(kind: &ParameterKind) -> (copy: ParameterKind)
    ensures
        copy == *kind,
{
    match kind {
        ParameterKind::Plain => ParameterKind::Plain,
        ParameterKind::List => ParameterKind::List,
        ParameterKind::Secure => ParameterKind::Secure,
        ParameterKind::Other(name) => ParameterKind::Other(name.clone()),
    }
}

/// A request that writes `value` under `name` with classification `kind`,
/// replacing what is stored there.
pub fn put_request(name: String, value: String, kind: ParameterKind) -> (request: PutRequest)
    ensures
        request.name == name,
        request.value == value,
        request.kind == kind,
        request.overwrite,
{
    PutRequest { name, value, overwrite: true, kind }
}

} // verus!

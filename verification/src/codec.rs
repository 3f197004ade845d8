//! The canonical encoding of a node's content and the digest taken of it.
//!
//! JSON text and SHA-256 digests come from outside crates. Their results are
//! named here, not defined: all that is said of them is that the same
//! content gives the same text and the same digest.

use crate::cid::Cid;
use crate::cid_set::{ascending_seq, cid_views};
use crate::node::Payload;
use vstd::prelude::*;
use vstd::string::StringExecFns;
use vstd::utf8::encode_utf8;

verus! {

/// The error of `serde_json`, of which nothing is known here.
#[verifier::external_type_specification]
#[verifier::external_body]
pub struct ExJsonError(serde_json::Error);

/// The compact JSON text that `serde_json::to_string` gives for the pair of
/// a label and a value, or `None` where it reports an error.
pub uninterp spec fn payload_json(label: Seq<char>, value: int) -> Option<Seq<char>>;

/// The compact JSON text that `serde_json::to_string` gives for a list of
/// identifiers, or `None` where it reports an error.
pub uninterp spec fn cid_list_json(cids: Seq<Seq<char>>) -> Option<Seq<char>>;

/// The SHA-256 digest of `data` in lower-case hexadecimal digits, as
/// `sha256::digest` gives it.
pub uninterp spec fn sha256_hex(data: Seq<u8>) -> Seq<char>;

/// Calls `serde_json::to_string` on a payload. The claim is that the outcome
/// depends on the label and the value alone.
#[verifier::external_body]
fn payload_to_json(payload: &Payload) -> (r: Result<String, serde_json::Error>)
    ensures
        match r {
            Ok(text) => payload_json(payload.0@, payload.1 as int) == Some(text@),
            Err(_) => payload_json(payload.0@, payload.1 as int) is None,
        },
{
    serde_json::to_string(payload)
}

/// Calls `serde_json::to_string` on a list of identifiers. The claim is that
/// the outcome depends on the identifiers and their order alone.
#[verifier::external_body]
fn cid_list_to_json(cids: &[Cid]) -> (r: Result<String, serde_json::Error>)
    ensures
        match r {
            Ok(text) => cid_list_json(cid_views(cids@)) == Some(text@),
            Err(_) => cid_list_json(cid_views(cids@)) is None,
        },
{
    serde_json::to_string(cids)
}

/// Calls `sha256::digest` on a byte string. The claim is that the digest
/// depends on the bytes alone.
#[verifier::external_body]
fn sha256_digest(data: &[u8]) -> (r: String)
    ensures
        r@ == sha256_hex(data@),
{
    sha256::digest(data)
}

/// The canonical text of a node's content: a JSON object that holds the text
/// of the payload under `payload` and the text of the list of children under
/// `child_cids`, in this order and without white space.
pub open spec fn canonical_text(payload_text: Seq<char>, children_text: Seq<char>) -> Seq<char> {
    "{\"payload\":"@ + payload_text + ",\"child_cids\":"@ + children_text + "}"@
}

/// The identifier of the node with this payload and these children: the
/// digest of the canonical text, which lists the children in ascending
/// order. `None` where the payload or the children cannot be encoded.
pub open spec fn content_cid(label: Seq<char>, value: int, children: Set<Seq<char>>) -> Option<
    Seq<char>,
> {
    match (payload_json(label, value), cid_list_json(ascending_seq(children))) {
        (Some(payload_text), Some(children_text)) => Some(
            sha256_hex(encode_utf8(canonical_text(payload_text, children_text))),
        ),
        _ => None,
    }
}

/// Puts the text of a payload and the text of a list of children into the
/// canonical text of a node's content.
pub fn canonical_form(payload_text: &str, children_text: &str) -> (r: String)
    ensures
        r@ == canonical_text(payload_text@, children_text@),
{
    let mut r = String::from_str("{\"payload\":");
    r.append(payload_text);
    r.append(",\"child_cids\":");
    r.append(children_text);
    r.append("}");
    r
}

/// The identifier of the node with this payload and with the children
/// `children`, which are in ascending order.
pub fn derive_cid(payload: &Payload, children: &[Cid]) -> (r: Option<Cid>)
    ensures
        match (payload_json(payload.0@, payload.1 as int), cid_list_json(cid_views(children@))) {
            (Some(payload_text), Some(children_text)) => r matches Some(cid) && cid@ == sha256_hex(
                encode_utf8(canonical_text(payload_text, children_text)),
            ),
            _ => r is None,
        },
{
    let payload_text = match payload_to_json(payload) {
        Ok(text) => text,
        Err(_) => {
            return None;
        },
    };
    let children_text = match cid_list_to_json(children) {
        Ok(text) => text,
        Err(_) => {
            return None;
        },
    };
    let text = canonical_form(payload_text.as_str(), children_text.as_str());
    Some(sha256_digest(text.as_str().as_bytes()))
}

} // verus!

//! The snapshot envelope and its canonical form: one line of JSON without
//! white space, the keys of every object in lexicographic order, and the
//! signature left out, so that the text that is hashed and signed does not
//! depend on how the envelope was written down or on whether it is signed yet.

use vstd::prelude::*;
use vstd::string::*;
use vstd::utf8::encode_utf8;
use crate::digest::{hash, hash_text, hex_digit};
use crate::json::{canonical, canonical_value, Json};
use crate::records::same_text;

verus! {

/// Why a snapshot is refused.
#[derive(PartialEq, Eq, Structural, Clone, Copy, Debug)]
pub enum SnapshotError {
    /// The snapshot cannot be written in canonical form.
    MalformedSnapshot,
    /// The stored digest is not the digest of the snapshot.
    AuthenticityFailure,
}

/// The signing block of an envelope.
pub struct Signing {
    pub scheme: String,
    pub did: String,
    pub payload_hash: String,
    /// Absent until the envelope is signed.
    pub signature: Option<String>,
}

/// The envelope that every snapshot shares.
pub struct Envelope {
    /// The snapshot's type, such as `CLAIM` or `PROOF`.
    pub kind: String,
    pub version: String,
    pub id: String,
    pub ts: u64,
    pub issuer: String,
    pub pool: String,
    /// The payload, whatever its type asks for.
    pub body: Json,
    /// Absent while the envelope is being built.
    pub signing: Option<Signing>,
}

/// The JSON string literal for `text`, as `serde_json::to_string` writes it.
pub uninterp spec fn json_string_text(text: Seq<char>) -> Seq<char>;

/// `n` in decimal digits, without leading zeros.
pub open spec fn decimal_text(n: nat) -> Seq<char>
    decreases n,
{
    if n < 10 {
        seq![hex_digit(n as int)]
    } else {
        decimal_text(n / 10).push(hex_digit((n % 10) as int))
    }
}

/// The canonical form of a signing block: its signature is left out.
pub open spec fn signing_text(did: Seq<char>, payload_hash: Seq<char>, scheme: Seq<char>) -> Seq<
    char,
> {
    ",\"signing\":{\"did\":"@ + json_string_text(did) + ",\"payload_hash\":"@ + json_string_text(
        payload_hash,
    ) + ",\"scheme\":"@ + json_string_text(scheme) + "}"@
}

/// The canonical form of the signing block of `e`, nothing where it has
/// none; with `blank` the stored digest is written as the empty string.
pub open spec fn signing_part(e: Envelope, blank: bool) -> Seq<char> {
    match e.signing {
        Some(s) => signing_text(
            s.did@,
            if blank {
                Seq::empty()
            } else {
                s.payload_hash@
            },
            s.scheme@,
        ),
        None => Seq::empty(),
    }
}

/// The canonical form of `e`, with `blank` that of `e` before a digest was
/// stored in it.
pub open spec fn canonical_form(e: Envelope, blank: bool) -> Seq<char> {
    "{\"body\":"@ + canonical(e.body@) + ",\"id\":"@ + json_string_text(e.id@) + ",\"issuer\":"@
        + json_string_text(e.issuer@) + ",\"pool\":"@ + json_string_text(e.pool@) + signing_part(
        e,
        blank,
    ) + ",\"ts\":"@ + decimal_text(e.ts as nat) + ",\"type\":"@ + json_string_text(e.kind@)
        + ",\"version\":"@ + json_string_text(e.version@) + "}"@
}

/// The canonical form of `e`.
pub open spec fn canonical_text(e: Envelope) -> Seq<char> {
    canonical_form(e, false)
}

/// The digest, in its text form, of `e` as it stood before a digest was
/// stored in it: what an authentic envelope stores.
pub open spec fn expected_hash(e: Envelope) -> Seq<char> {
    hash_text(encode_utf8(canonical_form(e, true)))
}

/// Whether `text` holds nothing that a JSON string has to escape: no quote,
/// no backslash and no character below the space.
pub open spec fn is_plain(text: Seq<char>) -> bool {
    forall|i: int|
        0 <= i < text.len() ==> (#[trigger] text[i]) != '"' && text[i] != '\\' && text[i] >= ' '
}

/// Calls `serde_json::to_string` on a string: the result is the JSON string
/// literal for `text`. The call is claimed to succeed: `serde_json` documents
/// failure only for a value whose own serializer fails or that holds a map
/// with keys that are no strings, and a string is written by appending to a
/// byte vector, which does not fail. Text that needs no escape is written
/// as it is between two quotes.
#[verifier::external_body]
pub(crate) fn json_string(text: &str) -> (literal: Option<String>)
    ensures
        literal.is_some(),
        literal.unwrap()@ == json_string_text(text@),
        is_plain(text@) ==> literal.unwrap()@ == seq!['"'] + text@ + seq!['"'],
{
    serde_json::to_string(text).ok()
}

/// Calls `serde_json::to_string` on an unsigned integer: the result is the
/// number in decimal digits. The call is claimed to succeed, for the reason
/// given for strings: the digits are appended to a byte vector.
#[verifier::external_body]
pub(crate) fn json_number(n: u64) -> (digits: Option<String>)
    ensures
        digits.is_some(),
        digits.unwrap()@ == decimal_text(n as nat),
{
    serde_json::to_string(&n).ok()
}

/// Puts the parts of a signing block together.
pub fn assemble_signing(did: &str, payload_hash: &str, scheme: &str) -> (text: String)
    ensures
        text@ == ",\"signing\":{\"did\":"@ + did@ + ",\"payload_hash\":"@ + payload_hash@
            + ",\"scheme\":"@ + scheme@ + "}"@,
{
    let mut text = String::from_str(",\"signing\":{\"did\":");
    text.append(did);
    text.append(",\"payload_hash\":");
    text.append(payload_hash);
    text.append(",\"scheme\":");
    text.append(scheme);
    text.append("}");
    text
}

/// Puts the parts of an envelope together, each already in its JSON form,
/// under their keys in lexicographic order.
pub fn assemble(
    body: &str,
    id: &str,
    issuer: &str,
    pool: &str,
    signing: &str,
    ts: &str,
    kind: &str,
    version: &str,
) -> (text: String)
    ensures
        text@ == "{\"body\":"@ + body@ + ",\"id\":"@ + id@ + ",\"issuer\":"@ + issuer@
            + ",\"pool\":"@ + pool@ + signing@ + ",\"ts\":"@ + ts@ + ",\"type\":"@ + kind@
            + ",\"version\":"@ + version@ + "}"@,
{
    let mut text = String::from_str("{\"body\":");
    text.append(body);
    text.append(",\"id\":");
    text.append(id);
    text.append(",\"issuer\":");
    text.append(issuer);
    text.append(",\"pool\":");
    text.append(pool);
    text.append(signing);
    text.append(",\"ts\":");
    text.append(ts);
    text.append(",\"type\":");
    text.append(kind);
    text.append(",\"version\":");
    text.append(version);
    text.append("}");
    text
}

/// The canonical form of the signing block of `envelope`, the empty text
/// where it has none; with `blank` the stored digest is written as the empty
/// string. Every envelope has one.
fn canonical_signing(envelope: &Envelope, blank: bool) -> (r: Option<String>)
    ensures
        r.is_some(),
        r.unwrap()@ == signing_part(*envelope, blank),
{
    match &envelope.signing {
        None => Some(String::new()),
        Some(s) => {
            let did = json_string(s.did.as_str())?;
            let empty = String::new();
            let payload_hash = if blank {
                json_string(empty.as_str())?
            } else {
                json_string(s.payload_hash.as_str())?
            };
            let scheme = json_string(s.scheme.as_str())?;
            Some(assemble_signing(did.as_str(), payload_hash.as_str(), scheme.as_str()))
        },
    }
}

/// The canonical form of an envelope that has all its fields, its body in
/// canonical text. It is the same for envelopes that
/// differ only in their signature, or in whether they have one. Every
/// envelope has a canonical form, with or without a signing block.
pub fn envelope_text(envelope: &Envelope) -> (r: Result<String, SnapshotError>)
    ensures
        r.is_ok(),
        r.unwrap()@ == canonical_text(*envelope),
{
    let parts = canonical_parts(envelope, false);
    match parts {
        Some(text) => Ok(text),
        None => Err(SnapshotError::MalformedSnapshot),
    }
}

/// The canonical form of `envelope`, with `blank` that of the envelope as it
/// stood before a digest was stored in it. Every envelope has one.
fn canonical_parts(envelope: &Envelope, blank: bool) -> (r: Option<String>)
    ensures
        r.is_some(),
        r.unwrap()@ == canonical_form(*envelope, blank),
{
    let id = json_string(envelope.id.as_str())?;
    let issuer = json_string(envelope.issuer.as_str())?;
    let pool = json_string(envelope.pool.as_str())?;
    let signing = canonical_signing(envelope, blank)?;
    let ts = json_number(envelope.ts)?;
    let kind = json_string(envelope.kind.as_str())?;
    let version = json_string(envelope.version.as_str())?;
    let body = canonical_value(&envelope.body);
    Some(
        assemble(
            body.as_str(),
            id.as_str(),
            issuer.as_str(),
            pool.as_str(),
            signing.as_str(),
            ts.as_str(),
            kind.as_str(),
            version.as_str(),
        ),
    )
}

/// The digest of the canonical form of `envelope`, in its text form. Every
/// envelope has one.
pub fn envelope_hash(envelope: &Envelope) -> (r: Result<String, SnapshotError>)
    ensures
        r.is_ok(),
        r.unwrap()@ == hash_text(encode_utf8(canonical_text(*envelope))),
        r.unwrap()@.len() == 74,
{
    match envelope_text(envelope) {
        Ok(canonical) => Ok(hash(canonical.as_str().as_bytes())),
        Err(e) => Err(e),
    }
}

/// Judges the digest that an envelope stores against the digest computed
/// afresh: malformed where none could be computed, authentic only where
/// the two are the same.
pub fn judge_stored_hash(fresh: Option<String>, stored: &String) -> (r: Result<(), SnapshotError>)
    ensures
        r == match fresh {
            None => Err::<(), SnapshotError>(SnapshotError::MalformedSnapshot),
            Some(f) => if f@ == stored@ {
                Ok::<(), SnapshotError>(())
            } else {
                Err::<(), SnapshotError>(SnapshotError::AuthenticityFailure)
            },
        },
{
    match fresh {
        None => Err(SnapshotError::MalformedSnapshot),
        Some(f) => if same_text(&f, stored) {
            Ok(())
        } else {
            Err(SnapshotError::AuthenticityFailure)
        },
    }
}

/// Whether `e` stores the digest of itself as it stood before the digest was
/// stored in it. An envelope without a signing block stores none.
pub open spec fn stores_own_hash(e: Envelope) -> bool {
    e.signing.is_some() && e.signing.unwrap().payload_hash@ == expected_hash(e)
}

/// Checks that the digest that `envelope` stores is the digest of the
/// envelope as it stood before the digest was stored in it. An envelope
/// without a signing block stores none and fails the check.
pub fn check_payload_hash(envelope: &Envelope) -> (r: Result<(), SnapshotError>)
    ensures
        r == if stores_own_hash(*envelope) {
            Ok::<(), SnapshotError>(())
        } else {
            Err::<(), SnapshotError>(SnapshotError::AuthenticityFailure)
        },
{
    match &envelope.signing {
        None => Err(SnapshotError::AuthenticityFailure),
        Some(s) => {
            let fresh = match canonical_parts(envelope, true) {
                None => None,
                Some(canonical) => Some(hash(canonical.as_str().as_bytes())),
            };
            judge_stored_hash(fresh, &s.payload_hash)
        },
    }
}

/// Whether two envelopes differ at most in their signature.
pub open spec fn same_but_signature(a: Envelope, b: Envelope) -> bool {
    &&& a.kind@ == b.kind@
    &&& a.version@ == b.version@
    &&& a.id@ == b.id@
    &&& a.ts == b.ts
    &&& a.issuer@ == b.issuer@
    &&& a.pool@ == b.pool@
    &&& a.body@ == b.body@
    &&& a.signing.is_some() == b.signing.is_some()
    &&& a.signing.is_some() ==> {
        &&& a.signing.unwrap().scheme@ == b.signing.unwrap().scheme@
        &&& a.signing.unwrap().did@ == b.signing.unwrap().did@
        &&& a.signing.unwrap().payload_hash@ == b.signing.unwrap().payload_hash@
    }
}

/// The signature is not part of what is hashed: envelopes that differ at
/// most in their signature, one of which may have none, have the same
/// canonical form and the same digest.
pub proof fn lemma_signature_not_hashed(a: Envelope, b: Envelope)
    requires
        same_but_signature(a, b),
    ensures
        canonical_text(a) == canonical_text(b),
        hash_text(encode_utf8(canonical_text(a))) == hash_text(encode_utf8(canonical_text(b))),
        expected_hash(a) == expected_hash(b),
{
}

} // verus!

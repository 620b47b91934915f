//! Signatures over payload digests. A signature is written as the scheme's
//! name, a colon, `0x` and 65 bytes in hex. Verification recovers the
//! address that signed and holds it against the address that is claimed;
//! it never resolves a name.

use vstd::prelude::*;
use vstd::string::*;
use crate::digest::{hex_bytes, hex_decode, hex_encode, hex_text, is_hex_text};
use crate::snapshot::{check_payload_hash, expected_hash, Envelope, SnapshotError};

verus! {

/// Why a signature could not be judged. A signature that cannot be read is
/// no such reason: it is the signature of nobody, and verifies for no
/// address.
#[derive(PartialEq, Eq, Structural, Clone, Copy, Debug)]
pub enum SignatureError {
    /// The claimed address is not an address.
    BadAddress,
}

/// The address that `ethers` recovers from the 65 bytes `signature` over
/// the message `message`, or none.
pub uninterp spec fn recovered_signer(message: Seq<char>, signature: Seq<u8>) -> Option<Seq<u8>>;

/// The address that `ethers` reads from `text`, or none.
pub uninterp spec fn address_of(text: Seq<char>) -> Option<Seq<u8>>;

/// The hex digits of a signature: what follows the scheme tag, or the whole
/// text where it has no tag.
pub open spec fn signature_hex(signature: Seq<char>) -> Seq<char> {
    if "eip191:0x"@.is_prefix_of(signature) {
        signature.skip("eip191:0x"@.len() as int)
    } else {
        signature
    }
}

/// Whether `signature` has the form of a signature: 65 bytes, of which the
/// last, the recovery byte, is 27 or 28.
pub open spec fn has_signature_form(signature: Seq<u8>) -> bool {
    signature.len() == 65 && (signature[64] == 27 || signature[64] == 28)
}

/// The signer of the signature `signature` over `message`: none unless the
/// signature has the form of one and an address can be recovered from it.
pub open spec fn signer_of(message: Seq<char>, signature: Seq<u8>) -> Option<Seq<u8>> {
    if has_signature_form(signature) {
        recovered_signer(message, signature)
    } else {
        None
    }
}

/// The verdict on a signer that was or was not recovered and a claimed
/// address that was or was not understood: without a signer the answer is
/// no, whatever is claimed.
pub open spec fn verdict(signer: Option<Seq<u8>>, claimed: Option<Seq<u8>>) -> Result<
    bool,
    SignatureError,
> {
    match signer {
        None => Ok(false),
        Some(s) => match claimed {
            None => Err(SignatureError::BadAddress),
            Some(c) => Ok(s == c),
        },
    }
}

/// Whether `signature` over `payload_hash` is by `expected_address`. A
/// signature that is not hex, or has not the form of a signature, or from
/// which nothing can be recovered, is by nobody.
pub open spec fn verification(
    payload_hash: Seq<char>,
    signature: Seq<char>,
    expected_address: Seq<char>,
) -> Result<bool, SignatureError> {
    let hex = signature_hex(signature);
    if !is_hex_text(hex) {
        Ok(false)
    } else {
        verdict(signer_of(payload_hash, hex_bytes(hex)), address_of(expected_address))
    }
}

/// Calls `str::strip_prefix`: the rest of `text` after `prefix` where `text`
/// starts with it, none otherwise.
#[verifier::external_body]
pub(crate) fn strip_prefix<'a>(text: &'a str, prefix: &str) -> (rest: Option<&'a str>)
    ensures
        rest.is_some() == prefix@.is_prefix_of(text@),
        rest.is_some() ==> rest.unwrap()@ == text@.skip(prefix@.len() as int),
{
    text.strip_prefix(prefix)
}

/// Calls `Signature::try_from`, which reads the 65 bytes of a signature and
/// refuses any other length, and on its result `Signature::recover` of
/// `ethers`: the address that signed `message` with `signature`. Claimed is
/// only that the result is a function of the two arguments, that there is
/// none unless the signature has 65 bytes, and that an address has 20 bytes.
#[verifier::external_body]
fn recover_signer(message: &str, signature: &[u8]) -> (signer: Option<Vec<u8>>)
    ensures
        signer.is_some() == recovered_signer(message@, signature@).is_some(),
        signer.is_some() ==> signer.unwrap()@ == recovered_signer(message@, signature@).unwrap(),
        signer.is_some() ==> signer.unwrap()@.len() == 20 && signature@.len() == 65,
{
    let parsed = ethers::core::types::Signature::try_from(signature).ok()?;
    parsed.recover(message).ok().map(|address| address.as_bytes().to_vec())
}

/// Calls the `FromStr` of the address type of `ethers`: the address that
/// `text` spells. Only that the result is a function of `text` is claimed,
/// and that an address has 20 bytes.
#[verifier::external_body]
fn parse_address(text: &str) -> (address: Option<Vec<u8>>)
    ensures
        address.is_some() == address_of(text@).is_some(),
        address.is_some() ==> address.unwrap()@ == address_of(text@).unwrap(),
        address.is_some() ==> address.unwrap()@.len() == 20,
{
    text.parse::<ethers::core::types::Address>().ok().map(|address| address.as_bytes().to_vec())
}

/// Whether two byte strings are the same.
pub fn same_bytes(a: &Vec<u8>, b: &Vec<u8>) -> (same: bool)
    ensures
        same == (a@ == b@),
{
    if a.len() != b.len() {
        return false;
    }
    let mut i: usize = 0;
    while i < a.len()
        invariant
            a@.len() == b@.len(),
            i <= a@.len(),
            forall|k: int| 0 <= k < i ==> a@[k] == b@[k],
        decreases a@.len() - i,
    {
        if a[i] != b[i] {
            return false;
        }
        i += 1;
    }
    proof {
        assert(a@ =~= b@);
    }
    true
}

/// Judges a recovered signer against a claimed address: no where there is
/// no signer, an error where the claimed address is missing, otherwise
/// whether the two are the same.
pub fn judge(signer: Option<Vec<u8>>, claimed: Option<Vec<u8>>) -> (r: Result<bool, SignatureError>)
    ensures
        r == verdict(
            match signer {
                Some(s) => Some(s@),
                None => None,
            },
            match claimed {
                Some(c) => Some(c@),
                None => None,
            },
        ),
{
    match signer {
        None => Ok(false),
        Some(s) => match claimed {
            None => Err(SignatureError::BadAddress),
            Some(c) => Ok(same_bytes(&s, &c)),
        },
    }
}

/// Verifies a signature: recovers the address that signed `payload_hash`
/// and says whether it is `expected_address`. It never fails on account of
/// the signature: one that cannot be read verifies for no address.
pub fn verify_eip191(payload_hash: &str, signature: &str, expected_address: &str) -> (r: Result<
    bool,
    SignatureError,
>)
    ensures
        r == verification(payload_hash@, signature@, expected_address@),
{
    let hex = match strip_prefix(signature, "eip191:0x") {
        Some(rest) => rest,
        None => signature,
    };
    match hex_decode(hex) {
        None => Ok(false),
        Some(bytes) => {
            if bytes.len() != 65 || (bytes[64] != 27 && bytes[64] != 28) {
                return Ok(false);
            }
            let signer = recover_signer(payload_hash, bytes.as_slice());
            let claimed = parse_address(expected_address);
            judge(signer, claimed)
        },
    }
}

/// The text form of the signature `bytes`.
pub fn signature_text(bytes: &[u8]) -> (text: String)
    ensures
        text@ == "eip191:0x"@ + hex_text(bytes@),
{
    let hex = hex_encode(bytes);
    String::from_str("eip191:0x").concat(hex.as_str())
}

/// Whether `e` is authentic for the address `address`, to which its
/// signer's name is bound: it stores the digest of what it says, and its
/// signature over that digest is by `address`.
pub open spec fn authentic(e: Envelope, address: Seq<char>) -> bool {
    &&& e.signing.is_some()
    &&& e.signing.unwrap().payload_hash@ == expected_hash(e)
    &&& e.signing.unwrap().signature.is_some()
    &&& verification(
        e.signing.unwrap().payload_hash@,
        e.signing.unwrap().signature.unwrap()@,
        address,
    ) == Ok::<bool, SignatureError>(true)
}

/// Decides on a snapshot from the check of its digest and, where it has a
/// signature, the check of that: it is admitted only where the digest
/// matches and the signature is by the claimed address.
pub fn admission(
    digest_check: Result<(), SnapshotError>,
    signature_check: Option<Result<bool, SignatureError>>,
) -> (r: Result<(), SnapshotError>)
    ensures
        r == match digest_check {
            Err(e) => Err::<(), SnapshotError>(e),
            Ok(_) => if signature_check == Some(Ok::<bool, SignatureError>(true)) {
                Ok::<(), SnapshotError>(())
            } else {
                Err::<(), SnapshotError>(SnapshotError::AuthenticityFailure)
            },
        },
{
    match digest_check {
        Err(e) => Err(e),
        Ok(_) => match signature_check {
            Some(Ok(true)) => Ok(()),
            _ => Err(SnapshotError::AuthenticityFailure),
        },
    }
}

/// Admits `envelope` exactly if it is authentic for `address`. A snapshot
/// that is not authentic is refused as an authenticity failure, never
/// admitted.
pub fn check_authentic(envelope: &Envelope, address: &str) -> (r: Result<(), SnapshotError>)
    ensures
        r == if authentic(*envelope, address@) {
            Ok::<(), SnapshotError>(())
        } else {
            Err::<(), SnapshotError>(SnapshotError::AuthenticityFailure)
        },
{
    let digest_check = check_payload_hash(envelope);
    let signature_check = match &envelope.signing {
        None => None,
        Some(s) => match &s.signature {
            None => None,
            Some(signature) => Some(
                verify_eip191(s.payload_hash.as_str(), signature.as_str(), address),
            ),
        },
    };
    admission(digest_check, signature_check)
}

} // verus!

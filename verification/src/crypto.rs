//! Trusted boundary to the two cryptographic primitives the stitch
//! protocol is fixed to: the 32-byte BLAKE2s hash and ECDSA over the
//! secp256k1 curve with compact signatures and compressed keys.
//!
//! Each wrapper names an outside function and states only what that
//! function's source and documentation promise.

use vstd::prelude::*;

verus! {

/// The 32-byte BLAKE2s digest of a byte string.
pub uninterp spec fn blake2s_256(data: Seq<u8>) -> Seq<u8>;

/// The 33-byte compressed secp256k1 public key derived from a secret
/// key.
pub uninterp spec fn secp_pubkey_of(sk: Seq<u8>) -> Seq<u8>;

/// Whether a compact ECDSA signature over a 32-byte digest checks out
/// under a serialized public key. A function of the three byte strings
/// alone; malformed digests, signatures or keys never check out.
pub uninterp spec fn secp_sig_ok(msg: Seq<u8>, sig: Seq<u8>, pk: Seq<u8>) -> bool;

/// The scalar a byte string stands for, read big-endian.
pub open spec fn be_nat(s: Seq<u8>) -> nat
    decreases s.len(),
{
    if s.len() == 0 {
        0nat
    } else {
        be_nat(s.drop_last()) * 256 + (s.last() as nat)
    }
}

/// Order of the secp256k1 group.
pub open spec fn secp_group_order() -> nat {
    0xFFFFFFFFFFFFFFFFFFFFFFFFFFFFFFFEBAAEDCE6AF48A03BBFD25E8CD0364141nat
}

/// A byte string is a usable secret key: 32 bytes holding a scalar
/// strictly between zero and the group order.
pub open spec fn secp_sk_valid(sk: Seq<u8>) -> bool {
    sk.len() == 32 && 0 < be_nat(sk) < secp_group_order()
}

/// Relies on blake2s_simd::Params::hash with hash_length(32): one
/// fixed hash function whose 32-byte digest depends on the input bytes
/// alone.
#[verifier::external_body]
pub fn blake2s32(data: &Vec<u8>) -> (r: Vec<u8>)
    ensures
        r@ == blake2s_256(data@),
        r@.len() == 32,
{
    blake2s_simd::Params::new().hash_length(32).hash(data.as_slice()).as_bytes().to_vec()
}

/// Relies on secp256k1::SecretKey::from_secret_bytes, which accepts
/// exactly the 32-byte scalars in (0, order), and on
/// PublicKey::from_secret_key / PublicKey::serialize: the 33-byte
/// compressed public key is a function of the secret key alone.
#[verifier::external_body]
pub fn secp_public_key(sk: &Vec<u8>) -> (r: Option<Vec<u8>>)
    ensures
        r is Some <==> secp_sk_valid(sk@),
        r matches Some(pk) ==> pk@ == secp_pubkey_of(sk@) && pk@.len() == 33,
{
    let key: [u8; 32] = match sk.as_slice().try_into() {
        Ok(k) => k,
        Err(_) => return None,
    };
    let secret = match secp256k1::SecretKey::from_secret_bytes(key) {
        Ok(s) => s,
        Err(_) => return None,
    };
    Some(secp256k1::PublicKey::from_secret_key(&secret).serialize().to_vec())
}

/// Relies on secp256k1::ecdsa::sign with a deterministic RFC 6979
/// nonce, and on Signature::serialize_compact: the 64-byte compact
/// signature it produces for a 32-byte digest verifies (ecdsa::verify)
/// under the signer's compressed public key.
#[verifier::external_body]
pub fn secp_sign(msg: &Vec<u8>, sk: &Vec<u8>) -> (r: Option<Vec<u8>>)
    ensures
        r is Some <==> (msg@.len() == 32 && secp_sk_valid(sk@)),
        r matches Some(sig) ==> sig@.len() == 64 && secp_sig_ok(
            msg@,
            sig@,
            secp_pubkey_of(sk@),
        ),
{
    let digest: [u8; 32] = match msg.as_slice().try_into() {
        Ok(d) => d,
        Err(_) => return None,
    };
    let key: [u8; 32] = match sk.as_slice().try_into() {
        Ok(k) => k,
        Err(_) => return None,
    };
    let secret = match secp256k1::SecretKey::from_secret_bytes(key) {
        Ok(s) => s,
        Err(_) => return None,
    };
    let sig = secp256k1::ecdsa::sign(secp256k1::Message::from_digest(digest), &secret);
    Some(sig.serialize_compact().to_vec())
}

/// Relies on secp256k1::ecdsa::verify together with its input parsers
/// Message::from_digest, Signature::from_compact and
/// PublicKey::from_slice: whether the triple checks out is a function
/// of the three byte strings alone, and parse failures check as false.
#[verifier::external_body]
pub fn secp_verify(msg: &Vec<u8>, sig: &Vec<u8>, pk: &Vec<u8>) -> (r: bool)
    ensures
        r == secp_sig_ok(msg@, sig@, pk@),
{
    let digest: [u8; 32] = match msg.as_slice().try_into() {
        Ok(d) => d,
        Err(_) => return false,
    };
    let signature = match secp256k1::ecdsa::Signature::from_compact(sig.as_slice()) {
        Ok(s) => s,
        Err(_) => return false,
    };
    let public = match secp256k1::PublicKey::from_slice(pk.as_slice()) {
        Ok(p) => p,
        Err(_) => return false,
    };
    secp256k1::ecdsa::verify(&signature, secp256k1::Message::from_digest(digest), &public).is_ok()
}

} // verus!

//! Content-addressed identifier derivation.
//!
//! A record's primary identifier is a seeded non-cryptographic 64-bit hash
//! over the canonical encoding of its identity fields (name, body text,
//! optional contact address) — explicitly excluding the server-generated
//! timestamp.  Identical content therefore always yields the identical
//! identifier, so a resubmission collides instead of duplicating.

use crate::codec::{enc_opt_str, enc_str, put_opt_str, put_str};
use vstd::prelude::*;

verus! {

/// The SipHash-2-4 digest, under the all-zero key, of a byte string.
pub uninterp spec fn sip24_of(bytes: Seq<u8>) -> u64;

/// The identifier derived from a record's identity fields.
pub open spec fn id_of(name: Seq<char>, info: Seq<char>, email: Option<Seq<char>>) -> u64 {
    sip24_of(enc_str(name) + enc_str(info) + enc_opt_str(email))
}

/// Relies on siphasher's `SipHasher24::hash` with the all-zero key of
/// `SipHasher24::new`: the digest depends on the input bytes alone.
#[verifier::external_body]
fn sip24(bytes: &[u8]) -> (r: u64)
    ensures
        r == sip24_of(bytes@),
{
    siphasher::sip::SipHasher24::new().hash(bytes)
}

/// Derive the content-addressed identifier of a record from its identity
/// fields.
pub fn derive_id(name: &str, info: &str, email: &Option<String>) -> (r: u64)
    ensures
        r == id_of(name@, info@, email.deep_view()),
{
    let mut buf: Vec<u8> = Vec::new();
    put_str(&mut buf, name);
    put_str(&mut buf, info);
    put_opt_str(&mut buf, email);
    sip24(buf.as_slice())
}

/// Content-addressing determinism: the identifier is a function of the
/// identity fields alone, so equal content always yields the equal
/// identifier, however often it is derived.
pub proof fn lemma_derive_id_deterministic(
    name1: Seq<char>,
    info1: Seq<char>,
    email1: Option<Seq<char>>,
    name2: Seq<char>,
    info2: Seq<char>,
    email2: Option<Seq<char>>,
)
    requires
        name1 == name2,
        info1 == info2,
        email1 == email2,
    ensures
        id_of(name1, info1, email1) == id_of(name2, info2, email2),
{
}

} // verus!

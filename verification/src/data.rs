//! The record-capability interface: what a record kind must provide so that
//! a `World` can store it.
//!
//! A record kind supplies its dimension tuple (the record's address), a
//! versioned byte codec for the payload, and proofs that the tuple has the
//! declared width and that decoding inverts encoding.

use crate::codec::DecodeError;
use vstd::prelude::*;

verus! {

/// A record kind storable in a `World`.
///
/// `Self::V` is the mathematical model of a record; every contract of the
/// store speaks of records through it.
pub trait Data: View + Sized {
    /// Number of dimensions of this record kind.
    spec fn dims_spec() -> nat;

    /// Schema version written for newly encoded records.
    spec fn version_spec() -> u32;

    /// The dimension tuple of a record: the values that address it.
    spec fn dims_of(v: Self::V) -> Seq<u64>;

    /// Byte encoding of a record's payload; dimension values are never part
    /// of it.
    spec fn encoding_of(v: Self::V) -> Seq<u8>;

    /// The record model, if any, that `bytes` decodes to under `version`,
    /// with the dimension tuple `dims` supplied externally.
    spec fn decoded(version: u32, dims: Seq<u64>, bytes: Seq<u8>) -> Option<Self::V>;

    /// Size limits under which a record is encodable; every record that
    /// exists in memory satisfies it.
    spec fn fits(v: Self::V) -> bool;

    /// A record has at least one dimension, and exactly `dims_spec()`.
    proof fn lemma_dims(v: Self::V)
        ensures
            Self::dims_of(v).len() == Self::dims_spec(),
            Self::dims_spec() >= 1,
    ;

    /// Decoding an encoded record under its own version and dimension tuple
    /// restores the record.
    proof fn lemma_round_trip(v: Self::V)
        requires
            Self::fits(v),
        ensures
            Self::decoded(Self::version_spec(), Self::dims_of(v), Self::encoding_of(v)) == Some(v),
            Self::encoding_of(v).len() <= u64::MAX,
    ;

    /// Number of dimensions.
    fn dims() -> (n: usize)
        ensures
            n as nat == Self::dims_spec(),
    ;

    /// Current schema version.
    fn version() -> (ver: u32)
        ensures
            ver == Self::version_spec(),
    ;

    /// One dimension value of this record.
    fn dim(&self, d: usize) -> (r: u64)
        requires
            (d as nat) < Self::dims_spec(),
        ensures
            Self::dims_of(self@).len() == Self::dims_spec() && r == Self::dims_of(self@)[d as int],
    ;

    /// An independent copy with the same model.
    fn dup(&self) -> (r: Self)
        ensures
            r@ == self@,
    ;

    /// Encode the record's payload.
    fn encode(&self) -> (r: Vec<u8>)
        ensures
            r@ == Self::encoding_of(self@),
            Self::fits(self@),
    ;

    /// Decode a payload under `version`, rebuilding the dimension-derived
    /// fields from `dims`.
    fn decode(version: u32, dims: &Vec<u64>, bytes: &[u8]) -> (r: Result<Self, DecodeError>)
        requires
            dims@.len() == Self::dims_spec(),
        ensures
            r is Ok <==> Self::decoded(version, dims@, bytes@) is Some,
            r is Ok ==> Some(r->Ok_0@) == Self::decoded(version, dims@, bytes@),
    ;
}

} // verus!

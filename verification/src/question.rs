//! The question record kind: feedback addressed by a content-derived
//! identifier, its only dimension.

use crate::clock::now_timestamp;
use crate::codec::{
    decode_payload, dup_opt_string, enc_payload, encode_fields, dec_payload, lemma_payload_round_trip,
    payload_fits, DecodeError, PayloadV,
};
use crate::data::Data;
use crate::ident::{derive_id, id_of};
use crate::world::World;
use vstd::prelude::*;
use vstd::string::StringExecFns;

verus! {

/// Question from frontend.
#[derive(Debug)]
pub struct In {
    pub name: String,
    pub info: String,
    pub email: Option<String>,
}

/// Mathematical model of an `In`.
pub ghost struct InV {
    pub name: Seq<char>,
    pub info: Seq<char>,
    pub email: Option<Seq<char>>,
}

impl View for In {
    type V = InV;

    open spec fn view(&self) -> InV {
        InV { name: self.name@, info: self.info@, email: self.email.deep_view() }
    }
}

/// A stored question.
#[derive(Debug)]
pub struct Question {
    /// Name of the questioner.
    pub name: String,
    /// Content of the question.
    pub info: String,
    /// Email address of the questioner.
    pub email: Option<String>,
    /// Only identifier of this question.
    pub pid: u64,
    /// Post time, in whole seconds.
    pub time: i64,
}

/// Mathematical model of a `Question`.
pub ghost struct QuestionV {
    pub name: Seq<char>,
    pub info: Seq<char>,
    pub email: Option<Seq<char>>,
    pub pid: u64,
    pub time: i64,
}

impl View for Question {
    type V = QuestionV;

    open spec fn view(&self) -> QuestionV {
        QuestionV {
            name: self.name@,
            info: self.info@,
            email: self.email.deep_view(),
            pid: self.pid,
            time: self.time,
        }
    }
}

impl Question {
    /// Build a new question from an intake value.  The identifier is derived
    /// from the content alone; the timestamp comes from the clock and is not
    /// constrained.
    pub fn from_in(value: In) -> (r: Question)
        ensures
            r@.name == value@.name,
            r@.info == value@.info,
            r@.email == value@.email,
            r@.pid == id_of(value@.name, value@.info, value@.email),
    {
        let pid = derive_id(value.name.as_str(), value.info.as_str(), &value.email);
        Question {
            name: value.name,
            info: value.info,
            email: value.email,
            pid,
            time: now_timestamp(),
        }
    }
}

impl Data for Question {
    open spec fn dims_spec() -> nat {
        1
    }

    open spec fn version_spec() -> u32 {
        1
    }

    open spec fn dims_of(v: QuestionV) -> Seq<u64> {
        seq![v.pid]
    }

    open spec fn encoding_of(v: QuestionV) -> Seq<u8> {
        enc_payload(PayloadV { name: v.name, info: v.info, email: v.email, time: v.time })
    }

    open spec fn decoded(version: u32, dims: Seq<u64>, bytes: Seq<u8>) -> Option<QuestionV> {
        if version != 1u32 {
            None
        } else {
            match dec_payload(bytes) {
                None => None,
                Some(p) => Some(
                    QuestionV {
                        name: p.name,
                        info: p.info,
                        email: p.email,
                        pid: dims[0],
                        time: p.time,
                    },
                ),
            }
        }
    }

    open spec fn fits(v: QuestionV) -> bool {
        payload_fits(PayloadV { name: v.name, info: v.info, email: v.email, time: v.time })
    }

    proof fn lemma_dims(v: QuestionV) {
    }

    proof fn lemma_round_trip(v: QuestionV) {
        lemma_payload_round_trip(
            PayloadV { name: v.name, info: v.info, email: v.email, time: v.time },
        );
    }

    fn dims() -> (n: usize) {
        1
    }

    fn version() -> (ver: u32) {
        1
    }

    fn dim(&self, d: usize) -> (r: u64) {
        self.pid
    }

    fn dup(&self) -> (r: Question) {
        Question {
            name: self.name.clone(),
            info: self.info.clone(),
            email: dup_opt_string(&self.email),
            pid: self.pid,
            time: self.time,
        }
    }

    fn encode(&self) -> (r: Vec<u8>) {
        encode_fields(self.name.as_str(), self.info.as_str(), &self.email, self.time)
    }

    fn decode(version: u32, dims: &Vec<u64>, bytes: &[u8]) -> (r: Result<Question, DecodeError>) {
        if version != 1 {
            return Err(DecodeError::UnknownVersion);
        }
        match decode_payload(bytes) {
            Err(e) => Err(e),
            Ok(p) => Ok(
                Question {
                    name: p.name,
                    info: p.info,
                    email: p.email,
                    pid: dims[0],
                    time: p.time,
                },
            ),
        }
    }
}

/// Errors of the question workflow.
#[derive(Clone, Copy, Debug, PartialEq, Eq, Structural)]
pub enum Error {
    /// Internal database failure.
    Db,
    /// A question with the same identifier already exists.
    PidConflict,
}

impl Error {
    /// The HTTP status code this error is reported with.
    pub fn http_status(&self) -> (r: u16)
        ensures
            r == match self {
                Error::Db => 500u16,
                Error::PidConflict => 409u16,
            },
    {
        match self {
            Error::Db => 500,
            Error::PidConflict => 409,
        }
    }

    /// The message this error is reported with.
    pub fn message(&self) -> (r: String)
        ensures
            r@ == match self {
                Error::Db => "internal database error"@,
                Error::PidConflict => "pid conflicted"@,
            },
    {
        match self {
            Error::Db => String::from_str("internal database error"),
            Error::PidConflict => String::from_str("pid conflicted"),
        }
    }
}


// ---------------------------------------------------------------------------
// The question workflow over a world.
// ---------------------------------------------------------------------------

/// Intake a question: insert it at its content-derived identifier.  A
/// question already stored under the identifier is replaced, and the
/// replacement is reported as a conflict.
pub fn new(w: &mut World<Question>, question: In) -> (r: Result<(), Error>)
    requires
        old(w).wf(),
    ensures
        final(w).wf(),
        ({
            let t = seq![id_of(question@.name, question@.info, question@.email)];
            &&& final(w).spec_find(t) matches Some(qv)
            &&& final(w).spec_find(t)->0.name == question@.name
            &&& final(w).spec_find(t)->0.info == question@.info
            &&& final(w).spec_find(t)->0.email == question@.email
            &&& final(w).spec_find(t)->0.pid == t[0]
            &&& forall|t2: Seq<u64>| t2 != t ==> final(w).spec_find(t2) == old(w).spec_find(t2)
            &&& forall|t2: Seq<u64>| final(w).leased(t2) == old(w).leased(t2)
            &&& (r is Ok <==> old(w).spec_find(t) is None)
            &&& (r is Err ==> r->Err_0 == Error::PidConflict)
        }),
{
    let q = Question::from_in(question);
    proof {
        assert(Question::dims_of(q@) =~= seq![q@.pid]);
    }
    match w.insert(q) {
        Some(_prev) => Err(Error::PidConflict),
        None => Ok(()),
    }
}

} // verus!

//! The paper record kind: a submission addressed by a content-derived
//! identifier (dimension 0) and a review status (dimension 1).

use crate::clock::now_timestamp;
use crate::codec::{
    decode_payload, dup_opt_string, enc_payload, encode_fields, dec_payload, lemma_payload_round_trip,
    payload_fits, DecodeError, PayloadV,
};
use crate::data::Data;
use crate::ident::{derive_id, id_of};
use crate::world::{hint_applies, sel_matches, sel_tuples, StoreError, World};
use vstd::prelude::*;
use vstd::string::StringExecFns;

verus! {

/// Review status of a paper; its value is the paper's second dimension.
#[derive(Clone, Copy, Debug, PartialEq, Eq, Structural)]
pub enum Status {
    Pending,
    Approved,
}

/// The dimension value a status is stored under.
pub open spec fn status_dim(s: Status) -> u64 {
    match s {
        Status::Pending => 0u64,
        Status::Approved => 1u64,
    }
}

/// The status a stored dimension value stands for.
pub open spec fn status_of_dim(d: u64) -> Status {
    if d == 0u64 {
        Status::Pending
    } else {
        Status::Approved
    }
}

/// A paper submission.
#[derive(Debug)]
pub struct Paper {
    /// Paper author's name.
    pub name: String,
    /// Paper content.
    pub info: String,
    /// Paper author's email.
    pub email: Option<String>,
    /// Only identifier of this paper.
    pub pid: u64,
    /// Post time, in whole seconds.
    pub time: i64,
    pub status: Status,
}

/// Mathematical model of a `Paper`.
pub ghost struct PaperV {
    pub name: Seq<char>,
    pub info: Seq<char>,
    pub email: Option<Seq<char>>,
    pub pid: u64,
    pub time: i64,
    pub status: Status,
}

impl View for Paper {
    type V = PaperV;

    open spec fn view(&self) -> PaperV {
        PaperV {
            name: self.name@,
            info: self.info@,
            email: self.email.deep_view(),
            pid: self.pid,
            time: self.time,
            status: self.status,
        }
    }
}

/// Paper from frontend.
#[derive(Debug)]
pub struct In {
    pub name: String,
    pub info: String,
    pub email: Option<String>,
}

/// Mathematical model of an `In`.
pub ghost struct InV {
    pub name: Seq<char>,
    pub info: Seq<char>,
    pub email: Option<Seq<char>>,
}

impl View for In {
    type V = InV;

    open spec fn view(&self) -> InV {
        InV { name: self.name@, info: self.info@, email: self.email.deep_view() }
    }
}

/// Paper to frontend.
#[derive(Debug)]
pub struct Out {
    pub name: String,
    pub info: String,
    pub email: Option<String>,
    pub pid: u64,
    pub time: i64,
}

/// Mathematical model of an `Out`.
pub ghost struct OutV {
    pub name: Seq<char>,
    pub info: Seq<char>,
    pub email: Option<Seq<char>>,
    pub pid: u64,
    pub time: i64,
}

impl View for Out {
    type V = OutV;

    open spec fn view(&self) -> OutV {
        OutV {
            name: self.name@,
            info: self.info@,
            email: self.email.deep_view(),
            pid: self.pid,
            time: self.time,
        }
    }
}

/// The `Out` model a paper model maps to.
pub open spec fn out_of(v: PaperV) -> OutV {
    OutV { name: v.name, info: v.info, email: v.email, pid: v.pid, time: v.time }
}

impl Paper {
    /// Flip the status dimension to approved.
    pub fn approve(&mut self)
        ensures
            final(self)@ == (PaperV { status: Status::Approved, ..old(self)@ }),
    {
        self.status = Status::Approved;
    }

    /// The frontend view of this paper.
    pub fn to_out(&self) -> (r: Out)
        ensures
            r@ == out_of(self@),
    {
        Out {
            name: self.name.clone(),
            info: self.info.clone(),
            email: dup_opt_string(&self.email),
            pid: self.pid,
            time: self.time,
        }
    }

    /// Build a new pending paper from an intake value.  The identifier is
    /// derived from the content alone; the timestamp comes from the clock
    /// and is not constrained.
    pub fn from_in(value: In) -> (r: Paper)
        ensures
            r@.name == value@.name,
            r@.info == value@.info,
            r@.email == value@.email,
            r@.pid == id_of(value@.name, value@.info, value@.email),
            r@.status == Status::Pending,
    {
        let pid = derive_id(value.name.as_str(), value.info.as_str(), &value.email);
        Paper {
            name: value.name,
            info: value.info,
            email: value.email,
            pid,
            time: now_timestamp(),
            status: Status::Pending,
        }
    }
}

impl Data for Paper {
    open spec fn dims_spec() -> nat {
        2
    }

    open spec fn version_spec() -> u32 {
        1
    }

    open spec fn dims_of(v: PaperV) -> Seq<u64> {
        seq![v.pid, status_dim(v.status)]
    }

    open spec fn encoding_of(v: PaperV) -> Seq<u8> {
        enc_payload(PayloadV { name: v.name, info: v.info, email: v.email, time: v.time })
    }

    open spec fn decoded(version: u32, dims: Seq<u64>, bytes: Seq<u8>) -> Option<PaperV> {
        if version != 1u32 {
            None
        } else {
            match dec_payload(bytes) {
                None => None,
                Some(p) => Some(
                    PaperV {
                        name: p.name,
                        info: p.info,
                        email: p.email,
                        pid: dims[0],
                        time: p.time,
                        status: status_of_dim(dims[1]),
                    },
                ),
            }
        }
    }

    open spec fn fits(v: PaperV) -> bool {
        payload_fits(PayloadV { name: v.name, info: v.info, email: v.email, time: v.time })
    }

    proof fn lemma_dims(v: PaperV) {
    }

    proof fn lemma_round_trip(v: PaperV) {
        lemma_payload_round_trip(
            PayloadV { name: v.name, info: v.info, email: v.email, time: v.time },
        );
    }

    fn dims() -> (n: usize) {
        2
    }

    fn version() -> (ver: u32) {
        1
    }

    fn dim(&self, d: usize) -> (r: u64) {
        if d == 0 {
            self.pid
        } else {
            match self.status {
                Status::Pending => 0,
                Status::Approved => 1,
            }
        }
    }

    fn dup(&self) -> (r: Paper) {
        Paper {
            name: self.name.clone(),
            info: self.info.clone(),
            email: dup_opt_string(&self.email),
            pid: self.pid,
            time: self.time,
            status: self.status,
        }
    }

    fn encode(&self) -> (r: Vec<u8>) {
        encode_fields(self.name.as_str(), self.info.as_str(), &self.email, self.time)
    }

    fn decode(version: u32, dims: &Vec<u64>, bytes: &[u8]) -> (r: Result<Paper, DecodeError>) {
        if version != 1 {
            return Err(DecodeError::UnknownVersion);
        }
        match decode_payload(bytes) {
            Err(e) => Err(e),
            Ok(p) => Ok(
                Paper {
                    name: p.name,
                    info: p.info,
                    email: p.email,
                    pid: dims[0],
                    time: p.time,
                    status: if dims[1] == 0 {
                        Status::Pending
                    } else {
                        Status::Approved
                    },
                },
            ),
        }
    }
}

/// Errors of the paper workflow.
#[derive(Clone, Copy, Debug, PartialEq, Eq, Structural)]
pub enum Error {
    /// Internal database failure.
    Db,
    /// A paper with the same identifier already exists.
    PidConflict,
    /// The paper repository holds no approved paper.
    NoPaper,
    /// The requested paper does not exist.
    NotFound,
}

impl Error {
    /// The HTTP status code this error is reported with.
    pub fn http_status(&self) -> (r: u16)
        ensures
            r == match self {
                Error::Db => 500u16,
                Error::PidConflict => 409u16,
                Error::NoPaper => 404u16,
                Error::NotFound => 404u16,
            },
    {
        match self {
            Error::Db => 500,
            Error::PidConflict => 409,
            Error::NoPaper => 404,
            Error::NotFound => 404,
        }
    }

    /// The message this error is reported with.
    pub fn message(&self) -> (r: String)
        ensures
            r@ == match self {
                Error::Db => "internal database error"@,
                Error::PidConflict => "pid conflicted"@,
                Error::NoPaper => "paper repository is empty"@,
                Error::NotFound => "requiring paper not found"@,
            },
    {
        match self {
            Error::Db => String::from_str("internal database error"),
            Error::PidConflict => String::from_str("pid conflicted"),
            Error::NoPaper => String::from_str("paper repository is empty"),
            Error::NotFound => String::from_str("requiring paper not found"),
        }
    }
}

/// An approval or rejection request: the identifier of the paper it targets.
#[derive(Clone, Copy, Debug)]
pub struct ApprRejReq {
    pub pid: u64,
}

// ---------------------------------------------------------------------------
// The paper workflow over a world.
// ---------------------------------------------------------------------------

/// Relies on fastrand's `usize` with an upper bound: a random index below
/// `n`.  Nothing is promised of which index comes back; callers hold for
/// every outcome.
#[verifier::external_body]
fn pick_index(n: usize) -> (r: usize)
    requires
        n >= 1,
    ensures
        r < n,
{
    fastrand::usize(..n)
}

/// Intake a paper: derive its identifier from content, insert it strictly as
/// pending.  A paper of identical content is already stored under the same
/// tuple, so the insertion conflicts instead of duplicating.
pub fn post(w: &mut World<Paper>, paper: In) -> (r: Result<(), Error>)
    requires
        old(w).wf(),
    ensures
        final(w).wf(),
        ({
            let t = seq![id_of(paper@.name, paper@.info, paper@.email), 0u64];
            match r {
                Ok(()) => {
                    &&& old(w).spec_find(t) is None
                    &&& final(w).spec_find(t) matches Some(pv)
                    &&& final(w).spec_find(t)->0.name == paper@.name
                    &&& final(w).spec_find(t)->0.info == paper@.info
                    &&& final(w).spec_find(t)->0.email == paper@.email
                    &&& final(w).spec_find(t)->0.pid == t[0]
                    &&& final(w).spec_find(t)->0.status == Status::Pending
                    &&& forall|t2: Seq<u64>|
                        t2 != t ==> final(w).spec_find(t2) == old(w).spec_find(t2)
                    &&& forall|t2: Seq<u64>| final(w).leased(t2) == old(w).leased(t2)
                },
                Err(e) => e == Error::PidConflict && old(w).spec_find(t) is Some && *final(w)
                    == *old(w),
            }
        }),
{
    let p = Paper::from_in(paper);
    proof {
        assert(Paper::dims_of(p@) =~= seq![p@.pid, 0u64]);
    }
    match w.try_insert(p) {
        Ok(()) => Ok(()),
        Err(_back) => Err(Error::PidConflict),
    }
}

/// Serve one approved paper, chosen uniformly at random among the records
/// of the approved status; `NoPaper` exactly when none is approved.  The
/// record returned is a stored, approved record.
pub fn get(w: &World<Paper>) -> (r: Result<Paper, Error>)
    requires
        w.wf(),
    ensures
        match r {
            Ok(p) => w.spec_find(Paper::dims_of(p@)) == Some(p@) && p@.status
                == Status::Approved,
            Err(e) => e == Error::NoPaper && (forall|t: Seq<u64>|
                #[trigger] w.spec_find(t) is Some ==> t[1] != 1u64),
        },
{
    let sel = w.select(1, 1);
    proof {
        assert(sel.constraints@.len() == 1 && sel.constraints@[0] == (1usize, 1u64));
    }
    let approved = sel.candidates(w);
    if approved.len() == 0 {
        proof {
            assert forall|t: Seq<u64>| #[trigger] w.spec_find(t) is Some implies t[1]
                != 1u64 by {
                w.lemma_found(t);
                if t[1] == 1u64 {
                    assert(sel_matches(t, sel.constraints@));
                }
            }
        }
        return Err(Error::NoPaper);
    }
    let k = pick_index(approved.len());
    let pid = approved[k].id();
    let ghost chosen = approved@[k as int].key();
    proof {
        assert(sel_matches(chosen, sel.constraints@));
        assert(chosen[1] == 1u64);
        w.lemma_found(chosen);
    }
    let sel2 = w.select(0, pid).and(1, 1).hint(pid);
    proof {
        assert(sel2.constraints@.len() == 2 && sel2.constraints@[0] == (0usize, pid)
            && sel2.constraints@[1] == (1usize, 1u64));
    }
    let mut cands = sel2.candidates(w);
    if cands.len() == 0 {
        proof {
            assert(sel_matches(chosen, sel2.constraints@));
            assert(false);
        }
        return Err(Error::NoPaper);
    }
    let mut h = cands.remove(0);
    let ghost hkey = h.key();
    match h.get(w) {
        Ok(val) => {
            proof {
                w.lemma_found(hkey);
                assert(sel_matches(hkey, sel2.constraints@));
                assert(hkey[0] == pid && hkey[1] == 1u64);
                assert(Paper::dims_of(val@) == hkey);
                assert(status_dim(val@.status) == 1u64);
                assert(val@.status == Status::Approved) by {
                    if val@.status == Status::Pending {
                        assert(status_dim(val@.status) == 0u64);
                    }
                }
            }
            Ok(val)
        },
        Err(_) => {
            proof {
                assert(false);
            }
            Err(Error::Db)
        },
    }
}

/// Frontend views of two distinct stored tuples of one status differ: the
/// tuples differ in the identifier, which the view carries.
proof fn lemma_out_views_differ(w: World<Paper>, t1: Seq<u64>, t2: Seq<u64>)
    requires
        w.wf(),
        w.spec_find(t1) is Some,
        w.spec_find(t2) is Some,
        t1 != t2,
        t1.len() == 2,
        t2.len() == 2,
        t1[1] == t2[1],
    ensures
        out_of(w.spec_find(t1)->0) != out_of(w.spec_find(t2)->0),
{
    w.lemma_found(t1);
    w.lemma_found(t2);
    if t1[0] == t2[0] {
        assert(t1 =~= t2);
    }
    assert(out_of(w.spec_find(t1)->0).pid == t1[0]);
    assert(out_of(w.spec_find(t2)->0).pid == t2[0]);
}

/// Every pending paper, as frontend views.  Sound, complete, and free of
/// repetition: each element is the view of a stored pending paper, every
/// stored pending paper appears, and no element appears twice.
#[verifier::rlimit(50)]
#[verifier::spinoff_prover]
pub fn unprocessed(w: &World<Paper>) -> (r: Vec<Out>)
    requires
        w.wf(),
    ensures
        forall|j: int|
            0 <= j < r@.len() ==> exists|t: Seq<u64>|
                #[trigger] w.spec_find(t) is Some && t.len() == 2 && t[1] == 0u64 && (
                #[trigger] r@[j])@ == out_of(w.spec_find(t)->0),
        forall|t: Seq<u64>|
            #[trigger] w.spec_find(t) is Some && t.len() == 2 && t[1] == 0u64 ==> exists|j: int|
                0 <= j < r@.len() && (#[trigger] r@[j])@ == out_of(w.spec_find(t)->0),
        forall|j1: int, j2: int|
            0 <= j1 < j2 < r@.len() ==> (#[trigger] r@[j1])@ != (#[trigger] r@[j2])@,
{
    let sel = w.select(1, 0);
    proof {
        assert(sel.constraints@.len() == 1 && sel.constraints@[0] == (1usize, 0u64));
    }
    let mut hs = sel.candidates(w);
    let ghost all = hs@;
    let mut ret: Vec<Out> = Vec::new();
    while hs.len() != 0
        invariant
            w.wf(),
            sel.constraints@.len() == 1 && sel.constraints@[0] == (1usize, 0u64),
            forall|j: int|
                0 <= j < all.len() ==> (#[trigger] all[j]).st() is Detached && all[j].key().len()
                    == 2 && w.spec_find(all[j].key()) is Some && sel_matches(
                    all[j].key(),
                    sel.constraints@,
                ),
            forall|t: Seq<u64>|
                w.spec_find(t) is Some && sel_matches(t, sel.constraints@) ==> exists|j: int|
                    0 <= j < all.len() && (#[trigger] all[j]).key() == t,
            forall|j1: int, j2: int|
                0 <= j1 < j2 < all.len() ==> (#[trigger] all[j1]).key() != (
                #[trigger] all[j2]).key(),
            ret@.len() + hs@.len() == all.len(),
            forall|j: int|
                0 <= j < hs@.len() ==> #[trigger] hs@[j] == all[ret@.len() + j],
            forall|j: int|
                0 <= j < ret@.len() ==> (#[trigger] ret@[j])@ == out_of(
                    w.spec_find(all[j].key())->0,
                ),
        decreases hs@.len(),
    {
        let ghost done = ret@.len() as int;
        let mut h = hs.remove(0);
        proof {
            assert(h == all[done]);
        }
        match h.get(w) {
            Ok(val) => {
                ret.push(val.to_out());
            },
            Err(_) => {
                proof {
                    assert(false);
                }
            },
        }
    }
    proof {
        assert forall|t: Seq<u64>|
            #[trigger] w.spec_find(t) is Some && t.len() == 2 && t[1] == 0u64 implies exists|
            j: int,
        | 0 <= j < ret@.len() && (#[trigger] ret@[j])@ == out_of(w.spec_find(t)->0) by {
            assert(sel_matches(t, sel.constraints@));
            let j = choose|j: int| 0 <= j < all.len() && (#[trigger] all[j]).key() == t;
            assert(ret@[j]@ == out_of(w.spec_find(t)->0));
        }
        assert forall|j: int| 0 <= j < ret@.len() implies exists|t: Seq<u64>|
            #[trigger] w.spec_find(t) is Some && t.len() == 2 && t[1] == 0u64 && (
            #[trigger] ret@[j])@ == out_of(w.spec_find(t)->0) by {
            let t = all[j].key();
            assert(sel_matches(t, sel.constraints@));
            assert(t[1] == 0u64);
            assert(w.spec_find(t) is Some && t.len() == 2 && ret@[j]@ == out_of(
                w.spec_find(t)->0,
            ));
        }
        assert forall|j1: int, j2: int| 0 <= j1 < j2 < ret@.len() implies (#[trigger] ret@[j1])@
            != (#[trigger] ret@[j2])@ by {
            let t1 = all[j1].key();
            let t2 = all[j2].key();
            assert(t1[1] == 0u64 && t2[1] == 0u64);
            lemma_out_views_differ(*w, t1, t2);
        }
    }
    ret
}

/// Approve the pending paper with this identifier: acquire the exclusive
/// lease, flip the status dimension, and commit, which moves the record from
/// the pending chunk to the approved one.
pub fn approve(w: &mut World<Paper>, req: ApprRejReq) -> (r: Result<(), Error>)
    requires
        old(w).wf(),
    ensures
        final(w).wf(),
        ({
            let t0 = seq![req.pid, 0u64];
            let t1 = seq![req.pid, 1u64];
            match r {
                Ok(()) => {
                    &&& old(w).spec_find(t0) is Some
                    &&& !old(w).leased(t0)
                    &&& old(w).spec_find(t1) is None
                    &&& final(w).spec_find(t0) is None
                    &&& final(w).spec_find(t1) == Some(
                        PaperV { status: Status::Approved, ..old(w).spec_find(t0)->0 },
                    )
                    &&& forall|t2: Seq<u64>|
                        t2 != t0 && t2 != t1 ==> final(w).spec_find(t2) == old(w).spec_find(t2)
                    &&& forall|t2: Seq<u64>| final(w).leased(t2) == old(w).leased(t2)
                },
                Err(Error::NotFound) => (old(w).spec_find(t0) is None || old(w).leased(t0))
                    && *final(w) == *old(w),
                Err(Error::Db) => {
                    &&& old(w).spec_find(t0) is Some
                    &&& !old(w).leased(t0)
                    &&& old(w).spec_find(t1) is Some
                    &&& forall|t2: Seq<u64>| final(w).spec_find(t2) == old(w).spec_find(t2)
                    &&& forall|t2: Seq<u64>| final(w).leased(t2) == old(w).leased(t2)
                },
                _ => false,
            }
        }),
{
    let ghost t0 = seq![req.pid, 0u64];
    let sel = w.select(0, req.pid).and(1, 0).hint(req.pid);
    proof {
        assert(sel.constraints@.len() == 2 && sel.constraints@[0] == (0usize, req.pid)
            && sel.constraints@[1] == (1usize, 0u64));
        assert(hint_applies(sel));
    }
    let mut hs = sel.candidates(w);
    if hs.len() == 0 {
        proof {
            if w.spec_find(t0) is Some {
                assert(sel_matches(t0, sel.constraints@));
                assert(false);
            }
        }
        return Err(Error::NotFound);
    }
    let mut h = hs.remove(0);
    let ghost hkey = h.key();
    proof {
        assert(sel_matches(hkey, sel.constraints@));
        assert(hkey[0] == req.pid && hkey[1] == 0u64 && hkey.len() == 2);
        assert(hkey =~= t0);
    }
    match h.get_mut(w) {
        Ok(mut p) => {
            proof {
                w.lemma_found(t0);
                assert(Paper::dims_of(p@) == t0);
                assert(p@.pid == req.pid && p@.status == Status::Pending);
            }
            p.approve();
            proof {
                assert(Paper::dims_of(p@) =~= seq![req.pid, 1u64]);
            }
            match h.close(w, p) {
                Ok(()) => Ok(()),
                Err(_) => Err(Error::Db),
            }
        },
        Err(_) => {
            proof {
                assert(w.leased(t0));
            }
            Err(Error::NotFound)
        },
    }
}

/// Reject the pending paper with this identifier: destroy it, removing the
/// record from its chunk for good.
pub fn reject(w: &mut World<Paper>, req: ApprRejReq) -> (r: Result<(), Error>)
    requires
        old(w).wf(),
    ensures
        final(w).wf(),
        ({
            let t0 = seq![req.pid, 0u64];
            match r {
                Ok(()) => {
                    &&& old(w).spec_find(t0) is Some
                    &&& final(w).spec_find(t0) is None
                    &&& forall|t2: Seq<u64>|
                        t2 != t0 ==> final(w).spec_find(t2) == old(w).spec_find(t2)
                    &&& forall|t2: Seq<u64>|
                        final(w).leased(t2) == (old(w).leased(t2) && t2 != t0)
                },
                Err(Error::NotFound) => old(w).spec_find(t0) is None && *final(w) == *old(w),
                Err(Error::Db) => old(w).spec_find(t0) is Some && old(w).leased(t0) && *final(w)
                    == *old(w),
                _ => false,
            }
        }),
{
    let ghost t0 = seq![req.pid, 0u64];
    let sel = w.select(0, req.pid).and(1, 0).hint(req.pid);
    proof {
        assert(sel.constraints@.len() == 2 && sel.constraints@[0] == (0usize, req.pid)
            && sel.constraints@[1] == (1usize, 0u64));
        assert(hint_applies(sel));
    }
    let mut hs = sel.candidates(w);
    if hs.len() == 0 {
        proof {
            if w.spec_find(t0) is Some {
                assert(sel_matches(t0, sel.constraints@));
                assert(false);
            }
        }
        return Err(Error::NotFound);
    }
    let mut h = hs.remove(0);
    let ghost hkey = h.key();
    proof {
        assert(sel_matches(hkey, sel.constraints@));
        assert(hkey =~= t0);
    }
    match h.destroy(w) {
        Ok(()) => Ok(()),
        Err(StoreError::Conflict) => Err(Error::Db),
        Err(StoreError::NotFound) => {
            proof {
                assert(false);
            }
            Err(Error::NotFound)
        },
    }
}

/// Status move invariant: once a commit has moved a paper from the pending
/// tuple to the approved one, a selection constrained to the old status
/// value no longer returns the record, and a selection constrained to the
/// new value does.
pub proof fn lemma_status_move(w: World<Paper>, pid: u64)
    requires
        w.wf(),
        w.spec_find(seq![pid, 0u64]) is None,
        w.spec_find(seq![pid, 1u64]) is Some,
    ensures
        !sel_tuples(w, 1, 0u64).contains(seq![pid, 0u64]),
        sel_tuples(w, 1, 1u64).contains(seq![pid, 1u64]),
{
}


/// A stored paper's tuple carries a status value of zero or one: the tuple
/// is the record's own address, and the status dimension has no other
/// values.
proof fn lemma_status_values(w: World<Paper>, t: Seq<u64>)
    requires
        w.wf(),
        w.spec_find(t) is Some,
    ensures
        t.len() == 2,
        t[1] == 0u64 || t[1] == 1u64,
{
    w.lemma_found(t);
    let pv = w.spec_find(t)->0;
    assert(t[1] == status_dim(pv.status));
}

/// Scenario: a world that holds exactly one record — submission `a`,
/// pending, its identifier `a.pid` — after a committed approval.  The
/// post-state facts required here are the ones `approve`'s `Ok` contract
/// yields (and with no approved twin and no lease, `approve`'s contract
/// admits only `Ok`).  Then a selection constrained to the approved status
/// returns exactly the moved record, and one constrained to the pending
/// status returns nothing.
pub proof fn lemma_approve_scenario(w0: World<Paper>, w1: World<Paper>, a: PaperV)
    requires
        w0.wf(),
        w1.wf(),
        a.status == Status::Pending,
        w0.spec_find(Paper::dims_of(a)) == Some(a),
        forall|t: Seq<u64>| t != Paper::dims_of(a) ==> w0.spec_find(t) is None,
        w1.spec_find(seq![a.pid, 0u64]) is None,
        w1.spec_find(seq![a.pid, 1u64]) == Some(PaperV { status: Status::Approved, ..a }),
        forall|t: Seq<u64>|
            t != seq![a.pid, 0u64] && t != seq![a.pid, 1u64] ==> w1.spec_find(t) == w0.spec_find(
                t,
            ),
    ensures
        sel_tuples(w1, 1, 1u64) =~= set![seq![a.pid, 1u64]],
        sel_tuples(w1, 1, 0u64) =~= Set::<Seq<u64>>::empty(),
{
    let t0 = seq![a.pid, 0u64];
    let t1 = seq![a.pid, 1u64];
    assert(Paper::dims_of(a) =~= t0);
    assert forall|t: Seq<u64>| sel_tuples(w1, 1, 1u64).contains(t) implies t == t1 by {
        if t != t0 && t != t1 {
            assert(w1.spec_find(t) == w0.spec_find(t));
        }
    }
    assert(sel_tuples(w1, 1, 1u64).contains(t1));
    assert forall|t: Seq<u64>| !sel_tuples(w1, 1, 0u64).contains(t) by {
        if t != t0 && t != t1 {
            assert(w1.spec_find(t) == w0.spec_find(t));
        }
    }
}

/// Scenario: a submission's content is already stored pending, and no
/// approved record shares the identifier.  Then the full tuple a second
/// identical submission addresses is occupied — so `post`'s contract admits
/// only `Err(PidConflict)` with the world unchanged — and the pending tuple
/// is the only stored tuple under that identifier.
pub proof fn lemma_duplicate_scenario(
    w: World<Paper>,
    name: Seq<char>,
    info: Seq<char>,
    email: Option<Seq<char>>,
)
    requires
        w.wf(),
        w.spec_find(seq![id_of(name, info, email), 0u64]) is Some,
        w.spec_find(seq![id_of(name, info, email), 1u64]) is None,
    ensures
        forall|t: Seq<u64>|
            #[trigger] w.spec_find(t) is Some && t[0] == id_of(name, info, email) ==> t == seq![
                id_of(name, info, email),
                0u64,
            ],
{
    let pid = id_of(name, info, email);
    assert forall|t: Seq<u64>| #[trigger] w.spec_find(t) is Some && t[0] == pid implies t
        == seq![pid, 0u64] by {
        lemma_status_values(w, t);
        if t[1] == 0u64 {
            assert(t =~= seq![pid, 0u64]);
        } else {
            assert(t =~= seq![pid, 1u64]);
        }
    }
}

/// Scenario: after a rejection destroyed the pending record with this
/// identifier, and no approved record shares it, every selection by the
/// identifying dimension returns nothing — destruction is final.  A later
/// approval or rejection of the identifier meets only the `NotFound` case
/// of its contract, since the pending tuple is unoccupied.
pub proof fn lemma_reject_scenario(w: World<Paper>, pid: u64)
    requires
        w.wf(),
        w.spec_find(seq![pid, 0u64]) is None,
        w.spec_find(seq![pid, 1u64]) is None,
    ensures
        sel_tuples(w, 0, pid) =~= Set::<Seq<u64>>::empty(),
{
    assert forall|t: Seq<u64>| !sel_tuples(w, 0, pid).contains(t) by {
        if w.spec_find(t) is Some && 0 < t.len() && t[0] == pid {
            lemma_status_values(w, t);
            if t[1] == 0u64 {
                assert(t =~= seq![pid, 0u64]);
            } else {
                assert(t =~= seq![pid, 1u64]);
            }
        }
    }
}

} // verus!

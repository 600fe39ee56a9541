//! Byte codec for record payloads.
//!
//! A payload is the stored part of a record: the fields that are not
//! reconstructed from the record's dimension values.  The wire form is a
//! plain concatenation: each string is a little-endian `u64` byte length
//! followed by its UTF-8 bytes, an optional string is a one-byte tag (0 or 1)
//! followed by the string when the tag is 1, and the timestamp is a
//! little-endian `u64`.  Decoding is exact: it accepts precisely the byte
//! strings that some payload encodes to, and returns that payload.

use vstd::bytes::*;
use vstd::prelude::*;
use vstd::utf8::*;

verus! {

/// Failure of `decode`: the bytes are not a well-formed payload for the
/// claimed schema version, or the version itself is not known.
#[derive(Clone, Copy, Debug, PartialEq, Eq, Structural)]
pub enum DecodeError {
    /// The byte string is not the encoding of any payload.
    Malformed,
    /// The schema version tag is not one this build can decode.
    UnknownVersion,
}

/// A record payload: everything stored for a record except its dimension
/// values.  Both record kinds of this crate share this shape.
#[derive(Debug)]
pub struct Payload {
    pub name: String,
    pub info: String,
    pub email: Option<String>,
    pub time: i64,
}

/// Mathematical model of a `Payload`.
pub ghost struct PayloadV {
    pub name: Seq<char>,
    pub info: Seq<char>,
    pub email: Option<Seq<char>>,
    pub time: i64,
}

impl View for Payload {
    type V = PayloadV;

    open spec fn view(&self) -> PayloadV {
        PayloadV {
            name: self.name@,
            info: self.info@,
            email: self.email.deep_view(),
            time: self.time,
        }
    }
}

// ---------------------------------------------------------------------------
// Encoding, at the specification level.
// ---------------------------------------------------------------------------

pub open spec fn enc_u64(x: u64) -> Seq<u8> {
    spec_u64_to_le_bytes(x)
}

pub open spec fn enc_bytes(b: Seq<u8>) -> Seq<u8> {
    enc_u64(b.len() as u64) + b
}

pub open spec fn enc_str(s: Seq<char>) -> Seq<u8> {
    enc_bytes(encode_utf8(s))
}

pub open spec fn enc_opt_str(o: Option<Seq<char>>) -> Seq<u8> {
    match o {
        None => seq![0u8],
        Some(s) => seq![1u8] + enc_str(s),
    }
}

pub open spec fn enc_payload(v: PayloadV) -> Seq<u8> {
    enc_str(v.name) + enc_str(v.info) + enc_opt_str(v.email) + enc_u64(v.time as u64)
}

/// The byte length of a string fits in the length prefix.  Every string that
/// exists in memory satisfies this; it is a machine limit, not a rule of the
/// format.
pub open spec fn str_fits(s: Seq<char>) -> bool {
    encode_utf8(s).len() <= u64::MAX
}

pub open spec fn payload_fits(v: PayloadV) -> bool {
    &&& str_fits(v.name)
    &&& str_fits(v.info)
    &&& match v.email {
        None => true,
        Some(s) => str_fits(s),
    }
    &&& enc_payload(v).len() <= u64::MAX
}

// ---------------------------------------------------------------------------
// Decoding, at the specification level.  Each `dec_*_at` reads one field at
// byte offset `i` and returns the value with the offset just past it.
// ---------------------------------------------------------------------------

pub open spec fn dec_u64_at(b: Seq<u8>, i: int) -> Option<(u64, int)> {
    if 0 <= i && i + 8 <= b.len() {
        Some((spec_u64_from_le_bytes(b.subrange(i, i + 8)), i + 8))
    } else {
        None
    }
}

pub open spec fn dec_bytes_at(b: Seq<u8>, i: int) -> Option<(Seq<u8>, int)> {
    match dec_u64_at(b, i) {
        None => None,
        Some((n, j)) => {
            if j + n <= b.len() {
                Some((b.subrange(j, j + n), j + n))
            } else {
                None
            }
        },
    }
}

pub open spec fn dec_str_at(b: Seq<u8>, i: int) -> Option<(Seq<char>, int)> {
    match dec_bytes_at(b, i) {
        None => None,
        Some((bs, j)) => {
            if valid_utf8(bs) {
                Some((decode_utf8(bs), j))
            } else {
                None
            }
        },
    }
}

pub open spec fn dec_opt_str_at(b: Seq<u8>, i: int) -> Option<(Option<Seq<char>>, int)> {
    if 0 <= i && i < b.len() {
        if b[i] == 0u8 {
            Some((None, i + 1))
        } else if b[i] == 1u8 {
            match dec_str_at(b, i + 1) {
                None => None,
                Some((s, j)) => Some((Some(s), j)),
            }
        } else {
            None
        }
    } else {
        None
    }
}

/// The payload, if any, that the whole byte string `b` encodes.
pub open spec fn dec_payload(b: Seq<u8>) -> Option<PayloadV> {
    match dec_str_at(b, 0) {
        None => None,
        Some((name, i1)) => match dec_str_at(b, i1) {
            None => None,
            Some((info, i2)) => match dec_opt_str_at(b, i2) {
                None => None,
                Some((email, i3)) => match dec_u64_at(b, i3) {
                    None => None,
                    Some((t, i4)) => {
                        if i4 == b.len() {
                            Some(PayloadV { name, info, email, time: t as i64 })
                        } else {
                            None
                        }
                    },
                },
            },
        },
    }
}

// ---------------------------------------------------------------------------
// Round trip: decoding inverts encoding.
// ---------------------------------------------------------------------------

pub proof fn lemma_dec_u64_prefix(b: Seq<u8>, i: int, x: u64)
    requires
        0 <= i,
        i + 8 <= b.len(),
        b.subrange(i, i + 8) == enc_u64(x),
    ensures
        dec_u64_at(b, i) == Some((x, i + 8)),
{
    lemma_auto_spec_u64_to_from_le_bytes();
}

pub proof fn lemma_dec_bytes_prefix(b: Seq<u8>, i: int, p: Seq<u8>)
    requires
        0 <= i,
        p.len() <= u64::MAX,
        i + 8 + p.len() <= b.len(),
        b.subrange(i, i + 8 + p.len()) == enc_bytes(p),
    ensures
        dec_bytes_at(b, i) == Some((p, i + 8 + p.len())),
{
    lemma_auto_spec_u64_to_from_le_bytes();
    let n = p.len() as u64;
    assert(b.subrange(i, i + 8) =~= enc_bytes(p).subrange(0, 8));
    assert(enc_bytes(p).subrange(0, 8) =~= enc_u64(n));
    lemma_dec_u64_prefix(b, i, n);
    assert(b.subrange(i + 8, i + 8 + p.len()) =~= enc_bytes(p).subrange(8, enc_bytes(p).len() as int));
    assert(enc_bytes(p).subrange(8, enc_bytes(p).len() as int) =~= p);
}

pub proof fn lemma_dec_str_prefix(b: Seq<u8>, i: int, s: Seq<char>)
    requires
        0 <= i,
        str_fits(s),
        i + 8 + encode_utf8(s).len() <= b.len(),
        b.subrange(i, i + 8 + encode_utf8(s).len() as int) == enc_str(s),
    ensures
        dec_str_at(b, i) == Some((s, i + 8 + encode_utf8(s).len())),
{
    lemma_dec_bytes_prefix(b, i, encode_utf8(s));
    encode_utf8_valid_utf8(s);
    encode_utf8_decode_utf8(s);
}

pub proof fn lemma_dec_opt_str_prefix(b: Seq<u8>, i: int, o: Option<Seq<char>>)
    requires
        0 <= i,
        match o {
            None => true,
            Some(s) => str_fits(s),
        },
        i + enc_opt_str(o).len() <= b.len(),
        b.subrange(i, i + enc_opt_str(o).len() as int) == enc_opt_str(o),
    ensures
        dec_opt_str_at(b, i) == Some((o, i + enc_opt_str(o).len())),
{
    lemma_auto_spec_u64_to_from_le_bytes();
    match o {
        None => {
            assert(b[i] == enc_opt_str(o)[0]);
        },
        Some(s) => {
            assert(b[i] == enc_opt_str(o)[0]);
            assert(enc_opt_str(o).len() == 1 + 8 + encode_utf8(s).len());
            assert(b.subrange(i + 1, i + 1 + 8 + encode_utf8(s).len() as int) =~= enc_opt_str(
                o,
            ).subrange(1, enc_opt_str(o).len() as int));
            assert(enc_opt_str(o).subrange(1, enc_opt_str(o).len() as int) =~= enc_str(s));
            lemma_dec_str_prefix(b, i + 1, s);
        },
    }
}

/// Decoding the encoding of any payload yields that payload unchanged.
pub proof fn lemma_payload_round_trip(v: PayloadV)
    requires
        payload_fits(v),
    ensures
        dec_payload(enc_payload(v)) == Some(v),
{
    let a = enc_str(v.name);
    let bb = enc_str(v.info);
    let c = enc_opt_str(v.email);
    let d = enc_u64(v.time as u64);
    let b = enc_payload(v);
    assert(b =~= a + bb + c + d);
    lemma_auto_spec_u64_to_from_le_bytes();

    let i1 = a.len() as int;
    let i2 = i1 + bb.len();
    let i3 = i2 + c.len();
    let i4 = i3 + d.len();

    assert(b.subrange(0, i1) =~= a);
    lemma_dec_str_prefix(b, 0, v.name);
    assert(b.subrange(i1, i2) =~= bb);
    lemma_dec_str_prefix(b, i1, v.info);
    assert(b.subrange(i2, i3) =~= c);
    lemma_dec_opt_str_prefix(b, i2, v.email);
    assert(b.subrange(i3, i4) =~= d);
    lemma_dec_u64_prefix(b, i3, v.time as u64);
    let t = v.time;
    assert(((t as u64) as i64) == t) by (bit_vector);
}

// ---------------------------------------------------------------------------
// Executable encoding.
// ---------------------------------------------------------------------------

pub fn put_u64(buf: &mut Vec<u8>, x: u64)
    ensures
        final(buf)@ == old(buf)@ + enc_u64(x),
{
    let mut bs = u64_to_le_bytes(x);
    buf.append(&mut bs);
}

pub fn put_bytes(buf: &mut Vec<u8>, b: &[u8])
    ensures
        final(buf)@ == old(buf)@ + enc_bytes(b@),
{
    put_u64(buf, b.len() as u64);
    let mut tmp = vstd::slice::slice_to_vec(b);
    buf.append(&mut tmp);
    assert(buf@ =~= old(buf)@ + enc_bytes(b@));
}

pub fn put_str(buf: &mut Vec<u8>, s: &str)
    ensures
        final(buf)@ == old(buf)@ + enc_str(s@),
{
    put_bytes(buf, s.as_bytes());
}

pub fn put_opt_str(buf: &mut Vec<u8>, o: &Option<String>)
    ensures
        final(buf)@ == old(buf)@ + enc_opt_str(o.deep_view()),
{
    match o {
        None => {
            buf.push(0u8);
            assert(buf@ =~= old(buf)@ + enc_opt_str(None));
        },
        Some(s) => {
            buf.push(1u8);
            put_str(buf, s.as_str());
            assert(buf@ =~= old(buf)@ + enc_opt_str(Some(s@)));
        },
    }
}

/// An independent copy of an optional string with the same model.
pub fn dup_opt_string(o: &Option<String>) -> (r: Option<String>)
    ensures
        r == *o,
{
    match o {
        None => None,
        Some(s) => Some(s.clone()),
    }
}

/// Encode payload fields directly, without building an owned `Payload`.
pub fn encode_fields(name: &str, info: &str, email: &Option<String>, time: i64) -> (r: Vec<u8>)
    ensures
        r@ == enc_payload(
            PayloadV { name: name@, info: info@, email: email.deep_view(), time },
        ),
        payload_fits(PayloadV { name: name@, info: info@, email: email.deep_view(), time }),
{
    let nl = name.as_bytes().len();
    let il = info.as_bytes().len();
    assert(encode_utf8(name@).len() == nl && encode_utf8(info@).len() == il);
    match email {
        None => (),
        Some(s) => {
            let el = s.as_str().as_bytes().len();
            assert(encode_utf8(s@).len() == el);
        },
    }
    let mut buf: Vec<u8> = Vec::new();
    put_str(&mut buf, name);
    put_str(&mut buf, info);
    put_opt_str(&mut buf, email);
    put_u64(&mut buf, time as u64);
    assert(buf@ =~= enc_payload(
        PayloadV { name: name@, info: info@, email: email.deep_view(), time },
    ));
    let total = buf.len();
    assert(enc_payload(PayloadV { name: name@, info: info@, email: email.deep_view(), time }).len()
        <= u64::MAX);
    buf
}

/// Encode a payload to its byte form.
pub fn encode_payload(p: &Payload) -> (r: Vec<u8>)
    ensures
        r@ == enc_payload(p@),
{
    let mut buf: Vec<u8> = Vec::new();
    put_str(&mut buf, p.name.as_str());
    put_str(&mut buf, p.info.as_str());
    put_opt_str(&mut buf, &p.email);
    put_u64(&mut buf, p.time as u64);
    assert(buf@ =~= enc_payload(p@));
    buf
}

// ---------------------------------------------------------------------------
// Executable decoding.
// ---------------------------------------------------------------------------

/// Relies on `String::from_utf8` from std: it returns, for bytes that are
/// valid UTF-8, the string those bytes encode, and rejects all other bytes.
#[verifier::external_body]
fn string_from_utf8(v: Vec<u8>) -> (r: Option<String>)
    ensures
        r is Some <==> valid_utf8(v@),
        r is Some ==> r->0@ == decode_utf8(v@),
{
    String::from_utf8(v).ok()
}

fn take_u64(b: &[u8], pos: usize) -> (r: Option<(u64, usize)>)
    requires
        pos <= b@.len(),
    ensures
        r is Some <==> dec_u64_at(b@, pos as int) is Some,
        r is Some ==> ({
            &&& dec_u64_at(b@, pos as int) == Some(((r->0).0, (r->0).1 as int))
            &&& pos < (r->0).1 <= b@.len()
        }),
{
    if b.len() - pos >= 8 {
        let s = vstd::slice::slice_subrange(b, pos, pos + 8);
        Some((u64_from_le_bytes(s), pos + 8))
    } else {
        None
    }
}

pub(crate) fn take_bytes(b: &[u8], pos: usize) -> (r: Option<(Vec<u8>, usize)>)
    requires
        pos <= b@.len(),
    ensures
        r is Some <==> dec_bytes_at(b@, pos as int) is Some,
        r is Some ==> ({
            &&& dec_bytes_at(b@, pos as int) == Some(((r->0).0@, (r->0).1 as int))
            &&& pos < (r->0).1 <= b@.len()
        }),
{
    match take_u64(b, pos) {
        None => None,
        Some((n, j)) => {
            if n <= (b.len() - j) as u64 {
                let n_us = n as usize;
                let s = vstd::slice::slice_subrange(b, j, j + n_us);
                let v = vstd::slice::slice_to_vec(s);
                Some((v, j + n_us))
            } else {
                None
            }
        },
    }
}

fn take_str(b: &[u8], pos: usize) -> (r: Option<(String, usize)>)
    requires
        pos <= b@.len(),
    ensures
        r is Some <==> dec_str_at(b@, pos as int) is Some,
        r is Some ==> ({
            &&& dec_str_at(b@, pos as int) == Some(((r->0).0@, (r->0).1 as int))
            &&& pos < (r->0).1 <= b@.len()
        }),
{
    match take_bytes(b, pos) {
        None => None,
        Some((bs, j)) => match string_from_utf8(bs) {
            None => None,
            Some(s) => Some((s, j)),
        },
    }
}

fn take_opt_str(b: &[u8], pos: usize) -> (r: Option<(Option<String>, usize)>)
    requires
        pos <= b@.len(),
    ensures
        r is Some <==> dec_opt_str_at(b@, pos as int) is Some,
        r is Some ==> ({
            &&& dec_opt_str_at(b@, pos as int) == Some(((r->0).0.deep_view(), (r->0).1 as int))
            &&& pos < (r->0).1 <= b@.len()
        }),
{
    if pos < b.len() {
        let tag = *vstd::slice::slice_index_get(b, pos);
        if tag == 0u8 {
            Some((None, pos + 1))
        } else if tag == 1u8 {
            match take_str(b, pos + 1) {
                None => None,
                Some((s, j)) => Some((Some(s), j)),
            }
        } else {
            None
        }
    } else {
        None
    }
}

/// Decode a byte string as a payload.  Returns the unique payload whose
/// encoding is exactly `b`, and `Malformed` when there is none.
pub fn decode_payload(b: &[u8]) -> (r: Result<Payload, DecodeError>)
    ensures
        r is Ok <==> dec_payload(b@) is Some,
        r is Ok ==> r->Ok_0@ == dec_payload(b@)->0,
        r is Err ==> r->Err_0 == DecodeError::Malformed,
{
    match take_str(b, 0) {
        None => Err(DecodeError::Malformed),
        Some((name, i1)) => match take_str(b, i1) {
            None => Err(DecodeError::Malformed),
            Some((info, i2)) => match take_opt_str(b, i2) {
                None => Err(DecodeError::Malformed),
                Some((email, i3)) => match take_u64(b, i3) {
                    None => Err(DecodeError::Malformed),
                    Some((t, i4)) => {
                        if i4 == b.len() {
                            Ok(Payload { name, info, email, time: t as i64 })
                        } else {
                            Err(DecodeError::Malformed)
                        }
                    },
                },
            },
        },
    }
}


// ---------------------------------------------------------------------------
// Framing primitives for chunk persistence: version tags and dimension
// tuples.
// ---------------------------------------------------------------------------

pub open spec fn enc_u32(x: u32) -> Seq<u8> {
    spec_u32_to_le_bytes(x)
}

pub open spec fn dec_u32_at(b: Seq<u8>, i: int) -> Option<(u32, int)> {
    if 0 <= i && i + 4 <= b.len() {
        Some((spec_u32_from_le_bytes(b.subrange(i, i + 4)), i + 4))
    } else {
        None
    }
}

pub proof fn lemma_dec_u32_prefix(b: Seq<u8>, i: int, x: u32)
    requires
        0 <= i,
        i + 4 <= b.len(),
        b.subrange(i, i + 4) == enc_u32(x),
    ensures
        dec_u32_at(b, i) == Some((x, i + 4)),
{
    lemma_auto_spec_u32_to_from_le_bytes();
    assert(b.subrange(i, i + 4) == spec_u32_to_le_bytes(x));
    assert(spec_u32_from_le_bytes(spec_u32_to_le_bytes(x)) == x);
}

pub fn put_u32(buf: &mut Vec<u8>, x: u32)
    ensures
        final(buf)@ == old(buf)@ + enc_u32(x),
{
    let mut bs = u32_to_le_bytes(x);
    buf.append(&mut bs);
}

pub(crate) fn take_u32(b: &[u8], pos: usize) -> (r: Option<(u32, usize)>)
    requires
        pos <= b@.len(),
    ensures
        r is Some <==> dec_u32_at(b@, pos as int) is Some,
        r is Some ==> ({
            &&& dec_u32_at(b@, pos as int) == Some(((r->0).0, (r->0).1 as int))
            &&& pos < (r->0).1 <= b@.len()
        }),
{
    if b.len() - pos >= 4 {
        let s = vstd::slice::slice_subrange(b, pos, pos + 4);
        Some((u32_from_le_bytes(s), pos + 4))
    } else {
        None
    }
}

/// A dimension tuple on the wire: its values in order, little-endian.
pub open spec fn enc_tuple(t: Seq<u64>) -> Seq<u8>
    decreases t.len(),
{
    if t.len() == 0 {
        Seq::empty()
    } else {
        enc_tuple(t.drop_last()) + enc_u64(t.last())
    }
}

pub proof fn lemma_enc_tuple_len(t: Seq<u64>)
    ensures
        enc_tuple(t).len() == 8 * t.len(),
    decreases t.len(),
{
    lemma_auto_spec_u64_to_from_le_bytes();
    if t.len() > 0 {
        lemma_enc_tuple_len(t.drop_last());
    }
}

/// Read `n` tuple values at offset `i`.
pub open spec fn dec_tuple_at(b: Seq<u8>, i: int, n: nat) -> Option<(Seq<u64>, int)>
    decreases n,
{
    if n == 0 {
        if 0 <= i <= b.len() {
            Some((Seq::empty(), i))
        } else {
            None
        }
    } else {
        match dec_tuple_at(b, i, (n - 1) as nat) {
            None => None,
            Some((t, j)) => match dec_u64_at(b, j) {
                None => None,
                Some((x, k)) => Some((t.push(x), k)),
            },
        }
    }
}

pub proof fn lemma_dec_tuple_prefix(b: Seq<u8>, i: int, t: Seq<u64>)
    requires
        0 <= i,
        i + 8 * t.len() <= b.len(),
        b.subrange(i, i + 8 * t.len()) == enc_tuple(t),
    ensures
        dec_tuple_at(b, i, t.len()) == Some((t, i + 8 * t.len())),
    decreases t.len(),
{
    lemma_auto_spec_u64_to_from_le_bytes();
    lemma_enc_tuple_len(t);
    if t.len() == 0 {
    } else {
        let t1 = t.drop_last();
        lemma_enc_tuple_len(t1);
        assert(b.subrange(i, i + 8 * t1.len()) =~= enc_tuple(t).subrange(0, 8 * t1.len() as int));
        assert(enc_tuple(t).subrange(0, 8 * t1.len() as int) =~= enc_tuple(t1));
        lemma_dec_tuple_prefix(b, i, t1);
        let j = i + 8 * t1.len();
        assert(b.subrange(j, j + 8) =~= enc_tuple(t).subrange(
            8 * t1.len() as int,
            8 * t.len() as int,
        ));
        assert(enc_tuple(t).subrange(8 * t1.len() as int, 8 * t.len() as int) =~= enc_u64(
            t.last(),
        ));
        lemma_dec_u64_prefix(b, j, t.last());
        assert(t1.push(t.last()) =~= t);
    }
}

/// If reading `n` values succeeds, so does every shorter read, and the next
/// value is readable where a longer read continues.
pub proof fn lemma_dec_tuple_step(b: Seq<u8>, i: int, d: nat, n: nat)
    requires
        d < n,
        dec_tuple_at(b, i, n) is Some,
    ensures
        dec_tuple_at(b, i, d) is Some,
        dec_u64_at(b, (dec_tuple_at(b, i, d)->0).1) is Some,
    decreases n - d,
{
    if d + 1 == n {
    } else {
        lemma_dec_tuple_step(b, i, d, (n - 1) as nat);
    }
}

pub fn put_tuple(buf: &mut Vec<u8>, t: &Vec<u64>)
    ensures
        final(buf)@ == old(buf)@ + enc_tuple(t@),
{
    let ghost base = buf@;
    let n = t.len();
    let mut d: usize = 0;
    while d < n
        invariant
            d <= n,
            n == t@.len(),
            buf@ == base + enc_tuple(t@.take(d as int)),
        decreases n - d,
    {
        put_u64(buf, t[d]);
        proof {
            assert(t@.take(d + 1).drop_last() =~= t@.take(d as int));
            assert(t@.take(d + 1).last() == t@[d as int]);
            assert(buf@ =~= base + enc_tuple(t@.take(d + 1)));
        }
        d += 1;
    }
    proof {
        assert(t@.take(n as int) =~= t@);
    }
}

pub(crate) fn take_tuple(b: &[u8], pos: usize, n: usize) -> (r: Option<(Vec<u64>, usize)>)
    requires
        pos <= b@.len(),
    ensures
        r is Some <==> dec_tuple_at(b@, pos as int, n as nat) is Some,
        r is Some ==> ({
            &&& dec_tuple_at(b@, pos as int, n as nat) == Some(((r->0).0@, (r->0).1 as int))
            &&& pos <= (r->0).1 <= b@.len()
            &&& (r->0).0@.len() == n
        }),
{
    let mut out: Vec<u64> = Vec::new();
    let mut p = pos;
    let mut d: usize = 0;
    while d < n
        invariant
            d <= n,
            pos <= p <= b@.len(),
            out@.len() == d,
            dec_tuple_at(b@, pos as int, d as nat) == Some((out@, p as int)),
        decreases n - d,
    {
        match take_u64(b, p) {
            None => {
                proof {
                    if dec_tuple_at(b@, pos as int, n as nat) is Some {
                        lemma_dec_tuple_step(b@, pos as int, d as nat, n as nat);
                    }
                }
                return None;
            },
            Some((x, p2)) => {
                out.push(x);
                p = p2;
            },
        }
        d += 1;
    }
    Some((out, p))
}

} // verus!

//! The world: a multi-dimensional record store partitioned into chunks.
//!
//! A world is configured at construction with static partition boundaries
//! per dimension.  Every record lives in exactly one chunk, the one its
//! dimension tuple locates; tuples are unique; an in-memory lease set grants
//! at most one caller at a time the right to mutate or delete a record.
//!
//! The mathematical model is the partial map from dimension tuples to record
//! models, exposed as `spec_find`, together with the lease set (`leased`)
//! and the per-chunk dirty flags (`dirty`).

use crate::codec::{
    dec_bytes_at, dec_tuple_at, dec_u32_at, enc_bytes, enc_tuple, enc_u32, lemma_dec_bytes_prefix,
    lemma_dec_tuple_prefix, lemma_dec_u32_prefix, lemma_enc_tuple_len, put_bytes, put_tuple,
    put_u32, take_bytes, take_tuple, take_u32, DecodeError,
};
use crate::data::Data;
use vstd::bytes::{lemma_auto_spec_u32_to_from_le_bytes, lemma_auto_spec_u64_to_from_le_bytes};
use vstd::prelude::*;

verus! {

/// Engine errors: a lease already held, or a record no longer present.
#[derive(Clone, Copy, Debug, PartialEq, Eq, Structural)]
pub enum StoreError {
    /// A lease on the record is already outstanding, or the move target of a
    /// commit is occupied.
    Conflict,
    /// The record addressed is no longer present.
    NotFound,
}

struct Chunk<T> {
    records: Vec<T>,
    dirty: bool,
}

/// A record store partitioned into chunks by static per-dimension bounds.
pub struct World<T> {
    /// Per dimension: strictly increasing inclusive upper bounds of the
    /// ranges, the last being `u64::MAX`, so that the ranges cover the whole
    /// dimension axis.
    bounds: Vec<Vec<u64>>,
    chunks: Vec<Chunk<T>>,
    /// Dimension tuples with an outstanding mutable lease.
    leases: Vec<Vec<u64>>,
}

// ---------------------------------------------------------------------------
// Partitioning, at the specification level.
// ---------------------------------------------------------------------------

/// The bounds of one dimension are well formed: non-empty, strictly
/// increasing, ending at `u64::MAX`.
pub open spec fn bounds_wf_one(b: Seq<u64>) -> bool {
    &&& b.len() >= 1
    &&& b[b.len() - 1] == u64::MAX
    &&& forall|i: int| 0 <= i < b.len() - 1 ==> b[i] < #[trigger] b[i + 1]
}

/// The index of the range a value falls in: the least index whose bound is
/// at least the value.
pub open spec fn locate_dim(b: Seq<u64>, v: u64) -> int
    decreases b.len(),
{
    if b.len() == 0 {
        0
    } else if v <= b[0] {
        0
    } else {
        1 + locate_dim(b.drop_first(), v)
    }
}

proof fn lemma_locate_dim(b: Seq<u64>, v: u64)
    requires
        bounds_wf_one(b),
    ensures
        0 <= locate_dim(b, v) < b.len(),
    decreases b.len(),
{
    if v <= b[0] {
    } else {
        assert(b[b.len() - 1] == u64::MAX);
        assert(b.len() >= 2) by {
            if b.len() == 1 {
                assert(b[0] == u64::MAX);
            }
        }
        let b2 = b.drop_first();
        assert(bounds_wf_one(b2)) by {
            assert forall|i: int| 0 <= i < b2.len() - 1 implies b2[i] < #[trigger] b2[i + 1] by {
                assert(b2[i] == b[i + 1] && b2[i + 1] == b[i + 2]);
            }
        }
        lemma_locate_dim(b2, v);
    }
}

/// `locate_dim` is the first index whose bound reaches the value.
proof fn lemma_locate_dim_first(b: Seq<u64>, v: u64, i: int)
    requires
        bounds_wf_one(b),
        0 <= i < b.len(),
        v <= b[i],
        forall|k: int| 0 <= k < i ==> b[k] < v,
    ensures
        locate_dim(b, v) == i,
    decreases b.len(),
{
    if v <= b[0] {
        assert(i == 0);
    } else {
        let b2 = b.drop_first();
        assert(bounds_wf_one(b2)) by {
            assert(b.len() >= 2) by {
                if b.len() == 1 {
                    assert(b[0] == u64::MAX);
                }
            }
            assert forall|i2: int| 0 <= i2 < b2.len() - 1 implies b2[i2] < #[trigger] b2[i2 + 1] by {
                assert(b2[i2] == b[i2 + 1] && b2[i2 + 1] == b[i2 + 2]);
            }
        }
        assert(i >= 1);
        assert(forall|k: int| 0 <= k < i - 1 ==> b2[k] == b[k + 1] && b[k + 1] < v);
        lemma_locate_dim_first(b2, v, i - 1);
    }
}

/// Product of the first `d` dimensions' range counts.
pub open spec fn prod_prefix(bs: Seq<Seq<u64>>, d: int) -> int
    decreases d,
{
    if d <= 0 {
        1
    } else {
        prod_prefix(bs, d - 1) * bs[d - 1].len()
    }
}

/// The flat chunk index of the first `d` coordinates of a tuple, in
/// row-major order.
pub open spec fn flat_prefix(bs: Seq<Seq<u64>>, t: Seq<u64>, d: int) -> int
    decreases d,
{
    if d <= 0 {
        0
    } else {
        flat_prefix(bs, t, d - 1) * bs[d - 1].len() + locate_dim(bs[d - 1], t[d - 1])
    }
}

proof fn lemma_flat_range(bs: Seq<Seq<u64>>, t: Seq<u64>, d: int)
    requires
        0 <= d <= bs.len(),
        forall|k: int| 0 <= k < bs.len() ==> bounds_wf_one(#[trigger] bs[k]),
    ensures
        0 <= flat_prefix(bs, t, d) < prod_prefix(bs, d),
    decreases d,
{
    if d <= 0 {
    } else {
        lemma_flat_range(bs, t, d - 1);
        lemma_locate_dim(bs[d - 1], t[d - 1]);
        let f = flat_prefix(bs, t, d - 1);
        let p = prod_prefix(bs, d - 1);
        let n = bs[d - 1].len() as int;
        let l = locate_dim(bs[d - 1], t[d - 1]);
        assert(f * n + l < p * n) by (nonlinear_arith)
            requires
                0 <= f < p,
                0 <= l < n,
        {
        }
        assert(0 <= f * n + l) by (nonlinear_arith)
            requires
                0 <= f,
                0 <= l,
                0 < n,
        {
        }
    }
}

proof fn lemma_prod_pos(bs: Seq<Seq<u64>>, d: int)
    requires
        0 <= d <= bs.len(),
        forall|k: int| 0 <= k < bs.len() ==> bounds_wf_one(#[trigger] bs[k]),
    ensures
        prod_prefix(bs, d) >= 1,
    decreases d,
{
    if d > 0 {
        lemma_prod_pos(bs, d - 1);
        let p = prod_prefix(bs, d - 1);
        let n = bs[d - 1].len() as int;
        assert(1 <= p * n) by (nonlinear_arith)
            requires
                p >= 1,
                n >= 1,
        {
        }
    }
}

proof fn lemma_prod_mono(bs: Seq<Seq<u64>>, d1: int, d2: int)
    requires
        0 <= d1 <= d2 <= bs.len(),
        forall|k: int| 0 <= k < bs.len() ==> bounds_wf_one(#[trigger] bs[k]),
    ensures
        prod_prefix(bs, d1) <= prod_prefix(bs, d2),
        prod_prefix(bs, d1) >= 1,
    decreases d2 - d1,
{
    lemma_prod_pos(bs, d1);
    if d1 < d2 {
        lemma_prod_mono(bs, d1, d2 - 1);
        let p = prod_prefix(bs, d2 - 1);
        let n = bs[d2 - 1].len() as int;
        assert(p <= p * n) by (nonlinear_arith)
            requires
                p >= 1,
                n >= 1,
        {
        }
    }
}

// ---------------------------------------------------------------------------
// Records within a chunk, at the specification level.
// ---------------------------------------------------------------------------

/// The first record in `s` whose dimension tuple is `t`, as a model.
pub open spec fn find_in<T: Data>(s: Seq<T>, t: Seq<u64>) -> Option<T::V>
    decreases s.len(),
{
    if s.len() == 0 {
        None
    } else if T::dims_of(s[0]@) == t {
        Some(s[0]@)
    } else {
        find_in(s.drop_first(), t)
    }
}

/// No two records in `s` share a dimension tuple.
pub open spec fn uniq<T: Data>(s: Seq<T>) -> bool {
    forall|i: int, j: int|
        0 <= i < j < s.len() ==> T::dims_of(#[trigger] s[i]@) != T::dims_of(#[trigger] s[j]@)
}

/// `find_in` is characterized by the records present: it returns a record
/// with the sought tuple exactly when one is there.
proof fn lemma_find_in_char<T: Data>(s: Seq<T>, t: Seq<u64>)
    ensures
        match find_in(s, t) {
            Some(v) => exists|k: int|
                0 <= k < s.len() && T::dims_of(#[trigger] s[k]@) == t && s[k]@ == v,
            None => forall|k: int| 0 <= k < s.len() ==> T::dims_of(#[trigger] s[k]@) != t,
        },
    decreases s.len(),
{
    if s.len() == 0 {
    } else if T::dims_of(s[0]@) == t {
    } else {
        lemma_find_in_char(s.drop_first(), t);
        match find_in(s.drop_first(), t) {
            Some(v) => {
                let k = choose|k: int|
                    0 <= k < s.drop_first().len() && T::dims_of(#[trigger] s.drop_first()[k]@)
                        == t && s.drop_first()[k]@ == v;
                assert(s[k + 1]@ == s.drop_first()[k]@);
            },
            None => {
                assert(forall|k: int|
                    1 <= k < s.len() ==> #[trigger] s[k]@ == s.drop_first()[k - 1]@);
            },
        }
    }
}

/// With unique tuples, `find_in` returns exactly the record at the sought
/// tuple, and equal record multisets give equal results.
proof fn lemma_find_in_at<T: Data>(s: Seq<T>, t: Seq<u64>, k: int)
    requires
        uniq(s),
        0 <= k < s.len(),
        T::dims_of(s[k]@) == t,
    ensures
        find_in(s, t) == Some(s[k]@),
{
    lemma_find_in_char(s, t);
    match find_in(s, t) {
        Some(v) => {
            let k2 = choose|k2: int|
                0 <= k2 < s.len() && T::dims_of(#[trigger] s[k2]@) == t && s[k2]@ == v;
            assert(k2 == k);
        },
        None => {
            assert(T::dims_of(s[k]@) != t);
        },
    }
}

/// Effect of removing the record at index `i` and appending `rec` on
/// `find_in`: `rec`'s tuple maps to `rec`, the removed tuple (if different)
/// maps to nothing, all other tuples are untouched.
proof fn lemma_remove_push<T: Data>(s: Seq<T>, i: int, rec: T)
    requires
        uniq(s),
        0 <= i < s.len(),
        forall|k: int| 0 <= k < s.len() && k != i ==> T::dims_of(#[trigger] s[k]@) != T::dims_of(
            rec@,
        ),
    ensures
        uniq(s.remove(i).push(rec)),
        find_in(s.remove(i).push(rec), T::dims_of(rec@)) == Some(rec@),
        forall|t: Seq<u64>|
            t != T::dims_of(rec@) && t != T::dims_of(s[i]@) ==> find_in(
                s.remove(i).push(rec),
                t,
            ) == find_in(s, t),
        T::dims_of(s[i]@) != T::dims_of(rec@) ==> find_in(
            s.remove(i).push(rec),
            T::dims_of(s[i]@),
        ) is None,
{
    let s2 = s.remove(i).push(rec);
    assert(s2.len() == s.len());
    assert(forall|k: int| 0 <= k < i ==> s2[k] == s[k]);
    assert(forall|k: int| i <= k < s.len() - 1 ==> s2[k] == s[k + 1]);
    assert(s2[s.len() - 1] == rec);
    assert(uniq(s2)) by {
        assert forall|a: int, b: int| 0 <= a < b < s2.len() implies T::dims_of(s2[a]@)
            != T::dims_of(s2[b]@) by {
            if b == s.len() - 1 {
                if a < i {
                    assert(s2[a] == s[a]);
                } else {
                    assert(s2[a] == s[a + 1]);
                }
            } else {
                let a1: int = if a < i {
                    a
                } else {
                    a + 1
                };
                let b1: int = if b < i {
                    b
                } else {
                    b + 1
                };
                assert(s2[a] == s[a1] && s2[b] == s[b1]);
            }
        }
    }
    lemma_find_in_at(s2, T::dims_of(rec@), s.len() - 1);
    assert forall|t: Seq<u64>|
        t != T::dims_of(rec@) && t != T::dims_of(s[i]@) implies find_in(s2, t) == find_in(
        s,
        t,
    ) by {
        lemma_find_in_char::<T>(s, t);
        lemma_find_in_char::<T>(s2, t);
        match find_in(s, t) {
            Some(v) => {
                let k = choose|k: int|
                    0 <= k < s.len() && T::dims_of(#[trigger] s[k]@) == t && s[k]@ == v;
                let k2: int = if k < i {
                    k
                } else {
                    k - 1
                };
                assert(s2[k2] == s[k]);
                lemma_find_in_at(s2, t, k2);
            },
            None => {
                match find_in(s2, t) {
                    Some(v2) => {
                        let k = choose|k: int|
                            0 <= k < s2.len() && T::dims_of(#[trigger] s2[k]@) == t && s2[k]@
                                == v2;
                        if k == s.len() - 1 {
                            assert(T::dims_of(s2[k]@) == T::dims_of(rec@));
                        } else if k < i {
                            assert(s2[k] == s[k]);
                        } else {
                            assert(s2[k] == s[k + 1]);
                        }
                    },
                    None => {},
                }
            },
        }
    }
    if T::dims_of(s[i]@) != T::dims_of(rec@) {
        lemma_find_in_char::<T>(s2, T::dims_of(s[i]@));
        match find_in(s2, T::dims_of(s[i]@)) {
            Some(v2) => {
                let k = choose|k: int|
                    0 <= k < s2.len() && T::dims_of(#[trigger] s2[k]@) == T::dims_of(s[i]@)
                        && s2[k]@ == v2;
                if k == s.len() - 1 {
                } else if k < i {
                    assert(s2[k] == s[k]);
                } else {
                    assert(s2[k] == s[k + 1]);
                }
            },
            None => {},
        }
    }
}

/// Effect of appending `rec` to a chunk that holds no record with its tuple.
proof fn lemma_push_only<T: Data>(s: Seq<T>, rec: T)
    requires
        uniq(s),
        forall|k: int| 0 <= k < s.len() ==> T::dims_of(#[trigger] s[k]@) != T::dims_of(rec@),
    ensures
        uniq(s.push(rec)),
        find_in(s.push(rec), T::dims_of(rec@)) == Some(rec@),
        forall|t: Seq<u64>|
            t != T::dims_of(rec@) ==> find_in(s.push(rec), t) == find_in(s, t),
{
    let s2 = s.push(rec);
    assert(forall|k: int| 0 <= k < s.len() ==> s2[k] == s[k]);
    assert(s2[s.len() as int] == rec);
    assert(uniq(s2));
    lemma_find_in_at(s2, T::dims_of(rec@), s.len() as int);
    assert forall|t: Seq<u64>| t != T::dims_of(rec@) implies find_in(s2, t) == find_in(s, t) by {
        lemma_find_in_char::<T>(s, t);
        lemma_find_in_char::<T>(s2, t);
        match find_in(s, t) {
            Some(v) => {
                let k = choose|k: int|
                    0 <= k < s.len() && T::dims_of(#[trigger] s[k]@) == t && s[k]@ == v;
                lemma_find_in_at(s2, t, k);
            },
            None => {
                match find_in(s2, t) {
                    Some(v2) => {
                        let k = choose|k: int|
                            0 <= k < s2.len() && T::dims_of(#[trigger] s2[k]@) == t && s2[k]@
                                == v2;
                    },
                    None => {},
                }
            },
        }
    }
}

/// Effect of removing the record at index `i` alone.
proof fn lemma_remove_only<T: Data>(s: Seq<T>, i: int)
    requires
        uniq(s),
        0 <= i < s.len(),
    ensures
        uniq(s.remove(i)),
        find_in(s.remove(i), T::dims_of(s[i]@)) is None,
        forall|t: Seq<u64>|
            t != T::dims_of(s[i]@) ==> find_in(s.remove(i), t) == find_in(s, t),
{
    let s2 = s.remove(i);
    assert(forall|k: int| 0 <= k < i ==> s2[k] == s[k]);
    assert(forall|k: int| i <= k < s2.len() ==> s2[k] == s[k + 1]);
    assert(uniq(s2)) by {
        assert forall|a: int, b: int| 0 <= a < b < s2.len() implies T::dims_of(s2[a]@)
            != T::dims_of(s2[b]@) by {
            let a1: int = if a < i {
                a
            } else {
                a + 1
            };
            let b1: int = if b < i {
                b
            } else {
                b + 1
            };
            assert(s2[a] == s[a1] && s2[b] == s[b1]);
        }
    }
    lemma_find_in_char::<T>(s2, T::dims_of(s[i]@));
    match find_in(s2, T::dims_of(s[i]@)) {
        Some(v2) => {
            let k = choose|k: int|
                0 <= k < s2.len() && T::dims_of(#[trigger] s2[k]@) == T::dims_of(s[i]@) && s2[k]@
                    == v2;
            if k < i {
                assert(s2[k] == s[k]);
            } else {
                assert(s2[k] == s[k + 1]);
            }
        },
        None => {},
    }
    assert forall|t: Seq<u64>| t != T::dims_of(s[i]@) implies find_in(s2, t) == find_in(s, t) by {
        lemma_find_in_char::<T>(s, t);
        lemma_find_in_char::<T>(s2, t);
        match find_in(s, t) {
            Some(v) => {
                let k = choose|k: int|
                    0 <= k < s.len() && T::dims_of(#[trigger] s[k]@) == t && s[k]@ == v;
                let k2: int = if k < i {
                    k
                } else {
                    k - 1
                };
                assert(s2[k2] == s[k]);
                lemma_find_in_at(s2, t, k2);
            },
            None => {
                match find_in(s2, t) {
                    Some(v2) => {
                        let k = choose|k: int|
                            0 <= k < s2.len() && T::dims_of(#[trigger] s2[k]@) == t && s2[k]@
                                == v2;
                        if k < i {
                            assert(s2[k] == s[k]);
                        } else {
                            assert(s2[k] == s[k + 1]);
                        }
                    },
                    None => {},
                }
            },
        }
    }
}

// ---------------------------------------------------------------------------
// The world model.
// ---------------------------------------------------------------------------

impl<T: Data> World<T> {
    /// The per-dimension bounds, as sequences.
    pub closed spec fn bounds_view(self) -> Seq<Seq<u64>> {
        self.bounds.deep_view()
    }

    /// Number of chunks of this world.
    pub closed spec fn n_chunks(self) -> int {
        prod_prefix(self.bounds_view(), self.bounds_view().len() as int)
    }

    /// The chunk a dimension tuple locates: a deterministic function of the
    /// configured bounds, never of stored data.
    pub closed spec fn chunk_id(self, t: Seq<u64>) -> int {
        flat_prefix(self.bounds_view(), t, self.bounds_view().len() as int)
    }

    /// The store is well formed: bounds well formed per dimension, one chunk
    /// per partition cell, every record in the chunk its tuple locates,
    /// tuples unique, and every leased tuple present.
    pub closed spec fn wf(self) -> bool {
        &&& self.bounds_view().len() == T::dims_spec()
        &&& forall|d: int|
            0 <= d < self.bounds_view().len() ==> bounds_wf_one(#[trigger] self.bounds_view()[d])
        &&& self.chunks@.len() == self.n_chunks()
        &&& forall|c: int, i: int|
            0 <= c < self.chunks@.len() && 0 <= i < self.chunks@[c].records@.len() ==> {
                let v = (#[trigger] self.chunks@[c].records@[i])@;
                &&& T::dims_of(v).len() == T::dims_spec()
                &&& self.chunk_id(T::dims_of(v)) == c
            }
        &&& forall|c: int|
            0 <= c < self.chunks@.len() ==> uniq(#[trigger] self.chunks@[c].records@)
        &&& forall|i: int, j: int|
            0 <= i < j < self.leases@.len() ==> self.leases@[i]@ != self.leases@[j]@
        &&& forall|i: int|
            0 <= i < self.leases@.len() ==> self.spec_find(#[trigger] self.leases@[i]@) is Some
    }

    /// The record model stored under a dimension tuple, if any.
    pub closed spec fn spec_find(self, t: Seq<u64>) -> Option<T::V> {
        if t.len() == T::dims_spec() && 0 <= self.chunk_id(t) < self.chunks@.len() {
            find_in(self.chunks@[self.chunk_id(t)].records@, t)
        } else {
            None
        }
    }

    /// Whether a mutable lease on the tuple is outstanding.
    pub closed spec fn leased(self, t: Seq<u64>) -> bool {
        exists|i: int| 0 <= i < self.leases@.len() && #[trigger] self.leases@[i]@ == t
    }

    /// Whether chunk `c` holds unflushed in-memory changes.
    pub closed spec fn dirty(self, c: int) -> bool {
        0 <= c < self.chunks@.len() && self.chunks@[c].dirty
    }

    /// A found record's tuple has the declared width and is its own address.
    pub proof fn lemma_found(self, t: Seq<u64>)
        requires
            self.wf(),
            self.spec_find(t) is Some,
        ensures
            t.len() == T::dims_spec(),
            T::dims_of(self.spec_find(t)->0) == t,
            0 <= self.chunk_id(t) < self.n_chunks(),
    {
        let c = self.chunk_id(t);
        lemma_find_in_char::<T>(self.chunks@[c].records@, t);
    }
}

// ---------------------------------------------------------------------------
// Executable helpers.
// ---------------------------------------------------------------------------

/// An independent copy of a dimension tuple.
fn dup_tuple(t: &Vec<u64>) -> (r: Vec<u64>)
    ensures
        r@ == t@,
{
    let n = t.len();
    let mut r: Vec<u64> = Vec::new();
    let mut i: usize = 0;
    while i < n
        invariant
            i <= n,
            n == t@.len(),
            r@.len() == i,
            forall|k: int| 0 <= k < i ==> r@[k] == t@[k],
        decreases n - i,
    {
        r.push(t[i]);
        i += 1;
    }
    proof {
        assert(r@ =~= t@);
    }
    r
}

/// Whether two dimension tuples are equal.
fn tuple_eq(a: &Vec<u64>, b: &Vec<u64>) -> (r: bool)
    ensures
        r == (a@ == b@),
{
    if a.len() != b.len() {
        return false;
    }
    let n = a.len();
    let mut i: usize = 0;
    while i < n
        invariant
            i <= n,
            n == a@.len(),
            a@.len() == b@.len(),
            forall|k: int| 0 <= k < i ==> a@[k] == b@[k],
        decreases n - i,
    {
        if a[i] != b[i] {
            return false;
        }
        i += 1;
    }
    proof {
        assert(a@ =~= b@);
    }
    true
}

/// The dimension tuple of a record, as a vector.
fn dims_vec<T: Data>(rec: &T) -> (r: Vec<u64>)
    ensures
        r@ == T::dims_of(rec@),
        r@.len() == T::dims_spec(),
{
    proof {
        T::lemma_dims(rec@);
    }
    let n = T::dims();
    let mut r: Vec<u64> = Vec::new();
    let mut d: usize = 0;
    while d < n
        invariant
            d <= n,
            n as nat == T::dims_spec(),
            T::dims_of(rec@).len() == T::dims_spec(),
            r@.len() == d,
            forall|k: int| 0 <= k < d ==> r@[k] == T::dims_of(rec@)[k],
        decreases n - d,
    {
        r.push(rec.dim(d));
        d += 1;
    }
    proof {
        assert(r@ =~= T::dims_of(rec@));
    }
    r
}

/// Whether a record's dimension tuple equals `t`.
fn dims_match<T: Data>(rec: &T, t: &Vec<u64>) -> (r: bool)
    requires
        t@.len() == T::dims_spec(),
    ensures
        r == (T::dims_of(rec@) == t@),
{
    proof {
        T::lemma_dims(rec@);
    }
    let n = T::dims();
    let mut d: usize = 0;
    while d < n
        invariant
            d <= n,
            n as nat == T::dims_spec(),
            t@.len() == T::dims_spec(),
            T::dims_of(rec@).len() == T::dims_spec(),
            forall|k: int| 0 <= k < d ==> T::dims_of(rec@)[k] == t@[k],
        decreases n - d,
    {
        if rec.dim(d) != t[d] {
            return false;
        }
        d += 1;
    }
    proof {
        assert(T::dims_of(rec@) =~= t@);
    }
    true
}

/// Index of the first record in the chunk with the given tuple.
fn find_index<T: Data>(records: &Vec<T>, t: &Vec<u64>) -> (r: Option<usize>)
    requires
        t@.len() == T::dims_spec(),
    ensures
        match r {
            Some(i) => i < records@.len() && T::dims_of(records@[i as int]@) == t@ && (forall|
                k: int,
            | 0 <= k < i ==> T::dims_of(#[trigger] records@[k]@) != t@),
            None => forall|k: int|
                0 <= k < records@.len() ==> T::dims_of(#[trigger] records@[k]@) != t@,
        },
{
    let n = records.len();
    let mut i: usize = 0;
    while i < n
        invariant
            i <= n,
            n == records@.len(),
            t@.len() == T::dims_spec(),
            forall|k: int| 0 <= k < i ==> T::dims_of(#[trigger] records@[k]@) != t@,
        decreases n - i,
    {
        if dims_match(&records[i], t) {
            return Some(i);
        }
        i += 1;
    }
    None
}

/// The index of the range of one dimension that a value falls in.
fn locate_dim_exec(b: &Vec<u64>, v: u64) -> (r: usize)
    requires
        bounds_wf_one(b@),
    ensures
        r as int == locate_dim(b@, v),
        r < b@.len(),
{
    let n = b.len();
    let mut i: usize = 0;
    loop
        invariant
            bounds_wf_one(b@),
            n == b@.len(),
            i < n,
            forall|k: int| 0 <= k < i ==> b@[k] < v,
        decreases b@.len() - i,
    {
        if v <= b[i] {
            proof {
                lemma_locate_dim_first(b@, v, i as int);
            }
            return i;
        }
        proof {
            if i as int == b@.len() - 1 {
                assert(b@[i as int] == u64::MAX);
                assert(false);
            }
        }
        i += 1;
    }
}

// ---------------------------------------------------------------------------
// Construction and insertion.
// ---------------------------------------------------------------------------

impl<T: Data> World<T> {
    /// Build a world from per-dimension partition bounds.  Each dimension
    /// must list strictly increasing inclusive upper bounds ending at
    /// `u64::MAX`, so that every value falls in exactly one range; anything
    /// else is a configuration error, reported at construction, never at
    /// request time.
    pub fn new(bounds: Vec<Vec<u64>>) -> (r: Option<World<T>>)
        ensures
            match r {
                Some(w) => w.wf() && (forall|t: Seq<u64>| w.spec_find(t) is None) && (forall|
                    t: Seq<u64>,
                | !w.leased(t)) && (forall|c: int| !w.dirty(c)),
                None => !(bounds.deep_view().len() == T::dims_spec() && (forall|d: int|
                    0 <= d < bounds.deep_view().len() ==> bounds_wf_one(
                        #[trigger] bounds.deep_view()[d],
                    )) && prod_prefix(bounds.deep_view(), bounds.deep_view().len() as int)
                    <= usize::MAX),
            },
    {
        let ghost bs = bounds.deep_view();
        let nd = bounds.len();
        assert(bs.len() == nd);
        if nd != T::dims() {
            return None;
        }
        let mut d: usize = 0;
        while d < nd
            invariant
                d <= nd,
                nd == bounds@.len(),
                bs == bounds.deep_view(),
                bs.len() == nd,
                forall|k: int| 0 <= k < d ==> bounds_wf_one(#[trigger] bs[k]),
            decreases nd - d,
        {
            let b = &bounds[d];
            proof {
                assert(bs[d as int] =~= b@);
            }
            if b.len() == 0 {
                proof {
                    assert(!bounds_wf_one(bs[d as int]));
                }
                return None;
            }
            if b[b.len() - 1] != u64::MAX {
                proof {
                    assert(!bounds_wf_one(bs[d as int]));
                }
                return None;
            }
            let bl = b.len();
            let mut i: usize = 0;
            while i + 1 < bl
                invariant
                    bs == bounds.deep_view(),
                    bs[d as int] == b@,
                    bs.len() == nd,
                    d < nd,
                    bl == b@.len(),
                    i < b@.len(),
                    b@.len() >= 1,
                    b@[b@.len() - 1] == u64::MAX,
                    forall|k: int| 0 <= k < i ==> b@[k] < #[trigger] b@[k + 1],
                decreases b@.len() - i,
            {
                if b[i] >= b[i + 1] {
                    proof {
                        assert(!bounds_wf_one(bs[d as int]));
                    }
                    return None;
                }
                i += 1;
            }
            proof {
                assert(bounds_wf_one(bs[d as int]));
            }
            d += 1;
        }
        let mut n: usize = 1;
        let mut d2: usize = 0;
        while d2 < nd
            invariant
                d2 <= nd,
                nd == bounds@.len(),
                bs == bounds.deep_view(),
                bs.len() == nd,
                nd as nat == T::dims_spec(),
                forall|k: int| 0 <= k < nd ==> bounds_wf_one(#[trigger] bs[k]),
                n as int == prod_prefix(bs, d2 as int),
            decreases nd - d2,
        {
            proof {
                assert(bs[d2 as int] =~= bounds@[d2 as int]@);
            }
            match n.checked_mul(bounds[d2].len()) {
                Some(m) => {
                    n = m;
                },
                None => {
                    proof {
                        lemma_prod_mono(bs, d2 as int + 1, nd as int);
                    }
                    return None;
                },
            }
            d2 += 1;
        }
        let mut chunks: Vec<Chunk<T>> = Vec::new();
        let mut k: usize = 0;
        while k < n
            invariant
                k <= n,
                chunks@.len() == k,
                forall|c: int|
                    0 <= c < k ==> (#[trigger] chunks@[c]).records@.len() == 0
                        && !chunks@[c].dirty,
            decreases n - k,
        {
            chunks.push(Chunk { records: Vec::new(), dirty: false });
            k += 1;
        }
        let w = World { bounds, chunks, leases: Vec::new() };
        proof {
            assert(w.bounds_view() == bs);
            assert(w.chunks@.len() == w.n_chunks());
            assert(w.wf());
            assert forall|t: Seq<u64>| w.spec_find(t) is None by {
                if t.len() == T::dims_spec() && 0 <= w.chunk_id(t) < w.chunks@.len() {
                    assert(w.chunks@[w.chunk_id(t)].records@.len() == 0);
                }
            }
        }
        Some(w)
    }

    /// The chunk index a tuple locates, as an index into this world.
    fn locate(&self, t: &Vec<u64>) -> (c: usize)
        requires
            self.wf(),
            t@.len() == T::dims_spec(),
        ensures
            c as int == self.chunk_id(t@),
            c < self.chunks@.len(),
    {
        let ghost bs = self.bounds_view();
        let nd = self.bounds.len();
        let nch = self.chunks.len();
        assert(nd == bs.len());
        let mut c: usize = 0;
        let mut d: usize = 0;
        while d < nd
            invariant
                d <= nd,
                nd == self.bounds@.len(),
                bs == self.bounds_view(),
                bs.len() == nd,
                nch == self.chunks@.len(),
                self.wf(),
                t@.len() == T::dims_spec(),
                nd as nat == T::dims_spec(),
                c as int == flat_prefix(bs, t@, d as int),
            decreases nd - d,
    {
            let b = &self.bounds[d];
            proof {
                assert(bs[d as int] =~= b@);
                lemma_flat_range(bs, t@, d as int + 1);
                lemma_prod_mono(bs, d as int + 1, nd as int);
                lemma_locate_dim(bs[d as int], t@[d as int]);
            }
            let l = locate_dim_exec(b, t[d]);
            proof {
                assert(flat_prefix(bs, t@, d as int + 1) == (c as int) * (b@.len() as int) + (
                l as int));
                assert(flat_prefix(bs, t@, d as int + 1) < prod_prefix(bs, nd as int));
                assert(prod_prefix(bs, nd as int) == self.chunks@.len());
            }
            c = c * b.len() + l;
            d += 1;
        }
        proof {
            lemma_flat_range(bs, t@, nd as int);
        }
        c
    }

    /// Insert a record at its dimension tuple, returning the record that
    /// previously occupied the tuple, if any.
    pub fn insert(&mut self, rec: T) -> (r: Option<T>)
        requires
            old(self).wf(),
        ensures
            final(self).wf(),
            final(self).spec_find(T::dims_of(rec@)) == Some(rec@),
            forall|t: Seq<u64>|
                t != T::dims_of(rec@) ==> final(self).spec_find(t) == old(self).spec_find(t),
            match r {
                Some(p) => old(self).spec_find(T::dims_of(rec@)) == Some(p@),
                None => old(self).spec_find(T::dims_of(rec@)) is None,
            },
            forall|t: Seq<u64>| final(self).leased(t) == old(self).leased(t),
            final(self).n_chunks() == old(self).n_chunks(),
            forall|t: Seq<u64>| final(self).chunk_id(t) == old(self).chunk_id(t),
            final(self).dirty(old(self).chunk_id(T::dims_of(rec@))),
            forall|c: int|
                c != old(self).chunk_id(T::dims_of(rec@)) ==> final(self).dirty(c) == old(
                    self,
                ).dirty(c),
    {
        proof {
            T::lemma_dims(rec@);
        }
        let ghost oldw = *self;
        let ghost dims = T::dims_of(rec@);
        let dims_v = dims_vec(&rec);
        let c = self.locate(&dims_v);
        let mut ch = self.chunks.remove(c);
        let ghost old_records = ch.records@;
        let prev_i = find_index(&ch.records, &dims_v);
        let prev: Option<T>;
        match prev_i {
            Some(i) => {
                proof {
                    assert forall|k: int|
                        0 <= k < old_records.len() && k != i implies T::dims_of(
                        #[trigger] old_records[k]@,
                    ) != dims by {
                        assert(uniq(old_records));
                    }
                    lemma_remove_push(old_records, i as int, rec);
                    lemma_find_in_at(old_records, dims, i as int);
                }
                let p = ch.records.remove(i);
                ch.records.push(rec);
                prev = Some(p);
            },
            None => {
                proof {
                    lemma_push_only(old_records, rec);
                    lemma_find_in_char::<T>(old_records, dims);
                }
                ch.records.push(rec);
                prev = None;
            },
        }
        ch.dirty = true;
        let ghost ch2 = ch;
        self.chunks.insert(c, ch);
        proof {
            assert(self.chunks@ =~= oldw.chunks@.update(c as int, ch2));
            assert(self.bounds_view() == oldw.bounds_view());
            assert(forall|t: Seq<u64>| self.chunk_id(t) == oldw.chunk_id(t));
            assert(self.n_chunks() == oldw.n_chunks());
            let rs2 = ch2.records@;
            assert(find_in(rs2, dims) == Some(rec@));
            assert forall|t: Seq<u64>| t != dims implies self.spec_find(t) == oldw.spec_find(
                t,
            ) by {
                if t.len() == T::dims_spec() {
                    let ct = self.chunk_id(t);
                    if ct == c as int {
                        assert(find_in(rs2, t) == find_in(old_records, t));
                    }
                }
            }
            assert(self.spec_find(dims) == Some(rec@));
            assert forall|c2: int, i2: int|
                0 <= c2 < self.chunks@.len() && 0 <= i2 < self.chunks@[c2].records@.len() implies {
                let v = (#[trigger] self.chunks@[c2].records@[i2])@;
                T::dims_of(v).len() == T::dims_spec() && self.chunk_id(T::dims_of(v)) == c2
            } by {
                if c2 == c as int {
                    let v = self.chunks@[c2].records@[i2]@;
                    if i2 == rs2.len() - 1 {
                        assert(rs2[i2] == rec);
                    } else {
                        assert(exists|k: int|
                            0 <= k < old_records.len() && rs2[i2] == #[trigger] old_records[k]);
                    }
                }
            }
            assert(self.wf());
        }
        prev
    }

    /// Insert a record only if its full dimension tuple is unoccupied;
    /// otherwise return the record back as a conflict.
    pub fn try_insert(&mut self, rec: T) -> (r: Result<(), T>)
        requires
            old(self).wf(),
        ensures
            final(self).wf(),
            match r {
                Ok(()) => old(self).spec_find(T::dims_of(rec@)) is None && final(self).spec_find(
                    T::dims_of(rec@),
                ) == Some(rec@) && (forall|t: Seq<u64>|
                    t != T::dims_of(rec@) ==> final(self).spec_find(t) == old(self).spec_find(
                        t,
                    )) && (forall|t: Seq<u64>| final(self).leased(t) == old(self).leased(t))
                    && final(self).n_chunks() == old(self).n_chunks() && (forall|t: Seq<u64>|
                    final(self).chunk_id(t) == old(self).chunk_id(t)) && final(self).dirty(
                    old(self).chunk_id(T::dims_of(rec@)),
                ) && (forall|c: int|
                    c != old(self).chunk_id(T::dims_of(rec@)) ==> final(self).dirty(c) == old(
                        self,
                    ).dirty(c)),
                Err(back) => old(self).spec_find(T::dims_of(rec@)) is Some && *final(self) == *old(
                    self,
                ) && back@ == rec@,
            },
    {
        proof {
            T::lemma_dims(rec@);
        }
        let ghost dims = T::dims_of(rec@);
        let dims_v = dims_vec(&rec);
        let c = self.locate(&dims_v);
        match find_index(&self.chunks[c].records, &dims_v) {
            Some(i) => {
                proof {
                    lemma_find_in_at(self.chunks@[c as int].records@, dims, i as int);
                }
                Err(rec)
            },
            None => {
                proof {
                    lemma_find_in_char::<T>(self.chunks@[c as int].records@, dims);
                }
                let _prev = self.insert(rec);
                Ok(())
            },
        }
    }
}

// ---------------------------------------------------------------------------
// Selection.
// ---------------------------------------------------------------------------

/// A selection: one or more (dimension, value) constraints, intersected,
/// with an optional exact-match hint on the identifying dimension that lets
/// a chunk scan stop at its first full match.
pub struct Select {
    pub constraints: Vec<(usize, u64)>,
    pub hinted: Option<u64>,
}

/// Whether a dimension tuple satisfies every constraint.
pub open spec fn sel_matches(t: Seq<u64>, cs: Seq<(usize, u64)>) -> bool {
    forall|j: int| 0 <= j < cs.len() ==> t[(#[trigger] cs[j]).0 as int] == cs[j].1
}

/// Every constrained dimension exists.
pub open spec fn sel_wf(cs: Seq<(usize, u64)>, nd: nat) -> bool {
    forall|j: int| 0 <= j < cs.len() ==> ((#[trigger] cs[j]).0 as nat) < nd
}

/// The hint is usable: the selection is already constrained to an exact
/// match of the hinted value on the identifying dimension.
pub open spec fn hint_applies(q: Select) -> bool {
    match q.hinted {
        None => false,
        Some(h) => exists|j: int|
            0 <= j < q.constraints@.len() && (#[trigger] q.constraints@[j]).0 == 0usize
                && q.constraints@[j].1 == h,
    }
}

impl Select {
    /// Intersect with one more constraint.
    pub fn and(self, d: usize, v: u64) -> (q: Select)
        ensures
            q.constraints@ == self.constraints@.push((d, v)),
            q.hinted == self.hinted,
    {
        let mut cs = self.constraints;
        cs.push((d, v));
        Select { constraints: cs, hinted: self.hinted }
    }

    /// Declare an expected exact match on the identifying dimension.
    pub fn hint(self, h: u64) -> (q: Select)
        ensures
            q.constraints@ == self.constraints@,
            q.hinted == Some(h),
    {
        Select { constraints: self.constraints, hinted: Some(h) }
    }
}

/// Whether a record satisfies every constraint of a selection.
fn matches_all<T: Data>(rec: &T, cs: &Vec<(usize, u64)>) -> (r: bool)
    requires
        sel_wf(cs@, T::dims_spec()),
    ensures
        r == sel_matches(T::dims_of(rec@), cs@),
{
    proof {
        T::lemma_dims(rec@);
    }
    let n = cs.len();
    let mut j: usize = 0;
    while j < n
        invariant
            j <= n,
            n == cs@.len(),
            sel_wf(cs@, T::dims_spec()),
            T::dims_of(rec@).len() == T::dims_spec(),
            forall|k: int|
                0 <= k < j ==> T::dims_of(rec@)[(#[trigger] cs@[k]).0 as int] == cs@[k].1,
        decreases n - j,
    {
        let (d, v) = cs[j];
        if rec.dim(d) != v {
            return false;
        }
        j += 1;
    }
    true
}

// ---------------------------------------------------------------------------
// Lazy record handles.
// ---------------------------------------------------------------------------

/// State of a lazy record handle.
pub enum HandleState<T> {
    /// Address known, payload not loaded.
    Detached,
    /// A read-only materialized copy.
    Loaded(T),
    /// An exclusive mutable copy, backed by a lease in the world.
    Leased(T),
}

/// A candidate record still attached to its chunk: its address, and a state
/// that moves from detached through loaded or leased to a terminal commit,
/// destruction or release, each of which consumes the handle.
pub struct Handle<T> {
    dims: Vec<u64>,
    state: HandleState<T>,
}

impl<T: Data> Handle<T> {
    /// The dimension tuple this handle addresses.
    pub closed spec fn key(self) -> Seq<u64> {
        self.dims@
    }

    /// The handle's state, as a model.
    pub closed spec fn st(self) -> HandleState<T::V> {
        match self.state {
            HandleState::Detached => HandleState::Detached,
            HandleState::Loaded(r) => HandleState::Loaded(r@),
            HandleState::Leased(r) => HandleState::Leased(r@),
        }
    }

    /// The record's identifier: its first dimension value.
    pub fn id(&self) -> (r: u64)
        requires
            self.key().len() >= 1,
        ensures
            r == self.key()[0],
    {
        self.dims[0]
    }
}

impl Select {
    /// Enumerate the candidates of this selection: handles on every stored
    /// record that satisfies all constraints.  When the hint applies, a
    /// chunk's scan stops at its first full match, so of several matches in
    /// one chunk only the first is produced; every matching record is still
    /// witnessed by a match from its own chunk.
    #[verifier::rlimit(60)]
    pub fn candidates<T: Data>(&self, w: &World<T>) -> (r: Vec<Handle<T>>)
        requires
            w.wf(),
            sel_wf(self.constraints@, T::dims_spec()),
        ensures
            forall|j: int|
                0 <= j < r@.len() ==> (#[trigger] r@[j]).st() is Detached && r@[j].key().len()
                    == T::dims_spec() && w.spec_find(r@[j].key()) is Some && sel_matches(
                    r@[j].key(),
                    self.constraints@,
                ),
            forall|j1: int, j2: int|
                0 <= j1 < j2 < r@.len() ==> (#[trigger] r@[j1]).key() != (#[trigger] r@[j2]).key(),
            forall|t: Seq<u64>|
                w.spec_find(t) is Some && sel_matches(t, self.constraints@) ==> exists|j: int|
                    0 <= j < r@.len() && sel_matches((#[trigger] r@[j]).key(), self.constraints@)
                        && w.chunk_id(r@[j].key()) == w.chunk_id(t),
            !hint_applies(*self) ==> forall|t: Seq<u64>|
                w.spec_find(t) is Some && sel_matches(t, self.constraints@) ==> exists|j: int|
                    0 <= j < r@.len() && (#[trigger] r@[j]).key() == t,
    {
        let use_hint = self.hint_usable();
        let mut out: Vec<Handle<T>> = Vec::new();
        let nch = w.chunks.len();
        let mut c: usize = 0;
        while c < nch
            invariant
                c <= nch,
                nch == w.chunks@.len(),
                w.wf(),
                sel_wf(self.constraints@, T::dims_spec()),
                use_hint == hint_applies(*self),
                forall|j: int|
                    0 <= j < out@.len() ==> (#[trigger] out@[j]).st() is Detached && out@[
                        j
                    ].key().len() == T::dims_spec() && w.spec_find(out@[j].key()) is Some
                        && sel_matches(out@[j].key(), self.constraints@),
                forall|j1: int, j2: int|
                    0 <= j1 < j2 < out@.len() ==> (#[trigger] out@[j1]).key() != (
                    #[trigger] out@[j2]).key(),
                forall|j: int| 0 <= j < out@.len() ==> w.chunk_id((#[trigger] out@[j]).key()) < c,
                forall|t: Seq<u64>|
                    w.spec_find(t) is Some && sel_matches(t, self.constraints@) && w.chunk_id(t)
                        < c ==> exists|j: int|
                        0 <= j < out@.len() && sel_matches(
                            (#[trigger] out@[j]).key(),
                            self.constraints@,
                        ) && w.chunk_id(out@[j].key()) == w.chunk_id(t),
                !use_hint ==> forall|t: Seq<u64>|
                    w.spec_find(t) is Some && sel_matches(t, self.constraints@) && w.chunk_id(t)
                        < c ==> exists|j: int| 0 <= j < out@.len() && (#[trigger] out@[j]).key()
                        == t,
            decreases nch - c,
        {
            let nrec = w.chunks[c].records.len();
            let ghost len0 = out@.len() as int;
            let ghost rs = w.chunks@[c as int].records@;
            let mut done = false;
            let mut i: usize = 0;
            while i < nrec && !done
                invariant
                    i <= nrec,
                    c < nch,
                    nch == w.chunks@.len(),
                    rs == w.chunks@[c as int].records@,
                    nrec == rs.len(),
                    w.wf(),
                    sel_wf(self.constraints@, T::dims_spec()),
                    use_hint == hint_applies(*self),
                    0 <= len0 <= out@.len(),
                    forall|j: int|
                        0 <= j < out@.len() ==> (#[trigger] out@[j]).st() is Detached && out@[
                            j
                        ].key().len() == T::dims_spec() && w.spec_find(out@[j].key()) is Some
                            && sel_matches(out@[j].key(), self.constraints@),
                    forall|j1: int, j2: int|
                        0 <= j1 < j2 < out@.len() ==> (#[trigger] out@[j1]).key() != (
                        #[trigger] out@[j2]).key(),
                    forall|j: int| 0 <= j < len0 ==> w.chunk_id((#[trigger] out@[j]).key()) < c,
                    forall|j: int|
                        len0 <= j < out@.len() ==> w.chunk_id((#[trigger] out@[j]).key()) == c
                            && (exists|k: int|
                            0 <= k < i && T::dims_of((#[trigger] rs[k])@) == out@[j].key()),
                    forall|t: Seq<u64>|
                        w.spec_find(t) is Some && sel_matches(t, self.constraints@) && w.chunk_id(
                            t,
                        ) < c ==> exists|j: int|
                            0 <= j < out@.len() && sel_matches(
                                (#[trigger] out@[j]).key(),
                                self.constraints@,
                            ) && w.chunk_id(out@[j].key()) == w.chunk_id(t),
                    !use_hint ==> forall|t: Seq<u64>|
                        w.spec_find(t) is Some && sel_matches(t, self.constraints@)
                            && w.chunk_id(t) < c ==> exists|j: int|
                            0 <= j < out@.len() && (#[trigger] out@[j]).key() == t,
                    !done ==> forall|k: int|
                        0 <= k < i && sel_matches(
                            T::dims_of((#[trigger] rs[k])@),
                            self.constraints@,
                        ) ==> exists|j: int|
                            0 <= j < out@.len() && (#[trigger] out@[j]).key() == T::dims_of(
                                rs[k]@,
                            ),
                    done ==> use_hint && exists|j: int|
                        len0 <= j < out@.len() && sel_matches(
                            (#[trigger] out@[j]).key(),
                            self.constraints@,
                        ) && w.chunk_id(out@[j].key()) == c,
                decreases nrec - i,
            {
                let ghost out_prev = out@;
                let rec = &w.chunks[c].records[i];
                proof {
                    T::lemma_dims(rec@);
                }
                let m = matches_all(rec, &self.constraints);
                if m {
                    let dims_v = dims_vec(rec);
                    proof {
                        lemma_find_in_at(rs, T::dims_of(rec@), i as int);
                    }
                    out.push(
                        Handle { dims: dims_v, state: HandleState::Detached },
                    );
                    if use_hint {
                        done = true;
                    }
                }
                proof {
                    assert(forall|j: int| 0 <= j < out_prev.len() ==> out@[j] == out_prev[j]);
                    let key_i = T::dims_of(rs[i as int]@);
                    if m {
                        assert(out@.len() == out_prev.len() + 1);
                        assert(out@[out_prev.len() as int].key() == key_i);
                        assert(w.chunk_id(key_i) == c);
                        assert forall|j1: int, j2: int| 0 <= j1 < j2 < out@.len() implies (
                        #[trigger] out@[j1]).key() != (#[trigger] out@[j2]).key() by {
                            if j2 == out_prev.len() as int {
                                if j1 < len0 {
                                    assert(w.chunk_id(out@[j1].key()) < c);
                                } else {
                                    let k1 = choose|k: int|
                                        0 <= k < i && T::dims_of((#[trigger] rs[k])@) == out@[
                                            j1
                                        ].key();
                                    assert(T::dims_of(rs[k1]@) != T::dims_of(rs[i as int]@));
                                }
                            }
                        }
                    }
                    assert forall|t: Seq<u64>|
                        w.spec_find(t) is Some && sel_matches(t, self.constraints@)
                            && w.chunk_id(t) < c implies exists|j: int|
                        0 <= j < out@.len() && sel_matches(
                            (#[trigger] out@[j]).key(),
                            self.constraints@,
                        ) && w.chunk_id(out@[j].key()) == w.chunk_id(t) by {
                        let j0 = choose|j: int|
                            0 <= j < out_prev.len() && sel_matches(
                                (#[trigger] out_prev[j]).key(),
                                self.constraints@,
                            ) && w.chunk_id(out_prev[j].key()) == w.chunk_id(t);
                        assert(out@[j0] == out_prev[j0]);
                    }
                    if !use_hint {
                        assert forall|t: Seq<u64>|
                            w.spec_find(t) is Some && sel_matches(t, self.constraints@)
                                && w.chunk_id(t) < c implies exists|j: int|
                            0 <= j < out@.len() && (#[trigger] out@[j]).key() == t by {
                            let j0 = choose|j: int|
                                0 <= j < out_prev.len() && (#[trigger] out_prev[j]).key() == t;
                            assert(out@[j0] == out_prev[j0]);
                        }
                    }
                    if !done {
                        assert forall|k: int|
                            0 <= k < i + 1 && sel_matches(
                                T::dims_of((#[trigger] rs[k])@),
                                self.constraints@,
                            ) implies exists|j: int|
                            0 <= j < out@.len() && (#[trigger] out@[j]).key() == T::dims_of(
                                rs[k]@,
                            ) by {
                            if k < i {
                                let j0 = choose|j: int|
                                    0 <= j < out_prev.len() && (#[trigger] out_prev[j]).key()
                                        == T::dims_of(rs[k]@);
                                assert(out@[j0] == out_prev[j0]);
                            } else {
                                assert(m);
                                assert(out@[out_prev.len() as int].key() == T::dims_of(rs[k]@));
                            }
                        }
                    }
                }
                i += 1;
            }
            proof {
                if !done {
                    assert forall|t: Seq<u64>|
                        w.spec_find(t) is Some && sel_matches(t, self.constraints@)
                            && w.chunk_id(t) == c as int implies exists|j: int|
                        0 <= j < out@.len() && sel_matches(
                            (#[trigger] out@[j]).key(),
                            self.constraints@,
                        ) && w.chunk_id(out@[j].key()) == w.chunk_id(t) by {
                        lemma_find_in_char::<T>(rs, t);
                        let k = choose|k: int|
                            0 <= k < rs.len() && T::dims_of((#[trigger] rs[k])@) == t;
                        assert(sel_matches(T::dims_of(rs[k]@), self.constraints@));
                        let j0 = choose|j: int|
                            0 <= j < out@.len() && (#[trigger] out@[j]).key() == T::dims_of(
                                rs[k]@,
                            );
                        assert(w.chunk_id(out@[j0].key()) == c);
                    }
                    if !use_hint {
                        assert forall|t: Seq<u64>|
                            w.spec_find(t) is Some && sel_matches(t, self.constraints@)
                                && w.chunk_id(t) == c as int implies exists|j: int|
                            0 <= j < out@.len() && (#[trigger] out@[j]).key() == t by {
                            lemma_find_in_char::<T>(rs, t);
                            let k = choose|k: int|
                                0 <= k < rs.len() && T::dims_of((#[trigger] rs[k])@) == t;
                            assert(sel_matches(T::dims_of(rs[k]@), self.constraints@));
                        }
                    }
                }
            }
            c += 1;
        }
        out
    }

    /// Whether the hint can be used: an exact dimension-0 constraint equal
    /// to the hinted value is present.
    fn hint_usable(&self) -> (r: bool)
        ensures
            r == hint_applies(*self),
    {
        match self.hinted {
            None => false,
            Some(h) => {
                let n = self.constraints.len();
                let mut j: usize = 0;
                while j < n
                    invariant
                        j <= n,
                        n == self.constraints@.len(),
                        self.hinted == Some(h),
                        forall|k: int|
                            0 <= k < j ==> !((#[trigger] self.constraints@[k]).0 == 0usize
                                && self.constraints@[k].1 == h),
                    decreases n - j,
                {
                    let (d, v) = self.constraints[j];
                    if d == 0 && v == h {
                        return true;
                    }
                    j += 1;
                }
                false
            },
        }
    }
}

// ---------------------------------------------------------------------------
// Leases and per-record operations.
// ---------------------------------------------------------------------------

impl<T: Data> World<T> {
    /// Start a selection constrained on one dimension.
    pub fn select(&self, d: usize, v: u64) -> (q: Select)
        requires
            (d as nat) < T::dims_spec(),
        ensures
            q.constraints@ =~= seq![(d, v)],
            q.hinted is None,
            sel_wf(q.constraints@, T::dims_spec()),
    {
        let mut cs: Vec<(usize, u64)> = Vec::new();
        cs.push((d, v));
        Select { constraints: cs, hinted: None }
    }

    /// Start an unconstrained selection over every record.
    pub fn select_all(&self) -> (q: Select)
        ensures
            q.constraints@ =~= Seq::<(usize, u64)>::empty(),
            q.hinted is None,
            sel_wf(q.constraints@, T::dims_spec()),
    {
        Select { constraints: Vec::new(), hinted: None }
    }

    /// Index of a tuple in the lease list.
    fn lease_index(&self, t: &Vec<u64>) -> (r: Option<usize>)
        ensures
            match r {
                Some(i) => i < self.leases@.len() && self.leases@[i as int]@ == t@ && self.leased(
                    t@,
                ),
                None => !self.leased(t@),
            },
    {
        let n = self.leases.len();
        let mut i: usize = 0;
        while i < n
            invariant
                i <= n,
                n == self.leases@.len(),
                forall|k: int| 0 <= k < i ==> (#[trigger] self.leases@[k])@ != t@,
            decreases n - i,
    {
            if tuple_eq(&self.leases[i], t) {
                return Some(i);
            }
            i += 1;
        }
        None
    }

    /// Drop the lease on a tuple, if one is outstanding.
    fn release_lease(&mut self, t: &Vec<u64>)
        requires
            old(self).wf(),
        ensures
            final(self).wf(),
            final(self).chunks == old(self).chunks,
            final(self).bounds == old(self).bounds,
            forall|t2: Seq<u64>| final(self).spec_find(t2) == old(self).spec_find(t2),
            forall|c: int| final(self).dirty(c) == old(self).dirty(c),
            final(self).n_chunks() == old(self).n_chunks(),
            forall|t2: Seq<u64>| final(self).chunk_id(t2) == old(self).chunk_id(t2),
            forall|t2: Seq<u64>| final(self).leased(t2) == (old(self).leased(t2) && t2 != t@),
    {
        let ghost oldl = self.leases@;
        match self.lease_index(t) {
            Some(i) => {
                self.leases.remove(i);
                proof {
                    assert(forall|k: int| 0 <= k < i ==> self.leases@[k] == oldl[k]);
                    assert(forall|k: int|
                        i <= k < self.leases@.len() ==> self.leases@[k] == oldl[k + 1]);
                    assert forall|t2: Seq<u64>| self.leased(t2) == (old(self).leased(t2) && t2
                        != t@) by {
                        if t2 == t@ {
                            if self.leased(t2) {
                                let k = choose|k: int|
                                    0 <= k < self.leases@.len() && #[trigger] self.leases@[k]@
                                        == t2;
                                if k < i {
                                    assert(oldl[k]@ == t2 && oldl[i as int]@ == t2);
                                } else {
                                    assert(oldl[k + 1]@ == t2 && oldl[i as int]@ == t2);
                                }
                            }
                        } else {
                            if old(self).leased(t2) {
                                let k = choose|k: int|
                                    0 <= k < oldl.len() && #[trigger] oldl[k]@ == t2;
                                let k2: int = if k < i {
                                    k
                                } else {
                                    k - 1
                                };
                                assert(self.leases@[k2]@ == t2);
                            }
                            if self.leased(t2) {
                                let k = choose|k: int|
                                    0 <= k < self.leases@.len() && #[trigger] self.leases@[k]@
                                        == t2;
                                if k < i {
                                    assert(oldl[k]@ == t2);
                                } else {
                                    assert(oldl[k + 1]@ == t2);
                                }
                            }
                        }
                    }
                }
            },
            None => {},
        }
    }

    /// Remove the record at a tuple, returning it.
    fn remove_at(&mut self, t: &Vec<u64>) -> (r: Option<T>)
        requires
            old(self).wf(),
            t@.len() == T::dims_spec(),
            !old(self).leased(t@),
        ensures
            final(self).wf(),
            match r {
                Some(p) => old(self).spec_find(t@) == Some(p@) && final(self).dirty(
                    old(self).chunk_id(t@),
                ) && (forall|c: int|
                    c != old(self).chunk_id(t@) ==> final(self).dirty(c) == old(self).dirty(c)),
                None => old(self).spec_find(t@) is None && (forall|c: int|
                    final(self).dirty(c) == old(self).dirty(c)),
            },
            final(self).spec_find(t@) is None,
            forall|t2: Seq<u64>| t2 != t@ ==> final(self).spec_find(t2) == old(self).spec_find(t2),
            forall|t2: Seq<u64>| final(self).leased(t2) == old(self).leased(t2),
            final(self).n_chunks() == old(self).n_chunks(),
            forall|t2: Seq<u64>| final(self).chunk_id(t2) == old(self).chunk_id(t2),
    {
        let ghost oldw = *self;
        let c = self.locate(t);
        match find_index(&self.chunks[c].records, t) {
            None => {
                proof {
                    lemma_find_in_char::<T>(self.chunks@[c as int].records@, t@);
                }
                None
            },
            Some(i) => {
                proof {
                    lemma_find_in_at(self.chunks@[c as int].records@, t@, i as int);
                    lemma_remove_only(self.chunks@[c as int].records@, i as int);
                }
                let mut ch = self.chunks.remove(c);
                let ghost old_records = ch.records@;
                let p = ch.records.remove(i);
                ch.dirty = true;
                let ghost ch2 = ch;
                self.chunks.insert(c, ch);
                proof {
                    assert(self.chunks@ =~= oldw.chunks@.update(c as int, ch2));
                    assert(self.bounds_view() == oldw.bounds_view());
                    assert forall|t2: Seq<u64>| t2 != t@ implies self.spec_find(t2)
                        == oldw.spec_find(t2) by {
                        if t2.len() == T::dims_spec() {
                            let ct = self.chunk_id(t2);
                            if ct == c as int {
                                assert(find_in(ch2.records@, t2) == find_in(old_records, t2));
                            }
                        }
                    }
                    assert(self.spec_find(t@) is None);
                    assert forall|c2: int, i2: int|
                        0 <= c2 < self.chunks@.len() && 0 <= i2
                            < self.chunks@[c2].records@.len() implies {
                        let v = (#[trigger] self.chunks@[c2].records@[i2])@;
                        T::dims_of(v).len() == T::dims_spec() && self.chunk_id(T::dims_of(v))
                            == c2
                    } by {
                        if c2 == c as int {
                            if i2 < i {
                                assert(ch2.records@[i2] == old_records[i2]);
                            } else {
                                assert(ch2.records@[i2] == old_records[i2 + 1]);
                            }
                        }
                    }
                    assert forall|k: int|
                        0 <= k < self.leases@.len() implies self.spec_find(
                        #[trigger] self.leases@[k]@,
                    ) is Some by {
                        assert(oldw.leased(self.leases@[k]@));
                        assert(self.leases@[k]@ != t@);
                    }
                    assert(self.wf());
                }
                Some(p)
            },
        }
    }
}

impl<T: Data> Handle<T> {
    /// Load a read-only copy of the record.  Concurrent readers need no
    /// lease; a missing record is reported, never invented.
    pub fn get(&mut self, w: &World<T>) -> (r: Result<T, StoreError>)
        requires
            w.wf(),
            !(old(self).st() is Leased),
            old(self).key().len() == T::dims_spec(),
        ensures
            final(self).key() == old(self).key(),
            match r {
                Ok(rec) => w.spec_find(old(self).key()) == Some(rec@) && final(self).st()
                    == HandleState::<T::V>::Loaded(rec@),
                Err(e) => e == StoreError::NotFound && w.spec_find(old(self).key()) is None
                    && final(self).st() == old(self).st(),
            },
    {
        let c = w.locate(&self.dims);
        match find_index(&w.chunks[c].records, &self.dims) {
            Some(i) => {
                proof {
                    lemma_find_in_at(w.chunks@[c as int].records@, self.dims@, i as int);
                }
                let rec = w.chunks[c].records[i].dup();
                let copy = rec.dup();
                self.state = HandleState::Loaded(copy);
                Ok(rec)
            },
            None => {
                proof {
                    lemma_find_in_char::<T>(w.chunks@[c as int].records@, self.dims@);
                }
                Err(StoreError::NotFound)
            },
        }
    }

    /// Acquire the exclusive mutable lease on the record and return a
    /// mutable copy.  Fails with `Conflict` when another lease on the same
    /// record is outstanding; storage is never changed.
    pub fn get_mut(&mut self, w: &mut World<T>) -> (r: Result<T, StoreError>)
        requires
            old(w).wf(),
            !(old(self).st() is Leased),
            old(self).key().len() == T::dims_spec(),
        ensures
            final(w).wf(),
            final(self).key() == old(self).key(),
            final(w).n_chunks() == old(w).n_chunks(),
            forall|t: Seq<u64>| final(w).chunk_id(t) == old(w).chunk_id(t),
            forall|t: Seq<u64>| final(w).spec_find(t) == old(w).spec_find(t),
            forall|c: int| final(w).dirty(c) == old(w).dirty(c),
            match r {
                Ok(rec) => !old(w).leased(old(self).key()) && old(w).spec_find(old(self).key())
                    == Some(rec@) && final(self).st() == HandleState::<T::V>::Leased(rec@) && (
                forall|t: Seq<u64>|
                    final(w).leased(t) == (old(w).leased(t) || t == old(self).key())),
                Err(StoreError::Conflict) => old(w).leased(old(self).key()) && *final(w) == *old(
                    w,
                ) && final(self).st() == old(self).st(),
                Err(StoreError::NotFound) => !old(w).leased(old(self).key()) && old(w).spec_find(
                    old(self).key(),
                ) is None && *final(w) == *old(w) && final(self).st() == old(self).st(),
            },
    {
        if w.lease_index(&self.dims).is_some() {
            return Err(StoreError::Conflict);
        }
        let c = w.locate(&self.dims);
        match find_index(&w.chunks[c].records, &self.dims) {
            Some(i) => {
                proof {
                    lemma_find_in_at(w.chunks@[c as int].records@, self.dims@, i as int);
                }
                let rec = w.chunks[c].records[i].dup();
                let copy = rec.dup();
                let ghost oldl = w.leases@;
                w.leases.push(dup_tuple(&self.dims));
                self.state = HandleState::Leased(copy);
                proof {
                    assert forall|t: Seq<u64>| w.leased(t) == (old(w).leased(t) || t
                        == self.dims@) by {
                        assert(forall|k: int| 0 <= k < oldl.len() ==> w.leases@[k] == oldl[k]);
                        assert(w.leases@[oldl.len() as int]@ == self.dims@);
                        if w.leased(t) {
                            let k = choose|k: int|
                                0 <= k < w.leases@.len() && #[trigger] w.leases@[k]@ == t;
                        }
                        if old(w).leased(t) {
                            let k = choose|k: int| 0 <= k < oldl.len() && #[trigger] oldl[k]@ == t;
                            assert(w.leases@[k]@ == t);
                        }
                        if t == self.dims@ {
                            assert(w.leases@[oldl.len() as int]@ == t);
                        }
                    }
                    assert(w.wf());
                }
                Ok(rec)
            },
            None => {
                proof {
                    lemma_find_in_char::<T>(w.chunks@[c as int].records@, self.dims@);
                }
                Err(StoreError::NotFound)
            },
        }
    }

    /// Commit the leased record: write `rec` back at its dimension-derived
    /// location, moving it between chunks when a dimension value changed,
    /// and release the lease.  A move whose destination tuple is occupied is
    /// a conflict and leaves every record unchanged.
    pub fn close(self, w: &mut World<T>, rec: T) -> (r: Result<(), StoreError>)
        requires
            old(w).wf(),
            self.st() is Leased,
            old(w).leased(self.key()),
            old(w).spec_find(self.key()) is Some,
            self.key().len() == T::dims_spec(),
        ensures
            final(w).wf(),
            final(w).n_chunks() == old(w).n_chunks(),
            forall|t: Seq<u64>| final(w).chunk_id(t) == old(w).chunk_id(t),
            forall|t: Seq<u64>| final(w).leased(t) == (old(w).leased(t) && t != self.key()),
            match r {
                Ok(()) => final(w).spec_find(T::dims_of(rec@)) == Some(rec@) && (T::dims_of(rec@)
                    != self.key() ==> final(w).spec_find(self.key()) is None && old(w).spec_find(
                    T::dims_of(rec@),
                ) is None) && (forall|t: Seq<u64>|
                    t != T::dims_of(rec@) && t != self.key() ==> final(w).spec_find(t) == old(
                        w,
                    ).spec_find(t)) && final(w).dirty(old(w).chunk_id(T::dims_of(rec@)))
                    && final(w).dirty(old(w).chunk_id(self.key())) && (forall|c: int|
                    c != old(w).chunk_id(T::dims_of(rec@)) && c != old(w).chunk_id(self.key())
                        ==> final(w).dirty(c) == old(w).dirty(c)),
                Err(StoreError::Conflict) => T::dims_of(rec@) != self.key() && old(w).spec_find(
                    T::dims_of(rec@),
                ) is Some && (forall|t: Seq<u64>|
                    final(w).spec_find(t) == old(w).spec_find(t)) && (forall|c: int|
                    final(w).dirty(c) == old(w).dirty(c)),
                Err(StoreError::NotFound) => false,
            },
    {
        proof {
            T::lemma_dims(rec@);
        }
        let new_dims = dims_vec(&rec);
        let same = tuple_eq(&new_dims, &self.dims);
        if !same {
            let c2 = w.locate(&new_dims);
            match find_index(&w.chunks[c2].records, &new_dims) {
                Some(i) => {
                    proof {
                        lemma_find_in_at(
                            w.chunks@[c2 as int].records@,
                            T::dims_of(rec@),
                            i as int,
                        );
                    }
                    w.release_lease(&self.dims);
                    return Err(StoreError::Conflict);
                },
                None => {
                    proof {
                        lemma_find_in_char::<T>(w.chunks@[c2 as int].records@, T::dims_of(rec@));
                    }
                },
            }
        }
        w.release_lease(&self.dims);
        let _removed = w.remove_at(&self.dims);
        let _prev = w.insert(rec);
        Ok(())
    }

    /// Remove the record from its chunk.  A record already removed is an
    /// error, not a no-op; a lease held elsewhere blocks the deletion.
    pub fn destroy(self, w: &mut World<T>) -> (r: Result<(), StoreError>)
        requires
            old(w).wf(),
            self.key().len() == T::dims_spec(),
        ensures
            final(w).wf(),
            final(w).n_chunks() == old(w).n_chunks(),
            forall|t: Seq<u64>| final(w).chunk_id(t) == old(w).chunk_id(t),
            match r {
                Ok(()) => old(w).spec_find(self.key()) is Some && (old(w).leased(self.key())
                    ==> self.st() is Leased) && final(w).spec_find(self.key()) is None && (forall|
                    t: Seq<u64>,
                |
                    t != self.key() ==> final(w).spec_find(t) == old(w).spec_find(t)) && (forall|
                    t: Seq<u64>,
                |
                    final(w).leased(t) == (old(w).leased(t) && t != self.key())) && final(w).dirty(old(w).chunk_id(self.key())) && (forall|c: int|
                    c != old(w).chunk_id(self.key()) ==> final(w).dirty(c) == old(w).dirty(c)),
                Err(StoreError::Conflict) => old(w).leased(self.key()) && !(self.st() is Leased)
                    && *final(w) == *old(w),
                Err(StoreError::NotFound) => old(w).spec_find(self.key()) is None && (forall|
                    t: Seq<u64>,
                |
                    final(w).spec_find(t) == old(w).spec_find(t)) && (forall|c: int|
                    final(w).dirty(c) == old(w).dirty(c)) && (forall|t: Seq<u64>|
                    final(w).leased(t) == (old(w).leased(t) && t != self.key())),
            },
    {
        let own = matches!(self.state, HandleState::Leased(_));
        if !own && w.lease_index(&self.dims).is_some() {
            return Err(StoreError::Conflict);
        }
        w.release_lease(&self.dims);
        match w.remove_at(&self.dims) {
            Some(_p) => Ok(()),
            None => Err(StoreError::NotFound),
        }
    }

    /// Abandon the handle without writing: drop its lease if it held one,
    /// and leave storage untouched.
    pub fn release(self, w: &mut World<T>)
        requires
            old(w).wf(),
        ensures
            final(w).wf(),
            final(w).n_chunks() == old(w).n_chunks(),
            forall|t: Seq<u64>| final(w).chunk_id(t) == old(w).chunk_id(t),
            forall|t: Seq<u64>| final(w).spec_find(t) == old(w).spec_find(t),
            forall|c: int| final(w).dirty(c) == old(w).dirty(c),
            forall|t: Seq<u64>|
                final(w).leased(t) == (old(w).leased(t) && !(self.st() is Leased && t
                    == self.key())),
    {
        match self.state {
            HandleState::Leased(_) => {
                w.release_lease(&self.dims);
            },
            _ => {},
        }
    }
}


/// The dimension tuples a selection constrained to one (dimension, value)
/// pair returns: those of stored records whose tuple carries the value.
pub open spec fn sel_tuples<T: Data>(w: World<T>, d: int, v: u64) -> Set<Seq<u64>> {
    Set::new(|t: Seq<u64>| w.spec_find(t) is Some && 0 <= d < t.len() && t[d] == v)
}

/// Destroy finality: a tuple no longer stored is returned by no selection,
/// whatever dimension the selection is constrained on.
pub proof fn lemma_destroy_finality<T: Data>(w: World<T>, t: Seq<u64>, d: int, v: u64)
    requires
        w.spec_find(t) is None,
    ensures
        !sel_tuples(w, d, v).contains(t),
{
}

/// Exclusive lease: after one acquisition of the lease on a tuple, the lease
/// is outstanding, so `get_mut`'s contract admits only `Conflict` for any
/// further acquisition while it is not released.
pub proof fn lemma_exclusive_lease<T: Data>(w0: World<T>, w1: World<T>, t: Seq<u64>)
    requires
        forall|t2: Seq<u64>| w1.leased(t2) == (w0.leased(t2) || t2 == t),
    ensures
        w1.leased(t),
{
}

// ---------------------------------------------------------------------------
// Chunk persistence: a chunk serializes to one durable unit, each record
// entry prefixed by its schema version and dimension values, the payload as
// the record codec produced it.
// ---------------------------------------------------------------------------

/// The models of a sequence of records.
pub open spec fn models<T: Data>(s: Seq<T>) -> Seq<T::V> {
    s.map_values(|r: T| r@)
}

/// The wire form of one record entry.
pub open spec fn entry_enc<T: Data>(v: T::V) -> Seq<u8> {
    enc_u32(T::version_spec()) + enc_tuple(T::dims_of(v)) + enc_bytes(T::encoding_of(v))
}

/// The wire form of a chunk: its record entries, in order.
pub open spec fn chunk_enc<T: Data>(s: Seq<T>) -> Seq<u8>
    decreases s.len(),
{
    if s.len() == 0 {
        Seq::empty()
    } else {
        chunk_enc(s.drop_last()) + entry_enc::<T>(s.last()@)
    }
}

proof fn lemma_chunk_enc_snoc<T: Data>(s: Seq<T>, k: int)
    requires
        0 <= k < s.len(),
    ensures
        chunk_enc(s.take(k + 1)) == chunk_enc(s.take(k)) + entry_enc::<T>(s[k]@),
{
    assert(s.take(k + 1).drop_last() =~= s.take(k));
    assert(s.take(k + 1).last() == s[k]);
}

/// The record models that the bytes from offset `i` on encode, one entry
/// after another up to the end of the byte string.  An entry whose frame
/// parses but whose payload does not decode under its version tag is
/// skipped: the decode failure is fatal for that record alone.  A broken
/// frame fails the whole byte string, since no later entry can be found.
pub open spec fn parse_entries<T: Data>(b: Seq<u8>, i: int) -> Option<Seq<T::V>>
    decreases b.len() - i,
{
    if i < 0 || i > b.len() {
        None
    } else if i == b.len() {
        Some(Seq::empty())
    } else {
        match dec_u32_at(b, i) {
            None => None,
            Some((ver, j1)) => match dec_tuple_at(b, j1, T::dims_spec()) {
                None => None,
                Some((dims, j2)) => match dec_bytes_at(b, j2) {
                    None => None,
                    Some((pl, j3)) => {
                        if j3 <= i {
                            None
                        } else {
                            match parse_entries::<T>(b, j3) {
                                None => None,
                                Some(rest) => match T::decoded(ver, dims, pl) {
                                    None => Some(rest),
                                    Some(v) => Some(seq![v] + rest),
                                },
                            }
                        }
                    },
                },
            },
        }
    }
}

/// A record has a given tuple somewhere in a sequence of models.
pub open spec fn tuple_of_any<T: Data>(vs: Seq<T::V>, t: Seq<u64>) -> bool {
    exists|i: int| 0 <= i < vs.len() && T::dims_of(#[trigger] vs[i]) == t
}

/// No two models share a dimension tuple.
pub open spec fn models_uniq<T: Data>(vs: Seq<T::V>) -> bool {
    forall|i: int, j: int|
        0 <= i < j < vs.len() ==> T::dims_of(#[trigger] vs[i]) != T::dims_of(#[trigger] vs[j])
}

proof fn lemma_chunk_enc_concat<T: Data>(a: Seq<T>, b: Seq<T>)
    ensures
        chunk_enc(a + b) == chunk_enc(a) + chunk_enc(b),
    decreases b.len(),
{
    if b.len() == 0 {
        assert(a + b =~= a);
        assert(chunk_enc(b) =~= Seq::<u8>::empty());
        assert(chunk_enc(a) + chunk_enc(b) =~= chunk_enc(a));
    } else {
        assert((a + b).drop_last() =~= a + b.drop_last());
        assert((a + b).last() == b.last());
        lemma_chunk_enc_concat(a, b.drop_last());
        assert(chunk_enc(a + b) =~= chunk_enc(a) + chunk_enc(b));
    }
}

/// Chunk persistence round trip: parsing the wire form of a chunk's records
/// restores exactly their models.
pub proof fn lemma_chunk_round_trip<T: Data>(s: Seq<T>)
    requires
        forall|i: int| 0 <= i < s.len() ==> T::fits((#[trigger] s[i])@),
    ensures
        parse_entries::<T>(chunk_enc::<T>(s), 0) == Some(models(s)),
{
    assert(chunk_enc(s.take(0)).len() == 0) by {
        assert(s.take(0) =~= Seq::<T>::empty());
    }
    lemma_parse_chunk_suffix(s, 0);
    assert(s.skip(0) =~= s);
}

proof fn lemma_parse_chunk_suffix<T: Data>(s: Seq<T>, k: int)
    requires
        0 <= k <= s.len(),
        forall|i: int| 0 <= i < s.len() ==> T::fits((#[trigger] s[i])@),
    ensures
        parse_entries::<T>(chunk_enc::<T>(s), chunk_enc(s.take(k)).len() as int) == Some(
            models(s.skip(k)),
        ),
    decreases s.len() - k,
{
    let b = chunk_enc::<T>(s);
    if k == s.len() {
        assert(s.take(k) =~= s);
        assert(parse_entries::<T>(b, b.len() as int) == Some(Seq::<T::V>::empty()));
        assert(models(s.skip(k)) =~= Seq::<T::V>::empty());
    } else {
        let v = s[k]@;
        let pre = chunk_enc(s.take(k));
        let e = entry_enc::<T>(v);
        let off = pre.len() as int;
        T::lemma_dims(v);
        T::lemma_round_trip(v);
        lemma_enc_tuple_len(T::dims_of(v));
        lemma_auto_spec_u32_to_from_le_bytes();
        lemma_auto_spec_u64_to_from_le_bytes();
        // decompose the buffer around entry k
        lemma_chunk_enc_snoc(s, k);
        assert(s.take(k + 1) + s.skip(k + 1) =~= s);
        lemma_chunk_enc_concat(s.take(k + 1), s.skip(k + 1));
        assert(b == chunk_enc(s.take(k + 1)) + chunk_enc(s.skip(k + 1)));
        assert(b == pre + e + chunk_enc(s.skip(k + 1))) by {
            assert(chunk_enc(s.take(k + 1)) == pre + e);
        }
        let dlen = 8 * T::dims_of(v).len() as int;
        let plen = T::encoding_of(v).len() as int;
        assert(e.len() == 4 + dlen + 8 + plen);
        assert(off + e.len() <= b.len());
        // version tag
        assert(b.subrange(off, off + 4) =~= e.subrange(0, 4));
        assert(e.subrange(0, 4) =~= enc_u32(T::version_spec()));
        lemma_dec_u32_prefix(b, off, T::version_spec());
        // dimension tuple
        let j1 = off + 4;
        assert(b.subrange(j1, j1 + dlen) =~= e.subrange(4, 4 + dlen));
        assert(e.subrange(4, 4 + dlen) =~= enc_tuple(T::dims_of(v)));
        lemma_dec_tuple_prefix(b, j1, T::dims_of(v));
        // payload
        let j2 = j1 + dlen;
        assert(b.subrange(j2, j2 + 8 + plen) =~= e.subrange(4 + dlen, e.len() as int));
        assert(e.subrange(4 + dlen, e.len() as int) =~= enc_bytes(T::encoding_of(v)));
        lemma_dec_bytes_prefix(b, j2, T::encoding_of(v));
        let j3 = j2 + 8 + plen;
        assert(j3 == off + e.len());
        // the decoded record and the rest of the chunk
        assert(T::decoded(T::version_spec(), T::dims_of(v), T::encoding_of(v)) == Some(v));
        lemma_parse_chunk_suffix(s, k + 1);
        assert(chunk_enc(s.take(k + 1)).len() as int == j3);
        assert(parse_entries::<T>(b, j3) == Some(models(s.skip(k + 1))));
        assert(seq![v] + models(s.skip(k + 1)) =~= models(s.skip(k))) by {
            assert(models(s.skip(k)).len() == s.len() - k);
            assert(forall|i: int|
                0 <= i < s.skip(k).len() ==> (#[trigger] s.skip(k)[i]) == s[k + i]);
            assert(forall|i: int|
                0 <= i < s.skip(k + 1).len() ==> (#[trigger] s.skip(k + 1)[i]) == s[k + 1 + i]);
        }
        assert(parse_entries::<T>(b, off) == Some(models(s.skip(k))));
    }
}

impl<T: Data> World<T> {
    /// The records a chunk holds, in storage order.
    pub closed spec fn chunk_records(self, c: int) -> Seq<T> {
        self.chunks@[c].records@
    }

    /// Number of chunks, as a machine integer.
    pub fn chunk_count(&self) -> (r: usize)
        requires
            self.wf(),
        ensures
            r as int == self.n_chunks(),
    {
        self.chunks.len()
    }

    /// The indices of every chunk with unflushed in-memory changes.
    pub fn dirty_chunks(&self) -> (r: Vec<usize>)
        requires
            self.wf(),
        ensures
            forall|j: int| 0 <= j < r@.len() ==> self.dirty(#[trigger] r@[j] as int),
            forall|c: int| self.dirty(c) ==> exists|j: int| 0 <= j < r@.len() && #[trigger] r@[j] as int == c,
    {
        let n = self.chunks.len();
        let mut out: Vec<usize> = Vec::new();
        let mut c: usize = 0;
        while c < n
            invariant
                c <= n,
                n == self.chunks@.len(),
                forall|j: int| 0 <= j < out@.len() ==> self.dirty(#[trigger] out@[j] as int),
                forall|c2: int|
                    0 <= c2 < c && self.dirty(c2) ==> exists|j: int|
                        0 <= j < out@.len() && #[trigger] out@[j] as int == c2,
            decreases n - c,
        {
            let ghost out_prev = out@;
            let isd = self.chunks[c].dirty;
            if isd {
                out.push(c);
            }
            proof {
                assert(forall|j: int| 0 <= j < out_prev.len() ==> out@[j] == out_prev[j]);
                assert forall|c2: int| 0 <= c2 < c + 1 && self.dirty(c2) implies exists|j: int|
                    0 <= j < out@.len() && #[trigger] out@[j] as int == c2 by {
                    if c2 < c {
                        let j0 = choose|j: int|
                            0 <= j < out_prev.len() && #[trigger] out_prev[j] as int == c2;
                        assert(out@[j0] as int == c2);
                    } else {
                        assert(out@[out@.len() - 1] as int == c2);
                    }
                }
            }
            c += 1;
        }
        out
    }

    /// Serialize one chunk to its durable wire form.  The caller writes the
    /// bytes to the backend and, once the write is durable, clears the dirty
    /// flag with `mark_clean`.
    pub fn encode_chunk(&self, c: usize) -> (r: Vec<u8>)
        requires
            self.wf(),
            (c as int) < self.n_chunks(),
        ensures
            r@ == chunk_enc::<T>(self.chunk_records(c as int)),
            forall|i: int|
                0 <= i < self.chunk_records(c as int).len() ==> T::fits(
                    (#[trigger] self.chunk_records(c as int)[i])@,
                ),
    {
        let ghost rs = self.chunks@[c as int].records@;
        let n = self.chunks[c].records.len();
        let mut buf: Vec<u8> = Vec::new();
        let mut i: usize = 0;
        while i < n
            invariant
                i <= n,
                c < self.chunks@.len(),
                rs == self.chunks@[c as int].records@,
                n == rs.len(),
                buf@ == chunk_enc::<T>(rs.take(i as int)),
                forall|k: int| 0 <= k < i ==> T::fits((#[trigger] rs[k])@),
            decreases n - i,
        {
            let rec = &self.chunks[c].records[i];
            let ghost pre = buf@;
            put_u32(&mut buf, T::version());
            let dims_v = dims_vec(rec);
            put_tuple(&mut buf, &dims_v);
            let payload = rec.encode();
            put_bytes(&mut buf, payload.as_slice());
            proof {
                lemma_chunk_enc_snoc(rs, i as int);
                assert(buf@ =~= pre + entry_enc::<T>(rs[i as int]@));
            }
            i += 1;
        }
        proof {
            assert(rs.take(n as int) =~= rs);
        }
        buf
    }

    /// Record that a chunk's current contents have reached durable storage:
    /// clear its dirty flag and touch nothing else.
    pub fn mark_clean(&mut self, c: usize)
        requires
            old(self).wf(),
            (c as int) < old(self).n_chunks(),
        ensures
            final(self).wf(),
            !final(self).dirty(c as int),
            forall|c2: int| c2 != c ==> final(self).dirty(c2) == old(self).dirty(c2),
            forall|t: Seq<u64>| final(self).spec_find(t) == old(self).spec_find(t),
            forall|t: Seq<u64>| final(self).leased(t) == old(self).leased(t),
            final(self).n_chunks() == old(self).n_chunks(),
            forall|t: Seq<u64>| final(self).chunk_id(t) == old(self).chunk_id(t),
            forall|c2: int|
                0 <= c2 < final(self).n_chunks() ==> final(self).chunk_records(c2) == old(
                    self,
                ).chunk_records(c2),
    {
        let ghost oldw = *self;
        let mut ch = self.chunks.remove(c);
        ch.dirty = false;
        let ghost ch2 = ch;
        self.chunks.insert(c, ch);
        proof {
            assert(self.chunks@ =~= oldw.chunks@.update(c as int, ch2));
            assert(self.bounds_view() == oldw.bounds_view());
            assert forall|t: Seq<u64>| self.spec_find(t) == oldw.spec_find(t) by {
                if t.len() == T::dims_spec() {
                    let cid = oldw.chunk_id(t);
                    assert(self.chunk_id(t) == cid);
                    if 0 <= cid < self.chunks@.len() {
                        assert(self.chunks@[cid].records@ == oldw.chunks@[cid].records@);
                    }
                }
            }
            assert(self.wf());
        }
    }

    /// Load one durable chunk image: decode every entry and insert the
    /// records at their tuples.  An entry whose payload does not decode
    /// under its version tag is skipped — fatal for that record only, as a
    /// corrupt record must not take its healthy neighbours down with it.  A
    /// byte string whose entry framing is broken loads nothing, since no
    /// entry boundary after the damage can be trusted.
    pub fn load_chunk(&mut self, bytes: &[u8]) -> (r: Result<usize, DecodeError>)
        requires
            old(self).wf(),
        ensures
            final(self).wf(),
            final(self).n_chunks() == old(self).n_chunks(),
            forall|t: Seq<u64>| final(self).chunk_id(t) == old(self).chunk_id(t),
            forall|t: Seq<u64>| final(self).leased(t) == old(self).leased(t),
            match r {
                Err(e) => parse_entries::<T>(bytes@, 0) is None && e == DecodeError::Malformed
                    && *final(self) == *old(self),
                Ok(n) => parse_entries::<T>(bytes@, 0) is Some && ({
                    let vs = parse_entries::<T>(bytes@, 0)->0;
                    &&& n == vs.len()
                    &&& forall|i: int|
                        0 <= i < vs.len() ==> final(self).spec_find(
                            T::dims_of(#[trigger] vs[i]),
                        ) is Some
                    &&& forall|t: Seq<u64>|
                        !tuple_of_any::<T>(vs, t) ==> final(self).spec_find(t) == old(
                            self,
                        ).spec_find(t)
                    &&& (models_uniq::<T>(vs) ==> forall|i: int|
                        0 <= i < vs.len() ==> final(self).spec_find(T::dims_of(#[trigger] vs[i]))
                            == Some(vs[i]))
                }),
            },
    {
        let parsed = match parse_chunk_bytes::<T>(bytes) {
            None => {
                return Err(DecodeError::Malformed);
            },
            Some(v) => v,
        };
        let ghost vs = parse_entries::<T>(bytes@, 0)->0;
        let count = parsed.len();
        let mut rest = parsed;
        let ghost oldw = *self;
        while rest.len() != 0
            invariant
                self.wf(),
                rest@.len() <= vs.len(),
                self.n_chunks() == oldw.n_chunks(),
                forall|t: Seq<u64>| self.chunk_id(t) == oldw.chunk_id(t),
                forall|t: Seq<u64>| self.leased(t) == oldw.leased(t),
                forall|j: int|
                    0 <= j < rest@.len() ==> (#[trigger] rest@[j])@ == vs[vs.len() - rest@.len()
                        + j],
                forall|i: int|
                    0 <= i < vs.len() - rest@.len() ==> self.spec_find(
                        T::dims_of(#[trigger] vs[i]),
                    ) is Some,
                forall|t: Seq<u64>|
                    !tuple_of_any::<T>(vs, t) ==> self.spec_find(t) == oldw.spec_find(t),
                models_uniq::<T>(vs) ==> forall|i: int|
                    0 <= i < vs.len() - rest@.len() ==> self.spec_find(
                        T::dims_of(#[trigger] vs[i]),
                    ) == Some(vs[i]),
            decreases rest@.len(),
        {
            let ghost done = vs.len() - rest@.len();
            let rec = rest.remove(0);
            proof {
                assert(rec@ == vs[done]);
                T::lemma_dims(rec@);
            }
            let _prev = self.insert(rec);
            proof {
                assert forall|t: Seq<u64>|
                    !tuple_of_any::<T>(vs, t) implies self.spec_find(t) == oldw.spec_find(t) by {
                    assert(T::dims_of(vs[done]) != t);
                }
                if models_uniq::<T>(vs) {
                    assert forall|i: int| 0 <= i < vs.len() - rest@.len() implies self.spec_find(
                        T::dims_of(#[trigger] vs[i]),
                    ) == Some(vs[i]) by {
                        if i < done {
                            assert(T::dims_of(vs[i]) != T::dims_of(vs[done]));
                        }
                    }
                }
            }
        }
        proof {
            assert(vs.len() - rest@.len() == vs.len());
        }
        Ok(count)
    }
}

/// Parse a chunk image into records, without touching any world.
fn parse_chunk_bytes<T: Data>(bytes: &[u8]) -> (r: Option<Vec<T>>)
    ensures
        r is Some <==> parse_entries::<T>(bytes@, 0) is Some,
        r is Some ==> ({
            let vs = parse_entries::<T>(bytes@, 0)->0;
            &&& (r->0)@.len() == vs.len()
            &&& forall|i: int| 0 <= i < vs.len() ==> ((#[trigger] (r->0)@[i]))@ == vs[i]
        }),
{
    let mut out: Vec<T> = Vec::new();
    let mut pos: usize = 0;
    loop
        invariant
            pos <= bytes@.len(),
            parse_entries::<T>(bytes@, 0) is Some <==> parse_entries::<T>(
                bytes@,
                pos as int,
            ) is Some,
            parse_entries::<T>(bytes@, 0) is Some ==> parse_entries::<T>(bytes@, 0)->0
                == models(out@) + parse_entries::<T>(bytes@, pos as int)->0,
            parse_entries::<T>(bytes@, 0) is Some ==> models(out@).len() + parse_entries::<T>(
                bytes@,
                pos as int,
            )->0.len() == parse_entries::<T>(bytes@, 0)->0.len(),
        decreases bytes@.len() - pos,
    {
        if pos == bytes.len() {
            proof {
                assert(parse_entries::<T>(bytes@, pos as int) == Some(Seq::<T::V>::empty()));
                if parse_entries::<T>(bytes@, 0) is Some {
                    assert(models(out@) + Seq::<T::V>::empty() =~= models(out@));
                }
            }
            return Some(out);
        }
        let step = match take_u32(bytes, pos) {
            None => None,
            Some((ver, j1)) => match take_tuple(bytes, j1, T::dims()) {
                None => None,
                Some((dims, j2)) => match take_bytes(bytes, j2) {
                    None => None,
                    Some((pl, j3)) => Some((ver, dims, pl, j3)),
                },
            },
        };
        match step {
            None => {
                proof {
                    assert(parse_entries::<T>(bytes@, pos as int) is None);
                }
                return None;
            },
            Some((ver, dims, pl, j3)) => {
                match T::decode(ver, &dims, pl.as_slice()) {
                    Err(_) => {
                        proof {
                            let whole = parse_entries::<T>(bytes@, pos as int);
                            let tail = parse_entries::<T>(bytes@, j3 as int);
                            assert(whole is Some <==> tail is Some);
                            if tail is Some {
                                assert(whole->0 == tail->0);
                            }
                        }
                        pos = j3;
                    },
                    Ok(rec) => {
                        let ghost out_prev = out@;
                        out.push(rec);
                        proof {
                            let whole = parse_entries::<T>(bytes@, pos as int);
                            let tail = parse_entries::<T>(bytes@, j3 as int);
                            assert(whole is Some <==> tail is Some);
                            if tail is Some {
                                assert(whole->0 =~= seq![rec@] + tail->0);
                                assert(models(out@) =~= models(out_prev) + seq![rec@]);
                                if parse_entries::<T>(bytes@, 0) is Some {
                                    assert(models(out_prev) + whole->0 =~= models(out@)
                                        + tail->0);
                                }
                            }
                        }
                        pos = j3;
                    },
                }
            },
        }
    }
}

} // verus!

//! The stored form of one routable way.
//!
//! Build and update share it: an update tells whether a way has changed by
//! hashing this record, so the same way must give the same bytes.

use vstd::prelude::*;
use crate::bytes::{fnv, fnv_bytes, FNV_START};
use crate::pbf::wire::{unzigzag_of, varint_at, zigzag_of};
use crate::varint::{
    get_bytes, get_i, get_u, leb_bytes, lemma_number_kept, lemma_signed_kept, lemma_string_kept,
    put_bytes, put_i, put_u, string_at, string_bytes,
};

verus! {

/// The node before node `k`, or zero.
pub open spec fn prior(refs: Seq<i64>, k: int) -> i64 {
    if k <= 0 {
        0
    } else {
        refs[k - 1]
    }
}

/// Neighbouring nodes are near enough for their difference to fit.
pub open spec fn steps_fit(refs: Seq<i64>) -> bool {
    forall|k: int|
        0 <= k < refs.len() ==> i64::MIN <= (#[trigger] refs[k]) - prior(refs, k) <= i64::MAX
}

/// The first `n` nodes, each as its difference from the one before.
pub open spec fn ref_bytes(refs: Seq<i64>, n: int) -> Seq<u8>
    decreases n,
{
    if n <= 0 {
        Seq::empty()
    } else {
        ref_bytes(refs, n - 1) + leb_bytes(
            unzigzag_of((refs[n - 1] - prior(refs, n - 1)) as i64) as nat,
        )
    }
}

/// What a way's cost is made of: its attributes, name and number.
pub open spec fn cost_part(attr: u32, name: Seq<u8>, rf: Seq<u8>) -> Seq<u8> {
    leb_bytes(attr as nat) + string_bytes(name) + string_bytes(rf)
}

/// What its course is made of: its nodes.
pub open spec fn course_part(refs: Seq<i64>) -> Seq<u8> {
    leb_bytes(refs.len()) + ref_bytes(refs, refs.len() as int)
}

pub open spec fn way_record(
    id: u64,
    attr: u32,
    name: Seq<u8>,
    rf: Seq<u8>,
    refs: Seq<i64>,
) -> Seq<u8> {
    leb_bytes(id as nat) + cost_part(attr, name, rf) + course_part(refs)
}

/// Append a list of nodes: how many, then the differences.
pub fn put_refs(b: &mut Vec<u8>, refs: &[i64])
    requires
        steps_fit(refs@),
    ensures
        final(b)@ == old(b)@ + course_part(refs@),
{
    let ghost b0 = b@;
    put_u(b, refs.len() as u64);
    let ghost b1 = b@;
    let mut prev: i64 = 0;
    let mut k: usize = 0;
    assert(b1 + ref_bytes(refs@, 0) =~= b1);
    while k < refs.len()
        invariant
            steps_fit(refs@),
            k <= refs@.len(),
            prev == prior(refs@, k as int),
            b@ == b1 + ref_bytes(refs@, k as int),
        decreases refs@.len() - k,
    {
        let r: i64 = refs[k];
        assert(i64::MIN <= refs@[k as int] - prior(refs@, k as int) <= i64::MAX);
        put_i(b, r - prev);
        assert(b@ =~= b1 + ref_bytes(refs@, k + 1));
        prev = r;
        k += 1;
    }
    assert(b@ =~= b0 + course_part(refs@));
}

/// Append the record of a way.
pub fn encode_way(b: &mut Vec<u8>, id: u64, attr: u32, name: &[u8], rf: &[u8], refs: &[i64])
    requires
        steps_fit(refs@),
    ensures
        final(b)@ == old(b)@ + way_record(id, attr, name@, rf@, refs@),
{
    let ghost b0 = b@;
    put_u(b, id);
    put_u(b, attr as u64);
    put_bytes(b, name);
    put_bytes(b, rf);
    put_refs(b, refs);
    assert(b@ =~= b0 + way_record(id, attr, name@, rf@, refs@));
}

// ------------------------------------------------------------------- reading

/// The front of a record: all but the nodes, with where its parts begin.
pub struct Front {
    pub id: u64,
    pub attr: u64,
    pub name: Seq<u8>,
    pub rf: Seq<u8>,
    /// Where the attributes begin, and where the nodes do.
    pub cost_at: int,
    pub course_at: int,
}

/// The front of the record at `p`.
pub open spec fn front_at(b: Seq<u8>, p: int) -> Option<Front> {
    match varint_at(b, p) {
        None => None,
        Some((id, p1)) => match varint_at(b, p1) {
            None => None,
            Some((attr, p2)) => match string_at(b, p2) {
                None => None,
                Some((name, p3)) => match string_at(b, p3) {
                    None => None,
                    Some((rf, p4)) => Some(
                        Front { id, attr, name, rf, cost_at: p1, course_at: p4 },
                    ),
                },
            },
        },
    }
}

/// `n` nodes from `p` on, and where they end.
pub open spec fn refs_at(b: Seq<u8>, p: int, n: nat, acc: i64) -> Option<(Seq<i64>, int)>
    decreases n,
{
    if n == 0 {
        Some((Seq::empty(), p))
    } else {
        match varint_at(b, p) {
            None => None,
            Some((v, q)) => {
                let x = acc + zigzag_of(v);
                if i64::MIN <= x <= i64::MAX {
                    match refs_at(b, q, (n - 1) as nat, x as i64) {
                        None => None,
                        Some((rest, e)) => Some((seq![x as i64] + rest, e)),
                    }
                } else {
                    None
                }
            },
        }
    }
}

/// The nodes of a record whose list begins at `p`, and where it ends.
pub open spec fn course_at(b: Seq<u8>, p: int) -> Option<(Seq<i64>, int)> {
    match varint_at(b, p) {
        None => None,
        Some((n, q)) => refs_at(b, q, n as nat, 0),
    }
}

/// The front of a record as it is read.
pub struct FrontOf<'a> {
    pub id: u64,
    pub attr: u64,
    pub name: &'a [u8],
    pub rf: &'a [u8],
    pub cost_at: usize,
    pub course_at: usize,
}

impl<'a> FrontOf<'a> {
    pub open spec fn model(&self) -> Front {
        Front {
            id: self.id,
            attr: self.attr,
            name: self.name@,
            rf: self.rf@,
            cost_at: self.cost_at as int,
            course_at: self.course_at as int,
        }
    }
}

pub fn read_front<'a>(b: &'a [u8], p: usize) -> (r: Option<FrontOf<'a>>)
    ensures
        match r {
            None => front_at(b@, p as int) is None,
            Some(f) => front_at(b@, p as int) == Some(f.model()) && p < f.cost_at < f.course_at
                <= b@.len(),
        },
{
    let mut q: usize = p;
    let id: u64 = match get_u(b, &mut q) {
        None => {
            return None;
        },
        Some(x) => x,
    };
    let cost_at: usize = q;
    let attr: u64 = match get_u(b, &mut q) {
        None => {
            return None;
        },
        Some(x) => x,
    };
    let name: &'a [u8] = match get_bytes(b, &mut q) {
        None => {
            return None;
        },
        Some(x) => x,
    };
    let rf: &'a [u8] = match get_bytes(b, &mut q) {
        None => {
            return None;
        },
        Some(x) => x,
    };
    Some(FrontOf { id, attr, name, rf, cost_at, course_at: q })
}

/// Reads a list of nodes, and says where it ends.
pub fn read_course(b: &[u8], p: usize) -> (r: Option<(Vec<i64>, usize)>)
    requires
        p <= b@.len(),
    ensures
        match r {
            None => course_at(b@, p as int) is None,
            Some((v, e)) => course_at(b@, p as int) == Some((v@, e as int)) && p < e <= b@.len(),
        },
{
    let mut q: usize = p;
    let n: u64 = match get_u(b, &mut q) {
        None => {
            return None;
        },
        Some(n) => n,
    };
    let ghost goal = refs_at(b@, q as int, n as nat, 0);
    let mut out: Vec<i64> = Vec::new();
    let mut acc: i64 = 0;
    let mut left: u64 = n;
    proof {
        if let Some((s, e)) = goal {
            assert(out@ + s =~= s);
        }
    }
    while left > 0
        invariant
            p < q <= b@.len(),
            match refs_at(b@, q as int, left as nat, acc) {
                None => goal is None,
                Some((s, e)) => goal == Some((out@ + s, e)),
            },
            goal == course_at(b@, p as int),
        decreases left,
    {
        let v: i64 = match get_i(b, &mut q) {
            None => {
                return None;
            },
            Some(v) => v,
        };
        let x: i64 = match acc.checked_add(v) {
            None => {
                return None;
            },
            Some(x) => x,
        };
        proof {
            if let Some((s, e)) = refs_at(b@, q as int, (left - 1) as nat, x) {
                assert(out@ + (seq![x] + s) =~= out@.push(x) + s);
            }
        }
        out.push(x);
        acc = x;
        left = left - 1;
    }
    assert(out@ + Seq::<i64>::empty() =~= out@);
    Some((out, q))
}

/// Where `n` nodes from `p` on end: they are counted past, not summed.
pub open spec fn skip_refs(b: Seq<u8>, p: int, n: nat) -> Option<int>
    decreases n,
{
    if n == 0 {
        Some(p)
    } else {
        match varint_at(b, p) {
            None => None,
            Some((_, q)) => skip_refs(b, q, (n - 1) as nat),
        }
    }
}

/// Where the record at `p` ends.
#[verifier::opaque]
pub open spec fn record_end(b: Seq<u8>, p: int) -> Option<int> {
    match front_at(b, p) {
        None => None,
        Some(f) => match varint_at(b, f.course_at) {
            None => None,
            Some((n, q)) => skip_refs(b, q, n as nat),
        },
    }
}

/// Advance past one way record without decoding it.
pub fn skip_way(b: &[u8], p: usize) -> (r: Option<usize>)
    ensures
        match r {
            None => record_end(b@, p as int) is None,
            Some(e) => record_end(b@, p as int) == Some(e as int) && p < e <= b@.len(),
        },
{
    reveal(record_end);
    let f: FrontOf = match read_front(b, p) {
        None => {
            return None;
        },
        Some(f) => f,
    };
    let mut q: usize = f.course_at;
    let n: u64 = match get_u(b, &mut q) {
        None => {
            return None;
        },
        Some(n) => n,
    };
    let ghost goal = skip_refs(b@, q as int, n as nat);
    let mut left: u64 = n;
    while left > 0
        invariant
            p < q <= b@.len(),
            goal == skip_refs(b@, q as int, left as nat),
            goal == record_end(b@, p as int),
        decreases left,
    {
        match get_u(b, &mut q) {
            None => {
                return None;
            },
            Some(_) => {},
        }
        left = left - 1;
    }
    Some(q)
}

/// The identity of a way, and its two halves: a hash of what its cost is made
/// of and one of its course.
#[verifier::opaque]
pub open spec fn way_key(rec: Seq<u8>) -> Option<(u64, u64, u64)> {
    match front_at(rec, 0) {
        None => None,
        Some(f) => Some(
            (
                f.id,
                fnv(FNV_START, rec.subrange(f.cost_at, f.course_at)),
                fnv(FNV_START, rec.subrange(f.course_at, rec.len() as int)),
            ),
        ),
    }
}

/// The key of a way, or nothing where the record is broken.
pub fn way_hashes(rec: &[u8]) -> (r: Option<(u64, u64, u64)>)
    ensures
        r == way_key(rec@),
{
    reveal(way_key);
    match read_front(rec, 0) {
        None => None,
        Some(f) => {
            let cost: &[u8] = vstd::slice::slice_subrange(rec, f.cost_at, f.course_at);
            let course: &[u8] = vstd::slice::slice_subrange(rec, f.course_at, rec.len());
            Some((f.id, fnv_bytes(FNV_START, cost), fnv_bytes(FNV_START, course)))
        },
    }
}

// ---------------------------------------------------------------------- laws

proof fn lemma_refs_kept(pre: Seq<u8>, refs: Seq<i64>, k: int, n: nat, rest: Seq<u8>)
    requires
        steps_fit(refs),
        0 <= k,
        k + n == refs.len(),
    ensures
        refs_at(
            pre + ref_bytes(refs, refs.len() as int) + rest,
            (pre.len() + ref_bytes(refs, k).len()) as int,
            n,
            prior(refs, k),
        ) == Some(
            (
                refs.subrange(k, refs.len() as int),
                (pre.len() + ref_bytes(refs, refs.len() as int).len()) as int,
            ),
        ),
    decreases n,
{
    let all = ref_bytes(refs, refs.len() as int);
    let b = pre + all + rest;
    if n == 0 {
        assert(refs.subrange(k, refs.len() as int) =~= Seq::<i64>::empty());
    } else {
        let d = (refs[k] - prior(refs, k)) as i64;
        assert(i64::MIN <= refs[k] - prior(refs, k) <= i64::MAX);
        let s = leb_bytes(unzigzag_of(d) as nat);
        lemma_ref_split(refs, k + 1, refs.len() as int);
        let tail = ref_tail(refs, k + 1, refs.len() as int);
        let pre2 = pre + ref_bytes(refs, k);
        assert(b =~= pre2 + s + (tail + rest));
        lemma_signed_kept(pre2, d, tail + rest);
        assert(ref_bytes(refs, k + 1) == ref_bytes(refs, k) + s);
        lemma_refs_kept(pre, refs, k + 1, (n - 1) as nat, rest);
        assert(refs.subrange(k, refs.len() as int) =~= seq![refs[k]] + refs.subrange(
            k + 1,
            refs.len() as int,
        ));
    }
}

/// The bytes of nodes `k` to `n`.
spec fn ref_tail(refs: Seq<i64>, k: int, n: int) -> Seq<u8>
    decreases n - k,
{
    if n <= k {
        Seq::empty()
    } else {
        ref_tail(refs, k, n - 1) + leb_bytes(
            unzigzag_of((refs[n - 1] - prior(refs, n - 1)) as i64) as nat,
        )
    }
}

proof fn lemma_ref_split(refs: Seq<i64>, k: int, n: int)
    requires
        0 <= k <= n,
    ensures
        ref_bytes(refs, n) == ref_bytes(refs, k) + ref_tail(refs, k, n),
    decreases n - k,
{
    if k < n {
        lemma_ref_split(refs, k, n - 1);
        assert(ref_bytes(refs, n) =~= ref_bytes(refs, k) + ref_tail(refs, k, n));
    } else {
        assert(ref_bytes(refs, n) =~= ref_bytes(refs, k) + ref_tail(refs, k, n));
    }
}

/// A record reads back as it was written, wherever it stands.
#[verifier::spinoff_prover]
#[verifier::rlimit(100)]
pub proof fn lemma_record_kept(
    pre: Seq<u8>,
    id: u64,
    attr: u32,
    name: Seq<u8>,
    rf: Seq<u8>,
    refs: Seq<i64>,
    rest: Seq<u8>,
)
    requires
        steps_fit(refs),
        name.len() <= u64::MAX,
        rf.len() <= u64::MAX,
        refs.len() <= u64::MAX,
    ensures
        ({
            let r = way_record(id, attr, name, rf, refs);
            let b = pre + r + rest;
            let cost_at = (pre.len() + leb_bytes(id as nat).len()) as int;
            let at = cost_at + cost_part(attr, name, rf).len();
            &&& front_at(b, pre.len() as int) == Some(
                Front { id, attr: attr as u64, name, rf, cost_at, course_at: at },
            )
            &&& course_at(b, at) == Some((refs, (pre.len() + r.len()) as int))
            &&& b.subrange(cost_at, at) == cost_part(attr, name, rf)
        }),
{
    let r = way_record(id, attr, name, rf, refs);
    let b = pre + r + rest;
    let (s0, s1, s2, s3) = (
        leb_bytes(id as nat),
        leb_bytes(attr as nat),
        string_bytes(name),
        string_bytes(rf),
    );
    let tail = course_part(refs) + rest;
    let cost = cost_part(attr, name, rf);
    let p4 = pre + s0 + s1 + s2 + s3;
    assert(b == p4 + tail) by {
        assert(b =~= p4 + tail);
    }
    let front = Front {
        id,
        attr: attr as u64,
        name,
        rf,
        cost_at: (pre.len() + s0.len()) as int,
        course_at: (pre.len() + s0.len() + cost.len()) as int,
    };
    assert(front_at(b, pre.len() as int) == Some(front)) by {
        lemma_front_kept(pre, id, attr, name, rf, tail);
    }
    assert(b == p4 + course_part(refs) + rest) by {
        assert(b =~= p4 + course_part(refs) + rest);
    }
    assert(course_at(b, p4.len() as int) == Some(
        (refs, (p4.len() + course_part(refs).len()) as int),
    )) by {
        lemma_course_kept(p4, refs, rest);
    }
    let cost_at = (pre.len() + s0.len()) as int;
    assert(b.subrange(cost_at, cost_at + cost.len()) == cost) by {
        assert(b.subrange(cost_at, cost_at + cost.len()) =~= cost);
    }
    assert(p4.len() == cost_at + cost.len());
    assert(p4.len() + course_part(refs).len() == pre.len() + r.len());
}

#[verifier::spinoff_prover]
pub(crate) proof fn lemma_course_kept(pre: Seq<u8>, refs: Seq<i64>, rest: Seq<u8>)
    requires
        steps_fit(refs),
        refs.len() <= u64::MAX,
    ensures
        course_at(pre + course_part(refs) + rest, pre.len() as int) == Some(
            (refs, (pre.len() + course_part(refs).len()) as int),
        ),
{
    let b = pre + course_part(refs) + rest;
    let s4 = leb_bytes(refs.len());
    let all = ref_bytes(refs, refs.len() as int);
    assert(b == pre + s4 + (all + rest)) by {
        assert(b =~= pre + s4 + (all + rest));
    }
    lemma_number_kept(pre, refs.len() as u64, all + rest);
    let p5 = pre + s4;
    assert(b == p5 + all + rest) by {
        assert(b =~= p5 + all + rest);
    }
    assert(ref_bytes(refs, 0).len() == 0);
    lemma_refs_kept(p5, refs, 0, refs.len(), rest);
    assert(refs.subrange(0, refs.len() as int) =~= refs);
}

#[verifier::spinoff_prover]
proof fn lemma_front_kept(
    pre: Seq<u8>,
    id: u64,
    attr: u32,
    name: Seq<u8>,
    rf: Seq<u8>,
    tail: Seq<u8>,
)
    requires
        name.len() <= u64::MAX,
        rf.len() <= u64::MAX,
    ensures
        ({
            let (s0, s1, s2, s3) = (
                leb_bytes(id as nat),
                leb_bytes(attr as nat),
                string_bytes(name),
                string_bytes(rf),
            );
            let b = pre + s0 + s1 + s2 + s3 + tail;
            front_at(b, pre.len() as int) == Some(
                Front {
                    id,
                    attr: attr as u64,
                    name,
                    rf,
                    cost_at: (pre.len() + s0.len()) as int,
                    course_at: (pre.len() + s0.len() + s1.len() + s2.len() + s3.len()) as int,
                },
            )
        }),
{
    let (s0, s1, s2, s3) = (
        leb_bytes(id as nat),
        leb_bytes(attr as nat),
        string_bytes(name),
        string_bytes(rf),
    );
    let b = pre + s0 + s1 + s2 + s3 + tail;
    let p1 = pre + s0;
    let p2 = p1 + s1;
    let p3 = p2 + s2;
    assert(b == p3 + s3 + tail);
    assert(b == p2 + s2 + (s3 + tail)) by {
        assert(b =~= p2 + s2 + (s3 + tail));
    }
    assert(b == p1 + s1 + (s2 + s3 + tail)) by {
        assert(b =~= p1 + s1 + (s2 + s3 + tail));
    }
    assert(b == pre + s0 + (s1 + s2 + s3 + tail)) by {
        assert(b =~= pre + s0 + (s1 + s2 + s3 + tail));
    }
    lemma_number_kept(pre, id, s1 + s2 + s3 + tail);
    lemma_number_kept(p1, attr as u64, s2 + s3 + tail);
    lemma_string_kept(p2, name, s3 + tail);
    lemma_string_kept(p3, rf, tail);
}

} // verus!

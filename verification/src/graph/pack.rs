//! Smaller integers for what is read most: edge targets as differences, and
//! attributes through a dictionary.

use vstd::prelude::*;
use std::collections::HashMap;
use crate::dataset::{head_ok, unpacked};
use crate::lookup::{keyed, lemma_lookup};

verus! {

/// Store each edge target as a 16-bit difference from its source vertex, with
/// a list of the edges that do not fit.
#[verifier::rlimit(30)]
pub fn pack_targets(head: &[u32], to: &[u32]) -> (r: (Vec<i16>, Vec<(u32, u32)>))
    requires
        head_ok(head@, to@.len() as int),
        head@[0] == 0,
        head@.len() <= u32::MAX,
    ensures
        r.0@.len() == to@.len(),
        keyed(r.1@),
        to@.len() > 0 ==> forall|u: int, k: int|
            0 <= u < head@.len() - 1 && head@[u] <= k < head@[u + 1] ==> #[trigger] unpacked(
                r.0@,
                r.1@,
                Seq::empty(),
                u as u32,
                k,
            ) == to@[k],
        forall|i: int|
            0 <= i < r.1@.len() ==> (#[trigger] r.1@[i]).0 < to@.len() && r.0@[r.1@[i].0 as int]
                == i16::MIN && r.1@[i].1 == to@[r.1@[i].0 as int],
{
    let nv: usize = head.len() - 1;
    let mut d16: Vec<i16> = Vec::new();
    let mut exc: Vec<(u32, u32)> = Vec::new();
    let mut u: usize = 0;
    while u < nv
        invariant
            head_ok(head@, to@.len() as int),
            head@[0] == 0,
            nv == head@.len() - 1,
            nv < u32::MAX,
            u <= nv,
            d16@.len() == head@[u as int],
            packed_to(head@, to@, d16@, exc@, u as int),
        decreases nv - u,
    {
        assert(head@[u as int] <= head@[u + 1] <= head@[nv as int]);
        let e: usize = head[u + 1] as usize;
        while d16.len() < e
            invariant
                head_ok(head@, to@.len() as int),
                nv == head@.len() - 1,
                nv < u32::MAX,
                u < nv,
                e == head@[u + 1],
                e <= to@.len(),
                head@[u as int] <= d16@.len() <= e,
                packed_to(head@, to@, d16@, exc@, u as int),
                forall|k: int|
                    head@[u as int] <= k < d16@.len() ==> #[trigger] told(
                        to@,
                        d16@,
                        exc@,
                        u as int,
                        k,
                    ),
            decreases e - d16@.len(),
        {
            let k: usize = d16.len();
            let d: i64 = to[k] as i64 - u as i64;
            let ghost (d0, e0) = (d16@, exc@);
            if d > i16::MIN as i64 && d <= i16::MAX as i64 {
                d16.push(d as i16);
            } else {
                d16.push(i16::MIN);
                exc.push((k as u32, to[k]));
            }
            proof {
                assert(d16@.drop_last() =~= d0);
                if exc@ != e0 {
                    assert(exc@.drop_last() =~= e0);
                }
                lemma_kept(head@, to@, d0, e0, d16@, exc@, u as int);
                assert forall|x: int| head@[u as int] <= x < d16@.len() implies #[trigger] told(
                    to@,
                    d16@,
                    exc@,
                    u as int,
                    x,
                ) by {
                    if x < k {
                        assert(told(to@, d0, e0, u as int, x));
                        lemma_told(to@, d0, e0, d16@, exc@, u as int, x);
                    } else if d16@[k as int] == i16::MIN {
                        assert(exc@[e0.len() as int] == (k as u32, to@[k as int]));
                    }
                }
            }
        }
        u += 1;
    }
    proof {
        assert forall|w: int, k: int|
            0 <= w < head@.len() - 1 && head@[w] <= k < head@[w + 1] implies #[trigger] unpacked(
            d16@,
            exc@,
            Seq::empty(),
            w as u32,
            k,
        ) == to@[k] by {
            assert(head@[w + 1] <= head@[nv as int]);
            assert(told(to@, d16@, exc@, w, k));
            if d16@[k] == i16::MIN {
                let i = choose|i: int| 0 <= i < exc@.len() && #[trigger] exc@[i] == (
                    k as u32,
                    to@[k],
                );
                lemma_lookup(exc@, i);
            }
        }
    }
    (d16, exc)
}

/// The difference, or the exception, of edge `k` gives its target.
spec fn told(to: Seq<u32>, d16: Seq<i16>, exc: Seq<(u32, u32)>, u: int, k: int) -> bool {
    if d16[k] == i16::MIN {
        exists|i: int| 0 <= i < exc.len() && #[trigger] exc[i] == (k as u32, to[k])
    } else {
        u + d16[k] == to[k]
    }
}

spec fn packed_to(
    head: Seq<u32>,
    to: Seq<u32>,
    d16: Seq<i16>,
    exc: Seq<(u32, u32)>,
    u: int,
) -> bool {
    &&& keyed(exc)
    &&& forall|i: int|
        0 <= i < exc.len() ==> (#[trigger] exc[i]).0 < d16.len() && d16[exc[i].0 as int]
            == i16::MIN && exc[i].1 == to[exc[i].0 as int]
    &&& forall|w: int, k: int|
        0 <= w < u && head[w] <= k < head[w + 1] ==> #[trigger] told(to, d16, exc, w, k)
}

proof fn lemma_told(
    to: Seq<u32>,
    d0: Seq<i16>,
    e0: Seq<(u32, u32)>,
    d1: Seq<i16>,
    e1: Seq<(u32, u32)>,
    u: int,
    k: int,
)
    requires
        told(to, d0, e0, u, k),
        0 <= k < d0.len(),
        d1.len() == d0.len() + 1,
        d1.drop_last() == d0,
        e1 == e0 || (e1.len() == e0.len() + 1 && e1.drop_last() == e0),
    ensures
        told(to, d1, e1, u, k),
{
    assert(d1[k] == d1.drop_last()[k]);
    if d0[k] == i16::MIN {
        let i = choose|i: int| 0 <= i < e0.len() && #[trigger] e0[i] == (k as u32, to[k]);
        if e1 != e0 {
            assert(e1.drop_last()[i] == e1[i]);
        }
        assert(e1[i] == (k as u32, to[k]));
    }
}

proof fn lemma_kept(
    head: Seq<u32>,
    to: Seq<u32>,
    d0: Seq<i16>,
    e0: Seq<(u32, u32)>,
    d1: Seq<i16>,
    e1: Seq<(u32, u32)>,
    u: int,
)
    requires
        packed_to(head, to, d0, e0, u),
        head_ok(head, to.len() as int),
        0 <= u < head.len() - 1,
        head[u] <= d0.len() < to.len() <= u32::MAX,
        d1.len() == d0.len() + 1,
        d1.drop_last() == d0,
        if d1.last() == i16::MIN {
            e1 == e0.push((d0.len() as u32, to[d0.len() as int]))
        } else {
            e1 == e0
        },
    ensures
        packed_to(head, to, d1, e1, u),
{
    if d1.last() == i16::MIN {
        assert(e1.drop_last() =~= e0);
    }
    assert forall|w: int, k: int|
        0 <= w < u && head[w] <= k < head[w + 1] implies #[trigger] told(to, d1, e1, w, k) by {
        assert(head[w + 1] <= head[u]);
        assert(told(to, d0, e0, w, k));
        lemma_told(to, d0, e0, d1, e1, w, k);
    }
    assert forall|i: int| 0 <= i < e1.len() implies (#[trigger] e1[i]).0 < d1.len()
        && d1[e1[i].0 as int] == i16::MIN && e1[i].1 == to[e1[i].0 as int] by {
        if i < e0.len() {
            assert(e0[i] == e1[i]);
            assert(d1[e1[i].0 as int] == d1.drop_last()[e1[i].0 as int]);
        }
    }
    assert(keyed(e1)) by {
        assert forall|i: int, j: int| 0 <= i < j < e1.len() implies (#[trigger] e1[i]).0 < (
        #[trigger] e1[j]).0 by {
            assert(e0[i] == e1[i]);
            if j < e0.len() {
                assert(e0[j] == e1[j]);
            }
        }
    }
}

/// The values among the first `n`, each once, in the order in which they come
/// up.
pub open spec fn distinct(vals: Seq<u32>, n: int) -> Seq<u32>
    decreases n,
{
    if n <= 0 {
        Seq::empty()
    } else {
        let d = distinct(vals, n - 1);
        if d.contains(vals[n - 1]) {
            d
        } else {
            d.push(vals[n - 1])
        }
    }
}

/// The values that occur are each listed once, and every one of them is.
pub proof fn lemma_distinct(vals: Seq<u32>, n: int)
    requires
        0 <= n <= vals.len(),
    ensures
        distinct(vals, n).no_duplicates(),
        distinct(vals, n).len() <= n,
        forall|i: int| 0 <= i < n ==> distinct(vals, n).contains(#[trigger] vals[i]),
    decreases n,
{
    if n > 0 {
        lemma_distinct(vals, n - 1);
        let d = distinct(vals, n - 1);
        assert forall|i: int| 0 <= i < n implies distinct(vals, n).contains(#[trigger] vals[i]) by {
            if i < n - 1 {
                let x = d.index_of(vals[i]);
                assert(d[x] == vals[i]);
                assert(distinct(vals, n)[x] == vals[i]);
            } else if !d.contains(vals[n - 1]) {
                assert(distinct(vals, n)[d.len() as int] == vals[n - 1]);
            }
        }
    }
}

proof fn lemma_distinct_grows(vals: Seq<u32>, m: int, n: int)
    requires
        0 <= m <= n <= vals.len(),
    ensures
        distinct(vals, m).len() <= distinct(vals, n).len(),
    decreases n - m,
{
    if m < n {
        lemma_distinct_grows(vals, m, n - 1);
    }
}

/// Replace the attribute word by a 16-bit index into a table of the values
/// that occur, or nothing where there are too many.
pub fn build_attr_dict(attr: &[u32]) -> (r: Option<(Vec<u16>, Vec<u32>)>)
    ensures
        match r {
            None => distinct(attr@, attr@.len() as int).len() > 65536,
            Some((idx, dict)) => {
                &&& dict@ == distinct(attr@, attr@.len() as int)
                &&& dict@.len() <= 65536
                &&& idx@.len() == attr@.len()
                &&& forall|i: int|
                    0 <= i < attr@.len() ==> (#[trigger] idx@[i]) < dict@.len()
                        && dict@[idx@[i] as int] == attr@[i]
            },
        },
{
    broadcast use vstd::std_specs::hash::group_hash_axioms;

    let mut map: HashMap<u32, u16> = HashMap::new();
    let mut dict: Vec<u32> = Vec::new();
    let mut idx: Vec<u16> = Vec::new();
    while idx.len() < attr.len()
        invariant
            idx@.len() <= attr@.len(),
            dict@ == distinct(attr@, idx@.len() as int),
            dict@.len() <= 65536,
            forall|i: int|
                0 <= i < idx@.len() ==> (#[trigger] idx@[i]) < dict@.len() && dict@[idx@[i] as int]
                    == attr@[i],
            forall|a: u32|
                #[trigger] map@.contains_key(a) ==> map@[a] < dict@.len() && dict@[map@[a] as int]
                    == a,
            forall|i: int| 0 <= i < dict@.len() ==> map@.contains_key(#[trigger] dict@[i]),
        decreases attr@.len() - idx@.len(),
    {
        let a: u32 = attr[idx.len()];
        let ghost (i0, d0, m0) = (idx@, dict@, map@);
        let known: Option<u16> = match map.get(&a) {
            Some(v) => Some(*v),
            None => None,
        };
        let id: u16 = match known {
            Some(v) => {
                assert(m0.contains_key(a));
                assert(d0[v as int] == a);
                v
            },
            None => {
                proof {
                    if d0.contains(a) {
                        let x = d0.index_of(a);
                        assert(m0.contains_key(d0[x]));
                    }
                }
                if dict.len() > 65535 {
                    proof {
                        lemma_distinct_grows(attr@, i0.len() as int + 1, attr@.len() as int);
                    }
                    return None;
                }
                let v: u16 = dict.len() as u16;
                dict.push(a);
                map.insert(a, v);
                proof {
                    assert forall|b: u32| #[trigger] map@.contains_key(b) implies map@[b]
                        < dict@.len() && dict@[map@[b] as int] == b by {
                        if b != a {
                            assert(m0.contains_key(b));
                        }
                    }
                    assert forall|i: int| 0 <= i < dict@.len() implies map@.contains_key(
                        #[trigger] dict@[i],
                    ) by {
                        if i < d0.len() {
                            assert(m0.contains_key(d0[i]));
                        }
                    }
                }
                v
            },
        };
        idx.push(id);
    }
    Some((idx, dict))
}

} // verus!

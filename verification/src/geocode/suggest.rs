//! Street names that begin with what was typed.

use vstd::prelude::*;
use vstd::string::StringExecFns;
use vstd::utf8::encode_utf8;
use crate::addresses::words::{norm_of, norm_query};
use crate::geocode::index::{pool, pool_text, Geocoder};
use crate::geocode::order::{is_prefix, lemma_prefix_le, lemma_text_total, text_lt};
use crate::text::{bytes_eq, str_eq};

verus! {

pub open spec fn views(v: Seq<String>) -> Seq<Seq<char>> {
    Seq::new(v.len(), |i: int| v[i]@)
}

/// The names of the streets from place `k` on, as long as they begin with `q`:
/// each once, and no more once there are `limit`.
pub open spec fn listed(
    g: Geocoder,
    q: Seq<u8>,
    k: int,
    limit: int,
    out: Seq<Seq<char>>,
) -> Seq<Seq<char>>
    decreases g.street_sorted@.len() - k,
{
    if k >= g.street_sorted@.len() || !is_prefix(q, g.name(k)) {
        out
    } else {
        match pool_text(g.street_pool@, g.street_off@, g.street_sorted@[k]) {
            Some(s) if !out.contains(s) => {
                let more = out.push(s);
                if more.len() >= limit {
                    more
                } else {
                    listed(g, q, k + 1, limit, more)
                }
            },
            _ => listed(g, q, k + 1, limit, out),
        }
    }
}

/// The first street from place `k` on whose name does not come before `q`.
pub open spec fn first_from(g: Geocoder, q: Seq<u8>, k: int) -> int
    decreases g.street_sorted@.len() - k,
{
    if k >= g.street_sorted@.len() || !text_lt(g.name(k), q) {
        k
    } else {
        first_from(g, q, k + 1)
    }
}

pub open spec fn suggestions(g: Geocoder, q: Seq<u8>, limit: int) -> Seq<Seq<char>> {
    if q.len() == 0 {
        Seq::empty()
    } else {
        listed(g, q, first_from(g, q, 0), limit, Seq::empty())
    }
}

/// What is suggested for a text.
pub open spec fn suggested(
    g: Geocoder,
    text: Seq<char>,
    limit: int,
    out: Seq<Seq<char>>,
) -> bool {
    out == suggestions(g, encode_utf8(norm_of(text)), limit)
}

proof fn lemma_first(g: Geocoder, q: Seq<u8>, k: int, r: int)
    requires
        0 <= k <= r <= g.street_sorted@.len(),
        forall|j: int| 0 <= j < g.street_sorted@.len() ==> (j < r <==> text_lt(
            #[trigger] g.name(j),
            q,
        )),
    ensures
        first_from(g, q, k) == r,
    decreases r - k,
{
    if k < r {
        assert(text_lt(g.name(k), q));
        lemma_first(g, q, k + 1, r);
    } else if k < g.street_sorted@.len() {
        assert(!text_lt(g.name(k), q));
    }
}

/// Every street whose name begins with `q` stands where the search begins or
/// after it.
pub proof fn lemma_none_before(g: Geocoder, q: Seq<u8>, k: int)
    requires
        g.names_ok(),
        0 <= k < g.street_sorted@.len(),
        is_prefix(q, g.name(k)),
    ensures
        first_from(g, q, 0) <= k,
{
    lemma_prefix_le(q, g.name(k));
    lemma_text_total(q, g.name(k));
    lemma_first_up(g, q, 0, k);
}

proof fn lemma_first_up(g: Geocoder, q: Seq<u8>, i: int, k: int)
    requires
        0 <= i <= k < g.street_sorted@.len(),
        !text_lt(g.name(k), q),
    ensures
        first_from(g, q, i) <= k,
    decreases k - i,
{
    if i < k {
        lemma_first_up(g, q, i + 1, k);
    }
}

fn begins(s: &[u8], q: &[u8]) -> (r: bool)
    ensures
        r == is_prefix(q@, s@),
{
    q.len() <= s.len() && bytes_eq(vstd::slice::slice_subrange(s, 0, q.len()), q)
}

fn has_text(v: &Vec<String>, s: &str) -> (r: bool)
    ensures
        r == views(v@).contains(s@),
{
    let mut i: usize = 0;
    while i < v.len()
        invariant
            i <= v@.len(),
            forall|j: int| 0 <= j < i ==> (#[trigger] v@[j])@ != s@,
        decreases v@.len() - i,
    {
        if str_eq(v[i].as_str(), s) {
            assert(views(v@)[i as int] == s@);
            return true;
        }
        i += 1;
    }
    proof {
        if views(v@).contains(s@) {
            let j = views(v@).index_of(s@);
            assert(v@[j]@ == s@);
        }
    }
    false
}

impl<'a> Geocoder<'a> {
    /// Streets whose normalised name begins with what was typed.
    pub fn suggest(&self, text: &str, limit: usize) -> (out: Vec<String>)
        requires
            self.names_ok(),
        ensures
            suggested(*self, text@, limit as int, views(out@)),
    {
        let q: Vec<u8> = norm_query(text);
        let mut out: Vec<String> = Vec::new();
        assert(views(out@) =~= Seq::empty());
        if q.len() == 0 {
            return out;
        }
        let n: usize = self.street_sorted.len();
        let lo: usize = self.first_name(q.as_slice());
        proof {
            lemma_first(*self, q@, 0, lo as int);
        }
        let ghost goal = suggestions(*self, q@, limit as int);
        let mut k: usize = lo;
        while k < n
            invariant_except_break
                listed(*self, q@, k as int, limit as int, views(out@)) == goal,
            invariant
                self.names_ok(),
                n == self.street_sorted@.len(),
                k <= n,
            ensures
                views(out@) == goal,
            decreases n - k,
        {
            if !begins(self.norm_at(k), q.as_slice()) {
                break;
            }
            if let Some(s) = pool(self.street_pool, self.street_off, self.street_sorted[k]) {
                if !has_text(&out, s) {
                    let ghost o = views(out@);
                    out.push(String::from_str(s));
                    assert(views(out@) =~= o.push(s@));
                    if out.len() >= limit {
                        break;
                    }
                }
            }
            k += 1;
        }
        out
    }
}

} // verus!

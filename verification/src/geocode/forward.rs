//! A street and a number give a place.

use vstd::prelude::*;
use vstd::utf8::encode_utf8;
use crate::addresses::words::{hn_number, hn_of, norm_of, norm_query, normalize};
use crate::geocode::index::{or_empty, partition_point, pool, pool_text, Geocoder, Hit};
use crate::ranking::{rank_by, ranked, Ranking};
use crate::text::str_eq;

verus! {

/// What is asked for: the number as it was written and as it counts, and the
/// city or postcode.
pub struct Ask {
    pub number: Seq<char>,
    pub want: u32,
    pub city: Option<Seq<char>>,
}

pub open spec fn gap(a: u32, b: u32) -> int {
    if a < b {
        b - a
    } else {
        a - b
    }
}

fn find_gap(a: u32, b: u32) -> (r: u32)
    ensures
        r == gap(a, b),
{
    if a < b {
        b - a
    } else {
        a - b
    }
}

/// The first position from `x` up to `b` whose number is not below `want`.
pub open spec fn first_not_below(g: Geocoder, want: u32, x: int, b: int) -> int
    decreases b - x,
{
    if x >= b || g.num(x) >= want {
        x
    } else {
        first_not_below(g, want, x + 1, b)
    }
}

/// The first position from `x` up to `b` with the number asked for, written as
/// it was asked for; or `other`.
pub open spec fn written_alike(g: Geocoder, ask: Ask, x: int, b: int, other: int) -> int
    decreases b - x,
{
    if x >= b {
        other
    } else if g.num(x) == ask.want && norm_of(
        or_empty(pool_text(g.hn_pool@, g.hn_off@, g.hn@[g.fwd_idx@[x] as int])),
    ) == norm_of(ask.number) {
        x
    } else {
        written_alike(g, ask, x + 1, b, other)
    }
}

/// The position that answers within a span, and whether it has the number asked
/// for.
pub open spec fn choice(g: Geocoder, ask: Ask, a: int, b: int) -> (int, bool) {
    let pos = first_not_below(g, ask.want, a, b);
    let first = if ask.number.len() == 0 {
        a
    } else if pos < b - 1 {
        pos
    } else {
        b - 1
    };
    let exact = g.num(first) == ask.want && ask.number.len() > 0;
    if exact {
        (written_alike(g, ask, a, b, first), true)
    } else if pos > a && gap(ask.want, g.num(pos - 1)) <= gap(ask.want, g.num(first)) {
        (pos - 1, false)
    } else {
        (first, false)
    }
}

pub open spec fn text_matches(t: Option<Seq<char>>, q: Seq<char>) -> bool {
    t matches Some(s) && norm_of(s) == q
}

/// A group lies in the city or has the postcode asked for.
pub open spec fn in_city(g: Geocoder, ask: Ask, gi: int) -> bool {
    match ask.city {
        None => true,
        Some(q) => {
            let p = g.group_place(gi);
            text_matches(
                pool_text(g.city_pool@, g.city_off@, g.place_tab@[2 * p as int]),
                q,
            ) || text_matches(pool_text(g.pc_pool@, g.pc_off@, g.place_tab@[2 * p + 1]), q)
        },
    }
}

/// An address found, and whether it is a neighbour's.
pub struct Find {
    pub at: int,
    pub approximate: bool,
}

pub open spec fn find_in(g: Geocoder, ask: Ask, gi: int) -> Find {
    let (x, exact) = choice(g, ask, g.group_start(gi), g.group_start(gi + 1));
    Find { at: g.fwd_idx@[x] as int, approximate: !exact }
}

/// One find for each group from `gi` up to `hi` that fits, until there are
/// `most`.
pub open spec fn group_finds(
    g: Geocoder,
    ask: Ask,
    gi: int,
    hi: int,
    most: int,
    out: Seq<Find>,
) -> Seq<Find>
    decreases hi - gi,
{
    if gi >= hi {
        out
    } else if !in_city(g, ask, gi) || g.group_start(gi) >= g.group_start(gi + 1) {
        group_finds(g, ask, gi + 1, hi, most, out)
    } else {
        let more = out.push(find_in(g, ask, gi));
        if more.len() >= most {
            more
        } else {
            group_finds(g, ask, gi + 1, hi, most, more)
        }
    }
}

/// The first group from `gi` on with a street number not below `sid`.
pub open spec fn group_from(g: Geocoder, sid: int, gi: int) -> int
    decreases g.groups() - gi,
{
    if gi >= g.groups() || g.group_street(gi) >= sid {
        gi
    } else {
        group_from(g, sid, gi + 1)
    }
}

pub open spec fn street_finds(
    g: Geocoder,
    ask: Ask,
    k: int,
    hi: int,
    most: int,
    out: Seq<Find>,
) -> Seq<Find>
    decreases hi - k,
{
    if k >= hi {
        out
    } else {
        let sid = g.street_sorted@[k] as int;
        let more = group_finds(
            g,
            ask,
            group_from(g, sid, 0),
            group_from(g, sid + 1, 0),
            most,
            out,
        );
        street_finds(g, ask, k + 1, hi, most, more)
    }
}

/// The first street from `k` on, in the order of names, that is called `q`, and
/// the first after it that is not.
pub open spec fn called_from(g: Geocoder, q: Seq<u8>, k: int) -> int
    decreases g.street_sorted@.len() - k,
{
    if k >= g.street_sorted@.len() || g.name(k) == q {
        k
    } else {
        called_from(g, q, k + 1)
    }
}

pub open spec fn called_to(g: Geocoder, q: Seq<u8>, k: int) -> int
    decreases g.street_sorted@.len() - k,
{
    if k >= g.street_sorted@.len() || g.name(k) != q {
        k
    } else {
        called_to(g, q, k + 1)
    }
}

/// All finds, in the order of streets and groups.
pub open spec fn finds(g: Geocoder, street: Seq<char>, ask: Ask, limit: int) -> Seq<Find> {
    let q = encode_utf8(norm_of(street));
    let lo = called_from(g, q, 0);
    street_finds(g, ask, lo, called_to(g, q, lo), 4 * limit, Seq::empty())
}

/// Finds rank by whether they are exact, then by how far off the number is.
pub open spec fn rank_key(g: Geocoder, ask: Ask, f: Find) -> u64 {
    let n = hn_of(or_empty(pool_text(g.hn_pool@, g.hn_off@, g.hn@[f.at])));
    ((if f.approximate {
        0x1_0000_0000int
    } else {
        0
    }) + gap(n, ask.want)) as u64
}

pub open spec fn rank_keys(g: Geocoder, ask: Ask, s: Seq<Find>) -> Seq<u64> {
    Seq::new(s.len(), |i: int| rank_key(g, ask, s[i]))
}

/// The best of the finds, in their order.
pub open spec fn best(
    g: Geocoder,
    ask: Ask,
    s: Seq<Find>,
    limit: int,
    rank: Ranking,
    out: Seq<Hit>,
) -> bool {
    &&& ranked(rank_keys(g, ask, s), rank)
    &&& out.len() == if s.len() < limit {
        s.len() as int
    } else {
        limit
    }
    &&& forall|x: int|
        0 <= x < out.len() ==> {
            let f = s[rank.order@[x] as int];
            g.shows(#[trigger] out[x], f.at, f.approximate)
        }
}

/// What a number and perhaps a city ask for.
pub open spec fn asked(number: Seq<char>, city: Option<&str>) -> Ask {
    Ask {
        number,
        want: hn_of(number),
        city: match city {
            None => None,
            Some(c) => Some(norm_of(c@)),
        },
    }
}

/// The best of all finds.
pub open spec fn answered(
    g: Geocoder,
    street: Seq<char>,
    ask: Ask,
    limit: int,
    out: Seq<Hit>,
) -> bool {
    exists|rank: Ranking| #[trigger] best(g, ask, finds(g, street, ask, limit), limit, rank, out)
}

proof fn lemma_group_from(g: Geocoder, sid: int, gi: int, r: int)
    requires
        0 <= gi <= r <= g.groups(),
        forall|j: int| gi <= j < r ==> (#[trigger] g.group_street(j)) < sid,
        r < g.groups() ==> g.group_street(r) >= sid,
    ensures
        group_from(g, sid, gi) == r,
    decreases r - gi,
{
    if gi < r {
        assert(g.group_street(gi) < sid);
        lemma_group_from(g, sid, gi + 1, r);
    }
}

proof fn lemma_groups(g: Geocoder, sid: u32, lo: int, hi: int)
    requires
        g.groups_ok(),
        0 <= lo <= hi <= g.groups(),
        forall|j: int|
            0 <= j < g.groups() ==> (lo <= j < hi <==> #[trigger] g.group_street(j) == sid),
    ensures
        group_finds_same(g, sid, lo, hi),
{
    let a = group_from(g, sid as int, 0);
    lemma_from_bound(g, sid as int, 0);
    lemma_from_bound(g, sid + 1, 0);
    let b = group_from(g, sid + 1, 0);
    if lo < hi {
        assert forall|j: int| 0 <= j < lo implies (#[trigger] g.group_street(j)) < sid by {
            assert(g.group_street(j) <= g.group_street(lo));
        }
        lemma_group_from(g, sid as int, 0, lo);
        assert forall|j: int| 0 <= j < hi implies (#[trigger] g.group_street(j)) < sid + 1 by {
            assert(g.group_street(j) <= g.group_street(hi - 1));
        }
        if hi < g.groups() {
            assert(g.group_street(hi - 1) <= g.group_street(hi));
        }
        lemma_group_from(g, sid + 1, 0, hi);
    } else {
        assert forall|j: int| 0 <= j < a implies (#[trigger] g.group_street(j)) < sid + 1 by {}
        if a < g.groups() {
            assert(g.group_street(a) != sid);
        }
        lemma_group_from(g, sid + 1, 0, a);
    }
}

spec fn group_finds_same(g: Geocoder, sid: u32, lo: int, hi: int) -> bool {
    let a = group_from(g, sid as int, 0);
    let b = group_from(g, sid + 1, 0);
    (lo < hi ==> a == lo && b == hi) && (lo == hi ==> a == b)
}

proof fn lemma_from_bound(g: Geocoder, sid: int, gi: int)
    requires
        0 <= gi <= g.groups(),
    ensures
        gi <= group_from(g, sid, gi) <= g.groups(),
        forall|j: int| gi <= j < group_from(g, sid, gi) ==> (#[trigger] g.group_street(j)) < sid,
        group_from(g, sid, gi) < g.groups() ==> g.group_street(group_from(g, sid, gi)) >= sid,
    decreases g.groups() - gi,
{
    if gi < g.groups() && g.group_street(gi) < sid {
        lemma_from_bound(g, sid, gi + 1);
    }
}

proof fn lemma_called(g: Geocoder, q: Seq<u8>, k: int, lo: int, hi: int)
    requires
        0 <= k <= hi <= g.street_sorted@.len(),
        0 <= lo <= hi,
        forall|j: int|
            0 <= j < g.street_sorted@.len() ==> (lo <= j < hi <==> #[trigger] g.name(j) == q),
    ensures
        k >= lo ==> called_to(g, q, k) == hi,
        k <= lo && lo < hi ==> called_from(g, q, k) == lo,
        lo == hi ==> called_from(g, q, k) == g.street_sorted@.len(),
    decreases g.street_sorted@.len() - k,
{
    let n = g.street_sorted@.len() as int;
    if k < hi {
        assert(g.name(k) == q <==> lo <= k < hi);
        lemma_called(g, q, k + 1, lo, hi);
    } else if k < n {
        assert(g.name(k) != q);
        if lo == hi {
            lemma_uncalled(g, q, k);
        }
    }
}

proof fn lemma_uncalled(g: Geocoder, q: Seq<u8>, k: int)
    requires
        0 <= k <= g.street_sorted@.len(),
        forall|j: int| 0 <= j < g.street_sorted@.len() ==> #[trigger] g.name(j) != q,
    ensures
        called_from(g, q, k) == g.street_sorted@.len(),
    decreases g.street_sorted@.len() - k,
{
    if k < g.street_sorted@.len() {
        assert(g.name(k) != q);
        lemma_uncalled(g, q, k + 1);
    }
}

proof fn lemma_not_below(g: Geocoder, gi: int, want: u32, x: int, b: int, r: int)
    requires
        g.numbers_ok(),
        0 <= gi < g.groups(),
        g.group_start(gi) <= x <= r <= b,
        b == g.group_start(gi + 1),
        r > x ==> g.num(r - 1) < want,
        r < b ==> g.num(r) >= want,
    ensures
        first_not_below(g, want, x, b) == r,
    decreases r - x,
{
    if x < r {
        assert(g.in_order(gi, x, r - 1));
        lemma_not_below(g, gi, want, x + 1, b, r);
    }
}

fn matches_text(t: Option<&str>, q: &str) -> (r: bool)
    ensures
        r == text_matches(
            match t {
                None => None,
                Some(s) => Some(s@),
            },
            q@,
        ),
{
    match t {
        None => false,
        Some(s) => {
            let n: String = normalize(s);
            str_eq(n.as_str(), q)
        },
    }
}

/// A find as it is kept while searching.
#[derive(Clone, Copy)]
pub struct Spot {
    pub at: usize,
    pub approximate: bool,
}

pub open spec fn spots(v: Seq<Spot>) -> Seq<Find> {
    Seq::new(v.len(), |i: int| Find { at: v[i].at as int, approximate: v[i].approximate })
}

pub open spec fn in_reach(g: Geocoder, v: Seq<Spot>) -> bool {
    forall|i: int| 0 <= i < v.len() ==> (#[trigger] v[i]).at < g.coord@.len()
}

impl<'a> Geocoder<'a> {
    fn num_at(&self, x: usize) -> (n: u32)
        requires
            self.points_ok(),
            x < self.fwd_idx@.len(),
        ensures
            n == self.num(x as int),
    {
        assert(self.fwd_idx@[x as int] < self.coord@.len());
        let i: usize = self.fwd_idx[x] as usize;
        assert(self.hn@[i as int] < self.hn_num@.len());
        self.hn_num[self.hn[i] as usize]
    }

    /// Whether a group lies where it was asked for.
    fn fits(&self, gi: usize, city: &Option<String>, Ghost(ask): Ghost<Ask>) -> (r: bool)
        requires
            self.groups_ok(),
            gi < self.groups(),
            ask.city == (match *city {
                None => None,
                Some(s) => Some(s@),
            }),
        ensures
            r == in_city(*self, ask, gi as int),
    {
        match city {
            None => true,
            Some(q) => {
                let (_, p, _, _): (u32, u32, usize, usize) = self.group_span(gi);
                assert(2 * self.group_place(gi as int) + 1 < self.place_tab@.len());
                let total: usize = self.place_tab.len();
                assert(2 * p + 1 < total);
                let c: u32 = self.place_tab[2 * p as usize];
                let z: u32 = self.place_tab[2 * p as usize + 1];
                matches_text(pool(self.city_pool, self.city_off, c), q.as_str()) || matches_text(
                    pool(self.pc_pool, self.pc_off, z),
                    q.as_str(),
                )
            },
        }
    }

    /// Chooses within a group.
    #[verifier::rlimit(40)]
    fn choose_in(&self, gi: usize, number: &str, want: u32, Ghost(ask): Ghost<Ask>) -> (r: (
        usize,
        bool,
    ))
        requires
            self.wf(),
            gi < self.groups(),
            self.group_start(gi as int) < self.group_start(gi + 1),
            ask.number == number@,
            ask.want == want,
        ensures
            (r.0 as int, r.1) == choice(
                *self,
                ask,
                self.group_start(gi as int),
                self.group_start(gi + 1),
            ),
            r.0 < self.fwd_idx@.len(),
    {
        let (_, _, a, b): (u32, u32, usize, usize) = self.group_span(gi);
        let total: usize = self.fwd_idx.len();
        let off: usize = partition_point(b - a, |i: usize| -> (r: bool)
            requires
                self.points_ok(),
                a + i < total,
                total == self.fwd_idx@.len(),
            ensures
                r == (self.num(a + i) < want),
            { self.num_at(a + i) < want });
        let pos: usize = a + off;
        proof {
            lemma_not_below(*self, gi as int, want, a as int, b as int, pos as int);
        }
        let blank: bool = str_eq(number, "");
        proof {
            reveal_strlit("");
            assert(""@ =~= Seq::<char>::empty());
            assert(number@.len() == 0 ==> number@ =~= Seq::<char>::empty());
            assert(blank == (number@.len() == 0));
        }
        let first: usize = if blank {
            a
        } else if pos < b - 1 {
            pos
        } else {
            b - 1
        };
        let exact: bool = self.num_at(first) == want && !blank;
        if !exact {
            if pos > a && find_gap(want, self.num_at(pos - 1)) <= find_gap(want, self.num_at(first)) {
                return (pos - 1, false);
            }
            return (first, false);
        }
        let target: String = normalize(number);
        let mut i: usize = a;
        while i < b
            invariant
                self.wf(),
                a <= i <= b,
                b <= self.fwd_idx@.len(),
                first < b,
                target@ == norm_of(number@),
                ask.number == number@,
                ask.want == want,
                choice(*self, ask, a as int, b as int) == (
                    written_alike(*self, ask, i as int, b as int, first as int),
                    true,
                ),
                a == self.group_start(gi as int),
                b == self.group_start(gi + 1),
            decreases b - i,
        {
            if self.num_at(i) == want {
                assert(self.fwd_idx@[i as int] < self.coord@.len());
                let t: Option<&str> = pool(
                    self.hn_pool,
                    self.hn_off,
                    self.hn[self.fwd_idx[i] as usize],
                );
                let n: String = match t {
                    Some(s) => normalize(s),
                    None => normalize(""),
                };
                proof {
                    reveal_strlit("");
                    assert(""@ =~= Seq::<char>::empty());
                }
                if str_eq(n.as_str(), target.as_str()) {
                    return (i, true);
                }
            }
            i += 1;
        }
        (first, true)
    }

    /// Finds in the groups of one street.
    #[verifier::rlimit(40)]
    fn scan_street(
        &self,
        sid: u32,
        number: &str,
        want: u32,
        city: &Option<String>,
        most: u128,
        out: &mut Vec<Spot>,
        Ghost(ask): Ghost<Ask>,
    )
        requires
            self.wf(),
            ask.number == number@,
            ask.want == want,
            ask.city == (match *city {
                None => None,
                Some(s) => Some(s@),
            }),
            in_reach(*self, old(out)@),
        ensures
            in_reach(*self, final(out)@),
            spots(final(out)@) == group_finds(
                *self,
                ask,
                group_from(*self, sid as int, 0),
                group_from(*self, sid + 1, 0),
                most as int,
                spots(old(out)@),
            ),
    {
        let (lo, hi): (usize, usize) = self.groups_of(sid);
        let ghost a = group_from(*self, sid as int, 0);
        let ghost b = group_from(*self, sid + 1, 0);
        let ghost o = out@;
        let ghost goal = group_finds(*self, ask, a, b, most as int, spots(o));
        proof {
            lemma_groups(*self, sid, lo as int, hi as int);
        }
        let mut gi: usize = lo;
        while gi < hi
            invariant_except_break
                group_finds(*self, ask, gi as int, hi as int, most as int, spots(out@)) == goal,
            invariant
                self.wf(),
                lo <= gi <= hi <= self.groups(),
                ask.number == number@,
                ask.want == want,
                ask.city == (match *city {
                    None => None,
                    Some(s) => Some(s@),
                }),
                in_reach(*self, out@),
            ensures
                spots(out@) == goal,
            decreases hi - gi,
        {
            let (_, _, s, e): (u32, u32, usize, usize) = self.group_span(gi);
            if self.fits(gi, city, Ghost(ask)) && s < e {
                let (x, exact): (usize, bool) = self.choose_in(gi, number, want, Ghost(ask));
                assert(self.fwd_idx@[x as int] < self.coord@.len());
                let at: usize = self.fwd_idx[x] as usize;
                let ghost v0 = out@;
                out.push(Spot { at, approximate: !exact });
                assert(spots(out@) =~= spots(v0).push(find_in(*self, ask, gi as int)));
                if out.len() as u128 >= most {
                    break;
                }
            }
            gi += 1;
        }
    }

    /// Ranks finds and shows the best.
    #[verifier::rlimit(40)]
    fn show(&self, v: &Vec<Spot>, want: u32, limit: usize, Ghost(ask): Ghost<Ask>) -> (out: Vec<Hit>)
        requires
            self.points_ok(),
            in_reach(*self, v@),
            ask.want == want,
        ensures
            exists|rank: Ranking| #[trigger]
                best(*self, ask, spots(v@), limit as int, rank, out@),
    {
        let n: usize = v.len();
        let mut keys: Vec<u64> = Vec::new();
        while keys.len() < n
            invariant
                n == v@.len(),
                self.points_ok(),
                in_reach(*self, v@),
                ask.want == want,
                keys@.len() <= n,
                forall|i: int|
                    0 <= i < keys@.len() ==> #[trigger] keys@[i] == rank_keys(
                        *self,
                        ask,
                        spots(v@),
                    )[i],
            decreases n - keys@.len(),
        {
            let s: Spot = v[keys.len()];
            assert(v@[keys@.len() as int].at < self.coord@.len());
            let num: u32 = match pool(self.hn_pool, self.hn_off, self.hn[s.at]) {
                Some(t) => hn_number(t),
                None => hn_number(""),
            };
            proof {
                reveal_strlit("");
                assert(""@ =~= Seq::<char>::empty());
            }
            let far: u64 = find_gap(num, want) as u64;
            keys.push(
                if s.approximate {
                    0x1_0000_0000 + far
                } else {
                    far
                },
            );
        }
        assert(keys@ =~= rank_keys(*self, ask, spots(v@)));
        let rank: Ranking = rank_by(&keys);
        let m: usize = if n < limit {
            n
        } else {
            limit
        };
        let mut out: Vec<Hit> = Vec::new();
        while out.len() < m
            invariant
                n == v@.len(),
                m <= n,
                self.points_ok(),
                in_reach(*self, v@),
                keys@ == rank_keys(*self, ask, spots(v@)),
                ranked(keys@, rank),
                out@.len() <= m,
                forall|x: int|
                    0 <= x < out@.len() ==> {
                        let f = spots(v@)[rank.order@[x] as int];
                        self.shows(#[trigger] out@[x], f.at, f.approximate)
                    },
            decreases m - out@.len(),
        {
            let x: usize = out.len();
            assert(rank.order@[x as int] < keys@.len());
            let s: Spot = v[rank.order[x]];
            assert(v@[rank.order@[x as int] as int].at < self.coord@.len());
            let h: Hit = self.hit(s.at, s.approximate);
            out.push(h);
        }
        proof {
            assert(best(*self, ask, spots(v@), limit as int, rank, out@));
        }
        out
    }

    /// Street name and house number give addresses; where the number is not
    /// there, the nearest on the street, marked as approximate. `city` may be a
    /// city or a postcode.
    #[verifier::rlimit(40)]
    pub fn forward(&self, street: &str, number: &str, city: Option<&str>, limit: usize) -> (out: Vec<
        Hit,
    >)
        requires
            self.wf(),
        ensures
            answered(*self, street@, asked(number@, city), limit as int, out@),
    {
        let q: Vec<u8> = norm_query(street);
        let want: u32 = hn_number(number);
        let cityq: Option<String> = match city {
            None => None,
            Some(c) => Some(normalize(c)),
        };
        let ghost ask = asked(number@, city);
        let most: u128 = limit as u128 * 4;
        let (lo, hi): (usize, usize) = self.street_range(q.as_slice());
        let ghost goal = finds(*self, street@, ask, limit as int);
        let mut v: Vec<Spot> = Vec::new();
        proof {
            assert(spots(v@) =~= Seq::empty());
            lemma_called(*self, q@, 0, lo as int, hi as int);
            if lo < hi {
                lemma_called(*self, q@, lo as int, lo as int, hi as int);
            }
        }
        let mut k: usize = lo;
        while k < hi
            invariant
                self.wf(),
                lo <= k <= hi <= self.street_sorted@.len(),
                ask.number == number@,
                ask.want == want,
                ask.city == (match cityq {
                    None => None,
                    Some(s) => Some(s@),
                }),
                most == 4 * limit,
                in_reach(*self, v@),
                street_finds(*self, ask, k as int, hi as int, 4 * limit, spots(v@)) == goal,
            decreases hi - k,
        {
            let sid: u32 = self.street_sorted[k];
            self.scan_street(sid, number, want, &cityq, most, &mut v, Ghost(ask));
            k += 1;
        }
        let out: Vec<Hit> = self.show(&v, want, limit, Ghost(ask));
        proof {
            assert(spots(v@) == goal);
            let rank = choose|rank: Ranking| #[trigger]
                best(*self, ask, spots(v@), limit as int, rank, out@);
            assert(best(*self, ask, goal, limit as int, rank, out@));
        }
        out
    }
}

/// Whatever was asked for, an exact find comes before one that is not, and
/// among those of a kind the nearer number comes first.
pub proof fn lemma_exact_first(
    g: Geocoder,
    ask: Ask,
    s: Seq<Find>,
    limit: int,
    rank: Ranking,
    out: Seq<Hit>,
    x: int,
    y: int,
)
    requires
        best(g, ask, s, limit, rank, out),
        0 <= x < y < out.len(),
    ensures
        out[y].approximate || !out[x].approximate,
        out[x].approximate == out[y].approximate ==> gap(hn_of(out[x].housenumber@), ask.want) <= gap(
            hn_of(out[y].housenumber@),
            ask.want,
        ),
{
    let (i, j) = (rank.order@[x] as int, rank.order@[y] as int);
    let keys = rank_keys(g, ask, s);
    assert(crate::ranking::key_lt(keys, i, j));
    assert(g.shows(out[x], s[i].at, s[i].approximate));
    assert(g.shows(out[y], s[j].at, s[j].approximate));
    assert(keys[i] == rank_key(g, ask, s[i]) && keys[j] == rank_key(g, ask, s[j]));
}

} // verus!

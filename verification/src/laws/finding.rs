//! What an address that was found has to do with the one that was asked for.

use vstd::prelude::*;
use vstd::utf8::encode_utf8;
use crate::addresses::words::{hn_of, norm_of};
use crate::geocode::forward::{
    answered, asked, best, called_from, called_to, choice, find_in, finds, first_not_below,
    group_finds, group_from, rank_key, rank_keys, street_finds, written_alike, Ask, Find,
};
use crate::geocode::index::{or_empty, pool_text, Geocoder, Hit};
use crate::ranking::{key_lt, Ranking};

verus! {

/// How far apart two numbers are.
pub open spec fn apart(a: u32, b: u32) -> int {
    if a >= b {
        a - b
    } else {
        b - a
    }
}

/// Position `x` of group `j` has a number no further from `want` than any other
/// of the group.
pub open spec fn is_nearest(g: Geocoder, j: int, want: u32, x: int) -> bool {
    &&& g.group_start(j) <= x < g.group_start(j + 1)
    &&& forall|y: int|
        g.group_start(j) <= y < g.group_start(j + 1) ==> apart(g.num(x), want) <= apart(
            #[trigger] g.num(y),
            want,
        )
}

/// Some address of group `j` has the number.
pub open spec fn has_number(g: Geocoder, j: int, want: u32) -> bool {
    exists|y: int| g.group_start(j) <= y < g.group_start(j + 1) && #[trigger] g.num(y) == want
}

proof fn lemma_first(g: Geocoder, want: u32, x: int, b: int)
    requires
        x <= b,
    ensures
        ({
            let p = first_not_below(g, want, x, b);
            &&& x <= p <= b
            &&& p < b ==> g.num(p) >= want
            &&& forall|y: int| x <= y < p ==> #[trigger] g.num(y) < want
        }),
    decreases b - x,
{
    if x < b && g.num(x) < want {
        lemma_first(g, want, x + 1, b);
    }
}

proof fn lemma_alike(g: Geocoder, ask: Ask, x: int, b: int, other: int)
    requires
        x <= b,
    ensures
        ({
            let p = written_alike(g, ask, x, b, other);
            (x <= p < b && g.num(p) == ask.want) || p == other
        }),
    decreases b - x,
{
    if x < b {
        lemma_alike(g, ask, x + 1, b, other);
    }
}

/// A group answers with the number asked for where it has it, and else with the
/// number nearest to it; and it says which of the two.
pub proof fn lemma_nearest_number(g: Geocoder, ask: Ask, j: int) -> (x: int)
    requires
        g.wf(),
        0 <= j < g.groups(),
        g.group_start(j) < g.group_start(j + 1),
        ask.number.len() > 0,
    ensures
        find_in(g, ask, j).at == g.fwd_idx@[x],
        is_nearest(g, j, ask.want, x),
        find_in(g, ask, j).approximate == !has_number(g, j, ask.want),
        has_number(g, j, ask.want) ==> g.num(x) == ask.want,
{
    let (a, b) = (g.group_start(j), g.group_start(j + 1));
    let want = ask.want;
    let pos = first_not_below(g, want, a, b);
    lemma_first(g, want, a, b);
    let first = if pos < b - 1 {
        pos
    } else {
        b - 1
    };
    lemma_alike(g, ask, a, b, first);
    assert forall|y: int| pos <= y < b implies g.num(pos) <= #[trigger] g.num(y) by {
        assert(g.in_order(j, pos, y));
    }
    assert forall|y: int| a <= y < pos implies #[trigger] g.num(y) <= g.num(pos - 1) by {
        assert(g.in_order(j, y, pos - 1));
    }
    let (x, exact) = choice(g, ask, a, b);
    if exact {
        assert(g.num(first) == want);
        assert(a <= x < b && g.num(x) == want);
    } else {
        assert(!has_number(g, j, want)) by {
            if has_number(g, j, want) {
                let y = choose|y: int| a <= y < b && #[trigger] g.num(y) == want;
                if pos < b {
                    assert(g.num(pos) <= g.num(y));
                }
            }
        }
        assert forall|y: int| a <= y < b implies apart(g.num(x), want) <= apart(
            #[trigger] g.num(y),
            want,
        ) by {
            if y < pos {
                assert(g.num(y) < want && g.num(y) <= g.num(pos - 1) && g.num(pos - 1) < want);
            } else {
                assert(g.num(pos) <= g.num(y));
            }
        }
    }
    x
}

/// A group lies in the city, or has the postcode, that was asked for.
pub open spec fn lies_in(g: Geocoder, j: int, city: Option<&str>) -> bool {
    match city {
        None => true,
        Some(c) => {
            let p = g.group_place(j) as int;
            let town = pool_text(g.city_pool@, g.city_off@, g.place_tab@[2 * p]);
            let code = pool_text(g.pc_pool@, g.pc_off@, g.place_tab@[2 * p + 1]);
            (town matches Some(t) && norm_of(t) == norm_of(c@)) || (code matches Some(t) && norm_of(t)
                == norm_of(c@))
        },
    }
}

/// Group `j` holds addresses of a street that is called as asked, in the city
/// that was asked for.
pub open spec fn suits(g: Geocoder, street: Seq<char>, city: Option<&str>, k: int, j: int) -> bool {
    &&& 0 <= k < g.street_sorted@.len()
    &&& g.name(k) == encode_utf8(norm_of(street))
    &&& 0 <= j < g.groups()
    &&& g.group_street(j) == g.street_sorted@[k]
    &&& g.group_start(j) < g.group_start(j + 1)
    &&& lies_in(g, j, city)
}

/// The find is what group `j` answers with.
pub open spec fn from_group(
    g: Geocoder,
    street: Seq<char>,
    ask: Ask,
    city: Option<&str>,
    f: Find,
    k: int,
    j: int,
) -> bool {
    suits(g, street, city, k, j) && f == find_in(g, ask, j)
}

pub open spec fn grouped(
    g: Geocoder,
    street: Seq<char>,
    ask: Ask,
    city: Option<&str>,
    f: Find,
) -> bool {
    exists|k: int, j: int| from_group(g, street, ask, city, f, k, j)
}

proof fn lemma_from(g: Geocoder, sid: int, gi: int)
    requires
        g.groups_ok(),
        0 <= gi <= g.groups(),
    ensures
        gi <= group_from(g, sid, gi) <= g.groups(),
        forall|j: int| gi <= j < group_from(g, sid, gi) ==> #[trigger] g.group_street(j) < sid,
        forall|j: int| group_from(g, sid, gi) <= j < g.groups() ==> #[trigger] g.group_street(j) >= sid,
    decreases g.groups() - gi,
{
    if gi < g.groups() && g.group_street(gi) < sid {
        lemma_from(g, sid, gi + 1);
    } else {
        assert forall|j: int| gi <= j < g.groups() implies #[trigger] g.group_street(j) >= sid by {
            assert(g.group_street(gi) <= g.group_street(j));
        }
    }
}

/// What a street's groups add.
proof fn lemma_group_finds(
    g: Geocoder,
    street: Seq<char>,
    number: Seq<char>,
    city: Option<&str>,
    k: int,
    gi: int,
    hi: int,
    most: int,
    out: Seq<Find>,
)
    requires
        g.groups_ok(),
        0 <= gi <= hi <= g.groups(),
        0 <= k < g.street_sorted@.len(),
        g.name(k) == encode_utf8(norm_of(street)),
        forall|j: int| gi <= j < hi ==> #[trigger] g.group_street(j) == g.street_sorted@[k],
    ensures
        ({
            let ask = asked(number, city);
            let r = group_finds(g, ask, gi, hi, most, out);
            &&& out.len() <= r.len()
            &&& forall|x: int| 0 <= x < out.len() ==> r[x] == out[x]
            &&& forall|x: int|
                out.len() <= x < r.len() ==> grouped(g, street, ask, city, #[trigger] r[x])
            &&& r.len() < most ==> forall|j: int|
                gi <= j < hi && #[trigger] suits(g, street, city, k, j) ==> r.contains(
                    find_in(g, ask, j),
                )
        }),
    decreases hi - gi,
{
    let ask = asked(number, city);
    if gi < hi {
        assert(crate::geocode::forward::in_city(g, ask, gi) == lies_in(g, gi, city));
        let r = group_finds(g, ask, gi, hi, most, out);
        if suits(g, street, city, k, gi) {
            let more = out.push(find_in(g, ask, gi));
            assert(from_group(g, street, ask, city, more[out.len() as int], k, gi));
            if more.len() < most {
                lemma_group_finds(g, street, number, city, k, gi + 1, hi, most, more);
                assert(r[out.len() as int] == find_in(g, ask, gi));
                assert forall|x: int| out.len() <= x < r.len() implies grouped(
                    g,
                    street,
                    ask,
                    city,
                    #[trigger] r[x],
                ) by {
                    if x == out.len() {
                        assert(from_group(g, street, ask, city, r[x], k, gi));
                    }
                }
                if r.len() < most {
                    assert forall|j: int|
                        gi <= j < hi && #[trigger] suits(g, street, city, k, j) implies r.contains(
                        find_in(g, ask, j),
                    ) by {
                        if j == gi {
                            assert(r[out.len() as int] == find_in(g, ask, gi));
                        }
                    }
                }
            } else {
                assert(r == more);
            }
        } else {
            lemma_group_finds(g, street, number, city, k, gi + 1, hi, most, out);
        }
    }
}

proof fn lemma_street_finds(
    g: Geocoder,
    street: Seq<char>,
    number: Seq<char>,
    city: Option<&str>,
    k: int,
    hi: int,
    most: int,
    out: Seq<Find>,
)
    requires
        g.groups_ok(),
        0 <= k <= hi <= g.street_sorted@.len(),
        forall|i: int| k <= i < hi ==> #[trigger] g.name(i) == encode_utf8(norm_of(street)),
    ensures
        ({
            let ask = asked(number, city);
            let r = street_finds(g, ask, k, hi, most, out);
            &&& out.len() <= r.len()
            &&& forall|x: int| 0 <= x < out.len() ==> r[x] == out[x]
            &&& forall|x: int|
                out.len() <= x < r.len() ==> grouped(g, street, ask, city, #[trigger] r[x])
            &&& r.len() < most ==> forall|i: int, j: int|
                k <= i < hi && #[trigger] suits(g, street, city, i, j) ==> r.contains(
                    find_in(g, ask, j),
                )
        }),
    decreases hi - k,
{
    let ask = asked(number, city);
    if k < hi {
        let sid = g.street_sorted@[k] as int;
        lemma_from(g, sid, 0);
        lemma_from(g, sid + 1, 0);
        let (a, b) = (group_from(g, sid, 0), group_from(g, sid + 1, 0));
        assert(a <= b) by {
            if b < a {
                assert(g.group_street(b) < sid);
                assert(g.group_street(b) >= sid + 1);
            }
        }
        assert forall|j: int| a <= j < b implies #[trigger] g.group_street(j) == sid by {}
        assert(g.name(k) == encode_utf8(norm_of(street)));
        let more = group_finds(g, ask, a, b, most, out);
        lemma_group_finds(g, street, number, city, k, a, b, most, out);
        lemma_street_finds(g, street, number, city, k + 1, hi, most, more);
        let r = street_finds(g, ask, k, hi, most, out);
        assert forall|x: int| out.len() <= x < r.len() implies grouped(
            g,
            street,
            ask,
            city,
            #[trigger] r[x],
        ) by {
            if x < more.len() {
                assert(r[x] == more[x]);
            }
        }
        if r.len() < most {
            assert forall|i: int, j: int|
                k <= i < hi && #[trigger] suits(g, street, city, i, j) implies r.contains(
                find_in(g, ask, j),
            ) by {
                if i == k {
                    assert(g.group_street(j) == sid);
                    if j < a {
                        assert(g.group_street(j) < sid);
                    }
                    if j >= b {
                        assert(g.group_street(j) >= sid + 1);
                    }
                    assert(more.contains(find_in(g, ask, j)));
                    let x = more.index_of(find_in(g, ask, j));
                    assert(r[x] == more[x]);
                }
            }
        }
    }
}

proof fn lemma_called_span(g: Geocoder, q: Seq<u8>, k: int)
    requires
        0 <= k <= g.street_sorted@.len(),
    ensures
        k <= called_to(g, q, k) <= g.street_sorted@.len(),
        forall|i: int| k <= i < called_to(g, q, k) ==> #[trigger] g.name(i) == q,
        called_to(g, q, k) < g.street_sorted@.len() ==> g.name(called_to(g, q, k)) != q,
        k <= called_from(g, q, k) <= g.street_sorted@.len(),
        forall|i: int| k <= i < called_from(g, q, k) ==> #[trigger] g.name(i) != q,
    decreases g.street_sorted@.len() - k,
{
    if k < g.street_sorted@.len() {
        lemma_called_span(g, q, k + 1);
    }
}

/// A hit shows the address that a suiting group answers with.
pub open spec fn shown_from(
    g: Geocoder,
    street: Seq<char>,
    number: Seq<char>,
    city: Option<&str>,
    h: Hit,
    k: int,
    j: int,
    x: int,
) -> bool {
    &&& suits(g, street, city, k, j)
    &&& g.group_start(j) <= x < g.group_start(j + 1)
    &&& (h.lat_e7, h.lon_e7) == g.coord@[g.fwd_idx@[x] as int]
    &&& h.housenumber@ == or_empty(
        pool_text(g.hn_pool@, g.hn_off@, g.hn@[g.fwd_idx@[x] as int]),
    )
    &&& number.len() > 0 ==> is_nearest(g, j, hn_of(number), x) && h.approximate == !has_number(
        g,
        j,
        hn_of(number),
    )
    &&& number.len() == 0 ==> h.approximate
}

proof fn lemma_choice_in(g: Geocoder, ask: Ask, j: int) -> (x: int)
    requires
        g.wf(),
        0 <= j < g.groups(),
        g.group_start(j) < g.group_start(j + 1),
    ensures
        g.group_start(j) <= x < g.group_start(j + 1),
        find_in(g, ask, j).at == g.fwd_idx@[x],
        ask.number.len() == 0 ==> find_in(g, ask, j).approximate,
{
    let (a, b) = (g.group_start(j), g.group_start(j + 1));
    lemma_first(g, ask.want, a, b);
    let pos = first_not_below(g, ask.want, a, b);
    let first = if ask.number.len() == 0 {
        a
    } else if pos < b - 1 {
        pos
    } else {
        b - 1
    };
    lemma_alike(g, ask, a, b, first);
    choice(g, ask, a, b).0
}

/// Whatever is found lies on a street of that name, in that city or postcode,
/// and has the number that was asked for, or the nearest of those that stand
/// with it where none has it.
pub proof fn lemma_hits_suit(
    g: Geocoder,
    street: Seq<char>,
    number: Seq<char>,
    city: Option<&str>,
    limit: int,
    out: Seq<Hit>,
    y: int,
)
    requires
        g.wf(),
        answered(g, street, asked(number, city), limit, out),
        0 <= y < out.len(),
    ensures
        out.len() <= limit,
        exists|k: int, j: int, x: int|
            #[trigger] shown_from(g, street, number, city, out[y], k, j, x),
{
    let ask = asked(number, city);
    let q = encode_utf8(norm_of(street));
    let lo = called_from(g, q, 0);
    lemma_called_span(g, q, 0);
    lemma_called_span(g, q, lo);
    let hi = called_to(g, q, lo);
    let s = finds(g, street, ask, limit);
    lemma_street_finds(g, street, number, city, lo, hi, 4 * limit, Seq::empty());
    let rank = choose|rank: Ranking| #[trigger] best(g, ask, s, limit, rank, out);
    let i = rank.order@[y] as int;
    assert(rank.order@[y] < s.len());
    let f = s[i];
    assert(g.shows(out[y], f.at, f.approximate));
    assert(grouped(g, street, ask, city, s[i]));
    let (k, j) = choose|k: int, j: int| from_group(g, street, ask, city, f, k, j);
    assert(from_group(g, street, ask, city, f, k, j));
    if number.len() > 0 {
        let x = lemma_nearest_number(g, ask, j);
        assert(shown_from(g, street, number, city, out[y], k, j, x));
    } else {
        let x = lemma_choice_in(g, ask, j);
        assert(shown_from(g, street, number, city, out[y], k, j, x));
    }
}

proof fn lemma_sorted_names(g: Geocoder, q: Seq<u8>, i: int)
    requires
        g.names_ok(),
        0 <= i < g.street_sorted@.len(),
        g.name(i) == q,
    ensures
        called_from(g, q, 0) <= i < called_to(g, q, called_from(g, q, 0)),
{
    lemma_called_span(g, q, 0);
    let lo = called_from(g, q, 0);
    lemma_called_span(g, q, lo);
    let hi = called_to(g, q, lo);
    if lo > i {
        assert(g.name(i) != q);
    }
    lemma_reaches(g, q, 0, i);
    if hi <= i {
        crate::geocode::order::lemma_text_total(g.name(hi), q);
        crate::geocode::order::lemma_text_total(q, g.name(hi));
        assert(crate::sorting::text_le(g.name(lo), g.name(hi)));
        assert(crate::sorting::text_le(g.name(hi), g.name(i)));
    }
}

proof fn lemma_reaches(g: Geocoder, q: Seq<u8>, k: int, i: int)
    requires
        0 <= k <= i < g.street_sorted@.len(),
        g.name(i) == q,
    ensures
        called_from(g, q, k) <= i,
        g.name(called_from(g, q, k)) == q,
    decreases i - k,
{
    if g.name(k) != q {
        lemma_reaches(g, q, k + 1, i);
    }
}

/// Where fewer are found than were asked for, none was passed over: every group
/// of addresses on such a street, in that city, has its hit.
pub proof fn lemma_none_passed_over(
    g: Geocoder,
    street: Seq<char>,
    number: Seq<char>,
    city: Option<&str>,
    limit: int,
    out: Seq<Hit>,
    k: int,
    j: int,
)
    requires
        g.wf(),
        answered(g, street, asked(number, city), limit, out),
        out.len() < limit,
        suits(g, street, city, k, j),
    ensures
        exists|y: int, x: int|
            0 <= y < out.len() && g.group_start(j) <= x < g.group_start(j + 1) && (
            #[trigger] out[y]).lat_e7 == g.coord@[#[trigger] g.fwd_idx@[x] as int].0
                && out[y].lon_e7 == g.coord@[g.fwd_idx@[x] as int].1 && (number.len() > 0
                ==> is_nearest(g, j, hn_of(number), x)),
{
    let ask = asked(number, city);
    let q = encode_utf8(norm_of(street));
    let lo = called_from(g, q, 0);
    lemma_called_span(g, q, 0);
    lemma_called_span(g, q, lo);
    let hi = called_to(g, q, lo);
    let s = finds(g, street, ask, limit);
    lemma_street_finds(g, street, number, city, lo, hi, 4 * limit, Seq::empty());
    let rank = choose|rank: Ranking| #[trigger] best(g, ask, s, limit, rank, out);
    assert(s.len() == out.len());
    lemma_sorted_names(g, q, k);
    assert(s.contains(find_in(g, ask, j)));
    let i = s.index_of(find_in(g, ask, j));
    assert(rank.place@[i] < s.len());
    let y = rank.place@[i] as int;
    assert(rank.order@[y] == i);
    assert(g.shows(out[y], s[i].at, s[i].approximate));
    if number.len() > 0 {
        let x = lemma_nearest_number(g, ask, j);
        assert(g.fwd_idx@[x] == s[i].at);
        assert(out[y].lat_e7 == g.coord@[g.fwd_idx@[x] as int].0);
    } else {
        let x = lemma_choice_in(g, ask, j);
        assert(g.fwd_idx@[x] == s[i].at);
        assert(out[y].lat_e7 == g.coord@[g.fwd_idx@[x] as int].0);
    }
}

/// The better comes first: an address with the number asked for before any
/// other, and of two alike in that the one whose number is nearer.
pub proof fn lemma_better_first(
    g: Geocoder,
    street: Seq<char>,
    number: Seq<char>,
    city: Option<&str>,
    limit: int,
    out: Seq<Hit>,
    x: int,
    y: int,
)
    requires
        answered(g, street, asked(number, city), limit, out),
        0 <= x < y < out.len(),
    ensures
        out[x].approximate ==> out[y].approximate,
        out[x].approximate == out[y].approximate ==> apart(
            hn_of(out[x].housenumber@),
            hn_of(number),
        ) <= apart(hn_of(out[y].housenumber@), hn_of(number)),
{
    let ask = asked(number, city);
    let s = finds(g, street, ask, limit);
    let rank = choose|rank: Ranking| #[trigger] best(g, ask, s, limit, rank, out);
    let keys = rank_keys(g, ask, s);
    let (i, j) = (rank.order@[x] as int, rank.order@[y] as int);
    assert(key_lt(keys, i, j));
    assert(i < s.len() && j < s.len());
    assert(g.shows(out[x], s[i].at, s[i].approximate));
    assert(g.shows(out[y], s[j].at, s[j].approximate));
    assert(keys[i] == rank_key(g, ask, s[i]));
    assert(keys[j] == rank_key(g, ask, s[j]));
}

/// The address at position `x` has the number asked for, written as it was asked
/// for.
pub open spec fn reads_alike(g: Geocoder, number: Seq<char>, x: int) -> bool {
    &&& g.num(x) == hn_of(number)
    &&& norm_of(or_empty(pool_text(g.hn_pool@, g.hn_off@, g.hn@[g.fwd_idx@[x] as int])))
        == norm_of(number)
}

proof fn lemma_alike_first(g: Geocoder, ask: Ask, x: int, b: int, other: int, y: int)
    requires
        x <= y < b,
        ask.want == hn_of(ask.number),
        reads_alike(g, ask.number, y),
    ensures
        ({
            let p = written_alike(g, ask, x, b, other);
            x <= p < b && reads_alike(g, ask.number, p)
        }),
    decreases b - x,
{
    if x < y && !reads_alike(g, ask.number, x) {
        lemma_alike_first(g, ask, x + 1, b, other, y);
    }
}

/// Where a group has the number asked for written as it was asked for, it
/// answers with one that is written so.
pub proof fn lemma_alike_preferred(
    g: Geocoder,
    number: Seq<char>,
    city: Option<&str>,
    j: int,
    y: int,
) -> (x: int)
    requires
        g.wf(),
        0 <= j < g.groups(),
        g.group_start(j) <= y < g.group_start(j + 1),
        number.len() > 0,
        reads_alike(g, number, y),
    ensures
        find_in(g, asked(number, city), j).at == g.fwd_idx@[x],
        !find_in(g, asked(number, city), j).approximate,
        reads_alike(g, number, x),
{
    let ask = asked(number, city);
    let (a, b) = (g.group_start(j), g.group_start(j + 1));
    let pos = first_not_below(g, ask.want, a, b);
    lemma_first(g, ask.want, a, b);
    let first = if pos < b - 1 {
        pos
    } else {
        b - 1
    };
    lemma_alike_first(g, ask, a, b, first, y);
    assert(g.num(y) == ask.want);
    assert(pos <= y);
    assert(g.in_order(j, pos, y));
    assert(g.num(first) == ask.want);
    choice(g, ask, a, b).0
}

} // verus!

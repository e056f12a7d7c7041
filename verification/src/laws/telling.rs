//! A route in words and on the map, and names as they are typed.

use vstd::prelude::*;
use vstd::utf8::encode_utf8;
use crate::addresses::words::norm_of;
use crate::dataset::Dataset;
use crate::geocode::index::{pool_text, Geocoder};
use crate::geocode::order::{is_prefix, lemma_text_total, text_lt};
use crate::geocode::suggest::{first_from, lemma_none_before, listed, suggested};
use crate::router::line::{drawn_to, leg_line, leg_part, sketched, unrepeated};
use crate::router::route::{Leg, Route};
use crate::router::steps::{
    crossed, crossings, leg_sum, name_of, stretches, summed_up, StretchModel, TollHit,
};
use crate::sorting::text_le;

verus! {

// --------------------------------------------------------------------- steps

/// Stretch `i` is the legs from `cuts[i]` up to the next cut, all of one name
/// and class, and as long as they are together.
pub open spec fn is_stretch(
    ds: Dataset,
    legs: Seq<Leg>,
    out: Seq<StretchModel>,
    cuts: Seq<int>,
    i: int,
) -> bool {
    &&& cuts[i] < cuts[i + 1]
    &&& out[i].cm == leg_sum(legs, cuts[i + 1]) - leg_sum(legs, cuts[i])
    &&& forall|j: int|
        cuts[i] <= j < cuts[i + 1] ==> name_of(ds, (#[trigger] legs[j]).seg as int) == out[i].name
            && ds.spec_attr(legs[j].seg as int) % 16 == out[i].class
}

/// The legs fall into stretches.
pub open spec fn cut_up(
    ds: Dataset,
    legs: Seq<Leg>,
    n: int,
    out: Seq<StretchModel>,
    cuts: Seq<int>,
) -> bool {
    &&& cuts.len() == out.len() + 1
    &&& cuts[0] == 0
    &&& cuts.last() == n
    &&& forall|i: int| 0 <= i < out.len() ==> #[trigger] is_stretch(ds, legs, out, cuts, i)
}

/// No two stretches that follow each other are of one name and class.
pub open spec fn all_turn(out: Seq<StretchModel>) -> bool {
    forall|i: int, j: int|
        0 <= i && j == i + 1 && j < out.len() ==> (#[trigger] out[i]).name != (
        #[trigger] out[j]).name || out[i].class != out[j].class
}

proof fn lemma_cut(ds: Dataset, legs: Seq<Leg>, n: int) -> (cuts: Seq<int>)
    requires
        0 <= n <= legs.len(),
    ensures
        cut_up(ds, legs, n, stretches(ds, legs, n), cuts),
        all_turn(stretches(ds, legs, n)),
    decreases n,
{
    if n == 0 {
        seq![0]
    } else {
        let c0 = lemma_cut(ds, legs, n - 1);
        let (was, now) = (stretches(ds, legs, n - 1), stretches(ds, legs, n));
        let l = legs[n - 1];
        let k = was.len() as int;
        if now.len() == k {
            let cuts = c0.update(k, n);
            assert forall|i: int| 0 <= i < k implies #[trigger] is_stretch(
                ds,
                legs,
                now,
                cuts,
                i,
            ) by {
                assert(is_stretch(ds, legs, was, c0, i));
                assert(cuts[i] == c0[i]);
                if i < k - 1 {
                    assert(cuts[i + 1] == c0[i + 1]);
                    assert(now[i] == was[i]);
                }
            }
            assert forall|i: int, j: int| 0 <= i && j == i + 1 && j < now.len() implies (
            #[trigger] now[i]).name != (#[trigger] now[j]).name || now[i].class
                != now[j].class by {
                assert(was[i].name != was[j].name || was[i].class != was[j].class);
            }
            cuts
        } else {
            let cuts = c0.push(n);
            assert forall|i: int| 0 <= i < now.len() implies #[trigger] is_stretch(
                ds,
                legs,
                now,
                cuts,
                i,
            ) by {
                if i < k {
                    assert(is_stretch(ds, legs, was, c0, i));
                    assert(now[i] == was[i]);
                }
            }
            assert forall|i: int, j: int| 0 <= i && j == i + 1 && j < now.len() implies (
            #[trigger] now[i]).name != (#[trigger] now[j]).name || now[i].class
                != now[j].class by {
                if j < k {
                    assert(was[i].name != was[j].name || was[i].class != was[j].class);
                }
            }
            cuts
        }
    }
}

/// The steps of a route are its legs in order, cut wherever the name or the
/// class of the road changes and nowhere else, each as long as its legs.
pub proof fn lemma_steps(ds: Dataset, legs: Seq<Leg>, out: Seq<StretchModel>) -> (cuts: Seq<int>)
    requires
        summed_up(ds, legs, out),
    ensures
        cut_up(ds, legs, legs.len() as int, out, cuts),
        all_turn(out),
{
    lemma_cut(ds, legs, legs.len() as int)
}

// --------------------------------------------------------------------- tolls

/// The toll gate of place `i`, which is driven through from the vertex before it
/// to the one after it.
pub open spec fn passes(vertices: Seq<u32>, gates: Seq<Option<usize>>, h: TollHit, i: int) -> bool {
    &&& 0 < i < vertices.len() - 1
    &&& gates[i] == Some(h.gate)
    &&& h.from_vertex == vertices[i - 1]
    &&& h.to_vertex == vertices[i + 1]
}

/// The places of gates below `n`, in order.
pub open spec fn places(
    vertices: Seq<u32>,
    gates: Seq<Option<usize>>,
    n: int,
    out: Seq<TollHit>,
    at: Seq<int>,
) -> bool {
    &&& at.len() == out.len()
    &&& forall|k: int| 0 <= k < at.len() ==> #[trigger] passes(vertices, gates, out[k], at[k])
    &&& forall|k: int| 0 <= k < at.len() ==> #[trigger] at[k] < n
    &&& forall|j: int, k: int| 0 <= j < k < at.len() ==> #[trigger] at[j] < #[trigger] at[k]
    &&& forall|i: int|
        0 < i < n && i < vertices.len() - 1 && (#[trigger] gates[i]) is Some ==> at.contains(i)
}

proof fn lemma_places(vertices: Seq<u32>, gates: Seq<Option<usize>>, n: int) -> (at: Seq<int>)
    requires
        gates.len() == vertices.len(),
        0 <= n <= vertices.len(),
    ensures
        places(vertices, gates, n, crossings(vertices, gates, n), at),
    decreases n,
{
    if n <= 1 {
        Seq::empty()
    } else {
        let a0 = lemma_places(vertices, gates, n - 1);
        let was = crossings(vertices, gates, n - 1);
        let now = crossings(vertices, gates, n);
        if gates[n - 1] is Some && n < vertices.len() {
            let at = a0.push(n - 1);
            assert forall|k: int| 0 <= k < at.len() implies #[trigger] passes(
                vertices,
                gates,
                now[k],
                at[k],
            ) by {
                if k < a0.len() {
                    assert(passes(vertices, gates, was[k], a0[k]));
                }
            }
            assert forall|i: int|
                0 < i < n && i < vertices.len() - 1 && (
                #[trigger] gates[i]) is Some implies at.contains(i) by {
                if i < n - 1 {
                    assert(a0.contains(i));
                    let j = a0.index_of(i);
                    assert(at[j] == i);
                } else {
                    assert(at[a0.len() as int] == i);
                }
            }
            at
        } else {
            assert forall|i: int|
                0 < i < n && i < vertices.len() - 1 && (
                #[trigger] gates[i]) is Some implies a0.contains(i) by {
                assert(i < n - 1);
            }
            a0
        }
    }
}

/// A route pays at each gate that it drives through, in order and once, and not
/// at one where it begins or ends.
pub proof fn lemma_tolls(vertices: Seq<u32>, gates: Seq<Option<usize>>, out: Seq<TollHit>) -> (at:
    Seq<int>)
    requires
        gates.len() == vertices.len(),
        crossed(vertices, gates, out),
    ensures
        places(vertices, gates, vertices.len() as int, out, at),
{
    lemma_places(vertices, gates, vertices.len() as int)
}

// ---------------------------------------------------------------------- line

/// No point twice in a row.
pub open spec fn moves_on(s: Seq<(i32, i32)>) -> bool {
    forall|i: int, j: int|
        0 <= i && j == i + 1 && j < s.len() ==> (#[trigger] s[i]) != (#[trigger] s[j])
}

proof fn lemma_unrepeated(s: Seq<(i32, i32)>)
    ensures
        moves_on(unrepeated(s)),
        unrepeated(s).len() <= s.len(),
        s.len() > 0 ==> unrepeated(s).len() > 0 && unrepeated(s)[0] == s[0] && unrepeated(s).last()
            == s.last(),
        forall|p: (i32, i32)| s.contains(p) == #[trigger] unrepeated(s).contains(p),
        moves_on(s) ==> unrepeated(s) == s,
    decreases s.len(),
{
    if s.len() > 0 {
        let s0 = s.drop_last();
        lemma_unrepeated(s0);
        let (was, now) = (unrepeated(s0), unrepeated(s));
        assert forall|p: (i32, i32)| s.contains(p) == #[trigger] now.contains(p) by {
            assert(s0.contains(p) == was.contains(p));
            if s.contains(p) {
                let i = s.index_of(p);
                if i < s.len() - 1 {
                    assert(s0[i] == p);
                    let j = was.index_of(p);
                    assert(now[j] == p);
                } else {
                    assert(now.last() == p);
                    assert(now[now.len() - 1] == p);
                }
            }
            if now.contains(p) {
                let j = now.index_of(p);
                if j < was.len() {
                    assert(was[j] == p);
                    let i = s0.index_of(p);
                    assert(s[i] == p);
                } else {
                    assert(s[s.len() - 1] == p);
                }
            }
        }
        if moves_on(s) {
            assert forall|i: int, j: int| 0 <= i && j == i + 1 && j < s0.len() implies (
            #[trigger] s0[i]) != (#[trigger] s0[j]) by {
                assert(s[i] != s[j]);
            }
            assert(was == s0);
            if s0.len() > 0 {
                assert(s[s.len() - 2] != s[s.len() - 1]);
            }
            assert(now =~= s);
        }
    }
}

/// The point is one of leg `i` that the route comes past: not the end of the
/// first leg that lies behind it, nor that of the last that lies beyond.
pub open spec fn on_leg(ds: Dataset, r: Route, i: int, j: int, p: (i32, i32)) -> bool {
    let line = ds.line(r.legs@[i].seg as int);
    let at = if r.legs@[i].reverse {
        line.len() - 1 - j
    } else {
        j
    };
    &&& 0 <= i < r.legs@.len()
    &&& 0 <= j < line.len()
    &&& i == 0 ==> j > 0
    &&& i == r.legs@.len() - 1 ==> j < line.len() - 1
    &&& p == line[at]
}

pub open spec fn on_legs(ds: Dataset, r: Route, n: int, p: (i32, i32)) -> bool {
    exists|i: int, j: int| i < n && #[trigger] on_leg(ds, r, i, j, p)
}

proof fn lemma_drawn(ds: Dataset, r: Route, n: int, p: (i32, i32))
    requires
        0 <= n <= r.legs@.len(),
    ensures
        drawn_to(ds, r, n).len() > 0,
        drawn_to(ds, r, n)[0] == (r.from.lat_e7, r.from.lon_e7),
        drawn_to(ds, r, n).contains(p) <==> p == (r.from.lat_e7, r.from.lon_e7) || on_legs(
            ds,
            r,
            n,
            p,
        ),
    decreases n,
{
    let now = drawn_to(ds, r, n);
    if n == 0 {
        assert(now[0] == (r.from.lat_e7, r.from.lon_e7));
        if on_legs(ds, r, n, p) {
            let (i, j) = choose|i: int, j: int| i < n && #[trigger] on_leg(ds, r, i, j, p);
            assert(on_leg(ds, r, i, j, p));
        }
    } else {
        lemma_drawn(ds, r, n - 1, p);
        let was = drawn_to(ds, r, n - 1);
        let i = n - 1;
        let leg = r.legs@[i];
        let line = ds.line(leg.seg as int);
        let (part, whole) = (leg_part(ds, r.legs@, i), leg_line(ds, leg));
        let a: int = if i == 0 {
            1
        } else {
            0
        };
        assert(now[0] == was[0]);
        if now.contains(p) {
            let k = now.index_of(p);
            if k < was.len() {
                assert(was[k] == p);
                if p != (r.from.lat_e7, r.from.lon_e7) {
                    let (x, y) = choose|x: int, y: int| x < n - 1 && #[trigger] on_leg(ds, r, x, y, p);
                    assert(on_leg(ds, r, x, y, p));
                }
            } else {
                let j = k - was.len() + a;
                assert(part[k - was.len()] == p);
                assert(whole[j] == p);
                assert(on_leg(ds, r, i, j, p));
            }
        }
        if p == (r.from.lat_e7, r.from.lon_e7) {
            assert(now[0] == p);
        }
        if on_legs(ds, r, n, p) {
            let (x, j) = choose|x: int, j: int| x < n && #[trigger] on_leg(ds, r, x, j, p);
            if x < n - 1 {
                assert(on_leg(ds, r, x, j, p));
                assert(on_legs(ds, r, n - 1, p));
                let k = was.index_of(p);
                assert(now[k] == p);
            } else {
                assert(whole[j] == p);
                assert(part[j - a] == p);
                assert(now[was.len() + j - a] == p);
            }
        }
    }
}

/// The line of a route begins where the route begins and ends where it ends,
/// shows every point that its legs come past and no other, and stands still
/// nowhere.
pub proof fn lemma_line(ds: Dataset, r: Route, v: Seq<(i32, i32)>, p: (i32, i32))
    requires
        sketched(ds, r, v),
    ensures
        v.len() > 0,
        v[0] == (r.from.lat_e7, r.from.lon_e7),
        v.last() == (r.to.lat_e7, r.to.lon_e7),
        moves_on(v),
        v.contains(p) <==> p == (r.from.lat_e7, r.from.lon_e7) || p == (r.to.lat_e7, r.to.lon_e7)
            || on_legs(ds, r, r.legs@.len() as int, p),
{
    let n = r.legs@.len() as int;
    let d = drawn_to(ds, r, n);
    let end = (r.to.lat_e7, r.to.lon_e7);
    lemma_drawn(ds, r, n, p);
    let all = d.push(end);
    lemma_unrepeated(all);
    assert(all[0] == d[0]);
    assert(all.last() == end);
    assert(all.contains(p) <==> d.contains(p) || p == end) by {
        if all.contains(p) {
            let k = all.index_of(p);
            if k < d.len() {
                assert(d[k] == p);
            }
        }
        if d.contains(p) {
            let k = d.index_of(p);
            assert(all[k] == p);
        }
        if p == end {
            assert(all[d.len() as int] == p);
        }
    }
    assert(all.contains(p) == unrepeated(all).contains(p));
}

// --------------------------------------------------------------------- names

/// What lies between a string and one that it begins, begins with it too.
proof fn lemma_between(q: Seq<u8>, b: Seq<u8>, c: Seq<u8>)
    requires
        is_prefix(q, c),
        text_le(q, b),
        text_le(b, c),
    ensures
        is_prefix(q, b),
    decreases q.len(),
{
    if q.len() > 0 {
        assert(c.subrange(0, q.len() as int)[0] == c[0]);
        assert(is_prefix(q.drop_first(), c.drop_first())) by {
            assert(c.drop_first().subrange(0, q.len() - 1) =~= c.subrange(
                0,
                q.len() as int,
            ).drop_first());
        }
        lemma_between(q.drop_first(), b.drop_first(), c.drop_first());
        assert(b.subrange(0, q.len() as int) =~= q) by {
            assert(b.drop_first().subrange(0, q.len() - 1) == q.drop_first());
            assert forall|i: int| 0 <= i < q.len() implies b[i] == #[trigger] q[i] by {
                if i > 0 {
                    assert(b.drop_first().subrange(0, q.len() - 1)[i - 1] == b[i]);
                    assert(q.drop_first()[i - 1] == q[i]);
                }
            }
        }
    } else {
        assert(b.subrange(0, 0) =~= q);
    }
}

/// The street at `k` begins with `q`, and is called `s`.
pub open spec fn begins_so(g: Geocoder, q: Seq<u8>, k: int, s: Seq<char>) -> bool {
    &&& 0 <= k < g.street_sorted@.len()
    &&& is_prefix(q, g.name(k))
    &&& pool_text(g.street_pool@, g.street_off@, g.street_sorted@[k]) == Some(s)
}

pub open spec fn some_street(g: Geocoder, q: Seq<u8>, s: Seq<char>) -> bool {
    exists|k: int| begins_so(g, q, k, s)
}

/// Names of streets that begin with `q`, each once, and no more than asked for.
pub open spec fn fine_list(g: Geocoder, q: Seq<u8>, limit: int, out: Seq<Seq<char>>) -> bool {
    &&& forall|i: int| 0 <= i < out.len() ==> some_street(g, q, #[trigger] out[i])
    &&& out.no_duplicates()
    &&& out.len() <= limit || out.len() <= 1
}

proof fn lemma_listed(g: Geocoder, q: Seq<u8>, k: int, limit: int, out: Seq<Seq<char>>)
    requires
        g.names_ok(),
        0 <= k <= g.street_sorted@.len(),
        forall|j: int|
            k <= j < g.street_sorted@.len() ==> text_le(q, #[trigger] g.name(j)),
        fine_list(g, q, limit, out),
        out.len() == 0 || out.len() < limit,
    ensures
        fine_list(g, q, limit, listed(g, q, k, limit, out)),
        forall|s: Seq<char>| #[trigger]
            out.contains(s) ==> listed(g, q, k, limit, out).contains(s),
        listed(g, q, k, limit, out).len() < limit ==> forall|j: int, s: Seq<char>|
            j >= k && #[trigger] begins_so(g, q, j, s) ==> listed(g, q, k, limit, out).contains(s),
    decreases g.street_sorted@.len() - k,
{
    let all = listed(g, q, k, limit, out);
    if k >= g.street_sorted@.len() {
    } else if !is_prefix(q, g.name(k)) {
        assert forall|j: int, s: Seq<char>| j >= k && begins_so(g, q, j, s) implies false by {
            assert(text_le(g.name(k), g.name(j)));
            lemma_between(q, g.name(k), g.name(j));
        }
    } else {
        match pool_text(g.street_pool@, g.street_off@, g.street_sorted@[k]) {
            Some(s) if !out.contains(s) => {
                let more = out.push(s);
                assert(begins_so(g, q, k, s));
                assert(some_street(g, q, s));
                assert(fine_list(g, q, limit, more)) by {
                    assert forall|i: int| 0 <= i < more.len() implies some_street(
                        g,
                        q,
                        #[trigger] more[i],
                    ) by {
                        if i < out.len() {
                            assert(more[i] == out[i]);
                        }
                    }
                }
                assert forall|x: Seq<char>| #[trigger] out.contains(x) implies more.contains(x) by {
                    let i = out.index_of(x);
                    assert(more[i] == x);
                }
                assert(more[out.len() as int] == s);
                if more.len() < limit {
                    lemma_listed(g, q, k + 1, limit, more);
                    assert(more.contains(s));
                    assert(all.contains(s));
                    assert forall|x: Seq<char>| #[trigger] out.contains(x) implies all.contains(x) by {
                        assert(more.contains(x));
                    }
                }
            },
            _ => {
                lemma_listed(g, q, k + 1, limit, out);
                if let Some(s) = pool_text(g.street_pool@, g.street_off@, g.street_sorted@[k]) {
                    assert(out.contains(s));
                }
            },
        }
    }
}

/// What is suggested for a text are names of streets whose compared name begins
/// with it, each once and no more than were asked for; and where there are
/// fewer than that, it is all of them.
pub proof fn lemma_suggestions(
    g: Geocoder,
    text: Seq<char>,
    limit: int,
    out: Seq<Seq<char>>,
    k: int,
    s: Seq<char>,
)
    requires
        g.names_ok(),
        suggested(g, text, limit, out),
    ensures
        fine_list(g, encode_utf8(norm_of(text)), limit, out),
        out.len() < limit && encode_utf8(norm_of(text)).len() > 0 && begins_so(
            g,
            encode_utf8(norm_of(text)),
            k,
            s,
        ) ==> out.contains(s),
        encode_utf8(norm_of(text)).len() == 0 ==> out.len() == 0,
{
    let q = encode_utf8(norm_of(text));
    if q.len() > 0 {
        let f = first_from(g, q, 0);
        lemma_first_range(g, q, 0);
        assert forall|j: int| f <= j < g.street_sorted@.len() implies text_le(
            q,
            #[trigger] g.name(j),
        ) by {
            assert(text_le(g.name(f), g.name(j)));
            lemma_text_total(g.name(f), q);
            lemma_text_total(q, g.name(f));
            crate::geocode::order::lemma_text_trans(q, g.name(f), g.name(j));
        }
        lemma_listed(g, q, f, limit, Seq::empty());
        if begins_so(g, q, k, s) {
            lemma_none_before(g, q, k);
        }
    }
}

proof fn lemma_first_range(g: Geocoder, q: Seq<u8>, k: int)
    requires
        0 <= k <= g.street_sorted@.len(),
    ensures
        k <= first_from(g, q, k) <= g.street_sorted@.len(),
        first_from(g, q, k) < g.street_sorted@.len() ==> !text_lt(g.name(first_from(g, q, k)), q),
    decreases g.street_sorted@.len() - k,
{
    if k < g.street_sorted@.len() && text_lt(g.name(k), q) {
        lemma_first_range(g, q, k + 1);
    }
}

} // verus!

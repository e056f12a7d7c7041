//! What is built for addresses is what looking them up needs.

use vstd::prelude::*;
use crate::addresses::entries::{Entry, Gathered};
use crate::addresses::index::{book_of, by_cell, groups_of, quad, runs, street_place, AddressBook};
use crate::addresses::words::norm_bytes;
use crate::geocode::index::Geocoder;
use crate::intern::piece;
use crate::ranking::Ranking;
use crate::sorting::{quad_lt, text_le};

verus! {

/// A reader over the arrays of a book.
pub open spec fn reads(r: Geocoder, g: Gathered, b: AddressBook) -> bool {
    &&& r.coord@ == b.coord@
    &&& r.hn@ == b.hn@
    &&& r.street@ == b.street@
    &&& r.place@ == b.place@
    &&& r.cell_key@ == b.cell_key@
    &&& r.cell_off@ == b.cell_off@
    &&& r.fwd_idx@ == b.fwd_idx@
    &&& r.fwd_group@ == b.fwd_group@
    &&& r.hn_num@ == b.hn_num@
    &&& r.street_sorted@ == b.street_sorted@
    &&& r.street_norm@ == b.street_norm@
    &&& r.street_normoff@ == b.street_normoff@
    &&& r.place_tab@.len() == 2 * g.places.list@.len()
}

/// The groups of the first `n` positions, as they follow each other.
spec fn grouped(pairs: Seq<(u32, u32)>, n: int, out: Seq<u32>) -> bool {
    let m = out.len() / 3;
    &&& out.len() == 3 * m
    &&& (n > 0) == (m > 0)
    &&& m > 0 ==> out[2] == 0
    &&& forall|i: int| 0 <= i < m ==> #[trigger] leads_group(pairs, n, out, i)
    &&& forall|i: int, j: int| 0 <= i < j < m ==> starts_before(out, i, j)
    &&& forall|i: int, x: int|
        0 <= i < m && out[3 * i + 2] <= x < (if i + 1 < m {
            out[3 * i + 5] as int
        } else {
            n
        }) ==> #[trigger] in_group(pairs, out, i, x)
}

spec fn leads_group(pairs: Seq<(u32, u32)>, n: int, out: Seq<u32>, i: int) -> bool {
    out[3 * i + 2] < n && pairs[out[3 * i + 2] as int] == (out[3 * i], out[3 * i + 1])
}

spec fn starts_before(out: Seq<u32>, i: int, j: int) -> bool {
    out[3 * i + 2] < out[3 * j + 2]
}

spec fn in_group(pairs: Seq<(u32, u32)>, out: Seq<u32>, i: int, x: int) -> bool {
    pairs[x] == (out[3 * i], out[3 * i + 1])
}

#[verifier::rlimit(40)]
proof fn lemma_grouped(pairs: Seq<(u32, u32)>, n: int)
    requires
        0 <= n <= pairs.len(),
        pairs.len() < u32::MAX,
    ensures
        grouped(pairs, n, groups_of(pairs, n)),
    decreases n,
{
    if n > 0 {
        lemma_grouped(pairs, n - 1);
        let a = groups_of(pairs, n - 1);
        let b = groups_of(pairs, n);
        let (ma, mb) = (a.len() / 3, b.len() / 3);
        if n > 1 {
            let last = ma - 1;
            assert(leads_group(pairs, n - 1, a, last as int));
            assert(in_group(pairs, a, last as int, n - 2));
        }
        assert(b.len() == a.len() || b.len() == a.len() + 3);
        assert forall|i: int| 0 <= i < mb implies #[trigger] leads_group(pairs, n, b, i) by {
            if i < ma {
                assert(leads_group(pairs, n - 1, a, i));
            }
        }
        assert forall|i: int, j: int| 0 <= i < j < mb implies starts_before(b, i, j) by {
            if j < ma {
                assert(starts_before(a, i, j));
            } else {
                assert(leads_group(pairs, n - 1, a, i));
            }
        }
        assert forall|i: int, x: int|
            0 <= i < mb && b[3 * i + 2] <= x < (if i + 1 < mb {
                b[3 * i + 5] as int
            } else {
                n
            }) implies #[trigger] in_group(pairs, b, i, x) by {
            if i < ma {
                if x < n - 1 {
                    assert(in_group(pairs, a, i, x));
                }
            }
        }
    }
}

/// The book that is built from addresses is one in which they can be looked up.
#[verifier::rlimit(80)]
#[verifier::spinoff_prover]
pub proof fn lemma_book_reads(r: Geocoder, g: Gathered, es: Seq<Entry>, b: AddressBook)
    requires
        g.holds(es),
        book_of(g, b),
        reads(r, g, b),
    ensures
        r.wf(),
{
    let rank = choose|rank: Ranking| #[trigger] by_cell(g.recs@, rank, b) && runs(
        Seq::new(
            g.recs@.len(),
            |x: int| crate::addresses::index::cell_keys(g.recs@)[rank.order@[x] as int],
        ),
        b.cell_key@,
        b.cell_off@,
    );
    let n = g.recs@.len();
    assert forall|x: int| 0 <= x < n implies (#[trigger] b.hn@[x]) < b.hn_num@.len() && b.place@[x]
        < g.places.list@.len() by {
        assert(b.coord@[x] == (
            g.recs@[rank.order@[x] as int].lat,
            g.recs@[rank.order@[x] as int].lon,
        ));
        assert(rank.order@[x] < n);
        assert(g.tells(g.recs@[rank.order@[x] as int], es[rank.order@[x] as int]));
    }
    assert(r.points_ok());
    assert(r.names_ok()) by {
        let m = g.streets.size();
        assert forall|k: int| 0 <= k < m implies vstd::utf8::valid_utf8(#[trigger] r.name(k)) by {
            assert(piece(b.street_norm@, b.street_normoff@, k) == norm_bytes(
                g.streets.text(b.street_sorted@[k] as int),
            ));
            vstd::utf8::encode_utf8_valid_utf8(
                crate::addresses::words::norm_of(
                    crate::addresses::words::lossy(g.streets.text(b.street_sorted@[k] as int)),
                ),
            );
        }
        assert forall|i: int, j: int| 0 <= i <= j < m implies text_le(
            #[trigger] r.name(i),
            #[trigger] r.name(j),
        ) by {
            assert(piece(b.street_norm@, b.street_normoff@, i) == norm_bytes(
                g.streets.text(b.street_sorted@[i] as int),
            ));
            assert(piece(b.street_norm@, b.street_normoff@, j) == norm_bytes(
                g.streets.text(b.street_sorted@[j] as int),
            ));
        }
    }
    assert(r.cells_ok()) by {
        assert forall|i: int, j: int| 0 <= i <= j < r.cell_off@.len() implies r.cell_off@[i]
            <= r.cell_off@[j] by {
            if i < j {
                assert(b.cell_off@[i] < b.cell_off@[j]);
            }
        }
    }
    let pairs = street_place(b);
    let out = groups_of(pairs, n as int);
    lemma_grouped(pairs, n as int);
    let m = out.len() / 3;
    assert(r.fwd_group@.len() == out.len() + 3);
    assert(r.groups() == m);
    assert forall|i: int| 0 <= i < m implies #[trigger] r.group_street(i) == out[3 * i]
        && r.group_place(i) == out[3 * i + 1] && r.group_start(i) == out[3 * i + 2] by {}
    assert(r.group_start(m as int) == n);
    assert forall|i: int| 0 <= i < m implies 0 <= #[trigger] r.group_start(i) < n by {
        assert(r.group_street(i) == out[3 * i]);
        assert(leads_group(pairs, n as int, out, i));
    }
    assert(r.groups_ok()) by {
        assert forall|i: int, j: int| 0 <= i <= j < r.groups() implies (
        #[trigger] r.group_street(i)) <= (#[trigger] r.group_street(j)) by {
            if i < j {
                assert(leads_group(pairs, n as int, out, i));
                assert(leads_group(pairs, n as int, out, j));
                assert(starts_before(out, i, j));
                let (x, y) = (out[3 * i + 2] as int, out[3 * j + 2] as int);
                assert(quad_lt(quad(b, b.fwd_idx@[x] as int), quad(b, b.fwd_idx@[y] as int)));
            }
        }
        assert forall|i: int, j: int| 0 <= i <= j <= r.groups() implies (
        #[trigger] r.group_start(i)) <= (#[trigger] r.group_start(j)) by {
            if i < j {
                assert(r.group_street(i) == out[3 * i]);
                assert(leads_group(pairs, n as int, out, i));
                if j < m {
                    assert(r.group_street(j) == out[3 * j]);
                    assert(starts_before(out, i, j));
                }
            }
        }
        assert forall|i: int| 0 <= i < r.groups() implies 2 * (#[trigger] r.group_place(i)) + 1
            < r.place_tab@.len() by {
            assert(r.group_street(i) == out[3 * i]);
            assert(leads_group(pairs, n as int, out, i));
            let x = b.fwd_idx@[out[3 * i + 2] as int] as int;
            assert(b.hn@[x] < b.hn_num@.len() && b.place@[x] < g.places.list@.len());
        }
    }
    assert(r.numbers_ok()) by {
        assert forall|i: int, x: int, y: int|
            0 <= i < r.groups() && r.group_start(i) <= x <= y < r.group_start(
                i + 1,
            ) implies #[trigger] r.in_order(i, x, y) by {
            assert(r.group_street(i) == out[3 * i]);
            if i + 1 < m {
                assert(r.group_street(i + 1) == out[3 * (i + 1)]);
                assert(leads_group(pairs, n as int, out, i + 1));
            }
            assert(in_group(pairs, out, i, x));
            assert(in_group(pairs, out, i, y));
            if x < y {
                assert(quad_lt(quad(b, b.fwd_idx@[x] as int), quad(b, b.fwd_idx@[y] as int)));
            }
        }
    }
}

} // verus!

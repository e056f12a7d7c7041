//! What a scan of ways and nodes keeps.

use vstd::prelude::*;
use crate::addresses::doors::{door_at, four_at, line_at};
use crate::bitmap::{ones, BitMap};
use crate::bytes::{le, lemma_le_number, lemma_pow256};
use crate::pbf::node::NodeModel;
use crate::profile::drivable;
use crate::text::word;
use crate::varint::{leb_bytes, lemma_number_kept, lemma_string_kept, string_bytes};
use crate::ways::harvest::{
    addr_bytes, city_of, door_bytes, has_key, is_addr_way, is_toll, joint, last_or_none, took_node,
    took_way, P1,
};
use crate::ways::record::{course_part, lemma_course_kept, steps_fit};

verus! {

/// The tags of ways, and their nodes.
pub type Tags<'a> = Seq<(&'a [u8], &'a [u8])>;

/// Way `i` is a road.
pub open spec fn is_road(ts: Seq<Tags>, rs: Seq<Seq<i64>>, i: int) -> bool {
    0 <= i < rs.len() && drivable(ts[i]) && rs[i].len() >= 2
}

/// Node `j` stands at place `k` of way `i`, a road.
pub open spec fn stands_at(ts: Seq<Tags>, rs: Seq<Seq<i64>>, i: int, k: int, j: int) -> bool {
    is_road(ts, rs, i) && 0 <= k < rs[i].len() && rs[i][k] == j
}

/// Node `j` stands on a road among the first `n` ways.
pub open spec fn on_road(ts: Seq<Tags>, rs: Seq<Seq<i64>>, n: int, j: int) -> bool {
    exists|i: int, k: int| i < n && #[trigger] stands_at(ts, rs, i, k, j)
}

/// A road among the first `n` ways begins or ends at node `j`.
pub open spec fn at_end(ts: Seq<Tags>, rs: Seq<Seq<i64>>, n: int, j: int) -> bool {
    exists|i: int, k: int|
        i < n && #[trigger] stands_at(ts, rs, i, k, j) && (k == 0 || k == rs[i].len() - 1)
}

/// Node `j` stands at two places of roads among the first `n` ways.
pub open spec fn twice(ts: Seq<Tags>, rs: Seq<Seq<i64>>, n: int, j: int) -> bool {
    exists|i: int, k: int, a: int, b: int|
        i < n && a < n && #[trigger] stands_at(ts, rs, i, k, j) && #[trigger] stands_at(
            ts,
            rs,
            a,
            b,
            j,
        ) && !(i == a && k == b)
}

/// The marks after each way.
pub open spec fn scanned(sts: Seq<P1>, ts: Seq<Tags>, rs: Seq<Seq<i64>>) -> bool {
    &&& sts.len() == rs.len() + 1
    &&& ts.len() == rs.len()
    &&& forall|i: int| 0 <= i < rs.len() ==> #[trigger] took_way(sts[i], sts[i + 1], ts[i], rs[i])
    &&& forall|i: int| 0 <= i < sts.len() ==> (#[trigger] sts[i]).need.room() == sts[0].need.room()
    &&& forall|j: int| #![trigger sts[0].road.has(j)] 0 <= j < sts[0].need.room() ==> !sts[0].road.has(j)
    &&& forall|j: int| #![trigger sts[0].junc.has(j)] 0 <= j < sts[0].need.room() ==> !sts[0].junc.has(j)
}

proof fn lemma_scan(sts: Seq<P1>, ts: Seq<Tags>, rs: Seq<Seq<i64>>, n: int, j: int)
    requires
        scanned(sts, ts, rs),
        0 <= n <= rs.len(),
        0 <= j < sts[0].need.room(),
        j <= i64::MAX,
    ensures
        sts[n].road.has(j) <==> on_road(ts, rs, n, j),
        sts[n].junc.has(j) <==> at_end(ts, rs, n, j) || twice(ts, rs, n, j),
    decreases n,
{
    if n > 0 {
        let m = n - 1;
        lemma_scan(sts, ts, rs, m, j);
        assert(took_way(sts[m], sts[m + 1], ts[m], rs[m]));
        let (a, b) = (sts[m], sts[n]);
        assert(a.need.room() == sts[0].need.room());
        let refs = rs[m];
        let road = is_road(ts, rs, m);
        // On a road.
        if road && refs.contains(j as i64) {
            let k = refs.index_of(j as i64);
            assert(stands_at(ts, rs, m, k, j));
        }
        if on_road(ts, rs, m, j) {
            let (i, k) = choose|i: int, k: int| i < m && #[trigger] stands_at(ts, rs, i, k, j);
            assert(stands_at(ts, rs, i, k, j) && i < n);
        }
        if on_road(ts, rs, n, j) && !on_road(ts, rs, m, j) {
            let (i, k) = choose|i: int, k: int| i < n && #[trigger] stands_at(ts, rs, i, k, j);
            assert(i == m);
            assert(refs[k] == j as i64);
        }
        // A junction.
        if at_end(ts, rs, m, j) {
            let (i, k) = choose|i: int, k: int|
                i < m && #[trigger] stands_at(ts, rs, i, k, j) && (k == 0 || k == rs[i].len() - 1);
            assert(stands_at(ts, rs, i, k, j) && i < n);
        }
        if twice(ts, rs, m, j) {
            let (i, k, x, y) = choose|i: int, k: int, x: int, y: int|
                i < m && x < m && #[trigger] stands_at(ts, rs, i, k, j) && #[trigger] stands_at(
                    ts,
                    rs,
                    x,
                    y,
                    j,
                ) && !(i == x && k == y);
            assert(stands_at(ts, rs, i, k, j) && stands_at(ts, rs, x, y, j) && i < n && x < n);
        }
        if road && joint(a.road, refs, refs.len() as int, j) {
            let k = choose|k: int|
                0 <= k < refs.len() && (#[trigger] refs[k]) == j && (k == 0 || k == refs.len() - 1
                    || a.road.has(j) || refs.take(k).contains(j as i64));
            assert(stands_at(ts, rs, m, k, j));
            if k == 0 || k == refs.len() - 1 {
                assert(at_end(ts, rs, n, j));
            } else if a.road.has(j) {
                let (x, y) = choose|x: int, y: int| x < m && #[trigger] stands_at(ts, rs, x, y, j);
                assert(stands_at(ts, rs, x, y, j));
                assert(twice(ts, rs, n, j));
            } else {
                let y = refs.take(k).index_of(j as i64);
                assert(refs[y] == j as i64);
                assert(stands_at(ts, rs, m, y, j));
                assert(twice(ts, rs, n, j));
            }
        }
        if at_end(ts, rs, n, j) && !at_end(ts, rs, m, j) {
            let (i, k) = choose|i: int, k: int|
                i < n && #[trigger] stands_at(ts, rs, i, k, j) && (k == 0 || k == rs[i].len() - 1);
            if i < m {
                assert(stands_at(ts, rs, i, k, j));
            }
            assert(i == m);
            assert(refs[k] == j);
            assert(joint(a.road, refs, refs.len() as int, j));
        }
        if twice(ts, rs, n, j) && !twice(ts, rs, m, j) {
            let (i, k, x, y) = choose|i: int, k: int, x: int, y: int|
                i < n && x < n && #[trigger] stands_at(ts, rs, i, k, j) && #[trigger] stands_at(
                    ts,
                    rs,
                    x,
                    y,
                    j,
                ) && !(i == x && k == y);
            if i < m && x < m {
                assert(stands_at(ts, rs, i, k, j) && stands_at(ts, rs, x, y, j));
            }
            if i == m && x == m {
                let (p, q) = if k < y {
                    (k, y)
                } else {
                    (y, k)
                };
                assert(refs[q] == j && refs[p] == j as i64);
                assert(refs.take(q)[p] == j as i64);
                assert(joint(a.road, refs, refs.len() as int, j));
            } else if i == m {
                assert(stands_at(ts, rs, x, y, j));
                assert(on_road(ts, rs, m, j));
                assert(refs[k] == j);
                assert(joint(a.road, refs, refs.len() as int, j));
            } else {
                assert(x == m);
                assert(stands_at(ts, rs, i, k, j));
                assert(on_road(ts, rs, m, j));
                assert(refs[y] == j);
                assert(joint(a.road, refs, refs.len() as int, j));
            }
        }
    } else {
        if on_road(ts, rs, 0, j) {
            let (i, k) = choose|i: int, k: int| i < 0 && #[trigger] stands_at(ts, rs, i, k, j);
            assert(stands_at(ts, rs, i, k, j));
        }
        if at_end(ts, rs, 0, j) {
            let (i, k) = choose|i: int, k: int|
                i < 0 && #[trigger] stands_at(ts, rs, i, k, j) && (k == 0 || k == rs[i].len() - 1);
            assert(stands_at(ts, rs, i, k, j));
        }
        if twice(ts, rs, 0, j) {
            let (i, k, x, y) = choose|i: int, k: int, x: int, y: int|
                i < 0 && x < 0 && #[trigger] stands_at(ts, rs, i, k, j) && #[trigger] stands_at(
                    ts,
                    rs,
                    x,
                    y,
                    j,
                ) && !(i == x && k == y);
            assert(stands_at(ts, rs, i, k, j));
        }
    }
}

/// After a scan of ways, a node is on a road where a road passes it, and a
/// junction where a road begins or ends, or where roads pass it twice: two of
/// them, or one of them two times.
pub proof fn lemma_junctions(sts: Seq<P1>, ts: Seq<Tags>, rs: Seq<Seq<i64>>, j: int)
    requires
        scanned(sts, ts, rs),
        0 <= j < sts[0].need.room(),
        j <= i64::MAX,
    ensures
        sts.last().road.has(j) <==> on_road(ts, rs, rs.len() as int, j),
        sts.last().junc.has(j) <==> at_end(ts, rs, rs.len() as int, j) || twice(
            ts,
            rs,
            rs.len() as int,
            j,
        ),
{
    lemma_scan(sts, ts, rs, rs.len() as int, j);
}

// --------------------------------------------------------------------- nodes

/// A node that was kept has its own place and no other; the places of other
/// nodes stay, and so do their marks.
pub proof fn lemma_node_placed(
    need: BitMap,
    j0: BitMap,
    j1: BitMap,
    c0: Seq<(i32, i32)>,
    c1: Seq<(i32, i32)>,
    n: NodeModel,
    tags: Tags,
)
    requires
        took_node(need, j0, j1, c0, c1, n, tags),
        0 <= n.id < need.n_bits,
        need.has(n.id as int),
        ones(need.words@, n.id as int) < c0.len(),
        n.id < j0.room(),
        0 <= ones(need.words@, n.id as int),
    ensures
        c1[ones(need.words@, n.id as int)].0 == n.lat_e7,
        c1[ones(need.words@, n.id as int)].1 == n.lon_e7,
        forall|k: int|
            0 <= k < c0.len() && k != ones(need.words@, n.id as int) ==> #[trigger] c1[k] == c0[k],
        forall|j: int|
            0 <= j < j0.room() && j != n.id ==> #[trigger] j1.has(j) == j0.has(j),
        forall|i: int|
            0 <= i < tags.len() && ((#[trigger] tags[i]).0@ == word("barrier") && (tags[i].1@
                == word("gate") || tags[i].1@ == word("lift_gate") || tags[i].1@ == word(
                "border_control",
            ) || tags[i].1@ == word("toll_booth"))) ==> j1.has(n.id as int),
        is_toll(tags) ==> j1.has(n.id as int),
        (forall|i: int| 0 <= i < tags.len() ==> (#[trigger] tags[i]).0@ != word("barrier")
            && tags[i].0@ != word("highway") && tags[i].0@ != word("amenity")) ==> j1.has(
            n.id as int,
        ) == j0.has(n.id as int),
{
    assert(n.id as u64 == n.id);
    assert forall|i: int|
        0 <= i < tags.len() && ((#[trigger] tags[i]).0@ == word("barrier") && (tags[i].1@ == word(
            "gate",
        ) || tags[i].1@ == word("lift_gate") || tags[i].1@ == word("border_control")
            || tags[i].1@ == word("toll_booth"))) implies j1.has(n.id as int) by {
        assert(crate::ways::harvest::forcing_tag(tags[i]));
    }
    if is_toll(tags) {
        let i = choose|i: int| 0 <= i < tags.len() && crate::ways::harvest::toll_tag(
            #[trigger] tags[i],
        );
        assert(crate::ways::harvest::forcing_tag(tags[i]));
    }
}

proof fn lemma_four_kept(
    pre: Seq<u8>,
    s1: Seq<u8>,
    s2: Seq<u8>,
    s3: Seq<u8>,
    s4: Seq<u8>,
    rest: Seq<u8>,
)
    requires
        s1.len() <= u64::MAX,
        s2.len() <= u64::MAX,
        s3.len() <= u64::MAX,
        s4.len() <= u64::MAX,
    ensures
        ({
            let all = string_bytes(s1) + string_bytes(s2) + string_bytes(s3) + string_bytes(s4);
            four_at(pre + all + rest, pre.len() as int) == Some(
                (s1, s2, s3, s4, (pre.len() + all.len()) as int),
            )
        }),
{
    let (a, b, c, d) = (string_bytes(s1), string_bytes(s2), string_bytes(s3), string_bytes(s4));
    let all = pre + (a + b + c + d) + rest;
    lemma_string_kept(pre, s1, b + c + d + rest);
    assert(all =~= pre + a + (b + c + d + rest));
    lemma_string_kept(pre + a, s2, c + d + rest);
    assert(all =~= pre + a + b + (c + d + rest));
    lemma_string_kept(pre + a + b, s3, d + rest);
    assert(all =~= pre + a + b + c + (d + rest));
    lemma_string_kept(pre + a + b + c, s4, rest);
    assert(all =~= pre + a + b + c + d + rest);
}

proof fn lemma_i32(x: i32)
    ensures
        ((x as u32) as i32) == x,
{
    assert(((x as u32) as i32) == x) by (bit_vector);
}

/// The record of a door is read back as it was written: the place of the node,
/// its latitude first, and what its tags say of the address.
pub proof fn lemma_door_read(
    pre: Seq<u8>,
    id: i64,
    lat: i32,
    lon: i32,
    tags: Tags,
    rest: Seq<u8>,
)
    requires
        has_key(tags, "addr:housenumber") || has_key(tags, "addr:street"),
        last_or_none(tags, "addr:housenumber").len() <= u64::MAX,
        last_or_none(tags, "addr:street").len() <= u64::MAX,
        city_of(tags).len() <= u64::MAX,
        last_or_none(tags, "addr:postcode").len() <= u64::MAX,
    ensures
        ({
            let x = door_bytes(id, lat, lon, tags);
            door_at(pre + x + rest, pre.len() as int) matches Some((d, e)) && {
                &&& d.id == id as u64
                &&& d.lat == lat
                &&& d.lon == lon
                &&& d.hn == last_or_none(tags, "addr:housenumber")
                &&& d.street == last_or_none(tags, "addr:street")
                &&& d.city == city_of(tags)
                &&& d.pc == last_or_none(tags, "addr:postcode")
                &&& e == pre.len() + x.len()
            }
        }),
{
    reveal(door_at);
    let x = door_bytes(id, lat, lon, tags);
    let (hn, street, city, pc) = (
        last_or_none(tags, "addr:housenumber"),
        last_or_none(tags, "addr:street"),
        city_of(tags),
        last_or_none(tags, "addr:postcode"),
    );
    let (i, a, o) = (
        leb_bytes((id as u64) as nat),
        le((lat as u32) as int, 4),
        le((lon as u32) as int, 4),
    );
    let (s1, s2, s3, s4) = (
        string_bytes(hn),
        string_bytes(street),
        string_bytes(city),
        string_bytes(pc),
    );
    let four = s1 + s2 + s3 + s4;
    let b = pre + x + rest;
    let front = pre + i + a + o;
    lemma_pow256();
    lemma_le_number((lat as u32) as int, 4);
    lemma_le_number((lon as u32) as int, 4);
    assert(x == i + a + o + s1 + s2 + s3 + s4);
    lemma_rows(pre, i, a, o, s1, s2, s3, s4, rest);
    lemma_number_kept(pre, id as u64, a + o + four + rest);
    lemma_four_kept(front, hn, street, city, pc, rest);
    lemma_i32(lat);
    lemma_i32(lon);
}

/// The same bytes, taken together in other ways.
proof fn lemma_rows(
    pre: Seq<u8>,
    i: Seq<u8>,
    a: Seq<u8>,
    o: Seq<u8>,
    s1: Seq<u8>,
    s2: Seq<u8>,
    s3: Seq<u8>,
    s4: Seq<u8>,
    rest: Seq<u8>,
)
    requires
        a.len() == 4,
        o.len() == 4,
    ensures
        ({
            let b = pre + (i + a + o + s1 + s2 + s3 + s4) + rest;
            let four = s1 + s2 + s3 + s4;
            let q = (pre.len() + i.len()) as int;
            &&& b == pre + i + (a + o + four + rest)
            &&& b == (pre + i + a + o) + four + rest
            &&& b.subrange(q, q + 4) == a
            &&& b.subrange(q + 4, q + 8) == o
        }),
{
    let b = pre + (i + a + o + s1 + s2 + s3 + s4) + rest;
    let four = s1 + s2 + s3 + s4;
    let q = (pre.len() + i.len()) as int;
    assert(i + a + o + s1 + s2 + s3 + s4 =~= i + (a + o + four));
    let y = a + o + four;
    assert(b =~= pre + i + (y + rest));
    assert(b.subrange(q, q + y.len()) =~= y);
    assert(y.subrange(0, 4) =~= a);
    assert(y.subrange(4, 8) =~= o);
    assert(b.subrange(q, q + 4) =~= y.subrange(0, 4));
    assert(b.subrange(q + 4, q + 8) =~= y.subrange(4, 8));
    let head = pre + i;
    assert(head + (y + rest) =~= (head + a + o) + four + rest);
}

/// The record of an address way is read back as it was written.
pub proof fn lemma_address_way_read(pre: Seq<u8>, tags: Tags, refs: Seq<i64>, rest: Seq<u8>)
    requires
        is_addr_way(tags),
        0 < refs.len() <= u64::MAX,
        steps_fit(refs),
        last_or_none(tags, "addr:housenumber").len() <= u64::MAX,
        last_or_none(tags, "addr:street").len() <= u64::MAX,
        city_of(tags).len() <= u64::MAX,
        last_or_none(tags, "addr:postcode").len() <= u64::MAX,
        last_or_none(tags, "addr:interpolation").len() <= u64::MAX,
    ensures
        ({
            let x = addr_bytes(tags, refs);
            line_at(pre + x + rest, pre.len() as int) matches Some((l, e)) && {
                &&& l.kind == 2 <==> has_key(tags, "addr:interpolation")
                &&& l.kind == 1 || l.kind == 2
                &&& l.hn == last_or_none(tags, "addr:housenumber")
                &&& l.street == last_or_none(tags, "addr:street")
                &&& l.city == city_of(tags)
                &&& l.pc == last_or_none(tags, "addr:postcode")
                &&& l.rule == last_or_none(tags, "addr:interpolation")
                &&& l.refs == refs
                &&& e == pre.len() + x.len()
            }
        }),
{
    reveal(line_at);
    let x = addr_bytes(tags, refs);
    let (hn, street, city, pc, rule) = (
        last_or_none(tags, "addr:housenumber"),
        last_or_none(tags, "addr:street"),
        city_of(tags),
        last_or_none(tags, "addr:postcode"),
        last_or_none(tags, "addr:interpolation"),
    );
    let kind: u8 = if has_key(tags, "addr:interpolation") {
        2
    } else {
        1
    };
    let (s1, s2, s3, s4) = (
        string_bytes(hn),
        string_bytes(street),
        string_bytes(city),
        string_bytes(pc),
    );
    let four = s1 + s2 + s3 + s4;
    let (r, c) = (string_bytes(rule), course_part(refs));
    let b = pre + x + rest;
    let p1 = pre + seq![kind];
    assert(x == seq![kind] + s1 + s2 + s3 + s4 + r + c);
    lemma_columns(pre, kind, s1, s2, s3, s4, r, c, rest);
    lemma_four_kept(p1, hn, street, city, pc, r + c + rest);
    lemma_string_kept(p1 + four, rule, c + rest);
    lemma_course_kept(p1 + four + r, refs, rest);
}

proof fn lemma_columns(
    pre: Seq<u8>,
    kind: u8,
    s1: Seq<u8>,
    s2: Seq<u8>,
    s3: Seq<u8>,
    s4: Seq<u8>,
    r: Seq<u8>,
    c: Seq<u8>,
    rest: Seq<u8>,
)
    ensures
        ({
            let b = pre + (seq![kind] + s1 + s2 + s3 + s4 + r + c) + rest;
            let (p1, four) = (pre + seq![kind], s1 + s2 + s3 + s4);
            &&& b[pre.len() as int] == kind
            &&& b == p1 + four + (r + c + rest)
            &&& b == (p1 + four) + r + (c + rest)
            &&& b == (p1 + four + r) + c + rest
        }),
{
    let k = seq![kind];
    let b = pre + (k + s1 + s2 + s3 + s4 + r + c) + rest;
    let (p1, four) = (pre + k, s1 + s2 + s3 + s4);
    assert(k + s1 + s2 + s3 + s4 + r + c =~= k + (four + (r + c)));
    let y = four + (r + c);
    assert(b =~= p1 + (y + rest));
    assert((k + y)[0] == kind);
    assert(p1 + (y + rest) =~= p1 + four + (r + c + rest));
    let p2 = p1 + four;
    assert(p2 + (r + c + rest) =~= p2 + r + (c + rest));
    assert(p2 + r + (c + rest) =~= (p2 + r) + c + rest);
}

} // verus!

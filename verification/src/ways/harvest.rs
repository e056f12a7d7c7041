//! What one way and one node leave behind: marks in the bitmaps, coordinates,
//! and records of roads, addresses and tolls.

use vstd::prelude::*;
use crate::attr::{packed, pack_attr};
use crate::bitmap::{ones, BitMap};
use crate::bytes::{le, put_u32};
use crate::pbf::block::{contents, Block};
use crate::pbf::node::{DenseNode, NodeModel};
use crate::profile::{
    any_tag, classify, drivable, flag, key, last_at, last_value, not_false, ring_value, toll_key,
    true_value, way_class, way_direction, way_kmh, WayAttr, NO_STR,
};
use crate::text::{is_word, word};
use crate::varint::{leb_bytes, put_bytes, put_u, string_bytes};
use crate::ways::record::{
    course_part, encode_way, prior, put_refs, steps_fit, way_record,
};

verus! {

/// The bitmaps that a scan of the ways fills.
pub struct P1 {
    /// Nodes touched by a drivable way.
    pub road: BitMap,
    /// Nodes whose coordinates are kept.
    pub need: BitMap,
    /// Junctions and dead ends: these become graph vertices.
    pub junc: BitMap,
}

impl P1 {
    pub open spec fn wf(&self) -> bool {
        &&& self.road.wf()
        &&& self.need.wf()
        &&& self.junc.wf()
        &&& self.road.n_bits == self.need.n_bits
        &&& self.junc.n_bits == self.need.n_bits
        &&& self.need.n_bits <= 0x7FFF_FFFF_FFFF_FFFF
    }

    /// Bitmaps over the ids up to the largest.
    pub fn new(max_node_id: u64) -> (r: P1)
        requires
            max_node_id < 0x7FFF_FFFF_FFFF_FFFF,
            max_node_id / 64 + 1 <= usize::MAX,
        ensures
            r.wf(),
            r.need.n_bits == max_node_id + 1,
            forall|i: int| 0 <= i < r.need.room() ==> !#[trigger] r.need.has(i),
            forall|i: int| 0 <= i < r.road.room() ==> !#[trigger] r.road.has(i),
            forall|i: int| 0 <= i < r.junc.room() ==> !#[trigger] r.junc.has(i),
    {
        let n: u64 = max_node_id + 1;
        P1 { road: BitMap::new(n), need: BitMap::new(n), junc: BitMap::new(n) }
    }

    /// How many road nodes, kept nodes and junctions there are.
    pub fn counts(&self) -> (r: (u64, u64, u64))
        requires
            self.wf(),
        ensures
            r.0 == ones(self.road.words@, self.road.room()),
            r.1 == ones(self.need.words@, self.need.room()),
            r.2 == ones(self.junc.words@, self.junc.room()),
    {
        (self.road.count_ones(), self.need.count_ones(), self.junc.count_ones())
    }
}

// -------------------------------------------------------------------- tags

/// Where the first of the tags with a key stands, from `i` on.
pub open spec fn first_at(tags: Seq<(&[u8], &[u8])>, key: spec_fn(Seq<u8>) -> bool, i: int) -> Option<
    int,
>
    decreases tags.len() - i,
{
    if i >= tags.len() {
        None
    } else if key(tags[i].0@) {
        Some(i)
    } else {
        first_at(tags, key, i + 1)
    }
}

/// The value of the first tag with a key, or nothing.
pub open spec fn first_or_none(tags: Seq<(&[u8], &[u8])>, w: &str) -> Seq<u8> {
    match first_at(tags, key(w), 0) {
        None => Seq::empty(),
        Some(i) => tags[i].1@,
    }
}

pub open spec fn place_key() -> spec_fn(Seq<u8>) -> bool {
    |k: Seq<u8>| k == word("addr:city") || k == word("addr:place")
}

pub open spec fn last_or_none(tags: Seq<(&[u8], &[u8])>, w: &str) -> Seq<u8> {
    match last_value(tags, key(w), tags.len() as int) {
        None => Seq::empty(),
        Some(v) => v,
    }
}

pub open spec fn has_key(tags: Seq<(&[u8], &[u8])>, w: &str) -> bool {
    last_value(tags, key(w), tags.len() as int) is Some
}

/// The city, or else the place, whichever is given first.
pub open spec fn city_of(tags: Seq<(&[u8], &[u8])>) -> Seq<u8> {
    match first_at(tags, place_key(), 0) {
        None => Seq::empty(),
        Some(i) => tags[i].1@,
    }
}

pub fn find_first<'a>(tags: &[(&'a [u8], &'a [u8])], w: &str) -> (r: Option<&'a [u8]>)
    ensures
        match r {
            None => first_at(tags@, key(w), 0) is None,
            Some(v) => v@ == first_or_none(tags@, w) && first_at(tags@, key(w), 0) is Some,
        },
{
    let mut i: usize = 0;
    while i < tags.len()
        invariant
            i <= tags@.len(),
            first_at(tags@, key(w), i as int) == first_at(tags@, key(w), 0),
        decreases tags@.len() - i,
    {
        if is_word(tags[i].0, w) {
            return Some(tags[i].1);
        }
        i += 1;
    }
    None
}

fn find_last<'a>(tags: &[(&'a [u8], &'a [u8])], w: &str) -> (r: Option<&'a [u8]>)
    ensures
        match r {
            None => last_value(tags@, key(w), tags@.len() as int) is None,
            Some(v) => last_value(tags@, key(w), tags@.len() as int) == Some(v@),
        },
{
    let mut i: usize = tags.len();
    while i > 0
        invariant
            i <= tags@.len(),
            last_at(tags@, key(w), i as int) == last_at(tags@, key(w), tags@.len() as int),
        decreases i,
    {
        if is_word(tags[i - 1].0, w) {
            return Some(tags[i - 1].1);
        }
        i -= 1;
    }
    None
}

fn find_city<'a>(tags: &[(&'a [u8], &'a [u8])]) -> (r: Option<&'a [u8]>)
    ensures
        match r {
            None => first_at(tags@, place_key(), 0) is None,
            Some(v) => v@ == city_of(tags@) && first_at(tags@, place_key(), 0) is Some,
        },
{
    let mut i: usize = 0;
    while i < tags.len()
        invariant
            i <= tags@.len(),
            first_at(tags@, place_key(), i as int) == first_at(tags@, place_key(), 0),
        decreases tags@.len() - i,
    {
        if is_word(tags[i].0, "addr:city") || is_word(tags[i].0, "addr:place") {
            return Some(tags[i].1);
        }
        i += 1;
    }
    None
}

fn put_or_none(b: &mut Vec<u8>, s: Option<&[u8]>)
    ensures
        final(b)@ == old(b)@ + string_bytes(
            match s {
                Some(v) => v@,
                None => Seq::empty(),
            },
        ),
{
    let none: [u8; 0] = [];
    match s {
        Some(v) => put_bytes(b, v),
        None => {
            let e: &[u8] = vstd::array::array_as_slice(&none);
            assert(e@ =~= Seq::<u8>::empty());
            put_bytes(b, e)
        },
    }
}

/// A way that carries addresses: a building with a number and a street, or a
/// line along which numbers are interpolated.
pub open spec fn is_addr_way(tags: Seq<(&[u8], &[u8])>) -> bool {
    (has_key(tags, "addr:housenumber") && has_key(tags, "addr:street")) || has_key(
        tags,
        "addr:interpolation",
    )
}

/// The record of an address way.
pub open spec fn addr_record(tags: Seq<(&[u8], &[u8])>, refs: Seq<i64>) -> Seq<u8> {
    seq![
        if has_key(tags, "addr:interpolation") {
            2u8
        } else {
            1u8
        },
    ] + string_bytes(last_or_none(tags, "addr:housenumber")) + string_bytes(
        last_or_none(tags, "addr:street"),
    ) + string_bytes(city_of(tags)) + string_bytes(last_or_none(tags, "addr:postcode"))
        + string_bytes(last_or_none(tags, "addr:interpolation")) + course_part(refs)
}

/// The attribute word of a way.
pub open spec fn attr_of(tags: Seq<(&[u8], &[u8])>) -> u32 {
    let class = way_class(tags)->0;
    packed(
        WayAttr {
            class,
            oneway: way_direction(tags, class),
            kmh: way_kmh(tags, class),
            toll: flag(tags, toll_key(), true_value()),
            bridge: flag(tags, key("bridge"), not_false()),
            tunnel: flag(tags, key("tunnel"), not_false()),
            roundabout: any_tag(tags, key("junction"), ring_value(), tags.len() as int),
            name_idx: NO_STR,
            ref_idx: NO_STR,
        },
    ) as u32
}

// -------------------------------------------------------------------- a way

/// Ids that have a bit.
pub open spec fn ids_fit(refs: Seq<i64>, n_bits: u64) -> bool {
    forall|k: int| 0 <= k < refs.len() ==> 0 <= (#[trigger] refs[k]) < n_bits
}

/// The node is an end of the way, or comes up twice.
pub open spec fn joint(road: BitMap, refs: Seq<i64>, n: int, j: int) -> bool {
    exists|k: int|
        0 <= k < n && (#[trigger] refs[k]) == j && (k == 0 || k == refs.len() - 1 || road.has(j)
            || refs.take(k).contains(j as i64))
}

pub fn no_string(v: &[u8]) -> (r: u32)
    ensures
        r == NO_STR,
{
    NO_STR
}

/// Marks the nodes of a road: kept, on a road, and junctions where the way ends
/// or another has been.
#[verifier::rlimit(40)]
fn mark_road(st: &mut P1, refs: &[i64])
    requires
        old(st).wf(),
        ids_fit(refs@, old(st).need.n_bits),
    ensures
        final(st).wf(),
        final(st).need.n_bits == old(st).need.n_bits,
        forall|j: int|
            0 <= j < old(st).need.room() ==> #[trigger] final(st).need.has(j) == (old(st).need.has(j)
                || refs@.contains(j as i64)),
        forall|j: int|
            0 <= j < old(st).need.room() ==> #[trigger] final(st).road.has(j) == (old(st).road.has(j)
                || refs@.contains(j as i64)),
        forall|j: int|
            0 <= j < old(st).need.room() ==> #[trigger] final(st).junc.has(j) == (old(st).junc.has(j)
                || joint(old(st).road, refs@, refs@.len() as int, j)),
{
    let ghost o = *st;
    let n: usize = refs.len();
    let ghost room = o.need.room();
    let mut k: usize = 0;
    while k < n
        invariant
            n == refs@.len(),
            k <= n,
            o.wf(),
            room == o.need.room(),
            room <= 0x8000_0000_0000_0000,
            st.wf(),
            st.need.n_bits == o.need.n_bits,
            ids_fit(refs@, o.need.n_bits),
            forall|j: int|
                0 <= j < room ==> #[trigger] st.need.has(j) == (o.need.has(j) || refs@.take(
                    k as int,
                ).contains(j as i64)),
            forall|j: int|
                0 <= j < room ==> #[trigger] st.road.has(j) == (o.road.has(j) || refs@.take(
                    k as int,
                ).contains(j as i64)),
            forall|j: int|
                0 <= j < room ==> #[trigger] st.junc.has(j) == (o.junc.has(j) || joint(
                    o.road,
                    refs@,
                    k as int,
                    j,
                )),
        decreases n - k,
    {
        let r: i64 = refs[k];
        assert(0 <= refs@[k as int] < o.need.n_bits);
        let id: u64 = r as u64;
        let ghost s0 = *st;
        st.need.set_quiet(id);
        let repeat: bool = st.road.set(id);
        if repeat || k == 0 || k == n - 1 {
            st.junc.set_quiet(id);
        }
        proof {
            let (a, b) = (refs@.take(k as int), refs@.take(k + 1));
            assert(b =~= a.push(r));
            assert forall|j: int| 0 <= j < room implies #[trigger] st.need.has(j) == (o.need.has(j)
                || b.contains(j as i64)) by {
                assert(s0.need.has(j) == (o.need.has(j) || a.contains(j as i64)));
                lemma_push_has(a, r, j as i64);
            }
            assert forall|j: int| 0 <= j < room implies #[trigger] st.road.has(j) == (o.road.has(j)
                || b.contains(j as i64)) by {
                assert(s0.road.has(j) == (o.road.has(j) || a.contains(j as i64)));
                lemma_push_has(a, r, j as i64);
            }
            assert forall|j: int| 0 <= j < room implies #[trigger] st.junc.has(j) == (o.junc.has(j)
                || joint(o.road, refs@, k + 1, j)) by {
                assert(s0.junc.has(j) == (o.junc.has(j) || joint(o.road, refs@, k as int, j)));
                assert(s0.road.has(j) == (o.road.has(j) || a.contains(j as i64)));
                if joint(o.road, refs@, k as int, j) {
                    let x = choose|x: int|
                        0 <= x < k && (#[trigger] refs@[x]) == j && (x == 0 || x == refs@.len() - 1
                            || o.road.has(j) || refs@.take(x).contains(j as i64));
                    assert(refs@[x] == j);
                }
                if joint(o.road, refs@, k + 1, j) && !joint(o.road, refs@, k as int, j) {
                    let x = choose|x: int|
                        0 <= x < k + 1 && (#[trigger] refs@[x]) == j && (x == 0 || x == refs@.len()
                            - 1 || o.road.has(j) || refs@.take(x).contains(j as i64));
                    assert(x == k);
                }
                if j == r {
                    assert(refs@[k as int] == j);
                }
            }
        }
        k += 1;
    }
    assert(refs@.take(n as int) =~= refs@);
}

proof fn lemma_push_has(a: Seq<i64>, r: i64, x: i64)
    ensures
        a.push(r).contains(x) <==> a.contains(x) || x == r,
{
    if a.contains(x) {
        let i = a.index_of(x);
        assert(a.push(r)[i] == x);
    }
    if x == r {
        assert(a.push(r)[a.len() as int] == x);
    }
    if a.push(r).contains(x) {
        let i = a.push(r).index_of(x);
        if i < a.len() {
            assert(a[i] == x);
        }
    }
}

fn mark_kept(need: &mut BitMap, refs: &[i64])
    requires
        old(need).wf(),
        old(need).n_bits <= 0x7FFF_FFFF_FFFF_FFFF,
        ids_fit(refs@, old(need).n_bits),
    ensures
        final(need).wf(),
        final(need).n_bits == old(need).n_bits,
        forall|j: int|
            0 <= j < old(need).room() ==> #[trigger] final(need).has(j) == (old(need).has(j)
                || refs@.contains(j as i64)),
{
    let ghost o = *need;
    let ghost room = o.room();
    let mut k: usize = 0;
    while k < refs.len()
        invariant
            k <= refs@.len(),
            o.wf(),
            room == o.room(),
            room <= 0x8000_0000_0000_0000,
            need.wf(),
            need.n_bits == o.n_bits,
            ids_fit(refs@, o.n_bits),
            forall|j: int|
                0 <= j < room ==> #[trigger] need.has(j) == (o.has(j) || refs@.take(
                    k as int,
                ).contains(j as i64)),
        decreases refs@.len() - k,
    {
        let r: i64 = refs[k];
        assert(0 <= refs@[k as int] < o.n_bits);
        let ghost s0 = *need;
        need.set_quiet(r as u64);
        proof {
            let (a, b) = (refs@.take(k as int), refs@.take(k + 1));
            assert(b =~= a.push(r));
            assert forall|j: int| 0 <= j < room implies #[trigger] need.has(j) == (o.has(j)
                || b.contains(j as i64)) by {
                assert(s0.has(j) == (o.has(j) || a.contains(j as i64)));
                lemma_push_has(a, r, j as i64);
            }
        }
        k += 1;
    }
    assert(refs@.take(k as int) =~= refs@);
}

/// What a way adds to the road records.
pub open spec fn road_bytes(id: i64, tags: Seq<(&[u8], &[u8])>, refs: Seq<i64>) -> Seq<u8> {
    if drivable(tags) && refs.len() >= 2 {
        way_record(
            id as u64,
            attr_of(tags),
            first_or_none(tags, "name"),
            first_or_none(tags, "ref"),
            refs,
        )
    } else {
        Seq::empty()
    }
}

/// What a way does to the marks: the nodes of a road are kept and on a road,
/// those of an address are kept, and the junctions of a road are junctions.
pub open spec fn took_way(a: P1, b: P1, tags: Seq<(&[u8], &[u8])>, refs: Seq<i64>) -> bool {
    let road = drivable(tags) && refs.len() >= 2;
    let addr = is_addr_way(tags) && refs.len() > 0;
    &&& forall|j: int|
        0 <= j < a.need.room() ==> #[trigger] b.need.has(j) == (a.need.has(j) || ((road || addr)
            && refs.contains(j as i64)))
    &&& forall|j: int|
        0 <= j < a.need.room() ==> #[trigger] b.road.has(j) == (a.road.has(j) || (road
            && refs.contains(j as i64)))
    &&& forall|j: int|
        0 <= j < a.need.room() ==> #[trigger] b.junc.has(j) == (a.junc.has(j) || (road && joint(
            a.road,
            refs,
            refs.len() as int,
            j,
        )))
}

/// What a way adds to the address records.
pub open spec fn addr_bytes(tags: Seq<(&[u8], &[u8])>, refs: Seq<i64>) -> Seq<u8> {
    if is_addr_way(tags) && refs.len() > 0 {
        addr_record(tags, refs)
    } else {
        Seq::empty()
    }
}

fn steps_ok(refs: &[i64], Ghost(n_bits): Ghost<u64>)
    requires
        ids_fit(refs@, n_bits),
        n_bits <= 0x7FFF_FFFF_FFFF_FFFF,
    ensures
        steps_fit(refs@),
{
    proof {
        assert forall|k: int| 0 <= k < refs@.len() implies i64::MIN <= (#[trigger] refs@[k])
            - prior(refs@, k) <= i64::MAX by {
            if k > 0 {
                assert(0 <= refs@[k - 1] < n_bits);
            }
        }
    }
}

fn write_address(tags: &[(&[u8], &[u8])], refs: &[i64], out: &mut Vec<u8>)
    requires
        steps_fit(refs@),
    ensures
        final(out)@ == old(out)@ + addr_record(tags@, refs@),
{
    let ghost o = out@;
    let interpolation: Option<&[u8]> = find_last(tags, "addr:interpolation");
    let kind: u8 = if interpolation.is_some() {
        2
    } else {
        1
    };
    out.push(kind);
    let ghost r0 = seq![kind];
    assert(out@ =~= o + r0);
    put_or_none(out, find_last(tags, "addr:housenumber"));
    let ghost r1 = r0 + string_bytes(last_or_none(tags@, "addr:housenumber"));
    proof {
        lemma_assoc(o, r0, string_bytes(last_or_none(tags@, "addr:housenumber")));
    }
    put_or_none(out, find_last(tags, "addr:street"));
    let ghost r2 = r1 + string_bytes(last_or_none(tags@, "addr:street"));
    proof {
        lemma_assoc(o, r1, string_bytes(last_or_none(tags@, "addr:street")));
    }
    put_or_none(out, find_city(tags));
    let ghost r3 = r2 + string_bytes(city_of(tags@));
    proof {
        lemma_assoc(o, r2, string_bytes(city_of(tags@)));
    }
    put_or_none(out, find_last(tags, "addr:postcode"));
    let ghost r4 = r3 + string_bytes(last_or_none(tags@, "addr:postcode"));
    proof {
        lemma_assoc(o, r3, string_bytes(last_or_none(tags@, "addr:postcode")));
    }
    put_or_none(out, interpolation);
    let ghost r5 = r4 + string_bytes(last_or_none(tags@, "addr:interpolation"));
    proof {
        lemma_assoc(o, r4, string_bytes(last_or_none(tags@, "addr:interpolation")));
    }
    put_refs(out, refs);
    proof {
        lemma_assoc(o, r5, course_part(refs@));
        assert(r5 + course_part(refs@) == addr_record(tags@, refs@));
    }
}

proof fn lemma_assoc(a: Seq<u8>, b: Seq<u8>, c: Seq<u8>)
    ensures
        (a + b) + c == a + (b + c),
{
    assert((a + b) + c =~= a + (b + c));
}

/// Takes in one way: a road marks its nodes and leaves its record; an address
/// way keeps its nodes and leaves its record.
#[verifier::rlimit(40)]
pub fn take_way(
    st: &mut P1,
    id: i64,
    tags: &[(&[u8], &[u8])],
    refs: &[i64],
    ways: &mut Vec<u8>,
    addrs: &mut Vec<u8>,
)
    requires
        old(st).wf(),
        drivable(tags@) || is_addr_way(tags@) ==> ids_fit(refs@, old(st).need.n_bits),
    ensures
        final(st).wf(),
        final(st).need.n_bits == old(st).need.n_bits,
        took_way(*old(st), *final(st), tags@, refs@),
        final(ways)@ == old(ways)@ + road_bytes(id, tags@, refs@),
        final(addrs)@ == old(addrs)@ + addr_bytes(tags@, refs@),
{
    let ghost (w0, a0) = (ways@, addrs@);
    let ghost o = *st;
    let road: Option<WayAttr> = classify(tags, |v: &[u8]| -> (r: u32)
        ensures
            r == NO_STR,
        { no_string(v) });
    let hn: bool = find_last(tags, "addr:housenumber").is_some();
    let street: bool = find_last(tags, "addr:street").is_some();
    let line: bool = find_last(tags, "addr:interpolation").is_some();
    let addr: bool = (hn && street) || line;
    assert(addr == is_addr_way(tags@));
    assert(w0 + Seq::<u8>::empty() =~= w0);
    assert(a0 + Seq::<u8>::empty() =~= a0);
    match road {
        Some(a) => {
            if refs.len() >= 2 {
                mark_road(st, refs);
                steps_ok(refs, Ghost(o.need.n_bits));
                let none: [u8; 0] = [];
                let empty: &[u8] = vstd::array::array_as_slice(&none);
                assert(empty@ =~= Seq::<u8>::empty());
                let name: &[u8] = match find_first(tags, "name") {
                    Some(v) => v,
                    None => empty,
                };
                let rf: &[u8] = match find_first(tags, "ref") {
                    Some(v) => v,
                    None => empty,
                };
                let word: u32 = pack_attr(&a);
                assert(word == attr_of(tags@));
                encode_way(ways, #[verifier::truncate] (id as u64), word, name, rf, refs);
            }
        },
        None => {},
    }
    if addr && refs.len() > 0 {
        mark_kept(&mut st.need, refs);
        steps_ok(refs, Ghost(o.need.n_bits));
        write_address(tags, refs, addrs);
    }
}

// ------------------------------------------------------------------- a node

/// The tags of a node: pairs of string numbers up to a zero.
pub open spec fn kv_pairs(strings: Seq<Seq<u8>>, kv: Seq<u32>, i: int) -> Option<
    Seq<(Seq<u8>, Seq<u8>)>,
>
    decreases kv.len() - i,
{
    if i + 1 >= kv.len() || kv[i] == 0 {
        Some(Seq::empty())
    } else if kv[i] < strings.len() && kv[i + 1] < strings.len() {
        match kv_pairs(strings, kv, i + 2) {
            None => None,
            Some(rest) => Some(seq![(strings[kv[i] as int], strings[kv[i + 1] as int])] + rest),
        }
    } else {
        None
    }
}

pub open spec fn tag_views(tags: Seq<(&[u8], &[u8])>) -> Seq<(Seq<u8>, Seq<u8>)> {
    Seq::new(tags.len(), |i: int| (tags[i].0@, tags[i].1@))
}

/// The tags of a node, or nothing where one names a string that is not there.
pub fn node_tags<'a>(n: &DenseNode, blk: &Block<'a>) -> (r: Option<Vec<(&'a [u8], &'a [u8])>>)
    ensures
        match r {
            None => kv_pairs(contents(blk.strings@), n.kv@, 0) is None,
            Some(t) => kv_pairs(contents(blk.strings@), n.kv@, 0) == Some(tag_views(t@)),
        },
{
    let ghost st = contents(blk.strings@);
    let ghost goal = kv_pairs(st, n.kv@, 0);
    let mut out: Vec<(&'a [u8], &'a [u8])> = Vec::new();
    let len: usize = n.kv.len();
    let m: usize = blk.strings.len();
    let mut i: usize = 0;
    proof {
        if let Some(s) = goal {
            assert(tag_views(out@) + s =~= s);
        }
    }
    while i < len && len - i > 1 && n.kv[i] != 0
        invariant
            len == n.kv@.len(),
            m == blk.strings@.len(),
            st == contents(blk.strings@),
            goal == kv_pairs(st, n.kv@, 0),
            i <= len,
            match kv_pairs(st, n.kv@, i as int) {
                None => goal is None,
                Some(s) => goal == Some(tag_views(out@) + s),
            },
        decreases len - i,
    {
        let (k, v): (u32, u32) = (n.kv[i], n.kv[i + 1]);
        if k as usize >= m || v as usize >= m {
            return None;
        }
        let ghost o0 = out@;
        let pair: (&'a [u8], &'a [u8]) = (blk.strings[k as usize], blk.strings[v as usize]);
        out.push(pair);
        proof {
            let x = (st[k as int], st[v as int]);
            assert(tag_views(out@) =~= tag_views(o0).push(x));
            if let Some(s) = kv_pairs(st, n.kv@, i + 2) {
                assert(tag_views(o0) + (seq![x] + s) =~= tag_views(out@) + s);
            }
        }
        i += 2;
    }
    assert(tag_views(out@) + Seq::<(Seq<u8>, Seq<u8>)>::empty() =~= tag_views(out@));
    Some(out)
}

pub open spec fn is_tag(t: (&[u8], &[u8]), k: &str, v: &str) -> bool {
    t.0@ == word(k) && t.1@ == word(v)
}

/// A place to pay a toll.
pub open spec fn toll_tag(t: (&[u8], &[u8])) -> bool {
    ||| is_tag(t, "barrier", "toll_booth")
    ||| is_tag(t, "highway", "toll_gantry")
    ||| is_tag(t, "amenity", "toll_booth")
}

/// What makes a node a vertex without a second way.
pub open spec fn forcing_tag(t: (&[u8], &[u8])) -> bool {
    ||| toll_tag(t)
    ||| is_tag(t, "barrier", "lift_gate")
    ||| is_tag(t, "barrier", "gate")
    ||| is_tag(t, "barrier", "border_control")
}

pub open spec fn is_toll(tags: Seq<(&[u8], &[u8])>) -> bool {
    exists|i: int| 0 <= i < tags.len() && toll_tag(#[trigger] tags[i])
}

pub open spec fn is_forced(tags: Seq<(&[u8], &[u8])>) -> bool {
    exists|i: int| 0 <= i < tags.len() && forcing_tag(#[trigger] tags[i])
}

fn spells(t: (&[u8], &[u8]), k: &str, v: &str) -> (r: bool)
    ensures
        r == is_tag(t, k, v),
{
    is_word(t.0, k) && is_word(t.1, v)
}

fn pays(t: (&[u8], &[u8])) -> (r: bool)
    ensures
        r == toll_tag(t),
{
    spells(t, "barrier", "toll_booth") || spells(t, "highway", "toll_gantry") || spells(
        t,
        "amenity",
        "toll_booth",
    )
}

/// Whether a node must become a vertex: toll gantries, barriers and the like.
pub fn node_is_forced_vertex(tags: &[(&[u8], &[u8])]) -> (r: bool)
    ensures
        r == is_forced(tags@),
{
    let mut i: usize = 0;
    while i < tags.len()
        invariant
            i <= tags@.len(),
            forall|x: int| 0 <= x < i ==> !forcing_tag(#[trigger] tags@[x]),
        decreases tags@.len() - i,
    {
        let t: (&[u8], &[u8]) = tags[i];
        if pays(t) || spells(t, "barrier", "lift_gate") || spells(t, "barrier", "gate") || spells(
            t,
            "barrier",
            "border_control",
        ) {
            assert(forcing_tag(tags@[i as int]));
            return true;
        }
        i += 1;
    }
    false
}

pub fn node_is_toll(tags: &[(&[u8], &[u8])]) -> (r: bool)
    ensures
        r == is_toll(tags@),
{
    let mut i: usize = 0;
    while i < tags.len()
        invariant
            i <= tags@.len(),
            forall|x: int| 0 <= x < i ==> !toll_tag(#[trigger] tags@[x]),
        decreases tags@.len() - i,
    {
        if pays(tags[i]) {
            assert(toll_tag(tags@[i as int]));
            return true;
        }
        i += 1;
    }
    false
}

/// An id and where it is.
pub open spec fn place_bytes(id: i64, lat: i32, lon: i32) -> Seq<u8> {
    leb_bytes((id as u64) as nat) + le((lat as u32) as int, 4) + le((lon as u32) as int, 4)
}

fn put_place(b: &mut Vec<u8>, id: i64, lat: i32, lon: i32)
    ensures
        final(b)@ == old(b)@ + place_bytes(id, lat, lon),
{
    let ghost o = b@;
    put_u(b, #[verifier::truncate] (id as u64));
    put_u32(b, #[verifier::truncate] (lat as u32));
    put_u32(b, #[verifier::truncate] (lon as u32));
    assert(b@ =~= o + place_bytes(id, lat, lon));
}

/// The first `n` tags, keys and values in turn.
pub open spec fn tag_bytes(tags: Seq<(&[u8], &[u8])>, n: int) -> Seq<u8>
    decreases n,
{
    if n <= 0 {
        Seq::empty()
    } else {
        tag_bytes(tags, n - 1) + string_bytes(tags[n - 1].0@) + string_bytes(tags[n - 1].1@)
    }
}

/// What a node adds to the toll records: where it is, and all its tags.
pub open spec fn toll_bytes(
    id: i64,
    lat: i32,
    lon: i32,
    tags: Seq<(&[u8], &[u8])>,
) -> Seq<u8> {
    if is_toll(tags) {
        place_bytes(id, lat, lon) + leb_bytes(tags.len()) + tag_bytes(tags, tags.len() as int)
    } else {
        Seq::empty()
    }
}

/// What a node adds to the address records.
pub open spec fn door_bytes(
    id: i64,
    lat: i32,
    lon: i32,
    tags: Seq<(&[u8], &[u8])>,
) -> Seq<u8> {
    if has_key(tags, "addr:housenumber") || has_key(tags, "addr:street") {
        place_bytes(id, lat, lon) + string_bytes(last_or_none(tags, "addr:housenumber"))
            + string_bytes(last_or_none(tags, "addr:street")) + string_bytes(city_of(tags))
            + string_bytes(last_or_none(tags, "addr:postcode"))
    } else {
        Seq::empty()
    }
}

/// What a node does: where it is kept, its place is noted, and it becomes a
/// vertex where its tags force it.
pub open spec fn took_node(
    need: BitMap,
    j0: BitMap,
    j1: BitMap,
    c0: Seq<(i32, i32)>,
    c1: Seq<(i32, i32)>,
    n: NodeModel,
    tags: Seq<(&[u8], &[u8])>,
) -> bool {
    let id = n.id as u64;
    let kept = id < need.n_bits && need.has(id as int);
    &&& c1 == (if kept {
        c0.update(ones(need.words@, id as int), (n.lat_e7, n.lon_e7))
    } else {
        c0
    })
    &&& forall|j: int|
        0 <= j < j0.room() ==> #[trigger] j1.has(j) == (j0.has(j) || (kept && is_forced(tags) && j
            == id))
}

/// What a node adds to the records of doors and of tolls.
pub open spec fn noted(
    d0: Seq<u8>,
    d1: Seq<u8>,
    t0: Seq<u8>,
    t1: Seq<u8>,
    n: NodeModel,
    tags: Seq<(&[u8], &[u8])>,
) -> bool {
    &&& d1 == d0 + door_bytes(n.id, n.lat_e7, n.lon_e7, tags)
    &&& t1 == t0 + toll_bytes(n.id, n.lat_e7, n.lon_e7, tags)
}

fn write_toll(b: &mut Vec<u8>, id: i64, lat: i32, lon: i32, tags: &[(&[u8], &[u8])])
    requires
        is_toll(tags@),
    ensures
        final(b)@ == old(b)@ + toll_bytes(id, lat, lon, tags@),
{
    let ghost o = b@;
    put_place(b, id, lat, lon);
    put_u(b, tags.len() as u64);
    let ghost b1 = b@;
    let mut i: usize = 0;
    assert(b1 + tag_bytes(tags@, 0) =~= b1);
    while i < tags.len()
        invariant
            i <= tags@.len(),
            b@ == b1 + tag_bytes(tags@, i as int),
        decreases tags@.len() - i,
    {
        put_bytes(b, tags[i].0);
        put_bytes(b, tags[i].1);
        assert(b@ =~= b1 + tag_bytes(tags@, i + 1));
        i += 1;
    }
    assert(b@ =~= o + toll_bytes(id, lat, lon, tags@));
}

fn write_door(b: &mut Vec<u8>, id: i64, lat: i32, lon: i32, tags: &[(&[u8], &[u8])])
    requires
        has_key(tags@, "addr:housenumber") || has_key(tags@, "addr:street"),
    ensures
        final(b)@ == old(b)@ + door_bytes(id, lat, lon, tags@),
{
    let ghost o = b@;
    put_place(b, id, lat, lon);
    let ghost r0 = place_bytes(id, lat, lon);
    put_or_none(b, find_last(tags, "addr:housenumber"));
    let ghost r1 = r0 + string_bytes(last_or_none(tags@, "addr:housenumber"));
    proof {
        lemma_assoc(o, r0, string_bytes(last_or_none(tags@, "addr:housenumber")));
    }
    put_or_none(b, find_last(tags, "addr:street"));
    let ghost r2 = r1 + string_bytes(last_or_none(tags@, "addr:street"));
    proof {
        lemma_assoc(o, r1, string_bytes(last_or_none(tags@, "addr:street")));
    }
    put_or_none(b, find_city(tags));
    let ghost r3 = r2 + string_bytes(city_of(tags@));
    proof {
        lemma_assoc(o, r2, string_bytes(city_of(tags@)));
    }
    put_or_none(b, find_last(tags, "addr:postcode"));
    proof {
        lemma_assoc(o, r3, string_bytes(last_or_none(tags@, "addr:postcode")));
    }
}

/// Takes in one node: a kept one leaves its coordinate, and is a junction where
/// its tags force it; tolls and addresses leave a record.
pub fn take_node(
    need: &BitMap,
    junc: &mut BitMap,
    coords: &mut [(i32, i32)],
    n: &DenseNode,
    tags: &[(&[u8], &[u8])],
    doors: &mut Vec<u8>,
    tolls: &mut Vec<u8>,
)
    requires
        need.wf(),
        need.ranked(),
        need.room() <= u64::MAX,
        old(junc).wf(),
        old(junc).n_bits == need.n_bits,
        ones(need.words@, need.room()) <= old(coords)@.len(),
    ensures
        final(junc).wf(),
        final(junc).n_bits == need.n_bits,
        took_node(*need, *old(junc), *final(junc), old(coords)@, final(coords)@, n.model(), tags@),
        noted(old(doors)@, final(doors)@, old(tolls)@, final(tolls)@, n.model(), tags@),
{
    let id: u64 = #[verifier::truncate] (n.id as u64);
    assert(old(doors)@ + Seq::<u8>::empty() =~= old(doors)@);
    assert(old(tolls)@ + Seq::<u8>::empty() =~= old(tolls)@);
    if need.get(id) {
        proof {
            crate::bitmap::lemma_ones(need.words@, id as int, id + 1);
            crate::bitmap::lemma_ones(need.words@, id + 1, need.room());
            assert(crate::bitmap::bit_at(need.words@, id as int));
        }
        let r: u64 = need.rank1(id);
        let m: usize = coords.len();
        assert(r < m);
        coords[r as usize] = (n.lat_e7, n.lon_e7);
        if node_is_forced_vertex(tags) {
            junc.set_quiet(id);
        }
    }
    if node_is_toll(tags) {
        write_toll(tolls, n.id, n.lat_e7, n.lon_e7, tags);
    }
    if find_last(tags, "addr:housenumber").is_some() || find_last(tags, "addr:street").is_some() {
        write_door(doors, n.id, n.lat_e7, n.lon_e7, tags);
    }
}

/// The largest id among nodes, or zero.
pub open spec fn max_id(nodes: Seq<DenseNode>, n: int) -> i64
    decreases n,
{
    if n <= 0 {
        0
    } else {
        let m = max_id(nodes, n - 1);
        if nodes[n - 1].id > m {
            nodes[n - 1].id
        } else {
            m
        }
    }
}

pub fn largest_id(nodes: &Vec<DenseNode>) -> (m: i64)
    ensures
        m == max_id(nodes@, nodes@.len() as int),
{
    let mut m: i64 = 0;
    let mut i: usize = 0;
    while i < nodes.len()
        invariant
            i <= nodes@.len(),
            m == max_id(nodes@, i as int),
        decreases nodes@.len() - i,
    {
        if nodes[i].id > m {
            m = nodes[i].id;
        }
        i += 1;
    }
    m
}

} // verus!

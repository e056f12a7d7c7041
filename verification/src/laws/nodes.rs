//! Nodes and ways are read back as they were written.

use vstd::prelude::*;
use crate::laws::reading::{
    folded, lemma_fit, lemma_folded, lemma_halves, lemma_number_read, lemma_text_read,
    lemma_value_read, message, says_number, says_text, sent, stands, written, Field,
};
use crate::pbf::block::{deltas, pairs, refs_read, tag_views, tags_read, Block};
use crate::pbf::node::{
    delta_at, dense_from, dense_kv, dense_nodes, dense_start, node_of, plain_kv, plain_node,
    DenseLists, DenseState, NodeModel,
};
use crate::pbf::wire::{varint_at, Next};

verus! {

// --------------------------------------------------------------------- lists

/// Numbers, each as its difference from the one before.
pub open spec fn run(xs: Seq<i64>, before: i64) -> Seq<u8>
    decreases xs.len(),
{
    if xs.len() == 0 {
        Seq::empty()
    } else {
        written(folded((xs[0] - before) as i64) as int) + run(xs.drop_first(), xs[0])
    }
}

/// The differences are numbers too.
pub open spec fn steps_fit(xs: Seq<i64>, before: i64) -> bool
    decreases xs.len(),
{
    xs.len() == 0 || (i64::MIN <= xs[0] - before <= i64::MAX && steps_fit(xs.drop_first(), xs[0]))
}

/// Numbers, one after another.
pub open spec fn list(xs: Seq<u32>) -> Seq<u8>
    decreases xs.len(),
{
    if xs.len() == 0 {
        Seq::empty()
    } else {
        written(xs[0] as int) + list(xs.drop_first())
    }
}

/// The rest of a list stands at the end of the bytes.
pub open spec fn ends_in(b: Seq<u8>, p: int, s: Seq<u8>) -> bool {
    stands(b, p, s) && p + s.len() == b.len()
}

proof fn lemma_step(b: Seq<u8>, p: int, before: i64, xs: Seq<i64>)
    requires
        ends_in(b, p, run(xs, before)),
        steps_fit(xs, before),
    ensures
        xs.len() == 0 ==> delta_at(b, p, before) is End,
        xs.len() > 0 ==> (delta_at(b, p, before) matches Next::Item((x, q)) && x == xs[0] && q > p
            && ends_in(b, q, run(xs.drop_first(), x)) && steps_fit(xs.drop_first(), x)
            && varint_at(b, p) == Some((folded((xs[0] - before) as i64), q))),
{
    if xs.len() > 0 {
        let d = (xs[0] - before) as i64;
        let (head, rest) = (written(folded(d) as int), run(xs.drop_first(), xs[0]));
        lemma_halves(b, p, head, rest);
        lemma_number_read(b, p, folded(d));
        lemma_folded(d);
    }
}

proof fn lemma_run(b: Seq<u8>, p: int, before: i64, xs: Seq<i64>)
    requires
        ends_in(b, p, run(xs, before)),
        steps_fit(xs, before),
    ensures
        deltas(b, p, before) == Some(xs),
    decreases xs.len(),
{
    lemma_step(b, p, before, xs);
    if xs.len() > 0 {
        let d = folded((xs[0] - before) as i64);
        lemma_folded((xs[0] - before) as i64);
        let q = varint_at(b, p)->Some_0.1;
        lemma_run(b, q, xs[0], xs.drop_first());
        assert(seq![xs[0]] + xs.drop_first() =~= xs);
    } else {
        assert(xs =~= Seq::<i64>::empty());
    }
}

/// The nodes of a way are read back as they were written.
pub proof fn lemma_refs_read(xs: Seq<i64>, r: Option<Vec<i64>>)
    requires
        steps_fit(xs, 0),
        refs_read(run(xs, 0), r),
    ensures
        r matches Some(v) && v@ == xs,
{
    let b = run(xs, 0);
    assert(b.subrange(0, b.len() as int) =~= b);
    lemma_run(b, 0, 0, xs);
}

proof fn lemma_item(b: Seq<u8>, p: int, xs: Seq<u32>)
    requires
        ends_in(b, p, list(xs)),
        xs.len() > 0,
    ensures
        varint_at(b, p) matches Some((x, q)) && x == xs[0] && q > p && ends_in(
            b,
            q,
            list(xs.drop_first()),
        ),
        p < b.len(),
{
    lemma_halves(b, p, written(xs[0] as int), list(xs.drop_first()));
    lemma_number_read(b, p, xs[0] as u64);
}

proof fn lemma_pairs(
    strings: Seq<Seq<u8>>,
    keys: Seq<u8>,
    p: int,
    vals: Seq<u8>,
    q: int,
    ks: Seq<u32>,
    vs: Seq<u32>,
)
    requires
        ends_in(keys, p, list(ks)),
        ends_in(vals, q, list(vs)),
        ks.len() == vs.len(),
        forall|i: int| 0 <= i < ks.len() ==> #[trigger] ks[i] < strings.len(),
        forall|i: int| 0 <= i < vs.len() ==> #[trigger] vs[i] < strings.len(),
    ensures
        pairs(strings, keys, p, vals, q) matches Some(out) && out.len() == ks.len() && forall|i: int|
            0 <= i < ks.len() ==> #[trigger] out[i] == (strings[ks[i] as int], strings[vs[i] as int]),
    decreases ks.len(),
{
    if ks.len() > 0 {
        lemma_item(keys, p, ks);
        lemma_item(vals, q, vs);
        let (p2, q2) = (varint_at(keys, p)->Some_0.1, varint_at(vals, q)->Some_0.1);
        let (k2, v2) = (ks.drop_first(), vs.drop_first());
        assert forall|i: int| 0 <= i < k2.len() implies #[trigger] k2[i] < strings.len() by {
            assert(k2[i] == ks[i + 1]);
        }
        assert forall|i: int| 0 <= i < v2.len() implies #[trigger] v2[i] < strings.len() by {
            assert(v2[i] == vs[i + 1]);
        }
        lemma_pairs(strings, keys, p2, vals, q2, k2, v2);
        let rest = pairs(strings, keys, p2, vals, q2)->0;
        assert(ks[0] < strings.len() && vs[0] < strings.len());
        let out = pairs(strings, keys, p, vals, q)->0;
        assert(out == seq![(strings[ks[0] as int], strings[vs[0] as int])] + rest);
        assert forall|i: int| 0 <= i < ks.len() implies #[trigger] out[i] == (
            strings[ks[i] as int],
            strings[vs[i] as int],
        ) by {
            if i > 0 {
                assert(out[i] == rest[i - 1]);
                assert(k2[i - 1] == ks[i] && v2[i - 1] == vs[i]);
            }
        }
    }
}

/// The tags of a way are read back as they were written: the key and the value
/// that each pair of numbers stands for, in order.
pub proof fn lemma_tags_read(
    strings: Seq<Seq<u8>>,
    ks: Seq<u32>,
    vs: Seq<u32>,
    r: Option<Vec<(&[u8], &[u8])>>,
)
    requires
        tags_read(strings, list(ks), list(vs), r),
        ks.len() == vs.len(),
        forall|i: int| 0 <= i < ks.len() ==> #[trigger] ks[i] < strings.len(),
        forall|i: int| 0 <= i < vs.len() ==> #[trigger] vs[i] < strings.len(),
    ensures
        r matches Some(v) && v@.len() == ks.len() && forall|i: int|
            0 <= i < ks.len() ==> (#[trigger] v@[i]).0@ == strings[ks[i] as int] && v@[i].1@
                == strings[vs[i] as int],
{
    let (a, b) = (list(ks), list(vs));
    assert(a.subrange(0, a.len() as int) =~= a);
    assert(b.subrange(0, b.len() as int) =~= b);
    lemma_pairs(strings, a, 0, b, 0, ks, vs);
    if let Some(v) = r {
        let out = tag_views(v@);
        assert forall|i: int| 0 <= i < ks.len() implies (#[trigger] v@[i]).0@
            == strings[ks[i] as int] && v@[i].1@ == strings[vs[i] as int] by {
            assert(out[i] == (v@[i].0@, v@[i].1@));
        }
    }
}

// ---------------------------------------------------------------- one node

/// A coordinate fits where it is stored.
pub open spec fn storable(granularity: i64, offset: i64, v: i64) -> bool {
    &&& i64::MIN <= granularity * v <= i64::MAX
    &&& -214_748_364_800 <= offset + granularity * v <= 214_748_364_799
}

/// `e7` is the coordinate in units of a hundred: within a hundred of what was
/// written, and no further from zero.
pub open spec fn stored(granularity: i64, offset: i64, v: i64, e7: i32) -> bool {
    let nano = offset + granularity * v;
    &&& -100 < 100 * e7 - nano < 100
    &&& nano >= 0 ==> 0 <= 100 * e7 <= nano
    &&& nano <= 0 ==> nano <= 100 * e7 <= 0
}

/// The tags of a node as numbers: key and value in turn.
pub open spec fn in_turn(tags: Seq<(u32, u32)>) -> Seq<u32>
    decreases tags.len(),
{
    if tags.len() == 0 {
        Seq::empty()
    } else {
        seq![tags[0].0, tags[0].1] + in_turn(tags.drop_first())
    }
}

/// A node is the one that was written: its own identity, its latitude where the
/// latitude was written and its longitude where the longitude was, and its tags.
pub open spec fn is_node(
    blk: Block,
    n: NodeModel,
    id: i64,
    lat: i64,
    lon: i64,
    tags: Seq<(u32, u32)>,
) -> bool {
    &&& n.id == id
    &&& stored(blk.granularity, blk.lat_offset, lat, n.lat_e7)
    &&& stored(blk.granularity, blk.lon_offset, lon, n.lon_e7)
    &&& n.kv == in_turn(tags).push(0)
}

proof fn lemma_node(blk: Block, id: i64, lat: i64, lon: i64, kv: Seq<u32>)
    requires
        storable(blk.granularity, blk.lat_offset, lat),
        storable(blk.granularity, blk.lon_offset, lon),
    ensures
        node_of(blk, id, lat, lon, kv) matches Some(n) && n.id == id && n.kv == kv && stored(
            blk.granularity,
            blk.lat_offset,
            lat,
            n.lat_e7,
        ) && stored(blk.granularity, blk.lon_offset, lon, n.lon_e7),
{
}

/// In the units that coordinates are kept in, without an offset, a coordinate is
/// read back unchanged.
pub proof fn lemma_exact(v: i64, e7: i32)
    requires
        stored(100, 0, v, e7),
    ensures
        e7 == v,
{
}

proof fn lemma_plain_kv(keys: Seq<u8>, p: int, vals: Seq<u8>, q: int, tags: Seq<(u32, u32)>)
    requires
        ends_in(keys, p, list(firsts(tags))),
        ends_in(vals, q, list(seconds(tags))),
    ensures
        plain_kv(keys, p, vals, q) == Some(in_turn(tags)),
    decreases tags.len(),
{
    if tags.len() > 0 {
        let rest = tags.drop_first();
        lemma_item(keys, p, firsts(tags));
        lemma_item(vals, q, seconds(tags));
        assert(firsts(tags).drop_first() =~= firsts(rest));
        assert(seconds(tags).drop_first() =~= seconds(rest));
        lemma_plain_kv(keys, varint_at(keys, p)->Some_0.1, vals, varint_at(vals, q)->Some_0.1, rest);
    }
}

pub open spec fn firsts(tags: Seq<(u32, u32)>) -> Seq<u32> {
    Seq::new(tags.len(), |i: int| tags[i].0)
}

pub open spec fn seconds(tags: Seq<(u32, u32)>) -> Seq<u32> {
    Seq::new(tags.len(), |i: int| tags[i].1)
}

/// A node by itself is read back as it was written, in whatever order its
/// fields came.
pub proof fn lemma_plain_read(
    blk: Block,
    fs: Seq<Field>,
    id: i64,
    lat: i64,
    lon: i64,
    tags: Seq<(u32, u32)>,
)
    requires
        message(fs),
        says_number(fs, 1, 0, folded(id)),
        says_number(fs, 8, 0, folded(lat)),
        says_number(fs, 9, 0, folded(lon)),
        says_text(fs, 2, list(firsts(tags))),
        says_text(fs, 3, list(seconds(tags))),
        storable(blk.granularity, blk.lat_offset, lat),
        storable(blk.granularity, blk.lon_offset, lon),
    ensures
        plain_node(blk, sent(fs)) matches Some(n) && is_node(blk, n, id, lat, lon, tags),
{
    lemma_fit(fs, 2);
    lemma_fit(fs, 3);
    lemma_value_read(fs, 1, 0, folded(id));
    lemma_value_read(fs, 8, 0, folded(lat));
    lemma_value_read(fs, 9, 0, folded(lon));
    let (ks, vs) = (list(firsts(tags)), list(seconds(tags)));
    lemma_text_read(fs, 2, ks);
    lemma_text_read(fs, 3, vs);
    assert(ks.subrange(0, ks.len() as int) =~= ks);
    assert(vs.subrange(0, vs.len() as int) =~= vs);
    lemma_plain_kv(ks, 0, vs, 0, tags);
    lemma_folded(id);
    lemma_folded(lat);
    lemma_folded(lon);
    lemma_node(blk, id, lat, lon, in_turn(tags).push(0));
}

// ------------------------------------------------------------- dense nodes

/// The tags of one node: keys and values, then a zero.
pub open spec fn tags_sent(tags: Seq<(u32, u32)>) -> Seq<u8>
    decreases tags.len(),
{
    if tags.len() == 0 {
        written(0)
    } else {
        written(tags[0].0 as int) + (written(tags[0].1 as int) + tags_sent(tags.drop_first()))
    }
}

/// The tags of all nodes.
pub open spec fn all_sent(all: Seq<Seq<(u32, u32)>>) -> Seq<u8>
    decreases all.len(),
{
    if all.len() == 0 {
        Seq::empty()
    } else {
        tags_sent(all[0]) + all_sent(all.drop_first())
    }
}

/// No key is zero.
pub open spec fn keyed_tags(tags: Seq<(u32, u32)>) -> bool {
    forall|i: int| 0 <= i < tags.len() ==> (#[trigger] tags[i]).0 != 0
}

proof fn lemma_dense_kv(b: Seq<u8>, p: int, tags: Seq<(u32, u32)>)
    requires
        stands(b, p, tags_sent(tags)),
        keyed_tags(tags),
    ensures
        dense_kv(b, p) == Some((in_turn(tags), p + tags_sent(tags).len())),
    decreases tags.len(),
{
    if tags.len() == 0 {
        lemma_number_read(b, p, 0);
    } else {
        let rest = tags.drop_first();
        let (x, y) = (written(tags[0].0 as int), written(tags[0].1 as int));
        lemma_halves(b, p, x, y + tags_sent(rest));
        lemma_halves(b, p + x.len(), y, tags_sent(rest));
        lemma_number_read(b, p, tags[0].0 as u64);
        lemma_number_read(b, p + x.len(), tags[0].1 as u64);
        assert(keyed_tags(rest)) by {
            assert forall|i: int| 0 <= i < rest.len() implies (#[trigger] rest[i]).0 != 0 by {
                assert(rest[i] == tags[i + 1]);
            }
        }
        assert(tags[0].0 != 0);
        lemma_dense_kv(b, p + x.len() + y.len(), rest);
    }
}

/// The list of tags from `p` on: those of every node, or nothing at all where no
/// node has any.
pub open spec fn tags_stand(b: Seq<u8>, p: int, all: Seq<Seq<(u32, u32)>>) -> bool {
    ||| ends_in(b, p, all_sent(all))
    ||| b.len() == 0 && p == 0 && forall|i: int|
        0 <= i < all.len() ==> (#[trigger] all[i]).len() == 0
}

proof fn lemma_tags_step(b: Seq<u8>, p: int, all: Seq<Seq<(u32, u32)>>)
    requires
        tags_stand(b, p, all),
        all.len() > 0,
        keyed_tags(all[0]),
    ensures
        dense_kv(b, p) matches Some((kv, q)) && kv == in_turn(all[0]) && tags_stand(
            b,
            q,
            all.drop_first(),
        ),
{
    if ends_in(b, p, all_sent(all)) {
        lemma_halves(b, p, tags_sent(all[0]), all_sent(all.drop_first()));
        lemma_dense_kv(b, p, all[0]);
    } else {
        assert(all[0].len() == 0);
        let rest = all.drop_first();
        assert forall|i: int| 0 <= i < rest.len() implies (#[trigger] rest[i]).len() == 0 by {
            assert(rest[i] == all[i + 1]);
        }
    }
}

/// Every node of a list is the one that was written.
pub open spec fn are_nodes(
    blk: Block,
    ns: Seq<NodeModel>,
    ids: Seq<i64>,
    lats: Seq<i64>,
    lons: Seq<i64>,
    all: Seq<Seq<(u32, u32)>>,
) -> bool {
    &&& ns.len() == ids.len()
    &&& forall|i: int|
        0 <= i < ns.len() ==> is_node(blk, #[trigger] ns[i], ids[i], lats[i], lons[i], all[i])
}

/// Lists of as many nodes, each of which can be stored.
pub open spec fn nodes_fit(
    blk: Block,
    ids: Seq<i64>,
    lats: Seq<i64>,
    lons: Seq<i64>,
    all: Seq<Seq<(u32, u32)>>,
) -> bool {
    &&& lats.len() == ids.len()
    &&& lons.len() == ids.len()
    &&& all.len() == ids.len()
    &&& forall|i: int|
        0 <= i < ids.len() ==> storable(blk.granularity, blk.lat_offset, #[trigger] lats[i])
    &&& forall|i: int|
        0 <= i < ids.len() ==> storable(blk.granularity, blk.lon_offset, #[trigger] lons[i])
    &&& forall|i: int| 0 <= i < ids.len() ==> keyed_tags(#[trigger] all[i])
}

proof fn lemma_fit_rest(
    blk: Block,
    ids: Seq<i64>,
    lats: Seq<i64>,
    lons: Seq<i64>,
    all: Seq<Seq<(u32, u32)>>,
)
    requires
        nodes_fit(blk, ids, lats, lons, all),
        ids.len() > 0,
    ensures
        nodes_fit(
            blk,
            ids.drop_first(),
            lats.drop_first(),
            lons.drop_first(),
            all.drop_first(),
        ),
{
    let (i2, a2, o2, t2) = (
        ids.drop_first(),
        lats.drop_first(),
        lons.drop_first(),
        all.drop_first(),
    );
    assert forall|i: int| 0 <= i < i2.len() implies storable(
        blk.granularity,
        blk.lat_offset,
        #[trigger] a2[i],
    ) by {
        assert(a2[i] == lats[i + 1]);
    }
    assert forall|i: int| 0 <= i < i2.len() implies storable(
        blk.granularity,
        blk.lon_offset,
        #[trigger] o2[i],
    ) by {
        assert(o2[i] == lons[i + 1]);
    }
    assert forall|i: int| 0 <= i < i2.len() implies keyed_tags(#[trigger] t2[i]) by {
        assert(t2[i] == all[i + 1]);
    }
}

proof fn lemma_dense(
    blk: Block,
    l: DenseLists,
    s: DenseState,
    ids: Seq<i64>,
    lats: Seq<i64>,
    lons: Seq<i64>,
    all: Seq<Seq<(u32, u32)>>,
)
    requires
        nodes_fit(blk, ids, lats, lons, all),
        steps_fit(ids, s.id),
        steps_fit(lats, s.lat),
        steps_fit(lons, s.lon),
        ends_in(l.ids, s.pi, run(ids, s.id)),
        ends_in(l.lats, s.pa, run(lats, s.lat)),
        ends_in(l.lons, s.po, run(lons, s.lon)),
        tags_stand(l.kvs, s.pk, all),
    ensures
        dense_from(blk, l, s) matches Some(ns) && are_nodes(blk, ns, ids, lats, lons, all),
    decreases ids.len(),
{
    lemma_step(l.ids, s.pi, s.id, ids);
    lemma_step(l.lats, s.pa, s.lat, lats);
    lemma_step(l.lons, s.po, s.lon, lons);
    if ids.len() > 0 {
        assert(keyed_tags(all[0]));
        lemma_tags_step(l.kvs, s.pk, all);
        let (pi, pa, po) = (
            varint_at(l.ids, s.pi)->Some_0.1,
            varint_at(l.lats, s.pa)->Some_0.1,
            varint_at(l.lons, s.po)->Some_0.1,
        );
        let pk = dense_kv(l.kvs, s.pk)->Some_0.1;
        let next = DenseState { pi, id: ids[0], pa, lat: lats[0], po, lon: lons[0], pk };
        lemma_fit_rest(blk, ids, lats, lons, all);
        lemma_dense(
            blk,
            l,
            next,
            ids.drop_first(),
            lats.drop_first(),
            lons.drop_first(),
            all.drop_first(),
        );
        let rest = dense_from(blk, l, next)->0;
        assert(storable(blk.granularity, blk.lat_offset, lats[0]));
        assert(storable(blk.granularity, blk.lon_offset, lons[0]));
        lemma_node(blk, ids[0], lats[0], lons[0], in_turn(all[0]).push(0));
        let n = node_of(blk, ids[0], lats[0], lons[0], in_turn(all[0]).push(0))->0;
        let ns = dense_from(blk, l, s)->0;
        assert(ns == seq![n] + rest);
        assert forall|i: int| 0 <= i < ns.len() implies is_node(
            blk,
            #[trigger] ns[i],
            ids[i],
            lats[i],
            lons[i],
            all[i],
        ) by {
            if i > 0 {
                assert(ns[i] == rest[i - 1]);
                assert(ids.drop_first()[i - 1] == ids[i]);
                assert(lats.drop_first()[i - 1] == lats[i]);
                assert(lons.drop_first()[i - 1] == lons[i]);
                assert(all.drop_first()[i - 1] == all[i]);
            }
        }
    }
}

/// Nodes written densely are read back as they were written: identities,
/// latitudes, longitudes and tags, each from the list that it was written in.
pub proof fn lemma_dense_read(
    blk: Block,
    fs: Seq<Field>,
    ids: Seq<i64>,
    lats: Seq<i64>,
    lons: Seq<i64>,
    all: Seq<Seq<(u32, u32)>>,
    kvs: Seq<u8>,
)
    requires
        message(fs),
        nodes_fit(blk, ids, lats, lons, all),
        steps_fit(ids, 0),
        steps_fit(lats, 0),
        steps_fit(lons, 0),
        says_text(fs, 1, run(ids, 0)),
        says_text(fs, 8, run(lats, 0)),
        says_text(fs, 9, run(lons, 0)),
        says_text(fs, 10, kvs),
        tags_stand(kvs, 0, all),
    ensures
        dense_nodes(blk, sent(fs)) matches Some(ns) && are_nodes(blk, ns, ids, lats, lons, all),
{
    lemma_fit(fs, 1);
    lemma_fit(fs, 8);
    lemma_fit(fs, 9);
    lemma_fit(fs, 10);
    let (a, b, c) = (run(ids, 0), run(lats, 0), run(lons, 0));
    lemma_text_read(fs, 1, a);
    lemma_text_read(fs, 8, b);
    lemma_text_read(fs, 9, c);
    lemma_text_read(fs, 10, kvs);
    assert(a.subrange(0, a.len() as int) =~= a);
    assert(b.subrange(0, b.len() as int) =~= b);
    assert(c.subrange(0, c.len() as int) =~= c);
    lemma_dense(
        blk,
        DenseLists { ids: a, lats: b, lons: c, kvs },
        dense_start(),
        ids,
        lats,
        lons,
        all,
    );
}

/// In the units that coordinates are kept in, without offsets, every node is read
/// back at the latitude and the longitude that were written for it.
pub proof fn lemma_coordinates_kept(
    blk: Block,
    ns: Seq<NodeModel>,
    ids: Seq<i64>,
    lats: Seq<i64>,
    lons: Seq<i64>,
    all: Seq<Seq<(u32, u32)>>,
)
    requires
        blk.granularity == 100,
        blk.lat_offset == 0,
        blk.lon_offset == 0,
        are_nodes(blk, ns, ids, lats, lons, all),
    ensures
        forall|i: int|
            0 <= i < ns.len() ==> (#[trigger] ns[i]).id == ids[i] && ns[i].lat_e7 == lats[i]
                && ns[i].lon_e7 == lons[i],
{
    assert forall|i: int| 0 <= i < ns.len() implies (#[trigger] ns[i]).id == ids[i]
        && ns[i].lat_e7 == lats[i] && ns[i].lon_e7 == lons[i] by {
        assert(is_node(blk, ns[i], ids[i], lats[i], lons[i], all[i]));
        lemma_exact(lats[i], ns[i].lat_e7);
        lemma_exact(lons[i], ns[i].lon_e7);
    }
}

} // verus!

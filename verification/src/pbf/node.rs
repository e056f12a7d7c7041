//! The nodes of a block.

use vstd::prelude::*;
use crate::pbf::block::{body_or_none, contents, find_number, number_or, take_body, Block};
use crate::pbf::wire::{
    all_fit, body, body_of, check_fit, fits, is_field, lemma_leb, tokens, tokens_of, varint,
    varint_at, zigzag, zigzag_of, DeltaSint, Next, PackedVarint, Token,
};

verus! {

/// A node with its tags: numbers of keys and values in turn, then a zero.
pub struct DenseNode {
    pub id: i64,
    pub lat_e7: i32,
    pub lon_e7: i32,
    pub kv: Vec<u32>,
}

pub struct NodeModel {
    pub id: i64,
    pub lat_e7: i32,
    pub lon_e7: i32,
    pub kv: Seq<u32>,
}

impl DenseNode {
    pub open spec fn model(&self) -> NodeModel {
        NodeModel { id: self.id, lat_e7: self.lat_e7, lon_e7: self.lon_e7, kv: self.kv@ }
    }
}

pub open spec fn node_models(v: Seq<DenseNode>) -> Seq<NodeModel> {
    Seq::new(v.len(), |i: int| v[i].model())
}

/// Division that drops the fraction.
pub open spec fn cut_div(n: int, d: int) -> int {
    if n >= 0 {
        n / d
    } else {
        -((-n) / d)
    }
}

/// A stored coordinate in units of 1e-7 degrees; nothing where it does not fit
/// 64 bits on the way.
pub open spec fn e7_of(granularity: i64, off: i64, v: i64) -> Option<i32> {
    let nano = off + granularity * v;
    if i64::MIN <= granularity * v <= i64::MAX && i64::MIN <= nano <= i64::MAX {
        Some(cut_div(nano, 100) as i32)
    } else {
        None
    }
}

fn to_e7(granularity: i64, off: i64, v: i64) -> (r: Option<i32>)
    ensures
        r == e7_of(granularity, off, v),
{
    let part: i64 = match granularity.checked_mul(v) {
        None => {
            return None;
        },
        Some(x) => x,
    };
    let nano: i64 = match off.checked_add(part) {
        None => {
            return None;
        },
        Some(x) => x,
    };
    let wide: i128 = nano as i128;
    let e: i128 = if wide >= 0 {
        wide / 100
    } else {
        -((-wide) / 100)
    };
    Some(#[verifier::truncate] (e as i32))
}

/// What the block says of a node.
pub open spec fn node_of(blk: Block, id: i64, lat: i64, lon: i64, kv: Seq<u32>) -> Option<NodeModel> {
    match (
        e7_of(blk.granularity, blk.lat_offset, lat),
        e7_of(blk.granularity, blk.lon_offset, lon),
    ) {
        (Some(lat_e7), Some(lon_e7)) => Some(NodeModel { id, lat_e7, lon_e7, kv }),
        _ => None,
    }
}

fn make_node(blk: &Block, id: i64, lat: i64, lon: i64, kv: Vec<u32>) -> (r: Option<DenseNode>)
    ensures
        match r {
            None => node_of(*blk, id, lat, lon, kv@) is None,
            Some(n) => node_of(*blk, id, lat, lon, kv@) == Some(n.model()),
        },
{
    let lat_e7: i32 = match to_e7(blk.granularity, blk.lat_offset, lat) {
        None => {
            return None;
        },
        Some(x) => x,
    };
    let lon_e7: i32 = match to_e7(blk.granularity, blk.lon_offset, lon) {
        None => {
            return None;
        },
        Some(x) => x,
    };
    Some(DenseNode { id, lat_e7, lon_e7, kv })
}

/// Numbers of keys and values in turn, as long as both lists last.
pub open spec fn plain_kv(keys: Seq<u8>, p: int, vals: Seq<u8>, q: int) -> Option<Seq<u32>>
    decreases keys.len() - p,
    when 0 <= p && 0 <= q
    via plain_kv_shrinks
{
    let k = if p >= keys.len() {
        Next::End
    } else {
        match varint_at(keys, p) {
            None => Next::Broken,
            Some((x, _)) => Next::Item(x),
        }
    };
    let v = if q >= vals.len() {
        Next::End
    } else {
        match varint_at(vals, q) {
            None => Next::Broken,
            Some((x, _)) => Next::Item(x),
        }
    };
    match (k, v) {
        (Next::Broken, _) => None,
        (_, Next::Broken) => None,
        (Next::Item(a), Next::Item(c)) => match (varint_at(keys, p), varint_at(vals, q)) {
            (Some((_, p2)), Some((_, q2))) => match plain_kv(keys, p2, vals, q2) {
                None => None,
                Some(rest) => Some(seq![a as u32, c as u32] + rest),
            },
            _ => None,
        },
        _ => Some(Seq::empty()),
    }
}

#[via_fn]
proof fn plain_kv_shrinks(keys: Seq<u8>, p: int, vals: Seq<u8>, q: int) {
    lemma_leb(keys, p, 0);
    lemma_leb(vals, q, 0);
}

fn read_plain_kv(keys: &[u8], vals: &[u8]) -> (r: Option<Vec<u32>>)
    ensures
        match r {
            None => plain_kv(keys@, 0, vals@, 0) is None,
            Some(kv) => plain_kv(keys@, 0, vals@, 0) matches Some(s) && kv@ == s.push(0),
        },
{
    let ghost goal = plain_kv(keys@, 0, vals@, 0);
    let mut kk: PackedVarint = PackedVarint::new(keys);
    let mut vv: PackedVarint = PackedVarint::new(vals);
    let mut out: Vec<u32> = Vec::new();
    proof {
        if let Some(s) = goal {
            assert(out@ + s =~= s);
        }
    }
    loop
        invariant
            goal == plain_kv(keys@, 0, vals@, 0),
            kk.b@ == keys@,
            vv.b@ == vals@,
            kk.p <= keys@.len(),
            match plain_kv(keys@, kk.p as int, vals@, vv.p as int) {
                None => goal is None,
                Some(s) => goal == Some(out@ + s),
            },
        decreases keys@.len() - kk.p,
    {
        let ghost o0 = out@;
        assert(o0 + Seq::<u32>::empty() =~= o0);
        let k: Next<u64> = kk.next();
        let v: Next<u64> = vv.next();
        match (k, v) {
            (Next::Broken, _) => {
                return None;
            },
            (_, Next::Broken) => {
                return None;
            },
            (Next::Item(a), Next::Item(c)) => {
                let (x, y): (u32, u32) = (
                    #[verifier::truncate] (a as u32),
                    #[verifier::truncate] (c as u32),
                );
                out.push(x);
                out.push(y);
                proof {
                    if let Some(s) = plain_kv(keys@, kk.p as int, vals@, vv.p as int) {
                        assert(o0 + (seq![x, y] + s) =~= out@ + s);
                    }
                }
            },
            _ => {
                out.push(0);
                return Some(out);
            },
        }
    }
}

/// A node that stands by itself.
pub open spec fn plain_node(blk: Block, b: Seq<u8>) -> Option<NodeModel> {
    match tokens_of(b) {
        None => None,
        Some(ts) => if all_fit(ts, 2, b.len() as int) && all_fit(ts, 3, b.len() as int) {
            match plain_kv(body_or_none(b, ts, 2), 0, body_or_none(b, ts, 3), 0) {
                None => None,
                Some(kv) => node_of(
                    blk,
                    zigzag_of(number_or(ts, 1, 0)),
                    zigzag_of(number_or(ts, 8, 0)),
                    zigzag_of(number_or(ts, 9, 0)),
                    kv.push(0),
                ),
            }
        } else {
            None
        },
    }
}

fn read_plain(blk: &Block, b: &[u8]) -> (r: Option<DenseNode>)
    ensures
        match r {
            None => plain_node(*blk, b@) is None,
            Some(n) => plain_node(*blk, b@) == Some(n.model()),
        },
{
    let ts: Vec<Token> = match tokens(b) {
        None => {
            return None;
        },
        Some(ts) => ts,
    };
    let n: usize = b.len();
    if !check_fit(&ts, 2, n) || !check_fit(&ts, 3, n) {
        return None;
    }
    match read_plain_kv(take_body(b, &ts, 2), take_body(b, &ts, 3)) {
        None => None,
        Some(kv) => make_node(
            blk,
            zigzag(find_number(&ts, 1, 0)),
            zigzag(find_number(&ts, 8, 0)),
            zigzag(find_number(&ts, 9, 0)),
            kv,
        ),
    }
}

/// One node's tags in the list of all, from `p` on: pairs up to a zero or the
/// end. Also says where the next node's begin.
pub open spec fn dense_kv(kvs: Seq<u8>, p: int) -> Option<(Seq<u32>, int)>
    decreases kvs.len() - p,
    when 0 <= p
    via dense_kv_shrinks
{
    if p >= kvs.len() {
        Some((Seq::empty(), p))
    } else {
        match varint_at(kvs, p) {
            None => None,
            Some((k, q)) => if k as u32 == 0 {
                Some((Seq::empty(), q))
            } else {
                match varint_at(kvs, q) {
                    None => None,
                    Some((v, s)) => match dense_kv(kvs, s) {
                        None => None,
                        Some((rest, e)) => Some((seq![k as u32, v as u32] + rest, e)),
                    },
                }
            },
        }
    }
}

#[via_fn]
proof fn dense_kv_shrinks(kvs: Seq<u8>, p: int) {
    lemma_leb(kvs, p, 0);
    if let Some((k, q)) = varint_at(kvs, p) {
        lemma_leb(kvs, q, 0);
    }
}

fn read_dense_kv(kvs: &[u8], p: usize) -> (r: Option<(Vec<u32>, usize)>)
    requires
        p <= kvs@.len(),
    ensures
        match r {
            None => dense_kv(kvs@, p as int) is None,
            Some((kv, e)) => dense_kv(kvs@, p as int) matches Some((s, e2)) && kv@ == s.push(0) && e
                == e2 && e <= kvs@.len(),
        },
{
    let ghost goal = dense_kv(kvs@, p as int);
    let mut out: Vec<u32> = Vec::new();
    let mut at: usize = p;
    proof {
        if let Some((s, e)) = goal {
            assert(out@ + s =~= s);
        }
    }
    while at < kvs.len()
        invariant
            at <= kvs@.len(),
            goal == dense_kv(kvs@, p as int),
            match dense_kv(kvs@, at as int) {
                None => goal is None,
                Some((s, e)) => goal == Some((out@ + s, e)),
            },
        decreases kvs@.len() - at,
    {
        let ghost o0 = out@;
        assert(o0 + Seq::<u32>::empty() =~= o0);
        let k: u32 = match varint(kvs, &mut at) {
            None => {
                return None;
            },
            Some(k) => #[verifier::truncate] (k as u32),
        };
        if k == 0 {
            out.push(0);
            return Some((out, at));
        }
        let v: u32 = match varint(kvs, &mut at) {
            None => {
                return None;
            },
            Some(v) => #[verifier::truncate] (v as u32),
        };
        out.push(k);
        out.push(v);
        proof {
            if let Some((s, e)) = dense_kv(kvs@, at as int) {
                assert(o0 + (seq![k, v] + s) =~= out@ + s);
            }
        }
    }
    assert(out@ + Seq::<u32>::empty() =~= out@);
    out.push(0);
    Some((out, at))
}

/// The next signed number of a list of differences, and the list after it.
pub open spec fn delta_at(b: Seq<u8>, p: int, acc: i64) -> Next<(i64, int)> {
    if p >= b.len() {
        Next::End
    } else {
        match varint_at(b, p) {
            None => Next::Broken,
            Some((v, q)) => if i64::MIN <= acc + zigzag_of(v) <= i64::MAX {
                Next::Item(((acc + zigzag_of(v)) as i64, q))
            } else {
                Next::Broken
            },
        }
    }
}

/// The lists of a dense group.
pub struct DenseLists {
    pub ids: Seq<u8>,
    pub lats: Seq<u8>,
    pub lons: Seq<u8>,
    pub kvs: Seq<u8>,
}

/// How far each list has been read, and the sums so far.
pub struct DenseState {
    pub pi: int,
    pub id: i64,
    pub pa: int,
    pub lat: i64,
    pub po: int,
    pub lon: i64,
    pub pk: int,
}

pub open spec fn dense_start() -> DenseState {
    DenseState { pi: 0, id: 0, pa: 0, lat: 0, po: 0, lon: 0, pk: 0 }
}

/// Nodes from a state on, as long as all three lists last.
pub open spec fn dense_from(blk: Block, l: DenseLists, s: DenseState) -> Option<Seq<NodeModel>>
    decreases l.ids.len() - s.pi,
    when 0 <= s.pi
    via dense_from_shrinks
{
    match (
        delta_at(l.ids, s.pi, s.id),
        delta_at(l.lats, s.pa, s.lat),
        delta_at(l.lons, s.po, s.lon),
    ) {
        (Next::Broken, _, _) => None,
        (_, Next::Broken, _) => None,
        (_, _, Next::Broken) => None,
        (Next::Item((id, pi)), Next::Item((lat, pa)), Next::Item((lon, po))) => match dense_kv(
            l.kvs,
            s.pk,
        ) {
            None => None,
            Some((kv, pk)) => match (
                node_of(blk, id, lat, lon, kv.push(0)),
                dense_from(blk, l, DenseState { pi, id, pa, lat, po, lon, pk }),
            ) {
                (Some(n), Some(rest)) => Some(seq![n] + rest),
                _ => None,
            },
        },
        _ => Some(Seq::empty()),
    }
}

#[via_fn]
proof fn dense_from_shrinks(blk: Block, l: DenseLists, s: DenseState) {
    lemma_leb(l.ids, s.pi, 0);
}

/// The nodes of a dense group.
pub open spec fn dense_nodes(blk: Block, b: Seq<u8>) -> Option<Seq<NodeModel>> {
    match tokens_of(b) {
        None => None,
        Some(ts) => if all_fit(ts, 1, b.len() as int) && all_fit(ts, 8, b.len() as int) && all_fit(
            ts,
            9,
            b.len() as int,
        ) && all_fit(ts, 10, b.len() as int) {
            dense_from(
                blk,
                DenseLists {
                    ids: body_or_none(b, ts, 1),
                    lats: body_or_none(b, ts, 8),
                    lons: body_or_none(b, ts, 9),
                    kvs: body_or_none(b, ts, 10),
                },
                dense_start(),
            )
        } else {
            None
        },
    }
}

#[verifier::rlimit(40)]
fn read_dense(blk: &Block, b: &[u8], out: &mut Vec<DenseNode>) -> (fine: bool)
    ensures
        match dense_nodes(*blk, b@) {
            None => !fine,
            Some(s) => fine && node_models(final(out)@) == node_models(old(out)@) + s,
        },
{
    let ts: Vec<Token> = match tokens(b) {
        None => {
            return false;
        },
        Some(ts) => ts,
    };
    let n: usize = b.len();
    if !check_fit(&ts, 1, n) || !check_fit(&ts, 8, n) || !check_fit(&ts, 9, n) || !check_fit(
        &ts,
        10,
        n,
    ) {
        return false;
    }
    let ids: &[u8] = take_body(b, &ts, 1);
    let lats: &[u8] = take_body(b, &ts, 8);
    let lons: &[u8] = take_body(b, &ts, 9);
    let kvs: &[u8] = take_body(b, &ts, 10);
    let ghost l = DenseLists { ids: ids@, lats: lats@, lons: lons@, kvs: kvs@ };
    let ghost goal = dense_from(*blk, l, dense_start());
    let ghost first = node_models(out@);
    let mut idi: DeltaSint = DeltaSint::new(ids);
    let mut lai: DeltaSint = DeltaSint::new(lats);
    let mut loi: DeltaSint = DeltaSint::new(lons);
    let mut kvp: usize = 0;
    let ghost mut some = Seq::<NodeModel>::empty();
    proof {
        if let Some(s) = goal {
            assert(some + s =~= s);
        }
        assert(first + some =~= first);
    }
    loop
        invariant
            goal == dense_from(*blk, l, dense_start()),
            goal == dense_nodes(*blk, b@),
            first == node_models(old(out)@),
            idi.inner.b@ == l.ids,
            lai.inner.b@ == l.lats,
            loi.inner.b@ == l.lons,
            kvs@ == l.kvs,
            kvp <= l.kvs.len(),
            idi.inner.p <= l.ids.len(),
            node_models(out@) == first + some,
            match dense_from(
                *blk,
                l,
                DenseState {
                    pi: idi.inner.p as int,
                    id: idi.acc,
                    pa: lai.inner.p as int,
                    lat: lai.acc,
                    po: loi.inner.p as int,
                    lon: loi.acc,
                    pk: kvp as int,
                },
            ) {
                None => goal is None,
                Some(s) => goal == Some(some + s),
            },
        decreases l.ids.len() - idi.inner.p,
    {
        assert(some + Seq::<NodeModel>::empty() =~= some);
        let a: Next<i64> = idi.next();
        let c: Next<i64> = lai.next();
        let d: Next<i64> = loi.next();
        match (a, c, d) {
            (Next::Broken, _, _) => {
                return false;
            },
            (_, Next::Broken, _) => {
                return false;
            },
            (_, _, Next::Broken) => {
                return false;
            },
            (Next::Item(id), Next::Item(lat), Next::Item(lon)) => {
                let (kv, e): (Vec<u32>, usize) = match read_dense_kv(kvs, kvp) {
                    None => {
                        return false;
                    },
                    Some(x) => x,
                };
                kvp = e;
                match make_node(blk, id, lat, lon, kv) {
                    None => {
                        return false;
                    },
                    Some(node) => {
                        let ghost m = node.model();
                        let ghost o0 = out@;
                        out.push(node);
                        proof {
                            assert(node_models(out@) =~= node_models(o0).push(m));
                            assert((first + some).push(m) =~= first + some.push(m));
                            if let Some(s) = dense_from(
                                *blk,
                                l,
                                DenseState {
                                    pi: idi.inner.p as int,
                                    id: idi.acc,
                                    pa: lai.inner.p as int,
                                    lat: lai.acc,
                                    po: loi.inner.p as int,
                                    lon: loi.acc,
                                    pk: kvp as int,
                                },
                            ) {
                                assert(some + (seq![m] + s) =~= some.push(m) + s);
                            }
                            some = some.push(m);
                        }
                    },
                }
            },
            _ => {
                return true;
            },
        }
    }
}

/// The nodes among the first `n` fields of a group.
pub open spec fn group_nodes(blk: Block, g: Seq<u8>, ts: Seq<Token>, n: int) -> Option<
    Seq<NodeModel>,
>
    decreases n,
{
    if n <= 0 {
        Some(Seq::empty())
    } else {
        let t = ts[n - 1];
        match group_nodes(blk, g, ts, n - 1) {
            None => None,
            Some(a) => if is_field(t, 2, 2) {
                if !fits(t, g.len() as int) {
                    None
                } else {
                    match dense_nodes(blk, body(g, t)) {
                        None => None,
                        Some(s) => Some(a + s),
                    }
                }
            } else if is_field(t, 1, 2) {
                if !fits(t, g.len() as int) {
                    None
                } else {
                    match plain_node(blk, body(g, t)) {
                        None => None,
                        Some(s) => Some(a.push(s)),
                    }
                }
            } else {
                Some(a)
            },
        }
    }
}

proof fn lemma_group_broken(blk: Block, g: Seq<u8>, ts: Seq<Token>, m: int, n: int)
    requires
        0 <= m <= n,
        group_nodes(blk, g, ts, m) is None,
    ensures
        group_nodes(blk, g, ts, n) is None,
    decreases n - m,
{
    if m < n {
        lemma_group_broken(blk, g, ts, m, n - 1);
    }
}

/// The nodes of the first `n` groups.
pub open spec fn nodes_of(blk: Block, groups: Seq<Seq<u8>>, n: int) -> Option<Seq<NodeModel>>
    decreases n,
{
    if n <= 0 {
        Some(Seq::empty())
    } else {
        match (nodes_of(blk, groups, n - 1), tokens_of(groups[n - 1])) {
            (Some(a), Some(ts)) => match group_nodes(blk, groups[n - 1], ts, ts.len() as int) {
                None => None,
                Some(w) => Some(a + w),
            },
            _ => None,
        }
    }
}

proof fn lemma_nodes_broken(blk: Block, groups: Seq<Seq<u8>>, m: int, n: int)
    requires
        0 <= m <= n,
        nodes_of(blk, groups, m) is None,
    ensures
        nodes_of(blk, groups, n) is None,
    decreases n - m,
{
    if m < n {
        lemma_nodes_broken(blk, groups, m, n - 1);
    }
}

/// What reading the nodes of groups gives.
pub open spec fn nodes_read(blk: Block, groups: Seq<Seq<u8>>, r: Option<Vec<DenseNode>>) -> bool {
    match r {
        None => nodes_of(blk, groups, groups.len() as int) is None,
        Some(v) => nodes_of(blk, groups, groups.len() as int) == Some(node_models(v@)),
    }
}

impl<'a> Block<'a> {
    /// The nodes of the block in order, or nothing where one is broken.
    #[verifier::rlimit(40)]
    pub fn for_each_node(&self) -> (r: Option<Vec<DenseNode>>)
        ensures
            nodes_read(*self, contents(self.groups@), r),
    {
        let ghost gs = contents(self.groups@);
        let mut out: Vec<DenseNode> = Vec::new();
        let mut i: usize = 0;
        assert(node_models(out@) =~= Seq::<NodeModel>::empty());
        while i < self.groups.len()
            invariant
                gs == contents(self.groups@),
                i <= self.groups@.len(),
                nodes_of(*self, gs, i as int) == Some(node_models(out@)),
            decreases self.groups@.len() - i,
        {
            let g: &'a [u8] = self.groups[i];
            assert(gs[i as int] == g@);
            let ghost before = node_models(out@);
            let ts: Vec<Token> = match tokens(g) {
                None => {
                    proof {
                        lemma_nodes_broken(*self, gs, i + 1, gs.len() as int);
                    }
                    return None;
                },
                Some(ts) => ts,
            };
            let n: usize = g.len();
            let mut j: usize = 0;
            assert(before + Seq::<NodeModel>::empty() =~= before);
            while j < ts.len()
                invariant
                    gs == contents(self.groups@),
                    i < self.groups@.len(),
                    gs[i as int] == g@,
                    n == g@.len(),
                    tokens_of(g@) == Some(ts@),
                    nodes_of(*self, gs, i as int) == Some(before),
                    forall|x: int| 0 <= x < ts@.len() ==> (#[trigger] ts@[x]).at <= g@.len(),
                    j <= ts@.len(),
                    match group_nodes(*self, g@, ts@, j as int) {
                        None => false,
                        Some(w) => node_models(out@) == before + w,
                    },
                decreases ts@.len() - j,
            {
                let t: Token = ts[j];
                let mut fine: bool = true;
                let ghost a = group_nodes(*self, g@, ts@, j as int)->0;
                let ghost o0 = out@;
                if t.wire == 2 && (t.num == 1 || t.num == 2) {
                    if t.value > (n - t.at) as u64 {
                        fine = false;
                    } else if t.num == 2 {
                        fine = read_dense(self, body_of(g, &t), &mut out);
                        proof {
                            if let Some(s) = dense_nodes(*self, body(g@, t)) {
                                assert((before + a) + s =~= before + (a + s));
                            }
                        }
                    } else {
                        match read_plain(self, body_of(g, &t)) {
                            None => {
                                fine = false;
                            },
                            Some(node) => {
                                let ghost m = node.model();
                                out.push(node);
                                assert(node_models(out@) =~= node_models(o0).push(m));
                                assert((before + a).push(m) =~= before + a.push(m));
                            },
                        }
                    }
                }
                if !fine {
                    proof {
                        lemma_group_broken(*self, g@, ts@, j + 1, ts@.len() as int);
                        lemma_nodes_broken(*self, gs, i + 1, gs.len() as int);
                    }
                    return None;
                }
                j += 1;
            }
            i += 1;
        }
        Some(out)
    }
}

} // verus!

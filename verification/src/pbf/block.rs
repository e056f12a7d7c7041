//! A block of map data: its string table and its groups, and the ways in them.

use vstd::prelude::*;
use crate::pbf::wire::{
    all_fit, body, body_of, check_fit, find_last, fits, is_field, last_field, next_token, token_at,
    tokens, tokens_of, varint, varint_at, zigzag, zigzag_of, DeltaSint, Next, PackedVarint, Token,
};

verus! {

pub struct Block<'a> {
    pub strings: Vec<&'a [u8]>,
    pub granularity: i64,
    pub lat_offset: i64,
    pub lon_offset: i64,
    pub groups: Vec<&'a [u8]>,
}

/// What each slice holds.
pub open spec fn contents(s: Seq<&[u8]>) -> Seq<Seq<u8>> {
    Seq::new(s.len(), |i: int| s[i]@)
}

/// The bytes of the first `n` fields that are strings under one number.
pub open spec fn bodies(b: Seq<u8>, ts: Seq<Token>, num: u64, n: int) -> Seq<Seq<u8>>
    decreases n,
{
    if n <= 0 {
        Seq::empty()
    } else if is_field(ts[n - 1], num, 2) {
        bodies(b, ts, num, n - 1).push(body(b, ts[n - 1]))
    } else {
        bodies(b, ts, num, n - 1)
    }
}

/// The strings of a string table, or nothing where it is broken.
pub open spec fn table_of(st: Seq<u8>) -> Option<Seq<Seq<u8>>> {
    match tokens_of(st) {
        None => None,
        Some(ts) => if all_fit(ts, 1, st.len() as int) {
            Some(bodies(st, ts, 1, ts.len() as int))
        } else {
            None
        },
    }
}

/// The strings of all tables among the first `n`.
pub open spec fn strings_of(tables: Seq<Seq<u8>>, n: int) -> Option<Seq<Seq<u8>>>
    decreases n,
{
    if n <= 0 {
        Some(Seq::empty())
    } else {
        match (strings_of(tables, n - 1), table_of(tables[n - 1])) {
            (Some(a), Some(t)) => Some(a + t),
            _ => None,
        }
    }
}

proof fn lemma_strings_broken(tables: Seq<Seq<u8>>, m: int, n: int)
    requires
        0 <= m <= n,
        strings_of(tables, m) is None,
    ensures
        strings_of(tables, n) is None,
    decreases n - m,
{
    if m < n {
        lemma_strings_broken(tables, m, n - 1);
    }
}

fn push_bodies<'a>(b: &'a [u8], ts: &Vec<Token>, num: u64, out: &mut Vec<&'a [u8]>)
    requires
        all_fit(ts@, num, b@.len() as int),
        forall|i: int| 0 <= i < ts@.len() ==> (#[trigger] ts@[i]).at <= b@.len(),
    ensures
        contents(final(out)@) == contents(old(out)@) + bodies(b@, ts@, num, ts@.len() as int),
{
    let ghost o = contents(out@);
    let mut i: usize = 0;
    assert(o + bodies(b@, ts@, num, 0) =~= o);
    while i < ts.len()
        invariant
            all_fit(ts@, num, b@.len() as int),
            forall|i: int| 0 <= i < ts@.len() ==> (#[trigger] ts@[i]).at <= b@.len(),
            i <= ts@.len(),
            contents(out@) == o + bodies(b@, ts@, num, i as int),
        decreases ts@.len() - i,
    {
        let t: Token = ts[i];
        if t.num == num && t.wire == 2 {
            let ghost o0 = out@;
            assert(is_field(ts@[i as int], num, 2));
            let s: &'a [u8] = body_of(b, &t);
            out.push(s);
            assert(contents(out@) =~= contents(o0).push(s@));
            assert(contents(out@) =~= o + bodies(b@, ts@, num, i + 1));
        }
        i += 1;
    }
}

/// What a message says of a number that is not there.
pub open spec fn number_or(ts: Seq<Token>, num: u64, default: u64) -> u64 {
    match last_field(ts, num, 0, ts.len() as int) {
        Some(t) => t.value,
        None => default,
    }
}

pub fn find_number(ts: &Vec<Token>, num: u64, default: u64) -> (v: u64)
    ensures
        v == number_or(ts@, num, default),
{
    match find_last(ts, num, 0) {
        Some(t) => t.value,
        None => default,
    }
}

/// The message is a block.
pub open spec fn is_block(b: Seq<u8>) -> bool {
    match tokens_of(b) {
        None => false,
        Some(ts) => {
            &&& all_fit(ts, 1, b.len() as int)
            &&& all_fit(ts, 2, b.len() as int)
            &&& strings_of(
                bodies(b, ts, 1, ts.len() as int),
                bodies(b, ts, 1, ts.len() as int).len() as int,
            ) is Some
        },
    }
}

/// What reading a message as a block gives.
pub open spec fn parsed(b: Seq<u8>, r: Option<Block>) -> bool {
    match r {
        None => !is_block(b),
        Some(k) => {
            let ts = tokens_of(b)->0;
            let tables = bodies(b, ts, 1, ts.len() as int);
            &&& is_block(b)
            &&& Some(contents(k.strings@)) == strings_of(tables, tables.len() as int)
            &&& contents(k.groups@) == bodies(b, ts, 2, ts.len() as int)
            &&& k.granularity == number_or(ts, 17, 100) as i64
            &&& k.lat_offset == zigzag_of(number_or(ts, 19, 0))
            &&& k.lon_offset == zigzag_of(number_or(ts, 20, 0))
        },
    }
}

/// What a way says.
pub struct WayModel {
    pub id: i64,
    pub keys: Seq<u8>,
    pub vals: Seq<u8>,
    pub refs: Seq<u8>,
}

pub open spec fn body_or_none(b: Seq<u8>, ts: Seq<Token>, num: u64) -> Seq<u8> {
    match last_field(ts, num, 2, ts.len() as int) {
        Some(t) => body(b, t),
        None => Seq::empty(),
    }
}

pub open spec fn way_of(b: Seq<u8>) -> Option<WayModel> {
    match tokens_of(b) {
        None => None,
        Some(ts) => if all_fit(ts, 2, b.len() as int) && all_fit(ts, 3, b.len() as int) && all_fit(
            ts,
            8,
            b.len() as int,
        ) {
            Some(
                WayModel {
                    id: number_or(ts, 1, 0) as i64,
                    keys: body_or_none(b, ts, 2),
                    vals: body_or_none(b, ts, 3),
                    refs: body_or_none(b, ts, 8),
                },
            )
        } else {
            None
        },
    }
}

/// A way as it is stored.
pub struct Way<'a> {
    pub id: i64,
    pub keys: &'a [u8],
    pub vals: &'a [u8],
    pub refs: &'a [u8],
}

/// Numbers from `p` on, each given as its difference from the one before.
pub open spec fn deltas(b: Seq<u8>, p: int, acc: i64) -> Option<Seq<i64>>
    decreases b.len() - p,
    when 0 <= p
    via deltas_shrink
{
    if p >= b.len() {
        Some(Seq::empty())
    } else {
        match varint_at(b, p) {
            None => None,
            Some((v, q)) => {
                let x = acc + zigzag_of(v);
                if i64::MIN <= x <= i64::MAX {
                    match deltas(b, q, x as i64) {
                        None => None,
                        Some(rest) => Some(seq![x as i64] + rest),
                    }
                } else {
                    None
                }
            },
        }
    }
}

#[via_fn]
proof fn deltas_shrink(b: Seq<u8>, p: int, acc: i64) {
    crate::pbf::wire::lemma_leb(b, p, 0);
}

/// Keys and values from two lists of string numbers, as long as both last.
pub open spec fn pairs(
    strings: Seq<Seq<u8>>,
    keys: Seq<u8>,
    p: int,
    vals: Seq<u8>,
    q: int,
) -> Option<Seq<(Seq<u8>, Seq<u8>)>>
    decreases keys.len() - p,
    when 0 <= p && 0 <= q
    via pairs_shrink
{
    if p >= keys.len() {
        Some(Seq::empty())
    } else {
        match varint_at(keys, p) {
            None => None,
            Some((k, p2)) => if q >= vals.len() {
                Some(Seq::empty())
            } else {
                match varint_at(vals, q) {
                    None => None,
                    Some((v, q2)) => if k < strings.len() && v < strings.len() {
                        match pairs(strings, keys, p2, vals, q2) {
                            None => None,
                            Some(rest) => Some(
                                seq![(strings[k as int], strings[v as int])] + rest,
                            ),
                        }
                    } else {
                        None
                    },
                }
            },
        }
    }
}

#[via_fn]
proof fn pairs_shrink(strings: Seq<Seq<u8>>, keys: Seq<u8>, p: int, vals: Seq<u8>, q: int) {
    crate::pbf::wire::lemma_leb(keys, p, 0);
    crate::pbf::wire::lemma_leb(vals, q, 0);
}

pub open spec fn tag_views(tags: Seq<(&[u8], &[u8])>) -> Seq<(Seq<u8>, Seq<u8>)> {
    Seq::new(tags.len(), |i: int| (tags[i].0@, tags[i].1@))
}

/// What reading a list of nodes gives.
pub open spec fn refs_read(refs: Seq<u8>, r: Option<Vec<i64>>) -> bool {
    match r {
        None => deltas(refs, 0, 0) is None,
        Some(v) => deltas(refs, 0, 0) == Some(v@),
    }
}

/// What reading the tags of a way gives.
pub open spec fn tags_read(
    strings: Seq<Seq<u8>>,
    keys: Seq<u8>,
    vals: Seq<u8>,
    r: Option<Vec<(&[u8], &[u8])>>,
) -> bool {
    match r {
        None => pairs(strings, keys, 0, vals, 0) is None,
        Some(v) => pairs(strings, keys, 0, vals, 0) == Some(tag_views(v@)),
    }
}

impl<'a> Way<'a> {
    pub open spec fn model(&self) -> WayModel {
        WayModel { id: self.id, keys: self.keys@, vals: self.vals@, refs: self.refs@ }
    }

    /// The nodes of the way, or nothing where the list is broken.
    pub fn refs(&self) -> (r: Option<Vec<i64>>)
        ensures
            refs_read(self.refs@, r),
    {
        let mut d: DeltaSint<'a> = DeltaSint::new(self.refs);
        let mut out: Vec<i64> = Vec::new();
        let ghost goal = deltas(self.refs@, 0, 0);
        proof {
            if let Some(s) = goal {
                assert(out@ + s =~= s);
            }
        }
        loop
            invariant
                goal == deltas(self.refs@, 0, 0),
                d.inner.b@ == self.refs@,
                d.inner.p <= self.refs@.len(),
                match deltas(self.refs@, d.inner.p as int, d.acc) {
                    None => goal is None,
                    Some(s) => goal == Some(out@ + s),
                },
            decreases self.refs@.len() - d.inner.p,
        {
            let ghost d0 = d;
            match d.next() {
                Next::End => {
                    assert(out@ + Seq::<i64>::empty() =~= out@);
                    return Some(out);
                },
                Next::Broken => {
                    return None;
                },
                Next::Item(x) => {
                    proof {
                        if let Some(s) = deltas(self.refs@, d.inner.p as int, d.acc) {
                            assert(out@ + (seq![x] + s) =~= out@.push(x) + s);
                        }
                    }
                    out.push(x);
                },
            }
        }
    }

    /// The tags of the way, or nothing where a list is broken or names a
    /// string that is not there.
    pub fn tags(&self, blk: &Block<'a>) -> (r: Option<Vec<(&'a [u8], &'a [u8])>>)
        ensures
            tags_read(contents(blk.strings@), self.keys@, self.vals@, r),
    {
        let ghost st = contents(blk.strings@);
        let ghost goal = pairs(st, self.keys@, 0, self.vals@, 0);
        let mut kk: PackedVarint<'a> = PackedVarint::new(self.keys);
        let mut vv: PackedVarint<'a> = PackedVarint::new(self.vals);
        let mut out: Vec<(&'a [u8], &'a [u8])> = Vec::new();
        proof {
            if let Some(s) = goal {
                assert(tag_views(out@) + s =~= s);
            }
        }
        loop
            invariant
                st == contents(blk.strings@),
                goal == pairs(st, self.keys@, 0, self.vals@, 0),
                kk.b@ == self.keys@,
                vv.b@ == self.vals@,
                kk.p <= self.keys@.len(),
                match pairs(st, self.keys@, kk.p as int, self.vals@, vv.p as int) {
                    None => goal is None,
                    Some(s) => goal == Some(tag_views(out@) + s),
                },
            decreases self.keys@.len() - kk.p,
        {
            let ghost (k0, v0) = (kk.p, vv.p);
            let ghost o0 = out@;
            assert(tag_views(o0) + Seq::<(Seq<u8>, Seq<u8>)>::empty() =~= tag_views(o0));
            let k: u64 = match kk.next() {
                Next::End => {
                    return Some(out);
                },
                Next::Broken => {
                    return None;
                },
                Next::Item(k) => k,
            };
            let v: u64 = match vv.next() {
                Next::End => {
                    return Some(out);
                },
                Next::Broken => {
                    return None;
                },
                Next::Item(v) => v,
            };
            let n: usize = blk.strings.len();
            if k >= n as u64 || v >= n as u64 {
                return None;
            }
            let pair: (&'a [u8], &'a [u8]) = (blk.strings[k as usize], blk.strings[v as usize]);
            out.push(pair);
            proof {
                let x = (st[k as int], st[v as int]);
                assert(tag_views(out@) =~= tag_views(o0).push(x));
                if let Some(s) = pairs(st, self.keys@, kk.p as int, self.vals@, vv.p as int) {
                    assert(tag_views(o0) + (seq![x] + s) =~= tag_views(out@) + s);
                }
            }
        }
    }
}

pub(crate) fn take_body<'a>(b: &'a [u8], ts: &Vec<Token>, num: u64) -> (r: &'a [u8])
    requires
        all_fit(ts@, num, b@.len() as int),
        forall|i: int| 0 <= i < ts@.len() ==> (#[trigger] ts@[i]).at <= b@.len(),
    ensures
        r@ == body_or_none(b@, ts@, num),
{
    match find_last(ts, num, 2) {
        Some(t) => {
            proof {
                let i = ts@.index_of(t);
                assert(ts@[i] == t);
                lemma_last_is(ts@, num, 2, ts@.len() as int);
                assert(is_field(ts@[i], num, 2));
            }
            body_of(b, &t)
        },
        None => {
            let r: &'a [u8] = vstd::slice::slice_subrange(b, 0, 0);
            assert(r@ =~= Seq::<u8>::empty());
            r
        },
    }
}

proof fn lemma_last_is(ts: Seq<Token>, num: u64, wire: u64, n: int)
    ensures
        last_field(ts, num, wire, n) matches Some(t) ==> is_field(t, num, wire),
    decreases n,
{
    if n > 0 {
        lemma_last_is(ts, num, wire, n - 1);
    }
}

fn parse_way<'a>(b: &'a [u8]) -> (r: Option<Way<'a>>)
    ensures
        match r {
            None => way_of(b@) is None,
            Some(w) => way_of(b@) == Some(w.model()),
        },
{
    let ts: Vec<Token> = match tokens(b) {
        None => {
            return None;
        },
        Some(ts) => ts,
    };
    let n: usize = b.len();
    if !check_fit(&ts, 2, n) || !check_fit(&ts, 3, n) || !check_fit(&ts, 8, n) {
        return None;
    }
    Some(
        Way {
            id: #[verifier::truncate] (find_number(&ts, 1, 0) as i64),
            keys: take_body(b, &ts, 2),
            vals: take_body(b, &ts, 3),
            refs: take_body(b, &ts, 8),
        },
    )
}

/// The ways among the first `n` fields of a group.
pub open spec fn group_ways(g: Seq<u8>, ts: Seq<Token>, n: int) -> Option<Seq<WayModel>>
    decreases n,
{
    if n <= 0 {
        Some(Seq::empty())
    } else {
        match group_ways(g, ts, n - 1) {
            None => None,
            Some(a) => if is_field(ts[n - 1], 3, 2) {
                if fits(ts[n - 1], g.len() as int) {
                    match way_of(body(g, ts[n - 1])) {
                        None => None,
                        Some(w) => Some(a.push(w)),
                    }
                } else {
                    None
                }
            } else {
                Some(a)
            },
        }
    }
}

proof fn lemma_group_broken(g: Seq<u8>, ts: Seq<Token>, m: int, n: int)
    requires
        0 <= m <= n,
        group_ways(g, ts, m) is None,
    ensures
        group_ways(g, ts, n) is None,
    decreases n - m,
{
    if m < n {
        lemma_group_broken(g, ts, m, n - 1);
    }
}

/// The ways of the first `n` groups.
pub open spec fn ways_of(groups: Seq<Seq<u8>>, n: int) -> Option<Seq<WayModel>>
    decreases n,
{
    if n <= 0 {
        Some(Seq::empty())
    } else {
        match (ways_of(groups, n - 1), tokens_of(groups[n - 1])) {
            (Some(a), Some(ts)) => match group_ways(groups[n - 1], ts, ts.len() as int) {
                None => None,
                Some(w) => Some(a + w),
            },
            _ => None,
        }
    }
}

proof fn lemma_ways_broken(groups: Seq<Seq<u8>>, m: int, n: int)
    requires
        0 <= m <= n,
        ways_of(groups, m) is None,
    ensures
        ways_of(groups, n) is None,
    decreases n - m,
{
    if m < n {
        lemma_ways_broken(groups, m, n - 1);
    }
}

pub open spec fn models(ways: Seq<Way>) -> Seq<WayModel> {
    Seq::new(ways.len(), |i: int| ways[i].model())
}

/// What reading the ways of groups gives.
pub open spec fn ways_read(groups: Seq<Seq<u8>>, r: Option<Vec<Way>>) -> bool {
    match r {
        None => ways_of(groups, groups.len() as int) is None,
        Some(w) => ways_of(groups, groups.len() as int) == Some(models(w@)),
    }
}

/// Whether a way comes up among the fields from `p` on.
pub open spec fn way_from(g: Seq<u8>, p: int) -> Option<bool>
    decreases g.len() - p,
    when 0 <= p
    via way_from_shrinks
{
    if p >= g.len() {
        Some(false)
    } else {
        match varint_at(g, p) {
            None => None,
            Some((k, q)) => if k / 8 == 3 && k % 8 == 2 {
                Some(true)
            } else {
                match token_at(g, p) {
                    None => None,
                    Some((t, s)) => way_from(
                        g,
                        if s < g.len() {
                            s
                        } else {
                            g.len() as int
                        },
                    ),
                }
            },
        }
    }
}

#[via_fn]
proof fn way_from_shrinks(g: Seq<u8>, p: int) {
    crate::pbf::wire::lemma_token(g, p);
}

/// Whether a way comes up in the groups from `i` on.
pub open spec fn any_way(groups: Seq<Seq<u8>>, i: int) -> Option<bool>
    decreases groups.len() - i,
{
    if i >= groups.len() {
        Some(false)
    } else {
        match way_from(groups[i], 0) {
            None => None,
            Some(true) => Some(true),
            Some(false) => any_way(groups, i + 1),
        }
    }
}

fn group_has_ways(g: &[u8]) -> (r: Option<bool>)
    ensures
        r == way_from(g@, 0),
{
    let mut p: usize = 0;
    while p < g.len()
        invariant
            p <= g@.len(),
            way_from(g@, p as int) == way_from(g@, 0),
        decreases g@.len() - p,
    {
        let mut q: usize = p;
        match varint(g, &mut q) {
            None => {
                return None;
            },
            Some(k) => {
                if k / 8 == 3 && k % 8 == 2 {
                    return Some(true);
                }
            },
        }
        match next_token(g, p) {
            None => {
                return None;
            },
            Some((_, s)) => {
                p = s;
            },
        }
    }
    Some(false)
}

impl<'a> Block<'a> {
    /// Reads a block, or nothing where it is broken.
    pub fn parse(b: &'a [u8]) -> (r: Option<Block<'a>>)
        ensures
            parsed(b@, r),
    {
        let ts: Vec<Token> = match tokens(b) {
            None => {
                return None;
            },
            Some(ts) => ts,
        };
        let n: usize = b.len();
        if !check_fit(&ts, 1, n) || !check_fit(&ts, 2, n) {
            return None;
        }
        let mut tables: Vec<&'a [u8]> = Vec::new();
        let mut groups: Vec<&'a [u8]> = Vec::new();
        push_bodies(b, &ts, 1, &mut tables);
        push_bodies(b, &ts, 2, &mut groups);
        let ghost tv = contents(tables@);
        proof {
            let t1 = bodies(b@, ts@, 1, ts@.len() as int);
            let t2 = bodies(b@, ts@, 2, ts@.len() as int);
            assert(contents(Seq::<&[u8]>::empty()) + t1 =~= t1);
            assert(contents(Seq::<&[u8]>::empty()) + t2 =~= t2);
            assert(tv == t1);
        }
        let mut strings: Vec<&'a [u8]> = Vec::new();
        let mut i: usize = 0;
        assert(contents(strings@) =~= Seq::<Seq<u8>>::empty());
        while i < tables.len()
            invariant
                tv == contents(tables@),
                i <= tables@.len(),
                strings_of(tv, i as int) == Some(contents(strings@)),
                tokens_of(b@) == Some(ts@),
                tv == bodies(b@, ts@, 1, ts@.len() as int),
            decreases tables@.len() - i,
        {
            let st: &'a [u8] = tables[i];
            let ghost s0 = contents(strings@);
            assert(tv[i as int] == st@);
            let sub: Vec<Token> = match tokens(st) {
                None => {
                    proof {
                        lemma_strings_broken(tv, i + 1, tv.len() as int);
                    }
                    return None;
                },
                Some(s) => s,
            };
            if !check_fit(&sub, 1, st.len()) {
                proof {
                    lemma_strings_broken(tv, i + 1, tv.len() as int);
                }
                return None;
            }
            push_bodies(st, &sub, 1, &mut strings);
            i += 1;
        }
        Some(
            Block {
                strings,
                granularity: #[verifier::truncate] (find_number(&ts, 17, 100) as i64),
                lat_offset: zigzag(find_number(&ts, 19, 0)),
                lon_offset: zigzag(find_number(&ts, 20, 0)),
                groups,
            },
        )
    }

    /// Whether the block holds a way, as far as can be read.
    pub fn has_ways(&self) -> (r: Option<bool>)
        ensures
            r == any_way(contents(self.groups@), 0),
    {
        let ghost gs = contents(self.groups@);
        let mut i: usize = 0;
        while i < self.groups.len()
            invariant
                gs == contents(self.groups@),
                i <= self.groups@.len(),
                any_way(gs, i as int) == any_way(gs, 0),
            decreases self.groups@.len() - i,
        {
            assert(gs[i as int] == self.groups@[i as int]@);
            match group_has_ways(self.groups[i]) {
                None => {
                    return None;
                },
                Some(true) => {
                    return Some(true);
                },
                Some(false) => {},
            }
            i += 1;
        }
        Some(false)
    }

    /// The ways of the block in order, or nothing where one is broken.
    pub fn for_each_way(&self) -> (r: Option<Vec<Way<'a>>>)
        ensures
            ways_read(contents(self.groups@), r),
    {
        let ghost gs = contents(self.groups@);
        let mut out: Vec<Way<'a>> = Vec::new();
        let mut i: usize = 0;
        assert(models(out@) =~= Seq::<WayModel>::empty());
        while i < self.groups.len()
            invariant
                gs == contents(self.groups@),
                i <= self.groups@.len(),
                ways_of(gs, i as int) == Some(models(out@)),
            decreases self.groups@.len() - i,
        {
            let g: &'a [u8] = self.groups[i];
            assert(gs[i as int] == g@);
            let ghost before = models(out@);
            let ts: Vec<Token> = match tokens(g) {
                None => {
                    proof {
                        lemma_ways_broken(gs, i + 1, gs.len() as int);
                    }
                    return None;
                },
                Some(ts) => ts,
            };
            let n: usize = g.len();
            let mut j: usize = 0;
            assert(before + Seq::<WayModel>::empty() =~= before);
            while j < ts.len()
                invariant
                    gs == contents(self.groups@),
                    i < self.groups@.len(),
                    gs[i as int] == g@,
                    n == g@.len(),
                    tokens_of(g@) == Some(ts@),
                    ways_of(gs, i as int) == Some(before),
                    forall|x: int| 0 <= x < ts@.len() ==> (#[trigger] ts@[x]).at <= g@.len(),
                    j <= ts@.len(),
                    match group_ways(g@, ts@, j as int) {
                        None => false,
                        Some(w) => models(out@) == before + w,
                    },
                decreases ts@.len() - j,
            {
                let t: Token = ts[j];
                if t.num == 3 && t.wire == 2 {
                    assert(is_field(ts@[j as int], 3, 2));
                    let mut way: Option<Way<'a>> = None;
                    if t.value <= (n - t.at) as u64 {
                        way = parse_way(body_of(g, &t));
                    }
                    match way {
                        None => {
                            proof {
                                lemma_group_broken(g@, ts@, j + 1, ts@.len() as int);
                                lemma_ways_broken(gs, i + 1, gs.len() as int);
                            }
                            return None;
                        },
                        Some(w) => {
                            let ghost o0 = out@;
                            let ghost wm = w.model();
                            out.push(w);
                            proof {
                                assert(models(out@) =~= models(o0).push(wm));
                                if let Some(a) = group_ways(g@, ts@, j as int) {
                                    assert((before + a).push(wm) =~= before + a.push(wm));
                                }
                            }
                        },
                    }
                }
                j += 1;
            }
            i += 1;
        }
        Some(out)
    }

    /// A string of the table.
    pub fn s(&self, i: u32) -> (r: &'a [u8])
        requires
            i < self.strings@.len(),
        ensures
            r@ == contents(self.strings@)[i as int],
    {
        self.strings[i as usize]
    }
}

} // verus!

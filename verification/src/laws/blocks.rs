//! Blocks are read back as they were written.

use vstd::prelude::*;
use crate::laws::reading::{
    folded, is_text, is_token, lemma_fields_read, lemma_fit, lemma_folded, lemma_halves,
    lemma_text_read, lemma_token_read, lemma_value_read, message, says_number, says_text, sent,
    sent_one, small, stands, Field,
};
use crate::pbf::block::{
    any_way, bodies, contents, group_ways, models, parsed, strings_of, table_of, way_from, way_of,
    ways_of, ways_read, Block, Way, WayModel,
};
use crate::pbf::node::{
    dense_nodes, group_nodes, node_models, nodes_of, nodes_read, plain_node, DenseNode, NodeModel,
};
use crate::pbf::wire::{tokens_of, Token};

verus! {

/// The strings of bytes under one number, in the order in which they were sent.
pub open spec fn texts(fs: Seq<Field>, num: u64) -> Seq<Seq<u8>>
    decreases fs.len(),
{
    if fs.len() == 0 {
        Seq::empty()
    } else {
        match fs.last() {
            Field::Text(n, s) if n == num => texts(fs.drop_last(), num).push(s),
            _ => texts(fs.drop_last(), num),
        }
    }
}

/// One list after another.
pub open spec fn joined<T>(lists: Seq<Seq<T>>) -> Seq<T>
    decreases lists.len(),
{
    if lists.len() == 0 {
        Seq::empty()
    } else {
        joined(lists.drop_last()) + lists.last()
    }
}

proof fn lemma_bodies(fs: Seq<Field>, ts: Seq<Token>, b: Seq<u8>, num: u64, n: int)
    requires
        0 <= n <= fs.len(),
        ts.len() == fs.len(),
        forall|i: int| 0 <= i < fs.len() ==> #[trigger] is_token(b, ts[i], fs[i]),
    ensures
        bodies(b, ts, num, n) == texts(fs.take(n), num),
    decreases n,
{
    if n > 0 {
        lemma_bodies(fs, ts, b, num, n - 1);
        assert(fs.take(n).drop_last() =~= fs.take(n - 1));
        assert(is_token(b, ts[n - 1], fs[n - 1]));
    }
}

/// What a block says of itself and its groups is read back as it was written;
/// the granularity is a hundred, and both offsets are zero, where it says
/// nothing.
pub proof fn lemma_block_read(
    fs: Seq<Field>,
    k: Block,
    granularity: u64,
    lat_offset: i64,
    lon_offset: i64,
)
    requires
        message(fs),
        parsed(sent(fs), Some(k)),
        says_number(fs, 17, 100, granularity),
        says_number(fs, 19, 0, folded(lat_offset)),
        says_number(fs, 20, 0, folded(lon_offset)),
    ensures
        k.granularity == granularity as i64,
        k.lat_offset == lat_offset,
        k.lon_offset == lon_offset,
        contents(k.groups@) == texts(fs, 2),
{
    lemma_value_read(fs, 17, 100, granularity);
    lemma_value_read(fs, 19, 0, folded(lat_offset));
    lemma_value_read(fs, 20, 0, folded(lon_offset));
    lemma_folded(lat_offset);
    lemma_folded(lon_offset);
    lemma_fields_read(fs);
    let ts = tokens_of(sent(fs))->0;
    lemma_bodies(fs, ts, sent(fs), 2, ts.len() as int);
    assert(fs.take(ts.len() as int) =~= fs);
}

proof fn lemma_table(fs: Seq<Field>)
    requires
        message(fs),
    ensures
        table_of(sent(fs)) == Some(texts(fs, 1)),
{
    lemma_fit(fs, 1);
    lemma_fields_read(fs);
    let ts = tokens_of(sent(fs))->0;
    lemma_bodies(fs, ts, sent(fs), 1, ts.len() as int);
    assert(fs.take(ts.len() as int) =~= fs);
}

/// The tables of strings of a block.
pub open spec fn tables(fs: Seq<Field>, tabs: Seq<Seq<Field>>) -> bool {
    &&& texts(fs, 1).len() == tabs.len()
    &&& forall|i: int| 0 <= i < tabs.len() ==> message(#[trigger] tabs[i])
    &&& forall|i: int| 0 <= i < tabs.len() ==> texts(fs, 1)[i] == sent(#[trigger] tabs[i])
}

pub open spec fn table_texts(tabs: Seq<Seq<Field>>) -> Seq<Seq<Seq<u8>>> {
    Seq::new(tabs.len(), |i: int| texts(tabs[i], 1))
}

proof fn lemma_strings(all: Seq<Seq<u8>>, tabs: Seq<Seq<Field>>, n: int)
    requires
        0 <= n <= tabs.len(),
        all.len() == tabs.len(),
        forall|i: int| 0 <= i < tabs.len() ==> message(#[trigger] tabs[i]),
        forall|i: int| 0 <= i < tabs.len() ==> all[i] == sent(#[trigger] tabs[i]),
    ensures
        strings_of(all, n) == Some(joined(table_texts(tabs).take(n))),
    decreases n,
{
    let lists = table_texts(tabs);
    if n > 0 {
        lemma_strings(all, tabs, n - 1);
        assert(message(tabs[n - 1]));
        assert(all[n - 1] == sent(tabs[n - 1]));
        lemma_table(tabs[n - 1]);
        assert(lists.take(n).drop_last() =~= lists.take(n - 1));
        assert(lists.take(n).last() == texts(tabs[n - 1], 1));
    }
}

/// A block that was written is read, and its strings are those of its tables in
/// order.
pub proof fn lemma_block_taken(fs: Seq<Field>, tabs: Seq<Seq<Field>>, r: Option<Block>)
    requires
        message(fs),
        tables(fs, tabs),
        parsed(sent(fs), r),
    ensures
        r matches Some(k) && contents(k.strings@) == joined(table_texts(tabs)),
{
    lemma_fit(fs, 1);
    lemma_fit(fs, 2);
    lemma_fields_read(fs);
    let ts = tokens_of(sent(fs))->0;
    lemma_bodies(fs, ts, sent(fs), 1, ts.len() as int);
    assert(fs.take(ts.len() as int) =~= fs);
    lemma_strings(texts(fs, 1), tabs, tabs.len() as int);
    assert(table_texts(tabs).take(tabs.len() as int) =~= table_texts(tabs));
}

// --------------------------------------------------------------------- nodes

/// What one field of a group holds of nodes: one that stands by itself under
/// 1, many densely under 2, and none under any other number.
pub open spec fn field_nodes(blk: Block, f: Field, ns: Seq<NodeModel>) -> bool {
    match f {
        Field::Text(num, s) => if num == 2 {
            dense_nodes(blk, s) == Some(ns)
        } else if num == 1 {
            ns.len() == 1 && plain_node(blk, s) == Some(ns[0])
        } else {
            ns.len() == 0
        },
        Field::Number(_, _) => ns.len() == 0,
    }
}

pub open spec fn group_holds(blk: Block, fs: Seq<Field>, parts: Seq<Seq<NodeModel>>) -> bool {
    &&& message(fs)
    &&& parts.len() == fs.len()
    &&& forall|i: int| 0 <= i < fs.len() ==> #[trigger] field_nodes(blk, fs[i], parts[i])
}

proof fn lemma_group(blk: Block, fs: Seq<Field>, parts: Seq<Seq<NodeModel>>, ts: Seq<Token>, n: int)
    requires
        group_holds(blk, fs, parts),
        tokens_of(sent(fs)) == Some(ts),
        ts.len() == fs.len(),
        forall|i: int| 0 <= i < fs.len() ==> #[trigger] is_token(sent(fs), ts[i], fs[i]),
        0 <= n <= fs.len(),
    ensures
        group_nodes(blk, sent(fs), ts, n) == Some(joined(parts.take(n))),
    decreases n,
{
    if n > 0 {
        lemma_group(blk, fs, parts, ts, n - 1);
        assert(is_token(sent(fs), ts[n - 1], fs[n - 1]));
        assert(field_nodes(blk, fs[n - 1], parts[n - 1]));
        let (was, now) = (parts.take(n - 1), parts.take(n));
        assert(now.drop_last() =~= was);
        assert(now.last() == parts[n - 1]);
        let x = parts[n - 1];
        if x.len() == 0 {
            assert(joined(was) + x =~= joined(was));
        }
        if x.len() == 1 {
            assert(joined(was) + x =~= joined(was).push(x[0]));
        }
    }
}

/// The groups of a block, and what the fields of each hold.
pub open spec fn groups_hold(
    blk: Block,
    groups: Seq<Seq<u8>>,
    gs: Seq<Seq<Field>>,
    parts: Seq<Seq<Seq<NodeModel>>>,
) -> bool {
    &&& groups.len() == gs.len()
    &&& groups.len() == parts.len()
    &&& forall|i: int| 0 <= i < gs.len() ==> groups[i] == sent(#[trigger] gs[i])
    &&& forall|i: int| 0 <= i < gs.len() ==> #[trigger] group_holds(blk, gs[i], parts[i])
}

pub open spec fn each_joined<T>(parts: Seq<Seq<Seq<T>>>) -> Seq<Seq<T>> {
    Seq::new(parts.len(), |i: int| joined(parts[i]))
}

proof fn lemma_groups(
    blk: Block,
    groups: Seq<Seq<u8>>,
    gs: Seq<Seq<Field>>,
    parts: Seq<Seq<Seq<NodeModel>>>,
    n: int,
)
    requires
        groups_hold(blk, groups, gs, parts),
        0 <= n <= gs.len(),
    ensures
        nodes_of(blk, groups, n) == Some(joined(each_joined(parts).take(n))),
    decreases n,
{
    let all = each_joined(parts);
    if n > 0 {
        lemma_groups(blk, groups, gs, parts, n - 1);
        let fs = gs[n - 1];
        assert(group_holds(blk, fs, parts[n - 1]));
        assert(groups[n - 1] == sent(fs));
        lemma_fields_read(fs);
        let ts = tokens_of(sent(fs))->0;
        lemma_group(blk, fs, parts[n - 1], ts, fs.len() as int);
        assert(parts[n - 1].take(fs.len() as int) =~= parts[n - 1]);
        assert(all.take(n).drop_last() =~= all.take(n - 1));
        assert(all.take(n).last() == joined(parts[n - 1]));
    }
}

/// The nodes of a block are those that its groups hold, in the order in which
/// they were written, and each comes once.
pub proof fn lemma_nodes_read(
    blk: Block,
    groups: Seq<Seq<u8>>,
    gs: Seq<Seq<Field>>,
    parts: Seq<Seq<Seq<NodeModel>>>,
    r: Option<Vec<DenseNode>>,
)
    requires
        groups_hold(blk, groups, gs, parts),
        nodes_read(blk, groups, r),
    ensures
        r matches Some(v) && node_models(v@) == joined(each_joined(parts)),
{
    lemma_groups(blk, groups, gs, parts, gs.len() as int);
    assert(each_joined(parts).take(gs.len() as int) =~= each_joined(parts));
}

// ---------------------------------------------------------------------- ways

/// A way is read back as it was written, in whatever order its fields came.
pub proof fn lemma_way_read(fs: Seq<Field>, id: u64, keys: Seq<u8>, vals: Seq<u8>, refs: Seq<u8>)
    requires
        message(fs),
        says_number(fs, 1, 0, id),
        says_text(fs, 2, keys),
        says_text(fs, 3, vals),
        says_text(fs, 8, refs),
    ensures
        way_of(sent(fs)) matches Some(w) && w.id == id as i64 && w.keys == keys && w.vals == vals
            && w.refs == refs,
{
    lemma_fit(fs, 2);
    lemma_fit(fs, 3);
    lemma_fit(fs, 8);
    lemma_value_read(fs, 1, 0, id);
    lemma_text_read(fs, 2, keys);
    lemma_text_read(fs, 3, vals);
    lemma_text_read(fs, 8, refs);
}

/// What one field of a group holds of ways: one under 3, else none.
pub open spec fn field_ways(f: Field, ws: Seq<WayModel>) -> bool {
    if is_text(f, 3) {
        ws.len() == 1 && way_of(f->Text_1) == Some(ws[0])
    } else {
        ws.len() == 0
    }
}

pub open spec fn group_has(fs: Seq<Field>, parts: Seq<Seq<WayModel>>) -> bool {
    &&& message(fs)
    &&& parts.len() == fs.len()
    &&& forall|i: int| 0 <= i < fs.len() ==> #[trigger] field_ways(fs[i], parts[i])
}

proof fn lemma_group_ways(fs: Seq<Field>, parts: Seq<Seq<WayModel>>, ts: Seq<Token>, n: int)
    requires
        group_has(fs, parts),
        ts.len() == fs.len(),
        forall|i: int| 0 <= i < fs.len() ==> #[trigger] is_token(sent(fs), ts[i], fs[i]),
        0 <= n <= fs.len(),
    ensures
        group_ways(sent(fs), ts, n) == Some(joined(parts.take(n))),
    decreases n,
{
    if n > 0 {
        lemma_group_ways(fs, parts, ts, n - 1);
        assert(is_token(sent(fs), ts[n - 1], fs[n - 1]));
        assert(field_ways(fs[n - 1], parts[n - 1]));
        let (was, now) = (parts.take(n - 1), parts.take(n));
        assert(now.drop_last() =~= was);
        assert(now.last() == parts[n - 1]);
        let x = parts[n - 1];
        if x.len() == 0 {
            assert(joined(was) + x =~= joined(was));
        } else {
            assert(joined(was) + x =~= joined(was).push(x[0]));
        }
    }
}

pub open spec fn groups_have(
    groups: Seq<Seq<u8>>,
    gs: Seq<Seq<Field>>,
    parts: Seq<Seq<Seq<WayModel>>>,
) -> bool {
    &&& groups.len() == gs.len()
    &&& groups.len() == parts.len()
    &&& forall|i: int| 0 <= i < gs.len() ==> groups[i] == sent(#[trigger] gs[i])
    &&& forall|i: int| 0 <= i < gs.len() ==> #[trigger] group_has(gs[i], parts[i])
}

proof fn lemma_groups_ways(
    groups: Seq<Seq<u8>>,
    gs: Seq<Seq<Field>>,
    parts: Seq<Seq<Seq<WayModel>>>,
    n: int,
)
    requires
        groups_have(groups, gs, parts),
        0 <= n <= gs.len(),
    ensures
        ways_of(groups, n) == Some(joined(each_joined(parts).take(n))),
    decreases n,
{
    let all = each_joined(parts);
    if n > 0 {
        lemma_groups_ways(groups, gs, parts, n - 1);
        let fs = gs[n - 1];
        assert(group_has(fs, parts[n - 1]));
        assert(groups[n - 1] == sent(fs));
        lemma_fields_read(fs);
        let ts = tokens_of(sent(fs))->0;
        lemma_group_ways(fs, parts[n - 1], ts, fs.len() as int);
        assert(parts[n - 1].take(fs.len() as int) =~= parts[n - 1]);
        assert(all.take(n).drop_last() =~= all.take(n - 1));
        assert(all.take(n).last() == joined(parts[n - 1]));
    }
}

/// The ways of a block are those that its groups hold, in the order in which
/// they were written, and each comes once.
pub proof fn lemma_ways_read(
    groups: Seq<Seq<u8>>,
    gs: Seq<Seq<Field>>,
    parts: Seq<Seq<Seq<WayModel>>>,
    r: Option<Vec<Way>>,
)
    requires
        groups_have(groups, gs, parts),
        ways_read(groups, r),
    ensures
        r matches Some(v) && models(v@) == joined(each_joined(parts)),
{
    lemma_groups_ways(groups, gs, parts, gs.len() as int);
    assert(each_joined(parts).take(gs.len() as int) =~= each_joined(parts));
}

/// Some field of a group is a way.
pub open spec fn has_way(fs: Seq<Field>) -> bool {
    exists|i: int| 0 <= i < fs.len() && is_text(#[trigger] fs[i], 3)
}

proof fn lemma_way_from(b: Seq<u8>, p: int, fs: Seq<Field>)
    requires
        forall|i: int| 0 <= i < fs.len() ==> small(#[trigger] fs[i]),
        stands(b, p, sent(fs)),
        p + sent(fs).len() == b.len(),
        b.len() <= usize::MAX,
    ensures
        way_from(b, p) == Some(has_way(fs)),
    decreases fs.len(),
{
    if fs.len() > 0 {
        let rest = fs.drop_first();
        let q = p + sent_one(fs[0]).len();
        assert(small(fs[0]));
        lemma_halves(b, p, sent_one(fs[0]), sent(rest));
        lemma_token_read(b, p, fs[0]);
        assert forall|i: int| 0 <= i < rest.len() implies small(#[trigger] rest[i]) by {
            assert(rest[i] == fs[i + 1]);
        }
        lemma_way_from(b, q, rest);
        assert(is_text(fs[0], 3) || has_way(rest) <==> has_way(fs)) by {
            if has_way(rest) {
                let i = choose|i: int| 0 <= i < rest.len() && is_text(#[trigger] rest[i], 3);
                assert(is_text(fs[i + 1], 3));
            }
            if has_way(fs) {
                let i = choose|i: int| 0 <= i < fs.len() && is_text(#[trigger] fs[i], 3);
                if i > 0 {
                    assert(is_text(rest[i - 1], 3));
                }
            }
        }
    }
}

/// A block holds a way where one of its groups does.
pub proof fn lemma_any_way(groups: Seq<Seq<u8>>, gs: Seq<Seq<Field>>, i: int)
    requires
        groups.len() == gs.len(),
        forall|j: int| 0 <= j < gs.len() ==> groups[j] == sent(#[trigger] gs[j]),
        forall|j: int| 0 <= j < gs.len() ==> message(#[trigger] gs[j]),
        0 <= i <= gs.len(),
    ensures
        any_way(groups, i) == Some(exists|j: int| i <= j < gs.len() && has_way(#[trigger] gs[j])),
    decreases gs.len() - i,
{
    if i < gs.len() {
        let fs = gs[i];
        assert(groups[i] == sent(fs));
        assert(message(fs));
        let b = sent(fs);
        assert(b.subrange(0, b.len() as int) =~= b);
        lemma_way_from(b, 0, fs);
        lemma_any_way(groups, gs, i + 1);
        if has_way(fs) {
            assert(has_way(gs[i]));
        } else if exists|j: int| i <= j < gs.len() && has_way(#[trigger] gs[j]) {
            let j = choose|j: int| i <= j < gs.len() && has_way(#[trigger] gs[j]);
            assert(j >= i + 1);
        }
    }
}

} // verus!

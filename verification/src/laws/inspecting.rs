//! When nothing is wrong with the files of a dataset.

use vstd::prelude::*;
use crate::artifacts::artifact_names;
use crate::inspection::{
    absent, counted, dispensable, gaps, ladder_faults, level_faults, level_has, level_there, misfits,
    problems, Counts, Stock,
};
use crate::overlay::ladder::MAX_LEVELS;

verus! {

/// A file, where it is there, holds so many items of so many bytes.
pub open spec fn holds_items(st: &Stock, file: Seq<char>, items: int, bytes: int) -> bool {
    st.has(file) ==> st.size(file) == items * bytes
}

/// The arrays of the graph are as long as the numbers of its vertices, edges and
/// segments say, whichever of two forms they are kept in.
pub open spec fn arrays_fit(st: &Stock, v: int, e: int, s: int) -> bool {
    &&& st.size("csr.head"@) / 4 == v + 1
    &&& st.size("csr.rhead"@) == (v + 1) * 4
    &&& st.size("vcoord.bin"@) == v * 8
    &&& st.size("csr.seg"@) == e * 4
    &&& st.size("csr.rseg"@) == e * 4
    &&& holds_items(st, "to.d16"@, e, 2)
    &&& holds_items(st, "rto.d16"@, e, 2)
    &&& holds_items(st, "csr.to"@, e, 4)
    &&& holds_items(st, "csr.rto"@, e, 4)
    &&& st.size("geom.off"@) == (s + 1) * 4
    &&& st.size("seg.name"@) == s * 4
    &&& st.size("seg.u"@) == s * 4
    &&& st.size("seg.v"@) == s * 4
    &&& holds_items(st, "seg.attr"@, s, 4)
    &&& holds_items(st, "seg.attr16"@, s, 2)
    &&& st.has("seg.attr16"@) ==> st.has("attr.dict"@)
}

/// The arrays of the addresses are as long as their number says.
pub open spec fn addresses_fit(st: &Stock, a: int) -> bool {
    &&& st.size("addr.hn"@) == a * 4
    &&& st.size("addr.street"@) == a * 4
    &&& st.size("addr.place"@) == a * 4
    &&& st.size("fwd.idx"@) == a * 4
}

/// A level is there with all that it is made of.
pub open spec fn level_whole(st: &Stock, n: int) -> bool {
    &&& level_has(st, n, ".of"@)
    &&& level_has(st, n, ".bnd"@)
    &&& level_has(st, n, ".bhead"@)
    &&& level_has(st, n, ".head"@)
    &&& (level_has(st, n, ".mat"@) && level_has(st, n, ".width"@)) || (level_has(st, n, ".vhead"@)
        && level_has(st, n, ".vlist"@) && level_has(st, n, ".lazy"@) && level_has(
        st,
        n,
        ".have"@,
    ))
}

proof fn lemma_ladder(st: &Stock, n: int, k: int)
    requires
        ladder_faults(st, n).0.len() == 0,
        2 <= k < n,
        level_there(st, k),
    ensures
        level_whole(st, k),
        k > 2 ==> level_there(st, k - 1),
    decreases n,
{
    let (rest, ended) = ladder_faults(st, n - 1);
    if k == n - 1 {
        let f = level_faults(st, k, ended);
        assert(ladder_faults(st, n).0.len() == rest.len() + f.len());
        assert(f.len() == 0);
        lemma_ended(st, n - 1);
    } else {
        lemma_ladder(st, n - 1, k);
    }
}

proof fn lemma_ended(st: &Stock, n: int)
    ensures
        !ladder_faults(st, n).1 && n > 2 ==> level_there(st, n - 1),
{
}

proof fn lemma_absent(st: &Stock, n: int, i: int)
    requires
        absent(st, n).len() == 0,
        0 <= i < n <= artifact_names().len(),
    ensures
        st.has(artifact_names()[i]) || dispensable(st, artifact_names()[i]),
    decreases n,
{
    if i < n - 1 {
        lemma_absent(st, n - 1, i);
    }
}

/// Where nothing is found wrong, no file is missing that a dataset cannot be
/// without, a level of the overlay is there as a whole and with every level
/// below it, and every array is as long as the others imply.
pub proof fn lemma_nothing_wrong(st: &Stock)
    requires
        problems(st).len() == 0,
    ensures
        forall|i: int|
            0 <= i < artifact_names().len() ==> st.has(#[trigger] artifact_names()[i])
                || dispensable(st, artifact_names()[i]),
        forall|k: int|
            2 <= k <= MAX_LEVELS && #[trigger] level_there(st, k) ==> level_whole(st, k) && (k > 2
                ==> level_there(st, k - 1)),
        st.has("csr.to"@) || st.has("to.d16"@),
        st.has("csr.rto"@) || st.has("rto.d16"@),
        st.has("seg.attr"@) || st.has("seg.attr16"@),
        st.size("csr.head"@) >= 4,
        ({
            let v = st.size("csr.head"@) / 4 - 1;
            let e = if st.has("to.d16"@) {
                st.size("to.d16"@) / 2
            } else {
                st.size("csr.to"@) / 4
            };
            arrays_fit(st, v, e, st.size("seg.len"@) / 4)
        }),
        addresses_fit(st, st.size("addr.coord"@) / 8),
        st.geom_end matches Some(end) ==> st.size("geom.pts"@) == end * 8,
        st.size("snap.off"@) / 4 == st.size("snap.cell"@) / 8 + 1,
        st.size("big.off"@) / 4 == st.size("big.cell"@) / 8 + 1,
        st.size("acell.off"@) / 4 == st.size("acell.key"@) / 8 + 1,
        st.name_end matches Some(x) ==> st.size("name.pool"@) == x,
        st.street_end matches Some(x) ==> st.size("street.pool"@) == x,
        st.hn_end matches Some(x) ==> st.size("hn.pool"@) == x,
        st.city_end matches Some(x) ==> st.size("city.pool"@) == x,
        st.pc_end matches Some(x) ==> st.size("pc.pool"@) == x,
        st.norm_end matches Some(x) ==> st.size("street.norm"@) == x,
{
    assert(gaps(st).len() == 0);
    let n = artifact_names().len() as int;
    assert forall|i: int| 0 <= i < artifact_names().len() implies st.has(
        #[trigger] artifact_names()[i],
    ) || dispensable(st, artifact_names()[i]) by {
        lemma_absent(st, n, i);
    }
    assert forall|k: int| 2 <= k <= MAX_LEVELS && #[trigger] level_there(st, k) implies level_whole(
        st,
        k,
    ) && (k > 2 ==> level_there(st, k - 1)) by {
        lemma_ladder(st, MAX_LEVELS + 1, k);
    }
    assert(misfits(st).len() == 0);
    lemma_fit(st);
}

proof fn lemma_fit(st: &Stock)
    requires
        misfits(st).len() == 0,
        st.size("csr.head"@) / 4 != 0,
    ensures
        ({
            let v = st.size("csr.head"@) / 4 - 1;
            let e = if st.has("to.d16"@) {
                st.size("to.d16"@) / 2
            } else {
                st.size("csr.to"@) / 4
            };
            arrays_fit(st, v, e, st.size("seg.len"@) / 4)
        }),
        addresses_fit(st, st.size("addr.coord"@) / 8),
{
}

/// What is told of a dataset in which nothing is wrong fits every array: as many
/// vertices, edges, segments, addresses and points as the arrays have room for.
pub proof fn lemma_counts_fit(st: &Stock, r: Option<Counts>)
    requires
        problems(st).len() == 0,
        counted(st, r),
    ensures
        r matches Some(c) && {
            &&& st.size("vcoord.bin"@) == 8 * c.vertices
            &&& st.size("csr.rhead"@) == 4 * (c.vertices + 1)
            &&& st.size("csr.seg"@) == 4 * c.edges
            &&& st.size("csr.rseg"@) == 4 * c.edges
            &&& st.size("seg.u"@) == 4 * c.segments
            &&& st.size("geom.off"@) == 4 * (c.segments + 1)
            &&& st.size("addr.hn"@) == 4 * c.addresses
            &&& st.size("fwd.idx"@) == 4 * c.addresses
            &&& st.geom_end matches Some(end) ==> c.geometry_points == end
        },
{
    lemma_nothing_wrong(st);
}

} // verus!

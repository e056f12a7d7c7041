//! How a lazy level's table is laid out, and the stamp that says so.

use vstd::prelude::*;
use crate::bytes::{
    get_u32, get_u64, le, lemma_le_len, lemma_le_number, lemma_pow256, number, put_u32, put_u64,
};
use crate::text::bytes_eq;

verus! {

/// The layout revision lazy tables are written in: every region has a
/// self-contained block, forward entries followed by backward ones.
pub const LAZY_LAYOUT: u32 = 2;

pub const STAMP_BYTES: usize = 40;

pub open spec fn stamp_magic() -> Seq<u8> {
    seq![77u8, 80, 69, 69, 79, 86, 76, 0]
}

/// What a stamp holds: the magic, the revision, the bytes per entry, the
/// regions, the gates and the table entries.
pub open spec fn stamp_of(ncells: u64, nb: u64, entries: u64) -> Seq<u8> {
    stamp_magic() + le(LAZY_LAYOUT as int, 4) + le(4, 4) + le(ncells as int, 8) + le(nb as int, 8)
        + le(entries as int, 8)
}

fn magic() -> (r: [u8; 8])
    ensures
        r@ == stamp_magic(),
{
    let r: [u8; 8] = [77, 80, 69, 69, 79, 86, 76, 0];
    assert(r@ =~= stamp_magic());
    r
}

/// The stamp of a freshly created lazy level.
pub fn lazy_stamp(ncells: u64, nb: u64, entries: u64) -> (b: Vec<u8>)
    ensures
        b@ == stamp_of(ncells, nb, entries),
        b@.len() == STAMP_BYTES,
{
    let m: [u8; 8] = magic();
    let mut b: Vec<u8> = Vec::new();
    let mut i: usize = 0;
    while i < 8
        invariant
            m@ == stamp_magic(),
            i <= 8,
            b@ == m@.take(i as int),
        decreases 8 - i,
    {
        assert(m@.take(i as int).push(m@[i as int]) =~= m@.take(i + 1));
        b.push(m[i]);
        i += 1;
    }
    assert(m@.take(8) =~= m@);
    put_u32(&mut b, LAZY_LAYOUT);
    put_u32(&mut b, 4);
    put_u64(&mut b, ncells);
    put_u64(&mut b, nb);
    put_u64(&mut b, entries);
    proof {
        lemma_le_len(LAZY_LAYOUT as int, 4);
        lemma_le_len(4, 4);
        lemma_le_len(ncells as int, 8);
        lemma_le_len(nb as int, 8);
        lemma_le_len(entries as int, 8);
    }
    b
}

/// What is wrong with a lazy level.
pub enum LayoutFault {
    /// The regions and the table offsets disagree in number.
    Offsets { regions: usize, offsets: usize },
    NotAStamp,
    Revision(u32),
    /// The level was rebuilt in part: what was stamped, and what is there.
    Regions { got: u64, want: u64 },
    Gates { got: u64, want: u64 },
    Entries { got: u64, want: u64 },
    /// A region's block does not lie inside the table.
    Outside { region: usize, need: u128 },
    /// A region's block runs into the next one's.
    Overrun { region: usize, need: u128, free: u64 },
    /// Too few presence bits.
    Presence { bytes: u64, want: u64 },
    NoPresence,
}

/// What the stamp says against the level.
pub open spec fn stamp_fault(b: Seq<u8>, ncells: int, nb: int, cap: int) -> Option<LayoutFault> {
    if b.len() < STAMP_BYTES || b.take(8) != stamp_magic() {
        Some(LayoutFault::NotAStamp)
    } else if number(b.subrange(8, 12)) != LAZY_LAYOUT {
        Some(LayoutFault::Revision(number(b.subrange(8, 12)) as u32))
    } else if number(b.subrange(16, 24)) != ncells {
        Some(
            LayoutFault::Regions {
                got: number(b.subrange(16, 24)) as u64,
                want: ncells as u64,
            },
        )
    } else if number(b.subrange(24, 32)) != nb {
        Some(LayoutFault::Gates { got: number(b.subrange(24, 32)) as u64, want: nb as u64 })
    } else if number(b.subrange(32, 40)) != cap {
        Some(LayoutFault::Entries { got: number(b.subrange(32, 40)) as u64, want: cap as u64 })
    } else {
        None
    }
}

pub open spec fn heads_sorted(head: Seq<u64>) -> bool {
    forall|i: int| 0 <= i < head.len() - 1 ==> #[trigger] head[i] <= head[i + 1]
}

/// How many entries region `c` needs, both ways.
pub open spec fn need_of(bhead: Seq<u32>, c: int) -> int {
    2 * ((bhead[c + 1] - bhead[c]) * (bhead[c + 1] - bhead[c]))
}

/// What is wrong with the block of region `c`.
pub open spec fn block_fault(bhead: Seq<u32>, head: Seq<u64>, cap: int, c: int) -> Option<
    LayoutFault,
> {
    let need = need_of(bhead, c);
    if head[c] + need > cap {
        Some(LayoutFault::Outside { region: c as usize, need: need as u128 })
    } else if heads_sorted(head) && head[c] + need > head[c + 1] {
        Some(
            LayoutFault::Overrun {
                region: c as usize,
                need: need as u128,
                free: (head[c + 1] - head[c]) as u64,
            },
        )
    } else {
        None
    }
}

/// What is wrong with the first faulty region from `c` on.
pub open spec fn blocks_fault(bhead: Seq<u32>, head: Seq<u64>, cap: int, c: int) -> Option<
    LayoutFault,
>
    decreases bhead.len() - c,
{
    if c >= bhead.len() - 1 {
        None
    } else {
        match block_fault(bhead, head, cap, c) {
            Some(f) => Some(f),
            None => blocks_fault(bhead, head, cap, c + 1),
        }
    }
}

/// The regions that gate heads stand for.
pub open spec fn region_count(bhead: Seq<u32>) -> int {
    if bhead.len() == 0 {
        0
    } else {
        bhead.len() - 1
    }
}

/// The first thing wrong with a lazy level: the numbers of offsets, the stamp
/// where there is one, the blocks, and the presence bits.
pub open spec fn layout_fault(
    bhead: Seq<u32>,
    head: Seq<u64>,
    nb: int,
    table: int,
    stamp: Option<Seq<u8>>,
    have: Option<u64>,
) -> Option<LayoutFault> {
    let n = region_count(bhead);
    if head.len() != n + 1 {
        Some(LayoutFault::Offsets { regions: n as usize, offsets: head.len() as usize })
    } else if stamp is Some && stamp_fault(stamp->0, n, nb, table / 4) is Some {
        stamp_fault(stamp->0, n, nb, table / 4)
    } else if blocks_fault(bhead, head, table / 4, 0) is Some {
        blocks_fault(bhead, head, table / 4, 0)
    } else {
        match have {
            None => Some(LayoutFault::NoPresence),
            Some(h) => if h < (2 * nb + 7) / 8 {
                Some(LayoutFault::Presence { bytes: h, want: ((2 * nb + 7) / 8) as u64 })
            } else {
                None
            },
        }
    }
}

fn find_stamp_fault(b: &[u8], ncells: usize, nb: usize, cap: u64) -> (r: Option<LayoutFault>)
    ensures
        r == stamp_fault(b@, ncells as int, nb as int, cap as int),
{
    if b.len() < STAMP_BYTES {
        return Some(LayoutFault::NotAStamp);
    }
    let m: [u8; 8] = magic();
    let front: &[u8] = vstd::slice::slice_subrange(b, 0, 8);
    assert(front@ =~= b@.take(8));
    if !bytes_eq(front, vstd::array::array_as_slice(&m)) {
        return Some(LayoutFault::NotAStamp);
    }
    let rev: u32 = get_u32(b, 8);
    if rev != LAZY_LAYOUT {
        return Some(LayoutFault::Revision(rev));
    }
    let got: u64 = get_u64(b, 16);
    if got != ncells as u64 {
        return Some(LayoutFault::Regions { got, want: ncells as u64 });
    }
    let got: u64 = get_u64(b, 24);
    if got != nb as u64 {
        return Some(LayoutFault::Gates { got, want: nb as u64 });
    }
    let got: u64 = get_u64(b, 32);
    if got != cap {
        return Some(LayoutFault::Entries { got, want: cap });
    }
    None
}

fn are_sorted(head: &[u64]) -> (r: bool)
    ensures
        r == heads_sorted(head@),
{
    let n: usize = head.len();
    let mut i: usize = 0;
    while i + 1 < n
        invariant
            n == head@.len(),
            i == 0 || i < n,
            forall|x: int| 0 <= x < i ==> #[trigger] head@[x] <= head@[x + 1],
        decreases head@.len() - i,
    {
        if head[i] > head[i + 1] {
            return false;
        }
        i += 1;
    }
    true
}

/// Check that a lazy level is laid out the way it will be read. `table` is the
/// length of the table in bytes, or none for an eager level; `stamp` and `have`
/// are the stamp and the length of the presence bitmap, where there are any.
pub fn verify_lazy_layout(
    bhead: &[u32],
    head: &[u64],
    nb: usize,
    table: Option<u64>,
    stamp: Option<&[u8]>,
    have: Option<u64>,
) -> (r: Result<(), LayoutFault>)
    requires
        forall|i: int, j: int| 0 <= i <= j < bhead@.len() ==> bhead@[i] <= bhead@[j],
    ensures
        match table {
            None => r is Ok,
            Some(t) => {
                let s: Option<Seq<u8>> = match stamp {
                    Some(b) => Some(b@),
                    None => None,
                };
                match layout_fault(bhead@, head@, nb as int, t as int, s, have) {
                    Some(f) => r == Err::<(), LayoutFault>(f),
                    None => r is Ok,
                }
            },
        },
{
    let t: u64 = match table {
        None => {
            return Ok(());
        },
        Some(t) => t,
    };
    let n: usize = if bhead.len() == 0 {
        0
    } else {
        bhead.len() - 1
    };
    if head.len() == 0 || head.len() - 1 != n {
        return Err(LayoutFault::Offsets { regions: n, offsets: head.len() });
    }
    let cap: u64 = t / 4;
    match stamp {
        Some(b) => {
            match find_stamp_fault(b, n, nb, cap) {
                Some(f) => {
                    return Err(f);
                },
                None => {},
            }
        },
        None => {},
    }
    let sorted: bool = are_sorted(head);
    let ghost goal = blocks_fault(bhead@, head@, cap as int, 0);
    let mut c: usize = 0;
    while c < n
        invariant
            n == region_count(bhead@),
            head@.len() == n + 1,
            c <= n,
            forall|i: int, j: int| 0 <= i <= j < bhead@.len() ==> bhead@[i] <= bhead@[j],
            sorted == heads_sorted(head@),
            goal == blocks_fault(bhead@, head@, cap as int, c as int),
            goal == blocks_fault(bhead@, head@, cap as int, 0),
            cap == t / 4,
            table == Some(t),
            match stamp {
                Some(b) => stamp_fault(b@, n as int, nb as int, cap as int) is None,
                None => true,
            },
        decreases n - c,
    {
        assert(bhead@[c as int] <= bhead@[c + 1]);
        let b: u128 = (bhead[c + 1] - bhead[c]) as u128;
        assert(b * b <= 0xFFFF_FFFF * 0xFFFF_FFFF) by (nonlinear_arith)
            requires
                0 <= b <= 0xFFFF_FFFF,
        ;
        let need: u128 = 2 * (b * b);
        if head[c] as u128 + need > cap as u128 {
            return Err(LayoutFault::Outside { region: c, need });
        }
        if sorted && head[c] as u128 + need > head[c + 1] as u128 {
            assert(head@[c as int] <= head@[c + 1]);
            return Err(LayoutFault::Overrun { region: c, need, free: head[c + 1] - head[c] });
        }
        c += 1;
    }
    let extra: u64 = if nb % 4 == 0 {
        0
    } else {
        1
    };
    let bits: u64 = nb as u64 / 4 + extra;
    assert(bits == (2 * nb + 7) / 8);
    match have {
        None => Err(LayoutFault::NoPresence),
        Some(h) => {
            if h < bits {
                Err(LayoutFault::Presence { bytes: h, want: bits })
            } else {
                Ok(())
            }
        },
    }
}

/// A level's own stamp is accepted.
pub proof fn lemma_stamp_accepted(ncells: u64, nb: u64, entries: u64)
    ensures
        stamp_fault(
            stamp_of(ncells, nb, entries),
            ncells as int,
            nb as int,
            entries as int,
        ) is None,
{
    let b = stamp_of(ncells, nb, entries);
    lemma_pow256();
    lemma_le_len(LAZY_LAYOUT as int, 4);
    lemma_le_len(4, 4);
    lemma_le_len(ncells as int, 8);
    lemma_le_len(nb as int, 8);
    lemma_le_len(entries as int, 8);
    assert(b.take(8) =~= stamp_magic());
    assert(b.subrange(8, 12) =~= le(LAZY_LAYOUT as int, 4));
    assert(b.subrange(16, 24) =~= le(ncells as int, 8));
    assert(b.subrange(24, 32) =~= le(nb as int, 8));
    assert(b.subrange(32, 40) =~= le(entries as int, 8));
    lemma_le_number(LAZY_LAYOUT as int, 4);
    lemma_le_number(ncells as int, 8);
    lemma_le_number(nb as int, 8);
    lemma_le_number(entries as int, 8);
}

proof fn lemma_no_fault(bhead: Seq<u32>, head: Seq<u64>, cap: int, from: int, c: int)
    requires
        blocks_fault(bhead, head, cap, from) is None,
        0 <= from <= c < bhead.len() - 1,
    ensures
        block_fault(bhead, head, cap, c) is None,
    decreases c - from,
{
    if from < c {
        lemma_no_fault(bhead, head, cap, from + 1, c);
    }
}

proof fn lemma_sorted_far(head: Seq<u64>, i: int, j: int)
    requires
        heads_sorted(head),
        0 <= i <= j < head.len(),
    ensures
        head[i] <= head[j],
    decreases j - i,
{
    if i < j {
        lemma_sorted_far(head, i, j - 1);
        assert(head[j - 1] <= head[j - 1 + 1]);
    }
}

/// In a level without a fault every region's block lies inside the table, and
/// where the offsets are in region order no two blocks overlap.
pub proof fn lemma_layout_sound(
    bhead: Seq<u32>,
    head: Seq<u64>,
    nb: int,
    table: int,
    stamp: Option<Seq<u8>>,
    have: Option<u64>,
    c: int,
    d: int,
)
    requires
        layout_fault(bhead, head, nb, table, stamp, have) is None,
        0 <= c < region_count(bhead),
        0 <= d < region_count(bhead),
        c < d,
    ensures
        head[c] + need_of(bhead, c) <= table / 4,
        head[d] + need_of(bhead, d) <= table / 4,
        heads_sorted(head) ==> head[c] + need_of(bhead, c) <= head[d],
{
    lemma_no_fault(bhead, head, table / 4, 0, c);
    lemma_no_fault(bhead, head, table / 4, 0, d);
    if heads_sorted(head) {
        lemma_sorted_far(head, c + 1, d);
    }
}

} // verus!

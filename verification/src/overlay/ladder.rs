//! How many levels there are: each is coarser than the one below, until
//! another would not pay.

use vstd::prelude::*;

verus! {

/// Vertices in a region of level 0.
pub const TARGET: usize = 4096;

/// How much coarser each level is than the one below.
pub const STEP: usize = 32;

/// Vertices in a region of the first level above.
pub const TARGET2: usize = 131_072;

/// Gates that a region may have before it is cut.
pub const GATE_CAP: usize = 2048;

/// More levels than this there never are.
pub const MAX_LEVELS: usize = 24;

/// Why no level is added.
#[derive(Clone, Copy, PartialEq, Eq, Structural, Debug)]
pub enum Halt {
    /// There are as many levels as there can be.
    Full,
    /// The top level is as small as was asked for.
    Told,
}

/// Whether the levels that there are suffice.
pub open spec fn enough(levels: int, below: int, top: int) -> Option<Halt> {
    if levels >= MAX_LEVELS {
        Some(Halt::Full)
    } else if top > 0 && below <= top {
        Some(Halt::Told)
    } else {
        None
    }
}

/// Decides whether to build a level above `levels`, whose topmost has `below`
/// gates. `top` is how small it may be at most for that, and zero where nothing
/// was asked for.
pub fn halt(levels: usize, below: usize, top: usize) -> (r: Option<Halt>)
    ensures
        r == enough(levels as int, below as int, top as int),
{
    if levels >= MAX_LEVELS {
        Some(Halt::Full)
    } else if top > 0 && below <= top {
        Some(Halt::Told)
    } else {
        None
    }
}

pub open spec fn held(n: int) -> int {
    if n > usize::MAX {
        usize::MAX as int
    } else {
        n
    }
}

/// The size of the regions of the level above `levels`, held at the largest
/// number.
pub open spec fn size_after(first: int, levels: int) -> int
    decreases levels,
{
    if levels <= 1 {
        first
    } else {
        held(size_after(first, levels - 1) * STEP)
    }
}

/// The size of the regions of the next level, where `first` is that of the first
/// above level 0 and there are `levels` already.
pub fn next_target(first: usize, levels: usize) -> (t: usize)
    ensures
        t == size_after(first as int, levels as int),
{
    let mut t: usize = first;
    let mut k: usize = 1;
    while k < levels
        invariant
            1 <= k,
            levels >= 1 ==> k <= levels,
            levels == 0 ==> k == 1,
            t == size_after(first as int, k as int),
        decreases levels - k,
    {
        t = if t > usize::MAX / STEP {
            usize::MAX
        } else {
            t * STEP
        };
        k += 1;
    }
    t
}

/// The regions of each level above the first are thirty-two times as large as
/// those of the level below, unless no number is as large.
pub proof fn lemma_step(first: int, levels: int)
    requires
        0 <= first <= usize::MAX,
        1 <= levels,
    ensures
        size_after(first, 1) == first,
        size_after(first, levels + 1) == 32 * size_after(first, levels) || (size_after(
            first,
            levels + 1,
        ) == usize::MAX && 32 * size_after(first, levels) > usize::MAX),
{
}

/// Levels never grow finer on the way up.
pub proof fn lemma_coarser(first: int, levels: int)
    requires
        0 <= first <= usize::MAX,
        1 <= levels,
    ensures
        0 <= size_after(first, levels) <= size_after(first, levels + 1) <= usize::MAX,
    decreases levels,
{
    if levels > 1 {
        lemma_coarser(first, levels - 1);
    }
}

} // verus!

//! A ceiling on resident memory: which pages may be handed back, and when.

use vstd::prelude::*;
use crate::text::str_eq;

verus! {

/// A budget on resident memory.
pub struct CacheCap {
    pub budget: usize,
    /// Spans of whole pages that may be handed back: where each begins, and how
    /// long it is.
    pub spans: Vec<(usize, usize)>,
    /// How often the budget was passed.
    pub flushes: u64,
    /// The most that was ever resident.
    pub peak: usize,
}

/// The first multiple of `page` from `x` on.
pub open spec fn page_up(x: int, page: int) -> int {
    (x + page - 1) / page * page
}

/// The last multiple of `page` up to `x`.
pub open spec fn page_down(x: int, page: int) -> int {
    x / page * page
}

/// The spans after a mapping was put under the cap.
pub open spec fn governed(
    was: Seq<(usize, usize)>,
    now: Seq<(usize, usize)>,
    start: int,
    len: int,
    page: int,
) -> bool {
    let lo = page_up(start, page);
    let hi = page_down(start + len, page);
    now == if hi > lo {
        was.push((lo as usize, (hi - lo) as usize))
    } else {
        was
    }
}

/// What is noted of how much is resident, and whether that is too much.
pub open spec fn enforced(a: CacheCap, b: CacheCap, rss: int, flush: bool) -> bool {
    &&& flush == (rss > a.budget)
    &&& b.flushes == a.flushes + (if flush {
        1int
    } else {
        0
    })
    &&& b.peak == (if rss > a.peak {
        rss
    } else {
        a.peak as int
    })
}

impl CacheCap {
    pub fn new(budget_bytes: usize) -> (r: CacheCap)
        ensures
            r.budget == budget_bytes,
            r.spans@ == Seq::<(usize, usize)>::empty(),
            r.flushes == 0,
            r.peak == 0,
    {
        CacheCap { budget: budget_bytes, spans: Vec::new(), flushes: 0, peak: 0 }
    }

    /// Puts a mapping under the cap: the whole pages in it, if there are any.
    pub fn govern(&mut self, start: usize, len: usize, page: usize)
        requires
            page > 0,
            start + len + page <= usize::MAX,
        ensures
            governed(old(self).spans@, final(self).spans@, start as int, len as int, page as int),
            *final(self) == (CacheCap { spans: final(self).spans, ..*old(self) }),
    {
        let end: usize = start + len;
        let ghost p = page as int;
        proof {
            vstd::arithmetic::div_mod::lemma_fundamental_div_mod(start + page - 1, p);
            vstd::arithmetic::div_mod::lemma_fundamental_div_mod(end as int, p);
            vstd::arithmetic::div_mod::lemma_mod_bound(start + page - 1, p);
            vstd::arithmetic::div_mod::lemma_mod_bound(end as int, p);
            vstd::arithmetic::mul::lemma_mul_is_commutative(p, (start + page - 1) / p);
            vstd::arithmetic::mul::lemma_mul_is_commutative(p, end as int / p);
            vstd::arithmetic::div_mod::lemma_div_pos_is_pos(start + page - 1, p);
            vstd::arithmetic::div_mod::lemma_div_pos_is_pos(end as int, p);
            vstd::arithmetic::mul::lemma_mul_nonnegative((start + page - 1) / p, p);
            vstd::arithmetic::mul::lemma_mul_nonnegative(end as int / p, p);
        }
        let lo: usize = (start + page - 1) / page * page;
        let hi: usize = end / page * page;
        if hi > lo {
            self.spans.push((lo, hi - lo));
        }
    }

    /// Takes note of how much is resident; whether the pages under the cap are
    /// to be handed back.
    pub fn enforce(&mut self, rss: usize) -> (flush: bool)
        requires
            old(self).flushes < u64::MAX,
        ensures
            enforced(*old(self), *final(self), rss as int, flush),
            final(self).budget == old(self).budget,
            final(self).spans == old(self).spans,
    {
        if rss > self.peak {
            self.peak = rss;
        }
        if rss <= self.budget {
            return false;
        }
        self.flushes = self.flushes + 1;
        true
    }

    pub fn budget(&self) -> (b: usize)
        ensures
            b == self.budget,
    {
        self.budget
    }
}

/// The number of a class of service, as macOS gives them.
pub open spec fn class_of(name: Seq<char>) -> Option<u32> {
    if name == "background"@ {
        Some(0x09)
    } else if name == "utility"@ {
        Some(0x11)
    } else if name == "default"@ {
        Some(0x15)
    } else if name == "user_initiated"@ {
        Some(0x19)
    } else {
        None
    }
}

/// The class of service that a worker asks for by name.
///
/// `background` keeps to the efficiency cores even where the others are idle;
/// `utility` prefers the performance cores and spills over when they are full,
/// which is what a long batch job wants; `default` is what a foreground process
/// already has.
pub fn qos_class(name: &str) -> (r: Option<u32>)
    ensures
        r == class_of(name@),
{
    if str_eq(name, "background") {
        Some(0x09)
    } else if str_eq(name, "utility") {
        Some(0x11)
    } else if str_eq(name, "default") {
        Some(0x15)
    } else if str_eq(name, "user_initiated") {
        Some(0x19)
    } else {
        None
    }
}

/// A span under the cap lies within its mapping, and what is left over at
/// either end is less than a page.
pub proof fn lemma_span_inside(start: int, len: int, page: int)
    requires
        0 <= start,
        0 <= len,
        0 < page,
    ensures
        start <= page_up(start, page) < start + page,
        start + len - page < page_down(start + len, page) <= start + len,
        page_up(start, page) % page == 0,
        page_down(start + len, page) % page == 0,
{
    let end = start + len;
    vstd::arithmetic::div_mod::lemma_fundamental_div_mod(start + page - 1, page);
    vstd::arithmetic::div_mod::lemma_fundamental_div_mod(end, page);
    vstd::arithmetic::div_mod::lemma_mod_bound(start + page - 1, page);
    vstd::arithmetic::div_mod::lemma_mod_bound(end, page);
    vstd::arithmetic::mul::lemma_mul_is_commutative(page, (start + page - 1) / page);
    vstd::arithmetic::mul::lemma_mul_is_commutative(page, end / page);
    vstd::arithmetic::div_mod::lemma_mod_multiples_basic((start + page - 1) / page, page);
    vstd::arithmetic::div_mod::lemma_mod_multiples_basic(end / page, page);
}

} // verus!

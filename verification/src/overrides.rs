//! Local edits, applied without a rebuild.
//!
//! An override is keyed on what survives a rebuild: a position on the ground,
//! optionally narrowed by street name. Resolving binds the rules to whatever
//! segments occupy those positions in the dataset that is live now.

use vstd::prelude::*;
use crate::attr::{attr_kmh, dur_ds, duration, kmh_of};
use crate::bits::{bit64, lemma_set64};
use crate::dataset::Dataset;
use crate::lookup::{keyed, lemma_lookup, lookup, position_keyed};
use crate::text::str_eq;

verus! {

pub const KIND_CLOSED: &'static str = "closed";

pub const KIND_SPEED: &'static str = "speed";

pub const KIND_PENALTY: &'static str = "penalty";

/// What an override does to an edge.
#[derive(Clone, Copy, Debug, PartialEq, Eq, Structural)]
pub enum Effect {
    /// Impassable — the edge is not relaxed at all.
    Closed,
    /// Drive it at this speed instead of the tagged one.
    Speed(u16),
    /// The traversal time, already scaled by the rule's factor.
    Penalty(u32),
}

/// One row as stored. The factor of a penalty stays with whoever scales the
/// times; the rule only says whether it has one.
#[derive(Clone, Debug)]
pub struct Rule {
    pub id: i64,
    pub kind: String,
    pub lat_e7: i32,
    pub lon_e7: i32,
    pub radius_m: i64,
    pub street: Option<String>,
    pub speed_kmh: Option<u16>,
    pub has_factor: bool,
    pub note: String,
    pub author: String,
    pub created: i64,
    pub expires: Option<i64>,
}

/// A segment that a rule's place covers, and its time scaled by the factor.
#[derive(Clone, Copy)]
pub struct Hit {
    pub seg: u32,
    pub scaled: u32,
}

impl Rule {
    /// What the rule does to a segment whose scaled time is `scaled`.
    pub open spec fn spec_effect(&self, scaled: u32) -> Option<Effect> {
        if self.kind@ == KIND_CLOSED@ {
            Some(Effect::Closed)
        } else if self.kind@ == KIND_SPEED@ {
            match self.speed_kmh {
                Some(k) => Some(Effect::Speed(k)),
                None => None,
            }
        } else if self.kind@ == KIND_PENALTY@ {
            if self.has_factor {
                Some(Effect::Penalty(scaled))
            } else {
                None
            }
        } else {
            None
        }
    }

    pub fn effect(&self, scaled: u32) -> (r: Option<Effect>)
        ensures
            r == self.spec_effect(scaled),
    {
        if str_eq(self.kind.as_str(), KIND_CLOSED) {
            Some(Effect::Closed)
        } else if str_eq(self.kind.as_str(), KIND_SPEED) {
            match self.speed_kmh {
                Some(k) => Some(Effect::Speed(k)),
                None => None,
            }
        } else if str_eq(self.kind.as_str(), KIND_PENALTY) {
            if self.has_factor {
                Some(Effect::Penalty(scaled))
            } else {
                None
            }
        } else {
            None
        }
    }

    pub open spec fn spec_live_at(&self, now: i64) -> bool {
        match self.expires {
            Some(e) => e > now,
            None => true,
        }
    }

    pub fn live_at(&self, now: i64) -> (r: bool)
        ensures
            r == self.spec_live_at(now),
    {
        match self.expires {
            Some(e) => e > now,
            None => true,
        }
    }
}

/// Why a rule is refused: it cannot mean anything.
#[derive(Clone, Copy, Debug, PartialEq, Eq, Structural)]
pub enum Refusal {
    NeedsSpeed,
    NeedsFactor,
    UnknownKind,
}

/// What is said of a rule that is to be stored.
pub open spec fn checked(kind: Seq<char>, speed_kmh: Option<u16>, factor_positive: bool) -> Result<
    (),
    Refusal,
> {
    if kind == KIND_CLOSED@ {
        Ok(())
    } else if kind == KIND_SPEED@ {
        if speed_kmh matches Some(k) && k > 0 {
            Ok(())
        } else {
            Err(Refusal::NeedsSpeed)
        }
    } else if kind == KIND_PENALTY@ {
        if factor_positive {
            Ok(())
        } else {
            Err(Refusal::NeedsFactor)
        }
    } else {
        Err(Refusal::UnknownKind)
    }
}

/// Whether a rule may be stored. `factor_positive` says that a factor was
/// given and is above zero.
pub fn check_rule(kind: &str, speed_kmh: Option<u16>, factor_positive: bool) -> (r: Result<
    (),
    Refusal,
>)
    ensures
        r == checked(kind@, speed_kmh, factor_positive),
{
    if str_eq(kind, KIND_CLOSED) {
        Ok(())
    } else if str_eq(kind, KIND_SPEED) {
        match speed_kmh {
            Some(k) if k > 0 => Ok(()),
            _ => Err(Refusal::NeedsSpeed),
        }
    } else if str_eq(kind, KIND_PENALTY) {
        if factor_positive {
            Ok(())
        } else {
            Err(Refusal::NeedsFactor)
        }
    } else {
        Err(Refusal::UnknownKind)
    }
}

/// Overrides bound to the segment ids of the dataset that is live now.
pub struct Overrides {
    /// One bit per segment: "consult the table for this one".
    pub present: Vec<u64>,
    /// `(segment, effect)`, sorted by segment.
    pub entries: Vec<(u32, Effect)>,
    pub generation: i64,
    /// Per-rule resolution: how many segments each rule matched.
    pub matched: Vec<(i64, usize)>,
}

spec fn marked(present: Seq<u64>, sid: u32) -> bool {
    (sid / 64) < present.len() && bit64(present[(sid / 64) as int], (sid % 64) as u64)
}

impl View for Overrides {
    type V = Seq<(u32, Effect)>;

    /// The overridden segments with their effects, ascending.
    closed spec fn view(&self) -> Seq<(u32, Effect)> {
        self.entries@
    }
}

/// The effect of the last of the first `n` hits that is on `s`.
pub open spec fn last_hit(rule: Rule, hits: Seq<Hit>, s: u32, n: int) -> Option<Effect>
    decreases n,
{
    if n <= 0 {
        None
    } else if hits[n - 1].seg == s {
        rule.spec_effect(hits[n - 1].scaled)
    } else {
        last_hit(rule, hits, s, n - 1)
    }
}

/// What the first `n` rules do to segment `s`: the last live one wins.
pub open spec fn winner(rules: Seq<Rule>, hits: Seq<Seq<Hit>>, now: i64, s: u32, n: int) -> Option<
    Effect,
>
    decreases n,
{
    if n <= 0 {
        None
    } else {
        let r = rules[n - 1];
        let won = if r.spec_live_at(now) {
            last_hit(r, hits[n - 1], s, hits[n - 1].len() as int)
        } else {
            None
        };
        match won {
            Some(e) => Some(e),
            None => winner(rules, hits, now, s, n - 1),
        }
    }
}

/// What is reported of the first `n` rules: every rule that means something,
/// with the number of segments it matched.
pub open spec fn report(rules: Seq<Rule>, hits: Seq<Seq<Hit>>, now: i64, n: int) -> Seq<
    (i64, usize),
>
    decreases n,
{
    if n <= 0 {
        Seq::empty()
    } else {
        let r = rules[n - 1];
        let before = report(rules, hits, now, n - 1);
        if r.spec_effect(0) is None {
            before
        } else if r.spec_live_at(now) {
            before.push((r.id, hits[n - 1].len() as usize))
        } else {
            before.push((r.id, 0usize))
        }
    }
}

pub open spec fn hit_lists(hits: Seq<Vec<Hit>>) -> Seq<Seq<Hit>> {
    Seq::new(hits.len(), |i: int| hits[i]@)
}

/// Every segment has the effect that wins on it.
pub open spec fn resolved_to(rules: Seq<Rule>, hits: Seq<Vec<Hit>>, now: i64, o: Overrides) -> bool {
    forall|s: u32|
        #[trigger] lookup(o@, s) == winner(rules, hit_lists(hits), now, s, rules.len() as int)
}

/// Put `(s, e)` into a keyed table, replacing what was there.
fn put(entries: &mut Vec<(u32, Effect)>, s: u32, e: Effect)
    requires
        keyed(old(entries)@),
    ensures
        keyed(final(entries)@),
        forall|x: u32|
            #[trigger] lookup(final(entries)@, x) == (if x == s {
                Some(e)
            } else {
                lookup(old(entries)@, x)
            }),
        forall|i: int|
            0 <= i < final(entries)@.len() ==> (#[trigger] final(entries)@[i]).0 == s || exists|
                j: int,
            |
                0 <= j < old(entries)@.len() && #[trigger] old(entries)@[j] == final(entries)@[i],
{
    let ghost t0 = entries@;
    let mut lo: usize = 0;
    let mut hi: usize = entries.len();
    while lo < hi
        invariant
            entries@ == t0,
            keyed(t0),
            lo <= hi <= t0.len(),
            forall|i: int| 0 <= i < lo ==> (#[trigger] t0[i]).0 < s,
            forall|i: int| hi <= i < t0.len() ==> (#[trigger] t0[i]).0 >= s,
        decreases hi - lo,
    {
        let mid: usize = lo + (hi - lo) / 2;
        if entries[mid].0 < s {
            lo = mid + 1;
        } else {
            hi = mid;
        }
    }
    let swap: bool = lo < entries.len() && entries[lo].0 == s;
    if swap {
        entries[lo] = (s, e);
    } else {
        entries.insert(lo, (s, e));
    }
    proof {
        let t1 = entries@;
        let at = lo as int;
        let shift: int = if swap {
            0
        } else {
            1
        };
        assert forall|i: int| 0 <= i < t1.len() && i != at implies #[trigger] t1[i] == t0[if i
            < at {
            i
        } else {
            i - shift
        }] by {}
        assert forall|i: int, j: int| 0 <= i < j < t1.len() implies (#[trigger] t1[i]).0 < (
        #[trigger] t1[j]).0 by {}
        assert forall|x: u32|
            #[trigger] lookup(t1, x) == (if x == s {
                Some(e)
            } else {
                lookup(t0, x)
            }) by {
            if x == s {
                lemma_lookup(t1, at);
            } else {
                if exists|i: int| 0 <= i < t0.len() && (#[trigger] t0[i]).0 == x {
                    let i = choose|i: int| 0 <= i < t0.len() && (#[trigger] t0[i]).0 == x;
                    let k: int = if i < at {
                        i
                    } else {
                        i + shift
                    };
                    assert(t1[k] == t0[i]);
                    lemma_lookup(t0, i);
                    lemma_lookup(t1, k);
                } else if exists|i: int| 0 <= i < t1.len() && (#[trigger] t1[i]).0 == x {
                    let i = choose|i: int| 0 <= i < t1.len() && (#[trigger] t1[i]).0 == x;
                    assert(t1[i] == t0[if i < at {
                        i
                    } else {
                        i - shift
                    }]);
                }
            }
        }
    }
}

impl Overrides {
    /// The table is sorted, and the bits say exactly who is in it.
    pub closed spec fn wf(&self) -> bool {
        &&& keyed(self.entries@)
        &&& forall|s: u32|
            #[trigger] marked(self.present@, s) <==> lookup(self.entries@, s) is Some
    }

    pub fn empty() -> (o: Overrides)
        ensures
            o.wf(),
            o@ == Seq::<(u32, Effect)>::empty(),
            o.generation == 0,
            o.matched@ == Seq::<(i64, usize)>::empty(),
    {
        Overrides { present: Vec::new(), entries: Vec::new(), generation: 0, matched: Vec::new() }
    }

    /// Whether any override touches a segment.
    pub fn touches(&self, sid: u32) -> (r: bool)
        requires
            self.wf(),
        ensures
            r == (lookup(self@, sid) is Some),
    {
        let w: usize = (sid / 64) as usize;
        let r = if w < self.present.len() {
            self.present[w] & (1u64 << ((sid % 64) as u64)) != 0
        } else {
            false
        };
        assert(r == marked(self.present@, sid));
        r
    }

    pub fn effect(&self, sid: u32) -> (r: Option<Effect>)
        requires
            self.wf(),
        ensures
            r == lookup(self@, sid),
    {
        match position_keyed(self.entries.as_slice(), sid) {
            Some(i) => {
                proof {
                    lemma_lookup(self.entries@, i as int);
                }
                Some(self.entries[i].1)
            },
            None => None,
        }
    }

    /// The segments these overrides touch, ascending.
    pub fn segments(&self) -> (r: Vec<u32>)
        ensures
            r@ == Seq::new(self@.len(), |i: int| self@[i].0),
    {
        let mut r: Vec<u32> = Vec::new();
        let mut i: usize = 0;
        while i < self.entries.len()
            invariant
                i <= self.entries@.len(),
                r@ == Seq::new(i as nat, |j: int| self.entries@[j].0),
            decreases self.entries@.len() - i,
        {
            r.push(self.entries[i].0);
            i += 1;
            assert(r@ =~= Seq::new(i as nat, |j: int| self.entries@[j].0));
        }
        r
    }

    pub fn len(&self) -> (n: usize)
        ensures
            n == self@.len(),
    {
        self.entries.len()
    }

    pub fn is_empty(&self) -> (r: bool)
        ensures
            r == (self@.len() == 0),
    {
        self.entries.len() == 0
    }

    /// Bind rules to segments. `hits[i]` lists the segments that the place of
    /// rule `i` covers.
    ///
    /// Later rules win, so an edit can be corrected by a newer one without
    /// deleting the old; and a rule that matches nothing is reported as such.
    pub fn resolve(
        nseg: usize,
        rules: &[Rule],
        hits: &[Vec<Hit>],
        now: i64,
        generation: i64,
    ) -> (o: Overrides)
        requires
            rules@.len() == hits@.len(),
            forall|i: int, j: int|
                0 <= i < hits@.len() && 0 <= j < hits@[i]@.len() ==> (#[trigger] hits@[i]@[j]).seg
                    < nseg,
        ensures
            o.wf(),
            keyed(o@),
            resolved_to(rules@, hits@, now, o),
            o.generation == generation,
            o.matched@ == report(rules@, hit_lists(hits@), now, rules@.len() as int),
    {
        let mut entries: Vec<(u32, Effect)> = Vec::new();
        let mut matched: Vec<(i64, usize)> = Vec::new();
        let ghost lists = hit_lists(hits@);
        let mut i: usize = 0;
        while i < rules.len()
            invariant
                rules@.len() == hits@.len() == lists.len(),
                lists == hit_lists(hits@),
                i <= rules@.len(),
                keyed(entries@),
                forall|s: u32| #[trigger]
                    lookup(entries@, s) == winner(rules@, lists, now, s, i as int),
                matched@ == report(rules@, lists, now, i as int),
                forall|a: int, b: int|
                    0 <= a < hits@.len() && 0 <= b < hits@[a]@.len() ==> (
                    #[trigger] hits@[a]@[b]).seg < nseg,
                forall|a: int| 0 <= a < entries@.len() ==> (#[trigger] entries@[a]).0 < nseg,
            decreases rules@.len() - i,
        {
            let r: &Rule = &rules[i];
            let means: bool = match r.effect(0) {
                Some(_) => true,
                None => false,
            };
            let ghost before = entries@;
            if means {
                if r.live_at(now) {
                    let list: &Vec<Hit> = &hits[i];
                    matched.push((r.id, list.len()));
                    let mut j: usize = 0;
                    while j < list.len()
                        invariant
                            rules@.len() == hits@.len() == lists.len(),
                            lists == hit_lists(hits@),
                            i < rules@.len(),
                            *r == rules@[i as int],
                            r.spec_effect(0) is Some,
                            list@ == lists[i as int],
                            list@ == hits@[i as int]@,
                            j <= list@.len(),
                            keyed(entries@),
                            forall|s: u32| #[trigger]
                                lookup(before, s) == winner(rules@, lists, now, s, i as int),
                            forall|s: u32|
                                #[trigger] lookup(entries@, s) == (match last_hit(
                                    *r,
                                    list@,
                                    s,
                                    j as int,
                                ) {
                                    Some(e) => Some(e),
                                    None => lookup(before, s),
                                }),
                            forall|a: int, b: int|
                                0 <= a < hits@.len() && 0 <= b < hits@[a]@.len() ==> (
                                #[trigger] hits@[a]@[b]).seg < nseg,
                            forall|a: int|
                                0 <= a < entries@.len() ==> (#[trigger] entries@[a]).0 < nseg,
                        decreases list@.len() - j,
                    {
                        let h: Hit = list[j];
                        assert(hits@[i as int]@[j as int].seg < nseg);
                        match r.effect(h.scaled) {
                            Some(e) => {
                                put(&mut entries, h.seg, e);
                            },
                            None => {},
                        }
                        j += 1;
                    }
                } else {
                    matched.push((r.id, 0));
                }
            }
            proof {
                assert forall|s: u32| #[trigger] lookup(entries@, s) == winner(
                    rules@,
                    lists,
                    now,
                    s,
                    i + 1,
                ) by {
                    assert(lookup(before, s) == winner(rules@, lists, now, s, i as int));
                    if !means {
                        lemma_no_hit(*r, lists[i as int], s, lists[i as int].len() as int);
                    }
                }
            }
            i += 1;
        }
        let words: usize = nseg / 64 + 1;
        let mut present: Vec<u64> = vec![0u64; words];
        proof {
            assert forall|s: u32| !#[trigger] marked(present@, s) by {
                if (s / 64) < words {
                    lemma_set64(0, 0, (s % 64) as u64);
                }
            }
        }
        let mut k: usize = 0;
        while k < entries.len()
            invariant
                k <= entries@.len(),
                present@.len() == words,
                words == nseg / 64 + 1,
                forall|a: int| 0 <= a < entries@.len() ==> (#[trigger] entries@[a]).0 < nseg,
                forall|s: u32|
                    #[trigger] marked(present@, s) <==> exists|a: int|
                        0 <= a < k && (#[trigger] entries@[a]).0 == s,
            decreases entries@.len() - k,
        {
            let s: u32 = entries[k].0;
            let w: usize = (s / 64) as usize;
            let ghost p0 = present@;
            present[w] = present[w] | (1u64 << ((s % 64) as u64));
            proof {
                assert forall|x: u32|
                    #[trigger] marked(present@, x) <==> exists|a: int|
                        0 <= a < k + 1 && (#[trigger] entries@[a]).0 == x by {
                    lemma_set64(p0[w as int], (s % 64) as u64, (x % 64) as u64);
                    assert(marked(p0, x) <==> exists|a: int|
                        0 <= a < k && (#[trigger] entries@[a]).0 == x);
                    assert(marked(present@, x) <==> (marked(p0, x) || x == s));
                    assert(entries@[k as int].0 == s);
                }
            }
            k += 1;
        }
        let o = Overrides { present, entries, generation, matched };
        assert(o.wf());
        o
    }
}

proof fn lemma_no_hit(rule: Rule, hits: Seq<Hit>, s: u32, n: int)
    requires
        rule.spec_effect(0) is None,
    ensures
        last_hit(rule, hits, s, n) is None,
    decreases n,
{
    if n > 0 {
        lemma_no_hit(rule, hits, s, n - 1);
    }
}

/// The table a search consults; none at all where there are no overrides.
pub open spec fn table(ovr: Option<&Overrides>) -> Seq<(u32, Effect)> {
    match ovr {
        Some(o) => o@,
        None => Seq::empty(),
    }
}

/// What one segment costs, with any local override applied. `None` means the
/// segment is closed and the edge does not exist.
pub open spec fn edge_cost(
    len: u32,
    attr: u32,
    effects: Seq<(u32, Effect)>,
    sid: int,
) -> Option<u32> {
    match lookup(effects, sid as u32) {
        Some(Effect::Closed) => None,
        Some(Effect::Speed(k)) => Some(duration(len, k)),
        Some(Effect::Penalty(t)) => Some(if t == 0 {
            1u32
        } else {
            t
        }),
        None => Some(duration(len, kmh_of(attr))),
    }
}

impl<'a> Dataset<'a> {
    /// What segment `sid` costs under `effects`.
    pub open spec fn cost(&self, effects: Seq<(u32, Effect)>, sid: int) -> Option<u32> {
        edge_cost(self.seg_len@[sid], self.spec_attr(sid), effects, sid)
    }
}

/// The cost of a segment with local overrides applied.
pub fn edge_ds_ov(ds: &Dataset, ovr: Option<&Overrides>, sid: usize) -> (r: Option<u32>)
    requires
        sid < ds.ns(),
        sid <= u32::MAX,
        ds.attrs_ok(),
        ovr matches Some(o) ==> o.wf(),
    ensures
        r == ds.cost(table(ovr), sid as int),
{
    let len: u32 = ds.seg_len[sid];
    let kmh: u16 = attr_kmh(ds.attr(sid));
    match ovr {
        Some(o) => {
            if o.touches(sid as u32) {
                return match o.effect(sid as u32) {
                    Some(Effect::Closed) => None,
                    Some(Effect::Speed(k)) => Some(dur_ds(len, k)),
                    Some(Effect::Penalty(t)) => Some(if t == 0 {
                        1
                    } else {
                        t
                    }),
                    None => Some(dur_ds(len, kmh)),
                };
            }
        },
        None => {},
    }
    Some(dur_ds(len, kmh))
}

} // verus!

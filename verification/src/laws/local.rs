//! Local rules: when they hold, which of them wins, and what they do to the
//! time that a road takes.

use vstd::prelude::*;
use crate::attr::duration;
use crate::lookup::lookup;
use crate::overrides::{
    checked, edge_cost, hit_lists, last_hit, report, resolved_to, winner, Effect, Hit, Overrides,
    Refusal, Rule,
};

verus! {

/// A rule that says what to do: a closure, a speed that is given, or a penalty
/// whose factor is given.
pub open spec fn means_something(r: Rule) -> bool {
    ||| r.kind@ == "closed"@
    ||| (r.kind@ == "speed"@ && r.speed_kmh is Some)
    ||| (r.kind@ == "penalty"@ && r.has_factor)
}

/// The rule has no end, or its end is still to come.
pub open spec fn still_holds(r: Rule, now: i64) -> bool {
    r.expires matches Some(e) ==> now < e
}

pub open spec fn covers(hits: Seq<Hit>, s: u32) -> bool {
    exists|j: int| 0 <= j < hits.len() && (#[trigger] hits[j]).seg == s
}

/// The rule bears on segment `s` at that moment.
pub open spec fn bears_on(r: Rule, hits: Seq<Hit>, now: i64, s: u32) -> bool {
    means_something(r) && still_holds(r, now) && covers(hits, s)
}

/// The effect is what the kind of the rule says, for one of its places on `s`.
pub open spec fn as_told(r: Rule, hits: Seq<Hit>, s: u32, e: Effect) -> bool {
    match e {
        Effect::Closed => r.kind@ == "closed"@,
        Effect::Speed(k) => r.kind@ == "speed"@ && r.speed_kmh == Some(k),
        Effect::Penalty(t) => r.kind@ == "penalty"@ && exists|j: int|
            0 <= j < hits.len() && (#[trigger] hits[j]).seg == s && hits[j].scaled == t,
    }
}

proof fn lemma_kinds()
    ensures
        "closed"@ != "speed"@,
        "closed"@ != "penalty"@,
        "speed"@ != "penalty"@,
{
    reveal_strlit("closed");
    reveal_strlit("speed");
    reveal_strlit("penalty");
    assert("closed"@.len() != "speed"@.len());
    assert("penalty"@.len() != "speed"@.len());
    assert("penalty"@.len() != "closed"@.len());
}

proof fn lemma_last_hit(r: Rule, hits: Seq<Hit>, s: u32, n: int)
    requires
        0 <= n <= hits.len(),
    ensures
        last_hit(r, hits, s, n) matches Some(e) ==> means_something(r) && covers(hits, s)
            && as_told(r, hits, s, e),
        last_hit(r, hits, s, n) is None ==> !means_something(r) || forall|j: int|
            0 <= j < n ==> (#[trigger] hits[j]).seg != s,
    decreases n,
{
    lemma_kinds();
    if n > 0 {
        lemma_last_hit(r, hits, s, n - 1);
        if hits[n - 1].seg == s {
            assert(covers(hits, s));
        }
    }
}

/// The rule that decides over `s`: it bears on it, none after it does, and the
/// effect is what it says.
pub open spec fn decides(
    rules: Seq<Rule>,
    hits: Seq<Seq<Hit>>,
    now: i64,
    s: u32,
    i: int,
    e: Effect,
) -> bool {
    &&& 0 <= i < rules.len()
    &&& bears_on(rules[i], hits[i], now, s)
    &&& as_told(rules[i], hits[i], s, e)
    &&& forall|j: int| i < j < rules.len() ==> !bears_on(#[trigger] rules[j], hits[j], now, s)
}

proof fn lemma_winner(rules: Seq<Rule>, hits: Seq<Seq<Hit>>, now: i64, s: u32, n: int) -> (i: int)
    requires
        0 <= n <= rules.len(),
        rules.len() == hits.len(),
    ensures
        match winner(rules, hits, now, s, n) {
            Some(e) => {
                &&& 0 <= i < n
                &&& bears_on(rules[i], hits[i], now, s)
                &&& as_told(rules[i], hits[i], s, e)
                &&& forall|j: int| i < j < n ==> !bears_on(#[trigger] rules[j], hits[j], now, s)
            },
            None => forall|j: int|
                0 <= j < n ==> !bears_on(#[trigger] rules[j], hits[j], now, s),
        },
    decreases n,
{
    if n <= 0 {
        0
    } else {
        let (r, h) = (rules[n - 1], hits[n - 1]);
        lemma_last_hit(r, h, s, h.len() as int);
        let i = lemma_winner(rules, hits, now, s, n - 1);
        if bears_on(r, h, now, s) {
            n - 1
        } else {
            i
        }
    }
}

/// Of the rules that bear on a segment the last one decides: a segment has an
/// effect exactly where one bears on it, and the effect is what that rule says.
pub proof fn lemma_last_rule_decides(
    rules: Seq<Rule>,
    hits: Seq<Vec<Hit>>,
    now: i64,
    o: Overrides,
    s: u32,
)
    requires
        rules.len() == hits.len(),
        resolved_to(rules, hits, now, o),
    ensures
        match lookup(o@, s) {
            Some(e) => exists|i: int| #[trigger] decides(rules, hit_lists(hits), now, s, i, e),
            None => forall|i: int|
                0 <= i < rules.len() ==> !bears_on(#[trigger] rules[i], hits[i]@, now, s),
        },
{
    let lists = hit_lists(hits);
    assert(lookup(o@, s) == winner(rules, lists, now, s, rules.len() as int));
    let i = lemma_winner(rules, lists, now, s, rules.len() as int);
    if let Some(e) = lookup(o@, s) {
        assert(decides(rules, lists, now, s, i, e));
    } else {
        assert forall|j: int| 0 <= j < rules.len() implies !bears_on(
            #[trigger] rules[j],
            hits[j]@,
            now,
            s,
        ) by {
            assert(lists[j] == hits[j]@);
        }
    }
}

/// A rule alone holds before its end and never from then on.
pub proof fn lemma_until_its_end(
    rules: Seq<Rule>,
    hits: Seq<Vec<Hit>>,
    now: i64,
    o: Overrides,
    s: u32,
    e: i64,
)
    requires
        rules.len() == 1,
        hits.len() == 1,
        resolved_to(rules, hits, now, o),
        rules[0].kind@ == "closed"@ || (rules[0].kind@ == "speed"@ && rules[0].speed_kmh is Some)
            || (rules[0].kind@ == "penalty"@ && rules[0].has_factor),
        rules[0].expires == Some(e),
        exists|j: int| 0 <= j < hits[0]@.len() && (#[trigger] hits[0]@[j]).seg == s,
    ensures
        lookup(o@, s) is Some <==> now < e,
{
    lemma_last_rule_decides(rules, hits, now, o, s);
    assert(covers(hits[0]@, s));
    assert(hit_lists(hits)[0] == hits[0]@);
    if let Some(x) = lookup(o@, s) {
        let i = choose|i: int| #[trigger] decides(rules, hit_lists(hits), now, s, i, x);
        assert(i == 0);
    } else {
        assert(!bears_on(rules[0], hits[0]@, now, s));
    }
}

/// A segment that no rule bears on any more stays free, and a closure that
/// holds now held at every moment before.
pub proof fn lemma_ends_are_final(
    rules: Seq<Rule>,
    hits: Seq<Vec<Hit>>,
    early: i64,
    late: i64,
    a: Overrides,
    b: Overrides,
    s: u32,
)
    requires
        rules.len() == hits.len(),
        early <= late,
        resolved_to(rules, hits, early, a),
        resolved_to(rules, hits, late, b),
    ensures
        lookup(a@, s) is None ==> lookup(b@, s) is None,
{
    lemma_last_rule_decides(rules, hits, early, a, s);
    lemma_last_rule_decides(rules, hits, late, b, s);
    if let Some(x) = lookup(b@, s) {
        let i = choose|i: int| #[trigger] decides(rules, hit_lists(hits), late, s, i, x);
        assert(hit_lists(hits)[i] == hits[i]@);
        assert(bears_on(rules[i], hits[i]@, early, s));
    }
}

/// What is reported of a rule: every rule that means something is there, in
/// order, and one that matched anything still holds.
pub proof fn lemma_reported(
    rules: Seq<Rule>,
    hits: Seq<Seq<Hit>>,
    now: i64,
    n: int,
    k: int,
)
    requires
        0 <= n <= rules.len(),
        rules.len() == hits.len(),
        0 <= k < report(rules, hits, now, n).len(),
    ensures
        exists|i: int|
            0 <= i < n && means_something(#[trigger] rules[i]) && report(rules, hits, now, n)[k].0
                == rules[i].id && report(rules, hits, now, n)[k].1 == (if still_holds(
                rules[i],
                now,
            ) {
                hits[i].len() as usize
            } else {
                0usize
            }),
    decreases n,
{
    lemma_kinds();
    let r = report(rules, hits, now, n);
    let before = report(rules, hits, now, n - 1);
    if k < before.len() {
        lemma_reported(rules, hits, now, n - 1, k);
        assert(r[k] == before[k]);
        let i = choose|i: int|
            0 <= i < n - 1 && means_something(#[trigger] rules[i]) && before[k].0 == rules[i].id
                && before[k].1 == (if still_holds(rules[i], now) {
                hits[i].len() as usize
            } else {
                0usize
            });
        assert(means_something(rules[i]));
    } else {
        assert(means_something(rules[n - 1]));
    }
}

/// No rule that means something goes unreported.
pub proof fn lemma_all_reported(rules: Seq<Rule>, hits: Seq<Seq<Hit>>, now: i64, n: int, i: int)
    requires
        0 <= i < n <= rules.len(),
        rules.len() == hits.len(),
        means_something(rules[i]),
    ensures
        exists|k: int|
            0 <= k < report(rules, hits, now, n).len() && (#[trigger] report(
                rules,
                hits,
                now,
                n,
            )[k]).0 == rules[i].id,
    decreases n,
{
    lemma_kinds();
    let r = report(rules, hits, now, n);
    let before = report(rules, hits, now, n - 1);
    if i < n - 1 {
        lemma_all_reported(rules, hits, now, n - 1, i);
        let k = choose|k: int| 0 <= k < before.len() && (#[trigger] before[k]).0 == rules[i].id;
        assert(r[k] == before[k]);
    } else {
        assert(r[r.len() - 1].0 == rules[i].id);
    }
}

/// A rule may be stored exactly if it can mean something: a closure, a speed
/// above nothing, a penalty with a factor above nothing.
pub proof fn lemma_checked(kind: Seq<char>, speed_kmh: Option<u16>, factor_positive: bool)
    ensures
        checked(kind, speed_kmh, factor_positive) is Ok <==> (kind == "closed"@ || (kind == "speed"@
            && speed_kmh is Some && speed_kmh != Some(0u16)) || (kind == "penalty"@
            && factor_positive)),
        checked(kind, speed_kmh, factor_positive) == Err::<(), Refusal>(Refusal::UnknownKind) <==> !(
        kind == "closed"@ || kind == "speed"@ || kind == "penalty"@),
        kind == "speed"@ && !(checked(kind, speed_kmh, factor_positive) is Ok) ==> checked(
            kind,
            speed_kmh,
            factor_positive,
        ) == Err::<(), Refusal>(Refusal::NeedsSpeed),
{
    lemma_kinds();
}

// ------------------------------------------------------------------ the time

/// A time in tenths of a second is as long as the road divided by the speed,
/// the fraction dropped: in `t` tenths one comes no further than the road is
/// long, and in one tenth more one comes further.
pub proof fn lemma_time(len: u32, kmh: u16)
    requires
        kmh > 0,
    ensures
        duration(len, kmh) * kmh * 100 <= len * 36,
        duration(len, kmh) < u32::MAX ==> len * 36 < (duration(len, kmh) + 1) * kmh * 100,
{
    let (n, d) = (len * 36, kmh * 100);
    vstd::arithmetic::div_mod::lemma_fundamental_div_mod(n as int, d as int);
    vstd::arithmetic::div_mod::lemma_mod_bound(n as int, d as int);
    let t = n as int / d as int;
    let x = duration(len, kmh) as int;
    assert(x * kmh * 100 == x * d && (x + 1) * kmh * 100 == x * d + d) by (nonlinear_arith)
        requires
            d == kmh * 100,
    ;
    assert(t * d == d * t) by (nonlinear_arith);
    if t > u32::MAX {
        assert(x * d <= t * d) by (nonlinear_arith)
            requires
                x <= t,
                d > 0,
        ;
    }
}

/// The faster the quicker, the longer the slower.
pub proof fn lemma_time_order(a: u32, b: u32, slow: u16, fast: u16)
    requires
        0 < slow <= fast,
        a <= b,
    ensures
        duration(a, fast) <= duration(b, slow),
{
    let (x, y) = (a * 36, b * 36);
    let (p, q) = (fast * 100, slow * 100);
    assert(x / p <= y / q) by (nonlinear_arith)
        requires
            0 <= x <= y,
            0 < q <= p,
    ;
}

/// What a road costs: nothing can be had where it is closed, a speed rule has it
/// driven at that speed whatever it is signed, a penalty is the scaled time but
/// never nothing, and any other road is driven as it is signed.
pub proof fn lemma_cost(len: u32, attr: u32, effects: Seq<(u32, Effect)>, sid: u32)
    ensures
        match lookup(effects, sid) {
            Some(Effect::Closed) => edge_cost(len, attr, effects, sid as int) is None,
            Some(Effect::Speed(k)) => edge_cost(len, attr, effects, sid as int) matches Some(t) && (k
                > 0 ==> t * k * 100 <= len * 36 && (t < u32::MAX ==> len * 36 < (t + 1) * k * 100)),
            Some(Effect::Penalty(p)) => edge_cost(len, attr, effects, sid as int) matches Some(t)
                && t >= 1 && (p >= 1 ==> t == p),
            None => edge_cost(len, attr, effects, sid as int) matches Some(t) && ({
                let k = attr as int / 0x1_0000;
                k > 0 ==> t * k * 100 <= len * 36 && (t < u32::MAX ==> len * 36 < (t + 1) * k * 100)
            }),
        },
{
    let k = (attr / 0x1_0000) as u16;
    assert(k == attr as int / 0x1_0000);
    if k > 0 {
        lemma_time(len, k);
    }
    if let Some(Effect::Speed(k)) = lookup(effects, sid) {
        if k > 0 {
            lemma_time(len, k);
        }
    }
}

} // verus!

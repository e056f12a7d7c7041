//! The order of byte strings.

use vstd::prelude::*;
use crate::sorting::text_le;

verus! {

pub open spec fn text_lt(a: Seq<u8>, b: Seq<u8>) -> bool {
    text_le(a, b) && a != b
}

/// The order is total, and what comes before and after is the same.
pub proof fn lemma_text_total(a: Seq<u8>, b: Seq<u8>)
    ensures
        text_le(a, a),
        text_le(a, b) || text_le(b, a),
        text_le(a, b) && text_le(b, a) ==> a == b,
    decreases a.len(),
{
    if a.len() == 0 {
        if b.len() == 0 {
            assert(a =~= b);
        }
    } else {
        lemma_text_total(a.drop_first(), a.drop_first());
        if b.len() > 0 && a[0] == b[0] {
            lemma_text_total(a.drop_first(), b.drop_first());
            if a.drop_first() == b.drop_first() {
                assert(a =~= seq![a[0]] + a.drop_first());
                assert(b =~= seq![b[0]] + b.drop_first());
            }
        }
    }
}

pub proof fn lemma_text_trans(a: Seq<u8>, b: Seq<u8>, c: Seq<u8>)
    requires
        text_le(a, b),
        text_le(b, c),
    ensures
        text_le(a, c),
    decreases a.len(),
{
    if a.len() > 0 && a[0] == b[0] && b[0] == c[0] {
        lemma_text_trans(a.drop_first(), b.drop_first(), c.drop_first());
    }
}

pub open spec fn is_prefix(p: Seq<u8>, s: Seq<u8>) -> bool {
    p.len() <= s.len() && s.subrange(0, p.len() as int) == p
}

/// What a string begins never comes after it.
pub proof fn lemma_prefix_le(p: Seq<u8>, s: Seq<u8>)
    requires
        is_prefix(p, s),
    ensures
        text_le(p, s),
    decreases p.len(),
{
    if p.len() > 0 {
        assert(s.subrange(0, p.len() as int)[0] == s[0]);
        assert(s.drop_first().subrange(0, p.len() - 1) =~= s.subrange(
            0,
            p.len() as int,
        ).drop_first());
        lemma_prefix_le(p.drop_first(), s.drop_first());
    }
}

/// Whether `a` comes before `b` or is the same.
pub fn text_at_most(a: &[u8], b: &[u8]) -> (r: bool)
    ensures
        r == text_le(a@, b@),
{
    let mut i: usize = 0;
    assert(a@.subrange(0, a@.len() as int) =~= a@);
    assert(b@.subrange(0, b@.len() as int) =~= b@);
    while i < a.len() && i < b.len()
        invariant
            i <= a@.len(),
            i <= b@.len(),
            text_le(
                a@.subrange(i as int, a@.len() as int),
                b@.subrange(i as int, b@.len() as int),
            ) == text_le(a@, b@),
        decreases a@.len() - i,
    {
        if a[i] != b[i] {
            return a[i] < b[i];
        }
        assert(a@.subrange(i as int, a@.len() as int).drop_first() =~= a@.subrange(
            i + 1,
            a@.len() as int,
        ));
        assert(b@.subrange(i as int, b@.len() as int).drop_first() =~= b@.subrange(
            i + 1,
            b@.len() as int,
        ));
        i += 1;
    }
    i == a.len()
}

/// Whether `a` comes before `b`.
pub fn text_before(a: &[u8], b: &[u8]) -> (r: bool)
    ensures
        r == text_lt(a@, b@),
{
    proof {
        lemma_text_total(a@, b@);
        lemma_text_total(b@, a@);
    }
    !text_at_most(b, a)
}

} // verus!

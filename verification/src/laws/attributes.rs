//! The attributes of an element are read back as they were written.

use vstd::prelude::*;
use crate::laws::reading::{lemma_halves, stands};
use crate::osc::markup::{attr_from, attr_of, blank, find_byte, named_at, past_blanks, value_at};

verus! {

/// A byte that a name can hold: no blank, no equals sign and no quote.
pub open spec fn name_byte(c: u8) -> bool {
    !blank(c) && c != 61 && c != 34 && c != 39
}

pub open spec fn plain_name(n: Seq<u8>) -> bool {
    n.len() > 0 && forall|i: int| 0 <= i < n.len() ==> name_byte(#[trigger] n[i])
}

/// A value without quotes and equals signs.
pub open spec fn plain_value(v: Seq<u8>) -> bool {
    forall|i: int| 0 <= i < v.len() ==> #[trigger] v[i] != 61 && v[i] != 34 && v[i] != 39
}

/// An attribute as it is written: a blank, its name, an equals sign, and its
/// value in quotes.
pub open spec fn one_attr(a: (Seq<u8>, Seq<u8>)) -> Seq<u8> {
    seq![32u8] + (a.0 + (seq![61u8, 34] + (a.1 + seq![34u8])))
}

pub open spec fn all_attrs(list: Seq<(Seq<u8>, Seq<u8>)>) -> Seq<u8>
    decreases list.len(),
{
    if list.len() == 0 {
        Seq::empty()
    } else {
        one_attr(list[0]) + all_attrs(list.drop_first())
    }
}

pub open spec fn plain_attrs(list: Seq<(Seq<u8>, Seq<u8>)>) -> bool {
    forall|i: int|
        0 <= i < list.len() ==> plain_name((#[trigger] list[i]).0) && plain_value(list[i].1)
}

/// No value of the attribute is read at `i`.
spec fn no_match(s: Seq<u8>, name: Seq<u8>, i: int) -> bool {
    !named_at(s, name, i) || value_at(s, i + name.len()) is None
}

proof fn lemma_passed(s: Seq<u8>, name: Seq<u8>, i: int, j: int)
    requires
        0 <= i <= j <= s.len(),
        forall|x: int| i <= x < j ==> #[trigger] no_match(s, name, x),
    ensures
        attr_from(s, name, i) == attr_from(s, name, j),
    decreases j - i,
{
    if i < j {
        assert(no_match(s, name, i));
        lemma_passed(s, name, i + 1, j);
    }
}

proof fn lemma_blanks(s: Seq<u8>, j: int, e: int)
    requires
        0 <= j <= e < s.len(),
        !blank(s[e]),
    ensures
        j <= past_blanks(s, j) <= e,
    decreases e - j,
{
    if j < e && blank(s[j]) {
        lemma_blanks(s, j + 1, e);
    }
}

proof fn lemma_quote(s: Seq<u8>, j: int, e: int)
    requires
        0 <= j <= e < s.len(),
        s[e] == 34,
        forall|x: int| j <= x < e ==> #[trigger] s[x] != 34,
    ensures
        find_byte(s, 34, j) == e,
    decreases e - j,
{
    if j < e {
        lemma_quote(s, j + 1, e);
    }
}

/// Where the parts of an attribute stand that begins at `p`.
proof fn lemma_parts(s: Seq<u8>, p: int, n: Seq<u8>, v: Seq<u8>)
    requires
        stands(s, p, one_attr((n, v))),
    ensures
        s[p] == 32,
        stands(s, p + 1, n),
        s[p + 1 + n.len()] == 61,
        s[p + 2 + n.len()] == 34,
        stands(s, p + 3 + n.len(), v),
        s[p + 3 + n.len() + v.len()] == 34,
        p + 4 + n.len() + v.len() <= s.len(),
        one_attr((n, v)).len() == 4 + n.len() + v.len(),
{
    let tail = v + seq![34u8];
    let mid = seq![61u8, 34] + tail;
    lemma_halves(s, p, seq![32u8], n + mid);
    lemma_halves(s, p + 1, n, mid);
    lemma_halves(s, p + 1 + n.len(), seq![61u8, 34], tail);
    lemma_halves(s, p + 3 + n.len(), v, seq![34u8]);
    assert(s.subrange(p, p + 1)[0] == s[p]);
    let a = p + 1 + n.len();
    assert(s.subrange(a, a + 2)[0] == s[a] && s.subrange(a, a + 2)[1] == s[a + 1]);
    let e = p + 3 + n.len() + v.len();
    assert(s.subrange(e, e + 1)[0] == s[e]);
}

proof fn lemma_at(s: Seq<u8>, p: int, x: Seq<u8>, i: int)
    requires
        stands(s, p, x),
        0 <= i < x.len(),
    ensures
        s[p + i] == x[i],
{
    assert(s.subrange(p, p + x.len())[i] == s[p + i]);
}

/// Within an attribute nothing is read but under its own name.
proof fn lemma_inside(s: Seq<u8>, p: int, n: Seq<u8>, v: Seq<u8>, name: Seq<u8>, i: int)
    requires
        stands(s, p, one_attr((n, v))),
        plain_name(n),
        plain_value(v),
        plain_name(name),
        p <= i < p + one_attr((n, v)).len(),
        i == p + 1 ==> n != name,
    ensures
        no_match(s, name, i),
{
    lemma_parts(s, p, n, v);
    let (k, l) = (n.len() as int, name.len() as int);
    let (vs, ve) = (p + 3 + k, p + 3 + k + v.len());
    if named_at(s, name, i) {
        assert forall|x: int| 0 <= x < l implies s[i + x] == #[trigger] name[x] by {
            assert(s.subrange(i, i + l)[x] == s[i + x]);
        }
        assert(name_byte(name[0]));
        assert(s[i + 0] == name[0]);
        if i == p + 1 {
            if l < k {
                lemma_at(s, p + 1, n, l);
                assert(name_byte(n[l]));
                assert(past_blanks(s, i + l) == i + l);
            } else if l == k {
                assert(n =~= name) by {
                    assert forall|x: int| 0 <= x < k implies n[x] == name[x] by {
                        lemma_at(s, p + 1, n, x);
                        assert(s[i + x] == name[x]);
                    }
                }
            } else {
                assert(name_byte(name[k]));
                assert(s[i + k] == name[k]);
            }
        } else if p + 1 < i <= p + k {
            lemma_at(s, p + 1, n, i - 1 - (p + 1));
            assert(name_byte(n[i - 1 - (p + 1)]));
        } else if i >= vs && i < ve {
            if i + l > ve {
                assert(s[i + (ve - i)] == name[ve - i]);
                assert(name_byte(name[ve - i]));
            } else {
                lemma_blanks(s, i + l, ve);
                let e = past_blanks(s, i + l);
                if e < ve {
                    lemma_at(s, vs, v, e - vs);
                    assert(v[e - vs] != 61);
                }
                assert(s[e] != 61);
            }
        }
    }
}

/// Under its own name the value of an attribute is read.
proof fn lemma_own(s: Seq<u8>, p: int, n: Seq<u8>, v: Seq<u8>)
    requires
        stands(s, p, one_attr((n, v))),
        plain_name(n),
        plain_value(v),
    ensures
        attr_from(s, n, p + 1) == Some(v),
{
    lemma_parts(s, p, n, v);
    let k = n.len() as int;
    let (i, vs, ve) = (p + 1, p + 3 + k, p + 3 + k + v.len());
    assert(named_at(s, n, i));
    assert(past_blanks(s, i + k) == i + k);
    assert(past_blanks(s, i + k + 1) == i + k + 1);
    assert forall|x: int| vs <= x < ve implies #[trigger] s[x] != 34 by {
        lemma_at(s, vs, v, x - vs);
        assert(v[x - vs] != 34);
    }
    lemma_quote(s, vs, ve);
    assert(s.subrange(vs, ve) =~= v);
}

proof fn lemma_list(s: Seq<u8>, p: int, list: Seq<(Seq<u8>, Seq<u8>)>, name: Seq<u8>)
    requires
        stands(s, p, all_attrs(list)),
        p + all_attrs(list).len() == s.len(),
        plain_attrs(list),
        plain_name(name),
    ensures
        forall|i: int|
            #![trigger list[i]]
            0 <= i < list.len() && list[i].0 == name && (forall|j: int|
                0 <= j < i ==> (#[trigger] list[j]).0 != name) ==> attr_from(s, name, p) == Some(
                list[i].1,
            ),
        (forall|j: int| 0 <= j < list.len() ==> (#[trigger] list[j]).0 != name) ==> attr_from(
            s,
            name,
            p,
        ) is None,
    decreases list.len(),
{
    if list.len() > 0 {
        let (n, v) = list[0];
        let rest = list.drop_first();
        let one = one_attr(list[0]);
        let q = p + one.len();
        lemma_halves(s, p, one, all_attrs(rest));
        assert(plain_name(list[0].0) && plain_value(list[0].1));
        lemma_parts(s, p, n, v);
        if n == name {
            lemma_inside(s, p, n, v, name, p);
            assert(no_match(s, name, p));
            lemma_passed(s, name, p, p + 1);
            lemma_own(s, p, n, v);
        } else {
            assert forall|x: int| p <= x < q implies #[trigger] no_match(s, name, x) by {
                lemma_inside(s, p, n, v, name, x);
            }
            lemma_passed(s, name, p, q);
            assert(plain_attrs(rest)) by {
                assert forall|i: int| 0 <= i < rest.len() implies plain_name(
                    (#[trigger] rest[i]).0,
                ) && plain_value(rest[i].1) by {
                    assert(rest[i] == list[i + 1]);
                }
            }
            lemma_list(s, q, rest, name);
            assert forall|i: int|
                #![trigger list[i]]
                0 <= i < list.len() && list[i].0 == name && (forall|j: int|
                    0 <= j < i ==> (#[trigger] list[j]).0 != name) implies attr_from(s, name, p)
                == Some(list[i].1) by {
                assert(rest[i - 1] == list[i]);
                assert forall|j: int| 0 <= j < i - 1 implies (#[trigger] rest[j]).0 != name by {
                    assert(rest[j] == list[j + 1]);
                }
            }
            if forall|j: int| 0 <= j < list.len() ==> (#[trigger] list[j]).0 != name {
                assert forall|j: int| 0 <= j < rest.len() implies (#[trigger] rest[j]).0
                    != name by {
                    assert(rest[j] == list[j + 1]);
                }
            }
        }
    }
}

/// An attribute of an element has the value that is written for it, the first
/// where there are more; one that is not written has none.
pub proof fn lemma_attribute_read(list: Seq<(Seq<u8>, Seq<u8>)>, name: Seq<u8>)
    requires
        plain_attrs(list),
        plain_name(name),
    ensures
        forall|i: int|
            #![trigger list[i]]
            0 <= i < list.len() && list[i].0 == name && (forall|j: int|
                0 <= j < i ==> (#[trigger] list[j]).0 != name) ==> attr_of(all_attrs(list), name)
                == Some(list[i].1),
        (forall|j: int| 0 <= j < list.len() ==> (#[trigger] list[j]).0 != name) ==> attr_of(
            all_attrs(list),
            name,
        ) is None,
{
    let s = all_attrs(list);
    assert(s.subrange(0, s.len() as int) =~= s);
    lemma_list(s, 0, list, name);
}

} // verus!

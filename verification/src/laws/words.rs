//! Names and house numbers as they are compared.

use vstd::prelude::*;
use vstd::utf8::{encode_utf8, encode_utf8_decode_utf8, encode_utf8_valid_utf8};
use crate::addresses::words::{
    digits_end, hn_bytes, hn_of, joined, leading, lowercase, norm_of,
};
use crate::profile::tidy;
use crate::text::{decimal_of, digit, is_white, lower, trim_of};

verus! {

/// All of it is white space.
pub open spec fn blank(s: Seq<char>) -> bool {
    forall|i: int| 0 <= i < s.len() ==> is_white(#[trigger] s[i])
}

/// No white space stands at either end.
pub open spec fn bare(s: Seq<char>) -> bool {
    s.len() > 0 && !is_white(s[0]) && !is_white(s.last())
}

/// White space around a text is not looked at.
pub proof fn lemma_trimmed(a: Seq<char>, s: Seq<char>, b: Seq<char>)
    requires
        blank(a),
        blank(b),
        bare(s) || s.len() == 0,
    ensures
        trim_of(a + s + b) == s,
    decreases
            a.len() + b.len(),
            if a.len() == 0 {
                1int
            } else {
                0
            },
{
    let all = a + s + b;
    if a.len() > 0 {
        assert(all[0] == a[0]);
        assert(all.drop_first() =~= a.drop_first() + s + b);
        assert(blank(a.drop_first())) by {
            assert forall|i: int| 0 <= i < a.len() - 1 implies is_white(
                #[trigger] a.drop_first()[i],
            ) by {
                assert(a.drop_first()[i] == a[i + 1]);
            }
        }
        lemma_trimmed(a.drop_first(), s, b);
    } else if b.len() > 0 {
        if s.len() > 0 {
            assert(all[0] == s[0]);
            assert(all.last() == b.last());
            assert(is_white(b[b.len() - 1]));
            assert(all.drop_last() =~= a + s + b.drop_last());
            assert(blank(b.drop_last())) by {
                assert forall|i: int| 0 <= i < b.len() - 1 implies is_white(
                    #[trigger] b.drop_last()[i],
                ) by {
                    assert(b.drop_last()[i] == b[i]);
                }
            }
            lemma_trimmed(a, s, b.drop_last());
        } else {
            assert(all =~= b + s + a);
            lemma_trimmed(b, s, a);
        }
    } else {
        assert(all =~= s);
    }
}

/// A signed speed is looked at without white space around it and in small
/// letters.
pub proof fn lemma_tidied(a: Seq<char>, s: Seq<char>, b: Seq<char>)
    requires
        blank(a),
        blank(b),
        bare(s),
    ensures
        tidy(encode_utf8(a + s + b)) == lower(encode_utf8(s)),
{
    encode_utf8_decode_utf8(a + s + b);
    lemma_trimmed(a, s, b);
}

// ------------------------------------------------------------- house numbers

pub open spec fn is_figure(c: char) -> bool {
    48 <= c as u32 <= 57
}

/// All of it is digits.
pub open spec fn figures(s: Seq<char>) -> bool {
    forall|i: int| 0 <= i < s.len() ==> is_figure(#[trigger] s[i])
}

proof fn lemma_digits_end(s: Seq<char>, i: int, n: int)
    requires
        0 <= i <= n <= s.len(),
        forall|j: int| i <= j < n ==> is_figure(#[trigger] s[j]),
        n < s.len() ==> !is_figure(s[n]),
    ensures
        digits_end(s, i) == n,
    decreases n - i,
{
    if i < n {
        lemma_digits_end(s, i + 1, n);
    }
}

proof fn lemma_leading_same(s: Seq<char>, t: Seq<char>, n: int)
    requires
        0 <= n <= s.len(),
        n <= t.len(),
        forall|i: int| 0 <= i < n ==> s[i] == #[trigger] t[i],
    ensures
        leading(s, n) == leading(t, n),
    decreases n,
{
    if n > 0 {
        lemma_leading_same(s, t, n - 1);
    }
}

proof fn lemma_leading_up(s: Seq<char>, n: int)
    requires
        figures(s),
        0 <= n <= s.len(),
    ensures
        leading(s, n) >= 0,
    decreases n,
{
    if n > 0 {
        lemma_leading_up(s, n - 1);
        assert(is_figure(s[n - 1]));
    }
}

proof fn lemma_figures_bare(s: Seq<char>)
    requires
        figures(s),
        s.len() > 0,
    ensures
        bare(s),
        trim_of(s) == s,
        digits_end(s, 0) == s.len(),
{
    assert(is_figure(s[0]) && is_figure(s[s.len() - 1]));
    let none = Seq::<char>::empty();
    lemma_trimmed(none, s, none);
    assert(none + s + none =~= s);
    lemma_digits_end(s, 0, s.len() as int);
}

/// A number of one digit is that digit.
pub proof fn lemma_one_digit(c: char)
    requires
        is_figure(c),
    ensures
        hn_of(seq![c]) == c as u32 - 48,
{
    let s = seq![c];
    lemma_figures_bare(s);
    assert(leading(s, 0) == 0);
    assert(leading(s, 1) == 10 * leading(s, 0) + (s[0] as u32 - 48));
}

/// One digit more makes a number ten times as large, and that digit more;
/// the largest there is stands for a number that does not fit.
pub proof fn lemma_next_digit(s: Seq<char>, c: char)
    requires
        figures(s),
        s.len() > 0,
        is_figure(c),
    ensures
        hn_of(s) < u32::MAX && 10 * hn_of(s) + (c as u32 - 48) <= u32::MAX ==> hn_of(s.push(c))
            == 10 * hn_of(s) + (c as u32 - 48),
        hn_of(s) == u32::MAX || 10 * hn_of(s) + (c as u32 - 48) > u32::MAX ==> hn_of(s.push(c))
            == u32::MAX,
{
    let t = s.push(c);
    let n = s.len() as int;
    assert(figures(t)) by {
        assert forall|i: int| 0 <= i < t.len() implies is_figure(#[trigger] t[i]) by {
            if i < n {
                assert(t[i] == s[i]);
            }
        }
    }
    lemma_figures_bare(s);
    lemma_figures_bare(t);
    lemma_leading_same(s, t, n);
    lemma_leading_up(s, n);
    assert(t[n] == c);
    assert(leading(t, n + 1) == 10 * leading(t, n) + (t[n] as u32 - 48));
}

proof fn lemma_decimal_figures(n: nat)
    ensures
        figures(decimal_of(n)),
        decimal_of(n).len() > 0,
        leading(decimal_of(n), decimal_of(n).len() as int) == n,
    decreases n,
{
    let s = decimal_of(n);
    if n < 10 {
        assert(leading(s, 0) == 0);
        assert(leading(s, 1) == 10 * leading(s, 0) + (s[0] as u32 - 48));
    } else {
        lemma_decimal_figures(n / 10);
        let t = decimal_of(n / 10);
        let k = t.len() as int;
        lemma_leading_same(s, t, k);
        assert(s[k] == digit((n % 10) as int));
        assert(leading(s, k + 1) == 10 * leading(s, k) + (s[k] as u32 - 48));
        assert forall|i: int| 0 <= i < s.len() implies is_figure(#[trigger] s[i]) by {
            if i < k {
                assert(s[i] == t[i]);
            }
        }
    }
}

/// A number that is written out is read back.
pub proof fn lemma_written_number(n: nat)
    requires
        n < u32::MAX,
    ensures
        hn_of(decimal_of(n)) == n,
        hn_bytes(encode_utf8(decimal_of(n))) == n,
{
    lemma_decimal_figures(n);
    lemma_figures_bare(decimal_of(n));
    encode_utf8_decode_utf8(decimal_of(n));
    encode_utf8_valid_utf8(decimal_of(n));
}

/// What follows the digits is not looked at, nor is white space around it all.
pub proof fn lemma_number_first(a: Seq<char>, s: Seq<char>, tail: Seq<char>, b: Seq<char>)
    requires
        blank(a),
        blank(b),
        figures(s),
        s.len() > 0,
        tail.len() > 0 ==> !is_figure(tail[0]) && !is_white(tail.last()),
    ensures
        hn_of(a + (s + tail) + b) == hn_of(s),
        hn_bytes(encode_utf8(a + (s + tail) + b)) == hn_of(s),
{
    let t = s + tail;
    assert(is_figure(s[0]));
    assert(t[0] == s[0]);
    if tail.len() > 0 {
        assert(t.last() == tail.last());
        assert(t[s.len() as int] == tail[0]);
    } else {
        assert(t =~= s);
        assert(is_figure(s[s.len() - 1]));
    }
    lemma_trimmed(a, t, b);
    lemma_figures_bare(s);
    assert forall|j: int| 0 <= j < s.len() implies is_figure(#[trigger] t[j]) by {
        assert(t[j] == s[j]);
    }
    lemma_digits_end(t, 0, s.len() as int);
    lemma_leading_same(s, t, s.len() as int);
    encode_utf8_decode_utf8(a + t + b);
    encode_utf8_valid_utf8(a + t + b);
}

/// A text that begins with no digit has no number.
pub proof fn lemma_no_number(a: Seq<char>, s: Seq<char>)
    requires
        blank(a),
        bare(s) || s.len() == 0,
        s.len() > 0 ==> !is_figure(s[0]),
    ensures
        hn_of(a + s) == u32::MAX,
{
    let none = Seq::<char>::empty();
    lemma_trimmed(a, s, none);
    assert(a + s + none =~= a + s);
}

// --------------------------------------------------------------------- names

proof fn lemma_joined_same(s: Seq<char>, t: Seq<char>, n: int)
    requires
        0 <= n <= s.len(),
        n <= t.len(),
        forall|i: int|
            0 <= i < n ==> lowercase(#[trigger] s[i]) == lowercase(t[i]) && is_white(s[i])
                == is_white(t[i]),
    ensures
        joined(s, n) == joined(t, n),
    decreases n,
{
    if n > 0 {
        lemma_joined_same(s, t, n - 1);
        assert(lowercase(s[n - 1]) == lowercase(t[n - 1]));
    }
}

/// One word after another.
proof fn lemma_joined_two(a: Seq<char>, gap: Seq<char>, b: Seq<char>, n: int)
    requires
        bare(a),
        bare(b),
        blank(gap),
        gap.len() > 0,
        joined(a, a.len() as int).0.len() > 0,
        lowercase(b[0]).len() > 0,
        1 <= n <= b.len(),
    ensures
        joined(a + gap + b, a.len() + gap.len() + n) == (
            joined(a, a.len() as int).0.push(' ') + joined(b, n).0,
            joined(b, n).1,
        ),
        joined(b, n).0.len() > 0,
    decreases n,
{
    let all = a + gap + b;
    let k = a.len() + gap.len() + n;
    let front = joined(a, a.len() as int).0;
    assert(all[k - 1] == b[n - 1]);
    if n == 1 {
        lemma_joined_gap(a, gap, b, gap.len() as int);
        assert(joined(b, 0) == (Seq::<char>::empty(), false));
        assert(front.push(' ') + (Seq::<char>::empty() + lowercase(b[0])) =~= front.push(' ')
            + lowercase(b[0]));
    } else {
        lemma_joined_two(a, gap, b, n - 1);
        let (out, space) = joined(b, n - 1);
        let c = b[n - 1];
        let f = front.push(' ');
        assert((f + out).push(' ') + lowercase(c) =~= f + (out.push(' ') + lowercase(c)));
        assert((f + out) + lowercase(c) =~= f + (out + lowercase(c)));
    }
}

proof fn lemma_joined_gap(a: Seq<char>, gap: Seq<char>, b: Seq<char>, n: int)
    requires
        bare(a),
        blank(gap),
        0 <= n <= gap.len(),
    ensures
        joined(a + gap + b, a.len() + n) == (
            joined(a, a.len() as int).0,
            n > 0 || joined(a, a.len() as int).1,
        ),
    decreases n,
{
    let all = a + gap + b;
    if n == 0 {
        assert forall|i: int| 0 <= i < a.len() implies lowercase(#[trigger] all[i]) == lowercase(
            a[i],
        ) && is_white(all[i]) == is_white(a[i]) by {
            assert(all[i] == a[i]);
        }
        lemma_joined_same(all, a, a.len() as int);
    } else {
        lemma_joined_gap(a, gap, b, n - 1);
        assert(all[a.len() + n - 1] == gap[n - 1]);
    }
}

/// Two parts of a name stay apart by one blank, however much white space there
/// is between them or around them.
pub proof fn lemma_parts_of_name(
    before: Seq<char>,
    a: Seq<char>,
    gap: Seq<char>,
    b: Seq<char>,
    after: Seq<char>,
)
    requires
        blank(before),
        bare(a),
        blank(gap),
        gap.len() > 0,
        bare(b),
        blank(after),
        norm_of(a).len() > 0,
        lowercase(b[0]).len() > 0,
    ensures
        norm_of(before + (a + gap + b) + after) == norm_of(a) + seq![' '] + norm_of(b),
{
    let all = a + gap + b;
    let none = Seq::<char>::empty();
    assert(all[0] == a[0] && all.last() == b.last());
    lemma_trimmed(before, all, after);
    lemma_trimmed(none, a, none);
    lemma_trimmed(none, b, none);
    assert(none + a + none =~= a);
    assert(none + b + none =~= b);
    lemma_joined_two(a, gap, b, b.len() as int);
    assert(norm_of(a).push(' ') + norm_of(b) =~= norm_of(a) + seq![' '] + norm_of(b));
}

/// One character more, where it is no white space, adds its small form.
pub proof fn lemma_letter(s: Seq<char>, c: char)
    requires
        bare(s),
        !is_white(c),
    ensures
        norm_of(s.push(c)) == norm_of(s) + lowercase(c),
        norm_of(seq![c]) == lowercase(c),
{
    let none = Seq::<char>::empty();
    let t = s.push(c);
    let n = s.len() as int;
    assert(t[0] == s[0] && t.last() == c);
    lemma_trimmed(none, s, none);
    lemma_trimmed(none, t, none);
    assert(none + s + none =~= s);
    assert(none + t + none =~= t);
    assert forall|i: int| 0 <= i < n implies lowercase(#[trigger] t[i]) == lowercase(s[i])
        && is_white(t[i]) == is_white(s[i]) by {
        assert(t[i] == s[i]);
    }
    lemma_joined_same(t, s, n);
    assert(joined(s, n) == joined(t, n));
    assert(!is_white(s[n - 1]));
    assert(!joined(s, n).1);
    assert(t[n] == c);
    let one = seq![c];
    lemma_trimmed(none, one, none);
    assert(none + one + none =~= one);
    assert(joined(one, 0) == (none, false));
    assert(none + lowercase(c) =~= lowercase(c));
}

/// Names that differ only in the size of their letters are the same.
pub proof fn lemma_letter_size(s: Seq<char>, t: Seq<char>)
    requires
        bare(s),
        bare(t),
        s.len() == t.len(),
        forall|i: int|
            0 <= i < s.len() ==> lowercase(#[trigger] s[i]) == lowercase(t[i]) && is_white(s[i])
                == is_white(t[i]),
    ensures
        norm_of(s) == norm_of(t),
{
    let none = Seq::<char>::empty();
    lemma_trimmed(none, s, none);
    lemma_trimmed(none, t, none);
    assert(none + s + none =~= s);
    assert(none + t + none =~= t);
    lemma_joined_same(s, t, s.len() as int);
}

} // verus!

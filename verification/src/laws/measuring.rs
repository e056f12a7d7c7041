//! What a prediction leaves of records says all that is in them.

use vstd::prelude::*;
use crate::codecstat::{
    expected, point_rests, sample_spec, word_rest, word_rests, word_value, Guess, BLOCK,
};

verus! {

proof fn lemma_same_word(g: Guess, b: Seq<u32>, c: Seq<u32>, i: int)
    requires
        b.len() == c.len(),
        word_rests(g, b) == word_rests(g, c),
        0 <= i < b.len(),
    ensures
        word_value(g, b[i]) == word_value(g, c[i]),
    decreases i,
{
    assert(word_rests(g, b)[i] == word_rest(g, b, i));
    assert(word_rests(g, c)[i] == word_rest(g, c, i));
    if i > 0 {
        lemma_same_word(g, b, c, i - 1);
    }
}

/// Two blocks of words of which a prediction leaves the same are the same; where
/// it looks at segments only, they are of the same segments.
pub proof fn lemma_words_told(g: Guess, b: Seq<u32>, c: Seq<u32>)
    requires
        word_rests(g, b) == word_rests(g, c),
    ensures
        b.len() == c.len(),
        g != Guess::PreviousSegment ==> b == c,
        g == Guess::PreviousSegment ==> forall|i: int|
            0 <= i < b.len() ==> #[trigger] b[i] % 0x8000_0000 == c[i] % 0x8000_0000,
{
    assert(word_rests(g, b).len() == b.len());
    assert(word_rests(g, c).len() == c.len());
    assert forall|i: int| 0 <= i < b.len() implies word_value(g, #[trigger] b[i]) == word_value(
        g,
        c[i],
    ) by {
        lemma_same_word(g, b, c, i);
    }
    if g != Guess::PreviousSegment {
        assert(b =~= c) by {
            assert forall|i: int| 0 <= i < b.len() implies b[i] == c[i] by {
                assert(word_value(g, b[i]) == word_value(g, c[i]));
            }
        }
    } else {
        assert forall|i: int| 0 <= i < b.len() implies #[trigger] b[i] % 0x8000_0000 == c[i]
            % 0x8000_0000 by {
            let (x, y) = (b[i], c[i]);
            assert(word_value(g, b[i]) == word_value(g, c[i]));
            assert(x & 0x7fff_ffff == x % 0x8000_0000) by (bit_vector);
            assert(y & 0x7fff_ffff == y % 0x8000_0000) by (bit_vector);
        }
    }
}

proof fn lemma_point_rest(b: Seq<(i32, i32)>, straight: bool, n: int, i: int)
    requires
        0 <= i < n <= b.len(),
    ensures
        point_rests(b, straight, n).len() == 2 * n,
        point_rests(b, straight, n)[2 * i] == b[i].0 - expected(b, straight, i).0,
        point_rests(b, straight, n)[2 * i + 1] == b[i].1 - expected(b, straight, i).1,
    decreases n,
{
    if n > 1 && i < n - 1 {
        lemma_point_rest(b, straight, n - 1, i);
    } else {
        lemma_rests_len(b, straight, n - 1);
    }
}

proof fn lemma_rests_len(b: Seq<(i32, i32)>, straight: bool, n: int)
    requires
        0 <= n,
    ensures
        point_rests(b, straight, n).len() == 2 * n,
    decreases n,
{
    if n > 0 {
        lemma_rests_len(b, straight, n - 1);
    }
}

proof fn lemma_same_point(b: Seq<(i32, i32)>, c: Seq<(i32, i32)>, straight: bool, i: int)
    requires
        b.len() == c.len(),
        point_rests(b, straight, b.len() as int) == point_rests(c, straight, c.len() as int),
        0 <= i < b.len(),
    ensures
        b[i] == c[i],
    decreases i,
{
    let n = b.len() as int;
    lemma_point_rest(b, straight, n, i);
    lemma_point_rest(c, straight, n, i);
    if i > 0 {
        lemma_same_point(b, c, straight, i - 1);
    }
    if i > 1 {
        lemma_same_point(b, c, straight, i - 2);
    }
}

/// Two lines of which a prediction leaves the same are the same.
pub proof fn lemma_points_told(b: Seq<(i32, i32)>, c: Seq<(i32, i32)>, straight: bool)
    requires
        point_rests(b, straight, b.len() as int) == point_rests(c, straight, c.len() as int),
    ensures
        b == c,
{
    lemma_rests_len(b, straight, b.len() as int);
    lemma_rests_len(c, straight, c.len() as int);
    assert(b =~= c) by {
        assert forall|i: int| 0 <= i < b.len() implies b[i] == c[i] by {
            lemma_same_point(b, c, straight, i);
        }
    }
}

/// Nothing is left of a point that lies as far past the one before as that lies
/// past the one before it, where a line is expected to go straight on.
pub proof fn lemma_straight_on(b: Seq<(i32, i32)>, i: int)
    requires
        2 <= i < b.len(),
        b[i].0 - b[i - 1].0 == b[i - 1].0 - b[i - 2].0,
        b[i].1 - b[i - 1].1 == b[i - 1].1 - b[i - 2].1,
    ensures
        point_rests(b, true, b.len() as int)[2 * i] == 0,
        point_rests(b, true, b.len() as int)[2 * i + 1] == 0,
{
    lemma_point_rest(b, true, b.len() as int, i);
}

/// Samples begin with whole blocks, apart from each other and in order, and
/// there are as many as were asked for or as there are blocks.
pub proof fn lemma_samples(len: int, n: int, i: int, j: int)
    requires
        len > BLOCK,
        n >= 0,
        0 <= i < j < sample_spec(len, n).len(),
    ensures
        sample_spec(len, n)[i] + BLOCK <= sample_spec(len, n)[j],
        sample_spec(len, n)[j] + BLOCK <= len,
        sample_spec(len, n)[i] % (BLOCK as int) == 0,
        sample_spec(len, n)[0] == 0,
        sample_spec(len, n).len() == n || sample_spec(len, n).len() == len / (BLOCK as int),
{
    let blocks = len / (BLOCK as int);
    let take = sample_spec(len, n).len() as int;
    let (a, b) = ((i * blocks) / take, (j * blocks) / take);
    assert(take <= blocks);
    assert(a + 1 <= b) by (nonlinear_arith)
        requires
            0 <= i,
            i + 1 <= j,
            0 < take <= blocks,
            a == (i * blocks) / take,
            b == (j * blocks) / take,
    ;
    assert(b <= blocks - 1) by (nonlinear_arith)
        requires
            0 <= j <= take - 1,
            0 < take <= blocks,
            b == (j * blocks) / take,
    ;
    assert((0 * blocks) / take == 0) by (nonlinear_arith)
        requires
            take > 0,
    ;
    vstd::arithmetic::div_mod::lemma_fundamental_div_mod(len, BLOCK as int);
    vstd::arithmetic::div_mod::lemma_mod_bound(len, BLOCK as int);
    vstd::arithmetic::div_mod::lemma_mod_multiples_basic(a, BLOCK as int);
}

} // verus!

//! Varints, zigzag numbers, and the fields of a message.

use vstd::prelude::*;

verus! {

/// The number that starts at `p`, seven bits a byte and the lowest first, and
/// where it ends. A number is at most ten bytes long; `k` of them stand before
/// `p`. Nothing where the input ends inside it.
pub open spec fn leb(b: Seq<u8>, p: int, k: int) -> Option<(int, int)>
    decreases 10 - k,
{
    if p < 0 || p >= b.len() || k >= 10 {
        None
    } else if b[p] < 128 || k == 9 {
        Some(((b[p] % 128) as int, p + 1))
    } else {
        match leb(b, p + 1, k + 1) {
            None => None,
            Some((v, q)) => Some(((b[p] % 128) + 128 * v, q)),
        }
    }
}

/// The varint at `p`: what does not fit 64 bits is lost.
pub open spec fn varint_at(b: Seq<u8>, p: int) -> Option<(u64, int)> {
    match leb(b, p, 0) {
        None => None,
        Some((v, q)) => Some(((v % 0x1_0000_0000_0000_0000) as u64, q)),
    }
}

pub open spec fn power128(k: int) -> int
    decreases k,
{
    if k <= 0 {
        1
    } else {
        128 * power128(k - 1)
    }
}

proof fn lemma_power(k: int)
    requires
        0 <= k <= 10,
    ensures
        1 <= power128(k) <= 0x40_0000_0000_0000_0000,
{
    reveal_with_fuel(power128, 11);
}

pub proof fn lemma_leb(b: Seq<u8>, p: int, k: int)
    ensures
        leb(b, p, k) matches Some((v, q)) ==> 0 <= v && p < q <= b.len(),
    decreases 10 - k,
{
    if 0 <= p < b.len() && k < 10 && !(b[p] < 128 || k == 9) {
        lemma_leb(b, p + 1, k + 1);
    }
}

/// Reads a varint and moves past it; nothing where the input ends inside it.
pub fn varint(b: &[u8], p: &mut usize) -> (r: Option<u64>)
    ensures
        match varint_at(b@, *old(p) as int) {
            None => r is None && *final(p) == *old(p),
            Some((v, q)) => r == Some(v) && *final(p) == q && *old(p) < q <= b@.len(),
        },
{
    let start: usize = *p;
    let mut at: usize = start;
    let mut x: u128 = 0;
    let mut ten: u128 = 1;
    let mut k: usize = 0;
    while at < b.len()
        invariant
            start <= at,
            at <= b@.len() || at == start,
            k == at - start,
            k < 10,
            start == *p,
            start == *old(p),
            ten == power128(k as int),
            x < ten,
            leb(b@, start as int, 0) == (match leb(b@, at as int, k as int) {
                None => None::<(int, int)>,
                Some((v, q)) => Some((x + ten * v, q)),
            }),
        decreases b@.len() - at,
    {
        let c: u8 = b[at];
        let low: u128 = (c % 128) as u128;
        proof {
            lemma_power(k as int);
            lemma_power(k + 1);
            assert(ten * low <= ten * 127) by (nonlinear_arith)
                requires
                    low <= 127,
                    ten >= 0,
            ;
        }
        if c < 128 || k == 9 {
            *p = at + 1;
            let y: u128 = x + ten * low;
            return Some((y % 0x1_0000_0000_0000_0000) as u64);
        }
        proof {
            match leb(b@, at + 1, k + 1) {
                None => {},
                Some((v, q)) => {
                    assert(x + ten * (low + 128 * v) == (x + ten * low) + (128 * ten) * v)
                        by (nonlinear_arith);
                },
            }
        }
        x = x + ten * low;
        ten = ten * 128;
        at += 1;
        k += 1;
    }
    None
}

/// The signed number that a zigzag number stands for.
pub open spec fn zigzag_of(x: u64) -> i64 {
    if x % 2 == 0 {
        (x / 2) as i64
    } else {
        (-1 - x / 2) as i64
    }
}

/// The zigzag number of a signed one.
pub open spec fn unzigzag_of(x: i64) -> u64 {
    if x >= 0 {
        (2 * x) as u64
    } else {
        (-2 * x - 1) as u64
    }
}

pub fn zigzag(x: u64) -> (r: i64)
    ensures
        r == zigzag_of(x),
{
    if x % 2 == 0 {
        (x / 2) as i64
    } else {
        -1 - (x / 2) as i64
    }
}

/// Every signed number has one zigzag number, and it stands for it.
pub proof fn lemma_zigzag(x: i64, y: u64)
    ensures
        zigzag_of(unzigzag_of(x)) == x,
        unzigzag_of(zigzag_of(y)) == y,
{
}

/// What came next of a list.
pub enum Next<T> {
    Item(T),
    End,
    /// The input ends inside an item, or a sum does not fit.
    Broken,
}

/// Varints one after another.
pub struct PackedVarint<'a> {
    pub b: &'a [u8],
    pub p: usize,
}

impl<'a> PackedVarint<'a> {
    pub fn new(b: &'a [u8]) -> (r: Self)
        ensures
            r.b@ == b@,
            r.p == 0,
    {
        PackedVarint { b, p: 0 }
    }

    pub open spec fn upcoming(&self) -> Next<u64> {
        if self.p >= self.b@.len() {
            Next::End
        } else {
            match varint_at(self.b@, self.p as int) {
                None => Next::Broken,
                Some((v, q)) => Next::Item(v),
            }
        }
    }

    pub open spec fn after(&self) -> int {
        match varint_at(self.b@, self.p as int) {
            None => self.p as int,
            Some((v, q)) => q,
        }
    }

    pub fn next(&mut self) -> (r: Next<u64>)
        ensures
            r == old(self).upcoming(),
            final(self).b == old(self).b,
            final(self).p == (if r is Item {
                old(self).after()
            } else {
                old(self).p as int
            }),
            r is Item ==> old(self).p < final(self).p <= old(self).b@.len(),
    {
        if self.p >= self.b.len() {
            return Next::End;
        }
        match varint(self.b, &mut self.p) {
            None => Next::Broken,
            Some(v) => Next::Item(v),
        }
    }
}

/// Signed numbers, each stored as its difference from the one before.
pub struct DeltaSint<'a> {
    pub inner: PackedVarint<'a>,
    pub acc: i64,
}

impl<'a> DeltaSint<'a> {
    pub fn new(b: &'a [u8]) -> (r: Self)
        ensures
            r.inner.b@ == b@,
            r.inner.p == 0,
            r.acc == 0,
    {
        DeltaSint { inner: PackedVarint::new(b), acc: 0 }
    }

    pub open spec fn upcoming(&self) -> Next<i64> {
        match self.inner.upcoming() {
            Next::End => Next::End,
            Next::Broken => Next::Broken,
            Next::Item(v) => if i64::MIN <= self.acc + zigzag_of(v) <= i64::MAX {
                Next::Item((self.acc + zigzag_of(v)) as i64)
            } else {
                Next::Broken
            },
        }
    }

    pub fn next(&mut self) -> (r: Next<i64>)
        ensures
            r == old(self).upcoming(),
            final(self).inner.b == old(self).inner.b,
            match r {
                Next::Item(x) => final(self).acc == x && final(self).inner.p
                    == old(self).inner.after() && old(self).inner.p < final(self).inner.p <= old(
                    self,
                ).inner.b@.len(),
                Next::End => *final(self) == *old(self),
                Next::Broken => true,
            },
    {
        match self.inner.next() {
            Next::End => Next::End,
            Next::Broken => Next::Broken,
            Next::Item(v) => {
                match self.acc.checked_add(zigzag(v)) {
                    None => Next::Broken,
                    Some(x) => {
                        self.acc = x;
                        Next::Item(x)
                    },
                }
            },
        }
    }
}

// ------------------------------------------------------------------- fields

/// A field of a message: its number, its wire type, and its value or, for a
/// string of bytes, its length and where it begins.
#[derive(Clone, Copy)]
pub struct Token {
    pub num: u64,
    pub wire: u64,
    pub value: u64,
    pub at: usize,
}

/// The field at `p`, and where the next one begins. Nothing where the input
/// ends inside a number or the wire type is not known.
pub open spec fn token_at(b: Seq<u8>, p: int) -> Option<(Token, int)> {
    match varint_at(b, p) {
        None => None,
        Some((k, q)) => {
            let num = k / 8;
            let wire = k % 8;
            if wire == 0 || wire == 2 {
                match varint_at(b, q) {
                    None => None,
                    Some((v, r)) => Some(
                        (
                            Token { num, wire, value: v, at: r as usize },
                            if wire == 0 {
                                r
                            } else {
                                r + v
                            },
                        ),
                    ),
                }
            } else if wire == 1 {
                Some((Token { num, wire, value: 0, at: q as usize }, q + 8))
            } else if wire == 5 {
                Some((Token { num, wire, value: 0, at: q as usize }, q + 4))
            } else {
                None
            }
        },
    }
}

/// The fields from `p` on.
pub open spec fn tokens_from(b: Seq<u8>, p: int) -> Option<Seq<Token>>
    decreases b.len() - p,
    when 0 <= p
    via tokens_shrink
{
    if p >= b.len() {
        Some(Seq::empty())
    } else {
        match token_at(b, p) {
            None => None,
            Some((t, q)) => match tokens_from(
                b,
                if q < b.len() {
                    q
                } else {
                    b.len() as int
                },
            ) {
                None => None,
                Some(rest) => Some(seq![t] + rest),
            },
        }
    }
}

#[via_fn]
proof fn tokens_shrink(b: Seq<u8>, p: int) {
    lemma_token(b, p);
}

pub proof fn lemma_token(b: Seq<u8>, p: int)
    ensures
        token_at(b, p) matches Some((t, q)) ==> q > p,
{
    lemma_leb(b, p, 0);
    if let Some((k, q)) = varint_at(b, p) {
        lemma_leb(b, q, 0);
    }
}

/// The fields of a message.
pub open spec fn tokens_of(b: Seq<u8>) -> Option<Seq<Token>> {
    tokens_from(b, 0)
}

/// The field's bytes lie inside the message.
pub open spec fn fits(t: Token, len: int) -> bool {
    t.at + t.value <= len
}

pub open spec fn is_field(t: Token, num: u64, wire: u64) -> bool {
    t.num == num && t.wire == wire
}

/// The bytes of a field.
pub open spec fn body(b: Seq<u8>, t: Token) -> Seq<u8> {
    b.subrange(t.at as int, t.at + t.value)
}

pub(crate) fn next_token(b: &[u8], p: usize) -> (r: Option<(Token, usize)>)
    requires
        p < b@.len(),
    ensures
        match r {
            None => token_at(b@, p as int) is None,
            Some((t, q)) => token_at(b@, p as int) matches Some((u, s)) && u == t && p < q
                <= b@.len() && t.at <= b@.len() && (if s < b@.len() {
                q == s
            } else {
                q == b@.len()
            }),
        },
{
    let n: usize = b.len();
    let mut q: usize = p;
    let k: u64 = match varint(b, &mut q) {
        None => {
            return None;
        },
        Some(k) => k,
    };
    let num: u64 = k / 8;
    let wire: u64 = k % 8;
    if wire == 0 || wire == 2 {
        let v: u64 = match varint(b, &mut q) {
            None => {
                return None;
            },
            Some(v) => v,
        };
        let t = Token { num, wire, value: v, at: q };
        if wire == 0 {
            return Some((t, q));
        }
        if v > (n - q) as u64 {
            return Some((t, n));
        }
        return Some((t, q + v as usize));
    }
    let step: usize = if wire == 1 {
        8
    } else if wire == 5 {
        4
    } else {
        return None;
    };
    let t = Token { num, wire, value: 0, at: q };
    if step > n - q {
        Some((t, n))
    } else {
        Some((t, q + step))
    }
}

/// The fields of a message, or nothing where it is broken.
pub fn tokens(b: &[u8]) -> (r: Option<Vec<Token>>)
    ensures
        match r {
            None => tokens_of(b@) is None,
            Some(ts) => tokens_of(b@) == Some(ts@) && forall|i: int|
                0 <= i < ts@.len() ==> (#[trigger] ts@[i]).at <= b@.len(),
        },
{
    let mut out: Vec<Token> = Vec::new();
    let mut p: usize = 0;
    assert(tokens_of(b@) == joined(out@, tokens_from(b@, 0))) by {
        if let Some(s) = tokens_of(b@) {
            assert(out@ + s =~= s);
        }
    }
    while p < b.len()
        invariant
            p <= b@.len(),
            tokens_of(b@) == joined(out@, tokens_from(b@, p as int)),
            forall|i: int| 0 <= i < out@.len() ==> (#[trigger] out@[i]).at <= b@.len(),
        decreases b@.len() - p,
    {
        match next_token(b, p) {
            None => {
                return None;
            },
            Some((t, q)) => {
                proof {
                    if let Some(rest) = tokens_from(b@, q as int) {
                        assert(out@ + (seq![t] + rest) =~= out@.push(t) + rest);
                    }
                }
                out.push(t);
                p = q;
            },
        }
    }
    assert(out@ + Seq::<Token>::empty() =~= out@);
    Some(out)
}

spec fn joined(out: Seq<Token>, rest: Option<Seq<Token>>) -> Option<Seq<Token>> {
    match rest {
        None => None,
        Some(s) => Some(out + s),
    }
}

/// The last of the first `n` fields of a number and wire type.
pub open spec fn last_field(ts: Seq<Token>, num: u64, wire: u64, n: int) -> Option<Token>
    decreases n,
{
    if n <= 0 {
        None
    } else if is_field(ts[n - 1], num, wire) {
        Some(ts[n - 1])
    } else {
        last_field(ts, num, wire, n - 1)
    }
}

pub fn find_last(ts: &Vec<Token>, num: u64, wire: u64) -> (r: Option<Token>)
    ensures
        r == last_field(ts@, num, wire, ts@.len() as int),
        r matches Some(t) ==> ts@.contains(t),
{
    let mut i: usize = ts.len();
    while i > 0
        invariant
            i <= ts@.len(),
            last_field(ts@, num, wire, i as int) == last_field(ts@, num, wire, ts@.len() as int),
        decreases i,
    {
        let t: Token = ts[i - 1];
        if t.num == num && t.wire == wire {
            assert(ts@[i - 1] == t);
            return Some(t);
        }
        i -= 1;
    }
    None
}

/// Every field of the number, if it is a string of bytes, lies inside.
pub open spec fn all_fit(ts: Seq<Token>, num: u64, len: int) -> bool {
    forall|i: int|
        0 <= i < ts.len() && is_field(#[trigger] ts[i], num, 2) ==> fits(ts[i], len)
}

pub fn check_fit(ts: &Vec<Token>, num: u64, len: usize) -> (r: bool)
    requires
        forall|i: int| 0 <= i < ts@.len() ==> (#[trigger] ts@[i]).at <= len,
    ensures
        r == all_fit(ts@, num, len as int),
{
    let mut i: usize = 0;
    while i < ts.len()
        invariant
            i <= ts@.len(),
            forall|i: int| 0 <= i < ts@.len() ==> (#[trigger] ts@[i]).at <= len,
            forall|x: int|
                0 <= x < i && is_field(#[trigger] ts@[x], num, 2) ==> fits(ts@[x], len as int),
        decreases ts@.len() - i,
    {
        let t: Token = ts[i];
        if t.num == num && t.wire == 2 && t.value > (len - t.at) as u64 {
            assert(is_field(ts@[i as int], num, 2));
            return false;
        }
        i += 1;
    }
    true
}

/// The bytes of a field that lies inside the message.
pub fn body_of<'a>(b: &'a [u8], t: &Token) -> (r: &'a [u8])
    requires
        t.at <= b@.len(),
        fits(*t, b@.len() as int),
    ensures
        r@ == body(b@, *t),
{
    let n: usize = b.len();
    assert(t.value <= n);
    vstd::slice::slice_subrange(b, t.at, t.at + t.value as usize)
}

} // verus!

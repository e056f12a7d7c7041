//! Which build of a dataset is live, and what a build must have done to become
//! so.

use vstd::prelude::*;
use vstd::string::StringExecFns;
use crate::addresses::words::from_chars;
use crate::artifacts::{is_runtime_artifact, is_runtime_name};
use crate::text::{decimal, decimal_of, digit, str_eq, trim, trim_of};

verus! {

/// The passes of a build, in the order in which they run.
pub open spec fn pass_names() -> Seq<Seq<char>> {
    seq!["scan"@, "contract"@, "graph"@, "addr"@, "toll"@, "tolldb"@, "overlay"@]
}

/// The passes of a build, in the order in which they run. It is complete when
/// every one of them is.
pub fn passes() -> (r: Vec<&'static str>)
    ensures
        r@.len() == pass_names().len(),
        forall|i: int| 0 <= i < r@.len() ==> (#[trigger] r@[i])@ == pass_names()[i],
{
    let mut r: Vec<&'static str> = Vec::new();
    r.push("scan");
    r.push("contract");
    r.push("graph");
    r.push("addr");
    r.push("toll");
    r.push("tolldb");
    r.push("overlay");
    r
}

pub open spec fn among(done: Seq<String>, p: Seq<char>) -> bool {
    exists|i: int| 0 <= i < done.len() && (#[trigger] done[i])@ == p
}

/// The first `n` passes that are not done.
pub open spec fn undone(done: Seq<String>, n: int) -> Seq<Seq<char>>
    decreases n,
{
    if n <= 0 {
        Seq::empty()
    } else if among(done, pass_names()[n - 1]) {
        undone(done, n - 1)
    } else {
        undone(done, n - 1).push(pass_names()[n - 1])
    }
}

/// The passes that are missing from those done.
pub open spec fn are_missing(done: Seq<String>, r: Seq<&str>) -> bool {
    &&& r.len() == undone(done, pass_names().len() as int).len()
    &&& forall|i: int|
        0 <= i < r.len() ==> (#[trigger] r[i])@ == undone(done, pass_names().len() as int)[i]
}

fn holds(done: &Vec<String>, p: &str) -> (r: bool)
    ensures
        r == among(done@, p@),
{
    let mut i: usize = 0;
    while i < done.len()
        invariant
            i <= done@.len(),
            forall|j: int| 0 <= j < i ==> (#[trigger] done@[j])@ != p@,
        decreases done@.len() - i,
    {
        if str_eq(done[i].as_str(), p) {
            assert(done@[i as int]@ == p@);
            return true;
        }
        i += 1;
    }
    false
}

/// Passes that are not among those done.
pub fn missing_passes(done: &Vec<String>) -> (r: Vec<&'static str>)
    ensures
        are_missing(done@, r@),
{
    let all: Vec<&'static str> = passes();
    let mut r: Vec<&'static str> = Vec::new();
    let mut i: usize = 0;
    while i < all.len()
        invariant
            i <= all@.len(),
            all@.len() == pass_names().len(),
            forall|j: int| 0 <= j < all@.len() ==> (#[trigger] all@[j])@ == pass_names()[j],
            r@.len() == undone(done@, i as int).len(),
            forall|j: int| 0 <= j < r@.len() ==> (#[trigger] r@[j])@ == undone(done@, i as int)[j],
        decreases all@.len() - i,
    {
        let p: &'static str = all[i];
        assert(p@ == pass_names()[i as int]);
        if !holds(done, p) {
            r.push(p);
        }
        i += 1;
    }
    r
}

proof fn lemma_undone(done: Seq<String>, n: int)
    requires
        0 <= n <= pass_names().len(),
    ensures
        undone(done, n).len() == 0 <==> forall|i: int|
            0 <= i < n ==> among(done, #[trigger] pass_names()[i]),
    decreases n,
{
    if n > 0 {
        lemma_undone(done, n - 1);
        if undone(done, n).len() == 0 {
            assert forall|i: int| 0 <= i < n implies among(done, #[trigger] pass_names()[i]) by {}
        } else if among(done, pass_names()[n - 1]) {
            assert(exists|i: int| 0 <= i < n - 1 && !among(done, #[trigger] pass_names()[i]));
        }
    }
}

/// Nothing is missing just when every pass is done.
pub proof fn lemma_complete(done: Seq<String>)
    ensures
        undone(done, pass_names().len() as int).len() == 0 <==> forall|i: int|
            0 <= i < pass_names().len() ==> among(done, #[trigger] pass_names()[i]),
{
    lemma_undone(done, pass_names().len() as int);
}

/// The build that a `HEAD` file names.
pub fn head_id(text: &str) -> (r: &str)
    ensures
        r@ == trim_of(text@),
{
    trim(text)
}

/// Where a dataset is, below its root: in the build that is live where there is
/// one, else at the root itself.
pub fn resolve<'a>(head: Option<&'a str>, there: bool) -> (r: Option<&'a str>)
    ensures
        match r {
            None => head is None || !there,
            Some(id) => there && head is Some && id@ == trim_of(head->0@),
        },
{
    match head {
        Some(text) if there => Some(trim(text)),
        _ => None,
    }
}

/// The directory of a build, below the root.
pub open spec fn dir_of(id: Seq<char>) -> Seq<char> {
    "builds/"@ + id
}

/// The directory of a build, below the root.
pub fn build_dir(id: &str) -> (r: String)
    ensures
        r@ == dir_of(id@),
{
    let mut r: String = String::from_str("builds/");
    r.append(id);
    r
}

/// `b` and the seconds since the epoch.
pub open spec fn id_at(now_us: int) -> Seq<char> {
    "b"@ + decimal_of((now_us / 1_000_000) as nat)
}

/// A build id for a time in microseconds.
pub fn new_build_id(now_us: i64) -> (r: String)
    requires
        now_us >= 0,
    ensures
        r@ == id_at(now_us as int),
{
    let mut r: String = String::from_str("b");
    let n: String = decimal(now_us as u64 / 1_000_000);
    r.append(n.as_str());
    r
}

/// A text comes before another: at the first place where they differ it has the
/// smaller character.
pub open spec fn comes_before(a: Seq<char>, b: Seq<char>) -> bool {
    exists|k: int| #[trigger] differs_at(a, b, k) && (a[k] as u32) < (b[k] as u32)
}

pub open spec fn differs_at(a: Seq<char>, b: Seq<char>, k: int) -> bool {
    &&& 0 <= k < a.len() && k < b.len()
    &&& forall|i: int| 0 <= i < k ==> a[i] == b[i]
}

proof fn lemma_digits_order(a: int, b: int)
    requires
        0 <= a < b,
        decimal_of(a as nat).len() == decimal_of(b as nat).len(),
    ensures
        comes_before(decimal_of(a as nat), decimal_of(b as nat)),
    decreases b,
{
    let (x, y) = (decimal_of(a as nat), decimal_of(b as nat));
    lemma_decimal_len(a / 10);
    lemma_decimal_len(b / 10);
    if b < 10 {
        assert(x =~= seq![digit(a)]);
        assert(y =~= seq![digit(b)]);
        assert(differs_at(x, y, 0));
    } else {
        assert(a >= 10);
        let (p, q) = (decimal_of((a / 10) as nat), decimal_of((b / 10) as nat));
        assert(x =~= p.push(digit(a % 10)));
        assert(y =~= q.push(digit(b % 10)));
        if a / 10 < b / 10 {
            lemma_digits_order(a / 10, b / 10);
            let k = choose|k: int| #[trigger] differs_at(p, q, k) && (p[k] as u32) < (q[k] as u32);
            assert forall|i: int| 0 <= i < k implies x[i] == y[i] by {
                assert(p[i] == q[i]);
            }
            assert(differs_at(x, y, k));
        } else {
            assert(a / 10 == b / 10);
            assert(a % 10 < b % 10);
            assert(differs_at(x, y, p.len() as int));
        }
    }
}

proof fn lemma_decimal_len(n: int)
    requires
        0 <= n,
    ensures
        decimal_of(n as nat).len() >= 1,
    decreases n,
{
    if n >= 10 {
        lemma_decimal_len(n / 10);
    }
}

/// Of two builds in different seconds, as long as the seconds have as many
/// digits, the earlier comes first by its id.
pub proof fn lemma_ids_in_order(a: i64, b: i64)
    requires
        0 <= a,
        a / 1_000_000 < b / 1_000_000,
        id_at(a as int).len() == id_at(b as int).len(),
    ensures
        comes_before(id_at(a as int), id_at(b as int)),
{
    let (m, n) = (a as int / 1_000_000, b as int / 1_000_000);
    let (x, y) = (decimal_of(m as nat), decimal_of(n as nat));
    let (p, q) = (id_at(a as int), id_at(b as int));
    lemma_digits_order(m, n);
    let k = choose|k: int| #[trigger] differs_at(x, y, k) && (x[k] as u32) < (y[k] as u32);
    let h = "b"@.len() as int;
    assert(p[h + k] == x[k] && q[h + k] == y[k]);
    assert forall|i: int| 0 <= i < h + k implies p[i] == q[i] by {
        if i >= h {
            assert(p[i] == x[i - h] && q[i] == y[i - h]);
        }
    }
    assert(differs_at(p, q, h + k));
}

pub open spec fn escaped(s: Seq<char>, n: int) -> Seq<char>
    decreases n,
{
    if n <= 0 {
        Seq::empty()
    } else if s[n - 1] == '"' || s[n - 1] == '\\' {
        escaped(s, n - 1).push('\\').push(s[n - 1])
    } else {
        escaped(s, n - 1).push(s[n - 1])
    }
}

/// A path between quotes, with quotes and backslashes in it escaped.
pub fn toml_path(p: &str) -> (r: String)
    ensures
        r@ == seq!['"'] + escaped(p@, p@.len() as int) + seq!['"'],
{
    let mut v: Vec<char> = Vec::new();
    v.push('"');
    assert(v@ =~= seq!['"'] + escaped(p@, 0));
    for c in it: p.chars()
        invariant
            it.seq() == p@,
            v@ == seq!['"'] + escaped(p@, it.index() as int),
    {
        let ghost k = it.index() as int;
        if c == '"' || c == '\\' {
            v.push('\\');
        }
        v.push(c);
        assert(v@ =~= seq!['"'] + escaped(p@, k + 1));
    }
    v.push('"');
    assert(v@ =~= seq!['"'] + escaped(p@, p@.len() as int) + seq!['"']);
    from_chars(&v)
}

/// What a file of a build is for.
pub fn role_of(name: &str) -> (r: &'static str)
    ensures
        r@ == if is_runtime_name(name@) {
            "runtime"@
        } else {
            "scratch"@
        },
{
    if is_runtime_artifact(name) {
        "runtime"
    } else {
        "scratch"
    }
}

/// The digest that `blake3` gives, in hexadecimal.
pub uninterp spec fn blake3_hex(data: Seq<u8>) -> Seq<char>;

/// `hash` and `Hash::to_hex` of the `blake3` crate: the digest of bytes in
/// hexadecimal. Claims that it depends on the bytes alone.
#[verifier::external_body]
fn hash_hex(data: &[u8]) -> (r: String)
    ensures
        r@ == blake3_hex(data@),
{
    blake3::hash(data).to_hex().to_string()
}

/// The digest of a file's bytes.
pub fn digest_of(data: &[u8]) -> (r: String)
    ensures
        r@ == blake3_hex(data@),
{
    hash_hex(data)
}

} // verus!

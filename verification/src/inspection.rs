//! Checking that the files of a dataset agree with each other.

use vstd::prelude::*;
use vstd::string::StringExecFns;
use vstd::utf8::encode_utf8;
use crate::artifacts::{
    artifact_names, ends, ends_with, is_level_artifact, is_level_name, runtime_artifacts, starts,
    starts_with,
};
use crate::overlay::ladder::MAX_LEVELS;
use crate::text::{decimal, decimal_of, is_word, str_eq, word};

verus! {

/// The files of a directory with their lengths, and the last values of those
/// that say how long another must be.
pub struct Stock {
    pub files: Vec<(String, u64)>,
    /// The last value of `geom.off`.
    pub geom_end: Option<u32>,
    /// The last values of `name.off`, `street.off`, `hn.off`, `city.off`,
    /// `pc.off` and `street.normoff`.
    pub name_end: Option<u64>,
    pub street_end: Option<u64>,
    pub hn_end: Option<u64>,
    pub city_end: Option<u64>,
    pub pc_end: Option<u64>,
    pub norm_end: Option<u64>,
}

/// The length of the first of `files` from `i` on with a name.
pub open spec fn size_from(files: Seq<(String, u64)>, name: Seq<char>, i: int) -> Option<u64>
    decreases files.len() - i,
{
    if i < 0 || i >= files.len() {
        None
    } else if files[i].0@ == name {
        Some(files[i].1)
    } else {
        size_from(files, name, i + 1)
    }
}

impl Stock {
    pub open spec fn len_at(&self, name: Seq<char>) -> Option<u64> {
        size_from(self.files@, name, 0)
    }

    pub open spec fn has(&self, name: Seq<char>) -> bool {
        self.len_at(name) is Some
    }

    /// The length of a file, nothing where there is none.
    pub open spec fn size(&self, name: Seq<char>) -> int {
        match self.len_at(name) {
            Some(n) => n as int,
            None => 0,
        }
    }

    /// No file is longer than a file can be.
    pub open spec fn wf(&self) -> bool {
        forall|i: int| 0 <= i < self.files@.len() ==> (#[trigger] self.files@[i]).1 <= i64::MAX
    }

    fn len_of(&self, name: &str) -> (r: Option<u64>)
        requires
            self.wf(),
        ensures
            r == self.len_at(name@),
            r matches Some(n) ==> n <= i64::MAX,
    {
        let mut i: usize = 0;
        while i < self.files.len()
            invariant
                self.wf(),
                i <= self.files@.len(),
                size_from(self.files@, name@, i as int) == self.len_at(name@),
            decreases self.files@.len() - i,
        {
            if str_eq(self.files[i].0.as_str(), name) {
                assert(self.files@[i as int].1 <= i64::MAX);
                return Some(self.files[i].1);
            }
            i += 1;
        }
        None
    }

    fn size_of(&self, name: &str) -> (r: u64)
        requires
            self.wf(),
        ensures
            r == self.size(name@),
            r <= i64::MAX,
    {
        match self.len_of(name) {
            Some(n) => n,
            None => 0,
        }
    }
}

/// What can be wrong with a file.
#[derive(Clone, Copy)]
pub enum Fault {
    Missing,
    /// A level stands above one that is not there.
    Gap { level: u32 },
    NotInShape { level: u32 },
    /// A level has neither of its two tables whole.
    Partial { level: u32, eager: u64, lazy: u64 },
    NeitherForm { raw: &'static str },
    Empty,
    WrongSize { got: u64, want: u64 },
    NoDictionary,
    Geometry { points: u64, end: u32 },
    Offsets { offs: u64, keys: u64 },
    PoolEnd { got: u64, off: &'static str, last: u64 },
}

/// A file, and what is wrong with it.
pub struct Problem {
    pub file: String,
    pub fault: Fault,
}

/// The words for a fault.
pub open spec fn told(f: Fault) -> Seq<char> {
    match f {
        Fault::Missing => "missing"@,
        Fault::Gap { level } => "level "@ + decimal_of(level as nat)
            + " is present but a level below it is not — a gap lets a query climb to a level it cannot descend"@,
        Fault::NotInShape { level } => "missing from level "@ + decimal_of(level as nat)
            + "'s shape"@,
        Fault::Partial { level, eager, lazy } => "level "@ + decimal_of(level as nat)
            + " has neither a complete eager table ("@ + decimal_of(eager as nat)
            + " of 2) nor a complete lazy one ("@ + decimal_of(lazy as nat)
            + " of 4) — a partial level would index a table that is not there"@,
        Fault::NeitherForm { raw } => "missing, and so is "@ + raw@
            + " — the dataset has neither form"@,
        Fault::Empty => "empty"@,
        Fault::WrongSize { got, want } => "is "@ + decimal_of(got as nat)
            + " bytes, but the rest of the dataset implies "@ + decimal_of(want as nat),
        Fault::NoDictionary => "missing, but seg.attr16 indexes it"@,
        Fault::Geometry { points, end } => "holds "@ + decimal_of(points as nat)
            + " points but geom.off ends at "@ + decimal_of(end as nat)
            + " — the geometry pass did not finish"@,
        Fault::Offsets { offs, keys } => decimal_of(offs as nat) + " offsets for "@ + decimal_of(
            keys as nat,
        ) + " cells (expected "@ + decimal_of((keys + 1) as nat) + ")"@,
        Fault::PoolEnd { got, off, last } => "is "@ + decimal_of(got as nat) + " bytes but "@ + off@
            + " ends at "@ + decimal_of(last as nat),
    }
}

fn with_number(s: &mut String, n: u64)
    ensures
        final(s)@ == old(s)@ + decimal_of(n as nat),
{
    let d: String = decimal(n);
    s.append(d.as_str());
}

impl Problem {
    /// What is wrong, in words.
    pub fn detail(&self) -> (r: String)
        requires
            self.fault matches Fault::Offsets { offs, keys } ==> keys < u64::MAX,
        ensures
            r@ == told(self.fault),
    {
        match self.fault {
            Fault::Missing => String::from_str("missing"),
            Fault::Gap { level } => {
                let mut s: String = String::from_str("level ");
                with_number(&mut s, level as u64);
                s.append(
                    " is present but a level below it is not — a gap lets a query climb to a level it cannot descend",
                );
                s
            },
            Fault::NotInShape { level } => {
                let mut s: String = String::from_str("missing from level ");
                with_number(&mut s, level as u64);
                s.append("'s shape");
                s
            },
            Fault::Partial { level, eager, lazy } => {
                let mut s: String = String::from_str("level ");
                with_number(&mut s, level as u64);
                s.append(" has neither a complete eager table (");
                with_number(&mut s, eager);
                s.append(" of 2) nor a complete lazy one (");
                with_number(&mut s, lazy);
                s.append(" of 4) — a partial level would index a table that is not there");
                s
            },
            Fault::NeitherForm { raw } => {
                let mut s: String = String::from_str("missing, and so is ");
                s.append(raw);
                s.append(" — the dataset has neither form");
                s
            },
            Fault::Empty => String::from_str("empty"),
            Fault::WrongSize { got, want } => {
                let mut s: String = String::from_str("is ");
                with_number(&mut s, got);
                s.append(" bytes, but the rest of the dataset implies ");
                with_number(&mut s, want);
                s
            },
            Fault::NoDictionary => String::from_str("missing, but seg.attr16 indexes it"),
            Fault::Geometry { points, end } => {
                let mut s: String = String::from_str("holds ");
                with_number(&mut s, points);
                s.append(" points but geom.off ends at ");
                with_number(&mut s, end as u64);
                s.append(" — the geometry pass did not finish");
                s
            },
            Fault::Offsets { offs, keys } => {
                let mut s: String = decimal(offs);
                s.append(" offsets for ");
                with_number(&mut s, keys);
                s.append(" cells (expected ");
                with_number(&mut s, keys + 1);
                s.append(")");
                s
            },
            Fault::PoolEnd { got, off, last } => {
                let mut s: String = String::from_str("is ");
                with_number(&mut s, got);
                s.append(" bytes but ");
                s.append(off);
                s.append(" ends at ");
                with_number(&mut s, last);
                s
            },
        }
    }
}

/// A problem as a file's name and a fault.
pub open spec fn models(v: Seq<Problem>) -> Seq<(Seq<char>, Fault)> {
    Seq::new(v.len(), |i: int| (v[i].file@, v[i].fault))
}

fn add_problem(out: &mut Vec<Problem>, file: &str, fault: Fault)
    ensures
        models(final(out)@) == models(old(out)@) + seq![(file@, fault)],
{
    out.push(Problem { file: String::from_str(file), fault });
    assert(models(out@) =~= models(old(out)@) + seq![(file@, fault)]);
}

/// A fault of one file, where it holds.
pub open spec fn when(bad: bool, file: Seq<char>, fault: Fault) -> Seq<(Seq<char>, Fault)> {
    if bad {
        seq![(file, fault)]
    } else {
        Seq::empty()
    }
}

fn add_when(out: &mut Vec<Problem>, bad: bool, file: &str, fault: Fault)
    ensures
        models(final(out)@) == models(old(out)@) + when(bad, file@, fault),
{
    if bad {
        add_problem(out, file, fault);
    }
    assert(models(out@) =~= models(old(out)@) + when(bad, file@, fault));
}

/// Arrays that come in one of two forms.
pub open spec fn in_pair(s: Seq<u8>) -> bool {
    ||| s == word("csr.to")
    ||| s == word("to.d16")
    ||| s == word("csr.rto")
    ||| s == word("rto.d16")
    ||| s == word("seg.attr")
    ||| s == word("seg.attr16")
}

/// Files that a dataset can be without.
pub open spec fn dispensable(st: &Stock, name: Seq<char>) -> bool {
    let s = encode_utf8(name);
    ||| starts(s, word("toll."))
    ||| starts(s, word("way."))
    ||| s == word("vxyz.bin")
    ||| starts(s, word("cell."))
    ||| starts(s, word("ov."))
    ||| is_level_name(s)
    ||| ends(s, word(".exc"))
    ||| in_pair(s)
    ||| s == word("attr.dict") && !st.has("seg.attr16"@)
}

fn can_be_missing(st: &Stock, name: &str) -> (r: bool)
    requires
        st.wf(),
    ensures
        r == dispensable(st, name@),
{
    let s: &[u8] = name.as_bytes();
    let pair: bool = is_word(s, "csr.to") || is_word(s, "to.d16") || is_word(s, "csr.rto")
        || is_word(s, "rto.d16") || is_word(s, "seg.attr") || is_word(s, "seg.attr16");
    starts_with(s, "toll.") || starts_with(s, "way.") || is_word(s, "vxyz.bin") || starts_with(
        s,
        "cell.",
    ) || starts_with(s, "ov.") || is_level_artifact(name) || ends_with(s, ".exc") || pair || (
    is_word(s, "attr.dict") && st.len_of("seg.attr16").is_none())
}

/// Files among the first `n` that are not there and should be.
pub open spec fn absent(st: &Stock, n: int) -> Seq<(Seq<char>, Fault)>
    decreases n,
{
    if n <= 0 {
        Seq::empty()
    } else {
        let f = artifact_names()[n - 1];
        absent(st, n - 1) + when(!st.has(f) && !dispensable(st, f), f, Fault::Missing)
    }
}

fn find_absent(st: &Stock) -> (out: Vec<Problem>)
    requires
        st.wf(),
    ensures
        models(out@) == absent(st, artifact_names().len() as int),
{
    let all: Vec<&'static str> = runtime_artifacts();
    let mut out: Vec<Problem> = Vec::new();
    let mut i: usize = 0;
    assert(models(out@) =~= absent(st, 0));
    while i < all.len()
        invariant
            st.wf(),
            i <= all@.len(),
            all@.len() == artifact_names().len(),
            forall|j: int| 0 <= j < all@.len() ==> (#[trigger] all@[j])@ == artifact_names()[j],
            models(out@) == absent(st, i as int),
        decreases all@.len() - i,
    {
        let f: &'static str = all[i];
        assert(f@ == artifact_names()[i as int]);
        let bad: bool = st.len_of(f).is_none() && !can_be_missing(st, f);
        add_when(&mut out, bad, f, Fault::Missing);
        i += 1;
    }
    out
}

/// A file of a level: `l`, its number, and an ending.
pub open spec fn level_file(n: int, ending: Seq<char>) -> Seq<char> {
    "l"@ + decimal_of(n as nat) + ending
}

fn name_level(n: u32, ending: &str) -> (r: String)
    ensures
        r@ == level_file(n as int, ending@),
{
    let mut r: String = String::from_str("l");
    with_number(&mut r, n as u64);
    r.append(ending);
    r
}

pub open spec fn one(b: bool) -> int {
    if b {
        1
    } else {
        0
    }
}

pub open spec fn level_has(st: &Stock, n: int, ending: Seq<char>) -> bool {
    st.has(level_file(n, ending))
}

/// How many of a level's two full-table files there are.
pub open spec fn eager_parts(st: &Stock, n: int) -> int {
    one(level_has(st, n, ".mat"@)) + one(level_has(st, n, ".width"@))
}

/// How many of a level's four row-by-row files there are.
pub open spec fn lazy_parts(st: &Stock, n: int) -> int {
    one(level_has(st, n, ".vhead"@)) + one(level_has(st, n, ".vlist"@)) + one(
        level_has(st, n, ".lazy"@),
    ) + one(level_has(st, n, ".have"@))
}

/// Whether any file of a level is there.
pub open spec fn level_there(st: &Stock, n: int) -> bool {
    ||| level_has(st, n, ".of"@)
    ||| level_has(st, n, ".bnd"@)
    ||| level_has(st, n, ".bhead"@)
    ||| level_has(st, n, ".head"@)
    ||| eager_parts(st, n) > 0
    ||| lazy_parts(st, n) > 0
}

/// A level is there as a whole or not at all, and the one below it is too.
pub open spec fn level_faults(st: &Stock, n: int, ended: bool) -> Seq<(Seq<char>, Fault)> {
    let shape = Fault::NotInShape { level: n as u32 };
    let (e, z) = (eager_parts(st, n), lazy_parts(st, n));
    when(ended, level_file(n, ".of"@), Fault::Gap { level: n as u32 }) + when(
        !level_has(st, n, ".of"@),
        level_file(n, ".of"@),
        shape,
    ) + when(!level_has(st, n, ".bnd"@), level_file(n, ".bnd"@), shape) + when(
        !level_has(st, n, ".bhead"@),
        level_file(n, ".bhead"@),
        shape,
    ) + when(!level_has(st, n, ".head"@), level_file(n, ".head"@), shape) + when(
        e != 2 && z != 4,
        level_file(n, ".mat"@),
        Fault::Partial { level: n as u32, eager: e as u64, lazy: z as u64 },
    )
}

/// The faults of the levels below `n`, from 2 on; and whether one is not there.
pub open spec fn ladder_faults(st: &Stock, n: int) -> (Seq<(Seq<char>, Fault)>, bool)
    decreases n,
{
    if n <= 2 {
        (Seq::empty(), false)
    } else {
        let (rest, ended) = ladder_faults(st, n - 1);
        if level_there(st, n - 1) {
            (rest + level_faults(st, n - 1, ended), ended)
        } else {
            (rest, true)
        }
    }
}

fn one_of(b: bool) -> (r: u64)
    ensures
        r == one(b),
{
    if b {
        1
    } else {
        0
    }
}

fn has_level(st: &Stock, n: u32, ending: &str) -> (r: bool)
    requires
        st.wf(),
    ensures
        r == level_has(st, n as int, ending@),
{
    let f: String = name_level(n, ending);
    st.len_of(f.as_str()).is_some()
}

fn add_level(out: &mut Vec<Problem>, bad: bool, n: u32, ending: &str, fault: Fault)
    ensures
        models(final(out)@) == models(old(out)@) + when(bad, level_file(n as int, ending@), fault),
{
    let f: String = name_level(n, ending);
    add_when(out, bad, f.as_str(), fault);
}

proof fn lemma_six<T>(o: Seq<T>, a: Seq<T>, b: Seq<T>, c: Seq<T>, d: Seq<T>, e: Seq<T>, f: Seq<T>)
    ensures
        o + a + b + c + d + e + f == o + (a + b + c + d + e + f),
{
    assert(o + a + b + c + d + e + f =~= o + (a + b + c + d + e + f));
}

/// Checks one level; whether any of it is there.
fn check_level(out: &mut Vec<Problem>, st: &Stock, n: u32, ended: bool) -> (there: bool)
    requires
        st.wf(),
    ensures
        there == level_there(st, n as int),
        models(final(out)@) == models(old(out)@) + (if there {
            level_faults(st, n as int, ended)
        } else {
            Seq::empty()
        }),
{
    let (of, bnd): (bool, bool) = (has_level(st, n, ".of"), has_level(st, n, ".bnd"));
    let (bhead, head): (bool, bool) = (has_level(st, n, ".bhead"), has_level(st, n, ".head"));
    let e: u64 = one_of(has_level(st, n, ".mat")) + one_of(has_level(st, n, ".width"));
    let z: u64 = one_of(has_level(st, n, ".vhead")) + one_of(has_level(st, n, ".vlist")) + one_of(
        has_level(st, n, ".lazy"),
    ) + one_of(has_level(st, n, ".have"));
    let ghost m = models(out@);
    if !of && !bnd && !bhead && !head && e == 0 && z == 0 {
        assert(m + Seq::empty() =~= m);
        return false;
    }
    let shape = Fault::NotInShape { level: n };
    add_level(out, ended, n, ".of", Fault::Gap { level: n });
    add_level(out, !of, n, ".of", shape);
    add_level(out, !bnd, n, ".bnd", shape);
    add_level(out, !bhead, n, ".bhead", shape);
    add_level(out, !head, n, ".head", shape);
    let whole: bool = e == 2 || z == 4;
    add_level(out, !whole, n, ".mat", Fault::Partial { level: n, eager: e, lazy: z });
    proof {
        let k = n as int;
        lemma_six(
            m,
            when(ended, level_file(k, ".of"@), Fault::Gap { level: n }),
            when(!of, level_file(k, ".of"@), shape),
            when(!bnd, level_file(k, ".bnd"@), shape),
            when(!bhead, level_file(k, ".bhead"@), shape),
            when(!head, level_file(k, ".head"@), shape),
            when(
                !whole,
                level_file(k, ".mat"@),
                Fault::Partial { level: n, eager: e, lazy: z },
            ),
        );
    }
    true
}

fn check_ladder(out: &mut Vec<Problem>, st: &Stock)
    requires
        st.wf(),
    ensures
        models(final(out)@) == models(old(out)@) + ladder_faults(st, MAX_LEVELS + 1).0,
{
    let ghost before = models(out@);
    let mut ended: bool = false;
    let mut n: u32 = 2;
    assert(before + Seq::empty() =~= before);
    while n <= MAX_LEVELS as u32
        invariant
            st.wf(),
            2 <= n <= MAX_LEVELS + 1,
            ended == ladder_faults(st, n as int).1,
            models(out@) == before + ladder_faults(st, n as int).0,
        decreases MAX_LEVELS + 1 - n,
    {
        let ghost l = ladder_faults(st, n as int).0;
        let there: bool = check_level(out, st, n, ended);
        proof {
            let more = level_faults(st, n as int, ended);
            if there {
                assert(before + l + more =~= before + (l + more));
            } else {
                assert(before + l + Seq::empty() =~= before + l);
            }
            reveal_with_fuel(ladder_faults, 2);
        }
        if !there {
            ended = true;
        }
        n += 1;
    }
}

pub open spec fn neither(st: &Stock, raw: Seq<char>, packed: Seq<char>) -> bool {
    !st.has(raw) && !st.has(packed)
}

/// What is missing.
pub open spec fn gaps(st: &Stock) -> Seq<(Seq<char>, Fault)> {
    absent(st, artifact_names().len() as int) + ladder_faults(st, MAX_LEVELS + 1).0 + when(
        neither(st, "csr.to"@, "to.d16"@),
        "to.d16"@,
        Fault::NeitherForm { raw: "csr.to" },
    ) + when(
        neither(st, "csr.rto"@, "rto.d16"@),
        "rto.d16"@,
        Fault::NeitherForm { raw: "csr.rto" },
    ) + when(
        neither(st, "seg.attr"@, "seg.attr16"@),
        "seg.attr16"@,
        Fault::NeitherForm { raw: "seg.attr" },
    )
}

/// A file that is not as long as it should be, where it matters.
pub open spec fn missized(st: &Stock, matters: bool, file: Seq<char>, want: int) -> Seq<
    (Seq<char>, Fault),
> {
    when(
        matters && st.size(file) != want,
        file,
        Fault::WrongSize { got: st.size(file) as u64, want: want as u64 },
    )
}

fn check_size(out: &mut Vec<Problem>, st: &Stock, matters: bool, file: &str, want: u64)
    requires
        st.wf(),
    ensures
        models(final(out)@) == models(old(out)@) + missized(st, matters, file@, want as int),
{
    let got: u64 = st.size_of(file);
    add_when(out, matters && got != want, file, Fault::WrongSize { got, want });
}

/// One more offset than keys.
pub open spec fn misindexed(st: &Stock, keys: Seq<char>, offs: Seq<char>) -> Seq<
    (Seq<char>, Fault),
> {
    let (k, o) = (st.size(keys) / 8, st.size(offs) / 4);
    when(o != k + 1, offs, Fault::Offsets { offs: o as u64, keys: k as u64 })
}

fn check_index(out: &mut Vec<Problem>, st: &Stock, keys: &str, offs: &str)
    requires
        st.wf(),
    ensures
        models(final(out)@) == models(old(out)@) + misindexed(st, keys@, offs@),
{
    let k: u64 = st.size_of(keys) / 8;
    let o: u64 = st.size_of(offs) / 4;
    add_when(out, o != k + 1, offs, Fault::Offsets { offs: o, keys: k });
}

/// A pool is as long as the last of its offsets says.
pub open spec fn misended(st: &Stock, off: &'static str, pool: Seq<char>, end: Option<u64>) -> Seq<
    (Seq<char>, Fault),
> {
    match end {
        None => Seq::empty(),
        Some(last) => when(
            st.size(pool) != last,
            pool,
            Fault::PoolEnd { got: st.size(pool) as u64, off, last },
        ),
    }
}

fn check_pool(out: &mut Vec<Problem>, st: &Stock, off: &'static str, pool: &str, end: Option<u64>)
    requires
        st.wf(),
    ensures
        models(final(out)@) == models(old(out)@) + misended(st, off, pool@, end),
{
    if let Some(last) = end {
        let got: u64 = st.size_of(pool);
        add_when(out, got != last, pool, Fault::PoolEnd { got, off, last });
    }
    assert(models(out@) =~= models(old(out)@) + misended(st, off, pool@, end));
}

/// How many edges the targets imply, in whichever form they are kept.
pub open spec fn edge_count(st: &Stock) -> int {
    if st.has("to.d16"@) {
        st.size("to.d16"@) / 2
    } else {
        st.size("csr.to"@) / 4
    }
}

/// Lengths that do not fit the counts that the rest implies.
pub open spec fn misfits(st: &Stock) -> Seq<(Seq<char>, Fault)> {
    let v = st.size("csr.head"@) / 4 - 1;
    let e = edge_count(st);
    let s = st.size("seg.len"@) / 4;
    let a = st.size("addr.coord"@) / 8;
    when(
        st.has("seg.attr16"@) && !st.has("attr.dict"@),
        "attr.dict"@,
        Fault::NoDictionary,
    ) + missized(st, true, "csr.rhead"@, (v + 1) * 4) + missized(st, true, "vcoord.bin"@, v * 8)
        + missized(st, true, "csr.seg"@, e * 4) + missized(st, true, "csr.rseg"@, e * 4) + missized(
        st,
        true,
        "geom.off"@,
        (s + 1) * 4,
    ) + missized(st, st.has("to.d16"@), "to.d16"@, e * 2) + missized(
        st,
        st.has("csr.to"@),
        "csr.to"@,
        e * 4,
    ) + missized(st, st.has("csr.rto"@), "csr.rto"@, e * 4) + missized(
        st,
        true,
        "seg.name"@,
        s * 4,
    ) + missized(st, true, "seg.u"@, s * 4) + missized(st, true, "seg.v"@, s * 4) + missized(
        st,
        st.has("seg.attr"@),
        "seg.attr"@,
        s * 4,
    ) + missized(st, st.has("seg.attr16"@), "seg.attr16"@, s * 2) + missized(
        st,
        st.has("rto.d16"@),
        "rto.d16"@,
        e * 2,
    ) + missized(st, true, "addr.hn"@, a * 4) + missized(st, true, "addr.street"@, a * 4)
        + missized(st, true, "addr.place"@, a * 4) + missized(st, true, "fwd.idx"@, a * 4)
}

/// Geometry that does not end where its offsets say.
pub open spec fn misdrawn(st: &Stock) -> Seq<(Seq<char>, Fault)> {
    match st.geom_end {
        None => Seq::empty(),
        Some(end) => when(
            st.size("geom.pts"@) != end * 8,
            "geom.pts"@,
            Fault::Geometry { points: (st.size("geom.pts"@) / 8) as u64, end },
        ),
    }
}

/// Everything that is wrong with the files of a dataset: what is missing or,
/// where nothing is, what has a wrong length.
pub open spec fn problems(st: &Stock) -> Seq<(Seq<char>, Fault)> {
    if gaps(st).len() > 0 {
        gaps(st)
    } else if st.size("csr.head"@) / 4 == 0 {
        seq![("csr.head"@, Fault::Empty)]
    } else {
        misfits(st) + misdrawn(st) + misindexed(st, "snap.cell"@, "snap.off"@) + misindexed(
            st,
            "big.cell"@,
            "big.off"@,
        ) + misindexed(st, "acell.key"@, "acell.off"@) + misended(
            st,
            "name.off",
            "name.pool"@,
            st.name_end,
        ) + misended(st, "street.off", "street.pool"@, st.street_end) + misended(
            st,
            "hn.off",
            "hn.pool"@,
            st.hn_end,
        ) + misended(st, "city.off", "city.pool"@, st.city_end) + misended(
            st,
            "pc.off",
            "pc.pool"@,
            st.pc_end,
        ) + misended(st, "street.normoff", "street.norm"@, st.norm_end)
    }
}

#[verifier::rlimit(60)]
fn check_sizes(out: &mut Vec<Problem>, st: &Stock)
    requires
        st.wf(),
        models(old(out)@) == Seq::<(Seq<char>, Fault)>::empty(),
        st.size("csr.head"@) / 4 > 0,
    ensures
        models(final(out)@) == misfits(st),
{
    let v: u64 = st.size_of("csr.head") / 4 - 1;
    let d16: bool = st.len_of("to.d16").is_some();
    let e: u64 = if d16 {
        st.size_of("to.d16") / 2
    } else {
        st.size_of("csr.to") / 4
    };
    let s: u64 = st.size_of("seg.len") / 4;
    let a: u64 = st.size_of("addr.coord") / 8;
    let attr16: bool = st.len_of("seg.attr16").is_some();
    let bare: bool = attr16 && st.len_of("attr.dict").is_none();
    let ghost m0 = when(bare, "attr.dict"@, Fault::NoDictionary);
    add_when(out, bare, "attr.dict", Fault::NoDictionary);
    assert(models(out@) =~= m0);
    check_size(out, st, true, "csr.rhead", (v + 1) * 4);
    check_size(out, st, true, "vcoord.bin", v * 8);
    check_size(out, st, true, "csr.seg", e * 4);
    check_size(out, st, true, "csr.rseg", e * 4);
    check_size(out, st, true, "geom.off", (s + 1) * 4);
    check_size(out, st, d16, "to.d16", e * 2);
    let raw: bool = st.len_of("csr.to").is_some();
    check_size(out, st, raw, "csr.to", e * 4);
    let rraw: bool = st.len_of("csr.rto").is_some();
    check_size(out, st, rraw, "csr.rto", e * 4);
    check_size(out, st, true, "seg.name", s * 4);
    check_size(out, st, true, "seg.u", s * 4);
    check_size(out, st, true, "seg.v", s * 4);
    let attr: bool = st.len_of("seg.attr").is_some();
    check_size(out, st, attr, "seg.attr", s * 4);
    check_size(out, st, attr16, "seg.attr16", s * 2);
    let rd16: bool = st.len_of("rto.d16").is_some();
    check_size(out, st, rd16, "rto.d16", e * 2);
    check_size(out, st, true, "addr.hn", a * 4);
    check_size(out, st, true, "addr.street", a * 4);
    check_size(out, st, true, "addr.place", a * 4);
    check_size(out, st, true, "fwd.idx", a * 4);
}

/// Finds what is wrong with the files of a dataset.
#[verifier::rlimit(60)]
pub fn verify(st: &Stock) -> (out: Vec<Problem>)
    requires
        st.wf(),
    ensures
        models(out@) == problems(st),
{
    let mut out: Vec<Problem> = find_absent(st);
    check_ladder(&mut out, st);
    let to: bool = st.len_of("csr.to").is_none() && st.len_of("to.d16").is_none();
    add_when(&mut out, to, "to.d16", Fault::NeitherForm { raw: "csr.to" });
    let rto: bool = st.len_of("csr.rto").is_none() && st.len_of("rto.d16").is_none();
    add_when(&mut out, rto, "rto.d16", Fault::NeitherForm { raw: "csr.rto" });
    let attr: bool = st.len_of("seg.attr").is_none() && st.len_of("seg.attr16").is_none();
    add_when(&mut out, attr, "seg.attr16", Fault::NeitherForm { raw: "seg.attr" });
    assert(models(out@).len() == out@.len());
    if out.len() > 0 {
        return out;
    }
    if st.size_of("csr.head") / 4 == 0 {
        add_problem(&mut out, "csr.head", Fault::Empty);
        assert(models(out@) =~= problems(st));
        return out;
    }
    assert(models(out@) =~= Seq::<(Seq<char>, Fault)>::empty());
    check_sizes(&mut out, st);
    let ghost m = models(out@);
    if let Some(end) = st.geom_end {
        let pts: u64 = st.size_of("geom.pts");
        add_when(
            &mut out,
            pts != end as u64 * 8,
            "geom.pts",
            Fault::Geometry { points: pts / 8, end },
        );
    }
    assert(models(out@) =~= m + misdrawn(st));
    check_index(&mut out, st, "snap.cell", "snap.off");
    check_index(&mut out, st, "big.cell", "big.off");
    check_index(&mut out, st, "acell.key", "acell.off");
    check_pool(&mut out, st, "name.off", "name.pool", st.name_end);
    check_pool(&mut out, st, "street.off", "street.pool", st.street_end);
    check_pool(&mut out, st, "hn.off", "hn.pool", st.hn_end);
    check_pool(&mut out, st, "city.off", "city.pool", st.city_end);
    check_pool(&mut out, st, "pc.off", "pc.pool", st.pc_end);
    check_pool(&mut out, st, "street.normoff", "street.norm", st.norm_end);
    out
}

/// A dataset in which nothing is wrong has, for every vertex and edge that the
/// heads imply, exactly one place in each array that is kept by vertex, edge,
/// segment or address.
#[verifier::rlimit(60)]
pub proof fn lemma_sound_sizes(st: &Stock)
    requires
        problems(st).len() == 0,
    ensures
        st.size("csr.rhead"@) == st.size("csr.head"@) / 4 * 4,
        st.size("vcoord.bin"@) == (st.size("csr.head"@) / 4 - 1) * 8,
        st.size("csr.seg"@) == edge_count(st) * 4,
        st.size("csr.rseg"@) == edge_count(st) * 4,
        st.size("geom.off"@) == (st.size("seg.len"@) / 4 + 1) * 4,
        st.size("seg.u"@) == st.size("seg.len"@) / 4 * 4,
        st.size("seg.v"@) == st.size("seg.len"@) / 4 * 4,
        st.size("fwd.idx"@) == st.size("addr.coord"@) / 8 * 4,
        st.geom_end matches Some(end) ==> st.size("geom.pts"@) == end * 8,
{
}

/// The counts that the lengths of a dataset's files imply.
pub struct Counts {
    pub vertices: u64,
    pub edges: u64,
    pub segments: u64,
    pub addresses: u64,
    pub geometry_points: u64,
    pub street_names: u64,
}

/// What the files of a dataset imply about it.
pub open spec fn counted(st: &Stock, r: Option<Counts>) -> bool {
    match r {
        None => st.size("csr.head"@) / 4 == 0,
        Some(c) => {
            &&& c.vertices == st.size("csr.head"@) / 4 - 1
            &&& c.edges == edge_count(st)
            &&& c.segments == st.size("seg.len"@) / 4
            &&& c.addresses == st.size("addr.coord"@) / 8
            &&& c.geometry_points == st.size("geom.pts"@) / 8
            &&& c.street_names == if st.size("name.off"@) / 8 == 0 {
                0
            } else {
                st.size("name.off"@) / 8 - 1
            }
        },
    }
}

/// Counts the records of a dataset; nothing where it has no graph.
pub fn counts(st: &Stock) -> (r: Option<Counts>)
    requires
        st.wf(),
    ensures
        counted(st, r),
{
    let head: u64 = st.size_of("csr.head") / 4;
    if head == 0 {
        return None;
    }
    let names: u64 = st.size_of("name.off") / 8;
    let edges: u64 = if st.len_of("to.d16").is_some() {
        st.size_of("to.d16") / 2
    } else {
        st.size_of("csr.to") / 4
    };
    Some(
        Counts {
            vertices: head - 1,
            edges,
            segments: st.size_of("seg.len") / 4,
            addresses: st.size_of("addr.coord") / 8,
            geometry_points: st.size_of("geom.pts") / 8,
            street_names: if names == 0 {
                0
            } else {
                names - 1
            },
        },
    )
}

} // verus!

//! The records of address nodes and address ways.

use vstd::prelude::*;
use crate::bytes::{get_u32, number};
use crate::pbf::wire::{lemma_leb, varint_at};
use crate::varint::{get_bytes, get_u, string_at};
use crate::ways::record::{course_at, read_course};

verus! {

/// What is stored of a node with an address.
pub struct DoorModel {
    pub id: u64,
    pub lat: i32,
    pub lon: i32,
    pub hn: Seq<u8>,
    pub street: Seq<u8>,
    pub city: Seq<u8>,
    pub pc: Seq<u8>,
}

pub struct Door<'a> {
    pub id: u64,
    pub lat: i32,
    pub lon: i32,
    pub hn: &'a [u8],
    pub street: &'a [u8],
    pub city: &'a [u8],
    pub pc: &'a [u8],
}

impl<'a> Door<'a> {
    pub open spec fn model(&self) -> DoorModel {
        DoorModel {
            id: self.id,
            lat: self.lat,
            lon: self.lon,
            hn: self.hn@,
            street: self.street@,
            city: self.city@,
            pc: self.pc@,
        }
    }
}

/// The four bytes at `p` as a signed number.
pub open spec fn i32_at(b: Seq<u8>, p: int) -> i32 {
    (number(b.subrange(p, p + 4)) as u32) as i32
}

/// Four strings in a row, and where they end.
pub open spec fn four_at(b: Seq<u8>, p: int) -> Option<(Seq<u8>, Seq<u8>, Seq<u8>, Seq<u8>, int)> {
    match string_at(b, p) {
        None => None,
        Some((s1, p1)) => match string_at(b, p1) {
            None => None,
            Some((s2, p2)) => match string_at(b, p2) {
                None => None,
                Some((s3, p3)) => match string_at(b, p3) {
                    None => None,
                    Some((s4, p4)) => Some((s1, s2, s3, s4, p4)),
                },
            },
        },
    }
}

#[verifier::opaque]
pub open spec fn door_at(b: Seq<u8>, p: int) -> Option<(DoorModel, int)> {
    match varint_at(b, p) {
        None => None,
        Some((id, q)) => if q + 8 > b.len() {
            None
        } else {
            match four_at(b, q + 8) {
                None => None,
                Some((hn, street, city, pc, e)) => Some(
                    (
                        DoorModel {
                            id,
                            lat: i32_at(b, q),
                            lon: i32_at(b, q + 4),
                            hn,
                            street,
                            city,
                            pc,
                        },
                        e,
                    ),
                ),
            }
        },
    }
}

proof fn lemma_string(b: Seq<u8>, p: int)
    ensures
        string_at(b, p) matches Some((s, q)) ==> p < q <= b.len(),
{
    lemma_leb(b, p, 0);
}

proof fn lemma_four(b: Seq<u8>, p: int)
    ensures
        four_at(b, p) matches Some((s1, s2, s3, s4, q)) ==> p < q <= b.len(),
{
    lemma_string(b, p);
    if let Some((s1, p1)) = string_at(b, p) {
        lemma_string(b, p1);
        if let Some((s2, p2)) = string_at(b, p1) {
            lemma_string(b, p2);
            if let Some((s3, p3)) = string_at(b, p2) {
                lemma_string(b, p3);
            }
        }
    }
}

proof fn lemma_door(b: Seq<u8>, p: int)
    ensures
        door_at(b, p) matches Some((d, q)) ==> p < q <= b.len(),
{
    reveal(door_at);
    lemma_leb(b, p, 0);
    if let Some((id, q)) = varint_at(b, p) {
        lemma_four(b, q + 8);
    }
}

/// The node records from `p` on.
pub open spec fn doors_from(b: Seq<u8>, p: int) -> Option<Seq<DoorModel>>
    decreases b.len() - p,
    when 0 <= p
    via doors_shrink
{
    if p >= b.len() {
        Some(Seq::empty())
    } else {
        match door_at(b, p) {
            None => None,
            Some((d, q)) => match doors_from(b, q) {
                None => None,
                Some(rest) => Some(seq![d] + rest),
            },
        }
    }
}

#[via_fn]
proof fn doors_shrink(b: Seq<u8>, p: int) {
    lemma_door(b, p);
}

fn read_four<'a>(b: &'a [u8], p: usize) -> (r: Option<
    (&'a [u8], &'a [u8], &'a [u8], &'a [u8], usize),
>)
    ensures
        match r {
            None => four_at(b@, p as int) is None,
            Some((s1, s2, s3, s4, e)) => four_at(b@, p as int) == Some(
                (s1@, s2@, s3@, s4@, e as int),
            ) && p < e <= b@.len(),
        },
{
    let mut q: usize = p;
    let s1: &'a [u8] = match get_bytes(b, &mut q) {
        None => {
            return None;
        },
        Some(s) => s,
    };
    let s2: &'a [u8] = match get_bytes(b, &mut q) {
        None => {
            return None;
        },
        Some(s) => s,
    };
    let s3: &'a [u8] = match get_bytes(b, &mut q) {
        None => {
            return None;
        },
        Some(s) => s,
    };
    let s4: &'a [u8] = match get_bytes(b, &mut q) {
        None => {
            return None;
        },
        Some(s) => s,
    };
    Some((s1, s2, s3, s4, q))
}

fn read_door<'a>(b: &'a [u8], p: usize) -> (r: Option<(Door<'a>, usize)>)
    ensures
        match r {
            None => door_at(b@, p as int) is None,
            Some((d, e)) => door_at(b@, p as int) == Some((d.model(), e as int)) && p < e
                <= b@.len(),
        },
{
    reveal(door_at);
    let mut q: usize = p;
    let id: u64 = match get_u(b, &mut q) {
        None => {
            return None;
        },
        Some(x) => x,
    };
    let n: usize = b.len();
    if n - q < 8 {
        return None;
    }
    let lat: i32 = #[verifier::truncate] (get_u32(b, q) as i32);
    let lon: i32 = #[verifier::truncate] (get_u32(b, q + 4) as i32);
    match read_four(b, q + 8) {
        None => None,
        Some((hn, street, city, pc, e)) => Some(
            (Door { id, lat, lon, hn, street, city, pc }, e),
        ),
    }
}

pub open spec fn door_models(v: Seq<Door>) -> Seq<DoorModel> {
    Seq::new(v.len(), |i: int| v[i].model())
}

/// Every node record, or nothing where one is broken.
pub fn read_doors<'a>(b: &'a [u8]) -> (r: Option<Vec<Door<'a>>>)
    ensures
        match r {
            None => doors_from(b@, 0) is None,
            Some(v) => doors_from(b@, 0) == Some(door_models(v@)),
        },
{
    let ghost goal = doors_from(b@, 0);
    let mut out: Vec<Door<'a>> = Vec::new();
    let mut p: usize = 0;
    proof {
        if let Some(s) = goal {
            assert(door_models(out@) + s =~= s);
        }
    }
    while p < b.len()
        invariant
            p <= b@.len(),
            goal == doors_from(b@, 0),
            match doors_from(b@, p as int) {
                None => goal is None,
                Some(s) => goal == Some(door_models(out@) + s),
            },
        decreases b@.len() - p,
    {
        match read_door(b, p) {
            None => {
                return None;
            },
            Some((d, e)) => {
                let ghost (o0, m) = (out@, d.model());
                out.push(d);
                proof {
                    assert(door_models(out@) =~= door_models(o0).push(m));
                    if let Some(s) = doors_from(b@, e as int) {
                        assert(door_models(o0) + (seq![m] + s) =~= door_models(out@) + s);
                    }
                }
                p = e;
            },
        }
    }
    assert(door_models(out@) + Seq::<DoorModel>::empty() =~= door_models(out@));
    Some(out)
}

// -------------------------------------------------------------------- ways

/// What is stored of a way with addresses.
pub struct LineModel {
    pub kind: u8,
    pub hn: Seq<u8>,
    pub street: Seq<u8>,
    pub city: Seq<u8>,
    pub pc: Seq<u8>,
    pub rule: Seq<u8>,
    pub refs: Seq<i64>,
}

pub struct Line<'a> {
    pub kind: u8,
    pub hn: &'a [u8],
    pub street: &'a [u8],
    pub city: &'a [u8],
    pub pc: &'a [u8],
    pub rule: &'a [u8],
    pub refs: Vec<i64>,
}

impl<'a> Line<'a> {
    pub open spec fn model(&self) -> LineModel {
        LineModel {
            kind: self.kind,
            hn: self.hn@,
            street: self.street@,
            city: self.city@,
            pc: self.pc@,
            rule: self.rule@,
            refs: self.refs@,
        }
    }
}

#[verifier::opaque]
pub open spec fn line_at(b: Seq<u8>, p: int) -> Option<(LineModel, int)> {
    match four_at(b, p + 1) {
        None => None,
        Some((hn, street, city, pc, q)) => match string_at(b, q) {
            None => None,
            Some((rule, s)) => match course_at(b, s) {
                None => None,
                Some((refs, e)) => Some(
                    (LineModel { kind: b[p], hn, street, city, pc, rule, refs }, e),
                ),
            },
        },
    }
}

proof fn lemma_course_end(b: Seq<u8>, p: int)
    ensures
        course_at(b, p) matches Some((r, e)) ==> p < e <= b.len(),
{
    lemma_leb(b, p, 0);
    if let Some((n, q)) = varint_at(b, p) {
        lemma_refs_end(b, q, n as nat, 0);
    }
}

proof fn lemma_refs_end(b: Seq<u8>, p: int, n: nat, acc: i64)
    requires
        p <= b.len(),
    ensures
        crate::ways::record::refs_at(b, p, n, acc) matches Some((r, e)) ==> p <= e <= b.len(),
    decreases n,
{
    if n > 0 {
        lemma_leb(b, p, 0);
        if let Some((v, q)) = varint_at(b, p) {
            let x = acc + crate::pbf::wire::zigzag_of(v);
            if i64::MIN <= x <= i64::MAX {
                lemma_refs_end(b, q, (n - 1) as nat, x as i64);
            }
        }
    }
}

proof fn lemma_line(b: Seq<u8>, p: int)
    ensures
        line_at(b, p) matches Some((d, q)) ==> p < q <= b.len(),
{
    reveal(line_at);
    lemma_four(b, p + 1);
    if let Some((s1, s2, s3, s4, q)) = four_at(b, p + 1) {
        lemma_string(b, q);
        if let Some((rule, s)) = string_at(b, q) {
            lemma_course_end(b, s);
        }
    }
}

/// The way records from `p` on.
pub open spec fn lines_from(b: Seq<u8>, p: int) -> Option<Seq<LineModel>>
    decreases b.len() - p,
    when 0 <= p
    via lines_shrink
{
    if p >= b.len() {
        Some(Seq::empty())
    } else {
        match line_at(b, p) {
            None => None,
            Some((d, q)) => match lines_from(b, q) {
                None => None,
                Some(rest) => Some(seq![d] + rest),
            },
        }
    }
}

#[via_fn]
proof fn lines_shrink(b: Seq<u8>, p: int) {
    lemma_line(b, p);
}

fn read_line<'a>(b: &'a [u8], p: usize) -> (r: Option<(Line<'a>, usize)>)
    requires
        p < b@.len(),
    ensures
        match r {
            None => line_at(b@, p as int) is None,
            Some((d, e)) => line_at(b@, p as int) == Some((d.model(), e as int)) && p < e
                <= b@.len(),
        },
{
    reveal(line_at);
    let kind: u8 = b[p];
    let (hn, street, city, pc, q): (&'a [u8], &'a [u8], &'a [u8], &'a [u8], usize) = match read_four(
        b,
        p + 1,
    ) {
        None => {
            return None;
        },
        Some(x) => x,
    };
    let mut s: usize = q;
    let rule: &'a [u8] = match get_bytes(b, &mut s) {
        None => {
            return None;
        },
        Some(x) => x,
    };
    match read_course(b, s) {
        None => None,
        Some((refs, e)) => Some((Line { kind, hn, street, city, pc, rule, refs }, e)),
    }
}

pub open spec fn line_models(v: Seq<Line>) -> Seq<LineModel> {
    Seq::new(v.len(), |i: int| v[i].model())
}

/// Every way record, or nothing where one is broken.
pub fn read_lines<'a>(b: &'a [u8]) -> (r: Option<Vec<Line<'a>>>)
    ensures
        match r {
            None => lines_from(b@, 0) is None,
            Some(v) => lines_from(b@, 0) == Some(line_models(v@)),
        },
{
    let ghost goal = lines_from(b@, 0);
    let mut out: Vec<Line<'a>> = Vec::new();
    let mut p: usize = 0;
    proof {
        if let Some(s) = goal {
            assert(line_models(out@) + s =~= s);
        }
    }
    while p < b.len()
        invariant
            p <= b@.len(),
            goal == lines_from(b@, 0),
            match lines_from(b@, p as int) {
                None => goal is None,
                Some(s) => goal == Some(line_models(out@) + s),
            },
        decreases b@.len() - p,
    {
        match read_line(b, p) {
            None => {
                return None;
            },
            Some((d, e)) => {
                let ghost (o0, m) = (out@, d.model());
                out.push(d);
                proof {
                    assert(line_models(out@) =~= line_models(o0).push(m));
                    if let Some(s) = lines_from(b@, e as int) {
                        assert(line_models(o0) + (seq![m] + s) =~= line_models(out@) + s);
                    }
                }
                p = e;
            },
        }
    }
    assert(line_models(out@) + Seq::<LineModel>::empty() =~= line_models(out@));
    Some(out)
}

} // verus!

//! A route in words, and the toll gates on it.

use vstd::prelude::*;
use vstd::string::StringExecFns;
use vstd::utf8::{decode_utf8, valid_utf8};
use crate::attr::{attr_class, class_at, class_of};
use crate::dataset::Dataset;
use crate::profile::Class;
use crate::router::route::Leg;
use crate::text::str_eq;

verus! {

/// The name of a segment, empty where it has none.
pub open spec fn name_of(ds: Dataset, sid: int) -> Seq<char> {
    if sid >= ds.seg_name@.len() || ds.seg_name@[sid] == u32::MAX || !valid_utf8(
        ds.name_bytes(ds.seg_name@[sid] as int),
    ) {
        Seq::empty()
    } else {
        decode_utf8(ds.name_bytes(ds.seg_name@[sid] as int))
    }
}

/// A stretch of road: its name, how long it is, and its class.
pub struct Stretch {
    pub name: String,
    pub cm: u64,
    pub class: u8,
}

pub struct StretchModel {
    pub name: Seq<char>,
    pub cm: int,
    pub class: int,
}

pub open spec fn models(v: Seq<Stretch>) -> Seq<StretchModel> {
    Seq::new(
        v.len(),
        |i: int| StretchModel { name: v[i].name@, cm: v[i].cm as int, class: v[i].class as int },
    )
}

/// The first `n` legs, those that follow each other under one name and class
/// taken together.
pub open spec fn stretches(ds: Dataset, legs: Seq<Leg>, n: int) -> Seq<StretchModel>
    decreases n,
{
    if n <= 0 {
        Seq::empty()
    } else {
        let s = stretches(ds, legs, n - 1);
        let l = legs[n - 1];
        let name = name_of(ds, l.seg as int);
        let class = ds.spec_attr(l.seg as int) as int % 16;
        if s.len() > 0 && s.last().name == name && s.last().class == class {
            s.update(s.len() - 1, StretchModel { cm: s.last().cm + l.len_cm, ..s.last() })
        } else {
            s.push(StretchModel { name, cm: l.len_cm as int, class })
        }
    }
}

/// A route in words.
pub open spec fn summed_up(ds: Dataset, legs: Seq<Leg>, out: Seq<StretchModel>) -> bool {
    out == stretches(ds, legs, legs.len() as int)
}

pub open spec fn leg_sum(legs: Seq<Leg>, n: int) -> int
    decreases n,
{
    if n <= 0 {
        0
    } else {
        leg_sum(legs, n - 1) + legs[n - 1].len_cm
    }
}

pub open spec fn stretch_sum(s: Seq<StretchModel>, n: int) -> int
    decreases n,
{
    if n <= 0 {
        0
    } else {
        stretch_sum(s, n - 1) + s[n - 1].cm
    }
}

proof fn lemma_sum_same(s: Seq<StretchModel>, t: Seq<StretchModel>, n: int)
    requires
        n <= s.len(),
        n <= t.len(),
        forall|i: int| 0 <= i < n ==> (#[trigger] s[i]).cm == t[i].cm,
    ensures
        stretch_sum(s, n) == stretch_sum(t, n),
    decreases n,
{
    if n > 0 {
        lemma_sum_same(s, t, n - 1);
        assert(s[n - 1].cm == t[n - 1].cm);
    }
}

proof fn lemma_leg_sum(legs: Seq<Leg>, a: int, b: int)
    requires
        0 <= a <= b,
    ensures
        0 <= leg_sum(legs, a) <= leg_sum(legs, b),
    decreases b,
{
    if b > 0 {
        if a < b {
            lemma_leg_sum(legs, a, b - 1);
        } else {
            lemma_leg_sum(legs, a - 1, b - 1);
        }
    }
}

/// Taking legs together loses no distance.
pub proof fn lemma_distance_kept(ds: Dataset, legs: Seq<Leg>, n: int)
    requires
        0 <= n,
    ensures
        stretch_sum(stretches(ds, legs, n), stretches(ds, legs, n).len() as int) == leg_sum(
            legs,
            n,
        ),
        forall|i: int| 0 <= i < stretches(ds, legs, n).len() ==> (#[trigger] stretches(ds, legs, n)[i]).cm >= 0,
    decreases n,
{
    if n > 0 {
        lemma_distance_kept(ds, legs, n - 1);
        let s = stretches(ds, legs, n - 1);
        let t = stretches(ds, legs, n);
        if t.len() == s.len() {
            lemma_sum_same(s, t, s.len() - 1);
        } else {
            lemma_sum_same(s, t, s.len() as int);
        }
    }
}

proof fn lemma_last_fits(ds: Dataset, legs: Seq<Leg>, n: int)
    requires
        0 <= n,
        stretches(ds, legs, n).len() > 0,
    ensures
        stretches(ds, legs, n).last().cm <= leg_sum(legs, n),
{
    lemma_distance_kept(ds, legs, n);
    let s = stretches(ds, legs, n);
    lemma_sum_pos(s, s.len() - 1);
}

proof fn lemma_sum_pos(s: Seq<StretchModel>, n: int)
    requires
        0 <= n <= s.len(),
        forall|i: int| 0 <= i < s.len() ==> (#[trigger] s[i]).cm >= 0,
    ensures
        stretch_sum(s, n) >= 0,
    decreases n,
{
    if n > 0 {
        lemma_sum_pos(s, n - 1);
        assert(s[n - 1].cm >= 0);
    }
}

/// A summary of a route: legs that follow each other on one street are taken
/// together.
pub fn route_steps(ds: &Dataset, legs: &Vec<Leg>) -> (out: Vec<Stretch>)
    requires
        ds.attrs_ok(),
        forall|i: int|
            0 <= i < legs@.len() ==> (#[trigger] legs@[i]).seg < ds.ns() && (legs@[i].seg
                < ds.seg_name@.len() && ds.seg_name@[legs@[i].seg as int] != u32::MAX
                ==> ds.name_ok(ds.seg_name@[legs@[i].seg as int] as int)),
        leg_sum(legs@, legs@.len() as int) <= u64::MAX,
    ensures
        summed_up(*ds, legs@, models(out@)),
{
    let mut out: Vec<Stretch> = Vec::new();
    let mut i: usize = 0;
    assert(models(out@) =~= stretches(*ds, legs@, 0));
    while i < legs.len()
        invariant
            ds.attrs_ok(),
            forall|i: int|
                0 <= i < legs@.len() ==> (#[trigger] legs@[i]).seg < ds.ns() && (legs@[i].seg
                    < ds.seg_name@.len() && ds.seg_name@[legs@[i].seg as int] != u32::MAX
                    ==> ds.name_ok(ds.seg_name@[legs@[i].seg as int] as int)),
            leg_sum(legs@, legs@.len() as int) <= u64::MAX,
            i <= legs@.len(),
            models(out@) == stretches(*ds, legs@, i as int),
        decreases legs@.len() - i,
    {
        let l: Leg = legs[i];
        assert(legs@[i as int].seg < ds.ns());
        let name: &str = match ds.street_name(l.seg as usize) {
            Some(s) => s,
            None => "",
        };
        proof {
            reveal_strlit("");
            assert(""@ =~= Seq::<char>::empty());
            assert(name@ == name_of(*ds, l.seg as int));
            lemma_leg_sum(legs@, i + 1, legs@.len() as int);
        }
        let class: u8 = attr_class(ds.attr(l.seg as usize));
        let n: usize = out.len();
        let ghost s = models(out@);
        let same: bool = n > 0 && str_eq(out[n - 1].name.as_str(), name) && out[n - 1].class == class;
        if same {
            proof {
                assert(s.last() == s[n - 1]);
                lemma_last_fits(*ds, legs@, i as int);
            }
            match out.pop() {
                Some(mut last) => {
                    last.cm = last.cm + l.len_cm;
                    out.push(last);
                },
                None => {},
            }
            assert(models(out@) =~= s.update(
                n - 1,
                StretchModel { cm: s.last().cm + l.len_cm, ..s.last() },
            ));
        } else {
            out.push(Stretch { name: String::from_str(name), cm: l.len_cm, class });
            assert(models(out@) =~= s.push(
                StretchModel { name: name@, cm: l.len_cm as int, class: class as int },
            ));
        }
        i += 1;
    }
    out
}

/// A toll gate that a route drives through, with the vertices either side.
#[derive(Clone, Copy, Debug, PartialEq, Eq, Structural)]
pub struct TollHit {
    pub gate: usize,
    pub from_vertex: u32,
    pub to_vertex: u32,
}

/// Gates passed before place `n`. Starting or ending at one is no crossing.
pub open spec fn crossings(vertices: Seq<u32>, gates: Seq<Option<usize>>, n: int) -> Seq<TollHit>
    decreases n,
{
    if n <= 1 {
        Seq::empty()
    } else {
        match gates[n - 1] {
            Some(gate) if n < vertices.len() => crossings(vertices, gates, n - 1).push(
                TollHit { gate, from_vertex: vertices[n - 2], to_vertex: vertices[n] },
            ),
            _ => crossings(vertices, gates, n - 1),
        }
    }
}

/// The gates that a route drives through.
pub open spec fn crossed(
    vertices: Seq<u32>,
    gates: Seq<Option<usize>>,
    out: Seq<TollHit>,
) -> bool {
    out == crossings(vertices, gates, vertices.len() as int)
}

/// The toll gates that a route drives through, in order; `gates` says of each
/// vertex which gate it is, if any.
pub fn route_tolls(vertices: &Vec<u32>, gates: &Vec<Option<usize>>) -> (out: Vec<TollHit>)
    requires
        gates@.len() == vertices@.len(),
    ensures
        crossed(vertices@, gates@, out@),
{
    let mut out: Vec<TollHit> = Vec::new();
    let n: usize = vertices.len();
    let mut i: usize = 1;
    while i < n
        invariant
            n == vertices@.len(),
            gates@.len() == n,
            1 <= i,
            n >= 1 ==> i <= n,
            n == 0 ==> i == 1,
            out@ == crossings(vertices@, gates@, i as int),
        decreases n - i,
    {
        if i + 1 < n {
            if let Some(gate) = gates[i] {
                out.push(
                    TollHit { gate, from_vertex: vertices[i - 1], to_vertex: vertices[i + 1] },
                );
            }
        }
        i += 1;
    }
    assert(crossings(vertices@, gates@, 0) == crossings(vertices@, gates@, 1));
    out
}

/// The word for a class of road.
pub open spec fn class_text(c: Class) -> Seq<char> {
    match c {
        Class::Motorway => "motorway"@,
        Class::MotorwayLink => "motorway_link"@,
        Class::Trunk => "trunk"@,
        Class::TrunkLink => "trunk_link"@,
        Class::Primary => "primary"@,
        Class::PrimaryLink => "primary_link"@,
        Class::Secondary => "secondary"@,
        Class::SecondaryLink => "secondary_link"@,
        Class::Tertiary => "tertiary"@,
        Class::TertiaryLink => "tertiary_link"@,
        Class::Unclassified => "unclassified"@,
        Class::Residential => "residential"@,
        Class::LivingStreet => "living_street"@,
        Class::Service => "service"@,
        Class::Ferry => "ferry"@,
        Class::Other => "road"@,
    }
}

/// The word for a class of road, given by its number.
pub fn class_name(c: u8) -> (r: &'static str)
    ensures
        r@ == class_text(class_at(c)),
{
    match class_of(c) {
        Class::Motorway => "motorway",
        Class::MotorwayLink => "motorway_link",
        Class::Trunk => "trunk",
        Class::TrunkLink => "trunk_link",
        Class::Primary => "primary",
        Class::PrimaryLink => "primary_link",
        Class::Secondary => "secondary",
        Class::SecondaryLink => "secondary_link",
        Class::Tertiary => "tertiary",
        Class::TertiaryLink => "tertiary_link",
        Class::Unclassified => "unclassified",
        Class::Residential => "residential",
        Class::LivingStreet => "living_street",
        Class::Service => "service",
        Class::Ferry => "ferry",
        Class::Other => "road",
    }
}

} // verus!

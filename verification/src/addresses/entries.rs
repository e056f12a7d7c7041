//! Address points: those mapped as nodes, the middles of buildings, and those
//! interpolated between two numbers.

use vstd::prelude::*;
use vstd::arithmetic::power2::{
    lemma2_to64, lemma2_to64_rest, lemma_pow2_pos, lemma_pow2_strictly_increases, pow2,
};
use vstd::utf8::encode_utf8;
use std::collections::{HashMap, HashSet};
use crate::double::{
    keep, lemma_keep_bounds, lemma_keep_off, nearest, power, quotient, settle_signed, whole_of,
};
use crate::addresses::doors::{
    door_models, doors_from, line_models, lines_from, read_doors, read_lines, Door, DoorModel,
    Line, LineModel,
};
use crate::addresses::words::{hn_bytes, hn_value};
use crate::bitmap::{ones, BitMap};
use crate::contract::cut::marked;
use crate::intern::Pool;
use crate::pbf::node::cut_div;
use crate::text::{decimal, decimal_of, is_word, lower, lowered, word};

verus! {

/// An address point.
pub struct Entry {
    pub lat: i32,
    pub lon: i32,
    pub hn: Seq<u8>,
    pub street: Seq<u8>,
    pub city: Seq<u8>,
    pub pc: Seq<u8>,
}

/// The same with numbers for its strings.
#[derive(Clone, Copy)]
pub struct Rec {
    pub lat: i32,
    pub lon: i32,
    pub hn: u32,
    pub street: u32,
    pub place: u32,
}

// ----------------------------------------------------------------- places

/// Pairs of city and postcode, each once.
pub struct Places {
    pub list: Vec<(u32, u32)>,
    pub by_key: HashMap<u64, u32>,
}

pub open spec fn place_key(c: u32, p: u32) -> u64 {
    (c as int * 0x1_0000_0000 + p) as u64
}

impl Places {
    pub open spec fn wf(&self) -> bool {
        &&& self.list@.no_duplicates()
        &&& self.list@.len() <= u32::MAX
        &&& forall|i: int|
            0 <= i < self.list@.len() ==> {
                let k = place_key((#[trigger] self.list@[i]).0, self.list@[i].1);
                self.by_key@.contains_key(k) && self.by_key@[k] == i
            }
        &&& forall|k: u64|
            #[trigger] self.by_key@.contains_key(k) ==> self.by_key@[k] < self.list@.len()
                && place_key(
                self.list@[self.by_key@[k] as int].0,
                self.list@[self.by_key@[k] as int].1,
            ) == k
    }

    fn new() -> (r: Places)
        ensures
            r.wf(),
            r.list@.len() == 0,
    {
        broadcast use vstd::std_specs::hash::group_hash_axioms;

        Places { list: Vec::new(), by_key: HashMap::new() }
    }

    /// The number of a pair, which is kept if it is new.
    fn place_id(&mut self, c: u32, p: u32) -> (id: u32)
        requires
            old(self).wf(),
            old(self).list@.len() < u32::MAX,
        ensures
            final(self).wf(),
            id < final(self).list@.len(),
            final(self).list@[id as int] == (c, p),
            final(self).list@ == (if old(self).list@.contains((c, p)) {
                old(self).list@
            } else {
                old(self).list@.push((c, p))
            }),
    {
        broadcast use vstd::std_specs::hash::group_hash_axioms;

        let k: u64 = c as u64 * 0x1_0000_0000 + p as u64;
        let ghost l0 = self.list@;
        let ghost m0 = self.by_key@;
        let known: Option<u32> = match self.by_key.get(&k) {
            Some(i) => Some(*i),
            None => None,
        };
        match known {
            Some(i) => {
                proof {
                    assert(m0.contains_key(k));
                    assert(l0[i as int] == (c, p));
                    assert(l0.contains((c, p)));
                }
                i
            },
            None => {
                let id: u32 = self.list.len() as u32;
                self.list.push((c, p));
                self.by_key.insert(k, id);
                proof {
                    if l0.contains((c, p)) {
                        let x = l0.index_of((c, p));
                        assert(l0[x] == (c, p));
                        assert(m0.contains_key(place_key(l0[x].0, l0[x].1)));
                    }
                    assert forall|i: int| 0 <= i < self.list@.len() implies {
                        let k2 = place_key((#[trigger] self.list@[i]).0, self.list@[i].1);
                        self.by_key@.contains_key(k2) && self.by_key@[k2] == i
                    } by {
                        if i < l0.len() {
                            assert(l0[i] == self.list@[i]);
                            assert(m0.contains_key(place_key(l0[i].0, l0[i].1)));
                        }
                    }
                    assert forall|k2: u64|
                        #[trigger] self.by_key@.contains_key(k2) implies self.by_key@[k2]
                        < self.list@.len() && place_key(
                        self.list@[self.by_key@[k2] as int].0,
                        self.list@[self.by_key@[k2] as int].1,
                    ) == k2 by {
                        if k2 != k {
                            assert(m0.contains_key(k2));
                        }
                    }
                }
                id
            },
        }
    }
}

// --------------------------------------------------------------- gathering

/// Values of the entries that are wanted, each once, in order of appearance.
pub open spec fn uniq(es: Seq<Entry>, f: spec_fn(Entry) -> Seq<u8>, all: bool) -> Seq<Seq<u8>>
    decreases es.len(),
{
    if es.len() == 0 {
        Seq::empty()
    } else {
        let rest = uniq(es.drop_last(), f, all);
        let v = f(es.last());
        if (!all && v.len() == 0) || rest.contains(v) {
            rest
        } else {
            rest.push(v)
        }
    }
}

pub open spec fn street_text() -> spec_fn(Entry) -> Seq<u8> {
    |e: Entry| e.street
}

pub open spec fn hn_text() -> spec_fn(Entry) -> Seq<u8> {
    |e: Entry| e.hn
}

pub open spec fn city_text() -> spec_fn(Entry) -> Seq<u8> {
    |e: Entry| e.city
}

pub open spec fn pc_text() -> spec_fn(Entry) -> Seq<u8> {
    |e: Entry| e.pc
}

/// The pairs of city and postcode of the entries, each once, in order of
/// appearance.
pub open spec fn places_of(es: Seq<Entry>) -> Seq<(Seq<u8>, Seq<u8>)>
    decreases es.len(),
{
    if es.len() == 0 {
        Seq::empty()
    } else {
        let rest = places_of(es.drop_last());
        let v = (es.last().city, es.last().pc);
        if rest.contains(v) {
            rest
        } else {
            rest.push(v)
        }
    }
}

/// The number is that of the text, or the text is empty and there is none.
pub open spec fn names(p: Pool, id: u32, text: Seq<u8>) -> bool {
    if text.len() == 0 {
        id == u32::MAX
    } else {
        id < p.size() && p.text(id as int) == text
    }
}

/// All address points, with their strings kept once each.
pub struct Gathered {
    pub streets: Pool,
    pub hns: Pool,
    pub cities: Pool,
    pub pcs: Pool,
    pub places: Places,
    pub recs: Vec<Rec>,
}

impl Gathered {
    /// A record says what an entry says.
    pub open spec fn tells(&self, r: Rec, e: Entry) -> bool {
        &&& r.lat == e.lat
        &&& r.lon == e.lon
        &&& r.street < self.streets.size() && self.streets.text(r.street as int) == e.street
        &&& r.hn < self.hns.size() && self.hns.text(r.hn as int) == e.hn
        &&& r.place < self.places.list@.len()
        &&& names(self.cities, self.places.list@[r.place as int].0, e.city)
        &&& names(self.pcs, self.places.list@[r.place as int].1, e.pc)
    }

    pub open spec fn pools_ok(&self) -> bool {
        &&& self.streets.wf()
        &&& self.hns.wf()
        &&& self.cities.wf()
        &&& self.pcs.wf()
        &&& self.places.wf()
    }

    /// The places are these pairs of city and postcode, in order.
    pub open spec fn lists(&self, ps: Seq<(Seq<u8>, Seq<u8>)>) -> bool {
        &&& self.places.list@.len() == ps.len()
        &&& forall|i: int|
            0 <= i < ps.len() ==> names(self.cities, (#[trigger] self.places.list@[i]).0, ps[i].0)
                && names(self.pcs, self.places.list@[i].1, ps[i].1)
    }

    /// The records are those of the entries, in order.
    pub open spec fn holds(&self, es: Seq<Entry>) -> bool {
        &&& self.pools_ok()
        &&& es.len() < u32::MAX
        &&& self.streets.all() == uniq(es, street_text(), true)
        &&& self.hns.all() == uniq(es, hn_text(), true)
        &&& self.cities.all() == uniq(es, city_text(), false)
        &&& self.pcs.all() == uniq(es, pc_text(), false)
        &&& self.lists(places_of(es))
        &&& self.recs@.len() == es.len()
        &&& forall|i: int| 0 <= i < es.len() ==> self.tells(#[trigger] self.recs@[i], es[i])
    }
}

proof fn lemma_uniq_len(es: Seq<Entry>, f: spec_fn(Entry) -> Seq<u8>, all: bool)
    ensures
        uniq(es, f, all).len() <= es.len(),
    decreases es.len(),
{
    if es.len() > 0 {
        lemma_uniq_len(es.drop_last(), f, all);
    }
}

proof fn lemma_places_len(es: Seq<Entry>)
    ensures
        places_of(es).len() <= es.len(),
    decreases es.len(),
{
    if es.len() > 0 {
        lemma_places_len(es.drop_last());
    }
}

/// Two numbers of a pool are one where their texts are.
proof fn lemma_names_one(p: Pool, a: u32, b: u32, s: Seq<u8>, t: Seq<u8>)
    requires
        p.wf(),
        names(p, a, s),
        names(p, b, t),
    ensures
        (a == b) == (s == t),
{
    assert(p.all().len() == p.size());
    if s.len() > 0 && t.len() > 0 {
        assert(p.all()[a as int] == s);
        assert(p.all()[b as int] == t);
    } else if s.len() == 0 && t.len() == 0 {
        assert(s =~= t);
    }
}

proof fn lemma_names_grow(a: Pool, b: Pool, id: u32, s: Seq<u8>)
    requires
        a.wf(),
        b.wf(),
        grew(a.all(), b.all()),
        names(a, id, s),
    ensures
        names(b, id, s),
{
    if s.len() > 0 {
        lemma_pool_grows(a, b, id);
    }
}

/// A place is kept once, whatever number its city and postcode were given.
proof fn lemma_lists(o: Gathered, g: Gathered, es: Seq<Entry>, e: Entry, c: u32, p: u32)
    requires
        o.pools_ok(),
        g.pools_ok(),
        o.lists(places_of(es)),
        grew(o.cities.all(), g.cities.all()),
        grew(o.pcs.all(), g.pcs.all()),
        names(g.cities, c, e.city),
        names(g.pcs, p, e.pc),
        g.places.list@ == (if o.places.list@.contains((c, p)) {
            o.places.list@
        } else {
            o.places.list@.push((c, p))
        }),
    ensures
        g.lists(places_of(es.push(e))),
{
    let ps = places_of(es);
    let l = o.places.list@;
    let v = (e.city, e.pc);
    assert(es.push(e).drop_last() =~= es);
    assert forall|i: int| 0 <= i < ps.len() implies names(g.cities, (#[trigger] l[i]).0, ps[i].0)
        && names(g.pcs, l[i].1, ps[i].1) && (l[i] == (c, p)) == (ps[i] == v) by {
        lemma_names_grow(o.cities, g.cities, l[i].0, ps[i].0);
        lemma_names_grow(o.pcs, g.pcs, l[i].1, ps[i].1);
        lemma_names_one(g.cities, l[i].0, c, ps[i].0, e.city);
        lemma_names_one(g.pcs, l[i].1, p, ps[i].1, e.pc);
    }
    if l.contains((c, p)) {
        let i = l.index_of((c, p));
        assert(ps[i] == v);
    }
    if ps.contains(v) {
        let i = ps.index_of(v);
        assert(l[i] == (c, p));
    }
    let more = places_of(es.push(e));
    assert forall|i: int| 0 <= i < more.len() implies names(
        g.cities,
        (#[trigger] g.places.list@[i]).0,
        more[i].0,
    ) && names(g.pcs, g.places.list@[i].1, more[i].1) by {
        if i < l.len() {
            assert(g.places.list@[i] == l[i]);
        }
    }
}

fn begin() -> (g: Gathered)
    ensures
        g.holds(Seq::empty()),
{
    Gathered {
        streets: Pool::new(),
        hns: Pool::new(),
        cities: Pool::new(),
        pcs: Pool::new(),
        places: Places::new(),
        recs: Vec::new(),
    }
}

/// Interns a text, or gives no number to an empty one.
fn intern_some(p: &mut Pool, s: &[u8]) -> (id: u32)
    requires
        old(p).wf(),
        old(p).size() < u32::MAX,
    ensures
        final(p).wf(),
        names(*final(p), id, s@),
        final(p).all() == (if s@.len() == 0 || old(p).all().contains(s@) {
            old(p).all()
        } else {
            old(p).all().push(s@)
        }),
{
    if s.len() == 0 {
        u32::MAX
    } else {
        p.intern(s)
    }
}

/// A pool that has only grown still gives the texts it gave.
proof fn lemma_pool_grows(a: Pool, b: Pool, id: u32)
    requires
        a.wf(),
        b.wf(),
        a.all() == b.all() || (b.all().len() == a.all().len() + 1 && b.all().drop_last() == a.all()),
        id < a.size(),
    ensures
        id < b.size(),
        b.text(id as int) == a.text(id as int),
{
    assert(a.all().len() == a.size() && b.all().len() == b.size());
    assert(a.all()[id as int] == a.text(id as int));
    assert(b.all()[id as int] == b.text(id as int));
    if a.all() != b.all() {
        assert(b.all().drop_last()[id as int] == b.all()[id as int]);
    }
}

spec fn grew(a: Seq<Seq<u8>>, b: Seq<Seq<u8>>) -> bool {
    a == b || (b.len() == a.len() + 1 && b.drop_last() == a)
}

/// Adds an entry; false where there is no number left for it.
#[verifier::rlimit(60)]
fn add_entry(
    g: &mut Gathered,
    lat: i32,
    lon: i32,
    hn: &[u8],
    street: &[u8],
    city: &[u8],
    pc: &[u8],
    Ghost(es): Ghost<Seq<Entry>>,
) -> (fine: bool)
    requires
        old(g).holds(es),
    ensures
        fine ==> final(g).holds(
            es.push(Entry { lat, lon, hn: hn@, street: street@, city: city@, pc: pc@ }),
        ),
        !fine ==> es.len() + 1 >= u32::MAX,
{
    let n: usize = g.recs.len();
    if n as u64 >= u32::MAX as u64 - 1 {
        return false;
    }
    let ghost o = *g;
    let ghost e = Entry { lat, lon, hn: hn@, street: street@, city: city@, pc: pc@ };
    let ghost all = es.push(e);
    proof {
        assert(all.drop_last() =~= es);
        lemma_uniq_len(es, street_text(), true);
        lemma_uniq_len(es, hn_text(), true);
        lemma_uniq_len(es, city_text(), false);
        lemma_uniq_len(es, pc_text(), false);
        lemma_places_len(es);
        assert(o.streets.all().len() == o.streets.size());
        assert(o.hns.all().len() == o.hns.size());
        assert(o.cities.all().len() == o.cities.size());
        assert(o.pcs.all().len() == o.pcs.size());
    }
    let s: u32 = g.streets.intern(street);
    let h: u32 = g.hns.intern(hn);
    let c: u32 = intern_some(&mut g.cities, city);
    let p: u32 = intern_some(&mut g.pcs, pc);
    let place: u32 = g.places.place_id(c, p);
    let r = Rec { lat, lon, hn: h, street: s, place };
    g.recs.push(r);
    proof {
        assert(grew(o.streets.all(), g.streets.all())) by {
            assert(o.streets.all().push(street@).drop_last() =~= o.streets.all());
        }
        assert(grew(o.hns.all(), g.hns.all())) by {
            assert(o.hns.all().push(hn@).drop_last() =~= o.hns.all());
        }
        assert(grew(o.cities.all(), g.cities.all())) by {
            assert(o.cities.all().push(city@).drop_last() =~= o.cities.all());
        }
        assert(grew(o.pcs.all(), g.pcs.all())) by {
            assert(o.pcs.all().push(pc@).drop_last() =~= o.pcs.all());
        }
        lemma_lists(o, *g, es, e, c, p);
        assert forall|i: int| 0 <= i < all.len() implies g.tells(#[trigger] g.recs@[i], all[i]) by {
            if i < es.len() {
                let x = o.recs@[i];
                assert(g.recs@[i] == x);
                assert(o.tells(x, es[i]));
                lemma_pool_grows(o.streets, g.streets, x.street);
                lemma_pool_grows(o.hns, g.hns, x.hn);
                assert(g.places.list@[x.place as int] == o.places.list@[x.place as int]);
                let (a, b) = o.places.list@[x.place as int];
                if es[i].city.len() > 0 {
                    lemma_pool_grows(o.cities, g.cities, a);
                }
                if es[i].pc.len() > 0 {
                    lemma_pool_grows(o.pcs, g.pcs, b);
                }
            }
        }
    }
    true
}

// ----------------------------------------------------------------- entries

/// The node has both a street and a number.
pub open spec fn accepted(d: DoorModel) -> bool {
    d.street.len() > 0 && d.hn.len() > 0
}

pub open spec fn door_entry(d: DoorModel) -> Entry {
    Entry { lat: d.lat, lon: d.lon, hn: d.hn, street: d.street, city: d.city, pc: d.pc }
}

/// The entries of node records.
pub open spec fn door_entries(ds: Seq<DoorModel>) -> Seq<Entry>
    decreases ds.len(),
{
    if ds.len() == 0 {
        Seq::empty()
    } else if accepted(ds.last()) {
        door_entries(ds.drop_last()).push(door_entry(ds.last()))
    } else {
        door_entries(ds.drop_last())
    }
}

/// The entry of the last node with an id, among those that have one.
pub open spec fn entry_of(ds: Seq<DoorModel>, id: u64) -> Option<int>
    decreases ds.len(),
{
    if ds.len() == 0 {
        None
    } else if accepted(ds.last()) && ds.last().id == id {
        Some(door_entries(ds.drop_last()).len() as int)
    } else {
        entry_of(ds.drop_last(), id)
    }
}

/// A node of a line along which numbers are interpolated.
pub open spec fn on_line(ls: Seq<LineModel>, id: u64) -> bool {
    exists|w: int, k: int|
        0 <= w < ls.len() && ls[w].kind == 2 && 0 <= k < ls[w].refs.len() && (
        #[trigger] ls[w].refs[k]) as u64 == id
}

/// The entry from which, or to which, numbers are interpolated at a node.
pub open spec fn anchor(ds: Seq<DoorModel>, ls: Seq<LineModel>, id: u64) -> Option<int> {
    if on_line(ls, id) {
        entry_of(ds, id)
    } else {
        None
    }
}

/// The map tells where the anchors are.
pub open spec fn located(points: Map<u64, u32>, ds: Seq<DoorModel>, ls: Seq<LineModel>) -> bool {
    forall|id: u64| #[trigger] told_at(points, id) == anchor(ds, ls, id)
}

pub open spec fn told_at(points: Map<u64, u32>, id: u64) -> Option<int> {
    if points.contains_key(id) {
        Some(points[id] as int)
    } else {
        None
    }
}

/// The anchors along a line.
pub open spec fn anchors(ds: Seq<DoorModel>, ls: Seq<LineModel>, refs: Seq<i64>) -> Seq<int>
    decreases refs.len(),
{
    if refs.len() == 0 {
        Seq::empty()
    } else {
        let rest = anchors(ds, ls, refs.drop_last());
        match anchor(ds, ls, refs.last() as u64) {
            None => rest,
            Some(i) => rest.push(i),
        }
    }
}

/// The coordinate `i` of `n` parts of the way from `a` to `b`: the part of the
/// way, what it comes to and the sum each kept to fifty-three bits.
pub open spec fn between(a: i32, b: i32, i: int, n: int) -> i32 {
    let (f, k) = keep(i, n);
    let (p, e) = keep((b - a) * f, pow2(k) as int);
    let (m, d) = keep(a * pow2(e) + p, pow2(e) as int);
    in_word(nearest(m, pow2(d) as int))
}

/// A whole number, or the end of the range that it lies beyond.
pub open spec fn in_word(x: int) -> i32 {
    if x < i32::MIN {
        i32::MIN
    } else if x > i32::MAX {
        i32::MAX
    } else {
        x as i32
    }
}

/// The number that digits write out, an optional plus sign before them.
pub open spec fn plain_number(s: Seq<u8>) -> Option<u32> {
    let d = if s.len() > 0 && s[0] == 43 {
        s.drop_first()
    } else {
        s
    };
    if d.len() == 0 || !all_digits(d) || digits_value(d) > u32::MAX {
        None
    } else {
        Some(digits_value(d) as u32)
    }
}

pub open spec fn all_digits(s: Seq<u8>) -> bool {
    forall|i: int| 0 <= i < s.len() ==> 48 <= #[trigger] s[i] <= 57
}

pub open spec fn digits_value(s: Seq<u8>) -> int
    decreases s.len(),
{
    if s.len() == 0 {
        0
    } else {
        10 * digits_value(s.drop_last()) + (s.last() - 48)
    }
}

/// By how much numbers go up along a line.
pub open spec fn step_of(rule: Seq<u8>) -> int {
    let r = lower(rule);
    if r == word("all") {
        1
    } else if r == word("even") || r == word("odd") {
        2
    } else {
        match plain_number(r) {
            Some(s) => if s > 0 {
                s as int
            } else {
                1
            },
            None => 1,
        }
    }
}

/// The rule lets the number stand.
pub open spec fn allowed(rule: Seq<u8>, k: int) -> bool {
    let r = lower(rule);
    if r == word("even") {
        k % 2 == 0
    } else if r == word("odd") {
        k % 2 == 1
    } else {
        true
    }
}

/// The entry for number `k` between two.
pub open spec fn mid_entry(a: Entry, b: Entry, na: int, nb: int, k: int) -> Entry {
    Entry {
        lat: between(a.lat, b.lat, k - na, nb - na),
        lon: between(a.lon, b.lon, k - na, nb - na),
        hn: encode_utf8(decimal_of(k as nat)),
        street: a.street,
        city: a.city,
        pc: a.pc,
    }
}

/// The entries for the numbers from `k` on.
pub open spec fn mid_entries(a: Entry, b: Entry, na: int, nb: int, rule: Seq<u8>, k: int) -> Seq<Entry>
    decreases nb - k,
    when step_of(rule) >= 1
{
    if k > nb {
        Seq::empty()
    } else {
        let rest = if k + step_of(rule) > nb {
            Seq::empty()
        } else {
            mid_entries(a, b, na, nb, rule, k + step_of(rule))
        };
        if allowed(rule, k) && k != na && k != nb {
            seq![mid_entry(a, b, na, nb, k)] + rest
        } else {
            rest
        }
    }
}

/// The entries between two neighbours with numbers that rise, but not by too
/// much.
pub open spec fn pair_entries(a: Entry, b: Entry, rule: Seq<u8>) -> Seq<Entry> {
    let (na, nb) = (hn_bytes(a.hn), hn_bytes(b.hn));
    if na == u32::MAX || nb == u32::MAX || nb <= na || nb - na > 2000 {
        Seq::empty()
    } else {
        mid_entries(a, b, na as int, nb as int, rule, na as int)
    }
}

/// The entries along a line between each anchor and the next, `n` of them.
pub open spec fn row_entries(es: Seq<Entry>, at: Seq<int>, rule: Seq<u8>, n: int) -> Seq<Entry>
    decreases n,
{
    if n <= 1 {
        Seq::empty()
    } else {
        row_entries(es, at, rule, n - 1) + pair_entries(es[at[n - 2]], es[at[n - 1]], rule)
    }
}

/// What is summed of an outline: latitudes, longitudes, and how many.
pub struct Sums {
    pub lat: int,
    pub lon: int,
    pub k: int,
}

/// Every `stride`-th node from `i` on that is known and not the last one again.
pub open spec fn outline(
    need: BitMap,
    coords: Seq<(i32, i32)>,
    refs: Seq<i64>,
    i: int,
    stride: int,
    last: u64,
    s: Sums,
) -> Sums
    decreases refs.len() - i,
    when stride >= 1
{
    if i >= refs.len() {
        s
    } else {
        let r = refs[i] as u64;
        let next = if i + stride > refs.len() {
            refs.len() as int
        } else {
            i + stride
        };
        if r == last || !marked(need, r) {
            outline(need, coords, refs, next, stride, last, s)
        } else {
            let c = coords[ones(need.words@, r as int)];
            if c.0 == 0 && c.1 == 0 {
                outline(need, coords, refs, next, stride, r, s)
            } else {
                outline(
                    need,
                    coords,
                    refs,
                    next,
                    stride,
                    r,
                    Sums { lat: s.lat + c.0, lon: s.lon + c.1, k: s.k + 1 },
                )
            }
        }
    }
}

/// How many nodes of an outline are passed over.
pub open spec fn stride_of(n: int) -> int {
    if n == 0 {
        1
    } else {
        (n + 7) / 8
    }
}

/// The middle of an outline, over at most eight of its nodes.
pub open spec fn middle(need: BitMap, coords: Seq<(i32, i32)>, refs: Seq<i64>) -> Option<
    (i32, i32),
> {
    let s = outline(
        need,
        coords,
        refs,
        0,
        stride_of(refs.len() as int),
        u64::MAX,
        Sums { lat: 0, lon: 0, k: 0 },
    );
    if s.k == 0 {
        None
    } else {
        Some((cut_div(s.lat, s.k) as i32, cut_div(s.lon, s.k) as i32))
    }
}

/// The entries of a way record.
pub open spec fn line_entries(
    need: BitMap,
    coords: Seq<(i32, i32)>,
    ds: Seq<DoorModel>,
    ls: Seq<LineModel>,
    l: LineModel,
) -> Seq<Entry> {
    if l.kind == 1 {
        if l.street.len() == 0 || l.hn.len() == 0 {
            Seq::empty()
        } else {
            match middle(need, coords, l.refs) {
                None => Seq::empty(),
                Some((lat, lon)) => seq![
                    Entry { lat, lon, hn: l.hn, street: l.street, city: l.city, pc: l.pc },
                ],
            }
        }
    } else {
        let at = anchors(ds, ls, l.refs);
        row_entries(door_entries(ds), at, l.rule, at.len() as int)
    }
}

/// The entries of the nodes, then those of the first `n` ways.
pub open spec fn all_entries(
    need: BitMap,
    coords: Seq<(i32, i32)>,
    ds: Seq<DoorModel>,
    ls: Seq<LineModel>,
    n: int,
) -> Seq<Entry>
    decreases n,
{
    if n <= 0 {
        door_entries(ds)
    } else {
        all_entries(need, coords, ds, ls, n - 1) + line_entries(need, coords, ds, ls, ls[n - 1])
    }
}

// ----------------------------------------------------------- gathering them

/// Why addresses could not be gathered.
#[derive(Clone, Copy, PartialEq, Eq, Debug, Structural)]
pub enum Unread {
    /// A record is broken.
    Broken,
    /// More addresses than there are numbers for.
    TooMany,
}

/// What gathering the addresses of records gives.
pub open spec fn addresses_read(
    nodes: Seq<u8>,
    ways: Seq<u8>,
    need: BitMap,
    coords: Seq<(i32, i32)>,
    r: Result<Gathered, Unread>,
) -> bool {
    match (doors_from(nodes, 0), lines_from(ways, 0)) {
        (Some(ds), Some(ls)) => {
            let es = all_entries(need, coords, ds, ls, ls.len() as int);
            match r {
                Ok(g) => g.holds(es),
                Err(e) => e == Unread::TooMany && es.len() + 1 >= u32::MAX,
            }
        },
        _ => r matches Err(e) && e == Unread::Broken,
    }
}

/// The nodes of all lines along which numbers are interpolated.
pub fn interpolation_refs(ls: &Vec<Line>) -> (r: HashSet<u64>)
    ensures
        forall|id: u64| #[trigger] r@.contains(id) == on_line(line_models(ls@), id),
{
    broadcast use vstd::std_specs::hash::group_hash_axioms;

    let ghost ms = line_models(ls@);
    let mut r: HashSet<u64> = HashSet::new();
    let mut w: usize = 0;
    while w < ls.len()
        invariant
            ms == line_models(ls@),
            w <= ls@.len(),
            forall|id: u64| #[trigger] r@.contains(id) == on_line(ms.take(w as int), id),
        decreases ls@.len() - w,
    {
        let ghost m = ms[w as int];
        assert(m.refs == ls@[w as int].refs@ && m.kind == ls@[w as int].kind);
        let ghost r0 = r@;
        let mut k: usize = 0;
        if ls[w].kind == 2 {
            while k < ls[w].refs.len()
                invariant
                    w < ls@.len(),
                    k <= ls@[w as int].refs@.len(),
                    forall|id: u64| #[trigger]
                        r@.contains(id) == (r0.contains(id) || exists|x: int|
                            0 <= x < k && (#[trigger] ls@[w as int].refs@[x]) as u64 == id),
                decreases ls@[w as int].refs@.len() - k,
            {
                let id: u64 = #[verifier::truncate] (ls[w].refs[k] as u64);
                let ghost r1 = r@;
                r.insert(id);
                proof {
                    assert forall|j: u64| #[trigger] r@.contains(j) == (r0.contains(j) || exists|
                        x: int,
                    |
                        0 <= x < k + 1 && (#[trigger] ls@[w as int].refs@[x]) as u64 == j) by {
                        assert(r1.contains(j) == (r0.contains(j) || exists|x: int|
                            0 <= x < k && (#[trigger] ls@[w as int].refs@[x]) as u64 == j));
                        if j == id {
                            assert(ls@[w as int].refs@[k as int] as u64 == j);
                        }
                    }
                }
                k += 1;
            }
        }
        proof {
            let (a, b) = (ms.take(w as int), ms.take(w + 1));
            assert forall|id: u64| #[trigger] r@.contains(id) == on_line(b, id) by {
                assert(r0.contains(id) == on_line(a, id));
                if on_line(a, id) {
                    let (x, y) = choose|x: int, y: int|
                        0 <= x < a.len() && a[x].kind == 2 && 0 <= y < a[x].refs.len() && (
                        #[trigger] a[x].refs[y]) as u64 == id;
                    assert(b[x].refs[y] as u64 == id);
                }
                if on_line(b, id) && !on_line(a, id) {
                    let (x, y) = choose|x: int, y: int|
                        0 <= x < b.len() && b[x].kind == 2 && 0 <= y < b[x].refs.len() && (
                        #[trigger] b[x].refs[y]) as u64 == id;
                    if x < w {
                        assert(a[x].refs[y] as u64 == id);
                    }
                    assert(x == w);
                    assert(ls@[w as int].refs@[y] as u64 == id);
                }
                if m.kind == 2 && r@.contains(id) && !r0.contains(id) {
                    let y = choose|y: int|
                        0 <= y < m.refs.len() && (#[trigger] ls@[w as int].refs@[y]) as u64 == id;
                    assert(b[w as int].refs[y] as u64 == id);
                }
            }
        }
        w += 1;
    }
    assert(ms.take(w as int) =~= ms);
    r
}

/// Adds the entries of the node records, and says where those are from which
/// numbers may be interpolated.
fn add_doors(g: &mut Gathered, ds: &Vec<Door>, wanted: &HashSet<u64>, Ghost(ls): Ghost<
    Seq<LineModel>,
>) -> (r: Option<HashMap<u64, u32>>)
    requires
        old(g).holds(Seq::empty()),
        forall|id: u64| #[trigger] wanted@.contains(id) == on_line(ls, id),
    ensures
        match r {
            None => door_entries(door_models(ds@)).len() + 1 >= u32::MAX,
            Some(m) => {
                &&& final(g).holds(door_entries(door_models(ds@)))
                &&& located(m@, door_models(ds@), ls)
            },
        },
{
    broadcast use vstd::std_specs::hash::group_hash_axioms;

    let ghost ms = door_models(ds@);
    let mut m: HashMap<u64, u32> = HashMap::new();
    let mut i: usize = 0;
    assert(ms.take(0) =~= Seq::<DoorModel>::empty());
    while i < ds.len()
        invariant
            ms == door_models(ds@),
            forall|id: u64| #[trigger] wanted@.contains(id) == on_line(ls, id),
            i <= ds@.len(),
            g.holds(door_entries(ms.take(i as int))),
            located(m@, ms.take(i as int), ls),
        decreases ds@.len() - i,
    {
        let ghost (a, b) = (ms.take(i as int), ms.take(i + 1));
        let ghost es = door_entries(a);
        let d: &Door = &ds[i];
        proof {
            assert(b.drop_last() =~= a);
            assert(b.last() == ms[i as int]);
            assert(ms[i as int] == d.model());
        }
        let ghost m0 = m@;
        if d.street.len() > 0 && d.hn.len() > 0 {
            let at: usize = g.recs.len();
            if !add_entry(g, d.lat, d.lon, d.hn, d.street, d.city, d.pc, Ghost(es)) {
                proof {
                    lemma_door_count(ms, i + 1, ms.len() as int);
                    assert(ms.take(ms.len() as int) =~= ms);
                }
                return None;
            }
            if wanted.contains(&d.id) {
                m.insert(d.id, at as u32);
            }
        }
        proof {
            assert forall|id: u64| #[trigger] told_at(m@, id) == anchor(b, ls, id) by {
                assert(told_at(m0, id) == anchor(a, ls, id));
                if id == ms[i as int].id && accepted(ms[i as int]) {
                    assert(wanted@.contains(id) == on_line(ls, id));
                } else {
                    assert(m@.contains_key(id) == m0.contains_key(id));
                }
            }
        }
        i += 1;
    }
    assert(ms.take(i as int) =~= ms);
    Some(m)
}

proof fn lemma_door_count(ms: Seq<DoorModel>, a: int, b: int)
    requires
        0 <= a <= b <= ms.len(),
    ensures
        door_entries(ms.take(a)).len() <= door_entries(ms.take(b)).len(),
    decreases b - a,
{
    if a < b {
        lemma_door_count(ms, a, b - 1);
        assert(ms.take(b).drop_last() =~= ms.take(b - 1));
    }
}

/// The middle of a building's outline.
#[verifier::rlimit(40)]
fn find_middle(need: &BitMap, coords: &[(i32, i32)], refs: &Vec<i64>) -> (r: Option<(i32, i32)>)
    requires
        need.wf(),
        need.ranked(),
        need.room() <= u64::MAX,
        ones(need.words@, need.room()) <= coords@.len(),
    ensures
        r == middle(*need, coords@, refs@),
{
    let n: usize = refs.len();
    let extra: usize = if n % 8 == 0 {
        0
    } else {
        1
    };
    let stride: usize = if n == 0 {
        1
    } else {
        n / 8 + extra
    };
    assert(stride == stride_of(n as int));
    let ghost goal = outline(
        *need,
        coords@,
        refs@,
        0,
        stride as int,
        u64::MAX,
        Sums { lat: 0, lon: 0, k: 0 },
    );
    let (mut lat, mut lon, mut k): (i128, i128, i128) = (0, 0, 0);
    let mut last: u64 = u64::MAX;
    let mut i: usize = 0;
    while i < n
        invariant
            need.wf(),
            need.ranked(),
            need.room() <= u64::MAX,
            ones(need.words@, need.room()) <= coords@.len(),
            n == refs@.len(),
            stride >= 1,
            i <= n,
            0 <= k <= i,
            -0x8000_0000 * k <= lat <= 0x7FFF_FFFF * k,
            -0x8000_0000 * k <= lon <= 0x7FFF_FFFF * k,
            goal == outline(
                *need,
                coords@,
                refs@,
                i as int,
                stride as int,
                last,
                Sums { lat: lat as int, lon: lon as int, k: k as int },
            ),
        decreases n - i,
    {
        let r: u64 = #[verifier::truncate] (refs[i] as u64);
        if r != last && need.get(r) {
            proof {
                crate::bitmap::lemma_ones(need.words@, r as int, r + 1);
                crate::bitmap::lemma_ones(need.words@, r + 1, need.room());
                assert(crate::bitmap::bit_at(need.words@, r as int));
            }
            last = r;
            let at: u64 = need.rank1(r);
            let m: usize = coords.len();
            assert(at < m);
            let c: (i32, i32) = coords[at as usize];
            if !(c.0 == 0 && c.1 == 0) {
                lat = lat + c.0 as i128;
                lon = lon + c.1 as i128;
                k = k + 1;
            }
        }
        i = if stride > n - i {
            n
        } else {
            i + stride
        };
    }
    if k == 0 {
        return None;
    }
    Some((mean(lat, k), mean(lon, k)))
}

fn mean(sum: i128, k: i128) -> (r: i32)
    requires
        0 < k <= 0xFFFF_FFFF_FFFF_FFFF,
        -0x8000_0000 * k <= sum <= 0x7FFF_FFFF * k,
    ensures
        r == cut_div(sum as int, k as int) as i32,
{
    let q: i128 = if sum >= 0 {
        sum / k
    } else {
        -((-sum) / k)
    };
    #[verifier::truncate]
    (q as i32)
}

/// The anchors along a line.
fn find_anchors(refs: &Vec<i64>, points: &HashMap<u64, u32>, Ghost(ds): Ghost<Seq<DoorModel>>, Ghost(
    ls,
): Ghost<Seq<LineModel>>) -> (r: Vec<u32>)
    requires
        located(points@, ds, ls),
    ensures
        Seq::new(r@.len(), |i: int| r@[i] as int) == anchors(ds, ls, refs@),
{
    broadcast use vstd::std_specs::hash::group_hash_axioms;

    let mut r: Vec<u32> = Vec::new();
    let mut k: usize = 0;
    assert(refs@.take(0) =~= Seq::<i64>::empty());
    assert(Seq::new(r@.len(), |i: int| r@[i] as int) =~= Seq::<int>::empty());
    while k < refs.len()
        invariant
            located(points@, ds, ls),
            k <= refs@.len(),
            Seq::new(r@.len(), |i: int| r@[i] as int) == anchors(ds, ls, refs@.take(k as int)),
        decreases refs@.len() - k,
    {
        let id: u64 = #[verifier::truncate] (refs[k] as u64);
        let ghost r0 = r@;
        proof {
            assert(refs@.take(k + 1).drop_last() =~= refs@.take(k as int));
            assert(told_at(points@, id) == anchor(ds, ls, id));
        }
        match points.get(&id) {
            Some(i) => {
                r.push(*i);
                assert(Seq::new(r@.len(), |i: int| r@[i] as int) =~= Seq::new(
                    r0.len(),
                    |i: int| r0[i] as int,
                ).push(*i as int));
            },
            None => {},
        }
        k += 1;
    }
    assert(refs@.take(k as int) =~= refs@);
    r
}

pub fn read_number(s: &Vec<u8>) -> (r: Option<u32>)
    ensures
        r == plain_number(s@),
{
    let from: usize = if s.len() > 0 && s[0] == 43 {
        1
    } else {
        0
    };
    let ghost d = if s@.len() > 0 && s@[0] == 43 {
        s@.drop_first()
    } else {
        s@
    };
    assert(d =~= s@.subrange(from as int, s@.len() as int));
    if from == s.len() {
        return None;
    }
    let mut n: u64 = 0;
    let mut over: bool = false;
    let mut i: usize = from;
    assert(d.take(0) =~= Seq::<u8>::empty());
    while i < s.len()
        invariant
            d == s@.subrange(from as int, s@.len() as int),
            d == (if s@.len() > 0 && s@[0] == 43 {
                s@.drop_first()
            } else {
                s@
            }),
            from <= i <= s@.len(),
            all_digits(d.take(i - from)),
            over ==> digits_value(d.take(i - from)) > u32::MAX,
            !over ==> n == digits_value(d.take(i - from)) && n <= u32::MAX,
        decreases s@.len() - i,
    {
        let b: u8 = s[i];
        proof {
            assert(d[i - from] == b);
            assert(d.take(i + 1 - from).drop_last() =~= d.take(i - from));
            assert(d.take(i + 1 - from).last() == b);
        }
        if b < 48 || b > 57 {
            assert(!all_digits(d)) by {
                assert(!(48 <= d[i - from] <= 57));
            }
            return None;
        }
        if !over {
            n = 10 * n + (b - 48) as u64;
            if n > u32::MAX as u64 {
                over = true;
            }
        }
        proof {
            let t = d.take(i + 1 - from);
            assert forall|x: int| 0 <= x < t.len() implies 48 <= #[trigger] t[x] <= 57 by {
                if x < i - from {
                    assert(d.take(i - from)[x] == t[x]);
                }
            }
        }
        i += 1;
    }
    assert(d.take(i - from) =~= d);
    if over {
        None
    } else {
        Some(n as u32)
    }
}

fn find_step(rule: &Vec<u8>, Ghost(raw): Ghost<Seq<u8>>) -> (s: u32)
    requires
        rule@ == lower(raw),
    ensures
        s == step_of(raw),
        s >= 1,
{
    if is_word(rule, "all") {
        1
    } else if is_word(rule, "even") || is_word(rule, "odd") {
        2
    } else {
        match read_number(rule) {
            Some(s) => {
                if s > 0 {
                    s
                } else {
                    1
                }
            },
            None => 1,
        }
    }
}

proof fn lemma_parts_off(x: int, y: int, z: int, v: int)
    ensures
        x * (y - z - v) == x * y - x * z - x * v,
        x * (y - z) == x * y - x * z,
        x * (y - (z + v)) == x * y - x * z - x * v,
{
    assert(x * (y - z - v) == x * y - x * z - x * v) by (nonlinear_arith);
    assert(x * (y - z) == x * y - x * z) by (nonlinear_arith);
    assert(y - (z + v) == y - z - v);
}

/// Three small errors put together.
proof fn lemma_errors(
    a: int,
    d: int,
    i: int,
    n: int,
    f: int,
    p: int,
    g: int,
    r: int,
    m: int,
    w: int,
)
    requires
        n > 0,
        p > 0,
        r > 0,
        w > 0,
        0x10_0000 * (d * f * n - d * i * p) <= n * p,
        0x10_0000 * (d * i * p - d * f * n) <= n * p,
        0x10_0000 * (g * p - d * f * r) <= p * r,
        0x10_0000 * (d * f * r - g * p) <= p * r,
        0x4_0000 * (m * r - (a * r + g) * w) <= r * w,
        0x4_0000 * ((a * r + g) * w - m * r) <= r * w,
    ensures
        0x1_0000 * (m * n - (a * n + d * i) * w) <= n * w,
        0x1_0000 * ((a * n + d * i) * w - m * n) <= n * w,
{
    let e1 = d * f * n - d * i * p;
    let e2 = g * p - d * f * r;
    let e3 = m * r - (a * r + g) * w;
    let diff = m * n - (a * n + d * i) * w;
    let all = n * p * r * w;
    let (t1, t2, t3) = ((w * r) * e1, (w * n) * e2, (p * n) * e3);
    let (u1, u2, u3) = (m * n * r * p, a * n * r * p * w, g * n * p * w);
    let (u4, u5) = (d * f * n * r * w, d * i * p * r * w);
    lemma_parts_off(p * n, m * r, a * r * w, g * w);
    assert((a * r + g) * w == a * r * w + g * w) by (nonlinear_arith);
    assert((p * n) * (m * r) == u1) by (nonlinear_arith)
        requires
            u1 == m * n * r * p,
    ;
    assert((p * n) * (a * r * w) == u2) by (nonlinear_arith)
        requires
            u2 == a * n * r * p * w,
    ;
    assert((p * n) * (g * w) == u3) by (nonlinear_arith)
        requires
            u3 == g * n * p * w,
    ;
    lemma_parts_off(w * n, g * p, d * f * r, 0);
    assert((w * n) * (g * p) == u3) by (nonlinear_arith)
        requires
            u3 == g * n * p * w,
    ;
    assert((w * n) * (d * f * r) == u4) by (nonlinear_arith)
        requires
            u4 == d * f * n * r * w,
    ;
    lemma_parts_off(w * r, d * f * n, d * i * p, 0);
    assert((w * r) * (d * f * n) == u4) by (nonlinear_arith)
        requires
            u4 == d * f * n * r * w,
    ;
    assert((w * r) * (d * i * p) == u5) by (nonlinear_arith)
        requires
            u5 == d * i * p * r * w,
    ;
    lemma_parts_off(r * p, m * n, a * n * w, d * i * w);
    assert((a * n + d * i) * w == a * n * w + d * i * w) by (nonlinear_arith);
    assert((r * p) * (m * n) == u1) by (nonlinear_arith)
        requires
            u1 == m * n * r * p,
    ;
    assert((r * p) * (a * n * w) == u2) by (nonlinear_arith)
        requires
            u2 == a * n * r * p * w,
    ;
    assert((r * p) * (d * i * w) == u5) by (nonlinear_arith)
        requires
            u5 == d * i * p * r * w,
    ;
    assert(0x10_0000 * t1 <= all && -all <= 0x10_0000 * t1) by (nonlinear_arith)
        requires
            t1 == (w * r) * e1,
            0x10_0000 * e1 <= n * p,
            -(n * p) <= 0x10_0000 * e1,
            all == n * p * r * w,
            w > 0,
            r > 0,
    ;
    assert(0x10_0000 * t2 <= all && -all <= 0x10_0000 * t2) by (nonlinear_arith)
        requires
            t2 == (w * n) * e2,
            0x10_0000 * e2 <= p * r,
            -(p * r) <= 0x10_0000 * e2,
            all == n * p * r * w,
            w > 0,
            n > 0,
    ;
    assert(0x4_0000 * t3 <= all && -all <= 0x4_0000 * t3) by (nonlinear_arith)
        requires
            t3 == (p * n) * e3,
            0x4_0000 * e3 <= r * w,
            -(r * w) <= 0x4_0000 * e3,
            all == n * p * r * w,
            p > 0,
            n > 0,
    ;
    let rp = r * p;
    assert(rp > 0) by (nonlinear_arith)
        requires
            rp == r * p,
            r > 0,
            p > 0,
    ;
    assert(all == rp * (n * w)) by (nonlinear_arith)
        requires
            all == n * p * r * w,
            rp == r * p,
    ;
    let nw = n * w;
    assert(0x1_0000 * (rp * diff) <= rp * nw && -(rp * nw) <= 0x1_0000 * (rp * diff)) by {
        assert(rp * nw >= 0) by (nonlinear_arith)
            requires
                rp > 0,
                nw == n * w,
                n > 0,
                w > 0,
        ;
    }
    assert(0x1_0000 * diff <= nw && -nw <= 0x1_0000 * diff) by (nonlinear_arith)
        requires
            0x1_0000 * (rp * diff) <= rp * nw,
            -(rp * nw) <= 0x1_0000 * (rp * diff),
            rp > 0,
    ;
}

/// A coordinate on the way from `a` to `b` is the whole number that it is
/// nearest to, unless it lies within a thousandth of the middle between two.
pub proof fn lemma_between_near(a: i32, b: i32, i: int, n: int, k: int)
    requires
        1 <= i <= n <= 2000,
        i32::MIN <= k <= i32::MAX,
        -499 * n <= 1000 * (a * n + (b - a) * i) - 1000 * (k * n) <= 499 * n,
    ensures
        between(a, b, i, n) == k,
{
    let d = b - a;
    let (f, x) = keep(i, n);
    let p = pow2(x) as int;
    assert(-1 * n <= i <= 1 * n);
    lemma_keep_off(i, n, 1);
    lemma_keep_bounds(i, n, 1);
    let e: int = 0x10_0000_0000_0000;
    let off = f * n - i * p;
    assert(e * off <= n * p && -(n * p) <= e * off) by {
        assert(1 * n * p == n * p);
    }
    assert(0x10_0000 * (d * f * n - d * i * p) <= n * p && 0x10_0000 * (d * i * p - d * f * n) <= n
        * p) by (nonlinear_arith)
        requires
            off == f * n - i * p,
            0x10_0000_0000_0000 * off <= n * p,
            -(n * p) <= 0x10_0000_0000_0000 * off,
            -0x1_0000_0000 <= d <= 0x1_0000_0000,
    {
        assert(d * f * n - d * i * p == d * off) by (nonlinear_arith)
            requires
                off == f * n - i * p,
        ;
        assert(0x10_0000 * (d * off) <= n * p && -(n * p) <= 0x10_0000 * (d * off))
            by (nonlinear_arith)
            requires
                0x10_0000_0000_0000 * off <= n * p,
                -(n * p) <= 0x10_0000_0000_0000 * off,
                -0x1_0000_0000 <= d <= 0x1_0000_0000,
        ;
    }
    let df = d * f;
    assert(-0x1_0000_0000 * p <= df <= 0x1_0000_0000 * p) by (nonlinear_arith)
        requires
            df == d * f,
            0 <= f <= p,
            -0x1_0000_0000 <= d <= 0x1_0000_0000,
    ;
    lemma_keep_off(df, p, 0x1_0000_0000);
    let (g, y) = keep(df, p);
    let r = pow2(y) as int;
    assert(0x1_0000_0000 * p * r == 0x1_0000_0000 * (p * r)) by (nonlinear_arith);
    let sum = a * r + g;
    assert(-0x4_0000_0000 * r <= sum <= 0x4_0000_0000 * r) by {
        if df >= 0 {
            lemma_keep_bounds(df, p, 0x1_0000_0000);
        } else {
            lemma_keep_bounds(-df, p, 0x1_0000_0000);
        }
        assert(-0x8000_0000 * r <= a * r <= 0x8000_0000 * r) by (nonlinear_arith)
            requires
                -0x8000_0000 <= a <= 0x8000_0000,
                r > 0,
        ;
    }
    lemma_keep_off(sum, r, 0x4_0000_0000);
    let (m, z) = keep(sum, r);
    let w = pow2(z) as int;
    assert(0x4_0000_0000 * r * w == 0x4_0000_0000 * (r * w)) by (nonlinear_arith);
    lemma_errors(a as int, d as int, i, n, f, p, g, r, m, w);
    let v = a * n + d * i;
    let (mn, vw, knw, nw) = (m * n, v * w, k * n * w, n * w);
    assert(-499 * nw <= 1000 * vw - 1000 * knw <= 499 * nw) by (nonlinear_arith)
        requires
            -499 * n <= 1000 * v - 1000 * (k * n) <= 499 * n,
            vw == v * w,
            knw == k * n * w,
            nw == n * w,
            w > 0,
    ;
    assert(nw > 0) by (nonlinear_arith)
        requires
            nw == n * w,
            n > 0,
            w > 0,
    ;
    assert(2 * mn - 2 * knw < nw && 2 * knw - 2 * mn < nw);
    assert(2 * m - 2 * (k * w) < w && 2 * (k * w) - 2 * m < w) by (nonlinear_arith)
        requires
            2 * (m * n) - 2 * (k * n * w) < n * w,
            2 * (k * n * w) - 2 * (m * n) < n * w,
            n > 0,
    ;
    lemma_nearest(m, w, k);
}

proof fn lemma_nearest(m: int, w: int, k: int)
    requires
        w > 0,
        2 * m - 2 * (k * w) < w,
        2 * (k * w) - 2 * m < w,
    ensures
        nearest(m, w) == k,
{
    if m >= 0 {
        assert((2 * m + w) / (2 * w) == k) by (nonlinear_arith)
            requires
                2 * m - 2 * (k * w) < w,
                2 * (k * w) - 2 * m < w,
                w > 0,
        ;
    } else {
        let (m2, k2) = (-m, -k);
        assert(k2 * w == -(k * w)) by (nonlinear_arith)
            requires
                k2 == -k,
        ;
        assert((2 * m2 + w) / (2 * w) == k2) by (nonlinear_arith)
            requires
                2 * m2 - 2 * (k2 * w) < w,
                2 * (k2 * w) - 2 * m2 < w,
                w > 0,
        ;
    }
}

/// Where the powers of two stay while a coordinate is found.
proof fn lemma_part(i: int, n: int, k: nat)
    requires
        1 <= i <= n <= 2000,
        k == keep(i, n).1,
        k > 0 ==> i * pow2((k - 1) as nat) < 0x10_0000_0000_0000 * n,
    ensures
        k <= 63,
        keep(i, n).0 <= pow2(k),
        pow2(63) == 0x8000_0000_0000_0000,
{
    lemma2_to64();
    lemma2_to64_rest();
    lemma_keep_bounds(i, n, 1);
    if k > 63 {
        let j = (k - 1) as nat;
        if j > 63 {
            lemma_pow2_strictly_increases(63, j);
        }
        assert(pow2(j) <= i * pow2(j)) by (nonlinear_arith)
            requires
                i >= 1,
        ;
        assert(0x10_0000_0000_0000 * n <= 0x10_0000_0000_0000 * 2000);
    }
}

/// The coordinate `i` of `n` parts of the way from `a` to `b`.
#[verifier::rlimit(40)]
pub fn find_between(a: i32, b: i32, i: u32, n: u32) -> (r: i32)
    requires
        1 <= i <= n <= 2000,
    ensures
        r == between(a, b, i as int, n as int),
{
    let (f, k): (u64, u32) = quotient(i as u64, n as u64);
    let ghost top = pow2(k as nat) as int;
    proof {
        lemma_part(i as int, n as int, k as nat);
        lemma_pow2_pos(k as nat);
    }
    let ghost way = (b - a) as int;
    assert(-0x1_0000_0000 * 0x20_0000_0000_0000 <= way * f <= 0x1_0000_0000 * 0x20_0000_0000_0000)
        by (nonlinear_arith)
        requires
            -0x1_0000_0000 <= way <= 0x1_0000_0000,
            0 <= f <= 0x20_0000_0000_0000,
    ;
    assert(-0x1_0000_0000 * top <= way * f <= 0x1_0000_0000 * top) by (nonlinear_arith)
        requires
            -0x1_0000_0000 <= way <= 0x1_0000_0000,
            0 <= f <= top,
    ;
    let along: i128 = (b as i128 - a as i128) * f as i128;
    assert(along == 0 || along >= 0x10_0000_0000_0000 || -along >= 0x10_0000_0000_0000)
        by (nonlinear_arith)
        requires
            along == way * f,
            f >= 0x10_0000_0000_0000,
    ;
    let (p, e): (i64, u32) = settle_signed(along, k);
    let unit: u128 = power(e);
    proof {
        if along >= 0 {
            lemma_keep_bounds(along as int, top, 0x1_0000_0000);
        } else {
            lemma_keep_bounds(-along as int, top, 0x1_0000_0000);
        }
        lemma2_to64();
        lemma2_to64_rest();
        if e < 63 {
            lemma_pow2_strictly_increases(e as nat, 63);
        }
        assert(-0x8000_0000 * unit <= a * unit <= 0x8000_0000 * unit) by (nonlinear_arith)
            requires
                -0x8000_0000 <= a <= 0x8000_0000,
                unit >= 1,
        ;
    }
    let sum: i128 = a as i128 * unit as i128 + p as i128;
    let (m, d): (i64, u32) = settle_signed(sum, e);
    let q: i128 = if m >= 0 {
        whole_of(m as u64, d) as i128
    } else {
        -(whole_of((-m) as u64, d) as i128)
    };
    if q < i32::MIN as i128 {
        i32::MIN
    } else if q > i32::MAX as i128 {
        i32::MAX
    } else {
        q as i32
    }
}

fn copy_of(s: &[u8]) -> (r: Vec<u8>)
    ensures
        r@ == s@,
{
    let mut r: Vec<u8> = Vec::new();
    while r.len() < s.len()
        invariant
            r@.len() <= s@.len(),
            r@ == s@.take(r@.len() as int),
        decreases s@.len() - r@.len(),
    {
        let x: u8 = s[r.len()];
        assert(s@.take(r@.len() as int).push(x) =~= s@.take(r@.len() as int + 1));
        r.push(x);
    }
    assert(s@.take(s@.len() as int) =~= s@);
    r
}

fn text_or_none(p: &Pool, id: u32, Ghost(text): Ghost<Seq<u8>>) -> (r: Vec<u8>)
    requires
        p.wf(),
        names(*p, id, text),
    ensures
        r@ == text,
{
    if id == u32::MAX {
        proof {
            assert(p.size() <= u32::MAX);
            assert(text =~= Seq::<u8>::empty());
        }
        Vec::new()
    } else {
        copy_of(p.get(id))
    }
}

/// Adds the entries between two anchors.
#[verifier::rlimit(60)]
fn add_pair(
    g: &mut Gathered,
    x: u32,
    y: u32,
    rule: &[u8],
    Ghost(es): Ghost<Seq<Entry>>,
) -> (fine: bool)
    requires
        old(g).holds(es),
        x < es.len(),
        y < es.len(),
    ensures
        fine ==> final(g).holds(es + pair_entries(es[x as int], es[y as int], rule@)),
        !fine ==> es.len() + pair_entries(es[x as int], es[y as int], rule@).len() + 1 >= u32::MAX,
{
    let ghost (ea, eb) = (es[x as int], es[y as int]);
    let (a, b): (Rec, Rec) = (g.recs[x as usize], g.recs[y as usize]);
    assert(g.tells(a, ea) && g.tells(b, eb));
    let na: u32 = hn_value(g.hns.get(a.hn));
    let nb: u32 = hn_value(g.hns.get(b.hn));
    if na == u32::MAX || nb == u32::MAX || nb <= na || nb - na > 2000 {
        assert(es + Seq::<Entry>::empty() =~= es);
        return true;
    }
    let low: Vec<u8> = lowered(rule);
    let step: u32 = find_step(&low, Ghost(rule@));
    let (even, odd): (bool, bool) = (is_word(&low, "even"), is_word(&low, "odd"));
    let street: Vec<u8> = copy_of(g.streets.get(a.street));
    let place: (u32, u32) = g.places.list[a.place as usize];
    let city: Vec<u8> = text_or_none(&g.cities, place.0, Ghost(ea.city));
    let pc: Vec<u8> = text_or_none(&g.pcs, place.1, Ghost(ea.pc));
    let ghost (ia, ib) = (na as int, nb as int);
    let ghost goal = mid_entries(ea, eb, ia, ib, rule@, ia);
    let ghost mut done = Seq::<Entry>::empty();
    let mut k: u64 = na as u64;
    proof {
        assert(es + done =~= es);
        assert(done + goal =~= goal);
    }
    while k <= nb as u64
        invariant
            na < nb,
            nb - na <= 2000,
            nb < u32::MAX,
            ia == na,
            ib == nb,
            na <= k <= nb + step,
            step >= 1,
            step == step_of(rule@),
            low@ == lower(rule@),
            even == (low@ == word("even")),
            odd == (low@ == word("odd")),
            street@ == ea.street,
            city@ == ea.city,
            pc@ == ea.pc,
            a.lat == ea.lat,
            a.lon == ea.lon,
            b.lat == eb.lat,
            b.lon == eb.lon,
            ea == es[x as int],
            eb == es[y as int],
            goal == pair_entries(ea, eb, rule@),
            g.holds(es + done),
            goal == (if k <= nb {
                done + mid_entries(ea, eb, ia, ib, rule@, k as int)
            } else {
                done
            }),
        decreases nb + step + 1 - k,
    {
        let ok: bool = if even {
            k % 2 == 0
        } else if odd {
            k % 2 == 1
        } else {
            true
        };
        assert(ok == allowed(rule@, k as int));
        let ghost rest = if k + step > nb {
            Seq::empty()
        } else {
            mid_entries(ea, eb, ia, ib, rule@, k + step)
        };
        if ok && k != na as u64 && k != nb as u64 {
            let i: u32 = k as u32 - na;
            let lat: i32 = find_between(a.lat, b.lat, i, nb - na);
            let lon: i32 = find_between(a.lon, b.lon, i, nb - na);
            let text: String = decimal(k);
            let hn: &[u8] = text.as_str().as_bytes();
            let ghost m = mid_entry(ea, eb, ia, ib, k as int);
            let ghost before = es + done;
            proof {
                assert(done + (seq![m] + rest) =~= done.push(m) + rest);
                assert(before.push(m) =~= es + done.push(m));
            }
            if !add_entry(g, lat, lon, hn, &street, &city, &pc, Ghost(before)) {
                return false;
            }
            proof {
                done = done.push(m);
            }
        }
        assert(done + Seq::<Entry>::empty() =~= done);
        k = k + step as u64;
    }
    true
}

/// Adds the entries of one way record.
#[verifier::rlimit(40)]
fn add_line(
    g: &mut Gathered,
    l: &Line,
    need: &BitMap,
    coords: &[(i32, i32)],
    points: &HashMap<u64, u32>,
    Ghost(ds): Ghost<Seq<DoorModel>>,
    Ghost(ls): Ghost<Seq<LineModel>>,
    Ghost(es): Ghost<Seq<Entry>>,
) -> (fine: bool)
    requires
        old(g).holds(es),
        need.wf(),
        need.ranked(),
        need.room() <= u64::MAX,
        ones(need.words@, need.room()) <= coords@.len(),
        located(points@, ds, ls),
        door_entries(ds).len() <= es.len(),
        es.take(door_entries(ds).len() as int) == door_entries(ds),
    ensures
        fine ==> final(g).holds(es + line_entries(*need, coords@, ds, ls, l.model())),
        !fine ==> es.len() + line_entries(*need, coords@, ds, ls, l.model()).len() + 1 >= u32::MAX,
{
    let ghost lm = l.model();
    assert(es + Seq::<Entry>::empty() =~= es);
    if l.kind == 1 {
        if l.street.len() == 0 || l.hn.len() == 0 {
            return true;
        }
        match find_middle(need, coords, &l.refs) {
            None => true,
            Some((lat, lon)) => {
                let ghost e = Entry {
                    lat,
                    lon,
                    hn: l.hn@,
                    street: l.street@,
                    city: l.city@,
                    pc: l.pc@,
                };
                assert(es.push(e) =~= es + seq![e]);
                add_entry(g, lat, lon, l.hn, l.street, l.city, l.pc, Ghost(es))
            },
        }
    } else {
        let at: Vec<u32> = find_anchors(&l.refs, points, Ghost(ds), Ghost(ls));
        let ghost ai = anchors(ds, ls, lm.refs);
        let ghost de = door_entries(ds);
        let n: usize = at.len();
        proof {
            assert(ai.len() == n);
            lemma_anchor_range(ds, ls, lm.refs);
        }
        let ghost mut done = Seq::<Entry>::empty();
        let mut i: usize = 1;
        while i < n
            invariant
                n == at@.len(),
                n == ai.len(),
                lm == l.model(),
                l.kind != 1,
                ai == anchors(ds, ls, lm.refs),
                1 <= i <= n || i == 1,
                ai == Seq::new(at@.len(), |i: int| at@[i] as int),
                de == door_entries(ds),
                de.len() <= es.len(),
                es.take(de.len() as int) == de,
                forall|x: int| 0 <= x < ai.len() ==> 0 <= (#[trigger] ai[x]) < de.len(),
                done == row_entries(de, ai, lm.rule, i as int),
                g.holds(es + done),
            decreases n - i,
        {
            let (x, y): (u32, u32) = (at[i - 1], at[i]);
            let ghost before = es + done;
            let ghost pe = pair_entries(de[x as int], de[y as int], lm.rule);
            proof {
                assert(ai[i - 1] == x && ai[i as int] == y);
                assert(before[x as int] == es.take(de.len() as int)[x as int]);
                assert(before[y as int] == es.take(de.len() as int)[y as int]);
                assert(before + pe =~= es + (done + pe));
            }
            if !add_pair(g, x, y, l.rule, Ghost(before)) {
                proof {
                    lemma_row_grows(de, ai, lm.rule, i + 1, n as int);
                }
                return false;
            }
            proof {
                done = done + pe;
            }
            i += 1;
        }
        proof {
            if n <= 1 {
                assert(row_entries(de, ai, lm.rule, n as int) =~= done);
            }
        }
        true
    }
}

proof fn lemma_row_grows(es: Seq<Entry>, at: Seq<int>, rule: Seq<u8>, a: int, b: int)
    requires
        a <= b,
    ensures
        row_entries(es, at, rule, a).len() <= row_entries(es, at, rule, b).len(),
    decreases b - a,
{
    if a < b {
        lemma_row_grows(es, at, rule, a, b - 1);
    }
}

proof fn lemma_entry_range(ds: Seq<DoorModel>, id: u64)
    ensures
        entry_of(ds, id) matches Some(i) ==> 0 <= i < door_entries(ds).len(),
    decreases ds.len(),
{
    if ds.len() > 0 {
        lemma_entry_range(ds.drop_last(), id);
    }
}

proof fn lemma_anchor_range(ds: Seq<DoorModel>, ls: Seq<LineModel>, refs: Seq<i64>)
    ensures
        forall|x: int|
            0 <= x < anchors(ds, ls, refs).len() ==> 0 <= (#[trigger] anchors(ds, ls, refs)[x])
                < door_entries(ds).len(),
    decreases refs.len(),
{
    if refs.len() > 0 {
        lemma_anchor_range(ds, ls, refs.drop_last());
        let rest = anchors(ds, ls, refs.drop_last());
        lemma_entry_range(ds, refs.last() as u64);
        assert forall|x: int| 0 <= x < anchors(ds, ls, refs).len() implies 0 <= (
        #[trigger] anchors(ds, ls, refs)[x]) < door_entries(ds).len() by {
            if x < rest.len() {
                assert(anchors(ds, ls, refs)[x] == rest[x]);
            }
        }
    }
}

proof fn lemma_all_grow(
    need: BitMap,
    coords: Seq<(i32, i32)>,
    ds: Seq<DoorModel>,
    ls: Seq<LineModel>,
    a: int,
    b: int,
)
    requires
        a <= b,
    ensures
        all_entries(need, coords, ds, ls, a).len() <= all_entries(need, coords, ds, ls, b).len(),
    decreases b - a,
{
    if a < b {
        lemma_all_grow(need, coords, ds, ls, a, b - 1);
    }
}

/// Reads the address records and gathers every point.
#[verifier::rlimit(40)]
pub fn gather_addresses(
    nodes: &[u8],
    ways: &[u8],
    need: &BitMap,
    coords: &[(i32, i32)],
) -> (r: Result<Gathered, Unread>)
    requires
        need.wf(),
        need.ranked(),
        need.room() <= u64::MAX,
        ones(need.words@, need.room()) <= coords@.len(),
    ensures
        addresses_read(nodes@, ways@, *need, coords@, r),
{
    let doors: Vec<Door> = match read_doors(nodes) {
        None => {
            return Err(Unread::Broken);
        },
        Some(v) => v,
    };
    let lines: Vec<Line> = match read_lines(ways) {
        None => {
            return Err(Unread::Broken);
        },
        Some(v) => v,
    };
    let ghost ds = door_models(doors@);
    let ghost ls = line_models(lines@);
    let mut g: Gathered = begin();
    let wanted: HashSet<u64> = interpolation_refs(&lines);
    let points: HashMap<u64, u32> = match add_doors(&mut g, &doors, &wanted, Ghost(ls)) {
        None => {
            proof {
                lemma_all_grow(*need, coords@, ds, ls, 0, ls.len() as int);
            }
            return Err(Unread::TooMany);
        },
        Some(m) => m,
    };
    let ghost de = door_entries(ds);
    let mut i: usize = 0;
    assert(de.take(de.len() as int) =~= de);
    while i < lines.len()
        invariant
            need.wf(),
            need.ranked(),
            need.room() <= u64::MAX,
            ones(need.words@, need.room()) <= coords@.len(),
            ls == line_models(lines@),
            ds == door_models(doors@),
            doors_from(nodes@, 0) == Some(ds),
            lines_from(ways@, 0) == Some(ls),
            de == door_entries(ds),
            located(points@, ds, ls),
            i <= lines@.len(),
            g.holds(all_entries(*need, coords@, ds, ls, i as int)),
            de.len() <= all_entries(*need, coords@, ds, ls, i as int).len(),
            all_entries(*need, coords@, ds, ls, i as int).take(de.len() as int) == de,
        decreases lines@.len() - i,
    {
        let ghost es = all_entries(*need, coords@, ds, ls, i as int);
        assert(ls[i as int] == lines@[i as int].model());
        if !add_line(
            &mut g,
            &lines[i],
            need,
            coords,
            &points,
            Ghost(ds),
            Ghost(ls),
            Ghost(es),
        ) {
            proof {
                lemma_all_grow(*need, coords@, ds, ls, i + 1, ls.len() as int);
            }
            return Err(Unread::TooMany);
        }
        proof {
            let more = all_entries(*need, coords@, ds, ls, i + 1);
            assert(more.take(de.len() as int) =~= es.take(de.len() as int));
        }
        i += 1;
    }
    Ok(g)
}

} // verus!

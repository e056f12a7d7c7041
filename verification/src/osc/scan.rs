//! Reading a change file, one element at a time.

use vstd::prelude::*;
use crate::osc::markup::{attr, attr_of, unescape, unescaped};
use crate::osc::numerals::{deg_e7, degrees_of, id_of, read_id, read_ref, ref_of};
use crate::text::{is_word, word};

verus! {

/// The section an element stands in.
#[derive(Clone, Copy, PartialEq, Eq, Structural, Debug)]
pub enum Section {
    Create,
    Modify,
    Delete,
}

/// How often something was seen in each section.
#[derive(Clone, Copy, Debug)]
pub struct Tally {
    pub created: u64,
    pub modified: u64,
    pub deleted: u64,
}

impl Tally {
    pub open spec fn at(&self, s: Section) -> u64 {
        match s {
            Section::Create => self.created,
            Section::Modify => self.modified,
            Section::Delete => self.deleted,
        }
    }

    pub open spec fn more(&self, s: Section) -> Tally {
        match s {
            Section::Create => Tally { created: (self.created + 1) as u64, ..*self },
            Section::Modify => Tally { modified: (self.modified + 1) as u64, ..*self },
            Section::Delete => Tally { deleted: (self.deleted + 1) as u64, ..*self },
        }
    }

    fn count(&mut self, s: Section)
        requires
            old(self).at(s) < u64::MAX,
        ensures
            *final(self) == old(self).more(s),
    {
        match s {
            Section::Create => {
                self.created = self.created + 1;
            },
            Section::Modify => {
                self.modified = self.modified + 1;
            },
            Section::Delete => {
                self.deleted = self.deleted + 1;
            },
        }
    }
}

/// A way and the tags and nodes that a change file gave it.
pub struct TaggedWay {
    pub id: u64,
    pub tags: Vec<(Vec<u8>, Vec<u8>)>,
    pub refs: Vec<i64>,
}

pub struct WayModel {
    pub id: u64,
    pub tags: Seq<(Seq<u8>, Seq<u8>)>,
    pub refs: Seq<i64>,
}

pub open spec fn tag_models(v: Seq<(Vec<u8>, Vec<u8>)>) -> Seq<(Seq<u8>, Seq<u8>)> {
    Seq::new(v.len(), |i: int| (v[i].0@, v[i].1@))
}

impl TaggedWay {
    pub open spec fn model(&self) -> WayModel {
        WayModel { id: self.id, tags: tag_models(self.tags@), refs: self.refs@ }
    }
}

pub open spec fn way_models(v: Seq<TaggedWay>) -> Seq<WayModel> {
    Seq::new(v.len(), |i: int| v[i].model())
}

/// What has been read so far.
#[verifier::ext_equal]
pub struct Heard {
    pub section: Section,
    /// The way being read, its tags and its nodes.
    pub way: Option<u64>,
    pub tags: Seq<(Seq<u8>, Seq<u8>)>,
    pub refs: Seq<i64>,
    /// The numbers of all ways named, and the ways read to their end.
    pub ways: Seq<u64>,
    pub tagged: Seq<WayModel>,
    /// Where modified nodes are, and how many did not say.
    pub nodes: Seq<(i32, i32)>,
    pub unplaced: int,
    pub way_counts: Tally,
    pub node_counts: Tally,
}

/// The way being read is done.
pub open spec fn closed(h: Heard) -> Heard {
    match h.way {
        None => h,
        Some(id) => Heard {
            way: None,
            tags: Seq::empty(),
            refs: Seq::empty(),
            tagged: h.tagged.push(WayModel { id, tags: h.tags, refs: h.refs }),
            ..h
        },
    }
}

pub open spec fn white8(c: u8) -> bool {
    c == 32 || c == 9 || c == 10 || c == 12 || c == 13
}

/// Where the name of an element ends.
pub open spec fn name_end(s: Seq<u8>, i: int) -> int
    decreases s.len() - i,
{
    if 0 <= i < s.len() && !white8(s[i]) {
        name_end(s, i + 1)
    } else {
        i
    }
}

pub open spec fn after_way(h: Heard, rest: Seq<u8>, closes: bool) -> Heard {
    let id = match attr_of(rest, word("id")) {
        None => None,
        Some(v) => id_of(v),
    };
    let h2 = Heard {
        way_counts: h.way_counts.more(h.section),
        way: match id {
            None => None,
            Some(n) => Some(n as u64),
        },
        ways: match id {
            None => h.ways,
            Some(n) => h.ways.push(n as u64),
        },
        tags: Seq::empty(),
        refs: Seq::empty(),
        ..h
    };
    if closes {
        closed(h2)
    } else {
        h2
    }
}

pub open spec fn after_ref(h: Heard, rest: Seq<u8>) -> Heard {
    let r = match attr_of(rest, word("ref")) {
        None => None,
        Some(v) => ref_of(v),
    };
    match r {
        Some(n) if h.way is Some => Heard { refs: h.refs.push(n as i64), ..h },
        _ => h,
    }
}

pub open spec fn after_tag(h: Heard, rest: Seq<u8>) -> Heard {
    match (attr_of(rest, word("k")), attr_of(rest, word("v"))) {
        (Some(k), Some(v)) if h.way is Some => Heard {
            tags: h.tags.push((unescaped(k, 0), unescaped(v, 0))),
            ..h
        },
        _ => h,
    }
}

pub open spec fn degrees_at(rest: Seq<u8>, name: Seq<u8>) -> Option<int> {
    match attr_of(rest, name) {
        None => None,
        Some(v) => degrees_of(v),
    }
}

pub open spec fn after_node(h: Heard, rest: Seq<u8>) -> Heard {
    let h2 = Heard { node_counts: h.node_counts.more(h.section), ..h };
    if h.section != Section::Modify {
        h2
    } else {
        match (degrees_at(rest, word("lat")), degrees_at(rest, word("lon"))) {
            (Some(la), Some(lo)) => Heard { nodes: h.nodes.push((la as i32, lo as i32)), ..h2 },
            _ => Heard { unplaced: h.unplaced + 1, ..h2 },
        }
    }
}

/// What an opening element adds.
pub open spec fn opened(h: Heard, name: Seq<u8>, rest: Seq<u8>, closes: bool) -> Heard {
    if name == word("create") {
        Heard { section: Section::Create, ..h }
    } else if name == word("modify") {
        Heard { section: Section::Modify, ..h }
    } else if name == word("delete") {
        Heard { section: Section::Delete, ..h }
    } else if name == word("way") {
        after_way(h, rest, closes)
    } else if name == word("nd") {
        after_ref(h, rest)
    } else if name == word("tag") {
        after_tag(h, rest)
    } else if name == word("node") {
        after_node(h, rest)
    } else {
        h
    }
}

pub open spec fn closes_way(tag: Seq<u8>) -> bool {
    tag.len() >= 4 && tag.subrange(1, 4) == word("way")
}

/// What an element adds, given without its angle brackets.
pub open spec fn element(h: Heard, tag: Seq<u8>) -> Heard {
    if tag.len() > 0 && (tag[0] == 63 || tag[0] == 33) {
        h
    } else if tag.len() > 0 && tag[0] == 47 {
        if closes_way(tag) {
            closed(h)
        } else {
            h
        }
    } else {
        let closes = tag.len() > 0 && tag.last() == 47;
        let t = if closes {
            tag.drop_last()
        } else {
            tag
        };
        let e = name_end(t, 0);
        opened(h, t.subrange(0, e), t.subrange(e, t.len() as int), closes)
    }
}

/// Reads change files.
pub struct Scanner {
    pub section: Section,
    pub way: Option<u64>,
    pub tags: Vec<(Vec<u8>, Vec<u8>)>,
    pub refs: Vec<i64>,
    pub ways: Vec<u64>,
    pub tagged: Vec<TaggedWay>,
    pub nodes: Vec<(i32, i32)>,
    pub unplaced: u64,
    pub way_counts: Tally,
    pub node_counts: Tally,
}

impl Scanner {
    pub open spec fn heard(&self) -> Heard {
        Heard {
            section: self.section,
            way: self.way,
            tags: tag_models(self.tags@),
            refs: self.refs@,
            ways: self.ways@,
            tagged: way_models(self.tagged@),
            nodes: self.nodes@,
            unplaced: self.unplaced as int,
            way_counts: self.way_counts,
            node_counts: self.node_counts,
        }
    }

    /// Nothing has been counted as often as can be counted.
    pub open spec fn has_room(&self) -> bool {
        &&& self.unplaced < u64::MAX
        &&& forall|s: Section| #[trigger]
            self.way_counts.at(s) < u64::MAX && self.node_counts.at(s) < u64::MAX
    }

    /// Nothing read yet.
    pub fn new() -> (r: Scanner)
        ensures
            r.heard() == (Heard {
                section: Section::Modify,
                way: None,
                tags: Seq::empty(),
                refs: Seq::empty(),
                ways: Seq::empty(),
                tagged: Seq::empty(),
                nodes: Seq::empty(),
                unplaced: 0,
                way_counts: Tally { created: 0, modified: 0, deleted: 0 },
                node_counts: Tally { created: 0, modified: 0, deleted: 0 },
            }),
    {
        let r = Scanner {
            section: Section::Modify,
            way: None,
            tags: Vec::new(),
            refs: Vec::new(),
            ways: Vec::new(),
            tagged: Vec::new(),
            nodes: Vec::new(),
            unplaced: 0,
            way_counts: Tally { created: 0, modified: 0, deleted: 0 },
            node_counts: Tally { created: 0, modified: 0, deleted: 0 },
        };
        assert(tag_models(r.tags@) =~= Seq::empty());
        assert(way_models(r.tagged@) =~= Seq::empty());
        r
    }

    /// Begins another file. One without sections is read as modified.
    pub fn begin_file(&mut self)
        ensures
            final(self).heard() == (Heard {
                section: Section::Modify,
                way: None,
                tags: Seq::empty(),
                refs: Seq::empty(),
                ..old(self).heard()
            }),
    {
        self.section = Section::Modify;
        self.way = None;
        self.tags = Vec::new();
        self.refs = Vec::new();
        assert(tag_models(self.tags@) =~= Seq::empty());
    }

    fn close(&mut self)
        ensures
            final(self).heard() == closed(old(self).heard()),
    {
        let ghost h = self.heard();
        match self.way {
            None => {},
            Some(id) => {
                let mut tags: Vec<(Vec<u8>, Vec<u8>)> = Vec::new();
                let mut refs: Vec<i64> = Vec::new();
                std::mem::swap(&mut tags, &mut self.tags);
                std::mem::swap(&mut refs, &mut self.refs);
                self.way = None;
                let ghost t0 = self.tagged@;
                self.tagged.push(TaggedWay { id, tags, refs });
                assert(way_models(self.tagged@) =~= way_models(t0).push(
                    WayModel { id, tags: h.tags, refs: h.refs },
                ));
                assert(tag_models(self.tags@) =~= Seq::empty());
            },
        }
    }

    fn open_way(&mut self, rest: &[u8], closes: bool)
        requires
            old(self).has_room(),
        ensures
            final(self).heard() == after_way(old(self).heard(), rest@, closes),
    {
        let ghost h = self.heard();
        let s: Section = self.section;
        assert(self.way_counts.at(s) < u64::MAX);
        self.way_counts.count(s);
        let id: Option<u64> = match attr(rest, "id") {
            None => None,
            Some(v) => read_id(v),
        };
        self.way = id;
        if let Some(n) = id {
            self.ways.push(n);
        }
        self.tags = Vec::new();
        self.refs = Vec::new();
        assert(tag_models(self.tags@) =~= Seq::empty());
        if closes {
            self.close();
        }
    }

    fn add_ref(&mut self, rest: &[u8])
        ensures
            final(self).heard() == after_ref(old(self).heard(), rest@),
    {
        if self.way.is_none() {
            return;
        }
        let r: Option<i64> = match attr(rest, "ref") {
            None => None,
            Some(v) => read_ref(v),
        };
        if let Some(n) = r {
            self.refs.push(n);
        }
    }

    fn add_tag(&mut self, rest: &[u8])
        ensures
            final(self).heard() == after_tag(old(self).heard(), rest@),
    {
        if self.way.is_none() {
            return;
        }
        if let (Some(k), Some(v)) = (attr(rest, "k"), attr(rest, "v")) {
            let ghost t0 = self.tags@;
            let pair: (Vec<u8>, Vec<u8>) = (unescape(k), unescape(v));
            let ghost m = (pair.0@, pair.1@);
            self.tags.push(pair);
            assert(tag_models(self.tags@) =~= tag_models(t0).push(m));
        }
    }

    fn add_node(&mut self, rest: &[u8])
        requires
            old(self).has_room(),
        ensures
            final(self).heard() == after_node(old(self).heard(), rest@),
    {
        let s: Section = self.section;
        assert(self.way_counts.at(s) < u64::MAX && self.node_counts.at(s) < u64::MAX);
        self.node_counts.count(s);
        if s == Section::Modify {
            let la: Option<i32> = match attr(rest, "lat") {
                None => None,
                Some(v) => deg_e7(v),
            };
            let lo: Option<i32> = match attr(rest, "lon") {
                None => None,
                Some(v) => deg_e7(v),
            };
            match (la, lo) {
                (Some(a), Some(o)) => {
                    self.nodes.push((a, o));
                },
                _ => {
                    self.unplaced = self.unplaced + 1;
                },
            }
        }
    }

    /// Takes in one element, given without its angle brackets.
    pub fn take(&mut self, tag: &[u8])
        requires
            old(self).has_room(),
        ensures
            final(self).heard() == element(old(self).heard(), tag@),
    {
        if tag.len() > 0 && (tag[0] == 63 || tag[0] == 33) {
            return;
        }
        if tag.len() > 0 && tag[0] == 47 {
            if tag.len() >= 4 && is_word(vstd::slice::slice_subrange(tag, 1, 4), "way") {
                self.close();
            } else {
                proof {
                    if tag@.len() >= 4 {
                        assert(tag@.subrange(1, 4).len() == 3);
                    }
                }
            }
            return;
        }
        let closes: bool = tag.len() > 0 && tag[tag.len() - 1] == 47;
        let n: usize = if closes {
            tag.len() - 1
        } else {
            tag.len()
        };
        let t: &[u8] = vstd::slice::slice_subrange(tag, 0, n);
        assert(t@ =~= if closes {
            tag@.drop_last()
        } else {
            tag@
        });
        let mut e: usize = 0;
        while e < t.len() && !(t[e] == 32 || t[e] == 9 || t[e] == 10 || t[e] == 12 || t[e] == 13)
            invariant
                e <= t@.len(),
                name_end(t@, e as int) == name_end(t@, 0),
            decreases t@.len() - e,
        {
            e += 1;
        }
        let name: &[u8] = vstd::slice::slice_subrange(t, 0, e);
        let rest: &[u8] = vstd::slice::slice_subrange(t, e, t.len());
        if is_word(name, "create") {
            self.section = Section::Create;
        } else if is_word(name, "modify") {
            self.section = Section::Modify;
        } else if is_word(name, "delete") {
            self.section = Section::Delete;
        } else if is_word(name, "way") {
            self.open_way(rest, closes);
        } else if is_word(name, "nd") {
            self.add_ref(rest);
        } else if is_word(name, "tag") {
            self.add_tag(rest);
        } else if is_word(name, "node") {
            self.add_node(rest);
        }
    }

    /// Takes in the text up to an opening bracket and what follows up to a
    /// closing one; whether reading goes on. An element that the input cuts off
    /// is let go: what is left of it could name another way.
    pub fn piece(&mut self, text: &[u8], tag: &[u8]) -> (more: bool)
        requires
            old(self).has_room(),
        ensures
            more == (text@.len() > 0 && text@.last() == 60 && tag@.len() > 0 && tag@.last() == 62),
            final(self).heard() == if more {
                element(old(self).heard(), tag@.drop_last())
            } else {
                old(self).heard()
            },
    {
        if text.len() == 0 || text[text.len() - 1] != 60 {
            return false;
        }
        if tag.len() == 0 || tag[tag.len() - 1] != 62 {
            return false;
        }
        let t: &[u8] = vstd::slice::slice_subrange(tag, 0, tag.len() - 1);
        assert(t@ =~= tag@.drop_last());
        self.take(t);
        true
    }
}

/// Every way that was read to its end was named.
pub open spec fn all_named(h: Heard) -> bool {
    &&& forall|i: int| 0 <= i < h.tagged.len() ==> h.ways.contains((#[trigger] h.tagged[i]).id)
    &&& h.way matches Some(id) ==> h.ways.contains(id)
}

/// Whatever element comes, the ways read to their end stay among those named,
/// and nothing that was read is lost.
pub proof fn lemma_reading_grows(h: Heard, tag: Seq<u8>)
    requires
        all_named(h),
    ensures
        all_named(element(h, tag)),
        h.ways.is_prefix_of(element(h, tag).ways),
        h.tagged.is_prefix_of(element(h, tag).tagged),
        h.nodes.is_prefix_of(element(h, tag).nodes),
{
    let g = element(h, tag);
    assert forall|x: u64| h.ways.contains(x) implies #[trigger] g.ways.contains(x) by {
        let i = h.ways.index_of(x);
        assert(g.ways[i] == x);
    }
    if g.ways.len() > h.ways.len() {
        assert(g.ways[h.ways.len() as int] == g.ways.last());
        assert(g.ways.contains(g.ways.last()));
    }
}

} // verus!

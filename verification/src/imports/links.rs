//! Relations and tables over pairs of paths.

use vstd::prelude::*;

use crate::collections::{TextMap, TextSet};

verus! {

/// Which names a name is linked to.
#[derive(Debug, PartialEq, Eq)]
pub struct Links {
    sets: TextMap<TextSet>,
    /// What a name without links answers with.
    nobody: TextSet,
}

impl View for Links {
    type V = Set<(Seq<char>, Seq<char>)>;

    closed spec fn view(&self) -> Set<(Seq<char>, Seq<char>)> {
        Set::new(|p: (Seq<char>, Seq<char>)| self.sets@.contains_key(p.0) && self.sets@[p.0]@.contains(p.1))
    }
}

/// What a name is linked to.
pub open spec fn linked(links: Set<(Seq<char>, Seq<char>)>, from: Seq<char>) -> Set<Seq<char>> {
    Set::new(|to: Seq<char>| links.contains((from, to)))
}

impl Links {
    #[verifier::type_invariant]
    closed spec fn kept(self) -> bool {
        &&& self.nobody@ == Set::<Seq<char>>::empty()
        &&& forall|from: Seq<char>| #[trigger]
            self.sets@.contains_key(from) ==> exists|to: Seq<char>| #[trigger] self.sets@[from]@.contains(to)
    }

    pub fn new() -> (r: Self)
        ensures
            r@ == Set::<(Seq<char>, Seq<char>)>::empty(),
    {
        let r = Links { sets: TextMap::new(), nobody: TextSet::new() };
        assert(r@ =~= Set::<(Seq<char>, Seq<char>)>::empty());
        r
    }

    /// Link one name to another.
    pub fn link(&mut self, from: &str, to: &str)
        ensures
            final(self)@ == old(self)@.insert((from@, to@)),
    {
        proof {
            use_type_invariant(&*self);
        }
        let ghost given = self@;
        let mut whole = Links::new();
        std::mem::swap(&mut whole, self);
        let Links { sets, nobody } = whole;
        let mut sets = sets;
        let ghost before = sets@;
        let mut members = match sets.remove(from) {
            Some(members) => members,
            None => TextSet::new(),
        };
        let ghost held = members@;
        members.insert(to.to_owned());
        sets.insert(from.to_owned(), members);
        proof {
            let after = sets@;
            assert forall|a: Seq<char>| #[trigger] after.contains_key(a) implies exists|b: Seq<char>| #[trigger] after[a]@.contains(b) by {
                if a == from@ {
                    assert(after[a]@.contains(to@));
                } else {
                    assert(before.contains_key(a));
                    let b = choose|b: Seq<char>| #[trigger] before[a]@.contains(b);
                    assert(after[a]@.contains(b));
                }
            }
        }
        *self = Links { sets, nobody };
        proof {
            assert forall|p: (Seq<char>, Seq<char>)| self@.contains(p) <==> given.insert((from@, to@)).contains(p) by {
                if p.0 == from@ {
                    assert(self@.contains(p) <==> held.contains(p.1) || p.1 == to@);
                }
            }
            assert(self@ =~= given.insert((from@, to@)));
        }
    }

    /// What a name is linked to.
    pub fn of(&self, from: &str) -> (r: &TextSet)
        ensures
            r@ == linked(self@, from@),
    {
        proof {
            use_type_invariant(self);
        }
        match self.sets.get(from) {
            Some(members) => {
                assert(members@ =~= linked(self@, from@));
                members
            },
            None => {
                assert(linked(self@, from@) =~= Set::<Seq<char>>::empty());
                &self.nobody
            },
        }
    }

    /// Whether nothing is linked.
    pub fn is_empty(&self) -> (r: bool)
        ensures
            r == (self@ == Set::<(Seq<char>, Seq<char>)>::empty()),
    {
        proof {
            use_type_invariant(self);
        }
        let r = self.sets.is_empty();
        proof {
            if r {
                assert(self.sets@.dom() =~= Set::<Seq<char>>::empty());
                assert(self@ =~= Set::<(Seq<char>, Seq<char>)>::empty());
            } else {
                let a = self.sets.keys()[0];
                assert(self.sets.keys().contains(a));
                assert(self.sets@.contains_key(a));
                let b = choose|b: Seq<char>| #[trigger] self.sets@[a]@.contains(b);
                assert(self@.contains((a, b)));
            }
        }
        r
    }
}

/// A value for each of some pairs of names.
#[derive(Debug, PartialEq, Eq)]
pub struct PairTable<V> {
    rows: TextMap<TextMap<V>>,
}

impl<V> View for PairTable<V> {
    type V = Map<(Seq<char>, Seq<char>), V>;

    closed spec fn view(&self) -> Map<(Seq<char>, Seq<char>), V> {
        Map::new(
            |p: (Seq<char>, Seq<char>)| self.rows@.contains_key(p.0) && self.rows@[p.0]@.contains_key(p.1),
            |p: (Seq<char>, Seq<char>)| self.rows@[p.0]@[p.1],
        )
    }
}

impl<V> PairTable<V> {
    pub fn new() -> (r: Self)
        ensures
            r@ == Map::<(Seq<char>, Seq<char>), V>::empty(),
    {
        let r = PairTable { rows: TextMap::new() };
        assert(r@ =~= Map::<(Seq<char>, Seq<char>), V>::empty());
        r
    }

    pub fn get(&self, a: &str, b: &str) -> (r: Option<&V>)
        ensures
            match r {
                Some(value) => self@.contains_key((a@, b@)) && *value == self@[(a@, b@)],
                None => !self@.contains_key((a@, b@)),
            },
    {
        match self.rows.get(a) {
            Some(row) => row.get(b),
            None => None,
        }
    }

    /// Set the value of a pair.
    pub fn insert(&mut self, a: &str, b: &str, value: V)
        ensures
            final(self)@ == old(self)@.insert((a@, b@), value),
    {
        let ghost given = self@;
        let ghost before = self.rows@;
        let mut row = match self.rows.remove(a) {
            Some(row) => row,
            None => TextMap::new(),
        };
        let ghost held = row@;
        row.insert(b.to_owned(), value);
        self.rows.insert(a.to_owned(), row);
        proof {
            let wanted = given.insert((a@, b@), value);
            assert forall|p: (Seq<char>, Seq<char>)| self@.contains_key(p) <==> wanted.contains_key(p) by {
                if p.0 == a@ {
                    assert(given.contains_key(p) <==> held.contains_key(p.1));
                }
            }
            assert forall|p: (Seq<char>, Seq<char>)| self@.contains_key(p) implies self@[p] == wanted[p] by {
                if p.0 == a@ && p.1 != b@ {
                    assert(given.contains_key(p));
                    assert(given[p] == held[p.1]);
                }
            }
            assert(self@ =~= wanted);
        }
    }
}

/// Links in both directions, and a line for each of some of them.
#[derive(Debug, PartialEq, Eq)]
pub struct LinkTable {
    outbound: Links,
    inbound: Links,
    lines: PairTable<u32>,
}

/// The earlier of a line already known and another.
pub open spec fn earliest(lines: Map<(Seq<char>, Seq<char>), u32>, p: (Seq<char>, Seq<char>), line: u32) -> u32 {
    if lines.contains_key(p) && lines[p] < line {
        lines[p]
    } else {
        line
    }
}

impl LinkTable {
    /// The links.
    pub closed spec fn links(self) -> Set<(Seq<char>, Seq<char>)> {
        self.outbound@
    }

    /// The line of each link that has one.
    pub closed spec fn lines(self) -> Map<(Seq<char>, Seq<char>), u32> {
        self.lines@
    }

    #[verifier::type_invariant]
    closed spec fn mirrored(self) -> bool {
        &&& forall|p: (Seq<char>, Seq<char>)| #[trigger] self.lines@.contains_key(p) ==> self.outbound@.contains(p)
        &&& forall|from: Seq<char>, to: Seq<char>| #[trigger] self.outbound@.contains((from, to)) <==> self.inbound@.contains((to, from))
        &&& forall|from: Seq<char>, to: Seq<char>| #[trigger] self.inbound@.contains((to, from)) <==> self.outbound@.contains((from, to))
    }

    pub fn new() -> (r: Self)
        ensures
            r.links() == Set::<(Seq<char>, Seq<char>)>::empty(),
            r.lines() == Map::<(Seq<char>, Seq<char>), u32>::empty(),
    {
        LinkTable { outbound: Links::new(), inbound: Links::new(), lines: PairTable::new() }
    }

    /// Link one name to another, keeping the earliest line given for the two.
    pub fn link(&mut self, from: &str, to: &str, line: Option<u32>)
        ensures
            final(self).links() == old(self).links().insert((from@, to@)),
            final(self).lines() == (match line {
                Some(line) => old(self).lines().insert((from@, to@), earliest(old(self).lines(), (from@, to@), line)),
                None => old(self).lines(),
            }),
    {
        proof {
            use_type_invariant(&*self);
        }
        let mut whole = LinkTable::new();
        std::mem::swap(&mut whole, self);
        let LinkTable { outbound, inbound, lines } = whole;
        let mut outbound = outbound;
        let mut inbound = inbound;
        let mut lines = lines;
        outbound.link(from, to);
        inbound.link(to, from);
        if let Some(line) = line {
            let kept: u32 = match lines.get(from, to) {
                Some(known) => if *known < line {
                    *known
                } else {
                    line
                },
                None => line,
            };
            lines.insert(from, to, kept);
        }
        *self = LinkTable { outbound, inbound, lines };
    }

    /// What a name is linked to.
    pub fn from_name(&self, from: &str) -> (r: &TextSet)
        ensures
            r@ == linked(self.links(), from@),
    {
        self.outbound.of(from)
    }

    /// What is linked to a name.
    pub fn to_name(&self, to: &str) -> (r: &TextSet)
        ensures
            r@ == Set::new(|from: Seq<char>| self.links().contains((from, to@))),
    {
        proof {
            use_type_invariant(self);
        }
        let r = self.inbound.of(to);
        assert(r@ =~= Set::new(|from: Seq<char>| self.links().contains((from, to@))));
        r
    }

    /// The line of a link, where it has one.
    pub fn line_of(&self, from: &str, to: &str) -> (r: Option<u32>)
        ensures
            match r {
                Some(line) => self.lines().contains_key((from@, to@)) && line == self.lines()[(from@, to@)] && self.links().contains((from@, to@)),
                None => !self.lines().contains_key((from@, to@)),
            },
    {
        proof {
            use_type_invariant(self);
        }
        match self.lines.get(from, to) {
            Some(line) => Some(*line),
            None => None,
        }
    }

    /// Whether nothing is linked.
    pub fn is_empty(&self) -> (r: bool)
        ensures
            r == (self.links() == Set::<(Seq<char>, Seq<char>)>::empty()),
    {
        self.outbound.is_empty()
    }
}

/// A map of values for each of some names.
#[derive(Debug, PartialEq, Eq)]
pub struct MapTable<V> {
    maps: TextMap<TextMap<V>>,
    /// What a name without a map answers with.
    nothing: TextMap<V>,
}

impl<V> View for MapTable<V> {
    type V = Map<Seq<char>, Map<Seq<char>, V>>;

    closed spec fn view(&self) -> Map<Seq<char>, Map<Seq<char>, V>> {
        self.maps@.map_values(|m: TextMap<V>| m@)
    }
}

/// The map of a name; one without a map has the empty map.
pub open spec fn map_of<V>(table: Map<Seq<char>, Map<Seq<char>, V>>, name: Seq<char>) -> Map<Seq<char>, V> {
    if table.contains_key(name) {
        table[name]
    } else {
        Map::empty()
    }
}

impl<V> MapTable<V> {
    #[verifier::type_invariant]
    closed spec fn kept(self) -> bool {
        self.nothing@ == Map::<Seq<char>, V>::empty()
    }

    pub fn new() -> (r: Self)
        ensures
            r@ == Map::<Seq<char>, Map<Seq<char>, V>>::empty(),
    {
        let r = MapTable { maps: TextMap::new(), nothing: TextMap::new() };
        assert(r@ =~= Map::<Seq<char>, Map<Seq<char>, V>>::empty());
        r
    }

    /// The map of a name.
    pub fn of(&self, name: &str) -> (r: &TextMap<V>)
        ensures
            r@ == map_of(self@, name@),
    {
        proof {
            use_type_invariant(self);
        }
        match self.maps.get(name) {
            Some(found) => found,
            None => &self.nothing,
        }
    }

    /// Set the map of a name.
    pub fn set(&mut self, name: &str, map: TextMap<V>)
        ensures
            final(self)@ == old(self)@.insert(name@, map@),
    {
        proof {
            use_type_invariant(&*self);
        }
        let ghost given = self@;
        let mut whole = MapTable::new();
        std::mem::swap(&mut whole, self);
        let MapTable { maps, nothing } = whole;
        let mut maps = maps;
        maps.insert(name.to_owned(), map);
        *self = MapTable { maps, nothing };
        assert(self@ =~= given.insert(name@, map@));
    }

    /// Set one value in the map of a name.
    pub fn insert(&mut self, name: &str, key: &str, value: V)
        ensures
            final(self)@ == old(self)@.insert(name@, map_of(old(self)@, name@).insert(key@, value)),
    {
        proof {
            use_type_invariant(&*self);
        }
        let ghost given = self@;
        let mut whole = MapTable::new();
        std::mem::swap(&mut whole, self);
        let MapTable { maps, nothing } = whole;
        let mut maps = maps;
        let mut map = match maps.remove(name) {
            Some(map) => map,
            None => TextMap::new(),
        };
        assert(map@ =~= map_of(given, name@));
        map.insert(key.to_owned(), value);
        maps.insert(name.to_owned(), map);
        *self = MapTable { maps, nothing };
        assert(self@ =~= given.insert(name@, map@));
    }
}

} // verus!

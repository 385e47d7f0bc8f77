//! Ordered collections keyed by text, and stable sorting.

use vstd::prelude::*;

use crate::text::{before, compare, lemma_before_asymmetric, lemma_before_irreflexive, lemma_before_total, lemma_before_transitive, texts, Rank};

verus! {

/// Whether texts stand in strictly ascending order, so that none occurs twice.
pub open spec fn ascending(keys: Seq<Seq<char>>) -> bool {
    forall|i: int, j: int| 0 <= i < j < keys.len() ==> before(#[trigger] keys[i], #[trigger] keys[j])
}

/// The position of the first key that does not stand before `key`, and whether
/// that key is `key` itself.
fn find(keys: &Vec<String>, key: &str) -> (r: (usize, bool))
    requires
        ascending(texts(keys@)),
    ensures
        r.0 <= keys.len(),
        forall|j: int| 0 <= j < r.0 ==> before(#[trigger] texts(keys@)[j], key@),
        forall|j: int| r.0 < j < keys.len() ==> before(key@, #[trigger] texts(keys@)[j]),
        r.1 ==> r.0 < keys.len() && texts(keys@)[r.0 as int] == key@,
        !r.1 && r.0 < keys.len() ==> before(key@, texts(keys@)[r.0 as int]),
        r.1 == texts(keys@).contains(key@),
{
    let ghost names = texts(keys@);
    let mut low: usize = 0;
    let mut high: usize = keys.len();
    while low < high
        invariant
            names == texts(keys@),
            ascending(names),
            low <= high <= keys.len(),
            forall|j: int| 0 <= j < low ==> before(#[trigger] names[j], key@),
            forall|j: int| high <= j < keys.len() ==> before(key@, #[trigger] names[j]),
        decreases high - low,
    {
        let middle: usize = low + (high - low) / 2;
        assert(names[middle as int] == keys@[middle as int]@);
        match compare(keys[middle].as_str(), key) {
            Rank::Same => {
                assert(names.contains(key@));
                return (middle, true);
            },
            Rank::Before => {
                assert forall|j: int| 0 <= j < middle + 1 implies before(#[trigger] names[j], key@) by {
                    if j < middle {
                        lemma_before_transitive(names[j], names[middle as int], key@);
                    }
                }
                low = middle + 1;
            },
            Rank::After => {
                proof {
                    lemma_before_total(names[middle as int], key@);
                }
                assert forall|j: int| middle <= j < keys.len() implies before(key@, #[trigger] names[j]) by {
                    if j > middle {
                        lemma_before_transitive(key@, names[middle as int], names[j]);
                    }
                }
                high = middle;
            },
        }
    }
    proof {
        if names.contains(key@) {
            let j = choose|j: int| 0 <= j < names.len() && names[j] == key@;
            lemma_before_irreflexive(key@);
            assert(false);
        }
    }
    (low, false)
}

proof fn lemma_insert_ascending(keys: Seq<Seq<char>>, at: int, key: Seq<char>)
    requires
        ascending(keys),
        0 <= at <= keys.len(),
        forall|j: int| 0 <= j < at ==> before(#[trigger] keys[j], key),
        forall|j: int| at <= j < keys.len() ==> before(key, #[trigger] keys[j]),
    ensures
        ascending(keys.insert(at, key)),
{
    let out = keys.insert(at, key);
    assert forall|i: int, j: int| 0 <= i < j < out.len() implies before(#[trigger] out[i], #[trigger] out[j]) by {
        let a = if i < at { i } else { i - 1 };
        let b = if j < at { j } else { j - 1 };
        if i != at {
            assert(out[i] == keys[a]);
        }
        if j != at {
            assert(out[j] == keys[b]);
        }
    }
}

proof fn lemma_remove_ascending(keys: Seq<Seq<char>>, at: int)
    requires
        ascending(keys),
        0 <= at < keys.len(),
    ensures
        ascending(keys.remove(at)),
{
    let out = keys.remove(at);
    assert forall|i: int, j: int| 0 <= i < j < out.len() implies before(#[trigger] out[i], #[trigger] out[j]) by {
        let a = if i < at { i } else { i + 1 };
        let b = if j < at { j } else { j + 1 };
        assert(out[i] == keys[a]);
        assert(out[j] == keys[b]);
    }
}

/// Ascending texts stand at one position each.
pub proof fn lemma_ascending_unique(keys: Seq<Seq<char>>, i: int, j: int)
    requires
        ascending(keys),
        0 <= i < keys.len(),
        0 <= j < keys.len(),
        keys[i] == keys[j],
    ensures
        i == j,
{
    if i < j {
        lemma_before_asymmetric(keys[i], keys[j]);
    } else if j < i {
        lemma_before_asymmetric(keys[j], keys[i]);
    }
}

/// Two ascending sequences of the same texts are the same sequence.
pub proof fn lemma_ascending_determined(a: Seq<Seq<char>>, b: Seq<Seq<char>>)
    requires
        ascending(a),
        ascending(b),
        forall|k: Seq<char>| #[trigger] a.contains(k) <==> b.contains(k),
    ensures
        a == b,
    decreases a.len(),
{
    if a.len() == 0 {
        if b.len() > 0 {
            assert(b.contains(b[0]));
            assert(a.contains(b[0]));
        }
        assert(a =~= b);
    } else if b.len() == 0 {
        assert(a.contains(a[0]));
        assert(b.contains(a[0]));
    } else {
        let x = a.last();
        let y = b.last();
        assert(a.contains(x));
        assert(b.contains(y));
        let i = choose|i: int| 0 <= i < b.len() && b[i] == x;
        assert(b.contains(x));
        assert(0 <= i < b.len() && b[i] == x);
        assert(a.contains(y));
        let j = choose|j: int| 0 <= j < a.len() && a[j] == y;
        assert(0 <= j < a.len() && a[j] == y);
        if x != y {
            assert(before(b[i], b[b.len() - 1]));
            assert(before(a[j], a[a.len() - 1]));
            lemma_before_asymmetric(x, y);
        }
        let p = a.drop_last();
        let q = b.drop_last();
        assert forall|k: Seq<char>| #[trigger] p.contains(k) <==> q.contains(k) by {
            if p.contains(k) {
                let m = choose|m: int| 0 <= m < p.len() && p[m] == k;
                assert(a[m] == k);
                assert(a.contains(k));
                assert(b.contains(k));
                let n = choose|n: int| 0 <= n < b.len() && b[n] == k;
                assert(before(a[m], a[a.len() - 1]));
                lemma_before_asymmetric(k, x);
                assert(n != b.len() - 1);
                assert(q[n] == k);
            }
            if q.contains(k) {
                let m = choose|m: int| 0 <= m < q.len() && q[m] == k;
                assert(b[m] == k);
                assert(b.contains(k));
                assert(a.contains(k));
                let n = choose|n: int| 0 <= n < a.len() && a[n] == k;
                assert(before(b[m], b[b.len() - 1]));
                lemma_before_asymmetric(k, y);
                assert(n != a.len() - 1);
                assert(p[n] == k);
            }
        }
        lemma_ascending_determined(p, q);
        assert(a =~= p.push(x));
        assert(b =~= q.push(y));
    }
}

/// The members of a set of texts in ascending order.
pub open spec fn listed(members: Set<Seq<char>>) -> Seq<Seq<char>> {
    choose|keys: Seq<Seq<char>>| ascending(keys) && keys.to_set() == members
}

/// An ascending sequence lists the set of its texts.
pub proof fn lemma_listed(keys: Seq<Seq<char>>)
    requires
        ascending(keys),
    ensures
        listed(keys.to_set()) == keys,
{
    let members = keys.to_set();
    assert(ascending(keys) && keys.to_set() == members);
    let other = listed(members);
    assert forall|k: Seq<char>| #[trigger] other.contains(k) <==> keys.contains(k) by {
        assert(other.to_set().contains(k) <==> members.contains(k));
        assert(keys.to_set().contains(k) <==> members.contains(k));
    }
    lemma_ascending_determined(other, keys);
}

/// A set of texts, walked in ascending order.
#[derive(Debug, PartialEq, Eq)]
pub struct TextSet {
    keys: Vec<String>,
}

impl View for TextSet {
    type V = Set<Seq<char>>;

    closed spec fn view(&self) -> Set<Seq<char>> {
        texts(self.keys@).to_set()
    }
}

impl TextSet {
    /// The members, in ascending order.
    pub closed spec fn keys(self) -> Seq<Seq<char>> {
        texts(self.keys@)
    }

    #[verifier::type_invariant]
    closed spec fn well_kept(self) -> bool {
        ascending(texts(self.keys@))
    }

    /// The listed members ascend, and they are the members.
    pub open spec fn ordered(self) -> bool {
        &&& ascending(self.keys())
        &&& self@ == self.keys().to_set()
    }

    pub fn new() -> (r: Self)
        ensures
            r@ == Set::<Seq<char>>::empty(),
            r.keys() == Seq::<Seq<char>>::empty(),
            r.ordered(),
    {
        let r = TextSet { keys: Vec::new() };
        assert(r.keys() =~= Seq::<Seq<char>>::empty());
        assert(r@ =~= Set::<Seq<char>>::empty());
        r
    }

    pub fn len(&self) -> (r: usize)
        ensures
            r == self.keys().len(),
            self.ordered(),
    {
        proof {
            use_type_invariant(self);
        }
        self.keys.len()
    }

    pub fn is_empty(&self) -> (r: bool)
        ensures
            r == (self.keys().len() == 0),
            r == (self@ == Set::<Seq<char>>::empty()),
            self.ordered(),
    {
        proof {
            use_type_invariant(self);
            if self.keys().len() > 0 {
                assert(self.keys().contains(self.keys()[0]));
                assert(self@.contains(self.keys()[0]));
            } else {
                assert(self@ =~= Set::<Seq<char>>::empty());
            }
        }
        self.keys.len() == 0
    }

    /// The member at a position of the ascending order.
    pub fn key_at(&self, i: usize) -> (r: &str)
        requires
            i < self.keys().len(),
        ensures
            r@ == self.keys()[i as int],
            self@.contains(r@),
    {
        assert(self.keys().contains(self.keys()[i as int]));
        self.keys[i].as_str()
    }

    pub fn contains(&self, key: &str) -> (r: bool)
        ensures
            r == self@.contains(key@),
    {
        proof {
            use_type_invariant(self);
        }
        find(&self.keys, key).1
    }

    /// Add a member; whether it is new.
    pub fn insert(&mut self, key: String) -> (r: bool)
        ensures
            final(self)@ == old(self)@.insert(key@),
            r == !old(self)@.contains(key@),
            final(self).ordered(),
    {
        proof {
            use_type_invariant(&*self);
        }
        let ghost before_keys = texts(self.keys@);
        let (at, found) = find(&self.keys, key.as_str());
        if found {
            assert(old(self)@.insert(key@) =~= old(self)@);
            return false;
        }
        let mut keys: Vec<String> = Vec::new();
        std::mem::swap(&mut keys, &mut self.keys);
        let ghost added = key@;
        keys.insert(at, key);
        proof {
            assert(texts(keys@) =~= before_keys.insert(at as int, added));
            lemma_insert_ascending(before_keys, at as int, added);
            let after = before_keys.insert(at as int, added);
            assert forall|k: Seq<char>| after.contains(k) <==> (before_keys.contains(k) || k == added) by {
                if before_keys.contains(k) {
                    let i = choose|i: int| 0 <= i < before_keys.len() && before_keys[i] == k;
                    assert(after[if i < at { i } else { i + 1 }] == k);
                }
                if after.contains(k) {
                    let i = choose|i: int| 0 <= i < after.len() && after[i] == k;
                    if i != at {
                        assert(before_keys[if i < at { i } else { i - 1 }] == k);
                    }
                }
                assert(after[at as int] == added);
            }
        }
        self.keys = keys;
        assert(self@ =~= old(self)@.insert(added));
        true
    }

    /// Add every member of another set.
    pub fn extend(&mut self, other: &TextSet)
        ensures
            final(self)@ == old(self)@.union(other@),
            final(self).ordered(),
    {
        let n: usize = other.len();
        let ghost names = other.keys();
        let mut i: usize = 0;
        let _ = self.len();
        assert(self@ =~= old(self)@.union(names.take(0).to_set()));
        while i < n
            invariant
                i <= n == other.keys().len(),
                names == other.keys(),
                self@ == old(self)@.union(names.take(i as int).to_set()),
                self.ordered(),
            decreases n - i,
        {
            self.insert(other.key_at(i).to_owned());
            proof {
                assert(names.take(i + 1) =~= names.take(i as int).push(names[i as int]));
                names.take(i as int).lemma_push_to_set_commute(names[i as int]);
                assert(self@ =~= old(self)@.union(names.take(i + 1).to_set()));
            }
            i = i + 1;
        }
        assert(names.take(n as int) =~= names);
    }

    /// The members as a list, in ascending order.
    pub fn to_vec(&self) -> (r: Vec<String>)
        ensures
            texts(r@) == self.keys(),
            self.ordered(),
    {
        proof {
            use_type_invariant(self);
        }
        copy_texts(&self.keys)
    }

    /// The set of the listed texts.
    pub fn from_list(items: &Vec<String>) -> (r: TextSet)
        ensures
            r@ == texts(items@).to_set(),
            r.ordered(),
    {
        let mut out = TextSet::new();
        let ghost names = texts(items@);
        let mut i: usize = 0;
        assert(names.take(0).to_set() =~= Set::<Seq<char>>::empty());
        while i < items.len()
            invariant
                i <= items.len(),
                names == texts(items@),
                out@ == names.take(i as int).to_set(),
                out.ordered(),
            decreases items.len() - i,
        {
            out.insert(items[i].clone());
            proof {
                assert(names.take(i + 1) =~= names.take(i as int).push(names[i as int]));
                names.take(i as int).lemma_push_to_set_commute(names[i as int]);
            }
            i = i + 1;
        }
        assert(names.take(items.len() as int) =~= names);
        out
    }
}

/// The members of the first set that the second does not have, in ascending
/// order.
pub fn difference(a: &TextSet, b: &TextSet) -> (r: Vec<String>)
    ensures
        texts(r@) == listed(a@.difference(b@)),
        ascending(texts(r@)),
        texts(r@).to_set() == a@.difference(b@),
{
    let n: usize = a.len();
    let ghost names = a.keys();
    let mut out: Vec<String> = Vec::new();
    let mut i: usize = 0;
    assert(texts(out@) =~= Seq::<Seq<char>>::empty());
    while i < n
        invariant
            n == names.len(),
            names == a.keys(),
            a.ordered(),
            i <= n,
            ascending(texts(out@)),
            forall|k: Seq<char>| #[trigger] texts(out@).contains(k) <==> names.take(i as int).contains(k) && !b@.contains(k),
            forall|j: int| 0 <= j < out.len() ==> exists|m: int| 0 <= m < i && names[m] == #[trigger] texts(out@)[j],
        decreases n - i,
    {
        let key = a.key_at(i);
        let ghost name = names[i as int];
        let ghost held = texts(out@);
        proof {
            assert(names.take(i + 1) =~= names.take(i as int).push(name));
            lemma_push_contains(names.take(i as int), name);
        }
        if !b.contains(key) {
            out.push(key.to_owned());
            proof {
                assert(texts(out@) =~= held.push(name));
                lemma_push_contains(held, name);
                assert forall|x: int, y: int| 0 <= x < y < out.len() implies before(#[trigger] texts(out@)[x], #[trigger] texts(out@)[y]) by {
                    if y == held.len() {
                        assert(texts(out@)[x] == held[x]);
                        let m = choose|m: int| 0 <= m < i && names[m] == held[x];
                        assert(before(names[m], names[i as int]));
                    } else {
                        assert(texts(out@)[x] == held[x] && texts(out@)[y] == held[y]);
                    }
                }
                assert forall|j: int| 0 <= j < out.len() implies exists|m: int| 0 <= m < i + 1 && names[m] == #[trigger] texts(out@)[j] by {
                    if j < held.len() {
                        assert(texts(out@)[j] == held[j]);
                        let m = choose|m: int| 0 <= m < i && names[m] == held[j];
                        assert(names[m] == texts(out@)[j]);
                    } else {
                        assert(names[i as int] == texts(out@)[j]);
                    }
                }
            }
        }
        i = i + 1;
    }
    proof {
        assert(names.take(n as int) =~= names);
        assert(texts(out@).to_set() =~= a@.difference(b@));
        lemma_listed(texts(out@));
    }
    out
}

pub proof fn lemma_push_contains<T>(s: Seq<T>, item: T)
    ensures
        forall|k: T| #[trigger] s.push(item).contains(k) <==> s.contains(k) || k == item,
{
    assert forall|k: T| #[trigger] s.push(item).contains(k) <==> s.contains(k) || k == item by {
        if s.contains(k) {
            let m = choose|m: int| 0 <= m < s.len() && s[m] == k;
            assert(s.push(item)[m] == k);
        }
        assert(s.push(item)[s.len() as int] == item);
    }
}

impl Clone for TextSet {
    fn clone(&self) -> (r: TextSet)
        ensures
            r@ == self@,
            r.keys() == self.keys(),
            r.ordered(),
    {
        proof {
            use_type_invariant(self);
        }
        TextSet { keys: copy_texts(&self.keys) }
    }
}

/// Copies of texts, in the same order.
pub fn copy_texts(items: &Vec<String>) -> (r: Vec<String>)
    ensures
        texts(r@) == texts(items@),
{
    let mut out: Vec<String> = Vec::new();
    let mut i: usize = 0;
    while i < items.len()
        invariant
            i <= items.len(),
            out.len() == i,
            forall|j: int| 0 <= j < i ==> (#[trigger] out@[j])@ == items@[j]@,
        decreases items.len() - i,
    {
        out.push(items[i].clone());
        i = i + 1;
    }
    assert(texts(out@) =~= texts(items@));
    out
}

/// A copy of an optional text.
pub fn copy_option(value: &Option<String>) -> (r: Option<String>)
    ensures
        crate::text::text_option(r) == crate::text::text_option(*value),
{
    match value {
        Some(text) => Some(text.clone()),
        None => None,
    }
}

/// A map from texts to values, walked in ascending order of its keys.
#[derive(Debug, PartialEq, Eq)]
pub struct TextMap<V> {
    keys: Vec<String>,
    values: Vec<V>,
}

/// The map that pairs each key with the value at the same position.
pub open spec fn paired<V>(keys: Seq<Seq<char>>, values: Seq<V>) -> Map<Seq<char>, V> {
    Map::new(|k: Seq<char>| keys.contains(k), |k: Seq<char>| values[keys.index_of(k)])
}

proof fn lemma_paired_at<V>(keys: Seq<Seq<char>>, values: Seq<V>, i: int)
    requires
        ascending(keys),
        0 <= i < keys.len(),
    ensures
        paired(keys, values).contains_key(keys[i]),
        paired(keys, values)[keys[i]] == values[i],
{
    assert(keys.contains(keys[i]));
    lemma_ascending_unique(keys, keys.index_of(keys[i]), i);
}

impl<V> View for TextMap<V> {
    type V = Map<Seq<char>, V>;

    closed spec fn view(&self) -> Map<Seq<char>, V> {
        paired(texts(self.keys@), self.values@)
    }
}

impl<V> TextMap<V> {
    /// The keys, in ascending order.
    pub closed spec fn keys(self) -> Seq<Seq<char>> {
        texts(self.keys@)
    }

    /// The values, in the order of their keys.
    pub closed spec fn values(self) -> Seq<V> {
        self.values@
    }

    #[verifier::type_invariant]
    closed spec fn well_kept(self) -> bool {
        &&& ascending(texts(self.keys@))
        &&& self.keys@.len() == self.values@.len()
    }

    /// The keys ascend, and each is paired with the value at its position.
    pub open spec fn ordered(self) -> bool {
        &&& ascending(self.keys())
        &&& self.values().len() == self.keys().len()
        &&& self@ == paired(self.keys(), self.values())
    }

    pub fn new() -> (r: Self)
        ensures
            r@ == Map::<Seq<char>, V>::empty(),
            r.keys() == Seq::<Seq<char>>::empty(),
            r.ordered(),
    {
        let r = TextMap { keys: Vec::new(), values: Vec::new() };
        assert(r.keys() =~= Seq::<Seq<char>>::empty());
        assert(r@ =~= Map::<Seq<char>, V>::empty());
        r
    }

    pub fn len(&self) -> (r: usize)
        ensures
            r == self.keys().len(),
            self.ordered(),
    {
        proof {
            use_type_invariant(self);
        }
        self.keys.len()
    }

    pub fn is_empty(&self) -> (r: bool)
        ensures
            r == (self.keys().len() == 0),
            self.ordered(),
    {
        proof {
            use_type_invariant(self);
        }
        self.keys.len() == 0
    }

    /// The key at a position of the ascending order.
    pub fn key_at(&self, i: usize) -> (r: &str)
        requires
            i < self.keys().len(),
        ensures
            r@ == self.keys()[i as int],
            self@.contains_key(r@),
    {
        assert(self.keys().contains(self.keys()[i as int]));
        self.keys[i].as_str()
    }

    /// The value at a position of the ascending order of keys.
    pub fn value_at(&self, i: usize) -> (r: &V)
        requires
            i < self.keys().len(),
        ensures
            *r == self.values()[i as int],
            self@.contains_key(self.keys()[i as int]),
            *r == self@[self.keys()[i as int]],
    {
        proof {
            use_type_invariant(self);
            lemma_paired_at(self.keys(), self.values@, i as int);
        }
        &self.values[i]
    }

    pub fn contains_key(&self, key: &str) -> (r: bool)
        ensures
            r == self@.contains_key(key@),
    {
        proof {
            use_type_invariant(self);
        }
        find(&self.keys, key).1
    }

    pub fn get(&self, key: &str) -> (r: Option<&V>)
        ensures
            match r {
                Some(value) => self@.contains_key(key@) && *value == self@[key@],
                None => !self@.contains_key(key@),
            },
    {
        proof {
            use_type_invariant(self);
        }
        let (at, found) = find(&self.keys, key);
        if found {
            proof {
                lemma_paired_at(self.keys(), self.values@, at as int);
            }
            Some(&self.values[at])
        } else {
            None
        }
    }

    /// Set the value of a key.
    pub fn insert(&mut self, key: String, value: V)
        ensures
            final(self)@ == old(self)@.insert(key@, value),
            final(self).ordered(),
    {
        proof {
            use_type_invariant(&*self);
        }
        let ghost names = texts(self.keys@);
        let ghost held = self.values@;
        let ghost added = key@;
        let (at, found) = find(&self.keys, key.as_str());
        let mut whole = TextMap { keys: Vec::new(), values: Vec::new() };
        std::mem::swap(&mut whole, self);
        let TextMap { keys, values } = whole;
        let mut keys = keys;
        let mut values = values;
        if found {
            values.set(at, value);
            proof {
                let after = held.update(at as int, value);
                assert forall|k: Seq<char>| names.contains(k) implies #[trigger] paired(names, after)[k] == paired(names, held).insert(added, value)[k] by {
                    let i = names.index_of(k);
                    if k == added {
                        lemma_ascending_unique(names, i, at as int);
                    }
                }
                assert(paired(names, after) =~= paired(names, held).insert(added, value));
            }
        } else {
            keys.insert(at, key);
            values.insert(at, value);
            proof {
                let after_names = names.insert(at as int, added);
                let after = held.insert(at as int, value);
                assert(texts(keys@) =~= after_names);
                lemma_insert_ascending(names, at as int, added);
                assert forall|k: Seq<char>| after_names.contains(k) <==> (names.contains(k) || k == added) by {
                    if names.contains(k) {
                        let i = choose|i: int| 0 <= i < names.len() && names[i] == k;
                        assert(after_names[if i < at { i } else { i + 1 }] == k);
                    }
                    if after_names.contains(k) {
                        let i = choose|i: int| 0 <= i < after_names.len() && after_names[i] == k;
                        if i != at {
                            assert(names[if i < at { i } else { i - 1 }] == k);
                        }
                    }
                    assert(after_names[at as int] == added);
                }
                assert forall|k: Seq<char>| after_names.contains(k) implies #[trigger] paired(after_names, after)[k] == paired(names, held).insert(added, value)[k] by {
                    if k == added {
                        lemma_paired_at(after_names, after, at as int);
                    } else {
                        let i = names.index_of(k);
                        let j = if i < at { i } else { i + 1 };
                        assert(after_names[j] == k);
                        lemma_paired_at(after_names, after, j);
                    }
                }
                assert(paired(after_names, after) =~= paired(names, held).insert(added, value));
            }
        }
        *self = TextMap { keys, values };
    }

    /// Take the last key and its value out of the map.
    pub fn pop(&mut self) -> (r: Option<(String, V)>)
        ensures
            match r {
                Some((key, value)) => {
                    &&& old(self)@.contains_key(key@)
                    &&& value == old(self)@[key@]
                    &&& final(self)@ == old(self)@.remove(key@)
                    &&& old(self).keys().len() > 0
                    &&& final(self).keys() == old(self).keys().drop_last()
                },
                None => old(self)@ == Map::<Seq<char>, V>::empty() && final(self)@ == old(self)@,
            },
    {
        proof {
            use_type_invariant(&*self);
        }
        let ghost names = texts(self.keys@);
        let ghost held = self.values@;
        let ghost given = self@;
        let mut whole = TextMap { keys: Vec::new(), values: Vec::new() };
        std::mem::swap(&mut whole, self);
        let TextMap { keys, values } = whole;
        let mut keys = keys;
        let mut values = values;
        let last = (keys.pop(), values.pop());
        match last {
            (Some(key), Some(value)) => {
                proof {
                    let n = names.len() - 1;
                    lemma_paired_at(names, held, n);
                    let after_names = names.drop_last();
                    let after = held.drop_last();
                    assert(texts(keys@) =~= after_names);
                    assert(key@ == names[n]);
                    assert forall|k: Seq<char>| after_names.contains(k) <==> (names.contains(k) && k != key@) by {
                        if names.contains(k) && k != key@ {
                            let i = choose|i: int| 0 <= i < names.len() && names[i] == k;
                            assert(after_names[i] == k);
                        }
                        if after_names.contains(k) {
                            let i = choose|i: int| 0 <= i < after_names.len() && after_names[i] == k;
                            assert(names[i] == k);
                            if k == key@ {
                                lemma_ascending_unique(names, i, n);
                            }
                        }
                    }
                    assert forall|k: Seq<char>| after_names.contains(k) implies #[trigger] paired(after_names, after)[k] == given[k] by {
                        let i = choose|i: int| 0 <= i < after_names.len() && after_names[i] == k;
                        lemma_paired_at(after_names, after, i);
                        lemma_paired_at(names, held, i);
                    }
                    assert(paired(after_names, after) =~= given.remove(key@));
                }
                *self = TextMap { keys, values };
                Some((key, value))
            },
            _ => {
                assert(given =~= Map::<Seq<char>, V>::empty());
                *self = TextMap { keys: Vec::new(), values: Vec::new() };
                assert(self@ =~= given);
                None
            },
        }
    }

    /// Take the value of a key out of the map.
    pub fn remove(&mut self, key: &str) -> (r: Option<V>)
        ensures
            final(self)@ == old(self)@.remove(key@),
            final(self).ordered(),
            match r {
                Some(value) => old(self)@.contains_key(key@) && value == old(self)@[key@],
                None => !old(self)@.contains_key(key@),
            },
    {
        proof {
            use_type_invariant(&*self);
        }
        let ghost names = texts(self.keys@);
        let ghost held = self.values@;
        let (at, found) = find(&self.keys, key);
        if !found {
            assert(old(self)@.remove(key@) =~= old(self)@);
            return None;
        }
        let mut whole = TextMap { keys: Vec::new(), values: Vec::new() };
        std::mem::swap(&mut whole, self);
        let TextMap { keys, values } = whole;
        let mut keys = keys;
        let mut values = values;
        keys.remove(at);
        let value = values.remove(at);
        proof {
            lemma_paired_at(names, held, at as int);
            let after_names = names.remove(at as int);
            let after = held.remove(at as int);
            assert(texts(keys@) =~= after_names);
            lemma_remove_ascending(names, at as int);
            assert forall|k: Seq<char>| after_names.contains(k) <==> (names.contains(k) && k != key@) by {
                if names.contains(k) && k != key@ {
                    let i = choose|i: int| 0 <= i < names.len() && names[i] == k;
                    assert(after_names[if i < at { i } else { i - 1 }] == k);
                }
                if after_names.contains(k) {
                    let i = choose|i: int| 0 <= i < after_names.len() && after_names[i] == k;
                    let j = if i < at { i } else { i + 1 };
                    assert(names[j] == k);
                    if k == key@ {
                        lemma_ascending_unique(names, j, at as int);
                    }
                }
            }
            assert forall|k: Seq<char>| after_names.contains(k) implies #[trigger] paired(after_names, after)[k] == paired(names, held)[k] by {
                let i = names.index_of(k);
                if i == at {
                    assert(k == key@);
                }
                let j = if i < at { i } else { i - 1 };
                assert(after_names[j] == k);
                lemma_paired_at(after_names, after, j);
            }
            assert(paired(after_names, after) =~= paired(names, held).remove(key@));
        }
        *self = TextMap { keys, values };
        Some(value)
    }
}

/// A sorted sequence with one more element in it, behind every element that it
/// does not have to precede.
pub open spec fn placed<T>(sorted: Seq<T>, item: T, in_order: spec_fn(T, T) -> bool) -> Seq<T>
    decreases sorted.len(),
{
    if sorted.len() == 0 || in_order(sorted.last(), item) {
        sorted.push(item)
    } else {
        placed(sorted.drop_last(), item, in_order).push(sorted.last())
    }
}

/// The stable arrangement of a sequence: `in_order(a, b)` says that `a` may
/// precede `b`, and elements that may stand either way keep their order.
pub open spec fn arranged<T>(items: Seq<T>, in_order: spec_fn(T, T) -> bool) -> Seq<T>
    decreases items.len(),
{
    if items.len() == 0 {
        items
    } else {
        placed(arranged(items.drop_last(), in_order), items.last(), in_order)
    }
}

/// Whether `in_order` is a total preorder.
pub open spec fn is_order<T>(in_order: spec_fn(T, T) -> bool) -> bool {
    &&& forall|a: T, b: T| #[trigger] in_order(a, b) || in_order(b, a)
    &&& forall|a: T, b: T, c: T| #[trigger] in_order(a, b) && #[trigger] in_order(b, c) ==> in_order(a, c)
}

/// Whether each element may precede all that follow it.
pub open spec fn in_sequence<T>(items: Seq<T>, in_order: spec_fn(T, T) -> bool) -> bool {
    forall|i: int, j: int| 0 <= i < j < items.len() ==> in_order(#[trigger] items[i], #[trigger] items[j])
}

pub proof fn lemma_placed_len<T>(sorted: Seq<T>, item: T, in_order: spec_fn(T, T) -> bool)
    ensures
        placed(sorted, item, in_order).len() == sorted.len() + 1,
        placed(sorted, item, in_order).to_multiset() == sorted.to_multiset().insert(item),
    decreases sorted.len(),
{
    broadcast use vstd::seq_lib::group_to_multiset_ensures;
    if sorted.len() == 0 || in_order(sorted.last(), item) {
    } else {
        lemma_placed_len(sorted.drop_last(), item, in_order);
        assert(sorted =~= sorted.drop_last().push(sorted.last()));
        assert(placed(sorted, item, in_order).to_multiset() =~= sorted.to_multiset().insert(item));
    }
}

/// Arranging keeps every element, and their number.
pub proof fn lemma_arranged_keeps<T>(items: Seq<T>, in_order: spec_fn(T, T) -> bool)
    ensures
        arranged(items, in_order).len() == items.len(),
        arranged(items, in_order).to_multiset() == items.to_multiset(),
    decreases items.len(),
{
    broadcast use vstd::seq_lib::group_to_multiset_ensures;
    if items.len() > 0 {
        lemma_arranged_keeps(items.drop_last(), in_order);
        lemma_placed_len(arranged(items.drop_last(), in_order), items.last(), in_order);
        assert(items =~= items.drop_last().push(items.last()));
    }
}

proof fn lemma_placed_sorted<T>(sorted: Seq<T>, item: T, in_order: spec_fn(T, T) -> bool)
    requires
        is_order(in_order),
        in_sequence(sorted, in_order),
    ensures
        in_sequence(placed(sorted, item, in_order), in_order),
        forall|i: int| 0 <= i < placed(sorted, item, in_order).len() ==> #[trigger] placed(sorted, item, in_order)[i] == item || sorted.contains(placed(sorted, item, in_order)[i]),
    decreases sorted.len(),
{
    let out = placed(sorted, item, in_order);
    if sorted.len() == 0 || in_order(sorted.last(), item) {
        assert forall|i: int, j: int| 0 <= i < j < out.len() implies in_order(#[trigger] out[i], #[trigger] out[j]) by {
            if j == sorted.len() && i < sorted.len() - 1 {
                assert(in_order(sorted[i], sorted[sorted.len() - 1]));
            }
        }
        assert forall|i: int| 0 <= i < out.len() implies #[trigger] out[i] == item || sorted.contains(out[i]) by {
            if i < sorted.len() {
                assert(sorted[i] == out[i]);
            }
        }
    } else {
        let shorter = sorted.drop_last();
        let head = placed(shorter, item, in_order);
        lemma_placed_sorted(shorter, item, in_order);
        assert forall|i: int, j: int| 0 <= i < j < out.len() implies in_order(#[trigger] out[i], #[trigger] out[j]) by {
            if j < head.len() {
                assert(head[i] == out[i] && head[j] == out[j]);
            } else {
                assert(head[i] == out[i]);
                if head[i] != item {
                    let k = choose|k: int| 0 <= k < shorter.len() && shorter[k] == head[i];
                    assert(shorter.contains(head[i]));
                    assert(sorted[k] == head[i]);
                    assert(in_order(sorted[k], sorted[sorted.len() - 1]));
                } else {
                    assert(in_order(sorted.last(), item) || in_order(item, sorted.last()));
                }
            }
        }
        assert forall|i: int| 0 <= i < out.len() implies #[trigger] out[i] == item || sorted.contains(out[i]) by {
            if i < head.len() {
                assert(head[i] == out[i]);
                if head[i] != item {
                    let k = choose|k: int| 0 <= k < shorter.len() && shorter[k] == head[i];
                    assert(sorted[k] == out[i]);
                }
            } else {
                assert(sorted[sorted.len() - 1] == out[i]);
            }
        }
    }
}

/// Arranging by a total preorder puts every pair in order.
pub proof fn lemma_arranged_sorted<T>(items: Seq<T>, in_order: spec_fn(T, T) -> bool)
    requires
        is_order(in_order),
    ensures
        in_sequence(arranged(items, in_order), in_order),
    decreases items.len(),
{
    if items.len() > 0 {
        lemma_arranged_sorted(items.drop_last(), in_order);
        lemma_placed_sorted(arranged(items.drop_last(), in_order), items.last(), in_order);
    }
}

proof fn lemma_placed_split<T>(sorted: Seq<T>, item: T, in_order: spec_fn(T, T) -> bool, at: int)
    requires
        0 <= at <= sorted.len(),
        forall|k: int| at <= k < sorted.len() ==> !in_order(#[trigger] sorted[k], item),
        at > 0 ==> in_order(sorted[at - 1], item),
    ensures
        placed(sorted, item, in_order) == sorted.insert(at, item),
    decreases sorted.len(),
{
    if at == sorted.len() {
        assert(sorted.insert(at, item) =~= sorted.push(item));
    } else {
        assert(!in_order(sorted[sorted.len() - 1], item));
        let shorter = sorted.drop_last();
        assert forall|k: int| at <= k < shorter.len() implies !in_order(#[trigger] shorter[k], item) by {
            assert(shorter[k] == sorted[k]);
        }
        lemma_placed_split(shorter, item, in_order, at);
        assert(sorted.insert(at, item) =~= shorter.insert(at, item).push(sorted.last()));
    }
}

/// Arrange a list in place; an element may precede another that it is not
/// ranked after.
pub fn arrange<T, F: Fn(&T, &T) -> Rank>(items: &mut Vec<T>, rank_of: F, Ghost(in_order): Ghost<spec_fn(T, T) -> bool>)
    requires
        forall|a: &T, b: &T| #[trigger] rank_of.requires((a, b)),
        forall|a: &T, b: &T, r: Rank| #[trigger] rank_of.ensures((a, b), r) ==> (r != Rank::After) == in_order(*a, *b),
    ensures
        final(items)@ == arranged(old(items)@, in_order),
{
    let ghost given = items@;
    let n: usize = items.len();
    let mut i: usize = 0;
    assert(given.take(0) =~= Seq::<T>::empty());
    assert(given =~= arranged(given.take(0), in_order) + given.skip(0));
    while i < n
        invariant
            i <= n == given.len(),
            items@ == arranged(given.take(i as int), in_order) + given.skip(i as int),
            forall|a: &T, b: &T| #[trigger] rank_of.requires((a, b)),
            forall|a: &T, b: &T, r: Rank| #[trigger] rank_of.ensures((a, b), r) ==> (r != Rank::After) == in_order(*a, *b),
        decreases n - i,
    {
        let ghost sorted = arranged(given.take(i as int), in_order);
        proof {
            lemma_arranged_keeps(given.take(i as int), in_order);
        }
        let item = items.remove(i);
        assert(item == given[i as int]);
        assert(items@ =~= sorted + given.skip(i + 1));
        let mut at: usize = i;
        while at > 0 && rank_of(&items[at - 1], &item) == Rank::After
            invariant
                at <= i < n == given.len(),
                sorted.len() == i,
                items@ == sorted + given.skip(i + 1),
                forall|k: int| at <= k < i ==> !in_order(#[trigger] sorted[k], item),
                forall|a: &T, b: &T| #[trigger] rank_of.requires((a, b)),
                forall|a: &T, b: &T, r: Rank| #[trigger] rank_of.ensures((a, b), r) ==> (r != Rank::After) == in_order(*a, *b),
            ensures
                at > 0 ==> in_order(sorted[at - 1], item),
            decreases at,
        {
            at = at - 1;
        }
        items.insert(at, item);
        proof {
            lemma_placed_split(sorted, item, in_order, at as int);
            assert(given.take(i + 1).drop_last() =~= given.take(i as int));
            assert(items@ =~= sorted.insert(at as int, item) + given.skip(i + 1));
        }
        i = i + 1;
    }
    assert(given.take(n as int) =~= given);
    assert(items@ =~= arranged(given, in_order));
}

} // verus!

//! Bounded walks over relationships.

use vstd::prelude::*;

use crate::collections::TextMap;
use crate::graph::Direction;
use crate::text::texts;

verus! {

/// Everything within a number of hops of a set.
pub open spec fn within(start: Set<Seq<char>>, hop: spec_fn(Seq<char>, Seq<char>) -> bool, hops: nat) -> Set<Seq<char>>
    decreases hops,
{
    if hops == 0 {
        start
    } else {
        let nearer = within(start, hop, (hops - 1) as nat);
        nearer.union(Set::new(|b: Seq<char>| one_hop(nearer, hop, b)))
    }
}

/// Whether something lies one hop from a set.
pub open spec fn one_hop(from: Set<Seq<char>>, hop: spec_fn(Seq<char>, Seq<char>) -> bool, b: Seq<char>) -> bool {
    exists|a: Seq<char>| from.contains(a) && #[trigger] hop(a, b)
}

/// Whether something is first met after a number of hops.
pub open spec fn met_at(start: Set<Seq<char>>, hop: spec_fn(Seq<char>, Seq<char>) -> bool, hops: nat, b: Seq<char>) -> bool {
    within(start, hop, hops).contains(b) && (hops > 0 ==> !within(start, hop, (hops - 1) as nat).contains(b))
}

/// Whether a map holds what lies within a number of hops of a set, each with
/// the fewest hops it is met by.
pub open spec fn is_reach(reached: Map<Seq<char>, u32>, start: Set<Seq<char>>, hop: spec_fn(Seq<char>, Seq<char>) -> bool, hops: nat) -> bool {
    &&& forall|b: Seq<char>| #[trigger] reached.contains_key(b) <==> within(start, hop, hops).contains(b)
    &&& forall|b: Seq<char>| #[trigger] reached.contains_key(b) ==> reached[b] <= hops && met_at(start, hop, reached[b] as nat, b)
}

/// More hops never reach less.
pub proof fn lemma_within_grows(start: Set<Seq<char>>, hop: spec_fn(Seq<char>, Seq<char>) -> bool, m: nat, n: nat)
    requires
        m <= n,
    ensures
        within(start, hop, m).subset_of(within(start, hop, n)),
    decreases n,
{
    if m < n {
        lemma_within_grows(start, hop, m, (n - 1) as nat);
    }
}

/// Nothing is first met after two different numbers of hops.
pub proof fn lemma_met_once(start: Set<Seq<char>>, hop: spec_fn(Seq<char>, Seq<char>) -> bool, m: nat, n: nat, b: Seq<char>)
    requires
        met_at(start, hop, m, b),
        met_at(start, hop, n, b),
    ensures
        m == n,
{
    if m < n {
        lemma_within_grows(start, hop, m, (n - 1) as nat);
    } else if n < m {
        lemma_within_grows(start, hop, n, (m - 1) as nat);
    }
}

/// The reach of a walk is determined by its start, its hops and their number.
pub proof fn lemma_reach_unique(a: Map<Seq<char>, u32>, b: Map<Seq<char>, u32>, start: Set<Seq<char>>, hop: spec_fn(Seq<char>, Seq<char>) -> bool, hops: nat)
    requires
        is_reach(a, start, hop, hops),
        is_reach(b, start, hop, hops),
    ensures
        a == b,
{
    assert forall|k: Seq<char>| a.contains_key(k) implies a[k] == b[k] by {
        assert(b.contains_key(k));
        lemma_met_once(start, hop, a[k] as nat, b[k] as nat, k);
    }
    assert forall|k: Seq<char>| a.contains_key(k) <==> b.contains_key(k) by {}
    assert(a =~= b);
}

/// A reach that one more hop does not widen is not widened by any.
pub proof fn lemma_settles(start: Set<Seq<char>>, hop: spec_fn(Seq<char>, Seq<char>) -> bool, m: nat, n: nat)
    requires
        m <= n,
        within(start, hop, m + 1) == within(start, hop, m),
    ensures
        within(start, hop, n) == within(start, hop, m),
    decreases n,
{
    if m < n {
        lemma_settles(start, hop, m, (n - 1) as nat);
        assert(within(start, hop, n) =~= within(start, hop, m + 1));
    }
}

/// Whether a walk in a direction follows a one-way step.
pub open spec fn follows(direction: Direction, one_way: Direction) -> bool {
    match one_way {
        Direction::Upstream => direction == Direction::Upstream || direction == Direction::Both,
        Direction::Downstream => direction == Direction::Downstream || direction == Direction::Both,
        Direction::Both => false,
    }
}

/// Whether a neighbor function leads from one identity to another in one way.
pub open spec fn leads<F: Fn(&str, Direction) -> Vec<String>>(neighbors: F, one_way: Direction, a: Seq<char>, b: Seq<char>) -> bool {
    exists|id: &str, out: Vec<String>| id@ == a && #[trigger] neighbors.ensures((id, one_way), out) && texts(out@).contains(b)
}

/// The hops that a walk takes along one-way steps.
pub open spec fn hops_along(way: spec_fn(Direction, Seq<char>, Seq<char>) -> bool, direction: Direction) -> spec_fn(
    Seq<char>,
    Seq<char>,
) -> bool {
    |a: Seq<char>, b: Seq<char>|
        (follows(direction, Direction::Upstream) && way(Direction::Upstream, a, b)) || (follows(direction, Direction::Downstream) && way(
            Direction::Downstream,
            a,
            b,
        ))
}

/// The hops that a walk takes along a neighbor function.
pub open spec fn walk_hop<F: Fn(&str, Direction) -> Vec<String>>(neighbors: F, direction: Direction) -> spec_fn(
    Seq<char>,
    Seq<char>,
) -> bool {
    hops_along(|d: Direction, a: Seq<char>, b: Seq<char>| leads(neighbors, d, a, b), direction)
}

/// Whether a walk steps on from something: it meets it with hops to spare.
pub open spec fn steps_from(start: Set<Seq<char>>, hop: spec_fn(Seq<char>, Seq<char>) -> bool, hops: nat, a: Seq<char>) -> bool {
    hops > 0 && within(start, hop, (hops - 1) as nat).contains(a)
}

/// Whether a function can be asked wherever a walk steps on, in the ways that
/// the walk follows and in no other, and answers alike for the same identity.
pub open spec fn answers_neighbors<F: Fn(&str, Direction) -> Vec<String>>(neighbors: F, start: Set<Seq<char>>, direction: Direction, hops: nat) -> bool {
    &&& forall|id: &str, d: Direction|
        follows(direction, d) && steps_from(start, walk_hop(neighbors, direction), hops, id@) ==> #[trigger] neighbors.requires((id, d))
    &&& forall|a: &str, b: &str, d: Direction, x: Vec<String>, y: Vec<String>|
        follows(direction, d) && a@ == b@ && #[trigger] neighbors.ensures((a, d), x) && #[trigger] neighbors.ensures((b, d), y) ==> texts(
            x@,
        ).to_set() == texts(y@).to_set()
}

/// Whether a function answers what one-way steps lead to, wherever a walk steps
/// on.
pub open spec fn answers<F: Fn(&str, Direction) -> Vec<String>>(
    neighbors: F,
    way: spec_fn(Direction, Seq<char>, Seq<char>) -> bool,
    start: Set<Seq<char>>,
    direction: Direction,
    hops: nat,
) -> bool {
    &&& forall|id: &str, d: Direction|
        follows(direction, d) && steps_from(start, hops_along(way, direction), hops, id@) ==> #[trigger] neighbors.requires((id, d))
    &&& forall|id: &str, d: Direction, out: Vec<String>, b: Seq<char>|
        follows(direction, d) && #[trigger] neighbors.ensures((id, d), out) ==> (#[trigger] texts(out@).contains(b) <==> way(d, id@, b))
}

/// Identities a walk reached, each with the fewest hops it took.
pub type Reached = TextMap<u32>;

/// Meet the neighbors of one identity in one way.
fn meet<F: Fn(&str, Direction) -> Vec<String>>(
    neighbors: &F,
    current: &str,
    one_way: Direction,
    hops: u32,
    reached: &mut Reached,
    next: &mut Vec<String>,
    Ghost(way): Ghost<spec_fn(Direction, Seq<char>, Seq<char>) -> bool>,
)
    requires
        neighbors.requires((current, one_way)),
        forall|out: Vec<String>, b: Seq<char>| #[trigger]
            neighbors.ensures((current, one_way), out) ==> (#[trigger] texts(out@).contains(b) <==> way(one_way, current@, b)),
    ensures
        forall|b: Seq<char>| #[trigger]
            final(reached)@.contains_key(b) <==> old(reached)@.contains_key(b) || way(one_way, current@, b),
        forall|b: Seq<char>| #[trigger]
            final(reached)@.contains_key(b) ==> final(reached)@[b] == if old(reached)@.contains_key(b) {
                old(reached)@[b]
            } else {
                hops
            },
        forall|b: Seq<char>| #[trigger]
            texts(final(next)@).contains(b) <==> texts(old(next)@).contains(b) || (final(reached)@.contains_key(b) && !old(
                reached,
            )@.contains_key(b)),
{
    let found = neighbors(current, one_way);
    let ghost names = texts(found@);
    let ghost held = reached@;
    let ghost queued = texts(next@);
    let mut i: usize = 0;
    while i < found.len()
        invariant
            i <= found.len(),
            names == texts(found@),
            forall|b: Seq<char>| #[trigger] reached@.contains_key(b) <==> held.contains_key(b) || names.take(i as int).contains(b),
            forall|b: Seq<char>| #[trigger]
                reached@.contains_key(b) ==> reached@[b] == if held.contains_key(b) {
                    held[b]
                } else {
                    hops
                },
            forall|b: Seq<char>| #[trigger]
                texts(next@).contains(b) <==> queued.contains(b) || (reached@.contains_key(b) && !held.contains_key(b)),
        decreases found.len() - i,
    {
        let ghost name = names[i as int];
        let ghost so_far = reached@;
        let ghost waiting = texts(next@);
        proof {
            assert(name == found@[i as int]@);
            assert(names.take(i + 1) =~= names.take(i as int).push(name));
            crate::collections::lemma_push_contains(names.take(i as int), name);
        }
        if !reached.contains_key(found[i].as_str()) {
            reached.insert(found[i].clone(), hops);
            next.push(found[i].clone());
            proof {
                assert(texts(next@) =~= waiting.push(name));
                crate::collections::lemma_push_contains(waiting, name);
            }
        }
        i = i + 1;
    }
    proof {
        assert(names.take(i as int) =~= names);
        assert(neighbors.ensures((current, one_way), found));
        assert forall|b: Seq<char>| #[trigger] names.contains(b) <==> way(one_way, current@, b) by {
            assert(texts(found@).contains(b) <==> way(one_way, current@, b));
        }
    }
}

/// Walk outward from every root along one-way steps, bounded by depth.
pub(crate) fn walk_along<F>(roots: &Vec<String>, direction: Direction, depth: u32, neighbors: F, Ghost(way): Ghost<spec_fn(Direction, Seq<char>, Seq<char>) -> bool>) -> (r: Reached) where F: Fn(&str, Direction) -> Vec<String>
    requires
        answers(neighbors, way, texts(roots@).to_set(), direction, depth as nat),
    ensures
        is_reach(r@, texts(roots@).to_set(), hops_along(way, direction), depth as nat),
{
    let ghost start = texts(roots@).to_set();
    let ghost hop = hops_along(way, direction);
    let mut reached: Reached = TextMap::new();
    let mut frontier: Vec<String> = Vec::new();
    let mut i: usize = 0;
    while i < roots.len()
        invariant
            i <= roots.len(),
            forall|b: Seq<char>| #[trigger] reached@.contains_key(b) <==> texts(roots@).take(i as int).contains(b),
            forall|b: Seq<char>| #[trigger] reached@.contains_key(b) ==> reached@[b] == 0,
            forall|b: Seq<char>| #[trigger] texts(frontier@).contains(b) <==> reached@.contains_key(b),
        decreases roots.len() - i,
    {
        let ghost names = texts(roots@);
        let ghost waiting = texts(frontier@);
        proof {
            assert(names[i as int] == roots@[i as int]@);
            assert(names.take(i + 1) =~= names.take(i as int).push(names[i as int]));
            crate::collections::lemma_push_contains(names.take(i as int), names[i as int]);
        }
        if !reached.contains_key(roots[i].as_str()) {
            reached.insert(roots[i].clone(), 0);
            frontier.push(roots[i].clone());
            proof {
                assert(texts(frontier@) =~= waiting.push(names[i as int]));
                crate::collections::lemma_push_contains(waiting, names[i as int]);
            }
        }
        i = i + 1;
    }
    proof {
        assert(texts(roots@).take(i as int) =~= texts(roots@));
        assert(is_reach(reached@, start, hop, 0));
        assert forall|b: Seq<char>| #[trigger] texts(frontier@).contains(b) <==> met_at(start, hop, 0, b) by {
            assert(reached@.contains_key(b) <==> start.contains(b));
        }
    }
    let mut hops: u32 = 0;
    while hops < depth && frontier.len() > 0
        invariant
            answers(neighbors, way, start, direction, depth as nat),
            start == texts(roots@).to_set(),
            hop == hops_along(way, direction),
            hops <= depth,
            is_reach(reached@, start, hop, hops as nat),
            forall|b: Seq<char>| #[trigger] texts(frontier@).contains(b) <==> met_at(start, hop, hops as nat, b),
        decreases depth - hops,
    {
        let ghost before_level = reached@;
        let ghost level = texts(frontier@);
        let mut next: Vec<String> = Vec::new();
        let mut i: usize = 0;
        assert(texts(next@) =~= Seq::<Seq<char>>::empty());
        proof {
            lemma_within_grows(start, hop, hops as nat, (depth - 1) as nat);
        }
        while i < frontier.len()
            invariant
                answers(neighbors, way, start, direction, depth as nat),
                hop == hops_along(way, direction),
                hops < depth,
                forall|b: Seq<char>| #[trigger] level.contains(b) ==> steps_from(start, hop, depth as nat, b),
                i <= frontier.len(),
                level == texts(frontier@),
                forall|b: Seq<char>| #[trigger]
                    reached@.contains_key(b) <==> before_level.contains_key(b) || one_hop(level.take(i as int).to_set(), hop, b),
                forall|b: Seq<char>| #[trigger]
                    reached@.contains_key(b) ==> reached@[b] == if before_level.contains_key(b) {
                        before_level[b]
                    } else {
                        (hops + 1) as u32
                    },
                forall|b: Seq<char>| #[trigger]
                    texts(next@).contains(b) <==> reached@.contains_key(b) && !before_level.contains_key(b),
            decreases frontier.len() - i,
        {
            let ghost held = reached@;
            let ghost name = level[i as int];
            assert(name == frontier@[i as int]@);
            assert(level.contains(name));
            let current = frontier[i].as_str();
            let up = match direction {
                Direction::Upstream | Direction::Both => true,
                Direction::Downstream => false,
            };
            let down = match direction {
                Direction::Downstream | Direction::Both => true,
                Direction::Upstream => false,
            };
            if up {
                meet(&neighbors, current, Direction::Upstream, hops + 1, &mut reached, &mut next, Ghost(way));
            }
            if down {
                meet(&neighbors, current, Direction::Downstream, hops + 1, &mut reached, &mut next, Ghost(way));
            }
            proof {
                assert forall|b: Seq<char>| #[trigger] reached@.contains_key(b) <==> held.contains_key(b) || hop(name, b) by {}
                assert(level.take(i + 1) =~= level.take(i as int).push(name));
                crate::collections::lemma_push_contains(level.take(i as int), name);
                assert forall|b: Seq<char>| one_hop(level.take(i + 1).to_set(), hop, b) <==> one_hop(
                    level.take(i as int).to_set(),
                    hop,
                    b,
                ) || hop(name, b) by {
                    if one_hop(level.take(i + 1).to_set(), hop, b) {
                        let a = choose|a: Seq<char>| level.take(i + 1).to_set().contains(a) && #[trigger] hop(a, b);
                        assert(level.take(i + 1).contains(a));
                        if a != name {
                            assert(level.take(i as int).to_set().contains(a));
                        }
                    }
                    if one_hop(level.take(i as int).to_set(), hop, b) {
                        let a = choose|a: Seq<char>| level.take(i as int).to_set().contains(a) && #[trigger] hop(a, b);
                        assert(level.take(i + 1).contains(a));
                        assert(level.take(i + 1).to_set().contains(a));
                    }
                    if hop(name, b) {
                        assert(level.take(i + 1).contains(name));
                        assert(level.take(i + 1).to_set().contains(name));
                    }
                }
            }
            i = i + 1;
        }
        proof {
            assert(level.take(i as int) =~= level);
            let here = hops as nat;
            assert forall|b: Seq<char>| #[trigger] reached@.contains_key(b) <==> within(start, hop, here + 1).contains(b) by {
                lemma_level(start, hop, here, level, b);
            }
            lemma_within_grows(start, hop, here, here + 1);
            assert forall|b: Seq<char>| #[trigger] reached@.contains_key(b) implies reached@[b] <= here + 1 && met_at(
                start,
                hop,
                reached@[b] as nat,
                b,
            ) by {
                if !before_level.contains_key(b) {
                    assert(!within(start, hop, here).contains(b));
                }
            }
            assert forall|b: Seq<char>| #[trigger] texts(next@).contains(b) <==> met_at(start, hop, here + 1, b) by {
                assert(before_level.contains_key(b) <==> within(start, hop, here).contains(b));
                assert(reached@.contains_key(b) <==> within(start, hop, here + 1).contains(b));
            }
        }
        frontier = next;
        hops = hops + 1;
    }
    proof {
        if hops < depth {
            lemma_nothing_further(start, hop, hops as nat, texts(frontier@));
            lemma_settles(start, hop, hops as nat, depth as nat);
            assert(is_reach(reached@, start, hop, depth as nat));
        }
    }
    reached
}

/// Walk outward from every root, bounded by depth.
///
/// Breadth-first, so a node records the fewest hops by which it was reached. A
/// node already met is not met again, so the walk ends through a cycle.
///
/// `neighbors` answers what lies one hop from an identity in one direction; it
/// is the only thing that knows where relationships come from. It is asked one
/// way at a time, and only of identities met with hops to spare.
#[must_use]
pub fn walk<F>(roots: &Vec<String>, direction: Direction, depth: u32, neighbors: F) -> (r: Reached) where F: Fn(&str, Direction) -> Vec<String>
    requires
        answers_neighbors(neighbors, texts(roots@).to_set(), direction, depth as nat),
    ensures
        is_reach(r@, texts(roots@).to_set(), walk_hop(neighbors, direction), depth as nat),
{
    let ghost way = |d: Direction, a: Seq<char>, b: Seq<char>| leads(neighbors, d, a, b);
    proof {
        assert forall|id: &str, d: Direction, out: Vec<String>, b: Seq<char>|
            follows(direction, d) && #[trigger] neighbors.ensures((id, d), out) implies (#[trigger] texts(out@).contains(b) <==> way(d, id@, b)) by {
            if leads(neighbors, d, id@, b) {
                let (other, found) = choose|other: &str, found: Vec<String>|
                    other@ == id@ && #[trigger] neighbors.ensures((other, d), found) && texts(found@).contains(b);
                assert(texts(found@).to_set().contains(b));
                assert(texts(out@).to_set().contains(b));
            }
        }
    }
    walk_along(roots, direction, depth, neighbors, Ghost(way))
}

/// What one more hop adds is what lies one hop from the last level.
proof fn lemma_level(start: Set<Seq<char>>, hop: spec_fn(Seq<char>, Seq<char>) -> bool, hops: nat, level: Seq<Seq<char>>, b: Seq<char>)
    requires
        forall|c: Seq<char>| #[trigger] level.contains(c) <==> met_at(start, hop, hops, c),
    ensures
        within(start, hop, hops + 1).contains(b) <==> within(start, hop, hops).contains(b) || one_hop(level.to_set(), hop, b),
{
    let here = within(start, hop, hops);
    if one_hop(here, hop, b) {
        let a = choose|a: Seq<char>| here.contains(a) && #[trigger] hop(a, b);
        if met_at(start, hop, hops, a) {
            assert(level.to_set().contains(a));
        } else {
            let nearer = within(start, hop, (hops - 1) as nat);
            assert(nearer.contains(a) && hop(a, b));
            assert(one_hop(nearer, hop, b));
        }
    }
    if one_hop(level.to_set(), hop, b) {
        let a = choose|a: Seq<char>| level.to_set().contains(a) && #[trigger] hop(a, b);
        assert(level.contains(a));
        assert(here.contains(a) && hop(a, b));
        assert(one_hop(here, hop, b));
    }
}

/// Where the last level is empty, one more hop adds nothing.
proof fn lemma_nothing_further(start: Set<Seq<char>>, hop: spec_fn(Seq<char>, Seq<char>) -> bool, hops: nat, level: Seq<Seq<char>>)
    requires
        level.len() == 0,
        forall|c: Seq<char>| #[trigger] level.contains(c) <==> met_at(start, hop, hops, c),
    ensures
        within(start, hop, hops + 1) == within(start, hop, hops),
{
    assert forall|b: Seq<char>| within(start, hop, hops + 1).contains(b) <==> within(start, hop, hops).contains(b) by {
        lemma_level(start, hop, hops, level, b);
        if one_hop(level.to_set(), hop, b) {
            let a = choose|a: Seq<char>| level.to_set().contains(a) && #[trigger] hop(a, b);
            assert(level.contains(a));
        }
    }
    assert(within(start, hop, hops + 1) =~= within(start, hop, hops));
}

} // verus!
